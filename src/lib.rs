//! A compiler for glaze, a small indentation-based stylesheet language, to CSS.
//!
//! Source bytes are read by [`parser::parse`] into a syntax tree, which
//! [`generator::Generator`] walks to write CSS. What the generator computes is
//! stated in [`semantics`] and proved.
use vstd::prelude::*;

pub mod error;
pub mod generator;
pub mod grammar;
pub mod laws;
pub mod lexer;
pub mod nodes;
pub mod num;
pub mod parser;
pub mod semantics;
pub mod value;

use crate::error::Error;
use crate::generator::Generator;
use crate::nodes::Node;
use crate::grammar::stylesheet;
use crate::nodes::nodes_v;
use crate::semantics::generate_css;

verus! {

/// Generates the CSS and JS (always empty) of a syntax tree.
pub fn compile_nodes(nodes: Vec<Node>) -> (r: Result<(Vec<u8>, Vec<u8>), Error>)
    ensures
        match generate_css(nodes@) {
            Ok(css) => r matches Ok((c, j)) && c@ == css && j@.len() == 0,
            Err(f) => r matches Err(e) && e@ == f,
        },
{
    let mut g = Generator::new();
    g.generate(nodes)
}

/// Compiles glaze source to `(css, js)`; the JS is always empty. A syntax
/// error is the stylesheet grammar's error; otherwise the result is what
/// generation gives for the tree that the grammar reads from the source.
pub fn compile(source: &[u8]) -> (r: Result<(Vec<u8>, Vec<u8>), Error>)
    requires
        source@.len() < usize::MAX,
    ensures
        match stylesheet(source@, 0) {
            Err(f) => r matches Err(e) && e@ == f,
            Ok(t) => exists|n: Seq<Node>| #![trigger nodes_v(n)] nodes_v(n) == t && match generate_css(n) {
                Ok(css) => r matches Ok((c, j)) && c@ == css && j@.len() == 0,
                Err(f) => r matches Err(e) && e@ == f,
            },
        },
{
    match parser::parse(source) {
        Ok(nodes) => {
            let ghost n = nodes@;
            let r = compile_nodes(nodes);
            assert(nodes_v(n) == stylesheet(source@, 0)->Ok_0);
            r
        },
        Err(e) => Err(e),
    }
}

} // verus!
