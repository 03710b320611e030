use glaze::compile;
use glaze::error::ErrorKind;

fn css(source: &str) -> String {
    let (css, js) = compile(source.as_bytes()).unwrap();
    assert!(js.is_empty());
    String::from_utf8(css).unwrap()
}

fn fails(source: &str) -> (ErrorKind, String, Option<(usize, usize)>) {
    match compile(source.as_bytes()) {
        Ok((css, _)) => panic!("expected an error, got {:?}", String::from_utf8(css)),
        Err(e) => (e.kind, String::from_utf8(e.detail).unwrap(), e.at),
    }
}

#[test]
fn example_end_to_end() {
    assert_eq!(
        css(".class\n\tspan\n\t\tcolor: lightgray\n\tp\n\t\tcolor: gray\n"),
        ".class span {\n\tcolor: lightgray;\n}\n\n.class p {\n\tcolor: gray;\n}\n\n"
    );
}

#[test]
fn example_mixin_with_braces() {
    assert_eq!(
        css("color-weight(c, w)\n\tcolor: {c}\n\tfont-weight: {w}\n\n.class\n\tcolor-weight(blue, 600)\n"),
        ".class {\n\tcolor: blue;\n\tfont-weight: 600;\n}\n\n"
    );
}

#[test]
fn example_undefined_variable() {
    let (kind, name, at) = fails(".a\n\tcolor: $missing\n");
    assert_eq!(kind, ErrorKind::UndefinedVariable);
    assert_eq!(name, "missing");
    assert_eq!(at, Some((2, 9)));
}

#[test]
fn nesting_three_levels_in_order() {
    assert_eq!(
        css(".class\n\tspan\n\t\tcolor: red\n\tp\n\t\tcolor: blue\n\t\tb\n\t\t\tcolor: green\n"),
        ".class span {\n\tcolor: red;\n}\n\n.class p {\n\tcolor: blue;\n}\n\n.class p b {\n\tcolor: green;\n}\n\n"
    );
}

#[test]
fn nesting_under_a_selector_list() {
    assert_eq!(
        css("a, b\n\ti, em\n\t\tcolor: red\n"),
        "a i,\nb i,\na em,\nb em {\n\tcolor: red;\n}\n\n"
    );
}

#[test]
fn parent_reference_is_replaced() {
    assert_eq!(
        css(".class\n\tp\n\t\t&:hover\n\t\t\tcolor: blue\n"),
        ".class p:hover {\n\tcolor: blue;\n}\n\n"
    );
}

#[test]
fn parent_reference_twice() {
    assert_eq!(
        css(".a\n\t& + &\n\t\tmargin: 0\n"),
        ".a + .a {\n\tmargin: 0;\n}\n\n"
    );
}

#[test]
fn mixin_called_twice_independently() {
    assert_eq!(
        css("pad(x)\n\t$y = $x\n\tpadding: $y\n\n.a\n\tpad(1px)\n\tpad(2px)\n"),
        ".a {\n\tpadding: 1px;\n\tpadding: 2px;\n}\n\n"
    );
}

#[test]
fn mixin_scope_does_not_leak() {
    let (kind, name, _) = fails("set(x)\n\t$inner = $x\n\tcolor: $x\n\n.a\n\tset(red)\n\tbackground: $inner\n");
    assert_eq!(kind, ErrorKind::UndefinedVariable);
    assert_eq!(name, "inner");
}

#[test]
fn mixin_calls_mixin() {
    assert_eq!(
        css("inner(v)\n\tcolor: $v\n\nouter(v)\n\tinner($v)\n\tborder: none\n\n.a\n\touter(red)\n"),
        ".a {\n\tcolor: red;\n\tborder: none;\n}\n\n"
    );
}

#[test]
fn first_declared_mixin_wins() {
    assert_eq!(
        css("m()\n\tcolor: red\n\nm()\n\tcolor: blue\n\n.a\n\tm()\n"),
        ".a {\n\tcolor: red;\n}\n\n"
    );
}

#[test]
fn shadowing_in_same_block() {
    assert_eq!(
        css(".a\n\t$x = 1px\n\t$x = 2px\n\twidth: $x\n"),
        ".a {\n\twidth: 2px;\n}\n\n"
    );
}

#[test]
fn inner_scope_reads_outer_and_leaves_it() {
    assert_eq!(
        css(".a\n\t$x = 1px\n\t.b\n\t\t$x = 2px\n\t\twidth: $x\n\t.c\n\t\twidth: $x\n"),
        ".a .b {\n\twidth: 2px;\n}\n\n.a .c {\n\twidth: 1px;\n}\n\n"
    );
}

#[test]
fn top_level_variables() {
    assert_eq!(css("$c = red\n.a\n\tcolor: $c\n"), ".a {\n\tcolor: red;\n}\n\n");
}

#[test]
fn empty_blocks_are_suppressed() {
    assert_eq!(css(".a\n\t.b\n\t\tcolor: red\n"), ".a .b {\n\tcolor: red;\n}\n\n");
    assert_eq!(css(".a\n\t$x = 1\n"), "");
    assert_eq!(css("m()\n\t$y = 1\n\n.a\n\tm()\n"), "");
}

#[test]
fn compiling_twice_gives_the_same_output() {
    let source = "m(x)\n\tcolor: $x\n\n.a\n\tm(red)\n\tp\n\t\t&:hover\n\t\t\tcolor: blue\n";
    assert_eq!(compile(source.as_bytes()).unwrap(), compile(source.as_bytes()).unwrap());
}

#[test]
fn comments_pass_through() {
    assert_eq!(
        css("/* header */\n// dropped\n.a\n\tcolor: red // also dropped\n"),
        "/* header */\n\n.a {\n\tcolor: red;\n}\n\n"
    );
}

#[test]
fn four_space_indentation() {
    assert_eq!(css(".a\n    p\n        color: red\n"), ".a p {\n\tcolor: red;\n}\n\n");
}

#[test]
fn arithmetic() {
    assert_eq!(
        css(".a\n\tw: 2 * 3\n\tx: 10 / 4\n\ty: 1 - 3\n\tz: 0.1 + 0.2\n\tq: 1 / 3\n"),
        ".a {\n\tw: 6;\n\tx: 2.5;\n\ty: -2;\n\tz: 0.3;\n\tq: 0.333333;\n}\n\n"
    );
}

#[test]
fn operators_group_to_the_right() {
    assert_eq!(css(".a\n\tw: 10 - 2 - 3\n"), ".a {\n\tw: 11;\n}\n\n");
}

#[test]
fn numbers_and_dimensions() {
    assert_eq!(
        css(".a\n\tm: -1.50em 0.125px 7%\n"),
        ".a {\n\tm: -1.5em 0.125px 7%;\n}\n\n"
    );
}

#[test]
fn ranges_and_arrays() {
    assert_eq!(
        css(".a\n\tr: 1..4\n\ts: 1..=3\n\tt: [1, 2] ++ [3]\n\tu: 0 ++ [1]\n\tv: [1] ++ 2\n"),
        ".a {\n\tr: 1, 2, 3;\n\ts: 1, 2, 3;\n\tt: 1, 2, 3;\n\tu: 0, 1;\n\tv: 1, 2;\n}\n\n"
    );
}

#[test]
fn string_and_tuple_concatenation() {
    assert_eq!(
        css(".a\n\tcontent: \"ab\" ++ 'cd'\n\tt: (1, 2) ++ 3\n"),
        ".a {\n\tcontent: \"abcd\";\n\tt: 1 2 3;\n}\n\n"
    );
}

#[test]
fn objects_and_indexing() {
    assert_eq!(
        css(".a\n\t$o = {inner: {size: 4px}, name: x}\n\t$l = [a, b, c]\n\twidth: $o.inner.size\n\tname: $o.name\n\titem: $l[1]\n"),
        ".a {\n\twidth: 4px;\n\tname: x;\n\titem: b;\n}\n\n"
    );
}

#[test]
fn for_loops() {
    assert_eq!(
        css(".a\n\t$sum = 0\n\tfor $i in 1..=4\n\t\t$sum = $sum + $i\n\ttotal: $sum\n"),
        ".a {\n\ttotal: 10;\n}\n\n"
    );
}

#[test]
fn functions_return_values() {
    assert_eq!(
        css("double(x)\n\treturn $x * 2\n\n.a\n\twidth: double(21)\n"),
        ".a {\n\twidth: 42;\n}\n\n"
    );
}

#[test]
fn function_returns_from_loop() {
    assert_eq!(
        css("first(l)\n\tfor $i in $l\n\t\treturn $i\n\n.a\n\tv: first([7, 8])\n"),
        ".a {\n\tv: 7;\n}\n\n"
    );
}

#[test]
fn interpolation() {
    assert_eq!(
        css(".a\n\t$n = 3\n\twidth: {$n}px\n\tname: col-{n}\n"),
        ".a {\n\twidth: 3px;\n\tname: col-3;\n}\n\n"
    );
}

#[test]
fn error_unclosed_comment() {
    assert_eq!(fails("/* open\n.a\n").0, ErrorKind::UnclosedComment);
}

#[test]
fn error_unclosed_string() {
    assert_eq!(fails(".a\n\tcontent: \"open\n").0, ErrorKind::UnclosedString);
}

#[test]
fn error_unexpected_symbol() {
    let (kind, _, at) = fails(".a\n\tcolor: @\n");
    assert_eq!(kind, ErrorKind::UnexpectedSymbol);
    assert_eq!(at, Some((2, 9)));
}

#[test]
fn error_unexpected_indentation() {
    assert_eq!(fails(".a\n\t\tcolor: red\n").0, ErrorKind::UnexpectedSymbol);
}

#[test]
fn error_trailing_dot() {
    assert_eq!(fails(".a\n\twidth: 1.px\n").0, ErrorKind::TrailingDot);
}

#[test]
fn error_expected_hex() {
    assert_eq!(fails(".a\n\tcolor: #zz\n").0, ErrorKind::ExpectedHex);
}

#[test]
fn error_number_out_of_range() {
    assert_eq!(fails(".a\n\twidth: 99999999999999999999\n").0, ErrorKind::NumberOutOfRange);
    assert_eq!(fails(".a\n\twidth: 9000000000000 * 9000000000000\n").0, ErrorKind::NumberOutOfRange);
}

#[test]
fn error_undefined_function() {
    let (kind, name, at) = fails(".a\n\twidth: nope(1)\n");
    assert_eq!(kind, ErrorKind::UndefinedFunction);
    assert_eq!(name, "nope");
    assert_eq!(at, Some((2, 9)));
}

#[test]
fn error_not_enough_arguments() {
    assert_eq!(fails("m(a, b)\n\tcolor: $a\n\n.x\n\tm(1)\n").0, ErrorKind::NotEnoughArguments);
    assert_eq!(fails("f(a, b)\n\treturn $a\n\n.x\n\tw: f(1)\n").0, ErrorKind::NotEnoughArguments);
}

#[test]
fn error_missing_return() {
    let (kind, name, _) = fails("f(l)\n\tfor $i in $l\n\t\treturn $i\n\n.x\n\tw: f([])\n");
    assert_eq!(kind, ErrorKind::MissingReturn);
    assert_eq!(name, "f");
}

#[test]
fn error_not_an_object() {
    assert_eq!(fails(".x\n\t$n = 1\n\tw: $n.a\n").0, ErrorKind::NotAnObject);
}

#[test]
fn error_field_not_found() {
    let (kind, name, _) = fails(".x\n\t$o = {a: 1}\n\tw: $o.b\n");
    assert_eq!(kind, ErrorKind::FieldNotFound);
    assert_eq!(name, "b");
}

#[test]
fn error_not_an_array() {
    assert_eq!(fails(".x\n\t$n = 1\n\tw: $n[0]\n").0, ErrorKind::NotAnArray);
}

#[test]
fn error_index_not_number() {
    assert_eq!(fails(".x\n\t$l = [1]\n\tw: $l[a]\n").0, ErrorKind::IndexNotNumber);
}

#[test]
fn error_index_out_of_range() {
    assert_eq!(fails(".x\n\t$l = [1]\n\tw: $l[1]\n").0, ErrorKind::IndexOutOfRange);
}

#[test]
fn error_invalid_operands() {
    let (kind, op, _) = fails(".x\n\tw: 1 + a\n");
    assert_eq!(kind, ErrorKind::InvalidOperands);
    assert_eq!(op, "+");
}

#[test]
fn error_division_by_zero() {
    assert_eq!(fails(".x\n\tw: 1 / 0\n").0, ErrorKind::DivisionByZero);
}

#[test]
fn error_not_iterable() {
    assert_eq!(fails(".x\n\tfor $i in 3\n\t\t$y = $i\n").0, ErrorKind::NotIterable);
}

#[test]
fn error_object_in_css() {
    assert_eq!(fails(".x\n\tw: {a: 1}\n").0, ErrorKind::ObjectInCss);
}

#[test]
fn error_recursion_limit() {
    assert_eq!(fails("f(x)\n\treturn f($x)\n\n.x\n\tw: f(1)\n").0, ErrorKind::RecursionLimit);
    assert_eq!(fails("m()\n\tm()\n\n.x\n\tm()\n").0, ErrorKind::RecursionLimit);
}

#[test]
fn escaped_quote_in_string() {
    assert_eq!(css(".a\n\tcontent: \"a\\\"b\"\n"), ".a {\n\tcontent: \"a\"b\";\n}\n\n");
}

#[test]
fn mixin_arity_is_tested_before_arguments_are_evaluated() {
    let (kind, name, _) = fails("m(a, b)\n\tcolor: $a\n\n.x\n\tm($unbound)\n");
    assert_eq!(kind, ErrorKind::NotEnoughArguments);
    assert_eq!(name, "m");
}

#[test]
fn missing_function_is_reported_before_arguments_are_evaluated() {
    let (kind, name, _) = fails(".x\n\tw: nope($unbound)\n");
    assert_eq!(kind, ErrorKind::UndefinedFunction);
    assert_eq!(name, "nope");
    let (kind, _, _) = fails("f(a, b)\n\treturn $a\n\n.x\n\tw: f($unbound)\n");
    assert_eq!(kind, ErrorKind::NotEnoughArguments);
}

#[test]
fn trailing_dot_points_after_the_dot() {
    let (kind, _, at) = fails(".a\n\tw: 1.x\n");
    assert_eq!(kind, ErrorKind::TrailingDot);
    assert_eq!(at, Some((2, 7)));
}

#[test]
fn parenthesised_values() {
    assert_eq!(
        css(".a\n\tx: (a)\n\ty: (a, b)\n\tz: ()\n"),
        ".a {\n\tx: a;\n\ty: a b;\n\tz: ;\n}\n\n"
    );
}

#[test]
fn trailing_comma_makes_a_tuple() {
    assert_eq!(css(".a\n\tx: (a,) ++ b\n\ty: (a, b,)\n"), ".a {\n\tx: a b;\n\ty: a b;\n}\n\n");
    assert_eq!(fails(".a\n\tx: (a) ++ b\n").0, ErrorKind::InvalidOperands);
}

#[test]
fn spaces_inside_parentheses_are_an_error() {
    let (kind, _, at) = fails(".a\n\tx: (a b)\n");
    assert_eq!(kind, ErrorKind::UnexpectedSymbol);
    assert_eq!(at, Some((2, 8)));
}

#[test]
fn repeated_parameter_names_are_rejected() {
    let (kind, _, at) = fails("m(a, a)\n\tcolor: $a\n");
    assert_eq!(kind, ErrorKind::DuplicateParameter);
    assert_eq!(at, Some((1, 1)));
}
