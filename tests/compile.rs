use glaze::compile;

fn generate(source: &str) -> (String, String) {
    let (css, js) = compile(source.as_bytes()).unwrap();
    (String::from_utf8(css).unwrap(), String::from_utf8(js).unwrap())
}

#[test]
fn test_nesting() {
    assert_eq!(
        generate(
"
.class
	span
		color: lightgray
	p
		color: gray
		b
			font-weight: 500
	div
		background-color: blue
"
        ),
        (
".class span {
	color: lightgray;
}

.class p {
	color: gray;
}

.class p b {
	font-weight: 500;
}

.class div {
	background-color: blue;
}

".to_owned(),
"".to_owned(),
        ),
    );
}

#[test]
fn test_mixins() {
    assert_eq!(
        generate(
"
color-weight(c, w)
	color: $c
	font-weight: $w

.class
	color-weight(blue, 600)
	p
		color-weight: #222 normal
		&:hover
			color: blue
"
        ),
        (
".class {
	color: blue;
	font-weight: 600;
}

.class p {
	color: #222;
	font-weight: normal;
}

.class p:hover {
	color: blue;
}

".to_owned(),
"".to_owned(),
        ),
    );
}

#[test]
fn test_value() {
    assert_eq!(
        generate(
"
.class
	font-weight: bold
	color: #222
	flex-grow: 2
	border: 1px solid black
	&:after
		content: \"\"
		background: blue
	width: 50vw
	height: 100%
	padding: 5px 2px
"
        ),
        (
".class {
	font-weight: bold;
	color: #222;
	flex-grow: 2;
	border: 1px solid black;
	width: 50vw;
	height: 100%;
	padding: 5px 2px;
}

.class:after {
	content: \"\";
	background: blue;
}

".to_owned(),
"".to_owned(),
        ),
    );
}

#[test]
fn test_variables() {
    assert_eq!(
        generate(
"
.class
	$width = 50px
	$height = 30px
	$border-style = solid

	width: $width
	height: $height
	border: 1px $border-style black
"
        ),
        (
".class {
	width: 50px;
	height: 30px;
	border: 1px solid black;
}

".to_owned(),
"".to_owned(),
        ),
    );
}
