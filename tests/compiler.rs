use std::rc::Rc;

use anathema::attribute::{parse_path, parse_text, parse_value};
use anathema::lexer::{tokenize, Kind};
use anathema::{
    compile, templates, Align, Attributes, Axis, Color, Constants, Display, ErrorKind,
    Expression, ExpressionValue, Fragment, Instruction, Number, Path, TextPath, Value,
    VirtualMachine,
};

fn parse_attributes_result(src: &str) -> Result<Attributes, anathema::Error> {
    let (instructions, consts) = compile(src)?;
    let mut attrs = Attributes::empty();
    for inst in instructions {
        if let Instruction::LoadAttribute { key, value } = inst {
            let key = consts.lookup_string(key).unwrap().to_string();
            let value = consts.lookup_value(value).unwrap().clone();
            attrs.set(key, value);
        }
    }
    Ok(attrs)
}

fn parse_attributes(src: &str) -> Attributes {
    parse_attributes_result(src).unwrap()
}

fn parse_value_of(src: &str, field: &str) -> Value {
    match parse_attributes(src).get(field).unwrap() {
        ExpressionValue::Static(v) => (**v).clone(),
        ExpressionValue::Dyn(_) => panic!("not a literal"),
    }
}

fn is_true(s: &str, field: &str) -> bool {
    parse_value_of(s, field).to_bool().unwrap()
}

fn parse_num(s: &str, field: &str) -> u64 {
    parse_value_of(s, field).to_int().unwrap()
}

fn text_of(s: &str) -> TextPath {
    let chars: Vec<char> = s.chars().collect();
    parse_text(&chars, 0, chars.len())
}

#[test]
fn parse_height() {
    let height = parse_num("widget [height:1]", "height");
    assert_eq!(1, height);
}

#[test]
fn parse_width() {
    let width = parse_num("container [width:1]", "width");
    assert_eq!(1, width);
}

#[test]
fn string_fragments() {
    let text = text_of("a{{b}}");
    let TextPath::Fragments(fragments) = text else {
        panic!()
    };

    assert_eq!(fragments[0], Fragment::String("a".into()));
    assert_eq!(fragments[1], Fragment::Data(Path::Key("b".to_string())));
}

#[test]
fn escaped_string() {
    let text = text_of("a\\\"b");
    let TextPath::String(s) = text else { panic!() };
    assert_eq!(s, "a\"b");
}

#[test]
fn path_key() {
    let (chars, tokens) = tokenize(".b.c").unwrap();
    let (path, _) = parse_path(&chars, &tokens, 0, Path::Key("a".to_string()));
    assert_eq!("K(a) -> K(b) -> K(c)", path.to_string().as_str());
}

#[test]
fn quoted_attribute() {
    let src = "\"hello, world\"";
    let (chars, tokens) = tokenize(src).unwrap();
    let mut consts = Constants::new();
    let key: Vec<char> = "attrib".chars().collect();
    let (output, _) = parse_value(&chars, &tokens, 0, &key, &mut consts).unwrap();
    let ExpressionValue::Static(value) = output else {
        panic!()
    };
    let Value::String(text) = &*value else {
        panic!()
    };
    assert_eq!(text, "hello, world");
}

#[test]
fn text_attribute() {
    let value = parse_value_of("widget [value: \"hi\"]", "value");
    assert!(matches!(value, Value::String(_)));
}

#[test]
fn text_fragments_attribute() {
    let value = parse_value_of("widget [value: \"hi {{ name }} \"]", "value");
    assert!(matches!(value, Value::Fragments(_)));
}

#[test]
fn parse_bool() {
    let is_true = is_true("widget [is_true: true]", "is_true");
    assert!(is_true);
}

#[test]
fn parse_empty_attribs() {
    let attribs = parse_attributes("widget []");
    assert!(attribs.is_empty());
}

#[test]
fn alignment() {
    let align = parse_value_of("widget [align: top-right]", "align").to_alignment().unwrap();
    assert_eq!(align, Align::TopRight);
}

#[test]
fn alignment_outside_vocabulary() {
    let err = parse_attributes_result("widget [align: diagonal]").unwrap_err();
    assert_eq!(err.kind, ErrorKind::InvalidToken { expected: "alignment" });
}

#[test]
fn parse_colours() {
    let attribs = parse_attributes(
        "widget [background: red, foreground: blue, col: green, res: reset, rgb: #0A0B0C, ansi: ansi123]",
    );
    let color = |key: &str| match attribs.get(key).unwrap() {
        ExpressionValue::Static(v) => v.to_color().unwrap(),
        ExpressionValue::Dyn(_) => panic!(),
    };

    assert_eq!(color("background"), Color::Red);
    assert_eq!(color("foreground"), Color::Blue);
    assert_eq!(color("col"), Color::Green);
    assert_eq!(color("res"), Color::Reset);
    assert_eq!(color("rgb"), Color::Rgb { r: 10, g: 11, b: 12 });
    assert_eq!(color("ansi"), Color::AnsiValue(123));
}

#[test]
fn axis() {
    let dir = parse_value_of("widget [axis: horz]", "axis").to_axis();
    assert_eq!(dir.unwrap(), Axis::Horizontal);

    let dir = parse_value_of("widget [axis: horizontal]", "axis").to_axis();
    assert_eq!(dir.unwrap(), Axis::Horizontal);

    let dir = parse_value_of("widget [axis: vert]", "axis").to_axis();
    assert_eq!(dir.unwrap(), Axis::Vertical);

    let dir = parse_value_of("widget [axis: vertical]", "axis").to_axis();
    assert_eq!(dir.unwrap(), Axis::Vertical);
}

#[test]
fn displays() {
    let disp = parse_value_of("widget [display: show]", "display").to_display();
    assert_eq!(disp.unwrap(), Display::Show);

    let disp = parse_value_of("widget [display: hide]", "display").to_display();
    assert_eq!(disp.unwrap(), Display::Hide);

    let disp = parse_value_of("widget [display: exclude]", "display").to_display();
    assert_eq!(disp.unwrap(), Display::Exclude);
}

#[test]
fn whitespace_attribs() {
    assert!(is_true("text [trim-start: true]", "trim-start"));
    assert!(!is_true("text [trim-start: false]", "trim-start"));

    assert!(is_true("text [trim-end: true]", "trim-end"));
    assert!(!is_true("text [trim-end: false]", "trim-end"));

    assert!(is_true("text [collapse-spaces: true]", "collapse-spaces"));
    assert!(!is_true("text [collapse-spaces: false]", "collapse-spaces"));
}

#[test]
fn ansi_color_test() {
    let value = parse_value_of("widget [ansi: ansi0]", "ansi");
    assert_eq!(value.to_color().unwrap(), Color::AnsiValue(0));
}

#[test]
fn ident_with_pipes() {
    let value = parse_value_of("widget [meow: a|b|c]", "meow").into_string().unwrap();
    assert_eq!(value, "a|b|c");
}

#[test]
#[should_panic(expected = "InvalidNumber")]
fn failed_ansi_color_test() {
    parse_attributes("widget [ansi: ansi256]");
    parse_attributes("widget [ansi: ansi 1]");
}

#[test]
fn ansi_out_of_range_is_invalid_number() {
    let err = parse_attributes_result("widget [ansi: ansi256]").unwrap_err();
    assert_eq!(err.kind, ErrorKind::InvalidNumber);
    let err = parse_attributes_result("widget [ansi: ansi 1]").unwrap_err();
    assert_eq!(err.kind, ErrorKind::InvalidNumber);
}

#[test]
fn nodes() {
    let (instructions, consts) = compile("vstack").unwrap();
    let vm = VirtualMachine::new(instructions, consts);
    let vstack_gen = vm.exec().remove(0);

    let Expression::Node(node) = vstack_gen else {
        panic!("wrong kind")
    };

    assert_eq!(node.ident, "vstack");
}

#[test]
fn for_loop() {
    let src = "
        for x in {{ y }}
            border
        ";
    let (instructions, consts) = compile(src).unwrap();
    let vm = VirtualMachine::new(instructions, consts);
    let for_loop = vm.exec().remove(0);

    assert!(matches!(for_loop, Expression::Loop { .. }));

    let Expression::Loop(the_loop) = for_loop else {
        panic!("wrong kind")
    };

    assert_eq!(the_loop.binding, "x");
    assert!(matches!(the_loop.collection, ExpressionValue::Dyn(_)));
    assert_eq!(the_loop.body.len(), 1);
    let Expression::Node(border) = &the_loop.body[0] else {
        panic!("wrong kind")
    };
    assert_eq!(border.ident, "border");
}

#[test]
fn siblings_in_source_order() {
    let exprs = templates("a\nb\n  c\nd\n").unwrap();
    assert_eq!(exprs.len(), 3);
    let names: Vec<String> = exprs
        .iter()
        .map(|e| match e {
            Expression::Node(n) => n.ident.clone(),
            _ => panic!(),
        })
        .collect();
    assert_eq!(names, vec!["a", "b", "d"]);
    let Expression::Node(b) = &exprs[1] else { panic!() };
    assert_eq!(b.children.len(), 1);
}

#[test]
fn scope_sizes_count_children() {
    let (instructions, _) = compile("a [x: 1]\n  b\n    c\n  d\ne").unwrap();
    assert_eq!(
        instructions[0],
        Instruction::Node { ident: anathema::StringId(0), scope_size: 3 }
    );
    assert!(matches!(instructions[1], Instruction::LoadAttribute { .. }));
    assert!(matches!(instructions[2], Instruction::Node { scope_size: 1, .. }));
    assert!(matches!(instructions[3], Instruction::Node { scope_size: 0, .. }));
    assert!(matches!(instructions[4], Instruction::Node { scope_size: 0, .. }));
    assert!(matches!(instructions[5], Instruction::Node { scope_size: 0, .. }));
    assert_eq!(instructions.len(), 6);
}

#[test]
fn node_text_and_attributes() {
    let exprs = templates("text [bold: true] \"hi {{ name }}\"").unwrap();
    let Expression::Node(node) = &exprs[0] else { panic!() };
    let Some(ExpressionValue::Static(text)) = &node.text else { panic!() };
    let Value::Fragments(fragments) = &**text else { panic!() };
    assert_eq!(fragments[0], Fragment::String("hi ".into()));
    assert_eq!(fragments[1], Fragment::Data(Path::Key("name".into())));
    assert!(node.attributes.get("bold").is_some());
}

#[test]
fn compiling_twice_gives_equal_trees() {
    let src = "vstack [align: centre]\n  for item in {{ items }}\n    text \"{{ item.name }}\"\n";
    let first = format!("{:?}", templates(src).unwrap());
    let second = format!("{:?}", templates(src).unwrap());
    assert_eq!(first, second);
}

#[test]
fn unclosed_binding_is_invalid_token() {
    let err = compile("widget [a: {{ ident ]").unwrap_err();
    assert_eq!(err.kind, ErrorKind::InvalidToken { expected: "}" });
    let err = compile("widget [a: {{ a.b ]").unwrap_err();
    assert_eq!(err.kind, ErrorKind::InvalidToken { expected: "}" });
}

#[test]
fn dynamic_path_segments() {
    let (instructions, consts) = compile("widget [a: {{ a.b[3] }}]").unwrap();
    let Instruction::LoadAttribute { value, .. } = instructions[1] else { panic!() };
    let ExpressionValue::Dyn(id) = consts.lookup_value(value).unwrap() else { panic!() };
    let path = consts.lookup_path(*id).unwrap();
    assert_eq!(path.to_string(), "K(a) -> K(b) -> I(3)");
}

#[test]
fn lexer_errors() {
    assert_eq!(compile("a \"open").unwrap_err().kind, ErrorKind::UnterminatedString);
    assert_eq!(compile("a [c: #12345Z]").unwrap_err().kind, ErrorKind::InvalidHexValue);
    assert_eq!(compile("a\n\tb").unwrap_err().kind, ErrorKind::InvalidIndentation);
    assert_eq!(compile("a [n: 99999999999999999999]").unwrap_err().kind, ErrorKind::InvalidNumber);
}

#[test]
fn bad_indentation_is_rejected() {
    assert_eq!(compile("a\n    b\n  c").unwrap_err().kind, ErrorKind::InvalidIndentation);
}

#[test]
fn tokens_of_a_line() {
    let (_, tokens) = tokenize("for x in 12").unwrap();
    let kinds: Vec<Kind> = tokens.iter().map(|t| t.kind).collect();
    assert_eq!(kinds, vec![Kind::For, Kind::Ident(4, 5), Kind::In, Kind::Number(12), Kind::EOF]);
}

#[test]
fn constants_round_trip() {
    let mut consts = Constants::new();
    let s = consts.store_string("hello".to_string());
    let s2 = consts.store_string("hello".to_string());
    assert_ne!(s, s2);
    let v = consts.store_value(ExpressionValue::Static(Rc::new(Value::Number(Number::Unsigned(4)))));
    let p = consts.store_path(Path::Key("k".into()));
    let t = consts.store_text(TextPath::String("t".into()));
    assert_eq!(consts.lookup_string(s), Some("hello"));
    assert_eq!(
        consts.lookup_value(v),
        Some(&ExpressionValue::Static(Rc::new(Value::Number(Number::Unsigned(4)))))
    );
    assert_eq!(consts.lookup_path(p), Some(&Path::Key("k".into())));
    assert_eq!(consts.lookup_text(t), Some(&TextPath::String("t".into())));
    assert_eq!(consts.lookup_string(anathema::StringId(9)), None);
    assert_eq!(consts.paths().len(), 1);
}

#[test]
fn if_else_chain_is_one_expression() {
    let src = "if {{ a }}\n  x\nelse if {{ b }}\n  y\n  z\nelse\n  w\nafter";
    let exprs = templates(src).unwrap();
    assert_eq!(exprs.len(), 2);
    let Expression::ControlFlow(branches) = &exprs[0] else { panic!("wrong kind") };
    assert_eq!(branches.len(), 3);
    assert!(matches!(branches[0].cond, Some(ExpressionValue::Dyn(_))));
    assert_eq!(branches[0].body.len(), 1);
    assert!(matches!(branches[1].cond, Some(ExpressionValue::Dyn(_))));
    assert_eq!(branches[1].body.len(), 2);
    assert!(branches[2].cond.is_none());
    assert_eq!(branches[2].body.len(), 1);
    let Expression::Node(after) = &exprs[1] else { panic!("wrong kind") };
    assert_eq!(after.ident, "after");
}

#[test]
fn if_else_stream_sizes() {
    let (instructions, _) = compile("if true\n  x\nelse\n  y\n  z").unwrap();
    assert!(matches!(instructions[0], Instruction::If { size: 1, .. }));
    assert!(matches!(instructions[2], Instruction::Else { cond: None, size: 2 }));
    assert_eq!(instructions.len(), 5);
}

#[test]
fn else_without_if_is_rejected() {
    let err = compile("a\nelse\n  b").unwrap_err();
    assert_eq!(err.kind, ErrorKind::InvalidToken { expected: "if" });
}

#[test]
fn empty_template_has_no_statements() {
    assert!(templates("").unwrap().is_empty());
    assert!(templates("\n\n   \n// only a comment\n").unwrap().is_empty());
    let (instructions, _) = compile("").unwrap();
    assert!(instructions.is_empty());
}

#[test]
fn each_grammar_error() {
    let kind = |src: &str| compile(src).unwrap_err().kind;
    assert_eq!(kind("widget [axis: diagonal]"), ErrorKind::InvalidToken { expected: "axis" });
    assert_eq!(kind("widget [display: maybe]"), ErrorKind::InvalidToken { expected: "display" });
    assert_eq!(kind("widget [direction: up]"), ErrorKind::InvalidToken { expected: "direction" });
    assert_eq!(kind("widget [a: ,]"), ErrorKind::InvalidToken { expected: "" });
    assert_eq!(kind("widget [a: {{ 1 }}]"), ErrorKind::InvalidToken { expected: "identifier" });
    assert_eq!(kind("widget [a 1]"), ErrorKind::InvalidToken { expected: ":" });
    assert_eq!(kind("widget [a: 1"), ErrorKind::InvalidToken { expected: "]" });
    assert_eq!(kind("for in x y"), ErrorKind::InvalidToken { expected: "identifier" });
    assert_eq!(kind("for x in"), ErrorKind::InvalidToken { expected: "" });
    assert_eq!(kind("for x on y"), ErrorKind::InvalidToken { expected: "in" });
    assert_eq!(kind("widget \"a\" \"b\""), ErrorKind::InvalidToken { expected: "newline" });
    assert_eq!(kind("a ? b"), ErrorKind::InvalidToken { expected: "" });
}

#[test]
fn id_keeps_colour_names_as_text() {
    let value = parse_value_of("widget [id: red]", "id");
    assert_eq!(value, Value::String("red".into()));
    let value = parse_value_of("widget [other: red]", "other");
    assert_eq!(value, Value::Color(Color::Red));
}

#[test]
fn ansi_accepts_the_largest_byte() {
    assert_eq!(parse_value_of("w [c: ansi255]", "c"), Value::Color(Color::AnsiValue(255)));
    assert_eq!(parse_value_of("w [c: ansi007]", "c"), Value::Color(Color::AnsiValue(7)));
}

#[test]
fn numbers_up_to_u64_max() {
    let value = parse_value_of("w [n: 18446744073709551615]", "n");
    assert_eq!(value, Value::Number(Number::Unsigned(u64::MAX)));
    assert_eq!(compile("w [n: 18446744073709551616]").unwrap_err().kind, ErrorKind::InvalidNumber);
}

#[test]
fn later_attribute_wins() {
    let attrs = parse_attributes("w [a: 1, a: 2]");
    let ExpressionValue::Static(v) = attrs.get("a").unwrap() else { panic!() };
    assert_eq!(**v, Value::Number(Number::Unsigned(2)));
}

#[test]
fn text_without_closing_braces_stays_text() {
    assert_eq!(text_of("a{{b"), TextPath::String("a{{b".into()));
    assert_eq!(text_of("{{ }}"), TextPath::String("{{ }}".into()));
    let TextPath::Fragments(f) = text_of("{{ a.b[2] }}!") else { panic!() };
    assert_eq!(
        f[0],
        Fragment::Data(Path::Key("a".into()).compose(Path::Key("b".into())).compose(Path::Index(2)))
    );
    assert_eq!(f[1], Fragment::String("!".into()));
}

#[test]
fn value_truthiness() {
    assert!(!Value::String(String::new()).is_true());
    assert!(Value::String("x".into()).is_true());
    assert!(!Value::Bool(false).is_true());
    assert!(Value::Number(Number::Unsigned(0)).is_true());
    assert!(!Number::Signed(0).is_true());
    assert!(Number::Signed(-3).is_true());
    assert_eq!(Value::Number(Number::Signed(-3)).to_int(), None);
    assert_eq!(Value::Number(Number::Unsigned(u64::MAX)).to_signed_int(), None);
    assert_eq!(Value::Number(Number::Unsigned(5)).to_signed_int(), Some(5));
}

#[test]
fn loop_over_literal_and_nested_loop() {
    let exprs = templates("for a in 3\n  for b in {{ a.items }}\n    text \"{{ b }}\"").unwrap();
    let Expression::Loop(outer) = &exprs[0] else { panic!() };
    assert_eq!(outer.binding, "a");
    let ExpressionValue::Static(n) = &outer.collection else { panic!() };
    assert_eq!(**n, Value::Number(Number::Unsigned(3)));
    let Expression::Loop(inner) = &outer.body[0] else { panic!() };
    assert_eq!(inner.binding, "b");
    let Expression::Node(text) = &inner.body[0] else { panic!() };
    assert!(text.text.is_some());
}
