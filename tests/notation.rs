use binding_notation::{
    Binding, Expected, ParseError, Value, parse_binding, parse_value, print_binding,
    print_value,
};

fn leaf(token: &str) -> Value {
    Value { value: token.to_string(), children: vec![] }
}

fn bind(name: &str, values: Vec<Value>) -> Binding {
    Binding { name: name.to_string(), values }
}

fn node(token: &str, children: Vec<Binding>) -> Value {
    Value { value: token.to_string(), children }
}

#[test]
fn whitespace_does_not_change_the_tree() {
    let expected = bind("foo", vec![node("bar", vec![bind("zoo", vec![leaf("qat")])])]);
    for text in ["foo=bar{zoo=qat}", "foo=bar{ zoo=qat}", "foo=bar { zoo=qat }"] {
        let (rest, b) = parse_binding(text).unwrap();
        assert_eq!(rest, "");
        assert_eq!(b, expected);
        assert_eq!(print_binding(&b), "foo=bar{zoo=qat}");
    }
}

#[test]
fn commas_give_several_values() {
    let (rest, b) = parse_binding("foo=a,b").unwrap();
    assert_eq!(rest, "");
    assert_eq!(b, bind("foo", vec![leaf("a"), leaf("b")]));

    let (rest, b) = parse_binding("foo=bar{zoo=qat},xxx{aaa=bbb}").unwrap();
    assert_eq!(rest, "");
    assert_eq!(b.values.len(), 2);
    assert_eq!(b.values[0].value, "bar");
    assert_eq!(b.values[0].children.len(), 1);
    assert_eq!(b.values[1].value, "xxx");
    assert_eq!(b.values[1].children.len(), 1);
}

#[test]
fn blocks_nest_three_deep() {
    let (rest, b) = parse_binding("a=b{c=d{e=f}},k{l=m{n=o}}").unwrap();
    assert_eq!(rest, "");
    let first = &b.values[0];
    assert_eq!(first.value, "b");
    let second = &first.children[0].values[0];
    assert_eq!(second.value, "d");
    let third = &second.children[0].values[0];
    assert_eq!(third.value, "f");
    assert!(third.children.is_empty());
    assert_eq!(print_binding(&b), "a=b{c=d{e=f}},k{l=m{n=o}}");
}

#[test]
fn printed_text_reads_back_as_the_same_binding() {
    let inputs = [
        "foo=bar",
        "foo = bar",
        "a=b{c=d   e=f{g=h}},k  ,  l{m=n}",
        "x=y{ a=b\tc=d\n}",
        "p=q{}",
    ];
    for text in inputs {
        if let Ok((_, b)) = parse_binding(text) {
            let printed = print_binding(&b);
            assert_eq!(parse_binding(&printed), Ok(("", b.clone())));
            let (_, again) = parse_binding(&printed).unwrap();
            assert_eq!(print_binding(&again), printed);
        }
    }
}

#[test]
fn canonical_form_of_a_spaced_block() {
    let (rest, b) = parse_binding("a=b{c=d   e=f{g=h}},k  ,  l{m=n}").unwrap();
    assert_eq!(rest, "");
    assert_eq!(print_binding(&b), "a=b{c=d e=f{g=h}},k,l{m=n}");
}

#[test]
fn empty_block_is_dropped_when_printing() {
    let (rest, v) = parse_value("p{}").unwrap();
    assert_eq!(rest, "");
    assert_eq!(v, leaf("p"));
    assert_eq!(print_value(&v), "p");
}

#[test]
fn text_after_a_binding_is_handed_back() {
    assert_eq!(parse_binding("foo=bar  rest"), Ok(("rest", bind("foo", vec![leaf("bar")]))));
    assert_eq!(parse_binding("foo=bar}"), Ok(("}", bind("foo", vec![leaf("bar")]))));
    assert_eq!(parse_value("tok é"), Ok(("é", leaf("tok"))));
}

#[test]
fn missing_equals_is_reported() {
    assert_eq!(
        parse_binding("foo bar"),
        Err(ParseError { offset: 3, expected: Expected::Equals })
    );
}

#[test]
fn missing_identifier_is_reported() {
    assert_eq!(
        parse_binding("=bar"),
        Err(ParseError { offset: 0, expected: Expected::Identifier })
    );
    assert_eq!(
        parse_binding("foo="),
        Err(ParseError { offset: 4, expected: Expected::Identifier })
    );
    assert_eq!(
        parse_binding("foo=a,"),
        Err(ParseError { offset: 6, expected: Expected::Identifier })
    );
    assert_eq!(parse_value(""), Err(ParseError { offset: 0, expected: Expected::Identifier }));
}

#[test]
fn unterminated_block_is_reported() {
    assert_eq!(
        parse_binding("foo=bar{zoo=qat"),
        Err(ParseError { offset: 15, expected: Expected::BlockEnd })
    );
}

#[test]
fn block_bindings_need_whitespace_between_them() {
    assert_eq!(
        parse_binding("foo=x{a=b{c=d}e=f}"),
        Err(ParseError { offset: 14, expected: Expected::BlockEnd })
    );
}

#[test]
fn print_value_with_children() {
    let v = node("add", vec![bind("verbose", vec![leaf("true")]), bind("force", vec![leaf("false")])]);
    assert_eq!(print_value(&v), "add{verbose=true force=false}");
}

fn nested_text(levels: usize) -> String {
    let mut text = "a=".to_string();
    for _ in 0..levels {
        text.push_str("x{a=");
    }
    text.push('x');
    for _ in 0..levels {
        text.push('}');
    }
    text
}

#[test]
fn nesting_up_to_the_limit_is_read() {
    let text = nested_text(binding_notation::parser::MAX_DEPTH);
    let (rest, b) = parse_binding(&text).unwrap();
    assert_eq!(rest, "");
    assert_eq!(print_binding(&b), text);
}

#[test]
fn nesting_past_the_limit_is_refused() {
    let levels = binding_notation::parser::MAX_DEPTH + 1;
    let text = nested_text(levels);
    let offset = 2 + 4 * (levels - 1) + 1;
    assert_eq!(
        parse_binding(&text),
        Err(ParseError { offset, expected: Expected::NestingLimit })
    );
}
