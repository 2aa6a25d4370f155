use set_span::directive::{dispatch, expand, recognize, Directive};
use set_span::error::{Error, Expected};
use set_span::tree::{Delimiter, Node};

fn dr_selector(text: &str, tag: u64) -> Node {
    Node::group(Delimiter::Bracket, vec![Node::literal(text, tag + 2)], tag, tag + 1)
}

fn dr_target() -> Node {
    Node::group(
        Delimiter::Parenthesis,
        vec![Node::ident("first", 71), Node::ident("second", 72)],
        70,
        79,
    )
}

fn dr_call(name: &str, delimiter: Delimiter, argument: Vec<Node>, base: u64) -> Vec<Node> {
    vec![
        Node::punct('#', false, base),
        Node::ident(name, base + 1),
        Node::group(delimiter, argument, base + 2, base + 3),
    ]
}

#[test]
fn the_two_directive_names_are_recognized() {
    assert_eq!(recognize("set_span"), Some(Directive::SetSpan));
    assert_eq!(recognize("set_index_span"), Some(Directive::SetIndexSpan));
    assert_eq!(recognize("set_spans"), None);
    assert_eq!(recognize("set_span_all"), None);
    assert_eq!(recognize("Set_span"), None);
    assert_eq!(recognize(""), None);
}

#[test]
fn a_body_without_directive_passes_through() {
    let body = vec![
        Node::ident("a", 1),
        Node::punct('#', false, 2),
        Node::group(
            Delimiter::Bracket,
            vec![Node::ident("inline", 4)],
            3,
            5,
        ),
        Node::group(
            Delimiter::Brace,
            vec![Node::group(Delimiter::Invisible, vec![Node::literal("1", 8)], 7, 9)],
            6,
            10,
        ),
        Node::punct('#', false, 11),
        Node::ident("set_span", 12),
    ];
    assert_eq!(dispatch(&body, &dr_target()), Ok(body.clone()));
    assert_eq!(dispatch(&[], &dr_target()), Ok(vec![]));
}

#[test]
fn a_name_without_argument_group_is_no_directive() {
    let body = vec![
        Node::punct('#', false, 1),
        Node::ident("set_span", 2),
        Node::ident("x", 3),
    ];
    assert_eq!(dispatch(&body, &dr_target()), Ok(body.clone()));
    let unknown = vec![Node::punct('#', false, 1), Node::ident("other", 2)];
    assert_eq!(dispatch(&unknown, &dr_target()), Ok(unknown.clone()));
}

#[test]
fn an_invisible_argument_makes_no_directive() {
    let body = dr_call("set_span", Delimiter::Invisible, vec![Node::ident("a", 9)], 1);
    assert_eq!(dispatch(&body, &dr_target()), Ok(body.clone()));
}

#[test]
fn set_span_stamps_its_argument_in_place() {
    let mut body = vec![Node::ident("before", 1)];
    body.extend(dr_call(
        "set_span",
        Delimiter::Brace,
        vec![
            Node::ident("f", 20),
            Node::group(Delimiter::Parenthesis, vec![Node::literal("1", 22)], 21, 23),
        ],
        10,
    ));
    body.push(Node::ident("after", 30));
    let expected = vec![
        Node::ident("before", 1),
        Node::ident("f", 70),
        Node::group(Delimiter::Parenthesis, vec![Node::literal("1", 70)], 70, 70),
        Node::ident("after", 30),
    ];
    assert_eq!(dispatch(&body, &dr_target()), Ok(expected));
}

#[test]
fn any_visible_delimiter_takes_the_argument() {
    for delimiter in [Delimiter::Parenthesis, Delimiter::Brace, Delimiter::Bracket] {
        let body = dr_call("set_span", delimiter, vec![Node::ident("a", 20)], 10);
        assert_eq!(dispatch(&body, &dr_target()), Ok(vec![Node::ident("a", 70)]));
    }
}

#[test]
fn an_empty_argument_expands_to_nothing() {
    let mut body = dr_call("set_span", Delimiter::Parenthesis, vec![], 10);
    body.push(Node::ident("after", 30));
    assert_eq!(dispatch(&body, &dr_target()), Ok(vec![Node::ident("after", 30)]));
}

#[test]
fn directives_are_found_inside_groups() {
    let inner = dr_call("set_span", Delimiter::Parenthesis, vec![Node::ident("a", 20)], 10);
    let body = vec![Node::group(
        Delimiter::Brace,
        vec![Node::group(Delimiter::Invisible, inner, 5, 6)],
        3,
        4,
    )];
    let expected = vec![Node::group(
        Delimiter::Brace,
        vec![Node::group(Delimiter::Invisible, vec![Node::ident("a", 70)], 5, 6)],
        3,
        4,
    )];
    assert_eq!(dispatch(&body, &dr_target()), Ok(expected));
}

#[test]
fn a_directive_inside_an_argument_is_not_expanded() {
    let inner = dr_call("set_span", Delimiter::Parenthesis, vec![Node::ident("a", 30)], 20);
    let body = dr_call("set_span", Delimiter::Parenthesis, inner, 10);
    let expected = vec![
        Node::punct('#', false, 70),
        Node::ident("set_span", 70),
        Node::group(Delimiter::Parenthesis, vec![Node::ident("a", 70)], 70, 70),
    ];
    assert_eq!(dispatch(&body, &dr_target()), Ok(expected));
}

#[test]
fn every_directive_of_a_body_is_expanded() {
    let mut body = dr_call("set_span", Delimiter::Parenthesis, vec![Node::ident("a", 20)], 10);
    body.push(Node::punct(';', false, 25));
    body.extend(dr_call(
        "set_index_span",
        Delimiter::Parenthesis,
        vec![
            dr_selector("1", 40),
            Node::group(Delimiter::Brace, vec![Node::ident("b", 50)], 45, 46),
        ],
        30,
    ));
    let expected = vec![
        Node::ident("a", 70),
        Node::punct(';', false, 25),
        Node::ident("b", 72),
    ];
    assert_eq!(dispatch(&body, &dr_target()), Ok(expected));
}

#[test]
fn set_index_span_without_selector_uses_the_target_itself() {
    let body = dr_call(
        "set_index_span",
        Delimiter::Parenthesis,
        vec![Node::group(Delimiter::Brace, vec![Node::ident("b", 50)], 45, 46)],
        30,
    );
    assert_eq!(dispatch(&body, &dr_target()), Ok(vec![Node::ident("b", 70)]));
}

#[test]
fn set_index_span_does_not_look_through_its_block() {
    let block = Node::group(
        Delimiter::Invisible,
        vec![Node::group(Delimiter::Brace, vec![Node::ident("b", 50)], 45, 46)],
        43,
        44,
    );
    let body = dr_call("set_index_span", Delimiter::Parenthesis, vec![block], 30);
    let expected = vec![Node::group(Delimiter::Brace, vec![Node::ident("b", 71)], 71, 71)];
    assert_eq!(
        dispatch(&body, &Node::ident("first", 71)),
        Ok(expected)
    );
}

#[test]
fn set_index_span_needs_a_block() {
    let body = dr_call("set_index_span", Delimiter::Parenthesis, vec![dr_selector("0", 40)], 30);
    assert_eq!(
        dispatch(&body, &dr_target()),
        Err(Error::UnexpectedEndOfInput { expected: Expected::Group, anchor: 32 })
    );
    let token = dr_call(
        "set_index_span",
        Delimiter::Parenthesis,
        vec![dr_selector("0", 40), Node::ident("b", 50)],
        30,
    );
    assert_eq!(
        dispatch(&token, &dr_target()),
        Err(Error::UnexpectedToken { expected: Expected::Group, anchor: 50 })
    );
}

#[test]
fn set_index_span_takes_one_block_only() {
    let body = dr_call(
        "set_index_span",
        Delimiter::Parenthesis,
        vec![
            Node::group(Delimiter::Brace, vec![], 45, 46),
            Node::punct(';', false, 47),
        ],
        30,
    );
    assert_eq!(
        dispatch(&body, &dr_target()),
        Err(Error::UnexpectedToken { expected: Expected::EndOfInput, anchor: 47 })
    );
}

#[test]
fn set_index_span_reports_navigation_errors() {
    let body = dr_call(
        "set_index_span",
        Delimiter::Parenthesis,
        vec![dr_selector("2", 40), Node::group(Delimiter::Brace, vec![], 45, 46)],
        30,
    );
    assert_eq!(
        dispatch(&body, &dr_target()),
        Err(Error::IndexOutOfRange {
            index: 2,
            group: "(first second)".to_string(),
            anchor: 42
        })
    );
    assert_eq!(
        dispatch(&body, &Node::ident("x", 1)),
        Err(Error::NotIndexable { node: "x".to_string(), anchor: 42 })
    );
}

#[test]
fn an_unknown_directive_is_an_error_at_its_name() {
    let mut body = vec![Node::ident("before", 1)];
    body.extend(dr_call("set_spam", Delimiter::Parenthesis, vec![], 10));
    assert_eq!(
        dispatch(&body, &dr_target()),
        Err(Error::UnrecognizedDirective { name: "set_spam".to_string(), anchor: 11 })
    );
}

#[test]
fn the_first_error_from_the_left_is_reported() {
    let mut body = dr_call("set_index_span", Delimiter::Parenthesis, vec![], 10);
    body.extend(dr_call("unknown", Delimiter::Parenthesis, vec![], 20));
    assert_eq!(
        dispatch(&body, &dr_target()),
        Err(Error::UnexpectedEndOfInput { expected: Expected::Group, anchor: 12 })
    );
    let mut nested = vec![Node::group(
        Delimiter::Brace,
        dr_call("unknown", Delimiter::Parenthesis, vec![], 20),
        3,
        4,
    )];
    nested.extend(dr_call("set_index_span", Delimiter::Parenthesis, vec![], 10));
    assert_eq!(
        dispatch(&nested, &dr_target()),
        Err(Error::UnrecognizedDirective { name: "unknown".to_string(), anchor: 21 })
    );
}

/// Takes a chain of nested groups apart from the outside in, and returns
/// how many groups there were and what the innermost one held.
fn dr_unnest(mut nodes: Vec<Node>) -> (usize, Vec<Node>) {
    let mut depth = 0;
    loop {
        if nodes.len() != 1 {
            return (depth, nodes);
        }
        match nodes.pop().unwrap() {
            Node::Group { delimiter, children, tag, close_tag } => {
                assert_eq!((delimiter, tag, close_tag), (Delimiter::Brace, 3, 4));
                nodes = children;
                depth += 1;
            },
            token => return (depth, vec![token]),
        }
    }
}

#[test]
fn a_directive_is_found_below_nesting_deeper_than_any_stack() {
    let depth = 200_000;
    let mut body = dr_call(
        "set_span",
        Delimiter::Parenthesis,
        vec![Node::ident("a", 20), Node::ident("b", 21)],
        10,
    );
    for _ in 0..depth {
        body = vec![Node::group(Delimiter::Brace, body, 3, 4)];
    }
    let output = dispatch(&body, &dr_target()).unwrap();
    assert_eq!(dr_unnest(output), (depth, vec![Node::ident("a", 70), Node::ident("b", 70)]));
    let (_, call) = dr_unnest(body);
    assert_eq!(call.len(), 3);
}

#[test]
fn expanding_a_directive_by_hand() {
    let items = vec![
        dr_selector("0", 40),
        Node::group(Delimiter::Brace, vec![Node::ident("b", 50)], 45, 46),
    ];
    assert_eq!(
        expand(Directive::SetIndexSpan, &items, 99, &dr_target()),
        Ok(vec![Node::ident("b", 71)])
    );
    assert_eq!(
        expand(Directive::SetSpan, &items, 99, &dr_target()),
        Ok(vec![
            Node::group(Delimiter::Bracket, vec![Node::literal("0", 70)], 70, 70),
            Node::group(Delimiter::Brace, vec![Node::ident("b", 70)], 70, 70),
        ])
    );
}
