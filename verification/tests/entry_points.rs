use set_span::error::{Error, Expected};
use set_span::tree::{Delimiter, Node};
use set_span::{set_span, set_span_all};

const EP_CALL: u64 = 900;
const EP_MIXED: u64 = 901;

fn ep_selector(text: &str, tag: u64) -> Node {
    Node::group(Delimiter::Bracket, vec![Node::literal(text, tag + 2)], tag, tag + 1)
}

fn ep_base() -> Node {
    Node::group(
        Delimiter::Parenthesis,
        vec![Node::ident("a", 1), Node::ident("b", 2)],
        10,
        11,
    )
}

fn ep_directive(argument: Vec<Node>) -> Node {
    Node::group(
        Delimiter::Brace,
        vec![
            Node::punct('#', false, 100),
            Node::ident("set_span", 101),
            Node::group(Delimiter::Parenthesis, argument, 102, 103),
        ],
        90,
        91,
    )
}

#[test]
fn the_full_form_needs_a_comma() {
    assert_eq!(
        set_span(&[], EP_CALL, EP_MIXED),
        Err(Error::UnexpectedEndOfInput { expected: Expected::Comma, anchor: EP_CALL })
    );
    assert_eq!(
        set_span(&[ep_base(), ep_directive(vec![])], EP_CALL, EP_MIXED),
        Err(Error::UnexpectedEndOfInput { expected: Expected::Comma, anchor: EP_CALL })
    );
}

#[test]
fn a_comma_inside_a_group_does_not_part_the_input() {
    let base = Node::group(
        Delimiter::Parenthesis,
        vec![Node::ident("a", 1), Node::punct(',', false, 2), Node::ident("b", 3)],
        10,
        11,
    );
    assert_eq!(
        set_span(&[base], EP_CALL, EP_MIXED),
        Err(Error::UnexpectedEndOfInput { expected: Expected::Comma, anchor: EP_CALL })
    );
}

#[test]
fn the_full_form_needs_an_address_before_the_comma() {
    let input = vec![Node::punct(',', false, 5), ep_directive(vec![])];
    assert_eq!(
        set_span(&input, EP_CALL, EP_MIXED),
        Err(Error::UnexpectedEndOfInput { expected: Expected::Token, anchor: EP_CALL })
    );
}

#[test]
fn the_full_form_needs_a_body_after_the_comma() {
    let input = vec![ep_base(), Node::punct(',', false, 5)];
    assert_eq!(
        set_span(&input, EP_CALL, EP_MIXED),
        Err(Error::UnexpectedEndOfInput { expected: Expected::Group, anchor: EP_CALL })
    );
}

#[test]
fn the_first_comma_parts_the_input() {
    let input = vec![
        ep_base(),
        Node::punct(',', false, 5),
        Node::punct(',', false, 6),
        ep_directive(vec![]),
    ];
    assert_eq!(
        set_span(&input, EP_CALL, EP_MIXED),
        Err(Error::UnexpectedToken { expected: Expected::Group, anchor: 6 })
    );
}

#[test]
fn an_address_error_comes_before_a_body_error() {
    let input = vec![
        ep_base(),
        ep_selector("7", 20),
        Node::punct(',', false, 5),
        Node::ident("nobody", 6),
    ];
    assert_eq!(
        set_span(&input, EP_CALL, EP_MIXED),
        Err(Error::IndexOutOfRange { index: 7, group: "(a b)".to_string(), anchor: 22 })
    );
}

#[test]
fn the_full_form_stamps_with_the_addressed_node() {
    let input = vec![
        ep_base(),
        ep_selector("1", 20),
        Node::punct(',', true, 5),
        ep_directive(vec![Node::ident("f", 200), Node::punct(';', false, 201)]),
    ];
    assert_eq!(
        set_span(&input, EP_CALL, EP_MIXED),
        Ok(vec![Node::ident("f", 2), Node::punct(';', false, 2)])
    );
}

#[test]
fn the_marker_stamps_with_the_mixed_location() {
    let input = vec![
        Node::punct('#', false, 1),
        Node::ident("mixed", 2),
        Node::punct(',', false, 5),
        ep_directive(vec![Node::ident("f", 200)]),
    ];
    assert_eq!(set_span(&input, EP_CALL, EP_MIXED), Ok(vec![Node::ident("f", EP_MIXED)]));
}

#[test]
fn the_body_is_found_behind_invisible_wrappers() {
    let inner = Node::group(
        Delimiter::Invisible,
        vec![ep_directive(vec![Node::ident("f", 200)])],
        80,
        81,
    );
    let wrapped = Node::group(Delimiter::Invisible, vec![inner], 70, 71);
    let input = vec![ep_base(), Node::punct(',', false, 5), wrapped];
    assert_eq!(set_span(&input, EP_CALL, EP_MIXED), Ok(vec![Node::ident("f", 10)]));
}

#[test]
fn an_unknown_directive_fails_the_full_form() {
    let body = Node::group(
        Delimiter::Brace,
        vec![
            Node::punct('#', false, 100),
            Node::ident("set_nothing", 101),
            Node::group(Delimiter::Parenthesis, vec![], 102, 103),
        ],
        90,
        91,
    );
    let input = vec![ep_base(), Node::punct(',', false, 5), body];
    let error = set_span(&input, EP_CALL, EP_MIXED).unwrap_err();
    assert_eq!(
        error,
        Error::UnrecognizedDirective { name: "set_nothing".to_string(), anchor: 101 }
    );
    assert_eq!(error.message(), "unrecognized directive set_nothing");
}

#[test]
fn the_short_form_needs_a_token() {
    assert_eq!(
        set_span_all(&[], EP_CALL),
        Err(Error::UnexpectedEndOfInput { expected: Expected::Token, anchor: EP_CALL })
    );
}

#[test]
fn the_short_form_works_with_and_without_comma() {
    let block = Node::group(Delimiter::Brace, vec![Node::ident("f", 200)], 90, 91);
    let with_comma = vec![
        ep_base(),
        ep_selector("1", 20),
        Node::punct(',', false, 5),
        block.clone(),
    ];
    let without_comma = vec![ep_base(), ep_selector("1", 20), block];
    assert_eq!(set_span_all(&with_comma, EP_CALL), Ok(vec![Node::ident("f", 2)]));
    assert_eq!(set_span_all(&without_comma, EP_CALL), Ok(vec![Node::ident("f", 2)]));
}

#[test]
fn the_short_form_does_not_look_through_invisible_groups() {
    let inner = Node::group(Delimiter::Brace, vec![Node::ident("f", 200)], 90, 91);
    let wrapped = Node::group(Delimiter::Invisible, vec![inner], 80, 81);
    let input = vec![Node::ident("x", 1), wrapped];
    assert_eq!(
        set_span_all(&input, EP_CALL),
        Ok(vec![Node::group(Delimiter::Brace, vec![Node::ident("f", 1)], 1, 1)])
    );
}

#[test]
fn the_short_form_does_not_expand_directives() {
    let input = vec![Node::ident("x", 1), ep_directive(vec![Node::ident("f", 200)])];
    assert_eq!(
        set_span_all(&input, EP_CALL),
        Ok(vec![
            Node::punct('#', false, 1),
            Node::ident("set_span", 1),
            Node::group(Delimiter::Parenthesis, vec![Node::ident("f", 1)], 1, 1),
        ])
    );
}

#[test]
fn the_short_form_takes_a_bracket_group_after_the_comma_as_its_block() {
    let input = vec![
        ep_base(),
        Node::punct(',', false, 5),
        Node::group(Delimiter::Bracket, vec![Node::ident("f", 200)], 90, 91),
    ];
    assert_eq!(set_span_all(&input, EP_CALL), Ok(vec![Node::ident("f", 10)]));
}

#[test]
fn the_short_form_needs_one_group_and_nothing_more() {
    assert_eq!(
        set_span_all(&[ep_base()], EP_CALL),
        Err(Error::UnexpectedEndOfInput { expected: Expected::Group, anchor: EP_CALL })
    );
    assert_eq!(
        set_span_all(&[ep_base(), Node::punct(',', false, 5)], EP_CALL),
        Err(Error::UnexpectedEndOfInput { expected: Expected::Group, anchor: EP_CALL })
    );
    assert_eq!(
        set_span_all(&[ep_base(), Node::ident("f", 6)], EP_CALL),
        Err(Error::UnexpectedToken { expected: Expected::Group, anchor: 6 })
    );
    assert_eq!(
        set_span_all(
            &[
                ep_base(),
                Node::punct(',', false, 5),
                Node::punct(',', false, 6),
            ],
            EP_CALL
        ),
        Err(Error::UnexpectedToken { expected: Expected::Group, anchor: 6 })
    );
    let block = Node::group(Delimiter::Brace, vec![], 90, 91);
    assert_eq!(
        set_span_all(&[ep_base(), block, Node::ident("more", 7)], EP_CALL),
        Err(Error::UnexpectedToken { expected: Expected::EndOfInput, anchor: 7 })
    );
}
