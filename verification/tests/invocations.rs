use set_span::error::Error;
use set_span::tree::{Delimiter, Node};
use set_span::{set_span, set_span_all};

const CALL_SITE: u64 = 900;
const MIXED_SITE: u64 = 901;

fn sc_ident(name: &str, tag: u64) -> Node {
    Node::ident(name, tag)
}

fn sc_punct(ch: char, tag: u64) -> Node {
    Node::punct(ch, false, tag)
}

fn sc_group(delimiter: Delimiter, children: Vec<Node>, tag: u64) -> Node {
    Node::group(delimiter, children, tag, tag + 1)
}

fn sc_selector(text: &str, tag: u64) -> Node {
    sc_group(Delimiter::Bracket, vec![Node::literal(text, tag + 2)], tag)
}

/// `[(((x)))]`: the bracket group at 10, the parenthesis groups at 20, 30
/// and 40 from the outside in, `x` at 50.
fn sc_nest() -> Node {
    let innermost = sc_group(Delimiter::Parenthesis, vec![sc_ident("x", 50)], 40);
    let middle = sc_group(Delimiter::Parenthesis, vec![innermost], 30);
    let outer = sc_group(Delimiter::Parenthesis, vec![middle], 20);
    sc_group(Delimiter::Bracket, vec![outer], 10)
}

/// `dbg!(a);` with tags from `base` on.
fn sc_dbg(base: u64) -> Vec<Node> {
    vec![
        sc_ident("dbg", base),
        sc_punct('!', base + 1),
        sc_group(Delimiter::Parenthesis, vec![sc_ident("a", base + 4)], base + 2),
        sc_punct(';', base + 5),
    ]
}

/// `dbg!(a);` with the one tag `tag` throughout.
fn sc_dbg_at(tag: u64) -> Vec<Node> {
    vec![
        Node::ident("dbg", tag),
        Node::punct('!', false, tag),
        Node::group(Delimiter::Parenthesis, vec![Node::ident("a", tag)], tag, tag),
        Node::punct(';', false, tag),
    ]
}

fn sc_directive(name: &str, argument: Vec<Node>, base: u64) -> Vec<Node> {
    vec![
        sc_punct('#', base),
        sc_ident(name, base + 1),
        sc_group(Delimiter::Parenthesis, argument, base + 2),
    ]
}

#[test]
fn body_without_directive_is_returned_unchanged() {
    let body = vec![
        sc_ident("let", 100),
        sc_ident("a", 101),
        sc_punct('=', 102),
        Node::literal("\"\"", 103),
        sc_punct('.', 104),
        sc_ident("to_owned", 105),
        sc_group(Delimiter::Parenthesis, vec![], 106),
        sc_punct(';', 108),
    ];
    let input = vec![
        sc_ident("x", 1),
        sc_punct(',', 2),
        sc_group(Delimiter::Brace, body.clone(), 3),
    ];
    assert_eq!(set_span(&input, CALL_SITE, MIXED_SITE), Ok(body));
}

#[test]
fn three_descents_then_set_span_stamps_the_block() {
    let body = sc_directive("set_span", sc_dbg(200), 100);
    let input = vec![
        sc_nest(),
        sc_selector("0", 60),
        sc_selector("0", 70),
        sc_selector("0", 80),
        sc_punct(',', 90),
        sc_group(Delimiter::Brace, body, 95),
    ];
    // Three descents from the bracket group end at the innermost group `(x)`.
    assert_eq!(set_span(&input, CALL_SITE, MIXED_SITE), Ok(sc_dbg_at(40)));
}

#[test]
fn four_descents_reach_the_identifier_itself() {
    let body = sc_directive("set_span", sc_dbg(200), 100);
    let input = vec![
        sc_nest(),
        sc_selector("0", 60),
        sc_selector("0", 70),
        sc_selector("0", 80),
        sc_selector("0", 84),
        sc_punct(',', 90),
        sc_group(Delimiter::Brace, body, 95),
    ];
    assert_eq!(set_span(&input, CALL_SITE, MIXED_SITE), Ok(sc_dbg_at(50)));
}

#[test]
fn suffixed_selectors_give_the_same_result() {
    let plain = vec![
        sc_nest(),
        sc_selector("0", 60),
        sc_selector("0", 70),
        sc_selector("0", 80),
        sc_punct(',', 90),
        sc_group(Delimiter::Brace, sc_directive("set_span", sc_dbg(200), 100), 95),
    ];
    let suffixed = vec![
        sc_nest(),
        sc_selector("0u8", 60),
        sc_selector("0i32", 70),
        sc_selector("0", 80),
        sc_punct(',', 90),
        sc_group(Delimiter::Brace, sc_directive("set_span", sc_dbg(200), 100), 95),
    ];
    let expected = set_span(&plain, CALL_SITE, MIXED_SITE);
    assert_eq!(expected, Ok(sc_dbg_at(40)));
    assert_eq!(set_span(&suffixed, CALL_SITE, MIXED_SITE), expected);
}

#[test]
fn set_index_span_descends_further_before_stamping() {
    let argument = vec![
        sc_selector("0", 110),
        sc_group(Delimiter::Brace, sc_dbg(200), 120),
    ];
    let body = sc_directive("set_index_span", argument, 100);
    let input = vec![
        sc_nest(),
        sc_selector("0", 60),
        sc_selector("0", 70),
        sc_selector("0", 80),
        sc_punct(',', 90),
        sc_group(Delimiter::Brace, body, 95),
    ];
    // The address ends at `(x)`; the directive's own selector leads on to `x`.
    assert_eq!(set_span(&input, CALL_SITE, MIXED_SITE), Ok(sc_dbg_at(50)));
}

#[test]
fn index_beyond_the_group_is_out_of_range_at_the_selector() {
    let input = vec![
        sc_nest(),
        sc_selector("5", 60),
        sc_punct(',', 90),
        sc_group(Delimiter::Brace, vec![], 95),
    ];
    let error = set_span(&input, CALL_SITE, MIXED_SITE).unwrap_err();
    assert_eq!(
        error,
        Error::IndexOutOfRange { index: 5, group: "[(((x)))]".to_string(), anchor: 62 }
    );
    assert_eq!(error.anchor(), 62);
    assert_eq!(error.message(), "index 5 out of range, of [(((x)))]");
}

#[test]
fn both_directives_in_one_body_are_expanded_in_place() {
    // #set_span(dbg!(&a);) #set_index_span([0] { dbg!(a); })
    let first = vec![
        sc_ident("dbg", 200),
        sc_punct('!', 201),
        sc_group(
            Delimiter::Parenthesis,
            vec![sc_punct('&', 204), sc_ident("a", 205)],
            202,
        ),
        sc_punct(';', 206),
    ];
    let mut body = sc_directive("set_span", first, 100);
    body.extend(sc_directive(
        "set_index_span",
        vec![sc_selector("0", 310), sc_group(Delimiter::Brace, sc_dbg(400), 320)],
        300,
    ));
    let input = vec![
        sc_nest(),
        sc_selector("0u8", 60),
        sc_selector("0i32", 70),
        sc_selector("0", 80),
        sc_punct(',', 90),
        sc_group(Delimiter::Brace, body, 95),
    ];
    let mut expected = vec![
        Node::ident("dbg", 40),
        Node::punct('!', false, 40),
        Node::group(
            Delimiter::Parenthesis,
            vec![Node::punct('&', false, 40), Node::ident("a", 40)],
            40,
            40,
        ),
        Node::punct(';', false, 40),
    ];
    expected.extend(sc_dbg_at(50));
    assert_eq!(set_span(&input, CALL_SITE, MIXED_SITE), Ok(expected));
}

#[test]
fn short_form_stamps_the_whole_group() {
    let input = vec![
        sc_nest(),
        sc_selector("0", 60),
        sc_punct(',', 90),
        sc_group(Delimiter::Brace, sc_dbg(200), 95),
    ];
    assert_eq!(set_span_all(&input, CALL_SITE), Ok(sc_dbg_at(20)));
}
