use mdblog::markdown::error::ParseError;
use mdblog::markdown::node::inline::parse;
use mdblog::markdown::node::{DisplayStyle, Node};

#[test]
fn inline_parse() {
    let problems = vec![
        ("_italic_", vec![Node::Emphasis("italic".to_owned())]),
        ("__bold__", vec![Node::Strong("bold".to_owned())]),
        (
            "This is an _italic_ word.",
            vec![
                Node::Text("This is an ".to_owned()),
                Node::Emphasis("italic".to_owned()),
                Node::Text(" word.".to_owned()),
            ],
        ),
    ];

    for (problem, answer) in problems.iter() {
        assert_eq!(&parse(problem).unwrap(), answer);
    }
}

#[test]
fn inline_star_and_math_spans() {
    assert_eq!(
        parse("*a* **b** $x$ $$y$$").unwrap(),
        vec![
            Node::Emphasis("a".to_owned()),
            Node::Text(" ".to_owned()),
            Node::Strong("b".to_owned()),
            Node::Text(" ".to_owned()),
            Node::LaTeX(DisplayStyle::Inline, "x".to_owned()),
            Node::Text(" ".to_owned()),
            Node::LaTeX(DisplayStyle::Block, "y".to_owned()),
        ]
    );
}

#[test]
fn inline_unclosed_span_runs_to_end() {
    assert_eq!(parse("a _open").unwrap(), vec![Node::Text("a ".to_owned()), Node::Emphasis("open".to_owned())]);
    assert_eq!(parse("**open").unwrap(), vec![Node::Strong("open".to_owned())]);
}

#[test]
fn inline_empty_and_plain() {
    assert_eq!(parse("").unwrap(), Vec::<Node>::new());
    assert_eq!(parse("plain").unwrap(), vec![Node::Text("plain".to_owned())]);
}

#[test]
fn inline_unsupported_syntax() {
    assert_eq!(parse("see [link](x)"), Err(ParseError::Unsupported('[')));
    assert_eq!(parse("![img](x)"), Err(ParseError::Unsupported('!')));
}
