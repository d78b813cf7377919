use mdblog::markdown::error::ParseError;
use mdblog::markdown::node::codeblock::Language;
use mdblog::markdown::node::{latex_html, DisplayStyle, Node};

#[test]
fn it_work() {
    let problems: Vec<(Node, &str)> = vec![];
    for (problem, answer) in problems.iter() {
        assert_eq!(&problem.to_html(), answer);
    }
}

#[test]
fn node_short_block_is_text() {
    assert_eq!(Node::parse("_a".to_owned()).unwrap(), Node::Div(vec![Node::Text("_a".to_owned())]));
    assert_eq!(Node::parse("``".to_owned()).unwrap(), Node::Div(vec![Node::Text("``".to_owned())]));
}

#[test]
fn node_classifies_blocks() {
    assert_eq!(
        Node::parse("Hello, _world_".to_owned()).unwrap(),
        Node::Div(vec![Node::Text("Hello, ".to_owned()), Node::Emphasis("world".to_owned())])
    );
    assert_eq!(
        Node::parse("```\nplain\n```".to_owned()).unwrap(),
        Node::CodeBlock(Language::Plain, None, "plain".to_owned())
    );
    assert_eq!(Node::parse("a [b]".to_owned()), Err(ParseError::Unsupported('[')));
}

#[test]
fn node_html_rendering() {
    assert_eq!(Node::Emphasis("italic".to_owned()).to_html(), "<em>italic</em>");
    assert_eq!(Node::Strong("bold".to_owned()).to_html(), "<strong>bold</strong>");
    assert_eq!(Node::Text("a<b".to_owned()).to_html(), "a<b");
    assert_eq!(
        Node::CodeBlock(Language::Plain, Some("f.txt".to_owned()), "x".to_owned()).to_html(),
        r#"<div class="code-frame"><div class="filename">f.txt</div><pre>x</pre></div>"#
    );
    assert_eq!(
        Node::CodeBlock(Language::Plain, None, "x".to_owned()).to_html(),
        r#"<div class="code-frame"><pre>x</pre></div>"#
    );
    assert_eq!(
        Node::Div(vec![Node::Text("a ".to_owned()), Node::Strong("b".to_owned())]).to_html(),
        "<div class=>a <strong>b</strong></div>"
    );
}

#[test]
fn node_math_rendering() {
    let html = Node::LaTeX(DisplayStyle::Inline, "x^2".to_owned()).to_html();
    assert!(html.starts_with("<math"));
    assert!(html.contains("display=\"inline\""));
    let html = Node::LaTeX(DisplayStyle::Block, "x".to_owned()).to_html();
    assert!(html.contains("display=\"block\""));
    assert_eq!(latex_html("x", None), "$x$");
    assert_eq!(latex_html("x", Some("<math>x</math>".to_owned())), "<math>x</math>");
}

#[test]
fn node_keeps_nul_characters_as_text() {
    assert_eq!(Node::parse("\0ab".to_owned()).unwrap(), Node::Div(vec![Node::Text("\0ab".to_owned())]));
    assert_eq!(
        Node::parse("ab\0cd _e_".to_owned()).unwrap(),
        Node::Div(vec![Node::Text("ab\0cd ".to_owned()), Node::Emphasis("e".to_owned())])
    );
}

#[test]
fn node_middle_command_is_written_as_source() {
    assert_eq!(Node::LaTeX(DisplayStyle::Inline, "\\middle a".to_owned()).to_html(), "$\\middle a$");
}

#[test]
fn node_clone_is_equal() {
    let n = Node::Div(vec![Node::Text("a".to_owned()), Node::Strong("b".to_owned())]);
    assert_eq!(n.clone(), n);
}
