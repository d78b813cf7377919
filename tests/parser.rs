use mdblog::config::Config;
use mdblog::markdown::date::{Date, DateError};
use mdblog::markdown::error::ParseError;
use mdblog::markdown::node::Node;
use mdblog::markdown::parser::Parser;
use mdblog::markdown::Markdown;

const INPUT1: &str = r#"---
title: Sample Text
---
Hello, world!"#;

const INPUT2: &str = r#"---
title: Sample Text 2
date: 2020-04-01
tags: Rust 日本語
dummy: field
---
Hello, world!

```rust:src/main.rs
fn main() {
    println!("Hello, world!");
}
```



This is an example of list.

- First line.
- Second line.
"#;

#[test]
fn header() {
    let mut parser = Parser::new(INPUT1);
    let (title, date, tags) = parser.parse_header().unwrap();
    assert_eq!(title, "Sample Text");
    assert_eq!(date, None);
    assert_eq!(tags, Vec::<String>::new());
    assert_eq!(parser.next_line(), Some("Hello, world!".to_owned()));

    let mut parser = Parser::new(INPUT2);
    let (title, date, tags) = parser.parse_header().unwrap();
    assert_eq!(title, "Sample Text 2");
    assert_eq!(date, Some(Date(2020, 4, 1)));
    assert_eq!(tags, vec!["Rust".to_owned(), "日本語".to_owned()]);
    let content = parser.divide_into_blocks().unwrap();
    println!("{:?}", content);
    assert_eq!(content.len(), 4)
}

#[test]
fn blocks_of_body() {
    let body = "Hello, world!\n\n```rust:src/main.rs\nfn main() {}\n```\n\n\n\nThis is an example of list.\n\n- First line.\n- Second line.\n";
    let mut parser = Parser::new(body);
    let blocks = parser.divide_into_blocks().unwrap();
    assert_eq!(
        blocks,
        vec![
            "Hello, world!".to_owned(),
            "```rust:src/main.rs\nfn main() {}\n```".to_owned(),
            "This is an example of list.".to_owned(),
            "- First line.\n- Second line.".to_owned(),
        ]
    );
    assert_eq!(parser.next_line(), None);
}

#[test]
fn blocks_skip_leading_and_trailing_blank_lines() {
    let mut parser = Parser::new("\n\na\r\nb\n\n\n");
    assert_eq!(parser.divide_into_blocks().unwrap(), vec!["a\nb".to_owned()]);
    let mut parser = Parser::new("");
    assert_eq!(parser.divide_into_blocks().unwrap(), Vec::<String>::new());
}

#[test]
fn header_tags_keep_their_order() {
    let mut parser = Parser::new("---\ntitle: T\ntags: Rust 日本語\n---\n");
    let (_, _, tags) = parser.parse_header().unwrap();
    assert_eq!(tags, vec!["Rust".to_owned(), "日本語".to_owned()]);
}

#[test]
fn header_trims_title_and_skips_unknown_keys() {
    let mut parser = Parser::new("---\ntitle:   Spaced  \nauthor: x\n----\nrest");
    let (title, date, tags) = parser.parse_header().unwrap();
    assert_eq!(title, "Spaced");
    assert_eq!(date, None);
    assert!(tags.is_empty());
    assert_eq!(parser.next_line(), Some("rest".to_owned()));
}

#[test]
fn header_errors() {
    assert_eq!(Parser::new("title: x\n---\n").parse_header(), Err(ParseError::MissingHeader));
    assert_eq!(Parser::new("").parse_header(), Err(ParseError::MissingHeader));
    assert_eq!(Parser::new("---\ndate: 2020-01-01\n---\n").parse_header(), Err(ParseError::MissingTitle));
    assert_eq!(Parser::new("---\ntitle: x\n").parse_header(), Err(ParseError::UnclosedHeader));
    assert_eq!(Parser::new("---\ntitle: x\nmore\n").parse_header(), Err(ParseError::UnclosedHeader));
    assert_eq!(
        Parser::new("---\ntitle: x\ndate: 2020-xx\n---\n").parse_header(),
        Err(ParseError::InvalidDate(DateError::InvalidDigit))
    );
}

#[test]
fn parse_whole_document() {
    let mut parser = Parser::new("---\ntitle: Doc\ndate: 2021-02-03\n---\nHello _you_\n\n```\ncode\n```\n");
    let (title, date, tags, nodes) = parser.parse().unwrap();
    assert_eq!(title, "Doc");
    assert_eq!(date, Some(Date(2021, 2, 3)));
    assert!(tags.is_empty());
    assert_eq!(nodes.len(), 2);
    assert_eq!(nodes[0], Node::Div(vec![Node::Text("Hello ".to_owned()), Node::Emphasis("you".to_owned())]));
    assert_eq!(
        nodes[1],
        Node::CodeBlock(mdblog::markdown::node::codeblock::Language::Plain, None, "code".to_owned())
    );
    let mut parser = Parser::new("---\ntitle: Doc\n---\nok\n\n![x](y)\n");
    assert_eq!(parser.parse(), Err(ParseError::Unsupported('!')));
}

#[test]
fn page_from_template() {
    let config = Config {
        site_name: "Site".to_owned(),
        language: "ja".to_owned(),
        root: "https://example.org".to_owned(),
        author: "Me".to_owned(),
        year: "2024".to_owned(),
    };
    let md = Markdown::from_text("a.html".to_owned(), "---\ntitle: Doc\ndate: 2021-2-3\ntags: Rust Web\n---\nbody\n").unwrap();
    let page = md.to_html(&config);
    assert!(page.contains("<html lang=\"ja\">"));
    assert!(page.contains("<title>Doc - Site</title>"));
    assert!(page.contains("<a href=\"https://example.org\">Site</a>"));
    assert!(page.contains("<div class=\"tag\"><a href=\"https://example.org/tags/rust\">Rust</a></div><div class=\"tag\"><a href=\"https://example.org/tags/web\">Web</a></div>"));
    assert!(page.contains("<time datetime=2021-02-03>2021-02-03</time>"));
    assert!(page.contains("&copy;2024 Me"));
    assert!(!page.contains("{{"));
    assert!(Markdown::from_text("a.html".to_owned(), "no header").is_err());
}
