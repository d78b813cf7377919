use mdblog::markdown::error::ParseError;
use mdblog::markdown::node::codeblock::{parse, split, with_highlight, Language};

#[test]
fn codeblock_it_works() {
    let text = r#"```
console.log("Hello, world!");
```"#
        .to_owned();
    let (lang, filename, content) = parse(text).unwrap();
    assert_eq!(lang, Language::Plain);
    assert_eq!(filename, None);
    assert_eq!(&content, r#"console.log("Hello, world!");"#);

    let text = r#"```rust:src/main.rs
fn main() {
    println!("Hello, world!");
}
```"#
        .to_owned();
    let (lang, filename, _content) = parse(text).unwrap();
    assert_eq!(lang, Language::Rust);
    assert_eq!(filename, Some("src/main.rs".to_owned()));
}

#[test]
fn codeblock_fence_parts() {
    let (lang, filename, content) = split("```rust:src/main.rs\nfn main() {}\n```");
    assert_eq!(lang, Language::Rust);
    assert_eq!(filename, Some("src/main.rs".to_owned()));
    assert_eq!(content, "fn main() {}");
}

#[test]
fn codeblock_languages() {
    let cases = [
        ("bash", Language::ShellScript),
        ("shell", Language::ShellScript),
        ("shell-session", Language::ShellScript),
        ("shell_session", Language::ShellScript),
        ("c", Language::C),
        ("cpp", Language::Cpp),
        ("c++", Language::Cpp),
        ("cs", Language::Cs),
        ("css", Language::Css),
        ("html", Language::Html),
        ("javascript", Language::Javascript),
        ("python", Language::Python),
        ("rust", Language::Rust),
        ("Rust", Language::Plain),
        ("go", Language::Plain),
    ];
    for (tok, lang) in cases {
        let (l, f, _) = split(&format!("```{}\nx\n```", tok));
        assert_eq!(l, lang);
        assert_eq!(f, None);
    }
    assert_eq!(Language::Rust.extension(), "rs");
    assert_eq!(Language::Javascript.extension(), "js");
    assert_eq!(Language::Plain.extension(), "");
}

#[test]
fn codeblock_keeps_fence_lookalikes() {
    let (_, f, content) = split("```:a:b\none\n```x\n```\ntwo");
    assert_eq!(f, Some("a:b".to_owned()));
    assert_eq!(content, "one\n```x\ntwo");
}

#[test]
fn codeblock_highlighting_marks_up() {
    let (lang, _, content) = parse("```rust\nfn main() {}\n```".to_owned()).unwrap();
    assert_eq!(lang, Language::Rust);
    assert_ne!(content, "fn main() {}");
    assert!(content.contains("<span"));
    assert!(content.contains("main"));
}

#[test]
fn codeblock_missing_markup_is_an_error() {
    let parts = (Language::Rust, None, "x".to_owned());
    assert_eq!(with_highlight(parts, None), Err(ParseError::NoGrammar));
    let parts = (Language::Plain, None, "x".to_owned());
    assert_eq!(with_highlight(parts, None), Ok((Language::Plain, None, "x".to_owned())));
    let parts = (Language::C, Some("m.c".to_owned()), "x".to_owned());
    assert_eq!(
        with_highlight(parts, Some("<b>x</b>".to_owned())),
        Ok((Language::C, Some("m.c".to_owned()), "<b>x</b>".to_owned()))
    );
}
