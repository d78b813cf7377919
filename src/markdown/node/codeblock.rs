//! Fenced code blocks: the fence line names a language and, after a `:`, a
//! file; the lines up to the closing fence are the code, highlighted where
//! the language is known.

use crate::markdown::error::ParseError;
use crate::text::{
    lemma_split_first, lemma_split_on_nonempty, split_on,
    chars_of, eq_str, opt_view, has_prefix, join_chars, join_lines, lines_chars, lines_of, seqs_of,
    string_of,
};
use vstd::prelude::*;

verus! {

/// The languages that a fence can name; `Plain` turns highlighting off.
#[derive(Debug, Clone, Copy, PartialEq, Eq, Structural)]
pub enum Language {
    C,
    Cpp,
    Cs,
    Css,
    Html,
    Javascript,
    Python,
    Rust,
    ShellScript,
    /// No language that a grammar is known for: the code stays plain.
    Plain,
}

/// The language that a fence token names: exact and case-sensitive.
pub open spec fn language_of(tok: Seq<char>) -> Language {
    if tok == "bash"@ || tok == "shell"@ || tok == "shell-session"@ || tok == "shell_session"@ {
        Language::ShellScript
    } else if tok == "c"@ {
        Language::C
    } else if tok == "cpp"@ || tok == "c++"@ {
        Language::Cpp
    } else if tok == "cs"@ {
        Language::Cs
    } else if tok == "css"@ {
        Language::Css
    } else if tok == "html"@ {
        Language::Html
    } else if tok == "javascript"@ {
        Language::Javascript
    } else if tok == "python"@ {
        Language::Python
    } else if tok == "rust"@ {
        Language::Rust
    } else {
        Language::Plain
    }
}

/// The file extension under which a language's grammar is looked up.
pub open spec fn extension_of(l: Language) -> Seq<char> {
    match l {
        Language::C => "c"@,
        Language::Cpp => "cpp"@,
        Language::Cs => "cs"@,
        Language::Css => "css"@,
        Language::Html => "html"@,
        Language::Javascript => "js"@,
        Language::Python => "py"@,
        Language::Rust => "rs"@,
        Language::ShellScript => "sh"@,
        Language::Plain => ""@,
    }
}

impl Language {
    /// The language that a fence token names.
    pub fn from_token(tok: &[char]) -> (r: Language)
        ensures
            r == language_of(tok@),
    {
        if eq_str(tok, "bash") || eq_str(tok, "shell") || eq_str(tok, "shell-session") || eq_str(
            tok,
            "shell_session",
        ) {
            Language::ShellScript
        } else if eq_str(tok, "c") {
            Language::C
        } else if eq_str(tok, "cpp") || eq_str(tok, "c++") {
            Language::Cpp
        } else if eq_str(tok, "cs") {
            Language::Cs
        } else if eq_str(tok, "css") {
            Language::Css
        } else if eq_str(tok, "html") {
            Language::Html
        } else if eq_str(tok, "javascript") {
            Language::Javascript
        } else if eq_str(tok, "python") {
            Language::Python
        } else if eq_str(tok, "rust") {
            Language::Rust
        } else {
            Language::Plain
        }
    }

    /// The file extension under which the language's grammar is looked up.
    pub fn extension(&self) -> (r: &'static str)
        ensures
            r@ == extension_of(*self),
    {
        match self {
            Language::C => "c",
            Language::Cpp => "cpp",
            Language::Cs => "cs",
            Language::Css => "css",
            Language::Html => "html",
            Language::Javascript => "js",
            Language::Python => "py",
            Language::Rust => "rs",
            Language::ShellScript => "sh",
            Language::Plain => "",
        }
    }
}

/// The HTML that the grammar found under `extension` makes of `code`, or
/// `None` where no grammar is found or it fails on the code.
pub uninterp spec fn highlighted(code: Seq<char>, extension: Seq<char>) -> Option<Seq<char>>;

/// Relies on syntect: `SyntaxSet::load_defaults_newlines`,
/// `find_syntax_by_extension` and `ClassedHTMLGenerator`, fed the code line
/// by line. The markup depends on the code and the extension alone.
#[verifier::external_body]
fn highlight(code: &str, extension: &str) -> (r: Option<String>)
    ensures
        r matches Some(h) ==> highlighted(code@, extension@) == Some(h@),
        r is None ==> highlighted(code@, extension@) is None,
{
    let set = syntect::parsing::SyntaxSet::load_defaults_newlines();
    let syntax = set.find_syntax_by_extension(extension)?;
    let style = syntect::html::ClassStyle::Spaced;
    let mut generator = syntect::html::ClassedHTMLGenerator::new_with_class_style(syntax, &set, style);
    for line in code.lines() {
        generator.parse_html_for_line_which_includes_newline(&format!("{}\n", line)).ok()?;
    }
    Some(generator.finalize())
}

/// The index of the first `c` in `s` at or after `i`, or the length of `s`.
pub open spec fn first_index(s: Seq<char>, c: char, i: int) -> int
    decreases s.len() - i,
{
    if i >= s.len() {
        s.len() as int
    } else if s[i] == c {
        i
    } else {
        first_index(s, c, i + 1)
    }
}

/// The lines without those that are exactly a fence.
pub open spec fn without_fences(ls: Seq<Seq<char>>) -> Seq<Seq<char>>
    decreases ls.len(),
{
    if ls.len() == 0 {
        Seq::empty()
    } else if ls.last() == "```"@ {
        without_fences(ls.drop_last())
    } else {
        without_fences(ls.drop_last()).push(ls.last())
    }
}

/// A fenced block taken apart: the language that the fence line names
/// before its first `:`, the file name after it if there is one, and the
/// following lines, but those that are exactly a fence, joined with `\n`.
pub open spec fn fence_parts(t: Seq<char>) -> (Language, Option<Seq<char>>, Seq<char>) {
    let ls = lines_of(t);
    let head = ls[0].subrange(3, ls[0].len() as int);
    let k = first_index(head, ':', 0);
    let file = if k < head.len() {
        Some(head.subrange(k + 1, head.len() as int))
    } else {
        None
    };
    (language_of(head.subrange(0, k)), file, join_lines(without_fences(ls.drop_first())))
}

/// A code block with its content: the raw text where no language is known,
/// else the highlighted markup, whose absence is an error.
pub open spec fn with_markup(
    parts: (Language, Option<Seq<char>>, Seq<char>),
    markup: Option<Seq<char>>,
) -> Result<(Language, Option<Seq<char>>, Seq<char>), ParseError> {
    if parts.0 == Language::Plain {
        Ok(parts)
    } else {
        match markup {
            Some(h) => Ok((parts.0, parts.1, h)),
            None => Err(ParseError::NoGrammar),
        }
    }
}

/// What `parse` gives for a fenced block `t`.
pub open spec fn code_block(t: Seq<char>) -> Result<(Language, Option<Seq<char>>, Seq<char>), ParseError> {
    let parts = fence_parts(t);
    with_markup(parts, highlighted(parts.2, extension_of(parts.0)))
}

pub open spec fn triple_view(p: (Language, Option<String>, String)) -> (Language, Option<Seq<char>>, Seq<char>) {
    (p.0, match p.1 { Some(f) => Some(f@), None => None }, p.2@)
}

proof fn lemma_fence_first_line(t: Seq<char>)
    requires
        has_prefix(t, "```"@),
    ensures
        lines_of(t).len() >= 1,
        lines_of(t)[0].len() >= 3,
{
    reveal_strlit("```");
    let parts = split_on(t, '\n');
    lemma_split_on_nonempty(t, '\n');
    assert forall|j: int| 0 <= j < 3 implies t[j] != '\n' by {
        assert(t[j] == t.subrange(0, 3)[j]);
    }
    lemma_split_first(t, '\n', 3);
    assert(parts[0].subrange(0, 3)[2] == '`');
}

/// Takes a fenced block apart into its language, file name and raw content.
pub fn split(text: &str) -> (r: (Language, Option<String>, String))
    requires
        has_prefix(text@, "```"@),
    ensures
        triple_view(r) == fence_parts(text@),
{
    let v = chars_of(text);
    let ls = lines_chars(&v);
    proof {
        lemma_fence_first_line(text@);
    }
    let first: &Vec<char> = &ls[0];
    assert(first@ == lines_of(text@)[0]);
    let ghost head = first@.subrange(3, first@.len() as int);
    let mut k: usize = 3;
    while k < first.len() && first[k] != ':'
        invariant
            3 <= k <= first@.len(),
            head == first@.subrange(3, first@.len() as int),
            first_index(head, ':', 0) == first_index(head, ':', k - 3),
        decreases first.len() - k,
    {
        k += 1;
    }
    let lang = Language::from_token(&first[3..k]);
    assert(first@.subrange(3, k as int) =~= head.subrange(0, k - 3));
    let file = if k < first.len() {
        let f = string_of(first.as_slice(), k + 1, first.len());
        assert(f@ =~= head.subrange(k - 3 + 1, head.len() as int));
        Some(f)
    } else {
        None
    };
    let mut body: Vec<Vec<char>> = Vec::new();
    let mut i: usize = 1;
    let ghost rest = lines_of(text@).drop_first();
    while i < ls.len()
        invariant
            1 <= i <= ls@.len(),
            seqs_of(ls@) == lines_of(text@),
            rest == lines_of(text@).drop_first(),
            seqs_of(body@) == without_fences(rest.subrange(0, i - 1)),
        decreases ls.len() - i,
    {
        let ghost prev = rest.subrange(0, i - 1);
        let line: &Vec<char> = &ls[i];
        let ghost now = rest.subrange(0, i as int);
        assert(now.drop_last() =~= prev);
        assert(now.last() == line@);
        if !eq_str(line.as_slice(), "```") {
            let ghost old_body = body@;
            body.push(line.clone());
            assert(seqs_of(body@) =~= seqs_of(old_body).push(line@));
        }
        i += 1;
    }
    assert(rest.subrange(0, i - 1) =~= rest);
    let content = join_chars(&body);
    (lang, file, content)
}

/// A code block from its parts and the markup that highlighting gave for
/// its content: the raw content where no language is known, else the markup,
/// whose absence is an error.
pub fn with_highlight(
    parts: (Language, Option<String>, String),
    markup: Option<String>,
) -> (r: Result<(Language, Option<String>, String), ParseError>)
    ensures
        r matches Ok(p) ==> with_markup(triple_view(parts), opt_view(markup)) == Ok::<_, ParseError>(triple_view(p)),
        r matches Err(e) ==> with_markup(triple_view(parts), opt_view(markup)) == Err::<(Language, Option<Seq<char>>, Seq<char>), _>(e),
{
    let (lang, file, raw) = parts;
    match lang {
        Language::Plain => Ok((lang, file, raw)),
        _ => match markup {
            Some(h) => Ok((lang, file, h)),
            None => Err(ParseError::NoGrammar),
        },
    }
}

/// Parses a fenced block into its language, file name and content; the
/// content is highlighted where the language is known.
pub fn parse(text: String) -> (r: Result<(Language, Option<String>, String), ParseError>)
    requires
        has_prefix(text@, "```"@),
    ensures
        r matches Ok(p) ==> code_block(text@) == Ok::<_, ParseError>(triple_view(p)),
        r matches Err(e) ==> code_block(text@) == Err::<(Language, Option<Seq<char>>, Seq<char>), _>(e),
{
    let parts = split(text.as_str());
    let markup = match parts.0 {
        Language::Plain => None,
        lang => highlight(parts.2.as_str(), lang.extension()),
    };
    with_highlight(parts, markup)
}

} // verus!
