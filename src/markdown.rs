//! A parsed document and its page: the header's fields and the body's nodes,
//! filled into the site's page template.

pub mod date;
pub mod error;
pub mod node;
pub mod parser;

use crate::config::Config;
use crate::markdown::date::{date_text, Date};
use crate::markdown::error::ParseError;
use crate::markdown::node::{node_models, Node, NodeModel};
use crate::markdown::parser::{document, Parser};
use crate::text::{chars_of, lines_of, push_char, push_str, replace_all, replace_chars, string_of, strs_of};
use vstd::prelude::*;

verus! {

/// The page template. Its placeholders are `{{SITE NAME}}`, `{{LANG}}`,
/// `{{TITLE}}`, `{{AUTHOR}}`, `{{YEAR}}`, `{{TAGS}}`, `{{DATE}}`,
/// `{{CONTENT}}` and `{{ROOT}}`.
pub const CONTENT_TEMPLATE: &'static str = "<!DOCTYPE html>
<html lang=\"{{LANG}}\">

<head>
  <meta charset=\"utf-8\">
  <title>{{TITLE}} - {{SITE NAME}}</title>
  <link rel=\"stylesheet\" href=\"/article-page.css\">
</head>

<body>
  <header>
    <div class=\"header-container\"><a href=\"{{ROOT}}\">{{SITE NAME}}</a></div>
  </header>

  <main class=\"main\">
<section class=\"article\">
  <header>
    <h1 class=\"title\">{{TITLE}}</h1>
    <div class=\"tags-container\">
        {{TAGS}}
        <div class=\"date\">{{DATE}}</div>
    </div>
  </header>

  CONTENT
</section>
  </main>

  <footer>
    <div class=\"footer-container\">&copy;{{YEAR}} {{AUTHOR}}</div>
  </footer>
</html>
";

/// A parsed document: where its page goes, its header's fields and its
/// nodes.
#[derive(Debug, Clone)]
pub struct Markdown {
    path: String,
    date: Option<Date>,
    title: String,
    tags: Vec<String>,
    content: Vec<Node>,
}

/// An ASCII capital letter as lower case; any other character unchanged.
pub open spec fn lower_char(c: char) -> char {
    if 'A' <= c && c <= 'Z' {
        (((c as u32) + 32) as u8) as char
    } else {
        c
    }
}

/// `s` with its ASCII capitals in lower case.
pub open spec fn ascii_lower(s: Seq<char>) -> Seq<char> {
    s.map_values(|c: char| lower_char(c))
}

/// The link of one tag, to the page of its lower-cased name.
pub open spec fn tag_html(tag: Seq<char>) -> Seq<char> {
    "<div class=\"tag\"><a href=\"{{ROOT}}/tags/"@ + ascii_lower(tag) + "\">"@ + tag + "</a></div>"@
}

/// The links of the tags, in order.
pub open spec fn tags_html(tags: Seq<Seq<char>>) -> Seq<char>
    decreases tags.len(),
{
    if tags.len() == 0 {
        Seq::empty()
    } else {
        tags_html(tags.drop_last()) + tag_html(tags.last())
    }
}

/// The date element, or nothing where there is no date.
pub open spec fn date_html(date: Option<Date>) -> Seq<char> {
    match date {
        Some(d) => "<time datetime="@ + date_text(d) + ">"@ + date_text(d) + "</time>"@,
        None => Seq::empty(),
    }
}

/// The page of a document: the template's placeholders replaced, in this
/// order, by the site name, language, title, author, year, tag links, date,
/// nothing for the content, and the site root.
pub open spec fn page_html(
    title: Seq<char>,
    date: Option<Date>,
    tags: Seq<Seq<char>>,
    site_name: Seq<char>,
    language: Seq<char>,
    author: Seq<char>,
    year: Seq<char>,
    root: Seq<char>,
) -> Seq<char> {
    let s0 = replace_all(CONTENT_TEMPLATE@, "{{SITE NAME}}"@, site_name);
    let s1 = replace_all(s0, "{{LANG}}"@, language);
    let s2 = replace_all(s1, "{{TITLE}}"@, title);
    let s3 = replace_all(s2, "{{AUTHOR}}"@, author);
    let s4 = replace_all(s3, "{{YEAR}}"@, year);
    let s5 = replace_all(s4, "{{TAGS}}"@, tags_html(tags));
    let s6 = replace_all(s5, "{{DATE}}"@, date_html(date));
    let s7 = replace_all(s6, "{{CONTENT}}"@, Seq::empty());
    replace_all(s7, "{{ROOT}}"@, root)
}

/// `s` with each occurrence of the placeholder `pat` replaced by `by`.
fn fill(s: Vec<char>, pat: &str, by: &str) -> (r: Vec<char>)
    requires
        pat@.len() > 0,
    ensures
        r@ == replace_all(s@, pat@, by@),
{
    let p = chars_of(pat);
    let b = chars_of(by);
    replace_chars(s.as_slice(), p.as_slice(), b.as_slice())
}

impl Markdown {
    pub closed spec fn path(&self) -> Seq<char> {
        self.path@
    }

    pub closed spec fn title(&self) -> Seq<char> {
        self.title@
    }

    pub closed spec fn date(&self) -> Option<Date> {
        self.date
    }

    pub closed spec fn tags(&self) -> Seq<Seq<char>> {
        strs_of(self.tags@)
    }

    pub closed spec fn nodes(&self) -> Seq<NodeModel> {
        node_models(self.content@)
    }

    /// The document of the text `text`, whose page goes to `path`.
    pub fn from_text(path: String, text: &str) -> (r: Result<Markdown, ParseError>)
        ensures
            r matches Ok(m) ==> (document(lines_of(text@)) matches Ok(d) && m.path() == path@
                && m.title() == d.0 && m.date() == d.1 && m.tags() == d.2 && m.nodes() == d.3),
            r matches Err(e) ==> document(lines_of(text@)) == Err::<
                (Seq<char>, Option<Date>, Seq<Seq<char>>, Seq<NodeModel>),
                _,
            >(e),
    {
        let mut parser = Parser::new(text);
        proof {
            assert(parser.rest() =~= lines_of(text@));
        }
        match parser.parse() {
            Ok((title, date, tags, content)) => Ok(Markdown { path, date, title, tags, content }),
            Err(e) => Err(e),
        }
    }

    /// The links of the document's tags.
    fn tags_to_html(&self) -> (r: String)
        ensures
            r@ == tags_html(self.tags()),
    {
        let mut out = String::new();
        let mut i: usize = 0;
        while i < self.tags.len()
            invariant
                i <= self.tags@.len(),
                out@ == tags_html(strs_of(self.tags@).subrange(0, i as int)),
            decreases self.tags.len() - i,
        {
            let tag: &String = &self.tags[i];
            let v = chars_of(tag.as_str());
            let ghost before = out@;
            push_str(&mut out, "<div class=\"tag\"><a href=\"{{ROOT}}/tags/");
            let mut j: usize = 0;
            while j < v.len()
                invariant
                    j <= v@.len(),
                    out@ == before + "<div class=\"tag\"><a href=\"{{ROOT}}/tags/"@ + ascii_lower(v@.subrange(0, j as int)),
                decreases v.len() - j,
            {
                let c = v[j];
                let l = if 'A' <= c && c <= 'Z' {
                    (((c as u32) + 32) as u8) as char
                } else {
                    c
                };
                push_char(&mut out, l);
                j += 1;
                assert(ascii_lower(v@.subrange(0, j as int)) =~= ascii_lower(v@.subrange(0, j - 1)).push(l));
            }
            assert(v@.subrange(0, j as int) =~= v@);
            push_str(&mut out, "\">");
            push_str(&mut out, tag.as_str());
            push_str(&mut out, "</a></div>");
            i += 1;
            let ghost now = strs_of(self.tags@).subrange(0, i as int);
            assert(now.drop_last() =~= strs_of(self.tags@).subrange(0, i - 1));
            assert(now.last() == tag@);
            assert(out@ =~= tags_html(now));
        }
        assert(strs_of(self.tags@).subrange(0, i as int) =~= strs_of(self.tags@));
        out
    }

    /// The document's date element, or nothing where it has no date.
    fn date_to_html(&self) -> (r: String)
        ensures
            r@ == date_html(self.date()),
    {
        match self.date {
            Some(date) => {
                let d = date.to_string();
                let mut out = String::new();
                push_str(&mut out, "<time datetime=");
                push_str(&mut out, d.as_str());
                push_str(&mut out, ">");
                push_str(&mut out, d.as_str());
                push_str(&mut out, "</time>");
                out
            },
            None => String::new(),
        }
    }

    /// The document's page: the template filled with the site's settings
    /// and the document's header fields.
    pub fn to_html(&self, config: &Config) -> (r: String)
        ensures
            r@ == page_html(
                self.title(),
                self.date(),
                self.tags(),
                config.site_name@,
                config.language@,
                config.author@,
                config.year@,
                config.root@,
            ),
    {
        proof {
            reveal_strlit("{{SITE NAME}}");
            reveal_strlit("{{LANG}}");
            reveal_strlit("{{TITLE}}");
            reveal_strlit("{{AUTHOR}}");
            reveal_strlit("{{YEAR}}");
            reveal_strlit("{{TAGS}}");
            reveal_strlit("{{DATE}}");
            reveal_strlit("{{CONTENT}}");
            reveal_strlit("{{ROOT}}");
        }
        let tags = self.tags_to_html();
        let date = self.date_to_html();
        let s = chars_of(CONTENT_TEMPLATE);
        let s = fill(s, "{{SITE NAME}}", config.site_name.as_str());
        let s = fill(s, "{{LANG}}", config.language.as_str());
        let s = fill(s, "{{TITLE}}", self.title.as_str());
        let s = fill(s, "{{AUTHOR}}", config.author.as_str());
        let s = fill(s, "{{YEAR}}", config.year.as_str());
        let s = fill(s, "{{TAGS}}", tags.as_str());
        let s = fill(s, "{{DATE}}", date.as_str());
        let s = fill(s, "{{CONTENT}}", "");
        let s = fill(s, "{{ROOT}}", config.root.as_str());
        proof {
            reveal_strlit("");
            assert(""@ =~= Seq::<char>::empty());
            assert(s@.subrange(0, s@.len() as int) =~= s@);
        }
        string_of(s.as_slice(), 0, s.len())
    }
}

} // verus!
