//! The inline scanner: one pass over a block's characters with one character
//! of lookahead, splitting it into text, emphasis, strong and math spans.

use crate::markdown::error::ParseError;
use crate::markdown::node::{node_model, node_models, DisplayStyle, Node, NodeModel};
use crate::text::{chars_of, push_char};
use vstd::prelude::*;

verus! {

/// The character at `i`, or the end marker `\0` past the end.
pub open spec fn at(s: Seq<char>, i: int) -> char {
    if 0 <= i < s.len() {
        s[i]
    } else {
        '\0'
    }
}

pub open spec fn is_delimiter(c: char) -> bool {
    c == '*' || c == '_' || c == '[' || c == '!' || c == '$'
}

/// The number of text characters from `i` on.
pub open spec fn text_run(s: Seq<char>, i: int) -> nat
    decreases s.len() - i,
{
    if 0 <= i < s.len() && !is_delimiter(s[i]) {
        1 + text_run(s, i + 1)
    } else {
        0
    }
}

/// The number of characters from `i` on before a single `e` or the end.
pub open spec fn run1(s: Seq<char>, i: int, e: char) -> nat
    decreases s.len() - i,
{
    if 0 <= i < s.len() && s[i] != e {
        1 + run1(s, i + 1, e)
    } else {
        0
    }
}

/// The number of characters from `i` on before a doubled `e` or the end.
pub open spec fn run2(s: Seq<char>, i: int, e: char) -> nat
    decreases s.len() - i,
{
    if 0 <= i < s.len() && !(s[i] == e && at(s, i + 1) == e) {
        1 + run2(s, i + 1, e)
    } else {
        0
    }
}

/// `i + k`, but no further than the end of `s`.
pub open spec fn advance(s: Seq<char>, i: int, k: int) -> int {
    if i + k < s.len() {
        i + k
    } else {
        s.len() as int
    }
}

/// The span that opens at the delimiter at `i`, and where scanning resumes.
pub open spec fn span_at(s: Seq<char>, i: int) -> Result<(NodeModel, int), ParseError> {
    let c = s[i];
    if c == '[' || c == '!' {
        Err(ParseError::Unsupported(c))
    } else if at(s, i + 1) == c {
        let b = advance(s, i, 2);
        let j = b + run2(s, b, c);
        let inner = s.subrange(b, j);
        let n = if c == '$' {
            NodeModel::LaTeX(DisplayStyle::Block, inner)
        } else {
            NodeModel::Strong(inner)
        };
        Ok((n, advance(s, j, 2)))
    } else {
        let b = i + 1;
        let j = b + run1(s, b, c);
        let inner = s.subrange(b, j);
        let n = if c == '$' {
            NodeModel::LaTeX(DisplayStyle::Inline, inner)
        } else {
            NodeModel::Emphasis(inner)
        };
        Ok((n, advance(s, j, 1)))
    }
}

/// The nodes of `s` from position `i` on: runs of text, and a span at each
/// delimiter (`_x_`, `*x*` emphasis; `__x__`, `**x**` strong; `$x$`, `$$x$$`
/// math). An unclosed span runs to the end; `[` and `!` are not supported.
pub open spec fn inline_from(s: Seq<char>, i: int) -> Result<Seq<NodeModel>, ParseError>
    decreases s.len() - i,
{
    if i < 0 || i >= s.len() {
        Ok(Seq::empty())
    } else if is_delimiter(s[i]) {
        match span_at(s, i) {
            Err(e) => Err(e),
            Ok(p) => match inline_from(s, p.1) {
                Err(e) => Err(e),
                Ok(t) => Ok(seq![p.0] + t),
            },
        }
    } else {
        let j = advance(s, i, 1 + text_run(s, i + 1) as int);
        match inline_from(s, j) {
            Err(e) => Err(e),
            Ok(t) => Ok(seq![NodeModel::Text(s.subrange(i, j))] + t),
        }
    }
}

/// The inline nodes of a block's text.
pub open spec fn inline_nodes(s: Seq<char>) -> Result<Seq<NodeModel>, ParseError> {
    inline_from(s, 0)
}

proof fn lemma_span_advances(s: Seq<char>, i: int)
    requires
        0 <= i < s.len(),
        is_delimiter(s[i]),
    ensures
        span_at(s, i) matches Ok(p) ==> i < p.1 <= s.len(),
{
    let c = s[i];
    lemma_run1_bound(s, i + 1, c);
    lemma_run2_bound(s, advance(s, i, 2), c);
}

proof fn lemma_run1_bound(s: Seq<char>, i: int, e: char)
    requires
        0 <= i <= s.len(),
    ensures
        i + run1(s, i, e) <= s.len(),
    decreases s.len() - i,
{
    if i < s.len() {
        lemma_run1_bound(s, i + 1, e);
    }
}

proof fn lemma_run2_bound(s: Seq<char>, i: int, e: char)
    requires
        0 <= i <= s.len(),
    ensures
        i + run2(s, i, e) <= s.len(),
    decreases s.len() - i,
{
    if i < s.len() {
        lemma_run2_bound(s, i + 1, e);
    }
}

proof fn lemma_text_run_bound(s: Seq<char>, i: int)
    requires
        0 <= i <= s.len(),
    ensures
        i + text_run(s, i) <= s.len(),
    decreases s.len() - i,
{
    if i < s.len() {
        lemma_text_run_bound(s, i + 1);
    }
}

/// A cursor over a block's characters, with the current character and the
/// next one at hand (`\0` past the end).
struct InlineParser {
    chars: Vec<char>,
    pos: usize,
    cur: char,
    peek: char,
}

impl InlineParser {
    spec fn wf(&self) -> bool {
        &&& self.pos <= self.chars@.len()
        &&& self.cur == at(self.chars@, self.pos as int)
        &&& self.peek == at(self.chars@, self.pos + 1)
    }

    fn char_at(chars: &Vec<char>, i: usize) -> (r: char)
        ensures
            r == at(chars@, i as int),
    {
        if i < chars.len() {
            chars[i]
        } else {
            '\0'
        }
    }

    fn new(text: &str) -> (r: InlineParser)
        ensures
            r.wf(),
            r.chars@ == text@,
            r.pos == 0,
    {
        let chars = chars_of(text);
        let cur = Self::char_at(&chars, 0);
        let peek = Self::char_at(&chars, 1);
        InlineParser { chars, pos: 0, cur, peek }
    }

    fn next(&mut self)
        requires
            old(self).wf(),
        ensures
            final(self).wf(),
            final(self).chars@ == old(self).chars@,
            final(self).pos == advance(old(self).chars@, old(self).pos as int, 1),
    {
        if self.pos < self.chars.len() {
            self.pos = self.pos + 1;
        }
        self.cur = self.peek;
        self.peek = if self.pos < self.chars.len() {
            Self::char_at(&self.chars, self.pos + 1)
        } else {
            '\0'
        };
    }

    fn read_text(&mut self) -> (r: String)
        requires
            old(self).wf(),
        ensures
            final(self).wf(),
            final(self).chars@ == old(self).chars@,
            final(self).pos == old(self).pos + text_run(old(self).chars@, old(self).pos as int),
            r@ == old(self).chars@.subrange(old(self).pos as int, final(self).pos as int),
    {
        let ghost s = self.chars@;
        let ghost start = self.pos as int;
        let mut buf = String::new();
        proof {
            lemma_text_run_bound(s, start);
        }
        while self.pos < self.chars.len() && !(self.cur == '*' || self.cur == '_' || self.cur == '['
            || self.cur == '!' || self.cur == '$')
            invariant
                self.wf(),
                self.chars@ == s,
                start <= self.pos,
                start + text_run(s, start) == self.pos + text_run(s, self.pos as int),
                self.pos + text_run(s, self.pos as int) <= s.len(),
                buf@ == s.subrange(start, self.pos as int),
            decreases s.len() - self.pos,
        {
            push_char(&mut buf, self.cur);
            self.next();
            assert(buf@ =~= s.subrange(start, self.pos as int));
        }
        buf
    }

    fn read_until1(&mut self, end: char) -> (r: String)
        requires
            old(self).wf(),
        ensures
            final(self).wf(),
            final(self).chars@ == old(self).chars@,
            ({
                let s = old(self).chars@;
                let j = old(self).pos + run1(s, old(self).pos as int, end);
                &&& r@ == s.subrange(old(self).pos as int, j)
                &&& final(self).pos == advance(s, j, 1)
            }),
    {
        let ghost s = self.chars@;
        let ghost start = self.pos as int;
        let mut buf = String::new();
        proof {
            lemma_run1_bound(s, start, end);
        }
        while self.pos < self.chars.len() && self.cur != end
            invariant
                self.wf(),
                self.chars@ == s,
                start <= self.pos,
                start + run1(s, start, end) == self.pos + run1(s, self.pos as int, end),
                self.pos + run1(s, self.pos as int, end) <= s.len(),
                buf@ == s.subrange(start, self.pos as int),
            decreases s.len() - self.pos,
        {
            push_char(&mut buf, self.cur);
            self.next();
            assert(buf@ =~= s.subrange(start, self.pos as int));
        }
        self.next();
        buf
    }

    fn read_until2(&mut self, end: char) -> (r: String)
        requires
            old(self).wf(),
        ensures
            final(self).wf(),
            final(self).chars@ == old(self).chars@,
            ({
                let s = old(self).chars@;
                let j = old(self).pos + run2(s, old(self).pos as int, end);
                &&& r@ == s.subrange(old(self).pos as int, j)
                &&& final(self).pos == advance(s, j, 2)
            }),
    {
        let ghost s = self.chars@;
        let ghost start = self.pos as int;
        let mut buf = String::new();
        proof {
            lemma_run2_bound(s, start, end);
        }
        while self.pos < self.chars.len() && !(self.cur == end && self.peek == end)
            invariant
                self.wf(),
                self.chars@ == s,
                start <= self.pos,
                start + run2(s, start, end) == self.pos + run2(s, self.pos as int, end),
                self.pos + run2(s, self.pos as int, end) <= s.len(),
                buf@ == s.subrange(start, self.pos as int),
            decreases s.len() - self.pos,
        {
            push_char(&mut buf, self.cur);
            self.next();
            assert(buf@ =~= s.subrange(start, self.pos as int));
        }
        self.next();
        self.next();
        buf
    }
}

/// The inline nodes of `text`, left to right.
pub fn parse(text: &str) -> (r: Result<Vec<Node>, ParseError>)
    ensures
        r matches Ok(v) ==> inline_nodes(text@) == Ok::<_, ParseError>(node_models(v@)),
        r matches Err(e) ==> inline_nodes(text@) == Err::<Seq<NodeModel>, _>(e),
{
    let mut div: Vec<Node> = Vec::new();
    let mut parser = InlineParser::new(text);
    let ghost s = text@;
    while parser.pos < parser.chars.len()
        invariant
            parser.wf(),
            parser.chars@ == s,
            s == text@,
            match inline_from(s, parser.pos as int) {
                Ok(t) => inline_nodes(s) == Ok::<_, ParseError>(node_models(div@) + t),
                Err(e) => inline_nodes(s) == Err::<Seq<NodeModel>, _>(e),
            },
        decreases s.len() - parser.pos,
    {
        let ghost i = parser.pos as int;
        let ghost before = div@;
        let c = parser.cur;
        assert(i < s.len() && s[i] == c);
        if c == '[' || c == '!' {
            return Err(ParseError::Unsupported(c));
        }
        let node = if c == '_' || c == '*' || c == '$' {
            proof {
                lemma_span_advances(s, i);
            }
            if parser.peek == c {
                parser.next();
                parser.next();
                let inner = parser.read_until2(c);
                if c == '$' {
                    Node::LaTeX(DisplayStyle::Block, inner)
                } else {
                    Node::Strong(inner)
                }
            } else {
                parser.next();
                let inner = parser.read_until1(c);
                if c == '$' {
                    Node::LaTeX(DisplayStyle::Inline, inner)
                } else {
                    Node::Emphasis(inner)
                }
            }
        } else {
            let inner = parser.read_text();
            proof {
                lemma_text_run_bound(s, i + 1);
                assert(text_run(s, i) == 1 + text_run(s, i + 1));
            }
            Node::Text(inner)
        };
        let ghost nm = node_model(node);
        proof {
            let next = inline_from(s, parser.pos as int);
            if is_delimiter(c) {
                assert(span_at(s, i) matches Ok(p) && p.0 == nm && p.1 == parser.pos);
            }
            assert(inline_from(s, i) == match next {
                Err(e) => Err(e),
                Ok(t) => Ok(seq![nm] + t),
            });
        }
        div.push(node);
        proof {
            assert(div@.drop_last() =~= before);
            assert(node_models(div@) =~= node_models(before).push(nm));
            if let Ok(t) = inline_from(s, parser.pos as int) {
                assert(node_models(before) + (seq![nm] + t) =~= node_models(div@) + t);
            }
        }
    }
    assert(inline_from(s, parser.pos as int) == Ok::<_, ParseError>(Seq::<NodeModel>::empty()));
    assert(node_models(div@) + Seq::<NodeModel>::empty() =~= node_models(div@));
    Ok(div)
}

} // verus!
