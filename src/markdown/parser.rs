//! The document parser: the frontmatter header first, then the body cut into
//! blank-line separated blocks, each turned into a node.

use crate::markdown::date::{parse_date, Date};
use crate::markdown::error::ParseError;
use crate::markdown::node::{classify, node_model, node_models, Node, NodeModel};
use crate::text::{
    chars_of, has_prefix, join_chars, join_lines, lines_chars, lines_of, seqs_of, split_chars,
    split_on, starts_with, string_of, strings_of, strs_of, trim, trim_bounds, eq_str,
};
use vstd::prelude::*;

verus! {

/// The index of the first line at or after `k` that opens with `---`.
pub open spec fn closing_from(ls: Seq<Seq<char>>, k: int) -> Option<int>
    decreases ls.len() - k,
{
    if k < 0 || k >= ls.len() {
        None
    } else if has_prefix(ls[k], "---"@) {
        Some(k)
    } else {
        closing_from(ls, k + 1)
    }
}

proof fn lemma_closing_in_range(ls: Seq<Seq<char>>, k: int)
    ensures
        closing_from(ls, k) matches Some(c) ==> k <= c < ls.len(),
    decreases ls.len() - k,
{
    if 0 <= k < ls.len() && !has_prefix(ls[k], "---"@) {
        lemma_closing_in_range(ls, k + 1);
    }
}

/// The header takes up at least its opening line, and no more lines than
/// there are.
proof fn lemma_header_in_range(ls: Seq<Seq<char>>)
    ensures
        header_fields(ls) matches Ok(h) ==> 1 <= h.3 <= ls.len(),
{
    lemma_closing_in_range(ls, 2);
    lemma_closing_in_range(ls, 3);
    lemma_closing_in_range(ls, 4);
}

/// The tags of a header from line `k` on, and the line after them.
pub open spec fn tags_at(ls: Seq<Seq<char>>, k: int) -> (Seq<Seq<char>>, int) {
    if has_prefix(ls[k], "tags: "@) {
        (split_on(trim(ls[k].subrange(6, ls[k].len() as int)), ' '), k + 1)
    } else {
        (Seq::empty(), k)
    }
}

/// The header at the start of `ls`: title, date, tags, and the number of
/// lines it takes up, closing delimiter included. It opens with `---`, then
/// a `title: ` line; an optional `date: ` line and an optional `tags: ` line
/// follow in that order; other lines are skipped up to the closing `---`.
pub open spec fn header_fields(ls: Seq<Seq<char>>) -> Result<
    (Seq<char>, Option<Date>, Seq<Seq<char>>, int),
    ParseError,
> {
    if ls.len() == 0 || ls[0] != "---"@ {
        Err(ParseError::MissingHeader)
    } else if ls.len() < 2 || !has_prefix(ls[1], "title: "@) {
        Err(ParseError::MissingTitle)
    } else if ls.len() < 3 {
        Err(ParseError::UnclosedHeader)
    } else {
        let title = trim(ls[1].subrange(7, ls[1].len() as int));
        let dated = if has_prefix(ls[2], "date: "@) {
            match parse_date(ls[2].subrange(6, ls[2].len() as int)) {
                Ok(d) => Ok((Some(d), 3int)),
                Err(e) => Err(ParseError::InvalidDate(e)),
            }
        } else {
            Ok((None, 2int))
        };
        match dated {
            Err(e) => Err(e),
            Ok((date, k)) => if k >= ls.len() {
                Err(ParseError::UnclosedHeader)
            } else {
                let (tags, k2) = tags_at(ls, k);
                if k2 >= ls.len() {
                    Err(ParseError::UnclosedHeader)
                } else {
                    match closing_from(ls, k2) {
                        None => Err(ParseError::UnclosedHeader),
                        Some(c) => Ok((title, date, tags, c + 1)),
                    }
                }
            },
        }
    }
}

/// The blocks finished so far and the lines of the block being gathered.
pub open spec fn grouping(ls: Seq<Seq<char>>) -> (Seq<Seq<char>>, Seq<Seq<char>>)
    decreases ls.len(),
{
    if ls.len() == 0 {
        (Seq::empty(), Seq::empty())
    } else {
        let (done, group) = grouping(ls.drop_last());
        if ls.last().len() == 0 {
            (if group.len() > 0 { done.push(join_lines(group)) } else { done }, Seq::empty())
        } else {
            (done, group.push(ls.last()))
        }
    }
}

/// The blocks of the lines `ls`: runs of non-empty lines joined with `\n`,
/// cut at empty lines, with no empty block.
pub open spec fn blocks_of(ls: Seq<Seq<char>>) -> Seq<Seq<char>> {
    let (done, group) = grouping(ls);
    if group.len() > 0 {
        done.push(join_lines(group))
    } else {
        done
    }
}

proof fn lemma_join_nonempty(g: Seq<Seq<char>>)
    requires
        g.len() > 0,
        forall|j: int| 0 <= j < g.len() ==> (#[trigger] g[j]).len() > 0,
    ensures
        join_lines(g).len() > 0,
{
    if g.len() == 1 {
        assert(g[0].len() > 0);
    }
}

proof fn lemma_grouping_nonempty(ls: Seq<Seq<char>>)
    ensures
        forall|i: int| 0 <= i < grouping(ls).0.len() ==> (#[trigger] grouping(ls).0[i]).len() > 0,
        forall|j: int| 0 <= j < grouping(ls).1.len() ==> (#[trigger] grouping(ls).1[j]).len() > 0,
    decreases ls.len(),
{
    if ls.len() > 0 {
        lemma_grouping_nonempty(ls.drop_last());
        let (done, group) = grouping(ls.drop_last());
        if ls.last().len() == 0 && group.len() > 0 {
            lemma_join_nonempty(group);
            assert forall|i: int| 0 <= i < done.len() + 1 implies (#[trigger] done.push(join_lines(group))[i]).len() > 0 by {
                if i < done.len() {
                    assert(done.push(join_lines(group))[i] == done[i]);
                }
            }
        }
        if ls.last().len() > 0 {
            assert forall|j: int| 0 <= j < group.len() + 1 implies (#[trigger] group.push(ls.last())[j]).len() > 0 by {
                if j < group.len() {
                    assert(group.push(ls.last())[j] == group[j]);
                }
            }
        }
    }
}

/// Blank lines never make a block: however many of them stand together, at
/// the start or at the end, every block holds at least one character.
pub proof fn lemma_blocks_nonempty(ls: Seq<Seq<char>>)
    ensures
        forall|i: int| 0 <= i < blocks_of(ls).len() ==> (#[trigger] blocks_of(ls)[i]).len() > 0,
{
    lemma_grouping_nonempty(ls);
    let (done, group) = grouping(ls);
    if group.len() > 0 {
        lemma_join_nonempty(group);
        assert forall|i: int| 0 <= i < done.len() + 1 implies (#[trigger] done.push(join_lines(group))[i]).len() > 0 by {
            if i < done.len() {
                assert(done.push(join_lines(group))[i] == done[i]);
            }
        }
    }
}

/// Grouping reads the lines left to right: two line sequences that leave it
/// in the same state still do after the same further lines.
proof fn lemma_grouping_continues(x: Seq<Seq<char>>, y: Seq<Seq<char>>, b: Seq<Seq<char>>)
    requires
        grouping(x) == grouping(y),
    ensures
        grouping(x + b) == grouping(y + b),
    decreases b.len(),
{
    if b.len() == 0 {
        assert(x + b =~= x);
        assert(y + b =~= y);
    } else {
        lemma_grouping_continues(x, y, b.drop_last());
        assert((x + b).drop_last() =~= x + b.drop_last());
        assert((y + b).drop_last() =~= y + b.drop_last());
        assert((x + b).last() == b.last());
        assert((y + b).last() == b.last());
    }
}

/// Runs of empty lines only separate blocks: a second empty line beside
/// one, an empty line at the start, and an empty line at the end leave the
/// blocks as they are. Any run of empty lines can be made any other
/// non-empty run, and any number of them added at either end, by these steps.
pub proof fn lemma_blank_runs(a: Seq<Seq<char>>, b: Seq<Seq<char>>)
    ensures
        blocks_of(a + seq![Seq::<char>::empty(), Seq::<char>::empty()] + b) == blocks_of(
            a + seq![Seq::<char>::empty()] + b,
        ),
        blocks_of(seq![Seq::<char>::empty()] + b) == blocks_of(b),
        blocks_of(a + seq![Seq::<char>::empty()]) == blocks_of(a),
{
    let e = Seq::<char>::empty();
    let one = a + seq![e];
    let two = a + seq![e, e];
    assert(two.drop_last() =~= one);
    assert(one.drop_last() =~= a);
    lemma_grouping_continues(two, one, b);
    assert(a + seq![e, e] + b =~= two + b);
    assert(a + seq![e] + b =~= one + b);
    let s = seq![e];
    assert(s.drop_last() =~= Seq::<Seq<char>>::empty());
    assert(grouping(s) == grouping(Seq::<Seq<char>>::empty()));
    lemma_grouping_continues(s, Seq::<Seq<char>>::empty(), b);
    assert(Seq::<Seq<char>>::empty() + b =~= b);
}

/// The tags of a header keep their order: the `tags: ` line, trimmed and
/// split at single spaces, whether a date line stands before it or not; and
/// a header without one has no tags.
pub proof fn lemma_tags_in_order(ls: Seq<Seq<char>>, k: int)
    requires
        ls.len() > k,
        ls[0] == "---"@,
        has_prefix(ls[1], "title: "@),
        k == 2 || (k == 3 && has_prefix(ls[2], "date: "@) && parse_date(
            ls[2].subrange(6, ls[2].len() as int),
        ) is Ok),
        closing_from(ls, k + 1) is Some || (!has_prefix(ls[k], "tags: "@) && closing_from(ls, k) is Some),
    ensures
        has_prefix(ls[k], "tags: "@) ==> (header_fields(ls) matches Ok(h) && h.2 == split_on(
            trim(ls[k].subrange(6, ls[k].len() as int)),
            ' ',
        )),
        !has_prefix(ls[k], "tags: "@) && (k == 3 || !has_prefix(ls[2], "date: "@)) ==> (
        header_fields(ls) matches Ok(h) && h.2.len() == 0),
{
    reveal_strlit("tags: ");
    reveal_strlit("date: ");
    if k == 2 && has_prefix(ls[2], "tags: "@) {
        assert(ls[2].subrange(0, 6)[0] == 't');
        assert(!has_prefix(ls[2], "date: "@));
    }
    lemma_closing_in_range(ls, k + 1);
    lemma_closing_in_range(ls, k);
}

/// The nodes of the blocks, in order, or the first block's error.
pub open spec fn classify_all(bs: Seq<Seq<char>>) -> Result<Seq<NodeModel>, ParseError>
    decreases bs.len(),
{
    if bs.len() == 0 {
        Ok(Seq::empty())
    } else {
        match classify_all(bs.drop_last()) {
            Err(e) => Err(e),
            Ok(v) => match classify(bs.last()) {
                Err(e) => Err(e),
                Ok(n) => Ok(v.push(n)),
            },
        }
    }
}

/// Every block becomes exactly one node, in order, and no block is dropped:
/// when all blocks classify, the nodes are those of the blocks one by one.
pub proof fn lemma_one_node_per_block(bs: Seq<Seq<char>>)
    ensures
        classify_all(bs) matches Ok(v) ==> v.len() == bs.len() && forall|i: int|
            0 <= i < bs.len() ==> classify(#[trigger] bs[i]) == Ok::<_, ParseError>(v[i]),
        (forall|i: int| 0 <= i < bs.len() ==> (#[trigger] classify(bs[i])) is Ok) ==> classify_all(
            bs,
        ) is Ok,
    decreases bs.len(),
{
    if bs.len() > 0 {
        let u = bs.drop_last();
        lemma_one_node_per_block(u);
        assert forall|i: int| 0 <= i < u.len() implies #[trigger] u[i] == bs[i] by {}
        if let Ok(v) = classify_all(bs) {
            let w = classify_all(u)->Ok_0;
            assert(v == w.push(classify(bs.last())->Ok_0));
            assert forall|i: int| 0 <= i < bs.len() implies classify(#[trigger] bs[i]) == Ok::<_, ParseError>(v[i]) by {
                if i < u.len() {
                    assert(u[i] == bs[i]);
                }
            }
        }
        if forall|i: int| 0 <= i < bs.len() ==> (#[trigger] classify(bs[i])) is Ok {
            assert forall|i: int| 0 <= i < u.len() implies (#[trigger] classify(u[i])) is Ok by {
                assert(classify(bs[i]) is Ok);
            }
            assert(classify(bs[bs.len() - 1]) is Ok);
        }
    }
}

/// What `Parser::parse` gives for the lines `ls`: the header's fields, and
/// one node per block of the lines after it.
pub open spec fn document(ls: Seq<Seq<char>>) -> Result<
    (Seq<char>, Option<Date>, Seq<Seq<char>>, Seq<NodeModel>),
    ParseError,
> {
    match header_fields(ls) {
        Err(e) => Err(e),
        Ok(h) => match classify_all(blocks_of(ls.subrange(h.3, ls.len() as int))) {
            Err(e) => Err(e),
            Ok(v) => Ok((h.0, h.1, h.2, v)),
        },
    }
}

/// An error in the first `i` blocks is the error of all of them.
proof fn lemma_error_stays(bs: Seq<Seq<char>>, i: int)
    requires
        0 <= i <= bs.len(),
        classify_all(bs.subrange(0, i)) is Err,
    ensures
        classify_all(bs) == classify_all(bs.subrange(0, i)),
    decreases bs.len() - i,
{
    if i < bs.len() {
        assert(bs.subrange(0, i + 1).drop_last() =~= bs.subrange(0, i));
        lemma_error_stays(bs, i + 1);
    } else {
        assert(bs.subrange(0, i) =~= bs);
    }
}

/// A document's lines, and how many of them have been read.
#[derive(Debug, Clone)]
pub struct Parser {
    lines: Vec<Vec<char>>,
    pos: usize,
}

impl Parser {
    /// The lines of the document.
    pub closed spec fn lines(&self) -> Seq<Seq<char>> {
        seqs_of(self.lines@)
    }

    /// How many lines have been read.
    pub closed spec fn position(&self) -> int {
        self.pos as int
    }

    /// The lines not read yet.
    pub open spec fn rest(&self) -> Seq<Seq<char>> {
        self.lines().subrange(self.position(), self.lines().len() as int)
    }

    pub closed spec fn wf(&self) -> bool {
        self.pos <= self.lines@.len()
    }

    /// A parser at the start of `input`.
    pub fn new(input: &str) -> (r: Parser)
        ensures
            r.wf(),
            r.lines() == lines_of(input@),
            r.position() == 0,
    {
        let v = chars_of(input);
        Parser { lines: lines_chars(&v), pos: 0 }
    }

    /// Reads the frontmatter header: the opening `---`, the `title: ` line,
    /// an optional `date: ` line, an optional `tags: ` line, and any other
    /// lines up to the closing `---`, which is read too.
    pub fn parse_header(&mut self) -> (r: Result<(String, Option<Date>, Vec<String>), ParseError>)
        requires
            old(self).wf(),
        ensures
            final(self).wf(),
            final(self).lines() == old(self).lines(),
            r matches Ok(h) ==> (header_fields(old(self).rest()) matches Ok(f) && h.0@ == f.0
                && h.1 == f.1 && strs_of(h.2@) == f.2 && final(self).position()
                == old(self).position() + f.3),
            r matches Err(e) ==> header_fields(old(self).rest()) == Err::<
                (Seq<char>, Option<Date>, Seq<Seq<char>>, int),
                _,
            >(e),
    {
        let ghost ls = self.rest();
        let ghost all = self.lines();
        let p = self.pos;
        let n = self.lines.len();
        proof {
            reveal_strlit("title: ");
            reveal_strlit("date: ");
            reveal_strlit("tags: ");
            assert forall|j: int| 0 <= j < ls.len() implies #[trigger] ls[j] == self.lines@[p + j]@ by {}
        }
        if p >= n || !eq_str(self.lines[p].as_slice(), "---") {
            return Err(ParseError::MissingHeader);
        }
        if p + 1 >= n || !starts_with(self.lines[p + 1].as_slice(), "title: ") {
            return Err(ParseError::MissingTitle);
        }
        if p + 2 >= n {
            return Err(ParseError::UnclosedHeader);
        }
        let tl: &Vec<char> = &self.lines[p + 1];
        let (a, b) = trim_bounds(tl.as_slice(), 7);
        let title = string_of(tl.as_slice(), a, b);
        let mut k: usize = p + 2;
        let date = if starts_with(self.lines[k].as_slice(), "date: ") {
            let dl: &Vec<char> = &self.lines[k];
            let ds = string_of(dl.as_slice(), 6, dl.len());
            match Date::parse(ds.as_str()) {
                Ok(d) => {
                    k = k + 1;
                    Some(d)
                },
                Err(e) => return Err(ParseError::InvalidDate(e)),
            }
        } else {
            None
        };
        if k >= n {
            return Err(ParseError::UnclosedHeader);
        }
        let ghost k1 = k - p;
        let tags = if starts_with(self.lines[k].as_slice(), "tags: ") {
            let gl: &Vec<char> = &self.lines[k];
            let (a, b) = trim_bounds(gl.as_slice(), 6);
            let gs = gl.as_slice();
            let parts = split_chars(&gs[a..b], ' ');
            k = k + 1;
            strings_of(&parts)
        } else {
            Vec::new()
        };
        assert(tags_at(ls, k1).1 == k - p);
        assert(strs_of(tags@) == tags_at(ls, k1).0);
        if k >= n {
            return Err(ParseError::UnclosedHeader);
        }
        let ghost k2 = k - p;
        while k < n && !starts_with(self.lines[k].as_slice(), "---")
            invariant
                0 <= k2,
                p + k2 <= k <= n,
                n == self.lines@.len(),
                ls == seqs_of(self.lines@).subrange(p as int, n as int),
                ls.len() == n - p,
                forall|j: int| 0 <= j < ls.len() ==> #[trigger] ls[j] == self.lines@[p + j]@,
                closing_from(ls, k2) == closing_from(ls, k - p),
            decreases n - k,
        {
            assert(seqs_of(self.lines@).len() == self.lines@.len());
            assert(ls[k - p] == self.lines@[k as int]@);
            k = k + 1;
        }
        if k >= n {
            return Err(ParseError::UnclosedHeader);
        }
        assert(ls[k - p] == self.lines@[k as int]@);
        self.pos = k + 1;
        Ok((title, date, tags))
    }

    /// Reads the rest of the lines as blocks: runs of non-empty lines joined
    /// with `\n`, cut at empty lines, with no empty block.
    pub fn divide_into_blocks(&mut self) -> (r: Result<Vec<String>, ParseError>)
        requires
            old(self).wf(),
        ensures
            final(self).wf(),
            final(self).lines() == old(self).lines(),
            final(self).position() == final(self).lines().len(),
            r matches Ok(b) && strs_of(b@) == blocks_of(old(self).rest()),
    {
        let ghost ls = self.rest();
        let ghost start = self.pos as int;
        let mut document: Vec<String> = Vec::new();
        let mut div: Vec<Vec<char>> = Vec::new();
        assert(ls.subrange(0, 0) =~= Seq::<Seq<char>>::empty());
        while self.pos < self.lines.len()
            invariant
                0 <= start <= self.pos <= self.lines@.len(),
                self.lines@ == old(self).lines@,
                ls == seqs_of(self.lines@).subrange(start, self.lines@.len() as int),
                ls.len() == self.lines@.len() - start,
                grouping(ls.subrange(0, self.pos - start)) == (strs_of(document@), seqs_of(div@)),
            decreases self.lines.len() - self.pos,
        {
            let ghost prev = ls.subrange(0, self.pos - start);
            let ghost now = ls.subrange(0, self.pos - start + 1);
            let line: &Vec<char> = &self.lines[self.pos];
            assert(seqs_of(self.lines@).len() == self.lines@.len());
            assert(ls[self.pos - start] == seqs_of(self.lines@)[self.pos as int]);
            assert(now.drop_last() =~= prev);
            assert(now.last() == line@);
            if line.len() > 0 {
                let ghost old_div = div@;
                div.push(line.clone());
                assert(seqs_of(div@) =~= seqs_of(old_div).push(line@));
            } else {
                if div.len() > 0 {
                    let ghost old_doc = document@;
                    let block = join_chars(&div);
                    document.push(block);
                    assert(strs_of(document@) =~= strs_of(old_doc).push(block@));
                }
                div = Vec::new();
                assert(seqs_of(div@) =~= Seq::<Seq<char>>::empty());
            }
            self.pos = self.pos + 1;
        }
        assert(ls.subrange(0, self.pos - start) =~= ls);
        if div.len() > 0 {
            let ghost old_doc = document@;
            let block = join_chars(&div);
            document.push(block);
            assert(strs_of(document@) =~= strs_of(old_doc).push(block@));
        }
        Ok(document)
    }

    /// Parses the document from here: the header's title, date and tags, and
    /// one node per block of the body, in order.
    pub fn parse(&mut self) -> (r: Result<(String, Option<Date>, Vec<String>, Vec<Node>), ParseError>)
        requires
            old(self).wf(),
        ensures
            final(self).wf(),
            final(self).lines() == old(self).lines(),
            r matches Ok(d) ==> (document(old(self).rest()) matches Ok(m) && d.0@ == m.0
                && d.1 == m.1 && strs_of(d.2@) == m.2 && node_models(d.3@) == m.3),
            r matches Err(e) ==> document(old(self).rest()) == Err::<
                (Seq<char>, Option<Date>, Seq<Seq<char>>, Seq<NodeModel>),
                _,
            >(e),
    {
        let ghost ls = self.rest();
        let (title, date, tags) = match self.parse_header() {
            Ok(h) => h,
            Err(e) => return Err(e),
        };
        proof {
            lemma_header_in_range(ls);
            let h = header_fields(ls)->Ok_0;
            assert(self.rest() =~= ls.subrange(h.3, ls.len() as int));
        }
        let ghost body = self.rest();
        let blocks = match self.divide_into_blocks() {
            Ok(b) => b,
            Err(e) => return Err(e),
        };
        let ghost bs = strs_of(blocks@);
        let mut nodes: Vec<Node> = Vec::new();
        let mut i: usize = 0;
        assert(bs.subrange(0, 0) =~= Seq::<Seq<char>>::empty());
        assert(node_models(nodes@) =~= Seq::<NodeModel>::empty());
        while i < blocks.len()
            invariant
                self.wf(),
                self.lines() == old(self).lines(),
                ls == old(self).rest(),
                bs == blocks_of(body),
                header_fields(ls) matches Ok(h) && body == ls.subrange(h.3, ls.len() as int),
                i <= blocks@.len(),
                bs == strs_of(blocks@),
                classify_all(bs.subrange(0, i as int)) == Ok::<_, ParseError>(node_models(nodes@)),
            decreases blocks.len() - i,
        {
            let ghost prev = bs.subrange(0, i as int);
            let ghost now = bs.subrange(0, i + 1);
            assert(now.drop_last() =~= prev);
            assert(now.last() == blocks@[i as int]@);
            let ghost before = nodes@;
            match Node::parse(blocks[i].clone()) {
                Ok(n) => {
                    let ghost nm = node_model(n);
                    nodes.push(n);
                    assert(nodes@.drop_last() =~= before);
                    assert(node_models(nodes@) =~= node_models(before).push(nm));
                },
                Err(e) => {
                    proof {
                        assert(classify(now.last()) == Err::<NodeModel, _>(e));
                        assert(classify_all(now) == Err::<Seq<NodeModel>, _>(e));
                        lemma_error_stays(bs, i + 1);
                        assert(classify_all(bs) == Err::<Seq<NodeModel>, _>(e));
                    }
                    return Err(e);
                },
            }
            i += 1;
        }
        assert(bs.subrange(0, i as int) =~= bs);
        Ok((title, date, tags, nodes))
    }

    /// The next line, if any is left.
    pub fn next_line(&mut self) -> (r: Option<String>)
        requires
            old(self).wf(),
        ensures
            final(self).wf(),
            final(self).lines() == old(self).lines(),
            old(self).rest().len() == 0 ==> r is None && final(self).position() == old(self).position(),
            old(self).rest().len() > 0 ==> (r matches Some(l) && l@ == old(self).rest()[0]
                && final(self).position() == old(self).position() + 1),
    {
        if self.pos < self.lines.len() {
            let l: &Vec<char> = &self.lines[self.pos];
            let s = string_of(l.as_slice(), 0, l.len());
            proof {
                assert(l@.subrange(0, l@.len() as int) =~= l@);
                assert(self.rest()[0] == self.lines()[self.pos as int]);
            }
            self.pos = self.pos + 1;
            Some(s)
        } else {
            None
        }
    }
}

} // verus!
