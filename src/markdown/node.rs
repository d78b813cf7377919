//! The document tree: one node per block, inline spans inside.

pub mod codeblock;
pub mod inline;

use crate::markdown::error::ParseError;
use crate::markdown::node::codeblock::{code_block, Language};
use crate::markdown::node::inline::inline_nodes;
use crate::text::{chars_of, contains_str, has_infix, has_prefix, opt_view, push_char, push_str};
use vstd::prelude::*;

verus! {

/// How a formula is set: apart on its own line, or within the text.
#[derive(Debug, Clone, Copy, PartialEq, Eq, Structural)]
pub enum DisplayStyle {
    Block,
    Inline,
}

/// A node of a document. Text is carried as written, without HTML escaping.
#[derive(Debug, PartialEq)]
pub enum Node {
    Text(String),
    Emphasis(String),
    Strong(String),
    /// TeX source and how it is set.
    LaTeX(DisplayStyle, String),
    /// A fenced code block: its language, its file name if one was given, and
    /// its content, which is highlighted HTML where the language is known and
    /// the raw text otherwise.
    CodeBlock(Language, Option<String>, String),
    /// The inline spans of one block, in order.
    Div(Vec<Node>),
}

/// The mathematical value of a node.
pub enum NodeModel {
    Text(Seq<char>),
    Emphasis(Seq<char>),
    Strong(Seq<char>),
    LaTeX(DisplayStyle, Seq<char>),
    CodeBlock(Language, Option<Seq<char>>, Seq<char>),
    Div(Seq<NodeModel>),
}

pub open spec fn node_model(n: Node) -> NodeModel
    decreases n,
{
    match n {
        Node::Text(t) => NodeModel::Text(t@),
        Node::Emphasis(t) => NodeModel::Emphasis(t@),
        Node::Strong(t) => NodeModel::Strong(t@),
        Node::LaTeX(st, t) => NodeModel::LaTeX(st, t@),
        Node::CodeBlock(l, f, c) => NodeModel::CodeBlock(l, opt_view(f), c@),
        Node::Div(v) => NodeModel::Div(node_models(v@)),
    }
}

pub open spec fn node_models(s: Seq<Node>) -> Seq<NodeModel>
    decreases s,
{
    if s.len() == 0 {
        Seq::empty()
    } else {
        node_models(s.drop_last()).push(node_model(s.last()))
    }
}

impl Clone for Node {
    fn clone(&self) -> (r: Node)
        ensures
            r@ == self@,
        decreases self,
    {
        match self {
            Node::Text(t) => Node::Text(t.clone()),
            Node::Emphasis(t) => Node::Emphasis(t.clone()),
            Node::Strong(t) => Node::Strong(t.clone()),
            Node::LaTeX(st, t) => Node::LaTeX(*st, t.clone()),
            Node::CodeBlock(l, f, c) => Node::CodeBlock(*l, f.clone(), c.clone()),
            Node::Div(v) => {
                let mut out: Vec<Node> = Vec::new();
                let mut i: usize = 0;
                while i < v.len()
                    invariant
                        *self == Node::Div(*v),
                        i <= v@.len(),
                        node_models(out@) == node_models(v@.subrange(0, i as int)),
                    decreases v.len() - i,
                {
                    proof {
                        assert(decreases_to!(*self => (*self)->Div_0));
                        assert(decreases_to!(*v => v@));
                        assert(decreases_to!(v@ => v@[i as int]));
                    }
                    let n = v[i].clone();
                    let ghost before = out@;
                    let ghost nm = node_model(n);
                    out.push(n);
                    i += 1;
                    let ghost now = v@.subrange(0, i as int);
                    assert(out@.drop_last() =~= before);
                    assert(now.drop_last() =~= v@.subrange(0, i - 1));
                    assert(node_models(out@) =~= node_models(now));
                }
                assert(v@.subrange(0, i as int) =~= v@);
                Node::Div(out)
            },
        }
    }
}

impl View for Node {
    type V = NodeModel;

    open spec fn view(&self) -> NodeModel {
        node_model(*self)
    }
}

/// What `Node::parse` makes of one block: a block shorter than three
/// characters is text; one that opens with a fence is a code block; any other
/// is the sequence of its inline spans.
pub open spec fn classify(t: Seq<char>) -> Result<NodeModel, ParseError> {
    if t.len() < 3 {
        Ok(NodeModel::Div(seq![NodeModel::Text(t)]))
    } else if has_prefix(t, "```"@) {
        match code_block(t) {
            Ok(p) => Ok(NodeModel::CodeBlock(p.0, p.1, p.2)),
            Err(e) => Err(e),
        }
    } else {
        match inline_nodes(t) {
            Ok(v) => Ok(NodeModel::Div(v)),
            Err(e) => Err(e),
        }
    }
}

/// No non-empty block is lost: where it becomes a sequence of spans, that
/// sequence holds at least one node.
pub proof fn lemma_nonempty_block_has_node(t: Seq<char>)
    requires
        t.len() > 0,
    ensures
        classify(t) matches Ok(NodeModel::Div(v)) ==> v.len() > 0,
{
}

/// The MathML that latex2mathml makes of TeX source `src` set as `style`,
/// or `None` where it cannot convert it.
pub uninterp spec fn mathml(src: Seq<char>, style: DisplayStyle) -> Option<Seq<char>>;

/// Whether latex2mathml can be handed the TeX source `src`: its parser stops
/// the process on some sources that use `\middle`, so none that contains that
/// command is handed to it.
pub open spec fn convertible(src: Seq<char>) -> bool {
    !has_infix(src, "\\middle"@)
}

/// Relies on `latex2mathml::latex_to_mathml`: the markup depends on the source
/// and the style alone; its error is dropped.
#[verifier::external_body]
fn latex_to_mathml(src: &str, style: DisplayStyle) -> (r: Option<String>)
    requires
        convertible(src@),
    ensures
        r matches Some(m) ==> mathml(src@, style) == Some(m@),
        r is None ==> mathml(src@, style) is None,
{
    let style = match style {
        DisplayStyle::Block => latex2mathml::DisplayStyle::Block,
        DisplayStyle::Inline => latex2mathml::DisplayStyle::Inline,
    };
    latex2mathml::latex_to_mathml(src, style).ok()
}

/// The HTML of a formula: its MathML where there is some, else the source
/// between `$` signs. A source that cannot be handed to the converter is
/// written the second way.
pub open spec fn math_html(src: Seq<char>, markup: Option<Seq<char>>) -> Seq<char> {
    match markup {
        Some(m) => m,
        None => seq!['$'] + src + seq!['$'],
    }
}

/// The HTML of a node. Text is not escaped.
pub open spec fn node_html(n: NodeModel) -> Seq<char>
    decreases n,
{
    match n {
        NodeModel::Text(t) => t,
        NodeModel::Emphasis(t) => "<em>"@ + t + "</em>"@,
        NodeModel::Strong(t) => "<strong>"@ + t + "</strong>"@,
        NodeModel::LaTeX(st, t) => if convertible(t) {
            math_html(t, mathml(t, st))
        } else {
            math_html(t, None)
        },
        NodeModel::CodeBlock(_, f, c) => "<div class=\"code-frame\">"@ + match f {
            Some(f) => "<div class=\"filename\">"@ + f + "</div>"@,
            None => Seq::empty(),
        } + "<pre>"@ + c + "</pre></div>"@,
        NodeModel::Div(v) => "<div class=>"@ + nodes_html(v) + "</div>"@,
    }
}

/// The HTML of the nodes, one after another.
pub open spec fn nodes_html(v: Seq<NodeModel>) -> Seq<char>
    decreases v,
{
    if v.len() == 0 {
        Seq::empty()
    } else {
        nodes_html(v.drop_last()) + node_html(v.last())
    }
}

/// The HTML of a formula from its source and the MathML made of it, if any.
pub fn latex_html(src: &str, markup: Option<String>) -> (r: String)
    ensures
        r@ == math_html(src@, opt_view(markup)),
{
    match markup {
        Some(m) => m,
        None => {
            let mut out = String::new();
            push_char(&mut out, '$');
            push_str(&mut out, src);
            push_char(&mut out, '$');
            assert(out@ =~= math_html(src@, None));
            out
        },
    }
}

impl Node {
    /// Turns one block into a node: a block shorter than three characters is
    /// text; one that opens with a fence is a code block; any other is the
    /// sequence of its inline spans.
    pub fn parse(text: String) -> (r: Result<Node, ParseError>)
        ensures
            r matches Ok(n) ==> classify(text@) == Ok::<_, ParseError>(n@),
            r matches Err(e) ==> classify(text@) == Err::<NodeModel, _>(e),
    {
        let v = chars_of(text.as_str());
        if v.len() < 3 {
            let ghost t = text@;
            let mut nodes: Vec<Node> = Vec::new();
            nodes.push(Node::Text(text));
            proof {
                assert(nodes@.drop_last() =~= Seq::<Node>::empty());
                assert(node_models(Seq::<Node>::empty()) == Seq::<NodeModel>::empty());
                assert(nodes@.len() == 1);
                assert(node_model(nodes@[0]) == NodeModel::Text(t));
                assert(node_models(nodes@) =~= seq![NodeModel::Text(t)]);
            }
            Ok(Node::Div(nodes))
        } else if v[0] == '`' && v[1] == '`' && v[2] == '`' {
            proof {
                reveal_strlit("```");
                assert(text@.subrange(0, 3) =~= "```"@);
            }
            match codeblock::parse(text) {
                Ok(p) => {
                    let (l, f, c) = p;
                    Ok(Node::CodeBlock(l, f, c))
                },
                Err(e) => Err(e),
            }
        } else {
            proof {
                reveal_strlit("```");
                if has_prefix(text@, "```"@) {
                    assert(text@[0] == text@.subrange(0, 3)[0]);
                    assert(text@[1] == text@.subrange(0, 3)[1]);
                    assert(text@[2] == text@.subrange(0, 3)[2]);
                }
            }
            match inline::parse(text.as_str()) {
                Ok(nodes) => Ok(Node::Div(nodes)),
                Err(e) => Err(e),
            }
        }
    }

    /// The HTML of the node. Text is not escaped; a code block's content is
    /// written as it stands.
    pub fn to_html(&self) -> (r: String)
        ensures
            r@ == node_html(self@),
        decreases self,
    {
        match self {
            Node::Text(t) => t.clone(),
            Node::Emphasis(t) => {
                let mut out = String::new();
                push_str(&mut out, "<em>");
                push_str(&mut out, t.as_str());
                push_str(&mut out, "</em>");
                out
            },
            Node::Strong(t) => {
                let mut out = String::new();
                push_str(&mut out, "<strong>");
                push_str(&mut out, t.as_str());
                push_str(&mut out, "</strong>");
                out
            },
            Node::LaTeX(st, t) => {
                let v = chars_of(t.as_str());
                if contains_str(v.as_slice(), "\\middle") {
                    latex_html(t.as_str(), None)
                } else {
                    latex_html(t.as_str(), latex_to_mathml(t.as_str(), *st))
                }
            },
            Node::CodeBlock(_, f, c) => {
                let mut out = String::new();
                push_str(&mut out, "<div class=\"code-frame\">");
                match f {
                    Some(f) => {
                        push_str(&mut out, "<div class=\"filename\">");
                        push_str(&mut out, f.as_str());
                        push_str(&mut out, "</div>");
                    },
                    None => {},
                }
                push_str(&mut out, "<pre>");
                push_str(&mut out, c.as_str());
                push_str(&mut out, "</pre></div>");
                out
            },
            Node::Div(v) => {
                let mut out = String::new();
                push_str(&mut out, "<div class=>");
                let ghost start = out@;
                let mut i: usize = 0;
                while i < v.len()
                    invariant
                        *self == Node::Div(*v),
                        i <= v@.len(),
                        out@ == start + nodes_html(node_models(v@.subrange(0, i as int))),
                    decreases v.len() - i,
                {
                    let ghost prev = v@.subrange(0, i as int);
                    proof {
                        assert(decreases_to!(*self => (*self)->Div_0));
                        assert(decreases_to!(*v => v@));
                        assert(decreases_to!(v@ => v@[i as int]));
                        assert(decreases_to!(*self => v@[i as int]));
                    }
                    let h = v[i].to_html();
                    push_str(&mut out, h.as_str());
                    i += 1;
                    let ghost now = v@.subrange(0, i as int);
                    assert(now.drop_last() =~= prev);
                    assert(node_models(now).drop_last() =~= node_models(prev));
                    assert(out@ =~= start + nodes_html(node_models(now)));
                }
                assert(v@.subrange(0, i as int) =~= v@);
                push_str(&mut out, "</div>");
                out
            },
        }
    }
}

} // verus!
