//! Serialises a document tree back to Markdown text.

use vstd::prelude::*;
use crate::mst::{items_of, items_upto, LineItem, MSTNode, NodeType};
use crate::numbering::{children_same_upto, same_but_numbering};
use crate::parser::{build_items, expected_item, heading_level};
use crate::text::{chars_of, lines, lines_from, push_all, string_of, strip_cr};
use crate::title::normalize;

verus! {

/// `n` hash characters.
pub open spec fn hashes(n: int) -> Seq<char> {
    Seq::new(n as nat, |i: int| '#')
}

/// The line of a heading: its hashes, one space, the label when asked for and
/// present, then the clean title.
pub open spec fn header_text(n: MSTNode, level: int, with_numbering: bool) -> Seq<char> {
    let title = if n.title is Some {
        n.title->0@
    } else {
        seq![]
    };
    let label = if with_numbering && n.numbering is Some {
        n.numbering->0.formatted@
    } else {
        seq![]
    };
    hashes(level) + seq![' '] + label + title
}

/// The line a node itself stands for; the root stands for none.
pub open spec fn own_lines(n: MSTNode, with_numbering: bool) -> Seq<Seq<char>> {
    match n.node_type {
        NodeType::Root => seq![],
        NodeType::Header(level) => seq![header_text(n, level as int, with_numbering)],
        NodeType::Content(c) => seq![c@],
        NodeType::Image(_) => seq![n.raw_line@],
    }
}

/// The lines of the tree rooted at `n`, in pre-order.
pub open spec fn lines_of(n: MSTNode, with_numbering: bool) -> Seq<Seq<char>>
    decreases n, n.children@.len() + 1,
{
    own_lines(n, with_numbering) + lines_upto(n, n.children@.len() as int, with_numbering)
}

/// The lines of the subtrees of the first `k` children of `n`.
pub open spec fn lines_upto(n: MSTNode, k: int, with_numbering: bool) -> Seq<Seq<char>>
    decreases n, k,
{
    if k <= 0 || k > n.children@.len() {
        seq![]
    } else {
        lines_upto(n, k - 1, with_numbering) + lines_of(n.children@[k - 1], with_numbering)
    }
}

/// Lines joined by single newlines, with none after the last.
pub open spec fn join_lines(ls: Seq<Seq<char>>) -> Seq<char>
    decreases ls.len(),
{
    if ls.len() == 0 {
        seq![]
    } else if ls.len() == 1 {
        ls[0]
    } else {
        join_lines(ls.drop_last()) + seq!['\n'] + ls.last()
    }
}

/// The text of a tree: its lines joined by newlines.
pub open spec fn render_spec(n: MSTNode, with_numbering: bool) -> Seq<char> {
    join_lines(lines_of(n, with_numbering))
}

proof fn lemma_lines_same(a: MSTNode, b: MSTNode)
    requires
        same_but_numbering(a, b),
    ensures
        lines_of(a, false) == lines_of(b, false),
    decreases a, a.children@.len() + 1,
{
    lemma_lines_upto_same(a, b, a.children@.len() as int);
}

proof fn lemma_lines_upto_same(a: MSTNode, b: MSTNode, k: int)
    requires
        0 <= k <= a.children@.len(),
        a.children@.len() == b.children@.len(),
        children_same_upto(a, b, k),
    ensures
        lines_upto(a, k, false) == lines_upto(b, k, false),
    decreases a, k,
{
    if k > 0 {
        lemma_lines_upto_same(a, b, k - 1);
        lemma_lines_same(a.children@[k - 1], b.children@[k - 1]);
    }
}

/// Stripping after numbering gives the unnumbered text back: two trees that
/// differ only in their numbering render the same without it.
pub proof fn lemma_numbering_then_stripping(a: MSTNode, b: MSTNode)
    requires
        same_but_numbering(a, b),
    ensures
        render_spec(b, false) == render_spec(a, false),
{
    lemma_lines_same(a, b);
}

/// The line a record stands for when rendered without numbering.
pub open spec fn item_line(it: LineItem) -> Seq<char> {
    match it {
        LineItem::Heading { level, title, .. } => hashes(level) + seq![' '] + match title {
            Some(t) => t,
            None => seq![],
        },
        LineItem::Text { text, .. } => text,
        LineItem::Picture { raw, .. } => raw,
    }
}

/// Rendering without numbering writes one line per record.
pub proof fn lemma_lines_items(n: MSTNode)
    ensures
        lines_of(n, false) == items_of(n).map_values(|it: LineItem| item_line(it)),
    decreases n, n.children@.len() + 1,
{
    lemma_lines_items_upto(n, n.children@.len() as int);
    assert(lines_of(n, false) =~= items_of(n).map_values(|it: LineItem| item_line(it)));
}

proof fn lemma_lines_items_upto(n: MSTNode, k: int)
    ensures
        lines_upto(n, k, false) == items_upto(n, k).map_values(|it: LineItem| item_line(it)),
    decreases n, k,
{
    if 0 < k <= n.children@.len() {
        lemma_lines_items_upto(n, k - 1);
        lemma_lines_items(n.children@[k - 1]);
        assert(lines_upto(n, k, false) =~= items_upto(n, k).map_values(
            |it: LineItem| item_line(it),
        ));
    } else {
        assert(lines_upto(n, k, false) =~= items_upto(n, k).map_values(
            |it: LineItem| item_line(it),
        ));
    }
}

/// A heading line written as the renderer writes it: its hashes, one space
/// and a clean title.
pub open spec fn is_canonical_line(l: Seq<char>) -> bool {
    let k = heading_level(l);
    k > 0 ==> l == hashes(k) + seq![' '] + normalize(l.subrange(k, l.len() as int))
}

proof fn lemma_join_cons(x: Seq<char>, ls: Seq<Seq<char>>)
    requires
        ls.len() > 0,
    ensures
        join_lines(seq![x] + ls) == x + seq!['\n'] + join_lines(ls),
    decreases ls.len(),
{
    let s = seq![x] + ls;
    if ls.len() == 1 {
        assert(s.drop_last() =~= seq![x]);
        assert(join_lines(seq![x]) == x);
        assert(s.last() == ls[0]);
        assert(join_lines(s) == join_lines(s.drop_last()) + seq!['\n'] + s.last());
        assert(join_lines(ls) == ls[0]);
    } else {
        assert(s.drop_last() =~= seq![x] + ls.drop_last());
        lemma_join_cons(x, ls.drop_last());
        assert(join_lines(s) == join_lines(s.drop_last()) + seq!['\n'] + s.last());
        assert(join_lines(ls) == join_lines(ls.drop_last()) + seq!['\n'] + ls.last());
        assert(join_lines(s) =~= x + seq!['\n'] + join_lines(ls));
    }
}

proof fn lemma_lines_from_nonempty(rest: Seq<char>, cur: Seq<char>)
    requires
        rest.len() > 0 || cur.len() > 0,
    ensures
        lines_from(rest, cur).len() > 0,
    decreases rest.len(),
{
    if rest.len() > 0 && rest[0] != '\n' {
        lemma_lines_from_nonempty(rest.drop_first(), cur.push(rest[0]));
    }
}

proof fn lemma_join_lines_from(rest: Seq<char>, cur: Seq<char>)
    requires
        forall|i: int| 0 <= i < rest.len() ==> rest[i] != '\r',
        forall|i: int| 0 <= i < cur.len() ==> cur[i] != '\r',
        rest.len() > 0 ==> rest.last() != '\n',
    ensures
        join_lines(lines_from(rest, cur)) == cur + rest,
    decreases rest.len(),
{
    if rest.len() == 0 {
        assert(cur + rest =~= cur);
    } else if rest[0] == '\n' {
        let r2 = rest.drop_first();
        assert(r2.len() > 0);
        if cur.len() > 0 {
            assert(cur.last() != '\r');
        }
        assert(strip_cr(cur) == cur);
        lemma_join_lines_from(r2, seq![]);
        lemma_lines_from_nonempty(r2, seq![]);
        lemma_join_cons(cur, lines_from(r2, seq![]));
        assert(cur + rest =~= cur + seq!['\n'] + (Seq::<char>::empty() + r2));
    } else {
        lemma_join_lines_from(rest.drop_first(), cur.push(rest[0]));
        assert(cur.push(rest[0]) + rest.drop_first() =~= cur + rest);
    }
}

/// Round trip: a document whose heading lines are already written as the
/// renderer writes them, with no carriage return and no newline at its end,
/// renders back to itself from the tree that `MarkdownParser::parse` builds.
pub proof fn lemma_round_trip(d: Seq<char>, t: MSTNode)
    requires
        items_of(t) == build_items(d),
        forall|i: int| 0 <= i < lines(d).len() ==> is_canonical_line(#[trigger] lines(d)[i]),
        forall|i: int| 0 <= i < d.len() ==> d[i] != '\r',
        d.len() > 0 ==> d.last() != '\n',
    ensures
        render_spec(t, false) == d,
{
    lemma_lines_items(t);
    let ls = lines(d);
    assert(lines_of(t, false) =~= ls) by {
        assert forall|i: int| 0 <= i < ls.len() implies #[trigger] lines_of(t, false)[i]
            == ls[i] by {
            assert(build_items(d)[i] == expected_item(ls[i], i + 1));
            assert(is_canonical_line(ls[i]));
        }
    }
    lemma_join_lines_from(d, seq![]);
    assert(Seq::<char>::empty() + d =~= d);
}

pub open spec fn views(v: Seq<Vec<char>>) -> Seq<Seq<char>> {
    v.map_values(|l: Vec<char>| l@)
}

pub fn join_lines_exec(ls: &Vec<Vec<char>>) -> (r: Vec<char>)
    ensures
        r@ == join_lines(views(ls@)),
{
    let mut out: Vec<char> = Vec::new();
    let mut i: usize = 0;
    while i < ls.len()
        invariant
            i <= ls@.len(),
            out@ == join_lines(views(ls@).subrange(0, i as int)),
        decreases ls@.len() - i,
    {
        let ghost pre = views(ls@).subrange(0, i as int);
        let ghost next = views(ls@).subrange(0, i + 1);
        assert(next.drop_last() =~= pre);
        if i > 0 {
            out.push('\n');
        }
        push_all(&mut out, &ls[i]);
        assert(out@ =~= join_lines(next));
        i = i + 1;
    }
    assert(views(ls@).subrange(0, i as int) =~= views(ls@));
    out
}

/// Renders document trees as Markdown text.
pub struct MarkdownRenderer;

impl Default for MarkdownRenderer {
    fn default() -> Self {
        MarkdownRenderer
    }
}

impl MarkdownRenderer {
    pub fn new() -> Self {
        MarkdownRenderer
    }

    /// The text of the tree, with each heading's label where it has one.
    pub fn render(&self, mst: &MSTNode) -> (r: String)
        ensures
            r@ == render_spec(*mst, true),
    {
        let mut result: Vec<Vec<char>> = Vec::new();
        self.render_node(mst, true, &mut result);
        assert(views(result@) =~= lines_of(*mst, true));
        string_of(join_lines_exec(&result))
    }

    /// Same as `render`: the labels present are written.
    pub fn render_with_numbering(&self, mst: &MSTNode) -> (r: String)
        ensures
            r@ == render_spec(*mst, true),
    {
        self.render(mst)
    }

    /// The text of the tree with clean titles only, whatever numbering it holds.
    pub fn render_without_numbering(&self, mst: &MSTNode) -> (r: String)
        ensures
            r@ == render_spec(*mst, false),
    {
        let mut result: Vec<Vec<char>> = Vec::new();
        self.render_node(mst, false, &mut result);
        assert(views(result@) =~= lines_of(*mst, false));
        string_of(join_lines_exec(&result))
    }

    fn header_line(&self, node: &MSTNode, level: usize, with_numbering: bool) -> (r: Vec<char>)
        ensures
            r@ == header_text(*node, level as int, with_numbering),
    {
        let mut line: Vec<char> = Vec::new();
        let mut i: usize = 0;
        while i < level
            invariant
                i <= level,
                line@ == hashes(i as int),
            decreases level - i,
        {
            line.push('#');
            i = i + 1;
            assert(line@ =~= hashes(i as int));
        }
        line.push(' ');
        if with_numbering {
            match &node.numbering {
                Some(numbering) => {
                    let label = chars_of(numbering.formatted.as_str());
                    push_all(&mut line, &label);
                },
                None => {},
            }
        }
        match &node.title {
            Some(title) => {
                let t = chars_of(title.as_str());
                push_all(&mut line, &t);
            },
            None => {},
        }
        assert(line@ =~= header_text(*node, level as int, with_numbering));
        line
    }

    /// Appends the lines of the tree rooted at `node`.
    fn render_node(&self, node: &MSTNode, with_numbering: bool, result: &mut Vec<Vec<char>>)
        ensures
            views(final(result)@) == views(old(result)@) + lines_of(*node, with_numbering),
        decreases *node,
    {
        match &node.node_type {
            NodeType::Root => {},
            NodeType::Header(level) => {
                result.push(self.header_line(node, *level, with_numbering));
            },
            NodeType::Content(content) => {
                result.push(chars_of(content.as_str()));
            },
            NodeType::Image(_) => {
                result.push(chars_of(node.raw_line.as_str()));
            },
        }
        let ghost start = views(result@);
        assert(start =~= views(old(result)@) + own_lines(*node, with_numbering));
        let mut k: usize = 0;
        while k < node.children.len()
            invariant
                k <= node.children@.len(),
                start == views(old(result)@) + own_lines(*node, with_numbering),
                views(result@) == start + lines_upto(*node, k as int, with_numbering),
            decreases node.children@.len() - k,
        {
            self.render_node(&node.children[k], with_numbering, result);
            assert(views(result@) =~= start + lines_upto(*node, k + 1, with_numbering));
            k = k + 1;
        }
    }
}

} // verus!
