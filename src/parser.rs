//! Builds the document tree from Markdown text.

use vstd::prelude::*;
use crate::mst::{
    depths_of, headers_of, items_of, lemma_depths_push, lemma_items_push, lemma_levels_ok_push,
    levels_ok, LineItem, MSTNode, NodeType,
};
use crate::text::{chars_of, is_space, is_ws, lines, slice_chars, split_lines, string_of};
use crate::title::{normalize, normalize_chars};

verus! {

/// Number of `#` characters of `l` starting at `i`.
pub open spec fn hash_run(l: Seq<char>, i: int) -> int
    decreases l.len() - i,
{
    if 0 <= i < l.len() && l[i] == '#' {
        1 + hash_run(l, i + 1)
    } else {
        0
    }
}

/// The level of a heading line (`^#{1,6}\s+`), or 0 for any other line.
pub open spec fn heading_level(l: Seq<char>) -> int {
    let k = hash_run(l, 0);
    if 1 <= k <= 6 && k < l.len() && is_ws(l[k]) {
        k
    } else {
        0
    }
}

/// The record the tree holds for source line `l` at 1-based number `line`.
pub open spec fn expected_item(l: Seq<char>, line: int) -> LineItem {
    let k = heading_level(l);
    if k > 0 {
        LineItem::Heading {
            level: k,
            title: Some(normalize(l.subrange(k, l.len() as int))),
            raw: l,
            line,
            numbered: false,
        }
    } else {
        LineItem::Text { text: l, raw: l, line, numbered: false }
    }
}

/// Records of the given source lines, in order.
pub open spec fn expected_items(ls: Seq<Seq<char>>) -> Seq<LineItem> {
    Seq::new(ls.len(), |i: int| expected_item(ls[i], i + 1))
}

/// Records of the lines of a text, one per line, in order.
pub open spec fn build_items(text: Seq<char>) -> Seq<LineItem> {
    expected_items(lines(text))
}

/// `st` without its trailing entries of level `l` or deeper.
pub open spec fn pop_ge(st: Seq<int>, l: int) -> Seq<int>
    decreases st.len(),
{
    if st.len() > 0 && st.last() >= l {
        pop_ge(st.drop_last(), l)
    } else {
        st
    }
}

/// Levels of the headings still open after the first `i` lines: a heading
/// closes every open heading of its level or deeper, then opens.
pub open spec fn open_after(ls: Seq<Seq<char>>, i: int) -> Seq<int>
    decreases i,
{
    if i <= 0 {
        seq![]
    } else {
        let st = open_after(ls, i - 1);
        let k = heading_level(ls[i - 1]);
        if k > 0 {
            pop_ge(st, k).push(k)
        } else {
            st
        }
    }
}

/// Depth in the tree of the node for line `i`: a heading sits below the open
/// headings of lower level, any other line below every open heading.
pub open spec fn expected_depth(ls: Seq<Seq<char>>, i: int) -> int {
    let st = open_after(ls, i);
    let k = heading_level(ls[i]);
    if k > 0 {
        pop_ge(st, k).len() as int + 1
    } else {
        st.len() as int + 1
    }
}

/// Depths of the nodes for the lines of a text, in order.
pub open spec fn build_depths(text: Seq<char>) -> Seq<int> {
    Seq::new(lines(text).len(), |i: int| expected_depth(lines(text), i))
}

/// Depths of a stack of open subtrees, the `j`-th at depth `j + 1`.
spec fn stack_depths(st: Seq<MSTNode>) -> Seq<int>
    decreases st.len(),
{
    if st.len() == 0 {
        seq![]
    } else {
        stack_depths(st.drop_last()) + depths_of(st.last(), st.len() as int)
    }
}

/// Levels of a stack of open headings.
spec fn stack_levels(st: Seq<MSTNode>) -> Seq<int> {
    st.map_values(|n: MSTNode| n.node_type->Header_0 as int)
}

/// Records of a stack of open subtrees, outermost first.
spec fn stack_items(st: Seq<MSTNode>) -> Seq<LineItem>
    decreases st.len(),
{
    if st.len() == 0 {
        seq![]
    } else {
        stack_items(st.drop_last()) + items_of(st.last())
    }
}

/// Number of headings in a stack of open subtrees.
spec fn stack_headers(st: Seq<MSTNode>) -> int
    decreases st.len(),
{
    if st.len() == 0 {
        0
    } else {
        stack_headers(st.drop_last()) + headers_of(st.last()).len()
    }
}

/// The parser state: the root and the stack of open headings hold, between
/// them, the records of the first `i` lines.
spec fn builder_ok(root: MSTNode, st: Seq<MSTNode>, ls: Seq<Seq<char>>, i: int) -> bool {
    &&& root.node_type is Root
    &&& root.numbering is None
    &&& root.title is None
    &&& root.line_number == 0
    &&& items_of(root) + stack_items(st) == expected_items(ls.subrange(0, i))
    &&& levels_ok(root)
    &&& forall|j: int| 0 <= j < st.len() ==> levels_ok(#[trigger] st[j])
    &&& forall|j: int| 0 <= j < st.len() ==> (#[trigger] st[j]).node_type is Header
    &&& headers_of(root).len() + stack_headers(st) <= i
    &&& depths_of(root, 0) + stack_depths(st) == Seq::new(i as nat, |j: int| expected_depth(ls, j))
}

fn hash_run_exec(l: &Vec<char>) -> (r: usize)
    ensures
        r == hash_run(l@, 0),
        r <= l@.len(),
{
    let mut j: usize = 0;
    while j < l.len() && l[j] == '#'
        invariant
            j <= l@.len(),
            hash_run(l@, 0) == j + hash_run(l@, j as int),
        decreases l@.len() - j,
    {
        j = j + 1;
    }
    j
}

fn heading_level_exec(l: &Vec<char>) -> (r: usize)
    ensures
        r == heading_level(l@),
        r <= 6,
{
    let k = hash_run_exec(l);
    if 1 <= k && k <= 6 && k < l.len() && is_space(l[k]) {
        k
    } else {
        0
    }
}

/// Parses Markdown text into a document tree.
pub struct MarkdownParser;

impl Default for MarkdownParser {
    fn default() -> Self {
        MarkdownParser
    }
}

impl MarkdownParser {
    pub fn new() -> (r: Result<Self, String>)
        ensures
            r is Ok,
    {
        Ok(MarkdownParser)
    }

    /// Builds the tree of a text: each heading line opens a heading node under
    /// the nearest open heading of a lower level (or the root), and every other
    /// line becomes a content node under the innermost open heading (or the
    /// root). Never fails.
    pub fn parse(&self, content: &str) -> (r: Result<MSTNode, String>)
        ensures
            r is Ok,
            r->Ok_0.node_type is Root,
            r->Ok_0.numbering is None,
            r->Ok_0.title is None,
            r->Ok_0.line_number == 0,
            items_of(r->Ok_0) == build_items(content@),
            depths_of(r->Ok_0, 0) == build_depths(content@),
            levels_ok(r->Ok_0),
            headers_of(r->Ok_0).len() <= usize::MAX,
    {
        let text = chars_of(content);
        let ls = split_lines(&text);
        let ghost lsv = lines(content@);
        let mut root = MSTNode::new_root();
        let mut stack: Vec<MSTNode> = Vec::new();
        proof {
            assert(lsv.subrange(0, 0) =~= seq![]);
            assert(expected_items(lsv.subrange(0, 0)) =~= seq![]);
            assert(items_of(root) =~= seq![]);
            assert(headers_of(root) =~= seq![]);
            assert(depths_of(root, 0) =~= seq![]);
            assert(Seq::new(0, |j: int| expected_depth(lsv, j)) =~= seq![]);
            assert(stack_levels(stack@) =~= seq![]);
        }
        let mut i: usize = 0;
        while i < ls.len()
            invariant
                i <= ls@.len(),
                ls@.len() == lsv.len(),
                forall|j: int| 0 <= j < ls@.len() ==> (#[trigger] ls@[j])@ == lsv[j],
                lsv == lines(content@),
                builder_ok(root, stack@, lsv, i as int),
                stack_levels(stack@) == open_after(lsv, i as int),
            decreases ls@.len() - i,
        {
            let line = &ls[i];
            let level = heading_level_exec(line);
            let ghost item = expected_item(lsv[i as int], i + 1);
            proof {
                assert(expected_items(lsv.subrange(0, i + 1)) =~= expected_items(
                    lsv.subrange(0, i as int),
                ).push(item));
                assert(Seq::new((i + 1) as nat, |j: int| expected_depth(lsv, j)) =~= Seq::new(
                    i as nat,
                    |j: int| expected_depth(lsv, j),
                ).push(expected_depth(lsv, i as int)));
            }
            if level > 0 {
                while stack.len() > 0 && Self::top_level(&stack) >= level
                    invariant
                        builder_ok(root, stack@, lsv, i as int),
                        i < ls@.len(),
                        ls@.len() == lsv.len(),
                        forall|j: int| 0 <= j < ls@.len() ==> (#[trigger] ls@[j])@ == lsv[j],
                        lsv == lines(content@),
                        expected_items(lsv.subrange(0, i + 1)) == expected_items(
                            lsv.subrange(0, i as int),
                        ).push(item),
                        Seq::new((i + 1) as nat, |j: int| expected_depth(lsv, j)) == Seq::new(
                            i as nat,
                            |j: int| expected_depth(lsv, j),
                        ).push(expected_depth(lsv, i as int)),
                        level == heading_level(lsv[i as int]),
                        pop_ge(stack_levels(stack@), level as int) == pop_ge(
                            open_after(lsv, i as int),
                            level as int,
                        ),
                    decreases stack@.len(),
                {
                    proof {
                        let lv = stack_levels(stack@);
                        assert(lv.last() == stack@.last().node_type->Header_0);
                        assert(lv.drop_last() =~= stack_levels(stack@.drop_last()));
                    }
                    Self::close_top(&mut root, &mut stack, Ghost(lsv), Ghost(i as int));
                }
                proof {
                    let lv = stack_levels(stack@);
                    if lv.len() > 0 {
                        assert(lv.last() == stack@.last().node_type->Header_0);
                    }
                    assert(pop_ge(lv, level as int) == lv);
                }
                let rest = slice_chars(line, level, line.len());
                let title = string_of(normalize_chars(&rest));
                let raw = string_of(slice_chars(line, 0, line.len()));
                let node = MSTNode::new_header(level, title, raw, i + 1);
                proof {
                    assert(stack_levels(stack@).len() == stack@.len());
                    assert(expected_depth(lsv, i as int) == stack@.len() + 1int);
                    assert(open_after(lsv, i + 1) == pop_ge(open_after(lsv, i as int), level as int).push(
                        level as int,
                    ));
                    assert(line@.subrange(0, line@.len() as int) =~= line@);
                    assert(items_of(node) =~= seq![item]);
                    assert(headers_of(node) =~= seq![node]);
                    assert(stack@.push(node).drop_last() =~= stack@);
                    assert(stack_items(stack@.push(node)) == stack_items(stack@) + items_of(node));
                    assert(stack_headers(stack@.push(node)) == stack_headers(stack@) + 1);
                    assert(depths_of(node, stack@.len() + 1int) =~= seq![stack@.len() + 1int]);
                    assert(stack_depths(stack@.push(node)) == stack_depths(stack@) + depths_of(
                        node,
                        stack@.len() + 1int,
                    ));
                    assert(stack_levels(stack@.push(node)) =~= stack_levels(stack@).push(
                        level as int,
                    ));
                    assert(depths_of(root, 0) + stack_depths(stack@.push(node)) =~= (depths_of(
                        root,
                        0,
                    ) + stack_depths(stack@)).push(expected_depth(lsv, i as int)));
                }
                stack.push(node);
                proof {
                    assert(levels_ok(stack@[stack@.len() - 1]));
                    assert(items_of(root) + stack_items(stack@) == expected_items(
                        lsv.subrange(0, i + 1),
                    ));
                    assert(headers_of(root).len() + stack_headers(stack@) <= i + 1);
                    assert(builder_ok(root, stack@, lsv, i + 1));
                }
            } else {
                let raw = string_of(slice_chars(line, 0, line.len()));
                let node = MSTNode::new_content(raw, i + 1);
                proof {
                    assert(line@.subrange(0, line@.len() as int) =~= line@);
                    assert(items_of(node) =~= seq![item]);
                    assert(headers_of(node) =~= seq![]);
                }
                proof {
                    assert(depths_of(node, stack@.len() + 1int) =~= seq![stack@.len() + 1int]);
                }
                Self::add_to_top(&mut root, &mut stack, node, Ghost(lsv), Ghost(i as int));
            }
            i = i + 1;
        }
        while stack.len() > 0
            invariant
                builder_ok(root, stack@, lsv, ls@.len() as int),
                ls@.len() == lsv.len(),
            decreases stack@.len(),
        {
            Self::close_top(&mut root, &mut stack, Ghost(lsv), Ghost(ls@.len() as int));
        }
        proof {
            assert(lsv.subrange(0, lsv.len() as int) =~= lsv);
            assert(items_of(root) + stack_items(stack@) =~= items_of(root));
            assert(depths_of(root, 0) + stack_depths(stack@) =~= depths_of(root, 0));
        }
        Ok(root)
    }

    fn top_level(stack: &Vec<MSTNode>) -> (r: usize)
        requires
            stack@.len() > 0,
            forall|j: int| 0 <= j < stack@.len() ==> (#[trigger] stack@[j]).node_type is Header,
        ensures
            r == stack@.last().node_type->Header_0,
    {
        match stack[stack.len() - 1].node_type {
            NodeType::Header(level) => level,
            _ => 0,
        }
    }

    /// Closes the innermost open heading: it becomes the last child of the
    /// heading below it on the stack, or of the root.
    fn close_top(
        root: &mut MSTNode,
        stack: &mut Vec<MSTNode>,
        Ghost(lsv): Ghost<Seq<Seq<char>>>,
        Ghost(i): Ghost<int>,
    )
        requires
            old(stack)@.len() > 0,
            builder_ok(*old(root), old(stack)@, lsv, i),
        ensures
            builder_ok(*final(root), final(stack)@, lsv, i),
            final(stack)@.len() == old(stack)@.len() - 1,
            stack_levels(final(stack)@) == stack_levels(old(stack)@).drop_last(),
    {
        let ghost st0 = stack@;
        let top = stack.pop().unwrap();
        proof {
            assert(st0.drop_last() =~= stack@);
            assert(levels_ok(st0[st0.len() - 1]));
            assert(stack_items(st0) == stack_items(stack@) + items_of(top));
            assert(stack_headers(st0) == stack_headers(stack@) + headers_of(top).len());
            assert(stack_depths(st0) == stack_depths(stack@) + depths_of(top, st0.len() as int));
        }
        if stack.len() == 0 {
            let ghost r0 = *root;
            root.add_child(top);
            proof {
                lemma_items_push(r0, *root, top);
                lemma_levels_ok_push(r0, *root, top);
                lemma_depths_push(r0, *root, top, 0);
                assert(stack_items(stack@) =~= seq![]);
                assert(stack_depths(stack@) =~= seq![]);
                assert(items_of(*root) + stack_items(stack@) =~= items_of(r0) + stack_items(st0));
                assert(depths_of(*root, 0) + stack_depths(stack@) =~= depths_of(r0, 0)
                    + stack_depths(st0));
                assert(stack_levels(stack@) =~= stack_levels(st0).drop_last());
            }
        } else {
            let ghost st1 = stack@;
            let mut parent = stack.pop().unwrap();
            let ghost p0 = parent;
            proof {
                assert(st1.drop_last() =~= stack@);
                assert(levels_ok(st1[st1.len() - 1]));
            }
            parent.add_child(top);
            proof {
                lemma_items_push(p0, parent, top);
                lemma_levels_ok_push(p0, parent, top);
                lemma_depths_push(p0, parent, top, st1.len() as int);
            }
            stack.push(parent);
            proof {
                assert(stack@.drop_last() =~= st1.drop_last());
                assert(stack_items(st1) == stack_items(st1.drop_last()) + items_of(p0));
                assert(stack_headers(st1) == stack_headers(st1.drop_last()) + headers_of(p0).len());
                assert(stack_items(stack@) == stack_items(st1.drop_last()) + items_of(parent));
                assert(stack_headers(stack@) == stack_headers(st1.drop_last()) + headers_of(
                    parent,
                ).len());
                assert(stack_items(stack@) =~= stack_items(st0));
                assert(stack_depths(st1) == stack_depths(st1.drop_last()) + depths_of(
                    p0,
                    st1.len() as int,
                ));
                assert(stack_depths(stack@) == stack_depths(st1.drop_last()) + depths_of(
                    parent,
                    st1.len() as int,
                ));
                assert(stack_depths(stack@) =~= stack_depths(st0));
                assert(stack_levels(stack@) =~= stack_levels(st0).drop_last());
                assert forall|j: int| 0 <= j < stack@.len() implies levels_ok(#[trigger] stack@[j])
                    && stack@[j].node_type is Header by {
                    if j < stack@.len() - 1 {
                        assert(stack@[j] == st0[j]);
                    }
                }
            }
        }
    }

    /// Adds a content node under the innermost open heading, or the root.
    fn add_to_top(
        root: &mut MSTNode,
        stack: &mut Vec<MSTNode>,
        node: MSTNode,
        Ghost(lsv): Ghost<Seq<Seq<char>>>,
        Ghost(i): Ghost<int>,
    )
        requires
            0 <= i < lsv.len(),
            builder_ok(*old(root), old(stack)@, lsv, i),
            items_of(node) == seq![expected_item(lsv[i], i + 1)],
            headers_of(node).len() == 0,
            levels_ok(node),
            expected_depth(lsv, i) == old(stack)@.len() + 1int,
            depths_of(node, old(stack)@.len() + 1int) == seq![old(stack)@.len() + 1int],
        ensures
            builder_ok(*final(root), final(stack)@, lsv, i + 1),
            stack_levels(final(stack)@) == stack_levels(old(stack)@),
    {
        proof {
            assert(expected_items(lsv.subrange(0, i + 1)) =~= expected_items(lsv.subrange(0, i))
                + items_of(node));
            assert(Seq::new((i + 1) as nat, |j: int| expected_depth(lsv, j)) =~= Seq::new(
                i as nat,
                |j: int| expected_depth(lsv, j),
            ).push(expected_depth(lsv, i)));
        }
        if stack.len() == 0 {
            let ghost r0 = *root;
            root.add_child(node);
            proof {
                lemma_items_push(r0, *root, node);
                lemma_levels_ok_push(r0, *root, node);
                lemma_depths_push(r0, *root, node, 0);
                assert(depths_of(node, 1) == seq![1int]);
                assert(expected_depth(lsv, i) == 1);
                assert(depths_of(r0, 0) =~= depths_of(r0, 0) + stack_depths(stack@));
                assert(depths_of(*root, 0) + stack_depths(stack@) =~= (depths_of(r0, 0)
                    + stack_depths(stack@)).push(expected_depth(lsv, i)));
                assert(stack_depths(stack@) =~= seq![]);
                assert(depths_of(*root, 0) + stack_depths(stack@) =~= depths_of(r0, 0)
                    + depths_of(node, 1));
                assert(stack_items(stack@) =~= seq![]);
                assert(items_of(*root) + stack_items(stack@) =~= items_of(r0) + stack_items(stack@)
                    + items_of(node));
                assert(items_of(*root) + stack_items(stack@) == expected_items(lsv.subrange(0, i + 1)));
                assert(headers_of(*root).len() + stack_headers(stack@) <= i + 1);
            }
        } else {
            let ghost st1 = stack@;
            let mut parent = stack.pop().unwrap();
            let ghost p0 = parent;
            proof {
                assert(st1.drop_last() =~= stack@);
                assert(levels_ok(st1[st1.len() - 1]));
            }
            parent.add_child(node);
            proof {
                lemma_items_push(p0, parent, node);
                lemma_levels_ok_push(p0, parent, node);
                lemma_depths_push(p0, parent, node, st1.len() as int);
            }
            stack.push(parent);
            proof {
                assert(stack@.drop_last() =~= st1.drop_last());
                assert(stack_items(st1) == stack_items(st1.drop_last()) + items_of(p0));
                assert(stack_headers(st1) == stack_headers(st1.drop_last()) + headers_of(p0).len());
                assert(stack_items(stack@) == stack_items(st1.drop_last()) + items_of(parent));
                assert(stack_headers(stack@) == stack_headers(st1.drop_last()) + headers_of(
                    parent,
                ).len());
                assert(stack_items(stack@) =~= stack_items(st1) + items_of(node));
                assert(stack_depths(st1) == stack_depths(st1.drop_last()) + depths_of(
                    p0,
                    st1.len() as int,
                ));
                assert(stack_depths(stack@) == stack_depths(st1.drop_last()) + depths_of(
                    parent,
                    st1.len() as int,
                ));
                assert(stack_depths(stack@) =~= stack_depths(st1) + depths_of(
                    node,
                    st1.len() + 1int,
                ));
                assert(depths_of(*root, 0) + stack_depths(stack@) =~= (depths_of(*root, 0)
                    + stack_depths(st1)).push(expected_depth(lsv, i)));
                assert(stack_levels(stack@) =~= stack_levels(st1));
                assert(items_of(*root) + stack_items(stack@) == expected_items(lsv.subrange(0, i + 1)));
                assert(headers_of(*root).len() + stack_headers(stack@) <= i + 1);
                assert forall|j: int| 0 <= j < stack@.len() implies levels_ok(#[trigger] stack@[j])
                    && stack@[j].node_type is Header by {
                    if j < stack@.len() - 1 {
                        assert(stack@[j] == st1[j]);
                    }
                }
            }
        }
    }
}

} // verus!
