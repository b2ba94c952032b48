//! The document tree: a root, heading nodes that own what follows them, and
//! content lines.

use vstd::prelude::*;
use crate::numbering::{dec, push_decimal};
use crate::text::{chars_of, push_all, slice_chars, string_of};

verus! {

/// What a node of the tree stands for.
#[derive(Debug, Clone, PartialEq)]
pub enum NodeType {
    /// The single top-level container.
    Root,
    /// A heading, with its level (1 to 6).
    Header(usize),
    /// One opaque line of the document, verbatim.
    Content(String),
    /// A remote image reference on a line of its own.
    Image(ImageInfo),
}

/// How an image reference was written.
#[derive(Debug, Clone, PartialEq)]
pub enum ImageType {
    /// `![alt](url "title")`
    Markdown,
    /// `<img src="url" ...>`
    Html,
}

/// An image reference and, once downloaded, where it was stored.
#[derive(Debug, Clone, PartialEq)]
pub struct ImageInfo {
    pub image_type: ImageType,
    pub original_url: String,
    pub local_path: Option<String>,
    pub alt_text: String,
    pub title: Option<String>,
    pub html_attributes: Option<String>,
}

/// A node of the document tree.
#[derive(Debug)]
pub struct MSTNode {
    pub node_type: NodeType,
    /// The clean title of a heading; `None` for other nodes.
    pub title: Option<String>,
    /// The source line as written.
    pub raw_line: String,
    /// 1-based source line number; 0 for the root.
    pub line_number: usize,
    pub children: Vec<MSTNode>,
    /// The numbering of a heading, once assigned.
    pub numbering: Option<NumberingInfo>,
}

/// A heading's numbering: its counter path and its label.
#[derive(Debug, Clone)]
pub struct NumberingInfo {
    /// `[1, 2, 1]` stands for 1.2.1.
    pub path: Vec<usize>,
    /// The label written before the title, separator included.
    pub formatted: String,
}

/// How headings are numbered.
#[derive(Debug, Clone)]
pub struct NumberingConfig {
    /// Leave level-1 headings unnumbered and number level 2 as the first level.
    pub ignore_h1: bool,
    /// Use CJK ordinals instead of Arabic numerals.
    pub use_chinese_number: bool,
    /// With CJK ordinals: only the first level is an ordinal, deeper levels
    /// are Arabic and leave the first-level counter out.
    pub use_arabic_number_for_sublevel: bool,
}

impl Default for NumberingConfig {
    fn default() -> (r: Self)
        ensures
            !r.ignore_h1,
            !r.use_chinese_number,
            r.use_arabic_number_for_sublevel,
    {
        NumberingConfig {
            ignore_h1: false,
            use_chinese_number: false,
            use_arabic_number_for_sublevel: true,
        }
    }
}

/// Heading nodes of the tree rooted at `n`, in document order.
pub open spec fn headers_of(n: MSTNode) -> Seq<MSTNode>
    decreases n, n.children@.len() + 1,
{
    let own = if n.node_type is Header {
        seq![n]
    } else {
        seq![]
    };
    own + headers_upto(n, n.children@.len() as int)
}

/// Heading nodes of the subtrees of the first `k` children of `n`.
pub open spec fn headers_upto(n: MSTNode, k: int) -> Seq<MSTNode>
    decreases n, k,
{
    if k <= 0 || k > n.children@.len() {
        seq![]
    } else {
        headers_upto(n, k - 1) + headers_of(n.children@[k - 1])
    }
}

/// Every heading of the tree has a level from 1 to 6.
pub open spec fn levels_ok(n: MSTNode) -> bool {
    forall|i: int|
        0 <= i < headers_of(n).len() ==> {
            let h = #[trigger] headers_of(n)[i];
            h.node_type is Header && 1 <= h.node_type->Header_0 <= 6
        }
}

/// Headings of the first `k` children depend on those children only.
pub proof fn lemma_headers_upto_same(a: MSTNode, b: MSTNode, k: int)
    requires
        0 <= k <= a.children@.len(),
        k <= b.children@.len(),
        forall|i: int| 0 <= i < k ==> a.children@[i] == b.children@[i],
    ensures
        headers_upto(a, k) == headers_upto(b, k),
    decreases k,
{
    if k > 0 {
        lemma_headers_upto_same(a, b, k - 1);
    }
}

/// Appending a child appends the child's headings after those of the others.
pub proof fn lemma_headers_push(a: MSTNode, b: MSTNode, c: MSTNode)
    requires
        b.children@ == a.children@.push(c),
    ensures
        headers_upto(b, b.children@.len() as int) == headers_upto(a, a.children@.len() as int)
            + headers_of(c),
{
    let k = a.children@.len() as int;
    lemma_headers_upto_same(a, b, k);
}

/// What one node of the tree records about its source line, children aside.
pub enum LineItem {
    Heading {
        level: int,
        title: Option<Seq<char>>,
        raw: Seq<char>,
        line: int,
        numbered: bool,
    },
    Text { text: Seq<char>, raw: Seq<char>, line: int, numbered: bool },
    Picture { raw: Seq<char>, line: int, numbered: bool },
}

/// The record of a node that is not the root.
pub open spec fn item_of(n: MSTNode) -> LineItem {
    match n.node_type {
        NodeType::Header(level) => LineItem::Heading {
            level: level as int,
            title: match n.title {
                Some(t) => Some(t@),
                None => None,
            },
            raw: n.raw_line@,
            line: n.line_number as int,
            numbered: n.numbering is Some,
        },
        NodeType::Content(c) => LineItem::Text {
            text: c@,
            raw: n.raw_line@,
            line: n.line_number as int,
            numbered: n.numbering is Some,
        },
        _ => LineItem::Picture {
            raw: n.raw_line@,
            line: n.line_number as int,
            numbered: n.numbering is Some,
        },
    }
}

/// Records of the nodes of the tree rooted at `n` but the root, in pre-order.
pub open spec fn items_of(n: MSTNode) -> Seq<LineItem>
    decreases n, n.children@.len() + 1,
{
    let own = if n.node_type is Root {
        seq![]
    } else {
        seq![item_of(n)]
    };
    own + items_upto(n, n.children@.len() as int)
}

/// Records of the subtrees of the first `k` children of `n`.
pub open spec fn items_upto(n: MSTNode, k: int) -> Seq<LineItem>
    decreases n, k,
{
    if k <= 0 || k > n.children@.len() {
        seq![]
    } else {
        items_upto(n, k - 1) + items_of(n.children@[k - 1])
    }
}

proof fn lemma_items_upto_same(a: MSTNode, b: MSTNode, k: int)
    requires
        0 <= k <= a.children@.len(),
        k <= b.children@.len(),
        forall|i: int| 0 <= i < k ==> a.children@[i] == b.children@[i],
    ensures
        items_upto(a, k) == items_upto(b, k),
    decreases k,
{
    if k > 0 {
        lemma_items_upto_same(a, b, k - 1);
    }
}

/// Appending a child to a node appends the child's records.
pub proof fn lemma_items_push(a: MSTNode, b: MSTNode, c: MSTNode)
    requires
        b.node_type == a.node_type,
        b.title == a.title,
        b.raw_line == a.raw_line,
        b.line_number == a.line_number,
        b.numbering == a.numbering,
        b.children@ == a.children@.push(c),
    ensures
        items_of(b) == items_of(a) + items_of(c),
{
    let k = a.children@.len() as int;
    lemma_items_upto_same(a, b, k);
    assert(items_of(b) =~= items_of(a) + items_of(c));
}

/// A child with well-levelled headings keeps its new parent well-levelled,
/// and adds its headings to the parent's count.
pub proof fn lemma_levels_ok_push(a: MSTNode, b: MSTNode, c: MSTNode)
    requires
        b.node_type == a.node_type,
        b.children@ == a.children@.push(c),
        levels_ok(a),
        levels_ok(c),
    ensures
        levels_ok(b),
        headers_of(b).len() == headers_of(a).len() + headers_of(c).len(),
{
    lemma_headers_push(a, b, c);
    let k = a.children@.len() as int;
    let own: int = if a.node_type is Header {
        1
    } else {
        0
    };
    assert forall|i: int| 0 <= i < headers_of(b).len() implies {
        let h = #[trigger] headers_of(b)[i];
        h.node_type is Header && 1 <= h.node_type->Header_0 <= 6
    } by {
        if i < own {
            assert(headers_of(b)[i] == b);
            assert(headers_of(a)[i] == a);
        } else if i < own + headers_upto(a, k).len() {
            assert(headers_of(b)[i] == headers_upto(a, k)[i - own]);
            assert(headers_of(a)[i] == headers_upto(a, k)[i - own]);
        } else {
            assert(headers_of(b)[i] == headers_of(c)[i - own - headers_upto(a, k).len()]);
        }
    }
}

/// Every node that `headers_of` lists is a heading.
pub proof fn lemma_headers_are_headers(n: MSTNode, i: int)
    requires
        0 <= i < headers_of(n).len(),
    ensures
        headers_of(n)[i].node_type is Header,
    decreases n, n.children@.len() + 1,
{
    let own: int = if n.node_type is Header {
        1
    } else {
        0
    };
    if i >= own {
        lemma_headers_upto_are_headers(n, n.children@.len() as int, i - own);
    }
}

proof fn lemma_headers_upto_are_headers(n: MSTNode, k: int, i: int)
    requires
        0 <= i < headers_upto(n, k).len(),
    ensures
        headers_upto(n, k)[i].node_type is Header,
    decreases n, k,
{
    if 0 < k <= n.children@.len() {
        let l = headers_upto(n, k - 1).len();
        if i < l {
            lemma_headers_upto_are_headers(n, k - 1, i);
        } else {
            lemma_headers_are_headers(n.children@[k - 1], i - l);
        }
    }
}

/// Number of bytes of `c` in UTF-8.
pub open spec fn utf8_width(c: char) -> int {
    if (c as u32) < 0x80 {
        1
    } else if (c as u32) < 0x800 {
        2
    } else if (c as u32) < 0x10000 {
        3
    } else {
        4
    }
}

/// Number of UTF-8 bytes of `s` from index `i` on.
pub open spec fn utf8_len_from(s: Seq<char>, i: int) -> int
    decreases s.len() - i,
{
    if 0 <= i < s.len() {
        utf8_width(s[i]) + utf8_len_from(s, i + 1)
    } else {
        0
    }
}

/// Number of characters, from index `i` on, that fit in `budget` bytes.
pub open spec fn chars_within(s: Seq<char>, i: int, budget: int) -> int
    decreases s.len() - i,
{
    if 0 <= i < s.len() && utf8_width(s[i]) <= budget {
        1 + chars_within(s, i + 1, budget - utf8_width(s[i]))
    } else {
        0
    }
}

/// A content line as the tree view shows it: when longer than 50 UTF-8
/// bytes, its first 47 bytes and `...`. Where byte 47 falls inside a
/// character, the cut is made before that character.
pub open spec fn preview(c: Seq<char>) -> Seq<char> {
    if utf8_len_from(c, 0) > 50 {
        c.subrange(0, chars_within(c, 0, 47)) + "..."@
    } else {
        c
    }
}

proof fn lemma_utf8_len_nonneg(s: Seq<char>, i: int)
    ensures
        utf8_len_from(s, i) >= 0,
    decreases s.len() - i,
{
    if 0 <= i < s.len() {
        lemma_utf8_len_nonneg(s, i + 1);
    }
}

proof fn lemma_chars_within_bounds(s: Seq<char>, i: int, budget: int)
    requires
        0 <= i <= s.len(),
    ensures
        0 <= chars_within(s, i, budget) <= s.len() - i,
    decreases s.len() - i,
{
    if i < s.len() && utf8_width(s[i]) <= budget {
        lemma_chars_within_bounds(s, i + 1, budget - utf8_width(s[i]));
    }
}

fn utf8_width_exec(c: char) -> (r: usize)
    ensures
        r == utf8_width(c),
{
    let u = c as u32;
    if u < 0x80 {
        1
    } else if u < 0x800 {
        2
    } else if u < 0x10000 {
        3
    } else {
        4
    }
}

/// The preview of a content line, as [`preview`] states it.
fn preview_exec(v: &Vec<char>) -> (r: Vec<char>)
    ensures
        r@ == preview(v@),
{
    let mut bytes: usize = 0;
    let mut i: usize = 0;
    while i < v.len() && bytes <= 50
        invariant
            i <= v@.len(),
            bytes <= 54,
            utf8_len_from(v@, 0) == bytes + utf8_len_from(v@, i as int),
        decreases v@.len() - i,
    {
        bytes = bytes + utf8_width_exec(v[i]);
        i = i + 1;
    }
    proof {
        lemma_utf8_len_nonneg(v@, i as int);
    }
    if bytes <= 50 {
        return slice_chars(v, 0, v.len());
    }
    let mut budget: usize = 47;
    let mut k: usize = 0;
    while k < v.len() && utf8_width_exec(v[k]) <= budget
        invariant
            k <= v@.len(),
            budget <= 47,
            chars_within(v@, 0, 47) == k + chars_within(v@, k as int, budget as int),
        decreases v@.len() - k,
    {
        budget = budget - utf8_width_exec(v[k]);
        k = k + 1;
    }
    let mut out = slice_chars(v, 0, k);
    push_all(&mut out, &chars_of("..."));
    out
}

/// What the tree view shows for a node itself.
pub open spec fn own_view(n: MSTNode) -> Seq<char> {
    match n.node_type {
        NodeType::Root => "Root"@,
        NodeType::Header(level) => "H"@ + dec(level as int) + ": "@ + (if n.title is Some {
            n.title->0@
        } else {
            seq![]
        }) + (if n.numbering is Some {
            " ["@ + n.numbering->0.formatted@ + "]"@
        } else {
            seq![]
        }),
        NodeType::Content(c) => "Content: "@ + preview(c@),
        NodeType::Image(info) => "Image: "@ + (if info.local_path is Some {
            info.local_path->0@
        } else {
            info.original_url@
        }) + " (alt: "@ + info.alt_text@ + ")"@,
    }
}

/// The tree view: one line per node in pre-order, each indented by two
/// spaces per level of depth below the node first shown at `prefix`.
pub open spec fn tree_view(n: MSTNode, prefix: Seq<char>) -> Seq<char>
    decreases n, n.children@.len() + 1,
{
    prefix + own_view(n) + seq!['\n'] + tree_view_upto(
        n,
        n.children@.len() as int,
        prefix + seq![' ', ' '],
    )
}

/// The tree views of the first `k` children of `n`.
pub open spec fn tree_view_upto(n: MSTNode, k: int, prefix: Seq<char>) -> Seq<char>
    decreases n, k,
{
    if k <= 0 || k > n.children@.len() {
        seq![]
    } else {
        tree_view_upto(n, k - 1, prefix) + tree_view(n.children@[k - 1], prefix)
    }
}

/// Depths of the nodes of the tree rooted at `n` but the root, in pre-order,
/// `n` itself being at depth `d` (children of the root are at depth 1).
pub open spec fn depths_of(n: MSTNode, d: int) -> Seq<int>
    decreases n, n.children@.len() + 1,
{
    let own = if n.node_type is Root {
        seq![]
    } else {
        seq![d]
    };
    own + depths_upto(n, n.children@.len() as int, d + 1)
}

/// Depths of the subtrees of the first `k` children of `n`, the children
/// being at depth `d`.
pub open spec fn depths_upto(n: MSTNode, k: int, d: int) -> Seq<int>
    decreases n, k,
{
    if k <= 0 || k > n.children@.len() {
        seq![]
    } else {
        depths_upto(n, k - 1, d) + depths_of(n.children@[k - 1], d)
    }
}

proof fn lemma_depths_upto_same(a: MSTNode, b: MSTNode, k: int, d: int)
    requires
        0 <= k <= a.children@.len(),
        k <= b.children@.len(),
        forall|i: int| 0 <= i < k ==> a.children@[i] == b.children@[i],
    ensures
        depths_upto(a, k, d) == depths_upto(b, k, d),
    decreases k,
{
    if k > 0 {
        lemma_depths_upto_same(a, b, k - 1, d);
    }
}

/// Appending a child appends the child's depths, one level below the node.
pub proof fn lemma_depths_push(a: MSTNode, b: MSTNode, c: MSTNode, d: int)
    requires
        b.node_type == a.node_type,
        b.children@ == a.children@.push(c),
    ensures
        depths_of(b, d) == depths_of(a, d) + depths_of(c, d + 1),
{
    let k = a.children@.len() as int;
    lemma_depths_upto_same(a, b, k, d + 1);
    assert(depths_of(b, d) =~= depths_of(a, d) + depths_of(c, d + 1));
}

impl MSTNode {
    pub fn new_root() -> (r: Self)
        ensures
            r.node_type is Root,
            r.title is None,
            r.raw_line@ == Seq::<char>::empty(),
            r.line_number == 0,
            r.children@.len() == 0,
            r.numbering is None,
    {
        MSTNode {
            node_type: NodeType::Root,
            title: None,
            raw_line: String::new(),
            line_number: 0,
            children: Vec::new(),
            numbering: None,
        }
    }

    pub fn new_header(level: usize, title: String, raw_line: String, line_number: usize) -> (r:
        Self)
        ensures
            r.node_type == NodeType::Header(level),
            r.title == Some(title),
            r.raw_line == raw_line,
            r.line_number == line_number,
            r.children@.len() == 0,
            r.numbering is None,
    {
        MSTNode {
            node_type: NodeType::Header(level),
            title: Some(title),
            raw_line,
            line_number,
            children: Vec::new(),
            numbering: None,
        }
    }

    pub fn new_content(content: String, line_number: usize) -> (r: Self)
        ensures
            r.node_type is Content,
            r.node_type->Content_0@ == content@,
            r.title is None,
            r.raw_line == content,
            r.line_number == line_number,
            r.children@.len() == 0,
            r.numbering is None,
    {
        let text = content.clone();
        MSTNode {
            node_type: NodeType::Content(text),
            title: None,
            raw_line: content,
            line_number,
            children: Vec::new(),
            numbering: None,
        }
    }

    pub fn new_image(image_info: ImageInfo, raw_line: String, line_number: usize) -> (r: Self)
        ensures
            r.node_type == NodeType::Image(image_info),
            r.title is None,
            r.raw_line == raw_line,
            r.line_number == line_number,
            r.children@.len() == 0,
            r.numbering is None,
    {
        MSTNode {
            node_type: NodeType::Image(image_info),
            title: None,
            raw_line,
            line_number,
            children: Vec::new(),
            numbering: None,
        }
    }

    pub fn header_level(&self) -> (r: Option<usize>)
        ensures
            r == (match self.node_type {
                NodeType::Header(level) => Some(level),
                _ => None,
            }),
    {
        match self.node_type {
            NodeType::Header(level) => Some(level),
            _ => None,
        }
    }

    pub fn is_header(&self) -> (r: bool)
        ensures
            r == self.node_type is Header,
    {
        matches!(self.node_type, NodeType::Header(_))
    }

    pub fn is_content(&self) -> (r: bool)
        ensures
            r == self.node_type is Content,
    {
        matches!(self.node_type, NodeType::Content(_))
    }

    pub fn is_image(&self) -> (r: bool)
        ensures
            r == self.node_type is Image,
    {
        matches!(self.node_type, NodeType::Image(_))
    }

    pub fn get_image_info(&self) -> (r: Option<&ImageInfo>)
        ensures
            r == (match self.node_type {
                NodeType::Image(info) => Some(&info),
                _ => None,
            }),
    {
        match &self.node_type {
            NodeType::Image(info) => Some(info),
            _ => None,
        }
    }

    pub fn get_image_info_mut(&mut self) -> (r: Option<&mut ImageInfo>)
        ensures
            (old(self).node_type is Image) <==> r is Some,
            r is Some ==> *r->0 == old(self).node_type->Image_0,
            r is Some ==> final(self).node_type == NodeType::Image(*final(r->0)),
            r is None ==> *final(self) == *old(self),
            final(self).title == old(self).title,
            final(self).raw_line == old(self).raw_line,
            final(self).line_number == old(self).line_number,
            final(self).children == old(self).children,
            final(self).numbering == old(self).numbering,
    {
        match &mut self.node_type {
            NodeType::Image(info) => Some(info),
            _ => None,
        }
    }

    /// Calls `callback` on every node of the tree, in pre-order.
    pub fn walk<F: FnMut(&MSTNode)>(&self, callback: &mut F)
        requires
            forall|f: F, n: &MSTNode| call_requires(f, (n,)),
        decreases *self,
    {
        callback(self);
        let mut i: usize = 0;
        while i < self.children.len()
            invariant
                forall|f: F, n: &MSTNode| call_requires(f, (n,)),
            decreases self.children@.len() - i,
        {
            self.children[i].walk(callback);
            i = i + 1;
        }
    }

    /// Calls `callback` on every node of the tree, in pre-order; the callback
    /// may change a node but not the children it holds.
    pub fn walk_mut<F: FnMut(&mut MSTNode)>(&mut self, callback: &mut F)
        requires
            forall|f: F, n: &mut MSTNode| call_requires(f, (n,)),
            forall|f: F, n: &mut MSTNode, r: ()| #[trigger]
                call_ensures(f, (n,), r) ==> mut_ref_future(n).children == mut_ref_current(
                    n,
                ).children,
        ensures
            final(self).children@.len() == old(self).children@.len(),
        decreases *old(self),
    {
        callback(self);
        let ghost start = *old(self);
        let ghost kids = self.children@;
        assert(kids == start.children@);
        let mut i: usize = 0;
        while i < self.children.len()
            invariant
                start == *old(self),
                kids == start.children@,
                forall|f: F, n: &mut MSTNode| call_requires(f, (n,)),
                forall|f: F, n: &mut MSTNode, r: ()| #[trigger]
                    call_ensures(f, (n,), r) ==> mut_ref_future(n).children == mut_ref_current(
                        n,
                    ).children,
                self.children@.len() == kids.len(),
                forall|j: int| i <= j < self.children@.len() ==> self.children@[j] == kids[j],
            decreases self.children@.len() - i,
        {
            proof {
                vstd::std_specs::vec::axiom_vec_index_decreases(start.children, i as int);
                assert(decreases_to!(start => start.children));
            }
            self.children[i].walk_mut(callback);
            i = i + 1;
        }
    }

    /// Calls `f` on every heading of the tree, in pre-order; `f` may change a
    /// heading but not the children it holds.
    pub fn apply_to_headers<F: FnMut(&mut MSTNode)>(&mut self, f: &mut F)
        requires
            forall|g: F, n: &mut MSTNode| call_requires(g, (n,)),
            forall|g: F, n: &mut MSTNode, r: ()| #[trigger]
                call_ensures(g, (n,), r) ==> mut_ref_future(n).children == mut_ref_current(
                    n,
                ).children,
        ensures
            final(self).children@.len() == old(self).children@.len(),
        decreases *old(self),
    {
        if self.is_header() {
            f(self);
        }
        let ghost start = *old(self);
        let ghost kids = self.children@;
        assert(kids == start.children@);
        let mut i: usize = 0;
        while i < self.children.len()
            invariant
                start == *old(self),
                kids == start.children@,
                forall|g: F, n: &mut MSTNode| call_requires(g, (n,)),
                forall|g: F, n: &mut MSTNode, r: ()| #[trigger]
                    call_ensures(g, (n,), r) ==> mut_ref_future(n).children == mut_ref_current(
                        n,
                    ).children,
                self.children@.len() == kids.len(),
                forall|j: int| i <= j < self.children@.len() ==> self.children@[j] == kids[j],
            decreases self.children@.len() - i,
        {
            proof {
                vstd::std_specs::vec::axiom_vec_index_decreases(start.children, i as int);
                assert(decreases_to!(start => start.children));
            }
            self.children[i].apply_to_headers(f);
            i = i + 1;
        }
    }

    /// The tree view of the whole tree.
    pub fn to_string(&self) -> (r: String)
        ensures
            r@ == tree_view(*self, seq![]),
    {
        let mut out: Vec<char> = Vec::new();
        let prefix: Vec<char> = Vec::new();
        self.fmt_with_indent(&prefix, &mut out);
        assert(out@ =~= tree_view(*self, seq![]));
        string_of(out)
    }

    fn push_own_view(&self, out: &mut Vec<char>)
        ensures
            final(out)@ == old(out)@ + own_view(*self),
    {
        match &self.node_type {
            NodeType::Root => {
                push_all(out, &chars_of("Root"));
            },
            NodeType::Header(level) => {
                push_all(out, &chars_of("H"));
                push_decimal(out, *level);
                push_all(out, &chars_of(": "));
                match &self.title {
                    Some(t) => push_all(out, &chars_of(t.as_str())),
                    None => {},
                }
                match &self.numbering {
                    Some(n) => {
                        push_all(out, &chars_of(" ["));
                        push_all(out, &chars_of(n.formatted.as_str()));
                        push_all(out, &chars_of("]"));
                    },
                    None => {},
                }
            },
            NodeType::Content(c) => {
                push_all(out, &chars_of("Content: "));
                let v = chars_of(c.as_str());
                push_all(out, &preview_exec(&v));
            },
            NodeType::Image(info) => {
                push_all(out, &chars_of("Image: "));
                match &info.local_path {
                    Some(p) => push_all(out, &chars_of(p.as_str())),
                    None => push_all(out, &chars_of(info.original_url.as_str())),
                }
                push_all(out, &chars_of(" (alt: "));
                push_all(out, &chars_of(info.alt_text.as_str()));
                push_all(out, &chars_of(")"));
            },
        }
        assert(out@ =~= old(out)@ + own_view(*self));
    }

    fn fmt_with_indent(&self, prefix: &Vec<char>, out: &mut Vec<char>)
        ensures
            final(out)@ == old(out)@ + tree_view(*self, prefix@),
        decreases *self,
    {
        push_all(out, prefix);
        self.push_own_view(out);
        out.push('\n');
        let mut inner: Vec<char> = slice_chars(prefix, 0, prefix.len());
        inner.push(' ');
        inner.push(' ');
        assert(inner@ =~= prefix@ + seq![' ', ' ']);
        let ghost start = out@;
        assert(start =~= old(out)@ + (prefix@ + own_view(*self) + seq!['\n']));
        let mut k: usize = 0;
        while k < self.children.len()
            invariant
                k <= self.children@.len(),
                inner@ == prefix@ + seq![' ', ' '],
                start == old(out)@ + (prefix@ + own_view(*self) + seq!['\n']),
                out@ == start + tree_view_upto(*self, k as int, inner@),
            decreases self.children@.len() - k,
        {
            self.children[k].fmt_with_indent(&inner, out);
            assert(out@ =~= start + tree_view_upto(*self, k + 1, inner@));
            k = k + 1;
        }
        assert(out@ =~= old(out)@ + tree_view(*self, prefix@));
    }

    pub fn add_child(&mut self, child: MSTNode)
        ensures
            final(self).node_type == old(self).node_type,
            final(self).title == old(self).title,
            final(self).raw_line == old(self).raw_line,
            final(self).line_number == old(self).line_number,
            final(self).numbering == old(self).numbering,
            final(self).children@ == old(self).children@.push(child),
    {
        self.children.push(child);
    }

    /// Heading nodes of the tree, in document order.
    pub fn get_headers(&self) -> (r: Vec<&MSTNode>)
        ensures
            r@.len() == headers_of(*self).len(),
            forall|i: int| 0 <= i < r@.len() ==> *r@[i] == headers_of(*self)[i],
    {
        let mut headers: Vec<&MSTNode> = Vec::new();
        self.collect_headers(&mut headers);
        headers
    }

    fn collect_headers<'a>(&'a self, headers: &mut Vec<&'a MSTNode>)
        ensures
            final(headers)@.len() == old(headers)@.len() + headers_of(*self).len(),
            forall|i: int|
                0 <= i < old(headers)@.len() ==> final(headers)@[i] == old(headers)@[i],
            forall|i: int|
                0 <= i < headers_of(*self).len() ==> *final(headers)@[old(headers)@.len() + i]
                    == headers_of(*self)[i],
        decreases *self,
    {
        if self.is_header() {
            headers.push(self);
        }
        let ghost start = headers@.len();
        let mut k: usize = 0;
        while k < self.children.len()
            invariant
                k <= self.children@.len(),
                start == old(headers)@.len() + (if self.node_type is Header {
                    1int
                } else {
                    0int
                }),
                headers@.len() == start + headers_upto(*self, k as int).len(),
                forall|i: int| 0 <= i < start ==> headers@[i] == (if i < old(headers)@.len() {
                    old(headers)@[i]
                } else {
                    self
                }),
                forall|i: int|
                    0 <= i < headers_upto(*self, k as int).len() ==> *headers@[start + i]
                        == headers_upto(*self, k as int)[i],
            decreases self.children@.len() - k,
        {
            self.children[k].collect_headers(headers);
            k = k + 1;
        }
    }
}

} // verus!
