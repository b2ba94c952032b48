//! Hierarchical numbering of the headings of a document tree.

use vstd::prelude::*;
use crate::mst::{
    headers_of, headers_upto, lemma_headers_upto_same, levels_ok, MSTNode, NodeType, NumberingConfig,
    NumberingInfo,
};
use crate::text::string_of;

verus! {

/// The values of a vector of counters, as integers.
pub open spec fn ints(v: Seq<usize>) -> Seq<int> {
    v.map_values(|x: usize| x as int)
}

/// Levels of the headings of a tree, in document order.
pub open spec fn levels_of(n: MSTNode) -> Seq<int> {
    headers_of(n).map_values(|h: MSTNode| h.node_type->Header_0 as int)
}

/// A level-1 heading that the configuration leaves unnumbered.
pub open spec fn is_skipped(level: int, cfg: NumberingConfig) -> bool {
    cfg.ignore_h1 && level == 1
}

/// The level a heading is numbered at.
pub open spec fn effective_level(level: int, cfg: NumberingConfig) -> int {
    if cfg.ignore_h1 && level > 1 {
        level - 1
    } else {
        level
    }
}

/// The six counters after one heading: its counter goes up by one and every
/// deeper counter restarts at zero.
pub open spec fn step(c: Seq<int>, level: int, cfg: NumberingConfig) -> Seq<int> {
    if is_skipped(level, cfg) {
        c
    } else {
        let e = effective_level(level, cfg);
        Seq::new(
            6,
            |i: int|
                if i < e - 1 {
                    c[i]
                } else if i == e - 1 {
                    c[i] + 1
                } else {
                    0
                },
        )
    }
}

/// The six counters after the headings of the given levels.
pub open spec fn counters_after(levels: Seq<int>, cfg: NumberingConfig) -> Seq<int>
    decreases levels.len(),
{
    if levels.len() == 0 {
        Seq::new(6, |i: int| 0)
    } else {
        step(counters_after(levels.drop_last(), cfg), levels.last(), cfg)
    }
}

/// The counters of `s` that are not zero, in order.
pub open spec fn nonzero(s: Seq<int>) -> Seq<int>
    decreases s.len(),
{
    if s.len() == 0 {
        seq![]
    } else if s.last() > 0 {
        nonzero(s.drop_last()).push(s.last())
    } else {
        nonzero(s.drop_last())
    }
}

pub open spec fn digit_char(d: int) -> char {
    if d == 0 {
        '0'
    } else if d == 1 {
        '1'
    } else if d == 2 {
        '2'
    } else if d == 3 {
        '3'
    } else if d == 4 {
        '4'
    } else if d == 5 {
        '5'
    } else if d == 6 {
        '6'
    } else if d == 7 {
        '7'
    } else if d == 8 {
        '8'
    } else {
        '9'
    }
}

/// Decimal digits of a natural number.
pub open spec fn dec(n: int) -> Seq<char>
    decreases n,
{
    if n < 10 {
        seq![digit_char(n)]
    } else {
        dec(n / 10).push(digit_char(n % 10))
    }
}

/// The CJK numeral for a digit from 1 to 9.
pub open spec fn cjk_digit(d: int) -> char {
    if d == 1 {
        '一'
    } else if d == 2 {
        '二'
    } else if d == 3 {
        '三'
    } else if d == 4 {
        '四'
    } else if d == 5 {
        '五'
    } else if d == 6 {
        '六'
    } else if d == 7 {
        '七'
    } else if d == 8 {
        '八'
    } else {
        '九'
    }
}

/// The CJK ordinal of `n` from 0 to 99; from 100 on, its decimal digits.
pub open spec fn ordinal(n: int) -> Seq<char> {
    if n == 0 {
        seq!['零']
    } else if n < 10 {
        seq![cjk_digit(n)]
    } else if n < 100 {
        let tens = n / 10;
        let ones = n % 10;
        let head = if tens == 1 {
            seq!['十']
        } else {
            seq![cjk_digit(tens), '十']
        };
        if ones == 0 {
            head
        } else {
            head.push(cjk_digit(ones))
        }
    } else {
        dec(n)
    }
}

/// `p[0].p[1]...p[n]` in decimal.
pub open spec fn dotted(p: Seq<int>) -> Seq<char>
    decreases p.len(),
{
    if p.len() == 0 {
        seq![]
    } else if p.len() == 1 {
        dec(p[0])
    } else {
        dotted(p.drop_last()) + seq!['.'] + dec(p.last())
    }
}

/// `ord(p[0])、ord(p[1])、...ord(p[n])、`
pub open spec fn ordinals(p: Seq<int>) -> Seq<char>
    decreases p.len(),
{
    if p.len() == 0 {
        seq![]
    } else {
        ordinals(p.drop_last()) + ordinal(p.last()) + seq!['、']
    }
}

/// The label of a counter path under a configuration.
pub open spec fn format_label(p: Seq<int>, cfg: NumberingConfig) -> Seq<char> {
    if p.len() == 0 {
        seq![]
    } else if cfg.use_chinese_number && cfg.use_arabic_number_for_sublevel {
        if p.len() == 1 {
            ordinal(p[0]) + seq!['、']
        } else {
            dotted(p.drop_first()) + seq!['.', ' ']
        }
    } else if cfg.use_chinese_number {
        ordinals(p)
    } else {
        dotted(p) + seq!['.', ' ']
    }
}

/// The counter path of the heading at index `k` of a sequence of levels.
pub open spec fn path_at(levels: Seq<int>, k: int, cfg: NumberingConfig) -> Seq<int> {
    let c = counters_after(levels.subrange(0, k + 1), cfg);
    nonzero(c.subrange(0, effective_level(levels[k], cfg)))
}

/// The numbering `info` agrees with what the heading at index `k` gets.
pub open spec fn numbered_as(
    info: Option<NumberingInfo>,
    levels: Seq<int>,
    k: int,
    cfg: NumberingConfig,
) -> bool {
    if is_skipped(levels[k], cfg) {
        info is None
    } else {
        info is Some && ints(info->0.path@) == path_at(levels, k, cfg) && info->0.formatted@
            == format_label(path_at(levels, k, cfg), cfg)
    }
}

/// `a` and `b` are the same tree but for the numbering of their headings:
/// the root, content and image nodes keep theirs.
pub open spec fn same_but_numbering(a: MSTNode, b: MSTNode) -> bool
    decreases a, a.children@.len() + 1,
{
    &&& a.node_type == b.node_type
    &&& !(a.node_type is Header) ==> b.numbering == a.numbering
    &&& a.title == b.title
    &&& a.raw_line == b.raw_line
    &&& a.line_number == b.line_number
    &&& a.children@.len() == b.children@.len()
    &&& children_same_upto(a, b, a.children@.len() as int)
}

pub open spec fn children_same_upto(a: MSTNode, b: MSTNode, k: int) -> bool
    decreases a, k,
{
    if k <= 0 || k > a.children@.len() || k > b.children@.len() {
        true
    } else {
        children_same_upto(a, b, k - 1) && same_but_numbering(a.children@[k - 1], b.children@[k - 1])
    }
}

/// Levels of the headings of the first `k` children of `n`.
pub open spec fn levels_upto(n: MSTNode, k: int) -> Seq<int> {
    headers_upto(n, k).map_values(|h: MSTNode| h.node_type->Header_0 as int)
}

/// After a numbered heading at effective level `e`, every counter deeper than
/// `e` is zero, the counter at `e` is one more than just before the heading,
/// and the shallower counters are kept.
pub proof fn lemma_counter_reset(levels: Seq<int>, level: int, cfg: NumberingConfig)
    requires
        1 <= level <= 6,
        !is_skipped(level, cfg),
    ensures
        ({
            let before = counters_after(levels, cfg);
            let after = counters_after(levels.push(level), cfg);
            let e = effective_level(level, cfg);
            &&& after.len() == 6
            &&& forall|i: int| e <= i < 6 ==> after[i] == 0
            &&& after[e - 1] == before[e - 1] + 1
            &&& forall|i: int| 0 <= i < e - 1 ==> after[i] == before[i]
        }),
{
    assert(levels.push(level).drop_last() =~= levels);
}

/// A heading the configuration leaves unnumbered does not move the counters.
pub proof fn lemma_skipped_keeps_counters(levels: Seq<int>, cfg: NumberingConfig)
    requires
        cfg.ignore_h1,
    ensures
        counters_after(levels.push(1), cfg) == counters_after(levels, cfg),
{
    assert(levels.push(1).drop_last() =~= levels);
}

/// `a` and `b` list headings of the same kinds and levels, in the same order.
pub open spec fn same_kinds(a: Seq<MSTNode>, b: Seq<MSTNode>) -> bool {
    a.len() == b.len() && forall|i: int| 0 <= i < a.len() ==> (#[trigger] a[i]).node_type
        == b[i].node_type
}

proof fn lemma_same_symmetric(a: MSTNode, b: MSTNode)
    requires
        same_but_numbering(a, b),
    ensures
        same_but_numbering(b, a),
    decreases a, a.children@.len() + 1,
{
    lemma_same_symmetric_upto(a, b, a.children@.len() as int);
}

proof fn lemma_same_symmetric_upto(a: MSTNode, b: MSTNode, k: int)
    requires
        0 <= k <= a.children@.len(),
        a.children@.len() == b.children@.len(),
        children_same_upto(a, b, k),
    ensures
        children_same_upto(b, a, k),
    decreases a, k,
{
    if k > 0 {
        lemma_same_symmetric_upto(a, b, k - 1);
        lemma_same_symmetric(a.children@[k - 1], b.children@[k - 1]);
    }
}

proof fn lemma_same_transitive(a: MSTNode, b: MSTNode, c: MSTNode)
    requires
        same_but_numbering(a, b),
        same_but_numbering(b, c),
    ensures
        same_but_numbering(a, c),
    decreases a, a.children@.len() + 1,
{
    lemma_same_transitive_upto(a, b, c, a.children@.len() as int);
}

proof fn lemma_same_transitive_upto(a: MSTNode, b: MSTNode, c: MSTNode, k: int)
    requires
        0 <= k <= a.children@.len(),
        a.children@.len() == b.children@.len(),
        b.children@.len() == c.children@.len(),
        children_same_upto(a, b, k),
        children_same_upto(b, c, k),
    ensures
        children_same_upto(a, c, k),
    decreases a, k,
{
    if k > 0 {
        lemma_same_transitive_upto(a, b, c, k - 1);
        lemma_same_transitive(a.children@[k - 1], b.children@[k - 1], c.children@[k - 1]);
    }
}

proof fn lemma_same_kinds(a: MSTNode, b: MSTNode)
    requires
        same_but_numbering(a, b),
    ensures
        same_kinds(headers_of(a), headers_of(b)),
    decreases a, a.children@.len() + 1,
{
    let len = a.children@.len() as int;
    lemma_same_kinds_upto(a, b, len);
    let own: int = if a.node_type is Header {
        1
    } else {
        0
    };
    assert forall|i: int| 0 <= i < headers_of(a).len() implies (#[trigger] headers_of(
        a,
    )[i]).node_type == headers_of(b)[i].node_type by {
        if i >= own {
            assert(headers_of(a)[i] == headers_upto(a, len)[i - own]);
            assert(headers_of(b)[i] == headers_upto(b, len)[i - own]);
        }
    }
}

proof fn lemma_same_kinds_upto(a: MSTNode, b: MSTNode, k: int)
    requires
        0 <= k <= a.children@.len(),
        a.children@.len() == b.children@.len(),
        children_same_upto(a, b, k),
    ensures
        same_kinds(headers_upto(a, k), headers_upto(b, k)),
    decreases a, k,
{
    if k > 0 {
        lemma_same_kinds_upto(a, b, k - 1);
        lemma_same_kinds(a.children@[k - 1], b.children@[k - 1]);
        let l = headers_upto(a, k - 1).len();
        assert forall|i: int| 0 <= i < headers_upto(a, k).len() implies (#[trigger] headers_upto(
            a,
            k,
        )[i]).node_type == headers_upto(b, k)[i].node_type by {
            if i < l {
                assert(headers_upto(a, k)[i] == headers_upto(a, k - 1)[i]);
                assert(headers_upto(b, k)[i] == headers_upto(b, k - 1)[i]);
            } else {
                assert(headers_upto(a, k)[i] == headers_of(a.children@[k - 1])[i - l]);
                assert(headers_upto(b, k)[i] == headers_of(b.children@[k - 1])[i - l]);
            }
        }
    }
}

/// Numbering depends on the tree's shape, its heading levels and the
/// configuration alone: from two trees that differ only in numbering,
/// `generate_numbering` gives trees that agree everywhere, numbering views
/// included. In particular, numbering a tree that `generate_numbering` has
/// just numbered, under the same configuration, changes nothing.
pub proof fn lemma_numbering_determined(
    o1: MSTNode,
    f1: MSTNode,
    o2: MSTNode,
    f2: MSTNode,
    cfg: NumberingConfig,
)
    requires
        same_but_numbering(o1, o2),
        same_but_numbering(o1, f1),
        same_but_numbering(o2, f2),
        forall|k: int|
            0 <= k < headers_of(f1).len() ==> numbered_as(
                (#[trigger] headers_of(f1)[k]).numbering,
                levels_of(o1),
                k,
                cfg,
            ),
        forall|k: int|
            0 <= k < headers_of(f2).len() ==> numbered_as(
                (#[trigger] headers_of(f2)[k]).numbering,
                levels_of(o2),
                k,
                cfg,
            ),
    ensures
        same_but_numbering(f1, f2),
        headers_of(f1).len() == headers_of(f2).len(),
        forall|k: int|
            0 <= k < headers_of(f1).len() ==> {
                let x = (#[trigger] headers_of(f1)[k]).numbering;
                let y = headers_of(f2)[k].numbering;
                &&& (x is Some <==> y is Some)
                &&& x is Some ==> ints(x->0.path@) == ints(y->0.path@) && x->0.formatted@
                    == y->0.formatted@
            },
{
    lemma_same_symmetric(o1, f1);
    lemma_same_transitive(f1, o1, o2);
    lemma_same_transitive(f1, o2, f2);
    lemma_same_kinds(o1, o2);
    lemma_same_kinds(o1, f1);
    lemma_same_kinds(o2, f2);
    assert(levels_of(o1) =~= levels_of(o2)) by {
        assert forall|k: int| 0 <= k < levels_of(o1).len() implies levels_of(o1)[k] == levels_of(
            o2,
        )[k] by {
            assert(headers_of(o1)[k].node_type == headers_of(o2)[k].node_type);
        }
    }
    assert forall|k: int| 0 <= k < headers_of(f1).len() implies {
        let x = (#[trigger] headers_of(f1)[k]).numbering;
        let y = headers_of(f2)[k].numbering;
        &&& (x is Some <==> y is Some)
        &&& x is Some ==> ints(x->0.path@) == ints(y->0.path@) && x->0.formatted@
            == y->0.formatted@
    } by {
        assert(numbered_as(headers_of(f2)[k].numbering, levels_of(o2), k, cfg));
    }
}

proof fn lemma_nonzero_zeros(x: Seq<int>, z: Seq<int>)
    requires
        forall|i: int| 0 <= i < z.len() ==> z[i] == 0,
    ensures
        nonzero(x + z) == nonzero(x),
    decreases z.len(),
{
    if z.len() > 0 {
        assert((x + z).drop_last() =~= x + z.drop_last());
        assert((x + z).last() == z.last());
        lemma_nonzero_zeros(x, z.drop_last());
    } else {
        assert(x + z =~= x);
    }
}

/// A numbered heading more deeply nested than the numbered heading just
/// before it gets that heading's path with a 1 appended: every counter
/// deeper than the earlier heading was reset, and the zero ones are skipped.
pub proof fn lemma_deeper_step_appends_one(levels: Seq<int>, k: int, cfg: NumberingConfig)
    requires
        0 < k < levels.len(),
        1 <= levels[k - 1] <= 6,
        1 <= levels[k] <= 6,
        !is_skipped(levels[k - 1], cfg),
        !is_skipped(levels[k], cfg),
        effective_level(levels[k], cfg) > effective_level(levels[k - 1], cfg),
    ensures
        path_at(levels, k, cfg) == path_at(levels, k - 1, cfg).push(1),
{
    let e0 = effective_level(levels[k - 1], cfg);
    let e1 = effective_level(levels[k], cfg);
    let before = counters_after(levels.subrange(0, k - 1), cfg);
    let c0 = counters_after(levels.subrange(0, k), cfg);
    let c1 = counters_after(levels.subrange(0, k + 1), cfg);
    lemma_counters_bound(levels.subrange(0, k - 1), cfg);
    assert(levels.subrange(0, k).drop_last() =~= levels.subrange(0, k - 1));
    assert(levels.subrange(0, k + 1).drop_last() =~= levels.subrange(0, k));
    assert(c0 == step(before, levels[k - 1], cfg));
    assert(c1 == step(c0, levels[k], cfg));
    let x = c0.subrange(0, e0);
    let z = Seq::new((e1 - 1 - e0) as nat, |i: int| 0int);
    assert(c1.subrange(0, e1) =~= (x + z).push(1));
    lemma_nonzero_zeros(x, z);
    assert((x + z).push(1).drop_last() =~= x + z);
}

proof fn lemma_counters_bound(levels: Seq<int>, cfg: NumberingConfig)
    ensures
        counters_after(levels, cfg).len() == 6,
        forall|i: int| 0 <= i < 6 ==> 0 <= #[trigger] counters_after(levels, cfg)[i] <= levels.len(),
    decreases levels.len(),
{
    if levels.len() > 0 {
        lemma_counters_bound(levels.drop_last(), cfg);
    }
}

/// Whether a heading is numbered, and how, depends only on the headings up to it.
proof fn lemma_numbered_prefix(
    info: Option<NumberingInfo>,
    a: Seq<int>,
    b: Seq<int>,
    k: int,
    cfg: NumberingConfig,
)
    requires
        0 <= k < a.len(),
        k < b.len(),
        a.subrange(0, k + 1) == b.subrange(0, k + 1),
    ensures
        numbered_as(info, a, k, cfg) == numbered_as(info, b, k, cfg),
{
    assert(a[k] == a.subrange(0, k + 1)[k]);
    assert(b[k] == b.subrange(0, k + 1)[k]);
}

proof fn lemma_children_same_prefix(a: MSTNode, b: MSTNode, b2: MSTNode, k: int)
    requires
        0 <= k <= a.children@.len(),
        k <= b.children@.len(),
        k <= b2.children@.len(),
        forall|j: int| 0 <= j < k ==> b.children@[j] == b2.children@[j],
        children_same_upto(a, b, k),
    ensures
        children_same_upto(a, b2, k),
    decreases k,
{
    if k > 0 {
        lemma_children_same_prefix(a, b, b2, k - 1);
    }
}

proof fn lemma_upto_prefix(n: MSTNode, k1: int, k2: int)
    requires
        0 <= k1 <= k2 <= n.children@.len(),
    ensures
        headers_upto(n, k1).len() <= headers_upto(n, k2).len(),
        headers_upto(n, k2).subrange(0, headers_upto(n, k1).len() as int) == headers_upto(n, k1),
    decreases k2,
{
    if k1 < k2 {
        lemma_upto_prefix(n, k1, k2 - 1);
        assert(headers_upto(n, k2) == headers_upto(n, k2 - 1) + headers_of(n.children@[k2 - 1]));
        assert(headers_upto(n, k2).subrange(0, headers_upto(n, k1).len() as int)
            =~= headers_upto(n, k2 - 1).subrange(0, headers_upto(n, k1).len() as int));
    } else {
        assert(headers_upto(n, k2).subrange(0, headers_upto(n, k1).len() as int)
            =~= headers_upto(n, k1));
    }
}

/// 1 for a heading node, 0 for any other.
pub open spec fn own_count(n: MSTNode) -> int {
    if n.node_type is Header {
        1
    } else {
        0
    }
}

/// The headings of a child's subtree sit inside those of the parent.
proof fn lemma_child_headers(n: MSTNode, i: int)
    requires
        0 <= i < n.children@.len(),
    ensures
        own_count(n) + headers_upto(n, i).len() + headers_of(n.children@[i]).len()
            <= headers_of(n).len(),
        forall|t: int|
            0 <= t < headers_of(n.children@[i]).len() ==> headers_of(n.children@[i])[t]
                == #[trigger] headers_of(n)[own_count(n) + headers_upto(n, i).len() + t],
{
    let c = n.children@[i];
    let len = n.children@.len() as int;
    lemma_upto_prefix(n, i + 1, len);
    assert(headers_upto(n, i + 1) == headers_upto(n, i) + headers_of(c));
    let base = own_count(n) + headers_upto(n, i).len();
    assert forall|t: int| 0 <= t < headers_of(c).len() implies headers_of(c)[t] == #[trigger] headers_of(
        n,
    )[own_count(n) + headers_upto(n, i).len() + t] by {
        assert(headers_upto(n, i + 1)[headers_upto(n, i).len() + t] == headers_of(c)[t]);
        assert(headers_upto(n, len).subrange(0, headers_upto(n, i + 1).len() as int)[headers_upto(
            n,
            i,
        ).len() + t] == headers_upto(n, len)[headers_upto(n, i).len() + t]);
    }
}

fn digit_exec(d: usize) -> (c: char)
    requires
        d < 10,
    ensures
        c == digit_char(d as int),
{
    if d == 0 {
        '0'
    } else if d == 1 {
        '1'
    } else if d == 2 {
        '2'
    } else if d == 3 {
        '3'
    } else if d == 4 {
        '4'
    } else if d == 5 {
        '5'
    } else if d == 6 {
        '6'
    } else if d == 7 {
        '7'
    } else if d == 8 {
        '8'
    } else {
        '9'
    }
}

fn cjk_digit_exec(d: usize) -> (c: char)
    requires
        1 <= d < 10,
    ensures
        c == cjk_digit(d as int),
{
    if d == 1 {
        '一'
    } else if d == 2 {
        '二'
    } else if d == 3 {
        '三'
    } else if d == 4 {
        '四'
    } else if d == 5 {
        '五'
    } else if d == 6 {
        '六'
    } else if d == 7 {
        '七'
    } else if d == 8 {
        '八'
    } else {
        '九'
    }
}

/// Appends the decimal digits of `n`.
pub fn push_decimal(out: &mut Vec<char>, n: usize)
    ensures
        final(out)@ == old(out)@ + dec(n as int),
    decreases n,
{
    if n >= 10 {
        push_decimal(out, n / 10);
    }
    out.push(digit_exec(n % 10));
    proof {
        if n >= 10 {
            assert(final(out)@ =~= old(out)@ + dec(n as int));
        } else {
            assert(final(out)@ =~= old(out)@ + dec(n as int));
        }
    }
}

fn push_ordinal(out: &mut Vec<char>, n: usize)
    ensures
        final(out)@ == old(out)@ + ordinal(n as int),
{
    if n == 0 {
        out.push('零');
    } else if n < 10 {
        out.push(cjk_digit_exec(n));
    } else if n < 100 {
        let tens = n / 10;
        let ones = n % 10;
        if tens == 1 {
            out.push('十');
        } else {
            out.push(cjk_digit_exec(tens));
            out.push('十');
        }
        if ones != 0 {
            out.push(cjk_digit_exec(ones));
        }
    } else {
        push_decimal(out, n);
        return ;
    }
    assert(final(out)@ =~= old(out)@ + ordinal(n as int));
}

/// The CJK ordinal of `num` for 0 to 99, its decimal digits from 100 on.
pub fn to_chinese_number(num: usize) -> (r: String)
    ensures
        r@ == ordinal(num as int),
{
    let mut out: Vec<char> = Vec::new();
    push_ordinal(&mut out, num);
    assert(out@ =~= ordinal(num as int));
    string_of(out)
}

/// Appends `p[from].p[from+1]...` in decimal.
fn push_dotted(out: &mut Vec<char>, p: &Vec<usize>, from: usize)
    requires
        from < p@.len(),
    ensures
        final(out)@ == old(out)@ + dotted(ints(p@).subrange(from as int, p@.len() as int)),
{
    let mut i: usize = from;
    let ghost base = out@;
    while i < p.len()
        invariant
            from <= i <= p@.len(),
            out@ == base + dotted(ints(p@).subrange(from as int, i as int)),
        decreases p@.len() - i,
    {
        let ghost before = ints(p@).subrange(from as int, i as int);
        let ghost after = ints(p@).subrange(from as int, i + 1);
        assert(after.drop_last() =~= before);
        if i > from {
            out.push('.');
        } else {
            assert(before =~= seq![]);
        }
        push_decimal(out, p[i]);
        assert(out@ =~= base + dotted(after));
        i = i + 1;
    }
}

/// Appends `ord(p[0])、ord(p[1])、...`.
fn push_ordinals(out: &mut Vec<char>, p: &Vec<usize>)
    ensures
        final(out)@ == old(out)@ + ordinals(ints(p@)),
{
    let mut i: usize = 0;
    let ghost base = out@;
    while i < p.len()
        invariant
            i <= p@.len(),
            out@ == base + ordinals(ints(p@).subrange(0, i as int)),
        decreases p@.len() - i,
    {
        let ghost after = ints(p@).subrange(0, i + 1);
        assert(after.drop_last() =~= ints(p@).subrange(0, i as int));
        push_ordinal(out, p[i]);
        out.push('、');
        assert(out@ =~= base + ordinals(after));
        i = i + 1;
    }
    assert(ints(p@).subrange(0, i as int) =~= ints(p@));
}

/// The generator of heading numbers under one configuration.
pub struct NumberingGenerator {
    config: NumberingConfig,
}

impl View for NumberingGenerator {
    type V = NumberingConfig;

    closed spec fn view(&self) -> NumberingConfig {
        self.config
    }
}

impl NumberingGenerator {
    pub fn new(config: NumberingConfig) -> (r: Self)
        ensures
            r@ == config,
    {
        NumberingGenerator { config }
    }

    /// Numbers every heading of the tree in document order; other fields and
    /// the shape of the tree are left as they are.
    pub fn generate_numbering(&self, mst: &mut MSTNode)
        requires
            levels_ok(*old(mst)),
            headers_of(*old(mst)).len() <= usize::MAX,
        ensures
            same_but_numbering(*old(mst), *final(mst)),
            headers_of(*final(mst)).len() == headers_of(*old(mst)).len(),
            forall|k: int|
                0 <= k < headers_of(*final(mst)).len() ==> numbered_as(
                    (#[trigger] headers_of(*final(mst))[k]).numbering,
                    levels_of(*old(mst)),
                    k,
                    self@,
                ),
    {
        let mut counters: Vec<usize> = vec![0, 0, 0, 0, 0, 0];
        assert(ints(counters@) =~= counters_after(Seq::<int>::empty(), self@));
        self.number_node(mst, &mut counters, Ghost(Seq::<int>::empty()));
        assert(Seq::<int>::empty() + levels_of(*old(mst)) =~= levels_of(*old(mst)));
    }

    fn number_node(&self, node: &mut MSTNode, counters: &mut Vec<usize>, Ghost(before): Ghost<
        Seq<int>,
    >)
        requires
            old(counters)@.len() == 6,
            ints(old(counters)@) == counters_after(before, self@),
            levels_ok(*old(node)),
            before.len() + headers_of(*old(node)).len() <= usize::MAX,
        ensures
            same_but_numbering(*old(node), *final(node)),
            headers_of(*final(node)).len() == headers_of(*old(node)).len(),
            final(counters)@.len() == 6,
            ints(final(counters)@) == counters_after(before + levels_of(*old(node)), self@),
            forall|k: int|
                0 <= k < headers_of(*final(node)).len() ==> numbered_as(
                    (#[trigger] headers_of(*final(node))[k]).numbering,
                    before + levels_of(*old(node)),
                    before.len() + k,
                    self@,
                ),
        decreases *old(node),
    {
        let ghost old_node = *old(node);
        assert(*node == old_node);
        let ghost own: Seq<int> = if old_node.node_type is Header {
            seq![old_node.node_type->Header_0 as int]
        } else {
            seq![]
        };
        let ghost mid = before + own;
        proof {
            lemma_counters_bound(before, self@);
            if old_node.node_type is Header {
                assert(headers_of(old_node).len() >= 1);
                assert forall|j: int| 0 <= j < 6 implies counters@[j] < usize::MAX by {
                    assert(ints(counters@)[j] == counters@[j]);
                }
                assert(headers_of(old_node)[0] == old_node);
                assert(mid.drop_last() =~= before);
            } else {
                assert(mid =~= before);
            }
        }
        match node.node_type {
            NodeType::Header(level) => {
                self.apply_numbering_to_node(node, counters, level);
            },
            _ => {},
        }
        let ghost num = node.numbering;
        let mut i: usize = 0;
        assert(levels_upto(old_node, 0) =~= seq![]);
        assert(mid + levels_upto(old_node, 0) =~= mid);
        while i < node.children.len()
            invariant
                i <= node.children@.len(),
                old_node == *old(node),
                node.node_type == old_node.node_type,
                node.title == old_node.title,
                node.raw_line == old_node.raw_line,
                node.line_number == old_node.line_number,
                node.numbering == num,
                node.children@.len() == old_node.children@.len(),
                forall|j: int|
                    i <= j < node.children@.len() ==> node.children@[j] == old_node.children@[j],
                children_same_upto(old_node, *node, i as int),
                counters@.len() == 6,
                ints(counters@) == counters_after(mid + levels_upto(old_node, i as int), self@),
                headers_upto(*node, i as int).len() == headers_upto(old_node, i as int).len(),
                forall|t: int|
                    0 <= t < headers_upto(*node, i as int).len() ==> numbered_as(
                        (#[trigger] headers_upto(*node, i as int)[t]).numbering,
                        mid + levels_upto(old_node, i as int),
                        mid.len() + t,
                        self@,
                    ),
                levels_ok(old_node),
                before.len() + headers_of(old_node).len() <= usize::MAX,
                mid.len() == before.len() + (if old_node.node_type is Header {
                    1int
                } else {
                    0int
                }),
                old_node.node_type is Header ==> mid.last() == old_node.node_type->Header_0 as int,
                mid.subrange(0, before.len() as int) == before,
            decreases node.children@.len() - i,
        {
            let ghost child_old = old_node.children@[i as int];
            let ghost pre = mid + levels_upto(old_node, i as int);
            let ghost node_before = *node;
            proof {
                lemma_child_headers(old_node, i as int);
                assert forall|t: int| 0 <= t < headers_of(child_old).len() implies {
                    let h = #[trigger] headers_of(child_old)[t];
                    h.node_type is Header && 1 <= h.node_type->Header_0 <= 6
                } by {
                    assert(headers_of(old_node)[own_count(old_node) + headers_upto(
                        old_node,
                        i as int,
                    ).len() + t] == headers_of(child_old)[t]);
                }
            }
            proof {
                vstd::std_specs::vec::axiom_vec_index_decreases(old_node.children, i as int);
                assert(decreases_to!(old_node => old_node.children));
            }
            self.number_node(&mut node.children[i], counters, Ghost(pre));
            proof {
                let child_new = node.children@[i as int];
                assert(headers_upto(old_node, i + 1) == headers_upto(old_node, i as int)
                    + headers_of(child_old));
                assert(levels_upto(old_node, i + 1) =~= levels_upto(old_node, i as int)
                    + levels_of(child_old));
                assert(pre + levels_of(child_old) =~= mid + levels_upto(old_node, i + 1));
                lemma_headers_upto_same(node_before, *node, i as int);
                assert(headers_upto(*node, i + 1) == headers_upto(*node, i as int) + headers_of(
                    child_new,
                ));
                lemma_children_same_prefix(old_node, node_before, *node, i as int);
                assert forall|t: int| 0 <= t < headers_upto(*node, i + 1).len() implies numbered_as(
                    (#[trigger] headers_upto(*node, i + 1)[t]).numbering,
                    mid + levels_upto(old_node, i + 1),
                    mid.len() + t,
                    self@,
                ) by {
                    let l0 = headers_upto(*node, i as int).len();
                    if t < l0 {
                        assert(headers_upto(*node, i + 1)[t] == headers_upto(node_before, i as int)[t]);
                        assert((mid + levels_upto(old_node, i as int)).subrange(0, mid.len() + t + 1)
                            =~= (mid + levels_upto(old_node, i + 1)).subrange(0, mid.len() + t + 1));
                        lemma_numbered_prefix(
                            headers_upto(node_before, i as int)[t].numbering,
                            mid + levels_upto(old_node, i as int),
                            mid + levels_upto(old_node, i + 1),
                            mid.len() + t,
                            self@,
                        );
                    } else {
                        assert(headers_upto(*node, i + 1)[t] == headers_of(child_new)[t - l0]);
                    }
                }
            }
            i = i + 1;
        }
        proof {
            let len = old_node.children@.len() as int;
            assert(levels_of(old_node) =~= own + levels_upto(old_node, len));
            assert(mid + levels_upto(old_node, len) =~= before + levels_of(old_node));
            assert forall|k: int| 0 <= k < headers_of(*node).len() implies numbered_as(
                (#[trigger] headers_of(*node)[k]).numbering,
                before + levels_of(old_node),
                before.len() + k,
                self@,
            ) by {
                if old_node.node_type is Header {
                    if k == 0 {
                        let all = before + levels_of(old_node);
                        assert(all.subrange(0, before.len() + 1int) =~= mid);
                        assert(all[before.len() as int] == mid.last());
                    } else {
                        assert(headers_of(*node)[k] == headers_upto(*node, len)[k - 1]);
                    }
                } else {
                    assert(headers_of(*node)[k] == headers_upto(*node, len)[k]);
                }
            }
        }
    }
    /// Gives one heading its numbering and moves the counters on.
    fn apply_numbering_to_node(&self, node: &mut MSTNode, counters: &mut Vec<usize>, level: usize)
        requires
            old(counters)@.len() == 6,
            1 <= level <= 6,
            forall|i: int| 0 <= i < 6 ==> old(counters)@[i] < usize::MAX,
        ensures
            final(counters)@.len() == 6,
            ints(final(counters)@) == step(ints(old(counters)@), level as int, self@),
            final(node).node_type == old(node).node_type,
            final(node).title == old(node).title,
            final(node).raw_line == old(node).raw_line,
            final(node).line_number == old(node).line_number,
            final(node).children == old(node).children,
            is_skipped(level as int, self@) ==> final(node).numbering is None,
            !is_skipped(level as int, self@) ==> {
                let p = nonzero(
                    ints(final(counters)@).subrange(0, effective_level(level as int, self@)),
                );
                &&& final(node).numbering is Some
                &&& ints(final(node).numbering->0.path@) == p
                &&& final(node).numbering->0.formatted@ == format_label(p, self@)
            },
    {
        if self.config.ignore_h1 && level == 1 {
            node.numbering = None;
            return ;
        }
        let e = if self.config.ignore_h1 && level > 1 {
            level - 1
        } else {
            level
        };
        let ghost c0 = ints(counters@);
        assert(c0[e - 1] == counters@[e - 1]);
        let bumped = counters[e - 1] + 1;
        counters[e - 1] = bumped;
        let mut i: usize = e;
        while i < 6
            invariant
                1 <= e <= i <= 6,
                counters@.len() == 6,
                c0.len() == 6,
                forall|j: int| 0 <= j < e - 1 ==> counters@[j] == c0[j],
                counters@[e - 1] == c0[e - 1] + 1,
                forall|j: int| e <= j < i ==> counters@[j] == 0,
            decreases 6 - i,
        {
            counters[i] = 0;
            i = i + 1;
        }
        assert(ints(counters@) =~= step(c0, level as int, self@));
        let mut path: Vec<usize> = Vec::new();
        let mut j: usize = 0;
        while j < e
            invariant
                j <= e <= 6,
                counters@.len() == 6,
                ints(path@) == nonzero(ints(counters@).subrange(0, j as int)),
            decreases e - j,
        {
            assert(ints(counters@).subrange(0, j + 1).drop_last() =~= ints(counters@).subrange(
                0,
                j as int,
            ));
            if counters[j] > 0 {
                path.push(counters[j]);
                assert(ints(path@) =~= nonzero(ints(counters@).subrange(0, j + 1)));
            }
            j = j + 1;
        }
        let formatted = string_of(self.format_numbering(&path));
        node.numbering = Some(NumberingInfo { path, formatted });
    }

    /// The label of a counter path.
    fn format_numbering(&self, path: &Vec<usize>) -> (r: Vec<char>)
        ensures
            r@ == format_label(ints(path@), self@),
    {
        let mut out: Vec<char> = Vec::new();
        if path.len() == 0 {
            return out;
        }
        if self.config.use_chinese_number && self.config.use_arabic_number_for_sublevel {
            if path.len() == 1 {
                push_ordinal(&mut out, path[0]);
                out.push('、');
            } else {
                push_dotted(&mut out, path, 1);
                out.push('.');
                out.push(' ');
                assert(ints(path@).subrange(1, path@.len() as int) =~= ints(path@).drop_first());
            }
        } else if self.config.use_chinese_number {
            push_ordinals(&mut out, path);
        } else {
            push_dotted(&mut out, path, 0);
            out.push('.');
            out.push(' ');
            assert(ints(path@).subrange(0, path@.len() as int) =~= ints(path@));
        }
        assert(out@ =~= format_label(ints(path@), self@));
        out
    }
}

} // verus!
