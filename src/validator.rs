//! Checks heading syntax and level progression over a document tree.

use vstd::prelude::*;
use crate::mst::{headers_of, lemma_headers_are_headers, MSTNode, NodeType};
use crate::numbering::{dec, push_decimal};
use crate::renderer::{hashes, join_lines, join_lines_exec, views};
use crate::text::{chars_of, push_all, string_of, trim_start, ws_run, ws_run_exec};

verus! {

/// The level of a heading node.
pub open spec fn level_of(h: MSTNode) -> int {
    h.node_type->Header_0 as int
}

pub open spec fn msg_prefix(line: int, level: int) -> Seq<char> {
    "第"@ + dec(line) + "行：标题格式错误，应该以 "@ + hashes(level) + " 开头"@
}

pub open spec fn msg_before_hashes(line: int) -> Seq<char> {
    "第"@ + dec(line) + "行：标题格式错误，# 符号前不能有空格或其他字符"@
}

pub open spec fn msg_missing_space(line: int, level: int) -> Seq<char> {
    "第"@ + dec(line) + "行：标题格式错误，"@ + hashes(level) + " 后面必须有一个空格"@
}

pub open spec fn msg_extra_space(line: int, level: int) -> Seq<char> {
    "第"@ + dec(line) + "行：标题格式错误，"@ + hashes(level) + " 后面只能有一个空格"@
}

pub open spec fn msg_empty_title(line: int) -> Seq<char> {
    "第"@ + dec(line) + "行：标题格式错误，缺少标题内容"@
}

pub open spec fn msg_level_skip(line: int, from: int, to: int) -> Seq<char> {
    "第"@ + dec(line) + "行：标题级别跳级，从 H"@ + dec(from) + " 直接跳到 H"@ + dec(to) + "（跳过了 H"@
        + dec(from + 1) + "）"@
}

/// What is wrong with the source line of a heading at `level`, if anything:
/// it must start with exactly `level` hashes, then one space, then a title.
pub open spec fn format_error(raw: Seq<char>, level: int, line: int) -> Option<Seq<char>> {
    if !(raw.len() >= level && raw.subrange(0, level) == hashes(level)) {
        Some(msg_prefix(line, level))
    } else if raw.len() == 0 || raw[0] != '#' {
        Some(msg_before_hashes(line))
    } else {
        let after = raw.subrange(level, raw.len() as int);
        if !(after.len() > 0 && after[0] == ' ') {
            Some(msg_missing_space(line, level))
        } else if after.len() > 1 && after[1] == ' ' {
            Some(msg_extra_space(line, level))
        } else if trim_start(after).len() == 0 {
            Some(msg_empty_title(line))
        } else {
            None
        }
    }
}

/// The heading at index `k` goes more than one level deeper than the one before it.
pub open spec fn skips_level(hs: Seq<MSTNode>, k: int) -> bool {
    k > 0 && level_of(hs[k]) > level_of(hs[k - 1]) + 1
}

/// The violations reported for the heading at index `k`: its format error if
/// it has one, else a level skip if it makes one.
pub open spec fn errors_at(hs: Seq<MSTNode>, k: int) -> Seq<Seq<char>> {
    let h = hs[k];
    match format_error(h.raw_line@, level_of(h), h.line_number as int) {
        Some(m) => seq![m],
        None => if skips_level(hs, k) {
            seq![msg_level_skip(h.line_number as int, level_of(hs[k - 1]), level_of(h))]
        } else {
            seq![]
        },
    }
}

/// All violations of a sequence of headings, in order.
pub open spec fn heading_errors(hs: Seq<MSTNode>) -> Seq<Seq<char>>
    decreases hs.len(),
{
    if hs.len() == 0 {
        seq![]
    } else {
        heading_errors(hs.drop_last()) + errors_at(hs, hs.len() - 1)
    }
}

/// Number of headings at `level`.
pub open spec fn level_count(hs: Seq<MSTNode>, level: int) -> int
    decreases hs.len(),
{
    if hs.len() == 0 {
        0
    } else {
        level_count(hs.drop_last(), level) + if level_of(hs.last()) == level {
            1int
        } else {
            0int
        }
    }
}

/// One line per level from `level` to 6 that has headings: `  H<level>: <count> 个`.
pub open spec fn stat_lines(hs: Seq<MSTNode>, level: int) -> Seq<Seq<char>>
    decreases 7 - level,
{
    if level > 6 {
        seq![]
    } else {
        let own = if level_count(hs, level) > 0 {
            seq!["  H"@ + dec(level) + ": "@ + dec(level_count(hs, level)) + " 个"@]
        } else {
            seq![]
        };
        own + stat_lines(hs, level + 1)
    }
}

/// The report of a document whose headings are all well-formed.
pub open spec fn report(hs: Seq<MSTNode>) -> Seq<char> {
    join_lines(seq!["📊 标题统计："@] + stat_lines(hs, 1) + seq![seq![], "✅ 所有标题格式和层级结构都正确。"@])
}

/// What validating the tree `mst` gives.
pub open spec fn validation_ok(mst: MSTNode, r: Result<String, Vec<String>>) -> bool {
    let hs = headers_of(mst);
    if hs.len() == 0 {
        r is Ok && r->Ok_0@ == "文档中没有标题行。"@
    } else if heading_errors(hs).len() == 0 {
        r is Ok && r->Ok_0@ == report(hs)
    } else {
        r is Err && r->Err_0@.len() == heading_errors(hs).len() && forall|i: int|
            0 <= i < heading_errors(hs).len() ==> (#[trigger] r->Err_0@[i])@ == heading_errors(hs)[i]
    }
}

fn push_str(out: &mut Vec<char>, s: &str)
    ensures
        final(out)@ == old(out)@ + s@,
{
    let v = chars_of(s);
    push_all(out, &v);
}

fn push_hashes(out: &mut Vec<char>, n: usize)
    ensures
        final(out)@ == old(out)@ + hashes(n as int),
{
    let mut i: usize = 0;
    while i < n
        invariant
            i <= n,
            out@ == old(out)@ + hashes(i as int),
        decreases n - i,
    {
        out.push('#');
        i = i + 1;
        assert(out@ =~= old(out)@ + hashes(i as int));
    }
}

/// Checks the source line of one heading at `expected_level`.
pub fn validate_heading_format(raw: &str, expected_level: usize, line_number: usize) -> (r: Result<
    (),
    String,
>)
    ensures
        r is Ok <==> format_error(raw@, expected_level as int, line_number as int) is None,
        r is Err ==> r->Err_0@ == format_error(
            raw@,
            expected_level as int,
            line_number as int,
        )->Some_0,
{
    let s = chars_of(raw);
    let level = expected_level;
    let ghost line = line_number as int;
    let mut starts = s.len() >= level;
    let mut i: usize = 0;
    while starts && i < level
        invariant
            i <= level,
            starts ==> s@.len() >= level,
            starts ==> s@.subrange(0, i as int) == hashes(i as int),
            !starts ==> !(s@.len() >= level && s@.subrange(0, level as int) == hashes(level as int)),
        decreases level - i + if starts {
            1int
        } else {
            0int
        },
    {
        if s[i] != '#' {
            starts = false;
            assert(s@.subrange(0, level as int)[i as int] == s@[i as int]);
        } else {
            assert(s@.subrange(0, i + 1) =~= hashes(i + 1));
            i = i + 1;
        }
    }
    let mut out: Vec<char> = Vec::new();
    push_str(&mut out, "第");
    push_decimal(&mut out, line_number);
    if !starts {
        push_str(&mut out, "行：标题格式错误，应该以 ");
        push_hashes(&mut out, level);
        push_str(&mut out, " 开头");
        assert(out@ =~= msg_prefix(line, level as int));
        return Err(string_of(out));
    }
    if s.len() == 0 || s[0] != '#' {
        push_str(&mut out, "行：标题格式错误，# 符号前不能有空格或其他字符");
        assert(out@ =~= msg_before_hashes(line));
        return Err(string_of(out));
    }
    let ghost after = s@.subrange(level as int, s@.len() as int);
    if !(s.len() > level && s[level] == ' ') {
        push_str(&mut out, "行：标题格式错误，");
        push_hashes(&mut out, level);
        push_str(&mut out, " 后面必须有一个空格");
        assert(out@ =~= msg_missing_space(line, level as int));
        return Err(string_of(out));
    }
    if s.len() > level + 1 && s[level + 1] == ' ' {
        push_str(&mut out, "行：标题格式错误，");
        push_hashes(&mut out, level);
        push_str(&mut out, " 后面只能有一个空格");
        assert(out@ =~= msg_extra_space(line, level as int));
        return Err(string_of(out));
    }
    let w = ws_run_exec(&s, level);
    proof {
        crate::text::lemma_ws_run_bounds(s@, level as int);
        lemma_ws_run_shift(s@, level as int, 0);
    }
    if level + w == s.len() {
        push_str(&mut out, "行：标题格式错误，缺少标题内容");
        assert(out@ =~= msg_empty_title(line));
        return Err(string_of(out));
    }
    Ok(())
}

fn node_level(h: &MSTNode) -> (r: usize)
    ensures
        h.node_type is Header ==> r == h.node_type->Header_0,
{
    match h.node_type {
        NodeType::Header(level) => level,
        _ => 0,
    }
}

/// Checks every heading of the tree: on success a per-level count of the
/// headings, otherwise every violation in document order.
pub fn validate_heading_structure(mst: &MSTNode) -> (r: Result<String, Vec<String>>)
    ensures
        validation_ok(*mst, r),
{
    let headers = mst.get_headers();
    let ghost hs = headers_of(*mst);
    if headers.len() == 0 {
        return Ok(string_of(chars_of("文档中没有标题行。")));
    }
    proof {
        assert forall|i: int| 0 <= i < hs.len() implies (#[trigger] hs[i]).node_type is Header by {
            lemma_headers_are_headers(*mst, i);
        }
    }
    let mut counts: Vec<usize> = vec![0, 0, 0, 0, 0, 0];
    let mut errors: Vec<String> = Vec::new();
    let mut stack: Vec<usize> = Vec::new();
    let mut prev: usize = 0;
    let mut k: usize = 0;
    assert(hs.subrange(0, 0) =~= Seq::<MSTNode>::empty());
    while k < headers.len()
        invariant
            k <= hs.len(),
            headers@.len() == hs.len(),
            forall|i: int| 0 <= i < hs.len() ==> *headers@[i] == hs[i],
            forall|i: int| 0 <= i < hs.len() ==> (#[trigger] hs[i]).node_type is Header,
            counts@.len() == 6,
            forall|l: int|
                1 <= l <= 6 ==> counts@[l - 1] == level_count(hs.subrange(0, k as int), l),
            forall|l: int| 1 <= l <= 6 ==> level_count(hs.subrange(0, k as int), l) <= k,
            errors@.len() == heading_errors(hs.subrange(0, k as int)).len(),
            forall|i: int|
                0 <= i < errors@.len() ==> (#[trigger] errors@[i])@ == heading_errors(
                    hs.subrange(0, k as int),
                )[i],
            k > 0 ==> stack@.len() > 0 && stack@.last() == prev,
            k > 0 ==> prev == level_of(hs[k - 1]),
        decreases hs.len() - k,
    {
        let h = headers[k];
        let level = node_level(h);
        let ghost pre = hs.subrange(0, k as int);
        let ghost cur = hs.subrange(0, k + 1);
        assert(cur.drop_last() =~= pre);
        assert(cur.last() == hs[k as int]);
        if 1 <= level && level <= 6 {
            assert(counts@[level - 1] == level_count(pre, level as int));
            counts[level - 1] = counts[level - 1] + 1;
        }
        proof {
            assert forall|l: int| 1 <= l <= 6 implies counts@[l - 1] == level_count(cur, l)
                && level_count(cur, l) <= k + 1 by {
                assert(level_count(cur, l) == level_count(pre, l) + if level_of(cur.last()) == l {
                    1int
                } else {
                    0int
                });
            }
        }
        while stack.len() > 0 && stack[stack.len() - 1] >= level
            invariant
                k > 0 && level > prev ==> stack@.len() > 0 && stack@.last() == prev,
            decreases stack@.len(),
        {
            stack.pop();
        }
        let ghost errs_before = errors@;
        match validate_heading_format(h.raw_line.as_str(), level, h.line_number) {
            Err(m) => {
                errors.push(m);
            },
            Ok(()) => {
                if k > 0 && level > 0 && level - 1 > prev {
                    let from = stack[stack.len() - 1];
                    let mut out: Vec<char> = Vec::new();
                    push_str(&mut out, "第");
                    push_decimal(&mut out, h.line_number);
                    push_str(&mut out, "行：标题级别跳级，从 H");
                    push_decimal(&mut out, from);
                    push_str(&mut out, " 直接跳到 H");
                    push_decimal(&mut out, level);
                    push_str(&mut out, "（跳过了 H");
                    push_decimal(&mut out, from + 1);
                    push_str(&mut out, "）");
                    assert(out@ =~= msg_level_skip(
                        h.line_number as int,
                        level_of(hs[k - 1]),
                        level as int,
                    ));
                    errors.push(string_of(out));
                }
            },
        }
        proof {
            assert(errors_at(cur, k as int) == errors_at(hs, k as int));
            assert(heading_errors(cur) == heading_errors(pre) + errors_at(cur, k as int));
            assert(forall|i: int|
                0 <= i < errors@.len() ==> (#[trigger] errors@[i])@ == heading_errors(cur)[i]);
        }
        stack.push(level);
        prev = level;
        k = k + 1;
    }
    assert(hs.subrange(0, k as int) =~= hs);
    if errors.len() > 0 {
        return Err(errors);
    }
    let mut lines: Vec<Vec<char>> = Vec::new();
    lines.push(chars_of("📊 标题统计："));
    let mut l: usize = 1;
    let ghost head: Seq<Seq<char>> = seq!["📊 标题统计："@];
    assert(views(lines@) =~= head);
    while l <= 6
        invariant
            1 <= l <= 7,
            counts@.len() == 6,
            forall|j: int| 1 <= j <= 6 ==> counts@[j - 1] == level_count(hs, j),
            views(lines@) + stat_lines(hs, l as int) == head + stat_lines(hs, 1),
        decreases 7 - l,
    {
        let ghost before = views(lines@);
        let c = counts[l - 1];
        if c > 0 {
            let mut out: Vec<char> = Vec::new();
            push_str(&mut out, "  H");
            push_decimal(&mut out, l);
            push_str(&mut out, ": ");
            push_decimal(&mut out, c);
            push_str(&mut out, " 个");
            lines.push(out);
        }
        assert(views(lines@) + stat_lines(hs, l + 1) =~= before + stat_lines(hs, l as int));
        l = l + 1;
    }
    let ghost before = views(lines@);
    lines.push(Vec::new());
    lines.push(chars_of("✅ 所有标题格式和层级结构都正确。"));
    assert(stat_lines(hs, 7) =~= Seq::<Seq<char>>::empty());
    assert(views(lines@) =~= seq!["📊 标题统计："@] + stat_lines(hs, 1) + seq![
        seq![],
        "✅ 所有标题格式和层级结构都正确。"@,
    ]);
    Ok(string_of(join_lines_exec(&lines)))
}

/// With well-formed heading lines, the validator accepts exactly the
/// documents where no heading goes more than one level deeper than the
/// heading before it; steps to the same or a shallower level are always fine.
pub proof fn lemma_level_skip_monotonic(hs: Seq<MSTNode>)
    requires
        forall|k: int|
            0 <= k < hs.len() ==> format_error(
                (#[trigger] hs[k]).raw_line@,
                level_of(hs[k]),
                hs[k].line_number as int,
            ) is None,
    ensures
        heading_errors(hs).len() == 0 <==> forall|k: int|
            0 < k < hs.len() ==> level_of(#[trigger] hs[k]) <= level_of(hs[k - 1]) + 1,
    decreases hs.len(),
{
    if hs.len() > 0 {
        let p = hs.drop_last();
        assert forall|k: int| 0 <= k < p.len() implies format_error(
            (#[trigger] p[k]).raw_line@,
            level_of(p[k]),
            p[k].line_number as int,
        ) is None by {
            assert(p[k] == hs[k]);
        }
        lemma_level_skip_monotonic(p);
        let n = hs.len() - 1;
        assert(format_error(hs[n].raw_line@, level_of(hs[n]), hs[n].line_number as int) is None);
        if heading_errors(hs).len() == 0 {
            assert forall|k: int| 0 < k < hs.len() implies level_of(#[trigger] hs[k]) <= level_of(
                hs[k - 1],
            ) + 1 by {
                if k < n {
                    assert(p[k] == hs[k] && p[k - 1] == hs[k - 1]);
                }
            }
        } else {
            if forall|k: int| 0 < k < hs.len() ==> level_of(#[trigger] hs[k]) <= level_of(hs[k - 1])
                + 1 {
                assert forall|k: int| 0 < k < p.len() implies level_of(#[trigger] p[k]) <= level_of(
                    p[k - 1],
                ) + 1 by {
                    assert(p[k] == hs[k] && p[k - 1] == hs[k - 1]);
                }
            }
        }
    }
}

/// A step one level deeper is accepted; a step two or more levels deeper is
/// reported, from the level of the heading before to the level reached.
pub proof fn lemma_level_step(hs: Seq<MSTNode>, k: int)
    requires
        0 < k < hs.len(),
        format_error(hs[k].raw_line@, level_of(hs[k]), hs[k].line_number as int) is None,
    ensures
        level_of(hs[k]) <= level_of(hs[k - 1]) + 1 ==> errors_at(hs, k).len() == 0,
        level_of(hs[k]) >= level_of(hs[k - 1]) + 2 ==> errors_at(hs, k) == seq![
            msg_level_skip(hs[k].line_number as int, level_of(hs[k - 1]), level_of(hs[k])),
        ],
{
}

/// Whitespace runs read the same on a suffix.
proof fn lemma_ws_run_shift(s: Seq<char>, base: int, j: int)
    requires
        0 <= base <= s.len(),
        0 <= j <= s.len() - base,
    ensures
        ws_run(s.subrange(base, s.len() as int), j) == ws_run(s, base + j),
    decreases s.len() - base - j,
{
    if j < s.len() - base {
        lemma_ws_run_shift(s, base, j + 1);
    }
}

} // verus!
