//! Clean titles: numbering prefixes stripped from the front of heading text.
//!
//! Two prefix shapes are recognised, both anchored at the start:
//! a dotted Arabic numeral `\d+(\.\d+)*\.?` (ASCII digits) followed by
//! whitespace or the end of the title, and a run of
//! ordinal groups `N+、(\s*N+、)*\s*` where `N` is a CJK numeral character.
//! A mixed prefix such as `一、1.2 ` is the second shape followed by the first,
//! so stripping until neither matches removes it as well.

use vstd::prelude::*;
use crate::text::{
    chars_of, is_trimmed, lemma_trim, lemma_ws_run_bounds, slice_chars, string_of, trim, trim_chars,
    ws_run, ws_run_exec,
};

verus! {

pub open spec fn is_digit(c: char) -> bool {
    '0' <= c && c <= '9'
}

/// The CJK numeral characters an ordinal prefix may be made of.
pub open spec fn is_numeral(c: char) -> bool {
    c == '一' || c == '二' || c == '三' || c == '四' || c == '五' || c == '六' || c == '七'
        || c == '八' || c == '九' || c == '十' || c == '百' || c == '千' || c == '万'
}

fn is_numeral_exec(c: char) -> (r: bool)
    ensures
        r == is_numeral(c),
{
    c == '一' || c == '二' || c == '三' || c == '四' || c == '五' || c == '六' || c == '七'
        || c == '八' || c == '九' || c == '十' || c == '百' || c == '千' || c == '万'
}

/// Number of ASCII digits of `s` starting at `i`.
pub open spec fn digit_run(s: Seq<char>, i: int) -> int
    decreases s.len() - i,
{
    if 0 <= i < s.len() && is_digit(s[i]) {
        1 + digit_run(s, i + 1)
    } else {
        0
    }
}

/// Number of numeral characters of `s` starting at `i`.
pub open spec fn numeral_run(s: Seq<char>, i: int) -> int
    decreases s.len() - i,
{
    if 0 <= i < s.len() && is_numeral(s[i]) {
        1 + numeral_run(s, i + 1)
    } else {
        0
    }
}

/// Where the `(\.\d+)*` groups starting at `j` end.
pub open spec fn dotted_groups_end(s: Seq<char>, j: int) -> int
    decreases s.len() - j,
{
    if 0 <= j < s.len() && s[j] == '.' && digit_run(s, j + 1) > 0 && j + 1 + digit_run(s, j + 1)
        <= s.len() {
        dotted_groups_end(s, j + 1 + digit_run(s, j + 1))
    } else {
        j
    }
}

/// Length of the dotted Arabic numeral prefix of `s`, with the whitespace
/// after it; 0 when there is none. The numeral counts as a prefix only when
/// whitespace or the end of `s` follows it, so `2024年` keeps its digits.
pub open spec fn arabic_prefix_len(s: Seq<char>) -> int {
    let d = digit_run(s, 0);
    if d == 0 {
        0
    } else {
        let g = dotted_groups_end(s, d);
        let e = if 0 <= g < s.len() && s[g] == '.' {
            g + 1
        } else {
            g
        };
        if e == s.len() || ws_run(s, e) > 0 {
            e + ws_run(s, e)
        } else {
            0
        }
    }
}

/// Where the `(\s*N+、)*` groups starting at `j` end.
pub open spec fn ordinal_groups_end(s: Seq<char>, j: int) -> int
    decreases s.len() - j,
{
    let w = j + ws_run(s, j);
    let k = numeral_run(s, w);
    if 0 <= j <= w && k > 0 && w + k < s.len() && s[w + k] == '、' {
        ordinal_groups_end(s, w + k + 1)
    } else {
        j
    }
}

/// Length of the ordinal prefix of `s`, 0 when there is none.
pub open spec fn ordinal_prefix_len(s: Seq<char>) -> int {
    let k = numeral_run(s, 0);
    if k > 0 && k < s.len() && s[k] == '、' {
        let g = ordinal_groups_end(s, k + 1);
        g + ws_run(s, g)
    } else {
        0
    }
}

/// Length of the numbering prefix stripped next: the Arabic one first.
pub open spec fn prefix_len(s: Seq<char>) -> int {
    if arabic_prefix_len(s) > 0 {
        arabic_prefix_len(s)
    } else {
        ordinal_prefix_len(s)
    }
}

/// No numbering prefix is left to strip.
pub open spec fn is_stable(s: Seq<char>) -> bool {
    !(0 < prefix_len(s) <= s.len())
}

/// Strips prefixes from a trimmed title until none is left, trimming after each.
pub open spec fn normalize_trimmed(s: Seq<char>) -> Seq<char>
    decreases s.len(),
    via normalize_trimmed_decreases
{
    if is_stable(s) {
        s
    } else {
        normalize_trimmed(trim(s.subrange(prefix_len(s), s.len() as int)))
    }
}

#[via_fn]
proof fn normalize_trimmed_decreases(s: Seq<char>) {
    if !is_stable(s) {
        lemma_trim(s.subrange(prefix_len(s), s.len() as int));
    }
}

/// The clean title of a heading text.
pub open spec fn normalize(s: Seq<char>) -> Seq<char> {
    normalize_trimmed(trim(s))
}

proof fn lemma_normalize_trimmed(s: Seq<char>)
    requires
        is_trimmed(s),
    ensures
        is_trimmed(normalize_trimmed(s)),
        is_stable(normalize_trimmed(s)),
    decreases s.len(),
{
    if !is_stable(s) {
        let t = s.subrange(prefix_len(s), s.len() as int);
        lemma_trim(t);
        lemma_normalize_trimmed(trim(t));
    }
}

/// A clean title is its own clean title: normalizing twice is normalizing once.
pub proof fn lemma_normalize_idempotent(s: Seq<char>)
    ensures
        normalize(normalize(s)) == normalize(s),
{
    lemma_trim(s);
    lemma_normalize_trimmed(trim(s));
    lemma_trim(normalize(s));
}

proof fn lemma_digit_run_bounds(s: Seq<char>, i: int)
    requires
        0 <= i <= s.len(),
    ensures
        0 <= digit_run(s, i) <= s.len() - i,
    decreases s.len() - i,
{
    if i < s.len() && is_digit(s[i]) {
        lemma_digit_run_bounds(s, i + 1);
    }
}

proof fn lemma_numeral_run_bounds(s: Seq<char>, i: int)
    requires
        0 <= i <= s.len(),
    ensures
        0 <= numeral_run(s, i) <= s.len() - i,
    decreases s.len() - i,
{
    if i < s.len() && is_numeral(s[i]) {
        lemma_numeral_run_bounds(s, i + 1);
    }
}

fn digit_run_exec(s: &Vec<char>, i: usize) -> (r: usize)
    requires
        i <= s@.len(),
    ensures
        r == digit_run(s@, i as int),
{
    let mut j: usize = i;
    while j < s.len() && '0' <= s[j] && s[j] <= '9'
        invariant
            i <= j <= s@.len(),
            digit_run(s@, i as int) == (j - i) + digit_run(s@, j as int),
        decreases s@.len() - j,
    {
        j = j + 1;
    }
    j - i
}

fn numeral_run_exec(s: &Vec<char>, i: usize) -> (r: usize)
    requires
        i <= s@.len(),
    ensures
        r == numeral_run(s@, i as int),
{
    let mut j: usize = i;
    while j < s.len() && is_numeral_exec(s[j])
        invariant
            i <= j <= s@.len(),
            numeral_run(s@, i as int) == (j - i) + numeral_run(s@, j as int),
        decreases s@.len() - j,
    {
        j = j + 1;
    }
    j - i
}

fn arabic_prefix_len_exec(s: &Vec<char>) -> (r: usize)
    ensures
        r == arabic_prefix_len(s@),
        r <= s@.len(),
{
    let d = digit_run_exec(s, 0);
    proof {
        lemma_digit_run_bounds(s@, 0);
    }
    if d == 0 {
        return 0;
    }
    let mut g: usize = d;
    loop
        invariant
            d <= g <= s@.len(),
            dotted_groups_end(s@, d as int) == dotted_groups_end(s@, g as int),
        ensures
            d <= g <= s@.len(),
            dotted_groups_end(s@, d as int) == g,
        decreases s@.len() - g,
    {
        if g < s.len() && s[g] == '.' {
            let k = digit_run_exec(s, g + 1);
            proof {
                lemma_digit_run_bounds(s@, g + 1);
            }
            if k > 0 {
                g = g + 1 + k;
            } else {
                assert(dotted_groups_end(s@, g as int) == g);
                break ;
            }
        } else {
            assert(dotted_groups_end(s@, g as int) == g);
            break ;
        }
    }
    let e = if g < s.len() && s[g] == '.' {
        g + 1
    } else {
        g
    };
    proof {
        lemma_ws_run_bounds(s@, e as int);
    }
    let w = ws_run_exec(s, e);
    if e == s.len() || w > 0 {
        e + w
    } else {
        0
    }
}

fn ordinal_prefix_len_exec(s: &Vec<char>) -> (r: usize)
    ensures
        r == ordinal_prefix_len(s@),
        r <= s@.len(),
{
    let k = numeral_run_exec(s, 0);
    if !(k > 0 && k < s.len() && s[k] == '、') {
        return 0;
    }
    let mut g: usize = k + 1;
    loop
        invariant
            k + 1 <= g <= s@.len(),
            ordinal_groups_end(s@, k + 1) == ordinal_groups_end(s@, g as int),
        ensures
            k + 1 <= g <= s@.len(),
            ordinal_groups_end(s@, k + 1) == g,
        decreases s@.len() - g,
    {
        proof {
            lemma_ws_run_bounds(s@, g as int);
        }
        let r0 = ws_run_exec(s, g);
        assert(r0 <= s.len() - g);
        let w = g + r0;
        proof {
            lemma_numeral_run_bounds(s@, w as int);
        }
        let n = numeral_run_exec(s, w);
        assert(n <= s.len() - w);
        if n > 0 && w + n < s.len() && s[w + n] == '、' {
            g = w + n + 1;
        } else {
            assert(ordinal_groups_end(s@, g as int) == g);
            break ;
        }
    }
    proof {
        lemma_ws_run_bounds(s@, g as int);
    }
    g + ws_run_exec(s, g)
}

fn prefix_len_exec(s: &Vec<char>) -> (r: usize)
    ensures
        r == prefix_len(s@),
        r <= s@.len(),
{
    let a = arabic_prefix_len_exec(s);
    if a > 0 {
        a
    } else {
        ordinal_prefix_len_exec(s)
    }
}

/// Clean title of the characters of a heading text.
pub fn normalize_chars(title: &Vec<char>) -> (r: Vec<char>)
    ensures
        r@ == normalize(title@),
{
    let mut t = trim_chars(title);
    loop
        invariant
            normalize_trimmed(t@) == normalize(title@),
        ensures
            t@ == normalize(title@),
        decreases t@.len(),
    {
        let k = prefix_len_exec(&t);
        if k > 0 {
            let rest = slice_chars(&t, k, t.len());
            proof {
                lemma_trim(rest@);
            }
            t = trim_chars(&rest);
        } else {
            assert(normalize_trimmed(t@) == t@);
            break ;
        }
    }
    t
}

/// The title with every numbering prefix stripped from its front, trimmed.
pub fn normalize_title(title: &str) -> (r: String)
    ensures
        r@ == normalize(title@),
{
    let v = chars_of(title);
    string_of(normalize_chars(&v))
}

} // verus!
