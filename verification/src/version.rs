//! Version normalization and comparison.
//!
//! A raw declared version string (possibly holding range operators such as
//! `^`, `~` or `>=`) is normalized by keeping only ASCII digits and dots.
//! A normalized string is compared by reading up to three numeric
//! components (major, minor, patch); a missing, empty, non-numeric or
//! overflowing component counts as `0`.

use vstd::prelude::*;
use crate::text::{str_to_chars, chars_to_string, find_char_from, sep_index};

verus! {

/// A version character survives normalization: an ASCII digit or a dot.
pub open spec fn is_version_char(c: char) -> bool {
    c == '.' || ('0' <= c && c <= '9')
}

/// The normalized form of a raw version string: only digits and dots,
/// in their original relative order.
pub open spec fn spec_clean_version(s: Seq<char>) -> Seq<char> {
    s.filter(|c: char| is_version_char(c))
}

/// An ASCII decimal digit.
pub open spec fn is_digit_char(c: char) -> bool {
    '0' <= c && c <= '9'
}

pub open spec fn digit_value(c: char) -> nat
    recommends
        is_digit_char(c),
{
    (c as u32 - 48) as nat
}

/// The number denoted by a sequence of decimal digits.
pub open spec fn dec_value(s: Seq<char>) -> nat
    decreases s.len(),
{
    if s.len() == 0 {
        0
    } else {
        dec_value(s.drop_last()) * 10 + digit_value(s.last())
    }
}

pub open spec fn all_digits(s: Seq<char>) -> bool {
    forall|i: int| 0 <= i < s.len() ==> is_digit_char(s[i])
}

/// The numeric value of one version component, as `str::parse::<u32>`
/// followed by `unwrap_or(0)` reads it: empty, non-numeric and
/// out-of-range components all degrade to `0`.
pub open spec fn spec_component_value(s: Seq<char>) -> u32 {
    if s.len() > 0 && all_digits(s) && dec_value(s) <= u32::MAX {
        dec_value(s) as u32
    } else {
        0u32
    }
}

/// The (major, minor, patch) triple of a version string: the numeric
/// values of the first three dot-separated components, missing ones `0`.
pub open spec fn spec_versions(s: Seq<char>) -> (u32, u32, u32) {
    let i1 = sep_index(s, '.');
    let major = spec_component_value(s.take(i1));
    if i1 == s.len() {
        (major, 0u32, 0u32)
    } else {
        let r1 = s.skip(i1 + 1);
        let i2 = sep_index(r1, '.');
        let minor = spec_component_value(r1.take(i2));
        if i2 == r1.len() {
            (major, minor, 0u32)
        } else {
            let r2 = r1.skip(i2 + 1);
            (major, minor, spec_component_value(r2.take(sep_index(r2, '.'))))
        }
    }
}

/// Lexicographic strictly-greater on (major, minor, patch).
pub open spec fn spec_higher(a: (u32, u32, u32), b: (u32, u32, u32)) -> bool {
    a.0 > b.0 || (a.0 == b.0 && a.1 > b.1) || (a.0 == b.0 && a.1 == b.1 && a.2 > b.2)
}

/// The comparator is irreflexive: a version triple is never strictly
/// higher than itself, so equal versions never rank above one another.
pub proof fn lemma_higher_irreflexive(v: Seq<char>)
    ensures
        !spec_higher(spec_versions(v), spec_versions(v)),
{
}

/// Normalization is idempotent: cleaning a cleaned string changes nothing.
pub proof fn lemma_clean_version_idempotent(s: Seq<char>)
    ensures
        spec_clean_version(spec_clean_version(s)) == spec_clean_version(s),
{
    let pred = |c: char| is_version_char(c);
    broadcast use vstd::seq_lib::group_filter_ensures;

    lemma_filter_all(spec_clean_version(s), pred);
}

/// A sequence whose elements all satisfy the predicate filters to itself.
proof fn lemma_filter_all(s: Seq<char>, pred: spec_fn(char) -> bool)
    requires
        forall|i: int| 0 <= i < s.len() ==> pred(s[i]),
    ensures
        s.filter(pred) == s,
    decreases s.len(),
{
    reveal(Seq::filter);
    if s.len() > 0 {
        assert(forall|i: int| 0 <= i < s.len() - 1 ==> s.drop_last()[i] == s[i]);
        lemma_filter_all(s.drop_last(), pred);
        assert(s.filter(pred) =~= s);
    }
}

/// Keep only digits and dots, proved to match `spec_clean_version`.
pub fn clean_version(version_str: &str) -> (r: String)
    ensures
        r@ == spec_clean_version(version_str@),
{
    let cs = str_to_chars(version_str);
    let mut out: Vec<char> = Vec::new();
    let mut i: usize = 0;
    while i < cs.len()
        invariant
            i <= cs@.len(),
            out@ == cs@.take(i as int).filter(|c: char| is_version_char(c)),
        decreases cs@.len() - i,
    {
        let c = cs[i];
        proof {
            reveal(Seq::filter);
            let t = cs@.take(i + 1);
            assert(t.drop_last() =~= cs@.take(i as int));
            assert(t.last() == cs@[i as int]);
        }
        if c == '.' || ('0' <= c && c <= '9') {
            out.push(c);
        }
        i = i + 1;
    }
    proof {
        assert(cs@.take(cs@.len() as int) =~= cs@);
    }
    chars_to_string(&out)
}

/// The numeric value of the digit span `[start, end)` of `v`.
fn parse_component(v: &Vec<char>, start: usize, end: usize) -> (r: u32)
    requires
        start <= end <= v@.len(),
    ensures
        r == spec_component_value(v@.subrange(start as int, end as int)),
{
    let mut acc: u64 = 0;
    let mut over = false;
    let mut i: usize = start;
    while i < end
        invariant
            start <= i <= end <= v@.len(),
            forall|j: int| start <= j < i ==> is_digit_char(v@[j]),
            !over ==> acc == dec_value(v@.subrange(start as int, i as int)) && acc <= u32::MAX,
            over ==> dec_value(v@.subrange(start as int, i as int)) > u32::MAX,
        decreases end - i,
    {
        let c = v[i];
        if !(c >= '0' && c <= '9') {
            proof {
                assert(!all_digits(v@.subrange(start as int, end as int))) by {
                    assert(v@.subrange(start as int, end as int)[i - start] == v@[i as int]);
                }
            }
            return 0;
        }
        let d = (c as u32) - 48;
        proof {
            let t = v@.subrange(start as int, i + 1);
            assert(t.drop_last() =~= v@.subrange(start as int, i as int));
            assert(t.last() == v@[i as int]);
            assert(d == digit_value(v@[i as int]));
        }
        if over {
            proof {
                let prev = dec_value(v@.subrange(start as int, i as int));
                assert(dec_value(v@.subrange(start as int, i + 1)) == prev * 10 + digit_value(
                    v@[i as int],
                ));
                assert(prev * 10 >= prev) by (nonlinear_arith)
                    requires
                        prev >= 0,
                ;
            }
        } else {
            let next = acc * 10 + (d as u64);
            if next > u32::MAX as u64 {
                over = true;
            } else {
                acc = next;
            }
        }
        i = i + 1;
    }
    if over {
        0
    } else {
        proof {
            if start == end {
                assert(v@.subrange(start as int, end as int).len() == 0);
            }
        }
        acc as u32
    }
}

/// Read (major, minor, patch) from a version string, as the original
/// `split('.')` plus `parse().unwrap_or(0)` reading does.
pub fn get_versions(version: &str) -> (r: (u32, u32, u32))
    ensures
        r == spec_versions(version@),
{
    let cs = str_to_chars(version);
    let n = cs.len();
    let i1 = find_char_from(&cs, 0, '.');
    let major = parse_component(&cs, 0, i1);
    proof {
        assert(cs@.skip(0) =~= cs@);
        assert(cs@.take(sep_index(cs@, '.')) =~= cs@.subrange(0, i1 as int));
    }
    if i1 == n {
        return (major, 0, 0);
    }
    let i2 = find_char_from(&cs, i1 + 1, '.');
    let minor = parse_component(&cs, i1 + 1, i2);
    proof {
        let r1 = cs@.skip(i1 + 1);
        lemma_skip_sep_index(cs@, i1 + 1, i2 as int, '.');
        assert(r1.take(i2 - (i1 + 1)) =~= cs@.subrange(i1 + 1, i2 as int));
    }
    if i2 == n {
        return (major, minor, 0);
    }
    let i3 = find_char_from(&cs, i2 + 1, '.');
    let patch = parse_component(&cs, i2 + 1, i3);
    proof {
        let r1 = cs@.skip(i1 + 1);
        let r2 = r1.skip(sep_index(r1, '.') + 1);
        lemma_skip_sep_index(cs@, i1 + 1, i2 as int, '.');
        assert(r2 =~= cs@.skip(i2 + 1));
        lemma_skip_sep_index(cs@, i2 + 1, i3 as int, '.');
        assert(r2.take(sep_index(r2, '.')) =~= cs@.subrange(i2 + 1, i3 as int));
    }
    (major, minor, patch)
}

/// Transfers `find_char_from`'s result to the skipped suffix:
/// the separator index of `s.skip(from)` is `i - from`.
proof fn lemma_skip_sep_index(s: Seq<char>, from: int, i: int, sep: char)
    requires
        0 <= from <= i <= s.len(),
        forall|j: int| from <= j < i ==> s[j] != sep,
        i < s.len() ==> s[i] == sep,
    ensures
        sep_index(s.skip(from), sep) == i - from,
{
    let t = s.skip(from);
    assert(forall|j: int| 0 <= j < i - from ==> t[j] == s[j + from] && s[j + from] != sep);
    crate::text::lemma_sep_index_unique(t, sep, i - from);
}

} // verus!
