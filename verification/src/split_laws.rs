//! Properties of `split`, `rsplit` and `splitlines`.
use vstd::prelude::*;

use crate::search::{occurs_at, first_from, last_before};
use crate::ctype::is_space;
use crate::split::{split_from, rsplit_to, split_ws_from, rsplit_ws_to, skip_space, skip_word, skip_space_back, skip_word_back, lines_from, line_end, after_break, is_line_break};

verus! {

/// The leftmost occurrence from `pos` on is an occurrence with none before it
/// from `pos` on; when there is none, `sub` occurs nowhere from `pos` on.
pub proof fn lemma_first_from_is_leftmost(s: Seq<u8>, sub: Seq<u8>, pos: int)
    requires
        0 <= pos,
    ensures
        first_from(s, sub, pos) matches Some(k) ==> pos <= k && occurs_at(s, sub, k)
            && forall|j: int| pos <= j < k ==> !#[trigger] occurs_at(s, sub, j),
        first_from(s, sub, pos) is None ==> forall|j: int| pos <= j ==> !#[trigger] occurs_at(s, sub, j),
    decreases s.len() - pos,
{
    if pos + sub.len() <= s.len() && !occurs_at(s, sub, pos) && pos < s.len() {
        lemma_first_from_is_leftmost(s, sub, pos + 1);
        assert forall|j: int| pos <= j < pos + 1 implies !#[trigger] occurs_at(s, sub, j) by {}
    }
}

/// The rightmost occurrence ending by `end` is an occurrence with none after
/// it that also ends by `end`; when there is none, `sub` ends nowhere by `end`.
pub proof fn lemma_last_before_is_rightmost(s: Seq<u8>, sub: Seq<u8>, end: int)
    requires
        end <= s.len(),
    ensures
        last_before(s, sub, end) matches Some(k) ==> k + sub.len() <= end && occurs_at(s, sub, k)
            && forall|j: int| k < j && j + sub.len() <= end ==> !#[trigger] occurs_at(s, sub, j),
        last_before(s, sub, end) is None ==> forall|j: int| j + sub.len() <= end ==> !#[trigger] occurs_at(s, sub, j),
    decreases end,
{
    if sub.len() <= end && !occurs_at(s, sub, end - sub.len()) && end > 0 {
        lemma_last_before_is_rightmost(s, sub, end - 1);
    }
}

/// With a limit `m >= 0`, splitting on a nonempty separator makes at most
/// `m + 1` pieces.
pub proof fn lemma_split_piece_bound(s: Seq<u8>, sep: Seq<u8>, pos: int, m: int)
    requires
        sep.len() > 0,
        0 <= pos <= s.len(),
        m >= 0,
    ensures
        split_from(s, sep, pos, m).len() <= m + 1,
    decreases s.len() - pos,
{
    if m > 0 {
        lemma_first_from_is_leftmost(s, sep, pos);
        if let Some(k) = first_from(s, sep, pos) {
            lemma_split_piece_bound(s, sep, k + sep.len(), m - 1);
        }
    }
}

/// With a limit `m >= 0`, splitting on whitespace makes at most `m + 1` pieces.
pub proof fn lemma_split_whitespace_piece_bound(s: Seq<u8>, i: int, m: int)
    requires
        0 <= i <= s.len(),
        m >= 0,
    ensures
        split_ws_from(s, i, m).len() <= m + 1,
    decreases s.len() - i,
{
    if m > 0 {
        let p = skip_space(s, i);
        if p < s.len() {
            let q = skip_word(s, p);
            if i < q <= s.len() && p <= q {
                lemma_split_whitespace_piece_bound(s, q, m - 1);
            }
        }
    }
}

/// An occurrence inside the piece `s[lo..hi]` is an occurrence in `s`.
proof fn lemma_occurs_in_piece(s: Seq<u8>, sub: Seq<u8>, lo: int, hi: int, j: int)
    requires
        0 <= lo <= hi <= s.len(),
        occurs_at(s.subrange(lo, hi), sub, j),
    ensures
        occurs_at(s, sub, lo + j),
        lo + j + sub.len() <= hi,
{
    assert(s.subrange(lo, hi).subrange(j, j + sub.len()) =~= s.subrange(lo + j, lo + j + sub.len()));
}

/// Without a limit, no piece of a split on a nonempty separator contains the
/// separator.
pub proof fn lemma_split_pieces_hold_no_separator(s: Seq<u8>, sep: Seq<u8>, pos: int, m: int)
    requires
        sep.len() > 0,
        0 <= pos <= s.len(),
        m < 0,
    ensures
        forall|k: int, j: int|
            0 <= k < split_from(s, sep, pos, m).len() ==> !#[trigger] occurs_at(split_from(s, sep, pos, m)[k], sep, j),
    decreases s.len() - pos,
{
    lemma_first_from_is_leftmost(s, sep, pos);
    let pieces = split_from(s, sep, pos, m);
    match first_from(s, sep, pos) {
        None => {
            assert forall|k: int, j: int| 0 <= k < pieces.len() implies !#[trigger] occurs_at(pieces[k], sep, j) by {
                if occurs_at(pieces[k], sep, j) {
                    lemma_occurs_in_piece(s, sep, pos, s.len() as int, j);
                    assert(!occurs_at(s, sep, pos + j));
                }
            }
        },
        Some(i) => {
            let n = sep.len();
            lemma_split_pieces_hold_no_separator(s, sep, i + n, m - 1);
            let rest = split_from(s, sep, i + n, m - 1);
            assert(pieces == seq![s.subrange(pos, i)] + rest);
            assert forall|k: int, j: int| 0 <= k < pieces.len() implies !#[trigger] occurs_at(pieces[k], sep, j) by {
                if k == 0 {
                    if occurs_at(pieces[k], sep, j) {
                        lemma_occurs_in_piece(s, sep, pos, i, j);
                        assert(!occurs_at(s, sep, pos + j));
                    }
                } else {
                    assert(pieces[k] == rest[k - 1]);
                }
            }
        },
    }
}


/// Whether `sub` occurs at `j` does not depend on bytes after the occurrence.
proof fn lemma_occurs_in_prefix(s: Seq<u8>, sub: Seq<u8>, i: int, j: int)
    requires
        0 <= i <= s.len(),
        j + sub.len() <= i,
    ensures
        occurs_at(s.take(i), sub, j) == occurs_at(s, sub, j),
{
    if 0 <= j {
        assert(s.take(i).subrange(j, j + sub.len()) =~= s.subrange(j, j + sub.len()));
    }
}

/// Any two negative limits split alike.
proof fn lemma_split_unlimited(s: Seq<u8>, sep: Seq<u8>, pos: int, m1: int, m2: int)
    requires
        sep.len() > 0,
        0 <= pos <= s.len(),
        m1 < 0,
        m2 < 0,
    ensures
        split_from(s, sep, pos, m1) == split_from(s, sep, pos, m2),
    decreases s.len() - pos,
{
    lemma_first_from_is_leftmost(s, sep, pos);
    if let Some(k) = first_from(s, sep, pos) {
        lemma_split_unlimited(s, sep, k + sep.len(), m1 - 1, m2 - 1);
    }
}

/// Any two negative limits split alike from the right.
proof fn lemma_rsplit_unlimited(s: Seq<u8>, sep: Seq<u8>, end: int, m1: int, m2: int)
    requires
        sep.len() > 0,
        0 <= end <= s.len(),
        m1 < 0,
        m2 < 0,
    ensures
        rsplit_to(s, sep, end, m1) == rsplit_to(s, sep, end, m2),
    decreases end,
{
    lemma_last_before_is_rightmost(s, sep, end);
    if let Some(k) = last_before(s, sep, end) {
        lemma_rsplit_unlimited(s, sep, k, m1 - 1, m2 - 1);
    }
}

/// Splitting without a limit on a one-byte separator whose last occurrence is
/// at `i`: the pieces of `s[..i]`, then what follows the occurrence.
proof fn lemma_split_at_last_occurrence(s: Seq<u8>, sep: Seq<u8>, i: int, pos: int, m: int)
    requires
        sep.len() == 1,
        occurs_at(s, sep, i),
        forall|j: int| i < j ==> !#[trigger] occurs_at(s, sep, j),
        0 <= pos <= i,
        m < 0,
    ensures
        split_from(s, sep, pos, m) == split_from(s.take(i), sep, pos, m).push(s.subrange(i + 1, s.len() as int)),
    decreases i - pos,
{
    let t = s.take(i);
    let u = s.subrange(i + 1, s.len() as int);
    lemma_first_from_is_leftmost(s, sep, pos);
    lemma_first_from_is_leftmost(t, sep, pos);
    match first_from(t, sep, pos) {
        Some(k) => {
            lemma_occurs_in_prefix(s, sep, i, k);
            assert(first_from(s, sep, pos) == Some(k)) by {
                match first_from(s, sep, pos) {
                    Some(k2) => {
                        if k2 < k {
                            lemma_occurs_in_prefix(s, sep, i, k2);
                        }
                    },
                    None => {},
                }
            }
            lemma_split_at_last_occurrence(s, sep, i, k + 1, m - 1);
            assert(t.subrange(pos, k) =~= s.subrange(pos, k));
            let x = split_from(t, sep, k + 1, m - 1);
            assert(seq![s.subrange(pos, k)] + x.push(u) =~= (seq![t.subrange(pos, k)] + x).push(u));
        },
        None => {
            assert(first_from(s, sep, pos) == Some(i)) by {
                match first_from(s, sep, pos) {
                    Some(k2) => {
                        if k2 < i {
                            lemma_occurs_in_prefix(s, sep, i, k2);
                        }
                    },
                    None => {},
                }
            }
            lemma_first_from_is_leftmost(s, sep, i + 1);
            assert(first_from(s, sep, i + 1) is None) by {
                if let Some(k3) = first_from(s, sep, i + 1) {
                    assert(occurs_at(s, sep, k3));
                }
            }
            assert(t.subrange(pos, t.len() as int) =~= s.subrange(pos, i));
            assert(split_from(s, sep, i + 1, m - 1) == seq![u]);
            assert(split_from(s, sep, pos, m) == seq![s.subrange(pos, i)] + split_from(s, sep, i + 1, m - 1));
            assert(seq![s.subrange(pos, i)] + seq![u] =~= seq![t.subrange(pos, t.len() as int)].push(u));
        },
    }
}

/// `rsplit` of `s[..end]` without a limit on a one-byte separator is `split` of it.
proof fn lemma_rsplit_is_split_prefix(s: Seq<u8>, sep: Seq<u8>, end: int)
    requires
        sep.len() == 1,
        0 <= end <= s.len(),
    ensures
        rsplit_to(s, sep, end, -1) == split_from(s.take(end), sep, 0, -1),
    decreases end,
{
    let t = s.take(end);
    lemma_last_before_is_rightmost(s, sep, end);
    lemma_first_from_is_leftmost(t, sep, 0);
    match last_before(s, sep, end) {
        None => {
            assert(first_from(t, sep, 0) is None) by {
                if let Some(k) = first_from(t, sep, 0) {
                    lemma_occurs_in_prefix(s, sep, end, k);
                }
            }
            assert(t.subrange(0, t.len() as int) =~= s.subrange(0, end));
        },
        Some(i) => {
            lemma_rsplit_unlimited(s, sep, i, -2, -1);
            lemma_rsplit_is_split_prefix(s, sep, i);
            lemma_occurs_in_prefix(s, sep, end, i);
            assert forall|j: int| i < j implies !#[trigger] occurs_at(t, sep, j) by {
                if j + 1 <= end {
                    lemma_occurs_in_prefix(s, sep, end, j);
                }
            }
            lemma_split_at_last_occurrence(t, sep, i, 0, -1);
            assert(t.take(i) =~= s.take(i));
            assert(t.subrange(i + 1, t.len() as int) =~= s.subrange(i + 1, end));
        },
    }
}

/// Without a limit, `rsplit` and `split` on a one-byte separator give the same pieces.
pub proof fn lemma_rsplit_equals_split_one_byte(s: Seq<u8>, sep: Seq<u8>, m1: int, m2: int)
    requires
        sep.len() == 1,
        m1 < 0,
        m2 < 0,
    ensures
        rsplit_to(s, sep, s.len() as int, m2) == split_from(s, sep, 0, m1),
{
    lemma_rsplit_is_split_prefix(s, sep, s.len() as int);
    assert(s.take(s.len() as int) =~= s);
    lemma_rsplit_unlimited(s, sep, s.len() as int, m2, -1);
    lemma_split_unlimited(s, sep, 0, m1, -1);
}


/// What `skip_space` and `skip_word` find: the end of a run of whitespace
/// (or of other bytes) that starts at `i`.
proof fn lemma_skip_forward(s: Seq<u8>, i: int)
    requires
        0 <= i <= s.len(),
    ensures
        i <= skip_space(s, i) <= s.len(),
        forall|k: int| i <= k < skip_space(s, i) ==> is_space(#[trigger] s[k]),
        skip_space(s, i) < s.len() ==> !is_space(s[skip_space(s, i)]),
        i <= skip_word(s, i) <= s.len(),
        forall|k: int| i <= k < skip_word(s, i) ==> !is_space(#[trigger] s[k]),
        skip_word(s, i) < s.len() ==> is_space(s[skip_word(s, i)]),
    decreases s.len() - i,
{
    if i < s.len() {
        lemma_skip_forward(s, i + 1);
    }
}

/// What `skip_space_back` and `skip_word_back` find: the start of a run of
/// whitespace (or of other bytes) that ends at `j`.
proof fn lemma_skip_backward(s: Seq<u8>, j: int)
    requires
        0 <= j <= s.len(),
    ensures
        0 <= skip_space_back(s, j) <= j,
        forall|k: int| skip_space_back(s, j) <= k < j ==> is_space(#[trigger] s[k]),
        skip_space_back(s, j) > 0 ==> !is_space(s[skip_space_back(s, j) - 1]),
        0 <= skip_word_back(s, j) <= j,
        forall|k: int| skip_word_back(s, j) <= k < j ==> !is_space(#[trigger] s[k]),
        skip_word_back(s, j) > 0 ==> is_space(s[skip_word_back(s, j) - 1]),
    decreases j,
{
    if j > 0 {
        lemma_skip_backward(s, j - 1);
    }
}

/// Skipping in a prefix stops at the prefix's end at the latest.
proof fn lemma_skip_in_prefix(s: Seq<u8>, q: int, pos: int)
    requires
        0 <= pos <= q <= s.len(),
    ensures
        skip_space(s.take(q), pos) == if skip_space(s, pos) < q { skip_space(s, pos) } else { q },
        skip_word(s.take(q), pos) == if skip_word(s, pos) < q { skip_word(s, pos) } else { q },
    decreases q - pos,
{
    lemma_skip_forward(s, pos);
    if pos < q {
        assert(s.take(q)[pos] == s[pos]);
        lemma_skip_in_prefix(s, q, pos + 1);
        lemma_skip_forward(s, pos + 1);
    }
}

/// Skipping over a known run finds its end.
proof fn lemma_skip_known_run(s: Seq<u8>, i: int, e: int, space: bool)
    requires
        0 <= i <= e <= s.len(),
        forall|k: int| i <= k < e ==> is_space(#[trigger] s[k]) == space,
        e < s.len() ==> is_space(s[e]) != space,
    ensures
        space ==> skip_space(s, i) == e,
        !space ==> skip_word(s, i) == e,
    decreases e - i,
{
    if i < e {
        lemma_skip_known_run(s, i + 1, e, space);
    }
}

/// Any two negative limits split alike on whitespace.
proof fn lemma_split_ws_unlimited(s: Seq<u8>, i: int, m1: int, m2: int)
    requires
        0 <= i <= s.len(),
        m1 < 0,
        m2 < 0,
    ensures
        split_ws_from(s, i, m1) == split_ws_from(s, i, m2),
    decreases s.len() - i,
{
    lemma_skip_forward(s, i);
    let p = skip_space(s, i);
    if p < s.len() {
        lemma_skip_forward(s, p);
        let q = skip_word(s, p);
        if i < q <= s.len() && p <= q {
            lemma_split_ws_unlimited(s, q, m1 - 1, m2 - 1);
        }
    }
}

/// Any two negative limits split alike on whitespace from the right.
proof fn lemma_rsplit_ws_unlimited(s: Seq<u8>, j: int, m1: int, m2: int)
    requires
        0 <= j <= s.len(),
        m1 < 0,
        m2 < 0,
    ensures
        rsplit_ws_to(s, j, m1) == rsplit_ws_to(s, j, m2),
    decreases j,
{
    lemma_skip_backward(s, j);
    let p = skip_space_back(s, j);
    if p > 0 {
        lemma_skip_backward(s, p);
        let q = skip_word_back(s, p);
        if 0 <= q < j && q <= p {
            lemma_rsplit_ws_unlimited(s, q, m1 - 1, m2 - 1);
        }
    }
}

/// Splitting on whitespace without a limit, where the last run of
/// non-whitespace bytes is `s[q..p]`: the pieces of `s[..q]`, then that run.
proof fn lemma_split_ws_at_last_word(s: Seq<u8>, q: int, p: int, pos: int, m: int)
    requires
        0 <= pos <= q < p <= s.len(),
        forall|k: int| q <= k < p ==> !is_space(#[trigger] s[k]),
        forall|k: int| p <= k < s.len() ==> is_space(#[trigger] s[k]),
        q > 0 ==> is_space(s[q - 1]),
        m < 0,
    ensures
        split_ws_from(s, pos, m) == split_ws_from(s.take(q), pos, m).push(s.subrange(q, p)),
    decreases q - pos,
{
    let t = s.take(q);
    lemma_skip_forward(s, pos);
    lemma_skip_in_prefix(s, q, pos);
    let pp = skip_space(s, pos);
    assert(pp <= q) by {
        if pp > q {
            assert(is_space(s[q]));
        }
    }
    if pp == q {
        lemma_skip_known_run(s, q, p, false);
        lemma_skip_known_run(s, p, s.len() as int, true);
        assert(split_ws_from(s, p, m - 1) == Seq::<Seq<u8>>::empty());
        assert(split_ws_from(t, pos, m) == Seq::<Seq<u8>>::empty());
        assert(split_ws_from(s, pos, m) == seq![s.subrange(q, p)] + split_ws_from(s, p, m - 1));
        assert(seq![s.subrange(q, p)] + Seq::<Seq<u8>>::empty() =~= Seq::<Seq<u8>>::empty().push(
            s.subrange(q, p),
        ));
    } else {
        lemma_skip_forward(s, pp);
        lemma_skip_in_prefix(s, q, pp);
        let qq = skip_word(s, pp);
        assert(qq < q) by {
            if qq >= q {
                assert(!is_space(s[q - 1]));
            }
        }
        assert(!is_space(s[pp]));
        assert(pp < qq);
        lemma_split_ws_at_last_word(s, q, p, qq, m - 1);
        assert(t.subrange(pp, qq) =~= s.subrange(pp, qq));
        let x = split_ws_from(t, qq, m - 1);
        assert(split_ws_from(s, pos, m) == seq![s.subrange(pp, qq)] + split_ws_from(s, qq, m - 1));
        assert(split_ws_from(t, pos, m) == seq![t.subrange(pp, qq)] + x);
        assert(seq![s.subrange(pp, qq)] + x.push(s.subrange(q, p)) =~= (seq![t.subrange(pp, qq)] + x).push(
            s.subrange(q, p),
        ));
    }
}

/// `rsplit` of `s[..end]` on whitespace without a limit is `split` of it.
proof fn lemma_rsplit_ws_is_split_prefix(s: Seq<u8>, end: int)
    requires
        0 <= end <= s.len(),
    ensures
        rsplit_ws_to(s, end, -1) == split_ws_from(s.take(end), 0, -1),
    decreases end,
{
    let t = s.take(end);
    lemma_skip_backward(s, end);
    let p = skip_space_back(s, end);
    if p == 0 {
        assert forall|k: int| 0 <= k < t.len() implies is_space(#[trigger] t[k]) by {
            assert(t[k] == s[k]);
        }
        lemma_skip_known_run(t, 0, t.len() as int, true);
        assert(split_ws_from(t, 0, -1) == Seq::<Seq<u8>>::empty());
    } else {
        lemma_skip_backward(s, p);
        let q = skip_word_back(s, p);
        assert(!is_space(s[p - 1]));
        assert(q < p);
        lemma_rsplit_ws_unlimited(s, q, -2, -1);
        lemma_rsplit_ws_is_split_prefix(s, q);
        assert(rsplit_ws_to(s, end, -1) == rsplit_ws_to(s, q, -2).push(s.subrange(q, p)));
        assert forall|k: int| q <= k < p implies !is_space(#[trigger] t[k]) by {
            assert(t[k] == s[k]);
        }
        assert forall|k: int| p <= k < t.len() implies is_space(#[trigger] t[k]) by {
            assert(t[k] == s[k]);
        }
        if q > 0 {
            assert(t[q - 1] == s[q - 1]);
        }
        lemma_split_ws_at_last_word(t, q, p, 0, -1);
        assert(t.take(q) =~= s.take(q));
        assert(t.subrange(q, p) =~= s.subrange(q, p));
    }
}

/// Without a limit, `rsplit` and `split` on whitespace give the same pieces.
pub proof fn lemma_rsplit_equals_split_whitespace(s: Seq<u8>, m1: int, m2: int)
    requires
        m1 < 0,
        m2 < 0,
    ensures
        rsplit_ws_to(s, s.len() as int, m2) == split_ws_from(s, 0, m1),
{
    lemma_rsplit_ws_is_split_prefix(s, s.len() as int);
    assert(s.take(s.len() as int) =~= s);
    lemma_rsplit_ws_unlimited(s, s.len() as int, m2, -1);
    lemma_split_ws_unlimited(s, 0, m1, -1);
}


/// A line ending: `\r\n`, `\n`, `\r`, or none at all.
pub open spec fn is_line_ending(e: Seq<u8>) -> bool {
    e == seq![13u8, 10u8] || e == seq![10u8] || e == seq![13u8] || e.len() == 0
}

/// `x` without its final line ending, if it has one.
pub open spec fn without_line_end(x: Seq<u8>) -> Seq<u8> {
    if x.len() >= 2 && x[x.len() - 2] == 13 && x[x.len() - 1] == 10 {
        x.subrange(0, x.len() - 2)
    } else if x.len() >= 1 && is_line_break(x[x.len() - 1]) {
        x.subrange(0, x.len() - 1)
    } else {
        x
    }
}

/// What `line_end` finds: the first line break at or after `j`.
proof fn lemma_line_end_is_first_break(s: Seq<u8>, j: int)
    requires
        0 <= j <= s.len(),
    ensures
        j <= line_end(s, j) <= s.len(),
        forall|k: int| j <= k < line_end(s, j) ==> !is_line_break(#[trigger] s[k]),
        line_end(s, j) < s.len() ==> is_line_break(s[line_end(s, j)]),
    decreases s.len() - j,
{
    if j < s.len() {
        lemma_line_end_is_first_break(s, j + 1);
    }
}

/// The lines with their endings and the plain lines of `s[j..]` correspond
/// one to one: each plain line holds no line break, and is the kept line
/// without its ending, which is a line ending that only the last line may lack.
proof fn lemma_lines_correspond_from(s: Seq<u8>, j: int)
    requires
        0 <= j <= s.len(),
    ensures
        ({
            let kept = lines_from(s, j, true);
            let plain = lines_from(s, j, false);
            &&& kept.len() == plain.len()
            &&& forall|i: int| 0 <= i < kept.len() ==> #[trigger] kept[i].len() > 0
            &&& forall|i: int| 0 <= i < kept.len() ==> without_line_end(#[trigger] kept[i]) == plain[i]
            &&& forall|i: int, k: int|
                0 <= i < plain.len() && 0 <= k < plain[i].len() ==> !is_line_break(#[trigger] plain[i][k])
            &&& forall|i: int|
                0 <= i < kept.len() ==> #[trigger] kept[i] == plain[i] + kept[i].subrange(
                    plain[i].len() as int,
                    kept[i].len() as int,
                ) && is_line_ending(kept[i].subrange(plain[i].len() as int, kept[i].len() as int))
                    && (i + 1 < kept.len() ==> kept[i].len() > plain[i].len())
        }),
    decreases s.len() - j,
{
    if j < s.len() {
        lemma_line_end_is_first_break(s, j);
        let e = line_end(s, j);
        let next = after_break(s, e);
        lemma_lines_correspond_from(s, next);
        let kept = lines_from(s, j, true);
        let plain = lines_from(s, j, false);
        let k2 = lines_from(s, next, true);
        let p2 = lines_from(s, next, false);
        let a = s.subrange(j, next);
        let b = s.subrange(j, e);
        assert(kept == seq![a] + k2);
        assert(plain == seq![b] + p2);
        assert(a == b + a.subrange(b.len() as int, a.len() as int)) by {
            assert(a =~= b + a.subrange(b.len() as int, a.len() as int));
        }
        let ending = a.subrange(b.len() as int, a.len() as int);
        assert(ending =~= s.subrange(e, next));
        if e < s.len() {
            if s[e] == 13 && e + 1 < s.len() && s[e + 1] == 10 {
                assert(ending =~= seq![13u8, 10u8]);
            } else if s[e] == 13 {
                assert(ending =~= seq![13u8]);
            } else {
                assert(ending =~= seq![10u8]);
            }
        } else {
            assert(ending.len() == 0);
            assert(k2.len() == 0);
        }
        assert(without_line_end(a) == b) by {
            if e < s.len() {
                if s[e] == 13 && e + 1 < s.len() && s[e + 1] == 10 {
                    assert(a.subrange(0, a.len() - 2) =~= b);
                } else {
                    if a.len() >= 2 {
                        assert(a[a.len() - 2] == s[e - 1]);
                        assert(!is_line_break(s[e - 1]));
                    }
                    assert(a.subrange(0, a.len() - 1) =~= b);
                }
            } else {
                assert(a =~= b);
                assert(!is_line_break(a[a.len() - 1]));
            }
        }
        assert forall|i: int, k: int|
            0 <= i < plain.len() && 0 <= k < plain[i].len() implies !is_line_break(#[trigger] plain[i][k]) by {
            if i == 0 {
                assert(plain[i][k] == s[j + k]);
            } else {
                assert(plain[i] == p2[i - 1]);
            }
        }
        assert forall|i: int| 0 <= i < kept.len() implies #[trigger] kept[i].len() > 0 by {
            if i > 0 {
                assert(kept[i] == k2[i - 1]);
            }
        }
        assert forall|i: int| 0 <= i < kept.len() implies without_line_end(#[trigger] kept[i]) == plain[i] by {
            if i > 0 {
                assert(kept[i] == k2[i - 1]);
                assert(plain[i] == p2[i - 1]);
            }
        }
        assert forall|i: int|
            0 <= i < kept.len() implies #[trigger] kept[i] == plain[i] + kept[i].subrange(
                plain[i].len() as int,
                kept[i].len() as int,
            ) && is_line_ending(kept[i].subrange(plain[i].len() as int, kept[i].len() as int))
                && (i + 1 < kept.len() ==> kept[i].len() > plain[i].len()) by {
            if i > 0 {
                assert(kept[i] == k2[i - 1]);
                assert(plain[i] == p2[i - 1]);
            }
        }
    }
}

/// `splitlines(keepends=True)` and `splitlines()` make as many pieces; each
/// piece with its ending is nonempty, each plain piece holds no line break and
/// is the piece with its ending removed; the ending is `\r\n`, `\n` or `\r`,
/// and only the last piece may have none.
pub proof fn lemma_splitlines_keepends_correspond(s: Seq<u8>)
    ensures
        ({
            let kept = lines_from(s, 0, true);
            let plain = lines_from(s, 0, false);
            &&& kept.len() == plain.len()
            &&& forall|i: int| 0 <= i < kept.len() ==> #[trigger] kept[i].len() > 0
            &&& forall|i: int| 0 <= i < kept.len() ==> without_line_end(#[trigger] kept[i]) == plain[i]
            &&& forall|i: int, k: int|
                0 <= i < plain.len() && 0 <= k < plain[i].len() ==> !is_line_break(#[trigger] plain[i][k])
            &&& forall|i: int|
                0 <= i < kept.len() ==> #[trigger] kept[i] == plain[i] + kept[i].subrange(
                    plain[i].len() as int,
                    kept[i].len() as int,
                ) && is_line_ending(kept[i].subrange(plain[i].len() as int, kept[i].len() as int))
                    && (i + 1 < kept.len() ==> kept[i].len() > plain[i].len())
        }),
{
    lemma_lines_correspond_from(s, 0);
}

} // verus!
