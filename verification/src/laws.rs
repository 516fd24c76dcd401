//! Properties that relate the operations on bytes objects to one another.
use vstd::prelude::*;

use crate::bytes::{lex_less, lex_less_from, repeat_seq, lemma_repeat_len, bytes_hash};
use crate::codec::{decoded, codec_named, Codec, ascii_decode_prefix, ascii_encode_prefix, ErrorHandler};
use crate::hex::{hexed, hex_digit, hex_value, fromhex_from, is_hex_space};
use crate::pad::{justified, Justify, zero_filled};
use crate::search::{occurs_in, adjust_start, adjust_end};
use crate::split::{lines_from, line_end, after_break};
use crate::subscript::slice_of;
use crate::transform::{replace_from, replaced, interleave_prefix, stripped, lstripped, rstripped, skip_left, skip_right, translate_prefix};
use vstd::utf8::encode_utf8;
use crate::ctype::{map_case, CaseMap};
use crate::search::{occurs_at, first_from, last_before, count_from, count_in};
use crate::split::{split_from, rsplit_to};
use crate::transform::{joined, join_tail};

verus! {

/// A found leftmost occurrence is an occurrence, at or after the start.
pub proof fn lemma_first_from_occurs(s: Seq<u8>, sub: Seq<u8>, pos: int)
    ensures
        first_from(s, sub, pos) matches Some(i) ==> pos <= i && occurs_at(s, sub, i),
    decreases s.len() - pos,
{
    if 0 <= pos && pos + sub.len() <= s.len() && !occurs_at(s, sub, pos) && pos < s.len() {
        lemma_first_from_occurs(s, sub, pos + 1);
    }
}

/// A found rightmost occurrence is an occurrence that ends at or before the end.
pub proof fn lemma_last_before_occurs(s: Seq<u8>, sub: Seq<u8>, end: int)
    ensures
        last_before(s, sub, end) matches Some(i) ==> i + sub.len() <= end && occurs_at(s, sub, i),
    decreases end,
{
    if sub.len() <= end <= s.len() && !occurs_at(s, sub, end - sub.len()) && end > 0 {
        lemma_last_before_occurs(s, sub, end - 1);
    }
}

/// No sequence comes before itself.
pub proof fn lemma_lex_less_irreflexive(a: Seq<u8>)
    ensures
        !lex_less(a, a),
{
    lemma_lex_less_from_irreflexive(a, 0);
}

proof fn lemma_lex_less_from_irreflexive(a: Seq<u8>, i: int)
    requires
        0 <= i <= a.len(),
    ensures
        !lex_less_from(a, a, i),
    decreases a.len() - i,
{
    if i < a.len() {
        lemma_lex_less_from_irreflexive(a, i + 1);
    }
}

/// Of two different sequences exactly one comes before the other.
pub proof fn lemma_lex_less_trichotomy(a: Seq<u8>, b: Seq<u8>)
    ensures
        a != b ==> (lex_less(a, b) <==> !lex_less(b, a)),
        lex_less(a, b) ==> a != b,
{
    lemma_lex_less_irreflexive(a);
    assert(a.take(0) =~= b.take(0));
    lemma_lex_less_from_trichotomy(a, b, 0);
}

proof fn lemma_lex_less_from_trichotomy(a: Seq<u8>, b: Seq<u8>, i: int)
    requires
        0 <= i <= a.len(),
        i <= b.len(),
        a.take(i) == b.take(i),
    ensures
        a != b ==> (lex_less_from(a, b, i) <==> !lex_less_from(b, a, i)),
    decreases a.len() - i,
{
    if i < a.len() && i < b.len() && a[i] == b[i] {
        assert(a.take(i + 1) =~= b.take(i + 1)) by {
            assert(a.take(i + 1) =~= a.take(i).push(a[i]));
            assert(b.take(i + 1) =~= b.take(i).push(b[i]));
        }
        lemma_lex_less_from_trichotomy(a, b, i + 1);
    } else if i == a.len() && i == b.len() {
        assert(a =~= a.take(i));
        assert(b =~= b.take(i));
    }
}

/// The order is transitive.
pub proof fn lemma_lex_less_transitive(a: Seq<u8>, b: Seq<u8>, c: Seq<u8>)
    requires
        lex_less(a, b),
        lex_less(b, c),
    ensures
        lex_less(a, c),
{
    lemma_lex_less_from_transitive(a, b, c, 0);
}

proof fn lemma_lex_less_from_transitive(a: Seq<u8>, b: Seq<u8>, c: Seq<u8>, i: int)
    requires
        0 <= i,
        lex_less_from(a, b, i),
        lex_less_from(b, c, i),
    ensures
        lex_less_from(a, c, i),
    decreases a.len() - i,
{
    if i < a.len() && i < b.len() && i < c.len() && a[i] == b[i] && b[i] == c[i] {
        lemma_lex_less_from_transitive(a, b, c, i + 1);
    }
}

/// Swapping the case twice gives back the bytes.
pub proof fn lemma_swapcase_involutive(s: Seq<u8>)
    ensures
        map_case(map_case(s, CaseMap::Swap), CaseMap::Swap) == s,
{
    assert(map_case(map_case(s, CaseMap::Swap), CaseMap::Swap) =~= s);
}

/// Upper-casing the lower-cased bytes is upper-casing them, and the other way round.
pub proof fn lemma_case_maps_absorb(s: Seq<u8>)
    ensures
        map_case(map_case(s, CaseMap::Lower), CaseMap::Upper) == map_case(s, CaseMap::Upper),
        map_case(map_case(s, CaseMap::Upper), CaseMap::Lower) == map_case(s, CaseMap::Lower),
{
    assert(map_case(map_case(s, CaseMap::Lower), CaseMap::Upper) =~= map_case(s, CaseMap::Upper));
    assert(map_case(map_case(s, CaseMap::Upper), CaseMap::Lower) =~= map_case(s, CaseMap::Lower));
}

/// `n` copies of `s` are `n` times as long as `s`, and `n + 1` copies are `n`
/// copies followed by one more.
pub proof fn lemma_repeat_shape(s: Seq<u8>, n: nat)
    ensures
        repeat_seq(s, n).len() == n * s.len(),
        repeat_seq(s, n + 1) == repeat_seq(s, n) + s,
{
    lemma_repeat_len(s, n);
}

/// The tail of a join after a first part: shifting the parts by one shifts the tail.
proof fn lemma_join_tail_shift(sep: Seq<u8>, x: Seq<u8>, rest: Seq<Seq<u8>>, k: int)
    requires
        0 <= k,
    ensures
        join_tail(sep, seq![x] + rest, k + 1) == join_tail(sep, rest, k),
    decreases rest.len() - k,
{
    if k < rest.len() {
        lemma_join_tail_shift(sep, x, rest, k + 1);
        assert((seq![x] + rest)[k + 1] == rest[k]);
    }
}

/// Joining a part in front of a nonempty list puts the separator between them.
pub proof fn lemma_joined_cons(sep: Seq<u8>, x: Seq<u8>, rest: Seq<Seq<u8>>)
    requires
        rest.len() > 0,
    ensures
        joined(sep, seq![x] + rest) == x + sep + joined(sep, rest),
{
    lemma_join_tail_shift(sep, x, rest, 0);
    assert(join_tail(sep, rest, 0) == sep + rest[0] + join_tail(sep, rest, 1));
    lemma_join_tail_shift(sep, rest[0], rest.drop_first(), 0);
    assert(seq![rest[0]] + rest.drop_first() =~= rest);
    assert((seq![x] + rest)[0] == x);
}

/// `sep.join(s[pos:].split(sep, m))` is `s[pos:]`, whatever the limit `m`.
pub proof fn lemma_split_join_from(s: Seq<u8>, sep: Seq<u8>, pos: int, m: int)
    requires
        sep.len() > 0,
        0 <= pos <= s.len(),
    ensures
        split_from(s, sep, pos, m).len() > 0,
        joined(sep, split_from(s, sep, pos, m)) == s.subrange(pos, s.len() as int),
    decreases s.len() - pos,
{
    if m != 0 {
        lemma_first_from_occurs(s, sep, pos);
        match first_from(s, sep, pos) {
            None => {},
            Some(i) => {
                let n = sep.len();
                lemma_split_join_from(s, sep, i + n, m - 1);
                let rest = split_from(s, sep, i + n, m - 1);
                lemma_joined_cons(sep, s.subrange(pos, i), rest);
                assert(s.subrange(i, i + n) == sep);
                assert(s.subrange(pos, i) + sep + s.subrange(i + n, s.len() as int) =~= s.subrange(
                    pos,
                    s.len() as int,
                ));
            },
        }
    }
}

/// Joining the pieces that `split` makes with the same separator gives back
/// the bytes: `sep.join(b.split(sep, m)) == b` for any nonempty `sep` and any `m`.
pub proof fn lemma_split_then_join(s: Seq<u8>, sep: Seq<u8>, m: int)
    requires
        sep.len() > 0,
    ensures
        joined(sep, split_from(s, sep, 0, m)) == s,
{
    lemma_split_join_from(s, sep, 0, m);
    assert(s.subrange(0, s.len() as int) =~= s);
}

/// Joining a nonempty list with one more part at its end puts the separator before it.
pub proof fn lemma_joined_snoc(sep: Seq<u8>, front: Seq<Seq<u8>>, x: Seq<u8>)
    requires
        front.len() > 0,
    ensures
        joined(sep, front.push(x)) == joined(sep, front) + sep + x,
    decreases front.len(),
{
    if front.len() == 1 {
        assert(front.push(x) =~= seq![front[0]] + seq![x]);
        lemma_joined_cons(sep, front[0], seq![x]);
        assert(joined(sep, seq![x]) == x + join_tail(sep, seq![x], 1));
        assert(joined(sep, front) == front[0] + join_tail(sep, front, 1));
    } else {
        let rest = front.drop_first();
        lemma_joined_snoc(sep, rest, x);
        assert(front =~= seq![front[0]] + rest);
        assert(front.push(x) =~= seq![front[0]] + rest.push(x));
        lemma_joined_cons(sep, front[0], rest.push(x));
        lemma_joined_cons(sep, front[0], rest);
    }
}

/// `sep.join(s[:end].rsplit(sep, m))` is `s[:end]`, whatever the limit `m`.
pub proof fn lemma_rsplit_join_to(s: Seq<u8>, sep: Seq<u8>, end: int, m: int)
    requires
        sep.len() > 0,
        0 <= end <= s.len(),
    ensures
        rsplit_to(s, sep, end, m).len() > 0,
        joined(sep, rsplit_to(s, sep, end, m)) == s.subrange(0, end),
    decreases end,
{
    if m != 0 {
        lemma_last_before_occurs(s, sep, end);
        match last_before(s, sep, end) {
            None => {},
            Some(i) => {
                let n = sep.len();
                lemma_rsplit_join_to(s, sep, i, m - 1);
                let front = rsplit_to(s, sep, i, m - 1);
                lemma_joined_snoc(sep, front, s.subrange(i + n, end));
                assert(s.subrange(i, i + n) == sep);
                assert(s.subrange(0, i) + sep + s.subrange(i + n, end) =~= s.subrange(0, end));
            },
        }
    }
}

/// Joining the pieces that `rsplit` makes with the same separator gives back
/// the bytes: `sep.join(b.rsplit(sep, m)) == b` for any nonempty `sep` and any `m`.
pub proof fn lemma_rsplit_then_join(s: Seq<u8>, sep: Seq<u8>, m: int)
    requires
        sep.len() > 0,
    ensures
        joined(sep, rsplit_to(s, sep, s.len() as int, m)) == s,
{
    lemma_rsplit_join_to(s, sep, s.len() as int, m);
    assert(s.subrange(0, s.len() as int) =~= s);
}


/// Bytes objects with the same contents have the same hash.
pub proof fn lemma_hash_respects_equality(a: Seq<u8>, b: Seq<u8>)
    requires
        a == b,
    ensures
        bytes_hash(a) == bytes_hash(b),
{
}

/// `find` with the default bounds finds something exactly when `in` holds:
/// both look in the window of the whole object.
pub proof fn lemma_find_agrees_with_contains(s: Seq<u8>, sub: Seq<u8>)
    ensures
        adjust_start(None, s.len() as int) == 0,
        adjust_end(None, s.len() as int) == s.len(),
        occurs_in(s, sub, adjust_start(None, s.len() as int), adjust_end(None, s.len() as int))
            == occurs_in(s, sub, 0, s.len() as int),
{
}

/// A hexadecimal digit reads back as the value it was written for.
proof fn lemma_hex_digit_value(d: int)
    requires
        0 <= d < 16,
    ensures
        hex_value(hex_digit(d)) == d,
        !is_hex_space(hex_digit(d)),
{
}

/// Reading back the hexadecimal text of `s` from the digit pair of byte `k`
/// on gives the bytes from `k` on.
proof fn lemma_fromhex_hexed_from(s: Seq<u8>, k: int)
    requires
        0 <= k <= s.len(),
    ensures
        fromhex_from(hexed(s), 2 * k) == Ok::<Seq<u8>, int>(s.subrange(k, s.len() as int)),
    decreases s.len() - k,
{
    let t = hexed(s);
    if k < s.len() {
        let hi = (s[k] / 16) as int;
        let lo = (s[k] % 16) as int;
        assert(t[2 * k] == hex_digit(hi));
        assert(t[2 * k + 1] == hex_digit(lo));
        lemma_hex_digit_value(hi);
        lemma_hex_digit_value(lo);
        lemma_fromhex_hexed_from(s, k + 1);
        assert((hi * 16 + lo) as u8 == s[k]);
        assert(seq![s[k]] + s.subrange(k + 1, s.len() as int) =~= s.subrange(k, s.len() as int));
    } else {
        assert(s.subrange(k, s.len() as int) =~= Seq::<u8>::empty());
    }
}

/// `bytes.fromhex(b.hex())` gives back `b`.
pub proof fn lemma_hex_roundtrip(s: Seq<u8>)
    ensures
        fromhex_from(hexed(s), 0) == Ok::<Seq<u8>, int>(s),
{
    lemma_fromhex_hexed_from(s, 0);
    assert(s.subrange(0, s.len() as int) =~= s);
}

/// Text encoded as UTF-8 decodes back to the same text, whatever the error handler.
pub proof fn lemma_utf8_roundtrip(t: Seq<char>, encoding: Option<Seq<char>>, errors: Option<Seq<char>>)
    requires
        codec_named(encoding) == Some(Codec::Utf8),
    ensures
        decoded(encode_utf8(t), encoding, errors) == Ok::<Seq<char>, crate::error::BytesError>(t),
{
    vstd::utf8::encode_utf8_valid_utf8(t);
    vstd::utf8::encode_utf8_decode_utf8(t);
    let v = encode_utf8(t);
    assert(v.subrange(0, v.len() as int) =~= v);
}

/// ASCII text encoded as ASCII decodes back to the same text, whatever the
/// error handlers.
pub proof fn lemma_ascii_roundtrip(t: Seq<char>, he: ErrorHandler, hd: ErrorHandler)
    requires
        forall|i: int| 0 <= i < t.len() ==> (#[trigger] t[i] as u32) < 128,
    ensures
        ascii_encode_prefix(t, he, t.len() as int) matches Ok(v)
            && ascii_decode_prefix(v, hd, v.len() as int) == Ok::<Seq<char>, crate::error::BytesError>(t),
{
    lemma_ascii_roundtrip_prefix(t, he, hd, t.len() as int);
    let v = ascii_encode_prefix(t, he, t.len() as int)->Ok_0;
    assert(ascii_decode_prefix(v, hd, t.len() as int) == Ok::<Seq<char>, crate::error::BytesError>(
        t.take(t.len() as int),
    ));
    assert(t.take(t.len() as int) =~= t);
}

proof fn lemma_ascii_roundtrip_prefix(t: Seq<char>, he: ErrorHandler, hd: ErrorHandler, k: int)
    requires
        0 <= k <= t.len(),
        forall|i: int| 0 <= i < t.len() ==> (#[trigger] t[i] as u32) < 128,
    ensures
        ascii_encode_prefix(t, he, k) matches Ok(v) && v.len() == k
            && (forall|i: int| 0 <= i < k ==> #[trigger] v[i] == t[i] as u8)
            && (forall|j: int| 0 <= j <= k ==> #[trigger] ascii_decode_prefix(v, hd, j) == Ok::<Seq<char>, crate::error::BytesError>(t.take(j))),
    decreases k,
{
    if k > 0 {
        lemma_ascii_roundtrip_prefix(t, he, hd, k - 1);
        let prev = ascii_encode_prefix(t, he, k - 1)->Ok_0;
        let c = t[k - 1];
        assert((c as u32) < 128);
        let v = prev.push(c as u8);
        assert(ascii_encode_prefix(t, he, k) == Ok::<Seq<u8>, crate::error::BytesError>(v));
        assert forall|j: int| 0 <= j <= k implies #[trigger] ascii_decode_prefix(v, hd, j)
            == Ok::<Seq<char>, crate::error::BytesError>(t.take(j)) by {
            lemma_ascii_decode_prefix_agrees(v, hd, j, t, k);
        }
    } else {
        assert forall|j: int| 0 <= j <= k implies #[trigger] ascii_decode_prefix(Seq::<u8>::empty(), hd, j)
            == Ok::<Seq<char>, crate::error::BytesError>(t.take(j)) by {
            assert(t.take(0) =~= Seq::<char>::empty());
        }
    }
}

/// Decoding the first `j` bytes of an encoding of ASCII text gives its first
/// `j` characters.
proof fn lemma_ascii_decode_prefix_agrees(v: Seq<u8>, hd: ErrorHandler, j: int, t: Seq<char>, k: int)
    requires
        0 <= j <= k <= t.len(),
        v.len() == k,
        forall|i: int| 0 <= i < t.len() ==> (#[trigger] t[i] as u32) < 128,
        forall|i: int| 0 <= i < k ==> #[trigger] v[i] == t[i] as u8,
    ensures
        ascii_decode_prefix(v, hd, j) == Ok::<Seq<char>, crate::error::BytesError>(t.take(j)),
    decreases j,
{
    if j > 0 {
        lemma_ascii_decode_prefix_agrees(v, hd, j - 1, t, k);
        let c = t[j - 1];
        assert((c as u32) < 128);
        assert(v[j - 1] == c as u8);
        assert((v[j - 1] as char) == c) by {
            vstd::utf8::char_u32_cast(c, c as u32);
        }
        assert(t.take(j - 1).push(c) =~= t.take(j));
    } else {
        assert(t.take(0) =~= Seq::<char>::empty());
    }
}

/// The parts that `partition` gives, put together, are the bytes again.
pub proof fn lemma_partition_recomposes(s: Seq<u8>, sep: Seq<u8>)
    ensures
        first_from(s, sep, 0) matches Some(i) ==> s.subrange(0, i) + sep + s.subrange(
            i + sep.len(),
            s.len() as int,
        ) == s,
        last_before(s, sep, s.len() as int) matches Some(i) ==> s.subrange(0, i) + sep + s.subrange(
            i + sep.len(),
            s.len() as int,
        ) == s,
{
    lemma_first_from_occurs(s, sep, 0);
    lemma_last_before_occurs(s, sep, s.len() as int);
    if let Some(i) = first_from(s, sep, 0) {
        assert(s.subrange(0, i) + sep + s.subrange(i + sep.len(), s.len() as int) =~= s);
    }
    if let Some(i) = last_before(s, sep, s.len() as int) {
        assert(s.subrange(0, i) + sep + s.subrange(i + sep.len(), s.len() as int) =~= s);
    }
}

/// The lines that `splitlines` keeps their breaks in, put together, are the bytes again.
pub proof fn lemma_lines_with_ends_recompose(s: Seq<u8>)
    ensures
        lines_from(s, 0, true).flatten() == s,
{
    lemma_lines_with_ends_recompose_from(s, 0);
    assert(s.subrange(0, s.len() as int) =~= s);
}

proof fn lemma_line_end_bounds(s: Seq<u8>, i: int)
    requires
        0 <= i <= s.len(),
    ensures
        i <= line_end(s, i) <= s.len(),
    decreases s.len() - i,
{
    if i < s.len() && !(s[i] == 10 || s[i] == 13) {
        lemma_line_end_bounds(s, i + 1);
    }
}

proof fn lemma_lines_with_ends_recompose_from(s: Seq<u8>, j: int)
    requires
        0 <= j <= s.len(),
    ensures
        lines_from(s, j, true).flatten() == s.subrange(j, s.len() as int),
    decreases s.len() - j,
{
    if j < s.len() {
        lemma_line_end_bounds(s, j);
        let e = line_end(s, j);
        let next = after_break(s, e);
        lemma_lines_with_ends_recompose_from(s, next);
        let rest = lines_from(s, next, true);
        let all = seq![s.subrange(j, next)] + rest;
        assert(all.first() == s.subrange(j, next));
        assert(all.drop_first() =~= rest);
        assert(s.subrange(j, next) + s.subrange(next, s.len() as int) =~= s.subrange(j, s.len() as int));
    } else {
        assert(s.subrange(j, s.len() as int) =~= Seq::<u8>::empty());
    }
}

/// `b[:]` is `b`, and `b[i:j]` for `0 <= i <= j <= len(b)` is the bytes from `i` to `j`.
pub proof fn lemma_simple_slices(s: Seq<u8>, i: isize, j: isize)
    requires
        0 <= i <= j <= s.len(),
    ensures
        slice_of(s, None, None, None) == s,
        slice_of(s, Some(i), Some(j), None) == s.subrange(i as int, j as int),
{
    assert(slice_of(s, None, None, None) =~= s) by {
        assert forall|k: int| 0 <= k < s.len() implies slice_of(s, None, None, None)[k] == s[k] by {
            assert(k * 1 == k);
        }
        if s.len() > 0 {
            assert((s.len() - 0 - 1) / 1 + 1 == s.len());
        }
    }
    assert(slice_of(s, Some(i), Some(j), None) =~= s.subrange(i as int, j as int)) by {
        assert forall|k: int| 0 <= k < j - i implies slice_of(s, Some(i), Some(j), None)[k] == s[i + k] by {
            assert(k * 1 == k);
        }
        if i < j {
            assert((j - i - 1) / 1 + 1 == j - i);
        }
    }
}

/// Padding gives exactly the width asked for, or the bytes unchanged when
/// they are already as long.
pub proof fn lemma_justified_length(s: Seq<u8>, width: int, f: u8, how: Justify)
    ensures
        justified(s, width, f, how).len() == if width > s.len() {
            width
        } else {
            s.len() as int
        },
        zero_filled(s, width).len() == if width > s.len() {
            width
        } else {
            s.len() as int
        },
{
    if width > s.len() {
        let marg = width - s.len();
        assert(0 <= marg / 2 + (if marg % 2 == 1 && width % 2 == 1 { 1int } else { 0 }) <= marg);
    }
}

/// Replacing an occurrence of `old` by `old` itself changes nothing.
proof fn lemma_replace_same_from(s: Seq<u8>, old: Seq<u8>, pos: int, m: int)
    requires
        old.len() > 0,
        0 <= pos <= s.len(),
    ensures
        replace_from(s, old, old, pos, m) == s.subrange(pos, s.len() as int),
    decreases s.len() - pos,
{
    if m != 0 {
        lemma_first_from_occurs(s, old, pos);
        if let Some(i) = first_from(s, old, pos) {
            lemma_replace_same_from(s, old, i + old.len(), m - 1);
            assert(s.subrange(i, i + old.len()) == old);
            assert(s.subrange(pos, i) + old + s.subrange(i + old.len(), s.len() as int) =~= s.subrange(
                pos,
                s.len() as int,
            ));
        }
    }
}

proof fn lemma_interleave_empty(s: Seq<u8>, k: int)
    requires
        0 <= k <= s.len(),
    ensures
        interleave_prefix(s, Seq::empty(), k) == s.take(k),
    decreases k,
{
    if k > 0 {
        lemma_interleave_empty(s, k - 1);
        assert(s.take(k - 1) + Seq::<u8>::empty() + seq![s[k - 1]] =~= s.take(k));
    } else {
        assert(s.take(0) =~= Seq::<u8>::empty());
    }
}

/// `b.replace(x, x, count)` is `b`.
pub proof fn lemma_replace_with_itself(s: Seq<u8>, old: Seq<u8>, count: int)
    ensures
        replaced(s, old, old, count) == s,
{
    if count != 0 {
        if old.len() == 0 {
            let c = if count < 0 || count > s.len() + 1 {
                s.len() + 1int
            } else {
                count
            };
            lemma_interleave_empty(s, c - 1);
            assert(old =~= Seq::<u8>::empty());
            assert(s.take(c - 1) + old + s.subrange(c - 1, s.len() as int) =~= s);
        } else {
            lemma_replace_same_from(s, old, 0, count);
            assert(s.subrange(0, s.len() as int) =~= s);
        }
    }
}


/// Skipping bytes to strip from the right of a suffix of `s` is skipping them
/// in `s` itself, never past the start of the suffix.
proof fn lemma_skip_right_suffix(s: Seq<u8>, chars: Option<Seq<u8>>, l: int, j: int)
    requires
        0 <= l <= j <= s.len(),
    ensures
        skip_right(s.subrange(l, s.len() as int), chars, j - l, 0) + l == skip_right(s, chars, j, l),
    decreases j,
{
    if j > l {
        assert(s.subrange(l, s.len() as int)[j - l - 1] == s[j - 1]);
        lemma_skip_right_suffix(s, chars, l, j - 1);
    }
}

/// `b.strip(chars)` is `b.lstrip(chars).rstrip(chars)`.
pub proof fn lemma_strip_is_lstrip_then_rstrip(s: Seq<u8>, chars: Option<Seq<u8>>)
    ensures
        stripped(s, chars) == rstripped(lstripped(s, chars), chars),
{
    lemma_skip_left_bounds(s, chars, 0);
    let l = skip_left(s, chars, 0);
    let t = s.subrange(l, s.len() as int);
    lemma_skip_right_suffix(s, chars, l, s.len() as int);
    lemma_skip_right_bounds(s, chars, s.len() as int, l);
    assert(t.len() == s.len() - l);
    assert(t.subrange(0, skip_right(t, chars, t.len() as int, 0)) =~= s.subrange(
        l,
        skip_right(s, chars, s.len() as int, l),
    ));
}

proof fn lemma_skip_right_bounds(s: Seq<u8>, chars: Option<Seq<u8>>, j: int, lo: int)
    requires
        0 <= lo <= j <= s.len(),
    ensures
        lo <= skip_right(s, chars, j, lo) <= j,
    decreases j,
{
    if j > lo {
        lemma_skip_right_bounds(s, chars, j - 1, lo);
    }
}

proof fn lemma_skip_left_bounds(s: Seq<u8>, chars: Option<Seq<u8>>, i: int)
    requires
        0 <= i <= s.len(),
    ensures
        i <= skip_left(s, chars, i) <= s.len(),
    decreases s.len() - i,
{
    if i < s.len() {
        lemma_skip_left_bounds(s, chars, i + 1);
    }
}

/// `b.translate(None, b"")` is `b`.
pub proof fn lemma_translate_identity(s: Seq<u8>)
    ensures
        translate_prefix(s, None, Seq::empty(), s.len() as int) == s,
{
    lemma_translate_identity_prefix(s, s.len() as int);
    assert(s.take(s.len() as int) =~= s);
}

proof fn lemma_translate_identity_prefix(s: Seq<u8>, i: int)
    requires
        0 <= i <= s.len(),
    ensures
        translate_prefix(s, None, Seq::empty(), i) == s.take(i),
    decreases i,
{
    if i > 0 {
        lemma_translate_identity_prefix(s, i - 1);
        assert(!Seq::<u8>::empty().contains(s[i - 1]));
        assert(s.take(i - 1).push(s[i - 1]) =~= s.take(i));
    } else {
        assert(s.take(0) =~= Seq::<u8>::empty());
    }
}


/// Counting from `i` on is counting the leftmost occurrence from `i` on, if
/// there is one, and then counting after it.
proof fn lemma_count_from_first(s: Seq<u8>, sub: Seq<u8>, i: int)
    requires
        sub.len() > 0,
        0 <= i <= s.len(),
    ensures
        count_from(s, sub, i, s.len() as int) == match first_from(s, sub, i) {
            None => 0,
            Some(k) => 1 + count_from(s, sub, k + sub.len(), s.len() as int),
        },
    decreases s.len() - i,
{
    if i + sub.len() <= s.len() && !occurs_at(s, sub, i) && i < s.len() {
        lemma_count_from_first(s, sub, i + 1);
    }
}

/// With no limit, `split` makes one piece more than there are occurrences.
proof fn lemma_split_count_from(s: Seq<u8>, sep: Seq<u8>, pos: int, m: int)
    requires
        sep.len() > 0,
        0 <= pos <= s.len(),
        m < 0,
    ensures
        split_from(s, sep, pos, m).len() == count_from(s, sep, pos, s.len() as int) + 1,
    decreases s.len() - pos,
{
    lemma_count_from_first(s, sep, pos);
    lemma_first_from_occurs(s, sep, pos);
    if let Some(k) = first_from(s, sep, pos) {
        lemma_split_count_from(s, sep, k + sep.len(), m - 1);
    }
}

/// `len(b.split(sep)) == b.count(sep) + 1` for any nonempty `sep`.
pub proof fn lemma_split_count(s: Seq<u8>, sep: Seq<u8>)
    requires
        sep.len() > 0,
    ensures
        split_from(s, sep, 0, -1).len() == count_in(s, sep, 0, s.len() as int) + 1,
{
    lemma_split_count_from(s, sep, 0, -1);
}


/// Concatenation (`a + b`, whose result's view is `a@ + b@`) is associative,
/// has the empty object as identity on both sides, and adds the lengths.
pub proof fn lemma_add_monoid(a: Seq<u8>, b: Seq<u8>, c: Seq<u8>)
    ensures
        (a + b) + c == a + (b + c),
        a + Seq::<u8>::empty() == a,
        Seq::<u8>::empty() + a == a,
        (a + b).len() == a.len() + b.len(),
{
    assert((a + b) + c =~= a + (b + c));
    assert(a + Seq::<u8>::empty() =~= a);
    assert(Seq::<u8>::empty() + a =~= a);
}

} // verus!

verus! {

use crate::pad::{expand_prefix, expanded, fill, center_left};
use crate::ctype::{in_class, all_in_class, ByteClass, capitalized, is_lower, is_upper, to_lower, to_upper};
use crate::hex::{escape_byte, escaped_prefix, repr_of};

/// Expanding the first `i` bytes depends on those bytes only.
proof fn lemma_expand_prefix_local(s1: Seq<u8>, s2: Seq<u8>, tabsize: int, i: int)
    requires
        0 <= i <= s1.len(),
        i <= s2.len(),
        forall|k: int| 0 <= k < i ==> s1[k] == s2[k],
    ensures
        expand_prefix(s1, tabsize, i) == expand_prefix(s2, tabsize, i),
    decreases i,
{
    if i > 0 {
        lemma_expand_prefix_local(s1, s2, tabsize, i - 1);
    }
}

/// On a line without line breaks, the column that tab expansion tracks is
/// the length of the output so far.
pub proof fn lemma_expand_column_is_output_length(s: Seq<u8>, tabsize: int, i: int)
    requires
        0 <= i <= s.len(),
        forall|k: int| 0 <= k < i ==> s[k] != 10 && s[k] != 13,
    ensures
        expand_prefix(s, tabsize, i).1 == expand_prefix(s, tabsize, i).0.len(),
    decreases i,
{
    if i > 0 {
        lemma_expand_column_is_output_length(s, tabsize, i - 1);
    }
}

/// On a line without line breaks, a tab expands up to the next multiple of
/// `tabsize`: the expansion of `s` followed by a tab has a length divisible by
/// `tabsize`, and is longer than the expansion of `s` by 1 to `tabsize` spaces.
pub proof fn lemma_tab_reaches_multiple_of_tabsize(s: Seq<u8>, tabsize: int)
    requires
        tabsize > 0,
        forall|k: int| 0 <= k < s.len() ==> s[k] != 10 && s[k] != 13,
    ensures
        (expanded(s.push(9u8), tabsize).len() as int) % tabsize == 0,
        expanded(s, tabsize).len() < expanded(s.push(9u8), tabsize).len() <= expanded(s, tabsize).len() + tabsize,
        expanded(s.push(9u8), tabsize) == expanded(s, tabsize) + Seq::new(
            (expanded(s.push(9u8), tabsize).len() - expanded(s, tabsize).len()) as nat,
            |k: int| 32u8,
        ),
{
    let t = s.push(9u8);
    lemma_expand_prefix_local(s, t, tabsize, s.len() as int);
    lemma_expand_column_is_output_length(s, tabsize, s.len() as int);
    let out = expanded(s, tabsize);
    let col = out.len() as int;
    vstd::arithmetic::div_mod::lemma_mod_pos_bound(col, tabsize);
    vstd::arithmetic::div_mod::lemma_fundamental_div_mod(col, tabsize);
    let incr = tabsize - col % tabsize;
    assert(expanded(t, tabsize).len() == col + incr);
    assert((col + incr) % tabsize == 0) by {
        assert(col + incr == tabsize * (col / tabsize) + tabsize);
        assert(col + incr == tabsize * (col / tabsize + 1)) by (nonlinear_arith)
            requires
                col + incr == tabsize * (col / tabsize) + tabsize,
        ;
        vstd::arithmetic::div_mod::lemma_mod_multiples_basic(col / tabsize + 1, tabsize);
        assert((col / tabsize + 1) * tabsize == tabsize * (col / tabsize + 1)) by (nonlinear_arith);
    }
    assert(expanded(t, tabsize) =~= out + Seq::new(incr as nat, |k: int| 32u8));
}

/// The byte classes by their codes: letters are 65..=90 and 97..=122, digits
/// 48..=57, whitespace 9..=13 and 32, ASCII below 128; alphanumeric bytes are
/// exactly the letters of either case and the digits.
pub proof fn lemma_byte_classes_by_code(b: u8)
    ensures
        in_class(b, ByteClass::Alnum) == (65 <= b <= 90 || 97 <= b <= 122 || 48 <= b <= 57),
        in_class(b, ByteClass::Alpha) == (65 <= b <= 90 || 97 <= b <= 122),
        in_class(b, ByteClass::Digit) == (48 <= b <= 57),
        in_class(b, ByteClass::Space) == (b == 32 || 9 <= b <= 13),
        in_class(b, ByteClass::Ascii) == (b < 128),
        in_class(b, ByteClass::Alpha) || in_class(b, ByteClass::Digit) <==> in_class(b, ByteClass::Alnum),
        is_lower(b) == (97 <= b <= 122),
        is_upper(b) == (65 <= b <= 90),
{
}

/// Bytes that are all letters, or all digits, are all alphanumeric: every
/// nonempty object for which `isalpha` or `isdigit` holds is `isalnum`.
pub proof fn lemma_alpha_and_digit_are_alnum(s: Seq<u8>)
    ensures
        all_in_class(s, ByteClass::Alpha) ==> all_in_class(s, ByteClass::Alnum),
        all_in_class(s, ByteClass::Digit) ==> all_in_class(s, ByteClass::Alnum),
{
    assert(all_in_class(s, ByteClass::Alpha) ==> all_in_class(s, ByteClass::Alnum)) by {
        if all_in_class(s, ByteClass::Alpha) {
            assert forall|i: int| 0 <= i < s.len() implies #[trigger] in_class(s[i], ByteClass::Alnum) by {
                assert(in_class(s[i], ByteClass::Alpha));
            }
        }
    }
    assert(all_in_class(s, ByteClass::Digit) ==> all_in_class(s, ByteClass::Alnum)) by {
        if all_in_class(s, ByteClass::Digit) {
            assert forall|i: int| 0 <= i < s.len() implies #[trigger] in_class(s[i], ByteClass::Alnum) by {
                assert(in_class(s[i], ByteClass::Digit));
            }
        }
    }
}

/// A printable ASCII byte (space included) other than the quote and the
/// backslash needs no escape in `repr`: it is written as itself.
pub proof fn lemma_printable_bytes_written_as_themselves(b: u8)
    requires
        32 <= b < 127,
        b != 39,
        b != 92,
    ensures
        escape_byte(b) == seq![b as char],
{
}

/// `repr` of bytes that are all printable ASCII, other than the quote and the
/// backslash, is `b'`, the bytes as characters, and `'`.
pub proof fn lemma_repr_of_plain_bytes(s: Seq<u8>)
    requires
        forall|k: int| 0 <= k < s.len() ==> 32 <= #[trigger] s[k] < 127 && s[k] != 39 && s[k] != 92,
    ensures
        repr_of(s) == seq!['b', '\''] + Seq::new(s.len(), |k: int| s[k] as char) + seq!['\''],
{
    lemma_escaped_plain_prefix(s, s.len() as int);
}

proof fn lemma_escaped_plain_prefix(s: Seq<u8>, i: int)
    requires
        0 <= i <= s.len(),
        forall|k: int| 0 <= k < s.len() ==> 32 <= #[trigger] s[k] < 127 && s[k] != 39 && s[k] != 92,
    ensures
        escaped_prefix(s, i) == Seq::new(i as nat, |k: int| s[k] as char),
    decreases i,
{
    if i > 0 {
        lemma_escaped_plain_prefix(s, i - 1);
        lemma_printable_bytes_written_as_themselves(s[i - 1]);
        assert(escaped_prefix(s, i) =~= Seq::new(i as nat, |k: int| s[k] as char));
    } else {
        assert(escaped_prefix(s, i) =~= Seq::new(0, |k: int| s[k] as char));
    }
}

/// `capitalize` is `upper` of the first byte followed by `lower` of the rest:
/// only the byte at index 0 can be upper-cased, and every other byte is
/// lower-cased, whatever it is.
pub proof fn lemma_capitalize_is_upper_head_lower_tail(s: Seq<u8>)
    ensures
        s.len() > 0 ==> capitalized(s) == map_case(s.take(1), CaseMap::Upper) + map_case(
            s.skip(1),
            CaseMap::Lower,
        ),
        s.len() == 0 ==> capitalized(s).len() == 0,
        forall|i: int| 0 < i < s.len() ==> #[trigger] capitalized(s)[i] == to_lower(s[i]),
        s.len() > 0 ==> capitalized(s)[0] == to_upper(s[0]),
{
    if s.len() > 0 {
        assert(capitalized(s) =~= map_case(s.take(1), CaseMap::Upper) + map_case(s.skip(1), CaseMap::Lower));
    }
}

/// A negative end counts back from the end of the object, as in slicing: it
/// denotes the same position as `len + end` when that is not negative, and the
/// start of the object otherwise; a window's end never lies past the object.
pub proof fn lemma_negative_end_counts_from_end(e: isize, len: int)
    requires
        0 <= len,
    ensures
        e < 0 ==> adjust_end(Some(e), len) == if len + e < 0 { 0 } else { len + e },
        0 <= adjust_end(Some(e), len) <= len,
        0 <= e <= len ==> adjust_end(Some(e), len) == e,
        e < 0 && len + e >= 0 ==> adjust_end(Some(e), len) < len,
{
}

/// A negative start counts back from the end of the object, as in slicing.
pub proof fn lemma_negative_start_counts_from_end(st: isize, len: int)
    requires
        0 <= len,
    ensures
        st < 0 ==> adjust_start(Some(st), len) == if len + st < 0 { 0 } else { len + st },
        st >= 0 ==> adjust_start(Some(st), len) == st,
{
}


/// Padding to a larger width keeps the bytes and adds only fill bytes:
/// `ljust` puts all of them after the bytes, `rjust` all of them before, and
/// `center` splits them so that the two sides differ by at most one.
pub proof fn lemma_padding_places_the_bytes(s: Seq<u8>, width: int, f: u8)
    requires
        width > s.len(),
    ensures
        justified(s, width, f, Justify::Left).len() == width,
        justified(s, width, f, Justify::Left).take(s.len() as int) == s,
        forall|k: int| s.len() <= k < width ==> #[trigger] justified(s, width, f, Justify::Left)[k] == f,
        justified(s, width, f, Justify::Right).len() == width,
        justified(s, width, f, Justify::Right).skip(width - s.len()) == s,
        forall|k: int| 0 <= k < width - s.len() ==> #[trigger] justified(s, width, f, Justify::Right)[k] == f,
        ({
            let l = center_left(s.len() as int, width);
            let r = width - s.len() - l;
            &&& 0 <= l && 0 <= r
            &&& -1 <= l - r <= 1
            &&& justified(s, width, f, Justify::Center) == fill(f, l) + s + fill(f, r)
        }),
{
    let marg = width - s.len();
    assert(0 <= marg / 2 + (if marg % 2 == 1 && width % 2 == 1 { 1int } else { 0 }) <= marg);
    assert(justified(s, width, f, Justify::Left).take(s.len() as int) =~= s);
    assert(justified(s, width, f, Justify::Right).skip(width - s.len()) =~= s);
}

} // verus!
