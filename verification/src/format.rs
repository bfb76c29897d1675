//! The stream format, as functions on byte sequences.
//!
//! A stream is a run of blocks.  A block is a leading byte with two counts,
//! the literal bytes, and the matches:
//!
//! ```text
//! leading byte : bits 0..3 = number of literals, bits 4..7 = number of matches
//! [ S7s number of literals ]   if its nibble is 0
//! [ S7s number of matches ]    if its nibble is 0
//! the literal bytes
//! for each match:
//!     header byte : bits 0..3 = start of the distance, bits 4..7 = length - 1
//!     [ the rest of the distance ]
//!     [ S7s length - 1 ]       if its nibble is 0
//! ```
//!
//! The distance minus one is an S7s integer whose first byte is the low
//! nibble of the header: with its low bit set the nibble is the whole of it.

use crate::lz::Matches;
use crate::s7s::{
    lemma_s7s_parse_rest,
    lemma_s7s_round_trip,
    lemma_word_fits,
    s7s_bytes,
    s7s_parse,
    word,
};
use vstd::prelude::*;

verus! {

/// The greatest distance that the format can hold.
pub const LZ_MAX_DISTANCE: usize = 0x02_00_00;

/// The output after one match has been expanded: byte by byte, each new
/// byte is the one `distance` places before the end, so a match longer
/// than its distance repeats what it has just written.
pub open spec fn copy_back(out: Seq<u8>, distance: int, len: nat) -> Seq<u8>
    decreases len,
{
    if len == 0 {
        out
    } else {
        copy_back(out.push(out[out.len() - distance]), distance, (len - 1) as nat)
    }
}

/// A count: the nibble itself, or where the nibble is zero the S7s integer
/// at the front of `s`, as far as a word holds it.  Returns the count and
/// the bytes behind it.
pub open spec fn parse_count(s: Seq<u8>, nibble: u8) -> Option<(usize, Seq<u8>)> {
    if nibble == 0 {
        match s7s_parse(s, 0) {
            Some((value, rest)) => Some((word(value), rest)),
            None => None,
        }
    } else {
        Some((nibble as usize, s))
    }
}

/// The head of a block: the number of literals, the number of matches, and
/// the bytes behind the head.
pub open spec fn parse_head(s: Seq<u8>) -> Option<(usize, usize, Seq<u8>)> {
    if s.len() == 0 {
        None
    } else {
        match parse_count(s.drop_first(), s[0] & 0x0F) {
            Some((by, after_by)) => match parse_count(after_by, s[0] >> 4) {
                Some((lz, rest)) => Some((by, lz, rest)),
                None => None,
            },
            None => None,
        }
    }
}

/// One match: its distance, its length, and the bytes behind it.
pub open spec fn parse_match(s: Seq<u8>) -> Option<(nat, nat, Seq<u8>)> {
    if s.len() == 0 {
        None
    } else {
        match s7s_parse(s.drop_first(), (s[0] & 0x0F) as nat) {
            Some((ds, after_ds)) => match parse_count(after_ds, s[0] >> 4) {
                Some((cp, rest)) => Some(((word(ds) + 1) as nat, (cp + 1) as nat, rest)),
                None => None,
            },
            None => None,
        }
    }
}

/// The bytes that are still to be written when `out` has been.
pub open spec fn room(out: Seq<u8>, n: nat) -> nat {
    if out.len() <= n {
        (n - out.len()) as nat
    } else {
        0
    }
}

/// Decoding the rest `s` of a stream, with `out` written so far, `n` bytes
/// wanted in all, and `lz` matches of the current block still to come.
///
/// A block is read only while bytes are wanted.  Its literals must be there
/// and must fit; where they complete the output the stream is done, whatever
/// follows.  Every match of a block is read, its distance must lie within
/// what is written, and its length is cut to the bytes still wanted.
pub open spec fn decode_from(s: Seq<u8>, out: Seq<u8>, n: nat, lz: nat) -> Option<Seq<u8>>
    decreases s.len(),
    via decode_from_decreases
{
    if lz > 0 {
        match parse_match(s) {
            Some((distance, len, rest)) => {
                if distance > out.len() {
                    None
                } else {
                    let cut = if len <= room(out, n) {
                        len
                    } else {
                        room(out, n)
                    };
                    decode_from(rest, copy_back(out, distance as int, cut), n, (lz - 1) as nat)
                }
            },
            None => None,
        }
    } else if out.len() >= n {
        Some(out)
    } else {
        match parse_head(s) {
            Some((by, count, rest)) => {
                if by > rest.len() || by > room(out, n) {
                    None
                } else {
                    let filled = out + rest.take(by as int);
                    if filled.len() >= n {
                        Some(filled)
                    } else {
                        decode_from(rest.skip(by as int), filled, n, count as nat)
                    }
                }
            },
            None => None,
        }
    }
}

#[via_fn]
proof fn decode_from_decreases(s: Seq<u8>, out: Seq<u8>, n: nat, lz: nat) {
    lemma_parse_shrinks(s);
}

/// What a stream of `n` decoded bytes stands for; `None` where it is not
/// a stream of that many bytes.
pub open spec fn decode_spec(input: Seq<u8>, n: nat) -> Option<Seq<u8>> {
    decode_from(input, Seq::empty(), n, 0)
}

/// A head and a match each take at least one byte.
pub proof fn lemma_parse_shrinks(s: Seq<u8>)
    ensures
        parse_head(s) matches Some((by, lz, rest)) ==> rest.len() < s.len(),
        parse_match(s) matches Some((distance, len, rest)) ==> rest.len() < s.len(),
{
    if s.len() > 0 {
        let t = s.drop_first();
        lemma_s7s_parse_rest(t, 0);
        lemma_s7s_parse_rest(t, (s[0] & 0x0F) as nat);
        match parse_count(t, s[0] & 0x0F) {
            Some((by, after_by)) => {
                lemma_s7s_parse_rest(after_by, 0);
            },
            None => {},
        }
        match s7s_parse(t, (s[0] & 0x0F) as nat) {
            Some((ds, after_ds)) => {
                lemma_s7s_parse_rest(after_ds, 0);
            },
            None => {},
        }
    }
}

/// Expanding a match keeps what was written and adds `len` bytes, each a
/// copy of the byte `distance` places before it: the bytes from `distance`
/// before the old end, repeated for as long as the match lasts.
pub proof fn lemma_copy_back(out: Seq<u8>, distance: int, len: nat)
    requires
        1 <= distance <= out.len(),
    ensures
        copy_back(out, distance, len).len() == out.len() + len,
        forall|i: int| 0 <= i < out.len() ==> copy_back(out, distance, len)[i] == out[i],
        forall|i: int|
            0 <= i < len ==> #[trigger] copy_back(out, distance, len)[out.len() + i] == copy_back(
                out,
                distance,
                len,
            )[out.len() + i - distance],
        forall|i: int|
            0 <= i < len ==> #[trigger] copy_back(out, distance, len)[out.len() + i] == out[out.len()
                - distance + i % distance],
    decreases len,
{
    if len > 0 {
        let next = out.push(out[out.len() - distance]);
        lemma_copy_back(next, distance, (len - 1) as nat);
        let all = copy_back(out, distance, len);
        assert forall|i: int| 0 <= i < out.len() implies all[i] == out[i] by {
            assert(all[i] == next[i]);
        }
        assert forall|i: int| 0 <= i < len implies #[trigger] all[out.len() + i] == all[out.len()
            + i - distance] by {
            if i > 0 {
                assert(all[next.len() + (i - 1)] == all[next.len() + (i - 1) - distance]);
            } else {
                assert(all[out.len() as int] == next[out.len() as int]);
                assert(all[out.len() - distance] == next[out.len() - distance]);
            }
        }
        assert forall|i: int| 0 <= i < len implies #[trigger] all[out.len() + i] == out[out.len()
            - distance + i % distance] by {
            lemma_periodic(all, out.len() as int, distance, i);
            assert(0 <= i % distance < distance) by (nonlinear_arith)
                requires
                    distance >= 1,
                    i >= 0,
            ;
            assert(all[out.len() - distance + i % distance] == out[out.len() - distance + i
                % distance]);
        }
    }
}

/// In a sequence where each element from `start` on equals the one
/// `distance` before it, the element `i` places after `start` is the
/// element `i % distance` places after `start - distance`.
proof fn lemma_periodic(all: Seq<u8>, start: int, distance: int, i: int)
    requires
        1 <= distance <= start,
        0 <= i,
        start + i < all.len(),
        forall|j: int| 0 <= j <= i ==> #[trigger] all[start + j] == all[start + j - distance],
    ensures
        all[start + i] == all[start - distance + i % distance],
    decreases i,
{
    assert(all[start + i] == all[start + i - distance]);
    if i >= distance {
        lemma_periodic(all, start, distance, i - distance);
        assert((i - distance) % distance == i % distance) by (nonlinear_arith)
            requires
                i >= distance,
                distance >= 1,
        ;
    } else {
        assert(i % distance == i) by (nonlinear_arith)
            requires
                0 <= i < distance,
        ;
    }
}

/// Where the bytes from `pos` on repeat the bytes `distance` before them,
/// expanding that match on the first `pos` bytes of `data` gives the
/// first `pos + len` bytes of `data`.
pub proof fn lemma_copy_back_repeats(data: Seq<u8>, pos: int, distance: int, len: nat)
    requires
        1 <= distance <= pos,
        pos + len <= data.len(),
        forall|i: int| 0 <= i < len ==> #[trigger] data[pos + i] == data[pos + i - distance],
    ensures
        copy_back(data.take(pos), distance, len) == data.take(pos + len),
    decreases len,
{
    if len > 0 {
        assert(data[pos + 0] == data[pos + 0 - distance]);
        assert(data.take(pos).push(data.take(pos)[pos - distance]) =~= data.take(pos + 1));
        assert forall|i: int| 0 <= i < len - 1 implies #[trigger] data[pos + 1 + i] == data[pos + 1
            + i - distance] by {
            assert(data[pos + (i + 1)] == data[pos + (i + 1) - distance]);
        }
        lemma_copy_back_repeats(data, pos + 1, distance, (len - 1) as nat);
    }
}

/// The nibble that a count is written into: the count itself up to 15,
/// else zero.
pub open spec fn field_nibble(count: nat) -> nat {
    if count <= 15 {
        count
    } else {
        0
    }
}

/// The S7s integer that follows for a count that its nibble cannot hold.
/// `zero_is_written` says whether a count of zero is such a count.
pub open spec fn field_tail(count: nat, zero_is_written: bool) -> Seq<u8> {
    if count > 15 || (zero_is_written && count == 0) {
        s7s_bytes(count)
    } else {
        Seq::empty()
    }
}

/// The head of a block of `lit_len` literals and `lz_count` matches.
pub open spec fn head_bytes(lit_len: nat, lz_count: nat) -> Seq<u8> {
    seq![(field_nibble(lit_len) + 16 * field_nibble(lz_count)) as u8] + field_tail(lit_len, false)
        + field_tail(lz_count, true)
}

/// The low nibble of a match header, for a distance minus one of `d`.
pub open spec fn distance_lead(d: nat) -> nat {
    if d < 8 {
        2 * d + 1
    } else if d < 0x400 {
        2 * (d / 0x80)
    } else {
        2 * (d / 0x4000)
    }
}

/// The bytes of a distance minus one of `d` that follow the match header.
pub open spec fn distance_tail(d: nat) -> Seq<u8> {
    if d < 8 {
        Seq::empty()
    } else if d < 0x400 {
        seq![(2 * (d % 0x80) + 1) as u8]
    } else {
        seq![(2 * ((d / 0x80) % 0x80)) as u8, (2 * (d % 0x80) + 1) as u8]
    }
}

/// The bytes of one match.
pub open spec fn match_bytes(m: Matches) -> Seq<u8> {
    let d = (m.distance - 1) as nat;
    let l = (m.len - 1) as nat;
    seq![(distance_lead(d) + 16 * field_nibble(l)) as u8] + distance_tail(d) + field_tail(l, false)
}

/// The bytes of a list of matches.
pub open spec fn matches_bytes(ms: Seq<Matches>) -> Seq<u8>
    decreases ms.len(),
{
    if ms.len() == 0 {
        Seq::empty()
    } else {
        match_bytes(ms[0]) + matches_bytes(ms.drop_first())
    }
}

/// The bytes of one block.
pub open spec fn block_bytes(literals: Seq<u8>, ms: Seq<Matches>) -> Seq<u8> {
    head_bytes(literals.len(), ms.len()) + literals + matches_bytes(ms)
}

/// The bytes of a list of matches with one more match at its end.
pub proof fn lemma_matches_bytes_push(ms: Seq<Matches>, m: Matches)
    ensures
        matches_bytes(ms.push(m)) == matches_bytes(ms) + match_bytes(m),
    decreases ms.len(),
{
    if ms.len() == 0 {
        assert(ms.push(m).drop_first() =~= ms);
        assert(matches_bytes(ms.push(m)) =~= matches_bytes(ms) + match_bytes(m));
    } else {
        assert(ms.push(m).drop_first() =~= ms.drop_first().push(m));
        lemma_matches_bytes_push(ms.drop_first(), m);
        assert(matches_bytes(ms.push(m)) =~= matches_bytes(ms) + match_bytes(m));
    }
}

/// A byte made of two nibbles gives them back.
pub proof fn lemma_nibbles(low: nat, high: nat)
    requires
        low <= 15,
        high <= 15,
    ensures
        ((low + 16 * high) as u8) & 0x0F == low,
        ((low + 16 * high) as u8) >> 4 == high,
{
    let h: u8 = (low + 16 * high) as u8;
    let a: u8 = low as u8;
    let b: u8 = high as u8;
    assert(h & 0x0F == a && h >> 4 == b) by (bit_vector)
        requires
            a <= 15,
            b <= 15,
            h == a + 16 * b,
    ;
}

/// A count that was written reads back.
pub proof fn lemma_parse_field(count: usize, zero_is_written: bool, rest: Seq<u8>)
    requires
        count >= 1 || zero_is_written,
    ensures
        parse_count(
            field_tail(count as nat, zero_is_written) + rest,
            field_nibble(count as nat) as u8,
        ) == Some((count, rest)),
{
    if count > 15 || count == 0 {
        lemma_s7s_round_trip(count as nat, rest);
        lemma_word_fits(count as nat);
    } else {
        assert(field_tail(count as nat, zero_is_written) + rest =~= rest);
    }
}

/// A distance that was written reads back.
pub proof fn lemma_parse_distance(d: usize, rest: Seq<u8>)
    requires
        d < LZ_MAX_DISTANCE,
    ensures
        s7s_parse(distance_tail(d as nat) + rest, distance_lead(d as nat)) == Some(
            (d as nat, rest),
        ),
{
    let s = distance_tail(d as nat) + rest;
    if d < 8 {
        assert(s =~= rest);
    } else if d < 0x400 {
        assert(s.drop_first() =~= rest);
        assert(distance_lead(d as nat) * 128 + s[0] as nat == 2 * d + 1);
        assert(s7s_parse(rest, (2 * d + 1) as nat) == Some((d as nat, rest)));
    } else {
        let up = (d / 0x80) as nat;
        let t = s.drop_first();
        assert(t.drop_first() =~= rest);
        assert(distance_lead(d as nat) * 128 + s[0] as nat == 2 * up);
        assert((2 * up) * 128 + t[0] as nat == 2 * d + 1);
        assert(s7s_parse(rest, (2 * d + 1) as nat) == Some((d as nat, rest)));
        assert(s7s_parse(t, 2 * up) == Some((d as nat, rest)));
    }
}

/// The head of a block that was written reads back.
pub proof fn lemma_parse_head(lit_len: usize, lz_count: usize, rest: Seq<u8>)
    requires
        1 <= lit_len,
    ensures
        parse_head(head_bytes(lit_len as nat, lz_count as nat) + rest) == Some(
            (lit_len, lz_count, rest),
        ),
{
    let s = head_bytes(lit_len as nat, lz_count as nat) + rest;
    let after_by = field_tail(lz_count as nat, true) + rest;
    lemma_nibbles(field_nibble(lit_len as nat), field_nibble(lz_count as nat));
    assert(s.drop_first() =~= field_tail(lit_len as nat, false) + after_by);
    lemma_parse_field(lit_len, false, after_by);
    lemma_parse_field(lz_count, true, rest);
}

/// A match that was written reads back.
pub proof fn lemma_parse_match(m: Matches, rest: Seq<u8>)
    requires
        1 <= m.distance <= LZ_MAX_DISTANCE,
        2 <= m.len,
    ensures
        parse_match(match_bytes(m) + rest) == Some((m.distance as nat, m.len as nat, rest)),
{
    let d = (m.distance - 1) as usize;
    let l = (m.len - 1) as usize;
    let s = match_bytes(m) + rest;
    let after_ds = field_tail(l as nat, false) + rest;
    lemma_nibbles(distance_lead(d as nat), field_nibble(l as nat));
    assert(s.drop_first() =~= distance_tail(d as nat) + after_ds);
    lemma_parse_distance(d, after_ds);
    lemma_word_fits(d as nat);
    lemma_parse_field(l, false, rest);
}

} // verus!
