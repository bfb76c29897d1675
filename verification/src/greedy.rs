//! What the encoder writes: its choice of matches, the stream that follows
//! from it, and the proof that decoding gives the input back.
//!
//! The encoder is greedy.  At each position it takes the first match it
//! finds acceptable and moves on behind it; it does not look for the
//! shortest stream.

use crate::format::{
    block_bytes,
    copy_back,
    decode_from,
    decode_spec,
    lemma_copy_back_repeats,
    lemma_parse_head,
    lemma_parse_match,
    matches_bytes,
    parse_head,
    parse_match,
    LZ_MAX_DISTANCE,
};
use crate::lz::{common_len, lemma_common_len, Matches};
use vstd::prelude::*;

verus! {

/// A match from the offset cache of this length ends the search.
pub const THRESHOLD_LEN1: usize = 16;

/// The least length of a match from the offset cache.
pub const LZ_MIN_MID_LEN: usize = 4;

/// The least length of a match at a short distance.
pub const LZ_SHORT_MIN_LEN: usize = 2;

/// The greatest of the short distances.
pub const LZ_SHORT_MAX_DIST: usize = 8;

/// Whether the three bytes at `p` are the three bytes at `q`.
pub open spec fn same_key(input: Seq<u8>, p: int, q: int) -> bool {
    input[p] == input[q] && input[p + 1] == input[q + 1] && input[p + 2] == input[q + 2]
}

/// The search among the earlier positions with the same three bytes, from
/// distance `d` on and with `best` found so far.  Distances are tried in
/// rising order up to `max_distance`; a longer match of at least
/// `LZ_MIN_MID_LEN` bytes replaces the best one, and the search ends once
/// the best has `THRESHOLD_LEN1` bytes.
pub open spec fn scan_long(
    input: Seq<u8>,
    cursor: int,
    max_distance: int,
    max_len: nat,
    d: int,
    best: Matches,
) -> Matches
    decreases max_distance + 1 - d,
{
    if d < 1 || d > max_distance || d > cursor || best.len >= THRESHOLD_LEN1 {
        best
    } else {
        let len = common_len(input, cursor, d, max_len);
        let next = if same_key(input, cursor - d, cursor) && best.len < len && len
            >= LZ_MIN_MID_LEN {
            Matches { len: len as usize, distance: d as usize }
        } else {
            best
        };
        scan_long(input, cursor, max_distance, max_len, d + 1, next)
    }
}

/// The match that the search in the offset cache gives at `cursor`, or no
/// match.  Only a position with three bytes from it on is searched for.
pub open spec fn long_match(input: Seq<u8>, max_distance: nat, max_len: nat, cursor: int) -> Matches {
    if cursor + 2 < input.len() {
        scan_long(input, cursor, max_distance as int, max_len, 1, Matches { len: 0, distance: 0 })
    } else {
        Matches { len: 0, distance: 0 }
    }
}

/// The search among the short distances, from distance `d` on and with
/// `best` found so far: every distance up to `LZ_SHORT_MAX_DIST` is tried,
/// and a longer match of at least `LZ_SHORT_MIN_LEN` bytes replaces the
/// best one.
pub open spec fn scan_short(input: Seq<u8>, cursor: int, max_len: nat, d: int, best: Matches) -> Matches
    decreases LZ_SHORT_MAX_DIST + 1 - d,
{
    if d < 1 || d > LZ_SHORT_MAX_DIST || d > cursor {
        best
    } else {
        let len = common_len(input, cursor, d, max_len);
        let next = if len >= LZ_SHORT_MIN_LEN && best.len < len {
            Matches { len: len as usize, distance: d as usize }
        } else {
            best
        };
        scan_short(input, cursor, max_len, d + 1, next)
    }
}

/// The match that the encoder takes at `cursor`: the one from the offset
/// cache, else the one at a short distance, else none.
pub open spec fn best_match(input: Seq<u8>, max_distance: nat, max_len: nat, cursor: int) -> Matches {
    let long = long_match(input, max_distance, max_len, cursor);
    if long.len != 0 {
        long
    } else {
        scan_short(input, cursor, max_len, 1, Matches { len: 0, distance: 0 })
    }
}

/// The bytes that the encoder still writes when it stands at `cursor` with
/// an open block of the `lit_len` literals from `lit_start` and the matches
/// `ms`.
///
/// Where there is a match, it joins the block.  Where there is none, the
/// byte at the cursor is a literal: it lengthens the literal run of a block
/// without matches, and else the block is written and the byte starts the
/// next one.  At the end of the input the open block is written.
pub open spec fn encode_from(
    input: Seq<u8>,
    max_distance: nat,
    max_len: nat,
    cursor: int,
    lit_start: int,
    lit_len: int,
    ms: Seq<Matches>,
) -> Seq<u8>
    decreases
        (if cursor < input.len() {
            input.len() - cursor
        } else {
            0
        }),
{
    let literals = input.subrange(lit_start, lit_start + lit_len);
    if cursor >= input.len() {
        block_bytes(literals, ms)
    } else {
        let m = best_match(input, max_distance, max_len, cursor);
        if m.len == 0 {
            if ms.len() > 0 {
                block_bytes(literals, ms) + encode_from(
                    input,
                    max_distance,
                    max_len,
                    cursor + 1,
                    cursor,
                    1,
                    Seq::empty(),
                )
            } else {
                encode_from(input, max_distance, max_len, cursor + 1, lit_start, lit_len + 1, ms)
            }
        } else {
            encode_from(
                input,
                max_distance,
                max_len,
                cursor + m.len,
                lit_start,
                lit_len,
                ms.push(m),
            )
        }
    }
}

/// The stream that the encoder writes for `input`: nothing for no input,
/// and else blocks that start with the first byte as a literal.
pub open spec fn encode_spec(input: Seq<u8>, max_distance: nat, max_len: nat) -> Seq<u8> {
    if input.len() == 0 {
        Seq::empty()
    } else {
        encode_from(input, max_distance, max_len, 1, 0, 1, Seq::empty())
    }
}

/// Whether `m` may be written at `pos`: it reaches back no further than the
/// start of the input and the format allow, it has at least two bytes, and
/// the bytes that it stands for are the bytes of the input.
pub open spec fn valid_match(input: Seq<u8>, pos: int, m: Matches) -> bool {
    &&& 1 <= m.distance <= pos
    &&& m.distance <= LZ_MAX_DISTANCE
    &&& LZ_SHORT_MIN_LEN <= m.len
    &&& pos + m.len <= input.len()
    &&& forall|i: int| 0 <= i < m.len ==> #[trigger] input[pos + i] == input[pos + i - m.distance]
}

/// Whether the matches `ms` may be written one behind the other from `pos`.
pub open spec fn valid_chain(input: Seq<u8>, pos: int, ms: Seq<Matches>) -> bool
    decreases ms.len(),
{
    ms.len() == 0 || (valid_match(input, pos, ms[0]) && valid_chain(
        input,
        pos + ms[0].len,
        ms.drop_first(),
    ))
}

/// The position behind the matches `ms` written from `pos`.
pub open spec fn chain_end(pos: int, ms: Seq<Matches>) -> int
    decreases ms.len(),
{
    if ms.len() == 0 {
        pos
    } else {
        chain_end(pos + ms[0].len, ms.drop_first())
    }
}

/// One more match behind a chain of matches.
pub proof fn lemma_chain_push(input: Seq<u8>, pos: int, ms: Seq<Matches>, m: Matches)
    requires
        valid_chain(input, pos, ms),
        valid_match(input, chain_end(pos, ms), m),
    ensures
        valid_chain(input, pos, ms.push(m)),
        chain_end(pos, ms.push(m)) == chain_end(pos, ms) + m.len,
    decreases ms.len(),
{
    let more = ms.push(m);
    if ms.len() == 0 {
        assert(more[0] == m);
        assert(more.drop_first() =~= ms);
        assert(valid_chain(input, pos + m.len, more.drop_first()));
        assert(chain_end(pos + m.len, more.drop_first()) == pos + m.len);
    } else {
        assert(more[0] == ms[0]);
        assert(more.drop_first() =~= ms.drop_first().push(m));
        lemma_chain_push(input, pos + ms[0].len, ms.drop_first(), m);
        assert(valid_chain(input, pos + more[0].len, more.drop_first()));
    }
}

/// Every match of a chain has a distance that the format can hold, and
/// takes at least two bytes of the input.
pub proof fn lemma_chain_bounds(input: Seq<u8>, pos: int, ms: Seq<Matches>)
    requires
        valid_chain(input, pos, ms),
        pos <= input.len(),
    ensures
        pos + 2 * ms.len() <= chain_end(pos, ms) <= input.len(),
        forall|i: int|
            0 <= i < ms.len() ==> 2 <= (#[trigger] ms[i]).len <= input.len() && 1 <= ms[i].distance
                <= LZ_MAX_DISTANCE,
    decreases ms.len(),
{
    if ms.len() > 0 {
        let rest = ms.drop_first();
        lemma_chain_bounds(input, pos + ms[0].len, rest);
        assert forall|i: int| 0 <= i < ms.len() implies 2 <= (#[trigger] ms[i]).len <= input.len()
            && 1 <= ms[i].distance <= LZ_MAX_DISTANCE by {
            if i > 0 {
                assert(ms[i] == rest[i - 1]);
            }
        }
    }
}

/// The search in the offset cache keeps what it has found a match that may
/// be written, of at least `LZ_MIN_MID_LEN` bytes.
proof fn lemma_scan_long_valid(
    input: Seq<u8>,
    cursor: int,
    max_distance: int,
    max_len: nat,
    d: int,
    best: Matches,
)
    requires
        0 <= cursor < input.len(),
        max_distance <= LZ_MAX_DISTANCE,
        max_len <= usize::MAX,
        best.len == 0 || (valid_match(input, cursor, best) && best.len >= LZ_MIN_MID_LEN),
    ensures
        ({
            let m = scan_long(input, cursor, max_distance, max_len, d, best);
            m.len == 0 || (valid_match(input, cursor, m) && m.len >= LZ_MIN_MID_LEN)
        }),
    decreases max_distance + 1 - d,
{
    if !(d < 1 || d > max_distance || d > cursor || best.len >= THRESHOLD_LEN1) {
        let len = common_len(input, cursor, d, max_len);
        lemma_common_len(input, cursor, d, max_len);
        let next = if same_key(input, cursor - d, cursor) && best.len < len && len
            >= LZ_MIN_MID_LEN {
            Matches { len: len as usize, distance: d as usize }
        } else {
            best
        };
        lemma_scan_long_valid(input, cursor, max_distance, max_len, d + 1, next);
    }
}

/// The search among the short distances keeps what it has found a match
/// that may be written.
proof fn lemma_scan_short_valid(input: Seq<u8>, cursor: int, max_len: nat, d: int, best: Matches)
    requires
        0 <= cursor < input.len(),
        max_len <= usize::MAX,
        best.len == 0 || valid_match(input, cursor, best),
    ensures
        ({
            let m = scan_short(input, cursor, max_len, d, best);
            m.len == 0 || valid_match(input, cursor, m)
        }),
    decreases LZ_SHORT_MAX_DIST + 1 - d,
{
    if !(d < 1 || d > LZ_SHORT_MAX_DIST || d > cursor) {
        let len = common_len(input, cursor, d, max_len);
        lemma_common_len(input, cursor, d, max_len);
        let next = if len >= LZ_SHORT_MIN_LEN && best.len < len {
            Matches { len: len as usize, distance: d as usize }
        } else {
            best
        };
        lemma_scan_short_valid(input, cursor, max_len, d + 1, next);
    }
}

/// Every match that the encoder takes is one that may be written: its
/// distance is at least one and at most the cursor, its length is at least
/// `LZ_SHORT_MIN_LEN`, and at least `LZ_MIN_MID_LEN` where it comes from
/// the offset cache; and it stands for the bytes at the cursor.
pub proof fn lemma_best_match_valid(input: Seq<u8>, max_distance: nat, max_len: nat, cursor: int)
    requires
        0 <= cursor < input.len(),
        max_distance <= LZ_MAX_DISTANCE,
        max_len <= usize::MAX,
    ensures
        ({
            let m = best_match(input, max_distance, max_len, cursor);
            m.len != 0 ==> valid_match(input, cursor, m)
        }),
        ({
            let m = long_match(input, max_distance, max_len, cursor);
            m.len != 0 ==> valid_match(input, cursor, m) && m.len >= LZ_MIN_MID_LEN
        }),
{
    let zero = Matches { len: 0, distance: 0 };
    lemma_scan_long_valid(input, cursor, max_distance as int, max_len, 1, zero);
    lemma_scan_short_valid(input, cursor, max_len, 1, zero);
}

/// Whether the position `d` before the cursor is one that the search in
/// the offset cache comes to: it lies in the input and within the window,
/// and has the three bytes of the cursor.
pub open spec fn is_candidate(input: Seq<u8>, cursor: int, max_distance: int, d: int) -> bool {
    1 <= d <= cursor && d <= max_distance && same_key(input, cursor - d, cursor)
}

/// What the search in the offset cache has found when it has come to
/// distance `d` with `best`.
spec fn long_found(
    input: Seq<u8>,
    cursor: int,
    max_distance: int,
    max_len: nat,
    d: int,
    best: Matches,
) -> bool {
    if best.len == 0 {
        forall|e: int|
            e < d && #[trigger] is_candidate(input, cursor, max_distance, e) ==> common_len(
                input,
                cursor,
                e,
                max_len,
            ) < LZ_MIN_MID_LEN
    } else {
        &&& is_candidate(input, cursor, max_distance, best.distance as int)
        &&& best.distance < d
        &&& best.len == common_len(input, cursor, best.distance as int, max_len)
        &&& best.len >= LZ_MIN_MID_LEN
        &&& forall|e: int|
            e < best.distance && #[trigger] is_candidate(input, cursor, max_distance, e)
                ==> common_len(input, cursor, e, max_len) < best.len && common_len(
                input,
                cursor,
                e,
                max_len,
            ) < THRESHOLD_LEN1
        &&& best.len < THRESHOLD_LEN1 ==> forall|e: int|
            e < d && #[trigger] is_candidate(input, cursor, max_distance, e) ==> common_len(
                input,
                cursor,
                e,
                max_len,
            ) <= best.len
    }
}

/// The search in the offset cache keeps what it has found true of all the
/// distances that it has come past.
proof fn lemma_scan_long_found(
    input: Seq<u8>,
    cursor: int,
    max_distance: int,
    max_len: nat,
    d: int,
    best: Matches,
)
    requires
        1 <= d <= max_distance + 1,
        0 <= cursor <= input.len(),
        max_len <= usize::MAX,
        max_distance <= usize::MAX,
        long_found(input, cursor, max_distance, max_len, d, best),
    ensures
        long_found(
            input,
            cursor,
            max_distance,
            max_len,
            max_distance + 1,
            scan_long(input, cursor, max_distance, max_len, d, best),
        ),
    decreases max_distance + 1 - d,
{
    if !(d > max_distance || d > cursor || best.len >= THRESHOLD_LEN1) {
        let len = common_len(input, cursor, d, max_len);
        lemma_common_len(input, cursor, d, max_len);
        let next = if same_key(input, cursor - d, cursor) && best.len < len && len
            >= LZ_MIN_MID_LEN {
            Matches { len: len as usize, distance: d as usize }
        } else {
            best
        };
        assert(long_found(input, cursor, max_distance, max_len, d + 1, next));
        lemma_scan_long_found(input, cursor, max_distance, max_len, d + 1, next);
    }
}

/// Which match the search in the offset cache gives.
///
/// Where a candidate repeats `THRESHOLD_LEN1` bytes or more, it is the
/// nearest such candidate.  Else it is the candidate that repeats the most
/// bytes, the nearest of them where several do, if that is at least
/// `LZ_MIN_MID_LEN` bytes.  Else there is none.
pub proof fn lemma_long_match_choice(input: Seq<u8>, max_distance: nat, max_len: nat, cursor: int)
    requires
        0 <= cursor,
        cursor + 2 < input.len(),
        max_len <= usize::MAX,
        max_distance <= usize::MAX,
    ensures
        ({
            let m = long_match(input, max_distance, max_len, cursor);
            let window = max_distance as int;
            if m.len == 0 {
                forall|e: int| #[trigger]
                    is_candidate(input, cursor, window, e) ==> common_len(input, cursor, e, max_len)
                        < LZ_MIN_MID_LEN
            } else {
                &&& is_candidate(input, cursor, window, m.distance as int)
                &&& m.len == common_len(input, cursor, m.distance as int, max_len)
                &&& m.len >= LZ_MIN_MID_LEN
                &&& forall|e: int|
                    e < m.distance && #[trigger] is_candidate(input, cursor, window, e)
                        ==> common_len(input, cursor, e, max_len) < m.len && common_len(
                        input,
                        cursor,
                        e,
                        max_len,
                    ) < THRESHOLD_LEN1
                &&& m.len < THRESHOLD_LEN1 ==> forall|e: int| #[trigger]
                    is_candidate(input, cursor, window, e) ==> common_len(input, cursor, e, max_len)
                        <= m.len
            }
        }),
{
    let zero = Matches { len: 0, distance: 0 };
    lemma_scan_long_found(input, cursor, max_distance as int, max_len, 1, zero);
}

/// What the search among the short distances has found when it has come
/// to distance `d` with `best`.
spec fn short_found(input: Seq<u8>, cursor: int, max_len: nat, d: int, best: Matches) -> bool {
    if best.len == 0 {
        forall|e: int|
            1 <= e < d && e <= cursor ==> #[trigger] common_len(input, cursor, e, max_len)
                < LZ_SHORT_MIN_LEN
    } else {
        &&& 1 <= best.distance < d
        &&& best.distance <= cursor
        &&& best.len == common_len(input, cursor, best.distance as int, max_len)
        &&& best.len >= LZ_SHORT_MIN_LEN
        &&& forall|e: int|
            1 <= e < best.distance ==> #[trigger] common_len(input, cursor, e, max_len) < best.len
        &&& forall|e: int|
            1 <= e < d && e <= cursor ==> #[trigger] common_len(input, cursor, e, max_len)
                <= best.len
    }
}

/// The search among the short distances keeps what it has found true of
/// all the distances that it has come past.
proof fn lemma_scan_short_found(input: Seq<u8>, cursor: int, max_len: nat, d: int, best: Matches)
    requires
        1 <= d <= LZ_SHORT_MAX_DIST + 1,
        0 <= cursor <= input.len(),
        max_len <= usize::MAX,
        short_found(input, cursor, max_len, d, best),
    ensures
        short_found(
            input,
            cursor,
            max_len,
            LZ_SHORT_MAX_DIST + 1,
            scan_short(input, cursor, max_len, d, best),
        ),
    decreases LZ_SHORT_MAX_DIST + 1 - d,
{
    if !(d > LZ_SHORT_MAX_DIST || d > cursor) {
        let len = common_len(input, cursor, d, max_len);
        lemma_common_len(input, cursor, d, max_len);
        let next = if len >= LZ_SHORT_MIN_LEN && best.len < len {
            Matches { len: len as usize, distance: d as usize }
        } else {
            best
        };
        assert(short_found(input, cursor, max_len, d + 1, next));
        lemma_scan_short_found(input, cursor, max_len, d + 1, next);
    }
}

/// Which match the search among the short distances gives: the distance
/// of at most `LZ_SHORT_MAX_DIST` that repeats the most bytes, the nearest
/// of them where several do, if that is at least `LZ_SHORT_MIN_LEN` bytes;
/// else none.
pub proof fn lemma_short_match_choice(input: Seq<u8>, max_len: nat, cursor: int)
    requires
        0 <= cursor < input.len(),
        max_len <= usize::MAX,
    ensures
        ({
            let m = scan_short(input, cursor, max_len, 1, Matches { len: 0, distance: 0 });
            if m.len == 0 {
                forall|e: int|
                    1 <= e <= LZ_SHORT_MAX_DIST && e <= cursor ==> #[trigger] common_len(
                        input,
                        cursor,
                        e,
                        max_len,
                    ) < LZ_SHORT_MIN_LEN
            } else {
                &&& 1 <= m.distance <= LZ_SHORT_MAX_DIST
                &&& m.distance <= cursor
                &&& m.len == common_len(input, cursor, m.distance as int, max_len)
                &&& m.len >= LZ_SHORT_MIN_LEN
                &&& forall|e: int|
                    1 <= e < m.distance ==> #[trigger] common_len(input, cursor, e, max_len) < m.len
                &&& forall|e: int|
                    1 <= e <= LZ_SHORT_MAX_DIST && e <= cursor ==> #[trigger] common_len(
                        input,
                        cursor,
                        e,
                        max_len,
                    ) <= m.len
            }
        }),
{
    let zero = Matches { len: 0, distance: 0 };
    lemma_scan_short_found(input, cursor, max_len, 1, zero);
}

/// Where no distance from `from` up to `to` leads to the three bytes at
/// the cursor, the search passes over them.
pub proof fn lemma_scan_long_skip(
    input: Seq<u8>,
    cursor: int,
    max_distance: int,
    max_len: nat,
    from: int,
    to: int,
    best: Matches,
)
    requires
        1 <= from <= to,
        forall|p: int|
            0 <= p && cursor - to < p <= cursor - from && cursor - p <= max_distance
                ==> !#[trigger] same_key(input, p, cursor),
    ensures
        scan_long(input, cursor, max_distance, max_len, from, best) == scan_long(
            input,
            cursor,
            max_distance,
            max_len,
            to,
            best,
        ),
    decreases to - from,
{
    if from < to {
        if !(from > max_distance || from > cursor || best.len >= THRESHOLD_LEN1) {
            assert(!same_key(input, cursor - from, cursor));
            lemma_scan_long_skip(input, cursor, max_distance, max_len, from + 1, to, best);
        }
    }
}

/// Decoding the matches of a chain gives the bytes of the input that they
/// stand for.
proof fn lemma_decode_matches(input: Seq<u8>, pos: int, ms: Seq<Matches>, tail: Seq<u8>)
    requires
        input.len() <= usize::MAX,
        0 <= pos <= input.len(),
        valid_chain(input, pos, ms),
    ensures
        decode_from(matches_bytes(ms) + tail, input.take(pos), input.len(), ms.len()) == decode_from(
            tail,
            input.take(chain_end(pos, ms)),
            input.len(),
            0,
        ),
    decreases ms.len(),
{
    let n = input.len();
    if ms.len() == 0 {
        assert(matches_bytes(ms) + tail =~= tail);
    } else {
        let m = ms[0];
        let rest = ms.drop_first();
        let after = matches_bytes(rest) + tail;
        let s = matches_bytes(ms) + tail;
        assert(s =~= crate::format::match_bytes(m) + after);
        lemma_parse_match(m, after);
        assert(parse_match(s) == Some((m.distance as nat, m.len as nat, after)));
        lemma_copy_back_repeats(input, pos, m.distance as int, m.len as nat);
        assert(copy_back(input.take(pos), m.distance as int, m.len as nat) == input.take(
            pos + m.len,
        ));
        lemma_decode_matches(input, pos + m.len, rest, tail);
        assert(decode_from(s, input.take(pos), n, ms.len()) == decode_from(
            after,
            input.take(pos + m.len),
            n,
            rest.len(),
        ));
    }
}

/// Decoding a block gives the bytes of the input that it stands for.
proof fn lemma_decode_block(
    input: Seq<u8>,
    lit_start: int,
    lit_len: int,
    ms: Seq<Matches>,
    tail: Seq<u8>,
)
    requires
        input.len() <= usize::MAX,
        0 <= lit_start,
        1 <= lit_len,
        lit_start + lit_len <= input.len(),
        valid_chain(input, lit_start + lit_len, ms),
    ensures
        decode_from(
            block_bytes(input.subrange(lit_start, lit_start + lit_len), ms) + tail,
            input.take(lit_start),
            input.len(),
            0,
        ) == decode_from(
            tail,
            input.take(chain_end(lit_start + lit_len, ms)),
            input.len(),
            0,
        ),
{
    let n = input.len();
    let lit_end = lit_start + lit_len;
    let literals = input.subrange(lit_start, lit_end);
    let out0 = input.take(lit_start);
    let after_head = literals + (matches_bytes(ms) + tail);
    let s = block_bytes(literals, ms) + tail;
    lemma_chain_bounds(input, lit_end, ms);
    assert(s =~= crate::format::head_bytes(lit_len as nat, ms.len()) + after_head);
    lemma_parse_head(lit_len as usize, ms.len() as usize, after_head);
    assert(parse_head(s) == Some((lit_len as usize, ms.len() as usize, after_head)));
    let filled = out0 + after_head.take(lit_len);
    assert(filled =~= input.take(lit_end));
    assert(after_head.skip(lit_len) =~= matches_bytes(ms) + tail);
    if lit_end < n {
        lemma_decode_matches(input, lit_end, ms, tail);
    } else {
        assert(ms.len() == 0);
    }
}

/// Decoding what the encoder still writes, on top of the input before the
/// open block, gives the input.
proof fn lemma_round_trip_from(
    input: Seq<u8>,
    max_distance: nat,
    max_len: nat,
    cursor: int,
    lit_start: int,
    lit_len: int,
    ms: Seq<Matches>,
)
    requires
        input.len() <= usize::MAX,
        max_distance <= LZ_MAX_DISTANCE,
        max_len <= usize::MAX,
        0 <= lit_start,
        1 <= lit_len,
        lit_start + lit_len <= input.len(),
        valid_chain(input, lit_start + lit_len, ms),
        cursor == chain_end(lit_start + lit_len, ms),
    ensures
        decode_from(
            encode_from(input, max_distance, max_len, cursor, lit_start, lit_len, ms),
            input.take(lit_start),
            input.len(),
            0,
        ) == Some(input),
    decreases input.len() - cursor,
{
    let n = input.len();
    let literals = input.subrange(lit_start, lit_start + lit_len);
    lemma_chain_bounds(input, lit_start + lit_len, ms);
    if cursor >= n {
        let none = Seq::<u8>::empty();
        assert(block_bytes(literals, ms) + none =~= block_bytes(literals, ms));
        lemma_decode_block(input, lit_start, lit_len, ms, none);
        assert(input.take(cursor) =~= input);
    } else {
        let m = best_match(input, max_distance, max_len, cursor);
        lemma_best_match_valid(input, max_distance, max_len, cursor);
        if m.len == 0 {
            if ms.len() > 0 {
                let none = Seq::<Matches>::empty();
                let tail = encode_from(input, max_distance, max_len, cursor + 1, cursor, 1, none);
                lemma_decode_block(input, lit_start, lit_len, ms, tail);
                lemma_round_trip_from(input, max_distance, max_len, cursor + 1, cursor, 1, none);
            } else {
                lemma_round_trip_from(
                    input,
                    max_distance,
                    max_len,
                    cursor + 1,
                    lit_start,
                    lit_len + 1,
                    ms,
                );
            }
        } else {
            lemma_chain_push(input, lit_start + lit_len, ms, m);
            lemma_round_trip_from(
                input,
                max_distance,
                max_len,
                cursor + m.len,
                lit_start,
                lit_len,
                ms.push(m),
            );
        }
    }
}

/// Decoding inverts encoding: the stream that the encoder writes for
/// `input` stands for `input`, whatever window and cap it was written
/// with.
pub proof fn lemma_round_trip(input: Seq<u8>, max_distance: nat, max_len: nat)
    requires
        input.len() <= usize::MAX,
        max_distance <= LZ_MAX_DISTANCE,
        max_len <= usize::MAX,
    ensures
        decode_spec(encode_spec(input, max_distance, max_len), input.len()) == Some(input),
{
    if input.len() == 0 {
        assert(input =~= Seq::<u8>::empty());
    } else {
        assert(input.take(0) =~= Seq::<u8>::empty());
        lemma_round_trip_from(input, max_distance, max_len, 1, 0, 1, Seq::empty());
    }
}

} // verus!
