//! The stk1 coder.

use crate::cache::{
    key_at,
    key_limit,
    lemma_bytes_key_injective,
    strictly_decreasing,
    window_start,
    MatchingBytesKey,
    OffsetCache,
};
use crate::format::{
    block_bytes,
    copy_back,
    decode_from,
    decode_spec,
    head_bytes,
    lemma_matches_bytes_push,
    match_bytes,
    matches_bytes,
    parse_count,
    parse_head,
    parse_match,
    LZ_MAX_DISTANCE,
};
use crate::greedy::{
    best_match,
    chain_end,
    encode_from,
    encode_spec,
    lemma_best_match_valid,
    lemma_chain_bounds,
    lemma_chain_push,
    lemma_round_trip,
    lemma_scan_long_skip,
    long_match,
    same_key,
    scan_long,
    scan_short,
    valid_chain,
    LZ_MIN_MID_LEN,
    LZ_SHORT_MAX_DIST,
    LZ_SHORT_MIN_LEN,
    THRESHOLD_LEN1,
};
use crate::lz::{matching_len, Matches};
use crate::report::{compare, decode_error_text, encode_error_text, encode_error_words};
use crate::s7s::{next_byte, S7s};
use crate::var_slice::VarSlice;
use crate::{DecodeError, EncodeError};
use std::collections::TryReserveError;
use vstd::prelude::*;
use vstd::std_specs::iter::IteratorSpec;

verus! {

/// The usual cap on the length of one match.
pub const LZ_MAX_LEN: usize = 0x80_00_00;

/// The stk1 coder.
pub struct Stk1;

/// How far back and how long a match may be.
#[derive(Debug)]
pub struct Configuration {
    max_distance: usize,
    max_len: usize,
}

impl Configuration {
    /// The window is one that the format can hold, and nothing is empty.
    #[verifier::type_invariant]
    spec fn in_format(self) -> bool {
        &&& 1 <= self.max_distance <= LZ_MAX_DISTANCE
        &&& 1 <= self.max_len <= 0xFFFF_FFFF
    }

    /// The window: how far back a match may reach.
    pub closed spec fn spec_max_distance(&self) -> nat {
        self.max_distance as nat
    }

    /// The cap on the length of one match.
    pub closed spec fn spec_max_len(&self) -> nat {
        self.max_len as nat
    }

    /// A window of `max_distance` bytes with matches of up to `max_len`.
    fn new(max_distance: usize, max_len: usize) -> (r: Self)
        requires
            1 <= max_distance <= LZ_MAX_DISTANCE,
            1 <= max_len <= 0xFFFF_FFFF,
        ensures
            r.spec_max_distance() == max_distance,
            r.spec_max_len() == max_len,
    {
        Self { max_distance, max_len }
    }

    /// A small dictionary: a window of 16 KiB, matches of up to 16 KiB.
    pub fn tiny() -> (r: Self)
        ensures
            r.spec_max_distance() == 0x4000,
            r.spec_max_len() == 0x4000,
    {
        Self::new(0x4000, 0x4000)
    }

    /// The widest window, with matches as long as 32 bits can say.
    pub fn max() -> (r: Self)
        ensures
            r.spec_max_distance() == LZ_MAX_DISTANCE,
            r.spec_max_len() == 0xFFFF_FFFF,
    {
        Self::new(LZ_MAX_DISTANCE, 0xFFFF_FFFF)
    }

    /// The window, which is never empty and never wider than the format
    /// can say.
    pub fn max_distance(&self) -> (r: usize)
        ensures
            r == self.spec_max_distance(),
            1 <= r <= LZ_MAX_DISTANCE,
    {
        proof {
            use_type_invariant(self);
        }
        self.max_distance
    }

    /// The cap on the length of one match, which is at least one.
    pub fn max_len(&self) -> (r: usize)
        ensures
            r == self.spec_max_len(),
            1 <= r <= 0xFFFF_FFFF,
    {
        proof {
            use_type_invariant(self);
        }
        self.max_len
    }
}

impl Default for Configuration {
    /// The usual dictionary: a window of 128 KiB, matches of up to 8 MiB.
    fn default() -> (r: Self)
        ensures
            r.spec_max_distance() == LZ_MAX_DISTANCE,
            r.spec_max_len() == LZ_MAX_LEN,
    {
        Self::new(LZ_MAX_DISTANCE, LZ_MAX_LEN)
    }
}

/// Whether a buffer of `len` bytes can be encoded: its positions fit the
/// 32-bit offsets of the dictionary.
pub open spec fn encodable_len(len: nat) -> bool {
    len <= 0xFFFF_FFFF
}

impl Stk1 {
    /// Encodes `src`, decodes the stream again and compares what comes out
    /// with `src` byte by byte.  This takes more time and memory than
    /// [`Stk1::encode`].
    ///
    /// An error says in words what went wrong.  Decoding and comparing
    /// cannot go wrong, so the result is that of `encode`.
    pub fn encode_with_test(src: &[u8], config: Configuration) -> (r: Result<Vec<u8>, String>)
        ensures
            match r {
                Ok(bytes) => {
                    &&& encodable_len(src@.len())
                    &&& bytes@ == encode_spec(
                        src@,
                        config.spec_max_distance(),
                        config.spec_max_len(),
                    )
                    &&& decode_spec(bytes@, src@.len()) == Some(src@)
                },
                Err(text) => !encodable_len(src@.len()) && text@ == encode_error_words(
                    EncodeError::InputTooLarge,
                ),
            },
    {
        let dst = match Self::encode(src, config) {
            Ok(bytes) => bytes,
            Err(error) => {
                return Err(encode_error_text(&error));
            },
        };
        let size = src.len();
        let mut temp: Vec<u8> = Vec::new();
        temp.resize(size, 0);
        assert(temp@.len() == size);
        match Self::decode(dst.as_slice(), temp.as_mut_slice()) {
            Ok(()) => {},
            Err(error) => {
                return Err(decode_error_text(&error));
            },
        }
        match compare(src, temp.as_slice()) {
            Ok(()) => {},
            Err(text) => {
                return Err(text);
            },
        }
        Ok(dst)
    }

    /// Encodes `input`.
    ///
    /// The stream is the one that the greedy search gives, and decoding it
    /// into a buffer as long as `input` gives `input` back.  No input gives
    /// no stream.  Fails with `InputTooLarge` where `input` is too long to
    /// be encoded.
    pub fn encode(input: &[u8], config: Configuration) -> (r: Result<Vec<u8>, EncodeError>)
        ensures
            match r {
                Ok(bytes) => {
                    &&& encodable_len(input@.len())
                    &&& bytes@ == encode_spec(
                        input@,
                        config.spec_max_distance(),
                        config.spec_max_len(),
                    )
                    &&& decode_spec(bytes@, input@.len()) == Some(input@)
                },
                Err(error) => !encodable_len(input@.len()) && error == EncodeError::InputTooLarge,
            },
    {
        let n = input.len();
        let max_distance = config.max_distance();
        let max_len = config.max_len();
        proof {
            if encodable_len(n as nat) {
                lemma_round_trip(input@, max_distance as nat, max_len as nat);
            }
        }
        let mut output: Vec<u8> = Vec::new();
        if n == 0 {
            return Ok(output);
        }
        if n > 0xFFFF_FFFF {
            return Err(EncodeError::InputTooLarge);
        }
        let mut offset_cache = OffsetCache::new(input, max_distance);
        let mut lit_buf = VarSlice::new(input, 0);
        let mut lz_buf: Vec<Matches> = Vec::new();

        let mut cursor: usize = 1;
        offset_cache.advance(cursor);
        proof {
            assert(output@ + encode_spec(input@, max_distance as nat, max_len as nat) =~= encode_spec(
                input@,
                max_distance as nat,
                max_len as nat,
            ));
        }
        while cursor < n
            invariant
                n == input@.len(),
                encodable_len(n as nat),
                1 <= max_distance <= LZ_MAX_DISTANCE,
                1 <= max_len <= 0xFFFF_FFFF,
                1 <= cursor <= n,
                offset_cache.wf(),
                offset_cache.input() == input@,
                offset_cache.max_distance() == max_distance,
                offset_cache.cursor() == if cursor <= key_limit(n as nat) {
                    cursor as nat
                } else {
                    key_limit(n as nat)
                },
                lit_buf.source() == input@,
                lit_buf.in_bounds(),
                lit_buf.spec_len() >= 1,
                valid_chain(input@, (lit_buf.offset() + lit_buf.spec_len()) as int, lz_buf@),
                cursor == chain_end((lit_buf.offset() + lit_buf.spec_len()) as int, lz_buf@),
                output@ + encode_from(
                    input@,
                    max_distance as nat,
                    max_len as nat,
                    cursor as int,
                    lit_buf.offset() as int,
                    lit_buf.spec_len() as int,
                    lz_buf@,
                ) == encode_spec(input@, max_distance as nat, max_len as nat),
            decreases n - cursor,
        {
            let ghost lit_start = lit_buf.offset() as int;
            let ghost lit_len = lit_buf.spec_len() as int;
            let ghost before = output@;
            let ghost pending = lz_buf@;
            let mut matches = Self::find_long(input, &offset_cache, cursor, max_len);
            if matches.is_zero() {
                matches = Self::find_short(input, cursor, max_len);
            }
            proof {
                assert(matches == best_match(
                    input@,
                    max_distance as nat,
                    max_len as nat,
                    cursor as int,
                ));
                lemma_best_match_valid(input@, max_distance as nat, max_len as nat, cursor as int);
                lemma_chain_bounds(input@, lit_start + lit_len, pending);
            }
            let count = if matches.is_zero() {
                if lz_buf.len() > 0 {
                    match Self::_flush(&mut output, lit_buf, &mut lz_buf) {
                        Ok(()) => {},
                        Err(error) => {
                            return Err(error);
                        },
                    }
                    lit_buf = VarSlice::new(input, cursor);
                    proof {
                        let tail = encode_from(
                            input@,
                            max_distance as nat,
                            max_len as nat,
                            cursor + 1,
                            cursor as int,
                            1,
                            Seq::empty(),
                        );
                        let block = block_bytes(
                            input@.subrange(lit_start, lit_start + lit_len),
                            pending,
                        );
                        assert(output@ + tail =~= before + (block + tail));
                    }
                } else {
                    lit_buf.expand(1);
                }
                1
            } else {
                proof {
                    lemma_chain_push(input@, lit_start + lit_len, pending, matches);
                }
                lz_buf.push(matches);
                matches.len
            };
            offset_cache.advance(count);
            cursor += count;
        }
        proof {
            lemma_chain_bounds(
                input@,
                (lit_buf.offset() + lit_buf.spec_len()) as int,
                lz_buf@,
            );
        }
        match Self::_flush(&mut output, lit_buf, &mut lz_buf) {
            Ok(()) => {},
            Err(error) => {
                return Err(error);
            },
        }
        Ok(output)
    }

    /// The search among the earlier positions with the three bytes at the
    /// cursor, most recent first.
    fn find_long(input: &[u8], offset_cache: &OffsetCache, cursor: usize, max_len: usize) -> (r:
        Matches)
        requires
            offset_cache.wf(),
            offset_cache.input() == input@,
            1 <= cursor < input@.len(),
            offset_cache.max_distance() >= 1,
            offset_cache.cursor() == if cursor <= key_limit(input@.len()) {
                cursor as nat
            } else {
                key_limit(input@.len())
            },
        ensures
            r == long_match(input@, offset_cache.max_distance(), max_len as nat, cursor as int),
    {
        let ghost data = input@;
        let ghost window = offset_cache.max_distance() as int;
        let ghost zero = Matches { len: 0, distance: 0 };
        let ghost start = window_start(cursor as nat, window as nat) as int;
        let mut best = Matches::zero();
        proof {
            offset_cache.lemma_wf();
        }
        match offset_cache.matches() {
            Some(mut walk) => {
                let ghost mut from: int = 1;
                proof {
                    let key = key_at::<MatchingBytesKey>(data, cursor as int);
                    let list = offset_cache.lists()[key];
                    assert forall|i: int| 0 <= i < list.len() implies list[i] < cursor && same_key(
                        data,
                        #[trigger] list[i] as int,
                        cursor as int,
                    ) by {
                        let p = list[i] as int;
                        lemma_bytes_key_injective(
                            data[p],
                            data[p + 1],
                            data[p + 2],
                            data[cursor as int],
                            data[cursor + 1],
                            data[cursor + 2],
                        );
                    }
                    assert forall|p: int|
                        start <= p && p + 1 <= cursor && #[trigger] same_key(
                            data,
                            p,
                            cursor as int,
                        ) implies list.contains(p as u32) by {
                        lemma_bytes_key_injective(
                            data[p],
                            data[p + 1],
                            data[p + 2],
                            data[cursor as int],
                            data[cursor + 1],
                            data[cursor + 2],
                        );
                        assert(key_at::<MatchingBytesKey>(data, p) == key);
                    }
                }
                loop
                    invariant_except_break
                        best.len < THRESHOLD_LEN1,
                        scan_long(data, cursor as int, window, max_len as nat, from, best)
                            == scan_long(data, cursor as int, window, max_len as nat, 1, zero),
                    invariant
                        data == input@,
                        1 <= cursor < data.len(),
                        cursor + 2 < data.len(),
                        data.len() <= u32::MAX,
                        window >= 1,
                        start == window_start(cursor as nat, window as nat),
                        walk.current() == cursor,
                        walk.min_value() == start,
                        1 <= from,
                        strictly_decreasing(walk.remaining()),
                        forall|i: int|
                            0 <= i < walk.remaining().len() ==> walk.remaining()[i] < cursor
                                && cursor - walk.remaining()[i] >= from && same_key(
                                data,
                                #[trigger] walk.remaining()[i] as int,
                                cursor as int,
                            ),
                        forall|p: int|
                            start <= p && p + from <= cursor && #[trigger] same_key(
                                data,
                                p,
                                cursor as int,
                            ) ==> walk.remaining().contains(p as u32),
                    ensures
                        best == scan_long(data, cursor as int, window, max_len as nat, 1, zero),
                    decreases walk.remaining().len(),
                {
                    let ghost rem = walk.remaining();
                    match walk.next() {
                        Some(distance) => {
                            let ghost head = rem[0] as int;
                            proof {
                                assert forall|p: int|
                                    0 <= p && cursor - distance < p <= cursor - from && cursor - p
                                        <= window implies !#[trigger] same_key(
                                    data,
                                    p,
                                    cursor as int,
                                ) by {
                                    if same_key(data, p, cursor as int) {
                                        assert(rem.contains(p as u32));
                                        let i = choose|i: int|
                                            0 <= i < rem.len() && rem[i] == p as u32;
                                        assert(i == 0 || rem[0] > rem[i]);
                                    }
                                }
                                lemma_scan_long_skip(
                                    data,
                                    cursor as int,
                                    window,
                                    max_len as nat,
                                    from,
                                    distance as int,
                                    best,
                                );
                                assert(same_key(data, head, cursor as int));
                            }
                            let len = matching_len(input, cursor, distance, max_len);
                            if best.len < len && len >= LZ_MIN_MID_LEN {
                                best = Matches { len, distance };
                            }
                            proof {
                                from = distance + 1;
                                assert forall|i: int|
                                    0 <= i < walk.remaining().len() implies walk.remaining()[i]
                                    < cursor && cursor - walk.remaining()[i] >= from && same_key(
                                    data,
                                    #[trigger] walk.remaining()[i] as int,
                                    cursor as int,
                                ) by {
                                    assert(walk.remaining()[i] == rem[i + 1]);
                                    assert(rem[0] > rem[i + 1]);
                                }
                                assert forall|p: int|
                                    start <= p && p + from <= cursor && #[trigger] same_key(
                                        data,
                                        p,
                                        cursor as int,
                                    ) implies walk.remaining().contains(p as u32) by {
                                    assert(rem.contains(p as u32));
                                    let i = choose|i: int| 0 <= i < rem.len() && rem[i] == p as u32;
                                    assert(i > 0);
                                    assert(walk.remaining()[i - 1] == p as u32);
                                }
                                assert forall|i: int, j: int|
                                    0 <= i < j < walk.remaining().len() implies walk.remaining()[i]
                                    > walk.remaining()[j] by {
                                    assert(walk.remaining()[i] == rem[i + 1]);
                                    assert(walk.remaining()[j] == rem[j + 1]);
                                }
                            }
                            assert(scan_long(
                                data,
                                cursor as int,
                                window,
                                max_len as nat,
                                from,
                                best,
                            ) == scan_long(data, cursor as int, window, max_len as nat, 1, zero));
                            if best.len >= THRESHOLD_LEN1 {
                                break ;
                            }
                        },
                        None => {
                            proof {
                                assert forall|p: int|
                                    0 <= p && cursor - (window + 1) < p <= cursor - from && cursor
                                        - p <= window implies !#[trigger] same_key(
                                    data,
                                    p,
                                    cursor as int,
                                ) by {
                                    if same_key(data, p, cursor as int) {
                                        assert(rem.contains(p as u32));
                                        let i = choose|i: int|
                                            0 <= i < rem.len() && rem[i] == p as u32;
                                        assert(i == 0 || rem[0] > rem[i]);
                                    }
                                }
                                if from <= window + 1 {
                                    lemma_scan_long_skip(
                                        data,
                                        cursor as int,
                                        window,
                                        max_len as nat,
                                        from,
                                        window + 1,
                                        best,
                                    );
                                }
                            }
                            break ;
                        },
                    }
                }
            },
            None => {
                proof {
                    if cursor + 2 < data.len() {
                        let key = key_at::<MatchingBytesKey>(data, cursor as int);
                        assert forall|p: int|
                            0 <= p && cursor - (window + 1) < p <= cursor - 1 && cursor - p
                                <= window implies !#[trigger] same_key(data, p, cursor as int) by {
                            lemma_bytes_key_injective(
                                data[p],
                                data[p + 1],
                                data[p + 2],
                                data[cursor as int],
                                data[cursor + 1],
                                data[cursor + 2],
                            );
                            if same_key(data, p, cursor as int) {
                                assert(key_at::<MatchingBytesKey>(data, p) == key);
                            }
                        }
                        lemma_scan_long_skip(
                            data,
                            cursor as int,
                            window,
                            max_len as nat,
                            1,
                            window + 1,
                            zero,
                        );
                    }
                }
            },
        }
        best
    }

    /// The search among the short distances.
    fn find_short(input: &[u8], cursor: usize, max_len: usize) -> (r: Matches)
        requires
            1 <= cursor < input@.len(),
        ensures
            r == scan_short(
                input@,
                cursor as int,
                max_len as nat,
                1,
                Matches { len: 0, distance: 0 },
            ),
    {
        let ghost zero = Matches { len: 0, distance: 0 };
        let top = if cursor < LZ_SHORT_MAX_DIST {
            cursor
        } else {
            LZ_SHORT_MAX_DIST
        };
        let mut best = Matches::zero();
        let mut distance: usize = 1;
        while distance <= top
            invariant
                1 <= cursor < input@.len(),
                top <= cursor,
                top <= LZ_SHORT_MAX_DIST,
                top == cursor || top == LZ_SHORT_MAX_DIST,
                1 <= distance <= top + 1,
                scan_short(input@, cursor as int, max_len as nat, distance as int, best)
                    == scan_short(input@, cursor as int, max_len as nat, 1, zero),
            decreases top + 1 - distance,
        {
            let len = matching_len(input, cursor, distance, max_len);
            if len >= LZ_SHORT_MIN_LEN && best.len < len {
                best = Matches { len, distance };
            }
            distance += 1;
        }
        best
    }

    /// Writes one block: its head, its literals and its matches; then
    /// empties the list of matches.
    fn _flush(output: &mut Vec<u8>, lit_buf: VarSlice<u8>, lz_buf: &mut Vec<Matches>) -> (r:
        Result<(), EncodeError>)
        requires
            lit_buf.in_bounds(),
            lit_buf.spec_len() >= 1,
            forall|i: int|
                0 <= i < old(lz_buf)@.len() ==> 1 <= (#[trigger] old(lz_buf)@[i]).len && 1 <= old(
                    lz_buf,
                )@[i].distance <= LZ_MAX_DISTANCE,
        ensures
            r is Ok,
            final(output)@ == old(output)@ + block_bytes(lit_buf@, old(lz_buf)@),
            final(lz_buf)@ == Seq::<Matches>::empty(),
    {
        let lit_len = lit_buf.len();
        let lz_count = lz_buf.len();
        let ghost literals = lit_buf@;
        let lit_nibble: usize = if lit_len > 15 {
            0
        } else {
            lit_len
        };
        let lz_nibble: usize = if lz_count > 15 {
            0
        } else {
            lz_count
        };
        let leading = lit_nibble | (lz_nibble << 4);
        assert(leading == lit_nibble + 16 * lz_nibble) by (bit_vector)
            requires
                leading == lit_nibble | (lz_nibble << 4),
                lit_nibble <= 15,
                lz_nibble <= 15,
        ;
        output.push(leading as u8);
        if lit_len > 15 {
            S7s::write(output, lit_len);
        }
        if lz_count > 15 || lz_count == 0 {
            S7s::write(output, lz_count);
        }
        assert(output@ =~= old(output)@ + head_bytes(lit_len as nat, lz_count as nat));
        let ghost headed = output@;
        output.extend_from_slice(lit_buf.into_slice());
        assert(output@ =~= headed + literals);

        let mut i: usize = 0;
        while i < lz_count
            invariant
                i <= lz_count,
                lz_count == lz_buf@.len(),
                lz_buf@ == old(lz_buf)@,
                forall|i: int|
                    0 <= i < lz_buf@.len() ==> 1 <= (#[trigger] lz_buf@[i]).len && 1
                        <= lz_buf@[i].distance <= LZ_MAX_DISTANCE,
                output@ == headed + literals + matches_bytes(lz_buf@.take(i as int)),
            decreases lz_count - i,
        {
            let matches = lz_buf[i];
            let ghost before = output@;
            let lz_len = matches.len - 1;
            let distance = matches.distance - 1;
            let len_nibble: usize = if lz_len > 15 {
                0
            } else {
                lz_len
            };
            if distance < 8 {
                let head = (distance << 1) | 0x01 | (len_nibble << 4);
                assert(head == 2 * distance + 1 + 16 * len_nibble) by (bit_vector)
                    requires
                        head == (distance << 1) | 0x01 | (len_nibble << 4),
                        distance < 8,
                        len_nibble <= 15,
                ;
                output.push(head as u8);
            } else if distance < 0x4_00 {
                let head = ((distance >> 6) & 0x0E) | (len_nibble << 4);
                let trail = ((distance & 0x7F) << 1) | 1;
                assert(head == 2 * (distance / 0x80) + 16 * len_nibble && trail == 2 * (distance
                    % 0x80) + 1) by (bit_vector)
                    requires
                        head == ((distance >> 6) & 0x0E) | (len_nibble << 4),
                        trail == ((distance & 0x7F) << 1) | 1,
                        distance < 0x4_00,
                        len_nibble <= 15,
                ;
                output.push(head as u8);
                output.push(trail as u8);
            } else {
                let head = ((distance >> 13) & 0x0E) | (len_nibble << 4);
                let middle = (distance >> 6) & 0xFE;
                let trail = ((distance & 0x7F) << 1) | 1;
                assert(head == 2 * (distance / 0x4000) + 16 * len_nibble && middle == 2 * ((distance
                    / 0x80) % 0x80) && trail == 2 * (distance % 0x80) + 1) by (bit_vector)
                    requires
                        head == ((distance >> 13) & 0x0E) | (len_nibble << 4),
                        middle == (distance >> 6) & 0xFE,
                        trail == ((distance & 0x7F) << 1) | 1,
                        distance < 0x2_00_00,
                        len_nibble <= 15,
                ;
                output.push(head as u8);
                output.push(middle as u8);
                output.push(trail as u8);
            }
            if lz_len > 15 {
                S7s::write(output, lz_len);
            }
            proof {
                assert(output@ =~= before + match_bytes(matches));
                lemma_matches_bytes_push(lz_buf@.take(i as int), matches);
                assert(lz_buf@.take(i as int).push(matches) =~= lz_buf@.take(i + 1));
                assert(output@ =~= headed + literals + matches_bytes(lz_buf@.take(i + 1)));
            }
            i += 1;
        }
        proof {
            assert(lz_buf@.take(lz_count as int) =~= lz_buf@);
            assert(output@ =~= old(output)@ + block_bytes(literals, lz_buf@));
        }
        lz_buf.clear();
        Ok(())
    }

    /// Decodes `input` into `output`, whose length says how many bytes the
    /// stream stands for.
    ///
    /// Fails with `InvalidData` where `input` is not a stream of that many
    /// bytes: it ends within a block, a literal run is longer than the bytes
    /// still wanted, or a match reaches back before the start of the output.
    /// On failure `output` holds nothing in particular.
    pub fn decode(input: &[u8], output: &mut [u8]) -> (r: Result<(), DecodeError>)
        ensures
            final(output)@.len() == old(output)@.len(),
            match decode_spec(input@, old(output)@.len()) {
                Some(bytes) => r is Ok && final(output)@ == bytes,
                None => r == Err::<(), DecodeError>(DecodeError::InvalidData),
            },
    {
        let n = output.len();
        let mut iter = input.iter();
        let mut cursor: usize = 0;
        assert(iter.remaining().unref() =~= input@);
        assert(output@.take(0) =~= Seq::<u8>::empty());
        while cursor < n
            invariant
                iter.decrease() is Some,
                output@.len() == n,
                n == old(output)@.len(),
                cursor <= n,
                decode_from(iter.remaining().unref(), output@.take(cursor as int), n as nat, 0)
                    == decode_spec(input@, n as nat),
            ensures
                cursor == n,
            decreases iter.decrease()->0,
        {
            let ghost s0 = iter.remaining().unref();
            let ghost out0 = output@.take(cursor as int);
            let ghost budget = iter.decrease()->0;
            let lead = match next_byte(&mut iter) {
                Some(byte) => byte,
                None => {
                    return Err(DecodeError::InvalidData);
                },
            };
            let ghost s1 = iter.remaining().unref();
            assert(s1 =~= s0.drop_first());
            let by_nibble = lead & 0x0F;
            let lz_nibble = lead >> 4;
            let by = if by_nibble == 0 {
                match S7s::read(&mut iter) {
                    Some(value) => value,
                    None => {
                        return Err(DecodeError::InvalidData);
                    },
                }
            } else {
                by_nibble as usize
            };
            let ghost s2 = iter.remaining().unref();
            assert(parse_count(s1, by_nibble) == Some((by, s2)));
            let lz = if lz_nibble == 0 {
                match S7s::read(&mut iter) {
                    Some(value) => value,
                    None => {
                        return Err(DecodeError::InvalidData);
                    },
                }
            } else {
                lz_nibble as usize
            };
            let ghost s3 = iter.remaining().unref();
            assert(parse_count(s2, lz_nibble) == Some((lz, s3)));
            assert(parse_head(s0) == Some((by, lz, s3)));
            if by > n - cursor {
                return Err(DecodeError::InvalidData);
            }
            let mut copied: usize = 0;
            while copied < by
                invariant
                    iter.decrease() is Some,
                    iter.decrease()->0 < budget,
                    output@.len() == n,
                    n == old(output)@.len(),
                    copied <= by,
                    cursor + (by - copied) <= n,
                    out0.len() + copied == cursor,
                    iter.remaining().unref().len() + copied <= s3.len(),
                    iter.remaining().unref() == s3.skip(copied as int),
                    output@.take(cursor as int) == out0 + s3.take(copied as int),
                    out0.len() < n,
                    parse_head(s0) == Some((by, lz, s3)),
                    decode_from(s0, out0, n as nat, 0) == decode_spec(input@, n as nat),
                decreases by - copied,
            {
                let ghost rest = iter.remaining().unref();
                match next_byte(&mut iter) {
                    Some(byte) => {
                        output[cursor] = byte;
                        cursor += 1;
                        copied += 1;
                        proof {
                            assert(byte == rest[0]);
                            assert(rest[0] == s3[copied - 1]);
                            assert(iter.remaining().unref() =~= s3.skip(copied as int));
                            let before = out0 + s3.take(copied - 1);
                            assert(output@.take(cursor as int) =~= before.push(byte));
                            assert(before.push(byte) =~= out0 + s3.take(copied as int));
                        }
                    },
                    None => {
                        assert(rest.len() == 0);
                        assert(s3.len() == copied);
                        return Err(DecodeError::InvalidData);
                    },
                }
            }
            let ghost out1 = output@.take(cursor as int);
            let ghost s4 = iter.remaining().unref();
            assert(out1 == out0 + s3.take(by as int));
            assert(s4 == s3.skip(by as int));
            if cursor >= n {
                proof {
                    assert(decode_spec(input@, n as nat) == Some(out1));
                }
                break ;
            }
            assert(decode_from(s4, out1, n as nat, lz as nat) == decode_spec(input@, n as nat));
            let mut seen: usize = 0;
            while seen < lz
                invariant
                    iter.decrease() is Some,
                    iter.decrease()->0 < budget,
                    output@.len() == n,
                    n == old(output)@.len(),
                    cursor <= n,
                    seen <= lz,
                    decode_from(
                        iter.remaining().unref(),
                        output@.take(cursor as int),
                        n as nat,
                        (lz - seen) as nat,
                    ) == decode_spec(input@, n as nat),
                decreases lz - seen,
            {
                let ghost m0 = iter.remaining().unref();
                let ghost written = output@.take(cursor as int);
                let lead_cp = match next_byte(&mut iter) {
                    Some(byte) => byte,
                    None => {
                        return Err(DecodeError::InvalidData);
                    },
                };
                let ghost m1 = iter.remaining().unref();
                assert(m1 =~= m0.drop_first());
                let ds = match S7s::read_with_acc(&mut iter, (lead_cp & 0x0F) as usize) {
                    Some(value) => value,
                    None => {
                        return Err(DecodeError::InvalidData);
                    },
                };
                let ghost m2 = iter.remaining().unref();
                let cp_nibble = lead_cp >> 4;
                let cp = if cp_nibble == 0 {
                    match S7s::read(&mut iter) {
                        Some(value) => value,
                        None => {
                            return Err(DecodeError::InvalidData);
                        },
                    }
                } else {
                    cp_nibble as usize
                };
                let ghost m3 = iter.remaining().unref();
                assert(parse_count(m2, cp_nibble) == Some((cp, m3)));
                assert(cp_nibble <= 15) by (bit_vector)
                    requires
                        cp_nibble == lead_cp >> 4,
                ;
                assert(parse_match(m0) == Some(((ds + 1) as nat, (cp + 1) as nat, m3)));
                if ds >= cursor {
                    return Err(DecodeError::InvalidData);
                }
                let ds = ds + 1;
                let cp = if cp < n - cursor {
                    cp + 1
                } else {
                    n - cursor
                };
                assert(decode_from(m3, copy_back(written, ds as int, cp as nat), n as nat, (lz
                    - seen - 1) as nat) == decode_spec(input@, n as nat));
                let mut done: usize = 0;
                while done < cp
                    invariant
                        output@.len() == n,
                        n == old(output)@.len(),
                        done <= cp,
                        1 <= ds <= cursor,
                        cursor + (cp - done) <= n,
                        copy_back(output@.take(cursor as int), ds as int, (cp - done) as nat)
                            == copy_back(written, ds as int, cp as nat),
                    decreases cp - done,
                {
                    let ghost here = output@.take(cursor as int);
                    let byte = output[cursor - ds];
                    output[cursor] = byte;
                    cursor += 1;
                    done += 1;
                    proof {
                        assert(output@.take(cursor as int) =~= here.push(here[here.len() - ds]));
                    }
                }
                seen += 1;
            }
        }
        proof {
            assert(output@.take(cursor as int) =~= output@);
        }
        Ok(())
    }

    /// Decodes `input` into a new buffer of `size` bytes.
    ///
    /// Fails with `OutOfMemory` where the buffer cannot be had, which is
    /// for the allocator to say, and else as [`Stk1::decode`] does.
    pub fn decode_to_vec(input: &[u8], size: usize) -> (r: Result<Vec<u8>, DecodeError>)
        ensures
            match r {
                Ok(bytes) => decode_spec(input@, size as nat) == Some(bytes@),
                Err(DecodeError::InvalidData) => decode_spec(input@, size as nat) is None,
                Err(DecodeError::OutOfMemory) => true,
            },
    {
        let mut vec: Vec<u8> = Vec::new();
        let reserved = vec.try_reserve(size);
        Self::decode_reserved(input, size, vec, reserved)
    }

    /// Decodes `input` into `vec`, made `size` bytes long, where the room
    /// for it was `reserved`; fails with `OutOfMemory` where it was not.
    pub fn decode_reserved(
        input: &[u8],
        size: usize,
        vec: Vec<u8>,
        reserved: Result<(), TryReserveError>,
    ) -> (r: Result<Vec<u8>, DecodeError>)
        ensures
            reserved is Err ==> r == Err::<Vec<u8>, DecodeError>(DecodeError::OutOfMemory),
            reserved is Ok ==> match decode_spec(input@, size as nat) {
                Some(bytes) => r matches Ok(decoded) && decoded@ == bytes,
                None => r == Err::<Vec<u8>, DecodeError>(DecodeError::InvalidData),
            },
    {
        match reserved {
            Ok(()) => {},
            Err(_) => {
                return Err(DecodeError::OutOfMemory);
            },
        }
        let mut vec = vec;
        vec.resize(size, 0);
        assert(vec@.len() == size);
        match Self::decode(input, vec.as_mut_slice()) {
            Ok(()) => Ok(vec),
            Err(error) => Err(error),
        }
    }
}

} // verus!
