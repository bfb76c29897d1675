//! The S7s code for unsigned integers.
//!
//! A value is cut into 7-bit chunks, most significant first.  Each chunk is
//! stored in the high seven bits of one byte; the low bit of a byte is set
//! on the last byte only:
//!
//! `aaaa_aaa0 bbbb_bbb0 cccc_ccc1` stands for `a_aaaa_aabb_bbbb_bccc_cccc`.

use vstd::prelude::*;
use vstd::std_specs::iter::IteratorSpec;

verus! {

/// The S7s integer code.
pub struct S7s;

/// The continuation bytes that carry the chunks of `chunks`, most
/// significant first; none for zero.
pub open spec fn s7s_lead(chunks: nat) -> Seq<u8>
    decreases chunks,
{
    if chunks == 0 {
        Seq::empty()
    } else {
        s7s_lead(chunks / 128).push(((chunks % 128) * 2) as u8)
    }
}

/// The S7s code of `value`: the continuation bytes of all chunks but the
/// last, then the last chunk with the terminator bit.
pub open spec fn s7s_bytes(value: nat) -> Seq<u8> {
    s7s_lead(value / 128).push(((value % 128) * 2 + 1) as u8)
}

/// The number of 7-bit chunks needed for `value`, at least one.
pub open spec fn s7s_len(value: nat) -> nat
    decreases value,
{
    if value < 128 {
        1
    } else {
        1 + s7s_len(value / 128)
    }
}

/// `128` to the power `n`.
pub open spec fn pow128(n: nat) -> nat
    decreases n,
{
    if n == 0 {
        1
    } else {
        128 * pow128((n - 1) as nat)
    }
}

/// What a word holds of `value`: the value itself where it fits, and else
/// its low bits.
pub open spec fn word(value: nat) -> usize {
    (value % (usize::MAX as nat + 1)) as usize
}

/// Reading an integer from the front of `s` with the accumulator `acc`:
/// the value and the bytes left behind it, or `None` where `s` ends before
/// a terminator.  Each byte is taken in below the bits that are there, and
/// the bit below the value says whether it is finished: an accumulator whose
/// low bit is set takes no byte.  The value is not bounded; a code may be
/// longer than any word.
pub open spec fn s7s_parse(s: Seq<u8>, acc: nat) -> Option<(nat, Seq<u8>)>
    decreases s.len(),
{
    if acc % 2 == 1 {
        Some((acc / 2, s))
    } else if s.len() == 0 {
        None
    } else {
        s7s_parse(s.drop_first(), acc * 128 + s[0] as nat)
    }
}

/// The lowest chunk of a word and the chunks above it, in shifts and masks
/// and in division and remainder.
proof fn lemma_chunk_bits(w: usize)
    ensures
        w >> 7 == w / 128,
        w & 0x7F == w % 128,
        (w & 0x7F) << 1 == (w % 128) * 2,
        ((w & 0x7F) << 1) | 1 == (w % 128) * 2 + 1,
        w != 0 ==> (w >> 7) < w,
{
    assert(w >> 7 == w / 128) by (bit_vector);
    assert(w & 0x7F == w % 128) by (bit_vector);
    assert((w & 0x7F) << 1 == (w % 128) * 2) by (bit_vector);
    assert(((w & 0x7F) << 1) | 1 == (w % 128) * 2 + 1) by (bit_vector);
    assert(w != 0 ==> (w >> 7) < w) by (bit_vector);
}

/// A value that fits a word is held whole.
pub proof fn lemma_word_fits(value: nat)
    requires
        value <= usize::MAX,
    ensures
        word(value) == value,
{
    vstd::arithmetic::div_mod::lemma_small_mod(value, usize::MAX as nat + 1);
}

/// What a word holds after seven more bits have come in below depends
/// only on what it held before.
proof fn lemma_word_step(x: nat, h: nat)
    ensures
        word(x * 128 + h) == word((word(x) * 128 + h) as nat),
{
    let r = usize::MAX as int + 1;
    let q = x as int / r;
    let low = x as int % r;
    vstd::arithmetic::div_mod::lemma_fundamental_div_mod(x as int, r);
    assert(x * 128 + h == r * (q * 128) + (low * 128 + h)) by (nonlinear_arith)
        requires
            x == r * q + low,
    ;
    vstd::arithmetic::div_mod::lemma_mod_multiples_vanish(q * 128, low * 128 + h, r);
}

/// Reading the continuation bytes of `w` fills an empty accumulator with
/// `w`, and no terminator bit.
proof fn lemma_parse_lead(w: nat, tail: Seq<u8>)
    ensures
        s7s_parse(s7s_lead(w) + tail, 0) == s7s_parse(tail, 2 * w),
    decreases w,
{
    if w == 0 {
        assert(s7s_lead(0) + tail =~= tail);
    } else {
        let up = w / 128;
        let b: u8 = ((w % 128) * 2) as u8;
        let next = seq![b] + tail;
        assert(s7s_lead(w) + tail =~= s7s_lead(up) + next);
        lemma_parse_lead(up, next);
        assert(next.drop_first() =~= tail);
        assert((2 * up) * 128 + next[0] as nat == 2 * w);
    }
}

/// What is left after a read is the end of what was there.
pub proof fn lemma_s7s_parse_rest(s: Seq<u8>, acc: nat)
    ensures
        match s7s_parse(s, acc) {
            Some((value, rest)) => {
                &&& rest.len() <= s.len()
                &&& rest == s.skip(s.len() - rest.len())
            },
            None => true,
        },
    decreases s.len(),
{
    if acc % 2 == 1 {
        assert(s.skip(0) =~= s);
    } else if s.len() != 0 {
        let t = s.drop_first();
        let next = acc * 128 + s[0] as nat;
        lemma_s7s_parse_rest(t, next);
        match s7s_parse(t, next) {
            Some((value, rest)) => {
                assert(t.skip(t.len() - rest.len()) =~= s.skip(s.len() - rest.len()));
            },
            None => {},
        }
    }
}

/// Reading inverts writing: the code of any value, followed by anything,
/// reads back as that value and leaves what followed.
pub proof fn lemma_s7s_round_trip(value: nat, rest: Seq<u8>)
    ensures
        s7s_parse(s7s_bytes(value) + rest, 0) == Some((value, rest)),
{
    let up = value / 128;
    let t: u8 = ((value % 128) * 2 + 1) as u8;
    let next = seq![t] + rest;
    assert(s7s_bytes(value) + rest =~= s7s_lead(up) + next);
    lemma_parse_lead(up, next);
    assert(next.drop_first() =~= rest);
    assert((2 * up) * 128 + next[0] as nat == 2 * value + 1);
    assert(s7s_parse(rest, 2 * value + 1) == Some((value, rest)));
}

/// A word that was written reads back whole, whatever its size.
pub proof fn lemma_s7s_word_round_trip(value: usize, rest: Seq<u8>)
    ensures
        s7s_parse(s7s_bytes(value as nat) + rest, 0) matches Some((read, left)) && word(read)
            == value && left == rest,
{
    lemma_s7s_round_trip(value as nat, rest);
    lemma_word_fits(value as nat);
}

/// The code of `value` has `s7s_len(value)` bytes, and all but its last byte
/// have a clear low bit.
pub proof fn lemma_s7s_bytes_len(value: nat)
    ensures
        s7s_bytes(value).len() == s7s_len(value),
        s7s_lead(value).len() == if value == 0 { 0 } else { s7s_len(value) },
    decreases value,
{
    if value != 0 {
        lemma_s7s_bytes_len(value / 128);
    }
}

/// The written length is the number of 7-bit digits of the value, which is
/// the ceiling of `log2(value + 1) / 7` but at least one: `value` lies below
/// `128^len`, and not below `128^(len - 1)` unless `len` is one.  A value of
/// 64 bits takes at most ten bytes.
pub proof fn lemma_s7s_len_bounds(value: nat)
    ensures
        1 <= s7s_len(value),
        value < pow128(s7s_len(value)),
        s7s_len(value) > 1 ==> pow128((s7s_len(value) - 1) as nat) <= value,
        value <= u64::MAX ==> s7s_len(value) <= 10,
    decreases value,
{
    reveal_with_fuel(pow128, 2);
    if value >= 128 {
        let up = value / 128;
        lemma_s7s_len_bounds(up);
        let m = s7s_len(up);
        assert(value < 128 * pow128(m)) by (nonlinear_arith)
            requires
                up == value / 128,
                up < pow128(m),
        ;
        if m > 1 {
            assert(128 * pow128((m - 1) as nat) <= value) by (nonlinear_arith)
                requires
                    up == value / 128,
                    pow128((m - 1) as nat) <= up,
            ;
        }
    }
    if value <= u64::MAX && s7s_len(value) > 10 {
        lemma_pow128_monotonic(10, (s7s_len(value) - 1) as nat);
        assert(pow128(10) == 0x400_0000_0000_0000_0000) by {
            reveal_with_fuel(pow128, 11);
        }
    }
}

/// Powers of 128 are positive and rise with the exponent.
proof fn lemma_pow128_monotonic(a: nat, b: nat)
    requires
        a <= b,
    ensures
        pow128(a) <= pow128(b),
        1 <= pow128(a),
    decreases b,
{
    if a < b {
        lemma_pow128_monotonic(a, (b - 1) as nat);
    } else if a > 0 {
        lemma_pow128_monotonic((a - 1) as nat, (b - 1) as nat);
    }
}

/// Takes the next byte of `iter`, if there is one.
pub(crate) fn next_byte<'a, T>(iter: &mut T) -> (r: Option<u8>) where T: Iterator<Item = &'a u8>
    requires
        (*old(iter)).obeys_prophetic_iter_laws(),
        (*old(iter)).decrease() is Some,
    ensures
        (*final(iter)).obeys_prophetic_iter_laws(),
        (*final(iter)).decrease() is Some,
        match r {
            Some(byte) => {
                &&& (*old(iter)).remaining().len() > 0
                &&& byte == (*old(iter)).remaining().unref()[0]
                &&& (*final(iter)).remaining().unref() == (*old(iter)).remaining().unref().drop_first()
                &&& (*final(iter)).decrease()->0 < (*old(iter)).decrease()->0
            },
            None => (*old(iter)).remaining().len() == 0 && (*final(iter)).remaining().len() == 0,
        },
{
    let ghost before = (*iter).remaining();
    let next = iter.next();
    match next {
        Some(byte) => {
            assert((*iter).remaining().unref() =~= before.unref().drop_first());
            Some(*byte)
        },
        None => None,
    }
}

impl S7s {
    /// Appends the S7s code of `value` to `output`.
    pub fn write(output: &mut Vec<u8>, value: usize)
        ensures
            final(output)@ == old(output)@ + s7s_bytes(value as nat),
    {
        proof {
            lemma_chunk_bits(value);
        }
        Self::write_lead(output, value >> 7);
        output.push((((value & 0x7F) << 1) | 1) as u8);
        assert(output@ =~= old(output)@ + s7s_bytes(value as nat));
    }

    /// Appends one continuation byte for each chunk of `chunks`.
    fn write_lead(output: &mut Vec<u8>, chunks: usize)
        ensures
            final(output)@ == old(output)@ + s7s_lead(chunks as nat),
        decreases chunks,
    {
        proof {
            lemma_chunk_bits(chunks);
        }
        if chunks != 0 {
            Self::write_lead(output, chunks >> 7);
            output.push(((chunks & 0x7F) << 1) as u8);
        }
        assert(output@ =~= old(output)@ + s7s_lead(chunks as nat));
    }

    /// Reads one integer from `iter`, starting from the accumulator `acc`.
    ///
    /// With `acc == 0` this is a fresh read.  A caller that has already
    /// taken the first byte of a field hands its bits over as `acc`; an
    /// accumulator whose low bit is set is complete and no byte is taken.
    /// Returns `None` when the bytes run out before a terminator.  Of a
    /// value too great for a word, the low bits are returned.
    pub fn read_with_acc<'a, T>(iter: &mut T, acc: usize) -> (r: Option<usize>) where
        T: Iterator<Item = &'a u8>,

        requires
            (*old(iter)).obeys_prophetic_iter_laws(),
            (*old(iter)).decrease() is Some,
        ensures
            (*final(iter)).obeys_prophetic_iter_laws(),
            (*final(iter)).decrease() is Some,
            r is Some ==> (*final(iter)).decrease()->0 <= (*old(iter)).decrease()->0,
            match s7s_parse((*old(iter)).remaining().unref(), acc as nat) {
                Some((value, rest)) => r == Some(word(value)) && (*final(iter)).remaining().unref()
                    == rest,
                None => r is None && (*final(iter)).remaining().len() == 0,
            },
    {
        let mut value: usize = acc >> 1;
        let mut open: bool = (acc & 1) == 0;
        let ghost mut held: nat = acc as nat;
        proof {
            assert(acc >> 1 == acc / 2 && ((acc & 1) == 0) == (acc % 2 == 0)) by (bit_vector);
            lemma_word_fits(held / 2);
        }
        while open
            invariant
                (*iter).obeys_prophetic_iter_laws(),
                (*iter).decrease() is Some,
                (*iter).decrease()->0 <= (*old(iter)).decrease()->0,
                open == (held % 2 == 0),
                value == word(held / 2),
                s7s_parse((*iter).remaining().unref(), held) == s7s_parse(
                    (*old(iter)).remaining().unref(),
                    acc as nat,
                ),
            decreases (*iter).decrease()->0,
        {
            match next_byte(iter) {
                Some(byte) => {
                    let half = byte >> 1;
                    proof {
                        assert(byte >> 1 == byte / 2 && ((byte & 1) == 0) == (byte % 2 == 0))
                            by (bit_vector);
                        lemma_word_step(held / 2, half as nat);
                        assert((held * 128 + byte as nat) / 2 == (held / 2) * 128 + half as nat);
                        held = held * 128 + byte as nat;
                    }
                    let wide = (value as u128) * 128 + (half as u128);
                    value = (wide % (usize::MAX as u128 + 1)) as usize;
                    open = (byte & 1) == 0;
                },
                None => {
                    assert((*iter).remaining().unref().len() == 0);
                    return None;
                },
            }
        }
        Some(value)
    }

    /// Reads one integer from `iter`; `None` when the bytes run out before a
    /// terminator.  Of a value too great for a word, the low bits are
    /// returned.
    pub fn read<'a, T>(iter: &mut T) -> (r: Option<usize>) where T: Iterator<Item = &'a u8>
        requires
            (*old(iter)).obeys_prophetic_iter_laws(),
            (*old(iter)).decrease() is Some,
        ensures
            (*final(iter)).obeys_prophetic_iter_laws(),
            (*final(iter)).decrease() is Some,
            r is Some ==> (*final(iter)).decrease()->0 <= (*old(iter)).decrease()->0,
            match s7s_parse((*old(iter)).remaining().unref(), 0) {
                Some((value, rest)) => r == Some(word(value)) && (*final(iter)).remaining().unref()
                    == rest,
                None => r is None && (*final(iter)).remaining().len() == 0,
            },
    {
        Self::read_with_acc(iter, 0)
    }
}

} // verus!
