use vstd::prelude::*;

use crate::cursor::ByteCursor;
use crate::errors::DecodeError;
use vstd::string::StringSliceAdditionalSpecFns;

verus! {

/// Reads one byte; `BrokenFileFormat` when the cursor is exhausted.
pub fn next_byte(bytes: &mut ByteCursor) -> (r: Result<u8, DecodeError>)
    requires
        old(bytes).wf(),
    ensures
        final(bytes).wf(),
        match r {
            Ok(b) => old(bytes).remaining().len() > 0
                && b == old(bytes).remaining()[0]
                && final(bytes).remaining() == old(bytes).remaining().skip(1),
            Err(e) => e == DecodeError::BrokenFileFormat
                && old(bytes).remaining().len() == 0
                && final(bytes).remaining() == old(bytes).remaining(),
        },
{
    if let Some(b) = bytes.next() {
        Ok(b)
    } else {
        Err(DecodeError::BrokenFileFormat)
    }
}

/// Big-endian 16-bit read: the first two bytes of `s`, high byte first.
pub open spec fn spec_u16(s: Seq<u8>) -> Option<(u16, Seq<u8>)> {
    if s.len() < 2 {
        None
    } else {
        Some(((((s[0] as u16) << 8) + (s[1] as u16)) as u16, s.skip(2)))
    }
}

/// Big-endian 32-bit read: the first four bytes of `s`, high byte first.
pub open spec fn spec_u32(s: Seq<u8>) -> Option<(u32, Seq<u8>)> {
    if s.len() < 4 {
        None
    } else {
        Some((
            ((((s[0] as u32) << 24) + ((s[1] as u32) << 16) + ((s[2] as u32) << 8)
                + (s[3] as u32)) as u32),
            s.skip(4),
        ))
    }
}

/// Reads two bytes and combines them big-endian.
pub fn next_u16(bytes: &mut ByteCursor) -> (r: Result<u16, DecodeError>)
    requires
        old(bytes).wf(),
    ensures
        final(bytes).wf(),
        match r {
            Ok(v) => spec_u16(old(bytes).remaining()) == Some((v, final(bytes).remaining())),
            Err(e) => e == DecodeError::BrokenFileFormat
                && spec_u16(old(bytes).remaining()) is None
                && final(bytes).remaining() == Seq::<u8>::empty(),
        },
{
    let ghost s0 = bytes.remaining();
    let b0 = match next_byte(bytes) {
        Ok(b) => b,
        Err(e) => {
            proof {
                assert(final(bytes).remaining() =~= Seq::<u8>::empty());
            }
            return Err(e);
        },
    };
    let b1 = match next_byte(bytes) {
        Ok(b) => b,
        Err(e) => {
            proof {
                assert(final(bytes).remaining() =~= Seq::<u8>::empty());
            }
            return Err(e);
        },
    };
    proof {
        assert((b0 as u16) << 8 <= 0xFF00) by (bit_vector);
        assert(s0.skip(1).skip(1) =~= s0.skip(2));
    }
    Ok(((b0 as u16) << 8) + (b1 as u16))
}

/// Reads four bytes and combines them big-endian.
pub fn next_u32(bytes: &mut ByteCursor) -> (r: Result<u32, DecodeError>)
    requires
        old(bytes).wf(),
    ensures
        final(bytes).wf(),
        match r {
            Ok(v) => spec_u32(old(bytes).remaining()) == Some((v, final(bytes).remaining())),
            Err(e) => e == DecodeError::BrokenFileFormat
                && spec_u32(old(bytes).remaining()) is None
                && final(bytes).remaining() == Seq::<u8>::empty(),
        },
{
    let ghost s0 = bytes.remaining();
    let b0 = match next_byte(bytes) {
        Ok(b) => b,
        Err(e) => {
            proof {
                assert(final(bytes).remaining() =~= Seq::<u8>::empty());
            }
            return Err(e);
        },
    };
    let b1 = match next_byte(bytes) {
        Ok(b) => b,
        Err(e) => {
            proof {
                assert(final(bytes).remaining() =~= Seq::<u8>::empty());
            }
            return Err(e);
        },
    };
    let b2 = match next_byte(bytes) {
        Ok(b) => b,
        Err(e) => {
            proof {
                assert(final(bytes).remaining() =~= Seq::<u8>::empty());
            }
            return Err(e);
        },
    };
    let b3 = match next_byte(bytes) {
        Ok(b) => b,
        Err(e) => {
            proof {
                assert(final(bytes).remaining() =~= Seq::<u8>::empty());
            }
            return Err(e);
        },
    };
    proof {
        assert((b0 as u32) << 24 <= 0xFF00_0000) by (bit_vector);
        assert((b1 as u32) << 16 <= 0xFF_0000) by (bit_vector);
        assert((b2 as u32) << 8 <= 0xFF00) by (bit_vector);
        assert(s0.skip(1).skip(1).skip(1).skip(1) =~= s0.skip(4));
    }
    Ok((((b0 as u32) << 24) + ((b1 as u32) << 16) + ((b2 as u32) << 8)) + (b3 as u32))
}

/// Reads four bytes and reports whether they equal the bytes of `header`,
/// consuming them regardless of the outcome (the cursor cannot peek). A
/// `header` that is not exactly four bytes long compares unequal.
pub fn check_header(input: &mut ByteCursor, header: &str) -> (r: Result<bool, DecodeError>)
    requires
        old(input).wf(),
    ensures
        final(input).wf(),
        match r {
            Ok(b) => old(input).remaining().len() >= 4
                && final(input).remaining() == old(input).remaining().skip(4)
                && b == (old(input).remaining().take(4) == header.spec_bytes()),
            Err(e) => e == DecodeError::BrokenFileFormat
                && old(input).remaining().len() < 4
                && final(input).remaining() == Seq::<u8>::empty(),
        },
{
    let ghost s0 = input.remaining();
    let b0 = match next_byte(input) {
        Ok(b) => b,
        Err(e) => {
            proof {
                assert(final(input).remaining() =~= Seq::<u8>::empty());
            }
            return Err(e);
        },
    };
    let b1 = match next_byte(input) {
        Ok(b) => b,
        Err(e) => {
            proof {
                assert(final(input).remaining() =~= Seq::<u8>::empty());
            }
            return Err(e);
        },
    };
    let b2 = match next_byte(input) {
        Ok(b) => b,
        Err(e) => {
            proof {
                assert(final(input).remaining() =~= Seq::<u8>::empty());
            }
            return Err(e);
        },
    };
    let b3 = match next_byte(input) {
        Ok(b) => b,
        Err(e) => {
            proof {
                assert(final(input).remaining() =~= Seq::<u8>::empty());
            }
            return Err(e);
        },
    };
    proof {
        assert(s0.skip(1).skip(1).skip(1).skip(1) =~= s0.skip(4));
    }
    let hb = header.as_bytes();
    if hb.len() != 4 {
        proof {
            assert(s0.take(4) != header.spec_bytes());
        }
        return Ok(false);
    }
    let matches = b0 == hb[0] && b1 == hb[1] && b2 == hb[2] && b3 == hb[3];
    proof {
        assert(forall|i: int| 0 <= i < 4 ==> s0.take(4)[i] == s0[i]);
        if matches {
            assert(s0.take(4) =~= header.spec_bytes());
        }
    }
    Ok(matches)
}

/// Relies on `String::push`: appends exactly one character to the string.
#[verifier::external_body]
fn push_char(s: &mut String, c: char)
    ensures
        final(s)@ == old(s)@.push(c),
{
    s.push(c);
}

/// Reads four bytes and returns them as a four-character string, each byte
/// taken as one character code; printability is not checked.
pub fn read_header(input: &mut ByteCursor) -> (r: Result<String, DecodeError>)
    requires
        old(input).wf(),
    ensures
        final(input).wf(),
        match r {
            Ok(st) => old(input).remaining().len() >= 4
                && final(input).remaining() == old(input).remaining().skip(4)
                && st@.len() == 4
                && (forall|i: int| 0 <= i < 4 ==> st@[i] == old(input).remaining()[i] as char),
            Err(e) => e == DecodeError::BrokenFileFormat
                && old(input).remaining().len() < 4
                && final(input).remaining() == Seq::<u8>::empty(),
        },
{
    let ghost s0 = input.remaining();
    let mut st = String::new();
    let mut i: usize = 0;
    #[verifier::loop_isolation(false)]
    while i < 4
        invariant
            input.wf(),
            i <= 4,
            i <= s0.len(),
            input.remaining() == s0.skip(i as int),
            st@.len() == i,
            forall|j: int| 0 <= j < i ==> st@[j] == s0[j] as char,
        decreases 4 - i,
    {
        let b = match next_byte(input) {
            Ok(b) => b,
            Err(e) => {
                proof {
                    assert(final(input).remaining() =~= Seq::<u8>::empty());
                }
                return Err(e);
            },
        };
        push_char(&mut st, b as char);
        i = i + 1;
        proof {
            assert(input.remaining() =~= s0.skip(i as int));
        }
    }
    Ok(st)
}

/// Whether `b` carries the continuation (high) bit of a variable-length
/// quantity, meaning more bytes follow.
pub open spec fn has_cont_bit(b: u8) -> bool {
    (b >> 7) & 1 == 1
}

/// One accumulation step of variable-length-quantity decoding: shift the
/// accumulator left by seven bits and add the low seven bits of `b`,
/// wrapping as `u32` (the shift discards any bits above the 32nd, exactly as
/// the executable decoder does).
pub open spec fn varlen_step(acc: u32, b: u8) -> u32 {
    ((acc << 7) + ((b & 0x7F) as u32)) as u32
}

/// Decodes a variable-length quantity from the front of `s` onto the
/// accumulator `acc`: each byte contributes its low seven bits, big-endian,
/// until a byte with a clear high bit ends the quantity. `None` when `s` is
/// exhausted first.
pub open spec fn spec_varlen_rec(s: Seq<u8>, acc: u32) -> Option<(u32, Seq<u8>)>
    decreases s.len(),
{
    if s.len() == 0 {
        None
    } else if has_cont_bit(s[0]) {
        spec_varlen_rec(s.skip(1), varlen_step(acc, s[0]))
    } else {
        Some((varlen_step(acc, s[0]), s.skip(1)))
    }
}

/// Decodes a variable-length quantity from the front of `s`.
pub open spec fn spec_varlen(s: Seq<u8>) -> Option<(u32, Seq<u8>)> {
    spec_varlen_rec(s, 0)
}

/// A successful variable-length decode consumes at least one byte, and
/// leaves exactly the suffix of `s` past the consumed bytes.
pub proof fn lemma_varlen_suffix(s: Seq<u8>, acc: u32)
    ensures
        spec_varlen_rec(s, acc) matches Some((v, r)) ==> r.len() < s.len() && r == s.skip(
            s.len() - r.len(),
        ),
    decreases s.len(),
{
    if s.len() > 0 && has_cont_bit(s[0]) {
        lemma_varlen_suffix(s.skip(1), varlen_step(acc, s[0]));
        if let Some((v, r)) = spec_varlen_rec(s, acc) {
            assert(s.skip(1).skip(s.skip(1).len() - r.len()) =~= s.skip(s.len() - r.len()));
        }
    }
}

/// A variable-length decode reads only the bytes it consumes: appending `t`
/// leaves a successful decode unchanged, except that `t` trails the rest.
pub proof fn lemma_varlen_extend(s: Seq<u8>, acc: u32, t: Seq<u8>)
    ensures
        spec_varlen_rec(s, acc) matches Some((v, r)) ==> spec_varlen_rec(s + t, acc) == Some(
            (v, r + t),
        ),
    decreases s.len(),
{
    if s.len() > 0 {
        assert((s + t)[0] == s[0]);
        assert((s + t).skip(1) =~= s.skip(1) + t);
        if has_cont_bit(s[0]) {
            lemma_varlen_extend(s.skip(1), varlen_step(acc, s[0]), t);
        }
    }
}

/// Law: truncation of a variable-length quantity. Any strict prefix of the
/// bytes a successful decode consumed fails to decode; in particular,
/// deleting the final byte of a complete encoding makes decoding fail.
pub proof fn lemma_varlen_truncate(s: Seq<u8>, acc: u32, j: int)
    ensures
        spec_varlen_rec(s, acc) matches Some((v, r)) && 0 <= j < s.len() - r.len()
            ==> spec_varlen_rec(s.take(j), acc) is None,
{
    if let Some((v, r)) = spec_varlen_rec(s, acc) {
        if 0 <= j < s.len() - r.len() {
            match spec_varlen_rec(s.take(j), acc) {
                Some((v2, r2)) => {
                    lemma_varlen_extend(s.take(j), acc, s.skip(j));
                    assert(s.take(j) + s.skip(j) =~= s);
                    assert((r2 + s.skip(j)).len() == r2.len() + s.len() - j);
                    assert(false);
                },
                None => {},
            }
        }
    }
}

/// A successful variable-length decode is determined by the consumed prefix
/// alone: run on exactly those bytes, it yields the same value and nothing
/// left over.
pub proof fn lemma_varlen_local(s: Seq<u8>, acc: u32)
    ensures
        spec_varlen_rec(s, acc) matches Some((v, r)) ==> spec_varlen_rec(
            s.take(s.len() - r.len()),
            acc,
        ) == Some((v, Seq::<u8>::empty())),
    decreases s.len(),
{
    if s.len() > 0 {
        if has_cont_bit(s[0]) {
            if let Some((v, r)) = spec_varlen_rec(s, acc) {
                lemma_varlen_suffix(s, acc);
                lemma_varlen_local(s.skip(1), varlen_step(acc, s[0]));
                let k = s.len() - r.len();
                assert(s.take(k)[0] == s[0]);
                assert(s.take(k).skip(1) =~= s.skip(1).take(s.skip(1).len() - r.len()));
            }
        } else {
            assert(s.take(1)[0] == s[0]);
            assert(s.take(1).skip(1) =~= Seq::<u8>::empty());
        }
    }
}

/// The continuation bytes of the big-endian base-128 encoding of `m`: the
/// seven-bit groups of `m` above the lowest, each with its high bit set.
pub open spec fn spec_varlen_cont(m: u32) -> Seq<u8>
    decreases m,
{
    if m == 0 {
        Seq::empty()
    } else {
        spec_varlen_cont(m / 128) + seq![(m % 128 + 128) as u8]
    }
}

/// The complete variable-length encoding of `n`: the continuation bytes of
/// its upper seven-bit groups, then its low seven bits with a clear high bit.
pub open spec fn spec_varlen_encode(n: u32) -> Seq<u8> {
    spec_varlen_cont(n / 128) + seq![(n % 128) as u8]
}

/// Decoding the continuation bytes of `m` (below 2^25, so that no shift
/// truncates) folds exactly `m` onto a zero accumulator and continues with
/// whatever follows.
proof fn lemma_varlen_cont_decode(m: u32, rest: Seq<u8>)
    requires
        m < 0x200_0000,
    ensures
        spec_varlen_rec(spec_varlen_cont(m) + rest, 0) == spec_varlen_rec(rest, m),
    decreases m,
{
    if m == 0 {
        assert(spec_varlen_cont(0) + rest =~= rest);
    } else {
        let lo = m % 128;
        let hi = m / 128;
        let b: u8 = (lo + 128) as u8;
        vstd::arithmetic::div_mod::lemma_fundamental_div_mod(m as int, 128);
        lemma_varlen_cont_decode(hi, seq![b] + rest);
        assert(spec_varlen_cont(m) + rest =~= spec_varlen_cont(hi) + (seq![b] + rest));
        assert((seq![b] + rest)[0] == b);
        assert((seq![b] + rest).skip(1) =~= rest);
        assert(has_cont_bit(b) && (b & 0x7F) == b - 128) by (bit_vector)
            requires
                128 <= b,
        ;
        assert(hi << 7 == hi * 128) by (bit_vector)
            requires
                hi < 0x4_0000u32,
        ;
        assert(varlen_step(hi, b) == m);
    }
}

/// Law: variable-length round trip. For every value representable in at
/// most 28 bits, decoding its encoding yields the value back with nothing
/// left over.
pub proof fn lemma_varlen_round_trip(n: u32)
    requires
        n < 0x1000_0000,
    ensures
        spec_varlen(spec_varlen_encode(n)) == Some((n, Seq::<u8>::empty())),
{
    let last: u8 = (n % 128) as u8;
    vstd::arithmetic::div_mod::lemma_fundamental_div_mod(n as int, 128);
    lemma_varlen_cont_decode(n / 128, seq![last]);
    assert((seq![last])[0] == last);
    assert((seq![last]).skip(1) =~= Seq::<u8>::empty());
    assert(!has_cont_bit(last) && (last & 0x7F) == last) by (bit_vector)
        requires
            last < 128,
    ;
    assert((n / 128) << 7 == (n / 128) * 128) by (bit_vector)
        requires
            n / 128 < 0x20_0000u32,
    ;
    assert(varlen_step(n / 128, last) == n);
}

/// Reads a variable-length quantity, distinguishing a cleanly exhausted
/// cursor before the first byte (`Ok(None)`, the track-exhaustion signal)
/// from an end of input in the middle of the quantity (`BrokenFileFormat`).
#[verifier::loop_isolation(false)]
pub fn try_read_varlen(input: &mut ByteCursor) -> (r: Result<Option<u32>, DecodeError>)
    requires
        old(input).wf(),
    ensures
        final(input).wf(),
        match r {
            Ok(Some(v)) => spec_varlen(old(input).remaining()) == Some((
                v,
                final(input).remaining(),
            )),
            Ok(None) => old(input).remaining().len() == 0
                && final(input).remaining() == old(input).remaining(),
            Err(e) => e == DecodeError::BrokenFileFormat
                && old(input).remaining().len() > 0
                && spec_varlen(old(input).remaining()) is None
                && final(input).remaining() == Seq::<u8>::empty(),
        },
{
    let ghost s0 = input.remaining();
    let mut data: u32 = 0;
    let first_byte = input.next();
    if first_byte.is_none() {
        return Ok(None);
    }
    let mut cur_byte = first_byte.unwrap();
    proof {
        assert(seq![cur_byte] + input.remaining() =~= s0);
    }
    // check the most significant bit to see if there are more bytes to read
    while (cur_byte >> 7) & 1 == 1
        invariant
            input.wf(),
            spec_varlen_rec(s0, 0) == spec_varlen_rec(seq![cur_byte] + input.remaining(), data),
        decreases input.remaining().len(),
    {
        proof {
            let b = cur_byte;
            let d = data;
            assert((d << 7) <= 0xFFFF_FF80u32 && (b & 0x7F) <= 0x7F) by (bit_vector);
            assert((seq![cur_byte] + input.remaining())[0] == cur_byte);
            assert((seq![cur_byte] + input.remaining()).skip(1) =~= input.remaining());
        }
        // append the seven least significant bits
        data = (data << 7) + ((cur_byte & 0x7F) as u32);
        let ghost rem_prev = input.remaining();
        cur_byte = match next_byte(input) {
            Ok(b) => b,
            Err(e) => {
                proof {
                    assert(spec_varlen_rec(rem_prev, data) is None);
                    assert(spec_varlen_rec(s0, 0) is None);
                    assert(final(input).remaining() =~= Seq::<u8>::empty());
                }
                return Err(e);
            },
        };
        proof {
            assert(seq![cur_byte] + input.remaining() =~= rem_prev);
        }
    }
    proof {
        let b = cur_byte;
        let d = data;
        assert(!has_cont_bit(b) ==> ((b & 0x7F) == b && b < 0x80)) by (bit_vector);
        assert((d << 7) <= 0xFFFF_FF80u32) by (bit_vector);
        assert((seq![cur_byte] + input.remaining())[0] == cur_byte);
        assert((seq![cur_byte] + input.remaining()).skip(1) =~= input.remaining());
    }
    data = (data << 7) + (cur_byte as u32);
    Ok(Some(data))
}

/// Reads a variable-length quantity; an exhausted cursor is an error here.
pub fn read_varlen(input: &mut ByteCursor) -> (r: Result<u32, DecodeError>)
    requires
        old(input).wf(),
    ensures
        final(input).wf(),
        match r {
            Ok(v) => spec_varlen(old(input).remaining()) == Some((v, final(input).remaining())),
            Err(e) => e == DecodeError::BrokenFileFormat
                && spec_varlen(old(input).remaining()) is None,
        },
{
    match try_read_varlen(input) {
        Ok(Some(v)) => Ok(v),
        Ok(None) => Err(DecodeError::BrokenFileFormat),
        Err(e) => Err(e),
    }
}

} // verus!
