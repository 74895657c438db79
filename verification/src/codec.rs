//! Primitive pieces of the deterministic binary wire format: big-endian
//! fixed-width integers, canonical base-128 variable-length integers, and raw
//! byte arrays. Every reader is exact: it accepts a prefix of the buffer if
//! and only if that prefix is the encoding of the returned value.

use vstd::prelude::*;
use vstd::arithmetic::power2::*;

verus! {

/// Decode failure. `InvalidEnum` carries the unknown tag byte and
/// `InvalidLength` the out-of-range length that was decoded.
#[derive(Clone, Copy, Debug, PartialEq, Eq, Structural)]
pub enum CodecError {
    EndOfBuffer,
    InvalidVarint,
    InvalidEnum(u8),
    InvalidLength(usize),
}

/// Big-endian encoding of a `u64` in exactly eight bytes.
pub open spec fn enc_u64(v: u64) -> Seq<u8> {
    seq![
        (v >> 56) as u8,
        (v >> 48) as u8,
        (v >> 40) as u8,
        (v >> 32) as u8,
        (v >> 24) as u8,
        (v >> 16) as u8,
        (v >> 8) as u8,
        v as u8,
    ]
}

/// Append the eight big-endian bytes of `v`.
pub fn write_u64(out: &mut Vec<u8>, v: u64)
    ensures
        final(out)@ == old(out)@ + enc_u64(v),
{
    out.push((v >> 56) as u8);
    out.push((v >> 48) as u8);
    out.push((v >> 40) as u8);
    out.push((v >> 32) as u8);
    out.push((v >> 24) as u8);
    out.push((v >> 16) as u8);
    out.push((v >> 8) as u8);
    out.push(v as u8);
    proof {
        assert(out@ =~= old(out)@ + enc_u64(v));
    }
}

/// Read a big-endian `u64`. Succeeds exactly when eight bytes remain.
pub fn read_u64(buf: &Vec<u8>, pos: usize) -> (r: Result<(u64, usize), CodecError>)
    ensures
        match r {
            Ok((v, end)) => {
                &&& pos + 8 <= buf@.len()
                &&& end == pos + 8
                &&& buf@.subrange(pos as int, pos + 8) == enc_u64(v)
            },
            Err(e) => e == CodecError::EndOfBuffer && pos + 8 > buf@.len(),
        },
{
    if buf.len() < 8 || pos > buf.len() - 8 {
        return Err(CodecError::EndOfBuffer);
    }
    let b0 = buf[pos];
    let b1 = buf[pos + 1];
    let b2 = buf[pos + 2];
    let b3 = buf[pos + 3];
    let b4 = buf[pos + 4];
    let b5 = buf[pos + 5];
    let b6 = buf[pos + 6];
    let b7 = buf[pos + 7];
    let v: u64 = ((b0 as u64) << 56) | ((b1 as u64) << 48) | ((b2 as u64) << 40)
        | ((b3 as u64) << 32) | ((b4 as u64) << 24) | ((b5 as u64) << 16) | ((b6 as u64) << 8)
        | (b7 as u64);
    proof {
        lemma_u64_bytes_roundtrip(b0, b1, b2, b3, b4, b5, b6, b7);
        assert(buf@.subrange(pos as int, pos + 8) =~= enc_u64(v));
    }
    Ok((v, pos + 8))
}

proof fn lemma_u64_bytes_roundtrip(b0: u8, b1: u8, b2: u8, b3: u8, b4: u8, b5: u8, b6: u8, b7: u8)
    ensures
        ({
            let v: u64 = ((b0 as u64) << 56) | ((b1 as u64) << 48) | ((b2 as u64) << 40)
                | ((b3 as u64) << 32) | ((b4 as u64) << 24) | ((b5 as u64) << 16)
                | ((b6 as u64) << 8) | (b7 as u64);
            &&& (v >> 56) as u8 == b0
            &&& (v >> 48) as u8 == b1
            &&& (v >> 40) as u8 == b2
            &&& (v >> 32) as u8 == b3
            &&& (v >> 24) as u8 == b4
            &&& (v >> 16) as u8 == b5
            &&& (v >> 8) as u8 == b6
            &&& v as u8 == b7
        }),
{
    assert({
        let v: u64 = ((b0 as u64) << 56) | ((b1 as u64) << 48) | ((b2 as u64) << 40)
            | ((b3 as u64) << 32) | ((b4 as u64) << 24) | ((b5 as u64) << 16) | ((b6 as u64) << 8)
            | (b7 as u64);
        &&& (v >> 56) as u8 == b0
        &&& (v >> 48) as u8 == b1
        &&& (v >> 40) as u8 == b2
        &&& (v >> 32) as u8 == b3
        &&& (v >> 24) as u8 == b4
        &&& (v >> 16) as u8 == b5
        &&& (v >> 8) as u8 == b6
        &&& v as u8 == b7
    }) by (bit_vector);
}

/// Canonical base-128 variable-length encoding: seven value bits per byte,
/// least-significant group first, the high bit of a byte set exactly when
/// more bytes follow. Every value has exactly one encoding.
pub open spec fn enc_varint(v: u64) -> Seq<u8>
    decreases v,
{
    if v < 128 {
        seq![v as u8]
    } else {
        seq![(v % 128 + 128) as u8] + enc_varint(v / 128)
    }
}

/// Append the canonical varint encoding of `v`.
pub fn write_varint(out: &mut Vec<u8>, v: u64)
    ensures
        final(out)@ == old(out)@ + enc_varint(v),
{
    let mut x = v;
    while x >= 128
        invariant
            out@ + enc_varint(x) == old(out)@ + enc_varint(v),
        decreases x,
    {
        let b: u8 = (x % 128 + 128) as u8;
        let ghost pre = out@;
        out.push(b);
        x = x / 128;
        proof {
            assert(out@ + enc_varint(x) =~= pre + (seq![b] + enc_varint(x)));
        }
    }
    let ghost pre = out@;
    out.push(x as u8);
    proof {
        assert(out@ =~= pre + enc_varint(x));
    }
}

/// The exact decoding relation for a canonical varint bounded to `max_bits`
/// value bits, mirrored byte for byte by the executable readers: a zero byte
/// may only come first, and in the final byte-position no bit may lie beyond
/// `max_bits`. `bits` counts the value bits consumed so far and `acc` their
/// accumulated value.
pub open spec fn dec_varint(s: Seq<u8>, pos: int, bits: nat, acc: int, max_bits: nat) -> Result<
    (int, int),
    CodecError,
>
    decreases max_bits - bits,
{
    if pos < 0 || pos >= s.len() {
        Err(CodecError::EndOfBuffer)
    } else {
        let b = s[pos];
        if b == 0 && bits > 0 {
            Err(CodecError::InvalidVarint)
        } else if max_bits - bits <= 7 && b as int >= pow2((max_bits - bits) as nat) {
            Err(CodecError::InvalidVarint)
        } else {
            let acc2 = acc + (b as int % 128) * pow2(bits);
            if b < 128 {
                Ok((acc2, pos + 1))
            } else if max_bits - bits <= 7 {
                // unreachable: a continuation byte has its top bit beyond any
                // seven-bit remainder, so the bound check above already failed
                Err(CodecError::InvalidVarint)
            } else {
                dec_varint(s, pos + 1, bits + 7, acc2, max_bits)
            }
        }
    }
}

/// `v` is canonically varint-encoded at `pos` in `s`.
pub open spec fn varint_at(s: Seq<u8>, pos: int, v: u64) -> bool {
    &&& 0 <= pos
    &&& pos + enc_varint(v).len() <= s.len()
    &&& s.subrange(pos, pos + enc_varint(v).len()) == enc_varint(v)
}

/// Decoding is inverse to encoding: wherever the canonical encoding of `v`
/// sits, the decoder returns exactly `v` and stops right after it.
pub proof fn lemma_varint_roundtrip(s: Seq<u8>, pos: int, v: u64)
    requires
        varint_at(s, pos, v),
    ensures
        dec_varint(s, pos, 0, 0, 64) == Ok::<(int, int), CodecError>(
            (v as int, pos + enc_varint(v).len()),
        ),
{
    lemma2_to64();
    lemma2_to64_rest();
    lemma_varint_dec_general(s, pos, v as int, 0, 0, 64);
}

proof fn lemma_varint_dec_general(s: Seq<u8>, pos: int, v: int, bits: nat, acc: int, max_bits: nat)
    requires
        0 <= v,
        bits > 0 ==> v >= 1,
        bits + 8 <= max_bits || (bits < max_bits && v < pow2((max_bits - bits) as nat)),
        v < pow2((max_bits - bits) as nat),
        bits <= max_bits,
        0 <= pos,
        pos + enc_varint(v as u64).len() <= s.len(),
        s.subrange(pos, pos + enc_varint(v as u64).len()) == enc_varint(v as u64),
        v <= u64::MAX,
    ensures
        dec_varint(s, pos, bits, acc, max_bits) == Ok::<(int, int), CodecError>(
            (acc + v * pow2(bits), pos + enc_varint(v as u64).len()),
        ),
    decreases v,
{
    let e = enc_varint(v as u64);
    let b = s[pos];
    assert(b == e[0]);
    lemma_pow2_pos(bits);
    lemma_pow2_pos((max_bits - bits) as nat);
    if v < 128 {
        assert(e == seq![v as u8]);
        assert(b == v as u8);
        // the bound check passes: v < pow2(max_bits - bits)
        if max_bits - bits <= 7 {
            assert(b as int == v);
            assert(!(b as int >= pow2((max_bits - bits) as nat)));
        } else {
            lemma_pow2_strictly_increases(7, (max_bits - bits) as nat);
            assert(!(max_bits - bits <= 7));
        }
        assert(b as int % 128 == v);
        assert(dec_varint(s, pos, bits, acc, max_bits) == Ok::<(int, int), CodecError>(
            (acc + v * pow2(bits), pos + 1),
        ));
    } else {
        let v2 = v / 128;
        assert(e == seq![(v % 128 + 128) as u8] + enc_varint(v2 as u64));
        assert(b as int == v % 128 + 128);
        assert(b >= 128);
        // a continuation byte needs more than seven remaining bits
        if max_bits - bits <= 7 {
            lemma2_to64();
            if max_bits - bits < 7 {
                lemma_pow2_strictly_increases((max_bits - bits) as nat, 7);
            }
            assert(v < pow2((max_bits - bits) as nat));
            assert(false);
        }
        assert(max_bits - bits > 7);
        lemma_pow2_strictly_increases(7, (max_bits - bits) as nat);
        assert(b as int >= pow2((max_bits - bits) as nat) ==> false) by {
            if b as int >= pow2((max_bits - bits) as nat) {
                assert(b as int <= 255);
                lemma_pow2_strictly_increases(8, (max_bits - bits) as nat);
                assert(pow2(8) == 256) by { lemma2_to64(); };
            }
        };
        let acc2 = acc + (b as int % 128) * pow2(bits);
        // the tail encoding sits right after the head byte
        assert(s.subrange(pos + 1, pos + 1 + enc_varint(v2 as u64).len()) =~= enc_varint(
            v2 as u64,
        )) by {
            assert(forall|i: int|
                0 <= i < enc_varint(v2 as u64).len() ==> #[trigger] s.subrange(
                    pos + 1,
                    pos + 1 + enc_varint(v2 as u64).len(),
                )[i] == e[i + 1]);
        };
        // v2 fits in the remaining bits after consuming seven
        assert(v2 < pow2((max_bits - (bits + 7)) as nat)) by {
            lemma_pow2_adds((max_bits - bits - 7) as nat, 7);
            assert(pow2(7) == 128) by { lemma2_to64(); };
            assert(v < pow2((max_bits - bits) as nat));
            assert(pow2((max_bits - bits) as nat) == pow2((max_bits - bits - 7) as nat) * 128);
            assert(v / 128 < pow2((max_bits - bits - 7) as nat)) by (nonlinear_arith)
                requires
                    v < pow2((max_bits - bits - 7) as nat) * 128,
                    0 <= v,
                    pow2((max_bits - bits - 7) as nat) > 0,
            ;
        };
        lemma_varint_dec_general(s, pos + 1, v2, bits + 7, acc2, max_bits);
        // recompose: acc2 + v2 * pow2(bits + 7) == acc + v * pow2(bits)
        assert(acc2 + v2 * pow2((bits + 7) as nat) == acc + v * pow2(bits)) by {
            lemma_pow2_adds(bits, 7);
            assert(pow2(7) == 128) by { lemma2_to64(); };
            assert(pow2((bits + 7) as nat) == pow2(bits) * 128);
            assert((v % 128) * pow2(bits) + (v / 128) * (pow2(bits) * 128) == v * pow2(bits))
                by (nonlinear_arith)
                requires
                    0 <= v,
                    pow2(bits) > 0,
            ;
        };
    }
}

/// A failed varint decode is a truncation or a malformed byte, never any
/// other kind of error.
pub proof fn lemma_dec_varint_err_kind(s: Seq<u8>, pos: int, bits: nat, acc: int, max_bits: nat)
    ensures
        dec_varint(s, pos, bits, acc, max_bits) is Err ==> {
            ||| dec_varint(s, pos, bits, acc, max_bits) == Err::<(int, int), CodecError>(
                CodecError::EndOfBuffer,
            )
            ||| dec_varint(s, pos, bits, acc, max_bits) == Err::<(int, int), CodecError>(
                CodecError::InvalidVarint,
            )
        },
    decreases max_bits - bits,
{
    if 0 <= pos < s.len() {
        let b = s[pos];
        if b == 0 && bits > 0 {
        } else if max_bits - bits <= 7 && b as int >= pow2((max_bits - bits) as nat) {
        } else if b < 128 {
        } else if max_bits - bits <= 7 {
        } else {
            lemma_dec_varint_err_kind(s, pos + 1, bits + 7, acc + (b as int % 128) * pow2(bits), max_bits);
        }
    }
}

/// Encoding is inverse to decoding: whatever the decoder accepts is the
/// canonical encoding of the value it returns.
pub proof fn lemma_varint_complete(s: Seq<u8>, pos: int, max_bits: nat, v: int, end: int)
    requires
        dec_varint(s, pos, 0, 0, max_bits) == Ok::<(int, int), CodecError>((v, end)),
        max_bits == 32 || max_bits == 64,
    ensures
        0 <= v <= u64::MAX,
        pos + enc_varint(v as u64).len() <= s.len(),
        end == pos + enc_varint(v as u64).len(),
        s.subrange(pos, pos + enc_varint(v as u64).len()) == enc_varint(v as u64),
{
    lemma2_to64();
    lemma2_to64_rest();
    let dval = lemma_varint_complete_general(s, pos, 0, 0, max_bits);
    assert(v == 0 + dval * pow2(0));
}

proof fn lemma_varint_complete_general(s: Seq<u8>, pos: int, bits: nat, acc: int, max_bits: nat)
    -> (dval: int)
    requires
        dec_varint(s, pos, bits, acc, max_bits) is Ok,
        bits <= max_bits,
        max_bits <= 64,
    ensures
        ({
            let (w, end) = dec_varint(s, pos, bits, acc, max_bits)->Ok_0;
            &&& 0 <= dval < pow2((max_bits - bits) as nat)
            &&& bits > 0 ==> dval >= 1
            &&& w == acc + dval * pow2(bits)
            &&& 0 <= pos
            &&& pos + enc_varint(dval as u64).len() <= s.len()
            &&& end == pos + enc_varint(dval as u64).len()
            &&& s.subrange(pos, pos + enc_varint(dval as u64).len()) == enc_varint(dval as u64)
        }),
    decreases max_bits - bits,
{
    lemma2_to64();
    lemma2_to64_rest();
    lemma_pow2_pos(bits);
    lemma_pow2_pos((max_bits - bits) as nat);
    let b = s[pos];
    if b < 128 {
        let dval: int = b as int;
        if max_bits - bits > 7 {
            lemma_pow2_strictly_increases(7, (max_bits - bits) as nat);
        }
        assert(dval < pow2((max_bits - bits) as nat));
        assert(enc_varint(dval as u64) == seq![b]);
        assert(s.subrange(pos, pos + 1) =~= seq![b]);
        assert((b as int % 128) == dval);
        dval
    } else {
        assert(max_bits - bits > 7) by {
            if max_bits - bits <= 7 {
                if max_bits - bits < 7 {
                    lemma_pow2_strictly_increases((max_bits - bits) as nat, 7);
                }
            }
        };
        let acc2 = acc + (b as int % 128) * pow2(bits);
        let d2 = lemma_varint_complete_general(s, pos + 1, bits + 7, acc2, max_bits);
        let dval: int = (b as int % 128) + 128 * d2;
        assert(d2 >= 1);
        assert(dval >= 128);
        // the value splits into the head byte and the tail
        assert(dval % 128 == b as int % 128 && dval / 128 == d2) by (nonlinear_arith)
            requires
                dval == (b as int % 128) + 128 * d2,
                0 <= b as int % 128 < 128,
                d2 >= 0,
        ;
        assert(dval as u64 % 128 == (b % 128) as u64);
        assert(enc_varint(dval as u64) == seq![(dval as u64 % 128 + 128) as u8] + enc_varint(
            (dval as u64 / 128) as u64,
        )) by {
            assert(dval < pow2((max_bits - bits) as nat));
            assert(pow2((max_bits - bits) as nat) <= pow2(64)) by {
                if max_bits - bits < 64 {
                    lemma_pow2_strictly_increases((max_bits - bits) as nat, 64);
                }
            };
        };
        assert((dval as u64 % 128 + 128) as u8 == b) by {
            assert(b as int % 128 + 128 == b as int);
        };
        assert((dval as u64 / 128) as u64 == d2 as u64);
        assert(s.subrange(pos, pos + enc_varint(dval as u64).len()) =~= enc_varint(dval as u64))
            by {
            assert(forall|j: int|
                0 <= j < enc_varint(d2 as u64).len() ==> #[trigger] s.subrange(
                    pos + 1,
                    pos + 1 + enc_varint(d2 as u64).len(),
                )[j] == s[pos + 1 + j]);
        };
        assert(acc2 + d2 * pow2((bits + 7) as nat) == acc + dval * pow2(bits)) by {
            lemma_pow2_adds(bits, 7);
            assert((b as int % 128) * pow2(bits) + d2 * (pow2(bits) * 128) == ((b as int % 128)
                + 128 * d2) * pow2(bits)) by (nonlinear_arith);
        };
        assert(dval < pow2((max_bits - bits) as nat)) by {
            lemma_pow2_adds((max_bits - bits - 7) as nat, 7);
            assert(dval <= 127 + 128 * (pow2((max_bits - bits - 7) as nat) - 1))
                by (nonlinear_arith)
                requires
                    dval == (b as int % 128) + 128 * d2,
                    b as int % 128 <= 127,
                    d2 <= pow2((max_bits - bits - 7) as nat) - 1,
            ;
        };
        dval
    }
}

/// Two raised to a small exponent.
fn pow2_small(e: u64) -> (r: u64)
    requires
        e <= 7,
    ensures
        r as int == pow2(e as nat),
        r <= 128,
{
    let mut r: u64 = 1;
    let mut i: u64 = 0;
    proof {
        lemma2_to64();
    }
    while i < e
        invariant
            i <= e <= 7,
            r as int == pow2(i as nat),
            r <= 128,
        decreases e - i,
    {
        proof {
            lemma_pow2_adds(i as nat, 1);
            lemma2_to64();
        }
        r = r * 2;
        i = i + 1;
    }
    r
}

/// Read a canonical varint of at most `max_bits` value bits, mirroring
/// `dec_varint` step by step.
fn read_varint_bounded(buf: &Vec<u8>, pos: usize, max_bits: u64) -> (r: Result<
    (u64, usize),
    CodecError,
>)
    requires
        max_bits == 32 || max_bits == 64,
    ensures
        match r {
            Ok((v, end)) => dec_varint(buf@, pos as int, 0, 0, max_bits as nat) == Ok::<
                (int, int),
                CodecError,
            >((v as int, end as int)) && pos < end <= buf@.len(),
            Err(e) => dec_varint(buf@, pos as int, 0, 0, max_bits as nat) == Err::<
                (int, int),
                CodecError,
            >(e),
        },
{
    if pos >= buf.len() {
        return Err(CodecError::EndOfBuffer);
    }
    let mut p = pos;
    let mut bits: u64 = 0;
    let mut mult: u64 = 1;
    let mut acc: u64 = 0;
    proof {
        lemma2_to64();
    }
    loop
        invariant
            max_bits == 32 || max_bits == 64,
            pos <= p,
            bits <= max_bits,
            mult as int == pow2(bits as nat),
            acc < mult,
            p <= buf@.len(),
            dec_varint(buf@, pos as int, 0, 0, max_bits as nat) == dec_varint(
                buf@,
                p as int,
                bits as nat,
                acc as int,
                max_bits as nat,
            ),
        decreases buf@.len() - p,
    {
        if p >= buf.len() {
            return Err(CodecError::EndOfBuffer);
        }
        let b = buf[p];
        if b == 0 && bits > 0 {
            return Err(CodecError::InvalidVarint);
        }
        let remaining = max_bits - bits;
        if remaining <= 7 {
            let limit = pow2_small(remaining);
            if (b as u64) >= limit {
                return Err(CodecError::InvalidVarint);
            }
        }
        let data = (b % 128) as u64;
        proof {
            // the new accumulator stays below pow2(max_bits), so it fits
            lemma_pow2_pos(bits as nat);
            if remaining <= 7 {
                lemma_pow2_adds(bits as nat, remaining as nat);
                lemma2_to64();
                assert(b < 128);
                assert(data as int == b as int);
                assert(data as int <= pow2(remaining as nat) - 1);
                assert(data * mult <= (pow2(remaining as nat) - 1) * pow2(bits as nat))
                    by (nonlinear_arith)
                    requires
                        data as int <= pow2(remaining as nat) - 1,
                        mult as int == pow2(bits as nat),
                        pow2(bits as nat) > 0,
                        pow2(remaining as nat) >= 1,
                ;
                assert((pow2(remaining as nat) - 1) * pow2(bits as nat) + pow2(bits as nat) == pow2(
                    bits as nat,
                ) * pow2(remaining as nat)) by (nonlinear_arith);
                if max_bits == 32 {
                    lemma2_to64();
                } else {
                    lemma2_to64_rest();
                }
                assert(acc + data * mult < pow2(bits as nat) * pow2(remaining as nat));
                assert(pow2(bits as nat) * pow2(remaining as nat) == pow2(max_bits as nat));
                assert(acc + data * mult < pow2(max_bits as nat));
            } else {
                lemma_pow2_adds(bits as nat, 7);
                lemma2_to64();
                assert(data * mult <= 127 * pow2(bits as nat)) by (nonlinear_arith)
                    requires
                        data as int <= 127,
                        mult as int == pow2(bits as nat),
                        pow2(bits as nat) > 0,
                ;
                assert(pow2((bits + 7) as nat) == 128 * pow2(bits as nat));
                assert(acc + data * mult < pow2((bits + 7) as nat));
                if bits + 7 < max_bits {
                    lemma_pow2_strictly_increases((bits + 7) as nat, max_bits as nat);
                }
                assert(pow2((bits + 7) as nat) <= pow2(max_bits as nat));
                if max_bits == 32 {
                    lemma2_to64();
                } else {
                    lemma2_to64_rest();
                }
                assert(acc + data * mult < pow2(max_bits as nat));
            }
        }
        let acc2 = acc + data * mult;
        if b < 128 {
            return Ok((acc2, p + 1));
        }
        // a continuation byte forces more than seven remaining bits
        proof {
            if remaining <= 7 {
                lemma2_to64();
                if remaining < 7 {
                    lemma_pow2_strictly_increases(remaining as nat, 7);
                }
                assert(false);
            }
            lemma_pow2_adds(bits as nat, 7);
            lemma2_to64();
        }
        acc = acc2;
        p = p + 1;
        bits = bits + 7;
        mult = mult * 128;
    }
}

/// Read a canonical varint holding up to 64 value bits.
pub fn read_varint_u64(buf: &Vec<u8>, pos: usize) -> (r: Result<(u64, usize), CodecError>)
    ensures
        match r {
            Ok((v, end)) => dec_varint(buf@, pos as int, 0, 0, 64) == Ok::<(int, int), CodecError>(
                (v as int, end as int),
            ) && pos < end <= buf@.len(),
            Err(e) => dec_varint(buf@, pos as int, 0, 0, 64) == Err::<(int, int), CodecError>(e),
        },
{
    read_varint_bounded(buf, pos, 64)
}

/// Read a canonical varint holding up to 32 value bits, as the wire format
/// uses for length prefixes.
pub fn read_varint_u32(buf: &Vec<u8>, pos: usize) -> (r: Result<(u32, usize), CodecError>)
    ensures
        match r {
            Ok((v, end)) => dec_varint(buf@, pos as int, 0, 0, 32) == Ok::<(int, int), CodecError>(
                (v as int, end as int),
            ) && pos < end <= buf@.len(),
            Err(e) => dec_varint(buf@, pos as int, 0, 0, 32) == Err::<(int, int), CodecError>(e),
        },
{
    match read_varint_bounded(buf, pos, 32) {
        Ok((v, end)) => {
            proof {
                lemma2_to64();
                lemma_dec_varint_bound(buf@, pos as int, 0, 0, 32);
                assert(v < pow2(32));
            }
            Ok((v as u32, end))
        },
        Err(e) => Err(e),
    }
}

/// The decoded value always fits in `max_bits` bits.
proof fn lemma_dec_varint_bound(s: Seq<u8>, pos: int, bits: nat, acc: int, max_bits: nat)
    requires
        bits <= max_bits,
        0 <= acc < pow2(bits),
    ensures
        match dec_varint(s, pos, bits, acc, max_bits) {
            Ok((v, end)) => 0 <= v < pow2(max_bits),
            Err(e) => true,
        },
    decreases max_bits - bits,
{
    if 0 <= pos < s.len() {
        let b = s[pos];
        if b == 0 && bits > 0 {
        } else if max_bits - bits <= 7 && b as int >= pow2((max_bits - bits) as nat) {
        } else {
            let acc2 = acc + (b as int % 128) * pow2(bits);
            lemma_pow2_pos(bits);
            if b < 128 {
                if max_bits - bits <= 7 {
                    // b < pow2(max_bits - bits), so the sum stays below pow2(max_bits)
                    assert(acc2 < pow2(max_bits)) by {
                        lemma_pow2_adds(bits, (max_bits - bits) as nat);
                        assert((b as int % 128) * pow2(bits) <= (pow2((max_bits - bits) as nat) - 1)
                            * pow2(bits)) by (nonlinear_arith)
                            requires
                                b as int % 128 <= pow2((max_bits - bits) as nat) - 1,
                                pow2(bits) > 0,
                        ;
                        assert((pow2((max_bits - bits) as nat) - 1) * pow2(bits) + pow2(bits) == pow2(
                            (max_bits - bits) as nat,
                        ) * pow2(bits)) by (nonlinear_arith);
                    };
                } else {
                    assert(acc2 < pow2(max_bits)) by {
                        lemma_pow2_adds(bits, 7);
                        assert(pow2(7) == 128) by { lemma2_to64(); };
                        assert((b as int % 128) * pow2(bits) <= 127 * pow2(bits))
                            by (nonlinear_arith)
                            requires
                                b as int % 128 <= 127,
                                pow2(bits) > 0,
                        ;
                        assert(acc2 < pow2((bits + 7) as nat));
                        lemma_pow2_strictly_increases((bits + 7) as nat, max_bits);
                    };
                }
            } else {
                if max_bits - bits > 7 {
                    assert(acc2 < pow2((bits + 7) as nat)) by {
                        lemma_pow2_adds(bits, 7);
                        assert(pow2(7) == 128) by { lemma2_to64(); };
                        assert((b as int % 128) * pow2(bits) <= 127 * pow2(bits))
                            by (nonlinear_arith)
                            requires
                                b as int % 128 <= 127,
                                pow2(bits) > 0,
                        ;
                    };
                    lemma_dec_varint_bound(s, pos + 1, bits + 7, acc2, max_bits);
                }
            }
        }
    }
}

/// Append a fixed-size byte array verbatim.
pub fn write_bytes<const N: usize>(out: &mut Vec<u8>, a: &[u8; N])
    ensures
        final(out)@ == old(out)@ + a@,
{
    let mut i: usize = 0;
    while i < N
        invariant
            i <= N,
            a@.len() == N,
            out@ == old(out)@ + a@.subrange(0, i as int),
        decreases N - i,
    {
        out.push(a[i]);
        proof {
            assert(out@ =~= old(out)@ + a@.subrange(0, i + 1));
        }
        i += 1;
    }
    proof {
        assert(a@.subrange(0, N as int) =~= a@);
    }
}

/// Read a fixed-size byte array. Succeeds exactly when `N` bytes remain.
pub fn read_bytes<const N: usize>(buf: &Vec<u8>, pos: usize) -> (r: Result<
    ([u8; N], usize),
    CodecError,
>)
    ensures
        match r {
            Ok((a, end)) => {
                &&& pos + N <= buf@.len()
                &&& end == pos + N
                &&& a@ == buf@.subrange(pos as int, pos + N)
            },
            Err(e) => e == CodecError::EndOfBuffer && pos + N > buf@.len(),
        },
{
    if buf.len() < N || pos > buf.len() - N {
        return Err(CodecError::EndOfBuffer);
    }
    let mut a: [u8; N] = [0u8; N];
    let mut i: usize = 0;
    while i < N
        invariant
            i <= N,
            a@.len() == N,
            pos + N <= buf@.len(),
            pos + N <= usize::MAX,
            forall|j: int| 0 <= j < i ==> a@[j] == buf@[pos + j],
        decreases N - i,
    {
        a[i] = buf[pos + i];
        i += 1;
    }
    proof {
        assert(a@ =~= buf@.subrange(pos as int, pos + N));
    }
    Ok((a, pos + N))
}

/// Append a single byte.
pub fn write_u8(out: &mut Vec<u8>, v: u8)
    ensures
        final(out)@ == old(out)@ + seq![v],
{
    out.push(v);
    proof {
        assert(out@ =~= old(out)@ + seq![v]);
    }
}

/// Read a single byte. Succeeds exactly when one byte remains.
pub fn read_u8(buf: &Vec<u8>, pos: usize) -> (r: Result<(u8, usize), CodecError>)
    ensures
        match r {
            Ok((v, end)) => {
                &&& pos + 1 <= buf@.len()
                &&& end == pos + 1
                &&& v == buf@[pos as int]
            },
            Err(e) => e == CodecError::EndOfBuffer && pos + 1 > buf@.len(),
        },
{
    if pos >= buf.len() {
        return Err(CodecError::EndOfBuffer);
    }
    Ok((buf[pos], pos + 1))
}

} // verus!
