use vstd::prelude::*;

verus! {

use vstd::string::StringSliceAdditionalSpecFns;
use vstd::string::StrSliceExecFns;
use vstd::utf8::encode_utf8;
use vstd::assert_seqs_equal;

/// Bit `k` (most significant first) of a packed byte.
pub open spec fn byte_bit(v: u8, k: int) -> bool {
    (v >> (7 - k) as u8) & 1 == 1
}

/// Byte `i` of the little-endian encoding of a 64-bit value.
pub open spec fn le_byte(v: u64, i: int) -> u8 {
    ((v >> (8 * i) as u64) & 0xff) as u8
}

/// The eight little-endian bytes of a 64-bit value.
pub open spec fn le_bytes(v: u64) -> Seq<u8> {
    seq![
        le_byte(v, 0),
        le_byte(v, 1),
        le_byte(v, 2),
        le_byte(v, 3),
        le_byte(v, 4),
        le_byte(v, 5),
        le_byte(v, 6),
        le_byte(v, 7),
    ]
}

/// One packed byte of a flag sequence, most significant bit first;
/// positions past the end count as zero.
pub open spec fn spec_pack_byte(bits: Seq<bool>, j: int) -> u8 {
    ((if 8 * j < bits.len() && bits[8 * j] { 128u8 } else { 0u8 })
     | (if 8 * j + 1 < bits.len() && bits[8 * j + 1] { 64u8 } else { 0u8 })
     | (if 8 * j + 2 < bits.len() && bits[8 * j + 2] { 32u8 } else { 0u8 })
     | (if 8 * j + 3 < bits.len() && bits[8 * j + 3] { 16u8 } else { 0u8 })
     | (if 8 * j + 4 < bits.len() && bits[8 * j + 4] { 8u8 } else { 0u8 })
     | (if 8 * j + 5 < bits.len() && bits[8 * j + 5] { 4u8 } else { 0u8 })
     | (if 8 * j + 6 < bits.len() && bits[8 * j + 6] { 2u8 } else { 0u8 })
     | (if 8 * j + 7 < bits.len() && bits[8 * j + 7] { 1u8 } else { 0u8 }))
}

/// The byte-packed representation of a flag sequence.
pub open spec fn spec_packed(bits: Seq<bool>) -> Seq<u8> {
    Seq::new(((bits.len() + 7) / 8) as nat, |j: int| spec_pack_byte(bits, j))
}

/// Every bit of a packed byte, read most significant first.
pub proof fn lemma_pack_byte_bits(bits: Seq<bool>, j: int)
    requires
        0 <= j,
    ensures
        forall|k: int|
            0 <= k < 8 ==> #[trigger] byte_bit(spec_pack_byte(bits, j), k) == (8 * j + k
                < bits.len() && bits[8 * j + k]),
{
    let x0: u8 = if 8 * j < bits.len() && bits[8 * j] { 128 } else { 0 };
    let x1: u8 = if 8 * j + 1 < bits.len() && bits[8 * j + 1] { 64 } else { 0 };
    let x2: u8 = if 8 * j + 2 < bits.len() && bits[8 * j + 2] { 32 } else { 0 };
    let x3: u8 = if 8 * j + 3 < bits.len() && bits[8 * j + 3] { 16 } else { 0 };
    let x4: u8 = if 8 * j + 4 < bits.len() && bits[8 * j + 4] { 8 } else { 0 };
    let x5: u8 = if 8 * j + 5 < bits.len() && bits[8 * j + 5] { 4 } else { 0 };
    let x6: u8 = if 8 * j + 6 < bits.len() && bits[8 * j + 6] { 2 } else { 0 };
    let x7: u8 = if 8 * j + 7 < bits.len() && bits[8 * j + 7] { 1 } else { 0 };
    let v = (x0 | x1 | x2 | x3 | x4 | x5 | x6 | x7) as u8;
    assert(spec_pack_byte(bits, j) == v);
    assert((x0 == 128 ==> (v >> 7) & 1 == 1) && (x0 == 0 ==> (v >> 7) & 1 == 0) && (x1 == 64 ==> (v
        >> 6) & 1 == 1) && (x1 == 0 ==> (v >> 6) & 1 == 0) && (x2 == 32 ==> (v >> 5) & 1 == 1) && (
    x2 == 0 ==> (v >> 5) & 1 == 0) && (x3 == 16 ==> (v >> 4) & 1 == 1) && (x3 == 0 ==> (v >> 4) & 1
        == 0) && (x4 == 8 ==> (v >> 3) & 1 == 1) && (x4 == 0 ==> (v >> 3) & 1 == 0) && (x5 == 4
        ==> (v >> 2) & 1 == 1) && (x5 == 0 ==> (v >> 2) & 1 == 0) && (x6 == 2 ==> (v >> 1) & 1 == 1)
        && (x6 == 0 ==> (v >> 1) & 1 == 0) && (x7 == 1 ==> (v >> 0) & 1 == 1) && (x7 == 0 ==> (v
        >> 0) & 1 == 0)) by (bit_vector)
        requires
            (x0 == 128 || x0 == 0) && (x1 == 64 || x1 == 0) && (x2 == 32 || x2 == 0) && (x3 == 16
                || x3 == 0) && (x4 == 8 || x4 == 0) && (x5 == 4 || x5 == 0) && (x6 == 2 || x6 == 0)
                && (x7 == 1 || x7 == 0),
            v == (x0 | x1 | x2 | x3 | x4 | x5 | x6 | x7) as u8,
    ;
}

/// Two bytes that agree on all eight bits are equal.
proof fn lemma_byte_from_bits(x: u8, y: u8)
    requires
        forall|k: int| 0 <= k < 8 ==> #[trigger] byte_bit(x, k) == byte_bit(y, k),
    ensures
        x == y,
{
    assert(byte_bit(x, 0) == byte_bit(y, 0) && byte_bit(x, 1) == byte_bit(y, 1) && byte_bit(x, 2)
        == byte_bit(y, 2) && byte_bit(x, 3) == byte_bit(y, 3) && byte_bit(x, 4) == byte_bit(y, 4)
        && byte_bit(x, 5) == byte_bit(y, 5) && byte_bit(x, 6) == byte_bit(y, 6) && byte_bit(x, 7)
        == byte_bit(y, 7));
    assert(x == y) by (bit_vector)
        requires
            ((x >> 7) & 1 == 1) == ((y >> 7) & 1 == 1),
            ((x >> 6) & 1 == 1) == ((y >> 6) & 1 == 1),
            ((x >> 5) & 1 == 1) == ((y >> 5) & 1 == 1),
            ((x >> 4) & 1 == 1) == ((y >> 4) & 1 == 1),
            ((x >> 3) & 1 == 1) == ((y >> 3) & 1 == 1),
            ((x >> 2) & 1 == 1) == ((y >> 2) & 1 == 1),
            ((x >> 1) & 1 == 1) == ((y >> 1) & 1 == 1),
            ((x >> 0) & 1 == 1) == ((y >> 0) & 1 == 1),
    ;
}

/// Pack eight flags into one byte, most significant bit first.
fn pack_byte(b: [bool; 8]) -> (r: u8)
    ensures
        forall|k: int| 0 <= k < 8 ==> #[trigger] byte_bit(r, k) == b@[k],
{
    let r = ((if b[0] {
        128u8
    } else {
        0u8
    }) | (if b[1] {
        64u8
    } else {
        0u8
    }) | (if b[2] {
        32u8
    } else {
        0u8
    }) | (if b[3] {
        16u8
    } else {
        0u8
    }) | (if b[4] {
        8u8
    } else {
        0u8
    }) | (if b[5] {
        4u8
    } else {
        0u8
    }) | (if b[6] {
        2u8
    } else {
        0u8
    }) | (if b[7] {
        1u8
    } else {
        0u8
    }));
    proof {
        let x0: u8 = if b@[0] { 128 } else { 0 };
        let x1: u8 = if b@[1] { 64 } else { 0 };
        let x2: u8 = if b@[2] { 32 } else { 0 };
        let x3: u8 = if b@[3] { 16 } else { 0 };
        let x4: u8 = if b@[4] { 8 } else { 0 };
        let x5: u8 = if b@[5] { 4 } else { 0 };
        let x6: u8 = if b@[6] { 2 } else { 0 };
        let x7: u8 = if b@[7] { 1 } else { 0 };
        assert forall|k: int| 0 <= k < 8 implies #[trigger] byte_bit(r, k) == b@[k] by {
            assert((x0 == 128 || x0 == 0) && (x1 == 64 || x1 == 0) && (x2 == 32 || x2 == 0) && (x3
                == 16 || x3 == 0) && (x4 == 8 || x4 == 0) && (x5 == 4 || x5 == 0) && (x6 == 2 || x6
                == 0) && (x7 == 1 || x7 == 0));
            let v = (x0 | x1 | x2 | x3 | x4 | x5 | x6 | x7) as u8;
            assert(r == v);
            assert((x0 == 128 ==> (v >> 7) & 1 == 1) && (x0 == 0 ==> (v >> 7) & 1 == 0) && (x1
                == 64 ==> (v >> 6) & 1 == 1) && (x1 == 0 ==> (v >> 6) & 1 == 0) && (x2 == 32 ==> (v
                >> 5) & 1 == 1) && (x2 == 0 ==> (v >> 5) & 1 == 0) && (x3 == 16 ==> (v >> 4) & 1
                == 1) && (x3 == 0 ==> (v >> 4) & 1 == 0) && (x4 == 8 ==> (v >> 3) & 1 == 1) && (x4
                == 0 ==> (v >> 3) & 1 == 0) && (x5 == 4 ==> (v >> 2) & 1 == 1) && (x5 == 0 ==> (v
                >> 2) & 1 == 0) && (x6 == 2 ==> (v >> 1) & 1 == 1) && (x6 == 0 ==> (v >> 1) & 1
                == 0) && (x7 == 1 ==> (v >> 0) & 1 == 1) && (x7 == 0 ==> (v >> 0) & 1 == 0))
                by (bit_vector)
                requires
                    (x0 == 128 || x0 == 0) && (x1 == 64 || x1 == 0) && (x2 == 32 || x2 == 0) && (x3
                        == 16 || x3 == 0) && (x4 == 8 || x4 == 0) && (x5 == 4 || x5 == 0) && (x6
                        == 2 || x6 == 0) && (x7 == 1 || x7 == 0),
                    v == (x0 | x1 | x2 | x3 | x4 | x5 | x6 | x7) as u8,
            ;
        }
    }
    r
}

/// Read bit `k` (most significant first) of a packed byte.
fn unpack_bit(v: u8, k: usize) -> (r: bool)
    requires
        k < 8,
    ensures
        r == byte_bit(v, k as int),
{
    let shift: u8 = (7 - k) as u8;
    (v >> shift) & 1 == 1
}

/// Pack flags into bytes, most significant bit first, trailing bits zero.
pub fn pack_bits(bits: &Vec<bool>) -> (r: Vec<u8>)
    requires
        bits@.len() + 7 <= usize::MAX,
    ensures
        r@ == spec_packed(bits@),
        r@.len() == (bits@.len() + 7) / 8,
{
    let n = bits.len();
    let byte_count = (n + 7) / 8;
    let mut r: Vec<u8> = Vec::new();
    let mut j: usize = 0;
    while j < byte_count
        invariant
            byte_count == (bits@.len() + 7) / 8,
            n == bits@.len(),
            j <= byte_count,
            r@.len() == j,
            forall|t: int| 0 <= t < j ==> #[trigger] r@[t] == spec_pack_byte(bits@, t),
        decreases byte_count - j,
    {
        let mut flags: [bool; 8] = [false;8];
        let mut k: usize = 0;
        while k < 8
            invariant
                k <= 8,
                j < byte_count,
                byte_count == (bits@.len() + 7) / 8,
                n == bits@.len(),
                flags@.len() == 8,
                forall|t: int|
                    0 <= t < k ==> #[trigger] flags@[t] == if 8 * j + t < n {
                        bits@[8 * j + t]
                    } else {
                        false
                    },
            decreases 8 - k,
        {
            let idx = 8 * j + k;
            proof {
                assert(8 * j + 8 <= 8 * byte_count);
            }
            if idx < n {
                flags.set(k, bits[idx]);
            } else {
                flags.set(k, false);
            }
            k = k + 1;
        }
        let byte = pack_byte(flags);
        r.push(byte);
        proof {
            lemma_pack_byte_bits(bits@, j as int);
            assert(byte == spec_pack_byte(bits@, j as int)) by {
                lemma_byte_from_bits(byte, spec_pack_byte(bits@, j as int));
            };
            assert forall|t: int| 0 <= t < j + 1 implies #[trigger] r@[t] == spec_pack_byte(
                bits@,
                t,
            ) by {}
        }
        j = j + 1;
    }
    proof {
        assert(r@ =~= spec_packed(bits@));
    }
    r
}

/// Unpack every bit of the packed bytes, eight flags per byte.
pub fn unpack_all(bytes: &Vec<u8>) -> (r: Vec<bool>)
    requires
        bytes@.len() * 8 <= usize::MAX,
    ensures
        r@.len() == bytes@.len() * 8,
        bytes@ == spec_packed(r@),
{
    let count = bytes.len() * 8;
    let mut r: Vec<bool> = Vec::new();
    let mut i: usize = 0;
    while i < count
        invariant
            i <= count,
            count == bytes@.len() * 8,
            r@.len() == i,
            forall|t: int| 0 <= t < i ==> #[trigger] r@[t] == byte_bit(bytes@[t / 8], t % 8),
        decreases count - i,
    {
        proof {
            assert(i / 8 < bytes@.len());
        }
        let b = bytes[i / 8];
        r.push(unpack_bit(b, i % 8));
        i = i + 1;
    }
    proof {
        assert forall|j: int| 0 <= j < bytes@.len() implies #[trigger] spec_packed(r@)[j]
            == bytes@[j] by {
            lemma_pack_byte_bits(r@, j);
            assert forall|k: int| 0 <= k < 8 implies #[trigger] byte_bit(bytes@[j], k) == byte_bit(
                spec_packed(r@)[j],
                k,
            ) by {
                assert(r@[8 * j + k] == byte_bit(bytes@[(8 * j + k) / 8], (8 * j + k) % 8));
                assert((8 * j + k) / 8 == j && (8 * j + k) % 8 == k);
            }
            lemma_byte_from_bits(bytes@[j], spec_packed(r@)[j]);
        }
        assert(bytes@ =~= spec_packed(r@));
    }
    r
}

/// Append the eight little-endian bytes of a value.
pub fn push_u64(out: &mut Vec<u8>, v: u64)
    ensures
        final(out)@ == old(out)@ + le_bytes(v),
{
    let b0 = (v & 0xff) as u8;
    let b1 = ((v >> 8) & 0xff) as u8;
    let b2 = ((v >> 16) & 0xff) as u8;
    let b3 = ((v >> 24) & 0xff) as u8;
    let b4 = ((v >> 32) & 0xff) as u8;
    let b5 = ((v >> 40) & 0xff) as u8;
    let b6 = ((v >> 48) & 0xff) as u8;
    let b7 = ((v >> 56) & 0xff) as u8;
    out.push(b0);
    out.push(b1);
    out.push(b2);
    out.push(b3);
    out.push(b4);
    out.push(b5);
    out.push(b6);
    out.push(b7);
    proof {
        assert(v >> 0u64 == v) by (bit_vector);
        assert(final(out)@ =~= old(out)@ + le_bytes(v));
    }
}

/// Read the eight little-endian bytes at `pos` back into a value.
pub fn read_u64(bytes: &Vec<u8>, pos: usize) -> (r: Option<(u64, usize)>)
    ensures
        pos + 8 <= bytes@.len() ==> (r matches Some(p) && p.1 == pos + 8 && le_bytes(p.0)
            == bytes@.subrange(pos as int, pos + 8)),
        pos + 8 > bytes@.len() ==> r is None,
{
    if pos >= bytes.len() || bytes.len() - pos < 8 {
        return None;
    }
    let b0 = bytes[pos];
    let b1 = bytes[pos + 1];
    let b2 = bytes[pos + 2];
    let b3 = bytes[pos + 3];
    let b4 = bytes[pos + 4];
    let b5 = bytes[pos + 5];
    let b6 = bytes[pos + 6];
    let b7 = bytes[pos + 7];
    let v = (b0 as u64) | ((b1 as u64) << 8) | ((b2 as u64) << 16) | ((b3 as u64) << 24) | ((
    b4 as u64) << 32) | ((b5 as u64) << 40) | ((b6 as u64) << 48) | ((b7 as u64) << 56);
    proof {
        assert(((v >> 0u64) & 0xff) as u8 == b0 && ((v >> 8u64) & 0xff) as u8 == b1 && ((v >> 16u64)
            & 0xff) as u8 == b2 && ((v >> 24u64) & 0xff) as u8 == b3 && ((v >> 32u64) & 0xff) as u8
            == b4 && ((v >> 40u64) & 0xff) as u8 == b5 && ((v >> 48u64) & 0xff) as u8 == b6 && ((v
            >> 56u64) & 0xff) as u8 == b7) by (bit_vector)
            requires
                v == (b0 as u64) | ((b1 as u64) << 8) | ((b2 as u64) << 16) | ((b3 as u64) << 24)
                    | ((b4 as u64) << 32) | ((b5 as u64) << 40) | ((b6 as u64) << 48) | ((
                b7 as u64) << 56),
        ;
        assert(le_bytes(v) =~= bytes@.subrange(pos as int, pos + 8));
    }
    Some((v, pos + 8))
}

/// A range splits at any interior point into two adjacent subranges.
proof fn lemma_subrange_split(s: Seq<u8>, a: int, b: int, c: int)
    requires
        0 <= a <= b <= c <= s.len(),
    ensures
        s.subrange(a, c) == s.subrange(a, b) + s.subrange(b, c),
{
    assert_seqs_equal!(s.subrange(a, c) == s.subrange(a, b) + s.subrange(b, c));
}

/// A length-prefixed byte field: eight little-endian length bytes, then the
/// contents.
pub open spec fn spec_field(b: Seq<u8>) -> Seq<u8> {
    le_bytes(b.len() as u64) + b
}

/// Append a length-prefixed byte field.
pub fn push_field(out: &mut Vec<u8>, b: &Vec<u8>)
    ensures
        final(out)@ == old(out)@ + spec_field(b@),
{
    push_u64(out, b.len() as u64);
    out.extend_from_slice(b.as_slice());
    proof {
        assert(final(out)@ =~= old(out)@ + spec_field(b@));
    }
}

/// Copy of the bytes `[a, b)` of a vector.
fn take_range(src: &Vec<u8>, a: usize, b: usize) -> (r: Vec<u8>)
    requires
        a <= b,
        b <= src@.len(),
    ensures
        r@ == src@.subrange(a as int, b as int),
{
    let mut r: Vec<u8> = Vec::new();
    let mut i: usize = a;
    while i < b
        invariant
            a <= i <= b,
            b <= src@.len(),
            r@ =~= src@.subrange(a as int, i as int),
        decreases b - i,
    {
        r.push(src[i]);
        i = i + 1;
    }
    proof {
        assert(r@ =~= src@.subrange(a as int, b as int));
    }
    r
}

/// Read a length-prefixed byte field at `pos`. When the caller expects a
/// particular field there, the read is guaranteed to deliver exactly it.
fn read_field(bytes: &Vec<u8>, pos: usize, expect: Ghost<Option<Seq<u8>>>) -> (r: Option<
    (Vec<u8>, usize),
>)
    ensures
        r matches Some(p) ==> pos + 8 <= bytes@.len() && pos + 8 + p.0@.len() == p.1 && p.1
            <= bytes@.len() && bytes@.subrange(pos as int, p.1 as int) == spec_field(p.0@),
        expect@ matches Some(b) ==> (pos + 8 + b.len() <= bytes@.len() && bytes@.subrange(
            pos as int,
            pos as int + 8 + b.len(),
        ) == spec_field(b) ==> (r matches Some(p) && p.0@ == b && p.1 == pos + 8 + b.len())),
{
    proof {
        assert(bytes@.len() <= usize::MAX) by {
            assert(bytes.len() == bytes@.len());
        };
        match expect@ {
            Some(b) => {
                if pos + 8 + b.len() <= bytes@.len() && bytes@.subrange(
                    pos as int,
                    pos as int + 8 + b.len(),
                ) == spec_field(b) {
                    lemma_field_prefix(bytes@, pos as int, b);
                }
            },
            None => {},
        }
    }
    let (len64, pos2) = match read_u64(bytes, pos) {
        Some(p) => p,
        None => {
            return None;
        },
    };
    let remaining = bytes.len() - pos2;
    if len64 > remaining as u64 {
        proof {
            match expect@ {
                Some(b) => {
                    if pos + 8 + b.len() <= bytes@.len() && bytes@.subrange(
                        pos as int,
                        pos as int + 8 + b.len(),
                    ) == spec_field(b) {
                        lemma_le_round_trip(len64, b.len() as u64);
                        assert(false);
                    }
                },
                None => {},
            }
        }
        return None;
    }
    let len = len64 as usize;
    let content = take_range(bytes, pos2, pos2 + len);
    proof {
        assert(le_bytes(len64) == bytes@.subrange(pos as int, pos + 8));
        assert(content@.len() as u64 == len64);
        assert(bytes@.subrange(pos as int, (pos2 + len) as int) =~= spec_field(content@));
        match expect@ {
            Some(b) => {
                if pos + 8 + b.len() <= bytes@.len() && bytes@.subrange(
                    pos as int,
                    pos as int + 8 + b.len(),
                ) == spec_field(b) {
                    lemma_le_round_trip(len64, b.len() as u64);
                    assert(content@ =~= b);
                }
            },
            None => {},
        }
    }
    Some((content, pos2 + len))
}

/// Every 64-bit value decodes back from its little-endian bytes.
pub proof fn lemma_le_round_trip(v1: u64, v2: u64)
    requires
        le_bytes(v1) == le_bytes(v2),
    ensures
        v1 == v2,
{
    assert(le_bytes(v1)[0] == le_bytes(v2)[0]);
    assert(le_bytes(v1)[1] == le_bytes(v2)[1]);
    assert(le_bytes(v1)[2] == le_bytes(v2)[2]);
    assert(le_bytes(v1)[3] == le_bytes(v2)[3]);
    assert(le_bytes(v1)[4] == le_bytes(v2)[4]);
    assert(le_bytes(v1)[5] == le_bytes(v2)[5]);
    assert(le_bytes(v1)[6] == le_bytes(v2)[6]);
    assert(le_bytes(v1)[7] == le_bytes(v2)[7]);
    assert(le_byte(v1, 0) == le_byte(v2, 0));
    assert(le_byte(v1, 1) == le_byte(v2, 1));
    assert(le_byte(v1, 2) == le_byte(v2, 2));
    assert(le_byte(v1, 3) == le_byte(v2, 3));
    assert(le_byte(v1, 4) == le_byte(v2, 4));
    assert(le_byte(v1, 5) == le_byte(v2, 5));
    assert(le_byte(v1, 6) == le_byte(v2, 6));
    assert(le_byte(v1, 7) == le_byte(v2, 7));
    assert(v1 == v2) by (bit_vector)
        requires
            ((v1 >> 0u64) & 0xff) as u8 == ((v2 >> 0u64) & 0xff) as u8,
            ((v1 >> 8u64) & 0xff) as u8 == ((v2 >> 8u64) & 0xff) as u8,
            ((v1 >> 16u64) & 0xff) as u8 == ((v2 >> 16u64) & 0xff) as u8,
            ((v1 >> 24u64) & 0xff) as u8 == ((v2 >> 24u64) & 0xff) as u8,
            ((v1 >> 32u64) & 0xff) as u8 == ((v2 >> 32u64) & 0xff) as u8,
            ((v1 >> 40u64) & 0xff) as u8 == ((v2 >> 40u64) & 0xff) as u8,
            ((v1 >> 48u64) & 0xff) as u8 == ((v2 >> 48u64) & 0xff) as u8,
            ((v1 >> 56u64) & 0xff) as u8 == ((v2 >> 56u64) & 0xff) as u8,
    ;
}

/// A suffix that begins with a known part fixes that part's bytes and the
/// rest.
proof fn lemma_take_part(bytes: Seq<u8>, pos: int, a: Seq<u8>, b: Seq<u8>)
    requires
        0 <= pos <= bytes.len(),
        bytes.subrange(pos, bytes.len() as int) == a + b,
    ensures
        pos + a.len() + b.len() == bytes.len(),
        bytes.subrange(pos, pos + a.len()) == a,
        bytes.subrange(pos + a.len(), bytes.len() as int) == b,
{
    assert((a + b).len() == a.len() + b.len());
    assert(bytes.subrange(pos, bytes.len() as int).len() == bytes.len() - pos);
    assert(pos + a.len() + b.len() == bytes.len());
    assert(bytes.subrange(pos, pos + a.len()) =~= a) by {
        assert forall|t: int| 0 <= t < a.len() implies bytes.subrange(pos, pos + a.len())[t]
            == a[t] by {
            assert(bytes.subrange(pos, pos + a.len())[t] == bytes[pos + t]);
            assert(bytes.subrange(pos, bytes.len() as int)[t] == bytes[pos + t]);
            assert(bytes.subrange(pos, bytes.len() as int)[t] == (a + b)[t]);
        }
    };
    assert(bytes.subrange(pos + a.len(), bytes.len() as int) =~= b) by {
        assert forall|t: int| 0 <= t < b.len() implies bytes.subrange(
            pos + a.len(),
            bytes.len() as int,
        )[t] == b[t] by {
            assert(bytes.subrange(pos + a.len(), bytes.len() as int)[t] == bytes[pos + a.len()
                + t]);
            assert(bytes.subrange(pos, bytes.len() as int)[a.len() + t] == bytes[pos + a.len()
                + t]);
            assert(bytes.subrange(pos, bytes.len() as int)[a.len() + t] == (a + b)[a.len() + t]);
        }
    };
}

/// A field at `pos` fixes the eight length bytes and the content bytes.
proof fn lemma_field_prefix(bytes: Seq<u8>, pos: int, b: Seq<u8>)
    requires
        0 <= pos,
        pos + 8 + b.len() <= bytes.len(),
        bytes.subrange(pos, pos + 8 + b.len()) == spec_field(b),
    ensures
        bytes.subrange(pos, pos + 8) == le_bytes(b.len() as u64),
        bytes.subrange(pos + 8, pos + 8 + b.len()) == b,
{
    let w = bytes.subrange(pos, pos + 8 + b.len());
    assert(bytes.subrange(pos, pos + 8) =~= w.subrange(0, 8));
    assert(w.subrange(0, 8) =~= le_bytes(b.len() as u64));
    assert(bytes.subrange(pos + 8, pos + 8 + b.len()) =~= w.subrange(8, w.len() as int));
    assert(w.subrange(8, w.len() as int) =~= b);
}

/// Relies on alloc::string::String::from_utf8: it succeeds exactly on valid
/// UTF-8, and the returned string is backed by the given bytes.
#[verifier::external_body]
fn string_from_utf8(v: Vec<u8>) -> (r: Option<String>)
    ensures
        r matches Some(s) ==> encode_utf8(s@) == v@,
        vstd::utf8::valid_utf8(v@) ==> r is Some,
{
    match String::from_utf8(v) {
        Ok(s) => Some(s),
        Err(_) => None,
    }
}

/// Append a string as a length-prefixed UTF-8 field.
pub fn push_string(out: &mut Vec<u8>, s: &String)
    ensures
        final(out)@ == old(out)@ + spec_field(encode_utf8(s@)),
{
    let b = s.as_str().as_bytes_vec();
    push_field(out, &b)
}

/// Read a length-prefixed UTF-8 string field at `pos`. When the caller
/// expects particular characters there, the read delivers exactly them.
fn read_string(bytes: &Vec<u8>, pos: usize, expect: Ghost<Option<Seq<char>>>) -> (r: Option<
    (String, usize),
>)
    ensures
        r matches Some(p) ==> pos + 8 <= p.1 <= bytes@.len() && bytes@.subrange(
            pos as int,
            p.1 as int,
        ) == spec_field(encode_utf8(p.0@)),
        expect@ matches Some(cs) ==> (pos + 8 + encode_utf8(cs).len() <= bytes@.len()
            && bytes@.subrange(pos as int, pos as int + 8 + encode_utf8(cs).len()) == spec_field(
            encode_utf8(cs),
        ) ==> (r matches Some(p) && p.0@ == cs && p.1 == pos + 8 + encode_utf8(cs).len())),
{
    let ghost expect_bytes: Option<Seq<u8>> = match expect@ {
        Some(cs) => Some(encode_utf8(cs)),
        None => None,
    };
    let (content, pos2) = match read_field(bytes, pos, Ghost(expect_bytes)) {
        Some(p) => p,
        None => {
            return None;
        },
    };
    let ghost content_view = content@;
    match string_from_utf8(content) {
        Some(s) => {
            proof {
                assert(encode_utf8(s@) == content_view);
                match expect@ {
                    Some(cs) => {
                        if pos + 8 + encode_utf8(cs).len() <= bytes@.len() && bytes@.subrange(
                            pos as int,
                            pos as int + 8 + encode_utf8(cs).len(),
                        ) == spec_field(encode_utf8(cs)) {
                            assert(content_view == encode_utf8(cs));
                            vstd::utf8::encode_utf8_decode_utf8(s@);
                            vstd::utf8::encode_utf8_decode_utf8(cs);
                        }
                    },
                    None => {},
                }
            }
            Some((s, pos2))
        },
        None => {
            proof {
                match expect@ {
                    Some(cs) => {
                        if pos + 8 + encode_utf8(cs).len() <= bytes@.len() && bytes@.subrange(
                            pos as int,
                            pos as int + 8 + encode_utf8(cs).len(),
                        ) == spec_field(encode_utf8(cs)) {
                            assert(content_view == encode_utf8(cs));
                            vstd::utf8::encode_utf8_valid_utf8(cs);
                            assert(false);
                        }
                    },
                    None => {},
                }
            }
            None
        },
    }
}

/// A location list decomposes at its front.
proof fn lemma_locations_blob_first(ls: Seq<Seq<char>>)
    requires
        ls.len() >= 1,
    ensures
        spec_locations_blob(ls) == spec_field(encode_utf8(ls.first())) + spec_locations_blob(
            ls.drop_first(),
        ),
    decreases ls.len(),
{
    if ls.len() == 1 {
        assert(ls.drop_last() =~= Seq::<Seq<char>>::empty());
        assert(ls.drop_first() =~= Seq::<Seq<char>>::empty());
        assert(spec_locations_blob(Seq::<Seq<char>>::empty()) == Seq::<u8>::empty());
        assert(spec_locations_blob(ls) =~= spec_field(encode_utf8(ls.first()))
            + spec_locations_blob(ls.drop_first()));
    } else {
        lemma_locations_blob_first(ls.drop_last());
        assert(ls.drop_last().first() == ls.first());
        assert(ls.drop_last().drop_first() =~= ls.drop_first().drop_last());
        assert(ls.drop_first().last() == ls.last());
        assert(spec_locations_blob(ls) == spec_locations_blob(ls.drop_last()) + spec_field(
            encode_utf8(ls.last()),
        ));
        assert(spec_locations_blob(ls.drop_first()) == spec_locations_blob(
            ls.drop_first().drop_last(),
        ) + spec_field(encode_utf8(ls.last())));
        assert(spec_locations_blob(ls) =~= spec_field(encode_utf8(ls.first()))
            + spec_locations_blob(ls.drop_first()));
    }
}

/// The location list: a count, then each location as a string field.
pub open spec fn spec_locations_blob(ls: Seq<Seq<char>>) -> Seq<u8>
    decreases ls.len(),
{
    if ls.len() == 0 {
        Seq::empty()
    } else {
        spec_locations_blob(ls.drop_last()) + spec_field(encode_utf8(ls.last()))
    }
}

/// The persisted form of a storage map, as plain values: the tree's node
/// bitmap and flat hashes, its geometry, the chunk parameters and bitmap,
/// and the storage's name and resource locations. Bitmaps are padded with
/// zeros to a whole number of bytes.
pub struct PersistedState {
    pub tree_bits: Vec<bool>,
    pub tree_hashes: Vec<u8>,
    pub height: u64,
    pub leaf_count: u64,
    pub chunk_bits: Vec<bool>,
    pub chunk_size: u64,
    pub chunk_count: u64,
    pub piece_size: u64,
    pub piece_count: u64,
    pub chunks_in_piece: u64,
    pub name: String,
    pub locations: Vec<String>,
    pub total_size: u64,
}

/// The parts of a persisted state's single binary blob, in order: a
/// version tag, then each field, integers little-endian, bitmaps
/// byte-packed with trailing bits zero, strings length-prefixed UTF-8.
pub open spec fn blob_parts(ps: &PersistedState) -> Seq<Seq<u8>> {
    Seq::new(
        15,
        |i: int|
            if i == 0 {
                le_bytes(0)
            } else if i == 1 {
                spec_field(spec_packed(ps.tree_bits@))
            } else if i == 2 {
                spec_field(ps.tree_hashes@)
            } else if i == 3 {
                le_bytes(ps.height)
            } else if i == 4 {
                le_bytes(ps.leaf_count)
            } else if i == 5 {
                spec_field(spec_packed(ps.chunk_bits@))
            } else if i == 6 {
                le_bytes(ps.chunk_size)
            } else if i == 7 {
                le_bytes(ps.chunk_count)
            } else if i == 8 {
                le_bytes(ps.piece_size)
            } else if i == 9 {
                le_bytes(ps.piece_count)
            } else if i == 10 {
                le_bytes(ps.chunks_in_piece)
            } else if i == 11 {
                spec_field(encode_utf8(ps.name@))
            } else if i == 12 {
                le_bytes(ps.locations@.len() as u64)
            } else if i == 13 {
                spec_locations_blob(ps.locations@.map_values(|l: String| l@))
            } else {
                le_bytes(ps.total_size)
            },
    )
}

/// The concatenation of the parts from index `k` on.
pub open spec fn cat_from(parts: Seq<Seq<u8>>, k: int) -> Seq<u8>
    decreases parts.len() - k,
{
    if k < 0 || k >= parts.len() {
        Seq::empty()
    } else {
        parts[k] + cat_from(parts, k + 1)
    }
}

/// The single binary blob of a persisted state: its parts, concatenated.
pub open spec fn spec_blob(ps: &PersistedState) -> Seq<u8> {
    cat_from(blob_parts(ps), 0)
}

/// The machine bounds under which a state's blob can be parsed back: each
/// bitmap fits the address space when padded to whole bytes.
pub open spec fn spec_blob_bounds(ps: &PersistedState) -> bool {
    &&& ps.tree_bits@.len() + 7 <= usize::MAX
    &&& ps.chunk_bits@.len() + 7 <= usize::MAX
}

/// Serialize a persisted state into its single binary blob.
#[verifier::rlimit(100)]
#[verifier::spinoff_prover]
pub fn encode_state(ps: &PersistedState) -> (r: Vec<u8>)
    requires
        ps.tree_bits@.len() + 7 <= usize::MAX,
        ps.chunk_bits@.len() + 7 <= usize::MAX,
    ensures
        r@ == spec_blob(ps),
{
    let mut out: Vec<u8> = Vec::new();
    push_u64(&mut out, 0);
    let tb = pack_bits(&ps.tree_bits);
    push_field(&mut out, &tb);
    push_field(&mut out, &ps.tree_hashes);
    push_u64(&mut out, ps.height);
    push_u64(&mut out, ps.leaf_count);
    let cb = pack_bits(&ps.chunk_bits);
    push_field(&mut out, &cb);
    push_u64(&mut out, ps.chunk_size);
    push_u64(&mut out, ps.chunk_count);
    push_u64(&mut out, ps.piece_size);
    push_u64(&mut out, ps.piece_count);
    push_u64(&mut out, ps.chunks_in_piece);
    push_string(&mut out, &ps.name);

    push_u64(&mut out, ps.locations.len() as u64);
    let ghost pre_locs = out@;
    let mut i: usize = 0;
    while i < ps.locations.len()
        invariant
            i <= ps.locations@.len(),
            out@ == pre_locs + spec_locations_blob(
                ps.locations@.map_values(|l: String| l@).take(i as int),
            ),
        decreases ps.locations@.len() - i,
    {
        let ghost lv = ps.locations@.map_values(|l: String| l@);
        push_string(&mut out, &ps.locations[i]);
        proof {
            assert(lv.take(i + 1).drop_last() =~= lv.take(i as int));
            assert(lv.take(i + 1).last() == lv[i as int]);
            assert(out@ =~= pre_locs + spec_locations_blob(lv.take(i + 1)));
        }
        i = i + 1;
    }
    proof {
        let lv = ps.locations@.map_values(|l: String| l@);
        assert(lv.take(lv.len() as int) =~= lv);
    }

    push_u64(&mut out, ps.total_size);
    proof {
        lemma_blob_left_assoc(ps);
    }
    out
}

/// A blob is its fifteen parts, in order, grouped to the left as they are
/// appended.
#[verifier::rlimit(100)]
#[verifier::spinoff_prover]
proof fn lemma_blob_left_assoc(ps: &PersistedState)
    ensures
        spec_blob(ps) == le_bytes(0) + spec_field(spec_packed(ps.tree_bits@)) + spec_field(
            ps.tree_hashes@,
        ) + le_bytes(ps.height) + le_bytes(ps.leaf_count) + spec_field(spec_packed(ps.chunk_bits@))
            + le_bytes(ps.chunk_size) + le_bytes(ps.chunk_count) + le_bytes(ps.piece_size)
            + le_bytes(ps.piece_count) + le_bytes(ps.chunks_in_piece) + spec_field(
            encode_utf8(ps.name@),
        ) + le_bytes(ps.locations@.len() as u64) + spec_locations_blob(
            ps.locations@.map_values(|l: String| l@),
        ) + le_bytes(ps.total_size),
{
    let p = blob_parts(ps);
    let l1 = p[0];
    let l2 = l1 + p[1];
    let l3 = l2 + p[2];
    let l4 = l3 + p[3];
    let l5 = l4 + p[4];
    let l6 = l5 + p[5];
    let l7 = l6 + p[6];
    let l8 = l7 + p[7];
    let l9 = l8 + p[8];
    let l10 = l9 + p[9];
    let l11 = l10 + p[10];
    let l12 = l11 + p[11];
    let l13 = l12 + p[12];
    let l14 = l13 + p[13];
    let l15 = l14 + p[14];
    assert(cat_from(p, 15) == Seq::<u8>::empty());
    assert(cat_from(p, 14) == p[14] + cat_from(p, 15));
    assert(cat_from(p, 13) == p[13] + cat_from(p, 14));
    assert(cat_from(p, 12) == p[12] + cat_from(p, 13));
    assert(cat_from(p, 11) == p[11] + cat_from(p, 12));
    assert(cat_from(p, 10) == p[10] + cat_from(p, 11));
    assert(cat_from(p, 9) == p[9] + cat_from(p, 10));
    assert(cat_from(p, 8) == p[8] + cat_from(p, 9));
    assert(cat_from(p, 7) == p[7] + cat_from(p, 8));
    assert(cat_from(p, 6) == p[6] + cat_from(p, 7));
    assert(cat_from(p, 5) == p[5] + cat_from(p, 6));
    assert(cat_from(p, 4) == p[4] + cat_from(p, 5));
    assert(cat_from(p, 3) == p[3] + cat_from(p, 4));
    assert(cat_from(p, 2) == p[2] + cat_from(p, 3));
    assert(cat_from(p, 1) == p[1] + cat_from(p, 2));
    assert(cat_from(p, 0) == p[0] + cat_from(p, 1));
    assert(l1 + cat_from(p, 1) == cat_from(p, 0));
    assert(l1 + cat_from(p, 1) == l2 + cat_from(p, 2)) by {
        assert((l1 + p[1]) + cat_from(p, 2) =~= l1 + (p[1] + cat_from(p, 2)));
    };
    assert(l2 + cat_from(p, 2) == l3 + cat_from(p, 3)) by {
        assert((l2 + p[2]) + cat_from(p, 3) =~= l2 + (p[2] + cat_from(p, 3)));
    };
    assert(l3 + cat_from(p, 3) == l4 + cat_from(p, 4)) by {
        assert((l3 + p[3]) + cat_from(p, 4) =~= l3 + (p[3] + cat_from(p, 4)));
    };
    assert(l4 + cat_from(p, 4) == l5 + cat_from(p, 5)) by {
        assert((l4 + p[4]) + cat_from(p, 5) =~= l4 + (p[4] + cat_from(p, 5)));
    };
    assert(l5 + cat_from(p, 5) == l6 + cat_from(p, 6)) by {
        assert((l5 + p[5]) + cat_from(p, 6) =~= l5 + (p[5] + cat_from(p, 6)));
    };
    assert(l6 + cat_from(p, 6) == l7 + cat_from(p, 7)) by {
        assert((l6 + p[6]) + cat_from(p, 7) =~= l6 + (p[6] + cat_from(p, 7)));
    };
    assert(l7 + cat_from(p, 7) == l8 + cat_from(p, 8)) by {
        assert((l7 + p[7]) + cat_from(p, 8) =~= l7 + (p[7] + cat_from(p, 8)));
    };
    assert(l8 + cat_from(p, 8) == l9 + cat_from(p, 9)) by {
        assert((l8 + p[8]) + cat_from(p, 9) =~= l8 + (p[8] + cat_from(p, 9)));
    };
    assert(l9 + cat_from(p, 9) == l10 + cat_from(p, 10)) by {
        assert((l9 + p[9]) + cat_from(p, 10) =~= l9 + (p[9] + cat_from(p, 10)));
    };
    assert(l10 + cat_from(p, 10) == l11 + cat_from(p, 11)) by {
        assert((l10 + p[10]) + cat_from(p, 11) =~= l10 + (p[10] + cat_from(p, 11)));
    };
    assert(l11 + cat_from(p, 11) == l12 + cat_from(p, 12)) by {
        assert((l11 + p[11]) + cat_from(p, 12) =~= l11 + (p[11] + cat_from(p, 12)));
    };
    assert(l12 + cat_from(p, 12) == l13 + cat_from(p, 13)) by {
        assert((l12 + p[12]) + cat_from(p, 13) =~= l12 + (p[12] + cat_from(p, 13)));
    };
    assert(l13 + cat_from(p, 13) == l14 + cat_from(p, 14)) by {
        assert((l13 + p[13]) + cat_from(p, 14) =~= l13 + (p[13] + cat_from(p, 14)));
    };
    assert(l14 + cat_from(p, 14) == l15 + cat_from(p, 15)) by {
        assert((l14 + p[14]) + cat_from(p, 15) =~= l14 + (p[14] + cat_from(p, 15)));
    };
    assert(l15 + Seq::<u8>::empty() =~= l15);
    assert(cat_from(p, 0) == l15);
    assert(p[0] == le_bytes(0));
    assert(p[1] == spec_field(spec_packed(ps.tree_bits@)));
    assert(p[2] == spec_field(ps.tree_hashes@));
    assert(p[3] == le_bytes(ps.height));
    assert(p[4] == le_bytes(ps.leaf_count));
    assert(p[5] == spec_field(spec_packed(ps.chunk_bits@)));
    assert(p[6] == le_bytes(ps.chunk_size));
    assert(p[7] == le_bytes(ps.chunk_count));
    assert(p[8] == le_bytes(ps.piece_size));
    assert(p[9] == le_bytes(ps.piece_count));
    assert(p[10] == le_bytes(ps.chunks_in_piece));
    assert(p[11] == spec_field(encode_utf8(ps.name@)));
    assert(p[12] == le_bytes(ps.locations@.len() as u64));
    assert(p[13] == spec_locations_blob(ps.locations@.map_values(|l: String| l@)));
    assert(p[14] == le_bytes(ps.total_size));
    assert(l1 == le_bytes(0));
    assert(l2 == le_bytes(0) + spec_field(spec_packed(ps.tree_bits@)));
    assert(l3 == le_bytes(0) + spec_field(spec_packed(ps.tree_bits@)) + spec_field(ps.tree_hashes@));
    assert(l4 == le_bytes(0) + spec_field(spec_packed(ps.tree_bits@)) + spec_field(ps.tree_hashes@) + le_bytes(ps.height));
    assert(l5 == le_bytes(0) + spec_field(spec_packed(ps.tree_bits@)) + spec_field(ps.tree_hashes@) + le_bytes(ps.height) + le_bytes(ps.leaf_count));
    assert(l6 == le_bytes(0) + spec_field(spec_packed(ps.tree_bits@)) + spec_field(ps.tree_hashes@) + le_bytes(ps.height) + le_bytes(ps.leaf_count) + spec_field(spec_packed(ps.chunk_bits@)));
    assert(l7 == le_bytes(0) + spec_field(spec_packed(ps.tree_bits@)) + spec_field(ps.tree_hashes@) + le_bytes(ps.height) + le_bytes(ps.leaf_count) + spec_field(spec_packed(ps.chunk_bits@)) + le_bytes(ps.chunk_size));
    assert(l8 == le_bytes(0) + spec_field(spec_packed(ps.tree_bits@)) + spec_field(ps.tree_hashes@) + le_bytes(ps.height) + le_bytes(ps.leaf_count) + spec_field(spec_packed(ps.chunk_bits@)) + le_bytes(ps.chunk_size) + le_bytes(ps.chunk_count));
    assert(l9 == le_bytes(0) + spec_field(spec_packed(ps.tree_bits@)) + spec_field(ps.tree_hashes@) + le_bytes(ps.height) + le_bytes(ps.leaf_count) + spec_field(spec_packed(ps.chunk_bits@)) + le_bytes(ps.chunk_size) + le_bytes(ps.chunk_count) + le_bytes(ps.piece_size));
    assert(l10 == le_bytes(0) + spec_field(spec_packed(ps.tree_bits@)) + spec_field(ps.tree_hashes@) + le_bytes(ps.height) + le_bytes(ps.leaf_count) + spec_field(spec_packed(ps.chunk_bits@)) + le_bytes(ps.chunk_size) + le_bytes(ps.chunk_count) + le_bytes(ps.piece_size) + le_bytes(ps.piece_count));
    assert(l11 == le_bytes(0) + spec_field(spec_packed(ps.tree_bits@)) + spec_field(ps.tree_hashes@) + le_bytes(ps.height) + le_bytes(ps.leaf_count) + spec_field(spec_packed(ps.chunk_bits@)) + le_bytes(ps.chunk_size) + le_bytes(ps.chunk_count) + le_bytes(ps.piece_size) + le_bytes(ps.piece_count) + le_bytes(ps.chunks_in_piece));
    assert(l12 == le_bytes(0) + spec_field(spec_packed(ps.tree_bits@)) + spec_field(ps.tree_hashes@) + le_bytes(ps.height) + le_bytes(ps.leaf_count) + spec_field(spec_packed(ps.chunk_bits@)) + le_bytes(ps.chunk_size) + le_bytes(ps.chunk_count) + le_bytes(ps.piece_size) + le_bytes(ps.piece_count) + le_bytes(ps.chunks_in_piece) + spec_field(encode_utf8(ps.name@)));
    assert(l13 == le_bytes(0) + spec_field(spec_packed(ps.tree_bits@)) + spec_field(ps.tree_hashes@) + le_bytes(ps.height) + le_bytes(ps.leaf_count) + spec_field(spec_packed(ps.chunk_bits@)) + le_bytes(ps.chunk_size) + le_bytes(ps.chunk_count) + le_bytes(ps.piece_size) + le_bytes(ps.piece_count) + le_bytes(ps.chunks_in_piece) + spec_field(encode_utf8(ps.name@)) + le_bytes(ps.locations@.len() as u64));
    assert(l14 == le_bytes(0) + spec_field(spec_packed(ps.tree_bits@)) + spec_field(ps.tree_hashes@) + le_bytes(ps.height) + le_bytes(ps.leaf_count) + spec_field(spec_packed(ps.chunk_bits@)) + le_bytes(ps.chunk_size) + le_bytes(ps.chunk_count) + le_bytes(ps.piece_size) + le_bytes(ps.piece_count) + le_bytes(ps.chunks_in_piece) + spec_field(encode_utf8(ps.name@)) + le_bytes(ps.locations@.len() as u64) + spec_locations_blob(ps.locations@.map_values(|l: String| l@)));
    assert(l15 == le_bytes(0) + spec_field(spec_packed(ps.tree_bits@)) + spec_field(ps.tree_hashes@) + le_bytes(ps.height) + le_bytes(ps.leaf_count) + spec_field(spec_packed(ps.chunk_bits@)) + le_bytes(ps.chunk_size) + le_bytes(ps.chunk_count) + le_bytes(ps.piece_size) + le_bytes(ps.piece_count) + le_bytes(ps.chunks_in_piece) + spec_field(encode_utf8(ps.name@)) + le_bytes(ps.locations@.len() as u64) + spec_locations_blob(ps.locations@.map_values(|l: String| l@)) + le_bytes(ps.total_size));
}



/// The fixed leading fields of a blob, their parse positions, and the
/// position just past them.
struct DecodedFixed {
    tbb: Vec<u8>,
    tree_hashes: Vec<u8>,
    height: u64,
    leaf_count: u64,
    cbb: Vec<u8>,
    chunk_size: u64,
    chunk_count: u64,
    piece_size: u64,
    piece_count: u64,
    chunks_in_piece: u64,
    name: String,
    loc_count: u64,
    pos: usize,
    bounds: Ghost<Seq<int>>,
}


/// Read the five chunk-parameter integers in a row. When the walk is on a
/// known blob, they are exactly the persisted parameters.
#[verifier::rlimit(100)]
#[verifier::spinoff_prover]
fn read_counts(bytes: &Vec<u8>, pos: usize, w: Ghost<PersistedState>, active: Ghost<bool>) -> (r:
    Option<(u64, u64, u64, u64, u64, usize)>)
    requires
        active@ ==> pos <= bytes@.len() && bytes@.subrange(pos as int, bytes@.len() as int)
            == cat_from(blob_parts(&w@), 6),
    ensures
        r matches Some(t) ==> pos + 40 == t.5 && t.5 <= bytes@.len() && bytes@.subrange(
            pos as int,
            pos + 8,
        ) == le_bytes(t.0) && bytes@.subrange(pos + 8, pos + 16) == le_bytes(t.1)
            && bytes@.subrange(pos + 16, pos + 24) == le_bytes(t.2) && bytes@.subrange(
            pos + 24,
            pos + 32,
        ) == le_bytes(t.3) && bytes@.subrange(pos + 32, pos + 40) == le_bytes(t.4),
        active@ ==> (r matches Some(t) && t.0 == w@.chunk_size && t.1 == w@.chunk_count && t.2
            == w@.piece_size && t.3 == w@.piece_count && t.4 == w@.chunks_in_piece
            && bytes@.subrange(t.5 as int, bytes@.len() as int) == cat_from(blob_parts(&w@), 11)),
{
    let ghost gw = active@;
    let ghost ps0 = w@;
    let ghost p0 = blob_parts(&ps0);
    let ghost end = bytes@.len() as int;
    let q6 = pos;

    let (chunk_size, q7) = match read_u64(bytes, q6) {
        Some(p) => p,
        None => {
            proof {
                if gw {
                    assert(cat_from(p0, 6) == p0[6] + cat_from(p0, 7));
                    assert(p0[6] == le_bytes(ps0.chunk_size));
                    lemma_take_part(bytes@, q6 as int, le_bytes(ps0.chunk_size), cat_from(p0, 7));
                    assert(false);
                }
            }
            return None;
        },
    };
    proof {
        if gw {
            assert(cat_from(p0, 6) == p0[6] + cat_from(p0, 7));
            assert(p0[6] == le_bytes(ps0.chunk_size));
            lemma_take_part(bytes@, q6 as int, le_bytes(ps0.chunk_size), cat_from(p0, 7));
            assert(le_bytes(chunk_size) == bytes@.subrange(q6 as int, q6 as int + 8));
            lemma_le_round_trip(chunk_size, ps0.chunk_size);
            assert(chunk_size == ps0.chunk_size && q7 == q6 + 8);
            assert(bytes@.subrange(q7 as int, end) == cat_from(p0, 7));
        }
    }

    let (chunk_count, q8) = match read_u64(bytes, q7) {
        Some(p) => p,
        None => {
            proof {
                if gw {
                    assert(cat_from(p0, 7) == p0[7] + cat_from(p0, 8));
                    assert(p0[7] == le_bytes(ps0.chunk_count));
                    lemma_take_part(bytes@, q7 as int, le_bytes(ps0.chunk_count), cat_from(p0, 8));
                    assert(false);
                }
            }
            return None;
        },
    };
    proof {
        if gw {
            assert(cat_from(p0, 7) == p0[7] + cat_from(p0, 8));
            assert(p0[7] == le_bytes(ps0.chunk_count));
            lemma_take_part(bytes@, q7 as int, le_bytes(ps0.chunk_count), cat_from(p0, 8));
            assert(le_bytes(chunk_count) == bytes@.subrange(q7 as int, q7 as int + 8));
            lemma_le_round_trip(chunk_count, ps0.chunk_count);
            assert(chunk_count == ps0.chunk_count && q8 == q7 + 8);
            assert(bytes@.subrange(q8 as int, end) == cat_from(p0, 8));
        }
    }

    let (piece_size, q9) = match read_u64(bytes, q8) {
        Some(p) => p,
        None => {
            proof {
                if gw {
                    assert(cat_from(p0, 8) == p0[8] + cat_from(p0, 9));
                    assert(p0[8] == le_bytes(ps0.piece_size));
                    lemma_take_part(bytes@, q8 as int, le_bytes(ps0.piece_size), cat_from(p0, 9));
                    assert(false);
                }
            }
            return None;
        },
    };
    proof {
        if gw {
            assert(cat_from(p0, 8) == p0[8] + cat_from(p0, 9));
            assert(p0[8] == le_bytes(ps0.piece_size));
            lemma_take_part(bytes@, q8 as int, le_bytes(ps0.piece_size), cat_from(p0, 9));
            assert(le_bytes(piece_size) == bytes@.subrange(q8 as int, q8 as int + 8));
            lemma_le_round_trip(piece_size, ps0.piece_size);
            assert(piece_size == ps0.piece_size && q9 == q8 + 8);
            assert(bytes@.subrange(q9 as int, end) == cat_from(p0, 9));
        }
    }

    let (piece_count, q10) = match read_u64(bytes, q9) {
        Some(p) => p,
        None => {
            proof {
                if gw {
                    assert(cat_from(p0, 9) == p0[9] + cat_from(p0, 10));
                    assert(p0[9] == le_bytes(ps0.piece_count));
                    lemma_take_part(bytes@, q9 as int, le_bytes(ps0.piece_count), cat_from(p0, 10));
                    assert(false);
                }
            }
            return None;
        },
    };
    proof {
        if gw {
            assert(cat_from(p0, 9) == p0[9] + cat_from(p0, 10));
            assert(p0[9] == le_bytes(ps0.piece_count));
            lemma_take_part(bytes@, q9 as int, le_bytes(ps0.piece_count), cat_from(p0, 10));
            assert(le_bytes(piece_count) == bytes@.subrange(q9 as int, q9 as int + 8));
            lemma_le_round_trip(piece_count, ps0.piece_count);
            assert(piece_count == ps0.piece_count && q10 == q9 + 8);
            assert(bytes@.subrange(q10 as int, end) == cat_from(p0, 10));
        }
    }

    let (chunks_in_piece, q11) = match read_u64(bytes, q10) {
        Some(p) => p,
        None => {
            proof {
                if gw {
                    assert(cat_from(p0, 10) == p0[10] + cat_from(p0, 11));
                    assert(p0[10] == le_bytes(ps0.chunks_in_piece));
                    lemma_take_part(bytes@, q10 as int, le_bytes(ps0.chunks_in_piece), cat_from(p0, 11));
                    assert(false);
                }
            }
            return None;
        },
    };
    proof {
        if gw {
            assert(cat_from(p0, 10) == p0[10] + cat_from(p0, 11));
            assert(p0[10] == le_bytes(ps0.chunks_in_piece));
            lemma_take_part(bytes@, q10 as int, le_bytes(ps0.chunks_in_piece), cat_from(p0, 11));
            assert(le_bytes(chunks_in_piece) == bytes@.subrange(q10 as int, q10 as int + 8));
            lemma_le_round_trip(chunks_in_piece, ps0.chunks_in_piece);
            assert(chunks_in_piece == ps0.chunks_in_piece && q11 == q10 + 8);
            assert(bytes@.subrange(q11 as int, end) == cat_from(p0, 11));
        }
    }

    Some((chunk_size, chunk_count, piece_size, piece_count, chunks_in_piece, q11))
}


/// Read the version tag and the two leading byte fields. On a known blob
/// they are the packed tree bitmap and the hash buffer.
#[verifier::rlimit(100)]
#[verifier::spinoff_prover]
fn read_lead(bytes: &Vec<u8>, w: Ghost<PersistedState>, active: Ghost<bool>) -> (r: Option<
    (Vec<u8>, Vec<u8>, usize)
>)
    requires
        active@ ==> bytes@ == spec_blob(&w@),
    ensures
        r matches Some(t) ==> 16 <= 8 + 8 + t.0@.len() <= t.2 && t.2 <= bytes@.len()
            && bytes@.subrange(0, 8) == le_bytes(0) && bytes@.subrange(8, 16 + t.0@.len() as int)
            == spec_field(t.0@) && bytes@.subrange(
            16 + t.0@.len() as int,
            t.2 as int,
        ) == spec_field(t.1@),
        active@ ==> (r matches Some(t) && t.0@ == spec_packed(w@.tree_bits@) && t.1@
            == w@.tree_hashes@ && bytes@.subrange(t.2 as int, bytes@.len() as int) == cat_from(
            blob_parts(&w@),
            3,
        )),
{
    let ghost gw = active@;
    let ghost ps0 = w@;
    let ghost p0 = blob_parts(&ps0);
    let ghost end = bytes@.len() as int;

    proof {
        assert(bytes@.len() <= usize::MAX) by {
            assert(bytes.len() == bytes@.len());
        };
        if gw {
            assert(bytes@ == cat_from(p0, 0));
            assert(bytes@.subrange(0, end) =~= bytes@);
            assert(bytes@.subrange(0, end) == cat_from(p0, 0));
            assert(cat_from(p0, 0) == p0[0] + cat_from(p0, 1));
            assert(p0[0] == le_bytes(0));
            lemma_take_part(bytes@, 0, le_bytes(0), cat_from(p0, 1));
        }
    }

    let (tag, q1) = match read_u64(bytes, 0) {
        Some(p) => p,
        None => {
            proof {
                if gw {
                    assert(false);
                }
            }
            return None;
        },
    };
    proof {
        if gw {
            assert(le_bytes(tag) == bytes@.subrange(0, 8));
            lemma_le_round_trip(tag, 0);
            assert(q1 == 8 && bytes@.subrange(8, end) == cat_from(p0, 1));
        }
    }
    if tag != 0 {
        proof {
            if gw {
                assert(false);
            }
        }
        return None;
    }

    let (tbb, q2) = match read_field(
        bytes,
        q1,
        Ghost(
            if gw {
                Some(spec_packed(ps0.tree_bits@))
            } else {
                None
            },
        ),
    ) {
        Some(p) => p,
        None => {
            proof {
                if gw {
                    assert(cat_from(p0, 1) == p0[1] + cat_from(p0, 2));
                    assert(p0[1] == spec_field(spec_packed(ps0.tree_bits@)));
                    lemma_take_part(
                        bytes@,
                        q1 as int,
                        spec_field(spec_packed(ps0.tree_bits@)),
                        cat_from(p0, 2),
                    );
                    assert(bytes@.subrange(q1 as int, q1 as int + 8 + spec_packed(
                        ps0.tree_bits@,
                    ).len()) == spec_field(spec_packed(ps0.tree_bits@)));
                    assert(false);
                }
            }
            return None;
        },
    };
    proof {
        if gw {
            assert(cat_from(p0, 1) == p0[1] + cat_from(p0, 2));
            assert(p0[1] == spec_field(spec_packed(ps0.tree_bits@)));
            lemma_take_part(
                bytes@,
                q1 as int,
                spec_field(spec_packed(ps0.tree_bits@)),
                cat_from(p0, 2),
            );
            assert(bytes@.subrange(q1 as int, q1 as int + 8 + spec_packed(ps0.tree_bits@).len())
                == spec_field(spec_packed(ps0.tree_bits@)));
            assert(tbb@ == spec_packed(ps0.tree_bits@) && q2 == q1 + 8 + spec_packed(
                ps0.tree_bits@,
            ).len());
            assert(bytes@.subrange(q2 as int, end) == cat_from(p0, 2));
        }
    }

    let (tree_hashes, q3) = match read_field(
        bytes,
        q2,
        Ghost(
            if gw {
                Some(ps0.tree_hashes@)
            } else {
                None
            },
        ),
    ) {
        Some(p) => p,
        None => {
            proof {
                if gw {
                    assert(cat_from(p0, 2) == p0[2] + cat_from(p0, 3));
                    assert(p0[2] == spec_field(ps0.tree_hashes@));
                    lemma_take_part(bytes@, q2 as int, spec_field(ps0.tree_hashes@), cat_from(p0, 3));
                    assert(bytes@.subrange(q2 as int, q2 as int + 8 + ps0.tree_hashes@.len())
                        == spec_field(ps0.tree_hashes@));
                    assert(false);
                }
            }
            return None;
        },
    };
    proof {
        if gw {
            assert(cat_from(p0, 2) == p0[2] + cat_from(p0, 3));
            assert(p0[2] == spec_field(ps0.tree_hashes@));
            lemma_take_part(bytes@, q2 as int, spec_field(ps0.tree_hashes@), cat_from(p0, 3));
            assert(bytes@.subrange(q2 as int, q2 as int + 8 + ps0.tree_hashes@.len())
                == spec_field(ps0.tree_hashes@));
            assert(tree_hashes@ == ps0.tree_hashes@ && q3 == q2 + 8 + ps0.tree_hashes@.len());
            assert(bytes@.subrange(q3 as int, end) == cat_from(p0, 3));
        }
    }

    Some((tbb, tree_hashes, q3))
}

/// Parse the fixed leading fields of a blob: faithful to the bytes read,
/// and complete for every blob some state within machine bounds encodes.
#[verifier::rlimit(100)]
#[verifier::spinoff_prover]
fn read_fixed(bytes: &Vec<u8>, w: Ghost<PersistedState>) -> (r: Option<DecodedFixed>)
    ensures
        r matches Some(h) ==> ({
            let q = h.bounds@;
            &&& q.len() == 13
            &&& 0 <= q[0] <= q[1] <= q[2] <= q[3] <= q[4] <= q[5] <= q[6] <= q[7] <= q[8] <= q[9]
                <= q[10] <= q[11] <= q[12] <= bytes@.len()
            &&& q[12] == h.pos
            &&& bytes@.subrange(0, q[0]) == le_bytes(0)
            &&& bytes@.subrange(q[0], q[1]) == spec_field(h.tbb@)
            &&& bytes@.subrange(q[1], q[2]) == spec_field(h.tree_hashes@)
            &&& bytes@.subrange(q[2], q[3]) == le_bytes(h.height)
            &&& bytes@.subrange(q[3], q[4]) == le_bytes(h.leaf_count)
            &&& bytes@.subrange(q[4], q[5]) == spec_field(h.cbb@)
            &&& bytes@.subrange(q[5], q[6]) == le_bytes(h.chunk_size)
            &&& bytes@.subrange(q[6], q[7]) == le_bytes(h.chunk_count)
            &&& bytes@.subrange(q[7], q[8]) == le_bytes(h.piece_size)
            &&& bytes@.subrange(q[8], q[9]) == le_bytes(h.piece_count)
            &&& bytes@.subrange(q[9], q[10]) == le_bytes(h.chunks_in_piece)
            &&& bytes@.subrange(q[10], q[11]) == spec_field(encode_utf8(h.name@))
            &&& bytes@.subrange(q[11], q[12]) == le_bytes(h.loc_count)
            &&& h.tbb@.len() <= usize::MAX / 8
            &&& h.cbb@.len() <= usize::MAX / 8
        }),
        spec_blob_bounds(&w@) && bytes@ == spec_blob(&w@) ==> (r matches Some(h) && h.tbb@
            == spec_packed(w@.tree_bits@) && h.tree_hashes@ == w@.tree_hashes@ && h.height
            == w@.height && h.leaf_count == w@.leaf_count && h.cbb@ == spec_packed(w@.chunk_bits@)
            && h.chunk_size == w@.chunk_size && h.chunk_count == w@.chunk_count && h.piece_size
            == w@.piece_size && h.piece_count == w@.piece_count && h.chunks_in_piece
            == w@.chunks_in_piece && h.name@ == w@.name@ && h.loc_count
            == w@.locations@.len() as u64 && bytes@.subrange(h.pos as int, bytes@.len() as int)
            == spec_locations_blob(w@.locations@.map_values(|l: String| l@)) + le_bytes(
            w@.total_size,
        )),
{
    let ghost gw = spec_blob_bounds(&w@) && bytes@ == spec_blob(&w@);
    let ghost ps0 = w@;
    let ghost lv0 = ps0.locations@.map_values(|l: String| l@);
    let ghost p0 = blob_parts(&ps0);
    let ghost end = bytes@.len() as int;

    let (tbb, tree_hashes, q3) = match read_lead(bytes, w, Ghost(gw)) {
        Some(t) => t,
        None => {
            proof {
                if gw {
                    assert(false);
                }
            }
            return None;
        },
    };
    let ghost q1 = 8int;
    let ghost q2 = 16 + tbb@.len() as int;
    proof {
        assert(bytes@.len() <= usize::MAX) by {
            assert(bytes.len() == bytes@.len());
        };
        if gw {
            assert(bytes@.subrange(q3 as int, end) == cat_from(p0, 3));
        }
    }
    if tbb.len() > usize::MAX / 8 {
        proof {
            if gw {
                assert(spec_packed(ps0.tree_bits@).len() <= usize::MAX / 8);
                assert(false);
            }
        }
        return None;
    }

    let (height, q4) = match read_u64(bytes, q3) {
        Some(p) => p,
        None => {
            proof {
                if gw {
                    assert(cat_from(p0, 3) == p0[3] + cat_from(p0, 4));
                    assert(p0[3] == le_bytes(ps0.height));
                    lemma_take_part(bytes@, q3 as int, le_bytes(ps0.height), cat_from(p0, 4));
                    assert(false);
                }
            }
            return None;
        },
    };
    proof {
        if gw {
            assert(cat_from(p0, 3) == p0[3] + cat_from(p0, 4));
            assert(p0[3] == le_bytes(ps0.height));
            lemma_take_part(bytes@, q3 as int, le_bytes(ps0.height), cat_from(p0, 4));
            assert(le_bytes(height) == bytes@.subrange(q3 as int, q3 as int + 8));
            lemma_le_round_trip(height, ps0.height);
            assert(height == ps0.height && q4 == q3 + 8);
            assert(bytes@.subrange(q4 as int, end) == cat_from(p0, 4));
        }
    }

    let (leaf_count, q5) = match read_u64(bytes, q4) {
        Some(p) => p,
        None => {
            proof {
                if gw {
                    assert(cat_from(p0, 4) == p0[4] + cat_from(p0, 5));
                    assert(p0[4] == le_bytes(ps0.leaf_count));
                    lemma_take_part(bytes@, q4 as int, le_bytes(ps0.leaf_count), cat_from(p0, 5));
                    assert(false);
                }
            }
            return None;
        },
    };
    proof {
        if gw {
            assert(cat_from(p0, 4) == p0[4] + cat_from(p0, 5));
            assert(p0[4] == le_bytes(ps0.leaf_count));
            lemma_take_part(bytes@, q4 as int, le_bytes(ps0.leaf_count), cat_from(p0, 5));
            assert(le_bytes(leaf_count) == bytes@.subrange(q4 as int, q4 as int + 8));
            lemma_le_round_trip(leaf_count, ps0.leaf_count);
            assert(leaf_count == ps0.leaf_count && q5 == q4 + 8);
            assert(bytes@.subrange(q5 as int, end) == cat_from(p0, 5));
        }
    }

    let (cbb, q6) = match read_field(
        bytes,
        q5,
        Ghost(
            if gw {
                Some(spec_packed(ps0.chunk_bits@))
            } else {
                None
            },
        ),
    ) {
        Some(p) => p,
        None => {
            proof {
                if gw {
                    assert(cat_from(p0, 5) == p0[5] + cat_from(p0, 6));
                    assert(p0[5] == spec_field(spec_packed(ps0.chunk_bits@)));
                    lemma_take_part(bytes@, q5 as int, spec_field(spec_packed(ps0.chunk_bits@)), cat_from(p0, 6));
                    assert(bytes@.subrange(q5 as int, q5 as int + 8 + spec_packed(ps0.chunk_bits@).len()) == spec_field(spec_packed(ps0.chunk_bits@)));
                    assert(false);
                }
            }
            return None;
        },
    };
    proof {
        if gw {
            assert(cat_from(p0, 5) == p0[5] + cat_from(p0, 6));
            assert(p0[5] == spec_field(spec_packed(ps0.chunk_bits@)));
            lemma_take_part(bytes@, q5 as int, spec_field(spec_packed(ps0.chunk_bits@)), cat_from(p0, 6));
            assert(bytes@.subrange(q5 as int, q5 as int + 8 + spec_packed(ps0.chunk_bits@).len()) == spec_field(spec_packed(ps0.chunk_bits@)));
            assert(cbb@ == spec_packed(ps0.chunk_bits@) && q6 == q5 + 8 + spec_packed(ps0.chunk_bits@).len());
            assert(bytes@.subrange(q6 as int, end) == cat_from(p0, 6));
        }
    }
    if cbb.len() > usize::MAX / 8 {
        proof {
            if gw {
                assert(spec_packed(ps0.chunk_bits@).len() <= usize::MAX / 8);
                assert(false);
            }
        }
        return None;
    }

    let (chunk_size, chunk_count, piece_size, piece_count, chunks_in_piece, q11) = match
        read_counts(bytes, q6, w, Ghost(gw)) {
        Some(t) => t,
        None => {
            proof {
                if gw {
                    assert(false);
                }
            }
            return None;
        },
    };
    let ghost q7 = q6 + 8;
    let ghost q8 = q7 + 8;
    let ghost q9 = q8 + 8;
    let ghost q10 = q9 + 8;
    proof {
        if gw {
            assert(bytes@.subrange(q11 as int, end) == cat_from(p0, 11));
        }
    }

    let (name, q12) = match read_string(
        bytes,
        q11,
        Ghost(
            if gw {
                Some(ps0.name@)
            } else {
                None
            },
        ),
    ) {
        Some(p) => p,
        None => {
            proof {
                if gw {
                    assert(cat_from(p0, 11) == p0[11] + cat_from(p0, 12));
                    assert(p0[11] == spec_field(encode_utf8(ps0.name@)));
                    lemma_take_part(bytes@, q11 as int, spec_field(encode_utf8(ps0.name@)), cat_from(p0, 12));
                    assert(bytes@.subrange(q11 as int, q11 as int + 8 + encode_utf8(ps0.name@).len())
                        == spec_field(encode_utf8(ps0.name@)));
                    assert(false);
                }
            }
            return None;
        },
    };
    proof {
        if gw {
            assert(cat_from(p0, 11) == p0[11] + cat_from(p0, 12));
            assert(p0[11] == spec_field(encode_utf8(ps0.name@)));
            lemma_take_part(bytes@, q11 as int, spec_field(encode_utf8(ps0.name@)), cat_from(p0, 12));
            assert(bytes@.subrange(q11 as int, q11 as int + 8 + encode_utf8(ps0.name@).len())
                == spec_field(encode_utf8(ps0.name@)));
            assert(name@ == ps0.name@ && q12 == q11 + 8 + encode_utf8(ps0.name@).len());
            assert(bytes@.subrange(q12 as int, end) == cat_from(p0, 12));
        }
    }

    let (loc_count, q13) = match read_u64(bytes, q12) {
        Some(p) => p,
        None => {
            proof {
                if gw {
                    assert(cat_from(p0, 12) == p0[12] + cat_from(p0, 13));
                    assert(p0[12] == le_bytes(lv0.len() as u64));
                    lemma_take_part(bytes@, q12 as int, le_bytes(lv0.len() as u64), cat_from(p0, 13));
                    assert(false);
                }
            }
            return None;
        },
    };
    proof {
        if gw {
            assert(cat_from(p0, 12) == p0[12] + cat_from(p0, 13));
            assert(p0[12] == le_bytes(lv0.len() as u64));
            lemma_take_part(bytes@, q12 as int, le_bytes(lv0.len() as u64), cat_from(p0, 13));
            assert(le_bytes(loc_count) == bytes@.subrange(q12 as int, q12 as int + 8));
            lemma_le_round_trip(loc_count, lv0.len() as u64);
            assert(loc_count == lv0.len() as u64 && q13 == q12 + 8);
            assert(bytes@.subrange(q13 as int, end) == cat_from(p0, 13));
        }
    }

    proof {
        if gw {
            assert(cat_from(p0, 13) == p0[13] + cat_from(p0, 14));
            assert(cat_from(p0, 14) == p0[14] + cat_from(p0, 15));
            assert(cat_from(p0, 15) == Seq::<u8>::empty());
            assert(p0[14] + Seq::<u8>::empty() =~= p0[14]);
            assert(cat_from(p0, 13) == p0[13] + p0[14]);
        }
    }
    let ghost qs: Seq<int> = Seq::new(
        13,
        |i: int|
            if i == 0 {
                q1 as int
            } else if i == 1 {
                q2 as int
            } else if i == 2 {
                q3 as int
            } else if i == 3 {
                q4 as int
            } else if i == 4 {
                q5 as int
            } else if i == 5 {
                q6 as int
            } else if i == 6 {
                q7 as int
            } else if i == 7 {
                q8 as int
            } else if i == 8 {
                q9 as int
            } else if i == 9 {
                q10 as int
            } else if i == 10 {
                q11 as int
            } else if i == 11 {
                q12 as int
            } else {
                q13 as int
            },
    );
    Some(
        DecodedFixed {
            tbb,
            tree_hashes,
            height,
            leaf_count,
            cbb,
            chunk_size,
            chunk_count,
            piece_size,
            piece_count,
            chunks_in_piece,
            name,
            loc_count,
            pos: q13,
            bounds: Ghost(qs),
        },
    )
}

/// Parse a binary blob back into a persisted state. A returned state's
/// blob is exactly the input; and every blob that some state within machine
/// bounds encodes to is accepted, so decoding is a two-sided inverse of the
/// format.
#[verifier::rlimit(100)]
#[verifier::spinoff_prover]
pub fn decode_state(bytes: &Vec<u8>) -> (r: Option<PersistedState>)
    ensures
        r matches Some(ps) ==> bytes@ == spec_blob(&ps),
        forall|ps: PersistedState|
            spec_blob_bounds(&ps) && bytes@ == #[trigger] spec_blob(&ps) ==> r is Some,
{
    let ghost gw = exists|ps: PersistedState|
        spec_blob_bounds(&ps) && bytes@ == #[trigger] spec_blob(&ps);
    let ghost ps0 = choose|ps: PersistedState|
        spec_blob_bounds(&ps) && bytes@ == #[trigger] spec_blob(&ps);
    let ghost lv0 = ps0.locations@.map_values(|l: String| l@);
    let ghost end = bytes@.len() as int;

    let h = match read_fixed(bytes, Ghost(ps0)) {
        Some(h) => h,
        None => {
            proof {
                if gw {
                    assert(false);
                }
            }
            return None;
        },
    };
    let tree_bits = unpack_all(&h.tbb);
    let chunk_bits = unpack_all(&h.cbb);

    proof {
        if gw {
            assert(lv0.skip(0) =~= lv0);
            assert(bytes@.subrange(h.pos as int, end) == spec_locations_blob(lv0.skip(0))
                + le_bytes(ps0.total_size));
            assert(ps0.locations@.len() <= usize::MAX) by {
                assert(ps0.locations.len() == ps0.locations@.len());
            };
        }
    }
    if h.loc_count > usize::MAX as u64 {
        proof {
            if gw {
                assert(false);
            }
        }
        return None;
    }

    let mut locations: Vec<String> = Vec::new();
    let mut pos = h.pos;
    let ghost loc_start = pos as int;
    let mut i: usize = 0;
    let n = h.loc_count as usize;
    while i < n
        invariant
            i <= n,
            locations@.len() == i,
            0 <= loc_start,
            loc_start <= pos <= bytes@.len(),
            end == bytes@.len(),
            bytes@.subrange(loc_start, pos as int) =~= spec_locations_blob(
                locations@.map_values(|l: String| l@),
            ),
            gw == (exists|ps: PersistedState|
                spec_blob_bounds(&ps) && bytes@ == #[trigger] spec_blob(&ps)),
            gw ==> n == lv0.len(),
            gw ==> bytes@.subrange(pos as int, end) == spec_locations_blob(lv0.skip(i as int))
                + le_bytes(ps0.total_size),
        decreases n - i,
    {
        let ghost old_pos = pos as int;
        let ghost old_lv = locations@.map_values(|l: String| l@);
        proof {
            if gw {
                let rest = lv0.skip(i as int);
                lemma_locations_blob_first(rest);
                assert(rest.first() == lv0[i as int]);
                assert(spec_locations_blob(rest) + le_bytes(ps0.total_size) =~= spec_field(
                    encode_utf8(lv0[i as int]),
                ) + (spec_locations_blob(rest.drop_first()) + le_bytes(ps0.total_size)));
                lemma_take_part(
                    bytes@,
                    pos as int,
                    spec_field(encode_utf8(lv0[i as int])),
                    spec_locations_blob(rest.drop_first()) + le_bytes(ps0.total_size),
                );
                assert(bytes@.subrange(pos as int, pos as int + 8 + encode_utf8(
                    lv0[i as int],
                ).len()) == spec_field(encode_utf8(lv0[i as int])));
            }
        }
        let (loc, pos2) = match read_string(
            bytes,
            pos,
            Ghost(
                if gw {
                    Some(lv0[i as int])
                } else {
                    None
                },
            ),
        ) {
            Some(p) => p,
            None => {
                proof {
                    if gw {
                        assert(false);
                    }
                }
                return None;
            },
        };
        locations.push(loc);
        proof {
            let lv = locations@.map_values(|l: String| l@);
            assert(lv.drop_last() =~= old_lv);
            assert(lv.last() == loc@);
            assert(loc_start <= old_pos <= pos2 <= bytes@.len());
            lemma_subrange_split(bytes@, loc_start, old_pos, pos2 as int);
            assert(bytes@.subrange(loc_start, pos2 as int) =~= spec_locations_blob(lv));
            if gw {
                assert(loc@ == lv0[i as int] && pos2 == old_pos + 8 + encode_utf8(
                    lv0[i as int],
                ).len());
                assert(lv0.skip(i as int).drop_first() =~= lv0.skip(i + 1));
                assert(bytes@.subrange(pos2 as int, end) == spec_locations_blob(lv0.skip(i + 1))
                    + le_bytes(ps0.total_size));
            }
        }
        pos = pos2;
        i = i + 1;
    }

    proof {
        if gw {
            assert(lv0.skip(n as int) =~= Seq::<Seq<char>>::empty());
            assert(spec_locations_blob(Seq::<Seq<char>>::empty()) == Seq::<u8>::empty());
            assert(bytes@.subrange(pos as int, end) =~= le_bytes(ps0.total_size) + Seq::<
                u8,
            >::empty());
            lemma_take_part(bytes@, pos as int, le_bytes(ps0.total_size), Seq::<u8>::empty());
        }
    }
    let (total_size, pend) = match read_u64(bytes, pos) {
        Some(p) => p,
        None => {
            proof {
                if gw {
                    assert(false);
                }
            }
            return None;
        },
    };
    proof {
        if gw {
            assert(le_bytes(total_size) == bytes@.subrange(pos as int, pos as int + 8));
            lemma_le_round_trip(total_size, ps0.total_size);
            assert(pend == bytes@.len());
        }
    }
    if pend != bytes.len() {
        proof {
            if gw {
                assert(false);
            }
        }
        return None;
    }

    let ghost tbb_view = h.tbb@;
    let ghost cbb_view = h.cbb@;
    let ps = PersistedState {
        tree_bits,
        tree_hashes: h.tree_hashes,
        height: h.height,
        leaf_count: h.leaf_count,
        chunk_bits,
        chunk_size: h.chunk_size,
        chunk_count: h.chunk_count,
        piece_size: h.piece_size,
        piece_count: h.piece_count,
        chunks_in_piece: h.chunks_in_piece,
        name: h.name,
        locations,
        total_size,
    };
    proof {
        let q = h.bounds@;
        assert(spec_packed(ps.tree_bits@) == tbb_view);
        assert(spec_packed(ps.chunk_bits@) == cbb_view);
        assert(bytes@.subrange(loc_start, pos as int) =~= spec_locations_blob(
            ps.locations@.map_values(|l: String| l@),
        ));
        assert(bytes@.subrange(pos as int, end) =~= le_bytes(total_size));
        assert(ps.locations@.len() as u64 == h.loc_count);
        lemma_assemble_blob(
            bytes@,
            &ps,
            q[0],
            q[1],
            q[2],
            q[3],
            q[4],
            q[5],
            q[6],
            q[7],
            q[8],
            q[9],
            q[10],
            q[11],
            q[12],
            pos as int,
        );
    }
    Some(ps)
}

/// One assembly step: a part followed by the concatenation of the later
/// parts is the concatenation from that part on.
proof fn lemma_cat_step(bytes: Seq<u8>, p: Seq<Seq<u8>>, k: int, qa: int, qb: int)
    requires
        0 <= k < p.len(),
        0 <= qa <= qb <= bytes.len(),
        bytes.subrange(qa, qb) == p[k],
        bytes.subrange(qb, bytes.len() as int) == cat_from(p, k + 1),
    ensures
        bytes.subrange(qa, bytes.len() as int) == cat_from(p, k),
{
    lemma_subrange_split(bytes, qa, qb, bytes.len() as int);
}

/// Bytes whose consecutive ranges hold each part of a state's blob are that
/// blob.
#[verifier::rlimit(100)]
#[verifier::spinoff_prover]
proof fn lemma_assemble_blob(
    bytes: Seq<u8>,
    ps: &PersistedState,
    q1: int,
    q2: int,
    q3: int,
    q4: int,
    q5: int,
    q6: int,
    q7: int,
    q8: int,
    q9: int,
    q10: int,
    q11: int,
    q12: int,
    q13: int,
    q14: int,
)
    requires
        0 <= q1 <= q2 <= q3 <= q4 <= q5 <= q6 <= q7 <= q8 <= q9 <= q10 <= q11 <= q12 <= q13 <= q14
            <= bytes.len(),
        bytes.subrange(0, q1) == le_bytes(0),
        bytes.subrange(q1, q2) == spec_field(spec_packed(ps.tree_bits@)),
        bytes.subrange(q2, q3) == spec_field(ps.tree_hashes@),
        bytes.subrange(q3, q4) == le_bytes(ps.height),
        bytes.subrange(q4, q5) == le_bytes(ps.leaf_count),
        bytes.subrange(q5, q6) == spec_field(spec_packed(ps.chunk_bits@)),
        bytes.subrange(q6, q7) == le_bytes(ps.chunk_size),
        bytes.subrange(q7, q8) == le_bytes(ps.chunk_count),
        bytes.subrange(q8, q9) == le_bytes(ps.piece_size),
        bytes.subrange(q9, q10) == le_bytes(ps.piece_count),
        bytes.subrange(q10, q11) == le_bytes(ps.chunks_in_piece),
        bytes.subrange(q11, q12) == spec_field(encode_utf8(ps.name@)),
        bytes.subrange(q12, q13) == le_bytes(ps.locations@.len() as u64),
        bytes.subrange(q13, q14) == spec_locations_blob(
            ps.locations@.map_values(|l: String| l@),
        ),
        bytes.subrange(q14, bytes.len() as int) == le_bytes(ps.total_size),
    ensures
        bytes == spec_blob(ps),
{
    let p = blob_parts(ps);
    let end = bytes.len() as int;
    assert(cat_from(p, 15) == Seq::<u8>::empty());
    assert(le_bytes(ps.total_size) + Seq::<u8>::empty() =~= le_bytes(ps.total_size));
    assert(p[14] == le_bytes(ps.total_size));
    assert(cat_from(p, 14) == p[14] + cat_from(p, 15));
    assert(bytes.subrange(q14, end) == cat_from(p, 14));
    assert(p[13] == spec_locations_blob(ps.locations@.map_values(|l: String| l@)));
    lemma_cat_step(bytes, p, 13, q13, q14);
    assert(p[12] == le_bytes(ps.locations@.len() as u64));
    lemma_cat_step(bytes, p, 12, q12, q13);
    assert(p[11] == spec_field(encode_utf8(ps.name@)));
    lemma_cat_step(bytes, p, 11, q11, q12);
    assert(p[10] == le_bytes(ps.chunks_in_piece));
    lemma_cat_step(bytes, p, 10, q10, q11);
    assert(p[9] == le_bytes(ps.piece_count));
    lemma_cat_step(bytes, p, 9, q9, q10);
    assert(p[8] == le_bytes(ps.piece_size));
    lemma_cat_step(bytes, p, 8, q8, q9);
    assert(p[7] == le_bytes(ps.chunk_count));
    lemma_cat_step(bytes, p, 7, q7, q8);
    assert(p[6] == le_bytes(ps.chunk_size));
    lemma_cat_step(bytes, p, 6, q6, q7);
    assert(p[5] == spec_field(spec_packed(ps.chunk_bits@)));
    lemma_cat_step(bytes, p, 5, q5, q6);
    assert(p[4] == le_bytes(ps.leaf_count));
    lemma_cat_step(bytes, p, 4, q4, q5);
    assert(p[3] == le_bytes(ps.height));
    lemma_cat_step(bytes, p, 3, q3, q4);
    assert(p[2] == spec_field(ps.tree_hashes@));
    lemma_cat_step(bytes, p, 2, q2, q3);
    assert(p[1] == spec_field(spec_packed(ps.tree_bits@)));
    lemma_cat_step(bytes, p, 1, q1, q2);
    assert(p[0] == le_bytes(0));
    lemma_cat_step(bytes, p, 0, 0, q1);
    assert(bytes.subrange(0, end) =~= bytes);
    assert(bytes == spec_blob(ps));
}

} // verus!
