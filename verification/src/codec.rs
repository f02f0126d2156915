//! The crate's byte encoding: what a value looks like when it is signed or
//! sent. Every encoder is paired with a spec function giving the exact bytes,
//! and decoders are proved to follow their spec decoders, which invert the
//! encoding.

use vstd::prelude::*;

verus! {

/// The eight bytes of `x`, least significant first.
pub open spec fn enc_u64(x: u64) -> Seq<u8> {
    Seq::new(8, |i: int| (x >> ((8 * i) as u64)) as u8)
}

/// Reads eight bytes, least significant first, from `s` at `pos`.
pub open spec fn dec_u64(s: Seq<u8>, pos: int) -> Option<(u64, int)> {
    if 0 <= pos && pos + 8 <= s.len() {
        let x = (s[pos] as u64) | ((s[pos + 1] as u64) << 8u64) | ((s[pos + 2] as u64) << 16u64)
            | ((s[pos + 3] as u64) << 24u64) | ((s[pos + 4] as u64) << 32u64) | ((s[pos + 5] as u64)
            << 40u64) | ((s[pos + 6] as u64) << 48u64) | ((s[pos + 7] as u64) << 56u64);
        Some((x, pos + 8))
    } else {
        None
    }
}

/// Recomposing the eight bytes of a value gives the value back.
pub proof fn lemma_u64_roundtrip(x: u64)
    ensures
        ((x as u8) as u64) | (((x >> 8u64) as u8) as u64) << 8u64 | (((x >> 16u64) as u8) as u64)
            << 16u64 | (((x >> 24u64) as u8) as u64) << 24u64 | (((x >> 32u64) as u8) as u64)
            << 32u64 | (((x >> 40u64) as u8) as u64) << 40u64 | (((x >> 48u64) as u8) as u64)
            << 48u64 | (((x >> 56u64) as u8) as u64) << 56u64 == x,
{
    assert(((x as u8) as u64) | (((x >> 8u64) as u8) as u64) << 8u64 | (((x >> 16u64) as u8)
        as u64) << 16u64 | (((x >> 24u64) as u8) as u64) << 24u64 | (((x >> 32u64) as u8) as u64)
        << 32u64 | (((x >> 40u64) as u8) as u64) << 40u64 | (((x >> 48u64) as u8) as u64) << 48u64
        | (((x >> 56u64) as u8) as u64) << 56u64 == x) by (bit_vector);
}

/// Decoding an encoded value embedded in a longer string gives the value
/// back and stops right after it.
pub proof fn lemma_dec_u64(s: Seq<u8>, pos: int, x: u64)
    requires
        0 <= pos,
        pos + 8 <= s.len(),
        s.subrange(pos, pos + 8) == enc_u64(x),
    ensures
        dec_u64(s, pos) == Some((x, pos + 8)),
{
    let e = enc_u64(x);
    assert forall|i: int| 0 <= i < 8 implies #[trigger] s[pos + i] == e[i] by {
        assert(s.subrange(pos, pos + 8)[i] == s[pos + i]);
    }
    assert(s[pos] == e[0]) by {
        assert(s.subrange(pos, pos + 8)[0] == s[pos + 0]);
    }
    assert(x >> 0u64 == x) by (bit_vector);
    assert(e[0] == (x as u8));
    assert(e[1] == (x >> 8u64) as u8);
    assert(e[2] == (x >> 16u64) as u8);
    assert(e[3] == (x >> 24u64) as u8);
    assert(e[4] == (x >> 32u64) as u8);
    assert(e[5] == (x >> 40u64) as u8);
    assert(e[6] == (x >> 48u64) as u8);
    assert(e[7] == (x >> 56u64) as u8);
    lemma_u64_roundtrip(x);
}

/// Appends the encoding of `x` to `out`.
pub fn write_u64(out: &mut Vec<u8>, x: u64)
    ensures
        final(out)@ == old(out)@ + enc_u64(x),
{
    let ghost pre = out@;
    let mut i: usize = 0;
    while i < 8
        invariant
            i <= 8,
            out@ == pre + enc_u64(x).subrange(0, i as int),
        decreases 8 - i,
    {
        let s: u64 = (8 * i) as u64;
        out.push((x >> s) as u8);
        assert(pre + enc_u64(x).subrange(0, i as int) + seq![(x >> ((8 * (i as int)) as u64))
            as u8] =~= pre + enc_u64(x).subrange(0, i + 1));
        i = i + 1;
    }
    assert(enc_u64(x).subrange(0, 8) =~= enc_u64(x));
}

/// Reads an encoded value from `buf` at `pos`, following the spec decoder.
pub fn read_u64(buf: &Vec<u8>, pos: usize) -> (r: Option<(u64, usize)>)
    ensures
        match r {
            Some((x, next)) => dec_u64(buf@, pos as int) == Some((x, next as int)),
            None => dec_u64(buf@, pos as int) is None,
        },
{
    if pos <= buf.len() && buf.len() - pos >= 8 {
        let x = (buf[pos] as u64) | ((buf[pos + 1] as u64) << 8u64) | ((buf[pos + 2] as u64)
            << 16u64) | ((buf[pos + 3] as u64) << 24u64) | ((buf[pos + 4] as u64) << 32u64) | ((
        buf[pos + 5] as u64) << 40u64) | ((buf[pos + 6] as u64) << 48u64) | ((buf[pos + 7] as u64)
            << 56u64);
        Some((x, pos + 8))
    } else {
        None
    }
}

/// Whether two byte strings are equal byte for byte.
pub fn bytes_eq(a: &Vec<u8>, b: &Vec<u8>) -> (r: bool)
    ensures
        r <==> a@ == b@,
{
    if a.len() != b.len() {
        assert(a@.len() != b@.len());
        return false;
    }
    let n = a.len();
    let mut i: usize = 0;
    while i < n
        invariant
            i <= n,
            n == a@.len(),
            n == b@.len(),
            forall|k: int| 0 <= k < i ==> a@[k] == b@[k],
        decreases n - i,
    {
        if a[i] != b[i] {
            assert(a@[i as int] != b@[i as int]);
            return false;
        }
        i = i + 1;
    }
    assert(a@ =~= b@);
    true
}

/// A length-prefixed byte string: the length, then the bytes.
pub open spec fn enc_bytes(b: Seq<u8>) -> Seq<u8> {
    enc_u64(b.len() as u64) + b
}

/// Reads a length-prefixed byte string from `s` at `pos`.
pub open spec fn dec_bytes(s: Seq<u8>, pos: int) -> Option<(Seq<u8>, int)> {
    match dec_u64(s, pos) {
        Some((n, p)) => if p + n <= s.len() {
            Some((s.subrange(p, p + n), p + n as int))
        } else {
            None
        },
        None => None,
    }
}

/// Decoding an encoded byte string embedded in a longer string gives the
/// bytes back.
pub proof fn lemma_dec_bytes(s: Seq<u8>, pos: int, b: Seq<u8>)
    requires
        0 <= pos,
        b.len() <= u64::MAX,
        pos + enc_bytes(b).len() <= s.len(),
        s.subrange(pos, pos + enc_bytes(b).len()) == enc_bytes(b),
    ensures
        dec_bytes(s, pos) == Some((b, pos + enc_bytes(b).len())),
{
    let e = enc_bytes(b);
    assert(s.subrange(pos, pos + 8) =~= e.subrange(0, 8));
    assert(e.subrange(0, 8) =~= enc_u64(b.len() as u64));
    lemma_dec_u64(s, pos, b.len() as u64);
    assert(s.subrange(pos + 8, pos + 8 + b.len() as int) =~= e.subrange(8, 8 + b.len() as int));
    assert(e.subrange(8, 8 + b.len() as int) =~= b);
}

/// Appends the encoding of `b` to `out`.
pub fn write_bytes(out: &mut Vec<u8>, b: &Vec<u8>)
    ensures
        final(out)@ == old(out)@ + enc_bytes(b@),
{
    let ghost pre = out@;
    write_u64(out, b.len() as u64);
    let mut i: usize = 0;
    while i < b.len()
        invariant
            i <= b@.len(),
            out@ == pre + enc_u64(b@.len() as u64) + b@.subrange(0, i as int),
        decreases b.len() - i,
    {
        out.push(b[i]);
        assert(pre + enc_u64(b@.len() as u64) + b@.subrange(0, i as int) + seq![b@[i as int]] =~=
            pre + enc_u64(b@.len() as u64) + b@.subrange(0, i + 1));
        i = i + 1;
    }
    assert(pre + enc_u64(b@.len() as u64) + b@.subrange(0, b@.len() as int) =~= pre + enc_bytes(
        b@,
    ));
}

/// Reads a length-prefixed byte string from `buf` at `pos`, following the
/// spec decoder.
pub fn read_bytes(buf: &Vec<u8>, pos: usize) -> (r: Option<(Vec<u8>, usize)>)
    ensures
        match r {
            Some((b, next)) => dec_bytes(buf@, pos as int) == Some((b@, next as int)),
            None => dec_bytes(buf@, pos as int) is None,
        },
{
    let total = buf.len();
    match read_u64(buf, pos) {
        Some((n, p)) => {
            if n <= (total - p) as u64 {
                let len = n as usize;
                let mut b: Vec<u8> = Vec::new();
                let mut i: usize = 0;
                while i < len
                    invariant
                        i <= len,
                        total == buf@.len(),
                        p + len <= total,
                        b@ == buf@.subrange(p as int, p as int + i as int),
                    decreases len - i,
                {
                    b.push(buf[p + i]);
                    assert(buf@.subrange(p as int, p as int + i as int) + seq![buf@[p + i]] =~=
                        buf@.subrange(p as int, p as int + i + 1));
                    i = i + 1;
                }
                Some((b, p + len))
            } else {
                None
            }
        },
        None => None,
    }
}

/// A bit string as bytes: the number of bits, then one byte per bit.
pub open spec fn enc_bits(b: Seq<bool>) -> Seq<u8> {
    enc_u64(b.len() as u64) + Seq::new(b.len(), |i: int| if b[i] { 1u8 } else { 0u8 })
}

/// Reads a bit string from `s` at `pos`; any bit byte other than zero or one
/// refuses the whole string.
pub open spec fn dec_bits(s: Seq<u8>, pos: int) -> Option<(Seq<bool>, int)> {
    match dec_u64(s, pos) {
        Some((n, p)) => if p + n <= s.len() && (forall|i: int|
            0 <= i < n ==> #[trigger] s[p + i] == 0u8 || s[p + i] == 1u8) {
            Some((Seq::new(n as nat, |i: int| s[p + i] == 1u8), p + n as int))
        } else {
            None
        },
        None => None,
    }
}

/// Decoding an encoded bit string embedded in a longer string gives the bits
/// back.
pub proof fn lemma_dec_bits(s: Seq<u8>, pos: int, b: Seq<bool>)
    requires
        0 <= pos,
        b.len() <= u64::MAX,
        pos + enc_bits(b).len() <= s.len(),
        s.subrange(pos, pos + enc_bits(b).len()) == enc_bits(b),
    ensures
        dec_bits(s, pos) == Some((b, pos + enc_bits(b).len())),
{
    let e = enc_bits(b);
    assert(s.subrange(pos, pos + 8) =~= e.subrange(0, 8));
    assert(e.subrange(0, 8) =~= enc_u64(b.len() as u64));
    lemma_dec_u64(s, pos, b.len() as u64);
    let p = pos + 8;
    assert forall|i: int| 0 <= i < b.len() implies #[trigger] s[p + i] == (if b[i] {
        1u8
    } else {
        0u8
    }) by {
        assert(s.subrange(pos, pos + e.len() as int)[8 + i] == s[pos + (8 + i)]);
        assert(e[8 + i] == (if b[i] { 1u8 } else { 0u8 }));
        assert(pos + (8 + i) == p + i);
    }
    assert(forall|i: int|
        0 <= i < b.len() ==> #[trigger] s[p + i] == 0u8 || s[p + i] == 1u8);
    assert(p + b.len() <= s.len());
    assert(dec_bits(s, pos) is Some);
    let decoded = dec_bits(s, pos).unwrap();
    assert(decoded.1 == pos + enc_bits(b).len());
    assert forall|i: int| 0 <= i < b.len() implies decoded.0[i] == b[i] by {
        assert(decoded.0[i] == (s[p + i] == 1u8));
    }
    assert(decoded.0 =~= b);
}

/// Appends the encoding of the bits `b` to `out`.
pub fn write_bits(out: &mut Vec<u8>, b: &Vec<bool>)
    ensures
        final(out)@ == old(out)@ + enc_bits(b@),
{
    let ghost pre = out@;
    write_u64(out, b.len() as u64);
    let ghost bitbytes = Seq::new(b@.len(), |i: int| if b@[i] { 1u8 } else { 0u8 });
    let mut i: usize = 0;
    while i < b.len()
        invariant
            i <= b@.len(),
            bitbytes == Seq::new(b@.len(), |i: int| if b@[i] { 1u8 } else { 0u8 }),
            out@ == pre + enc_u64(b@.len() as u64) + bitbytes.subrange(0, i as int),
        decreases b.len() - i,
    {
        out.push(if b[i] { 1u8 } else { 0u8 });
        assert(pre + enc_u64(b@.len() as u64) + bitbytes.subrange(0, i as int) + seq![bitbytes[i as int]]
            =~= pre + enc_u64(b@.len() as u64) + bitbytes.subrange(0, i + 1));
        i = i + 1;
    }
    assert(pre + enc_u64(b@.len() as u64) + bitbytes.subrange(0, b@.len() as int) =~= pre
        + enc_bits(b@));
}

/// Reads a bit string from `buf` at `pos`, following the spec decoder.
pub fn read_bits(buf: &Vec<u8>, pos: usize) -> (r: Option<(Vec<bool>, usize)>)
    ensures
        match r {
            Some((b, next)) => dec_bits(buf@, pos as int) == Some((b@, next as int)),
            None => dec_bits(buf@, pos as int) is None,
        },
{
    let total = buf.len();
    match read_u64(buf, pos) {
        Some((n, p)) => {
            if n <= (total - p) as u64 {
                let len = n as usize;
                let mut b: Vec<bool> = Vec::new();
                let mut i: usize = 0;
                while i < len
                    invariant
                        i <= len,
                        total == buf@.len(),
                        p + len <= total,
                        dec_u64(buf@, pos as int) == Some((len as u64, p as int)),
                        b@.len() == i,
                        forall|k: int| 0 <= k < i ==> b@[k] == (buf@[p + k] == 1u8),
                        forall|k: int| 0 <= k < i ==> #[trigger] buf@[p + k] == 0u8 || buf@[p + k]
                            == 1u8,
                    decreases len - i,
                {
                    let byte = buf[p + i];
                    if byte > 1 {
                        proof {
                            assert(!(buf@[p + i as int] == 0u8 || buf@[p + i as int] == 1u8));
                            assert(!(forall|k: int|
                                0 <= k < len ==> #[trigger] buf@[p + k] == 0u8 || buf@[p + k]
                                    == 1u8));
                        }
                        return None;
                    }
                    b.push(byte == 1);
                    i = i + 1;
                }
                proof {
                    assert(b@ =~= Seq::new(len as nat, |i: int| buf@[p + i] == 1u8));
                }
                Some((b, p + len))
            } else {
                None
            }
        },
        None => None,
    }
}


/// Two values with the same encoding followed by anything are the same
/// value with the same remainder: the eight bytes pin the value.
pub proof fn lemma_enc_u64_bind(a: u64, b: u64, r1: Seq<u8>, r2: Seq<u8>)
    requires
        enc_u64(a) + r1 == enc_u64(b) + r2,
    ensures
        a == b,
        r1 == r2,
{
    let e1 = enc_u64(a);
    let e2 = enc_u64(b);
    assert forall|i: int| 0 <= i < 8 implies e1[i] == e2[i] by {
        assert((e1 + r1)[i] == e1[i]);
        assert((e2 + r2)[i] == e2[i]);
    }
    assert(a >> 0u64 == a) by (bit_vector);
    assert(b >> 0u64 == b) by (bit_vector);
    assert(e1[0] == (a as u8) && e2[0] == (b as u8));
    assert(e1[1] == (a >> 8u64) as u8 && e2[1] == (b >> 8u64) as u8);
    assert(e1[2] == (a >> 16u64) as u8 && e2[2] == (b >> 16u64) as u8);
    assert(e1[3] == (a >> 24u64) as u8 && e2[3] == (b >> 24u64) as u8);
    assert(e1[4] == (a >> 32u64) as u8 && e2[4] == (b >> 32u64) as u8);
    assert(e1[5] == (a >> 40u64) as u8 && e2[5] == (b >> 40u64) as u8);
    assert(e1[6] == (a >> 48u64) as u8 && e2[6] == (b >> 48u64) as u8);
    assert(e1[7] == (a >> 56u64) as u8 && e2[7] == (b >> 56u64) as u8);
    lemma_u64_roundtrip(a);
    lemma_u64_roundtrip(b);
    assert((e1 + r1).len() == (e2 + r2).len());
    assert forall|i: int| 0 <= i < r1.len() implies r1[i] == r2[i] by {
        assert((e1 + r1)[8 + i] == r1[i]);
        assert((e2 + r2)[8 + i] == r2[i]);
    }
    assert(r1 =~= r2);
}

/// A length-prefixed byte string pins its bytes and the remainder.
pub proof fn lemma_enc_bytes_bind(x: Seq<u8>, y: Seq<u8>, r1: Seq<u8>, r2: Seq<u8>)
    requires
        x.len() <= u64::MAX,
        y.len() <= u64::MAX,
        enc_bytes(x) + r1 == enc_bytes(y) + r2,
    ensures
        x == y,
        r1 == r2,
{
    assert(enc_u64(x.len() as u64) + (x + r1) =~= enc_bytes(x) + r1);
    assert(enc_u64(y.len() as u64) + (y + r2) =~= enc_bytes(y) + r2);
    lemma_enc_u64_bind(x.len() as u64, y.len() as u64, x + r1, y + r2);
    assert(x.len() == y.len());
    assert forall|i: int| 0 <= i < x.len() implies x[i] == y[i] by {
        assert((x + r1)[i] == x[i]);
        assert((y + r2)[i] == y[i]);
    }
    assert(x =~= y);
    assert forall|i: int| 0 <= i < r1.len() implies r1[i] == r2[i] by {
        assert((x + r1)[x.len() + i] == r1[i]);
        assert((y + r2)[y.len() + i] == r2[i]);
    }
    assert((x + r1).len() == (y + r2).len());
    assert(r1 =~= r2);
}

/// A length-prefixed bit string pins its bits and the remainder.
pub proof fn lemma_enc_bits_bind(x: Seq<bool>, y: Seq<bool>, r1: Seq<u8>, r2: Seq<u8>)
    requires
        x.len() <= u64::MAX,
        y.len() <= u64::MAX,
        enc_bits(x) + r1 == enc_bits(y) + r2,
    ensures
        x == y,
        r1 == r2,
{
    let bx = Seq::new(x.len(), |i: int| if x[i] { 1u8 } else { 0u8 });
    let by = Seq::new(y.len(), |i: int| if y[i] { 1u8 } else { 0u8 });
    assert(enc_u64(x.len() as u64) + (bx + r1) =~= enc_bits(x) + r1);
    assert(enc_u64(y.len() as u64) + (by + r2) =~= enc_bits(y) + r2);
    lemma_enc_u64_bind(x.len() as u64, y.len() as u64, bx + r1, by + r2);
    assert(x.len() == y.len());
    assert forall|i: int| 0 <= i < x.len() implies x[i] == y[i] by {
        assert((bx + r1)[i] == bx[i]);
        assert((by + r2)[i] == by[i]);
        assert(bx[i] == by[i]);
    }
    assert(x =~= y);
    assert forall|i: int| 0 <= i < r1.len() implies r1[i] == r2[i] by {
        assert((bx + r1)[x.len() + i] == r1[i]);
        assert((by + r2)[y.len() + i] == r2[i]);
    }
    assert((bx + r1).len() == (by + r2).len());
    assert(r1 =~= r2);
}

/// A single leading byte pins itself and the remainder.
pub proof fn lemma_enc_tag_bind(a: u8, b: u8, r1: Seq<u8>, r2: Seq<u8>)
    requires
        seq![a] + r1 == seq![b] + r2,
    ensures
        a == b,
        r1 == r2,
{
    assert((seq![a] + r1)[0] == a);
    assert((seq![b] + r2)[0] == b);
    assert((seq![a] + r1).len() == 1 + r1.len());
    assert((seq![b] + r2).len() == 1 + r2.len());
    assert((seq![a] + r1).len() == (seq![b] + r2).len());
    assert(r1.len() == r2.len());
    assert forall|i: int| 0 <= i < r1.len() implies r1[i] == r2[i] by {
        assert((seq![a] + r1)[1 + i] == r1[i]);
        assert((seq![b] + r2)[1 + i] == r2[i]);
    }
    assert(r1 =~= r2);
}

/// A decoded bit string standing where an expected bit string was encoded
/// is that string, and what was encoded after it follows right behind.
pub proof fn lemma_chain_bits(
    s: Seq<u8>,
    pos: int,
    got: Seq<bool>,
    p1: int,
    want: Seq<bool>,
    rest: Seq<u8>,
)
    requires
        0 <= pos <= p1 <= s.len(),
        s.subrange(pos, p1) == enc_bits(got),
        got.len() <= u64::MAX,
        want.len() <= u64::MAX,
        pos + enc_bits(want).len() + rest.len() <= s.len(),
        s.subrange(pos, pos + enc_bits(want).len() + rest.len()) == enc_bits(want) + rest,
    ensures
        got == want,
        p1 == pos + enc_bits(want).len(),
        s.subrange(p1, p1 + rest.len()) == rest,
{
    let tail1 = s.subrange(p1, s.len() as int);
    let tail2 = s.subrange(pos + enc_bits(want).len() as int, s.len() as int);
    assert(s.subrange(pos, s.len() as int) =~= enc_bits(got) + tail1);
    assert(s.subrange(pos, pos + enc_bits(want).len() as int) =~= (enc_bits(want)
        + rest).subrange(0, enc_bits(want).len() as int));
    assert((enc_bits(want) + rest).subrange(0, enc_bits(want).len() as int) =~= enc_bits(want));
    assert(s.subrange(pos, s.len() as int) =~= enc_bits(want) + tail2);
    lemma_enc_bits_bind(got, want, tail1, tail2);
    assert(s.subrange(p1, p1 + rest.len()) =~= (enc_bits(want) + rest).subrange(
        enc_bits(want).len() as int,
        (enc_bits(want).len() + rest.len()) as int,
    ));
    assert((enc_bits(want) + rest).subrange(
        enc_bits(want).len() as int,
        (enc_bits(want).len() + rest.len()) as int,
    ) =~= rest);
}

/// A decoded byte string standing where an expected byte string was encoded
/// is that string, and what was encoded after it follows right behind.
pub proof fn lemma_chain_bytes(
    s: Seq<u8>,
    pos: int,
    got: Seq<u8>,
    p1: int,
    want: Seq<u8>,
    rest: Seq<u8>,
)
    requires
        0 <= pos <= p1 <= s.len(),
        s.subrange(pos, p1) == enc_bytes(got),
        got.len() <= u64::MAX,
        want.len() <= u64::MAX,
        pos + enc_bytes(want).len() + rest.len() <= s.len(),
        s.subrange(pos, pos + enc_bytes(want).len() + rest.len()) == enc_bytes(want) + rest,
    ensures
        got == want,
        p1 == pos + enc_bytes(want).len(),
        s.subrange(p1, p1 + rest.len()) == rest,
{
    let tail1 = s.subrange(p1, s.len() as int);
    let tail2 = s.subrange(pos + enc_bytes(want).len() as int, s.len() as int);
    assert(s.subrange(pos, s.len() as int) =~= enc_bytes(got) + tail1);
    assert(s.subrange(pos, pos + enc_bytes(want).len() as int) =~= (enc_bytes(want)
        + rest).subrange(0, enc_bytes(want).len() as int));
    assert((enc_bytes(want) + rest).subrange(0, enc_bytes(want).len() as int) =~= enc_bytes(want));
    assert(s.subrange(pos, s.len() as int) =~= enc_bytes(want) + tail2);
    lemma_enc_bytes_bind(got, want, tail1, tail2);
    assert(s.subrange(p1, p1 + rest.len()) =~= (enc_bytes(want) + rest).subrange(
        enc_bytes(want).len() as int,
        (enc_bytes(want).len() + rest.len()) as int,
    ));
    assert((enc_bytes(want) + rest).subrange(
        enc_bytes(want).len() as int,
        (enc_bytes(want).len() + rest.len()) as int,
    ) =~= rest);
}

/// A decoded integer standing where an expected integer was encoded is that
/// integer, and what was encoded after it follows right behind.
pub proof fn lemma_chain_u64(s: Seq<u8>, pos: int, got: u64, p1: int, want: u64, rest: Seq<u8>)
    requires
        0 <= pos <= p1 <= s.len(),
        s.subrange(pos, p1) == enc_u64(got),
        pos + 8 + rest.len() <= s.len(),
        s.subrange(pos, pos + 8 + rest.len()) == enc_u64(want) + rest,
    ensures
        got == want,
        p1 == pos + 8,
        s.subrange(p1, p1 + rest.len()) == rest,
{
    let tail1 = s.subrange(p1, s.len() as int);
    let tail2 = s.subrange(pos + 8, s.len() as int);
    assert(s.subrange(pos, s.len() as int) =~= enc_u64(got) + tail1);
    assert(s.subrange(pos, pos + 8) =~= (enc_u64(want) + rest).subrange(0, 8));
    assert((enc_u64(want) + rest).subrange(0, 8) =~= enc_u64(want));
    assert(s.subrange(pos, s.len() as int) =~= enc_u64(want) + tail2);
    lemma_enc_u64_bind(got, want, tail1, tail2);
    assert(s.subrange(p1, p1 + rest.len()) =~= (enc_u64(want) + rest).subrange(
        8,
        (8 + rest.len()) as int,
    ));
    assert((enc_u64(want) + rest).subrange(8, (8 + rest.len()) as int) =~= rest);
}

} // verus!
