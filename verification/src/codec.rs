//! Fixed-size block codecs for quantized weights.
//!
//! A block encodes exactly 256 consecutive weights. Two families are
//! covered. The additive five-bit family stores a block-wide delta and
//! minimum (half-precision bit patterns), a packed table of eight
//! six-bit sub-scale/sub-minimum pairs, a high-bit plane, and low-bit
//! nibble codes: 2 + 2 + 12 + 32 + 128 = 176 bytes. The lookup-table
//! family stores one-bit codes, a per-pair high-bit plane, and one
//! sub-block scale code per 32 weights: 32 + 16 + 8 = 56 bytes.
//!
//! The verified contracts pin down the bit layout exactly: packing then
//! extracting returns every code and sub-scale unchanged, and the
//! serialized form of each family has its fixed byte length. The scalar
//! reconstruction `scale * code + min` is floating point and stands
//! outside the verified core; the half-precision fields are carried as
//! their bit patterns.
use vstd::prelude::*;

verus! {

/// An additive-family block: 256 weights at five bits each, with a
/// block delta and minimum (half-precision bit patterns) and eight
/// packed six-bit sub-scale/sub-minimum pairs.
pub struct Q5K {
    pub delta: u16,
    pub min: u16,
    pub scales: Vec<u8>,
    pub qh: Vec<u8>,
    pub qs: Vec<u8>,
}

/// Field lengths of a well-formed additive-family block.
pub open spec fn q5k_wf(b: Q5K) -> bool {
    b.scales@.len() == 12 && b.qh@.len() == 32 && b.qs@.len() == 128
}

/// The five-bit code of weight `i`: its low nibble from the packed
/// nibble array, its high bit from the high-bit plane.
pub open spec fn q5k_code(qs: Seq<u8>, qh: Seq<u8>, i: int) -> u8 {
    let lo = if i % 2 == 0 {
        qs[i / 2] & 0xF
    } else {
        qs[i / 2] >> 4
    };
    let hi = (qh[i / 8] >> ((i % 8) as u8)) & 1;
    lo | (hi << 4)
}

/// The six-bit sub-scale of sub-block `j` in the packed scale table.
pub open spec fn q5k_scale(s: Seq<u8>, j: int) -> u8 {
    if j < 4 {
        s[j] & 63
    } else {
        (s[j + 4] & 0xF) | ((s[j - 4] >> 6) << 4)
    }
}

/// The six-bit sub-minimum of sub-block `j` in the packed scale table.
pub open spec fn q5k_smin(s: Seq<u8>, j: int) -> u8 {
    if j < 4 {
        s[j + 4] & 63
    } else {
        (s[j + 4] >> 4) | ((s[j] >> 6) << 4)
    }
}

proof fn lemma_code_split(a: u8, b: u8)
    requires
        a < 32,
        b < 32,
    ensures
        ((a & 0xF) | ((b & 0xF) << 4)) & 0xF == a & 0xF,
        ((a & 0xF) | ((b & 0xF) << 4)) >> 4 == b & 0xF,
        (a & 0xF) | ((a >> 4) << 4) == a,
        (b & 0xF) | ((b >> 4) << 4) == b,
        a >> 4 < 2,
        b >> 4 < 2,
{
    assert(((a & 0xF) | ((b & 0xF) << 4)) & 0xF == a & 0xF && ((a & 0xF) | ((b & 0xF) << 4)) >> 4
        == b & 0xF && (a & 0xF) | ((a >> 4) << 4) == a && (b & 0xF) | ((b >> 4) << 4) == b && a >> 4
        < 2 && b >> 4 < 2) by (bit_vector)
        requires
            a < 32,
            b < 32,
    ;
}


proof fn lemma_u8_parts(c: u8)
    requires
        c < 32,
    ensures
        c >> 4 < 2,
        c & 0xF < 16,
        (c & 0xF) | ((c >> 4) << 4) == c,
{
    assert(c >> 4 < 2 && c & 0xF < 16 && ((c & 0xF) | ((c >> 4) << 4)) == c) by (bit_vector)
        requires
            c < 32,
    ;
}

proof fn lemma_u8_two(c: u8)
    requires
        c < 4,
    ensures
        c & 1 < 2,
        c >> 1 < 2,
        (c & 1) | ((c >> 1) << 1) == c,
{
    assert(c & 1 < 2 && c >> 1 < 2 && ((c & 1) | ((c >> 1) << 1)) == c) by (bit_vector)
        requires
            c < 4,
    ;
}

proof fn lemma_bit_ops(x: u8, t: u8)
    requires
        t < 8,
    ensures
        (x >> t) & 1 < 2,
        x & 0xF < 16,
        x >> 4 < 16,
{
    assert((x >> t) & 1 < 2 && x & 0xF < 16 && x >> 4 < 16) by (bit_vector)
        requires
            t < 8,
    ;
}

proof fn lemma_bits_extract(b0: u8, b1: u8, b2: u8, b3: u8, b4: u8, b5: u8, b6: u8, b7: u8, t: u8)
    requires
        b0 < 2,
        b1 < 2,
        b2 < 2,
        b3 < 2,
        b4 < 2,
        b5 < 2,
        b6 < 2,
        b7 < 2,
        t < 8,
    ensures
        ((b0 | (b1 << 1) | (b2 << 2) | (b3 << 3) | (b4 << 4) | (b5 << 5) | (b6 << 6) | (b7 << 7))
            >> t) & 1 == (if t == 0 {
            b0
        } else if t == 1 {
            b1
        } else if t == 2 {
            b2
        } else if t == 3 {
            b3
        } else if t == 4 {
            b4
        } else if t == 5 {
            b5
        } else if t == 6 {
            b6
        } else {
            b7
        }),
{
    assert(((b0 | (b1 << 1) | (b2 << 2) | (b3 << 3) | (b4 << 4) | (b5 << 5) | (b6 << 6) | (b7
        << 7)) >> t) & 1 == (if t == 0 {
        b0
    } else if t == 1 {
        b1
    } else if t == 2 {
        b2
    } else if t == 3 {
        b3
    } else if t == 4 {
        b4
    } else if t == 5 {
        b5
    } else if t == 6 {
        b6
    } else {
        b7
    })) by (bit_vector)
        requires
            b0 < 2,
            b1 < 2,
            b2 < 2,
            b3 < 2,
            b4 < 2,
            b5 < 2,
            b6 < 2,
            b7 < 2,
            t < 8,
    ;
}

/// The high-bit plane byte covering weights `8k .. 8k + 8`.
pub open spec fn q5k_hi_byte(codes: Seq<u8>, k: int) -> u8 {
    (codes[8 * k] >> 4) | ((codes[8 * k + 1] >> 4) << 1) | ((codes[8 * k + 2] >> 4) << 2) | ((
    codes[8 * k + 3] >> 4) << 3) | ((codes[8 * k + 4] >> 4) << 4) | ((codes[8 * k + 5] >> 4) << 5)
        | ((codes[8 * k + 6] >> 4) << 6) | ((codes[8 * k + 7] >> 4) << 7)
}

/// Pack 256 five-bit codes into the nibble array and high-bit plane.
/// Extracting any position of the result yields the original code.
pub fn q5k_pack_codes(codes: &Vec<u8>) -> (r: (Vec<u8>, Vec<u8>))
    requires
        codes@.len() == 256,
        forall|i: int| 0 <= i < 256 ==> codes@[i] < 32,
    ensures
        r.0@.len() == 128,
        r.1@.len() == 32,
        forall|i: int| 0 <= i < 256 ==> q5k_code(r.0@, r.1@, i) == codes@[i],
{
    let mut qs: Vec<u8> = Vec::new();
    for j in 0..128usize
        invariant
            codes@.len() == 256,
            forall|i: int| 0 <= i < 256 ==> codes@[i] < 32,
            qs@.len() == j,
            forall|p: int|
                0 <= p < j ==> #[trigger] qs@[p] == ((codes@[2 * p] & 0xF) | ((codes@[2 * p + 1]
                    & 0xF) << 4)),
    {
        let a = codes[2 * j];
        let b = codes[2 * j + 1];
        qs.push((a & 0xF) | ((b & 0xF) << 4));
    }
    let mut qh: Vec<u8> = Vec::new();
    for k in 0..32usize
        invariant
            codes@.len() == 256,
            forall|i: int| 0 <= i < 256 ==> codes@[i] < 32,
            qh@.len() == k,
            forall|p: int| 0 <= p < k ==> #[trigger] qh@[p] == q5k_hi_byte(codes@, p),
    {
        let h = (codes[8 * k] >> 4) | ((codes[8 * k + 1] >> 4) << 1) | ((codes[8 * k + 2] >> 4)
            << 2) | ((codes[8 * k + 3] >> 4) << 3) | ((codes[8 * k + 4] >> 4) << 4) | ((codes[8 * k
            + 5] >> 4) << 5) | ((codes[8 * k + 6] >> 4) << 6) | ((codes[8 * k + 7] >> 4) << 7);
        qh.push(h);
    }
    proof {
        assert forall|i: int| 0 <= i < 256 implies q5k_code(qs@, qh@, i) == codes@[i] by {
            let j = i / 2;
            let k = i / 8;
            let t = i % 8;
            let a = codes@[2 * j];
            let b = codes@[2 * j + 1];
            lemma_code_split(a, b);
            lemma_u8_parts(codes@[8 * k]);
            lemma_u8_parts(codes@[8 * k + 1]);
            lemma_u8_parts(codes@[8 * k + 2]);
            lemma_u8_parts(codes@[8 * k + 3]);
            lemma_u8_parts(codes@[8 * k + 4]);
            lemma_u8_parts(codes@[8 * k + 5]);
            lemma_u8_parts(codes@[8 * k + 6]);
            lemma_u8_parts(codes@[8 * k + 7]);
            lemma_bits_extract(
                codes@[8 * k] >> 4,
                codes@[8 * k + 1] >> 4,
                codes@[8 * k + 2] >> 4,
                codes@[8 * k + 3] >> 4,
                codes@[8 * k + 4] >> 4,
                codes@[8 * k + 5] >> 4,
                codes@[8 * k + 6] >> 4,
                codes@[8 * k + 7] >> 4,
                t as u8,
            );
            assert(8 * k + t == i);
            if i % 2 == 0 {
                assert(2 * j == i);
                assert((qh@[k] >> (t as u8)) & 1 == codes@[i] >> 4);
                assert(q5k_code(qs@, qh@, i) == (a & 0xF) | ((a >> 4) << 4));
            } else {
                assert(2 * j + 1 == i);
                assert((qh@[k] >> (t as u8)) & 1 == codes@[i] >> 4);
                assert(q5k_code(qs@, qh@, i) == (b & 0xF) | ((b >> 4) << 4));
            }
        }
    }
    (qs, qh)
}

/// Extract all 256 five-bit codes of a block's nibble array and
/// high-bit plane.
pub fn q5k_unpack_codes(qs: &Vec<u8>, qh: &Vec<u8>) -> (codes: Vec<u8>)
    requires
        qs@.len() == 128,
        qh@.len() == 32,
    ensures
        codes@.len() == 256,
        forall|i: int| 0 <= i < 256 ==> #[trigger] codes@[i] == q5k_code(qs@, qh@, i),
        forall|i: int| 0 <= i < 256 ==> #[trigger] codes@[i] < 32,
{
    let mut codes: Vec<u8> = Vec::new();
    for i in 0..256usize
        invariant
            qs@.len() == 128,
            qh@.len() == 32,
            codes@.len() == i,
            forall|p: int| 0 <= p < i ==> #[trigger] codes@[p] == q5k_code(qs@, qh@, p),
            forall|p: int| 0 <= p < i ==> #[trigger] codes@[p] < 32,
    {
        let byte = qs[i / 2];
        let lo = if i % 2 == 0 {
            byte & 0xF
        } else {
            byte >> 4
        };
        let t = (i % 8) as u8;
        let hi = (qh[i / 8] >> t) & 1;
        let c = lo | (hi << 4);
        proof {
            lemma_bit_ops(qs@[i as int / 2], 0);
            lemma_bit_ops(qh@[i as int / 8], (i as int % 8) as u8);
            let l2 = lo;
            let h2 = hi;
            assert((l2 | (h2 << 4)) < 32) by (bit_vector)
                requires
                    l2 < 16,
                    h2 < 2,
            ;
        }
        codes.push(c);
    }
    codes
}

proof fn lemma_scales_split(s0: u8, s4: u8, m0: u8, m4: u8)
    requires
        s0 < 64,
        s4 < 64,
        m0 < 64,
        m4 < 64,
    ensures
        (s0 | ((s4 >> 4) << 6)) & 63 == s0,
        (m0 | ((m4 >> 4) << 6)) & 63 == m0,
        (((s4 & 0xF) | ((m4 & 0xF) << 4)) & 0xF) | (((s0 | ((s4 >> 4) << 6)) >> 6) << 4) == s4,
        (((s4 & 0xF) | ((m4 & 0xF) << 4)) >> 4) | (((m0 | ((m4 >> 4) << 6)) >> 6) << 4) == m4,
{
    assert((s0 | ((s4 >> 4) << 6)) & 63 == s0 && (m0 | ((m4 >> 4) << 6)) & 63 == m0 && (((s4 & 0xF)
        | ((m4 & 0xF) << 4)) & 0xF) | (((s0 | ((s4 >> 4) << 6)) >> 6) << 4) == s4 && (((s4 & 0xF) | (
    (m4 & 0xF) << 4)) >> 4) | (((m0 | ((m4 >> 4) << 6)) >> 6) << 4) == m4) by (bit_vector)
        requires
            s0 < 64,
            s4 < 64,
            m0 < 64,
            m4 < 64,
    ;
}

/// Pack eight six-bit sub-scale/sub-minimum pairs into the twelve-byte
/// scale table. Extracting any sub-block of the result yields the
/// original pair.
pub fn q5k_pack_scales(sc: &Vec<u8>, mn: &Vec<u8>) -> (r: Vec<u8>)
    requires
        sc@.len() == 8,
        mn@.len() == 8,
        forall|j: int| 0 <= j < 8 ==> sc@[j] < 64,
        forall|j: int| 0 <= j < 8 ==> mn@[j] < 64,
    ensures
        r@.len() == 12,
        forall|j: int| 0 <= j < 8 ==> #[trigger] q5k_scale(r@, j) == sc@[j],
        forall|j: int| 0 <= j < 8 ==> #[trigger] q5k_smin(r@, j) == mn@[j],
{
    let mut r: Vec<u8> = Vec::new();
    for j in 0..4usize
        invariant
            sc@.len() == 8,
            forall|p: int| 0 <= p < 8 ==> sc@[p] < 64,
            r@.len() == j,
            forall|p: int|
                0 <= p < j ==> #[trigger] r@[p] == (sc@[p] | ((sc@[p + 4] >> 4) << 6)),
    {
        r.push(sc[j] | ((sc[j + 4] >> 4) << 6));
    }
    for j in 0..4usize
        invariant
            sc@.len() == 8,
            mn@.len() == 8,
            forall|p: int| 0 <= p < 8 ==> sc@[p] < 64,
            forall|p: int| 0 <= p < 8 ==> mn@[p] < 64,
            r@.len() == 4 + j,
            forall|p: int|
                0 <= p < 4 ==> #[trigger] r@[p] == (sc@[p] | ((sc@[p + 4] >> 4) << 6)),
            forall|p: int|
                0 <= p < j ==> #[trigger] r@[4 + p] == (mn@[p] | ((mn@[p + 4] >> 4) << 6)),
    {
        r.push(mn[j] | ((mn[j + 4] >> 4) << 6));
    }
    for j in 0..4usize
        invariant
            sc@.len() == 8,
            mn@.len() == 8,
            forall|p: int| 0 <= p < 8 ==> sc@[p] < 64,
            forall|p: int| 0 <= p < 8 ==> mn@[p] < 64,
            r@.len() == 8 + j,
            forall|p: int|
                0 <= p < 4 ==> #[trigger] r@[p] == (sc@[p] | ((sc@[p + 4] >> 4) << 6)),
            forall|p: int|
                0 <= p < 4 ==> #[trigger] r@[4 + p] == (mn@[p] | ((mn@[p + 4] >> 4) << 6)),
            forall|p: int|
                0 <= p < j ==> #[trigger] r@[8 + p] == ((sc@[p + 4] & 0xF) | ((mn@[p + 4] & 0xF)
                    << 4)),
    {
        r.push((sc[j + 4] & 0xF) | ((mn[j + 4] & 0xF) << 4));
    }
    proof {
        assert forall|j: int| 0 <= j < 8 implies #[trigger] q5k_scale(r@, j) == sc@[j] by {
            lemma_scale_entry(r@, sc@, mn@, j);
        }
        assert forall|j: int| 0 <= j < 8 implies #[trigger] q5k_smin(r@, j) == mn@[j] by {
            lemma_scale_entry(r@, sc@, mn@, j);
        }
    }
    r
}

proof fn lemma_scale_entry(rs: Seq<u8>, sc: Seq<u8>, mn: Seq<u8>, j: int)
    requires
        sc.len() == 8,
        mn.len() == 8,
        rs.len() == 12,
        forall|p: int| 0 <= p < 8 ==> sc[p] < 64,
        forall|p: int| 0 <= p < 8 ==> mn[p] < 64,
        forall|p: int| 0 <= p < 4 ==> #[trigger] rs[p] == (sc[p] | ((sc[p + 4] >> 4) << 6)),
        forall|p: int| 0 <= p < 4 ==> #[trigger] rs[4 + p] == (mn[p] | ((mn[p + 4] >> 4) << 6)),
        forall|p: int|
            0 <= p < 4 ==> #[trigger] rs[8 + p] == ((sc[p + 4] & 0xF) | ((mn[p + 4] & 0xF) << 4)),
        0 <= j < 8,
    ensures
        q5k_scale(rs, j) == sc[j],
        q5k_smin(rs, j) == mn[j],
{
    if j < 4 {
        lemma_scales_split(sc[j], sc[j + 4], mn[j], mn[j + 4]);
        assert(rs[j] == (sc[j] | ((sc[j + 4] >> 4) << 6)));
        assert(rs[4 + j] == (mn[j] | ((mn[j + 4] >> 4) << 6)));
        assert(rs[j + 4] == (mn[j] | ((mn[j + 4] >> 4) << 6)));
    } else {
        let p = j - 4;
        lemma_scales_split(sc[p], sc[j], mn[p], mn[j]);
        assert(rs[8 + p] == ((sc[p + 4] & 0xF) | ((mn[p + 4] & 0xF) << 4)));
        assert(j + 4 == 8 + p && p + 4 == j);
        assert(rs[j + 4] == ((sc[j] & 0xF) | ((mn[j] & 0xF) << 4)));
        assert(rs[j - 4] == (sc[p] | ((sc[p + 4] >> 4) << 6)));
        assert(rs[4 + p] == (mn[p] | ((mn[p + 4] >> 4) << 6)));
        assert(rs[j] == (mn[p] | ((mn[j] >> 4) << 6)));
    }
}


/// Extract the eight six-bit sub-scale/sub-minimum pairs of a packed
/// scale table.
pub fn q5k_unpack_scales(s: &Vec<u8>) -> (r: (Vec<u8>, Vec<u8>))
    requires
        s@.len() == 12,
    ensures
        r.0@.len() == 8,
        r.1@.len() == 8,
        forall|j: int| 0 <= j < 8 ==> #[trigger] r.0@[j] == q5k_scale(s@, j),
        forall|j: int| 0 <= j < 8 ==> #[trigger] r.1@[j] == q5k_smin(s@, j),
        forall|j: int| 0 <= j < 8 ==> #[trigger] r.0@[j] < 64,
        forall|j: int| 0 <= j < 8 ==> #[trigger] r.1@[j] < 64,
{
    let mut sc: Vec<u8> = Vec::new();
    let mut mn: Vec<u8> = Vec::new();
    for j in 0..8usize
        invariant
            s@.len() == 12,
            sc@.len() == j,
            mn@.len() == j,
            forall|p: int| 0 <= p < j ==> #[trigger] sc@[p] == q5k_scale(s@, p),
            forall|p: int| 0 <= p < j ==> #[trigger] mn@[p] == q5k_smin(s@, p),
            forall|p: int| 0 <= p < j ==> #[trigger] sc@[p] < 64,
            forall|p: int| 0 <= p < j ==> #[trigger] mn@[p] < 64,
    {
        let a: u8;
        let b: u8;
        if j < 4 {
            a = s[j] & 63;
            b = s[j + 4] & 63;
            proof {
                let x = s@[j as int];
                let y = s@[j as int + 4];
                assert((x & 63) < 64 && (y & 63) < 64) by (bit_vector);
            }
        } else {
            a = (s[j + 4] & 0xF) | ((s[j - 4] >> 6) << 4);
            b = (s[j + 4] >> 4) | ((s[j] >> 6) << 4);
            proof {
                let x = s@[j as int + 4];
                let y = s@[j as int - 4];
                let z = s@[j as int];
                assert(((x & 0xF) | ((y >> 6) << 4)) < 64 && ((x >> 4) | ((z >> 6) << 4))
                    < 64) by (bit_vector);
            }
        }
        sc.push(a);
        mn.push(b);
    }
    (sc, mn)
}

/// The two little-endian bytes of `x`.
pub open spec fn le16(x: u16) -> Seq<u8> {
    seq![(x & 0xff) as u8, ((x >> 8) & 0xff) as u8]
}

/// The serialized form of an additive-family block: delta bits, minimum
/// bits, packed sub-scales, high-bit plane, nibble codes.
pub open spec fn q5k_bytes(delta: u16, min: u16, scales: Seq<u8>, qh: Seq<u8>, qs: Seq<u8>) -> Seq<
    u8,
> {
    le16(delta) + le16(min) + scales + qh + qs
}

/// Serialize a block to its fixed 176-byte form.
pub fn q5k_to_bytes(b: &Q5K) -> (r: Vec<u8>)
    requires
        q5k_wf(*b),
    ensures
        r@ == q5k_bytes(b.delta, b.min, b.scales@, b.qh@, b.qs@),
        r@.len() == 176,
{
    let mut r: Vec<u8> = Vec::new();
    r.push((b.delta & 0xff) as u8);
    r.push(((b.delta >> 8) & 0xff) as u8);
    r.push((b.min & 0xff) as u8);
    r.push(((b.min >> 8) & 0xff) as u8);
    assert(r@ =~= le16(b.delta) + le16(b.min));
    for i in 0..12usize
        invariant
            q5k_wf(*b),
            r@ == le16(b.delta) + le16(b.min) + b.scales@.take(i as int),
    {
        r.push(b.scales[i]);
        assert(r@ =~= le16(b.delta) + le16(b.min) + b.scales@.take(i + 1));
    }
    assert(b.scales@.take(12) =~= b.scales@);
    for i in 0..32usize
        invariant
            q5k_wf(*b),
            r@ == le16(b.delta) + le16(b.min) + b.scales@ + b.qh@.take(i as int),
    {
        r.push(b.qh[i]);
        assert(r@ =~= le16(b.delta) + le16(b.min) + b.scales@ + b.qh@.take(i + 1));
    }
    assert(b.qh@.take(32) =~= b.qh@);
    for i in 0..128usize
        invariant
            q5k_wf(*b),
            r@ == le16(b.delta) + le16(b.min) + b.scales@ + b.qh@ + b.qs@.take(i as int),
    {
        r.push(b.qs[i]);
        assert(r@ =~= le16(b.delta) + le16(b.min) + b.scales@ + b.qh@ + b.qs@.take(i + 1));
    }
    assert(b.qs@.take(128) =~= b.qs@);
    assert(r@ =~= q5k_bytes(b.delta, b.min, b.scales@, b.qh@, b.qs@));
    r
}

/// Rebuild a block from its fixed 176-byte form; serializing the result
/// reproduces the input bytes exactly.
pub fn q5k_from_bytes(d: &Vec<u8>) -> (b: Q5K)
    requires
        d@.len() == 176,
    ensures
        q5k_wf(b),
        q5k_bytes(b.delta, b.min, b.scales@, b.qh@, b.qs@) == d@,
{
    let delta: u16 = (d[0] as u16) | ((d[1] as u16) << 8);
    let min: u16 = (d[2] as u16) | ((d[3] as u16) << 8);
    let mut scales: Vec<u8> = Vec::new();
    for i in 0..12usize
        invariant
            d@.len() == 176,
            scales@ == d@.subrange(4, 4 + i as int),
    {
        scales.push(d[4 + i]);
        assert(scales@ =~= d@.subrange(4, 4 + i + 1));
    }
    let mut qh: Vec<u8> = Vec::new();
    for i in 0..32usize
        invariant
            d@.len() == 176,
            qh@ == d@.subrange(16, 16 + i as int),
    {
        qh.push(d[16 + i]);
        assert(qh@ =~= d@.subrange(16, 16 + i + 1));
    }
    let mut qs: Vec<u8> = Vec::new();
    for i in 0..128usize
        invariant
            d@.len() == 176,
            qs@ == d@.subrange(48, 48 + i as int),
    {
        qs.push(d[48 + i]);
        assert(qs@ =~= d@.subrange(48, 48 + i + 1));
    }
    let b = Q5K { delta, min, scales, qh, qs };
    proof {
        let x0 = d@[0];
        let x1 = d@[1];
        let x2 = d@[2];
        let x3 = d@[3];
        assert((((x0 as u16) | ((x1 as u16) << 8)) & 0xff) as u8 == x0 && ((((x0 as u16) | ((
        x1 as u16) << 8)) >> 8) & 0xff) as u8 == x1 && (((x2 as u16) | ((x3 as u16) << 8))
            & 0xff) as u8 == x2 && ((((x2 as u16) | ((x3 as u16) << 8)) >> 8) & 0xff) as u8
            == x3) by (bit_vector);
        assert(q5k_bytes(b.delta, b.min, b.scales@, b.qh@, b.qs@) =~= d@);
    }
    b
}

/// A lookup-table-family block: 256 weights at roughly 1.6 bits each.
/// One low bit per weight, one shared high bit per pair of weights, and
/// one scale code per 32-weight sub-block.
pub struct IQ1M {
    pub qs: Vec<u8>,
    pub qh: Vec<u8>,
    pub scales: Vec<u8>,
}

/// Field lengths of a well-formed lookup-table-family block.
pub open spec fn iq1m_wf(b: IQ1M) -> bool {
    b.qs@.len() == 32 && b.qh@.len() == 16 && b.scales@.len() == 8
}

/// The two-bit codebook index of weight `i`: its low bit from the code
/// plane, its high bit shared with its pair neighbour.
pub open spec fn iq1m_code(qs: Seq<u8>, qh: Seq<u8>, i: int) -> u8 {
    let lo = (qs[i / 8] >> ((i % 8) as u8)) & 1;
    let hi = (qh[i / 16] >> (((i / 2) % 8) as u8)) & 1;
    lo | (hi << 1)
}

/// The low-bit plane byte covering weights `8k .. 8k + 8`.
pub open spec fn iq1m_lo_byte(codes: Seq<u8>, k: int) -> u8 {
    (codes[8 * k] & 1) | ((codes[8 * k + 1] & 1) << 1) | ((codes[8 * k + 2] & 1) << 2) | ((codes[8
        * k + 3] & 1) << 3) | ((codes[8 * k + 4] & 1) << 4) | ((codes[8 * k + 5] & 1) << 5) | ((
    codes[8 * k + 6] & 1) << 6) | ((codes[8 * k + 7] & 1) << 7)
}

/// The high-bit plane byte covering weight pairs `8k .. 8k + 8`.
pub open spec fn iq1m_hi_byte(codes: Seq<u8>, k: int) -> u8 {
    (codes[16 * k] >> 1) | ((codes[16 * k + 2] >> 1) << 1) | ((codes[16 * k + 4] >> 1) << 2) | ((
    codes[16 * k + 6] >> 1) << 3) | ((codes[16 * k + 8] >> 1) << 4) | ((codes[16 * k + 10] >> 1)
        << 5) | ((codes[16 * k + 12] >> 1) << 6) | ((codes[16 * k + 14] >> 1) << 7)
}

/// Pack 256 two-bit codebook indices into the low-bit and per-pair
/// high-bit planes. Each pair of weights shares its high bit, so the
/// input must agree across pairs. Extracting any position of the result
/// yields the original code.
#[verifier::rlimit(100)]
pub fn iq1m_pack_codes(codes: &Vec<u8>) -> (r: (Vec<u8>, Vec<u8>))
    requires
        codes@.len() == 256,
        forall|i: int| 0 <= i < 256 ==> codes@[i] < 4,
        forall|p: int| 0 <= p < 128 ==> #[trigger] (codes@[2 * p] >> 1) == codes@[2 * p + 1] >> 1,
    ensures
        r.0@.len() == 32,
        r.1@.len() == 16,
        forall|i: int| 0 <= i < 256 ==> #[trigger] iq1m_code(r.0@, r.1@, i) == codes@[i],
{
    let mut qs: Vec<u8> = Vec::new();
    for k in 0..32usize
        invariant
            codes@.len() == 256,
            forall|i: int| 0 <= i < 256 ==> codes@[i] < 4,
            qs@.len() == k,
            forall|p: int| 0 <= p < k ==> #[trigger] qs@[p] == iq1m_lo_byte(codes@, p),
    {
        let h = (codes[8 * k] & 1) | ((codes[8 * k + 1] & 1) << 1) | ((codes[8 * k + 2] & 1) << 2)
            | ((codes[8 * k + 3] & 1) << 3) | ((codes[8 * k + 4] & 1) << 4) | ((codes[8 * k + 5]
            & 1) << 5) | ((codes[8 * k + 6] & 1) << 6) | ((codes[8 * k + 7] & 1) << 7);
        qs.push(h);
    }
    let mut qh: Vec<u8> = Vec::new();
    for k in 0..16usize
        invariant
            codes@.len() == 256,
            forall|i: int| 0 <= i < 256 ==> codes@[i] < 4,
            qh@.len() == k,
            forall|p: int| 0 <= p < k ==> #[trigger] qh@[p] == iq1m_hi_byte(codes@, p),
    {
        let h = (codes[16 * k] >> 1) | ((codes[16 * k + 2] >> 1) << 1) | ((codes[16 * k + 4] >> 1)
            << 2) | ((codes[16 * k + 6] >> 1) << 3) | ((codes[16 * k + 8] >> 1) << 4) | ((codes[16
            * k + 10] >> 1) << 5) | ((codes[16 * k + 12] >> 1) << 6) | ((codes[16 * k + 14] >> 1)
            << 7);
        qh.push(h);
    }
    proof {
        assert forall|i: int| 0 <= i < 256 implies #[trigger] iq1m_code(qs@, qh@, i)
            == codes@[i] by {
            let c = codes@[i];
            let kl = i / 8;
            let tl = i % 8;
            let kh = i / 16;
            let th = (i / 2) % 8;
            assert(8 * kl + tl == i);
            lemma_u8_two(codes@[8 * kl]);
            lemma_u8_two(codes@[8 * kl + 1]);
            lemma_u8_two(codes@[8 * kl + 2]);
            lemma_u8_two(codes@[8 * kl + 3]);
            lemma_u8_two(codes@[8 * kl + 4]);
            lemma_u8_two(codes@[8 * kl + 5]);
            lemma_u8_two(codes@[8 * kl + 6]);
            lemma_u8_two(codes@[8 * kl + 7]);
            lemma_u8_two(codes@[16 * kh]);
            lemma_u8_two(codes@[16 * kh + 2]);
            lemma_u8_two(codes@[16 * kh + 4]);
            lemma_u8_two(codes@[16 * kh + 6]);
            lemma_u8_two(codes@[16 * kh + 8]);
            lemma_u8_two(codes@[16 * kh + 10]);
            lemma_u8_two(codes@[16 * kh + 12]);
            lemma_u8_two(codes@[16 * kh + 14]);
            lemma_bits_extract(
                codes@[8 * kl] & 1,
                codes@[8 * kl + 1] & 1,
                codes@[8 * kl + 2] & 1,
                codes@[8 * kl + 3] & 1,
                codes@[8 * kl + 4] & 1,
                codes@[8 * kl + 5] & 1,
                codes@[8 * kl + 6] & 1,
                codes@[8 * kl + 7] & 1,
                tl as u8,
            );
            let x = codes@[i];
            assert((x & 1) < 2 && (x >> 1) < 2 && ((x & 1) | ((x >> 1) << 1)) == x) by (bit_vector)
                requires
                    x < 4,
            ;
            assert((qs@[kl] >> (tl as u8)) & 1 == c & 1);
            lemma_bits_extract(
                codes@[16 * kh] >> 1,
                codes@[16 * kh + 2] >> 1,
                codes@[16 * kh + 4] >> 1,
                codes@[16 * kh + 6] >> 1,
                codes@[16 * kh + 8] >> 1,
                codes@[16 * kh + 10] >> 1,
                codes@[16 * kh + 12] >> 1,
                codes@[16 * kh + 14] >> 1,
                th as u8,
            );
            assert(16 * kh + 2 * th == i || 16 * kh + 2 * th + 1 == i);
            let p = 8 * kh + th;
            assert(2 * p == 16 * kh + 2 * th);
            assert(codes@[2 * p] >> 1 == codes@[2 * p + 1] >> 1);
            assert(codes@[16 * kh + 2 * th] >> 1 == c >> 1);
            assert((qh@[kh] >> (th as u8)) & 1 == c >> 1);
        }
    }
    (qs, qh)
}

/// Extract all 256 two-bit codebook indices of a block.
pub fn iq1m_unpack_codes(qs: &Vec<u8>, qh: &Vec<u8>) -> (codes: Vec<u8>)
    requires
        qs@.len() == 32,
        qh@.len() == 16,
    ensures
        codes@.len() == 256,
        forall|i: int| 0 <= i < 256 ==> #[trigger] codes@[i] == iq1m_code(qs@, qh@, i),
        forall|i: int| 0 <= i < 256 ==> #[trigger] codes@[i] < 4,
{
    let mut codes: Vec<u8> = Vec::new();
    for i in 0..256usize
        invariant
            qs@.len() == 32,
            qh@.len() == 16,
            codes@.len() == i,
            forall|p: int| 0 <= p < i ==> #[trigger] codes@[p] == iq1m_code(qs@, qh@, p),
            forall|p: int| 0 <= p < i ==> #[trigger] codes@[p] < 4,
    {
        let tl = (i % 8) as u8;
        let th = ((i / 2) % 8) as u8;
        let lo = (qs[i / 8] >> tl) & 1;
        let hi = (qh[i / 16] >> th) & 1;
        let c = lo | (hi << 1);
        proof {
            lemma_bit_ops(qs@[i as int / 8], (i as int % 8) as u8);
            lemma_bit_ops(qh@[i as int / 16], ((i as int / 2) % 8) as u8);
            let l2 = lo;
            let h2 = hi;
            assert((l2 | (h2 << 1)) < 4) by (bit_vector)
                requires
                    l2 < 2,
                    h2 < 2,
            ;
        }
        codes.push(c);
    }
    codes
}

/// The serialized form of a lookup-table-family block: code plane,
/// high-bit plane, sub-block scale codes.
pub open spec fn iq1m_bytes(qs: Seq<u8>, qh: Seq<u8>, scales: Seq<u8>) -> Seq<u8> {
    qs + qh + scales
}

/// Serialize a block to its fixed 56-byte form.
pub fn iq1m_to_bytes(b: &IQ1M) -> (r: Vec<u8>)
    requires
        iq1m_wf(*b),
    ensures
        r@ == iq1m_bytes(b.qs@, b.qh@, b.scales@),
        r@.len() == 56,
{
    let mut r: Vec<u8> = Vec::new();
    for i in 0..32usize
        invariant
            iq1m_wf(*b),
            r@ == b.qs@.take(i as int),
    {
        r.push(b.qs[i]);
        assert(r@ =~= b.qs@.take(i + 1));
    }
    assert(b.qs@.take(32) =~= b.qs@);
    for i in 0..16usize
        invariant
            iq1m_wf(*b),
            r@ == b.qs@ + b.qh@.take(i as int),
    {
        r.push(b.qh[i]);
        assert(r@ =~= b.qs@ + b.qh@.take(i + 1));
    }
    assert(b.qh@.take(16) =~= b.qh@);
    for i in 0..8usize
        invariant
            iq1m_wf(*b),
            r@ == b.qs@ + b.qh@ + b.scales@.take(i as int),
    {
        r.push(b.scales[i]);
        assert(r@ =~= b.qs@ + b.qh@ + b.scales@.take(i + 1));
    }
    assert(b.scales@.take(8) =~= b.scales@);
    assert(r@ =~= iq1m_bytes(b.qs@, b.qh@, b.scales@));
    r
}

/// Rebuild a block from its fixed 56-byte form; serializing the result
/// reproduces the input bytes exactly.
pub fn iq1m_from_bytes(d: &Vec<u8>) -> (b: IQ1M)
    requires
        d@.len() == 56,
    ensures
        iq1m_wf(b),
        iq1m_bytes(b.qs@, b.qh@, b.scales@) == d@,
{
    let mut qs: Vec<u8> = Vec::new();
    for i in 0..32usize
        invariant
            d@.len() == 56,
            qs@ == d@.subrange(0, i as int),
    {
        qs.push(d[i]);
        assert(qs@ =~= d@.subrange(0, i + 1));
    }
    let mut qh: Vec<u8> = Vec::new();
    for i in 0..16usize
        invariant
            d@.len() == 56,
            qh@ == d@.subrange(32, 32 + i as int),
    {
        qh.push(d[32 + i]);
        assert(qh@ =~= d@.subrange(32, 32 + i + 1));
    }
    let mut scales: Vec<u8> = Vec::new();
    for i in 0..8usize
        invariant
            d@.len() == 56,
            scales@ == d@.subrange(48, 48 + i as int),
    {
        scales.push(d[48 + i]);
        assert(scales@ =~= d@.subrange(48, 48 + i + 1));
    }
    let b = IQ1M { qs, qh, scales };
    assert(iq1m_bytes(b.qs@, b.qh@, b.scales@) =~= d@);
    b
}

proof fn lemma_and1(x: u8, t: u8)
    requires
        t < 8,
    ensures
        ((x >> t) & 1) & 1 == (x >> t) & 1,
{
    assert(((x >> t) & 1) & 1 == (x >> t) & 1) by (bit_vector);
}

proof fn lemma_nibbles_fix_byte(x: u8, y: u8)
    requires
        x & 0xF == y & 0xF,
        x >> 4 == y >> 4,
    ensures
        x == y,
{
    assert(x == y) by (bit_vector)
        requires
            x & 0xF == y & 0xF,
            x >> 4 == y >> 4,
    ;
}

proof fn lemma_bits_fix_byte(x: u8, y: u8)
    requires
        forall|t: u8| t < 8 ==> #[trigger] ((x >> t) & 1) == (y >> t) & 1,
    ensures
        x == y,
{
    assert((x >> 0u8) & 1 == (y >> 0u8) & 1);
    assert((x >> 1u8) & 1 == (y >> 1u8) & 1);
    assert((x >> 2u8) & 1 == (y >> 2u8) & 1);
    assert((x >> 3u8) & 1 == (y >> 3u8) & 1);
    assert((x >> 4u8) & 1 == (y >> 4u8) & 1);
    assert((x >> 5u8) & 1 == (y >> 5u8) & 1);
    assert((x >> 6u8) & 1 == (y >> 6u8) & 1);
    assert((x >> 7u8) & 1 == (y >> 7u8) & 1);
    assert(x == y) by (bit_vector)
        requires
            (x >> 0u8) & 1 == (y >> 0u8) & 1,
            (x >> 1u8) & 1 == (y >> 1u8) & 1,
            (x >> 2u8) & 1 == (y >> 2u8) & 1,
            (x >> 3u8) & 1 == (y >> 3u8) & 1,
            (x >> 4u8) & 1 == (y >> 4u8) & 1,
            (x >> 5u8) & 1 == (y >> 5u8) & 1,
            (x >> 6u8) & 1 == (y >> 6u8) & 1,
            (x >> 7u8) & 1 == (y >> 7u8) & 1,
    ;
}

/// Quantization is deterministic at the layout level: two packed
/// blocks that extract to the same 256 codes are byte-identical, so a
/// code assignment has exactly one packed form.
pub proof fn lemma_q5k_pack_deterministic(qs1: Seq<u8>, qh1: Seq<u8>, qs2: Seq<u8>, qh2: Seq<u8>)
    requires
        qs1.len() == 128,
        qs2.len() == 128,
        qh1.len() == 32,
        qh2.len() == 32,
        forall|i: int| 0 <= i < 256 ==> #[trigger] q5k_code(qs1, qh1, i) == q5k_code(qs2, qh2, i),
    ensures
        qs1 == qs2,
        qh1 == qh2,
{
    assert forall|j: int| 0 <= j < 128 implies qs1[j] == qs2[j] by {
        let lo1 = qs1[j];
        let lo2 = qs2[j];
        assert(q5k_code(qs1, qh1, 2 * j) == q5k_code(qs2, qh2, 2 * j));
        assert(q5k_code(qs1, qh1, 2 * j + 1) == q5k_code(qs2, qh2, 2 * j + 1));
        let a1 = qs1[2 * j / 2] & 0xF;
        let a2 = qs2[2 * j / 2] & 0xF;
        let h1 = (qh1[2 * j / 8] >> ((2 * j % 8) as u8)) & 1;
        let h2 = (qh2[2 * j / 8] >> ((2 * j % 8) as u8)) & 1;
        lemma_and1(qh1[2 * j / 8], (2 * j % 8) as u8);
        lemma_and1(qh2[2 * j / 8], (2 * j % 8) as u8);
        assert(a1 | (h1 << 4) == a2 | (h2 << 4));
        assert(a1 == lo1 & 0xF && a2 == lo2 & 0xF);
        assert(lo1 & 0xF == lo2 & 0xF) by (bit_vector)
            requires
                (lo1 & 0xF) | (h1 << 4) == (lo2 & 0xF) | (h2 << 4),
                h1 & 1 == h1,
                h2 & 1 == h2,
        ;
        let b1 = qs1[(2 * j + 1) / 2] >> 4;
        let b2 = qs2[(2 * j + 1) / 2] >> 4;
        lemma_bit_ops(qs1[(2 * j + 1) / 2], 0);
        lemma_bit_ops(qs2[(2 * j + 1) / 2], 0);
        let g1 = (qh1[(2 * j + 1) / 8] >> (((2 * j + 1) % 8) as u8)) & 1;
        let g2 = (qh2[(2 * j + 1) / 8] >> (((2 * j + 1) % 8) as u8)) & 1;
        lemma_and1(qh1[(2 * j + 1) / 8], ((2 * j + 1) % 8) as u8);
        lemma_and1(qh2[(2 * j + 1) / 8], ((2 * j + 1) % 8) as u8);
        assert(b1 | (g1 << 4) == b2 | (g2 << 4));
        assert(b1 == lo1 >> 4 && b2 == lo2 >> 4);
        assert(lo1 >> 4 == lo2 >> 4) by (bit_vector)
            requires
                (lo1 >> 4) | (g1 << 4) == (lo2 >> 4) | (g2 << 4),
                g1 & 1 == g1,
                g2 & 1 == g2,
                lo1 >> 4 < 16,
                lo2 >> 4 < 16,
        ;
        lemma_nibbles_fix_byte(lo1, lo2);
    }
    assert(qs1 =~= qs2);
    assert forall|k: int| 0 <= k < 32 implies qh1[k] == qh2[k] by {
        assert forall|t: u8| t < 8 implies #[trigger] ((qh1[k] >> t) & 1) == (qh2[k] >> t)
            & 1 by {
            let i = 8 * k + t;
            assert(q5k_code(qs1, qh1, i) == q5k_code(qs2, qh2, i));
            let a1 = if i % 2 == 0 { qs1[i / 2] & 0xF } else { qs1[i / 2] >> 4 };
            let a2 = if i % 2 == 0 { qs2[i / 2] & 0xF } else { qs2[i / 2] >> 4 };
            let h1 = (qh1[i / 8] >> ((i % 8) as u8)) & 1;
            let h2 = (qh2[i / 8] >> ((i % 8) as u8)) & 1;
            assert(i / 8 == k && i % 8 == t);
            lemma_and1(qh1[k], t);
            lemma_and1(qh2[k], t);
            lemma_bit_ops(qs1[i / 2], 0);
            lemma_bit_ops(qs2[i / 2], 0);
            assert(a1 == a2);
            assert(a1 | (h1 << 4) == a2 | (h2 << 4));
            assert(h1 == h2) by (bit_vector)
                requires
                    a1 | (h1 << 4) == a2 | (h2 << 4),
                    a1 == a2,
                    a1 < 16,
                    a2 < 16,
                    h1 & 1 == h1,
                    h2 & 1 == h2,
            ;
        }
        lemma_bits_fix_byte(qh1[k], qh2[k]);
    }
    assert(qh1 =~= qh2);
}

/// The lookup-table family is deterministic at the layout level too:
/// two packed blocks that extract to the same 256 codebook indices are
/// byte-identical.
pub proof fn lemma_iq1m_pack_deterministic(qs1: Seq<u8>, qh1: Seq<u8>, qs2: Seq<u8>, qh2: Seq<u8>)
    requires
        qs1.len() == 32,
        qs2.len() == 32,
        qh1.len() == 16,
        qh2.len() == 16,
        forall|i: int| 0 <= i < 256 ==> #[trigger] iq1m_code(qs1, qh1, i) == iq1m_code(qs2, qh2, i),
    ensures
        qs1 == qs2,
        qh1 == qh2,
{
    assert forall|k: int| 0 <= k < 32 implies qs1[k] == qs2[k] by {
        assert forall|t: u8| t < 8 implies #[trigger] ((qs1[k] >> t) & 1) == (qs2[k] >> t)
            & 1 by {
            let i = 8 * k + t;
            assert(iq1m_code(qs1, qh1, i) == iq1m_code(qs2, qh2, i));
            let l1 = (qs1[i / 8] >> ((i % 8) as u8)) & 1;
            let l2 = (qs2[i / 8] >> ((i % 8) as u8)) & 1;
            let h1 = (qh1[i / 16] >> (((i / 2) % 8) as u8)) & 1;
            let h2 = (qh2[i / 16] >> (((i / 2) % 8) as u8)) & 1;
            assert(i / 8 == k && i % 8 == t);
            lemma_and1(qs1[k], t);
            lemma_and1(qs2[k], t);
            lemma_and1(qh1[i / 16], ((i / 2) % 8) as u8);
            lemma_and1(qh2[i / 16], ((i / 2) % 8) as u8);
            assert(l1 | (h1 << 1) == l2 | (h2 << 1));
            assert(l1 == l2) by (bit_vector)
                requires
                    l1 | (h1 << 1) == l2 | (h2 << 1),
                    l1 & 1 == l1,
                    l2 & 1 == l2,
                    h1 & 1 == h1,
                    h2 & 1 == h2,
            ;
        }
        lemma_bits_fix_byte(qs1[k], qs2[k]);
    }
    assert(qs1 =~= qs2);
    assert forall|k: int| 0 <= k < 16 implies qh1[k] == qh2[k] by {
        assert forall|t: u8| t < 8 implies #[trigger] ((qh1[k] >> t) & 1) == (qh2[k] >> t)
            & 1 by {
            let i = 16 * k + 2 * t;
            assert(iq1m_code(qs1, qh1, i) == iq1m_code(qs2, qh2, i));
            let l1 = (qs1[i / 8] >> ((i % 8) as u8)) & 1;
            let l2 = (qs2[i / 8] >> ((i % 8) as u8)) & 1;
            let h1 = (qh1[i / 16] >> (((i / 2) % 8) as u8)) & 1;
            let h2 = (qh2[i / 16] >> (((i / 2) % 8) as u8)) & 1;
            assert(i / 16 == k && (i / 2) % 8 == t);
            lemma_and1(qs1[i / 8], (i % 8) as u8);
            lemma_and1(qs2[i / 8], (i % 8) as u8);
            lemma_and1(qh1[k], t);
            lemma_and1(qh2[k], t);
            assert(l1 == l2);
            assert(l1 | (h1 << 1) == l2 | (h2 << 1));
            assert(h1 == h2) by (bit_vector)
                requires
                    l1 | (h1 << 1) == l2 | (h2 << 1),
                    l1 == l2,
                    l1 & 1 == l1,
                    l2 & 1 == l2,
                    h1 & 1 == h1,
                    h2 & 1 == h2,
            ;
        }
        lemma_bits_fix_byte(qh1[k], qh2[k]);
    }
    assert(qh1 =~= qh2);
}

} // verus!
