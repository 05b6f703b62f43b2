//! Table-driven CRC-32 as used by PNG (reflected polynomial 0xEDB88320).

use vstd::prelude::*;

verus! {

/// The reflected CRC-32 polynomial.
pub const POLYNOMIAL: u32 = 0xedb8_8320;

/// One round of polynomial division on a reflected value.
pub open spec fn div_round(c: u32) -> u32 {
    if c & 1 != 0 {
        POLYNOMIAL ^ (c >> 1)
    } else {
        c >> 1
    }
}

/// `k` rounds of `div_round`, starting from `c`.
pub open spec fn div_rounds(c: u32, k: nat) -> u32
    decreases k,
{
    if k == 0 {
        c
    } else {
        div_round(div_rounds(c, (k - 1) as nat))
    }
}

/// The lookup-table entry for byte `n`: eight division rounds seeded with `n`.
pub open spec fn table_entry(n: u8) -> u32 {
    div_round(div_round(div_round(div_round(div_round(div_round(div_round(div_round(n as u32))))))))
}

/// The accumulator after feeding one byte.
pub open spec fn crc_step(state: u32, byte: u8) -> u32 {
    table_entry(((state ^ (byte as u32)) & 0xff) as u8) ^ (state >> 8)
}

/// The accumulator after feeding `bytes`, left to right, starting from `state`.
pub open spec fn crc_fold(state: u32, bytes: Seq<u8>) -> u32
    decreases bytes.len(),
{
    if bytes.len() == 0 {
        state
    } else {
        crc_step(crc_fold(state, bytes.drop_last()), bytes.last())
    }
}

/// The initial accumulator: all bits set.
pub const INITIAL: u32 = 0xffff_ffff;

/// The CRC-32 of `bytes`.
pub open spec fn crc32(bytes: Seq<u8>) -> u32 {
    !crc_fold(INITIAL, bytes)
}

/// Feeding `a + b` is feeding `a`, then `b`.
pub proof fn lemma_crc_fold_append(state: u32, a: Seq<u8>, b: Seq<u8>)
    ensures
        crc_fold(state, a + b) == crc_fold(crc_fold(state, a), b),
    decreases b.len(),
{
    if b.len() == 0 {
        assert(a + b =~= a);
    } else {
        assert((a + b).drop_last() =~= a + b.drop_last());
        lemma_crc_fold_append(state, a, b.drop_last());
    }
}

/// Division rounds distribute over xor.
proof fn lemma_div_round_xor(x: u32, y: u32)
    by (bit_vector)
    ensures
        div_round(x ^ y) == div_round(x) ^ div_round(y),
{
}

/// The table is linear over xor.
proof fn lemma_table_xor(i: u8, j: u8)
    ensures
        table_entry(i ^ j) == table_entry(i) ^ table_entry(j),
{
    let x0 = i as u32;
    let y0 = j as u32;
    assert((i ^ j) as u32 == x0 ^ y0) by (bit_vector)
        requires
            x0 == i as u32,
            y0 == j as u32,
    ;
    lemma_div_round_xor(x0, y0);
    let (x1, y1) = (div_round(x0), div_round(y0));
    lemma_div_round_xor(x1, y1);
    let (x2, y2) = (div_round(x1), div_round(y1));
    lemma_div_round_xor(x2, y2);
    let (x3, y3) = (div_round(x2), div_round(y2));
    lemma_div_round_xor(x3, y3);
    let (x4, y4) = (div_round(x3), div_round(y3));
    lemma_div_round_xor(x4, y4);
    let (x5, y5) = (div_round(x4), div_round(y4));
    lemma_div_round_xor(x5, y5);
    let (x6, y6) = (div_round(x5), div_round(y5));
    lemma_div_round_xor(x6, y6);
    let (x7, y7) = (div_round(x6), div_round(y6));
    lemma_div_round_xor(x7, y7);
}

/// One step is linear in the accumulator and the byte together.
proof fn lemma_step_xor(a: u32, b: u8, c: u32, d: u8)
    ensures
        crc_step(a, b) ^ crc_step(c, d) == crc_step(a ^ c, b ^ d),
{
    let i1 = ((a ^ (b as u32)) & 0xff) as u8;
    let i2 = ((c ^ (d as u32)) & 0xff) as u8;
    let i3 = (((a ^ c) ^ ((b ^ d) as u32)) & 0xff) as u8;
    assert(i1 ^ i2 == i3) by (bit_vector)
        requires
            i1 == ((a ^ (b as u32)) & 0xff) as u8,
            i2 == ((c ^ (d as u32)) & 0xff) as u8,
            i3 == (((a ^ c) ^ ((b ^ d) as u32)) & 0xff) as u8,
    ;
    lemma_table_xor(i1, i2);
    let t1 = table_entry(i1);
    let t2 = table_entry(i2);
    assert((t1 ^ (a >> 8)) ^ (t2 ^ (c >> 8)) == (t1 ^ t2) ^ ((a ^ c) >> 8)) by (bit_vector);
}

/// Bytewise xor of two sequences of equal length.
pub open spec fn xor_bytes(x: Seq<u8>, y: Seq<u8>) -> Seq<u8> {
    Seq::new(x.len(), |i: int| x[i] ^ y[i])
}

/// Folding is linear: the xor of two folds is the fold of the xors.
proof fn lemma_fold_xor(s: u32, t: u32, x: Seq<u8>, y: Seq<u8>)
    requires
        x.len() == y.len(),
    ensures
        crc_fold(s, x) ^ crc_fold(t, y) == crc_fold(s ^ t, xor_bytes(x, y)),
    decreases x.len(),
{
    if x.len() > 0 {
        assert(xor_bytes(x, y).drop_last() =~= xor_bytes(x.drop_last(), y.drop_last()));
        lemma_fold_xor(s, t, x.drop_last(), y.drop_last());
        lemma_step_xor(crc_fold(s, x.drop_last()), x.last(), crc_fold(t, y.drop_last()), y.last());
    }
}

/// Zero bytes keep a zero accumulator at zero.
proof fn lemma_fold_zeros(e: Seq<u8>)
    requires
        forall|i: int| 0 <= i < e.len() ==> e[i] == 0,
    ensures
        crc_fold(0, e) == 0,
    decreases e.len(),
{
    if e.len() > 0 {
        lemma_fold_zeros(e.drop_last());
        let z: u32 = 0;
        let zb: u8 = 0;
        assert(crc_step(z, zb) == 0) by (bit_vector)
            requires
                z == 0,
                zb == 0,
        ;
    }
}

/// A sequence with a single nonzero byte folds, from zero, to a nonzero value.
proof fn lemma_fold_single_nonzero(e: Seq<u8>, p: int)
    requires
        0 <= p < e.len(),
        e[p] != 0,
        forall|i: int| 0 <= i < e.len() && i != p ==> e[i] == 0,
    ensures
        crc_fold(0, e) != 0,
    decreases e.len(),
{
    let head = e.drop_last();
    let last = e.last();
    if p == e.len() - 1 {
        lemma_fold_zeros(head);
        let z: u32 = 0;
        assert(last != 0 ==> crc_step(z, last) != 0) by (bit_vector)
            requires
                z == 0,
        ;
    } else {
        lemma_fold_single_nonzero(head, p);
        let s = crc_fold(0, head);
        let zb: u8 = 0;
        assert(s != 0 ==> crc_step(s, zb) != 0) by (bit_vector)
            requires
                zb == 0,
        ;
    }
}

/// Flipping any single bit of the input changes the CRC-32.
pub proof fn lemma_crc_detects_bit_flip(x: Seq<u8>, p: int, bit: u8)
    requires
        0 <= p < x.len(),
        bit < 8,
    ensures
        crc32(x.update(p, x[p] ^ (1u8 << bit))) != crc32(x),
{
    let m = 1u8 << bit;
    let y = x.update(p, x[p] ^ m);
    let e = xor_bytes(x, y);
    assert(m != 0) by (bit_vector)
        requires
            m == 1u8 << bit,
            bit < 8,
    ;
    assert forall|i: int| 0 <= i < e.len() && i != p implies e[i] == 0 by {
        let v = x[i];
        assert(v ^ v == 0) by (bit_vector);
    }
    let v = x[p];
    assert(v ^ (v ^ m) == m) by (bit_vector);
    lemma_fold_single_nonzero(e, p);
    lemma_fold_xor(INITIAL, INITIAL, x, y);
    let a = crc_fold(INITIAL, x);
    let b = crc_fold(INITIAL, y);
    let init = INITIAL;
    assert(init ^ init == 0) by (bit_vector);
    assert(a ^ b != 0 ==> !a != !b) by (bit_vector);
}

fn crc_table(n: u8) -> (r: u32)
    ensures
        r == table_entry(n),
{
    let mut c: u32 = n as u32;
    let mut k: u32 = 0;
    while k < 8
        invariant
            k <= 8,
            c == div_rounds(n as u32, k as nat),
        decreases 8 - k,
    {
        if c & 1 != 0 {
            c = POLYNOMIAL ^ (c >> 1);
        } else {
            c = c >> 1;
        }
        k = k + 1;
    }
    proof {
        reveal_with_fuel(div_rounds, 9);
    }
    c
}

/// A running CRC-32 accumulator. It holds the complement of the visible CRC.
#[derive(Debug, Clone, Copy, PartialEq, Eq, Structural)]
pub struct Crc(u32);

impl View for Crc {
    type V = u32;

    /// The raw accumulator.
    closed spec fn view(&self) -> u32 {
        self.0
    }
}

impl Crc {
    /// A fresh accumulator, all bits set.
    pub fn new() -> (r: Self)
        ensures
            r@ == INITIAL,
    {
        Crc(INITIAL)
    }

    /// The CRC of what has been fed so far.
    pub fn get(&self) -> (r: u32)
        ensures
            r == !self@,
    {
        !self.0
    }

    /// Feeds one byte.
    pub fn update_byte(&self, byte: u8) -> (r: Self)
        ensures
            r@ == crc_step(self@, byte),
    {
        let index = (self.0 ^ (byte as u32)) & 0xff;
        Crc(crc_table(index as u8) ^ (self.0 >> 8))
    }

    /// Feeds `data`, left to right.
    pub fn update(&self, data: &[u8]) -> (r: Self)
        ensures
            r@ == crc_fold(self@, data@),
    {
        let mut crc = *self;
        let mut i: usize = 0;
        while i < data.len()
            invariant
                i <= data@.len(),
                crc@ == crc_fold(self@, data@.subrange(0, i as int)),
            decreases data@.len() - i,
        {
            assert(data@.subrange(0, i + 1).drop_last() =~= data@.subrange(0, i as int));
            crc = crc.update_byte(data[i]);
            i = i + 1;
        }
        assert(data@.subrange(0, i as int) =~= data@);
        crc
    }
}

} // verus!
