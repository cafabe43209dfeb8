//! Prime wheels: cursors over the integers that no prime of a small basis
//! divides, used as trial-division candidates.
use vstd::arithmetic::div_mod::{lemma_mod_mod, lemma_mod_multiples_vanish};
use vstd::prelude::*;

verus! {

/// The residues that one turn of the {2, 3, 5} wheel visits, from its first
/// spoke up to the start of the next turn (`31 = 30 + 1`).
pub open spec fn spokes30() -> Seq<int> {
    seq![7, 11, 13, 17, 19, 23, 29, 31]
}

/// The `k`-th candidate of the {2, 3, 5} wheel: the basis primes first, then
/// one value per spoke, turn after turn.
pub open spec fn wheel30(k: nat) -> int {
    if k < 3 {
        seq![2int, 3, 5][k as int]
    } else {
        30 * (((k - 3) as int) / 8) + spokes30()[((k - 3) as int) % 8]
    }
}

/// Consecutive candidates of the {2, 3, 5} wheel increase by 1 to 6, and the
/// sequence never falls below its position.
pub proof fn lemma_wheel30_step(k: nat)
    ensures
        wheel30(k) < wheel30(k + 1) <= wheel30(k) + 6,
        wheel30(k) >= k + 2,
{
    if k >= 3 {
        let j = (k - 3) as int;
        let q = j / 8;
        let i = j % 8;
        assert(j == 8 * q + i);
        if i < 7 {
            assert((j + 1) / 8 == q && (j + 1) % 8 == i + 1);
        } else {
            assert((j + 1) / 8 == q + 1 && (j + 1) % 8 == 0);
        }
    }
}

/// Every integer strictly between two consecutive candidates of the
/// {2, 3, 5} wheel is a multiple of a basis prime not above the lower one.
pub proof fn lemma_wheel30_gap(k: nat, d: int)
    requires
        wheel30(k) < d < wheel30(k + 1),
    ensures
        (d % 2 == 0 && 2 <= wheel30(k)) || (d % 3 == 0 && 3 <= wheel30(k)) || (d % 5 == 0 && 5
            <= wheel30(k)),
{
    if k >= 3 {
        let j = (k - 3) as int;
        let q = j / 8;
        let i = j % 8;
        assert(j == 8 * q + i);
        if i < 7 {
            assert((j + 1) / 8 == q && (j + 1) % 8 == i + 1);
        } else {
            assert((j + 1) / 8 == q + 1 && (j + 1) % 8 == 0);
        }
        let t = d - 30 * q;
        assert(wheel30(k) == 30 * q + spokes30()[i]);
        assert(spokes30()[i] < t);
        assert(7 < t < 37);
        lemma_mod_multiples_vanish(15 * q, t, 2);
        lemma_mod_multiples_vanish(10 * q, t, 3);
        lemma_mod_multiples_vanish(6 * q, t, 5);
        assert(d % 2 == t % 2 && d % 3 == t % 3 && d % 5 == t % 5);
        lemma_small_gap(i, t);
    }
}

/// Within one turn of the {2, 3, 5} wheel, an offset strictly between two
/// consecutive spokes is a multiple of 2, 3 or 5.
proof fn lemma_small_gap(i: int, t: int)
    requires
        0 <= i < 8,
        spokes30()[i] < t,
        i < 7 ==> t < spokes30()[i + 1],
        i == 7 ==> t < 37,
    ensures
        t % 2 == 0 || t % 3 == 0 || t % 5 == 0,
{
    assert(7 < t < 37);
    assert(t != 11 && t != 13 && t != 17 && t != 19 && t != 23 && t != 29 && t != 31);
}

/// The residues that one turn of the {2, 3, 5, 7} wheel visits, from its first
/// spoke up to the start of the next turn (`211 = 210 + 1`).
pub open spec fn spokes210() -> Seq<int> {
    seq![
        11, 13, 17, 19, 23, 29, 31, 37, 41, 43, 47, 53, 59, 61, 67, 71, 73,
        79, 83, 89, 97, 101, 103, 107, 109, 113, 121, 127, 131, 137, 139, 143,
        149, 151, 157, 163, 167, 169, 173, 179, 181, 187, 191, 193, 197, 199,
        209, 211,
    ]
}

/// The `k`-th candidate of the {2, 3, 5, 7} wheel.
pub open spec fn wheel210(k: nat) -> int {
    if k < 4 {
        seq![2int, 3, 5, 7][k as int]
    } else {
        210 * (((k - 4) as int) / 48) + spokes210()[((k - 4) as int) % 48]
    }
}

fn spoke30_at(i: usize) -> (r: u128)
    requires
        i < 8,
    ensures
        r == spokes30()[i as int],
{
    let t: [u128; 8] = [7, 11, 13, 17, 19, 23, 29, 31];
    assert(t@ =~= seq![7u128, 11, 13, 17, 19, 23, 29, 31]);
    t[i]
}

fn spoke210_at(i: usize) -> (r: u128)
    requires
        i < 48,
    ensures
        r == spokes210()[i as int],
{
    let t: [u128; 48] = [
        11, 13, 17, 19, 23, 29, 31, 37, 41, 43, 47, 53, 59, 61, 67, 71, 73,
        79, 83, 89, 97, 101, 103, 107, 109, 113, 121, 127, 131, 137, 139, 143,
        149, 151, 157, 163, 167, 169, 173, 179, 181, 187, 191, 193, 197, 199,
        209, 211,
    ];
    assert(t@ =~= seq![
        11u128, 13, 17, 19, 23, 29, 31, 37, 41, 43, 47, 53, 59, 61, 67, 71, 73,
        79, 83, 89, 97, 101, 103, 107, 109, 113, 121, 127, 131, 137, 139, 143,
        149, 151, 157, 163, 167, 169, 173, 179, 181, 187, 191, 193, 197, 199,
        209, 211,
    ]);
    t[i]
}

/// Cursor over the candidates of the {2, 3, 5} wheel.
#[derive(Clone, Debug, PartialEq, Eq)]
pub struct PrimeWheel30 {
    base: u128,
    first: usize,
    index: usize,
}

impl Default for PrimeWheel30 {
    fn default() -> (r: Self)
        ensures
            r.wf(),
            r.pos() == 0,
    {
        PrimeWheel30::new()
    }
}

impl PrimeWheel30 {
    /// The cursor is consistent: a turn starts at a multiple of 30 and the
    /// spoke index stays within one turn.
    pub closed spec fn wf(&self) -> bool {
        &&& self.first <= 3
        &&& self.index <= 8
        &&& self.base % 30 == 0
        &&& self.first < 3 ==> self.base == 0 && self.index == 0
    }

    /// How many candidates the cursor has produced.
    pub closed spec fn pos(&self) -> nat {
        if self.first < 3 {
            self.first as nat
        } else {
            (3 + 8 * (self.base / 30) + self.index) as nat
        }
    }

    /// A cursor at the start of the sequence.
    pub fn new() -> (r: Self)
        ensures
            r.wf(),
            r.pos() == 0,
    {
        PrimeWheel30 { base: 0, first: 0, index: 0 }
    }

    /// The next candidate, `wheel30(pos)`, or `None` once it no longer fits
    /// in 128 bits.
    pub fn next(&mut self) -> (r: Option<u128>)
        requires
            old(self).wf(),
        ensures
            final(self).wf(),
            wheel30(old(self).pos()) <= u128::MAX ==> r == Some(wheel30(old(self).pos()) as u128)
                && final(self).pos() == old(self).pos() + 1,
            wheel30(old(self).pos()) > u128::MAX ==> r is None && final(self).pos() == old(self).pos(),
    {
        if self.first < 3 {
            let n: u128 = if self.first == 0 {
                2
            } else if self.first == 1 {
                3
            } else {
                5
            };
            self.first = self.first + 1;
            Some(n)
        } else if self.index < 8 {
            let sp = spoke30_at(self.index);
            assert(((8 * (self.base / 30) + self.index) as int) / 8 == self.base / 30);
            assert(((8 * (self.base / 30) + self.index) as int) % 8 == self.index);
            if self.base > u128::MAX - sp {
                None
            } else {
                self.index = self.index + 1;
                Some(self.base + sp)
            }
        } else {
            assert(((8 * (self.base / 30) + self.index) as int) / 8 == self.base / 30 + 1);
            assert(((8 * (self.base / 30) + self.index) as int) % 8 == 0);
            if self.base > u128::MAX - 37 {
                None
            } else {
                self.base = self.base + 30;
                self.index = 1;
                Some(self.base + 7)
            }
        }
    }
}

/// Cursor over the candidates of the {2, 3, 5, 7} wheel.
#[derive(Clone, Debug, PartialEq, Eq)]
pub struct PrimeWheel210 {
    base: u128,
    first: usize,
    index: usize,
}

impl Default for PrimeWheel210 {
    fn default() -> (r: Self)
        ensures
            r.wf(),
            r.pos() == 0,
    {
        PrimeWheel210::new()
    }
}

impl PrimeWheel210 {
    /// The cursor is consistent: a turn starts at a multiple of 210 and the
    /// spoke index stays within one turn.
    pub closed spec fn wf(&self) -> bool {
        &&& self.first <= 4
        &&& self.index <= 48
        &&& self.base % 210 == 0
        &&& self.first < 4 ==> self.base == 0 && self.index == 0
    }

    /// How many candidates the cursor has produced.
    pub closed spec fn pos(&self) -> nat {
        if self.first < 4 {
            self.first as nat
        } else {
            (4 + 48 * (self.base / 210) + self.index) as nat
        }
    }

    /// A cursor at the start of the sequence.
    pub fn new() -> (r: Self)
        ensures
            r.wf(),
            r.pos() == 0,
    {
        PrimeWheel210 { base: 0, first: 0, index: 0 }
    }

    /// The next candidate, `wheel210(pos)`, or `None` once it no longer fits
    /// in 128 bits.
    pub fn next(&mut self) -> (r: Option<u128>)
        requires
            old(self).wf(),
        ensures
            final(self).wf(),
            wheel210(old(self).pos()) <= u128::MAX ==> r == Some(wheel210(old(self).pos()) as u128)
                && final(self).pos() == old(self).pos() + 1,
            wheel210(old(self).pos()) > u128::MAX ==> r is None && final(self).pos() == old(self).pos(),
    {
        if self.first < 4 {
            let n: u128 = if self.first == 0 {
                2
            } else if self.first == 1 {
                3
            } else if self.first == 2 {
                5
            } else {
                7
            };
            self.first = self.first + 1;
            Some(n)
        } else if self.index < 48 {
            let sp = spoke210_at(self.index);
            assert(((48 * (self.base / 210) + self.index) as int) / 48 == self.base / 210);
            assert(((48 * (self.base / 210) + self.index) as int) % 48 == self.index);
            if self.base > u128::MAX - sp {
                None
            } else {
                self.index = self.index + 1;
                Some(self.base + sp)
            }
        } else {
            assert(((48 * (self.base / 210) + self.index) as int) / 48 == self.base / 210 + 1);
            assert(((48 * (self.base / 210) + self.index) as int) % 48 == 0);
            if self.base > u128::MAX - 221 {
                None
            } else {
                self.base = self.base + 210;
                self.index = 1;
                Some(self.base + 11)
            }
        }
    }
}

/// `num` lies on the {2, 3, 5, 7} wheel: it is one of the basis primes, or
/// it is at least 11 and none of them divides it.
pub open spec fn is_wheel210_member(num: int) -> bool {
    num == 2 || num == 3 || num == 5 || num == 7 || (num >= 11 && num % 2 != 0 && num % 3 != 0
        && num % 5 != 0 && num % 7 != 0)
}

/// The residue `i` modulo 210 is prime to 2, 3, 5 and 7.
pub open spec fn coprime210(i: int) -> bool {
    i % 2 != 0 && i % 3 != 0 && i % 5 != 0 && i % 7 != 0
}

fn pw210_bitmap_b(k: usize) -> (r: u8)
    requires
        k < 27,
    ensures
        r == seq![
        0x02u8, 0x28, 0x8a, 0xa0, 0x20, 0x8a, 0x20, 0x28,
        0x88, 0x82, 0x08, 0x02, 0xa2, 0x28, 0x02, 0x82,
        0x08, 0x8a, 0xa0, 0x20, 0x88, 0x22, 0x28, 0x88,
        0xa2, 0x00, 0x02,
        ][k as int],
{
    let t: [u8; 27] = [
        0x02, 0x28, 0x8a, 0xa0, 0x20, 0x8a, 0x20, 0x28,
        0x88, 0x82, 0x08, 0x02, 0xa2, 0x28, 0x02, 0x82,
        0x08, 0x8a, 0xa0, 0x20, 0x88, 0x22, 0x28, 0x88,
        0xa2, 0x00, 0x02,
    ];
    assert(t@ =~= seq![
        0x02u8, 0x28, 0x8a, 0xa0, 0x20, 0x8a, 0x20, 0x28,
        0x88, 0x82, 0x08, 0x02, 0xa2, 0x28, 0x02, 0x82,
        0x08, 0x8a, 0xa0, 0x20, 0x88, 0x22, 0x28, 0x88,
        0xa2, 0x00, 0x02,
    ]);
    t[k]
}

fn pw210_bitmap_32(k: usize) -> (r: u32)
    requires
        k < 7,
    ensures
        r == seq![0xa08a2802u32, 0x28208a20, 0x02088288, 0x820228a2, 0x20a08a08, 0x88282288, 0x000200a2][k as int],
{
    let t: [u32; 7] = [0xa08a2802, 0x28208a20, 0x02088288, 0x820228a2, 0x20a08a08, 0x88282288, 0x000200a2];
    assert(t@ =~= seq![0xa08a2802u32, 0x28208a20, 0x02088288, 0x820228a2, 0x20a08a08, 0x88282288, 0x000200a2]);
    t[k]
}

proof fn lemma_bitmap_b(i: u32, w: u8)
    requires
        i < 210,
        w == seq![
        0x02u8, 0x28, 0x8a, 0xa0, 0x20, 0x8a, 0x20, 0x28,
        0x88, 0x82, 0x08, 0x02, 0xa2, 0x28, 0x02, 0x82,
        0x08, 0x8a, 0xa0, 0x20, 0x88, 0x22, 0x28, 0x88,
        0xa2, 0x00, 0x02,
        ][(i / 8) as int],
    ensures
        ((w & (1u8 << ((i % 8) as u8))) > 0) == coprime210(i as int),
{
    if i < 8 {
        assert(w == 0x02u8);
        assert(0 <= i < 8 ==> ((0x02u8 & (1u8 << ((i % 8) as u8))) > 0) == (i % 2 != 0 && i % 3 != 0 && i % 5 != 0 && i % 7 != 0)) by (bit_vector);
    } else if i < 16 {
        assert(w == 0x28u8);
        assert(8 <= i < 16 ==> ((0x28u8 & (1u8 << ((i % 8) as u8))) > 0) == (i % 2 != 0 && i % 3 != 0 && i % 5 != 0 && i % 7 != 0)) by (bit_vector);
    } else if i < 24 {
        assert(w == 0x8au8);
        assert(16 <= i < 24 ==> ((0x8au8 & (1u8 << ((i % 8) as u8))) > 0) == (i % 2 != 0 && i % 3 != 0 && i % 5 != 0 && i % 7 != 0)) by (bit_vector);
    } else if i < 32 {
        assert(w == 0xa0u8);
        assert(24 <= i < 32 ==> ((0xa0u8 & (1u8 << ((i % 8) as u8))) > 0) == (i % 2 != 0 && i % 3 != 0 && i % 5 != 0 && i % 7 != 0)) by (bit_vector);
    } else if i < 40 {
        assert(w == 0x20u8);
        assert(32 <= i < 40 ==> ((0x20u8 & (1u8 << ((i % 8) as u8))) > 0) == (i % 2 != 0 && i % 3 != 0 && i % 5 != 0 && i % 7 != 0)) by (bit_vector);
    } else if i < 48 {
        assert(w == 0x8au8);
        assert(40 <= i < 48 ==> ((0x8au8 & (1u8 << ((i % 8) as u8))) > 0) == (i % 2 != 0 && i % 3 != 0 && i % 5 != 0 && i % 7 != 0)) by (bit_vector);
    } else if i < 56 {
        assert(w == 0x20u8);
        assert(48 <= i < 56 ==> ((0x20u8 & (1u8 << ((i % 8) as u8))) > 0) == (i % 2 != 0 && i % 3 != 0 && i % 5 != 0 && i % 7 != 0)) by (bit_vector);
    } else if i < 64 {
        assert(w == 0x28u8);
        assert(56 <= i < 64 ==> ((0x28u8 & (1u8 << ((i % 8) as u8))) > 0) == (i % 2 != 0 && i % 3 != 0 && i % 5 != 0 && i % 7 != 0)) by (bit_vector);
    } else if i < 72 {
        assert(w == 0x88u8);
        assert(64 <= i < 72 ==> ((0x88u8 & (1u8 << ((i % 8) as u8))) > 0) == (i % 2 != 0 && i % 3 != 0 && i % 5 != 0 && i % 7 != 0)) by (bit_vector);
    } else if i < 80 {
        assert(w == 0x82u8);
        assert(72 <= i < 80 ==> ((0x82u8 & (1u8 << ((i % 8) as u8))) > 0) == (i % 2 != 0 && i % 3 != 0 && i % 5 != 0 && i % 7 != 0)) by (bit_vector);
    } else if i < 88 {
        assert(w == 0x08u8);
        assert(80 <= i < 88 ==> ((0x08u8 & (1u8 << ((i % 8) as u8))) > 0) == (i % 2 != 0 && i % 3 != 0 && i % 5 != 0 && i % 7 != 0)) by (bit_vector);
    } else if i < 96 {
        assert(w == 0x02u8);
        assert(88 <= i < 96 ==> ((0x02u8 & (1u8 << ((i % 8) as u8))) > 0) == (i % 2 != 0 && i % 3 != 0 && i % 5 != 0 && i % 7 != 0)) by (bit_vector);
    } else if i < 104 {
        assert(w == 0xa2u8);
        assert(96 <= i < 104 ==> ((0xa2u8 & (1u8 << ((i % 8) as u8))) > 0) == (i % 2 != 0 && i % 3 != 0 && i % 5 != 0 && i % 7 != 0)) by (bit_vector);
    } else if i < 112 {
        assert(w == 0x28u8);
        assert(104 <= i < 112 ==> ((0x28u8 & (1u8 << ((i % 8) as u8))) > 0) == (i % 2 != 0 && i % 3 != 0 && i % 5 != 0 && i % 7 != 0)) by (bit_vector);
    } else if i < 120 {
        assert(w == 0x02u8);
        assert(112 <= i < 120 ==> ((0x02u8 & (1u8 << ((i % 8) as u8))) > 0) == (i % 2 != 0 && i % 3 != 0 && i % 5 != 0 && i % 7 != 0)) by (bit_vector);
    } else if i < 128 {
        assert(w == 0x82u8);
        assert(120 <= i < 128 ==> ((0x82u8 & (1u8 << ((i % 8) as u8))) > 0) == (i % 2 != 0 && i % 3 != 0 && i % 5 != 0 && i % 7 != 0)) by (bit_vector);
    } else if i < 136 {
        assert(w == 0x08u8);
        assert(128 <= i < 136 ==> ((0x08u8 & (1u8 << ((i % 8) as u8))) > 0) == (i % 2 != 0 && i % 3 != 0 && i % 5 != 0 && i % 7 != 0)) by (bit_vector);
    } else if i < 144 {
        assert(w == 0x8au8);
        assert(136 <= i < 144 ==> ((0x8au8 & (1u8 << ((i % 8) as u8))) > 0) == (i % 2 != 0 && i % 3 != 0 && i % 5 != 0 && i % 7 != 0)) by (bit_vector);
    } else if i < 152 {
        assert(w == 0xa0u8);
        assert(144 <= i < 152 ==> ((0xa0u8 & (1u8 << ((i % 8) as u8))) > 0) == (i % 2 != 0 && i % 3 != 0 && i % 5 != 0 && i % 7 != 0)) by (bit_vector);
    } else if i < 160 {
        assert(w == 0x20u8);
        assert(152 <= i < 160 ==> ((0x20u8 & (1u8 << ((i % 8) as u8))) > 0) == (i % 2 != 0 && i % 3 != 0 && i % 5 != 0 && i % 7 != 0)) by (bit_vector);
    } else if i < 168 {
        assert(w == 0x88u8);
        assert(160 <= i < 168 ==> ((0x88u8 & (1u8 << ((i % 8) as u8))) > 0) == (i % 2 != 0 && i % 3 != 0 && i % 5 != 0 && i % 7 != 0)) by (bit_vector);
    } else if i < 176 {
        assert(w == 0x22u8);
        assert(168 <= i < 176 ==> ((0x22u8 & (1u8 << ((i % 8) as u8))) > 0) == (i % 2 != 0 && i % 3 != 0 && i % 5 != 0 && i % 7 != 0)) by (bit_vector);
    } else if i < 184 {
        assert(w == 0x28u8);
        assert(176 <= i < 184 ==> ((0x28u8 & (1u8 << ((i % 8) as u8))) > 0) == (i % 2 != 0 && i % 3 != 0 && i % 5 != 0 && i % 7 != 0)) by (bit_vector);
    } else if i < 192 {
        assert(w == 0x88u8);
        assert(184 <= i < 192 ==> ((0x88u8 & (1u8 << ((i % 8) as u8))) > 0) == (i % 2 != 0 && i % 3 != 0 && i % 5 != 0 && i % 7 != 0)) by (bit_vector);
    } else if i < 200 {
        assert(w == 0xa2u8);
        assert(192 <= i < 200 ==> ((0xa2u8 & (1u8 << ((i % 8) as u8))) > 0) == (i % 2 != 0 && i % 3 != 0 && i % 5 != 0 && i % 7 != 0)) by (bit_vector);
    } else if i < 208 {
        assert(w == 0x00u8);
        assert(200 <= i < 208 ==> ((0x00u8 & (1u8 << ((i % 8) as u8))) > 0) == (i % 2 != 0 && i % 3 != 0 && i % 5 != 0 && i % 7 != 0)) by (bit_vector);
    } else if i < 216 {
        assert(w == 0x02u8);
        assert(208 <= i < 210 ==> ((0x02u8 & (1u8 << ((i % 8) as u8))) > 0) == (i % 2 != 0 && i % 3 != 0 && i % 5 != 0 && i % 7 != 0)) by (bit_vector);
    }
}

proof fn lemma_bitmap_32(i: u32, w: u32)
    requires
        i < 210,
        w == seq![0xa08a2802u32, 0x28208a20, 0x02088288, 0x820228a2, 0x20a08a08, 0x88282288, 0x000200a2][(i / 32) as int],
    ensures
        ((w & (1u32 << (i & 0x1f))) > 0) == coprime210(i as int),
{
    if i < 32 {
        assert(w == 0xa08a2802u32);
        assert(0 <= i < 32 ==> ((0xa08a2802u32 & (1u32 << (i & 0x1f))) > 0) == (i % 2 != 0 && i % 3 != 0 && i % 5 != 0 && i % 7 != 0)) by (bit_vector);
    } else if i < 64 {
        assert(w == 0x28208a20u32);
        assert(32 <= i < 64 ==> ((0x28208a20u32 & (1u32 << (i & 0x1f))) > 0) == (i % 2 != 0 && i % 3 != 0 && i % 5 != 0 && i % 7 != 0)) by (bit_vector);
    } else if i < 96 {
        assert(w == 0x02088288u32);
        assert(64 <= i < 96 ==> ((0x02088288u32 & (1u32 << (i & 0x1f))) > 0) == (i % 2 != 0 && i % 3 != 0 && i % 5 != 0 && i % 7 != 0)) by (bit_vector);
    } else if i < 128 {
        assert(w == 0x820228a2u32);
        assert(96 <= i < 128 ==> ((0x820228a2u32 & (1u32 << (i & 0x1f))) > 0) == (i % 2 != 0 && i % 3 != 0 && i % 5 != 0 && i % 7 != 0)) by (bit_vector);
    } else if i < 160 {
        assert(w == 0x20a08a08u32);
        assert(128 <= i < 160 ==> ((0x20a08a08u32 & (1u32 << (i & 0x1f))) > 0) == (i % 2 != 0 && i % 3 != 0 && i % 5 != 0 && i % 7 != 0)) by (bit_vector);
    } else if i < 192 {
        assert(w == 0x88282288u32);
        assert(160 <= i < 192 ==> ((0x88282288u32 & (1u32 << (i & 0x1f))) > 0) == (i % 2 != 0 && i % 3 != 0 && i % 5 != 0 && i % 7 != 0)) by (bit_vector);
    } else if i < 224 {
        assert(w == 0x000200a2u32);
        assert(192 <= i < 210 ==> ((0x000200a2u32 & (1u32 << (i & 0x1f))) > 0) == (i % 2 != 0 && i % 3 != 0 && i % 5 != 0 && i % 7 != 0)) by (bit_vector);
    }
}

proof fn lemma_spoke210_coprime(i: int)
    requires
        0 <= i < 48,
    ensures
        coprime210(spokes210()[i]),
        11 <= spokes210()[i] <= 211,
{
    if i == 0 {
        assert(spokes210()[i] == 11);
    } else if i == 1 {
        assert(spokes210()[i] == 13);
    } else if i == 2 {
        assert(spokes210()[i] == 17);
    } else if i == 3 {
        assert(spokes210()[i] == 19);
    } else if i == 4 {
        assert(spokes210()[i] == 23);
    } else if i == 5 {
        assert(spokes210()[i] == 29);
    } else if i == 6 {
        assert(spokes210()[i] == 31);
    } else if i == 7 {
        assert(spokes210()[i] == 37);
    } else if i == 8 {
        assert(spokes210()[i] == 41);
    } else if i == 9 {
        assert(spokes210()[i] == 43);
    } else if i == 10 {
        assert(spokes210()[i] == 47);
    } else if i == 11 {
        assert(spokes210()[i] == 53);
    } else if i == 12 {
        assert(spokes210()[i] == 59);
    } else if i == 13 {
        assert(spokes210()[i] == 61);
    } else if i == 14 {
        assert(spokes210()[i] == 67);
    } else if i == 15 {
        assert(spokes210()[i] == 71);
    } else if i == 16 {
        assert(spokes210()[i] == 73);
    } else if i == 17 {
        assert(spokes210()[i] == 79);
    } else if i == 18 {
        assert(spokes210()[i] == 83);
    } else if i == 19 {
        assert(spokes210()[i] == 89);
    } else if i == 20 {
        assert(spokes210()[i] == 97);
    } else if i == 21 {
        assert(spokes210()[i] == 101);
    } else if i == 22 {
        assert(spokes210()[i] == 103);
    } else if i == 23 {
        assert(spokes210()[i] == 107);
    } else if i == 24 {
        assert(spokes210()[i] == 109);
    } else if i == 25 {
        assert(spokes210()[i] == 113);
    } else if i == 26 {
        assert(spokes210()[i] == 121);
    } else if i == 27 {
        assert(spokes210()[i] == 127);
    } else if i == 28 {
        assert(spokes210()[i] == 131);
    } else if i == 29 {
        assert(spokes210()[i] == 137);
    } else if i == 30 {
        assert(spokes210()[i] == 139);
    } else if i == 31 {
        assert(spokes210()[i] == 143);
    } else if i == 32 {
        assert(spokes210()[i] == 149);
    } else if i == 33 {
        assert(spokes210()[i] == 151);
    } else if i == 34 {
        assert(spokes210()[i] == 157);
    } else if i == 35 {
        assert(spokes210()[i] == 163);
    } else if i == 36 {
        assert(spokes210()[i] == 167);
    } else if i == 37 {
        assert(spokes210()[i] == 169);
    } else if i == 38 {
        assert(spokes210()[i] == 173);
    } else if i == 39 {
        assert(spokes210()[i] == 179);
    } else if i == 40 {
        assert(spokes210()[i] == 181);
    } else if i == 41 {
        assert(spokes210()[i] == 187);
    } else if i == 42 {
        assert(spokes210()[i] == 191);
    } else if i == 43 {
        assert(spokes210()[i] == 193);
    } else if i == 44 {
        assert(spokes210()[i] == 197);
    } else if i == 45 {
        assert(spokes210()[i] == 199);
    } else if i == 46 {
        assert(spokes210()[i] == 209);
    } else if i == 47 {
        assert(spokes210()[i] == 211);
    }
}

/// Every candidate that the {2, 3, 5, 7} wheel produces passes its
/// membership test.
pub proof fn lemma_wheel210_members(k: nat)
    ensures
        is_wheel210_member(wheel210(k)),
{
    if k >= 4 {
        let j = (k - 4) as int;
        let q = j / 48;
        let i = j % 48;
        let t = spokes210()[i];
        lemma_spoke210_coprime(i);
        assert(wheel210(k) == 210 * q + t);
        lemma_mod_multiples_vanish(105 * q, t, 2);
        lemma_mod_multiples_vanish(70 * q, t, 3);
        lemma_mod_multiples_vanish(42 * q, t, 5);
        lemma_mod_multiples_vanish(30 * q, t, 7);
    }
}

proof fn lemma_residue210(num: nat)
    ensures
        coprime210((num % 210) as int) == (num % 2 != 0 && num % 3 != 0 && num % 5 != 0 && num % 7 != 0),
{
    lemma_mod_mod(num as int, 2, 105);
    lemma_mod_mod(num as int, 3, 70);
    lemma_mod_mod(num as int, 5, 42);
    lemma_mod_mod(num as int, 7, 30);
}

/// Membership in the {2, 3, 5, 7} wheel, by a lookup in a bitmap of bytes
/// over the residues modulo 210.
pub fn is_pw210_candidate_b(num: u128) -> (r: bool)
    ensures
        r == is_wheel210_member(num as int),
{
    if num < 11 {
        num == 2 || num == 3 || num == 5 || num == 7
    } else {
        let index = (num % 210) as u32;
        let byte_index = (index / 8) as usize;
        let bit_mask: u8 = 1u8 << ((index % 8) as u8);
        let w = pw210_bitmap_b(byte_index);
        proof {
            lemma_bitmap_b(index, w);
            lemma_residue210(num as nat);
        }
        w & bit_mask > 0
    }
}

/// Membership in the {2, 3, 5, 7} wheel, by a lookup in a bitmap of 32-bit
/// words over the residues modulo 210.
pub fn is_pw210_candidate(num: u128) -> (r: bool)
    ensures
        r == is_wheel210_member(num as int),
{
    if num < 11 {
        num == 2 || num == 3 || num == 5 || num == 7
    } else {
        let index = (num % 210) as u32;
        let dword_index = (index / 32) as usize;
        assert(index & 0x1f < 32) by (bit_vector);
        let bit_mask: u32 = 1u32 << (index & 0x1f);
        let w = pw210_bitmap_32(dword_index);
        proof {
            lemma_bitmap_32(index, w);
            lemma_residue210(num as nat);
        }
        w & bit_mask > 0
    }
}

} // verus!
