//! Packed-bit buffer primitives and the validity bitmap.
//!
//! A buffer of bytes is read as a little-endian bit sequence: bit `i` lives
//! in byte `i / 8` at mask `1 << (i % 8)`.

use vstd::prelude::*;
use vstd::std_specs::bits::u64_trailing_ones;
use vstd::std_specs::bits::u64_trailing_zeros;

verus! {

/// True when `factor` is a positive power of two.
pub open spec fn is_power_of_two(factor: usize) -> bool {
    factor > 0 && factor & (factor - 1) as usize == 0
}

/// Integer ceiling division.
pub open spec fn div_ceil(value: int, divisor: int) -> int
    recommends
        divisor > 0,
{
    if value % divisor == 0 {
        value / divisor
    } else {
        value / divisor + 1
    }
}

/// Bit `i` of a byte buffer in little-endian bit order.
pub open spec fn nth_bit(bytes: Seq<u8>, i: int) -> bool {
    (bytes[i / 8] >> (i % 8) as u8) & 1u8 == 1u8
}

/// The nearest multiple of `factor` that is `>=` `num`; `factor` must be a
/// power of two.
pub fn round_upto_power_of_2(num: usize, factor: usize) -> (r: usize)
    requires
        is_power_of_two(factor),
        num + factor - 1 <= usize::MAX,
    ensures
        r % factor == 0,
        r >= num,
        r < num + factor,
{
    let t = num + (factor - 1);
    let quot = t / factor;
    proof {
        assert(quot * factor <= t && t < quot * factor + factor && (quot * factor) % (
        factor as int) == 0) by (nonlinear_arith)
            requires
                quot == t / factor,
                factor > 0,
        ;
    }
    quot * factor
}

/// The nearest multiple of 64 that is `>=` `num`.
pub fn round_upto_multiple_of_64(num: usize) -> (r: usize)
    requires
        num + 63 <= usize::MAX,
    ensures
        r % 64 == 0,
        r >= num,
        r < num + 64,
{
    proof {
        assert(64usize & 63usize == 0) by (bit_vector);
    }
    round_upto_power_of_2(num, 64)
}

/// The ceiling of `value / divisor`.
pub fn ceil(value: usize, divisor: usize) -> (r: usize)
    requires
        divisor > 0,
    ensures
        r == div_ceil(value as int, divisor as int),
{
    let quot = value / divisor;
    let rem = value % divisor;
    if rem > 0 {
        proof {
            if divisor == 1 {
                assert(value % 1 == 0);
            }
            assert(value / divisor <= value / 2) by (nonlinear_arith)
                requires
                    divisor >= 2,
            ;
        }
        quot + 1
    } else {
        quot
    }
}

/// Whether bit `i` of `data` is set.
pub fn get_bit(data: &[u8], i: usize) -> (b: bool)
    requires
        i / 8 < data@.len(),
    ensures
        b == nth_bit(data@, i as int),
{
    let byte = data[i / 8];
    let sh = (i % 8) as u8;
    (byte >> sh) & 1 == 1
}

proof fn lemma_set_bit_byte(b: u8, sh: u8, k: u8)
    by (bit_vector)
    requires
        sh < 8,
        k < 8,
    ensures
        ((b | (1u8 << sh)) >> k) & 1u8 == if k == sh {
            1u8
        } else {
            (b >> k) & 1u8
        },
{
}

proof fn lemma_unset_bit_byte(b: u8, sh: u8, k: u8)
    by (bit_vector)
    requires
        sh < 8,
        k < 8,
    ensures
        ((b & !(1u8 << sh)) >> k) & 1u8 == if k == sh {
            0u8
        } else {
            (b >> k) & 1u8
        },
{
}

/// Sets bit `i` of `data`; every other bit is unchanged.
pub fn set_bit(data: &mut Vec<u8>, i: usize)
    requires
        i / 8 < old(data)@.len(),
    ensures
        final(data)@.len() == old(data)@.len(),
        forall|j: int|
            0 <= j < 8 * old(data)@.len() ==> nth_bit(final(data)@, j) == if j == i {
                true
            } else {
                nth_bit(old(data)@, j)
            },
{
    let idx = i / 8;
    let sh = (i % 8) as u8;
    let b = data[idx];
    data[idx] = b | (1u8 << sh);
    proof {
        assert forall|j: int| 0 <= j < 8 * old(data)@.len() implies nth_bit(data@, j) == if j
            == i {
            true
        } else {
            nth_bit(old(data)@, j)
        } by {
            if j / 8 == idx {
                lemma_set_bit_byte(b, sh, (j % 8) as u8);
            }
        }
    }
}

/// Clears bit `i` of `data`; every other bit is unchanged.
pub fn unset_bit(data: &mut Vec<u8>, i: usize)
    requires
        i / 8 < old(data)@.len(),
    ensures
        final(data)@.len() == old(data)@.len(),
        forall|j: int|
            0 <= j < 8 * old(data)@.len() ==> nth_bit(final(data)@, j) == if j == i {
                false
            } else {
                nth_bit(old(data)@, j)
            },
{
    let idx = i / 8;
    let sh = (i % 8) as u8;
    let b = data[idx];
    data[idx] = b & !(1u8 << sh);
    proof {
        assert forall|j: int| 0 <= j < 8 * old(data)@.len() implies nth_bit(data@, j) == if j
            == i {
            false
        } else {
            nth_bit(old(data)@, j)
        } by {
            if j / 8 == idx {
                lemma_unset_bit_byte(b, sh, (j % 8) as u8);
            }
        }
    }
}

/// The number of low-order zero bits of a 64-bit chunk, in little-endian
/// bit order.
pub fn get_zeroes(chunk: u64) -> (r: u32)
    ensures
        r == u64_trailing_zeros(chunk),
{
    chunk.trailing_zeros()
}

/// The number of low-order one bits of a 64-bit chunk, in little-endian
/// bit order.
pub fn get_ones(chunk: u64) -> (r: u32)
    ensures
        r == u64_trailing_ones(chunk),
{
    chunk.trailing_ones()
}

/// Count of `false` entries in a bit sequence.
pub open spec fn count_unset(s: Seq<bool>) -> nat
    decreases s.len(),
{
    if s.len() == 0 {
        0
    } else {
        count_unset(s.drop_last()) + if s.last() {
            0nat
        } else {
            1nat
        }
    }
}

/// A uniform count of unset bits (none, or all) pins every bit.
pub proof fn lemma_count_unset_bounds(s: Seq<bool>)
    ensures
        count_unset(s) <= s.len(),
        count_unset(s) == 0 <==> (forall|i: int| 0 <= i < s.len() ==> s[i]),
        count_unset(s) == s.len() <==> (forall|i: int| 0 <= i < s.len() ==> !s[i]),
    decreases s.len(),
{
    if s.len() > 0 {
        lemma_count_unset_bounds(s.drop_last());
        assert(forall|i: int| 0 <= i < s.len() - 1 ==> s[i] == s.drop_last()[i]);
    }
}

proof fn lemma_word_bits(b0: u8, b1: u8, b2: u8, b3: u8, b4: u8, b5: u8, b6: u8, b7: u8, w: u64, k: u64)
    by (bit_vector)
    requires
        k < 64,
        w == (b0 as u64) | ((b1 as u64) << 8u64) | ((b2 as u64) << 16u64) | ((b3 as u64)
            << 24u64) | ((b4 as u64) << 32u64) | ((b5 as u64) << 40u64) | ((b6 as u64) << 48u64) | (
        (b7 as u64) << 56u64),
    ensures
        ((w >> k) & 1u64 == 1u64) == if k < 8 {
            (b0 >> (k as u8)) & 1u8 == 1u8
        } else if k < 16 {
            (b1 >> ((k - 8) as u8)) & 1u8 == 1u8
        } else if k < 24 {
            (b2 >> ((k - 16) as u8)) & 1u8 == 1u8
        } else if k < 32 {
            (b3 >> ((k - 24) as u8)) & 1u8 == 1u8
        } else if k < 40 {
            (b4 >> ((k - 32) as u8)) & 1u8 == 1u8
        } else if k < 48 {
            (b5 >> ((k - 40) as u8)) & 1u8 == 1u8
        } else if k < 56 {
            (b6 >> ((k - 48) as u8)) & 1u8 == 1u8
        } else {
            (b7 >> ((k - 56) as u8)) & 1u8 == 1u8
        },
{
}

proof fn lemma_bit_byte_index(i: int, len: int)
    requires
        0 <= i < len,
    ensures
        i / 8 < div_ceil(len, 8),
{
    vstd::arithmetic::div_mod::lemma_div_is_ordered(i, len - 1, 8);
}

/// A packed-bit presence mask: bit `i` is `true` when row `i` is present.
pub struct Bitmap {
    bytes: Vec<u8>,
    len: usize,
}

impl View for Bitmap {
    type V = Seq<bool>;

    closed spec fn view(&self) -> Seq<bool> {
        Seq::new(self.len as nat, |i: int| nth_bit(self.bytes@, i))
    }
}

impl Bitmap {
    /// The buffer holds exactly the bytes that `len` bits need.
    pub closed spec fn wf(&self) -> bool {
        self.bytes@.len() == div_ceil(self.len as int, 8)
    }

    /// A bitmap of `len` copies of `value`.
    pub fn new_filled(len: usize, value: bool) -> (r: Bitmap)
        ensures
            r.wf(),
            r@.len() == len,
            forall|i: int| 0 <= i < len ==> r@[i] == value,
    {
        let nbytes = ceil(len, 8);
        let fill: u8 = if value {
            0xff
        } else {
            0
        };
        let bytes = vec![fill; nbytes];
        let r = Bitmap { bytes, len };
        proof {
            assert forall|i: int| 0 <= i < len implies r@[i] == value by {
                lemma_bit_byte_index(i, len as int);
                let sh = (i % 8) as u8;
                assert((0xffu8 >> sh) & 1u8 == 1u8 && (0u8 >> sh) & 1u8 == 0u8) by (bit_vector)
                    requires
                        sh < 8,
                ;
            }
        }
        r
    }

    /// A bitmap holding exactly the bits of `v`.
    pub fn from_bools(v: &Vec<bool>) -> (r: Bitmap)
        ensures
            r.wf(),
            r@ == v@,
    {
        let mut bm = Bitmap::new_filled(v.len(), false);
        let mut i: usize = 0;
        while i < v.len()
            invariant
                bm.wf(),
                bm@.len() == v@.len(),
                i <= v@.len(),
                forall|j: int| 0 <= j < i ==> bm@[j] == v@[j],
                forall|j: int| i <= j < v@.len() ==> !bm@[j],
            decreases v@.len() - i,
        {
            if v[i] {
                bm.set(i);
            }
            i += 1;
        }
        proof {
            assert(bm@ =~= v@);
        }
        bm
    }

    /// The logical length in bits.
    pub fn len(&self) -> (r: usize)
        ensures
            r == self@.len(),
    {
        self.len
    }

    /// Whether bit `i` is set.
    pub fn get(&self, i: usize) -> (b: bool)
        requires
            self.wf(),
            i < self@.len(),
        ensures
            b == self@[i as int],
    {
        proof {
            lemma_bit_byte_index(i as int, self.len as int);
        }
        get_bit(self.bytes.as_slice(), i)
    }

    /// Sets bit `i`.
    pub fn set(&mut self, i: usize)
        requires
            old(self).wf(),
            i < old(self)@.len(),
        ensures
            final(self).wf(),
            final(self)@ == old(self)@.update(i as int, true),
    {
        proof {
            lemma_bit_byte_index(i as int, self.len as int);
        }
        set_bit(&mut self.bytes, i);
        proof {
            assert forall|j: int| 0 <= j < self@.len() implies self@[j] == old(self)@.update(
                i as int,
                true,
            )[j] by {
                lemma_bit_byte_index(j, self.len as int);
                assert(j < 8 * old(self).bytes@.len());
            }
            assert(self@ =~= old(self)@.update(i as int, true));
        }
    }

    /// Clears bit `i`.
    pub fn unset(&mut self, i: usize)
        requires
            old(self).wf(),
            i < old(self)@.len(),
        ensures
            final(self).wf(),
            final(self)@ == old(self)@.update(i as int, false),
    {
        proof {
            lemma_bit_byte_index(i as int, self.len as int);
        }
        unset_bit(&mut self.bytes, i);
        proof {
            assert forall|j: int| 0 <= j < self@.len() implies self@[j] == old(self)@.update(
                i as int,
                false,
            )[j] by {
                lemma_bit_byte_index(j, self.len as int);
                assert(j < 8 * old(self).bytes@.len());
            }
            assert(self@ =~= old(self)@.update(i as int, false));
        }
    }

    /// A 64-bit chunk of the mask, assembled from eight bytes in
    /// little-endian order; bit `k` of the word is bit `64 * q + k` of the
    /// mask.
    fn word_at(&self, q: usize) -> (w: u64)
        requires
            self.wf(),
            64 * q + 64 <= self@.len(),
        ensures
            forall|k: u64|
                #![trigger (w >> k) & 1u64]
                k < 64 ==> (((w >> k) & 1u64 == 1u64) == self@[64 * q + k]),
    {
        proof {
            vstd::arithmetic::div_mod::lemma_div_is_ordered(
                64 * (q as int) + 64,
                self.len as int,
                8,
            );
            assert((64 * (q as int) + 64) / 8 == 8 * (q as int) + 8) by (nonlinear_arith);
            assert(self.len as int / 8 <= div_ceil(self.len as int, 8));
        }
        let base = 8 * q;
        let b0 = self.bytes[base];
        let b1 = self.bytes[base + 1];
        let b2 = self.bytes[base + 2];
        let b3 = self.bytes[base + 3];
        let b4 = self.bytes[base + 4];
        let b5 = self.bytes[base + 5];
        let b6 = self.bytes[base + 6];
        let b7 = self.bytes[base + 7];
        let w = (b0 as u64) | ((b1 as u64) << 8u64) | ((b2 as u64) << 16u64) | ((b3 as u64)
            << 24u64) | ((b4 as u64) << 32u64) | ((b5 as u64) << 40u64) | ((b6 as u64) << 48u64) | (
        (b7 as u64) << 56u64);
        proof {
            assert forall|k: u64| #![trigger (w >> k) & 1u64] k < 64 implies (((w >> k) & 1u64
                == 1u64) == self@[64 * q + k]) by {
                lemma_word_bits(b0, b1, b2, b3, b4, b5, b6, b7, w, k);
                let i = 64 * (q as int) + k;
                assert(i / 8 == 8 * (q as int) + (k as int) / 8 && i % 8 == (k as int) % 8)
                    by (nonlinear_arith)
                    requires
                        0 <= k < 64,
                        q >= 0,
                        i == 64 * (q as int) + k,
                ;
            }
        }
        w
    }

    /// The number of unset (missing) bits.
    pub fn unset_bits(&self) -> (r: usize)
        requires
            self.wf(),
        ensures
            r == count_unset(self@),
    {
        let mut cnt: usize = 0;
        let mut i: usize = 0;
        while i < self.len
            invariant
                self.wf(),
                i <= self@.len(),
                cnt <= i,
                cnt == count_unset(self@.subrange(0, i as int)),
            decreases self@.len() - i,
        {
            let b = self.get(i);
            proof {
                assert(self@.subrange(0, i + 1).drop_last() =~= self@.subrange(0, i as int));
                assert(self@.subrange(0, i + 1).last() == self@[i as int]);
            }
            if !b {
                cnt += 1;
            }
            i += 1;
        }
        proof {
            assert(self@.subrange(0, self@.len() as int) =~= self@);
        }
        cnt
    }
}

/// The lowest index whose bit is set, or `0` when the mask is uniform
/// (all set, or no bit set at all).
pub fn first_set_bit(mask: &Bitmap) -> (r: usize)
    requires
        mask.wf(),
    ensures
        (exists|i: int| 0 <= i < mask@.len() && mask@[i]) ==> {
            &&& r < mask@.len()
            &&& mask@[r as int]
            &&& forall|j: int| 0 <= j < r ==> !mask@[j]
        },
        !(exists|i: int| 0 <= i < mask@.len() && mask@[i]) ==> r == 0,
{
    let unset = mask.unset_bits();
    let n = mask.len();
    if unset == 0 || unset == n {
        proof {
            lemma_count_unset_bounds(mask@);
        }
        return 0;
    }
    let full = n / 64;
    let mut q: usize = 0;
    while q < full
        invariant
            mask.wf(),
            n == mask@.len(),
            full == n / 64,
            q <= full,
            forall|j: int| 0 <= j < 64 * q ==> !mask@[j],
        decreases full - q,
    {
        proof {
            assert(64 * (q + 1) <= 64 * full <= n) by (nonlinear_arith)
                requires
                    q < full,
                    full == n / 64,
            ;
        }
        let w = mask.word_at(q);
        let pos = get_zeroes(w);
        proof {
            vstd::std_specs::bits::axiom_u64_trailing_zeros(w);
        }
        if pos != 64 {
            proof {
                assert((w >> (pos as u64)) & 1u64 == 1u64);
                assert forall|j: int| 0 <= j < 64 * q + pos implies !mask@[j] by {
                    if 64 * q <= j {
                        let k = (j - 64 * q) as u64;
                        assert((w >> k) & 1u64 == 0u64);
                    }
                }
            }
            return 64 * q + pos as usize;
        }
        proof {
            assert forall|j: int| 0 <= j < 64 * (q + 1) implies !mask@[j] by {
                if 64 * q <= j {
                    let k = (j - 64 * q) as u64;
                    assert((w >> k) & 1u64 == 0u64);
                }
            }
        }
        q += 1;
    }
    proof {
        assert(64 * full <= n) by (nonlinear_arith)
            requires
                full == n / 64,
                n >= 0,
        ;
    }
    let mut i: usize = 64 * full;
    while i < n
        invariant
            mask.wf(),
            n == mask@.len(),
            i <= n,
            forall|j: int| 0 <= j < i ==> !mask@[j],
        decreases n - i,
    {
        if mask.get(i) {
            return i;
        }
        i += 1;
    }
    proof {
        lemma_count_unset_bounds(mask@);
        assert(false);
    }
    0
}

/// The lowest index whose bit is unset, or `0` when the mask is uniform
/// (all unset, or no bit unset at all).
pub fn first_unset_bit(mask: &Bitmap) -> (r: usize)
    requires
        mask.wf(),
    ensures
        (exists|i: int| 0 <= i < mask@.len() && !mask@[i]) ==> {
            &&& r < mask@.len()
            &&& !mask@[r as int]
            &&& forall|j: int| 0 <= j < r ==> mask@[j]
        },
        !(exists|i: int| 0 <= i < mask@.len() && !mask@[i]) ==> r == 0,
{
    let unset = mask.unset_bits();
    let n = mask.len();
    if unset == 0 || unset == n {
        proof {
            lemma_count_unset_bounds(mask@);
        }
        return 0;
    }
    let full = n / 64;
    let mut q: usize = 0;
    while q < full
        invariant
            mask.wf(),
            n == mask@.len(),
            full == n / 64,
            q <= full,
            forall|j: int| 0 <= j < 64 * q ==> mask@[j],
        decreases full - q,
    {
        proof {
            assert(64 * (q + 1) <= 64 * full <= n) by (nonlinear_arith)
                requires
                    q < full,
                    full == n / 64,
            ;
        }
        let w = mask.word_at(q);
        let pos = get_ones(w);
        proof {
            vstd::std_specs::bits::axiom_u64_trailing_ones(w);
        }
        if pos != 64 {
            proof {
                assert((w >> (pos as u64)) & 1u64 == 0u64);
                assert forall|j: int| 0 <= j < 64 * q + pos implies mask@[j] by {
                    if 64 * q <= j {
                        let k = (j - 64 * q) as u64;
                        assert((w >> k) & 1u64 == 1u64);
                    }
                }
            }
            return 64 * q + pos as usize;
        }
        proof {
            assert forall|j: int| 0 <= j < 64 * (q + 1) implies mask@[j] by {
                if 64 * q <= j {
                    let k = (j - 64 * q) as u64;
                    assert((w >> k) & 1u64 == 1u64);
                }
            }
        }
        q += 1;
    }
    proof {
        assert(64 * full <= n) by (nonlinear_arith)
            requires
                full == n / 64,
                n >= 0,
        ;
    }
    let mut i: usize = 64 * full;
    while i < n
        invariant
            mask.wf(),
            n == mask@.len(),
            i <= n,
            forall|j: int| 0 <= j < i ==> mask@[j],
        decreases n - i,
    {
        if !mask.get(i) {
            return i;
        }
        i += 1;
    }
    proof {
        lemma_count_unset_bounds(mask@);
        assert(false);
    }
    0
}

} // verus!
