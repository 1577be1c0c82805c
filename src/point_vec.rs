//! A fixed-capacity bit set of point indices with a maintained cardinality.

use vstd::prelude::*;
use vstd::relations::injective_on;
use vstd::set_lib::*;

verus! {

/// Whether bit `k` of `w` is set (`k` in `0..64`).
pub open spec fn word_bit(w: u64, k: int) -> bool {
    (w >> (k as u64)) & 1u64 == 1u64
}

/// The positions of the set bits of one word.
pub open spec fn word_set(w: u64) -> Set<int> {
    Set::new(|k: int| 0 <= k < 64 && word_bit(w, k))
}

/// The indices whose bits are set among the first `s` words of `words`.
pub open spec fn prefix_set(words: Seq<u64>, s: int) -> Set<int> {
    Set::new(|i: int| 0 <= i < 64 * s && word_bit(words[i / 64], i % 64))
}

/// The number of words that hold `n` bits.
pub open spec fn words_for(n: nat) -> nat {
    (n + 63) / 64
}

/// Relies on `u64::count_ones`: the number of ones in the binary
/// representation of `w`.
#[verifier::external_body]
fn ones_in(w: u64) -> (r: u32)
    ensures
        r as int == word_set(w).len(),
{
    w.count_ones()
}

proof fn lemma_or_bit(w: u64, k: u64, j: u64)
    requires
        k < 64,
        j < 64,
    ensures
        word_bit(w | (1u64 << k), j as int) == (word_bit(w, j as int) || j == k),
        ((w & (1u64 << k)) == (1u64 << k)) == word_bit(w, k as int),
        word_bit(w & !(1u64 << k), j as int) == (word_bit(w, j as int) && j != k),
{
    assert(((w & !(1u64 << k)) >> j) & 1u64 == 1u64 <==> ((w >> j) & 1u64 == 1u64 && j != k))
        by (bit_vector)
        requires
            k < 64,
            j < 64,
    ;
    assert(((w | (1u64 << k)) >> j) & 1u64 == 1u64 <==> ((w >> j) & 1u64 == 1u64 || j == k))
        by (bit_vector)
        requires
            k < 64,
            j < 64,
    ;
    assert(((w & (1u64 << k)) == (1u64 << k)) <==> ((w >> k) & 1u64 == 1u64)) by (bit_vector)
        requires
            k < 64,
    ;
}

proof fn lemma_and_not_bit(a: u64, b: u64, j: u64)
    requires
        j < 64,
    ensures
        word_bit(a & !b, j as int) == (word_bit(a, j as int) && !word_bit(b, j as int)),
{
    assert(((a & !b) >> j) & 1u64 == 1u64 <==> ((a >> j) & 1u64 == 1u64 && !((b >> j) & 1u64
        == 1u64))) by (bit_vector)
        requires
            j < 64,
    ;
}

proof fn lemma_constant_bits(r: u64, j: u64)
    requires
        0 < r < 64,
        j < 64,
    ensures
        word_bit(0xffff_ffff_ffff_ffffu64, j as int),
        !word_bit(0u64, j as int),
        word_bit(!(0xffff_ffff_ffff_ffffu64 << r), j as int) == (j < r),
{
    assert((0xffff_ffff_ffff_ffffu64 >> j) & 1u64 == 1u64) by (bit_vector)
        requires
            j < 64,
    ;
    assert((0u64 >> j) & 1u64 != 1u64) by (bit_vector);
    assert(((!(0xffff_ffff_ffff_ffffu64 << r)) >> j) & 1u64 == 1u64 <==> j < r) by (bit_vector)
        requires
            0 < r < 64,
            j < 64,
    ;
}

proof fn lemma_word_set_finite(w: u64)
    ensures
        word_set(w).finite(),
        word_set(w).len() <= 64,
{
    lemma_int_range(0, 64);
    assert(word_set(w).subset_of(set_int_range(0, 64)));
    lemma_len_subset(word_set(w), set_int_range(0, 64));
}

proof fn lemma_prefix_finite(words: Seq<u64>, s: int)
    requires
        0 <= s,
    ensures
        prefix_set(words, s).finite(),
        prefix_set(words, s).len() <= 64 * s,
{
    lemma_int_range(0, 64 * s);
    assert(prefix_set(words, s).subset_of(set_int_range(0, 64 * s)));
    lemma_len_subset(prefix_set(words, s), set_int_range(0, 64 * s));
}

/// One more word adds the positions of its set bits, shifted by its offset.
proof fn lemma_prefix_step(words: Seq<u64>, s: int)
    requires
        0 <= s < words.len(),
    ensures
        prefix_set(words, s + 1).len() == prefix_set(words, s).len() + word_set(words[s]).len(),
{
    let w = words[s];
    let f = |k: int| k + 64 * s;
    let shifted = word_set(w).map(f);
    lemma_word_set_finite(w);
    lemma_prefix_finite(words, s);
    assert(injective_on(f, word_set(w)));
    lemma_map_size(word_set(w), shifted, f);
    assert forall|i: int| #[trigger] shifted.contains(i) <==> (64 * s <= i < 64 * s + 64
        && word_bit(w, i - 64 * s)) by {
        if 64 * s <= i < 64 * s + 64 && word_bit(w, i - 64 * s) {
            assert(word_set(w).contains(i - 64 * s));
            assert(f(i - 64 * s) == i);
        }
    }
    assert forall|i: int| #[trigger]
        prefix_set(words, s + 1).contains(i) <==> (prefix_set(words, s) + shifted).contains(i) by {
        if 64 * s <= i < 64 * s + 64 {
            assert(i / 64 == s);
            assert(i % 64 == i - 64 * s);
        }
    }
    assert(prefix_set(words, s + 1) =~= prefix_set(words, s) + shifted);
    assert(prefix_set(words, s).disjoint(shifted));
    lemma_set_disjoint_lens(prefix_set(words, s), shifted);
}

/// Two word sequences that agree on their first `s` words agree on the
/// indices those words hold.
proof fn lemma_prefix_agree(a: Seq<u64>, b: Seq<u64>, s: int)
    requires
        0 <= s <= a.len(),
        s <= b.len(),
        forall|t: int| 0 <= t < s ==> a[t] == b[t],
    ensures
        prefix_set(a, s) == prefix_set(b, s),
{
    assert forall|i: int| #[trigger] prefix_set(a, s).contains(i) <==> prefix_set(b, s).contains(i) by {
        if 0 <= i < 64 * s {
            assert(0 <= i / 64 < s);
        }
    }
    assert(prefix_set(a, s) =~= prefix_set(b, s));
}

/// A set of point indices, one bit per index, with its cardinality kept
/// alongside.
pub struct PointVec {
    data: Vec<u64>,
    true_count: usize,
}

impl View for PointVec {
    type V = Set<int>;

    closed spec fn view(&self) -> Set<int> {
        prefix_set(self.data@, self.data@.len() as int)
    }
}

impl PointVec {
    /// The number of indices the set has room for.
    pub closed spec fn capacity(&self) -> nat {
        64 * self.data@.len()
    }

    /// The kept cardinality is that of the set, and every index of the
    /// capacity fits in `usize`.
    pub closed spec fn inv(&self) -> bool {
        &&& 64 * self.data@.len() <= usize::MAX
        &&& self@.finite()
        &&& self.true_count == self@.len()
    }

    /// A set over the indices `0..n`: room for them, and nothing beyond them.
    pub open spec fn wf(&self, n: nat) -> bool {
        &&& self.inv()
        &&& self.capacity() == 64 * words_for(n)
        &&& forall|i: int| #[trigger] self@.contains(i) ==> i < n
    }

    /// A set with its invariant is finite and lies within its capacity.
    pub proof fn lemma_view_bounded(&self)
        ensures
            forall|i: int| #[trigger] self@.contains(i) ==> 0 <= i < self.capacity(),
            self@.finite(),
            self@.len() <= self.capacity(),
    {
        lemma_prefix_finite(self.data@, self.data@.len() as int);
    }

    /// An empty set, or one that holds all of `0..location_count`.
    pub fn new(location_count: usize, fill: bool) -> (r: Self)
        requires
            location_count <= usize::MAX - 63,
        ensures
            r.wf(location_count as nat),
            r@ == (if fill {
                set_int_range(0, location_count as int)
            } else {
                Set::<int>::empty()
            }),
    {
        let sector_count: usize = location_count / 64 + if location_count % 64 != 0 {
            1
        } else {
            0
        };
        let mut ret = PointVec { data: vec![0u64; sector_count], true_count: 0 };
        ret.reset(location_count, fill);
        ret
    }

    /// Empties the set, or fills it with all of `0..location_count`.
    pub fn reset(&mut self, location_count: usize, fill: bool)
        requires
            old(self).capacity() == 64 * words_for(location_count as nat),
            location_count <= usize::MAX - 63,
        ensures
            final(self).wf(location_count as nat),
            final(self)@ == (if fill {
                set_int_range(0, location_count as int)
            } else {
                Set::<int>::empty()
            }),
    {
        let ghost n = location_count as int;
        let value: u64 = if fill {
            0xffff_ffff_ffff_ffffu64
        } else {
            0u64
        };
        let len = self.data.len();
        let mut s: usize = 0;
        while s < len
            invariant
                len == self.data@.len(),
                64 * len == 64 * words_for(n as nat),
                s <= len,
                forall|t: int| 0 <= t < s ==> self.data@[t] == value,
            decreases len - s,
        {
            self.data.set(s, value);
            s += 1;
        }
        let rem = (location_count % 64) as u64;
        if fill && rem != 0 {
            self.data.set(len - 1, !(0xffff_ffff_ffff_ffffu64 << rem));
        }
        let ghost full = set_int_range(0, n);
        assert forall|x: int| #[trigger] self@.contains(x) <==> (fill && 0 <= x < n) by {
            if 0 <= x < 64 * len {
                let j = (x % 64) as u64;
                lemma_constant_bits(if rem == 0 { 1 } else { rem }, j);
                if fill && rem != 0 && x / 64 == len - 1 {
                    assert(x == 64 * (x / 64) + j);
                    assert(n == 64 * (len - 1) + rem);
                }
            }
        }
        proof {
            lemma_int_range(0, n);
            lemma_prefix_finite(self.data@, len as int);
        }
        if fill {
            assert(self@ =~= full);
            self.true_count = location_count;
        } else {
            assert(self@ =~= Set::<int>::empty());
            self.true_count = 0;
        }
    }

    /// The number of indices in the set.
    pub fn len(&self) -> (r: usize)
        requires
            self.inv(),
        ensures
            r == self@.len(),
    {
        self.true_count
    }

    /// Whether `index` is in the set.
    pub fn contains(&self, index: usize) -> (r: bool)
        requires
            self.inv(),
        ensures
            r == self@.contains(index as int),
    {
        let sector = index / 64;
        if sector >= self.data.len() {
            return false;
        }
        let bitmask = 1u64 << ((index % 64) as u64);
        proof {
            lemma_or_bit(self.data@[sector as int], (index % 64) as u64, 0);
        }
        self.data[sector] & bitmask == bitmask
    }

    /// Makes this set equal to `copy_src`, reusing its words.
    pub fn copy(&mut self, copy_src: &PointVec)
        requires
            old(self).capacity() == copy_src.capacity(),
            copy_src.inv(),
        ensures
            final(self).inv(),
            final(self).capacity() == old(self).capacity(),
            final(self)@ == copy_src@,
    {
        let len = self.data.len();
        let mut s: usize = 0;
        while s < len
            invariant
                len == self.data@.len(),
                len == copy_src.data@.len(),
                s <= len,
                forall|t: int| 0 <= t < s ==> self.data@[t] == copy_src.data@[t],
            decreases len - s,
        {
            self.data.set(s, copy_src.data[s]);
            s += 1;
        }
        assert(self.data@ =~= copy_src.data@);
        self.true_count = copy_src.true_count;
    }

    /// The lowest index in the set, if any.
    pub fn next(&self) -> (r: Option<usize>)
        requires
            self.inv(),
        ensures
            match r {
                Some(i) => self@.contains(i as int) && forall|j: int| #[trigger]
                    self@.contains(j) ==> i <= j,
                None => self@ == Set::<int>::empty(),
            },
    {
        let len = self.data.len();
        let mut s: usize = 0;
        while s < len
            invariant
                len == self.data@.len(),
                64 * len <= usize::MAX,
                s <= len,
                forall|t: int| 0 <= t < s ==> self.data@[t] == 0,
            decreases len - s,
        {
            let w = self.data[s];
            if w != 0 {
                let tz = w.trailing_zeros();
                let i = 64 * s + tz as usize;
                proof {
                    vstd::std_specs::bits::axiom_u64_trailing_zeros(w);
                    assert(i / 64 == s);
                    assert(i % 64 == tz);
                    assert forall|j: int| #[trigger] self@.contains(j) implies i <= j by {
                        if j / 64 < s {
                            lemma_constant_bits(1, (j % 64) as u64);
                        } else if j / 64 == s && j % 64 < tz {
                            assert((w >> ((j % 64) as u64)) & 1u64 == 0u64);
                        }
                    }
                }
                return Some(i);
            }
            s += 1;
        }
        assert forall|j: int| !#[trigger] self@.contains(j) by {
            if 0 <= j < 64 * len {
                lemma_constant_bits(1, (j % 64) as u64);
            }
        }
        assert(self@ =~= Set::<int>::empty());
        None
    }

    /// Removes every index of `rhs` from this set.
    pub fn subtract(&mut self, rhs: &PointVec)
        requires
            old(self).inv(),
            rhs.inv(),
            old(self).capacity() == rhs.capacity(),
        ensures
            final(self).inv(),
            final(self).capacity() == old(self).capacity(),
            final(self)@ == old(self)@.difference(rhs@),
    {
        let ghost old_data = self.data@;
        let len = self.data.len();
        let mut count: usize = 0;
        let mut s: usize = 0;
        assert(prefix_set(self.data@, 0) =~= Set::<int>::empty());
        while s < len
            invariant
                len == self.data@.len(),
                len == rhs.data@.len(),
                len == old_data.len(),
                64 * len <= usize::MAX,
                s <= len,
                forall|t: int| 0 <= t < s ==> self.data@[t] == old_data[t] & !rhs.data@[t],
                forall|t: int| s <= t < len ==> self.data@[t] == old_data[t],
                count == prefix_set(self.data@, s as int).len(),
            decreases len - s,
        {
            let ghost before = self.data@;
            let w = self.data[s] & !rhs.data[s];
            self.data.set(s, w);
            let c = ones_in(w);
            proof {
                lemma_prefix_agree(before, self.data@, s as int);
                lemma_prefix_step(self.data@, s as int);
                lemma_prefix_finite(self.data@, s + 1);
            }
            count = count + c as usize;
            s += 1;
        }
        self.true_count = count;
        assert forall|x: int| #[trigger]
            self@.contains(x) <==> old(self)@.difference(rhs@).contains(x) by {
            if 0 <= x < 64 * len {
                lemma_and_not_bit(old_data[x / 64], rhs.data@[x / 64], (x % 64) as u64);
            }
        }
        assert(self@ =~= old(self)@.difference(rhs@));
        proof {
            lemma_prefix_finite(self.data@, len as int);
        }
    }

    /// Makes this set `lhs` without the indices of `rhs`, in one pass.
    pub fn subtract_and_copy(&mut self, lhs: &PointVec, rhs: &PointVec)
        requires
            lhs.inv(),
            rhs.inv(),
            old(self).capacity() == lhs.capacity(),
            lhs.capacity() == rhs.capacity(),
        ensures
            final(self).inv(),
            final(self).capacity() == old(self).capacity(),
            final(self)@ == lhs@.difference(rhs@),
    {
        let len = self.data.len();
        let mut count: usize = 0;
        let mut s: usize = 0;
        assert(prefix_set(self.data@, 0) =~= Set::<int>::empty());
        while s < len
            invariant
                len == self.data@.len(),
                len == rhs.data@.len(),
                len == lhs.data@.len(),
                64 * len <= usize::MAX,
                s <= len,
                forall|t: int| 0 <= t < s ==> self.data@[t] == lhs.data@[t] & !rhs.data@[t],
                count == prefix_set(self.data@, s as int).len(),
            decreases len - s,
        {
            let ghost before = self.data@;
            let w = lhs.data[s] & !rhs.data[s];
            self.data.set(s, w);
            let c = ones_in(w);
            proof {
                lemma_prefix_agree(before, self.data@, s as int);
                lemma_prefix_step(self.data@, s as int);
                lemma_prefix_finite(self.data@, s + 1);
            }
            count = count + c as usize;
            s += 1;
        }
        self.true_count = count;
        assert forall|x: int| #[trigger] self@.contains(x) <==> lhs@.difference(rhs@).contains(x) by {
            if 0 <= x < 64 * len {
                lemma_and_not_bit(lhs.data@[x / 64], rhs.data@[x / 64], (x % 64) as u64);
            }
        }
        assert(self@ =~= lhs@.difference(rhs@));
        proof {
            lemma_prefix_finite(self.data@, len as int);
        }
    }

    /// Removes `index`; the count drops only if it was there.
    pub fn remove(&mut self, index: usize)
        requires
            old(self).inv(),
            index < old(self).capacity(),
        ensures
            final(self).inv(),
            final(self).capacity() == old(self).capacity(),
            final(self)@ == old(self)@.remove(index as int),
            !old(self)@.contains(index as int) ==> final(self)@.len() == old(self)@.len(),
    {
        let sector = index / 64;
        let bit = (index % 64) as u64;
        let bitmask = 1u64 << bit;
        let w = self.data[sector];
        proof {
            lemma_or_bit(w, bit, 0);
            lemma_prefix_finite(self.data@, self.data@.len() as int);
        }
        let was_set = w & bitmask == bitmask;
        self.data.set(sector, w & !bitmask);
        assert forall|x: int| #[trigger]
            self@.contains(x) <==> old(self)@.remove(index as int).contains(x) by {
            if 0 <= x < 64 * self.data@.len() {
                lemma_or_bit(w, bit, (x % 64) as u64);
            }
        }
        assert(self@ =~= old(self)@.remove(index as int));
        if was_set {
            self.true_count = self.true_count - 1;
        }
    }

    /// Adds `index`; the count grows only if it was not there.
    pub fn insert(&mut self, index: usize)
        requires
            old(self).inv(),
            index < old(self).capacity(),
        ensures
            final(self).inv(),
            final(self).capacity() == old(self).capacity(),
            final(self)@ == old(self)@.insert(index as int),
            old(self)@.contains(index as int) ==> final(self)@.len() == old(self)@.len(),
    {
        let sector = index / 64;
        let bit = (index % 64) as u64;
        let bitmask = 1u64 << bit;
        let w = self.data[sector];
        proof {
            lemma_or_bit(w, bit, 0);
        }
        let was_set = w & bitmask == bitmask;
        self.data.set(sector, w | bitmask);
        assert forall|x: int| #[trigger]
            self@.contains(x) <==> old(self)@.insert(index as int).contains(x) by {
            if 0 <= x < 64 * self.data@.len() {
                lemma_or_bit(w, bit, (x % 64) as u64);
            }
        }
        assert(self@ =~= old(self)@.insert(index as int));
        proof {
            lemma_prefix_finite(self.data@, self.data@.len() as int);
        }
        if !was_set {
            self.true_count = self.true_count + 1;
        }
    }

    /// Makes this set `lhs` with `index` added, in one pass.
    pub fn insert_and_copy(&mut self, lhs: &PointVec, index: usize)
        requires
            lhs.inv(),
            old(self).capacity() == lhs.capacity(),
            index < lhs.capacity(),
        ensures
            final(self).inv(),
            final(self).capacity() == old(self).capacity(),
            final(self)@ == lhs@.insert(index as int),
    {
        let target_sector = index / 64;
        let bit = (index % 64) as u64;
        let bitmask = 1u64 << bit;
        let len = self.data.len();
        let mut s: usize = 0;
        while s < len
            invariant
                len == self.data@.len(),
                len == lhs.data@.len(),
                target_sector < len,
                s <= len,
                forall|t: int|
                    0 <= t < s ==> self.data@[t] == if t == target_sector {
                        lhs.data@[t] | bitmask
                    } else {
                        lhs.data@[t]
                    },
            decreases len - s,
        {
            if s == target_sector {
                self.data.set(s, lhs.data[s] | bitmask);
            } else {
                self.data.set(s, lhs.data[s]);
            }
            s += 1;
        }
        let w = lhs.data[target_sector];
        proof {
            lemma_or_bit(w, bit, 0);
        }
        assert forall|x: int| #[trigger] self@.contains(x) <==> lhs@.insert(index as int).contains(
            x,
        ) by {
            if 0 <= x < 64 * len {
                lemma_or_bit(w, bit, (x % 64) as u64);
            }
        }
        assert(self@ =~= lhs@.insert(index as int));
        proof {
            lemma_prefix_finite(self.data@, len as int);
            lemma_prefix_finite(lhs.data@, len as int);
        }
        self.true_count = lhs.true_count + if w & bitmask != bitmask {
            1
        } else {
            0
        };
    }

    /// The indices of the set, lowest first.
    pub fn indices(&self) -> (r: Vec<usize>)
        requires
            self.inv(),
        ensures
            forall|k: int| 0 <= k < r@.len() ==> self@.contains(#[trigger] r@[k] as int),
            forall|i: int| #[trigger] self@.contains(i) ==> exists|k: int|
                0 <= k < r@.len() && r@[k] == i,
            forall|a: int, b: int| 0 <= a < b < r@.len() ==> r@[a] < r@[b],
    {
        let mut result: Vec<usize> = Vec::new();
        let bound = 64 * self.data.len();
        let mut i: usize = 0;
        while i < bound
            invariant
                bound == self.capacity(),
                self.inv(),
                i <= bound,
                forall|k: int| 0 <= k < result@.len() ==> self@.contains(#[trigger] result@[k] as int),
                forall|k: int| 0 <= k < result@.len() ==> #[trigger] result@[k] < i,
                forall|x: int|
                    0 <= x < i && #[trigger] self@.contains(x) ==> exists|k: int|
                        0 <= k < result@.len() && result@[k] == x,
                forall|a: int, b: int| 0 <= a < b < result@.len() ==> result@[a] < result@[b],
            decreases bound - i,
        {
            if self.contains(i) {
                let ghost prev = result@;
                result.push(i);
                assert forall|x: int|
                    0 <= x < i + 1 && #[trigger] self@.contains(x) implies exists|k: int|
                    0 <= k < result@.len() && result@[k] == x by {
                    if x < i {
                        let k = choose|k: int| 0 <= k < prev.len() && prev[k] == x;
                        assert(result@[k] == x);
                    } else {
                        assert(result@[prev.len() as int] == x);
                    }
                }
            }
            i += 1;
        }
        proof {
            self.lemma_view_bounded();
        }
        result
    }
}

} // verus!
