//! A fixed-size allocation bitmap: offsets `0..max`, one bit each, packed
//! into 64-bit words.
use vstd::prelude::*;
use vstd::set_lib::*;

verus! {

/// Whether bit `b` (counted from the least significant end) of `w` is set.
pub open spec fn word_bit(w: u64, b: u64) -> bool {
    (w >> b) & 1u64 == 1u64
}

/// Whether offset `i` is marked in the packed bitmap `words`.
pub open spec fn bit_at(words: Seq<u64>, i: int) -> bool {
    word_bit(words[i / 64], (i % 64) as u64)
}

/// The set of offsets below `max` that are marked in `words`.
pub open spec fn marked(words: Seq<u64>, max: int) -> Set<int> {
    Set::new(|i: int| 0 <= i < max && bit_at(words, i))
}

/// The offset reached after `k` steps when walking `0..max` cyclically from
/// `start`.
pub open spec fn cyclic(start: int, k: int, max: int) -> int {
    (start + k) % max
}

/// Number of 64-bit words needed to hold `max` bits.
pub open spec fn words_for(max: int) -> int {
    if max % 64 == 0 {
        max / 64
    } else {
        max / 64 + 1
    }
}

/// Number of marked bits among the lowest `n` bits of `w`.
pub open spec fn word_ones(w: u64, n: nat) -> nat
    decreases n,
{
    if n == 0 {
        0
    } else {
        word_ones(w, (n - 1) as nat) + if word_bit(w, (n - 1) as u64) {
            1nat
        } else {
            0nat
        }
    }
}

/// Total number of marked bits in `words`.
pub open spec fn total_ones(words: Seq<u64>) -> nat
    decreases words.len(),
{
    if words.len() == 0 {
        0
    } else {
        total_ones(words.drop_last()) + word_ones(words.last(), 64)
    }
}

proof fn lemma_set_bit_word(w: u64, b: u64, c: u64)
    requires
        b < 64,
        c < 64,
    ensures
        word_bit(w | (1u64 << b), b),
        c != b ==> (word_bit(w | (1u64 << b), c) == word_bit(w, c)),
{
    assert(((w | (1u64 << b)) >> b) & 1u64 == 1u64) by (bit_vector)
        requires
            b < 64,
    ;
    assert(c != b ==> ((w | (1u64 << b)) >> c) & 1u64 == (w >> c) & 1u64) by (bit_vector)
        requires
            b < 64,
            c < 64,
    ;
}

proof fn lemma_clear_bit_word(w: u64, b: u64, c: u64)
    requires
        b < 64,
        c < 64,
    ensures
        !word_bit(w & !(1u64 << b), b),
        c != b ==> (word_bit(w & !(1u64 << b), c) == word_bit(w, c)),
{
    assert(((w & !(1u64 << b)) >> b) & 1u64 == 0u64) by (bit_vector)
        requires
            b < 64,
    ;
    assert(c != b ==> ((w & !(1u64 << b)) >> c) & 1u64 == (w >> c) & 1u64) by (bit_vector)
        requires
            b < 64,
            c < 64,
    ;
}

proof fn lemma_zero_word(b: u64)
    requires
        b < 64,
    ensures
        !word_bit(0u64, b),
{
    assert((0u64 >> b) & 1u64 == 0u64) by (bit_vector);
}

proof fn lemma_word_bit_is_low_bit(w: u64, b: u64)
    requires
        b < 64,
    ensures
        word_bit(w, b) == ((w >> b) & 1u64 != 0u64),
        (w >> b) >> 1u64 == w >> ((b + 1) as u64),
        b == 63 ==> (w >> b) >> 1u64 == 0u64,
        (w >> b) == 0u64 ==> !word_bit(w, b),
        w >> 0u64 == w,
{
    assert(((w >> b) & 1u64 == 1u64) == ((w >> b) & 1u64 != 0u64)) by (bit_vector);
    assert((w >> b) >> 1u64 == w >> ((b + 1) as u64)) by (bit_vector)
        requires
            b < 64,
    ;
    assert(b == 63 ==> (w >> b) >> 1u64 == 0u64) by (bit_vector);
    assert((w >> b) == 0u64 ==> (w >> b) & 1u64 != 1u64) by (bit_vector);
    assert(w >> 0u64 == w) by (bit_vector);
}

proof fn lemma_high_bits_clear(w: u64, b: u64, c: u64)
    requires
        b <= c < 64,
        (w >> b) == 0u64,
    ensures
        !word_bit(w, c),
{
    assert((w >> b) == 0u64 && b <= c && c < 64 ==> (w >> c) & 1u64 == 0u64) by (bit_vector);
}

proof fn lemma_index_in_words(i: int, max: int, n: int)
    requires
        0 <= i < max,
        n == words_for(max),
    ensures
        0 <= i / 64 < n,
        0 <= i % 64 < 64,
{
}

proof fn lemma_marked_finite(words: Seq<u64>, max: int)
    requires
        0 <= max,
    ensures
        marked(words, max).finite(),
        marked(words, max).len() <= max,
{
    lemma_int_range(0, max);
    lemma_len_subset(marked(words, max), set_int_range(0, max));
}

/// Looks up offset `offset` in the packed bitmap.
pub fn get_bit(words: &Vec<u64>, offset: usize) -> (r: bool)
    requires
        offset / 64 < words@.len(),
    ensures
        r == bit_at(words@, offset as int),
{
    (words[offset / 64] >> ((offset % 64) as u64)) & 1 == 1
}

/// Marks offset `offset`; every other offset keeps its mark.
pub fn set_bit(words: &mut Vec<u64>, offset: usize)
    requires
        offset / 64 < old(words)@.len(),
    ensures
        final(words)@.len() == old(words)@.len(),
        bit_at(final(words)@, offset as int),
        forall|j: int|
            0 <= j < 64 * old(words)@.len() && j != offset ==> #[trigger] bit_at(final(words)@, j)
                == bit_at(old(words)@, j),
{
    let idx = offset / 64;
    let b = (offset % 64) as u64;
    let w = words[idx];
    words.set(idx, w | (1u64 << b));
    proof {
        lemma_set_bit_word(w, b, b);
        assert forall|j: int|
            0 <= j < 64 * old(words)@.len() && j != offset implies #[trigger] bit_at(words@, j)
            == bit_at(old(words)@, j) by {
            if j / 64 == idx as int {
                lemma_set_bit_word(w, b, (j % 64) as u64);
            }
        }
    }
}

/// Unmarks offset `offset`; every other offset keeps its mark.
pub fn clear_bit(words: &mut Vec<u64>, offset: usize)
    requires
        offset / 64 < old(words)@.len(),
    ensures
        final(words)@.len() == old(words)@.len(),
        !bit_at(final(words)@, offset as int),
        forall|j: int|
            0 <= j < 64 * old(words)@.len() && j != offset ==> #[trigger] bit_at(final(words)@, j)
                == bit_at(old(words)@, j),
{
    let idx = offset / 64;
    let b = (offset % 64) as u64;
    let w = words[idx];
    words.set(idx, w & !(1u64 << b));
    proof {
        lemma_clear_bit_word(w, b, b);
        assert forall|j: int|
            0 <= j < 64 * old(words)@.len() && j != offset implies #[trigger] bit_at(words@, j)
            == bit_at(old(words)@, j) by {
            if j / 64 == idx as int {
                lemma_clear_bit_word(w, b, (j % 64) as u64);
            }
        }
    }
}

fn word_count_ones(w: u64) -> (r: usize)
    ensures
        r == word_ones(w, 64),
{
    let mut n: usize = 0;
    let mut b: u64 = 0;
    while b < 64
        invariant
            b <= 64,
            n == word_ones(w, b as nat),
            n <= b,
        decreases 64 - b,
    {
        if (w >> b) & 1 == 1 {
            n = n + 1;
        }
        b = b + 1;
    }
    n
}

/// Number of marked bits over all words.
pub fn count_ones(words: &Vec<u64>) -> (r: usize)
    requires
        words@.len() * 64 <= usize::MAX,
    ensures
        r == total_ones(words@),
{
    let mut total: usize = 0;
    let mut i: usize = 0;
    while i < words.len()
        invariant
            i <= words@.len(),
            words@.len() * 64 <= usize::MAX,
            total == total_ones(words@.subrange(0, i as int)),
            total <= i * 64,
        decreases words@.len() - i,
    {
        let c = word_count_ones(words[i]);
        proof {
            lemma_word_ones_le(words@[i as int], 64);
            let s = words@.subrange(0, i as int + 1);
            assert(s.drop_last() =~= words@.subrange(0, i as int));
            assert(s.last() == words@[i as int]);
        }
        total = total + c;
        i = i + 1;
    }
    proof {
        assert(words@.subrange(0, words@.len() as int) =~= words@);
    }
    total
}

proof fn lemma_word_ones_le(w: u64, n: nat)
    ensures
        word_ones(w, n) <= n,
    decreases n,
{
    if n > 0 {
        lemma_word_ones_le(w, (n - 1) as nat);
    }
}

/// Searches for the first unmarked offset below `max`, walking the offsets
/// cyclically from `start`: `start, start + 1, .., max - 1, 0, .., start - 1`.
/// Nothing is searched when `count` (the number of marked offsets) already
/// reaches `max`.
pub fn allocate_bit(words: &Vec<u64>, max: usize, count: usize, start: usize) -> (r: Option<
    usize,
>)
    requires
        words@.len() == words_for(max as int),
        count == marked(words@, max as int).len(),
        count < max ==> start < max,
    ensures
        r is None <==> count >= max,
        r matches Some(o) ==> {
            &&& o < max
            &&& !bit_at(words@, o as int)
            &&& exists|k: int|
                0 <= k < max && o == #[trigger] cyclic(start as int, k, max as int) && forall|
                    j: int,
                | 0 <= j < k ==> #[trigger] bit_at(words@, cyclic(start as int, j, max as int))
        },
{
    if count >= max {
        return None;
    }
    let mut i: usize = 0;
    while i < max
        invariant
            i <= max,
            start < max,
            count < max,
            words@.len() == words_for(max as int),
            count == marked(words@, max as int).len(),
            forall|j: int|
                0 <= j < i ==> #[trigger] bit_at(words@, cyclic(start as int, j, max as int)),
        decreases max - i,
    {
        let at = if start < max - i {
            start + i
        } else {
            i - (max - start)
        };
        assert(at as int == cyclic(start as int, i as int, max as int)) by {
            if start < max - i {
                vstd::arithmetic::div_mod::lemma_small_mod(
                    (start + i) as nat,
                    max as nat,
                );
            } else {
                vstd::arithmetic::div_mod::lemma_mod_add_multiples_vanish(
                    (start + i - max) as int,
                    max as int,
                );
                vstd::arithmetic::div_mod::lemma_small_mod(
                    (start + i - max) as nat,
                    max as nat,
                );
            }
        }
        proof {
            lemma_index_in_words(at as int, max as int, words@.len() as int);
        }
        if !get_bit(words, at) {
            assert(at as int == cyclic(start as int, i as int, max as int));
            return Some(at);
        }
        i = i + 1;
    }
    proof {
        // every offset below `max` is marked, so the marked set is the full
        // range and `count` cannot be below `max`
        assert forall|x: int| 0 <= x < max implies #[trigger] marked(
            words@,
            max as int,
        ).contains(x) by {
            let j = if x >= start {
                x - start
            } else {
                x + max - start
            };
            assert(0 <= j < max);
            assert(cyclic(start as int, j, max as int) == x) by {
                if x >= start {
                    vstd::arithmetic::div_mod::lemma_small_mod(x as nat, max as nat);
                } else {
                    vstd::arithmetic::div_mod::lemma_mod_add_multiples_vanish(
                        (start + j - max) as int,
                        max as int,
                    );
                    vstd::arithmetic::div_mod::lemma_small_mod(x as nat, max as nat);
                }
            }
            assert(bit_at(words@, cyclic(start as int, j, max as int)));
        }
        lemma_int_range(0, max as int);
        lemma_marked_finite(words@, max as int);
        assert(set_int_range(0, max as int) =~= marked(words@, max as int));
    }
    None
}

/// A randomly chosen offset below `max`.
///
/// Calls `rand::random_range(0..max)`; since the value is random, the
/// contract claims only that it lies below `max`.
#[verifier::external_body]
fn random_below(max: usize) -> (r: usize)
    requires
        max > 0,
    ensures
        r < max,
{
    rand::random_range(0..max)
}

/// A set of allocated offsets in `0..max`.
pub struct AllocationBitmap {
    max: usize,
    words: Vec<u64>,
    count: usize,
}

impl AllocationBitmap {
    /// The allocated offsets.
    pub closed spec fn view(&self) -> Set<int> {
        marked(self.words@, self.max as int)
    }

    /// The number of offsets the bitmap manages.
    pub closed spec fn capacity(&self) -> nat {
        self.max as nat
    }

    /// The bitmap's internal invariant.
    pub closed spec fn wf(&self) -> bool {
        &&& self.words@.len() == words_for(self.max as int)
        &&& self.count == marked(self.words@, self.max as int).len()
        &&& forall|i: int|
            self.max <= i < 64 * self.words@.len() ==> !#[trigger] bit_at(self.words@, i)
    }

    /// An empty bitmap over the offsets `0..max`.
    pub fn new(max: usize) -> (r: Self)
        ensures
            r.wf(),
            r.capacity() == max,
            r@ == Set::<int>::empty(),
    {
        let n = if max % 64 == 0 {
            max / 64
        } else {
            max / 64 + 1
        };
        let words: Vec<u64> = vec![0u64; n];
        let r = AllocationBitmap { max, words, count: 0 };
        proof {
            assert forall|i: int| 0 <= i < 64 * n implies !#[trigger] bit_at(r.words@, i) by {
                assert(r.words@[i / 64] == 0u64);
                lemma_zero_word((i % 64) as u64);
            }
            assert(marked(r.words@, max as int) =~= Set::<int>::empty());
        }
        r
    }

    /// Marks `offset` as allocated. Fails (returns `false`, nothing changed)
    /// when `offset` is out of range or already allocated.
    pub fn allocate(&mut self, offset: usize) -> (r: bool)
        requires
            old(self).wf(),
        ensures
            final(self).wf(),
            final(self).capacity() == old(self).capacity(),
            r == (offset < old(self).capacity() && !old(self)@.contains(offset as int)),
            r ==> final(self)@ == old(self)@.insert(offset as int),
            !r ==> final(self)@ == old(self)@,
    {
        if offset >= self.max {
            return false;
        }
        proof {
            lemma_index_in_words(offset as int, self.max as int, self.words@.len() as int);
        }
        if get_bit(&self.words, offset) {
            return false;
        }
        let ghost old_set = self@;
        proof {
            lemma_marked_finite(self.words@, self.max as int);
        }
        set_bit(&mut self.words, offset);
        proof {
            assert(self@ =~= old_set.insert(offset as int));
            lemma_marked_finite(self.words@, self.max as int);
        }
        self.count = self.count + 1;
        true
    }

    /// Allocates some free offset, or returns `None` when every offset is
    /// taken. The search starts at a randomly chosen offset and walks the
    /// offsets cyclically from there.
    pub fn allocate_next(&mut self) -> (r: Option<usize>)
        requires
            old(self).wf(),
        ensures
            final(self).wf(),
            final(self).capacity() == old(self).capacity(),
            r is None <==> old(self)@.len() >= old(self).capacity(),
            r is None ==> final(self)@ == old(self)@,
            r matches Some(o) ==> {
                &&& o < old(self).capacity()
                &&& !old(self)@.contains(o as int)
                &&& final(self)@ == old(self)@.insert(o as int)
            },
    {
        let start = if self.count < self.max {
            random_below(self.max)
        } else {
            0
        };
        let next = allocate_bit(&self.words, self.max, self.count, start);
        match next {
            None => None,
            Some(o) => {
                let ghost old_set = self@;
                proof {
                    lemma_index_in_words(o as int, self.max as int, self.words@.len() as int);
                    lemma_marked_finite(self.words@, self.max as int);
                }
                set_bit(&mut self.words, o);
                proof {
                    assert(self@ =~= old_set.insert(o as int));
                    lemma_marked_finite(self.words@, self.max as int);
                }
                self.count = self.count + 1;
                Some(o)
            },
        }
    }

    /// Frees `offset`. Out-of-range or unallocated offsets are left alone.
    pub fn release(&mut self, offset: usize)
        requires
            old(self).wf(),
        ensures
            final(self).wf(),
            final(self).capacity() == old(self).capacity(),
            final(self)@ == old(self)@.remove(offset as int),
    {
        if offset >= self.max {
            proof {
                assert(!self@.contains(offset as int));
                assert(self@.remove(offset as int) =~= self@);
            }
            return ;
        }
        proof {
            lemma_index_in_words(offset as int, self.max as int, self.words@.len() as int);
        }
        if !get_bit(&self.words, offset) {
            proof {
                assert(self@.remove(offset as int) =~= self@);
            }
            return ;
        }
        let ghost old_set = self@;
        proof {
            lemma_marked_finite(self.words@, self.max as int);
        }
        clear_bit(&mut self.words, offset);
        proof {
            assert(self@ =~= old_set.remove(offset as int));
        }
        self.count = self.count - 1;
    }

    /// Every allocated offset, in ascending order.
    pub fn for_each(&self) -> (r: Vec<usize>)
        requires
            self.wf(),
        ensures
            forall|k: int| 0 <= k < r@.len() ==> self@.contains(#[trigger] r@[k] as int),
            forall|i: int| self@.contains(i) ==> exists|k: int| 0 <= k < r@.len() && r@[k] == i,
            forall|a: int, b: int| 0 <= a < b < r@.len() ==> r@[a] < r@[b],
            r@.len() == self@.len(),
    {
        let mut out: Vec<usize> = Vec::new();
        let mut word_idx: usize = 0;
        let ghost max = self.max as int;
        proof {
            assert(64 * self.words@.len() < self.max + 64);
        }
        while word_idx < self.words.len()
            invariant
                self.wf(),
                word_idx <= self.words@.len(),
                64 * self.words@.len() < self.max + 64,
                forall|k: int|
                    0 <= k < out@.len() ==> 0 <= #[trigger] out@[k] < 64 * word_idx && bit_at(
                        self.words@,
                        out@[k] as int,
                    ),
                forall|i: int|
                    0 <= i < 64 * word_idx && bit_at(self.words@, i) ==> exists|k: int|
                        0 <= k < out@.len() && out@[k] == i,
                forall|a: int, b: int| 0 <= a < b < out@.len() ==> out@[a] < out@[b],
            decreases self.words@.len() - word_idx,
        {
            let w = self.words[word_idx];
            let mut word = w;
            let mut bit: u64 = 0;
            proof {
                lemma_word_bit_is_low_bit(w, 0);
            }
            while word > 0
                invariant
                    self.wf(),
                    word_idx < self.words@.len(),
                    64 * self.words@.len() < self.max + 64,
                    w == self.words@[word_idx as int],
                    bit <= 64,
                    bit < 64 ==> word == w >> bit,
                    bit == 64 ==> word == 0,
                    forall|k: int|
                        0 <= k < out@.len() ==> 0 <= #[trigger] out@[k] < 64 * word_idx + bit
                            && bit_at(self.words@, out@[k] as int),
                    forall|i: int|
                        0 <= i < 64 * word_idx + bit && bit_at(self.words@, i) ==> exists|k: int|
                            0 <= k < out@.len() && out@[k] == i,
                    forall|a: int, b: int| 0 <= a < b < out@.len() ==> out@[a] < out@[b],
                decreases 64 - bit,
            {
                proof {
                    if bit == 64 {
                        assert(false);
                    }
                    lemma_word_bit_is_low_bit(w, bit);
                }
                let ghost i_here = 64 * word_idx + bit;
                proof {
                    assert(i_here / 64 == word_idx as int);
                    assert(i_here % 64 == bit as int);
                }
                let ghost prev = out@;
                if word & 1 != 0 {
                    proof {
                        assert(bit_at(self.words@, i_here));
                        if i_here >= self.max {
                            assert(!bit_at(self.words@, i_here));
                        }
                    }
                    out.push(word_idx * 64 + bit as usize);
                }
                proof {
                    assert forall|i: int|
                        0 <= i < 64 * word_idx + bit + 1 && bit_at(
                            self.words@,
                            i,
                        ) implies exists|k: int| 0 <= k < out@.len() && out@[k] == i by {
                        if i == i_here {
                            assert(out@[out@.len() - 1] == i);
                        } else {
                            let k = choose|k: int| 0 <= k < prev.len() && prev[k] == i;
                            assert(out@[k] == prev[k]);
                        }
                    }
                }
                bit = bit + 1;
                word = word >> 1;
            }
            proof {
                // the remaining (higher) bits of this word are all clear
                assert forall|i: int|
                    0 <= i < 64 * word_idx + 64 && bit_at(self.words@, i) implies exists|k: int|
                    0 <= k < out@.len() && out@[k] == i by {
                    if i >= 64 * word_idx + bit {
                        assert(i / 64 == word_idx as int);
                        lemma_high_bits_clear(w, bit, (i % 64) as u64);
                        assert(false);
                    }
                }
            }
            word_idx = word_idx + 1;
        }
        proof {
            assert forall|k: int| 0 <= k < out@.len() implies self@.contains(
                #[trigger] out@[k] as int,
            ) by {
                if out@[k] >= self.max {
                    assert(!bit_at(self.words@, out@[k] as int));
                }
            }
            let s = out@.map_values(|x: usize| x as int);
            assert(s.no_duplicates()) by {
                assert forall|a: int, b: int| 0 <= a < s.len() && 0 <= b < s.len() && a != b implies s[a] != s[b] by {
                    if a < b {
                        assert(out@[a] < out@[b]);
                    } else {
                        assert(out@[b] < out@[a]);
                    }
                }
            }
            assert(s.to_set() =~= self@) by {
                assert forall|i: int| self@.contains(i) implies s.to_set().contains(i) by {
                    let k = choose|k: int| 0 <= k < out@.len() && out@[k] == i;
                    assert(s[k] == i);
                }
                assert forall|i: int| s.to_set().contains(i) implies self@.contains(i) by {
                    let k = choose|k: int| 0 <= k < s.len() && s[k] == i;
                    assert(self@.contains(out@[k] as int));
                }
            }
            s.unique_seq_to_set();
        }
        out
    }

    /// Allocated offsets are below the capacity.
    pub proof fn lemma_view_in_range(&self, o: int)
        requires
            self.wf(),
            self@.contains(o),
        ensures
            0 <= o < self.capacity(),
    {
    }

    /// At most `capacity` offsets are allocated.
    pub proof fn lemma_len_le_capacity(&self)
        requires
            self.wf(),
        ensures
            self@.finite(),
            self@.len() <= self.capacity(),
    {
        lemma_marked_finite(self.words@, self.max as int);
    }

    /// Whether `offset` is allocated.
    pub fn has(&self, offset: usize) -> (r: bool)
        requires
            self.wf(),
        ensures
            r == self@.contains(offset as int),
    {
        if offset >= self.max {
            return false;
        }
        proof {
            lemma_index_in_words(offset as int, self.max as int, self.words@.len() as int);
        }
        get_bit(&self.words, offset)
    }

    /// Number of offsets still free.
    pub fn free(&self) -> (r: usize)
        requires
            self.wf(),
        ensures
            r == self.capacity() - self@.len(),
    {
        proof {
            lemma_marked_finite(self.words@, self.max as int);
        }
        self.max - self.count
    }
}

/// Releasing an offset right after allocating it gives back the
/// allocations as they were; in between, allocating it again fails.
pub proof fn law_release_undoes_allocate(b: AllocationBitmap, o: int)
    requires
        b.wf(),
        0 <= o < b.capacity(),
        !b@.contains(o),
    ensures
        b@.insert(o).remove(o) == b@,
        !(o < b.capacity() && !b@.insert(o).contains(o)),
{
    assert(b@.insert(o).remove(o) =~= b@);
}

/// Releasing an offset that is not allocated changes nothing.
pub proof fn law_release_unallocated_is_noop(b: AllocationBitmap, o: int)
    requires
        b.wf(),
        !b@.contains(o),
    ensures
        b@.remove(o) == b@,
{
    assert(b@.remove(o) =~= b@);
}

} // verus!
