//! Fixed-capacity sets of cell indices, stored as a bitmap of bytes.
use vstd::prelude::*;
use vstd::set_lib::*;

verus! {

/// Largest number of cells a puzzle may have.
pub const CAPACITY: usize = 448;

/// Number of bytes backing a `BitSet`.
pub const WORDS: usize = 56;

/// Whether bit `k` of the byte `w` is set.
pub open spec fn bit_of(w: u8, k: u8) -> bool {
    (w >> k) & 1u8 == 1u8
}

/// The cells `0 .. n`.
pub open spec fn cells(n: int) -> Set<int> {
    set_int_range(0, n)
}

proof fn lemma_bit_and(a: u8, b: u8, k: u8)
    requires
        k < 8,
    ensures
        bit_of(a & b, k) == (bit_of(a, k) && bit_of(b, k)),
{
    assert(((a & b) >> k) & 1u8 == 1u8 <==> ((a >> k) & 1u8 == 1u8 && (b >> k) & 1u8 == 1u8))
        by (bit_vector)
        requires
            k < 8,
    ;
}

proof fn lemma_bit_or(a: u8, b: u8, k: u8)
    requires
        k < 8,
    ensures
        bit_of(a | b, k) == (bit_of(a, k) || bit_of(b, k)),
{
    assert(((a | b) >> k) & 1u8 == 1u8 <==> ((a >> k) & 1u8 == 1u8 || (b >> k) & 1u8 == 1u8))
        by (bit_vector)
        requires
            k < 8,
    ;
}

proof fn lemma_bit_and_not(a: u8, b: u8, k: u8)
    requires
        k < 8,
    ensures
        bit_of(a & !b, k) == (bit_of(a, k) && !bit_of(b, k)),
{
    assert(((a & !b) >> k) & 1u8 == 1u8 <==> ((a >> k) & 1u8 == 1u8 && !((b >> k) & 1u8 == 1u8)))
        by (bit_vector)
        requires
            k < 8,
    ;
}

proof fn lemma_bit_set(w: u8, j: u8, k: u8)
    requires
        j < 8,
        k < 8,
    ensures
        bit_of(w | (1u8 << j), k) == (k == j || bit_of(w, k)),
        bit_of(w & !(1u8 << j), k) == (k != j && bit_of(w, k)),
{
    assert(((w | (1u8 << j)) >> k) & 1u8 == 1u8 <==> (k == j || (w >> k) & 1u8 == 1u8))
        by (bit_vector)
        requires
            j < 8,
            k < 8,
    ;
    assert(((w & !(1u8 << j)) >> k) & 1u8 == 1u8 <==> (k != j && (w >> k) & 1u8 == 1u8))
        by (bit_vector)
        requires
            j < 8,
            k < 8,
    ;
}

proof fn lemma_bit_zero(k: u8)
    requires
        k < 8,
    ensures
        !bit_of(0u8, k),
{
    assert(!((0u8 >> k) & 1u8 == 1u8)) by (bit_vector);
}

/// Two bytes that agree on every bit are equal.
proof fn lemma_byte_ext(a: u8, b: u8)
    requires
        forall|k: u8| k < 8 ==> #[trigger] bit_of(a, k) == bit_of(b, k),
    ensures
        a == b,
{
    assert(bit_of(a, 0) == bit_of(b, 0));
    assert(bit_of(a, 1) == bit_of(b, 1));
    assert(bit_of(a, 2) == bit_of(b, 2));
    assert(bit_of(a, 3) == bit_of(b, 3));
    assert(bit_of(a, 4) == bit_of(b, 4));
    assert(bit_of(a, 5) == bit_of(b, 5));
    assert(bit_of(a, 6) == bit_of(b, 6));
    assert(bit_of(a, 7) == bit_of(b, 7));
    assert(a == b) by (bit_vector)
        requires
            ((a >> 0u8) & 1u8 == 1u8) == ((b >> 0u8) & 1u8 == 1u8),
            ((a >> 1u8) & 1u8 == 1u8) == ((b >> 1u8) & 1u8 == 1u8),
            ((a >> 2u8) & 1u8 == 1u8) == ((b >> 2u8) & 1u8 == 1u8),
            ((a >> 3u8) & 1u8 == 1u8) == ((b >> 3u8) & 1u8 == 1u8),
            ((a >> 4u8) & 1u8 == 1u8) == ((b >> 4u8) & 1u8 == 1u8),
            ((a >> 5u8) & 1u8 == 1u8) == ((b >> 5u8) & 1u8 == 1u8),
            ((a >> 6u8) & 1u8 == 1u8) == ((b >> 6u8) & 1u8 == 1u8),
            ((a >> 7u8) & 1u8 == 1u8) == ((b >> 7u8) & 1u8 == 1u8),
    ;
}

proof fn lemma_index_split(i: int)
    requires
        0 <= i < CAPACITY,
    ensures
        0 <= i / 8 < WORDS,
        0 <= i % 8 < 8,
        i == 8 * (i / 8) + i % 8,
{
}

proof fn lemma_index_join(w: int, k: int)
    requires
        0 <= w < WORDS,
        0 <= k < 8,
    ensures
        0 <= 8 * w + k < CAPACITY,
        (8 * w + k) / 8 == w,
        (8 * w + k) % 8 == k,
{
}

/// A set of cells `0 .. CAPACITY`, one bit per cell.
#[derive(Clone, Copy, Eq, Hash, Debug)]
pub struct BitSet {
    words: [u8; WORDS],
}

impl View for BitSet {
    type V = Set<int>;

    closed spec fn view(&self) -> Set<int> {
        Set::new(|i: int| 0 <= i < CAPACITY && bit_of(self.words[i / 8], (i % 8) as u8))
    }
}

impl BitSet {
    /// Every set is a finite set of cells below the capacity.
    pub proof fn lemma_bounded(&self)
        ensures
            self@.subset_of(cells(CAPACITY as int)),
            self@.finite(),
            self@.len() <= CAPACITY,
    {
        lemma_int_range(0, CAPACITY as int);
        lemma_len_subset(self@, cells(CAPACITY as int));
    }

    /// Sets with the same cells are the same value.
    pub proof fn lemma_ext(a: BitSet, b: BitSet)
        requires
            a@ == b@,
        ensures
            a == b,
    {
        assert forall|w: int| 0 <= w < WORDS implies a.words[w] == b.words[w] by {
            assert forall|k: u8| k < 8 implies #[trigger] bit_of(a.words[w], k) == bit_of(b.words[w], k) by {
                lemma_index_join(w, k as int);
                let i = 8 * w + k;
                assert(((i % 8) as u8) == k);
                assert(a@.contains(i) == bit_of(a.words[w], k));
                assert(b@.contains(i) == bit_of(b.words[w], k));
                assert(a@.contains(i) == b@.contains(i));
            }
            lemma_byte_ext(a.words[w], b.words[w]);
        }
        assert(a.words@ =~= b.words@);
        vstd::array::axiom_array_ext_equal(a.words, b.words);
    }

    /// The empty set.
    pub fn new() -> (r: BitSet)
        ensures
            r@ == Set::<int>::empty(),
    {
        let r = BitSet { words: [0u8; WORDS] };
        assert(r@ =~= Set::<int>::empty()) by {
            assert forall|i: int| !r@.contains(i) by {
                if 0 <= i < CAPACITY {
                    lemma_index_split(i);
                    lemma_bit_zero((i % 8) as u8);
                }
            }
        }
        r
    }

    /// Whether cell `i` is in the set.
    pub fn get(&self, i: usize) -> (r: bool)
        requires
            i < CAPACITY,
        ensures
            r == self@.contains(i as int),
    {
        proof {
            lemma_index_split(i as int);
        }
        (self.words[i / 8] >> ((i % 8) as u8)) & 1u8 == 1u8
    }

    /// Adds cell `i` to the set when `v` holds, removes it otherwise.
    pub fn set(&mut self, i: usize, v: bool)
        requires
            i < CAPACITY,
        ensures
            final(self)@ == (if v {
                old(self)@.insert(i as int)
            } else {
                old(self)@.remove(i as int)
            }),
    {
        proof {
            lemma_index_split(i as int);
        }
        let w = i / 8;
        let k = (i % 8) as u8;
        let old_word = self.words[w];
        let new_word = if v {
            old_word | (1u8 << k)
        } else {
            old_word & !(1u8 << k)
        };
        let ghost before = *self;
        self.words[w] = new_word;
        proof {
            let target = if v {
                before@.insert(i as int)
            } else {
                before@.remove(i as int)
            };
            assert forall|j: int| #[trigger] self@.contains(j) == target.contains(j) by {
                if 0 <= j < CAPACITY {
                    lemma_index_split(j);
                    lemma_bit_set(old_word, k, (j % 8) as u8);
                    if j / 8 == w as int {
                        if (j % 8) as u8 == k {
                            assert(j == i);
                        } else {
                            assert(j != i);
                        }
                    } else {
                        assert(j != i);
                    }
                }
            }
            assert(self@ =~= target);
        }
    }

    /// The cells in both sets.
    pub fn and(&self, other: &BitSet) -> (r: BitSet)
        ensures
            r@ == self@.intersect(other@),
    {
        let mut r = BitSet { words: [0u8; WORDS] };
        let mut w: usize = 0;
        while w < WORDS
            invariant
                w <= WORDS,
                forall|j: int| 0 <= j < w ==> r.words[j] == self.words[j] & other.words[j],
            decreases WORDS - w,
        {
            r.words[w] = self.words[w] & other.words[w];
            w = w + 1;
        }
        proof {
            assert forall|i: int| #[trigger] r@.contains(i) == self@.intersect(other@).contains(i) by {
                if 0 <= i < CAPACITY {
                    lemma_index_split(i);
                    lemma_bit_and(self.words[i / 8], other.words[i / 8], (i % 8) as u8);
                }
            }
            assert(r@ =~= self@.intersect(other@));
        }
        r
    }

    /// The cells in either set.
    pub fn or(&self, other: &BitSet) -> (r: BitSet)
        ensures
            r@ == self@.union(other@),
    {
        let mut r = BitSet { words: [0u8; WORDS] };
        let mut w: usize = 0;
        while w < WORDS
            invariant
                w <= WORDS,
                forall|j: int| 0 <= j < w ==> r.words[j] == self.words[j] | other.words[j],
            decreases WORDS - w,
        {
            r.words[w] = self.words[w] | other.words[w];
            w = w + 1;
        }
        proof {
            assert forall|i: int| #[trigger] r@.contains(i) == self@.union(other@).contains(i) by {
                if 0 <= i < CAPACITY {
                    lemma_index_split(i);
                    lemma_bit_or(self.words[i / 8], other.words[i / 8], (i % 8) as u8);
                }
            }
            assert(r@ =~= self@.union(other@));
        }
        r
    }

    /// The cells of this set that are not in `other`.
    pub fn and_not(&self, other: &BitSet) -> (r: BitSet)
        ensures
            r@ == self@.difference(other@),
    {
        let mut r = BitSet { words: [0u8; WORDS] };
        let mut w: usize = 0;
        while w < WORDS
            invariant
                w <= WORDS,
                forall|j: int| 0 <= j < w ==> r.words[j] == self.words[j] & !other.words[j],
            decreases WORDS - w,
        {
            r.words[w] = self.words[w] & !other.words[w];
            w = w + 1;
        }
        proof {
            assert forall|i: int| #[trigger] r@.contains(i) == self@.difference(other@).contains(i) by {
                if 0 <= i < CAPACITY {
                    lemma_index_split(i);
                    lemma_bit_and_not(self.words[i / 8], other.words[i / 8], (i % 8) as u8);
                }
            }
            assert(r@ =~= self@.difference(other@));
        }
        r
    }

    /// Whether the set holds at least one cell.
    pub fn any(&self) -> (r: bool)
        ensures
            r == (self@ != Set::<int>::empty()),
    {
        let mut w: usize = 0;
        while w < WORDS
            invariant
                w <= WORDS,
                forall|j: int| 0 <= j < w ==> self.words[j] == 0u8,
            decreases WORDS - w,
        {
            if self.words[w] != 0u8 {
                proof {
                    let x = self.words[w as int];
                    if forall|k: u8| k < 8 ==> !#[trigger] bit_of(x, k) {
                        assert forall|k: u8| k < 8 implies #[trigger] bit_of(x, k) == bit_of(0u8, k) by {
                            lemma_bit_zero(k);
                        }
                        lemma_byte_ext(x, 0u8);
                    }
                    let k = choose|k: u8| k < 8 && #[trigger] bit_of(x, k);
                    lemma_index_join(w as int, k as int);
                    let i = 8 * w + k;
                    assert(((i % 8) as u8) == k);
                    assert(self@.contains(i));
                }
                return true;
            }
            w = w + 1;
        }
        proof {
            assert forall|i: int| !self@.contains(i) by {
                if 0 <= i < CAPACITY {
                    lemma_index_split(i);
                    lemma_bit_zero((i % 8) as u8);
                }
            }
            assert(self@ =~= Set::<int>::empty());
        }
        false
    }

    /// The number of cells in the set.
    pub fn count(&self) -> (r: usize)
        ensures
            r == self@.len(),
    {
        let mut n: usize = 0;
        let mut i: usize = 0;
        proof {
            lemma_int_range(0, 0);
            lemma_len_subset(self@.intersect(cells(0)), cells(0));
        }
        while i < CAPACITY
            invariant
                i <= CAPACITY,
                n <= i,
                self@.intersect(cells(i as int)).finite(),
                n == self@.intersect(cells(i as int)).len(),
            decreases CAPACITY - i,
        {
            let ghost before = self@.intersect(cells(i as int));
            if self.get(i) {
                n = n + 1;
                assert(self@.intersect(cells(i + 1)) =~= before.insert(i as int));
            } else {
                assert(self@.intersect(cells(i + 1)) =~= before);
            }
            i = i + 1;
        }
        proof {
            self.lemma_bounded();
            assert(self@.intersect(cells(CAPACITY as int)) =~= self@);
        }
        n
    }

    /// The set of cells `0 .. n`.
    pub fn universe(n: usize) -> (r: BitSet)
        requires
            n <= CAPACITY,
        ensures
            r@ == cells(n as int),
    {
        let mut r = BitSet::new();
        let mut i: usize = 0;
        while i < n
            invariant
                i <= n <= CAPACITY,
                r@ == cells(i as int),
            decreases n - i,
        {
            r.set(i, true);
            assert(r@ =~= cells(i + 1));
            i = i + 1;
        }
        r
    }
}

impl PartialEq for BitSet {
    fn eq(&self, other: &BitSet) -> (r: bool) {
        let mut w: usize = 0;
        while w < WORDS
            invariant
                w <= WORDS,
                forall|j: int| 0 <= j < w ==> self.words[j] == other.words[j],
            decreases WORDS - w,
        {
            if self.words[w] != other.words[w] {
                return false;
            }
            w = w + 1;
        }
        proof {
            assert(self.words@ =~= other.words@);
            vstd::array::axiom_array_ext_equal(self.words, other.words);
        }
        true
    }
}

impl vstd::std_specs::cmp::PartialEqSpecImpl for BitSet {
    open spec fn obeys_eq_spec() -> bool {
        true
    }

    open spec fn eq_spec(&self, other: &BitSet) -> bool {
        *self == *other
    }
}

} // verus!
