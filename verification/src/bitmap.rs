//! Fixed-length bitmap over time slots.
//!
//! Each teacher, class and room owns one bitmap; bit `i` records whether slot `i`
//! is occupied. Conflict detection is one `set`, which hands back the old value.

use vstd::prelude::*;

verus! {

/// Bit `b` of the word `w`.
pub open spec fn word_bit(w: u64, b: u64) -> bool {
    (w >> b) & 1u64 == 1u64
}

/// Setting bit `b` leaves every other bit of the word alone.
proof fn lemma_word_or_bit(w: u64, b: u64, c: u64)
    requires
        b < 64,
        c < 64,
    ensures
        word_bit(w | (1u64 << b), c) == (c == b || word_bit(w, c)),
        ((w & (1u64 << b)) != 0u64) == word_bit(w, b),
{
    assert(((w | (1u64 << b)) >> c) & 1u64 == 1u64 <==> (c == b || (w >> c) & 1u64 == 1u64))
        by (bit_vector)
        requires
            b < 64,
            c < 64,
    ;
    assert(((w & (1u64 << b)) != 0u64) == ((w >> b) & 1u64 == 1u64)) by (bit_vector)
        requires
            b < 64,
    ;
}

/// Clearing bit `b` leaves every other bit of the word alone.
proof fn lemma_word_clear_bit(w: u64, b: u64, c: u64)
    requires
        b < 64,
        c < 64,
    ensures
        word_bit(w & !(1u64 << b), c) == (c != b && word_bit(w, c)),
{
    assert(((w & !(1u64 << b)) >> c) & 1u64 == 1u64 <==> (c != b && (w >> c) & 1u64 == 1u64))
        by (bit_vector)
        requires
            b < 64,
            c < 64,
    ;
}

/// The zero word has no bit set.
proof fn lemma_zero_word(c: u64)
    requires
        c < 64,
    ensures
        !word_bit(0u64, c),
{
    assert((0u64 >> c) & 1u64 != 1u64) by (bit_vector);
}

/// Number of `true` entries of a bit sequence.
pub open spec fn count_true(bits: Seq<bool>) -> nat
    decreases bits.len(),
{
    if bits.len() == 0 {
        0
    } else {
        count_true(bits.drop_last()) + if bits.last() {
            1nat
        } else {
            0nat
        }
    }
}

/// A prefix holds no more set bits than the whole sequence.
proof fn lemma_count_true_prefix(bits: Seq<bool>, i: int)
    requires
        0 <= i <= bits.len(),
    ensures
        count_true(bits.take(i)) <= count_true(bits),
    decreases bits.len(),
{
    if i == bits.len() {
        assert(bits.take(i) =~= bits);
    } else {
        let pre = bits.drop_last();
        lemma_count_true_prefix(pre, i);
        assert(pre.take(i) =~= bits.take(i));
    }
}

/// A sequence with no `true` entry counts none.
proof fn lemma_count_true_none(n: nat)
    ensures
        count_true(Seq::new(n, |i: int| false)) == 0,
    decreases n,
{
    if n > 0 {
        lemma_count_true_none((n - 1) as nat);
        assert(Seq::new(n, |i: int| false).drop_last() =~= Seq::new((n - 1) as nat, |i: int| false));
    }
}

/// The indices below `n` whose bit is set, in increasing order.
pub open spec fn ones_below(bits: Seq<bool>, n: nat) -> Seq<usize>
    decreases n,
{
    if n == 0 {
        Seq::empty()
    } else {
        let rest = ones_below(bits, (n - 1) as nat);
        if bits[n - 1] {
            rest.push((n - 1) as usize)
        } else {
            rest
        }
    }
}

/// `words` holds exactly enough words for `len` bits, none set at or beyond `len`.
spec fn words_well_formed(words: Seq<u64>, len: int) -> bool {
    &&& words.len() == (len + 63) / 64
    &&& forall|i: int|
        len <= i < words.len() * 64 ==> !word_bit(#[trigger] words[i / 64], (i % 64) as u64)
}

/// Overwrites one word of a word vector.
fn store_word(words: &mut Vec<u64>, w: usize, val: u64)
    requires
        w < old(words)@.len(),
    ensures
        final(words)@ == old(words)@.update(w as int, val),
    no_unwind
{
    words[w] = val;
}

/// Fixed-length bitmap stored as 64-bit words.
#[derive(Debug, PartialEq, Eq)]
pub struct Bitmap {
    words: Vec<u64>,
    len: usize,
}

impl View for Bitmap {
    type V = Seq<bool>;

    closed spec fn view(&self) -> Seq<bool> {
        Seq::new(self.len as nat, |i: int| word_bit(self.words@[i / 64], (i % 64) as u64))
    }
}

impl Bitmap {
    /// Exactly enough words for `len` bits, and no bit set at or beyond `len`.
    #[verifier::type_invariant]
    spec fn well_formed(self) -> bool {
        words_well_formed(self.words@, self.len as int)
    }

    /// An all-zero bitmap of `len` bits.
    pub fn new(len: usize) -> (b: Bitmap)
        ensures
            b@ == Seq::new(len as nat, |i: int| false),
            count_true(b@) == 0,
    {
        let nwords: usize = len / 64 + if len % 64 != 0 {
            1
        } else {
            0
        };
        let mut words: Vec<u64> = Vec::new();
        let mut k: usize = 0;
        while k < nwords
            invariant
                k <= nwords,
                words@.len() == k,
                forall|j: int| 0 <= j < k ==> words@[j] == 0u64,
            decreases nwords - k,
        {
            words.push(0u64);
            k = k + 1;
        }
        proof {
            assert forall|i: int| 0 <= i < words@.len() * 64 implies !word_bit(
                #[trigger] words@[i / 64],
                (i % 64) as u64,
            ) by {
                lemma_zero_word((i % 64) as u64);
            }
        }
        let b = Bitmap { words, len };
        proof {
            assert(b@ =~= Seq::new(len as nat, |i: int| false));
            lemma_count_true_none(len as nat);
        }
        b
    }

    /// Number of bits.
    pub fn len(&self) -> (n: usize)
        ensures
            n == self@.len(),
    {
        self.len
    }

    /// Whether the bitmap has no bits at all.
    pub fn is_empty(&self) -> (e: bool)
        ensures
            e == (self@.len() == 0),
    {
        self.len == 0
    }

    /// Bit `i`; `i` must be in range.
    pub fn get(&self, i: usize) -> (b: bool)
        requires
            i < self@.len(),
        ensures
            b == self@[i as int],
    {
        proof {
            use_type_invariant(self);
        }
        (self.words[i / 64] >> ((i % 64) as u64)) & 1u64 == 1u64
    }

    /// Sets bit `i` and returns its value from before the call.
    pub fn set(&mut self, i: usize) -> (prev: bool)
        requires
            i < old(self)@.len(),
        ensures
            prev == old(self)@[i as int],
            final(self)@ == old(self)@.update(i as int, true),
    {
        proof {
            use_type_invariant(&*self);
        }
        let w = i / 64;
        let b = (i % 64) as u64;
        let word = self.words[w];
        let mask = 1u64 << b;
        let prev = word & mask != 0u64;
        proof {
            lemma_word_or_bit(word, b, b);
            let new_word = word | mask;
            assert forall|j: int| 0 <= j < self.words@.len() * 64 && j / 64 == w implies #[trigger] word_bit(
                new_word,
                (j % 64) as u64,
            ) == (j == i || word_bit(word, (j % 64) as u64)) by {
                lemma_word_or_bit(word, b, (j % 64) as u64);
            }
            let nw = self.words@.update(w as int, new_word);
            assert forall|j: int| self.len <= j < nw.len() * 64 implies !word_bit(
                #[trigger] nw[j / 64],
                (j % 64) as u64,
            ) by {
                assert(!word_bit(self.words@[j / 64], (j % 64) as u64));
            }
            assert(words_well_formed(nw, self.len as int));
        }
        store_word(&mut self.words, w, word | mask);
        proof {
            assert(self@ =~= old(self)@.update(i as int, true));
        }
        prev
    }

    /// Clears bit `i`.
    pub fn clear(&mut self, i: usize)
        requires
            i < old(self)@.len(),
        ensures
            final(self)@ == old(self)@.update(i as int, false),
    {
        proof {
            use_type_invariant(&*self);
        }
        let w = i / 64;
        let b = (i % 64) as u64;
        let word = self.words[w];
        let mask = 1u64 << b;
        proof {
            let new_word = word & !mask;
            assert forall|j: int| 0 <= j < self.words@.len() * 64 && j / 64 == w implies #[trigger] word_bit(
                new_word,
                (j % 64) as u64,
            ) == (j != i && word_bit(word, (j % 64) as u64)) by {
                lemma_word_clear_bit(word, b, (j % 64) as u64);
            }
            let nw = self.words@.update(w as int, new_word);
            assert forall|j: int| self.len <= j < nw.len() * 64 implies !word_bit(
                #[trigger] nw[j / 64],
                (j % 64) as u64,
            ) by {
                assert(!word_bit(self.words@[j / 64], (j % 64) as u64));
            }
            assert(words_well_formed(nw, self.len as int));
        }
        store_word(&mut self.words, w, word & !mask);
        proof {
            assert(self@ =~= old(self)@.update(i as int, false));
        }
    }

    /// Number of set bits; the count must fit in a `u32`.
    pub fn count_ones(&self) -> (n: u32)
        requires
            count_true(self@) <= u32::MAX,
        ensures
            n == count_true(self@),
    {
        let mut n: u32 = 0;
        let mut i: usize = 0;
        while i < self.len
            invariant
                i <= self@.len(),
                self@.len() == self.len,
                count_true(self@) <= u32::MAX,
                n == count_true(self@.take(i as int)),
            decreases self.len - i,
        {
            proof {
                assert(self@.take(i + 1).drop_last() =~= self@.take(i as int));
                lemma_count_true_prefix(self@, i + 1);
            }
            if self.get(i) {
                n = n + 1;
            }
            i = i + 1;
        }
        proof {
            assert(self@.take(i as int) =~= self@);
        }
        n
    }

    /// Whether some index below both lengths is set in both bitmaps.
    pub fn intersects(&self, other: &Bitmap) -> (r: bool)
        ensures
            r == exists|i: int|
                0 <= i < self@.len() && i < other@.len() && #[trigger] self@[i] && other@[i],
    {
        let n = if self.len < other.len {
            self.len
        } else {
            other.len
        };
        let mut i: usize = 0;
        while i < n
            invariant
                i <= n,
                n <= self@.len(),
                n <= other@.len(),
                n == self@.len() || n == other@.len(),
                forall|j: int| 0 <= j < i ==> !(#[trigger] self@[j] && other@[j]),
            decreases n - i,
        {
            if self.get(i) && other.get(i) {
                return true;
            }
            i = i + 1;
        }
        false
    }

    /// All set indices, in increasing order.
    pub fn iter_ones(&self) -> (v: Vec<usize>)
        ensures
            v@ == ones_below(self@, self@.len()),
    {
        let mut v: Vec<usize> = Vec::new();
        let mut i: usize = 0;
        while i < self.len
            invariant
                i <= self@.len(),
                self@.len() == self.len,
                v@ == ones_below(self@, i as nat),
            decreases self.len - i,
        {
            if self.get(i) {
                v.push(i);
            }
            i = i + 1;
        }
        v
    }
}

impl Clone for Bitmap {
    fn clone(&self) -> (c: Bitmap)
        ensures
            c@ == self@,
    {
        proof {
            use_type_invariant(self);
        }
        let mut words: Vec<u64> = Vec::new();
        let mut k: usize = 0;
        while k < self.words.len()
            invariant
                k <= self.words@.len(),
                words@ == self.words@.take(k as int),
            decreases self.words@.len() - k,
        {
            words.push(self.words[k]);
            k = k + 1;
            proof {
                assert(words@ =~= self.words@.take(k as int));
            }
        }
        proof {
            assert(words@ =~= self.words@);
        }
        Bitmap { words, len: self.len }
    }
}


/// The indices that `iter_ones` lists are the set ones, each once, in strictly
/// increasing order, and as many as `count_ones` counts.
pub proof fn lemma_ones_below(bits: Seq<bool>, n: nat)
    requires
        n <= bits.len(),
        bits.len() <= usize::MAX,
    ensures
        forall|a: int, b: int|
            0 <= a < b < ones_below(bits, n).len() ==> ones_below(bits, n)[a] < ones_below(
                bits,
                n,
            )[b],
        forall|k: int| 0 <= k < ones_below(bits, n).len() ==> ones_below(bits, n)[k] < n,
        forall|i: int| 0 <= i < n ==> (bits[i] <==> ones_below(bits, n).contains(i as usize)),
        ones_below(bits, n).len() == count_true(bits.take(n as int)),
    decreases n,
{
    if n > 0 {
        let m = (n - 1) as nat;
        lemma_ones_below(bits, m);
        let rest = ones_below(bits, m);
        let all = ones_below(bits, n);
        assert(bits.take(n as int).drop_last() =~= bits.take(m as int));
        if bits[n - 1] {
            assert forall|a: int, b: int| 0 <= a < b < all.len() implies all[a] < all[b] by {
                if b < rest.len() {
                    assert(all[a] == rest[a] && all[b] == rest[b]);
                } else {
                    assert(all[a] == rest[a]);
                }
            }
        }
        assert forall|i: int| 0 <= i < n implies (bits[i] <==> all.contains(i as usize)) by {
            if bits[n - 1] {
                if i < m {
                    if bits[i] {
                        let k = choose|k: int| 0 <= k < rest.len() && rest[k] == i as usize;
                        assert(all[k] == rest[k]);
                    }
                    if all.contains(i as usize) {
                        let k = choose|k: int| 0 <= k < all.len() && all[k] == i as usize;
                        if k < rest.len() {
                            assert(rest[k] == all[k]);
                        }
                    }
                } else {
                    assert(all[all.len() - 1] == (n - 1) as usize);
                }
            } else {
                if i == m {
                    if all.contains(i as usize) {
                        let k = choose|k: int| 0 <= k < all.len() && all[k] == i as usize;
                        assert(rest[k] < m);
                    }
                }
            }
        }
    }
}

} // verus!
