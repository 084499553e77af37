use vstd::prelude::*;
use vstd::std_specs::bits::u64_trailing_zeros;
use vstd::std_specs::bits::axiom_u64_trailing_zeros;

use crate::error::ErrorKind;
use crate::error::Result;

verus! {

/// Sentinel document id: no further set bit or document.
pub const NO_MORE_DOCS: i32 = 0x7fff_ffff;

/// Largest logical length of a bit set: every position is then an `i32`
/// document id below `NO_MORE_DOCS`.
pub const MAX_NUM_BITS: usize = 0x7fff_ffff;

/// Largest request that `ensure_capacity` can grow a set to: the grown
/// length, a whole number of words with one to spare, stays within
/// `MAX_NUM_BITS`.
pub const MAX_GROWTH_REQUEST: usize = 0x7fff_ff80;

const ALL_ONES: u64 = 0xffff_ffff_ffff_ffff;

/// Bit `k` (counted from the least significant) of the word `w`.
pub open spec fn word_bit(w: u64, k: u64) -> bool {
    (w >> k) & 1u64 == 1u64
}

/// Bit at logical position `i` of a word array: word `i / 64`, bit `i % 64`.
pub open spec fn bit_at(words: Seq<u64>, i: int) -> bool {
    word_bit(words[i / 64], (i % 64) as u64)
}

/// Number of 64-bit words needed to hold `n` bits.
pub open spec fn words_for(n: nat) -> nat {
    (n + 63) / 64
}

/// Number of `true` entries of a sequence.
pub open spec fn count_set(s: Seq<bool>) -> nat
    decreases s.len(),
{
    if s.len() == 0 {
        0
    } else {
        count_set(s.drop_last()) + if s.last() { 1nat } else { 0nat }
    }
}

/// The first set position at or after `i`, or `NO_MORE_DOCS` when there is none.
pub open spec fn next_set(s: Seq<bool>, i: int) -> int
    decreases s.len() - i,
{
    if i < 0 || i >= s.len() {
        NO_MORE_DOCS as int
    } else if s[i] {
        i
    } else {
        next_set(s, i + 1)
    }
}

/// `next_set` is the first set position in the scanned range.
proof fn lemma_next_set(s: Seq<bool>, i: int, p: int)
    requires
        0 <= i <= p,
        forall|j: int| i <= j < p && j < s.len() ==> !#[trigger] s[j],
    ensures
        p < s.len() && s[p] ==> next_set(s, i) == p,
        p >= s.len() ==> next_set(s, i) == NO_MORE_DOCS as int,
    decreases p - i,
{
    if i < p && i < s.len() {
        lemma_next_set(s, i + 1, p);
    }
}

/// Whether `ensure_capacity(num_bits)` reallocates `b`: the request reaches
/// its length and its words cannot hold that many bits.
pub open spec fn grows(b: &FixedBitSet, num_bits: usize) -> bool {
    num_bits >= b.num_bits && words_for(num_bits as nat) >= b.bits.len()
}

/// Whether `copy_from` accepts `words` for a set of `num_bits` bits: there
/// are enough words and no bit at or past `num_bits` is set.
pub open spec fn can_adopt(words: Seq<u64>, num_bits: usize) -> bool {
    words_for(num_bits as nat) <= words.len() && clear_from(words, num_bits as int)
}

/// `s` followed by clear bits, up to length `n`.
pub open spec fn extended(s: Seq<bool>, n: usize) -> Seq<bool> {
    Seq::new(n as nat, |i: int| i < s.len() && s[i])
}

/// `v` with every entry in `[start, end)` toggled.
pub open spec fn flipped(v: Seq<bool>, start: int, end: int) -> Seq<bool> {
    Seq::new(v.len(), |i: int| if start <= i < end { !v[i] } else { v[i] })
}

/// `v` with every entry in `[start, end)` cleared.
pub open spec fn cleared(v: Seq<bool>, start: int, end: int) -> Seq<bool> {
    Seq::new(v.len(), |i: int| if start <= i < end { false } else { v[i] })
}

/// The set positions of `v` at or after `i`, in ascending order.
pub open spec fn set_positions_from(v: Seq<bool>, i: int) -> Seq<int>
    decreases v.len() - i,
{
    if i < 0 || i >= v.len() {
        Seq::empty()
    } else if v[i] {
        seq![i] + set_positions_from(v, i + 1)
    } else {
        set_positions_from(v, i + 1)
    }
}

/// The positions that repeated `next_set_bit` calls visit from `i`: the
/// first set position `p` at or after `i`, then those from `p + 1`, until
/// none is left.
pub open spec fn scan_from(v: Seq<bool>, i: int) -> Seq<int>
    decreases v.len() - i,
{
    let p = next_set(v, i);
    if i < 0 || p < i || p >= v.len() {
        Seq::empty()
    } else {
        seq![p] + scan_from(v, p + 1)
    }
}

/// Toggling the same range twice restores every bit.
pub proof fn flip_is_involution(v: Seq<bool>, start: int, end: int)
    ensures
        flipped(flipped(v, start, end), start, end) == v,
{
    assert(flipped(flipped(v, start, end), start, end) =~= v);
}

/// After clearing `[start, end)`, every position in the range reads clear
/// and every other position reads as before.
pub proof fn clear_range_effect(v: Seq<bool>, start: int, end: int)
    ensures
        cleared(v, start, end).len() == v.len(),
        forall|i: int| start <= i < end && 0 <= i < v.len() ==> !#[trigger] cleared(v, start, end)[i],
        forall|i: int|
            0 <= i < v.len() && !(start <= i < end) ==> #[trigger] cleared(v, start, end)[i] == v[i],
{
}

/// Scanning with repeated `next_set_bit` from `i` visits exactly the set
/// positions at or after `i`, in ascending order.
pub proof fn next_set_bit_scan_enumerates(v: Seq<bool>, i: int)
    requires
        0 <= i,
        v.len() < NO_MORE_DOCS,
    ensures
        scan_from(v, i) == set_positions_from(v, i),
    decreases v.len() - i,
{
    if i < v.len() {
        next_set_bit_scan_enumerates(v, i + 1);
        if !v[i] {
            assert(next_set(v, i) == next_set(v, i + 1));
            lemma_next_set_at_least(v, i + 1);
        } else {
            assert(next_set(v, i) == i);
        }
    }
}

proof fn lemma_next_set_at_least(v: Seq<bool>, i: int)
    requires
        0 <= i <= v.len(),
        v.len() < NO_MORE_DOCS,
    ensures
        next_set(v, i) >= i,
        next_set(v, i) < v.len() ==> v[next_set(v, i)],
    decreases v.len() - i,
{
    if i < v.len() && !v[i] {
        lemma_next_set_at_least(v, i + 1);
    }
}

/// The first `n` bits of a word array.
pub open spec fn bits_prefix(words: Seq<u64>, n: int) -> Seq<bool> {
    Seq::new(n as nat, |i: int| bit_at(words, i))
}

/// The 64 bits of a word, least significant first.
pub open spec fn word_seq(w: u64) -> Seq<bool> {
    Seq::new(64, |k: int| word_bit(w, k as u64))
}

proof fn lemma_count_concat(a: Seq<bool>, b: Seq<bool>)
    ensures
        count_set(a + b) == count_set(a) + count_set(b),
    decreases b.len(),
{
    if b.len() > 0 {
        lemma_count_concat(a, b.drop_last());
        assert((a + b).drop_last() =~= a + b.drop_last());
    } else {
        assert(a + b =~= a);
    }
}

proof fn lemma_count_false(s: Seq<bool>)
    requires
        forall|i: int| 0 <= i < s.len() ==> !s[i],
    ensures
        count_set(s) == 0,
    decreases s.len(),
{
    if s.len() > 0 {
        lemma_count_false(s.drop_last());
    }
}

/// The number of set bits of `w`; a clear word is answered at once.
fn pop_word(w: u64) -> (r: u32)
    ensures
        r == count_set(word_seq(w)),
        r <= 64,
{
    if w == 0 {
        proof {
            lemma_zero_word(w);
            lemma_count_false(word_seq(w));
        }
        return 0;
    }
    let mut c: u32 = 0;
    let mut k: u64 = 0;
    while k < 64
        invariant
            k <= 64,
            c <= k,
            c == count_set(word_seq(w).take(k as int)),
        decreases 64 - k,
    {
        proof {
            assert(word_seq(w).take(k + 1).drop_last() =~= word_seq(w).take(k as int));
        }
        if (w >> k) & 1 == 1 {
            c = c + 1;
        }
        k = k + 1;
    }
    assert(word_seq(w).take(64) =~= word_seq(w));
    c
}

/// Every bit of the array at a position `>= from` is clear.
pub open spec fn clear_from(words: Seq<u64>, from: int) -> bool {
    forall|i: int| from <= i < words.len() * 64 ==> !#[trigger] bit_at(words, i)
}

proof fn lemma_bit_of_or_one(w: u64, j: u64, k: u64)
    requires
        j < 64,
        k < 64,
    ensures
        ((w | (1u64 << j)) >> k) & 1u64 == 1u64 <==> (k == j || (w >> k) & 1u64 == 1u64),
{
    assert(((w | (1u64 << j)) >> k) & 1u64 == 1u64 <==> (k == j || (w >> k) & 1u64 == 1u64))
        by (bit_vector)
        requires
            j < 64,
            k < 64,
    ;
}

proof fn lemma_bit_of_and_not_one(w: u64, j: u64, k: u64)
    requires
        j < 64,
        k < 64,
    ensures
        ((w & !(1u64 << j)) >> k) & 1u64 == 1u64 <==> (k != j && (w >> k) & 1u64 == 1u64),
{
    assert(((w & !(1u64 << j)) >> k) & 1u64 == 1u64 <==> (k != j && (w >> k) & 1u64 == 1u64))
        by (bit_vector)
        requires
            j < 64,
            k < 64,
    ;
}

proof fn lemma_bit_of_and(a: u64, m: u64, k: u64)
    requires
        k < 64,
    ensures
        word_bit(a & m, k) == (word_bit(a, k) && word_bit(m, k)),
        word_bit(a ^ m, k) == (word_bit(a, k) != word_bit(m, k)),
        word_bit(a | m, k) == (word_bit(a, k) || word_bit(m, k)),
        word_bit(!a, k) == !word_bit(a, k),
{
    assert(((a & m) >> k) & 1u64 == 1u64 <==> ((a >> k) & 1u64 == 1u64 && (m >> k) & 1u64
        == 1u64)) by (bit_vector);
    assert(((a ^ m) >> k) & 1u64 == 1u64 <==> ((a >> k) & 1u64 == 1u64) != ((m >> k) & 1u64
        == 1u64)) by (bit_vector);
    assert(((a | m) >> k) & 1u64 == 1u64 <==> ((a >> k) & 1u64 == 1u64 || (m >> k) & 1u64
        == 1u64)) by (bit_vector);
    assert(((!a) >> k) & 1u64 == 1u64 <==> !((a >> k) & 1u64 == 1u64)) by (bit_vector)
        requires
            k < 64,
    ;
}

/// `ALL_ONES << s` holds exactly the bits at `s` and above.
proof fn lemma_bits_from(s: u64, k: u64)
    requires
        s < 64,
        k < 64,
    ensures
        word_bit(ALL_ONES << s, k) == (s <= k),
        word_bit(!(ALL_ONES << s), k) == (k < s),
{
    assert(((0xffff_ffff_ffff_ffffu64 << s) >> k) & 1u64 == 1u64 <==> s <= k) by (bit_vector)
        requires
            s < 64,
            k < 64,
    ;
    assert(((!(0xffff_ffff_ffff_ffffu64 << s)) >> k) & 1u64 == 1u64 <==> k < s) by (bit_vector)
        requires
            s < 64,
            k < 64,
    ;
}

proof fn lemma_constant_words(k: u64)
    requires
        k < 64,
    ensures
        !word_bit(0u64, k),
        word_bit(ALL_ONES, k),
{
    assert((0u64 >> k) & 1u64 == 0u64) by (bit_vector);
    assert((0xffff_ffff_ffff_ffffu64 >> k) & 1u64 == 1u64) by (bit_vector)
        requires
            k < 64,
    ;
}

/// A word is zero exactly when none of its bits is set.
proof fn lemma_zero_word(w: u64)
    ensures
        (w == 0) <==> (forall|k: u64| k < 64 ==> !#[trigger] word_bit(w, k)),
        w != 0 ==> u64_trailing_zeros(w) < 64 && word_bit(w, u64_trailing_zeros(w) as u64),
{
    axiom_u64_trailing_zeros(w);
    if w == 0 {
        assert forall|k: u64| k < 64 implies !#[trigger] word_bit(w, k) by {
            lemma_constant_words(k);
        }
    } else {
        let t = u64_trailing_zeros(w) as u64;
        assert(word_bit(w, t));
    }
}

/// Bit `k` of `w >> s` is bit `s + k` of `w`, and clear past the word.
proof fn lemma_shifted_bit(w: u64, s: u64, k: u64)
    requires
        s < 64,
        k < 64,
    ensures
        s + k < 64 ==> word_bit(w >> s, k) == word_bit(w, (s + k) as u64),
        s + k >= 64 ==> !word_bit(w >> s, k),
{
    assert(s + k < 64 ==> (((w >> s) >> k) & 1u64 == 1u64 <==> (w >> ((s + k) as u64)) & 1u64
        == 1u64)) by (bit_vector)
        requires
            s < 64,
            k < 64,
    ;
    assert(s + k >= 64 ==> ((w >> s) >> k) & 1u64 == 0u64) by (bit_vector)
        requires
            s < 64,
            k < 64,
    ;
}

/// Positions in earlier words come first; a position splits into word and bit.
proof fn lemma_word_order(p: int, q: int)
    requires
        0 <= p,
        0 <= q,
    ensures
        p / 64 < q / 64 ==> p < q,
        p == 64 * (p / 64) + p % 64,
        0 <= p % 64 < 64,
{
    assert(p / 64 < q / 64 ==> p < q) by (nonlinear_arith)
        requires
            0 <= p,
            0 <= q,
    ;
}

/// `words_for(n)` words hold `n` bits with less than one word to spare.
proof fn lemma_words_for(n: nat)
    ensures
        n <= words_for(n) * 64 < n + 64,
{
    assert(n <= ((n + 63) / 64) * 64 < n + 64) by (nonlinear_arith);
}

/// Returns the number of 64-bit words it takes to hold `num_bits` bits.
pub fn bits2words(num_bits: usize) -> (r: usize)
    ensures
        r == words_for(num_bits as nat),
{
    num_bits / 64 + if num_bits % 64 != 0 { 1usize } else { 0usize }
}

/// A forward-only iterator over increasing document ids, supplied by the
/// caller; `NO_MORE_DOCS` marks its end.
pub trait DocIterator {
    /// The current document id; -1 before the first call of `next`.
    fn doc_id(&self) -> i32;

    /// Advances to the next document id and returns it, or `NO_MORE_DOCS`.
    fn next(&mut self) -> Result<i32>;
}

/// Whether an iterator at `doc_id` is unpositioned, as a bulk operation
/// needs: succeeds exactly on -1, and fails with `IllegalState` otherwise.
pub fn check_unpositioned(doc_id: i32) -> (r: Result<()>)
    ensures
        doc_id == -1 ==> r == Ok::<(), ErrorKind>(()),
        doc_id != -1 ==> r == Err::<(), ErrorKind>(ErrorKind::IllegalState),
{
    if doc_id != -1 {
        Err(ErrorKind::IllegalState)
    } else {
        Ok(())
    }
}

/// Read-only access to a sequence of bits.
pub trait ImmutableBits: Sized {
    /// The bits, by position.
    spec fn bits_view(&self) -> Seq<bool>;

    /// The representation invariant.
    spec fn valid(&self) -> bool;

    /// The number of bits.
    fn len(&self) -> (r: usize)
        requires
            self.valid(),
        ensures
            r == self.bits_view().len(),
    ;

    /// The bit at `index`; fails with `IllegalArgument` past the end.
    fn get(&self, index: usize) -> (r: Result<bool>)
        requires
            self.valid(),
        ensures
            index < self.bits_view().len() ==> r == Ok::<bool, ErrorKind>(self.bits_view()[index as int]),
            index >= self.bits_view().len() ==> r == Err::<bool, ErrorKind>(ErrorKind::IllegalArgument),
    ;
}

/// Read-only bits with aggregate queries.
pub trait ImmutableBitSet: ImmutableBits {
    /// The number of set bits.
    fn cardinality(&self) -> (r: usize)
        requires
            self.valid(),
        ensures
            r == count_set(self.bits_view()),
    ;

    /// An estimate of the number of set bits; by default the exact count.
    fn approximate_cardinality(&self) -> (r: usize)
        requires
            self.valid(),
        default_ensures
            r == count_set(self.bits_view()),
    {
        self.cardinality()
    }

    /// The first set position at or after `index`, or `NO_MORE_DOCS` when
    /// there is none.
    fn next_set_bit(&self, index: usize) -> (r: i32)
        requires
            self.valid(),
            index < self.bits_view().len(),
        ensures
            r == next_set(self.bits_view(), index as int),
            r == NO_MORE_DOCS ==> forall|j: int|
                index <= j < self.bits_view().len() ==> !#[trigger] self.bits_view()[j],
            r != NO_MORE_DOCS ==> index <= r < self.bits_view().len() && self.bits_view()[r as int],
            r != NO_MORE_DOCS ==> forall|j: int| index <= j < r ==> !#[trigger] self.bits_view()[j],
    ;

    /// Fails with `IllegalState` unless `iter` has not been advanced yet.
    fn assert_unpositioned<I: DocIterator>(&self, iter: &I) -> (r: Result<()>)
        ensures
            r is Ok || r == Err::<(), ErrorKind>(ErrorKind::IllegalState),
    {
        check_unpositioned(iter.doc_id())
    }
}

/// A bit set that can be changed.
pub trait BitSet: ImmutableBitSet {
    /// Sets the bit at `i`.
    fn set(&mut self, i: usize)
        requires
            old(self).valid(),
            i < old(self).bits_view().len(),
        ensures
            final(self).valid(),
            final(self).bits_view() == old(self).bits_view().update(i as int, true),
    ;

    /// Clears every bit in `[start_index, end_index)`; nothing happens when
    /// `end_index <= start_index`.
    fn clear(&mut self, start_index: usize, end_index: usize)
        requires
            old(self).valid(),
            end_index <= old(self).bits_view().len(),
        ensures
            final(self).valid(),
            final(self).bits_view() == cleared(old(self).bits_view(), start_index as int, end_index as int),
            end_index <= start_index ==> *final(self) == *old(self),
    ;

    /// One step of `or` on the id `doc` that the iterator gave, where ids
    /// below `floor` were passed already: `Ok(false)` at `NO_MORE_DOCS`,
    /// `Err(IllegalArgument)` on an id below `floor` or past the end, and
    /// otherwise `Ok(true)` with the bit of `doc` set.
    fn or_step(&mut self, doc: i32, floor: usize) -> (r: Result<bool>)
        requires
            old(self).valid(),
        ensures
            doc == NO_MORE_DOCS ==> r == Ok::<bool, ErrorKind>(false) && *final(self) == *old(self),
            doc != NO_MORE_DOCS && (doc < floor || doc >= old(self).bits_view().len()) ==> r == Err::<
                bool,
                ErrorKind,
            >(ErrorKind::IllegalArgument) && *final(self) == *old(self),
            doc != NO_MORE_DOCS && floor <= doc < old(self).bits_view().len() ==> r == Ok::<
                bool,
                ErrorKind,
            >(true) && final(self).valid() && final(self).bits_view() == old(
                self,
            ).bits_view().update(doc as int, true),
    {
        if doc == NO_MORE_DOCS {
            return Ok(false);
        }
        let len = self.len();
        if doc < 0 || (doc as usize) < floor || doc as usize >= len {
            return Err(ErrorKind::IllegalArgument);
        }
        self.set(doc as usize);
        Ok(true)
    }

    /// Sets the bit of every document id that `iter` gives, until
    /// `NO_MORE_DOCS`. Fails with `IllegalState`, changing nothing, when the
    /// iterator was already advanced, and with `IllegalArgument` when it
    /// gives an id out of range or not above the one before; errors of the
    /// iterator pass through. Bits are only ever set.
    fn or<I: DocIterator>(&mut self, iter: &mut I) -> (r: Result<()>)
        requires
            old(self).valid(),
        ensures
            final(self).valid(),
            final(self).bits_view().len() == old(self).bits_view().len(),
            forall|i: int|
                0 <= i < old(self).bits_view().len() && #[trigger] old(self).bits_view()[i]
                    ==> final(self).bits_view()[i],
    {
        let ghost v0 = self.bits_view();
        self.assert_unpositioned(iter)?;
        let len = self.len();
        let mut floor: usize = 0;
        loop
            invariant
                self.valid(),
                v0 == old(self).bits_view(),
                len == v0.len(),
                self.bits_view().len() == v0.len(),
                floor <= len,
                forall|i: int| 0 <= i < v0.len() && v0[i] ==> #[trigger] self.bits_view()[i],
            decreases len - floor,
        {
            let doc = iter.next()?;
            if !self.or_step(doc, floor)? {
                break ;
            }
            floor = doc as usize + 1;
        }
        Ok(())
    }
}

/// A bit set of fixed logical length `num_bits`, packed into 64-bit words.
pub struct FixedBitSet {
    /// The words holding the bits; may be longer than `num_words`.
    pub bits: Vec<u64>,
    /// The number of bits in use.
    pub num_bits: usize,
    /// The exact number of words needed to hold `num_bits`.
    pub num_words: usize,
}

impl View for FixedBitSet {
    type V = Seq<bool>;

    /// Bit `i` of the set, for each position below `num_bits`.
    open spec fn view(&self) -> Seq<bool> {
        Seq::new(self.num_bits as nat, |i: int| bit_at(self.bits@, i))
    }
}

impl FixedBitSet {
    /// The representation invariant: lengths agree and every ghost bit
    /// (at or past `num_bits`, in any allocated word) is clear.
    pub open spec fn wf(&self) -> bool {
        &&& self.num_bits <= MAX_NUM_BITS
        &&& self.num_words == words_for(self.num_bits as nat)
        &&& self.num_words <= self.bits.len()
        &&& clear_from(self.bits@, self.num_bits as int)
    }

    /// Creates a set of `num_bits` clear bits, in exactly the words needed.
    pub fn new(num_bits: usize) -> (r: FixedBitSet)
        requires
            num_bits <= MAX_NUM_BITS,
        ensures
            r.wf(),
            r.num_bits == num_bits,
            r.bits.len() == words_for(num_bits as nat),
            r@ == Seq::new(num_bits as nat, |i: int| false),
    {
        let num_words = bits2words(num_bits);
        let bits: Vec<u64> = vec![0u64; num_words];
        let r = FixedBitSet { bits, num_bits, num_words };
        assert forall|i: int| 0 <= i < r.bits.len() * 64 implies !#[trigger] bit_at(r.bits@, i) by {
            lemma_constant_words((i % 64) as u64);
        }
        assert(r@ =~= Seq::new(num_bits as nat, |i: int| false));
        r
    }

    /// Takes `stored_bits` as the backing words of a set of `num_bits` bits.
    /// The array may be longer than needed, but then its extra bits, like
    /// every bit past `num_bits`, must already be clear.
    pub fn copy_from(stored_bits: Vec<u64>, num_bits: usize) -> (r: Result<FixedBitSet>)
        requires
            num_bits <= MAX_NUM_BITS,
        ensures
            can_adopt(stored_bits@, num_bits) ==> (r == Ok::<FixedBitSet, ErrorKind>(
                FixedBitSet { bits: stored_bits, num_bits, num_words: words_for(num_bits as nat) as usize },
            )),
            !can_adopt(stored_bits@, num_bits) ==> r == Err::<FixedBitSet, ErrorKind>(
                ErrorKind::IllegalArgument,
            ),
            (r is Ok) ==> r->Ok_0.wf(),
    {
        let num_words = bits2words(num_bits);
        if num_words > stored_bits.len() {
            return Err(ErrorKind::IllegalArgument);
        }
        if !verify_ghost_bits_clear(&stored_bits, num_bits, num_words) {
            return Err(ErrorKind::IllegalArgument);
        }
        Ok(FixedBitSet { bits: stored_bits, num_bits, num_words })
    }

    /// Grows the set when `num_bits` is at least its length and the words
    /// held cannot take that many bits: the words are extended with clear
    /// ones to one more than needed, and the length becomes all the bits of
    /// those words. Otherwise nothing changes.
    pub fn ensure_capacity(&mut self, num_bits: usize)
        requires
            old(self).wf(),
            num_bits < old(self).num_bits || num_bits <= MAX_GROWTH_REQUEST,
        ensures
            final(self).wf(),
            grows(old(self), num_bits) ==> (final(self).bits.len() == words_for(num_bits as nat) + 1),
            grows(old(self), num_bits) ==> (final(self).num_bits == final(self).bits.len() * 64),
            grows(old(self), num_bits) ==> final(self)@ == extended(old(self)@, final(self).num_bits),
            !grows(old(self), num_bits) ==> *final(self) == *old(self),
    {
        if num_bits >= self.num_bits {
            let num_words = bits2words(num_bits);
            if num_words >= self.bits.len() {
                let ghost ob = self.bits@;
                while self.bits.len() < num_words + 1
                    invariant
                        num_words + 1 <= MAX_NUM_BITS / 64,
                        ob.len() <= self.bits.len() <= num_words + 1,
                        forall|k: int| 0 <= k < self.bits.len() ==> #[trigger] self.bits@[k] == if k
                            < ob.len() {
                            ob[k]
                        } else {
                            0u64
                        },
                    decreases num_words + 1 - self.bits.len(),
                {
                    self.bits.push(0u64);
                }
                self.num_words = num_words + 1;
                self.num_bits = self.num_words * 64;
                proof {
                    assert forall|p: int| 0 <= p < self.bits.len() * 64 implies #[trigger] bit_at(
                        self.bits@,
                        p,
                    ) == (p < old(self).num_bits && bit_at(ob, p)) by {
                        lemma_word_order(p, p);
                        lemma_in_words(self.bits@, p);
                        lemma_constant_words((p % 64) as u64);
                        assert(self.bits@[p / 64] == if p / 64 < ob.len() {
                            ob[p / 64]
                        } else {
                            0u64
                        });
                        if p / 64 < ob.len() {
                            assert(p < ob.len() * 64) by (nonlinear_arith)
                                requires
                                    p / 64 < ob.len(),
                                    0 <= p,
                            ;
                            assert(bit_at(ob, p) == bit_at(self.bits@, p));
                        }
                    }
                    assert(self@ =~= extended(old(self)@, self.num_bits));
                }
            }
        }
    }

    /// Reads the bit at `index`.
    fn bit(&self, index: usize) -> (r: bool)
        requires
            self.wf(),
            index < self.num_bits,
        ensures
            r == self@[index as int],
    {
        let w = self.bits[index / 64];
        (w >> ((index % 64) as u64)) & 1u64 == 1u64
    }

    /// Clears the bit at `index`.
    pub fn clear(&mut self, index: i32)
        requires
            old(self).wf(),
            0 <= index < old(self).num_bits,
        ensures
            final(self).wf(),
            final(self).bits.len() == old(self).bits.len(),
            final(self)@ == old(self)@.update(index as int, false),
    {
        let index = index as usize;
        let wi = index / 64;
        let j = (index % 64) as u64;
        let w = self.bits[wi];
        self.bits.set(wi, w & !(1u64 << j));
        proof {
            assert forall|i: int| 0 <= i < self.bits.len() * 64 implies #[trigger] bit_at(self.bits@, i)
                == (i != index && bit_at(old(self).bits@, i)) by {
                if i / 64 == wi {
                    lemma_bit_of_and_not_one(w, j, (i % 64) as u64);
                }
            }
            assert(self@ =~= old(self)@.update(index as int, false));
        }
    }

    /// The first set position at or after `index`, or `NO_MORE_DOCS` when
    /// there is none. Scans the rest of the current word, then whole words.
    fn scan_next(&self, index: usize) -> (r: i32)
        requires
            self.wf(),
            index < self.num_bits,
        ensures
            r == next_set(self@, index as int),
            r == NO_MORE_DOCS ==> forall|j: int| index <= j < self@.len() ==> !#[trigger] self@[j],
            r != NO_MORE_DOCS ==> index <= r < self@.len() && self@[r as int] && forall|j: int|
                index <= j < r ==> !#[trigger] self@[j],
    {
        let ghost v = self@;
        let ghost nb = self.bits.len() * 64;
        let mut i = index / 64;
        let s = (index % 64) as u64;
        let w = self.bits[i];
        let word = w >> s;
        proof {
            lemma_zero_word(word);
            lemma_word_order(index as int, index as int);
        }
        if word != 0 {
            let t = word.trailing_zeros();
            let ghost p = index + t;
            proof {
                axiom_u64_trailing_zeros(word);
                lemma_shifted_bit(w, s, t as u64);
                assert(s + t < 64);
                lemma_word_order(p, p);
                assert(p / 64 == i && p % 64 == s + t);
                assert(bit_at(self.bits@, p));
                assert(p < self.num_bits);
                assert forall|j: int| index <= j < p implies !#[trigger] v[j] by {
                    lemma_word_order(j, j);
                    lemma_shifted_bit(w, s, (j - index) as u64);
                    assert(!word_bit(word, (j - index) as u64));
                }
                lemma_next_set(v, index as int, p);
            }
            return (index + t as usize) as i32;
        }
        proof {
            assert forall|j: int| index <= j < (i + 1) * 64 && j < v.len() implies !#[trigger] v[j] by {
                lemma_word_order(j, j);
                lemma_shifted_bit(w, s, (j - index) as u64);
            }
        }
        i = i + 1;
        while i < self.num_words
            invariant
                self.wf(),
                v == self@,
                index < self.num_bits,
                i * 64 > index,
                forall|j: int| index <= j < i * 64 && j < v.len() ==> !#[trigger] v[j],
            decreases self.num_words - i,
        {
            let w = self.bits[i];
            proof {
                lemma_zero_word(w);
            }
            if w != 0 {
                let t = w.trailing_zeros();
                let ghost p = i * 64 + t;
                proof {
                    lemma_word_order(p, p);
                    assert(p / 64 == i && p % 64 == t);
                    assert(bit_at(self.bits@, p));
                    assert(p < self.num_bits);
                    assert forall|j: int| index <= j < p implies !#[trigger] v[j] by {
                        lemma_word_order(j, j);
                        if j >= i * 64 {
                            axiom_u64_trailing_zeros(w);
                            assert(!word_bit(w, (j - i * 64) as u64));
                        }
                    }
                    lemma_next_set(v, index as int, p);
                }
                return (i * 64 + t as usize) as i32;
            }
            proof {
                assert forall|j: int| index <= j < (i + 1) * 64 && j < v.len() implies !#[trigger] v[j] by {
                    lemma_word_order(j, j);
                }
            }
            i = i + 1;
        }
        proof {
            assert(v.len() <= i * 64) by (nonlinear_arith)
                requires
                    i >= self.num_words,
                    self.num_words == (v.len() + 63) / 64,
            ;
            lemma_next_set(v, index as int, v.len() as int);
        }
        NO_MORE_DOCS
    }

    /// Toggles every bit in `[start_index, end_index)`; nothing happens when
    /// `end_index <= start_index`. Boundary words are masked and the words
    /// between them are inverted whole.
    pub fn flip(&mut self, start_index: usize, end_index: usize)
        requires
            old(self).wf(),
            end_index <= old(self).num_bits,
        ensures
            final(self).wf(),
            final(self).num_bits == old(self).num_bits,
            final(self).bits.len() == old(self).bits.len(),
            final(self)@ == flipped(old(self)@, start_index as int, end_index as int),
    {
        let ghost ob = self.bits@;
        let ghost nb = self.bits.len() * 64;
        if end_index > start_index {
            let sw = start_index / 64;
            let ew = (end_index - 1) / 64;
            let s = (start_index % 64) as u64;
            let e = (end_index - ew * 64) as u64;
            let from_start = ALL_ONES << s;
            let below_end = if e == 64 { ALL_ONES } else { !(ALL_ONES << e) };
            if sw == ew {
                let w = self.bits[sw];
                self.bits.set(sw, w ^ (from_start & below_end));
            } else {
                let w = self.bits[sw];
                self.bits.set(sw, w ^ from_start);
                set_words(&mut self.bits, sw + 1, ew, 0u64, true);
                let w = self.bits[ew];
                self.bits.set(ew, w ^ below_end);
            }
            proof {
                assert forall|p: int| 0 <= p < nb implies #[trigger] bit_at(self.bits@, p) == ((
                start_index <= p < end_index) != bit_at(ob, p)) by {
                    let k = (p % 64) as u64;
                    lemma_word_order(start_index as int, p);
                    lemma_word_order(p, end_index - 1);
                    lemma_word_order(end_index - 1, p);
                    lemma_word_order(p, start_index as int);
                    lemma_word_order(end_index as int, p);
                    lemma_in_words(self.bits@, p);
                    lemma_in_words(ob, p);
                    lemma_constant_words(k);
                    lemma_bits_from(s, k);
                    if e < 64 {
                        lemma_bits_from(e, k);
                    }
                    lemma_bit_of_and(ob[p / 64], from_start & below_end, k);
                    lemma_bit_of_and(from_start, below_end, k);
                    lemma_bit_of_and(ob[p / 64], from_start, k);
                    lemma_bit_of_and(ob[p / 64], below_end, k);
                }
            }
        }
        assert(self@ =~= Seq::new(
            old(self)@.len(),
            |i: int| if start_index <= i < end_index { !old(self)@[i] } else { old(self)@[i] },
        ));
    }
}

impl ImmutableBits for FixedBitSet {
    open spec fn bits_view(&self) -> Seq<bool> {
        self@
    }

    open spec fn valid(&self) -> bool {
        self.wf()
    }

    fn len(&self) -> (r: usize) {
        self.num_bits
    }

    fn get(&self, index: usize) -> (r: Result<bool>) {
        if index >= self.num_bits {
            return Err(ErrorKind::IllegalArgument);
        }
        Ok(self.bit(index))
    }
}

impl ImmutableBitSet for FixedBitSet {
    /// The number of set bits.
    fn cardinality(&self) -> (r: usize) {
        let ghost words = self.bits@;
        let mut total: usize = 0;
        let mut i: usize = 0;
        proof {
            lemma_words_for(self.num_bits as nat);
        }
        while i < self.num_words
            invariant
                self.wf(),
                words == self.bits@,
                i <= self.num_words,
                total <= 64 * i,
                total == count_set(bits_prefix(words, 64 * i)),
                self.num_words * 64 < self.num_bits + 64,
            decreases self.num_words - i,
        {
            let w = self.bits[i];
            let c = pop_word(w);
            proof {
                assert(bits_prefix(words, 64 * (i + 1)) =~= bits_prefix(words, 64 * i) + word_seq(w));
                lemma_count_concat(bits_prefix(words, 64 * i), word_seq(w));
                assert forall|k: int| 0 <= k < 64 implies #[trigger] word_seq(w)[k] == bit_at(
                    words,
                    64 * i + k,
                ) by {
                    lemma_word_order(64 * i + k, 64 * i + k);
                }
            }
            total = total + c as usize;
            i = i + 1;
        }
        proof {
            let v = self@;
            let tail = Seq::new((64 * i - self.num_bits) as nat, |k: int| false);
            assert(bits_prefix(words, 64 * i) =~= v + tail);
            lemma_count_concat(v, tail);
            lemma_count_false(tail);
        }
        total
    }

    fn next_set_bit(&self, index: usize) -> (r: i32) {
        self.scan_next(index)
    }
}

impl BitSet for FixedBitSet {
    /// Sets the bit at `index`.
    fn set(&mut self, index: usize)
    {
        let wi = index / 64;
        let j = (index % 64) as u64;
        let w = self.bits[wi];
        self.bits.set(wi, w | (1u64 << j));
        proof {
            assert forall|i: int| 0 <= i < self.bits.len() * 64 implies #[trigger] bit_at(self.bits@, i)
                == (i == index || bit_at(old(self).bits@, i)) by {
                if i / 64 == wi {
                    lemma_bit_of_or_one(w, j, (i % 64) as u64);
                }
            }
            assert(self@ =~= old(self)@.update(index as int, true));
        }
    }

    /// Clears every bit in `[start_index, end_index)`; nothing happens when
    /// `end_index <= start_index`. Boundary words are masked and the words
    /// between them are zeroed whole.
    fn clear(&mut self, start_index: usize, end_index: usize)
    {
        let ghost ob = self.bits@;
        let ghost nb = self.bits.len() * 64;
        if end_index > start_index {
            let sw = start_index / 64;
            let ew = (end_index - 1) / 64;
            let s = (start_index % 64) as u64;
            let e = (end_index - ew * 64) as u64;
            let keep_low = !(ALL_ONES << s);
            let keep_high = if e == 64 { 0u64 } else { ALL_ONES << e };
            if sw == ew {
                let w = self.bits[sw];
                self.bits.set(sw, w & (keep_low | keep_high));
            } else {
                let w = self.bits[sw];
                self.bits.set(sw, w & keep_low);
                set_words(&mut self.bits, sw + 1, ew, 0u64, false);
                let w = self.bits[ew];
                self.bits.set(ew, w & keep_high);
            }
            proof {
                assert forall|p: int| 0 <= p < nb implies #[trigger] bit_at(self.bits@, p) == (!(
                start_index <= p < end_index) && bit_at(ob, p)) by {
                    let k = (p % 64) as u64;
                    lemma_word_order(start_index as int, p);
                    lemma_word_order(p, end_index - 1);
                    lemma_word_order(end_index - 1, p);
                    lemma_word_order(p, start_index as int);
                    lemma_word_order(end_index as int, p);
                    lemma_in_words(self.bits@, p);
                    lemma_in_words(ob, p);
                    lemma_constant_words(k);
                    lemma_bits_from(s, k);
                    if e < 64 {
                        lemma_bits_from(e, k);
                    }
                    lemma_bit_of_and(ob[p / 64], keep_low | keep_high, k);
                    lemma_bit_of_and(keep_low, keep_high, k);
                    lemma_bit_of_and(ob[p / 64], keep_low, k);
                    lemma_bit_of_and(ob[p / 64], keep_high, k);
                }
            }
        }
        assert(self@ =~= Seq::new(
            old(self)@.len(),
            |i: int| if start_index <= i < end_index { false } else { old(self)@[i] },
        ));
    }
}

/// Whether every bit of `words` at or past `num_bits` is clear: the words
/// past `num_words` are zero and so are the high bits of the last used word.
fn verify_ghost_bits_clear(words: &Vec<u64>, num_bits: usize, num_words: usize) -> (r: bool)
    requires
        num_words == words_for(num_bits as nat),
        num_words <= words.len(),
    ensures
        r == clear_from(words@, num_bits as int),
{
    let mut i: usize = num_words;
    while i < words.len()
        invariant
            num_words == words_for(num_bits as nat),
            num_words <= i <= words.len(),
            forall|p: int| num_words * 64 <= p < i * 64 ==> !#[trigger] bit_at(words@, p),
        decreases words.len() - i,
    {
        let w = words[i];
        proof {
            lemma_zero_word(w);
        }
        if w != 0 {
            proof {
                let t = u64_trailing_zeros(w) as int;
                let p = i * 64 + t;
                lemma_word_order(p, p);
                assert(bit_at(words@, p));
                lemma_words_for(num_bits as nat);
                assert(t < 64);
                assert(num_words <= i < words.len());
                assert(num_bits <= num_words * 64);
                assert(p < words.len() * 64) by (nonlinear_arith)
                    requires
                        p == i * 64 + t,
                        t < 64,
                        i < words.len(),
                ;
                assert(num_bits <= p) by (nonlinear_arith)
                    requires
                        p == i * 64 + t,
                        0 <= t,
                        num_words <= i,
                        num_bits <= num_words * 64,
                ;
                assert(!clear_from(words@, num_bits as int));
            }
            return false;
        }
        proof {
            assert forall|p: int| num_words * 64 <= p < (i + 1) * 64 implies !#[trigger] bit_at(
                words@,
                p,
            ) by {
                lemma_word_order(p, p);
                if p / 64 == i {
                    lemma_constant_words((p % 64) as u64);
                }
            }
        }
        i = i + 1;
    }
    let s = (num_bits % 64) as u64;
    if s == 0 {
        proof {
            assert(num_words * 64 == num_bits);
        }
        return true;
    }
    let last = words[num_words - 1];
    let high = last & (ALL_ONES << s);
    proof {
        lemma_zero_word(high);
        assert(num_bits == (num_words - 1) * 64 + s);
        assert forall|p: int| num_bits <= p < num_words * 64 implies #[trigger] bit_at(words@, p)
            == word_bit(high, (p % 64) as u64) by {
            lemma_word_order(p, p);
            lemma_bits_from(s, (p % 64) as u64);
            lemma_bit_of_and(last, ALL_ONES << s, (p % 64) as u64);
        }
        if high != 0 {
            let t = u64_trailing_zeros(high) as int;
            lemma_bits_from(s, t as u64);
            lemma_bit_of_and(last, ALL_ONES << s, t as u64);
            assert(bit_at(words@, (num_words - 1) * 64 + t));
        } else {
            assert forall|p: int| num_bits <= p < words.len() * 64 implies !#[trigger] bit_at(
                words@,
                p,
            ) by {
                if p < num_words * 64 {
                    lemma_word_order(p, p);
                    assert(!word_bit(high, (p % 64) as u64));
                }
            }
        }
    }
    high == 0
}

/// Replaces each word in `[from, to)` by `value`, or by its own complement
/// when `invert` holds.
fn set_words(words: &mut Vec<u64>, from: usize, to: usize, value: u64, invert: bool)
    requires
        from <= to <= old(words).len(),
    ensures
        final(words).len() == old(words).len(),
        forall|k: int|
            0 <= k < old(words).len() ==> #[trigger] final(words)@[k] == if from <= k < to {
                if invert {
                    !old(words)@[k]
                } else {
                    value
                }
            } else {
                old(words)@[k]
            },
{
    let ghost ow = words@;
    let mut i: usize = from;
    while i < to
        invariant
            from <= i <= to,
            to <= words.len(),
            ow.len() == words.len(),
            forall|k: int|
                0 <= k < ow.len() ==> #[trigger] words@[k] == if from <= k < i {
                    if invert {
                        !ow[k]
                    } else {
                        value
                    }
                } else {
                    ow[k]
                },
        decreases to - i,
    {
        let w = words[i];
        words.set(i, if invert { !w } else { value });
        i = i + 1;
    }
}

/// A position below `words.len() * 64` lies in an existing word.
proof fn lemma_in_words(words: Seq<u64>, p: int)
    requires
        0 <= p < words.len() * 64,
    ensures
        0 <= p / 64 < words.len(),
{
    assert(p / 64 < words.len()) by (nonlinear_arith)
        requires
            0 <= p < words.len() * 64,
    ;
}

} // verus!
