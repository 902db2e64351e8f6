//! A fixed-capacity set of small integers, backed by a single 64-bit word.
//!
//! Bit `i` of the word is set if and only if the value `i` is a member of the
//! set, so the universe of representable elements is `0..=63`.

use std::collections::BTreeSet;
use std::collections::HashSet;
use vstd::prelude::*;
use vstd::string::StringExecFns;

verus! {

broadcast use
    vstd::std_specs::hash::group_hash_axioms,
    vstd::std_specs::btree::group_btree_axioms,
    vstd::laws_cmp::group_laws_cmp,
;

/// The largest element value a `LilBitSet` can hold.
pub const VALUE_LIMIT: u8 = 63;

/// True iff bit `element` of `raw` is set, i.e. iff `element` is a member of
/// the set that `raw` encodes.
pub open spec fn raw_has(raw: u64, element: u8) -> bool {
    element < 64 && (raw >> (element as u64)) & 1u64 == 1u64
}

/// The set of elements that the word `raw` encodes.
pub open spec fn raw_to_set(raw: u64) -> Set<u8> {
    Set::new(|element: u8| raw_has(raw, element))
}

/// The set of every representable element, `{0, ..., 63}`.
pub open spec fn universe_set() -> Set<u8> {
    Set::new(|element: u8| element <= VALUE_LIMIT)
}

/// Set-like data structure for storing `u8` elements. Cannot contain values
/// greater than 63.
#[derive(Copy, Clone, Debug, PartialEq, Eq, Structural)]
pub struct LilBitSet {
    bits: u64,
}

impl View for LilBitSet {
    type V = Set<u8>;

    closed spec fn view(&self) -> Set<u8> {
        raw_to_set(self.bits)
    }
}

impl LilBitSet {
    /// The underlying 64-bit word, as a mathematical value.
    pub closed spec fn raw(self) -> u64 {
        self.bits
    }

    /// The view is exactly the set of bits of the raw word.
    pub proof fn lemma_view_is_raw_set(self)
        ensures
            self@ == raw_to_set(self.raw()),
    {
    }

    /// Creates a new, empty `LilBitSet`.
    pub fn new() -> (result: LilBitSet)
        ensures
            result.raw() == 0,
            result@ == Set::<u8>::empty(),
    {
        proof {
            lemma_raw_zero_is_empty();
        }
        LilBitSet { bits: 0 }
    }

    /// Returns the largest `u8` value that is permitted to be inserted.
    pub fn largest_allowed() -> (result: u8)
        ensures
            result == VALUE_LIMIT,
    {
        VALUE_LIMIT
    }

    /// Constructs a `LilBitSet` from a `u64`. The indices of positive bits
    /// refer to the presence of a `u8` in the set, i.e. `0b1010` represents
    /// the set `{1, 3}`.
    pub fn new_from_raw(raw: u64) -> (result: LilBitSet)
        ensures
            result.raw() == raw,
            result@ == raw_to_set(raw),
    {
        LilBitSet { bits: raw }
    }

    /// Inverse of `new_from_raw`.
    pub fn into_raw(self) -> (result: u64)
        ensures
            result == self.raw(),
    {
        self.bits
    }

    /// Two sets with the same raw word are the same set; together with the
    /// contracts of `into_raw` and `new_from_raw` this says that the raw
    /// round trip reproduces the identical set.
    pub proof fn lemma_raw_injective(a: LilBitSet, b: LilBitSet)
        requires
            a.raw() == b.raw(),
        ensures
            a == b,
    {
    }

    /// Two sets with the same members are the same set: the abstract view
    /// determines the whole state, so any conversion that preserves the
    /// members reproduces the identical set.
    pub proof fn lemma_view_injective(a: LilBitSet, b: LilBitSet)
        requires
            a@ == b@,
        ensures
            a == b,
    {
        assert forall|i: u64| i < 64 implies ((a.bits >> i) & 1u64 == (b.bits >> i) & 1u64) by {
            let element = i as u8;
            assert(element as u64 == i);
            assert(raw_has(a.bits, element) == a@.contains(element));
            assert(raw_has(b.bits, element) == b@.contains(element));
            lemma_bit_is_boolean(a.bits, i);
            lemma_bit_is_boolean(b.bits, i);
        }
        lemma_bits_ext(a.bits, b.bits);
    }

    /// Every member of a `LilBitSet` lies in the representable universe.
    pub proof fn lemma_view_in_universe(self)
        ensures
            self@.subset_of(universe_set()),
    {
    }

    /// Returns true IFF the set is empty (contains no values).
    pub fn is_empty(&self) -> (result: bool)
        ensures
            result == (self.raw() == 0),
            result == (self@ == Set::<u8>::empty()),
    {
        proof {
            if self.bits == 0 {
                lemma_raw_zero_is_empty();
            } else {
                lemma_nonzero_not_empty(self.bits);
            }
        }
        self.bits == 0
    }

    /// Returns true IFF the given `u8` is in the set.
    pub fn contains(&self, element: u8) -> (result: bool)
        requires
            element <= VALUE_LIMIT,
        ensures
            result == self@.contains(element),
    {
        let result = !self.is_empty() && ((1u64 << element) & self.bits) > 0;
        proof {
            let e = element as u64;
            let bits = self.bits;
            assert(((1u64 << e) & bits > 0) == ((bits >> e) & 1u64 == 1u64)) by (bit_vector)
                requires
                    e < 64,
            ;
            if bits == 0 {
                assert((0u64 >> e) & 1u64 != 1u64) by (bit_vector);
            }
        }
        result
    }

    /// Included only as it is a common function for set-like containers. Here
    /// it simply wraps `contains`.
    pub fn get(&self, element: u8) -> (result: Option<u8>)
        requires
            element <= VALUE_LIMIT,
        ensures
            result == (if self@.contains(element) {
                Some(element)
            } else {
                None::<u8>
            }),
    {
        if self.contains(element) {
            Some(element)
        } else {
            None
        }
    }

    /// The set is not unique in its finite value-space for set elements;
    /// since every element is at most `VALUE_LIMIT`, the universe of all
    /// representable elements is useful for reasoning over missing elements.
    pub fn universe() -> (result: LilBitSet)
        ensures
            result.raw() == u64::MAX,
            result@ == universe_set(),
    {
        proof {
            lemma_raw_max_is_universe();
        }
        LilBitSet { bits: u64::MAX }
    }

    /// Attempts to insert the given `u8` into the set. Returns `true` IFF
    /// the element was not already present, i.e. IFF this call changed the
    /// set.
    pub fn insert(&mut self, element: u8) -> (result: bool)
        requires
            element <= VALUE_LIMIT,
        ensures
            final(self).raw() == old(self).raw() | (1u64 << (element as u64)),
            final(self)@ == old(self)@.insert(element),
            result == !old(self)@.contains(element),
    {
        let had = self.contains(element);
        self.bits = self.bits | (1u64 << element);
        proof {
            lemma_raw_insert(old(self).bits, element);
        }
        !had
    }

    /// Attempts to remove the given `u8` from the set. Returns `true` IFF
    /// the element was present before the call.
    pub fn remove(&mut self, element: u8) -> (result: bool)
        requires
            element <= VALUE_LIMIT,
        ensures
            final(self).raw() == old(self).raw() & !(1u64 << (element as u64)),
            final(self)@ == old(self)@.remove(element),
            result == old(self)@.contains(element),
    {
        let had = self.contains(element);
        self.bits = self.bits & (u64::MAX - (1u64 << element));
        proof {
            let e = element as u64;
            assert(0xffff_ffff_ffff_ffffu64 - (1u64 << e) == !(1u64 << e)) by (bit_vector)
                requires
                    e < 64,
            ;
            lemma_raw_remove(old(self).bits, element);
        }
        had
    }

    /// Inserts the given value if it is representable; out-of-range values
    /// are ignored rather than treated as an error. Returns `true` IFF the
    /// value was inserted and was not already present. This is the only
    /// operation that tolerates values above `VALUE_LIMIT`, which makes it
    /// the entry point for untrusted input.
    pub fn try_insert(&mut self, element: u16) -> (result: bool)
        ensures
            element <= VALUE_LIMIT ==> {
                &&& final(self).raw() == old(self).raw() | (1u64 << (element as u64))
                &&& final(self)@ == old(self)@.insert(element as u8)
                &&& result == !old(self)@.contains(element as u8)
            },
            element > VALUE_LIMIT ==> *final(self) == *old(self) && result == false,
    {
        if element <= Self::largest_allowed() as u16 {
            self.insert(element as u8)
        } else {
            false
        }
    }

    /// Returns the set union of this, and the given `LilBitSet`.
    pub fn union(self, other: LilBitSet) -> (result: LilBitSet)
        ensures
            result.raw() == self.raw() | other.raw(),
            result@ == self@.union(other@),
    {
        proof {
            lemma_raw_union(self.bits, other.bits);
        }
        LilBitSet { bits: self.bits | other.bits }
    }

    /// Returns the set itersection of this, and the given `LilBitSet`.
    pub fn itersection(self, other: LilBitSet) -> (result: LilBitSet)
        ensures
            result.raw() == self.raw() & other.raw(),
            result@ == self@.intersect(other@),
    {
        proof {
            lemma_raw_intersect(self.bits, other.bits);
        }
        LilBitSet { bits: self.bits & other.bits }
    }

    /// Returns the set symmetric difference of this, and the given
    /// `LilBitSet`: the elements that are in exactly one of the two.
    pub fn symmetric_difference(self, other: LilBitSet) -> (result: LilBitSet)
        ensures
            result.raw() == self.raw() ^ other.raw(),
            result@ == self@.difference(other@).union(other@.difference(self@)),
    {
        proof {
            lemma_raw_xor(self.bits, other.bits);
        }
        LilBitSet { bits: self.bits ^ other.bits }
    }

    /// Returns the set of every representable element that is missing from
    /// this set. Relying on `Self::universe`, this is useful for reasoning
    /// over missing elements in a more convenient way.
    pub fn complement(self) -> (result: LilBitSet)
        ensures
            result.raw() == !self.raw(),
            result@ == universe_set().difference(self@),
    {
        proof {
            let bits = self.bits;
            assert(0xffff_ffff_ffff_ffffu64 - bits == !bits) by (bit_vector);
            lemma_raw_complement(self.bits);
        }
        LilBitSet { bits: u64::MAX - self.bits }
    }
}

/// The members of `raw` that are smaller than `n`; the prefix of the set
/// that a scan of the bit positions `0..n` has visited.
pub open spec fn members_below(raw: u64, n: int) -> Set<u8> {
    Set::new(|element: u8| element < n && raw_has(raw, element))
}

/// A scan that has not started has visited no members.
proof fn lemma_members_below_zero(raw: u64)
    ensures
        members_below(raw, 0) == Set::<u8>::empty(),
{
    assert(members_below(raw, 0) =~= Set::<u8>::empty());
}

/// One more scanned position adds at most the member at that position.
proof fn lemma_members_below_step(raw: u64, n: int)
    requires
        0 <= n < 64,
    ensures
        raw_has(raw, n as u8) ==> members_below(raw, n + 1) == members_below(raw, n).insert(
            n as u8,
        ),
        !raw_has(raw, n as u8) ==> members_below(raw, n + 1) == members_below(raw, n),
{
    if raw_has(raw, n as u8) {
        assert(members_below(raw, n + 1) =~= members_below(raw, n).insert(n as u8));
    } else {
        assert(members_below(raw, n + 1) =~= members_below(raw, n));
    }
}

/// Every scanned prefix of a set is finite and no larger than the number of
/// scanned positions.
proof fn lemma_members_below_finite(raw: u64, n: int)
    requires
        0 <= n <= 64,
    ensures
        members_below(raw, n).finite(),
        members_below(raw, n).len() <= n,
    decreases n,
{
    if n == 0 {
        lemma_members_below_zero(raw);
    } else {
        lemma_members_below_finite(raw, n - 1);
        lemma_members_below_step(raw, n - 1);
    }
}

/// A complete scan visits exactly the members of the set.
proof fn lemma_members_below_full(raw: u64)
    ensures
        members_below(raw, 64) == raw_to_set(raw),
{
    assert(members_below(raw, 64) =~= raw_to_set(raw));
}

impl LilBitSet {
    /// Returns the set cardinality (number of elements of the set), by a
    /// full traversal of the bit positions.
    pub fn len(&self) -> (result: usize)
        ensures
            result == self@.len(),
            result <= 64,
    {
        let mut count: usize = 0;
        let mut i: u8 = 0;
        proof {
            lemma_members_below_zero(self.raw());
        }
        while i < 64
            invariant
                i <= 64,
                count == members_below(self.raw(), i as int).len(),
                count <= i,
            decreases 64 - i,
        {
            proof {
                lemma_members_below_finite(self.raw(), i as int);
                lemma_members_below_step(self.raw(), i as int);
            }
            if self.contains(i) {
                count = count + 1;
            }
            i = i + 1;
        }
        proof {
            lemma_members_below_full(self.raw());
        }
        count
    }

    /// Consumes the set into a vector of its members, in strictly ascending
    /// order.
    pub fn to_vec(self) -> (result: Vec<u8>)
        ensures
            result@.len() == self@.len(),
            forall|k: int, l: int| 0 <= k < l < result@.len() ==> result@[k] < result@[l],
            forall|element: u8| result@.contains(element) == self@.contains(element),
    {
        let mut result: Vec<u8> = Vec::new();
        let mut i: u8 = 0;
        proof {
            lemma_members_below_zero(self.raw());
        }
        while i < 64
            invariant
                i <= 64,
                result@.len() == members_below(self.raw(), i as int).len(),
                forall|k: int, l: int| 0 <= k < l < result@.len() ==> result@[k] < result@[l],
                forall|k: int| 0 <= k < result@.len() ==> result@[k] < i,
                forall|element: u8|
                    result@.contains(element) == members_below(self.raw(), i as int).contains(
                        element,
                    ),
            decreases 64 - i,
        {
            proof {
                lemma_members_below_finite(self.raw(), i as int);
                lemma_members_below_step(self.raw(), i as int);
            }
            let ghost prefix = result@;
            if self.contains(i) {
                result.push(i);
                proof {
                    assert forall|element: u8|
                        result@.contains(element) == members_below(
                            self.raw(),
                            i as int + 1,
                        ).contains(element) by {
                        if prefix.contains(element) {
                            let k = choose|k: int| 0 <= k < prefix.len() && prefix[k] == element;
                            assert(result@[k] == element);
                        }
                        if element == i {
                            assert(result@[result@.len() - 1] == element);
                        }
                        if result@.contains(element) {
                            let k = choose|k: int|
                                0 <= k < result@.len() && result@[k] == element;
                            if k < result@.len() - 1 {
                                assert(prefix[k] == element);
                            }
                        }
                    }
                }
            }
            i = i + 1;
        }
        proof {
            lemma_members_below_full(self.raw());
        }
        result
    }

    /// Folds a sequence of values into a set by repeated insertion;
    /// duplicates collapse harmlessly and the order of the values is
    /// irrelevant.
    pub fn from_sequence(values: &[u8]) -> (result: LilBitSet)
        requires
            forall|k: int| 0 <= k < values@.len() ==> values@[k] <= VALUE_LIMIT,
        ensures
            result@ == values@.to_set(),
    {
        let mut result = LilBitSet::new();
        let mut k: usize = 0;
        while k < values.len()
            invariant
                k <= values@.len(),
                forall|j: int| 0 <= j < values@.len() ==> values@[j] <= VALUE_LIMIT,
                forall|element: u8|
                    result@.contains(element) == exists|j: int|
                        0 <= j < k && values@[j] == element,
            decreases values@.len() - k,
        {
            let ghost previous = result@;
            let value = values[k];
            result.insert(value);
            proof {
                assert forall|element: u8|
                    result@.contains(element) == exists|j: int|
                        0 <= j < k + 1 && values@[j] == element by {
                    if element == value {
                        assert(values@[k as int] == element);
                    }
                    if exists|j: int| 0 <= j < k + 1 && values@[j] == element {
                        let j = choose|j: int| 0 <= j < k + 1 && values@[j] == element;
                        if j < k {
                            assert(previous.contains(element));
                        }
                    }
                }
            }
            k = k + 1;
        }
        proof {
            assert forall|element: u8|
                result@.contains(element) == values@.to_set().contains(element) by {
                assert(values@.to_set().contains(element) == values@.contains(element));
            }
            assert(result@ =~= values@.to_set());
        }
        result
    }
}

/// Iterator over the elements inside a `LilBitSet`, in strictly ascending
/// order. Iteration works on a copy of the set, so the set itself is
/// unaffected; restarting means obtaining a fresh iterator from the same set
/// value.
pub struct IntoIter {
    bit_set: LilBitSet,
    index: u8,
}

impl IntoIter {
    /// The set being iterated over.
    pub closed spec fn source(self) -> LilBitSet {
        self.bit_set
    }

    /// The first bit position that has not been scanned yet.
    pub closed spec fn cursor(self) -> u8 {
        self.index
    }

    /// Returns the smallest member at or above the cursor and advances the
    /// cursor past it, or returns `None` once no members remain.
    pub fn next(&mut self) -> (result: Option<u8>)
        ensures
            final(self).source() == old(self).source(),
            match result {
                Some(element) => {
                    &&& old(self).source()@.contains(element)
                    &&& old(self).cursor() <= element < 64
                    &&& forall|other: u8|
                        old(self).cursor() <= other < element ==> !old(
                            self,
                        ).source()@.contains(other)
                    &&& final(self).cursor() == element + 1
                },
                None => {
                    &&& forall|other: u8|
                        old(self).cursor() <= other < 64 ==> !old(self).source()@.contains(other)
                    &&& final(self).cursor() == (if old(self).cursor() <= VALUE_LIMIT {
                        64u8
                    } else {
                        old(self).cursor()
                    })
                },
            },
    {
        while self.index <= VALUE_LIMIT
            invariant
                self.bit_set == old(self).bit_set,
                self.index >= old(self).index,
                old(self).index <= VALUE_LIMIT ==> self.index <= 64,
                old(self).index > VALUE_LIMIT ==> self.index == old(self).index,
                forall|other: u8|
                    old(self).index <= other < self.index ==> !self.bit_set@.contains(other),
            decreases 64 - self.index,
        {
            self.index = self.index + 1;
            if self.bit_set.contains(self.index - 1) {
                return Some(self.index - 1);
            }
        }
        None
    }
}

impl LilBitSet {
    /// Returns an iterator over the members of this set, starting at the
    /// smallest.
    pub fn into_iter(self) -> (result: IntoIter)
        ensures
            result.source() == self,
            result.cursor() == 0,
    {
        IntoIter { bit_set: self, index: 0 }
    }
}

impl LilBitSet {
    /// Converts the set into an unordered collection of its members; no
    /// member is lost.
    pub fn to_hash_set(self) -> (result: HashSet<u8>)
        ensures
            result@ == self@,
    {
        let mut result: HashSet<u8> = HashSet::new();
        let mut i: u8 = 0;
        while i < 64
            invariant
                i <= 64,
                forall|element: u8|
                    result@.contains(element) == (element < i && self@.contains(element)),
            decreases 64 - i,
        {
            if self.contains(i) {
                result.insert(i);
            }
            i = i + 1;
        }
        proof {
            assert forall|element: u8| result@.contains(element) == self@.contains(element) by {
                if self@.contains(element) {
                    assert(raw_has(self.raw(), element));
                }
            }
            assert(result@ =~= self@);
        }
        result
    }

    /// Folds an unordered collection of values into a set; the iteration
    /// order of the collection is irrelevant and duplicates cannot occur.
    pub fn from_hash_set(values: &HashSet<u8>) -> (result: LilBitSet)
        requires
            forall|element: u8| values@.contains(element) ==> element <= VALUE_LIMIT,
        ensures
            result@ == values@,
    {
        let mut result = LilBitSet::new();
        let mut i: u8 = 0;
        while i < 64
            invariant
                i <= 64,
                forall|element: u8|
                    values@.contains(element) ==> element <= VALUE_LIMIT,
                forall|element: u8|
                    result@.contains(element) == (element < i && values@.contains(element)),
            decreases 64 - i,
        {
            if values.contains(&i) {
                result.insert(i);
            }
            i = i + 1;
        }
        proof {
            assert(result@ =~= values@);
        }
        result
    }

    /// Converts the set into an ordered collection of its members; no
    /// member is lost.
    pub fn to_btree_set(self) -> (result: BTreeSet<u8>)
        ensures
            result@ == self@,
    {
        let mut result: BTreeSet<u8> = BTreeSet::new();
        let mut i: u8 = 0;
        while i < 64
            invariant
                i <= 64,
                forall|element: u8|
                    result@.contains(element) == (element < i && self@.contains(element)),
            decreases 64 - i,
        {
            if self.contains(i) {
                result.insert(i);
            }
            i = i + 1;
        }
        proof {
            assert forall|element: u8| result@.contains(element) == self@.contains(element) by {
                if self@.contains(element) {
                    assert(raw_has(self.raw(), element));
                }
            }
            assert(result@ =~= self@);
        }
        result
    }

    /// Folds an ordered collection of values into a set; duplicates cannot
    /// occur and the order of the values is irrelevant.
    pub fn from_btree_set(values: &BTreeSet<u8>) -> (result: LilBitSet)
        requires
            forall|element: u8| values@.contains(element) ==> element <= VALUE_LIMIT,
        ensures
            result@ == values@,
    {
        let mut result = LilBitSet::new();
        let mut i: u8 = 0;
        while i < 64
            invariant
                i <= 64,
                forall|element: u8|
                    values@.contains(element) ==> element <= VALUE_LIMIT,
                forall|element: u8|
                    result@.contains(element) == (element < i && values@.contains(element)),
            decreases 64 - i,
        {
            if values.contains(&i) {
                result.insert(i);
            }
            i = i + 1;
        }
        proof {
            assert(result@ =~= values@);
        }
        result
    }
}

/// The character for a single decimal digit.
pub open spec fn digit_char(digit: u8) -> char {
    if digit == 0 {
        '0'
    } else if digit == 1 {
        '1'
    } else if digit == 2 {
        '2'
    } else if digit == 3 {
        '3'
    } else if digit == 4 {
        '4'
    } else if digit == 5 {
        '5'
    } else if digit == 6 {
        '6'
    } else if digit == 7 {
        '7'
    } else if digit == 8 {
        '8'
    } else {
        '9'
    }
}

/// The decimal rendering of a representable value: one digit character, or
/// two once the value reaches 10.
pub open spec fn decimal_chars(value: u8) -> Seq<char> {
    if value < 10 {
        seq![digit_char(value)]
    } else {
        seq![digit_char(value / 10), digit_char(value % 10)]
    }
}

/// True iff `raw` has a member smaller than `n`.
pub open spec fn has_member_below(raw: u64, n: int) -> bool {
    exists|element: u8| element < n && raw_has(raw, element)
}

/// The comma-separated ascending rendering of the members of `raw` that are
/// smaller than `n`.
pub open spec fn rendered_below(raw: u64, n: int) -> Seq<char>
    decreases n,
{
    if n <= 0 {
        Seq::empty()
    } else if raw_has(raw, (n - 1) as u8) {
        if has_member_below(raw, n - 1) {
            rendered_below(raw, n - 1) + seq![','] + decimal_chars((n - 1) as u8)
        } else {
            rendered_below(raw, n - 1) + decimal_chars((n - 1) as u8)
        }
    } else {
        rendered_below(raw, n - 1)
    }
}

/// The diagnostic rendering of the set that `raw` encodes: a
/// brace-delimited, comma-separated ascending list of the members.
pub open spec fn rendered_set(raw: u64) -> Seq<char> {
    seq!['{'] + rendered_below(raw, 64) + seq!['}']
}

/// Appends a single decimal digit character.
fn append_digit(result: &mut String, digit: u8)
    requires
        digit < 10,
    ensures
        final(result)@ == old(result)@ + seq![digit_char(digit)],
{
    if digit == 0 {
        result.append("0");
        proof {
            reveal_strlit("0");
            assert("0"@ =~= seq![digit_char(0u8)]);
        }
    } else if digit == 1 {
        result.append("1");
        proof {
            reveal_strlit("1");
            assert("1"@ =~= seq![digit_char(1u8)]);
        }
    } else if digit == 2 {
        result.append("2");
        proof {
            reveal_strlit("2");
            assert("2"@ =~= seq![digit_char(2u8)]);
        }
    } else if digit == 3 {
        result.append("3");
        proof {
            reveal_strlit("3");
            assert("3"@ =~= seq![digit_char(3u8)]);
        }
    } else if digit == 4 {
        result.append("4");
        proof {
            reveal_strlit("4");
            assert("4"@ =~= seq![digit_char(4u8)]);
        }
    } else if digit == 5 {
        result.append("5");
        proof {
            reveal_strlit("5");
            assert("5"@ =~= seq![digit_char(5u8)]);
        }
    } else if digit == 6 {
        result.append("6");
        proof {
            reveal_strlit("6");
            assert("6"@ =~= seq![digit_char(6u8)]);
        }
    } else if digit == 7 {
        result.append("7");
        proof {
            reveal_strlit("7");
            assert("7"@ =~= seq![digit_char(7u8)]);
        }
    } else if digit == 8 {
        result.append("8");
        proof {
            reveal_strlit("8");
            assert("8"@ =~= seq![digit_char(8u8)]);
        }
    } else {
        result.append("9");
        proof {
            reveal_strlit("9");
            assert("9"@ =~= seq![digit_char(9u8)]);
        }
    }
}

/// Appends the decimal rendering of a representable value.
fn append_value(result: &mut String, value: u8)
    requires
        value <= VALUE_LIMIT,
    ensures
        final(result)@ == old(result)@ + decimal_chars(value),
{
    if value >= 10 {
        append_digit(result, value / 10);
    }
    append_digit(result, value % 10);
    proof {
        if value >= 10 {
            assert(result@ =~= old(result)@ + decimal_chars(value));
        } else {
            assert(value % 10 == value);
            assert(result@ =~= old(result)@ + decimal_chars(value));
        }
    }
}

impl LilBitSet {
    /// Renders the set as a brace-delimited, comma-separated ascending list
    /// of its members, e.g. `{1,3,5}`; produced purely for diagnostics.
    pub fn to_debug_string(&self) -> (result: String)
        ensures
            result@ == rendered_set(self.raw()),
    {
        let mut result = String::new();
        result.append("{");
        proof {
            reveal_strlit("{");
            assert(result@ =~= seq!['{'] + rendered_below(self.raw(), 0));
        }
        let mut first: bool = true;
        let mut i: u8 = 0;
        while i < 64
            invariant
                i <= 64,
                first == !has_member_below(self.raw(), i as int),
                result@ == seq!['{'] + rendered_below(self.raw(), i as int),
            decreases 64 - i,
        {
            let ghost n = i as int;
            if self.contains(i) {
                assert(raw_has(self.raw(), i));
                if !first {
                    result.append(",");
                    proof {
                        reveal_strlit(",");
                        assert(","@ =~= seq![',']);
                    }
                }
                append_value(&mut result, i);
                first = false;
                proof {
                    if has_member_below(self.raw(), n) {
                        assert(result@ =~= seq!['{'] + (rendered_below(self.raw(), n) + seq![',']
                            + decimal_chars(i)));
                    } else {
                        assert(result@ =~= seq!['{'] + (rendered_below(self.raw(), n)
                            + decimal_chars(i)));
                    }
                    assert(has_member_below(self.raw(), n + 1));
                }
            } else {
                proof {
                    if has_member_below(self.raw(), n + 1) {
                        let element = choose|element: u8|
                            element < n + 1 && raw_has(self.raw(), element);
                        assert(element < n || element == i);
                        assert(has_member_below(self.raw(), n));
                    }
                }
            }
            i = i + 1;
        }
        result.append("}");
        proof {
            reveal_strlit("}");
            assert(result@ =~= seq!['{'] + rendered_below(self.raw(), 64) + seq!['}']);
        }
        result
    }
}

// ---------------------------------------------------------------------------
// Algebra laws. Each law is stated both over the raw words, which is the
// level at which `union`, `itersection`, `symmetric_difference` and
// `complement` pin their results, and over the abstract sets. Together with
// `lemma_raw_injective` and `lemma_view_injective` they let a caller conclude
// that the combined `LilBitSet` values themselves are equal.
// ---------------------------------------------------------------------------
/// Round trip: a set written out through `into_raw` and read back through
/// `new_from_raw` is the identical set, since the raw word carries the whole
/// state; and a set rebuilt through any conversion that preserves the
/// members — a sequence of its values, the unordered collection, the
/// ordered collection — is the identical set too, since the view determines
/// the raw word.
pub proof fn lemma_round_trip(original: LilBitSet, rebuilt: LilBitSet)
    requires
        rebuilt.raw() == original.raw() || rebuilt@ == original@,
    ensures
        rebuilt == original,
{
    if rebuilt.raw() == original.raw() {
        LilBitSet::lemma_raw_injective(rebuilt, original);
    } else {
        LilBitSet::lemma_view_injective(rebuilt, original);
    }
}

/// Inserting an element twice is the same as inserting it once, and the
/// second call finds the element already present (so `insert` reports no
/// change).
pub proof fn lemma_insert_idempotent(s: LilBitSet, element: u8)
    requires
        element <= VALUE_LIMIT,
    ensures
        (s.raw() | (1u64 << (element as u64))) | (1u64 << (element as u64)) == s.raw() | (1u64 << (
        element as u64)),
        s@.insert(element).insert(element) == s@.insert(element),
        s@.insert(element).contains(element),
{
    let x = s.raw();
    let e = element as u64;
    assert((x | (1u64 << e)) | (1u64 << e) == x | (1u64 << e)) by (bit_vector);
    assert(s@.insert(element).insert(element) =~= s@.insert(element));
}

/// Union is commutative.
pub proof fn lemma_union_commutative(a: LilBitSet, b: LilBitSet)
    ensures
        a.raw() | b.raw() == b.raw() | a.raw(),
        a@.union(b@) == b@.union(a@),
{
    let x = a.raw();
    let y = b.raw();
    assert(x | y == y | x) by (bit_vector);
    assert(a@.union(b@) =~= b@.union(a@));
}

/// Union is associative.
pub proof fn lemma_union_associative(a: LilBitSet, b: LilBitSet, c: LilBitSet)
    ensures
        (a.raw() | b.raw()) | c.raw() == a.raw() | (b.raw() | c.raw()),
        a@.union(b@).union(c@) == a@.union(b@.union(c@)),
{
    let x = a.raw();
    let y = b.raw();
    let z = c.raw();
    assert((x | y) | z == x | (y | z)) by (bit_vector);
    assert(a@.union(b@).union(c@) =~= a@.union(b@.union(c@)));
}

/// Intersection is commutative.
pub proof fn lemma_intersection_commutative(a: LilBitSet, b: LilBitSet)
    ensures
        a.raw() & b.raw() == b.raw() & a.raw(),
        a@.intersect(b@) == b@.intersect(a@),
{
    let x = a.raw();
    let y = b.raw();
    assert(x & y == y & x) by (bit_vector);
    assert(a@.intersect(b@) =~= b@.intersect(a@));
}

/// Intersection is associative.
pub proof fn lemma_intersection_associative(a: LilBitSet, b: LilBitSet, c: LilBitSet)
    ensures
        (a.raw() & b.raw()) & c.raw() == a.raw() & (b.raw() & c.raw()),
        a@.intersect(b@).intersect(c@) == a@.intersect(b@.intersect(c@)),
{
    let x = a.raw();
    let y = b.raw();
    let z = c.raw();
    assert((x & y) & z == x & (y & z)) by (bit_vector);
    assert(a@.intersect(b@).intersect(c@) =~= a@.intersect(b@.intersect(c@)));
}

/// Taking the complement twice gives back the original set.
pub proof fn lemma_complement_involution(s: LilBitSet)
    ensures
        !(!s.raw()) == s.raw(),
        universe_set().difference(universe_set().difference(s@)) == s@,
{
    let x = s.raw();
    assert(!(!x) == x) by (bit_vector);
    assert forall|element: u8|
        universe_set().difference(universe_set().difference(s@)).contains(element)
            == s@.contains(element) by {
        if s@.contains(element) {
            assert(raw_has(s.raw(), element));
        }
    }
    assert(universe_set().difference(universe_set().difference(s@)) =~= s@);
}

/// A set united with its complement is the whole universe.
pub proof fn lemma_union_with_complement(s: LilBitSet)
    ensures
        s.raw() | !s.raw() == u64::MAX,
        s@.union(universe_set().difference(s@)) == universe_set(),
{
    let x = s.raw();
    assert(x | !x == 0xffff_ffff_ffff_ffffu64) by (bit_vector);
    assert forall|element: u8|
        s@.union(universe_set().difference(s@)).contains(element) == universe_set().contains(
            element,
        ) by {
        if s@.contains(element) {
            assert(raw_has(s.raw(), element));
        }
    }
    assert(s@.union(universe_set().difference(s@)) =~= universe_set());
}

/// A set intersected with its complement is empty.
pub proof fn lemma_intersection_with_complement(s: LilBitSet)
    ensures
        s.raw() & !s.raw() == 0,
        s@.intersect(universe_set().difference(s@)) == Set::<u8>::empty(),
{
    let x = s.raw();
    assert(x & !x == 0) by (bit_vector);
    assert(s@.intersect(universe_set().difference(s@)) =~= Set::<u8>::empty());
}

/// Bitwise or unions the encoded sets.
proof fn lemma_raw_union(x: u64, y: u64)
    ensures
        raw_to_set(x | y) == raw_to_set(x).union(raw_to_set(y)),
{
    assert forall|element: u8| raw_to_set(x | y).contains(element) == raw_to_set(x).union(
        raw_to_set(y),
    ).contains(element) by {
        let j = element as u64;
        if element < 64 {
            assert(((x | y) >> j) & 1u64 == 1u64 <==> ((x >> j) & 1u64 == 1u64 || (y >> j) & 1u64
                == 1u64)) by (bit_vector);
        }
    }
    assert(raw_to_set(x | y) =~= raw_to_set(x).union(raw_to_set(y)));
}

/// Bitwise and intersects the encoded sets.
proof fn lemma_raw_intersect(x: u64, y: u64)
    ensures
        raw_to_set(x & y) == raw_to_set(x).intersect(raw_to_set(y)),
{
    assert forall|element: u8| raw_to_set(x & y).contains(element) == raw_to_set(x).intersect(
        raw_to_set(y),
    ).contains(element) by {
        let j = element as u64;
        if element < 64 {
            assert(((x & y) >> j) & 1u64 == 1u64 <==> ((x >> j) & 1u64 == 1u64 && (y >> j) & 1u64
                == 1u64)) by (bit_vector);
        }
    }
    assert(raw_to_set(x & y) =~= raw_to_set(x).intersect(raw_to_set(y)));
}

/// Bitwise xor takes the symmetric difference of the encoded sets.
proof fn lemma_raw_xor(x: u64, y: u64)
    ensures
        raw_to_set(x ^ y) == raw_to_set(x).difference(raw_to_set(y)).union(
            raw_to_set(y).difference(raw_to_set(x)),
        ),
{
    assert forall|element: u8| raw_to_set(x ^ y).contains(element) == raw_to_set(x).difference(
        raw_to_set(y),
    ).union(raw_to_set(y).difference(raw_to_set(x))).contains(element) by {
        let j = element as u64;
        if element < 64 {
            assert(((x ^ y) >> j) & 1u64 == 1u64 <==> (((x >> j) & 1u64 == 1u64) != ((y >> j)
                & 1u64 == 1u64))) by (bit_vector);
        }
    }
    assert(raw_to_set(x ^ y) =~= raw_to_set(x).difference(raw_to_set(y)).union(
        raw_to_set(y).difference(raw_to_set(x)),
    ));
}

/// Bitwise not complements the encoded set within the universe.
proof fn lemma_raw_complement(x: u64)
    ensures
        raw_to_set(!x) == universe_set().difference(raw_to_set(x)),
{
    assert forall|element: u8| raw_to_set(!x).contains(element) == universe_set().difference(
        raw_to_set(x),
    ).contains(element) by {
        let j = element as u64;
        if element < 64 {
            assert(((!x) >> j) & 1u64 == 1u64 <==> !((x >> j) & 1u64 == 1u64)) by (bit_vector)
                requires
                    j < 64,
            ;
        }
    }
    assert(raw_to_set(!x) =~= universe_set().difference(raw_to_set(x)));
}

/// A bit extracted from a word is either 0 or 1.
proof fn lemma_bit_is_boolean(x: u64, i: u64)
    by (bit_vector)
    ensures
        (x >> i) & 1u64 == 0 || (x >> i) & 1u64 == 1u64,
{
}

/// Two words that agree on every bit position at or above `k` have equal
/// shifted-down remainders.
proof fn lemma_shr_eq_from_bits(x: u64, y: u64, k: u64)
    requires
        k < 64,
        forall|i: u64| k <= i < 64 ==> ((x >> i) & 1u64 == (y >> i) & 1u64),
    ensures
        x >> k == y >> k,
    decreases 64 - k,
{
    assert((x >> k) & 1u64 == (y >> k) & 1u64);
    if k == 63 {
        assert(x >> 63 == (x >> 63) & 1u64) by (bit_vector);
        assert(y >> 63 == (y >> 63) & 1u64) by (bit_vector);
    } else {
        lemma_shr_eq_from_bits(x, y, (k + 1) as u64);
        assert(x >> k == ((x >> (k + 1)) << 1u64) | ((x >> k) & 1u64)) by (bit_vector)
            requires
                k < 63,
        ;
        assert(y >> k == ((y >> (k + 1)) << 1u64) | ((y >> k) & 1u64)) by (bit_vector)
            requires
                k < 63,
        ;
    }
}

/// Two words that agree on every bit are equal.
proof fn lemma_bits_ext(x: u64, y: u64)
    requires
        forall|i: u64| i < 64 ==> ((x >> i) & 1u64 == (y >> i) & 1u64),
    ensures
        x == y,
{
    lemma_shr_eq_from_bits(x, y, 0);
    assert(x >> 0u64 == x) by (bit_vector);
    assert(y >> 0u64 == y) by (bit_vector);
}

/// A word with no bit set is zero.
proof fn lemma_zero_if_no_bits(x: u64)
    requires
        forall|i: u64| i < 64 ==> (x >> i) & 1u64 != 1u64,
    ensures
        x == 0,
{
    assert forall|i: u64| i < 64 implies ((x >> i) & 1u64 == (0u64 >> i) & 1u64) by {
        lemma_bit_is_boolean(x, i);
        assert((0u64 >> i) & 1u64 == 0) by (bit_vector);
    }
    lemma_bits_ext(x, 0);
}

/// The word 0 encodes the empty set.
proof fn lemma_raw_zero_is_empty()
    ensures
        raw_to_set(0) == Set::<u8>::empty(),
{
    assert forall|element: u8| !raw_has(0, element) by {
        assert((0u64 >> (element as u64)) & 1u64 != 1u64) by (bit_vector);
    }
    assert(raw_to_set(0) =~= Set::<u8>::empty());
}

/// A non-zero word encodes a non-empty set.
proof fn lemma_nonzero_not_empty(x: u64)
    requires
        x != 0,
    ensures
        raw_to_set(x) != Set::<u8>::empty(),
{
    if raw_to_set(x) == Set::<u8>::empty() {
        assert forall|i: u64| i < 64 implies (x >> i) & 1u64 != 1u64 by {
            let element = i as u8;
            assert(element as u64 == i);
            assert(!raw_to_set(x).contains(element));
        }
        lemma_zero_if_no_bits(x);
    }
}

/// The all-ones word encodes the full universe.
proof fn lemma_raw_max_is_universe()
    ensures
        raw_to_set(u64::MAX) == universe_set(),
{
    assert forall|element: u8| element < 64 implies raw_has(u64::MAX, element) by {
        let e = element as u64;
        assert((0xffff_ffff_ffff_ffffu64 >> e) & 1u64 == 1u64) by (bit_vector)
            requires
                e < 64,
        ;
    }
    assert(raw_to_set(u64::MAX) =~= universe_set());
}

/// Setting bit `element` inserts `element` and nothing else.
proof fn lemma_raw_insert(x: u64, element: u8)
    requires
        element < 64,
    ensures
        raw_to_set(x | (1u64 << (element as u64))) == raw_to_set(x).insert(element),
{
    let e = element as u64;
    let y = x | (1u64 << e);
    assert forall|other: u8| raw_to_set(y).contains(other) == raw_to_set(x).insert(
        element,
    ).contains(other) by {
        let j = other as u64;
        assert(other as u64 == j);
        if other < 64 {
            assert(((x | (1u64 << e)) >> j) & 1u64 == 1u64 <==> ((x >> j) & 1u64 == 1u64 || j
                == e)) by (bit_vector)
                requires
                    e < 64 && j < 64,
            ;
            assert(j == e <==> other == element);
        }
    }
    assert(raw_to_set(y) =~= raw_to_set(x).insert(element));
}

/// Clearing bit `element` removes `element` and nothing else.
proof fn lemma_raw_remove(x: u64, element: u8)
    requires
        element < 64,
    ensures
        raw_to_set(x & !(1u64 << (element as u64))) == raw_to_set(x).remove(element),
{
    let e = element as u64;
    let y = x & !(1u64 << e);
    assert forall|other: u8| raw_to_set(y).contains(other) == raw_to_set(x).remove(
        element,
    ).contains(other) by {
        let j = other as u64;
        if other < 64 {
            assert(((x & !(1u64 << e)) >> j) & 1u64 == 1u64 <==> ((x >> j) & 1u64 == 1u64 && j
                != e)) by (bit_vector)
                requires
                    e < 64 && j < 64,
            ;
            assert(j == e <==> other == element);
        }
    }
    assert(raw_to_set(y) =~= raw_to_set(x).remove(element));
}

} // verus!
