//! A fixed-size set of boolean variables stored compactly in 32-bit words.
//!
//! Member `i` lives in word `i / 32`, at bit `i % 32`. Bits beyond the set's
//! length in the last word are always clear.

use vstd::prelude::*;
use std::cmp::Ordering;
use crate::text::push_char;

verus! {

/// Number of members stored in one word.
pub const WORD_BITS: usize = 32;

/// Whether bit `b` of word `w` is set.
pub open spec fn word_bit(w: u32, b: u32) -> bool {
    (w >> b) & 1u32 == 1u32
}

/// No bit of `words` at a position from `len` on is set.
pub open spec fn tail_clear(words: Seq<u32>, len: nat) -> bool {
    forall|j: int| #![trigger words[j / 32]] len <= j < 32 * words.len() ==> !word_bit(words[j / 32], (j % 32) as u32)
}

proof fn lemma_word_from_bits(x: u32, y: u32)
    requires
        forall|c: u32| c < 32 ==> #[trigger] word_bit(x, c) == word_bit(y, c),
    ensures
        x == y,
{
    assert(word_bit(x, 0u32) == word_bit(y, 0u32));
    assert(word_bit(x, 1u32) == word_bit(y, 1u32));
    assert(word_bit(x, 2u32) == word_bit(y, 2u32));
    assert(word_bit(x, 3u32) == word_bit(y, 3u32));
    assert(word_bit(x, 4u32) == word_bit(y, 4u32));
    assert(word_bit(x, 5u32) == word_bit(y, 5u32));
    assert(word_bit(x, 6u32) == word_bit(y, 6u32));
    assert(word_bit(x, 7u32) == word_bit(y, 7u32));
    assert(word_bit(x, 8u32) == word_bit(y, 8u32));
    assert(word_bit(x, 9u32) == word_bit(y, 9u32));
    assert(word_bit(x, 10u32) == word_bit(y, 10u32));
    assert(word_bit(x, 11u32) == word_bit(y, 11u32));
    assert(word_bit(x, 12u32) == word_bit(y, 12u32));
    assert(word_bit(x, 13u32) == word_bit(y, 13u32));
    assert(word_bit(x, 14u32) == word_bit(y, 14u32));
    assert(word_bit(x, 15u32) == word_bit(y, 15u32));
    assert(word_bit(x, 16u32) == word_bit(y, 16u32));
    assert(word_bit(x, 17u32) == word_bit(y, 17u32));
    assert(word_bit(x, 18u32) == word_bit(y, 18u32));
    assert(word_bit(x, 19u32) == word_bit(y, 19u32));
    assert(word_bit(x, 20u32) == word_bit(y, 20u32));
    assert(word_bit(x, 21u32) == word_bit(y, 21u32));
    assert(word_bit(x, 22u32) == word_bit(y, 22u32));
    assert(word_bit(x, 23u32) == word_bit(y, 23u32));
    assert(word_bit(x, 24u32) == word_bit(y, 24u32));
    assert(word_bit(x, 25u32) == word_bit(y, 25u32));
    assert(word_bit(x, 26u32) == word_bit(y, 26u32));
    assert(word_bit(x, 27u32) == word_bit(y, 27u32));
    assert(word_bit(x, 28u32) == word_bit(y, 28u32));
    assert(word_bit(x, 29u32) == word_bit(y, 29u32));
    assert(word_bit(x, 30u32) == word_bit(y, 30u32));
    assert(word_bit(x, 31u32) == word_bit(y, 31u32));
    assert(x == y) by (bit_vector)
        requires
            word_bit(x, 0u32) == word_bit(y, 0u32),
            word_bit(x, 1u32) == word_bit(y, 1u32),
            word_bit(x, 2u32) == word_bit(y, 2u32),
            word_bit(x, 3u32) == word_bit(y, 3u32),
            word_bit(x, 4u32) == word_bit(y, 4u32),
            word_bit(x, 5u32) == word_bit(y, 5u32),
            word_bit(x, 6u32) == word_bit(y, 6u32),
            word_bit(x, 7u32) == word_bit(y, 7u32),
            word_bit(x, 8u32) == word_bit(y, 8u32),
            word_bit(x, 9u32) == word_bit(y, 9u32),
            word_bit(x, 10u32) == word_bit(y, 10u32),
            word_bit(x, 11u32) == word_bit(y, 11u32),
            word_bit(x, 12u32) == word_bit(y, 12u32),
            word_bit(x, 13u32) == word_bit(y, 13u32),
            word_bit(x, 14u32) == word_bit(y, 14u32),
            word_bit(x, 15u32) == word_bit(y, 15u32),
            word_bit(x, 16u32) == word_bit(y, 16u32),
            word_bit(x, 17u32) == word_bit(y, 17u32),
            word_bit(x, 18u32) == word_bit(y, 18u32),
            word_bit(x, 19u32) == word_bit(y, 19u32),
            word_bit(x, 20u32) == word_bit(y, 20u32),
            word_bit(x, 21u32) == word_bit(y, 21u32),
            word_bit(x, 22u32) == word_bit(y, 22u32),
            word_bit(x, 23u32) == word_bit(y, 23u32),
            word_bit(x, 24u32) == word_bit(y, 24u32),
            word_bit(x, 25u32) == word_bit(y, 25u32),
            word_bit(x, 26u32) == word_bit(y, 26u32),
            word_bit(x, 27u32) == word_bit(y, 27u32),
            word_bit(x, 28u32) == word_bit(y, 28u32),
            word_bit(x, 29u32) == word_bit(y, 29u32),
            word_bit(x, 30u32) == word_bit(y, 30u32),
            word_bit(x, 31u32) == word_bit(y, 31u32),
    ;
}

/// Two sets of `len` variables stored with their unused bits clear are
/// stored alike exactly when they hold the same members.
pub proof fn lemma_words_determined(a: Seq<u32>, b: Seq<u32>, len: nat)
    requires
        a.len() == words_for(len),
        b.len() == words_for(len),
        tail_clear(a, len),
        tail_clear(b, len),
        forall|i: int| 0 <= i < len ==> word_bit(#[trigger] a[i / 32], (i % 32) as u32) == word_bit(b[i / 32], (i % 32) as u32),
    ensures
        a == b,
{
    assert forall|k: int| 0 <= k < a.len() implies a[k] == b[k] by {
        assert forall|c: u32| c < 32 implies #[trigger] word_bit(a[k], c) == word_bit(b[k], c) by {
            let j = 32 * k + c;
            assert(j / 32 == k && j % 32 == c);
            if j < len {
                assert(word_bit(a[j / 32], (j % 32) as u32) == word_bit(b[j / 32], (j % 32) as u32));
            } else {
                assert(!word_bit(a[j / 32], (j % 32) as u32));
                assert(!word_bit(b[j / 32], (j % 32) as u32));
            }
        }
        lemma_word_from_bits(a[k], b[k]);
    }
    assert(a =~= b);
}

/// Number of words needed for `len` members.
pub open spec fn words_for(len: nat) -> nat {
    if len % 32 == 0 { len / 32 } else { len / 32 + 1 }
}

/// Number of `true` entries of a sequence.
pub open spec fn count_members(s: Seq<bool>) -> nat
    decreases s.len(),
{
    if s.len() == 0 {
        0
    } else {
        count_members(s.drop_last()) + if s.last() { 1nat } else { 0nat }
    }
}

/// Wrapping (mod 2^32) sum of a sequence of words.
pub open spec fn wrapping_word_sum(s: Seq<u32>) -> u32
    decreases s.len(),
{
    if s.len() == 0 {
        0
    } else {
        ((wrapping_word_sum(s.drop_last()) + s.last()) % 0x1_0000_0000) as u32
    }
}

/// Lexicographic comparison of two word sequences, as `Vec<u32>` orders them:
/// the first differing word decides; otherwise the shorter one is smaller.
pub open spec fn lex_order(a: Seq<u32>, b: Seq<u32>) -> int
    decreases a.len(),
{
    if a.len() == 0 {
        if b.len() == 0 { 0 } else { -1 }
    } else if b.len() == 0 {
        1
    } else if a[0] < b[0] {
        -1
    } else if a[0] > b[0] {
        1
    } else {
        lex_order(a.drop_first(), b.drop_first())
    }
}

/// The text `bit_string` produces for the first members: "1 " or "0 " each.
pub open spec fn bits_prefix_text(s: Seq<bool>) -> Seq<char>
    decreases s.len(),
{
    if s.len() == 0 {
        seq![]
    } else {
        bits_prefix_text(s.drop_last()) + seq![if s.last() { '1' } else { '0' }, ' ']
    }
}

/// The whole text of `bit_string`: one digit and a space per member, then a newline.
pub open spec fn bits_text(s: Seq<bool>) -> Seq<char> {
    bits_prefix_text(s).push('\n')
}

proof fn lemma_shift_and_bit(w: u32, b: u32)
    requires
        b < 32,
    ensures
        (w & (1u32 << b) != 0) == word_bit(w, b),
{
    assert((w & (1u32 << b) != 0) == ((w >> b) & 1u32 == 1u32)) by (bit_vector)
        requires
            b < 32,
    ;
}

proof fn lemma_set_bit(w: u32, b: u32, c: u32)
    requires
        b < 32,
        c < 32,
    ensures
        word_bit(w | (1u32 << b), c) == (c == b || word_bit(w, c)),
        word_bit(w & !(1u32 << b), c) == (c != b && word_bit(w, c)),
{
    assert(((w | (1u32 << b)) >> c) & 1u32 == 1u32 <==> (c == b || (w >> c) & 1u32 == 1u32))
        by (bit_vector)
        requires
            b < 32,
            c < 32,
    ;
    assert(((w & !(1u32 << b)) >> c) & 1u32 == 1u32 <==> (c != b && (w >> c) & 1u32 == 1u32))
        by (bit_vector)
        requires
            b < 32,
            c < 32,
    ;
}

proof fn lemma_word_ops(a: u32, b: u32, c: u32)
    requires
        c < 32,
    ensures
        word_bit(a | b, c) == (word_bit(a, c) || word_bit(b, c)),
        word_bit(a & b, c) == (word_bit(a, c) && word_bit(b, c)),
        word_bit(!a, c) == !word_bit(a, c),
        !word_bit(0u32, c),
{
    assert((((a | b) >> c) & 1u32 == 1u32) <==> (((a >> c) & 1u32 == 1u32) || ((b >> c) & 1u32
        == 1u32))) by (bit_vector)
        requires
            c < 32,
    ;
    assert((((a & b) >> c) & 1u32 == 1u32) <==> (((a >> c) & 1u32 == 1u32) && ((b >> c) & 1u32
        == 1u32))) by (bit_vector)
        requires
            c < 32,
    ;
    assert((((!a) >> c) & 1u32 == 1u32) <==> !((a >> c) & 1u32 == 1u32)) by (bit_vector)
        requires
            c < 32,
    ;
    assert(!(((0u32) >> c) & 1u32 == 1u32)) by (bit_vector)
        requires
            c < 32,
    ;
}

proof fn lemma_mask_bit(w: u32, t: u32, c: u32)
    requires
        0 < t < 32,
        c < 32,
    ensures
        word_bit(w & (((1u32 << t) - 1) as u32), c) == (c < t && word_bit(w, c)),
{
    assert((((w & (((1u32 << t) - 1) as u32)) >> c) & 1u32 == 1u32) <==> (c < t && ((w >> c)
        & 1u32 == 1u32))) by (bit_vector)
        requires
            0 < t < 32,
            c < 32,
    ;
}

proof fn lemma_index_split(i: int, len: nat)
    requires
        0 <= i < len,
    ensures
        0 <= i / 32 < words_for(len),
        0 <= i % 32 < 32,
        i == 32 * (i / 32) + i % 32,
{
}

pub proof fn lemma_count_bound(s: Seq<bool>)
    ensures
        count_members(s) <= s.len(),
        count_members(s) == s.len() <==> (forall|i: int| 0 <= i < s.len() ==> s[i]),
    decreases s.len(),
{
    if s.len() > 0 {
        lemma_count_bound(s.drop_last());
        if count_members(s) == s.len() {
            assert forall|i: int| 0 <= i < s.len() implies s[i] by {
                if i < s.len() - 1 {
                    assert(s.drop_last()[i] == s[i]);
                }
            }
        }
        if forall|i: int| 0 <= i < s.len() ==> s[i] {
            assert forall|i: int| 0 <= i < s.drop_last().len() implies s.drop_last()[i] by {
                assert(s[i]);
            }
        }
    }
}

proof fn lemma_count_complement(s: Seq<bool>, t: Seq<bool>)
    requires
        s.len() == t.len(),
        forall|i: int| 0 <= i < s.len() ==> t[i] == !s[i],
    ensures
        count_members(s) + count_members(t) == s.len(),
    decreases s.len(),
{
    if s.len() > 0 {
        lemma_count_complement(s.drop_last(), t.drop_last());
    }
}

/// A fixed-size set of variables.
#[derive(Debug, Eq, PartialEq)]
pub struct VarSet {
    len: usize,
    data: Vec<u32>,
}

impl View for VarSet {
    type V = Seq<bool>;

    /// Membership of each variable `0..len`.
    closed spec fn view(&self) -> Seq<bool> {
        Seq::new(self.len as nat, |i: int| word_bit(self.data@[i / 32], (i % 32) as u32))
    }
}

impl Clone for VarSet {
    fn clone(&self) -> (r: Self)
        ensures
            r@ == self@,
            r.words_view() == self.words_view(),
    {
        proof {
            use_type_invariant(self);
        }
        VarSet { len: self.len, data: self.data.clone() }
    }
}

impl VarSet {
    #[verifier::type_invariant]
    closed spec fn inv(self) -> bool {
        &&& self.data@.len() == words_for(self.len as nat)
        &&& forall|j: int|
            #![trigger self.data@[j / 32]]
            self.len <= j < 32 * self.data@.len() ==> !word_bit(self.data@[j / 32], (j % 32) as u32)
    }

    /// The words that store the members.
    pub closed spec fn words_view(&self) -> Seq<u32> {
        self.data@
    }

    /// A set of `len` variables with no members.
    pub fn new(len: usize) -> (r: Self)
        ensures
            r@ == Seq::new(len as nat, |i: int| false),
            r.words_view() == Seq::new(words_for(len as nat), |i: int| 0u32),
    {
        let nwords: usize = if len % WORD_BITS == 0 { len / WORD_BITS } else { len / WORD_BITS + 1 };
        let data: Vec<u32> = vec![0u32; nwords];
        proof {
            assert forall|c: u32| c < 32 implies !#[trigger] word_bit(0u32, c) by {
                lemma_word_ops(0u32, 0u32, c);
            }
        }
        let r = VarSet { len, data };
        proof {
            assert forall|i: int| 0 <= i < len implies !word_bit(#[trigger] r.data@[i / 32], (i % 32) as u32) by {
                lemma_index_split(i, len as nat);
                lemma_word_ops(0u32, 0u32, (i % 32) as u32);
            }
        }
        assert(r@ =~= Seq::new(len as nat, |i: int| false));
        assert(r.words_view() =~= Seq::new(words_for(len as nat), |i: int| 0u32));
        r
    }

    /// Number of variables the set ranges over.
    pub fn len(&self) -> (r: usize)
        ensures
            r == self@.len(),
    {
        self.len
    }

    /// Whether the set ranges over no variables at all.
    pub fn is_empty_len(&self) -> (r: bool)
        ensures
            r == (self@.len() == 0),
    {
        self.len == 0
    }

    /// Whether variable `index` is a member.
    pub fn contains(&self, index: usize) -> (r: bool)
        requires
            index < self@.len(),
        ensures
            r == self@[index as int],
    {
        proof {
            use_type_invariant(self);
            lemma_index_split(index as int, self.len as nat);
            lemma_shift_and_bit(self.data@[index as int / 32], (index % 32) as u32);
        }
        let word = index / WORD_BITS;
        let bit = (index % WORD_BITS) as u32;
        self.data[word] & (1u32 << bit) != 0
    }

    /// Number of members.
    pub fn count(&self) -> (r: usize)
        ensures
            r == count_members(self@),
    {
        let mut c: usize = 0;
        let mut i: usize = 0;
        while i < self.len
            invariant
                i <= self.len,
                self.len == self@.len(),
                c == count_members(self@.take(i as int)),
                c <= i,
            decreases self.len - i,
        {
            let m = self.contains(i);
            proof {
                assert(self@.take(i + 1).drop_last() =~= self@.take(i as int));
            }
            if m {
                c = c + 1;
            }
            i = i + 1;
        }
        assert(self@.take(i as int) =~= self@);
        c
    }

    /// Makes this set a copy of `source`; both must range over the same variables.
    pub fn assign_from(&mut self, source: &Self)
        requires
            old(self)@.len() == source@.len(),
        ensures
            final(self)@ == source@,
            final(self).words_view() == source.words_view(),
    {
        proof {
            use_type_invariant(&*self);
            use_type_invariant(source);
        }
        self.data = source.data.clone();
        assert(self@ =~= source@);
    }

    /// The union of two sets over the same variables.
    pub fn union(&self, other: &Self) -> (r: Self)
        requires
            self@.len() == other@.len(),
        ensures
            r@ == Seq::new(self@.len(), |i: int| self@[i] || other@[i]),
            r.words_view() == Seq::new(self.words_view().len(), |k: int| self.words_view()[k] | other.words_view()[k]),
    {
        self.combine(other, true)
    }

    /// The intersection of two sets over the same variables.
    pub fn intersect(&self, other: &Self) -> (r: Self)
        requires
            self@.len() == other@.len(),
        ensures
            r@ == Seq::new(self@.len(), |i: int| self@[i] && other@[i]),
            r.words_view() == Seq::new(self.words_view().len(), |k: int| self.words_view()[k] & other.words_view()[k]),
    {
        self.combine(other, false)
    }

    fn combine(&self, other: &Self, is_union: bool) -> (r: Self)
        requires
            self@.len() == other@.len(),
        ensures
            is_union ==> r@ == Seq::new(self@.len(), |i: int| self@[i] || other@[i]),
            !is_union ==> r@ == Seq::new(self@.len(), |i: int| self@[i] && other@[i]),
            is_union ==> r.words_view() == Seq::new(self.words_view().len(), |k: int| self.words_view()[k] | other.words_view()[k]),
            !is_union ==> r.words_view() == Seq::new(self.words_view().len(), |k: int| self.words_view()[k] & other.words_view()[k]),
    {
        proof {
            use_type_invariant(self);
            use_type_invariant(other);
        }
        let n = self.data.len();
        let mut data: Vec<u32> = Vec::new();
        for k in 0..n
            invariant
                n == self.data@.len(),
                n == other.data@.len(),
                n == words_for(self.len as nat),
                data@.len() == k,
                forall|j: int| 0 <= j < k ==> data@[j] == if is_union {
                    self.data@[j] | other.data@[j]
                } else {
                    self.data@[j] & other.data@[j]
                },
        {
            let w = if is_union { self.data[k] | other.data[k] } else { self.data[k] & other.data[k] };
            data.push(w);
        }
        proof {
            assert forall|j: int|
                #![trigger data@[j / 32]]
                self.len <= j < 32 * data@.len() implies !word_bit(data@[j / 32], (j % 32) as u32) by {
                assert(!word_bit(self.data@[j / 32], (j % 32) as u32));
                assert(!word_bit(other.data@[j / 32], (j % 32) as u32));
                lemma_word_ops(self.data@[j / 32], other.data@[j / 32], (j % 32) as u32);
            }
        }
        let r = VarSet { len: self.len, data };
        proof {
            assert forall|i: int| 0 <= i < self.len implies #[trigger] r@[i] == if is_union {
                self@[i] || other@[i]
            } else {
                self@[i] && other@[i]
            } by {
                lemma_index_split(i, self.len as nat);
                lemma_word_ops(self.data@[i / 32], other.data@[i / 32], (i % 32) as u32);
            }
        }
        if is_union {
            assert(r@ =~= Seq::new(self@.len(), |i: int| self@[i] || other@[i]));
            assert(r.words_view() =~= Seq::new(self.words_view().len(), |k: int| self.words_view()[k] | other.words_view()[k]));
        } else {
            assert(r@ =~= Seq::new(self@.len(), |i: int| self@[i] && other@[i]));
            assert(r.words_view() =~= Seq::new(self.words_view().len(), |k: int| self.words_view()[k] & other.words_view()[k]));
        }
        r
    }

    /// The complement: exactly the variables that are not members.
    pub fn complement(&self) -> (r: Self)
        ensures
            r@ == Seq::new(self@.len(), |i: int| !self@[i]),
            r.words_view().len() == words_for(self@.len()),
            tail_clear(r.words_view(), self@.len()),
    {
        proof {
            use_type_invariant(self);
        }
        let n = self.data.len();
        let mut data: Vec<u32> = Vec::new();
        for k in 0..n
            invariant
                n == self.data@.len(),
                n == words_for(self.len as nat),
                data@.len() == k,
                forall|j: int| 0 <= j < k ==> data@[j] == !self.data@[j],
        {
            data.push(!self.data[k]);
        }
        let tail = (self.len % WORD_BITS) as u32;
        if tail != 0 {
            assert((1u32 << tail) >= 1u32) by (bit_vector)
                requires
                    tail < 32,
            ;
            let last = data[n - 1];
            let masked = last & ((1u32 << tail) - 1);
            data.set(n - 1, masked);
        }
        proof {
            assert forall|j: int|
                #![trigger data@[j / 32]]
                self.len <= j < 32 * data@.len() implies !word_bit(data@[j / 32], (j % 32) as u32) by {
                assert(tail != 0);
                assert(j / 32 == n - 1);
                assert(j % 32 >= tail);
                lemma_mask_bit(!self.data@[n - 1], tail, (j % 32) as u32);
            }
        }
        let r = VarSet { len: self.len, data };
        proof {
            assert forall|i: int| 0 <= i < self.len implies #[trigger] r@[i] == !self@[i] by {
                lemma_index_split(i, self.len as nat);
                lemma_word_ops(self.data@[i / 32], 0u32, (i % 32) as u32);
                if tail != 0 && i / 32 == n - 1 {
                    lemma_mask_bit(!self.data@[n - 1], tail, (i % 32) as u32);
                }
            }
        }
        assert(r@ =~= Seq::new(self@.len(), |i: int| !self@[i]));
        proof {
            use_type_invariant(&r);
        }
        r
    }

    /// Adds variable `index` to the set.
    pub fn insert(&mut self, index: usize)
        requires
            index < old(self)@.len(),
        ensures
            final(self)@ == old(self)@.update(index as int, true),
    {
        self.set_member(index, true);
    }

    /// Removes variable `index` from the set.
    pub fn remove(&mut self, index: usize)
        requires
            index < old(self)@.len(),
        ensures
            final(self)@ == old(self)@.update(index as int, false),
    {
        self.set_member(index, false);
    }

    fn set_member(&mut self, index: usize, value: bool)
        requires
            index < old(self)@.len(),
        ensures
            final(self)@ == old(self)@.update(index as int, value),
    {
        proof {
            use_type_invariant(&*self);
            lemma_index_split(index as int, self.len as nat);
        }
        let ghost before = self@;
        let ghost old_data = self.data@;
        let word = index / WORD_BITS;
        let bit = (index % WORD_BITS) as u32;
        let w = self.data[word];
        let nw = if value { w | (1u32 << bit) } else { w & !(1u32 << bit) };
        let mut data = self.data.clone();
        data.set(word, nw);
        let len = self.len;
        proof {
            assert forall|j: int|
                #![trigger data@[j / 32]]
                len <= j < 32 * data@.len() implies !word_bit(data@[j / 32], (j % 32) as u32) by {
                assert(!word_bit(old_data[j / 32], (j % 32) as u32));
                lemma_set_bit(w, bit, (j % 32) as u32);
                if j / 32 == word {
                    assert(j % 32 != bit);
                }
            }
        }
        *self = VarSet { len, data };
        proof {
            assert forall|i: int| 0 <= i < len implies #[trigger] self@[i] == before.update(index as int, value)[i] by {
                lemma_index_split(i, len as nat);
                lemma_set_bit(w, bit, (i % 32) as u32);
                if i / 32 == word && i % 32 == bit {
                    assert(i == index);
                }
            }
        }
        assert(self@ =~= before.update(index as int, value));
    }

    /// Removes every member.
    pub fn clear(&mut self)
        ensures
            final(self)@ == Seq::new(old(self)@.len(), |i: int| false),
            final(self).words_view() == Seq::new(old(self).words_view().len(), |k: int| 0u32),
    {
        proof {
            use_type_invariant(&*self);
        }
        let len = self.len;
        *self = VarSet::new(len);
    }

    /// Whether some variable is a member of both sets.
    pub fn overlaps(&self, other: &Self) -> (r: bool)
        requires
            self@.len() == other@.len(),
        ensures
            r == (exists|i: int| 0 <= i < self@.len() && self@[i] && other@[i]),
    {
        let mut i: usize = 0;
        while i < self.len
            invariant
                i <= self.len,
                self.len == self@.len(),
                self@.len() == other@.len(),
                forall|j: int| 0 <= j < i ==> !(self@[j] && other@[j]),
            decreases self.len - i,
        {
            if self.contains(i) && other.contains(i) {
                return true;
            }
            i = i + 1;
        }
        false
    }

    /// Whether the set has no members.
    pub fn has_no_members(&self) -> (r: bool)
        ensures
            r == (forall|i: int| 0 <= i < self@.len() ==> !self@[i]),
    {
        let mut i: usize = 0;
        while i < self.len
            invariant
                i <= self.len,
                self.len == self@.len(),
                forall|j: int| 0 <= j < i ==> !self@[j],
            decreases self.len - i,
        {
            if self.contains(i) {
                return false;
            }
            i = i + 1;
        }
        true
    }

    /// Whether every variable is a member.
    pub fn is_full(&self) -> (r: bool)
        ensures
            r == (forall|i: int| 0 <= i < self@.len() ==> self@[i]),
    {
        proof {
            lemma_count_bound(self@);
        }
        self.count() == self.len
    }

    /// One "1 " or "0 " per variable, then a newline.
    pub fn bit_string(&self) -> (r: String)
        ensures
            r@ == bits_text(self@),
    {
        let mut out = String::new();
        let mut i: usize = 0;
        while i < self.len
            invariant
                i <= self.len,
                self.len == self@.len(),
                out@ == bits_prefix_text(self@.take(i as int)),
            decreases self.len - i,
        {
            let m = self.contains(i);
            push_char(&mut out, if m { '1' } else { '0' });
            push_char(&mut out, ' ');
            proof {
                assert(self@.take(i + 1).drop_last() =~= self@.take(i as int));
            }
            i = i + 1;
        }
        push_char(&mut out, '\n');
        assert(self@.take(i as int) =~= self@);
        out
    }

    fn word_order(&self, other: &Self) -> (r: i8)
        requires
            self@.len() == other@.len(),
        ensures
            r == lex_order(self.words_view(), other.words_view()),
    {
        proof {
            use_type_invariant(self);
            use_type_invariant(other);
        }
        let n = self.data.len();
        let mut k: usize = 0;
        assert(self.data@.skip(0) =~= self.data@);
        assert(other.data@.skip(0) =~= other.data@);
        while k < n
            invariant
                k <= n,
                n == self.data@.len(),
                n == other.data@.len(),
                lex_order(self.data@, other.data@) == lex_order(self.data@.skip(k as int), other.data@.skip(k as int)),
            decreases n - k,
        {
            let a = self.data[k];
            let b = other.data[k];
            proof {
                assert(self.data@.skip(k as int).drop_first() =~= self.data@.skip(k + 1));
                assert(other.data@.skip(k as int).drop_first() =~= other.data@.skip(k + 1));
            }
            if a < b {
                return -1;
            }
            if a > b {
                return 1;
            }
            k = k + 1;
        }
        0
    }

    /// Compares the stored words lexicographically; both sets must range over
    /// the same variables.
    pub fn compare_words(&self, other: &Self) -> (r: Ordering)
        requires
            self@.len() == other@.len(),
        ensures
            (r == Ordering::Less) == (lex_order(self.words_view(), other.words_view()) < 0),
            (r == Ordering::Equal) == (lex_order(self.words_view(), other.words_view()) == 0),
            (r == Ordering::Greater) == (lex_order(self.words_view(), other.words_view()) > 0),
    {
        let o = self.word_order(other);
        if o < 0 {
            Ordering::Less
        } else if o == 0 {
            Ordering::Equal
        } else {
            Ordering::Greater
        }
    }

    /// 0 when both sets are equal (same variables and same members), 1 otherwise.
    pub fn sis_cmp(&self, other: &Self) -> (r: i32)
        ensures
            r == 0 <==> (self@ == other@),
            r == 0 || r == 1,
    {
        proof {
            use_type_invariant(self);
            use_type_invariant(other);
        }
        if self.len != other.len {
            return 1;
        }
        let mut i: usize = 0;
        while i < self.len
            invariant
                i <= self.len,
                self.len == self@.len(),
                self@.len() == other@.len(),
                forall|j: int| 0 <= j < i ==> self@[j] == other@[j],
            decreases self.len - i,
        {
            if self.contains(i) != other.contains(i) {
                return 1;
            }
            i = i + 1;
        }
        assert(self@ =~= other@);
        0
    }

    /// The wrapping sum of the stored words.
    pub fn sis_hash(&self) -> (r: u32)
        ensures
            r == wrapping_word_sum(self.words_view()),
    {
        let n = self.data.len();
        let mut acc: u32 = 0;
        for k in 0..n
            invariant
                n == self.data@.len(),
                acc == wrapping_word_sum(self.data@.take(k as int)),
        {
            proof {
                assert(self.data@.take(k + 1).drop_last() =~= self.data@.take(k as int));
            }
            acc = acc.wrapping_add(self.data[k]);
        }
        assert(self.data@.take(n as int) =~= self.data@);
        acc
    }

    /// The stored words.
    pub fn words(&self) -> (r: &[u32])
        ensures
            r@ == self.words_view(),
            r@.len() == words_for(self@.len()),
            tail_clear(r@, self@.len()),
    {
        proof {
            use_type_invariant(self);
        }
        self.data.as_slice()
    }
}

/// The number of members of a set and of its complement add up to the number
/// of variables.
pub proof fn lemma_complement_count(s: Seq<bool>, c: Seq<bool>)
    requires
        c == Seq::new(s.len(), |i: int| !s[i]),
    ensures
        count_members(s) + count_members(c) == s.len(),
{
    lemma_count_complement(s, c);
}

/// A set is full exactly when it has as many members as variables.
pub proof fn lemma_full_iff_count(s: Seq<bool>)
    ensures
        (count_members(s) == s.len()) <==> (forall|i: int| 0 <= i < s.len() ==> s[i]),
{
    lemma_count_bound(s);
}


/// Complementing twice gives back the set, word for word.
pub proof fn lemma_double_complement(s: &VarSet, c: &VarSet, cc: &VarSet)
    requires
        s.words_view().len() == words_for(s@.len()),
        tail_clear(s.words_view(), s@.len()),
        c@ == Seq::new(s@.len(), |i: int| !s@[i]),
        cc@ == Seq::new(c@.len(), |i: int| !c@[i]),
        cc.words_view().len() == words_for(c@.len()),
        tail_clear(cc.words_view(), c@.len()),
    ensures
        cc@ == s@,
        cc.words_view() == s.words_view(),
{
    assert(cc@ =~= s@);
    assert forall|i: int| 0 <= i < s@.len() implies word_bit(#[trigger] cc.words_view()[i / 32], (i % 32) as u32)
        == word_bit(s.words_view()[i / 32], (i % 32) as u32) by {
        assert(cc@[i] == s@[i]);
    }
    lemma_words_determined(cc.words_view(), s.words_view(), s@.len());
}

} // verus!
