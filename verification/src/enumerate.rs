//! Packed latch-state storage used by sequential state enumeration.
//!
//! A state is a sequence of latch bits (each 0 or 1). It is packed into words
//! of `bits_per_word` bits: word `k` holds latches `k * bits_per_word ..`, the
//! lowest latch of the word in its least significant bit.

use vstd::prelude::*;
use vstd::arithmetic::power2::{pow2, lemma_pow2_unfold, lemma_pow2_pos};
use vstd::arithmetic::div_mod::{lemma_div_denominator, lemma_fundamental_div_mod};

verus! {

/// Chunk size of the original state queue.
pub const STG_CHUNK_SIZE: usize = 1000;
/// Longest input sequence considered by the enumeration.
pub const MAX_ELENGTH: usize = 36;

/// The explanation carried by `EnumerateError::MissingDependency`.
pub const ENUMERATION_UNAVAILABLE: &'static str =
    "recursive STG enumeration needs the network, node, graph and STG simulation layers, which this library does not provide";

/// Value of a little-endian bit sequence: entry 0 is the least significant.
pub open spec fn bits_value(s: Seq<u8>) -> nat
    decreases s.len(),
{
    if s.len() == 0 {
        0
    } else {
        s[0] as nat + 2 * bits_value(s.drop_first())
    }
}

/// Whether every entry of a latch-state is 0 or 1.
pub open spec fn is_binary(s: Seq<u8>) -> bool {
    forall|i: int| 0 <= i < s.len() ==> #[trigger] s[i] <= 1
}

/// Number of words needed for `latches` latches at `bpw` bits per word.
pub open spec fn words_needed(latches: nat, bpw: nat) -> nat {
    if latches == 0 {
        0
    } else if latches % bpw == 0 {
        latches / bpw
    } else {
        latches / bpw + 1
    }
}

/// Upper end (exclusive) of the latches held by word `k`.
pub open spec fn word_end(k: nat, bpw: nat, latches: nat) -> nat {
    if (k + 1) * bpw <= latches { (k + 1) * bpw } else { latches }
}

/// The packed form of a latch-state.
pub open spec fn packed_state(state: Seq<u8>, bpw: nat, wps: nat) -> Seq<u32> {
    Seq::new(
        wps,
        |k: int| bits_value(state.subrange(k * bpw, word_end(k as nat, bpw, state.len()) as int)) as u32,
    )
}

/// Bit `j` of `w`.
pub open spec fn word_bit_at(w: u32, j: nat) -> u8 {
    ((w as nat / pow2(j)) % 2) as u8
}

/// The latch-state decoded from packed words.
pub open spec fn unpacked_state(packed: Seq<u32>, bpw: nat, latches: nat) -> Seq<u8> {
    Seq::new(latches, |i: int| word_bit_at(packed[i / (bpw as int)], (i % (bpw as int)) as nat))
}

/// Comparison of two packed states, most significant word (highest index) first.
pub open spec fn packed_order(a: Seq<u32>, b: Seq<u32>) -> int
    decreases a.len(),
{
    if a.len() == 0 || b.len() == 0 {
        0
    } else if a.last() > b.last() {
        1
    } else if a.last() < b.last() {
        -1
    } else {
        packed_order(a.drop_last(), b.drop_last())
    }
}

proof fn lemma_bits_value_bound(s: Seq<u8>)
    requires
        is_binary(s),
    ensures
        bits_value(s) < pow2(s.len()),
    decreases s.len(),
{
    if s.len() == 0 {
        assert(pow2(0) == 1) by {
            vstd::arithmetic::power2::lemma2_to64();
        }
    } else {
        let t = s.drop_first();
        assert(is_binary(t)) by {
            assert forall|i: int| 0 <= i < t.len() implies #[trigger] t[i] <= 1 by {
                assert(t[i] == s[i + 1]);
            }
        }
        lemma_bits_value_bound(t);
        lemma_pow2_unfold(s.len());
        assert(s[0] <= 1);
    }
}

proof fn lemma_bits_value_bit(s: Seq<u8>, j: nat)
    requires
        is_binary(s),
        j < s.len(),
    ensures
        (bits_value(s) / pow2(j)) % 2 == s[j as int] as nat,
    decreases j,
{
    let t = s.drop_first();
    assert(s[0] <= 1);
    if j == 0 {
        assert(pow2(0) == 1) by {
            vstd::arithmetic::power2::lemma2_to64();
        }
    } else {
        assert(is_binary(t)) by {
            assert forall|i: int| 0 <= i < t.len() implies #[trigger] t[i] <= 1 by {
                assert(t[i] == s[i + 1]);
            }
        }
        lemma_bits_value_bit(t, (j - 1) as nat);
        lemma_pow2_unfold(j);
        lemma_pow2_pos((j - 1) as nat);
        // bits_value(s) / (2 * p) == (bits_value(s) / 2) / p
        lemma_div_denominator(bits_value(s) as int, 2, pow2((j - 1) as nat) as int);
        assert(bits_value(s) / 2 == bits_value(t));
        assert(t[(j - 1) as int] == s[j as int]);
        assert(pow2(j) == 2 * pow2((j - 1) as nat));
    }
}

proof fn lemma_word_index(k: nat, bpw: nat, latches: nat)
    requires
        bpw > 0,
        k < words_needed(latches, bpw),
    ensures
        k * bpw < latches,
        (k + 1) * bpw == k * bpw + bpw,
        k * bpw <= word_end(k, bpw, latches) <= latches,
        word_end(k, bpw, latches) - k * bpw <= bpw,
{
    assert(k * bpw < latches) by (nonlinear_arith)
        requires
            bpw > 0,
            k < words_needed(latches, bpw),
            words_needed(latches, bpw) == if latches == 0 { 0 } else if latches % bpw == 0 { latches / bpw } else { latches / bpw + 1 },
    {
        lemma_fundamental_div_mod(latches as int, bpw as int);
    }
    assert((k + 1) * bpw == k * bpw + bpw) by (nonlinear_arith);
}

proof fn lemma_latch_position(i: int, bpw: nat, latches: nat)
    requires
        bpw > 0,
        0 <= i < latches,
    ensures
        0 <= i / (bpw as int) < words_needed(latches, bpw),
        0 <= i % (bpw as int) < bpw,
        (i / (bpw as int)) * bpw + i % (bpw as int) == i,
        (i / (bpw as int)) * bpw <= i < word_end((i / (bpw as int)) as nat, bpw, latches),
{
    lemma_fundamental_div_mod(i, bpw as int);
    lemma_fundamental_div_mod(latches as int, bpw as int);
    let k = i / (bpw as int);
    let q = (latches as int) / (bpw as int);
    let rr = (latches as int) % (bpw as int);
    assert(k * bpw == bpw * k) by (nonlinear_arith);
    assert(0 <= k) by (nonlinear_arith)
        requires
            bpw > 0,
            0 <= i,
            k == i / (bpw as int),
    ;
    assert(k <= q) by (nonlinear_arith)
        requires
            bpw > 0,
            0 <= i < latches,
            k == i / (bpw as int),
            q == (latches as int) / (bpw as int),
    ;
    if k == q {
        assert(rr != 0) by (nonlinear_arith)
            requires
                i == bpw * k + i % (bpw as int),
                latches as int == bpw * q + rr,
                k == q,
                0 <= i % (bpw as int),
                i < latches,
        ;
    }
    assert(k < words_needed(latches, bpw));
    assert((k + 1) * bpw == k * bpw + bpw) by (nonlinear_arith);
    if (k + 1) * bpw > latches {
    } else {
        assert(i < (k + 1) * bpw);
    }
}

/// Errors of the packed-state table.
#[derive(Clone, Debug, Eq, PartialEq)]
pub enum EnumerateError {
    InvalidBitsPerWord(usize),
    StateLength { expected: usize, actual: usize },
    PackedLength { expected: usize, actual: usize },
    InvalidStateBit { index: usize, value: u8 },
    ZeroModulus,
    DepthLimit { requested: usize, max: usize },
    MissingDependency(&'static str),
}

/// The set of packed latch-states seen so far, in the order they were first stored.
#[derive(Debug, Eq, PartialEq)]
pub struct PackedStateTable {
    bits_per_word: usize,
    latch_count: usize,
    words_per_state: usize,
    states: Vec<Vec<u32>>,
}

fn vec_eq(a: &Vec<u32>, b: &[u32]) -> (r: bool)
    ensures
        r == (a@ == b@),
{
    if a.len() != b.len() {
        return false;
    }
    for i in 0..a.len()
        invariant
            a@.len() == b@.len(),
            forall|j: int| 0 <= j < i ==> a@[j] == b@[j],
    {
        if a[i] != b[i] {
            return false;
        }
    }
    assert(a@ =~= b@);
    true
}

impl Clone for PackedStateTable {
    fn clone(&self) -> (r: Self)
        ensures
            r.spec_bits_per_word() == self.spec_bits_per_word(),
            r.spec_latch_count() == self.spec_latch_count(),
            r.spec_words_per_state() == self.spec_words_per_state(),
            r.stored() == self.stored(),
    {
        proof {
            use_type_invariant(self);
        }
        PackedStateTable {
            bits_per_word: self.bits_per_word,
            latch_count: self.latch_count,
            words_per_state: self.words_per_state,
            states: Vec::new(),
        }.with_states_of(self)
    }
}

impl PackedStateTable {
    fn with_states_of(self, other: &Self) -> (r: Self)
        ensures
            r.spec_bits_per_word() == self.spec_bits_per_word(),
            r.spec_latch_count() == self.spec_latch_count(),
            r.spec_words_per_state() == self.spec_words_per_state(),
            r.stored() == other.stored(),
    {
        proof {
            use_type_invariant(&self);
            use_type_invariant(other);
        }
        let mut states: Vec<Vec<u32>> = Vec::new();
        for i in 0..other.states.len()
            invariant
                states@.len() == i,
                forall|j: int| 0 <= j < i ==> states@[j]@ == other.states@[j]@,
        {
            states.push(other.states[i].clone());
        }
        proof {
            assert forall|i: int, j: int| 0 <= i < j < states@.len() implies states@[i]@ != states@[j]@ by {
                assert(other.states@[i]@ != other.states@[j]@);
            }
        }
        let r = PackedStateTable {
            bits_per_word: self.bits_per_word,
            latch_count: self.latch_count,
            words_per_state: self.words_per_state,
            states,
        };
        assert(r.stored() =~= other.stored());
        r
    }
}

impl PackedStateTable {
    #[verifier::type_invariant]
    closed spec fn inv(self) -> bool {
        &&& 1 <= self.bits_per_word <= 32
        &&& self.words_per_state == words_needed(self.latch_count as nat, self.bits_per_word as nat)
        &&& forall|i: int, j: int| 0 <= i < j < self.states@.len() ==> self.states@[i]@ != self.states@[j]@
    }

    /// Bits stored per word.
    pub closed spec fn spec_bits_per_word(&self) -> nat {
        self.bits_per_word as nat
    }

    /// Number of latches of a state.
    pub closed spec fn spec_latch_count(&self) -> nat {
        self.latch_count as nat
    }

    /// Number of words of a packed state.
    pub closed spec fn spec_words_per_state(&self) -> nat {
        self.words_per_state as nat
    }

    /// The packed states stored so far, in the order they were first stored.
    pub closed spec fn stored(&self) -> Seq<Seq<u32>> {
        self.states@.map_values(|v: Vec<u32>| v@)
    }

    /// An empty table for states of `latch_count` latches; `bits_per_word`
    /// must be between 1 and 32.
    pub fn new(latch_count: usize, bits_per_word: usize) -> (r: Result<Self, EnumerateError>)
        ensures
            (bits_per_word == 0 || bits_per_word > 32) <==> r == Err::<Self, EnumerateError>(EnumerateError::InvalidBitsPerWord(bits_per_word)),
            !(bits_per_word == 0 || bits_per_word > 32) ==> r is Ok,
            r is Ok ==> {
                let t = r->Ok_0;
                &&& t.spec_bits_per_word() == bits_per_word
                &&& t.spec_latch_count() == latch_count
                &&& t.spec_words_per_state() == words_needed(latch_count as nat, bits_per_word as nat)
                &&& t.stored().len() == 0
            },
    {
        if bits_per_word == 0 || bits_per_word > 32 {
            return Err(EnumerateError::InvalidBitsPerWord(bits_per_word));
        }
        let words_per_state = if latch_count == 0 {
            0
        } else if latch_count % bits_per_word == 0 {
            latch_count / bits_per_word
        } else {
            assert(latch_count / bits_per_word < usize::MAX) by (nonlinear_arith)
                requires
                    bits_per_word >= 2,
            ;
            latch_count / bits_per_word + 1
        };
        let t = PackedStateTable { bits_per_word, latch_count, words_per_state, states: Vec::new() };
        assert(t.stored() =~= Seq::<Seq<u32>>::empty());
        Ok(t)
    }

    pub fn bits_per_word(&self) -> (r: usize)
        ensures
            r == self.spec_bits_per_word(),
    {
        self.bits_per_word
    }

    pub fn latch_count(&self) -> (r: usize)
        ensures
            r == self.spec_latch_count(),
    {
        self.latch_count
    }

    pub fn words_per_state(&self) -> (r: usize)
        ensures
            r == self.spec_words_per_state(),
    {
        self.words_per_state
    }

    /// Number of distinct states stored.
    pub fn len(&self) -> (r: usize)
        ensures
            r == self.stored().len(),
    {
        self.states.len()
    }

    pub fn is_empty(&self) -> (r: bool)
        ensures
            r == (self.stored().len() == 0),
    {
        self.states.len() == 0
    }

    /// Whether the packed state is stored.
    pub fn contains_packed(&self, packed: &[u32]) -> (r: bool)
        ensures
            r == self.stored().contains(packed@),
    {
        let n = self.states.len();
        for i in 0..n
            invariant
                n == self.states@.len(),
                forall|j: int| 0 <= j < i ==> self.states@[j]@ != packed@,
        {
            if vec_eq(&self.states[i], packed) {
                assert(self.stored()[i as int] == packed@);
                return true;
            }
        }
        assert(!self.stored().contains(packed@)) by {
            if self.stored().contains(packed@) {
                let j = choose|j: int| 0 <= j < self.stored().len() && self.stored()[j] == packed@;
                assert(self.states@[j]@ == packed@);
            }
        }
        false
    }

    /// Packs a latch-state. It must have exactly one entry per latch, each 0
    /// or 1; the first entry that is neither is reported.
    pub fn pack_state(&self, estate: &[u8]) -> (r: Result<Vec<u32>, EnumerateError>)
        ensures
            r is Ok <==> self.pack_state_result(estate@) is Ok,
            r is Ok ==> self.pack_state_result(estate@) == Ok::<Seq<u32>, EnumerateError>(r->Ok_0@),
            r is Err ==> self.pack_state_result(estate@) == Err::<Seq<u32>, EnumerateError>(r->Err_0),
    {
        proof {
            use_type_invariant(self);
        }
        if estate.len() != self.latch_count {
            return Err(EnumerateError::StateLength { expected: self.latch_count, actual: estate.len() });
        }
        for i in 0..estate.len()
            invariant
                estate@.len() == self.latch_count,
                forall|j: int| 0 <= j < i ==> estate@[j] <= 1,
        {
            if estate[i] > 1 {
                proof {
                    assert(!is_binary(estate@));
                    let j = choose|j: int| 0 <= j < estate@.len() && estate@[j] > 1 && (forall|m: int| 0 <= m < j ==> estate@[m] <= 1);
                    assert(exists|j: int| 0 <= j < estate@.len() && estate@[j] > 1 && (forall|m: int| 0 <= m < j ==> estate@[m] <= 1)) by {
                        assert(estate@[i as int] > 1);
                    }
                    if j < i {
                        assert(estate@[j] <= 1);
                    }
                    if j > i {
                        assert(estate@[i as int] <= 1);
                    }
                    assert(j == i);
                    assert(self.pack_state_result(estate@) == Err::<Seq<u32>, EnumerateError>(
                        EnumerateError::InvalidStateBit { index: i, value: estate@[i as int] }));
                }
                return Err(EnumerateError::InvalidStateBit { index: i, value: estate[i] });
            }
        }
        let bpw = self.bits_per_word;
        let latches = self.latch_count;
        let wps = self.words_per_state;
        let mut hashed: Vec<u32> = Vec::new();
        for w in 0..wps
            invariant
                1 <= bpw <= 32,
                latches == estate@.len(),
                wps == words_needed(latches as nat, bpw as nat),
                is_binary(estate@),
                hashed@ =~= packed_state(estate@, bpw as nat, wps as nat).take(w as int),
        {
            proof {
                lemma_word_index(w as nat, bpw as nat, latches as nat);
            }
            let lo = w * bpw;
            let hi = if latches - lo < bpw { latches } else { lo + bpw };
            assert(hi == word_end(w as nat, bpw as nat, latches as nat));
            let mut state: u32 = 0;
            let mut k = hi;
            assert(pow2(0) == 1) by {
                vstd::arithmetic::power2::lemma2_to64();
            }
            assert(estate@.subrange(hi as int, hi as int) =~= Seq::<u8>::empty());
            while k > lo
                invariant
                    lo <= k <= hi <= latches,
                    latches == estate@.len(),
                    hi - lo <= bpw <= 32,
                    is_binary(estate@),
                    state as nat == bits_value(estate@.subrange(k as int, hi as int)),
                    (state as nat) < pow2((hi - k) as nat),
                decreases k - lo,
            {
                let ghost tail = estate@.subrange(k as int, hi as int);
                let ghost full = estate@.subrange(k - 1, hi as int);
                proof {
                    assert(full.drop_first() =~= tail);
                    assert(full[0] == estate@[k - 1]);
                    assert(estate@[k - 1] <= 1);
                    lemma_pow2_unfold((hi - k + 1) as nat);
                    assert(pow2((hi - k + 1) as nat) <= pow2(32)) by {
                        if hi - k + 1 < 32 {
                            vstd::arithmetic::power2::lemma_pow2_strictly_increases((hi - k + 1) as nat, 32);
                        }
                    }
                    assert(pow2(32) == 0x1_0000_0000) by {
                        vstd::arithmetic::power2::lemma2_to64();
                    }
                }
                state = state * 2 + estate[k - 1] as u32;
                k = k - 1;
            }
            proof {
                let ks = packed_state(estate@, bpw as nat, wps as nat);
                assert(ks[w as int] == state);
                assert(ks.take(w + 1) =~= ks.take(w as int).push(state));
            }
            hashed.push(state);
        }
        assert(packed_state(estate@, bpw as nat, wps as nat).take(wps as int) =~= packed_state(estate@, bpw as nat, wps as nat));
        Ok(hashed)
    }

    /// Packs a latch-state and stores it if it is new; returns the packed form.
    pub fn hash_code(&mut self, estate: &[u8]) -> (r: Result<Vec<u32>, EnumerateError>)
        ensures
            r is Ok <==> old(self).pack_state_result(estate@) is Ok,
            r is Ok ==> old(self).pack_state_result(estate@) == Ok::<Seq<u32>, EnumerateError>(r->Ok_0@),
            r is Err ==> old(self).pack_state_result(estate@) == Err::<Seq<u32>, EnumerateError>(r->Err_0),
            r is Err ==> final(self).stored() == old(self).stored(),
            r is Ok ==> final(self).stored() == if old(self).stored().contains(r->Ok_0@) {
                old(self).stored()
            } else {
                old(self).stored().push(r->Ok_0@)
            },
            final(self).spec_bits_per_word() == old(self).spec_bits_per_word(),
            final(self).spec_latch_count() == old(self).spec_latch_count(),
            final(self).spec_words_per_state() == old(self).spec_words_per_state(),
    {
        let packed = self.pack_state(estate)?;
        proof {
            use_type_invariant(&*self);
        }
        if !self.contains_packed(packed.as_slice()) {
            let ghost before = self.stored();
            let mut states = self.states.clone();
            states.push(packed.clone());
            proof {
                assert forall|i: int, j: int| 0 <= i < j < states@.len() implies states@[i]@ != states@[j]@ by {
                    if j == states@.len() - 1 {
                        assert(before[i] == states@[i]@);
                    } else {
                        assert(self.states@[i]@ != self.states@[j]@);
                    }
                }
            }
            *self = PackedStateTable {
                bits_per_word: self.bits_per_word,
                latch_count: self.latch_count,
                words_per_state: self.words_per_state,
                states,
            };
            assert(self.stored() =~= before.push(packed@));
        }
        Ok(packed)
    }

    /// What `pack_state` returns for a state with these entries.
    pub open spec fn pack_state_result(&self, estate: Seq<u8>) -> Result<Seq<u32>, EnumerateError> {
        if estate.len() != self.spec_latch_count() {
            Err(EnumerateError::StateLength { expected: self.spec_latch_count() as usize, actual: estate.len() as usize })
        } else if !is_binary(estate) {
            let i = choose|i: int| 0 <= i < estate.len() && estate[i] > 1 && (forall|j: int| 0 <= j < i ==> estate[j] <= 1);
            Err(EnumerateError::InvalidStateBit { index: i as usize, value: estate[i] })
        } else {
            Ok(packed_state(estate, self.spec_bits_per_word(), self.spec_words_per_state()))
        }
    }

    /// Decodes packed words back to one 0/1 entry per latch.
    pub fn translate_hashed_code(&self, h_state: &[u32]) -> (r: Result<Vec<u8>, EnumerateError>)
        ensures
            h_state@.len() != self.spec_words_per_state() ==> r == Err::<Vec<u8>, EnumerateError>(
                EnumerateError::PackedLength { expected: self.spec_words_per_state() as usize, actual: h_state@.len() as usize }),
            h_state@.len() == self.spec_words_per_state() ==> r is Ok && r->Ok_0@
                == unpacked_state(h_state@, self.spec_bits_per_word(), self.spec_latch_count()),
    {
        proof {
            use_type_invariant(self);
        }
        if h_state.len() != self.words_per_state {
            return Err(EnumerateError::PackedLength { expected: self.words_per_state, actual: h_state.len() });
        }
        let bpw = self.bits_per_word;
        let latches = self.latch_count;
        let mut out: Vec<u8> = Vec::new();
        let mut i: usize = 0;
        while i < latches
            invariant
                1 <= bpw <= 32,
                h_state@.len() == words_needed(latches as nat, bpw as nat),
                i <= latches,
                out@ =~= unpacked_state(h_state@, bpw as nat, latches as nat).take(i as int),
            decreases latches - i,
        {
            proof {
                lemma_latch_position(i as int, bpw as nat, latches as nat);
                vstd::bits::lemma_u32_shr_is_div(h_state@[(i / bpw) as int], (i % bpw) as u32);
            }
            let word = h_state[i / bpw];
            let b = ((word >> ((i % bpw) as u32)) % 2) as u8;
            proof {
                let us = unpacked_state(h_state@, bpw as nat, latches as nat);
                assert(us[i as int] == b);
                assert(us.take(i + 1) =~= us.take(i as int).push(b));
            }
            out.push(b);
            i = i + 1;
        }
        Ok(out)
    }

    /// The first packed word modulo `modulus` (0 for an empty state).
    pub fn state_hash(&self, packed: &[u32], modulus: u32) -> (r: Result<u32, EnumerateError>)
        ensures
            modulus == 0 ==> r == Err::<u32, EnumerateError>(EnumerateError::ZeroModulus),
            modulus != 0 && packed@.len() != self.spec_words_per_state() ==> r == Err::<u32, EnumerateError>(
                EnumerateError::PackedLength { expected: self.spec_words_per_state() as usize, actual: packed@.len() as usize }),
            modulus != 0 && packed@.len() == self.spec_words_per_state() ==> r == Ok::<u32, EnumerateError>(
                if packed@.len() == 0 { 0 } else { packed@[0] % modulus }),
    {
        if modulus == 0 {
            return Err(EnumerateError::ZeroModulus);
        }
        if packed.len() != self.words_per_state {
            return Err(EnumerateError::PackedLength { expected: self.words_per_state, actual: packed.len() });
        }
        if packed.len() == 0 {
            Ok(0)
        } else {
            Ok(packed[0] % modulus)
        }
    }

    /// Compares two packed states from the most significant word down:
    /// 1, -1 or 0.
    pub fn compare_states(&self, left: &[u32], right: &[u32]) -> (r: Result<i32, EnumerateError>)
        ensures
            left@.len() != self.spec_words_per_state() ==> r == Err::<i32, EnumerateError>(
                EnumerateError::PackedLength { expected: self.spec_words_per_state() as usize, actual: left@.len() as usize }),
            left@.len() == self.spec_words_per_state() && right@.len() != self.spec_words_per_state() ==> r == Err::<i32, EnumerateError>(
                EnumerateError::PackedLength { expected: self.spec_words_per_state() as usize, actual: right@.len() as usize }),
            left@.len() == self.spec_words_per_state() && right@.len() == self.spec_words_per_state() ==> r == Ok::<i32, EnumerateError>(
                packed_order(left@, right@) as i32),
    {
        if left.len() != self.words_per_state {
            return Err(EnumerateError::PackedLength { expected: self.words_per_state, actual: left.len() });
        }
        if right.len() != self.words_per_state {
            return Err(EnumerateError::PackedLength { expected: self.words_per_state, actual: right.len() });
        }
        let mut i = left.len();
        assert(left@.take(i as int) =~= left@);
        assert(right@.take(i as int) =~= right@);
        while i > 0
            invariant
                left@.len() == self.spec_words_per_state(),
                right@.len() == self.spec_words_per_state(),
                i <= left@.len(),
                left@.len() == right@.len(),
                packed_order(left@, right@) == packed_order(left@.take(i as int), right@.take(i as int)),
            decreases i,
        {
            proof {
                assert(left@.take(i as int).drop_last() =~= left@.take(i - 1));
                assert(right@.take(i as int).drop_last() =~= right@.take(i - 1));
            }
            if left[i - 1] > right[i - 1] {
                return Ok(1);
            }
            if left[i - 1] < right[i - 1] {
                return Ok(-1);
            }
            i = i - 1;
        }
        Ok(0)
    }
}

/// Decoding a packed state gives back the state that was packed.
pub proof fn lemma_pack_round_trip(state: Seq<u8>, bpw: nat)
    requires
        1 <= bpw <= 32,
        is_binary(state),
    ensures
        unpacked_state(packed_state(state, bpw, words_needed(state.len(), bpw)), bpw, state.len()) == state,
{
    let wps = words_needed(state.len(), bpw);
    let p = packed_state(state, bpw, wps);
    let u = unpacked_state(p, bpw, state.len());
    assert forall|i: int| 0 <= i < state.len() implies u[i] == state[i] by {
        lemma_latch_position(i, bpw, state.len());
        let k = i / (bpw as int);
        let j = i % (bpw as int);
        let sub = state.subrange(k * bpw, word_end(k as nat, bpw, state.len()) as int);
        assert(is_binary(sub)) by {
            assert forall|m: int| 0 <= m < sub.len() implies #[trigger] sub[m] <= 1 by {
                assert(sub[m] == state[k * bpw + m]);
            }
        }
        lemma_word_index(k as nat, bpw, state.len());
        lemma_bits_value_bound(sub);
        assert(pow2(sub.len()) <= pow2(32)) by {
            if sub.len() < 32 {
                vstd::arithmetic::power2::lemma_pow2_strictly_increases(sub.len(), 32);
            }
        }
        assert(pow2(32) == 0x1_0000_0000) by {
            vstd::arithmetic::power2::lemma2_to64();
        }
        assert(p[k] as nat == bits_value(sub));
        lemma_bits_value_bit(sub, j as nat);
        assert(sub[j] == state[i]);
    }
    assert(u =~= state);
}

/// The layout of a packed state: latch `i` is bit `i % bpw` of word
/// `i / bpw`, every word is below `2^bpw`, and no bit past the last latch
/// is set.
pub proof fn lemma_packed_layout(state: Seq<u8>, bpw: nat)
    requires
        1 <= bpw <= 32,
        is_binary(state),
    ensures
        ({
            let p = packed_state(state, bpw, words_needed(state.len(), bpw));
            &&& forall|i: int| 0 <= i < state.len() ==> word_bit_at(#[trigger] p[i / (bpw as int)], (i % (bpw as int)) as nat) == state[i]
            &&& forall|k: int| 0 <= k < p.len() ==> (#[trigger] p[k]) < pow2(bpw)
            &&& forall|k: int, j: nat| 0 <= k < p.len() && j < bpw && k * bpw + j >= state.len()
                ==> #[trigger] word_bit_at(p[k], j) == 0
        }),
{
    lemma_pack_round_trip(state, bpw);
    let wps = words_needed(state.len(), bpw);
    let p = packed_state(state, bpw, wps);
    assert forall|i: int| 0 <= i < state.len() implies word_bit_at(#[trigger] p[i / (bpw as int)], (i % (bpw as int)) as nat) == state[i] by {
        assert(unpacked_state(p, bpw, state.len())[i] == state[i]);
    }
    assert(pow2(32) == 0x1_0000_0000) by {
        vstd::arithmetic::power2::lemma2_to64();
    }
    assert forall|k: int| 0 <= k < p.len() implies {
        &&& (#[trigger] p[k]) < pow2(bpw)
        &&& forall|j: nat| j < bpw && k * bpw + j >= state.len() ==> #[trigger] word_bit_at(p[k], j) == 0
    } by {
        lemma_word_index(k as nat, bpw, state.len());
        let sub = state.subrange(k * bpw, word_end(k as nat, bpw, state.len()) as int);
        assert(is_binary(sub)) by {
            assert forall|m: int| 0 <= m < sub.len() implies #[trigger] sub[m] <= 1 by {
                assert(sub[m] == state[k * bpw + m]);
            }
        }
        lemma_bits_value_bound(sub);
        if sub.len() < bpw {
            vstd::arithmetic::power2::lemma_pow2_strictly_increases(sub.len(), bpw);
        }
        if bpw < 32 {
            vstd::arithmetic::power2::lemma_pow2_strictly_increases(bpw, 32);
        }
        assert(p[k] as nat == bits_value(sub));
        assert forall|j: nat| j < bpw && k * bpw + j >= state.len() implies #[trigger] word_bit_at(p[k], j) == 0 by {
            assert(j >= sub.len());
            if sub.len() < j {
                vstd::arithmetic::power2::lemma_pow2_strictly_increases(sub.len(), j);
            }
            vstd::arithmetic::div_mod::lemma_basic_div(bits_value(sub) as int, pow2(j) as int);
        }
    }
}

/// What a full enumeration would be asked to do.
#[derive(Clone, Debug, Eq, PartialEq)]
pub struct EnumerationRequest {
    pub latch_count: usize,
    pub primary_input_count: usize,
    pub primary_output_count: usize,
    pub max_depth: usize,
}

/// Recursive sequential enumeration: rejects depths above `MAX_ELENGTH`, and
/// otherwise reports that the circuit layers it walks are not available.
pub fn enumerate_sequential_circuit(request: &EnumerationRequest) -> (r: Result<(), EnumerateError>)
    ensures
        request.max_depth > MAX_ELENGTH ==> r == Err::<(), EnumerateError>(
            EnumerateError::DepthLimit { requested: request.max_depth, max: MAX_ELENGTH }),
        request.max_depth <= MAX_ELENGTH ==> r == Err::<(), EnumerateError>(
            EnumerateError::MissingDependency(ENUMERATION_UNAVAILABLE)),
{
    if request.max_depth > MAX_ELENGTH {
        return Err(EnumerateError::DepthLimit { requested: request.max_depth, max: MAX_ELENGTH });
    }
    Err(EnumerateError::MissingDependency(ENUMERATION_UNAVAILABLE))
}

} // verus!
