//! Cohesion checks and one-step repairs for observation tables.
//!
//! The checks run in this order: basis-closedness (every prefix-sample row
//! is representable by the basis rows), minimality (no basis word can be
//! dropped), evidence-closedness, and distinctness.

use vstd::prelude::*;

use crate::basis::{BasisMinimizationError, BasisMinimizer, BasisReductionPhase};
use crate::decomposition::{closure_of, lemma_closure_of_member, row_views, BasisDecomposer, DecompositionError};
use crate::observation_table::{
    add_missing, lemma_row_for_index, lemma_wf_facts, lemma_row_for_width, prefix_keys_of, word_keys, ObservationTable,
    TableQueryError,
};
use crate::oracles::membership::{MembershipOracle, WordKey};
use crate::rowvec::RowVec;
use crate::symbol::Symbol;
use crate::time::delay::DelayRep;
use crate::text::{decimal, decimal_string, push_str};
use crate::timed_word::{contains_letter_key, copy_letter, letter_key, letters_key, occurs_in, TimedWord};

verus! {

/// Ordered basis words: insertion order is kept and duplicates (by key) are
/// left out.
#[derive(Debug)]
pub struct BasisWords<A: Symbol> {
    elems: Vec<TimedWord<A>>,
}

impl<A: Symbol> BasisWords<A> {
    /// The keys of the basis words, in order.
    pub closed spec fn keys(&self) -> Seq<WordKey> {
        Seq::new(self.elems@.len(), |i: int| letters_key(self.elems@[i]@))
    }

    /// Basis words holding only the empty word.
    pub fn new_with_epsilon() -> (b: Self)
        ensures
            b.keys() == seq![Seq::<(Seq<char>, u32)>::empty()],
    {
        let mut elems: Vec<TimedWord<A>> = Vec::new();
        elems.push(TimedWord::empty());
        let b = BasisWords { elems };
        assert(letters_key(b.elems@[0]@) =~= Seq::<(Seq<char>, u32)>::empty());
        assert(b.keys() =~= seq![Seq::<(Seq<char>, u32)>::empty()]);
        b
    }

    /// The basis words, in order.
    pub fn as_slice(&self) -> (r: &[TimedWord<A>])
        ensures
            r@.len() == self.keys().len(),
            forall|i: int| 0 <= i < r@.len() ==> letters_key(#[trigger] r@[i]@) == self.keys()[i],
    {
        self.elems.as_slice()
    }

    /// An iterator over the basis words, in order.
    pub fn iter(&self) -> (r: std::slice::Iter<'_, TimedWord<A>>)
        ensures
            Seq::new(vstd::std_specs::slice::into_iter_elts(r).len(), |i: int| letters_key(vstd::std_specs::slice::into_iter_elts(r)[i]@))
                == self.keys(),
    {
        let s = self.elems.as_slice();
        let it = s.iter();
        proof {
            broadcast use vstd::std_specs::slice::group_slice_axioms;
            assert(vstd::std_specs::slice::into_iter_elts(it) =~= s@);
            assert(Seq::new(vstd::std_specs::slice::into_iter_elts(it).len(), |i: int| letters_key(vstd::std_specs::slice::into_iter_elts(it)[i]@))
                =~= self.keys());
        }
        it
    }

    /// The position of `word` among the basis words.
    fn position(&self, word: &TimedWord<A>) -> (r: Option<usize>)
        ensures
            r matches Some(i) ==> i < self.keys().len() && self.keys()[i as int] == letters_key(word@) && (forall|j: int|
                0 <= j < i ==> self.keys()[j] != letters_key(word@)),
            r is None ==> !self.keys().contains(letters_key(word@)),
    {
        let mut i: usize = 0;
        while i < self.elems.len()
            invariant
                i <= self.elems@.len(),
                forall|j: int| 0 <= j < i ==> self.keys()[j] != letters_key(word@),
            decreases self.elems@.len() - i,
        {
            if self.elems[i].same_word(word) {
                return Some(i);
            }
            i = i + 1;
        }
        None
    }

    /// `true` iff `word` is a basis word.
    pub fn contains(&self, word: &TimedWord<A>) -> (b: bool)
        ensures
            b == self.keys().contains(letters_key(word@)),
    {
        self.position(word).is_some()
    }

    /// Add `word` at the end unless it is there; `true` when added.
    pub fn insert(&mut self, word: TimedWord<A>) -> (b: bool)
        ensures
            b == !old(self).keys().contains(letters_key(word@)),
            final(self).keys() == (if b {
                old(self).keys().push(letters_key(word@))
            } else {
                old(self).keys()
            }),
    {
        if self.contains(&word) {
            return false;
        }
        let ghost before = self.keys();
        let ghost k = letters_key(word@);
        self.elems.push(word);
        assert(self.keys() =~= before.push(k));
        true
    }

    /// Remove the first occurrence of `word`; `true` when one was removed.
    pub fn remove(&mut self, word: &TimedWord<A>) -> (b: bool)
        ensures
            b == old(self).keys().contains(letters_key(word@)),
            b ==> exists|i: int|
                0 <= i < old(self).keys().len() && old(self).keys()[i] == letters_key(word@) && (forall|j: int|
                    0 <= j < i ==> old(self).keys()[j] != letters_key(word@)) && #[trigger] final(self).keys()
                    == old(self).keys().remove(i),
            !b ==> final(self).keys() == old(self).keys(),
    {
        match self.position(word) {
            Some(i) => {
                let ghost before = self.keys();
                self.elems.remove(i);
                assert(self.keys() =~= before.remove(i as int));
                true
            },
            None => false,
        }
    }

    /// The basis words other than `word`, in order.
    pub fn without(&self, word: &TimedWord<A>) -> (r: Vec<TimedWord<A>>)
        ensures
            Seq::new(r@.len(), |i: int| letters_key(r@[i]@)) == keys_without(self.keys(), letters_key(word@)),
    {
        let ghost ks = self.keys();
        let ghost k = letters_key(word@);
        let mut out: Vec<TimedWord<A>> = Vec::new();
        let mut i: usize = 0;
        while i < self.elems.len()
            invariant
                ks == self.keys(),
                k == letters_key(word@),
                i <= self.elems@.len(),
                Seq::new(out@.len(), |j: int| letters_key(out@[j]@)) == ks.take(i as int).filter(differs(k)),
            decreases self.elems@.len() - i,
        {
            let ghost before = Seq::new(out@.len(), |j: int| letters_key(out@[j]@));
            proof {
                assert(ks.take(i + 1) =~= ks.take(i as int).push(ks[i as int]));
                ks.take(i as int).lemma_filter_push(ks[i as int], differs(k));
            }
            if !self.elems[i].same_word(word) {
                out.push(self.elems[i].duplicate());
                assert(Seq::new(out@.len(), |j: int| letters_key(out@[j]@)) =~= before.push(ks[i as int]));
            } else {
                assert(Seq::new(out@.len(), |j: int| letters_key(out@[j]@)) =~= before);
            }
            i = i + 1;
        }
        assert(ks.take(i as int) =~= ks);
        out
    }

    /// Replace the basis words by `words`; `true` iff the keys changed.
    pub fn replace_with(&mut self, words: Vec<TimedWord<A>>) -> (changed: bool)
        ensures
            final(self).keys() == Seq::new(words@.len(), |i: int| letters_key(words@[i]@)),
            changed == (final(self).keys() != old(self).keys()),
    {
        let ghost new_keys = Seq::new(words@.len(), |i: int| letters_key(words@[i]@));
        let mut same = self.elems.len() == words.len();
        proof {
            if !same {
                assert(self.keys().len() != new_keys.len());
            }
        }
        let mut i: usize = 0;
        while i < words.len() && same
            invariant
                same ==> self.elems@.len() == words@.len(),
                !same ==> self.keys() != new_keys,
                new_keys == Seq::new(words@.len(), |i: int| letters_key(words@[i]@)),
                i <= words@.len(),
                same ==> forall|j: int| 0 <= j < i ==> self.keys()[j] == new_keys[j],
            decreases words@.len() - i,
        {
            if !self.elems[i].same_word(&words[i]) {
                same = false;
                assert(self.keys()[i as int] != new_keys[i as int]);
            }
            i = i + 1;
        }
        if same {
            assert(self.keys() =~= new_keys);
        }
        self.elems = words;
        assert(self.keys() =~= new_keys);
        !same
    }

    /// The number of basis words.
    pub fn len(&self) -> (n: usize)
        ensures
            n == self.keys().len(),
    {
        self.elems.len()
    }

    /// `true` iff there are no basis words.
    pub fn is_empty(&self) -> (b: bool)
        ensures
            b == (self.keys().len() == 0),
    {
        self.elems.len() == 0
    }
}

/// A single cohesion repair action.
#[derive(Debug, Clone, PartialEq, Eq)]
pub enum CohesionFix<A> {
    /// Repair basis-closedness by adding a witness sample to the basis words.
    AddBasisWord(TimedWord<A>),
    /// Repair minimality by removing a redundant basis word.
    RemoveBasisWord(TimedWord<A>),
    /// Repair evidence-closedness or distinctness by adding a sample prefix.
    AddSamplePrefix(TimedWord<A>),
}

/// Errors produced while checking cohesion conditions.
#[derive(Debug)]
#[non_exhaustive]
pub enum CohesionCheckError<A> {
    /// A required row is missing from the prefix samples.
    MissingRow {
        /// Word whose row was expected in the observation table.
        word: TimedWord<A>,
    },
    /// Row or decomposition length mismatch.
    LengthMismatch {
        /// Expected common row width.
        expected: usize,
        /// Encountered row width.
        found: usize,
    },
    /// Attempted to remove the empty word from the basis words.
    AttemptedToRemoveEpsilon,
    /// The basis words are empty, so decomposition-based checks cannot proceed.
    EmptyBasisWords,
    /// Unexpected decomposition issue.
    Decomposition(String),
}

/// The rows of the prefix samples with keys `bkeys`, in order.
pub open spec fn basis_rows_of<A: Symbol>(t: ObservationTable<A>, bkeys: Seq<WordKey>) -> Seq<Seq<bool>> {
    Seq::new(bkeys.len(), |i: int| t.row_for(bkeys[i]))
}

/// `true` iff row `r` is representable by `rows`: its closure is itself.
pub open spec fn representable_by(rows: Seq<Seq<bool>>, n: nat, r: Seq<bool>) -> bool {
    closure_of(rows, n, r) == r
}

/// `true` iff every prefix-sample row of `t` is representable by `rows`.
pub open spec fn all_representable<A: Symbol>(t: ObservationTable<A>, rows: Seq<Seq<bool>>) -> bool {
    forall|i: int|
        0 <= i < t.cells().len() ==> representable_by(rows, t.suffix_keys().len(), #[trigger] t.cells()[i])
}

/// `true` iff every key of `bkeys` is a prefix-sample key of `t`.
pub open spec fn all_samples<A: Symbol>(t: ObservationTable<A>, bkeys: Seq<WordKey>) -> bool {
    forall|i: int| 0 <= i < bkeys.len() ==> t.prefix_keys().contains(#[trigger] bkeys[i])
}

/// The error for a decomposition failure during a cohesion check.
fn map_decomposition_error<A>(err: DecompositionError) -> (r: CohesionCheckError<A>)
    ensures
        err matches DecompositionError::LengthMismatch { expected, found } ==> r matches CohesionCheckError::LengthMismatch {
            expected: e2,
            found: f2,
        } && e2 == expected && f2 == found,
        err is EmptyBasis ==> r is EmptyBasisWords,
        err is IndexOutOfBounds ==> r is Decomposition,
{
    match err {
        DecompositionError::LengthMismatch { expected, found } => CohesionCheckError::LengthMismatch { expected, found },
        DecompositionError::EmptyBasis => CohesionCheckError::EmptyBasisWords,
        DecompositionError::IndexOutOfBounds { index, len } => CohesionCheckError::Decomposition(
            index_error_text(index, len),
        ),
    }
}

/// The text of an index error: `index out of bounds: index {index}, len {len}`.
fn index_error_text(index: usize, len: usize) -> (r: String)
    ensures
        r@ == "index out of bounds: index "@ + decimal(index as nat) + ", len "@ + decimal(len as nat),
{
    let mut s = String::new();
    push_str(&mut s, "index out of bounds: index ");
    let a = decimal_string(index as u64);
    push_str(&mut s, a.as_str());
    push_str(&mut s, ", len ");
    let b = decimal_string(len as u64);
    push_str(&mut s, b.as_str());
    assert(s@ =~= "index out of bounds: index "@ + decimal(index as nat) + ", len "@ + decimal(len as nat));
    s
}

/// A decomposer over the rows of `words` in `table`: an error for the first
/// word that is not a prefix sample, or when there are no words.
fn build_decomposer_from_words<A: Symbol>(table: &ObservationTable<A>, words: &[TimedWord<A>]) -> (r: Result<
    BasisDecomposer,
    CohesionCheckError<A>,
>)
    requires
        table.wf(),
    ensures
        r matches Ok(d) ==> d.wf() && d.rows() == basis_rows_of(
            *table,
            Seq::new(words@.len(), |i: int| letters_key(words@[i]@)),
        ) && d.columns() == table.suffix_keys().len() && words@.len() > 0,
        r is Ok <==> words@.len() > 0 && all_samples(*table, Seq::new(words@.len(), |i: int| letters_key(words@[i]@))),
        r matches Err(CohesionCheckError::MissingRow { word }) ==> exists|i: int|
            0 <= i < words@.len() && letters_key(word@) == letters_key(#[trigger] words@[i]@)
                && !table.prefix_keys().contains(letters_key(words@[i]@)),
{
    let ghost bkeys = Seq::new(words@.len(), |i: int| letters_key(words@[i]@));
    let mut rows: Vec<RowVec> = Vec::new();
    let mut k: usize = 0;
    while k < words.len()
        invariant
            table.wf(),
            bkeys == Seq::new(words@.len(), |i: int| letters_key(words@[i]@)),
            k <= words@.len(),
            rows@.len() == k,
            forall|j: int| 0 <= j < k ==> table.prefix_keys().contains(#[trigger] bkeys[j]),
            forall|j: int| 0 <= j < k ==> (#[trigger] rows@[j])@ == table.row_for(bkeys[j]),
        decreases words@.len() - k,
    {
        match table.row_of(&words[k]) {
            Some(row) => {
                rows.push(row.duplicate());
            },
            None => {
                proof {
                    assert(!all_samples(*table, bkeys)) by {
                        assert(!table.prefix_keys().contains(bkeys[k as int]));
                    }
                }
                return Err(CohesionCheckError::MissingRow { word: words[k].duplicate() });
            },
        }
        k = k + 1;
    }
    if rows.len() == 0 {
        return Err(CohesionCheckError::EmptyBasisWords);
    }
    let ghost views = row_views(rows@);
    proof {
        assert(views =~= basis_rows_of(*table, bkeys));
        let n = table.suffix_keys().len();
        assert forall|j: int| 0 <= j < views.len() implies (#[trigger] views[j]).len() == n by {
            assert(table.prefix_keys().contains(bkeys[j]));
            lemma_row_for_width(*table, bkeys[j]);
        }
        assert(rows@[0]@ == views[0]);
    }
    match BasisDecomposer::new(rows) {
        Ok(d) => Ok(d),
        Err(e) => Err(map_decomposition_error(e)),
    }
}

/// `true` iff `i` is the first prefix sample of `t` whose row is not
/// representable by `rows`.
pub open spec fn first_unrepresentable<A: Symbol>(t: ObservationTable<A>, rows: Seq<Seq<bool>>, i: int) -> bool {
    &&& 0 <= i < t.cells().len()
    &&& !representable_by(rows, t.suffix_keys().len(), t.cells()[i])
    &&& forall|j: int| 0 <= j < i ==> representable_by(rows, t.suffix_keys().len(), #[trigger] t.cells()[j])
}

/// The first prefix sample whose row is not representable by the rows of
/// the basis words; errors when a basis word is not a prefix sample (the
/// first such word) or when there are no basis words.
fn checked_find_not_basis_closed<A: Symbol>(table: &ObservationTable<A>, basis_words: &BasisWords<A>) -> (r: Result<
    Option<TimedWord<A>>,
    CohesionCheckError<A>,
>)
    requires
        table.wf(),
    ensures
        r is Ok <==> basis_words.keys().len() > 0 && all_samples(*table, basis_words.keys()),
        r matches Ok(Some(w)) ==> exists|i: int|
            #[trigger] first_unrepresentable(*table, basis_rows_of(*table, basis_words.keys()), i) && letters_key(w@)
                == table.prefix_keys()[i],
        r matches Ok(None) ==> all_representable(*table, basis_rows_of(*table, basis_words.keys())),
{
    let words = basis_words.as_slice();
    proof {
        assert(Seq::new(words@.len(), |i: int| letters_key(words@[i]@)) =~= basis_words.keys());
    }
    let mut decomposer = match build_decomposer_from_words(table, words) {
        Ok(d) => d,
        Err(e) => {
            return Err(e);
        },
    };
    let ghost rows = basis_rows_of(*table, basis_words.keys());
    proof {
        lemma_wf_facts(*table);
    }
    let samples = table.sample_prefixes();
    let mut i: usize = 0;
    while i < samples.len()
        invariant
            basis_words.keys().len() > 0 && all_samples(*table, basis_words.keys()),
            rows == basis_rows_of(*table, basis_words.keys()),
            table.wf(),
            decomposer.wf(),
            decomposer.rows() == rows,
            decomposer.columns() == table.suffix_keys().len(),
            samples@.len() == table.prefix_keys().len(),
            table.cells().len() == table.prefix_keys().len(),
            forall|j: int| 0 <= j < samples@.len() ==> letters_key(#[trigger] samples@[j]@) == table.prefix_keys()[j],
            i <= samples@.len(),
            forall|j: int| 0 <= j < i ==> representable_by(rows, table.suffix_keys().len(), #[trigger] table.cells()[j]),
        decreases samples@.len() - i,
    {
        proof {
            lemma_row_for_index(*table, i as int);
            lemma_row_for_width(*table, table.prefix_keys()[i as int]);
        }
        let row = match table.row_of(&samples[i]) {
            Some(row) => row,
            None => {
                return Err(CohesionCheckError::MissingRow { word: samples[i].duplicate() });
            },
        };
        match decomposer.representable(row) {
            Ok(true) => {},
            Ok(false) => {
                proof {
                    assert(first_unrepresentable(*table, rows, i as int));
                }
                return Ok(Some(samples[i].duplicate()));
            },
            Err(e) => {
                return Err(map_decomposition_error(e));
            },
        }
        i = i + 1;
    }
    Ok(None)
}

/// The first prefix sample whose row is not representable by the basis rows,
/// or `None` when there is none or a check error occurs.
pub fn find_not_basis_closed<A: Symbol>(table: &ObservationTable<A>, basis_words: &BasisWords<A>) -> (r: Option<
    TimedWord<A>,
>)
    requires
        table.wf(),
    ensures
        r matches Some(w) ==> exists|i: int|
            #[trigger] first_unrepresentable(*table, basis_rows_of(*table, basis_words.keys()), i) && letters_key(w@)
                == table.prefix_keys()[i],
        r is None && basis_words.keys().len() > 0 && all_samples(*table, basis_words.keys()) ==> all_representable(
            *table,
            basis_rows_of(*table, basis_words.keys()),
        ),
{
    match checked_find_not_basis_closed(table, basis_words) {
        Ok(o) => o,
        Err(_) => None,
    }
}

/// The test `x != k` on keys.
pub open spec fn differs(k: WordKey) -> spec_fn(WordKey) -> bool {
    |x: WordKey| x != k
}

/// The keys of `bkeys` other than `k`, in order.
pub open spec fn keys_without(bkeys: Seq<WordKey>, k: WordKey) -> Seq<WordKey> {
    bkeys.filter(differs(k))
}

/// `true` iff basis word `i` of `bkeys` can be dropped: it is not the empty
/// word, other basis words remain, and their rows represent every
/// prefix-sample row.
pub open spec fn redundant_at<A: Symbol>(t: ObservationTable<A>, bkeys: Seq<WordKey>, i: int) -> bool {
    &&& 0 <= i < bkeys.len()
    &&& bkeys[i].len() > 0
    &&& keys_without(bkeys, bkeys[i]).len() > 0
    &&& all_representable(t, basis_rows_of(t, keys_without(bkeys, bkeys[i])))
}

/// The words of `words` whose key differs from the key of `words[skip]`, in order.
fn words_without<A: Symbol>(words: &[TimedWord<A>], skip: usize) -> (r: Vec<TimedWord<A>>)
    requires
        skip < words@.len(),
    ensures
        Seq::new(r@.len(), |i: int| letters_key(r@[i]@)) == keys_without(
            Seq::new(words@.len(), |i: int| letters_key(words@[i]@)),
            letters_key(words@[skip as int]@),
        ),
{
    let ghost ks = Seq::new(words@.len(), |i: int| letters_key(words@[i]@));
    let ghost k = letters_key(words@[skip as int]@);
    let mut out: Vec<TimedWord<A>> = Vec::new();
    let mut i: usize = 0;
    while i < words.len()
        invariant
            skip < words@.len(),
            ks == Seq::new(words@.len(), |i: int| letters_key(words@[i]@)),
            k == letters_key(words@[skip as int]@),
            i <= words@.len(),
            Seq::new(out@.len(), |j: int| letters_key(out@[j]@)) == ks.take(i as int).filter(differs(k)),
        decreases words@.len() - i,
    {
        let ghost before = Seq::new(out@.len(), |j: int| letters_key(out@[j]@));
        proof {
            assert(ks.take(i + 1) =~= ks.take(i as int).push(ks[i as int]));
            ks.take(i as int).lemma_filter_push(ks[i as int], differs(k));
        }
        if !words[i].same_word(&words[skip]) {
            out.push(words[i].duplicate());
            assert(Seq::new(out@.len(), |j: int| letters_key(out@[j]@)) =~= before.push(ks[i as int]));
        } else {
            assert(Seq::new(out@.len(), |j: int| letters_key(out@[j]@)) =~= before);
        }
        i = i + 1;
    }
    assert(ks.take(i as int) =~= ks);
    out
}

/// The first basis word that can be dropped; errors when a remaining basis
/// word is not a prefix sample.
pub(crate) fn checked_find_redundant_basis_word<A: Symbol>(table: &ObservationTable<A>, basis_words: &BasisWords<A>) -> (r: Result<
    Option<TimedWord<A>>,
    CohesionCheckError<A>,
>)
    requires
        table.wf(),
    ensures
        all_samples(*table, basis_words.keys()) ==> r is Ok,
        r is Err ==> !all_samples(*table, basis_words.keys()),
        r matches Ok(Some(w)) ==> exists|i: int|
            #[trigger] redundant_at(*table, basis_words.keys(), i) && letters_key(w@) == basis_words.keys()[i] && (
            forall|j: int| 0 <= j < i ==> !redundant_at(*table, basis_words.keys(), j)),
        r matches Ok(None) ==> forall|i: int|
            0 <= i < basis_words.keys().len() ==> !#[trigger] redundant_at(*table, basis_words.keys(), i),
{
    let words = basis_words.as_slice();
    let ghost bkeys = basis_words.keys();
    proof {
        assert(Seq::new(words@.len(), |i: int| letters_key(words@[i]@)) =~= bkeys);
    }
    let mut c: usize = 0;
    while c < words.len()
        invariant
            table.wf(),
            bkeys == basis_words.keys(),
            bkeys == Seq::new(words@.len(), |i: int| letters_key(words@[i]@)),
            c <= words@.len(),
            forall|j: int| 0 <= j < c ==> !redundant_at(*table, bkeys, j),
        decreases words@.len() - c,
    {
        if words[c].is_empty() {
            c = c + 1;
            continue;
        }
        let others = words_without(words, c);
        let ghost okeys = keys_without(bkeys, bkeys[c as int]);
        if others.len() == 0 {
            c = c + 1;
            continue;
        }
        let mut decomposer = match build_decomposer_from_words(table, others.as_slice()) {
            Ok(d) => d,
            Err(e) => {
                proof {
                    assert(!all_samples(*table, okeys));
                    assert(!all_samples(*table, bkeys)) by {
                        let i = choose|i: int| 0 <= i < okeys.len() && !table.prefix_keys().contains(#[trigger] okeys[i]);
                        assert(okeys.contains(okeys[i]));
                        bkeys.lemma_filter_contains_rev(differs(bkeys[c as int]), okeys[i]);
                        assert(bkeys.contains(okeys[i]));
                        let j = choose|j: int| 0 <= j < bkeys.len() && bkeys[j] == okeys[i];
                        assert(!table.prefix_keys().contains(bkeys[j]));
                    }
                }
                return Err(e);
            },
        };
        let ghost rows = basis_rows_of(*table, okeys);
        proof {
            lemma_wf_facts(*table);
        }
        let samples = table.sample_prefixes();
        let mut all_representable_so_far = true;
        let mut i: usize = 0;
        while i < samples.len() && all_representable_so_far
            invariant
                table.wf(),
                decomposer.wf(),
                decomposer.rows() == rows,
                decomposer.columns() == table.suffix_keys().len(),
                samples@.len() == table.prefix_keys().len(),
                table.cells().len() == table.prefix_keys().len(),
                forall|j: int| 0 <= j < samples@.len() ==> letters_key(#[trigger] samples@[j]@) == table.prefix_keys()[j],
                i <= samples@.len(),
                all_representable_so_far ==> forall|j: int|
                    0 <= j < i ==> representable_by(rows, table.suffix_keys().len(), #[trigger] table.cells()[j]),
                !all_representable_so_far ==> !all_representable(*table, rows),
            decreases samples@.len() - i + (if all_representable_so_far { 1int } else { 0int }),
        {
            proof {
                lemma_row_for_index(*table, i as int);
                lemma_row_for_width(*table, table.prefix_keys()[i as int]);
            }
            let row = match table.row_of(&samples[i]) {
                Some(row) => row,
                None => {
                    return Err(CohesionCheckError::MissingRow { word: samples[i].duplicate() });
                },
            };
            match decomposer.representable(row) {
                Ok(true) => {
                    i = i + 1;
                },
                Ok(false) => {
                    all_representable_so_far = false;
                },
                Err(e) => {
                    return Err(map_decomposition_error(e));
                },
            }
        }
        if all_representable_so_far {
            proof {
                assert(redundant_at(*table, bkeys, c as int));
            }
            return Ok(Some(words[c].duplicate()));
        }
        c = c + 1;
    }
    Ok(None)
}

/// The first basis word that can be dropped, or `None` when there is none or
/// a check error occurs.
pub fn find_redundant_basis_word<A: Symbol>(table: &ObservationTable<A>, basis_words: &BasisWords<A>) -> (r: Option<
    TimedWord<A>,
>)
    requires
        table.wf(),
    ensures
        r matches Some(w) ==> exists|i: int|
            #[trigger] redundant_at(*table, basis_words.keys(), i) && letters_key(w@) == basis_words.keys()[i],
        r is None && all_samples(*table, basis_words.keys()) ==> forall|i: int|
            0 <= i < basis_words.keys().len() ==> !#[trigger] redundant_at(*table, basis_words.keys(), i),
{
    match checked_find_redundant_basis_word(table, basis_words) {
        Ok(o) => o,
        Err(_) => None,
    }
}

/// The keys of `w` followed by timed letter `l`.
proof fn lemma_append_key<A: Symbol>(w: Seq<(A, DelayRep)>, l: (A, DelayRep))
    ensures
        letters_key(w.push(l)) == letters_key(w).push(letter_key(l)),
{
    assert(letters_key(w.push(l)) =~= letters_key(w).push(letter_key(l)));
}

/// `true` iff every basis word followed by every timed letter of the suffix
/// experiments is a prefix sample.
pub open spec fn evidence_closed<A: Symbol>(t: ObservationTable<A>, bkeys: Seq<WordKey>) -> bool {
    forall|i: int, a: int, j: int|
        0 <= i < bkeys.len() && 0 <= a < t.suffix_words().len() && 0 <= j < t.suffix_words()[a]@.len()
            ==> t.prefix_keys().contains(#[trigger] bkeys[i].push(letter_key(#[trigger] t.suffix_words()[a]@[j])))
}

/// A basis word followed by a timed letter of the suffix experiments that is
/// not a prefix sample: the witness that `find_not_evidence_closed` returns.
pub open spec fn evidence_witness<A: Symbol>(t: ObservationTable<A>, bkeys: Seq<WordKey>, w: WordKey) -> bool {
    exists|i: int, l: (A, DelayRep)|
        0 <= i < bkeys.len() && occurs_in(t.suffix_words(), l) && w == #[trigger] bkeys[i].push(#[trigger] letter_key(l))
            && !t.prefix_keys().contains(w)
}

/// A basis word followed by a timed letter of the suffix experiments that is
/// not a prefix sample, or `None` when every such extension is one.
pub fn find_not_evidence_closed<A: Symbol>(table: &ObservationTable<A>, basis_words: &BasisWords<A>) -> (r: Option<
    TimedWord<A>,
>)
    requires
        table.wf(),
    ensures
        r matches Some(w) ==> evidence_witness(*table, basis_words.keys(), letters_key(w@)),
        r is None ==> evidence_closed(*table, basis_words.keys()),
{
    let ghost bkeys = basis_words.keys();
    let words = basis_words.as_slice();
    let letters = table.ordered_experiment_timed_letters();
    let mut b: usize = 0;
    while b < words.len()
        invariant
            table.wf(),
            bkeys == basis_words.keys(),
            words@.len() == bkeys.len(),
            forall|i: int| 0 <= i < words@.len() ==> letters_key(#[trigger] words@[i]@) == bkeys[i],
            forall|a: int, j: int|
                0 <= a < table.suffix_words().len() && 0 <= j < table.suffix_words()[a]@.len() ==> contains_letter_key(
                    letters@,
                    #[trigger] table.suffix_words()[a]@[j],
                ),
            forall|k: int| 0 <= k < letters@.len() ==> occurs_in(table.suffix_words(), #[trigger] letters@[k]),
            b <= words@.len(),
            forall|i: int, k: int|
                0 <= i < b && 0 <= k < letters@.len() ==> table.prefix_keys().contains(
                    #[trigger] bkeys[i].push(letter_key(#[trigger] letters@[k])),
                ),
        decreases words@.len() - b,
    {
        let mut k: usize = 0;
        while k < letters.len()
            invariant
                table.wf(),
                bkeys == basis_words.keys(),
                words@.len() == bkeys.len(),
                b < words@.len(),
                forall|i: int| 0 <= i < words@.len() ==> letters_key(#[trigger] words@[i]@) == bkeys[i],
                forall|k2: int| 0 <= k2 < letters@.len() ==> occurs_in(table.suffix_words(), #[trigger] letters@[k2]),
                k <= letters@.len(),
                forall|i: int, k2: int|
                    0 <= i < b && 0 <= k2 < letters@.len() ==> table.prefix_keys().contains(
                        #[trigger] bkeys[i].push(letter_key(#[trigger] letters@[k2])),
                    ),
                forall|k2: int| 0 <= k2 < k ==> table.prefix_keys().contains(bkeys[b as int].push(letter_key(#[trigger] letters@[k2]))),
            decreases letters@.len() - k,
        {
            let l = copy_letter(&letters[k]);
            let witness = words[b].append_letter(l);
            proof {
                lemma_append_key(words@[b as int]@, l);
            }
            if !table.contains_sample_prefix(&witness) {
                proof {
                    assert(occurs_in(table.suffix_words(), letters@[k as int]));
                    assert(evidence_witness(*table, bkeys, letters_key(witness@)));
                }
                return Some(witness);
            }
            k = k + 1;
        }
        b = b + 1;
    }
    proof {
        assert forall|i: int, a: int, j: int|
            0 <= i < bkeys.len() && 0 <= a < table.suffix_words().len() && 0 <= j < table.suffix_words()[a]@.len()
            implies table.prefix_keys().contains(#[trigger] bkeys[i].push(letter_key(#[trigger] table.suffix_words()[a]@[j]))) by {
            assert(contains_letter_key(letters@, table.suffix_words()[a]@[j]));
            let k = choose|k: int| 0 <= k < letters@.len() && letter_key(#[trigger] letters@[k]) == letter_key(table.suffix_words()[a]@[j]);
            assert(table.prefix_keys().contains(bkeys[i].push(letter_key(letters@[k]))));
        }
    }
    None
}

/// `true` iff for every timed letter of the table words that extends some
/// prefix sample into a prefix sample, every basis word extends by it into a
/// prefix sample too.
pub open spec fn distinct_closed<A: Symbol>(t: ObservationTable<A>, bkeys: Seq<WordKey>) -> bool {
    forall|a: int, j: int|
        0 <= a < t.table_words().len() && 0 <= j < t.table_words()[a]@.len() ==> ((exists|p: int|
            0 <= p < t.prefix_keys().len() && t.prefix_keys().contains(
                #[trigger] t.prefix_keys()[p].push(letter_key(t.table_words()[a]@[j])),
            )) ==> forall|i: int|
            0 <= i < bkeys.len() ==> t.prefix_keys().contains(
                #[trigger] bkeys[i].push(letter_key(#[trigger] t.table_words()[a]@[j])),
            ))
}

/// A basis word followed by a timed letter `l` of the table words that is not
/// a prefix sample although some prefix sample followed by `l` is one.
pub open spec fn distinct_witness<A: Symbol>(t: ObservationTable<A>, bkeys: Seq<WordKey>, w: WordKey) -> bool {
    exists|i: int, l: (A, DelayRep), p: int|
        0 <= i < bkeys.len() && occurs_in(t.table_words(), l) && 0 <= p < t.prefix_keys().len() && t.prefix_keys().contains(
            #[trigger] t.prefix_keys()[p].push(letter_key(l)),
        ) && w == #[trigger] bkeys[i].push(letter_key(l)) && !t.prefix_keys().contains(w)
}

/// Some prefix sample followed by `l` is a prefix sample.
fn has_sample_successor<A: Symbol>(table: &ObservationTable<A>, l: &(A, DelayRep)) -> (b: bool)
    requires
        table.wf(),
    ensures
        b == exists|p: int|
            0 <= p < table.prefix_keys().len() && table.prefix_keys().contains(
                #[trigger] table.prefix_keys()[p].push(letter_key(*l)),
            ),
{
    let samples = table.sample_prefixes();
    let mut p: usize = 0;
    while p < samples.len()
        invariant
            table.wf(),
            samples@.len() == table.prefix_keys().len(),
            forall|j: int| 0 <= j < samples@.len() ==> letters_key(#[trigger] samples@[j]@) == table.prefix_keys()[j],
            p <= samples@.len(),
            forall|q: int| 0 <= q < p ==> !table.prefix_keys().contains(#[trigger] table.prefix_keys()[q].push(letter_key(*l))),
        decreases samples@.len() - p,
    {
        let successor = samples[p].append_letter(copy_letter(l));
        proof {
            lemma_append_key(samples@[p as int]@, *l);
        }
        if table.contains_sample_prefix(&successor) {
            return true;
        }
        p = p + 1;
    }
    false
}

/// A missing one-letter extension of a basis word by a timed letter that
/// extends some prefix sample into a prefix sample, or `None` when there is
/// none.
pub fn find_not_distinct<A: Symbol>(table: &ObservationTable<A>, basis_words: &BasisWords<A>) -> (r: Option<
    TimedWord<A>,
>)
    requires
        table.wf(),
    ensures
        r matches Some(w) ==> distinct_witness(*table, basis_words.keys(), letters_key(w@)),
        r is None ==> distinct_closed(*table, basis_words.keys()),
{
    let ghost bkeys = basis_words.keys();
    let words = basis_words.as_slice();
    let letters = table.ordered_timed_letters();
    let mut k: usize = 0;
    while k < letters.len()
        invariant
            table.wf(),
            bkeys == basis_words.keys(),
            words@.len() == bkeys.len(),
            forall|i: int| 0 <= i < words@.len() ==> letters_key(#[trigger] words@[i]@) == bkeys[i],
            forall|a: int, j: int|
                0 <= a < table.table_words().len() && 0 <= j < table.table_words()[a]@.len() ==> contains_letter_key(
                    letters@,
                    #[trigger] table.table_words()[a]@[j],
                ),
            forall|k2: int| 0 <= k2 < letters@.len() ==> occurs_in(table.table_words(), #[trigger] letters@[k2]),
            k <= letters@.len(),
            forall|k2: int|
                0 <= k2 < k ==> ((exists|p: int|
                    0 <= p < table.prefix_keys().len() && table.prefix_keys().contains(
                        #[trigger] table.prefix_keys()[p].push(letter_key(letters@[k2])),
                    )) ==> forall|i: int|
                    0 <= i < bkeys.len() ==> table.prefix_keys().contains(
                        #[trigger] bkeys[i].push(letter_key(#[trigger] letters@[k2])),
                    )),
        decreases letters@.len() - k,
    {
        if has_sample_successor(table, &letters[k]) {
            let mut b: usize = 0;
            while b < words.len()
                invariant
                    table.wf(),
                    bkeys == basis_words.keys(),
                    words@.len() == bkeys.len(),
                    forall|i: int| 0 <= i < words@.len() ==> letters_key(#[trigger] words@[i]@) == bkeys[i],
                    k < letters@.len(),
                    forall|k2: int| 0 <= k2 < letters@.len() ==> occurs_in(table.table_words(), #[trigger] letters@[k2]),
                    exists|p: int|
                        0 <= p < table.prefix_keys().len() && table.prefix_keys().contains(
                            #[trigger] table.prefix_keys()[p].push(letter_key(letters@[k as int])),
                        ),
                    b <= words@.len(),
                    forall|i: int| 0 <= i < b ==> table.prefix_keys().contains(#[trigger] bkeys[i].push(letter_key(letters@[k as int]))),
                decreases words@.len() - b,
            {
                let l = copy_letter(&letters[k]);
                let candidate = words[b].append_letter(l);
                proof {
                    lemma_append_key(words@[b as int]@, l);
                }
                if !table.contains_sample_prefix(&candidate) {
                    proof {
                        let p = choose|p: int|
                            0 <= p < table.prefix_keys().len() && table.prefix_keys().contains(
                                #[trigger] table.prefix_keys()[p].push(letter_key(letters@[k as int])),
                            );
                        assert(occurs_in(table.table_words(), letters@[k as int]));
                        assert(distinct_witness(*table, bkeys, letters_key(candidate@)));
                    }
                    return Some(candidate);
                }
                b = b + 1;
            }
        }
        k = k + 1;
    }
    proof {
        assert forall|a: int, j: int|
            0 <= a < table.table_words().len() && 0 <= j < table.table_words()[a]@.len() implies ((exists|p: int|
                0 <= p < table.prefix_keys().len() && table.prefix_keys().contains(
                    #[trigger] table.prefix_keys()[p].push(letter_key(table.table_words()[a]@[j])),
                )) ==> forall|i: int|
                0 <= i < bkeys.len() ==> table.prefix_keys().contains(
                    #[trigger] bkeys[i].push(letter_key(#[trigger] table.table_words()[a]@[j])),
                )) by {
            assert(contains_letter_key(letters@, table.table_words()[a]@[j]));
            let k2 = choose|k2: int| 0 <= k2 < letters@.len() && letter_key(#[trigger] letters@[k2]) == letter_key(table.table_words()[a]@[j]);
            assert(letter_key(letters@[k2]) == letter_key(table.table_words()[a]@[j]));
        }
    }
    None
}

/// The table is cohesive for basis words `bkeys`: every prefix-sample row is
/// representable by the basis rows, no basis word can be dropped, and the
/// table is evidence-closed and distinct.
pub open spec fn cohesive<A: Symbol>(t: ObservationTable<A>, bkeys: Seq<WordKey>) -> bool {
    &&& all_representable(t, basis_rows_of(t, bkeys))
    &&& forall|i: int| 0 <= i < bkeys.len() ==> !#[trigger] redundant_at(t, bkeys, i)
    &&& evidence_closed(t, bkeys)
    &&& distinct_closed(t, bkeys)
}

/// The first applicable cohesion fix, in check order: a prefix sample that
/// is not representable is added to the basis, a redundant basis word is
/// removed, and a missing evidence or distinctness extension is added as a
/// prefix sample. `None` exactly when the table is cohesive.
pub fn next_cohesion_fix<A: Symbol>(table: &ObservationTable<A>, basis_words: &BasisWords<A>) -> (r: Result<
    Option<CohesionFix<A>>,
    CohesionCheckError<A>,
>)
    requires
        table.wf(),
    ensures
        r is Ok <==> basis_words.keys().len() > 0 && all_samples(*table, basis_words.keys()),
        r matches Ok(Some(CohesionFix::AddBasisWord(w))) ==> exists|i: int|
            #[trigger] first_unrepresentable(*table, basis_rows_of(*table, basis_words.keys()), i) && letters_key(w@)
                == table.prefix_keys()[i],
        r matches Ok(Some(CohesionFix::RemoveBasisWord(w))) ==> all_representable(
            *table,
            basis_rows_of(*table, basis_words.keys()),
        ) && exists|i: int|
            #[trigger] redundant_at(*table, basis_words.keys(), i) && letters_key(w@) == basis_words.keys()[i] && (
            forall|j: int| 0 <= j < i ==> !redundant_at(*table, basis_words.keys(), j)),
        r matches Ok(Some(CohesionFix::AddSamplePrefix(w))) ==> all_representable(
            *table,
            basis_rows_of(*table, basis_words.keys()),
        ) && (forall|i: int| 0 <= i < basis_words.keys().len() ==> !#[trigger] redundant_at(*table, basis_words.keys(), i))
            && (evidence_witness(*table, basis_words.keys(), letters_key(w@)) || (evidence_closed(
            *table,
            basis_words.keys(),
        ) && distinct_witness(*table, basis_words.keys(), letters_key(w@)))),
        r matches Ok(None) ==> cohesive(*table, basis_words.keys()),
{
    match checked_find_not_basis_closed(table, basis_words) {
        Ok(Some(w)) => {
            return Ok(Some(CohesionFix::AddBasisWord(w)));
        },
        Ok(None) => {},
        Err(e) => {
            return Err(e);
        },
    }
    match checked_find_redundant_basis_word(table, basis_words) {
        Ok(Some(w)) => {
            return Ok(Some(CohesionFix::RemoveBasisWord(w)));
        },
        Ok(None) => {},
        Err(e) => {
            return Err(e);
        },
    }
    if let Some(w) = find_not_evidence_closed(table, basis_words) {
        return Ok(Some(CohesionFix::AddSamplePrefix(w)));
    }
    if let Some(w) = find_not_distinct(table, basis_words) {
        return Ok(Some(CohesionFix::AddSamplePrefix(w)));
    }
    Ok(None)
}

/// Apply one cohesion fix: add a basis word (first adding it and its
/// prefixes as prefix samples when it is not one), remove a basis word
/// (never the empty word), or add a prefix sample with its prefixes.
pub fn apply_fix<A: Symbol, O: MembershipOracle<Symbol = A>>(
    table: &mut ObservationTable<A>,
    basis_words: &mut BasisWords<A>,
    fix: CohesionFix<A>,
    mq: &mut O,
) -> (r: Result<(), TableQueryError<O::Error>>)
    requires
        old(table).wf(),
    ensures
        final(table).wf(),
        final(mq).language() == old(mq).language(),
        final(mq).never_fails() == old(mq).never_fails(),
        old(mq).never_fails() ==> r is Ok,
        r is Ok ==> final(table).suffix_keys() == old(table).suffix_keys(),
        r is Ok ==> (old(table).filled_by(old(mq).language()) ==> final(table).filled_by(old(mq).language())),
        fix matches CohesionFix::AddBasisWord(w) && old(table).prefix_keys().contains(letters_key(w@)) ==> r is Ok
            && *final(table) == *old(table),
        fix matches CohesionFix::AddBasisWord(w) ==> (r is Ok ==> final(table).prefix_keys() == (if old(
            table,
        ).prefix_keys().contains(letters_key(w@)) {
            old(table).prefix_keys()
        } else {
            add_missing(old(table).prefix_keys(), prefix_keys_of(letters_key(w@)))
        }) && final(basis_words).keys() == (if old(basis_words).keys().contains(letters_key(w@)) {
            old(basis_words).keys()
        } else {
            old(basis_words).keys().push(letters_key(w@))
        })),
        fix matches CohesionFix::RemoveBasisWord(w) ==> r is Ok && *final(table) == *old(table) && (letters_key(w@).len()
            == 0 ==> final(basis_words).keys() == old(basis_words).keys()) && (letters_key(w@).len() > 0 && old(
            basis_words,
        ).keys().contains(letters_key(w@)) ==> exists|i: int|
            0 <= i < old(basis_words).keys().len() && old(basis_words).keys()[i] == letters_key(w@) && (forall|j: int|
                0 <= j < i ==> old(basis_words).keys()[j] != letters_key(w@)) && #[trigger] final(basis_words).keys()
                == old(basis_words).keys().remove(i)) && (!old(basis_words).keys().contains(letters_key(w@))
            ==> final(basis_words).keys() == old(basis_words).keys()),
        fix matches CohesionFix::AddSamplePrefix(w) ==> final(basis_words).keys() == old(basis_words).keys() && (r is Ok
            ==> final(table).prefix_keys() == add_missing(old(table).prefix_keys(), prefix_keys_of(letters_key(w@)))),
{
    match fix {
        CohesionFix::AddBasisWord(word) => {
            if !table.contains_sample_prefix(&word) {
                let copy = word.duplicate();
                match table.insert_sample_prefixes(copy, mq) {
                    Ok(()) => {},
                    Err(e) => {
                        return Err(e);
                    },
                }
            }
            basis_words.insert(word);
            Ok(())
        },
        CohesionFix::RemoveBasisWord(word) => {
            if word.is_empty() {
                proof {
                    assert(letters_key(word@).len() == 0);
                }
                return Ok(());
            }
            basis_words.remove(&word);
            Ok(())
        },
        CohesionFix::AddSamplePrefix(word) => table.insert_sample_prefixes(word, mq),
    }
}

/// Errors produced by one cohesion-repair step.
#[derive(Debug)]
pub enum CohesionStepError<A, E> {
    /// A cohesion check failed.
    Check(CohesionCheckError<A>),
    /// Filling the observation table failed while applying a fix.
    TableQuery(TableQueryError<E>),
    /// Basis minimization failed while selecting a new basis.
    BasisMinimization(BasisMinimizationError),
}

/// `t1` is `t0` after one additive repair for basis keys `bkeys`: a missing
/// evidence extension, or, when there is none, a missing distinctness
/// extension, added with its prefixes as prefix samples.
pub open spec fn additive_repair<A: Symbol>(t0: ObservationTable<A>, t1: ObservationTable<A>, bkeys: Seq<WordKey>) -> bool {
    exists|w: WordKey|
        (evidence_witness(t0, bkeys, w) || (evidence_closed(t0, bkeys) && distinct_witness(t0, bkeys, w)))
            && t1.prefix_keys() == #[trigger] add_missing(t0.prefix_keys(), prefix_keys_of(w))
}

/// Adding the prefixes of a key that is not there changes the keys.
proof fn lemma_add_missing_grows(keys: Seq<WordKey>, w: WordKey)
    requires
        !keys.contains(w),
    ensures
        add_missing(keys, prefix_keys_of(w)).len() > keys.len(),
{
    crate::observation_table::lemma_add_missing(keys, prefix_keys_of(w));
    assert(prefix_keys_of(w)[w.len() as int] =~= w);
    assert(prefix_keys_of(w).contains(w));
    assert(add_missing(keys, prefix_keys_of(w)).contains(w));
    if add_missing(keys, prefix_keys_of(w)).len() == keys.len() {
        assert(add_missing(keys, prefix_keys_of(w)) =~= add_missing(keys, prefix_keys_of(w)).take(keys.len() as int));
    }
}

/// One additive repair: add the first missing evidence extension as a
/// prefix sample, or else the first missing distinctness extension; `false`
/// when the table is evidence-closed and distinct, leaving it unchanged.
pub fn additive_repair_step<A: Symbol, O: MembershipOracle<Symbol = A>>(
    table: &mut ObservationTable<A>,
    basis_words: &BasisWords<A>,
    mq: &mut O,
) -> (r: Result<bool, TableQueryError<O::Error>>)
    requires
        old(table).wf(),
    ensures
        final(table).wf(),
        final(mq).language() == old(mq).language(),
        final(mq).never_fails() == old(mq).never_fails(),
        old(mq).never_fails() ==> r is Ok,
        r matches Ok(true) ==> additive_repair(*old(table), *final(table), basis_words.keys())
            && final(table).prefix_keys().len() > old(table).prefix_keys().len()
            && final(table).suffix_keys() == old(table).suffix_keys() && (old(table).filled_by(old(mq).language())
            ==> final(table).filled_by(old(mq).language())),
        r matches Ok(false) ==> evidence_closed(*old(table), basis_words.keys()) && distinct_closed(
            *old(table),
            basis_words.keys(),
        ) && *final(table) == *old(table),
        r is Err ==> !(evidence_closed(*old(table), basis_words.keys()) && distinct_closed(
            *old(table),
            basis_words.keys(),
        )),
{
    let ghost bkeys = basis_words.keys();
    let ghost t0 = *table;
    let witness = match find_not_evidence_closed(table, basis_words) {
        Some(w) => Some(w),
        None => find_not_distinct(table, basis_words),
    };
    match witness {
        None => Ok(false),
        Some(w) => {
            let ghost k = letters_key(w@);
            proof {
                lemma_add_missing_grows(t0.prefix_keys(), k);
            }
            match table.insert_sample_prefixes(w, mq) {
                Ok(()) => {
                    assert(additive_repair(t0, *table, bkeys)) by {
                        assert(table.prefix_keys() == add_missing(t0.prefix_keys(), prefix_keys_of(k)));
                    }
                    Ok(true)
                },
                Err(e) => Err(e),
            }
        },
    }
}

/// `true` iff the prefix samples or the basis words differ between two
/// states of a repair step.
pub open spec fn step_changed<A: Symbol>(
    t0: ObservationTable<A>,
    t1: ObservationTable<A>,
    b0: Seq<WordKey>,
    b1: Seq<WordKey>,
) -> bool {
    t1.prefix_keys() != t0.prefix_keys() || b1 != b0
}

/// Check and apply at most one cohesion fix, with `basis_minimizer` run in
/// its phase: a prefix sample whose row is not representable is added to the
/// basis; otherwise the minimizer may replace the basis, or one additive
/// repair is made. `Ok(true)` exactly when the prefix samples or the basis
/// words changed.
pub fn make_cohesive_step<A: Symbol, O: MembershipOracle<Symbol = A>, M: BasisMinimizer<A>>(
    table: &mut ObservationTable<A>,
    basis_words: &mut BasisWords<A>,
    basis_minimizer: &M,
    mq: &mut O,
) -> (r: Result<bool, CohesionStepError<A, O::Error>>)
    requires
        old(table).wf(),
    ensures
        final(table).wf(),
        final(mq).language() == old(mq).language(),
        final(mq).never_fails() == old(mq).never_fails(),
        old(mq).never_fails() ==> !(r matches Err(CohesionStepError::TableQuery(_))),
        r is Ok ==> final(table).suffix_keys() == old(table).suffix_keys() && (old(table).filled_by(old(mq).language())
            ==> final(table).filled_by(old(mq).language())),
        (r matches Err(CohesionStepError::Check(_))) <==> !(old(basis_words).keys().len() > 0 && all_samples(
            *old(table),
            old(basis_words).keys(),
        )),
        r matches Err(CohesionStepError::Check(_)) ==> *final(table) == *old(table) && final(basis_words).keys() == old(
            basis_words,
        ).keys(),
        r matches Err(CohesionStepError::BasisMinimization(e)) ==> basis_minimizer.may_fail_with(
            *old(table),
            old(basis_words).keys(),
            e,
        ),
        r matches Ok(c) ==> (c <==> step_changed(
            *old(table),
            *final(table),
            old(basis_words).keys(),
            final(basis_words).keys(),
        )),
        old(basis_words).keys().len() > 0 && all_samples(*old(table), old(basis_words).keys()) && !all_representable(
            *old(table),
            basis_rows_of(*old(table), old(basis_words).keys()),
        ) ==> r is Ok && *final(table) == *old(table) && exists|i: int|
            #[trigger] first_unrepresentable(*old(table), basis_rows_of(*old(table), old(basis_words).keys()), i)
                && final(basis_words).keys() == (if old(basis_words).keys().contains(old(table).prefix_keys()[i]) {
                old(basis_words).keys()
            } else {
                old(basis_words).keys().push(old(table).prefix_keys()[i])
            }),
        r matches Ok(false) ==> *final(table) == *old(table) && final(basis_words).keys() == old(basis_words).keys()
            && all_representable(*old(table), basis_rows_of(*old(table), old(basis_words).keys())),
        r is Ok && all_representable(*old(table), basis_rows_of(*old(table), old(basis_words).keys())) ==> *final(table)
            == *old(table) || (final(basis_words).keys() == old(basis_words).keys() && additive_repair(
            *old(table),
            *final(table),
            old(basis_words).keys(),
        )),
{
    let ghost t0 = *table;
    let ghost b0 = basis_words.keys();
    match checked_find_not_basis_closed(table, basis_words) {
        Err(e) => {
            return Err(CohesionStepError::Check(e));
        },
        Ok(Some(w)) => {
            let ghost k = letters_key(w@);
            proof {
                let i = choose|i: int|
                    #[trigger] first_unrepresentable(t0, basis_rows_of(t0, b0), i) && k == t0.prefix_keys()[i];
                lemma_wf_facts(t0);
                assert(t0.prefix_keys().contains(t0.prefix_keys()[i]));
            }
            let s0 = table.sample_prefixes();
            let samples_before = s0.len();
            proof {
                assert(word_keys(s0@).len() == s0@.len());
            }
            let basis_before = basis_words.len();
            match apply_fix(table, basis_words, CohesionFix::AddBasisWord(w), mq) {
                Ok(()) => {},
                Err(e) => {
                    return Err(CohesionStepError::TableQuery(e));
                },
            }
            let s1 = table.sample_prefixes();
            proof {
                assert(word_keys(s1@).len() == s1@.len());
                let i = choose|i: int|
                    #[trigger] first_unrepresentable(t0, basis_rows_of(t0, b0), i) && k == t0.prefix_keys()[i];
                lemma_row_for_index(t0, i);
                if b0.contains(k) {
                    let j = choose|j: int| 0 <= j < b0.len() && b0[j] == k;
                    let rows = basis_rows_of(t0, b0);
                    assert(rows[j] == t0.cells()[i]);
                    lemma_closure_of_member(rows, t0.suffix_keys().len(), j);
                }
            }
            let changed = s1.len() != samples_before || basis_words.len() != basis_before;
            return Ok(changed);
        },
        Ok(None) => {},
    }
    if let BasisReductionPhase::BeforeAdditiveRepairs = basis_minimizer.phase() {
        match basis_minimizer.minimize_basis(table, basis_words) {
            Err(e) => {
                return Err(CohesionStepError::BasisMinimization(e));
            },
            Ok(Some(words)) => {
                let changed = basis_words.replace_with(words);
                return Ok(changed);
            },
            Ok(None) => {},
        }
    }
    match additive_repair_step(table, basis_words, mq) {
        Err(e) => {
            return Err(CohesionStepError::TableQuery(e));
        },
        Ok(true) => {
            return Ok(true);
        },
        Ok(false) => {},
    }
    if let BasisReductionPhase::AfterAdditiveRepairs = basis_minimizer.phase() {
        match basis_minimizer.minimize_basis(table, basis_words) {
            Err(e) => {
                return Err(CohesionStepError::BasisMinimization(e));
            },
            Ok(Some(words)) => {
                let changed = basis_words.replace_with(words);
                return Ok(changed);
            },
            Ok(None) => {},
        }
    }
    Ok(false)
}

} // verus!
