//! Evidence automaton built from a cohesive observation table.
//!
//! Each state stands for one distinct basis row; basis words with equal rows
//! share a state, represented by the first of them. The initial formula and
//! each transition are the decomposition formulas of the corresponding rows.

use vstd::prelude::*;

use crate::cohesion::{all_samples, basis_rows_of, BasisWords};
use crate::decomposition::{
    bmentions, decomposition_of, lemma_decomposition_vars, row_views, BasisDecomposer, BasisFormula, BasisModel,
    DecompositionError,
};
use crate::hypothesis_arta::AfaStateId;
use crate::observation_table::{lemma_row_for_width, lemma_wf_facts, word_keys, ObservationTable};
use crate::oracles::membership::WordKey;
use crate::rowvec::RowVec;
use crate::symbol::Symbol;
use crate::time::delay::DelayRep;
use crate::timed_word::{contains_letter_key, copy_letter, letter_key, letters_key, occurs_in, TimedWord};

verus! {

/// Errors produced while building an [`EvidenceAfa`].
#[derive(Debug)]
#[non_exhaustive]
pub enum EvidenceAfaError<A> {
    /// The empty word is missing from the prefix samples.
    MissingEpsilonInS,
    /// The empty-word column is missing from the suffix experiments.
    MissingEpsilonColumn,
    /// A required row is missing from the table.
    MissingRow {
        /// Word whose row was expected in the observation table.
        word: TimedWord<A>,
    },
    /// A required extension `rep . sigma` is missing from the prefix samples.
    MissingDistinctExtension {
        /// Representative basis word whose extension is required.
        rep: TimedWord<A>,
        /// Timed letter appended to the representative.
        sigma: (A, DelayRep),
    },
    /// Length mismatch between structures that must agree.
    LengthMismatch {
        /// Expected common width or state count.
        expected: usize,
        /// Encountered width or state count.
        found: usize,
    },
    /// Any other decomposition failure.
    Decomposition(DecompositionError),
}

/// The error for a decomposition failure: a length mismatch keeps its
/// numbers, anything else is wrapped.
pub fn evidence_error_from_decomposition<A>(value: DecompositionError) -> (r: EvidenceAfaError<A>)
    ensures
        value matches DecompositionError::LengthMismatch { expected, found } ==> r matches EvidenceAfaError::LengthMismatch {
            expected: e2,
            found: f2,
        } && e2 == expected && f2 == found,
        !(value is LengthMismatch) ==> r == EvidenceAfaError::<A>::Decomposition(value),
{
    match value {
        DecompositionError::LengthMismatch { expected, found } => EvidenceAfaError::LengthMismatch { expected, found },
        other => EvidenceAfaError::Decomposition(other),
    }
}

/// A shaped automaton has one acceptance flag and one representative per
/// state.
pub proof fn lemma_shaped_lengths<A: Symbol>(a: EvidenceAfa<A>)
    requires
        a.shaped(),
    ensures
        a.accepting_states().len() == a.rows().len(),
        a.rep_keys().len() == a.rows().len(),
{
}

/// No two letters of `l` share a symbol and a delay.
pub open spec fn letters_distinct<A: Symbol>(l: Seq<(A, DelayRep)>) -> bool {
    forall|x: int, y: int| 0 <= x < y < l.len() ==> letter_key(#[trigger] l[x]) != letter_key(#[trigger] l[y])
}

/// The positions of the first occurrences of the distinct rows of `rows`,
/// in increasing order.
pub open spec fn first_indices(rows: Seq<Seq<bool>>) -> Seq<int>
    decreases rows.len(),
{
    if rows.len() == 0 {
        Seq::empty()
    } else {
        let f = first_indices(rows.drop_last());
        if rows.drop_last().contains(rows[rows.len() - 1]) {
            f
        } else {
            f.push(rows.len() - 1)
        }
    }
}

/// Evidence automaton over basis formulas.
#[derive(Debug)]
pub struct EvidenceAfa<A: Symbol> {
    basis_rows: Vec<RowVec>,
    representatives: Vec<TimedWord<A>>,
    alphabet: Vec<(A, DelayRep)>,
    initial_formula: BasisFormula,
    accepting: Vec<bool>,
    transition_table: Vec<Vec<BasisFormula>>,
}

impl<A: Symbol> EvidenceAfa<A> {
    /// The distinct basis rows, one per state.
    pub closed spec fn rows(&self) -> Seq<Seq<bool>> {
        row_views(self.basis_rows@)
    }

    /// The keys of the state representatives.
    pub closed spec fn rep_keys(&self) -> Seq<WordKey> {
        Seq::new(self.representatives@.len(), |i: int| letters_key(self.representatives@[i]@))
    }

    /// The timed-letter alphabet.
    pub closed spec fn letters(&self) -> Seq<(A, DelayRep)> {
        self.alphabet@
    }

    /// The initial formula's view.
    pub closed spec fn init_model(&self) -> BasisModel {
        self.initial_formula@
    }

    /// Every basis variable of the initial formula and of the transition
    /// targets indexes a state.
    pub open spec fn vars_in_range(&self) -> bool {
        &&& forall|i: usize| #[trigger] bmentions(self.init_model(), i) ==> i < self.rows().len()
        &&& forall|q: int, m: int, i: usize|
            0 <= q < self.rows().len() && 0 <= m < self.letters().len() && #[trigger] bmentions(self.delta(q, m), i)
                ==> i < self.rows().len()
    }

    /// Which states accept.
    pub closed spec fn accepting_states(&self) -> Seq<bool> {
        self.accepting@
    }

    /// The view of the transition of state `q` on letter number `a`.
    pub closed spec fn delta(&self, q: int, a: int) -> BasisModel {
        self.transition_table@[q]@[a]@
    }

    /// The automaton's shape: one representative, one acceptance flag and
    /// one transition row per state, each with one target per letter.
    pub closed spec fn shaped(&self) -> bool {
        &&& self.representatives@.len() == self.basis_rows@.len()
        &&& self.accepting@.len() == self.basis_rows@.len()
        &&& self.transition_table@.len() == self.basis_rows@.len()
        &&& forall|q: int| 0 <= q < self.transition_table@.len() ==> (#[trigger] self.transition_table@[q])@.len()
            == self.alphabet@.len()
    }

    /// Every evidence automaton is shaped and its letters are pairwise
    /// distinct.
    #[verifier::type_invariant]
    pub open spec fn inv(&self) -> bool {
        &&& self.shaped()
        &&& letters_distinct(self.letters())
    }

    /// The number of states.
    pub fn num_states(&self) -> (n: usize)
        ensures
            n == self.rows().len(),
    {
        self.basis_rows.len()
    }

    /// The states, in index order.
    pub fn states(&self) -> (r: Vec<AfaStateId>)
        ensures
            r@.len() == self.rows().len(),
            forall|i: int| 0 <= i < r@.len() ==> (#[trigger] r@[i]).0 == i,
    {
        let mut out: Vec<AfaStateId> = Vec::new();
        let mut i: usize = 0;
        while i < self.basis_rows.len()
            invariant
                i <= self.basis_rows@.len(),
                out@.len() == i,
                forall|j: int| 0 <= j < i ==> (#[trigger] out@[j]).0 == j,
            decreases self.basis_rows@.len() - i,
        {
            out.push(AfaStateId(i));
            i = i + 1;
        }
        out
    }

    /// The timed-letter alphabet, in order.
    pub fn alphabet(&self) -> (r: &[(A, DelayRep)])
        ensures
            r@ == self.letters(),
    {
        self.alphabet.as_slice()
    }

    /// The initial formula.
    pub fn init(&self) -> (r: &BasisFormula)
        ensures
            r@ == self.init_model(),
    {
        &self.initial_formula
    }

    /// `true` iff state `q` accepts; `false` for an unknown state.
    pub fn is_accepting(&self, q: AfaStateId) -> (b: bool)
        ensures
            b == (q.0 < self.accepting_states().len() && self.accepting_states()[q.0 as int]),
    {
        if q.0 < self.accepting.len() {
            self.accepting[q.0]
        } else {
            false
        }
    }

    /// The transition of state `q` on timed letter `sigma`; `None` for an
    /// unknown state or a letter outside the alphabet.
    pub fn transition(&self, q: AfaStateId, sigma: &(A, DelayRep)) -> (r: Option<&BasisFormula>)
        ensures
            r matches Some(f) ==> exists|a: int|
                0 <= a < self.letters().len() && letter_key(#[trigger] self.letters()[a]) == letter_key(*sigma) && (
                forall|b: int| 0 <= b < a ==> letter_key(#[trigger] self.letters()[b]) != letter_key(*sigma))
                    && q.0 < self.rows().len() && f@ == self.delta(q.0 as int, a),
            r is None ==> q.0 >= self.rows().len() || !contains_letter_key(self.letters(), *sigma),
    {
        proof {
            use_type_invariant(self);
        }
        let mut a: usize = 0;
        while a < self.alphabet.len()
            invariant
                self.shaped(),
                a <= self.alphabet@.len(),
                forall|b: int| 0 <= b < a ==> letter_key(#[trigger] self.alphabet@[b]) != letter_key(*sigma),
            decreases self.alphabet@.len() - a,
        {
            let (s, d) = &self.alphabet[a];
            if s.same_symbol(&sigma.0) && d.same(sigma.1) {
                assert(letter_key(self.alphabet@[a as int]) == letter_key(*sigma));
                if q.0 < self.transition_table.len() {
                    assert(self.letters() == self.alphabet@);
                    assert(letter_key(self.letters()[a as int]) == letter_key(*sigma));
                    assert(forall|b: int| 0 <= b < a ==> letter_key(#[trigger] self.letters()[b]) != letter_key(*sigma));
                    assert(q.0 < self.rows().len());
                    assert(self.transition_table@[q.0 as int]@[a as int]@ == self.delta(q.0 as int, a as int));
                    return Some(&self.transition_table[q.0][a]);
                }
                return None;
            }
            a = a + 1;
        }
        proof {
            if contains_letter_key(self.letters(), *sigma) {
                let b = choose|b: int| 0 <= b < self.letters().len() && letter_key(#[trigger] self.letters()[b]) == letter_key(*sigma);
                assert(letter_key(self.alphabet@[b]) != letter_key(*sigma));
            }
        }
        None
    }

    /// The distinct basis rows, one per state.
    pub fn basis_rows(&self) -> (r: &[RowVec])
        ensures
            row_views(r@) == self.rows(),
    {
        self.basis_rows.as_slice()
    }

    /// The state representatives, aligned with the basis rows.
    pub fn representatives(&self) -> (r: &[TimedWord<A>])
        ensures
            Seq::new(r@.len(), |i: int| letters_key(r@[i]@)) == self.rep_keys(),
    {
        self.representatives.as_slice()
    }
}

/// Every row of `rows` equals the row at one of its first-occurrence
/// positions, and those positions are in range.
pub proof fn lemma_first_indices(rows: Seq<Seq<bool>>)
    ensures
        forall|j: int| 0 <= j < first_indices(rows).len() ==> 0 <= #[trigger] first_indices(rows)[j] < rows.len(),
        forall|i: int|
            #![trigger rows[i]]
            0 <= i < rows.len() ==> exists|j: int|
                0 <= j < first_indices(rows).len() && rows[#[trigger] first_indices(rows)[j]] == rows[i],
    decreases rows.len(),
{
    if rows.len() > 0 {
        let t = rows.drop_last();
        lemma_first_indices(t);
        let f = first_indices(t);
        assert forall|i: int|
            #![trigger rows[i]]
            0 <= i < rows.len() implies exists|j: int|
                0 <= j < first_indices(rows).len() && rows[#[trigger] first_indices(rows)[j]] == rows[i] by {
            if i < rows.len() - 1 {
                assert(t[i] == rows[i]);
                let j = choose|j: int| 0 <= j < f.len() && t[#[trigger] f[j]] == t[i];
                assert(first_indices(rows)[j] == f[j]);
                assert(rows[f[j]] == t[f[j]]);
            } else if t.contains(rows[i]) {
                let a = choose|a: int| 0 <= a < t.len() && t[a] == rows[i];
                let j = choose|j: int| 0 <= j < f.len() && t[#[trigger] f[j]] == t[a];
                assert(first_indices(rows)[j] == f[j]);
                assert(rows[f[j]] == t[f[j]]);
            } else {
                assert(first_indices(rows)[f.len() as int] == i);
            }
        }
    }
}

/// The distinct rows of the basis words, first occurrences first.
pub open spec fn distinct_basis_rows<A: Symbol>(t: ObservationTable<A>, bkeys: Seq<WordKey>) -> Seq<Seq<bool>> {
    let b = basis_rows_of(t, bkeys);
    Seq::new(first_indices(b).len(), |k: int| b[first_indices(b)[k]])
}

/// The keys of the basis words that represent the distinct rows.
pub open spec fn distinct_reps<A: Symbol>(t: ObservationTable<A>, bkeys: Seq<WordKey>) -> Seq<WordKey> {
    let b = basis_rows_of(t, bkeys);
    Seq::new(first_indices(b).len(), |k: int| bkeys[first_indices(b)[k]])
}

/// Every representative followed by every timed letter of the table words
/// is a prefix sample.
pub open spec fn extensions_present<A: Symbol>(t: ObservationTable<A>, reps: Seq<WordKey>) -> bool {
    forall|k: int, a: int, j: int|
        0 <= k < reps.len() && 0 <= a < t.table_words().len() && 0 <= j < t.table_words()[a]@.len()
            ==> t.prefix_keys().contains(#[trigger] reps[k].push(letter_key(#[trigger] t.table_words()[a]@[j])))
}

/// `true` iff some row of `rows` equals `row`.
fn contains_row(rows: &Vec<RowVec>, row: &RowVec) -> (b: bool)
    ensures
        b == exists|x: int| 0 <= x < rows@.len() && (#[trigger] rows@[x])@ == row@,
{
    let mut j: usize = 0;
    while j < rows.len()
        invariant
            j <= rows@.len(),
            forall|x: int| 0 <= x < j ==> (#[trigger] rows@[x])@ != row@,
        decreases rows@.len() - j,
    {
        if rows[j].same(row) {
            return true;
        }
        j = j + 1;
    }
    false
}

/// First occurrences after one more row.
proof fn lemma_first_indices_step(rows: Seq<Seq<bool>>, k: int)
    requires
        0 <= k < rows.len(),
    ensures
        first_indices(rows.take(k + 1)) == (if rows.take(k).contains(rows[k]) {
            first_indices(rows.take(k))
        } else {
            first_indices(rows.take(k)).push(k)
        }),
{
    assert(rows.take(k + 1).drop_last() =~= rows.take(k));
    assert(rows.take(k + 1)[k] == rows[k]);
}

/// The distinct rows of the basis words with their first representatives;
/// an error for the first basis word that is not a prefix sample.
#[verifier::rlimit(100)]
fn collect_distinct_basis<A: Symbol>(table: &ObservationTable<A>, basis_words: &BasisWords<A>) -> (r: Result<
    (Vec<RowVec>, Vec<TimedWord<A>>),
    EvidenceAfaError<A>,
>)
    requires
        table.wf(),
    ensures
        r is Ok <==> all_samples(*table, basis_words.keys()),
        r matches Ok((rows, reps)) ==> row_views(rows@) == distinct_basis_rows(*table, basis_words.keys()) && Seq::new(
            reps@.len(),
            |i: int| letters_key(reps@[i]@),
        ) == distinct_reps(*table, basis_words.keys()),
{
    let ghost bkeys = basis_words.keys();
    let ghost brows = basis_rows_of(*table, bkeys);
    let words = basis_words.as_slice();
    let mut basis_rows: Vec<RowVec> = Vec::new();
    let mut representatives: Vec<TimedWord<A>> = Vec::new();
    let mut k: usize = 0;
    proof {
        assert(brows.take(0) =~= Seq::<Seq<bool>>::empty());
    }
    while k < words.len()
        invariant
            table.wf(),
            bkeys == basis_words.keys(),
            brows == basis_rows_of(*table, bkeys),
            words@.len() == bkeys.len(),
            forall|i: int| 0 <= i < words@.len() ==> letters_key(#[trigger] words@[i]@) == bkeys[i],
            k <= words@.len(),
            forall|i: int| 0 <= i < k ==> table.prefix_keys().contains(#[trigger] bkeys[i]),
            basis_rows@.len() == first_indices(brows.take(k as int)).len(),
            forall|j: int| 0 <= j < basis_rows@.len() ==> (#[trigger] basis_rows@[j])@ == brows[first_indices(brows.take(k as int))[j]],
            representatives@.len() == basis_rows@.len(),
            forall|j: int| 0 <= j < representatives@.len() ==> letters_key((#[trigger] representatives@[j])@) == bkeys[first_indices(brows.take(k as int))[j]],
        decreases words@.len() - k,
    {
        let row = match table.row_of(&words[k]) {
            Some(row) => row,
            None => {
                proof {
                    assert(!all_samples(*table, bkeys)) by {
                        assert(!table.prefix_keys().contains(bkeys[k as int]));
                    }
                }
                return Err(EvidenceAfaError::MissingRow { word: words[k].duplicate() });
            },
        };
        let ghost bk = brows.take(k as int);
        let ghost f = first_indices(bk);
        proof {
            lemma_first_indices(bk);
            lemma_first_indices_step(brows, k as int);
            assert(row@ == brows[k as int]);
        }
        let seen = contains_row(&basis_rows, row);
        proof {
            if seen {
                let x = choose|x: int| 0 <= x < basis_rows@.len() && (#[trigger] basis_rows@[x])@ == row@;
                assert(bk[f[x]] == brows[f[x]]);
            } else if bk.contains(row@) {
                let a = choose|a: int| 0 <= a < bk.len() && bk[a] == row@;
                let x = choose|x: int| 0 <= x < f.len() && bk[#[trigger] f[x]] == bk[a];
                assert(basis_rows@[x]@ == brows[f[x]]);
            }
        }
        if !seen {
            basis_rows.push(row.duplicate());
            representatives.push(words[k].duplicate());
        }
        k = k + 1;
    }
    proof {
        assert(brows.take(k as int) =~= brows);
        assert(row_views(basis_rows@) =~= distinct_basis_rows(*table, bkeys));
        assert(Seq::new(representatives@.len(), |i: int| letters_key(representatives@[i]@)) =~= distinct_reps(*table, bkeys));
    }
    Ok((basis_rows, representatives))
}

/// The transitions of each representative on each letter: the decomposition
/// formulas of the rows of the one-letter extensions; an error for the first
/// extension that is not a prefix sample.
fn transition_formulas<A: Symbol>(
    table: &ObservationTable<A>,
    decomposer: &mut BasisDecomposer,
    representatives: &Vec<TimedWord<A>>,
    alphabet: &Vec<(A, DelayRep)>,
) -> (r: Result<Vec<Vec<BasisFormula>>, EvidenceAfaError<A>>)
    requires
        table.wf(),
        old(decomposer).wf(),
        old(decomposer).columns() == table.suffix_keys().len(),
        forall|m: int| 0 <= m < alphabet@.len() ==> occurs_in(table.table_words(), #[trigger] alphabet@[m]),
    ensures
        final(decomposer).wf(),
        final(decomposer).rows() == old(decomposer).rows(),
        final(decomposer).columns() == old(decomposer).columns(),
        r is Ok <==> forall|x: int, m: int|
            0 <= x < representatives@.len() && 0 <= m < alphabet@.len() ==> table.prefix_keys().contains(
                #[trigger] letters_key(representatives@[x]@).push(letter_key(#[trigger] alphabet@[m])),
            ),
        r matches Ok(t) ==> t@.len() == representatives@.len() && (forall|x: int|
            0 <= x < t@.len() ==> (#[trigger] t@[x])@.len() == alphabet@.len()) && (forall|x: int, m: int|
            0 <= x < t@.len() && 0 <= m < alphabet@.len() ==> #[trigger] t@[x]@[m]@ == decomposition_of(
                old(decomposer).rows(),
                table.row_for(letters_key(representatives@[x]@).push(letter_key(alphabet@[m]))),
            )),
{
    let ghost rows = decomposer.rows();
    let ghost width = table.suffix_keys().len();
    let mut transition_table: Vec<Vec<BasisFormula>> = Vec::new();
    let mut q: usize = 0;
    let mut failure: Option<EvidenceAfaError<A>> = None;
    while q < representatives.len() && failure.is_none()
        invariant
            failure matches Some(e) ==> exists|x: int, m: int|
                0 <= x < representatives@.len() && 0 <= m < alphabet@.len() && !table.prefix_keys().contains(
                    #[trigger] letters_key(representatives@[x]@).push(letter_key(#[trigger] alphabet@[m])),
                ),
            table.wf(),
            decomposer.wf(),
            decomposer.rows() == rows,
            decomposer.columns() == width,
            width == table.suffix_keys().len(),
            q <= representatives@.len(),
            transition_table@.len() == q,
            forall|x: int| 0 <= x < q ==> (#[trigger] transition_table@[x])@.len() == alphabet@.len(),
            forall|x: int, m: int|
                0 <= x < q && 0 <= m < alphabet@.len() ==> #[trigger] transition_table@[x]@[m]@ == decomposition_of(
                    rows,
                    table.row_for(letters_key(representatives@[x]@).push(letter_key(alphabet@[m]))),
                ),
            forall|x: int, m: int|
                0 <= x < q && 0 <= m < alphabet@.len() ==> table.prefix_keys().contains(
                    #[trigger] letters_key(representatives@[x]@).push(letter_key(#[trigger] alphabet@[m])),
                ),
        decreases representatives@.len() - q + (if failure is None { 1int } else { 0int }),
    {
        let mut transitions: Vec<BasisFormula> = Vec::new();
        let mut m: usize = 0;
        while m < alphabet.len() && failure.is_none()
            invariant
                failure matches Some(e) ==> exists|x: int, m: int|
                    0 <= x < representatives@.len() && 0 <= m < alphabet@.len() && !table.prefix_keys().contains(
                        #[trigger] letters_key(representatives@[x]@).push(letter_key(#[trigger] alphabet@[m])),
                    ),
                failure is None ==> transitions@.len() == m,
                table.wf(),
                decomposer.wf(),
                decomposer.rows() == rows,
                decomposer.columns() == width,
                width == table.suffix_keys().len(),
                q < representatives@.len(),
                m <= alphabet@.len(),
                forall|y: int| 0 <= y < m ==> (#[trigger] transitions@[y])@ == decomposition_of(
                    rows,
                    table.row_for(letters_key(representatives@[q as int]@).push(letter_key(alphabet@[y]))),
                ),
                forall|y: int| 0 <= y < m ==> table.prefix_keys().contains(
                    letters_key(representatives@[q as int]@).push(letter_key(#[trigger] alphabet@[y])),
                ),
            decreases alphabet@.len() - m + (if failure is None { 1int } else { 0int }),
        {
            let sigma = copy_letter(&alphabet[m]);
            let extension = representatives[q].append_letter(copy_letter(&alphabet[m]));
            proof {
                assert(letters_key(representatives@[q as int]@.push(alphabet@[m as int])) =~= letters_key(
                    representatives@[q as int]@,
                ).push(letter_key(alphabet@[m as int])));
            }
            match table.row_of(&extension) {
                Some(extension_row) => {
                    proof {
                        lemma_row_for_width(*table, letters_key(extension@));
                    }
                    match decomposer.decompose_formula(extension_row) {
                        Ok(f) => {
                            transitions.push(f);
                        },
                        Err(e) => {
                            failure = Some(evidence_error_from_decomposition(e));
                        },
                    }
                    m = m + 1;
                },
                None => {
                    failure = Some(EvidenceAfaError::MissingDistinctExtension { rep: representatives[q].duplicate(), sigma });
                },
            }
        }
        if failure.is_none() {
            transition_table.push(transitions);
            q = q + 1;
        }
    }
    if let Some(e) = failure {
        return Err(e);
    }
    Ok(transition_table)
}

/// The distinct basis rows, their representatives and a decomposer over
/// them; an error for a basis word that is not a prefix sample or for an
/// empty basis.
#[verifier::rlimit(50)]
fn prepare_states<A: Symbol>(table: &ObservationTable<A>, basis_words: &BasisWords<A>) -> (r: Result<
    (Vec<RowVec>, Vec<TimedWord<A>>, BasisDecomposer),
    EvidenceAfaError<A>,
>)
    requires
        table.wf(),
    ensures
        r is Ok <==> basis_words.keys().len() > 0 && all_samples(*table, basis_words.keys()),
        r matches Ok((rows, reps, d)) ==> {
            &&& row_views(rows@) == distinct_basis_rows(*table, basis_words.keys())
            &&& Seq::new(reps@.len(), |i: int| letters_key(reps@[i]@)) == distinct_reps(*table, basis_words.keys())
            &&& d.wf()
            &&& d.rows() == row_views(rows@)
            &&& d.columns() == table.suffix_keys().len()
            &&& forall|x: int| 0 <= x < rows@.len() ==> (#[trigger] rows@[x])@.len() == table.suffix_keys().len()
        },
{
    let ghost bkeys = basis_words.keys();
    let ghost brows = basis_rows_of(*table, bkeys);
    let (basis_rows, representatives) = match collect_distinct_basis(table, basis_words) {
        Ok(pair) => pair,
        Err(e) => {
            return Err(e);
        },
    };
    let ghost rows = row_views(basis_rows@);
    let suffixes = table.experiment_suffixes();
    let width = suffixes.len();
    proof {
        assert(word_keys(suffixes@).len() == width);
        lemma_first_indices(brows);
        assert forall|x: int| 0 <= x < rows.len() implies (#[trigger] rows[x]).len() == width by {
            let i = first_indices(brows)[x];
            assert(table.prefix_keys().contains(bkeys[i]));
            lemma_row_for_width(*table, bkeys[i]);
        }
        if bkeys.len() > 0 {
            let x = choose|x: int| 0 <= x < first_indices(brows).len() && brows[#[trigger] first_indices(brows)[x]] == brows[0];
            assert(rows.len() > 0);
        }
    }
    let copies = copy_rows(&basis_rows);
    proof {
        if copies@.len() > 0 {
            assert(row_views(copies@)[0] == copies@[0]@);
            assert forall|x: int| 0 <= x < basis_rows@.len() implies (#[trigger] basis_rows@[x])@.len() == width by {
                assert(rows[x] == basis_rows@[x]@);
            }
        }
    }
    let decomposer = match BasisDecomposer::new(copies) {
        Ok(d) => d,
        Err(e) => {
            return Err(evidence_error_from_decomposition(e));
        },
    };
    Ok((basis_rows, representatives, decomposer))
}

/// The initial formula, the decomposition formula of the empty word's row,
/// and the acceptance flags, each basis row's value in the empty-word
/// column.
#[verifier::rlimit(50)]
fn initial_parts<A: Symbol>(table: &ObservationTable<A>, decomposer: &mut BasisDecomposer, basis_rows: &Vec<RowVec>) -> (r: Result<
    (BasisFormula, Vec<bool>),
    EvidenceAfaError<A>,
>)
    requires
        table.wf(),
        old(decomposer).wf(),
        old(decomposer).rows() == row_views(basis_rows@),
        old(decomposer).columns() == table.suffix_keys().len(),
        forall|x: int| 0 <= x < basis_rows@.len() ==> (#[trigger] basis_rows@[x])@.len() == table.suffix_keys().len(),
    ensures
        final(decomposer).wf(),
        final(decomposer).rows() == old(decomposer).rows(),
        final(decomposer).columns() == old(decomposer).columns(),
        r matches Ok((init, acc)) && init@ == decomposition_of(
            row_views(basis_rows@),
            table.row_for(Seq::<(Seq<char>, u32)>::empty()),
        ) && acc@.len() == basis_rows@.len() && forall|q: int|
            0 <= q < basis_rows@.len() ==> #[trigger] acc@[q] == row_views(basis_rows@)[q][0],
{
    let ghost rows = row_views(basis_rows@);
    let suffixes = table.experiment_suffixes();
    proof {
        lemma_wf_facts(*table);
        assert(word_keys(suffixes@).len() == suffixes@.len());
        assert(letters_key(suffixes@[0]@) == table.suffix_keys()[0]);
        assert(letters_key(suffixes@[0]@).len() == suffixes@[0]@.len());
        assert(suffixes@[0]@.len() == 0);
    }
    let mut epsilon_column: usize = 0;
    let mut found = false;
    while epsilon_column < suffixes.len() && !found
        invariant
            epsilon_column == 0,
            suffixes@.len() >= 1,
            suffixes@[0]@.len() == 0,
            found ==> epsilon_column < suffixes@.len(),
        decreases (if found { 0int } else { 1int }),
    {
        if suffixes[epsilon_column].is_empty() {
            found = true;
        } else {
            epsilon_column = epsilon_column + 1;
        }
    }
    if !found {
        return Err(EvidenceAfaError::MissingEpsilonColumn);
    }
    let epsilon = TimedWord::<A>::empty();
    proof {
        assert(letters_key(epsilon@) =~= Seq::<(Seq<char>, u32)>::empty());
        assert(table.prefix_keys().contains(table.prefix_keys()[0]));
    }
    let initial_row = match table.row_of(&epsilon) {
        Some(row) => row,
        None => {
            return Err(EvidenceAfaError::MissingEpsilonInS);
        },
    };
    proof {
        lemma_row_for_width(*table, letters_key(epsilon@));
    }
    let initial_formula = match decomposer.decompose_formula(initial_row) {
        Ok(f) => f,
        Err(e) => {
            return Err(evidence_error_from_decomposition(e));
        },
    };
    let accepting = match accepting_flags(basis_rows, epsilon_column) {
        Ok(flags) => flags,
        Err(e) => {
            return Err(e);
        },
    };
    Ok((initial_formula, accepting))
}

/// Build an evidence automaton from a cohesive observation table and basis
/// words: basis words with equal rows share a state; a missing basis row, an
/// empty basis, or a missing extension of a representative by a timed
/// letter of the table is an error.
#[verifier::rlimit(100)]
pub fn build_from_cohesive_table<A: Symbol>(table: &ObservationTable<A>, basis_words: &BasisWords<A>) -> (r: Result<
    EvidenceAfa<A>,
    EvidenceAfaError<A>,
>)
    requires
        table.wf(),
    ensures
        r is Ok <==> basis_words.keys().len() > 0 && all_samples(*table, basis_words.keys()) && extensions_present(
            *table,
            distinct_reps(*table, basis_words.keys()),
        ),
        r matches Ok(a) ==> {
            &&& a.shaped()
            &&& a.vars_in_range()
            &&& a.rows() == distinct_basis_rows(*table, basis_words.keys())
            &&& a.rep_keys() == distinct_reps(*table, basis_words.keys())
            &&& forall|i: int, j: int|
                0 <= i < table.table_words().len() && 0 <= j < table.table_words()[i]@.len() ==> contains_letter_key(
                    a.letters(),
                    #[trigger] table.table_words()[i]@[j],
                )
            &&& forall|m: int| 0 <= m < a.letters().len() ==> occurs_in(table.table_words(), #[trigger] a.letters()[m])
            &&& forall|x: int, y: int|
                0 <= x < y < a.letters().len() ==> letter_key(#[trigger] a.letters()[x]) != letter_key(
                    #[trigger] a.letters()[y],
                )
            &&& a.init_model() == decomposition_of(a.rows(), table.row_for(Seq::<(Seq<char>, u32)>::empty()))
            &&& forall|q: int| 0 <= q < a.rows().len() ==> #[trigger] a.accepting_states()[q] == a.rows()[q][0]
            &&& forall|q: int, m: int|
                0 <= q < a.rows().len() && 0 <= m < a.letters().len() ==> #[trigger] a.delta(q, m) == decomposition_of(
                    a.rows(),
                    table.row_for(a.rep_keys()[q].push(letter_key(a.letters()[m]))),
                )
        },
{
    let (basis_rows, representatives, mut decomposer) = match prepare_states(table, basis_words) {
        Ok(parts) => parts,
        Err(e) => {
            return Err(e);
        },
    };
    let ghost reps = Seq::new(representatives@.len(), |i: int| letters_key(representatives@[i]@));
    let (initial_formula, accepting) = match initial_parts(table, &mut decomposer, &basis_rows) {
        Ok(parts) => parts,
        Err(e) => {
            return Err(e);
        },
    };
    let alphabet = table.ordered_timed_letters();
    let transition_table = match transition_formulas(table, &mut decomposer, &representatives, &alphabet) {
        Ok(t) => {
            proof {
                assert forall|x: int, m: int| 0 <= x < reps.len() && 0 <= m < alphabet@.len() implies table.prefix_keys().contains(
                    #[trigger] reps[x].push(letter_key(#[trigger] alphabet@[m])),
                ) by {
                    assert(reps[x] == letters_key(representatives@[x]@));
                }
            }
            t
        },
        Err(e) => {
            proof {
                assert(!extensions_present(*table, reps)) by {
                    let (x, m) = choose|x: int, m: int|
                        0 <= x < representatives@.len() && 0 <= m < alphabet@.len() && !table.prefix_keys().contains(
                            #[trigger] letters_key(representatives@[x]@).push(letter_key(#[trigger] alphabet@[m])),
                        );
                    assert(occurs_in(table.table_words(), alphabet@[m]));
                    let (a, j) = choose|a: int, j: int|
                        0 <= a < table.table_words().len() && 0 <= j < table.table_words()[a]@.len()
                            && #[trigger] table.table_words()[a]@[j] == alphabet@[m];
                    assert(reps[x] == letters_key(representatives@[x]@));
                    assert(!table.prefix_keys().contains(reps[x].push(letter_key(table.table_words()[a]@[j]))));
                }
            }
            return Err(e);
        },
    };
    proof {
        assert(letters_distinct(alphabet@));
        assert(reps.len() == distinct_reps(*table, basis_words.keys()).len());
        assert(row_views(basis_rows@).len() == distinct_basis_rows(*table, basis_words.keys()).len());
        assert(representatives@.len() == basis_rows@.len());
        assert(accepting@.len() == basis_rows@.len());
        assert(transition_table@.len() == basis_rows@.len());
        assert(forall|q: int| 0 <= q < transition_table@.len() ==> (#[trigger] transition_table@[q])@.len() == alphabet@.len());
    }
    let nrows = basis_rows.len();
    let a = EvidenceAfa { basis_rows, representatives, alphabet, initial_formula, accepting, transition_table };
    proof {
        assert(a.rows().len() == nrows);
        assert forall|i: usize| #[trigger] bmentions(a.init_model(), i) implies i < a.rows().len() by {
            lemma_decomposition_vars(a.rows(), table.row_for(Seq::<(Seq<char>, u32)>::empty()), i);
        }
        lemma_extensions_from_letters(*table, reps, a.alphabet@);
        assert forall|qq: int, m: int| 0 <= qq < a.rows().len() && 0 <= m < a.letters().len() implies #[trigger] a.delta(qq, m) == decomposition_of(
            a.rows(),
            table.row_for(a.rep_keys()[qq].push(letter_key(a.letters()[m]))),
        ) by {
            assert(a.rep_keys()[qq] == letters_key(a.representatives@[qq]@));
        }
        assert forall|q: int, m: int, i: usize|
            0 <= q < a.rows().len() && 0 <= m < a.letters().len() && #[trigger] bmentions(a.delta(q, m), i) implies i
            < a.rows().len() by {
            lemma_decomposition_vars(a.rows(), table.row_for(a.rep_keys()[q].push(letter_key(a.letters()[m]))), i);
        }
    }
    Ok(a)
}

/// When every representative extends by every letter of a list that covers
/// the letters of the table words, every extension by a table-word letter
/// is present.
proof fn lemma_extensions_from_letters<A: Symbol>(t: ObservationTable<A>, reps: Seq<WordKey>, alphabet: Seq<(A, DelayRep)>)
    requires
        forall|i: int, j: int|
            0 <= i < t.table_words().len() && 0 <= j < t.table_words()[i]@.len() ==> contains_letter_key(
                alphabet,
                #[trigger] t.table_words()[i]@[j],
            ),
        forall|x: int, m: int|
            0 <= x < reps.len() && 0 <= m < alphabet.len() ==> t.prefix_keys().contains(
                #[trigger] reps[x].push(letter_key(#[trigger] alphabet[m])),
            ),
    ensures
        extensions_present(t, reps),
{
    assert forall|x: int, aa: int, j: int|
        0 <= x < reps.len() && 0 <= aa < t.table_words().len() && 0 <= j < t.table_words()[aa]@.len()
        implies t.prefix_keys().contains(#[trigger] reps[x].push(letter_key(#[trigger] t.table_words()[aa]@[j]))) by {
        assert(contains_letter_key(alphabet, t.table_words()[aa]@[j]));
        let mm = choose|mm: int| 0 <= mm < alphabet.len() && letter_key(#[trigger] alphabet[mm]) == letter_key(t.table_words()[aa]@[j]);
        assert(t.prefix_keys().contains(reps[x].push(letter_key(alphabet[mm]))));
    }
}

/// The value of each row at column `column`; an error for the first row
/// too short to have it.
fn accepting_flags<A>(rows: &Vec<RowVec>, column: usize) -> (r: Result<Vec<bool>, EvidenceAfaError<A>>)
    requires
        column < usize::MAX,
    ensures
        (forall|x: int| 0 <= x < rows@.len() ==> column < (#[trigger] rows@[x])@.len()) ==> (r matches Ok(flags)
            && flags@.len() == rows@.len() && forall|x: int| 0 <= x < rows@.len() ==> flags@[x] == (#[trigger] rows@[x])@[column as int]),
{
    let mut accepting: Vec<bool> = Vec::new();
    let mut q: usize = 0;
    while q < rows.len()
        invariant
            q <= rows@.len(),
            accepting@.len() == q,
            column < usize::MAX,
            forall|x: int| 0 <= x < q ==> accepting@[x] == (#[trigger] rows@[x])@[column as int],
        decreases rows@.len() - q,
    {
        match rows[q].get(column) {
            Some(v) => {
                accepting.push(v);
            },
            None => {
                return Err(EvidenceAfaError::LengthMismatch { expected: column + 1, found: rows[q].len() });
            },
        }
        q = q + 1;
    }
    Ok(accepting)
}

/// Copies of `rows`.
fn copy_rows(rows: &Vec<RowVec>) -> (r: Vec<RowVec>)
    ensures
        row_views(r@) == row_views(rows@),
{
    let mut out: Vec<RowVec> = Vec::new();
    let mut i: usize = 0;
    while i < rows.len()
        invariant
            i <= rows@.len(),
            out@.len() == i,
            forall|j: int| 0 <= j < i ==> (#[trigger] out@[j])@ == rows@[j]@,
        decreases rows@.len() - i,
    {
        out.push(rows[i].duplicate());
        i = i + 1;
    }
    assert(row_views(out@) =~= row_views(rows@));
    out
}

} // verus!
