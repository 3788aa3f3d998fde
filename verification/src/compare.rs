//! Semantic comparison of two automata read from documents.

use vstd::prelude::*;

use crate::dot::strings_view;
use crate::json::ParsedArtaJson;
use crate::oracles::closure::{agree_below, agree_on, word_over};
use crate::oracles::whitebox::{finite_delays, symbol_keys, WhiteBoxEqOracle};
use crate::symbol::Symbol;
use crate::text::{
    lemma_seq_lt_strict, lemma_seq_lt_total, lemma_sorted_insert, lemma_sorted_list_of, seq_lt, seq_lt_fn, sorted_by,
    sorted_list, str_eq, str_lt, strictly_sorted,
};
use crate::timed_word::{letters_key, TimedWord};

verus! {

/// The result of comparing two automata.
#[derive(Debug)]
pub enum CompareOutcome {
    /// The declared alphabets differ (each given sorted, without repeats).
    AlphabetMismatch {
        /// The left alphabet.
        left_sigma: Vec<String>,
        /// The right alphabet.
        right_sigma: Vec<String>,
    },
    /// A word on which the automata disagree, with both answers.
    Different {
        /// The distinguishing word.
        witness: TimedWord<String>,
        /// Whether the left automaton accepts it.
        left_accepts: bool,
        /// Whether the right automaton accepts it.
        right_accepts: bool,
    },
    /// No word over the alphabet distinguishes the automata.
    Equivalent,
}

/// The strings of `sigma`, sorted and without repeats.
pub fn normalize_sigma(sigma: &Vec<String>) -> (r: Vec<String>)
    ensures
        strings_view(r@) == sorted_list(strings_view(sigma@).to_set()),
{
    let ghost sv = strings_view(sigma@);
    let mut r: Vec<String> = Vec::new();
    let mut i: usize = 0;
    proof {
        lemma_seq_lt_strict();
    }
    assert(strings_view(r@).to_set() =~= sv.take(0).to_set());
    while i < sigma.len()
        invariant
            sv == strings_view(sigma@),
            i <= sigma@.len(),
            strictly_sorted(strings_view(r@)),
            strings_view(r@).to_set() == sv.take(i as int).to_set(),
        decreases sigma@.len() - i,
    {
        let s = &sigma[i];
        let ghost rv = strings_view(r@);
        let mut pos: usize = 0;
        while pos < r.len() && str_lt(r[pos].as_str(), s.as_str())
            invariant
                rv == strings_view(r@),
                pos <= r@.len(),
                forall|j: int| 0 <= j < pos ==> seq_lt(#[trigger] rv[j], s@),
            decreases r@.len() - pos,
        {
            pos = pos + 1;
        }
        proof {
            assert(sv[i as int] == s@);
            assert(sv.take(i + 1) =~= sv.take(i as int).push(s@));
            sv.take(i as int).lemma_push_to_set_commute(s@);
        }
        if pos < r.len() && str_eq(r[pos].as_str(), s.as_str()) {
            proof {
                assert(rv[pos as int] == s@);
                assert(rv.to_set().contains(s@));
                assert(rv.to_set().insert(s@) =~= rv.to_set());
            }
        } else {
            proof {
                if pos < r@.len() {
                    lemma_seq_lt_total(rv[pos as int], s@);
                }
                lemma_seq_lt_strict();
                assert(strictly_sorted(rv) == sorted_by(rv, seq_lt_fn()));
                lemma_sorted_insert(rv, pos as int, s@, seq_lt_fn());
            }
            r.insert(pos, s.clone());
            proof {
                assert(strings_view(r@) =~= rv.insert(pos as int, s@));
                assert(strictly_sorted(strings_view(r@)) == sorted_by(strings_view(r@), seq_lt_fn()));
            }
        }
        i = i + 1;
    }
    proof {
        assert(sv.take(i as int) =~= sv);
        lemma_sorted_list_of(strings_view(r@));
    }
    r
}

/// `true` iff the two lists hold the same strings in the same order.
fn same_strings(a: &Vec<String>, b: &Vec<String>) -> (r: bool)
    ensures
        r == (strings_view(a@) == strings_view(b@)),
{
    if a.len() != b.len() {
        assert(strings_view(a@).len() != strings_view(b@).len());
        return false;
    }
    let mut i: usize = 0;
    while i < a.len()
        invariant
            a@.len() == b@.len(),
            i <= a@.len(),
            forall|j: int| 0 <= j < i ==> a@[j]@ == b@[j]@,
        decreases a@.len() - i,
    {
        if !str_eq(a[i].as_str(), b[i].as_str()) {
            assert(strings_view(a@)[i as int] != strings_view(b@)[i as int]);
            return false;
        }
        i = i + 1;
    }
    assert(strings_view(a@) =~= strings_view(b@));
    true
}

/// Compare two automata read from documents.
///
/// Documents with different alphabets (as sets) are reported as such.
/// Otherwise the empty word is tried first; then, over a non-empty
/// alphabet, the exact white-box search looks for a distinguishing word.
pub fn compare_documents(left: &ParsedArtaJson, right: &ParsedArtaJson) -> (r: CompareOutcome)
    ensures
        ({
            let ls = sorted_list(strings_view(left.sigma@).to_set());
            let rs = sorted_list(strings_view(right.sigma@).to_set());
            let le = left.arta@.accepts(Seq::empty());
            let re = right.arta@.accepts(Seq::empty());
            &&& (r is AlphabetMismatch <==> ls != rs)
            &&& r matches CompareOutcome::AlphabetMismatch { left_sigma, right_sigma } ==> strings_view(left_sigma@)
                == ls && strings_view(right_sigma@) == rs
            &&& r matches CompareOutcome::Different { witness, left_accepts, right_accepts } ==> {
                &&& left_accepts == left.arta@.accepts(letters_key(witness@))
                &&& right_accepts == right.arta@.accepts(letters_key(witness@))
                &&& left_accepts != right_accepts
                &&& forall|i: int| 0 <= i < witness@.len() ==> ls.contains(#[trigger] witness@[i].0@)
                &&& finite_delays(witness@)
                &&& agree_below(left.arta@, right.arta@, ls, witness@.len() as int)
            }
            &&& ls == rs && le != re ==> (r matches CompareOutcome::Different { witness, .. } && witness@.len() == 0)
            &&& ls == rs && le == re && ls.len() == 0 ==> r is Equivalent
            &&& r is Equivalent ==> agree_on(left.arta@, right.arta@, ls)
        }),
{
    let left_sigma = normalize_sigma(&left.sigma);
    let right_sigma = normalize_sigma(&right.sigma);
    if !same_strings(&left_sigma, &right_sigma) {
        return CompareOutcome::AlphabetMismatch { left_sigma, right_sigma };
    }
    let empty: TimedWord<String> = TimedWord::empty();
    let left_empty = left.arta.accepts(&empty);
    let right_empty = right.arta.accepts(&empty);
    assert(letters_key(empty@) =~= Seq::<(Seq<char>, u32)>::empty());
    if left_empty != right_empty {
        return CompareOutcome::Different { witness: empty, left_accepts: left_empty, right_accepts: right_empty };
    }
    if left_sigma.len() == 0 {
        proof {
            assert forall|w: Seq<(Seq<char>, u32)>| word_over(strings_view(left_sigma@), w) implies #[trigger] left.arta@.accepts(w)
                == right.arta@.accepts(w) by {
                if w.len() > 0 {
                    assert(strings_view(left_sigma@).contains(w[0].0));
                }
                assert(w =~= Seq::<(Seq<char>, u32)>::empty());
            }
        }
        return CompareOutcome::Equivalent;
    }
    let ghost ls = strings_view(left_sigma@);
    let ghost lsv = left_sigma@;
    let target = left.arta.clone();
    let mut oracle = match WhiteBoxEqOracle::try_new(target, left_sigma) {
        Ok(o) => o,
        Err(_) => {
            return CompareOutcome::Equivalent;
        },
    };
    match oracle.find_counterexample(&right.arta) {
        Ok(Some(w)) => {
            let la = left.arta.accepts(&w);
            let ra = right.arta.accepts(&w);
            proof {
                assert forall|i: int| 0 <= i < w@.len() implies ls.contains(#[trigger] w@[i].0@) by {
                    assert(symbol_keys(lsv).contains(w@[i].0.key()));
                    let j = choose|j: int| 0 <= j < symbol_keys(lsv).len() && symbol_keys(lsv)[j] == w@[i].0.key();
                    assert(ls[j] == w@[i].0@);
                }
            }
            proof {
                assert(symbol_keys(lsv) =~= ls);
            }
            CompareOutcome::Different { witness: w, left_accepts: la, right_accepts: ra }
        },
        _ => {
            proof {
                assert(symbol_keys(lsv) =~= ls);
            }
            CompareOutcome::Equivalent
        },
    }
}

} // verus!
