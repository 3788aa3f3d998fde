//! Observation table for the learner.
//!
//! The table stores a Boolean function `T : PrefixSamples × SuffixExperiments
//! -> {⊤, ⊥}`: prefix samples are kept prefix-closed, suffix experiments are
//! kept suffix-closed, and each cell `T(s, e)` is filled by a membership
//! query on `s . e`. A new table holds the empty word in both sets; its one
//! cell is filled on the first insertion.

use vstd::prelude::*;

use crate::decomposition::{row_views, rows_have_len};
use crate::oracles::membership::{MembershipOracle, WordKey};
use crate::rowvec::RowVec;
use crate::symbol::Symbol;
use crate::time::delay::DelayRep;
use crate::timed_word::{collect_timed_letters, contains_letter_key, letter_key, letters_key, occurs_in, TimedWord};

verus! {

/// Errors produced by observation-table operations.
#[derive(Debug, Clone, PartialEq, Eq)]
#[non_exhaustive]
pub enum TableError {
    /// Length mismatch between structures that must agree.
    LengthMismatch {
        /// Expected common row or column count.
        expected: usize,
        /// Encountered row or column count.
        found: usize,
    },
    /// Index is outside valid bounds.
    IndexOutOfBounds {
        /// Requested index.
        index: usize,
        /// Valid upper bound length.
        len: usize,
    },
    /// Generic invariant violation found by a consistency check.
    InvariantViolation(&'static str),
}

/// Errors produced while filling table cells by membership queries.
#[derive(Debug)]
#[non_exhaustive]
pub enum TableQueryError<E> {
    /// A membership query failed.
    MembershipQuery {
        /// The oracle's error.
        source: E,
    },
}

/// The keys of a sequence of words.
pub open spec fn word_keys<A: Symbol>(ws: Seq<TimedWord<A>>) -> Seq<WordKey> {
    Seq::new(ws.len(), |i: int| letters_key(ws[i]@))
}

/// `true` iff no key occurs twice in `ks`.
pub open spec fn keys_distinct(ks: Seq<WordKey>) -> bool {
    forall|i: int, j: int| 0 <= i < j < ks.len() ==> ks[i] != ks[j]
}

/// `true` iff every prefix of every key of `ks` is a key of `ks`.
pub open spec fn prefix_closed(ks: Seq<WordKey>) -> bool {
    forall|i: int, k: int| 0 <= i < ks.len() && 0 <= k <= ks[i].len() ==> ks.contains(#[trigger] ks[i].take(k))
}

/// `true` iff every suffix of every key of `ks` is a key of `ks`.
pub open spec fn suffix_closed(ks: Seq<WordKey>) -> bool {
    forall|i: int, k: int| 0 <= i < ks.len() && 0 <= k <= ks[i].len() ==> ks.contains(#[trigger] ks[i].skip(k))
}

/// `keys` followed by the keys of `news` that are not there yet, each added
/// once, in order.
pub open spec fn add_missing(keys: Seq<WordKey>, news: Seq<WordKey>) -> Seq<WordKey>
    decreases news.len(),
{
    if news.len() == 0 {
        keys
    } else {
        let before = add_missing(keys, news.drop_last());
        if before.contains(news[news.len() - 1]) {
            before
        } else {
            before.push(news[news.len() - 1])
        }
    }
}

/// The keys of the prefixes of `w`, shortest first.
pub open spec fn prefix_keys_of(w: WordKey) -> Seq<WordKey> {
    Seq::new(w.len() + 1, |k: int| w.take(k))
}

/// The keys of the suffixes of `w`, longest first.
pub open spec fn suffix_keys_of(w: WordKey) -> Seq<WordKey> {
    Seq::new(w.len() + 1, |k: int| w.skip(k))
}

/// The keys of a concatenation are the concatenation of the keys.
pub proof fn lemma_letters_key_concat<A: Symbol>(a: Seq<(A, DelayRep)>, b: Seq<(A, DelayRep)>)
    ensures
        letters_key(a + b) == letters_key(a) + letters_key(b),
{
    assert(letters_key(a + b) =~= letters_key(a) + letters_key(b));
}

/// The keys of a prefix or a suffix are the prefix or suffix of the keys.
pub proof fn lemma_letters_key_take_skip<A: Symbol>(a: Seq<(A, DelayRep)>, k: int)
    requires
        0 <= k <= a.len(),
    ensures
        letters_key(a.take(k)) == letters_key(a).take(k),
        letters_key(a.skip(k)) == letters_key(a).skip(k),
{
    assert(letters_key(a.take(k)) =~= letters_key(a).take(k));
    assert(letters_key(a.skip(k)) =~= letters_key(a).skip(k));
}

/// `add_missing` adds exactly the new keys, keeps distinct keys distinct, and
/// keeps the old keys in front.
pub proof fn lemma_add_missing(keys: Seq<WordKey>, news: Seq<WordKey>)
    ensures
        forall|x: WordKey| #[trigger] add_missing(keys, news).contains(x) <==> keys.contains(x) || news.contains(x),
        keys_distinct(keys) ==> keys_distinct(add_missing(keys, news)),
        add_missing(keys, news).len() >= keys.len(),
        add_missing(keys, news).take(keys.len() as int) == keys,
    decreases news.len(),
{
    if news.len() > 0 {
        let before = add_missing(keys, news.drop_last());
        let x = news[news.len() - 1];
        lemma_add_missing(keys, news.drop_last());
        assert forall|y: WordKey| #[trigger] add_missing(keys, news).contains(y) <==> keys.contains(y) || news.contains(
            y,
        ) by {
            if news.contains(y) && !news.drop_last().contains(y) {
                let j = choose|j: int| 0 <= j < news.len() && news[j] == y;
                if j < news.len() - 1 {
                    assert(news.drop_last()[j] == y);
                }
            }
            if news.drop_last().contains(y) {
                let j = choose|j: int| 0 <= j < news.drop_last().len() && news.drop_last()[j] == y;
                assert(news[j] == y);
            }
            if !before.contains(x) && add_missing(keys, news).contains(y) {
                let j = choose|j: int| 0 <= j < before.push(x).len() && before.push(x)[j] == y;
                if j < before.len() {
                    assert(before[j] == y);
                }
            }
            if before.contains(y) && !before.contains(x) {
                let j = choose|j: int| 0 <= j < before.len() && before[j] == y;
                assert(before.push(x)[j] == y);
            }
            if !before.contains(x) && y == x {
                assert(before.push(x)[before.len() as int] == y);
            }
        }
        if !before.contains(x) {
            assert(before.push(x).take(keys.len() as int) =~= before.take(keys.len() as int));
        }
    }
}

/// Adding one key.
pub proof fn lemma_add_missing_one(keys: Seq<WordKey>, key: WordKey)
    ensures
        add_missing(keys, seq![key]) == (if keys.contains(key) {
            keys
        } else {
            keys.push(key)
        }),
{
    reveal_with_fuel(add_missing, 2);
    assert(seq![key].drop_last() =~= Seq::<WordKey>::empty());
}

/// Adding one more key after a list.
pub proof fn lemma_add_missing_push(keys: Seq<WordKey>, news: Seq<WordKey>, key: WordKey)
    ensures
        add_missing(keys, news.push(key)) == add_missing(add_missing(keys, news), seq![key]),
{
    assert(news.push(key).drop_last() =~= news);
    lemma_add_missing_one(add_missing(keys, news), key);
}

/// Observation table `T : PrefixSamples × SuffixExperiments -> {⊤, ⊥}`.
#[derive(Debug)]
pub struct ObservationTable<A: Symbol> {
    sample_prefix_words: Vec<TimedWord<A>>,
    experiment_suffix_words: Vec<TimedWord<A>>,
    rows: Vec<RowVec>,
    bootstrap_pending: bool,
}

impl<A: Symbol> ObservationTable<A> {
    /// The keys of the prefix samples, in insertion order.
    pub closed spec fn prefix_keys(&self) -> Seq<WordKey> {
        word_keys(self.sample_prefix_words@)
    }

    /// The keys of the suffix experiments, in insertion order.
    pub closed spec fn suffix_keys(&self) -> Seq<WordKey> {
        word_keys(self.experiment_suffix_words@)
    }

    /// The rows, one per prefix sample, one value per suffix experiment.
    pub closed spec fn cells(&self) -> Seq<Seq<bool>> {
        row_views(self.rows@)
    }

    /// `true` while the cell of the empty prefix and empty suffix has not
    /// been filled yet.
    pub closed spec fn pending(&self) -> bool {
        self.bootstrap_pending
    }

    /// The table's shape checks: one row per prefix sample, each as wide as
    /// the suffix experiments, no duplicate words, prefix samples
    /// prefix-closed and suffix experiments suffix-closed.
    pub open spec fn consistent(&self) -> bool {
        &&& self.cells().len() == self.prefix_keys().len()
        &&& rows_have_len(self.cells(), self.suffix_keys().len())
        &&& keys_distinct(self.prefix_keys())
        &&& keys_distinct(self.suffix_keys())
        &&& prefix_closed(self.prefix_keys())
        &&& suffix_closed(self.suffix_keys())
    }

    /// The table invariant: consistent, seeded with the empty word in both
    /// sets, and, while the first cell is pending, nothing else.
    pub closed spec fn wf(&self) -> bool {
        &&& self.shaped()
        &&& suffix_closed(self.suffix_keys())
    }

    /// The table invariant but for the suffix closure, which holds again once
    /// all suffixes of a new suffix experiment are in.
    pub closed spec fn shaped(&self) -> bool {
        &&& self.cells().len() == self.prefix_keys().len()
        &&& rows_have_len(self.cells(), self.suffix_keys().len())
        &&& keys_distinct(self.prefix_keys())
        &&& keys_distinct(self.suffix_keys())
        &&& prefix_closed(self.prefix_keys())
        &&& self.prefix_keys().len() >= 1
        &&& self.suffix_keys().len() >= 1
        &&& self.prefix_keys()[0] == Seq::<(Seq<char>, u32)>::empty()
        &&& self.suffix_keys()[0] == Seq::<(Seq<char>, u32)>::empty()
        &&& self.pending() ==> self.prefix_keys().len() == 1 && self.suffix_keys().len() == 1
    }

    /// Every filled cell holds the answer of `lang` on its prefix sample
    /// followed by its suffix experiment.
    pub open spec fn filled_by(&self, lang: spec_fn(WordKey) -> bool) -> bool {
        !self.pending() ==> forall|i: int, j: int|
            0 <= i < self.cells().len() && 0 <= j < self.suffix_keys().len() ==> #[trigger] self.cells()[i][j]
                == lang(self.prefix_keys()[i] + self.suffix_keys()[j])
    }

    /// Create a table seeded with the empty word as prefix sample and as
    /// suffix experiment; its one cell is filled on the first insertion.
    pub fn new() -> (t: Self)
        ensures
            t.wf(),
            t.pending(),
            t.prefix_keys() == seq![Seq::<(Seq<char>, u32)>::empty()],
            t.suffix_keys() == seq![Seq::<(Seq<char>, u32)>::empty()],
    {
        let mut s: Vec<TimedWord<A>> = Vec::new();
        s.push(TimedWord::empty());
        let mut e: Vec<TimedWord<A>> = Vec::new();
        e.push(TimedWord::empty());
        let mut rows: Vec<RowVec> = Vec::new();
        rows.push(RowVec::bot(1));
        let t = ObservationTable { sample_prefix_words: s, experiment_suffix_words: e, rows, bootstrap_pending: true };
        proof {
            assert(letters_key(Seq::<(A, DelayRep)>::empty()) =~= Seq::<(Seq<char>, u32)>::empty());
            assert(t.prefix_keys() =~= seq![Seq::<(Seq<char>, u32)>::empty()]);
            assert(t.suffix_keys() =~= seq![Seq::<(Seq<char>, u32)>::empty()]);
            assert forall|i: int, k: int|
                0 <= i < t.prefix_keys().len() && 0 <= k <= t.prefix_keys()[i].len() implies t.prefix_keys().contains(
                #[trigger] t.prefix_keys()[i].take(k),
            ) by {
                assert(t.prefix_keys()[i].take(k) =~= t.prefix_keys()[0]);
            }
            assert forall|i: int, k: int|
                0 <= i < t.suffix_keys().len() && 0 <= k <= t.suffix_keys()[i].len() implies t.suffix_keys().contains(
                #[trigger] t.suffix_keys()[i].skip(k),
            ) by {
                assert(t.suffix_keys()[i].skip(k) =~= t.suffix_keys()[0]);
            }
        }
        t
    }

    /// The prefix samples, in insertion order.
    pub fn sample_prefixes(&self) -> (r: &[TimedWord<A>])
        ensures
            word_keys(r@) == self.prefix_keys(),
    {
        self.sample_prefix_words.as_slice()
    }

    /// The suffix experiments, in insertion order.
    pub fn experiment_suffixes(&self) -> (r: &[TimedWord<A>])
        ensures
            word_keys(r@) == self.suffix_keys(),
    {
        self.experiment_suffix_words.as_slice()
    }

    /// Row `T[s_idx]`; an error when out of bounds.
    pub fn try_row(&self, s_idx: usize) -> (r: Result<&RowVec, TableError>)
        ensures
            s_idx < self.cells().len() ==> (r matches Ok(row) && row@ == self.cells()[s_idx as int]),
            s_idx >= self.cells().len() ==> r == Err::<&RowVec, TableError>(
                TableError::IndexOutOfBounds { index: s_idx, len: self.cells().len() as usize },
            ),
    {
        if s_idx < self.rows.len() {
            Ok(&self.rows[s_idx])
        } else {
            Err(TableError::IndexOutOfBounds { index: s_idx, len: self.rows.len() })
        }
    }

    /// The position of `word` among the prefix samples.
    fn prefix_index(&self, word: &TimedWord<A>) -> (r: Option<usize>)
        ensures
            r matches Some(i) ==> i < self.prefix_keys().len() && self.prefix_keys()[i as int] == letters_key(word@),
            r is None ==> !self.prefix_keys().contains(letters_key(word@)),
    {
        let mut i: usize = 0;
        while i < self.sample_prefix_words.len()
            invariant
                i <= self.sample_prefix_words@.len(),
                forall|j: int| 0 <= j < i ==> self.prefix_keys()[j] != letters_key(word@),
            decreases self.sample_prefix_words@.len() - i,
        {
            if self.sample_prefix_words[i].same_word(word) {
                return Some(i);
            }
            i = i + 1;
        }
        None
    }

    /// The position of `word` among the suffix experiments.
    fn suffix_index(&self, word: &TimedWord<A>) -> (r: Option<usize>)
        ensures
            r matches Some(i) ==> i < self.suffix_keys().len() && self.suffix_keys()[i as int] == letters_key(word@),
            r is None ==> !self.suffix_keys().contains(letters_key(word@)),
    {
        let mut i: usize = 0;
        while i < self.experiment_suffix_words.len()
            invariant
                i <= self.experiment_suffix_words@.len(),
                forall|j: int| 0 <= j < i ==> self.suffix_keys()[j] != letters_key(word@),
            decreases self.experiment_suffix_words@.len() - i,
        {
            if self.experiment_suffix_words[i].same_word(word) {
                return Some(i);
            }
            i = i + 1;
        }
        None
    }

    /// The row of the prefix sample with key `k`, when there is one.
    pub open spec fn row_for(&self, k: WordKey) -> Seq<bool> {
        self.cells()[self.prefix_keys().index_of(k)]
    }

    /// The row of `sample_word` when it is a prefix sample.
    pub fn row_of(&self, sample_word: &TimedWord<A>) -> (r: Option<&RowVec>)
        requires
            self.wf(),
        ensures
            r matches Some(row) ==> row@ == self.row_for(letters_key(sample_word@)),
            r matches Some(row) ==> exists|i: int|
                0 <= i < self.prefix_keys().len() && #[trigger] self.prefix_keys()[i] == letters_key(sample_word@)
                    && row@ == self.cells()[i],
            r is None <==> !self.prefix_keys().contains(letters_key(sample_word@)),
    {
        match self.prefix_index(sample_word) {
            Some(i) => {
                proof {
                    let ks = self.prefix_keys();
                    let j = ks.index_of(letters_key(sample_word@));
                    assert(ks.contains(letters_key(sample_word@)));
                    assert(ks[j] == ks[i as int]);
                    if j != i {
                        if j < i {
                            assert(ks[j] != ks[i as int]);
                        } else {
                            assert(ks[i as int] != ks[j]);
                        }
                    }
                }
                Some(&self.rows[i])
            },
            None => None,
        }
    }

    /// Fill the cell of the empty prefix and empty suffix, if still pending.
    fn ensure_bootstrapped<O: MembershipOracle<Symbol = A>>(&mut self, mq: &mut O) -> (r: Result<(), TableQueryError<O::Error>>)
        requires
            old(self).wf(),
        ensures
            final(mq).language() == old(mq).language(),
            final(mq).never_fails() == old(mq).never_fails(),
            old(mq).never_fails() ==> r is Ok,
            r is Err ==> *final(self) == *old(self),
            r is Ok ==> final(self).wf() && !final(self).pending(),
            r is Ok ==> final(self).prefix_keys() == old(self).prefix_keys() && final(self).suffix_keys()
                == old(self).suffix_keys(),
            r is Ok ==> (old(self).filled_by(old(mq).language()) ==> final(self).filled_by(old(mq).language())),
    {
        if !self.bootstrap_pending {
            return Ok(());
        }
        let query_word = self.sample_prefix_words[0].concat(&self.experiment_suffix_words[0]);
        let value = match mq.query(&query_word) {
            Ok(v) => v,
            Err(source) => {
                return Err(TableQueryError::MembershipQuery { source });
            },
        };
        let mut row = RowVec::bot(1);
        let _ = row.set(0, value);
        self.rows.set(0, row);
        self.bootstrap_pending = false;
        proof {
            lemma_letters_key_concat(self.sample_prefix_words@[0]@, self.experiment_suffix_words@[0]@);
            assert(self.cells()[0][0] == value);
            assert(self.cells().len() == 1);
        }
        Ok(())
    }

    /// Add `word` as a prefix sample, with its row filled by queries, unless
    /// it is one already.
    fn insert_prefix_word<O: MembershipOracle<Symbol = A>>(&mut self, word: TimedWord<A>, mq: &mut O) -> (r: Result<
        (),
        TableQueryError<O::Error>,
    >)
        requires
            old(self).wf(),
            !old(self).pending(),
            forall|k: int| 0 <= k < word@.len() ==> old(self).prefix_keys().contains(#[trigger] letters_key(word@).take(k)),
        ensures
            final(mq).language() == old(mq).language(),
            final(mq).never_fails() == old(mq).never_fails(),
            old(mq).never_fails() ==> r is Ok,
            r is Err ==> *final(self) == *old(self),
            r is Ok ==> final(self).wf() && !final(self).pending(),
            r is Ok ==> final(self).prefix_keys() == add_missing(old(self).prefix_keys(), seq![letters_key(word@)])
                && final(self).suffix_keys() == old(self).suffix_keys(),
            r is Ok ==> (old(self).filled_by(old(mq).language()) ==> final(self).filled_by(old(mq).language())),
    {
        let ghost key = letters_key(word@);
        let ghost lang = mq.language();
        proof {
            lemma_add_missing_one(self.prefix_keys(), key);
        }
        if self.prefix_index(&word).is_some() {
            return Ok(());
        }
        let width = self.experiment_suffix_words.len();
        let mut row = RowVec::bot(width);
        let mut col: usize = 0;
        let mut failure: Option<O::Error> = None;
        while col < width && failure.is_none()
            invariant
                width == self.experiment_suffix_words@.len(),
                col <= width,
                row@.len() == width,
                mq.language() == lang,
                mq.never_fails() == old(mq).never_fails(),
                old(mq).never_fails() ==> failure is None,
                key == letters_key(word@),
                forall|j: int| 0 <= j < col ==> row@[j] == lang(key + self.suffix_keys()[j]),
            decreases width - col + (if failure is None { 1int } else { 0int }),
        {
            let query_word = word.concat(&self.experiment_suffix_words[col]);
            proof {
                lemma_letters_key_concat(word@, self.experiment_suffix_words@[col as int]@);
            }
            match mq.query(&query_word) {
                Ok(value) => {
                    let _ = row.set(col, value);
                    col = col + 1;
                },
                Err(source) => {
                    failure = Some(source);
                },
            }
        }
        if let Some(source) = failure {
            return Err(TableQueryError::MembershipQuery { source });
        }
        let ghost old_keys = self.prefix_keys();
        let ghost old_cells = self.cells();
        self.sample_prefix_words.push(word);
        self.rows.push(row);
        proof {
            let nk = self.prefix_keys();
            assert(nk =~= old_keys.push(key));
            assert(self.cells() =~= old_cells.push(row@));
            assert(keys_distinct(nk)) by {
                assert forall|i: int, j: int| 0 <= i < j < nk.len() implies nk[i] != nk[j] by {
                    if j == nk.len() - 1 {
                        assert(old_keys.contains(old_keys[i]));
                    }
                }
            }
            assert(prefix_closed(nk)) by {
                assert forall|i: int, k: int| 0 <= i < nk.len() && 0 <= k <= nk[i].len() implies nk.contains(
                    #[trigger] nk[i].take(k),
                ) by {
                    if i < old_keys.len() {
                        assert(old_keys.contains(old_keys[i].take(k)));
                        let j = choose|j: int| 0 <= j < old_keys.len() && old_keys[j] == old_keys[i].take(k);
                        assert(nk[j] == nk[i].take(k));
                    } else if k == nk[i].len() {
                        assert(nk[i].take(k) =~= nk[i]);
                    } else {
                        assert(key.len() == word@.len());
                        assert(old_keys.contains(key.take(k)));
                        let j = choose|j: int| 0 <= j < old_keys.len() && old_keys[j] == key.take(k);
                        assert(nk[j] == nk[i].take(k));
                    }
                }
            }
            assert(rows_have_len(self.cells(), self.suffix_keys().len()));
            if old(self).filled_by(lang) {
                assert forall|i: int, j: int|
                    0 <= i < self.cells().len() && 0 <= j < self.suffix_keys().len() implies #[trigger] self.cells()[i][j]
                    == lang(self.prefix_keys()[i] + self.suffix_keys()[j]) by {
                    if i < old_cells.len() {
                        assert(self.cells()[i] == old_cells[i]);
                    }
                }
            }
        }
        Ok(())
    }

    /// Add `word` as a suffix experiment, with its column filled by queries,
    /// unless it is one already. A failing query leaves the table in an
    /// unspecified state.
    fn insert_suffix_word<O: MembershipOracle<Symbol = A>>(&mut self, word: TimedWord<A>, mq: &mut O) -> (r: Result<
        (),
        TableQueryError<O::Error>,
    >)
        requires
            old(self).shaped(),
            !old(self).pending(),
        ensures
            final(mq).language() == old(mq).language(),
            final(mq).never_fails() == old(mq).never_fails(),
            old(mq).never_fails() ==> r is Ok,
            r is Ok ==> final(self).shaped() && !final(self).pending(),
            r is Ok ==> final(self).suffix_keys() == add_missing(old(self).suffix_keys(), seq![letters_key(word@)])
                && final(self).prefix_keys() == old(self).prefix_keys(),
            r is Ok ==> (old(self).filled_by(old(mq).language()) ==> final(self).filled_by(old(mq).language())),
    {
        let ghost key = letters_key(word@);
        let ghost lang = mq.language();
        proof {
            lemma_add_missing_one(self.suffix_keys(), key);
        }
        if self.suffix_index(&word).is_some() {
            return Ok(());
        }
        let ghost old_keys = self.suffix_keys();
        let ghost old_cells = self.cells();
        let ghost was_filled = self.filled_by(lang);
        let query_suffix = word.duplicate();
        self.experiment_suffix_words.push(word);
        proof {
            assert(self.suffix_keys() =~= old_keys.push(key));
        }
        let ne = self.experiment_suffix_words.len();
        let n = self.rows.len();
        let mut i: usize = 0;
        let mut failure: Option<O::Error> = None;
        while i < n && failure.is_none()
            invariant
                n == self.rows@.len(),
                n == old_cells.len(),
                n == self.sample_prefix_words@.len(),
                !self.pending(),
                i <= n,
                query_suffix@ == self.experiment_suffix_words@[old_keys.len() as int]@,
                letters_key(query_suffix@) == key,
                self.prefix_keys() == old(self).prefix_keys(),
                self.suffix_keys() == old_keys.push(key),
                old_keys.len() < ne,
                ne == self.experiment_suffix_words@.len(),
                mq.language() == lang,
                mq.never_fails() == old(mq).never_fails(),
                old(mq).never_fails() ==> failure is None,
                forall|k: int| 0 <= k < i ==> (#[trigger] self.cells()[k]) == old_cells[k].push(
                    lang(self.prefix_keys()[k] + key),
                ),
                forall|k: int| i <= k < n ==> (#[trigger] self.cells()[k]) == old_cells[k],
                rows_have_len(old_cells, old_keys.len()),
            decreases n - i + (if failure is None { 1int } else { 0int }),
        {
            let query_word = self.sample_prefix_words[i].concat(&query_suffix);
            proof {
                lemma_letters_key_concat(self.sample_prefix_words@[i as int]@, query_suffix@);
                assert(self.cells()[i as int] == old_cells[i as int]);
                assert(self.rows@[i as int]@.len() == old_keys.len());
            }
            match mq.query(&query_word) {
                Ok(value) => {
                    let mut row = self.rows[i].duplicate();
                    row.push_bit(value);
                    let ghost cells_before = self.cells();
                    let ghost rows_before = self.rows@;
                    let ghost new_row = row@;
                    self.rows.set(i, row);
                    proof {
                        assert(self.rows@ == rows_before.update(i as int, row));
                        assert forall|k: int| 0 <= k < n implies #[trigger] self.cells()[k] == (if k == i {
                            new_row
                        } else {
                            cells_before[k]
                        }) by {
                            assert(self.cells()[k] == self.rows@[k]@);
                            assert(cells_before[k] == rows_before[k]@);
                        }
                        assert(self.cells()[i as int] == old_cells[i as int].push(lang(self.prefix_keys()[i as int] + key)));
                    }
                    i = i + 1;
                },
                Err(source) => {
                    failure = Some(source);
                },
            }
        }
        if let Some(source) = failure {
            return Err(TableQueryError::MembershipQuery { source });
        }
        proof {
            let nk = self.suffix_keys();
            assert(keys_distinct(nk)) by {
                assert forall|a: int, b: int| 0 <= a < b < nk.len() implies nk[a] != nk[b] by {
                    if b == nk.len() - 1 {
                        assert(old_keys.contains(old_keys[a]));
                    }
                }
            }
            assert(rows_have_len(self.cells(), nk.len())) by {
                assert forall|k: int| 0 <= k < self.cells().len() implies (#[trigger] self.cells()[k]).len() == nk.len() by {
                    assert(self.cells()[k] == old_cells[k].push(lang(self.prefix_keys()[k] + key)));
                }
            }
            assert(nk[0] == old_keys[0]);
            if was_filled {
                assert forall|a: int, b: int|
                    0 <= a < self.cells().len() && 0 <= b < nk.len() implies #[trigger] self.cells()[a][b] == lang(
                    self.prefix_keys()[a] + nk[b],
                ) by {
                    assert(self.cells()[a] == old_cells[a].push(lang(self.prefix_keys()[a] + key)));
                    if b < old_keys.len() {
                        assert(self.cells()[a][b] == old_cells[a][b]);
                    }
                }
            }
        }
        Ok(())
    }

    /// Add `word` and all its prefixes, shortest first, to the prefix samples,
    /// filling the new rows by membership queries.
    pub fn insert_sample_prefixes<O: MembershipOracle<Symbol = A>>(&mut self, word: TimedWord<A>, mq: &mut O) -> (r:
        Result<(), TableQueryError<O::Error>>)
        requires
            old(self).wf(),
        ensures
            final(mq).language() == old(mq).language(),
            final(mq).never_fails() == old(mq).never_fails(),
            old(mq).never_fails() ==> r is Ok,
            final(self).wf(),
            r is Ok ==> !final(self).pending() && final(self).prefix_keys() == add_missing(
                old(self).prefix_keys(),
                prefix_keys_of(letters_key(word@)),
            ) && final(self).suffix_keys() == old(self).suffix_keys(),
            r is Ok ==> (old(self).filled_by(old(mq).language()) ==> final(self).filled_by(old(mq).language())),
    {
        let ghost lang = mq.language();
        let ghost key = letters_key(word@);
        let ghost start = self.prefix_keys();
        let ghost news = prefix_keys_of(key);
        let ghost was_filled = self.filled_by(lang);
        match self.ensure_bootstrapped(mq) {
            Ok(()) => {},
            Err(e) => {
                return Err(e);
            },
        }
        let prefixes = word.prefixes();
        let mut k: usize = 0;
        proof {
            assert(news.take(0) =~= Seq::<WordKey>::empty());
        }
        let mut failure: Option<TableQueryError<O::Error>> = None;
        while k < prefixes.len() && failure.is_none()
            invariant
                prefixes@.len() == word@.len() + 1,
                forall|j: int| 0 <= j < prefixes@.len() ==> #[trigger] prefixes@[j]@ == word@.take(j),
                key == letters_key(word@),
                news == prefix_keys_of(key),
                k <= prefixes@.len(),
                self.wf(),
                !self.pending(),
                self.prefix_keys() == add_missing(start, news.take(k as int)),
                self.suffix_keys() == old(self).suffix_keys(),
                mq.language() == lang,
                mq.never_fails() == old(mq).never_fails(),
                old(mq).never_fails() ==> failure is None,
                was_filled ==> self.filled_by(lang),
            decreases prefixes@.len() - k + (if failure is None { 1int } else { 0int }),
        {
            let p = prefixes[k].duplicate();
            proof {
                lemma_letters_key_take_skip(word@, k as int);
                lemma_add_missing(start, news.take(k as int));
                assert forall|j: int| 0 <= j < p@.len() implies self.prefix_keys().contains(
                    #[trigger] letters_key(p@).take(j),
                ) by {
                    assert(letters_key(p@).take(j) =~= news[j]);
                    assert(news.take(k as int)[j] == news[j]);
                    assert(news.take(k as int).contains(news[j]));
                }
            }
            match self.insert_prefix_word(p, mq) {
                Ok(()) => {
                    proof {
                        assert(news.take(k + 1) =~= news.take(k as int).push(letters_key(word@.take(k as int))));
                        lemma_add_missing_push(start, news.take(k as int), letters_key(word@.take(k as int)));
                    }
                    k = k + 1;
                },
                Err(e) => {
                    failure = Some(e);
                },
            }
        }
        if let Some(e) = failure {
            return Err(e);
        }
        proof {
            assert(news.take(k as int) =~= news);
        }
        Ok(())
    }

    /// Add `word` and all its suffixes, longest first, to the suffix
    /// experiments, filling the new columns by membership queries. A failing
    /// query leaves the table in an unspecified state.
    pub fn insert_experiment_suffixes<O: MembershipOracle<Symbol = A>>(&mut self, word: TimedWord<A>, mq: &mut O) -> (r:
        Result<(), TableQueryError<O::Error>>)
        requires
            old(self).wf(),
        ensures
            final(mq).language() == old(mq).language(),
            final(mq).never_fails() == old(mq).never_fails(),
            old(mq).never_fails() ==> r is Ok,
            r is Ok ==> final(self).wf() && !final(self).pending() && final(self).suffix_keys() == add_missing(
                old(self).suffix_keys(),
                suffix_keys_of(letters_key(word@)),
            ) && final(self).prefix_keys() == old(self).prefix_keys(),
            r is Ok ==> (old(self).filled_by(old(mq).language()) ==> final(self).filled_by(old(mq).language())),
    {
        let ghost lang = mq.language();
        let ghost key = letters_key(word@);
        let ghost start = self.suffix_keys();
        let ghost news = suffix_keys_of(key);
        let ghost was_filled = self.filled_by(lang);
        match self.ensure_bootstrapped(mq) {
            Ok(()) => {},
            Err(e) => {
                return Err(e);
            },
        }
        let suffixes = word.suffixes();
        let n = suffixes.len();
        let mut k: usize = 0;
        proof {
            assert(news.take(0) =~= Seq::<WordKey>::empty());
        }
        let mut failure: Option<TableQueryError<O::Error>> = None;
        while k < n && failure.is_none()
            invariant
                n == suffixes@.len(),
                n == word@.len() + 1,
                forall|j: int| 0 <= j < n ==> #[trigger] suffixes@[j]@ == word@.skip(j),
                key == letters_key(word@),
                key.len() == word@.len(),
                news == suffix_keys_of(key),
                k <= n,
                mq.language() == lang,
                mq.never_fails() == old(mq).never_fails(),
                old(mq).never_fails() ==> failure is None,
                failure is None ==> self.shaped(),
                failure is None ==> !self.pending(),
                failure is None ==> self.suffix_keys() == add_missing(start, news.take(k as int)),
                failure is None ==> self.prefix_keys() == old(self).prefix_keys(),
                failure is None ==> (was_filled ==> self.filled_by(lang)),
                failure is None ==> forall|a: int, m: int|
                    0 <= a < self.suffix_keys().len() && 0 <= m <= self.suffix_keys()[a].len() ==> self.suffix_keys().contains(
                        #[trigger] self.suffix_keys()[a].skip(m),
                    ) || exists|j: int| k <= j <= key.len() && self.suffix_keys()[a].skip(m) == #[trigger] key.skip(j),
            decreases n - k + (if failure is None { 1int } else { 0int }),
        {
            let p = suffixes[k].duplicate();
            let ghost before = self.suffix_keys();
            proof {
                lemma_letters_key_take_skip(word@, k as int);
            }
            match self.insert_suffix_word(p, mq) {
                Ok(()) => {
                    proof {
                        let x = key.skip(k as int);
                        assert(news[k as int] == x);
                        assert(news.take(k + 1) =~= news.take(k as int).push(x));
                        lemma_add_missing_push(start, news.take(k as int), x);
                        lemma_add_missing(before, seq![x]);
                        let ks = self.suffix_keys();
                        assert(seq![x][0] == x);
                        assert(seq![x].contains(x));
                        assert(ks.contains(x));
                        assert forall|a: int, m: int|
                            0 <= a < ks.len() && 0 <= m <= ks[a].len() implies ks.contains(#[trigger] ks[a].skip(m))
                            || exists|j: int| k + 1 <= j <= key.len() && ks[a].skip(m) == #[trigger] key.skip(j) by {
                            assert(ks.contains(ks[a]));
                            if before.contains(ks[a]) {
                                let b = choose|b: int| 0 <= b < before.len() && before[b] == ks[a];
                                if !before.contains(before[b].skip(m)) {
                                    let j = choose|j: int| k <= j <= key.len() && before[b].skip(m) == #[trigger] key.skip(j);
                                    if j == k {
                                        assert(ks.contains(x));
                                    } else {
                                        assert(ks[a].skip(m) == key.skip(j));
                                    }
                                } else {
                                    let c = choose|c: int| 0 <= c < before.len() && before[c] == before[b].skip(m);
                                    assert(ks.contains(before[c]));
                                }
                            } else {
                                assert(seq![x].contains(ks[a]));
                                assert(ks[a] == x);
                                assert(x.skip(m) =~= key.skip(k + m));
                                if m == 0 {
                                    assert(x.skip(m) =~= x);
                                } else {
                                    assert(ks[a].skip(m) == key.skip(k + m));
                                }
                            }
                        }
                    }
                    k = k + 1;
                },
                Err(e) => {
                    failure = Some(e);
                },
            }
        }
        if let Some(e) = failure {
            return Err(e);
        }
        proof {
            assert(news.take(k as int) =~= news);
            let ks = self.suffix_keys();
            assert forall|a: int, m: int| 0 <= a < ks.len() && 0 <= m <= ks[a].len() implies ks.contains(
                #[trigger] ks[a].skip(m),
            ) by {
                if !ks.contains(ks[a].skip(m)) {
                    let j = choose|j: int| k <= j <= key.len() && ks[a].skip(m) == #[trigger] key.skip(j);
                }
            }
        }
        Ok(())
    }

    /// The suffix experiments, in insertion order.
    pub closed spec fn suffix_words(&self) -> Seq<TimedWord<A>> {
        self.experiment_suffix_words@
    }

    /// All table words: the prefix samples, then the suffix experiments.
    pub closed spec fn table_words(&self) -> Seq<TimedWord<A>> {
        self.sample_prefix_words@ + self.experiment_suffix_words@
    }

    /// Copies of the rows at `idxs`, in order; an error for the first index
    /// that is out of bounds.
    pub fn rows_of_indices(&self, idxs: &[usize]) -> (r: Result<Vec<RowVec>, TableError>)
        ensures
            (forall|k: int| 0 <= k < idxs@.len() ==> #[trigger] idxs@[k] < self.cells().len()) ==> (r matches Ok(
                rows,
            ) && row_views(rows@) == Seq::new(idxs@.len(), |k: int| self.cells()[idxs@[k] as int])),
            r matches Err(e) ==> exists|k: int|
                0 <= k < idxs@.len() && #[trigger] idxs@[k] >= self.cells().len() && (forall|j: int|
                    0 <= j < k ==> idxs@[j] < self.cells().len()) && e == (TableError::IndexOutOfBounds {
                    index: idxs@[k],
                    len: self.cells().len() as usize,
                }),
    {
        let mut out: Vec<RowVec> = Vec::new();
        let mut k: usize = 0;
        while k < idxs.len()
            invariant
                k <= idxs@.len(),
                out@.len() == k,
                forall|j: int| 0 <= j < k ==> idxs@[j] < self.cells().len(),
                forall|j: int| 0 <= j < k ==> (#[trigger] out@[j])@ == self.cells()[idxs@[j] as int],
            decreases idxs@.len() - k,
        {
            let idx = idxs[k];
            if idx >= self.rows.len() {
                return Err(TableError::IndexOutOfBounds { index: idx, len: self.rows.len() });
            }
            out.push(self.rows[idx].duplicate());
            k = k + 1;
        }
        assert(row_views(out@) =~= Seq::new(idxs@.len(), |k: int| self.cells()[idxs@[k] as int]));
        Ok(out)
    }

    /// Copies of all rows, one per prefix sample.
    pub fn rows_of_all_sample_prefixes(&self) -> (r: Vec<RowVec>)
        ensures
            row_views(r@) == self.cells(),
    {
        let mut out: Vec<RowVec> = Vec::new();
        let mut k: usize = 0;
        while k < self.rows.len()
            invariant
                k <= self.rows@.len(),
                out@.len() == k,
                forall|j: int| 0 <= j < k ==> (#[trigger] out@[j])@ == self.cells()[j],
            decreases self.rows@.len() - k,
        {
            out.push(self.rows[k].duplicate());
            k = k + 1;
        }
        assert(row_views(out@) =~= self.cells());
        out
    }

    /// Copies of all table words: the prefix samples, then the suffix
    /// experiments.
    fn all_words(&self) -> (r: Vec<TimedWord<A>>)
        ensures
            r@.len() == self.table_words().len(),
            forall|i: int| 0 <= i < r@.len() ==> (#[trigger] r@[i])@ == self.table_words()[i]@,
    {
        let mut out: Vec<TimedWord<A>> = Vec::new();
        let mut k: usize = 0;
        while k < self.sample_prefix_words.len()
            invariant
                k <= self.sample_prefix_words@.len(),
                out@.len() == k,
                forall|j: int| 0 <= j < k ==> (#[trigger] out@[j])@ == self.sample_prefix_words@[j]@,
            decreases self.sample_prefix_words@.len() - k,
        {
            out.push(self.sample_prefix_words[k].duplicate());
            k = k + 1;
        }
        let ns = self.sample_prefix_words.len();
        let mut k: usize = 0;
        while k < self.experiment_suffix_words.len()
            invariant
                ns == self.sample_prefix_words@.len(),
                k <= self.experiment_suffix_words@.len(),
                out@.len() == ns + k,
                forall|j: int| 0 <= j < ns ==> (#[trigger] out@[j])@ == self.sample_prefix_words@[j]@,
                forall|j: int| 0 <= j < k ==> (#[trigger] out@[ns + j])@ == self.experiment_suffix_words@[j]@,
            decreases self.experiment_suffix_words@.len() - k,
        {
            out.push(self.experiment_suffix_words[k].duplicate());
            k = k + 1;
        }
        proof {
            assert forall|i: int| 0 <= i < out@.len() implies (#[trigger] out@[i])@ == self.table_words()[i]@ by {
                if i >= ns {
                    assert(out@[ns + (i - ns)] == out@[i]);
                }
            }
        }
        out
    }

    /// Every timed letter of the table words, each once (by symbol key and
    /// delay), in order of first occurrence over the prefix samples and then
    /// the suffix experiments.
    pub fn timed_letters(&self) -> (r: Vec<(A, DelayRep)>)
        ensures
            forall|i: int, j: int|
                0 <= i < self.table_words().len() && 0 <= j < self.table_words()[i]@.len() ==> contains_letter_key(
                    r@,
                    #[trigger] self.table_words()[i]@[j],
                ),
            forall|k: int| 0 <= k < r@.len() ==> occurs_in(self.table_words(), #[trigger] r@[k]),
            forall|a: int, b: int| 0 <= a < b < r@.len() ==> letter_key(#[trigger] r@[a]) != letter_key(#[trigger] r@[b]),
    {
        let words = self.all_words();
        let r = collect_timed_letters(words.as_slice());
        proof {
            assert forall|i: int, j: int|
                0 <= i < self.table_words().len() && 0 <= j < self.table_words()[i]@.len() implies contains_letter_key(
                r@,
                #[trigger] self.table_words()[i]@[j],
            ) by {
                assert(words@[i]@[j] == self.table_words()[i]@[j]);
            }
            assert forall|k: int| 0 <= k < r@.len() implies occurs_in(self.table_words(), #[trigger] r@[k]) by {
                assert(occurs_in(words@, r@[k]));
                let (i, j) = choose|i: int, j: int|
                    0 <= i < words@.len() && 0 <= j < words@[i]@.len() && #[trigger] words@[i]@[j] == r@[k];
                assert(self.table_words()[i]@[j] == r@[k]);
            }
        }
        r
    }

    /// The timed letters of the table words in order of first occurrence:
    /// the prefix samples first, then the suffix experiments.
    pub fn ordered_timed_letters(&self) -> (r: Vec<(A, DelayRep)>)
        ensures
            forall|i: int, j: int|
                0 <= i < self.table_words().len() && 0 <= j < self.table_words()[i]@.len() ==> contains_letter_key(
                    r@,
                    #[trigger] self.table_words()[i]@[j],
                ),
            forall|k: int| 0 <= k < r@.len() ==> occurs_in(self.table_words(), #[trigger] r@[k]),
            forall|a: int, b: int| 0 <= a < b < r@.len() ==> letter_key(#[trigger] r@[a]) != letter_key(#[trigger] r@[b]),
    {
        self.timed_letters()
    }

    /// The timed letters of the suffix experiments in order of first
    /// occurrence.
    pub fn ordered_experiment_timed_letters(&self) -> (r: Vec<(A, DelayRep)>)
        ensures
            forall|i: int, j: int|
                0 <= i < self.suffix_words().len() && 0 <= j < self.suffix_words()[i]@.len()
                    ==> contains_letter_key(r@, #[trigger] self.suffix_words()[i]@[j]),
            forall|k: int| 0 <= k < r@.len() ==> occurs_in(self.suffix_words(), #[trigger] r@[k]),
            forall|a: int, b: int| 0 <= a < b < r@.len() ==> letter_key(#[trigger] r@[a]) != letter_key(#[trigger] r@[b]),
    {
        collect_timed_letters(self.experiment_suffix_words.as_slice())
    }

    /// `true` iff the prefix samples are prefix-closed.
    pub fn is_prefix_closed(&self) -> (b: bool)
        ensures
            b == prefix_closed(self.prefix_keys()),
    {
        let ks = Ghost(self.prefix_keys());
        let mut i: usize = 0;
        while i < self.sample_prefix_words.len()
            invariant
                ks@ == self.prefix_keys(),
                i <= ks@.len(),
                forall|a: int, k: int| 0 <= a < i && 0 <= k <= ks@[a].len() ==> ks@.contains(#[trigger] ks@[a].take(k)),
            decreases ks@.len() - i,
        {
            let prefixes = self.sample_prefix_words[i].prefixes();
            let mut k: usize = 0;
            while k < prefixes.len()
                invariant
                    ks@ == self.prefix_keys(),
                    i < ks@.len(),
                    prefixes@.len() == self.sample_prefix_words@[i as int]@.len() + 1,
                    forall|j: int| 0 <= j < prefixes@.len() ==> #[trigger] prefixes@[j]@ == self.sample_prefix_words@[i as int]@.take(j),
                    k <= prefixes@.len(),
                    forall|j: int| 0 <= j < k ==> ks@.contains(#[trigger] ks@[i as int].take(j)),
                decreases prefixes@.len() - k,
            {
                proof {
                    lemma_letters_key_take_skip(self.sample_prefix_words@[i as int]@, k as int);
                    assert(letters_key(prefixes@[k as int]@) == ks@[i as int].take(k as int));
                }
                if self.prefix_index(&prefixes[k]).is_none() {
                    assert(!ks@.contains(ks@[i as int].take(k as int)));
                    return false;
                }
                k = k + 1;
            }
            i = i + 1;
        }
        true
    }

    /// `true` iff the suffix experiments are suffix-closed.
    pub fn is_suffix_closed(&self) -> (b: bool)
        ensures
            b == suffix_closed(self.suffix_keys()),
    {
        let ks = Ghost(self.suffix_keys());
        let mut i: usize = 0;
        while i < self.experiment_suffix_words.len()
            invariant
                ks@ == self.suffix_keys(),
                i <= ks@.len(),
                forall|a: int, k: int| 0 <= a < i && 0 <= k <= ks@[a].len() ==> ks@.contains(#[trigger] ks@[a].skip(k)),
            decreases ks@.len() - i,
        {
            let suffixes = self.experiment_suffix_words[i].suffixes();
            let mut k: usize = 0;
            while k < suffixes.len()
                invariant
                    ks@ == self.suffix_keys(),
                    i < ks@.len(),
                    suffixes@.len() == self.experiment_suffix_words@[i as int]@.len() + 1,
                    forall|j: int| 0 <= j < suffixes@.len() ==> #[trigger] suffixes@[j]@ == self.experiment_suffix_words@[i as int]@.skip(j),
                    k <= suffixes@.len(),
                    forall|j: int| 0 <= j < k ==> ks@.contains(#[trigger] ks@[i as int].skip(j)),
                decreases suffixes@.len() - k,
            {
                proof {
                    lemma_letters_key_take_skip(self.experiment_suffix_words@[i as int]@, k as int);
                    assert(letters_key(suffixes@[k as int]@) == ks@[i as int].skip(k as int));
                }
                if self.suffix_index(&suffixes[k]).is_none() {
                    assert(!ks@.contains(ks@[i as int].skip(k as int)));
                    return false;
                }
                k = k + 1;
            }
            i = i + 1;
        }
        true
    }

    /// `true` iff no word occurs twice in `words` (by key).
    fn words_distinct(words: &Vec<TimedWord<A>>) -> (b: bool)
        ensures
            b == keys_distinct(word_keys(words@)),
    {
        let ghost ks = word_keys(words@);
        let mut i: usize = 0;
        while i < words.len()
            invariant
                ks == word_keys(words@),
                i <= words@.len(),
                forall|a: int, b: int| 0 <= a < b < ks.len() && a < i ==> ks[a] != ks[b],
            decreases words@.len() - i,
        {
            let mut j: usize = i + 1;
            while j < words.len()
                invariant
                    ks == word_keys(words@),
                    i < words@.len(),
                    i + 1 <= j <= words@.len(),
                    forall|a: int, b: int| 0 <= a < b < ks.len() && a < i ==> ks[a] != ks[b],
                    forall|b: int| i < b < j ==> ks[i as int] != ks[b],
                decreases words@.len() - j,
            {
                if words[i].same_word(&words[j]) {
                    assert(ks[i as int] == ks[j as int]);
                    return false;
                }
                j = j + 1;
            }
            i = i + 1;
        }
        true
    }

    /// Check the table's shape: one row per prefix sample, each as wide as
    /// the suffix experiments, no duplicate words, and prefix and suffix
    /// closure. `Ok` exactly when the table is consistent.
    pub fn validate_invariants(&self) -> (r: Result<(), TableError>)
        ensures
            r is Ok <==> self.consistent(),
            self.cells().len() != self.prefix_keys().len() ==> r == Err::<(), TableError>(
                TableError::LengthMismatch {
                    expected: self.prefix_keys().len() as usize,
                    found: self.cells().len() as usize,
                },
            ),
    {
        if self.sample_prefix_words.len() != self.rows.len() {
            return Err(TableError::LengthMismatch {
                expected: self.sample_prefix_words.len(),
                found: self.rows.len(),
            });
        }
        assert(self.cells().len() == self.prefix_keys().len());
        let width = self.experiment_suffix_words.len();
        let mut k: usize = 0;
        while k < self.rows.len()
            invariant
                self.cells().len() == self.prefix_keys().len(),
                width == self.suffix_keys().len(),
                k <= self.rows@.len(),
                forall|j: int| 0 <= j < k ==> (#[trigger] self.cells()[j]).len() == width,
            decreases self.rows@.len() - k,
        {
            let found = self.rows[k].len();
            if found != width {
                assert(self.cells()[k as int].len() != width);
                return Err(TableError::LengthMismatch { expected: width, found });
            }
            k = k + 1;
        }
        if !Self::words_distinct(&self.sample_prefix_words) {
            return Err(TableError::InvariantViolation("sample prefixes contain a repeated word"));
        }
        if !Self::words_distinct(&self.experiment_suffix_words) {
            return Err(TableError::InvariantViolation("experiment suffixes contain a repeated word"));
        }
        if !self.is_prefix_closed() {
            return Err(TableError::InvariantViolation("sample prefixes are not prefix-closed"));
        }
        if !self.is_suffix_closed() {
            return Err(TableError::InvariantViolation("experiment suffixes are not suffix-closed"));
        }
        Ok(())
    }

    /// `true` iff `word` is a prefix sample.
    pub fn contains_sample_prefix(&self, word: &TimedWord<A>) -> (b: bool)
        ensures
            b == self.prefix_keys().contains(letters_key(word@)),
    {
        self.prefix_index(word).is_some()
    }
}

/// What the table invariant gives: a consistent table seeded with the empty
/// word in both sets.
pub proof fn lemma_wf_facts<A: Symbol>(t: ObservationTable<A>)
    requires
        t.wf(),
    ensures
        t.consistent(),
        t.prefix_keys().len() >= 1,
        t.suffix_keys().len() >= 1,
        t.prefix_keys()[0] == Seq::<(Seq<char>, u32)>::empty(),
        t.suffix_keys()[0] == Seq::<(Seq<char>, u32)>::empty(),
{
}

/// The row of the `i`th prefix sample is the row for its key.
pub proof fn lemma_row_for_index<A: Symbol>(t: ObservationTable<A>, i: int)
    requires
        t.wf(),
        0 <= i < t.cells().len(),
    ensures
        t.row_for(t.prefix_keys()[i]) == t.cells()[i],
        t.prefix_keys().contains(t.prefix_keys()[i]),
{
    let ks = t.prefix_keys();
    assert(ks.contains(ks[i]));
    let j = ks.index_of(ks[i]);
    if j != i {
        if j < i {
            assert(ks[j] != ks[i]);
        } else {
            assert(ks[i] != ks[j]);
        }
    }
}

/// A row for a prefix-sample key is as wide as the suffix experiments.
pub proof fn lemma_row_for_width<A: Symbol>(t: ObservationTable<A>, k: WordKey)
    requires
        t.wf(),
        t.prefix_keys().contains(k),
    ensures
        t.row_for(k).len() == t.suffix_keys().len(),
{
    let i = t.prefix_keys().index_of(k);
    assert(0 <= i < t.prefix_keys().len());
    assert(t.cells()[i].len() == t.suffix_keys().len());
}

} // verus!
