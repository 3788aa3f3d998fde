//! Membership oracles: exact membership against a known automaton, and a
//! caching wrapper around any membership oracle.

use vstd::prelude::*;

use crate::arta::{Arta, ArtaModel};
use crate::symbol::Symbol;
use crate::timed_word::{letters_key, TimedWord};

verus! {

/// The identifying content of a timed word: symbol keys and half units.
pub type WordKey = Seq<(Seq<char>, u32)>;

/// A membership oracle answers whether a timed word is accepted by its
/// target language.
pub trait MembershipOracle {
    /// Alphabet symbol type used by the oracle.
    type Symbol: Symbol;

    /// Oracle-specific error type.
    type Error;

    /// The target language, on word keys.
    spec fn language(&self) -> spec_fn(WordKey) -> bool;

    /// `true` for an oracle whose queries never fail.
    spec fn never_fails(&self) -> bool;

    /// Query whether `w` is accepted by the target language. A query does
    /// not change the target language, and an oracle that never fails
    /// answers.
    fn query(&mut self, w: &TimedWord<Self::Symbol>) -> (r: Result<bool, Self::Error>)
        ensures
            final(self).language() == old(self).language(),
            final(self).never_fails() == old(self).never_fails(),
            old(self).never_fails() ==> r is Ok,
            r matches Ok(b) ==> b == (old(self).language())(letters_key(w@)),
    ;
}

/// Exact membership oracle that answers each query by running a known
/// target automaton.
#[derive(Debug, Clone)]
pub struct ArtaMembershipOracle<A: Symbol> {
    target: Arta<A>,
}

impl<A: Symbol> ArtaMembershipOracle<A> {
    /// The target automaton's content.
    pub closed spec fn target_model(&self) -> ArtaModel {
        self.target@
    }

    /// An oracle over `target`; it never fails.
    pub fn new(target: Arta<A>) -> (r: Self)
        ensures
            r.target_model() == target@,
    {
        ArtaMembershipOracle { target }
    }
}

impl<A: Symbol> MembershipOracle for ArtaMembershipOracle<A> {
    type Symbol = A;

    type Error = std::convert::Infallible;

    open spec fn language(&self) -> spec_fn(WordKey) -> bool {
        |w: WordKey| self.target_model().accepts(w)
    }

    open spec fn never_fails(&self) -> bool {
        true
    }

    fn query(&mut self, w: &TimedWord<A>) -> (r: Result<bool, std::convert::Infallible>)
        ensures
            r == Ok::<bool, std::convert::Infallible>(old(self).target_model().accepts(letters_key(w@))),
    {
        Ok(self.target.accepts(w))
    }
}

/// The answer cached for key `k` in `c`: that of its first entry with key `k`.
pub open spec fn cached_answer(c: Seq<(WordKey, bool)>, k: WordKey) -> Option<bool>
    decreases c.len(),
{
    if c.len() == 0 {
        None
    } else if c[0].0 == k {
        Some(c[0].1)
    } else {
        cached_answer(c.drop_first(), k)
    }
}

proof fn lemma_cached_answer_push(c: Seq<(WordKey, bool)>, k: WordKey, b: bool, q: WordKey)
    ensures
        cached_answer(c.push((k, b)), q) == match cached_answer(c, q) {
            Some(a) => Some(a),
            None => if q == k {
                Some(b)
            } else {
                None
            },
        },
    decreases c.len(),
{
    let t = c.push((k, b));
    if c.len() > 0 {
        assert(t.drop_first() =~= c.drop_first().push((k, b)));
        lemma_cached_answer_push(c.drop_first(), k, b, q);
    } else {
        assert(t[0] == (k, b));
        assert(t.drop_first().len() == 0);
        assert(cached_answer(t.drop_first(), q) is None);
    }
}

proof fn lemma_cached_answer_at(c: Seq<(WordKey, bool)>, i: int, k: WordKey)
    requires
        0 <= i < c.len(),
        c[i].0 == k,
        forall|j: int| 0 <= j < i ==> c[j].0 != k,
    ensures
        cached_answer(c, k) == Some(c[i].1),
    decreases i,
{
    if i > 0 {
        lemma_cached_answer_at(c.drop_first(), i - 1, k);
    }
}

proof fn lemma_cached_answer_none(c: Seq<(WordKey, bool)>, k: WordKey)
    requires
        forall|j: int| 0 <= j < c.len() ==> c[j].0 != k,
    ensures
        cached_answer(c, k) is None,
    decreases c.len(),
{
    if c.len() > 0 {
        lemma_cached_answer_none(c.drop_first(), k);
    }
}

/// A membership oracle that caches the successful answers of another one.
///
/// A repeated query is answered from the cache without asking the wrapped
/// oracle again; errors of the wrapped oracle are passed on and not cached.
pub struct CachingMembershipOracle<O: MembershipOracle> {
    inner: O,
    cache: Vec<(TimedWord<O::Symbol>, bool)>,
    cache_hits: usize,
    cache_misses: usize,
}

impl<O: MembershipOracle> CachingMembershipOracle<O> {
    /// The wrapped oracle.
    pub closed spec fn inner_oracle(&self) -> O {
        self.inner
    }

    /// The cache: word keys with their answers, in the order they were
    /// cached.
    pub closed spec fn entries(&self) -> Seq<(WordKey, bool)> {
        Seq::new(self.cache@.len(), |i: int| (letters_key(self.cache@[i].0@), self.cache@[i].1))
    }

    /// The number of queries answered from the cache.
    pub closed spec fn hit_count(&self) -> usize {
        self.cache_hits
    }

    /// The number of queries passed on to the wrapped oracle.
    pub closed spec fn miss_count(&self) -> usize {
        self.cache_misses
    }

    /// Every cached answer is the wrapped oracle's, and no word is cached
    /// twice.
    pub open spec fn consistent(&self) -> bool {
        &&& forall|i: int|
            0 <= i < self.entries().len() ==> #[trigger] self.entries()[i].1 == (
            self.inner_oracle().language())(self.entries()[i].0)
        &&& forall|i: int, j: int|
            0 <= i < j < self.entries().len() ==> #[trigger] self.entries()[i].0 != #[trigger] self.entries()[j].0
    }

    /// A caching oracle around `inner`, with an empty cache and zero
    /// counters.
    pub fn new(inner: O) -> (r: Self)
        ensures
            r.inner_oracle() == inner,
            r.entries().len() == 0,
            r.hit_count() == 0,
            r.miss_count() == 0,
            r.consistent(),
    {
        CachingMembershipOracle { inner, cache: Vec::new(), cache_hits: 0, cache_misses: 0 }
    }

    /// The number of cached words.
    pub fn cache_len(&self) -> (r: usize)
        ensures
            r == self.entries().len(),
    {
        self.cache.len()
    }

    /// Forget all cached answers; the counters stay.
    pub fn clear_cache(&mut self)
        ensures
            final(self).inner_oracle() == old(self).inner_oracle(),
            final(self).entries().len() == 0,
            final(self).hit_count() == old(self).hit_count(),
            final(self).miss_count() == old(self).miss_count(),
            final(self).consistent(),
    {
        self.cache = Vec::new();
    }

    /// The number of queries answered from the cache so far.
    pub fn cache_hits(&self) -> (r: usize)
        ensures
            r == self.hit_count(),
    {
        self.cache_hits
    }

    /// The number of queries passed on to the wrapped oracle so far.
    pub fn cache_misses(&self) -> (r: usize)
        ensures
            r == self.miss_count(),
    {
        self.cache_misses
    }

    /// The position of the first cached word with the same key as `w`.
    fn lookup(&self, w: &TimedWord<O::Symbol>) -> (r: Option<usize>)
        ensures
            r is None ==> cached_answer(self.entries(), letters_key(w@)) is None,
            r matches Some(i) ==> i < self.cache@.len() && cached_answer(self.entries(), letters_key(w@))
                == Some(self.cache@[i as int].1),
    {
        let mut i: usize = 0;
        while i < self.cache.len()
            invariant
                i <= self.cache@.len(),
                forall|j: int| 0 <= j < i ==> self.entries()[j].0 != letters_key(w@),
            decreases self.cache@.len() - i,
        {
            if self.cache[i].0.same_word(w) {
                proof {
                    lemma_cached_answer_at(self.entries(), i as int, letters_key(w@));
                }
                return Some(i);
            }
            i = i + 1;
        }
        proof {
            lemma_cached_answer_none(self.entries(), letters_key(w@));
        }
        None
    }
}

impl<O: MembershipOracle> MembershipOracle for CachingMembershipOracle<O> {
    type Symbol = O::Symbol;

    type Error = O::Error;

    /// A cached answer where there is one, the wrapped oracle's elsewhere.
    open spec fn language(&self) -> spec_fn(WordKey) -> bool {
        |k: WordKey|
            match cached_answer(self.entries(), k) {
                Some(b) => b,
                None => (self.inner_oracle().language())(k),
            }
    }

    /// The wrapped oracle never fails.
    open spec fn never_fails(&self) -> bool {
        self.inner_oracle().never_fails()
    }

    fn query(&mut self, w: &TimedWord<O::Symbol>) -> (r: Result<bool, O::Error>)
        ensures
            final(self).inner_oracle().language() == old(self).inner_oracle().language(),
            old(self).consistent() ==> final(self).consistent(),
            cached_answer(old(self).entries(), letters_key(w@)) is Some ==> {
                &&& final(self).inner_oracle() == old(self).inner_oracle()
                &&& final(self).entries() == old(self).entries()
                &&& final(self).hit_count() == old(self).hit_count().saturating_add(1)
                &&& final(self).miss_count() == old(self).miss_count()
                &&& r is Ok
            },
            cached_answer(old(self).entries(), letters_key(w@)) is None ==> {
                &&& final(self).hit_count() == old(self).hit_count()
                &&& final(self).miss_count() == old(self).miss_count().saturating_add(1)
                &&& final(self).entries() == match r {
                    Ok(b) => old(self).entries().push((letters_key(w@), b)),
                    Err(_) => old(self).entries(),
                }
            },
    {
        let ghost k = letters_key(w@);
        let ghost old_entries = self.entries();
        let ghost old_lang = self.language();
        match self.lookup(w) {
            Some(i) => {
                let answer = self.cache[i].1;
                self.cache_hits = self.cache_hits.saturating_add(1);
                assert(self.entries() =~= old_entries);
                assert(self.language() =~= old_lang);
                Ok(answer)
            },
            None => {
                self.cache_misses = self.cache_misses.saturating_add(1);
                let result = self.inner.query(w);
                match result {
                    Ok(b) => {
                        let ghost prev = self.cache@;
                        self.cache.push((w.duplicate(), b));
                        proof {
                            assert(self.entries() =~= old_entries.push((k, b)));
                            assert forall|q: WordKey| #[trigger] (self.language())(q) == old_lang(q) by {
                                lemma_cached_answer_push(old_entries, k, b, q);
                            }
                            assert(self.language() =~= old_lang);
                            if old(self).consistent() {
                                assert forall|i: int, j: int|
                                    0 <= i < j < self.entries().len() implies #[trigger] self.entries()[i].0
                                    != #[trigger] self.entries()[j].0 by {
                                    if j == old_entries.len() {
                                        if old_entries[i].0 == k {
                                            lemma_cached_answer_at(old_entries, i, k);
                                        }
                                    } else {
                                        assert(old_entries[i].0 != old_entries[j].0);
                                    }
                                }
                                assert forall|i: int| 0 <= i < self.entries().len() implies #[trigger] self.entries()[i].1
                                    == (self.inner_oracle().language())(self.entries()[i].0) by {
                                    if i < old_entries.len() {
                                        assert(old_entries[i].1 == (old(self).inner_oracle().language())(
                                            old_entries[i].0,
                                        ));
                                    }
                                }
                            }
                        }
                        Ok(b)
                    },
                    Err(e) => {
                        assert(self.entries() =~= old_entries);
                        assert(self.language() =~= old_lang);
                        Err(e)
                    },
                }
            },
        }
    }
}

proof fn lemma_cached_answer_from(c: Seq<(WordKey, bool)>, k: WordKey)
    requires
        cached_answer(c, k) is Some,
    ensures
        exists|i: int| 0 <= i < c.len() && c[i].0 == k && Some(c[i].1) == cached_answer(c, k),
    decreases c.len(),
{
    if c[0].0 != k {
        lemma_cached_answer_from(c.drop_first(), k);
        let i = choose|i: int|
            0 <= i < c.drop_first().len() && c.drop_first()[i].0 == k && Some(c.drop_first()[i].1)
                == cached_answer(c.drop_first(), k);
        assert(c[i + 1] == c.drop_first()[i]);
    } else {
        assert(c[0].0 == k);
    }
}

/// A consistent caching oracle answers every word exactly as the oracle it
/// wraps: caching never changes an answer.
pub proof fn lemma_caching_preserves_answers<O: MembershipOracle>(o: CachingMembershipOracle<O>)
    requires
        o.consistent(),
    ensures
        o.language() == o.inner_oracle().language(),
{
    assert forall|k: WordKey| #[trigger] (o.language())(k) == (o.inner_oracle().language())(k) by {
        if cached_answer(o.entries(), k) is Some {
            lemma_cached_answer_from(o.entries(), k);
            let i = choose|i: int|
                0 <= i < o.entries().len() && o.entries()[i].0 == k && Some(o.entries()[i].1) == cached_answer(
                    o.entries(),
                    k,
                );
            assert(o.entries()[i].1 == (o.inner_oracle().language())(o.entries()[i].0));
        }
    }
    assert(o.language() =~= o.inner_oracle().language());
}

} // verus!
