//! Timed words: finite sequences of timed letters `(a, d)`.

use vstd::prelude::*;

use crate::symbol::Symbol;
use crate::time::delay::DelayRep;

verus! {

/// A single timed letter `(a, d)`.
pub type TimedLetter<A, D = DelayRep> = (A, D);

/// A timed word: a finite sequence of timed letters.
///
/// Its view is the sequence of its letters.
#[derive(Debug, Clone, PartialEq, Eq, Hash, Default)]
pub struct TimedWord<A, D = DelayRep> {
    letters: Vec<(A, D)>,
}

impl<A, D> View for TimedWord<A, D> {
    type V = Seq<(A, D)>;

    closed spec fn view(&self) -> Seq<(A, D)> {
        self.letters@
    }
}

/// The identifying content of a timed letter: symbol key and half units.
pub open spec fn letter_key<A: Symbol>(l: (A, DelayRep)) -> (Seq<char>, u32) {
    (l.0.key(), l.1@)
}

/// The identifying content of a sequence of timed letters.
pub open spec fn letters_key<A: Symbol>(s: Seq<(A, DelayRep)>) -> Seq<(Seq<char>, u32)> {
    s.map_values(|l: (A, DelayRep)| letter_key(l))
}

impl<A, D> TimedWord<A, D> {
    /// The empty timed word.
    pub fn empty() -> (w: Self)
        ensures
            w@ == Seq::<(A, D)>::empty(),
    {
        TimedWord { letters: Vec::new() }
    }

    /// A timed word with the given letters, in order.
    pub fn from_vec(vec: Vec<(A, D)>) -> (w: Self)
        ensures
            w@ == vec@,
    {
        TimedWord { letters: vec }
    }

    /// The number of letters.
    pub fn len(&self) -> (n: usize)
        ensures
            n == self@.len(),
    {
        self.letters.len()
    }

    /// `true` iff the word has no letters.
    pub fn is_empty(&self) -> (b: bool)
        ensures
            b == (self@.len() == 0),
    {
        self.letters.len() == 0
    }

    /// An iterator over the letters, in order.
    pub fn iter(&self) -> (r: std::slice::Iter<'_, (A, D)>)
        ensures
            vstd::std_specs::slice::into_iter_elts(r) == self@,
    {
        let s = self.letters.as_slice();
        let it = s.iter();
        proof {
            broadcast use vstd::std_specs::slice::group_slice_axioms;
            assert(vstd::std_specs::slice::into_iter_elts(it) =~= s@);
        }
        it
    }

    /// The letters as a slice.
    pub fn as_slice(&self) -> (s: &[(A, D)])
        ensures
            s@ == self@,
    {
        self.letters.as_slice()
    }

    /// Append one letter to this word.
    pub fn push(&mut self, letter: (A, D))
        ensures
            final(self)@ == old(self)@.push(letter),
    {
        self.letters.push(letter);
    }
}

/// An exact copy of a timed letter.
pub fn copy_letter<A: Symbol, D: Copy>(l: &(A, D)) -> (r: (A, D))
    ensures
        r == *l,
{
    (l.0.copy_symbol(), l.1)
}

/// An exact copy of `s[from..to]`.
pub fn copy_letters<A: Symbol, D: Copy>(s: &[(A, D)], from: usize, to: usize) -> (r: Vec<(A, D)>)
    requires
        from <= to <= s@.len(),
    ensures
        r@ == s@.subrange(from as int, to as int),
{
    let mut out: Vec<(A, D)> = Vec::new();
    let mut i = from;
    while i < to
        invariant
            from <= i <= to,
            to <= s@.len(),
            out@ == s@.subrange(from as int, i as int),
        decreases to - i,
    {
        let l = copy_letter(&s[i]);
        out.push(l);
        assert(out@ =~= s@.subrange(from as int, i + 1));
        i = i + 1;
    }
    out
}

impl<A: Symbol, D: Copy> TimedWord<A, D> {
    /// A copy of this word.
    pub fn duplicate(&self) -> (w: Self)
        ensures
            w@ == self@,
    {
        let n = self.letters.len();
        let letters = copy_letters(self.letters.as_slice(), 0, n);
        assert(self.letters@.subrange(0, n as int) =~= self.letters@);
        TimedWord { letters }
    }

    /// A new word with `letter` appended; `self` is unchanged.
    pub fn append_letter(&self, letter: (A, D)) -> (w: Self)
        ensures
            w@ == self@.push(letter),
    {
        let mut w = self.duplicate();
        w.letters.push(letter);
        w
    }

    /// The concatenation `self . other`.
    pub fn concat(&self, other: &Self) -> (w: Self)
        ensures
            w@ == self@ + other@,
    {
        let mut letters = copy_letters(self.letters.as_slice(), 0, self.letters.len());
        let mut i: usize = 0;
        while i < other.letters.len()
            invariant
                letters@ == self@.subrange(0, self@.len() as int) + other@.subrange(0, i as int),
                i <= other@.len(),
            decreases other@.len() - i,
        {
            letters.push(copy_letter(&other.letters[i]));
            assert(letters@ =~= self@.subrange(0, self@.len() as int) + other@.subrange(0, i + 1));
            i = i + 1;
        }
        assert(letters@ =~= self@ + other@);
        TimedWord { letters }
    }

    /// All prefixes in increasing length, from the empty word to the word
    /// itself.
    pub fn prefixes(&self) -> (r: Vec<Self>)
        ensures
            r@.len() == self@.len() + 1,
            forall|k: int| 0 <= k < r@.len() ==> #[trigger] r@[k]@ == self@.take(k),
    {
        let n = self.letters.len();
        let mut out: Vec<Self> = Vec::new();
        let mut end: usize = 0;
        while end < n
            invariant
                n == self@.len(),
                end <= n,
                out@.len() == end,
                forall|k: int| 0 <= k < end ==> #[trigger] out@[k]@ == self@.take(k),
            decreases n - end,
        {
            let letters = copy_letters(self.letters.as_slice(), 0, end);
            out.push(TimedWord { letters });
            end = end + 1;
        }
        let letters = copy_letters(self.letters.as_slice(), 0, n);
        out.push(TimedWord { letters });
        out
    }

    /// All suffixes by increasing start index, from the word itself to the
    /// empty word.
    pub fn suffixes(&self) -> (r: Vec<Self>)
        ensures
            r@.len() == self@.len() + 1,
            forall|k: int| 0 <= k < r@.len() ==> #[trigger] r@[k]@ == self@.skip(k),
    {
        let n = self.letters.len();
        let mut out: Vec<Self> = Vec::new();
        let mut start: usize = 0;
        while start < n
            invariant
                n == self@.len(),
                start <= n,
                out@.len() == start,
                forall|k: int| 0 <= k < start ==> #[trigger] out@[k]@ == self@.skip(k),
            decreases n - start,
        {
            let letters = copy_letters(self.letters.as_slice(), start, n);
            out.push(TimedWord { letters });
            start = start + 1;
        }
        out.push(TimedWord { letters: Vec::new() });
        assert(out@[n as int]@ =~= self@.skip(n as int));
        out
    }
}

impl<A: Symbol> TimedWord<A, DelayRep> {
    /// `true` iff both words have the same letters (symbols by key).
    pub fn same_word(&self, other: &Self) -> (b: bool)
        ensures
            b == (letters_key(self@) == letters_key(other@)),
    {
        let n = self.letters.len();
        if n != other.letters.len() {
            proof {
                assert(letters_key(self@).len() != letters_key(other@).len());
            }
            return false;
        }
        let mut i: usize = 0;
        while i < n
            invariant
                n == self@.len(),
                n == other@.len(),
                i <= n,
                forall|j: int| 0 <= j < i ==> letter_key(self@[j]) == letter_key(other@[j]),
            decreases n - i,
        {
            let (a, d) = &self.letters[i];
            let (b, e) = &other.letters[i];
            if !a.same_symbol(b) || !d.same(*e) {
                proof {
                    assert(letters_key(self@)[i as int] != letters_key(other@)[i as int]);
                }
                return false;
            }
            i = i + 1;
        }
        assert(letters_key(self@) =~= letters_key(other@));
        true
    }
}

/// `true` iff some element of `s` has the same key as `l`.
pub open spec fn contains_letter_key<A: Symbol>(s: Seq<(A, DelayRep)>, l: (A, DelayRep)) -> bool {
    exists|i: int| 0 <= i < s.len() && letter_key(#[trigger] s[i]) == letter_key(l)
}

/// `true` iff `l` is one of the letters of one of `words`.
pub open spec fn occurs_in<A, D>(words: Seq<TimedWord<A, D>>, l: (A, D)) -> bool {
    exists|i: int, j: int| 0 <= i < words.len() && 0 <= j < words[i]@.len() && #[trigger] words[i]@[j] == l
}

/// Collect `Phi(L)`: every timed letter that occurs in `words`, each once
/// (by symbol key and delay), in order of first occurrence.
pub fn collect_timed_letters<A: Symbol>(words: &[TimedWord<A>]) -> (r: Vec<(A, DelayRep)>)
    ensures
        forall|i: int, j: int|
            0 <= i < words@.len() && 0 <= j < words@[i]@.len() ==> contains_letter_key(
                r@,
                #[trigger] words@[i]@[j],
            ),
        forall|k: int| 0 <= k < r@.len() ==> occurs_in(words@, #[trigger] r@[k]),
        forall|a: int, b: int|
            0 <= a < b < r@.len() ==> letter_key(#[trigger] r@[a]) != letter_key(#[trigger] r@[b]),
{
    let mut seen: Vec<(A, DelayRep)> = Vec::new();
    let mut i: usize = 0;
    while i < words.len()
        invariant
            i <= words@.len(),
            forall|i2: int, j: int|
                0 <= i2 < i && 0 <= j < words@[i2]@.len() ==> contains_letter_key(
                    seen@,
                    #[trigger] words@[i2]@[j],
                ),
            forall|k: int| 0 <= k < seen@.len() ==> occurs_in(words@, #[trigger] seen@[k]),
            forall|a: int, b: int|
                0 <= a < b < seen@.len() ==> letter_key(#[trigger] seen@[a]) != letter_key(
                    #[trigger] seen@[b],
                ),
        decreases words@.len() - i,
    {
        let w = &words[i];
        let letters = w.as_slice();
        let mut j: usize = 0;
        while j < letters.len()
            invariant
                i < words@.len(),
                w == words@[i as int],
                letters@ == w@,
                j <= letters@.len(),
                forall|i2: int, j2: int|
                    0 <= i2 < i && 0 <= j2 < words@[i2]@.len() ==> contains_letter_key(
                        seen@,
                        #[trigger] words@[i2]@[j2],
                    ),
                forall|j2: int| 0 <= j2 < j ==> contains_letter_key(seen@, #[trigger] letters@[j2]),
                forall|k: int| 0 <= k < seen@.len() ==> occurs_in(words@, #[trigger] seen@[k]),
                forall|a: int, b: int|
                    0 <= a < b < seen@.len() ==> letter_key(#[trigger] seen@[a]) != letter_key(
                        #[trigger] seen@[b],
                    ),
            decreases letters@.len() - j,
        {
            let l = &letters[j];
            let mut found = false;
            let mut k: usize = 0;
            while k < seen.len()
                invariant
                    k <= seen@.len(),
                    found ==> contains_letter_key(seen@, *l),
                    !found ==> forall|k2: int| 0 <= k2 < k ==> letter_key(seen@[k2]) != letter_key(*l),
                decreases seen@.len() - k,
            {
                if seen[k].0.same_symbol(&l.0) && seen[k].1.same(l.1) {
                    found = true;
                }
                k = k + 1;
            }
            if !found {
                let ghost old_seen = seen@;
                seen.push(copy_letter(l));
                proof {
                    assert(seen@[old_seen.len() as int] == letters@[j as int]);
                    assert(letters@[j as int] == words@[i as int]@[j as int]);
                    assert forall|i2: int, j2: int|
                        0 <= i2 < i && 0 <= j2 < words@[i2]@.len() implies contains_letter_key(
                        seen@,
                        #[trigger] words@[i2]@[j2],
                    ) by {
                        let k2 = choose|k2: int|
                            0 <= k2 < old_seen.len() && letter_key(#[trigger] old_seen[k2])
                                == letter_key(words@[i2]@[j2]);
                        assert(seen@[k2] == old_seen[k2]);
                    }
                    assert forall|j2: int| 0 <= j2 < j + 1 implies contains_letter_key(
                        seen@,
                        #[trigger] letters@[j2],
                    ) by {
                        if j2 < j {
                            let k2 = choose|k2: int|
                                0 <= k2 < old_seen.len() && letter_key(#[trigger] old_seen[k2])
                                    == letter_key(letters@[j2]);
                            assert(seen@[k2] == old_seen[k2]);
                        } else {
                            assert(seen@[old_seen.len() as int] == letters@[j2]);
                        }
                    }
                    assert forall|k2: int| 0 <= k2 < seen@.len() implies occurs_in(
                        words@,
                        #[trigger] seen@[k2],
                    ) by {
                        if k2 == old_seen.len() {
                            assert(seen@[k2] == words@[i as int]@[j as int]);
                        } else {
                            assert(seen@[k2] == old_seen[k2]);
                        }
                    }
                }
            } else {
                proof {
                    assert forall|j2: int| 0 <= j2 < j + 1 implies contains_letter_key(
                        seen@,
                        #[trigger] letters@[j2],
                    ) by {
                        if j2 == j {
                            assert(contains_letter_key(seen@, *l));
                        }
                    }
                }
            }
            j = j + 1;
        }
        i = i + 1;
    }
    seen
}

} // verus!
