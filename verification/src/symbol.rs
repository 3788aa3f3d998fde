//! Alphabet symbols: what the automata and timed words need of a letter.

use vstd::prelude::*;

use crate::text::{seq_lt, str_lt};

verus! {

/// An alphabet symbol.
///
/// Two symbols are the same letter exactly when their keys are equal.
pub trait Symbol: Sized {
    /// The characters that identify this symbol.
    spec fn key(&self) -> Seq<char>;

    /// `true` iff `self` and `other` are the same letter.
    fn same_symbol(&self, other: &Self) -> (r: bool)
        ensures
            r == (self.key() == other.key()),
    ;

    /// An exact copy of this symbol.
    fn copy_symbol(&self) -> (r: Self)
        ensures
            r == *self,
    ;

    /// `true` iff the key of `self` precedes that of `other`.
    fn key_lt(&self, other: &Self) -> (r: bool)
        ensures
            r == seq_lt(self.key(), other.key()),
    ;

    /// The label of the symbol with the given key.
    spec fn key_label(key: Seq<char>) -> Seq<char>;

    /// The `Debug` rendering of this symbol, used in labels.
    fn debug_label(&self) -> (r: String)
        ensures
            r@ == Self::key_label(self.key()),
    ;
}

/// What `Debug` renders for a character (a quoted, escaped literal).
pub uninterp spec fn char_debug_text(c: char) -> Seq<char>;

/// What `Debug` renders for a string (a quoted, escaped literal).
pub uninterp spec fn string_debug_text(s: Seq<char>) -> Seq<char>;

/// The `Debug` rendering of a character, through std's formatting
/// machinery; its text is named by [`char_debug_text`].
#[verifier::external_body]
fn char_debug(c: char) -> (r: String)
    ensures
        r@ == char_debug_text(c),
{
    format!("{c:?}")
}

/// The `Debug` rendering of a string, through std's formatting machinery;
/// its text is named by [`string_debug_text`].
#[verifier::external_body]
fn string_debug(s: &String) -> (r: String)
    ensures
        r@ == string_debug_text(s@),
{
    format!("{s:?}")
}

impl Symbol for char {
    open spec fn key(&self) -> Seq<char> {
        seq![*self]
    }

    fn same_symbol(&self, other: &Self) -> (r: bool) {
        proof {
            if seq![*self] == seq![*other] {
                assert(seq![*self][0] == seq![*other][0]);
            }
        }
        *self == *other
    }

    fn copy_symbol(&self) -> (r: Self) {
        *self
    }

    fn key_lt(&self, other: &Self) -> (r: bool) {
        proof {
            let a = seq![*self];
            let b = seq![*other];
            assert(a[0] == *self && b[0] == *other);
            assert(a.drop_first().len() == 0 && b.drop_first().len() == 0);
            assert(!seq_lt(a.drop_first(), b.drop_first()));
        }
        *self < *other
    }

    open spec fn key_label(key: Seq<char>) -> Seq<char> {
        char_debug_text(key[0])
    }

    fn debug_label(&self) -> (r: String) {
        char_debug(*self)
    }
}

impl Symbol for String {
    open spec fn key(&self) -> Seq<char> {
        self@
    }

    fn same_symbol(&self, other: &Self) -> (r: bool) {
        *self == *other
    }

    fn copy_symbol(&self) -> (r: Self) {
        self.clone()
    }

    fn key_lt(&self, other: &Self) -> (r: bool) {
        str_lt(self.as_str(), other.as_str())
    }

    open spec fn key_label(key: Seq<char>) -> Seq<char> {
        string_debug_text(key)
    }

    fn debug_label(&self) -> (r: String) {
        string_debug(self)
    }
}

} // verus!
