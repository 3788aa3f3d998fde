//! Small verified text helpers: lexicographic order on character sequences,
//! decimal rendering of integers, and string building.

use vstd::prelude::*;

verus! {

/// Lexicographic strict order on character sequences, by code point.
pub open spec fn seq_lt(a: Seq<char>, b: Seq<char>) -> bool
    decreases a.len(),
{
    if a.len() == 0 {
        b.len() > 0
    } else if b.len() == 0 {
        false
    } else if a[0] != b[0] {
        (a[0] as int) < (b[0] as int)
    } else {
        seq_lt(a.drop_first(), b.drop_first())
    }
}

/// The decimal digits of `n`, most significant first, without leading zeros.
pub open spec fn decimal(n: nat) -> Seq<char>
    decreases n,
{
    if n < 10 {
        seq![digit_char((n % 10) as nat)]
    } else {
        decimal(n / 10).push(digit_char((n % 10) as nat))
    }
}

/// Decimal digits are never empty.
proof fn lemma_decimal_nonempty(n: nat)
    ensures
        decimal(n).len() >= 1,
    decreases n,
{
    if n >= 10 {
        lemma_decimal_nonempty(n / 10);
    }
}

/// Different numbers have different decimal digits.
pub proof fn lemma_decimal_injective(n: nat, m: nat)
    requires
        decimal(n) == decimal(m),
    ensures
        n == m,
    decreases n,
{
    let dn = decimal(n);
    let dm = decimal(m);
    assert(dn[dn.len() - 1] == dm[dm.len() - 1]);
    assert(digit_char((n % 10) as nat) == digit_char((m % 10) as nat));
    assert((n % 10) == (m % 10)) by {
        let a = (n % 10) as nat;
        let b = (m % 10) as nat;
        assert(((48 + a) as u8) as char == ((48 + b) as u8) as char);
        assert(((48 + a) as u8) as int == 48 + a);
        assert(((48 + b) as u8) as int == 48 + b);
    }
    if n < 10 && m < 10 {
    } else if n >= 10 && m >= 10 {
        lemma_decimal_nonempty(n / 10);
        lemma_decimal_nonempty(m / 10);
        assert(decimal(n / 10) =~= dn.drop_last());
        assert(decimal(m / 10) =~= dm.drop_last());
        lemma_decimal_injective(n / 10, m / 10);
    } else if n < 10 {
        lemma_decimal_nonempty(m / 10);
        assert(dn.len() == 1);
    } else {
        lemma_decimal_nonempty(n / 10);
        assert(dm.len() == 1);
    }
}

/// The character of decimal digit `d`.
pub open spec fn digit_char(d: nat) -> char {
    ((48 + d) as u8) as char
}

/// `seq_lt` is irreflexive.
pub proof fn lemma_seq_lt_irreflexive(a: Seq<char>)
    ensures
        !seq_lt(a, a),
    decreases a.len(),
{
    if a.len() > 0 {
        lemma_seq_lt_irreflexive(a.drop_first());
    }
}

/// `seq_lt` is transitive.
pub proof fn lemma_seq_lt_transitive(a: Seq<char>, b: Seq<char>, c: Seq<char>)
    requires
        seq_lt(a, b),
        seq_lt(b, c),
    ensures
        seq_lt(a, c),
    decreases a.len(),
{
    if a.len() > 0 && b.len() > 0 && c.len() > 0 {
        if a[0] == b[0] && b[0] == c[0] {
            lemma_seq_lt_transitive(a.drop_first(), b.drop_first(), c.drop_first());
        }
    }
}

/// `seq_lt` is total on distinct sequences.
pub proof fn lemma_seq_lt_total(a: Seq<char>, b: Seq<char>)
    requires
        a != b,
    ensures
        seq_lt(a, b) || seq_lt(b, a),
    decreases a.len(),
{
    if a.len() > 0 && b.len() > 0 && a[0] == b[0] {
        if a.drop_first() == b.drop_first() {
            assert(a =~= seq![a[0]] + a.drop_first());
            assert(b =~= seq![b[0]] + b.drop_first());
        }
        lemma_seq_lt_total(a.drop_first(), b.drop_first());
    } else if a.len() > 0 && b.len() > 0 {
        assert((a[0] as int) != (b[0] as int));
    } else if a.len() == 0 && b.len() == 0 {
        assert(a =~= b);
    }
}

/// `seq_lt` is asymmetric.
pub proof fn lemma_seq_lt_asymmetric(a: Seq<char>, b: Seq<char>)
    requires
        seq_lt(a, b),
    ensures
        !seq_lt(b, a),
    decreases a.len(),
{
    if a.len() > 0 && b.len() > 0 && a[0] == b[0] {
        lemma_seq_lt_asymmetric(a.drop_first(), b.drop_first());
    }
}

/// Lexicographic strict order on sequences of names, each name ordered by
/// `seq_lt`; a proper prefix comes first.
pub open spec fn names_lt(a: Seq<Seq<char>>, b: Seq<Seq<char>>) -> bool
    decreases a.len(),
{
    if a.len() == 0 {
        b.len() > 0
    } else if b.len() == 0 {
        false
    } else if a[0] != b[0] {
        seq_lt(a[0], b[0])
    } else {
        names_lt(a.drop_first(), b.drop_first())
    }
}

/// `names_lt` is irreflexive.
pub proof fn lemma_names_lt_irreflexive(a: Seq<Seq<char>>)
    ensures
        !names_lt(a, a),
    decreases a.len(),
{
    if a.len() > 0 {
        lemma_names_lt_irreflexive(a.drop_first());
    }
}

/// `names_lt` is transitive.
pub proof fn lemma_names_lt_transitive(a: Seq<Seq<char>>, b: Seq<Seq<char>>, c: Seq<Seq<char>>)
    requires
        names_lt(a, b),
        names_lt(b, c),
    ensures
        names_lt(a, c),
    decreases a.len(),
{
    if a.len() > 0 && b.len() > 0 && c.len() > 0 {
        if a[0] == b[0] && b[0] == c[0] {
            lemma_names_lt_transitive(a.drop_first(), b.drop_first(), c.drop_first());
        } else if a[0] == b[0] {
        } else if b[0] == c[0] {
        } else {
            lemma_seq_lt_transitive(a[0], b[0], c[0]);
            if a[0] == c[0] {
                lemma_seq_lt_asymmetric(a[0], b[0]);
            }
        }
    }
}

/// `names_lt` is total on distinct sequences.
pub proof fn lemma_names_lt_total(a: Seq<Seq<char>>, b: Seq<Seq<char>>)
    requires
        a != b,
    ensures
        names_lt(a, b) || names_lt(b, a),
    decreases a.len(),
{
    if a.len() > 0 && b.len() > 0 && a[0] == b[0] {
        if a.drop_first() == b.drop_first() {
            assert(a =~= seq![a[0]] + a.drop_first());
            assert(b =~= seq![b[0]] + b.drop_first());
        }
        lemma_names_lt_total(a.drop_first(), b.drop_first());
    } else if a.len() > 0 && b.len() > 0 {
        lemma_seq_lt_total(a[0], b[0]);
    } else if a.len() == 0 && b.len() == 0 {
        assert(a =~= b);
    }
}

/// `names_lt` is asymmetric.
pub proof fn lemma_names_lt_asymmetric(a: Seq<Seq<char>>, b: Seq<Seq<char>>)
    requires
        names_lt(a, b),
    ensures
        !names_lt(b, a),
    decreases a.len(),
{
    if a.len() > 0 && b.len() > 0 {
        if a[0] == b[0] {
            lemma_names_lt_asymmetric(a.drop_first(), b.drop_first());
        } else {
            lemma_seq_lt_asymmetric(a[0], b[0]);
        }
    }
}

/// `true` iff `s` is strictly increasing in `seq_lt`.
pub open spec fn strictly_sorted(s: Seq<Seq<char>>) -> bool {
    forall|i: int, j: int| 0 <= i < j < s.len() ==> seq_lt(s[i], s[j])
}

/// `true` iff `a` precedes `b` in lexicographic code-point order.
pub fn str_lt(a: &str, b: &str) -> (r: bool)
    ensures
        r == seq_lt(a@, b@),
{
    let la = a.unicode_len();
    let lb = b.unicode_len();
    let mut i: usize = 0;
    assert(a@.skip(0) =~= a@);
    assert(b@.skip(0) =~= b@);
    while i < la && i < lb
        invariant
            la == a@.len(),
            lb == b@.len(),
            i <= la,
            i <= lb,
            seq_lt(a@, b@) == seq_lt(a@.skip(i as int), b@.skip(i as int)),
        decreases la - i,
    {
        let ca = a.get_char(i);
        let cb = b.get_char(i);
        proof {
            let sa = a@.skip(i as int);
            let sb = b@.skip(i as int);
            assert(sa[0] == ca);
            assert(sb[0] == cb);
            assert(sa.drop_first() =~= a@.skip(i + 1));
            assert(sb.drop_first() =~= b@.skip(i + 1));
        }
        if ca != cb {
            return ca < cb;
        }
        i = i + 1;
    }
    proof {
        let sa = a@.skip(i as int);
        let sb = b@.skip(i as int);
        assert(sa.len() == 0 || sb.len() == 0);
    }
    i == la && i < lb
}

/// `true` iff `s` is strictly increasing under the order `lt`.
pub open spec fn sorted_by<T>(s: Seq<T>, lt: spec_fn(T, T) -> bool) -> bool {
    forall|i: int, j: int| 0 <= i < j < s.len() ==> lt(s[i], s[j])
}

/// `true` iff `lt` is irreflexive and transitive.
pub open spec fn strict_order<T>(lt: spec_fn(T, T) -> bool) -> bool {
    &&& forall|x: T| !#[trigger] lt(x, x)
    &&& forall|x: T, y: T, z: T| #[trigger] lt(x, y) && #[trigger] lt(y, z) ==> lt(x, z)
}

/// Two sequences sorted strictly by the same strict order and holding the
/// same elements are equal.
pub proof fn lemma_sorted_unique<T>(s: Seq<T>, t: Seq<T>, lt: spec_fn(T, T) -> bool)
    requires
        strict_order(lt),
        sorted_by(s, lt),
        sorted_by(t, lt),
        s.to_set() == t.to_set(),
    ensures
        s == t,
    decreases s.len(),
{
    if s.len() == 0 {
        if t.len() > 0 {
            assert(t.to_set().contains(t[0]));
        }
        assert(s =~= t);
    } else {
        assert(s.to_set().contains(s[0]));
        assert(t.len() > 0);
        assert(t.to_set().contains(t[0]));
        let j = choose|j: int| 0 <= j < t.len() && t[j] == s[0];
        let i = choose|i: int| 0 <= i < s.len() && s[i] == t[0];
        if i > 0 && j > 0 {
            assert(lt(s[0], s[i]));
            assert(lt(t[0], t[j]));
            assert(lt(s[0], s[0]));
        }
        assert(s[0] == t[0]);
        let s1 = s.drop_first();
        let t1 = t.drop_first();
        assert(sorted_by(s1, lt)) by {
            assert forall|a: int, b: int| 0 <= a < b < s1.len() implies lt(s1[a], s1[b]) by {
                assert(s1[a] == s[a + 1] && s1[b] == s[b + 1]);
            }
        }
        assert(sorted_by(t1, lt)) by {
            assert forall|a: int, b: int| 0 <= a < b < t1.len() implies lt(t1[a], t1[b]) by {
                assert(t1[a] == t[a + 1] && t1[b] == t[b + 1]);
            }
        }
        assert(s1.to_set() =~= t1.to_set()) by {
            assert forall|x: T| s1.to_set().contains(x) implies t1.to_set().contains(x) by {
                let a = choose|a: int| 0 <= a < s1.len() && s1[a] == x;
                assert(s[a + 1] == x);
                assert(lt(s[0], s[a + 1]));
                assert(s.to_set().contains(x));
                let b = choose|b: int| 0 <= b < t.len() && t[b] == x;
                if b == 0 {
                    assert(lt(x, x));
                }
                assert(t1[b - 1] == x);
            }
            assert forall|x: T| t1.to_set().contains(x) implies s1.to_set().contains(x) by {
                let a = choose|a: int| 0 <= a < t1.len() && t1[a] == x;
                assert(t[a + 1] == x);
                assert(lt(t[0], t[a + 1]));
                assert(t.to_set().contains(x));
                let b = choose|b: int| 0 <= b < s.len() && s[b] == x;
                if b == 0 {
                    assert(lt(x, x));
                }
                assert(s1[b - 1] == x);
            }
        }
        lemma_sorted_unique(s1, t1, lt);
        assert(s =~= t) by {
            assert forall|k: int| 0 <= k < s.len() implies s[k] == t[k] by {
                if k > 0 {
                    assert(s[k] == s1[k - 1]);
                    assert(t[k] == t1[k - 1]);
                }
            }
        }
    }
}

/// Inserting `x` where everything before is smaller and the next element
/// is greater keeps a sequence strictly sorted.
pub proof fn lemma_sorted_insert<T>(s: Seq<T>, pos: int, x: T, lt: spec_fn(T, T) -> bool)
    requires
        strict_order(lt),
        sorted_by(s, lt),
        0 <= pos <= s.len(),
        forall|j: int| 0 <= j < pos ==> lt(#[trigger] s[j], x),
        pos < s.len() ==> lt(x, s[pos]),
    ensures
        sorted_by(s.insert(pos, x), lt),
        s.insert(pos, x).to_set() == s.to_set().insert(x),
{
    let t = s.insert(pos, x);
    assert forall|a: int, b: int| 0 <= a < b < t.len() implies lt(t[a], t[b]) by {
        if b < pos {
            assert(t[a] == s[a] && t[b] == s[b]);
        } else if b == pos {
            assert(t[a] == s[a]);
        } else if a < pos {
            assert(t[a] == s[a] && t[b] == s[b - 1]);
            assert(lt(s[a], x));
            assert(lt(x, s[pos]));
            if b - 1 > pos {
                assert(lt(s[pos], s[b - 1]));
                assert(lt(x, s[b - 1]));
            }
        } else if a == pos {
            assert(t[b] == s[b - 1]);
            if b - 1 > pos {
                assert(lt(s[pos], s[b - 1]));
            }
        } else {
            assert(t[a] == s[a - 1] && t[b] == s[b - 1]);
        }
    }
    assert(t.to_set() =~= s.to_set().insert(x)) by {
        assert forall|y: T| t.to_set().contains(y) implies s.to_set().insert(x).contains(y) by {
            let k = choose|k: int| 0 <= k < t.len() && t[k] == y;
            if k < pos {
                assert(s[k] == y);
            } else if k > pos {
                assert(s[k - 1] == y);
            }
        }
        assert forall|y: T| s.to_set().insert(x).contains(y) implies t.to_set().contains(y) by {
            if y == x {
                assert(t[pos] == x);
            } else {
                let k = choose|k: int| 0 <= k < s.len() && s[k] == y;
                if k < pos {
                    assert(t[k] == y);
                } else {
                    assert(t[k + 1] == y);
                }
            }
        }
    }
}

/// `seq_lt` as a first-class order.
pub open spec fn seq_lt_fn() -> spec_fn(Seq<char>, Seq<char>) -> bool {
    |a: Seq<char>, b: Seq<char>| seq_lt(a, b)
}

/// `seq_lt` is a strict order, and `strictly_sorted` is sortedness by it.
pub proof fn lemma_seq_lt_strict()
    ensures
        strict_order(seq_lt_fn()),
        forall|s: Seq<Seq<char>>| #[trigger] strictly_sorted(s) == sorted_by(s, seq_lt_fn()),
{
    assert forall|x: Seq<char>| !#[trigger] seq_lt_fn()(x, x) by {
        lemma_seq_lt_irreflexive(x);
    }
    assert forall|x: Seq<char>, y: Seq<char>, z: Seq<char>|
        #[trigger] seq_lt_fn()(x, y) && #[trigger] seq_lt_fn()(y, z) implies seq_lt_fn()(x, z) by {
        lemma_seq_lt_transitive(x, y, z);
    }
}

/// The strictly sorted list of the names in the finite set `s`.
pub open spec fn sorted_list(s: Set<Seq<char>>) -> Seq<Seq<char>> {
    choose|x: Seq<Seq<char>>| strictly_sorted(x) && x.to_set() == s
}

/// A strictly sorted list is the sorted list of its elements.
pub proof fn lemma_sorted_list_of(x: Seq<Seq<char>>)
    requires
        strictly_sorted(x),
    ensures
        sorted_list(x.to_set()) == x,
{
    let y = sorted_list(x.to_set());
    assert(strictly_sorted(y) && y.to_set() == x.to_set());
    lemma_seq_lt_strict();
    lemma_sorted_unique(y, x, seq_lt_fn());
}

/// `true` iff the two strings hold the same characters.
pub fn str_eq(a: &str, b: &str) -> (r: bool)
    ensures
        r == (a@ == b@),
{
    let la = a.unicode_len();
    let lb = b.unicode_len();
    if la != lb {
        return false;
    }
    let mut i: usize = 0;
    while i < la
        invariant
            la == a@.len(),
            lb == b@.len(),
            la == lb,
            i <= la,
            forall|j: int| 0 <= j < i ==> a@[j] == b@[j],
        decreases la - i,
    {
        if a.get_char(i) != b.get_char(i) {
            return false;
        }
        i = i + 1;
    }
    assert(a@ =~= b@);
    true
}

/// Append one character to a string.
#[verifier::external_body]
pub fn push_char(s: &mut String, c: char)
    ensures
        final(s)@ == old(s)@.push(c),
{
    s.push(c);
}

/// Append a string slice to a string.
pub fn push_str(s: &mut String, t: &str)
    ensures
        final(s)@ == old(s)@ + t@,
{
    s.append(t);
}

/// An empty string.
pub fn empty_string() -> (s: String)
    ensures
        s@ == Seq::<char>::empty(),
{
    String::new()
}

/// The decimal rendering of `n`.
pub fn decimal_string(n: u64) -> (s: String)
    ensures
        s@ == decimal(n as nat),
    decreases n,
{
    let d: u64 = n % 10;
    let c: char = (48u8 + d as u8) as char;
    if n < 10 {
        let mut s = empty_string();
        push_char(&mut s, c);
        assert(s@ =~= decimal(n as nat));
        s
    } else {
        let mut s = decimal_string(n / 10);
        push_char(&mut s, c);
        s
    }
}

} // verus!
