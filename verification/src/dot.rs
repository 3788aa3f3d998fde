//! Deterministic DOT rendering of automata.
//!
//! Successor formulas are rendered in disjunctive normal form: a clause
//! with one location becomes a direct edge to that location; any other
//! clause becomes a small black conjunction node with one edge to each of
//! its locations.

use vstd::prelude::*;

use crate::arta::builder::{built_from, key_seen, BuilderModel, PendingModel};
use crate::arta::{bucket_model, buckets_model, edge_ok, Arta, ArtaModel, BucketModel, EdgeModel, GuardedTransition};
use crate::location::{contains_location, lemma_names_contains, names_of, LocationId};
use crate::state_formula::formula::{copy_location_vec, dnf, formula_text, DagStateFormula, Formula};
use crate::state_formula::minimal_model::clauses_view;
use crate::symbol::Symbol;
use crate::text::{
    decimal, decimal_string, lemma_names_lt_irreflexive, lemma_names_lt_total,
    lemma_names_lt_transitive, lemma_seq_lt_irreflexive, lemma_seq_lt_total, lemma_seq_lt_transitive,
    lemma_sorted_insert, lemma_sorted_unique, names_lt, push_char, push_str, seq_lt, sorted_by, str_eq, str_lt,
    strict_order,
};
use crate::time::interval::interval_text;

verus! {

/// Options controlling DOT rendering.
#[derive(Debug, Clone, Copy, PartialEq, Eq, Structural)]
pub struct DotOptions {
    /// Keep the symbols `⊤`, `⊥` and `∞` in labels instead of `TOP`, `BOT`
    /// and `inf`.
    pub unicode: bool,
    /// Include a plaintext node that shows the initial state formula.
    pub show_init_node: bool,
}

impl Default for DotOptions {
    fn default() -> (r: Self)
        ensures
            r == (DotOptions { unicode: false, show_init_node: true }),
    {
        DotOptions { unicode: false, show_init_node: true }
    }
}

/// The characters `f` gives for each character of `s`, concatenated.
pub open spec fn map_chars(s: Seq<char>, f: spec_fn(char) -> Seq<char>) -> Seq<char>
    decreases s.len(),
{
    if s.len() == 0 {
        Seq::empty()
    } else {
        map_chars(s.drop_last(), f) + f(s.last())
    }
}

/// The ASCII spelling of `⊤`, `⊥` and `∞`; other characters stay.
pub open spec fn ascii_char(c: char) -> Seq<char> {
    if c == '⊤' {
        seq!['T', 'O', 'P']
    } else if c == '⊥' {
        seq!['B', 'O', 'T']
    } else if c == '∞' {
        seq!['i', 'n', 'f']
    } else {
        seq![c]
    }
}

/// A character as it stands inside a quoted DOT label.
pub open spec fn escaped_char(c: char) -> Seq<char> {
    if c == '\\' {
        seq!['\\', '\\']
    } else if c == '"' {
        seq!['\\', '"']
    } else if c == '\n' {
        seq!['\\', 'n']
    } else if c == '\t' {
        seq!['\\', 't']
    } else if c == '\r' {
        seq!['\\', 'r']
    } else {
        seq![c]
    }
}

/// `ascii_char` as a function value.
pub open spec fn ascii_fn() -> spec_fn(char) -> Seq<char> {
    |c: char| ascii_char(c)
}

/// `escaped_char` as a function value.
pub open spec fn escaped_fn() -> spec_fn(char) -> Seq<char> {
    |c: char| escaped_char(c)
}

/// A label with its symbols spelled in ASCII unless `unicode` is set.
pub open spec fn normalized(s: Seq<char>, unicode: bool) -> Seq<char> {
    if unicode {
        s
    } else {
        map_chars(s, ascii_fn())
    }
}

/// A label as it stands between the quotes of a DOT attribute.
pub open spec fn rendered(s: Seq<char>, unicode: bool) -> Seq<char> {
    map_chars(normalized(s, unicode), escaped_fn())
}

proof fn lemma_map_chars_step(s: Seq<char>, i: int, f: spec_fn(char) -> Seq<char>)
    requires
        0 <= i < s.len(),
    ensures
        map_chars(s.take(i + 1), f) == map_chars(s.take(i), f) + f(s[i]),
{
    assert(s.take(i + 1).drop_last() =~= s.take(i));
}

/// `raw` with `⊤`, `⊥` and `∞` spelled `TOP`, `BOT` and `inf`, unless
/// `unicode` is set.
fn normalize_label(raw: &str, unicode: bool) -> (r: String)
    ensures
        r@ == normalized(raw@, unicode),
{
    let mut out = String::new();
    if unicode {
        push_str(&mut out, raw);
        assert(out@ =~= raw@);
        return out;
    }
    let n = raw.unicode_len();
    let mut i: usize = 0;
    assert(out@ =~= map_chars(raw@.take(0), ascii_fn()));
    while i < n
        invariant
            n == raw@.len(),
            i <= n,
            out@ == map_chars(raw@.take(i as int), ascii_fn()),
        decreases n - i,
    {
        let c = raw.get_char(i);
        if c == '⊤' {
            push_char(&mut out, 'T');
            push_char(&mut out, 'O');
            push_char(&mut out, 'P');
        } else if c == '⊥' {
            push_char(&mut out, 'B');
            push_char(&mut out, 'O');
            push_char(&mut out, 'T');
        } else if c == '∞' {
            push_char(&mut out, 'i');
            push_char(&mut out, 'n');
            push_char(&mut out, 'f');
        } else {
            push_char(&mut out, c);
        }
        proof {
            lemma_map_chars_step(raw@, i as int, ascii_fn());
            assert(out@ =~= map_chars(raw@.take(i as int), ascii_fn()) + ascii_char(c));
        }
        i = i + 1;
    }
    assert(raw@.take(n as int) =~= raw@);
    out
}

/// `raw` with backslashes, quotes and line controls escaped for a DOT
/// label.
fn escape_dot_label(raw: &str) -> (r: String)
    ensures
        r@ == map_chars(raw@, escaped_fn()),
{
    let mut out = String::new();
    let n = raw.unicode_len();
    let mut i: usize = 0;
    assert(out@ =~= map_chars(raw@.take(0), escaped_fn()));
    while i < n
        invariant
            n == raw@.len(),
            i <= n,
            out@ == map_chars(raw@.take(i as int), escaped_fn()),
        decreases n - i,
    {
        let c = raw.get_char(i);
        if c == '\\' {
            push_char(&mut out, '\\');
            push_char(&mut out, '\\');
        } else if c == '"' {
            push_char(&mut out, '\\');
            push_char(&mut out, '"');
        } else if c == '\n' {
            push_char(&mut out, '\\');
            push_char(&mut out, 'n');
        } else if c == '\t' {
            push_char(&mut out, '\\');
            push_char(&mut out, 't');
        } else if c == '\r' {
            push_char(&mut out, '\\');
            push_char(&mut out, 'r');
        } else {
            push_char(&mut out, c);
        }
        proof {
            lemma_map_chars_step(raw@, i as int, escaped_fn());
            assert(out@ =~= map_chars(raw@.take(i as int), escaped_fn()) + escaped_char(c));
        }
        i = i + 1;
    }
    assert(raw@.take(n as int) =~= raw@);
    out
}

/// `raw` normalized and escaped for a DOT label.
fn render_label(raw: &str, opt: &DotOptions) -> (r: String)
    ensures
        r@ == rendered(raw@, opt.unicode),
{
    let normalized = normalize_label(raw, opt.unicode);
    escape_dot_label(normalized.as_str())
}

/// The node name of the location at position `i`.
pub open spec fn node_id(i: nat) -> Seq<char> {
    seq!['l', '_'] + decimal(i)
}

/// The node line of the location at position `i`.
pub open spec fn location_line(m: ArtaModel, i: int, unicode: bool) -> Seq<char> {
    "  \""@ + node_id(i as nat) + "\" [shape="@ + (if m.accepting.contains(m.locations[i]) {
        "doublecircle"@
    } else {
        "circle"@
    }) + ", label=\""@ + rendered(m.locations[i], unicode) + "\"];\n"@
}

/// The node lines of the first `n` locations.
pub open spec fn location_lines(m: ArtaModel, n: int, unicode: bool) -> Seq<char>
    decreases n,
{
    if n <= 0 {
        Seq::empty()
    } else {
        location_lines(m, n - 1, unicode) + location_line(m, n - 1, unicode)
    }
}

/// Append the node name of the location at position `i`.
fn push_node_id(out: &mut String, i: usize)
    ensures
        final(out)@ == old(out)@ + node_id(i as nat),
{
    push_char(out, 'l');
    push_char(out, '_');
    let d = decimal_string(i as u64);
    push_str(out, d.as_str());
    assert(final(out)@ =~= old(out)@ + node_id(i as nat));
}

/// The names of a clause joined by the unit separator `\x1f`.
pub open spec fn clause_key(c: Seq<Seq<char>>) -> Seq<char>
    decreases c.len(),
{
    if c.len() == 0 {
        Seq::empty()
    } else if c.len() == 1 {
        c[0]
    } else {
        clause_key(c.drop_last()) + seq!['\x1f'] + c.last()
    }
}

/// The order of clauses in a rendering: by length, then by joined names,
/// then name by name.
pub open spec fn clause_lt(a: Seq<Seq<char>>, b: Seq<Seq<char>>) -> bool {
    ||| a.len() < b.len()
    ||| a.len() == b.len() && seq_lt(clause_key(a), clause_key(b))
    ||| a.len() == b.len() && clause_key(a) == clause_key(b) && names_lt(a, b)
}

/// `clause_lt` as a function value.
pub open spec fn clause_lt_fn() -> spec_fn(Seq<Seq<char>>, Seq<Seq<char>>) -> bool {
    |a: Seq<Seq<char>>, b: Seq<Seq<char>>| clause_lt(a, b)
}

/// The order of clauses in a document: by joined names, then name by name.
pub open spec fn key_clause_lt(a: Seq<Seq<char>>, b: Seq<Seq<char>>) -> bool {
    ||| seq_lt(clause_key(a), clause_key(b))
    ||| clause_key(a) == clause_key(b) && names_lt(a, b)
}

/// The clause order: `clause_lt` when `by_len`, else `key_clause_lt`.
pub open spec fn clause_order(by_len: bool) -> spec_fn(Seq<Seq<char>>, Seq<Seq<char>>) -> bool {
    if by_len {
        clause_lt_fn()
    } else {
        |a: Seq<Seq<char>>, b: Seq<Seq<char>>| key_clause_lt(a, b)
    }
}

/// The distinct clauses of the disjunctive normal form of `f`, in the
/// clause order chosen by `by_len`.
pub open spec fn ordered_disjuncts(f: Formula, by_len: bool) -> Seq<Seq<Seq<char>>> {
    choose|s: Seq<Seq<Seq<char>>>| sorted_by(s, clause_order(by_len)) && s.to_set() == dnf(f).to_set()
}

/// The distinct clauses of the disjunctive normal form of `f`, in
/// rendering order.
pub open spec fn disjuncts(f: Formula) -> Seq<Seq<Seq<char>>> {
    ordered_disjuncts(f, true)
}

/// Both clause orders are strict, and total on distinct clauses.
proof fn lemma_clause_order_strict(by_len: bool)
    ensures
        strict_order(clause_order(by_len)),
        forall|a: Seq<Seq<char>>, b: Seq<Seq<char>>|
            a != b ==> #[trigger] clause_order(by_len)(a, b) || #[trigger] clause_order(by_len)(b, a),
{
    let lt = clause_order(by_len);
    assert forall|x: Seq<Seq<char>>| !#[trigger] lt(x, x) by {
        lemma_seq_lt_irreflexive(clause_key(x));
        lemma_names_lt_irreflexive(x);
    }
    assert forall|x: Seq<Seq<char>>, y: Seq<Seq<char>>, z: Seq<Seq<char>>|
        #[trigger] lt(x, y) && #[trigger] lt(y, z) implies lt(x, z) by {
        let (kx, ky, kz) = (clause_key(x), clause_key(y), clause_key(z));
        if !by_len || (x.len() == y.len() && y.len() == z.len()) {
            if seq_lt(kx, ky) && seq_lt(ky, kz) {
                lemma_seq_lt_transitive(kx, ky, kz);
            } else if kx == ky && ky == kz {
                lemma_names_lt_transitive(x, y, z);
            }
        }
    }
    assert forall|a: Seq<Seq<char>>, b: Seq<Seq<char>>|
        a != b implies #[trigger] lt(a, b) || #[trigger] lt(b, a) by {
        if !by_len || a.len() == b.len() {
            if clause_key(a) != clause_key(b) {
                lemma_seq_lt_total(clause_key(a), clause_key(b));
            } else {
                lemma_names_lt_total(a, b);
            }
        }
    }
}

/// The names of `c` joined by `\x1f`.
fn disjunct_key(c: &Vec<LocationId>) -> (r: String)
    ensures
        r@ == clause_key(names_of(c@)),
{
    let mut key = String::new();
    let mut i: usize = 0;
    assert(key@ =~= clause_key(names_of(c@).take(0)));
    while i < c.len()
        invariant
            i <= c@.len(),
            key@ == clause_key(names_of(c@).take(i as int)),
        decreases c@.len() - i,
    {
        let ghost t = names_of(c@).take(i + 1);
        if i > 0 {
            push_char(&mut key, '\x1f');
        }
        push_str(&mut key, c[i].name());
        proof {
            assert(t.drop_last() =~= names_of(c@).take(i as int));
            assert(t.last() == c@[i as int]@);
            if i == 0 {
                assert(key@ =~= t[0]);
            } else {
                assert(key@ =~= clause_key(t.drop_last()) + seq!['\x1f'] + t.last());
            }
        }
        i = i + 1;
    }
    assert(names_of(c@).take(i as int) =~= names_of(c@));
    key
}

/// `true` iff the clauses hold the same names in the same order.
fn same_names(a: &Vec<LocationId>, b: &Vec<LocationId>) -> (r: bool)
    ensures
        r == (names_of(a@) == names_of(b@)),
{
    if a.len() != b.len() {
        assert(names_of(a@).len() != names_of(b@).len());
        return false;
    }
    let mut i: usize = 0;
    while i < a.len()
        invariant
            a@.len() == b@.len(),
            i <= a@.len(),
            forall|j: int| 0 <= j < i ==> a@[j]@ == b@[j]@,
        decreases a@.len() - i,
    {
        if !a[i].same(&b[i]) {
            assert(names_of(a@)[i as int] != names_of(b@)[i as int]);
            return false;
        }
        i = i + 1;
    }
    assert(names_of(a@) =~= names_of(b@));
    true
}

/// `names_lt` on the names of two clauses.
fn names_before(a: &Vec<LocationId>, b: &Vec<LocationId>) -> (r: bool)
    ensures
        r == names_lt(names_of(a@), names_of(b@)),
{
    let mut i: usize = 0;
    let ghost na = names_of(a@);
    let ghost nb = names_of(b@);
    assert(na.skip(0) =~= na && nb.skip(0) =~= nb);
    while i < a.len() && i < b.len()
        invariant
            na == names_of(a@),
            nb == names_of(b@),
            i <= a@.len(),
            i <= b@.len(),
            names_lt(na, nb) == names_lt(na.skip(i as int), nb.skip(i as int)),
        decreases a@.len() - i,
    {
        proof {
            let sa = na.skip(i as int);
            let sb = nb.skip(i as int);
            assert(sa[0] == a@[i as int]@ && sb[0] == b@[i as int]@);
            assert(sa.drop_first() =~= na.skip(i + 1));
            assert(sb.drop_first() =~= nb.skip(i + 1));
        }
        if !a[i].same(&b[i]) {
            return a[i].name_lt(&b[i]);
        }
        i = i + 1;
    }
    proof {
        let sa = na.skip(i as int);
        let sb = nb.skip(i as int);
        assert(sa.len() == 0 || sb.len() == 0);
    }
    i == a.len() && i < b.len()
}

/// The clause order chosen by `by_len` on the names of two clauses.
fn clause_before(a: &Vec<LocationId>, b: &Vec<LocationId>, by_len: bool) -> (r: bool)
    ensures
        r == clause_order(by_len)(names_of(a@), names_of(b@)),
{
    if by_len && a.len() != b.len() {
        return a.len() < b.len();
    }
    let ka = disjunct_key(a);
    let kb = disjunct_key(b);
    if str_lt(ka.as_str(), kb.as_str()) {
        return true;
    }
    if !str_eq(ka.as_str(), kb.as_str()) {
        return false;
    }
    names_before(a, b)
}

/// The distinct clauses of the disjunctive normal form of `f`, in the
/// clause order chosen by `by_len`.
pub(crate) fn sorted_disjuncts(f: &DagStateFormula, by_len: bool) -> (r: Vec<Vec<LocationId>>)
    ensures
        clauses_view(r@) == ordered_disjuncts(f@, by_len),
        forall|j: int| 0 <= j < r@.len() ==> crate::text::strictly_sorted(#[trigger] names_of(r@[j]@)),
{
    let d = f.to_dnf();
    let ghost dv = clauses_view(d@);
    let mut r: Vec<Vec<LocationId>> = Vec::new();
    let mut i: usize = 0;
    proof {
        lemma_clause_order_strict(by_len);
        assert(clauses_view(r@).to_set() =~= dv.take(0).to_set());
    }
    while i < d.len()
        invariant
            dv == clauses_view(d@),
            dv == dnf(f@),
            strict_order(clause_order(by_len)),
            forall|a: Seq<Seq<char>>, b: Seq<Seq<char>>|
                a != b ==> #[trigger] clause_order(by_len)(a, b) || #[trigger] clause_order(by_len)(b, a),
            i <= d@.len(),
            sorted_by(clauses_view(r@), clause_order(by_len)),
            forall|j: int| 0 <= j < d@.len() ==> crate::text::strictly_sorted(#[trigger] names_of(d@[j]@)),
            forall|j: int| 0 <= j < r@.len() ==> crate::text::strictly_sorted(#[trigger] names_of(r@[j]@)),
            clauses_view(r@).to_set() == dv.take(i as int).to_set(),
        decreases d@.len() - i,
    {
        let ghost rv = clauses_view(r@);
        let ghost old_r = r@;
        let ghost c = dv[i as int];
        let mut pos: usize = 0;
        while pos < r.len() && clause_before(&r[pos], &d[i], by_len)
            invariant
                rv == clauses_view(r@),
                c == names_of(d@[i as int]@),
                i < d@.len(),
                pos <= r@.len(),
                forall|j: int| 0 <= j < pos ==> clause_order(by_len)(#[trigger] rv[j], c),
            decreases r@.len() - pos,
        {
            pos = pos + 1;
        }
        proof {
            assert(dv.take(i + 1) =~= dv.take(i as int).push(c));
            dv.take(i as int).lemma_push_to_set_commute(c);
        }
        if pos < r.len() && same_names(&r[pos], &d[i]) {
            proof {
                assert(rv[pos as int] == c);
                assert(rv.to_set().contains(c));
                assert(rv.to_set().insert(c) =~= rv.to_set());
            }
        } else {
            proof {
                if pos < r@.len() {
                    assert(rv[pos as int] != c);
                    assert(!clause_order(by_len)(rv[pos as int], c));
                    assert(clause_order(by_len)(c, rv[pos as int]));
                }
                lemma_sorted_insert(rv, pos as int, c, clause_order(by_len));
            }
            let x = copy_location_vec(&d[i]);
            r.insert(pos, x);
            proof {
                assert(clauses_view(r@) =~= rv.insert(pos as int, c));
                assert forall|j: int| 0 <= j < r@.len() implies crate::text::strictly_sorted(
                    #[trigger] names_of(r@[j]@),
                ) by {
                    assert(names_of(r@[j]@) == clauses_view(r@)[j]);
                    if j < pos {
                        assert(clauses_view(r@)[j] == rv[j]);
                        assert(rv[j] == names_of(old_r[j]@));
                    } else if j > pos {
                        assert(clauses_view(r@)[j] == rv[j - 1]);
                        assert(rv[j - 1] == names_of(old_r[j - 1]@));
                    }
                }
            }
        }
        i = i + 1;
    }
    proof {
        assert(dv.take(i as int) =~= dv);
        let s = clauses_view(r@);
        let t = ordered_disjuncts(f@, by_len);
        assert(sorted_by(t, clause_order(by_len)) && t.to_set() == dnf(f@).to_set());
        lemma_sorted_unique(t, s, clause_order(by_len));
    }
    r
}

/// A transition bucket with the label of its symbol.
pub type LabeledBucket = (BucketModel, Seq<char>);

/// The order of buckets in a rendering: by location name, then symbol
/// label, then symbol key.
pub open spec fn labeled_lt(a: LabeledBucket, b: LabeledBucket) -> bool {
    ||| seq_lt(a.0.0, b.0.0)
    ||| a.0.0 == b.0.0 && seq_lt(a.1, b.1)
    ||| a.0.0 == b.0.0 && a.1 == b.1 && seq_lt(a.0.1, b.0.1)
}

/// `labeled_lt` as a function value.
pub open spec fn labeled_lt_fn() -> spec_fn(LabeledBucket, LabeledBucket) -> bool {
    |a: LabeledBucket, b: LabeledBucket| labeled_lt(a, b)
}

/// Each bucket of `m` with the label at the same position of `labels`.
pub open spec fn labeled_buckets(m: ArtaModel, labels: Seq<Seq<char>>) -> Seq<LabeledBucket> {
    Seq::new(m.buckets.len(), |i: int| (m.buckets[i], labels[i]))
}

/// The labeled buckets of `m` in rendering order.
pub open spec fn render_order(m: ArtaModel, labels: Seq<Seq<char>>) -> Seq<LabeledBucket> {
    choose|s: Seq<LabeledBucket>| sorted_by(s, labeled_lt_fn()) && s.to_set() == labeled_buckets(m, labels).to_set()
}

/// `labeled_lt` is a strict order.
proof fn lemma_labeled_lt_strict()
    ensures
        strict_order(labeled_lt_fn()),
{
    assert forall|x: LabeledBucket| !#[trigger] labeled_lt_fn()(x, x) by {
        lemma_seq_lt_irreflexive(x.0.0);
        lemma_seq_lt_irreflexive(x.1);
        lemma_seq_lt_irreflexive(x.0.1);
    }
    assert forall|x: LabeledBucket, y: LabeledBucket, z: LabeledBucket|
        #[trigger] labeled_lt_fn()(x, y) && #[trigger] labeled_lt_fn()(y, z) implies labeled_lt_fn()(x, z) by {
        if seq_lt(x.0.0, y.0.0) && seq_lt(y.0.0, z.0.0) {
            lemma_seq_lt_transitive(x.0.0, y.0.0, z.0.0);
        }
        if x.0.0 == y.0.0 && y.0.0 == z.0.0 {
            if seq_lt(x.1, y.1) && seq_lt(y.1, z.1) {
                lemma_seq_lt_transitive(x.1, y.1, z.1);
            }
            if x.1 == y.1 && y.1 == z.1 && seq_lt(x.0.1, y.0.1) && seq_lt(y.0.1, z.0.1) {
                lemma_seq_lt_transitive(x.0.1, y.0.1, z.0.1);
            }
        }
    }
}

/// Labeled buckets at distinct positions of a well-formed automaton are
/// ordered one way or the other.
proof fn lemma_labeled_total(m: ArtaModel, labels: Seq<Seq<char>>, i: int, j: int)
    requires
        m.wf(),
        labels.len() == m.buckets.len(),
        0 <= i < m.buckets.len(),
        0 <= j < m.buckets.len(),
        i != j,
    ensures
        labeled_lt(labeled_buckets(m, labels)[i], labeled_buckets(m, labels)[j]) || labeled_lt(
            labeled_buckets(m, labels)[j],
            labeled_buckets(m, labels)[i],
        ),
        labeled_buckets(m, labels)[i] != labeled_buckets(m, labels)[j],
{
    let (a, b) = (m.buckets[i], m.buckets[j]);
    if i < j {
        assert(!(m.buckets[i].0 == m.buckets[j].0 && m.buckets[i].1 == m.buckets[j].1));
    } else {
        assert(!(m.buckets[j].0 == m.buckets[i].0 && m.buckets[j].1 == m.buckets[i].1));
    }
    if a.0 != b.0 {
        lemma_seq_lt_total(a.0, b.0);
    } else if labels[i] != labels[j] {
        lemma_seq_lt_total(labels[i], labels[j]);
    } else {
        lemma_seq_lt_total(a.1, b.1);
    }
}

/// A clause's part of a rendering: source node, edge label and clause.
pub type Item = (Seq<char>, Seq<char>, Seq<Seq<char>>);

/// The label of an edge: the symbol label and the guard.
pub open spec fn edge_label(label: Seq<char>, guard: crate::time::interval::IntervalModel, unicode: bool) -> Seq<
    char,
> {
    rendered(label + " : "@ + interval_text(guard), unicode)
}

/// One item per clause of `ds`.
pub open spec fn edge_items(src: Seq<char>, label: Seq<char>, ds: Seq<Seq<Seq<char>>>) -> Seq<Item> {
    Seq::new(ds.len(), |k: int| (src, label, ds[k]))
}

/// The items of the first `n` edges of a labeled bucket.
pub open spec fn bucket_items(m: ArtaModel, lb: LabeledBucket, n: int, unicode: bool) -> Seq<Item>
    decreases n,
{
    if n <= 0 {
        Seq::empty()
    } else {
        bucket_items(m, lb, n - 1, unicode) + edge_items(
            node_id(m.locations.index_of(lb.0.0) as nat),
            edge_label(lb.1, lb.0.2[n - 1].0, unicode),
            disjuncts(lb.0.2[n - 1].1),
        )
    }
}

/// The items of the labeled buckets of `order`, in order.
pub open spec fn all_items(m: ArtaModel, order: Seq<LabeledBucket>, unicode: bool) -> Seq<Item>
    decreases order.len(),
{
    if order.len() == 0 {
        Seq::empty()
    } else {
        all_items(m, order.drop_last(), unicode) + bucket_items(
            m,
            order.last(),
            order.last().0.2.len() as int,
            unicode,
        )
    }
}

/// The number of items that get a conjunction node.
pub open spec fn and_count(items: Seq<Item>) -> nat
    decreases items.len(),
{
    if items.len() == 0 {
        0
    } else {
        and_count(items.drop_last()) + if items.last().2.len() == 1 {
            0nat
        } else {
            1nat
        }
    }
}

/// The name of the `k`-th conjunction node.
pub open spec fn and_id(k: nat) -> Seq<char> {
    "and_"@ + decimal(k)
}

/// Edges from conjunction node `and` to the declared locations of `c`.
pub open spec fn fan_out(locs: Seq<Seq<char>>, and: Seq<char>, c: Seq<Seq<char>>) -> Seq<char>
    decreases c.len(),
{
    if c.len() == 0 {
        Seq::empty()
    } else {
        fan_out(locs, and, c.drop_last()) + if locs.contains(c.last()) {
            "  \""@ + and + "\" -> \""@ + node_id(locs.index_of(c.last()) as nat) + "\";\n"@
        } else {
            Seq::empty()
        }
    }
}

/// The lines of one item; `k` conjunction nodes come before it.
pub open spec fn item_text(locs: Seq<Seq<char>>, it: Item, k: nat) -> Seq<char> {
    if it.2.len() == 1 {
        if locs.contains(it.2[0]) {
            "  \""@ + it.0 + "\" -> \""@ + node_id(locs.index_of(it.2[0]) as nat) + "\" [label=\""@ + it.1
                + "\"];\n"@
        } else {
            Seq::empty()
        }
    } else {
        "  \""@ + and_id(k)
            + "\" [shape=box, style=filled, fillcolor=black, label=\"\", width=0.2, height=0.2, fixedsize=true];\n"@
            + "  \""@ + it.0 + "\" -> \""@ + and_id(k) + "\" [label=\""@ + it.1 + "\"];\n"@ + fan_out(
            locs,
            and_id(k),
            it.2,
        )
    }
}

/// The lines of a sequence of items.
pub open spec fn items_text(locs: Seq<Seq<char>>, items: Seq<Item>) -> Seq<char>
    decreases items.len(),
{
    if items.len() == 0 {
        Seq::empty()
    } else {
        items_text(locs, items.drop_last()) + item_text(locs, items.last(), and_count(items.drop_last()))
    }
}

/// The line of the initial-formula node, when it is shown.
pub open spec fn init_text(m: ArtaModel, opt: DotOptions) -> Seq<char> {
    if opt.show_init_node {
        "  \"__init\" [shape=plaintext, label=\""@ + rendered("L0 = "@ + formula_text(m.init), opt.unicode)
            + "\"];\n"@
    } else {
        Seq::empty()
    }
}

/// The DOT rendering of `m` when bucket `i` has symbol label `labels[i]`.
pub open spec fn dot_text_labeled(m: ArtaModel, labels: Seq<Seq<char>>, opt: DotOptions) -> Seq<char> {
    "digraph ARTA {\n"@ + "  rankdir=LR;\n"@ + init_text(m, opt) + location_lines(
        m,
        m.locations.len() as int,
        opt.unicode,
    ) + items_text(m.locations, all_items(m, render_order(m, labels), opt.unicode)) + "}\n"@
}

/// The symbol labels of the buckets of `m`.
pub open spec fn symbol_labels<A: Symbol>(m: ArtaModel) -> Seq<Seq<char>> {
    Seq::new(m.buckets.len(), |i: int| A::key_label(m.buckets[i].1))
}

/// The DOT rendering of `m` with the symbols' own labels.
pub open spec fn dot_text<A: Symbol>(m: ArtaModel, opt: DotOptions) -> Seq<char> {
    dot_text_labeled(m, symbol_labels::<A>(m), opt)
}

/// Location lines depend only on the locations and accepting locations.
proof fn lemma_location_lines_eq(m1: ArtaModel, m2: ArtaModel, n: int, unicode: bool)
    requires
        m1.locations == m2.locations,
        m1.accepting == m2.accepting,
    ensures
        location_lines(m1, n, unicode) == location_lines(m2, n, unicode),
    decreases n,
{
    if n > 0 {
        lemma_location_lines_eq(m1, m2, n - 1, unicode);
    }
}

/// The items of buckets in a given order depend on the automaton only
/// through its locations.
proof fn lemma_all_items_eq(m1: ArtaModel, m2: ArtaModel, order: Seq<LabeledBucket>, unicode: bool)
    requires
        m1.locations == m2.locations,
    ensures
        all_items(m1, order, unicode) == all_items(m2, order, unicode),
    decreases order.len(),
{
    if order.len() > 0 {
        lemma_all_items_eq(m1, m2, order.drop_last(), unicode);
        lemma_bucket_items_eq(m1, m2, order.last(), order.last().0.2.len() as int, unicode);
    }
}

/// The items of one bucket depend on the automaton only through its
/// locations.
proof fn lemma_bucket_items_eq(m1: ArtaModel, m2: ArtaModel, lb: LabeledBucket, n: int, unicode: bool)
    requires
        m1.locations == m2.locations,
    ensures
        bucket_items(m1, lb, n, unicode) == bucket_items(m2, lb, n, unicode),
    decreases n,
{
    if n > 0 {
        lemma_bucket_items_eq(m1, m2, lb, n - 1, unicode);
    }
}

/// The DOT rendering depends on the transition buckets only as a set: two
/// automata with the same locations, accepting locations and initial
/// formula, whose labelled buckets are the same whatever order they are
/// stored in, render to the same text.
pub proof fn lemma_dot_text_order_independent<A: Symbol>(m1: ArtaModel, m2: ArtaModel, opt: DotOptions)
    requires
        m1.locations == m2.locations,
        m1.accepting == m2.accepting,
        m1.init == m2.init,
        labeled_buckets(m1, symbol_labels::<A>(m1)).to_set() == labeled_buckets(m2, symbol_labels::<A>(m2)).to_set(),
    ensures
        dot_text::<A>(m1, opt) == dot_text::<A>(m2, opt),
{
    lemma_location_lines_eq(m1, m2, m1.locations.len() as int, opt.unicode);
    let o = render_order(m1, symbol_labels::<A>(m1));
    assert(o == render_order(m2, symbol_labels::<A>(m2)));
    lemma_all_items_eq(m1, m2, o, opt.unicode);
}

/// Edges ordered by the least delay of their guards.
pub open spec fn edge_lo_lt() -> spec_fn(EdgeModel, EdgeModel) -> bool {
    |x: EdgeModel, y: EdgeModel| x.0.lo() < y.0.lo()
}

/// The edges of a valid bucket are strictly ordered by the least delays of
/// their guards.
proof fn lemma_bucket_edges_strict(locs: Seq<Seq<char>>, b: BucketModel)
    requires
        crate::arta::bucket_ok(locs, b),
    ensures
        sorted_by(b.2, edge_lo_lt()),
{
    let es = b.2;
    assert forall|i: int, j: int| 0 <= i < j < es.len() implies edge_lo_lt()(es[i], es[j]) by {
        assert(crate::arta::guard_key_le(es[i].0, es[j].0));
        assert(edge_ok(locs, es[i]));
        assert(edge_ok(locs, es[j]));
        if es[i].0.lo() == es[j].0.lo() {
            let h = es[i].0.lo();
            assert(es[i].0.has(h));
            assert(es[j].0.has(h));
        }
    }
}

/// In an automaton built from builder content `m`, every bucket has the
/// key of some transition of `m` and holds exactly the edges of the
/// transitions of `m` with its key.
proof fn lemma_bucket_from_pending(a: ArtaModel, m: BuilderModel, b: int)
    requires
        built_from(a, m),
        0 <= b < a.buckets.len(),
    ensures
        exists|j: int| 0 <= j < m.pending.len() && #[trigger] m.pending[j].0 == a.buckets[b].0 && m.pending[j].1
            == a.buckets[b].1,
{
    assert(key_seen(a.buckets, m.pending, m.pending.len() as int, b));
}

/// Building does not depend on the order in which transitions were added:
/// two builder contents with the same locations, accepting locations,
/// initial formula and set of transitions build automata whose DOT
/// renderings are the same.
pub proof fn lemma_build_order_independent<A: Symbol>(
    a1: ArtaModel,
    a2: ArtaModel,
    m1: BuilderModel,
    m2: BuilderModel,
    opt: DotOptions,
)
    requires
        a1.wf(),
        a2.wf(),
        built_from(a1, m1),
        built_from(a2, m2),
        m1.locations == m2.locations,
        m1.accepting == m2.accepting,
        m1.init == m2.init,
        forall|p: PendingModel| m1.pending.contains(p) <==> m2.pending.contains(p),
    ensures
        dot_text::<A>(a1, opt) == dot_text::<A>(a2, opt),
{
    lemma_edge_lo_lt_strict();
    assert forall|x: int| 0 <= x < a1.buckets.len() implies has_twin(a2.buckets, #[trigger] a1.buckets[x]) by {
        lemma_bucket_twin(a1, a2, m1, m2, x);
    }
    assert forall|y: int| 0 <= y < a2.buckets.len() implies has_twin(a1.buckets, #[trigger] a2.buckets[y]) by {
        lemma_bucket_twin(a2, a1, m2, m1, y);
    }
    let l1 = labeled_buckets(a1, symbol_labels::<A>(a1));
    let l2 = labeled_buckets(a2, symbol_labels::<A>(a2));
    assert forall|e: LabeledBucket| l1.to_set().contains(e) <==> l2.to_set().contains(e) by {
        if l1.to_set().contains(e) {
            let x = choose|x: int| 0 <= x < l1.len() && l1[x] == e;
            assert(has_twin(a2.buckets, a1.buckets[x]));
            let y = choose|y: int| 0 <= y < a2.buckets.len() && #[trigger] a2.buckets[y] == a1.buckets[x];
            assert(l2[y] == e);
        }
        if l2.to_set().contains(e) {
            let y = choose|y: int| 0 <= y < l2.len() && l2[y] == e;
            assert(has_twin(a1.buckets, a2.buckets[y]));
            let x = choose|x: int| 0 <= x < a1.buckets.len() && #[trigger] a1.buckets[x] == a2.buckets[y];
            assert(l1[x] == e);
        }
    }
    assert(l1.to_set() =~= l2.to_set());
    lemma_dot_text_order_independent::<A>(a1, a2, opt);
}

/// Bucket `b` is one of `bs`.
spec fn has_twin(bs: Seq<BucketModel>, b: BucketModel) -> bool {
    exists|y: int| 0 <= y < bs.len() && #[trigger] bs[y] == b
}

/// `edge_lo_lt` is a strict order.
proof fn lemma_edge_lo_lt_strict()
    ensures
        strict_order(edge_lo_lt()),
{
}

/// A bucket of an automaton built from `m1` is also a bucket of one built
/// from `m2` when both have the same transitions.
proof fn lemma_bucket_twin(a1: ArtaModel, a2: ArtaModel, m1: BuilderModel, m2: BuilderModel, x: int)
    requires
        a1.wf(),
        a2.wf(),
        built_from(a1, m1),
        built_from(a2, m2),
        forall|p: PendingModel| m1.pending.contains(p) <==> m2.pending.contains(p),
        0 <= x < a1.buckets.len(),
    ensures
        has_twin(a2.buckets, a1.buckets[x]),
{
    let b1 = a1.buckets[x];
    lemma_bucket_from_pending(a1, m1, x);
    let j = choose|j: int| 0 <= j < m1.pending.len() && #[trigger] m1.pending[j].0 == b1.0 && m1.pending[j].1 == b1.1;
    assert(m1.pending.contains(m1.pending[j]));
    assert(m2.pending.contains(m1.pending[j]));
    let j2 = choose|j2: int| 0 <= j2 < m2.pending.len() && m2.pending[j2] == m1.pending[j];
    assert(crate::arta::has_bucket(a2.buckets, m2.pending[j2].0, m2.pending[j2].1));
    let y = choose|y: int| 0 <= y < a2.buckets.len() && #[trigger] a2.buckets[y].0 == b1.0 && a2.buckets[y].1 == b1.1;
    let b2 = a2.buckets[y];
    assert forall|e: EdgeModel| b1.2.to_set().contains(e) <==> b2.2.to_set().contains(e) by {
        assert(b1.2.to_set().contains(e) <==> b1.2.contains(e));
        assert(b2.2.to_set().contains(e) <==> b2.2.contains(e));
        assert(a1.buckets[x].2.contains(e) <==> exists|i: int|
            0 <= i < m1.pending.len() && #[trigger] m1.pending[i].0 == a1.buckets[x].0 && m1.pending[i].1
                == a1.buckets[x].1 && (m1.pending[i].2, m1.pending[i].3) == e);
        assert(a2.buckets[y].2.contains(e) <==> exists|i: int|
            0 <= i < m2.pending.len() && #[trigger] m2.pending[i].0 == a2.buckets[y].0 && m2.pending[i].1
                == a2.buckets[y].1 && (m2.pending[i].2, m2.pending[i].3) == e);
        if b1.2.contains(e) {
            let i = choose|i: int|
                0 <= i < m1.pending.len() && #[trigger] m1.pending[i].0 == a1.buckets[x].0 && m1.pending[i].1
                    == a1.buckets[x].1 && (m1.pending[i].2, m1.pending[i].3) == e;
            assert(m1.pending.contains(m1.pending[i]));
            let i2 = choose|i2: int| 0 <= i2 < m2.pending.len() && m2.pending[i2] == m1.pending[i];
            assert(m2.pending[i2].0 == a2.buckets[y].0);
        }
        if b2.2.contains(e) {
            let i = choose|i: int|
                0 <= i < m2.pending.len() && #[trigger] m2.pending[i].0 == a2.buckets[y].0 && m2.pending[i].1
                    == a2.buckets[y].1 && (m2.pending[i].2, m2.pending[i].3) == e;
            assert(m2.pending.contains(m2.pending[i]));
            let i1 = choose|i1: int| 0 <= i1 < m1.pending.len() && m1.pending[i1] == m2.pending[i];
            assert(m1.pending[i1].0 == a1.buckets[x].0);
        }
    }
    assert(b1.2.to_set() =~= b2.2.to_set());
    assert(crate::arta::bucket_ok(a1.locations, b1));
    assert(crate::arta::bucket_ok(a2.locations, b2));
    lemma_bucket_edges_strict(a1.locations, b1);
    lemma_bucket_edges_strict(a2.locations, b2);
    lemma_edge_lo_lt_strict();
    lemma_sorted_unique(b1.2, b2.2, edge_lo_lt());
    assert(b1 == b2);
}

/// The contents of a list of strings.
pub open spec fn strings_view(v: Seq<String>) -> Seq<Seq<char>> {
    Seq::new(v.len(), |i: int| v[i]@)
}

/// The labeled buckets at the positions listed in `order`.
pub open spec fn ordered(m: ArtaModel, labels: Seq<Seq<char>>, order: Seq<usize>) -> Seq<LabeledBucket> {
    Seq::new(order.len(), |k: int| labeled_buckets(m, labels)[order[k] as int])
}

impl<A: Symbol> Arta<A> {
    /// `labeled_lt` between the labeled buckets at positions `i` and `j`.
    fn bucket_before(&self, labels: &Vec<String>, i: usize, j: usize) -> (r: bool)
        requires
            labels@.len() == self@.buckets.len(),
            i < self@.buckets.len(),
            j < self@.buckets.len(),
        ensures
            r == labeled_lt(
                labeled_buckets(self@, strings_view(labels@))[i as int],
                labeled_buckets(self@, strings_view(labels@))[j as int],
            ),
    {
        let ts = self.transitions();
        proof {
            assert(bucket_model(ts@[i as int]) == self@.buckets[i as int]);
            assert(bucket_model(ts@[j as int]) == self@.buckets[j as int]);
        }
        let (a, b) = (&ts[i].0, &ts[j].0);
        if a.0.name_lt(&b.0) {
            return true;
        }
        if !a.0.same(&b.0) {
            return false;
        }
        if str_lt(labels[i].as_str(), labels[j].as_str()) {
            return true;
        }
        if !str_eq(labels[i].as_str(), labels[j].as_str()) {
            return false;
        }
        a.1.key_lt(&b.1)
    }

    /// The positions of the buckets in rendering order.
    pub(crate) fn bucket_order(&self, labels: &Vec<String>) -> (order: Vec<usize>)
        requires
            labels@.len() == self@.buckets.len(),
        ensures
            forall|k: int| 0 <= k < order@.len() ==> #[trigger] order@[k] < self@.buckets.len(),
            ordered(self@, strings_view(labels@), order@) == render_order(self@, strings_view(labels@)),
    {
        proof {
            use_type_invariant(self);
            lemma_labeled_lt_strict();
        }
        let ghost lv = strings_view(labels@);
        let ghost lbs = labeled_buckets(self@, lv);
        let n = self.transitions().len();
        let mut order: Vec<usize> = Vec::new();
        let mut i: usize = 0;
        assert(ordered(self@, lv, order@).to_set() =~= lbs.take(0).to_set());
        while i < n
            invariant
                n == self@.buckets.len(),
                labels@.len() == n,
                self@.wf(),
                lv == strings_view(labels@),
                lbs == labeled_buckets(self@, lv),
                strict_order(labeled_lt_fn()),
                i <= n,
                forall|k: int| 0 <= k < order@.len() ==> #[trigger] order@[k] < i,
                sorted_by(ordered(self@, lv, order@), labeled_lt_fn()),
                ordered(self@, lv, order@).to_set() == lbs.take(i as int).to_set(),
            decreases n - i,
        {
            let ghost ov = ordered(self@, lv, order@);
            let ghost x = lbs[i as int];
            let mut pos: usize = 0;
            while pos < order.len() && self.bucket_before(labels, order[pos], i)
                invariant
                    n == self@.buckets.len(),
                    labels@.len() == n,
                    lv == strings_view(labels@),
                    lbs == labeled_buckets(self@, lv),
                    ov == ordered(self@, lv, order@),
                    x == lbs[i as int],
                    i < n,
                    forall|k: int| 0 <= k < order@.len() ==> #[trigger] order@[k] < i,
                    pos <= order@.len(),
                    forall|j: int| 0 <= j < pos ==> labeled_lt(#[trigger] ov[j], x),
                decreases order@.len() - pos,
            {
                pos = pos + 1;
            }
            proof {
                if pos < order@.len() {
                    let o = order@[pos as int] as int;
                    assert(o < i);
                    lemma_labeled_total(self@, lv, o, i as int);
                    assert(ov[pos as int] == lbs[o]);
                    assert(labeled_lt(x, ov[pos as int]));
                }
                lemma_sorted_insert(ov, pos as int, x, labeled_lt_fn());
                assert(lbs.take(i + 1) =~= lbs.take(i as int).push(x));
                lbs.take(i as int).lemma_push_to_set_commute(x);
            }
            order.insert(pos, i);
            proof {
                assert(ordered(self@, lv, order@) =~= ov.insert(pos as int, x));
            }
            i = i + 1;
        }
        proof {
            assert(lbs.take(i as int) =~= lbs);
            let s = ordered(self@, lv, order@);
            let t = render_order(self@, lv);
            assert(sorted_by(t, labeled_lt_fn()) && t.to_set() == lbs.to_set());
            lemma_sorted_unique(t, s, labeled_lt_fn());
        }
        order
    }
}

/// In a list without repeats, the index of an element is its position.
proof fn lemma_index_of_sorted(s: Seq<Seq<char>>, k: int)
    requires
        crate::text::strictly_sorted(s),
        0 <= k < s.len(),
    ensures
        s.index_of(s[k]) == k,
{
    assert(s[k] == s[k]);
    let i = s.index_of(s[k]);
    assert(0 <= i < s.len() && s[i] == s[k]);
    if i < k {
        assert(seq_lt(s[i], s[k]));
        lemma_seq_lt_irreflexive(s[k]);
    } else if k < i {
        assert(seq_lt(s[k], s[i]));
        lemma_seq_lt_irreflexive(s[k]);
    }
}

/// The position of the location named like `name` among the sorted
/// locations `locs`, if it is there.
fn location_index(locs: &[LocationId], name: &LocationId) -> (r: Option<usize>)
    requires
        crate::text::strictly_sorted(names_of(locs@)),
    ensures
        r is Some <==> names_of(locs@).contains(name@),
        r is Some ==> r->Some_0 < locs@.len() && r->Some_0 as int == names_of(locs@).index_of(name@),
{
    let mut i: usize = 0;
    while i < locs.len()
        invariant
            crate::text::strictly_sorted(names_of(locs@)),
            i <= locs@.len(),
            forall|j: int| 0 <= j < i ==> locs@[j]@ != name@,
        decreases locs@.len() - i,
    {
        if locs[i].same(name) {
            proof {
                assert(names_of(locs@)[i as int] == name@);
                lemma_index_of_sorted(names_of(locs@), i as int);
            }
            return Some(i);
        }
        i = i + 1;
    }
    proof {
        if names_of(locs@).contains(name@) {
            let j = choose|j: int| 0 <= j < names_of(locs@).len() && names_of(locs@)[j] == name@;
            assert(locs@[j]@ == name@);
        }
    }
    None
}

/// One clause's part of a rendering, ready to print.
struct DotItem {
    source: String,
    label: String,
    clause: Vec<LocationId>,
}

/// The content of an item.
spec fn item_view(it: DotItem) -> Item {
    (it.source@, it.label@, names_of(it.clause@))
}

/// The contents of a list of items.
spec fn items_view(v: Seq<DotItem>) -> Seq<Item> {
    Seq::new(v.len(), |i: int| item_view(v[i]))
}

/// Append the name of the `k`-th conjunction node.
fn push_and_id(out: &mut String, k: usize)
    ensures
        final(out)@ == old(out)@ + and_id(k as nat),
{
    push_str(out, "and_");
    let d = decimal_string(k as u64);
    push_str(out, d.as_str());
    assert(final(out)@ =~= old(out)@ + and_id(k as nat));
}

/// Append the lines of item `it`, which follows `k` conjunction nodes.
fn push_item(out: &mut String, locs: &[LocationId], it: &DotItem, k: usize)
    requires
        crate::text::strictly_sorted(names_of(locs@)),
    ensures
        final(out)@ == old(out)@ + item_text(names_of(locs@), item_view(*it), k as nat),
{
    let ghost ln = names_of(locs@);
    let ghost iv = item_view(*it);
    if it.clause.len() == 1 {
        match location_index(locs, &it.clause[0]) {
            Some(t) => {
                push_str(out, "  \"");
                push_str(out, it.source.as_str());
                push_str(out, "\" -> \"");
                push_node_id(out, t);
                push_str(out, "\" [label=\"");
                push_str(out, it.label.as_str());
                push_str(out, "\"];\n");
                assert(final(out)@ =~= old(out)@ + item_text(ln, iv, k as nat));
            },
            None => {
                assert(final(out)@ =~= old(out)@ + item_text(ln, iv, k as nat));
            },
        }
    } else {
        let ghost aid = and_id(k as nat);
        push_str(out, "  \"");
        push_and_id(out, k);
        push_str(
            out,
            "\" [shape=box, style=filled, fillcolor=black, label=\"\", width=0.2, height=0.2, fixedsize=true];\n",
        );
        push_str(out, "  \"");
        push_str(out, it.source.as_str());
        push_str(out, "\" -> \"");
        push_and_id(out, k);
        push_str(out, "\" [label=\"");
        push_str(out, it.label.as_str());
        push_str(out, "\"];\n");
        let ghost before = out@;
        let mut j: usize = 0;
        assert(out@ =~= before + fan_out(ln, aid, iv.2.take(0)));
        while j < it.clause.len()
            invariant
                ln == names_of(locs@),
                crate::text::strictly_sorted(ln),
                iv == item_view(*it),
                aid == and_id(k as nat),
                j <= it.clause@.len(),
                out@ == before + fan_out(ln, aid, iv.2.take(j as int)),
            decreases it.clause@.len() - j,
        {
            let ghost prev = out@;
            let ghost c = iv.2.take(j + 1);
            proof {
                assert(c.drop_last() =~= iv.2.take(j as int));
                assert(c.last() == it.clause@[j as int]@);
            }
            match location_index(locs, &it.clause[j]) {
                Some(t) => {
                    push_str(out, "  \"");
                    push_and_id(out, k);
                    push_str(out, "\" -> \"");
                    push_node_id(out, t);
                    push_str(out, "\";\n");
                    assert(out@ =~= prev + ("  \""@ + aid + "\" -> \""@ + node_id(ln.index_of(c.last()) as nat)
                        + "\";\n"@));
                },
                None => {},
            }
            j = j + 1;
        }
        assert(iv.2.take(j as int) =~= iv.2);
        assert(final(out)@ =~= old(out)@ + item_text(ln, iv, k as nat));
    }
}

impl<A: Symbol> Arta<A> {
    /// The items of the edges of bucket `bi`, whose symbol label is `label`.
    fn bucket_dot_items(&self, bi: usize, label: &String, opt: &DotOptions) -> (r: Vec<DotItem>)
        requires
            bi < self@.buckets.len(),
        ensures
            items_view(r@) == bucket_items(
                self@,
                (self@.buckets[bi as int], label@),
                self@.buckets[bi as int].2.len() as int,
                opt.unicode,
            ),
    {
        proof {
            use_type_invariant(self);
        }
        let ghost m = self@;
        let ghost lb = (m.buckets[bi as int], label@);
        let ts = self.transitions();
        let locs = self.locations();
        proof {
            assert(bucket_model(ts@[bi as int]) == m.buckets[bi as int]);
            assert(crate::arta::bucket_ok(m.locations, m.buckets[bi as int]));
        }
        let edges: &Vec<GuardedTransition> = &ts[bi].1;
        let src_idx = match location_index(locs, &ts[bi].0.0) {
            Some(t) => t,
            None => {
                proof {
                    assert(false);
                }
                0
            },
        };
        let mut src = String::new();
        push_node_id(&mut src, src_idx);
        let ghost srcv = node_id(m.locations.index_of(lb.0.0) as nat);
        assert(src@ == srcv);
        let mut items: Vec<DotItem> = Vec::new();
        let mut e: usize = 0;
        assert(items_view(items@) =~= bucket_items(m, lb, 0, opt.unicode));
        while e < edges.len()
            invariant
                m == self@,
                lb == (m.buckets[bi as int], label@),
                bi < m.buckets.len(),
                m.buckets[bi as int] == bucket_model(ts@[bi as int]),
                edges == ts@[bi as int].1,
                src@ == srcv,
                srcv == node_id(m.locations.index_of(lb.0.0) as nat),
                e <= edges@.len(),
                items_view(items@) == bucket_items(m, lb, e as int, opt.unicode),
            decreases edges@.len() - e,
        {
            let ghost ev = lb.0.2[e as int];
            assert(ev == (edges@[e as int].guard@, edges@[e as int].target@));
            let mut raw = label.clone();
            push_str(&mut raw, " : ");
            let g = edges[e].guard.to_string();
            push_str(&mut raw, g.as_str());
            let lab = render_label(raw.as_str(), opt);
            proof {
                assert(raw@ =~= label@ + " : "@ + interval_text(ev.0));
            }
            let ds = sorted_disjuncts(&edges[e].target, true);
            let ghost before = items_view(items@);
            let ghost lv = edge_items(srcv, edge_label(lb.1, ev.0, opt.unicode), disjuncts(ev.1));
            let mut d: usize = 0;
            assert(items_view(items@) =~= before + lv.take(0));
            while d < ds.len()
                invariant
                    lv == edge_items(srcv, lab@, clauses_view(ds@)),
                    src@ == srcv,
                    d <= ds@.len(),
                    items_view(items@) == before + lv.take(d as int),
                decreases ds@.len() - d,
            {
                let it = DotItem { source: src.clone(), label: lab.clone(), clause: copy_location_vec(&ds[d]) };
                let ghost prev = items@;
                items.push(it);
                proof {
                    assert(items_view(items@) =~= items_view(prev).push(item_view(it)));
                    assert(lv.take(d + 1) =~= lv.take(d as int).push(lv[d as int]));
                }
                d = d + 1;
            }
            proof {
                assert(lv.take(d as int) =~= lv);
            }
            e = e + 1;
        }
        items
    }

    /// Render as DOT, with `labels[i]` standing for the symbol of bucket
    /// `i` of the transition relation.
    pub fn to_dot_string_with_labels(&self, opt: &DotOptions, labels: &Vec<String>) -> (r: String)
        requires
            labels@.len() == self@.buckets.len(),
        ensures
            r@ == dot_text_labeled(self@, strings_view(labels@), *opt),
    {
        proof {
            use_type_invariant(self);
        }
        let ghost m = self@;
        let ghost lv = strings_view(labels@);
        let mut out = String::new();
        push_str(&mut out, "digraph ARTA {\n");
        push_str(&mut out, "  rankdir=LR;\n");
        if opt.show_init_node {
            let mut raw = String::new();
            push_str(&mut raw, "L0 = ");
            let t = self.init().to_string();
            push_str(&mut raw, t.as_str());
            let lab = render_label(raw.as_str(), opt);
            push_str(&mut out, "  \"__init\" [shape=plaintext, label=\"");
            push_str(&mut out, lab.as_str());
            push_str(&mut out, "\"];\n");
            assert(raw@ =~= "L0 = "@ + formula_text(m.init));
        }
        let ghost head = "digraph ARTA {\n"@ + "  rankdir=LR;\n"@ + init_text(m, *opt);
        assert(out@ =~= head + location_lines(m, 0, opt.unicode));
        let locs = self.locations();
        let acc = self.accepting();
        let mut i: usize = 0;
        while i < locs.len()
            invariant
                m == self@,
                m.locations == names_of(locs@),
                m.accepting == names_of(acc@),
                i <= locs@.len(),
                out@ == head + location_lines(m, i as int, opt.unicode),
            decreases locs@.len() - i,
        {
            let ghost prev = out@;
            push_str(&mut out, "  \"");
            push_node_id(&mut out, i);
            push_str(&mut out, "\" [shape=");
            let is_acc = contains_location(acc, &locs[i]);
            proof {
                lemma_names_contains(acc@, locs@[i as int]@);
                assert(m.locations[i as int] == locs@[i as int]@);
            }
            if is_acc {
                push_str(&mut out, "doublecircle");
            } else {
                push_str(&mut out, "circle");
            }
            push_str(&mut out, ", label=\"");
            let lab = render_label(locs[i].name(), opt);
            push_str(&mut out, lab.as_str());
            push_str(&mut out, "\"];\n");
            assert(out@ =~= prev + location_line(m, i as int, opt.unicode));
            i = i + 1;
        }
        let ghost head2 = out@;
        let order = self.bucket_order(labels);
        let ghost ord = render_order(m, lv);
        let mut items: Vec<DotItem> = Vec::new();
        let mut p: usize = 0;
        assert(items_view(items@) =~= all_items(m, ord.take(0), opt.unicode));
        while p < order.len()
            invariant
                m == self@,
                labels@.len() == m.buckets.len(),
                lv == strings_view(labels@),
                ord == ordered(m, lv, order@),
                forall|k: int| 0 <= k < order@.len() ==> #[trigger] order@[k] < m.buckets.len(),
                p <= order@.len(),
                items_view(items@) == all_items(m, ord.take(p as int), opt.unicode),
            decreases order@.len() - p,
        {
            let bi = order[p];
            assert(order@[p as int] < m.buckets.len());
            let mut b = self.bucket_dot_items(bi, &labels[bi], opt);
            let ghost prev = items@;
            let ghost bv = b@;
            items.append(&mut b);
            proof {
                let t = ord.take(p + 1);
                assert(t.drop_last() =~= ord.take(p as int));
                assert(t.last() == ord[p as int]);
                assert(ord[p as int] == (m.buckets[bi as int], labels@[bi as int]@));
                assert(items_view(items@) =~= items_view(prev) + items_view(bv));
            }
            p = p + 1;
        }
        assert(ord.take(p as int) =~= ord);
        let ghost iv = items_view(items@);
        let mut k: usize = 0;
        let mut q: usize = 0;
        assert(out@ =~= head2 + items_text(m.locations, iv.take(0)));
        while q < items.len()
            invariant
                m.locations == names_of(locs@),
                crate::text::strictly_sorted(m.locations),
                iv == items_view(items@),
                q <= items@.len(),
                k <= q,
                k == and_count(iv.take(q as int)),
                out@ == head2 + items_text(m.locations, iv.take(q as int)),
            decreases items@.len() - q,
        {
            let ghost prev = out@;
            proof {
                let t = iv.take(q + 1);
                assert(t.drop_last() =~= iv.take(q as int));
                assert(t.last() == item_view(items@[q as int]));
            }
            push_item(&mut out, locs, &items[q], k);
            if items[q].clause.len() != 1 {
                k = k + 1;
            }
            q = q + 1;
        }
        assert(iv.take(q as int) =~= iv);
        push_str(&mut out, "}\n");
        assert(out@ =~= dot_text_labeled(m, lv, *opt));
        out
    }
}

impl<A: Symbol> Arta<A> {
    /// Render as DOT with the given options; symbols are labelled by their
    /// `Debug` text.
    pub fn to_dot_string_with(&self, opt: &DotOptions) -> (r: String)
        ensures
            r@ == dot_text::<A>(self@, *opt),
    {
        let ts = self.transitions();
        let mut labels: Vec<String> = Vec::new();
        let mut i: usize = 0;
        while i < ts.len()
            invariant
                buckets_model(ts@) == self@.buckets,
                i <= ts@.len(),
                strings_view(labels@) == symbol_labels::<A>(self@).take(i as int),
            decreases ts@.len() - i,
        {
            let l = ts[i].0.1.debug_label();
            let ghost prev = labels@;
            labels.push(l);
            proof {
                assert(bucket_model(ts@[i as int]).1 == ts@[i as int].0.1.key());
                assert(strings_view(labels@) =~= strings_view(prev).push(l@));
                assert(symbol_labels::<A>(self@).take(i + 1) =~= symbol_labels::<A>(self@).take(i as int).push(
                    l@,
                ));
            }
            i = i + 1;
        }
        assert(symbol_labels::<A>(self@).take(i as int) =~= symbol_labels::<A>(self@));
        self.to_dot_string_with_labels(opt, &labels)
    }

    /// Render as DOT with the default options: ASCII symbols and the
    /// initial-formula node shown.
    pub fn to_dot_string(&self) -> (r: String)
        ensures
            r@ == dot_text::<A>(self@, DotOptions { unicode: false, show_init_node: true }),
    {
        let opt = DotOptions::default();
        self.to_dot_string_with(&opt)
    }
}

/// The rendering does not depend on the order in which the transition
/// buckets are stored: automata with the same locations, accepting
/// locations, initial formula and set of buckets render alike.
pub proof fn lemma_dot_ignores_bucket_order<A: Symbol>(m1: ArtaModel, m2: ArtaModel, opt: DotOptions)
    requires
        m1.locations == m2.locations,
        m1.accepting == m2.accepting,
        m1.init == m2.init,
        m1.buckets.to_set() == m2.buckets.to_set(),
    ensures
        dot_text::<A>(m1, opt) == dot_text::<A>(m2, opt),
{
    let l1 = labeled_buckets(m1, symbol_labels::<A>(m1));
    let l2 = labeled_buckets(m2, symbol_labels::<A>(m2));
    assert(l1.to_set() =~= l2.to_set()) by {
        assert forall|x: LabeledBucket| l1.to_set().contains(x) implies l2.to_set().contains(x) by {
            let i = choose|i: int| 0 <= i < l1.len() && l1[i] == x;
            assert(m1.buckets.to_set().contains(m1.buckets[i]));
            let j = choose|j: int| 0 <= j < m2.buckets.len() && m2.buckets[j] == m1.buckets[i];
            assert(l2[j] == x);
        }
        assert forall|x: LabeledBucket| l2.to_set().contains(x) implies l1.to_set().contains(x) by {
            let i = choose|i: int| 0 <= i < l2.len() && l2[i] == x;
            assert(m2.buckets.to_set().contains(m2.buckets[i]));
            let j = choose|j: int| 0 <= j < m1.buckets.len() && m1.buckets[j] == m2.buckets[i];
            assert(l1[j] == x);
        }
    }
    let o = render_order(m1, symbol_labels::<A>(m1));
    assert(o == render_order(m2, symbol_labels::<A>(m2)));
    assert(all_items(m1, o, opt.unicode) == all_items(m2, o, opt.unicode)) by {
        lemma_all_items_locations(m1, m2, o, opt.unicode);
    }
    assert(location_lines(m1, m1.locations.len() as int, opt.unicode) == location_lines(
        m2,
        m2.locations.len() as int,
        opt.unicode,
    )) by {
        lemma_location_lines_same(m1, m2, m1.locations.len() as int, opt.unicode);
    }
}

proof fn lemma_all_items_locations(m1: ArtaModel, m2: ArtaModel, o: Seq<LabeledBucket>, unicode: bool)
    requires
        m1.locations == m2.locations,
    ensures
        all_items(m1, o, unicode) == all_items(m2, o, unicode),
    decreases o.len(),
{
    if o.len() > 0 {
        lemma_all_items_locations(m1, m2, o.drop_last(), unicode);
        lemma_bucket_items_locations(m1, m2, o.last(), o.last().0.2.len() as int, unicode);
    }
}

proof fn lemma_bucket_items_locations(m1: ArtaModel, m2: ArtaModel, lb: LabeledBucket, n: int, unicode: bool)
    requires
        m1.locations == m2.locations,
    ensures
        bucket_items(m1, lb, n, unicode) == bucket_items(m2, lb, n, unicode),
    decreases n,
{
    if n > 0 {
        lemma_bucket_items_locations(m1, m2, lb, n - 1, unicode);
    }
}

proof fn lemma_location_lines_same(m1: ArtaModel, m2: ArtaModel, n: int, unicode: bool)
    requires
        m1.locations == m2.locations,
        m1.accepting == m2.accepting,
    ensures
        location_lines(m1, n, unicode) == location_lines(m2, n, unicode),
    decreases n,
{
    if n > 0 {
        lemma_location_lines_same(m1, m2, n - 1, unicode);
    }
}

} // verus!
