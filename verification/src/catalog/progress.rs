//! Reading progress: the set of lessons finished. It is stored as a LIST, one lesson path per
//! line, so there is no arity to get wrong: a blank or stray line is skipped rather than
//! poisoning the rest. The set keeps its paths in order, so the stored string is the same
//! however the lessons were finished and does not churn on every commit.

use vstd::prelude::*;

use crate::catalog::{order_views, reading_order, spec_reading_order};
use crate::text::{
    chars_of, chars_of_string, drop_empty, free_of, is_ws, join, join_with, lemma_drop_empty_keeps,
    lemma_drop_empty_push, lemma_split_join, lemma_trim_end_prefix, lines, lines_of, lit, same,
    seqs, split_char, string_of, string_views, strip_cr, trim, trim_start, trimmed,
};
use crate::wire::BookDto;

verus! {

// ─────────────────────────────────────────────────────────────────────────────
// The order paths are kept in: code point by code point, a proper prefix first. For UTF-8
// strings this is the order of their bytes, the order `String`'s `Ord` uses.
// ─────────────────────────────────────────────────────────────────────────────

pub open spec fn lex_lt(a: Seq<char>, b: Seq<char>) -> bool
    decreases a.len(),
{
    if a.len() == 0 {
        b.len() > 0
    } else if b.len() == 0 {
        false
    } else if a[0] != b[0] {
        a[0] < b[0]
    } else {
        lex_lt(a.drop_first(), b.drop_first())
    }
}

pub proof fn lemma_lex_irreflexive(a: Seq<char>)
    ensures
        !lex_lt(a, a),
    decreases a.len(),
{
    if a.len() > 0 {
        lemma_lex_irreflexive(a.drop_first());
    }
}

pub proof fn lemma_lex_asymmetric(a: Seq<char>, b: Seq<char>)
    ensures
        lex_lt(a, b) ==> !lex_lt(b, a),
    decreases a.len(),
{
    if a.len() > 0 && b.len() > 0 && a[0] == b[0] {
        lemma_lex_asymmetric(a.drop_first(), b.drop_first());
    }
}

pub proof fn lemma_lex_total(a: Seq<char>, b: Seq<char>)
    ensures
        a != b ==> lex_lt(a, b) || lex_lt(b, a),
    decreases a.len(),
{
    if a.len() > 0 && b.len() > 0 && a[0] == b[0] {
        lemma_lex_total(a.drop_first(), b.drop_first());
        if a.drop_first() == b.drop_first() {
            assert(a =~= seq![a[0]] + a.drop_first());
            assert(b =~= seq![b[0]] + b.drop_first());
        }
    } else if a.len() == 0 && b.len() == 0 {
        assert(a =~= b);
    }
}

pub proof fn lemma_lex_transitive(a: Seq<char>, b: Seq<char>, c: Seq<char>)
    requires
        lex_lt(a, b),
        lex_lt(b, c),
    ensures
        lex_lt(a, c),
    decreases a.len(),
{
    if a.len() > 0 && b.len() > 0 && c.len() > 0 && a[0] == b[0] && b[0] == c[0] {
        lemma_lex_transitive(a.drop_first(), b.drop_first(), c.drop_first());
    }
}

/// The position of the first difference decides; equal up to it, the shorter comes first.
fn lex_order(a: &Vec<char>, b: &Vec<char>) -> (r: i8)
    ensures
        r < 0 <==> lex_lt(a@, b@),
        r == 0 <==> a@ == b@,
        r > 0 <==> lex_lt(b@, a@),
{
    assert(a@.skip(0) =~= a@);
    assert(b@.skip(0) =~= b@);
    let mut k: usize = 0;
    while k < a.len() && k < b.len()
        invariant
            k <= a@.len(),
            k <= b@.len(),
            a@.take(k as int) == b@.take(k as int),
            lex_lt(a@, b@) == lex_lt(a@.skip(k as int), b@.skip(k as int)),
            lex_lt(b@, a@) == lex_lt(b@.skip(k as int), a@.skip(k as int)),
        decreases a.len() - k,
    {
        let x = a[k];
        let y = b[k];
        assert(a@.skip(k as int)[0] == x && b@.skip(k as int)[0] == y);
        if x != y {
            proof {
                lemma_lex_asymmetric(a@, b@);
            }
            if x < y {
                return -1;
            } else {
                return 1;
            }
        }
        assert(a@.skip(k as int).drop_first() =~= a@.skip(k + 1));
        assert(b@.skip(k as int).drop_first() =~= b@.skip(k + 1));
        assert(a@.take(k + 1) =~= a@.take(k as int).push(x));
        assert(b@.take(k + 1) =~= b@.take(k as int).push(y));
        k = k + 1;
    }
    if a.len() == b.len() {
        assert(a@ =~= a@.take(k as int));
        assert(b@ =~= b@.take(k as int));
        proof {
            lemma_lex_irreflexive(a@);
        }
        0
    } else if k == a.len() {
        assert(a@ =~= a@.take(k as int));
        assert(a@ != b@ ==> a@.len() != b@.len());
        -1
    } else {
        assert(b@ =~= b@.take(k as int));
        1
    }
}

// ─────────────────────────────────────────────────────────────────────────────
// The set, as its paths in strictly increasing order
// ─────────────────────────────────────────────────────────────────────────────

pub open spec fn sorted_strict(s: Seq<Seq<char>>) -> bool {
    forall|i: int, j: int| 0 <= i < j < s.len() ==> lex_lt(#[trigger] s[i], #[trigger] s[j])
}

/// `x` added to the ordered paths `s`, at its place (or `s` unchanged if it is there).
pub open spec fn ins(s: Seq<Seq<char>>, x: Seq<char>) -> Seq<Seq<char>>
    decreases s.len(),
{
    if s.len() == 0 {
        seq![x]
    } else if s[0] == x {
        s
    } else if lex_lt(x, s[0]) {
        seq![x] + s
    } else {
        seq![s[0]] + ins(s.drop_first(), x)
    }
}

/// The paths `xs` added one after the other to `s`.
pub open spec fn ins_all(s: Seq<Seq<char>>, xs: Seq<Seq<char>>) -> Seq<Seq<char>>
    decreases xs.len(),
{
    if xs.len() == 0 {
        s
    } else {
        ins(ins_all(s, xs.drop_last()), xs.last())
    }
}

pub proof fn lemma_ins(s: Seq<Seq<char>>, x: Seq<char>)
    requires
        sorted_strict(s),
    ensures
        sorted_strict(ins(s, x)),
        ins(s, x).to_set() == s.to_set().insert(x),
        s.contains(x) ==> ins(s, x) == s,
        ins(s, x).len() == if s.contains(x) {
            s.len()
        } else {
            s.len() + 1
        },
    decreases s.len(),
{
    if s.len() == 0 {
        assert(seq![x].to_set() =~= Set::<Seq<char>>::empty().insert(x)) by {
            assert(seq![x][0] == x);
        }
        assert(s.to_set() =~= Set::<Seq<char>>::empty());
    } else if s[0] == x {
        assert(s.to_set() =~= s.to_set().insert(x)) by {
            assert(s.to_set().contains(s[0]));
        }
    } else if lex_lt(x, s[0]) {
        let r = seq![x] + s;
        assert forall|i: int, j: int| 0 <= i < j < r.len() implies lex_lt(#[trigger] r[i], #[trigger] r[j]) by {
            if i == 0 {
                if j > 1 {
                    lemma_lex_transitive(x, s[0], s[j - 1]);
                }
            } else {
                assert(r[i] == s[i - 1] && r[j] == s[j - 1]);
            }
        }
        assert(!s.contains(x)) by {
            if s.contains(x) {
                let k = choose|k: int| 0 <= k < s.len() && s[k] == x;
                if k > 0 {
                    lemma_lex_asymmetric(s[0], s[k]);
                }
                lemma_lex_irreflexive(x);
            }
        }
        assert(r.to_set() =~= s.to_set().insert(x)) by {
            assert forall|y: Seq<char>| r.to_set().contains(y) implies s.to_set().insert(x).contains(y) by {
                let k = choose|k: int| 0 <= k < r.len() && r[k] == y;
                if k > 0 {
                    assert(s[k - 1] == y);
                }
            }
            assert forall|y: Seq<char>| s.to_set().insert(x).contains(y) implies r.to_set().contains(y) by {
                if y == x {
                    assert(r[0] == x);
                } else {
                    let k = choose|k: int| 0 <= k < s.len() && s[k] == y;
                    assert(r[k + 1] == y);
                }
            }
        }
    } else {
        let t = s.drop_first();
        assert(sorted_strict(t)) by {
            assert forall|i: int, j: int| 0 <= i < j < t.len() implies lex_lt(#[trigger] t[i], #[trigger] t[j]) by {
                assert(t[i] == s[i + 1] && t[j] == s[j + 1]);
            }
        }
        lemma_ins(t, x);
        lemma_lex_total(x, s[0]);
        let u = ins(t, x);
        let r = seq![s[0]] + u;
        assert forall|i: int, j: int| 0 <= i < j < r.len() implies lex_lt(#[trigger] r[i], #[trigger] r[j]) by {
            if i == 0 {
                assert(r[j] == u[j - 1]);
                assert(u.to_set().contains(u[j - 1]));
                assert(t.to_set().insert(x).contains(u[j - 1]));
                if u[j - 1] != x {
                    let k = choose|k: int| 0 <= k < t.len() && t[k] == u[j - 1];
                    assert(s[k + 1] == t[k]);
                }
            } else {
                assert(r[i] == u[i - 1] && r[j] == u[j - 1]);
            }
        }
        assert(s =~= seq![s[0]] + t);
        assert(r.to_set() =~= s.to_set().insert(x)) by {
            assert forall|y: Seq<char>| r.to_set().contains(y) implies s.to_set().insert(x).contains(y) by {
                let k = choose|k: int| 0 <= k < r.len() && r[k] == y;
                if k > 0 {
                    assert(u.to_set().contains(u[k - 1]));
                    if y != x {
                        let m = choose|m: int| 0 <= m < t.len() && t[m] == y;
                        assert(s[m + 1] == y);
                    }
                } else {
                    assert(s[0] == y);
                }
            }
            assert forall|y: Seq<char>| s.to_set().insert(x).contains(y) implies r.to_set().contains(y) by {
                if y == s[0] {
                    assert(r[0] == y);
                } else {
                    if y != x {
                        let k = choose|k: int| 0 <= k < s.len() && s[k] == y;
                        assert(t[k - 1] == y);
                        assert(t.to_set().contains(y));
                    }
                    assert(u.to_set().contains(y));
                    let m = choose|m: int| 0 <= m < u.len() && u[m] == y;
                    assert(r[m + 1] == y);
                }
            }
        }
        if s.contains(x) {
            let k = choose|k: int| 0 <= k < s.len() && s[k] == x;
            assert(t[k - 1] == x);
            assert(t.contains(x));
        } else {
            assert(!t.contains(x)) by {
                if t.contains(x) {
                    let k = choose|k: int| 0 <= k < t.len() && t[k] == x;
                    assert(s[k + 1] == x);
                }
            }
        }
    }
}

/// A path greater than every path of the set goes at its end.
pub proof fn lemma_ins_last(s: Seq<Seq<char>>, x: Seq<char>)
    requires
        forall|i: int| 0 <= i < s.len() ==> lex_lt(#[trigger] s[i], x),
    ensures
        ins(s, x) == s.push(x),
    decreases s.len(),
{
    if s.len() == 0 {
        assert(seq![x] =~= s.push(x));
    } else {
        let t = s.drop_first();
        assert forall|i: int| 0 <= i < t.len() implies lex_lt(#[trigger] t[i], x) by {
            assert(t[i] == s[i + 1]);
        }
        lemma_ins_last(t, x);
        lemma_lex_irreflexive(x);
        lemma_lex_asymmetric(s[0], x);
        assert(s[0] != x);
        assert(seq![s[0]] + t.push(x) =~= s.push(x));
    }
}

/// Two ordered sets of paths with the same members are the same sequence.
pub proof fn lemma_sorted_unique(s: Seq<Seq<char>>, t: Seq<Seq<char>>)
    requires
        sorted_strict(s),
        sorted_strict(t),
        s.to_set() == t.to_set(),
    ensures
        s == t,
    decreases s.len() + t.len(),
{
    if s.len() == 0 || t.len() == 0 {
        if s.len() > 0 {
            assert(s.to_set().contains(s[0]));
        }
        if t.len() > 0 {
            assert(t.to_set().contains(t[0]));
        }
        assert(s =~= t);
    } else {
        // the first of each is the least member of both
        assert(t.to_set().contains(s[0]));
        assert(s.to_set().contains(t[0]));
        let i = choose|i: int| 0 <= i < t.len() && t[i] == s[0];
        let j = choose|j: int| 0 <= j < s.len() && s[j] == t[0];
        if s[0] != t[0] {
            assert(i > 0 && j > 0);
            lemma_lex_asymmetric(t[0], t[i]);
        }
        let s1 = s.drop_first();
        let t1 = t.drop_first();
        assert(sorted_strict(s1)) by {
            assert forall|a: int, b: int| 0 <= a < b < s1.len() implies lex_lt(#[trigger] s1[a], #[trigger] s1[b]) by {
                assert(s1[a] == s[a + 1] && s1[b] == s[b + 1]);
            }
        }
        assert(sorted_strict(t1)) by {
            assert forall|a: int, b: int| 0 <= a < b < t1.len() implies lex_lt(#[trigger] t1[a], #[trigger] t1[b]) by {
                assert(t1[a] == t[a + 1] && t1[b] == t[b + 1]);
            }
        }
        assert(s1.to_set() =~= t1.to_set()) by {
            assert forall|y: Seq<char>| s1.to_set().contains(y) implies t1.to_set().contains(y) by {
                let a = choose|a: int| 0 <= a < s1.len() && s1[a] == y;
                assert(s[a + 1] == y);
                lemma_lex_irreflexive(y);
                assert(y != s[0]);
                assert(t.to_set().contains(y));
                let b = choose|b: int| 0 <= b < t.len() && t[b] == y;
                assert(b > 0);
                assert(t1[b - 1] == y);
            }
            assert forall|y: Seq<char>| t1.to_set().contains(y) implies s1.to_set().contains(y) by {
                let a = choose|a: int| 0 <= a < t1.len() && t1[a] == y;
                assert(t[a + 1] == y);
                lemma_lex_irreflexive(y);
                assert(y != t[0]);
                assert(s.to_set().contains(y));
                let b = choose|b: int| 0 <= b < s.len() && s[b] == y;
                assert(b > 0);
                assert(s1[b - 1] == y);
            }
        }
        lemma_sorted_unique(s1, t1);
        assert(s =~= seq![s[0]] + s1);
        assert(t =~= seq![t[0]] + t1);
    }
}

/// `s` without `x`.
pub open spec fn without(s: Seq<Seq<char>>, x: Seq<char>) -> Seq<Seq<char>>
    decreases s.len(),
{
    if s.len() == 0 {
        s
    } else if s[0] == x {
        without(s.drop_first(), x)
    } else {
        seq![s[0]] + without(s.drop_first(), x)
    }
}

pub proof fn lemma_without_absent(s: Seq<Seq<char>>, x: Seq<char>)
    requires
        !s.contains(x),
    ensures
        without(s, x) == s,
    decreases s.len(),
{
    if s.len() > 0 {
        let t = s.drop_first();
        assert(!t.contains(x)) by {
            if t.contains(x) {
                let k = choose|k: int| 0 <= k < t.len() && t[k] == x;
                assert(s[k + 1] == x);
            }
        }
        lemma_without_absent(t, x);
        assert(s[0] != x) by {
            if s[0] == x {
                assert(s.contains(x));
            }
        }
        assert(seq![s[0]] + t =~= s);
    }
}

/// The finished lessons, as full lesson paths.
pub struct DoneSet {
    paths: Vec<String>,
}

impl View for DoneSet {
    type V = Seq<Seq<char>>;

    /// The paths, in increasing order.
    closed spec fn view(&self) -> Seq<Seq<char>> {
        string_views(self.paths@)
    }
}

impl DoneSet {
    #[verifier::type_invariant]
    closed spec fn ordered(self) -> bool {
        sorted_strict(string_views(self.paths@))
    }

    /// The empty set.
    pub fn new() -> (d: Self)
        ensures
            d@ == Seq::<Seq<char>>::empty(),
            sorted_strict(d@),
    {
        let d = DoneSet { paths: Vec::new() };
        assert(d@ =~= Seq::<Seq<char>>::empty());
        d
    }

    /// How many lessons are finished.
    pub fn len(&self) -> (n: usize)
        ensures
            n == self@.len(),
    {
        self.paths.len()
    }

    pub fn is_empty(&self) -> (b: bool)
        ensures
            b == (self@.len() == 0),
    {
        self.paths.len() == 0
    }

    /// Whether `path` is finished.
    pub fn contains(&self, path: &str) -> (b: bool)
        ensures
            b == self@.contains(path@),
    {
        let p = chars_of(path);
        let mut i: usize = 0;
        while i < self.paths.len()
            invariant
                i <= self.paths@.len(),
                p@ == path@,
                forall|k: int| 0 <= k < i ==> self@[k] != path@,
            decreases self.paths.len() - i,
        {
            assert(self@[i as int] == self.paths@[i as int]@);
            if same(&chars_of_string(&self.paths[i]), &p) {
                return true;
            }
            i = i + 1;
        }
        false
    }

    /// The finished paths, in order.
    pub fn paths(&self) -> (out: Vec<String>)
        ensures
            string_views(out@) == self@,
            sorted_strict(self@),
    {
        proof {
            use_type_invariant(self);
        }
        let mut out: Vec<String> = Vec::new();
        let mut i: usize = 0;
        while i < self.paths.len()
            invariant
                i <= self.paths@.len(),
                string_views(out@) == self@.take(i as int),
            decreases self.paths.len() - i,
        {
            let x = self.paths[i].clone();
            let ghost prev = out@;
            out.push(x);
            assert(string_views(out@) =~= string_views(prev).push(x@));
            assert(self@.take(i + 1) =~= self@.take(i as int).push(self@[i as int]));
            i = i + 1;
        }
        assert(self@.take(self@.len() as int) =~= self@);
        out
    }

    /// Mark `path` unfinished; `true` when it was finished before.
    pub fn remove(&mut self, path: &str) -> (removed: bool)
        ensures
            final(self)@ == without(old(self)@, path@),
            removed == old(self)@.contains(path@),
            sorted_strict(final(self)@),
    {
        proof {
            use_type_invariant(&*self);
        }
        let p = chars_of(path);
        let ghost s = self@;
        assert(s.skip(0) =~= s);
        assert(s.take(0) + without(s.skip(0), path@) =~= without(s, path@));
        let mut i: usize = 0;
        while i < self.paths.len()
            invariant
                i <= self.paths@.len(),
                s == string_views(self.paths@),
                sorted_strict(s),
                p@ == path@,
                s == old(self)@,
                without(s, path@) == s.take(i as int) + without(s.skip(i as int), path@),
                forall|k: int| 0 <= k < i ==> #[trigger] s[k] != path@,
            decreases self.paths.len() - i,
        {
            let ghost rest = s.skip(i as int);
            assert(rest[0] == s[i as int]);
            assert(s[i as int] == self.paths@[i as int]@);
            assert(rest.drop_first() =~= s.skip(i + 1));
            if same(&chars_of_string(&self.paths[i]), &p) {
                let ghost after = s.skip(i + 1);
                assert(!after.contains(path@)) by {
                    if after.contains(path@) {
                        let k = choose|k: int| 0 <= k < after.len() && after[k] == path@;
                        assert(s[i + 1 + k] == path@);
                        assert(lex_lt(s[i as int], s[i + 1 + k]));
                        lemma_lex_irreflexive(path@);
                    }
                }
                proof {
                    lemma_without_absent(after, path@);
                }
                assert(without(rest, path@) == without(after, path@));
                let ghost old_paths = self.paths@;
                let mut paths = Vec::new();
                std::mem::swap(&mut paths, &mut self.paths);
                paths.remove(i);
                assert(paths@ =~= old_paths.take(i as int) + old_paths.skip(i + 1));
                assert(string_views(paths@) =~= s.take(i as int) + s.skip(i + 1));
                assert(sorted_strict(string_views(paths@))) by {
                    let r = string_views(paths@);
                    assert forall|a: int, b: int| 0 <= a < b < r.len() implies lex_lt(#[trigger] r[a], #[trigger] r[b]) by {
                        let a2 = if a < i { a } else { a + 1 };
                        let b2 = if b < i { b } else { b + 1 };
                        assert(r[a] == s[a2] && r[b] == s[b2]);
                    }
                }
                self.paths = paths;
                assert(s.contains(path@)) by {
                    assert(s[i as int] == path@);
                }
                return true;
            }
            assert(s.take(i + 1) =~= s.take(i as int) + seq![s[i as int]]);
            i = i + 1;
        }
        assert(!s.contains(path@)) by {
            if s.contains(path@) {
                let k = choose|k: int| 0 <= k < s.len() && s[k] == path@;
                assert(s[k] != path@);
            }
        }
        proof {
            lemma_without_absent(s, path@);
        }
        false
    }

    /// Mark `path` finished; `true` when it was not finished before.
    pub fn insert(&mut self, path: &str) -> (added: bool)
        ensures
            final(self)@ == ins(old(self)@, path@),
            added == !old(self)@.contains(path@),
            sorted_strict(old(self)@),
            sorted_strict(final(self)@),
    {
        proof {
            use_type_invariant(&*self);
        }
        let p = chars_of(path);
        let ghost s = self@;
        proof {
            lemma_ins(s, path@);
        }
        assert(s.skip(0) =~= s);
        assert(s.take(0) + ins(s.skip(0), path@) =~= ins(s, path@));
        let mut i: usize = 0;
        while i < self.paths.len()
            invariant
                i <= self.paths@.len(),
                s == string_views(self.paths@),
                sorted_strict(s),
                p@ == path@,
                ins(s, path@) == s.take(i as int) + ins(s.skip(i as int), path@),
                forall|k: int| 0 <= k < i ==> lex_lt(#[trigger] s[k], path@),
            ensures
                i <= self.paths@.len(),
                ins(s, path@) == s.take(i as int) + ins(s.skip(i as int), path@),
                forall|k: int| 0 <= k < i ==> lex_lt(#[trigger] s[k], path@),
                i == self.paths@.len() || lex_lt(path@, s[i as int]),
            decreases self.paths.len() - i,
        {
            let ghost rest = s.skip(i as int);
            assert(rest[0] == self.paths@[i as int]@);
            let o = lex_order(&chars_of_string(&self.paths[i]), &p);
            if o == 0 {
                assert(s.contains(path@)) by {
                    assert(s[i as int] == path@);
                }
                return false;
            }
            if o > 0 {
                break;
            }
            assert(rest.drop_first() =~= s.skip(i + 1));
            assert(s.take(i + 1) =~= s.take(i as int) + seq![s[i as int]]);
            proof {
                lemma_lex_asymmetric(s[i as int], path@);
            }
            i = i + 1;
        }
        let ghost rest = s.skip(i as int);
        assert(!s.contains(path@)) by {
            if s.contains(path@) {
                let k = choose|k: int| 0 <= k < s.len() && s[k] == path@;
                if k < i {
                    assert(s.take(i as int)[k] == path@);
                }
                lemma_lex_irreflexive(path@);
            }
        }
        // here either i is the end, or path sorts before the path at i
        assert(ins(s.skip(i as int), path@) =~= seq![path@] + s.skip(i as int));
        assert(ins(s, path@) =~= s.take(i as int) + seq![path@] + s.skip(i as int));
        let ghost old_paths = self.paths@;
        let mut paths = Vec::new();
        std::mem::swap(&mut paths, &mut self.paths);
        let item = string_of(&p);
        paths.insert(i, item);
        assert(paths@ =~= old_paths.take(i as int).push(item) + old_paths.skip(i as int));
        assert(string_views(paths@) =~= ins(s, path@));
        self.paths = paths;
        true
    }
}

// ─────────────────────────────────────────────────────────────────────────────
// The stored form
// ─────────────────────────────────────────────────────────────────────────────

/// The lines worth keeping: each trimmed, the blank ones dropped.
pub open spec fn kept_lines(stored: Seq<char>) -> Seq<Seq<char>> {
    drop_empty(lines(stored).map_values(|l: Seq<char>| trim(l)))
}

/// The set a stored value reads as: absent storage is the empty set.
pub open spec fn spec_parse(stored: Option<Seq<char>>) -> Seq<Seq<char>> {
    match stored {
        None => Seq::empty(),
        Some(s) => ins_all(Seq::empty(), kept_lines(s)),
    }
}

/// The stored form: the paths in order, one per line.
pub open spec fn spec_serialize(done: Seq<Seq<char>>) -> Seq<char> {
    join(done, "\n"@)
}

/// Read the completed set. Absent or unreadable storage is an empty set, never an error and
/// never a partial parse.
pub fn parse(stored: Option<&str>) -> (done: DoneSet)
    ensures
        sorted_strict(done@),
        done@ == spec_parse(
            match stored {
                Some(s) => Some(s@),
                None => None,
            },
        ),
{
    let mut done = DoneSet::new();
    let s = match stored {
        None => {
            return done;
        },
        Some(s) => s,
    };
    let ls = lines_of(&chars_of(s));
    let ghost lv = seqs(ls@);
    let ghost tv = lv.map_values(|l: Seq<char>| trim(l));
    let ghost mut kept: Seq<Seq<char>> = Seq::empty();
    let mut i: usize = 0;
    while i < ls.len()
        invariant
            i <= ls@.len(),
            lv == seqs(ls@),
            lv == lines(s@),
            tv == lv.map_values(|l: Seq<char>| trim(l)),
            kept == drop_empty(tv.take(i as int)),
            done@ == ins_all(Seq::empty(), kept),
            sorted_strict(done@),
        decreases ls.len() - i,
    {
        let t = trimmed(&ls[i]);
        assert(t@ == tv[i as int]);
        assert(tv.take(i + 1) =~= tv.take(i as int).push(tv[i as int]));
        proof {
            lemma_drop_empty_push(tv.take(i as int), tv[i as int]);
        }
        if t.len() > 0 {
            let line = string_of(&t);
            done.insert(line.as_str());
            proof {
                let before = kept;
                kept = kept.push(t@);
                assert(kept.drop_last() =~= before);
            }
        }
        i = i + 1;
    }
    assert(tv.take(ls@.len() as int) =~= tv);
    done
}

/// The stored form: the paths in order, one per line.
pub fn serialize(done: &DoneSet) -> (out: String)
    ensures
        out@ == spec_serialize(done@),
        sorted_strict(done@),
{
    let paths = done.paths();
    let mut parts: Vec<Vec<char>> = Vec::new();
    let mut i: usize = 0;
    while i < paths.len()
        invariant
            i <= paths@.len(),
            seqs(parts@) == string_views(paths@).take(i as int),
        decreases paths.len() - i,
    {
        let x = chars_of_string(&paths[i]);
        let ghost prev = parts@;
        parts.push(x);
        assert(seqs(parts@) =~= seqs(prev).push(x@));
        assert(string_views(paths@).take(i + 1) =~= string_views(paths@).take(i as int).push(
            paths@[i as int]@,
        ));
        i = i + 1;
    }
    assert(string_views(paths@).take(paths@.len() as int) =~= string_views(paths@));
    string_of(&join_with(&parts, &lit("\n")))
}

/// The storage key the finished set lives under.
pub const PROGRESS_KEY: &'static str = "reader-progress";

/// The storage key the last lesson opened lives under.
pub const LAST_KEY: &'static str = "reader-last";

/// Mark a lesson finished or unfinished, and say what to store: the new stored form when the
/// set changed, nothing when it did not (re-marking a finished lesson writes nothing).
pub fn set_done(done: &mut DoneSet, path: &str, finished: bool) -> (write: Option<String>)
    ensures
        final(done)@ == if finished {
            ins(old(done)@, path@)
        } else {
            without(old(done)@, path@)
        },
        match write {
            Some(w) => old(done)@.contains(path@) != finished && w@ == spec_serialize(final(done)@),
            None => old(done)@.contains(path@) == finished,
        },
{
    let changed = if finished {
        done.insert(path)
    } else {
        done.remove(path)
    };
    if changed {
        Some(serialize(done))
    } else {
        None
    }
}

/// Whether opening `path` is news worth storing: it is not already the last lesson opened.
pub fn visit(last: Option<&str>, path: &str) -> (write: bool)
    ensures
        write == match last {
            Some(l) => l@ != path@,
            None => true,
        },
{
    match last {
        Some(l) => !crate::text::str_eq(l, path),
        None => true,
    }
}

// ─────────────────────────────────────────────────────────────────────────────
// Progress through a book
// ─────────────────────────────────────────────────────────────────────────────

/// How many of `paths` are in the set.
pub open spec fn count_done(paths: Seq<Seq<char>>, done: Seq<Seq<char>>) -> nat
    decreases paths.len(),
{
    if paths.len() == 0 {
        0
    } else {
        count_done(paths.drop_last(), done) + if done.contains(paths.last()) {
            1nat
        } else {
            0nat
        }
    }
}

/// The first of `paths` not in the set.
pub open spec fn first_undone(paths: Seq<Seq<char>>, done: Seq<Seq<char>>) -> Option<Seq<char>>
    decreases paths.len(),
{
    if paths.len() == 0 {
        None
    } else if !done.contains(paths[0]) {
        Some(paths[0])
    } else {
        first_undone(paths.drop_first(), done)
    }
}

/// The lesson paths of a book, in reading order.
pub open spec fn book_paths(book: BookDto) -> Seq<Seq<char>> {
    spec_reading_order(book).map_values(
        |e: (Seq<char>, (Seq<char>, Seq<char>, Option<u32>, bool))| e.0,
    )
}

/// How many of a book's lessons are finished, counted against its reading order (the same
/// list the sidebar and the card use), by full path.
pub fn completed_count(book: &BookDto, done: &DoneSet) -> (n: usize)
    ensures
        n == count_done(book_paths(*book), done@),
{
    let order = reading_order(book);
    let ghost ps = book_paths(*book);
    assert(ps.len() == order@.len());
    let mut n: usize = 0;
    let mut i: usize = 0;
    while i < order.len()
        invariant
            i <= order@.len(),
            ps == book_paths(*book),
            ps.len() == order@.len(),
            order_views(order@) == spec_reading_order(*book),
            n == count_done(ps.take(i as int), done@),
            n <= i,
        decreases order.len() - i,
    {
        assert(ps[i as int] == order@[i as int].0@);
        assert(ps.take(i + 1).drop_last() =~= ps.take(i as int));
        if done.contains(order[i].0.as_str()) {
            n = n + 1;
        }
        i = i + 1;
    }
    assert(ps.take(order@.len() as int) =~= ps);
    n
}

/// The first unfinished lesson of a book, in reading order; `None` when the book is done.
pub fn next_unread(book: &BookDto, done: &DoneSet) -> (r: Option<String>)
    ensures
        match r {
            Some(p) => first_undone(book_paths(*book), done@) == Some(p@),
            None => first_undone(book_paths(*book), done@) is None,
        },
{
    let order = reading_order(book);
    let ghost ps = book_paths(*book);
    assert(ps.len() == order@.len());
    assert(ps.skip(0) =~= ps);
    let mut i: usize = 0;
    while i < order.len()
        invariant
            i <= order@.len(),
            ps == book_paths(*book),
            ps.len() == order@.len(),
            order_views(order@) == spec_reading_order(*book),
            first_undone(ps, done@) == first_undone(ps.skip(i as int), done@),
        decreases order.len() - i,
    {
        assert(ps[i as int] == order@[i as int].0@);
        assert(ps.skip(i as int)[0] == ps[i as int]);
        assert(ps.skip(i as int).drop_first() =~= ps.skip(i + 1));
        if !done.contains(order[i].0.as_str()) {
            return Some(order[i].0.clone());
        }
        i = i + 1;
    }
    None
}

// ─────────────────────────────────────────────────────────────────────────────
// Laws of the stored form
// ─────────────────────────────────────────────────────────────────────────────

/// A path as the stored form can carry it: a non-empty, already-trimmed line.
pub open spec fn is_storable(p: Seq<char>) -> bool {
    p.len() > 0 && trim(p) == p && free_of(p, '\n')
}

proof fn lemma_trimmed_ends(p: Seq<char>)
    requires
        p.len() > 0,
        trim(p) == p,
    ensures
        !is_ws(p.last()),
{
    lemma_trim_end_prefix(trim_start(p));
}

/// Writing a set of storable paths and reading it back gives the same set.
pub proof fn lemma_progress_round_trip(done: Seq<Seq<char>>)
    requires
        sorted_strict(done),
        forall|i: int| 0 <= i < done.len() ==> is_storable(#[trigger] done[i]),
    ensures
        spec_parse(Some(spec_serialize(done))) == done,
{
    reveal_strlit("\n");
    assert("\n"@ =~= seq!['\n']);
    let text = spec_serialize(done);
    if done.len() == 0 {
        assert(text =~= Seq::<char>::empty());
        assert(split_char(text, '\n') =~= seq![Seq::<char>::empty()]);
        assert(lines(text) =~= Seq::<Seq<char>>::empty());
        assert(lines(text).map_values(|l: Seq<char>| trim(l)) =~= Seq::<Seq<char>>::empty());
        assert(kept_lines(text) =~= Seq::<Seq<char>>::empty());
    } else {
        assert forall|i: int| 0 <= i < done.len() implies free_of(#[trigger] done[i], '\n') by {
            assert(is_storable(done[i]));
        }
        lemma_split_join(done, '\n');
        assert(done.last().len() > 0) by {
            assert(is_storable(done[done.len() - 1]));
        }
        assert forall|i: int| 0 <= i < done.len() implies strip_cr(#[trigger] done[i]) == done[i] by {
            assert(is_storable(done[i]));
            lemma_trimmed_ends(done[i]);
        }
        assert(lines(text) =~= done);
        assert forall|i: int| 0 <= i < done.len() implies trim(#[trigger] done[i]) == done[i] by {
            assert(is_storable(done[i]));
        }
        assert(lines(text).map_values(|l: Seq<char>| trim(l)) =~= done);
        assert forall|i: int| 0 <= i < done.len() implies (#[trigger] done[i]).len() > 0 by {
            assert(is_storable(done[i]));
        }
        lemma_drop_empty_keeps(done);
        assert(kept_lines(text) == done);
    }
    lemma_ins_all_sorted(done);
}

/// Adding ordered paths one after the other to the empty set gives them back.
pub proof fn lemma_ins_all_sorted(s: Seq<Seq<char>>)
    requires
        sorted_strict(s),
    ensures
        ins_all(Seq::empty(), s) == s,
    decreases s.len(),
{
    if s.len() > 0 {
        let d = s.drop_last();
        assert(sorted_strict(d)) by {
            assert forall|i: int, j: int| 0 <= i < j < d.len() implies lex_lt(#[trigger] d[i], #[trigger] d[j]) by {
                assert(d[i] == s[i] && d[j] == s[j]);
            }
        }
        lemma_ins_all_sorted(d);
        assert forall|i: int| 0 <= i < d.len() implies lex_lt(#[trigger] d[i], s.last()) by {
            assert(d[i] == s[i]);
        }
        lemma_ins_last(d, s.last());
        assert(d.push(s.last()) =~= s);
    }
}

/// The stored form depends only on which lessons are finished, not on the order they were
/// finished in: two sets (whose paths are always in order) with the same members store alike.
pub proof fn lemma_serialize_stable(a: Seq<Seq<char>>, b: Seq<Seq<char>>)
    requires
        sorted_strict(a),
        sorted_strict(b),
        a.to_set() == b.to_set(),
    ensures
        spec_serialize(a) == spec_serialize(b),
{
    lemma_sorted_unique(a, b);
}


/// A book is finished exactly when every lesson counts as done: its completed count reaches
/// its lesson count exactly when there is no next lesson to read.
pub proof fn lemma_finished_book(paths: Seq<Seq<char>>, done: Seq<Seq<char>>)
    ensures
        count_done(paths, done) <= paths.len(),
        (count_done(paths, done) == paths.len()) <==> first_undone(paths, done) is None,
        first_undone(paths, done) is None <==> (forall|i: int| 0 <= i < paths.len() ==> done.contains(#[trigger] paths[i])),
    decreases paths.len(),
{
    if paths.len() > 0 {
        let t = paths.drop_first();
        let d = paths.drop_last();
        lemma_finished_book(t, done);
        lemma_finished_book(d, done);
        lemma_count_done_first(paths, done);
        if first_undone(paths, done) is None {
            assert forall|i: int| 0 <= i < paths.len() implies done.contains(#[trigger] paths[i]) by {
                if i > 0 {
                    assert(paths[i] == t[i - 1]);
                }
            }
        }
        if forall|i: int| 0 <= i < paths.len() ==> done.contains(#[trigger] paths[i]) {
            assert forall|i: int| 0 <= i < t.len() implies done.contains(#[trigger] t[i]) by {
                assert(t[i] == paths[i + 1]);
            }
            assert(done.contains(paths[0]));
        }
    }
}

proof fn lemma_count_done_first(paths: Seq<Seq<char>>, done: Seq<Seq<char>>)
    requires
        paths.len() > 0,
    ensures
        count_done(paths, done) == count_done(paths.drop_first(), done) + if done.contains(paths[0]) {
            1nat
        } else {
            0nat
        },
    decreases paths.len(),
{
    if paths.len() > 1 {
        let d = paths.drop_last();
        lemma_count_done_first(d, done);
        assert(d.drop_first() =~= paths.drop_first().drop_last());
        assert(paths.drop_first().last() == paths.last());
        assert(d[0] == paths[0]);
    } else {
        assert(paths.drop_first() =~= Seq::<Seq<char>>::empty());
        assert(paths.drop_last() =~= Seq::<Seq<char>>::empty());
    }
}

/// Marking a lesson finished makes it finished, and keeps every other lesson as it was.
pub proof fn lemma_marked_done(done: Seq<Seq<char>>, path: Seq<char>, other: Seq<char>)
    requires
        sorted_strict(done),
    ensures
        ins(done, path).contains(path),
        other != path ==> (ins(done, path).contains(other) == done.contains(other)),
{
    lemma_ins(done, path);
    assert(ins(done, path).to_set().contains(path));
    assert(ins(done, path).to_set().contains(other) == done.to_set().insert(path).contains(other));
}

/// Marking a lesson unfinished makes it unfinished, and keeps every other lesson as it was.
pub proof fn lemma_marked_undone(done: Seq<Seq<char>>, path: Seq<char>, other: Seq<char>)
    ensures
        !without(done, path).contains(path),
        other != path ==> (without(done, path).contains(other) == done.contains(other)),
    decreases done.len(),
{
    if done.len() > 0 {
        let t = done.drop_first();
        lemma_marked_undone(t, path, other);
        let w = without(t, path);
        if done[0] == path {
            if other != path {
                if done.contains(other) {
                    let k = choose|k: int| 0 <= k < done.len() && done[k] == other;
                    assert(t[k - 1] == other);
                }
                if t.contains(other) {
                    let k = choose|k: int| 0 <= k < t.len() && t[k] == other;
                    assert(done[k + 1] == other);
                }
            }
        } else {
            let r = seq![done[0]] + w;
            assert(!r.contains(path)) by {
                if r.contains(path) {
                    let k = choose|k: int| 0 <= k < r.len() && r[k] == path;
                    assert(k > 0);
                    assert(w[k - 1] == path);
                }
            }
            if other != path {
                if r.contains(other) {
                    let k = choose|k: int| 0 <= k < r.len() && r[k] == other;
                    if k > 0 {
                        assert(w[k - 1] == other);
                        let m = choose|m: int| 0 <= m < t.len() && t[m] == other;
                        assert(done[m + 1] == other);
                    } else {
                        assert(done[0] == other);
                    }
                }
                if done.contains(other) {
                    let k = choose|k: int| 0 <= k < done.len() && done[k] == other;
                    if k > 0 {
                        assert(t[k - 1] == other);
                        let m = choose|m: int| 0 <= m < w.len() && w[m] == other;
                        assert(r[m + 1] == other);
                    } else {
                        assert(r[0] == other);
                    }
                }
            }
        }
    }
}

} // verus!
