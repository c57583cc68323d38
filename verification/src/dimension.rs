//! The dimensionality algebra: a unit as a mapping from base dimension
//! to non-zero integer exponent, closed under multiplication, inversion
//! and integer-root extraction.  The mathematical model of a value is a
//! `Map<Seq<char>, int>`; two values denote the same unit exactly when
//! their maps are equal.

use vstd::prelude::*;
use vstd::map::*;
use vstd::arithmetic::div_mod::{lemma_fundamental_div_mod, lemma_fundamental_div_mod_converse};
use crate::text::{lex_lt, lemma_lex_asym, lemma_lex_irrefl, lemma_lex_total, lemma_lex_trans, str_eq, str_lt};

verus! {

/// An atomic, named base dimension; its identity is its name.
#[derive(Debug)]
pub struct BaseUnit {
    pub id: String,
}

impl View for BaseUnit {
    type V = Seq<char>;

    open spec fn view(&self) -> Seq<char> {
        self.id@
    }
}

impl Clone for BaseUnit {
    fn clone(&self) -> (r: Self)
        ensures
            r@ == self@,
    {
        BaseUnit { id: self.id.clone() }
    }
}

impl BaseUnit {
    /// A base dimension with the given name.
    pub fn new(id: &str) -> (r: BaseUnit)
        ensures
            r@ == id@,
    {
        BaseUnit { id: id.to_owned() }
    }
}

/// The mathematical reading of a list of entries: names and exponents.
pub open spec fn entries_view(s: Seq<(BaseUnit, i64)>) -> Seq<(Seq<char>, int)> {
    s.map_values(|e: (BaseUnit, i64)| (e.0@, e.1 as int))
}

/// The exponent map denoted by a sequence of (name, exponent) entries;
/// a later entry for the same name would win, but well-formed values
/// never hold two entries for one name.
pub open spec fn entries_map(s: Seq<(Seq<char>, int)>) -> Map<Seq<char>, int>
    decreases s.len(),
{
    if s.len() == 0 {
        Map::empty()
    } else {
        entries_map(s.drop_last()).insert(s.last().0, s.last().1)
    }
}

/// No two entries share a name.
pub open spec fn entries_unique(s: Seq<(Seq<char>, int)>) -> bool {
    forall|i: int, j: int| 0 <= i < j < s.len() ==> s[i].0 != s[j].0
}

/// Entries stand in strictly ascending name order.
pub open spec fn entries_sorted(s: Seq<(Seq<char>, int)>) -> bool {
    forall|i: int, j: int| 0 <= i < j < s.len() ==> lex_lt(s[i].0, s[j].0)
}

/// Strictly sorted entries have no duplicate names.
pub proof fn lemma_sorted_unique(s: Seq<(Seq<char>, int)>)
    requires
        entries_sorted(s),
    ensures
        entries_unique(s),
{
    assert forall|i: int, j: int| 0 <= i < j < s.len() implies s[i].0 != s[j].0 by {
        lemma_lex_asym(s[i].0, s[j].0);
    }
}

/// Sorted storage is a canonical form: two strictly sorted entry lists
/// denoting the same exponent map are the same list.
pub proof fn lemma_canonical_form(a: Seq<(Seq<char>, int)>, b: Seq<(Seq<char>, int)>)
    requires
        entries_sorted(a),
        entries_sorted(b),
        entries_map(a) == entries_map(b),
    ensures
        a == b,
    decreases a.len(),
{
    lemma_sorted_unique(a);
    lemma_sorted_unique(b);
    if a.len() == 0 {
        if b.len() > 0 {
            lemma_entries_map_contains(b, b.len() - 1);
            assert(entries_map(a).contains_key(b[b.len() - 1].0));
            assert(false);
        }
        assert(a =~= b);
    } else if b.len() == 0 {
        lemma_entries_map_contains(a, a.len() - 1);
        assert(entries_map(b).contains_key(a[a.len() - 1].0));
        assert(false);
    } else {
        let ka = a.last().0;
        let kb = b.last().0;
        lemma_entries_map_contains(a, a.len() - 1);
        lemma_entries_map_contains(b, b.len() - 1);
        lemma_entries_map_dom(b, ka);
        lemma_entries_map_dom(a, kb);
        let y = choose|y: int| 0 <= y < b.len() && b[y].0 == ka;
        let x = choose|x: int| 0 <= x < a.len() && a[x].0 == kb;
        if ka != kb {
            assert(y < b.len() - 1);
            assert(lex_lt(b[y].0, b[b.len() - 1].0));
            assert(x < a.len() - 1);
            assert(lex_lt(a[x].0, a[a.len() - 1].0));
            lemma_lex_asym(ka, kb);
            assert(false);
        }
        assert(a.last().1 == b.last().1) by {
            assert(entries_map(a).contains_pair(ka, a.last().1));
            assert(entries_map(b).contains_pair(kb, b.last().1));
        }
        let da = a.drop_last();
        let db = b.drop_last();
        assert(entries_sorted(da) && entries_sorted(db)) by {
            assert(forall|i: int| 0 <= i < da.len() ==> da[i] == a[i]);
            assert(forall|i: int| 0 <= i < db.len() ==> db[i] == b[i]);
        }
        assert forall|i: int| 0 <= i < da.len() implies da[i].0 != ka by {
            assert(da[i] == a[i]);
        }
        assert forall|i: int| 0 <= i < db.len() implies db[i].0 != kb by {
            assert(db[i] == b[i]);
        }
        lemma_entries_map_dom(da, ka);
        lemma_entries_map_dom(db, kb);
        assert_maps_equal!(entries_map(da), entries_map(db), kk => {
            if kk != ka {
                assert(entries_map(a)[kk] == entries_map(da).insert(ka, a.last().1)[kk]);
                assert(entries_map(a).contains_key(kk) == entries_map(da).insert(
                    ka,
                    a.last().1,
                ).contains_key(kk));
            }
        });
        lemma_canonical_form(da, db);
        assert(a =~= b) by {
            assert(a.len() == b.len());
            assert(forall|i: int| 0 <= i < a.len() - 1 ==> a[i] == da[i] && b[i] == db[i]);
        }
    }
}

/// Each listed entry of a duplicate-free sequence is in its map.
pub proof fn lemma_entries_map_contains(s: Seq<(Seq<char>, int)>, i: int)
    requires
        entries_unique(s),
        0 <= i < s.len(),
    ensures
        entries_map(s).contains_pair(s[i].0, s[i].1),
    decreases s.len(),
{
    if i == s.len() - 1 {
    } else {
        assert(entries_unique(s.drop_last()));
        assert(s.drop_last()[i] == s[i]);
        lemma_entries_map_contains(s.drop_last(), i);
        assert(s.last().0 != s[i].0);
    }
}

/// A name is in the map exactly when some entry lists it.
pub proof fn lemma_entries_map_dom(s: Seq<(Seq<char>, int)>, k: Seq<char>)
    ensures
        entries_map(s).contains_key(k) <==> exists|i: int| 0 <= i < s.len() && s[i].0 == k,
    decreases s.len(),
{
    if s.len() == 0 {
    } else {
        lemma_entries_map_dom(s.drop_last(), k);
        if s.last().0 == k {
            assert(s[s.len() - 1].0 == k);
        } else {
            assert(forall|i: int| 0 <= i < s.len() - 1 ==> s.drop_last()[i] == s[i]);
        }
    }
}

/// A key listed in a sequence is still listed after one entry is appended.
proof fn lemma_push_keeps_keys(s: Seq<(Seq<char>, int)>, t: Seq<(Seq<char>, int)>, k: Seq<char>)
    requires
        t.len() == s.len() + 1,
        forall|j: int| 0 <= j < s.len() ==> t[j] == s[j],
        exists|j: int| 0 <= j < s.len() && s[j].0 == k,
    ensures
        exists|j: int| 0 <= j < t.len() && t[j].0 == k,
{
    let j = choose|j: int| 0 <= j < s.len() && s[j].0 == k;
    assert(t[j].0 == k);
}

/// An exact quotient multiplied back gives the dividend.
proof fn lemma_exact_div_mul(mag: int, n: int, qm: int)
    requires
        n >= 1,
        mag >= 0,
        mag % n == 0,
        qm == mag / n,
    ensures
        qm * n == mag,
{
    lemma_fundamental_div_mod(mag, n);
}

/// Exact division of a signed value agrees with exact division of its
/// magnitude, with the sign carried over.
proof fn lemma_abs_div(v: int, mag: int, n: int)
    requires
        n >= 1,
        mag == if v >= 0 { v } else { -v },
    ensures
        (v % n == 0) <==> (mag % n == 0),
        v >= 0 && mag % n == 0 ==> v / n == mag / n,
        v < 0 && mag % n == 0 ==> v / n == -(mag / n),
{
    if v >= 0 {
    } else {
        let q = mag / n;
        lemma_fundamental_div_mod(mag, n);
        if mag % n == 0 {
            assert(mag == n * q);
            assert(v == (-q) * n + 0) by (nonlinear_arith)
                requires
                    mag == n * q,
                    v == -mag,
            ;
            lemma_fundamental_div_mod_converse(v, n, -q, 0);
        }
        if v % n == 0 {
            let w = v / n;
            lemma_fundamental_div_mod(v, n);
            assert(v == n * w);
            assert(mag == (-w) * n + 0) by (nonlinear_arith)
                requires
                    v == n * w,
                    mag == -v,
            ;
            lemma_fundamental_div_mod_converse(mag, n, -w, 0);
        }
    }
}

/// A unit as exponents over base dimensions.
#[derive(Debug)]
pub struct Dimensionality {
    pub entries: Vec<(BaseUnit, i64)>,
}

impl View for Dimensionality {
    type V = Seq<(Seq<char>, int)>;

    open spec fn view(&self) -> Seq<(Seq<char>, int)> {
        entries_view(self.entries@)
    }
}

impl Clone for Dimensionality {
    fn clone(&self) -> (r: Self)
        ensures
            r@ == self@,
    {
        let mut entries: Vec<(BaseUnit, i64)> = Vec::new();
        let mut i: usize = 0;
        while i < self.entries.len()
            invariant
                i <= self.entries@.len(),
                entries@.len() == i,
                forall|j: int| 0 <= j < i ==> entries@[j].0@ == self.entries@[j].0@
                    && entries@[j].1 == self.entries@[j].1,
            decreases self.entries@.len() - i,
        {
            let e = &self.entries[i];
            entries.push((e.0.clone(), e.1));
            i += 1;
        }
        let r = Dimensionality { entries };
        proof {
            assert(r@ =~= self@);
        }
        r
    }
}

/// The exponent a map gives a name, with absent names read as zero.
pub open spec fn exp_or_zero(m: Map<Seq<char>, int>, k: Seq<char>) -> int {
    if m.contains_key(k) {
        m[k]
    } else {
        0
    }
}

/// The pointwise sum of two exponent maps, zero sums dropped.
pub open spec fn sum_map(m1: Map<Seq<char>, int>, m2: Map<Seq<char>, int>) -> Map<
    Seq<char>,
    int,
> {
    Map::new(
        |k: Seq<char>|
            (m1.contains_key(k) || m2.contains_key(k)) && exp_or_zero(m1, k) + exp_or_zero(m2, k)
                != 0,
        |k: Seq<char>| exp_or_zero(m1, k) + exp_or_zero(m2, k),
    )
}

/// Whether every pointwise exponent sum stays in `i64` range.
pub open spec fn sum_fits(m1: Map<Seq<char>, int>, m2: Map<Seq<char>, int>) -> bool {
    forall|k: Seq<char>|
        m1.contains_key(k) && m2.contains_key(k) ==> i64::MIN <= m1[k] + m2[k] <= i64::MAX
}

/// The pointwise negation of an exponent map.
pub open spec fn neg_map(m: Map<Seq<char>, int>) -> Map<Seq<char>, int> {
    Map::new(|k: Seq<char>| m.contains_key(k), |k: Seq<char>| -m[k])
}

/// Every exponent divided by `n`; defined when each is evenly divisible.
pub open spec fn div_map(m: Map<Seq<char>, int>, n: int) -> Map<Seq<char>, int> {
    Map::new(|k: Seq<char>| m.contains_key(k), |k: Seq<char>| m[k] / n)
}

impl Dimensionality {
    /// The exponent map this value denotes.
    pub open spec fn to_map(&self) -> Map<Seq<char>, int> {
        entries_map(self@)
    }

    /// The representation invariant: entries strictly sorted by name
    /// (hence no duplicate names), and no zero exponents.  Sorted
    /// storage makes the entry list a canonical form: two well-formed
    /// values with equal exponent maps are identical entry for entry.
    pub open spec fn wf(&self) -> bool {
        &&& entries_sorted(self@)
        &&& entries_unique(self@)
        &&& forall|i: int| 0 <= i < self@.len() ==> self@[i].1 != 0
    }

    /// The dimensionless unit: the empty exponent map.
    pub fn dimensionless() -> (r: Dimensionality)
        ensures
            r.wf(),
            r@.len() == 0,
            r.to_map() == Map::<Seq<char>, int>::empty(),
    {
        let r = Dimensionality { entries: Vec::new() };
        proof {
            assert(r@ =~= Seq::<(Seq<char>, int)>::empty());
        }
        r
    }

    /// The unit of a single base dimension, exponent one.
    pub fn base_unit(base: BaseUnit) -> (r: Dimensionality)
        ensures
            r.wf(),
            r@ =~= seq![(base@, 1int)],
            r.to_map() == Map::<Seq<char>, int>::empty().insert(base@, 1),
    {
        Self::new_dim(base, 1)
    }

    /// The unit of a single base dimension with the given exponent.
    pub fn new_dim(base: BaseUnit, pow: i64) -> (r: Dimensionality)
        requires
            pow != 0,
        ensures
            r.wf(),
            r@ =~= seq![(base@, pow as int)],
            r.to_map() == Map::<Seq<char>, int>::empty().insert(base@, pow as int),
    {
        let ghost b = base@;
        let mut entries: Vec<(BaseUnit, i64)> = Vec::new();
        entries.push((base, pow));
        let r = Dimensionality { entries };
        proof {
            assert(r@ =~= seq![(b, pow as int)]);
            assert(r@.drop_last() =~= Seq::<(Seq<char>, int)>::empty());
            assert(entries_map(Seq::<(Seq<char>, int)>::empty()) =~= Map::<Seq<char>, int>::empty());
            assert(r.to_map() =~= Map::<Seq<char>, int>::empty().insert(b, pow as int));
        }
        r
    }

    /// The first entry for `name`, read through the map model.
    pub fn find_exp(&self, name: &str) -> (r: Option<i64>)
        requires
            self.wf(),
        ensures
            match r {
                Some(v) => self.to_map().contains_pair(name@, v as int),
                None => !self.to_map().contains_key(name@),
            },
    {
        let mut i: usize = 0;
        while i < self.entries.len()
            invariant
                self.wf(),
                i <= self@.len(),
                forall|j: int| 0 <= j < i ==> self@[j].0 != name@,
            decreases self@.len() - i,
        {
            if str_eq(self.entries[i].0.id.as_str(), name) {
                proof {
                    lemma_entries_map_contains(self@, i as int);
                }
                return Some(self.entries[i].1);
            }
            i += 1;
        }
        proof {
            lemma_entries_map_dom(self@, name@);
        }
        None
    }

    /// Whether every listed entry of `self` is in the map of `other`.
    fn contained_in(&self, other: &Dimensionality) -> (r: bool)
        requires
            self.wf(),
            other.wf(),
        ensures
            r == forall|i: int|
                0 <= i < self@.len() ==> other.to_map().contains_pair(self@[i].0, self@[i].1),
    {
        let mut i: usize = 0;
        while i < self.entries.len()
            invariant
                self.wf(),
                other.wf(),
                i <= self@.len(),
                forall|j: int|
                    0 <= j < i ==> other.to_map().contains_pair(self@[j].0, self@[j].1),
            decreases self@.len() - i,
        {
            let ok = match other.find_exp(self.entries[i].0.id.as_str()) {
                Some(v) => v == self.entries[i].1,
                None => false,
            };
            if !ok {
                proof {
                    assert(!other.to_map().contains_pair(self@[i as int].0, self@[i as int].1));
                }
                return false;
            }
            i += 1;
        }
        true
    }

    /// Map equality of two units.
    pub fn dim_eq(&self, other: &Dimensionality) -> (r: bool)
        requires
            self.wf(),
            other.wf(),
        ensures
            r == (self.to_map() == other.to_map()),
    {
        let fwd = self.contained_in(other);
        let bwd = other.contained_in(self);
        proof {
            if fwd && bwd {
                assert_maps_equal!(self.to_map(), other.to_map(), k => {
                    lemma_entries_map_dom(self@, k);
                    lemma_entries_map_dom(other@, k);
                    if self.to_map().contains_key(k) {
                        let i = choose|i: int| 0 <= i < self@.len() && self@[i].0 == k;
                        lemma_entries_map_contains(self@, i);
                        assert(other.to_map().contains_pair(self@[i].0, self@[i].1));
                    }
                    if other.to_map().contains_key(k) {
                        let i = choose|i: int| 0 <= i < other@.len() && other@[i].0 == k;
                        lemma_entries_map_contains(other@, i);
                        assert(self.to_map().contains_pair(other@[i].0, other@[i].1));
                    }
                });
            } else if !fwd {
                let i = choose|i: int|
                    0 <= i < self@.len() && !other.to_map().contains_pair(self@[i].0, self@[i].1);
                lemma_entries_map_contains(self@, i);
            } else {
                let i = choose|i: int|
                    0 <= i < other@.len() && !self.to_map().contains_pair(other@[i].0, other@[i].1);
                lemma_entries_map_contains(other@, i);
            }
        }
        fwd && bwd
    }

    /// Unit multiplication: pointwise exponent addition, zero sums
    /// dropped; `None` when a sum leaves `i64` range.  The two sorted
    /// entry lists are merged, so the result is again in canonical form.
    pub fn checked_mul(&self, other: &Dimensionality) -> (r: Option<Dimensionality>)
        requires
            self.wf(),
            other.wf(),
        ensures
            match r {
                Some(d) => {
                    &&& sum_fits(self.to_map(), other.to_map())
                    &&& d.wf()
                    &&& d.to_map() == sum_map(self.to_map(), other.to_map())
                },
                None => !sum_fits(self.to_map(), other.to_map()),
            },
    {
        let ghost ma = self.to_map();
        let ghost mb = other.to_map();
        let la = self.entries.len();
        let lb = other.entries.len();
        let mut out: Vec<(BaseUnit, i64)> = Vec::new();
        let mut i: usize = 0;
        let mut j: usize = 0;
        while i < la || j < lb
            invariant
                self.wf(),
                other.wf(),
                ma == self.to_map(),
                mb == other.to_map(),
                la == self@.len(),
                lb == other@.len(),
                i <= la,
                j <= lb,
                entries_sorted(entries_view(out@)),
                forall|l: int| #![trigger entries_view(out@)[l]]
                    0 <= l < entries_view(out@).len() ==> {
                        let k = entries_view(out@)[l].0;
                        &&& ma.contains_key(k) || mb.contains_key(k)
                        &&& entries_view(out@)[l].1 == exp_or_zero(ma, k) + exp_or_zero(mb, k)
                        &&& entries_view(out@)[l].1 != 0
                    },
                forall|l: int, x: int|
                    0 <= l < entries_view(out@).len() && i <= x < la ==> lex_lt(
                        entries_view(out@)[l].0,
                        self@[x].0,
                    ),
                forall|l: int, y: int|
                    0 <= l < entries_view(out@).len() && j <= y < lb ==> lex_lt(
                        entries_view(out@)[l].0,
                        other@[y].0,
                    ),
                forall|x: int, y: int|
                    0 <= x < i && j <= y < lb ==> lex_lt(self@[x].0, other@[y].0),
                forall|y: int, x: int|
                    0 <= y < j && i <= x < la ==> lex_lt(other@[y].0, self@[x].0),
                forall|x: int| #![trigger self@[x]]
                    0 <= x < i ==> {
                        let k = self@[x].0;
                        exp_or_zero(ma, k) + exp_or_zero(mb, k) != 0 ==> exists|l: int|
                            0 <= l < entries_view(out@).len() && entries_view(out@)[l].0 == k
                    },
                forall|y: int| #![trigger other@[y]]
                    0 <= y < j ==> {
                        let k = other@[y].0;
                        exp_or_zero(ma, k) + exp_or_zero(mb, k) != 0 ==> exists|l: int|
                            0 <= l < entries_view(out@).len() && entries_view(out@)[l].0 == k
                    },
                forall|x: int| #![trigger self@[x]]
                    0 <= x < i ==> {
                        let k = self@[x].0;
                        mb.contains_key(k) ==> i64::MIN <= ma[k] + mb[k] <= i64::MAX
                    },
            decreases (la - i) + (lb - j),
        {
            let take_a = i < la && (j >= lb || str_lt(
                self.entries[i].0.id.as_str(),
                other.entries[j].0.id.as_str(),
            ));
            let take_b = !take_a && j < lb && (i >= la || str_lt(
                other.entries[j].0.id.as_str(),
                self.entries[i].0.id.as_str(),
            ));
            if take_a {
                let e = &self.entries[i];
                let ghost k = e.0@;
                proof {
                    lemma_entries_map_contains(self@, i as int);
                    if mb.contains_key(k) {
                        lemma_entries_map_dom(other@, k);
                        let y = choose|y: int| 0 <= y < lb && other@[y].0 == k;
                        if y > j {
                            lemma_lex_trans(k, other@[j as int].0, other@[y].0);
                        }
                        lemma_lex_irrefl(k);
                        assert(false);
                    }
                }
                let ghost prev = out@;
                out.push((e.0.clone(), e.1));
                proof {
                    let sv = entries_view(prev);
                    let tv = entries_view(out@);
                    assert(tv =~= sv.push((k, e.1 as int)));
                    assert forall|y: int| j <= y < lb implies lex_lt(k, other@[y].0) by {
                        if y > j {
                            lemma_lex_trans(k, other@[j as int].0, other@[y].0);
                        }
                    }
                    assert forall|x: int| #![trigger self@[x]]
                        0 <= x < i + 1 implies ({
                        let kx = self@[x].0;
                        exp_or_zero(ma, kx) + exp_or_zero(mb, kx) != 0 ==> exists|l: int|
                            0 <= l < tv.len() && tv[l].0 == kx
                    }) by {
                        let kx = self@[x].0;
                        if x == i as int {
                            assert(tv[sv.len() as int].0 == k);
                        } else if exp_or_zero(ma, kx) + exp_or_zero(mb, kx) != 0 {
                            lemma_push_keeps_keys(sv, tv, kx);
                        }
                    }
                    assert forall|y: int| #![trigger other@[y]]
                        0 <= y < j implies ({
                        let ky = other@[y].0;
                        exp_or_zero(ma, ky) + exp_or_zero(mb, ky) != 0 ==> exists|l: int|
                            0 <= l < tv.len() && tv[l].0 == ky
                    }) by {
                        let ky = other@[y].0;
                        if exp_or_zero(ma, ky) + exp_or_zero(mb, ky) != 0 {
                            lemma_push_keeps_keys(sv, tv, ky);
                        }
                    }
                }
                i += 1;
            } else if take_b {
                let e = &other.entries[j];
                let ghost k = e.0@;
                proof {
                    lemma_entries_map_contains(other@, j as int);
                    if ma.contains_key(k) {
                        lemma_entries_map_dom(self@, k);
                        let x = choose|x: int| 0 <= x < la && self@[x].0 == k;
                        if x > i {
                            lemma_lex_trans(k, self@[i as int].0, self@[x].0);
                        }
                        lemma_lex_irrefl(k);
                        assert(false);
                    }
                }
                let ghost prev = out@;
                out.push((e.0.clone(), e.1));
                proof {
                    let sv = entries_view(prev);
                    let tv = entries_view(out@);
                    assert(tv =~= sv.push((k, e.1 as int)));
                    assert forall|x: int| i <= x < la implies lex_lt(k, self@[x].0) by {
                        if x > i {
                            lemma_lex_trans(k, self@[i as int].0, self@[x].0);
                        }
                    }
                    assert forall|x: int| #![trigger self@[x]]
                        0 <= x < i implies ({
                        let kx = self@[x].0;
                        exp_or_zero(ma, kx) + exp_or_zero(mb, kx) != 0 ==> exists|l: int|
                            0 <= l < tv.len() && tv[l].0 == kx
                    }) by {
                        let kx = self@[x].0;
                        if exp_or_zero(ma, kx) + exp_or_zero(mb, kx) != 0 {
                            lemma_push_keeps_keys(sv, tv, kx);
                        }
                    }
                    assert forall|y: int| #![trigger other@[y]]
                        0 <= y < j + 1 implies ({
                        let ky = other@[y].0;
                        exp_or_zero(ma, ky) + exp_or_zero(mb, ky) != 0 ==> exists|l: int|
                            0 <= l < tv.len() && tv[l].0 == ky
                    }) by {
                        let ky = other@[y].0;
                        if y == j as int {
                            assert(tv[sv.len() as int].0 == k);
                        } else if exp_or_zero(ma, ky) + exp_or_zero(mb, ky) != 0 {
                            lemma_push_keeps_keys(sv, tv, ky);
                        }
                    }
                }
                j += 1;
            } else {
                proof {
                    assert(i < la && j < lb);
                    if self@[i as int].0 != other@[j as int].0 {
                        lemma_lex_total(self@[i as int].0, other@[j as int].0);
                        assert(false);
                    }
                    lemma_entries_map_contains(self@, i as int);
                    lemma_entries_map_contains(other@, j as int);
                }
                let ea = &self.entries[i];
                let eb = &other.entries[j];
                let ghost k = ea.0@;
                let s: i64 = match ea.1.checked_add(eb.1) {
                    Some(s) => s,
                    None => {
                        proof {
                            assert(ma.contains_key(k) && mb.contains_key(k));
                            assert(!(i64::MIN <= ma[k] + mb[k] <= i64::MAX));
                        }
                        return None;
                    },
                };
                let ghost prev = out@;
                if s != 0 {
                    out.push((ea.0.clone(), s));
                    proof {
                        let sv = entries_view(prev);
                        let tv = entries_view(out@);
                        assert(tv =~= sv.push((k, s as int)));
                        assert forall|y: int| j + 1 <= y < lb implies lex_lt(k, other@[y].0) by {
                            assert(lex_lt(other@[j as int].0, other@[y].0));
                        }
                    }
                }
                proof {
                    let sv = entries_view(prev);
                    let tv = entries_view(out@);
                    assert(exp_or_zero(ma, k) + exp_or_zero(mb, k) == s as int);
                    assert forall|x: int| #![trigger self@[x]]
                        0 <= x < i + 1 implies ({
                        let kx = self@[x].0;
                        exp_or_zero(ma, kx) + exp_or_zero(mb, kx) != 0 ==> exists|l: int|
                            0 <= l < tv.len() && tv[l].0 == kx
                    }) by {
                        let kx = self@[x].0;
                        if x == i as int {
                            if s != 0 {
                                assert(tv[tv.len() - 1].0 == k);
                            }
                        } else if exp_or_zero(ma, kx) + exp_or_zero(mb, kx) != 0 {
                            if s != 0 {
                                lemma_push_keeps_keys(sv, tv, kx);
                            }
                        }
                    }
                    assert forall|y: int| #![trigger other@[y]]
                        0 <= y < j + 1 implies ({
                        let ky = other@[y].0;
                        exp_or_zero(ma, ky) + exp_or_zero(mb, ky) != 0 ==> exists|l: int|
                            0 <= l < tv.len() && tv[l].0 == ky
                    }) by {
                        let ky = other@[y].0;
                        if y == j as int {
                            if s != 0 {
                                assert(tv[tv.len() - 1].0 == k);
                            }
                        } else if exp_or_zero(ma, ky) + exp_or_zero(mb, ky) != 0 {
                            if s != 0 {
                                lemma_push_keeps_keys(sv, tv, ky);
                            }
                        }
                    }
                }
                i += 1;
                j += 1;
            }
        }
        proof {
            assert forall|k: Seq<char>|
                ma.contains_key(k) && mb.contains_key(k) implies i64::MIN <= ma[k] + mb[k]
                <= i64::MAX by {
                lemma_entries_map_dom(self@, k);
                let x = choose|x: int| 0 <= x < self@.len() && self@[x].0 == k;
                assert(mb.contains_key(self@[x].0));
            }
        }
        let r = Dimensionality { entries: out };
        proof {
            lemma_sorted_unique(r@);
            assert_maps_equal!(r.to_map(), sum_map(ma, mb), k => {
                lemma_entries_map_dom(r@, k);
                if r.to_map().contains_key(k) {
                    let x = choose|x: int| 0 <= x < r@.len() && r@[x].0 == k;
                    lemma_entries_map_contains(r@, x);
                }
                if ma.contains_key(k) {
                    lemma_entries_map_dom(self@, k);
                    let l = choose|l: int| 0 <= l < self@.len() && self@[l].0 == k;
                    assert(self@[l].0 == k);
                } else if mb.contains_key(k) {
                    lemma_entries_map_dom(other@, k);
                    let l = choose|l: int| 0 <= l < other@.len() && other@[l].0 == k;
                    assert(other@[l].0 == k);
                }
            });
        }
        Some(r)
    }

    /// Unit inversion: every exponent negated; `None` only for the
    /// unrepresentable minimum exponent.
    pub fn checked_inverse(&self) -> (r: Option<Dimensionality>)
        requires
            self.wf(),
        ensures
            match r {
                Some(d) => {
                    &&& d.wf()
                    &&& d.to_map() == neg_map(self.to_map())
                    &&& forall|i: int| 0 <= i < self@.len() ==> self@[i].1 != i64::MIN
                },
                None => exists|i: int| 0 <= i < self@.len() && self@[i].1 == i64::MIN,
            },
    {
        let mut out: Vec<(BaseUnit, i64)> = Vec::new();
        let mut i: usize = 0;
        while i < self.entries.len()
            invariant
                self.wf(),
                i <= self@.len(),
                entries_view(out@).len() == i,
                forall|j: int| 0 <= j < i ==> entries_view(out@)[j].0 == self@[j].0
                    && entries_view(out@)[j].1 == -self@[j].1,
                forall|j: int| 0 <= j < i ==> self@[j].1 != i64::MIN,
            decreases self@.len() - i,
        {
            let e = &self.entries[i];
            if e.1 == i64::MIN {
                proof {
                    assert(self@[i as int].1 == i64::MIN);
                }
                return None;
            }
            let ghost prev = out@;
            out.push((e.0.clone(), -e.1));
            proof {
                assert(entries_view(out@) =~= entries_view(prev).push((self@[i as int].0, -self@[i as int].1)));
            }
            i += 1;
        }
        let r = Dimensionality { entries: out };
        proof {
            assert(r@ =~= entries_view(r.entries@));
            assert forall|a: int, b: int| 0 <= a < b < r@.len() implies lex_lt(r@[a].0, r@[b].0) by {
                assert(r@[a].0 == self@[a].0 && r@[b].0 == self@[b].0);
            }
            assert(entries_sorted(r@));
            lemma_sorted_unique(r@);
            assert forall|x: int| 0 <= x < r@.len() implies r@[x].1 != 0 by {
                assert(r@[x].1 == -self@[x].1);
                assert(self@[x].1 != 0);
            }
            assert_maps_equal!(r.to_map(), neg_map(self.to_map()), k => {
                lemma_entries_map_dom(r@, k);
                lemma_entries_map_dom(self@, k);
                if r.to_map().contains_key(k) {
                    let x = choose|x: int| 0 <= x < r@.len() && r@[x].0 == k;
                    lemma_entries_map_contains(r@, x);
                    lemma_entries_map_contains(self@, x);
                }
                if self.to_map().contains_key(k) {
                    let x = choose|x: int| 0 <= x < self@.len() && self@[x].0 == k;
                    assert(r@[x].0 == k);
                }
            });
        }
        Some(r)
    }

    /// Integer root: every exponent divided by `n`; `None` when some
    /// exponent is not evenly divisible.
    pub fn root(&self, n: i64) -> (r: Option<Dimensionality>)
        requires
            self.wf(),
            n >= 1,
        ensures
            match r {
                Some(d) => {
                    &&& d.wf()
                    &&& d.to_map() == div_map(self.to_map(), n as int)
                    &&& forall|i: int| 0 <= i < self@.len() ==> self@[i].1 % (n as int) == 0
                },
                None => exists|i: int| 0 <= i < self@.len() && self@[i].1 % (n as int) != 0,
            },
    {
        let mut out: Vec<(BaseUnit, i64)> = Vec::new();
        let mut i: usize = 0;
        while i < self.entries.len()
            invariant
                self.wf(),
                n >= 1,
                i <= self@.len(),
                entries_view(out@).len() == i,
                forall|j: int| 0 <= j < i ==> entries_view(out@)[j].0 == self@[j].0
                    && entries_view(out@)[j].1 == self@[j].1 / (n as int),
                forall|j: int| 0 <= j < i ==> self@[j].1 % (n as int) == 0,
                forall|j: int| 0 <= j < i ==> self@[j].1 / (n as int) != 0,
            decreases self@.len() - i,
        {
            let e = &self.entries[i];
            let v = e.1;
            let mag: u64 = if v >= 0 {
                v as u64
            } else if v == i64::MIN {
                9223372036854775808u64
            } else {
                (-v) as u64
            };
            proof {
                lemma_abs_div(v as int, mag as int, n as int);
            }
            if mag % (n as u64) != 0 {
                proof {
                    assert(self@[i as int].1 % (n as int) != 0);
                }
                return None;
            }
            let qm: u64 = mag / (n as u64);
            proof {
                assert(n as u64 as int == n as int);
                assert((mag as int) % (n as int) == 0);
                assert(qm as int == (mag as int) / (n as int));
                lemma_exact_div_mul(mag as int, n as int, qm as int);
                assert(qm as int * (n as int) == mag as int);
                assert(qm <= 0x8000000000000000) by (nonlinear_arith)
                    requires
                        qm as int * (n as int) == mag as int,
                        n >= 1,
                        qm >= 0,
                        mag <= 0x8000000000000000,
                ;
                assert(v >= 0 ==> qm <= 0x7fffffffffffffff) by (nonlinear_arith)
                    requires
                        qm as int * (n as int) == mag as int,
                        n >= 1,
                        qm >= 0,
                        v >= 0 ==> mag <= 0x7fffffffffffffff,
                ;
                assert(qm >= 1) by (nonlinear_arith)
                    requires
                        qm as int * (n as int) == mag as int,
                        mag >= 1,
                ;
            }
            let q: i64 = if v >= 0 {
                qm as i64
            } else if qm == 9223372036854775808u64 {
                i64::MIN
            } else {
                -(qm as i64)
            };
            let ghost prev = out@;
            out.push((e.0.clone(), q));
            proof {
                assert(entries_view(out@) =~= entries_view(prev).push((self@[i as int].0, q as int)));
                assert(q as int == self@[i as int].1 / (n as int));
            }
            i += 1;
        }
        let r = Dimensionality { entries: out };
        proof {
            assert(r@ =~= entries_view(r.entries@));
            assert forall|a: int, b: int| 0 <= a < b < r@.len() implies lex_lt(r@[a].0, r@[b].0) by {
                assert(r@[a].0 == self@[a].0 && r@[b].0 == self@[b].0);
            }
            assert(entries_sorted(r@));
            lemma_sorted_unique(r@);
            assert forall|x: int| 0 <= x < r@.len() implies r@[x].1 != 0 by {
                assert(r@[x].1 == self@[x].1 / (n as int));
                assert(self@[x].1 / (n as int) != 0);
            }
            assert_maps_equal!(r.to_map(), div_map(self.to_map(), n as int), k => {
                lemma_entries_map_dom(r@, k);
                lemma_entries_map_dom(self@, k);
                if r.to_map().contains_key(k) {
                    let x = choose|x: int| 0 <= x < r@.len() && r@[x].0 == k;
                    lemma_entries_map_contains(r@, x);
                    lemma_entries_map_contains(self@, x);
                }
                if self.to_map().contains_key(k) {
                    let x = choose|x: int| 0 <= x < self@.len() && self@[x].0 == k;
                    assert(r@[x].0 == k);
                }
            });
        }
        Some(r)
    }
}

} // verus!
