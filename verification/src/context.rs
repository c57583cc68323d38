//! The unit registry: all named dimensions, units, prefixes, aliases,
//! derived-quantity names and raw definitions, together with the two
//! narrow mutable slots the evaluator owns (`temporaries` and
//! `previous_result`).  Built once by `load`, then queried read-only.

use vstd::prelude::*;
use crate::ast::{DatePattern, Def, Defs, Expr, Substance, Timestamp};
use crate::dimension::{BaseUnit, Dimensionality};
use crate::number::Number;
use crate::text::str_eq;

verus! {

/// The evaluation context that contains unit definitions.
#[derive(Debug)]
pub struct Context {
    pub dimensions: Vec<BaseUnit>,
    pub canonicalizations: Vec<(String, String)>,
    pub units: Vec<(String, Number)>,
    pub quantities: Vec<(Dimensionality, String)>,
    pub reverse: Vec<(Dimensionality, String)>,
    pub prefixes: Vec<(String, Number)>,
    pub definitions: Vec<(String, Expr)>,
    pub docs: Vec<(String, String)>,
    pub categories: Vec<(String, String)>,
    pub category_names: Vec<(String, String)>,
    pub datepatterns: Vec<Vec<DatePattern>>,
    pub substances: Vec<(String, Substance)>,
    pub substance_symbols: Vec<(String, String)>,
    pub temporaries: Vec<(String, Number)>,
    pub now: Timestamp,
    pub short_output: bool,
    pub use_humanize: bool,
    pub save_previous_result: bool,
    pub previous_result: Option<Number>,
}

/// Whether a definition's payload satisfies the value invariants.
pub open spec fn def_wf(d: Def) -> bool {
    match d {
        Def::Unit { name, value } => value.wf(),
        Def::Prefix { name, value } => value.wf(),
        Def::Quantity { name, unit } => unit.wf(),
        _ => true,
    }
}

/// Left fold of a step function over a definition list.
pub open spec fn fold_steps<T>(cur: Seq<T>, defs: Seq<Def>, step: spec_fn(Seq<T>, Def) -> Seq<T>) -> Seq<T>
    decreases defs.len(),
{
    if defs.len() == 0 {
        cur
    } else {
        fold_steps(step(cur, defs.first()), defs.drop_first(), step)
    }
}

/// Folding one more definition applies the step to the fold so far.
pub proof fn lemma_fold_snoc<T>(cur: Seq<T>, defs: Seq<Def>, d: Def, step: spec_fn(Seq<T>, Def) -> Seq<T>)
    ensures
        fold_steps(cur, defs.push(d), step) == step(fold_steps(cur, defs, step), d),
    decreases defs.len(),
{
    if defs.len() == 0 {
        assert(defs.push(d).drop_first() =~= Seq::<Def>::empty());
        assert(defs.push(d).first() == d);
        assert(fold_steps(cur, defs.push(d), step) == fold_steps(step(cur, d), Seq::<Def>::empty(), step));
        assert(fold_steps(step(cur, d), Seq::<Def>::empty(), step) == step(cur, d));
        assert(fold_steps(cur, defs, step) == cur);
    } else {
        assert(defs.push(d).first() == defs.first());
        assert(defs.push(d).drop_first() =~= defs.drop_first().push(d));
        lemma_fold_snoc(step(cur, defs.first()), defs.drop_first(), d, step);
    }
}

/// `i` is the first entry of `s` whose key reads as `k`.
pub open spec fn is_first_str_key<V>(s: Seq<(String, V)>, k: Seq<char>, i: int) -> bool {
    &&& 0 <= i < s.len()
    &&& s[i].0@ == k
    &&& forall|j: int| 0 <= j < i ==> s[j].0@ != k
}

/// Two first entries for one key are the same entry.
pub proof fn lemma_first_str_key_unique<V>(s: Seq<(String, V)>, k: Seq<char>, i: int, j: int)
    requires
        is_first_str_key(s, k, i),
        is_first_str_key(s, k, j),
    ensures
        i == j,
{
    if i < j {
        assert(s[i].0@ != k);
    } else if j < i {
        assert(s[j].0@ != k);
    }
}

/// Replace the first entry for the key of `e`, or append `e`.
pub open spec fn assoc_set<V>(s: Seq<(String, V)>, e: (String, V)) -> Seq<(String, V)> {
    if exists|i: int| is_first_str_key(s, e.0@, i) {
        s.update(choose|i: int| is_first_str_key(s, e.0@, i), e)
    } else {
        s.push(e)
    }
}

/// `i` is the first entry of `s` whose dimensionality denotes `m`.
pub open spec fn is_first_dim_key(s: Seq<(Dimensionality, String)>, m: Map<Seq<char>, int>, i: int) -> bool {
    &&& 0 <= i < s.len()
    &&& s[i].0.to_map() == m
    &&& forall|j: int| 0 <= j < i ==> s[j].0.to_map() != m
}

/// Two first entries for one dimensionality are the same entry.
pub proof fn lemma_first_dim_key_unique(s: Seq<(Dimensionality, String)>, m: Map<Seq<char>, int>, i: int, j: int)
    requires
        is_first_dim_key(s, m, i),
        is_first_dim_key(s, m, j),
    ensures
        i == j,
{
    if i < j {
        assert(s[i].0.to_map() != m);
    } else if j < i {
        assert(s[j].0.to_map() != m);
    }
}

/// Replace the first entry for the dimensionality of `e`, or append `e`.
pub open spec fn dim_assoc_set(s: Seq<(Dimensionality, String)>, e: (Dimensionality, String)) -> Seq<(Dimensionality, String)> {
    if exists|i: int| is_first_dim_key(s, e.0.to_map(), i) {
        s.update(choose|i: int| is_first_dim_key(s, e.0.to_map(), i), e)
    } else {
        s.push(e)
    }
}

/// What one definition does to the declared dimensions.
pub open spec fn dims_step(cur: Seq<BaseUnit>, d: Def) -> Seq<BaseUnit> {
    match d {
        Def::Dimension { name } => {
            if exists|i: int| 0 <= i < cur.len() && cur[i]@ == name@ {
                cur
            } else {
                cur.push(BaseUnit { id: name })
            }
        },
        _ => cur,
    }
}

/// What one definition does to the unit table.
pub open spec fn units_step(cur: Seq<(String, Number)>, d: Def) -> Seq<(String, Number)> {
    match d {
        Def::Unit { name, value } => assoc_set(cur, (name, value)),
        _ => cur,
    }
}

/// What one definition does to the prefix list: appends, keeping
/// registration order.
pub open spec fn prefixes_step(cur: Seq<(String, Number)>, d: Def) -> Seq<(String, Number)> {
    match d {
        Def::Prefix { name, value } => cur.push((name, value)),
        _ => cur,
    }
}

/// What one definition does to the quantity table.
pub open spec fn quantities_step(cur: Seq<(Dimensionality, String)>, d: Def) -> Seq<(Dimensionality, String)> {
    match d {
        Def::Quantity { name, unit } => dim_assoc_set(cur, (unit, name)),
        _ => cur,
    }
}

/// What one definition does to the alias table.
pub open spec fn canonicalizations_step(cur: Seq<(String, String)>, d: Def) -> Seq<(String, String)> {
    match d {
        Def::Canonicalization { name, canonical } => assoc_set(cur, (name, canonical)),
        _ => cur,
    }
}

/// What one definition does to the raw-definition table.
pub open spec fn definitions_step(cur: Seq<(String, Expr)>, d: Def) -> Seq<(String, Expr)> {
    match d {
        Def::Definition { name, expr } => assoc_set(cur, (name, expr)),
        _ => cur,
    }
}

/// Replaces the first entry with the given key, or appends one.
fn set_assoc<V>(v: &mut Vec<(String, V)>, name: String, value: V)
    ensures
        final(v)@ == assoc_set(old(v)@, (name, value)),
{
    let ghost e = (name, value);
    let ghost s = v@;
    let mut i: usize = 0;
    while i < v.len()
        invariant
            e == (name, value),
            s == v@,
            s == old(v)@,
            i <= s.len(),
            forall|j: int| 0 <= j < i ==> s[j].0@ != name@,
        decreases s.len() - i,
    {
        if str_eq(v[i].0.as_str(), name.as_str()) {
            proof {
                assert(e.0@ == name@);
                assert(is_first_str_key(s, e.0@, i as int));
                assert(exists|w: int| is_first_str_key(s, e.0@, w));
                let w = choose|w: int| is_first_str_key(s, e.0@, w);
                lemma_first_str_key_unique(s, e.0@, i as int, w);
                assert(assoc_set(s, e) == s.update(w, e));
            }
            v.remove(i);
            v.insert(i, (name, value));
            proof {
                assert(v@ =~= s.update(i as int, e));
                assert(v@ == assoc_set(s, e));
            }
            return;
        }
        i += 1;
    }
    proof {
        assert(!exists|w: int| is_first_str_key(s, e.0@, w));
        assert(assoc_set(s, e) == s.push(e));
    }
    v.push((name, value));
}

/// Replaces the first entry denoting the same dimensionality, or
/// appends one.
fn set_dim_assoc(v: &mut Vec<(Dimensionality, String)>, unit: Dimensionality, name: String)
    requires
        unit.wf(),
        forall|j: int| 0 <= j < old(v)@.len() ==> old(v)@[j].0.wf(),
    ensures
        final(v)@ == dim_assoc_set(old(v)@, (unit, name)),
        forall|j: int| 0 <= j < final(v)@.len() ==> final(v)@[j].0.wf(),
{
    let ghost e = (unit, name);
    let ghost s = v@;
    let ghost m = unit.to_map();
    let mut i: usize = 0;
    while i < v.len()
        invariant
            e == (unit, name),
            s == v@,
            s == old(v)@,
            unit.wf(),
            m == unit.to_map(),
            forall|j: int| 0 <= j < s.len() ==> s[j].0.wf(),
            i <= s.len(),
            forall|j: int| 0 <= j < i ==> s[j].0.to_map() != m,
        decreases s.len() - i,
    {
        if v[i].0.dim_eq(&unit) {
            proof {
                assert(e.0.to_map() == m);
                assert(is_first_dim_key(s, e.0.to_map(), i as int));
                assert(exists|w: int| is_first_dim_key(s, e.0.to_map(), w));
                let w = choose|w: int| is_first_dim_key(s, e.0.to_map(), w);
                lemma_first_dim_key_unique(s, e.0.to_map(), i as int, w);
                assert(dim_assoc_set(s, e) == s.update(w, e));
            }
            v.remove(i);
            v.insert(i, (unit, name));
            proof {
                assert(v@ =~= s.update(i as int, e));
            }
            return;
        }
        i += 1;
    }
    proof {
        assert(!exists|w: int| is_first_dim_key(s, e.0.to_map(), w));
    }
    v.push((unit, name));
}

/// Relies on chrono::Local::now for the current local time, converted
/// to a Unix timestamp; the subsecond part stays below two seconds in
/// nanoseconds (a leap second can push it past one).
#[verifier::external_body]
fn now_local() -> (r: Timestamp)
    ensures
        r.nanos < 2_000_000_000,
{
    let now = chrono::Local::now();
    Timestamp { secs: now.timestamp(), nanos: now.timestamp_subsec_nanos() }
}

/// Relies on chrono's Local.timestamp_opt to turn the timestamp back
/// into a local date, and on chrono_humanize::HumanTime for a relative
/// phrasing of it.  Whether a text comes back depends on the arguments
/// alone: timestamp_opt returns a date exactly for in-range seconds and
/// a valid nanosecond part, and any timestamp between the years 1 and
/// 9999 with nanoseconds below one second is in range.  The wording
/// depends on the machine clock, so nothing is stated about it.
#[verifier::external_body]
fn human_time(secs: i64, nanos: u32) -> (r: Option<String>)
    ensures
        -62135596800 <= secs && secs <= 253402300799 && nanos < 1_000_000_000 ==> r is Some,
{
    match chrono::TimeZone::timestamp_opt(&chrono::Local, secs, nanos) {
        chrono::LocalResult::Single(dt) => {
            Some(chrono_humanize::HumanTime::from(dt).to_string())
        },
        chrono::LocalResult::Ambiguous(dt, _) => {
            Some(chrono_humanize::HumanTime::from(dt).to_string())
        },
        chrono::LocalResult::None => None,
    }
}

impl Default for Context {
    /// Equivalent to `Context::new`.
    fn default() -> (r: Self)
        ensures
            r.wf(),
            r.dimensions@.len() == 0,
            r.canonicalizations@.len() == 0,
            r.units@.len() == 0,
            r.quantities@.len() == 0,
            r.reverse@.len() == 0,
            r.prefixes@.len() == 0,
            r.definitions@.len() == 0,
            r.docs@.len() == 0,
            r.categories@.len() == 0,
            r.category_names@.len() == 0,
            r.datepatterns@.len() == 0,
            r.substances@.len() == 0,
            r.substance_symbols@.len() == 0,
            r.temporaries@.len() == 0,
            r.now == (Timestamp { secs: 0, nanos: 0 }),
            r.short_output == false,
            r.use_humanize == true,
            r.save_previous_result == false,
            r.previous_result is None,
    {
        Context::new()
    }
}

impl Context {
    /// A relative, human-readable phrasing of a date, when the registry
    /// is configured to produce one; a text is owed whenever the flag is
    /// set and the timestamp lies between the years 1 and 9999 with a
    /// nanosecond part below one second.
    pub fn humanize(&self, date: Timestamp) -> (r: Option<String>)
        ensures
            !self.use_humanize ==> r is None,
            self.use_humanize && -62135596800 <= date.secs && date.secs <= 253402300799
                && date.nanos < 1_000_000_000 ==> r is Some,
    {
        if self.use_humanize {
            human_time(date.secs, date.nanos)
        } else {
            None
        }
    }

    /// The registry's value invariants: every stored magnitude has a
    /// positive denominator and every stored dimensionality is in
    /// canonical form.
    pub open spec fn wf(&self) -> bool {
        &&& forall|i: int| 0 <= i < self.units@.len() ==> (#[trigger] self.units@[i]).1.wf()
        &&& forall|i: int| 0 <= i < self.quantities@.len() ==> (#[trigger] self.quantities@[i]).0.wf()
        &&& forall|i: int| 0 <= i < self.prefixes@.len() ==> (#[trigger] self.prefixes@[i]).1.wf()
        &&& forall|i: int| 0 <= i < self.temporaries@.len() ==> (#[trigger] self.temporaries@[i]).1.wf()
        &&& match self.previous_result {
            Some(n) => n.wf(),
            None => true,
        }
    }

    /// Creates a new, empty context.
    pub fn new() -> (r: Context)
        ensures
            r.wf(),
            r.dimensions@.len() == 0,
            r.canonicalizations@.len() == 0,
            r.units@.len() == 0,
            r.quantities@.len() == 0,
            r.reverse@.len() == 0,
            r.prefixes@.len() == 0,
            r.definitions@.len() == 0,
            r.docs@.len() == 0,
            r.categories@.len() == 0,
            r.category_names@.len() == 0,
            r.datepatterns@.len() == 0,
            r.substances@.len() == 0,
            r.substance_symbols@.len() == 0,
            r.temporaries@.len() == 0,
            r.now == (Timestamp { secs: 0, nanos: 0 }),
            r.short_output == false,
            r.use_humanize == true,
            r.save_previous_result == false,
            r.previous_result is None,
    {
        Context {
            short_output: false,
            use_humanize: true,
            save_previous_result: false,
            now: Timestamp { secs: 0, nanos: 0 },
            dimensions: Vec::new(),
            prefixes: Vec::new(),
            datepatterns: Vec::new(),
            canonicalizations: Vec::new(),
            units: Vec::new(),
            quantities: Vec::new(),
            reverse: Vec::new(),
            definitions: Vec::new(),
            docs: Vec::new(),
            categories: Vec::new(),
            category_names: Vec::new(),
            substances: Vec::new(),
            substance_symbols: Vec::new(),
            temporaries: Vec::new(),
            previous_result: None,
        }
    }

    /// Sets the clock used for date arithmetic.
    pub fn set_time(&mut self, time: Timestamp)
        ensures
            *final(self) == (Context { now: time, ..*old(self) }),
    {
        self.now = time;
    }

    /// Reads the machine clock into the registry; nothing else changes.
    pub fn update_time(&mut self)
        ensures
            *final(self) == (Context { now: final(self).now, ..*old(self) }),
            final(self).now.nanos < 2_000_000_000,
    {
        self.now = now_local();
    }

    /// Appends date-format patterns to the registry.
    pub fn load_dates(&mut self, dates: Vec<Vec<DatePattern>>)
        ensures
            final(self).datepatterns@ == old(self).datepatterns@ + dates@,
            *final(self) == (Context { datepatterns: final(self).datepatterns, ..*old(self) }),
    {
        let mut dates = dates;
        self.datepatterns.append(&mut dates);
    }

    /// Populates the registry from a parsed definitions structure: the
    /// sole mutation entry point for bulk population.  Dimensions are
    /// added once, unit, quantity, alias and raw-definition tables are
    /// keyed by name (a later definition replaces an earlier one), and
    /// prefixes are appended in registration order.
    pub fn load(&mut self, defs: Defs)
        requires
            old(self).wf(),
            forall|i: int| 0 <= i < defs.defs@.len() ==> def_wf(#[trigger] defs.defs@[i]),
        ensures
            final(self).wf(),
            final(self).dimensions@ == fold_steps(
                old(self).dimensions@,
                defs.defs@,
                (|c: Seq<BaseUnit>, d: Def| dims_step(c, d)),
            ),
            final(self).units@ == fold_steps(
                old(self).units@,
                defs.defs@,
                (|c: Seq<(String, Number)>, d: Def| units_step(c, d)),
            ),
            final(self).prefixes@ == fold_steps(
                old(self).prefixes@,
                defs.defs@,
                (|c: Seq<(String, Number)>, d: Def| prefixes_step(c, d)),
            ),
            final(self).quantities@ == fold_steps(
                old(self).quantities@,
                defs.defs@,
                (|c: Seq<(Dimensionality, String)>, d: Def| quantities_step(c, d)),
            ),
            final(self).canonicalizations@ == fold_steps(
                old(self).canonicalizations@,
                defs.defs@,
                (|c: Seq<(String, String)>, d: Def| canonicalizations_step(c, d)),
            ),
            final(self).definitions@ == fold_steps(
                old(self).definitions@,
                defs.defs@,
                (|c: Seq<(String, Expr)>, d: Def| definitions_step(c, d)),
            ),
            final(self).reverse == old(self).reverse,
            final(self).docs == old(self).docs,
            final(self).categories == old(self).categories,
            final(self).category_names == old(self).category_names,
            final(self).datepatterns == old(self).datepatterns,
            final(self).substances == old(self).substances,
            final(self).substance_symbols == old(self).substance_symbols,
            final(self).temporaries == old(self).temporaries,
            final(self).now == old(self).now,
            final(self).short_output == old(self).short_output,
            final(self).use_humanize == old(self).use_humanize,
            final(self).save_previous_result == old(self).save_previous_result,
            final(self).previous_result == old(self).previous_result,
    {
        let ghost dstep = (|c: Seq<BaseUnit>, d: Def| dims_step(c, d));
        let ghost ustep = (|c: Seq<(String, Number)>, d: Def| units_step(c, d));
        let ghost pstep = (|c: Seq<(String, Number)>, d: Def| prefixes_step(c, d));
        let ghost qstep = (|c: Seq<(Dimensionality, String)>, d: Def| quantities_step(c, d));
        let ghost cstep = (|c: Seq<(String, String)>, d: Def| canonicalizations_step(c, d));
        let ghost estep = (|c: Seq<(String, Expr)>, d: Def| definitions_step(c, d));
        let mut rest = defs.defs;
        let ghost mut done: Seq<Def> = Seq::empty();
        let ghost all = rest@;
        proof {
            assert(all =~= done + rest@);
        }
        while rest.len() > 0
            invariant
                dstep == (|c: Seq<BaseUnit>, d: Def| dims_step(c, d)),
                ustep == (|c: Seq<(String, Number)>, d: Def| units_step(c, d)),
                pstep == (|c: Seq<(String, Number)>, d: Def| prefixes_step(c, d)),
                qstep == (|c: Seq<(Dimensionality, String)>, d: Def| quantities_step(c, d)),
                cstep == (|c: Seq<(String, String)>, d: Def| canonicalizations_step(c, d)),
                estep == (|c: Seq<(String, Expr)>, d: Def| definitions_step(c, d)),
                all == done + rest@,
                forall|i: int| 0 <= i < rest@.len() ==> def_wf(#[trigger] rest@[i]),
                self.wf(),
                self.dimensions@ == fold_steps(old(self).dimensions@, done, dstep),
                self.units@ == fold_steps(old(self).units@, done, ustep),
                self.prefixes@ == fold_steps(old(self).prefixes@, done, pstep),
                self.quantities@ == fold_steps(old(self).quantities@, done, qstep),
                self.canonicalizations@ == fold_steps(old(self).canonicalizations@, done, cstep),
                self.definitions@ == fold_steps(old(self).definitions@, done, estep),
                forall|j: int| 0 <= j < self.quantities@.len()
                    ==> (#[trigger] self.quantities@[j]).0.wf(),
                self.reverse == old(self).reverse,
                self.docs == old(self).docs,
                self.categories == old(self).categories,
                self.category_names == old(self).category_names,
                self.datepatterns == old(self).datepatterns,
                self.substances == old(self).substances,
                self.substance_symbols == old(self).substance_symbols,
                self.temporaries == old(self).temporaries,
                self.now == old(self).now,
                self.short_output == old(self).short_output,
                self.use_humanize == old(self).use_humanize,
                self.save_previous_result == old(self).save_previous_result,
                self.previous_result == old(self).previous_result,
            decreases rest@.len(),
        {
            let ghost prev_rest = rest@;
            let d = rest.remove(0);
            let ghost gd = d;
            proof {
                assert(prev_rest[0] == gd);
                assert(rest@ =~= prev_rest.drop_first());
            }
            match d {
                Def::Dimension { name } => {
                    let mut found = false;
                    let mut i: usize = 0;
                    while i < self.dimensions.len()
                        invariant
                            i <= self.dimensions@.len(),
                            found <==> exists|j: int|
                                0 <= j < i && self.dimensions@[j]@ == name@,
                        decreases self.dimensions@.len() - i,
                    {
                        if str_eq(self.dimensions[i].id.as_str(), name.as_str()) {
                            found = true;
                            proof {
                                assert(self.dimensions@[i as int]@ == name@);
                            }
                        }
                        i += 1;
                    }
                    if !found {
                        self.dimensions.push(BaseUnit { id: name });
                    }
                },
                Def::Unit { name, value } => {
                    let ghost prev_units = self.units@;
                    let ghost ge = (name, value);
                    set_assoc(&mut self.units, name, value);
                    proof {
                        lemma_assoc_set_wf_number(prev_units, ge, self.units@);
                    }
                },
                Def::Prefix { name, value } => {
                    self.prefixes.push((name, value));
                },
                Def::Quantity { name, unit } => {
                    set_dim_assoc(&mut self.quantities, unit, name);
                },
                Def::Canonicalization { name, canonical } => {
                    set_assoc(&mut self.canonicalizations, name, canonical);
                },
                Def::Definition { name, expr } => {
                    set_assoc(&mut self.definitions, name, expr);
                },
            }
            proof {
                lemma_fold_snoc(old(self).dimensions@, done, gd, dstep);
                lemma_fold_snoc(old(self).units@, done, gd, ustep);
                lemma_fold_snoc(old(self).prefixes@, done, gd, pstep);
                lemma_fold_snoc(old(self).quantities@, done, gd, qstep);
                lemma_fold_snoc(old(self).canonicalizations@, done, gd, cstep);
                lemma_fold_snoc(old(self).definitions@, done, gd, estep);
                done = done.push(gd);
            }
        }
        proof {
            assert(done =~= all);
        }
    }
}

/// An entry-by-entry value invariant survives an `assoc_set`.
proof fn lemma_assoc_set_wf_number(s: Seq<(String, Number)>, e: (String, Number), t: Seq<(String, Number)>)
    requires
        forall|i: int| 0 <= i < s.len() ==> (#[trigger] s[i]).1.wf(),
        e.1.wf(),
        t == assoc_set(s, e),
    ensures
        forall|i: int| 0 <= i < t.len() ==> (#[trigger] t[i]).1.wf(),
{
    if exists|w: int| is_first_str_key(s, e.0@, w) {
        let w = choose|w: int| is_first_str_key(s, e.0@, w);
        assert forall|i: int| 0 <= i < t.len() implies (#[trigger] t[i]).1.wf() by {
            if i != w {
                assert(t[i] == s[i]);
            }
        }
    } else {
        assert forall|i: int| 0 <= i < t.len() implies (#[trigger] t[i]).1.wf() by {
            if i < s.len() {
                assert(t[i] == s[i]);
            }
        }
    }
}

} // verus!
