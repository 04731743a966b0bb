//! What the server asks of a site's authority after each visit: for every
//! species it knows a target for, a policy to cull, to conserve, or none;
//! and the policies it has created, by species.
use vstd::prelude::*;

use crate::pest::packets::create_policy::PolicyAction;
use crate::pest::packets::{site_visit, target_populations, Packet};
use crate::pest::wire::CodecError;
use crate::text::str_equal;

verus! {

/// What the server wants for one species: no policy, or one with this action.
#[derive(Debug, PartialEq, Eq, Clone)]
pub enum Adjustment {
    Remove(String),
    Ensure(String, PolicyAction),
}

pub ghost enum Want {
    Remove(Seq<char>),
    Ensure(Seq<char>, PolicyAction),
}

impl View for Adjustment {
    type V = Want;

    open spec fn view(&self) -> Want {
        match self {
            Adjustment::Remove(s) => Want::Remove(s@),
            Adjustment::Ensure(s, a) => Want::Ensure(s@, *a),
        }
    }
}

pub open spec fn wants(v: Seq<Adjustment>) -> Seq<Want> {
    v.map_values(|a: Adjustment| a@)
}

/// The position of the first target for `species`, if any.
pub open spec fn first_target(ts: Seq<target_populations::Population>, species: Seq<char>) -> Option<int>
    decreases ts.len(),
{
    if ts.len() == 0 {
        None
    } else {
        match first_target(ts.drop_last(), species) {
            Some(i) => Some(i),
            None => if ts.last().species@ == species {
                Some(ts.len() - 1)
            } else {
                None
            },
        }
    }
}

/// What one counted population asks for: nothing without a target; no
/// policy within the range; conservation below it; culling above it.
pub open spec fn for_count(ts: Seq<target_populations::Population>, v: site_visit::Population) -> Seq<Want> {
    match first_target(ts, v.species@) {
        None => Seq::empty(),
        Some(i) => if ts[i].min <= v.count <= ts[i].max {
            seq![Want::Remove(v.species@)]
        } else if v.count < ts[i].min {
            seq![Want::Ensure(v.species@, PolicyAction::Conserve)]
        } else {
            seq![Want::Ensure(v.species@, PolicyAction::Cull)]
        },
    }
}

/// What the counted populations ask for, in the order they were counted.
pub open spec fn for_counts(ts: Seq<target_populations::Population>, vs: Seq<site_visit::Population>) -> Seq<Want>
    decreases vs.len(),
{
    if vs.len() == 0 {
        Seq::empty()
    } else {
        for_counts(ts, vs.drop_last()) + for_count(ts, vs.last())
    }
}

/// The species was counted in the visit.
pub open spec fn counted(vs: Seq<site_visit::Population>, species: Seq<char>) -> bool {
    exists|j: int| 0 <= j < vs.len() && #[trigger] vs[j].species@ == species
}

/// What a target whose species was not counted asks for: a count of zero,
/// so no policy if zero is within the range, conservation otherwise.
pub open spec fn for_missing(vs: Seq<site_visit::Population>, t: target_populations::Population) -> Seq<Want> {
    if counted(vs, t.species@) {
        Seq::empty()
    } else if t.min == 0 {
        seq![Want::Remove(t.species@)]
    } else {
        seq![Want::Ensure(t.species@, PolicyAction::Conserve)]
    }
}

/// What the targets without a count ask for, in the order of the targets.
pub open spec fn for_missings(ts: Seq<target_populations::Population>, vs: Seq<site_visit::Population>) -> Seq<Want>
    decreases ts.len(),
{
    if ts.len() == 0 {
        Seq::empty()
    } else {
        for_missings(ts.drop_last(), vs) + for_missing(vs, ts.last())
    }
}

/// Everything a visit asks for: first for each counted population, then
/// for each target that was not counted.
pub open spec fn plan_of(ts: Seq<target_populations::Population>, vs: Seq<site_visit::Population>) -> Seq<Want> {
    for_counts(ts, vs) + for_missings(ts, vs)
}

/// With no target for `species` among `ts`, there is no first one.
proof fn lemma_no_target(ts: Seq<target_populations::Population>, species: Seq<char>)
    requires
        forall|j: int| 0 <= j < ts.len() ==> #[trigger] ts[j].species@ != species,
    ensures
        first_target(ts, species) is None,
    decreases ts.len(),
{
    if ts.len() > 0 {
        assert forall|j: int| 0 <= j < ts.drop_last().len() implies #[trigger] ts.drop_last()[j].species@
            != species by {
            assert(ts.drop_last()[j] == ts[j]);
        }
        lemma_no_target(ts.drop_last(), species);
        assert(ts.last() == ts[ts.len() - 1]);
    }
}

/// The first target for `species` is the one at `i` when none before it
/// names the species.
proof fn lemma_first_target_at(ts: Seq<target_populations::Population>, species: Seq<char>, i: int)
    requires
        0 <= i < ts.len(),
        ts[i].species@ == species,
        forall|j: int| 0 <= j < i ==> #[trigger] ts[j].species@ != species,
    ensures
        first_target(ts, species) == Some(i),
    decreases ts.len(),
{
    if i < ts.len() - 1 {
        assert forall|j: int| 0 <= j < i implies #[trigger] ts.drop_last()[j].species@ != species by {
            assert(ts.drop_last()[j] == ts[j]);
        }
        assert(ts.drop_last()[i] == ts[i]);
        lemma_first_target_at(ts.drop_last(), species, i);
    } else {
        assert forall|j: int| 0 <= j < ts.drop_last().len() implies #[trigger] ts.drop_last()[j].species@
            != species by {
            assert(ts.drop_last()[j] == ts[j]);
        }
        lemma_no_target(ts.drop_last(), species);
    }
}

/// What each counted population asks for is among what all of them ask for.
proof fn lemma_for_counts_has(
    ts: Seq<target_populations::Population>,
    vs: Seq<site_visit::Population>,
    k: int,
    w: Want,
)
    requires
        0 <= k < vs.len(),
        for_count(ts, vs[k]).contains(w),
    ensures
        for_counts(ts, vs).contains(w),
    decreases vs.len(),
{
    let rest = for_counts(ts, vs.drop_last());
    let last = for_count(ts, vs.last());
    if k < vs.len() - 1 {
        assert(vs.drop_last()[k] == vs[k]);
        lemma_for_counts_has(ts, vs.drop_last(), k, w);
        let x = choose|x: int| 0 <= x < rest.len() && rest[x] == w;
        assert((rest + last)[x] == w);
    } else {
        let x = choose|x: int| 0 <= x < last.len() && last[x] == w;
        assert((rest + last)[rest.len() + x] == w);
    }
}

/// A counted species with a target (the first one for it, with range
/// [min, max]) is planned by the side of the range its count falls on:
/// below it a conserve policy, above it a cull policy, within it no policy.
pub proof fn lemma_plan_follows_range(
    ts: Seq<target_populations::Population>,
    vs: Seq<site_visit::Population>,
    k: int,
    i: int,
)
    requires
        0 <= k < vs.len(),
        0 <= i < ts.len(),
        ts[i].species@ == vs[k].species@,
        forall|j: int| 0 <= j < i ==> #[trigger] ts[j].species@ != vs[k].species@,
    ensures
        vs[k].count < ts[i].min ==> plan_of(ts, vs).contains(
            Want::Ensure(vs[k].species@, PolicyAction::Conserve),
        ),
        ts[i].min <= vs[k].count && vs[k].count > ts[i].max ==> plan_of(ts, vs).contains(
            Want::Ensure(vs[k].species@, PolicyAction::Cull),
        ),
        ts[i].min <= vs[k].count <= ts[i].max ==> plan_of(ts, vs).contains(Want::Remove(vs[k].species@)),
{
    lemma_first_target_at(ts, vs[k].species@, i);
    let c = for_count(ts, vs[k]);
    assert(c.len() == 1);
    assert(c.contains(c[0]));
    lemma_for_counts_has(ts, vs, k, c[0]);
    let fc = for_counts(ts, vs);
    let x = choose|x: int| 0 <= x < fc.len() && fc[x] == c[0];
    assert((fc + for_missings(ts, vs))[x] == c[0]);
}

/// A target whose species was not counted stands for a count of zero: no
/// policy when its range admits zero, a conserve policy otherwise.
pub proof fn lemma_uncounted_target(
    ts: Seq<target_populations::Population>,
    vs: Seq<site_visit::Population>,
    i: int,
)
    requires
        0 <= i < ts.len(),
        forall|j: int| 0 <= j < vs.len() ==> #[trigger] vs[j].species@ != ts[i].species@,
    ensures
        ts[i].min == 0 ==> plan_of(ts, vs).contains(Want::Remove(ts[i].species@)),
        ts[i].min > 0 ==> plan_of(ts, vs).contains(Want::Ensure(ts[i].species@, PolicyAction::Conserve)),
{
    let m = for_missing(vs, ts[i]);
    assert(!counted(vs, ts[i].species@));
    assert(m.len() == 1);
    lemma_for_missings_has(ts, vs, i, m[0]);
    let fm = for_missings(ts, vs);
    let x = choose|x: int| 0 <= x < fm.len() && fm[x] == m[0];
    let fc = for_counts(ts, vs);
    assert((fc + fm)[fc.len() + x] == m[0]);
}

/// What each target asks for is among what all targets ask for.
proof fn lemma_for_missings_has(
    ts: Seq<target_populations::Population>,
    vs: Seq<site_visit::Population>,
    i: int,
    w: Want,
)
    requires
        0 <= i < ts.len(),
        for_missing(vs, ts[i]).contains(w),
    ensures
        for_missings(ts, vs).contains(w),
    decreases ts.len(),
{
    let rest = for_missings(ts.drop_last(), vs);
    let last = for_missing(vs, ts.last());
    if i < ts.len() - 1 {
        assert(ts.drop_last()[i] == ts[i]);
        lemma_for_missings_has(ts.drop_last(), vs, i, w);
        let x = choose|x: int| 0 <= x < rest.len() && rest[x] == w;
        assert((rest + last)[x] == w);
    } else {
        let x = choose|x: int| 0 <= x < last.len() && last[x] == w;
        assert((rest + last)[rest.len() + x] == w);
    }
}

/// Where the first target for `species` stands.
fn find_target(ts: &Vec<target_populations::Population>, species: &String) -> (r: Option<usize>)
    ensures
        match r {
            Some(i) => first_target(ts@, species@) == Some(i as int) && i < ts@.len(),
            None => first_target(ts@, species@) is None,
        },
{
    let mut i: usize = 0;
    while i < ts.len()
        invariant
            i <= ts@.len(),
            first_target(ts@.take(i as int), species@) is None,
        decreases ts@.len() - i,
    {
        assert(ts@.take(i + 1).drop_last() =~= ts@.take(i as int));
        if str_equal(ts[i].species.as_str(), species.as_str()) {
            proof {
                lemma_first_target_prefix(ts@, species@, i as int + 1);
            }
            return Some(i);
        }
        i += 1;
    }
    assert(ts@.take(ts@.len() as int) =~= ts@);
    None
}

/// A first match among the first `k` is the first match among all.
proof fn lemma_first_target_prefix(ts: Seq<target_populations::Population>, species: Seq<char>, k: int)
    requires
        0 <= k <= ts.len(),
        first_target(ts.take(k), species) is Some,
    ensures
        first_target(ts, species) == first_target(ts.take(k), species),
    decreases ts.len(),
{
    if k < ts.len() {
        assert(ts.drop_last().take(k) =~= ts.take(k));
        lemma_first_target_prefix(ts.drop_last(), species, k);
    } else {
        assert(ts.take(k) =~= ts);
    }
}

/// Whether the species was counted.
fn is_counted(vs: &Vec<site_visit::Population>, species: &String) -> (r: bool)
    ensures
        r == counted(vs@, species@),
{
    let mut i: usize = 0;
    while i < vs.len()
        invariant
            i <= vs@.len(),
            forall|j: int| 0 <= j < i ==> #[trigger] vs@[j].species@ != species@,
        decreases vs@.len() - i,
    {
        if str_equal(vs[i].species.as_str(), species.as_str()) {
            return true;
        }
        i += 1;
    }
    false
}

/// What a visit asks of the authority, given the site's targets: first, for
/// each counted population with a target, no policy within the range,
/// conservation below and culling above; then, for each target whose
/// species was not counted, no policy if its range admits zero and
/// conservation otherwise.
pub fn plan(ts: &Vec<target_populations::Population>, vs: &Vec<site_visit::Population>) -> (r: Vec<Adjustment>)
    ensures
        wants(r@) == plan_of(ts@, vs@),
{
    let mut r: Vec<Adjustment> = Vec::new();
    let mut i: usize = 0;
    while i < vs.len()
        invariant
            i <= vs@.len(),
            wants(r@) == for_counts(ts@, vs@.take(i as int)),
        decreases vs@.len() - i,
    {
        assert(vs@.take(i + 1).drop_last() =~= vs@.take(i as int));
        assert(vs@.take(i + 1).last() == vs@[i as int]);
        let v = &vs[i];
        let ghost before = r@;
        match find_target(ts, &v.species) {
            Some(k) => {
                let t = &ts[k];
                let a = if t.min <= v.count && v.count <= t.max {
                    Adjustment::Remove(v.species.clone())
                } else if v.count < t.min {
                    Adjustment::Ensure(v.species.clone(), PolicyAction::Conserve)
                } else {
                    Adjustment::Ensure(v.species.clone(), PolicyAction::Cull)
                };
                r.push(a);
                assert(wants(r@) =~= wants(before) + for_count(ts@, vs@[i as int]));
            },
            None => {
                assert(wants(r@) =~= wants(before) + for_count(ts@, vs@[i as int]));
            },
        }
        i += 1;
    }
    assert(vs@.take(vs@.len() as int) =~= vs@);
    let ghost first = r@;
    let mut j: usize = 0;
    while j < ts.len()
        invariant
            j <= ts@.len(),
            wants(first) == for_counts(ts@, vs@),
            wants(r@) == wants(first) + for_missings(ts@.take(j as int), vs@),
        decreases ts@.len() - j,
    {
        assert(ts@.take(j + 1).drop_last() =~= ts@.take(j as int));
        assert(ts@.take(j + 1).last() == ts@[j as int]);
        let t = &ts[j];
        let ghost before = r@;
        if !is_counted(vs, &t.species) {
            let a = if t.min == 0 {
                Adjustment::Remove(t.species.clone())
            } else {
                Adjustment::Ensure(t.species.clone(), PolicyAction::Conserve)
            };
            r.push(a);
        }
        assert(wants(r@) =~= wants(before) + for_missing(vs@, ts@[j as int]));
        assert(wants(first) + for_missings(ts@.take(j + 1), vs@) =~= wants(first) + for_missings(
            ts@.take(j as int),
            vs@,
        ) + for_missing(vs@, ts@[j as int]));
        j += 1;
    }
    assert(ts@.take(ts@.len() as int) =~= ts@);
    r
}

/// A message for the authority about one species' policy.
#[derive(Debug, PartialEq, Eq, Clone)]
pub enum PolicyOp {
    /// Withdraw the policy with this id; the authority answers `OK`.
    Delete(u32),
    /// Create a policy; the authority answers with its id.
    Create(String, PolicyAction),
}

pub ghost enum OpView {
    Delete(u32),
    Create(Seq<char>, PolicyAction),
}

impl View for PolicyOp {
    type V = OpView;

    open spec fn view(&self) -> OpView {
        match self {
            PolicyOp::Delete(id) => OpView::Delete(*id),
            PolicyOp::Create(s, a) => OpView::Create(s@, *a),
        }
    }
}

pub open spec fn op_views(v: Seq<PolicyOp>) -> Seq<OpView> {
    v.map_values(|o: PolicyOp| o@)
}

struct Held {
    species: String,
    id: u32,
    action: PolicyAction,
}

/// The policies created at one authority, at most one per species.
pub struct Policies {
    held: Vec<Held>,
}

impl View for Policies {
    type V = Seq<(Seq<char>, u32, PolicyAction)>;

    closed spec fn view(&self) -> Seq<(Seq<char>, u32, PolicyAction)> {
        self.held@.map_values(|h: Held| (h.species@, h.id, h.action))
    }
}

/// No species has two policies.
pub open spec fn one_per_species(ps: Seq<(Seq<char>, u32, PolicyAction)>) -> bool {
    forall|i: int, j: int| 0 <= i < j < ps.len() ==> #[trigger] ps[i].0 != #[trigger] ps[j].0
}

/// The policy held for `species`, with its id and action.
pub open spec fn held_for(ps: Seq<(Seq<char>, u32, PolicyAction)>, species: Seq<char>) -> Option<(u32, PolicyAction)> {
    if exists|i: int| 0 <= i < ps.len() && #[trigger] ps[i].0 == species {
        let i = choose|i: int| 0 <= i < ps.len() && #[trigger] ps[i].0 == species;
        Some((ps[i].1, ps[i].2))
    } else {
        None
    }
}

/// The messages an adjustment needs, given the policy held for its species:
/// a policy to remove is deleted; a policy to ensure is left alone when it
/// is already held with that action, else any other policy for the species
/// is deleted and the new one created.
pub open spec fn ops_of(held: Option<(u32, PolicyAction)>, w: Want) -> Seq<OpView> {
    match w {
        Want::Remove(_) => match held {
            Some((id, _)) => seq![OpView::Delete(id)],
            None => Seq::empty(),
        },
        Want::Ensure(s, a) => match held {
            Some((id, b)) => if a == b {
                Seq::empty()
            } else {
                seq![OpView::Delete(id), OpView::Create(s, a)]
            },
            None => seq![OpView::Create(s, a)],
        },
    }
}

/// The species an adjustment is about.
pub open spec fn species_of(w: Want) -> Seq<char> {
    match w {
        Want::Remove(s) => s,
        Want::Ensure(s, _) => s,
    }
}

proof fn lemma_held_at(ps: Seq<(Seq<char>, u32, PolicyAction)>, i: int)
    requires
        one_per_species(ps),
        0 <= i < ps.len(),
    ensures
        held_for(ps, ps[i].0) == Some((ps[i].1, ps[i].2)),
{
    let c = choose|c: int| 0 <= c < ps.len() && #[trigger] ps[c].0 == ps[i].0;
    if c < i {
        assert(ps[c].0 != ps[i].0);
    } else if i < c {
        assert(ps[i].0 != ps[c].0);
    }
}

impl Policies {
    /// No policies.
    pub fn new() -> (r: Policies)
        ensures
            r@ == Seq::<(Seq<char>, u32, PolicyAction)>::empty(),
    {
        Policies { held: Vec::new() }
    }

    fn find(&self, species: &str) -> (r: Option<usize>)
        requires
            one_per_species(self@),
        ensures
            match r {
                Some(i) => i < self@.len() && self@[i as int].0 == species@,
                None => held_for(self@, species@) is None,
            },
    {
        let ghost ps = self@;
        let mut i: usize = 0;
        while i < self.held.len()
            invariant
                ps == self@,
                ps.len() == self.held@.len(),
                i <= ps.len(),
                forall|j: int| 0 <= j < i ==> #[trigger] ps[j].0 != species@,
            decreases ps.len() - i,
        {
            assert(ps[i as int].0 == self.held@[i as int].species@);
            if str_equal(self.held[i].species.as_str(), species) {
                return Some(i);
            }
            i += 1;
        }
        None
    }

    /// The policy held for `species`.
    pub fn policy(&self, species: &str) -> (r: Option<(u32, PolicyAction)>)
        requires
            one_per_species(self@),
        ensures
            r == held_for(self@, species@),
    {
        match self.find(species) {
            Some(i) => {
                proof {
                    lemma_held_at(self@, i as int);
                }
                Some((self.held[i].id, self.held[i].action))
            },
            None => None,
        }
    }

    /// Forgets the policy for `species`; gives its id.
    pub fn remove(&mut self, species: &str) -> (r: Option<u32>)
        requires
            one_per_species(old(self)@),
        ensures
            one_per_species(final(self)@),
            r == (match held_for(old(self)@, species@) {
                Some((id, _)) => Some(id),
                None => None,
            }),
            held_for(final(self)@, species@) is None,
            held_for(old(self)@, species@) is None ==> final(self)@ == old(self)@,
            forall|s: Seq<char>| s != species@ ==> #[trigger] held_for(final(self)@, s) == held_for(old(self)@, s),
    {
        let ghost ps = self@;
        match self.find(species) {
            Some(i) => {
                proof {
                    lemma_held_at(ps, i as int);
                }
                let id = self.held[i].id;
                self.held.remove(i);
                let ghost ns = self@;
                assert(ns =~= ps.remove(i as int));
                assert forall|a: int, b: int| 0 <= a < b < ns.len() implies #[trigger] ns[a].0 != #[trigger] ns[b].0 by {
                    let a2 = if a < i { a } else { a + 1 };
                    let b2 = if b < i { b } else { b + 1 };
                    assert(ps[a2].0 != ps[b2].0);
                }
                assert forall|s: Seq<char>| s != species@ implies #[trigger] held_for(ns, s) == held_for(ps, s) by {
                    if exists|k: int| 0 <= k < ps.len() && #[trigger] ps[k].0 == s {
                        let k = choose|k: int| 0 <= k < ps.len() && #[trigger] ps[k].0 == s;
                        lemma_held_at(ps, k);
                        assert(k != i);
                        let k2 = if k < i { k } else { k - 1 };
                        assert(ns[k2] == ps[k]);
                        lemma_held_at(ns, k2);
                    } else {
                        if exists|k: int| 0 <= k < ns.len() && #[trigger] ns[k].0 == s {
                            let k = choose|k: int| 0 <= k < ns.len() && #[trigger] ns[k].0 == s;
                            let k2 = if k < i { k } else { k + 1 };
                            assert(ps[k2].0 == s);
                        }
                    }
                }
                assert(held_for(ns, species@) is None) by {
                    if exists|k: int| 0 <= k < ns.len() && #[trigger] ns[k].0 == species@ {
                        let k = choose|k: int| 0 <= k < ns.len() && #[trigger] ns[k].0 == species@;
                        let k2 = if k < i { k } else { k + 1 };
                        assert(ps[k2].0 == species@);
                        assert(ps[i as int].0 == species@);
                    }
                }
                Some(id)
            },
            None => None,
        }
    }

    /// Records the policy `id` with `action` for `species`, which holds none.
    pub fn record(&mut self, species: String, id: u32, action: PolicyAction)
        requires
            one_per_species(old(self)@),
            held_for(old(self)@, species@) is None,
        ensures
            one_per_species(final(self)@),
            held_for(final(self)@, species@) == Some((id, action)),
            forall|s: Seq<char>| s != species@ ==> #[trigger] held_for(final(self)@, s) == held_for(old(self)@, s),
    {
        let ghost ps = self@;
        let ghost sp = species@;
        self.held.push(Held { species, id, action });
        let ghost ns = self@;
        assert(ns =~= ps.push((sp, id, action)));
        assert forall|a: int, b: int| 0 <= a < b < ns.len() implies #[trigger] ns[a].0 != #[trigger] ns[b].0 by {
            if b == ps.len() {
                assert(ps[a].0 != sp);
            } else {
                assert(ps[a].0 != ps[b].0);
            }
        }
        proof {
            lemma_held_at(ns, ps.len() as int);
        }
        assert forall|s: Seq<char>| s != sp implies #[trigger] held_for(ns, s) == held_for(ps, s) by {
            if exists|k: int| 0 <= k < ps.len() && #[trigger] ps[k].0 == s {
                let k = choose|k: int| 0 <= k < ps.len() && #[trigger] ps[k].0 == s;
                lemma_held_at(ps, k);
                assert(ns[k] == ps[k]);
                lemma_held_at(ns, k);
            } else {
                if exists|k: int| 0 <= k < ns.len() && #[trigger] ns[k].0 == s {
                    let k = choose|k: int| 0 <= k < ns.len() && #[trigger] ns[k].0 == s;
                    if k < ps.len() {
                        assert(ps[k].0 == s);
                    }
                }
            }
        }
    }

    /// The messages that an adjustment needs; a policy to be deleted is
    /// forgotten at once. A created policy is recorded once the authority
    /// gives its id (`record`).
    pub fn ops_for(&mut self, adj: &Adjustment) -> (r: Vec<PolicyOp>)
        requires
            one_per_species(old(self)@),
        ensures
            one_per_species(final(self)@),
            op_views(r@) == ops_of(held_for(old(self)@, species_of(adj@)), adj@),
            ops_of(held_for(old(self)@, species_of(adj@)), adj@).len() == 0 ==> final(self)@ == old(self)@,
            ops_of(held_for(old(self)@, species_of(adj@)), adj@).len() > 0 ==> held_for(final(self)@, species_of(adj@)) is None,
            forall|s: Seq<char>| s != species_of(adj@) ==> #[trigger] held_for(final(self)@, s) == held_for(old(self)@, s),
    {
        let mut r: Vec<PolicyOp> = Vec::new();
        match adj {
            Adjustment::Remove(species) => {
                match self.remove(species.as_str()) {
                    Some(id) => {
                        r.push(PolicyOp::Delete(id));
                    },
                    None => {},
                }
            },
            Adjustment::Ensure(species, action) => {
                match self.policy(species.as_str()) {
                    Some((id, current)) => {
                        if current != *action {
                            self.remove(species.as_str());
                            r.push(PolicyOp::Delete(id));
                            r.push(PolicyOp::Create(species.clone(), *action));
                        }
                    },
                    None => {
                        r.push(PolicyOp::Create(species.clone(), *action));
                    },
                }
            },
        }
        assert(op_views(r@) =~= ops_of(held_for(old(self)@, species_of(adj@)), adj@));
        r
    }
}

/// What the authority's answer to `op` gives: `OK` to a deletion; a policy
/// id to a creation. Anything else, or no answer, is refused.
pub fn check_reply(op: &PolicyOp, reply: Option<Packet>) -> (r: Result<Option<u32>, CodecError>)
    ensures
        match op {
            PolicyOp::Delete(_) => match reply {
                Some(Packet::Okay(_)) => r == Ok::<Option<u32>, CodecError>(None),
                _ => r == Err::<Option<u32>, CodecError>(CodecError::InvalidPacket),
            },
            PolicyOp::Create(_, _) => match reply {
                Some(Packet::PolicyResult(p)) => r == Ok::<Option<u32>, CodecError>(Some(p.policy)),
                _ => r == Err::<Option<u32>, CodecError>(CodecError::InvalidPacket),
            },
        },
{
    match op {
        PolicyOp::Delete(_) => match reply {
            Some(Packet::Okay(_)) => Ok(None),
            _ => Err(CodecError::InvalidPacket),
        },
        PolicyOp::Create(_, _) => match reply {
            Some(Packet::PolicyResult(p)) => Ok(Some(p.policy)),
            _ => Err(CodecError::InvalidPacket),
        },
    }
}

/// The species already holds what is wanted: no policy, or one with the
/// wanted action.
pub open spec fn settled(ps: Seq<(Seq<char>, u32, PolicyAction)>, w: Want) -> bool {
    match w {
        Want::Remove(s) => held_for(ps, s) is None,
        Want::Ensure(s, a) => held_for(ps, s) matches Some((_, b)) && b == a,
    }
}

/// The server sends nothing about a species exactly when the authority
/// already holds what is wanted for it; otherwise the last message sent
/// for it is the one that gets it there.
pub proof fn lemma_nothing_sent_when_settled(ps: Seq<(Seq<char>, u32, PolicyAction)>, w: Want)
    ensures
        ops_of(held_for(ps, species_of(w)), w).len() == 0 <==> settled(ps, w),
        ops_of(held_for(ps, species_of(w)), w).len() > 0 ==> match w {
            Want::Remove(_) => ops_of(held_for(ps, species_of(w)), w).last() is Delete,
            Want::Ensure(s, a) => ops_of(held_for(ps, species_of(w)), w).last() == OpView::Create(s, a),
        },
{
}

} // verus!
