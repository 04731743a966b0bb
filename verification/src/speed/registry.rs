//! The shared records of the speed-limit service: the speed limit of each
//! road with cameras on it, and the dispatchers that tickets are routed to.
use vstd::prelude::*;

use crate::speed::wire::{Ticket, TicketView};

verus! {

/// The roads with cameras: each road's limit and how many cameras watch it.
pub struct Cameras {
    roads: Vec<(u16, u16, u64)>,
}

/// One road: its limit and its number of cameras.
pub ghost struct RoadView {
    pub limit: u16,
    pub count: u64,
}

impl Cameras {
    /// The roads, each with its limit and camera count.
    pub closed spec fn roads(&self) -> Map<u16, RoadView> {
        Map::new(
            |r: u16| exists|i: int| 0 <= i < self.roads@.len() && self.roads@[i].0 == r,
            |r: u16|
                {
                    let i = choose|i: int| 0 <= i < self.roads@.len() && self.roads@[i].0 == r;
                    RoadView { limit: self.roads@[i].1, count: self.roads@[i].2 }
                },
        )
    }

    /// Each road at most once, with at least one camera.
    pub closed spec fn wf(&self) -> bool {
        &&& forall|i: int, j: int|
            0 <= i < self.roads@.len() && 0 <= j < self.roads@.len() && i != j ==> #[trigger] self.roads@[i].0
                != #[trigger] self.roads@[j].0
        &&& forall|i: int| 0 <= i < self.roads@.len() ==> #[trigger] self.roads@[i].2 > 0
    }

    pub fn new() -> (r: Cameras)
        ensures
            r.wf(),
            r.roads() == Map::<u16, RoadView>::empty(),
    {
        let r = Cameras { roads: Vec::new() };
        assert(r.roads() =~= Map::<u16, RoadView>::empty());
        r
    }

    fn find(&self, road: u16) -> (r: Option<usize>)
        ensures
            match r {
                Some(i) => i < self.roads@.len() && self.roads@[i as int].0 == road,
                None => forall|i: int| 0 <= i < self.roads@.len() ==> #[trigger] self.roads@[i].0 != road,
            },
    {
        let mut i: usize = 0;
        while i < self.roads.len()
            invariant
                i <= self.roads@.len(),
                forall|j: int| 0 <= j < i ==> #[trigger] self.roads@[j].0 != road,
            decreases self.roads@.len() - i,
        {
            if self.roads[i].0 == road {
                return Some(i);
            }
            i += 1;
        }
        None
    }

    /// The road at `i` is known with its limit and count.
    proof fn lemma_entry(&self, i: int)
        requires
            self.wf(),
            0 <= i < self.roads@.len(),
        ensures
            self.roads().contains_key(self.roads@[i].0),
            self.roads()[self.roads@[i].0] == (RoadView { limit: self.roads@[i].1, count: self.roads@[i].2 }),
    {
        let r = self.roads@[i].0;
        assert(self.roads().dom().contains(r));
        let c = choose|c: int| 0 <= c < self.roads@.len() && self.roads@[c].0 == r;
        if c != i {
            assert(self.roads@[c].0 != self.roads@[i].0);
        }
    }

    /// How many cameras watch `road`.
    pub fn camera_count(&self, road: u16) -> (r: u64)
        requires
            self.wf(),
        ensures
            r == (if self.roads().contains_key(road) { self.roads()[road].count } else { 0 }),
    {
        match self.find(road) {
            Some(i) => {
                proof {
                    self.lemma_entry(i as int);
                }
                self.roads[i].2
            },
            None => {
                assert(!self.roads().contains_key(road));
                0
            },
        }
    }

    /// Registers a camera on `road` with `limit`: a road keeps the limit of
    /// its first camera, and a camera that disagrees is refused.
    pub fn add_camera(&mut self, road: u16, limit: u16) -> (r: Result<(), &'static str>)
        requires
            old(self).wf(),
            old(self).roads().contains_key(road) ==> old(self).roads()[road].count < u64::MAX,
        ensures
            final(self).wf(),
            old(self).roads().contains_key(road) && old(self).roads()[road].limit != limit ==> r is Err
                && r->Err_0@ == "limit conflict"@ && final(self).roads() == old(self).roads(),
            old(self).roads().contains_key(road) && old(self).roads()[road].limit == limit ==> r is Ok
                && final(self).roads() == old(self).roads().insert(
                road,
                RoadView { limit, count: (old(self).roads()[road].count + 1) as u64 },
            ),
            !old(self).roads().contains_key(road) ==> r is Ok && final(self).roads() == old(self).roads().insert(road, RoadView { limit, count: 1 }),
    {
        match self.find(road) {
            Some(i) => {
                proof {
                    self.lemma_entry(i as int);
                }
                let (_, l, c) = self.roads[i];
                if l != limit {
                    return Err("limit conflict");
                }
                let ghost before = *self;
                self.roads.set(i, (road, l, c + 1));
                proof {
                    assert forall|a: int, b: int|
                        0 <= a < self.roads@.len() && 0 <= b < self.roads@.len() && a != b implies #[trigger] self.roads@[a].0
                        != #[trigger] self.roads@[b].0 by {
                        assert(before.roads@[a].0 != before.roads@[b].0);
                    }
                    assert forall|a: int| 0 <= a < self.roads@.len() implies #[trigger] self.roads@[a].2 > 0 by {
                        if a != i {
                            assert(before.roads@[a].2 > 0);
                        }
                    }
                    self.lemma_entry(i as int);
                    assert forall|r: u16| #[trigger] self.roads().contains_key(r) == before.roads().insert(
                        road,
                        RoadView { limit, count: (c + 1) as u64 },
                    ).contains_key(r) by {
                        if exists|k: int| 0 <= k < before.roads@.len() && before.roads@[k].0 == r {
                            let k = choose|k: int| 0 <= k < before.roads@.len() && before.roads@[k].0 == r;
                            assert(self.roads@[k].0 == r);
                        }
                        if exists|k: int| 0 <= k < self.roads@.len() && self.roads@[k].0 == r {
                            let k = choose|k: int| 0 <= k < self.roads@.len() && self.roads@[k].0 == r;
                            assert(before.roads@[k].0 == r);
                        }
                    }
                    assert forall|r: u16| #[trigger] self.roads().contains_key(r) implies self.roads()[r]
                        == before.roads().insert(road, RoadView { limit, count: (c + 1) as u64 })[r] by {
                        let k = choose|k: int| 0 <= k < self.roads@.len() && self.roads@[k].0 == r;
                        self.lemma_entry(k);
                        if r != road {
                            assert(k != i);
                            before.lemma_entry(k);
                        }
                    }
                    assert(self.roads() =~= before.roads().insert(
                        road,
                        RoadView { limit, count: (c + 1) as u64 },
                    ));
                }
                Ok(())
            },
            None => {
                let ghost before = *self;
                self.roads.push((road, limit, 1));
                proof {
                    let n = before.roads@.len() as int;
                    assert forall|a: int, b: int|
                        0 <= a < self.roads@.len() && 0 <= b < self.roads@.len() && a != b implies #[trigger] self.roads@[a].0
                        != #[trigger] self.roads@[b].0 by {
                        if a < n && b < n {
                            assert(before.roads@[a].0 != before.roads@[b].0);
                        }
                    }
                    assert forall|a: int| 0 <= a < self.roads@.len() implies #[trigger] self.roads@[a].2 > 0 by {
                        if a < n {
                            assert(before.roads@[a].2 > 0);
                        }
                    }
                    self.lemma_entry(n);
                    assert forall|r: u16| #[trigger] self.roads().contains_key(r) == before.roads().insert(
                        road,
                        RoadView { limit, count: 1 },
                    ).contains_key(r) by {
                        if exists|k: int| 0 <= k < before.roads@.len() && before.roads@[k].0 == r {
                            let k = choose|k: int| 0 <= k < before.roads@.len() && before.roads@[k].0 == r;
                            assert(self.roads@[k].0 == r);
                        }
                    }
                    assert forall|r: u16| #[trigger] self.roads().contains_key(r) implies self.roads()[r]
                        == before.roads().insert(road, RoadView { limit, count: 1 })[r] by {
                        let k = choose|k: int| 0 <= k < self.roads@.len() && self.roads@[k].0 == r;
                        self.lemma_entry(k);
                        if r != road {
                            assert(k != n);
                            before.lemma_entry(k);
                        }
                    }
                    assert(self.roads() =~= before.roads().insert(road, RoadView { limit, count: 1 }));
                }
                Ok(())
            },
        }
    }

    /// A camera that disagrees with its road's limit changes nothing (see
    /// `add_camera`); one that agrees is counted on its road with that
    /// limit, and its leaving restores the records as they were before it
    /// came.
    pub proof fn lemma_camera_leaves_no_trace(&self, road: u16, limit: u16)
        requires
            self.wf(),
            self.roads().contains_key(road) ==> self.roads()[road].limit == limit && self.roads()[road].count
                < u64::MAX,
        ensures
            ({
                let m = self.roads();
                let a = if m.contains_key(road) {
                    m.insert(road, RoadView { limit, count: (m[road].count + 1) as u64 })
                } else {
                    m.insert(road, RoadView { limit, count: 1 })
                };
                &&& a.contains_key(road)
                &&& a[road].limit == limit
                &&& a[road].count == (if m.contains_key(road) { m[road].count + 1 } else { 1 })
                &&& (if a[road].count == 1 {
                    a.remove(road)
                } else {
                    a.insert(road, RoadView { limit: a[road].limit, count: (a[road].count - 1) as u64 })
                }) == m
            }),
    {
        let m = self.roads();
        if m.contains_key(road) {
            let i = choose|i: int| 0 <= i < self.roads@.len() && self.roads@[i].0 == road;
            self.lemma_entry(i);
            assert(m[road].count > 0);
            let a = m.insert(road, RoadView { limit, count: (m[road].count + 1) as u64 });
            assert(a.insert(road, RoadView { limit: a[road].limit, count: (a[road].count - 1) as u64 }) =~= m);
        } else {
            let a = m.insert(road, RoadView { limit, count: 1 });
            assert(a.remove(road) =~= m);
        }
    }

    /// Unregisters a camera on `road`; the road goes with its last camera.
    pub fn remove_camera(&mut self, road: u16)
        requires
            old(self).wf(),
        ensures
            final(self).wf(),
            !old(self).roads().contains_key(road) ==> final(self).roads() == old(self).roads(),
            old(self).roads().contains_key(road) && old(self).roads()[road].count == 1 ==> final(self).roads() == old(self).roads().remove(road),
            old(self).roads().contains_key(road) && old(self).roads()[road].count > 1 ==> final(self).roads() == old(self).roads().insert(
                road,
                RoadView {
                    limit: old(self).roads()[road].limit,
                    count: (old(self).roads()[road].count - 1) as u64,
                },
            ),
    {
        match self.find(road) {
            None => {
                proof {
                    if self.roads().contains_key(road) {
                        let k = choose|k: int| 0 <= k < self.roads@.len() && self.roads@[k].0 == road;
                        assert(self.roads@[k].0 != road);
                    }
                }
            },
            Some(i) => {
                proof {
                    self.lemma_entry(i as int);
                }
                let (_, l, c) = self.roads[i];
                let ghost before = *self;
                if c > 1 {
                    self.roads.set(i, (road, l, c - 1));
                    proof {
                        assert forall|a: int, b: int|
                            0 <= a < self.roads@.len() && 0 <= b < self.roads@.len() && a != b implies #[trigger] self.roads@[a].0
                            != #[trigger] self.roads@[b].0 by {
                            assert(before.roads@[a].0 != before.roads@[b].0);
                        }
                        assert forall|a: int| 0 <= a < self.roads@.len() implies #[trigger] self.roads@[a].2 > 0 by {
                            if a != i {
                                assert(before.roads@[a].2 > 0);
                            }
                        }
                        let want = before.roads().insert(road, RoadView { limit: l, count: (c - 1) as u64 });
                        assert forall|r: u16| #[trigger] self.roads().contains_key(r) == want.contains_key(r) by {
                            if exists|k: int| 0 <= k < before.roads@.len() && before.roads@[k].0 == r {
                                let k = choose|k: int| 0 <= k < before.roads@.len() && before.roads@[k].0 == r;
                                assert(self.roads@[k].0 == r);
                            }
                            if exists|k: int| 0 <= k < self.roads@.len() && self.roads@[k].0 == r {
                                let k = choose|k: int| 0 <= k < self.roads@.len() && self.roads@[k].0 == r;
                                assert(before.roads@[k].0 == r);
                            }
                        }
                        assert forall|r: u16| #[trigger] self.roads().contains_key(r) implies self.roads()[r]
                            == want[r] by {
                            let k = choose|k: int| 0 <= k < self.roads@.len() && self.roads@[k].0 == r;
                            self.lemma_entry(k);
                            if r != road {
                                assert(k != i);
                                before.lemma_entry(k);
                            }
                        }
                        assert(self.roads() =~= want);
                    }
                } else {
                    self.roads.remove(i);
                    proof {
                        assert(c == 1) by {
                            assert(before.roads@[i as int].2 > 0);
                        }
                        let want = before.roads().remove(road);
                        assert forall|a: int, b: int|
                            0 <= a < self.roads@.len() && 0 <= b < self.roads@.len() && a != b implies #[trigger] self.roads@[a].0
                            != #[trigger] self.roads@[b].0 by {
                            let a0 = if a < i { a } else { a + 1 };
                            let b0 = if b < i { b } else { b + 1 };
                            assert(before.roads@[a0].0 != before.roads@[b0].0);
                        }
                        assert forall|a: int| 0 <= a < self.roads@.len() implies #[trigger] self.roads@[a].2 > 0 by {
                            let a0 = if a < i { a } else { a + 1 };
                            assert(self.roads@[a] == before.roads@[a0]);
                        }
                        assert forall|r: u16| #[trigger] self.roads().contains_key(r) == want.contains_key(r) by {
                            if exists|k: int| 0 <= k < before.roads@.len() && before.roads@[k].0 == r && r != road {
                                let k = choose|k: int| 0 <= k < before.roads@.len() && before.roads@[k].0 == r && r != road;
                                assert(k != i);
                                let k1 = if k < i { k } else { k - 1 };
                                assert(self.roads@[k1] == before.roads@[k]);
                            }
                            if exists|k: int| 0 <= k < self.roads@.len() && self.roads@[k].0 == r {
                                let k = choose|k: int| 0 <= k < self.roads@.len() && self.roads@[k].0 == r;
                                let k0 = if k < i { k } else { k + 1 };
                                assert(self.roads@[k] == before.roads@[k0]);
                                assert(k0 != i);
                                assert(before.roads@[k0].0 != before.roads@[i as int].0);
                            }
                        }
                        assert forall|r: u16| #[trigger] self.roads().contains_key(r) implies self.roads()[r]
                            == want[r] by {
                            let k = choose|k: int| 0 <= k < self.roads@.len() && self.roads@[k].0 == r;
                            self.lemma_entry(k);
                            let k0 = if k < i { k } else { k + 1 };
                            assert(self.roads@[k] == before.roads@[k0]);
                            before.lemma_entry(k0);
                        }
                        assert(self.roads() =~= want);
                    }
                }
            },
        }
    }
}

/// The first dispatcher, in order, whose roads hold `road`.
pub open spec fn first_cover(ds: Seq<(usize, Seq<u16>)>, road: u16) -> Option<usize>
    decreases ds.len(),
{
    if ds.len() == 0 {
        None
    } else if ds[0].1.contains(road) {
        Some(ds[0].0)
    } else {
        first_cover(ds.drop_first(), road)
    }
}

/// Routing tickets in order: each goes to the first dispatcher covering its
/// road; the others stay pending, in order.
pub open spec fn route(ds: Seq<(usize, Seq<u16>)>, ts: Seq<TicketView>) -> (
    Seq<(usize, TicketView)>,
    Seq<TicketView>,
)
    decreases ts.len(),
{
    if ts.len() == 0 {
        (Seq::empty(), Seq::empty())
    } else {
        let (sent, kept) = route(ds, ts.drop_last());
        match first_cover(ds, ts.last().road) {
            Some(id) => (sent.push((id, ts.last())), kept),
            None => (sent, kept.push(ts.last())),
        }
    }
}

/// The dispatchers and the tickets that wait for one.
pub struct Dispatchers {
    dispatchers: Vec<(usize, Vec<u16>)>,
    pending: Vec<Ticket>,
}

pub open spec fn tickets(ts: Seq<Ticket>) -> Seq<TicketView> {
    ts.map_values(|t: Ticket| t@)
}

pub open spec fn covers_of(v: Seq<(usize, Vec<u16>)>) -> Seq<(usize, Seq<u16>)> {
    v.map_values(|d: (usize, Vec<u16>)| (d.0, d.1@))
}

pub open spec fn deliveries(ds: Seq<(usize, Ticket)>) -> Seq<(usize, TicketView)> {
    ds.map_values(|d: (usize, Ticket)| (d.0, d.1@))
}

impl Dispatchers {
    /// The dispatchers in order of arrival, with their roads.
    pub closed spec fn covers(&self) -> Seq<(usize, Seq<u16>)> {
        covers_of(self.dispatchers@)
    }

    /// The tickets waiting, in order.
    pub closed spec fn waiting(&self) -> Seq<TicketView> {
        tickets(self.pending@)
    }

    pub fn new() -> (r: Dispatchers)
        ensures
            r.covers() == Seq::<(usize, Seq<u16>)>::empty(),
            r.waiting() == Seq::<TicketView>::empty(),
    {
        let r = Dispatchers { dispatchers: Vec::new(), pending: Vec::new() };
        assert(r.covers() =~= Seq::<(usize, Seq<u16>)>::empty());
        assert(r.waiting() =~= Seq::<TicketView>::empty());
        r
    }

    /// The first dispatcher covering `road`.
    fn cover(&self, road: u16) -> (r: Option<usize>)
        ensures
            r == first_cover(self.covers(), road),
    {
        let ghost ds = self.covers();
        let mut i: usize = 0;
        assert(ds.skip(0) =~= ds);
        while i < self.dispatchers.len()
            invariant
                ds == self.covers(),
                i <= ds.len(),
                first_cover(ds, road) == first_cover(ds.skip(i as int), road),
            decreases ds.len() - i,
        {
            assert(ds.skip(i as int).drop_first() =~= ds.skip(i + 1));
            assert(ds[i as int] == (self.dispatchers@[i as int].0, self.dispatchers@[i as int].1@));
            let roads = &self.dispatchers[i].1;
            let mut found = false;
            let mut k: usize = 0;
            while k < roads.len()
                invariant
                    k <= roads@.len(),
                    found == (exists|j: int| 0 <= j < k && roads@[j] == road),
                decreases roads@.len() - k,
            {
                if roads[k] == road {
                    found = true;
                }
                k += 1;
            }
            if found {
                proof {
                    let w = choose|j: int| 0 <= j < roads@.len() && roads@[j] == road;
                    assert(ds[i as int].1[w] == road);
                }
                return Some(self.dispatchers[i].0);
            }
            assert(!ds[i as int].1.contains(road));
            i += 1;
        }
        assert(ds.skip(i as int) =~= Seq::<(usize, Seq<u16>)>::empty());
        None
    }

    /// Hands out every waiting ticket that a dispatcher covers; gives the
    /// tickets with the dispatcher each goes to.
    pub fn send_pending_tickets(&mut self) -> (r: Vec<(usize, Ticket)>)
        ensures
            final(self).covers() == old(self).covers(),
            (deliveries(r@), final(self).waiting()) == route(old(self).covers(), old(self).waiting()),
    {
        let ghost ds = self.covers();
        let ghost ts = self.waiting();
        let mut queue: Vec<Ticket> = Vec::new();
        std::mem::swap(&mut queue, &mut self.pending);
        let mut sent: Vec<(usize, Ticket)> = Vec::new();
        let n = queue.len();
        let mut i: usize = 0;
        assert(ts.take(0) =~= Seq::<TicketView>::empty());
        assert(deliveries(sent@) =~= Seq::<(usize, TicketView)>::empty());
        assert(tickets(self.pending@) =~= Seq::<TicketView>::empty());
        while i < n
            invariant
                ds == self.covers(),
                n == ts.len(),
                i <= n,
                tickets(queue@) == ts.skip(i as int),
                (deliveries(sent@), tickets(self.pending@)) == route(ds, ts.take(i as int)),
            decreases n - i,
        {
            assert(tickets(queue@).len() == queue@.len());
            assert(tickets(queue@)[0] == queue@[0]@);
            let ghost oq = queue@;
            let t = queue.remove(0);
            assert(t@ == ts[i as int]);
            assert(queue@ =~= oq.remove(0));
            assert forall|k: int| 0 <= k < queue@.len() implies #[trigger] tickets(queue@)[k] == ts.skip(i + 1)[k] by {
                assert(queue@[k] == oq[k + 1]);
                assert(tickets(oq)[k + 1] == ts.skip(i as int)[k + 1]);
            }
            assert(tickets(queue@) =~= ts.skip(i + 1));
            assert(ts.take(i + 1).drop_last() =~= ts.take(i as int));
            let ghost before_sent = deliveries(sent@);
            let ghost before_kept = tickets(self.pending@);
            match self.cover(t.road) {
                Some(id) => {
                    sent.push((id, t));
                    assert(deliveries(sent@) =~= before_sent.push((id, ts[i as int])));
                },
                None => {
                    self.pending.push(t);
                    assert(tickets(self.pending@) =~= before_kept.push(ts[i as int]));
                },
            }
            i += 1;
        }
        assert(ts.take(n as int) =~= ts);
        sent
    }

    /// A new dispatcher for `roads`; waiting tickets are then handed out.
    pub fn add_dispatcher(&mut self, id: usize, roads: Vec<u16>) -> (r: Vec<(usize, Ticket)>)
        ensures
            final(self).covers() == old(self).covers().push((id, roads@)),
            (deliveries(r@), final(self).waiting()) == route(
                old(self).covers().push((id, roads@)),
                old(self).waiting(),
            ),
    {
        let ghost before = self.covers();
        self.dispatchers.push((id, roads));
        assert(self.covers() =~= before.push((id, roads@)));
        self.send_pending_tickets()
    }

    /// Forgets the dispatcher `id`.
    pub fn remove_dispatcher(&mut self, id: usize)
        ensures
            final(self).covers() == old(self).covers().filter(|d: (usize, Seq<u16>)| d.0 != id),
            final(self).waiting() == old(self).waiting(),
    {
        let ghost ds = self.covers();
        let mut kept: Vec<(usize, Vec<u16>)> = Vec::new();
        let mut all: Vec<(usize, Vec<u16>)> = Vec::new();
        std::mem::swap(&mut all, &mut self.dispatchers);
        let n = all.len();
        let mut i: usize = 0;
        let ghost pred = |d: (usize, Seq<u16>)| d.0 != id;
        assert(ds.take(0).filter(pred) =~= Seq::<(usize, Seq<u16>)>::empty()) by {
            reveal(Seq::filter);
        }
        while i < n
            invariant
                n == ds.len(),
                i <= n,
                covers_of(all@) == ds.skip(i as int),
                covers_of(kept@) == ds.take(i as int).filter(pred),
                pred == (|d: (usize, Seq<u16>)| d.0 != id),
            decreases n - i,
        {
            assert(covers_of(all@).len() == all@.len());
            assert(covers_of(all@)[0] == (all@[0].0, all@[0].1@));
            let ghost oa = all@;
            let d = all.remove(0);
            let ghost dv = (d.0, d.1@);
            assert(dv == ds[i as int]);
            assert(all@ =~= oa.remove(0));
            assert forall|k: int| 0 <= k < all@.len() implies #[trigger] covers_of(all@)[k] == ds.skip(i + 1)[k] by {
                assert(all@[k] == oa[k + 1]);
                assert(covers_of(oa)[k + 1] == ds.skip(i as int)[k + 1]);
            }
            assert(covers_of(all@) =~= ds.skip(i + 1));
            assert(ds.take(i + 1).drop_last() =~= ds.take(i as int));
            let ghost before = covers_of(kept@);
            assert(ds.take(i + 1).filter(pred) == if pred(dv) {
                ds.take(i as int).filter(pred).push(dv)
            } else {
                ds.take(i as int).filter(pred)
            }) by {
                reveal(Seq::filter);
            }
            if d.0 != id {
                kept.push(d);
                assert(covers_of(kept@) =~= before.push(dv));
            }
            i += 1;
        }
        assert(ds.take(n as int) =~= ds);
        self.dispatchers = kept;
    }

    /// Adds tickets to the waiting ones and hands out what can be.
    pub fn send_tickets(&mut self, tickets_in: Vec<Ticket>) -> (r: Vec<(usize, Ticket)>)
        ensures
            final(self).covers() == old(self).covers(),
            (deliveries(r@), final(self).waiting()) == route(
                old(self).covers(),
                old(self).waiting() + tickets(tickets_in@),
            ),
    {
        let ghost before = self.waiting();
        let mut more = tickets_in;
        let ghost added = tickets(more@);
        self.pending.append(&mut more);
        assert(self.waiting() =~= before + added);
        self.send_pending_tickets()
    }
}

} // verus!
