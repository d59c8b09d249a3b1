use vstd::prelude::*;
use crate::identity::{ClientRequest, Endpoint, RequestKey};

verus! {

/// Why provisioning an endpoint failed.
#[derive(PartialEq, Eq, Structural, Clone, Copy, Debug)]
pub enum ProvisionError {
    /// The control plane or an agent could not be reached.
    Transport,
    /// A reply could not be parsed (an address, or a port outside 16 bits).
    Parse,
    /// The control plane refused the request.
    Rejected,
    /// The requested service is not registered.
    UnknownService,
    /// The segment identifier space is used up.
    Exhausted,
    /// Another caller is already provisioning this identity.
    InFlight,
}

/// What a caller must do after looking an identity up.
#[derive(PartialEq, Eq, Structural, Clone, Copy, Debug)]
pub enum Lookup {
    /// The identity already has this endpoint: no network activity is needed.
    Cached(Endpoint),
    /// The caller is now the one provisioning this identity.
    Provision,
    /// Another caller is provisioning this identity: look it up again later.
    Wait,
}

/// The lookup step: a hit returns the cached endpoint and changes nothing; a
/// miss makes the caller the provisioner, unless (in single-flight mode)
/// another caller already is.
pub open spec fn begin_spec(
    resolved: Map<RequestKey, Endpoint>,
    in_flight: Set<RequestKey>,
    single_flight: bool,
    k: RequestKey,
) -> (Map<RequestKey, Endpoint>, Set<RequestKey>, Lookup) {
    if resolved.contains_key(k) {
        (resolved, in_flight, Lookup::Cached(resolved[k]))
    } else if single_flight && in_flight.contains(k) {
        (resolved, in_flight, Lookup::Wait)
    } else {
        (resolved, in_flight.insert(k), Lookup::Provision)
    }
}

/// The completion step: a failure leaves the cache as it was; a success is
/// stored, except that in single-flight mode an endpoint already cached is
/// kept (in the racing mode the last write wins).
pub open spec fn complete_spec(
    resolved: Map<RequestKey, Endpoint>,
    in_flight: Set<RequestKey>,
    single_flight: bool,
    k: RequestKey,
    outcome: Result<Endpoint, ProvisionError>,
) -> (Map<RequestKey, Endpoint>, Set<RequestKey>, Result<Endpoint, ProvisionError>) {
    match outcome {
        Err(e) => (resolved, in_flight.remove(k), Err(e)),
        Ok(ep) => if single_flight && resolved.contains_key(k) {
            (resolved, in_flight.remove(k), Ok(resolved[k]))
        } else {
            (resolved.insert(k, ep), in_flight.remove(k), Ok(ep))
        },
    }
}

/// The cache from request identities to provisioned endpoints, with the set
/// of identities whose provisioning is under way.
pub struct UpstreamCache {
    entries: Vec<(ClientRequest, Endpoint)>,
    pending: Vec<ClientRequest>,
    single_flight: bool,
    resolved: Ghost<Map<RequestKey, Endpoint>>,
    in_flight: Ghost<Set<RequestKey>>,
}

impl UpstreamCache {
    /// The endpoints cached so far, by identity.
    pub closed spec fn resolved(&self) -> Map<RequestKey, Endpoint> {
        self.resolved@
    }

    /// The identities whose provisioning has begun and not completed.
    pub closed spec fn in_flight(&self) -> Set<RequestKey> {
        self.in_flight@
    }

    pub closed spec fn is_single_flight(&self) -> bool {
        self.single_flight
    }

    pub closed spec fn wf(&self) -> bool {
        &&& forall|i: int|
            0 <= i < self.entries@.len() ==> {
                &&& self.resolved@.contains_key(#[trigger] self.entries@[i].0@)
                &&& self.resolved@[self.entries@[i].0@] == self.entries@[i].1
            }
        &&& forall|k: RequestKey|
            #[trigger] self.resolved@.contains_key(k) ==> exists|i: int|
                0 <= i < self.entries@.len() && #[trigger] self.entries@[i].0@ == k
        &&& forall|i: int, j: int|
            0 <= i < self.entries@.len() && 0 <= j < self.entries@.len() && i != j
                ==> #[trigger] self.entries@[i].0@ != #[trigger] self.entries@[j].0@
        &&& forall|i: int|
            0 <= i < self.pending@.len() ==> self.in_flight@.contains(
                #[trigger] self.pending@[i]@,
            )
        &&& forall|k: RequestKey|
            #[trigger] self.in_flight@.contains(k) ==> exists|i: int|
                0 <= i < self.pending@.len() && #[trigger] self.pending@[i]@ == k
        &&& forall|i: int, j: int|
            0 <= i < self.pending@.len() && 0 <= j < self.pending@.len() && i != j
                ==> #[trigger] self.pending@[i]@ != #[trigger] self.pending@[j]@
    }

    /// An empty cache. With `single_flight`, concurrent misses for one
    /// identity collapse into one provisioning; without it they race and the
    /// last completion wins.
    pub fn new(single_flight: bool) -> (r: UpstreamCache)
        ensures
            r.wf(),
            r.resolved() == Map::<RequestKey, Endpoint>::empty(),
            r.in_flight() == Set::<RequestKey>::empty(),
            r.is_single_flight() == single_flight,
    {
        UpstreamCache {
            entries: Vec::new(),
            pending: Vec::new(),
            single_flight,
            resolved: Ghost(Map::empty()),
            in_flight: Ghost(Set::empty()),
        }
    }

    pub fn single_flight(&self) -> (r: bool)
        ensures
            r == self.is_single_flight(),
    {
        self.single_flight
    }

    fn find_entry(&self, req: &ClientRequest) -> (r: Option<usize>)
        requires
            self.wf(),
        ensures
            r matches Some(i) ==> i < self.entries@.len() && self.entries@[i as int].0@ == req@,
            r is None ==> !self.resolved@.contains_key(req@),
    {
        let mut i: usize = 0;
        while i < self.entries.len()
            invariant
                self.wf(),
                i <= self.entries@.len(),
                forall|j: int| 0 <= j < i ==> #[trigger] self.entries@[j].0@ != req@,
            decreases self.entries@.len() - i,
        {
            if self.entries[i].0.same_as(req) {
                return Some(i);
            }
            i += 1;
        }
        None
    }

    fn find_pending(&self, req: &ClientRequest) -> (r: Option<usize>)
        requires
            self.wf(),
        ensures
            r matches Some(i) ==> i < self.pending@.len() && self.pending@[i as int]@ == req@,
            r is None ==> !self.in_flight@.contains(req@),
    {
        let mut i: usize = 0;
        while i < self.pending.len()
            invariant
                self.wf(),
                i <= self.pending@.len(),
                forall|j: int| 0 <= j < i ==> #[trigger] self.pending@[j]@ != req@,
            decreases self.pending@.len() - i,
        {
            if self.pending[i].same_as(req) {
                return Some(i);
            }
            i += 1;
        }
        None
    }

    /// The cached endpoint of `req`, if any.
    pub fn lookup(&self, req: &ClientRequest) -> (r: Option<Endpoint>)
        requires
            self.wf(),
        ensures
            r == (if self.resolved().contains_key(req@) {
                Some(self.resolved()[req@])
            } else {
                None
            }),
    {
        match self.find_entry(req) {
            Some(i) => Some(self.entries[i].1),
            None => None,
        }
    }
    /// Looks `req` up and, on a miss, registers the caller as its provisioner
    /// (or, in single-flight mode when another caller already is, says to wait).
    pub fn begin(&mut self, req: &ClientRequest) -> (r: Lookup)
        requires
            old(self).wf(),
        ensures
            final(self).wf(),
            final(self).is_single_flight() == old(self).is_single_flight(),
            (final(self).resolved(), final(self).in_flight(), r) == begin_spec(
                old(self).resolved(),
                old(self).in_flight(),
                old(self).is_single_flight(),
                req@,
            ),
    {
        match self.find_entry(req) {
            Some(i) => Lookup::Cached(self.entries[i].1),
            None => {
                let pend = self.find_pending(req);
                if self.single_flight && pend.is_some() {
                    Lookup::Wait
                } else {
                    if pend.is_none() {
                        self.track(req);
                    } else {
                        assert(self.in_flight@.insert(req@) =~= self.in_flight@);
                    }
                    Lookup::Provision
                }
            },
        }
    }

    proof fn lemma_entries_kept(old_c: &Self, new_c: &Self)
        requires
            old_c.wf(),
            new_c.entries == old_c.entries,
            new_c.resolved == old_c.resolved,
        ensures
            forall|k: RequestKey| #[trigger]
                new_c.resolved@.contains_key(k) ==> exists|i: int|
                    0 <= i < new_c.entries@.len() && #[trigger] new_c.entries@[i].0@ == k,
    {
        assert forall|k: RequestKey| #[trigger] new_c.resolved@.contains_key(k) implies exists|i: int|
            0 <= i < new_c.entries@.len() && #[trigger] new_c.entries@[i].0@ == k by {
            let i = choose|i: int|
                0 <= i < old_c.entries@.len() && #[trigger] old_c.entries@[i].0@ == k;
            assert(new_c.entries@[i].0@ == k);
        }
    }

    proof fn lemma_pending_kept(old_c: &Self, new_c: &Self)
        requires
            old_c.wf(),
            new_c.pending == old_c.pending,
            new_c.in_flight == old_c.in_flight,
        ensures
            forall|k: RequestKey| #[trigger]
                new_c.in_flight@.contains(k) ==> exists|i: int|
                    0 <= i < new_c.pending@.len() && #[trigger] new_c.pending@[i]@ == k,
    {
        assert forall|k: RequestKey| #[trigger] new_c.in_flight@.contains(k) implies exists|i: int|
            0 <= i < new_c.pending@.len() && #[trigger] new_c.pending@[i]@ == k by {
            let i = choose|i: int|
                0 <= i < old_c.pending@.len() && #[trigger] old_c.pending@[i]@ == k;
            assert(new_c.pending@[i]@ == k);
        }
    }

    /// Adds `req`, which is not under provisioning, to the identities that are.
    fn track(&mut self, req: &ClientRequest)
        requires
            old(self).wf(),
            !old(self).in_flight@.contains(req@),
        ensures
            final(self).wf(),
            final(self).entries == old(self).entries,
            final(self).resolved == old(self).resolved,
            final(self).single_flight == old(self).single_flight,
            final(self).in_flight@ == old(self).in_flight@.insert(req@),
    {
        let ghost before = self.pending@;
        self.pending.push(req.duplicate());
        self.in_flight = Ghost(self.in_flight@.insert(req@));
        proof {
            Self::lemma_entries_kept(old(self), self);
            let n = before.len() as int;
            assert(self.pending@[n]@ == req@);
            assert forall|i: int| 0 <= i < n implies #[trigger] before[i]@ != req@ by {
                assert(old(self).in_flight@.contains(before[i]@));
            }
            assert forall|i: int, j: int|
                0 <= i < self.pending@.len() && 0 <= j < self.pending@.len() && i != j implies
                #[trigger] self.pending@[i]@ != #[trigger] self.pending@[j]@ by {
                if i < n && j < n {
                    assert(before[i]@ != before[j]@);
                } else if i < n {
                    assert(before[i]@ != req@);
                } else {
                    assert(before[j]@ != req@);
                }
            }
            assert forall|i: int| 0 <= i < self.pending@.len() implies self.in_flight@.contains(
                #[trigger] self.pending@[i]@,
            ) by {
                if i < n {
                    assert(old(self).in_flight@.contains(before[i]@));
                }
            }
            assert forall|k: RequestKey| #[trigger]
                self.in_flight@.contains(k) implies exists|i: int|
                    0 <= i < self.pending@.len() && #[trigger] self.pending@[i]@ == k by {
                if k != req@ {
                    let i = choose|i: int| 0 <= i < n && #[trigger] before[i]@ == k;
                    assert(self.pending@[i]@ == k);
                } else {
                    assert(self.pending@[n]@ == k);
                }
            }
        }
    }

    /// Drops `req` from the identities under provisioning.
    fn release(&mut self, req: &ClientRequest)
        requires
            old(self).wf(),
        ensures
            final(self).wf(),
            final(self).entries == old(self).entries,
            final(self).resolved == old(self).resolved,
            final(self).single_flight == old(self).single_flight,
            final(self).in_flight@ == old(self).in_flight@.remove(req@),
    {
        let found = self.find_pending(req);
        if let Some(j) = found {
            let ghost before = self.pending@;
            self.pending.remove(j);
            proof {
                assert forall|i: int| 0 <= i < self.pending@.len() implies #[trigger]
                    self.pending@[i]@ != req@ by {
                    if i < j {
                        assert(before[i]@ != before[j as int]@);
                    } else {
                        assert(before[i + 1]@ != before[j as int]@);
                    }
                }
            }
        }
        self.in_flight = Ghost(self.in_flight@.remove(req@));
        proof {
            Self::lemma_entries_kept(old(self), self);
            assert forall|k: RequestKey| #[trigger]
                self.in_flight@.contains(k) implies exists|i: int|
                    0 <= i < self.pending@.len() && #[trigger] self.pending@[i]@ == k by {
                let i = choose|i: int|
                    0 <= i < old(self).pending@.len() && #[trigger] old(self).pending@[i]@ == k;
                if let Some(j) = found {
                    if i < j {
                        assert(self.pending@[i]@ == k);
                    } else {
                        assert(i != j);
                        assert(self.pending@[i - 1]@ == k);
                    }
                } else {
                    assert(self.pending@[i]@ == k);
                }
            }
        }
    }

    /// Stores `ep` for `req` (keeping an endpoint already cached in
    /// single-flight mode) and returns the endpoint that is now cached.
    fn store(&mut self, req: &ClientRequest, ep: Endpoint) -> (r: Endpoint)
        requires
            old(self).wf(),
        ensures
            final(self).wf(),
            final(self).pending == old(self).pending,
            final(self).in_flight == old(self).in_flight,
            final(self).single_flight == old(self).single_flight,
            old(self).single_flight && old(self).resolved@.contains_key(req@) ==> {
                &&& r == old(self).resolved@[req@]
                &&& final(self).resolved@ == old(self).resolved@
            },
            !(old(self).single_flight && old(self).resolved@.contains_key(req@)) ==> {
                &&& r == ep
                &&& final(self).resolved@ == old(self).resolved@.insert(req@, ep)
            },
    {
        match self.find_entry(req) {
                Some(i) => {
                    if self.single_flight {
                        self.entries[i].1
                    } else {
                        let ghost before = self.entries@;
                        self.entries.set(i, (req.duplicate(), ep));
                        self.resolved = Ghost(self.resolved@.insert(req@, ep));
                        proof {
                            Self::lemma_pending_kept(old(self), self);
                            assert forall|m: int, j: int|
                                0 <= m < self.entries@.len() && 0 <= j < self.entries@.len() && m
                                    != j implies #[trigger] self.entries@[m].0@
                                    != #[trigger] self.entries@[j].0@ by {
                                assert(before[m].0@ != before[j].0@);
                            }
                            assert forall|k: RequestKey| #[trigger]
                                self.resolved@.contains_key(k) implies exists|m: int|
                                    0 <= m < self.entries@.len() && #[trigger] self.entries@[m].0@
                                        == k by {
                                if k == req@ {
                                    assert(self.entries@[i as int].0@ == k);
                                } else {
                                    let m = choose|m: int|
                                        0 <= m < before.len() && #[trigger] before[m].0@ == k;
                                    assert(self.entries@[m].0@ == k);
                                }
                            }
                        }
                        ep
                    }
                },
                None => {
                    let ghost before = self.entries@;
                    self.entries.push((req.duplicate(), ep));
                    self.resolved = Ghost(self.resolved@.insert(req@, ep));
                    proof {
                        Self::lemma_pending_kept(old(self), self);
                        let n = before.len() as int;
                        assert(self.entries@[n].0@ == req@);
                        assert forall|m: int| 0 <= m < n implies #[trigger] before[m].0@ != req@ by {
                            assert(old(self).resolved@.contains_key(before[m].0@));
                        }
                        assert forall|m: int, j: int|
                            0 <= m < self.entries@.len() && 0 <= j < self.entries@.len() && m != j
                                implies #[trigger] self.entries@[m].0@
                                != #[trigger] self.entries@[j].0@ by {
                            if m < n && j < n {
                                assert(before[m].0@ != before[j].0@);
                            } else if m < n {
                                assert(before[m].0@ != req@);
                            } else {
                                assert(before[j].0@ != req@);
                            }
                        }
                        assert forall|k: RequestKey| #[trigger]
                            self.resolved@.contains_key(k) implies exists|m: int|
                                0 <= m < self.entries@.len() && #[trigger] self.entries@[m].0@
                                    == k by {
                            if k == req@ {
                                assert(self.entries@[n].0@ == k);
                            } else {
                                let m = choose|m: int|
                                    0 <= m < before.len() && #[trigger] before[m].0@ == k;
                                assert(self.entries@[m].0@ == k);
                            }
                        }
                    }
                    ep
                },
            }
    }

    /// Records how the provisioning of `req` ended and releases it.
    pub fn complete(&mut self, req: &ClientRequest, outcome: Result<Endpoint, ProvisionError>) -> (r:
        Result<Endpoint, ProvisionError>)
        requires
            old(self).wf(),
        ensures
            final(self).wf(),
            final(self).is_single_flight() == old(self).is_single_flight(),
            (final(self).resolved(), final(self).in_flight(), r) == complete_spec(
                old(self).resolved(),
                old(self).in_flight(),
                old(self).is_single_flight(),
                req@,
                outcome,
            ),
    {
        self.release(req);
        match outcome {
            Err(e) => Err(e),
            Ok(ep) => Ok(self.store(req, ep)),
        }
    }

    /// Returns the cached endpoint of `req`; on a miss calls `provision` once
    /// and records its outcome. In single-flight mode an identity that another
    /// caller is provisioning yields `InFlight` without calling `provision`.
    pub fn resolve_or_provision<F: FnOnce() -> Result<Endpoint, ProvisionError>>(
        &mut self,
        req: &ClientRequest,
        provision: F,
    ) -> (r: Result<Endpoint, ProvisionError>)
        requires
            old(self).wf(),
            provision.requires(()),
        ensures
            final(self).wf(),
            final(self).is_single_flight() == old(self).is_single_flight(),
            old(self).resolved().contains_key(req@) ==> {
                &&& r == Ok::<Endpoint, ProvisionError>(old(self).resolved()[req@])
                &&& final(self).resolved() == old(self).resolved()
                &&& final(self).in_flight() == old(self).in_flight()
            },
            !old(self).resolved().contains_key(req@) && old(self).is_single_flight()
                && old(self).in_flight().contains(req@) ==> {
                &&& r == Err::<Endpoint, ProvisionError>(ProvisionError::InFlight)
                &&& final(self).resolved() == old(self).resolved()
                &&& final(self).in_flight() == old(self).in_flight()
            },
            !old(self).resolved().contains_key(req@) && !(old(self).is_single_flight()
                && old(self).in_flight().contains(req@)) ==> exists|
                outcome: Result<Endpoint, ProvisionError>,
            |
                #![trigger provision.ensures((), outcome)]
                provision.ensures((), outcome) && (final(self).resolved(), final(self).in_flight(), r)
                    == complete_spec(
                    old(self).resolved(),
                    old(self).in_flight().insert(req@),
                    old(self).is_single_flight(),
                    req@,
                    outcome,
                ),
    {
        match self.begin(req) {
            Lookup::Cached(ep) => Ok(ep),
            Lookup::Wait => Err(ProvisionError::InFlight),
            Lookup::Provision => {
                let outcome = provision();
                self.complete(req, outcome)
            },
        }
    }
}

/// `n` lookups of one identity in a row, with no completion between them:
/// the state after them and what each caller was told.
pub open spec fn begin_many(
    resolved: Map<RequestKey, Endpoint>,
    in_flight: Set<RequestKey>,
    single_flight: bool,
    k: RequestKey,
    n: nat,
) -> (Map<RequestKey, Endpoint>, Set<RequestKey>, Seq<Lookup>)
    decreases n,
{
    if n == 0 {
        (resolved, in_flight, Seq::empty())
    } else {
        let (m, p, told) = begin_many(resolved, in_flight, single_flight, k, (n - 1) as nat);
        let (m2, p2, l) = begin_spec(m, p, single_flight, k);
        (m2, p2, told.push(l))
    }
}

/// A first lookup of an identity never seen before asks for exactly one
/// provisioning; once it succeeds, the next lookup returns that endpoint
/// and changes nothing, so every later lookup returns it too.
pub proof fn lemma_first_lookup_provisions_then_hits(
    resolved: Map<RequestKey, Endpoint>,
    in_flight: Set<RequestKey>,
    single_flight: bool,
    k: RequestKey,
    ep: Endpoint,
)
    requires
        !resolved.contains_key(k),
        !in_flight.contains(k),
    ensures
        ({
            let (m1, p1, l1) = begin_spec(resolved, in_flight, single_flight, k);
            let (m2, p2, r) = complete_spec(m1, p1, single_flight, k, Ok(ep));
            &&& l1 == Lookup::Provision
            &&& r == Ok::<Endpoint, ProvisionError>(ep)
            &&& m2 == resolved.insert(k, ep)
            &&& begin_spec(m2, p2, single_flight, k) == (m2, p2, Lookup::Cached(ep))
        }),
{
    let (m1, p1, l1) = begin_spec(resolved, in_flight, single_flight, k);
    assert(m1 == resolved);
    let (m2, p2, r) = complete_spec(m1, p1, single_flight, k, Ok(ep));
    assert(m2.contains_key(k) && m2[k] == ep);
}

/// A lookup of an identity already cached returns its endpoint and asks for
/// no provisioning: nothing changes.
pub proof fn lemma_cached_lookup_is_silent(
    resolved: Map<RequestKey, Endpoint>,
    in_flight: Set<RequestKey>,
    single_flight: bool,
    k: RequestKey,
    n: nat,
)
    requires
        resolved.contains_key(k),
    ensures
        begin_spec(resolved, in_flight, single_flight, k) == (
            resolved,
            in_flight,
            Lookup::Cached(resolved[k]),
        ),
        begin_many(resolved, in_flight, single_flight, k, n) == (
            resolved,
            in_flight,
            Seq::new(n, |i: int| Lookup::Cached(resolved[k])),
        ),
    decreases n,
{
    if n > 0 {
        lemma_cached_lookup_is_silent(resolved, in_flight, single_flight, k, (n - 1) as nat);
        let (m, p, told) = begin_many(resolved, in_flight, single_flight, k, (n - 1) as nat);
        assert(told.push(Lookup::Cached(resolved[k])) =~= Seq::new(
            n,
            |i: int| Lookup::Cached(resolved[k]),
        ));
    } else {
        assert(Seq::<Lookup>::empty() =~= Seq::new(n, |i: int| Lookup::Cached(resolved[k])));
    }
}

/// In single-flight mode, `n` concurrent lookups of an identity never seen
/// before ask for exactly one provisioning: the first caller provisions and
/// every other caller waits. When that provisioning succeeds, it and every
/// waiter that looks again get the one same endpoint.
pub proof fn lemma_single_flight(
    resolved: Map<RequestKey, Endpoint>,
    in_flight: Set<RequestKey>,
    k: RequestKey,
    n: nat,
    ep: Endpoint,
)
    requires
        !resolved.contains_key(k),
        !in_flight.contains(k),
        n >= 1,
    ensures
        ({
            let (m1, p1, told) = begin_many(resolved, in_flight, true, k, n);
            let (m2, p2, r) = complete_spec(m1, p1, true, k, Ok(ep));
            &&& told.len() == n
            &&& told[0] == Lookup::Provision
            &&& forall|i: int| 1 <= i < n ==> told[i] == Lookup::Wait
            &&& r == Ok::<Endpoint, ProvisionError>(ep)
            &&& begin_many(m2, p2, true, k, n) == (
                m2,
                p2,
                Seq::new(n, |i: int| Lookup::Cached(ep)),
            )
        }),
    decreases n,
{
    lemma_begin_many_single_flight(resolved, in_flight, k, n);
    let (m1, p1, told) = begin_many(resolved, in_flight, true, k, n);
    let (m2, p2, r) = complete_spec(m1, p1, true, k, Ok(ep));
    lemma_cached_lookup_is_silent(m2, p2, true, k, n);
}

proof fn lemma_begin_many_single_flight(
    resolved: Map<RequestKey, Endpoint>,
    in_flight: Set<RequestKey>,
    k: RequestKey,
    n: nat,
)
    requires
        !resolved.contains_key(k),
        !in_flight.contains(k),
        n >= 1,
    ensures
        ({
            let (m1, p1, told) = begin_many(resolved, in_flight, true, k, n);
            &&& m1 == resolved
            &&& p1 == in_flight.insert(k)
            &&& told.len() == n
            &&& told[0] == Lookup::Provision
            &&& forall|i: int| 1 <= i < n ==> told[i] == Lookup::Wait
        }),
    decreases n,
{
    let (m, p, told) = begin_many(resolved, in_flight, true, k, (n - 1) as nat);
    if n > 1 {
        lemma_begin_many_single_flight(resolved, in_flight, k, (n - 1) as nat);
        assert(begin_spec(m, p, true, k) == (m, p, Lookup::Wait));
    } else {
        assert(begin_many(resolved, in_flight, true, k, 0) == (
            resolved,
            in_flight,
            Seq::<Lookup>::empty(),
        ));
    }
}

/// In the racing mode, `n` concurrent lookups of an identity never seen
/// before each ask for a provisioning of their own, and of two successful
/// completions the later one is what stays cached.
pub proof fn lemma_racing_mode(
    resolved: Map<RequestKey, Endpoint>,
    in_flight: Set<RequestKey>,
    k: RequestKey,
    n: nat,
    first: Endpoint,
    second: Endpoint,
)
    requires
        !resolved.contains_key(k),
    ensures
        ({
            let (m1, p1, told) = begin_many(resolved, in_flight, false, k, n);
            let (m2, p2, r1) = complete_spec(m1, p1, false, k, Ok(first));
            let (m3, p3, r2) = complete_spec(m2, p2, false, k, Ok(second));
            &&& told == Seq::new(n, |i: int| Lookup::Provision)
            &&& r1 == Ok::<Endpoint, ProvisionError>(first)
            &&& r2 == Ok::<Endpoint, ProvisionError>(second)
            &&& m3 == resolved.insert(k, second)
        }),
    decreases n,
{
    lemma_begin_many_racing(resolved, in_flight, k, n);
    let (m1, p1, told) = begin_many(resolved, in_flight, false, k, n);
    let (m2, p2, r1) = complete_spec(m1, p1, false, k, Ok(first));
    assert(resolved.insert(k, first).insert(k, second) =~= resolved.insert(k, second));
}

proof fn lemma_begin_many_racing(
    resolved: Map<RequestKey, Endpoint>,
    in_flight: Set<RequestKey>,
    k: RequestKey,
    n: nat,
)
    requires
        !resolved.contains_key(k),
    ensures
        ({
            let (m1, p1, told) = begin_many(resolved, in_flight, false, k, n);
            &&& m1 == resolved
            &&& told == Seq::new(n, |i: int| Lookup::Provision)
        }),
    decreases n,
{
    if n > 0 {
        lemma_begin_many_racing(resolved, in_flight, k, (n - 1) as nat);
        let (m, p, told) = begin_many(resolved, in_flight, false, k, (n - 1) as nat);
        assert(told.push(Lookup::Provision) =~= Seq::new(n, |i: int| Lookup::Provision));
    } else {
        assert(Seq::<Lookup>::empty() =~= Seq::new(n, |i: int| Lookup::Provision));
    }
}

/// A provisioning that fails leaves the cached endpoints as they were and
/// reports the failure.
pub proof fn lemma_failed_provision_keeps_cache(
    resolved: Map<RequestKey, Endpoint>,
    in_flight: Set<RequestKey>,
    single_flight: bool,
    k: RequestKey,
    e: ProvisionError,
)
    ensures
        ({
            let (m, p, r) = complete_spec(resolved, in_flight, single_flight, k, Err(e));
            &&& m == resolved
            &&& r == Err::<Endpoint, ProvisionError>(e)
            &&& !p.contains(k)
        }),
{
}

/// In single-flight mode a cached endpoint never changes: a later
/// completion for the same identity returns it and keeps it.
pub proof fn lemma_single_flight_entries_are_stable(
    resolved: Map<RequestKey, Endpoint>,
    in_flight: Set<RequestKey>,
    k: RequestKey,
    outcome: Result<Endpoint, ProvisionError>,
)
    requires
        resolved.contains_key(k),
    ensures
        ({
            let (m, p, r) = complete_spec(resolved, in_flight, true, k, outcome);
            &&& m == resolved
            &&& outcome is Ok ==> r == Ok::<Endpoint, ProvisionError>(resolved[k])
        }),
{
}

} // verus!
