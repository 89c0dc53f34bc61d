//! Single-cluster (Wolff) updates on the Ising lattice.
//!
//! One step is one cluster flip: pick a uniformly random seed site, grow
//! the cluster of same-spin sites by adding each boundary neighbour with
//! probability p_add = 1 - exp(-2/T), then flip the whole cluster. Every
//! proposed addition is accepted or rejected exactly once, so there is no
//! rejection rate: the reported statistic is the cluster size.
//!
//! The seed site is drawn here ([`WolffCluster::start_random`]). The growth
//! is a depth-first search driven from outside: the search hands
//! out each candidate neighbour that needs a bond decision
//! ([`WolffCluster::next_candidate`]), the caller draws the random decision
//! and reports it back ([`WolffCluster::decide`]); when no candidate is left,
//! [`WolffCluster::finish`] flips the cluster.

use rand::rngs::StdRng;
use vstd::prelude::*;

use crate::ising::draw::random_site;
use crate::ising::lattice::{Lattice, lemma_neighbour_sites_in_range, neighbour_sites, spin_total};
use crate::sums::sum;

verus! {

/// Outcome of one Wolff step.
#[derive(Clone, Copy, Debug, PartialEq)]
pub struct WolffStats {
    /// Number of spins flipped in this move (the cluster size, >= 1).
    pub cluster_size: usize,
}

/// Number of `true` entries.
pub open spec fn count_true(b: Seq<bool>) -> int {
    sum(b.len() as int, |k: int| if b[k] {
        1int
    } else {
        0int
    })
}

/// Site `b` is one of the four periodic neighbours of site `a`.
pub open spec fn adjacent(l: int, a: int, b: int) -> bool {
    neighbour_sites(l, a).contains(b)
}

/// The depth-first search for the next bond candidate. The search holds a
/// stack of members whose neighbours are still to be examined and a scan at
/// position `pos` (0..=4) over the neighbours of member `site`. It scans on
/// for the first neighbour with the cluster's spin that is not a member,
/// popping the top of the stack to start a new scan whenever one is
/// complete. Gives the candidate (`None` once the stack is exhausted) and
/// the stack, scanned site and scan position after it.
pub open spec fn dfs_next(
    stack: Seq<usize>,
    site: int,
    pos: int,
    spins: Seq<i8>,
    cluster: Seq<bool>,
    spin: i8,
    l: int,
) -> (Option<int>, Seq<usize>, int, int)
    decreases stack.len(), 4 - pos,
{
    if pos < 4 {
        let nb = neighbour_sites(l, site)[pos];
        if spins[nb] == spin && !cluster[nb] {
            (Some(nb), stack, site, pos + 1)
        } else {
            dfs_next(stack, site, pos + 1, spins, cluster, spin, l)
        }
    } else if stack.len() == 0 {
        (None, stack, site, pos)
    } else {
        dfs_next(stack.drop_last(), stack.last() as int, 0, spins, cluster, spin, l)
    }
}

/// A cluster of the Wolff algorithm while it grows.
pub struct WolffCluster {
    spin: i8,
    seed: usize,
    in_cluster: Vec<bool>,
    stack: Vec<usize>,
    size: usize,
    current: usize,
    current_nbs: [usize; 4],
    next_nb: usize,
    candidate: usize,
    pending: bool,
    sites: Ghost<Seq<i8>>,
    side: Ghost<int>,
    order: Ghost<Seq<int>>,
    rejected: Ghost<Set<int>>,
}

impl WolffCluster {
    /// Membership of every site, indexed like the lattice.
    pub closed spec fn cluster(&self) -> Seq<bool> {
        self.in_cluster@
    }

    /// The members in the order they joined; the seed first.
    pub closed spec fn members(&self) -> Seq<int> {
        self.order@
    }

    /// The sites whose bond was offered and refused.
    pub closed spec fn rejected(&self) -> Set<int> {
        self.rejected@
    }

    /// The seed site.
    pub closed spec fn seed_site(&self) -> int {
        self.seed as int
    }

    /// The spin shared by every member.
    pub closed spec fn cluster_spin(&self) -> i8 {
        self.spin
    }

    /// A candidate is waiting for its bond decision.
    pub closed spec fn is_pending(&self) -> bool {
        self.pending
    }

    /// The candidate waiting for its bond decision.
    pub closed spec fn candidate_site(&self) -> int {
        self.candidate as int
    }

    /// The members whose neighbours are still to be examined; the top last.
    pub closed spec fn stack_sites(&self) -> Seq<usize> {
        self.stack@
    }

    /// The member whose neighbours are being scanned.
    pub closed spec fn scan_site(&self) -> int {
        self.current as int
    }

    /// How many neighbours of the scanned member have been examined (4 when
    /// no scan is in progress).
    pub closed spec fn scan_pos(&self) -> int {
        self.next_nb as int
    }

    /// The search is exhausted: every member's neighbours have been examined.
    pub closed spec fn done(&self) -> bool {
        &&& self.stack@.len() == 0
        &&& self.next_nb == 4
        &&& !self.pending
    }

    /// The current scan (if any) is in progress.
    spec fn scanning(&self) -> bool {
        self.next_nb < 4 || self.pending
    }

    /// Member `p` has been popped and all of its neighbours examined.
    spec fn processed(&self, p: int) -> bool {
        &&& 0 <= p < self.in_cluster@.len()
        &&& self.in_cluster@[p]
        &&& !self.stack@.contains(p as usize)
        &&& !(self.scanning() && p == self.current)
    }

    /// Neighbour `q` of a member is settled: it has the other spin, is a
    /// member, or its bond was refused.
    spec fn settled(&self, q: int) -> bool {
        self.sites@[q] != self.spin || self.in_cluster@[q] || self.rejected@.contains(q)
    }

    /// The internal invariant, for the lattice the cluster grows on.
    pub closed spec fn wf(&self, lat: &Lattice) -> bool {
        let n = self.in_cluster@.len();
        let l = self.side@;
        &&& lat.wf()
        &&& lat.spins@ == self.sites@
        &&& lat.l as int == l
        &&& n == self.sites@.len()
        &&& self.seed < n
        &&& self.spin == self.sites@[self.seed as int]
        // membership and join order agree; the seed joined first
        &&& self.order@.len() >= 1
        &&& self.order@[0] == self.seed as int
        &&& self.order@.no_duplicates()
        &&& forall|k: int| 0 <= k < n ==> (#[trigger] self.in_cluster@[k] <==> self.order@.contains(k))
        &&& forall|j: int| 0 <= j < self.order@.len() ==> 0 <= #[trigger] self.order@[j] < n
        // every later member is adjacent to an earlier one
        &&& forall|j: int|
            0 < j < self.order@.len() ==> exists|i: int|
                0 <= i < j && adjacent(l, self.order@[i], #[trigger] self.order@[j])
        // members share the seed's spin
        &&& forall|k: int| 0 <= k < n && #[trigger] self.in_cluster@[k] ==> self.sites@[k] == self.spin
        // every member is popped (size) or still on the stack
        &&& self.size + self.stack@.len() == count_true(self.in_cluster@)
        &&& self.size + self.stack@.len() >= 1
        &&& self.stack@.no_duplicates()
        &&& forall|j: int|
            0 <= j < self.stack@.len() ==> #[trigger] self.stack@[j] < n && self.in_cluster@[self.stack@[j] as int]
        // the scan of the current site
        &&& self.next_nb <= 4
        &&& self.scanning() ==> {
            &&& self.current < n
            &&& self.in_cluster@[self.current as int]
            &&& !self.stack@.contains(self.current)
            &&& forall|k: int|
                0 <= k < 4 ==> #[trigger] self.current_nbs@[k] as int == neighbour_sites(
                    l,
                    self.current as int,
                )[k]
            &&& forall|k: int| 0 <= k < 4 ==> #[trigger] self.current_nbs@[k] < n
            &&& forall|k: int|
                0 <= k < self.next_nb && !(self.pending && k == self.next_nb - 1) ==> self.settled(
                    #[trigger] self.current_nbs@[k] as int,
                )
        }
        &&& self.pending ==> {
            &&& self.next_nb >= 1
            &&& self.candidate == self.current_nbs@[self.next_nb - 1]
            &&& self.sites@[self.candidate as int] == self.spin
            &&& !self.in_cluster@[self.candidate as int]
        }
        // processed members have all their neighbours settled
        &&& forall|p: int, k: int|
            self.processed(p) && 0 <= k < 4 ==> self.settled(
                #[trigger] neighbour_sites(l, p)[k],
            )
    }
}

/// The indicator sum of a sequence with a single `true` at `p` is one.
proof fn lemma_count_single(n: int, p: int)
    requires
        0 <= p < n,
    ensures
        count_true(Seq::new(n as nat, |k: int| k == p)) == 1,
{
    let b = Seq::new(n as nat, |k: int| k == p);
    let f = |k: int| if b[k] {
        1int
    } else {
        0int
    };
    let z = |k: int| 0int;
    crate::sums::lemma_sum_diff_one(n, f, z, p);
    crate::sums::lemma_sum_const(n, z, 0);
}

/// At most every entry is `true`.
proof fn lemma_count_true_bound(b: Seq<bool>)
    ensures
        0 <= count_true(b) <= b.len(),
{
    let f = |k: int| if b[k] {
        1int
    } else {
        0int
    };
    crate::sums::lemma_sum_bound(b.len() as int, f, 1);
    lemma_count_true_nonneg(b.len() as int, f);
}

/// Sums of 0/1 terms are nonnegative.
proof fn lemma_count_true_nonneg(n: int, f: spec_fn(int) -> int)
    requires
        forall|k: int| 0 <= k < n ==> 0 <= #[trigger] f(k),
    ensures
        0 <= sum(n, f),
    decreases n,
{
    if n > 0 {
        lemma_count_true_nonneg(n - 1, f);
    }
}

impl WolffCluster {
    /// Begin a cluster at `seed`: only the seed is a member, and it waits on
    /// the stack to have its neighbours examined.
    pub fn start(lat: &Lattice, seed: usize) -> (c: WolffCluster)
        requires
            lat.wf(),
            seed < lat.spins@.len(),
        ensures
            c.wf(lat),
            c.cluster() == Seq::new(lat.spins@.len(), |k: int| k == seed as int),
            c.members() == seq![seed as int],
            c.rejected() == Set::<int>::empty(),
            c.seed_site() == seed as int,
            c.cluster_spin() == lat.spins@[seed as int],
            c.stack_sites() == seq![seed],
            c.scan_pos() == 4,
            !c.is_pending(),
            !c.done(),
    {
        let n = lat.spins.len();
        let spin = lat.get(seed);
        let mut in_cluster: Vec<bool> = Vec::with_capacity(n);
        let mut k: usize = 0;
        while k < n
            invariant
                k <= n,
                seed < n,
                in_cluster@.len() == k,
                forall|j: int| 0 <= j < k ==> #[trigger] in_cluster@[j] == (j == seed as int),
            decreases n - k,
        {
            in_cluster.push(k == seed);
            k = k + 1;
        }
        let mut stack: Vec<usize> = Vec::new();
        stack.push(seed);
        let ghost order = seq![seed as int];
        proof {
            assert(in_cluster@ =~= Seq::new(n as nat, |j: int| j == seed as int));
            lemma_count_single(n as int, seed as int);
            assert forall|j: int| 0 <= j < n implies (#[trigger] in_cluster@[j] <==> order.contains(j)) by {
                if j == seed as int {
                    assert(order[0] == j);
                }
            }
        }
        let c = WolffCluster {
            spin,
            seed,
            in_cluster,
            stack,
            size: 0,
            current: seed,
            current_nbs: [seed, seed, seed, seed],
            next_nb: 4,
            candidate: seed,
            pending: false,
            sites: Ghost(lat.spins@),
            side: Ghost(lat.l as int),
            order: Ghost(order),
            rejected: Ghost(Set::empty()),
        };
        proof {
            assert(count_true(c.in_cluster@) == 1);
            assert(c.order@.no_duplicates());
            assert(forall|k: int| 0 <= k < n ==> (#[trigger] c.in_cluster@[k] <==> c.order@.contains(k)));
            assert(forall|k: int| 0 <= k < n && #[trigger] c.in_cluster@[k] ==> c.sites@[k] == c.spin);
            assert(forall|j: int| 0 <= j < c.stack@.len() ==> #[trigger] c.stack@[j] < n && c.in_cluster@[c.stack@[j] as int]);
            assert(c.stack@[0] == seed);
            assert forall|p: int| !c.processed(p) by {
                if 0 <= p < n && c.in_cluster@[p] {
                    assert(p == seed as int);
                    assert(c.stack@.contains(seed));
                }
            }
        }
        c
    }
}

impl WolffCluster {
    /// Begin a cluster at a seed site drawn uniformly at random.
    pub fn start_random(lat: &Lattice, rng: &mut StdRng) -> (c: WolffCluster)
        requires
            lat.wf(),
            lat.spins@.len() > 0,
        ensures
            c.wf(lat),
            0 <= c.seed_site() < lat.spins@.len(),
            c.cluster() == Seq::new(lat.spins@.len(), |k: int| k == c.seed_site()),
            c.members() == seq![c.seed_site()],
            c.rejected() == Set::<int>::empty(),
            c.cluster_spin() == lat.spins@[c.seed_site()],
            c.stack_sites() == seq![c.seed_site() as usize],
            c.scan_pos() == 4,
            !c.is_pending(),
            !c.done(),
    {
        let seed = random_site(rng, lat.spins.len());
        WolffCluster::start(lat, seed)
    }

    /// Advance the depth-first search to the next neighbour that needs a
    /// bond decision: a site with the cluster's spin that is not yet a
    /// member, found exactly as `dfs_next` describes. `None` when the search
    /// is exhausted.
    pub fn next_candidate(&mut self, lat: &Lattice) -> (r: Option<usize>)
        requires
            old(self).wf(lat),
            !old(self).is_pending(),
        ensures
            final(self).wf(lat),
            final(self).cluster() == old(self).cluster(),
            final(self).members() == old(self).members(),
            final(self).rejected() == old(self).rejected(),
            final(self).seed_site() == old(self).seed_site(),
            final(self).cluster_spin() == old(self).cluster_spin(),
            (match r {
                Some(c) => {
                    &&& final(self).is_pending()
                    &&& final(self).candidate_site() == c as int
                    &&& c < lat.spins@.len()
                    &&& lat.spins@[c as int] == old(self).cluster_spin()
                    &&& !old(self).cluster()[c as int]
                    &&& exists|i: int|
                        0 <= i < old(self).members().len() && adjacent(
                            lat.l as int,
                            #[trigger] old(self).members()[i],
                            c as int,
                        )
                },
                None => final(self).done(),
            }),
            ({
                let next = dfs_next(
                    old(self).stack_sites(),
                    old(self).scan_site(),
                    old(self).scan_pos(),
                    lat.spins@,
                    old(self).cluster(),
                    old(self).cluster_spin(),
                    lat.l as int,
                );
                &&& next.0 == match r {
                    Some(c) => Some(c as int),
                    None => None::<int>,
                }
                &&& final(self).stack_sites() == next.1
                &&& final(self).scan_site() == next.2
                &&& final(self).scan_pos() == next.3
            }),
    {
        let ghost l = self.side@;
        let ghost target = dfs_next(
            self.stack@,
            self.current as int,
            self.next_nb as int,
            lat.spins@,
            self.in_cluster@,
            self.spin,
            l,
        );
        loop
            invariant
                self.wf(lat),
                !self.pending,
                l == self.side@,
                self.in_cluster@ == old(self).in_cluster@,
                self.order@ == old(self).order@,
                self.rejected@ == old(self).rejected@,
                self.seed == old(self).seed,
                self.spin == old(self).spin,
                target == dfs_next(
                    old(self).stack@,
                    old(self).current as int,
                    old(self).next_nb as int,
                    lat.spins@,
                    old(self).in_cluster@,
                    old(self).spin,
                    l,
                ),
                dfs_next(
                    self.stack@,
                    self.current as int,
                    self.next_nb as int,
                    lat.spins@,
                    self.in_cluster@,
                    self.spin,
                    l,
                ) == target,
            decreases self.stack@.len() * 5 + (4 - self.next_nb),
        {
            let ghost prev = *self;
            if self.next_nb < 4 {
                let nb = self.current_nbs[self.next_nb];
                self.next_nb = self.next_nb + 1;
                if lat.get(nb) == self.spin && !self.in_cluster[nb] {
                    self.candidate = nb;
                    self.pending = true;
                    proof {
                        let cur = self.current as int;
                        assert(self.order@.contains(cur));
                        let i = choose|i: int| 0 <= i < self.order@.len() && self.order@[i] == cur;
                        assert(neighbour_sites(l, cur)[self.next_nb - 1] == nb as int);
                        assert(adjacent(l, self.order@[i], nb as int));
                        assert(old(self).members()[i] == self.order@[i]);
                        assert forall|p: int, k: int| self.processed(p) && 0 <= k < 4 implies self.settled(
                            #[trigger] neighbour_sites(l, p)[k],
                        ) by {
                            assert(prev.processed(p));
                        }
                    }
                    return Some(nb);
                }
                proof {
                    assert(self.settled(nb as int));
                    assert forall|p: int, k: int| self.processed(p) && 0 <= k < 4 implies self.settled(
                        #[trigger] neighbour_sites(l, p)[k],
                    ) by {
                        if p != self.current as int || self.next_nb < 4 {
                            assert(prev.processed(p));
                        } else {
                            assert(self.current_nbs@[k] as int == neighbour_sites(l, p)[k]);
                            assert(self.settled(self.current_nbs@[k] as int));
                        }
                    }
                }
            } else {
                match self.stack.pop() {
                    Some(site) => {
                        proof {
                            assert(prev.stack@[prev.stack@.len() - 1] == site);
                            assert(self.stack@ =~= prev.stack@.drop_last());
                            assert(!self.stack@.contains(site)) by {
                                if self.stack@.contains(site) {
                                    let j = choose|j: int| 0 <= j < self.stack@.len() && self.stack@[j] == site;
                                    assert(prev.stack@[j] == prev.stack@[prev.stack@.len() - 1]);
                                }
                            }
                        }
                        proof {
                            lemma_count_true_bound(self.in_cluster@);
                        }
                        self.size = self.size + 1;
                        self.current = site;
                        self.current_nbs = lat.neighbours(site);
                        self.next_nb = 0;
                        proof {
                            assert forall|p: int, k: int| self.processed(p) && 0 <= k < 4 implies self.settled(
                                #[trigger] neighbour_sites(l, p)[k],
                            ) by {
                                assert(!prev.stack@.contains(p as usize)) by {
                                    if prev.stack@.contains(p as usize) {
                                        let j = choose|j: int| 0 <= j < prev.stack@.len() && prev.stack@[j] == p as usize;
                                        if j < prev.stack@.len() - 1 {
                                            assert(self.stack@[j] == p as usize);
                                        }
                                    }
                                }
                                assert(prev.processed(p));
                            }
                        }
                    },
                    None => {
                        return None;
                    },
                }
            }
        }
    }
}

impl WolffCluster {
    /// Record the bond decision for the pending candidate: an accepted
    /// candidate joins the cluster (and waits on the stack to have its own
    /// neighbours examined); a refused one is remembered as refused.
    pub fn decide(&mut self, lat: &Lattice, accept: bool)
        requires
            old(self).wf(lat),
            old(self).is_pending(),
        ensures
            final(self).wf(lat),
            !final(self).is_pending(),
            final(self).seed_site() == old(self).seed_site(),
            final(self).cluster_spin() == old(self).cluster_spin(),
            final(self).scan_site() == old(self).scan_site(),
            final(self).scan_pos() == old(self).scan_pos(),
            accept ==> {
                &&& final(self).cluster() == old(self).cluster().update(old(self).candidate_site(), true)
                &&& final(self).members() == old(self).members().push(old(self).candidate_site())
                &&& final(self).rejected() == old(self).rejected()
                &&& final(self).stack_sites() == old(self).stack_sites().push(
                    old(self).candidate_site() as usize,
                )
            },
            !accept ==> {
                &&& final(self).cluster() == old(self).cluster()
                &&& final(self).members() == old(self).members()
                &&& final(self).rejected() == old(self).rejected().insert(old(self).candidate_site())
                &&& final(self).stack_sites() == old(self).stack_sites()
            },
    {
        let ghost prev = *self;
        let ghost l = self.side@;
        let c = self.candidate;
        self.pending = false;
        if accept {
            self.in_cluster.set(c, true);
            self.stack.push(c);
            self.order = Ghost(self.order@.push(c as int));
            proof {
                let n = prev.in_cluster@.len() as int;
                // one more member
                crate::sums::lemma_sum_diff_one(
                    n,
                    |k: int| if self.in_cluster@[k] {
                        1int
                    } else {
                        0int
                    },
                    |k: int| if prev.in_cluster@[k] {
                        1int
                    } else {
                        0int
                    },
                    c as int,
                );
                assert(!prev.order@.contains(c as int));
                assert forall|k: int| 0 <= k < n implies (#[trigger] self.in_cluster@[k]
                    <==> self.order@.contains(k)) by {
                    if k == c as int {
                        assert(self.order@[self.order@.len() - 1] == k);
                    } else if prev.order@.contains(k) {
                        let j = choose|j: int| 0 <= j < prev.order@.len() && prev.order@[j] == k;
                        assert(self.order@[j] == k);
                    } else if self.order@.contains(k) {
                        let j = choose|j: int| 0 <= j < self.order@.len() && self.order@[j] == k;
                        assert(prev.order@[j] == k);
                    }
                }
                // the newcomer is adjacent to the member being scanned
                let cur = self.current as int;
                assert(prev.order@.contains(cur));
                let ic = choose|i: int| 0 <= i < prev.order@.len() && prev.order@[i] == cur;
                assert(neighbour_sites(l, cur)[self.next_nb - 1] == c as int);
                assert forall|j: int| 0 < j < self.order@.len() implies exists|i: int|
                    0 <= i < j && adjacent(l, self.order@[i], #[trigger] self.order@[j]) by {
                    if j == self.order@.len() - 1 {
                        assert(self.order@[ic] == cur);
                        assert(adjacent(l, self.order@[ic], self.order@[j]));
                    } else {
                        assert(self.order@[j] == prev.order@[j]);
                        let i = choose|i: int| 0 <= i < j && adjacent(l, prev.order@[i], #[trigger] prev.order@[j]);
                        assert(self.order@[i] == prev.order@[i]);
                    }
                }
                // the stack stays duplicate-free and inside the cluster
                assert(!prev.stack@.contains(c)) by {
                    if prev.stack@.contains(c) {
                        let j = choose|j: int| 0 <= j < prev.stack@.len() && prev.stack@[j] == c;
                    }
                }
                assert forall|j: int| 0 <= j < self.stack@.len() implies #[trigger] self.stack@[j] < n
                    && self.in_cluster@[self.stack@[j] as int] by {
                    if j < prev.stack@.len() {
                        assert(self.stack@[j] == prev.stack@[j]);
                    }
                }
                assert(!self.stack@.contains(self.current)) by {
                    if self.stack@.contains(self.current) {
                        let j = choose|j: int| 0 <= j < self.stack@.len() && self.stack@[j] == self.current;
                        if j < prev.stack@.len() {
                            assert(prev.stack@[j] == self.current);
                        }
                    }
                }
                assert forall|p: int, k: int| self.processed(p) && 0 <= k < 4 implies self.settled(
                    #[trigger] neighbour_sites(l, p)[k],
                ) by {
                    let q = neighbour_sites(l, p)[k];
                    lemma_neighbour_sites_in_range(l, p);
                    assert(p != c as int) by {
                        assert(self.stack@[self.stack@.len() - 1] == c);
                    }
                    assert(!prev.stack@.contains(p as usize)) by {
                        if prev.stack@.contains(p as usize) {
                            let j = choose|j: int| 0 <= j < prev.stack@.len() && prev.stack@[j] == p as usize;
                            assert(self.stack@[j] == p as usize);
                        }
                    }
                    if p == cur {
                        assert(self.current_nbs@[k] as int == q);
                        assert(prev.settled(q) || k == self.next_nb - 1);
                    } else {
                        assert(prev.processed(p));
                        assert(prev.settled(q));
                    }
                }
                assert forall|k: int| 0 <= k < self.next_nb implies self.settled(
                    #[trigger] self.current_nbs@[k] as int,
                ) by {
                    if k != self.next_nb - 1 {
                        assert(prev.settled(self.current_nbs@[k] as int));
                    }
                }
            }
        } else {
            self.rejected = Ghost(self.rejected@.insert(c as int));
            proof {
                assert forall|p: int, k: int| self.processed(p) && 0 <= k < 4 implies self.settled(
                    #[trigger] neighbour_sites(l, p)[k],
                ) by {
                    let q = neighbour_sites(l, p)[k];
                    lemma_neighbour_sites_in_range(l, p);
                    if p == self.current as int {
                        assert(self.current_nbs@[k] as int == q);
                        assert(prev.settled(q) || k == self.next_nb - 1);
                    } else {
                        assert(prev.processed(p));
                        assert(prev.settled(q));
                    }
                }
                assert forall|k: int| 0 <= k < self.next_nb implies self.settled(
                    #[trigger] self.current_nbs@[k] as int,
                ) by {
                    if k != self.next_nb - 1 {
                        assert(prev.settled(self.current_nbs@[k] as int));
                    }
                }
            }
        }
    }
}

/// Number of sites whose spin differs between `a` and `b`.
pub open spec fn changed_sites(a: Seq<i8>, b: Seq<i8>) -> int {
    sum(a.len() as int, |k: int| if a[k] != b[k] {
        1int
    } else {
        0int
    })
}

impl WolffCluster {
    /// Flip every member of the finished cluster. Returns the cluster size.
    pub fn finish(self, lat: &mut Lattice) -> (stats: WolffStats)
        requires
            self.wf(old(lat)),
            self.done(),
        ensures
            final(lat).wf(),
            final(lat).l == old(lat).l,
            final(lat).spins@.len() == old(lat).spins@.len(),
            forall|k: int|
                0 <= k < old(lat).spins@.len() ==> #[trigger] final(lat).spins@[k] == if self.cluster()[k] {
                    (-old(lat).spins@[k]) as i8
                } else {
                    old(lat).spins@[k]
                },
            stats.cluster_size == count_true(self.cluster()),
            stats.cluster_size == changed_sites(final(lat).spins@, old(lat).spins@),
            stats.cluster_size >= 1,
    {
        let ghost orig = lat.spins@;
        let n = self.in_cluster.len();
        let mut i: usize = 0;
        while i < n
            invariant
                self.wf(old(lat)),
                orig == old(lat).spins@,
                n == self.in_cluster@.len(),
                n == orig.len(),
                i <= n,
                lat.wf(),
                lat.l == old(lat).l,
                lat.spins@.len() == n,
                forall|k: int|
                    0 <= k < i ==> #[trigger] lat.spins@[k] == if self.in_cluster@[k] {
                        (-orig[k]) as i8
                    } else {
                        orig[k]
                    },
                forall|k: int| i <= k < n ==> #[trigger] lat.spins@[k] == orig[k],
            decreases n - i,
        {
            if self.in_cluster[i] {
                lat.flip(i);
            }
            i = i + 1;
        }
        proof {
            let a = lat.spins@;
            assert forall|k: int| 0 <= k < n implies (a[k] != orig[k]) == self.in_cluster@[k] by {
                assert(orig[k] == 1 || orig[k] == -1);
            }
            crate::sums::lemma_sum_congr(
                n as int,
                |k: int| if a[k] != orig[k] {
                    1int
                } else {
                    0int
                },
                |k: int| if self.in_cluster@[k] {
                    1int
                } else {
                    0int
                },
            );
        }
        WolffStats { cluster_size: self.size }
    }
}

/// A finished cluster is closed: every neighbour of every member either has
/// the other spin, is a member, or had its bond refused. In particular, when
/// no bond was refused the cluster is the whole same-spin region around the
/// seed that the neighbour relation reaches.
pub proof fn lemma_finished_cluster_closed(c: &WolffCluster, lat: &Lattice, p: int, k: int)
    requires
        c.wf(lat),
        c.done(),
        0 <= p < lat.spins@.len(),
        c.cluster()[p],
        0 <= k < 4,
    ensures
        ({
            let q = neighbour_sites(lat.l as int, p)[k];
            lat.spins@[q] != c.cluster_spin() || c.cluster()[q] || c.rejected().contains(q)
        }),
{
    assert(!c.stack@.contains(p as usize));
    assert(c.processed(p));
}

/// The cluster is a connected set of same-spin sites grown from the seed:
/// the seed joined first, and every later member is a neighbour of an
/// earlier member.
pub proof fn lemma_cluster_connected(c: &WolffCluster, lat: &Lattice)
    requires
        c.wf(lat),
    ensures
        c.members().len() >= 1,
        c.members()[0] == c.seed_site(),
        c.members().no_duplicates(),
        forall|k: int| 0 <= k < lat.spins@.len() ==> (#[trigger] c.cluster()[k] <==> c.members().contains(k)),
        forall|k: int|
            0 <= k < lat.spins@.len() && #[trigger] c.cluster()[k] ==> lat.spins@[k] == c.cluster_spin(),
        c.cluster_spin() == lat.spins@[c.seed_site()],
        forall|j: int|
            0 < j < c.members().len() ==> exists|i: int|
                0 <= i < j && adjacent(lat.l as int, c.members()[i], #[trigger] c.members()[j]),
{
}

/// Flipping a cluster of equal spins moves the spin total by
/// `-2 * spin * size`: a Wolff step changes the magnetization by twice the
/// cluster size, against the cluster's spin.
pub proof fn lemma_cluster_flip_spin_total(c: &WolffCluster, before: Seq<i8>, after: Seq<i8>)
    requires
        c.cluster_spin() == 1 || c.cluster_spin() == -1,
        before.len() == c.cluster().len(),
        after.len() == before.len(),
        forall|k: int| 0 <= k < before.len() && #[trigger] c.cluster()[k] ==> before[k] == c.cluster_spin(),
        forall|k: int|
            0 <= k < before.len() ==> #[trigger] after[k] == if c.cluster()[k] {
                (-before[k]) as i8
            } else {
                before[k]
            },
    ensures
        spin_total(after) == spin_total(before) - 2 * c.cluster_spin() * count_true(c.cluster()),
{
    lemma_flip_sum(before.len() as int, before, after, c.cluster(), c.cluster_spin() as int);
}

/// Prefix form of `lemma_cluster_flip_spin_total`.
proof fn lemma_flip_sum(m: int, before: Seq<i8>, after: Seq<i8>, cl: Seq<bool>, spin: int)
    requires
        0 <= m <= before.len(),
        spin == 1 || spin == -1,
        forall|k: int|
            0 <= k < m ==> #[trigger] after[k] as int == before[k] as int - if cl[k] {
                2 * spin
            } else {
                0
            },
    ensures
        sum(m, |k: int| after[k] as int) == sum(m, |k: int| before[k] as int) - 2 * spin * sum(
            m,
            |k: int| if cl[k] {
                1int
            } else {
                0int
            },
        ),
    decreases m,
{
    if m > 0 {
        lemma_flip_sum(m - 1, before, after, cl, spin);
        assert(after[m - 1] as int == before[m - 1] as int - if cl[m - 1] {
            2 * spin
        } else {
            0
        });
    }
}

/// Stepping once to the cyclic successor of `a mod l` is `a + 1 mod l`.
proof fn lemma_succ_mod(a: int, l: int)
    requires
        0 <= a,
        0 < l,
    ensures
        crate::sums::succ(a % l, l) == (a + 1) % l,
{
    let q = a / l;
    let r = a % l;
    vstd::arithmetic::div_mod::lemma_fundamental_div_mod(a, l);
    vstd::arithmetic::mul::lemma_mul_is_commutative(l, q);
    if r + 1 < l {
        vstd::arithmetic::div_mod::lemma_fundamental_div_mod_converse(a + 1, l, q, r + 1);
    } else {
        assert(a + 1 == (q + 1) * l + 0) by (nonlinear_arith)
            requires
                a == q * l + r,
                r + 1 == l,
        ;
        vstd::arithmetic::div_mod::lemma_fundamental_div_mod_converse(a + 1, l, q + 1, 0);
    }
}

/// With every bond accepted, a finished cluster grown on a lattice whose
/// spins are all equal is the whole lattice: the periodic lattice is
/// connected through right and downward neighbours.
pub proof fn lemma_unrefused_cluster_is_whole_lattice(c: &WolffCluster, lat: &Lattice)
    requires
        c.wf(lat),
        c.done(),
        c.rejected() == Set::<int>::empty(),
        forall|k: int| 0 <= k < lat.spins@.len() ==> #[trigger] lat.spins@[k] == c.cluster_spin(),
    ensures
        forall|k: int| 0 <= k < lat.spins@.len() ==> #[trigger] c.cluster()[k],
{
    let l = lat.l as int;
    let n = lat.spins@.len() as int;
    let s0 = c.seed_site();
    crate::grid::lemma_index_cell(l, l, s0);
    let x0 = s0 % l;
    let y0 = s0 / l;
    // every same-row site reached by repeated right steps
    assert forall|d: nat| #![trigger (x0 + d) % l] c.cluster()[y0 * l + (x0 + d) % l] by {
        lemma_row_reach(c, lat, x0, y0, d);
    }
    assert forall|x: int, d: nat|
        #![trigger ((y0 + d) % l) * l + x]
        0 <= x < l implies c.cluster()[((y0 + d) % l) * l + x] by {
        let dx = (x + l - x0) as nat;
        assert((x0 + dx) % l == x) by {
            vstd::arithmetic::div_mod::lemma_fundamental_div_mod_converse(x0 + dx, l, 1, x);
        }
        assert(c.cluster()[y0 * l + (x0 + dx) % l]);
        lemma_column_reach(c, lat, x, y0, d);
    }
    assert forall|k: int| 0 <= k < n implies #[trigger] c.cluster()[k] by {
        crate::grid::lemma_index_cell(l, l, k);
        let x = k % l;
        let y = k / l;
        let dy = (y + l - y0) as nat;
        assert((y0 + dy) % l == y) by {
            vstd::arithmetic::div_mod::lemma_fundamental_div_mod_converse(y0 + dy, l, 1, y);
        }
        assert(c.cluster()[((y0 + dy) % l) * l + x]);
    }
}

/// Closure of a finished, unrefused, uniform cluster under one neighbour step.
proof fn lemma_step_closed(c: &WolffCluster, lat: &Lattice, p: int, k: int)
    requires
        c.wf(lat),
        c.done(),
        c.rejected() == Set::<int>::empty(),
        forall|q: int| 0 <= q < lat.spins@.len() ==> #[trigger] lat.spins@[q] == c.cluster_spin(),
        0 <= p < lat.spins@.len(),
        c.cluster()[p],
        0 <= k < 4,
    ensures
        c.cluster()[neighbour_sites(lat.l as int, p)[k]],
{
    let l = lat.l as int;
    lemma_neighbour_sites_in_range(l, p);
    lemma_finished_cluster_closed(c, lat, p, k);
}

/// Repeated right steps from the cluster's seed row stay in the cluster.
proof fn lemma_row_reach(c: &WolffCluster, lat: &Lattice, x0: int, y0: int, d: nat)
    requires
        c.wf(lat),
        c.done(),
        c.rejected() == Set::<int>::empty(),
        forall|q: int| 0 <= q < lat.spins@.len() ==> #[trigger] lat.spins@[q] == c.cluster_spin(),
        0 <= x0 < lat.l,
        0 <= y0 < lat.l,
        c.cluster()[y0 * lat.l + x0],
    ensures
        c.cluster()[y0 * lat.l + (x0 + d) % (lat.l as int)],
    decreases d,
{
    let l = lat.l as int;
    if d == 0 {
        vstd::arithmetic::div_mod::lemma_small_mod(x0 as nat, l as nat);
    } else {
        let e = (d - 1) as nat;
        lemma_row_reach(c, lat, x0, y0, e);
        let x = (x0 + e) % l;
        let p = y0 * l + x;
        crate::grid::lemma_cell_in_range(l, l, x, y0);
        crate::grid::lemma_cell_coords(l, x, y0);
        lemma_step_closed(c, lat, p, 0);
        lemma_succ_mod(x0 + e, l);
    }
}

/// Repeated downward steps from a cluster site stay in the cluster.
proof fn lemma_column_reach(c: &WolffCluster, lat: &Lattice, x: int, y0: int, d: nat)
    requires
        c.wf(lat),
        c.done(),
        c.rejected() == Set::<int>::empty(),
        forall|q: int| 0 <= q < lat.spins@.len() ==> #[trigger] lat.spins@[q] == c.cluster_spin(),
        0 <= x < lat.l,
        0 <= y0 < lat.l,
        c.cluster()[y0 * lat.l + x],
    ensures
        c.cluster()[((y0 + d) % (lat.l as int)) * lat.l + x],
    decreases d,
{
    let l = lat.l as int;
    if d == 0 {
        vstd::arithmetic::div_mod::lemma_small_mod(y0 as nat, l as nat);
    } else {
        let e = (d - 1) as nat;
        lemma_column_reach(c, lat, x, y0, e);
        let y = (y0 + e) % l;
        let p = y * l + x;
        crate::grid::lemma_cell_in_range(l, l, x, y);
        crate::grid::lemma_cell_coords(l, x, y);
        lemma_step_closed(c, lat, p, 2);
        lemma_succ_mod(y0 + e, l);
    }
}

} // verus!
