//! Wolff single-cluster update.
//!
//! One Wolff update grows a cluster from a uniformly random seed site: the
//! members are examined one at a time (last added first) and each of their
//! four neighbours (left, right, up, down) that has the seed's spin and is not
//! yet in the cluster is offered, and added with the bond probability
//! `1 - exp(-2 / T)` (a uniform draw on the same generator). When nothing is
//! left to offer, every spin in the cluster is flipped and the cluster size is
//! returned. [`ClusterGrowth`] is the growth as a state machine;
//! [`cluster_flip`] runs it.

use vstd::prelude::*;
use crate::ising::lattice::{Lattice, pred, succ, lemma_wrap_neighbours, lemma_index_site, lemma_site_index};
use crate::rng::{Stream, draw_below, stdrng_next, stdrng_index, UNIT_STEPS};
use crate::ising::metropolis::same_lattice;

verus! {

/// Row-major index of the `d`-th neighbour (left, right, up, down) of the
/// site with index `c` on an `l x l` lattice.
pub open spec fn neighbour(c: int, d: int, l: int) -> int {
    let x = c % l;
    let y = c / l;
    if d == 0 {
        y * l + pred(x, l)
    } else if d == 1 {
        y * l + succ(x, l)
    } else if d == 2 {
        pred(y, l) * l + x
    } else {
        succ(y, l) * l + x
    }
}

/// The direction opposite to `d`: left and right, up and down.
pub open spec fn opposite(d: int) -> int {
    if d == 0 {
        1
    } else if d == 1 {
        0
    } else if d == 2 {
        3
    } else {
        2
    }
}

proof fn lemma_neighbour_coords(c: int, d: int, l: int)
    requires
        0 < l,
        0 <= c < l * l,
        0 <= d < 4,
    ensures
        ({
            let x = c % l;
            let y = c / l;
            let (nx, ny) = if d == 0 {
                (pred(x, l), y)
            } else if d == 1 {
                (succ(x, l), y)
            } else if d == 2 {
                (x, pred(y, l))
            } else {
                (x, succ(y, l))
            };
            &&& 0 <= nx < l
            &&& 0 <= ny < l
            &&& neighbour(c, d, l) == ny * l + nx
            &&& neighbour(c, d, l) % l == nx
            &&& neighbour(c, d, l) / l == ny
        }),
{
    lemma_index_site(c, l);
    let x = c % l;
    let y = c / l;
    lemma_wrap_neighbours(x, l);
    lemma_wrap_neighbours(y, l);
    let (nx, ny) = if d == 0 {
        (pred(x, l), y)
    } else if d == 1 {
        (succ(x, l), y)
    } else if d == 2 {
        (x, pred(y, l))
    } else {
        (x, succ(y, l))
    };
    assert(neighbour(c, d, l) == ny * l + nx);
    vstd::arithmetic::div_mod::lemma_fundamental_div_mod_converse(ny * l + nx, l, ny, nx);
}

/// The neighbours of the cluster growth are the periodic nearest neighbours:
/// the neighbour in direction `d` (left, right, up, down) of the site
/// `(x, y)` of an `l x l` lattice is a site of the lattice one step away along
/// one axis, wrapping around at the edges, and the other coordinate is kept:
/// stepping right from the left neighbour, or down from the upper one, gives
/// back `x` or `y` (so the left neighbour of `(0, y)` is `(l - 1, y)`).
pub proof fn lemma_neighbour_is_periodic_step(c: int, d: int, l: int)
    requires
        0 < l,
        0 <= c < l * l,
        0 <= d < 4,
    ensures
        0 <= neighbour(c, d, l) < l * l,
        d == 0 ==> neighbour(c, d, l) / l == c / l && (neighbour(c, d, l) % l + 1) % l == c % l,
        d == 1 ==> neighbour(c, d, l) / l == c / l && (c % l + 1) % l == neighbour(c, d, l) % l,
        d == 2 ==> neighbour(c, d, l) % l == c % l && (neighbour(c, d, l) / l + 1) % l == c / l,
        d == 3 ==> neighbour(c, d, l) % l == c % l && (c / l + 1) % l == neighbour(c, d, l) / l,
{
    lemma_neighbour_coords(c, d, l);
    lemma_index_site(c, l);
    let x = c % l;
    let y = c / l;
    let nb = neighbour(c, d, l);
    lemma_site_index(nb % l, nb / l, l);
    lemma_wrap_neighbours(x, l);
    lemma_wrap_neighbours(y, l);
    lemma_wrap_neighbours(pred(x, l), l);
    lemma_wrap_neighbours(pred(y, l), l);
}

/// Neighbours are mutual: the neighbour in the opposite direction of the
/// neighbour of `c` in direction `d` is `c` itself.
pub proof fn lemma_neighbour_symmetric(c: int, d: int, l: int)
    requires
        0 < l,
        0 <= c < l * l,
        0 <= d < 4,
    ensures
        neighbour(neighbour(c, d, l), opposite(d), l) == c,
{
    lemma_neighbour_coords(c, d, l);
    lemma_index_site(c, l);
    let x = c % l;
    let y = c / l;
    let nb = neighbour(c, d, l);
    lemma_site_index(nb % l, nb / l, l);
    lemma_neighbour_coords(nb, opposite(d), l);
    lemma_wrap_neighbours(x, l);
    lemma_wrap_neighbours(y, l);
    lemma_wrap_neighbours(pred(x, l), l);
    lemma_wrap_neighbours(pred(y, l), l);
    lemma_wrap_neighbours(succ(x, l), l);
    lemma_wrap_neighbours(succ(y, l), l);
}

/// The state of a cluster growth:/// The state of a cluster growth: the members in the order they joined, the
/// members still to examine (the last pushed examined first), the member
/// under examination and the next of its four directions to look at.
pub struct Growth {
    pub members: Seq<usize>,
    pub stack: Seq<usize>,
    pub current: Option<usize>,
    pub dir: nat,
}

/// The growth of a cluster seeded at `site`, before anything is examined.
pub open spec fn growth_start(site: usize) -> Growth {
    Growth { members: seq![site], stack: seq![site], current: None, dir: 4 }
}

/// The next offer of a growth on the spins `spins` of an `l x l` lattice
/// whose cluster has spin `spin`, and the growth after it: the neighbours of
/// the member under examination are looked at left, right, up, down; the
/// first one outside the cluster with the cluster's spin is offered; when
/// they are used up the member pushed last is taken off the stack; with the
/// stack empty nothing is left to offer.
pub open spec fn seek(spins: Seq<i8>, l: int, spin: i8, g: Growth) -> (Growth, Option<usize>)
    decreases 5 * g.stack.len() + (if g.dir <= 4 {
        4 - g.dir
    } else {
        0int
    }),
{
    if g.current is Some && g.dir < 4 {
        let j = neighbour(g.current.unwrap() as int, g.dir as int, l);
        let next = Growth { dir: g.dir + 1, ..g };
        if !g.members.contains(j as usize) && spins[j] == spin {
            (next, Some(j as usize))
        } else {
            seek(spins, l, spin, next)
        }
    } else if g.stack.len() > 0 {
        seek(
            spins,
            l,
            spin,
            Growth { stack: g.stack.drop_last(), current: Some(g.stack.last()), dir: 0, ..g },
        )
    } else {
        (Growth { current: None, dir: 4, ..g }, None)
    }
}

/// The growth after the answer to an offer of `site`: a joined site becomes
/// a member and is pushed for examination.
pub open spec fn answered(g: Growth, site: usize, joined: bool) -> Growth {
    if joined {
        Growth { members: g.members.push(site), stack: g.stack.push(site), ..g }
    } else {
        g
    }
}

/// The growth from seed site `site` after the first `k` of `offers` were
/// made and answered.
#[verifier::opaque]
pub open spec fn grown(spins: Seq<i8>, l: int, site: usize, offers: Seq<Offer>, k: int) -> Growth
    decreases k,
{
    if k <= 0 {
        growth_start(site)
    } else {
        let o = offers[k - 1];
        answered(seek(spins, l, spins[site as int], grown(spins, l, site, offers, k - 1)).0, o.site, o.joined)
    }
}

/// The offers are exactly those of the growth from seed site `site`, in its
/// order: each is the next offer of the growth answered so far, and after
/// the last nothing is left to offer.
pub open spec fn offers_in_order(spins: Seq<i8>, l: int, site: usize, offers: Seq<Offer>) -> bool {
    &&& forall|k: int|
        #![trigger offers[k]]
        0 <= k < offers.len() ==> seek(spins, l, spins[site as int], grown(spins, l, site, offers, k)).1
            == Some(offers[k].site)
    &&& seek(spins, l, spins[site as int], grown(spins, l, site, offers, offers.len() as int)).1 is None
}

proof fn lemma_grown_prefix(spins: Seq<i8>, l: int, site: usize, o1: Seq<Offer>, o2: Seq<Offer>, k: int)
    requires
        0 <= k <= o1.len(),
        k <= o2.len(),
        forall|i: int| 0 <= i < k ==> o1[i] == o2[i],
    ensures
        grown(spins, l, site, o1, k) == grown(spins, l, site, o2, k),
    decreases k,
{
    reveal(grown);
    if k > 0 {
        lemma_grown_prefix(spins, l, site, o1, o2, k - 1);
        assert(o1[k - 1] == o2[k - 1]);
    }
}

/// A growing Wolff cluster on a fixed lattice./// A growing Wolff cluster on a fixed lattice.
pub struct ClusterGrowth {
    l: usize,
    spin: i8,
    in_cluster: Vec<bool>,
    cluster: Vec<usize>,
    stack: Vec<usize>,
    current: Option<usize>,
    dir: usize,
    spins: Ghost<Seq<i8>>,
    pending: Ghost<Option<int>>,
    rejected: Ghost<Set<int>>,
}

impl ClusterGrowth {
    /// Side of the lattice.
    pub closed spec fn side(&self) -> int {
        self.l as int
    }

    /// The spins of the lattice the cluster grows on.
    pub closed spec fn lattice_spins(&self) -> Seq<i8> {
        self.spins@
    }

    /// The spin of the seed, shared by every member.
    pub closed spec fn cluster_spin(&self) -> i8 {
        self.spin
    }

    /// The members, in the order they joined.
    pub closed spec fn members(&self) -> Seq<usize> {
        self.cluster@
    }

    /// The state of the growth.
    pub closed spec fn state(&self) -> Growth {
        Growth { members: self.cluster@, stack: self.stack@, current: self.current, dir: self.dir as nat }
    }

    /// Sites that were offered and not added.
    pub closed spec fn rejected(&self) -> Set<int> {
        self.rejected@
    }

    /// The site offered last and not yet answered.
    pub closed spec fn pending(&self) -> Option<int> {
        self.pending@
    }

    /// Nothing is left to examine.
    pub closed spec fn exhausted(&self) -> bool {
        self.stack@.len() == 0 && self.current is None && self.pending@ is None
    }

    /// The cluster grows on `lattice`.
    pub open spec fn on(&self, lattice: &Lattice) -> bool {
        lattice.l == self.side() && lattice.spins@ == self.lattice_spins()
    }

    /// Site `j` needs no further attention: it is a member, has the other
    /// spin, was refused, or is being offered.
    closed spec fn settled(&self, j: int) -> bool {
        ||| self.cluster@.contains(j as usize)
        ||| self.spins@[j] != self.spin
        ||| self.rejected@.contains(j)
        ||| self.pending@ == Some(j)
    }

    closed spec fn all_settled(&self, c: int) -> bool {
        forall|d: int| 0 <= d < 4 ==> #[trigger] self.settled(neighbour(c, d, self.l as int))
    }

    /// The growth invariant.
    pub closed spec fn wf(&self) -> bool {
        let n = self.l * self.l;
        &&& self.l > 0
        &&& self.in_cluster.len() == n
        &&& self.spins@.len() == n
        &&& forall|j: int| 0 <= j < n ==> (#[trigger] self.in_cluster@[j] <==> self.cluster@.contains(j as usize))
        &&& self.cluster@.no_duplicates()
        &&& 1 <= self.cluster@.len() <= n
        &&& forall|i: int| 0 <= i < self.cluster@.len() ==> #[trigger] self.cluster@[i] < n && self.spins@[self.cluster@[i] as int] == self.spin
        &&& forall|i: int| 0 <= i < self.stack@.len() ==> self.cluster@.contains(#[trigger] self.stack@[i])
        &&& self.dir <= 4
        &&& (self.current is None ==> self.dir == 4)
        &&& (self.current matches Some(c) ==> self.cluster@.contains(c) && forall|d: int| 0 <= d < self.dir ==> #[trigger] self.settled(neighbour(c as int, d, self.l as int)))
        &&& forall|c: usize| #[trigger] self.cluster@.contains(c) ==> self.stack@.contains(c) || self.current == Some(c) || self.all_settled(c as int)
        &&& (self.pending@ matches Some(j) ==> 0 <= j < n && !self.cluster@.contains(j as usize) && self.spins@[j] == self.spin)
    }

    /// Neighbour examinations still possible: four for every site not yet in
    /// the cluster and for every member waiting on the stack, plus those left
    /// for the member under examination.
    pub closed spec fn budget(&self) -> int {
        4 * (self.l * self.l - self.cluster@.len()) + 4 * self.stack@.len() + (4 - self.dir)
    }

    /// Every same-spin neighbour of a member is a member or was refused.
    pub open spec fn closed(&self) -> bool {
        forall|c: usize, d: int|
            #![trigger self.members().contains(c), neighbour(c as int, d, self.side())]
            self.members().contains(c) && 0 <= d < 4 ==> {
                let j = neighbour(c as int, d, self.side());
                ||| self.members().contains(j as usize)
                ||| self.lattice_spins()[j] != self.cluster_spin()
                ||| self.rejected().contains(j)
            }
    }

    /// Start a cluster at a uniformly random seed site of the lattice.
    pub fn start(lattice: &Lattice, rng: &mut Stream) -> (g: Self)
        requires
            lattice.wf(),
            lattice.l > 0,
        ensures
            (g.members()[0] as u64, final(rng).pos()) == stdrng_index(
                old(rng).seed(),
                old(rng).pos(),
                (lattice.l * lattice.l) as u64,
            ),
            final(rng).seed() == old(rng).seed(),
            g.wf(),
            g.on(lattice),
            g.members().len() == 1,
            g.members()[0] < lattice.spins@.len(),
            g.cluster_spin() == lattice.spins@[g.members()[0] as int],
            g.rejected() == Set::<int>::empty(),
            g.pending() is None,
            g.state() == growth_start(g.members()[0]),
    {
        proof {
            assert(lattice.l * lattice.l > 0) by (nonlinear_arith)
                requires
                    lattice.l > 0,
            ;
        }
        let n = lattice.n();
        let seed = rng.index_below(n);
        let spin = lattice.spins[seed];
        let mut in_cluster: Vec<bool> = Vec::new();
        let mut i: usize = 0;
        while i < n
            invariant
                i <= n,
                seed < n,
                in_cluster@.len() == i,
                forall|k: int| 0 <= k < i ==> #[trigger] in_cluster@[k] == (k == seed),
            decreases n - i,
        {
            in_cluster.push(i == seed);
            i = i + 1;
        }
        let mut cluster: Vec<usize> = Vec::new();
        cluster.push(seed);
        let mut stack: Vec<usize> = Vec::new();
        stack.push(seed);
        let g = ClusterGrowth {
            l: lattice.l,
            spin,
            in_cluster,
            cluster,
            stack,
            current: None,
            dir: 4,
            spins: Ghost(lattice.spins@),
            pending: Ghost(None),
            rejected: Ghost(Set::empty()),
        };
        proof {
            assert(g.cluster@ =~= seq![seed]);
            assert(g.stack@ =~= seq![seed]);
            assert forall|j: int| 0 <= j < n implies (#[trigger] g.in_cluster@[j] <==> g.cluster@.contains(j as usize)) by {
                if g.cluster@.contains(j as usize) {
                    assert(g.cluster@[0] == seed);
                }
                if j == seed {
                    assert(g.cluster@[0] == seed);
                }
            }
            assert forall|c: usize| #[trigger] g.cluster@.contains(c) implies g.stack@.contains(c) || g.current == Some(c) || g.all_settled(c as int) by {
                assert(g.stack@[0] == seed);
            }
        }
        g
    }

    /// Offer the next site: a same-spin neighbour of a member that is not in
    /// the cluster, in the order of the growth described above. A site offered
    /// by the previous call and not added since counts as refused. `None` when
    /// every member's neighbours have been examined.
    pub fn next_candidate(&mut self, lattice: &Lattice) -> (r: Option<usize>)
        requires
            old(self).wf(),
            old(self).on(lattice),
        ensures
            final(self).wf(),
            final(self).on(lattice),
            final(self).side() == old(self).side(),
            final(self).members() == old(self).members(),
            final(self).cluster_spin() == old(self).cluster_spin(),
            final(self).rejected() == (match old(self).pending() {
                Some(j) => old(self).rejected().insert(j),
                None => old(self).rejected(),
            }),
            0 <= final(self).budget() <= old(self).budget(),
            r is Some ==> final(self).budget() < old(self).budget(),
            (final(self).state(), r) == seek(
                old(self).lattice_spins(),
                old(self).side(),
                old(self).cluster_spin(),
                old(self).state(),
            ),
            match r {
                Some(j) => {
                    &&& j < lattice.spins@.len()
                    &&& !final(self).members().contains(j)
                    &&& lattice.spins@[j as int] == final(self).cluster_spin()
                    &&& final(self).pending() == Some(j as int)
                    &&& exists|c: usize, d: int|
                        #![trigger final(self).members().contains(c), neighbour(c as int, d, final(self).side())]
                        final(self).members().contains(c) && 0 <= d < 4 && neighbour(
                            c as int,
                            d,
                            final(self).side(),
                        ) == j
                },
                None => final(self).exhausted() && final(self).closed(),
            },
    {
        proof {
            let ghost rej = match self.pending@ {
                Some(j) => self.rejected@.insert(j),
                None => self.rejected@,
            };
            assert forall|j: int| self.settled(j) implies (self.cluster@.contains(j as usize) || self.spins@[j] != self.spin || rej.contains(j)) by {
            }
            self.rejected = Ghost(rej);
            self.pending = Ghost(None);
        }
        let ghost members = self.cluster@;
        let ghost rej = self.rejected@;
        assert(members == old(self).cluster@);
        assert(rej == match old(self).pending@ {
            Some(j) => old(self).rejected@.insert(j),
            None => old(self).rejected@,
        });
        loop
            invariant
                self.wf(),
                self.on(lattice),
                self.cluster@ == members,
                self.rejected@ == rej,
                members == old(self).cluster@,
                rej == match old(self).pending@ {
                    Some(j) => old(self).rejected@.insert(j),
                    None => old(self).rejected@,
                },
                self.pending@ is None,
                self.l == old(self).l,
                self.spin == old(self).spin,
                self.spins@ == old(self).spins@,
                self.budget() <= old(self).budget(),
                seek(self.spins@, self.l as int, self.spin, self.state()) == seek(
                    old(self).spins@,
                    old(self).l as int,
                    old(self).spin,
                    old(self).state(),
                ),
            decreases 5 * self.stack@.len() + (4 - self.dir),
        {
            if self.current.is_some() && self.dir < 4 {
                let c = self.current.unwrap();
                proof {
                    assert(self.cluster@.contains(c));
                    let k = choose|k: int| 0 <= k < self.cluster@.len() && self.cluster@[k] == c;
                    assert(self.cluster@[k] < self.l * self.l);
                }
                let j = neighbour_index(self.l, c, self.dir);
                let ghost d = self.dir as int;
                let ghost before = *self;
                self.dir = self.dir + 1;
                if !self.in_cluster[j] && lattice.spins[j] == self.spin {
                    self.pending = Ghost(Some(j as int));
                    proof {
                        assert(!self.cluster@.contains(j));
                        assert forall|k: int| #[trigger] before.settled(k) implies self.settled(k) by {}
                        assert forall|dd: int| 0 <= dd < self.dir implies #[trigger] self.settled(neighbour(c as int, dd, self.l as int)) by {
                            if dd < d {
                                assert(before.settled(neighbour(c as int, dd, self.l as int)));
                            }
                        }
                        assert forall|m: usize| #[trigger] self.cluster@.contains(m) implies self.stack@.contains(m) || self.current == Some(m) || self.all_settled(m as int) by {
                            if !before.stack@.contains(m) && before.current != Some(m) {
                                assert forall|dd: int| 0 <= dd < 4 implies #[trigger] self.settled(neighbour(m as int, dd, self.l as int)) by {
                                    assert(before.settled(neighbour(m as int, dd, self.l as int)));
                                }
                            }
                        }
                        assert(self.settled(neighbour(c as int, d, self.l as int)));
                        assert(self.members().contains(c) && 0 <= d < 4 && neighbour(c as int, d, self.side()) == j);
                    }
                    return Some(j);
                }
                proof {
                    assert(self.settled(j as int));
                    assert forall|dd: int| 0 <= dd < self.dir implies #[trigger] self.settled(neighbour(c as int, dd, self.l as int)) by {
                        if dd < d {
                            assert(before.settled(neighbour(c as int, dd, self.l as int)));
                        }
                    }
                    assert forall|m: usize| #[trigger] self.cluster@.contains(m) implies self.stack@.contains(m) || self.current == Some(m) || self.all_settled(m as int) by {
                        if !before.stack@.contains(m) && before.current != Some(m) {
                            assert forall|dd: int| 0 <= dd < 4 implies #[trigger] self.settled(neighbour(m as int, dd, self.l as int)) by {
                                assert(before.settled(neighbour(m as int, dd, self.l as int)));
                            }
                        }
                    }
                }
            } else {
                let ghost prev = *self;
                proof {
                    if let Some(c0) = prev.current {
                        assert(prev.dir == 4);
                        assert(prev.all_settled(c0 as int));
                    }
                }
                match self.stack.pop() {
                    Some(c) => {
                        self.current = Some(c);
                        self.dir = 0;
                        proof {
                            assert(prev.stack@ == self.stack@.push(c));
                            assert forall|m: usize| #[trigger] self.cluster@.contains(m) implies self.stack@.contains(m) || self.current == Some(m) || self.all_settled(m as int) by {
                                assert(prev.cluster@.contains(m));
                                if prev.stack@.contains(m) && m != c {
                                    let k = choose|k: int| 0 <= k < prev.stack@.len() && prev.stack@[k] == m;
                                    assert(self.stack@[k] == m);
                                }
                                assert forall|d: int| 0 <= d < 4 implies #[trigger] self.settled(neighbour(m as int, d, self.l as int)) == prev.settled(neighbour(m as int, d, self.l as int)) by {}
                            }
                            assert forall|i: int| 0 <= i < self.stack@.len() implies self.cluster@.contains(#[trigger] self.stack@[i]) by {
                                assert(prev.stack@[i] == self.stack@[i]);
                            }
                            assert(self.cluster@.contains(c)) by {
                                assert(prev.stack@[prev.stack@.len() - 1] == c);
                            }
                        }
                    },
                    None => {
                        self.current = None;
                        self.dir = 4;
                        proof {
                            assert forall|m: usize| #[trigger] self.cluster@.contains(m) implies self.stack@.contains(m) || self.current == Some(m) || self.all_settled(m as int) by {
                                assert forall|d: int| 0 <= d < 4 implies #[trigger] self.settled(neighbour(m as int, d, self.l as int)) == prev.settled(neighbour(m as int, d, self.l as int)) by {}
                            }
                            assert forall|m: usize, d: int|
                                #![trigger self.members().contains(m), neighbour(m as int, d, self.side())]
                                self.members().contains(m) && 0 <= d < 4 implies {
                                    let j = neighbour(m as int, d, self.side());
                                    ||| self.members().contains(j as usize)
                                    ||| self.lattice_spins()[j] != self.cluster_spin()
                                    ||| self.rejected().contains(j)
                                } by {
                                assert(self.all_settled(m as int));
                                assert(self.settled(neighbour(m as int, d, self.l as int)));
                            }
                        }
                        assert(self.cluster@ == members);
                        assert(self.rejected@ == rej);
                        return None;
                    },
                }
            }
        }
    }

    /// Add the site offered last to the cluster.
    pub fn add(&mut self, j: usize)
        requires
            old(self).wf(),
            old(self).pending() == Some(j as int),
        ensures
            final(self).wf(),
            final(self).side() == old(self).side(),
            final(self).lattice_spins() == old(self).lattice_spins(),
            final(self).cluster_spin() == old(self).cluster_spin(),
            final(self).members() == old(self).members().push(j),
            final(self).rejected() == old(self).rejected(),
            final(self).pending() is None,
            final(self).budget() == old(self).budget(),
            final(self).state() == answered(old(self).state(), j, true),
    {
        let ghost prev = *self;
        self.in_cluster.set(j, true);
        self.stack.push(j);
        self.cluster.push(j);
        self.pending = Ghost(None);
        proof {
            let n = self.l * self.l;
            assert forall|k: int| 0 <= k < n implies (#[trigger] self.in_cluster@[k] <==> self.cluster@.contains(k as usize)) by {
                if k == j {
                    assert(self.cluster@[self.cluster@.len() - 1] == j);
                } else {
                    assert(prev.in_cluster@[k] == self.in_cluster@[k]);
                    if self.cluster@.contains(k as usize) {
                        let i = choose|i: int| 0 <= i < self.cluster@.len() && self.cluster@[i] == k as usize;
                        assert(prev.cluster@[i] == k as usize);
                    }
                    if prev.cluster@.contains(k as usize) {
                        let i = choose|i: int| 0 <= i < prev.cluster@.len() && prev.cluster@[i] == k as usize;
                        assert(self.cluster@[i] == k as usize);
                    }
                }
            }
            assert forall|i: int| 0 <= i < self.cluster@.len() implies #[trigger] self.cluster@[i] < n && self.spins@[self.cluster@[i] as int] == self.spin by {
                if i < prev.cluster@.len() {
                    assert(prev.cluster@[i] == self.cluster@[i]);
                }
            }
            assert forall|i: int| 0 <= i < self.stack@.len() implies self.cluster@.contains(#[trigger] self.stack@[i]) by {
                if i < prev.stack@.len() {
                    assert(prev.stack@[i] == self.stack@[i]);
                    let k = choose|k: int| 0 <= k < prev.cluster@.len() && prev.cluster@[k] == prev.stack@[i];
                    assert(self.cluster@[k] == self.stack@[i]);
                } else {
                    assert(self.cluster@[self.cluster@.len() - 1] == j);
                }
            }
            assert forall|k: int| #[trigger] prev.settled(k) implies self.settled(k) by {
                if prev.cluster@.contains(k as usize) {
                    let i = choose|i: int| 0 <= i < prev.cluster@.len() && prev.cluster@[i] == k as usize;
                    assert(self.cluster@[i] == k as usize);
                }
                if prev.pending@ == Some(k) {
                    assert(self.cluster@[self.cluster@.len() - 1] == j);
                }
            }
            if let Some(c) = self.current {
                let i = choose|i: int| 0 <= i < prev.cluster@.len() && prev.cluster@[i] == c;
                assert(self.cluster@[i] == c);
                assert forall|d: int| 0 <= d < self.dir implies #[trigger] self.settled(neighbour(c as int, d, self.l as int)) by {
                    assert(prev.settled(neighbour(c as int, d, self.l as int)));
                }
            }
            assert forall|m: usize| #[trigger] self.cluster@.contains(m) implies self.stack@.contains(m) || self.current == Some(m) || self.all_settled(m as int) by {
                if m == j {
                    assert(self.stack@[self.stack@.len() - 1] == j);
                } else {
                    let i = choose|i: int| 0 <= i < self.cluster@.len() && self.cluster@[i] == m;
                    assert(prev.cluster@[i] == m);
                    assert(prev.cluster@.contains(m));
                    if prev.stack@.contains(m) {
                        let k = choose|k: int| 0 <= k < prev.stack@.len() && prev.stack@[k] == m;
                        assert(self.stack@[k] == m);
                    } else if prev.current != Some(m) {
                        assert forall|d: int| 0 <= d < 4 implies #[trigger] self.settled(neighbour(m as int, d, self.l as int)) by {
                            assert(prev.settled(neighbour(m as int, d, self.l as int)));
                        }
                    }
                }
            }
            assert(self.cluster@.no_duplicates()) by {
                assert forall|a: int, b: int| 0 <= a < b < self.cluster@.len() implies self.cluster@[a] != self.cluster@[b] by {
                    if b == self.cluster@.len() - 1 {
                        assert(prev.cluster@[a] == self.cluster@[a]);
                    } else {
                        assert(prev.cluster@[a] == self.cluster@[a]);
                        assert(prev.cluster@[b] == self.cluster@[b]);
                    }
                }
            }
            lemma_distinct_indices(self.cluster@, n);
        }
    }

    /// Flip every spin of the cluster; returns the cluster size.
    pub fn finish(self, lattice: &mut Lattice) -> (r: usize)
        requires
            self.wf(),
            self.on(old(lattice)),
            self.cluster_spin() != i8::MIN,
        ensures
            r == self.members().len(),
            final(lattice).l == old(lattice).l,
            final(lattice).spins@.len() == old(lattice).spins@.len(),
            forall|i: int|
                0 <= i < old(lattice).spins@.len() ==> #[trigger] final(lattice).spins@[i] == if self.members().contains(
                    i as usize,
                ) {
                    (-old(lattice).spins@[i]) as i8
                } else {
                    old(lattice).spins@[i]
                },
    {
        let ghost orig = lattice.spins@;
        let mut k: usize = 0;
        while k < self.cluster.len()
            invariant
                self.wf(),
                self.cluster_spin() != i8::MIN,
                orig == old(lattice).spins@,
                orig == self.spins@,
                lattice.l == old(lattice).l,
                k <= self.cluster@.len(),
                lattice.spins@.len() == orig.len(),
                forall|i: int|
                    0 <= i < orig.len() ==> #[trigger] lattice.spins@[i] == if self.cluster@.take(k as int).contains(
                        i as usize,
                    ) {
                        (-orig[i]) as i8
                    } else {
                        orig[i]
                    },
            decreases self.cluster@.len() - k,
        {
            let index = self.cluster[k];
            proof {
                assert(index < self.l * self.l);
                assert(!self.cluster@.take(k as int).contains(index)) by {
                    if self.cluster@.take(k as int).contains(index) {
                        let a = choose|a: int| 0 <= a < k && self.cluster@.take(k as int)[a] == index;
                        assert(self.cluster@[a] == self.cluster@[k as int]);
                    }
                }
                assert(lattice.spins@[index as int] == orig[index as int]);
            }
            let ghost prev = lattice.spins@;
            lattice.flip(index);
            proof {
                assert forall|i: int| 0 <= i < orig.len() implies #[trigger] lattice.spins@[i] == if self.cluster@.take(k + 1).contains(
                    i as usize,
                ) {
                    (-orig[i]) as i8
                } else {
                    orig[i]
                } by {
                    assert(self.cluster@.take(k + 1) =~= self.cluster@.take(k as int).push(index));
                    if i != index {
                        assert(lattice.spins@[i] == prev[i]);
                        assert(self.cluster@.take(k + 1).contains(i as usize) == self.cluster@.take(k as int).contains(i as usize));
                    } else {
                        assert(self.cluster@.take(k + 1)[k as int] == index);
                        assert(self.cluster@.take(k + 1).contains(i as usize));
                    }
                }
            }
            k = k + 1;
        }
        proof {
            assert(self.cluster@.take(k as int) =~= self.cluster@);
        }
        self.cluster.len()
    }
}

/// `after` is `before` with the spins at the sites of `members` negated.
pub open spec fn flipped_on(before: Seq<i8>, after: Seq<i8>, members: Seq<usize>) -> bool {
    &&& after.len() == before.len()
    &&& forall|i: int|
        0 <= i < before.len() ==> #[trigger] after[i] == if members.contains(i as usize) {
            (-before[i]) as i8
        } else {
            before[i]
        }
}

/// `members` is a cluster of `size` distinct sites of `before` sharing one
/// spin, and `after` is `before` with that cluster flipped.
pub open spec fn cluster_flipped(before: Seq<i8>, after: Seq<i8>, members: Seq<usize>, size: int) -> bool {
    &&& members.len() == size
    &&& members.no_duplicates()
    &&& forall|k: int|
        0 <= k < size ==> #[trigger] members[k] < before.len() && before[members[k] as int]
            == before[members[0] as int]
    &&& flipped_on(before, after, members)
}

/// Member `k` is a neighbour of an earlier member.
pub open spec fn bonded_to_earlier(members: Seq<usize>, k: int, l: int) -> bool {
    exists|j: int, d: int|
        0 <= j < k && 0 <= d < 4 && #[trigger] neighbour(members[j] as int, d, l) == members[k] as int
}

/// Every member after the first is a neighbour of an earlier member: the
/// cluster grew from its seed through nearest-neighbour bonds.
pub open spec fn grown_through_bonds(members: Seq<usize>, l: int) -> bool {
    forall|k: int| 1 <= k < members.len() ==> #[trigger] bonded_to_earlier(members, k, l)
}

/// Every neighbour of a member that has the members' spin is a member: the
/// cluster is a whole connected component of equal spins.
pub open spec fn closed_component(spins: Seq<i8>, members: Seq<usize>, l: int) -> bool {
    forall|c: usize, d: int|
        #![trigger members.contains(c), neighbour(c as int, d, l)]
        members.contains(c) && 0 <= d < 4 && spins[neighbour(c as int, d, l)] == spins[members[0] as int]
            ==> members.contains(neighbour(c as int, d, l) as usize)
}

/// One offer of a cluster growth: the offered site, the 64-bit word drawn
/// for it, and whether it joined.
pub struct Offer {
    pub site: usize,
    pub word: u64,
    pub joined: bool,
}

/// What a cluster flip did: the members in the order they joined, the
/// offers in the order they were made, and the position of the random stream
/// before the seed was drawn, before each offer and after the last.
pub struct ClusterTrace {
    pub members: Seq<usize>,
    pub offers: Seq<Offer>,
    pub positions: Seq<nat>,
}

/// The flip recorded in `trace`, on `n` sites, read the stream seeded with
/// `seed` from position `from` to `to`: the seed site is the stream's next
/// index below `n`, then each offer's word is the stream's next word, one
/// per offer, with no other draw.
pub open spec fn cluster_draws(seed: u64, n: nat, trace: ClusterTrace, from: nat, to: nat) -> bool {
    &&& trace.positions.len() == trace.offers.len() + 2
    &&& trace.positions[0] == from
    &&& trace.positions.last() == to
    &&& trace.members.len() >= 1
    &&& stdrng_index(seed, from, n as u64) == (trace.members[0] as u64, trace.positions[1])
    &&& forall|k: int|
        #![trigger trace.offers[k]]
        0 <= k < trace.offers.len() ==> stdrng_next(seed, trace.positions[k + 1]) == (
            trace.offers[k].word,
            trace.positions[k + 2],
        )
}

/// The sites of the offers that joined, in order.
pub open spec fn joined_sites(offers: Seq<Offer>) -> Seq<usize>
    decreases offers.len(),
{
    if offers.len() == 0 {
        seq![]
    } else {
        joined_sites(offers.drop_last()) + if offers.last().joined {
            seq![offers.last().site]
        } else {
            seq![]
        }
    }
}

/// The offers of a growth with bond threshold `add_threshold` on the spins
/// `before`, whose members are `members`: each offered site has the seed's
/// spin, each joined exactly when its word falls below the threshold, and the
/// members are the seed followed by the joined sites.
pub open spec fn offers_decided(before: Seq<i8>, members: Seq<usize>, offers: Seq<Offer>, add_threshold: u64) -> bool {
    &&& members.len() >= 1
    &&& members == seq![members[0]] + joined_sites(offers)
    &&& forall|k: int|
        0 <= k < offers.len() ==> #[trigger] offers[k].joined == ((offers[k].word >> 12u64) < add_threshold)
    &&& forall|k: int|
        0 <= k < offers.len() ==> #[trigger] offers[k].site < before.len() && before[offers[k].site as int]
            == before[members[0] as int]
}

/// Offer `k` was made for a site outside the cluster as it stood then (the
/// seed and the sites joined by the earlier offers), next to one of its
/// members.
pub open spec fn offered_at_edge(seed: usize, offers: Seq<Offer>, k: int, l: int) -> bool {
    let grown = seq![seed] + joined_sites(offers.take(k));
    &&& !grown.contains(offers[k].site)
    &&& exists|c: usize, d: int|
        #![trigger grown.contains(c), neighbour(c as int, d, l)]
        grown.contains(c) && 0 <= d < 4 && neighbour(c as int, d, l) == offers[k].site as int
}

/// Every offer was made at the edge of the cluster as it stood then.
pub open spec fn offers_at_edge(members: Seq<usize>, offers: Seq<Offer>, l: int) -> bool {
    forall|k: int| 0 <= k < offers.len() ==> #[trigger] offered_at_edge(members[0], offers, k, l)
}

/// Every neighbour of a member that has the seed's spin in `before` and did
/// not join was offered, and refused: the growth stopped only when no
/// same-spin neighbour of the cluster was left unoffered.
pub open spec fn refusals_cover(before: Seq<i8>, members: Seq<usize>, offers: Seq<Offer>, l: int) -> bool {
    forall|c: usize, d: int|
        #![trigger members.contains(c), neighbour(c as int, d, l)]
        members.contains(c) && 0 <= d < 4 && before[neighbour(c as int, d, l)] == before[members[0] as int]
            && !members.contains(neighbour(c as int, d, l) as usize) ==> exists|k: int|
            #![trigger offers[k]]
            0 <= k < offers.len() && offers[k].site == neighbour(c as int, d, l) as usize && !offers[k].joined
}

proof fn lemma_offers_replay_prefix(
    spins: Seq<i8>,
    l: int,
    site: usize,
    o1: Seq<Offer>,
    o2: Seq<Offer>,
    p1: Seq<nat>,
    p2: Seq<nat>,
    seed: u64,
    threshold: u64,
    k: int,
)
    requires
        offers_in_order(spins, l, site, o1),
        offers_in_order(spins, l, site, o2),
        p1.len() == o1.len() + 2,
        p2.len() == o2.len() + 2,
        p1[1] == p2[1],
        forall|i: int|
            #![trigger o1[i]]
            0 <= i < o1.len() ==> stdrng_next(seed, p1[i + 1]) == (o1[i].word, p1[i + 2]),
        forall|i: int|
            #![trigger o2[i]]
            0 <= i < o2.len() ==> stdrng_next(seed, p2[i + 1]) == (o2[i].word, p2[i + 2]),
        forall|i: int| 0 <= i < o1.len() ==> #[trigger] o1[i].joined == ((o1[i].word >> 12u64) < threshold),
        forall|i: int| 0 <= i < o2.len() ==> #[trigger] o2[i].joined == ((o2[i].word >> 12u64) < threshold),
        0 <= k <= o1.len(),
        k <= o2.len(),
    ensures
        forall|i: int| 0 <= i < k ==> o1[i] == o2[i],
        p1[k + 1] == p2[k + 1],
    decreases k,
{
    if k > 0 {
        let m = k - 1;
        lemma_offers_replay_prefix(spins, l, site, o1, o2, p1, p2, seed, threshold, m);
        lemma_grown_prefix(spins, l, site, o1, o2, m);
        let a = o1[m];
        let b = o2[m];
        let s1 = seek(spins, l, spins[site as int], grown(spins, l, site, o1, m));
        let s2 = seek(spins, l, spins[site as int], grown(spins, l, site, o2, m));
        assert(s1 == s2);
        assert(s1.1 == Some(a.site));
        assert(s2.1 == Some(b.site));
        assert(a.site == b.site);
        assert(a.word == b.word);
        assert(a.joined == b.joined);
        assert(a == b);
    }
}

/// The replay law of a cluster flip: two flips of lattices holding the same
/// spins, with the same bond threshold, reading the same stream from the same
/// position, grow the same cluster through the same offers, leave the same
/// spins and stop at the same position.
pub proof fn lemma_cluster_flip_replays(
    before1: Lattice,
    trace1: ClusterTrace,
    after1: Lattice,
    to1: nat,
    before2: Lattice,
    trace2: ClusterTrace,
    after2: Lattice,
    to2: nat,
    seed: u64,
    n: nat,
    from: nat,
    threshold: u64,
)
    requires
        same_lattice(before1, before2),
        after1.l == before1.l,
        after2.l == before2.l,
        cluster_flipped(before1.spins@, after1.spins@, trace1.members, trace1.members.len() as int),
        cluster_flipped(before2.spins@, after2.spins@, trace2.members, trace2.members.len() as int),
        offers_decided(before1.spins@, trace1.members, trace1.offers, threshold),
        offers_decided(before2.spins@, trace2.members, trace2.offers, threshold),
        offers_in_order(before1.spins@, before1.l as int, trace1.members[0], trace1.offers),
        offers_in_order(before2.spins@, before2.l as int, trace2.members[0], trace2.offers),
        cluster_draws(seed, n, trace1, from, to1),
        cluster_draws(seed, n, trace2, from, to2),
    ensures
        trace1.members == trace2.members,
        trace1.offers == trace2.offers,
        same_lattice(after1, after2),
        to1 == to2,
{
    let spins = before1.spins@;
    let l = before1.l as int;
    let (o1, o2) = (trace1.offers, trace2.offers);
    let (p1, p2) = (trace1.positions, trace2.positions);
    assert(trace1.members[0] as u64 == trace2.members[0] as u64);
    let site = trace1.members[0];
    assert(trace2.members[0] == site);
    let k1 = o1.len() as int;
    let k2 = o2.len() as int;
    if k1 < k2 {
        lemma_offers_replay_prefix(spins, l, site, o1, o2, p1, p2, seed, threshold, k1);
        lemma_grown_prefix(spins, l, site, o1, o2, k1);
        let s1 = seek(spins, l, spins[site as int], grown(spins, l, site, o1, k1));
        let s2 = seek(spins, l, spins[site as int], grown(spins, l, site, o2, k1));
        assert(s1 == s2);
        assert(s1.1 is None);
        let b = o2[k1];
        assert(s2.1 == Some(b.site));
    }
    if k2 < k1 {
        lemma_offers_replay_prefix(spins, l, site, o1, o2, p1, p2, seed, threshold, k2);
        lemma_grown_prefix(spins, l, site, o1, o2, k2);
        let s1 = seek(spins, l, spins[site as int], grown(spins, l, site, o1, k2));
        let s2 = seek(spins, l, spins[site as int], grown(spins, l, site, o2, k2));
        assert(s1 == s2);
        assert(s2.1 is None);
        let a = o1[k2];
        assert(s1.1 == Some(a.site));
    }
    lemma_offers_replay_prefix(spins, l, site, o1, o2, p1, p2, seed, threshold, k1);
    assert(o1 =~= o2);
    assert(trace1.members =~= trace2.members);
    assert(after1.spins@ =~= after2.spins@) by {
        assert forall|i: int| 0 <= i < after1.spins@.len() implies after1.spins@[i] == after2.spins@[i] by {
            assert(after1.spins@[i] == if trace1.members.contains(i as usize) {
                (-before1.spins@[i]) as i8
            } else {
                before1.spins@[i]
            });
            assert(after2.spins@[i] == if trace2.members.contains(i as usize) {
                (-before2.spins@[i]) as i8
            } else {
                before2.spins@[i]
            });
        }
    }
}

/// One Wolff cluster flip: grow one cluster from a uniformly random seed
/// site, adding each offered same-spin neighbour when a uniform draw falls
/// below the bond probability `1 - exp(-2 / T)` (given as the threshold
/// `ceil((1 - exp(-2 / T)) * 2^52)` of [`steps_below`](crate::rng::steps_below)),
/// then flip every spin in the cluster. Returns the number of spins flipped
/// (the cluster size) and, as a ghost, the members and the offers.
///
/// The seed is the stream's next index below `L * L`; the offers are exactly
/// those of the growth, in its order ([`offers_in_order`]), each answered by
/// the stream's next word, one per offer; exactly the sites of the grown
/// cluster are flipped. Each offer was made for a same-spin site outside the
/// cluster as it stood then, next to a member, and every same-spin neighbour
/// of the cluster that did not join was offered and refused. So the flip is
/// a function of the lattice, the threshold and the stream's seed and
/// position (see [`lemma_cluster_flip_replays`]). When every offer is taken
/// (bond probability 1) the cluster is the whole connected component of the seed's spin; on a
/// lattice whose spins all agree, the whole lattice. When no offer is taken
/// (bond probability 0) only the seed flips.
pub fn cluster_flip(lattice: &mut Lattice, add_threshold: u64, rng: &mut Stream) -> (r: (
    usize,
    Ghost<ClusterTrace>,
))
    requires
        old(lattice).wf(),
        old(lattice).flippable(),
        old(lattice).l > 0,
    ensures
        final(lattice).wf(),
        final(lattice).flippable(),
        final(lattice).l == old(lattice).l,
        old(lattice).unit_spins() ==> final(lattice).unit_spins(),
        1 <= r.0 <= old(lattice).l * old(lattice).l,
        add_threshold == 0 ==> r.0 == 1,
        cluster_flipped(old(lattice).spins@, final(lattice).spins@, r.1@.members, r.0 as int),
        grown_through_bonds(r.1@.members, old(lattice).l as int),
        offers_decided(old(lattice).spins@, r.1@.members, r.1@.offers, add_threshold),
        refusals_cover(old(lattice).spins@, r.1@.members, r.1@.offers, old(lattice).l as int),
        offers_at_edge(r.1@.members, r.1@.offers, old(lattice).l as int),
        offers_in_order(old(lattice).spins@, old(lattice).l as int, r.1@.members[0], r.1@.offers),
        cluster_draws(
            old(rng).seed(),
            (old(lattice).l * old(lattice).l) as nat,
            r.1@,
            old(rng).pos(),
            final(rng).pos(),
        ),
        final(rng).seed() == old(rng).seed(),
        add_threshold >= UNIT_STEPS ==> closed_component(
            old(lattice).spins@,
            r.1@.members,
            old(lattice).l as int,
        ),
        add_threshold >= UNIT_STEPS && (forall|i: int|
            0 <= i < old(lattice).spins@.len() ==> #[trigger] old(lattice).spins@[i] == old(lattice).spins@[0])
            ==> r.0 == old(lattice).l * old(lattice).l && forall|i: int|
            0 <= i < old(lattice).spins@.len() ==> #[trigger] final(lattice).spins@[i] == (-old(
                lattice,
            ).spins@[i]) as i8,
{
    let ghost from = rng.pos();
    let mut growth = ClusterGrowth::start(lattice, rng);
    let ghost seed = growth.members()[0];
    let ghost mut offers: Seq<Offer> = seq![];
    let ghost mut positions: Seq<nat> = seq![from, rng.pos()];
    let ghost stream_seed = rng.seed();
    proof {
        assert(growth.members() =~= seq![seed] + joined_sites(offers));
        reveal(grown);
        assert(grown(lattice.spins@, lattice.l as int, seed, offers, 0) == growth_start(seed));
    }
    let mut next = growth.next_candidate(lattice);
    while next.is_some()
        invariant
            growth.wf(),
            growth.on(lattice),
            *lattice == *old(lattice),
            growth.members().len() >= 1,
            growth.members()[0] == seed,
            growth.cluster_spin() == lattice.spins@[seed as int],
            seed < lattice.spins@.len(),
            next matches Some(j) ==> growth.pending() == Some(j as int) && exists|c: usize, d: int|
                #![trigger growth.members().contains(c), neighbour(c as int, d, growth.side())]
                growth.members().contains(c) && 0 <= d < 4 && neighbour(c as int, d, growth.side()) == j,
            next matches Some(j) ==> j < lattice.spins@.len() && lattice.spins@[j as int]
                == lattice.spins@[seed as int],
            grown_through_bonds(growth.members(), lattice.l as int),
            growth.side() == lattice.l,
            add_threshold == 0 ==> growth.members().len() == 1,
            growth.members() == seq![seed] + joined_sites(offers),
            forall|k: int|
                0 <= k < offers.len() ==> #[trigger] offers[k].joined == ((offers[k].word >> 12u64)
                    < add_threshold),
            forall|k: int|
                0 <= k < offers.len() ==> #[trigger] offers[k].site < lattice.spins@.len()
                    && lattice.spins@[offers[k].site as int] == lattice.spins@[seed as int],
            next is None ==> growth.exhausted() && growth.closed(),
            next matches Some(j) ==> !growth.members().contains(j),
            (growth.state(), next) == seek(
                lattice.spins@,
                lattice.l as int,
                lattice.spins@[seed as int],
                grown(lattice.spins@, lattice.l as int, seed, offers, offers.len() as int),
            ),
            forall|k: int|
                #![trigger offers[k]]
                0 <= k < offers.len() ==> seek(
                    lattice.spins@,
                    lattice.l as int,
                    lattice.spins@[seed as int],
                    grown(lattice.spins@, lattice.l as int, seed, offers, k),
                ).1 == Some(offers[k].site),
            rng.seed() == stream_seed,
            stream_seed == old(rng).seed(),
            from == old(rng).pos(),
            positions.len() == offers.len() + 2,
            positions[0] == from,
            positions.last() == rng.pos(),
            stdrng_index(stream_seed, from, (lattice.l * lattice.l) as u64) == (seed as u64, positions[1]),
            forall|k: int|
                #![trigger offers[k]]
                0 <= k < offers.len() ==> stdrng_next(stream_seed, positions[k + 1]) == (
                    offers[k].word,
                    positions[k + 2],
                ),
            offers_at_edge(growth.members(), offers, lattice.l as int),
            forall|j: int|
                #[trigger] growth.rejected().contains(j) ==> exists|k: int|
                    #![trigger offers[k]]
                    0 <= k < offers.len() && offers[k].site == j && !offers[k].joined,
            add_threshold >= UNIT_STEPS ==> growth.rejected() == Set::<int>::empty() && (next is None
                ==> growth.pending() is None),
        decreases growth.budget() + if next is Some {
            1int
        } else {
            0int
        },
    {
        let j = next.unwrap();
        let ghost at = rng.pos();
        let drawn = draw_below(rng, add_threshold);
        let ghost old_offers = offers;
        proof {
            let old_positions = positions;
            positions = positions.push(rng.pos());
            offers = offers.push(Offer { site: j, word: drawn.1, joined: drawn.0 });
            assert forall|k: int|
                #![trigger offers[k]]
                0 <= k < offers.len() implies stdrng_next(stream_seed, positions[k + 1]) == (
                    offers[k].word,
                    positions[k + 2],
                ) by {
                if k < old_offers.len() {
                    assert(offers[k] == old_offers[k]);
                    assert(positions[k + 1] == old_positions[k + 1]);
                    assert(positions[k + 2] == old_positions[k + 2]);
                } else {
                    assert(positions[k + 1] == at);
                }
            }
            assert(offers.drop_last() =~= old_offers);
            assert forall|k: int| 0 <= k < offers.len() implies #[trigger] offers[k].joined == ((
            offers[k].word >> 12u64) < add_threshold) by {
                if k < old_offers.len() {
                    assert(offers[k] == old_offers[k]);
                }
            }
            assert forall|k: int| 0 <= k < offers.len() implies #[trigger] offers[k].site
                < lattice.spins@.len() && lattice.spins@[offers[k].site as int]
                == lattice.spins@[seed as int] by {
                if k < old_offers.len() {
                    assert(offers[k] == old_offers[k]);
                }
            }
            if !drawn.0 {
                assert(joined_sites(offers) =~= joined_sites(old_offers));
            }
            let l = lattice.l as int;
            let spins = lattice.spins@;
            let kk = old_offers.len() as int;
            lemma_grown_prefix(spins, l, seed, old_offers, offers, kk);
            assert forall|k: int|
                #![trigger offers[k]]
                0 <= k < offers.len() implies seek(spins, l, spins[seed as int], grown(spins, l, seed, offers, k)).1
                == Some(offers[k].site) by {
                if k < kk {
                    assert(offers[k] == old_offers[k]);
                    lemma_grown_prefix(spins, l, seed, old_offers, offers, k);
                }
            }
            reveal(grown);
            assert(grown(spins, l, seed, offers, kk + 1) == answered(
                seek(spins, l, spins[seed as int], grown(spins, l, seed, offers, kk)).0,
                j,
                drawn.0,
            ));
            assert forall|k: int| 0 <= k < offers.len() implies #[trigger] offered_at_edge(seed, offers, k, l) by {
                if k < old_offers.len() {
                    assert(offers.take(k) =~= old_offers.take(k));
                    assert(offers[k] == old_offers[k]);
                    assert(offered_at_edge(seed, old_offers, k, l));
                } else {
                    assert(offers.take(k) =~= old_offers);
                    assert(growth.members() == seq![seed] + joined_sites(offers.take(k)));
                }
            }
            assert(growth.members()[0] == seed);
        }
        if drawn.0 {
            let ghost before = growth.members();
            growth.add(j);
            proof {
                assert(joined_sites(offers) =~= joined_sites(old_offers).push(j));
                assert(growth.members() =~= seq![seed] + joined_sites(offers));
                let l = lattice.l as int;
                let (c, d) = choose|c: usize, d: int|
                    #![trigger before.contains(c), neighbour(c as int, d, l)]
                    before.contains(c) && 0 <= d < 4 && neighbour(c as int, d, l) == j;
                let i = choose|i: int| 0 <= i < before.len() && before[i] == c;
                let m = growth.members();
                assert forall|k: int| 1 <= k < m.len() implies #[trigger] bonded_to_earlier(m, k, l) by {
                    if k < before.len() {
                        assert(m[k] == before[k]);
                        assert(bonded_to_earlier(before, k, l));
                        let (jj, dd) = choose|jj: int, dd: int|
                            0 <= jj < k && 0 <= dd < 4 && #[trigger] neighbour(before[jj] as int, dd, l)
                                == before[k] as int;
                        assert(m[jj] == before[jj]);
                        assert(neighbour(m[jj] as int, dd, l) == m[k] as int);
                    } else {
                        assert(m[k] == j);
                        assert(m[i] == c);
                        assert(neighbour(m[i] as int, d, l) == m[k] as int);
                    }
                }
            }
        }
        next = growth.next_candidate(lattice);
    }
    proof {
        assert(growth.cluster_spin() != i8::MIN);
        if add_threshold >= UNIT_STEPS && (forall|i: int|
            0 <= i < old(lattice).spins@.len() ==> #[trigger] old(lattice).spins@[i] == old(lattice).spins@[0]) {
            assert forall|i: int| 0 <= i < growth.side() * growth.side() implies #[trigger] growth.lattice_spins()[i] == growth.cluster_spin() by {
                assert(old(lattice).spins@[i] == old(lattice).spins@[0]);
                assert(old(lattice).spins@[seed as int] == old(lattice).spins@[0]);
            }
            lemma_full_cluster(growth);
            assert forall|i: int| 0 <= i < growth.members().len() implies #[trigger] growth.members()[i] < growth.side() * growth.side() by {
                assert(growth.members().contains(growth.members()[i]));
            }
            lemma_distinct_indices(growth.members(), growth.side() * growth.side());
        }
    }
    let ghost members = growth.members();
    let ghost before = lattice.spins@;
    proof {
        let l = lattice.l as int;
        assert forall|c: usize, d: int|
            #![trigger members.contains(c), neighbour(c as int, d, l)]
            members.contains(c) && 0 <= d < 4 && before[neighbour(c as int, d, l)] == before[members[0] as int]
                && !members.contains(neighbour(c as int, d, l) as usize) implies exists|k: int|
            #![trigger offers[k]]
            0 <= k < offers.len() && offers[k].site == neighbour(c as int, d, l) as usize && !offers[k].joined by {
            let j = neighbour(c as int, d, l);
            assert(growth.members().contains(c) && neighbour(c as int, d, growth.side()) == j);
            assert(growth.rejected().contains(j));
            let k = choose|k: int| #![trigger offers[k]] 0 <= k < offers.len() && offers[k].site == j && !offers[k].joined;
            assert(0 <= j);
        }
    }
    proof {
        if add_threshold >= UNIT_STEPS {
            assert(closed_component(before, members, lattice.l as int)) by {
                assert forall|c: usize, d: int|
                    #![trigger members.contains(c), neighbour(c as int, d, lattice.l as int)]
                    members.contains(c) && 0 <= d < 4 && before[neighbour(c as int, d, lattice.l as int)]
                        == before[members[0] as int] implies members.contains(
                    neighbour(c as int, d, lattice.l as int) as usize,
                ) by {
                    assert(growth.members().contains(c) && neighbour(c as int, d, growth.side()) == neighbour(
                        c as int,
                        d,
                        lattice.l as int,
                    ));
                }
            }
        }
    }
    let size = growth.finish(lattice);
    proof {
        assert(cluster_flipped(before, lattice.spins@, members, size as int)) by {
            assert forall|k: int| 0 <= k < size implies #[trigger] members[k] < before.len() && before[members[k] as int]
                == before[members[0] as int] by {
                assert(members.contains(members[k]));
            }
        }
        assert forall|k: int| 0 <= k < lattice.spins@.len() implies #[trigger] lattice.spins@[k] != i8::MIN by {
            assert(before[k] != i8::MIN);
        }
        if old(lattice).unit_spins() {
            assert forall|k: int| 0 <= k < lattice.spins@.len() implies (#[trigger] lattice.spins@[k] == 1
                || lattice.spins@[k] == -1) by {
                assert(before[k] == 1 || before[k] == -1);
            }
        }
    }
    (size, Ghost(ClusterTrace { members, offers, positions }))
}

proof fn lemma_neighbour_of_site(x: int, y: int, l: int, d: int)
    requires
        0 <= x < l,
        0 <= y < l,
        0 <= d < 4,
    ensures
        neighbour(y * l + x, 1, l) == y * l + succ(x, l),
        neighbour(y * l + x, 3, l) == succ(y, l) * l + x,
        0 <= neighbour(y * l + x, d, l) < l * l,
{
    vstd::arithmetic::div_mod::lemma_fundamental_div_mod_converse(y * l + x, l, y, x);
    lemma_wrap_neighbours(x, l);
    lemma_wrap_neighbours(y, l);
    lemma_site_index(pred(x, l), y, l);
    lemma_site_index(succ(x, l), y, l);
    lemma_site_index(x, pred(y, l), l);
    lemma_site_index(x, succ(y, l), l);
}

/// `s + t` wrapped once into `0..l`.
spec fn wrapped(s: int, t: int, l: int) -> int {
    if s + t < l {
        s + t
    } else {
        s + t - l
    }
}

proof fn lemma_row_reached(g: ClusterGrowth, sx: int, y: int, t: int)
    requires
        g.wf(),
        0 <= sx < g.side(),
        0 <= y < g.side(),
        0 <= t < g.side(),
        g.members().contains((y * g.side() + sx) as usize),
        forall|c: usize, d: int|
            #![trigger g.members().contains(c), neighbour(c as int, d, g.side())]
            g.members().contains(c) && 0 <= d < 4 ==> g.members().contains(
                neighbour(c as int, d, g.side()) as usize,
            ),
    ensures
        g.members().contains((y * g.side() + wrapped(sx, t, g.side())) as usize),
    decreases t,
{
    let l = g.side();
    if t > 0 {
        lemma_row_reached(g, sx, y, t - 1);
        let x = wrapped(sx, t - 1, l);
        lemma_neighbour_of_site(x, y, l, 1);
        lemma_site_index(x, y, l);
        let c = (y * l + x) as usize;
        assert(g.members().contains(c) && neighbour(c as int, 1, l) == y * l + wrapped(sx, t, l));
    }
}

proof fn lemma_column_reached(g: ClusterGrowth, x: int, sy: int, t: int)
    requires
        g.wf(),
        0 <= x < g.side(),
        0 <= sy < g.side(),
        0 <= t < g.side(),
        g.members().contains((sy * g.side() + x) as usize),
        forall|c: usize, d: int|
            #![trigger g.members().contains(c), neighbour(c as int, d, g.side())]
            g.members().contains(c) && 0 <= d < 4 ==> g.members().contains(
                neighbour(c as int, d, g.side()) as usize,
            ),
    ensures
        g.members().contains((wrapped(sy, t, g.side()) * g.side() + x) as usize),
    decreases t,
{
    let l = g.side();
    if t > 0 {
        lemma_column_reached(g, x, sy, t - 1);
        let y = wrapped(sy, t - 1, l);
        lemma_neighbour_of_site(x, y, l, 3);
        lemma_site_index(x, y, l);
        let c = (y * l + x) as usize;
        assert(g.members().contains(c) && neighbour(c as int, 3, l) == wrapped(sy, t, l) * l + x);
    }
}

/// When every offered site was added (the cold limit, where the bond
/// probability is 1), nothing is left to offer and all spins agree, the
/// cluster is the whole lattice.
pub proof fn lemma_full_cluster(g: ClusterGrowth)
    requires
        g.wf(),
        g.closed(),
        g.rejected() == Set::<int>::empty(),
        forall|i: int| 0 <= i < g.side() * g.side() ==> #[trigger] g.lattice_spins()[i] == g.cluster_spin(),
    ensures
        forall|j: int| 0 <= j < g.side() * g.side() ==> #[trigger] g.members().contains(j as usize),
{
    let l = g.side();
    assert forall|c: usize, d: int|
        #![trigger g.members().contains(c), neighbour(c as int, d, g.side())]
        g.members().contains(c) && 0 <= d < 4 implies g.members().contains(
            neighbour(c as int, d, g.side()) as usize,
        ) by {
        let k = choose|k: int| 0 <= k < g.members().len() && g.members()[k] == c;
        assert(c < l * l);
        lemma_index_site(c as int, l);
        lemma_neighbour_of_site((c as int) % l, (c as int) / l, l, d);
        let j = neighbour(c as int, d, l);
        assert(g.lattice_spins()[j] == g.cluster_spin());
    }
    let c0 = g.members()[0];
    assert(g.members().contains(c0));
    assert(c0 < l * l);
    lemma_index_site(c0 as int, l);
    let sx = (c0 as int) % l;
    let sy = (c0 as int) / l;
    assert forall|j: int| 0 <= j < l * l implies #[trigger] g.members().contains(j as usize) by {
        lemma_index_site(j, l);
        let x = j % l;
        let y = j / l;
        let tx = if x >= sx { x - sx } else { x + l - sx };
        lemma_row_reached(g, sx, sy, tx);
        assert(wrapped(sx, tx, l) == x);
        let ty = if y >= sy { y - sy } else { y + l - sy };
        lemma_column_reached(g, x, sy, ty);
        assert(wrapped(sy, ty, l) == y);
    }
}

/// The indices below `k` form a finite set of `k` elements.
proof fn lemma_index_set(k: int)
    requires
        0 <= k <= usize::MAX + 1,
    ensures
        Set::new(|i: usize| i < k).finite(),
        Set::new(|i: usize| i < k).len() == k,
    decreases k,
{
    if k == 0 {
        assert(Set::new(|i: usize| i < k) =~= Set::<usize>::empty());
    } else {
        lemma_index_set(k - 1);
        assert(Set::new(|i: usize| i < k) =~= Set::new(|i: usize| i < k - 1).insert((k - 1) as usize));
    }
}

/// Distinct indices below `n` are at most `n`; exactly `n` when every index
/// below `n` occurs.
proof fn lemma_distinct_indices(s: Seq<usize>, n: int)
    requires
        0 <= n <= usize::MAX,
        s.no_duplicates(),
        forall|i: int| 0 <= i < s.len() ==> #[trigger] s[i] < n,
    ensures
        s.len() <= n,
        (forall|j: int| 0 <= j < n ==> #[trigger] s.contains(j as usize)) ==> s.len() == n,
{
    s.unique_seq_to_set();
    lemma_index_set(n);
    let all = Set::new(|i: usize| i < n);
    assert(s.to_set().subset_of(all)) by {
        assert forall|x: usize| #[trigger] s.to_set().contains(x) implies all.contains(x) by {
            let i = choose|i: int| 0 <= i < s.len() && s[i] == x;
        }
    }
    vstd::set_lib::lemma_len_subset(s.to_set(), all);
    if forall|j: int| 0 <= j < n ==> #[trigger] s.contains(j as usize) {
        assert(s.to_set() =~= all) by {
            assert forall|x: usize| all.contains(x) implies #[trigger] s.to_set().contains(x) by {
                assert(s.contains(x as int as usize));
            }
        }
    }
}

fn neighbour_index(l: usize, c: usize, d: usize) -> (r: usize)
    requires
        l > 0,
        c < l * l,
        d < 4,
        l * l <= usize::MAX,
    ensures
        r == neighbour(c as int, d as int, l as int),
        r < l * l,
{
    proof {
        lemma_index_site(c as int, l as int);
        lemma_wrap_neighbours((c % l) as int, l as int);
        lemma_wrap_neighbours((c / l) as int, l as int);
        lemma_site_index(pred((c % l) as int, l as int), (c / l) as int, l as int);
        lemma_site_index(succ((c % l) as int, l as int), (c / l) as int, l as int);
        lemma_site_index((c % l) as int, pred((c / l) as int, l as int), l as int);
        lemma_site_index((c % l) as int, succ((c / l) as int, l as int), l as int);
        assert((c % l) + l <= l * l) by (nonlinear_arith)
            requires
                c % l < l,
        ;
        assert((c / l) + l <= l * l) by (nonlinear_arith)
            requires
                c / l < l,
        ;
    }
    let x = c % l;
    let y = c / l;
    if d == 0 {
        y * l + (x + l - 1) % l
    } else if d == 1 {
        y * l + (x + 1) % l
    } else if d == 2 {
        ((y + l - 1) % l) * l + x
    } else {
        ((y + 1) % l) * l + x
    }
}

} // verus!
