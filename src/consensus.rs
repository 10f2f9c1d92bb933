use vstd::prelude::*;

use crate::certificate::{CertView, Certificate, Digest, Round, distinct_digests, sorted_by_key};
use crate::committee::{AuthorityId, Committee, quorum_of};
use crate::committer::{
    Committer, commit_of, committed_rounds, lemma_no_duplicate_commit, lemma_sorted_unique, released_after,
};
use crate::store::{State, fits, next_floor, was_released};
use crate::virtual_dag::{Filter, VirtualState};

verus! {

/// Digests of the certificates at virtual round `r` among the first `k`
/// entries of the virtual DAG, in admission order.
pub open spec fn round_digests(dag: Seq<CertView>, r: int, k: int) -> Seq<Digest>
    decreases k,
{
    if k <= 0 {
        Seq::empty()
    } else {
        round_digests(dag, r, k - 1) + if dag[k - 1].virtual_round == r {
            seq![dag[k - 1].digest]
        } else {
            Seq::empty()
        }
    }
}

/// Whether the virtual DAG admits `c`: not behind the frontier, a new
/// digest, and no other certificate of its author at its virtual round.
pub open spec fn admits(vs: &VirtualState, c: CertView) -> bool {
    c.virtual_round >= vs.frontier && !vs.has_digest(c.digest) && !vs.present(c.author as int, c.virtual_round as int)
}

/// The virtual round after `r` (saturating).
pub open spec fn next_round(r: u64) -> u64 {
    if r < u64::MAX {
        (r + 1) as u64
    } else {
        r
    }
}

/// Whether the physical store takes `c` in.
pub open spec fn stores(st: &State, c: CertView) -> bool {
    c.round >= st.gc_floor && !st.has_digest(c.digest) && fits(st.store(), c)
}

/// Whether the driver admits `c` to the virtual DAG: it keeps the physical
/// store's round order and the virtual DAG admits it.
pub open spec fn accepts(node: &Consensus, c: CertView) -> bool {
    fits(node.state.store(), c) && admits(&node.virtual_state, c)
}

/// Whether the local authority may leave virtual round `r` before the timer:
/// an even round once its leader is confirmed or provably skipped, an odd
/// round once its leader has arrived.
pub open spec fn early_signal(vs: &VirtualState, c: &Committee, r: int) -> bool {
    if r % 2 == 0 {
        vs.qc_holds(c, r) || vs.tc_holds(c, r)
    } else {
        vs.has_leader(c, r)
    }
}

/// The consensus driver: both DAGs, the commit rule, and the round-advance
/// state that decides when the local authority moves to the next virtual
/// round.
pub struct Consensus {
    /// The local authority.
    pub name: AuthorityId,
    /// The leader timeout, in milliseconds.
    pub timeout: u64,
    pub gc_depth: Round,
    pub state: State,
    pub virtual_state: VirtualState,
    pub committer: Committer,
    /// The virtual round last published to the proposer.
    pub virtual_round: Round,
    /// Virtual round of the last certificate received.
    pub latest_round: Round,
    /// Candidate virtual parents, once a quorum of the latest round is known.
    pub quorum: Option<(Vec<Digest>, Round)>,
    /// Whether a leader signal allows advancing before the timer.
    pub advance_early: bool,
    /// Every certificate released so far.
    pub emitted: Ghost<Seq<CertView>>,
    /// Every certificate delivered so far.
    pub seen: Ghost<Seq<CertView>>,
}

/// Within `s`, a digest names one certificate.
pub open spec fn digest_names_one(s: Seq<CertView>) -> bool {
    forall|i: int, j: int|
        0 <= i < s.len() && 0 <= j < s.len() && (#[trigger] s[i]).digest == (#[trigger] s[j]).digest ==> s[i] == s[j]
}

impl Consensus {
    pub open spec fn committee(&self) -> Committee {
        self.committer.committee
    }

    /// `c` does not contradict any certificate delivered before: a digest
    /// names one certificate.
    pub open spec fn consistent(&self, c: CertView) -> bool {
        forall|i: int| 0 <= i < self.seen@.len() && (#[trigger] self.seen@[i]).digest == c.digest ==> self.seen@[i] == c
    }

    pub open spec fn wf(&self) -> bool {
        &&& self.committer.wf()
        &&& self.state.wf()
        &&& self.virtual_state.wf()
        &&& self.state.last_committed@.len() == self.committee().size()
        &&& self.state.gc_depth == self.gc_depth
        // Every release is either below the floor or recorded as released.
        &&& forall|p: int|
            0 <= p < self.emitted@.len() ==> #[trigger] self.emitted@[p].round < self.state.gc_floor || was_released(
                self.emitted@[p],
                self.state.released@,
            )
        &&& distinct_digests(self.emitted@)
        &&& digest_names_one(self.seen@)
        &&& forall|x: CertView| self.state.store().contains(x) ==> self.seen@.contains(x)
        &&& forall|p: int| 0 <= p < self.emitted@.len() ==> self.seen@.contains(#[trigger] self.emitted@[p])
        // Every admitted certificate at or above the floor is stored.
        &&& forall|i: int|
            0 <= i < self.virtual_state.dag().len() && (#[trigger] self.virtual_state.dag()[i]).round
                >= self.state.gc_floor ==> self.state.store().contains(self.virtual_state.dag()[i])
    }

    /// A driver with both DAGs empty and every last-committed round at zero.
    /// There are no genesis certificates: certificates of round 1 cite no
    /// parents, and round zero counts as committed for every authority.
    pub fn new(name: AuthorityId, committee: Committee, timeout: u64, gc_depth: Round) -> (r: Consensus)
        requires
            committee.wf(),
        ensures
            r.wf(),
            r.name == name,
            r.committee() == committee,
            r.timeout == timeout,
            r.gc_depth == gc_depth,
            r.virtual_round == 1,
            r.latest_round == 1,
            r.quorum is None,
            !r.advance_early,
            r.state.store().len() == 0,
            r.state.last_committed@ == Seq::new(committee.size() as nat, |i: int| 0u64),
            r.state.gc_floor == 0,
            r.virtual_state.dag().len() == 0,
            r.virtual_state.frontier == 0,
            r.committer.last_leader_round == 0,
            r.emitted@.len() == 0,
            r.seen@.len() == 0,
    {
        let n = committee.stakes.len();
        Consensus {
            name,
            timeout,
            gc_depth,
            state: State::new(n, gc_depth),
            virtual_state: VirtualState::new(),
            committer: Committer::new(committee),
            virtual_round: 1,
            latest_round: 1,
            quorum: None,
            advance_early: false,
            emitted: Ghost(Seq::empty()),
            seen: Ghost(Seq::empty()),
        }
    }

    /// Digests of the virtual DAG's certificates at round `r`.
    pub fn round_parents(&self, r: Round) -> (res: Vec<Digest>)
        ensures
            res@ == round_digests(self.virtual_state.dag(), r as int, self.virtual_state.dag().len() as int),
    {
        let ghost dag = self.virtual_state.dag();
        let mut res: Vec<Digest> = Vec::new();
        let mut k: usize = 0;
        while k < self.virtual_state.certs.len()
            invariant
                dag == self.virtual_state.dag(),
                0 <= k <= dag.len(),
                res@ == round_digests(dag, r as int, k as int),
            decreases dag.len() - k,
        {
            proof {
                assert(dag[k as int] == self.virtual_state.certs@[k as int]@);
            }
            if self.virtual_state.certs[k].virtual_round == r {
                res.push(self.virtual_state.certs[k].digest);
            }
            k = k + 1;
            proof {
                assert(res@ =~= round_digests(dag, r as int, k as int));
            }
        }
        res
    }

    /// Advances to the next virtual round when the timer expired or a leader
    /// signal arrived, provided a quorum candidate is known. The new virtual
    /// round is the one right after the candidate's round, so the parents
    /// published with it come from the virtual round before it.
    pub fn try_advance(&mut self, timer_expired: bool) -> (res: Option<(Vec<Digest>, Round)>)
        ensures
            (timer_expired || old(self).advance_early) && old(self).quorum is Some ==> {
                &&& res is Some
                &&& res.unwrap().0@ == old(self).quorum.unwrap().0@
                &&& final(self).virtual_round == next_round(old(self).quorum.unwrap().1)
                &&& res.unwrap().1 == final(self).virtual_round
                &&& final(self).quorum is None
                &&& !final(self).advance_early
                &&& final(self).state == old(self).state
                &&& final(self).virtual_state == old(self).virtual_state
                &&& final(self).committer == old(self).committer
                &&& final(self).emitted == old(self).emitted
                &&& final(self).seen == old(self).seen
                &&& final(self).latest_round == old(self).latest_round
                &&& final(self).name == old(self).name
                &&& final(self).gc_depth == old(self).gc_depth
            },
            !((timer_expired || old(self).advance_early) && old(self).quorum is Some) ==> res is None && *final(self)
                == *old(self),
    {
        if (timer_expired || self.advance_early) && self.quorum.is_some() {
            let q = self.quorum.take();
            self.advance_early = false;
            match q {
                Some((parents, r)) => {
                    self.virtual_round = if r < u64::MAX {
                        r + 1
                    } else {
                        r
                    };
                    Some((parents, self.virtual_round))
                },
                None => None,
            }
        } else {
            None
        }
    }

    /// Stores `cert` in the physical DAG and tries to admit it to the
    /// virtual DAG; returns whether it was admitted there.
    pub fn store_certificate(&mut self, cert: &Certificate) -> (admitted: bool)
        requires
            old(self).wf(),
            old(self).consistent(cert@),
        ensures
            final(self).wf(),
            forall|x: CertView|
                final(self).state.store().contains(x) <==> (old(self).state.store().contains(x) || (x == cert@
                    && stores(&old(self).state, cert@))),
            final(self).state.last_committed == old(self).state.last_committed,
            final(self).state.gc_floor == old(self).state.gc_floor,
            final(self).state.released == old(self).state.released,
            admitted == accepts(old(self), cert@),
            admitted ==> final(self).virtual_state.dag() == old(self).virtual_state.dag().push(cert@)
                && final(self).virtual_state.frontier == cert.virtual_round,
            !admitted ==> final(self).virtual_state == old(self).virtual_state,
            final(self).committer == old(self).committer,
            final(self).name == old(self).name,
            final(self).virtual_round == old(self).virtual_round,
            final(self).latest_round == old(self).latest_round,
            final(self).quorum == old(self).quorum,
            final(self).advance_early == old(self).advance_early,
            final(self).emitted == old(self).emitted,
            final(self).seen@ == old(self).seen@.push(cert@),
            final(self).gc_depth == old(self).gc_depth,
            final(self).timeout == old(self).timeout,
    {
        let ghost old_store = self.state.store();
        let fit = self.state.fits_store(cert);
        self.state.add(cert);
        let admitted = if fit {
            self.virtual_state.try_add(cert)
        } else {
            false
        };
        proof {
            let seen2 = self.seen@.push(cert@);
            self.seen = Ghost(seen2);
            assert(seen2.contains(cert@)) by {
                assert(seen2[seen2.len() - 1] == cert@);
            }
            assert forall|i: int, j: int|
                0 <= i < seen2.len() && 0 <= j < seen2.len() && (#[trigger] seen2[i]).digest == (#[trigger] seen2[j]).digest
                    implies seen2[i] == seen2[j] by {
                if i < seen2.len() - 1 {
                    assert(seen2[i] == old(self).seen@[i]);
                }
                if j < seen2.len() - 1 {
                    assert(seen2[j] == old(self).seen@[j]);
                }
            }
            assert forall|x: CertView| self.state.store().contains(x) implies seen2.contains(x) by {
                if old_store.contains(x) {
                    assert(old(self).state.store().contains(x));
                    assert(old(self).seen@.contains(x));
                    let k = choose|k: int| 0 <= k < old(self).seen@.len() && old(self).seen@[k] == x;
                    assert(seen2[k] == x);
                }
            }
            assert forall|p: int| 0 <= p < self.emitted@.len() implies seen2.contains(#[trigger] self.emitted@[p]) by {
                let k = choose|k: int| 0 <= k < old(self).seen@.len() && old(self).seen@[k] == self.emitted@[p];
                assert(seen2[k] == self.emitted@[p]);
            }
            assert forall|p: int| 0 <= p < self.emitted@.len() implies #[trigger] self.emitted@[p].round < self.state.gc_floor
                || was_released(self.emitted@[p], self.state.released@) by {
                assert(old(self).emitted@[p] == self.emitted@[p]);
            }
            let d = self.virtual_state.dag();
            assert forall|i: int| 0 <= i < d.len() && (#[trigger] d[i]).round >= self.state.gc_floor implies self.state.store().contains(d[i]) by {
                if i < old(self).virtual_state.dag().len() {
                    assert(d[i] == old(self).virtual_state.dag()[i]);
                } else {
                    assert(d[i] == cert@);
                    if old(self).state.has_digest(cert.digest) {
                        let k = choose|k: int| 0 <= k < old_store.len() && #[trigger] old_store[k].digest == cert.digest;
                        assert(old_store.contains(old_store[k]));
                        assert(old(self).seen@.contains(old_store[k]));
                        let m = choose|m: int| 0 <= m < old(self).seen@.len() && old(self).seen@[m] == old_store[k];
                        assert(old(self).seen@[m].digest == cert@.digest);
                        assert(old_store[k] == cert@);
                    }
                }
            }
        }
        admitted
    }

    /// Runs the commit rule for `cert`, just admitted to the virtual DAG,
    /// and records what it releases.
    pub fn commit(&mut self, cert: &Certificate) -> (out: Vec<Certificate>)
        requires
            old(self).wf(),
            old(self).virtual_state.dag().contains(cert@),
        ensures
            final(self).wf(),
            old(self).committer.commits(&old(self).virtual_state, cert.virtual_round as int) ==> {
                &&& out@.map_values(|c: Certificate| c@) == commit_of(
                    old(self).state.store(),
                    old(self).virtual_state.leader_of(&old(self).committee(), cert.virtual_round - 1),
                    old(self).state.released@,
                )
                &&& released_after(
                    old(self).state.released@,
                    out@.map_values(|c: Certificate| c@),
                    final(self).state.gc_floor,
                    final(self).state.released@,
                )
                &&& committed_rounds(
                    old(self).state.last_committed@,
                    out@.map_values(|c: Certificate| c@),
                    final(self).state.last_committed@,
                )
                &&& final(self).state.gc_floor == next_floor(
                    old(self).state.gc_floor as int,
                    final(self).state.last_committed@,
                    old(self).gc_depth as int,
                )
                &&& forall|x: CertView|
                    final(self).state.store().contains(x) <==> (old(self).state.store().contains(x) && x.round
                        >= final(self).state.gc_floor)
            },
            !old(self).committer.commits(&old(self).virtual_state, cert.virtual_round as int) ==> out@.len() == 0
                && final(self).state == old(self).state,
            final(self).committer.last_leader_round == if old(self).committer.commits(
                &old(self).virtual_state,
                cert.virtual_round as int,
            ) || old(self).committer.skips(&old(self).virtual_state, cert.virtual_round as int) {
                (cert.virtual_round - 1) as u64
            } else {
                old(self).committer.last_leader_round
            },
            sorted_by_key(out@.map_values(|c: Certificate| c@)),
            distinct_digests(out@.map_values(|c: Certificate| c@)),
            forall|p: int|
                0 <= p < out@.len() ==> !was_released(#[trigger] out@[p]@, old(self).state.released@),
            final(self).emitted@ == old(self).emitted@ + out@.map_values(|c: Certificate| c@),
            final(self).committee() == old(self).committee(),
            final(self).virtual_state == old(self).virtual_state,
            final(self).name == old(self).name,
            final(self).virtual_round == old(self).virtual_round,
            final(self).latest_round == old(self).latest_round,
            final(self).quorum == old(self).quorum,
            final(self).advance_early == old(self).advance_early,
            final(self).seen == old(self).seen,
            final(self).gc_depth == old(self).gc_depth,
            final(self).timeout == old(self).timeout,
    {
        let ghost rel0 = self.state.released@;
        let ghost store0 = self.state.store();
        let ghost floor0 = self.state.gc_floor;
        let out = self.committer.try_commit(cert, &mut self.state, &self.virtual_state);
        proof {
            let outv = out@.map_values(|c: Certificate| c@);
            let e0 = self.emitted@;
            let e2 = e0 + outv;
            assert forall|p: int| 0 <= p < e2.len() implies #[trigger] e2[p].round < self.state.gc_floor || was_released(
                e2[p],
                self.state.released@,
            ) by {
                if p < e0.len() {
                    assert(e2[p] == e0[p]);
                    if e0[p].round >= self.state.gc_floor {
                        assert(rel0.contains((e0[p].digest, e0[p].round)));
                    }
                } else {
                    let q = p - e0.len();
                    assert(e2[p] == outv[q]);
                    assert(outv[q] == out@[q]@);
                    if outv[q].round >= self.state.gc_floor {
                        assert((e2[p].digest, e2[p].round) == outv[q].digest_round());
                    }
                }
            }
            assert forall|q: int| 0 <= q < outv.len() implies self.seen@.contains(#[trigger] outv[q]) by {
                assert(outv[q] == out@[q]@);
                assert(store0.contains(outv[q]));
            }
            assert forall|p: int, q: int|
                0 <= p < e0.len() && 0 <= q < outv.len() && #[trigger] e0[p].digest == #[trigger] outv[q].digest
                    implies e0[p] == outv[q] by {
                assert(self.seen@.contains(e0[p]));
                assert(self.seen@.contains(outv[q]));
                let a = choose|a: int| 0 <= a < self.seen@.len() && self.seen@[a] == e0[p];
                let b = choose|b: int| 0 <= b < self.seen@.len() && self.seen@[b] == outv[q];
                assert(self.seen@[a].digest == self.seen@[b].digest);
            }
            assert forall|q: int| 0 <= q < outv.len() implies #[trigger] outv[q].round >= floor0 && !was_released(outv[q], rel0) by {
                assert(outv[q] == out@[q]@);
                let k = choose|k: int| 0 <= k < store0.len() && store0[k] == outv[q];
            }
            lemma_no_duplicate_commit(e0, outv, rel0, floor0);
            assert forall|p: int| 0 <= p < e2.len() implies self.seen@.contains(#[trigger] e2[p]) by {
                if p < e0.len() {
                    assert(e2[p] == e0[p]);
                } else {
                    assert(e2[p] == outv[p - e0.len()]);
                }
            }
            self.emitted = Ghost(e2);
            assert(self.state.gc_floor >= floor0);
            let d = self.virtual_state.dag();
            assert forall|i: int| 0 <= i < d.len() && (#[trigger] d[i]).round >= self.state.gc_floor implies self.state.store().contains(d[i]) by {
                assert(store0.contains(d[i]));
            }
            assert forall|x: CertView| self.state.store().contains(x) implies self.seen@.contains(x) by {
                assert(store0.contains(x));
            }
        }
        out
    }

    /// Refreshes the round-advance state after a certificate of virtual
    /// round `r` was admitted. Only when the local authority has a
    /// certificate at `r`: the candidate parents are the round's digests if
    /// its authors hold a quorum of stake, and the early signal is taken
    /// from the round's leader evidence.
    pub fn refresh_round(&mut self, r: Round)
        requires
            old(self).wf(),
        ensures
            final(self).wf(),
            final(self).advance_early == old(self).advance_early || final(self).advance_early == early_signal(
                &old(self).virtual_state,
                &old(self).committee(),
                r as int,
            ),
            old(self).virtual_state.present(old(self).name as int, r as int) ==> {
                &&& (old(self).virtual_state.support(&old(self).committee(), r as int, Filter::Any) >= quorum_of(
                    old(self).committee().total(),
                ) ==> (final(self).quorum matches Some((p, q)) && q == r && p@ == round_digests(
                    old(self).virtual_state.dag(),
                    r as int,
                    old(self).virtual_state.dag().len() as int,
                )))
                &&& (old(self).virtual_state.support(&old(self).committee(), r as int, Filter::Any) < quorum_of(
                    old(self).committee().total(),
                ) ==> final(self).quorum is None)
                &&& final(self).advance_early == early_signal(&old(self).virtual_state, &old(self).committee(), r as int)
            },
            !old(self).virtual_state.present(old(self).name as int, r as int) ==> final(self).quorum == old(self).quorum
                && final(self).advance_early == old(self).advance_early,
            final(self).state == old(self).state,
            final(self).virtual_state == old(self).virtual_state,
            final(self).committer == old(self).committer,
            final(self).emitted == old(self).emitted,
            final(self).seen == old(self).seen,
            final(self).name == old(self).name,
            final(self).virtual_round == old(self).virtual_round,
            final(self).latest_round == old(self).latest_round,
            final(self).gc_depth == old(self).gc_depth,
            final(self).timeout == old(self).timeout,
    {
        if self.virtual_state.find(self.name, r).is_none() {
            return;
        }
        let c = &self.committer.committee;
        let present = self.virtual_state.stake_where(c, r, Filter::Any);
        if present >= c.quorum_threshold() {
            let parents = self.round_parents(r);
            self.quorum = Some((parents, r));
        } else {
            self.quorum = None;
        }
        let c = &self.committer.committee;
        self.advance_early = if r % 2 == 0 {
            self.virtual_state.qc(c, r) || self.virtual_state.tc(c, r)
        } else {
            self.virtual_state.steady_leader(c, r).is_some()
        };
    }

    /// Handles one certificate: stores it, admits it to the virtual DAG if
    /// it does not regress the frontier, runs the commit rule, and refreshes
    /// the round-advance state for its virtual round. Returns the
    /// certificates to release, in order; nothing when the virtual DAG
    /// refused it.
    pub fn process_certificate(&mut self, cert: Certificate) -> (out: Vec<Certificate>)
        requires
            old(self).wf(),
            old(self).consistent(cert@),
        ensures
            final(self).wf(),
            final(self).name == old(self).name,
            final(self).committee() == old(self).committee(),
            final(self).gc_depth == old(self).gc_depth,
            final(self).timeout == old(self).timeout,
            final(self).virtual_round == old(self).virtual_round,
            final(self).seen@ == old(self).seen@.push(cert@),
            final(self).emitted@ == old(self).emitted@ + out@.map_values(|c: Certificate| c@),
            sorted_by_key(out@.map_values(|c: Certificate| c@)),
            distinct_digests(out@.map_values(|c: Certificate| c@)),
            forall|p: int|
                0 <= p < out@.len() ==> !was_released(#[trigger] out@[p]@, old(self).state.released@),
            // The physical store: the certificate is stored unless known,
            // below the floor or out of round order; then everything below
            // the new floor is dropped.
            forall|x: CertView|
                final(self).state.store().contains(x) <==> ((old(self).state.store().contains(x) || (x == cert@
                    && stores(&old(self).state, cert@))) && x.round >= final(self).state.gc_floor),
            // Refused by the virtual DAG: nothing else changes.
            !accepts(old(self), cert@) ==> {
                &&& out@.len() == 0
                &&& final(self).virtual_state == old(self).virtual_state
                &&& final(self).state.last_committed == old(self).state.last_committed
                &&& final(self).state.gc_floor == old(self).state.gc_floor
                &&& final(self).state.released == old(self).state.released
                &&& final(self).committer == old(self).committer
                &&& final(self).latest_round == old(self).latest_round
                &&& final(self).quorum == old(self).quorum
                &&& final(self).advance_early == old(self).advance_early
            },
            accepts(old(self), cert@) ==> {
                let vs = final(self).virtual_state;
                let r = cert.virtual_round as int;
                let c = old(self).committee();
                &&& vs.dag() == old(self).virtual_state.dag().push(cert@)
                &&& vs.frontier == cert.virtual_round
                &&& final(self).latest_round == cert.virtual_round
                &&& final(self).committer.last_leader_round == if old(self).committer.commits(&vs, r)
                    || old(self).committer.skips(&vs, r) {
                    (r - 1) as u64
                } else {
                    old(self).committer.last_leader_round
                }
                // Commit: the leader's ancestry not released before, in store order.
                &&& old(self).committer.commits(&vs, r) ==> {
                    &&& forall|st: Seq<CertView>|
                        #![trigger sorted_by_key(st)]
                        sorted_by_key(st) && (forall|x: CertView|
                            st.contains(x) <==> (old(self).state.store().contains(x) || (x == cert@ && stores(
                                &old(self).state,
                                cert@,
                            ))))
                            ==> out@.map_values(|c: Certificate| c@) == commit_of(
                            st,
                            vs.leader_of(&c, r - 1),
                            old(self).state.released@,
                        )
                    &&& released_after(
                        old(self).state.released@,
                        out@.map_values(|c: Certificate| c@),
                        final(self).state.gc_floor,
                        final(self).state.released@,
                    )
                    &&& committed_rounds(
                        old(self).state.last_committed@,
                        out@.map_values(|c: Certificate| c@),
                        final(self).state.last_committed@,
                    )
                    &&& final(self).state.gc_floor == next_floor(
                        old(self).state.gc_floor as int,
                        final(self).state.last_committed@,
                        old(self).gc_depth as int,
                    )
                }
                &&& !old(self).committer.commits(&vs, r) ==> {
                    &&& out@.len() == 0
                    &&& final(self).state.last_committed == old(self).state.last_committed
                    &&& final(self).state.gc_floor == old(self).state.gc_floor
                    &&& final(self).state.released == old(self).state.released
                }
                // Round-advance state, over the virtual DAG with the certificate.
                &&& vs.present(old(self).name as int, r) ==> {
                    &&& (vs.support(&c, r, Filter::Any) >= quorum_of(c.total()) ==> (final(self).quorum matches Some(
                        (p, q),
                    ) && q == r && p@ == round_digests(vs.dag(), r, vs.dag().len() as int)))
                    &&& (vs.support(&c, r, Filter::Any) < quorum_of(c.total()) ==> final(self).quorum is None)
                    &&& final(self).advance_early == early_signal(&vs, &c, r)
                }
                &&& !vs.present(old(self).name as int, r) ==> final(self).quorum == old(self).quorum
                    && final(self).advance_early == old(self).advance_early
            },
    {
        if !self.store_certificate(&cert) {
            proof {
                assert(self.emitted@ =~= old(self).emitted@ + Seq::<Certificate>::empty().map_values(|c: Certificate| c@));
                assert forall|x: CertView| self.state.store().contains(x) implies x.round >= self.state.gc_floor by {
                    let k = choose|k: int| 0 <= k < self.state.store().len() && self.state.store()[k] == x;
                }
            }
            return Vec::new();
        }
        self.latest_round = cert.virtual_round;
        let ghost mid = self.state.store();
        proof {
            assert(self.virtual_state.dag()[self.virtual_state.dag().len() - 1] == cert@);
            assert forall|x: CertView| mid.contains(x) implies x.round >= self.state.gc_floor by {
                let k = choose|k: int| 0 <= k < mid.len() && mid[k] == x;
            }
        }
        let out = self.commit(&cert);
        proof {
            assert forall|st: Seq<CertView>|
                #![trigger sorted_by_key(st)]
                sorted_by_key(st) && (forall|x: CertView|
                    st.contains(x) <==> (old(self).state.store().contains(x) || (x == cert@ && stores(
                        &old(self).state,
                        cert@,
                    )))) implies st == mid by {
                lemma_sorted_unique(st, mid);
            }
        }
        self.refresh_round(cert.virtual_round);
        out
    }
}

} // verus!
