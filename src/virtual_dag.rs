use vstd::prelude::*;

use crate::certificate::{CertView, Certificate, Digest, Round, distinct_digests, contains_digest};
use crate::committee::{
    AuthorityId, Committee, MAX_TOTAL_STAKE, Stake, lemma_prefix_stake_mono, lemma_thresholds_overlap,
    owner_from, prefix_stake, quorum_of, validity_of,
};

verus! {

/// Which certificates of a virtual round count towards a stake sum.
#[derive(Clone, Copy, Debug, PartialEq, Eq)]
pub enum Filter {
    /// Every certificate of the round.
    Any,
    /// Those whose virtual parents hold the digest.
    Supports(Digest),
    /// Those whose virtual parents do not hold the digest.
    Ignores(Digest),
}

/// Whether `c` is the certificate of authority `a` at virtual round `r`.
pub open spec fn is_at(c: CertView, a: int, r: int) -> bool {
    c.author == a && c.virtual_round == r
}

/// Whether `c` passes the filter.
pub open spec fn passes(c: CertView, f: Filter) -> bool {
    match f {
        Filter::Any => true,
        Filter::Supports(d) => c.virtual_parents.contains(d),
        Filter::Ignores(d) => !c.virtual_parents.contains(d),
    }
}

/// Whether authority `a` has a certificate at virtual round `r` that passes `f`.
pub open spec fn counts(dag: Seq<CertView>, r: int, a: int, f: Filter) -> bool {
    exists|i: int| 0 <= i < dag.len() && is_at(#[trigger] dag[i], a, r) && passes(dag[i], f)
}

/// Stake of the first `n` authorities that count at round `r` under `f`.
pub open spec fn stake_at(stakes: Seq<u64>, dag: Seq<CertView>, r: int, f: Filter, n: int) -> int
    decreases n,
{
    if n <= 0 {
        0
    } else {
        stake_at(stakes, dag, r, f, n - 1) + if counts(dag, r, n - 1, f) && n - 1 < stakes.len() {
            stakes[n - 1] as int
        } else {
            0
        }
    }
}

/// The authority designated to lead `round`: stake units are laid out in
/// authority order and leader rounds walk through them one by one. This
/// deterministic stake-weighted rotation stands in for a pseudo-random
/// stake-weighted draw: every validator computes it from the round and the
/// committee alone, and each authority leads in proportion to its stake.
pub open spec fn leader_author(stakes: Seq<u64>, round: int) -> int {
    owner_from(stakes, 0, (round / 2) % crate::committee::total_of(stakes))
}

/// The virtual DAG: admitted certificates indexed by their virtual round.
pub struct VirtualState {
    pub certs: Vec<Certificate>,
    /// Highest virtual round admitted so far.
    pub frontier: Round,
}

impl VirtualState {
    pub open spec fn dag(&self) -> Seq<CertView> {
        self.certs@.map_values(|c: Certificate| c@)
    }

    /// At most one certificate per digest and per (author, virtual round),
    /// none above the frontier.
    pub open spec fn wf(&self) -> bool {
        let d = self.dag();
        &&& distinct_digests(d)
        &&& forall|i: int, j: int|
            0 <= i < d.len() && 0 <= j < d.len() && i != j ==> !(#[trigger] d[i].author == #[trigger] d[j].author
                && d[i].virtual_round == d[j].virtual_round)
        &&& forall|i: int| 0 <= i < d.len() ==> #[trigger] d[i].virtual_round <= self.frontier
    }

    pub open spec fn has_digest(&self, dg: Digest) -> bool {
        exists|i: int| 0 <= i < self.dag().len() && #[trigger] self.dag()[i].digest == dg
    }

    /// Some certificate has been admitted at virtual round `r`.
    pub open spec fn has_round(&self, r: int) -> bool {
        exists|i: int| 0 <= i < self.dag().len() && (#[trigger] self.dag()[i]).virtual_round == r
    }

    pub open spec fn present(&self, a: int, r: int) -> bool {
        counts(self.dag(), r, a, Filter::Any)
    }

    /// The certificate of authority `a` at virtual round `r` (meaningful when present).
    pub open spec fn cert_at(&self, a: int, r: int) -> CertView {
        self.dag()[choose|i: int| 0 <= i < self.dag().len() && is_at(#[trigger] self.dag()[i], a, r)]
    }

    /// Whether the steady leader of `round` has been received.
    pub open spec fn has_leader(&self, c: &Committee, round: int) -> bool {
        round % 2 == 1 && self.present(leader_author(c.stakes@, round), round)
    }

    pub open spec fn leader_of(&self, c: &Committee, round: int) -> CertView {
        self.cert_at(leader_author(c.stakes@, round), round)
    }

    pub open spec fn support(&self, c: &Committee, round: int, f: Filter) -> int {
        stake_at(c.stakes@, self.dag(), round, f, c.size())
    }

    /// A quorum at `round` built on the leader of `round - 1`.
    pub open spec fn qc_holds(&self, c: &Committee, round: int) -> bool {
        round >= 1 && self.has_leader(c, round - 1) && self.support(
            c,
            round,
            Filter::Supports(self.leader_of(c, round - 1).digest),
        ) >= quorum_of(c.total())
    }

    /// A validity-sized set at `round` that did not build on the leader of `round - 1`.
    pub open spec fn tc_holds(&self, c: &Committee, round: int) -> bool {
        round >= 1 && self.has_leader(c, round - 1) && self.support(
            c,
            round,
            Filter::Ignores(self.leader_of(c, round - 1).digest),
        ) >= validity_of(c.total())
    }

    pub fn new() -> (r: VirtualState)
        ensures
            r.wf(),
            r.dag().len() == 0,
            r.frontier == 0,
    {
        let r = VirtualState { certs: Vec::new(), frontier: 0 };
        proof {
            assert(r.dag().len() == 0);
        }
        r
    }

    /// Index of the certificate of `a` at virtual round `r`, if any.
    pub fn find(&self, a: AuthorityId, r: Round) -> (res: Option<usize>)
        requires
            self.wf(),
        ensures
            res is None <==> !self.present(a as int, r as int),
            res matches Some(i) ==> i < self.dag().len() && is_at(self.dag()[i as int], a as int, r as int)
                && self.dag()[i as int] == self.cert_at(a as int, r as int),
    {
        let mut i: usize = 0;
        while i < self.certs.len()
            invariant
                self.wf(),
                0 <= i <= self.certs@.len(),
                forall|k: int| 0 <= k < i ==> !is_at(#[trigger] self.dag()[k], a as int, r as int),
            decreases self.certs@.len() - i,
        {
            if self.certs[i].author == a && self.certs[i].virtual_round == r {
                proof {
                    assert(is_at(self.dag()[i as int], a as int, r as int));
                    let j = choose|j: int| 0 <= j < self.dag().len() && is_at(#[trigger] self.dag()[j], a as int, r as int);
                    assert(self.dag()[i as int].author == self.dag()[j].author);
                }
                return Some(i);
            }
            i = i + 1;
        }
        proof {
            if self.present(a as int, r as int) {
                let j = choose|j: int| 0 <= j < self.dag().len() && is_at(#[trigger] self.dag()[j], a as int, r as int) && passes(self.dag()[j], Filter::Any);
                assert(!is_at(self.dag()[j], a as int, r as int));
            }
        }
        None
    }

    /// Whether a certificate with digest `dg` has been admitted.
    pub fn contains(&self, dg: Digest) -> (r: bool)
        ensures
            r == self.has_digest(dg),
    {
        let mut i: usize = 0;
        while i < self.certs.len()
            invariant
                0 <= i <= self.certs@.len(),
                forall|k: int| 0 <= k < i ==> #[trigger] self.dag()[k].digest != dg,
            decreases self.certs@.len() - i,
        {
            if self.certs[i].digest == dg {
                proof {
                    assert(self.dag()[i as int].digest == dg);
                }
                return true;
            }
            i = i + 1;
        }
        false
    }

    /// Admits `cert` unless its virtual round lies behind the frontier, its
    /// digest was already admitted, or its author already has a certificate at
    /// that virtual round.
    pub fn try_add(&mut self, cert: &Certificate) -> (r: bool)
        requires
            old(self).wf(),
        ensures
            final(self).wf(),
            r == (cert.virtual_round >= old(self).frontier && !old(self).has_digest(cert.digest)
                && !old(self).present(cert.author as int, cert.virtual_round as int)),
            r ==> final(self).dag() == old(self).dag().push(cert@) && final(self).frontier == cert.virtual_round,
            !r ==> *final(self) == *old(self),
    {
        if cert.virtual_round < self.frontier {
            return false;
        }
        if self.contains(cert.digest) {
            return false;
        }
        if self.find(cert.author, cert.virtual_round).is_some() {
            return false;
        }
        let ghost old_dag = self.dag();
        self.certs.push(cert.duplicate());
        self.frontier = cert.virtual_round;
        proof {
            let d = self.dag();
            assert(d =~= old_dag.push(cert@));
            assert forall|i: int, j: int|
                0 <= i < d.len() && 0 <= j < d.len() && i != j implies #[trigger] d[i].digest != #[trigger] d[j].digest by {
                if i == d.len() - 1 {
                    assert(old_dag[j].digest == d[j].digest);
                } else if j == d.len() - 1 {
                    assert(old_dag[i].digest == d[i].digest);
                }
            }
            assert forall|i: int, j: int|
                0 <= i < d.len() && 0 <= j < d.len() && i != j implies !(#[trigger] d[i].author == #[trigger] d[j].author
                    && d[i].virtual_round == d[j].virtual_round) by {
                if i == d.len() - 1 {
                    assert(passes(old_dag[j], Filter::Any));
                    if is_at(old_dag[j], cert.author as int, cert.virtual_round as int) {
                        assert(counts(old_dag, cert.virtual_round as int, cert.author as int, Filter::Any));
                    }
                } else if j == d.len() - 1 {
                    assert(passes(old_dag[i], Filter::Any));
                    if is_at(old_dag[i], cert.author as int, cert.virtual_round as int) {
                        assert(counts(old_dag, cert.virtual_round as int, cert.author as int, Filter::Any));
                    }
                }
            }
        }
        true
    }

    /// Total stake of the authorities whose certificate at virtual round `r`
    /// passes `f`.
    pub fn stake_where(&self, c: &Committee, r: Round, f: Filter) -> (res: Stake)
        requires
            self.wf(),
            c.wf(),
        ensures
            res == self.support(c, r as int, f),
    {
        let n = c.stakes.len();
        let mut sum: Stake = 0;
        let mut a: usize = 0;
        while a < n
            invariant
                self.wf(),
                c.wf(),
                n == c.stakes@.len(),
                0 <= a <= n,
                sum == stake_at(c.stakes@, self.dag(), r as int, f, a as int),
            decreases n - a,
        {
            proof {
                lemma_stake_at_bounded(c.stakes@, self.dag(), r as int, f, a as int + 1);
                lemma_prefix_stake_mono(c.stakes@, a as int + 1, n as int);
            }
            let found = self.find(a as u64, r);
            let mut hit = false;
            if let Some(i) = found {
                hit = match f {
                    Filter::Any => true,
                    Filter::Supports(d) => contains_digest(&self.certs[i].virtual_parents, d),
                    Filter::Ignores(d) => !contains_digest(&self.certs[i].virtual_parents, d),
                };
                proof {
                    assert(self.dag()[i as int].virtual_parents == self.certs@[i as int].virtual_parents@);
                    if counts(self.dag(), r as int, a as int, f) {
                        let k = choose|k: int| 0 <= k < self.dag().len() && is_at(#[trigger] self.dag()[k], a as int, r as int)
                            && passes(self.dag()[k], f);
                        assert(self.dag()[k].author == self.dag()[i as int].author);
                    }
                    if hit {
                        assert(is_at(self.dag()[i as int], a as int, r as int) && passes(self.dag()[i as int], f));
                    }
                }
            } else {
                proof {
                    if counts(self.dag(), r as int, a as int, f) {
                        let k = choose|k: int| 0 <= k < self.dag().len() && is_at(#[trigger] self.dag()[k], a as int, r as int)
                            && passes(self.dag()[k], f);
                        assert(passes(self.dag()[k], Filter::Any));
                    }
                }
            }
            if hit {
                sum = sum + c.stakes[a];
            }
            a = a + 1;
        }
        sum
    }

    /// Index of the steady leader of `round`: the certificate of the
    /// designated author at an odd `round`, if it has been received.
    pub fn steady_leader(&self, c: &Committee, round: Round) -> (res: Option<usize>)
        requires
            self.wf(),
            c.wf(),
        ensures
            res is Some <==> self.has_leader(c, round as int),
            res matches Some(i) ==> i < self.dag().len() && self.dag()[i as int] == self.leader_of(c, round as int),
    {
        if round % 2 == 0 {
            return None;
        }
        let total = c.total_stake();
        let a = c.owner_of_unit((round / 2) % total);
        self.find(a, round)
    }

    /// Whether a quorum at `round` built on the steady leader of `round - 1`.
    pub fn qc(&self, c: &Committee, round: Round) -> (res: bool)
        requires
            self.wf(),
            c.wf(),
        ensures
            res == self.qc_holds(c, round as int),
    {
        if round == 0 {
            return false;
        }
        match self.steady_leader(c, round - 1) {
            None => false,
            Some(i) => {
                let d = self.certs[i].digest;
                self.stake_where(c, round, Filter::Supports(d)) >= c.quorum_threshold()
            },
        }
    }

    /// Whether a quorum at `round` can no longer build on the steady leader
    /// of `round - 1`.
    pub fn tc(&self, c: &Committee, round: Round) -> (res: bool)
        requires
            self.wf(),
            c.wf(),
        ensures
            res == self.tc_holds(c, round as int),
    {
        if round == 0 {
            return false;
        }
        match self.steady_leader(c, round - 1) {
            None => false,
            Some(i) => {
                let d = self.certs[i].digest;
                self.stake_where(c, round, Filter::Ignores(d)) >= c.validity_threshold()
            },
        }
    }
}

} // verus!

verus! {

/// A stake sum over authorities never exceeds their total stake.
pub proof fn lemma_stake_at_bounded(stakes: Seq<u64>, dag: Seq<CertView>, r: int, f: Filter, n: int)
    requires
        0 <= n <= stakes.len(),
    ensures
        0 <= stake_at(stakes, dag, r, f, n) <= prefix_stake(stakes, n),
    decreases n,
{
    if n > 0 {
        lemma_stake_at_bounded(stakes, dag, r, f, n - 1);
    }
}

/// Two DAG states agree on what each authority produced at virtual round `r`.
pub open spec fn agree_at(d1: Seq<CertView>, d2: Seq<CertView>, r: int) -> bool {
    forall|i: int, j: int|
        0 <= i < d1.len() && 0 <= j < d2.len() && (#[trigger] d1[i]).author == (#[trigger] d2[j]).author
            && d1[i].virtual_round == r && d2[j].virtual_round == r ==> d1[i] == d2[j]
}

proof fn lemma_split_bounded(stakes: Seq<u64>, d1: Seq<CertView>, d2: Seq<CertView>, r: int, d: Digest, n: int)
    requires
        agree_at(d1, d2, r),
        0 <= n <= stakes.len(),
    ensures
        stake_at(stakes, d1, r, Filter::Supports(d), n) + stake_at(stakes, d2, r, Filter::Ignores(d), n)
            <= prefix_stake(stakes, n),
    decreases n,
{
    if n > 0 {
        lemma_split_bounded(stakes, d1, d2, r, d, n - 1);
        if counts(d1, r, n - 1, Filter::Supports(d)) && counts(d2, r, n - 1, Filter::Ignores(d)) {
            let i = choose|i: int| 0 <= i < d1.len() && is_at(#[trigger] d1[i], n - 1, r)
                && passes(d1[i], Filter::Supports(d));
            let j = choose|j: int| 0 <= j < d2.len() && is_at(#[trigger] d2[j], n - 1, r)
                && passes(d2[j], Filter::Ignores(d));
            assert(d1[i] == d2[j]);
        }
    }
}

proof fn lemma_wf_agrees(vs: &VirtualState, r: int)
    requires
        vs.wf(),
    ensures
        agree_at(vs.dag(), vs.dag(), r),
{
    let d = vs.dag();
    assert forall|i: int, j: int|
        0 <= i < d.len() && 0 <= j < d.len() && (#[trigger] d[i]).author == (#[trigger] d[j]).author
            && d[i].virtual_round == r && d[j].virtual_round == r implies d[i] == d[j] by {
        if i != j {
            assert(d[i].author == d[j].author);
        }
    }
}

/// Two validators whose DAGs agree on each authority's certificates at the
/// leader round and at the round after it can never see, one a quorum built
/// on the leader and the other a validity-sized set that did not build on
/// it: the two thresholds together exceed the total stake.
pub proof fn lemma_qc_tc_exclusive_across(vs1: &VirtualState, vs2: &VirtualState, c: &Committee, round: int)
    requires
        vs1.wf(),
        vs2.wf(),
        c.wf(),
        agree_at(vs1.dag(), vs2.dag(), round - 1),
        agree_at(vs1.dag(), vs2.dag(), round),
    ensures
        !(vs1.qc_holds(c, round) && vs2.tc_holds(c, round)),
{
    if round >= 1 && vs1.has_leader(c, round - 1) && vs2.has_leader(c, round - 1) {
        let la = leader_author(c.stakes@, round - 1);
        let d1 = vs1.dag();
        let d2 = vs2.dag();
        let i = choose|i: int| 0 <= i < d1.len() && is_at(#[trigger] d1[i], la, round - 1);
        let j = choose|j: int| 0 <= j < d2.len() && is_at(#[trigger] d2[j], la, round - 1);
        assert(d1[i] == d2[j]);
        assert(vs1.leader_of(c, round - 1) == vs2.leader_of(c, round - 1));
        let d = vs1.leader_of(c, round - 1).digest;
        lemma_split_bounded(c.stakes@, d1, d2, round, d, c.size());
        lemma_thresholds_overlap(c.total());
    }
}

/// For one leader round, a quorum that built on the leader and a
/// validity-sized set that did not can never both be observed: each
/// authority has at most one certificate per virtual round, and the two
/// thresholds together exceed the total stake.
pub proof fn lemma_qc_tc_exclusive(vs: &VirtualState, c: &Committee, round: int)
    requires
        vs.wf(),
        c.wf(),
    ensures
        !(vs.qc_holds(c, round) && vs.tc_holds(c, round)),
{
    lemma_wf_agrees(vs, round - 1);
    lemma_wf_agrees(vs, round);
    lemma_qc_tc_exclusive_across(vs, vs, c, round);
}

} // verus!

verus! {

/// A leader that never produced its certificate can never be confirmed,
/// so its round commits nothing and only the timer moves past it.
pub proof fn lemma_silent_leader_never_confirmed(vs: &VirtualState, c: &Committee, round: int)
    requires
        round >= 1,
        !vs.present(leader_author(c.stakes@, round - 1), round - 1),
    ensures
        !vs.qc_holds(c, round),
        !vs.tc_holds(c, round),
{
}

} // verus!
