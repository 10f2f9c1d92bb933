use vstd::prelude::*;

use crate::certificate::{CertView, Certificate, Digest, Round, contains_digest, distinct_digests, key_lt, sorted_by_key};
use crate::committee::Committee;
use crate::store::{State, next_floor, settled, was_released};
use crate::virtual_dag::VirtualState;

verus! {

/// Whether `c` is reached by the walk from `leader`, given the digests `w`
/// wanted by the certificates of higher (round, digest) already reached.
pub open spec fn reached(c: CertView, leader: CertView, w: Set<Digest>) -> bool {
    w.contains(c.digest) && (c.round < leader.round || (c.round == leader.round && c.digest == leader.digest))
}

/// Digests wanted by the walk from `leader` over the entries of `s` at and
/// after index `i`: the leader itself and the parents of every entry reached.
pub open spec fn wanted_from(s: Seq<CertView>, leader: CertView, i: int) -> Set<Digest>
    decreases s.len() - i,
{
    if i < 0 || i >= s.len() {
        set![leader.digest]
    } else {
        let w = wanted_from(s, leader, i + 1);
        if reached(s[i], leader, w) {
            w.union(s[i].parents.to_set())
        } else {
            w
        }
    }
}

/// Entry `i` of the store is the leader or one of its ancestors.
pub open spec fn in_walk(s: Seq<CertView>, leader: CertView, i: int) -> bool {
    reached(s[i], leader, wanted_from(s, leader, i + 1))
}

/// Entry `i` is released when `leader` commits.
pub open spec fn emits(s: Seq<CertView>, leader: CertView, rel: Seq<(Digest, Round)>, i: int) -> bool {
    in_walk(s, leader, i) && !was_released(s[i], rel)
}

/// The certificates among the first `k` entries of `s` released when
/// `leader` commits, in store order.
pub open spec fn commit_seq(s: Seq<CertView>, leader: CertView, rel: Seq<(Digest, Round)>, k: int) -> Seq<CertView>
    decreases k,
{
    if k <= 0 {
        Seq::empty()
    } else {
        commit_seq(s, leader, rel, k - 1) + if emits(s, leader, rel, k - 1) {
            seq![s[k - 1]]
        } else {
            Seq::empty()
        }
    }
}

/// `lc2` is `lc` raised, per authority, to the highest round among the
/// certificates of `out` by that authority.
pub open spec fn committed_rounds(lc: Seq<u64>, out: Seq<CertView>, lc2: Seq<u64>) -> bool {
    &&& lc2.len() == lc.len()
    &&& forall|a: int| 0 <= a < lc.len() ==> #[trigger] lc2[a] >= lc[a]
    &&& forall|k: int| 0 <= k < out.len() && out[k].author < lc.len() ==> (#[trigger] out[k]).round <= lc2[out[k].author as int]
    &&& forall|a: int|
        0 <= a < lc.len() ==> #[trigger] lc2[a] == lc[a] || exists|k: int|
            0 <= k < out.len() && (#[trigger] out[k]).author == a && out[k].round == lc2[a]
}

/// `rel2` records the releases `rel` and `out`, less those below `floor`.
pub open spec fn released_after(rel: Seq<(Digest, Round)>, out: Seq<CertView>, floor: u64, rel2: Seq<(Digest, Round)>) -> bool {
    forall|q: (Digest, Round)|
        rel2.contains(q) <==> ((rel.contains(q) || exists|k: int| 0 <= k < out.len() && q == (#[trigger] out[k]).digest_round())
            && q.1 >= floor)
}

/// Everything released when `leader` commits over store `s`.
pub open spec fn commit_of(s: Seq<CertView>, leader: CertView, rel: Seq<(Digest, Round)>) -> Seq<CertView> {
    commit_seq(s, leader, rel, s.len() as int)
}

proof fn lemma_concat_contains(a: Seq<Digest>, b: Seq<Digest>, d: Digest)
    ensures
        (a + b).contains(d) <==> (a.contains(d) || b.contains(d)),
{
    if (a + b).contains(d) {
        let p = choose|p: int| 0 <= p < (a + b).len() && (a + b)[p] == d;
        if p >= a.len() {
            assert(b[p - a.len()] == d);
        }
    }
    if a.contains(d) {
        let p = choose|p: int| 0 <= p < a.len() && a[p] == d;
        assert((a + b)[p] == d);
    }
    if b.contains(d) {
        let p = choose|p: int| 0 <= p < b.len() && b[p] == d;
        assert((a + b)[a.len() + p] == d);
    }
}

/// Appends `extra` to `v`.
fn extend_digests(v: &mut Vec<Digest>, extra: &Vec<Digest>)
    ensures
        forall|d: Digest| final(v)@.contains(d) <==> (old(v)@.contains(d) || extra@.contains(d)),
{
    let ghost v0 = v@;
    let mut j: usize = 0;
    while j < extra.len()
        invariant
            0 <= j <= extra@.len(),
            v@ == v0 + extra@.subrange(0, j as int),
        decreases extra@.len() - j,
    {
        v.push(extra[j]);
        j = j + 1;
        proof {
            assert(v@ =~= v0 + extra@.subrange(0, j as int));
        }
    }
    proof {
        assert(extra@.subrange(0, extra@.len() as int) =~= extra@);
        assert forall|d: Digest| v@.contains(d) <==> (v0.contains(d) || extra@.contains(d)) by {
            lemma_concat_contains(v0, extra@, d);
        }
    }
}

/// Marks, for each stored certificate, whether it is the leader or one of
/// its ancestors, walking from the highest (round, digest) down.
fn mark_walk(state: &State, leader: &Certificate) -> (marks: Vec<bool>)
    ensures
        marks@.len() == state.store().len(),
        forall|i: int| 0 <= i < marks@.len() ==> #[trigger] marks@[i] == in_walk(state.store(), leader@, i),
{
    let ghost s = state.store();
    let n = state.certs.len();
    let mut marks: Vec<bool> = Vec::new();
    let mut k: usize = 0;
    while k < n
        invariant
            0 <= k <= n,
            marks@.len() == k,
        decreases n - k,
    {
        marks.push(false);
        k = k + 1;
    }
    let mut wanted: Vec<Digest> = Vec::new();
    wanted.push(leader.digest);
    proof {
        assert forall|d: Digest| wanted@.contains(d) <==> wanted_from(s, leader@, n as int).contains(d) by {
            if d == leader.digest {
                assert(wanted@[0] == d);
            }
        }
    }
    let mut i: usize = n;
    while i > 0
        invariant
            s == state.store(),
            n == s.len(),
            0 <= i <= n,
            marks@.len() == n,
            forall|d: Digest| wanted@.contains(d) <==> wanted_from(s, leader@, i as int).contains(d),
            forall|j: int| i <= j < n ==> #[trigger] marks@[j] == in_walk(s, leader@, j),
        decreases i,
    {
        i = i - 1;
        let c = &state.certs[i];
        proof {
            assert(s[i as int] == c@);
        }
        let hit = contains_digest(&wanted, c.digest) && (c.round < leader.round || (c.round == leader.round
            && c.digest == leader.digest));
        proof {
            assert(hit == in_walk(s, leader@, i as int));
        }
        marks.set(i, hit);
        if hit {
            extend_digests(&mut wanted, &c.parents);
            proof {
                assert forall|d: Digest| wanted@.contains(d) <==> wanted_from(s, leader@, i as int).contains(d) by {
                    assert(c.parents@.to_set().contains(d) <==> c.parents@.contains(d));
                }
            }
        }
    }
    marks
}

/// The certificates released when `leader` commits: the leader and its
/// ancestors in the store that were not released before, ordered by round and
/// then digest, so the leader comes last.
pub fn order_dag(state: &State, leader: &Certificate) -> (out: Vec<Certificate>)
    requires
        state.wf(),
    ensures
        out@.map_values(|c: Certificate| c@) == commit_of(state.store(), leader@, state.released@),
        sorted_by_key(out@.map_values(|c: Certificate| c@)),
        distinct_digests(out@.map_values(|c: Certificate| c@)),
        forall|p: int|
            0 <= p < out@.len() ==> !was_released(#[trigger] out@[p]@, state.released@)
                && state.store().contains(out@[p]@) && (out@[p].round < leader.round
                || out@[p].digest == leader.digest),
{
    let ghost s = state.store();
    let ghost lc = state.released@;
    let marks = mark_walk(state, leader);
    let n = state.certs.len();
    let mut out: Vec<Certificate> = Vec::new();
    let ghost mut idx: Seq<int> = Seq::empty();
    let mut k: usize = 0;
    while k < n
        invariant
            s == state.store(),
            lc == state.released@,
            state.wf(),
            n == s.len(),
            marks@.len() == n,
            forall|i: int| 0 <= i < n ==> #[trigger] marks@[i] == in_walk(s, leader@, i),
            0 <= k <= n,
            out@.map_values(|c: Certificate| c@) == commit_seq(s, leader@, lc, k as int),
            idx.len() == out@.len(),
            forall|p: int|
                0 <= p < idx.len() ==> 0 <= #[trigger] idx[p] < k && out@[p]@ == s[idx[p]] && emits(
                    s,
                    leader@,
                    lc,
                    idx[p],
                ),
            forall|p: int, q: int| 0 <= p < q < idx.len() ==> #[trigger] idx[p] < #[trigger] idx[q],
        decreases n - k,
    {
        let c = &state.certs[k];
        proof {
            assert(s[k as int] == c@);
        }
        let open = !state.is_released(c);
        if marks[k] && open {
            let ghost before = out@.map_values(|c: Certificate| c@);
            out.push(c.duplicate());
            proof {
                assert(out@.map_values(|c: Certificate| c@) =~= before + seq![s[k as int]]);
                idx = idx.push(k as int);
            }
        } else {
            proof {
                assert(commit_seq(s, leader@, lc, k as int + 1) =~= commit_seq(s, leader@, lc, k as int));
            }
        }
        k = k + 1;
    }
    proof {
        let t = out@.map_values(|c: Certificate| c@);
        assert forall|p: int| 0 <= p < t.len() implies t[p] == s[idx[p]] by {
            assert(t[p] == out@[p]@);
        }
        assert forall|p: int, q: int| 0 <= p < q < t.len() implies key_lt(#[trigger] t[p], #[trigger] t[q]) by {
            assert(t[p] == s[idx[p]] && t[q] == s[idx[q]]);
            assert(idx[p] < idx[q]);
        }
        assert forall|p: int, q: int|
            0 <= p < t.len() && 0 <= q < t.len() && p != q implies #[trigger] t[p].digest != #[trigger] t[q].digest by {
            assert(t[p] == s[idx[p]] && t[q] == s[idx[q]]);
            if p < q {
                assert(idx[p] < idx[q]);
            } else {
                assert(idx[q] < idx[p]);
            }
        }
        assert forall|p: int|
            0 <= p < out@.len() implies !was_released(#[trigger] out@[p]@, lc) && s.contains(out@[p]@) && (out@[p].round
                < leader.round || out@[p].digest == leader.digest) by {
            assert(out@[p]@ == s[idx[p]]);
            assert(emits(s, leader@, lc, idx[p]));
        }
    }
    out
}


/// The commit rule: a leader commits once the following (even) virtual
/// round holds a quorum built on it.
pub struct Committer {
    pub committee: Committee,
    /// The last leader round decided: committed, or skipped on timeout
    /// evidence.
    pub last_leader_round: Round,
}

impl Committer {
    pub open spec fn wf(&self) -> bool {
        self.committee.wf()
    }

    /// Whether a certificate at virtual round `r` commits the leader of `r - 1`.
    pub open spec fn commits(&self, vs: &VirtualState, r: int) -> bool {
        &&& r >= 2
        &&& r % 2 == 0
        &&& r - 1 > self.last_leader_round
        &&& vs.qc_holds(&self.committee, r)
    }

    /// Whether a certificate at virtual round `r` proves that the leader of
    /// `r - 1` can never be confirmed, so its round is skipped.
    pub open spec fn skips(&self, vs: &VirtualState, r: int) -> bool {
        &&& r >= 2
        &&& r % 2 == 0
        &&& r - 1 > self.last_leader_round
        &&& !vs.qc_holds(&self.committee, r)
        &&& vs.tc_holds(&self.committee, r)
    }

    pub fn new(committee: Committee) -> (r: Committer)
        requires
            committee.wf(),
        ensures
            r.wf(),
            r.committee == committee,
            r.last_leader_round == 0,
    {
        Committer { committee, last_leader_round: 0 }
    }

    /// Runs the commit rule for a certificate just admitted to the virtual
    /// DAG. When its round confirms the leader of the previous round, returns
    /// that leader's ancestors not released before and the leader itself, in
    /// (round, digest) order, and records them in the store. When it proves
    /// instead that the leader can never be confirmed, records the round as
    /// skipped and returns nothing. Otherwise returns nothing and changes
    /// nothing.
    pub fn try_commit(&mut self, cert: &Certificate, state: &mut State, vs: &VirtualState) -> (out: Vec<Certificate>)
        requires
            old(self).wf(),
            old(state).wf(),
            vs.wf(),
            vs.dag().contains(cert@),
        ensures
            final(self).wf(),
            final(self).committee == old(self).committee,
            final(state).wf(),
            final(state).gc_depth == old(state).gc_depth,
            final(state).last_committed@.len() == old(state).last_committed@.len(),
            forall|a: int|
                0 <= a < old(state).last_committed@.len() ==> #[trigger] final(state).last_committed@[a]
                    >= old(state).last_committed@[a],
            old(self).commits(vs, cert.virtual_round as int) ==> {
                &&& out@.map_values(|c: Certificate| c@) == commit_of(
                    old(state).store(),
                    vs.leader_of(&old(self).committee, cert.virtual_round - 1),
                    old(state).released@,
                )
                &&& final(self).last_leader_round == cert.virtual_round - 1
                &&& forall|p: int| 0 <= p < out@.len() ==> settled(#[trigger] out@[p]@, final(state).last_committed@)
                &&& committed_rounds(old(state).last_committed@, out@.map_values(|c: Certificate| c@), final(state).last_committed@)
                &&& final(state).gc_floor == next_floor(
                    old(state).gc_floor as int,
                    final(state).last_committed@,
                    old(state).gc_depth as int,
                )
                &&& forall|x: CertView|
                    final(state).store().contains(x) <==> (old(state).store().contains(x) && x.round
                        >= final(state).gc_floor)
                &&& released_after(old(state).released@, out@.map_values(|c: Certificate| c@), final(state).gc_floor, final(state).released@)
            },
            old(self).skips(vs, cert.virtual_round as int) ==> out@.len() == 0 && final(self).last_leader_round
                == cert.virtual_round - 1 && *final(state) == *old(state),
            !old(self).commits(vs, cert.virtual_round as int) && !old(self).skips(vs, cert.virtual_round as int)
                ==> out@.len() == 0 && *final(self) == *old(self) && *final(state) == *old(state),
            sorted_by_key(out@.map_values(|c: Certificate| c@)),
            distinct_digests(out@.map_values(|c: Certificate| c@)),
            forall|p: int|
                0 <= p < out@.len() ==> !was_released(#[trigger] out@[p]@, old(state).released@)
                    && old(state).store().contains(out@[p]@),
    {
        let r = cert.virtual_round;
        if r < 2 || r % 2 == 1 || r - 1 <= self.last_leader_round {
            return Vec::new();
        }
        proof {
            let k = choose|k: int| 0 <= k < vs.dag().len() && vs.dag()[k] == cert@;
            assert(vs.dag()[k].virtual_round == r);
        }
        if !vs.qc(&self.committee, r) {
            if vs.tc(&self.committee, r) {
                self.last_leader_round = r - 1;
            }
            return Vec::new();
        }
        let i = match vs.steady_leader(&self.committee, r - 1) {
            Some(i) => i,
            None => {
                return Vec::new();
            },
        };
        proof {
            assert(vs.certs@[i as int]@ == vs.dag()[i as int]);
        }
        let out = order_dag(state, &vs.certs[i]);
        state.update(&out);
        self.last_leader_round = r - 1;
        proof {
            let ov = out@.map_values(|c: Certificate| c@);
            assert forall|k: int| 0 <= k < ov.len() && ov[k].author < old(state).last_committed@.len()
                implies (#[trigger] ov[k]).round <= state.last_committed@[ov[k].author as int] by {
                assert(ov[k] == out@[k]@);
            }
            assert forall|a: int| 0 <= a < old(state).last_committed@.len() implies #[trigger] state.last_committed@[a]
                == old(state).last_committed@[a] || exists|k: int| 0 <= k < ov.len() && (#[trigger] ov[k]).author == a
                    && ov[k].round == state.last_committed@[a] by {
                if state.last_committed@[a] != old(state).last_committed@[a] {
                    let k = choose|k: int| 0 <= k < out@.len() && (#[trigger] out@[k]).author == a
                        && out@[k].round == state.last_committed@[a];
                    assert(ov[k] == out@[k]@);
                }
            }
            assert forall|p: int| 0 <= p < out@.len() implies settled(#[trigger] out@[p]@, state.last_committed@) by {
                if out@[p]@.author < old(state).last_committed@.len() {
                    assert(ov[p] == out@[p]@);
                }
            }
            assert forall|q: (Digest, Round)|
                state.released@.contains(q) <==> ((old(state).released@.contains(q) || exists|k: int|
                    0 <= k < ov.len() && q == (#[trigger] ov[k]).digest_round()) && q.1 >= state.gc_floor) by {
                if exists|k: int| 0 <= k < ov.len() && q == (#[trigger] ov[k]).digest_round() {
                    let k = choose|k: int| 0 <= k < ov.len() && q == (#[trigger] ov[k]).digest_round();
                    assert(ov[k] == out@[k]@);
                    assert(q == out@[k].digest_round());
                }
                if exists|k: int| 0 <= k < out@.len() && q == (#[trigger] out@[k]).digest_round() {
                    let k = choose|k: int| 0 <= k < out@.len() && q == (#[trigger] out@[k]).digest_round();
                    assert(ov[k] == out@[k]@);
                    assert(q == ov[k].digest_round());
                }
            }
        }
        out
    }
}

/// A strictly (round, digest)-sorted sequence is determined by the
/// certificates it holds.
pub proof fn lemma_sorted_unique(s1: Seq<CertView>, s2: Seq<CertView>)
    requires
        sorted_by_key(s1),
        sorted_by_key(s2),
        forall|x: CertView| s1.contains(x) <==> s2.contains(x),
    ensures
        s1 == s2,
    decreases s1.len(),
{
    if s1.len() == 0 {
        if s2.len() > 0 {
            assert(s2.contains(s2[0]));
        }
        assert(s1 =~= s2);
    } else {
        assert(s1.contains(s1[0]));
        let j = choose|j: int| 0 <= j < s2.len() && s2[j] == s1[0];
        assert(s2.contains(s2[0]));
        let i = choose|i: int| 0 <= i < s1.len() && s1[i] == s2[0];
        if j > 0 {
            assert(key_lt(s2[0], s2[j]));
            if i > 0 {
                assert(key_lt(s1[0], s1[i]));
            }
        }
        assert(s1[0] == s2[0]);
        let t1 = s1.subrange(1, s1.len() as int);
        let t2 = s2.subrange(1, s2.len() as int);
        assert forall|x: CertView| t1.contains(x) <==> t2.contains(x) by {
            if t1.contains(x) {
                let p = choose|p: int| 0 <= p < t1.len() && t1[p] == x;
                assert(key_lt(s1[0], s1[p + 1]));
                assert(s2.contains(x));
                let q = choose|q: int| 0 <= q < s2.len() && s2[q] == x;
                assert(q != 0);
                assert(t2[q - 1] == x);
            }
            if t2.contains(x) {
                let p = choose|p: int| 0 <= p < t2.len() && t2[p] == x;
                assert(key_lt(s2[0], s2[p + 1]));
                assert(s1.contains(x));
                let q = choose|q: int| 0 <= q < s1.len() && s1[q] == x;
                assert(q != 0);
                assert(t1[q - 1] == x);
            }
        }
        lemma_sorted_unique(t1, t2);
        assert(s1 =~= seq![s1[0]] + t1);
        assert(s2 =~= seq![s2[0]] + t2);
    }
}

/// What a leader's commit releases depends only on which certificates the
/// store holds, not on the order in which they arrived.
pub proof fn lemma_commit_deterministic(st1: &State, st2: &State, leader: CertView)
    requires
        st1.wf(),
        st2.wf(),
        st1.released@ == st2.released@,
        forall|x: CertView| st1.store().contains(x) <==> st2.store().contains(x),
    ensures
        commit_of(st1.store(), leader, st1.released@) == commit_of(st2.store(), leader, st2.released@),
{
    lemma_sorted_unique(st1.store(), st2.store());
}

/// Within a commit, a certificate of a lower round (such as any ancestor,
/// since parents belong to the previous round) is released first.
pub proof fn lemma_causal_order(out: Seq<CertView>, i: int, j: int)
    requires
        sorted_by_key(out),
        0 <= i < out.len(),
        0 <= j < out.len(),
        out[i].round < out[j].round,
    ensures
        i < j,
{
    if j < i {
        assert(key_lt(out[j], out[i]));
    }
}

/// A commit never releases a certificate that an earlier commit released:
/// each earlier release is either below the floor, where nothing is stored
/// any more, or recorded as released; each new release is stored and was
/// not recorded; and a digest names one certificate.
pub proof fn lemma_no_duplicate_commit(prev: Seq<CertView>, out: Seq<CertView>, rel: Seq<(Digest, Round)>, floor: u64)
    requires
        distinct_digests(prev),
        distinct_digests(out),
        forall|p: int| 0 <= p < prev.len() ==> #[trigger] prev[p].round < floor || was_released(prev[p], rel),
        forall|q: int| 0 <= q < out.len() ==> #[trigger] out[q].round >= floor && !was_released(out[q], rel),
        forall|p: int, q: int|
            0 <= p < prev.len() && 0 <= q < out.len() && #[trigger] prev[p].digest == #[trigger] out[q].digest
                ==> prev[p] == out[q],
    ensures
        distinct_digests(prev + out),
{
    let all = prev + out;
    assert forall|i: int, j: int|
        0 <= i < all.len() && 0 <= j < all.len() && i != j implies #[trigger] all[i].digest != #[trigger] all[j].digest by {
        if i < prev.len() && j >= prev.len() {
            assert(all[i] == prev[i] && all[j] == out[j - prev.len()]);
            assert(out[j - prev.len()].round >= floor);
        } else if j < prev.len() && i >= prev.len() {
            assert(all[j] == prev[j] && all[i] == out[i - prev.len()]);
            assert(out[i - prev.len()].round >= floor);
        } else if i < prev.len() {
            assert(all[i] == prev[i] && all[j] == prev[j]);
        } else {
            assert(all[i] == out[i - prev.len()] && all[j] == out[j - prev.len()]);
        }
    }
}

/// Within a commit, a parent is released before its child: every
/// released certificate comes from the store, where a retained parent
/// belongs to the round before its child.
pub proof fn lemma_parent_released_first(st: &State, out: Seq<CertView>, i: int, j: int)
    requires
        st.wf(),
        sorted_by_key(out),
        forall|p: int| 0 <= p < out.len() ==> st.store().contains(#[trigger] out[p]),
        0 <= i < out.len(),
        0 <= j < out.len(),
        out[j].parents.contains(out[i].digest),
    ensures
        i < j,
{
    let s = st.store();
    assert(s.contains(out[i]));
    assert(s.contains(out[j]));
    let a = choose|a: int| 0 <= a < s.len() && s[a] == out[i];
    let b = choose|b: int| 0 <= b < s.len() && s[b] == out[j];
    assert(s[b].parents.contains(s[a].digest));
    lemma_causal_order(out, i, j);
}

/// A commit fixes the last-committed table exactly: each entry is the
/// larger of its old value and the highest released round of that
/// authority.
pub proof fn lemma_committed_rounds_unique(lc: Seq<u64>, out: Seq<CertView>, l1: Seq<u64>, l2: Seq<u64>)
    requires
        committed_rounds(lc, out, l1),
        committed_rounds(lc, out, l2),
    ensures
        l1 == l2,
{
    assert forall|a: int| 0 <= a < lc.len() implies l1[a] == l2[a] by {
        if l2[a] != lc[a] {
            let k = choose|k: int| 0 <= k < out.len() && (#[trigger] out[k]).author == a && out[k].round == l2[a];
            assert(out[k].round <= l1[out[k].author as int]);
        }
        if l1[a] != lc[a] {
            let k = choose|k: int| 0 <= k < out.len() && (#[trigger] out[k]).author == a && out[k].round == l1[a];
            assert(out[k].round <= l2[out[k].author as int]);
        }
        assert(l1[a] >= lc[a] && l2[a] >= lc[a]);
    }
    assert(l1 =~= l2);
}

} // verus!
