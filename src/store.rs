use vstd::prelude::*;

use crate::certificate::{CertView, Certificate, Digest, Round, contains_digest, distinct_digests, key_lt, sorted_by_key};

verus! {

/// Whether `c` can no longer be part of a commit: it comes from outside the
/// committee, or its author has already committed up to its round.
pub open spec fn settled(c: CertView, lc: Seq<u64>) -> bool {
    c.author >= lc.len() || c.round <= lc[c.author as int]
}

/// Whether `c` is among the released certificates `rel`, kept as
/// (digest, round) pairs.
pub open spec fn was_released(c: CertView, rel: Seq<(Digest, Round)>) -> bool {
    rel.contains((c.digest, c.round))
}

/// Adds the (digest, round) pair of each certificate of `certs` to `v`.
fn record_released(v: &mut Vec<(Digest, Round)>, certs: &Vec<Certificate>)
    ensures
        forall|p: (Digest, Round)|
            final(v)@.contains(p) <==> (old(v)@.contains(p) || exists|k: int|
                0 <= k < certs@.len() && p == (#[trigger] certs@[k]).digest_round()),
{
    let ghost v0 = v@;
    let mut k: usize = 0;
    while k < certs.len()
        invariant
            0 <= k <= certs@.len(),
            forall|p: (Digest, Round)|
                v@.contains(p) <==> (v0.contains(p) || exists|j: int| 0 <= j < k && p == (#[trigger] certs@[j]).digest_round()),
        decreases certs@.len() - k,
    {
        let ghost before = v@;
        let ghost k0 = k as int;
        let pair = (certs[k].digest, certs[k].round);
        v.push(pair);
        k = k + 1;
        proof {
            assert forall|p: (Digest, Round)|
                v@.contains(p) <==> (v0.contains(p) || exists|j: int| 0 <= j < k && p == (#[trigger] certs@[j]).digest_round()) by {
                if v@.contains(p) {
                    let i = choose|i: int| 0 <= i < v@.len() && v@[i] == p;
                    if i == v@.len() - 1 {
                        assert(p == certs@[k0].digest_round());
                    } else {
                        assert(before[i] == p);
                        assert(before.contains(p));
                    }
                }
                if v0.contains(p) || exists|j: int| 0 <= j < k && p == (#[trigger] certs@[j]).digest_round() {
                    if v0.contains(p) || exists|j: int| 0 <= j < k0 && p == (#[trigger] certs@[j]).digest_round() {
                        assert(before.contains(p));
                        let i = choose|i: int| 0 <= i < before.len() && before[i] == p;
                        assert(v@[i] == p);
                    } else {
                        assert(v@[v@.len() - 1] == p);
                    }
                }
            }
        }
    }
}

/// The entries of `v` whose round is at least `floor`.
fn keep_from(v: &Vec<(Digest, Round)>, floor: Round) -> (r: Vec<(Digest, Round)>)
    ensures
        forall|p: (Digest, Round)| r@.contains(p) <==> (v@.contains(p) && p.1 >= floor),
{
    let mut r: Vec<(Digest, Round)> = Vec::new();
    let mut i: usize = 0;
    while i < v.len()
        invariant
            0 <= i <= v@.len(),
            forall|p: (Digest, Round)| r@.contains(p) <==> (v@.subrange(0, i as int).contains(p) && p.1 >= floor),
        decreases v@.len() - i,
    {
        let ghost before = r@;
        let e = v[i];
        if e.1 >= floor {
            r.push(e);
        }
        proof {
            let sub = v@.subrange(0, i + 1);
            assert forall|p: (Digest, Round)| r@.contains(p) <==> (sub.contains(p) && p.1 >= floor) by {
                if r@.contains(p) {
                    let j = choose|j: int| 0 <= j < r@.len() && r@[j] == p;
                    if j < before.len() {
                        assert(before[j] == p);
                        assert(before.contains(p));
                        let q = choose|q: int| 0 <= q < i && v@.subrange(0, i as int)[q] == p;
                        assert(sub[q] == p);
                    } else {
                        assert(sub[i as int] == p);
                    }
                }
                if sub.contains(p) && p.1 >= floor {
                    let q = choose|q: int| 0 <= q < sub.len() && sub[q] == p;
                    if q < i {
                        assert(v@.subrange(0, i as int)[q] == p);
                        assert(before.contains(p));
                        let j = choose|j: int| 0 <= j < before.len() && before[j] == p;
                        assert(r@[j] == p);
                    } else {
                        assert(r@[r@.len() - 1] == p);
                    }
                }
            }
        }
        i = i + 1;
    }
    proof {
        assert(v@.subrange(0, v@.len() as int) =~= v@);
    }
    r
}

/// Smallest entry of a non-empty table (zero for an empty one).
pub open spec fn min_of(s: Seq<u64>) -> int
    decreases s.len(),
{
    if s.len() == 0 {
        0
    } else if s.len() == 1 {
        s[0] as int
    } else {
        let m = min_of(s.drop_last());
        if s.last() < m {
            s.last() as int
        } else {
            m
        }
    }
}

/// Garbage-collection floor: the smallest last-committed round less the
/// depth, clamped at zero, never below the previous floor.
pub open spec fn next_floor(floor: int, lc: Seq<u64>, depth: int) -> int {
    let m = min_of(lc) - depth;
    if m > floor {
        m
    } else {
        floor
    }
}

pub proof fn lemma_min_of_le(s: Seq<u64>, i: int)
    requires
        0 <= i < s.len(),
    ensures
        min_of(s) <= s[i],
    decreases s.len(),
{
    if s.len() > 1 && i < s.len() - 1 {
        lemma_min_of_le(s.drop_last(), i);
    }
}

/// Every retained parent of a stored certificate belongs to the round
/// before it.
pub open spec fn parents_precede(s: Seq<CertView>) -> bool {
    forall|i: int, j: int|
        0 <= i < s.len() && 0 <= j < s.len() && (#[trigger] s[j]).parents.contains((#[trigger] s[i]).digest) ==> s[i].round
            + 1 == s[j].round
}

/// `c` can join `s` without breaking `parents_precede`.
pub open spec fn fits(s: Seq<CertView>, c: CertView) -> bool {
    &&& !c.parents.contains(c.digest)
    &&& forall|i: int| 0 <= i < s.len() && c.parents.contains(#[trigger] s[i].digest) ==> s[i].round + 1 == c.round
    &&& forall|i: int| 0 <= i < s.len() && (#[trigger] s[i]).parents.contains(c.digest) ==> c.round + 1 == s[i].round
}

/// The physical DAG: certificates by physical round and digest, with the
/// highest committed round of each authority.
pub struct State {
    /// Stored certificates, strictly increasing in (round, digest).
    pub certs: Vec<Certificate>,
    /// Per authority, the highest round of its certificates committed so far.
    pub last_committed: Vec<Round>,
    pub gc_depth: Round,
    /// No certificate below this round is retained.
    pub gc_floor: Round,
    /// (digest, round) of each released certificate at or above the floor.
    pub released: Vec<(Digest, Round)>,
}

impl State {
    pub open spec fn store(&self) -> Seq<CertView> {
        self.certs@.map_values(|c: Certificate| c@)
    }

    pub open spec fn has_digest(&self, d: Digest) -> bool {
        exists|i: int| 0 <= i < self.store().len() && #[trigger] self.store()[i].digest == d
    }

    pub open spec fn wf(&self) -> bool {
        &&& sorted_by_key(self.store())
        &&& distinct_digests(self.store())
        &&& parents_precede(self.store())
        &&& forall|i: int| 0 <= i < self.store().len() ==> #[trigger] self.store()[i].round >= self.gc_floor
    }

    /// Whether `cert` keeps every retained parent in the round before its child.
    pub fn fits_store(&self, cert: &Certificate) -> (r: bool)
        ensures
            r == fits(self.store(), cert@),
    {
        if contains_digest(&cert.parents, cert.digest) {
            return false;
        }
        let mut i: usize = 0;
        while i < self.certs.len()
            invariant
                0 <= i <= self.certs@.len(),
                !cert@.parents.contains(cert.digest),
                forall|k: int| 0 <= k < i && cert@.parents.contains(#[trigger] self.store()[k].digest) ==> self.store()[k].round + 1 == cert.round,
                forall|k: int| 0 <= k < i && (#[trigger] self.store()[k]).parents.contains(cert.digest) ==> cert.round + 1 == self.store()[k].round,
            decreases self.certs@.len() - i,
        {
            let x = &self.certs[i];
            proof {
                assert(self.store()[i as int] == x@);
            }
            if contains_digest(&cert.parents, x.digest) && (cert.round == 0 || x.round != cert.round - 1) {
                proof {
                    assert(cert@.parents.contains(self.store()[i as int].digest));
                }
                return false;
            }
            if contains_digest(&x.parents, cert.digest) && (x.round == 0 || cert.round != x.round - 1) {
                proof {
                    assert(self.store()[i as int].parents.contains(cert.digest));
                }
                return false;
            }
            i = i + 1;
        }
        true
    }

    /// An empty store for a committee of `n` authorities.
    pub fn new(n: usize, gc_depth: Round) -> (r: State)
        ensures
            r.wf(),
            r.store().len() == 0,
            r.last_committed@ == Seq::new(n as nat, |i: int| 0u64),
            r.gc_depth == gc_depth,
            r.gc_floor == 0,
            r.released@.len() == 0,
    {
        let mut lc: Vec<Round> = Vec::new();
        let mut i: usize = 0;
        while i < n
            invariant
                0 <= i <= n,
                lc@ == Seq::new(i as nat, |k: int| 0u64),
            decreases n - i,
        {
            lc.push(0);
            i = i + 1;
            proof {
                assert(lc@ =~= Seq::new(i as nat, |k: int| 0u64));
            }
        }
        let r = State { certs: Vec::new(), last_committed: lc, gc_depth, gc_floor: 0, released: Vec::new() };
        proof {
            assert(r.store().len() == 0);
        }
        r
    }

    /// Whether `c` has been released (and is at or above the floor).
    pub fn is_released(&self, c: &Certificate) -> (r: bool)
        ensures
            r == was_released(c@, self.released@),
    {
        let mut i: usize = 0;
        while i < self.released.len()
            invariant
                0 <= i <= self.released@.len(),
                forall|k: int| 0 <= k < i ==> self.released@[k] != (c.digest, c.round),
            decreases self.released@.len() - i,
        {
            let e = self.released[i];
            if e.0 == c.digest && e.1 == c.round {
                proof {
                    assert(self.released@[i as int] == (c.digest, c.round));
                }
                return true;
            }
            i = i + 1;
        }
        false
    }

    /// Whether a certificate with digest `d` is stored.
    pub fn contains(&self, d: Digest) -> (r: bool)
        ensures
            r == self.has_digest(d),
    {
        let mut i: usize = 0;
        while i < self.certs.len()
            invariant
                0 <= i <= self.certs@.len(),
                forall|k: int| 0 <= k < i ==> #[trigger] self.store()[k].digest != d,
            decreases self.certs@.len() - i,
        {
            if self.certs[i].digest == d {
                proof {
                    assert(self.store()[i as int].digest == d);
                }
                return true;
            }
            i = i + 1;
        }
        false
    }

    /// Stores `cert` unless its digest is already stored, its round lies
    /// below the garbage-collection floor, or it would place a retained
    /// parent outside the round before its child.
    pub fn add(&mut self, cert: &Certificate) -> (r: bool)
        requires
            old(self).wf(),
        ensures
            final(self).wf(),
            r == (cert.round >= old(self).gc_floor && !old(self).has_digest(cert.digest) && fits(
                old(self).store(),
                cert@,
            )),
            r ==> final(self).store().len() == old(self).store().len() + 1,
            forall|x: CertView|
                final(self).store().contains(x) <==> (old(self).store().contains(x) || (r && x == cert@)),
            final(self).last_committed == old(self).last_committed,
            final(self).gc_depth == old(self).gc_depth,
            final(self).gc_floor == old(self).gc_floor,
            final(self).released == old(self).released,
    {
        if cert.round < self.gc_floor || self.contains(cert.digest) || !self.fits_store(cert) {
            return false;
        }
        let ghost s = self.store();
        let mut pos: usize = 0;
        while pos < self.certs.len() && !(cert.round < self.certs[pos].round || (cert.round
            == self.certs[pos].round && cert.digest < self.certs[pos].digest))
            invariant
                s == self.store(),
                0 <= pos <= s.len(),
                forall|k: int| 0 <= k < pos ==> key_lt(#[trigger] s[k], cert@),
                !exists|i: int| 0 <= i < s.len() && #[trigger] s[i].digest == cert.digest,
            decreases s.len() - pos,
        {
            proof {
                assert(s[pos as int].digest != cert.digest);
            }
            pos = pos + 1;
        }
        self.certs.insert(pos, cert.duplicate());
        proof {
            let t = self.store();
            assert(t =~= s.insert(pos as int, cert@));
            assert forall|i: int, j: int| 0 <= i < j < t.len() implies key_lt(#[trigger] t[i], #[trigger] t[j]) by {
                if j < pos {
                } else if j == pos {
                } else if i < pos {
                    assert(t[j] == s[j - 1]);
                    if pos < s.len() {
                        assert(key_lt(s[pos as int], s[j - 1]) || pos == j - 1);
                    }
                } else if i == pos {
                    assert(t[j] == s[j - 1]);
                    assert(key_lt(cert@, s[pos as int]));
                    if pos < j - 1 {
                        assert(key_lt(s[pos as int], s[j - 1]));
                    }
                } else {
                    assert(t[i] == s[i - 1] && t[j] == s[j - 1]);
                }
            }
            assert forall|i: int, j: int|
                0 <= i < t.len() && 0 <= j < t.len() && i != j implies #[trigger] t[i].digest != #[trigger] t[j].digest by {
                if i != pos && j != pos {
                    let i0 = if i < pos { i } else { i - 1 };
                    let j0 = if j < pos { j } else { j - 1 };
                    assert(t[i] == s[i0] && t[j] == s[j0]);
                } else if i == pos {
                    let j0 = if j < pos { j } else { j - 1 };
                    assert(t[j] == s[j0]);
                } else {
                    let i0 = if i < pos { i } else { i - 1 };
                    assert(t[i] == s[i0]);
                }
            }
            assert forall|i: int, j: int|
                0 <= i < t.len() && 0 <= j < t.len() && (#[trigger] t[j]).parents.contains((#[trigger] t[i]).digest) implies t[i].round
                    + 1 == t[j].round by {
                let i0 = if i < pos { i } else { i - 1 };
                let j0 = if j < pos { j } else { j - 1 };
                if i != pos && j != pos {
                    assert(t[i] == s[i0] && t[j] == s[j0]);
                } else if i == pos && j != pos {
                    assert(t[j] == s[j0]);
                } else if j == pos && i != pos {
                    assert(t[i] == s[i0]);
                }
            }
            assert forall|i: int| 0 <= i < t.len() implies #[trigger] t[i].round >= self.gc_floor by {
                if i < pos {
                    assert(t[i] == s[i]);
                } else if i > pos {
                    assert(t[i] == s[i - 1]);
                }
            }
            assert forall|x: CertView| t.contains(x) <==> (s.contains(x) || x == cert@) by {
                if t.contains(x) {
                    let i = choose|i: int| 0 <= i < t.len() && t[i] == x;
                    if i < pos {
                        assert(s[i] == x);
                    } else if i > pos {
                        assert(s[i - 1] == x);
                    }
                }
                if s.contains(x) {
                    let i = choose|i: int| 0 <= i < s.len() && s[i] == x;
                    if i < pos {
                        assert(t[i] == x);
                    } else {
                        assert(t[i + 1] == x);
                    }
                }
                if x == cert@ {
                    assert(t[pos as int] == x);
                }
            }
        }
        true
    }

    /// The smallest last-committed round over the committee.
    pub fn min_committed(&self) -> (m: Round)
        ensures
            m == min_of(self.last_committed@),
    {
        let lc = &self.last_committed;
        if lc.len() == 0 {
            return 0;
        }
        let mut m: Round = lc[0];
        let mut i: usize = 1;
        while i < lc.len()
            invariant
                1 <= i <= lc@.len(),
                m == min_of(lc@.subrange(0, i as int)),
            decreases lc@.len() - i,
        {
            proof {
                assert(lc@.subrange(0, i as int + 1).drop_last() =~= lc@.subrange(0, i as int));
            }
            if lc[i] < m {
                m = lc[i];
            }
            i = i + 1;
        }
        proof {
            assert(lc@.subrange(0, i as int) =~= lc@);
        }
        m
    }

    /// Keeps only the certificates at or above the garbage-collection floor.
    fn prune(&mut self)
        requires
            sorted_by_key(old(self).store()),
            distinct_digests(old(self).store()),
            parents_precede(old(self).store()),
        ensures
            final(self).wf(),
            forall|x: CertView|
                final(self).store().contains(x) <==> (old(self).store().contains(x) && x.round >= old(self).gc_floor),
            final(self).last_committed == old(self).last_committed,
            final(self).gc_depth == old(self).gc_depth,
            final(self).gc_floor == old(self).gc_floor,
            final(self).released == old(self).released,
    {
        let ghost s = self.store();
        let floor = self.gc_floor;
        let mut kept: Vec<Certificate> = Vec::new();
        let ghost mut idx: Seq<int> = Seq::empty();
        let mut i: usize = 0;
        while i < self.certs.len()
            invariant
                s == self.store(),
                sorted_by_key(s),
                distinct_digests(s),
                parents_precede(s),
                floor == self.gc_floor,
                0 <= i <= s.len(),
                idx.len() == kept@.len(),
                forall|p: int| 0 <= p < idx.len() ==> 0 <= #[trigger] idx[p] < i && kept@[p]@ == s[idx[p]],
                forall|p: int, q: int| 0 <= p < q < idx.len() ==> #[trigger] idx[p] < #[trigger] idx[q],
                forall|p: int| 0 <= p < kept@.len() ==> (#[trigger] kept@[p]).round >= floor,
                forall|k: int| 0 <= k < i && s[k].round >= floor ==> exists|p: int| 0 <= p < idx.len() && #[trigger] idx[p] == k,
            decreases s.len() - i,
        {
            if self.certs[i].round >= floor {
                proof {
                    assert(s[i as int] == self.certs@[i as int]@);
                }
                kept.push(self.certs[i].duplicate());
                proof {
                    let old_idx = idx;
                    idx = idx.push(i as int);
                    assert forall|k: int| 0 <= k < i + 1 && s[k].round >= floor implies exists|p: int| 0 <= p < idx.len() && #[trigger] idx[p] == k by {
                        if k == i {
                            assert(idx[idx.len() - 1] == k);
                        } else {
                            let p = choose|p: int| 0 <= p < old_idx.len() && #[trigger] old_idx[p] == k;
                            assert(idx[p] == k);
                        }
                    }
                }
            }
            i = i + 1;
        }
        self.certs = kept;
        proof {
            let t = self.store();
            assert forall|p: int| 0 <= p < t.len() implies t[p] == s[idx[p]] by {
                assert(t[p] == kept@[p]@);
            }
            assert forall|p: int, q: int| 0 <= p < q < t.len() implies key_lt(#[trigger] t[p], #[trigger] t[q]) by {
                assert(t[p] == s[idx[p]] && t[q] == s[idx[q]]);
                assert(idx[p] < idx[q]);
            }
            assert forall|p: int, q: int|
                0 <= p < t.len() && 0 <= q < t.len() && p != q implies #[trigger] t[p].digest != #[trigger] t[q].digest by {
                assert(t[p] == s[idx[p]] && t[q] == s[idx[q]]);
                if p < q {
                    assert(idx[p] < idx[q]);
                } else {
                    assert(idx[q] < idx[p]);
                }
            }
            assert forall|p: int| 0 <= p < t.len() implies #[trigger] t[p].round >= self.gc_floor by {
                assert(t[p] == kept@[p]@);
            }
            assert forall|p: int, q: int|
                0 <= p < t.len() && 0 <= q < t.len() && (#[trigger] t[q]).parents.contains((#[trigger] t[p]).digest) implies t[p].round
                    + 1 == t[q].round by {
                assert(t[p] == s[idx[p]] && t[q] == s[idx[q]]);
            }
            assert forall|x: CertView| t.contains(x) <==> (s.contains(x) && x.round >= floor) by {
                if t.contains(x) {
                    let p = choose|p: int| 0 <= p < t.len() && t[p] == x;
                    assert(t[p] == s[idx[p]]);
                    assert(t[p] == kept@[p]@);
                }
                if s.contains(x) && x.round >= floor {
                    let k = choose|k: int| 0 <= k < s.len() && s[k] == x;
                    let p = choose|p: int| 0 <= p < idx.len() && #[trigger] idx[p] == k;
                    assert(t[p] == x);
                }
            }
        }
    }

    /// Records the certificates of one commit: raises each author's
    /// last-committed round to the highest committed round, lifts the
    /// garbage-collection floor accordingly, and drops every certificate
    /// below it. Only settled certificates are ever dropped.
    pub fn update(&mut self, committed: &Vec<Certificate>)
        requires
            old(self).wf(),
        ensures
            final(self).wf(),
            final(self).gc_depth == old(self).gc_depth,
            final(self).last_committed@.len() == old(self).last_committed@.len(),
            forall|a: int|
                0 <= a < old(self).last_committed@.len() ==> #[trigger] final(self).last_committed@[a]
                    >= old(self).last_committed@[a],
            forall|k: int|
                0 <= k < committed@.len() && committed@[k].author < old(self).last_committed@.len()
                    ==> (#[trigger] committed@[k]).round <= final(self).last_committed@[committed@[k].author as int],
            forall|a: int|
                0 <= a < old(self).last_committed@.len() ==> #[trigger] final(self).last_committed@[a]
                    == old(self).last_committed@[a] || exists|k: int|
                    0 <= k < committed@.len() && (#[trigger] committed@[k]).author == a
                        && committed@[k].round == final(self).last_committed@[a],
            final(self).gc_floor == next_floor(
                old(self).gc_floor as int,
                final(self).last_committed@,
                old(self).gc_depth as int,
            ),
            forall|x: CertView|
                final(self).store().contains(x) <==> (old(self).store().contains(x) && x.round
                    >= final(self).gc_floor),
            forall|x: CertView|
                old(self).store().contains(x) && !final(self).store().contains(x) ==> settled(
                    x,
                    final(self).last_committed@,
                ),
            forall|p: (Digest, Round)|
                final(self).released@.contains(p) <==> ((old(self).released@.contains(p) || exists|k: int|
                    0 <= k < committed@.len() && p == (#[trigger] committed@[k]).digest_round()) && p.1
                    >= final(self).gc_floor),
    {
        let ghost lc0 = self.last_committed@;
        let n = self.last_committed.len();
        let mut k: usize = 0;
        while k < committed.len()
            invariant
                self.wf(),
                n == lc0.len(),
                self.last_committed@.len() == n,
                self.store() == old(self).store(),
                self.gc_floor == old(self).gc_floor,
                self.gc_depth == old(self).gc_depth,
                self.released == old(self).released,
                lc0 == old(self).last_committed@,
                0 <= k <= committed@.len(),
                forall|a: int| 0 <= a < n ==> #[trigger] self.last_committed@[a] >= lc0[a],
                forall|j: int|
                    0 <= j < k && committed@[j].author < n ==> (#[trigger] committed@[j]).round
                        <= self.last_committed@[committed@[j].author as int],
                forall|a: int|
                    0 <= a < n ==> #[trigger] self.last_committed@[a] == lc0[a] || exists|j: int|
                        0 <= j < k && (#[trigger] committed@[j]).author == a && committed@[j].round
                            == self.last_committed@[a],
            decreases committed@.len() - k,
        {
            let a = committed[k].author;
            let r = committed[k].round;
            if a < n as u64 && r > self.last_committed[a as usize] {
                let ghost before = self.last_committed@;
                self.last_committed.set(a as usize, r);
                proof {
                    assert forall|b: int| 0 <= b < n implies #[trigger] self.last_committed@[b] == lc0[b] || exists|j: int|
                        0 <= j < k + 1 && (#[trigger] committed@[j]).author == b && committed@[j].round
                            == self.last_committed@[b] by {
                        if b == a {
                            assert(committed@[k as int].author == b);
                        } else if before[b] != lc0[b] {
                            let j = choose|j: int| 0 <= j < k && (#[trigger] committed@[j]).author == b && committed@[j].round == before[b];
                            assert(committed@[j].author == b);
                        }
                    }
                }
            } else {
                proof {
                    assert forall|b: int| 0 <= b < n implies #[trigger] self.last_committed@[b] == lc0[b] || exists|j: int|
                        0 <= j < k + 1 && (#[trigger] committed@[j]).author == b && committed@[j].round
                            == self.last_committed@[b] by {
                        if self.last_committed@[b] != lc0[b] {
                            let j = choose|j: int| 0 <= j < k && (#[trigger] committed@[j]).author == b && committed@[j].round == self.last_committed@[b];
                            assert(committed@[j].author == b);
                        }
                    }
                }
            }
            k = k + 1;
        }
        record_released(&mut self.released, committed);
        let m = self.min_committed();
        if m >= self.gc_depth && m - self.gc_depth > self.gc_floor {
            self.gc_floor = m - self.gc_depth;
        }
        let ghost pre = self.store();
        self.prune();
        self.released = keep_from(&self.released, self.gc_floor);
        proof {
            assert forall|x: CertView|
                pre.contains(x) && !self.store().contains(x) implies settled(x, self.last_committed@) by {
                let i = choose|i: int| 0 <= i < pre.len() && pre[i] == x;
                assert(pre[i].round >= old(self).gc_floor);
                if x.author < n {
                    lemma_min_of_le(self.last_committed@, x.author as int);
                }
            }
        }
    }
}

} // verus!
