use vstd::prelude::*;

use crate::committee::AuthorityId;

verus! {

/// Content digest identifying a certificate.
pub type Digest = u64;

/// Physical or virtual round number.
pub type Round = u64;

/// Mathematical view of a certificate.
pub struct CertView {
    pub digest: Digest,
    pub author: AuthorityId,
    pub round: Round,
    pub virtual_round: Round,
    pub parents: Seq<Digest>,
    pub virtual_parents: Seq<Digest>,
    pub payload: Seq<Digest>,
}

impl CertView {
    /// Its digest paired with its round.
    pub open spec fn digest_round(&self) -> (Digest, Round) {
        (self.digest, self.round)
    }
}

/// An immutable, quorum-attested unit of the DAG.
#[derive(Clone, Debug)]
pub struct Certificate {
    pub digest: Digest,
    pub author: AuthorityId,
    pub round: Round,
    pub virtual_round: Round,
    /// Digests of the certificates of the previous physical round it builds on.
    pub parents: Vec<Digest>,
    /// Digests of the certificates of the previous virtual round it builds on.
    pub virtual_parents: Vec<Digest>,
    /// Digests of the batches it carries.
    pub payload: Vec<Digest>,
}

impl View for Certificate {
    type V = CertView;

    open spec fn view(&self) -> CertView {
        CertView {
            digest: self.digest,
            author: self.author,
            round: self.round,
            virtual_round: self.virtual_round,
            parents: self.parents@,
            virtual_parents: self.virtual_parents@,
            payload: self.payload@,
        }
    }
}

/// Orders certificates by physical round, then by digest.
pub open spec fn key_lt(a: CertView, b: CertView) -> bool {
    a.round < b.round || (a.round == b.round && a.digest < b.digest)
}

/// A sequence strictly increasing in (round, digest).
pub open spec fn sorted_by_key(s: Seq<CertView>) -> bool {
    forall|i: int, j: int| 0 <= i < j < s.len() ==> key_lt(#[trigger] s[i], #[trigger] s[j])
}

/// No two entries share a digest.
pub open spec fn distinct_digests(s: Seq<CertView>) -> bool {
    forall|i: int, j: int|
        0 <= i < s.len() && 0 <= j < s.len() && i != j ==> #[trigger] s[i].digest
            != #[trigger] s[j].digest
}

/// Copies a digest list.
pub fn copy_digests(v: &Vec<Digest>) -> (r: Vec<Digest>)
    ensures
        r@ == v@,
{
    let mut r: Vec<Digest> = Vec::new();
    let mut i: usize = 0;
    while i < v.len()
        invariant
            0 <= i <= v@.len(),
            r@ == v@.subrange(0, i as int),
        decreases v@.len() - i,
    {
        r.push(v[i]);
        i = i + 1;
        proof {
            assert(r@ =~= v@.subrange(0, i as int));
        }
    }
    proof {
        assert(r@ =~= v@);
    }
    r
}

/// Whether `d` occurs in `v`.
pub fn contains_digest(v: &Vec<Digest>, d: Digest) -> (r: bool)
    ensures
        r == v@.contains(d),
{
    let mut i: usize = 0;
    while i < v.len()
        invariant
            0 <= i <= v@.len(),
            forall|k: int| 0 <= k < i ==> v@[k] != d,
        decreases v@.len() - i,
    {
        if v[i] == d {
            return true;
        }
        i = i + 1;
    }
    false
}

impl Certificate {
    /// A field-for-field copy.
    pub fn duplicate(&self) -> (r: Certificate)
        ensures
            r@ == self@,
    {
        Certificate {
            digest: self.digest,
            author: self.author,
            round: self.round,
            virtual_round: self.virtual_round,
            parents: copy_digests(&self.parents),
            virtual_parents: copy_digests(&self.virtual_parents),
            payload: copy_digests(&self.payload),
        }
    }

    /// Its digest paired with its round.
    pub open spec fn digest_round(&self) -> (Digest, Round) {
        (self.digest, self.round)
    }

    /// The authority that created the certificate.
    pub fn origin(&self) -> (r: AuthorityId)
        ensures
            r == self.author,
    {
        self.author
    }
}

} // verus!
