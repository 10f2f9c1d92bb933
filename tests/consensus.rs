use dolphin::certificate::Certificate;
use dolphin::committee::Committee;
use dolphin::committer::{order_dag, Committer};
use dolphin::consensus::Consensus;
use dolphin::store::State;
use dolphin::virtual_dag::{Filter, VirtualState};

fn equal_committee() -> Committee {
    Committee::new(vec![1, 1, 1, 1]).unwrap()
}

fn digest(round: u64, author: u64) -> u64 {
    10 * round + author
}

/// Certificate of `author` at `round` (physical and virtual), built on the
/// given authors of the previous round.
fn cert_on(round: u64, author: u64, parents: &[u64]) -> Certificate {
    let ps: Vec<u64> = if round == 1 {
        Vec::new()
    } else {
        parents.iter().map(|a| digest(round - 1, *a)).collect()
    };
    Certificate {
        digest: digest(round, author),
        author,
        round,
        virtual_round: round,
        parents: ps.clone(),
        virtual_parents: ps,
        payload: vec![1000 + digest(round, author)],
    }
}

fn cert(round: u64, author: u64) -> Certificate {
    cert_on(round, author, &[0, 1, 2, 3])
}

fn digests(v: &[Certificate]) -> Vec<u64> {
    v.iter().map(|c| c.digest).collect()
}

#[test]
fn committee_thresholds() {
    let c = equal_committee();
    assert_eq!(c.total_stake(), 4);
    assert_eq!(c.quorum_threshold(), 3);
    assert_eq!(c.validity_threshold(), 2);
    let c = Committee::new(vec![2, 3, 4]).unwrap();
    assert_eq!(c.total_stake(), 9);
    assert_eq!(c.quorum_threshold(), 7);
    assert_eq!(c.validity_threshold(), 4);
    assert_eq!(c.stake(1), 3);
    assert_eq!(c.stake(7), 0);
}

#[test]
fn committee_rejects_bad_tables() {
    assert!(Committee::new(vec![]).is_none());
    assert!(Committee::new(vec![0, 0]).is_none());
    assert!(Committee::new(vec![u64::MAX, 1]).is_none());
    assert!(Committee::new(vec![0xffff_ffff]).is_some());
    assert!(Committee::new(vec![0xffff_ffff, 1]).is_none());
}

#[test]
fn stake_units_are_owned_in_order() {
    let c = Committee::new(vec![2, 3, 4]).unwrap();
    let owners: Vec<u64> = (0..9).map(|p| c.owner_of_unit(p)).collect();
    assert_eq!(owners, vec![0, 0, 1, 1, 1, 2, 2, 2, 2]);
}

#[test]
fn leader_only_at_odd_rounds() {
    let c = equal_committee();
    let mut vs = VirtualState::new();
    for a in 0..4 {
        assert!(vs.try_add(&cert(1, a)));
    }
    for a in 0..4 {
        assert!(vs.try_add(&cert(2, a)));
    }
    let i = vs.steady_leader(&c, 1).unwrap();
    assert_eq!(vs.certs[i].digest, digest(1, 0));
    assert!(vs.steady_leader(&c, 2).is_none());
    assert!(vs.steady_leader(&c, 3).is_none());
}

#[test]
fn leader_rotates_with_stake() {
    let c = equal_committee();
    let mut vs = VirtualState::new();
    for r in 1..8 {
        for a in 0..4 {
            assert!(vs.try_add(&cert(r, a)));
        }
    }
    let authors: Vec<u64> = [1u64, 3, 5, 7]
        .iter()
        .map(|r| vs.certs[vs.steady_leader(&c, *r).unwrap()].author)
        .collect();
    assert_eq!(authors, vec![0, 1, 2, 3]);
}

#[test]
fn virtual_admission_rules() {
    let mut vs = VirtualState::new();
    assert!(vs.try_add(&cert(2, 0)));
    assert_eq!(vs.frontier, 2);
    // Same digest again.
    assert!(!vs.try_add(&cert(2, 0)));
    // Another certificate of the same author at the same round.
    let mut other = cert(2, 0);
    other.digest = 999;
    assert!(!vs.try_add(&other));
    // Behind the frontier.
    assert!(!vs.try_add(&cert(1, 1)));
    // At and above the frontier.
    assert!(vs.try_add(&cert(2, 1)));
    assert!(vs.try_add(&cert(3, 1)));
    assert_eq!(vs.frontier, 3);
    assert_eq!(vs.certs.len(), 3);
}

#[test]
fn quorum_branch_holds_without_timeout() {
    let c = equal_committee();
    let mut vs = VirtualState::new();
    for a in 0..4 {
        vs.try_add(&cert(1, a));
    }
    vs.try_add(&cert_on(2, 0, &[0, 1, 2]));
    vs.try_add(&cert_on(2, 1, &[0, 2, 3]));
    assert!(!vs.qc(&c, 2));
    assert!(!vs.tc(&c, 2));
    vs.try_add(&cert_on(2, 2, &[0, 1, 3]));
    assert_eq!(vs.stake_where(&c, 2, Filter::Supports(digest(1, 0))), 3);
    assert!(vs.qc(&c, 2));
    assert!(!vs.tc(&c, 2));
}

#[test]
fn timeout_branch_holds_without_quorum() {
    let c = equal_committee();
    let mut vs = VirtualState::new();
    for a in 0..4 {
        vs.try_add(&cert(1, a));
    }
    vs.try_add(&cert_on(2, 0, &[1, 2, 3]));
    assert!(!vs.tc(&c, 2));
    vs.try_add(&cert_on(2, 1, &[1, 2, 3]));
    vs.try_add(&cert_on(2, 2, &[0, 1, 2]));
    vs.try_add(&cert_on(2, 3, &[0, 1, 2]));
    assert_eq!(vs.stake_where(&c, 2, Filter::Ignores(digest(1, 0))), 2);
    assert_eq!(vs.stake_where(&c, 2, Filter::Any), 4);
    assert!(vs.tc(&c, 2));
    assert!(!vs.qc(&c, 2));
}

#[test]
fn no_leader_no_evidence() {
    let c = equal_committee();
    let mut vs = VirtualState::new();
    for a in 1..4 {
        vs.try_add(&cert(1, a));
    }
    for a in 0..4 {
        vs.try_add(&cert_on(2, a, &[1, 2, 3]));
    }
    assert!(!vs.qc(&c, 2));
    assert!(!vs.tc(&c, 2));
    assert!(!vs.qc(&c, 0));
}

#[test]
fn store_is_ordered_and_idempotent() {
    let mut st = State::new(4, 2);
    assert!(st.add(&cert(2, 3)));
    assert!(st.add(&cert(1, 2)));
    assert!(st.add(&cert(2, 0)));
    assert!(!st.add(&cert(1, 2)));
    assert_eq!(digests(&st.certs), vec![12, 20, 23]);
    assert!(st.contains(20));
    assert!(!st.contains(21));
}

#[test]
fn gc_prunes_only_settled_rounds() {
    let mut st = State::new(2, 1);
    for r in 1..5 {
        for a in 0..2 {
            st.add(&cert_on(r, a, &[0, 1]));
        }
    }
    st.update(&vec![cert(3, 0), cert(2, 1)]);
    assert_eq!(st.last_committed, vec![3, 2]);
    assert_eq!(st.min_committed(), 2);
    assert_eq!(st.gc_floor, 1);
    assert_eq!(st.certs.len(), 8);
    st.update(&vec![cert(3, 1), cert(1, 0)]);
    assert_eq!(st.last_committed, vec![3, 3]);
    assert_eq!(st.gc_floor, 2);
    assert_eq!(digests(&st.certs), vec![20, 21, 30, 31, 40, 41]);
    // Below the floor nothing is stored any more.
    assert!(!st.add(&cert(1, 0)));
}

#[test]
fn ancestor_walk_orders_by_round_then_digest() {
    let mut st = State::new(4, 50);
    for a in 0..4 {
        st.add(&cert(1, a));
    }
    st.add(&cert_on(2, 0, &[1, 2]));
    st.add(&cert_on(2, 3, &[3]));
    let leader = cert_on(3, 1, &[0]);
    st.add(&leader);
    let out = order_dag(&st, &leader);
    assert_eq!(digests(&out), vec![11, 12, 20, 31]);
    // The leader comes last.
    assert_eq!(out.last().unwrap().digest, leader.digest);
}

#[test]
fn ancestor_walk_skips_settled() {
    let mut st = State::new(4, 50);
    for a in 0..4 {
        st.add(&cert(1, a));
    }
    let leader = cert(2, 2);
    st.add(&leader);
    st.update(&vec![cert(1, 1), cert(1, 3)]);
    let out = order_dag(&st, &leader);
    assert_eq!(digests(&out), vec![10, 12, 22]);
}

#[test]
fn committer_commits_once_per_leader() {
    let c = equal_committee();
    let mut committer = Committer::new(c);
    let mut st = State::new(4, 50);
    let mut vs = VirtualState::new();
    for a in 0..4 {
        let x = cert(1, a);
        st.add(&x);
        vs.try_add(&x);
        assert!(committer.try_commit(&x, &mut st, &vs).is_empty());
    }
    let mut committed = Vec::new();
    for a in 0..4 {
        let x = cert(2, a);
        st.add(&x);
        vs.try_add(&x);
        let out = committer.try_commit(&x, &mut st, &vs);
        committed.extend(digests(&out));
    }
    assert_eq!(committed, vec![10]);
    assert_eq!(committer.last_leader_round, 1);
    assert_eq!(st.last_committed, vec![1, 0, 0, 0]);
}

fn run_all(order: &[Certificate]) -> Vec<u64> {
    let mut node = Consensus::new(0, equal_committee(), 1000, 50);
    let mut out = Vec::new();
    for c in order {
        out.extend(digests(&node.process_certificate(c.clone())));
    }
    out
}

#[test]
fn end_to_end_four_rounds() {
    let mut node = Consensus::new(0, equal_committee(), 1000, 50);
    let mut outputs = Vec::new();
    for r in 1..3 {
        for a in 0..4 {
            outputs.push(digests(&node.process_certificate(cert(r, a))));
        }
    }
    // Round 1's leader (author 0) commits on the third round-2 certificate.
    assert!(outputs[..6].iter().all(|o| o.is_empty()));
    assert_eq!(outputs[6], vec![10]);
    assert!(outputs[7].is_empty());
    assert_eq!(node.state.last_committed, vec![1, 0, 0, 0]);
    for r in 3..5 {
        for a in 0..4 {
            outputs.push(digests(&node.process_certificate(cert(r, a))));
        }
    }
    // Round 3's leader (author 1) commits on the third round-4 certificate.
    assert!(outputs[8..14].iter().all(|o| o.is_empty()));
    assert_eq!(outputs[14], vec![11, 12, 13, 20, 21, 22, 23, 31]);
    assert!(outputs[15].is_empty());
    assert_eq!(node.state.last_committed, vec![2, 3, 2, 2]);
}

#[test]
fn same_certificates_any_order_same_output() {
    let mut forward = Vec::new();
    for r in 1..5 {
        for a in 0..4 {
            forward.push(cert(r, a));
        }
    }
    let mut shuffled = Vec::new();
    for r in 1..5 {
        for a in [2u64, 0, 3, 1] {
            shuffled.push(cert(r, a));
        }
    }
    let a = run_all(&forward);
    let b = run_all(&shuffled);
    assert_eq!(a, b);
    assert_eq!(a, vec![10, 11, 12, 13, 20, 21, 22, 23, 31]);
}

#[test]
fn ancestors_come_before_descendants() {
    let mut order = Vec::new();
    for r in 1..7 {
        for a in 0..4 {
            order.push(cert(r, a));
        }
    }
    let out = run_all(&order);
    for (i, d) in out.iter().enumerate() {
        for e in &out[i + 1..] {
            assert!(d / 10 <= e / 10);
        }
    }
}

#[test]
fn no_certificate_committed_twice() {
    let mut order = Vec::new();
    for r in 1..9 {
        for a in 0..4 {
            order.push(cert(r, a));
        }
    }
    // Deliver everything twice.
    let twice: Vec<Certificate> = order.iter().chain(order.iter()).cloned().collect();
    let out = run_all(&twice);
    let mut sorted = out.clone();
    sorted.sort();
    sorted.dedup();
    assert_eq!(sorted.len(), out.len());
    assert!(!out.is_empty());
}

#[test]
fn timer_advances_past_silent_leader() {
    let mut node = Consensus::new(1, equal_committee(), 1000, 50);
    // Round 1's leader (author 0) stays silent.
    for a in 1..4 {
        assert!(node.process_certificate(cert_on(1, a, &[])).is_empty());
    }
    assert!(node.quorum.is_some());
    assert!(!node.advance_early);
    assert!(node.try_advance(false).is_none());
    let (parents, round) = node.try_advance(true).unwrap();
    assert_eq!(round, 2);
    assert_eq!(parents, vec![11, 12, 13]);
    assert_eq!(node.virtual_round, 2);
    assert!(node.quorum.is_none());
    // Round 2 built without the leader: no commit, the timeout evidence holds.
    for a in 1..4 {
        assert!(node.process_certificate(cert_on(2, a, &[1, 2, 3])).is_empty());
    }
    assert!(node.try_advance(true).is_some());
    assert_eq!(node.virtual_round, 3);
}

#[test]
fn early_advance_when_leader_present() {
    let mut node = Consensus::new(1, equal_committee(), 1000, 50);
    node.process_certificate(cert(1, 0));
    node.process_certificate(cert(1, 1));
    assert!(node.quorum.is_none());
    assert!(node.advance_early);
    node.process_certificate(cert(1, 2));
    assert!(node.quorum.is_some());
    let (parents, round) = node.try_advance(false).unwrap();
    assert_eq!((parents, round), (vec![10, 11, 12], 2));
    assert_eq!(node.virtual_round, 2);
}

#[test]
fn other_authorities_rounds_do_not_move_us() {
    let mut node = Consensus::new(3, equal_committee(), 1000, 50);
    for a in 0..3 {
        node.process_certificate(cert(1, a));
    }
    assert!(node.quorum.is_none());
    assert!(!node.advance_early);
    assert!(node.try_advance(true).is_none());
    assert_eq!(node.virtual_round, 1);
}

#[test]
fn validity_is_strictly_above_a_third() {
    let c = Committee::new(vec![1, 1, 1]).unwrap();
    assert_eq!(c.validity_threshold(), 2);
    assert_eq!(c.quorum_threshold(), 3);
    let c = Committee::new(vec![5]).unwrap();
    assert_eq!(c.validity_threshold(), 2);
    assert_eq!(c.quorum_threshold(), 4);
}

#[test]
fn committer_records_skipped_round() {
    let c = equal_committee();
    let mut committer = Committer::new(c);
    let mut st = State::new(4, 50);
    let mut vs = VirtualState::new();
    for a in 0..4 {
        let x = cert(1, a);
        st.add(&x);
        vs.try_add(&x);
        committer.try_commit(&x, &mut st, &vs);
    }
    let mut outs = Vec::new();
    for (a, ps) in [(0u64, [1u64, 2, 3]), (1, [1, 2, 3]), (2, [0, 1, 2]), (3, [0, 1, 2])] {
        let x = cert_on(2, a, &ps);
        st.add(&x);
        vs.try_add(&x);
        outs.push(committer.try_commit(&x, &mut st, &vs).len());
        if a == 0 {
            assert_eq!(committer.last_leader_round, 0);
        }
    }
    // The second certificate brings the timeout evidence: round 1 is skipped
    // and never commits afterwards.
    assert_eq!(outs, vec![0, 0, 0, 0]);
    assert_eq!(committer.last_leader_round, 1);
    assert_eq!(st.last_committed, vec![0, 0, 0, 0]);
}

#[test]
fn store_refuses_parent_outside_previous_round() {
    let mut st = State::new(4, 50);
    assert!(st.add(&cert(1, 0)));
    // Cites a round-1 parent from round 3.
    let mut bad = cert_on(3, 1, &[]);
    bad.parents = vec![digest(1, 0)];
    assert!(!st.fits_store(&bad));
    assert!(!st.add(&bad));
    // Cites itself.
    let mut own = cert(2, 2);
    own.parents.push(own.digest);
    assert!(!st.add(&own));
    assert!(st.add(&cert(2, 1)));
    assert_eq!(digests(&st.certs), vec![10, 21]);
}

#[test]
fn out_of_order_certificate_not_admitted() {
    let mut node = Consensus::new(0, equal_committee(), 1000, 50);
    node.process_certificate(cert(1, 0));
    let mut bad = cert_on(2, 1, &[]);
    bad.parents = vec![digest(1, 0), 999];
    bad.round = 3;
    assert!(node.process_certificate(bad).is_empty());
    assert_eq!(node.virtual_state.certs.len(), 1);
    assert_eq!(node.latest_round, 1);
}

#[test]
fn stale_certificate_keeps_latest_round() {
    let mut node = Consensus::new(0, equal_committee(), 1000, 50);
    for a in 0..4 {
        node.process_certificate(cert(1, a));
    }
    for a in 0..3 {
        node.process_certificate(cert(2, a));
    }
    assert_eq!(node.latest_round, 2);
    // A round-1 certificate arriving late is stored but not admitted.
    let mut late = cert(1, 3);
    late.digest = 77;
    assert!(node.process_certificate(late).is_empty());
    assert_eq!(node.latest_round, 2);
    assert!(node.state.contains(77));
}

#[test]
fn duplicate_delivery_changes_nothing() {
    let mut once = Consensus::new(0, equal_committee(), 1000, 50);
    let mut twice = Consensus::new(0, equal_committee(), 1000, 50);
    let mut a = Vec::new();
    let mut b = Vec::new();
    for r in 1..5 {
        for x in 0..4 {
            a.extend(digests(&once.process_certificate(cert(r, x))));
            b.extend(digests(&twice.process_certificate(cert(r, x))));
            b.extend(digests(&twice.process_certificate(cert(r, x))));
        }
    }
    assert_eq!(a, b);
    assert_eq!(once.state.last_committed, twice.state.last_committed);
}

#[test]
fn unreleased_ancestor_of_committed_author_still_released() {
    let mut st = State::new(4, 50);
    for a in 0..4 {
        st.add(&cert(1, a));
    }
    let x = cert(2, 0);
    let other = cert(2, 1);
    st.add(&x);
    st.add(&other);
    // Author 0 commits round 3 without its round-2 certificate.
    let y = cert_on(3, 0, &[1]);
    st.add(&y);
    st.update(&vec![y.clone()]);
    assert_eq!(st.last_committed[0], 3);
    // A later anchor reaches author 0's round-2 certificate.
    let z = cert_on(3, 2, &[0]);
    st.add(&z);
    let out = order_dag(&st, &z);
    assert_eq!(digests(&out), vec![10, 11, 12, 13, 20, 32]);
    st.update(&out);
    let again = order_dag(&st, &z);
    assert!(again.is_empty());
}

#[test]
fn advertised_round_follows_candidate() {
    let mut node = Consensus::new(0, equal_committee(), 1000, 50);
    for a in 0..4 {
        node.process_certificate(cert(1, a));
    }
    assert!(node.quorum.is_some());
    // Other authorities move to round 2 before the timer fires.
    node.process_certificate(cert(2, 1));
    node.process_certificate(cert(2, 2));
    assert_eq!(node.latest_round, 2);
    let (parents, round) = node.try_advance(true).unwrap();
    assert_eq!(parents, vec![10, 11, 12, 13]);
    assert_eq!(round, 2);
    assert_eq!(node.virtual_round, 2);
}
