use vstd::prelude::*;

verus! {

/// Authority identifiers are indices into the committee's stake table.
pub type AuthorityId = u64;

/// Voting weight of one authority.
pub type Stake = u64;

/// Largest total stake a committee may carry, so that threshold arithmetic
/// never overflows.
pub const MAX_TOTAL_STAKE: u64 = 0xffff_ffff;

/// Sum of the first `n` entries of a stake table.
pub open spec fn prefix_stake(stakes: Seq<u64>, n: int) -> int
    decreases n,
{
    if n <= 0 || stakes.len() == 0 {
        0
    } else if n > stakes.len() {
        prefix_stake(stakes, stakes.len() as int)
    } else {
        prefix_stake(stakes, n - 1) + stakes[n - 1]
    }
}

/// Total stake of a stake table.
pub open spec fn total_of(stakes: Seq<u64>) -> int {
    prefix_stake(stakes, stakes.len() as int)
}

/// Strictly more than two thirds of `total`.
pub open spec fn quorum_of(total: int) -> int {
    2 * total / 3 + 1
}

/// Strictly more than one third of `total`.
pub open spec fn validity_of(total: int) -> int {
    total / 3 + 1
}

/// The authority owning stake unit `p`, scanning from authority `a` on.
pub open spec fn owner_from(stakes: Seq<u64>, a: int, p: int) -> int
    decreases stakes.len() - a,
{
    if a < 0 || a >= stakes.len() {
        stakes.len() as int
    } else if p < stakes[a] {
        a
    } else {
        owner_from(stakes, a + 1, p - stakes[a])
    }
}

pub proof fn lemma_prefix_stake_mono(stakes: Seq<u64>, i: int, j: int)
    requires
        0 <= i <= j <= stakes.len(),
    ensures
        0 <= prefix_stake(stakes, i) <= prefix_stake(stakes, j),
    decreases j,
{
    if i < j {
        lemma_prefix_stake_mono(stakes, i, j - 1);
    } else if j > 0 {
        lemma_prefix_stake_mono(stakes, j - 1, j - 1);
    }
}

/// A quorum and a validity-sized set together always exceed the total stake.
pub proof fn lemma_thresholds_overlap(total: int)
    requires
        total >= 0,
    ensures
        quorum_of(total) + validity_of(total) > total,
{
    let k = total / 3;
    let m = total % 3;
    assert(total == 3 * k + m);
    if m == 0 {
        assert(2 * total / 3 == 2 * k);
        assert(total / 3 == k);
    } else if m == 1 {
        assert(2 * total / 3 == 2 * k);
        assert(total / 3 == k);
    } else {
        assert(2 * total / 3 == 2 * k + 1);
        assert(total / 3 == k);
    }
}

/// The static stake table of one epoch.
pub struct Committee {
    pub stakes: Vec<Stake>,
}

impl Committee {
    pub open spec fn total(&self) -> int {
        total_of(self.stakes@)
    }

    pub open spec fn size(&self) -> int {
        self.stakes@.len() as int
    }

    pub open spec fn wf(&self) -> bool {
        &&& self.stakes@.len() > 0
        &&& 0 < self.total() <= MAX_TOTAL_STAKE
    }

    /// Stake of `a`; an authority outside the committee has none.
    pub open spec fn stake_of(&self, a: AuthorityId) -> int {
        if a < self.stakes@.len() {
            self.stakes@[a as int] as int
        } else {
            0
        }
    }

    /// Builds a committee; refused when the table is empty, carries no stake,
    /// or carries more than `MAX_TOTAL_STAKE`.
    pub fn new(stakes: Vec<Stake>) -> (r: Option<Committee>)
        ensures
            r is Some <==> (stakes@.len() > 0 && 0 < total_of(stakes@) <= MAX_TOTAL_STAKE),
            r matches Some(c) ==> c.stakes@ == stakes@ && c.wf(),
    {
        let n = stakes.len();
        let mut sum: u64 = 0;
        let mut i: usize = 0;
        while i < n
            invariant
                n == stakes@.len(),
                0 <= i <= n,
                sum == prefix_stake(stakes@, i as int),
                sum <= MAX_TOTAL_STAKE,
            decreases n - i,
        {
            let s = stakes[i];
            if s > MAX_TOTAL_STAKE - sum {
                proof {
                    lemma_prefix_stake_mono(stakes@, i as int + 1, n as int);
                }
                return None;
            }
            sum = sum + s;
            i = i + 1;
        }
        if n == 0 || sum == 0 {
            return None;
        }
        Some(Committee { stakes })
    }

    /// Stake of authority `a` (zero outside the committee).
    pub fn stake(&self, a: AuthorityId) -> (r: Stake)
        ensures
            r == self.stake_of(a),
    {
        if a < self.stakes.len() as u64 {
            self.stakes[a as usize]
        } else {
            0
        }
    }

    /// Total stake of the committee.
    pub fn total_stake(&self) -> (r: Stake)
        requires
            self.wf(),
        ensures
            r == self.total(),
    {
        let n = self.stakes.len();
        let mut sum: u64 = 0;
        let mut i: usize = 0;
        while i < n
            invariant
                n == self.stakes@.len(),
                0 <= i <= n,
                sum == prefix_stake(self.stakes@, i as int),
                self.wf(),
            decreases n - i,
        {
            proof {
                lemma_prefix_stake_mono(self.stakes@, i as int + 1, n as int);
            }
            sum = sum + self.stakes[i];
            i = i + 1;
        }
        sum
    }

    /// Stake strictly above two thirds of the total.
    pub fn quorum_threshold(&self) -> (r: Stake)
        requires
            self.wf(),
        ensures
            r == quorum_of(self.total()),
    {
        let t = self.total_stake();
        2 * t / 3 + 1
    }

    /// Stake strictly above one third of the total.
    pub fn validity_threshold(&self) -> (r: Stake)
        requires
            self.wf(),
        ensures
            r == validity_of(self.total()),
    {
        let t = self.total_stake();
        t / 3 + 1
    }

    /// The authority that owns stake unit `p` when stake units are laid out
    /// in authority order.
    pub fn owner_of_unit(&self, p: u64) -> (r: AuthorityId)
        requires
            self.wf(),
            p < self.total(),
        ensures
            r == owner_from(self.stakes@, 0, p as int),
            r < self.size(),
    {
        let n = self.stakes.len();
        let mut a: usize = 0;
        let mut q: u64 = p;
        while a < n
            invariant
                n == self.stakes@.len(),
                0 <= a <= n,
                owner_from(self.stakes@, a as int, q as int) == owner_from(self.stakes@, 0, p as int),
                q + prefix_stake(self.stakes@, a as int) == p,
                q < self.total() - prefix_stake(self.stakes@, a as int),
            decreases n - a,
        {
            if q < self.stakes[a] {
                return a as u64;
            }
            q = q - self.stakes[a];
            a = a + 1;
        }
        proof {
            assert(prefix_stake(self.stakes@, n as int) == self.total());
        }
        a as u64
    }
}

} // verus!
