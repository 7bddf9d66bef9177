use vstd::prelude::*;

use crate::jar::JarCache;

verus! {

/// One deposit into a jar: when it was made and how much.
#[derive(Copy, Clone, Debug, PartialEq, Eq)]
pub struct Deposit {
    pub created_at: u64,
    pub principal: u128,
}

impl Deposit {
    pub fn new(created_at: u64, principal: u128) -> (d: Deposit)
        ensures
            d.created_at == created_at,
            d.principal == principal,
    {
        Deposit { created_at, principal }
    }

    pub open spec fn spec_is_liquid(&self, now: u64, term: u64) -> bool {
        now - self.created_at > term
    }

    /// A deposit is liquid once more than `term` has passed since it was made.
    #[verifier::when_used_as_spec(spec_is_liquid)]
    pub fn is_liquid(&self, now: u64, term: u64) -> (b: bool)
        requires
            now >= self.created_at,
        ensures
            b == self.spec_is_liquid(now, term),
    {
        now - self.created_at > term
    }
}

/// Sum of the principals of `deposits`.
pub open spec fn principal_sum(deposits: Seq<Deposit>) -> nat
    decreases deposits.len(),
{
    if deposits.len() == 0 {
        0
    } else {
        principal_sum(deposits.drop_last()) + (deposits.last().principal as nat)
    }
}

/// The principal of a prefix grows by the next deposit.
pub proof fn lemma_principal_sum_prefix(deposits: Seq<Deposit>, n: int)
    requires
        0 < n <= deposits.len(),
    ensures
        principal_sum(deposits.take(n)) == principal_sum(deposits.take(n - 1)) + deposits[n - 1].principal,
        principal_sum(deposits.take(n)) <= principal_sum(deposits),
    decreases deposits.len(),
{
    assert(deposits.take(n).drop_last() =~= deposits.take(n - 1));
    if n < deposits.len() {
        lemma_principal_sum_prefix(deposits.drop_last(), n);
        assert(deposits.drop_last().take(n) =~= deposits.take(n));
    } else {
        assert(deposits.take(n) =~= deposits);
    }
}

/// The principal of a prefix never exceeds that of a longer prefix.
pub proof fn lemma_principal_sum_monotone(deposits: Seq<Deposit>, a: int, b: int)
    requires
        0 <= a <= b <= deposits.len(),
    ensures
        principal_sum(deposits.take(a)) <= principal_sum(deposits.take(b)),
    decreases b - a,
{
    if a < b {
        lemma_principal_sum_prefix(deposits, b);
        lemma_principal_sum_monotone(deposits, a, b - 1);
    }
}

/// The deposits of one account into one product.
#[derive(Clone, Debug)]
pub struct JarV2 {
    pub deposits: Vec<Deposit>,
    pub cache: Option<JarCache>,
    pub claimed_balance: u128,
    /// A cross-contract operation on the jar is in progress.
    pub is_pending_withdraw: bool,
    /// Interest below one token, in 1/MS_IN_YEAR units.
    pub claim_remainder: u64,
}

/// The fields of a jar to overwrite, each where present.
#[derive(Clone, Debug)]
pub struct JarV2Companion {
    pub deposits: Option<Vec<Deposit>>,
    pub cache: Option<Option<JarCache>>,
    pub is_pending_withdraw: Option<bool>,
    pub claim_remainder: Option<u64>,
}

/// Why an operation on a jar is refused.
#[derive(Copy, Clone, Debug, PartialEq, Eq)]
pub enum JarError {
    /// Another operation on the jar is in progress.
    Locked,
}

/// Deposits are kept in the order they were made.
pub open spec fn deposits_sorted(deposits: Seq<Deposit>) -> bool {
    forall|i: int, j: int| 0 <= i <= j < deposits.len() ==> deposits[i].created_at <= deposits[j].created_at
}

/// Every deposit was made no later than `now`.
pub open spec fn deposits_before(deposits: Seq<Deposit>, now: u64) -> bool {
    forall|i: int| 0 <= i < deposits.len() ==> deposits[i].created_at <= now
}

impl JarV2 {
    /// An empty jar.
    pub fn new() -> (j: JarV2)
        ensures
            j.deposits@ == Seq::<Deposit>::empty(),
            j.cache is None,
            j.claimed_balance == 0,
            !j.is_pending_withdraw,
            j.claim_remainder == 0,
    {
        JarV2 {
            deposits: Vec::new(),
            cache: None,
            claimed_balance: 0,
            is_pending_withdraw: false,
            claim_remainder: 0,
        }
    }

    pub open spec fn total(&self) -> nat {
        principal_sum(self.deposits@)
    }

    /// Sum of the principals of all deposits, or `None` when it leaves `u128`.
    pub fn checked_total(&self) -> (r: Option<u128>)
        ensures
            r is Some <==> self.total() <= u128::MAX,
            r matches Some(t) ==> t == self.total(),
    {
        let mut sum: u128 = 0;
        let mut i: usize = 0;
        while i < self.deposits.len()
            invariant
                i <= self.deposits@.len(),
                sum == principal_sum(self.deposits@.take(i as int)),
            decreases self.deposits@.len() - i,
        {
            proof {
                lemma_principal_sum_prefix(self.deposits@, i + 1);
            }
            match sum.checked_add(self.deposits[i].principal) {
                Some(next) => sum = next,
                None => return None,
            }
            i = i + 1;
        }
        assert(self.deposits@.take(self.deposits@.len() as int) =~= self.deposits@);
        Some(sum)
    }

    /// Sum of the principals of all deposits.
    pub fn total_principal(&self) -> (r: u128)
        requires
            self.total() <= u128::MAX,
        ensures
            r == self.total(),
    {
        assert(self.deposits@.take(self.deposits@.len() as int) =~= self.deposits@);
        sum_prefix(&self.deposits, self.deposits.len())
    }

    /// Whether the jar has no deposits and no interest left.
    pub fn should_close(&self) -> (b: bool)
        ensures
            b == (self.deposits@.len() == 0 && match self.cache {
                None => true,
                Some(c) => c.interest == 0,
            }),
    {
        self.deposits.len() == 0 && match self.cache {
            None => true,
            Some(c) => c.interest == 0,
        }
    }

    pub fn lock(&mut self)
        ensures
            final(self).deposits == old(self).deposits,
            final(self).cache == old(self).cache,
            final(self).claimed_balance == old(self).claimed_balance,
            final(self).claim_remainder == old(self).claim_remainder,
            final(self).is_pending_withdraw,
    {
        self.is_pending_withdraw = true;
    }

    /// Locks the jar unless it is locked already.
    pub fn try_lock(&mut self) -> (r: Result<(), JarError>)
        ensures
            r is Err <==> old(self).is_pending_withdraw,
            r is Err ==> *final(self) == *old(self),
            final(self).deposits == old(self).deposits,
            final(self).cache == old(self).cache,
            final(self).claimed_balance == old(self).claimed_balance,
            final(self).claim_remainder == old(self).claim_remainder,
            final(self).is_pending_withdraw,
    {
        if self.is_pending_withdraw {
            return Err(JarError::Locked);
        }
        self.lock();
        Ok(())
    }

    pub fn unlock(&mut self)
        ensures
            final(self).deposits == old(self).deposits,
            final(self).cache == old(self).cache,
            final(self).claimed_balance == old(self).claimed_balance,
            final(self).claim_remainder == old(self).claim_remainder,
            !final(self).is_pending_withdraw,
    {
        self.is_pending_withdraw = false;
    }

    /// Records a claim: keeps the remainder, caches zero interest at `now`.
    pub fn claim(&mut self, remainder: u64, now: u64)
        ensures
            final(self).deposits == old(self).deposits,
            final(self).claimed_balance == old(self).claimed_balance,
            final(self).is_pending_withdraw == old(self).is_pending_withdraw,
            final(self).claim_remainder == remainder,
            final(self).cache == Some(JarCache { updated_at: now, interest: 0 }),
    {
        self.claim_remainder = remainder;
        self.cache = Some(JarCache { updated_at: now, interest: 0 });
    }

    /// Stores interest computed at `now` together with its remainder.
    pub fn update_cache(&mut self, interest: u128, remainder: u64, now: u64)
        ensures
            final(self).deposits == old(self).deposits,
            final(self).claimed_balance == old(self).claimed_balance,
            final(self).is_pending_withdraw == old(self).is_pending_withdraw,
            final(self).claim_remainder == remainder,
            final(self).cache == Some(JarCache { updated_at: now, interest }),
    {
        self.cache = Some(JarCache { updated_at: now, interest });
        self.claim_remainder = remainder;
    }

    /// Drops the first `partition_index` deposits.
    pub fn clean_up_deposits(&mut self, partition_index: usize)
        requires
            partition_index <= old(self).deposits@.len(),
        ensures
            final(self).deposits@ == old(self).deposits@.skip(partition_index as int),
            final(self).cache == old(self).cache,
            final(self).claimed_balance == old(self).claimed_balance,
            final(self).is_pending_withdraw == old(self).is_pending_withdraw,
            final(self).claim_remainder == old(self).claim_remainder,
    {
        if partition_index == self.deposits.len() {
            self.deposits.clear();
            assert(self.deposits@ =~= old(self).deposits@.skip(partition_index as int));
        } else {
            let mut rest: Vec<Deposit> = Vec::new();
            let mut i = partition_index;
            while i < self.deposits.len()
                invariant
                    partition_index <= i <= self.deposits@.len(),
                    self.deposits@ == old(self).deposits@,
                    rest@ == old(self).deposits@.subrange(partition_index as int, i as int),
                decreases self.deposits@.len() - i,
            {
                rest.push(self.deposits[i]);
                assert(rest@ =~= old(self).deposits@.subrange(partition_index as int, i + 1));
                i = i + 1;
            }
            assert(rest@ =~= old(self).deposits@.skip(partition_index as int));
            self.deposits = rest;
        }
    }

    /// Overwrites the fields that the companion holds.
    pub fn apply(&mut self, companion: &JarV2Companion)
        ensures
            final(self).claim_remainder == match companion.claim_remainder {
                Some(r) => r,
                None => old(self).claim_remainder,
            },
            final(self).cache == match companion.cache {
                Some(c) => c,
                None => old(self).cache,
            },
            final(self).deposits@ == match companion.deposits {
                Some(d) => d@,
                None => old(self).deposits@,
            },
            final(self).is_pending_withdraw == match companion.is_pending_withdraw {
                Some(p) => p,
                None => old(self).is_pending_withdraw,
            },
            final(self).claimed_balance == old(self).claimed_balance,
    {
        if let Some(claim_remainder) = companion.claim_remainder {
            self.claim_remainder = claim_remainder;
        }
        if let Some(cache) = companion.cache {
            self.cache = cache;
        }
        if let Some(deposits) = &companion.deposits {
            self.deposits = copy_deposits(deposits);
        }
        if let Some(is_pending_withdraw) = companion.is_pending_withdraw {
            self.is_pending_withdraw = is_pending_withdraw;
        }
    }
}

/// A copy of the deposits.
pub fn copy_deposits(deposits: &Vec<Deposit>) -> (r: Vec<Deposit>)
    ensures
        r@ == deposits@,
{
    let mut r: Vec<Deposit> = Vec::new();
    let mut i: usize = 0;
    while i < deposits.len()
        invariant
            i <= deposits@.len(),
            r@ == deposits@.take(i as int),
        decreases deposits@.len() - i,
    {
        r.push(deposits[i]);
        assert(r@ =~= deposits@.take(i + 1));
        i = i + 1;
    }
    assert(r@ =~= deposits@);
    r
}

/// Sum of the principals of the first `n` deposits.
pub fn sum_prefix(deposits: &Vec<Deposit>, n: usize) -> (r: u128)
    requires
        n <= deposits@.len(),
        principal_sum(deposits@.take(n as int)) <= u128::MAX,
    ensures
        r == principal_sum(deposits@.take(n as int)),
{
    let mut sum: u128 = 0;
    let mut i: usize = 0;
    while i < n
        invariant
            i <= n <= deposits@.len(),
            sum == principal_sum(deposits@.take(i as int)),
            principal_sum(deposits@.take(n as int)) <= u128::MAX,
        decreases n - i,
    {
        proof {
            lemma_principal_sum_prefix(deposits@, (i + 1) as int);
            lemma_principal_sum_monotone(deposits@, (i + 1) as int, n as int);
        }
        sum = sum + deposits[i].principal;
        i = i + 1;
    }
    sum
}

} // verus!
