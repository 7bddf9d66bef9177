use vstd::prelude::*;
use vstd::arithmetic::div_mod::{lemma_fundamental_div_mod, lemma_fundamental_div_mod_converse};

verus! {

/// Milliseconds in a (365-day) year.
pub const MS_IN_YEAR: u64 = 31_536_000_000;

/// Milliseconds in a day.
pub const MS_IN_DAY: u64 = 86_400_000;

/// Interest is carried as a whole amount plus a remainder in 1/MS_IN_YEAR units.
/// Adding `scaled` (an amount times milliseconds) to `(interest, remainder)` gives
/// the quotient and remainder of the exact total.
pub open spec fn accrue(interest: nat, remainder: nat, scaled: nat) -> (nat, nat) {
    let total = interest * (MS_IN_YEAR as nat) + remainder + scaled;
    (total / (MS_IN_YEAR as nat), total % (MS_IN_YEAR as nat))
}

/// The carried total never loses a unit: the quotient and remainder add back up.
pub proof fn lemma_accrue_exact(interest: nat, remainder: nat, scaled: nat)
    ensures
        accrue(interest, remainder, scaled).0 * (MS_IN_YEAR as nat) + accrue(interest, remainder, scaled).1
            == interest * (MS_IN_YEAR as nat) + remainder + scaled,
        accrue(interest, remainder, scaled).1 < MS_IN_YEAR,
{
    let m = MS_IN_YEAR as int;
    let total = interest * (MS_IN_YEAR as nat) + remainder + scaled;
    lemma_fundamental_div_mod(total as int, m);
    let q = total as int / m;
    assert(q * m == m * q) by (nonlinear_arith);
}

/// Accruing in two steps is accruing the sum once: caching interest part-way
/// changes nothing.
pub proof fn lemma_accrue_additive(interest: nat, remainder: nat, a: nat, b: nat)
    ensures
        accrue(accrue(interest, remainder, a).0, accrue(interest, remainder, a).1, b) == accrue(
            interest,
            remainder,
            a + b,
        ),
{
    lemma_accrue_exact(interest, remainder, a);
    let (q, r) = accrue(interest, remainder, a);
    assert(q * (MS_IN_YEAR as nat) + r + b == interest * (MS_IN_YEAR as nat) + remainder + (a + b));
}

/// Splits the accrual the way a `u128` computation does it: the whole part of
/// `scaled`, then what the remainders carry.
pub proof fn lemma_accrue_split(interest: nat, remainder: nat, scaled: nat)
    ensures
        accrue(interest, remainder, scaled).0 == interest + scaled / (MS_IN_YEAR as nat) + (remainder
            + scaled % (MS_IN_YEAR as nat)) / (MS_IN_YEAR as nat),
        accrue(interest, remainder, scaled).1 == (remainder + scaled % (MS_IN_YEAR as nat)) % (
        MS_IN_YEAR as nat),
{
    let m = MS_IN_YEAR as int;
    let x = scaled as int;
    let c = interest as int;
    let r = remainder as int;
    lemma_fundamental_div_mod(x, m);
    let t = r + x % m;
    lemma_fundamental_div_mod(t, m);
    let q = c + x / m + t / m;
    let total = c * m + r + x;
    assert(total == q * m + t % m) by (nonlinear_arith)
        requires
            x == m * (x / m) + x % m,
            t == m * (t / m) + t % m,
            t == r + x % m,
            total == c * m + r + x,
            q == c + x / m + t / m,
    ;
    lemma_fundamental_div_mod_converse(total, m, q, t % m);
}

/// The exec form of `accrue`: adds `term * yearly` to the cached interest and
/// remainder.
pub fn accrue_term(cache: u128, remainder: u64, yearly: u128, term: u64) -> (r: (u128, u64))
    requires
        remainder + MS_IN_YEAR <= u64::MAX,
        term as nat * yearly as nat <= u128::MAX,
        accrue(cache as nat, remainder as nat, term as nat * yearly as nat).0 <= u128::MAX,
    ensures
        r.0 == accrue(cache as nat, remainder as nat, term as nat * yearly as nat).0,
        r.1 == accrue(cache as nat, remainder as nat, term as nat * yearly as nat).1,
{
    let ms_in_year: u128 = MS_IN_YEAR as u128;
    let interest = (term as u128) * yearly;
    let term_remainder = (interest % ms_in_year) as u64;
    let whole = interest / ms_in_year;
    let total_remainder = remainder + term_remainder;
    proof {
        lemma_accrue_split(cache as nat, remainder as nat, term as nat * yearly as nat);
    }
    (cache + whole + (total_remainder / MS_IN_YEAR) as u128, total_remainder % MS_IN_YEAR)
}

} // verus!
