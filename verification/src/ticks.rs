//! Liquidity bands ("ticks") and the multi-band aggregator.

use vstd::prelude::*;
use vstd::string::StringExecFns;
use crate::errors::AmmError;
use crate::numerics::{
    lemma_sum_bounds, lemma_sum_element_bound, lemma_sum_remove, lemma_sum_take_le,
    lemma_sum_take_succ, lemma_sum_update, lemma_take_full, sqrt_floor, sum_of, AMOUNT_LIMIT,
    MAX_TICKS, MAX_TOKENS, SCALE, SHARES_LIMIT,
};
use crate::sphere::{
    first_index, has_token, is_first_index, lemma_first_index_exists, parallel_mag_of,
    solve_radius, solved_radius, radius_disc, SphereAMM,
};
use crate::text::str_eq;

verus! {

/// The liquidity-provider identifiers of a share ledger, as character
/// sequences, in ledger order.
pub open spec fn lp_keys(entries: Seq<(String, u64)>) -> Seq<Seq<char>> {
    Seq::new(entries.len(), |i: int| entries[i].0@)
}

/// The share amounts of a ledger, in ledger order.
pub open spec fn lp_vals(entries: Seq<(String, u64)>) -> Seq<u64> {
    Seq::new(entries.len(), |i: int| entries[i].1)
}

/// Reserves after an elementwise deposit.
pub open spec fn added_reserves(xs: Seq<u64>, amounts: Seq<u64>) -> Seq<u64> {
    Seq::new(xs.len(), |k: int| (xs[k] + amounts[k]) as u64)
}

/// Reserves after a proportional withdrawal of `part` out of `total` shares.
pub open spec fn withdrawn_reserves(xs: Seq<u64>, part: int, total: int) -> Seq<u64> {
    Seq::new(xs.len(), |k: int| (xs[k] - (xs[k] * part) / total) as u64)
}

/// A single liquidity band: one pool bounded by a plane constant, with
/// simplified liquidity-provider share accounting (shares are the raw sum of
/// deposited amounts, a documented scale-dependent simplification).
pub struct OrbitalTick {
    /// The band's own pool.
    pub sphere_amm: SphereAMM,
    /// Constant bounding this band: the plane `r_parallel = c`, in quanta.
    pub plane_constant: u64,
    /// Liquidity-provider ledger: unique identifiers with their shares.
    pub lp_shares: Vec<(String, u64)>,
}

impl OrbitalTick {
    /// Well-formedness: a well-formed pool, unique ledger keys, and a bounded
    /// share total.
    pub open spec fn wf(self) -> bool {
        &&& self.sphere_amm.wf()
        &&& forall|i: int, j: int|
            0 <= i < j < self.lp_shares@.len() ==> lp_keys(self.lp_shares@)[i] != lp_keys(
                self.lp_shares@,
            )[j]
        &&& sum_of(lp_vals(self.lp_shares@)) <= SHARES_LIMIT
    }

    /// Construct a band from raw reserves and a plane constant.
    pub fn new(token_names: Vec<String>, reserves: Vec<u64>, plane_constant: u64) -> (res: Result<
        OrbitalTick,
        AmmError,
    >)
        ensures
            res is Ok <==> SphereAMM::new_pool_ok(token_names@, reserves@),
            token_names@.len() != reserves@.len() ==> res == Err::<OrbitalTick, AmmError>(
                AmmError::LengthMismatch,
            ),
            token_names@.len() == reserves@.len() && reserves@.len() > MAX_TOKENS ==> res
                == Err::<OrbitalTick, AmmError>(AmmError::LengthMismatch),
            token_names@.len() == reserves@.len() && reserves@.len() <= MAX_TOKENS && !(forall|
                k: int,
            |
                0 <= k < reserves@.len() ==> reserves@[k] <= AMOUNT_LIMIT) ==> res == Err::<
                OrbitalTick,
                AmmError,
            >(AmmError::InvalidAmount),
            token_names@.len() == reserves@.len() && reserves@.len() <= MAX_TOKENS && (forall|
                k: int,
            |
                0 <= k < reserves@.len() ==> reserves@[k] <= AMOUNT_LIMIT) && reserves@.len() >= 2
                && radius_disc(reserves@) < 0 ==> res == Err::<OrbitalTick, AmmError>(
                AmmError::ComplexSolution,
            ),
            res is Ok ==> {
                let t = res.unwrap();
                &&& t.wf()
                &&& t.plane_constant == plane_constant
                &&& t.sphere_amm.token_names == token_names
                &&& t.sphere_amm.reserves == reserves
                &&& t.sphere_amm.radius as int == solved_radius(reserves@)
                &&& t.lp_shares@.len() == 0
                &&& reserves@.len() != 1 ==> t.sphere_amm.inv_holds()
            },
    {
        let amm = match SphereAMM::new(token_names, reserves) {
            Ok(amm) => amm,
            Err(e) => {
                return Err(e);
            },
        };
        Ok(OrbitalTick { sphere_amm: amm, plane_constant, lp_shares: Vec::new() })
    }

    /// Magnitude of the reserves' component along the uniform direction.
    fn parallel_magnitude(&self) -> (mag: u64)
        requires
            self.wf(),
        ensures
            mag as int == parallel_mag_of(self.sphere_amm.reserves@),
    {
        let (mag, _) = crate::sphere::decompose_reserves(&self.sphere_amm.reserves);
        mag
    }

    /// Whether the band is interior: its parallel magnitude exceeds the plane
    /// constant by more than one quantum.
    pub fn is_interior(&self) -> (r: bool)
        requires
            self.wf(),
        ensures
            r == (parallel_mag_of(self.sphere_amm.reserves@) > self.plane_constant + 1),
    {
        let mag = self.parallel_magnitude();
        mag as u128 > self.plane_constant as u128 + 1
    }

    /// Whether the band sits on its boundary: the parallel magnitude is
    /// within one quantum of the plane constant, which for exact quanta means
    /// equality.
    pub fn is_boundary(&self) -> (r: bool)
        requires
            self.wf(),
        ensures
            r == (parallel_mag_of(self.sphere_amm.reserves@) == self.plane_constant as int),
    {
        let mag = self.parallel_magnitude();
        mag == self.plane_constant
    }

    /// Total liquidity proxy: the sum of the reserves.
    pub fn liquidity(&self) -> (s: u64)
        requires
            self.wf(),
        ensures
            s as int == sum_of(self.sphere_amm.reserves@),
    {
        proof {
            lemma_sum_bounds(self.sphere_amm.reserves@, AMOUNT_LIMIT as int);
        }
        let s = crate::numerics::sum_vec(&self.sphere_amm.reserves);
        s as u64
    }

    /// Total of all shares in the ledger.
    fn total_shares(&self) -> (s: u64)
        requires
            self.wf(),
        ensures
            s as int == sum_of(lp_vals(self.lp_shares@)),
    {
        let mut acc: u128 = 0;
        let mut m: usize = 0;
        while m < self.lp_shares.len()
            invariant
                self.wf(),
                m <= self.lp_shares@.len(),
                acc == sum_of(lp_vals(self.lp_shares@).take(m as int)),
                acc <= SHARES_LIMIT,
            decreases self.lp_shares@.len() - m,
        {
            proof {
                lemma_sum_take_succ(lp_vals(self.lp_shares@), m as int);
                lemma_sum_take_le(lp_vals(self.lp_shares@), m as int + 1);
            }
            acc = acc + (self.lp_shares[m].1 as u128);
            m += 1;
        }
        proof {
            lemma_take_full(lp_vals(self.lp_shares@));
        }
        acc as u64
    }

    /// Position of a liquidity provider in the ledger.
    fn lp_find(&self, lp_id: &str) -> (res: Option<usize>)
        ensures
            res is Some <==> has_token(lp_keys(self.lp_shares@), lp_id@),
            res is Some ==> is_first_index(
                lp_keys(self.lp_shares@),
                lp_id@,
                res.unwrap() as int,
            ) && res.unwrap() == first_index(lp_keys(self.lp_shares@), lp_id@),
    {
        let mut m: usize = 0;
        while m < self.lp_shares.len()
            invariant
                m <= self.lp_shares@.len(),
                forall|k: int| 0 <= k < m ==> lp_keys(self.lp_shares@)[k] != lp_id@,
            decreases self.lp_shares@.len() - m,
        {
            if str_eq(self.lp_shares[m].0.as_str(), lp_id) {
                proof {
                    assert(is_first_index(lp_keys(self.lp_shares@), lp_id@, m as int));
                    let c = first_index(lp_keys(self.lp_shares@), lp_id@);
                    assert(is_first_index(lp_keys(self.lp_shares@), lp_id@, c));
                }
                return Some(m);
            }
            m += 1;
        }
        None
    }

    /// Add liquidity for a provider: deposit `amounts[k]` into each reserve,
    /// re-solve the radius (deposits move the pool onto a new sphere), and
    /// credit the provider with the sum of the deposited amounts.
    pub fn add_liquidity(&mut self, lp_id: &str, amounts: &Vec<u64>) -> (res: Result<
        (),
        AmmError,
    >)
        requires
            old(self).wf(),
        ensures
            final(self).wf(),
            final(self).plane_constant == old(self).plane_constant,
            final(self).sphere_amm.token_names == old(self).sphere_amm.token_names,
            res is Err ==> *final(self) == *old(self),
            amounts@.len() != old(self).sphere_amm.reserves@.len() ==> res == Err::<(), AmmError>(
                AmmError::LengthMismatch,
            ),
            res is Ok <==> amounts@.len() == old(self).sphere_amm.reserves@.len() && (forall|
                k: int,
            |
                0 <= k < amounts@.len() ==> old(self).sphere_amm.reserves@[k] + amounts@[k]
                    <= AMOUNT_LIMIT) && sum_of(lp_vals(old(self).lp_shares@)) + sum_of(amounts@)
                <= SHARES_LIMIT,
            res is Err && amounts@.len() == old(self).sphere_amm.reserves@.len() ==> res == Err::<
                (),
                AmmError,
            >(AmmError::InvalidAmount),
            res is Ok ==> {
                let xs = added_reserves(old(self).sphere_amm.reserves@, amounts@);
                let delta = sum_of(amounts@);
                let keys = lp_keys(old(self).lp_shares@);
                &&& final(self).sphere_amm.reserves@ == xs
                &&& final(self).sphere_amm.radius as int == solved_radius(xs)
                &&& (has_token(keys, lp_id@) ==> {
                    let ix = first_index(keys, lp_id@);
                    &&& lp_keys(final(self).lp_shares@) == keys
                    &&& lp_vals(final(self).lp_shares@) == lp_vals(old(self).lp_shares@).update(
                        ix,
                        (lp_vals(old(self).lp_shares@)[ix] + delta) as u64,
                    )
                })
                &&& (!has_token(keys, lp_id@) ==> lp_keys(final(self).lp_shares@) == keys.push(
                    lp_id@,
                ) && lp_vals(final(self).lp_shares@) == lp_vals(old(self).lp_shares@).push(
                    delta as u64,
                ))
            },
    {
        let n = self.sphere_amm.reserves.len();
        if amounts.len() != n {
            return Err(AmmError::LengthMismatch);
        }
        // Validate everything before mutating anything.
        let mut k: usize = 0;
        while k < n
            invariant
                *self == *old(self),
                old(self).wf(),
                n == self.sphere_amm.reserves@.len(),
                amounts@.len() == n,
                k <= n,
                forall|m: int|
                    0 <= m < k ==> self.sphere_amm.reserves@[m] + amounts@[m] <= AMOUNT_LIMIT,
            decreases n - k,
        {
            if self.sphere_amm.reserves[k] as u128 + amounts[k] as u128 > AMOUNT_LIMIT as u128 {
                return Err(AmmError::InvalidAmount);
            }
            k += 1;
        }
        proof {
            assert(forall|m: int|
                0 <= m < amounts@.len() ==> amounts@[m] <= AMOUNT_LIMIT);
            lemma_sum_bounds(amounts@, AMOUNT_LIMIT as int);
        }
        let delta128 = crate::numerics::sum_vec(amounts);
        let total = self.total_shares();
        if total as u128 + delta128 > SHARES_LIMIT as u128 {
            return Err(AmmError::InvalidAmount);
        }
        let delta = delta128 as u64;
        // Apply the deposit.
        let ghost old_xs = self.sphere_amm.reserves@;
        let mut k: usize = 0;
        while k < n
            invariant
                old(self).wf(),
                old_xs == old(self).sphere_amm.reserves@,
                self.sphere_amm.token_names == old(self).sphere_amm.token_names,
                self.plane_constant == old(self).plane_constant,
                self.lp_shares == old(self).lp_shares,
                self.sphere_amm.radius == old(self).sphere_amm.radius,
                n == self.sphere_amm.reserves@.len(),
                old_xs.len() == n,
                amounts@.len() == n,
                k <= n,
                forall|m: int| 0 <= m < n ==> old_xs[m] + amounts@[m] <= AMOUNT_LIMIT,
                forall|m: int|
                    0 <= m < k ==> self.sphere_amm.reserves@[m] == old_xs[m] + amounts@[m],
                forall|m: int| k <= m < n ==> self.sphere_amm.reserves@[m] == old_xs[m],
            decreases n - k,
        {
            let cur = self.sphere_amm.reserves[k];
            proof {
                assert(cur == old_xs[k as int]);
                assert(old_xs[k as int] + amounts@[k as int] <= AMOUNT_LIMIT);
            }
            self.sphere_amm.reserves[k] = cur + amounts[k];
            k += 1;
        }
        proof {
            assert(self.sphere_amm.reserves@ =~= added_reserves(old_xs, amounts@));
        }
        self.sphere_amm.radius = solve_radius(&self.sphere_amm.reserves);
        // Credit the provider.
        match self.lp_find(lp_id) {
            Some(ix) => {
                let key = self.lp_shares[ix].0.clone();
                let cur = self.lp_shares[ix].1;
                proof {
                    lemma_sum_element_bound(lp_vals(self.lp_shares@), ix as int);
                    lemma_sum_update(lp_vals(self.lp_shares@), ix as int, (cur + delta) as u64);
                }
                self.lp_shares[ix] = (key, cur + delta);
                proof {
                    assert(lp_keys(self.lp_shares@) =~= lp_keys(old(self).lp_shares@));
                    assert(lp_vals(self.lp_shares@) =~= lp_vals(old(self).lp_shares@).update(
                        ix as int,
                        (cur + delta) as u64,
                    ));
                }
            },
            None => {
                let key = <String as StringExecFns>::from_str(lp_id);
                self.lp_shares.push((key, delta));
                proof {
                    assert(lp_keys(self.lp_shares@) =~= lp_keys(old(self).lp_shares@).push(
                        lp_id@,
                    ));
                    assert(lp_vals(self.lp_shares@) =~= lp_vals(old(self).lp_shares@).push(
                        delta,
                    ));
                    assert(lp_vals(self.lp_shares@).drop_last() =~= lp_vals(
                        old(self).lp_shares@,
                    ));
                }
            },
        }
        Ok(())
    }

    /// Withdraw a fraction of a provider's position, `percentage` quanta out
    /// of `SCALE`.  Returns the per-token withdrawn amounts.  A withdrawal of
    /// the full position removes the ledger entry; every other ledger entry
    /// is untouched either way.
    pub fn withdraw_liquidity(&mut self, lp_id: &str, percentage: u64) -> (res: Result<
        Vec<u64>,
        AmmError,
    >)
        requires
            old(self).wf(),
        ensures
            final(self).wf(),
            final(self).plane_constant == old(self).plane_constant,
            final(self).sphere_amm.token_names == old(self).sphere_amm.token_names,
            res is Err ==> *final(self) == *old(self),
            percentage > SCALE ==> res == Err::<Vec<u64>, AmmError>(AmmError::InvalidPercentage),
            percentage <= SCALE && !has_token(lp_keys(old(self).lp_shares@), lp_id@) ==> res
                == Err::<Vec<u64>, AmmError>(AmmError::LpNotFound),
            percentage <= SCALE && has_token(lp_keys(old(self).lp_shares@), lp_id@) && lp_vals(
                old(self).lp_shares@,
            )[first_index(lp_keys(old(self).lp_shares@), lp_id@)] == 0 ==> res == Err::<
                Vec<u64>,
                AmmError,
            >(AmmError::ZeroShares),
            res is Ok <==> percentage <= SCALE && has_token(lp_keys(old(self).lp_shares@), lp_id@)
                && lp_vals(old(self).lp_shares@)[first_index(
                lp_keys(old(self).lp_shares@),
                lp_id@,
            )] > 0,
            res is Ok ==> {
                let keys = lp_keys(old(self).lp_shares@);
                let vals = lp_vals(old(self).lp_shares@);
                let ix = first_index(keys, lp_id@);
                let user = vals[ix] as int;
                let total = sum_of(vals);
                let part = (user * percentage) / (SCALE as int);
                let xs = old(self).sphere_amm.reserves@;
                &&& res.unwrap()@.len() == xs.len()
                &&& (forall|k: int|
                    0 <= k < xs.len() ==> res.unwrap()@[k] == (xs[k] * part) / total)
                &&& final(self).sphere_amm.reserves@ == withdrawn_reserves(xs, part, total)
                &&& final(self).sphere_amm.radius as int == solved_radius(
                    withdrawn_reserves(xs, part, total),
                )
                &&& (percentage == SCALE ==> part == user && lp_keys(final(self).lp_shares@)
                    == keys.remove(ix) && lp_vals(final(self).lp_shares@) == vals.remove(ix))
                &&& (percentage < SCALE ==> lp_keys(final(self).lp_shares@) == keys && lp_vals(
                    final(self).lp_shares@,
                ) == vals.update(ix, (user - part) as u64))
            },
    {
        if percentage > SCALE {
            return Err(AmmError::InvalidPercentage);
        }
        let ix = match self.lp_find(lp_id) {
            Some(ix) => ix,
            None => {
                return Err(AmmError::LpNotFound);
            },
        };
        let user = self.lp_shares[ix].1;
        if user == 0 {
            return Err(AmmError::ZeroShares);
        }
        let total = self.total_shares();
        proof {
            lemma_sum_element_bound(lp_vals(self.lp_shares@), ix as int);
            assert(user * percentage <= user * SCALE) by (nonlinear_arith)
                requires
                    percentage <= SCALE,
                    user >= 0,
            ;
            lemma_div_is_ordered_ticks(
                user * percentage,
                user * SCALE,
                SCALE as int,
            );
            vstd::arithmetic::div_mod::lemma_div_multiples_vanish(user as int, SCALE as int);
        }
        let part128: u128 = ((user as u128) * (percentage as u128)) / (SCALE as u128);
        let part: u64 = part128 as u64;
        let ghost old_xs = self.sphere_amm.reserves@;
        let n = self.sphere_amm.reserves.len();
        let mut withdrawn: Vec<u64> = Vec::new();
        let mut k: usize = 0;
        while k < n
            invariant
                old(self).wf(),
                old_xs == old(self).sphere_amm.reserves@,
                self.sphere_amm.token_names == old(self).sphere_amm.token_names,
                self.plane_constant == old(self).plane_constant,
                self.lp_shares == old(self).lp_shares,
                self.sphere_amm.radius == old(self).sphere_amm.radius,
                n == self.sphere_amm.reserves@.len(),
                old_xs.len() == n,
                k <= n,
                0 <= ix < old(self).lp_shares@.len(),
                0 < total,
                0 <= part <= total,
                part as int == (lp_vals(old(self).lp_shares@)[ix as int] * percentage) / (
                SCALE as int),
                total as int == sum_of(lp_vals(old(self).lp_shares@)),
                withdrawn@.len() == k,
                forall|m: int|
                    0 <= m < k ==> withdrawn@[m] == (old_xs[m] * part) / (total as int),
                forall|m: int|
                    0 <= m < k ==> self.sphere_amm.reserves@[m] == old_xs[m] - (old_xs[m] * part)
                        / (total as int),
                forall|m: int| k <= m < n ==> self.sphere_amm.reserves@[m] == old_xs[m],
            decreases n - k,
        {
            let x = self.sphere_amm.reserves[k];
            proof {
                assert(x == old_xs[k as int]);
                assert(x * part <= x * total) by (nonlinear_arith)
                    requires
                        0 <= part <= total,
                        x >= 0,
                ;
                lemma_div_is_ordered_ticks(x * part, x * total, total as int);
                vstd::arithmetic::div_mod::lemma_div_multiples_vanish(x as int, total as int);
                assert(x * total == total * x) by (nonlinear_arith);
                vstd::arithmetic::div_mod::lemma_div_pos_is_pos(x * part, total as int);
                assert((x as int) * (part as int)
                    <= 1_000_000_000_000_000_000_000_000_000_000int) by (nonlinear_arith)
                    requires
                        0 <= x <= 1_000_000_000_000int,
                        0 <= part <= 1_000_000_000_000_000_000int,
                ;
            }
            let w128: u128 = ((x as u128) * (part as u128)) / (total as u128);
            let w: u64 = w128 as u64;
            self.sphere_amm.reserves[k] = x - w;
            withdrawn.push(w);
            k += 1;
        }
        proof {
            assert(self.sphere_amm.reserves@ =~= withdrawn_reserves(
                old_xs,
                part as int,
                total as int,
            ));
        }
        self.sphere_amm.radius = solve_radius(&self.sphere_amm.reserves);
        if percentage == SCALE {
            proof {
                lemma_sum_remove(lp_vals(self.lp_shares@), ix as int);
            }
            self.lp_shares.remove(ix);
            proof {
                assert(lp_keys(self.lp_shares@) =~= lp_keys(old(self).lp_shares@).remove(
                    ix as int,
                ));
                assert(lp_vals(self.lp_shares@) =~= lp_vals(old(self).lp_shares@).remove(
                    ix as int,
                ));
            }
        } else {
            let key = self.lp_shares[ix].0.clone();
            proof {
                lemma_sum_update(lp_vals(self.lp_shares@), ix as int, (user - part) as u64);
            }
            self.lp_shares[ix] = (key, user - part);
            proof {
                assert(lp_keys(self.lp_shares@) =~= lp_keys(old(self).lp_shares@));
                assert(lp_vals(self.lp_shares@) =~= lp_vals(old(self).lp_shares@).update(
                    ix as int,
                    (user - part) as u64,
                ));
            }
        }
        Ok(withdrawn)
    }
}

/// Sum over all bands of the reserve at token index `k`.
pub open spec fn ticks_sum(ticks: Seq<OrbitalTick>, k: int) -> int
    decreases ticks.len(),
{
    if ticks.len() == 0 {
        0
    } else {
        ticks_sum(ticks.drop_last(), k) + ticks.last().sphere_amm.reserves@[k]
    }
}

/// Extending a prefix of bands adds the last band's reserve to the sum.
pub proof fn lemma_ticks_sum_take_succ(ticks: Seq<OrbitalTick>, t: int, k: int)
    requires
        0 <= t < ticks.len(),
    ensures
        ticks_sum(ticks.take(t + 1), k) == ticks_sum(ticks.take(t), k)
            + ticks[t].sphere_amm.reserves@[k],
{
    assert(ticks.take(t + 1).drop_last() =~= ticks.take(t));
    assert(ticks.take(t + 1).last() == ticks[t]);
}

/// The whole band list is its own full prefix.
pub proof fn lemma_ticks_sum_take_full(ticks: Seq<OrbitalTick>, k: int)
    ensures
        ticks_sum(ticks.take(ticks.len() as int), k) == ticks_sum(ticks, k),
{
    assert(ticks.take(ticks.len() as int) =~= ticks);
}

/// Replacing one band changes the sum by the difference at that band.
pub proof fn lemma_ticks_sum_update(ticks: Seq<OrbitalTick>, t: int, tick: OrbitalTick, k: int)
    requires
        0 <= t < ticks.len(),
    ensures
        ticks_sum(ticks.update(t, tick), k) == ticks_sum(ticks, k)
            - ticks[t].sphere_amm.reserves@[k] + tick.sphere_amm.reserves@[k],
    decreases ticks.len(),
{
    let s = ticks.update(t, tick);
    if t == ticks.len() - 1 {
        assert(s.drop_last() =~= ticks.drop_last());
        assert(s.last() == tick);
    } else {
        assert(s.drop_last() =~= ticks.drop_last().update(t, tick));
        assert(s.last() == ticks.last());
        lemma_ticks_sum_update(ticks.drop_last(), t, tick, k);
    }
}

/// The per-token sum over bands is never negative.
pub proof fn lemma_ticks_sum_nonneg(ticks: Seq<OrbitalTick>, k: int)
    ensures
        0 <= ticks_sum(ticks, k),
    decreases ticks.len(),
{
    if ticks.len() > 0 {
        lemma_ticks_sum_nonneg(ticks.drop_last(), k);
    }
}

/// The reserve views of a band list, in band order.
pub open spec fn views_of(ticks: Seq<OrbitalTick>) -> Seq<Seq<u64>> {
    Seq::new(ticks.len(), |t: int| ticks[t].sphere_amm.reserves@)
}

/// The band a routing pass consults next, scanning from position `c` with
/// current candidate `best` (`-1` for none): the unvisited band with the
/// smallest plane constant, ties resolved to the lowest index.
pub open spec fn best_band_from(ticks: Seq<OrbitalTick>, visited: Seq<bool>, c: int, best: int) -> int
    decreases ticks.len() - c,
{
    if c < 0 || c >= ticks.len() {
        best
    } else {
        let next = if !visited[c] && (best == -1 || ticks[c].plane_constant
            < ticks[best].plane_constant) {
            c
        } else {
            best
        };
        best_band_from(ticks, visited, c + 1, next)
    }
}

/// The first unvisited band with the smallest plane constant, or `-1`.
pub open spec fn best_band(ticks: Seq<OrbitalTick>, visited: Seq<bool>) -> int {
    best_band_from(ticks, visited, 0, -1)
}

/// One whole greedy routing pass, as a function of the fixed band data
/// (planes, radii and token names are unchanged by routing) and the evolving
/// reserve views `xs`.  Bands are consulted in ascending plane-constant
/// order, each at most once; a band with no source reserve, or whose
/// nine-tenths cap rounds the hop to zero, is skipped; otherwise the band's
/// pool swaps `min(remaining, 9 * available / 10)` under exactly the pool
/// swap rules, and any pool error aborts the pass.  Returns the final
/// reserve views, the unfilled remainder, the accumulated output, and the
/// aborting error if any.
pub open spec fn route_pass(
    ticks: Seq<OrbitalTick>,
    xs: Seq<Seq<u64>>,
    visited: Seq<bool>,
    f: Seq<char>,
    t: Seq<char>,
    remaining: int,
    total: int,
    fuel: nat,
) -> (Seq<Seq<u64>>, int, int, Option<AmmError>)
    decreases fuel,
{
    if fuel == 0 || remaining <= 0 {
        (xs, remaining, total, None::<AmmError>)
    } else {
        let idx = best_band(ticks, visited);
        if idx == -1 {
            (xs, remaining, total, None::<AmmError>)
        } else {
            let v2 = visited.update(idx, true);
            let nm = ticks[idx].sphere_amm.names();
            if !has_token(nm, f) {
                (xs, remaining, total, Some(AmmError::TokenNotFound))
            } else {
                let fi = first_index(nm, f);
                let available = xs[idx][fi] as int;
                let cap = (9 * available) / 10;
                let dx = if remaining < cap {
                    remaining
                } else {
                    cap
                };
                if available == 0 || dx == 0 {
                    (route_pass(ticks, xs, v2, f, t, remaining, total, (fuel - 1) as nat))
                } else if !has_token(nm, t) {
                    (xs, remaining, total, Some(AmmError::TokenNotFound))
                } else {
                    let ti = first_index(nm, t);
                    if xs[idx][fi] + dx > AMOUNT_LIMIT {
                        (xs, remaining, total, Some(AmmError::InvalidAmount))
                    } else {
                        let r = ticks[idx].sphere_amm.radius as int;
                        let av = r - xs[idx][fi];
                        let bv = r - xs[idx][ti];
                        let disc = bv * bv + 2 * av * dx - dx * dx;
                        if disc < 0 {
                            (xs, remaining, total, Some(AmmError::ComplexSolution))
                        } else {
                            let out = sqrt_floor(disc) - bv;
                            if !(0 < out <= xs[idx][ti]) {
                                (xs, remaining, total, Some(AmmError::InsufficientLiquidity))
                            } else {
                                let mid = xs[idx].update(fi, (xs[idx][fi] + dx) as u64);
                                let after = mid.update(ti, (mid[ti] - out) as u64);
                                route_pass(
                                    ticks,
                                    xs.update(idx, after),
                                    v2,
                                    f,
                                    t,
                                    remaining - dx,
                                    total + out,
                                    (fuel - 1) as nat,
                                )
                            }
                        }
                    }
                }
            }
        }
    }
}

/// A market of many liquidity bands over one shared token list, with the
/// per-token global reserves always re-derived as the sum over the bands.
pub struct MultiTickAMM {
    /// The bands, in insertion order.
    pub ticks: Vec<OrbitalTick>,
    /// Derived per-token totals over all bands; a projection, never
    /// authoritative.
    pub global_reserves: Vec<u64>,
    /// The shared token list every band's pool matches exactly.
    pub token_names: Vec<String>,
}

impl MultiTickAMM {
    /// The token names as character sequences.
    pub open spec fn names(self) -> Seq<Seq<char>> {
        Seq::new(self.token_names@.len(), |i: int| self.token_names@[i]@)
    }

    /// The band conditions of well-formedness: every band is well formed and
    /// carries exactly this market's token list.
    pub open spec fn ticks_ok(self) -> bool {
        &&& self.token_names@.len() <= MAX_TOKENS
        &&& self.ticks@.len() <= MAX_TICKS
        &&& forall|t: int|
            0 <= t < self.ticks@.len() ==> (#[trigger] self.ticks@[t]).wf()
                && self.ticks@[t].sphere_amm.names() == self.names()
                && self.ticks@[t].sphere_amm.reserves@.len() == self.token_names@.len()
    }

    /// The aggregate-reserve invariant: `global_reserves[k]` is the sum over
    /// bands of the reserve at `k`, for every token index.
    pub open spec fn global_ok(self) -> bool {
        &&& self.global_reserves@.len() == self.token_names@.len()
        &&& forall|k: int|
            0 <= k < self.token_names@.len() ==> self.global_reserves@[k] as int == ticks_sum(
                self.ticks@,
                k,
            )
    }

    /// Well-formedness: sound bands plus the aggregate-reserve invariant.
    pub open spec fn wf(self) -> bool {
        self.ticks_ok() && self.global_ok()
    }

    /// An empty market over the given token list.
    pub fn new(token_names: Vec<String>) -> (r: MultiTickAMM)
        requires
            token_names@.len() <= MAX_TOKENS,
        ensures
            r.wf(),
            r.token_names == token_names,
            r.ticks@.len() == 0,
            r.global_reserves@.len() == token_names@.len(),
            forall|k: int| 0 <= k < token_names@.len() ==> r.global_reserves@[k] == 0,
    {
        let m = token_names.len();
        let mut g: Vec<u64> = Vec::new();
        let mut k: usize = 0;
        while k < m
            invariant
                k <= m,
                g@.len() == k,
                forall|i: int| 0 <= i < k ==> g@[i] == 0,
            decreases m - k,
        {
            g.push(0);
            k += 1;
        }
        MultiTickAMM { ticks: Vec::new(), global_reserves: g, token_names }
    }

    /// Recompute the global reserve vector from the bands.
    fn recompute_global_reserves(&mut self)
        requires
            old(self).ticks_ok(),
        ensures
            final(self).ticks == old(self).ticks,
            final(self).token_names == old(self).token_names,
            final(self).wf(),
    {
        let m = self.token_names.len();
        let mut g: Vec<u64> = Vec::new();
        let mut k: usize = 0;
        while k < m
            invariant
                k <= m,
                g@.len() == k,
                forall|i: int| 0 <= i < k ==> g@[i] == 0,
            decreases m - k,
        {
            g.push(0);
            k += 1;
        }
        proof {
            assert(forall|i: int| 0 <= i < m ==> ticks_sum(self.ticks@.take(0), i) == 0);
        }
        let mut t: usize = 0;
        while t < self.ticks.len()
            invariant
                *self == *old(self),
                old(self).ticks_ok(),
                m == self.token_names@.len(),
                t <= self.ticks@.len(),
                g@.len() == m,
                forall|i: int| 0 <= i < m ==> g@[i] as int == ticks_sum(self.ticks@.take(t as int), i),
                forall|i: int| 0 <= i < m ==> g@[i] <= t * 1_000_000_000_000,
            decreases self.ticks@.len() - t,
        {
            let mut k: usize = 0;
            while k < m
                invariant
                    *self == *old(self),
                    old(self).ticks_ok(),
                    m == self.token_names@.len(),
                    t < self.ticks@.len(),
                    self.ticks@.len() <= MAX_TICKS,
                    k <= m,
                    g@.len() == m,
                    forall|i: int|
                        0 <= i < k ==> g@[i] as int == ticks_sum(
                            self.ticks@.take(t as int + 1),
                            i,
                        ),
                    forall|i: int|
                        k <= i < m ==> g@[i] as int == ticks_sum(self.ticks@.take(t as int), i),
                    forall|i: int| 0 <= i < k ==> g@[i] <= (t + 1) * 1_000_000_000_000,
                    forall|i: int| k <= i < m ==> g@[i] <= t * 1_000_000_000_000,
                decreases m - k,
            {
                proof {
                    lemma_ticks_sum_take_succ(self.ticks@, t as int, k as int);
                    assert(self.ticks@[t as int].sphere_amm.reserves@[k as int] <= AMOUNT_LIMIT);
                }
                let cur = g[k];
                g[k] = cur + self.ticks[t].sphere_amm.reserves[k];
                k += 1;
            }
            t += 1;
        }
        proof {
            assert(forall|i: int|
                0 <= i < m ==> ticks_sum(self.ticks@.take(self.ticks@.len() as int), i)
                    == ticks_sum(self.ticks@, i)) by {
                assert forall|i: int| 0 <= i < m implies ticks_sum(
                    self.ticks@.take(self.ticks@.len() as int),
                    i,
                ) == ticks_sum(self.ticks@, i) by {
                    lemma_ticks_sum_take_full(self.ticks@, i);
                }
            }
        }
        self.global_reserves = g;
    }

    /// Append a new band with the given plane constant and reserves, then
    /// recompute the global reserves.  The plane constant must be positive;
    /// a zero plane constant is rejected before any mutation.
    pub fn add_tick(&mut self, plane_constant: u64, reserves: Vec<u64>) -> (res: Result<
        (),
        AmmError,
    >)
        requires
            old(self).wf(),
        ensures
            final(self).wf(),
            final(self).token_names == old(self).token_names,
            res is Err ==> *final(self) == *old(self),
            reserves@.len() != old(self).token_names@.len() ==> res == Err::<(), AmmError>(
                AmmError::LengthMismatch,
            ),
            reserves@.len() == old(self).token_names@.len() && plane_constant == 0 ==> res
                == Err::<(), AmmError>(AmmError::InvalidAmount),
            reserves@.len() == old(self).token_names@.len() && plane_constant >= 1 && old(
                self,
            ).ticks@.len() == MAX_TICKS ==> res == Err::<(), AmmError>(AmmError::InvalidAmount),
            res is Ok <==> reserves@.len() == old(self).token_names@.len() && plane_constant >= 1
                && old(self).ticks@.len() < MAX_TICKS && (forall|k: int|
                0 <= k < reserves@.len() ==> reserves@[k] <= AMOUNT_LIMIT) && (reserves@.len() >= 2
                ==> radius_disc(reserves@) >= 0),
            res is Ok ==> {
                let tick = final(self).ticks@.last();
                &&& final(self).ticks@.len() == old(self).ticks@.len() + 1
                &&& final(self).ticks@ == old(self).ticks@.push(tick)
                &&& tick.plane_constant == plane_constant
                &&& tick.sphere_amm.reserves@ == reserves@
                &&& tick.sphere_amm.radius as int == solved_radius(reserves@)
                &&& tick.lp_shares@.len() == 0
            },
    {
        if reserves.len() != self.token_names.len() {
            return Err(AmmError::LengthMismatch);
        }
        if plane_constant == 0 {
            return Err(AmmError::InvalidAmount);
        }
        if self.ticks.len() >= MAX_TICKS {
            return Err(AmmError::InvalidAmount);
        }
        let names = clone_names(&self.token_names);
        let tick = match OrbitalTick::new(names, reserves, plane_constant) {
            Ok(t) => t,
            Err(e) => {
                return Err(e);
            },
        };
        proof {
            assert(tick.sphere_amm.names() =~= self.names());
        }
        self.ticks.push(tick);
        self.recompute_global_reserves();
        Ok(())
    }

    /// Route a trade greedily across the bands in ascending plane-constant
    /// order (ties to the lower index), visiting each band at most once and
    /// taking at most nine tenths of a band's source reserve per hop: the
    /// result and the final reserves are exactly those of `route_pass`, the
    /// specification of that whole pass.  In particular the call succeeds if
    /// and only if the pass aborts with no pool error and no unfilled
    /// remainder, an unfilled remainder is `InsufficientLiquidity`, and a
    /// pool error aborts the route and is returned unchanged.
    ///
    /// Routing is deliberately not atomic: bands swapped before a failure
    /// stay mutated, and the global reserves are re-derived on every path, so
    /// the aggregate-reserve invariant holds even when an error is returned.
    /// On success the source reserves grow by exactly the requested amount
    /// and the returned output is exactly the decrease of the destination
    /// reserves; on failure the source reserves grow by at most the request.
    #[verifier::rlimit(100)]
    pub fn route_trade(&mut self, from: &str, to: &str, amount: u64) -> (res: Result<
        u64,
        AmmError,
    >)
        requires
            old(self).wf(),
        ensures
            final(self).wf(),
            final(self).token_names == old(self).token_names,
            final(self).ticks@.len() == old(self).ticks@.len(),
            amount == 0 ==> res == Ok::<u64, AmmError>(0) && final(self).ticks@ == old(
                self,
            ).ticks@,
            ({
                let pass = route_pass(
                    old(self).ticks@,
                    views_of(old(self).ticks@),
                    Seq::new(old(self).ticks@.len(), |i: int| false),
                    from@,
                    to@,
                    amount as int,
                    0,
                    old(self).ticks@.len(),
                );
                &&& views_of(final(self).ticks@) == pass.0
                &&& match pass.3 {
                    Some(e) => res == Err::<u64, AmmError>(e),
                    None => if pass.1 > 0 {
                        res == Err::<u64, AmmError>(AmmError::InsufficientLiquidity)
                    } else {
                        res == Ok::<u64, AmmError>(pass.2 as u64)
                    },
                }
            }),
            ({
                let nm = old(self).names();
                let fi = first_index(nm, from@);
                let ti = first_index(nm, to@);
                &&& (res is Ok && amount > 0 ==> has_token(nm, from@) && has_token(nm, to@))
                &&& (has_token(nm, from@) && has_token(nm, to@) && from@ != to@ ==> ticks_sum(
                    final(self).ticks@,
                    fi,
                ) <= ticks_sum(old(self).ticks@, fi) + amount)
                &&& (res is Ok && amount > 0 && from@ != to@ ==> ticks_sum(final(self).ticks@, fi)
                    == ticks_sum(old(self).ticks@, fi) + amount)
                &&& (res is Ok && amount > 0 && from@ != to@ ==> res.unwrap() as int == ticks_sum(
                    old(self).ticks@,
                    ti,
                ) - ticks_sum(final(self).ticks@, ti))
            }),
    {
        let ghost old_ticks = self.ticks@;
        let ghost nm = old(self).names();
        let ghost fi: int = first_index(nm, from@);
        let ghost ti: int = first_index(nm, to@);
        let len = self.ticks.len();
        let ghost all_false = Seq::new(len as nat, |i: int| false);
        let ghost overall = route_pass(
            old_ticks,
            views_of(old_ticks),
            all_false,
            from@,
            to@,
            amount as int,
            0,
            len as nat,
        );
        let mut visited: Vec<bool> = Vec::new();
        let mut v: usize = 0;
        while v < len
            invariant
                v <= len,
                visited@.len() == v,
                forall|i: int| 0 <= i < v ==> visited@[i] == false,
            decreases len - v,
        {
            visited.push(false);
            v += 1;
        }
        proof {
            assert(visited@ =~= all_false);
        }
        let mut remaining: u64 = amount;
        let mut total_out: u64 = 0;
        let mut steps: usize = 0;
        let mut err: Option<AmmError> = None;
        proof {
            if has_token(nm, from@) && has_token(nm, to@) {
                lemma_first_index_exists(nm, from@);
                lemma_first_index_exists(nm, to@);
                lemma_ticks_sum_nonneg(self.ticks@, ti);
            }
        }
        loop
            invariant_except_break
                err is None,
                route_pass(
                    old_ticks,
                    views_of(self.ticks@),
                    visited@,
                    from@,
                    to@,
                    remaining as int,
                    total_out as int,
                    (len - steps) as nat,
                ) == overall,
            invariant
                old(self).wf(),
                nm == old(self).names(),
                fi == first_index(nm, from@),
                ti == first_index(nm, to@),
                old_ticks == old(self).ticks@,
                len == old_ticks.len(),
                all_false == Seq::new(len as nat, |i: int| false),
                overall == route_pass(
                    old_ticks,
                    views_of(old_ticks),
                    all_false,
                    from@,
                    to@,
                    amount as int,
                    0,
                    len as nat,
                ),
                self.token_names == old(self).token_names,
                self.global_reserves == old(self).global_reserves,
                self.ticks@.len() == len,
                self.ticks_ok(),
                forall|t2: int|
                    0 <= t2 < len ==> (#[trigger] self.ticks@[t2]).plane_constant
                        == old_ticks[t2].plane_constant && self.ticks@[t2].sphere_amm.radius
                        == old_ticks[t2].sphere_amm.radius,
                visited@.len() == len,
                steps <= len,
                remaining <= amount,
                total_out <= steps * 1_000_000_000_000,
                remaining < amount ==> has_token(nm, from@) && has_token(nm, to@),
                remaining == amount ==> self.ticks@ == old(self).ticks@ && total_out == 0,
                amount == 0 ==> err is None,
                has_token(nm, from@) && has_token(nm, to@) && from@ != to@ ==> ticks_sum(
                    self.ticks@,
                    fi,
                ) == ticks_sum(old_ticks, fi) + (amount - remaining) && ticks_sum(self.ticks@, ti)
                    == ticks_sum(old_ticks, ti) - total_out && total_out <= ticks_sum(
                    old_ticks,
                    ti,
                ),
            ensures
                old(self).wf(),
                nm == old(self).names(),
                fi == first_index(nm, from@),
                ti == first_index(nm, to@),
                old_ticks == old(self).ticks@,
                len == old_ticks.len(),
                self.token_names == old(self).token_names,
                self.global_reserves == old(self).global_reserves,
                self.ticks@.len() == len,
                self.ticks_ok(),
                remaining <= amount,
                remaining < amount ==> has_token(nm, from@) && has_token(nm, to@),
                remaining == amount ==> self.ticks@ == old(self).ticks@ && total_out == 0,
                amount == 0 ==> err is None,
                has_token(nm, from@) && has_token(nm, to@) && from@ != to@ ==> ticks_sum(
                    self.ticks@,
                    fi,
                ) == ticks_sum(old_ticks, fi) + (amount - remaining) && ticks_sum(self.ticks@, ti)
                    == ticks_sum(old_ticks, ti) - total_out && total_out <= ticks_sum(
                    old_ticks,
                    ti,
                ),
                match err {
                    Some(e) => overall == (
                        views_of(self.ticks@),
                        remaining as int,
                        total_out as int,
                        Some(e),
                    ),
                    None => overall == (
                        views_of(self.ticks@),
                        remaining as int,
                        total_out as int,
                        None::<AmmError>,
                    ),
                },
            decreases len - steps,
        {
            if steps >= len {
                proof {
                    assert(route_pass(
                        old_ticks,
                        views_of(self.ticks@),
                        visited@,
                        from@,
                        to@,
                        remaining as int,
                        total_out as int,
                        (len - steps) as nat,
                    ) == (
                        views_of(self.ticks@),
                        remaining as int,
                        total_out as int,
                        None::<AmmError>,
                    ));
                }
                break ;
            }
            if remaining == 0 {
                proof {
                    assert(route_pass(
                        old_ticks,
                        views_of(self.ticks@),
                        visited@,
                        from@,
                        to@,
                        remaining as int,
                        total_out as int,
                        (len - steps) as nat,
                    ) == (
                        views_of(self.ticks@),
                        remaining as int,
                        total_out as int,
                        None::<AmmError>,
                    ));
                }
                break ;
            }
            // Pick the unvisited band with the smallest plane constant.
            let mut best: Option<usize> = None;
            let mut c: usize = 0;
            while c < len
                invariant
                    c <= len,
                    len == self.ticks@.len(),
                    len == old_ticks.len(),
                    visited@.len() == len,
                    forall|t2: int|
                        0 <= t2 < len ==> (#[trigger] self.ticks@[t2]).plane_constant
                            == old_ticks[t2].plane_constant,
                    best is Some ==> 0 <= best.unwrap() < len && !visited@[best.unwrap() as int],
                    best_band(old_ticks, visited@) == best_band_from(
                        old_ticks,
                        visited@,
                        c as int,
                        match best {
                            Some(b) => b as int,
                            None => -1,
                        },
                    ),
                decreases len - c,
            {
                if !visited[c] {
                    best = match best {
                        Some(b) => {
                            if self.ticks[c].plane_constant < self.ticks[b].plane_constant {
                                Some(c)
                            } else {
                                Some(b)
                            }
                        },
                        None => Some(c),
                    };
                }
                c += 1;
            }
            let ghost vis_pre = visited@;
            let ghost fuel = (len - steps) as nat;
            let ghost cur = views_of(self.ticks@);
            let idx = match best {
                Some(i) => i,
                None => {
                    proof {
                        assert(best_band(old_ticks, vis_pre) == -1);
                        assert(route_pass(
                            old_ticks,
                            cur,
                            vis_pre,
                            from@,
                            to@,
                            remaining as int,
                            total_out as int,
                            fuel,
                        ) == (cur, remaining as int, total_out as int, None::<AmmError>));
                    }
                    break ;
                },
            };
            proof {
                assert(best_band(old_ticks, vis_pre) == idx);
                assert(old_ticks[idx as int].sphere_amm.names() == nm);
                assert(self.ticks@[idx as int].sphere_amm.names() == nm);
            }
            visited[idx] = true;
            proof {
                assert(visited@ =~= vis_pre.update(idx as int, true));
            }
            let f_idx = match self.ticks[idx].sphere_amm.index_of(from) {
                Ok(i) => i,
                Err(e) => {
                    proof {
                        assert(!has_token(nm, from@));
                        assert(e == AmmError::TokenNotFound);
                        assert(route_pass(
                            old_ticks,
                            cur,
                            vis_pre,
                            from@,
                            to@,
                            remaining as int,
                            total_out as int,
                            fuel,
                        ) == (
                            cur,
                            remaining as int,
                            total_out as int,
                            Some(AmmError::TokenNotFound),
                        ));
                    }
                    err = Some(e);
                    break ;
                },
            };
            proof {
                assert(f_idx as int == fi);
                assert(cur[idx as int] == self.ticks@[idx as int].sphere_amm.reserves@);
            }
            let available = self.ticks[idx].sphere_amm.reserves[f_idx];
            if available == 0 {
                proof {
                    assert(route_pass(
                        old_ticks,
                        cur,
                        vis_pre,
                        from@,
                        to@,
                        remaining as int,
                        total_out as int,
                        fuel,
                    ) == route_pass(
                        old_ticks,
                        cur,
                        visited@,
                        from@,
                        to@,
                        remaining as int,
                        total_out as int,
                        (fuel - 1) as nat,
                    ));
                }
                steps += 1;
                continue ;
            }
            let cap: u64 = (((available as u128) * 9) / 10) as u64;
            let trade_in: u64 = if remaining < cap {
                remaining
            } else {
                cap
            };
            proof {
                assert(cap as int == (9 * (available as int)) / 10);
            }
            if trade_in == 0 {
                proof {
                    assert(route_pass(
                        old_ticks,
                        cur,
                        vis_pre,
                        from@,
                        to@,
                        remaining as int,
                        total_out as int,
                        fuel,
                    ) == route_pass(
                        old_ticks,
                        cur,
                        visited@,
                        from@,
                        to@,
                        remaining as int,
                        total_out as int,
                        (fuel - 1) as nat,
                    ));
                }
                steps += 1;
                continue ;
            }
            let ghost pre_ticks = self.ticks@;
            let ghost pre_tick = self.ticks@[idx as int];
            let out = match self.ticks[idx].sphere_amm.swap(from, to, trade_in) {
                Ok(o) => o,
                Err(e) => {
                    proof {
                        assert(self.ticks@ =~= pre_ticks);
                        let dx = trade_in as int;
                        assert(pre_tick.sphere_amm.swap_disc(fi, ti, dx) == {
                            let r = old_ticks[idx as int].sphere_amm.radius as int;
                            let av = r - cur[idx as int][fi];
                            let bv = r - cur[idx as int][ti];
                            bv * bv + 2 * av * dx - dx * dx
                        });
                        if !has_token(nm, to@) {
                            assert(e == AmmError::TokenNotFound);
                        } else if pre_tick.sphere_amm.reserves@[fi] + dx > AMOUNT_LIMIT {
                            assert(e == AmmError::InvalidAmount);
                        } else if pre_tick.sphere_amm.swap_disc(fi, ti, dx) < 0 {
                            assert(e == AmmError::ComplexSolution);
                        } else {
                            assert(e == AmmError::InsufficientLiquidity);
                        }
                        assert(route_pass(
                            old_ticks,
                            cur,
                            vis_pre,
                            from@,
                            to@,
                            remaining as int,
                            total_out as int,
                            fuel,
                        ) == (cur, remaining as int, total_out as int, Some(e)));
                    }
                    err = Some(e);
                    break ;
                },
            };
            proof {
                let tick = self.ticks@[idx as int];
                let dx = trade_in as int;
                assert(self.ticks@ == pre_ticks.update(idx as int, tick));
                assert(has_token(nm, from@) && has_token(nm, to@));
                lemma_first_index_exists(nm, from@);
                lemma_first_index_exists(nm, to@);
                assert(tick.sphere_amm.reserves@ == pre_tick.sphere_amm.swap_result(fi, ti, dx));
                assert(out as int == pre_tick.sphere_amm.swap_output(fi, ti, dx));
                let mid = cur[idx as int].update(fi, (cur[idx as int][fi] + dx) as u64);
                let after = mid.update(ti, (mid[ti] - out) as u64);
                assert(after =~= tick.sphere_amm.reserves@);
                assert(views_of(self.ticks@) =~= cur.update(idx as int, after));
                assert(pre_tick.sphere_amm.swap_disc(fi, ti, dx) == {
                    let r = old_ticks[idx as int].sphere_amm.radius as int;
                    let av = r - cur[idx as int][fi];
                    let bv = r - cur[idx as int][ti];
                    bv * bv + 2 * av * dx - dx * dx
                });
                assert(route_pass(
                    old_ticks,
                    cur,
                    vis_pre,
                    from@,
                    to@,
                    remaining as int,
                    total_out as int,
                    fuel,
                ) == route_pass(
                    old_ticks,
                    cur.update(idx as int, after),
                    visited@,
                    from@,
                    to@,
                    remaining - dx,
                    total_out + out,
                    (fuel - 1) as nat,
                ));
                if from@ != to@ {
                    assert(fi != ti);
                    lemma_ticks_sum_update(pre_ticks, idx as int, tick, fi);
                    lemma_ticks_sum_update(pre_ticks, idx as int, tick, ti);
                    assert(tick.sphere_amm.reserves@[fi] == pre_tick.sphere_amm.reserves@[fi]
                        + dx);
                    assert(tick.sphere_amm.reserves@[ti] == pre_tick.sphere_amm.reserves@[ti]
                        - out);
                    assert(forall|t2: int|
                        0 <= t2 < self.ticks@.len() ==> 0 <= ti < (
                        #[trigger] self.ticks@[t2]).sphere_amm.reserves@.len());
                    lemma_ticks_sum_nonneg(self.ticks@, ti);
                }
            }
            remaining = remaining - trade_in;
            total_out = total_out + out;
            steps += 1;
        }
        self.recompute_global_reserves();
        proof {
            assert(Seq::new(old(self).ticks@.len(), |i: int| false) =~= all_false);
        }
        match err {
            Some(e) => Err(e),
            None => {
                if remaining > 0 {
                    return Err(AmmError::InsufficientLiquidity);
                }
                Ok(total_out)
            },
        }
    }

    /// Classify the bands into interior and boundary index lists, each in
    /// ascending order; exterior bands appear in neither.
    pub fn classify_ticks(&self) -> (res: (Vec<usize>, Vec<usize>))
        requires
            self.wf(),
        ensures
            forall|m: int|
                0 <= m < res.0@.len() ==> res.0@[m] < self.ticks@.len() && tick_interior(
                    self.ticks@[res.0@[m] as int],
                ),
            forall|t: int|
                0 <= t < self.ticks@.len() && tick_interior(self.ticks@[t]) ==> res.0@.contains(
                    t as usize,
                ),
            forall|m1: int, m2: int| 0 <= m1 < m2 < res.0@.len() ==> res.0@[m1] < res.0@[m2],
            forall|m: int|
                0 <= m < res.1@.len() ==> res.1@[m] < self.ticks@.len() && tick_boundary(
                    self.ticks@[res.1@[m] as int],
                ) && !tick_interior(self.ticks@[res.1@[m] as int]),
            forall|t: int|
                0 <= t < self.ticks@.len() && tick_boundary(self.ticks@[t]) && !tick_interior(
                    self.ticks@[t],
                ) ==> res.1@.contains(t as usize),
            forall|m1: int, m2: int| 0 <= m1 < m2 < res.1@.len() ==> res.1@[m1] < res.1@[m2],
    {
        let mut interior: Vec<usize> = Vec::new();
        let mut boundary: Vec<usize> = Vec::new();
        let mut idx: usize = 0;
        while idx < self.ticks.len()
            invariant
                self.wf(),
                idx <= self.ticks@.len(),
                forall|m: int|
                    0 <= m < interior@.len() ==> interior@[m] < idx && tick_interior(
                        self.ticks@[interior@[m] as int],
                    ),
                forall|t: int|
                    0 <= t < idx && tick_interior(self.ticks@[t]) ==> interior@.contains(
                        t as usize,
                    ),
                forall|m1: int, m2: int|
                    0 <= m1 < m2 < interior@.len() ==> interior@[m1] < interior@[m2],
                forall|m: int|
                    0 <= m < boundary@.len() ==> boundary@[m] < idx && tick_boundary(
                        self.ticks@[boundary@[m] as int],
                    ) && !tick_interior(self.ticks@[boundary@[m] as int]),
                forall|t: int|
                    0 <= t < idx && tick_boundary(self.ticks@[t]) && !tick_interior(
                        self.ticks@[t],
                    ) ==> boundary@.contains(t as usize),
                forall|m1: int, m2: int|
                    0 <= m1 < m2 < boundary@.len() ==> boundary@[m1] < boundary@[m2],
            decreases self.ticks@.len() - idx,
        {
            if self.ticks[idx].is_interior() {
                let ghost pre = interior@;
                interior.push(idx);
                proof {
                    assert forall|t: int|
                        0 <= t < idx + 1 && tick_interior(self.ticks@[t]) implies interior@.contains(
                        t as usize,
                    ) by {
                        if t < idx {
                            let w = choose|w: int| 0 <= w < pre.len() && pre[w] == t as usize;
                            assert(interior@[w] == t as usize);
                        } else {
                            assert(interior@[pre.len() as int] == idx);
                        }
                    }
                }
            } else if self.ticks[idx].is_boundary() {
                let ghost pre = boundary@;
                boundary.push(idx);
                proof {
                    assert forall|t: int|
                        0 <= t < idx + 1 && tick_boundary(self.ticks@[t]) && !tick_interior(
                            self.ticks@[t],
                        ) implies boundary@.contains(t as usize) by {
                        if t < idx {
                            let w = choose|w: int| 0 <= w < pre.len() && pre[w] == t as usize;
                            assert(boundary@[w] == t as usize);
                        } else {
                            assert(boundary@[pre.len() as int] == idx);
                        }
                    }
                }
            }
            idx += 1;
        }
        (interior, boundary)
    }

    /// Aggregated spot price of `to` in units of `from` across the bands,
    /// weighted by each band's `from`-token reserve; bands with no such
    /// reserve are skipped.
    pub fn get_aggregated_price(&self, from: &str, to: &str) -> (res: Result<i128, AmmError>)
        requires
            self.wf(),
        ensures
            ({
                let nm = self.names();
                let fi = first_index(nm, from@);
                let ti = first_index(nm, to@);
                &&& (self.ticks@.len() == 0 ==> res == Err::<i128, AmmError>(
                    AmmError::NoLiquidityForPrice,
                ))
                &&& (self.ticks@.len() > 0 && !has_token(nm, from@) ==> res == Err::<
                    i128,
                    AmmError,
                >(AmmError::TokenNotFound))
                &&& (has_token(nm, from@) && ticks_sum(self.ticks@, fi) != 0 && !has_token(
                    nm,
                    to@,
                ) ==> res == Err::<i128, AmmError>(AmmError::TokenNotFound))
                &&& (has_token(nm, from@) && has_token(nm, to@) && (exists|t: int|
                    0 <= t < self.ticks@.len() && (#[trigger] self.ticks@[t]).sphere_amm.reserves@[fi]
                        != 0 && self.ticks@[t].sphere_amm.radius
                        == self.ticks@[t].sphere_amm.reserves@[fi]) ==> res == Err::<
                    i128,
                    AmmError,
                >(AmmError::DivisionByZero))
                &&& (has_token(nm, from@) && has_token(nm, to@) && !(exists|t: int|
                    0 <= t < self.ticks@.len() && (#[trigger] self.ticks@[t]).sphere_amm.reserves@[fi]
                        != 0 && self.ticks@[t].sphere_amm.radius
                        == self.ticks@[t].sphere_amm.reserves@[fi]) && ticks_sum(self.ticks@, fi)
                    == 0 ==> res == Err::<i128, AmmError>(AmmError::NoLiquidityForPrice))
                &&& (res is Ok <==> has_token(nm, from@) && has_token(nm, to@) && ticks_sum(
                    self.ticks@,
                    fi,
                ) != 0 && !(exists|t: int|
                    0 <= t < self.ticks@.len() && (#[trigger] self.ticks@[t]).sphere_amm.reserves@[fi]
                        != 0 && self.ticks@[t].sphere_amm.radius
                        == self.ticks@[t].sphere_amm.reserves@[fi]))
                &&& (res is Ok ==> res.unwrap() == crate::numerics::div_trunc(
                    agg_num(self.ticks@, fi, ti),
                    ticks_sum(self.ticks@, fi),
                ))
            }),
    {
        let ghost nm = self.names();
        let ghost fi: int = first_index(nm, from@);
        let ghost ti: int = first_index(nm, to@);
        let mut num: i128 = 0;
        let mut den: u128 = 0;
        let mut t: usize = 0;
        while t < self.ticks.len()
            invariant
                self.wf(),
                nm == self.names(),
                fi == first_index(nm, from@),
                ti == first_index(nm, to@),
                t <= self.ticks@.len(),
                num == agg_num(self.ticks@.take(t as int), fi, ti),
                den == ticks_sum(self.ticks@.take(t as int), fi),
                -5_000_000_000_000_000_000_000_000_000_000i128 * (t as i128) <= num,
                num <= 5_000_000_000_000_000_000_000_000_000_000i128 * (t as i128),
                den <= (t as int) * 1_000_000_000_000,
                t > 0 ==> has_token(nm, from@),
                den != 0 ==> has_token(nm, from@) && has_token(nm, to@),
                forall|q: int|
                    0 <= q < t ==> ((#[trigger] self.ticks@[q]).sphere_amm.reserves@[fi] == 0
                        || self.ticks@[q].sphere_amm.radius
                        != self.ticks@[q].sphere_amm.reserves@[fi]),
            decreases self.ticks@.len() - t,
        {
            let f_idx = match self.ticks[t].sphere_amm.index_of(from) {
                Ok(i) => i,
                Err(e) => {
                    proof {
                        lemma_ticks_sum_nonneg(self.ticks@, fi);
                    }
                    return Err(e);
                },
            };
            proof {
                lemma_first_index_exists(nm, from@);
                lemma_agg_num_take_succ(self.ticks@, t as int, fi, ti);
                lemma_ticks_sum_take_succ(self.ticks@, t as int, fi);
            }
            let weight = self.ticks[t].sphere_amm.reserves[f_idx];
            if weight == 0 {
                t += 1;
                continue ;
            }
            let price = match self.ticks[t].sphere_amm.get_spot_price(from, to) {
                Ok(p) => p,
                Err(e) => {
                    proof {
                        lemma_ticks_sum_element(self.ticks@, t as int, fi);
                        lemma_ticks_sum_nonneg(self.ticks@, fi);
                    }
                    return Err(e);
                },
            };
            proof {
                lemma_first_index_exists(nm, to@);
                let tick = self.ticks@[t as int];
                assert(price == price_of(tick, fi, ti));
                assert(crate::numerics::abs_of(price as int) <= crate::numerics::abs_of(
                    ((tick.sphere_amm.radius - tick.sphere_amm.reserves@[ti]) as int) * (
                    SCALE as int),
                ));
                assert(-5_000_000_000_000_000_000i128 <= price <= 5_000_000_000_000_000_000i128);
                assert(-5_000_000_000_000_000_000_000_000_000_000i128 <= price * weight
                    <= 5_000_000_000_000_000_000_000_000_000_000i128) by (nonlinear_arith)
                    requires
                        -5_000_000_000_000_000_000i128 <= price <= 5_000_000_000_000_000_000i128,
                        0 <= weight <= 1_000_000_000_000i128,
                ;
            }
            num = num + price * (weight as i128);
            den = den + (weight as u128);
            t += 1;
        }
        proof {
            lemma_agg_num_take_full(self.ticks@, fi, ti);
            assert(self.ticks@.take(self.ticks@.len() as int) =~= self.ticks@);
        }
        if den == 0 {
            return Err(AmmError::NoLiquidityForPrice);
        }
        Ok(crate::numerics::div_trunc_i128(num, den as i128))
    }

    /// Overwrite one band's reserves and re-solve its radius (the
    /// administrative path), then recompute the global reserves.
    pub fn set_reserves(&mut self, tick_index: usize, new_reserves: Vec<u64>) -> (res: Result<
        (),
        AmmError,
    >)
        requires
            old(self).wf(),
        ensures
            final(self).wf(),
            final(self).token_names == old(self).token_names,
            final(self).ticks@.len() == old(self).ticks@.len(),
            res is Err ==> final(self).ticks@ == old(self).ticks@,
            tick_index >= old(self).ticks@.len() ==> res == Err::<(), AmmError>(
                AmmError::TickNotFound,
            ),
            res is Ok <==> tick_index < old(self).ticks@.len() && new_reserves@.len() == old(
                self,
            ).token_names@.len() && (forall|k: int|
                0 <= k < new_reserves@.len() ==> new_reserves@[k] <= AMOUNT_LIMIT),
            res is Ok ==> {
                let tick = final(self).ticks@[tick_index as int];
                &&& (forall|t: int|
                    0 <= t < old(self).ticks@.len() && t != tick_index ==> final(self).ticks@[t]
                        == old(self).ticks@[t])
                &&& tick.sphere_amm.reserves@ == new_reserves@
                &&& tick.sphere_amm.radius as int == solved_radius(new_reserves@)
                &&& tick.plane_constant == old(self).ticks@[tick_index as int].plane_constant
                &&& tick.lp_shares == old(self).ticks@[tick_index as int].lp_shares
            },
    {
        if tick_index >= self.ticks.len() {
            return Err(AmmError::TickNotFound);
        }
        let ghost pre_ticks = self.ticks@;
        let r = self.ticks[tick_index].sphere_amm.set_reserves(new_reserves);
        match r {
            Ok(()) => {
                self.recompute_global_reserves();
                Ok(())
            },
            Err(e) => {
                proof {
                    assert(self.ticks@ =~= pre_ticks);
                }
                Err(e)
            },
        }
    }

    /// Add liquidity to one band, then recompute the global reserves.
    pub fn add_liquidity(&mut self, tick_index: usize, lp_id: &str, amounts: &Vec<u64>) -> (res:
        Result<(), AmmError>)
        requires
            old(self).wf(),
        ensures
            final(self).wf(),
            final(self).token_names == old(self).token_names,
            final(self).ticks@.len() == old(self).ticks@.len(),
            res is Err ==> final(self).ticks@ == old(self).ticks@,
            tick_index >= old(self).ticks@.len() ==> res == Err::<(), AmmError>(
                AmmError::TickNotFound,
            ),
            tick_index < old(self).ticks@.len() ==> {
                let tick = old(self).ticks@[tick_index as int];
                &&& (amounts@.len() != tick.sphere_amm.reserves@.len() ==> res == Err::<
                    (),
                    AmmError,
                >(AmmError::LengthMismatch))
                &&& (res is Ok <==> amounts@.len() == tick.sphere_amm.reserves@.len() && (forall|
                    k: int,
                |
                    0 <= k < amounts@.len() ==> tick.sphere_amm.reserves@[k] + amounts@[k]
                        <= AMOUNT_LIMIT) && sum_of(lp_vals(tick.lp_shares@)) + sum_of(amounts@)
                    <= SHARES_LIMIT)
            },
            res is Ok ==> {
                let tick = old(self).ticks@[tick_index as int];
                let new_tick = final(self).ticks@[tick_index as int];
                let xs = added_reserves(tick.sphere_amm.reserves@, amounts@);
                let delta = sum_of(amounts@);
                let keys = lp_keys(tick.lp_shares@);
                &&& (forall|t: int|
                    0 <= t < old(self).ticks@.len() && t != tick_index ==> final(self).ticks@[t]
                        == old(self).ticks@[t])
                &&& new_tick.sphere_amm.reserves@ == xs
                &&& new_tick.sphere_amm.radius as int == solved_radius(xs)
                &&& new_tick.plane_constant == tick.plane_constant
                &&& (has_token(keys, lp_id@) ==> lp_keys(new_tick.lp_shares@) == keys && lp_vals(
                    new_tick.lp_shares@,
                ) == lp_vals(tick.lp_shares@).update(
                    first_index(keys, lp_id@),
                    (lp_vals(tick.lp_shares@)[first_index(keys, lp_id@)] + delta) as u64,
                ))
                &&& (!has_token(keys, lp_id@) ==> lp_keys(new_tick.lp_shares@) == keys.push(
                    lp_id@,
                ) && lp_vals(new_tick.lp_shares@) == lp_vals(tick.lp_shares@).push(delta as u64))
            },
    {
        if tick_index >= self.ticks.len() {
            return Err(AmmError::TickNotFound);
        }
        let ghost pre_ticks = self.ticks@;
        let r = self.ticks[tick_index].add_liquidity(lp_id, amounts);
        match r {
            Ok(()) => {
                self.recompute_global_reserves();
                Ok(())
            },
            Err(e) => {
                proof {
                    assert(self.ticks@ =~= pre_ticks);
                }
                Err(e)
            },
        }
    }

    /// Withdraw a fraction of a provider's position from one band, then
    /// recompute the global reserves.  Returns the withdrawn amounts.
    pub fn withdraw_liquidity(&mut self, tick_index: usize, lp_id: &str, percentage: u64) -> (res:
        Result<Vec<u64>, AmmError>)
        requires
            old(self).wf(),
        ensures
            final(self).wf(),
            final(self).token_names == old(self).token_names,
            final(self).ticks@.len() == old(self).ticks@.len(),
            res is Err ==> final(self).ticks@ == old(self).ticks@,
            tick_index >= old(self).ticks@.len() ==> res == Err::<Vec<u64>, AmmError>(
                AmmError::TickNotFound,
            ),
            tick_index < old(self).ticks@.len() ==> {
                let tick = old(self).ticks@[tick_index as int];
                let keys = lp_keys(tick.lp_shares@);
                &&& (percentage > SCALE ==> res == Err::<Vec<u64>, AmmError>(
                    AmmError::InvalidPercentage,
                ))
                &&& (percentage <= SCALE && !has_token(keys, lp_id@) ==> res == Err::<
                    Vec<u64>,
                    AmmError,
                >(AmmError::LpNotFound))
                &&& (res is Ok <==> percentage <= SCALE && has_token(keys, lp_id@) && lp_vals(
                    tick.lp_shares@,
                )[first_index(keys, lp_id@)] > 0)
            },
            res is Ok ==> {
                let tick = old(self).ticks@[tick_index as int];
                let new_tick = final(self).ticks@[tick_index as int];
                let keys = lp_keys(tick.lp_shares@);
                let vals = lp_vals(tick.lp_shares@);
                let ix = first_index(keys, lp_id@);
                let user = vals[ix] as int;
                let total = sum_of(vals);
                let part = (user * percentage) / (SCALE as int);
                let xs = tick.sphere_amm.reserves@;
                &&& (forall|t: int|
                    0 <= t < old(self).ticks@.len() && t != tick_index ==> final(self).ticks@[t]
                        == old(self).ticks@[t])
                &&& res.unwrap()@.len() == xs.len()
                &&& (forall|k: int|
                    0 <= k < xs.len() ==> res.unwrap()@[k] == (xs[k] * part) / total)
                &&& new_tick.sphere_amm.reserves@ == withdrawn_reserves(xs, part, total)
                &&& new_tick.sphere_amm.radius as int == solved_radius(
                    withdrawn_reserves(xs, part, total),
                )
                &&& new_tick.plane_constant == tick.plane_constant
                &&& (percentage == SCALE ==> lp_keys(new_tick.lp_shares@) == keys.remove(ix)
                    && lp_vals(new_tick.lp_shares@) == vals.remove(ix))
                &&& (percentage < SCALE ==> lp_keys(new_tick.lp_shares@) == keys && lp_vals(
                    new_tick.lp_shares@,
                ) == vals.update(ix, (user - part) as u64))
            },
    {
        if tick_index >= self.ticks.len() {
            return Err(AmmError::TickNotFound);
        }
        let ghost pre_ticks = self.ticks@;
        let r = self.ticks[tick_index].withdraw_liquidity(lp_id, percentage);
        match r {
            Ok(w) => {
                self.recompute_global_reserves();
                Ok(w)
            },
            Err(e) => {
                proof {
                    assert(self.ticks@ =~= pre_ticks);
                }
                Err(e)
            },
        }
    }

    /// Build a fresh market over a new token list with one initial band,
    /// validating everything before construction.
    pub fn reconfigure(
        token_names: Vec<String>,
        initial_reserves: Vec<u64>,
        initial_plane: u64,
    ) -> (res: Result<MultiTickAMM, AmmError>)
        ensures
            token_names@.len() == 0 ==> res == Err::<MultiTickAMM, AmmError>(
                AmmError::LengthMismatch,
            ),
            token_names@.len() != initial_reserves@.len() ==> res == Err::<MultiTickAMM, AmmError>(
                AmmError::LengthMismatch,
            ),
            token_names@.len() > MAX_TOKENS ==> res == Err::<MultiTickAMM, AmmError>(
                AmmError::LengthMismatch,
            ),
            1 <= token_names@.len() <= MAX_TOKENS && token_names@.len()
                == initial_reserves@.len() && initial_plane == 0 ==> res == Err::<
                MultiTickAMM,
                AmmError,
            >(AmmError::InvalidAmount),
            res is Ok <==> 1 <= token_names@.len() <= MAX_TOKENS && token_names@.len()
                == initial_reserves@.len() && initial_plane >= 1 && (forall|k: int|
                0 <= k < initial_reserves@.len() ==> initial_reserves@[k] <= AMOUNT_LIMIT) && (
            initial_reserves@.len() >= 2 ==> radius_disc(initial_reserves@) >= 0),
            res is Ok ==> {
                let amm = res.unwrap();
                &&& amm.wf()
                &&& amm.token_names == token_names
                &&& amm.ticks@.len() == 1
                &&& amm.ticks@[0].plane_constant == initial_plane
                &&& amm.ticks@[0].sphere_amm.reserves@ == initial_reserves@
            },
    {
        if token_names.len() == 0 {
            return Err(AmmError::LengthMismatch);
        }
        if token_names.len() != initial_reserves.len() {
            return Err(AmmError::LengthMismatch);
        }
        if token_names.len() > MAX_TOKENS {
            return Err(AmmError::LengthMismatch);
        }
        if initial_plane == 0 {
            return Err(AmmError::InvalidAmount);
        }
        let mut amm = MultiTickAMM::new(token_names);
        match amm.add_tick(initial_plane, initial_reserves) {
            Ok(()) => Ok(amm),
            Err(e) => Err(e),
        }
    }

    /// A full read-only snapshot of the market state.
    pub fn snapshot(&self) -> (s: MarketSnapshot)
        requires
            self.wf(),
        ensures
            s.tick_count == self.ticks@.len(),
            s.token_names@ == self.token_names@,
            s.global_reserves@ == self.global_reserves@,
            s.ticks@.len() == self.ticks@.len(),
            forall|t: int|
                0 <= t < self.ticks@.len() ==> {
                    let info = #[trigger] s.ticks@[t];
                    let tick = self.ticks@[t];
                    &&& info.index == t
                    &&& info.plane_constant == tick.plane_constant
                    &&& info.reserves@ == tick.sphere_amm.reserves@
                    &&& info.radius == tick.sphere_amm.radius
                    &&& info.is_interior == tick_interior(tick)
                    &&& info.is_boundary == tick_boundary(tick)
                    &&& info.liquidity as int == sum_of(tick.sphere_amm.reserves@)
                },
    {
        let mut infos: Vec<TickSnapshot> = Vec::new();
        let mut t: usize = 0;
        while t < self.ticks.len()
            invariant
                self.wf(),
                t <= self.ticks@.len(),
                infos@.len() == t,
                forall|q: int|
                    0 <= q < t ==> {
                        let info = #[trigger] infos@[q];
                        let tick = self.ticks@[q];
                        &&& info.index == q
                        &&& info.plane_constant == tick.plane_constant
                        &&& info.reserves@ == tick.sphere_amm.reserves@
                        &&& info.radius == tick.sphere_amm.radius
                        &&& info.is_interior == tick_interior(tick)
                        &&& info.is_boundary == tick_boundary(tick)
                        &&& info.liquidity as int == sum_of(tick.sphere_amm.reserves@)
                    },
            decreases self.ticks@.len() - t,
        {
            let tick = &self.ticks[t];
            let info = TickSnapshot {
                index: t,
                plane_constant: tick.plane_constant,
                reserves: clone_amounts(&tick.sphere_amm.reserves),
                radius: tick.sphere_amm.radius,
                is_interior: tick.is_interior(),
                is_boundary: tick.is_boundary(),
                liquidity: tick.liquidity(),
            };
            infos.push(info);
            t += 1;
        }
        MarketSnapshot {
            ticks: infos,
            token_names: clone_names(&self.token_names),
            global_reserves: clone_amounts(&self.global_reserves),
            tick_count: self.ticks.len(),
        }
    }
}

/// One band's state as reported in a snapshot.
pub struct TickSnapshot {
    /// Position of the band in the market's band list.
    pub index: usize,
    /// The band's plane constant, in quanta.
    pub plane_constant: u64,
    /// The band's reserves, in quanta.
    pub reserves: Vec<u64>,
    /// The band's solved radius, in quanta.
    pub radius: u64,
    /// Whether the band is interior.
    pub is_interior: bool,
    /// Whether the band sits on its boundary.
    pub is_boundary: bool,
    /// The band's liquidity proxy: the sum of its reserves.
    pub liquidity: u64,
}

/// The whole market's state as reported to callers.
pub struct MarketSnapshot {
    /// Per-band snapshots, in band order.
    pub ticks: Vec<TickSnapshot>,
    /// The shared token list.
    pub token_names: Vec<String>,
    /// The per-token totals over all bands.
    pub global_reserves: Vec<u64>,
    /// Number of bands.
    pub tick_count: usize,
}

/// Clone an amount vector, preserving its view exactly.
fn clone_amounts(v: &Vec<u64>) -> (r: Vec<u64>)
    ensures
        r@ == v@,
{
    let mut r: Vec<u64> = Vec::new();
    let mut k: usize = 0;
    while k < v.len()
        invariant
            k <= v@.len(),
            r@.len() == k,
            forall|i: int| 0 <= i < k ==> r@[i] == v@[i],
        decreases v@.len() - k,
    {
        r.push(v[k]);
        k += 1;
    }
    proof {
        assert(r@ =~= v@);
    }
    r
}

/// A band is interior when its parallel magnitude clears the plane constant
/// by more than one quantum.
pub open spec fn tick_interior(t: OrbitalTick) -> bool {
    parallel_mag_of(t.sphere_amm.reserves@) > t.plane_constant + 1
}

/// A band is on its boundary when its parallel magnitude equals the plane
/// constant exactly.
pub open spec fn tick_boundary(t: OrbitalTick) -> bool {
    parallel_mag_of(t.sphere_amm.reserves@) == t.plane_constant as int
}

/// Spot price of token `j` in units of token `i` on one band, as a
/// fixed-point ratio (`SCALE` means parity).
pub open spec fn price_of(t: OrbitalTick, i: int, j: int) -> int {
    crate::numerics::div_trunc(
        (t.sphere_amm.radius - t.sphere_amm.reserves@[j]) * (SCALE as int),
        t.sphere_amm.radius - t.sphere_amm.reserves@[i],
    )
}

/// Liquidity-weighted price numerator over the bands: each band with a
/// non-zero `i`-reserve contributes its price times that reserve.
pub open spec fn agg_num(ticks: Seq<OrbitalTick>, i: int, j: int) -> int
    decreases ticks.len(),
{
    if ticks.len() == 0 {
        0
    } else {
        agg_num(ticks.drop_last(), i, j) + (if ticks.last().sphere_amm.reserves@[i] == 0 {
            0
        } else {
            price_of(ticks.last(), i, j) * ticks.last().sphere_amm.reserves@[i]
        })
    }
}

/// Extending a prefix of bands adds the last band's contribution.
pub proof fn lemma_agg_num_take_succ(ticks: Seq<OrbitalTick>, t: int, i: int, j: int)
    requires
        0 <= t < ticks.len(),
    ensures
        agg_num(ticks.take(t + 1), i, j) == agg_num(ticks.take(t), i, j) + (if ticks[t].sphere_amm.reserves@[i] == 0 {
            0
        } else {
            price_of(ticks[t], i, j) * ticks[t].sphere_amm.reserves@[i]
        }),
{
    assert(ticks.take(t + 1).drop_last() =~= ticks.take(t));
    assert(ticks.take(t + 1).last() == ticks[t]);
}

/// The whole band list is its own full prefix.
pub proof fn lemma_agg_num_take_full(ticks: Seq<OrbitalTick>, i: int, j: int)
    ensures
        agg_num(ticks.take(ticks.len() as int), i, j) == agg_num(ticks, i, j),
{
    assert(ticks.take(ticks.len() as int) =~= ticks);
}

/// One band's reserve never exceeds the per-token sum over all bands.
pub proof fn lemma_ticks_sum_element(ticks: Seq<OrbitalTick>, t: int, k: int)
    requires
        0 <= t < ticks.len(),
    ensures
        ticks[t].sphere_amm.reserves@[k] <= ticks_sum(ticks, k),
    decreases ticks.len(),
{
    lemma_ticks_sum_nonneg(ticks.drop_last(), k);
    if t == ticks.len() - 1 {
    } else {
        lemma_ticks_sum_element(ticks.drop_last(), t, k);
    }
}

/// Clone a token-name list, preserving its view exactly.
fn clone_names(v: &Vec<String>) -> (r: Vec<String>)
    ensures
        r@ == v@,
{
    let mut r: Vec<String> = Vec::new();
    let mut k: usize = 0;
    while k < v.len()
        invariant
            k <= v@.len(),
            r@.len() == k,
            forall|i: int| 0 <= i < k ==> r@[i] == v@[i],
        decreases v@.len() - k,
    {
        r.push(v[k].clone());
        k += 1;
    }
    proof {
        assert(r@ =~= v@);
    }
    r
}

/// For non-negative numerators, integer division preserves ordering.
proof fn lemma_div_is_ordered_ticks(x: int, y: int, d: int)
    requires
        x <= y,
        0 < d,
    ensures
        x / d <= y / d,
{
    vstd::arithmetic::div_mod::lemma_div_is_ordered(x, y, d);
}

} // verus!
