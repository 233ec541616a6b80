//! The single hypersphere-invariant pool.
//!
//! A pool keeps `n` token reserves on the surface of a hypersphere of radius
//! `r`: the reserves satisfy `sum_i (r - x_i)^2 == r^2` up to the documented
//! tolerance.  The radius is solved at construction from the quadratic
//! `(n-1) r^2 - 2 (sum x) r + (sum x^2) = 0`, and swaps move reserves along
//! the sphere.

use vstd::prelude::*;
use vstd::arithmetic::div_mod::{
    lemma_basic_div, lemma_div_is_ordered, lemma_div_pos_is_pos, lemma_fundamental_div_mod,
    lemma_mod_bound,
};
use crate::errors::AmmError;
use crate::numerics::{
    abs_of, div_trunc, div_trunc_i128, isqrt, lemma_sum_bounds,
    lemma_sum_update, lemma_sqrt_floor_le, lemma_sqrt_floor_props, sqrt_floor,
    sum_of, sum_sq_of, sum_sq_vec, sum_vec, AMOUNT_LIMIT, MAX_TOKENS, RADIUS_LIMIT, SCALE,
};
use crate::text::str_eq;

verus! {

/// Sum of squared distances from the radius: `sum_i (r - x_i)^2`.
pub open spec fn sum_dist_sq(r: int, xs: Seq<u64>) -> int
    decreases xs.len(),
{
    if xs.len() == 0 {
        0
    } else {
        sum_dist_sq(r, xs.drop_last()) + (r - xs.last()) * (r - xs.last())
    }
}

/// How far the reserves are from the sphere: `sum_i (r - x_i)^2 - r^2`.
/// Zero means the invariant holds exactly.
pub open spec fn defect_of(r: int, xs: Seq<u64>) -> int {
    sum_dist_sq(r, xs) - r * r
}

/// The sum of squared distances in closed form.
pub proof fn lemma_dist_closed_form(r: int, xs: Seq<u64>)
    ensures
        sum_dist_sq(r, xs) == xs.len() * (r * r) - 2 * r * sum_of(xs) + sum_sq_of(xs),
    decreases xs.len(),
{
    if xs.len() == 0 {
    } else {
        let p = xs.drop_last();
        let x = xs.last() as int;
        lemma_dist_closed_form(r, p);
        assert((r - x) * (r - x) == r * r - 2 * r * x + x * x) by (nonlinear_arith);
        assert(p.len() * (r * r) + r * r == xs.len() * (r * r)) by (nonlinear_arith)
            requires
                p.len() + 1 == xs.len(),
        ;
        assert(2 * r * sum_of(xs) == 2 * r * sum_of(p) + 2 * r * x) by (nonlinear_arith)
            requires
                sum_of(xs) == sum_of(p) + x,
        ;
    }
}

/// Extending a prefix by one element adds that element's squared distance.
pub proof fn lemma_dist_take_succ(r: int, xs: Seq<u64>, i: int)
    requires
        0 <= i < xs.len(),
    ensures
        sum_dist_sq(r, xs.take(i + 1)) == sum_dist_sq(r, xs.take(i)) + (r - xs[i]) * (r - xs[i]),
{
    assert(xs.take(i + 1).drop_last() =~= xs.take(i));
    assert(xs.take(i + 1).last() == xs[i]);
}

/// The whole sequence is its own full prefix.
pub proof fn lemma_dist_take_full(r: int, xs: Seq<u64>)
    ensures
        sum_dist_sq(r, xs.take(xs.len() as int)) == sum_dist_sq(r, xs),
{
    assert(xs.take(xs.len() as int) =~= xs);
}

/// Updating one element changes the sum of squared distances accordingly.
pub proof fn lemma_dist_update(r: int, xs: Seq<u64>, i: int, v: u64)
    requires
        0 <= i < xs.len(),
    ensures
        sum_dist_sq(r, xs.update(i, v)) == sum_dist_sq(r, xs) - (r - xs[i]) * (r - xs[i]) + (r
            - v) * (r - v),
    decreases xs.len(),
{
    let t = xs.update(i, v);
    if i == xs.len() - 1 {
        assert(t.drop_last() =~= xs.drop_last());
        assert(t.last() == v);
    } else {
        assert(t.drop_last() =~= xs.drop_last().update(i, v));
        assert(t.last() == xs.last());
        lemma_dist_update(r, xs.drop_last(), i, v);
    }
}

/// Whether `t` occurs among the token names.
pub open spec fn has_token(names: Seq<Seq<char>>, t: Seq<char>) -> bool {
    exists|k: int| 0 <= k < names.len() && names[k] == t
}

/// Whether `i` is the first position of `t` among the token names.
pub open spec fn is_first_index(names: Seq<Seq<char>>, t: Seq<char>, i: int) -> bool {
    &&& 0 <= i < names.len()
    &&& names[i] == t
    &&& forall|k: int| 0 <= k < i ==> names[k] != t
}

/// The first position of `t` among the token names (meaningful only when
/// `has_token` holds).
pub open spec fn first_index(names: Seq<Seq<char>>, t: Seq<char>) -> int {
    choose|i: int| is_first_index(names, t, i)
}

/// Wherever a token occurs at all, `first_index` is its first occurrence.
pub proof fn lemma_first_index_exists(names: Seq<Seq<char>>, t: Seq<char>)
    requires
        has_token(names, t),
    ensures
        is_first_index(names, t, first_index(names, t)),
    decreases names.len(),
{
    if names[0] == t {
        assert(is_first_index(names, t, 0));
    } else {
        let w = choose|k: int| 0 <= k < names.len() && names[k] == t;
        let tail = names.subrange(1, names.len() as int);
        assert(tail[w - 1] == t);
        assert(has_token(tail, t));
        lemma_first_index_exists(tail, t);
        let i = first_index(tail, t);
        assert(names[i + 1] == tail[i]);
        assert(forall|k: int| 1 <= k < i + 1 ==> names[k] == tail[k - 1]);
        assert(is_first_index(names, t, i + 1));
    }
}

/// Discriminant of the radius quadratic: `4 (sum x)^2 - 4 (n-1) (sum x^2)`.
pub open spec fn radius_disc(xs: Seq<u64>) -> int {
    4 * sum_of(xs) * sum_of(xs) - 4 * ((xs.len() - 1) as int) * sum_sq_of(xs)
}

/// The radius solved from the reserves, with a negative discriminant clamped
/// to zero.  For one token the radius is the lone reserve (a documented
/// simplification that bypasses the quadratic), and for no tokens it is zero.
pub open spec fn solved_radius(xs: Seq<u64>) -> int {
    let n = xs.len() as int;
    let s = sum_of(xs);
    if n == 0 {
        0
    } else if n == 1 {
        s
    } else {
        let d = if radius_disc(xs) < 0 {
            0
        } else {
            radius_disc(xs)
        };
        let sq = sqrt_floor(d);
        let r1 = (2 * s + sq) / (2 * (n - 1));
        if r1 > 0 {
            r1
        } else {
            (2 * s - sq) / (2 * (n - 1))
        }
    }
}

/// Reserves within bounds solve to a radius within `RADIUS_LIMIT`.
pub proof fn lemma_solved_radius_bounds(xs: Seq<u64>)
    requires
        xs.len() <= MAX_TOKENS,
        forall|k: int| 0 <= k < xs.len() ==> xs[k] <= AMOUNT_LIMIT,
    ensures
        0 <= solved_radius(xs) <= RADIUS_LIMIT,
{
    let n = xs.len() as int;
    let s = sum_of(xs);
    lemma_sum_bounds(xs, AMOUNT_LIMIT as int);
    if n == 0 {
    } else if n == 1 {
    } else {
        let a = n - 1;
        let dd = radius_disc(xs);
        let d = if dd < 0 {
            0
        } else {
            dd
        };
        assert(d <= 4 * s * s) by (nonlinear_arith)
            requires
                d == (if dd < 0 {
                    0
                } else {
                    dd
                }),
                dd == 4 * s * s - 4 * a * sum_sq_of(xs),
                a >= 1,
                sum_sq_of(xs) >= 0,
                s >= 0,
        ;
        assert(4 * s * s == (2 * s) * (2 * s)) by (nonlinear_arith);
        lemma_sqrt_floor_le(d, 2 * s);
        lemma_sqrt_floor_props(d);
        let sq = sqrt_floor(d);
        let r1 = (2 * s + sq) / (2 * a);
        lemma_div_pos_is_pos(2 * s + sq, 2 * a);
        lemma_div_pos_is_pos(2 * s - sq, 2 * a);
        // 2s + sq <= 4s <= 8 a AMOUNT_LIMIT, so r1 <= 4 AMOUNT_LIMIT.
        assert(s <= n * (AMOUNT_LIMIT as int));
        assert(4 * s <= (2 * a) * (4 * (AMOUNT_LIMIT as int))) by (nonlinear_arith)
            requires
                s <= (a + 1) * (AMOUNT_LIMIT as int),
                a >= 1,
                n == a + 1,
        ;
        lemma_div_is_ordered(2 * s + sq, (2 * a) * (4 * (AMOUNT_LIMIT as int)), 2 * a);
        vstd::arithmetic::div_mod::lemma_div_multiples_vanish(4 * (AMOUNT_LIMIT as int), 2 * a);
        lemma_div_is_ordered(2 * s - sq, (2 * a) * (4 * (AMOUNT_LIMIT as int)), 2 * a);
    }
}

/// The radius solved for two or more tokens with a real-rooted quadratic
/// leaves a defect of at most `sqrt(disc) + (n - 1) <= 2 sum + n`.
pub proof fn lemma_solved_radius_defect(xs: Seq<u64>)
    requires
        2 <= xs.len() <= MAX_TOKENS,
        forall|k: int| 0 <= k < xs.len() ==> xs[k] <= AMOUNT_LIMIT,
        radius_disc(xs) >= 0,
    ensures
        abs_of(defect_of(solved_radius(xs), xs)) <= 2 * sum_of(xs) + xs.len(),
{
    let n = xs.len() as int;
    let a = n - 1;
    let s = sum_of(xs);
    let q = sum_sq_of(xs);
    let d = radius_disc(xs);
    lemma_sum_bounds(xs, AMOUNT_LIMIT as int);
    lemma_sqrt_floor_props(d);
    let sq = sqrt_floor(d);
    assert(4 * s * s == (2 * s) * (2 * s)) by (nonlinear_arith);
    assert(d <= 4 * s * s) by (nonlinear_arith)
        requires
            d == 4 * s * s - 4 * a * q,
            a >= 1,
            q >= 0,
    ;
    lemma_sqrt_floor_le(d, 2 * s);
    assert(d <= sq * sq + 2 * sq) by {
        assert((sq + 1) * (sq + 1) == sq * sq + 2 * sq + 1) by (nonlinear_arith);
    }
    let r1 = (2 * s + sq) / (2 * a);
    lemma_div_pos_is_pos(2 * s + sq, 2 * a);
    lemma_fundamental_div_mod(2 * s + sq, 2 * a);
    lemma_mod_bound(2 * s + sq, 2 * a);
    let m = (2 * s + sq) % (2 * a);
    assert(2 * s + sq == (2 * a) * r1 + m);
    if r1 > 0 {
        let r = solved_radius(xs);
        assert(r == r1);
        lemma_dist_closed_form(r, xs);
        let f = defect_of(r, xs);
        assert(f == a * (r * r) - 2 * r * s + q) by (nonlinear_arith)
            requires
                f == n * (r * r) - 2 * r * s + q - r * r,
                a == n - 1,
        ;
        let u: int = 2 * a * r - 2 * s;
        assert(u == sq - m) by (nonlinear_arith)
            requires
                2 * s + sq == (2 * a) * r + m,
                u == 2 * a * r - 2 * s,
        ;
        assert(4 * a * f == u * u - d) by (nonlinear_arith)
            requires
                f == a * (r * r) - 2 * r * s + q,
                u == 2 * a * r - 2 * s,
                d == 4 * s * s - 4 * a * q,
        ;
        // Upper bound: f <= a.
        if u >= 0 {
            assert(u * u <= sq * sq) by (nonlinear_arith)
                requires
                    0 <= u,
                    u <= sq,
            ;
            assert(f <= 0) by (nonlinear_arith)
                requires
                    4 * a * f <= 0,
                    a >= 1,
            ;
        } else {
            assert(u * u <= (2 * a - sq - 1) * (2 * a - sq - 1)) by (nonlinear_arith)
                requires
                    u < 0,
                    sq - 2 * a < u,
            ;
            assert((2 * a - sq - 1) * (2 * a - sq - 1) - sq * sq <= 4 * (a * a))
                by (nonlinear_arith)
                requires
                    0 <= sq,
                    1 <= a,
            ;
            assert(f <= a) by (nonlinear_arith)
                requires
                    4 * a * f <= 4 * (a * a),
                    a >= 1,
            ;
        }
        // Lower bound: f >= -(sq + a).
        if sq - 2 * a + 1 >= 0 {
            assert(u * u >= (sq - 2 * a + 1) * (sq - 2 * a + 1)) by (nonlinear_arith)
                requires
                    0 <= sq - 2 * a + 1,
                    sq - 2 * a + 1 <= u,
            ;
            assert((sq - 2 * a + 1) * (sq - 2 * a + 1) - (sq * sq + 2 * sq) >= -(4 * a) * sq)
                by (nonlinear_arith)
                requires
                    1 <= a,
            ;
            assert(f >= -sq) by (nonlinear_arith)
                requires
                    4 * a * f >= -(4 * a) * sq,
                    a >= 1,
                    sq >= 0,
            ;
        } else {
            assert(sq * sq + 2 * sq <= 4 * a * (a - 1)) by (nonlinear_arith)
                requires
                    0 <= sq,
                    sq <= 2 * a - 2,
            ;
            assert(u * u >= 0) by (nonlinear_arith);
            assert(f >= -(a - 1)) by (nonlinear_arith)
                requires
                    4 * a * f >= -(4 * a * (a - 1)),
                    a >= 1,
            ;
        }
        assert(abs_of(f) <= sq + a);
    } else {
        // The positive root collapsed to zero, so both roots are zero.
        assert(r1 == 0);
        assert((2 * a) * r1 == 0) by (nonlinear_arith)
            requires
                r1 == 0,
        ;
        assert(2 * s + sq < 2 * a);
        lemma_basic_div(2 * s - sq, 2 * a);
        let r = solved_radius(xs);
        assert(r == 0);
        lemma_dist_closed_form(r, xs);
        let f = defect_of(r, xs);
        assert(f == q) by (nonlinear_arith)
            requires
                f == n * (r * r) - 2 * r * s + q - r * r,
                r == 0,
        ;
        assert(q <= a) by (nonlinear_arith)
            requires
                4 * a * q <= 4 * s * s,
                0 <= s,
                2 * s < 2 * a,
                a >= 1,
                q >= 0,
        ;
    }
}

/// The hypersphere-invariant pool: `n` reserves held on a sphere of the
/// stored radius, index-aligned with the token names.
pub struct SphereAMM {
    /// Hypersphere radius, in quanta.
    pub radius: u64,
    /// Reserves for each token, same order as `token_names`, in quanta.
    pub reserves: Vec<u64>,
    /// Human-readable token identifiers.
    pub token_names: Vec<String>,
}

impl SphereAMM {
    /// The token names as character sequences.
    pub open spec fn names(self) -> Seq<Seq<char>> {
        Seq::new(self.token_names@.len(), |i: int| self.token_names@[i]@)
    }

    /// Structural well-formedness: aligned lengths and bounded magnitudes.
    pub open spec fn wf(self) -> bool {
        &&& self.reserves@.len() == self.token_names@.len()
        &&& self.reserves@.len() <= MAX_TOKENS
        &&& forall|k: int| 0 <= k < self.reserves@.len() ==> self.reserves@[k] <= AMOUNT_LIMIT
        &&& self.radius <= RADIUS_LIMIT
    }

    /// How far the pool is from its sphere.
    pub open spec fn defect(self) -> int {
        defect_of(self.radius as int, self.reserves@)
    }

    /// Tolerance under which the invariant is accepted: covers the rounding
    /// of the solved radius plus slack for swaps.
    pub open spec fn inv_tol(self) -> int {
        2 * sum_of(self.reserves@) + 2 * self.reserves@.len() + 4 * (self.radius as int)
    }

    /// The hypersphere invariant, within tolerance.
    pub open spec fn inv_holds(self) -> bool {
        abs_of(self.defect()) <= self.inv_tol()
    }

    /// Whether construction succeeds on these arguments.
    pub open spec fn new_pool_ok(token_names: Seq<String>, xs: Seq<u64>) -> bool {
        &&& token_names.len() == xs.len()
        &&& xs.len() <= MAX_TOKENS
        &&& forall|k: int| 0 <= k < xs.len() ==> xs[k] <= AMOUNT_LIMIT
        &&& (xs.len() >= 2 ==> radius_disc(xs) >= 0)
    }

    /// Construct a pool from initial reserves; the radius is solved so that
    /// the invariant holds at genesis (except under the documented one-token
    /// simplification, where the radius is the lone reserve and the general
    /// invariant is not expected of it): for every reserve vector this
    /// constructor accepts, other than a single-token one, `check_invariant`
    /// on the result returns true.
    pub fn new(token_names: Vec<String>, initial_reserves: Vec<u64>) -> (res: Result<
        SphereAMM,
        AmmError,
    >)
        ensures
            res is Ok <==> Self::new_pool_ok(token_names@, initial_reserves@),
            token_names@.len() != initial_reserves@.len() ==> res == Err::<SphereAMM, AmmError>(
                AmmError::LengthMismatch,
            ),
            token_names@.len() == initial_reserves@.len() && initial_reserves@.len() > MAX_TOKENS
                ==> res == Err::<SphereAMM, AmmError>(AmmError::LengthMismatch),
            token_names@.len() == initial_reserves@.len() && initial_reserves@.len() <= MAX_TOKENS
                && !(forall|k: int|
                0 <= k < initial_reserves@.len() ==> initial_reserves@[k] <= AMOUNT_LIMIT) ==> res
                == Err::<SphereAMM, AmmError>(AmmError::InvalidAmount),
            token_names@.len() == initial_reserves@.len() && initial_reserves@.len() <= MAX_TOKENS
                && (forall|k: int|
                0 <= k < initial_reserves@.len() ==> initial_reserves@[k] <= AMOUNT_LIMIT)
                && initial_reserves@.len() >= 2 && radius_disc(initial_reserves@) < 0 ==> res
                == Err::<SphereAMM, AmmError>(AmmError::ComplexSolution),
            res is Ok ==> {
                let p = res.unwrap();
                &&& p.token_names == token_names
                &&& p.reserves == initial_reserves
                &&& p.radius as int == solved_radius(initial_reserves@)
                &&& p.wf()
                &&& initial_reserves@.len() != 1 ==> p.inv_holds()
            },
    {
        if token_names.len() != initial_reserves.len() {
            return Err(AmmError::LengthMismatch);
        }
        if token_names.len() > MAX_TOKENS {
            return Err(AmmError::LengthMismatch);
        }
        let mut k: usize = 0;
        while k < initial_reserves.len()
            invariant
                k <= initial_reserves@.len(),
                token_names@.len() == initial_reserves@.len(),
                initial_reserves@.len() <= MAX_TOKENS,
                forall|m: int| 0 <= m < k ==> initial_reserves@[m] <= AMOUNT_LIMIT,
            decreases initial_reserves@.len() - k,
        {
            if initial_reserves[k] > AMOUNT_LIMIT {
                return Err(AmmError::InvalidAmount);
            }
            k += 1;
        }
        if initial_reserves.len() >= 2 {
            let s = sum_vec(&initial_reserves);
            let q = sum_sq_vec(&initial_reserves);
            proof {
                lemma_sum_bounds(initial_reserves@, AMOUNT_LIMIT as int);
                assert(4 * (s as int) * (s as int) <= 0x1000_0000_0000_0000_0000_0000_0000i128)
                    by (nonlinear_arith)
                    requires
                        0 <= s <= 32_000_000_000_000i128,
                ;
                assert(4 * ((initial_reserves@.len() - 1) as int) * (q as int)
                    <= 0x1000_0000_0000_0000_0000_0000_0000i128) by (nonlinear_arith)
                    requires
                        0 <= q <= 32_000_000_000_000_000_000_000_000i128,
                        0 <= (initial_reserves@.len() - 1) as int <= 32,
                ;
            }
            let a = (initial_reserves.len() - 1) as u64;
            let disc: i128 = 4 * (s as i128) * (s as i128) - 4 * (a as i128) * (q as i128);
            if disc < 0 {
                return Err(AmmError::ComplexSolution);
            }
        }
        let radius = solve_radius(&initial_reserves);
        proof {
            if initial_reserves@.len() >= 2 {
                lemma_solved_radius_defect(initial_reserves@);
            }
            if initial_reserves@.len() == 0 {
                assert(defect_of(0, initial_reserves@) == 0);
            }
        }
        Ok(SphereAMM { radius, reserves: initial_reserves, token_names })
    }

    /// Verify the hypersphere invariant within the documented tolerance.
    pub fn check_invariant(&self) -> (ok: bool)
        requires
            self.wf(),
        ensures
            ok == self.inv_holds(),
    {
        let d: i128 = sphere_invariant(&self.reserves, self.radius);
        proof {
            lemma_sum_bounds(self.reserves@, AMOUNT_LIMIT as int);
        }
        let s = sum_vec(&self.reserves);
        let tol: i128 = 2 * (s as i128) + 2 * (self.reserves.len() as i128) + 4 * (
        self.radius as i128);
        let ad: i128 = if d < 0 {
            -d
        } else {
            d
        };
        ad <= tol
    }

    /// Runtime well-formedness check, for callers outside the proof.
    pub fn well_formed(&self) -> (ok: bool)
        ensures
            ok == self.wf(),
    {
        if self.reserves.len() != self.token_names.len() {
            return false;
        }
        if self.reserves.len() > MAX_TOKENS {
            return false;
        }
        if self.radius > RADIUS_LIMIT {
            return false;
        }
        let mut k: usize = 0;
        while k < self.reserves.len()
            invariant
                k <= self.reserves@.len(),
                self.reserves@.len() == self.token_names@.len(),
                self.reserves@.len() <= MAX_TOKENS,
                self.radius <= RADIUS_LIMIT,
                forall|m: int| 0 <= m < k ==> self.reserves@[m] <= AMOUNT_LIMIT,
            decreases self.reserves@.len() - k,
        {
            if self.reserves[k] > AMOUNT_LIMIT {
                return false;
            }
            k += 1;
        }
        true
    }

    /// The index of a token by name.
    pub fn index_of(&self, token: &str) -> (res: Result<usize, AmmError>)
        ensures
            res is Ok <==> has_token(self.names(), token@),
            res is Ok ==> is_first_index(self.names(), token@, res.unwrap() as int),
            res is Ok ==> res.unwrap() == first_index(self.names(), token@),
            !has_token(self.names(), token@) ==> res == Err::<usize, AmmError>(
                AmmError::TokenNotFound,
            ),
    {
        let mut k: usize = 0;
        while k < self.token_names.len()
            invariant
                k <= self.token_names@.len(),
                forall|m: int| 0 <= m < k ==> self.names()[m] != token@,
            decreases self.token_names@.len() - k,
        {
            if str_eq(self.token_names[k].as_str(), token) {
                proof {
                    assert(self.names()[k as int] == self.token_names@[k as int]@);
                    assert(is_first_index(self.names(), token@, k as int));
                    let c = first_index(self.names(), token@);
                    assert(is_first_index(self.names(), token@, c));
                }
                return Ok(k);
            }
            k += 1;
        }
        assert(forall|m: int|
            0 <= m < self.names().len() ==> self.names()[m] != token@);
        Err(AmmError::TokenNotFound)
    }

    /// Discriminant of the swap quadratic for trading `dx` of token `i` into
    /// token `j`: with `A = r - x_i` and `B = r - x_j`, it is
    /// `B^2 + 2 A dx - dx^2`.
    pub open spec fn swap_disc(self, i: int, j: int, dx: int) -> int {
        let r = self.radius as int;
        let av = r - self.reserves@[i];
        let bv = r - self.reserves@[j];
        bv * bv + 2 * av * dx - dx * dx
    }

    /// Output of a swap: the root `-B + sqrt(disc)` of the quadratic, taken
    /// with the floored integer square root.
    pub open spec fn swap_output(self, i: int, j: int, dx: int) -> int {
        sqrt_floor(self.swap_disc(i, j, dx)) - (self.radius - self.reserves@[j])
    }

    /// Whether a swap of `dx` quanta from `f` to `t` succeeds on this pool.
    pub open spec fn swap_accepts(self, f: Seq<char>, t: Seq<char>, dx: int) -> bool {
        let nm = self.names();
        &&& dx > 0
        &&& has_token(nm, f)
        &&& has_token(nm, t)
        &&& self.reserves@[first_index(nm, f)] + dx <= AMOUNT_LIMIT
        &&& self.swap_disc(first_index(nm, f), first_index(nm, t), dx) >= 0
        &&& 0 < self.swap_output(first_index(nm, f), first_index(nm, t), dx) <= self.reserves@[
            first_index(nm, t)]
    }

    /// Reserves after a successful swap: `dx` added at `i`, the output
    /// removed at `j`.
    pub open spec fn swap_result(self, i: int, j: int, dx: int) -> Seq<u64> {
        let out = self.swap_output(i, j, dx);
        let mid = self.reserves@.update(i, (self.reserves@[i] + dx) as u64);
        mid.update(j, (mid[j] - out) as u64)
    }

    /// Execute a swap from `from` to `to`, returning the output amount while
    /// keeping the reserves on the sphere.  Validation happens before any
    /// mutation: on an error the pool is unchanged.
    ///
    /// Every successful swap returns an output strictly positive and at most
    /// the pre-swap destination reserve, changes the sphere defect by
    /// exactly the square-root rounding `sqrt(disc)^2 - disc`, and therefore
    /// keeps the invariant whenever the pool entered with slack of at least
    /// `2 radius + 2 reserves[to]` below the tolerance (a freshly solved
    /// pool has far more; a pool already at the edge of its tolerance can
    /// drift out, which is why the preservation clause is conditional).
    pub fn swap(&mut self, from: &str, to: &str, amount_in: u64) -> (res: Result<u64, AmmError>)
        requires
            old(self).wf(),
        ensures
            final(self).wf(),
            final(self).radius == old(self).radius,
            final(self).token_names == old(self).token_names,
            res is Err ==> *final(self) == *old(self),
            res is Ok <==> old(self).swap_accepts(from@, to@, amount_in as int),
            amount_in == 0 ==> res == Err::<u64, AmmError>(AmmError::InvalidAmount),
            amount_in > 0 && !(has_token(old(self).names(), from@) && has_token(
                old(self).names(),
                to@,
            )) ==> res == Err::<u64, AmmError>(AmmError::TokenNotFound),
            ({
                let nm = old(self).names();
                let i = first_index(nm, from@);
                let j = first_index(nm, to@);
                &&& (amount_in > 0 && has_token(nm, from@) && has_token(nm, to@) && old(
                    self,
                ).reserves@[i] + amount_in > AMOUNT_LIMIT ==> res == Err::<u64, AmmError>(
                    AmmError::InvalidAmount,
                ))
                &&& (amount_in > 0 && has_token(nm, from@) && has_token(nm, to@) && old(
                    self,
                ).reserves@[i] + amount_in <= AMOUNT_LIMIT && old(self).swap_disc(
                    i,
                    j,
                    amount_in as int,
                ) < 0 ==> res == Err::<u64, AmmError>(AmmError::ComplexSolution))
                &&& (amount_in > 0 && has_token(nm, from@) && has_token(nm, to@) && old(
                    self,
                ).reserves@[i] + amount_in <= AMOUNT_LIMIT && old(self).swap_disc(
                    i,
                    j,
                    amount_in as int,
                ) >= 0 && !(0 < old(self).swap_output(i, j, amount_in as int) <= old(
                    self,
                ).reserves@[j]) ==> res == Err::<u64, AmmError>(AmmError::InsufficientLiquidity))
                &&& (res is Ok ==> res.unwrap() == old(self).swap_output(i, j, amount_in as int)
                    && 0 < res.unwrap() <= old(self).reserves@[j])
                &&& (res is Ok ==> final(self).reserves@ == old(self).swap_result(
                    i,
                    j,
                    amount_in as int,
                ))
                &&& (res is Ok && i != j ==> final(self).defect() == old(self).defect() + ({
                    let d = old(self).swap_disc(i, j, amount_in as int);
                    sqrt_floor(d) * sqrt_floor(d) - d
                }))
                &&& (res is Ok && i != j && abs_of(old(self).defect()) + 2 * (
                old(self).radius as int) + 2 * old(self).reserves@[j] <= old(self).inv_tol()
                    ==> final(self).inv_holds())
            }),
    {
        if amount_in == 0 {
            return Err(AmmError::InvalidAmount);
        }
        let i = match self.index_of(from) {
            Ok(i) => i,
            Err(e) => {
                return Err(e);
            },
        };
        let j = match self.index_of(to) {
            Ok(j) => j,
            Err(e) => {
                return Err(e);
            },
        };
        let a = self.reserves[i];
        let b = self.reserves[j];
        let r = self.radius;
        if a as u128 + amount_in as u128 > AMOUNT_LIMIT as u128 {
            return Err(AmmError::InvalidAmount);
        }
        let dx = amount_in as i128;
        let av: i128 = r as i128 - a as i128;
        let bv: i128 = r as i128 - b as i128;
        proof {
            assert(0 <= bv * bv <= 16_000_000_000_000_000_000_000_000i128) by (nonlinear_arith)
                requires
                    -1_000_000_000_000i128 <= bv <= 4_000_000_000_000i128,
            ;
            assert(-8_000_000_000_000_000_000_000_000i128 <= 2 * av * dx
                <= 8_000_000_000_000_000_000_000_000i128) by (nonlinear_arith)
                requires
                    -1_000_000_000_000i128 <= av <= 4_000_000_000_000i128,
                    0 < dx <= 1_000_000_000_000i128,
            ;
            assert(0 <= dx * dx <= 1_000_000_000_000_000_000_000_000i128) by (nonlinear_arith)
                requires
                    0 < dx <= 1_000_000_000_000i128,
            ;
        }
        let disc: i128 = bv * bv + 2 * av * dx - dx * dx;
        if disc < 0 {
            return Err(AmmError::ComplexSolution);
        }
        let sq128 = isqrt(disc as u128);
        proof {
            assert(disc <= 26_010_000_000_000_000_000_000_000i128) by (nonlinear_arith)
                requires
                    -1_000_000_000_000i128 <= av <= 4_000_000_000_000i128,
                    -1_000_000_000_000i128 <= bv <= 4_000_000_000_000i128,
                    0 < dx <= 1_000_000_000_000i128,
                    disc == bv * bv + 2 * av * dx - dx * dx,
            ;
            assert(26_010_000_000_000_000_000_000_000 == 5_100_000_000_000int
                * 5_100_000_000_000int) by (nonlinear_arith);
            lemma_sqrt_floor_le(disc as int, 5_100_000_000_000int);
        }
        let sq: i128 = sq128 as i128;
        let out: i128 = sq - bv;
        if out <= 0 || out > b as i128 {
            return Err(AmmError::InsufficientLiquidity);
        }
        let out_u: u64 = out as u64;
        let ghost old_xs = self.reserves@;
        self.reserves[i] = a + amount_in;
        let cur = self.reserves[j];
        self.reserves[j] = cur - out_u;
        proof {
            let rr = r as int;
            let mid = old_xs.update(i as int, (a + amount_in) as u64);
            assert(self.reserves@ =~= mid.update(j as int, (mid[j as int] - out) as u64));
            if i != j {
                lemma_dist_update(rr, old_xs, i as int, (a + amount_in) as u64);
                lemma_dist_update(rr, mid, j as int, (b - out) as u64);
                lemma_sum_update(old_xs, i as int, (a + amount_in) as u64);
                lemma_sum_update(mid, j as int, (b - out) as u64);
                let d1 = (rr - (a + amount_in)) * (rr - (a + amount_in)) - (rr - a) * (rr - a);
                let d2 = (rr - (b - out)) * (rr - (b - out)) - (rr - b) * (rr - b);
                assert(d1 + d2 == sq * sq - disc) by (nonlinear_arith)
                    requires
                        d1 == (rr - (a + amount_in)) * (rr - (a + amount_in)) - (rr - a) * (rr
                            - a),
                        d2 == (rr - (b - out)) * (rr - (b - out)) - (rr - b) * (rr - b),
                        disc == (rr - b) * (rr - b) + 2 * (rr - a) * (amount_in as int) - (
                        amount_in as int) * (amount_in as int),
                        out == sq - (rr - b),
                ;
                assert(sq * sq <= disc < (sq + 1) * (sq + 1));
                assert((sq + 1) * (sq + 1) == sq * sq + 2 * sq + 1) by (nonlinear_arith);
            }
        }
        Ok(out_u)
    }

    /// Spot price of `to` in units of `from`: `(r - x_to) / (r - x_from)`,
    /// as a fixed-point ratio in quanta per unit (`SCALE` means parity).
    pub fn get_spot_price(&self, from: &str, to: &str) -> (res: Result<i128, AmmError>)
        requires
            self.wf(),
        ensures
            res is Ok <==> has_token(self.names(), from@) && has_token(self.names(), to@)
                && self.radius != self.reserves@[first_index(self.names(), from@)],
            !(has_token(self.names(), from@) && has_token(self.names(), to@)) ==> res == Err::<
                i128,
                AmmError,
            >(AmmError::TokenNotFound),
            has_token(self.names(), from@) && has_token(self.names(), to@) && self.radius
                == self.reserves@[first_index(self.names(), from@)] ==> res == Err::<
                i128,
                AmmError,
            >(AmmError::DivisionByZero),
            res is Ok ==> res.unwrap() == div_trunc(
                ((self.radius - self.reserves@[first_index(self.names(), to@)]) as int) * (
                SCALE as int),
                (self.radius - self.reserves@[first_index(self.names(), from@)]) as int,
            ),
    {
        let i = match self.index_of(from) {
            Ok(i) => i,
            Err(e) => {
                return Err(e);
            },
        };
        let j = match self.index_of(to) {
            Ok(j) => j,
            Err(e) => {
                return Err(e);
            },
        };
        let denom: i128 = self.radius as i128 - self.reserves[i] as i128;
        if denom == 0 {
            return Err(AmmError::DivisionByZero);
        }
        let num: i128 = (self.radius as i128 - self.reserves[j] as i128) * (SCALE as i128);
        Ok(div_trunc_i128(num, denom))
    }

    /// Overwrite the reserves and re-solve the radius, the administrative
    /// path: the new reserve point is placed on its own sphere.
    pub fn set_reserves(&mut self, new_reserves: Vec<u64>) -> (res: Result<(), AmmError>)
        requires
            old(self).wf(),
        ensures
            final(self).wf(),
            final(self).token_names == old(self).token_names,
            res is Err ==> *final(self) == *old(self),
            res is Ok <==> new_reserves@.len() == old(self).token_names@.len() && (forall|k: int|
                0 <= k < new_reserves@.len() ==> new_reserves@[k] <= AMOUNT_LIMIT),
            new_reserves@.len() != old(self).token_names@.len() ==> res == Err::<(), AmmError>(
                AmmError::LengthMismatch,
            ),
            new_reserves@.len() == old(self).token_names@.len() && !(forall|k: int|
                0 <= k < new_reserves@.len() ==> new_reserves@[k] <= AMOUNT_LIMIT) ==> res
                == Err::<(), AmmError>(AmmError::InvalidAmount),
            res is Ok ==> final(self).reserves@ == new_reserves@ && final(self).radius as int
                == solved_radius(new_reserves@),
    {
        if new_reserves.len() != self.token_names.len() {
            return Err(AmmError::LengthMismatch);
        }
        let mut k: usize = 0;
        while k < new_reserves.len()
            invariant
                k <= new_reserves@.len(),
                *self == *old(self),
                old(self).wf(),
                new_reserves@.len() == old(self).token_names@.len(),
                forall|m: int| 0 <= m < k ==> new_reserves@[m] <= AMOUNT_LIMIT,
            decreases new_reserves@.len() - k,
        {
            if new_reserves[k] > AMOUNT_LIMIT {
                return Err(AmmError::InvalidAmount);
            }
            k += 1;
        }
        self.reserves = new_reserves;
        self.radius = solve_radius(&self.reserves);
        Ok(())
    }
}

/// Solve the radius from the reserves, clamping a negative discriminant to
/// zero as the liquidity paths do.
pub(crate) fn solve_radius(reserves: &Vec<u64>) -> (r: u64)
    requires
        reserves@.len() <= MAX_TOKENS,
        forall|k: int| 0 <= k < reserves@.len() ==> reserves@[k] <= AMOUNT_LIMIT,
    ensures
        r as int == solved_radius(reserves@),
        r <= RADIUS_LIMIT,
{
    proof {
        lemma_solved_radius_bounds(reserves@);
        lemma_sum_bounds(reserves@, AMOUNT_LIMIT as int);
    }
    let n = reserves.len();
    if n == 0 {
        return 0;
    }
    let s = sum_vec(reserves);
    if n == 1 {
        return s as u64;
    }
    let q = sum_sq_vec(reserves);
    proof {
        assert(4 * (s as int) * (s as int) <= 0x1000_0000_0000_0000_0000_0000_0000i128)
            by (nonlinear_arith)
            requires
                0 <= s <= 32_000_000_000_000i128,
        ;
        assert(4 * ((n - 1) as int) * (q as int) <= 0x1000_0000_0000_0000_0000_0000_0000i128)
            by (nonlinear_arith)
            requires
                0 <= q <= 32_000_000_000_000_000_000_000_000i128,
                0 <= (n - 1) as int <= 32,
        ;
    }
    let a = (n - 1) as u64;
    let disc: i128 = 4 * (s as i128) * (s as i128) - 4 * (a as i128) * (q as i128);
    let dc: u128 = if disc < 0 {
        0
    } else {
        disc as u128
    };
    let sq = isqrt(dc);
    proof {
        assert(4 * (s as int) * (s as int) == (2 * (s as int)) * (2 * (s as int)))
            by (nonlinear_arith);
        assert(dc <= 4 * (s as int) * (s as int)) by (nonlinear_arith)
            requires
                dc == (if disc < 0 {
                    0int
                } else {
                    disc as int
                }),
                disc == 4 * (s as int) * (s as int) - 4 * (a as int) * (q as int),
                a >= 1,
                q >= 0,
                s >= 0,
        ;
        lemma_sqrt_floor_le(dc as int, 2 * (s as int));
    }
    let r1 = (2 * s + sq as u128) / (2 * a as u128);
    let rr = if r1 > 0 {
        r1
    } else {
        (2 * s - sq as u128) / (2 * a as u128)
    };
    rr as u64
}

/// Hypersphere invariant value `sum_i (r - x_i)^2 - r^2`, which is zero when
/// the invariant is satisfied exactly.
pub fn sphere_invariant(reserves: &Vec<u64>, radius: u64) -> (d: i128)
    requires
        reserves@.len() <= MAX_TOKENS,
        forall|k: int| 0 <= k < reserves@.len() ==> reserves@[k] <= AMOUNT_LIMIT,
        radius <= RADIUS_LIMIT,
    ensures
        d == defect_of(radius as int, reserves@),
        -16_000_000_000_000_000_000_000_000 <= d <= 512_000_000_000_000_000_000_000_000,
{
    let r: i128 = radius as i128;
    let mut acc: i128 = 0;
    let mut k: usize = 0;
    while k < reserves.len()
        invariant
            reserves@.len() <= MAX_TOKENS,
            forall|m: int| 0 <= m < reserves@.len() ==> reserves@[m] <= AMOUNT_LIMIT,
            radius <= RADIUS_LIMIT,
            r == radius as i128,
            k <= reserves@.len(),
            acc == sum_dist_sq(r as int, reserves@.take(k as int)),
            0 <= acc <= k * 16_000_000_000_000_000_000_000_000,
        decreases reserves@.len() - k,
    {
        let x = reserves[k] as i128;
        proof {
            lemma_dist_take_succ(r as int, reserves@, k as int);
            assert(0 <= (r - x) * (r - x) <= 16_000_000_000_000_000_000_000_000i128)
                by (nonlinear_arith)
                requires
                    0 <= r <= 4_000_000_000_000i128,
                    0 <= x <= 1_000_000_000_000i128,
            ;
        }
        acc = acc + (r - x) * (r - x);
        k += 1;
    }
    proof {
        lemma_dist_take_full(r as int, reserves@);
        assert(0 <= r * r <= 16_000_000_000_000_000_000_000_000i128) by (nonlinear_arith)
            requires
                0 <= r <= 4_000_000_000_000i128,
        ;
    }
    acc - r * r
}

/// Magnitude of the projection of the reserves onto the uniform direction
/// `(1, 1, ..., 1) / sqrt(n)`: the floored square root of `(sum x)^2 / n`.
pub open spec fn parallel_mag_of(xs: Seq<u64>) -> int {
    if xs.len() == 0 {
        0
    } else {
        sqrt_floor((sum_of(xs) * sum_of(xs)) / (xs.len() as int))
    }
}

/// Decompose the reserves into the magnitude of their component along the
/// uniform direction and the orthogonal remainder `x_i - (sum x) / n`.
pub fn decompose_reserves(reserves: &Vec<u64>) -> (res: (u64, Vec<i64>))
    requires
        reserves@.len() <= MAX_TOKENS,
        forall|k: int| 0 <= k < reserves@.len() ==> reserves@[k] <= AMOUNT_LIMIT,
    ensures
        res.0 as int == parallel_mag_of(reserves@),
        res.1@.len() == reserves@.len(),
        forall|k: int|
            0 <= k < reserves@.len() ==> res.1@[k] as int == reserves@[k] - sum_of(reserves@)
                / (reserves@.len() as int),
{
    let n = reserves.len();
    if n == 0 {
        return (0, Vec::new());
    }
    proof {
        lemma_sum_bounds(reserves@, AMOUNT_LIMIT as int);
    }
    let s = sum_vec(reserves);
    proof {
        assert(s * s <= 1_048_576_000_000_000_000_000_000_000u128) by (nonlinear_arith)
            requires
                0 <= s <= 32_000_000_000_000u128,
        ;
    }
    let mag128 = isqrt((s * s) / (n as u128));
    proof {
        lemma_div_pos_is_pos((s * s) as int, n as int);
        assert(((s * s) as int) / (n as int) <= (s as int) * (s as int)) by {
            lemma_div_is_ordered_by_denominator_helper((s * s) as int, 1, n as int);
        }
        lemma_sqrt_floor_le(((s * s) as int) / (n as int), s as int);
    }
    let p128 = s / (n as u128);
    proof {
        lemma_div_is_ordered(s as int, (n as u128) * (AMOUNT_LIMIT as u128), n as int);
        vstd::arithmetic::div_mod::lemma_div_multiples_vanish(AMOUNT_LIMIT as int, n as int);
        assert((n as int) * (AMOUNT_LIMIT as int) == n * AMOUNT_LIMIT);
    }
    let p: i64 = p128 as i64;
    let mut orth: Vec<i64> = Vec::new();
    let mut k: usize = 0;
    while k < reserves.len()
        invariant
            k <= reserves@.len(),
            forall|m: int| 0 <= m < reserves@.len() ==> reserves@[m] <= AMOUNT_LIMIT,
            0 <= p <= AMOUNT_LIMIT,
            p as int == sum_of(reserves@) / (reserves@.len() as int),
            orth@.len() == k,
            forall|m: int|
                0 <= m < k ==> orth@[m] as int == reserves@[m] - sum_of(reserves@) / (
                reserves@.len() as int),
        decreases reserves@.len() - k,
    {
        orth.push(reserves[k] as i64 - p);
        k += 1;
    }
    (mag128 as u64, orth)
}

/// Equal-price point `q = r (1 - 1 / sqrt(n))`, in quanta.
pub fn equal_price_point(radius: u64, n_tokens: usize) -> (q: u64)
    ensures
        n_tokens == 0 ==> q == 0,
        n_tokens >= 1 ==> q as int == radius - (radius * SCALE) / sqrt_floor(
            n_tokens * (SCALE * SCALE),
        ),
{
    if n_tokens == 0 {
        return 0;
    }
    let m: u128 = (n_tokens as u128) * (SCALE as u128) * (SCALE as u128);
    let root = isqrt(m);
    proof {
        assert((SCALE * SCALE) as int <= m) by (nonlinear_arith)
            requires
                m == (n_tokens as int) * ((SCALE * SCALE) as int),
                n_tokens >= 1,
        ;
        assert((SCALE as int) * (SCALE as int) == (SCALE * SCALE) as int);
        // sqrt(m) >= SCALE, since SCALE^2 <= m.
        lemma_sqrt_floor_props(m as int);
        if root < SCALE {
            assert((root + 1) * (root + 1) <= (SCALE as int) * (SCALE as int))
                by (nonlinear_arith)
                requires
                    0 <= root,
                    root + 1 <= SCALE,
            ;
        }
        assert(root >= SCALE);
    }
    let scaled: u128 = (radius as u128) * (SCALE as u128);
    let frac: u128 = scaled / root;
    proof {
        lemma_div_is_ordered_by_denominator_helper(scaled as int, SCALE as int, root as int);
    }
    radius - (frac as u64)
}

/// For a fixed non-negative numerator, a larger denominator gives a smaller
/// quotient.
proof fn lemma_div_is_ordered_by_denominator_helper(x: int, d1: int, d2: int)
    requires
        0 <= x,
        1 <= d1 <= d2,
    ensures
        x / d2 <= x / d1,
{
    vstd::arithmetic::div_mod::lemma_div_is_ordered_by_denominator(x, d1, d2);
}

} // verus!
