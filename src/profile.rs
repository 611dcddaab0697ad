//! Profiles: matrices of per-element values on a uniform time grid.
use vstd::arithmetic::div_mod::{
    lemma_fundamental_div_mod, lemma_hoist_over_denominator, lemma_mod_multiples_basic,
};
use vstd::prelude::*;

use crate::arith::{
    lemma_ceil_div, lemma_cell_distinct, lemma_cell_index, lemma_floor_div, lemma_product_nonneg, lemma_row_shift,
    lemma_scale_le,
};

verus! {

/// A profile of a platform.
///
/// Row `r` covers the time interval `[time + r * time_step, time + (r + 1) *
/// time_step)`, and the cell `(r, u)` holds the energy that the processing
/// element `u` takes in over that interval, in units of power times ticks:
/// the average power over the row is the cell divided by `time_step`.
#[derive(Clone, Debug)]
pub struct Profile {
    /// The number of processing elements.
    pub element_count: usize,
    /// The number of time steps.
    pub step_count: usize,
    /// The beginning of the time interval.
    pub time: u64,
    /// The time step (sampling interval).
    pub time_step: u64,
    /// The data, row by row.
    pub data: Vec<u64>,
}

impl Profile {
    /// The shape invariant: one value per cell, a positive step and a start
    /// on the grid.
    pub open spec fn wf(&self) -> bool {
        &&& self.time_step > 0
        &&& self.data@.len() == self.step_count * self.element_count
        &&& self.time % self.time_step == 0
    }

    /// The value of the cell of the row `r` and the element `u`.
    pub open spec fn cell(&self, r: int, u: int) -> int {
        self.data@[r * self.element_count + u] as int
    }

    /// The sum of the first `rows` cells of the column of the element `u`.
    pub open spec fn column_sum(&self, u: int, rows: int) -> int
        decreases rows,
    {
        if rows <= 0 {
            0
        } else {
            self.column_sum(u, rows - 1) + self.cell(rows - 1, u)
        }
    }

    /// Whether two profiles cover the same grid with the same elements.
    pub open spec fn same_shape(&self, other: &Profile) -> bool {
        &&& self.element_count == other.element_count
        &&& self.step_count == other.step_count
        &&& self.time == other.time
        &&& self.time_step == other.time_step
    }

    /// Create an empty profile starting at time zero.
    pub fn new(element_count: usize, time_step: u64) -> (r: Profile)
        requires
            time_step > 0,
        ensures
            r.wf(),
            r.element_count == element_count,
            r.step_count == 0,
            r.time == 0,
            r.time_step == time_step,
            r.data@.len() == 0,
    {
        assert(0 * element_count == 0) by (nonlinear_arith);
        assert(0u64 % time_step == 0) by (nonlinear_arith)
            requires
                time_step > 0,
        ;
        Profile { element_count, step_count: 0, time: 0, time_step, data: Vec::new() }
    }

    /// Create a copy with the same shape whose data are all zero.
    pub fn clone_zero(&self) -> (r: Profile)
        requires
            self.wf(),
        ensures
            r.wf(),
            r.same_shape(self),
            r.data@.len() == self.data@.len(),
            forall|i: int| 0 <= i < r.data@.len() ==> r.data@[i] == 0,
    {
        let count = self.data.len();
        Profile {
            element_count: self.element_count,
            step_count: self.step_count,
            time: self.time,
            time_step: self.time_step,
            data: vec![0u64; count],
        }
    }

    /// Append `more` rows, each a copy of `fill`.
    fn extend(&mut self, more: usize, fill: &Vec<u64>)
        requires
            old(self).wf(),
            fill@.len() == old(self).element_count,
            old(self).step_count + more <= usize::MAX,
            (old(self).step_count + more) * old(self).element_count <= usize::MAX,
        ensures
            final(self).wf(),
            final(self).element_count == old(self).element_count,
            final(self).step_count == old(self).step_count + more,
            final(self).time == old(self).time,
            final(self).time_step == old(self).time_step,
            final(self).data@ == old(self).data@ + repeat(fill@, more as nat),
    {
        let n = self.element_count;
        let ghost d0 = self.data@;
        let mut k: usize = 0;
        while k < more
            invariant
                0 <= k <= more,
                old(self).wf(),
                old(self).step_count + more <= usize::MAX,
                n == self.element_count,
                n == fill@.len(),
                (old(self).step_count + more) * n <= usize::MAX,
                old(self).data@.len() == old(self).step_count * n,
                d0 == old(self).data@,
                self.element_count == old(self).element_count,
                self.step_count == old(self).step_count,
                self.time == old(self).time,
                self.time_step == old(self).time_step,
                self.data@ == d0 + repeat(fill@, k as nat),
            decreases more - k,
        {
            proof {
                lemma_repeat_len(fill@, k as nat);
                lemma_row_shift(old(self).step_count as int, k as int, n as int);
                lemma_row_shift(old(self).step_count + k, 1, n as int);
                lemma_scale_le(old(self).step_count + k + 1, old(self).step_count + more, n as int);
            }
            let mut u: usize = 0;
            while u < n
                invariant
                    0 <= k < more,
                    0 <= u <= n,
                    n == fill@.len(),
                    self.element_count == old(self).element_count,
                    self.step_count == old(self).step_count,
                    self.time == old(self).time,
                    self.time_step == old(self).time_step,
                    d0.len() + k * n + n <= usize::MAX,
                    self.data@ == d0 + repeat(fill@, k as nat) + fill@.subrange(0, u as int),
                    repeat(fill@, k as nat).len() == k * n,
                decreases n - u,
            {
                self.data.push(fill[u]);
                proof {
                    assert(fill@.subrange(0, u + 1) =~= fill@.subrange(0, u as int).push(fill@[u as int]));
                    assert(self.data@ =~= d0 + repeat(fill@, k as nat) + fill@.subrange(0, u + 1));
                }
                u += 1;
            }
            proof {
                assert(fill@.subrange(0, n as int) =~= fill@);
                assert(self.data@ =~= d0 + repeat(fill@, (k + 1) as nat));
            }
            k += 1;
        }
        proof {
            lemma_repeat_len(fill@, more as nat);
            lemma_row_shift(old(self).step_count as int, more as int, n as int);
        }
        self.step_count = self.step_count + more;

    }
}

/// The length of the overlap of the intervals `[a, b)` and `[c, d)`.
pub open spec fn overlap(a: int, b: int, c: int, d: int) -> int {
    let lo = if a < c { c } else { a };
    let hi = if b < d { b } else { d };
    if lo < hi { hi - lo } else { 0 }
}

/// What the first `k` samples of `values` put into the row `r` of a grid of
/// step `dr`: the sample `j` covers `[x + j * dx, x + j * dx + dx)` and
/// deposits its value times the length of its overlap with the row, so that
/// the area under the samples is kept. Offsets are taken from the start of
/// the grid.
pub open spec fn deposit(dr: int, x: int, dx: int, values: Seq<u64>, k: int, r: int) -> int
    decreases k,
{
    if k <= 0 {
        0
    } else {
        deposit(dr, x, dx, values, k - 1, r) + overlap(
            r * dr,
            r * dr + dr,
            x + (k - 1) * dx,
            x + (k - 1) * dx + dx,
        ) * values[k - 1]
    }
}

/// Taking in more samples never lowers a deposit.
pub proof fn lemma_deposit_monotone(dr: int, x: int, dx: int, values: Seq<u64>, k: int, m: int, r: int)
    requires
        0 <= k <= m <= values.len(),
    ensures
        0 <= deposit(dr, x, dx, values, k, r) <= deposit(dr, x, dx, values, m, r),
    decreases m - k, k,
{
    if k < m {
        lemma_deposit_monotone(dr, x, dx, values, k, m - 1, r);
        lemma_product_nonneg(
            overlap(r * dr, r * dr + dr, x + (m - 1) * dx, x + (m - 1) * dx + dx),
            values[m - 1] as int,
        );
    } else if k > 0 {
        lemma_deposit_monotone(dr, x, dx, values, k - 1, k - 1, r);
        lemma_product_nonneg(
            overlap(r * dr, r * dr + dr, x + (k - 1) * dx, x + (k - 1) * dx + dx),
            values[k - 1] as int,
        );
    }
}

/// A row that lies wholly after the first `k` samples, or wholly before the
/// first of them, gets nothing from them.
pub proof fn lemma_deposit_outside(dr: int, x: int, dx: int, values: Seq<u64>, k: int, r: int)
    requires
        0 <= k <= values.len(),
        0 < dx,
        x + k * dx <= r * dr || r * dr + dr <= x,
    ensures
        deposit(dr, x, dx, values, k, r) == 0,
    decreases k,
{
    if k > 0 {
        lemma_scale_le(k - 1, k, dx);
        lemma_product_nonneg(k - 1, dx);
        assert((k - 1) * dx + dx == k * dx) by (nonlinear_arith);
        lemma_deposit_outside(dr, x, dx, values, k - 1, r);
    }
}

/// A builder of profiles.
///
/// Values are pushed onto a dense grid at arbitrary times and with arbitrary
/// sampling intervals; the grid is extended on demand with copies of `fill`,
/// and its leading rows are pulled out as profiles.
pub struct ProfileBuilder {
    profile: Profile,
    fill: Vec<u64>,
}

impl ProfileBuilder {
    /// The grid accumulated so far; its `time` is the earliest time not yet
    /// pulled.
    pub closed spec fn spec_profile(&self) -> Profile {
        self.profile
    }

    /// The contents of each new row.
    pub closed spec fn spec_fill(&self) -> Seq<u64> {
        self.fill@
    }

    /// The invariant of a builder.
    pub open spec fn wf(&self) -> bool {
        &&& self.spec_profile().wf()
        &&& self.spec_fill().len() == self.spec_profile().element_count
    }

    /// The cell `(r, u)` as it is, or as it will be once the grid is extended
    /// past the row `r`.
    pub open spec fn padded(&self, r: int, u: int) -> int {
        if r < self.spec_profile().step_count {
            self.spec_profile().cell(r, u)
        } else {
            self.spec_fill()[u] as int
        }
    }

    /// The number of rows needed to hold `len` samples of step `dx` starting
    /// at `time`.
    pub open spec fn rows_reached(&self, time: int, dx: int, len: int) -> int {
        let dr = self.spec_profile().time_step as int;
        (time - self.spec_profile().time + len * dx + dr - 1) / dr
    }

    /// The number of whole rows between the start of the grid and `time`.
    pub open spec fn rows_until(&self, time: int) -> int {
        (time - self.spec_profile().time) / (self.spec_profile().time_step as int)
    }

    /// What a push of `values` at `time` with step `dx` adds to the cell
    /// `(r, u)` of the element `unit`.
    pub open spec fn pushed(&self, unit: int, time: int, dx: int, values: Seq<u64>, r: int, u: int) -> int {
        if u == unit {
            deposit(
                self.spec_profile().time_step as int,
                time - self.spec_profile().time,
                dx,
                values,
                values.len() as int,
                r,
            )
        } else {
            0
        }
    }

    /// `after` is `before` once `values`, sampled every `dx` from `time` on,
    /// were pushed onto the element `unit`: the grid reaches past the last
    /// sample, and each cell holds what it held, or `fill` for a new row,
    /// plus what the samples deposit into it.
    pub open spec fn pushed_onto(
        before: ProfileBuilder,
        after: ProfileBuilder,
        unit: int,
        time: int,
        dx: int,
        values: Seq<u64>,
    ) -> bool {
        let p = before.spec_profile();
        let q = after.spec_profile();
        let reached = before.rows_reached(time, dx, values.len() as int);
        &&& after.wf()
        &&& after.spec_fill() == before.spec_fill()
        &&& q.element_count == p.element_count
        &&& q.time == p.time
        &&& q.time_step == p.time_step
        &&& q.step_count == if reached > p.step_count {
            reached
        } else {
            p.step_count as int
        }
        &&& forall|r: int, u: int|
            0 <= r < q.step_count && 0 <= u < q.element_count ==> #[trigger] q.cell(r, u)
                == before.padded(r, u) + before.pushed(unit, time, dx, values, r, u)
    }

    /// `after` is `before` advanced to `time`, and `out` holds the whole rows
    /// before `time`: `out` starts where `before` started, and `after` holds
    /// the rows that follow, starting at the last multiple of the time step
    /// not after `time`.
    pub open spec fn pulled(before: ProfileBuilder, after: ProfileBuilder, time: int, out: Profile) -> bool {
        let p = before.spec_profile();
        let q = after.spec_profile();
        let k = before.rows_until(time);
        &&& after.wf()
        &&& out.wf()
        &&& after.spec_fill() == before.spec_fill()
        &&& out.element_count == p.element_count
        &&& out.step_count == k
        &&& out.time == p.time
        &&& out.time_step == p.time_step
        &&& forall|i: int, u: int|
            0 <= i < out.step_count && 0 <= u < out.element_count ==> #[trigger] out.cell(i, u)
                == before.padded(i, u)
        &&& q.element_count == p.element_count
        &&& q.time_step == p.time_step
        &&& q.time == (time / (p.time_step as int)) * p.time_step
        &&& q.time == p.time + k * p.time_step
        &&& q.step_count == if p.step_count > k {
            p.step_count - k
        } else {
            0
        }
        &&& forall|i: int, u: int|
            0 <= i < q.step_count && 0 <= u < q.element_count ==> #[trigger] q.cell(i, u)
                == before.padded(i + k, u)
    }

    /// Create a builder with an empty grid starting at time zero.
    pub fn new(element_count: usize, time_step: u64, fill: Vec<u64>) -> (r: ProfileBuilder)
        requires
            time_step > 0,
            fill@.len() == element_count,
        ensures
            r.wf(),
            r.spec_profile().element_count == element_count,
            r.spec_profile().step_count == 0,
            r.spec_profile().time == 0,
            r.spec_profile().time_step == time_step,
            r.spec_fill() == fill@,
    {
        ProfileBuilder { profile: Profile::new(element_count, time_step), fill }
    }

    /// Return the grid accumulated so far.
    pub fn profile(&self) -> (r: &Profile)
        ensures
            *r == self.spec_profile(),
    {
        &self.profile
    }

    /// Return the contents of each new row.
    pub fn fill(&self) -> (r: &Vec<u64>)
        ensures
            r@ == self.spec_fill(),
    {
        &self.fill
    }

    /// Whether a push of `values` at `time` with step `dx` onto the element
    /// `unit` stays within the machine's integers: the times and the grid
    /// size fit, and no cell of the element overflows.
    pub open spec fn push_fits(&self, unit: int, time: int, dx: int, values: Seq<u64>) -> bool {
        let reached = self.rows_reached(time, dx, values.len() as int);
        &&& time + values.len() * dx + self.spec_profile().time_step <= u64::MAX
        &&& reached * self.spec_profile().element_count <= usize::MAX
        &&& forall|r: int|
            0 <= r < reached ==> #[trigger] self.padded(r, unit) + self.pushed(unit, time, dx, values, r, unit)
                <= u64::MAX
    }

    /// Check whether a push stays within the machine's integers.
    pub fn fits(&self, element_id: usize, time: u64, time_step: u64, data: &[u64]) -> (r: bool)
        requires
            self.wf(),
            element_id < self.spec_profile().element_count,
            self.spec_profile().time <= time,
            time_step > 0,
        ensures
            r == self.push_fits(element_id as int, time as int, time_step as int, data@),
    {
        let n = self.profile.element_count;
        let d1 = self.profile.time_step;
        let d2 = time_step;
        let s2 = data.len();
        let x = time - self.profile.time;
        if s2 as u64 > (u64::MAX - time) / d2 {
            proof {
                assert(s2 * d2 > u64::MAX - time) by (nonlinear_arith)
                    requires
                        s2 > (u64::MAX - time) / d2 as int,
                        d2 > 0,
                ;
            }
            return false;
        }
        proof {
            assert(s2 * d2 <= u64::MAX - time) by (nonlinear_arith)
                requires
                    s2 <= (u64::MAX - time) / d2 as int,
                    d2 > 0,
                    time <= u64::MAX,
            ;
        }
        let end = time + (s2 as u64) * d2;
        if end > u64::MAX - d1 {
            return false;
        }
        let reach = x + (s2 as u64) * d2;
        proof {
            lemma_product_nonneg(s2 as int, d2 as int);
            lemma_ceil_div(reach as int, d1 as int);
        }
        let s1 = (reach + d1 - 1) / d1;
        if s1 > usize::MAX as u64 / (n as u64) {
            proof {
                assert(s1 * n > usize::MAX) by (nonlinear_arith)
                    requires
                        s1 > usize::MAX as int / n as int,
                        n > 0,
                ;
            }
            return false;
        }
        proof {
            assert(s1 * n <= usize::MAX) by (nonlinear_arith)
                requires
                    s1 <= usize::MAX as int / n as int,
                    n > 0,
            ;
        }
        let rows = s1 as usize;
        let len = self.profile.data.len();
        let mut r: usize = 0;
        while r < rows
            invariant
                self.wf(),
                len == self.spec_profile().data@.len(),
                reach == x + s2 * d2,
                s1 * d1 <= reach + d1 - 1,
                n == self.spec_profile().element_count,
                d1 == self.spec_profile().time_step,
                element_id < n,
                d1 > 0,
                d2 > 0,
                d2 == time_step,
                s2 == data@.len(),
                x == time - self.spec_profile().time,
                rows == s1,
                rows * n <= usize::MAX,
                s1 == self.rows_reached(time as int, time_step as int, data@.len() as int),
                time + s2 * d2 + d1 <= u64::MAX,
                0 <= r <= rows,
                forall|k: int| 0 <= k < r ==> #[trigger] self.padded(k, element_id as int) + self.pushed(
                    element_id as int,
                    time as int,
                    time_step as int,
                    data@,
                    k,
                    element_id as int,
                ) <= u64::MAX,
            decreases rows - r,
        {
            let base: u64 = if r < self.profile.step_count {
                proof {
                    lemma_cell_index(r as int, element_id as int, n as int, self.profile.step_count as int);
                }
                self.profile.data[r * n + element_id]
            } else {
                self.fill[element_id]
            };
            proof {
                lemma_scale_le(r as int + 1, s1 as int, d1 as int);
                assert((r + 1) * d1 == r * d1 + d1) by (nonlinear_arith);
                lemma_ceil_div(reach as int, d1 as int);
                lemma_product_nonneg(r as int, d1 as int);
            }
            let l1 = (r as u64) * d1;
            let r1 = l1 + d1;
            let mut acc: u64 = 0;
            let mut j: usize = 0;
            while j < s2
                invariant
                    0 <= j <= s2,
                    s2 == data@.len(),
                    d2 > 0,
                    d1 > 0,
                    l1 == r * d1,
                    r1 == l1 + d1,
                    x + s2 * d2 <= u64::MAX,
                    acc == deposit(d1 as int, x as int, d2 as int, data@, j as int, r as int),
                    base + acc <= u64::MAX,
                    self.wf(),
                    element_id < self.spec_profile().element_count,
                    base == self.padded(r as int, element_id as int),
                    x == time - self.spec_profile().time,
                    d1 == self.spec_profile().time_step,
                    d2 == time_step,
                    r < s1,
                    s1 == self.rows_reached(time as int, time_step as int, data@.len() as int),
                decreases s2 - j,
            {
                proof {
                    lemma_scale_le(j + 1, s2 as int, d2 as int);
                    assert((j + 1) * d2 == j * d2 + d2) by (nonlinear_arith);
                    lemma_product_nonneg(j as int, d2 as int);
                }
                let l2 = x + (j as u64) * d2;
                let r2 = l2 + d2;
                let lo = if l1 < l2 { l2 } else { l1 };
                let hi = if r1 < r2 { r1 } else { r2 };
                let w: u64 = if lo < hi { hi - lo } else { 0 };
                let v = data[j];
                proof {
                    assert((w as u128) * (v as u128) <= u128::MAX) by (nonlinear_arith)
                        requires
                            w <= u64::MAX,
                            v <= u64::MAX,
                    ;
                }
                let product = (w as u128) * (v as u128);
                proof {
                    assert(product == overlap(r * d1, r * d1 + d1, x + j * d2, x + j * d2 + d2) * data@[j as int]);
                    assert(deposit(d1 as int, x as int, d2 as int, data@, j + 1, r as int) == acc + product);
                    lemma_product_nonneg(w as int, data@[j as int] as int);
                }
                if product > (u64::MAX - base - acc) as u128 {
                    proof {
                        lemma_deposit_monotone(d1 as int, x as int, d2 as int, data@, j + 1, s2 as int, r as int);
                        assert(self.padded(r as int, element_id as int) == base);
                        assert(self.pushed(element_id as int, time as int, time_step as int, data@, r as int, element_id as int)
                            == deposit(d1 as int, x as int, d2 as int, data@, s2 as int, r as int));
                        assert(!(self.padded(r as int, element_id as int) + self.pushed(
                            element_id as int,
                            time as int,
                            time_step as int,
                            data@,
                            r as int,
                            element_id as int,
                        ) <= u64::MAX));
                    }
                    return false;
                }
                acc = acc + product as u64;
                j += 1;
            }
            proof {
                assert(self.padded(r as int, element_id as int) == base);
                assert(self.pushed(element_id as int, time as int, time_step as int, data@, r as int, element_id as int)
                    == acc);
            }
            r += 1;
        }
        true
    }

    /// Extend the grid with copies of `fill` up to `rows` rows.
    fn pad(&mut self, rows: usize)
        requires
            old(self).wf(),
            rows * old(self).spec_profile().element_count <= usize::MAX,
        ensures
            final(self).wf(),
            final(self).spec_fill() == old(self).spec_fill(),
            final(self).spec_profile().element_count == old(self).spec_profile().element_count,
            final(self).spec_profile().time == old(self).spec_profile().time,
            final(self).spec_profile().time_step == old(self).spec_profile().time_step,
            final(self).spec_profile().step_count == if rows > old(self).spec_profile().step_count {
                rows as int
            } else {
                old(self).spec_profile().step_count as int
            },
            forall|r: int, u: int|
                0 <= r < final(self).spec_profile().step_count && 0 <= u
                    < final(self).spec_profile().element_count ==> #[trigger] final(self).spec_profile().cell(r, u)
                    == old(self).padded(r, u),
    {
        let ghost n = self.profile.element_count as int;
        let ghost s0 = self.profile.step_count as int;
        if rows > self.profile.step_count {
            let more = rows - self.profile.step_count;
            self.profile.extend(more, &self.fill);
            proof {
                lemma_repeat_len(old(self).fill@, more as nat);
                assert forall|r: int, u: int| 0 <= r < rows && 0 <= u < n implies #[trigger] self.profile.cell(r, u)
                    == old(self).padded(r, u) by {
                    lemma_cell_index(r, u, n, rows as int);
                    if r >= s0 {
                        lemma_repeat_index(old(self).fill@, more as nat, r - s0, u);
                        lemma_row_shift(r - s0, s0, n);
                    } else {
                        lemma_cell_index(r, u, n, s0);
                    }
                }
            }
        }
    }

    /// Advance the grid to `time` and return the whole rows before it.
    ///
    /// The grid is first extended with `fill` to reach `time`; the returned
    /// profile starts where the grid started, and the grid then starts at the
    /// last multiple of the time step not after `time`.
    pub fn pull(&mut self, time: u64) -> (r: Profile)
        requires
            old(self).wf(),
            old(self).spec_profile().time <= time,
            old(self).rows_until(time as int) <= usize::MAX,
            old(self).rows_until(time as int) * old(self).spec_profile().element_count <= usize::MAX,
        ensures
            ProfileBuilder::pulled(*old(self), *final(self), time as int, r),
    {
        let n = self.profile.element_count;
        let d1 = self.profile.time_step;
        let t1 = self.profile.time;
        let ghost m = t1 / d1;
        proof {
            lemma_floor_div((time - t1) as int, d1 as int);
            lemma_fundamental_div_mod(t1 as int, d1 as int);
            lemma_hoist_over_denominator((time - t1) as int, m as int, d1 as nat);
            assert(m * d1 == d1 * m) by (nonlinear_arith);
            assert(((time - t1) / d1 as int + m) * d1 == ((time - t1) / d1 as int) * d1 + m * d1)
                by (nonlinear_arith);
            lemma_mod_multiples_basic((time / d1) as int, d1 as int);
        }
        let k = ((time - t1) / d1) as usize;
        self.pad(k);
        let ghost padded = self.profile;
        let rows = self.profile.step_count;
        proof {
            lemma_scale_le(k as int, rows as int, n as int);
        }
        let rest = self.profile.data.split_off(k * n);
        let mut ahead = Profile {
            element_count: n,
            step_count: rows - k,
            time: (time / d1) * d1,
            time_step: d1,
            data: rest,
        };
        proof {
            lemma_row_shift((rows - k) as int, k as int, n as int);
        }
        self.profile.step_count = k;
        std::mem::swap(&mut self.profile, &mut ahead);
        proof {
            assert forall|i: int, u: int| 0 <= i < k && 0 <= u < n implies #[trigger] ahead.cell(i, u)
                == old(self).padded(i, u) by {
                lemma_cell_index(i, u, n as int, k as int);
                lemma_cell_index(i, u, n as int, rows as int);
                assert(padded.cell(i, u) == old(self).padded(i, u));
            }
            assert forall|i: int, u: int| 0 <= i < rows - k && 0 <= u < n implies #[trigger] self.profile.cell(i, u)
                == old(self).padded(i + k, u) by {
                lemma_cell_index(i, u, n as int, (rows - k) as int);
                lemma_cell_index(i + k, u, n as int, rows as int);
                lemma_row_shift(i, k as int, n as int);
                assert(padded.cell(i + k, u) == old(self).padded(i + k, u));
            }
        }
        ahead
    }

    /// Add the samples `data`, taken every `time_step` from `time` on, to the
    /// processing element `element_id`.
    ///
    /// The grid is first extended to cover the samples; then each sample
    /// adds its value times its overlap with a row to that row.
    pub fn push(&mut self, element_id: usize, time: u64, time_step: u64, data: &[u64])
        requires
            old(self).wf(),
            element_id < old(self).spec_profile().element_count,
            old(self).spec_profile().time <= time,
            time_step > 0,
            old(self).push_fits(element_id as int, time as int, time_step as int, data@),
        ensures
            ProfileBuilder::pushed_onto(
                *old(self),
                *final(self),
                element_id as int,
                time as int,
                time_step as int,
                data@,
            ),
    {
        let n = self.profile.element_count;
        let d1 = self.profile.time_step;
        let d2 = time_step;
        let s2 = data.len();
        let x = time - self.profile.time;
        proof {
            lemma_product_nonneg(s2 as int, d2 as int);
            lemma_ceil_div(x + s2 * d2, d1 as int);
        }
        let reach = x + (s2 as u64) * d2;
        proof {
            let q = (reach + d1 - 1) / (d1 as int);
            assert(q == old(self).rows_reached(time as int, time_step as int, data@.len() as int));
            assert(q <= q * n) by (nonlinear_arith)
                requires
                    n >= 1,
                    q >= 0,
            ;
        }
        let s1 = ((reach + d1 - 1) / d1) as usize;
        assert(s1 == old(self).rows_reached(time as int, time_step as int, data@.len() as int));
        self.pad(s1);
        let ghost rows = self.profile.step_count as int;
        let total = self.profile.data.len();
        let ghost vals = data@;
        let mut j2: usize = 0;
        while j2 < s2
            invariant
                self.wf(),
                n == self.profile.element_count,
                n == old(self).spec_profile().element_count,
                d1 == self.profile.time_step,
                d1 > 0,
                d2 > 0,
                s2 == vals.len(),
                vals == data@,
                x == time - old(self).spec_profile().time,
                element_id < n,
                0 <= j2 <= s2,
                s1 <= rows,
                rows == self.profile.step_count,
                total == rows * n,
                x + s2 * d2 <= s1 * d1,
                s1 * d1 <= x + s2 * d2 + d1 - 1,
                x + s2 * d2 + d1 <= u64::MAX,
                self.fill@ == old(self).fill@,
                self.profile.time == old(self).spec_profile().time,
                forall|r: int|
                    0 <= r < s1 ==> #[trigger] old(self).padded(r, element_id as int) + deposit(
                        d1 as int,
                        x as int,
                        d2 as int,
                        vals,
                        s2 as int,
                        r,
                    ) <= u64::MAX,
                forall|r: int, u: int|
                    0 <= r < rows && 0 <= u < n ==> #[trigger] self.profile.cell(r, u) == old(self).padded(r, u)
                        + if u == element_id {
                        deposit(d1 as int, x as int, d2 as int, vals, j2 as int, r)
                    } else {
                        0
                    },
            decreases s2 - j2,
        {
            proof {
                lemma_scale_le(j2 + 1, s2 as int, d2 as int);
                assert((j2 + 1) * d2 == j2 * d2 + d2) by (nonlinear_arith);
            }
            let l2 = x + (j2 as u64) * d2;
            let r2 = l2 + d2;
            proof {
                lemma_floor_div(l2 as int, d1 as int);
                if l2 / d1 >= s1 {
                    lemma_scale_le(s1 as int, (l2 / d1) as int, d1 as int);
                }
            }
            let first = (l2 / d1) as usize;
            let mut j1 = first;
            while j1 < s1 && (j1 as u64) * d1 < r2
                invariant
                    self.wf(),
                    n == self.profile.element_count,
                    d1 == self.profile.time_step,
                    d1 > 0,
                    d2 > 0,
                    s2 == vals.len(),
                    element_id < n,
                    0 <= j2 < s2,
                    vals == data@,
                    self.fill@ == old(self).fill@,
                    self.profile.time == old(self).spec_profile().time,
                    first <= j1,
                    j1 <= s1,
                    j1 * d1 <= s1 * d1,
                    total == rows * n,
                    first * d1 <= l2,
                    l2 < first * d1 + d1,
                    l2 == x + j2 * d2,
                    r2 == l2 + d2,
                    s1 <= rows,
                    rows == self.profile.step_count,
                    x + s2 * d2 <= s1 * d1,
                    s1 * d1 <= x + s2 * d2 + d1 - 1,
                    x + s2 * d2 + d1 <= u64::MAX,
                    r2 <= x + s2 * d2,
                    forall|r: int|
                        0 <= r < s1 ==> #[trigger] old(self).padded(r, element_id as int) + deposit(
                            d1 as int,
                            x as int,
                            d2 as int,
                            vals,
                            s2 as int,
                            r,
                        ) <= u64::MAX,
                    forall|r: int, u: int|
                        0 <= r < rows && 0 <= u < n ==> #[trigger] self.profile.cell(r, u)
                            == old(self).padded(r, u) + if u == element_id {
                            deposit(d1 as int, x as int, d2 as int, vals, j2 as int, r) + if first <= r < j1 {
                                overlap(r * d1, r * d1 + d1, l2 as int, r2 as int) * vals[j2 as int]
                            } else {
                                0
                            }
                        } else {
                            0
                        },
                decreases s1 - j1,
            {
                proof {
                    lemma_scale_le(first as int, j1 as int, d1 as int);
                    lemma_scale_le(j1 + 1, s1 as int, d1 as int);
                    lemma_cell_index(j1 as int, element_id as int, n as int, rows);
                    lemma_deposit_monotone(d1 as int, x as int, d2 as int, vals, j2 + 1, s2 as int, j1 as int);
                    lemma_deposit_monotone(d1 as int, x as int, d2 as int, vals, j2 as int, j2 as int, j1 as int);
                    assert((j2 + 1) * d2 == j2 * d2 + d2) by (nonlinear_arith);
                    assert((j1 + 1) * d1 == j1 * d1 + d1) by (nonlinear_arith);
                    lemma_product_nonneg(j1 as int, d1 as int);
                }
                let l1 = (j1 as u64) * d1;
                let r1 = l1 + d1;
                let lo = if l1 < l2 { l2 } else { l1 };
                let hi = if r1 < r2 { r1 } else { r2 };
                let w = hi - lo;
                let k = j1 * n + element_id;
                proof {
                    assert(w == overlap(j1 * d1, j1 * d1 + d1, l2 as int, r2 as int));
                    lemma_product_nonneg(w as int, data@[j2 as int] as int);
                    assert(self.profile.cell(j1 as int, element_id as int) == self.profile.data@[k as int]);
                }
                let ghost prev = self.profile;
                let before = self.profile.data[k];
                assert(before == old(self).padded(j1 as int, element_id as int) + deposit(
                    d1 as int,
                    x as int,
                    d2 as int,
                    vals,
                    j2 as int,
                    j1 as int,
                ));
                self.profile.data[k] = before + w * data[j2];
                proof {
                    assert forall|r: int, u: int| 0 <= r < rows && 0 <= u < n implies #[trigger] self.profile.cell(r, u)
                        == old(self).padded(r, u) + if u == element_id {
                        deposit(d1 as int, x as int, d2 as int, vals, j2 as int, r) + if first <= r < j1 + 1 {
                            overlap(r * d1, r * d1 + d1, l2 as int, r2 as int) * vals[j2 as int]
                        } else {
                            0
                        }
                    } else {
                        0
                    } by {
                        lemma_cell_index(r, u, n as int, rows);
                        assert(prev.cell(r, u) == old(self).padded(r, u) + if u == element_id {
                            deposit(d1 as int, x as int, d2 as int, vals, j2 as int, r) + if first <= r < j1 {
                                overlap(r * d1, r * d1 + d1, l2 as int, r2 as int) * vals[j2 as int]
                            } else {
                                0
                            }
                        } else {
                            0
                        });
                        if r * n + u == k {
                            lemma_cell_distinct(r, u, j1 as int, element_id as int, n as int);
                            assert(self.profile.data@[k as int] == before + w * vals[j2 as int]);
                        }
                    }
                }
                j1 += 1;
            }
            proof {
                assert forall|r: int, u: int| 0 <= r < rows && 0 <= u < n implies #[trigger] self.profile.cell(r, u)
                    == old(self).padded(r, u) + if u == element_id {
                    deposit(d1 as int, x as int, d2 as int, vals, j2 + 1, r)
                } else {
                    0
                } by {
                    if u == element_id && !(first <= r < j1) {
                        if r < first {
                            lemma_scale_le(r + 1, first as int, d1 as int);
                            assert((r + 1) * d1 == r * d1 + d1) by (nonlinear_arith);
                        } else {
                            lemma_scale_le(j1 as int, r, d1 as int);
                        }
                        assert(overlap(r * d1, r * d1 + d1, l2 as int, r2 as int) == 0);
                    }
                }
            }
            j2 += 1;
        }
        proof {
            assert forall|r: int, u: int| 0 <= r < rows && 0 <= u < n implies #[trigger] self.profile.cell(r, u)
                == old(self).padded(r, u) + old(self).pushed(element_id as int, time as int, time_step as int, data@, r, u) by {
            }
        }
    }
}

/// The sum of the first `k` values.
pub open spec fn total(values: Seq<u64>, k: int) -> int
    decreases k,
{
    if k <= 0 {
        0
    } else {
        total(values, k - 1) + values[k - 1]
    }
}

/// How much of `[c, d)` the first `rows` rows of a grid of step `dr` cover.
pub open spec fn rows_overlap(dr: int, c: int, d: int, rows: int) -> int
    decreases rows,
{
    if rows <= 0 {
        0
    } else {
        rows_overlap(dr, c, d, rows - 1) + overlap((rows - 1) * dr, (rows - 1) * dr + dr, c, d)
    }
}

/// What the first `k` samples deposit into the first `rows` rows together.
pub open spec fn rows_deposit(dr: int, x: int, dx: int, values: Seq<u64>, k: int, rows: int) -> int
    decreases rows,
{
    if rows <= 0 {
        0
    } else {
        rows_deposit(dr, x, dx, values, k, rows - 1) + deposit(dr, x, dx, values, k, rows - 1)
    }
}

/// The rows of a grid cover an interval as their union `[0, rows * dr)` does.
proof fn lemma_rows_overlap(dr: int, c: int, d: int, rows: int)
    requires
        0 < dr,
        0 <= rows,
        c <= d,
    ensures
        rows_overlap(dr, c, d, rows) == overlap(0, rows * dr, c, d),
    decreases rows,
{
    if rows > 0 {
        lemma_rows_overlap(dr, c, d, rows - 1);
        lemma_product_nonneg(rows - 1, dr);
        assert((rows - 1) * dr + dr == rows * dr) by (nonlinear_arith);
    } else {
        assert(rows * dr == 0) by (nonlinear_arith)
            requires
                rows == 0,
        ;
    }
}

/// Adding the sample `k - 1` adds its value times its cover to the rows.
proof fn lemma_rows_deposit_step(dr: int, x: int, dx: int, values: Seq<u64>, k: int, rows: int)
    requires
        1 <= k <= values.len(),
        0 <= rows,
    ensures
        rows_deposit(dr, x, dx, values, k, rows) == rows_deposit(dr, x, dx, values, k - 1, rows)
            + rows_overlap(dr, x + (k - 1) * dx, x + (k - 1) * dx + dx, rows) * values[k - 1],
    decreases rows,
{
    if rows > 0 {
        lemma_rows_deposit_step(dr, x, dx, values, k, rows - 1);
        let a = rows_overlap(dr, x + (k - 1) * dx, x + (k - 1) * dx + dx, rows - 1);
        let b = overlap((rows - 1) * dr, (rows - 1) * dr + dr, x + (k - 1) * dx, x + (k - 1) * dx + dx);
        let v = values[k - 1] as int;
        assert((a + b) * v == a * v + b * v) by (nonlinear_arith);
    }
}

/// When the grid covers every sample, the rows together hold each sample's
/// value times its length.
proof fn lemma_rows_deposit_total(dr: int, x: int, dx: int, values: Seq<u64>, k: int, rows: int)
    requires
        0 < dr,
        0 < dx,
        0 <= x,
        0 <= rows,
        0 <= k <= values.len(),
        x + k * dx <= rows * dr,
    ensures
        rows_deposit(dr, x, dx, values, k, rows) == total(values, k) * dx,
    decreases k,
{
    if k > 0 {
        let c = x + (k - 1) * dx;
        assert((k - 1) * dx + dx == k * dx) by (nonlinear_arith);
        lemma_product_nonneg(k - 1, dx);
        lemma_rows_deposit_total(dr, x, dx, values, k - 1, rows);
        lemma_rows_deposit_step(dr, x, dx, values, k, rows);
        lemma_rows_overlap(dr, c, c + dx, rows);
        assert(overlap(0, rows * dr, c, c + dx) == dx);
        let t = total(values, k - 1);
        let v = values[k - 1] as int;
        assert(t * dx + dx * v == (t + v) * dx) by (nonlinear_arith);
    } else {
        lemma_rows_deposit_zero(dr, x, dx, values, rows);
    }
}

/// No samples deposit nothing.
proof fn lemma_rows_deposit_zero(dr: int, x: int, dx: int, values: Seq<u64>, rows: int)
    ensures
        rows_deposit(dr, x, dx, values, 0, rows) == 0,
    decreases rows,
{
    if rows > 0 {
        lemma_rows_deposit_zero(dr, x, dx, values, rows - 1);
    }
}

/// Rebinning conserves energy: when samples are pushed onto a fresh builder
/// whose fill is zero, and the grid is then pulled far enough to take in the
/// last sample, the column of the element sums to the sum of the samples
/// times their sampling interval.
pub proof fn law_rebinning_conserves(
    fresh: ProfileBuilder,
    filled: ProfileBuilder,
    rest: ProfileBuilder,
    unit: int,
    time: int,
    dx: int,
    values: Seq<u64>,
    until: int,
    out: Profile,
)
    requires
        fresh.wf(),
        fresh.spec_profile().step_count == 0,
        fresh.spec_profile().time == 0,
        forall|u: int| 0 <= u < fresh.spec_fill().len() ==> fresh.spec_fill()[u] == 0,
        0 <= unit < fresh.spec_profile().element_count,
        0 <= time,
        0 < dx,
        ProfileBuilder::pushed_onto(fresh, filled, unit, time, dx, values),
        time + values.len() * dx + fresh.spec_profile().time_step <= until,
        ProfileBuilder::pulled(filled, rest, until, out),
    ensures
        out.column_sum(unit, out.step_count as int) == total(values, values.len() as int) * dx,
{
    let dr = fresh.spec_profile().time_step as int;
    let k = values.len() as int;
    let rows = out.step_count as int;
    lemma_floor_div(until, dr);
    assert(out.step_count == until / dr);
    assert forall|i: int| 0 <= i < rows implies #[trigger] out.cell(i, unit) == deposit(dr, time, dx, values, k, i) by {
        if i >= filled.spec_profile().step_count {
            lemma_ceil_div(time + k * dx, dr);
            lemma_scale_le(fresh.rows_reached(time, dx, k), filled.spec_profile().step_count as int, dr);
            lemma_scale_le(filled.spec_profile().step_count as int, i, dr);
            lemma_deposit_outside(dr, time, dx, values, k, i);
        }
    }
    assert(rows * dr + dr > until) by (nonlinear_arith)
        requires
            rows == until / dr,
            (until / dr) * dr <= until,
            until < (until / dr) * dr + dr,
    ;
    lemma_column_is_deposit(out, unit, dr, time, dx, values, rows);
    lemma_rows_deposit_total(dr, time, dx, values, k, rows);
}

/// A column whose cells are the deposits sums to the rows' deposit.
proof fn lemma_column_is_deposit(out: Profile, unit: int, dr: int, x: int, dx: int, values: Seq<u64>, rows: int)
    requires
        0 <= rows,
        forall|i: int| 0 <= i < rows ==> #[trigger] out.cell(i, unit) == deposit(dr, x, dx, values, values.len() as int, i),
    ensures
        out.column_sum(unit, rows) == rows_deposit(dr, x, dx, values, values.len() as int, rows),
    decreases rows,
{
    if rows > 0 {
        lemma_column_is_deposit(out, unit, dr, x, dx, values, rows - 1);
    }
}

/// The leakage baseline: rows that nothing was pushed onto hold the fill, so
/// pulling them from an empty grid gives each element a column that sums to
/// its fill times the number of rows.
pub proof fn law_fill_baseline(before: ProfileBuilder, after: ProfileBuilder, time: int, out: Profile, unit: int)
    requires
        before.wf(),
        before.spec_profile().step_count == 0,
        0 <= unit < before.spec_profile().element_count,
        ProfileBuilder::pulled(before, after, time, out),
    ensures
        out.column_sum(unit, out.step_count as int) == before.spec_fill()[unit] * out.step_count,
{
    lemma_fill_column(out, unit, before.spec_fill()[unit] as int, out.step_count as int);
}

/// A column whose first `rows` cells all hold `value` sums to `value` times
/// `rows`.
proof fn lemma_fill_column(out: Profile, unit: int, value: int, rows: int)
    requires
        0 <= rows,
        forall|i: int| 0 <= i < rows ==> #[trigger] out.cell(i, unit) == value,
    ensures
        out.column_sum(unit, rows) == value * rows,
    decreases rows,
{
    if rows > 0 {
        lemma_fill_column(out, unit, value, rows - 1);
        assert(value * (rows - 1) + value == value * rows) by (nonlinear_arith);
    } else {
        assert(value * rows == 0) by (nonlinear_arith)
            requires
                rows == 0,
        ;
    }
}

/// `k` copies of `f`, one after another.
pub open spec fn repeat(f: Seq<u64>, k: nat) -> Seq<u64>
    decreases k,
{
    if k == 0 {
        Seq::empty()
    } else {
        repeat(f, (k - 1) as nat) + f
    }
}

/// The length of `k` copies of `f`.
pub proof fn lemma_repeat_len(f: Seq<u64>, k: nat)
    ensures
        repeat(f, k).len() == k * f.len(),
    decreases k,
{
    if k > 0 {
        lemma_repeat_len(f, (k - 1) as nat);
        assert(((k - 1) * f.len()) + f.len() == k * f.len()) by (nonlinear_arith);
    } else {
        assert(0 * f.len() == 0) by (nonlinear_arith);
    }
}

/// The position `u` of the copy `j` of `f` holds `f[u]`.
pub proof fn lemma_repeat_index(f: Seq<u64>, k: nat, j: int, u: int)
    requires
        0 <= j < k,
        0 <= u < f.len(),
    ensures
        repeat(f, k)[j * f.len() + u] == f[u],
    decreases k,
{
    lemma_repeat_len(f, (k - 1) as nat);
    if j < k - 1 {
        lemma_cell_index(j, u, f.len() as int, k - 1);
        lemma_repeat_index(f, (k - 1) as nat, j, u);
    }
}

} // verus!
