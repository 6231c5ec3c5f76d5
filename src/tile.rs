//! Tile coding: maps a point of a mixed continuous / integer state space to
//! one active tile in each of several overlapping, shifted grids.
//!
//! Continuous coordinates are exact integers in a unit of the caller's choice
//! (tenths, thousandths, ...). A tile only depends on ratios of lengths, so
//! expressing every coordinate and bound in a finer unit changes no index.
use vstd::prelude::*;
use vstd::arithmetic::div_mod::*;
use vstd::arithmetic::mul::*;

verus! {

/// An interval `[min, max)`: the right end is excluded.
pub struct Bounds<T> {
    pub min: T,
    pub max: T,
}

impl<T> Bounds<T> {
    pub fn new(min: T, max: T) -> (r: Self)
        ensures
            r.min == min,
            r.max == max,
    {
        Bounds { min: min, max: max }
    }
}

/// A continuous dimension `[min, max)` cut into `step_count` equal steps.
pub struct ContinuousDimension {
    pub bounds: Bounds<i64>,
    pub step_count: usize,
}

impl ContinuousDimension {
    pub open spec fn wf(&self) -> bool {
        self.bounds.min < self.bounds.max && self.step_count > 0
    }

    pub fn new(min: i64, max: i64, step_count: usize) -> (r: Self)
        ensures
            r.bounds.min == min,
            r.bounds.max == max,
            r.step_count == step_count,
    {
        ContinuousDimension { bounds: Bounds::new(min, max), step_count: step_count }
    }
}

/// `v` forced into the cells `0 .. n - 1`.
pub open spec fn clamp_cell(v: int, n: int) -> int {
    if v < 0 {
        0
    } else if v >= n {
        n - 1
    } else {
        v
    }
}

/// The cell of `x` along `[min, max)` cut into `n` steps, in the grid whose
/// origin is moved up by `shift / shifts` of a step: `floor((x - origin) / step)`
/// with `origin = min + shift * step / shifts` and `step = (max - min) / n`,
/// clamped to the `n` cells.
pub open spec fn continuous_cell(x: int, min: int, max: int, n: int, shift: int, shifts: int) -> int {
    clamp_cell(((x - min) * n * shifts - shift * (max - min)) / ((max - min) * shifts), n)
}

/// The cell of `x` along the unit steps of `[min, max)`, clamped.
pub open spec fn integer_cell(x: int, min: int, max: int) -> int {
    clamp_cell(x - min, max - min)
}

/// The number whose digits, least significant first, are `digits`, each
/// in the base given at the same place of `radices`, with `high` above them all.
pub open spec fn mixed_radix(digits: Seq<int>, radices: Seq<int>, high: int) -> int
    decreases digits.len(),
{
    if digits.len() == 0 {
        high
    } else {
        digits[0] + radices[0] * mixed_radix(digits.drop_first(), radices.drop_first(), high)
    }
}

/// The product of the elements of `s`.
pub open spec fn product(s: Seq<int>) -> int
    decreases s.len(),
{
    if s.len() == 0 {
        1
    } else {
        s[0] * product(s.drop_first())
    }
}

/// Every element of `s` is at least one.
pub open spec fn all_positive(s: Seq<int>) -> bool {
    forall|i: int| 0 <= i < s.len() ==> s[i] >= 1
}

/// Every digit lies in `0 .. radix`.
pub open spec fn digits_in_range(digits: Seq<int>, radices: Seq<int>) -> bool {
    digits.len() == radices.len() && forall|i: int|
        0 <= i < digits.len() ==> 0 <= #[trigger] digits[i] < radices[i]
}

/// Digits below their radices and a `high` part below `bound` make a number
/// below the product of the radices times `bound`.
pub proof fn lemma_mixed_radix_bound(digits: Seq<int>, radices: Seq<int>, high: int, bound: int)
    requires
        digits_in_range(digits, radices),
        0 <= high < bound,
    ensures
        0 <= mixed_radix(digits, radices, high) < product(radices) * bound,
    decreases digits.len(),
{
    if digits.len() > 0 {
        let d = digits.drop_first();
        let r = radices.drop_first();
        assert(digits_in_range(d, r)) by {
            assert forall|i: int| 0 <= i < d.len() implies 0 <= #[trigger] d[i] < r[i] by {
                assert(d[i] == digits[i + 1]);
            }
        }
        lemma_mixed_radix_bound(d, r, high, bound);
        let m = mixed_radix(d, r, high);
        let p = product(r);
        let d0 = digits[0];
        let r0 = radices[0];
        assert(0 <= d0 < r0);
        assert(0 <= d0 + r0 * m < r0 * (p * bound)) by (nonlinear_arith)
            requires
                0 <= d0 < r0,
                0 <= m < p * bound,
        ;
        assert(r0 * (p * bound) == (r0 * p) * bound) by (nonlinear_arith);
    }
}

/// A product of positive numbers is positive, and at least its suffixes.
pub proof fn lemma_suffix_product(s: Seq<int>, i: int)
    requires
        all_positive(s),
        0 <= i <= s.len(),
    ensures
        1 <= product(s.subrange(i, s.len() as int)) <= product(s),
    decreases s.len(),
{
    if s.len() == 0 {
        assert(s.subrange(i, s.len() as int) =~= s);
    } else {
        let t = s.drop_first();
        assert(all_positive(t)) by {
            assert forall|j: int| 0 <= j < t.len() implies t[j] >= 1 by {
                assert(t[j] == s[j + 1]);
            }
        }
        lemma_suffix_product(t, 0);
        assert(t.subrange(0, t.len() as int) =~= t);
        let pt = product(t);
        let s0 = s[0];
        assert(s0 >= 1);
        assert(pt <= s0 * pt) by (nonlinear_arith)
            requires
                s0 >= 1,
                pt >= 1,
        ;
        if i == 0 {
            assert(s.subrange(0, s.len() as int) =~= s);
        } else {
            lemma_suffix_product(t, i - 1);
            assert(t.subrange(i - 1, t.len() as int) =~= s.subrange(i, s.len() as int));
        }
    }
}

/// The first digit and the rest of a suffix of `digits`.
pub proof fn lemma_mixed_radix_suffix(digits: Seq<int>, radices: Seq<int>, high: int, i: int)
    requires
        digits.len() == radices.len(),
        0 <= i < digits.len(),
    ensures
        mixed_radix(digits.subrange(i, digits.len() as int), radices.subrange(i, radices.len() as int), high)
            == digits[i] + radices[i] * mixed_radix(
                digits.subrange(i + 1, digits.len() as int),
                radices.subrange(i + 1, radices.len() as int),
                high,
            ),
{
    let ds = digits.subrange(i, digits.len() as int);
    let rs = radices.subrange(i, radices.len() as int);
    assert(ds.drop_first() =~= digits.subrange(i + 1, digits.len() as int));
    assert(rs.drop_first() =~= radices.subrange(i + 1, radices.len() as int));
}

/// The first factor and the rest of a suffix product.
pub proof fn lemma_product_suffix(s: Seq<int>, i: int)
    requires
        0 <= i < s.len(),
    ensures
        product(s.subrange(i, s.len() as int)) == s[i] * product(s.subrange(i + 1, s.len() as int)),
{
    assert(s.subrange(i, s.len() as int).drop_first() =~= s.subrange(i + 1, s.len() as int));
}

/// Points below a dimension fall into its first cell, points at or above its
/// upper end into its last cell, whatever the shift of the grid.
pub proof fn lemma_continuous_cell_saturates(x: int, min: int, max: int, n: int, shift: int, shifts: int)
    requires
        min < max,
        n >= 1,
        0 <= shift < shifts,
    ensures
        x <= min ==> continuous_cell(x, min, max, n, shift, shifts) == 0,
        x >= max ==> continuous_cell(x, min, max, n, shift, shifts) == n - 1,
{
    let w = max - min;
    let d = w * shifts;
    let num = (x - min) * n * shifts - shift * w;
    assert(d > 0) by (nonlinear_arith)
        requires
            w > 0,
            shifts > 0,
            d == w * shifts,
    ;
    if x <= min {
        assert(num <= 0) by (nonlinear_arith)
            requires
                x <= min,
                n >= 1,
                shifts >= 1,
                shift >= 0,
                w > 0,
                num == (x - min) * n * shifts - shift * w,
        ;
        lemma_div_is_ordered(num, 0, d);
        lemma_div_of0(d);
    }
    if x >= max {
        assert(num >= (n - 1) * d) by (nonlinear_arith)
            requires
                x >= max,
                n >= 1,
                shift < shifts,
                shift >= 0,
                w > 0,
                w == max - min,
                d == w * shifts,
                num == (x - min) * n * shifts - shift * w,
        ;
        lemma_div_is_ordered((n - 1) * d, num, d);
        lemma_div_multiples_vanish(n - 1, d);
    }
}

/// A point along an integer dimension below its lower end falls into its
/// first cell, one at or above its upper end into its last cell.
pub proof fn lemma_integer_cell_saturates(x: int, min: int, max: int)
    requires
        min < max,
    ensures
        x <= min ==> integer_cell(x, min, max) == 0,
        x >= max - 1 ==> integer_cell(x, min, max) == max - min - 1,
{
}

/// A continuous dimension as one tiling cuts it: `[min, max)` in `step_count`
/// steps, the grid moved up by `shift / shifts` of a step.
pub struct ContinuousPartition {
    pub bounds: Bounds<i64>,
    pub step_count: usize,
    pub shift: usize,
    pub shifts: usize,
}

impl ContinuousPartition {
    pub open spec fn wf(&self) -> bool {
        &&& self.bounds.min < self.bounds.max
        &&& self.step_count > 0
        &&& self.shift < self.shifts
        &&& self.step_count * self.shifts <= usize::MAX
    }

    pub open spec fn cell(&self, x: int) -> int {
        continuous_cell(
            x,
            self.bounds.min as int,
            self.bounds.max as int,
            self.step_count as int,
            self.shift as int,
            self.shifts as int,
        )
    }

    /// The cell that holds `x` along this partition.
    fn get_cell(&self, x: i64) -> (r: usize)
        requires
            self.wf(),
        ensures
            r == self.cell(x as int),
    {
        let min = self.bounds.min;
        let max = self.bounds.max;
        proof {
            lemma_continuous_cell_saturates(
                x as int,
                min as int,
                max as int,
                self.step_count as int,
                self.shift as int,
                self.shifts as int,
            );
        }
        if x <= min {
            return 0;
        }
        if x >= max {
            return self.step_count - 1;
        }
        let width: u128 = (max as i128 - min as i128) as u128;
        let dx: u128 = (x as i128 - min as i128) as u128;
        let n: u128 = self.step_count as u128;
        let s: u128 = self.shifts as u128;
        let k: u128 = self.shift as u128;
        assert(dx < width && width < 0x1_0000_0000_0000_0000);
        let ns: u128 = n * s;
        assert(dx * ns < 0x1_0000_0000_0000_0000_0000_0000_0000_0000) by (nonlinear_arith)
            requires
                dx < 0x1_0000_0000_0000_0000,
                ns < 0x1_0000_0000_0000_0000,
        ;
        assert(k * width < 0x1_0000_0000_0000_0000_0000_0000_0000_0000) by (nonlinear_arith)
            requires
                k < 0x1_0000_0000_0000_0000,
                width < 0x1_0000_0000_0000_0000,
        ;
        assert(width * s < 0x1_0000_0000_0000_0000_0000_0000_0000_0000) by (nonlinear_arith)
            requires
                s < 0x1_0000_0000_0000_0000,
                width < 0x1_0000_0000_0000_0000,
        ;
        let a: u128 = dx * ns;
        let b: u128 = k * width;
        let d: u128 = width * s;
        let ghost num: int = (x - min) * n * s - k * (max - min);
        assert(num == a - b) by (nonlinear_arith)
            requires
                num == (x - min) * n * s - k * (max - min),
                dx == x - min,
                width == max - min,
                a == dx * ns,
                ns == n * s,
                b == k * width,
        ;
        assert(d > 0) by (nonlinear_arith)
            requires
                width > 0,
                s > 0,
                d == width * s,
        ;
        if a < b {
            proof {
                lemma_div_is_ordered(num, 0, d as int);
                lemma_div_of0(d as int);
            }
            return 0;
        }
        let q: u128 = (a - b) / d;
        if q >= n {
            self.step_count - 1
        } else {
            q as usize
        }
    }
}

/// An integer dimension as a tiling cuts it: unit steps from `origin`.
pub struct IntegerPartition {
    pub origin: i32,
    pub step_count: usize,
}

impl IntegerPartition {
    pub open spec fn wf(&self) -> bool {
        self.step_count > 0
    }

    pub open spec fn cell(&self, x: int) -> int {
        clamp_cell(x - self.origin, self.step_count as int)
    }

    /// The cell that holds `x` along this partition.
    fn get_cell(&self, x: i32) -> (r: usize)
        requires
            self.wf(),
        ensures
            r == self.cell(x as int),
    {
        let diff: i64 = x as i64 - self.origin as i64;
        if diff <= 0 {
            0
        } else if diff as u64 >= self.step_count as u64 {
            self.step_count - 1
        } else {
            diff as usize
        }
    }
}

/// The step counts of continuous dimensions.
pub open spec fn continuous_steps(dims: Seq<ContinuousDimension>) -> Seq<int> {
    Seq::new(dims.len(), |i: int| dims[i].step_count as int)
}

/// The step counts of integer dimensions: one step per integer.
pub open spec fn integer_steps(dims: Seq<Bounds<i32>>) -> Seq<int> {
    Seq::new(dims.len(), |i: int| dims[i].max - dims[i].min)
}

/// One tiling of a state space.
pub struct Tiling {
    pub continuous_partitions: Vec<ContinuousPartition>,
    pub integer_partitions: Vec<IntegerPartition>,
    pub tile_count: usize,
}

impl Tiling {
    pub open spec fn continuous_steps(&self) -> Seq<int> {
        Seq::new(
            self.continuous_partitions@.len(),
            |i: int| self.continuous_partitions@[i].step_count as int,
        )
    }

    pub open spec fn integer_steps(&self) -> Seq<int> {
        Seq::new(
            self.integer_partitions@.len(),
            |i: int| self.integer_partitions@[i].step_count as int,
        )
    }

    pub open spec fn wf(&self) -> bool {
        &&& forall|i: int|
            0 <= i < self.continuous_partitions@.len() ==> (#[trigger] self.continuous_partitions@[i]).wf()
        &&& forall|i: int|
            0 <= i < self.integer_partitions@.len() ==> (#[trigger] self.integer_partitions@[i]).wf()
        &&& self.tile_count == product(self.continuous_steps()) * product(self.integer_steps())
    }

    /// The cells of a point along the continuous dimensions.
    pub open spec fn continuous_cells(&self, pc: Seq<i64>) -> Seq<int> {
        Seq::new(
            self.continuous_partitions@.len(),
            |i: int| self.continuous_partitions@[i].cell(pc[i] as int),
        )
    }

    /// The cells of a point along the integer dimensions.
    pub open spec fn integer_cells(&self, pi: Seq<i32>) -> Seq<int> {
        Seq::new(
            self.integer_partitions@.len(),
            |i: int| self.integer_partitions@[i].cell(pi[i] as int),
        )
    }

    /// The tile of a point: its cells read as one number, the first continuous
    /// dimension the fastest digit and the last integer dimension the slowest.
    pub open spec fn tile_of(&self, pc: Seq<i64>, pi: Seq<i32>) -> int {
        mixed_radix(
            self.continuous_cells(pc),
            self.continuous_steps(),
            mixed_radix(self.integer_cells(pi), self.integer_steps(), 0),
        )
    }

    /// Builds the tiling of the given dimensions whose grid is moved up by
    /// `shift / shifts` of a step along each continuous dimension.
    fn from_dimensions_and_origin(
        continuous_dimensions: &Vec<ContinuousDimension>,
        integer_dimensions: &Vec<Bounds<i32>>,
        shift: usize,
        shifts: usize,
    ) -> (r: Tiling)
        requires
            forall|i: int|
                0 <= i < continuous_dimensions@.len() ==> (#[trigger] continuous_dimensions@[i]).wf(),
            forall|i: int|
                0 <= i < integer_dimensions@.len() ==> (#[trigger] integer_dimensions@[i]).min
                    < integer_dimensions@[i].max,
            forall|i: int|
                0 <= i < continuous_dimensions@.len() ==> (#[trigger] continuous_dimensions@[i]).step_count
                    * shifts <= usize::MAX,
            shift < shifts,
            product(continuous_steps(continuous_dimensions@)) * product(integer_steps(integer_dimensions@))
                <= usize::MAX,
        ensures
            r.wf(),
            r.cuts(continuous_dimensions@, integer_dimensions@, shift as int, shifts as int),
            r.continuous_steps() == continuous_steps(continuous_dimensions@),
            r.integer_steps() == integer_steps(integer_dimensions@),
    {
        let c_len = continuous_dimensions.len();
        let i_len = integer_dimensions.len();
        let mut continuous_partitions: Vec<ContinuousPartition> = Vec::new();
        for i in 0..c_len
            invariant
                c_len == continuous_dimensions@.len(),
                continuous_partitions@.len() == i,
                forall|j: int|
                    0 <= j < continuous_dimensions@.len() ==> (#[trigger] continuous_dimensions@[j]).wf(),
                forall|j: int|
                    0 <= j < continuous_dimensions@.len() ==> (#[trigger] continuous_dimensions@[j]).step_count
                        * shifts <= usize::MAX,
                shift < shifts,
                forall|j: int| 0 <= j < i ==> {
                    let p = #[trigger] continuous_partitions@[j];
                    &&& p.wf()
                    &&& p.bounds.min == continuous_dimensions@[j].bounds.min
                    &&& p.bounds.max == continuous_dimensions@[j].bounds.max
                    &&& p.step_count == continuous_dimensions@[j].step_count
                    &&& p.shift == shift
                    &&& p.shifts == shifts
                },
        {
            let d = &continuous_dimensions[i];
            continuous_partitions.push(
                ContinuousPartition {
                    bounds: Bounds::new(d.bounds.min, d.bounds.max),
                    step_count: d.step_count,
                    shift: shift,
                    shifts: shifts,
                },
            );
        }
        let mut integer_partitions: Vec<IntegerPartition> = Vec::new();
        for i in 0..i_len
            invariant
                i_len == integer_dimensions@.len(),
                integer_partitions@.len() == i,
                forall|j: int|
                    0 <= j < integer_dimensions@.len() ==> (#[trigger] integer_dimensions@[j]).min
                        < integer_dimensions@[j].max,
                forall|j: int| 0 <= j < i ==> {
                    let p = #[trigger] integer_partitions@[j];
                    &&& p.wf()
                    &&& p.origin == integer_dimensions@[j].min
                    &&& p.step_count == integer_dimensions@[j].max - integer_dimensions@[j].min
                },
        {
            let b = &integer_dimensions[i];
            let steps = (b.max as i64 - b.min as i64) as usize;
            integer_partitions.push(IntegerPartition { origin: b.min, step_count: steps });
        }
        let ghost cs = continuous_steps(continuous_dimensions@);
        let ghost is = integer_steps(integer_dimensions@);
        proof {
            assert(all_positive(cs));
            assert(all_positive(is));
            lemma_suffix_product(cs, 0);
            lemma_suffix_product(is, 0);
            assert(cs.subrange(0, cs.len() as int) =~= cs);
            assert(is.subrange(0, is.len() as int) =~= is);
            let pc = product(cs);
            let pi = product(is);
            assert(pc <= pc * pi && pi <= pc * pi) by (nonlinear_arith)
                requires
                    pc >= 1,
                    pi >= 1,
            ;
        }
        let mut continuous_count: usize = 1;
        let mut i = c_len;
        while i > 0
            invariant
                i <= c_len,
                c_len == cs.len(),
                all_positive(cs),
                product(cs) <= usize::MAX,
                continuous_count == product(cs.subrange(i as int, c_len as int)),
                continuous_partitions@.len() == c_len,
                forall|j: int| 0 <= j < c_len ==> cs[j] == (#[trigger] continuous_partitions@[j]).step_count,
            decreases i,
        {
            i = i - 1;
            proof {
                lemma_product_suffix(cs, i as int);
                lemma_suffix_product(cs, i as int);
            }
            continuous_count = continuous_partitions[i].step_count * continuous_count;
        }
        let mut integer_count: usize = 1;
        let mut i = i_len;
        while i > 0
            invariant
                i <= i_len,
                i_len == is.len(),
                all_positive(is),
                product(is) <= usize::MAX,
                integer_count == product(is.subrange(i as int, i_len as int)),
                integer_partitions@.len() == i_len,
                forall|j: int| 0 <= j < i_len ==> is[j] == (#[trigger] integer_partitions@[j]).step_count,
            decreases i,
        {
            i = i - 1;
            proof {
                lemma_product_suffix(is, i as int);
                lemma_suffix_product(is, i as int);
            }
            integer_count = integer_partitions[i].step_count * integer_count;
        }
        assert(cs.subrange(0, c_len as int) =~= cs);
        assert(is.subrange(0, i_len as int) =~= is);
        let r = Tiling {
            continuous_partitions: continuous_partitions,
            integer_partitions: integer_partitions,
            tile_count: continuous_count * integer_count,
        };
        assert(r.continuous_steps() =~= cs);
        assert(r.integer_steps() =~= is);
        r
    }

    /// The tile of this tiling that holds the point with continuous
    /// coordinates `pc` and integer coordinates `pi`.
    fn get_tile(&self, pc: &Vec<i64>, pi: &Vec<i32>) -> (r: usize)
        requires
            self.wf(),
            pc@.len() == self.continuous_partitions@.len(),
            pi@.len() == self.integer_partitions@.len(),
        ensures
            r == self.tile_of(pc@, pi@),
            r < self.tile_count,
    {
        let ghost icells = self.integer_cells(pi@);
        let ghost isteps = self.integer_steps();
        let ghost ccells = self.continuous_cells(pc@);
        let ghost csteps = self.continuous_steps();
        let i_len = pi.len();
        let c_len = pc.len();
        proof {
            assert(all_positive(isteps));
            assert(all_positive(csteps));
            lemma_suffix_product(isteps, 0);
            lemma_suffix_product(csteps, 0);
            assert(isteps.subrange(0, i_len as int) =~= isteps);
            assert(csteps.subrange(0, c_len as int) =~= csteps);
            let a = product(csteps);
            let b = product(isteps);
            assert(b <= a * b) by (nonlinear_arith)
                requires
                    a >= 1,
                    b >= 1,
            ;
        }
        let mut offset: usize = 0;
        let mut i = i_len;
        while i > 0
            invariant
                i <= i_len,
                i_len == pi@.len(),
                i_len == self.integer_partitions@.len(),
                self.wf(),
                icells == self.integer_cells(pi@),
                isteps == self.integer_steps(),
                product(isteps) <= usize::MAX,
                offset == mixed_radix(
                    icells.subrange(i as int, i_len as int),
                    isteps.subrange(i as int, i_len as int),
                    0,
                ),
            decreases i,
        {
            i = i - 1;
            let p = &self.integer_partitions[i];
            let index = p.get_cell(pi[i]);
            proof {
                lemma_mixed_radix_suffix(icells, isteps, 0, i as int);
                let ds = icells.subrange(i as int, i_len as int);
                let rs = isteps.subrange(i as int, i_len as int);
                assert(digits_in_range(ds, rs)) by {
                    assert forall|j: int| 0 <= j < ds.len() implies 0 <= #[trigger] ds[j] < rs[j] by {
                        assert(ds[j] == icells[i + j]);
                        assert(rs[j] == isteps[i + j]);
                        assert(self.integer_partitions@[i + j].wf());
                    }
                }
                lemma_mixed_radix_bound(ds, rs, 0, 1);
                assert(all_positive(isteps));
                lemma_suffix_product(isteps, i as int);
                assert(index == icells[i as int]);
                assert(p.step_count == isteps[i as int]);
                lemma_mul_is_commutative(offset as int, p.step_count as int);
                assert(offset * p.step_count + index == mixed_radix(ds, rs, 0));
            }
            offset = offset * p.step_count + index;
        }
        let ghost high = offset as int;
        proof {
            assert(icells.subrange(0, i_len as int) =~= icells);
            assert(isteps.subrange(0, i_len as int) =~= isteps);
            assert(digits_in_range(icells, isteps)) by {
                assert forall|k: int| 0 <= k < icells.len() implies 0 <= #[trigger] icells[k] < isteps[k] by {
                    assert(self.integer_partitions@[k].wf());
                }
            }
            lemma_mixed_radix_bound(icells, isteps, 0, 1);
        }
        let mut j = c_len;
        while j > 0
            invariant
                j <= c_len,
                c_len == pc@.len(),
                c_len == self.continuous_partitions@.len(),
                self.wf(),
                ccells == self.continuous_cells(pc@),
                csteps == self.continuous_steps(),
                0 <= high < product(isteps),
                product(csteps) * product(isteps) <= usize::MAX,
                offset == mixed_radix(
                    ccells.subrange(j as int, c_len as int),
                    csteps.subrange(j as int, c_len as int),
                    high,
                ),
            decreases j,
        {
            j = j - 1;
            let p = &self.continuous_partitions[j];
            let index = p.get_cell(pc[j]);
            proof {
                lemma_mixed_radix_suffix(ccells, csteps, high, j as int);
                let ds = ccells.subrange(j as int, c_len as int);
                let rs = csteps.subrange(j as int, c_len as int);
                assert(digits_in_range(ds, rs)) by {
                    assert forall|k: int| 0 <= k < ds.len() implies 0 <= #[trigger] ds[k] < rs[k] by {
                        assert(ds[k] == ccells[j + k]);
                        assert(rs[k] == csteps[j + k]);
                        let q = self.continuous_partitions@[j + k];
                        assert(q.wf());
                    }
                }
                lemma_mixed_radix_bound(ds, rs, high, product(isteps));
                assert(all_positive(csteps));
                lemma_suffix_product(csteps, j as int);
                let ps = product(rs);
                let pa = product(csteps);
                let pb = product(isteps);
                assert(ps * pb <= pa * pb) by (nonlinear_arith)
                    requires
                        ps <= pa,
                        pb >= 1,
                ;
                assert(index == ccells[j as int]);
                assert(p.step_count == csteps[j as int]);
                lemma_mul_is_commutative(offset as int, p.step_count as int);
                assert(offset * p.step_count + index == mixed_radix(ds, rs, high));
            }
            offset = offset * p.step_count + index;
        }
        proof {
            assert(ccells.subrange(0, c_len as int) =~= ccells);
            assert(csteps.subrange(0, c_len as int) =~= csteps);
            assert(digits_in_range(ccells, csteps)) by {
                assert forall|k: int| 0 <= k < ccells.len() implies 0 <= #[trigger] ccells[k] < csteps[k] by {
                    let q = self.continuous_partitions@[k];
                    assert(q.wf());
                }
            }
            lemma_mixed_radix_bound(ccells, csteps, high, product(isteps));
        }
        offset
    }

    /// This tiling cuts the given dimensions, its grid moved up by
    /// `shift / shifts` of a step along each continuous one.
    pub open spec fn cuts(
        &self,
        cdims: Seq<ContinuousDimension>,
        idims: Seq<Bounds<i32>>,
        shift: int,
        shifts: int,
    ) -> bool {
        &&& self.continuous_partitions@.len() == cdims.len()
        &&& self.integer_partitions@.len() == idims.len()
        &&& forall|i: int| 0 <= i < cdims.len() ==> {
            let p = #[trigger] self.continuous_partitions@[i];
            &&& p.bounds.min == cdims[i].bounds.min
            &&& p.bounds.max == cdims[i].bounds.max
            &&& p.step_count == cdims[i].step_count
            &&& p.shift == shift
            &&& p.shifts == shifts
        }
        &&& forall|i: int| 0 <= i < idims.len() ==> {
            let p = #[trigger] self.integer_partitions@[i];
            &&& p.origin == idims[i].min
            &&& p.step_count == idims[i].max - idims[i].min
        }
    }
}

/// Each factor of a product of positive numbers is at most the product.
pub proof fn lemma_factor_le_product(s: Seq<int>, i: int)
    requires
        all_positive(s),
        0 <= i < s.len(),
    ensures
        s[i] <= product(s),
{
    lemma_product_suffix(s, i);
    lemma_suffix_product(s, i);
    lemma_suffix_product(s, i + 1);
    let a = s[i];
    let b = product(s.subrange(i + 1, s.len() as int));
    assert(a <= a * b) by (nonlinear_arith)
        requires
            a >= 1,
            b >= 1,
    ;
}

/// A set of tilings of one state space, each shifted from the last by a
/// fraction of a step along every continuous dimension.
pub struct TilingSet {
    pub tilings: Vec<Tiling>,
}

impl TilingSet {
    /// The number of tiles of each tiling.
    pub open spec fn tiling_size(&self) -> int {
        if self.tilings@.len() == 0 {
            0
        } else {
            self.tilings@[0].tile_count as int
        }
    }

    pub open spec fn wf(&self) -> bool {
        &&& forall|k: int| 0 <= k < self.tilings@.len() ==> (#[trigger] self.tilings@[k]).wf()
        &&& forall|k: int|
            0 <= k < self.tilings@.len() ==> (#[trigger] self.tilings@[k]).tile_count == self.tiling_size()
        &&& self.tilings@.len() * self.tiling_size() <= usize::MAX
    }

    /// A point with these numbers of coordinates can be placed.
    pub open spec fn accepts(&self, pc_len: int, pi_len: int) -> bool {
        forall|k: int| 0 <= k < self.tilings@.len() ==> {
            &&& (#[trigger] self.tilings@[k]).continuous_partitions@.len() == pc_len
            &&& self.tilings@[k].integer_partitions@.len() == pi_len
        }
    }

    /// The tile that holds the point in each tiling, numbered across all
    /// tilings: the tiles of tiling `k` come after those of tilings `0 .. k`.
    pub open spec fn tiles_of(&self, pc: Seq<i64>, pi: Seq<i32>) -> Seq<int> {
        Seq::new(
            self.tilings@.len(),
            |k: int| k * self.tiling_size() + self.tilings@[k].tile_of(pc, pi),
        )
    }

    /// Builds `count` tilings of the space made of the continuous and the
    /// integer dimensions given; tiling `k` is moved up by `k / count` of a
    /// step along each continuous dimension.
    pub fn from_dimensions(
        continuous_dimensions: &Vec<ContinuousDimension>,
        integer_dimensions: &Vec<Bounds<i32>>,
        count: usize,
    ) -> (r: Self)
        requires
            forall|i: int|
                0 <= i < continuous_dimensions@.len() ==> (#[trigger] continuous_dimensions@[i]).wf(),
            forall|i: int|
                0 <= i < integer_dimensions@.len() ==> (#[trigger] integer_dimensions@[i]).min
                    < integer_dimensions@[i].max,
            count * (product(continuous_steps(continuous_dimensions@)) * product(
                integer_steps(integer_dimensions@),
            )) <= usize::MAX,
        ensures
            r.wf(),
            r.tilings@.len() == count,
            r.accepts(continuous_dimensions@.len() as int, integer_dimensions@.len() as int),
            count > 0 ==> r.tiling_size() == product(continuous_steps(continuous_dimensions@))
                * product(integer_steps(integer_dimensions@)),
            forall|k: int|
                0 <= k < count ==> (#[trigger] r.tilings@[k]).cuts(
                    continuous_dimensions@,
                    integer_dimensions@,
                    k,
                    count as int,
                ),
    {
        let ghost cs = continuous_steps(continuous_dimensions@);
        let ghost is = integer_steps(integer_dimensions@);
        let ghost size = product(cs) * product(is);
        proof {
            assert(all_positive(cs));
            assert(all_positive(is));
            lemma_suffix_product(cs, 0);
            lemma_suffix_product(is, 0);
            assert(cs.subrange(0, cs.len() as int) =~= cs);
            assert(is.subrange(0, is.len() as int) =~= is);
        }
        let mut tilings: Vec<Tiling> = Vec::new();
        for k in 0..count
            invariant
                cs == continuous_steps(continuous_dimensions@),
                is == integer_steps(integer_dimensions@),
                all_positive(cs),
                product(cs) >= 1,
                product(is) >= 1,
                size == product(cs) * product(is),
                count * size <= usize::MAX,
                forall|i: int|
                    0 <= i < continuous_dimensions@.len() ==> (#[trigger] continuous_dimensions@[i]).wf(),
                forall|i: int|
                    0 <= i < integer_dimensions@.len() ==> (#[trigger] integer_dimensions@[i]).min
                        < integer_dimensions@[i].max,
                tilings@.len() == k,
                forall|j: int| 0 <= j < k ==> {
                    let t = #[trigger] tilings@[j];
                    &&& t.wf()
                    &&& t.tile_count == size
                    &&& t.cuts(continuous_dimensions@, integer_dimensions@, j, count as int)
                },
        {
            proof {
                let pc = product(cs);
                let pi = product(is);
                let c = count as int;
                assert(size <= c * size && size >= 1) by (nonlinear_arith)
                    requires
                        c >= 1,
                        pc >= 1,
                        pi >= 1,
                        size == pc * pi,
                ;
                assert forall|i: int| 0 <= i < continuous_dimensions@.len() implies (
                #[trigger] continuous_dimensions@[i]).step_count * count <= usize::MAX by {
                    lemma_factor_le_product(cs, i);
                    let f = cs[i];
                    assert(pc <= size) by (nonlinear_arith)
                        requires
                            pc >= 1,
                            size == pc * pi,
                            pi >= 1,
                    ;
                    lemma_mul_inequality(f, size, c);
                    lemma_mul_is_commutative(size, c);
                }
            }
            let t = Tiling::from_dimensions_and_origin(
                continuous_dimensions,
                integer_dimensions,
                k,
                count,
            );
            tilings.push(t);
        }
        let r = TilingSet { tilings: tilings };
        proof {
            if count > 0 {
                assert(r.tiling_size() == size);
            } else {
                assert(r.tiling_size() == 0);
            }
        }
        r
    }

    /// The number of tilings.
    pub fn count(&self) -> (r: usize)
        ensures
            r == self.tilings@.len(),
    {
        self.tilings.len()
    }

    /// The number of features: the tiles of all tilings together.
    pub fn tile_count(&self) -> (r: usize)
        requires
            self.wf(),
        ensures
            r == self.tilings@.len() * self.tiling_size(),
    {
        let mut total: usize = 0;
        assert(0 * self.tiling_size() == 0);
        for k in 0..self.tilings.len()
            invariant
                self.wf(),
                total == k * self.tiling_size(),
        {
            proof {
                lemma_mul_inequality(k + 1, self.tilings@.len() as int, self.tiling_size());
                lemma_mul_is_distributive_add_other_way(self.tiling_size(), k as int, 1);
            }
            total = total + self.tilings[k].tile_count;
        }
        total
    }

    /// The indices of the tiles, one per tiling, that hold the point with
    /// continuous coordinates `pc` and integer coordinates `pi`.
    pub fn get_tiles(&self, pc: &Vec<i64>, pi: &Vec<i32>) -> (r: Vec<usize>)
        requires
            self.wf(),
            self.accepts(pc@.len() as int, pi@.len() as int),
        ensures
            r@.len() == self.tilings@.len(),
            forall|k: int| 0 <= k < r@.len() ==> r@[k] == self.tiles_of(pc@, pi@)[k],
    {
        let mut feature_indices: Vec<usize> = Vec::new();
        let mut index_offset: usize = 0;
        assert(0 * self.tiling_size() == 0);
        for k in 0..self.tilings.len()
            invariant
                self.wf(),
                self.accepts(pc@.len() as int, pi@.len() as int),
                index_offset == k * self.tiling_size(),
                feature_indices@.len() == k,
                forall|j: int|
                    0 <= j < k ==> feature_indices@[j] == self.tiles_of(pc@, pi@)[j],
        {
            let t = &self.tilings[k];
            let tile = t.get_tile(pc, pi);
            proof {
                lemma_mul_inequality(k + 1, self.tilings@.len() as int, self.tiling_size());
                lemma_mul_is_distributive_add_other_way(self.tiling_size(), k as int, 1);
                lemma_mul_is_commutative(k as int, self.tiling_size());
            }
            feature_indices.push(tile + index_offset);
            index_offset = index_offset + t.tile_count;
        }
        feature_indices
    }
}

} // verus!
