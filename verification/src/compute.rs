//! Monte Carlo estimation of Laplace solutions by walk-on-spheres: for every
//! cell of a rectangular grid a batch of independent random walks is run
//! against the boundary geometry, and the boundary function's values at the
//! walks' terminal points are averaged into one scalar per cell.

use vstd::prelude::*;

verus! {

use rayon::iter::IntoParallelIterator;
use rayon::iter::ParallelIterator;

use crate::COORD_LIMIT;
use crate::SCALE;
use crate::geometry::ClosestPointQuery;
use crate::geometry::Point;
use crate::geometry::answers_all;
use crate::geometry::answers_none;
use crate::geometry::dist2_i128;
use crate::numerics::clamp_i64;
use crate::numerics::div_i128_trunc;
use crate::numerics::div_trunc;
use crate::numerics::isqrt;
use crate::numerics::lemma_div_trunc_bounds;
use crate::numerics::lemma_div_trunc_exact;
use crate::numerics::lemma_mul_bounds;
use crate::numerics::lemma_scale_to_bounds;
use crate::numerics::lemma_scale_to_magnitude;
use crate::numerics::lemma_seq_sum_bounds;
use crate::numerics::lemma_seq_sum_constant;
use crate::numerics::lemma_seq_sum_push;
use crate::numerics::mul_div_trunc;
use crate::numerics::scale_to;
use crate::numerics::seq_sum;

/// An error raised by the solver.
#[derive(Clone, Copy, Debug, PartialEq, Eq, Structural)]
pub enum SolveError {
    /// A configuration parameter was zero or too large for the machine.
    InvalidConfiguration,
    /// A walk step found no closest boundary point; the whole solve is
    /// abandoned, since no estimate is possible without a boundary.
    NoClosestPoint,
}

/// The estimation method to run, together with its boundary data: a
/// Laplace problem carries the Dirichlet boundary function.
pub enum Method2D<F> {
    Laplacian(F),
}

impl<F> Method2D<F> {
    /// The boundary function the method was built with.
    pub open spec fn boundary_of(self) -> F {
        match self {
            Method2D::Laplacian(f) => f,
        }
    }
}

/// `v` is a value the boundary function can return for some in-range point.
pub open spec fn fn_output<F: Fn(Point) -> i64>(f: F, v: i64) -> bool {
    exists|p: Point| p.in_range() && call_ensures(f, (p,), v)
}

/// `v` is the truncated average of `n` values, each of which the boundary
/// function can return for some in-range point.
pub open spec fn is_walk_average<F: Fn(Point) -> i64>(f: F, n: int, v: i64) -> bool {
    exists|vals: Seq<i64>|
        {
            &&& vals.len() == n
            &&& (forall|i: int| 0 <= i < vals.len() ==> fn_output(f, #[trigger] vals[i]))
            &&& v == div_trunc(seq_sum(vals), n)
        }
}

/// Every value the boundary function can return equals `c`.
pub open spec fn returns_constant<F: Fn(Point) -> i64>(f: F, c: i64) -> bool {
    forall|p: Point, v: i64| call_ensures(f, (p,), v) ==> v == c
}

/// What a batch of walks promises of its result, whatever the randomness
/// did: geometry that answers every query makes it succeed, geometry that
/// answers none makes it fail, and a success is an average of boundary
/// function values.
pub open spec fn wos_outcome<G: ClosestPointQuery, F: Fn(Point) -> i64>(
    solver: MonteCarloPDE2D,
    geometry: G,
    f: F,
    r: Result<i64, SolveError>,
) -> bool {
    &&& answers_all(geometry) ==> r is Ok
    &&& answers_none(geometry) ==> r is Err
    &&& (r matches Ok(v) ==> is_walk_average(f, solver.num_walks_pixel as int, v))
    &&& (r matches Err(e) ==> e == SolveError::NoClosestPoint)
}

/// An average of values of a constant boundary function is that constant.
pub proof fn lemma_walk_average_constant<F: Fn(Point) -> i64>(f: F, n: int, v: i64, c: i64)
    requires
        is_walk_average(f, n, v),
        returns_constant(f, c),
        0 < n,
    ensures
        v == c,
{
    let vals = choose|vals: Seq<i64>|
        {
            &&& vals.len() == n
            &&& (forall|i: int| 0 <= i < vals.len() ==> fn_output(f, #[trigger] vals[i]))
            &&& v == div_trunc(seq_sum(vals), n)
        };
    assert forall|i: int| 0 <= i < vals.len() implies #[trigger] vals[i] == c by {
        assert(fn_output(f, vals[i]));
        let p = choose|p: Point| p.in_range() && call_ensures(f, (p,), vals[i]);
        assert(call_ensures(f, (p,), vals[i]));
    }
    lemma_seq_sum_constant(vals, c);
    lemma_div_trunc_exact(n, c as int);
    assert(seq_sum(vals) == n * c);
}

/// Relies on `rand::random`: draws a value of the asked type from the
/// thread-local generator. Nothing can be promised of a random value.
pub assume_specification<T>[ rand::random::<T> ]() -> (r: T)
    where
        rand::distr::StandardUniform: rand::distr::Distribution<T>,
;

/// Draws a direction of the plane: a fixed-point vector of near-unit length,
/// its angle distributed uniformly up to the grid of representable vectors.
/// Vectors are drawn uniformly from a square and kept when their length is
/// between half a unit and one unit, so the accepted angle is uniform; after
/// too many rejections a fixed direction stands in.
fn sample_unit_vec() -> (r: (i64, i64))
    ensures
        250000000000 <= (r.0 as int) * (r.0 as int) + (r.1 as int) * (r.1 as int)
            <= 1000000000000,
        -SCALE <= r.0 <= SCALE,
        -SCALE <= r.1 <= SCALE,
{
    let mut attempt: usize = 0;
    while attempt < 32
        invariant
            attempt <= 32,
        decreases 32 - attempt,
    {
        let rx: u64 = rand::random::<u64>();
        let ry: u64 = rand::random::<u64>();
        let x: i64 = ((rx % 2000001) as i64) - 1000000;
        let y: i64 = ((ry % 2000001) as i64) - 1000000;
        proof {
            lemma_mul_bounds(x as int, x as int, 1000000, 1000000);
            lemma_mul_bounds(y as int, y as int, 1000000, 1000000);
        }
        let n2: i128 = (x as i128) * (x as i128) + (y as i128) * (y as i128);
        if 250000000000 <= n2 && n2 <= 1000000000000 {
            return (x, y);
        }
        attempt = attempt + 1;
    }
    proof {
        assert((SCALE as int) * (SCALE as int) == 1000000000000) by (nonlinear_arith);
    }
    (SCALE, 0)
}

/// The walk-on-spheres solver: grid resolution and the Monte Carlo
/// parameters, fixed at construction.
pub struct MonteCarloPDE2D {
    pub resolution: [usize; 2],
    pub num_walks_pixel: usize,
    pub max_walk_length: usize,
    pub stop_tol: i64,
}

impl MonteCarloPDE2D {
    /// Grid width, in cells.
    pub open spec fn spec_w(self) -> int {
        self.resolution@[0] as int
    }

    /// Grid height, in cells.
    pub open spec fn spec_h(self) -> int {
        self.resolution@[1] as int
    }

    /// All parameters are positive and small enough for the machine: the
    /// cell count fits a `usize` and the walk count leaves room for an exact
    /// sum of samples.
    pub open spec fn wf(self) -> bool {
        &&& 1 <= self.spec_w()
        &&& 1 <= self.spec_h()
        &&& self.spec_w() * self.spec_h() <= usize::MAX
        &&& 1 <= self.num_walks_pixel <= i64::MAX
        &&& 1 <= self.max_walk_length
        &&& 1 <= self.stop_tol
    }

    /// Builds a solver; a zero parameter, or one too large for the machine,
    /// is rejected.
    pub fn new(
        resolution: [usize; 2],
        num_walks_pixel: usize,
        max_walk_length: usize,
        stop_tol: i64,
    ) -> (r: Result<MonteCarloPDE2D, SolveError>)
        ensures
            r is Ok <==> (MonteCarloPDE2D {
                resolution,
                num_walks_pixel,
                max_walk_length,
                stop_tol,
            }).wf(),
            r matches Ok(s) ==> s == (MonteCarloPDE2D {
                resolution,
                num_walks_pixel,
                max_walk_length,
                stop_tol,
            }),
            r matches Err(e) ==> e == SolveError::InvalidConfiguration,
    {
        let cells_ok: bool = match resolution[0].checked_mul(resolution[1]) {
            Some(_) => true,
            None => false,
        };
        if resolution[0] >= 1 && resolution[1] >= 1 && cells_ok && num_walks_pixel >= 1
            && (num_walks_pixel as u128) <= (i64::MAX as u128) && max_walk_length >= 1
            && stop_tol >= 1 {
            Ok(MonteCarloPDE2D { resolution, num_walks_pixel, max_walk_length, stop_tol })
        } else {
            Err(SolveError::InvalidConfiguration)
        }
    }

    /// The domain coordinate of grid cell `pixel_id`: column `pixel_id`
    /// modulo the width, row `pixel_id` over the width, each brought to the
    /// fixed-point scale as a fraction of the resolution.
    pub fn cell_point(&self, pixel_id: usize) -> (r: Point)
        requires
            self.wf(),
            pixel_id < self.spec_w() * self.spec_h(),
        ensures
            r.x == scale_to((pixel_id as int) % self.spec_w(), SCALE as int, self.spec_w()),
            r.y == scale_to((pixel_id as int) / self.spec_w(), SCALE as int, self.spec_h()),
            r.in_range(),
            0 <= r.x <= SCALE,
            0 <= r.y <= SCALE,
    {
        let w: usize = self.resolution[0];
        let h: usize = self.resolution[1];
        let x_coord: usize = pixel_id % w;
        let y_coord: usize = pixel_id / w;
        proof {
            vstd::arithmetic::div_mod::lemma_multiply_divide_lt(
                pixel_id as int,
                w as int,
                h as int,
            );
            assert((pixel_id as int) < self.spec_w() * self.spec_h());
            assert((w as int) * (h as int) == self.spec_w() * self.spec_h());
            lemma_mul_bounds(x_coord as int, SCALE as int, w as int, SCALE as int);
            lemma_mul_bounds(y_coord as int, SCALE as int, h as int, SCALE as int);
        }
        let px: i128 = mul_div_trunc(x_coord as i128, SCALE as i128, w as i128);
        let py: i128 = mul_div_trunc(y_coord as i128, SCALE as i128, h as i128);
        proof {
            lemma_scale_to_bounds(x_coord as int, SCALE as int, w as int);
            lemma_scale_to_bounds(y_coord as int, SCALE as int, h as int);
        }
        Point { x: px as i64, y: py as i64 }
    }

    /// Runs one batch of independent walks from `point_to_check_initial` and
    /// averages the boundary function's values at their terminal points.
    ///
    /// Each walk starts at the initial point and repeatedly jumps to a
    /// near-uniformly random point of the circle around its current point
    /// whose radius is the distance to the nearest boundary point; it stops
    /// once that distance falls under the stop tolerance, or once the step
    /// cap is reached, and its terminal point is used either way. A step
    /// with no nearest boundary point fails the whole batch.
    #[verifier::loop_isolation(false)]
    fn wos_laplace<G, F>(
        &self,
        geometry: &G,
        point_to_check_initial: Point,
        boundry_function: F,
    ) -> (r: Result<i64, SolveError>) where
        G: ClosestPointQuery,
        F: Fn(Point) -> i64 + Copy,

        requires
            self.wf(),
            geometry.cpq_wf(),
            point_to_check_initial.in_range(),
            forall|p: Point| p.in_range() ==> call_requires(boundry_function, (p,)),
        ensures
            wos_outcome(*self, *geometry, boundry_function, r),
    {
        let mut sum: i128 = 0;
        let ghost mut vals: Seq<i64> = Seq::empty();
        let mut walk: usize = 0;
        while walk < self.num_walks_pixel
            invariant
                walk <= self.num_walks_pixel,
                vals.len() == walk,
                forall|i: int| 0 <= i < vals.len() ==> fn_output(
                    boundry_function,
                    #[trigger] vals[i],
                ),
                sum == seq_sum(vals),
                walk > 0 ==> !answers_none(*geometry),
            decreases self.num_walks_pixel - walk,
        {
            let mut point_to_check: Point = point_to_check_initial;
            let mut n: usize = 0;
            let mut stopped: bool = false;
            while !stopped && n < self.max_walk_length
                invariant
                    n <= self.max_walk_length,
                    point_to_check.in_range(),
                    (stopped || n > 0) ==> !answers_none(*geometry),
                decreases self.max_walk_length - n, if stopped { 0int } else { 1int },
            {
                let cbp_opt = geometry.closest_point(point_to_check);
                let closest_boundry_point: Point = match cbp_opt {
                    Some(p) => p,
                    None => {
                        proof {
                            assert(geometry.spec_closest_point(point_to_check) is None);
                        }
                        return Err(SolveError::NoClosestPoint);
                    },
                };
                proof {
                    assert(geometry.spec_closest_point(point_to_check) is Some);
                }
                let d2: i128 = dist2_i128(point_to_check, closest_boundry_point);
                let sphere_radius: i64 = isqrt(d2 as u128) as i64;
                if sphere_radius < self.stop_tol {
                    stopped = true;
                } else {
                    let (ux, uy) = sample_unit_vec();
                    proof {
                        lemma_mul_bounds(ux as int, ux as int, SCALE as int, SCALE as int);
                        lemma_mul_bounds(uy as int, uy as int, SCALE as int, SCALE as int);
                    }
                    let un2: i128 = (ux as i128) * (ux as i128) + (uy as i128) * (uy as i128);
                    let ulen: i64 = isqrt(un2 as u128) as i64;
                    proof {
                        assert(500000 <= ulen <= 1000000) by (nonlinear_arith)
                            requires
                                (ulen as int) * (ulen as int) <= un2 as int,
                                (un2 as int) < (ulen as int + 1) * (ulen as int + 1),
                                0 <= ulen,
                                250000000000 <= un2 as int <= 1000000000000;
                        lemma_mul_bounds(sphere_radius as int, ux as int, 4398046511104, 1000000);
                        lemma_mul_bounds(sphere_radius as int, uy as int, 4398046511104, 1000000);
                        assert(-(2 * (ulen as int)) <= ux as int <= 2 * (ulen as int));
                        assert(-(2 * (ulen as int)) <= uy as int <= 2 * (ulen as int));
                        lemma_scale_to_magnitude(sphere_radius as int, ux as int, ulen as int, 2);
                        lemma_scale_to_magnitude(sphere_radius as int, uy as int, ulen as int, 2);
                        assert((sphere_radius as int) * 2 <= 8796093022208) by (nonlinear_arith)
                            requires 0 <= sphere_radius as int <= 4398046511104;
                    }
                    let dx: i128 = mul_div_trunc(sphere_radius as i128, ux as i128, ulen as i128);
                    let dy: i128 = mul_div_trunc(sphere_radius as i128, uy as i128, ulen as i128);
                    point_to_check = Point {
                        x: clamp_i64(point_to_check.x + (dx as i64), -COORD_LIMIT, COORD_LIMIT),
                        y: clamp_i64(point_to_check.y + (dy as i64), -COORD_LIMIT, COORD_LIMIT),
                    };
                    n = n + 1;
                }
            }
            let v: i64 = boundry_function(point_to_check);
            proof {
                assert(fn_output(boundry_function, v)) by {
                    assert(point_to_check.in_range() && call_ensures(
                        boundry_function,
                        (point_to_check,),
                        v,
                    ));
                }
                lemma_seq_sum_push(vals, v);
                lemma_seq_sum_bounds(vals, i64::MIN as int, i64::MAX as int);
                assert(-i128::MAX <= seq_sum(vals) + v <= i128::MAX) by (nonlinear_arith)
                    requires
                        (vals.len() as int) * (i64::MIN as int) <= seq_sum(vals) <= (
                        vals.len() as int) * (i64::MAX as int),
                        vals.len() <= 9223372036854775806,
                        i64::MIN <= v <= i64::MAX;
            }
            sum = sum + (v as i128);
            proof {
                let prev = vals;
                vals = vals.push(v);
                assert forall|i: int| 0 <= i < vals.len() implies fn_output(
                    boundry_function,
                    #[trigger] vals[i],
                ) by {
                    if i < prev.len() {
                        assert(vals[i] == prev[i]);
                    } else {
                        assert(vals[i] == v);
                    }
                }
            }
            walk = walk + 1;
        }
        proof {
            lemma_seq_sum_bounds(vals, i64::MIN as int, i64::MAX as int);
            assert((vals.len() as int) * (i64::MIN as int) >= -i128::MAX) by (nonlinear_arith)
                requires vals.len() <= 9223372036854775807;
        }
        let avg128: i128 = div_i128_trunc(sum, self.num_walks_pixel as i128);
        proof {
            lemma_div_trunc_bounds(
                seq_sum(vals),
                self.num_walks_pixel as int,
                i64::MIN as int,
                i64::MAX as int,
            );
        }
        let result: i64 = avg128 as i64;
        proof {
            assert(is_walk_average(boundry_function, self.num_walks_pixel as int, result)) by {
                assert(vals.len() == self.num_walks_pixel as int && (forall|i: int|
                    0 <= i < vals.len() ==> fn_output(boundry_function, #[trigger] vals[i]))
                    && result == div_trunc(seq_sum(vals), self.num_walks_pixel as int));
            }
        }
        Ok(result)
    }

    /// Estimates the solution of the Laplace equation over the grid: one
    /// batch of walks per cell, all cells independent, assembled in
    /// row-major order into the result grid.
    ///
    /// Any cell whose walks find no closest boundary point fails the whole
    /// solve; no partial grid is returned.
    #[verifier::loop_isolation(false)]
    pub fn find_pde<G, F>(&self, geometry: &G, method: Method2D<F>) -> (r: Result<
        Vec<i64>,
        SolveError,
    >) where
        G: ClosestPointQuery + Clone + Send + Sync,
        F: Fn(Point) -> i64 + Copy + Send + Sync,

        requires
            self.wf(),
            geometry.cpq_wf(),
            forall|p: Point| p.in_range() ==> call_requires(method.boundary_of(), (p,)),
        ensures
            r matches Ok(grid) ==> grid@.len() == self.spec_w() * self.spec_h(),
            answers_all(*geometry) ==> r is Ok,
            answers_none(*geometry) ==> r is Err,
            r matches Err(e) ==> e == SolveError::NoClosestPoint,
            r matches Ok(grid) ==> forall|i: int|
                0 <= i < grid@.len() ==> is_walk_average(
                    method.boundary_of(),
                    self.num_walks_pixel as int,
                    #[trigger] grid@[i],
                ),
            forall|c: i64| #[trigger] returns_constant(method.boundary_of(), c) ==> (r matches Ok(
                grid,
            ) ==> forall|i: int| 0 <= i < grid@.len() ==> grid@[i] == c),
    {
        let w: usize = self.resolution[0];
        let h: usize = self.resolution[1];
        proof {
            assert(1 <= (w as int) * (h as int)) by (nonlinear_arith)
                requires 1 <= w as int && 1 <= h as int;
        }
        let n_cells: usize = w * h;
        match method {
            Method2D::Laplacian(boundry_function) => {
                let results = par_solve_cells(self, geometry, boundry_function, n_cells);
                let mut grid: Vec<i64> = Vec::new();
                let mut i: usize = 0;
                while i < results.len()
                    invariant
                        i <= results@.len(),
                        grid@.len() == i,
                        forall|j: int| 0 <= j < i ==> (#[trigger] results@[j]) is Ok && grid@[j]
                            == results@[j]->Ok_0,
                    decreases results@.len() - i,
                {
                    match results[i] {
                        Ok(v) => grid.push(v),
                        Err(e) => {
                            proof {
                                assert(wos_outcome(
                                    *self,
                                    *geometry,
                                    boundry_function,
                                    results@[i as int],
                                ));
                            }
                            return Err(e);
                        },
                    }
                    i = i + 1;
                }
                proof {
                    assert(results@[0] is Ok);
                    assert(wos_outcome(*self, *geometry, boundry_function, results@[0]));
                    assert forall|j: int| 0 <= j < grid@.len() implies is_walk_average(
                        boundry_function,
                        self.num_walks_pixel as int,
                        #[trigger] grid@[j],
                    ) by {
                        assert(wos_outcome(*self, *geometry, boundry_function, results@[j]));
                        assert(results@[j] is Ok && grid@[j] == results@[j]->Ok_0);
                    }
                    assert forall|c: i64| #[trigger] returns_constant(
                        boundry_function,
                        c,
                    ) implies forall|j: int| 0 <= j < grid@.len() ==> grid@[j] == c by {
                        assert forall|j: int| 0 <= j < grid@.len() implies grid@[j] == c by {
                            assert(wos_outcome(*self, *geometry, boundry_function, results@[j]));
                            lemma_walk_average_constant(
                                boundry_function,
                                self.num_walks_pixel as int,
                                grid@[j],
                                c,
                            );
                        }
                    }
                }
                Ok(grid)
            },
        }
    }
}

/// One cell's batch of walks: the cell index is turned into its domain
/// coordinate and the walks are run from there.
fn solve_cell<G, F>(
    solver: &MonteCarloPDE2D,
    geometry: &G,
    boundry_function: F,
    pixel_id: usize,
) -> (r: Result<i64, SolveError>) where
    G: ClosestPointQuery,
    F: Fn(Point) -> i64 + Copy,

    requires
        solver.wf(),
        geometry.cpq_wf(),
        pixel_id < solver.spec_w() * solver.spec_h(),
        forall|p: Point| p.in_range() ==> call_requires(boundry_function, (p,)),
    ensures
        wos_outcome(*solver, *geometry, boundry_function, r),
{
    let start = solver.cell_point(pixel_id);
    solver.wos_laplace(geometry, start, boundry_function)
}

/// Relies on rayon's `into_par_iter().map(..).collect()` over an index
/// range: the collected vector holds one element per index, in index order,
/// each the value returned by the mapped call on its index. The closure only
/// calls the verified `solve_cell`, whose contract gives each element's
/// property; the parallel tasks share the geometry read-only and each draw
/// from their own thread-local randomness.
#[verifier::external_body]
fn par_solve_cells<G, F>(
    solver: &MonteCarloPDE2D,
    geometry: &G,
    boundry_function: F,
    n_cells: usize,
) -> (r: Vec<Result<i64, SolveError>>) where
    G: ClosestPointQuery + Clone + Send + Sync,
    F: Fn(Point) -> i64 + Copy + Send + Sync,

    requires
        solver.wf(),
        geometry.cpq_wf(),
        n_cells <= solver.spec_w() * solver.spec_h(),
        forall|p: Point| p.in_range() ==> call_requires(boundry_function, (p,)),
    ensures
        r@.len() == n_cells,
        forall|i: int| 0 <= i < n_cells ==> wos_outcome(
            *solver,
            *geometry,
            boundry_function,
            #[trigger] r@[i],
        ),
{
    (0..n_cells)
        .into_par_iter()
        .map(|pixel_id| solve_cell(solver, geometry, boundry_function, pixel_id))
        .collect()
}

} // verus!
