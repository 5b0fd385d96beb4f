use vstd::prelude::*;
use vstd::string::{StrSliceExecFns, StringExecFns};

use crate::bitgrid::{BitGrid, lemma_flat_index_in_range, lemma_flat_index_injective};
use crate::fbits::{
    ZERO_BITS, ONE_BITS, is_zero_bits, lt_bits, add_bits, sub_bits, mul_bits, div_bits,
    bits_lt, bits_is_zero, fadd, fsub, fmul, fdiv,
};

verus! {

/// The failures that the grid's public operations report.
#[derive(Clone, Copy, Debug, PartialEq, Eq, Structural)]
pub enum GridError {
    /// A text map or a matrix argument has an inadmissible shape.
    MalformedInput,
    /// A coordinate lies outside the grid.
    OutOfBounds,
    /// An estimator update whose gain would be the quotient of two zeros.
    DegenerateUpdate,
}

/// The gain of one estimator step: the prior uncertainty over the sum of the
/// prior uncertainty and the measurement noise.
pub open spec fn kalman_gain_bits(cov: u32, noise: u32) -> u32 {
    div_bits(cov, add_bits(cov, noise))
}

/// The posterior belief of one estimator step: the prior moved toward the
/// measurement by the gain's fraction of their difference.
pub open spec fn kalman_state_bits(state: u32, cov: u32, measurement: u32, noise: u32) -> u32 {
    add_bits(state, mul_bits(kalman_gain_bits(cov, noise), sub_bits(measurement, state)))
}

/// The posterior uncertainty of one estimator step: the prior uncertainty
/// scaled by one minus the gain.
pub open spec fn kalman_cov_bits(cov: u32, noise: u32) -> u32 {
    mul_bits(sub_bits(ONE_BITS, kalman_gain_bits(cov, noise)), cov)
}

/// A one-dimensional recursive Bayesian estimator: a belief and its
/// uncertainty, both IEEE binary32 values held as bit patterns.
#[derive(Clone, Copy, Debug)]
pub struct KalmanNode {
    state_bits: u32,
    covariance_bits: u32,
}

impl KalmanNode {
    /// The pattern of the belief value.
    pub closed spec fn spec_state(&self) -> u32 {
        self.state_bits
    }

    /// The pattern of the uncertainty value.
    pub closed spec fn spec_cov(&self) -> u32 {
        self.covariance_bits
    }

    pub fn new(state_bits: u32, covariance_bits: u32) -> (r: KalmanNode)
        ensures
            r.spec_state() == state_bits,
            r.spec_cov() == covariance_bits,
    {
        KalmanNode { state_bits, covariance_bits }
    }

    pub fn state_bits(&self) -> (r: u32)
        ensures
            r == self.spec_state(),
    {
        self.state_bits
    }

    pub fn covariance_bits(&self) -> (r: u32)
        ensures
            r == self.spec_cov(),
    {
        self.covariance_bits
    }

    /// Folds one measurement into the belief. The update is degenerate — and
    /// refused — exactly when the prior uncertainty and the measurement noise
    /// are both zero, since its gain would then be a quotient of zeros.
    pub fn update(&mut self, measurement_bits: u32, noise_bits: u32) -> (r: Result<u32, GridError>)
        ensures
            r is Err <==> (
                is_zero_bits(old(self).spec_cov()) && is_zero_bits(noise_bits)
            ),
            r is Err ==> r == Err::<u32, GridError>(GridError::DegenerateUpdate)
                && *final(self) == *old(self),
            r is Ok ==> {
                &&& final(self).spec_state() == kalman_state_bits(
                    old(self).spec_state(), old(self).spec_cov(), measurement_bits, noise_bits)
                &&& final(self).spec_cov() == kalman_cov_bits(old(self).spec_cov(), noise_bits)
                &&& r == Ok::<u32, GridError>(final(self).spec_state())
            },
    {
        if bits_is_zero(self.covariance_bits) && bits_is_zero(noise_bits) {
            return Err(GridError::DegenerateUpdate);
        }
        let gain = fdiv(self.covariance_bits, fadd(self.covariance_bits, noise_bits));
        self.state_bits = fadd(self.state_bits, fmul(gain, fsub(measurement_bits, self.state_bits)));
        self.covariance_bits = fmul(fsub(ONE_BITS, gain), self.covariance_bits);
        Ok(self.state_bits)
    }
}

/// Whether a draw realizes a cell as occupied: the belief must be nonzero and
/// the draw must lie strictly below it in the IEEE order.
pub open spec fn sample_outcome(state_bits: u32, draw_bits: u32) -> bool {
    !is_zero_bits(state_bits) && lt_bits(draw_bits, state_bits)
}

/// Draws encode numbers in the unit interval `[0, 1)`: their patterns lie
/// strictly below the pattern of one. For such a draw, a cell with belief zero
/// is never realized, and a cell with belief one always is.
pub proof fn lemma_sample_extremes(state_bits: u32, draw_bits: u32)
    requires
        draw_bits < ONE_BITS,
    ensures
        is_zero_bits(state_bits) ==> !sample_outcome(state_bits, draw_bits),
        state_bits == ONE_BITS ==> sample_outcome(state_bits, draw_bits),
{
    assert(draw_bits & 0x7FFF_FFFF == draw_bits) by (bit_vector)
        requires draw_bits < 0x3F80_0000u32;
    assert(ONE_BITS & 0x7FFF_FFFF == 0x3F80_0000u32) by (bit_vector);
}

/// A grid of per-cell estimators with two bitmaps of the same extents: the
/// fixed ground truth and the current sampled realization. Estimators are held
/// in one flat buffer, column by column.
pub struct SampleGrid {
    sample_grid: Vec<KalmanNode>,
    gridmap: BitGrid,
    ground_truth: BitGrid,
    width: usize,
    height: usize,
}

impl SampleGrid {
    /// The estimator buffer and both bitmaps share the grid's extents.
    pub closed spec fn wf(&self) -> bool {
        &&& self.sample_grid.len() == self.width * self.height
        &&& self.gridmap.wf()
        &&& self.gridmap.spec_width() == self.width
        &&& self.gridmap.spec_height() == self.height
        &&& self.ground_truth.wf()
        &&& self.ground_truth.spec_width() == self.width
        &&& self.ground_truth.spec_height() == self.height
    }

    pub closed spec fn spec_width(&self) -> int {
        self.width as int
    }

    pub closed spec fn spec_height(&self) -> int {
        self.height as int
    }

    /// The belief pattern of one cell.
    pub closed spec fn spec_state(&self, x: int, y: int) -> u32 {
        self.sample_grid[x * self.spec_height() + y].spec_state()
    }

    /// The uncertainty pattern of one cell.
    pub closed spec fn spec_cov(&self, x: int, y: int) -> u32 {
        self.sample_grid[x * self.spec_height() + y].spec_cov()
    }

    /// The realization bitmap's bit of one cell.
    pub closed spec fn spec_realization(&self, x: int, y: int) -> bool {
        self.gridmap.cell(x, y)
    }

    /// The ground-truth bitmap's bit of one cell.
    pub closed spec fn spec_truth(&self, x: int, y: int) -> bool {
        self.ground_truth.cell(x, y)
    }

    /// The ground-truth bitmap as a value, for stating rendering laws.
    pub closed spec fn spec_truth_map(&self) -> BitGrid {
        self.ground_truth
    }

    /// Creates a grid of the given extents: every belief zero, every
    /// uncertainty one, both bitmaps clear.
    #[verifier::loop_isolation(false)]
    pub fn new_with_size(width: usize, height: usize) -> (r: SampleGrid)
        requires
            width * height <= usize::MAX,
        ensures
            r.wf(),
            r.spec_width() == width,
            r.spec_height() == height,
            forall|x: int, y: int| 0 <= x < width && 0 <= y < height ==> {
                &&& r.spec_state(x, y) == ZERO_BITS
                &&& r.spec_cov(x, y) == ONE_BITS
                &&& !r.spec_realization(x, y)
                &&& !r.spec_truth(x, y)
            },
    {
        let n = width * height;
        let mut nodes: Vec<KalmanNode> = Vec::new();
        let mut i: usize = 0;
        while i < n
            invariant
                i <= n,
                nodes.len() == i,
                forall|k: int| 0 <= k < i ==> {
                    &&& (#[trigger] nodes[k]).spec_state() == ZERO_BITS
                    &&& nodes[k].spec_cov() == ONE_BITS
                },
            decreases n - i,
        {
            nodes.push(KalmanNode { state_bits: ZERO_BITS, covariance_bits: ONE_BITS });
            i += 1;
        }
        let r = SampleGrid {
            sample_grid: nodes,
            gridmap: BitGrid::new(width, height),
            ground_truth: BitGrid::new(width, height),
            width,
            height,
        };
        proof {
            assert forall|x: int, y: int|
                0 <= x < width && 0 <= y < height implies r.spec_state(x, y) == ZERO_BITS
                    && r.spec_cov(x, y) == ONE_BITS by {
                lemma_flat_index_in_range(x, y, width as int, height as int);
            }
        }
        r
    }

    pub fn width(&self) -> (r: usize)
        ensures
            r == self.spec_width(),
    {
        self.width
    }

    pub fn height(&self) -> (r: usize)
        ensures
            r == self.spec_height(),
    {
        self.height
    }

    /// The realization bitmap.
    pub fn gridmap(&self) -> (r: &BitGrid)
        requires
            self.wf(),
        ensures
            r.wf(),
            r.spec_width() == self.spec_width(),
            r.spec_height() == self.spec_height(),
            forall|x: int, y: int|
                0 <= x < self.spec_width() && 0 <= y < self.spec_height() ==>
                    r.cell(x, y) == self.spec_realization(x, y),
    {
        &self.gridmap
    }

    /// The ground-truth bitmap.
    pub fn ground_truth(&self) -> (r: &BitGrid)
        requires
            self.wf(),
        ensures
            r.wf(),
            r.spec_width() == self.spec_width(),
            r.spec_height() == self.spec_height(),
            forall|x: int, y: int|
                0 <= x < self.spec_width() && 0 <= y < self.spec_height() ==>
                    r.cell(x, y) == self.spec_truth(x, y),
    {
        &self.ground_truth
    }

    /// The belief pattern of one cell.
    pub fn state_bits(&self, x: usize, y: usize) -> (r: Result<u32, GridError>)
        requires
            self.wf(),
        ensures
            x < self.spec_width() && y < self.spec_height() ==>
                r == Ok::<u32, GridError>(self.spec_state(x as int, y as int)),
            !(x < self.spec_width() && y < self.spec_height()) ==>
                r == Err::<u32, GridError>(GridError::OutOfBounds),
    {
        if !self.bound_check(x, y) {
            return Err(GridError::OutOfBounds);
        }
        proof {
            lemma_flat_index_in_range(x as int, y as int, self.spec_width(), self.spec_height());
        }
        Ok(self.sample_grid[x * self.height + y].state_bits())
    }

    /// The uncertainty pattern of one cell.
    pub fn covariance_bits(&self, x: usize, y: usize) -> (r: Result<u32, GridError>)
        requires
            self.wf(),
        ensures
            x < self.spec_width() && y < self.spec_height() ==>
                r == Ok::<u32, GridError>(self.spec_cov(x as int, y as int)),
            !(x < self.spec_width() && y < self.spec_height()) ==>
                r == Err::<u32, GridError>(GridError::OutOfBounds),
    {
        if !self.bound_check(x, y) {
            return Err(GridError::OutOfBounds);
        }
        proof {
            lemma_flat_index_in_range(x as int, y as int, self.spec_width(), self.spec_height());
        }
        Ok(self.sample_grid[x * self.height + y].covariance_bits())
    }

    /// Whether the coordinates lie inside the grid.
    fn bound_check(&self, x: usize, y: usize) -> (r: bool)
        ensures
            r == (x < self.spec_width() && y < self.spec_height()),
    {
        x < self.width && y < self.height
    }

    /// Recomputes the realization bitmap on the rectangle
    /// `[x0, x0 + w) x [y0, y0 + h)`: a bit is set exactly when the cell's
    /// belief is nonzero. The rectangle must lie inside the grid.
    #[verifier::loop_isolation(false)]
    fn sync_area_unchecked(&mut self, x0: usize, y0: usize, w: usize, h: usize)
        requires
            old(self).wf(),
            x0 + w <= old(self).spec_width(),
            y0 + h <= old(self).spec_height(),
        ensures
            final(self).wf(),
            final(self).spec_width() == old(self).spec_width(),
            final(self).spec_height() == old(self).spec_height(),
            forall|x: int, y: int|
                0 <= x < old(self).spec_width() && 0 <= y < old(self).spec_height() ==> {
                    &&& final(self).spec_state(x, y) == old(self).spec_state(x, y)
                    &&& final(self).spec_cov(x, y) == old(self).spec_cov(x, y)
                    &&& final(self).spec_truth(x, y) == old(self).spec_truth(x, y)
                    &&& final(self).spec_realization(x, y) == (
                        if x0 <= x < x0 + w && y0 <= y < y0 + h {
                            !is_zero_bits(old(self).spec_state(x, y))
                        } else {
                            old(self).spec_realization(x, y)
                        })
                },
    {
        let x_end = x0 + w;
        let y_end = y0 + h;
        let mut x = x0;
        while x < x_end
            invariant
                old(self).wf(),
                self.wf(),
                x0 <= x <= x_end,
                x_end <= self.spec_width(),
                y_end <= self.spec_height(),
                x_end == x0 + w,
                y_end == y0 + h,
                self.spec_width() == old(self).spec_width(),
                self.spec_height() == old(self).spec_height(),
                forall|a: int, b: int|
                    0 <= a < self.spec_width() && 0 <= b < self.spec_height() ==> {
                        &&& self.spec_state(a, b) == old(self).spec_state(a, b)
                        &&& self.spec_cov(a, b) == old(self).spec_cov(a, b)
                        &&& self.spec_truth(a, b) == old(self).spec_truth(a, b)
                        &&& self.spec_realization(a, b) == (
                            if x0 <= a < x && y0 <= b < y_end {
                                !is_zero_bits(old(self).spec_state(a, b))
                            } else {
                                old(self).spec_realization(a, b)
                            })
                    },
            decreases x_end - x,
        {
            let mut y = y0;
            while y < y_end
                invariant
                    old(self).wf(),
                    self.wf(),
                    x0 <= x < x_end,
                    y0 <= y <= y_end,
                    x_end <= self.spec_width(),
                    y_end <= self.spec_height(),
                    x_end == x0 + w,
                    y_end == y0 + h,
                    self.spec_width() == old(self).spec_width(),
                    self.spec_height() == old(self).spec_height(),
                    forall|a: int, b: int|
                        0 <= a < self.spec_width() && 0 <= b < self.spec_height() ==> {
                            &&& self.spec_state(a, b) == old(self).spec_state(a, b)
                            &&& self.spec_cov(a, b) == old(self).spec_cov(a, b)
                            &&& self.spec_truth(a, b) == old(self).spec_truth(a, b)
                            &&& self.spec_realization(a, b) == (
                                if x0 <= a < x && y0 <= b < y_end {
                                    !is_zero_bits(old(self).spec_state(a, b))
                                } else if a == x && y0 <= b < y {
                                    !is_zero_bits(old(self).spec_state(a, b))
                                } else {
                                    old(self).spec_realization(a, b)
                                })
                        },
                decreases y_end - y,
            {
                proof {
                    lemma_flat_index_in_range(x as int, y as int, self.spec_width(), self.spec_height());
                }
                let nz = !bits_is_zero(self.sample_grid[x * self.height + y].state_bits());
                self.gridmap.set(x, y, nz);
                y += 1;
            }
            x += 1;
        }
    }

    /// Recomputes the realization bitmap on the given rectangle; reports
    /// `OutOfBounds` exactly when the rectangle leaves the grid.
    pub fn init_gridmap_area(&mut self, x0: usize, y0: usize, w: usize, h: usize) -> (r: Result<
        (),
        GridError,
    >)
        requires
            old(self).wf(),
        ensures
            final(self).wf(),
            r is Ok <==> x0 + w <= old(self).spec_width() && y0 + h <= old(self).spec_height(),
            r is Err ==> r == Err::<(), GridError>(GridError::OutOfBounds)
                && *final(self) == *old(self),
            r is Ok ==> {
                &&& final(self).spec_width() == old(self).spec_width()
                &&& final(self).spec_height() == old(self).spec_height()
                &&& forall|x: int, y: int|
                    0 <= x < old(self).spec_width() && 0 <= y < old(self).spec_height() ==> {
                        &&& final(self).spec_state(x, y) == old(self).spec_state(x, y)
                        &&& final(self).spec_cov(x, y) == old(self).spec_cov(x, y)
                        &&& final(self).spec_truth(x, y) == old(self).spec_truth(x, y)
                        &&& final(self).spec_realization(x, y) == (
                            if x0 <= x < x0 + w && y0 <= y < y0 + h {
                                !is_zero_bits(old(self).spec_state(x, y))
                            } else {
                                old(self).spec_realization(x, y)
                            })
                    }
            },
    {
        if w > self.width || x0 > self.width - w || h > self.height || y0 > self.height - h {
            return Err(GridError::OutOfBounds);
        }
        self.sync_area_unchecked(x0, y0, w, h);
        Ok(())
    }

    /// Recomputes the realization bitmap on the square neighborhood of
    /// half-width `radius + 1` around the cell, clipped to the grid: the lower
    /// corner saturates at zero and the upper corner at the grid's extents.
    /// Reports `OutOfBounds` exactly when the center cell leaves the grid.
    pub fn init_gridmap_radius(&mut self, x: usize, y: usize, radius: usize) -> (r: Result<
        (),
        GridError,
    >)
        requires
            old(self).wf(),
        ensures
            final(self).wf(),
            r is Ok <==> x < old(self).spec_width() && y < old(self).spec_height(),
            r is Err ==> r == Err::<(), GridError>(GridError::OutOfBounds)
                && *final(self) == *old(self),
            r is Ok ==> {
                &&& final(self).spec_width() == old(self).spec_width()
                &&& final(self).spec_height() == old(self).spec_height()
                &&& forall|a: int, b: int|
                    0 <= a < old(self).spec_width() && 0 <= b < old(self).spec_height() ==> {
                        &&& final(self).spec_state(a, b) == old(self).spec_state(a, b)
                        &&& final(self).spec_cov(a, b) == old(self).spec_cov(a, b)
                        &&& final(self).spec_truth(a, b) == old(self).spec_truth(a, b)
                        &&& final(self).spec_realization(a, b) == (
                            if radius_clip_low(x as int, radius as int) <= a
                                && a < radius_clip_high(x as int, radius as int, old(self).spec_width())
                                && radius_clip_low(y as int, radius as int) <= b
                                && b < radius_clip_high(y as int, radius as int, old(self).spec_height()) {
                                !is_zero_bits(old(self).spec_state(a, b))
                            } else {
                                old(self).spec_realization(a, b)
                            })
                    }
            },
    {
        if !self.bound_check(x, y) {
            return Err(GridError::OutOfBounds);
        }
        let rad = radius.saturating_add(1);
        let x_min = x.saturating_sub(rad);
        let y_min = y.saturating_sub(rad);
        let x_max = min_usize(x.saturating_add(rad), self.width);
        let y_max = min_usize(y.saturating_add(rad), self.height);
        self.sync_area_unchecked(x_min, y_min, x_max - x_min, y_max - y_min);
        Ok(())
    }

    /// Recomputes the whole realization bitmap from the belief field.
    pub fn init_gridmap(&mut self)
        requires
            old(self).wf(),
        ensures
            final(self).wf(),
            final(self).spec_width() == old(self).spec_width(),
            final(self).spec_height() == old(self).spec_height(),
            forall|x: int, y: int|
                0 <= x < old(self).spec_width() && 0 <= y < old(self).spec_height() ==> {
                    &&& final(self).spec_state(x, y) == old(self).spec_state(x, y)
                    &&& final(self).spec_cov(x, y) == old(self).spec_cov(x, y)
                    &&& final(self).spec_truth(x, y) == old(self).spec_truth(x, y)
                    &&& final(self).spec_realization(x, y)
                        == !is_zero_bits(old(self).spec_state(x, y))
                },
    {
        let w = self.width;
        let h = self.height;
        self.sync_area_unchecked(0, 0, w, h);
    }

    /// Recomputes the whole ground-truth bitmap from the belief field: a bit
    /// is set exactly when the cell's belief is nonzero.
    pub fn init_ground_truth(&mut self)
        requires
            old(self).wf(),
        ensures
            final(self).wf(),
            final(self).spec_width() == old(self).spec_width(),
            final(self).spec_height() == old(self).spec_height(),
            forall|x: int, y: int|
                0 <= x < old(self).spec_width() && 0 <= y < old(self).spec_height() ==> {
                    &&& final(self).spec_state(x, y) == old(self).spec_state(x, y)
                    &&& final(self).spec_cov(x, y) == old(self).spec_cov(x, y)
                    &&& final(self).spec_realization(x, y) == old(self).spec_realization(x, y)
                    &&& final(self).spec_truth(x, y)
                        == !is_zero_bits(old(self).spec_state(x, y))
                },
    {
        let mut x: usize = 0;
        while x < self.width
            invariant
                old(self).wf(),
                self.wf(),
                x <= self.spec_width(),
                self.spec_width() == old(self).spec_width(),
                self.spec_height() == old(self).spec_height(),
                forall|a: int, b: int|
                    0 <= a < self.spec_width() && 0 <= b < self.spec_height() ==> {
                        &&& self.spec_state(a, b) == old(self).spec_state(a, b)
                        &&& self.spec_cov(a, b) == old(self).spec_cov(a, b)
                        &&& self.spec_realization(a, b) == old(self).spec_realization(a, b)
                        &&& self.spec_truth(a, b) == (
                            if a < x {
                                !is_zero_bits(old(self).spec_state(a, b))
                            } else {
                                old(self).spec_truth(a, b)
                            })
                    },
            decreases self.spec_width() - x,
        {
            let mut y: usize = 0;
            while y < self.height
                invariant
                    old(self).wf(),
                    self.wf(),
                    x < self.spec_width(),
                    y <= self.spec_height(),
                    self.spec_width() == old(self).spec_width(),
                    self.spec_height() == old(self).spec_height(),
                    forall|a: int, b: int|
                        0 <= a < self.spec_width() && 0 <= b < self.spec_height() ==> {
                            &&& self.spec_state(a, b) == old(self).spec_state(a, b)
                            &&& self.spec_cov(a, b) == old(self).spec_cov(a, b)
                            &&& self.spec_realization(a, b) == old(self).spec_realization(a, b)
                            &&& self.spec_truth(a, b) == (
                                if a < x || (a == x && b < y) {
                                    !is_zero_bits(old(self).spec_state(a, b))
                                } else {
                                    old(self).spec_truth(a, b)
                                })
                        },
                decreases self.spec_height() - y,
            {
                proof {
                    lemma_flat_index_in_range(x as int, y as int, self.spec_width(), self.spec_height());
                }
                let nz = !bits_is_zero(self.sample_grid[x * self.height + y].state_bits());
                self.ground_truth.set(x, y, nz);
                y += 1;
            }
            x += 1;
        }
    }

    /// Realizes one cell from one draw: the realization bit becomes true
    /// exactly when the belief is nonzero and the draw lies below it. Reports
    /// `OutOfBounds` exactly when the cell leaves the grid.
    pub fn sample(&mut self, x: usize, y: usize, draw_bits: u32) -> (r: Result<(), GridError>)
        requires
            old(self).wf(),
        ensures
            final(self).wf(),
            r is Ok <==> x < old(self).spec_width() && y < old(self).spec_height(),
            r is Err ==> r == Err::<(), GridError>(GridError::OutOfBounds)
                && *final(self) == *old(self),
            r is Ok ==> {
                &&& final(self).spec_width() == old(self).spec_width()
                &&& final(self).spec_height() == old(self).spec_height()
                &&& forall|a: int, b: int|
                    0 <= a < old(self).spec_width() && 0 <= b < old(self).spec_height() ==> {
                        &&& final(self).spec_state(a, b) == old(self).spec_state(a, b)
                        &&& final(self).spec_cov(a, b) == old(self).spec_cov(a, b)
                        &&& final(self).spec_truth(a, b) == old(self).spec_truth(a, b)
                        &&& final(self).spec_realization(a, b) == (
                            if a == x && b == y {
                                sample_outcome(old(self).spec_state(a, b), draw_bits)
                            } else {
                                old(self).spec_realization(a, b)
                            })
                    }
            },
    {
        if !self.bound_check(x, y) {
            return Err(GridError::OutOfBounds);
        }
        proof {
            lemma_flat_index_in_range(x as int, y as int, self.spec_width(), self.spec_height());
        }
        let state = self.sample_grid[x * self.height + y].state_bits();
        let value = !bits_is_zero(state) && bits_lt(draw_bits, state);
        self.gridmap.set(x, y, value);
        Ok(())
    }

    /// Realizes every cell independently, one draw per cell, in the same flat
    /// order as the estimator buffer. Reports `MalformedInput` exactly when
    /// the number of draws differs from the number of cells.
    #[verifier::loop_isolation(false)]
    pub fn sample_all(&mut self, draws: &Vec<u32>) -> (r: Result<(), GridError>)
        requires
            old(self).wf(),
        ensures
            final(self).wf(),
            r is Ok <==> draws.len() == old(self).spec_width() * old(self).spec_height(),
            r is Err ==> r == Err::<(), GridError>(GridError::MalformedInput)
                && *final(self) == *old(self),
            r is Ok ==> {
                &&& final(self).spec_width() == old(self).spec_width()
                &&& final(self).spec_height() == old(self).spec_height()
                &&& forall|a: int, b: int|
                    0 <= a < old(self).spec_width() && 0 <= b < old(self).spec_height() ==> {
                        &&& final(self).spec_state(a, b) == old(self).spec_state(a, b)
                        &&& final(self).spec_cov(a, b) == old(self).spec_cov(a, b)
                        &&& final(self).spec_truth(a, b) == old(self).spec_truth(a, b)
                        &&& final(self).spec_realization(a, b) == sample_outcome(
                            old(self).spec_state(a, b),
                            draws[a * old(self).spec_height() + b],
                        )
                    }
            },
    {
        if draws.len() != self.sample_grid.len() {
            return Err(GridError::MalformedInput);
        }
        let mut x: usize = 0;
        while x < self.width
            invariant
                old(self).wf(),
                self.wf(),
                x <= self.spec_width(),
                draws.len() == self.spec_width() * self.spec_height(),
                self.spec_width() == old(self).spec_width(),
                self.spec_height() == old(self).spec_height(),
                forall|a: int, b: int|
                    0 <= a < self.spec_width() && 0 <= b < self.spec_height() ==> {
                        &&& self.spec_state(a, b) == old(self).spec_state(a, b)
                        &&& self.spec_cov(a, b) == old(self).spec_cov(a, b)
                        &&& self.spec_truth(a, b) == old(self).spec_truth(a, b)
                        &&& self.spec_realization(a, b) == (
                            if a < x {
                                sample_outcome(
                                    old(self).spec_state(a, b),
                                    draws[a * self.spec_height() + b],
                                )
                            } else {
                                old(self).spec_realization(a, b)
                            })
                    },
            decreases self.spec_width() - x,
        {
            let mut y: usize = 0;
            while y < self.height
                invariant
                    old(self).wf(),
                    self.wf(),
                    x < self.spec_width(),
                    y <= self.spec_height(),
                    draws.len() == self.spec_width() * self.spec_height(),
                    self.spec_width() == old(self).spec_width(),
                    self.spec_height() == old(self).spec_height(),
                    forall|a: int, b: int|
                        0 <= a < self.spec_width() && 0 <= b < self.spec_height() ==> {
                            &&& self.spec_state(a, b) == old(self).spec_state(a, b)
                            &&& self.spec_cov(a, b) == old(self).spec_cov(a, b)
                            &&& self.spec_truth(a, b) == old(self).spec_truth(a, b)
                            &&& self.spec_realization(a, b) == (
                                if a < x || (a == x && b < y) {
                                    sample_outcome(
                                        old(self).spec_state(a, b),
                                        draws[a * self.spec_height() + b],
                                    )
                                } else {
                                    old(self).spec_realization(a, b)
                                })
                        },
                decreases self.spec_height() - y,
            {
                proof {
                    lemma_flat_index_in_range(x as int, y as int, self.spec_width(), self.spec_height());
                }
                let idx = x * self.height + y;
                let state = self.sample_grid[idx].state_bits();
                let value = !bits_is_zero(state) && bits_lt(draws[idx], state);
                self.gridmap.set(x, y, value);
                y += 1;
            }
            x += 1;
        }
        Ok(())
    }

    /// Feeds the ground truth of one cell — one where the truth bit is set,
    /// zero otherwise — into that cell's estimator as a measurement with the
    /// given noise. Reports `OutOfBounds` exactly when the cell leaves the
    /// grid, and `DegenerateUpdate` exactly when the cell's uncertainty and
    /// the noise are both zero; either way the grid is unchanged.
    pub fn update_sample(&mut self, x: usize, y: usize, noise_bits: u32) -> (r: Result<
        u32,
        GridError,
    >)
        requires
            old(self).wf(),
        ensures
            final(self).wf(),
            r == Err::<u32, GridError>(GridError::OutOfBounds) <==> !(
                x < old(self).spec_width() && y < old(self).spec_height()),
            r == Err::<u32, GridError>(GridError::DegenerateUpdate) <==> (
                x < old(self).spec_width() && y < old(self).spec_height()
                && is_zero_bits(old(self).spec_cov(x as int, y as int))
                && is_zero_bits(noise_bits)),
            r is Ok <==> (
                x < old(self).spec_width() && y < old(self).spec_height()
                && !(is_zero_bits(old(self).spec_cov(x as int, y as int))
                    && is_zero_bits(noise_bits))),
            r is Err ==> *final(self) == *old(self),
            r is Ok ==> {
                let measurement = if old(self).spec_truth(x as int, y as int) {
                    ONE_BITS
                } else {
                    ZERO_BITS
                };
                &&& final(self).spec_width() == old(self).spec_width()
                &&& final(self).spec_height() == old(self).spec_height()
                &&& final(self).spec_state(x as int, y as int) == kalman_state_bits(
                    old(self).spec_state(x as int, y as int),
                    old(self).spec_cov(x as int, y as int),
                    measurement,
                    noise_bits,
                )
                &&& final(self).spec_cov(x as int, y as int) == kalman_cov_bits(
                    old(self).spec_cov(x as int, y as int),
                    noise_bits,
                )
                &&& r == Ok::<u32, GridError>(final(self).spec_state(x as int, y as int))
                &&& forall|a: int, b: int|
                    0 <= a < old(self).spec_width() && 0 <= b < old(self).spec_height()
                        && !(a == x && b == y) ==> {
                        &&& final(self).spec_state(a, b) == old(self).spec_state(a, b)
                        &&& final(self).spec_cov(a, b) == old(self).spec_cov(a, b)
                    }
                &&& forall|a: int, b: int|
                    0 <= a < old(self).spec_width() && 0 <= b < old(self).spec_height() ==> {
                        &&& final(self).spec_truth(a, b) == old(self).spec_truth(a, b)
                        &&& final(self).spec_realization(a, b) == old(self).spec_realization(a, b)
                    }
            },
    {
        if !self.bound_check(x, y) {
            return Err(GridError::OutOfBounds);
        }
        proof {
            lemma_flat_index_in_range(x as int, y as int, self.spec_width(), self.spec_height());
        }
        let idx = x * self.height + y;
        let measurement = if self.ground_truth.get(x, y) {
            ONE_BITS
        } else {
            ZERO_BITS
        };
        let mut node = self.sample_grid[idx];
        let updated = node.update(measurement, noise_bits);
        match updated {
            Ok(new_state) => {
                self.sample_grid[idx] = node;
                proof {
                    assert forall|a: int, b: int|
                        0 <= a < old(self).spec_width() && 0 <= b < old(self).spec_height()
                            && !(a == x && b == y) implies
                            self.spec_state(a, b) == old(self).spec_state(a, b)
                            && self.spec_cov(a, b) == old(self).spec_cov(a, b) by {
                        lemma_flat_index_in_range(a, b, self.spec_width(), self.spec_height());
                        lemma_flat_index_injective(a, b, x as int, y as int, self.spec_height());
                    }
                }
                Ok(new_state)
            },
            Err(e) => Err(e),
        }
    }
    /// Overwrites the belief pattern of one cell, leaving its uncertainty and
    /// every other cell untouched.
    fn set_state(&mut self, x: usize, y: usize, bits: u32)
        requires
            old(self).wf(),
            x < old(self).spec_width(),
            y < old(self).spec_height(),
        ensures
            final(self).wf(),
            final(self).spec_width() == old(self).spec_width(),
            final(self).spec_height() == old(self).spec_height(),
            final(self).spec_state(x as int, y as int) == bits,
            final(self).spec_cov(x as int, y as int) == old(self).spec_cov(x as int, y as int),
            forall|a: int, b: int|
                0 <= a < old(self).spec_width() && 0 <= b < old(self).spec_height()
                    && !(a == x && b == y) ==> {
                    &&& final(self).spec_state(a, b) == old(self).spec_state(a, b)
                    &&& final(self).spec_cov(a, b) == old(self).spec_cov(a, b)
                },
            forall|a: int, b: int|
                0 <= a < old(self).spec_width() && 0 <= b < old(self).spec_height() ==> {
                    &&& final(self).spec_truth(a, b) == old(self).spec_truth(a, b)
                    &&& final(self).spec_realization(a, b) == old(self).spec_realization(a, b)
                },
    {
        proof {
            lemma_flat_index_in_range(x as int, y as int, self.spec_width(), self.spec_height());
        }
        let idx = x * self.height + y;
        let node = self.sample_grid[idx];
        self.sample_grid[idx] = KalmanNode { state_bits: bits, covariance_bits: node.covariance_bits };
        proof {
            assert forall|a: int, b: int|
                0 <= a < old(self).spec_width() && 0 <= b < old(self).spec_height()
                    && !(a == x && b == y) implies
                    self.spec_state(a, b) == old(self).spec_state(a, b)
                    && self.spec_cov(a, b) == old(self).spec_cov(a, b) by {
                lemma_flat_index_in_range(a, b, self.spec_width(), self.spec_height());
                lemma_flat_index_injective(a, b, x as int, y as int, self.spec_height());
            }
        }
    }

    /// Builds a grid from a text map. A line break is supplied at the end of
    /// the text where one is missing; the text must then consist of rows of
    /// one common positive width, each terminated by a line break, or
    /// `MalformedInput` is reported. Every cell showing `@` keeps belief zero
    /// and every other cell is given belief one; the ground-truth bitmap is
    /// then derived from the beliefs, and the realization bitmap is left
    /// clear.
    #[verifier::loop_isolation(false)]
    pub fn new_from_string(map: String) -> (r: Result<SampleGrid, GridError>)
        ensures
            r is Ok <==> map_text_wf(normalized_text(map@)),
            r is Err ==> r == Err::<SampleGrid, GridError>(GridError::MalformedInput),
            r is Ok ==> {
                let t = normalized_text(map@);
                let g = r->Ok_0;
                &&& g.wf()
                &&& g.spec_width() == map_text_width(t)
                &&& g.spec_height() == map_text_height(t)
                &&& forall|x: int, y: int|
                    0 <= x < g.spec_width() && 0 <= y < g.spec_height() ==> {
                        &&& g.spec_state(x, y) == (
                            if map_text_char(t, x, y) == '@' { ZERO_BITS } else { ONE_BITS })
                        &&& g.spec_cov(x, y) == ONE_BITS
                        &&& g.spec_truth(x, y) == (map_text_char(t, x, y) != '@')
                        &&& !g.spec_realization(x, y)
                    }
            },
    {
        proof {
            reveal_strlit("\n");
        }
        let mut text = map;
        let n0 = text.as_str().unicode_len();
        if n0 == 0 || text.as_str().get_char(n0 - 1) != '\n' {
            text.append("\n");
            proof {
                assert(text@ =~= normalized_text(map@));
            }
        }
        let ghost t = normalized_text(map@);
        let n = text.as_str().unicode_len();
        let mut w: usize = 0;
        while text.as_str().get_char(w) != '\n'
            invariant
                w < n,
                n == t.len(),
                text@ == t,
                t[n - 1] == '\n',
                forall|i: int| 0 <= i < w ==> t[i] != '\n',
            decreases n - w,
        {
            w += 1;
        }
        proof {
            lemma_first_line_break_at(t, w as int);
        }
        if w == 0 {
            return Err(GridError::MalformedInput);
        }
        let rowlen = w + 1;
        if n % rowlen != 0 {
            return Err(GridError::MalformedInput);
        }
        let h = n / rowlen;
        let mut p: usize = 0;
        while p < n
            invariant
                p <= n,
                forall|i: int| 0 <= i < p ==> ((t[i] == '\n') <==> (i % (w as int + 1) == w as int)),
            decreases n - p,
        {
            let c = text.as_str().get_char(p);
            if (c == '\n') != (p % rowlen == w) {
                return Err(GridError::MalformedInput);
            }
            p += 1;
        }
        proof {
            assert(map_text_wf(t));
            vstd::arithmetic::div_mod::lemma_fundamental_div_mod(n as int, rowlen as int);
            assert(w as int * h as int <= n as int) by (nonlinear_arith)
                requires n as int == (w as int + 1) * h as int, w >= 0, h >= 0;
        }
        let mut g = SampleGrid::new_with_size(w, h);
        let mut y: usize = 0;
        while y < h
            invariant
                y <= h,
                g.wf(),
                g.spec_width() == w,
                g.spec_height() == h,
                n == t.len(),
                text@ == t,
                n as int == (w as int + 1) * h as int,
                first_line_break(t) == w,
                forall|a: int, b: int| 0 <= a < w && 0 <= b < h ==> {
                    &&& g.spec_state(a, b) == (
                        if b < y && map_text_char(t, a, b) != '@' { ONE_BITS } else { ZERO_BITS })
                    &&& g.spec_cov(a, b) == ONE_BITS
                    &&& !g.spec_realization(a, b)
                    &&& !g.spec_truth(a, b)
                },
            decreases h - y,
        {
            let mut x: usize = 0;
            while x < w
                invariant
                    y < h,
                    x <= w,
                    g.wf(),
                    g.spec_width() == w,
                    g.spec_height() == h,
                    n == t.len(),
                    text@ == t,
                    n as int == (w as int + 1) * h as int,
                    first_line_break(t) == w,
                    forall|a: int, b: int| 0 <= a < w && 0 <= b < h ==> {
                        &&& g.spec_state(a, b) == (
                            if (b < y || (b == y && a < x)) && map_text_char(t, a, b) != '@' {
                                ONE_BITS
                            } else {
                                ZERO_BITS
                            })
                        &&& g.spec_cov(a, b) == ONE_BITS
                        &&& !g.spec_realization(a, b)
                        &&& !g.spec_truth(a, b)
                    },
                decreases w - x,
            {
                proof {
                    assert(y as int * (w as int + 1) + x < n as int
                        && y as int * (w as int + 1) + x >= 0) by (nonlinear_arith)
                        requires
                            0 <= x < w as int,
                            0 <= y < h as int,
                            n as int == (w as int + 1) * h as int;
                }
                let pos = y * rowlen + x;
                let c = text.as_str().get_char(pos);
                if c != '@' {
                    g.set_state(x, y, ONE_BITS);
                }
                x += 1;
            }
            y += 1;
        }
        g.init_ground_truth();
        Ok(g)
    }

    /// Builds a grid from an explicit belief matrix, given column by column as
    /// bit patterns, together with a ground-truth bitmap of the same extents;
    /// a ragged or empty matrix, or mismatched extents, are reported as
    /// `MalformedInput`. Every uncertainty starts at one, and the realization
    /// bitmap is synchronized from the beliefs at once.
    #[verifier::loop_isolation(false)]
    pub fn new_from_grid(states: Vec<Vec<u32>>, ground_truth: BitGrid) -> (r: Result<
        SampleGrid,
        GridError,
    >)
        requires
            ground_truth.wf(),
        ensures
            r is Ok <==> belief_matrix_wf(states, ground_truth),
            r is Err ==> r == Err::<SampleGrid, GridError>(GridError::MalformedInput),
            r is Ok ==> {
                let g = r->Ok_0;
                &&& g.wf()
                &&& g.spec_width() == states.len()
                &&& g.spec_height() == states[0].len()
                &&& forall|x: int, y: int|
                    0 <= x < g.spec_width() && 0 <= y < g.spec_height() ==> {
                        &&& g.spec_state(x, y) == states[x][y]
                        &&& g.spec_cov(x, y) == ONE_BITS
                        &&& g.spec_truth(x, y) == ground_truth.cell(x, y)
                        &&& g.spec_realization(x, y) == !is_zero_bits(states[x][y])
                    }
            },
    {
        let w = states.len();
        if w == 0 || ground_truth.width() != w {
            return Err(GridError::MalformedInput);
        }
        let h = states[0].len();
        if ground_truth.height() != h {
            return Err(GridError::MalformedInput);
        }
        let mut x: usize = 0;
        while x < w
            invariant
                x <= w,
                w == states.len(),
                forall|i: int| 0 <= i < x ==> (#[trigger] states[i]).len() == h,
            decreases w - x,
        {
            if states[x].len() != h {
                return Err(GridError::MalformedInput);
            }
            x += 1;
        }
        proof {
            crate::bitgrid::lemma_wf_size(&ground_truth);
        }
        let mut nodes: Vec<KalmanNode> = Vec::new();
        let mut x: usize = 0;
        while x < w
            invariant
                x <= w,
                w == states.len(),
                forall|i: int| 0 <= i < w ==> (#[trigger] states[i]).len() == h,
                w * h <= usize::MAX,
                nodes.len() == x * h,
                forall|a: int, b: int| 0 <= a < x && 0 <= b < h ==> {
                    &&& (#[trigger] nodes[a * h as int + b]).spec_state() == states[a][b]
                    &&& nodes[a * h as int + b].spec_cov() == ONE_BITS
                },
            decreases w - x,
        {
            let mut y: usize = 0;
            while y < h
                invariant
                    x < w,
                    y <= h,
                    w == states.len(),
                    forall|i: int| 0 <= i < w ==> (#[trigger] states[i]).len() == h,
                    w * h <= usize::MAX,
                    nodes.len() == x * h + y,
                    forall|a: int, b: int|
                        (0 <= a < x && 0 <= b < h) || (a == x && 0 <= b < y) ==> {
                            &&& (#[trigger] nodes[a * h as int + b]).spec_state() == states[a][b]
                            &&& nodes[a * h as int + b].spec_cov() == ONE_BITS
                        },
                decreases h - y,
            {
                proof {
                    lemma_flat_index_in_range(x as int, y as int, w as int, h as int);
                }
                nodes.push(KalmanNode { state_bits: states[x][y], covariance_bits: ONE_BITS });
                proof {
                    assert forall|a: int, b: int|
                        (0 <= a < x && 0 <= b < h) || (a == x as int && 0 <= b < y + 1) implies
                        (#[trigger] nodes[a * h as int + b]).spec_state() == states[a][b]
                            && nodes[a * h as int + b].spec_cov() == ONE_BITS by {
                        lemma_flat_index_in_range(a, b, w as int, h as int);
                        if !(a == x as int && b == y as int) {
                            assert(a * h as int + b < x as int * h as int + y as int)
                                by (nonlinear_arith)
                                requires
                                    (0 <= a < x as int && 0 <= b < h as int)
                                        || (a == x as int && 0 <= b < y as int),
                                    0 <= y as int,
                                    0 < h as int;
                        }
                    }
                }
                y += 1;
            }
            proof {
                assert((x as int + 1) * h as int == x as int * h as int + h as int)
                    by (nonlinear_arith);
            }
            x += 1;
        }
        let mut g = SampleGrid {
            sample_grid: nodes,
            gridmap: BitGrid::new(w, h),
            ground_truth,
            width: w,
            height: h,
        };
        proof {
            assert forall|a: int, b: int|
                0 <= a < w && 0 <= b < h implies g.spec_state(a, b) == states[a][b]
                    && g.spec_cov(a, b) == ONE_BITS by {
                lemma_flat_index_in_range(a, b, w as int, h as int);
            }
        }
        g.init_gridmap();
        Ok(g)
    }

    /// Smooths the belief field in place by convolving it with the given
    /// square kernel of bit patterns, clamping taps that leave the grid to the
    /// nearest cell. The whole convolved field is computed from the
    /// pre-smoothing beliefs before any cell is overwritten; uncertainties and
    /// both bitmaps are left untouched. An empty or ragged kernel is reported
    /// as `MalformedInput`.
    #[verifier::loop_isolation(false)]
    pub fn blur_with_kernel(&mut self, kernel: &Vec<Vec<u32>>) -> (r: Result<(), GridError>)
        requires
            old(self).wf(),
        ensures
            final(self).wf(),
            r is Ok <==> kernel_wf(*kernel),
            r is Err ==> r == Err::<(), GridError>(GridError::MalformedInput)
                && *final(self) == *old(self),
            r is Ok ==> {
                &&& final(self).spec_width() == old(self).spec_width()
                &&& final(self).spec_height() == old(self).spec_height()
                &&& forall|x: int, y: int|
                    0 <= x < old(self).spec_width() && 0 <= y < old(self).spec_height() ==> {
                        &&& final(self).spec_state(x, y) == conv_cell(*old(self), *kernel, x, y)
                        &&& final(self).spec_cov(x, y) == old(self).spec_cov(x, y)
                        &&& final(self).spec_truth(x, y) == old(self).spec_truth(x, y)
                        &&& final(self).spec_realization(x, y) == old(self).spec_realization(x, y)
                    }
            },
    {
        let k = kernel.len();
        if k == 0 {
            return Err(GridError::MalformedInput);
        }
        let mut i: usize = 0;
        while i < k
            invariant
                i <= k,
                k == kernel.len(),
                forall|a: int| 0 <= a < i ==> (#[trigger] kernel[a]).len() == k,
            decreases k - i,
        {
            if kernel[i].len() != k {
                return Err(GridError::MalformedInput);
            }
            i += 1;
        }
        let off = k / 2;
        let w = self.width;
        let h = self.height;
        let mut out: Vec<u32> = Vec::new();
        let mut x: usize = 0;
        while x < w
            invariant
                x <= w,
                *self == *old(self),
                out.len() == x * h,
                kernel_wf(*kernel),
                k == kernel.len(),
                off == k / 2,
                forall|a: int, b: int| 0 <= a < x && 0 <= b < h ==>
                    (#[trigger] out[a * h as int + b]) == conv_cell(*old(self), *kernel, a, b),
            decreases w - x,
        {
            let mut y: usize = 0;
            while y < h
                invariant
                    x < w,
                    y <= h,
                    *self == *old(self),
                    out.len() == x * h + y,
                    kernel_wf(*kernel),
                    k == kernel.len(),
                    off == k / 2,
                    forall|a: int, b: int|
                        (0 <= a < x && 0 <= b < h) || (a == x && 0 <= b < y) ==>
                            (#[trigger] out[a * h as int + b]) == conv_cell(*old(self), *kernel, a, b),
                decreases h - y,
            {
                let mut acc: u32 = ZERO_BITS;
                let mut i: usize = 0;
                while i < k
                    invariant
                        i <= k,
                        x < w,
                        y < h,
                        *self == *old(self),
                        kernel_wf(*kernel),
                        k == kernel.len(),
                        off == k / 2,
                        conv_cell(*self, *kernel, x as int, y as int) == conv_step(
                            *self, *kernel, x as int, y as int, acc, i as int, 0),
                    decreases k - i,
                {
                    let mut j: usize = 0;
                    while j < k
                        invariant
                            i < k,
                            j <= k,
                            x < w,
                            y < h,
                            *self == *old(self),
                            kernel_wf(*kernel),
                            k == kernel.len(),
                            off == k / 2,
                            conv_cell(*self, *kernel, x as int, y as int) == conv_step(
                                *self, *kernel, x as int, y as int, acc, i as int, j as int),
                        decreases k - j,
                    {
                        let cx = clamp_tap(x, i, off, w);
                        let cy = clamp_tap(y, j, off, h);
                        proof {
                            lemma_flat_index_in_range(cx as int, cy as int, w as int, h as int);
                        }
                        let tap = self.sample_grid[cx * h + cy].state_bits();
                        acc = fadd(acc, fmul(tap, kernel[i][j]));
                        j += 1;
                    }
                    i += 1;
                }
                out.push(acc);
                proof {
                    assert forall|a: int, b: int|
                        (0 <= a < x && 0 <= b < h) || (a == x && 0 <= b < y + 1) implies
                        (#[trigger] out[a * h as int + b])
                            == conv_cell(*old(self), *kernel, a, b) by {
                        lemma_flat_index_in_range(a, b, w as int, h as int);
                        if !(a == x as int && b == y as int) {
                            assert(a * h as int + b < x as int * h as int + y as int)
                                by (nonlinear_arith)
                                requires
                                    (0 <= a < x as int && 0 <= b < h as int)
                                        || (a == x as int && 0 <= b < y as int),
                                    0 <= y as int,
                                    0 < h as int;
                        }
                    }
                }
                y += 1;
            }
            proof {
                assert((x as int + 1) * h as int == x as int * h as int + h as int)
                    by (nonlinear_arith);
            }
            x += 1;
        }
        let mut x: usize = 0;
        while x < w
            invariant
                x <= w,
                self.wf(),
                self.spec_width() == old(self).spec_width() == w as int,
                self.spec_height() == old(self).spec_height() == h as int,
                out.len() == w * h,
                forall|a: int, b: int| 0 <= a < w && 0 <= b < h ==>
                    (#[trigger] out[a * h as int + b]) == conv_cell(*old(self), *kernel, a, b),
                forall|a: int, b: int| 0 <= a < w && 0 <= b < h ==> {
                    &&& self.spec_state(a, b) == (
                        if a < x {
                            conv_cell(*old(self), *kernel, a, b)
                        } else {
                            old(self).spec_state(a, b)
                        })
                    &&& self.spec_cov(a, b) == old(self).spec_cov(a, b)
                    &&& self.spec_truth(a, b) == old(self).spec_truth(a, b)
                    &&& self.spec_realization(a, b) == old(self).spec_realization(a, b)
                },
            decreases w - x,
        {
            let mut y: usize = 0;
            while y < h
                invariant
                    x < w,
                    y <= h,
                    self.wf(),
                    self.spec_width() == old(self).spec_width() == w as int,
                    self.spec_height() == old(self).spec_height() == h as int,
                    out.len() == w * h,
                    forall|a: int, b: int| 0 <= a < w && 0 <= b < h ==>
                        (#[trigger] out[a * h as int + b]) == conv_cell(*old(self), *kernel, a, b),
                    forall|a: int, b: int| 0 <= a < w && 0 <= b < h ==> {
                        &&& self.spec_state(a, b) == (
                            if a < x || (a == x && b < y) {
                                conv_cell(*old(self), *kernel, a, b)
                            } else {
                                old(self).spec_state(a, b)
                            })
                        &&& self.spec_cov(a, b) == old(self).spec_cov(a, b)
                        &&& self.spec_truth(a, b) == old(self).spec_truth(a, b)
                        &&& self.spec_realization(a, b) == old(self).spec_realization(a, b)
                    },
                decreases h - y,
            {
                proof {
                    lemma_flat_index_in_range(x as int, y as int, w as int, h as int);
                }
                let value = out[x * h + y];
                self.set_state(x, y, value);
                y += 1;
            }
            x += 1;
        }
        Ok(())
    }

    /// The matrix of belief patterns, column by column.
    #[verifier::loop_isolation(false)]
    pub fn states_matrix(&self) -> (r: Vec<Vec<u32>>)
        requires
            self.wf(),
        ensures
            r.len() == self.spec_width(),
            forall|x: int| 0 <= x < self.spec_width() ==> (#[trigger] r[x]).len()
                == self.spec_height(),
            forall|x: int, y: int|
                0 <= x < self.spec_width() && 0 <= y < self.spec_height() ==>
                    r[x][y] == self.spec_state(x, y),
    {
        let mut out: Vec<Vec<u32>> = Vec::new();
        let mut x: usize = 0;
        while x < self.width
            invariant
                x <= self.spec_width(),
                out.len() == x,
                forall|i: int| 0 <= i < x ==> (#[trigger] out[i]).len() == self.spec_height(),
                forall|i: int, j: int|
                    0 <= i < x && 0 <= j < self.spec_height() ==> out[i][j] == self.spec_state(i, j),
            decreases self.spec_width() - x,
        {
            let mut row: Vec<u32> = Vec::new();
            let mut y: usize = 0;
            while y < self.height
                invariant
                    x < self.spec_width(),
                    y <= self.spec_height(),
                    row.len() == y,
                    forall|j: int| 0 <= j < y ==> row[j] == self.spec_state(x as int, j),
                decreases self.spec_height() - y,
            {
                proof {
                    lemma_flat_index_in_range(x as int, y as int, self.spec_width(), self.spec_height());
                }
                row.push(self.sample_grid[x * self.height + y].state_bits());
                y += 1;
            }
            out.push(row);
            x += 1;
        }
        out
    }
}

/// A square kernel of bit patterns with at least one row.
pub open spec fn kernel_wf(kern: Vec<Vec<u32>>) -> bool {
    &&& kern.len() >= 1
    &&& forall|i: int| 0 <= i < kern.len() ==> (#[trigger] kern[i]).len() == kern.len()
}

/// The grid index read by one kernel tap, clamped to the nearest cell where
/// it leaves the grid.
pub open spec fn clamp_index(c: int, tap: int, off: int, extent: int) -> int {
    let t = c + tap - off;
    if t < 0 {
        0
    } else if t >= extent {
        extent - 1
    } else {
        t
    }
}

/// The convolution's accumulation at one cell, continued from a partial sum:
/// taps are folded in kernel order, row by row, each adding the product of the
/// clamped belief and the kernel weight to the running sum.
pub open spec fn conv_step(
    g: SampleGrid,
    kern: Vec<Vec<u32>>,
    x: int,
    y: int,
    acc: u32,
    i: int,
    j: int,
) -> u32
    decreases kern.len() - i, kern.len() - j,
{
    let k = kern.len() as int;
    if i < 0 || j < 0 || i >= k {
        acc
    } else if j >= k {
        conv_step(g, kern, x, y, acc, i + 1, 0)
    } else {
        let tap = g.spec_state(
            clamp_index(x, i, k / 2, g.spec_width()),
            clamp_index(y, j, k / 2, g.spec_height()),
        );
        conv_step(g, kern, x, y, add_bits(acc, mul_bits(tap, kern[i][j])), i, j + 1)
    }
}

/// The convolved belief of one cell: the fold of all taps, started from zero.
pub open spec fn conv_cell(g: SampleGrid, kern: Vec<Vec<u32>>, x: int, y: int) -> u32 {
    conv_step(g, kern, x, y, ZERO_BITS, 0, 0)
}

/// The executable form of `clamp_index`, carried out in a wide integer so
/// that no intermediate value can wrap.
fn clamp_tap(c: usize, tap: usize, off: usize, extent: usize) -> (r: usize)
    requires
        1 <= extent,
        c < extent,
    ensures
        r == clamp_index(c as int, tap as int, off as int, extent as int),
        r < extent,
{
    let sum = c as u128 + tap as u128;
    let offv = off as u128;
    let ext = extent as u128;
    let t = if sum < offv {
        0u128
    } else {
        sum - offv
    };
    let clamped = if t >= ext {
        ext - 1
    } else {
        t
    };
    clamped as usize
}

/// A belief matrix fit to build a grid from: at least one column, columns of
/// one common length, and extents that agree with the given bitmap.
pub open spec fn belief_matrix_wf(states: Vec<Vec<u32>>, truth: BitGrid) -> bool {
    &&& states.len() >= 1
    &&& states.len() == truth.spec_width()
    &&& states[0].len() == truth.spec_height()
    &&& forall|i: int| 0 <= i < states.len() ==> (#[trigger] states[i]).len() == states[0].len()
}

/// The lower edge of a clipped radius neighborhood.
pub open spec fn radius_clip_low(c: int, radius: int) -> int {
    if c - (radius + 1) < 0 {
        0
    } else {
        c - (radius + 1)
    }
}

/// The upper edge of a clipped radius neighborhood.
pub open spec fn radius_clip_high(c: int, radius: int, extent: int) -> int {
    if c + (radius + 1) > extent {
        extent
    } else {
        c + (radius + 1)
    }
}

/// The index of the first line break of the text, or its length where none
/// occurs.
pub open spec fn first_line_break(s: Seq<char>) -> int
    decreases s.len(),
{
    if s.len() == 0 {
        0
    } else if s[0] == '\n' {
        0
    } else {
        1 + first_line_break(s.drop_first())
    }
}

/// The text with a final line break supplied where it is missing.
pub open spec fn normalized_text(s: Seq<char>) -> Seq<char> {
    if s.len() > 0 && s[s.len() - 1] == '\n' {
        s
    } else {
        s.push('\n')
    }
}

/// A well-formed map text: rows of one common positive width, each terminated
/// by a line break.
pub open spec fn map_text_wf(s: Seq<char>) -> bool {
    let w = first_line_break(s);
    &&& 1 <= w
    &&& w < s.len()
    &&& (s.len() as int) % (w + 1) == 0
    &&& forall|p: int| 0 <= p < s.len() ==> ((s[p] == '\n') <==> (p % (w + 1) == w))
}

/// The common row width of a well-formed map text.
pub open spec fn map_text_width(s: Seq<char>) -> int {
    first_line_break(s)
}

/// The number of rows of a well-formed map text.
pub open spec fn map_text_height(s: Seq<char>) -> int {
    (s.len() as int) / (first_line_break(s) + 1)
}

/// The character of the cell in column `x`, row `y` of a well-formed map text.
pub open spec fn map_text_char(s: Seq<char>, x: int, y: int) -> char {
    s[y * (first_line_break(s) + 1) + x]
}

/// The first line break of a text is where the first `'\n'` stands.
proof fn lemma_first_line_break_at(s: Seq<char>, w: int)
    requires
        0 <= w < s.len(),
        s[w] == '\n',
        forall|i: int| 0 <= i < w ==> s[i] != '\n',
    ensures
        first_line_break(s) == w,
    decreases w,
{
    if w > 0 {
        lemma_first_line_break_at(s.drop_first(), w - 1);
    }
}

/// Rendering a bitmap derived from a well-formed map text — the bit of each
/// cell set exactly where the text does not show `@` — reproduces the text,
/// character for character, provided every character outside the line breaks
/// is `.` or `@`.
pub proof fn lemma_text_round_trip(s: Seq<char>, g: BitGrid)
    requires
        map_text_wf(s),
        forall|p: int| 0 <= p < s.len() && s[p] != '\n' ==> s[p] == '.' || s[p] == '@',
        g.wf(),
        g.spec_width() == map_text_width(s),
        g.spec_height() == map_text_height(s),
        forall|x: int, y: int|
            0 <= x < g.spec_width() && 0 <= y < g.spec_height() ==>
                g.cell(x, y) == (map_text_char(s, x, y) != '@'),
    ensures
        g.render_spec() == s,
{
    let w = map_text_width(s);
    let h = map_text_height(s);
    let n = s.len() as int;
    vstd::arithmetic::div_mod::lemma_fundamental_div_mod(n, w + 1);
    assert(n == (w + 1) * h);
    assert(g.render_len() == n) by (nonlinear_arith)
        requires n == (w + 1) * h, g.render_len() == h * (w + 1);
    assert forall|p: int| 0 <= p < n implies g.render_spec()[p] == s[p] by {
        vstd::arithmetic::div_mod::lemma_fundamental_div_mod(p, w + 1);
        vstd::arithmetic::div_mod::lemma_mod_bound(p, w + 1);
        let x = p % (w + 1);
        let y = p / (w + 1);
        assert(0 <= y && y < h) by (nonlinear_arith)
            requires p == (w + 1) * y + x, 0 <= x < w + 1, 0 <= p, p < (w + 1) * h, w + 1 > 0;
        assert(y * (w + 1) + x == p) by (nonlinear_arith)
            requires p == (w + 1) * y + x;
        if x == w {
            assert(s[p] == '\n');
        } else {
            assert(map_text_char(s, x, y) == s[p]);
            assert(g.render_char(p) == (if g.cell(x, y) { '.' } else { '@' }));
        }
    };
    assert(g.render_spec() =~= s);
}

/// Rendering the ground-truth bitmap of a grid whose truth bits mirror a
/// well-formed map text — as `new_from_string` derives them — reproduces that
/// text exactly, provided every character outside the line breaks is `.` or
/// `@`.
pub proof fn lemma_grid_text_round_trip(s: Seq<char>, g: SampleGrid)
    requires
        map_text_wf(s),
        forall|p: int| 0 <= p < s.len() && s[p] != '\n' ==> s[p] == '.' || s[p] == '@',
        g.wf(),
        g.spec_width() == map_text_width(s),
        g.spec_height() == map_text_height(s),
        forall|x: int, y: int|
            0 <= x < g.spec_width() && 0 <= y < g.spec_height() ==>
                g.spec_truth(x, y) == (map_text_char(s, x, y) != '@'),
    ensures
        g.spec_truth_map().render_spec() == s,
{
    lemma_text_round_trip(s, g.spec_truth_map());
}

/// The smaller of two lengths.
fn min_usize(a: usize, b: usize) -> (r: usize)
    ensures
        r == if a < b { a as int } else { b as int },
{
    if a < b {
        a
    } else {
        b
    }
}

} // verus!
