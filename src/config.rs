use vstd::prelude::*;

verus! {

/// Largest absolute value of a position coordinate held in a tree.
pub const COORD_LIMIT: i64 = 268435456;

/// Largest absolute value of a velocity component.
pub const VEL_LIMIT: i64 = 268435456;

/// Largest absolute value of an accumulated acceleration component.
pub const ACC_LIMIT: i64 = 1152921504606846976;

/// Largest absolute value of a position coordinate of a body that has just
/// moved, before it is placed again.
pub const WIDE_LIMIT: i64 = 1125899906842624;

/// Largest total mass that a tree holds.
pub const MASS_LIMIT: i64 = 1099511627776;

/// Largest dimensionality.
pub const MAX_DIMS: usize = 8;

/// Largest value of the gravitational constant and of the parts of a fraction.
pub const PARAM_LIMIT: i64 = 1048576;

/// Simulation parameters, fixed for a whole run.
///
/// Lengths, velocities and masses are integers on a fixed-point lattice whose
/// unit the driver chooses. The opening angle and the time step are fractions.
pub struct Config {
    /// Number of spatial dimensions.
    pub dims: usize,
    /// Gravitational constant.
    pub g: i64,
    /// Opening angle, numerator.
    pub theta_num: i64,
    /// Opening angle, denominator.
    pub theta_den: i64,
    /// Time step, numerator.
    pub dt_num: i64,
    /// Time step, denominator.
    pub dt_den: i64,
    /// Half extent at or below which a region is not subdivided.
    pub min_len: i64,
    /// Separation at or below which a pair exerts no force.
    pub min_dist: i64,
}

impl Config {
    /// Every parameter lies in its range.
    pub open spec fn wf(&self) -> bool {
        &&& 1 <= self.dims <= MAX_DIMS
        &&& 0 <= self.g <= PARAM_LIMIT
        &&& 0 <= self.theta_num <= PARAM_LIMIT
        &&& 1 <= self.theta_den <= PARAM_LIMIT
        &&& 0 <= self.dt_num <= PARAM_LIMIT
        &&& 1 <= self.dt_den <= PARAM_LIMIT
        &&& 1 <= self.min_len <= COORD_LIMIT
        &&& 0 <= self.min_dist <= COORD_LIMIT
    }

    /// Whether every parameter is in range.
    pub fn valid(&self) -> (r: bool)
        ensures
            r == self.wf(),
    {
        1 <= self.dims && self.dims <= MAX_DIMS && 0 <= self.g && self.g <= PARAM_LIMIT && 0 <= self.theta_num
            && self.theta_num <= PARAM_LIMIT && 1 <= self.theta_den && self.theta_den <= PARAM_LIMIT
            && 0 <= self.dt_num && self.dt_num <= PARAM_LIMIT && 1 <= self.dt_den && self.dt_den <= PARAM_LIMIT
            && 1 <= self.min_len && self.min_len <= COORD_LIMIT && 0 <= self.min_dist
            && self.min_dist <= COORD_LIMIT
    }

    /// A configuration, checked: `None` where a parameter is out of range.
    pub fn new(
        dims: usize,
        g: i64,
        theta_num: i64,
        theta_den: i64,
        dt_num: i64,
        dt_den: i64,
        min_len: i64,
        min_dist: i64,
    ) -> (r: Option<Config>)
        ensures
            r.is_some() <==> (Config { dims, g, theta_num, theta_den, dt_num, dt_den, min_len, min_dist }).wf(),
            r.is_some() ==> r->0 == (Config { dims, g, theta_num, theta_den, dt_num, dt_den, min_len, min_dist }),
    {
        let c = Config { dims, g, theta_num, theta_den, dt_num, dt_den, min_len, min_dist };
        if c.valid() {
            Some(c)
        } else {
            None
        }
    }
}

} // verus!
