use vstd::prelude::*;
use vstd::arithmetic::div_mod::{
    lemma_div_is_ordered, lemma_div_multiples_vanish, lemma_div_pos_is_pos,
    lemma_fundamental_div_mod,
};
use vstd::arithmetic::mul::lemma_mul_is_commutative;

use crate::config::Workload;

verus! {

/// The larger of two mathematical integers.
pub open spec fn max_int(a: int, b: int) -> int {
    if a > b {
        a
    } else {
        b
    }
}

/// `num / den` rounded towards positive infinity (for non-negative operands).
pub open spec fn div_ceil_int(num: int, den: int) -> int {
    num / den + (if num % den != 0 {
        1int
    } else {
        0int
    })
}

/// The integer arch that stands in for one cycle of the sinusoid: a
/// parabola in the phase `p` that is 0 at `p == 0`, peaks at `p == c / 2`
/// and falls back towards 0 at `p == c`. Divided by `c * c` it is the
/// fraction of the span `max_users - min_users` that is currently active.
pub open spec fn sin_arch(p: int, c: int) -> int {
    4 * (p * (c - p))
}

/// Structural validity of a workload description: a sinusoidal shape needs
/// `min_users <= max_users` and a positive cycle length.
pub open spec fn workload_wf(w: Workload) -> bool {
    match w {
        Workload::Sin { duration: _, max_users, min_users, cycle_time } => min_users <= max_users
            && cycle_time >= 1,
        _ => true,
    }
}

/// The machine limit under which the target computation stays exact: the
/// worst-case intermediate product of the ramp formulas must fit in 128 bits.
pub open spec fn workload_fits(w: Workload) -> bool {
    match w {
        Workload::EaseOut { duration: _, max_users, ramp_up_time } => max_users * (ramp_up_time
            * ramp_up_time) <= u128::MAX,
        Workload::Sin { duration: _, max_users, min_users: _, cycle_time } => max_users
            * (cycle_time * cycle_time) <= u128::MAX,
        _ => true,
    }
}

/// The workload's upper population bound.
pub open spec fn workload_max(w: Workload) -> int {
    match w {
        Workload::Constant { duration: _, max_users } => max_users as int,
        Workload::Linear { duration: _, max_users, ramp_up_time: _ } => max_users as int,
        Workload::EaseOut { duration: _, max_users, ramp_up_time: _ } => max_users as int,
        Workload::Sin { duration: _, max_users, min_users: _, cycle_time: _ } => max_users as int,
    }
}

/// The workload's lower population bound (only `Sin` declares one).
pub open spec fn workload_min(w: Workload) -> int {
    match w {
        Workload::Sin { duration: _, max_users: _, min_users, cycle_time: _ } => min_users as int,
        _ => 0,
    }
}

/// The instantaneous target population for workload `w` at `t` elapsed
/// seconds, or `None` once the workload window has closed (`t` past the
/// duration). Ramp formulas floor their result at one user; a ramp of zero
/// seconds degenerates to the constant shape.
pub open spec fn spec_target(w: Workload, t: int) -> Option<int> {
    match w {
        Workload::Constant { duration, max_users } => {
            if t > duration {
                None
            } else {
                Some(max_users as int)
            }
        },
        Workload::Linear { duration, max_users, ramp_up_time } => {
            if t > duration {
                None
            } else if ramp_up_time == 0 || t > ramp_up_time {
                Some(max_users as int)
            } else {
                Some(max_int(1, (t * max_users) / (ramp_up_time as int)))
            }
        },
        Workload::EaseOut { duration, max_users, ramp_up_time } => {
            if t > duration {
                None
            } else if ramp_up_time == 0 || t > ramp_up_time {
                Some(max_users as int)
            } else {
                Some(
                    max_int(
                        1,
                        div_ceil_int(
                            max_users * (t * (2 * ramp_up_time - t)),
                            ramp_up_time * ramp_up_time,
                        ),
                    ),
                )
            }
        },
        Workload::Sin { duration, max_users, min_users, cycle_time } => {
            if t > duration {
                None
            } else {
                Some(
                    min_users + ((max_users - min_users) * sin_arch(
                        t % (cycle_time as int),
                        cycle_time as int,
                    )) / (cycle_time * cycle_time),
                )
            }
        },
    }
}

/// Pull-based producer of target populations. `next` is driven with the
/// elapsed whole seconds since the run started; once the workload window has
/// closed it latches and answers `None` forever.
pub struct Scheduler {
    pub workload: Workload,
    pub done: bool,
}

/// One `next` query as a mathematical step: the scheduler after the call and
/// the answer. A latched scheduler stays latched and answers `None`; a
/// closed window latches.
pub open spec fn spec_next(s: Scheduler, t: int) -> (Scheduler, Option<int>) {
    if s.done {
        (s, None)
    } else {
        match spec_target(s.workload, t) {
            Some(n) => (s, Some(n)),
            None => (Scheduler { workload: s.workload, done: true }, None),
        }
    }
}

/// Two values each below the 64-bit cap multiply to something a 128-bit
/// integer can hold.
proof fn lemma_u64_mul_fits(x: int, y: int)
    requires
        0 <= x <= u64::MAX,
        0 <= y <= u64::MAX,
    ensures
        0 <= x * y <= u128::MAX,
{
    assert(0 <= x * y <= u64::MAX * u64::MAX) by (nonlinear_arith)
        requires
            0 <= x <= u64::MAX,
            0 <= y <= u64::MAX,
    ;
}

/// While `num` stays below `m * den`, the quotient `num / den` stays below
/// `m`.
proof fn lemma_div_le(num: int, den: int, m: int)
    requires
        den >= 1,
        m >= 0,
        0 <= num <= m * den,
    ensures
        0 <= num / den <= m,
{
    lemma_div_is_ordered(num, m * den, den);
    lemma_mul_is_commutative(m, den);
    lemma_div_multiples_vanish(m, den);
    lemma_div_pos_is_pos(num, den);
}

/// While `num` stays below `m * den`, `num / den` rounded up stays below
/// `m` as well.
proof fn lemma_div_ceil_le(num: int, den: int, m: int)
    requires
        den >= 1,
        m >= 0,
        0 <= num <= m * den,
    ensures
        0 <= div_ceil_int(num, den) <= m,
{
    lemma_div_le(num, den, m);
    if num % den != 0 {
        if num / den == m {
            lemma_fundamental_div_mod(num, den);
            assert(num == den * (num / den) + num % den);
            lemma_mul_is_commutative(den, m);
            assert(false);
        }
    }
}

impl Scheduler {
    pub fn new(workload: Workload) -> (s: Scheduler)
        requires
            workload_wf(workload),
        ensures
            s.workload == workload,
            !s.done,
    {
        Scheduler { workload, done: false }
    }

    /// Answer the target population for `elapsed_secs` seconds into the run,
    /// or `None` once the workload window has permanently closed.
    pub fn next(&mut self, elapsed_secs: u64) -> (r: Option<usize>)
        requires
            workload_wf(old(self).workload),
            workload_fits(old(self).workload),
        ensures
            *final(self) == spec_next(*old(self), elapsed_secs as int).0,
            match r {
                Some(n) => spec_next(*old(self), elapsed_secs as int).1 == Some(n as int),
                None => spec_next(*old(self), elapsed_secs as int).1 is None,
            },
    {
        if self.done {
            return None;
        }
        let t = elapsed_secs;
        match self.workload {
            Workload::Constant { duration, max_users } => {
                if t > duration as u64 {
                    self.done = true;
                    None
                } else {
                    Some(max_users)
                }
            },
            Workload::Linear { duration, max_users, ramp_up_time } => {
                if t > duration as u64 {
                    self.done = true;
                    return None;
                }
                if ramp_up_time == 0 || t > ramp_up_time as u64 {
                    return Some(max_users);
                }
                proof {
                    lemma_u64_mul_fits(t as int, max_users as int);
                }
                let num: u128 = (t as u128) * (max_users as u128);
                let den: u128 = ramp_up_time as u128;
                proof {
                    assert(num as int <= (max_users as int) * (den as int)) by (nonlinear_arith)
                        requires
                            num == (t as int) * (max_users as int),
                            0 <= t <= den,
                            max_users >= 0,
                    ;
                    lemma_div_le(num as int, den as int, max_users as int);
                }
                let q: u128 = num / den;
                let res: u128 = if q < 1 {
                    1
                } else {
                    q
                };
                Some(res as usize)
            },
            Workload::EaseOut { duration, max_users, ramp_up_time } => {
                if t > duration as u64 {
                    self.done = true;
                    return None;
                }
                if ramp_up_time == 0 || t > ramp_up_time as u64 {
                    return Some(max_users);
                }
                let r128: u128 = ramp_up_time as u128;
                let t128: u128 = t as u128;
                proof {
                    lemma_u64_mul_fits(r128 as int, r128 as int);
                    assert(0 <= (t128 as int) * (2 * (r128 as int) - (t128 as int)) <= (r128 as int)
                        * (r128 as int)) by (nonlinear_arith)
                        requires
                            0 <= t128 <= r128,
                    ;
                }
                let shape: u128 = t128 * (2 * r128 - t128);
                let den: u128 = r128 * r128;
                proof {
                    assert(den >= 1) by (nonlinear_arith)
                        requires
                            r128 >= 1,
                            den == r128 * r128,
                    ;
                    assert((max_users as int) * (shape as int) <= (max_users as int) * (den as int))
                        by (nonlinear_arith)
                        requires
                            0 <= shape <= den,
                            max_users >= 0,
                    ;
                    assert(0 <= (max_users as int) * (shape as int)) by (nonlinear_arith)
                        requires
                            max_users >= 0,
                            shape >= 0,
                    ;
                    lemma_div_ceil_le(
                        (max_users as int) * (shape as int),
                        den as int,
                        max_users as int,
                    );
                }
                let num: u128 = (max_users as u128) * shape;
                let q0: u128 = num / den;
                let q: u128 = if num % den != 0 {
                    q0 + 1
                } else {
                    q0
                };
                let res: u128 = if q < 1 {
                    1
                } else {
                    q
                };
                Some(res as usize)
            },
            Workload::Sin { duration, max_users, min_users, cycle_time } => {
                if t > duration as u64 {
                    self.done = true;
                    return None;
                }
                let c128: u128 = cycle_time as u128;
                let t128: u128 = t as u128;
                let p: u128 = t128 % c128;
                proof {
                    lemma_u64_mul_fits(c128 as int, c128 as int);
                    assert(0 <= 4 * ((p as int) * ((c128 as int) - (p as int))) <= (c128 as int) * (
                    c128 as int)) by (nonlinear_arith)
                        requires
                            0 <= p < c128,
                    ;
                }
                let arch: u128 = 4 * (p * (c128 - p));
                let span: usize = max_users - min_users;
                let den: u128 = c128 * c128;
                proof {
                    assert(den >= 1) by (nonlinear_arith)
                        requires
                            c128 >= 1,
                            den == c128 * c128,
                    ;
                    assert((span as int) * (arch as int) <= (span as int) * (den as int))
                        by (nonlinear_arith)
                        requires
                            0 <= arch <= den,
                            span >= 0,
                    ;
                    assert((span as int) * (den as int) <= (max_users as int) * (den as int))
                        by (nonlinear_arith)
                        requires
                            0 <= span <= max_users,
                            den >= 0,
                    ;
                    assert(0 <= (span as int) * (arch as int)) by (nonlinear_arith)
                        requires
                            span >= 0,
                            arch >= 0,
                    ;
                    lemma_div_le((span as int) * (arch as int), den as int, span as int);
                }
                let num: u128 = (span as u128) * arch;
                let frac: u128 = num / den;
                Some(min_users + (frac as usize))
            },
        }
    }
}

/// The scheduler's target never leaves the workload's population bounds:
/// whenever a target is produced it lies in `[0, max_users]`, and it lies at
/// or above `min_users` for `Sin`. The ramp shapes floor their target at one
/// user, so for them the bound asks for a population of at least one.
pub proof fn lemma_target_within_bounds(w: Workload, t: int)
    requires
        workload_wf(w),
        t >= 0,
        (w is Linear || w is EaseOut) ==> workload_max(w) >= 1,
    ensures
        spec_target(w, t) is Some ==> 0 <= spec_target(w, t).unwrap() <= workload_max(w),
        spec_target(w, t) is Some ==> spec_target(w, t).unwrap() >= workload_min(w),
{
    match w {
        Workload::Constant { duration, max_users } => {},
        Workload::Linear { duration, max_users, ramp_up_time } => {
            if t <= duration && ramp_up_time != 0 && t <= ramp_up_time {
                let r = ramp_up_time as int;
                assert(t * max_users <= (max_users as int) * r) by (nonlinear_arith)
                    requires
                        0 <= t <= r,
                        max_users >= 0,
                ;
                lemma_div_le(t * max_users, r, max_users as int);
            }
        },
        Workload::EaseOut { duration, max_users, ramp_up_time } => {
            if t <= duration && ramp_up_time != 0 && t <= ramp_up_time {
                let r = ramp_up_time as int;
                let shape = t * (2 * r - t);
                assert(0 <= t * (2 * r - t) <= r * r) by (nonlinear_arith)
                    requires
                        0 <= t <= r,
                ;
                assert(0 <= max_users * shape <= max_users * (r * r)) by (nonlinear_arith)
                    requires
                        0 <= shape <= r * r,
                        max_users >= 0,
                ;
                assert(r * r >= 1) by (nonlinear_arith)
                    requires
                        r >= 1,
                ;
                lemma_div_ceil_le(max_users * shape, r * r, max_users as int);
            }
        },
        Workload::Sin { duration, max_users, min_users, cycle_time } => {
            if t <= duration {
                let c = cycle_time as int;
                let p = t % c;
                let span = max_users - min_users;
                let arch = sin_arch(p, c);
                assert(0 <= p < c);
                assert(0 <= 4 * (p * (c - p)) <= c * c) by (nonlinear_arith)
                    requires
                        0 <= p < c,
                ;
                assert(0 <= span * arch <= span * (c * c)) by (nonlinear_arith)
                    requires
                        0 <= arch <= c * c,
                        span >= 0,
                ;
                assert(c * c >= 1) by (nonlinear_arith)
                    requires
                        c >= 1,
                ;
                lemma_div_le(span * arch, c * c, span);
            }
        },
    }
}

/// A `Constant` workload asks for exactly `max_users` at every second of the
/// window and for nothing once the window has passed.
pub proof fn lemma_constant_profile(duration: usize, max_users: usize, t: int)
    ensures
        0 <= t <= duration ==> spec_target(Workload::Constant { duration, max_users }, t) == Some(
            max_users as int,
        ),
        t > duration ==> spec_target(Workload::Constant { duration, max_users }, t) is None,
{
}

/// A `Linear` workload's target never decreases while the ramp lasts.
pub proof fn lemma_linear_monotone(
    duration: usize,
    max_users: usize,
    ramp_up_time: usize,
    t1: int,
    t2: int,
)
    requires
        0 <= t1 <= t2 <= ramp_up_time,
        t2 <= duration,
    ensures
        spec_target(
            Workload::Linear { duration, max_users, ramp_up_time },
            t1,
        ).unwrap() <= spec_target(
            Workload::Linear { duration, max_users, ramp_up_time },
            t2,
        ).unwrap(),
{
    if ramp_up_time != 0 {
        let r = ramp_up_time as int;
        assert(t1 * max_users <= t2 * max_users) by (nonlinear_arith)
            requires
                t1 <= t2,
                max_users >= 0,
        ;
        lemma_div_is_ordered(t1 * max_users, t2 * max_users, r);
        assert(t1 * max_users >= 0) by (nonlinear_arith)
            requires
                t1 >= 0,
                max_users >= 0,
        ;
        lemma_div_pos_is_pos(t1 * max_users, r);
    }
}

/// After the ramp, and through the rest of the window, a `Linear` workload's
/// target is exactly `max_users`.
pub proof fn lemma_linear_plateau(duration: usize, max_users: usize, ramp_up_time: usize, t: int)
    requires
        ramp_up_time < t <= duration,
    ensures
        spec_target(Workload::Linear { duration, max_users, ramp_up_time }, t) == Some(
            max_users as int,
        ),
{
}

/// The scheduler latches: a step that answers `None` leaves the scheduler in
/// a state from which every later step answers `None` and changes nothing.
pub proof fn lemma_scheduler_latches(s: Scheduler, t1: int, t2: int)
    ensures
        spec_next(s, t1).1 is None ==> spec_next(spec_next(s, t1).0, t2).1 is None,
        spec_next(s, t1).1 is None ==> spec_next(spec_next(s, t1).0, t2).0 == spec_next(s, t1).0,
{
}

} // verus!

