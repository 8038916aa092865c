//! Fixed time steps: real time is collected, and every full step of it is one tick.
use vstd::prelude::*;

verus! {

/// Collects time in nanoseconds.
#[derive(Clone, Copy, Debug)]
pub struct FixedTimestep {
    step: u128,
    acc: u128,
}

impl FixedTimestep {
    /// Length of a step.
    pub closed spec fn spec_step(self) -> u128 {
        self.step
    }

    /// Time that was collected and not yet spent.
    pub closed spec fn spec_rest(self) -> u128 {
        self.acc
    }

    /// Nothing is collected yet.
    pub fn new(step: u128) -> (t: FixedTimestep)
        ensures
            t.spec_step() == step,
            t.spec_rest() == 0,
    {
        FixedTimestep { step, acc: 0 }
    }

    /// Length of a step.
    pub fn step(&self) -> (n: u128)
        ensures
            n == self.spec_step(),
    {
        self.step
    }

    /// Time that was collected and not yet spent. Divided by the step it is the fraction of the
    /// next tick that has gone by.
    pub fn rest(&self) -> (n: u128)
        ensures
            n == self.spec_rest(),
    {
        self.acc
    }

    /// Collects the time of a frame; gives the number of ticks that are due. Steps without length
    /// are due as often as can be counted once there is any time at all, and take none of it.
    pub fn advance(&mut self, frame: u128) -> (ticks: u32)
        requires
            old(self).spec_rest() + frame <= u128::MAX,
        ensures
            final(self).spec_step() == old(self).spec_step(),
            ticks == due(old(self).spec_step(), old(self).spec_rest() + frame),
            final(self).spec_rest() == old(self).spec_rest() + frame - ticks
                * old(self).spec_step(),
    {
        self.acc = self.acc + frame;
        let most: u32 = 0xffff_ffff;
        if self.step == 0 {
            return if self.acc == 0 {
                0
            } else {
                most
            };
        }
        let full = self.acc / self.step;
        let ticks: u32 = if full > most as u128 {
            most
        } else {
            full as u32
        };
        proof {
            let a = self.acc as int;
            let s = self.step as int;
            assert(full * s <= a) by (nonlinear_arith)
                requires
                    full == a / s,
                    s > 0,
                    a >= 0,
            ;
            assert(ticks * s <= full * s) by (nonlinear_arith)
                requires
                    ticks <= full,
                    s > 0,
            ;
            assert(0 <= ticks * s) by (nonlinear_arith)
                requires
                    ticks >= 0,
                    s > 0,
            ;
        }
        self.acc = self.acc - ticks as u128 * self.step;
        ticks
    }
}

/// The number of ticks that are due for some time.
pub open spec fn due(step: u128, time: int) -> int {
    let most = 0xffff_ffff;
    if step == 0 {
        if time == 0 {
            0
        } else {
            most
        }
    } else if time / (step as int) > most {
        most
    } else {
        time / (step as int)
    }
}

/// No time is lost or spent twice: the ticks of two frames are those of both together, as long as
/// they can be counted, and what is left is less than a step.
pub proof fn frames_add_up(step: u128, rest: int, first: int, second: int)
    requires
        step > 0,
        0 <= rest,
        0 <= first,
        0 <= second,
        (rest + first + second) / (step as int) <= 0xffff_ffff,
    ensures
        ({
            let a = due(step, rest + first);
            let left = rest + first - a * step;
            let b = due(step, left + second);
            &&& a + b == due(step, rest + first + second)
            &&& 0 <= left < step
        }),
{
    let s = step as int;
    let t = rest + first;
    let q = t / s;
    assert(q * s <= t < q * s + s && q >= 0 && q <= (t + second) / s) by (nonlinear_arith)
        requires
            q == t / s,
            s > 0,
            t >= 0,
            second >= 0,
    ;
    let left = t - q * s;
    assert((left + second) / s == (t + second) / s - q) by (nonlinear_arith)
        requires
            left == t - q * s,
            s > 0,
    ;
}

/// As many steps are due as fit into the time, up to the most that can be counted; the next one
/// would not fit any more. Steps without length are due without end as soon as time passes.
pub proof fn due_steps_fit_into_the_time(step: u128, time: int)
    requires
        time >= 0,
    ensures
        0 <= due(step, time) <= 0xffff_ffff,
        step > 0 ==> due(step, time) * step <= time,
        step > 0 && due(step, time) < 0xffff_ffff ==> time < (due(step, time) + 1) * step,
        step == 0 ==> due(step, time) == (if time == 0 {
            0int
        } else {
            0xffff_ffffint
        }),
{
    if step > 0 {
        let s = step as int;
        let q = time / s;
        vstd::arithmetic::div_mod::lemma_fundamental_div_mod(time, s);
        assert(0 <= q && q * s <= time < (q + 1) * s) by (nonlinear_arith)
            requires
                time == s * q + time % s,
                0 <= time % s < s,
                time >= 0,
                s > 0,
        ;
        if q > 0xffff_ffff {
            assert(0xffff_ffff * s <= q * s) by (nonlinear_arith)
                requires
                    q > 0xffff_ffff,
                    s > 0,
            ;
        }
    }
}

} // verus!
