use vstd::prelude::*;

verus! {

/// Discrete proportional-integral loop filter.
///
/// The integrator grows by `ki * error` on each update and the output is
/// `integrator + kp * error`. No saturation or anti-windup is applied: under
/// a large sustained error the integrator grows without bound, which is a
/// documented property of the design, so each update requires the caller to
/// stay within the machine range.
pub struct DiscretePI {
    kp: i64,
    ki: i64,
    integrator: i64,
}

/// The integrator value after feeding every error in `errors`, starting
/// from zero: `ki` times the running sum of the errors.
pub open spec fn pi_integrator_after(ki: int, errors: Seq<int>) -> int
    decreases errors.len(),
{
    if errors.len() == 0 {
        0
    } else {
        pi_integrator_after(ki, errors.drop_last()) + ki * errors.last()
    }
}

/// The output of the filter on the last of `errors`, having previously
/// integrated all of them.
pub open spec fn pi_output_at(kp: int, ki: int, errors: Seq<int>) -> int
    recommends
        errors.len() >= 1,
{
    pi_integrator_after(ki, errors) + kp * errors.last()
}

/// The plain sum of a sequence of errors.
pub open spec fn sum_of(errors: Seq<int>) -> int
    decreases errors.len(),
{
    if errors.len() == 0 {
        0
    } else {
        sum_of(errors.drop_last()) + errors.last()
    }
}

impl DiscretePI {
    pub closed spec fn kp(&self) -> int {
        self.kp as int
    }

    pub closed spec fn ki(&self) -> int {
        self.ki as int
    }

    pub closed spec fn integrator(&self) -> int {
        self.integrator as int
    }

    /// A fresh filter with the given gains and an empty integrator.
    pub fn new(kp: i64, ki: i64) -> (r: Self)
        ensures
            r.kp() == kp as int,
            r.ki() == ki as int,
            r.integrator() == 0,
    {
        Self { kp, ki, integrator: 0 }
    }

    /// One update: the integrator grows by `ki * val` and the output is the
    /// new integrator plus `kp * val`.
    pub fn update(&mut self, val: i64) -> (r: i64)
        requires
            i64::MIN <= old(self).ki() * val <= i64::MAX,
            i64::MIN <= old(self).integrator() + old(self).ki() * val <= i64::MAX,
            i64::MIN <= old(self).kp() * val <= i64::MAX,
            i64::MIN <= old(self).integrator() + old(self).ki() * val + old(self).kp() * val
                <= i64::MAX,
        ensures
            final(self).kp() == old(self).kp(),
            final(self).ki() == old(self).ki(),
            final(self).integrator() == old(self).integrator() + old(self).ki() * val,
            r as int == final(self).integrator() + old(self).kp() * val,
    {
        self.integrator = self.integrator + self.ki * val;
        self.integrator + self.kp * val
    }
}

/// With `ki == 0` the filter never integrates: every output is exactly
/// `kp` times the error it was fed, whatever was fed before.
pub proof fn lemma_pi_proportional_only(kp: int, errors: Seq<int>)
    requires
        errors.len() >= 1,
    ensures
        pi_output_at(kp, 0, errors) == kp * errors.last(),
{
    lemma_pi_zero_ki_integrator(errors);
}

proof fn lemma_pi_zero_ki_integrator(errors: Seq<int>)
    ensures
        pi_integrator_after(0, errors) == 0,
    decreases errors.len(),
{
    if errors.len() > 0 {
        lemma_pi_zero_ki_integrator(errors.drop_last());
    }
}

/// With `kp == 0` and `ki == c` the filter is a pure integrator: the output
/// after feeding `errors` is `c` times their sum.
pub proof fn lemma_pi_integral_only(c: int, errors: Seq<int>)
    requires
        errors.len() >= 1,
    ensures
        pi_output_at(0, c, errors) == c * sum_of(errors),
{
    lemma_pi_integrator_scales(c, errors);
}

proof fn lemma_pi_integrator_scales(c: int, errors: Seq<int>)
    ensures
        pi_integrator_after(c, errors) == c * sum_of(errors),
    decreases errors.len(),
{
    if errors.len() > 0 {
        lemma_pi_integrator_scales(c, errors.drop_last());
        assert(c * (sum_of(errors.drop_last()) + errors.last()) == c * sum_of(errors.drop_last())
            + c * errors.last()) by (nonlinear_arith);
    }
}

} // verus!
