//! Temperature schedules.
//!
//! A schedule is a finite sequence of temperatures, handed out one by one. A
//! temperature is described exactly, by the ceiling it started from and the
//! number of halvings and decays applied since; nothing is rounded here.

use vstd::prelude::*;
use vstd::arithmetic::power::{lemma_pow_positive, pow};
use vstd::arithmetic::power2::{lemma_pow2_pos, pow2};

verus! {

/// How many units make a temperature of one.
pub const TEMPERATURE_UNIT: u64 = 0x1_0000_0000;

/// How many steps the default sawtooth cycle has.
pub const CYCLE_LENGTH: usize = 1000;

/// How many temperatures the default sawtooth schedule hands out.
pub const STEP_LIMIT: usize = 20000;

/// The temperature `ceiling / 2^halvings * (99/100)^decays`, with `ceiling`
/// in units of `1 / TEMPERATURE_UNIT`.
#[derive(Clone, Copy, Debug, PartialEq, Eq, Structural)]
pub struct Temperature {
    pub ceiling: u64,
    pub halvings: usize,
    pub decays: usize,
}

impl Temperature {
    /// The temperature is `numerator / denominator`; this is the numerator.
    pub open spec fn numerator(self) -> int {
        self.ceiling * pow(99, self.decays as nat)
    }

    /// The temperature is `numerator / denominator`; this is the denominator.
    pub open spec fn denominator(self) -> int {
        TEMPERATURE_UNIT * pow2(self.halvings as nat) * pow(100, self.decays as nat)
    }

    /// Whether the temperature is above zero.
    pub open spec fn is_positive(self) -> bool {
        self.numerator() > 0
    }

    /// Whether the temperature is below `other`.
    pub open spec fn is_below(self, other: Temperature) -> bool {
        self.numerator() * other.denominator() < other.numerator() * self.denominator()
    }

    /// The denominator is above zero, and the temperatures above zero are
    /// those with a ceiling above zero.
    pub proof fn lemma_signs(self)
        ensures
            self.denominator() > 0,
            self.is_positive() <==> self.ceiling > 0,
    {
        lemma_pow_positive(99, self.decays as nat);
        lemma_pow_positive(100, self.decays as nat);
        lemma_pow2_pos(self.halvings as nat);
        let x = pow(99, self.decays as nat);
        let y = pow(100, self.decays as nat);
        let p = pow2(self.halvings as nat) as int;
        let c = self.ceiling as int;
        assert(TEMPERATURE_UNIT * p * y > 0) by (nonlinear_arith)
            requires
                p > 0,
                y > 0,
                TEMPERATURE_UNIT > 0,
        ;
        assert((c > 0) <==> (c * x > 0)) by (nonlinear_arith)
            requires
                x > 0,
                c >= 0,
        ;
    }

    /// A positive temperature that has decayed once more is below what it was.
    pub proof fn lemma_decay_cools(self, cooled: Temperature)
        requires
            self.is_positive(),
            cooled.ceiling == self.ceiling,
            cooled.halvings == self.halvings,
            cooled.decays == self.decays + 1,
        ensures
            cooled.is_below(self),
    {
        self.lemma_signs();
        lemma_pow_positive(99, self.decays as nat);
        lemma_pow_positive(100, self.decays as nat);
        lemma_pow2_pos(self.halvings as nat);
        reveal(pow);
        let x = pow(99, self.decays as nat);
        let y = pow(100, self.decays as nat);
        let p = pow2(self.halvings as nat) as int;
        let c = self.ceiling as int;
        let u = TEMPERATURE_UNIT as int;
        assert((c * (99 * x)) * (u * p * y) < (c * x) * (u * p * (100 * y))) by (nonlinear_arith)
            requires
                c > 0,
                x > 0,
                y > 0,
                p > 0,
                u > 0,
        ;
    }

    /// A positive temperature under a ceiling halved once more is below what
    /// it was.
    pub proof fn lemma_halving_cools(self, cooled: Temperature)
        requires
            self.is_positive(),
            cooled.ceiling == self.ceiling,
            cooled.halvings == self.halvings + 1,
            cooled.decays == self.decays,
        ensures
            cooled.is_below(self),
    {
        self.lemma_signs();
        lemma_pow_positive(99, self.decays as nat);
        lemma_pow_positive(100, self.decays as nat);
        lemma_pow2_pos(self.halvings as nat);
        vstd::arithmetic::power2::lemma_pow2_unfold(cooled.halvings as nat);
        let x = pow(99, self.decays as nat);
        let y = pow(100, self.decays as nat);
        let p = pow2(self.halvings as nat) as int;
        let c = self.ceiling as int;
        let u = TEMPERATURE_UNIT as int;
        assert((c * x) * (u * p * y) < (c * x) * (u * (2 * p) * y)) by (nonlinear_arith)
            requires
                c > 0,
                x > 0,
                y > 0,
                p > 0,
                u > 0,
        ;
    }
}

/// A finite sequence of positive temperatures, handed out one by one.
pub trait Schedule {
    /// How many temperatures are still to come.
    spec fn remaining(&self) -> nat;

    /// The next temperature, or `None` once the schedule is exhausted.
    fn next(&mut self) -> (t: Option<Temperature>)
        ensures
            t is Some <==> old(self).remaining() > 0,
            t is Some ==> final(self).remaining() == old(self).remaining() - 1,
            t is None ==> final(self).remaining() == 0,
            t is Some ==> t->0.is_positive(),
    ;
}

/// The temperature of step `n` of a sawtooth that starts at `ceiling` and
/// restarts every `cycle` steps: it decays by one hundredth per step, each
/// restart returns to the current ceiling, and the ceiling is halved at every
/// restart but the first.
pub open spec fn sawtooth_at(ceiling: u64, cycle: nat, n: nat) -> Temperature {
    Temperature {
        ceiling,
        halvings: if n / cycle >= 1 {
            (n / cycle - 1) as usize
        } else {
            0
        },
        decays: (n % cycle) as usize,
    }
}

/// How step `n + 1` of a cycle relates to step `n`.
pub proof fn lemma_cycle_step(n: nat, cycle: nat)
    requires
        cycle > 0,
    ensures
        (n + 1) % cycle == 0 ==> (n + 1) / cycle == n / cycle + 1 && n % cycle == cycle - 1,
        (n + 1) % cycle != 0 ==> (n + 1) / cycle == n / cycle && (n + 1) % cycle == n % cycle + 1,
{
    let q = n / cycle;
    let r = n % cycle;
    assert(n == q * cycle + r && 0 <= r < cycle) by (nonlinear_arith)
        requires
            cycle > 0,
            q == n / cycle,
            r == n % cycle,
    ;
    if r + 1 == cycle {
        assert((q + 1) * cycle == q * cycle + cycle) by (nonlinear_arith);
        assert((n + 1) / cycle == q + 1 && (n + 1) % cycle == 0) by (nonlinear_arith)
            requires
                cycle > 0,
                n + 1 == (q + 1) * cycle,
        ;
    } else {
        assert((n + 1) / cycle == q && (n + 1) % cycle == r + 1) by (nonlinear_arith)
            requires
                cycle > 0,
                n + 1 == q * cycle + (r + 1),
                0 <= r + 1 < cycle,
        ;
    }
}

/// From one step of a sawtooth to the next the temperature decays once
/// more, but for every step that `cycle` divides: there it restarts, with
/// the ceiling halved once for every restart before it.
pub proof fn lemma_sawtooth_step(ceiling: u64, cycle: nat, n: nat)
    requires
        cycle > 0,
        n + 1 <= usize::MAX,
    ensures
        (n + 1) % cycle != 0 ==> sawtooth_at(ceiling, cycle, n + 1) == (Temperature {
            decays: (sawtooth_at(ceiling, cycle, n).decays + 1) as usize,
            ..sawtooth_at(ceiling, cycle, n)
        }),
        (n + 1) % cycle == 0 ==> sawtooth_at(ceiling, cycle, n + 1) == (Temperature {
            ceiling,
            halvings: (n / cycle) as usize,
            decays: 0,
        }),
{
    lemma_cycle_step(n, cycle);
    assert(n % cycle <= n && n / cycle <= n) by (nonlinear_arith)
        requires
            cycle > 0,
    ;
}

/// From one step of a sawtooth to the next the temperature falls, but for
/// every step that `cycle` divides.
pub proof fn lemma_sawtooth_cools(ceiling: u64, cycle: nat, n: nat)
    requires
        ceiling > 0,
        cycle > 0,
        n + 1 <= usize::MAX,
        (n + 1) % cycle != 0,
    ensures
        sawtooth_at(ceiling, cycle, n + 1).is_below(sawtooth_at(ceiling, cycle, n)),
{
    lemma_sawtooth_step(ceiling, cycle, n);
    assert(n % cycle <= n) by (nonlinear_arith)
        requires
            cycle > 0,
    ;
    sawtooth_at(ceiling, cycle, n).lemma_signs();
    sawtooth_at(ceiling, cycle, n).lemma_decay_cools(sawtooth_at(ceiling, cycle, n + 1));
}

/// From the second restart on, every restart of a sawtooth returns to a
/// temperature below that of the restart before it.
pub proof fn lemma_sawtooth_restarts_lower(ceiling: u64, cycle: nat, n: nat)
    requires
        ceiling > 0,
        cycle > 0,
        n <= usize::MAX,
        n % cycle == 0,
        n / cycle >= 2,
    ensures
        sawtooth_at(ceiling, cycle, n).is_below(sawtooth_at(ceiling, cycle, (n - cycle) as nat)),
{
    let q = n / cycle;
    assert(n == q * cycle && q <= n) by (nonlinear_arith)
        requires
            cycle > 0,
            q == n / cycle,
            n % cycle == 0,
    ;
    assert(n - cycle == (q - 1) * cycle) by (nonlinear_arith)
        requires
            n == q * cycle,
    ;
    assert((n - cycle) / (cycle as int) == q - 1 && (n - cycle) % (cycle as int) == 0)
        by (nonlinear_arith)
        requires
            cycle > 0,
            q >= 2,
            n - cycle == (q - 1) * cycle,
    ;
    let before = sawtooth_at(ceiling, cycle, (n - cycle) as nat);
    before.lemma_signs();
    before.lemma_halving_cools(sawtooth_at(ceiling, cycle, n));
}

/// A decaying temperature that restarts at a lower ceiling every cycle.
pub struct SawtoothAnnealingSchedule {
    max_temp: u64,
    cycle: usize,
    limit: usize,
    count: usize,
    restarts: usize,
    temp: Temperature,
}

impl SawtoothAnnealingSchedule {
    #[verifier::type_invariant]
    spec fn well_formed(self) -> bool {
        &&& self.max_temp > 0
        &&& self.cycle > 0
        &&& self.count <= self.limit
        &&& self.restarts == self.count / self.cycle
        &&& self.temp == sawtooth_at(self.max_temp, self.cycle as nat, self.count as nat)
    }

    /// The ceiling that the schedule starts from.
    pub closed spec fn ceiling(&self) -> u64 {
        self.max_temp
    }

    /// The number of steps from one restart to the next.
    pub closed spec fn cycle(&self) -> nat {
        self.cycle as nat
    }

    /// How many temperatures the schedule hands out in all.
    pub closed spec fn limit(&self) -> nat {
        self.limit as nat
    }

    /// How many temperatures have been handed out.
    pub closed spec fn count(&self) -> nat {
        self.count as nat
    }

    /// The default sawtooth: `STEP_LIMIT` temperatures in cycles of
    /// `CYCLE_LENGTH` steps, the last of them the restart that ends the last cycle.
    pub fn new(max_temp: u64) -> (r: Self)
        requires
            max_temp > 0,
        ensures
            r.ceiling() == max_temp,
            r.cycle() == CYCLE_LENGTH,
            r.limit() == STEP_LIMIT,
            r.count() == 0,
    {
        Self::with_shape(max_temp, CYCLE_LENGTH, STEP_LIMIT)
    }

    /// A sawtooth with cycles of `cycle` steps that hands out `limit`
    /// temperatures: those of the steps from one to `limit`.
    pub fn with_shape(max_temp: u64, cycle: usize, limit: usize) -> (r: Self)
        requires
            max_temp > 0,
            cycle > 0,
        ensures
            r.ceiling() == max_temp,
            r.cycle() == cycle,
            r.limit() == limit,
            r.count() == 0,
    {
        proof {
            assert(0nat / (cycle as nat) == 0 && 0nat % (cycle as nat) == 0) by (nonlinear_arith)
                requires
                    cycle > 0,
            ;
        }
        Self {
            max_temp,
            cycle,
            limit,
            count: 0,
            restarts: 0,
            temp: Temperature { ceiling: max_temp, halvings: 0, decays: 0 },
        }
    }
}

impl Schedule for SawtoothAnnealingSchedule {
    /// The steps from the next one up to the step `limit`.
    open spec fn remaining(&self) -> nat {
        if self.limit() > self.count() {
            (self.limit() - self.count()) as nat
        } else {
            0
        }
    }

    fn next(&mut self) -> (t: Option<Temperature>)
        ensures
            final(self).ceiling() == old(self).ceiling(),
            final(self).cycle() == old(self).cycle(),
            final(self).limit() == old(self).limit(),
            old(self).remaining() > 0 ==> final(self).count() == old(self).count() + 1,
            old(self).remaining() > 0 ==> t == Some(
                sawtooth_at(old(self).ceiling(), old(self).cycle(), old(self).count() + 1),
            ),
            old(self).remaining() == 0 ==> final(self).count() == old(self).count(),
    {
        proof {
            use_type_invariant(&*self);
            lemma_cycle_step(self.count as nat, self.cycle as nat);
            sawtooth_at(self.max_temp, self.cycle as nat, (self.count + 1) as nat).lemma_signs();
        }
        if self.count >= self.limit {
            return None;
        }
        let count = self.count + 1;
        let mut restarts = self.restarts;
        let mut temp = self.temp;
        if count % self.cycle == 0 {
            temp = Temperature { ceiling: self.max_temp, halvings: restarts, decays: 0 };
            restarts = restarts + 1;
        } else {
            temp = Temperature { decays: temp.decays + 1, ..temp };
        }
        *self = Self {
            max_temp: self.max_temp,
            cycle: self.cycle,
            limit: self.limit,
            count,
            restarts,
            temp,
        };
        Some(temp)
    }
}

} // verus!
