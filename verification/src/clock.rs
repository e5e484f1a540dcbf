//! The clocks, and small things that timer and serial line need.

use vstd::prelude::*;
use crate::consts::USEC_TICK;

verus! {

/// The clocks: ticks of the first CPU, and ticks of all CPUs together.
#[derive(Clone, Copy, PartialEq, Eq, Structural, Debug)]
pub struct Clock {
    /// Ticks of the first CPU.
    pub clk: u64,
    /// Ticks of all CPUs.
    pub clk_all: u64,
}

impl Clock {
    /// Both clocks at zero.
    pub fn new() -> (c: Self)
        ensures
            c == (Clock { clk: 0, clk_all: 0 }),
    {
        Clock { clk: 0, clk_all: 0 }
    }

    /// After a tick of CPU `cpu_id`.
    pub open spec fn ticked(self, cpu_id: u64) -> Clock {
        Clock {
            clk: if cpu_id == 0 {
                self.clk.wrapping_add(1)
            } else {
                self.clk
            },
            clk_all: self.clk_all.wrapping_add(1),
        }
    }
}

/// The ticks of the first CPU.
pub fn wclk(c: &Clock) -> (t: u64)
    ensures
        t == c.clk,
{
    c.clk
}

/// The ticks of all CPUs.
pub fn cclk(c: &Clock) -> (t: u64)
    ensures
        t == c.clk_all,
{
    c.clk_all
}

/// Counts a tick of CPU `cpu_id`: the clock of all, and on CPU 0 its own.
pub fn dtk(c: &mut Clock, cpu_id: u64)
    ensures
        *final(c) == old(c).ticked(cpu_id),
{
    if cpu_id == 0 {
        c.clk = c.clk.wrapping_add(1);
    }
    c.clk_all = c.clk_all.wrapping_add(1);
}

/// Milliseconds since the start.
pub fn up_ms(c: &Clock) -> (ms: u64)
    requires
        c.clk * USEC_TICK <= u64::MAX,
    ensures
        ms == c.clk * USEC_TICK / 1000,
{
    c.clk * USEC_TICK / 1000
}

/// A timer interrupt of CPU `cpu_id`.
pub fn tmr(c: &mut Clock, cpu_id: u64)
    ensures
        *final(c) == old(c).ticked(cpu_id),
{
    dtk(c, cpu_id);
}

/// A character from the serial line; a carriage return becomes a new line.
pub fn ser(c: u8) -> (r: u8)
    ensures
        r == (if c == 13 { 10 } else { c }),
{
    if c == 13 {
        10
    } else {
        c
    }
}

/// The clock of all CPUs moves with every tick, that of the first CPU only with its own.
pub proof fn law_clocks(c: Clock, cpu_id: u64)
    requires
        c.clk < u64::MAX,
        c.clk_all < u64::MAX,
    ensures
        c.ticked(cpu_id).clk_all == c.clk_all + 1,
        c.ticked(cpu_id).clk == c.clk + (if cpu_id == 0 { 1int } else { 0 }),
{
}

} // verus!
