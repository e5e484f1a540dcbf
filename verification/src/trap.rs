//! Interrupts, traps and the context that they save.

use vstd::prelude::*;
use crate::context::Context;

verus! {

/// Line `n` of `mask` is on.
pub open spec fn line_on(mask: u32, n: u32) -> bool {
    mask & (1u32 << n) != 0
}

/// The trap controller.
pub struct TrapCtl {
    /// A trap is being handled.
    pub active: bool,
    /// The hardware interrupts that are handled.
    pub hw_mask: u32,
    /// The software interrupts that are handled.
    pub sw_mask: u32,
    /// How deep handlers are nested.
    pub nest: u64,
    /// The context that the last trap saved.
    pub frame: Option<Context>,
    /// Saved contexts, the latest last.
    pub stack: Vec<Context>,
    /// Interrupts are on.
    pub irq_on: bool,
    /// Handling is suppressed.
    pub suppressed: bool,
    /// A hardware interrupt is being handled.
    pub in_irq: bool,
}

/// Whether a trap with this vector is handled: hardware interrupts 0 to 7 and software interrupts
/// 8 to 15 by their masks, the page fault, 14, always.
pub open spec fn handled(hw: u32, sw: u32, vector: u64) -> bool {
    if vector <= 7 {
        line_on(hw, vector as u32)
    } else if vector == 14 {
        true
    } else if vector <= 15 {
        line_on(sw, (vector - 8) as u32)
    } else {
        false
    }
}

/// The frames after one more was put on top.
pub open spec fn framed(stack: Seq<Context>, ctx: Context) -> Seq<Context> {
    stack.push(ctx)
}

/// The topmost frame, and the frames below it.
pub open spec fn unframed(stack: Seq<Context>) -> (Option<Context>, Seq<Context>) {
    if stack.len() > 0 {
        (Some(stack.last()), stack.drop_last())
    } else {
        (None, stack)
    }
}

impl TrapCtl {
    /// Nothing handled, interrupts on.
    pub fn new() -> (t: Self)
        ensures
            !t.active,
            t.hw_mask == 0,
            t.sw_mask == 0,
            t.nest == 0,
            t.frame is None,
            t.stack@ == Seq::<Context>::empty(),
            t.irq_on,
            !t.suppressed,
            !t.in_irq,
    {
        TrapCtl {
            active: false,
            hw_mask: 0,
            sw_mask: 0,
            nest: 0,
            frame: None,
            stack: Vec::new(),
            irq_on: true,
            suppressed: false,
            in_irq: false,
        }
    }

    /// Sets the software mask `a` and the hardware mask `b`.
    pub fn configure(&mut self, a: u32, b: u32)
        ensures
            *final(self) == (TrapCtl { sw_mask: a, hw_mask: b, ..*old(self) }),
    {
        self.sw_mask = a;
        self.hw_mask = b;
    }

    /// The hardware mask.
    pub fn hw(&self) -> (m: u32)
        ensures
            m == self.hw_mask,
    {
        self.hw_mask
    }

    /// The software mask.
    pub fn sw(&self) -> (m: u32)
        ensures
            m == self.sw_mask,
    {
        self.sw_mask
    }

    /// Whether a handler runs.
    pub fn in_handler(&self) -> (r: bool)
        ensures
            r == (self.active || self.nest > 0),
    {
        self.active || self.nest > 0
    }

    /// Saves the context of a trap and gives it back.
    pub fn dispatch(&mut self, ctx: Context) -> (r: Context)
        ensures
            *final(self) == (TrapCtl { frame: Some(ctx), ..*old(self) }),
            r == ctx,
    {
        self.frame = Some(ctx);
        ctx
    }

    /// The context that the last trap saved.
    pub fn current(&self) -> (r: Option<Context>)
        ensures
            r == self.frame,
    {
        self.frame
    }

    /// Handles an interrupt: turns interrupts on, saves the context and gives it back. No handler
    /// is active afterwards.
    pub fn handle_irq(&mut self, ctx: Context) -> (r: Context)
        ensures
            *final(self) == (TrapCtl { active: false, irq_on: true, frame: Some(ctx), ..*old(self) }),
            r == ctx,
    {
        self.active = true;
        self.irq_on = true;
        let r = self.dispatch(ctx);
        self.active = false;
        r
    }

    /// Whether a page fault may be handled: not during a hardware interrupt.
    pub fn on_pgfault(&self, _va: u64) -> (r: Result<(), &'static str>)
        ensures
            r == (if self.in_irq { Err::<(), &'static str>("fault") } else { Ok(()) }),
    {
        if self.in_irq {
            return Err("fault");
        }
        Ok(())
    }

    /// Handles the trap with this vector. During a hardware interrupt, and while the page fault
    /// itself is handled, no further page fault is.
    pub fn dispatch_vector(&mut self, vector: u64, ctx: Context) -> (r: Context)
        ensures
            r == ctx,
            final(self).frame == (if handled(old(self).hw_mask, old(self).sw_mask, vector) {
                Some(ctx)
            } else {
                old(self).frame
            }),
            final(self).in_irq == (if vector <= 7 || vector == 14 {
                false
            } else {
                old(self).in_irq
            }),
            *final(self) == (TrapCtl { frame: final(self).frame, in_irq: final(self).in_irq, ..*old(self) }),
    {
        if vector <= 7 {
            self.in_irq = true;
            let r = if self.hw_mask & (1u32 << (vector as u32)) != 0 {
                self.dispatch(ctx)
            } else {
                ctx
            };
            self.in_irq = false;
            r
        } else if vector == 14 {
            self.in_irq = true;
            let _ = self.on_pgfault(0);
            let r = self.dispatch(ctx);
            self.in_irq = false;
            r
        } else if vector <= 15 {
            let line: u32 = (vector - 8) as u32;
            if self.sw_mask & (1u32 << line) != 0 {
                return self.dispatch(ctx);
            }
            ctx
        } else {
            ctx
        }
    }

    /// Saves a context on the stack.
    pub fn push_frame(&mut self, ctx: &Context)
        ensures
            final(self).stack@ == framed(old(self).stack@, *ctx),
            final(self).stack@ == old(self).stack@.push(*ctx),
            *final(self) == (TrapCtl { stack: final(self).stack, ..*old(self) }),
    {
        self.stack.push(*ctx);
    }

    /// Takes the latest context off the stack.
    pub fn pop_frame(&mut self) -> (r: Option<Context>)
        ensures
            (r, final(self).stack@) == unframed(old(self).stack@),
            old(self).stack@.len() == 0 ==> r is None && final(self).stack@ == old(self).stack@,
            old(self).stack@.len() > 0 ==> r == Some(old(self).stack@.last()) && final(self).stack@
                == old(self).stack@.drop_last(),
            *final(self) == (TrapCtl { stack: final(self).stack, ..*old(self) }),
    {
        self.stack.pop()
    }

    /// How deep handlers are nested.
    pub fn nest_depth(&self) -> (n: u64)
        ensures
            n == self.nest,
    {
        self.nest
    }

    /// Suppresses handling.
    pub fn suppress(&mut self)
        ensures
            *final(self) == (TrapCtl { suppressed: true, ..*old(self) }),
    {
        self.suppressed = true;
    }

    /// Ends the suppression.
    pub fn unsuppress(&mut self)
        ensures
            *final(self) == (TrapCtl { suppressed: false, ..*old(self) }),
    {
        self.suppressed = false;
    }
}

/// What was pushed last is popped first, and the rest of the stack is untouched.
pub proof fn law_frames_nest(stack: Seq<Context>, ctx: Context)
    ensures
        stack.push(ctx).last() == ctx,
        stack.push(ctx).drop_last() == stack,
        unframed(framed(stack, ctx)) == (Some(ctx), stack),
        unframed(Seq::<Context>::empty()).0 is None,
{
    assert(stack.push(ctx).drop_last() =~= stack);
}

/// The page fault is handled whatever the masks say; vectors above 15 never are.
pub proof fn law_vector_classes(hw: u32, sw: u32, vector: u64)
    ensures
        handled(hw, sw, 14),
        vector > 15 ==> !handled(hw, sw, vector),
{
}

/// A line that is masked out is not handled and one that is not is: the first eight vectors by the
/// hardware mask, the next by the software mask. Page faults are handled whatever the masks are.
pub proof fn law_masks_decide(hw: u32, sw: u32, n: u32)
    requires
        n < 8,
    ensures
        handled(hw, sw, n as u64) <==> hw & (1u32 << n) != 0,
        n != 6 ==> (handled(hw, sw, (n + 8) as u64) <==> sw & (1u32 << n) != 0),
        handled(hw, sw, 14),
{
}

} // verus!
