//! Capabilities: the single rights that the power of the superuser is split into.

use vstd::prelude::*;
use crate::consts::INHERITABLE_MASK;

verus! {

/// The capabilities of a process, one bit each.
#[derive(Clone, Copy, PartialEq, Eq, Structural, Debug)]
pub struct CapSet {
    /// What the process may have.
    pub bits: u64,
    /// What is in effect.
    pub effective: u64,
    /// What is kept when another program is started.
    pub ambient: u64,
}

proof fn lemma_within(b: u64, e: u64, c: u64)
    by (bit_vector)
    ensures
        !0u64 & !(!0u64) == 0,
        0u64 & !0u64 == 0,
        e & !b == 0 ==> (e | c) & !(b | c) == 0,
        e & !b == 0 ==> (e & !c) & !(b & !c) == 0,
        e & !b == 0 ==> (e & c) & !(b & c) == 0,
{
}

impl CapSet {
    /// Only what the process may have is in effect.
    pub open spec fn sound(&self) -> bool {
        self.effective & !self.bits == 0
    }

    /// The capability `cap` can be used.
    pub open spec fn holds(self, cap: u32) -> bool {
        cap < 64 && crate::utils::on(self.effective, cap)
    }

    /// With the capability `cap`.
    pub open spec fn granted(self, cap: u32) -> CapSet {
        if cap < 64 {
            CapSet { bits: self.bits | (1u64 << cap), effective: self.effective | (1u64 << cap), ..self }
        } else {
            self
        }
    }

    /// Without the capability `cap`.
    pub open spec fn deprived(self, cap: u32) -> CapSet {
        if cap < 64 {
            CapSet { bits: self.bits & !(1u64 << cap), effective: self.effective & !(1u64 << cap), ..self }
        } else {
            self
        }
    }

    /// What a child gets.
    pub open spec fn handed_down(self) -> CapSet {
        CapSet {
            bits: self.bits & INHERITABLE_MASK,
            effective: self.effective & INHERITABLE_MASK,
            ambient: self.ambient,
        }
    }

    /// No capabilities.
    pub fn new() -> (c: Self)
        ensures
            c == (CapSet { bits: 0, effective: 0, ambient: 0 }),
            c.sound(),
    {
        proof {
            lemma_within(0, 0, 0);
        }
        CapSet { bits: 0, effective: 0, ambient: 0 }
    }

    /// All capabilities, none of them ambient.
    pub fn full() -> (c: Self)
        ensures
            c == (CapSet { bits: !0u64, effective: !0u64, ambient: 0 }),
            c.sound(),
    {
        proof {
            lemma_within(0, 0, 0);
        }
        CapSet { bits: !0u64, effective: !0u64, ambient: 0 }
    }

    /// Whether a capability is in effect.
    pub fn check(&self, cap: u32) -> (r: bool)
        ensures
            r == (cap < 64 && crate::utils::on(self.effective, cap)),
            r == self.holds(cap),
    {
        if cap >= 64 {
            return false;
        }
        (self.effective & (1u64 << cap)) != 0
    }

    /// Grants a capability and puts it into effect.
    pub fn grant(&mut self, cap: u32)
        ensures
            *final(self) == (if cap < 64 {
                CapSet {
                    bits: old(self).bits | (1u64 << cap),
                    effective: old(self).effective | (1u64 << cap),
                    ..*old(self)
                }
            } else {
                *old(self)
            }),
            *final(self) == old(self).granted(cap),
            old(self).sound() ==> final(self).sound(),
    {
        if cap < 64 {
            proof {
                lemma_within(self.bits, self.effective, 1u64 << cap);
            }
            self.bits = self.bits | (1u64 << cap);
            self.effective = self.effective | (1u64 << cap);
        }
    }

    /// Takes a capability away.
    pub fn drop_cap(&mut self, cap: u32)
        ensures
            *final(self) == (if cap < 64 {
                CapSet {
                    bits: old(self).bits & !(1u64 << cap),
                    effective: old(self).effective & !(1u64 << cap),
                    ..*old(self)
                }
            } else {
                *old(self)
            }),
            *final(self) == old(self).deprived(cap),
            old(self).sound() ==> final(self).sound(),
    {
        if cap < 64 {
            proof {
                lemma_within(self.bits, self.effective, 1u64 << cap);
            }
            self.bits = self.bits & !(1u64 << cap);
            self.effective = self.effective & !(1u64 << cap);
        }
    }

    /// What a child inherits: the capabilities that may be inherited, and all ambient ones.
    pub fn inherit(parent: &CapSet) -> (c: CapSet)
        ensures
            c == (CapSet {
                bits: parent.bits & INHERITABLE_MASK,
                effective: parent.effective & INHERITABLE_MASK,
                ambient: parent.ambient,
            }),
            c == parent.handed_down(),
            parent.sound() ==> c.sound(),
    {
        proof {
            lemma_within(parent.bits, parent.effective, INHERITABLE_MASK);
        }
        CapSet {
            bits: parent.bits & INHERITABLE_MASK,
            effective: parent.effective & INHERITABLE_MASK,
            ambient: parent.ambient,
        }
    }

    /// Whether any capability of `mask` is in effect.
    pub fn has_any(&self, mask: u64) -> (r: bool)
        ensures
            r == (self.effective & mask != 0),
    {
        (self.effective & mask) != 0
    }

    /// Leaves nothing ambient.
    pub fn clear_ambient(&mut self)
        ensures
            *final(self) == (CapSet { ambient: 0, ..*old(self) }),
    {
        self.ambient = 0;
    }

    /// Makes a capability ambient if the process may have it; tells whether.
    pub fn raise_ambient(&mut self, cap: u32) -> (r: bool)
        ensures
            r == (cap < 64 && crate::utils::on(old(self).bits, cap)),
            *final(self) == (if r {
                CapSet { ambient: old(self).ambient | (1u64 << cap), ..*old(self) }
            } else {
                *old(self)
            }),
    {
        if cap >= 64 {
            return false;
        }
        if (self.bits & (1u64 << cap)) != 0 {
            self.ambient = self.ambient | (1u64 << cap);
            true
        } else {
            false
        }
    }
}

/// A granted capability is in effect until it is dropped; no other one changes.
pub proof fn law_grant_and_drop(effective: u64, cap: u32, other: u32)
    requires
        cap < 64,
        other < 64,
    ensures
        crate::utils::on(effective | (1u64 << cap), cap),
        !crate::utils::on(effective & !(1u64 << cap), cap),
        other != cap ==> crate::utils::on(effective | (1u64 << cap), other) == crate::utils::on(effective, other),
        other != cap ==> crate::utils::on(effective & !(1u64 << cap), other) == crate::utils::on(effective, other),
{
    crate::utils::lemma_on(effective, 0, cap, cap);
    crate::utils::lemma_on(effective, 0, cap, other);
}

/// A child has no capability that its parent did not have.
pub proof fn law_inherit_adds_nothing(effective: u64, cap: u32)
    requires
        cap < 64,
        crate::utils::on(effective & INHERITABLE_MASK, cap),
    ensures
        crate::utils::on(effective, cap),
        crate::utils::on(INHERITABLE_MASK, cap),
{
    crate::utils::lemma_on(effective, INHERITABLE_MASK, 0, cap);
}

/// A capability that was granted can be used, and one that was dropped cannot, nor be raised again;
/// no other capability is concerned. A child has those of its parent's that can be inherited, and no
/// others.
pub proof fn law_capabilities_are_kept(c: CapSet, cap: u32, other: u32)
    requires
        cap < 64,
        other < 64,
    ensures
        c.granted(cap).holds(cap),
        !c.deprived(cap).holds(cap),
        !crate::utils::on(c.deprived(cap).bits, cap),
        other != cap ==> c.granted(cap).holds(other) == c.holds(other) && c.deprived(cap).holds(other) == c.holds(other),
        c.handed_down().holds(cap) <==> c.holds(cap) && crate::utils::on(INHERITABLE_MASK, cap),
{
    law_grant_and_drop(c.effective, cap, other);
    law_grant_and_drop(c.bits, cap, other);
    crate::utils::lemma_on(c.effective, INHERITABLE_MASK, 0, cap);
}

} // verus!
