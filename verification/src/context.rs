//! The registers of a thread.

use vstd::prelude::*;
use crate::consts::N_REGS;

verus! {

/// The registers of a thread: 16 general ones, the instruction pointer and the flags. Register 0
/// holds results, the last one the stack pointer and the one before it the thread's local storage.
#[derive(Clone, Copy, Debug, PartialEq, Eq)]
pub struct Context {
    /// The general registers.
    pub r: [u64; N_REGS],
    /// The instruction pointer.
    pub ip: u64,
    /// The flags.
    pub flags: u64,
}

/// Registers as values.
#[verifier::ext_equal]
pub struct Registers {
    /// The general registers.
    pub r: Seq<u64>,
    /// The instruction pointer.
    pub ip: u64,
    /// The flags.
    pub flags: u64,
}

impl Registers {
    /// With register `i` set to `v`.
    pub open spec fn with(self, i: int, v: u64) -> Registers {
        Registers { r: self.r.update(i, v), ..self }
    }

    /// With `v` put where operation `op` says.
    pub open spec fn transformed(self, op: u8, v: u64) -> Registers {
        let kind = op % 16;
        let at = v as int / 0x100_0000_0000_0000;
        if kind == 0 {
            self.with(0, v)
        } else if kind == 1 {
            Registers { ip: v, ..self }
        } else if kind == 2 {
            self.with(N_REGS - 1, v)
        } else if kind == 3 {
            self.with(N_REGS - 2, v)
        } else if kind == 4 {
            Registers { flags: v, ..self }
        } else if kind == 5 && at < N_REGS {
            self.with(at, (v % 0x100_0000_0000_0000) as u64)
        } else {
            self
        }
    }

    /// Place `i` of all registers: the general ones, then the instruction pointer, then the flags.
    pub open spec fn at(self, i: int) -> u64 {
        if i < N_REGS {
            self.r[i]
        } else if i == N_REGS {
            self.ip
        } else {
            self.flags
        }
    }

    /// The places below `n` at which two sets of registers differ, with both values.
    pub open spec fn changes(self, other: Registers, n: nat) -> Seq<(usize, u64, u64)>
        decreases n,
    {
        if n == 0 {
            Seq::empty()
        } else {
            let before = self.changes(other, (n - 1) as nat);
            let i = n - 1;
            if self.at(i) != other.at(i) {
                before.push((i as usize, self.at(i), other.at(i)))
            } else {
                before
            }
        }
    }
}

/// One step of the hash: mix in `v`, then multiply.
pub open spec fn mixed(h: u64, v: u64) -> u64 {
    (h ^ v).wrapping_mul(0x100000001b3)
}

/// The hash over the first `n` of the values `r`.
pub open spec fn mixed_all(r: Seq<u64>, n: nat) -> u64
    decreases n,
{
    if n == 0 {
        0xcbf29ce484222325
    } else {
        mixed(mixed_all(r, (n - 1) as nat), r[n - 1])
    }
}

/// A register value by the class that its top four bits give: the low 48 bits; the value without
/// its top and its low four bits; the negated value; the value itself.
pub open spec fn classed(v: u64) -> u64 {
    let class = v as int / 0x1000_0000_0000_0000;
    if class <= 3 {
        (v % 0x1_0000_0000_0000) as u64
    } else if class <= 7 {
        (v as int % 0x1000_0000_0000_0000 / 16 * 16) as u64
    } else if class <= 11 {
        (0x1_0000_0000_0000_0000 - v) as u64
    } else {
        v
    }
}

impl Context {
    /// The registers as values.
    pub open spec fn view(&self) -> Registers {
        Registers { r: self.r@, ip: self.ip, flags: self.flags }
    }

    /// All registers zero.
    pub fn new() -> (c: Self)
        ensures
            c@ == (Registers { r: Seq::new(N_REGS as nat, |i: int| 0u64), ip: 0, flags: 0 }),
    {
        let c = Context { r: [0u64; 16], ip: 0, flags: 0 };
        assert(c@.r =~= Seq::new(N_REGS as nat, |i: int| 0u64));
        c
    }

    /// The general registers `src`, the rest zero.
    pub fn capture(src: &[u64; N_REGS]) -> (c: Self)
        ensures
            c@ == (Registers { r: src@, ip: 0, flags: 0 }),
    {
        Context { r: *src, ip: 0, flags: 0 }
    }

    /// The general registers.
    pub fn apply(&self) -> (out: [u64; N_REGS])
        ensures
            out@ == self@.r,
    {
        self.r
    }

    /// Sets the instruction pointer.
    pub fn set_ip(&mut self, v: u64)
        ensures
            final(self)@ == (Registers { ip: v, ..old(self)@ }),
    {
        self.ip = v;
    }

    /// Sets the stack pointer.
    pub fn set_sp(&mut self, v: u64)
        ensures
            final(self)@ == old(self)@.with(N_REGS - 1, v),
    {
        self.r[N_REGS - 1] = v;
    }

    /// Sets the result.
    pub fn set_ret(&mut self, v: u64)
        ensures
            final(self)@ == old(self)@.with(0, v),
    {
        self.r[0] = v;
    }

    /// Sets the thread's local storage.
    pub fn set_tls(&mut self, v: u64)
        ensures
            final(self)@ == old(self)@.with(N_REGS - 2, v),
    {
        self.r[N_REGS - 2] = v;
    }

    /// A copy with `val` put where operation `op` says: 0 the result, 1 the instruction pointer, 2
    /// the stack pointer, 3 the local storage, 4 the flags, 5 the register whose number is the top
    /// byte of `val`.
    pub fn transform(&self, op: u8, val: u64) -> (c: Context)
        ensures
            c@ == self@.transformed(op, val),
    {
        let mut out = *self;
        let kind: u8 = op % 16;
        if kind == 0 {
            out.set_ret(val);
        } else if kind == 1 {
            out.set_ip(val);
        } else if kind == 2 {
            out.set_sp(val);
        } else if kind == 3 {
            out.set_tls(val);
        } else if kind == 4 {
            out.flags = val;
        } else if kind == 5 {
            let idx: usize = (val / 0x100_0000_0000_0000) as usize;
            if idx < N_REGS {
                out.r[idx] = val % 0x100_0000_0000_0000;
            }
        }
        out
    }

    /// The arguments of a system call: registers 0 to 5.
    pub fn syscall_args(&self) -> (a: (u64, u64, u64, u64, u64, u64))
        ensures
            a == (self@.r[0], self@.r[1], self@.r[2], self@.r[3], self@.r[4], self@.r[5]),
    {
        (self.r[0], self.r[1], self.r[2], self.r[3], self.r[4], self.r[5])
    }

    /// A copy with another result.
    pub fn clone_with_ret(&self, ret: u64) -> (c: Context)
        ensures
            c@ == self@.with(0, ret),
    {
        let mut c = *self;
        c.set_ret(ret);
        c
    }

    /// Where two sets of registers differ: the place, the value here and the value there.
    pub fn diff(&self, other: &Context) -> (d: Vec<(usize, u64, u64)>)
        ensures
            d@ == self@.changes(other@, (N_REGS + 2) as nat),
    {
        let mut d: Vec<(usize, u64, u64)> = Vec::new();
        let mut i: usize = 0;
        while i < N_REGS
            invariant
                i <= N_REGS,
                d@ == self@.changes(other@, i as nat),
            decreases N_REGS - i,
        {
            if self.r[i] != other.r[i] {
                d.push((i, self.r[i], other.r[i]));
            }
            i += 1;
        }
        if self.ip != other.ip {
            d.push((N_REGS, self.ip, other.ip));
        }
        proof {
            assert(d@ == self@.changes(other@, (N_REGS + 1) as nat));
        }
        if self.flags != other.flags {
            d.push((N_REGS + 1, self.flags, other.flags));
        }
        d
    }

    /// A hash of all registers.
    pub fn hash(&self) -> (h: u64)
        ensures
            h == mixed(mixed_all(self@.r, N_REGS as nat), self.ip) ^ self.flags,
    {
        let mut h: u64 = 0xcbf29ce484222325;
        let mut i: usize = 0;
        while i < N_REGS
            invariant
                i <= N_REGS,
                h == mixed_all(self@.r, i as nat),
            decreases N_REGS - i,
        {
            h = (h ^ self.r[i]).wrapping_mul(0x100000001b3);
            i += 1;
        }
        h = (h ^ self.ip).wrapping_mul(0x100000001b3);
        h ^ self.flags
    }

    /// Register `idx` by its class; 0 where there is no such register.
    pub fn reg_class(&self, idx: usize) -> (v: u64)
        ensures
            v == (if idx < N_REGS { classed(self@.r[idx as int]) } else { 0 }),
    {
        if idx >= N_REGS {
            return 0;
        }
        let v: u64 = self.r[idx];
        let class: u64 = v / 0x1000_0000_0000_0000;
        if class <= 3 {
            v % 0x1_0000_0000_0000
        } else if class <= 7 {
            v % 0x1000_0000_0000_0000 / 16 * 16
        } else if class <= 11 {
            u64::MAX - v + 1
        } else {
            v
        }
    }
}

/// There is nothing to list exactly when two sets of registers are the same.
pub proof fn law_diff_empty_iff_same(a: Registers, b: Registers)
    requires
        a.r.len() == N_REGS,
        b.r.len() == N_REGS,
    ensures
        a.changes(b, (N_REGS + 2) as nat).len() == 0 <==> a == b,
{
    lemma_changes(a, b, (N_REGS + 2) as nat);
    if a.changes(b, (N_REGS + 2) as nat).len() == 0 {
        assert forall|i: int| 0 <= i < N_REGS implies a.r[i] == b.r[i] by {
            assert(a.at(i) == b.at(i));
        }
        assert(a.at(N_REGS as int) == b.at(N_REGS as int));
        assert(a.at(N_REGS + 1) == b.at(N_REGS + 1));
        assert(a =~= b);
    }
}

proof fn lemma_changes(a: Registers, b: Registers, n: nat)
    ensures
        a.changes(b, n).len() == 0 <==> forall|i: int| 0 <= i < n ==> #[trigger] a.at(i) == b.at(i),
    decreases n,
{
    if n > 0 {
        lemma_changes(a, b, (n - 1) as nat);
        let fewer = a.changes(b, (n - 1) as nat);
        if a.at(n - 1) == b.at(n - 1) && fewer.len() == 0 {
            assert forall|k: int| 0 <= k < n implies #[trigger] a.at(k) == b.at(k) by {}
        }
        if fewer.len() > 0 {
            let k = choose|k: int| 0 <= k < n - 1 && #[trigger] a.at(k) != b.at(k);
            assert(a.at(k) != b.at(k));
        }
    }
}

/// A forked thread sees the same registers as its parent, but for the result.
pub proof fn law_fork_context(a: Registers, ret: u64, i: int)
    requires
        a.r.len() == N_REGS,
        0 <= i < N_REGS,
    ensures
        a.with(0, ret).r[i] == (if i == 0 { ret } else { a.r[i] }),
        a.with(0, ret).ip == a.ip,
        a.with(0, ret).flags == a.flags,
{
}

/// The operations that set a register each set their own: the result, the instruction pointer, the
/// stack pointer, the thread's pointer and the flags. All other registers stay.
pub proof fn law_operations_set_registers(a: Registers, v: u64, i: int)
    requires
        a.r.len() == N_REGS,
        0 <= i < N_REGS + 2,
    ensures
        a.transformed(0, v).at(i) == (if i == 0 { v } else { a.at(i) }),
        a.transformed(1, v).at(i) == (if i == N_REGS { v } else { a.at(i) }),
        a.transformed(2, v).at(i) == (if i == N_REGS - 1 { v } else { a.at(i) }),
        a.transformed(3, v).at(i) == (if i == N_REGS - 2 { v } else { a.at(i) }),
        a.transformed(4, v).at(i) == (if i == N_REGS + 1 { v } else { a.at(i) }),
        a.transformed(15, v) == a,
{
}

/// What is told of two sets of registers is just where they differ, with the value of the first and
/// that of the second.
pub proof fn law_changes_are_told(a: Registers, b: Registers, n: nat, i: int)
    requires
        0 <= i < n <= N_REGS + 2,
    ensures
        a.at(i) != b.at(i) <==> a.changes(b, n).contains((i as usize, a.at(i), b.at(i))),
        forall|j: int|
            0 <= j < a.changes(b, n).len() ==> ({
                let c = #[trigger] a.changes(b, n)[j];
                c.0 < n && c.1 == a.at(c.0 as int) && c.2 == b.at(c.0 as int) && c.1 != c.2
            }),
    decreases n,
{
    let before = a.changes(b, (n - 1) as nat);
    let x = (i as usize, a.at(i), b.at(i));
    if n > 1 {
        law_changes_are_told(a, b, (n - 1) as nat, if i < n - 1 { i } else { 0 });
    }
    if a.at(i) != b.at(i) {
        if i == n - 1 {
            assert(a.changes(b, n)[before.len() as int] == x);
        } else {
            let j = choose|j: int| 0 <= j < before.len() && before[j] == x;
            assert(a.changes(b, n)[j] == x);
        }
    }
}

} // verus!
