//! What a new program finds on its stack.

use vstd::prelude::*;
use crate::ordmap::OrdMap;

verus! {

/// Arguments, environment and auxiliary vector of a new program.
pub struct ProcInit {
    /// Arguments.
    pub args: Vec<String>,
    /// Environment.
    pub envs: Vec<String>,
    /// Auxiliary vector.
    pub auxv: OrdMap<u64>,
}

/// Bytes of the first `n` texts, each with a zero behind it.
pub open spec fn text_bytes(v: Seq<String>, n: int) -> int
    decreases n,
{
    if n <= 0 {
        0
    } else {
        text_bytes(v, n - 1) + crate::text::byte_len(v[n - 1]@) + 1
    }
}

/// Bytes of the program's name, which is its first argument, with a zero behind it.
pub open spec fn name_bytes(args: Seq<String>) -> int {
    (if args.len() > 0 {
        crate::text::byte_len(args[0]@) as int
    } else {
        0
    }) + 1
}

/// Words that the stack holds besides the texts: the auxiliary pairs with their end, the pointers
/// to environment and arguments with their ends, and the number of arguments.
pub open spec fn stack_words(args: int, envs: int, aux: int) -> int {
    aux * 2 + 2 + (envs + 1) + (args + 1) + 1
}

/// The stack pointer below all texts: the program's name, the environment and the arguments.
pub open spec fn below_all_texts(args: Seq<String>, envs: Seq<String>, top: u64) -> int {
    (top - name_bytes(args) - text_bytes(envs, envs.len() as int) - text_bytes(args, args.len() as int))
        % 0x1_0000_0000_0000_0000
}

/// Everything finds its place below `top`.
pub open spec fn stack_fits(args: Seq<String>, envs: Seq<String>, aux: int, top: u64) -> bool {
    &&& name_bytes(args) <= top
    &&& stack_words(args.len() as int, envs.len() as int, aux) * 8 <= below_all_texts(args, envs, top)
}

/// The stack pointer after everything has been pushed below `top`.
pub open spec fn stack_pointer(args: Seq<String>, envs: Seq<String>, aux: int, top: u64) -> int {
    (below_all_texts(args, envs, top) - stack_words(args.len() as int, envs.len() as int, aux) * 8) / 16 * 16
}

/// Takes the texts off the stack pointer, wrapping around.
fn below_texts(top: u64, v: &Vec<String>) -> (sp: u64)
    ensures
        sp == (top - text_bytes(v@, v@.len() as int)) % 0x1_0000_0000_0000_0000,
{
    let mut sp: u64 = top;
    let mut i: usize = 0;
    while i < v.len()
        invariant
            i <= v@.len(),
            sp == (top - text_bytes(v@, i as int)) % 0x1_0000_0000_0000_0000,
        decreases v@.len() - i,
    {
        let n: u64 = v[i].as_str().as_bytes().len() as u64;
        let ghost before = sp;
        sp = sp.wrapping_sub(n).wrapping_sub(1);
        proof {
            let m = 0x1_0000_0000_0000_0000int;
            let x = top - text_bytes(v@, i as int);
            assert(sp == (before - n - 1) % m);
            vstd::arithmetic::div_mod::lemma_sub_mod_noop(x, n + 1, m);
            vstd::arithmetic::div_mod::lemma_sub_mod_noop(before as int, n + 1, m);
            vstd::arithmetic::div_mod::lemma_mod_twice(x, m);
        }
        i += 1;
    }
    sp
}

impl ProcInit {
    /// The auxiliary vector is a map.
    pub open spec fn wf(&self) -> bool {
        self.auxv.wf()
    }

    /// Bytes of the words besides the texts.
    pub open spec fn word_bytes(&self) -> int {
        stack_words(self.args@.len() as int, self.envs@.len() as int, self.auxv@.len() as int) * 8
    }

    /// The stack pointer after everything has been pushed below `top`, a multiple of 16. The name
    /// of the program, the environment, the arguments and then the words are pushed.
    pub fn push_at(&self, top: u64) -> (sp: u64)
        requires
            self.wf(),
            stack_fits(self.args@, self.envs@, self.auxv@.len() as int, top),
        ensures
            sp == stack_pointer(self.args@, self.envs@, self.auxv@.len() as int, top),
            sp % 16 == 0,
    {
        let name: u64 = if self.args.len() > 0 {
            self.args[0].as_str().as_bytes().len() as u64
        } else {
            0
        };
        let sp0: u64 = top - name - 1;
        let sp1: u64 = below_texts(sp0, &self.envs);
        let sp2: u64 = below_texts(sp1, &self.args);
        proof {
            let m = 0x1_0000_0000_0000_0000int;
            let e = text_bytes(self.envs@, self.envs@.len() as int);
            let a = text_bytes(self.args@, self.args@.len() as int);
            vstd::arithmetic::div_mod::lemma_sub_mod_noop(sp0 - e, a, m);
            vstd::arithmetic::div_mod::lemma_sub_mod_noop(sp1 as int, a, m);
            vstd::arithmetic::div_mod::lemma_mod_twice(sp0 - e, m);
            assert(sp2 == below_all_texts(self.args@, self.envs@, top));
        }
        let aux: u64 = self.auxv.len() as u64;
        let envs: u64 = self.envs.len() as u64;
        let args: u64 = self.args.len() as u64;
        let sp: u64 = sp2 - (aux * 2 + 2) * 8 - (envs + 1) * 8 - (args + 1) * 8 - 8;
        sp / 16 * 16
    }

    /// Bytes that arguments, environment and auxiliary vector take.
    pub open spec fn size(&self) -> int {
        text_bytes(self.args@, self.args@.len() as int) + text_bytes(self.envs@, self.envs@.len() as int) + self.word_bytes()
    }

    /// Bytes that arguments, environment and auxiliary vector take.
    pub fn total_size(&self) -> (n: u64)
        requires
            self.wf(),
            self.size() <= u64::MAX,
        ensures
            n == self.size(),
    {
        proof {
            lemma_text_bytes(self.args@, self.args@.len() as int, self.args@.len() as int);
            lemma_text_bytes(self.envs@, self.envs@.len() as int, self.envs@.len() as int);
        }
        let aux: u64 = self.auxv.len() as u64;
        let envs: u64 = self.envs.len() as u64;
        let args: u64 = self.args.len() as u64;
        let words: u64 = (aux * 2 + 2 + (envs + 1) + (args + 1) + 1) * 8;
        sum_texts(&self.args) + sum_texts(&self.envs) + words
    }
}

fn sum_texts(v: &Vec<String>) -> (n: u64)
    requires
        text_bytes(v@, v@.len() as int) <= u64::MAX,
    ensures
        n == text_bytes(v@, v@.len() as int),
{
    let mut n: u64 = 0;
    let mut i: usize = 0;
    while i < v.len()
        invariant
            i <= v@.len(),
            text_bytes(v@, v@.len() as int) <= u64::MAX,
            n == text_bytes(v@, i as int),
        decreases v@.len() - i,
    {
        proof {
            lemma_text_bytes(v@, i + 1, v@.len() as int);
        }
        n = n + v[i].as_str().as_bytes().len() as u64 + 1;
        i += 1;
    }
    n
}

proof fn lemma_text_bytes(v: Seq<String>, m: int, n: int)
    requires
        m <= n,
    ensures
        0 <= text_bytes(v, m) <= text_bytes(v, n),
        n >= 0 ==> n <= text_bytes(v, n),
    decreases n,
{
    if n > 0 {
        lemma_text_bytes(v, if m < n { m } else { n - 1 }, n - 1);
    }
}

/// Everything that is pushed fits between the new stack pointer and the top.
pub proof fn law_push_leaves_room(p: ProcInit, top: u64)
    requires
        name_bytes(p.args@) + p.size() <= top,
    ensures
        stack_fits(p.args@, p.envs@, p.auxv@.len() as int, top),
        stack_pointer(p.args@, p.envs@, p.auxv@.len() as int, top) + p.size() <= top,
{
    lemma_text_bytes(p.args@, p.args@.len() as int, p.args@.len() as int);
    lemma_text_bytes(p.envs@, p.envs@.len() as int, p.envs@.len() as int);
    let x = top - name_bytes(p.args@) - text_bytes(p.envs@, p.envs@.len() as int) - text_bytes(
        p.args@,
        p.args@.len() as int,
    );
    assert(0 <= p.word_bytes());
    assert(0 <= x <= top);
    vstd::arithmetic::div_mod::lemma_small_mod(x as nat, 0x1_0000_0000_0000_0000);
}

/// The new stack pointer is the highest multiple of 16 below which there is room up to the top for
/// the program's name and all that is pushed.
pub proof fn law_push_is_tight(p: ProcInit, top: u64)
    requires
        name_bytes(p.args@) + p.size() <= top,
    ensures
        ({
            let sp = stack_pointer(p.args@, p.envs@, p.auxv@.len() as int, top);
            let end = top - name_bytes(p.args@) - p.size();
            0 <= sp && sp % 16 == 0 && end - 16 < sp <= end
        }),
{
    law_push_leaves_room(p, top);
    lemma_text_bytes(p.args@, p.args@.len() as int, p.args@.len() as int);
    lemma_text_bytes(p.envs@, p.envs@.len() as int, p.envs@.len() as int);
    let x = top - name_bytes(p.args@) - text_bytes(p.envs@, p.envs@.len() as int) - text_bytes(
        p.args@,
        p.args@.len() as int,
    );
    vstd::arithmetic::div_mod::lemma_small_mod(x as nat, 0x1_0000_0000_0000_0000);
}

} // verus!
