//! Process groups.

use vstd::prelude::*;
use crate::seqs::drop_all;
use crate::task::{Pgid, TaskTable};
use crate::utils::to_signed;

verus! {

/// A process group.
pub struct ProcessGroup {
    /// Its number.
    pub pgid: Pgid,
    /// Its leader.
    pub leader: u64,
    /// Its members.
    pub members: Vec<u64>,
    /// The session it belongs to.
    pub session_id: u64,
    /// It has the terminal.
    pub foreground: bool,
}

/// A member that is registered and does not lead.
pub open spec fn reached(s: crate::task::TableState, leader: u64) -> spec_fn(u64) -> bool {
    |pid: u64| pid != leader && s.map.dom().contains(pid)
}

/// The tasks that a broadcast reaches: those of the members but the leader, in their order.
pub open spec fn audience(s: crate::task::TableState, members: Seq<u64>, leader: u64) -> Seq<usize> {
    members.filter(reached(s, leader)).map_values(|pid: u64| s.map[pid])
}

/// The members after `pid` joined.
pub open spec fn joined(members: Seq<u64>, pid: u64) -> Seq<u64> {
    if members.contains(pid) {
        members
    } else {
        members.push(pid)
    }
}

impl ProcessGroup {
    /// A group of its leader alone, in the background.
    pub fn new(pgid: Pgid, leader: u64, session: u64) -> (g: Self)
        ensures
            g.pgid == pgid,
            g.leader == leader,
            g.members@ == seq![leader],
            g.session_id == session,
            !g.foreground,
    {
        let mut members: Vec<u64> = Vec::new();
        members.push(leader);
        assert(members@ =~= seq![leader]);
        ProcessGroup { pgid, leader, members, session_id: session, foreground: false }
    }

    /// Adds a member, unless it is one.
    pub fn add_member(&mut self, pid: u64)
        ensures
            final(self).members@ == joined(old(self).members@, pid),
            final(self).members@ == (if old(self).members@.contains(pid) {
                old(self).members@
            } else {
                old(self).members@.push(pid)
            }),
            *final(self) == (ProcessGroup { members: final(self).members, ..*old(self) }),
    {
        let mut i: usize = 0;
        while i < self.members.len()
            invariant
                *self == *old(self),
                i <= self.members@.len(),
                forall|j: int| 0 <= j < i ==> self.members@[j] != pid,
            decreases self.members@.len() - i,
        {
            if self.members[i] == pid {
                assert(self.members@[i as int] == pid);
                return;
            }
            i += 1;
        }
        self.members.push(pid);
    }

    /// Takes a member out; tells whether it was one.
    pub fn remove_member(&mut self, pid: u64) -> (r: bool)
        ensures
            r == old(self).members@.contains(pid),
            final(self).members@ == crate::seqs::without(old(self).members@, pid),
            *final(self) == (ProcessGroup { members: final(self).members, ..*old(self) }),
    {
        let before = self.members.len();
        let kept = drop_all(&self.members, pid);
        proof {
            lemma_without_len(self.members@, pid);
        }
        let r = kept.len() < before;
        self.members = kept;
        r
    }

    /// Whether the group has no members.
    pub fn is_empty(&self) -> (r: bool)
        ensures
            r == (self.members@.len() == 0),
    {
        self.members.len() == 0
    }

    /// How many members the group has.
    pub fn member_count(&self) -> (n: usize)
        ensures
            n == self.members@.len(),
    {
        self.members.len()
    }

    /// Whether a process leads the group.
    pub fn is_leader(&self, pid: u64) -> (r: bool)
        ensures
            r == (self.leader == pid),
    {
        self.leader == pid
    }

    /// Gives the group the terminal or takes it away.
    pub fn set_foreground(&mut self, fg: bool)
        ensures
            *final(self) == (ProcessGroup { foreground: fg, ..*old(self) }),
    {
        self.foreground = fg;
    }

    /// Whether the group has the terminal.
    pub fn is_foreground(&self) -> (r: bool)
        ensures
            r == self.foreground,
    {
        self.foreground
    }

    /// Sends a signal from the leader to every registered member; the leader gets none from itself.
    pub fn broadcast_signal(&self, signo: i32, tasks: &mut TaskTable)
        requires
            old(tasks).wf(),
        ensures
            final(tasks).wf(),
            ({
                let g = audience(old(tasks)@, self.members@, self.leader);
                final(tasks)@ == old(tasks)@.signalled(g, signo, crate::utils::signed(self.leader) as i64, g.len() as int)
            }),
    {
        let ghost s = tasks@;
        let ghost p = reached(s, self.leader);
        let mut g: Vec<usize> = Vec::new();
        let mut i: usize = 0;
        proof {
            crate::seqs::lemma_filter_ends(self.members@, p);
            assert(g@ =~= self.members@.take(0).filter(p).map_values(|pid: u64| s.map[pid]));
        }
        while i < self.members.len()
            invariant
                tasks.wf(),
                tasks@ == s,
                *tasks == *old(tasks),
                p == reached(s, self.leader),
                i <= self.members@.len(),
                g@ == self.members@.take(i as int).filter(p).map_values(|pid: u64| s.map[pid]),
                forall|k: int| 0 <= k < g@.len() ==> (#[trigger] g@[k]) < s.arena.len(),
            decreases self.members@.len() - i,
        {
            proof {
                crate::seqs::lemma_filter_step(self.members@, i as int, p);
            }
            let pid: u64 = self.members[i];
            if pid != self.leader {
                match tasks.find(pid) {
                    Some(t) => {
                        g.push(t);
                        assert(g@ =~= self.members@.take(i + 1).filter(p).map_values(|pid: u64| s.map[pid]));
                    },
                    None => {},
                }
            }
            i += 1;
        }
        proof {
            crate::seqs::lemma_filter_ends(self.members@, p);
        }
        tasks.signal_all(&g, signo, to_signed(self.leader));
    }
}

proof fn lemma_without_len(s: Seq<u64>, x: u64)
    ensures
        crate::seqs::without(s, x).len() <= s.len(),
        crate::seqs::without(s, x).len() < s.len() <==> s.contains(x),
    decreases s.len(),
{
    reveal(Seq::filter);
    if s.len() > 0 {
        let t = s.drop_last();
        lemma_without_len(t, x);
        if t.contains(x) {
            let i = choose|i: int| 0 <= i < t.len() && t[i] == x;
            assert(s[i] == x);
        }
        if s.last() == x {
            assert(s[s.len() - 1] == x);
        }
        if s.contains(x) && s.last() != x {
            let i = choose|i: int| 0 <= i < s.len() && s[i] == x;
            assert(t[i] == x);
        }
    }
}

/// Removing a member that was just added gives the group as it was.
pub proof fn law_remove_undoes_add(members: Seq<u64>, pid: u64)
    requires
        !members.contains(pid),
    ensures
        crate::seqs::without(members.push(pid), pid) == members,
        crate::seqs::without(joined(members, pid), pid) == members,
{
    reveal(Seq::filter);
    lemma_without_len(members, pid);
    assert(members.push(pid).drop_last() =~= members);
    lemma_without_none(members, pid);
}

proof fn lemma_without_none(s: Seq<u64>, x: u64)
    requires
        !s.contains(x),
    ensures
        crate::seqs::without(s, x) == s,
    decreases s.len(),
{
    reveal(Seq::filter);
    if s.len() > 0 {
        let t = s.drop_last();
        if t.contains(x) {
            let i = choose|i: int| 0 <= i < t.len() && t[i] == x;
            assert(s[i] == x);
        }
        lemma_without_none(t, x);
        assert(s[s.len() - 1] != x);
        assert(s =~= t.push(s.last()));
    }
}

/// The leader is not among those whom its own broadcast reaches, unless another number leads to it.
pub proof fn law_leader_is_spared(s: crate::task::TableState, members: Seq<u64>, leader: u64)
    ensures
        !members.filter(reached(s, leader)).contains(leader),
{
    crate::seqs::lemma_filter_contains(members, reached(s, leader));
}

/// A signal to a group reaches exactly the members that there are, except the leader.
pub proof fn law_broadcast_reaches_members(s: crate::task::TableState, members: Seq<u64>, leader: u64, pid: u64)
    ensures
        members.contains(pid) && pid != leader && s.map.dom().contains(pid) ==> audience(s, members, leader).contains(
            s.map[pid],
        ),
        forall|t: usize| #[trigger]
            audience(s, members, leader).contains(t) ==> exists|q: u64| #[trigger]
                members.contains(q) && q != leader && s.map.dom().contains(q) && s.map[q] == t,
{
    let ids = members.filter(reached(s, leader));
    let g = audience(s, members, leader);
    crate::seqs::lemma_filter_contains(members, reached(s, leader));
    if members.contains(pid) && pid != leader && s.map.dom().contains(pid) {
        assert(reached(s, leader)(pid));
        assert(ids.contains(pid));
        let j = choose|j: int| 0 <= j < ids.len() && ids[j] == pid;
        assert(g[j] == s.map[pid]);
    }
    assert forall|t: usize| #[trigger] g.contains(t) implies exists|q: u64| #[trigger]
        members.contains(q) && q != leader && s.map.dom().contains(q) && s.map[q] == t by {
        let j = choose|j: int| 0 <= j < g.len() && g[j] == t;
        assert(ids.contains(ids[j]));
        assert(members.contains(ids[j]) && reached(s, leader)(ids[j]));
    }
}

/// Who joined a group is in it once, and who left it is not; the others stay.
pub proof fn law_members_join_and_leave(members: Seq<u64>, pid: u64, other: u64)
    ensures
        joined(members, pid).contains(pid),
        joined(joined(members, pid), pid) == joined(members, pid),
        other != pid ==> joined(members, pid).contains(other) == members.contains(other),
        crate::seqs::without(members, pid).contains(other) <==> members.contains(other) && other != pid,
{
    crate::seqs::lemma_filter_contains(members, crate::seqs::other_than(pid));
    let j = joined(members, pid);
    if !members.contains(pid) {
        assert(j[members.len() as int] == pid);
        if members.contains(other) {
            let i = choose|i: int| 0 <= i < members.len() && members[i] == other;
            assert(j[i] == other);
        }
        if j.contains(other) && other != pid {
            let i = choose|i: int| 0 <= i < j.len() && j[i] == other;
            assert(members[i] == other);
        }
    }
}

} // verus!
