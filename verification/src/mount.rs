//! The mount table: path prefixes and the devices that they stand for.

use vstd::prelude::*;
use crate::text::same_str;

verus! {

/// A path prefix and the device that is mounted there.
#[derive(Debug)]
pub struct MountEntry {
    /// The prefix.
    pub prefix: String,
    /// The device.
    pub target: String,
}

/// A prefix and its device, as texts.
pub type Mount = (Seq<char>, Seq<char>);

impl MountEntry {
    /// The entry as texts.
    pub open spec fn view(&self) -> Mount {
        (self.prefix@, self.target@)
    }

    /// A copy of the entry.
    pub fn copy(&self) -> (r: MountEntry)
        ensures
            r@ == self@,
    {
        MountEntry { prefix: self.prefix.as_str().to_owned(), target: self.target.as_str().to_owned() }
    }
}

/// Entries as texts.
pub open spec fn mounts(v: Seq<MountEntry>) -> Seq<Mount> {
    v.map_values(|e: MountEntry| e@)
}

/// The order of the table: longer prefixes first.
pub open spec fn longest_first() -> spec_fn(Mount) -> int {
    |m: Mount| -(crate::text::byte_len(m.0) as int)
}

/// `prefix` is not empty, and `path` starts with it.
pub open spec fn covers(prefix: Seq<char>, path: Seq<char>) -> bool {
    0 < prefix.len() <= path.len() && path.take(prefix.len() as int) == prefix
}

/// Entry `i` is the first of those with the longest prefix that covers `path`.
pub open spec fn is_best(t: Seq<Mount>, path: Seq<char>, i: int) -> bool {
    &&& 0 <= i < t.len()
    &&& covers(t[i].0, path)
    &&& forall|j: int| 0 <= j < t.len() && covers((#[trigger] t[j]).0, path) ==> t[j].0.len() <= t[i].0.len()
    &&& forall|j: int| 0 <= j < i && covers((#[trigger] t[j]).0, path) ==> t[j].0.len() < t[i].0.len()
}

/// The place of the entry that stands for `path`, if there is one.
pub open spec fn best(t: Seq<Mount>, path: Seq<char>) -> int {
    choose|i: int| is_best(t, path, i)
}

/// No entry covers `path`.
pub open spec fn uncovered(t: Seq<Mount>, path: Seq<char>) -> bool {
    forall|j: int| 0 <= j < t.len() ==> !covers((#[trigger] t[j]).0, path)
}

/// `path` with every run of slashes drawn together to one.
pub open spec fn squeezed(path: Seq<char>) -> Seq<char>
    decreases path.len(),
{
    if path.len() == 0 {
        path
    } else if path.len() >= 2 && path.last() == '/' && path[path.len() - 2] == '/' {
        squeezed(path.drop_last())
    } else {
        squeezed(path.drop_last()).push(path.last())
    }
}

/// What `path` names: the device of the best entry, a colon and what the rest names; without an
/// entry, the path with its slashes drawn together.
pub open spec fn resolved(t: Seq<Mount>, path: Seq<char>) -> Seq<char>
    decreases path.len(),
{
    let i = best(t, path);
    if is_best(t, path, i) {
        t[i].1 + seq![':'] + resolved(t, path.skip(t[i].0.len() as int))
    } else {
        squeezed(path)
    }
}

/// Not having the prefix `pfx`.
pub open spec fn not_prefix(pfx: Seq<char>) -> spec_fn(Mount) -> bool {
    |m: Mount| m.0 != pfx
}

proof fn lemma_best(t: Seq<Mount>, path: Seq<char>, i: int)
    requires
        is_best(t, path, i),
    ensures
        best(t, path) == i,
{
    let b = best(t, path);
    assert(is_best(t, path, b));
    if b < i {
        assert(t[b].0.len() < t[i].0.len());
    } else if i < b {
        assert(t[i].0.len() < t[b].0.len());
    }
}

fn starts_with(path: &str, prefix: &str) -> (r: bool)
    ensures
        r == covers(prefix@, path@),
{
    let n = prefix.unicode_len();
    if n == 0 || n > path.unicode_len() {
        return false;
    }
    assert(path@.subrange(0, n as int) =~= path@.take(n as int));
    same_str(path.substring_char(0, n), prefix)
}

fn squeeze(path: &str) -> (r: String)
    ensures
        r@ == squeezed(path@),
{
    let n = path.unicode_len();
    let ghost p = path@;
    let mut r: String = "".to_owned();
    let mut prev_slash = false;
    let mut i: usize = 0;
    proof {
        reveal_strlit("");
        assert(p.take(0) =~= Seq::<char>::empty());
        assert(r@ =~= squeezed(p.take(0)));
    }
    while i < n
        invariant
            p == path@,
            n == p.len(),
            i <= n,
            prev_slash == (i > 0 && p[i - 1] == '/'),
            r@ == squeezed(p.take(i as int)),
        decreases n - i,
    {
        let c = path.get_char(i);
        proof {
            assert(p.take(i + 1).drop_last() =~= p.take(i as int));
            assert(p.take(i + 1).last() == c);
        }
        if !(c == '/' && prev_slash) {
            let ghost before = r@;
            r.append(path.substring_char(i, i + 1));
            assert(r@ =~= before.push(c));
        }
        prev_slash = c == '/';
        i += 1;
    }
    assert(p.take(n as int) =~= p);
    r
}

/// The mount table.
pub struct MountTable {
    /// The entries.
    pub entries: Vec<MountEntry>,
}

impl MountTable {
    /// The entries as texts.
    pub open spec fn view(&self) -> Seq<Mount> {
        mounts(self.entries@)
    }

    /// An empty table.
    pub fn new() -> (t: Self)
        ensures
            t@ == Seq::<Mount>::empty(),
    {
        let t = MountTable { entries: Vec::new() };
        assert(t@ =~= Seq::<Mount>::empty());
        t
    }

    /// Mounts `tgt` at `pfx`, unless just that is mounted already, and puts longer prefixes first.
    pub fn bind(&mut self, pfx: &str, tgt: &str)
        ensures
            final(self)@ == (if old(self)@.contains((pfx@, tgt@)) {
                old(self)@
            } else {
                crate::seqs::stable_sorted(old(self)@.push((pfx@, tgt@)), longest_first())
            }),
    {
        let mut k: usize = 0;
        while k < self.entries.len()
            invariant
                *self == *old(self),
                k <= self.entries@.len(),
                forall|j: int| 0 <= j < k ==> (#[trigger] self@[j]) != (pfx@, tgt@),
            decreases self.entries@.len() - k,
        {
            let e = &self.entries[k];
            if same_str(e.prefix.as_str(), pfx) && same_str(e.target.as_str(), tgt) {
                assert(self@[k as int] == (pfx@, tgt@));
                return;
            }
            k += 1;
        }
        assert(!old(self)@.contains((pfx@, tgt@)));
        let ghost whole = self@.push((pfx@, tgt@));
        self.entries.push(MountEntry { prefix: pfx.to_owned(), target: tgt.to_owned() });
        assert(self@ =~= whole);
        let mut sorted: Vec<MountEntry> = Vec::new();
        let ghost key = longest_first();
        let ghost mut i: int = 0;
        assert(whole.take(0) =~= Seq::<Mount>::empty());
        assert(mounts(sorted@) =~= Seq::<Mount>::empty());
        assert(whole.skip(0) =~= whole);
        while self.entries.len() > 0
            invariant
                0 <= i <= whole.len(),
                key == longest_first(),
                self@ == whole.skip(i),
                mounts(sorted@) == crate::seqs::stable_sorted(whole.take(i), key),
            decreases self.entries@.len(),
        {
            let ghost before = self@;
            assert(before.len() == self.entries@.len());
            assert(before.len() == whole.len() - i);
            let x = self.entries.remove(0);
            let kx = x.prefix.as_str().as_bytes().len();
            let mut p: usize = sorted.len();
            while p > 0 && sorted[p - 1].prefix.as_str().as_bytes().len() < kx
                invariant
                    p <= sorted@.len(),
                    key == longest_first(),
                    kx == crate::text::byte_len(x.prefix@),
                    forall|k: int| p <= k < sorted@.len() ==> key(#[trigger] mounts(sorted@)[k]) > key(x@),
                ensures
                    p <= sorted@.len(),
                    p > 0 ==> key(mounts(sorted@)[p - 1]) <= key(x@),
                    forall|k: int| p <= k < sorted@.len() ==> key(#[trigger] mounts(sorted@)[k]) > key(x@),
                decreases p,
            {
                p -= 1;
            }
            proof {
                crate::seqs::lemma_place(mounts(sorted@), x@, key, p as int);
                assert(before[0] == x@);
                assert(whole.skip(i)[0] == whole[i]);
                assert(whole.take(i + 1).drop_last() =~= whole.take(i));
                assert(self@ =~= before.remove(0));
                assert(before.remove(0) =~= whole.skip(i + 1));
            }
            let ghost unsorted = sorted@;
            sorted.insert(p, x);
            proof {
                assert(mounts(sorted@) =~= mounts(unsorted).insert(p as int, x@));
                i = i + 1;
            }
        }
        assert(whole.take(i) =~= whole);
        self.entries = sorted;
    }

    /// The place of the entry that stands for `path`.
    fn best_for(&self, path: &str) -> (r: Option<usize>)
        ensures
            r is None <==> uncovered(self@, path@),
            r matches Some(i) ==> is_best(self@, path@, i as int) && best(self@, path@) == i,
    {
        let mut found: Option<usize> = None;
        let mut len: usize = 0;
        let mut k: usize = 0;
        while k < self.entries.len()
            invariant
                k <= self.entries@.len(),
                found is None ==> forall|j: int| 0 <= j < k ==> !covers((#[trigger] self@[j]).0, path@),
                found matches Some(i) ==> {
                    &&& i < k
                    &&& covers(self@[i as int].0, path@)
                    &&& len == self@[i as int].0.len()
                    &&& forall|j: int| 0 <= j < k && covers((#[trigger] self@[j]).0, path@) ==> self@[j].0.len() <= len
                    &&& forall|j: int| 0 <= j < i && covers((#[trigger] self@[j]).0, path@) ==> self@[j].0.len() < len
                },
                found is None ==> len == 0,
            decreases self.entries@.len() - k,
        {
            let e = &self.entries[k];
            assert(self@[k as int] == e@);
            if starts_with(path, e.prefix.as_str()) {
                let n = e.prefix.as_str().unicode_len();
                if n > len {
                    found = Some(k);
                    len = n;
                }
            }
            k += 1;
        }
        proof {
            if let Some(i) = found {
                lemma_best(self@, path@, i as int);
                assert(covers(self@[i as int].0, path@));
            }
        }
        found
    }

    /// What `path` names.
    pub fn resolve(&self, path: &str) -> (r: Result<String, &'static str>)
        ensures
            r is Ok,
            r->Ok_0@ == resolved(self@, path@),
        decreases path@.len(),
    {
        match self.best_for(path) {
            Some(i) => {
                let m = &self.entries[i];
                assert(self@[i as int] == m@);
                let n = m.prefix.as_str().unicode_len();
                let rest = path.substring_char(n, path.unicode_len());
                assert(rest@ =~= path@.skip(n as int));
                let sub = self.resolve(rest)?;
                let mut result = m.target.as_str().to_owned();
                result.append(":");
                result.append(sub.as_str());
                proof {
                    reveal_strlit(":");
                    assert(":"@ =~= seq![':']);
                }
                Ok(result)
            },
            None => {
                proof {
                    let b = best(self@, path@);
                    if is_best(self@, path@, b) {
                        assert(covers(self@[b].0, path@));
                    }
                }
                Ok(squeeze(path))
            },
        }
    }

    /// Unmounts everything at `pfx`; tells whether there was anything.
    pub fn unmount(&mut self, pfx: &str) -> (found: bool)
        ensures
            final(self)@ == old(self)@.filter(not_prefix(pfx@)),
            found == exists|i: int| 0 <= i < old(self)@.len() && (#[trigger] old(self)@[i]).0 == pfx@,
    {
        let ghost p = not_prefix(pfx@);
        let ghost whole = self@;
        let ghost mut i: int = 0;
        let mut kept: Vec<MountEntry> = Vec::new();
        let mut found = false;
        proof {
            crate::seqs::lemma_filter_ends(whole, p);
            assert(mounts(kept@) =~= Seq::<Mount>::empty());
            assert(whole.skip(0) =~= whole);
        }
        while self.entries.len() > 0
            invariant
                0 <= i <= whole.len(),
                p == not_prefix(pfx@),
                self@ == whole.skip(i),
                mounts(kept@) == whole.take(i).filter(p),
                found == exists|k: int| 0 <= k < i && (#[trigger] whole[k]).0 == pfx@,
            decreases self.entries@.len(),
        {
            let ghost before = self@;
            assert(before.len() == self.entries@.len());
            assert(before.len() == whole.len() - i);
            let x = self.entries.remove(0);
            proof {
                assert(before[0] == x@);
                assert(whole.skip(i)[0] == whole[i]);
                assert(self@ =~= before.remove(0));
                assert(before.remove(0) =~= whole.skip(i + 1));
                crate::seqs::lemma_filter_step(whole, i, p);
            }
            if same_str(x.prefix.as_str(), pfx) {
                found = true;
            } else {
                let ghost less = kept@;
                kept.push(x);
                assert(mounts(kept@) =~= mounts(less).push(x@));
            }
            proof {
                i = i + 1;
            }
        }
        proof {
            crate::seqs::lemma_filter_ends(whole, p);
        }
        self.entries = kept;
        found
    }

    /// All entries, as pairs of prefix and device.
    pub fn list_mounts(&self) -> (r: Vec<(String, String)>)
        ensures
            r@.map_values(|p: (String, String)| (p.0@, p.1@)) == self@,
    {
        let mut r: Vec<(String, String)> = Vec::new();
        let mut k: usize = 0;
        while k < self.entries.len()
            invariant
                k == r@.len(),
                k <= self.entries@.len(),
                forall|j: int| 0 <= j < k ==> ((#[trigger] r@[j]).0@, r@[j].1@) == self@[j],
            decreases self.entries@.len() - k,
        {
            let c = self.entries[k].copy();
            r.push((c.prefix, c.target));
            k += 1;
        }
        assert(r@.map_values(|p: (String, String)| (p.0@, p.1@)) =~= self@);
        r
    }

    /// A copy of the entry that stands for `path`.
    pub fn find_mount(&self, path: &str) -> (r: Option<MountEntry>)
        ensures
            r is None <==> uncovered(self@, path@),
            r matches Some(e) ==> is_best(self@, path@, best(self@, path@)) && e@ == self@[best(self@, path@)],
    {
        match self.best_for(path) {
            Some(i) => Some(self.entries[i].copy()),
            None => None,
        }
    }

    /// How many entries there are.
    pub fn mount_count(&self) -> (n: usize)
        ensures
            n == self@.len(),
    {
        self.entries.len()
    }

    /// Whether something is mounted at `pfx`.
    pub fn has_prefix(&self, pfx: &str) -> (r: bool)
        ensures
            r == exists|i: int| 0 <= i < self@.len() && (#[trigger] self@[i]).0 == pfx@,
    {
        let mut k: usize = 0;
        while k < self.entries.len()
            invariant
                k <= self.entries@.len(),
                forall|j: int| 0 <= j < k ==> (#[trigger] self@[j]).0 != pfx@,
            decreases self.entries@.len() - k,
        {
            if same_str(self.entries[k].prefix.as_str(), pfx) {
                assert(self@[k as int].0 == pfx@);
                return true;
            }
            k += 1;
        }
        false
    }
}

/// Mounting puts the entry into the table and loses none; longer prefixes then stand first.
pub proof fn law_bind_keeps_all(t: Seq<Mount>, m: Mount)
    ensures
        crate::seqs::stable_sorted(t.push(m), longest_first()).to_multiset() == t.to_multiset().insert(m),
        crate::seqs::sorted_by(crate::seqs::stable_sorted(t.push(m), longest_first()), longest_first()),
        crate::seqs::stable_sorted(t.push(m), longest_first()).contains(m),
{
    broadcast use vstd::seq_lib::group_to_multiset_ensures;

    let r = crate::seqs::stable_sorted(t.push(m), longest_first());
    crate::seqs::lemma_stable_sorted(t.push(m), longest_first());
    assert(r.to_multiset().count(m) > 0);
}

/// After unmounting a prefix nothing is mounted there, and everything else still is.
pub proof fn law_unmount_clears(t: Seq<Mount>, pfx: Seq<char>)
    ensures
        forall|m: Mount| #[trigger] t.filter(not_prefix(pfx)).contains(m) <==> t.contains(m) && m.0 != pfx,
{
    crate::seqs::lemma_filter_contains(t, not_prefix(pfx));
}

/// Drawing slashes together once is enough: what comes out has no two slashes in a row and comes
/// out of a second time as it is.
pub proof fn law_squeeze_settles(path: Seq<char>)
    ensures
        squeezed(squeezed(path)) == squeezed(path),
        forall|i: int|
            0 < i < squeezed(path).len() ==> !(#[trigger] squeezed(path)[i] == '/' && squeezed(path)[i - 1] == '/'),
        path.len() > 0 <==> squeezed(path).len() > 0,
        path.len() > 0 ==> squeezed(path).last() == path.last(),
    decreases path.len(),
{
    if path.len() > 0 {
        let q = path.drop_last();
        law_squeeze_settles(q);
        let s = squeezed(q);
        if path.len() >= 2 && path.last() == '/' && path[path.len() - 2] == '/' {
        } else {
            let r = s.push(path.last());
            assert(r.drop_last() =~= s);
            if s.len() > 0 {
                assert(q.last() == path[path.len() - 2]);
                assert(r[r.len() - 2] == s.last());
            }
        }
    }
}

/// A path below a mount point names the device and what the rest names; one below none names
/// itself, its slashes drawn together.
pub proof fn law_longest_prefix_wins(t: Seq<Mount>, path: Seq<char>, i: int)
    ensures
        is_best(t, path, i) ==> resolved(t, path) == t[i].1 + seq![':'] + resolved(t, path.skip(t[i].0.len() as int)),
        uncovered(t, path) ==> resolved(t, path) == squeezed(path),
{
    if is_best(t, path, i) {
        lemma_best(t, path, i);
    }
    if uncovered(t, path) {
        let b = best(t, path);
        if is_best(t, path, b) {
            assert(covers(t[b].0, path));
        }
    }
}

/// Where several mounts cover a path, one with the longest prefix is chosen: no other whose prefix
/// the path begins with has a longer one. Where any covers it, one is chosen.
pub proof fn law_no_longer_prefix(t: Seq<Mount>, path: Seq<char>, j: int)
    requires
        0 <= j < t.len(),
        0 < t[j].0.len() <= path.len(),
        path.take(t[j].0.len() as int) == t[j].0,
    ensures
        ({
            let i = best(t, path);
            &&& is_best(t, path, i)
            &&& 0 <= i < t.len() && t[i].0.len() <= path.len() && path.take(t[i].0.len() as int) == t[i].0
            &&& t[j].0.len() <= t[i].0.len()
            &&& resolved(t, path) == t[i].1 + seq![':'] + resolved(t, path.skip(t[i].0.len() as int))
        }),
{
    lemma_some_best(t, path, j, t.len() as int);
    let i = choose|i: int| is_best(t, path, i);
    assert(is_best(t, path, best(t, path)));
}

proof fn lemma_some_best(t: Seq<Mount>, path: Seq<char>, j: int, n: int)
    requires
        0 <= j < n <= t.len(),
        covers(t[j].0, path),
    ensures
        exists|i: int| is_best(t.take(n), path, i),
        n == t.len() ==> exists|i: int| is_best(t, path, i),
    decreases n,
{
    let s = t.take(n);
    if uncovered(t.take(n - 1), path) {
        assert(j == n - 1) by {
            if j < n - 1 {
                assert(!covers(t.take(n - 1)[j].0, path));
            }
        }
        assert forall|x: int| 0 <= x < n - 1 implies !covers((#[trigger] s[x]).0, path) by {
            assert(!covers(t.take(n - 1)[x].0, path));
        }
        assert(is_best(s, path, n - 1));
    } else {
        let r = t.take(n - 1);
        let x = choose|x: int| 0 <= x < r.len() && covers((#[trigger] r[x]).0, path);
        lemma_some_best(t, path, x, n - 1);
        let i = choose|i: int| is_best(r, path, i);
        let w = if covers(s[n - 1].0, path) && s[n - 1].0.len() > s[i].0.len() {
            n - 1
        } else {
            i
        };
        assert forall|y: int| 0 <= y < s.len() && covers((#[trigger] s[y]).0, path) implies s[y].0.len() <= s[w].0.len() by {
            if y < n - 1 {
                assert(covers(r[y].0, path));
            }
        }
        assert forall|y: int| 0 <= y < w && covers((#[trigger] s[y]).0, path) implies s[y].0.len() < s[w].0.len() by {
            assert(covers(r[y].0, path));
        }
        assert(is_best(s, path, w));
    }
    if n == t.len() {
        assert(t.take(n) =~= t);
    }
}

} // verus!
