//! Names and paths as sequences of characters.

use vstd::prelude::*;

verus! {

/// Whether two texts are the same.
pub fn same_str(a: &str, b: &str) -> (r: bool)
    ensures
        r == (a@ == b@),
{
    a.to_owned() == b.to_owned()
}

/// How many bytes a text takes.
pub open spec fn byte_len(s: Seq<char>) -> nat {
    vstd::utf8::encode_utf8(s).len()
}

/// A path cut at its slashes.
pub open spec fn split_slash(s: Seq<char>) -> Seq<Seq<char>>
    decreases s.len(),
{
    if s.len() == 0 {
        seq![Seq::empty()]
    } else {
        let p = split_slash(s.drop_last());
        if s.last() == '/' {
            p.push(Seq::empty())
        } else {
            p.drop_last().push(p.last().push(s.last()))
        }
    }
}

/// Not being empty.
pub open spec fn nonempty() -> spec_fn(Seq<char>) -> bool {
    |p: Seq<char>| p.len() > 0
}

/// The components of a path: what stands between its slashes, empty pieces left out.
pub open spec fn components(path: Seq<char>) -> Seq<Seq<char>> {
    split_slash(path).filter(nonempty())
}

/// The texts of some strings.
pub open spec fn texts(v: Seq<String>) -> Seq<Seq<char>> {
    v.map_values(|s: String| s@)
}

proof fn lemma_filter_push(s: Seq<Seq<char>>, x: Seq<char>)
    ensures
        s.push(x).filter(nonempty()) == (if x.len() > 0 {
            s.filter(nonempty()).push(x)
        } else {
            s.filter(nonempty())
        }),
{
    reveal(Seq::filter);
    assert(s.push(x).drop_last() =~= s);
}

/// Splits a path into its components.
pub fn split_path(path: &str) -> (r: Vec<String>)
    ensures
        texts(r@) == components(path@),
{
    let n = path.unicode_len();
    let mut r: Vec<String> = Vec::new();
    let mut start: usize = 0;
    let mut i: usize = 0;
    let ghost p = path@;
    let ghost mut closed: Seq<Seq<char>> = Seq::empty();
    proof {
        reveal(Seq::filter);
        assert(p.take(0) =~= Seq::<char>::empty());
        assert(split_slash(p.take(0)) =~= closed.push(p.subrange(0, 0)));
        assert(texts(r@) =~= closed.filter(nonempty()));
    }
    while i < n
        invariant
            p == path@,
            n == p.len(),
            start <= i <= n,
            split_slash(p.take(i as int)) == closed.push(p.subrange(start as int, i as int)),
            texts(r@) == closed.filter(nonempty()),
        decreases n - i,
    {
        let c = path.get_char(i);
        proof {
            assert(p.take(i + 1).drop_last() =~= p.take(i as int));
            assert(p.take(i + 1).last() == c);
        }
        let ghost open = p.subrange(start as int, i as int);
        if c == '/' {
            if start < i {
                let ghost before = r@;
                let piece = path.substring_char(start, i).to_owned();
                r.push(piece);
                assert(texts(r@) =~= texts(before).push(open));
            }
            proof {
                lemma_filter_push(closed, open);
                closed = closed.push(open);
            }
            start = i + 1;
            assert(p.subrange(start as int, i + 1) =~= Seq::<char>::empty());
        } else {
            assert(closed.push(open).drop_last() =~= closed);
            assert(p.subrange(start as int, i + 1) =~= open.push(c));
        }
        i += 1;
    }
    proof {
        assert(p.take(n as int) =~= p);
        lemma_filter_push(closed, p.subrange(start as int, n as int));
    }
    if start < n {
        let ghost before = r@;
        let piece = path.substring_char(start, n).to_owned();
        r.push(piece);
        assert(texts(r@) =~= texts(before).push(p.subrange(start as int, n as int)));
    }
    r
}

/// A map from names to numbers.
pub struct NameMap {
    names: Vec<String>,
    nums: Vec<u64>,
}

impl NameMap {
    /// Every name has a number, and none stands twice.
    pub closed spec fn wf(&self) -> bool {
        &&& self.names@.len() == self.nums@.len()
        &&& forall|i: int, j: int| 0 <= i < j < self.names@.len() ==> (#[trigger] self.names@[i])@ != (#[trigger] self.names@[j])@
    }

    closed spec fn at(&self, name: Seq<char>, i: int) -> bool {
        0 <= i < self.names@.len() && self.names@[i]@ == name
    }

    /// The mapping itself.
    pub closed spec fn view(&self) -> Map<Seq<char>, u64> {
        Map::new(
            |name: Seq<char>| exists|i: int| self.at(name, i),
            |name: Seq<char>| self.nums@[choose|i: int| self.at(name, i)],
        )
    }

    proof fn lemma_at(&self, i: int)
        requires
            self.wf(),
            0 <= i < self.names@.len(),
        ensures
            self@.dom().contains(self.names@[i]@),
            self@[self.names@[i]@] == self.nums@[i],
    {
        let name = self.names@[i]@;
        assert(self.at(name, i));
        let j = choose|j: int| self.at(name, j);
        if i < j {
            assert(self.names@[i]@ != self.names@[j]@);
        } else if j < i {
            assert(self.names@[j]@ != self.names@[i]@);
        }
    }

    /// An empty map.
    pub fn new() -> (m: Self)
        ensures
            m.wf(),
            m@ == Map::<Seq<char>, u64>::empty(),
    {
        let m = NameMap { names: Vec::new(), nums: Vec::new() };
        assert(m@ =~= Map::<Seq<char>, u64>::empty());
        m
    }

    fn pos(&self, name: &str) -> (r: Option<usize>)
        requires
            self.wf(),
        ensures
            r is Some <==> self@.dom().contains(name@),
            r matches Some(i) ==> self.at(name@, i as int) && self@[name@] == self.nums@[i as int],
    {
        let mut i: usize = 0;
        while i < self.names.len()
            invariant
                self.wf(),
                i <= self.names@.len(),
                forall|j: int| 0 <= j < i ==> (#[trigger] self.names@[j])@ != name@,
            decreases self.names@.len() - i,
        {
            if same_str(self.names[i].as_str(), name) {
                proof {
                    self.lemma_at(i as int);
                }
                return Some(i);
            }
            i += 1;
        }
        assert forall|j: int| !self.at(name@, j) by {
            if self.at(name@, j) {
                assert(self.names@[j]@ == name@);
            }
        }
        None
    }

    /// The number of `name`.
    pub fn get(&self, name: &str) -> (r: Option<u64>)
        requires
            self.wf(),
        ensures
            r == (if self@.dom().contains(name@) { Some(self@[name@]) } else { None }),
    {
        match self.pos(name) {
            Some(i) => Some(self.nums[i]),
            None => None,
        }
    }

    /// Gives `name` the number `num`.
    pub fn insert(&mut self, name: &str, num: u64)
        requires
            old(self).wf(),
        ensures
            final(self).wf(),
            final(self)@ == old(self)@.insert(name@, num),
    {
        let ghost before = *self;
        match self.pos(name) {
            Some(i) => {
                self.nums[i] = num;
                proof {
                    assert forall|n: Seq<char>| self@.dom().contains(n) <==> before@.dom().contains(n) by {
                        if before@.dom().contains(n) {
                            let j = choose|j: int| before.at(n, j);
                            assert(self.at(n, j));
                        }
                        if self@.dom().contains(n) {
                            let j = choose|j: int| self.at(n, j);
                            assert(before.at(n, j));
                        }
                    }
                    assert forall|n: Seq<char>| self@.dom().contains(n) implies self@[n] == before@.insert(name@, num)[n] by {
                        let j = choose|j: int| self.at(n, j);
                        self.lemma_at(j);
                        before.lemma_at(j);
                        self.lemma_at(i as int);
                    }
                    assert(self@ =~= before@.insert(name@, num));
                }
            },
            None => {
                self.names.push(name.to_owned());
                self.nums.push(num);
                proof {
                    let n0 = before.names@.len() as int;
                    assert forall|i: int, j: int| 0 <= i < j < self.names@.len() implies (#[trigger] self.names@[i])@ != (
                    #[trigger] self.names@[j])@ by {
                        if j == n0 {
                            before.lemma_at(i);
                        }
                    }
                    self.lemma_at(n0);
                    assert forall|n: Seq<char>| n != name@ implies (#[trigger] self@.dom().contains(n) <==> before@.dom().contains(n))
                        && (before@.dom().contains(n) ==> self@[n] == before@[n]) by {
                        if before@.dom().contains(n) {
                            let j = choose|j: int| before.at(n, j);
                            before.lemma_at(j);
                            assert(self.names@[j] == before.names@[j]);
                            self.lemma_at(j);
                        }
                        if self@.dom().contains(n) {
                            let j = choose|j: int| self.at(n, j);
                            assert(before.at(n, j));
                        }
                    }
                    assert(self@ =~= before@.insert(name@, num));
                }
            },
        }
    }

    /// Drops `name` and hands back its number.
    pub fn remove(&mut self, name: &str) -> (r: Option<u64>)
        requires
            old(self).wf(),
        ensures
            final(self).wf(),
            r == (if old(self)@.dom().contains(name@) { Some(old(self)@[name@]) } else { None }),
            final(self)@ == old(self)@.remove(name@),
    {
        let ghost before = *self;
        match self.pos(name) {
            Some(i) => {
                let num: u64 = self.nums.remove(i);
                let _name = self.names.remove(i);
                proof {
                    assert forall|x: int, y: int| 0 <= x < y < self.names@.len() implies (#[trigger] self.names@[x])@ != (
                    #[trigger] self.names@[y])@ by {
                        let x1 = if x < i { x } else { x + 1 };
                        let y1 = if y < i { y } else { y + 1 };
                        assert(before.names@[x1]@ != before.names@[y1]@);
                    }
                    assert forall|n: Seq<char>|
                        (#[trigger] self@.dom().contains(n) <==> n != name@ && before@.dom().contains(n)) && (self@.dom().contains(n)
                            ==> self@[n] == before@[n]) by {
                        if n != name@ && before@.dom().contains(n) {
                            let j = choose|j: int| before.at(n, j);
                            before.lemma_at(j);
                            let j0 = if j < i { j } else { j - 1 };
                            assert(self.names@[j0] == before.names@[j]);
                            self.lemma_at(j0);
                        }
                        if self@.dom().contains(n) {
                            let j = choose|j: int| self.at(n, j);
                            let j1 = if j < i { j } else { j + 1 };
                            assert(before.names@[j1] == self.names@[j]);
                            assert(before.at(n, j1));
                            if j1 < i {
                                assert(before.names@[j1]@ != before.names@[i as int]@);
                            } else {
                                assert(before.names@[i as int]@ != before.names@[j1]@);
                            }
                        }
                    }
                    assert(self@ =~= before@.remove(name@));
                }
                Some(num)
            },
            None => {
                assert(self@ =~= before@.remove(name@));
                None
            },
        }
    }
}

/// A digit.
pub open spec fn digit(d: nat) -> char {
    (48 + d) as char
}

/// A number in decimal.
pub open spec fn digits(n: nat) -> Seq<char>
    decreases n,
{
    if n < 10 {
        seq![digit(n)]
    } else {
        digits(n / 10).push(digit(n % 10))
    }
}

/// A number in decimal.
pub fn decimal(n: u64) -> (s: String)
    ensures
        s@ == digits(n as nat),
    decreases n,
{
    let all = "0123456789";
    let d: usize = (n % 10) as usize;
    proof {
        reveal_strlit("0123456789");
        assert(all@[d as int] == digit(d as nat)) by {
            if d == 0 {} else if d == 1 {} else if d == 2 {} else if d == 3 {} else if d == 4 {} else if d == 5 {}
            else if d == 6 {} else if d == 7 {} else if d == 8 {} else {}
        }
    }
    let last = all.substring_char(d, d + 1);
    assert(last@ =~= seq![digit(d as nat)]);
    if n < 10 {
        last.to_owned()
    } else {
        let mut s = decimal(n / 10);
        let ghost before = s@;
        s.append(last);
        assert(s@ =~= before.push(digit(d as nat)));
        s
    }
}

/// `prefix` with a number behind it.
pub fn numbered(prefix: &str, n: u64) -> (s: String)
    ensures
        s@ == prefix@ + digits(n as nat),
{
    let mut s = prefix.to_owned();
    let d = decimal(n);
    s.append(d.as_str());
    s
}

/// What `String::from_utf8_lossy` makes of some bytes.
pub uninterp spec fn lossy_text(b: Seq<u8>) -> Seq<char>;

/// Calls `String::from_utf8_lossy`, which decodes bytes as UTF-8 and puts a replacement character
/// for what is not. Claimed is that the text depends on the bytes alone, and that bytes that are
/// the UTF-8 of a text give that text. What becomes of other bytes is not stated.
#[verifier::external_body]
pub(crate) fn text_lossy(b: &[u8]) -> (s: String)
    ensures
        s@ == lossy_text(b@),
        forall|t: Seq<char>| #[trigger] vstd::utf8::encode_utf8(t) == b@ ==> s@ == t,
{
    String::from_utf8_lossy(b).into_owned()
}

/// The bytes before the first zero.
pub open spec fn before_zero(b: Seq<u8>) -> Seq<u8>
    decreases b.len(),
{
    if b.len() == 0 || b[0] == 0 {
        Seq::empty()
    } else {
        seq![b[0]] + before_zero(b.skip(1))
    }
}

/// The bytes before the first zero.
pub fn up_to_zero(b: &Vec<u8>) -> (r: Vec<u8>)
    ensures
        r@ == before_zero(b@),
{
    let mut r: Vec<u8> = Vec::new();
    let mut i: usize = 0;
    assert(b@.skip(0) =~= b@);
    assert(r@ + before_zero(b@.skip(0)) =~= before_zero(b@));
    while i < b.len() && b[i] != 0
        invariant
            i <= b@.len(),
            r@ + before_zero(b@.skip(i as int)) == before_zero(b@),
        decreases b@.len() - i,
    {
        let ghost done = r@;
        r.push(b[i]);
        proof {
            assert(b@.skip(i as int).skip(1) =~= b@.skip(i + 1));
            assert(b@.skip(i as int)[0] == b@[i as int]);
            assert(r@ + before_zero(b@.skip(i + 1)) =~= done + (seq![b@[i as int]] + before_zero(b@.skip(i + 1))));
        }
        i += 1;
    }
    proof {
        if i < b@.len() {
            assert(b@.skip(i as int)[0] == b@[i as int]);
        }
        assert(r@ + Seq::<u8>::empty() =~= r@);
    }
    r
}

/// The parts of a path are not empty and hold no slash.
pub proof fn law_components_are_names(path: Seq<char>, i: int)
    requires
        0 <= i < components(path).len(),
    ensures
        components(path)[i].len() > 0,
        !components(path)[i].contains('/'),
{
    let all = split_slash(path);
    crate::seqs::lemma_filter_contains(all, nonempty());
    assert(components(path).contains(components(path)[i]));
    assert(all.contains(components(path)[i]));
    lemma_no_slash(path);
}

proof fn lemma_no_slash(s: Seq<char>)
    ensures
        split_slash(s).len() > 0,
        forall|p: Seq<char>| #[trigger] split_slash(s).contains(p) ==> !p.contains('/'),
    decreases s.len(),
{
    if s.len() > 0 {
        lemma_no_slash(s.drop_last());
        let b = split_slash(s.drop_last());
        let a = split_slash(s);
        assert forall|p: Seq<char>| #[trigger] a.contains(p) implies !p.contains('/') by {
            let j = choose|j: int| 0 <= j < a.len() && a[j] == p;
            if j < a.len() - 1 {
                assert(b[j] == p);
                assert(b.contains(p));
            } else if s.last() != '/' {
                assert(b.contains(b.last()));
                if p.contains('/') {
                    let q = choose|q: int| 0 <= q < p.len() && p[q] == '/';
                    assert(b.last()[q] == '/');
                    assert(b.last().contains('/'));
                }
            }
        }
    } else {
        assert forall|p: Seq<char>| #[trigger] split_slash(s).contains(p) implies !p.contains('/') by {
            let j = choose|j: int| 0 <= j < split_slash(s).len() && split_slash(s)[j] == p;
            assert(p.len() == 0);
        }
    }
}

/// A name behind a path is one more part of it.
pub proof fn law_name_is_last_component(path: Seq<char>, name: Seq<char>)
    requires
        name.len() > 0,
        !name.contains('/'),
    ensures
        components(path.push('/') + name) == components(path).push(name),
{
    lemma_no_slash(path);
    let all = path.push('/') + name;
    lemma_split_behind(path, name, name.len() as int);
    assert(name.take(name.len() as int) =~= name);
    let b = split_slash(path);
    let s = b.push(name);
    crate::seqs::lemma_filter_step(s, b.len() as int, nonempty());
    crate::seqs::lemma_filter_ends(s, nonempty());
    assert(s.take(b.len() as int) =~= b);
    assert(s.take(s.len() as int) =~= s);
}

proof fn lemma_split_behind(path: Seq<char>, name: Seq<char>, n: int)
    requires
        0 <= n <= name.len(),
        !name.contains('/'),
    ensures
        split_slash(path.push('/') + name.take(n)) == split_slash(path).push(name.take(n)),
    decreases n,
{
    let s = path.push('/') + name.take(n);
    if n > 0 {
        lemma_split_behind(path, name, n - 1);
        assert(s.drop_last() =~= path.push('/') + name.take(n - 1));
        assert(s.last() == name[n - 1]);
        assert(name.contains(name[n - 1]));
        let b = split_slash(path).push(name.take(n - 1));
        assert(b.drop_last() =~= split_slash(path));
        assert(name.take(n - 1).push(name[n - 1]) =~= name.take(n));
        assert(split_slash(s) =~= split_slash(path).push(name.take(n)));
    } else {
        assert(name.take(0) =~= Seq::<char>::empty());
        assert(s =~= path.push('/'));
        assert(s.drop_last() =~= path);
    }
}

/// The number that decimal digits stand for.
pub open spec fn number(s: Seq<char>) -> int
    decreases s.len(),
{
    if s.len() == 0 {
        0
    } else {
        number(s.drop_last()) * 10 + (s.last() as int - '0' as int)
    }
}

/// The digits of a number stand for it, and but for 0 they start with another digit than 0.
pub proof fn law_digits_stand_for_number(n: nat)
    ensures
        number(digits(n)) == n,
        digits(n).len() > 0,
        n > 0 ==> digits(n)[0] != '0',
    decreases n,
{
    reveal_with_fuel(number, 2);
    if n < 10 {
        assert(digits(n).drop_last() =~= Seq::<char>::empty());
    } else {
        law_digits_stand_for_number(n / 10);
        assert(digits(n).drop_last() =~= digits(n / 10));
    }
}

/// A text in memory ends before its first zero.
pub proof fn law_text_ends_at_zero(b: Seq<u8>, rest: Seq<u8>)
    requires
        forall|i: int| 0 <= i < b.len() ==> #[trigger] b[i] != 0,
    ensures
        before_zero(b.push(0) + rest) == b,
    decreases b.len(),
{
    let s = b.push(0) + rest;
    if b.len() > 0 {
        let t = b.skip(1);
        assert forall|i: int| 0 <= i < t.len() implies #[trigger] t[i] != 0 by {
            assert(t[i] == b[i + 1]);
        }
        law_text_ends_at_zero(t, rest);
        assert(s.skip(1) =~= t.push(0) + rest);
        assert(s[0] == b[0]);
        assert(seq![b[0]] + t =~= b);
    } else {
        assert(s[0] == 0);
        assert(before_zero(s) =~= b);
    }
}

} // verus!
