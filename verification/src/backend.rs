//! The shared key-space: three independent maps for plain values,
//! hashes and sets, with create-on-insert and last-writer-wins writes.
use vstd::prelude::*;
use crate::frame::{FrameView, RespFrame, copy_bytes, bytes_eq, frame_view};

verus! {

/// The map an association list holds, the first entry of a key winning.
pub open spec fn alist_map<T, V>(s: Seq<(Vec<u8>, T)>, f: spec_fn(T) -> V) -> Map<Seq<u8>, V>
    decreases s.len(),
{
    if s.len() == 0 {
        Map::empty()
    } else {
        alist_map(s.skip(1), f).insert(s[0].0@, f(s[0].1))
    }
}

/// A key's first entry decides what the list's map holds for it.
pub proof fn lemma_alist_found<T, V>(s: Seq<(Vec<u8>, T)>, f: spec_fn(T) -> V, i: int)
    requires
        0 <= i < s.len(),
        forall|j: int| 0 <= j < i ==> #[trigger] s[j].0@ != s[i].0@,
    ensures
        alist_map(s, f).dom().contains(s[i].0@),
        alist_map(s, f)[s[i].0@] == f(s[i].1),
    decreases s.len(),
{
    if i > 0 {
        assert forall|j: int| 0 <= j < i - 1 implies #[trigger] s.skip(1)[j].0@ != s.skip(1)[i
            - 1].0@ by {
            assert(s.skip(1)[j] == s[j + 1]);
            assert(s.skip(1)[i - 1] == s[i]);
        }
        assert(s.skip(1)[i - 1] == s[i]);
        lemma_alist_found(s.skip(1), f, i - 1);
        assert(s[0].0@ != s[i].0@);
    }
}

/// A key under no entry is not in the list's map.
pub proof fn lemma_alist_absent<T, V>(s: Seq<(Vec<u8>, T)>, f: spec_fn(T) -> V, k: Seq<u8>)
    requires
        forall|j: int| 0 <= j < s.len() ==> #[trigger] s[j].0@ != k,
    ensures
        !alist_map(s, f).dom().contains(k),
    decreases s.len(),
{
    if s.len() > 0 {
        assert forall|j: int| 0 <= j < s.skip(1).len() implies #[trigger] s.skip(1)[j].0@ != k by {
            assert(s.skip(1)[j] == s[j + 1]);
        }
        lemma_alist_absent(s.skip(1), f, k);
    }
}

/// Replacing a key's first entry updates the map at that key alone.
pub proof fn lemma_alist_update<T, V>(s: Seq<(Vec<u8>, T)>, f: spec_fn(T) -> V, i: int, p: (
    Vec<u8>,
    T,
))
    requires
        0 <= i < s.len(),
        s[i].0@ == p.0@,
        forall|j: int| 0 <= j < i ==> #[trigger] s[j].0@ != p.0@,
    ensures
        alist_map(s.update(i, p), f) == alist_map(s, f).insert(p.0@, f(p.1)),
    decreases s.len(),
{
    let t = s.update(i, p);
    if i == 0 {
        assert(t.skip(1) =~= s.skip(1));
        assert(t[0] == p);
        assert(alist_map(t, f) =~= alist_map(s, f).insert(p.0@, f(p.1)));
    } else {
        assert(t[0] == s[0]);
        assert(t.skip(1) =~= s.skip(1).update(i - 1, p));
        assert forall|j: int| 0 <= j < i - 1 implies #[trigger] s.skip(1)[j].0@ != p.0@ by {
            assert(s.skip(1)[j] == s[j + 1]);
        }
        assert(s.skip(1)[i - 1] == s[i]);
        lemma_alist_update(s.skip(1), f, i - 1, p);
        assert(s[0].0@ != p.0@);
        assert(alist_map(t, f) =~= alist_map(s, f).insert(p.0@, f(p.1)));
    }
}

/// Appending a fresh key extends the map at that key alone.
pub proof fn lemma_alist_push<T, V>(s: Seq<(Vec<u8>, T)>, f: spec_fn(T) -> V, p: (Vec<u8>, T))
    requires
        forall|j: int| 0 <= j < s.len() ==> #[trigger] s[j].0@ != p.0@,
    ensures
        alist_map(s.push(p), f) == alist_map(s, f).insert(p.0@, f(p.1)),
    decreases s.len(),
{
    let t = s.push(p);
    if s.len() == 0 {
        assert(t[0] == p);
        assert(t.skip(1) =~= Seq::<(Vec<u8>, T)>::empty());
        assert(alist_map(Seq::<(Vec<u8>, T)>::empty(), f) == Map::<Seq<u8>, V>::empty());
        assert(alist_map(s, f) == Map::<Seq<u8>, V>::empty());
        assert(alist_map(t, f) =~= alist_map(s, f).insert(p.0@, f(p.1)));
    } else {
        assert(t[0] == s[0]);
        assert(t.skip(1) =~= s.skip(1).push(p));
        assert forall|j: int| 0 <= j < s.skip(1).len() implies #[trigger] s.skip(1)[j].0@
            != p.0@ by {
            assert(s.skip(1)[j] == s[j + 1]);
        }
        lemma_alist_push(s.skip(1), f, p);
        assert(s[0].0@ != p.0@);
        assert(alist_map(t, f) =~= alist_map(s, f).insert(p.0@, f(p.1)));
    }
}

/// The view of one frame entry.
pub open spec fn value_view() -> spec_fn(RespFrame) -> FrameView {
    |t: RespFrame| frame_view(t)
}

/// The view of one hash: the map its field list holds.
pub open spec fn hash_view() -> spec_fn(Vec<(Vec<u8>, RespFrame)>) -> Map<Seq<u8>, FrameView> {
    |t: Vec<(Vec<u8>, RespFrame)>| alist_map(t@, value_view())
}

/// The view of one member list: the set of its members.
pub open spec fn members_view() -> spec_fn(Vec<Vec<u8>>) -> Set<Seq<u8>> {
    |t: Vec<Vec<u8>>| Set::new(|m: Seq<u8>| exists|i: int| 0 <= i < t@.len() && t@[i]@ == m)
}

/// The whole key-space as values: three independent maps.
pub struct StoreView {
    pub kv: Map<Seq<u8>, FrameView>,
    pub hashes: Map<Seq<u8>, Map<Seq<u8>, FrameView>>,
    pub sets: Map<Seq<u8>, Set<Seq<u8>>>,
}

/// The shared backend store. It never fails: reads of absent keys say
/// so, writes create their containers on first use.
pub struct Backend {
    kv: Vec<(Vec<u8>, RespFrame)>,
    hashes: Vec<(Vec<u8>, Vec<(Vec<u8>, RespFrame)>)>,
    sets: Vec<(Vec<u8>, Vec<Vec<u8>>)>,
}

impl View for Backend {
    type V = StoreView;

    closed spec fn view(&self) -> StoreView {
        StoreView {
            kv: alist_map(self.kv@, value_view()),
            hashes: alist_map(self.hashes@, hash_view()),
            sets: alist_map(self.sets@, members_view()),
        }
    }
}

impl Default for Backend {
    fn default() -> (r: Self)
        ensures
            r@.kv == Map::<Seq<u8>, FrameView>::empty(),
            r@.hashes == Map::<Seq<u8>, Map<Seq<u8>, FrameView>>::empty(),
            r@.sets == Map::<Seq<u8>, Set<Seq<u8>>>::empty(),
    {
        Backend::new()
    }
}

impl Backend {
    pub fn new() -> (r: Self)
        ensures
            r@.kv == Map::<Seq<u8>, FrameView>::empty(),
            r@.hashes == Map::<Seq<u8>, Map<Seq<u8>, FrameView>>::empty(),
            r@.sets == Map::<Seq<u8>, Set<Seq<u8>>>::empty(),
    {
        Backend { kv: Vec::new(), hashes: Vec::new(), sets: Vec::new() }
    }

    /// The value under `key`, if any.
    #[verifier::loop_isolation(false)]
    pub fn get(&self, key: &[u8]) -> (r: Option<RespFrame>)
        ensures
            match r {
                Some(f) => self@.kv.dom().contains(key@) && f@ == self@.kv[key@],
                None => !self@.kv.dom().contains(key@),
            },
    {
        let n = self.kv.len();
        let mut i: usize = 0;
        while i < n
            invariant
                i <= n,
                n == self.kv@.len(),
                forall|j: int| 0 <= j < i ==> #[trigger] self.kv@[j].0@ != key@,
            decreases n - i,
        {
            if bytes_eq(self.kv[i].0.as_slice(), key) {
                proof {
                    lemma_alist_found(self.kv@, value_view(), i as int);
                }
                return Some(self.kv[i].1.duplicate());
            }
            i = i + 1;
        }
        proof {
            lemma_alist_absent(self.kv@, value_view(), key@);
        }
        None
    }

    /// Put `value` under `key`; a later write wins.
    #[verifier::loop_isolation(false)]
    pub fn set(&mut self, key: Vec<u8>, value: RespFrame)
        ensures
            final (self)@.kv == old(self)@.kv.insert(key@, value@),
            final (self)@.hashes == old(self)@.hashes,
            final (self)@.sets == old(self)@.sets,
    {
        let n = self.kv.len();
        let mut i: usize = 0;
        while i < n
            invariant
                i <= n,
                *self == *old(self),
                n == self.kv@.len(),
                forall|j: int| 0 <= j < i ==> #[trigger] self.kv@[j].0@ != key@,
            decreases n - i,
        {
            if bytes_eq(self.kv[i].0.as_slice(), key.as_slice()) {
                proof {
                    lemma_alist_update(self.kv@, value_view(), i as int, (key, value));
                }
                self.kv.set(i, (key, value));
                return ;
            }
            i = i + 1;
        }
        let ghost oldkv = self.kv@;
        let ghost p = (key, value);
        self.kv.push((key, value));
        proof {
            assert(self.kv@ == oldkv.push(p));
            lemma_alist_push(oldkv, value_view(), p);
        }
    }

    /// The value under `field` of the hash under `key`, if any.
    #[verifier::loop_isolation(false)]
    pub fn hget(&self, key: &[u8], field: &[u8]) -> (r: Option<RespFrame>)
        ensures
            match r {
                Some(f) => self@.hashes.dom().contains(key@) && self@.hashes[key@].dom().contains(
                    field@,
                ) && f@ == self@.hashes[key@][field@],
                None => !self@.hashes.dom().contains(key@) || !self@.hashes[key@].dom().contains(
                    field@,
                ),
            },
    {
        let n = self.hashes.len();
        let mut i: usize = 0;
        while i < n
            invariant
                i <= n,
                n == self.hashes@.len(),
                forall|j: int| 0 <= j < i ==> #[trigger] self.hashes@[j].0@ != key@,
            decreases n - i,
        {
            if bytes_eq(self.hashes[i].0.as_slice(), key) {
                proof {
                    lemma_alist_found(self.hashes@, hash_view(), i as int);
                }
                let inner = &self.hashes[i].1;
                let m = inner.len();
                let mut j: usize = 0;
                while j < m
                    invariant
                        j <= m,
                        m == inner@.len(),
                        forall|q: int| 0 <= q < j ==> #[trigger] inner@[q].0@ != field@,
                    decreases m - j,
                {
                    if bytes_eq(inner[j].0.as_slice(), field) {
                        proof {
                            lemma_alist_found(inner@, value_view(), j as int);
                        }
                        return Some(inner[j].1.duplicate());
                    }
                    j = j + 1;
                }
                proof {
                    lemma_alist_absent(inner@, value_view(), field@);
                }
                return None;
            }
            i = i + 1;
        }
        proof {
            lemma_alist_absent(self.hashes@, hash_view(), key@);
        }
        None
    }

    /// Put `value` under `field` of the hash under `key`, creating the
    /// hash on first use.
    #[verifier::loop_isolation(false)]
    pub fn hset(&mut self, key: Vec<u8>, field: Vec<u8>, value: RespFrame)
        ensures
            final (self)@.hashes == old(self)@.hashes.insert(
                key@,
                (if old(self)@.hashes.dom().contains(key@) {
                    old(self)@.hashes[key@]
                } else {
                    Map::empty()
                }).insert(field@, value@),
            ),
            final (self)@.kv == old(self)@.kv,
            final (self)@.sets == old(self)@.sets,
    {
        let n = self.hashes.len();
        let mut i: usize = 0;
        while i < n
            invariant
                i <= n,
                *self == *old(self),
                n == self.hashes@.len(),
                forall|j: int| 0 <= j < i ==> #[trigger] self.hashes@[j].0@ != key@,
            decreases n - i,
        {
            if bytes_eq(self.hashes[i].0.as_slice(), key.as_slice()) {
                proof {
                    lemma_alist_found(self.hashes@, hash_view(), i as int);
                }
                let ghost old_hashes = self.hashes@;
                let ghost old_inner = self.hashes@[i as int].1;
                let mut inner = copy_pairs(&self.hashes[i].1);
                hash_put(&mut inner, field, value);
                proof {
                    lemma_alist_update(old_hashes, hash_view(), i as int, (key, inner));
                }
                self.hashes.set(i, (key, inner));
                return ;
            }
            i = i + 1;
        }
        proof {
            lemma_alist_absent(self.hashes@, hash_view(), key@);
        }
        let mut inner: Vec<(Vec<u8>, RespFrame)> = Vec::new();
        let ghost fresh = inner;
        proof {
            assert(alist_map(fresh@, value_view()) =~= Map::<Seq<u8>, FrameView>::empty());
        }
        hash_put(&mut inner, field, value);
        let ghost oldhashes = self.hashes@;
        let ghost p = (key, inner);
        self.hashes.push((key, inner));
        proof {
            assert(self.hashes@ == oldhashes.push(p));
            lemma_alist_push(oldhashes, hash_view(), p);
        }
    }

    /// Put `member` in the set under `key`; true when newly added.
    #[verifier::loop_isolation(false)]
    pub fn sadd(&mut self, key: Vec<u8>, member: Vec<u8>) -> (r: bool)
        ensures
            r == !(old(self)@.sets.dom().contains(key@) && old(self)@.sets[key@].contains(
                member@,
            )),
            final (self)@.sets == old(self)@.sets.insert(
                key@,
                (if old(self)@.sets.dom().contains(key@) {
                    old(self)@.sets[key@]
                } else {
                    Set::empty()
                }).insert(member@),
            ),
            final (self)@.kv == old(self)@.kv,
            final (self)@.hashes == old(self)@.hashes,
    {
        let n = self.sets.len();
        let mut i: usize = 0;
        while i < n
            invariant
                i <= n,
                *self == *old(self),
                n == self.sets@.len(),
                forall|j: int| 0 <= j < i ==> #[trigger] self.sets@[j].0@ != key@,
            decreases n - i,
        {
            if bytes_eq(self.sets[i].0.as_slice(), key.as_slice()) {
                proof {
                    lemma_alist_found(self.sets@, members_view(), i as int);
                }
                let ghost old_sets = self.sets@;
                let mut members = copy_members(&self.sets[i].1);
                let added = members_put(&mut members, member);
                proof {
                    lemma_alist_update(old_sets, members_view(), i as int, (key, members));
                }
                self.sets.set(i, (key, members));
                return added;
            }
            i = i + 1;
        }
        proof {
            lemma_alist_absent(self.sets@, members_view(), key@);
        }
        let mut members: Vec<Vec<u8>> = Vec::new();
        let ghost fresh = members;
        proof {
            assert(members_view()(fresh) =~= Set::<Seq<u8>>::empty());
        }
        let added = members_put(&mut members, member);
        let ghost oldsets = self.sets@;
        let ghost p = (key, members);
        self.sets.push((key, members));
        proof {
            assert(self.sets@ == oldsets.push(p));
            lemma_alist_push(oldsets, members_view(), p);
        }
        added
    }

    /// Whether `member` is in the set under `key`.
    #[verifier::loop_isolation(false)]
    pub fn sismember(&self, key: &[u8], member: &[u8]) -> (r: bool)
        ensures
            r == (self@.sets.dom().contains(key@) && self@.sets[key@].contains(member@)),
    {
        let n = self.sets.len();
        let mut i: usize = 0;
        while i < n
            invariant
                i <= n,
                n == self.sets@.len(),
                forall|j: int| 0 <= j < i ==> #[trigger] self.sets@[j].0@ != key@,
            decreases n - i,
        {
            if bytes_eq(self.sets[i].0.as_slice(), key) {
                proof {
                    lemma_alist_found(self.sets@, members_view(), i as int);
                }
                let members = &self.sets[i].1;
                let m = members.len();
                let mut j: usize = 0;
                while j < m
                    invariant
                        j <= m,
                        m == members@.len(),
                        forall|q: int| 0 <= q < j ==> #[trigger] members@[q]@ != member@,
                    decreases m - j,
                {
                    if bytes_eq(members[j].as_slice(), member) {
                        proof {
                            assert(members_view()(self.sets@[i as int].1).contains(member@));
                        }
                        return true;
                    }
                    j = j + 1;
                }
                proof {
                    assert(!members_view()(self.sets@[i as int].1).contains(member@));
                }
                return false;
            }
            i = i + 1;
        }
        proof {
            lemma_alist_absent(self.sets@, members_view(), key@);
        }
        false
    }
}

/// Copy a hash's field list.
#[verifier::loop_isolation(false)]
fn copy_pairs(v: &Vec<(Vec<u8>, RespFrame)>) -> (r: Vec<(Vec<u8>, RespFrame)>)
    ensures
        r@.len() == v@.len(),
        forall|i: int| 0 <= i < v@.len() ==> #[trigger] r@[i].0@ == v@[i].0@ && r@[i].1@ == v@[i].1@,
        alist_map(r@, value_view()) == alist_map(v@, value_view()),
{
    let mut out: Vec<(Vec<u8>, RespFrame)> = Vec::new();
    let n = v.len();
    let mut i: usize = 0;
    while i < n
        invariant
            i <= n,
            n == v@.len(),
            out@.len() == i,
            forall|j: int| 0 <= j < i ==> #[trigger] out@[j].0@ == v@[j].0@ && out@[j].1@
                == v@[j].1@,
        decreases n - i,
    {
        let k = copy_bytes(&v[i].0);
        let f = v[i].1.duplicate();
        out.push((k, f));
        i = i + 1;
    }
    proof {
        lemma_alist_congruent(out@, v@, value_view());
    }
    out
}

/// Lists equal entry by entry hold the same map.
proof fn lemma_alist_congruent(
    a: Seq<(Vec<u8>, RespFrame)>,
    b: Seq<(Vec<u8>, RespFrame)>,
    f: spec_fn(RespFrame) -> FrameView,
)
    requires
        a.len() == b.len(),
        forall|i: int| 0 <= i < a.len() ==> #[trigger] a[i].0@ == b[i].0@ && f(a[i].1) == f(b[i].1),
    ensures
        alist_map(a, f) == alist_map(b, f),
    decreases a.len(),
{
    if a.len() > 0 {
        assert forall|i: int| 0 <= i < a.skip(1).len() implies #[trigger] a.skip(1)[i].0@ == b.skip(
            1,
        )[i].0@ && f(a.skip(1)[i].1) == f(b.skip(1)[i].1) by {
            assert(a.skip(1)[i] == a[i + 1]);
            assert(b.skip(1)[i] == b[i + 1]);
        }
        lemma_alist_congruent(a.skip(1), b.skip(1), f);
        assert(a[0].0@ == b[0].0@ && f(a[0].1) == f(b[0].1));
    }
}

/// Put `value` under `field` in a field list, replacing or appending.
#[verifier::loop_isolation(false)]
fn hash_put(inner: &mut Vec<(Vec<u8>, RespFrame)>, field: Vec<u8>, value: RespFrame)
    ensures
        alist_map(final (inner)@, value_view()) == alist_map(old(inner)@, value_view()).insert(
            field@,
            value@,
        ),
{
    let n = inner.len();
    let mut i: usize = 0;
    while i < n
        invariant
            i <= n,
            n == inner@.len(),
            inner@ == old(inner)@,
            forall|j: int| 0 <= j < i ==> #[trigger] inner@[j].0@ != field@,
        decreases n - i,
    {
        if bytes_eq(inner[i].0.as_slice(), field.as_slice()) {
            proof {
                lemma_alist_update(inner@, value_view(), i as int, (field, value));
            }
            inner.set(i, (field, value));
            return ;
        }
        i = i + 1;
    }
    proof {
        lemma_alist_push(inner@, value_view(), (field, value));
    }
    inner.push((field, value));
}

/// Copy a member list.
#[verifier::loop_isolation(false)]
fn copy_members(v: &Vec<Vec<u8>>) -> (r: Vec<Vec<u8>>)
    ensures
        r@.len() == v@.len(),
        forall|i: int| 0 <= i < v@.len() ==> #[trigger] r@[i]@ == v@[i]@,
        members_view()(r) == members_view()(*v),
{
    let mut out: Vec<Vec<u8>> = Vec::new();
    let n = v.len();
    let mut i: usize = 0;
    while i < n
        invariant
            i <= n,
            n == v@.len(),
            out@.len() == i,
            forall|j: int| 0 <= j < i ==> #[trigger] out@[j]@ == v@[j]@,
        decreases n - i,
    {
        out.push(copy_bytes(&v[i]));
        i = i + 1;
    }
    proof {
        let a = members_view()(out);
        let b = members_view()(*v);
        assert forall|m: Seq<u8>| a.contains(m) implies b.contains(m) by {
            let i = choose|i: int| 0 <= i < out@.len() && out@[i]@ == m;
            assert(v@[i]@ == m);
        }
        assert forall|m: Seq<u8>| b.contains(m) implies a.contains(m) by {
            let i = choose|i: int| 0 <= i < v@.len() && v@[i]@ == m;
            assert(out@[i]@ == m);
        }
        assert(a =~= b);
    }
    out
}

/// Put `member` in a member list unless already there; true when added.
#[verifier::loop_isolation(false)]
fn members_put(members: &mut Vec<Vec<u8>>, member: Vec<u8>) -> (r: bool)
    ensures
        r == !members_view()(*old(members)).contains(member@),
        members_view()(*final (members)) == members_view()(*old(members)).insert(member@),
{
    let n = members.len();
    let mut i: usize = 0;
    while i < n
        invariant
            i <= n,
            n == members@.len(),
            members@ == old(members)@,
            forall|j: int| 0 <= j < i ==> #[trigger] members@[j]@ != member@,
        decreases n - i,
    {
        if bytes_eq(members[i].as_slice(), member.as_slice()) {
            proof {
                assert(members_view()(*members).contains(member@));
                assert(members_view()(*members).insert(member@) =~= members_view()(*members));
            }
            return false;
        }
        i = i + 1;
    }
    proof {
        assert(!members_view()(*members).contains(member@));
    }
    let ghost before = *members;
    members.push(member);
    proof {
        let a = members_view()(*members);
        let b = members_view()(before).insert(member@);
        assert forall|m: Seq<u8>| a.contains(m) implies b.contains(m) by {
            let i = choose|i: int| 0 <= i < members@.len() && members@[i]@ == m;
            if i < before@.len() {
                assert(before@[i]@ == m);
            }
        }
        assert forall|m: Seq<u8>| b.contains(m) implies a.contains(m) by {
            if m == member@ {
                assert(members@[members@.len() - 1]@ == m);
            } else {
                let i = choose|i: int| 0 <= i < before@.len() && before@[i]@ == m;
                assert(members@[i]@ == m);
            }
        }
        assert(a =~= b);
    }
    true
}

} // verus!
