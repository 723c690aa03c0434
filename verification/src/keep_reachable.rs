//! The set of garbage-collected objects to keep reachable, with a reference count for each.
use vstd::prelude::*;

verus! {

/// The kinds of objects that the garbage collector manages.
#[derive(Copy, Clone, Debug, PartialEq, Eq, Structural)]
pub enum GcKind {
    String,
    MutableBox,
    List,
    Struct,
    ByteCode,
    Custom,
}

/// A set that keeps track of garbage collected values to keep reachable. Keeping reachable
/// prevents the garbage collector from cleaning up its values. Objects are named by their
/// kind and their index in the store of that kind; each kind holds its objects once, with the
/// number of references to each.
#[derive(Debug)]
pub struct KeepReachableSet {
    strings: Vec<(u32, usize)>,
    mutable_boxes: Vec<(u32, usize)>,
    lists: Vec<(u32, usize)>,
    structs: Vec<(u32, usize)>,
    bytecodes: Vec<(u32, usize)>,
    customs: Vec<(u32, usize)>,
}

/// The entry of `idx` in `s`, when there is one.
pub open spec fn holds(s: Seq<(u32, usize)>, idx: u32) -> bool {
    exists|i: int| 0 <= i < s.len() && s[i].0 == idx
}

/// The number of references to `idx` in `s`: zero when it has no entry.
pub open spec fn count_in(s: Seq<(u32, usize)>, idx: u32) -> nat {
    if holds(s, idx) {
        s[choose|i: int| 0 <= i < s.len() && s[i].0 == idx].1 as nat
    } else {
        0
    }
}

/// Each object has at most one entry, and each entry counts at least one reference.
pub open spec fn entries_wf(s: Seq<(u32, usize)>) -> bool {
    &&& forall|i: int, j: int| 0 <= i < j < s.len() ==> s[i].0 != s[j].0
    &&& forall|i: int| 0 <= i < s.len() ==> s[i].1 > 0
}

/// The entry of `idx` at `p` gives its count.
proof fn lemma_count_at(s: Seq<(u32, usize)>, idx: u32, p: int)
    requires
        entries_wf(s),
        0 <= p < s.len(),
        s[p].0 == idx,
    ensures
        count_in(s, idx) == s[p].1,
{
    let i = choose|i: int| 0 <= i < s.len() && s[i].0 == idx;
    assert(holds(s, idx));
    if i != p {
        if i < p {
            assert(s[i].0 != s[p].0);
        } else {
            assert(s[p].0 != s[i].0);
        }
    }
}

impl KeepReachableSet {
    /// The entries of the objects of `kind`.
    pub closed spec fn entries(&self, kind: GcKind) -> Seq<(u32, usize)> {
        match kind {
            GcKind::String => self.strings@,
            GcKind::MutableBox => self.mutable_boxes@,
            GcKind::List => self.lists@,
            GcKind::Struct => self.structs@,
            GcKind::ByteCode => self.bytecodes@,
            GcKind::Custom => self.customs@,
        }
    }

    /// The number of references held to the object `idx` of `kind`.
    pub open spec fn refs(&self, kind: GcKind, idx: u32) -> nat {
        count_in(self.entries(kind), idx)
    }

    /// No object has two entries and no entry is empty.
    pub open spec fn wf(&self) -> bool {
        forall|kind: GcKind| entries_wf(#[trigger] self.entries(kind))
    }

    /// An empty set.
    pub fn new() -> (r: KeepReachableSet)
        ensures
            r.wf(),
            forall|kind: GcKind, idx: u32| #[trigger] r.refs(kind, idx) == 0,
    {
        KeepReachableSet {
            strings: Vec::new(),
            mutable_boxes: Vec::new(),
            lists: Vec::new(),
            structs: Vec::new(),
            bytecodes: Vec::new(),
            customs: Vec::new(),
        }
    }

    fn entries_mut(&mut self, kind: GcKind) -> (r: &mut Vec<(u32, usize)>)
        ensures
            r@ == old(self).entries(kind),
            final(r)@ == final(self).entries(kind),
            forall|other: GcKind|
                other != kind ==> #[trigger] final(self).entries(other) == old(self).entries(other),
    {
        match kind {
            GcKind::String => &mut self.strings,
            GcKind::MutableBox => &mut self.mutable_boxes,
            GcKind::List => &mut self.lists,
            GcKind::Struct => &mut self.structs,
            GcKind::ByteCode => &mut self.bytecodes,
            GcKind::Custom => &mut self.customs,
        }
    }

    /// Insert a value into the set of reachable values: one more reference to it.
    pub fn insert(&mut self, kind: GcKind, idx: u32)
        requires
            old(self).wf(),
            old(self).refs(kind, idx) < usize::MAX,
        ensures
            final(self).wf(),
            final(self).refs(kind, idx) == old(self).refs(kind, idx) + 1,
            forall|other: u32| other != idx ==> #[trigger] final(self).refs(kind, other) == old(self).refs(kind, other),
            forall|k: GcKind|
                k != kind ==> #[trigger] final(self).entries(k) == old(self).entries(k),
    {
        let v = self.entries_mut(kind);
        let ghost s = v@;
        proof {
            assert(entries_wf(s));
        }
        match find_entry(v, idx) {
            Some(p) => {
                let (_, c) = v[p];
                proof {
                    lemma_count_at(s, idx, p as int);
                }
                v.set(p, (idx, c + 1));
                proof {
                    let t = v@;
                    assert(entries_wf(t));
                    lemma_count_at(t, idx, p as int);
                    assert forall|other: u32| other != idx implies count_in(t, other) == count_in(s, other) by {
                        if holds(s, other) {
                            let q = choose|i: int| 0 <= i < s.len() && s[i].0 == other;
                            lemma_count_at(s, other, q);
                            lemma_count_at(t, other, q);
                        } else {
                            assert(!holds(t, other));
                        }
                    }
                }
            },
            None => {
                v.push((idx, 1));
                proof {
                    let t = v@;
                    assert(entries_wf(t));
                    lemma_count_at(t, idx, s.len() as int);
                    assert forall|other: u32| other != idx implies count_in(t, other) == count_in(s, other) by {
                        if holds(s, other) {
                            let q = choose|i: int| 0 <= i < s.len() && s[i].0 == other;
                            lemma_count_at(s, other, q);
                            lemma_count_at(t, other, q);
                        } else {
                            assert(!holds(t, other));
                        }
                    }
                }
            },
        }
    }

    /// Remove a value from the set to keep reachable: one reference less to it. Removing a value
    /// that is not held changes nothing.
    pub fn remove(&mut self, kind: GcKind, idx: u32)
        requires
            old(self).wf(),
        ensures
            final(self).wf(),
            final(self).refs(kind, idx) == (if old(self).refs(kind, idx) == 0 {
                0
            } else {
                (old(self).refs(kind, idx) - 1) as nat
            }),
            forall|other: u32| other != idx ==> #[trigger] final(self).refs(kind, other) == old(self).refs(kind, other),
            forall|k: GcKind|
                k != kind ==> #[trigger] final(self).entries(k) == old(self).entries(k),
    {
        let v = self.entries_mut(kind);
        let ghost s = v@;
        proof {
            assert(entries_wf(s));
        }
        match find_entry(v, idx) {
            Some(p) => {
                let (_, c) = v[p];
                proof {
                    lemma_count_at(s, idx, p as int);
                }
                if c <= 1 {
                    v.remove(p);
                    proof {
                        let t = v@;
                        assert(t == s.remove(p as int));
                        assert forall|i: int, j: int| 0 <= i < j < t.len() implies t[i].0 != t[j].0 by {
                            let si = if i < p { i } else { i + 1 };
                            let sj = if j < p { j } else { j + 1 };
                            assert(t[i] == s[si] && t[j] == s[sj]);
                        }
                        assert forall|i: int| 0 <= i < t.len() implies t[i].1 > 0 by {
                            let si = if i < p { i } else { i + 1 };
                            assert(t[i] == s[si]);
                        }
                        assert(!holds(t, idx)) by {
                            if holds(t, idx) {
                                let q = choose|i: int| 0 <= i < t.len() && t[i].0 == idx;
                                let sq = if q < p { q } else { q + 1 };
                                assert(t[q] == s[sq]);
                                if sq < p {
                                    assert(s[sq].0 != s[p as int].0);
                                } else {
                                    assert(s[p as int].0 != s[sq].0);
                                }
                            }
                        }
                        assert forall|other: u32| other != idx implies count_in(t, other) == count_in(s, other) by {
                            if holds(s, other) {
                                let q = choose|i: int| 0 <= i < s.len() && s[i].0 == other;
                                lemma_count_at(s, other, q);
                                assert(q != p);
                                let tq = if q < p { q } else { q - 1 };
                                assert(t[tq] == s[q]);
                                lemma_count_at(t, other, tq);
                            } else {
                                assert(!holds(t, other)) by {
                                    if holds(t, other) {
                                        let q = choose|i: int| 0 <= i < t.len() && t[i].0 == other;
                                        let sq = if q < p { q } else { q + 1 };
                                        assert(t[q] == s[sq]);
                                    }
                                }
                            }
                        }
                    }
                } else {
                    v.set(p, (idx, c - 1));
                    proof {
                        let t = v@;
                        assert(entries_wf(t));
                        lemma_count_at(t, idx, p as int);
                        assert forall|other: u32| other != idx implies count_in(t, other) == count_in(s, other) by {
                            if holds(s, other) {
                                let q = choose|i: int| 0 <= i < s.len() && s[i].0 == other;
                                lemma_count_at(s, other, q);
                                lemma_count_at(t, other, q);
                            } else {
                                assert(!holds(t, other));
                            }
                        }
                    }
                }
            },
            None => {},
        }
    }

    /// The number of references held to a value.
    pub fn count(&self, kind: GcKind, idx: u32) -> (r: usize)
        requires
            self.wf(),
        ensures
            r == self.refs(kind, idx),
    {
        let v = match kind {
            GcKind::String => &self.strings,
            GcKind::MutableBox => &self.mutable_boxes,
            GcKind::List => &self.lists,
            GcKind::Struct => &self.structs,
            GcKind::ByteCode => &self.bytecodes,
            GcKind::Custom => &self.customs,
        };
        proof {
            assert(v@ == self.entries(kind));
            assert(entries_wf(v@));
        }
        match find_entry(v, idx) {
            Some(p) => {
                proof {
                    lemma_count_at(v@, idx, p as int);
                }
                v[p].1
            },
            None => 0,
        }
    }

    /// Every value to keep reachable, with its kind, kind by kind in the order strings, mutable
    /// boxes, lists, structs, bytecodes, customs.
    pub fn iter(&self) -> (r: Vec<(GcKind, u32)>)
        requires
            self.wf(),
        ensures
            forall|kind: GcKind, idx: u32|
                self.refs(kind, idx) > 0 <==> #[trigger] r@.contains((kind, idx)),
    {
        let mut r: Vec<(GcKind, u32)> = Vec::new();
        append_keys(&mut r, GcKind::String, &self.strings);
        append_keys(&mut r, GcKind::MutableBox, &self.mutable_boxes);
        append_keys(&mut r, GcKind::List, &self.lists);
        append_keys(&mut r, GcKind::Struct, &self.structs);
        append_keys(&mut r, GcKind::ByteCode, &self.bytecodes);
        append_keys(&mut r, GcKind::Custom, &self.customs);
        proof {
            assert forall|kind: GcKind, idx: u32|
                self.refs(kind, idx) > 0 <==> #[trigger] r@.contains((kind, idx)) by {
                assert(entries_wf(self.entries(kind)));
                if holds(self.entries(kind), idx) {
                    let q = choose|i: int| 0 <= i < self.entries(kind).len() && self.entries(kind)[i].0 == idx;
                    lemma_count_at(self.entries(kind), idx, q);
                }
            }
        }
        r
    }
}

/// Appends each object of `v`, as of kind `kind`.
fn append_keys(r: &mut Vec<(GcKind, u32)>, kind: GcKind, v: &Vec<(u32, usize)>)
    ensures
        forall|k: GcKind, idx: u32|
            #[trigger] final(r)@.contains((k, idx)) <==> old(r)@.contains((k, idx)) || (k == kind
                && holds(v@, idx)),
{
    let ghost start = r@;
    let mut i: usize = 0;
    while i < v.len()
        invariant
            i <= v@.len(),
            forall|k: GcKind, idx: u32|
                #[trigger] r@.contains((k, idx)) <==> start.contains((k, idx)) || (k == kind
                    && exists|x: int| 0 <= x < i && v@[x].0 == idx),
        decreases v@.len() - i,
    {
        let ghost before = r@;
        r.push((kind, v[i].0));
        proof {
            assert forall|k: GcKind, idx: u32|
                #[trigger] r@.contains((k, idx)) <==> start.contains((k, idx)) || (k == kind
                    && exists|x: int| 0 <= x < i + 1 && v@[x].0 == idx) by {
                if r@.contains((k, idx)) {
                    let w = choose|w: int| 0 <= w < r@.len() && r@[w] == (k, idx);
                    if w < before.len() {
                        assert(before[w] == r@[w]);
                        assert(before.contains((k, idx)));
                    }
                }
                if k == kind && exists|x: int| 0 <= x < i + 1 && v@[x].0 == idx {
                    let x = choose|x: int| 0 <= x < i + 1 && v@[x].0 == idx;
                    if x < i {
                        assert(before.contains((k, idx)));
                        let w = choose|w: int| 0 <= w < before.len() && before[w] == (k, idx);
                        assert(r@[w] == before[w]);
                    } else {
                        assert(r@[before.len() as int] == (k, idx));
                    }
                }
                if before.contains((k, idx)) {
                    let w = choose|w: int| 0 <= w < before.len() && before[w] == (k, idx);
                    assert(r@[w] == before[w]);
                }
            }
        }
        i = i + 1;
    }
}

/// The position of the entry of `idx`, when there is one.
fn find_entry(v: &Vec<(u32, usize)>, idx: u32) -> (r: Option<usize>)
    ensures
        match r {
            Some(p) => p < v@.len() && v@[p as int].0 == idx,
            None => !holds(v@, idx),
        },
{
    let mut i: usize = 0;
    while i < v.len()
        invariant
            i <= v@.len(),
            forall|x: int| 0 <= x < i ==> v@[x].0 != idx,
        decreases v@.len() - i,
    {
        if v[i].0 == idx {
            return Some(i);
        }
        i = i + 1;
    }
    None
}

/// Removing a value right after inserting it restores its count, and leaves every other count
/// as it was.
pub proof fn lemma_insert_then_remove(
    before: KeepReachableSet,
    inserted: KeepReachableSet,
    after: KeepReachableSet,
    kind: GcKind,
    idx: u32,
)
    requires
        inserted.refs(kind, idx) == before.refs(kind, idx) + 1,
        forall|other: u32| other != idx ==> #[trigger] inserted.refs(kind, other) == before.refs(kind, other),
        after.refs(kind, idx) == (if inserted.refs(kind, idx) == 0 {
            0
        } else {
            (inserted.refs(kind, idx) - 1) as nat
        }),
        forall|other: u32| other != idx ==> #[trigger] after.refs(kind, other) == inserted.refs(kind, other),
    ensures
        forall|other: u32| #[trigger] after.refs(kind, other) == before.refs(kind, other),
{
    assert forall|other: u32| #[trigger] after.refs(kind, other) == before.refs(kind, other) by {
        if other != idx {
            assert(after.refs(kind, other) == inserted.refs(kind, other));
        }
    }
}

} // verus!
