//! The catalog: for each key, the sequence and on-disk place of its newest
//! flushed entry.

use vstd::prelude::*;

verus! {

/// Where an entry's bytes lie: `len` aligned bytes at `offset` of `region`.
#[derive(Debug, Clone, Copy, PartialEq, Eq, Structural)]
pub struct RegionView {
    pub region: u32,
    pub offset: u32,
    pub len: u32,
}

/// A catalog item: the entry's sequence and where it lies.
#[derive(Debug, Clone, Copy, PartialEq, Eq, Structural)]
pub struct Item {
    pub sequence: u64,
    pub view: RegionView,
}

#[derive(Debug)]
struct Slot {
    key: Vec<u8>,
    item: Item,
}

pub open spec fn find_spec(s: Seq<(Seq<u8>, Item)>, k: Seq<u8>) -> Option<Item>
    decreases s.len(),
{
    if s.len() == 0 {
        None
    } else if s.last().0 == k {
        Some(s.last().1)
    } else {
        find_spec(s.drop_last(), k)
    }
}

/// No key occurs twice.
pub open spec fn unique_keys(s: Seq<(Seq<u8>, Item)>) -> bool
    decreases s.len(),
{
    s.len() == 0 || (find_spec(s.drop_last(), s.last().0) is None && unique_keys(s.drop_last()))
}

/// The slots whose item does not lie in `region`, in order.
pub open spec fn keep_spec(s: Seq<(Seq<u8>, Item)>, region: u32) -> Seq<(Seq<u8>, Item)>
    decreases s.len(),
{
    if s.len() == 0 {
        s
    } else if s.last().1.view.region == region {
        keep_spec(s.drop_last(), region)
    } else {
        keep_spec(s.drop_last(), region).push(s.last())
    }
}

/// Whether `item` replaces `current`: only a strictly newer sequence is
/// refused.
pub open spec fn supersedes(item: Item, current: Option<Item>) -> bool {
    match current {
        Some(c) => c.sequence <= item.sequence,
        None => true,
    }
}

/// A key's item once the items in `region` are dropped.
pub open spec fn without_region(current: Option<Item>, region: u32) -> Option<Item> {
    match current {
        Some(it) => if it.view.region == region {
            None
        } else {
            Some(it)
        },
        None => None,
    }
}

/// A key's item after `item` is inserted for it.
pub open spec fn insert_result(current: Option<Item>, item: Item) -> Option<Item> {
    if supersedes(item, current) {
        Some(item)
    } else {
        current
    }
}

/// Of two inserts for one key, the one with the greater sequence decides the
/// key's item, in whichever order they come, unless the key already holds a
/// still newer item.
pub proof fn lemma_newest_sequence_wins(current: Option<Item>, a: Item, b: Item)
    requires
        a.sequence < b.sequence,
        supersedes(b, current),
    ensures
        insert_result(insert_result(current, a), b) == Some(b),
        insert_result(insert_result(current, b), a) == Some(b),
{
}

proof fn lemma_find_none(s: Seq<(Seq<u8>, Item)>, k: Seq<u8>)
    requires
        forall|j: int| 0 <= j < s.len() ==> s[j].0 != k,
    ensures
        find_spec(s, k) is None,
    decreases s.len(),
{
    if s.len() > 0 {
        lemma_find_none(s.drop_last(), k);
    }
}

proof fn lemma_find_some(s: Seq<(Seq<u8>, Item)>, k: Seq<u8>, i: int)
    requires
        0 <= i < s.len(),
        s[i].0 == k,
    ensures
        find_spec(s, k) is Some,
    decreases s.len(),
{
    if s.last().0 != k {
        lemma_find_some(s.drop_last(), k, i);
    }
}

proof fn lemma_find_at(s: Seq<(Seq<u8>, Item)>, k: Seq<u8>, i: int)
    requires
        0 <= i < s.len(),
        s[i].0 == k,
        forall|j: int| i < j < s.len() ==> s[j].0 != k,
    ensures
        find_spec(s, k) == Some(s[i].1),
    decreases s.len(),
{
    if i < s.len() - 1 {
        lemma_find_at(s.drop_last(), k, i);
    }
}

/// Replacing the item of the last slot of its key changes that key alone,
/// and keeps the keys unique.
proof fn lemma_update(s: Seq<(Seq<u8>, Item)>, i: int, item: Item)
    requires
        0 <= i < s.len(),
        unique_keys(s),
        forall|j: int| i < j < s.len() ==> s[j].0 != s[i].0,
    ensures
        forall|k: Seq<u8>|
            #[trigger] find_spec(s.update(i, (s[i].0, item)), k) == if k == s[i].0 {
                Some(item)
            } else {
                find_spec(s, k)
            },
        unique_keys(s.update(i, (s[i].0, item))),
    decreases s.len(),
{
    let t = s.update(i, (s[i].0, item));
    let d = s.drop_last();
    if i == s.len() - 1 {
        assert(t.drop_last() =~= d);
        assert forall|k: Seq<u8>| #[trigger] find_spec(t, k) == if k == s[i].0 {
            Some(item)
        } else {
            find_spec(s, k)
        } by {
            if k != s[i].0 {
                assert(find_spec(t, k) == find_spec(d, k));
            }
        }
    } else {
        lemma_update(d, i, item);
        assert(t.drop_last() =~= d.update(i, (s[i].0, item)));
        assert(t.last() == s.last());
        assert(s.last().0 != s[i].0);
        assert forall|k: Seq<u8>| #[trigger] find_spec(t, k) == if k == s[i].0 {
            Some(item)
        } else {
            find_spec(s, k)
        } by {
            if s.last().0 == k {
            } else {
                assert(find_spec(t, k) == find_spec(d.update(i, (s[i].0, item)), k));
            }
        }
        assert(find_spec(t.drop_last(), t.last().0) == find_spec(d, s.last().0));
    }
}

/// Removing the last slot of its key drops that key alone, and keeps the
/// keys unique.
proof fn lemma_remove(s: Seq<(Seq<u8>, Item)>, i: int)
    requires
        0 <= i < s.len(),
        unique_keys(s),
        forall|j: int| i < j < s.len() ==> s[j].0 != s[i].0,
    ensures
        forall|k: Seq<u8>|
            #[trigger] find_spec(s.remove(i), k) == if k == s[i].0 {
                None
            } else {
                find_spec(s, k)
            },
        unique_keys(s.remove(i)),
    decreases s.len(),
{
    let t = s.remove(i);
    let d = s.drop_last();
    if i == s.len() - 1 {
        assert(t =~= d);
        assert forall|k: Seq<u8>| #[trigger] find_spec(t, k) == if k == s[i].0 {
            None
        } else {
            find_spec(s, k)
        } by {
            if k != s[i].0 {
                assert(find_spec(s, k) == find_spec(d, k));
            }
        }
    } else {
        lemma_remove(d, i);
        assert(t.drop_last() =~= d.remove(i));
        assert(t.last() == s.last());
        assert(s.last().0 != s[i].0);
        assert forall|k: Seq<u8>| #[trigger] find_spec(t, k) == if k == s[i].0 {
            None
        } else {
            find_spec(s, k)
        } by {
            if s.last().0 != k {
                assert(find_spec(t, k) == find_spec(d.remove(i), k));
            }
        }
        assert(find_spec(t.drop_last(), t.last().0) == find_spec(d, s.last().0));
    }
}

/// Dropping the slots of `region` drops exactly the keys whose item lies
/// there, and keeps the keys unique.
proof fn lemma_keep(s: Seq<(Seq<u8>, Item)>, region: u32)
    requires
        unique_keys(s),
    ensures
        forall|k: Seq<u8>|
            #[trigger] find_spec(keep_spec(s, region), k) == match find_spec(s, k) {
                Some(it) => if it.view.region == region {
                    None
                } else {
                    Some(it)
                },
                None => None,
            },
        unique_keys(keep_spec(s, region)),
    decreases s.len(),
{
    if s.len() > 0 {
        let d = s.drop_last();
        lemma_keep(d, region);
        let kd = keep_spec(d, region);
        let last = s.last();
        if last.1.view.region != region {
            let t = kd.push(last);
            assert(t.drop_last() =~= kd);
            assert(find_spec(kd, last.0) is None);
            assert forall|k: Seq<u8>| #[trigger] find_spec(keep_spec(s, region), k) == match find_spec(s, k) {
                Some(it) => if it.view.region == region {
                    None
                } else {
                    Some(it)
                },
                None => None,
            } by {
                if last.0 != k {
                    assert(find_spec(t, k) == find_spec(kd, k));
                }
            }
        } else {
            assert forall|k: Seq<u8>| #[trigger] find_spec(keep_spec(s, region), k) == match find_spec(s, k) {
                Some(it) => if it.view.region == region {
                    None
                } else {
                    Some(it)
                },
                None => None,
            } by {
                assert(find_spec(kd, k) == find_spec(kd, k));
            }
        }
    }
}

/// Maps each key to the item of its newest flushed entry.
#[derive(Debug)]
pub struct Catalog {
    slots: Vec<Slot>,
}

impl Catalog {
    pub closed spec fn spec_slots(&self) -> Seq<(Seq<u8>, Item)> {
        self.slots@.map_values(|s: Slot| (s.key@, s.item))
    }

    /// The item for `k`, if any.
    pub open spec fn spec_lookup(&self, k: Seq<u8>) -> Option<Item> {
        find_spec(self.spec_slots(), k)
    }

    pub open spec fn wf(&self) -> bool {
        unique_keys(self.spec_slots())
    }

    pub fn new() -> (r: Self)
        ensures
            r.wf(),
            forall|k: Seq<u8>| r.spec_lookup(k) is None,
    {
        let r = Catalog { slots: Vec::new() };
        assert(r.spec_slots() =~= Seq::<(Seq<u8>, Item)>::empty());
        r
    }

    /// The index of the last slot whose key is `key`, if any.
    fn position(&self, key: &[u8]) -> (r: Option<usize>)
        ensures
            r matches Some(i) ==> i < self.slots@.len() && self.spec_slots()[i as int].0 == key@
                && forall|j: int| i < j < self.slots@.len() ==> self.spec_slots()[j].0 != key@,
            r is None ==> forall|j: int| 0 <= j < self.slots@.len() ==> self.spec_slots()[j].0 != key@,
    {
        let mut i: usize = self.slots.len();
        while i > 0
            invariant
                i <= self.slots@.len(),
                forall|j: int| i <= j < self.slots@.len() ==> self.spec_slots()[j].0 != key@,
            decreases i,
        {
            i = i - 1;
            if bytes_eq(self.slots[i].key.as_slice(), key) {
                return Some(i);
            }
        }
        None
    }

    /// The item for `key`, if any.
    pub fn lookup(&self, key: &[u8]) -> (r: Option<Item>)
        ensures
            r == self.spec_lookup(key@),
    {
        match self.position(key) {
            Some(i) => {
                proof {
                    lemma_find_at(self.spec_slots(), key@, i as int);
                }
                Some(self.slots[i].item)
            },
            None => {
                proof {
                    lemma_find_none(self.spec_slots(), key@);
                }
                None
            },
        }
    }

    /// Records `item` for `key`, unless the key already has an item with a
    /// strictly greater sequence.
    pub fn insert(&mut self, key: Vec<u8>, item: Item)
        requires
            old(self).wf(),
        ensures
            final(self).wf(),
            forall|k: Seq<u8>|
                #[trigger] final(self).spec_lookup(k) == if k == key@ {
                    insert_result(old(self).spec_lookup(k), item)
                } else {
                    old(self).spec_lookup(k)
                },
    {
        let ghost s = self.spec_slots();
        match self.position(key.as_slice()) {
            Some(i) => {
                proof {
                    lemma_find_at(s, key@, i as int);
                }
                if self.slots[i].item.sequence > item.sequence {
                    return;
                }
                self.slots[i].item = item;
                proof {
                    lemma_update(s, i as int, item);
                    assert(self.spec_slots() =~= s.update(i as int, (s[i as int].0, item)));
                }
            },
            None => {
                proof {
                    lemma_find_none(s, key@);
                }
                let ghost kv = key@;
                self.slots.push(Slot { key, item });
                proof {
                    let t = self.spec_slots();
                    assert(t =~= s.push((kv, item)));
                    assert(t.drop_last() =~= s);
                }
            },
        }
    }

    /// Drops the item for `key`, if any.
    pub fn remove(&mut self, key: &[u8])
        requires
            old(self).wf(),
        ensures
            final(self).wf(),
            forall|k: Seq<u8>|
                #[trigger] final(self).spec_lookup(k) == if k == key@ {
                    None
                } else {
                    old(self).spec_lookup(k)
                },
    {
        let ghost s = self.spec_slots();
        match self.position(key) {
            Some(i) => {
                self.slots.remove(i);
                proof {
                    lemma_remove(s, i as int);
                    assert(self.spec_slots() =~= s.remove(i as int));
                }
            },
            None => {
                proof {
                    lemma_find_none(s, key@);
                }
            },
        }
    }

    /// Drops every item that lies in `region`.
    pub fn remove_region(&mut self, region: u32)
        requires
            old(self).wf(),
        ensures
            final(self).wf(),
            forall|k: Seq<u8>|
                #[trigger] final(self).spec_lookup(k) == match old(self).spec_lookup(k) {
                    Some(it) => if it.view.region == region {
                        None
                    } else {
                        Some(it)
                    },
                    None => None,
                },
    {
        let ghost s = self.spec_slots();
        let mut i: usize = 0;
        let ghost mut j: int = 0;
        while i < self.slots.len()
            invariant
                0 <= j <= s.len(),
                self.spec_slots() == keep_spec(s.take(j), region) + s.skip(j),
                i == keep_spec(s.take(j), region).len(),
            decreases self.slots.len() - i,
        {
            let ghost before = self.spec_slots();
            let ghost kj = keep_spec(s.take(j), region);
            proof {
                assert(s.take(j + 1).drop_last() =~= s.take(j));
                assert(before[i as int] == s[j]);
            }
            if self.slots[i].item.view.region == region {
                self.slots.remove(i);
                proof {
                    assert(self.spec_slots() =~= before.remove(i as int));
                    assert(self.spec_slots() =~= kj + s.skip(j + 1));
                }
            } else {
                i = i + 1;
                proof {
                    assert(kj.push(s[j]) + s.skip(j + 1) =~= before);
                }
            }
            proof {
                j = j + 1;
            }
        }
        proof {
            assert(s.take(j) =~= s);
            lemma_keep(s, region);
        }
    }
}

/// Whether two byte strings are equal.
fn bytes_eq(a: &[u8], b: &[u8]) -> (r: bool)
    ensures
        r == (a@ == b@),
{
    if a.len() != b.len() {
        return false;
    }
    let mut i: usize = 0;
    while i < a.len()
        invariant
            a@.len() == b@.len(),
            i <= a@.len(),
            forall|j: int| 0 <= j < i ==> a@[j] == b@[j],
        decreases a.len() - i,
    {
        if a[i] != b[i] {
            return false;
        }
        i = i + 1;
    }
    assert(a@ =~= b@);
    true
}

} // verus!
