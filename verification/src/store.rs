//! The shared key-value store: a mapping from byte-string keys to
//! byte-string values, viewed abstractly as a `Map`. One instance is
//! shared by all connections; a caller serializes access around each
//! single operation.

use vstd::prelude::*;
use crate::bytes_eq;
use crate::resp::bytes_range;

verus! {

/// The mapping denoted by a list of entries; a later entry for the
/// same key would win, and `Store` keeps keys unique.
pub open spec fn map_of(entries: Seq<(Vec<u8>, Vec<u8>)>) -> Map<Seq<u8>, Seq<u8>>
    decreases entries.len(),
{
    if entries.len() == 0 {
        Map::empty()
    } else {
        map_of(entries.drop_last()).insert(entries.last().0@, entries.last().1@)
    }
}

/// In-memory key-value store. Entries are created by `set`, overwritten
/// by a repeated `set` of the same key, and never removed.
pub struct Store {
    entries: Vec<(Vec<u8>, Vec<u8>)>,
}

impl View for Store {
    type V = Map<Seq<u8>, Seq<u8>>;

    closed spec fn view(&self) -> Map<Seq<u8>, Seq<u8>> {
        map_of(self.entries@)
    }
}

/// No two entries share a key.
pub open spec fn unique_keys(entries: Seq<(Vec<u8>, Vec<u8>)>) -> bool {
    forall|i: int, j: int|
        0 <= i < j < entries.len() ==> (#[trigger] entries[i]).0@ != (#[trigger] entries[j]).0@
}

/// With unique keys, `map_of` looks every entry up to its own value,
/// and holds no key besides the entries'.
proof fn lemma_map_of(entries: Seq<(Vec<u8>, Vec<u8>)>)
    requires
        unique_keys(entries),
    ensures
        forall|i: int|
            0 <= i < entries.len() ==> map_of(entries).contains_key(
                (#[trigger] entries[i]).0@,
            ) && map_of(entries)[entries[i].0@] == entries[i].1@,
        forall|k: Seq<u8>|
            map_of(entries).contains_key(k) ==> exists|i: int|
                0 <= i < entries.len() && (#[trigger] entries[i]).0@ == k,
    decreases entries.len(),
{
    if entries.len() > 0 {
        let prefix = entries.drop_last();
        assert(forall|i: int| 0 <= i < prefix.len() ==> prefix[i] == entries[i]);
        lemma_map_of(prefix);
        assert forall|i: int| 0 <= i < entries.len() implies map_of(entries).contains_key(
            (#[trigger] entries[i]).0@,
        ) && map_of(entries)[entries[i].0@] == entries[i].1@ by {
            if i < entries.len() - 1 {
                assert(entries[i].0@ != entries.last().0@);
            }
        }
        assert forall|k: Seq<u8>| map_of(entries).contains_key(k) implies exists|i: int|
            0 <= i < entries.len() && (#[trigger] entries[i]).0@ == k by {
            assert(map_of(entries) == map_of(prefix).insert(entries.last().0@, entries.last().1@));
            if k != entries.last().0@ {
                assert(map_of(prefix).contains_key(k));
                let i = choose|i: int| 0 <= i < prefix.len() && (#[trigger] prefix[i]).0@ == k;
                assert(entries[i].0@ == k);
            } else {
                assert(entries[entries.len() - 1].0@ == k);
            }
        }
    }
}

/// Index of the entry holding `key`, if one exists.
fn find_index(entries: &Vec<(Vec<u8>, Vec<u8>)>, key: &Vec<u8>) -> (r: Option<usize>)
    ensures
        match r {
            Some(i) => i < entries@.len() && entries@[i as int].0@ == key@,
            None => forall|j: int| 0 <= j < entries@.len() ==> (#[trigger] entries@[j]).0@ != key@,
        },
{
    let mut i: usize = 0;
    while i < entries.len()
        invariant
            i <= entries@.len(),
            forall|j: int| 0 <= j < i ==> (#[trigger] entries@[j]).0@ != key@,
        decreases entries@.len() - i,
    {
        let hit = {
            let e = &entries[i];
            bytes_eq(&e.0, key)
        };
        if hit {
            return Some(i);
        }
        i = i + 1;
    }
    None
}

impl Store {
    /// The store's structural invariant: keys are unique. Established
    /// by `new` and preserved by every operation.
    pub closed spec fn wf(&self) -> bool {
        unique_keys(self.entries@)
    }

    /// An empty store.
    pub fn new() -> (s: Store)
        ensures
            s.wf(),
            s@ == Map::<Seq<u8>, Seq<u8>>::empty(),
    {
        Store { entries: Vec::new() }
    }

    /// Looks a key up: the value it maps to, or `None` when absent.
    pub fn get(&self, key: &Vec<u8>) -> (r: Option<Vec<u8>>)
        requires
            self.wf(),
        ensures
            match r {
                Some(v) => self@.contains_key(key@) && v@ == self@[key@],
                None => !self@.contains_key(key@),
            },
    {
        proof {
            lemma_map_of(self.entries@);
        }
        match find_index(&self.entries, key) {
            Some(i) => {
                let e = &self.entries[i];
                let v = bytes_range(&e.1, 0, e.1.len());
                proof {
                    assert(v@ =~= self.entries@[i as int].1@);
                }
                Some(v)
            },
            None => {
                proof {
                    if self@.contains_key(key@) {
                        let j = choose|j: int|
                            0 <= j < self.entries@.len() && (#[trigger] self.entries@[j]).0@
                                == key@;
                        assert(false);
                    }
                }
                None
            },
        }
    }

    /// Binds `key` to `value`, creating the entry or overwriting the
    /// previous value of the same key.
    pub fn set(&mut self, key: Vec<u8>, value: Vec<u8>)
        requires
            old(self).wf(),
        ensures
            final(self).wf(),
            final(self)@ == old(self)@.insert(key@, value@),
    {
        let ghost oe = self.entries@;
        let ghost ke = key@;
        proof {
            lemma_map_of(oe);
        }
        let found = find_index(&self.entries, &key);
        match found {
            None => {
                self.entries.push((key, value));
                proof {
                    assert(self.entries@.drop_last() =~= oe);
                    assert(map_of(self.entries@) == map_of(oe).insert(ke, value@));
                }
            },
            Some(idx) => {
                proof {
                    assert(oe[idx as int].0@ == ke);
                    assert(forall|j: int|
                        0 <= j < oe.len() && j != idx ==> (#[trigger] oe[j]).0@ != ke);
                }
                self.entries.remove(idx);
                let ghost re = self.entries@;
                self.entries.push((key, value));
                proof {
                    let fe = self.entries@;
                    assert(forall|j: int| 0 <= j < idx ==> re[j] == oe[j]);
                    assert(forall|j: int| idx <= j < re.len() ==> re[j] == oe[j + 1]);
                    assert(unique_keys(re));
                    assert(forall|j: int| 0 <= j < re.len() ==> (#[trigger] re[j]).0@ != ke);
                    assert(unique_keys(fe));
                    assert(fe.drop_last() =~= re);
                    assert(map_of(fe) == map_of(re).insert(ke, value@));
                    lemma_map_of(re);
                    assert forall|k: Seq<u8>| k != ke implies map_of(re).contains_key(k)
                        == map_of(oe).contains_key(k) && (map_of(re).contains_key(k)
                        ==> map_of(re)[k] == map_of(oe)[k]) by {
                        if map_of(oe).contains_key(k) {
                            let j = choose|j: int|
                                0 <= j < oe.len() && (#[trigger] oe[j]).0@ == k;
                            let j2: int = if j < idx {
                                j
                            } else {
                                j - 1
                            };
                            assert(re[j2] == oe[j]);
                            assert(map_of(re).contains_key(k) && map_of(re)[k] == oe[j].1@);
                        }
                        if map_of(re).contains_key(k) {
                            let j2 = choose|j2: int|
                                0 <= j2 < re.len() && (#[trigger] re[j2]).0@ == k;
                            let j: int = if j2 < idx {
                                j2
                            } else {
                                j2 + 1
                            };
                            assert(oe[j] == re[j2]);
                            assert(map_of(oe).contains_key(k) && map_of(oe)[k] == re[j2].1@);
                        }
                    }
                    assert(map_of(re).insert(ke, value@) =~= map_of(oe).insert(ke, value@));
                }
            },
        }
    }
}

} // verus!
