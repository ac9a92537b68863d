use vstd::prelude::*;

verus! {

/// The committed offset an entry list holds for a partition: the first
/// matching entry's, if any.
pub open spec fn entry_fetch(entries: Seq<(u32, u64)>, partition: u32) -> Option<u64>
    decreases entries.len(),
{
    if entries.len() == 0 {
        None
    } else if entries[0].0 == partition {
        Some(entries[0].1)
    } else {
        entry_fetch(entries.drop_first(), partition)
    }
}

/// The committed offset a store holds for a group and partition: looked up
/// in the first entry list filed under the group's name, if any.
pub open spec fn store_fetch(
    store: Seq<(String, Vec<(u32, u64)>)>,
    group: Seq<char>,
    partition: u32,
) -> Option<u64>
    decreases store.len(),
{
    if store.len() == 0 {
        None
    } else if store[0].0@ == group {
        entry_fetch(store[0].1@, partition)
    } else {
        store_fetch(store.drop_first(), group, partition)
    }
}

/// Durable per-(group, partition) committed offsets: a group's committed
/// offset for a partition is the offset of the next record it intends to
/// read. Commits mark the group dirty; a flush hands the whole store out
/// for persisting and clears the dirty set.
pub struct OffsetTracker {
    pub store: Vec<(String, Vec<(u32, u64)>)>,
    pub dirty: Vec<String>,
    /// Where the surrounding program persists the store.
    pub path: String,
}

impl OffsetTracker {
    /// A group name is marked dirty when some flush must persist it.
    pub open spec fn is_dirty(&self, group: Seq<char>) -> bool {
        exists|i: int| 0 <= i < self.dirty@.len() && (#[trigger] self.dirty@[i])@ == group
    }

    /// A fresh, clean, empty tracker that persists to `path`.
    pub fn new(path: String) -> (r: OffsetTracker)
        ensures
            r.store@.len() == 0,
            r.dirty@.len() == 0,
            r.path == path,
            forall|g: Seq<char>, p: u32| store_fetch(r.store@, g, p) is None,
    {
        let r = OffsetTracker { store: Vec::new(), dirty: Vec::new(), path };
        r
    }

    /// The committed offset for `(group, partition)`, when one exists.
    pub fn fetch(&self, group: &str, partition: u32) -> (r: Option<u64>)
        ensures
            r == store_fetch(self.store@, group@, partition),
    {
        let group_owned = group.to_owned();
        let ghost st = self.store@;
        proof {
            assert(st.skip(0) =~= st);
        }
        let mut i: usize = 0;
        while i < self.store.len()
            invariant
                i <= st.len(),
                st == self.store@,
                group_owned@ == group@,
                store_fetch(st, group@, partition) == store_fetch(
                    st.skip(i as int),
                    group@,
                    partition,
                ),
            decreases st.len() - i,
        {
            proof {
                assert(st.skip(i as int)[0] == st[i as int]);
                assert(st.skip(i as int).drop_first() =~= st.skip(i as int + 1));
            }
            let entry = &self.store[i];
            if entry.0 == group_owned {
                proof {
                    assert(entry.0@ == group@);
                }
                let entries = &entry.1;
                let ghost es = entries@;
                proof {
                    assert(es.skip(0) =~= es);
                    assert(store_fetch(st, group@, partition) == entry_fetch(es, partition));
                }
                let mut k: usize = 0;
                while k < entries.len()
                    invariant
                        k <= es.len(),
                        es == entries@,
                        st == self.store@,
                        store_fetch(st, group@, partition) == entry_fetch(es, partition),
                        entry_fetch(es, partition) == entry_fetch(es.skip(k as int), partition),
                    decreases es.len() - k,
                {
                    proof {
                        assert(es.skip(k as int)[0] == es[k as int]);
                        assert(es.skip(k as int).drop_first() =~= es.skip(k as int + 1));
                    }
                    if entries[k].0 == partition {
                        return Some(entries[k].1);
                    }
                    k = k + 1;
                }
                proof {
                    assert(es.skip(es.len() as int) =~= Seq::<(u32, u64)>::empty());
                }
                return None;
            }
            i = i + 1;
        }
        proof {
            assert(st.skip(st.len() as int) =~= Seq::<(String, Vec<(u32, u64)>)>::empty());
        }
        None
    }

    /// Commits `offset` for `(group, partition)`, overwriting any previous
    /// commitment, touching no other pair, and marking the group dirty.
    /// Two groups reading the same partition advance independently: a
    /// commit for one group leaves every other group's offsets unchanged.
    pub fn commit(&mut self, group: &str, partition: u32, offset: u64)
        ensures
            forall|g: Seq<char>, p: u32|
                #[trigger] store_fetch(final(self).store@, g, p) == (if g == group@ && p
                    == partition {
                    Some(offset)
                } else {
                    store_fetch(old(self).store@, g, p)
                }),
            final(self).is_dirty(group@),
            forall|g: Seq<char>| old(self).is_dirty(g) ==> final(self).is_dirty(g),
            final(self).path == old(self).path,
    {
        let group_owned = group.to_owned();
        let ghost st0 = self.store@;
        let mut i: usize = 0;
        let mut found_group: bool = false;
        let group_count = self.store.len();
        while i < group_count && !found_group
            invariant
                i <= st0.len(),
                group_count == st0.len(),
                self.store@ == st0,
                group_owned@ == group@,
                forall|j: int| 0 <= j < i ==> (#[trigger] st0[j]).0@ != group@,
                found_group ==> i < st0.len() && st0[i as int].0@ == group@,
            decreases st0.len() - i + (if found_group {
                0int
            } else {
                1int
            }),
        {
            if self.store[i].0 == group_owned {
                found_group = true;
            } else {
                i = i + 1;
            }
        }
        if !found_group {
            // A new group: one fresh entry list.
            let mut entries: Vec<(u32, u64)> = Vec::new();
            entries.push((partition, offset));
            let name = group.to_owned();
            let ghost entry_seq = entries@;
            self.store.push((name, entries));
            proof {
                let e = self.store@.last();
                assert(self.store@ =~= st0.push(e));
                assert(e.0@ == group@);
                assert(e.1@ == entry_seq);
                assert(entry_seq =~= Seq::<(u32, u64)>::empty().push((partition, offset)));
                assert forall|g: Seq<char>, p: u32|
                    #[trigger] store_fetch(self.store@, g, p) == (if g == group@ && p == partition {
                        Some(offset)
                    } else {
                        store_fetch(st0, g, p)
                    }) by {
                    Self::lemma_store_fetch_push(st0, e, g, p);
                    if g == group@ {
                        Self::lemma_absent_group(st0, g);
                        assert(entry_fetch(e.1@, p) == (if p == partition {
                            Some(offset)
                        } else {
                            entry_fetch(e.1@.drop_first(), p)
                        }));
                        assert(e.1@.drop_first() =~= Seq::<(u32, u64)>::empty());
                    }
                }
            }
        } else {
            let entry = &mut self.store[i];
            let ghost old_entries = entry.1@;
            let entries_len = entry.1.len();
            let mut k: usize = 0;
            let mut found_part: bool = false;
            while k < entries_len && !found_part
                invariant
                    k <= old_entries.len(),
                    entries_len == old_entries.len(),
                    entry.1@ == old_entries,
                    entry.0@ == group@,
                    forall|j: int| 0 <= j < k ==> (#[trigger] old_entries[j]).0 != partition,
                    found_part ==> k < old_entries.len() && old_entries[k as int].0 == partition,
                decreases old_entries.len() - k + (if found_part {
                    0int
                } else {
                    1int
                }),
            {
                if entry.1[k].0 == partition {
                    found_part = true;
                } else {
                    k = k + 1;
                }
            }
            if found_part {
                let slot = &mut entry.1[k];
                slot.1 = offset;
                proof {
                    assert(entry.1@ =~= old_entries.update(k as int, (partition, offset)));
                }
            } else {
                entry.1.push((partition, offset));
            }
            let ghost new_entries = entry.1@;
            proof {
                assert(self.store@ =~= st0.update(
                    i as int,
                    (st0[i as int].0, self.store@[i as int].1),
                ));
                if found_part {
                    Self::lemma_entry_update(old_entries, k as int, partition, offset);
                } else {
                    Self::lemma_entry_push(old_entries, partition, offset);
                }
                assert forall|g: Seq<char>, p: u32|
                    #[trigger] store_fetch(self.store@, g, p) == (if g == group@ && p == partition {
                        Some(offset)
                    } else {
                        store_fetch(st0, g, p)
                    }) by {
                    Self::lemma_store_fetch_update(st0, self.store@, i as int, g, p);
                    if g == group@ {
                        Self::lemma_first_group_wins(st0, self.store@, i as int, g, p);
                        Self::lemma_first_group_wins(st0, st0, i as int, g, p);
                        assert(store_fetch(st0, g, p) == entry_fetch(old_entries, p));
                        assert(store_fetch(self.store@, g, p) == entry_fetch(new_entries, p));
                    }
                }
            }
        }
        let ghost dirty0 = self.dirty@;
        self.dirty.push(group.to_owned());
        proof {
            let di = self.dirty@.len() - 1;
            assert((self.dirty@[di])@ == group@);
            assert forall|g: Seq<char>| old(self).is_dirty(g) implies self.is_dirty(g) by {
                let w = choose|w: int| 0 <= w < dirty0.len() && (#[trigger] dirty0[w])@ == g;
                assert((self.dirty@[w])@ == g);
            }
        }
    }

    /// Fetching in a store extended with a new group reads the old store
    /// unless the new group is named.
    proof fn lemma_store_fetch_push(
        st: Seq<(String, Vec<(u32, u64)>)>,
        e: (String, Vec<(u32, u64)>),
        g: Seq<char>,
        p: u32,
    )
        requires
            forall|j: int| 0 <= j < st.len() ==> (#[trigger] st[j]).0@ != e.0@,
        ensures
            store_fetch(st.push(e), g, p) == (if g == e.0@ {
                entry_fetch(e.1@, p)
            } else {
                store_fetch(st, g, p)
            }),
        decreases st.len(),
    {
        if st.len() == 0 {
            assert(st.push(e)[0] == e);
            assert(st.push(e).drop_first() =~= Seq::<(String, Vec<(u32, u64)>)>::empty());
            if g != e.0@ {
                assert(store_fetch(st.push(e), g, p) == store_fetch(
                    st.push(e).drop_first(),
                    g,
                    p,
                ));
                assert(store_fetch(st.push(e).drop_first(), g, p) is None);
                assert(store_fetch(st, g, p) is None);
            }
        } else {
            assert(st.push(e)[0] == st[0]);
            assert(st.push(e).drop_first() =~= st.drop_first().push(e));
            Self::lemma_store_fetch_push(st.drop_first(), e, g, p);
            assert(st[0].0@ != e.0@);
            if st[0].0@ == g {
                assert(store_fetch(st.push(e), g, p) == entry_fetch(st[0].1@, p));
                assert(store_fetch(st, g, p) == entry_fetch(st[0].1@, p));
            } else {
                assert(store_fetch(st.push(e), g, p) == store_fetch(
                    st.drop_first().push(e),
                    g,
                    p,
                ));
                assert(store_fetch(st, g, p) == store_fetch(st.drop_first(), g, p));
            }
        }
    }

    /// A group that appears nowhere in the store fetches nothing.
    proof fn lemma_absent_group(st: Seq<(String, Vec<(u32, u64)>)>, g: Seq<char>)
        requires
            forall|j: int| 0 <= j < st.len() ==> (#[trigger] st[j]).0@ != g,
        ensures
            forall|p: u32| store_fetch(st, g, p) is None,
        decreases st.len(),
    {
        if st.len() > 0 {
            Self::lemma_absent_group(st.drop_first(), g);
            assert forall|p: u32| store_fetch(st, g, p) is None by {
                assert(store_fetch(st, g, p) == store_fetch(st.drop_first(), g, p));
            }
        } else {
            assert forall|p: u32| store_fetch(st, g, p) is None by {
                assert(store_fetch(st, g, p) is None);
            }
        }
    }

    /// Fetching in a store whose `i`-th entry list changed reads the new
    /// list only for groups that reach position `i`.
    proof fn lemma_store_fetch_update(
        st: Seq<(String, Vec<(u32, u64)>)>,
        st2: Seq<(String, Vec<(u32, u64)>)>,
        i: int,
        g: Seq<char>,
        p: u32,
    )
        requires
            0 <= i < st.len(),
            st2.len() == st.len(),
            forall|j: int| 0 <= j < st.len() && j != i ==> #[trigger] st2[j] == st[j],
            st2[i].0@ == st[i].0@,
        ensures
            g != st[i].0@ ==> store_fetch(st2, g, p) == store_fetch(st, g, p),
        decreases i,
    {
        if g != st[i].0@ {
            if i == 0 {
                if st[0].0@ != g {
                    assert(st2.drop_first() =~= st.drop_first());
                }
            } else {
                assert(st2[0] == st[0]);
                if st[0].0@ != g {
                    assert(forall|j: int|
                        0 <= j < st.drop_first().len() && j != i - 1
                            ==> #[trigger] st2.drop_first()[j] == st.drop_first()[j]);
                    Self::lemma_store_fetch_update(st.drop_first(), st2.drop_first(), i - 1, g, p);
                }
            }
        }
    }

    /// When the first entry list filed under `g` is at position `i` and was
    /// replaced, fetching `g` reads the replacement.
    proof fn lemma_first_group_wins(
        st: Seq<(String, Vec<(u32, u64)>)>,
        st2: Seq<(String, Vec<(u32, u64)>)>,
        i: int,
        g: Seq<char>,
        p: u32,
    )
        requires
            0 <= i < st.len(),
            st2.len() == st.len(),
            forall|j: int| 0 <= j < st.len() && j != i ==> #[trigger] st2[j] == st[j],
            st2[i].0@ == st[i].0@,
            st[i].0@ == g,
            forall|j: int| 0 <= j < i ==> (#[trigger] st[j]).0@ != g,
        ensures
            store_fetch(st2, g, p) == entry_fetch(st2[i].1@, p),
        decreases i,
    {
        if i == 0 {
        } else {
            assert(st2[0] == st[0]);
            assert(forall|j: int|
                0 <= j < st.drop_first().len() && j != i - 1 ==> #[trigger] st2.drop_first()[j]
                    == st.drop_first()[j]);
            Self::lemma_first_group_wins(st.drop_first(), st2.drop_first(), i - 1, g, p);
        }
    }

    /// Updating the entry at `k` changes only that partition's offset.
    proof fn lemma_entry_update(es: Seq<(u32, u64)>, k: int, partition: u32, offset: u64)
        requires
            0 <= k < es.len(),
            es[k].0 == partition,
            forall|j: int| 0 <= j < k ==> (#[trigger] es[j]).0 != partition,
        ensures
            forall|p: u32|
                #[trigger] entry_fetch(es.update(k, (partition, offset)), p) == (if p == partition {
                    Some(offset)
                } else {
                    entry_fetch(es, p)
                }),
        decreases k,
    {
        let es2 = es.update(k, (partition, offset));
        if k == 0 {
            assert forall|p: u32|
                #[trigger] entry_fetch(es2, p) == (if p == partition {
                    Some(offset)
                } else {
                    entry_fetch(es, p)
                }) by {
                if p != partition {
                    assert(es2.drop_first() =~= es.drop_first());
                }
            }
        } else {
            assert(es2[0] == es[0]);
            assert(es2.drop_first() =~= es.drop_first().update(k - 1, (partition, offset)));
            Self::lemma_entry_update(es.drop_first(), k - 1, partition, offset);
            assert forall|p: u32|
                #[trigger] entry_fetch(es2, p) == (if p == partition {
                    Some(offset)
                } else {
                    entry_fetch(es, p)
                }) by {
                assert(entry_fetch(es2.drop_first(), p) == (if p == partition {
                    Some(offset)
                } else {
                    entry_fetch(es.drop_first(), p)
                }));
            }
        }
    }

    /// Appending an entry for an absent partition adds exactly it.
    proof fn lemma_entry_push(es: Seq<(u32, u64)>, partition: u32, offset: u64)
        requires
            forall|j: int| 0 <= j < es.len() ==> (#[trigger] es[j]).0 != partition,
        ensures
            forall|p: u32|
                #[trigger] entry_fetch(es.push((partition, offset)), p) == (if p == partition {
                    Some(offset)
                } else {
                    entry_fetch(es, p)
                }),
        decreases es.len(),
    {
        let es2 = es.push((partition, offset));
        if es.len() == 0 {
            assert(es2[0] == (partition, offset));
            assert(es2.drop_first() =~= Seq::<(u32, u64)>::empty());
            assert forall|p: u32|
                #[trigger] entry_fetch(es2, p) == (if p == partition {
                    Some(offset)
                } else {
                    entry_fetch(es, p)
                }) by {
                if p != partition {
                    assert(entry_fetch(es2.drop_first(), p) is None);
                }
            }
        } else {
            assert(es2[0] == es[0]);
            assert(es2.drop_first() =~= es.drop_first().push((partition, offset)));
            Self::lemma_entry_push(es.drop_first(), partition, offset);
            assert forall|p: u32|
                #[trigger] entry_fetch(es2, p) == (if p == partition {
                    Some(offset)
                } else {
                    entry_fetch(es, p)
                }) by {
                assert(entry_fetch(es2.drop_first(), p) == (if p == partition {
                    Some(offset)
                } else {
                    entry_fetch(es.drop_first(), p)
                }));
            }
        }
    }

    /// Hands out a copy of the store for persisting when any group is
    /// dirty, clearing the dirty set; a clean tracker flushes nothing.
    /// The copy holds exactly the store's committed offsets.
    pub fn flush_dirty_offsets(&mut self) -> (r: Option<Vec<(String, Vec<(u32, u64)>)>>)
        ensures
            final(self).store@ == old(self).store@,
            final(self).path == old(self).path,
            old(self).dirty@.len() == 0 ==> r is None && final(self).dirty@ == old(self).dirty@,
            old(self).dirty@.len() > 0 ==> (r matches Some(copy) && final(self).dirty@.len() == 0
                && copy@.len() == old(self).store@.len() && (forall|i: int|
                0 <= i < copy@.len() ==> (#[trigger] copy@[i]).0@ == old(self).store@[i].0@
                    && copy@[i].1@ == old(self).store@[i].1@)),
    {
        if self.dirty.len() == 0 {
            return None;
        }
        let mut copy: Vec<(String, Vec<(u32, u64)>)> = Vec::new();
        let mut i: usize = 0;
        while i < self.store.len()
            invariant
                i <= self.store@.len(),
                copy@.len() == i,
                forall|j: int|
                    0 <= j < i ==> (#[trigger] copy@[j]).0@ == self.store@[j].0@ && copy@[j].1@
                        == self.store@[j].1@,
            decreases self.store@.len() - i,
        {
            let entry = &self.store[i];
            let name = entry.0.clone();
            let entries = vstd::slice::slice_to_vec(entry.1.as_slice());
            copy.push((name, entries));
            i = i + 1;
        }
        self.dirty.clear();
        Some(copy)
    }

    /// Installs entries read back from the persisted store, replacing the
    /// current contents; the tracker stays clean.
    pub fn restore(&mut self, entries: Vec<(String, Vec<(u32, u64)>)>)
        ensures
            final(self).store@ == entries@,
            final(self).dirty@ == old(self).dirty@,
            final(self).path == old(self).path,
    {
        self.store = entries;
    }
}

} // verus!
