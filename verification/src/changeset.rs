//! Changes observed since the last flush, gathered per shard.

use crate::storage::StoreView;
use vstd::prelude::*;

verus! {

/// A key with the value it was last set to.
pub struct Update {
    pub key: String,
    pub value: Vec<u8>,
}

/// The mathematical content of an update.
pub struct UpdateView {
    pub key: Seq<char>,
    pub value: Seq<u8>,
}

impl View for Update {
    type V = UpdateView;

    open spec fn view(&self) -> UpdateView {
        UpdateView { key: self.key@, value: self.value@ }
    }
}

/// The mathematical content of a changeset: the keys set, each with its latest value,
/// and the keys deleted.
pub struct ChangesetView {
    pub updates: Seq<UpdateView>,
    pub removals: Seq<Seq<char>>,
}

/// Position of `key` among the updates, or their number when it is not among them.
pub open spec fn spec_update_index(updates: Seq<UpdateView>, key: Seq<char>) -> int
    decreases updates.len(),
{
    if updates.len() == 0 {
        0
    } else if updates[0].key == key {
        0
    } else {
        1 + spec_update_index(updates.skip(1), key)
    }
}

pub proof fn lemma_update_index(updates: Seq<UpdateView>, key: Seq<char>)
    ensures
        0 <= spec_update_index(updates, key) <= updates.len(),
        spec_update_index(updates, key) < updates.len() ==> updates[spec_update_index(
            updates,
            key,
        )].key == key,
        forall|i: int| 0 <= i < spec_update_index(updates, key) ==> updates[i].key != key,
    decreases updates.len(),
{
    if updates.len() > 0 && updates[0].key != key {
        lemma_update_index(updates.skip(1), key);
        let p = spec_update_index(updates.skip(1), key);
        assert forall|i: int| 0 <= i < 1 + p implies updates[i].key != key by {
            if i > 0 {
                assert(updates.skip(1)[i - 1] == updates[i]);
            }
        }
    }
}

/// The changeset after a `SET` was observed: the key is among the updates, with the
/// new value.
pub open spec fn spec_record_set(
    changes: ChangesetView,
    key: Seq<char>,
    value: Seq<u8>,
) -> ChangesetView {
    let at = spec_update_index(changes.updates, key);
    let update = UpdateView { key, value };
    ChangesetView {
        updates: if at < changes.updates.len() {
            changes.updates.update(at, update)
        } else {
            changes.updates.push(update)
        },
        removals: changes.removals,
    }
}

/// The changeset after a `DELETE` was observed: the key is no longer among the updates,
/// and it is among the removals.
pub open spec fn spec_record_delete(changes: ChangesetView, key: Seq<char>) -> ChangesetView {
    let at = spec_update_index(changes.updates, key);
    ChangesetView {
        updates: if at < changes.updates.len() {
            changes.updates.remove(at)
        } else {
            changes.updates
        },
        removals: if changes.removals.contains(key) {
            changes.removals
        } else {
            changes.removals.push(key)
        },
    }
}

/// A store after the keys of `removals` were deleted from it.
pub open spec fn spec_remove_all(store: StoreView, removals: Seq<Seq<char>>) -> StoreView
    decreases removals.len(),
{
    if removals.len() == 0 {
        store
    } else {
        spec_remove_all(store, removals.drop_last()).remove(removals.last())
    }
}

/// A store after the `updates` were written to it, in order.
pub open spec fn spec_insert_all(store: StoreView, updates: Seq<UpdateView>) -> StoreView
    decreases updates.len(),
{
    if updates.len() == 0 {
        store
    } else {
        spec_insert_all(store, updates.drop_last()).insert(
            updates.last().key,
            updates.last().value,
        )
    }
}

/// What a flush of `changes` makes of a store: the removals first, then the updates.
pub open spec fn spec_changeset_effect(store: StoreView, changes: ChangesetView) -> StoreView {
    spec_insert_all(spec_remove_all(store, changes.removals), changes.updates)
}

/// The changes to one shard that await the next flush.
pub struct Changeset {
    updates: Vec<Update>,
    removals: Vec<String>,
}

impl View for Changeset {
    type V = ChangesetView;

    closed spec fn view(&self) -> ChangesetView {
        ChangesetView {
            updates: Seq::new(self.updates@.len(), |i: int| self.updates@[i]@),
            removals: Seq::new(self.removals@.len(), |i: int| self.removals@[i]@),
        }
    }
}

impl Changeset {
    /// No changes.
    pub fn default() -> (r: Self)
        ensures
            r@ == (ChangesetView { updates: Seq::empty(), removals: Seq::empty() }),
    {
        let r = Changeset { updates: Vec::new(), removals: Vec::new() };
        assert(r@.updates =~= Seq::<UpdateView>::empty());
        assert(r@.removals =~= Seq::<Seq<char>>::empty());
        r
    }

    /// Number of updates.
    pub fn updates_len(&self) -> (r: usize)
        ensures
            r == self@.updates.len(),
    {
        self.updates.len()
    }

    /// The update at `index`.
    pub fn update(&self, index: usize) -> (r: &Update)
        requires
            index < self@.updates.len(),
        ensures
            r@ == self@.updates[index as int],
    {
        &self.updates[index]
    }

    /// Number of removals.
    pub fn removals_len(&self) -> (r: usize)
        ensures
            r == self@.removals.len(),
    {
        self.removals.len()
    }

    /// The removed key at `index`.
    pub fn removal(&self, index: usize) -> (r: &String)
        requires
            index < self@.removals.len(),
        ensures
            r@ == self@.removals[index as int],
    {
        &self.removals[index]
    }

    fn update_index(&self, key: &String) -> (r: usize)
        ensures
            r == spec_update_index(self@.updates, key@),
            r <= self@.updates.len(),
    {
        let mut i: usize = 0;
        proof {
            lemma_update_index(self@.updates, key@);
        }
        while i < self.updates.len()
            invariant
                i <= self.updates@.len(),
                forall|k: int| 0 <= k < i ==> self@.updates[k].key != key@,
                0 <= spec_update_index(self@.updates, key@) <= self@.updates.len(),
                spec_update_index(self@.updates, key@) < self@.updates.len()
                    ==> self@.updates[spec_update_index(self@.updates, key@)].key == key@,
                forall|k: int|
                    0 <= k < spec_update_index(self@.updates, key@) ==> self@.updates[k].key
                        != key@,
            decreases self.updates@.len() - i,
        {
            if self.updates[i].key == *key {
                assert(self@.updates[i as int].key == key@);
                return i;
            }
            i = i + 1;
        }
        i
    }

    /// Takes note of a `SET`.
    pub fn record_set(&mut self, key: String, value: Vec<u8>)
        ensures
            final(self)@ == spec_record_set(old(self)@, key@, value@),
    {
        let at = self.update_index(&key);
        let update = Update { key, value };
        if at < self.updates.len() {
            self.updates.set(at, update);
        } else {
            self.updates.push(update);
        }
        assert(self@.updates =~= spec_record_set(old(self)@, key@, value@).updates);
        assert(self@.removals =~= old(self)@.removals);
    }

    /// Takes note of a `DELETE`.
    pub fn record_delete(&mut self, key: String)
        ensures
            final(self)@ == spec_record_delete(old(self)@, key@),
    {
        let at = self.update_index(&key);
        if at < self.updates.len() {
            self.updates.remove(at);
        }
        let mut known = false;
        let mut i: usize = 0;
        while i < self.removals.len()
            invariant
                i <= self.removals@.len(),
                known == exists|k: int| 0 <= k < i && self.removals@[k]@ == key@,
            decreases self.removals@.len() - i,
        {
            if self.removals[i] == key {
                known = true;
            }
            i = i + 1;
        }
        proof {
            let removals = old(self)@.removals;
            if known {
                let k = choose|k: int| 0 <= k < i && self.removals@[k]@ == key@;
                assert(removals[k] == key@);
            } else {
                assert forall|k: int| 0 <= k < removals.len() implies removals[k] != key@ by {
                    assert(self.removals@[k]@ == removals[k]);
                }
            }
        }
        if !known {
            self.removals.push(key);
        }
        assert(self@.updates =~= spec_record_delete(old(self)@, key@).updates);
        assert(self@.removals =~= spec_record_delete(old(self)@, key@).removals);
    }
}

/// The changes that await the next flush, for one shard.
pub struct ShardChangeset {
    pub filehash: String,
    pub changeset: Changeset,
}

/// The changes that await the next flush, shard by shard.
pub struct ChangesetCollection(pub Vec<ShardChangeset>);

impl ChangesetCollection {
    /// Nothing awaits a flush.
    pub fn default() -> (r: Self)
        ensures
            r.0@.len() == 0,
    {
        ChangesetCollection(Vec::new())
    }

    /// Position of the changeset of the shard named `filehash`; one without changes is
    /// added at the end if the shard has none yet.
    pub fn entry(&mut self, filehash: String) -> (r: usize)
        ensures
            r < final(self).0@.len(),
            final(self).0@[r as int].filehash@ == filehash@,
            r < old(self).0@.len() ==> final(self).0@ == old(self).0@,
            r >= old(self).0@.len() ==> {
                &&& r == old(self).0@.len()
                &&& final(self).0@.len() == r + 1
                &&& final(self).0@.take(r as int) == old(self).0@
                &&& final(self).0@[r as int].changeset@ == (ChangesetView {
                    updates: Seq::empty(),
                    removals: Seq::empty(),
                })
                &&& forall|k: int| 0 <= k < r ==> old(self).0@[k].filehash@ != filehash@
            },
    {
        let mut i: usize = 0;
        while i < self.0.len()
            invariant
                i <= self.0@.len(),
                forall|k: int| 0 <= k < i ==> self.0@[k].filehash@ != filehash@,
            decreases self.0@.len() - i,
        {
            if self.0[i].filehash == filehash {
                return i;
            }
            i = i + 1;
        }
        self.0.push(ShardChangeset { filehash, changeset: Changeset::default() });
        assert(self.0@.take(i as int) =~= old(self).0@);
        i
    }
}

} // verus!
