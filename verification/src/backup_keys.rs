//! One shard as it stands on disk: the value slots, and for each key where its slot is.
//!
//! A slot is the range `[pos, pos + capacity)` of the values file; the first
//! `content_size` bytes of it are the key's value. Slots never overlap. A value that
//! outgrows its slot gets a new one at the end of the file, twice its size.

use crate::bytes::copy_range;
use crate::changeset::{
    spec_changeset_effect, spec_insert_all, spec_remove_all, Changeset, ChangesetView, UpdateView,
};
use crate::shard_registry::{hash_for_key, spec_hash_for_key, spec_owns, ShardFileInfo};
use crate::storage::{Storage, StoreView};
use std::ops::Range;
use vstd::prelude::*;

verus! {

/// Where the value of one key lies in the values file.
#[derive(Debug, Clone, Copy, PartialEq, Eq)]
pub struct BackupKeyInfo {
    pub content_size: usize,
    pub capacity: usize,
    pub pos: usize,
}

impl BackupKeyInfo {
    pub fn new(content_size: usize, capacity: usize, pos: usize) -> (r: Self)
        ensures
            r == (BackupKeyInfo { content_size, capacity, pos }),
    {
        Self { content_size, capacity, pos }
    }

    /// The bytes of the values file that hold the value.
    pub fn value_range(&self) -> (r: Range<usize>)
        requires
            self.pos + self.content_size <= usize::MAX,
        ensures
            r.start == self.pos,
            r.end == self.pos + self.content_size,
    {
        self.pos..(self.pos + self.content_size)
    }
}

/// A key of a shard with the place of its value.
#[derive(Debug, PartialEq, Eq)]
pub struct BackupKey {
    pub key: String,
    pub info: BackupKeyInfo,
}

/// The mathematical content of a `BackupKey`.
pub struct BackupKeyView {
    pub key: Seq<char>,
    pub info: BackupKeyInfo,
}

impl View for BackupKey {
    type V = BackupKeyView;

    open spec fn view(&self) -> BackupKeyView {
        BackupKeyView { key: self.key@, info: self.info }
    }
}

impl Clone for BackupKey {
    fn clone(&self) -> (r: BackupKey)
        ensures
            r@ == self@,
    {
        BackupKey { key: self.key.clone(), info: self.info }
    }
}

/// The mathematical content of a shard: its keys in file order, and its values file.
pub struct ShardView {
    pub keys: Seq<BackupKeyView>,
    pub values: Seq<u8>,
}

/// Whether `key` is among `keys`.
pub open spec fn spec_has_key(keys: Seq<BackupKeyView>, key: Seq<char>) -> bool {
    exists|i: int| 0 <= i < keys.len() && (#[trigger] keys[i]).key == key
}

/// Position of `key` among `keys`.
pub open spec fn spec_key_index(keys: Seq<BackupKeyView>, key: Seq<char>) -> int {
    choose|i: int| 0 <= i < keys.len() && (#[trigger] keys[i]).key == key
}

/// No key occurs twice.
pub open spec fn spec_keys_distinct(keys: Seq<BackupKeyView>) -> bool {
    forall|i: int, j: int|
        0 <= i < keys.len() && 0 <= j < keys.len() && i != j ==> (#[trigger] keys[i]).key != (
        #[trigger] keys[j]).key
}

/// The content fits the slot, and the slot lies within a file of `len` bytes.
pub open spec fn spec_slot_fits(info: BackupKeyInfo, len: int) -> bool {
    info.content_size <= info.capacity && info.pos + info.capacity <= len
}

/// The two slots share no byte.
pub open spec fn spec_slots_apart(a: BackupKeyInfo, b: BackupKeyInfo) -> bool {
    a.pos + a.capacity <= b.pos || b.pos + b.capacity <= a.pos
}

/// A shard is well formed when no key occurs twice, every slot lies within the values
/// file and holds its content, and no two slots overlap.
pub open spec fn spec_shard_wf(shard: ShardView) -> bool {
    &&& spec_keys_distinct(shard.keys)
    &&& forall|i: int|
        0 <= i < shard.keys.len() ==> spec_slot_fits(
            (#[trigger] shard.keys[i]).info,
            shard.values.len() as int,
        )
    &&& forall|i: int, j: int|
        0 <= i < shard.keys.len() && 0 <= j < shard.keys.len() && i != j ==> spec_slots_apart(
            (#[trigger] shard.keys[i]).info,
            (#[trigger] shard.keys[j]).info,
        )
}

/// The value that the slot described by `info` holds.
pub open spec fn spec_slot_value(values: Seq<u8>, info: BackupKeyInfo) -> Seq<u8> {
    values.subrange(info.pos as int, info.pos + info.content_size)
}

/// What a shard stores: for each of its keys, the content of the key's slot.
pub open spec fn spec_shard_content(shard: ShardView) -> StoreView {
    Map::new(
        |key: Seq<char>| spec_has_key(shard.keys, key),
        |key: Seq<char>| spec_slot_value(shard.values, shard.keys[spec_key_index(shard.keys, key)].info),
    )
}

/// The useful size of a shard: the largest end of a slot, 0 without keys.
pub open spec fn spec_useful_size(keys: Seq<BackupKeyView>) -> int
    decreases keys.len(),
{
    if keys.len() == 0 {
        0
    } else {
        let before = spec_useful_size(keys.drop_last());
        let end = keys.last().info.pos + keys.last().info.capacity;
        if end > before {
            end
        } else {
            before
        }
    }
}

/// `bytes` followed by as many zero bytes.
pub open spec fn spec_padded(bytes: Seq<u8>) -> Seq<u8> {
    bytes + Seq::new(bytes.len(), |i: int| 0u8)
}

/// `values` with `bytes` written over what stood from `pos` on.
pub open spec fn spec_overwrite(values: Seq<u8>, pos: int, bytes: Seq<u8>) -> Seq<u8> {
    Seq::new(
        values.len(),
        |i: int|
            if pos <= i < pos + bytes.len() {
                bytes[i - pos]
            } else {
                values[i]
            },
    )
}

/// The place of a value of `len` bytes that is appended to a values file of `end` bytes:
/// a slot twice the size of the value.
pub open spec fn spec_new_slot(len: nat, end: nat) -> BackupKeyInfo {
    BackupKeyInfo { content_size: len as usize, capacity: (2 * len) as usize, pos: end as usize }
}

/// The shard with one more key, its value appended in a new slot.
pub open spec fn spec_shard_append(shard: ShardView, key: Seq<char>, bytes: Seq<u8>) -> ShardView {
    ShardView {
        keys: shard.keys.push(
            BackupKeyView { key, info: spec_new_slot(bytes.len(), shard.values.len()) },
        ),
        values: shard.values + spec_padded(bytes),
    }
}

/// The shard after `key` was dropped from its keys. The slot is left where it is.
pub open spec fn spec_shard_remove(shard: ShardView, key: Seq<char>) -> ShardView {
    if spec_has_key(shard.keys, key) {
        ShardView { keys: shard.keys.remove(spec_key_index(shard.keys, key)), values: shard.values }
    } else {
        shard
    }
}

/// The shard after `bytes` were stored for `key`. A known key whose slot holds `bytes`
/// keeps its slot and is overwritten in place. A known key with too small a slot gets a
/// new slot at the end of the file; the old one is given up. A new key gets a new slot
/// at the end of the file.
pub open spec fn spec_shard_store(shard: ShardView, key: Seq<char>, bytes: Seq<u8>) -> ShardView {
    if spec_has_key(shard.keys, key) {
        let at = spec_key_index(shard.keys, key);
        let info = shard.keys[at].info;
        if info.capacity >= bytes.len() {
            ShardView {
                keys: shard.keys.update(
                    at,
                    BackupKeyView {
                        key,
                        info: BackupKeyInfo {
                            content_size: bytes.len() as usize,
                            capacity: info.capacity,
                            pos: info.pos,
                        },
                    },
                ),
                values: spec_overwrite(shard.values, info.pos as int, bytes),
            }
        } else {
            ShardView {
                keys: shard.keys.update(
                    at,
                    BackupKeyView { key, info: spec_new_slot(bytes.len(), shard.values.len()) },
                ),
                values: shard.values + spec_padded(bytes),
            }
        }
    } else {
        spec_shard_append(shard, key, bytes)
    }
}

/// The shard after all `removals`, in order.
pub open spec fn spec_shard_remove_all(shard: ShardView, removals: Seq<Seq<char>>) -> ShardView
    decreases removals.len(),
{
    if removals.len() == 0 {
        shard
    } else {
        spec_shard_remove(spec_shard_remove_all(shard, removals.drop_last()), removals.last())
    }
}

/// The shard after all `updates`, in order.
pub open spec fn spec_shard_store_all(shard: ShardView, updates: Seq<UpdateView>) -> ShardView
    decreases updates.len(),
{
    if updates.len() == 0 {
        shard
    } else {
        spec_shard_store(
            spec_shard_store_all(shard, updates.drop_last()),
            updates.last().key,
            updates.last().value,
        )
    }
}

/// The shard after a flush of `changes`: the removals first, then the updates.
pub open spec fn spec_shard_apply(shard: ShardView, changes: ChangesetView) -> ShardView {
    spec_shard_store_all(spec_shard_remove_all(shard, changes.removals), changes.updates)
}

/// Whether a key goes to the half `lhs` of its shard when the shard is split.
pub open spec fn spec_goes_left(lhs: ShardFileInfo, key: Seq<char>) -> bool {
    spec_owns(lhs, spec_hash_for_key(key))
}

/// One half of a split shard: the keys that go to the left, or those that do not, each
/// with its value in a new slot, in the order in which the shard held them.
pub open spec fn spec_shard_half(shard: ShardView, lhs: ShardFileInfo, left: bool) -> ShardView
    decreases shard.keys.len(),
{
    if shard.keys.len() == 0 {
        ShardView { keys: Seq::empty(), values: Seq::empty() }
    } else {
        let before = spec_shard_half(
            ShardView { keys: shard.keys.drop_last(), values: shard.values },
            lhs,
            left,
        );
        let last = shard.keys.last();
        if spec_goes_left(lhs, last.key) == left {
            spec_shard_append(before, last.key, spec_slot_value(shard.values, last.info))
        } else {
            before
        }
    }
}

/// A key that is at position `i` is among the keys, and `i` is its position.
pub proof fn lemma_key_at(keys: Seq<BackupKeyView>, i: int)
    requires
        spec_keys_distinct(keys),
        0 <= i < keys.len(),
    ensures
        spec_has_key(keys, keys[i].key),
        spec_key_index(keys, keys[i].key) == i,
{
    let j = spec_key_index(keys, keys[i].key);
    assert(keys[j].key == keys[i].key);
}

/// Appending a key that the shard does not have keeps the shard well formed and adds
/// the key with its value to what the shard stores.
pub proof fn lemma_shard_append(shard: ShardView, key: Seq<char>, bytes: Seq<u8>)
    requires
        spec_shard_wf(shard),
        !spec_has_key(shard.keys, key),
        shard.values.len() + 2 * bytes.len() <= usize::MAX,
    ensures
        spec_shard_wf(spec_shard_append(shard, key, bytes)),
        spec_shard_content(spec_shard_append(shard, key, bytes)) == spec_shard_content(
            shard,
        ).insert(key, bytes),
{
    let after = spec_shard_append(shard, key, bytes);
    let n = shard.keys.len() as int;
    assert forall|i: int, j: int|
        0 <= i < after.keys.len() && 0 <= j < after.keys.len() && i != j implies (
    #[trigger] after.keys[i]).key != (#[trigger] after.keys[j]).key by {
        if i < n && j < n {
            assert(shard.keys[i].key != shard.keys[j].key);
        } else if i < n {
            assert(shard.keys[i].key != key);
        } else {
            assert(shard.keys[j].key != key);
        }
    }
    assert forall|i: int| 0 <= i < after.keys.len() implies spec_slot_fits(
        (#[trigger] after.keys[i]).info,
        after.values.len() as int,
    ) by {
        if i < n {
            assert(spec_slot_fits(shard.keys[i].info, shard.values.len() as int));
        }
    }
    assert forall|i: int, j: int|
        0 <= i < after.keys.len() && 0 <= j < after.keys.len() && i != j implies spec_slots_apart(
        (#[trigger] after.keys[i]).info,
        (#[trigger] after.keys[j]).info,
    ) by {
        if i < n && j < n {
            assert(spec_slots_apart(shard.keys[i].info, shard.keys[j].info));
        } else if i < n {
            assert(spec_slot_fits(shard.keys[i].info, shard.values.len() as int));
        } else {
            assert(spec_slot_fits(shard.keys[j].info, shard.values.len() as int));
        }
    }
    let expected = spec_shard_content(shard).insert(key, bytes);
    assert forall|k: Seq<char>| expected.contains_key(k) <==> spec_shard_content(
        after,
    ).contains_key(k) by {
        if spec_has_key(shard.keys, k) {
            let i = spec_key_index(shard.keys, k);
            assert(after.keys[i].key == k);
        }
        if k == key {
            assert(after.keys[n].key == k);
        }
        if spec_has_key(after.keys, k) {
            let i = spec_key_index(after.keys, k);
            if i < n {
                assert(shard.keys[i].key == k);
            }
        }
    }
    assert forall|k: Seq<char>| expected.contains_key(k) implies expected[k] == spec_shard_content(
        after,
    )[k] by {
        let i = spec_key_index(after.keys, k);
        if k == key {
            lemma_key_at(after.keys, n);
            assert(spec_slot_value(after.values, after.keys[n].info) =~= bytes);
        } else {
            let b = spec_key_index(shard.keys, k);
            assert(after.keys[b].key == k);
            lemma_key_at(after.keys, b);
            assert(spec_slot_fits(shard.keys[b].info, shard.values.len() as int));
            assert(spec_slot_value(after.values, shard.keys[b].info) =~= spec_slot_value(
                shard.values,
                shard.keys[b].info,
            ));
        }
    }
    assert(spec_shard_content(after) =~= expected);
}

/// Dropping a key keeps the shard well formed and takes the key out of what it stores.
pub proof fn lemma_shard_remove(shard: ShardView, key: Seq<char>)
    requires
        spec_shard_wf(shard),
    ensures
        spec_shard_wf(spec_shard_remove(shard, key)),
        spec_shard_content(spec_shard_remove(shard, key)) == spec_shard_content(shard).remove(
            key,
        ),
{
    let after = spec_shard_remove(shard, key);
    let expected = spec_shard_content(shard).remove(key);
    if spec_has_key(shard.keys, key) {
        let at = spec_key_index(shard.keys, key);
        let back = |i: int|
            if i < at {
                i
            } else {
                i + 1
            };
        assert forall|i: int| 0 <= i < after.keys.len() implies #[trigger] after.keys[i]
            == shard.keys[back(i)] by {}
        assert forall|i: int, j: int|
            0 <= i < after.keys.len() && 0 <= j < after.keys.len() && i != j implies (
        #[trigger] after.keys[i]).key != (#[trigger] after.keys[j]).key by {
            assert(shard.keys[back(i)].key != shard.keys[back(j)].key);
        }
        assert forall|i: int| 0 <= i < after.keys.len() implies spec_slot_fits(
            (#[trigger] after.keys[i]).info,
            after.values.len() as int,
        ) by {
            assert(spec_slot_fits(shard.keys[back(i)].info, shard.values.len() as int));
        }
        assert forall|i: int, j: int|
            0 <= i < after.keys.len() && 0 <= j < after.keys.len() && i != j implies spec_slots_apart(
            (#[trigger] after.keys[i]).info,
            (#[trigger] after.keys[j]).info,
        ) by {
            assert(spec_slots_apart(shard.keys[back(i)].info, shard.keys[back(j)].info));
        }
        assert forall|k: Seq<char>| expected.contains_key(k) <==> spec_shard_content(
            after,
        ).contains_key(k) by {
            if spec_has_key(shard.keys, k) && k != key {
                let i = spec_key_index(shard.keys, k);
                let a = if i < at {
                    i
                } else {
                    i - 1
                };
                assert(after.keys[a].key == k);
            }
            if spec_has_key(after.keys, k) {
                let i = spec_key_index(after.keys, k);
                assert(shard.keys[back(i)].key == k);
                assert(shard.keys[back(i)].key != shard.keys[at].key);
            }
        }
        assert forall|k: Seq<char>| expected.contains_key(k) implies expected[k]
            == spec_shard_content(after)[k] by {
            let i = spec_key_index(after.keys, k);
            assert(shard.keys[back(i)].key == k);
            lemma_key_at(shard.keys, back(i));
        }
        assert(spec_shard_content(after) =~= expected);
    } else {
        assert(spec_shard_content(after) =~= expected);
    }
}

/// Whether `bytes` can be stored for `key` in place, in the slot that the key has.
pub open spec fn spec_stores_in_place(shard: ShardView, key: Seq<char>, bytes: Seq<u8>) -> bool {
    spec_has_key(shard.keys, key) && shard.keys[spec_key_index(shard.keys, key)].info.capacity
        >= bytes.len()
}

/// Storing a value keeps the shard well formed; the shard then stores the value for
/// the key, and what it stored for other keys. A value that needs a new slot must leave
/// the values file within the size that the machine can address.
pub proof fn lemma_shard_store(shard: ShardView, key: Seq<char>, bytes: Seq<u8>)
    requires
        spec_shard_wf(shard),
        !spec_stores_in_place(shard, key, bytes) ==> shard.values.len() + 2 * bytes.len()
            <= usize::MAX,
    ensures
        spec_shard_wf(spec_shard_store(shard, key, bytes)),
        spec_shard_content(spec_shard_store(shard, key, bytes)) == spec_shard_content(
            shard,
        ).insert(key, bytes),
{
    if !spec_has_key(shard.keys, key) {
        lemma_shard_append(shard, key, bytes);
    } else {
        let after = spec_shard_store(shard, key, bytes);
        let expected = spec_shard_content(shard).insert(key, bytes);
        let at = spec_key_index(shard.keys, key);
        let info = shard.keys[at].info;
        let end = shard.values.len() as int;
        assert(spec_slot_fits(info, end));
        assert forall|i: int| 0 <= i < after.keys.len() implies (#[trigger] after.keys[i]).key
            == shard.keys[i].key by {}
        assert forall|i: int, j: int|
            0 <= i < after.keys.len() && 0 <= j < after.keys.len() && i != j implies (
        #[trigger] after.keys[i]).key != (#[trigger] after.keys[j]).key by {
            assert(shard.keys[i].key != shard.keys[j].key);
        }
        assert forall|i: int| 0 <= i < after.keys.len() implies spec_slot_fits(
            (#[trigger] after.keys[i]).info,
            after.values.len() as int,
        ) by {
            assert(spec_slot_fits(shard.keys[i].info, end));
        }
        assert forall|i: int, j: int|
            0 <= i < after.keys.len() && 0 <= j < after.keys.len() && i != j implies spec_slots_apart(
            (#[trigger] after.keys[i]).info,
            (#[trigger] after.keys[j]).info,
        ) by {
            assert(spec_slots_apart(shard.keys[i].info, shard.keys[j].info));
            assert(spec_slot_fits(shard.keys[i].info, end));
            assert(spec_slot_fits(shard.keys[j].info, end));
        }
        assert forall|k: Seq<char>| expected.contains_key(k) <==> spec_shard_content(
            after,
        ).contains_key(k) by {
            if spec_has_key(shard.keys, k) {
                let i = spec_key_index(shard.keys, k);
                assert(after.keys[i].key == k);
            }
            if spec_has_key(after.keys, k) {
                let i = spec_key_index(after.keys, k);
                assert(shard.keys[i].key == k);
            }
        }
        assert forall|k: Seq<char>| expected.contains_key(k) implies expected[k]
            == spec_shard_content(after)[k] by {
            let i = spec_key_index(after.keys, k);
            assert(shard.keys[i].key == k);
            lemma_key_at(shard.keys, i);
            if k == key {
                assert(i == at);
                assert(spec_slot_value(after.values, after.keys[i].info) =~= bytes);
            } else {
                assert(spec_slots_apart(shard.keys[i].info, shard.keys[at].info));
                assert(spec_slot_fits(shard.keys[i].info, end));
                assert(spec_slot_value(after.values, shard.keys[i].info) =~= spec_slot_value(
                    shard.values,
                    shard.keys[i].info,
                ));
            }
        }
        assert(spec_shard_content(after) =~= expected);
    }
}

/// The shard cut down to its first `count` keys; the values file stays whole.
pub open spec fn spec_shard_prefix(shard: ShardView, count: int) -> ShardView {
    ShardView { keys: shard.keys.take(count), values: shard.values }
}

/// The first `i + 1` keys store what the first `i` keys store, and the value of the key
/// at `i`, which is none of the first `i`.
pub proof fn lemma_prefix_content(shard: ShardView, i: int)
    requires
        spec_shard_wf(shard),
        0 <= i < shard.keys.len(),
    ensures
        !spec_has_key(spec_shard_prefix(shard, i).keys, shard.keys[i].key),
        spec_shard_wf(spec_shard_prefix(shard, i)),
        spec_shard_wf(spec_shard_prefix(shard, i + 1)),
        spec_shard_content(spec_shard_prefix(shard, i + 1)) == spec_shard_content(
            spec_shard_prefix(shard, i),
        ).insert(shard.keys[i].key, spec_slot_value(shard.values, shard.keys[i].info)),
{
    let short = spec_shard_prefix(shard, i);
    let long = spec_shard_prefix(shard, i + 1);
    let key = shard.keys[i].key;
    let expected = spec_shard_content(short).insert(
        key,
        spec_slot_value(shard.values, shard.keys[i].info),
    );
    assert forall|a: int| 0 <= a < long.keys.len() implies #[trigger] long.keys[a]
        == shard.keys[a] by {}
    assert forall|a: int| 0 <= a < short.keys.len() implies #[trigger] short.keys[a]
        == shard.keys[a] by {}
    if spec_has_key(short.keys, key) {
        let a = spec_key_index(short.keys, key);
        assert(shard.keys[a].key == shard.keys[i].key);
    }
    assert forall|k: Seq<char>| expected.contains_key(k) <==> spec_shard_content(
        long,
    ).contains_key(k) by {
        if spec_has_key(short.keys, k) {
            let a = spec_key_index(short.keys, k);
            assert(long.keys[a].key == k);
        }
        if k == key {
            assert(long.keys[i].key == k);
        }
        if spec_has_key(long.keys, k) {
            let a = spec_key_index(long.keys, k);
            if a < i {
                assert(short.keys[a].key == k);
            }
        }
    }
    assert forall|k: Seq<char>| expected.contains_key(k) implies expected[k] == spec_shard_content(
        long,
    )[k] by {
        let a = spec_key_index(long.keys, k);
        assert(shard.keys[a].key == k);
        lemma_key_at(shard.keys, a);
        if k != key {
            let b = spec_key_index(short.keys, k);
            assert(shard.keys[b].key == k);
            lemma_key_at(shard.keys, b);
        }
    }
    assert(spec_shard_content(long) =~= expected);
}

/// Appends `bytes` to `v`, followed by as many zero bytes.
pub fn append_bytes_with_same_size_padding(v: &mut Vec<u8>, bytes: &Vec<u8>)
    ensures
        final(v)@ == old(v)@ + spec_padded(bytes@),
{
    v.extend_from_slice(bytes.as_slice());
    let mut i: usize = 0;
    while i < bytes.len()
        invariant
            i <= bytes@.len(),
            v@ == old(v)@ + bytes@ + Seq::new(i as nat, |k: int| 0u8),
        decreases bytes@.len() - i,
    {
        v.push(0u8);
        i = i + 1;
        assert(v@ =~= old(v)@ + bytes@ + Seq::new(i as nat, |k: int| 0u8));
    }
    assert(v@ =~= old(v)@ + spec_padded(bytes@));
}

/// The keys of one shard, each with the place of its value.
pub struct BackupKeys {
    entries: Vec<BackupKey>,
}

impl View for BackupKeys {
    type V = Seq<BackupKeyView>;

    closed spec fn view(&self) -> Seq<BackupKeyView> {
        Seq::new(self.entries@.len(), |i: int| self.entries@[i]@)
    }
}

impl BackupKeys {
    /// No keys.
    pub fn default() -> (r: Self)
        ensures
            r@ == Seq::<BackupKeyView>::empty(),
    {
        let r = BackupKeys { entries: Vec::new() };
        assert(r@ =~= Seq::<BackupKeyView>::empty());
        r
    }

    /// The keys given, in the order given.
    pub fn from_entries(entries: Vec<BackupKey>) -> (r: Self)
        ensures
            r@ == Seq::new(entries@.len(), |i: int| entries@[i]@),
    {
        BackupKeys { entries }
    }

    /// Number of keys.
    pub fn len(&self) -> (r: usize)
        ensures
            r == self@.len(),
    {
        self.entries.len()
    }

    /// The key at `index`.
    pub fn entry(&self, index: usize) -> (r: &BackupKey)
        requires
            index < self@.len(),
        ensures
            r@ == self@[index as int],
    {
        &self.entries[index]
    }

    /// Position of `key`, if it is among the keys.
    pub fn find(&self, key: &String) -> (r: Option<usize>)
        ensures
            r is Some <==> spec_has_key(self@, key@),
            r matches Some(index) ==> index < self@.len() && self@[index as int].key == key@,
    {
        let mut i: usize = 0;
        while i < self.entries.len()
            invariant
                i <= self.entries@.len(),
                forall|k: int| 0 <= k < i ==> (#[trigger] self@[k]).key != key@,
            decreases self.entries@.len() - i,
        {
            if self.entries[i].key == *key {
                assert(self@[i as int].key == key@);
                return Some(i);
            }
            i = i + 1;
        }
        None
    }

    /// The useful size of the shard: the largest end of a slot, 0 without keys.
    pub fn size(&self) -> (r: usize)
        requires
            forall|i: int|
                0 <= i < self@.len() ==> (#[trigger] self@[i]).info.pos + self@[i].info.capacity
                    <= usize::MAX,
        ensures
            r == spec_useful_size(self@),
    {
        let mut size: usize = 0;
        let mut i: usize = 0;
        assert(self@.take(0) =~= Seq::<BackupKeyView>::empty());
        while i < self.entries.len()
            invariant
                i <= self.entries@.len(),
                size == spec_useful_size(self@.take(i as int)),
                forall|k: int|
                    0 <= k < self@.len() ==> (#[trigger] self@[k]).info.pos
                        + self@[k].info.capacity <= usize::MAX,
            decreases self.entries@.len() - i,
        {
            let info = self.entries[i].info;
            assert(info == self@[i as int].info);
            let end: usize = info.pos + info.capacity;
            proof {
                assert(self@.take(i + 1).drop_last() =~= self@.take(i as int));
                assert(self@.take(i + 1).last() == self@[i as int]);
            }
            if end > size {
                size = end;
            }
            i = i + 1;
        }
        assert(self@.take(i as int) =~= self@);
        size
    }
}

/// One shard: its keys and its values file.
pub struct Shard {
    keys: BackupKeys,
    values: Vec<u8>,
}

impl View for Shard {
    type V = ShardView;

    closed spec fn view(&self) -> ShardView {
        ShardView { keys: self.keys@, values: self.values@ }
    }
}

impl Shard {
    /// No key occurs twice, and the slots lie within the values file and apart.
    pub open spec fn wf(&self) -> bool {
        spec_shard_wf(self@)
    }

    /// What the shard stores.
    pub open spec fn content(&self) -> StoreView {
        spec_shard_content(self@)
    }

    /// A shard without keys, with an empty values file.
    pub fn new() -> (r: Self)
        ensures
            r.wf(),
            r@ == (ShardView { keys: Seq::empty(), values: Seq::empty() }),
            r.content() == Map::<Seq<char>, Seq<u8>>::empty(),
    {
        let r = Shard { keys: BackupKeys::default(), values: Vec::new() };
        assert(r.content() =~= Map::<Seq<char>, Seq<u8>>::empty());
        r
    }

    /// The keys of the shard.
    pub fn keys(&self) -> (r: &BackupKeys)
        ensures
            r@ == self@.keys,
    {
        &self.keys
    }

    /// The values file of the shard.
    pub fn values(&self) -> (r: &Vec<u8>)
        ensures
            r@ == self@.values,
    {
        &self.values
    }

    /// Tells whether a keys file and a values file make a well-formed shard.
    pub fn check(keys: &BackupKeys, values: &Vec<u8>) -> (r: bool)
        ensures
            r == spec_shard_wf(ShardView { keys: keys@, values: values@ }),
    {
        let ghost shard = ShardView { keys: keys@, values: values@ };
        let n: usize = keys.len();
        let total: usize = values.len();
        let mut i: usize = 0;
        while i < n
            invariant
                i <= n,
                n == keys@.len(),
                total == values@.len(),
                shard == (ShardView { keys: keys@, values: values@ }),
                forall|a: int|
                    0 <= a < i ==> spec_slot_fits(
                        (#[trigger] shard.keys[a]).info,
                        shard.values.len() as int,
                    ),
                forall|a: int, b: int|
                    0 <= a < i && 0 <= b < a ==> (#[trigger] shard.keys[a]).key != (
                    #[trigger] shard.keys[b]).key && spec_slots_apart(
                        shard.keys[a].info,
                        shard.keys[b].info,
                    ),
            decreases n - i,
        {
            let info = keys.entry(i).info;
            if info.content_size > info.capacity || info.capacity > total || info.pos > total
                - info.capacity {
                assert(!spec_slot_fits(shard.keys[i as int].info, shard.values.len() as int));
                return false;
            }
            let mut j: usize = 0;
            while j < i
                invariant
                    j <= i < n,
                    n == keys@.len(),
                    total == values@.len(),
                    shard == (ShardView { keys: keys@, values: values@ }),
                    info == shard.keys[i as int].info,
                    spec_slot_fits(info, shard.values.len() as int),
                    forall|b: int|
                        0 <= b < i ==> spec_slot_fits(
                            (#[trigger] shard.keys[b]).info,
                            shard.values.len() as int,
                        ),
                    forall|b: int|
                        0 <= b < j ==> (#[trigger] shard.keys[b]).key != shard.keys[i as int].key
                            && spec_slots_apart(info, shard.keys[b].info),
                decreases i - j,
            {
                let other = keys.entry(j);
                assert(other@ == shard.keys[j as int]);
                assert(spec_slot_fits(shard.keys[j as int].info, shard.values.len() as int));
                if other.key == keys.entry(i).key {
                    assert(shard.keys[i as int].key == shard.keys[j as int].key);
                    return false;
                }
                let apart = info.pos + info.capacity <= other.info.pos || other.info.pos
                    + other.info.capacity <= info.pos;
                if !apart {
                    assert(!spec_slots_apart(
                        shard.keys[i as int].info,
                        shard.keys[j as int].info,
                    ));
                    return false;
                }
                j = j + 1;
            }
            i = i + 1;
        }
        proof {
            assert forall|a: int, b: int|
                0 <= a < shard.keys.len() && 0 <= b < shard.keys.len() && a != b implies (
            #[trigger] shard.keys[a]).key != (#[trigger] shard.keys[b]).key by {
                if b < a {
                    assert(shard.keys[a].key != shard.keys[b].key);
                } else {
                    assert(shard.keys[b].key != shard.keys[a].key);
                }
            }
            assert forall|a: int, b: int|
                0 <= a < shard.keys.len() && 0 <= b < shard.keys.len() && a != b implies spec_slots_apart(
                (#[trigger] shard.keys[a]).info,
                (#[trigger] shard.keys[b]).info,
            ) by {
                if b < a {
                    assert(spec_slots_apart(shard.keys[a].info, shard.keys[b].info));
                } else {
                    assert(spec_slots_apart(shard.keys[b].info, shard.keys[a].info));
                }
            }
        }
        true
    }

    /// The shard made of a keys file and a values file, if they make a well-formed one.
    pub fn from_parts(keys: BackupKeys, values: Vec<u8>) -> (r: Option<Self>)
        ensures
            r is Some <==> spec_shard_wf(ShardView { keys: keys@, values: values@ }),
            r matches Some(shard) ==> shard@ == (ShardView { keys: keys@, values: values@ }),
    {
        if Self::check(&keys, &values) {
            Some(Shard { keys, values })
        } else {
            None
        }
    }

    /// The useful size of the shard.
    pub fn useful_size(&self) -> (r: usize)
        requires
            self.wf(),
        ensures
            r == spec_useful_size(self@.keys),
    {
        proof {
            assert forall|i: int| 0 <= i < self.keys@.len() implies (#[trigger] self.keys@[i]).info.pos
                + self.keys@[i].info.capacity <= usize::MAX by {
                assert(spec_slot_fits(self@.keys[i].info, self@.values.len() as int));
                assert(self.values@.len() == self.values.len());
            }
        }
        self.keys.size()
    }

    /// Drops `key` from the keys, if it is among them.
    pub fn remove_key(&mut self, key: &String)
        requires
            old(self).wf(),
        ensures
            final(self).wf(),
            final(self)@ == spec_shard_remove(old(self)@, key@),
            final(self).content() == old(self).content().remove(key@),
    {
        proof {
            lemma_shard_remove(self@, key@);
        }
        match self.keys.find(key) {
            Some(index) => {
                proof {
                    lemma_key_at(self@.keys, index as int);
                }
                self.keys.entries.remove(index);
                assert(self@.keys =~= old(self)@.keys.remove(index as int));
            },
            None => {},
        }
    }

    /// Adds a key that the shard does not have, with its value in a new slot at the end
    /// of the values file.
    fn append(&mut self, key: String, bytes: &Vec<u8>)
        requires
            old(self).wf(),
            !spec_has_key(old(self)@.keys, key@),
        ensures
            final(self).wf(),
            final(self)@ == spec_shard_append(old(self)@, key@, bytes@),
            final(self).content() == old(self).content().insert(key@, bytes@),
    {
        let pos: usize = self.values.len();
        append_bytes_with_same_size_padding(&mut self.values, bytes);
        let capacity: usize = self.values.len() - pos;
        self.keys.entries.push(BackupKey { key, info: BackupKeyInfo::new(bytes.len(), capacity, pos) });
        proof {
            lemma_shard_append(old(self)@, key@, bytes@);
            assert(self@.keys =~= spec_shard_append(old(self)@, key@, bytes@).keys);
        }
    }

    /// Stores `bytes` for `key`: in the key's slot if it has one that holds them, else
    /// in a new slot at the end of the values file.
    pub fn store(&mut self, key: &String, bytes: &Vec<u8>)
        requires
            old(self).wf(),
        ensures
            final(self).wf(),
            final(self)@ == spec_shard_store(old(self)@, key@, bytes@),
            final(self).content() == old(self).content().insert(key@, bytes@),
    {
        match self.keys.find(key) {
            Some(index) => {
                let info = self.keys.entries[index].info;
                proof {
                    lemma_key_at(self@.keys, index as int);
                    assert(spec_slot_fits(self@.keys[index as int].info, self@.values.len() as int));
                }
                if info.capacity >= bytes.len() {
                    let total: usize = self.values.len();
                    let mut i: usize = 0;
                    while i < bytes.len()
                        invariant
                            i <= bytes@.len(),
                            total == self.values@.len(),
                            info.pos + bytes@.len() <= total,
                            self.values@ == spec_overwrite(
                                old(self).values@,
                                info.pos as int,
                                bytes@.take(i as int),
                            ),
                            self.keys == old(self).keys,
                        decreases bytes@.len() - i,
                    {
                        self.values.set(info.pos + i, bytes[i]);
                        i = i + 1;
                        assert(self.values@ =~= spec_overwrite(
                            old(self).values@,
                            info.pos as int,
                            bytes@.take(i as int),
                        ));
                    }
                    assert(bytes@.take(i as int) =~= bytes@);
                    self.keys.entries.set(
                        index,
                        BackupKey {
                            key: key.clone(),
                            info: BackupKeyInfo::new(bytes.len(), info.capacity, info.pos),
                        },
                    );
                    proof {
                        lemma_shard_store(old(self)@, key@, bytes@);
                        assert(self@.keys =~= spec_shard_store(old(self)@, key@, bytes@).keys);
                    }
                } else {
                    let pos: usize = self.values.len();
                    append_bytes_with_same_size_padding(&mut self.values, bytes);
                    let capacity: usize = self.values.len() - pos;
                    self.keys.entries.set(
                        index,
                        BackupKey {
                            key: key.clone(),
                            info: BackupKeyInfo::new(bytes.len(), capacity, pos),
                        },
                    );
                    proof {
                        lemma_shard_store(old(self)@, key@, bytes@);
                        assert(self@.keys =~= spec_shard_store(old(self)@, key@, bytes@).keys);
                    }
                }
            },
            None => {
                self.append(key.clone(), bytes);
            },
        }
    }

    /// Flushes the changes of one changeset: the removals first, then the updates.
    pub fn apply_changeset(&mut self, changes: &Changeset)
        requires
            old(self).wf(),
        ensures
            final(self).wf(),
            final(self)@ == spec_shard_apply(old(self)@, changes@),
            final(self).content() == spec_changeset_effect(old(self).content(), changes@),
    {
        let ghost removals = changes@.removals;
        let ghost updates = changes@.updates;
        let mut i: usize = 0;
        assert(removals.take(0) =~= Seq::<Seq<char>>::empty());
        while i < changes.removals_len()
            invariant
                i <= removals.len(),
                removals == changes@.removals,
                self.wf(),
                self@ == spec_shard_remove_all(old(self)@, removals.take(i as int)),
                self.content() == spec_remove_all(old(self).content(), removals.take(i as int)),
            decreases removals.len() - i,
        {
            proof {
                assert(removals.take(i + 1).drop_last() =~= removals.take(i as int));
                assert(removals.take(i + 1).last() == removals[i as int]);
            }
            self.remove_key(changes.removal(i));
            i = i + 1;
        }
        assert(removals.take(i as int) =~= removals);
        let ghost removed = self@;
        let ghost removed_content = self.content();
        let mut j: usize = 0;
        assert(updates.take(0) =~= Seq::<UpdateView>::empty());
        while j < changes.updates_len()
            invariant
                j <= updates.len(),
                updates == changes@.updates,
                self.wf(),
                self@ == spec_shard_store_all(removed, updates.take(j as int)),
                self.content() == spec_insert_all(removed_content, updates.take(j as int)),
            decreases updates.len() - j,
        {
            proof {
                assert(updates.take(j + 1).drop_last() =~= updates.take(j as int));
                assert(updates.take(j + 1).last() == updates[j as int]);
            }
            let update = changes.update(j);
            self.store(&update.key, &update.value);
            j = j + 1;
        }
        assert(updates.take(j as int) =~= updates);
    }

    /// The two halves of the shard for a split: the keys that the half `lhs` owns, and
    /// the others, each key with its value in a new slot.
    pub fn split(&self, lhs: ShardFileInfo) -> (r: (Shard, Shard))
        requires
            self.wf(),
        ensures
            r.0.wf(),
            r.1.wf(),
            r.0@ == spec_shard_half(self@, lhs, true),
            r.1@ == spec_shard_half(self@, lhs, false),
            r.0.content() == self.content().restrict(
                Set::new(|key: Seq<char>| spec_goes_left(lhs, key)),
            ),
            r.1.content() == self.content().restrict(
                Set::new(|key: Seq<char>| !spec_goes_left(lhs, key)),
            ),
    {
        let mut left = Shard::new();
        let mut right = Shard::new();
        let ghost goes = Set::new(|key: Seq<char>| spec_goes_left(lhs, key));
        let ghost stays = Set::new(|key: Seq<char>| !spec_goes_left(lhs, key));
        let mut i: usize = 0;
        proof {
            assert(self@.keys.take(0) =~= Seq::<BackupKeyView>::empty());
            assert(spec_shard_content(spec_shard_prefix(self@, 0)) =~= Map::<
                Seq<char>,
                Seq<u8>,
            >::empty());
            assert(left.content() =~= spec_shard_content(spec_shard_prefix(self@, 0)).restrict(goes));
            assert(right.content() =~= spec_shard_content(spec_shard_prefix(self@, 0)).restrict(
                stays,
            ));
        }
        while i < self.keys.len()
            invariant
                i <= self@.keys.len(),
                self.wf(),
                left.wf(),
                right.wf(),
                goes == Set::new(|key: Seq<char>| spec_goes_left(lhs, key)),
                stays == Set::new(|key: Seq<char>| !spec_goes_left(lhs, key)),
                left@ == spec_shard_half(spec_shard_prefix(self@, i as int), lhs, true),
                right@ == spec_shard_half(spec_shard_prefix(self@, i as int), lhs, false),
                left.content() == spec_shard_content(spec_shard_prefix(self@, i as int)).restrict(
                    goes,
                ),
                right.content() == spec_shard_content(spec_shard_prefix(self@, i as int)).restrict(
                    stays,
                ),
            decreases self@.keys.len() - i,
        {
            let entry = self.keys.entry(i);
            let info = entry.info;
            proof {
                lemma_prefix_content(self@, i as int);
                assert(spec_slot_fits(self@.keys[i as int].info, self@.values.len() as int));
                assert(spec_shard_prefix(self@, i + 1).keys.drop_last() =~= spec_shard_prefix(
                    self@,
                    i as int,
                ).keys);
                assert(spec_shard_prefix(self@, i + 1).keys.last() == self@.keys[i as int]);
            }
            let total: usize = self.values.len();
            let value = copy_range(&self.values, info.pos, info.pos + info.content_size);
            let hash: u64 = hash_for_key(&entry.key);
            let ghost before = spec_shard_content(spec_shard_prefix(self@, i as int));
            let ghost after = spec_shard_content(spec_shard_prefix(self@, i + 1));
            if lhs.mod_base > 0 && hash % lhs.mod_base == lhs.mod_value {
                assert(spec_goes_left(lhs, entry.key@));
                assert(!left.content().contains_key(entry.key@));
                left.append(entry.key.clone(), &value);
                assert(left.content() =~= after.restrict(goes));
                assert(right.content() =~= after.restrict(stays));
            } else {
                assert(!spec_goes_left(lhs, entry.key@));
                assert(!right.content().contains_key(entry.key@));
                right.append(entry.key.clone(), &value);
                assert(left.content() =~= after.restrict(goes));
                assert(right.content() =~= after.restrict(stays));
            }
            i = i + 1;
        }
        assert(spec_shard_prefix(self@, i as int) =~= self@) by {
            assert(self@.keys.take(i as int) =~= self@.keys);
        }
        (left, right)
    }

    /// Sets every key of the shard in `storage` to the value the shard holds for it.
    pub fn restore_into(&self, storage: &mut Storage)
        requires
            self.wf(),
        ensures
            final(storage)@ == old(storage)@.union_prefer_right(self.content()),
    {
        let mut i: usize = 0;
        proof {
            assert(self@.keys.take(0) =~= Seq::<BackupKeyView>::empty());
            assert(spec_shard_content(spec_shard_prefix(self@, 0)) =~= Map::<
                Seq<char>,
                Seq<u8>,
            >::empty());
            assert(storage@ =~= old(storage)@.union_prefer_right(
                spec_shard_content(spec_shard_prefix(self@, 0)),
            ));
        }
        while i < self.keys.len()
            invariant
                i <= self@.keys.len(),
                self.wf(),
                storage@ == old(storage)@.union_prefer_right(
                    spec_shard_content(spec_shard_prefix(self@, i as int)),
                ),
            decreases self@.keys.len() - i,
        {
            let entry = self.keys.entry(i);
            let info = entry.info;
            proof {
                lemma_prefix_content(self@, i as int);
                assert(spec_slot_fits(self@.keys[i as int].info, self@.values.len() as int));
            }
            let total: usize = self.values.len();
            let value = copy_range(&self.values, info.pos, info.pos + info.content_size);
            storage.set(entry.key.clone(), value);
            i = i + 1;
            assert(storage@ =~= old(storage)@.union_prefer_right(
                spec_shard_content(spec_shard_prefix(self@, i as int)),
            ));
        }
        assert(spec_shard_prefix(self@, i as int) =~= self@) by {
            assert(self@.keys.take(i as int) =~= self@.keys);
        }
    }
}

} // verus!
