//! The backup as a mathematical object: shards that fit a registry, what they store
//! together, and what flushing changes and splitting shards does to them.

use crate::backup_keys::{
    spec_goes_left, spec_has_key, spec_shard_apply, spec_shard_content, spec_shard_half,
    spec_shard_wf, spec_useful_size, ShardView,
};
use crate::changeset::{
    spec_changeset_effect, spec_insert_all, spec_record_delete, spec_record_set, spec_remove_all,
    ChangesetView, UpdateView,
};
use crate::interpreter::CommandView;
use crate::shard_registry::{
    lemma_halves_own, lemma_split_partition, spec_halves, spec_has_owner, spec_hash_for_key,
    spec_is_random_name, spec_owner, spec_owns, spec_partition, spec_split_infos,
    spec_split_names, ShardFileInfo,
};
use crate::storage::{spec_execute_store, StoreView};
use vstd::prelude::*;

verus! {

/// Position of the shard that owns `key`.
pub open spec fn spec_key_owner(infos: Seq<ShardFileInfo>, key: Seq<char>) -> int {
    spec_owner(infos, spec_hash_for_key(key))
}

/// Whether shards fit a registry: there is one shard for each entry, each is well
/// formed, and each holds only keys that its entry owns.
pub open spec fn spec_shards_fit(infos: Seq<ShardFileInfo>, shards: Seq<ShardView>) -> bool {
    &&& shards.len() == infos.len()
    &&& spec_partition(infos)
    &&& forall|i: int| 0 <= i < shards.len() ==> spec_shard_wf(#[trigger] shards[i])
    &&& forall|i: int, key: Seq<char>|
        0 <= i < shards.len() && #[trigger] spec_has_key(shards[i].keys, key) ==> spec_key_owner(
            infos,
            key,
        ) == i
}

/// What the shards store together: for each key, what the shard that owns it stores.
pub open spec fn spec_stored(infos: Seq<ShardFileInfo>, shards: Seq<ShardView>) -> StoreView {
    Map::new(
        |key: Seq<char>| spec_has_key(shards[spec_key_owner(infos, key)].keys, key),
        |key: Seq<char>| spec_shard_content(shards[spec_key_owner(infos, key)])[key],
    )
}

/// Whether `changes` speak of `key`.
pub open spec fn spec_mentions(changes: ChangesetView, key: Seq<char>) -> bool {
    changes.removals.contains(key) || exists|i: int|
        0 <= i < changes.updates.len() && (#[trigger] changes.updates[i]).key == key
}

/// Whether two stores hold the same for `key`.
pub open spec fn spec_agree(a: StoreView, b: StoreView, key: Seq<char>) -> bool {
    a.contains_key(key) == b.contains_key(key) && (a.contains_key(key) ==> a[key] == b[key])
}

/// Stores that hold the same for every key are the same store.
pub proof fn lemma_agree_everywhere(a: StoreView, b: StoreView)
    requires
        forall|key: Seq<char>| #[trigger] spec_agree(a, b, key),
    ensures
        a == b,
{
    assert forall|key: Seq<char>| a.contains_key(key) <==> b.contains_key(key) by {
        assert(spec_agree(a, b, key));
    }
    assert forall|key: Seq<char>| a.contains_key(key) implies a[key] == b[key] by {
        assert(spec_agree(a, b, key));
    }
    assert(a =~= b);
}

proof fn lemma_remove_all_at(a: StoreView, b: StoreView, removals: Seq<Seq<char>>, key: Seq<char>)
    ensures
        spec_agree(a, b, key) ==> spec_agree(
            spec_remove_all(a, removals),
            spec_remove_all(b, removals),
            key,
        ),
        !removals.contains(key) ==> spec_agree(spec_remove_all(a, removals), a, key),
    decreases removals.len(),
{
    if removals.len() > 0 {
        lemma_remove_all_at(a, b, removals.drop_last(), key);
        if !removals.contains(key) {
            assert(removals.last() == removals[removals.len() - 1]);
            assert forall|i: int| 0 <= i < removals.drop_last().len() implies removals.drop_last()[i]
                != key by {
                assert(removals.drop_last()[i] == removals[i]);
            }
        }
    }
}

proof fn lemma_insert_all_at(a: StoreView, b: StoreView, updates: Seq<UpdateView>, key: Seq<char>)
    ensures
        spec_agree(a, b, key) ==> spec_agree(
            spec_insert_all(a, updates),
            spec_insert_all(b, updates),
            key,
        ),
        (forall|i: int| 0 <= i < updates.len() ==> (#[trigger] updates[i]).key != key)
            ==> spec_agree(spec_insert_all(a, updates), a, key),
    decreases updates.len(),
{
    if updates.len() > 0 {
        lemma_insert_all_at(a, b, updates.drop_last(), key);
        if forall|i: int| 0 <= i < updates.len() ==> (#[trigger] updates[i]).key != key {
            assert(updates.last() == updates[updates.len() - 1]);
            assert forall|i: int| 0 <= i < updates.drop_last().len() implies (
            #[trigger] updates.drop_last()[i]).key != key by {
                assert(updates.drop_last()[i] == updates[i]);
            }
        }
    }
}

/// A flush treats every key by itself: stores that hold the same for a key still do
/// after the same flush, and a key that the changes do not speak of is left as it was.
pub proof fn lemma_effect_at(a: StoreView, b: StoreView, changes: ChangesetView, key: Seq<char>)
    ensures
        spec_agree(a, b, key) ==> spec_agree(
            spec_changeset_effect(a, changes),
            spec_changeset_effect(b, changes),
            key,
        ),
        !spec_mentions(changes, key) ==> spec_agree(spec_changeset_effect(a, changes), a, key),
{
    lemma_remove_all_at(a, b, changes.removals, key);
    lemma_insert_all_at(
        spec_remove_all(a, changes.removals),
        spec_remove_all(b, changes.removals),
        changes.updates,
        key,
    );
    lemma_insert_all_at(
        spec_remove_all(a, changes.removals),
        spec_remove_all(a, changes.removals),
        changes.updates,
        key,
    );
}

/// Flushing changes into the shard that owns every key they speak of keeps the shards
/// fitting the registry, and does to what the shards store together what the flush does
/// to a store.
pub proof fn lemma_flush_shard(
    infos: Seq<ShardFileInfo>,
    shards: Seq<ShardView>,
    index: int,
    changes: ChangesetView,
    flushed: ShardView,
)
    requires
        spec_shards_fit(infos, shards),
        0 <= index < shards.len(),
        forall|key: Seq<char>| #[trigger]
            spec_mentions(changes, key) ==> spec_key_owner(infos, key) == index,
        spec_shard_wf(flushed),
        spec_shard_content(flushed) == spec_changeset_effect(
            spec_shard_content(shards[index]),
            changes,
        ),
    ensures
        spec_shards_fit(infos, shards.update(index, flushed)),
        spec_stored(infos, shards.update(index, flushed)) == spec_changeset_effect(
            spec_stored(infos, shards),
            changes,
        ),
{
    let after = shards.update(index, flushed);
    let before_store = spec_stored(infos, shards);
    let expected = spec_changeset_effect(before_store, changes);
    let shard_store = spec_shard_content(shards[index]);
    assert forall|i: int, key: Seq<char>|
        0 <= i < after.len() && #[trigger] spec_has_key(after[i].keys, key) implies spec_key_owner(
        infos,
        key,
    ) == i by {
        if i == index {
            assert(spec_shard_content(flushed).contains_key(key));
            lemma_effect_at(shard_store, shard_store, changes, key);
            if !spec_mentions(changes, key) {
                assert(spec_has_key(shards[index].keys, key));
            }
        } else {
            assert(spec_has_key(shards[i].keys, key));
        }
    }
    assert forall|key: Seq<char>| #[trigger]
        spec_agree(spec_stored(infos, after), expected, key) by {
        assert(spec_has_owner(infos, spec_hash_for_key(key)));
        let owner = spec_key_owner(infos, key);
        if owner == index {
            assert(spec_agree(shard_store, before_store, key));
            lemma_effect_at(shard_store, before_store, changes, key);
        } else {
            lemma_effect_at(before_store, before_store, changes, key);
        }
    }
    lemma_agree_everywhere(spec_stored(infos, after), expected);
}

/// The shards after the one at `index` was split into `left` and `right`.
pub open spec fn spec_split_shards(
    shards: Seq<ShardView>,
    index: int,
    left: ShardView,
    right: ShardView,
) -> Seq<ShardView> {
    shards.update(index, left).insert(index + 1, right)
}

/// Splitting a shard keeps the shards fitting the registry and changes nothing in what
/// they store together.
pub proof fn lemma_split_shard(
    infos: Seq<ShardFileInfo>,
    shards: Seq<ShardView>,
    index: int,
    left: ShardView,
    right: ShardView,
)
    requires
        spec_shards_fit(infos, shards),
        0 <= index < shards.len(),
        2 * infos[index].mod_base <= u64::MAX,
        spec_shard_wf(left),
        spec_shard_wf(right),
        spec_shard_content(left) == spec_shard_content(shards[index]).restrict(
            Set::new(|key: Seq<char>| spec_goes_left(spec_halves(infos[index]).0, key)),
        ),
        spec_shard_content(right) == spec_shard_content(shards[index]).restrict(
            Set::new(|key: Seq<char>| !spec_goes_left(spec_halves(infos[index]).0, key)),
        ),
    ensures
        spec_shards_fit(spec_split_infos(infos, index), spec_split_shards(shards, index, left, right)),
        spec_stored(spec_split_infos(infos, index), spec_split_shards(shards, index, left, right))
            == spec_stored(infos, shards),
{
    let infos2 = spec_split_infos(infos, index);
    let shards2 = spec_split_shards(shards, index, left, right);
    let lhs = spec_halves(infos[index]).0;
    let old_content = spec_shard_content(shards[index]);
    lemma_split_partition(infos, index);
    assert forall|i: int| 0 <= i < shards2.len() implies spec_shard_wf(#[trigger] shards2[i]) by {
        if i < index {
            assert(shards2[i] == shards[i]);
        } else if i > index + 1 {
            assert(shards2[i] == shards[i - 1]);
        }
    }
    assert forall|i: int, key: Seq<char>|
        0 <= i < shards2.len() && #[trigger] spec_has_key(shards2[i].keys, key) implies spec_key_owner(
        infos2,
        key,
    ) == i by {
        let hash = spec_hash_for_key(key);
        let owner = spec_owner(infos2, hash);
        lemma_halves_own(infos[index], hash);
        if i < index {
            assert(shards2[i] == shards[i]);
            assert(spec_has_key(shards[i].keys, key));
        } else if i > index + 1 {
            assert(shards2[i] == shards[i - 1]);
            assert(spec_has_key(shards[i - 1].keys, key));
        } else if i == index {
            assert(spec_shard_content(left).contains_key(key));
            assert(old_content.contains_key(key));
            assert(spec_has_key(shards[index].keys, key));
        } else {
            assert(spec_shard_content(right).contains_key(key));
            assert(old_content.contains_key(key));
            assert(spec_has_key(shards[index].keys, key));
        }
    }
    assert forall|key: Seq<char>| #[trigger]
        spec_agree(spec_stored(infos2, shards2), spec_stored(infos, shards), key) by {
        let hash = spec_hash_for_key(key);
        assert(spec_has_owner(infos, hash));
        let before = spec_owner(infos, hash);
        let after = spec_owner(infos2, hash);
        lemma_halves_own(infos[index], hash);
        if before < index {
            assert(shards2[after] == shards[before]);
        } else if before > index {
            assert(shards2[after] == shards[before]);
        } else if spec_owns(lhs, hash) {
            assert(shards2[after] == left);
            assert(spec_shard_content(left).contains_key(key) == old_content.contains_key(key));
        } else {
            assert(shards2[after] == right);
            assert(spec_shard_content(right).contains_key(key) == old_content.contains_key(key));
        }
    }
    lemma_agree_everywhere(spec_stored(infos2, shards2), spec_stored(infos, shards));
}

/// What the first `count` shards store together.
pub open spec fn spec_stored_upto(
    infos: Seq<ShardFileInfo>,
    shards: Seq<ShardView>,
    count: int,
) -> StoreView {
    Map::new(
        |key: Seq<char>|
            spec_key_owner(infos, key) < count && spec_has_key(
                shards[spec_key_owner(infos, key)].keys,
                key,
            ),
        |key: Seq<char>| spec_shard_content(shards[spec_key_owner(infos, key)])[key],
    )
}

/// Restoring one more shard on top of the shards before it.
pub proof fn lemma_stored_upto_step(
    infos: Seq<ShardFileInfo>,
    shards: Seq<ShardView>,
    count: int,
    store: StoreView,
)
    requires
        spec_shards_fit(infos, shards),
        0 <= count < shards.len(),
    ensures
        store.union_prefer_right(spec_stored_upto(infos, shards, count)).union_prefer_right(
            spec_shard_content(shards[count]),
        ) == store.union_prefer_right(spec_stored_upto(infos, shards, count + 1)),
{
    let lhs = store.union_prefer_right(spec_stored_upto(infos, shards, count)).union_prefer_right(
        spec_shard_content(shards[count]),
    );
    let rhs = store.union_prefer_right(spec_stored_upto(infos, shards, count + 1));
    assert forall|key: Seq<char>| #[trigger] spec_agree(lhs, rhs, key) by {
        assert(spec_has_owner(infos, spec_hash_for_key(key)));
        let owner = spec_key_owner(infos, key);
        if spec_has_key(shards[count].keys, key) {
            assert(owner == count);
        }
    }
    lemma_agree_everywhere(lhs, rhs);
}

/// The changes that one command brings to a store, as a changeset.
pub open spec fn spec_changes_of(command: CommandView) -> ChangesetView {
    let nothing = ChangesetView { updates: Seq::empty(), removals: Seq::empty() };
    match command {
        CommandView::SetValue { key, value } => spec_record_set(nothing, key, value),
        CommandView::Delete { key } => spec_record_delete(nothing, key),
        _ => nothing,
    }
}

/// Flushing the changes of one command does to a store what the command does.
pub proof fn lemma_changes_of(store: StoreView, command: CommandView)
    ensures
        spec_changeset_effect(store, spec_changes_of(command)) == spec_execute_store(
            store,
            command,
        ),
{
    reveal_with_fuel(spec_insert_all, 2);
    reveal_with_fuel(spec_remove_all, 2);
    let changes = spec_changes_of(command);
    match command {
        CommandView::SetValue { key, value } => {
            assert(changes.updates =~= seq![UpdateView { key, value }]);
            assert(changes.updates.drop_last() =~= Seq::<UpdateView>::empty());
        },
        CommandView::Delete { key } => {
            assert(changes.removals =~= seq![key]);
            assert(changes.removals.drop_last() =~= Seq::<Seq<char>>::empty());
        },
        _ => {},
    }
}

/// The changes that await a flush for one shard.
pub struct PendingView {
    pub filehash: Seq<char>,
    pub changes: ChangesetView,
}

/// A store after the flush of each of the pending changesets, in order.
pub open spec fn spec_flush_all(store: StoreView, pending: Seq<PendingView>) -> StoreView
    decreases pending.len(),
{
    if pending.len() == 0 {
        store
    } else {
        spec_changeset_effect(spec_flush_all(store, pending.drop_last()), pending.last().changes)
    }
}

/// The shards after the flush of each of the pending changesets, in order: each goes
/// into the shard that bears its name.
pub open spec fn spec_flush_views(
    names: Seq<Seq<char>>,
    shards: Seq<ShardView>,
    pending: Seq<PendingView>,
) -> Seq<ShardView>
    decreases pending.len(),
{
    if pending.len() == 0 {
        shards
    } else {
        let before = spec_flush_views(names, shards, pending.drop_last());
        let at = names.index_of(pending.last().filehash);
        before.update(at, spec_shard_apply(before[at], pending.last().changes))
    }
}

/// The shards after the change that `command` brings was flushed: a `SetValue` or a
/// `Delete` goes into the shard that owns the key, other commands change nothing.
pub open spec fn spec_logged_views(
    infos: Seq<ShardFileInfo>,
    shards: Seq<ShardView>,
    command: CommandView,
) -> Seq<ShardView> {
    match command {
        CommandView::SetValue { key, .. } => {
            let at = spec_key_owner(infos, key);
            shards.update(at, spec_shard_apply(shards[at], spec_changes_of(command)))
        },
        CommandView::Delete { key } => {
            let at = spec_key_owner(infos, key);
            shards.update(at, spec_shard_apply(shards[at], spec_changes_of(command)))
        },
        _ => shards,
    }
}

/// Whether a shard is due a split: its useful size has reached the break limit.
pub open spec fn spec_is_due(shard: ShardView, break_limit: usize) -> bool {
    spec_useful_size(shard.keys) >= break_limit
}

/// One shard of a backup: its name, its part of the hash space, what its files hold, and
/// whether it is marked as touched.
pub struct ShardEntry {
    pub name: Seq<char>,
    pub info: ShardFileInfo,
    pub shard: ShardView,
    pub touched: bool,
}

/// The shards of a backup, put together from their names, their parts of the hash
/// space, their contents and their marks.
pub open spec fn spec_entries(
    names: Seq<Seq<char>>,
    infos: Seq<ShardFileInfo>,
    shards: Seq<ShardView>,
    touched: Seq<bool>,
) -> Seq<ShardEntry> {
    Seq::new(
        names.len(),
        |i: int| ShardEntry { name: names[i], info: infos[i], shard: shards[i], touched: touched[i] },
    )
}

/// Whether a shard can be halved: it is due a split, and its base can double.
pub open spec fn spec_can_halve(entry: ShardEntry, break_limit: usize) -> bool {
    spec_is_due(entry.shard, break_limit) && 2 * entry.info.mod_base <= u64::MAX
}

/// Whether `left` and `right` are the halves of `entry`: the base is doubled, the keys
/// that the first half owns went to `left` and the others to `right`, each with its value
/// in a new slot; both are marked, and both bear generated names.
pub open spec fn spec_is_halves(entry: ShardEntry, left: ShardEntry, right: ShardEntry) -> bool {
    &&& left.info == spec_halves(entry.info).0
    &&& right.info == spec_halves(entry.info).1
    &&& left.shard == spec_shard_half(entry.shard, spec_halves(entry.info).0, true)
    &&& right.shard == spec_shard_half(entry.shard, spec_halves(entry.info).0, false)
    &&& left.touched
    &&& right.touched
    &&& spec_is_random_name(left.name)
    &&& spec_is_random_name(right.name)
}

/// Whether `after` is what a round of splits makes of `before`: shard by shard and in
/// order, a shard stands as it was, or, if it can be halved, its two halves stand in its
/// place. A shard that cannot be halved always stands as it was.
pub open spec fn spec_resharded(
    before: Seq<ShardEntry>,
    after: Seq<ShardEntry>,
    break_limit: usize,
) -> bool
    decreases before.len(),
{
    if before.len() == 0 {
        after.len() == 0
    } else {
        ||| {
            &&& after.len() >= 1
            &&& after[0] == before[0]
            &&& spec_resharded(before.skip(1), after.skip(1), break_limit)
        }
        ||| {
            &&& spec_can_halve(before[0], break_limit)
            &&& after.len() >= 2
            &&& spec_is_halves(before[0], after[0], after[1])
            &&& spec_resharded(before.skip(1), after.skip(2), break_limit)
        }
    }
}

/// A round of splits that leaves the shard at `i` as it was.
pub proof fn lemma_resharded_whole(
    before: Seq<ShardEntry>,
    after: Seq<ShardEntry>,
    i: int,
    break_limit: usize,
)
    requires
        0 <= i < before.len(),
        i < after.len(),
        after[i] == before[i],
        spec_resharded(before.skip(i + 1), after.skip(i + 1), break_limit),
    ensures
        spec_resharded(before.skip(i), after.skip(i), break_limit),
{
    assert(before.skip(i).skip(1) =~= before.skip(i + 1));
    assert(after.skip(i).skip(1) =~= after.skip(i + 1));
    assert(after.skip(i)[0] == before.skip(i)[0]);
}

/// A round of splits that puts the halves of the shard at `i` in its place.
pub proof fn lemma_resharded_halved(
    before: Seq<ShardEntry>,
    after: Seq<ShardEntry>,
    i: int,
    break_limit: usize,
)
    requires
        0 <= i < before.len(),
        i + 1 < after.len(),
        spec_can_halve(before[i], break_limit),
        spec_is_halves(before[i], after[i], after[i + 1]),
        spec_resharded(before.skip(i + 1), after.skip(i + 2), break_limit),
    ensures
        spec_resharded(before.skip(i), after.skip(i), break_limit),
{
    assert(before.skip(i).skip(1) =~= before.skip(i + 1));
    assert(after.skip(i).skip(2) =~= after.skip(i + 2));
    assert(after.skip(i)[0] == after[i]);
    assert(after.skip(i)[1] == after[i + 1]);
    assert(before.skip(i)[0] == before[i]);
}

/// The shards after the one at `index` was split: the shards before it stand as they
/// were, the two halves stand at `index`, marked, and the shards after it follow.
pub proof fn lemma_entries_after_split(
    names: Seq<Seq<char>>,
    infos: Seq<ShardFileInfo>,
    shards: Seq<ShardView>,
    touched: Seq<bool>,
    index: int,
    lhs: Seq<char>,
    rhs: Seq<char>,
    left: ShardView,
    right: ShardView,
)
    requires
        0 <= index < names.len(),
        names.len() == infos.len(),
        names.len() == shards.len(),
        names.len() == touched.len(),
    ensures
        ({
            let before = spec_entries(names, infos, shards, touched);
            let after = spec_entries(
                spec_split_names(names, index, lhs, rhs),
                spec_split_infos(infos, index),
                spec_split_shards(shards, index, left, right),
                touched.update(index, true).insert(index + 1, true),
            );
            &&& after.len() == before.len() + 1
            &&& forall|k: int| 0 <= k < index ==> #[trigger] after[k] == before[k]
            &&& after[index] == (ShardEntry {
                name: lhs,
                info: spec_halves(infos[index]).0,
                shard: left,
                touched: true,
            })
            &&& after[index + 1] == (ShardEntry {
                name: rhs,
                info: spec_halves(infos[index]).1,
                shard: right,
                touched: true,
            })
            &&& after.skip(index + 2) == before.skip(index + 1)
        }),
{
    let before = spec_entries(names, infos, shards, touched);
    let after = spec_entries(
        spec_split_names(names, index, lhs, rhs),
        spec_split_infos(infos, index),
        spec_split_shards(shards, index, left, right),
        touched.update(index, true).insert(index + 1, true),
    );
    assert(after.skip(index + 2) =~= before.skip(index + 1));
}

/// Whether none of the shards is due a split.
pub open spec fn spec_none_due(shards: Seq<ShardView>, break_limit: usize) -> bool {
    forall|i: int| 0 <= i < shards.len() ==> !spec_is_due(#[trigger] shards[i], break_limit)
}

/// What awaits a flush once `command` was observed and nothing awaited one before: the
/// changes of a `SetValue` or a `Delete`, for the shard that owns the key.
pub open spec fn spec_pending_of(
    infos: Seq<ShardFileInfo>,
    names: Seq<Seq<char>>,
    command: CommandView,
) -> Seq<PendingView> {
    match command {
        CommandView::SetValue { key, .. } => seq![
            PendingView {
                filehash: names[spec_key_owner(infos, key)],
                changes: spec_changes_of(command),
            },
        ],
        CommandView::Delete { key } => seq![
            PendingView {
                filehash: names[spec_key_owner(infos, key)],
                changes: spec_changes_of(command),
            },
        ],
        _ => Seq::empty(),
    }
}

/// Whether every shard that is not marked in `touched2` stood among the unmarked shards
/// before, under the same name and with the same content.
pub open spec fn spec_untouched_kept(
    names: Seq<Seq<char>>,
    shards: Seq<ShardView>,
    touched: Seq<bool>,
    names2: Seq<Seq<char>>,
    shards2: Seq<ShardView>,
    touched2: Seq<bool>,
) -> bool {
    forall|i: int|
        0 <= i < touched2.len() && !(#[trigger] touched2[i]) ==> spec_stood_before(
            names,
            shards,
            touched,
            names2[i],
            shards2[i],
        )
}

/// Whether `shard` stood among the unmarked shards under the name `name`.
pub open spec fn spec_stood_before(
    names: Seq<Seq<char>>,
    shards: Seq<ShardView>,
    touched: Seq<bool>,
    name: Seq<char>,
    shard: ShardView,
) -> bool {
    exists|j: int|
        0 <= j < touched.len() && !(#[trigger] touched[j]) && names[j] == name && shards[j]
            == shard
}

/// What a sequence contains once a value was added at its end.
pub proof fn lemma_contains_push<T>(s: Seq<T>, x: T)
    ensures
        forall|y: T| #[trigger] s.push(x).contains(y) <==> s.contains(y) || y == x,
{
    assert forall|y: T| #[trigger] s.push(x).contains(y) <==> s.contains(y) || y == x by {
        if s.push(x).contains(y) {
            let k = choose|k: int| 0 <= k < s.push(x).len() && s.push(x)[k] == y;
            if k < s.len() {
                assert(s[k] == y);
            }
        }
        if s.contains(y) {
            let k = choose|k: int| 0 <= k < s.len() && s[k] == y;
            assert(s.push(x)[k] == y);
        }
        if y == x {
            assert(s.push(x)[s.len() as int] == y);
        }
    }
}

/// What two sequences contain when the one follows the other.
pub proof fn lemma_contains_add<T>(a: Seq<T>, b: Seq<T>)
    ensures
        forall|y: T| #[trigger] (a + b).contains(y) <==> a.contains(y) || b.contains(y),
{
    assert forall|y: T| #[trigger] (a + b).contains(y) <==> a.contains(y) || b.contains(y) by {
        if (a + b).contains(y) {
            let k = choose|k: int| 0 <= k < (a + b).len() && (a + b)[k] == y;
            if k < a.len() {
                assert(a[k] == y);
            } else {
                assert(b[k - a.len()] == y);
            }
        }
        if a.contains(y) {
            let k = choose|k: int| 0 <= k < a.len() && a[k] == y;
            assert((a + b)[k] == y);
        }
        if b.contains(y) {
            let k = choose|k: int| 0 <= k < b.len() && b[k] == y;
            assert((a + b)[a.len() + k] == y);
        }
    }
}

/// Whether `shard` stood among the shards under the name `name`.
pub open spec fn spec_stood(
    names: Seq<Seq<char>>,
    shards: Seq<ShardView>,
    name: Seq<char>,
    shard: ShardView,
) -> bool {
    exists|j: int| 0 <= j < names.len() && (#[trigger] names[j]) == name && shards[j] == shard
}

/// Whether every shard whose name is not in `written` stood among the shards before,
/// under the same name and with the same content: its files are as they were.
pub open spec fn spec_unwritten_kept(
    names: Seq<Seq<char>>,
    shards: Seq<ShardView>,
    names2: Seq<Seq<char>>,
    shards2: Seq<ShardView>,
    written: Seq<Seq<char>>,
) -> bool {
    forall|i: int|
        0 <= i < names2.len() && !written.contains(#[trigger] names2[i]) ==> spec_stood(
            names,
            shards,
            names2[i],
            shards2[i],
        )
}

/// The names of the marked shards, in order.
pub open spec fn spec_marked_names(names: Seq<Seq<char>>, touched: Seq<bool>) -> Seq<Seq<char>>
    decreases touched.len(),
{
    if touched.len() == 0 {
        Seq::empty()
    } else {
        let before = spec_marked_names(names, touched.drop_last());
        if touched.last() {
            before.push(names[touched.len() - 1])
        } else {
            before
        }
    }
}

/// The names of the marked shards are the names that a marked shard bears.
pub proof fn lemma_marked_names(names: Seq<Seq<char>>, touched: Seq<bool>)
    ensures
        forall|name: Seq<char>| #[trigger]
            spec_marked_names(names, touched).contains(name) <==> spec_is_touched(
                names,
                touched,
                name,
            ),
    decreases touched.len(),
{
    if touched.len() > 0 {
        let before = spec_marked_names(names, touched.drop_last());
        let last = touched.len() - 1;
        lemma_marked_names(names, touched.drop_last());
        lemma_contains_push(before, names[last]);
        assert forall|name: Seq<char>| #[trigger]
            spec_marked_names(names, touched).contains(name) <==> spec_is_touched(
                names,
                touched,
                name,
            ) by {
            if spec_is_touched(names, touched.drop_last(), name) {
                let i = choose|i: int|
                    0 <= i < touched.drop_last().len() && (#[trigger] touched.drop_last()[i])
                        && names[i] == name;
                assert(touched[i]);
            }
            if spec_is_touched(names, touched, name) {
                let i = choose|i: int|
                    0 <= i < touched.len() && (#[trigger] touched[i]) && names[i] == name;
                if i < last {
                    assert(touched.drop_last()[i]);
                }
            }
        }
    }
}

/// Those of `candidates` that are among `names`, if `present`, or that are not, if not;
/// in the order of `candidates`.
pub open spec fn spec_select_names(
    candidates: Seq<Seq<char>>,
    names: Seq<Seq<char>>,
    present: bool,
) -> Seq<Seq<char>>
    decreases candidates.len(),
{
    if candidates.len() == 0 {
        Seq::empty()
    } else {
        let before = spec_select_names(candidates.drop_last(), names, present);
        if names.contains(candidates.last()) == present {
            before.push(candidates.last())
        } else {
            before
        }
    }
}

/// What a selection of names contains.
pub proof fn lemma_select_names(candidates: Seq<Seq<char>>, names: Seq<Seq<char>>, present: bool)
    ensures
        forall|name: Seq<char>| #[trigger]
            spec_select_names(candidates, names, present).contains(name) <==> candidates.contains(
                name,
            ) && names.contains(name) == present,
    decreases candidates.len(),
{
    if candidates.len() > 0 {
        let before = spec_select_names(candidates.drop_last(), names, present);
        lemma_select_names(candidates.drop_last(), names, present);
        lemma_contains_push(before, candidates.last());
        lemma_contains_push(candidates.drop_last(), candidates.last());
        assert(candidates.drop_last().push(candidates.last()) =~= candidates);
    }
}

/// Whether a marked shard bears the name `name`.
pub open spec fn spec_is_touched(names: Seq<Seq<char>>, touched: Seq<bool>, name: Seq<char>) -> bool {
    exists|i: int| 0 <= i < touched.len() && (#[trigger] touched[i]) && names[i] == name
}

/// No shard is marked.
pub open spec fn spec_none_touched(touched: Seq<bool>) -> bool {
    forall|i: int| 0 <= i < touched.len() ==> !(#[trigger] touched[i])
}

/// The names that strings spell.
pub open spec fn spec_names(strings: Seq<String>) -> Seq<Seq<char>> {
    Seq::new(strings.len(), |i: int| strings[i]@)
}

/// How the names of the shards change when shards are split away: the names in
/// `retired` were in use before and are no longer, and every name that was in use and
/// is no longer is in `retired`.
pub open spec fn spec_names_retired(
    before: Seq<Seq<char>>,
    after: Seq<Seq<char>>,
    retired: Seq<Seq<char>>,
) -> bool {
    forall|name: Seq<char>|
        #![trigger retired.contains(name)]
        #![trigger before.contains(name)]
        retired.contains(name) <==> before.contains(name) && !after.contains(name)
}

} // verus!
