//! The backup: the image of the shard files, kept in step with the store.
//!
//! Every logged command is gathered into the changeset of the shard that owns its key,
//! flushed into that shard, and followed by a split of each shard that has grown to the
//! break limit. What the shards hold is what a restart restores.

use crate::backup_image::{
    lemma_agree_everywhere, lemma_changes_of, lemma_entries_after_split, lemma_flush_shard,
    lemma_marked_names, lemma_resharded_halved, lemma_resharded_whole, lemma_select_names,
    lemma_split_shard, lemma_stored_upto_step, spec_agree, spec_can_halve, spec_entries,
    spec_flush_all, spec_flush_views, spec_is_due, spec_is_touched, spec_key_owner,
    spec_logged_views, spec_marked_names, spec_mentions, spec_names, spec_names_retired,
    spec_none_due, spec_none_touched, spec_pending_of, spec_resharded, spec_select_names,
    spec_shards_fit, spec_split_shards, spec_stood, spec_stood_before, spec_stored,
    spec_stored_upto, spec_untouched_kept, spec_unwritten_kept, PendingView, ShardEntry,
};
use crate::backup_keys::{spec_has_key, spec_shard_half, spec_shard_wf, Shard, ShardView};
use crate::changeset::{ChangesetCollection, UpdateView};
use crate::interpreter::{Command, CommandView};
use crate::shard_registry::{
    generate_random_name, spec_halves, spec_has_owner, spec_hash_for_key, spec_split_infos,
    spec_split_names, ShardFileInfo, ShardRegistry, DEFAULT_SHARD_BREAK_LIMIT,
};
use crate::storage::{spec_execute_store, Storage, StoreView};
use vstd::prelude::*;
use vstd::string::StringExecFns;

verus! {

/// File name of the registry within the directory of the backup.
pub open spec fn spec_shard_registry_file_name() -> Seq<char> {
    "__traf_shards.db"@
}

/// File name of the keys file of the shard named `filehash`.
pub open spec fn spec_key_file_name(filehash: Seq<char>) -> Seq<char> {
    "__traf_keys_"@ + filehash + ".db"@
}

/// File name of the values file of the shard named `filehash`.
pub open spec fn spec_value_file_name(filehash: Seq<char>) -> Seq<char> {
    "__traf_values_"@ + filehash + ".db"@
}

/// `count` marks, none of them set.
fn none_touched(count: usize) -> (r: Vec<bool>)
    ensures
        r@.len() == count,
        spec_none_touched(r@),
{
    let mut r: Vec<bool> = Vec::new();
    let mut i: usize = 0;
    while i < count
        invariant
            i <= count,
            r@.len() == i,
            spec_none_touched(r@),
        decreases count - i,
    {
        r.push(false);
        i = i + 1;
    }
    r
}

/// The backup of a store: the registry, and the shard files as they stand on disk.
pub struct FileBackup {
    changesets: ChangesetCollection,
    dir: String,
    shard_registry: ShardRegistry,
    shards: Vec<Shard>,
    touched: Vec<bool>,
}

impl FileBackup {
    /// The parts of the hash space of the shards, in registry order.
    pub closed spec fn infos(&self) -> Seq<ShardFileInfo> {
        self.shard_registry.infos()
    }

    /// The names of the shards, in registry order.
    pub closed spec fn names(&self) -> Seq<Seq<char>> {
        self.shard_registry.names()
    }

    /// The size at which a shard is split.
    pub closed spec fn break_limit(&self) -> usize {
        self.shard_registry.break_limit()
    }

    /// The directory of the backup.
    pub closed spec fn dir_view(&self) -> Seq<char> {
        self.dir@
    }

    /// The shards, in registry order.
    pub closed spec fn shard_views(&self) -> Seq<ShardView> {
        Seq::new(self.shards@.len(), |i: int| self.shards@[i]@)
    }

    /// For each shard, whether the last `log` flushed into it or made it by a split: its
    /// files differ from what they were before that `log`.
    pub closed spec fn touched_view(&self) -> Seq<bool> {
        self.touched@
    }

    /// The shards, in registry order, each with its name, its part of the hash space, its
    /// content and its mark.
    pub open spec fn entries(&self) -> Seq<ShardEntry> {
        spec_entries(self.names(), self.infos(), self.shard_views(), self.touched_view())
    }

    /// The changes that await a flush.
    pub closed spec fn pending(&self) -> Seq<PendingView> {
        Seq::new(
            self.changesets.0@.len(),
            |j: int|
                PendingView {
                    filehash: self.changesets.0@[j].filehash@,
                    changes: self.changesets.0@[j].changeset@,
                },
        )
    }

    /// The registry is well formed, and the shards fit it.
    pub closed spec fn fits(&self) -> bool {
        &&& self.shard_registry.wf()
        &&& spec_shards_fit(self.infos(), self.shard_views())
        &&& self.touched@.len() == self.shards@.len()
    }

    /// The registry is well formed, the shards fit it, and no change awaits a flush.
    pub open spec fn wf(&self) -> bool {
        self.fits() && self.pending().len() == 0
    }

    /// What the backup stores: what a restart would restore.
    pub open spec fn stored(&self) -> StoreView {
        spec_stored(self.infos(), self.shard_views())
    }

    /// In a well-formed backup, names, registry entries and shards stand in step, no name
    /// is used twice, and the shards fit the registry.
    pub proof fn lemma_wf(&self)
        requires
            self.wf(),
        ensures
            self.names().len() == self.infos().len(),
            self.names().no_duplicates(),
            self.touched_view().len() == self.shard_views().len(),
            spec_shards_fit(self.infos(), self.shard_views()),
    {
    }

    /// The backup of a fresh directory: one empty shard, freshly named, that owns every
    /// key.
    pub fn new(dir: String) -> (r: Self)
        ensures
            r.wf(),
            r.stored() == Map::<Seq<char>, Seq<u8>>::empty(),
            r.dir_view() == dir@,
            r.break_limit() == DEFAULT_SHARD_BREAK_LIMIT,
            r.infos() == seq![ShardFileInfo { mod_base: 1, mod_value: 0 }],
            spec_none_touched(r.touched_view()),
    {
        let shard_registry = ShardRegistry::new(DEFAULT_SHARD_BREAK_LIMIT);
        let mut shards: Vec<Shard> = Vec::new();
        shards.push(Shard::new());
        let r = FileBackup {
            changesets: ChangesetCollection::default(),
            dir,
            shard_registry,
            shards,
            touched: none_touched(1),
        };
        proof {
            let views = r.shard_views();
            let infos = r.infos();
            assert forall|i: int, key: Seq<char>|
                0 <= i < views.len() && #[trigger] spec_has_key(views[i].keys, key) implies false by {
                assert(views[i].keys.len() == 0);
            }
            assert forall|key: Seq<char>| #[trigger]
                spec_agree(r.stored(), Map::<Seq<char>, Seq<u8>>::empty(), key) by {
                assert(spec_has_owner(infos, spec_hash_for_key(key)));
                assert(views[spec_key_owner(infos, key)].keys.len() == 0);
            }
            lemma_agree_everywhere(r.stored(), Map::<Seq<char>, Seq<u8>>::empty());
        }
        r
    }

    /// Takes over a registry and the shards read for its entries, in registry order, if
    /// each shard holds only keys that its entry owns.
    pub fn load(dir: String, shard_registry: ShardRegistry, shards: Vec<Shard>) -> (r: Option<Self>)
        requires
            shard_registry.wf(),
            forall|i: int| 0 <= i < shards@.len() ==> (#[trigger] shards@[i]).wf(),
        ensures
            r is Some <==> spec_shards_fit(
                shard_registry.infos(),
                Seq::new(shards@.len(), |i: int| shards@[i]@),
            ),
            r matches Some(backup) ==> {
                &&& backup.wf()
                &&& backup.dir_view() == dir@
                &&& backup.infos() == shard_registry.infos()
                &&& backup.names() == shard_registry.names()
                &&& backup.break_limit() == shard_registry.break_limit()
                &&& backup.shard_views() == Seq::new(shards@.len(), |i: int| shards@[i]@)
                &&& spec_none_touched(backup.touched_view())
            },
    {
        let ghost infos = shard_registry.infos();
        let ghost views = Seq::new(shards@.len(), |i: int| shards@[i]@);
        if shards.len() != shard_registry.len() {
            return None;
        }
        let mut i: usize = 0;
        while i < shards.len()
            invariant
                i <= shards@.len(),
                shard_registry.wf(),
                infos == shard_registry.infos(),
                views == Seq::new(shards@.len(), |k: int| shards@[k]@),
                shards@.len() == infos.len(),
                forall|a: int, key: Seq<char>|
                    0 <= a < i && #[trigger] spec_has_key(views[a].keys, key) ==> spec_key_owner(
                        infos,
                        key,
                    ) == a,
            decreases shards@.len() - i,
        {
            let keys = shards[i].keys();
            let mut k: usize = 0;
            while k < keys.len()
                invariant
                    k <= keys@.len(),
                    i < shards@.len(),
                    views == Seq::new(shards@.len(), |k: int| shards@[k]@),
                    shards@.len() == infos.len(),
                    keys@ == views[i as int].keys,
                    shard_registry.wf(),
                    infos == shard_registry.infos(),
                    forall|b: int|
                        0 <= b < k ==> spec_key_owner(infos, (#[trigger] keys@[b]).key) == i,
                decreases keys@.len() - k,
            {
                let owner = shard_registry.index_for_key(&keys.entry(k).key);
                if owner != i {
                    assert(spec_has_key(views[i as int].keys, keys@[k as int].key));
                    return None;
                }
                k = k + 1;
            }
            proof {
                assert forall|key: Seq<char>| #[trigger]
                    spec_has_key(views[i as int].keys, key) implies spec_key_owner(infos, key)
                    == i by {
                    let b = choose|b: int|
                        0 <= b < keys@.len() && (#[trigger] keys@[b]).key == key;
                    assert(spec_key_owner(infos, keys@[b].key) == i);
                }
            }
            i = i + 1;
        }
        proof {
            assert forall|a: int| 0 <= a < views.len() implies spec_shard_wf(#[trigger] views[a]) by {
                assert(shards@[a].wf());
            }
        }
        let touched = none_touched(shards.len());
        let r = FileBackup {
            changesets: ChangesetCollection::default(),
            dir,
            shard_registry,
            shards,
            touched,
        };
        assert(r.shard_views() =~= views);
        Some(r)
    }

    /// File name of the registry within the directory of the backup.
    pub fn shard_registry_file_name() -> (r: &'static str)
        ensures
            r@ == spec_shard_registry_file_name(),
    {
        "__traf_shards.db"
    }

    /// File name of the keys file of the shard named `filehash`.
    pub fn key_file_name(filehash: &str) -> (r: String)
        ensures
            r@ == spec_key_file_name(filehash@),
    {
        let mut filename = String::new();
        filename.append("__traf_keys_");
        filename.append(filehash);
        filename.append(".db");
        assert(filename@ =~= spec_key_file_name(filehash@));
        filename
    }

    /// File name of the values file of the shard named `filehash`.
    pub fn value_file_name(filehash: &str) -> (r: String)
        ensures
            r@ == spec_value_file_name(filehash@),
    {
        let mut filename = String::new();
        filename.append("__traf_values_");
        filename.append(filehash);
        filename.append(".db");
        assert(filename@ =~= spec_value_file_name(filehash@));
        filename
    }

    /// The directory of the backup.
    pub fn dir(&self) -> (r: &String)
        ensures
            r@ == self.dir_view(),
    {
        &self.dir
    }

    /// The registry.
    pub fn shard_registry(&self) -> (r: &ShardRegistry)
        ensures
            r.infos() == self.infos(),
            r.names() == self.names(),
            r.break_limit() == self.break_limit(),
            self.fits() ==> r.wf(),
    {
        &self.shard_registry
    }

    /// Number of shards.
    pub fn shard_count(&self) -> (r: usize)
        ensures
            r == self.shard_views().len(),
    {
        self.shards.len()
    }

    /// The shard at `index`, in registry order.
    pub fn shard_at(&self, index: usize) -> (r: &Shard)
        requires
            index < self.shard_views().len(),
        ensures
            r@ == self.shard_views()[index as int],
    {
        &self.shards[index]
    }

    /// Gathers the change that a command brings into the changeset of the shard that
    /// owns its key. Commands other than `SetValue` and `Delete` bring none.
    fn observe(&mut self, cmd: &Command)
        requires
            old(self).wf(),
        ensures
            final(self).fits(),
            final(self).infos() == old(self).infos(),
            final(self).names() == old(self).names(),
            final(self).break_limit() == old(self).break_limit(),
            final(self).dir_view() == old(self).dir_view(),
            final(self).shard_views() == old(self).shard_views(),
            final(self).touched_view() == old(self).touched_view(),
            final(self).pending() == spec_pending_of(old(self).infos(), old(self).names(), cmd@),
    {
        match cmd {
            Command::Delete { key } => {
                let filehash = self.shard_registry.filehash_for_key(key);
                let at = self.changesets.entry(filehash);
                self.changesets.0[at].changeset.record_delete(key.clone());
                assert(self.pending() =~= spec_pending_of(
                    old(self).infos(),
                    old(self).names(),
                    cmd@,
                ));
            },
            Command::SetValue { key, value } => {
                let filehash = self.shard_registry.filehash_for_key(key);
                let at = self.changesets.entry(filehash);
                self.changesets.0[at].changeset.record_set(key.clone(), value.clone());
                assert(self.pending() =~= spec_pending_of(
                    old(self).infos(),
                    old(self).names(),
                    cmd@,
                ));
            },
            _ => {
                assert(self.pending() =~= spec_pending_of(
                    old(self).infos(),
                    old(self).names(),
                    cmd@,
                ));
            },
        }
    }

    /// Whether every pending changeset is for a shard of the registry, and speaks only
    /// of keys that this shard owns.
    pub open spec fn pending_fits(&self) -> bool {
        forall|j: int|
            0 <= j < self.pending().len() ==> {
                &&& self.names().contains((#[trigger] self.pending()[j]).filehash)
                &&& forall|key: Seq<char>| #[trigger]
                    spec_mentions(self.pending()[j].changes, key) ==> self.names()[spec_key_owner(
                        self.infos(),
                        key,
                    )] == self.pending()[j].filehash
            }
    }

    /// Flushes every pending changeset into its shard.
    fn backup(&mut self)
        requires
            old(self).fits(),
            old(self).pending_fits(),
        ensures
            final(self).wf(),
            final(self).infos() == old(self).infos(),
            final(self).names() == old(self).names(),
            final(self).break_limit() == old(self).break_limit(),
            final(self).dir_view() == old(self).dir_view(),
            final(self).stored() == spec_flush_all(old(self).stored(), old(self).pending()),
            final(self).shard_views() == spec_flush_views(
                old(self).names(),
                old(self).shard_views(),
                old(self).pending(),
            ),
            final(self).touched_view().len() == old(self).touched_view().len(),
            forall|i: int|
                0 <= i < final(self).touched_view().len() && !(
                #[trigger] final(self).touched_view()[i]) ==> !old(self).touched_view()[i]
                    && final(self).shard_views()[i] == old(self).shard_views()[i],
    {
        let ghost pending = self.pending();
        let ghost infos = self.infos();
        let ghost names = self.names();
        let mut j: usize = 0;
        assert(pending.take(0) =~= Seq::<PendingView>::empty());
        while j < self.changesets.0.len()
            invariant
                j <= pending.len(),
                self.fits(),
                self.pending_fits(),
                self.pending() == pending,
                self.infos() == infos,
                self.names() == names,
                self.break_limit() == old(self).break_limit(),
                self.dir_view() == old(self).dir_view(),
                self.stored() == spec_flush_all(old(self).stored(), pending.take(j as int)),
                self.shard_views() == spec_flush_views(
                    names,
                    old(self).shard_views(),
                    pending.take(j as int),
                ),
                self.touched_view().len() == old(self).touched_view().len(),
                forall|i: int|
                    0 <= i < self.touched_view().len() && !(#[trigger] self.touched_view()[i])
                        ==> !old(self).touched_view()[i] && self.shard_views()[i] == old(
                        self,
                    ).shard_views()[i],
            decreases pending.len() - j,
        {
            let ghost views = self.shard_views();
            let ghost changes = pending[j as int].changes;
            proof {
                assert(pending.take(j + 1).drop_last() =~= pending.take(j as int));
                assert(pending.take(j + 1).last() == pending[j as int]);
                assert(names.contains(pending[j as int].filehash));
            }
            match self.shard_registry.index_of(&self.changesets.0[j].filehash) {
                Some(index) => {
                    proof {
                        assert(names.index_of(pending[j as int].filehash) == index) by {
                            let at = names.index_of(pending[j as int].filehash);
                            assert(names[at] == names[index as int]);
                        }
                        assert(spec_shard_wf(views[index as int]));
                        assert forall|key: Seq<char>| #[trigger]
                            spec_mentions(changes, key) implies spec_key_owner(infos, key)
                            == index by {
                            assert(spec_has_owner(infos, spec_hash_for_key(key)));
                            assert(names[spec_key_owner(infos, key)] == names[index as int]);
                        }
                    }
                    self.shards[index].apply_changeset(&self.changesets.0[j].changeset);
                    self.touched.set(index, true);
                    proof {
                        let flushed = self.shards@[index as int]@;
                        lemma_flush_shard(infos, views, index as int, changes, flushed);
                        assert(self.shard_views() =~= views.update(index as int, flushed));
                    }
                },
                None => {},
            }
            j = j + 1;
        }
        assert(pending.take(j as int) =~= pending);
        self.changesets = ChangesetCollection::default();
    }

    /// Whether the shard at `index` can be split into halves named `lhs` and `rhs`:
    /// the doubled base must fit, and the two names must be new and differ.
    pub open spec fn can_split(&self, index: int, lhs: Seq<char>, rhs: Seq<char>) -> bool {
        &&& 0 <= index < self.infos().len()
        &&& 2 * self.infos()[index].mod_base <= u64::MAX
        &&& lhs != rhs
        &&& !self.names().contains(lhs)
        &&& !self.names().contains(rhs)
    }

    /// Tells whether `can_split` holds.
    pub fn check_split(&self, index: usize, lhs: &String, rhs: &String) -> (r: bool)
        requires
            self.wf(),
            index < self.infos().len(),
        ensures
            r == self.can_split(index as int, lhs@, rhs@),
    {
        self.shard_registry.check_split(index, lhs, rhs)
    }

    /// Splits the shard at `index` into halves named `lhs` and `rhs`. Each key goes with
    /// its value to the half that owns it. What the backup stores stays as it is.
    pub fn split_shard(&mut self, index: usize, lhs: String, rhs: String)
        requires
            old(self).wf(),
            old(self).can_split(index as int, lhs@, rhs@),
        ensures
            final(self).wf(),
            final(self).stored() == old(self).stored(),
            final(self).break_limit() == old(self).break_limit(),
            final(self).dir_view() == old(self).dir_view(),
            final(self).infos() == spec_split_infos(old(self).infos(), index as int),
            final(self).names() == spec_split_names(old(self).names(), index as int, lhs@, rhs@),
            final(self).touched_view() == old(self).touched_view().update(index as int, true).insert(
                index + 1,
                true,
            ),
            final(self).shard_views() == spec_split_shards(
                old(self).shard_views(),
                index as int,
                spec_shard_half(
                    old(self).shard_views()[index as int],
                    spec_halves(old(self).infos()[index as int]).0,
                    true,
                ),
                spec_shard_half(
                    old(self).shard_views()[index as int],
                    spec_halves(old(self).infos()[index as int]).0,
                    false,
                ),
            ),
    {
        let ghost infos = self.infos();
        let ghost views = self.shard_views();
        let old_info = self.shard_registry.file(index).info;
        proof {
            assert(old_info.mod_value < old_info.mod_base);
        }
        let lhs_info = ShardFileInfo::new(old_info.mod_base * 2, old_info.mod_value);
        assert(lhs_info == spec_halves(infos[index as int]).0);
        assert(spec_shard_wf(views[index as int]));
        let halves = self.shards[index].split(lhs_info);
        let left = halves.0;
        let right = halves.1;
        proof {
            lemma_split_shard(infos, views, index as int, left@, right@);
        }
        self.shard_registry.split(index, lhs, rhs);
        let count: usize = self.shards.len();
        assert(index < count);
        self.shards.set(index, left);
        self.shards.insert(index + 1, right);
        self.touched.set(index, true);
        self.touched.insert(index + 1, true);
        assert(self.shard_views() =~= spec_split_shards(views, index as int, left@, right@));
    }

    /// Tells whether the shard at `index` is due a split.
    pub fn shard_is_due(&self, index: usize) -> (r: bool)
        requires
            self.wf(),
            index < self.shard_views().len(),
        ensures
            r == spec_is_due(self.shard_views()[index as int], self.break_limit()),
    {
        proof {
            self.lemma_wf();
            assert(spec_shard_wf(self.shard_views()[index as int]));
        }
        self.shards[index].useful_size() >= self.shard_registry.shard_break_limit()
    }

    /// Makes one round of splits: every shard that is due a split and whose base can
    /// double is replaced by its two halves, under freshly generated names; it is left
    /// whole only when a generated name is in use or the two names are the same. Every
    /// other shard stands as it was, and the order of the shards is kept.
    fn shard(&mut self)
        requires
            old(self).wf(),
        ensures
            final(self).wf(),
            final(self).stored() == old(self).stored(),
            final(self).break_limit() == old(self).break_limit(),
            final(self).dir_view() == old(self).dir_view(),
            spec_resharded(old(self).entries(), final(self).entries(), old(self).break_limit()),
            spec_none_due(old(self).shard_views(), old(self).break_limit()) ==> {
                &&& final(self).shard_views() == old(self).shard_views()
                &&& final(self).names() == old(self).names()
                &&& final(self).infos() == old(self).infos()
                &&& final(self).touched_view() == old(self).touched_view()
            },
            spec_untouched_kept(
                old(self).names(),
                old(self).shard_views(),
                old(self).touched_view(),
                final(self).names(),
                final(self).shard_views(),
                final(self).touched_view(),
            ),
    {
        let mut i: usize = self.shards.len();
        let ghost mut split = false;
        proof {
            old(self).lemma_wf();
            assert forall|k: int|
                0 <= k < self.touched_view().len() && !(
                #[trigger] self.touched_view()[k]) implies spec_stood_before(
                old(self).names(),
                old(self).shard_views(),
                old(self).touched_view(),
                self.names()[k],
                self.shard_views()[k],
            ) by {
                assert(!old(self).touched_view()[k]);
            }
        }
        proof {
            self.lemma_wf();
            assert(old(self).entries().skip(i as int) =~= Seq::<ShardEntry>::empty());
        }
        while i > 0
            invariant
                self.wf(),
                i <= self.shard_views().len(),
                i <= old(self).entries().len(),
                forall|k: int| 0 <= k < i ==> #[trigger] self.entries()[k] == old(self).entries()[k],
                spec_resharded(
                    old(self).entries().skip(i as int),
                    self.entries().skip(i as int),
                    old(self).break_limit(),
                ),
                self.stored() == old(self).stored(),
                self.break_limit() == old(self).break_limit(),
                self.dir_view() == old(self).dir_view(),
                split ==> !spec_none_due(old(self).shard_views(), old(self).break_limit()),
                !split ==> {
                    &&& self.shard_views() == old(self).shard_views()
                    &&& self.names() == old(self).names()
                    &&& self.infos() == old(self).infos()
                    &&& self.touched_view() == old(self).touched_view()
                },
                spec_untouched_kept(
                    old(self).names(),
                    old(self).shard_views(),
                    old(self).touched_view(),
                    self.names(),
                    self.shard_views(),
                    self.touched_view(),
                ),
            decreases i,
        {
            let ghost entries = self.entries();
            let ghost before = old(self).entries();
            let ghost limit = old(self).break_limit();
            i = i - 1;
            proof {
                self.lemma_wf();
                assert(entries[i as int] == before[i as int]);
                lemma_resharded_whole(before, entries, i as int, limit);
            }
            if self.shard_is_due(i) {
                proof {
                    if !split {
                        assert(spec_is_due(old(self).shard_views()[i as int], self.break_limit()));
                    }
                    split = true;
                }
                let lhs = generate_random_name();
                let rhs = generate_random_name();
                if self.check_split(i, &lhs, &rhs) {
                    let ghost names = self.names();
                    let ghost views = self.shard_views();
                    let ghost touched = self.touched_view();
                    proof {
                        self.lemma_wf();
                    }
                    let ghost infos = self.infos();
                    let ghost left_name = lhs@;
                    let ghost right_name = rhs@;
                    self.split_shard(i, lhs, rhs);
                    proof {
                        let halved = self.entries();
                        lemma_entries_after_split(
                            names,
                            infos,
                            views,
                            touched,
                            i as int,
                            left_name,
                            right_name,
                            halved[i as int].shard,
                            halved[i + 1].shard,
                        );
                        assert(spec_can_halve(before[i as int], limit));
                        lemma_resharded_halved(before, halved, i as int, limit);
                    }
                    proof {
                        assert forall|k: int|
                            0 <= k < self.touched_view().len() && !(
                            #[trigger] self.touched_view()[k]) implies spec_stood_before(
                            old(self).names(),
                            old(self).shard_views(),
                            old(self).touched_view(),
                            self.names()[k],
                            self.shard_views()[k],
                        ) by {
                            let b = if k < i {
                                k
                            } else {
                                k - 1
                            };
                            assert(!touched[b]);
                            assert(self.names()[k] == names[b]);
                            assert(self.shard_views()[k] == views[b]);
                        }
                    }
                }
            }
        }
        proof {
            assert(old(self).entries().skip(0) =~= old(self).entries());
            assert(self.entries().skip(0) =~= self.entries());
        }
    }

    /// Brings the backup in step with a store on which `cmd` has just run: the change is
    /// flushed into the shard that owns the key, and the shards that are then due a
    /// split are split. Where none is due, the flush is all that happens.
    pub fn log(&mut self, cmd: &Command)
        requires
            old(self).wf(),
        ensures
            final(self).wf(),
            final(self).stored() == spec_execute_store(old(self).stored(), cmd@),
            final(self).break_limit() == old(self).break_limit(),
            final(self).dir_view() == old(self).dir_view(),
            ({
                let flushed = spec_logged_views(old(self).infos(), old(self).shard_views(), cmd@);
                spec_none_due(flushed, old(self).break_limit()) ==> {
                    &&& final(self).shard_views() == flushed
                    &&& final(self).names() == old(self).names()
                    &&& final(self).infos() == old(self).infos()
                }
            }),
            spec_untouched_kept(
                old(self).names(),
                old(self).shard_views(),
                Seq::new(old(self).names().len(), |i: int| false),
                final(self).names(),
                final(self).shard_views(),
                final(self).touched_view(),
            ),
    {
        self.clear_touched();
        self.observe(cmd);
        proof {
            let pending = self.pending();
            let infos = self.infos();
            let names = self.names();
            reveal_with_fuel(spec_flush_all, 2);
            reveal_with_fuel(spec_flush_views, 2);
            old(self).lemma_wf();
            match cmd@ {
                CommandView::SetValue { key, .. } => {
                    assert(spec_has_owner(infos, spec_hash_for_key(key)));
                    let owner = spec_key_owner(infos, key);
                    assert(names[names.index_of(names[owner])] == names[owner]);
                },
                CommandView::Delete { key } => {
                    assert(spec_has_owner(infos, spec_hash_for_key(key)));
                    let owner = spec_key_owner(infos, key);
                    assert(names[names.index_of(names[owner])] == names[owner]);
                },
                _ => {},
            }
            lemma_changes_of(old(self).stored(), cmd@);
            assert forall|j: int| 0 <= j < pending.len() implies {
                &&& names.contains((#[trigger] pending[j]).filehash)
                &&& forall|key: Seq<char>| #[trigger]
                    spec_mentions(pending[j].changes, key) ==> names[spec_key_owner(infos, key)]
                        == pending[j].filehash
            } by {
                old(self).lemma_wf();
                match cmd@ {
                    CommandView::SetValue { key, value } => {
                        assert(spec_has_owner(infos, spec_hash_for_key(key)));
                        assert(names[spec_key_owner(infos, key)] == pending[j].filehash);
                        assert(pending[j].changes.updates =~= seq![UpdateView { key, value }]);
                        assert forall|k: Seq<char>| #[trigger]
                            spec_mentions(pending[j].changes, k) implies k == key by {
                            if !pending[j].changes.removals.contains(k) {
                                let u = choose|u: int|
                                    0 <= u < pending[j].changes.updates.len() && (
                                    #[trigger] pending[j].changes.updates[u]).key == k;
                                assert(pending[j].changes.updates[u].key == key);
                            }
                        }
                    },
                    CommandView::Delete { key } => {
                        assert(spec_has_owner(infos, spec_hash_for_key(key)));
                        assert(names[spec_key_owner(infos, key)] == pending[j].filehash);
                        assert(pending[j].changes.removals =~= seq![key]);
                        assert forall|k: Seq<char>| #[trigger]
                            spec_mentions(pending[j].changes, k) implies k == key by {
                            if pending[j].changes.removals.contains(k) {
                                let u = choose|u: int|
                                    0 <= u < pending[j].changes.removals.len()
                                        && pending[j].changes.removals[u] == k;
                                assert(pending[j].changes.removals[u] == key);
                            }
                        }
                    },
                    _ => {},
                }
            }
            match cmd@ {
                CommandView::SetValue { .. } => {
                    assert(pending.drop_last() =~= Seq::<PendingView>::empty());
                },
                CommandView::Delete { .. } => {
                    assert(pending.drop_last() =~= Seq::<PendingView>::empty());
                },
                _ => {},
            }
        }
        self.backup();
        let ghost flushed_names = self.names();
        let ghost flushed_views = self.shard_views();
        let ghost flushed_marks = self.touched_view();
        self.shard();
        proof {
            let unmarked = Seq::new(old(self).names().len(), |i: int| false);
            assert forall|k: int|
                0 <= k < self.touched_view().len() && !(
                #[trigger] self.touched_view()[k]) implies spec_stood_before(
                old(self).names(),
                old(self).shard_views(),
                unmarked,
                self.names()[k],
                self.shard_views()[k],
            ) by {
                assert(spec_stood_before(
                    flushed_names,
                    flushed_views,
                    flushed_marks,
                    self.names()[k],
                    self.shard_views()[k],
                ));
                let j = choose|j: int|
                    0 <= j < flushed_marks.len() && !(#[trigger] flushed_marks[j])
                        && flushed_names[j] == self.names()[k] && flushed_views[j]
                        == self.shard_views()[k];
                assert(!unmarked[j]);
            }
        }
    }

    /// After a `log`, the shards that `touched_names` does not name are as they were
    /// before it.
    pub proof fn lemma_touched_names_cover(
        &self,
        before_names: Seq<Seq<char>>,
        before_shards: Seq<ShardView>,
        written: Seq<Seq<char>>,
    )
        requires
            self.wf(),
            before_names.len() == before_shards.len(),
            spec_untouched_kept(
                before_names,
                before_shards,
                Seq::new(before_names.len(), |i: int| false),
                self.names(),
                self.shard_views(),
                self.touched_view(),
            ),
            forall|name: Seq<char>|
                #![trigger written.contains(name)]
                spec_marked_names(self.names(), self.touched_view()).contains(name)
                    ==> written.contains(name),
        ensures
            spec_unwritten_kept(
                before_names,
                before_shards,
                self.names(),
                self.shard_views(),
                written,
            ),
    {
        self.lemma_wf();
        let unmarked = Seq::new(before_names.len(), |i: int| false);
        assert forall|i: int|
            0 <= i < self.names().len() && !written.contains(
                #[trigger] self.names()[i],
            ) implies spec_stood(
            before_names,
            before_shards,
            self.names()[i],
            self.shard_views()[i],
        ) by {
            if self.touched_view()[i] {
                lemma_marked_names(self.names(), self.touched_view());
                assert(spec_is_touched(self.names(), self.touched_view(), self.names()[i]));
            }
            assert(!self.touched_view()[i]);
            assert(spec_stood_before(
                before_names,
                before_shards,
                unmarked,
                self.names()[i],
                self.shard_views()[i],
            ));
            let j = choose|j: int|
                0 <= j < unmarked.len() && !(#[trigger] unmarked[j]) && before_names[j]
                    == self.names()[i] && before_shards[j] == self.shard_views()[i];
            assert(before_names[j] == self.names()[i]);
        }
    }

    /// Takes every mark off.
    fn clear_touched(&mut self)
        requires
            old(self).wf(),
        ensures
            final(self).wf(),
            final(self).infos() == old(self).infos(),
            final(self).names() == old(self).names(),
            final(self).break_limit() == old(self).break_limit(),
            final(self).dir_view() == old(self).dir_view(),
            final(self).shard_views() == old(self).shard_views(),
            spec_none_touched(final(self).touched_view()),
    {
        self.touched = none_touched(self.shards.len());
    }

    /// The names of the shards that the last `log` flushed into or made by a split, in
    /// registry order: their files are to be written.
    pub fn touched_names(&self) -> (r: Vec<String>)
        requires
            self.wf(),
        ensures
            spec_names(r@) == spec_marked_names(self.names(), self.touched_view()),
    {
        let mut r: Vec<String> = Vec::new();
        let mut i: usize = 0;
        proof {
            self.lemma_wf();
            assert(self.touched_view().take(0) =~= Seq::<bool>::empty());
            assert(spec_names(r@) =~= Seq::<Seq<char>>::empty());
        }
        while i < self.touched.len()
            invariant
                i <= self.touched_view().len(),
                self.touched_view().len() == self.names().len(),
                self.names().len() == self.infos().len(),
                spec_names(r@) == spec_marked_names(
                    self.names(),
                    self.touched_view().take(i as int),
                ),
            decreases self.touched_view().len() - i,
        {
            let ghost before = spec_names(r@);
            proof {
                let marks = self.touched_view();
                assert(marks.take(i + 1).drop_last() =~= marks.take(i as int));
                assert(marks.take(i + 1).last() == marks[i as int]);
            }
            if self.touched[i] {
                r.push(self.shard_registry.file(i).filehash.clone());
                assert(spec_names(r@) =~= before.push(self.names()[i as int]));
            } else {
                assert(spec_names(r@) =~= before);
            }
            i = i + 1;
        }
        assert(self.touched_view().take(i as int) =~= self.touched_view());
        r
    }

    /// The names of the shards, in registry order.
    pub fn shard_names(&self) -> (r: Vec<String>)
        ensures
            spec_names(r@) == self.names(),
    {
        let mut names: Vec<String> = Vec::new();
        let mut i: usize = 0;
        while i < self.shard_registry.len()
            invariant
                i <= self.names().len(),
                names@.len() == i,
                forall|k: int| 0 <= k < i ==> (#[trigger] names@[k])@ == self.names()[k],
            decreases self.names().len() - i,
        {
            names.push(self.shard_registry.file(i).filehash.clone());
            i = i + 1;
        }
        assert(spec_names(names@) =~= self.names());
        names
    }

    /// Those of the names `candidates` that a shard has now, if `present`, or that no shard
    /// has now, if not; in the order of `candidates`.
    fn select_names(&self, candidates: &Vec<String>, present: bool) -> (selected: Vec<String>)
        ensures
            spec_names(selected@) == spec_select_names(
                spec_names(candidates@),
                self.names(),
                present,
            ),
    {
        let ghost names = spec_names(candidates@);
        let mut selected: Vec<String> = Vec::new();
        let mut i: usize = 0;
        proof {
            assert(names.take(0) =~= Seq::<Seq<char>>::empty());
            assert(spec_names(selected@) =~= Seq::<Seq<char>>::empty());
        }
        while i < candidates.len()
            invariant
                i <= candidates@.len(),
                names == spec_names(candidates@),
                spec_names(selected@) == spec_select_names(
                    names.take(i as int),
                    self.names(),
                    present,
                ),
            decreases candidates@.len() - i,
        {
            let ghost chosen = spec_names(selected@);
            let name = &candidates[i];
            proof {
                assert(names.take(i + 1).drop_last() =~= names.take(i as int));
                assert(names.take(i + 1).last() == name@);
            }
            let here = self.shard_registry.index_of(name).is_some();
            if here == present {
                selected.push(name.clone());
                assert(spec_names(selected@) =~= chosen.push(name@));
            } else {
                assert(spec_names(selected@) =~= chosen);
            }
            i = i + 1;
        }
        assert(names.take(i as int) =~= names);
        selected
    }

    /// Those of the names `before` that no shard has now, in their order: the shards
    /// that were split away since the names were taken. Their files are to be deleted.
    pub fn retired_names(&self, before: &Vec<String>) -> (retired: Vec<String>)
        ensures
            spec_names(retired@) == spec_select_names(spec_names(before@), self.names(), false),
            spec_names_retired(spec_names(before@), self.names(), spec_names(retired@)),
    {
        proof {
            lemma_select_names(spec_names(before@), self.names(), false);
        }
        self.select_names(before, false)
    }

    /// Those of the names `candidates` that a shard has now, in their order.
    pub fn present_names(&self, candidates: &Vec<String>) -> (present: Vec<String>)
        ensures
            spec_names(present@) == spec_select_names(
                spec_names(candidates@),
                self.names(),
                true,
            ),
    {
        self.select_names(candidates, true)
    }

    /// Sets every key that the backup stores in `storage`, to the value stored.
    pub fn restore(&self, storage: &mut Storage)
        requires
            self.wf(),
        ensures
            final(storage)@ == old(storage)@.union_prefer_right(self.stored()),
    {
        let ghost infos = self.infos();
        let ghost views = self.shard_views();
        let mut i: usize = 0;
        proof {
            let none = spec_stored_upto(infos, views, 0);
            assert forall|key: Seq<char>| #[trigger]
                spec_agree(storage@, old(storage)@.union_prefer_right(none), key) by {
                assert(spec_has_owner(infos, spec_hash_for_key(key)));
            }
            lemma_agree_everywhere(storage@, old(storage)@.union_prefer_right(none));
        }
        while i < self.shards.len()
            invariant
                i <= self.shards@.len(),
                self.wf(),
                infos == self.infos(),
                views == self.shard_views(),
                storage@ == old(storage)@.union_prefer_right(
                    spec_stored_upto(infos, views, i as int),
                ),
            decreases self.shards@.len() - i,
        {
            proof {
                lemma_stored_upto_step(infos, views, i as int, old(storage)@);
                assert(spec_shard_wf(views[i as int]));
            }
            self.shards[i].restore_into(storage);
            i = i + 1;
        }
        proof {
            assert forall|key: Seq<char>| #[trigger]
                spec_agree(spec_stored_upto(infos, views, i as int), self.stored(), key) by {
                assert(spec_has_owner(infos, spec_hash_for_key(key)));
            }
            lemma_agree_everywhere(spec_stored_upto(infos, views, i as int), self.stored());
        }
    }
}

} // verus!
