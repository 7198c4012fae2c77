//! The shard registry: which shard owns which part of the hashed key space.
//!
//! A shard with `mod_base` M and `mod_value` V owns the keys whose hash h has
//! `h mod M == V`. The registry starts with one shard that owns everything and grows by
//! splitting a shard in two.

use crate::interpreter::decode_key;
use crate::registry_check::{
    check_files, lemma_first_shard_valid, lemma_split_valid, lemma_valid_partition,
    spec_infos_valid,
};
use rand::rngs::ThreadRng;
use rand::Rng;
use std::collections::hash_map::DefaultHasher;
use std::hash::Hasher;
use vstd::arithmetic::div_mod::{
    lemma_fundamental_div_mod, lemma_fundamental_div_mod_converse, lemma_mod_pos_bound,
};
use vstd::prelude::*;
use vstd::std_specs::hash::DefaultHasherAdditionalSpecFns;
use vstd::utf8::{
    encode_utf8, encode_utf8_decode_utf8, encode_utf8_valid_utf8, is_ascii_chars,
    is_ascii_chars_encode_utf8,
};

verus! {

/// Number of letters in a generated file hash.
pub const FILEHASH_LEN: usize = 16;

/// The break limit of a registry that is made without one being given.
pub const DEFAULT_SHARD_BREAK_LIMIT: usize = 32;

/// The 64-bit hash that routes a key to its shard.
pub open spec fn spec_hash_for_key(key: Seq<char>) -> u64 {
    DefaultHasher::spec_finish(seq![encode_utf8(key)])
}

/// Hashes the UTF-8 bytes of a key.
pub fn hash_for_key(key: &String) -> (r: u64)
    ensures
        r == spec_hash_for_key(key@),
{
    let mut hasher = DefaultHasher::new();
    hasher.write(key.as_str().as_bytes());
    assert(hasher@ =~= seq![encode_utf8(key@)]);
    hasher.finish()
}

/// `rand::rngs::ThreadRng`, carried from `rand::thread_rng` to `Rng::gen_range` without a
/// look inside.
#[verifier::external_type_specification]
#[verifier::external_body]
pub struct ExThreadRng(ThreadRng);

/// `rand::thread_rng`: a handle to the random number generator of the current thread.
/// Nothing is claimed of it. It panics where the system has no randomness to seed the
/// generator with.
pub assume_specification[ rand::thread_rng ]() -> (rng: ThreadRng)
;

/// `Rng::gen_range` of rand on the half-open range `low..high`: some byte of that range.
/// Which one is up to the generator. The range must not be empty.
#[verifier::external_body]
fn gen_range_u8(rng: &mut ThreadRng, low: u8, high: u8) -> (r: u8)
    requires
        low < high,
    ensures
        low <= r < high,
{
    rng.gen_range(low..high)
}

/// Whether `name` could have come from `generate_random_name`: sixteen letters, each
/// from `a` up to, but not including, `z`.
pub open spec fn spec_is_random_name(name: Seq<char>) -> bool {
    &&& name.len() == FILEHASH_LEN
    &&& forall|i: int| 0 <= i < name.len() ==> 'a' <= #[trigger] name[i] < 'z'
}

/// The string spelled by ASCII bytes.
pub fn ascii_string(bytes: Vec<u8>) -> (r: String)
    requires
        forall|i: int| 0 <= i < bytes@.len() ==> bytes@[i] < 128,
    ensures
        r@ == Seq::new(bytes@.len(), |i: int| bytes@[i] as char),
{
    proof {
        let chars = Seq::new(bytes@.len(), |i: int| bytes@[i] as char);
        assert(is_ascii_chars(chars));
        is_ascii_chars_encode_utf8(chars);
        assert(encode_utf8(chars) =~= bytes@);
        encode_utf8_valid_utf8(chars);
        encode_utf8_decode_utf8(chars);
    }
    decode_key(bytes).unwrap()
}

/// A fresh name for a shard's files.
pub fn generate_random_name() -> (r: String)
    ensures
        spec_is_random_name(r@),
{
    let mut rng = rand::thread_rng();
    let mut bytes: Vec<u8> = Vec::new();
    let mut i: usize = 0;
    while i < FILEHASH_LEN
        invariant
            i <= FILEHASH_LEN,
            bytes@.len() == i,
            forall|k: int| 0 <= k < i ==> 97 <= #[trigger] bytes@[k] < 122,
        decreases FILEHASH_LEN - i,
    {
        let byte: u8 = gen_range_u8(&mut rng, 97u8, 122u8);
        bytes.push(byte);
        i = i + 1;
    }
    ascii_string(bytes)
}

/// The part of the hash space that one shard owns.
#[derive(Debug, Clone, Copy, PartialEq, Eq)]
pub struct ShardFileInfo {
    pub mod_base: u64,
    pub mod_value: u64,
}

impl ShardFileInfo {
    pub fn new(mod_base: u64, mod_value: u64) -> (r: Self)
        ensures
            r.mod_base == mod_base,
            r.mod_value == mod_value,
    {
        Self { mod_base, mod_value }
    }
}

/// Whether the shard described by `info` owns the keys that hash to `hash`.
pub open spec fn spec_owns(info: ShardFileInfo, hash: u64) -> bool {
    info.mod_base > 0 && hash % info.mod_base == info.mod_value
}

/// Whether some shard owns `hash`.
pub open spec fn spec_has_owner(infos: Seq<ShardFileInfo>, hash: u64) -> bool {
    exists|i: int| 0 <= i < infos.len() && #[trigger] spec_owns(infos[i], hash)
}

/// Whether the shards partition the hash space: every hash has exactly one owner. Each
/// shard's value lies below its base.
pub open spec fn spec_partition(infos: Seq<ShardFileInfo>) -> bool {
    &&& forall|i: int| 0 <= i < infos.len() ==> (#[trigger] infos[i]).mod_value < infos[i].mod_base
    &&& forall|hash: u64| #[trigger] spec_has_owner(infos, hash)
    &&& forall|hash: u64, i: int, j: int|
        0 <= i < infos.len() && 0 <= j < infos.len() && #[trigger] spec_owns(infos[i], hash)
            && #[trigger] spec_owns(infos[j], hash) ==> i == j
}

/// Position of the shard that owns `hash`.
pub open spec fn spec_owner(infos: Seq<ShardFileInfo>, hash: u64) -> int {
    choose|i: int| 0 <= i < infos.len() && #[trigger] spec_owns(infos[i], hash)
}

/// The two halves of a shard: the base doubles, and the keys whose hash has the old
/// value modulo the new base stay with the first half.
pub open spec fn spec_halves(info: ShardFileInfo) -> (ShardFileInfo, ShardFileInfo) {
    (
        ShardFileInfo { mod_base: (2 * info.mod_base) as u64, mod_value: info.mod_value },
        ShardFileInfo {
            mod_base: (2 * info.mod_base) as u64,
            mod_value: (info.mod_value + info.mod_base) as u64,
        },
    )
}

/// The shards after the one at `index` was split: its halves stand in its place.
pub open spec fn spec_split_infos(infos: Seq<ShardFileInfo>, index: int) -> Seq<ShardFileInfo> {
    let halves = spec_halves(infos[index]);
    infos.update(index, halves.0).insert(index + 1, halves.1)
}

/// The names after the shard at `index` was split and its halves were named.
pub open spec fn spec_split_names(
    names: Seq<Seq<char>>,
    index: int,
    lhs: Seq<char>,
    rhs: Seq<char>,
) -> Seq<Seq<char>> {
    names.update(index, lhs).insert(index + 1, rhs)
}

/// A remainder modulo `2m` is the remainder modulo `m`, or that plus `m`.
pub proof fn lemma_mod_double(h: int, m: int)
    requires
        0 <= h,
        0 < m,
    ensures
        h % (2 * m) == h % m || h % (2 * m) == h % m + m,
{
    let r = h % (2 * m);
    let q = h / (2 * m);
    lemma_fundamental_div_mod(h, 2 * m);
    lemma_mod_pos_bound(h, 2 * m);
    if r < m {
        assert(h == (2 * q) * m + r) by (nonlinear_arith)
            requires
                h == (2 * m) * q + r,
        ;
        lemma_fundamental_div_mod_converse(h, m, 2 * q, r);
    } else {
        assert(h == (2 * q + 1) * m + (r - m)) by (nonlinear_arith)
            requires
                h == (2 * m) * q + r,
        ;
        lemma_fundamental_div_mod_converse(h, m, 2 * q + 1, r - m);
    }
}

/// A hash belongs to a shard exactly when it belongs to one of its halves, and it never
/// belongs to both.
pub proof fn lemma_halves_own(info: ShardFileInfo, hash: u64)
    requires
        info.mod_value < info.mod_base,
        2 * info.mod_base <= u64::MAX,
    ensures
        spec_owns(info, hash) <==> (spec_owns(spec_halves(info).0, hash) || spec_owns(
            spec_halves(info).1,
            hash,
        )),
        !(spec_owns(spec_halves(info).0, hash) && spec_owns(spec_halves(info).1, hash)),
{
    lemma_mod_double(hash as int, info.mod_base as int);
    lemma_mod_pos_bound(hash as int, info.mod_base as int);
}

/// Splitting a shard keeps the partition. The owner of a hash moves with the places: a
/// hash of the split shard goes to the half that owns it, every other hash stays with
/// its shard.
pub proof fn lemma_split_partition(infos: Seq<ShardFileInfo>, index: int)
    requires
        spec_partition(infos),
        0 <= index < infos.len(),
        2 * infos[index].mod_base <= u64::MAX,
    ensures
        spec_partition(spec_split_infos(infos, index)),
        forall|hash: u64|
            #[trigger] spec_owner(spec_split_infos(infos, index), hash) == ({
                let before = spec_owner(infos, hash);
                if before < index {
                    before
                } else if before > index {
                    before + 1
                } else if spec_owns(spec_halves(infos[index]).0, hash) {
                    index
                } else {
                    index + 1
                }
            }),
{
    let after = spec_split_infos(infos, index);
    let halves = spec_halves(infos[index]);
    assert forall|hash: u64| #[trigger] spec_has_owner(after, hash) by {
        assert(spec_has_owner(infos, hash));
        let before = spec_owner(infos, hash);
        lemma_halves_own(infos[index], hash);
        let i = if before < index {
            before
        } else if before > index {
            before + 1
        } else if spec_owns(halves.0, hash) {
            index
        } else {
            index + 1
        };
        assert(spec_owns(after[i], hash));
    }
    assert forall|hash: u64, i: int, j: int|
        0 <= i < after.len() && 0 <= j < after.len() && #[trigger] spec_owns(after[i], hash)
            && #[trigger] spec_owns(after[j], hash) implies i == j by {
        lemma_halves_own(infos[index], hash);
        let bi = if i <= index {
            i
        } else {
            i - 1
        };
        let bj = if j <= index {
            j
        } else {
            j - 1
        };
        assert(spec_owns(infos[bi], hash));
        assert(spec_owns(infos[bj], hash));
    }
    assert forall|i: int| 0 <= i < after.len() implies (#[trigger] after[i]).mod_value
        < after[i].mod_base by {
        let bi = if i <= index {
            i
        } else {
            i - 1
        };
        assert(infos[bi].mod_value < infos[bi].mod_base);
    }
    assert forall|hash: u64| #[trigger]
        spec_owner(after, hash) == ({
            let before = spec_owner(infos, hash);
            if before < index {
                before
            } else if before > index {
                before + 1
            } else if spec_owns(halves.0, hash) {
                index
            } else {
                index + 1
            }
        }) by {
        assert(spec_has_owner(infos, hash));
        let before = spec_owner(infos, hash);
        lemma_halves_own(infos[index], hash);
        let i = if before < index {
            before
        } else if before > index {
            before + 1
        } else if spec_owns(halves.0, hash) {
            index
        } else {
            index + 1
        };
        assert(spec_owns(after[i], hash));
        assert(spec_owns(after[spec_owner(after, hash)], hash));
    }
}

/// One shard of the registry: the name of its files and its part of the hash space.
#[derive(Debug, PartialEq, Eq)]
pub struct ShardFile {
    pub filehash: String,
    pub info: ShardFileInfo,
}

impl Clone for ShardFile {
    fn clone(&self) -> (r: ShardFile)
        ensures
            r.filehash@ == self.filehash@,
            r.info == self.info,
    {
        ShardFile { filehash: self.filehash.clone(), info: self.info }
    }
}

/// The names of shards, in order.
pub open spec fn spec_file_names(files: Seq<ShardFile>) -> Seq<Seq<char>> {
    Seq::new(files.len(), |i: int| files[i].filehash@)
}

/// The parts of the hash space of shards, in order.
pub open spec fn spec_file_infos(files: Seq<ShardFile>) -> Seq<ShardFileInfo> {
    Seq::new(files.len(), |i: int| files[i].info)
}

/// The shards of a backup, with the size at which a shard is split.
pub struct ShardRegistry {
    files: Vec<ShardFile>,
    shard_break_limit: usize,
}

impl ShardRegistry {
    /// The names of the shards, in registry order.
    pub closed spec fn names(&self) -> Seq<Seq<char>> {
        spec_file_names(self.files@)
    }

    /// The parts of the hash space of the shards, in registry order.
    pub closed spec fn infos(&self) -> Seq<ShardFileInfo> {
        spec_file_infos(self.files@)
    }

    /// The size at which a shard is split.
    pub closed spec fn break_limit(&self) -> usize {
        self.shard_break_limit
    }

    /// No name is used twice, and the shards are the leaves of a tree of halvings, so
    /// that they partition the hash space.
    pub open spec fn wf(&self) -> bool {
        &&& self.names().len() == self.infos().len()
        &&& self.names().no_duplicates()
        &&& spec_infos_valid(self.infos())
        &&& spec_partition(self.infos())
    }

    /// Takes over the shards read from a registry file, if they pass the check and no
    /// name occurs twice among them.
    pub fn from_files(files: Vec<ShardFile>, shard_break_limit: usize) -> (r: Option<Self>)
        ensures
            r is Some <==> spec_file_names(files@).no_duplicates() && spec_infos_valid(
                spec_file_infos(files@),
            ),
            r matches Some(registry) ==> {
                &&& registry.wf()
                &&& registry.names() == spec_file_names(files@)
                &&& registry.infos() == spec_file_infos(files@)
                &&& registry.break_limit() == shard_break_limit
            },
    {
        if check_files(&files) {
            proof {
                lemma_valid_partition(spec_file_infos(files@));
            }
            Some(ShardRegistry { files, shard_break_limit })
        } else {
            None
        }
    }

    /// The registry of a fresh backup: one shard, freshly named, that owns every key.
    pub fn new(shard_break_limit: usize) -> (r: Self)
        ensures
            r.wf(),
            r.break_limit() == shard_break_limit,
            r.infos() == seq![ShardFileInfo { mod_base: 1, mod_value: 0 }],
            r.names().len() == 1,
            spec_is_random_name(r.names()[0]),
    {
        Self::with_first_shard(generate_random_name(), shard_break_limit)
    }

    /// The registry whose one shard, named `filehash`, owns every key.
    pub fn with_first_shard(filehash: String, shard_break_limit: usize) -> (r: Self)
        ensures
            r.wf(),
            r.break_limit() == shard_break_limit,
            r.infos() == seq![ShardFileInfo { mod_base: 1, mod_value: 0 }],
            r.names() == seq![filehash@],
    {
        let mut files: Vec<ShardFile> = Vec::new();
        files.push(ShardFile { filehash, info: ShardFileInfo::new(1, 0) });
        let r = ShardRegistry { files, shard_break_limit };
        proof {
            let infos = r.infos();
            assert(infos =~= seq![ShardFileInfo { mod_base: 1, mod_value: 0 }]);
            assert(r.names() =~= seq![filehash@]);
            lemma_first_shard_valid(infos);
            assert forall|hash: u64| #[trigger] spec_has_owner(infos, hash) by {
                assert(spec_owns(infos[0], hash));
            }
        }
        r
    }

    /// Number of shards.
    pub fn len(&self) -> (r: usize)
        ensures
            r == self.infos().len(),
            r == self.names().len(),
    {
        self.files.len()
    }

    /// The size at which a shard is split.
    pub fn shard_break_limit(&self) -> (r: usize)
        ensures
            r == self.break_limit(),
    {
        self.shard_break_limit
    }

    /// The shard at `index`.
    pub fn file(&self, index: usize) -> (r: &ShardFile)
        requires
            index < self.infos().len(),
        ensures
            r.filehash@ == self.names()[index as int],
            r.info == self.infos()[index as int],
    {
        &self.files[index]
    }

    /// Position of the shard named `filehash`, if there is one.
    pub fn index_of(&self, filehash: &String) -> (r: Option<usize>)
        ensures
            match r {
                Some(index) => index < self.names().len() && self.names()[index as int]
                    == filehash@,
                None => !self.names().contains(filehash@),
            },
    {
        let mut i: usize = 0;
        while i < self.files.len()
            invariant
                i <= self.files@.len(),
                forall|k: int| 0 <= k < i ==> self.names()[k] != filehash@,
            decreases self.files@.len() - i,
        {
            if self.files[i].filehash == *filehash {
                return Some(i);
            }
            i = i + 1;
        }
        None
    }

    /// Position of the shard that owns `hash`.
    pub fn index_for_hash(&self, hash: u64) -> (r: usize)
        requires
            self.wf(),
        ensures
            r == spec_owner(self.infos(), hash),
            r < self.infos().len(),
    {
        let ghost infos = self.infos();
        let ghost owner = spec_owner(infos, hash);
        assert(spec_has_owner(infos, hash));
        assert(spec_owns(infos[owner], hash));
        let mut i: usize = 0;
        while i < self.files.len()
            invariant
                i <= owner < self.files@.len(),
                infos == self.infos(),
                spec_partition(infos),
                spec_owns(infos[owner], hash),
            decreases self.files@.len() - i,
        {
            let info = self.files[i].info;
            assert(info == infos[i as int]);
            if info.mod_base > 0 && hash % info.mod_base == info.mod_value {
                assert(spec_owns(infos[i as int], hash));
                return i;
            }
            i = i + 1;
        }
        i
    }

    /// Position of the shard that owns `key`.
    pub fn index_for_key(&self, key: &String) -> (r: usize)
        requires
            self.wf(),
        ensures
            r == spec_owner(self.infos(), spec_hash_for_key(key@)),
            r < self.infos().len(),
    {
        self.index_for_hash(hash_for_key(key))
    }

    /// Name of the shard that owns `key`.
    pub fn filehash_for_key(&self, key: &String) -> (r: String)
        requires
            self.wf(),
        ensures
            r@ == self.names()[spec_owner(self.infos(), spec_hash_for_key(key@))],
    {
        let index = self.index_for_key(key);
        self.files[index].filehash.clone()
    }

    /// Whether the shard at `index` can be split into halves named `lhs` and `rhs`:
    /// the doubled base must fit, and the two names must be new and differ.
    pub open spec fn can_split(&self, index: int, lhs: Seq<char>, rhs: Seq<char>) -> bool {
        &&& 0 <= index < self.infos().len()
        &&& 2 * self.infos()[index].mod_base <= u64::MAX
        &&& lhs != rhs
        &&& !self.names().contains(lhs)
        &&& !self.names().contains(rhs)
    }

    /// Tells whether `can_split` holds.
    pub fn check_split(&self, index: usize, lhs: &String, rhs: &String) -> (r: bool)
        requires
            index < self.infos().len(),
        ensures
            r == self.can_split(index as int, lhs@, rhs@),
    {
        if self.files[index].info.mod_base > u64::MAX / 2 {
            return false;
        }
        if *lhs == *rhs {
            return false;
        }
        self.index_of(lhs).is_none() && self.index_of(rhs).is_none()
    }

    /// Replaces the shard at `index` by its halves, named `lhs` and `rhs`.
    pub fn split(&mut self, index: usize, lhs: String, rhs: String)
        requires
            old(self).wf(),
            old(self).can_split(index as int, lhs@, rhs@),
        ensures
            final(self).wf(),
            final(self).break_limit() == old(self).break_limit(),
            final(self).infos() == spec_split_infos(old(self).infos(), index as int),
            final(self).names() == spec_split_names(old(self).names(), index as int, lhs@, rhs@),
    {
        let old_info = self.files[index].info;
        let new_mod: u64 = old_info.mod_base * 2;
        proof {
            assert(old_info == old(self).infos()[index as int]);
            assert(old_info.mod_value < old_info.mod_base);
        }
        let lhs_file = ShardFile { filehash: lhs, info: ShardFileInfo::new(new_mod, old_info.mod_value) };
        let rhs_file = ShardFile {
            filehash: rhs,
            info: ShardFileInfo::new(new_mod, old_info.mod_value + old_info.mod_base),
        };
        let count: usize = self.files.len();
        assert(index < count);
        self.files.set(index, lhs_file);
        self.files.insert(index + 1, rhs_file);
        proof {
            let names = old(self).names();
            let after_names = spec_split_names(names, index as int, lhs@, rhs@);
            assert(self.infos() =~= spec_split_infos(old(self).infos(), index as int));
            assert(self.names() =~= after_names);
            lemma_split_partition(old(self).infos(), index as int);
            lemma_split_valid(old(self).infos(), index as int);
            assert forall|i: int, j: int|
                0 <= i < after_names.len() && 0 <= j < after_names.len() && i != j implies after_names[i]
                != after_names[j] by {
                let bi = if i <= index {
                    i
                } else {
                    i - 1
                };
                let bj = if j <= index {
                    j
                } else {
                    j - 1
                };
                if i != index && i != index + 1 {
                    assert(after_names[i] == names[bi]);
                    assert(names.contains(names[bi]));
                }
                if j != index && j != index + 1 {
                    assert(after_names[j] == names[bj]);
                    assert(names.contains(names[bj]));
                }
            }
        }
    }
}

} // verus!
