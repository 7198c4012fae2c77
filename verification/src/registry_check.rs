//! What can be checked of a registry that was read from a file: that its shards are the
//! leaves of a tree of halvings, and hence partition the hash space.
//!
//! The bases are powers of two; any two shards are apart, that is, the value of the one
//! with the larger base, reduced modulo the smaller base, differs from the other value;
//! and the whole space is tiled: it is a shard, or both of its halves are tiled.

use crate::shard_registry::{
    lemma_mod_double, spec_file_infos, spec_file_names, spec_halves, spec_has_owner, spec_owns,
    spec_partition, spec_split_infos, ShardFile, ShardFileInfo,
};
use vstd::arithmetic::div_mod::{
    lemma_fundamental_div_mod, lemma_fundamental_div_mod_converse, lemma_mod_mod,
    lemma_mod_multiples_vanish, lemma_small_mod,
};
use vstd::prelude::*;

verus! {

/// Whether `m` is a power of two.
pub open spec fn spec_is_pow2(m: int) -> bool
    decreases m,
{
    if m <= 0 {
        false
    } else if m == 1 {
        true
    } else {
        m % 2 == 0 && spec_is_pow2(m / 2)
    }
}

/// Tells whether `m` is a power of two.
pub fn is_pow2(m: u64) -> (r: bool)
    ensures
        r == spec_is_pow2(m as int),
{
    if m == 0 {
        return false;
    }
    let mut x: u64 = m;
    while x % 2 == 0
        invariant
            x > 0,
            spec_is_pow2(x as int) == spec_is_pow2(m as int),
        decreases x,
    {
        x = x / 2;
    }
    x == 1
}

/// The double of a power of two is one.
pub proof fn lemma_pow2_double(m: int)
    requires
        spec_is_pow2(m),
    ensures
        spec_is_pow2(2 * m),
{
    assert((2 * m) / 2 == m);
}

/// Of two powers of two, the smaller divides the larger.
pub proof fn lemma_pow2_divides(a: int, b: int)
    requires
        spec_is_pow2(a),
        spec_is_pow2(b),
        a <= b,
    ensures
        b % a == 0,
    decreases a,
{
    if a > 1 {
        lemma_pow2_divides(a / 2, b / 2);
        let k = (b / 2) / (a / 2);
        lemma_fundamental_div_mod(b / 2, a / 2);
        assert(b == k * a) by (nonlinear_arith)
            requires
                b == 2 * (b / 2),
                a == 2 * (a / 2),
                b / 2 == (a / 2) * k + 0,
        ;
        lemma_fundamental_div_mod_converse(b, a, k, 0);
    }
}

/// A multiple of `m` leaves the remainder modulo `m` as it is.
pub proof fn lemma_mod_shift(x: int, m: int, n: int)
    requires
        0 < m,
        n % m == 0,
    ensures
        (x + n) % m == x % m,
{
    lemma_fundamental_div_mod(n, m);
    let k = n / m;
    assert(x + n == m * k + x);
    lemma_mod_multiples_vanish(k, x, m);
}

/// Reducing modulo a multiple of `m` first does not change the remainder modulo `m`.
pub proof fn lemma_mod_of_mod(x: int, m: int, n: int)
    requires
        0 < m,
        0 < n,
        n % m == 0,
    ensures
        (x % n) % m == x % m,
{
    lemma_fundamental_div_mod(n, m);
    let k = n / m;
    assert(k > 0) by (nonlinear_arith)
        requires
            n == m * k + 0,
            n > 0,
            m > 0,
    ;
    assert(n == m * k);
    lemma_mod_mod(x, m, k);
}

/// Whether two shards are apart: the value of the one with the larger base, reduced
/// modulo the smaller base, differs from the value of the other.
pub open spec fn spec_apart(a: ShardFileInfo, b: ShardFileInfo) -> bool {
    if a.mod_base <= b.mod_base {
        b.mod_value % a.mod_base != a.mod_value
    } else {
        a.mod_value % b.mod_base != b.mod_value
    }
}

/// Shards that are apart share no hash.
pub proof fn lemma_apart_disjoint(a: ShardFileInfo, b: ShardFileInfo, hash: u64)
    requires
        spec_is_pow2(a.mod_base as int),
        spec_is_pow2(b.mod_base as int),
        spec_apart(a, b),
    ensures
        !(spec_owns(a, hash) && spec_owns(b, hash)),
{
    if a.mod_base <= b.mod_base {
        lemma_pow2_divides(a.mod_base as int, b.mod_base as int);
        lemma_mod_of_mod(hash as int, a.mod_base as int, b.mod_base as int);
    } else {
        lemma_pow2_divides(b.mod_base as int, a.mod_base as int);
        lemma_mod_of_mod(hash as int, b.mod_base as int, a.mod_base as int);
    }
}

/// Whether there is a shard with base `base` and value `value`.
pub open spec fn spec_has_info(infos: Seq<ShardFileInfo>, base: int, value: int) -> bool {
    exists|i: int|
        0 <= i < infos.len() && (#[trigger] infos[i]).mod_base == base && infos[i].mod_value
            == value
}

/// Whether there is a shard within the part `(base, value)` of the hash space that is
/// smaller than that part.
pub open spec fn spec_has_deeper(infos: Seq<ShardFileInfo>, base: int, value: int) -> bool {
    exists|i: int|
        0 <= i < infos.len() && (#[trigger] infos[i]).mod_base > base && (
        infos[i].mod_base as int) % base == 0 && (infos[i].mod_value as int) % base == value
}

/// Whether the part `(base, value)` of the hash space is tiled by shards: it is a shard,
/// or it holds smaller shards and both of its halves are tiled.
pub open spec fn spec_tiled(infos: Seq<ShardFileInfo>, base: int, value: int) -> bool
    decreases u64::MAX - base,
    when 1 <= base <= u64::MAX
{
    spec_has_info(infos, base, value) || (2 * base <= u64::MAX && spec_has_deeper(
        infos,
        base,
        value,
    ) && spec_tiled(infos, 2 * base, value) && spec_tiled(infos, 2 * base, value + base))
}

/// Every hash of a tiled part of the hash space has an owner.
pub proof fn lemma_tiled_covers(infos: Seq<ShardFileInfo>, base: int, value: int, hash: u64)
    requires
        1 <= base <= u64::MAX,
        spec_tiled(infos, base, value),
        (hash as int) % base == value,
    ensures
        spec_has_owner(infos, hash),
    decreases u64::MAX - base,
{
    if spec_has_info(infos, base, value) {
        let i = choose|i: int|
            0 <= i < infos.len() && (#[trigger] infos[i]).mod_base == base && infos[i].mod_value
                == value;
        assert(spec_owns(infos[i], hash));
    } else {
        lemma_mod_double(hash as int, base);
        if (hash as int) % (2 * base) == value {
            lemma_tiled_covers(infos, 2 * base, value, hash);
        } else {
            lemma_tiled_covers(infos, 2 * base, value + base, hash);
        }
    }
}

/// What is checked of the shards of a registry: each value lies below its base, each
/// base is a power of two, any two shards are apart, and the hash space is tiled.
pub open spec fn spec_infos_valid(infos: Seq<ShardFileInfo>) -> bool {
    &&& forall|i: int|
        0 <= i < infos.len() ==> (#[trigger] infos[i]).mod_value < infos[i].mod_base
            && spec_is_pow2(infos[i].mod_base as int)
    &&& forall|i: int, j: int|
        0 <= i < infos.len() && 0 <= j < infos.len() && i != j ==> spec_apart(
            #[trigger] infos[i],
            #[trigger] infos[j],
        )
    &&& spec_tiled(infos, 1, 0)
}

/// Shards that pass the check partition the hash space.
pub proof fn lemma_valid_partition(infos: Seq<ShardFileInfo>)
    requires
        spec_infos_valid(infos),
    ensures
        spec_partition(infos),
{
    assert forall|hash: u64| #[trigger] spec_has_owner(infos, hash) by {
        lemma_tiled_covers(infos, 1, 0, hash);
    }
    assert forall|hash: u64, i: int, j: int|
        0 <= i < infos.len() && 0 <= j < infos.len() && #[trigger] spec_owns(infos[i], hash)
            && #[trigger] spec_owns(infos[j], hash) implies i == j by {
        if i != j {
            lemma_apart_disjoint(infos[i], infos[j], hash);
        }
    }
}

/// One shard that owns everything passes the check.
pub proof fn lemma_first_shard_valid(infos: Seq<ShardFileInfo>)
    requires
        infos == seq![ShardFileInfo { mod_base: 1, mod_value: 0 }],
    ensures
        spec_infos_valid(infos),
{
    assert(infos[0].mod_base == 1 && infos[0].mod_value == 0);
}

proof fn lemma_tiled_after_split(infos: Seq<ShardFileInfo>, index: int, base: int, value: int)
    requires
        0 <= index < infos.len(),
        infos[index].mod_value < infos[index].mod_base,
        2 * infos[index].mod_base <= u64::MAX,
        1 <= base <= u64::MAX,
        0 <= value < base,
        spec_tiled(infos, base, value),
    ensures
        spec_tiled(spec_split_infos(infos, index), base, value),
    decreases u64::MAX - base,
{
    let after = spec_split_infos(infos, index);
    let halves = spec_halves(infos[index]);
    let m = infos[index].mod_base as int;
    let v = infos[index].mod_value as int;
    assert(after[index] == halves.0);
    assert(after[index + 1] == halves.1);
    if spec_has_info(infos, base, value) {
        let i = choose|i: int|
            0 <= i < infos.len() && (#[trigger] infos[i]).mod_base == base && infos[i].mod_value
                == value;
        if i < index {
            assert(after[i] == infos[i]);
        } else if i > index {
            assert(after[i + 1] == infos[i]);
        } else {
            assert(spec_has_info(after, 2 * m, v));
            assert(spec_has_info(after, 2 * m, v + m));
            assert(spec_has_deeper(after, m, v)) by {
                lemma_small_mod(v as nat, m as nat);
                assert((2 * m) % m == 0) by (nonlinear_arith)
                    requires
                        m > 0,
                ;
            }
            assert(2 * m >= 1 && 2 * m <= u64::MAX);
            assert(spec_tiled(after, 2 * m, v));
            assert(spec_tiled(after, 2 * m, v + m));
        }
    } else {
        let i = choose|i: int|
            0 <= i < infos.len() && (#[trigger] infos[i]).mod_base > base && (
            infos[i].mod_base as int) % base == 0 && (infos[i].mod_value as int) % base == value;
        if i < index {
            assert(after[i] == infos[i]);
        } else if i > index {
            assert(after[i + 1] == infos[i]);
        } else {
            assert((2 * m) % base == 0) by {
                lemma_mod_shift(m, base, m);
            }
            assert(after[index].mod_base > base);
        }
        assert(spec_has_deeper(after, base, value));
        lemma_tiled_after_split(infos, index, 2 * base, value);
        lemma_tiled_after_split(infos, index, 2 * base, value + base);
    }
}

/// The halves of a shard are apart from each other.
pub proof fn lemma_halves_apart_from_each_other(info: ShardFileInfo)
    requires
        info.mod_value < info.mod_base,
        2 * info.mod_base <= u64::MAX,
    ensures
        spec_apart(spec_halves(info).0, spec_halves(info).1),
        spec_apart(spec_halves(info).1, spec_halves(info).0),
{
    let m = info.mod_base as int;
    let v = info.mod_value as int;
    lemma_small_mod((v + m) as nat, (2 * m) as nat);
    lemma_small_mod(v as nat, (2 * m) as nat);
}

/// The halves of a shard are apart from every shard that the shard was apart from.
pub proof fn lemma_halves_apart(info: ShardFileInfo, other: ShardFileInfo)
    requires
        info.mod_value < info.mod_base,
        other.mod_value < other.mod_base,
        2 * info.mod_base <= u64::MAX,
        spec_is_pow2(info.mod_base as int),
        spec_is_pow2(other.mod_base as int),
        spec_apart(info, other),
    ensures
        spec_apart(spec_halves(info).0, other),
        spec_apart(spec_halves(info).1, other),
        spec_apart(other, spec_halves(info).0),
        spec_apart(other, spec_halves(info).1),
{
    let m = info.mod_base as int;
    let v = info.mod_value as int;
    let n = other.mod_base as int;
    let w = other.mod_value as int;
    lemma_small_mod((v + m) as nat, (2 * m) as nat);
    lemma_small_mod(v as nat, (2 * m) as nat);
    lemma_small_mod(v as nat, m as nat);
    if n <= m {
        lemma_pow2_divides(n, m);
        lemma_mod_shift(v, n, m);
    } else {
        lemma_pow2_divides(m, n);
        lemma_pow2_double(m);
        assert(n % 2 == 0);
        assert(n >= 2 * m) by {
            lemma_fundamental_div_mod(n, m);
            assert(n / m >= 2) by (nonlinear_arith)
                requires
                    n == m * (n / m) + 0,
                    n > m,
                    m > 0,
            ;
            assert(m * (n / m) >= 2 * m) by (nonlinear_arith)
                requires
                    n / m >= 2,
                    m > 0,
            ;
        }
        lemma_pow2_divides(2 * m, n);
        assert((2 * m) % m == 0) by (nonlinear_arith)
            requires
                m > 0,
        ;
        lemma_mod_of_mod(w, m, 2 * m);
        lemma_mod_shift(v, m, m);
    }
}

/// Splitting a shard of a registry that passes the check gives one that passes it.
pub proof fn lemma_split_valid(infos: Seq<ShardFileInfo>, index: int)
    requires
        spec_infos_valid(infos),
        0 <= index < infos.len(),
        2 * infos[index].mod_base <= u64::MAX,
    ensures
        spec_infos_valid(spec_split_infos(infos, index)),
{
    let after = spec_split_infos(infos, index);
    let halves = spec_halves(infos[index]);
    let back = |i: int|
        if i <= index {
            i
        } else {
            i - 1
        };
    assert forall|i: int| 0 <= i < after.len() implies (#[trigger] after[i]).mod_value
        < after[i].mod_base && spec_is_pow2(after[i].mod_base as int) by {
        assert(infos[back(i)].mod_value < infos[back(i)].mod_base);
        lemma_pow2_double(infos[index].mod_base as int);
    }
    assert forall|i: int, j: int|
        0 <= i < after.len() && 0 <= j < after.len() && i != j implies spec_apart(
        #[trigger] after[i],
        #[trigger] after[j],
    ) by {
        let bi = back(i);
        let bj = back(j);
        assert(infos[bi].mod_value < infos[bi].mod_base);
        assert(infos[bj].mod_value < infos[bj].mod_base);
        if bi == bj {
            lemma_halves_apart_from_each_other(infos[index]);
        } else if bi == index {
            assert(spec_apart(infos[bi], infos[bj]));
            lemma_halves_apart(infos[index], infos[bj]);
        } else if bj == index {
            assert(spec_apart(infos[bj], infos[bi]));
            lemma_halves_apart(infos[index], infos[bi]);
        } else {
            assert(spec_apart(infos[bi], infos[bj]));
        }
    }
    lemma_tiled_after_split(infos, index, 1, 0);
}

fn has_info(files: &Vec<ShardFile>, base: u64, value: u64) -> (r: bool)
    ensures
        r == spec_has_info(spec_file_infos(files@), base as int, value as int),
{
    let ghost infos = spec_file_infos(files@);
    let mut i: usize = 0;
    while i < files.len()
        invariant
            i <= files@.len(),
            infos == spec_file_infos(files@),
            forall|k: int|
                0 <= k < i ==> !((#[trigger] infos[k]).mod_base == base && infos[k].mod_value
                    == value),
        decreases files@.len() - i,
    {
        let info = files[i].info;
        assert(info == infos[i as int]);
        if info.mod_base == base && info.mod_value == value {
            return true;
        }
        i = i + 1;
    }
    false
}

fn has_deeper(files: &Vec<ShardFile>, base: u64, value: u64) -> (r: bool)
    requires
        base >= 1,
    ensures
        r == spec_has_deeper(spec_file_infos(files@), base as int, value as int),
{
    let ghost infos = spec_file_infos(files@);
    let mut i: usize = 0;
    while i < files.len()
        invariant
            i <= files@.len(),
            base >= 1,
            infos == spec_file_infos(files@),
            forall|k: int|
                0 <= k < i ==> !((#[trigger] infos[k]).mod_base > base && (
                infos[k].mod_base as int) % (base as int) == 0 && (infos[k].mod_value as int) % (
                base as int) == value),
        decreases files@.len() - i,
    {
        let info = files[i].info;
        assert(info == infos[i as int]);
        if info.mod_base > base && info.mod_base % base == 0 && info.mod_value % base == value {
            return true;
        }
        i = i + 1;
    }
    false
}

fn tiled(files: &Vec<ShardFile>, base: u64, value: u64) -> (r: bool)
    requires
        base >= 1,
        value < base,
    ensures
        r == spec_tiled(spec_file_infos(files@), base as int, value as int),
    decreases u64::MAX - base,
{
    if has_info(files, base, value) {
        return true;
    }
    if base > u64::MAX / 2 {
        return false;
    }
    if !has_deeper(files, base, value) {
        return false;
    }
    tiled(files, 2 * base, value) && tiled(files, 2 * base, value + base)
}

/// Whether the shards at `a` and `b` differ in name and are apart.
pub open spec fn spec_pair_apart(
    names: Seq<Seq<char>>,
    infos: Seq<ShardFileInfo>,
    a: int,
    b: int,
) -> bool {
    names[a] != names[b] && spec_apart(infos[a], infos[b]) && spec_apart(infos[b], infos[a])
}

/// Tells whether the shards read from a registry file pass the check, and no name
/// occurs twice among them.
pub fn check_files(files: &Vec<ShardFile>) -> (r: bool)
    ensures
        r == (spec_file_names(files@).no_duplicates() && spec_infos_valid(
            spec_file_infos(files@),
        )),
{
    let ghost infos = spec_file_infos(files@);
    let ghost names = spec_file_names(files@);
    let mut i: usize = 0;
    while i < files.len()
        invariant
            i <= files@.len(),
            infos == spec_file_infos(files@),
            names == spec_file_names(files@),
            forall|a: int|
                0 <= a < i ==> (#[trigger] infos[a]).mod_value < infos[a].mod_base
                    && spec_is_pow2(infos[a].mod_base as int),
            forall|a: int, b: int|
                0 <= a < i && 0 <= b < a ==> #[trigger] spec_pair_apart(names, infos, a, b),
        decreases files@.len() - i,
    {
        let info = files[i].info;
        assert(info == infos[i as int]);
        if info.mod_value >= info.mod_base || !is_pow2(info.mod_base) {
            return false;
        }
        let mut j: usize = 0;
        while j < i
            invariant
                j <= i < files@.len(),
                infos == spec_file_infos(files@),
                names == spec_file_names(files@),
                info == infos[i as int],
                info.mod_value < info.mod_base,
                forall|b: int| 0 <= b < i ==> (#[trigger] infos[b]).mod_value < infos[b].mod_base,
                forall|b: int| 0 <= b < j ==> #[trigger] spec_pair_apart(names, infos, i as int, b),
            decreases i - j,
        {
            let other = files[j].info;
            assert(other == infos[j as int]);
            assert(other.mod_value < other.mod_base);
            assert(names[i as int] == files@[i as int].filehash@);
            assert(names[j as int] == files@[j as int].filehash@);
            if files[j].filehash == files[i].filehash {
                assert(!spec_pair_apart(names, infos, i as int, j as int));
                return false;
            }
            let apart = if info.mod_base <= other.mod_base {
                other.mod_value % info.mod_base != info.mod_value
            } else {
                info.mod_value % other.mod_base != other.mod_value
            };
            if !apart {
                assert(!spec_pair_apart(names, infos, i as int, j as int));
                return false;
            }
            assert(spec_apart(infos[j as int], infos[i as int])) by {
                lemma_small_mod(info.mod_value as nat, info.mod_base as nat);
                lemma_small_mod(other.mod_value as nat, other.mod_base as nat);
            }
            assert(spec_pair_apart(names, infos, i as int, j as int));
            j = j + 1;
        }
        i = i + 1;
    }
    proof {
        assert forall|a: int, b: int|
            0 <= a < names.len() && 0 <= b < names.len() && a != b implies names[a]
            != names[b] by {
            if b < a {
                assert(spec_pair_apart(names, infos, a, b));
            } else {
                assert(spec_pair_apart(names, infos, b, a));
            }
        }
        assert forall|a: int, b: int|
            0 <= a < infos.len() && 0 <= b < infos.len() && a != b implies spec_apart(
            #[trigger] infos[a],
            #[trigger] infos[b],
        ) by {
            if b < a {
                assert(spec_pair_apart(names, infos, a, b));
            } else {
                assert(spec_pair_apart(names, infos, b, a));
            }
        }
    }
    tiled(files, 1, 0)
}

} // verus!
