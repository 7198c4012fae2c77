//! Big-endian integers and small byte-vector helpers shared by the codecs.

use vstd::prelude::*;

verus! {

/// `256^n`.
pub open spec fn spec_pow256(n: nat) -> nat
    decreases n,
{
    if n == 0 {
        1
    } else {
        256 * spec_pow256((n - 1) as nat)
    }
}

/// The `width` low-order base-256 digits of `x`, most significant first.
pub open spec fn spec_be_bytes(x: nat, width: nat) -> Seq<u8>
    decreases width,
{
    if width == 0 {
        Seq::empty()
    } else {
        spec_be_bytes(x / 256, (width - 1) as nat).push((x % 256) as u8)
    }
}

/// The number that `bytes` spells in base 256, most significant digit first.
pub open spec fn spec_be_value(bytes: Seq<u8>) -> nat
    decreases bytes.len(),
{
    if bytes.len() == 0 {
        0
    } else {
        spec_be_value(bytes.drop_last()) * 256 + bytes.last() as nat
    }
}

/// The eight-byte big-endian form of a `u64`.
pub open spec fn spec_u64_be(x: u64) -> Seq<u8> {
    spec_be_bytes(x as nat, 8)
}

pub proof fn lemma_pow256_values()
    ensures
        spec_pow256(0) == 1,
        spec_pow256(1) == 0x100,
        spec_pow256(2) == 0x1_0000,
        spec_pow256(4) == 0x1_0000_0000,
        spec_pow256(8) == 0x1_0000_0000_0000_0000,
{
    reveal_with_fuel(spec_pow256, 9);
}

pub proof fn lemma_be_bytes_len(x: nat, width: nat)
    ensures
        spec_be_bytes(x, width).len() == width,
    decreases width,
{
    if width > 0 {
        lemma_be_bytes_len(x / 256, (width - 1) as nat);
    }
}

/// A big-endian number of `n` digits is below `256^n`.
pub proof fn lemma_be_value_bound(bytes: Seq<u8>)
    ensures
        spec_be_value(bytes) < spec_pow256(bytes.len()),
    decreases bytes.len(),
{
    if bytes.len() > 0 {
        lemma_be_value_bound(bytes.drop_last());
    }
}

/// Reading back the digits of `x` gives `x`, provided `x` fits in `width` digits.
pub proof fn lemma_be_value_of_bytes(x: nat, width: nat)
    requires
        x < spec_pow256(width),
    ensures
        spec_be_value(spec_be_bytes(x, width)) == x,
    decreases width,
{
    if width > 0 {
        let rest = spec_be_bytes(x / 256, (width - 1) as nat);
        let all = spec_be_bytes(x, width);
        lemma_be_value_of_bytes(x / 256, (width - 1) as nat);
        assert(all.drop_last() =~= rest);
        assert(all.last() == (x % 256) as u8);
    }
}

/// The `width` low-order base-256 digits of `x`, most significant first.
pub fn be_bytes(x: u64, width: usize) -> (r: Vec<u8>)
    requires
        width <= 8,
    ensures
        r@ == spec_be_bytes(x as nat, width as nat),
    decreases width,
{
    if width == 0 {
        Vec::new()
    } else {
        let mut r = be_bytes(x / 256, width - 1);
        r.push((x % 256) as u8);
        r
    }
}

/// The eight-byte big-endian form of `x`.
pub fn u64_be(x: u64) -> (r: Vec<u8>)
    ensures
        r@ == spec_u64_be(x),
        r@.len() == 8,
{
    proof {
        lemma_be_bytes_len(x as nat, 8);
    }
    be_bytes(x, 8)
}

/// The big-endian number held in `bytes[start..start + width]`.
pub fn be_value(bytes: &Vec<u8>, start: usize, width: usize) -> (r: u64)
    requires
        width <= 8,
        start + width <= bytes.len(),
    ensures
        r as nat == spec_be_value(bytes@.subrange(start as int, start + width)),
{
    let mut acc: u64 = 0;
    let mut i: usize = 0;
    while i < width
        invariant
            i <= width <= 8,
            start + width <= bytes.len(),
            acc as nat == spec_be_value(bytes@.subrange(start as int, start + i)),
        decreases width - i,
    {
        proof {
            let before = bytes@.subrange(start as int, start + i);
            let after = bytes@.subrange(start as int, start + i + 1);
            assert(after.drop_last() =~= before);
            assert(after.last() == bytes@[start + i]);
            lemma_be_value_bound(before);
            lemma_pow256_monotonic((i + 1) as nat, 8);
            lemma_pow256_values();
            assert(spec_pow256((i + 1) as nat) == 256 * spec_pow256(i as nat));
        }
        acc = acc * 256 + bytes[start + i] as u64;
        i = i + 1;
    }
    acc
}

pub proof fn lemma_pow256_monotonic(a: nat, b: nat)
    requires
        a <= b,
    ensures
        spec_pow256(a) <= spec_pow256(b),
    decreases b,
{
    if a < b {
        lemma_pow256_monotonic(a, (b - 1) as nat);
    }
}

/// A copy of `bytes[start..end]`.
pub fn copy_range(bytes: &Vec<u8>, start: usize, end: usize) -> (r: Vec<u8>)
    requires
        start <= end <= bytes@.len(),
    ensures
        r@ == bytes@.subrange(start as int, end as int),
{
    let mut r: Vec<u8> = Vec::new();
    let mut i: usize = start;
    while i < end
        invariant
            start <= i <= end <= bytes@.len(),
            r@ == bytes@.subrange(start as int, i as int),
        decreases end - i,
    {
        r.push(bytes[i]);
        i = i + 1;
        assert(r@ =~= bytes@.subrange(start as int, i as int));
    }
    r
}

/// Index of the first occurrence of `x` in `s`, or the length of `s` when it has none.
pub open spec fn spec_find<T>(s: Seq<T>, x: T) -> int
    decreases s.len(),
{
    if s.len() == 0 {
        0
    } else if s[0] == x {
        0
    } else {
        1 + spec_find(s.skip(1), x)
    }
}

/// Where `spec_find` points: within bounds, at `x` if inside, and past no earlier one.
pub proof fn lemma_find<T>(s: Seq<T>, x: T)
    ensures
        0 <= spec_find(s, x) <= s.len(),
        spec_find(s, x) < s.len() ==> s[spec_find(s, x)] == x,
        forall|i: int| 0 <= i < spec_find(s, x) ==> s[i] != x,
    decreases s.len(),
{
    if s.len() > 0 && s[0] != x {
        lemma_find(s.skip(1), x);
        let p = spec_find(s.skip(1), x);
        assert forall|i: int| 0 <= i < 1 + p implies s[i] != x by {
            if i > 0 {
                assert(s.skip(1)[i - 1] == s[i]);
            }
        }
    }
}

/// Any index that holds `x` and has no `x` before it is the one `spec_find` gives; so is
/// the length, when `x` does not occur.
pub proof fn lemma_find_unique<T>(s: Seq<T>, x: T, p: int)
    requires
        0 <= p <= s.len(),
        p < s.len() ==> s[p] == x,
        forall|i: int| 0 <= i < p ==> s[i] != x,
    ensures
        spec_find(s, x) == p,
{
    lemma_find(s, x);
    let q = spec_find(s, x);
    if q < p {
        assert(s[q] == x);
    } else if p < q {
        assert(s[p] == x);
    }
}

/// Index of the first `byte` in `bytes[start..]`, counted from `start`; the length of
/// that tail when `byte` does not occur in it.
pub fn find_byte(bytes: &Vec<u8>, start: usize, byte: u8) -> (r: usize)
    requires
        start <= bytes@.len(),
    ensures
        r as int == spec_find(bytes@.skip(start as int), byte),
        start + r <= bytes@.len(),
{
    let mut i: usize = start;
    while i < bytes.len() && bytes[i] != byte
        invariant
            start <= i <= bytes@.len(),
            forall|j: int| start <= j < i ==> bytes@[j] != byte,
        decreases bytes@.len() - i,
    {
        i = i + 1;
    }
    proof {
        let tail = bytes@.skip(start as int);
        assert forall|j: int| 0 <= j < i - start implies tail[j] != byte by {
            assert(tail[j] == bytes@[start + j]);
        }
        lemma_find_unique(tail, byte, i - start);
    }
    i - start
}

/// Whether `bytes[start..end]` is exactly `pattern`.
pub fn range_equals(bytes: &Vec<u8>, start: usize, end: usize, pattern: &Vec<u8>) -> (r: bool)
    requires
        start <= end <= bytes@.len(),
    ensures
        r == (bytes@.subrange(start as int, end as int) == pattern@),
{
    if end - start != pattern.len() {
        return false;
    }
    let mut i: usize = 0;
    while i < pattern.len()
        invariant
            start <= end <= bytes@.len(),
            end - start == pattern@.len(),
            i <= pattern@.len(),
            forall|j: int| 0 <= j < i ==> bytes@[start + j] == pattern@[j],
        decreases pattern@.len() - i,
    {
        if bytes[start + i] != pattern[i] {
            assert(bytes@.subrange(start as int, end as int)[i as int] != pattern@[i as int]);
            return false;
        }
        i = i + 1;
    }
    assert(bytes@.subrange(start as int, end as int) =~= pattern@);
    true
}

} // verus!
