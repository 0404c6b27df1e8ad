//! Splitting a message into fragments and putting it back together.

use vstd::prelude::*;
use crate::network::{Fragment, FRAGMENT_DSIZE};
use vstd::utf8::{decode_utf8, encode_utf8, valid_utf8};
use crate::network::NodeId;
use image::codecs::png::PngDecoder;
use image::{DynamicImage, ImageBuffer};
use image::DynamicImage::{
    ImageLuma16, ImageLuma8, ImageLumaA16, ImageLumaA8, ImageRgb16, ImageRgb8, ImageRgba16, ImageRgba8,
};
use image::ImageFormat::Png;
use std::io::Cursor;
use self::Pixels::{L16, L8, La16, La8, Rgb16, Rgb8, Rgba16, Rgba8};

verus! {

broadcast use {vstd::seq_lib::group_to_multiset_ensures, vstd::multiset::group_multiset_axioms};

/// Fragments ordered by non-decreasing `fragment_index` on `[lo, hi)`.
pub open spec fn sorted_between(s: Seq<Fragment>, lo: int, hi: int) -> bool {
    forall|p: int, q: int|
        lo <= p <= q < hi ==> #[trigger] s[p].fragment_index <= #[trigger] s[q].fragment_index
}

/// Fragments ordered by non-decreasing `fragment_index`.
pub open spec fn sorted_by_index(s: Seq<Fragment>) -> bool {
    sorted_between(s, 0, s.len() as int)
}

proof fn lemma_swap_multiset(s: Seq<Fragment>, i: int, j: int)
    requires
        0 <= i < s.len(),
        0 <= j < s.len(),
    ensures
        s.update(i, s[j]).update(j, s[i]).to_multiset() == s.to_multiset(),
{
    let t = s.update(i, s[j]);
    assert(s.update(i, s[j]) =~= s.remove(i).insert(i, s[j]));
    assert(t.update(j, s[i]) =~= t.remove(j).insert(j, s[i]));
    assert(t.to_multiset() =~= s.to_multiset().remove(s[i]).insert(s[j]));
    assert(t.update(j, s[i]).to_multiset() =~= t.to_multiset().remove(t[j]).insert(s[i]));
}

/// Sorts the fragments by their index (the order among fragments that carry
/// the same index is left to the algorithm).
pub fn sort_by_fragment_index(fragments: &mut Vec<Fragment>)
    ensures
        final(fragments)@.to_multiset() == old(fragments)@.to_multiset(),
        final(fragments)@.len() == old(fragments)@.len(),
        sorted_by_index(final(fragments)@),
{
    let len = fragments.len();
    let ghost orig = fragments@.to_multiset();
    for i in 0..len
        invariant
            len == fragments@.len(),
            fragments@.to_multiset() == orig,
            i > 0 ==> sorted_between(fragments@, 0, i as int),
            i > 0 ==> forall|k: int|
                0 <= k < len ==> #[trigger] fragments@[k].fragment_index <= fragments@[i - 1].fragment_index,
    {
        let ghost start = fragments@;
        for j in 0..len
            invariant
                len == fragments@.len(),
                0 <= i < len,
                fragments@.to_multiset() == orig,
                i > 0 ==> sorted_between(start, 0, i as int),
                i > 0 ==> forall|k: int|
                    0 <= k < len ==> #[trigger] start[k].fragment_index <= start[i - 1].fragment_index,
                // first phase: the prefix below `j` is sorted and dominated by slot `i`
                j <= i ==> sorted_between(fragments@, 0, j as int),
                j <= i ==> forall|p: int|
                    0 <= p < j ==> #[trigger] fragments@[p].fragment_index <= fragments@[i as int].fragment_index,
                j <= i ==> forall|p: int, k: int|
                    0 <= p < j <= k < i ==> #[trigger] fragments@[p].fragment_index <= #[trigger] fragments@[k].fragment_index,
                j <= i ==> forall|k: int| j <= k < i ==> #[trigger] fragments@[k] == start[k],
                j <= i ==> forall|k: int| i < k < len ==> #[trigger] fragments@[k] == start[k],
                // second phase: the prefix up to `i` is sorted
                j > i ==> sorted_between(fragments@, 0, i + 1),
                // the maximum sits in slot `i - 1` until the first phase reaches it, then in slot `i`
                i > 0 && j < i ==> forall|k: int|
                    0 <= k < len ==> #[trigger] fragments@[k].fragment_index <= fragments@[i - 1].fragment_index,
                i > 0 && j >= i ==> forall|k: int|
                    0 <= k < len ==> #[trigger] fragments@[k].fragment_index <= fragments@[i as int].fragment_index,
                i == 0 ==> forall|k: int|
                    0 <= k < j ==> #[trigger] fragments@[k].fragment_index <= fragments@[0].fragment_index,
        {
            if fragments[i].fragment_index < fragments[j].fragment_index {
                let ghost before = fragments@;
                let tmp = fragments[i];
                let other = fragments[j];
                fragments.set(i, other);
                fragments.set(j, tmp);
                proof {
                    lemma_swap_multiset(before, i as int, j as int);
                    assert(fragments@ =~= before.update(i as int, before[j as int]).update(j as int, before[i as int]));
                }
            }
        }
    }
}


/// `1 + 2 + ... + n`.
pub open spec fn triangle(n: nat) -> nat
    decreases n,
{
    if n == 0 {
        0
    } else {
        n + triangle((n - 1) as nat)
    }
}

/// Sum of the indices carried by the fragments.
pub open spec fn index_sum(s: Seq<Fragment>) -> nat
    decreases s.len(),
{
    if s.len() == 0 {
        0
    } else {
        index_sum(s.drop_last()) + s.last().fragment_index as nat
    }
}

/// The checksum test for completeness: the indices add up to
/// `1 + 2 + ... + n`, where `n` is the fragment count announced by the
/// first fragment.
pub open spec fn is_whole(s: Seq<Fragment>) -> bool {
    s.len() > 0 && index_sum(s) == triangle(s[0].total_n_fragments as nat)
}

/// Some fragment of `s` carries index `k`.
pub open spec fn carries_index(s: Seq<Fragment>, k: int) -> bool {
    exists|i: int| 0 <= i < s.len() && s[i].fragment_index == k
}

/// No two fragments of `s` carry the same index, and every index lies in
/// `1..=n`.
pub open spec fn distinct_indices_within(s: Seq<Fragment>, n: nat) -> bool {
    &&& forall|i: int, j: int| 0 <= i < j < s.len() ==> s[i].fragment_index != s[j].fragment_index
    &&& forall|i: int| 0 <= i < s.len() ==> 1 <= #[trigger] s[i].fragment_index <= n
}

/// The sum of the indices in `1..=n` that no fragment of `s` carries.
spec fn missing_sum(s: Seq<Fragment>, n: nat) -> nat
    decreases n,
{
    if n == 0 {
        0
    } else {
        missing_sum(s, (n - 1) as nat) + if carries_index(s, n as int) { 0nat } else { n }
    }
}

proof fn lemma_missing_sum_same(s: Seq<Fragment>, t: Seq<Fragment>, n: nat)
    requires
        forall|k: int| 1 <= k <= n ==> carries_index(s, k) == carries_index(t, k),
    ensures
        missing_sum(s, n) == missing_sum(t, n),
    decreases n,
{
    if n > 0 {
        lemma_missing_sum_same(s, t, (n - 1) as nat);
        assert(carries_index(s, n as int) == carries_index(t, n as int));
    }
}

proof fn lemma_missing_sum_zero(s: Seq<Fragment>, n: nat)
    ensures
        missing_sum(s, n) == 0 <==> forall|k: int| 1 <= k <= n ==> carries_index(s, k),
    decreases n,
{
    if n > 0 {
        lemma_missing_sum_zero(s, (n - 1) as nat);
        if missing_sum(s, n) == 0 {
            assert forall|k: int| 1 <= k <= n implies carries_index(s, k) by {
                if k < n {
                    assert(missing_sum(s, (n - 1) as nat) == 0);
                }
            }
        }
        if forall|k: int| 1 <= k <= n ==> carries_index(s, k) {
            assert(carries_index(s, n as int));
            assert forall|k: int| 1 <= k <= n - 1 implies carries_index(s, k) by {
                assert(1 <= k <= n);
            }
        }
    }
}

proof fn lemma_sum_plus_missing(s: Seq<Fragment>, n: nat)
    requires
        distinct_indices_within(s, n),
    ensures
        index_sum(s) + missing_sum(s, n) == triangle(n),
    decreases n,
{
    if n == 0 {
        if s.len() > 0 {
            assert(1 <= s[0].fragment_index <= n);
        }
    } else if carries_index(s, n as int) {
        let i = choose|i: int| 0 <= i < s.len() && s[i].fragment_index == n;
        let t = s.remove(i);
        lemma_index_sum_remove(s, i);
        assert forall|a: int| 0 <= a < t.len() implies 1 <= #[trigger] t[a].fragment_index <= n - 1 by {
            let j = if a < i { a } else { a + 1 };
            assert(t[a] == s[j]);
            assert(1 <= s[j].fragment_index <= n);
            if j < i {
                assert(s[j].fragment_index != s[i].fragment_index);
            } else {
                assert(s[i].fragment_index != s[j].fragment_index);
            }
        }
        assert forall|a: int, b: int| 0 <= a < b < t.len() implies t[a].fragment_index != t[b].fragment_index by {
            let ja = if a < i { a } else { a + 1 };
            let jb = if b < i { b } else { b + 1 };
            assert(t[a] == s[ja] && t[b] == s[jb] && ja < jb);
        }
        lemma_sum_plus_missing(t, (n - 1) as nat);
        assert forall|k: int| 1 <= k <= n - 1 implies carries_index(s, k) == carries_index(t, k) by {
            if carries_index(s, k) {
                let j = choose|j: int| 0 <= j < s.len() && s[j].fragment_index == k;
                assert(j != i);
                let a = if j < i { j } else { j - 1 };
                assert(t[a] == s[j]);
            }
            if carries_index(t, k) {
                let a = choose|a: int| 0 <= a < t.len() && t[a].fragment_index == k;
                let j = if a < i { a } else { a + 1 };
                assert(t[a] == s[j]);
            }
        }
        lemma_missing_sum_same(s, t, (n - 1) as nat);
    } else {
        assert forall|a: int| 0 <= a < s.len() implies 1 <= #[trigger] s[a].fragment_index <= n - 1 by {
            assert(1 <= s[a].fragment_index <= n);
            if s[a].fragment_index == n {
                assert(carries_index(s, n as int));
            }
        }
        lemma_sum_plus_missing(s, (n - 1) as nat);
    }
}

/// The wholeness check compares the sum of the fragment indices with
/// `1 + 2 + ... + n = n * (n + 1) / 2`, where `n` is the count the first
/// fragment announces.
pub proof fn lemma_wholeness_is_checksum(s: Seq<Fragment>)
    requires
        s.len() > 0,
    ensures
        is_whole(s) <==> 2 * index_sum(s) == s[0].total_n_fragments * (s[0].total_n_fragments + 1),
{
    lemma_triangle_closed(s[0].total_n_fragments as nat);
}

/// The wholeness check that `assemble` applies refuses every incomplete
/// set: for fragments with distinct indices that all lie in `1..=n`, where
/// `n` is the count the first fragment announces, the check passes exactly
/// when every index `1..=n` is carried by some fragment.
pub proof fn lemma_whole_iff_complete(s: Seq<Fragment>)
    requires
        s.len() > 0,
        distinct_indices_within(s, s[0].total_n_fragments as nat),
    ensures
        is_whole(s) <==> forall|k: int| 1 <= k <= s[0].total_n_fragments ==> carries_index(s, k),
{
    let n = s[0].total_n_fragments as nat;
    lemma_sum_plus_missing(s, n);
    lemma_missing_sum_zero(s, n);
}

proof fn lemma_triangle_monotone(a: nat, b: nat)
    requires
        a <= b,
    ensures
        triangle(a) <= triangle(b),
        a <= triangle(b) || b == 0,
    decreases b,
{
    if a < b {
        lemma_triangle_monotone(a, (b - 1) as nat);
    }
}

proof fn lemma_index_sum_prefix(s: Seq<Fragment>, k: int)
    requires
        0 <= k <= s.len(),
    ensures
        index_sum(s.take(k)) <= index_sum(s),
    decreases s.len() - k,
{
    if k < s.len() {
        lemma_index_sum_prefix(s, k + 1);
        assert(s.take(k + 1).drop_last() =~= s.take(k));
    } else {
        assert(s.take(k) =~= s);
    }
}

/// Whether the fragments pass the checksum test of `is_whole`.
pub fn check_wholeness(fragments: &Vec<Fragment>) -> (r: bool)
    requires
        fragments@.len() > 0,
        triangle(fragments@[0].total_n_fragments as nat) <= u64::MAX,
        index_sum(fragments@) <= u64::MAX,
    ensures
        r == is_whole(fragments@),
{
    let size = fragments[0].total_n_fragments;
    proof {
        lemma_triangle_monotone(size as nat, size as nat);
    }
    let mut count: u64 = 0;
    let mut i: u64 = 1;
    while i <= size
        invariant
            1 <= i <= size + 1,
            size == fragments@[0].total_n_fragments,
            size <= triangle(size as nat) || size == 0,
            triangle(size as nat) <= u64::MAX,
            count == triangle((i - 1) as nat),
        decreases size + 1 - i,
    {
        proof {
            lemma_triangle_monotone(i as nat, size as nat);
        }
        count = count + i;
        i = i + 1;
    }
    let mut check_count: u64 = 0;
    let n = fragments.len();
    for k in 0..n
        invariant
            n == fragments@.len(),
            index_sum(fragments@) <= u64::MAX,
            check_count == index_sum(fragments@.take(k as int)),
    {
        proof {
            lemma_index_sum_prefix(fragments@, k + 1);
            assert(fragments@.take(k + 1).drop_last() =~= fragments@.take(k as int));
        }
        check_count = check_count + fragments[k].fragment_index;
    }
    proof {
        assert(fragments@.take(n as int) =~= fragments@);
    }
    check_count == count
}


/// `f` has the given index and fragment count and carries exactly `bytes`,
/// zero-padded to the fragment capacity.
pub open spec fn carries(f: Fragment, index: nat, total: nat, bytes: Seq<u8>) -> bool {
    &&& f.fragment_index == index
    &&& f.total_n_fragments == total
    &&& bytes.len() <= FRAGMENT_DSIZE
    &&& f.length == bytes.len()
    &&& f.payload() == bytes
    &&& forall|k: int| bytes.len() <= k < FRAGMENT_DSIZE ==> #[trigger] f.data@[k] == 0
}

/// Fragment count announced by `serialize` for a body of `len` bytes (the
/// leading tag byte travels in a fragment of its own).
pub open spec fn announced_count(len: nat) -> nat {
    len / 128 + 1 + if len % 128 != 0 { 1nat } else { 0nat }
}

/// The checksum over the fragment indices of a `len`-byte body fits in a
/// `u64`: the sum 1 + 2 + ... + n of the `n` announced indices is at most
/// `u64::MAX`.
pub open spec fn checksum_fits(len: nat) -> bool {
    triangle(announced_count(len)) <= u64::MAX
}

proof fn lemma_triangle_closed(n: nat)
    ensures
        2 * triangle(n) == n * (n + 1),
    decreases n,
{
    if n == 0 {
        assert(n * (n + 1) == 0) by (nonlinear_arith)
            requires
                n == 0,
        ;
    } else {
        let m = (n - 1) as nat;
        lemma_triangle_closed(m);
        assert(triangle(n) == n + triangle(m));
        assert(m * (m + 1) + 2 * n == n * (n + 1)) by (nonlinear_arith)
            requires
                m + 1 == n,
        ;
    }
}

/// The checksum fits for every body of up to 2^39 bytes.
pub proof fn lemma_checksum_fits(len: nat)
    requires
        len <= 0x80_0000_0000,
    ensures
        checksum_fits(len),
{
    let n = announced_count(len);
    assert(n <= 0x1_0000_0001) by {
        assert(len / 128 <= 0x1_0000_0000);
        if len / 128 == 0x1_0000_0000 {
            assert(len == 0x80_0000_0000);
        }
    }
    lemma_triangle_closed(n);
    assert(n * (n + 1) <= 0x1_0000_0001 * 0x1_0000_0002) by (nonlinear_arith)
        requires
            n <= 0x1_0000_0001,
    ;
}

/// Number of body fragments that `serialize` produces for `len` bytes.
pub open spec fn body_count(len: nat) -> nat {
    if len > 128 {
        ((len + 127) / 128) as nat
    } else {
        1
    }
}

/// The bytes of the `k`-th body fragment: consecutive chunks of 128 bytes,
/// the last one possibly shorter. A body of at most 128 bytes travels whole
/// in one fragment.
pub open spec fn body_chunk(body: Seq<u8>, k: int) -> Seq<u8> {
    if body.len() > 128 {
        let end = if 128 * k + 128 <= body.len() { 128 * k + 128 } else { body.len() as int };
        body.subrange(128 * k, end)
    } else {
        body
    }
}

/// `frags` is what `serialize` makes of `datas`: the first byte alone in
/// fragment 1, then the rest in consecutive chunks of 128 bytes.
pub open spec fn is_serialization(datas: Seq<u8>, frags: Seq<Fragment>) -> bool {
    let body = datas.drop_first();
    let total = announced_count(body.len());
    &&& datas.len() >= 1
    &&& frags.len() == 1 + body_count(body.len())
    &&& carries(frags[0], 1, total, seq![datas[0]])
    &&& forall|k: int|
        0 <= k < body_count(body.len()) ==> #[trigger] carries(frags[k + 1], (k + 2) as nat, total, body_chunk(body, k))
}

/// Copies the first `len` bytes of `slice` into a zero-filled fragment buffer.
pub fn slice_to_array(slice: &[u8], len: usize) -> (res: [u8; 128])
    requires
        len <= slice@.len(),
        len <= FRAGMENT_DSIZE,
    ensures
        res@.subrange(0, len as int) == slice@.subrange(0, len as int),
        forall|k: int| len <= k < FRAGMENT_DSIZE ==> #[trigger] res@[k] == 0,
{
    let mut res: [u8; 128] = [0u8; 128];
    for i in 0..len
        invariant
            len <= slice@.len(),
            len <= FRAGMENT_DSIZE,
            forall|k: int| 0 <= k < i ==> #[trigger] res@[k] == slice@[k],
            forall|k: int| len <= k < FRAGMENT_DSIZE ==> #[trigger] res@[k] == 0,
    {
        res[i] = slice[i];
    }
    assert(res@.subrange(0, len as int) =~= slice@.subrange(0, len as int));
    res
}

fn chunk_fragment(index: u64, total: u64, bytes: &[u8]) -> (f: Fragment)
    requires
        bytes@.len() <= FRAGMENT_DSIZE,
    ensures
        carries(f, index as nat, total as nat, bytes@),
{
    let len = bytes.len();
    let data = slice_to_array(bytes, len);
    proof {
        assert(bytes@.subrange(0, len as int) =~= bytes@);
    }
    Fragment { fragment_index: index, total_n_fragments: total, length: len as u8, data }
}

/// Cuts a tagged message into fragments: the tag byte alone in fragment 1,
/// the rest in chunks of at most 128 bytes numbered from 2.
pub fn serialize(datas: Vec<u8>) -> (res: Vec<Fragment>)
    requires
        datas@.len() >= 1,
    ensures
        is_serialization(datas@, res@),
{
    let (f0, data) = datas.as_slice().split_at(1);
    let len = data.len();
    let mut size: u64 = (len / 128 + 1) as u64;
    if len % 128 != 0 {
        size = size + 1;
    }
    let ghost body = datas@.drop_first();
    assert(data@ =~= body);
    assert(f0@ =~= seq![datas@[0]]);
    let mut vec: Vec<Fragment> = Vec::new();
    vec.push(chunk_fragment(1, size, f0));
    let mut i: u64 = 2;
    if len > 128 {
        let mut start: usize = 0;
        while start < len
            invariant
                len == data@.len(),
                data@ == body,
                len > 128,
                size == announced_count(len as nat),
                i == vec@.len() + 1,
                vec@.len() >= 1,
                carries(vec@[0], 1, size as nat, seq![datas@[0]]),
                (start == 128 * (i - 2) && start < len) || (start == len && 128 * (i - 3) < len <= 128 * (i - 2)),
                forall|k: int|
                    0 <= k < i - 2 ==> #[trigger] carries(vec@[k + 1], (k + 2) as nat, size as nat, body_chunk(body, k)),
            decreases len - start,
        {
            let end = if len - start > 128 { start + 128 } else { len };
            let chunk = &data[start..end];
            let f = chunk_fragment(i, size, chunk);
            let ghost k = i - 2;
            proof {
                assert(chunk@ =~= body_chunk(body, k as int));
            }
            vec.push(f);
            i = i + 1;
            start = end;
        }
        proof {
            assert(body_count(len as nat) == i - 2);
        }
    } else {
        let chunk = &data[0..len];
        proof {
            assert(chunk@ =~= body_chunk(body, 0));
        }
        vec.push(chunk_fragment(i, size, chunk));
    }
    vec
}


/// The message bytes carried by the fragments, in order: every fragment but
/// the tag fragment (index 1) contributes its payload.
pub open spec fn payload_of(s: Seq<Fragment>) -> Seq<u8>
    decreases s.len(),
{
    if s.len() == 0 {
        Seq::empty()
    } else if s.last().fragment_index != 1 {
        payload_of(s.drop_last()) + s.last().payload()
    } else {
        payload_of(s.drop_last())
    }
}

/// Preconditions shared by the assemblers that sort and check fragments:
/// there is a first fragment, the checksum arithmetic stays within `u64`,
/// and every payload fits in the fragment buffer.
pub open spec fn assembly_ready(s: Seq<Fragment>) -> bool {
    &&& s.len() > 0
    &&& index_sum(s) <= u64::MAX
    &&& forall|k: int| 0 <= k < s.len() ==> triangle(#[trigger] s[k].total_n_fragments as nat) <= u64::MAX
    &&& forall|k: int| 0 <= k < s.len() && #[trigger] s[k].fragment_index != 1 ==> s[k].length <= FRAGMENT_DSIZE
}

/// Concatenates the payloads of all fragments except the tag fragment.
pub fn collect_payload(fragments: &Vec<Fragment>) -> (res: Vec<u8>)
    requires
        forall|k: int|
            0 <= k < fragments@.len() && #[trigger] fragments@[k].fragment_index != 1 ==> fragments@[k].length <= FRAGMENT_DSIZE,
    ensures
        res@ == payload_of(fragments@),
{
    let mut vec: Vec<u8> = Vec::new();
    let n = fragments.len();
    for k in 0..n
        invariant
            n == fragments@.len(),
            forall|k: int|
                0 <= k < fragments@.len() && #[trigger] fragments@[k].fragment_index != 1 ==> fragments@[k].length <= FRAGMENT_DSIZE,
            vec@ == payload_of(fragments@.take(k as int)),
    {
        let fr = &fragments[k];
        proof {
            assert(fragments@.take(k + 1).drop_last() =~= fragments@.take(k as int));
        }
        if fr.fragment_index != 1 {
            let ghost prefix = vec@;
            let len = fr.length;
            for i in 0..len
                invariant
                    len == fr.length,
                    len <= FRAGMENT_DSIZE,
                    vec@ == prefix + fr.data@.subrange(0, i as int),
            {
                vec.push(fr.data[i as usize]);
                assert(vec@ =~= prefix + fr.data@.subrange(0, i + 1));
            }
        }
    }
    assert(fragments@.take(n as int) =~= fragments@);
    vec
}

proof fn lemma_index_sum_remove(s: Seq<Fragment>, i: int)
    requires
        0 <= i < s.len(),
    ensures
        index_sum(s) == index_sum(s.remove(i)) + s[i].fragment_index,
    decreases s.len(),
{
    if i < s.len() - 1 {
        lemma_index_sum_remove(s.drop_last(), i);
        assert(s.remove(i).drop_last() =~= s.drop_last().remove(i));
        assert(s.remove(i).last() == s.last());
    } else {
        assert(s.remove(i) =~= s.drop_last());
    }
}

proof fn lemma_index_sum_permutation(s: Seq<Fragment>, p: Seq<Fragment>)
    requires
        p.to_multiset() == s.to_multiset(),
    ensures
        index_sum(p) == index_sum(s),
    decreases s.len(),
{
    vstd::seq_lib::to_multiset_len(p);
    vstd::seq_lib::to_multiset_len(s);
    if s.len() > 0 {
        let x = s.last();
        vstd::seq_lib::to_multiset_contains(p, x);
        vstd::seq_lib::to_multiset_contains(s, x);
        assert(p.contains(x));
        let i = choose|i: int| 0 <= i < p.len() && p[i] == x;
        vstd::seq_lib::to_multiset_remove(p, i);
        vstd::seq_lib::to_multiset_remove(s, s.len() - 1);
        assert(s.remove(s.len() - 1) =~= s.drop_last());
        lemma_index_sum_remove(p, i);
        lemma_index_sum_permutation(s.drop_last(), p.remove(i));
    }
}

proof fn lemma_ready_permutation(s: Seq<Fragment>, p: Seq<Fragment>)
    requires
        assembly_ready(s),
        p.to_multiset() == s.to_multiset(),
    ensures
        assembly_ready(p),
{
    lemma_index_sum_permutation(s, p);
    vstd::seq_lib::to_multiset_len(p);
    vstd::seq_lib::to_multiset_len(s);
    assert forall|k: int| 0 <= k < p.len() implies s.contains(#[trigger] p[k]) by {
        vstd::seq_lib::to_multiset_contains(p, p[k]);
        vstd::seq_lib::to_multiset_contains(s, p[k]);
    }
    assert forall|k: int| 0 <= k < p.len() implies triangle(#[trigger] p[k].total_n_fragments as nat) <= u64::MAX by {
        assert(s.contains(p[k]));
    }
    assert forall|k: int| 0 <= k < p.len() && #[trigger] p[k].fragment_index != 1 implies p[k].length <= FRAGMENT_DSIZE by {
        assert(s.contains(p[k]));
        let j = choose|j: int| 0 <= j < s.len() && s[j] == p[k];
        assert(s[j].fragment_index != 1);
    }
}

/// Sorts the fragments and, when they pass the checksum test, returns the
/// bytes they carry.
fn sort_and_collect(fragments: &mut Vec<Fragment>) -> (res: Option<Vec<u8>>)
    requires
        assembly_ready(old(fragments)@),
    ensures
        final(fragments)@.to_multiset() == old(fragments)@.to_multiset(),
        sorted_by_index(final(fragments)@),
        res is Some <==> is_whole(final(fragments)@),
        res matches Some(b) ==> b@ == payload_of(final(fragments)@),
{
    let ghost before = fragments@;
    sort_by_fragment_index(fragments);
    proof {
        lemma_ready_permutation(before, fragments@);
    }
    if !check_wholeness(fragments) {
        None
    } else {
        Some(collect_payload(fragments))
    }
}

/// Turns a value into the bytes of a tagged message: a leading byte that
/// tells the kind of message, then its content.
pub trait Fragmentation<T> {
    fn fragment(message: T) -> Vec<u8>;
}

/// Rebuilds a value from the fragments of a tagged message.
pub trait Assembler<T: Fragmentation<T>> {
    /// What the fragments handed to `assemble` must satisfy.
    spec fn assemble_requires(fragments: Seq<Fragment>) -> bool;

    fn assemble(fragments: &mut Vec<Fragment>) -> Result<T, String>
        requires
            Self::assemble_requires(old(fragments)@),
    ;
}

/// Tag byte of a text message.
pub const STRING_TAG: u8 = 1;

/// Bytes that `fragment` makes of a text message.
pub open spec fn string_message_bytes(message: Seq<char>) -> Seq<u8> {
    seq![STRING_TAG] + encode_utf8(message)
}

/// What `assemble` gives for a text message from fragments in the order it
/// leaves them: the decoded text when they pass the checksum test.
pub open spec fn string_assembly(s: Seq<Fragment>) -> Option<Seq<char>> {
    if is_whole(s) {
        Some(decode_utf8(payload_of(s)))
    } else {
        None
    }
}

#[verifier::external_type_specification]
#[verifier::external_body]
pub struct ExFromUtf8Error(std::string::FromUtf8Error);

/// `String::from_utf8`: per std's documentation it succeeds exactly on
/// valid UTF-8, and then the string holds the characters those bytes encode.
#[verifier::external_body]
fn string_from_utf8(bytes: Vec<u8>) -> (res: Result<String, std::string::FromUtf8Error>)
    ensures
        res is Ok <==> valid_utf8(bytes@),
        res matches Ok(s) ==> s@ == decode_utf8(bytes@),
{
    String::from_utf8(bytes)
}

impl Fragmentation<String> for String {
    fn fragment(message: String) -> (res: Vec<u8>)
        ensures
            res@ == string_message_bytes(message@),
    {
        let mut vec: Vec<u8> = vec![STRING_TAG];
        let bytes = message.as_str().as_bytes();
        let n = bytes.len();
        for i in 0..n
            invariant
                n == bytes@.len(),
                bytes@ == encode_utf8(message@),
                vec@ == seq![STRING_TAG] + bytes@.subrange(0, i as int),
        {
            vec.push(bytes[i]);
            assert(vec@ =~= seq![STRING_TAG] + bytes@.subrange(0, i + 1));
        }
        assert(bytes@.subrange(0, n as int) =~= bytes@);
        vec
    }
}

impl Assembler<String> for String {
    /// Besides `assembly_ready`, any sorted arrangement that passes the
    /// checksum carries valid UTF-8: the text is rebuilt from the bytes
    /// and invalid UTF-8 cannot be turned into a `String`.
    open spec fn assemble_requires(fragments: Seq<Fragment>) -> bool {
        &&& assembly_ready(fragments)
        &&& forall|p: Seq<Fragment>|
            #![trigger p.to_multiset(), is_whole(p)]
            p.to_multiset() == fragments.to_multiset() && sorted_by_index(p) && is_whole(p) ==> valid_utf8(payload_of(p))
    }

    fn assemble(fragments: &mut Vec<Fragment>) -> (res: Result<String, String>)
        ensures
            final(fragments)@.to_multiset() == old(fragments)@.to_multiset(),
            sorted_by_index(final(fragments)@),
            res matches Ok(s) ==> string_assembly(final(fragments)@) == Some(s@),
            res matches Err(e) ==> string_assembly(final(fragments)@) is None
                && e@ == "Missing one or more fragments. Cannot reconstruct the message"@,
            string_assembly(final(fragments)@) is None ==> res is Err,
    {
        match sort_and_collect(fragments) {
            None => Err("Missing one or more fragments. Cannot reconstruct the message".to_string()),
            Some(vec) => {
                match string_from_utf8(vec) {
                    Ok(s) => Ok(s),
                    Err(_) => {
                        proof {
                            assert(false);
                        }
                        Err("Missing one or more fragments. Cannot reconstruct the message".to_string())
                    },
                }
            },
        }
    }
}


/// Fragment `k` carries index `k + 1`, as in a sequence of fragments
/// numbered consecutively from 1.
pub open spec fn numbered_from_one(s: Seq<Fragment>) -> bool {
    forall|k: int| 0 <= k < s.len() ==> #[trigger] s[k].fragment_index == k + 1
}

proof fn lemma_serialization_shape(datas: Seq<u8>, frags: Seq<Fragment>)
    requires
        is_serialization(datas, frags),
    ensures
        numbered_from_one(frags),
        forall|k: int| 0 <= k < frags.len() ==> #[trigger] frags[k].total_n_fragments == announced_count((datas.len() - 1) as nat),
        forall|k: int| 0 <= k < frags.len() ==> #[trigger] frags[k].length <= FRAGMENT_DSIZE,
{
    assert forall|k: int| 1 <= k < frags.len() implies carries(#[trigger] frags[k], (k + 1) as nat,
        announced_count((datas.len() - 1) as nat), body_chunk(datas.drop_first(), k - 1)) by {
        assert(carries(frags[(k - 1) + 1], ((k - 1) + 2) as nat, announced_count((datas.len() - 1) as nat),
            body_chunk(datas.drop_first(), k - 1)));
    }
}

proof fn lemma_numbered_index_sum(s: Seq<Fragment>)
    requires
        numbered_from_one(s),
    ensures
        index_sum(s) == triangle(s.len()),
    decreases s.len(),
{
    if s.len() > 0 {
        lemma_numbered_index_sum(s.drop_last());
    }
}

proof fn lemma_sorted_permutation_unique(s: Seq<Fragment>, p: Seq<Fragment>)
    requires
        numbered_from_one(s),
        sorted_by_index(p),
        p.to_multiset() == s.to_multiset(),
    ensures
        p == s,
    decreases s.len(),
{
    vstd::seq_lib::to_multiset_len(p);
    vstd::seq_lib::to_multiset_len(s);
    if s.len() == 0 {
        assert(p =~= s);
    } else {
        let n = s.len() as int;
        let x = s.last();
        let y = p.last();
        vstd::seq_lib::to_multiset_contains(p, x);
        vstd::seq_lib::to_multiset_contains(s, x);
        vstd::seq_lib::to_multiset_contains(p, y);
        vstd::seq_lib::to_multiset_contains(s, y);
        let i = choose|i: int| 0 <= i < n && p[i] == x;
        let j = choose|j: int| 0 <= j < n && s[j] == y;
        assert(p[i].fragment_index <= p[n - 1].fragment_index);
        assert(s[j].fragment_index == j + 1);
        assert(j == n - 1);
        vstd::seq_lib::to_multiset_remove(p, n - 1);
        vstd::seq_lib::to_multiset_remove(s, n - 1);
        assert(p.remove(n - 1) =~= p.drop_last());
        assert(s.remove(n - 1) =~= s.drop_last());
        lemma_sorted_permutation_unique(s.drop_last(), p.drop_last());
        assert(p =~= p.drop_last().push(y));
        assert(s =~= s.drop_last().push(x));
    }
}

proof fn lemma_payload_of_tag_only(frags: Seq<Fragment>)
    requires
        frags.len() >= 1,
        frags[0].fragment_index == 1,
    ensures
        payload_of(frags.take(1)) == Seq::<u8>::empty(),
{
    let t = frags.take(1);
    assert(t.last() == frags[0]);
    assert(t.drop_last() =~= Seq::<Fragment>::empty());
    assert(payload_of(t.drop_last()) == Seq::<u8>::empty());
}

proof fn lemma_payload_prefix(datas: Seq<u8>, frags: Seq<Fragment>, k: int)
    requires
        is_serialization(datas, frags),
        datas.len() - 1 > 128,
        0 <= k <= body_count((datas.len() - 1) as nat),
    ensures
        payload_of(frags.take(k + 1)) == datas.drop_first().subrange(
            0,
            if 128 * k <= datas.len() - 1 { 128 * k } else { datas.len() - 1 },
        ),
    decreases k,
{
    let body = datas.drop_first();
    let len = body.len();
    lemma_serialization_shape(datas, frags);
    if k == 0 {
        lemma_payload_of_tag_only(frags);
        assert(body.subrange(0, 0) =~= Seq::<u8>::empty());
    } else {
        let j = k - 1;
        lemma_payload_prefix(datas, frags, j);
        assert(carries(frags[j + 1], (j + 2) as nat, announced_count(len), body_chunk(body, j)));
        assert(frags.take(k + 1).drop_last() =~= frags.take(j + 1));
        assert(frags.take(k + 1).last() == frags[j + 1]);
        assert(128 * j < len);
        if 128 * j + 128 <= len {
            assert(body.subrange(0, 128 * j) + body.subrange(128 * j, 128 * j + 128) =~= body.subrange(0, 128 * k));
        } else {
            assert(body.subrange(0, 128 * j) + body.subrange(128 * j, len as int) =~= body.subrange(0, len as int));
        }
    }
}

proof fn lemma_serialization_payload(datas: Seq<u8>, frags: Seq<Fragment>)
    requires
        is_serialization(datas, frags),
    ensures
        payload_of(frags) == datas.drop_first(),
{
    let body = datas.drop_first();
    let len = body.len();
    lemma_serialization_shape(datas, frags);
    lemma_payload_of_tag_only(frags);
    if len > 128 {
        let n = body_count(len) as int;
        lemma_payload_prefix(datas, frags, n);
        assert(frags.take(n + 1) =~= frags);
        assert(body.subrange(0, len as int) =~= body);
    } else {
        let z: int = 0;
        assert(carries(frags[z + 1], (z + 2) as nat, announced_count(len), body_chunk(body, z)));
        assert(frags.take(2).drop_last() =~= frags.take(1));
        assert(frags.take(2) =~= frags);

    }
}

proof fn lemma_serialization_whole(datas: Seq<u8>, frags: Seq<Fragment>)
    requires
        is_serialization(datas, frags),
        datas.len() >= 2,
        checksum_fits((datas.len() - 1) as nat),
    ensures
        is_whole(frags),
        assembly_ready(frags),
{
    let len = (datas.len() - 1) as nat;
    lemma_serialization_shape(datas, frags);
    lemma_numbered_index_sum(frags);
    assert(announced_count(len) == 1 + body_count(len));
}



/// A tagged message is a value turned into bytes by `fragment`: its first
/// byte tells the kind of message.
/// Reassembling the fragments of a tagged message gives its body back,
/// whatever order the fragments arrive in, when the body is not empty:
/// sorting puts them back in the order
/// `serialize` produced, which passes the checksum.
pub proof fn lemma_body_roundtrip(datas: Seq<u8>, frags: Seq<Fragment>, arrived: Seq<Fragment>)
    requires
        datas.len() >= 2,
        checksum_fits((datas.len() - 1) as nat),
        is_serialization(datas, frags),
        arrived.to_multiset() == frags.to_multiset(),
    ensures
        assembly_ready(arrived),
        forall|p: Seq<Fragment>|
            p.to_multiset() == arrived.to_multiset() && sorted_by_index(p) ==> #[trigger] is_whole(p)
                && p == frags && payload_of(p) == datas.drop_first(),
{
    lemma_serialization_shape(datas, frags);
    lemma_serialization_whole(datas, frags);
    lemma_serialization_payload(datas, frags);
    lemma_ready_permutation(frags, arrived);
    assert forall|p: Seq<Fragment>|
        p.to_multiset() == arrived.to_multiset() && sorted_by_index(p) implies #[trigger] is_whole(p) && p == frags
            && payload_of(p) == datas.drop_first() by {
        lemma_sorted_permutation_unique(frags, p);
    }
}

/// Reassembling the fragments of a text message gives the text back,
/// whatever order the fragments arrive in. This holds when its UTF-8
/// encoding is not empty (the lone tag then fails the checksum).
pub proof fn lemma_string_roundtrip(message: Seq<char>, frags: Seq<Fragment>, arrived: Seq<Fragment>)
    requires
        encode_utf8(message).len() != 0,
        checksum_fits(encode_utf8(message).len()),
        is_serialization(string_message_bytes(message), frags),
        arrived.to_multiset() == frags.to_multiset(),
    ensures
        <String as Assembler<String>>::assemble_requires(arrived),
        forall|p: Seq<Fragment>|
            p.to_multiset() == arrived.to_multiset() && sorted_by_index(p) ==> #[trigger] string_assembly(p) == Some(message),
{
    let datas = string_message_bytes(message);
    assert(datas.drop_first() =~= encode_utf8(message));
    lemma_body_roundtrip(datas, frags, arrived);
    vstd::utf8::encode_utf8_valid_utf8(message);
    vstd::utf8::encode_utf8_decode_utf8(message);
    assert forall|p: Seq<Fragment>|
        #![trigger p.to_multiset(), is_whole(p)]
        p.to_multiset() == arrived.to_multiset() && sorted_by_index(p) && is_whole(p) implies valid_utf8(payload_of(p)) by {
        assert(is_whole(p) && p == frags);
    }
    assert forall|p: Seq<Fragment>|
        p.to_multiset() == arrived.to_multiset() && sorted_by_index(p) implies #[trigger] string_assembly(p) == Some(message) by {
        assert(is_whole(p) && p == frags);
    }
}

/// The requests a client can send without arguments.
#[allow(non_camel_case_types)]
#[derive(Debug, PartialEq, Eq, Clone, Copy, Structural)]
pub enum DefaultsRequest {
    LOGIN,
    REGISTER,
    GETALLTEXT,
    GETALLMEDIALINKS,
    SETUNAVAILABLE,
    SETAVAILABLE,
    GETALLAVAILABLE,
}

/// Tag byte of a default request.
pub const DEFAULTS_TAG: u8 = 4;

/// The byte that identifies each default request.
pub open spec fn defaults_code(r: DefaultsRequest) -> u8 {
    match r {
        DefaultsRequest::LOGIN => 0,
        DefaultsRequest::REGISTER => 1,
        DefaultsRequest::GETALLTEXT => 2,
        DefaultsRequest::GETALLMEDIALINKS => 3,
        DefaultsRequest::GETALLAVAILABLE => 4,
        DefaultsRequest::SETAVAILABLE => 5,
        DefaultsRequest::SETUNAVAILABLE => 6,
    }
}

/// The default request a byte identifies, if any.
pub open spec fn defaults_from_code(c: u8) -> Option<DefaultsRequest> {
    if c == 0 {
        Some(DefaultsRequest::LOGIN)
    } else if c == 1 {
        Some(DefaultsRequest::REGISTER)
    } else if c == 2 {
        Some(DefaultsRequest::GETALLTEXT)
    } else if c == 3 {
        Some(DefaultsRequest::GETALLMEDIALINKS)
    } else if c == 4 {
        Some(DefaultsRequest::GETALLAVAILABLE)
    } else if c == 5 {
        Some(DefaultsRequest::SETAVAILABLE)
    } else if c == 6 {
        Some(DefaultsRequest::SETUNAVAILABLE)
    } else {
        None
    }
}

/// What `assemble` reads from the fragments of a default request: at most
/// two fragments, the request identified by the first byte of the second.
pub open spec fn defaults_assembly(s: Seq<Fragment>) -> Option<DefaultsRequest> {
    if s.len() > 2 {
        None
    } else {
        defaults_from_code(s[1].data@[0])
    }
}

/// The protocol's codes for the default requests: LOGIN 0, REGISTER 1,
/// GETALLTEXT 2, GETALLMEDIALINKS 3, GETALLAVAILABLE 4, SETAVAILABLE 5 and
/// SETUNAVAILABLE 6; each of these bytes is read back as the same request,
/// and no other byte names one.
pub proof fn lemma_defaults_protocol_codes()
    ensures
        defaults_code(DefaultsRequest::LOGIN) == 0,
        defaults_code(DefaultsRequest::REGISTER) == 1,
        defaults_code(DefaultsRequest::GETALLTEXT) == 2,
        defaults_code(DefaultsRequest::GETALLMEDIALINKS) == 3,
        defaults_code(DefaultsRequest::GETALLAVAILABLE) == 4,
        defaults_code(DefaultsRequest::SETAVAILABLE) == 5,
        defaults_code(DefaultsRequest::SETUNAVAILABLE) == 6,
        defaults_from_code(0) == Some(DefaultsRequest::LOGIN),
        defaults_from_code(1) == Some(DefaultsRequest::REGISTER),
        defaults_from_code(2) == Some(DefaultsRequest::GETALLTEXT),
        defaults_from_code(3) == Some(DefaultsRequest::GETALLMEDIALINKS),
        defaults_from_code(4) == Some(DefaultsRequest::GETALLAVAILABLE),
        defaults_from_code(5) == Some(DefaultsRequest::SETAVAILABLE),
        defaults_from_code(6) == Some(DefaultsRequest::SETUNAVAILABLE),
        forall|c: u8| c > 6 ==> #[trigger] defaults_from_code(c) is None,
{
}

impl Fragmentation<DefaultsRequest> for DefaultsRequest {
    fn fragment(message: DefaultsRequest) -> (res: Vec<u8>)
        ensures
            res@ == seq![DEFAULTS_TAG, defaults_code(message)],
    {
        match message {
            DefaultsRequest::LOGIN => vec![4, 0],
            DefaultsRequest::REGISTER => vec![4, 1],
            DefaultsRequest::GETALLTEXT => vec![4, 2],
            DefaultsRequest::GETALLMEDIALINKS => vec![4, 3],
            DefaultsRequest::GETALLAVAILABLE => vec![4, 4],
            DefaultsRequest::SETAVAILABLE => vec![4, 5],
            DefaultsRequest::SETUNAVAILABLE => vec![4, 6],
        }
    }
}

impl Assembler<DefaultsRequest> for DefaultsRequest {
    /// The identifier is read from the second fragment, which must exist.
    open spec fn assemble_requires(fragments: Seq<Fragment>) -> bool {
        fragments.len() >= 2
    }

    fn assemble(fragments: &mut Vec<Fragment>) -> (res: Result<DefaultsRequest, String>)
        ensures
            final(fragments)@ == old(fragments)@,
            res matches Ok(r) ==> defaults_assembly(old(fragments)@) == Some(r),
            defaults_assembly(old(fragments)@) matches Some(r) ==> res == Ok::<DefaultsRequest, String>(r),
            defaults_assembly(old(fragments)@) is None ==> res is Err,
            res matches Err(e) ==> if old(fragments)@.len() > 2 {
                e@ == "Lenght of default requests must be 2"@
            } else {
                e@ == "Default request identifier does not match"@
            },
    {
        if fragments.len() > 2 {
            Err("Lenght of default requests must be 2".to_string())
        } else {
            match fragments[1].data[0] {
                0 => Ok(DefaultsRequest::LOGIN),
                1 => Ok(DefaultsRequest::REGISTER),
                2 => Ok(DefaultsRequest::GETALLTEXT),
                3 => Ok(DefaultsRequest::GETALLMEDIALINKS),
                4 => Ok(DefaultsRequest::GETALLAVAILABLE),
                5 => Ok(DefaultsRequest::SETAVAILABLE),
                6 => Ok(DefaultsRequest::SETUNAVAILABLE),
                _ => Err("Default request identifier does not match".to_string()),
            }
        }
    }
}

/// Reassembling the fragments of a default request gives the request back.
pub proof fn lemma_defaults_roundtrip(r: DefaultsRequest, frags: Seq<Fragment>)
    requires
        is_serialization(seq![DEFAULTS_TAG, defaults_code(r)], frags),
    ensures
        <DefaultsRequest as Assembler<DefaultsRequest>>::assemble_requires(frags),
        defaults_assembly(frags) == Some(r),
{
    let datas = seq![DEFAULTS_TAG, defaults_code(r)];
    let body = datas.drop_first();
    assert(body =~= seq![defaults_code(r)]);
    let z: int = 0;
    assert(carries(frags[z + 1], (z + 2) as nat, announced_count(1), body_chunk(body, z)));
    assert(body_chunk(body, z) =~= body);
    assert(frags[1].data@[0] == frags[1].payload()[0]);
}

/// A piece of sound, kept as the bytes of its encoded form.
#[derive(Clone, Debug, PartialEq, Eq)]
pub struct AudioSource {
    pub bytes: Vec<u8>,
}

/// Tag byte of a sound message.
pub const AUDIO_TAG: u8 = 2;

/// What `assemble` gives for a sound message from fragments in the order it
/// leaves them: the carried bytes when they pass the checksum test.
pub open spec fn bytes_assembly(s: Seq<Fragment>) -> Option<Seq<u8>> {
    if is_whole(s) {
        Some(payload_of(s))
    } else {
        None
    }
}

impl Fragmentation<AudioSource> for AudioSource {
    fn fragment(message: AudioSource) -> (res: Vec<u8>)
        ensures
            res@ == seq![AUDIO_TAG] + message.bytes@,
    {
        let mut vec: Vec<u8> = vec![AUDIO_TAG];
        let mut bytes = message.bytes;
        let ghost b = bytes@;
        vec.append(&mut bytes);
        assert(vec@ =~= seq![AUDIO_TAG] + b);
        vec
    }
}

impl Assembler<AudioSource> for AudioSource {
    open spec fn assemble_requires(fragments: Seq<Fragment>) -> bool {
        assembly_ready(fragments)
    }

    fn assemble(fragments: &mut Vec<Fragment>) -> (res: Result<AudioSource, String>)
        ensures
            final(fragments)@.to_multiset() == old(fragments)@.to_multiset(),
            sorted_by_index(final(fragments)@),
            res matches Ok(a) ==> bytes_assembly(final(fragments)@) == Some(a.bytes@),
            res matches Err(e) ==> bytes_assembly(final(fragments)@) is None
                && e@ == "Missing one or more fragments. Cannot reconstruct the message"@,
            bytes_assembly(final(fragments)@) is None ==> res is Err,
    {
        match sort_and_collect(fragments) {
            None => Err("Missing one or more fragments. Cannot reconstruct the message".to_string()),
            Some(vec) => Ok(AudioSource { bytes: vec }),
        }
    }
}

/// A message addressed to a content server.
pub enum ContentRequest {
    /// A text file, by its path inside the assets directory.
    GETTEXT(String),
    /// A media file, by its path inside the assets directory.
    GETMEDIA(String),
}

/// A chat message for another client.
pub enum ChatRequests<T: Fragmentation<T> + Assembler<T>> {
    SENDTO(NodeId, T),
}

/// Tag byte of an image message.
pub const IMAGE_TAG: u8 = 3;

/// The first byte of a message tells its kind: 1 for text, 2 for sound, 3
/// for an image and 4 for a default request.
pub proof fn lemma_message_tags()
    ensures
        STRING_TAG == 1,
        AUDIO_TAG == 2,
        IMAGE_TAG == 3,
        DEFAULTS_TAG == 4,
{
}

/// The pixels of an image, row by row, in one of the layouts a PNG file
/// holds: grey or colour, with or without alpha, with 8-bit or 16-bit
/// channels.
#[derive(Clone, Debug, PartialEq, Eq)]
pub enum Pixels {
    L8(Vec<u8>),
    La8(Vec<u8>),
    Rgb8(Vec<u8>),
    Rgba8(Vec<u8>),
    L16(Vec<u16>),
    La16(Vec<u16>),
    Rgb16(Vec<u16>),
    Rgba16(Vec<u16>),
}

/// The layout and samples of a `Pixels`.
pub enum PixelsView {
    L8(Seq<u8>),
    La8(Seq<u8>),
    Rgb8(Seq<u8>),
    Rgba8(Seq<u8>),
    L16(Seq<u16>),
    La16(Seq<u16>),
    Rgb16(Seq<u16>),
    Rgba16(Seq<u16>),
}

impl View for Pixels {
    type V = PixelsView;

    open spec fn view(&self) -> PixelsView {
        match self {
            Pixels::L8(p) => PixelsView::L8(p@),
            Pixels::La8(p) => PixelsView::La8(p@),
            Pixels::Rgb8(p) => PixelsView::Rgb8(p@),
            Pixels::Rgba8(p) => PixelsView::Rgba8(p@),
            Pixels::L16(p) => PixelsView::L16(p@),
            Pixels::La16(p) => PixelsView::La16(p@),
            Pixels::Rgb16(p) => PixelsView::Rgb16(p@),
            Pixels::Rgba16(p) => PixelsView::Rgba16(p@),
        }
    }
}

/// How many samples one pixel takes in a layout.
pub open spec fn channels(p: PixelsView) -> nat {
    match p {
        PixelsView::L8(_) | PixelsView::L16(_) => 1,
        PixelsView::La8(_) | PixelsView::La16(_) => 2,
        PixelsView::Rgb8(_) | PixelsView::Rgb16(_) => 3,
        PixelsView::Rgba8(_) | PixelsView::Rgba16(_) => 4,
    }
}

/// How many samples there are.
pub open spec fn sample_count(p: PixelsView) -> nat {
    match p {
        PixelsView::L8(s) | PixelsView::La8(s) | PixelsView::Rgb8(s) | PixelsView::Rgba8(s) => s.len(),
        PixelsView::L16(s) | PixelsView::La16(s) | PixelsView::Rgb16(s) | PixelsView::Rgba16(s) => s.len(),
    }
}

/// The number of samples of one pixel, and the number of samples held.
fn sample_shape(p: &Pixels) -> (res: (u8, usize))
    ensures
        res.0 == channels(p@),
        res.1 == sample_count(p@),
{
    match p {
        Pixels::L8(v) => (1, v.len()),
        Pixels::La8(v) => (2, v.len()),
        Pixels::Rgb8(v) => (3, v.len()),
        Pixels::Rgba8(v) => (4, v.len()),
        Pixels::L16(v) => (1, v.len()),
        Pixels::La16(v) => (2, v.len()),
        Pixels::Rgb16(v) => (3, v.len()),
        Pixels::Rgba16(v) => (4, v.len()),
    }
}

/// The samples fill the image exactly: width times height pixels of the
/// layout's size.
pub open spec fn pixels_fit(img: Image) -> bool {
    sample_count(img.pixels@) == img.width * img.height * channels(img.pixels@)
}

/// An image: its dimensions and its pixels.
#[derive(Clone, Debug, PartialEq, Eq)]
pub struct Image {
    pub width: u32,
    pub height: u32,
    pub pixels: Pixels,
}

/// What the `image` crate's PNG encoder writes for the image with these
/// dimensions and pixels (`DynamicImage::write_to` with `ImageFormat::Png`),
/// or `None` when the encoder fails. It depends on its arguments alone.
pub uninterp spec fn png_encoding(width: u32, height: u32, pixels: PixelsView) -> Option<Seq<u8>>;

/// What the `image` crate's PNG decoder (`PngDecoder::new`, then
/// `DynamicImage::from_decoder`) makes of these bytes: dimensions and
/// pixels, or `None` when decoding fails (a PNG decodes to one of the eight
/// layouts of `Pixels`). It depends on the bytes alone.
pub uninterp spec fn png_decoding(bytes: Seq<u8>) -> Option<(u32, u32, PixelsView)>;

/// Builds the image from its plain values (`ImageBuffer::from_raw`) and
/// writes it as PNG with `DynamicImage::write_to`: the bytes written are
/// `png_encoding` of the arguments, and it gives `None` exactly where
/// `png_encoding` is `None`. The samples must fill the image exactly: the
/// PNG encoder asserts on the length of the buffer it is handed, and
/// `from_raw` refuses a shorter one.
#[verifier::external_body]
fn encode_png(width: u32, height: u32, pixels: Pixels) -> (res: Option<Vec<u8>>)
    requires
        sample_count(pixels@) == width * height * channels(pixels@),
    ensures
        match res {
            Some(b) => png_encoding(width, height, pixels@) == Some(b@),
            None => png_encoding(width, height, pixels@) is None,
        },
{
    let mut data = Cursor::default();
    (match pixels {
        L8(p) => ImageLuma8(ImageBuffer::from_raw(width, height, p)?),
        La8(p) => ImageLumaA8(ImageBuffer::from_raw(width, height, p)?),
        Rgb8(p) => ImageRgb8(ImageBuffer::from_raw(width, height, p)?),
        Rgba8(p) => ImageRgba8(ImageBuffer::from_raw(width, height, p)?),
        L16(p) => ImageLuma16(ImageBuffer::from_raw(width, height, p)?),
        La16(p) => ImageLumaA16(ImageBuffer::from_raw(width, height, p)?),
        Rgb16(p) => ImageRgb16(ImageBuffer::from_raw(width, height, p)?),
        Rgba16(p) => ImageRgba16(ImageBuffer::from_raw(width, height, p)?),
    })
    .write_to(&mut data, Png)
    .ok()?;
    Some(data.into_inner())
}

/// Decodes the bytes as PNG with `PngDecoder::new` and
/// `DynamicImage::from_decoder`, and hands out the decoded image's plain
/// values: they are `png_decoding` of the bytes, and it gives `None` exactly
/// where `png_decoding` is `None`.
#[verifier::external_body]
fn decode_png(bytes: &Vec<u8>) -> (res: Option<(u32, u32, Pixels)>)
    ensures
        match res {
            Some((w, h, p)) => png_decoding(bytes@) == Some((w, h, p@)),
            None => png_decoding(bytes@) is None,
        },
{
    let decoder = PngDecoder::new(Cursor::new(bytes)).ok()?;
    let img = DynamicImage::from_decoder(decoder).ok()?;
    let (w, h) = (img.width(), img.height());
    let pixels = match img {
        ImageLuma8(b) => L8(b.into_raw()),
        ImageLumaA8(b) => La8(b.into_raw()),
        ImageRgb8(b) => Rgb8(b.into_raw()),
        ImageRgba8(b) => Rgba8(b.into_raw()),
        ImageLuma16(b) => L16(b.into_raw()),
        ImageLumaA16(b) => La16(b.into_raw()),
        ImageRgb16(b) => Rgb16(b.into_raw()),
        ImageRgba16(b) => Rgba16(b.into_raw()),
        _ => return None,
    };
    Some((w, h, pixels))
}

/// `slice::sort_by_key` on the fragment index. Per std's documentation the
/// result is sorted by the key and holds the same fragments; that the sort
/// is stable is not stated.
#[verifier::external_body]
fn sort_fragments_stable(fragments: &mut Vec<Fragment>)
    ensures
        final(fragments)@.to_multiset() == old(fragments)@.to_multiset(),
        sorted_by_index(final(fragments)@),
{
    fragments.sort_by_key(|fr| fr.fragment_index)
}

/// What `fragment` makes of an image: the tag followed by the PNG encoding,
/// or the tag alone where the samples do not fill the image exactly or the
/// image cannot be encoded.
pub open spec fn image_message_bytes(img: Image) -> Seq<u8> {
    if !pixels_fit(img) {
        seq![IMAGE_TAG]
    } else {
        match png_encoding(img.width, img.height, img.pixels@) {
            Some(b) => seq![IMAGE_TAG] + b,
            None => seq![IMAGE_TAG],
        }
    }
}

/// Whether the samples fill an image of these dimensions exactly.
fn pixels_fill(width: u32, height: u32, pixels: &Pixels) -> (res: bool)
    ensures
        res == (sample_count(pixels@) == width * height * channels(pixels@)),
{
    let (ch, len) = sample_shape(pixels);
    let w: u128 = width as u128;
    let h: u128 = height as u128;
    assert(w * h <= 0xffff_ffffu128 * 0xffff_ffffu128) by (nonlinear_arith)
        requires
            w <= 0xffff_ffffu128,
            h <= 0xffff_ffffu128,
    ;
    let wh: u128 = w * h;
    assert(wh * (ch as u128) <= 0xffff_ffffu128 * 0xffff_ffffu128 * 4) by (nonlinear_arith)
        requires
            wh <= 0xffff_ffffu128 * 0xffff_ffffu128,
            ch <= 4,
    ;
    let total: u128 = wh * (ch as u128);
    total == len as u128
}

/// `img` has the plain values `v`.
pub open spec fn image_has(img: Image, v: (u32, u32, PixelsView)) -> bool {
    v == (img.width, img.height, img.pixels@)
}

impl Fragmentation<Image> for Image {
    /// The tag followed by the PNG encoding of the image. Where the samples
    /// do not fill the image, or the encoder fails, the message holds the
    /// tag alone.
    fn fragment(message: Image) -> (res: Vec<u8>)
        ensures
            res@ == image_message_bytes(message),
    {
        let mut vec: Vec<u8> = vec![IMAGE_TAG];
        if !pixels_fill(message.width, message.height, &message.pixels) {
            return vec;
        }
        match encode_png(message.width, message.height, message.pixels) {
            Some(mut data) => {
                let ghost d = data@;
                vec.append(&mut data);
                assert(vec@ =~= seq![IMAGE_TAG] + d);
            },
            None => {},
        }
        vec
    }
}

impl Assembler<Image> for Image {
    open spec fn assemble_requires(fragments: Seq<Fragment>) -> bool {
        assembly_ready(fragments)
    }

    /// Sorts the fragments, checks them with the checksum and decodes the
    /// carried bytes as PNG.
    fn assemble(fragments: &mut Vec<Fragment>) -> (res: Result<Image, String>)
        ensures
            final(fragments)@.to_multiset() == old(fragments)@.to_multiset(),
            sorted_by_index(final(fragments)@),
            !is_whole(final(fragments)@) ==> (res matches Err(e)
                && e@ == "Missing one or more fragments. Cannot reconstruct the message."@),
            is_whole(final(fragments)@) ==> match png_decoding(payload_of(final(fragments)@)) {
                Some(v) => res matches Ok(img) && image_has(img, v),
                None => res matches Err(e) && e@ == "Failed to reconstruct the image from fragments."@,
            },
    {
        let ghost before = fragments@;
        sort_fragments_stable(fragments);
        proof {
            lemma_ready_permutation(before, fragments@);
        }
        if !check_wholeness(fragments) {
            return Err("Missing one or more fragments. Cannot reconstruct the message.".to_string());
        }
        let combined_data = collect_payload(fragments);
        match decode_png(&combined_data) {
            Some((width, height, pixels)) => Ok(Image { width, height, pixels }),
            None => Err("Failed to reconstruct the image from fragments.".to_string()),
        }
    }
}

/// Reassembling the fragments of an image gives the image back, whatever
/// order they arrive in, when the PNG decoder gives back what the encoder
/// wrote for it.
/// How many samples an image's pixels need: one per pixel for grey, two
/// for grey with alpha, three for RGB and four for RGBA, at either depth.
/// An image that has exactly that many fragments to the tag followed by its
/// PNG encoding when the encoder accepts it; any other number of samples
/// gives the tag alone.
pub proof fn lemma_image_message_by_layout(img: Image)
    ensures
        ({
            let area = img.width * img.height;
            let exact = match img.pixels {
                Pixels::L8(p) => p@.len() == area,
                Pixels::La8(p) => p@.len() == 2 * area,
                Pixels::Rgb8(p) => p@.len() == 3 * area,
                Pixels::Rgba8(p) => p@.len() == 4 * area,
                Pixels::L16(p) => p@.len() == area,
                Pixels::La16(p) => p@.len() == 2 * area,
                Pixels::Rgb16(p) => p@.len() == 3 * area,
                Pixels::Rgba16(p) => p@.len() == 4 * area,
            };
            image_message_bytes(img) == if exact {
                match png_encoding(img.width, img.height, img.pixels@) {
                    Some(b) => seq![IMAGE_TAG] + b,
                    None => seq![IMAGE_TAG],
                }
            } else {
                seq![IMAGE_TAG]
            }
        }),
{
    let area = img.width * img.height;
    assert(area * 1 == area && area * 2 == 2 * area && area * 3 == 3 * area && area * 4 == 4 * area);
}

pub proof fn lemma_image_roundtrip(img: Image, frags: Seq<Fragment>, arrived: Seq<Fragment>)
    requires
        png_encoding(img.width, img.height, img.pixels@) matches Some(b)
            && png_decoding(b) == Some((img.width, img.height, img.pixels@))
            && b.len() >= 1 && checksum_fits(b.len()),
        pixels_fit(img),
        is_serialization(image_message_bytes(img), frags),
        arrived.to_multiset() == frags.to_multiset(),
    ensures
        <Image as Assembler<Image>>::assemble_requires(arrived),
        forall|p: Seq<Fragment>|
            p.to_multiset() == arrived.to_multiset() && sorted_by_index(p) ==> #[trigger] is_whole(p)
                && png_decoding(payload_of(p)) == Some((img.width, img.height, img.pixels@)),
{
    let b = png_encoding(img.width, img.height, img.pixels@)->Some_0;
    let datas = image_message_bytes(img);
    assert(datas.drop_first() =~= b);
    lemma_body_roundtrip(datas, frags, arrived);
}

} // verus!
