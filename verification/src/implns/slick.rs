//! Adapted Slick hash: a main table cut into blocks whose boundaries slide,
//! with per-block thresholds and an open-addressed overflow "backyard".

use vstd::prelude::*;
use crate::hash_utils::{hash1, hash2, spec_hash1, spec_hash2};
use crate::implns::linear::LinearTable;
use crate::implns::slots::{is_pow2, max_keys, spec_table_capacity};
use crate::trait_def::{seq_views, HashTable, TableKey};

verus! {

/// 2^64, the range of a hash value.
pub open spec fn two_pow_64() -> int {
    0x1_0000_0000_0000_0000
}

/// Block of a key of value `v` among `n` blocks: its primary hash scaled
/// from `[0, 2^64)` down to `[0, n)`.
pub open spec fn block_of<K: TableKey>(v: K::V, n: int) -> int {
    (spec_hash1::<K>(v) as int * n) / two_pow_64()
}

/// Threshold hash of a key of value `v`: its secondary hash scaled from
/// `[0, 2^64)` down to `[0, 10)`.
pub open spec fn threshold_of<K: TableKey>(v: K::V) -> int {
    (spec_hash2::<K>(v) as int * 10) / two_pow_64()
}

/// Scaling a hash down to `[0, n)` stays in range and fits in `u128`.
pub proof fn lemma_scale(h: int, n: int)
    requires
        0 <= h < two_pow_64(),
        0 < n < two_pow_64(),
    ensures
        0 <= h * n < two_pow_64() * two_pow_64(),
        0 <= (h * n) / two_pow_64() < n,
{
    assert(0 <= h * n) by (nonlinear_arith)
        requires
            0 <= h,
            0 < n,
    ;
    assert(h * n < two_pow_64() * n) by (nonlinear_arith)
        requires
            h < two_pow_64(),
            0 < n,
    ;
    assert(two_pow_64() * n <= two_pow_64() * two_pow_64()) by (nonlinear_arith)
        requires
            n < two_pow_64(),
    ;
    let x = h * n;
    vstd::arithmetic::div_mod::lemma_fundamental_div_mod(x, two_pow_64());
    assert((x / two_pow_64()) < n) by (nonlinear_arith)
        requires
            x == two_pow_64() * (x / two_pow_64()) + x % two_pow_64(),
            0 <= x % two_pow_64(),
            x < two_pow_64() * n,
    ;
    assert(0 <= x / two_pow_64()) by (nonlinear_arith)
        requires
            x == two_pow_64() * (x / two_pow_64()) + x % two_pow_64(),
            x % two_pow_64() < two_pow_64(),
            0 <= x,
    ;
}

/// Per-block metadata: how far the block start is shifted right of its base
/// position, how many free slots follow the block, and the threshold below
/// which keys of the block live in the backyard.
pub struct SlickHashMetaData {
    offset: usize,
    gap: usize,
    threshold: usize,
}

/// Offset of block `i` (0 past the last block).
spec fn off_at(meta: Seq<SlickHashMetaData>, i: int) -> int {
    if 0 <= i < meta.len() {
        meta[i].offset as int
    } else {
        0
    }
}

/// First slot of block `i`.
spec fn start_at(meta: Seq<SlickHashMetaData>, i: int) -> int {
    10 * i + off_at(meta, i)
}

/// One past the last key of block `i`: its gap ends where block `i + 1` starts.
spec fn end_at(meta: Seq<SlickHashMetaData>, i: int) -> int {
    10 * (i + 1) + off_at(meta, i + 1) - meta[i].gap as int
}

/// Block boundaries are consistent: offsets in `[0, 10]`, the first one 0,
/// thresholds at most 10, no block ends before it starts, and an empty block
/// keeps a gap of at least one slot.
spec fn layout_ok(meta: Seq<SlickHashMetaData>) -> bool {
    &&& meta.len() >= 1
    &&& meta[0].offset == 0
    &&& forall|i: int| #![trigger meta[i]] 0 <= i < meta.len() ==> {
        &&& meta[i].offset <= 10
        &&& meta[i].threshold <= 10
        &&& start_at(meta, i) <= end_at(meta, i)
        &&& start_at(meta, i) == end_at(meta, i) ==> meta[i].gap >= 1
    }
}

/// The keys of block `i`.
spec fn block_seq<K>(main: Seq<K>, meta: Seq<SlickHashMetaData>, i: int) -> Seq<K> {
    main.subrange(start_at(meta, i), end_at(meta, i))
}

/// No value occurs twice in a sequence.
pub open spec fn views_distinct<K: View>(s: Seq<K>) -> bool {
    forall|p: int, q: int| 0 <= p < s.len() && 0 <= q < s.len() && p != q ==> s[p]@ != s[q]@
}

/// Block `i` holds distinct keys, each of which belongs to block `i` and is at
/// or above the block's threshold.
spec fn block_ok<K: TableKey>(main: Seq<K>, meta: Seq<SlickHashMetaData>, i: int) -> bool {
    let s = block_seq(main, meta, i);
    &&& views_distinct(s)
    &&& forall|p: int| 0 <= p < s.len() ==> {
        &&& block_of::<K>(#[trigger] s[p]@, meta.len() as int) == i
        &&& threshold_of::<K>(s[p]@) >= meta[i].threshold
    }
}

/// Every block is well formed.
spec fn blocks_ok<K: TableKey>(main: Seq<K>, meta: Seq<SlickHashMetaData>) -> bool {
    &&& main.len() == 10 * meta.len()
    &&& forall|i: int| 0 <= i < meta.len() ==> #[trigger] block_ok(main, meta, i)
}

/// The values of the keys held in the main table.
spec fn main_keys<K: TableKey>(main: Seq<K>, meta: Seq<SlickHashMetaData>) -> Set<K::V> {
    Set::new(|v: K::V| {
        let b = block_of::<K>(v, meta.len() as int);
        0 <= b < meta.len() && seq_views(block_seq(main, meta, b)).contains(v)
    })
}

/// Block starts never decrease, and every block ends before the next starts.
proof fn lemma_layout_mono(meta: Seq<SlickHashMetaData>, i: int, k: int)
    requires
        layout_ok(meta),
        0 <= i <= k <= meta.len(),
    ensures
        start_at(meta, i) <= start_at(meta, k),
        i < k ==> end_at(meta, i) <= start_at(meta, k),
    decreases k - i,
{
    if i < k {
        assert(meta[i].offset <= 10);
        assert(end_at(meta, i) + meta[i].gap == start_at(meta, i + 1));
        lemma_layout_mono(meta, i + 1, k);
    }
}

/// Every block lies within the main table.
proof fn lemma_block_bounds(meta: Seq<SlickHashMetaData>, i: int)
    requires
        layout_ok(meta),
        0 <= i < meta.len(),
    ensures
        0 <= start_at(meta, i) <= end_at(meta, i) <= start_at(meta, i + 1) <= 10 * meta.len(),
        end_at(meta, i) + meta[i].gap == start_at(meta, i + 1),
{
    let n = meta.len() as int;
    assert(meta[i].offset <= 10);
    lemma_layout_mono(meta, i, n);
    lemma_layout_mono(meta, i + 1, n);
    assert(start_at(meta, n) == 10 * n);
}

/// Changing only block `b`'s gap (and threshold) and the slots between the
/// start of block `b` and the start of block `b + 1` leaves every other block
/// as it was.
proof fn lemma_frame<K>(
    main1: Seq<K>,
    meta1: Seq<SlickHashMetaData>,
    main2: Seq<K>,
    meta2: Seq<SlickHashMetaData>,
    b: int,
)
    requires
        layout_ok(meta1),
        layout_ok(meta2),
        meta1.len() == meta2.len(),
        main1.len() == 10 * meta1.len(),
        main2.len() == main1.len(),
        0 <= b < meta1.len(),
        forall|i: int| 0 <= i < meta1.len() && i != b ==> meta2[i] == meta1[i],
        meta2[b].offset == meta1[b].offset,
        forall|p: int|
            0 <= p < main1.len() && !(start_at(meta1, b) <= p < start_at(meta1, b + 1)) ==> main2[p] == main1[p],
    ensures
        forall|i: int| 0 <= i < meta1.len() && i != b ==> block_seq(main2, meta2, i) == block_seq(main1, meta1, i),
        forall|i: int| 0 <= i <= meta1.len() ==> start_at(meta2, i) == start_at(meta1, i),
{
    let n = meta1.len() as int;
    assert forall|i: int| 0 <= i <= n implies start_at(meta2, i) == start_at(meta1, i) by {
        if i < n && i != b {
            assert(meta2[i] == meta1[i]);
        }
    }
    assert forall|i: int| 0 <= i < n && i != b implies block_seq(main2, meta2, i) == block_seq(main1, meta1, i) by {
        assert(meta2[i] == meta1[i]);
        if i + 1 < n && i + 1 != b {
            assert(meta2[i + 1] == meta1[i + 1]);
        }
        assert(end_at(meta2, i) == end_at(meta1, i));
        lemma_block_bounds(meta1, i);
        lemma_block_bounds(meta1, b);
        if i < b {
            lemma_layout_mono(meta1, i + 1, b);
        } else {
            lemma_layout_mono(meta1, b + 1, i);
        }
        assert(block_seq(main2, meta2, i) =~= block_seq(main1, meta1, i));
    }
}

/// When every block but `b` is unchanged, the main keys change only in the
/// keys of block `b`.
proof fn lemma_main_keys_except<K: TableKey>(
    main1: Seq<K>,
    meta1: Seq<SlickHashMetaData>,
    main2: Seq<K>,
    meta2: Seq<SlickHashMetaData>,
    b: int,
)
    requires
        meta1.len() == meta2.len(),
        0 <= b < meta1.len(),
        forall|i: int| 0 <= i < meta1.len() && i != b ==> block_seq(main2, meta2, i) == block_seq(main1, meta1, i),
    ensures
        forall|v: K::V| block_of::<K>(v, meta1.len() as int) != b ==> (main_keys(main2, meta2).contains(v) == main_keys(main1, meta1).contains(v)),
        forall|v: K::V| block_of::<K>(v, meta1.len() as int) == b ==> (main_keys(main2, meta2).contains(v) == seq_views(block_seq(main2, meta2, b)).contains(v)),
        forall|v: K::V| block_of::<K>(v, meta1.len() as int) == b ==> (main_keys(main1, meta1).contains(v) == seq_views(block_seq(main1, meta1, b)).contains(v)),
{
}

/// Removing the key at `q` by moving the last key into its place.
proof fn lemma_swap_remove<K: View>(s: Seq<K>, q: int)
    requires
        0 <= q < s.len(),
        views_distinct(s),
    ensures
        views_distinct(s.update(q, s.last()).drop_last()),
        seq_views(s.update(q, s.last()).drop_last()) == seq_views(s).remove(s[q]@),
        forall|p: int| 0 <= p < q ==> s.update(q, s.last()).drop_last()[p] == s[p],
        forall|p: int| 0 <= p < s.len() - 1 ==> (#[trigger] s.update(q, s.last()).drop_last()[p] == s[p] || s.update(q, s.last()).drop_last()[p] == s.last()),
{
    let t = s.update(q, s.last()).drop_last();
    let last = s.len() - 1;
    assert forall|a: int, c: int| 0 <= a < t.len() && 0 <= c < t.len() && a != c implies t[a]@ != t[c]@ by {
        let ia = if a == q { last } else { a };
        let ic = if c == q { last } else { c };
        assert(t[a] == s[ia]);
        assert(t[c] == s[ic]);
    }
    assert forall|v: K::V| seq_views(t).contains(v) <==> #[trigger] seq_views(s).remove(s[q]@).contains(v) by {
        if seq_views(t).contains(v) {
            let a = choose|a: int| 0 <= a < t.len() && t[a]@ == v;
            let ia = if a == q { last } else { a };
            assert(t[a] == s[ia]);
            assert(ia != q);
        }
        if seq_views(s).remove(s[q]@).contains(v) {
            let a = choose|a: int| 0 <= a < s.len() && s[a]@ == v;
            assert(a != q);
            if a == last {
                assert(t[q] == s[last]);
            } else {
                assert(t[a] == s[a]);
            }
        }
    }
    assert(seq_views(t) =~= seq_views(s).remove(s[q]@));
}

/// Appending a key of a new value.
proof fn lemma_push<K: View>(s: Seq<K>, k: K)
    requires
        views_distinct(s),
        !seq_views(s).contains(k@),
    ensures
        views_distinct(s.push(k)),
        seq_views(s.push(k)) == seq_views(s).insert(k@),
{
    let t = s.push(k);
    assert forall|a: int, c: int| 0 <= a < t.len() && 0 <= c < t.len() && a != c implies t[a]@ != t[c]@ by {
        if a == s.len() {
            assert(seq_views(s).contains(t[c]@));
        } else if c == s.len() {
            assert(seq_views(s).contains(t[a]@));
        }
    }
    assert forall|v: K::V| seq_views(t).contains(v) <==> #[trigger] seq_views(s).insert(k@).contains(v) by {
        if seq_views(t).contains(v) {
            let a = choose|a: int| 0 <= a < t.len() && t[a]@ == v;
            if a < s.len() {
                assert(t[a] == s[a]);
            }
        }
        if seq_views(s).contains(v) {
            let a = choose|a: int| 0 <= a < s.len() && s[a]@ == v;
            assert(t[a] == s[a]);
        }
        if v == k@ {
            assert(t[s.len() as int] == k);
        }
    }
    assert(seq_views(t) =~= seq_views(s).insert(k@));
}

/// One eviction step on block `b`: the key at slot `j` is overwritten by the
/// block's last key and the block's gap grows by one.
proof fn lemma_evict_step<K: TableKey>(
    o_main: Seq<K>,
    o_meta: Seq<SlickHashMetaData>,
    main0: Seq<K>,
    meta0: Seq<SlickHashMetaData>,
    main1: Seq<K>,
    meta1: Seq<SlickHashMetaData>,
    b: int,
    j: int,
)
    requires
        layout_ok(o_meta),
        layout_ok(meta0),
        o_meta.len() == meta0.len(),
        o_main.len() == 10 * o_meta.len(),
        main0.len() == o_main.len(),
        0 <= b < o_meta.len(),
        forall|i: int| 0 <= i < o_meta.len() && i != b ==> meta0[i] == o_meta[i],
        meta0[b].offset == o_meta[b].offset,
        forall|p: int|
            0 <= p < o_main.len() && !(start_at(o_meta, b) <= p < start_at(o_meta, b + 1)) ==> main0[p] == o_main[p],
        start_at(meta0, b) <= j < end_at(meta0, b),
        main1 == main0.update(j, main0[end_at(meta0, b) - 1]),
        meta1 == meta0.update(b, SlickHashMetaData { offset: meta0[b].offset, gap: (meta0[b].gap + 1) as usize, threshold: meta0[b].threshold }),
        views_distinct(block_seq(main0, meta0, b)),
        block_of::<K>(main0[j]@, o_meta.len() as int) == b,
        forall|v: K::V| block_of::<K>(v, o_meta.len() as int) != b ==> (main_keys(main0, meta0).contains(v) == main_keys(o_main, o_meta).contains(v)),
        forall|v: K::V| block_of::<K>(v, o_meta.len() as int) == b ==> (main_keys(main0, meta0).contains(v) == seq_views(block_seq(main0, meta0, b)).contains(v)),
    ensures
        layout_ok(meta1),
        forall|i: int| 0 <= i < o_meta.len() && i != b ==> meta1[i] == o_meta[i],
        meta1[b].offset == o_meta[b].offset,
        forall|p: int|
            0 <= p < o_main.len() && !(start_at(o_meta, b) <= p < start_at(o_meta, b + 1)) ==> main1[p] == o_main[p],
        start_at(meta1, b) == start_at(meta0, b),
        end_at(meta1, b) == end_at(meta0, b) - 1,
        block_seq(main1, meta1, b) == block_seq(main0, meta0, b).update(j - start_at(meta0, b), block_seq(main0, meta0, b).last()).drop_last(),
        views_distinct(block_seq(main1, meta1, b)),
        forall|v: K::V| block_of::<K>(v, o_meta.len() as int) != b ==> (main_keys(main1, meta1).contains(v) == main_keys(o_main, o_meta).contains(v)),
        forall|v: K::V| block_of::<K>(v, o_meta.len() as int) == b ==> (main_keys(main1, meta1).contains(v) == seq_views(block_seq(main1, meta1, b)).contains(v)),
        main_keys(main1, meta1) == main_keys(main0, meta0).remove(main0[j]@),
{
    let n = o_meta.len() as int;
    let s0 = block_seq(main0, meta0, b);
    let q = j - start_at(meta0, b);
    lemma_block_bounds(meta0, b);
    lemma_block_bounds(o_meta, b);
    assert(start_at(meta0, b) == start_at(o_meta, b));
    assert(start_at(meta0, b + 1) == start_at(o_meta, b + 1)) by {
        if b + 1 < n {
            assert(meta0[b + 1] == o_meta[b + 1]);
        }
    }
    assert forall|i: int| #![trigger meta1[i]] 0 <= i < meta1.len() implies {
        &&& meta1[i].offset <= 10
        &&& meta1[i].threshold <= 10
        &&& start_at(meta1, i) <= end_at(meta1, i)
    } by {
        assert(meta0[i].offset <= 10);
        assert(off_at(meta1, i + 1) == off_at(meta0, i + 1));
        if i == b {
            assert(start_at(meta1, i) == start_at(meta0, i));
            assert(end_at(meta1, i) == end_at(meta0, i) - 1);
        } else {
            assert(meta1[i] == meta0[i]);
        }
    }
    assert(off_at(meta1, b + 1) == off_at(meta0, b + 1));
    assert(s0[q] == main0[j]);
    assert(s0.last() == main0[end_at(meta0, b) - 1]);
    lemma_swap_remove(s0, q);
    assert(block_seq(main1, meta1, b) =~= s0.update(q, s0.last()).drop_last());
    lemma_frame(o_main, o_meta, main1, meta1, b);
    lemma_main_keys_except(o_main, o_meta, main1, meta1, b);
    let x = main0[j]@;
    assert forall|v: K::V| #[trigger] main_keys(main1, meta1).contains(v) == main_keys(main0, meta0).remove(x).contains(v) by {
        if block_of::<K>(v, n) == b {
            assert(seq_views(block_seq(main1, meta1, b)).contains(v) == seq_views(s0).remove(s0[q]@).contains(v));
        }
    }
    assert(main_keys(main1, meta1) =~= main_keys(main0, meta0).remove(x));
}

/// Storing `key` in the first free slot after block `b` and shrinking its gap.
proof fn lemma_append_step<K: TableKey>(
    main0: Seq<K>,
    meta0: Seq<SlickHashMetaData>,
    main1: Seq<K>,
    meta1: Seq<SlickHashMetaData>,
    b: int,
    key: K,
)
    requires
        layout_ok(meta0),
        main0.len() == 10 * meta0.len(),
        0 <= b < meta0.len(),
        meta0[b].gap >= 1,
        main1 == main0.update(end_at(meta0, b), key),
        meta1 == meta0.update(b, SlickHashMetaData { offset: meta0[b].offset, gap: (meta0[b].gap - 1) as usize, threshold: meta0[b].threshold }),
        views_distinct(block_seq(main0, meta0, b)),
        !seq_views(block_seq(main0, meta0, b)).contains(key@),
        block_of::<K>(key@, meta0.len() as int) == b,
    ensures
        layout_ok(meta1),
        forall|i: int| 0 <= i < meta0.len() && i != b ==> block_seq(main1, meta1, i) == block_seq(main0, meta0, i),
        block_seq(main1, meta1, b) == block_seq(main0, meta0, b).push(key),
        views_distinct(block_seq(main1, meta1, b)),
        main_keys(main1, meta1) == main_keys(main0, meta0).insert(key@),
{
    let n = meta0.len() as int;
    let s0 = block_seq(main0, meta0, b);
    lemma_block_bounds(meta0, b);
    assert forall|i: int| #![trigger meta1[i]] 0 <= i < meta1.len() implies {
        &&& meta1[i].offset <= 10
        &&& meta1[i].threshold <= 10
        &&& start_at(meta1, i) <= end_at(meta1, i)
    } by {
        assert(meta0[i].offset <= 10);
        assert(off_at(meta1, i + 1) == off_at(meta0, i + 1));
        if i == b {
            assert(start_at(meta1, i) == start_at(meta0, i));
            assert(end_at(meta1, i) == end_at(meta0, i) + 1);
        } else {
            assert(meta1[i] == meta0[i]);
        }
    }
    assert(off_at(meta1, b + 1) == off_at(meta0, b + 1));
    assert(block_seq(main1, meta1, b) =~= s0.push(key));
    lemma_push(s0, key);
    lemma_frame(main0, meta0, main1, meta1, b);
    lemma_main_keys_except(main0, meta0, main1, meta1, b);
    assert(main_keys(main1, meta1) =~= main_keys(main0, meta0).insert(key@));
}

/// After a left slide, block `u` starts one slot earlier, and its first slot
/// holds what was its last key.
spec fn front_moved<K>(main: Seq<K>, o_main: Seq<K>, o_meta: Seq<SlickHashMetaData>, u: int) -> bool {
    start_at(o_meta, u) < end_at(o_meta, u) ==> main[start_at(o_meta, u) - 1] == o_main[end_at(o_meta, u) - 1]
}

/// After a left slide, the keys of block `u` but its last are where they were.
spec fn interior_kept<K>(main: Seq<K>, o_main: Seq<K>, o_meta: Seq<SlickHashMetaData>, u: int) -> bool {
    forall|p: int| start_at(o_meta, u) <= p < end_at(o_meta, u) - 1 ==> main[p] == o_main[p]
}

/// Offsets, gaps and thresholds after sliding the gap of block `s` left
/// over to block `b`.
spec fn meta_slid_left(o_meta: Seq<SlickHashMetaData>, meta: Seq<SlickHashMetaData>, s: int, b: int) -> bool {
    &&& meta.len() == o_meta.len()
    &&& forall|i: int| #![trigger meta[i]] 0 <= i < meta.len() ==> {
        &&& meta[i].threshold == o_meta[i].threshold
        &&& meta[i].offset == if s < i <= b { o_meta[i].offset - 1 } else { o_meta[i].offset as int }
        &&& meta[i].gap == if i == s { o_meta[i].gap - 1 } else if i == b { o_meta[i].gap + 1 } else { o_meta[i].gap as int }
    }
}

/// Rotating a block's keys (last key to the front) keeps their values and
/// their distinctness.
proof fn lemma_rotate_back<K: View>(old_s: Seq<K>, new_s: Seq<K>)
    requires
        new_s.len() == old_s.len(),
        forall|p: int| 0 <= p < new_s.len() ==> new_s[p] == old_s[if p == 0 { old_s.len() - 1 } else { p - 1 }],
    ensures
        seq_views(new_s) == seq_views(old_s),
        views_distinct(old_s) ==> views_distinct(new_s),
{
    let m = old_s.len() as int;
    assert forall|v: K::V| seq_views(new_s).contains(v) <==> #[trigger] seq_views(old_s).contains(v) by {
        if seq_views(new_s).contains(v) {
            let p = choose|p: int| 0 <= p < new_s.len() && new_s[p]@ == v;
            assert(new_s[p] == old_s[if p == 0 { m - 1 } else { p - 1 }]);
        }
        if seq_views(old_s).contains(v) {
            let q = choose|q: int| 0 <= q < old_s.len() && old_s[q]@ == v;
            let p = if q == m - 1 { 0 } else { q + 1 };
            assert(new_s[p] == old_s[q]);
        }
    }
    assert(seq_views(new_s) =~= seq_views(old_s));
    if views_distinct(old_s) {
        assert forall|a: int, c: int| 0 <= a < new_s.len() && 0 <= c < new_s.len() && a != c implies new_s[a]@ != new_s[c]@ by {
            assert(new_s[a] == old_s[if a == 0 { m - 1 } else { a - 1 }]);
            assert(new_s[c] == old_s[if c == 0 { m - 1 } else { c - 1 }]);
        }
    }
}

/// Rotating a block's keys (first key to the back) keeps their values and
/// their distinctness.
proof fn lemma_rotate_front<K: View>(old_s: Seq<K>, new_s: Seq<K>)
    requires
        new_s.len() == old_s.len(),
        forall|p: int| 0 <= p < new_s.len() ==> new_s[p] == old_s[if p == new_s.len() - 1 { 0 } else { p + 1 }],
    ensures
        seq_views(new_s) == seq_views(old_s),
        views_distinct(old_s) ==> views_distinct(new_s),
{
    let m = old_s.len() as int;
    assert forall|v: K::V| seq_views(new_s).contains(v) <==> #[trigger] seq_views(old_s).contains(v) by {
        if seq_views(new_s).contains(v) {
            let p = choose|p: int| 0 <= p < new_s.len() && new_s[p]@ == v;
            assert(new_s[p] == old_s[if p == m - 1 { 0 } else { p + 1 }]);
        }
        if seq_views(old_s).contains(v) {
            let q = choose|q: int| 0 <= q < old_s.len() && old_s[q]@ == v;
            let p = if q == 0 { m - 1 } else { q - 1 };
            assert(new_s[p] == old_s[q]);
        }
    }
    assert(seq_views(new_s) =~= seq_views(old_s));
    if views_distinct(old_s) {
        assert forall|a: int, c: int| 0 <= a < new_s.len() && 0 <= c < new_s.len() && a != c implies new_s[a]@ != new_s[c]@ by {
            assert(new_s[a] == old_s[if a == m - 1 { 0 } else { a + 1 }]);
            assert(new_s[c] == old_s[if c == m - 1 { 0 } else { c + 1 }]);
        }
    }
}

/// Blocks whose keys keep their values keep the main keys, and blocks whose
/// keys are all old keys of the same block stay well formed.
proof fn lemma_blocks_same_views<K: TableKey>(
    o_main: Seq<K>,
    o_meta: Seq<SlickHashMetaData>,
    main: Seq<K>,
    meta: Seq<SlickHashMetaData>,
)
    requires
        meta.len() == o_meta.len(),
        forall|i: int| 0 <= i < meta.len() ==> #[trigger] seq_views(block_seq(main, meta, i)) == seq_views(block_seq(o_main, o_meta, i)),
    ensures
        main_keys(main, meta) == main_keys(o_main, o_meta),
{
    let n = meta.len() as int;
    assert forall|v: K::V| #[trigger] main_keys(main, meta).contains(v) == main_keys(o_main, o_meta).contains(v) by {
        let c = block_of::<K>(v, n);
        if 0 <= c < n {
            assert(seq_views(block_seq(main, meta, c)) == seq_views(block_seq(o_main, o_meta, c)));
        }
    }
    assert(main_keys(main, meta) =~= main_keys(o_main, o_meta));
}

/// A block made of the same values as a well-formed block of the same
/// threshold is well formed.
proof fn lemma_block_ok_same_views<K: TableKey>(
    o_main: Seq<K>,
    o_meta: Seq<SlickHashMetaData>,
    main: Seq<K>,
    meta: Seq<SlickHashMetaData>,
    i: int,
)
    requires
        meta.len() == o_meta.len(),
        0 <= i < meta.len(),
        meta[i].threshold == o_meta[i].threshold,
        block_ok(o_main, o_meta, i),
        seq_views(block_seq(main, meta, i)) == seq_views(block_seq(o_main, o_meta, i)),
        views_distinct(block_seq(main, meta, i)),
    ensures
        block_ok(main, meta, i),
{
    let sq = block_seq(main, meta, i);
    let osq = block_seq(o_main, o_meta, i);
    assert forall|p: int| 0 <= p < sq.len() implies {
        &&& block_of::<K>(#[trigger] sq[p]@, meta.len() as int) == i
        &&& threshold_of::<K>(sq[p]@) >= meta[i].threshold
    } by {
        assert(seq_views(sq).contains(sq[p]@));
        assert(seq_views(osq).contains(sq[p]@));
        let q = choose|q: int| 0 <= q < osq.len() && osq[q]@ == sq[p]@;
        assert(block_of::<K>(osq[q]@, o_meta.len() as int) == i);
    }
}

/// Block boundaries after a left slide: the blocks after `s` up to `b`
/// start and end one slot earlier, the others stay where they were.
proof fn lemma_slid_left_layout(o_meta: Seq<SlickHashMetaData>, meta: Seq<SlickHashMetaData>, s: int, b: int)
    requires
        layout_ok(o_meta),
        0 <= s < b < o_meta.len(),
        o_meta[s].gap >= 1,
        forall|u: int| s < u <= b ==> #[trigger] o_meta[u].gap == 0 && o_meta[u].offset >= 1,
        !(o_meta[s].gap == 1 && start_at(o_meta, s) == end_at(o_meta, s)),
        meta_slid_left(o_meta, meta, s, b),
    ensures
        layout_ok(meta),
        forall|i: int| 0 <= i < o_meta.len() ==> #[trigger] start_at(meta, i) == if s < i <= b { start_at(o_meta, i) - 1 } else { start_at(o_meta, i) },
        forall|i: int| 0 <= i < o_meta.len() ==> #[trigger] end_at(meta, i) == if s < i <= b { end_at(o_meta, i) - 1 } else { end_at(o_meta, i) },
{
    let n = o_meta.len() as int;
    assert forall|i: int| 0 <= i <= n implies #[trigger] off_at(meta, i) == if s < i <= b { off_at(o_meta, i) - 1 } else { off_at(o_meta, i) } by {
        if i < n {
            assert(meta[i].offset == if s < i <= b { o_meta[i].offset - 1 } else { o_meta[i].offset as int });
        }
    }
    assert forall|i: int| 0 <= i < n implies #[trigger] start_at(meta, i) == if s < i <= b { start_at(o_meta, i) - 1 } else { start_at(o_meta, i) } by {
        assert(off_at(meta, i) == if s < i <= b { off_at(o_meta, i) - 1 } else { off_at(o_meta, i) });
    }
    assert forall|i: int| 0 <= i < n implies #[trigger] end_at(meta, i) == if s < i <= b { end_at(o_meta, i) - 1 } else { end_at(o_meta, i) } by {
        assert(off_at(meta, i + 1) == if s < i + 1 <= b { off_at(o_meta, i + 1) - 1 } else { off_at(o_meta, i + 1) });
        assert(meta[i].gap == if i == s { o_meta[i].gap - 1 } else if i == b { o_meta[i].gap + 1 } else { o_meta[i].gap as int });
        if s < i < b {
            assert(o_meta[i].gap == 0);
        }
    }
    assert forall|i: int| #![trigger meta[i]] 0 <= i < n implies {
        &&& meta[i].offset <= 10
        &&& meta[i].threshold <= 10
        &&& start_at(meta, i) <= end_at(meta, i)
        &&& start_at(meta, i) == end_at(meta, i) ==> meta[i].gap >= 1
    } by {
        assert(o_meta[i].offset <= 10);
        assert(start_at(o_meta, i) == end_at(o_meta, i) ==> o_meta[i].gap >= 1);
        assert(start_at(meta, i) == if s < i <= b { start_at(o_meta, i) - 1 } else { start_at(o_meta, i) });
        assert(end_at(meta, i) == if s < i <= b { end_at(o_meta, i) - 1 } else { end_at(o_meta, i) });
    }
    assert(meta[0].offset == 0) by {
        assert(meta[0].offset == o_meta[0].offset);
    }
}

/// After a left slide, block `i` holds the same values as before, still
/// without repetition.
proof fn lemma_slid_left_block<K: View>(
    o_main: Seq<K>,
    o_meta: Seq<SlickHashMetaData>,
    main: Seq<K>,
    meta: Seq<SlickHashMetaData>,
    s: int,
    b: int,
    i: int,
)
    requires
        layout_ok(o_meta),
        o_main.len() == 10 * o_meta.len(),
        main.len() == o_main.len(),
        0 <= s < b < o_meta.len(),
        0 <= i < o_meta.len(),
        o_meta[s].gap >= 1,
        views_distinct(block_seq(o_main, o_meta, i)),
        start_at(meta, i) == if s < i <= b { start_at(o_meta, i) - 1 } else { start_at(o_meta, i) },
        end_at(meta, i) == if s < i <= b { end_at(o_meta, i) - 1 } else { end_at(o_meta, i) },
        forall|p: int| 0 <= p < main.len() && (p < end_at(o_meta, s) || p >= start_at(o_meta, b + 1) - 1) ==> main[p] == o_main[p],
        s < i <= b ==> front_moved(main, o_main, o_meta, i),
        s < i <= b ==> interior_kept(main, o_main, o_meta, i),
    ensures
        seq_views(block_seq(main, meta, i)) == seq_views(block_seq(o_main, o_meta, i)),
        views_distinct(block_seq(main, meta, i)),
{
    let sq = block_seq(main, meta, i);
    let osq = block_seq(o_main, o_meta, i);
    lemma_block_bounds(o_meta, i);
    lemma_block_bounds(o_meta, s);
    lemma_block_bounds(o_meta, b);
    if s < i <= b {
        assert forall|p: int| 0 <= p < sq.len() implies sq[p] == osq[if p == 0 { osq.len() - 1 } else { p - 1 }] by {
            if p > 0 {
                assert(main[start_at(o_meta, i) - 1 + p] == o_main[start_at(o_meta, i) - 1 + p]);
            }
        }
        lemma_rotate_back(osq, sq);
    } else {
        if i <= s {
            lemma_layout_mono(o_meta, i, s);
        } else {
            lemma_layout_mono(o_meta, b + 1, i);
        }
        assert(sq =~= osq);
    }
}

/// The state after a left slide is well formed and holds the same keys.
proof fn lemma_slide_left_done<K: TableKey>(
    o_main: Seq<K>,
    o_meta: Seq<SlickHashMetaData>,
    main: Seq<K>,
    meta: Seq<SlickHashMetaData>,
    s: int,
    b: int,
)
    requires
        layout_ok(o_meta),
        blocks_ok(o_main, o_meta),
        main.len() == o_main.len(),
        0 <= s < b < o_meta.len(),
        o_meta[s].gap >= 1,
        forall|u: int| s < u <= b ==> #[trigger] o_meta[u].gap == 0 && o_meta[u].offset >= 1,
        !(o_meta[s].gap == 1 && start_at(o_meta, s) == end_at(o_meta, s)),
        meta_slid_left(o_meta, meta, s, b),
        forall|p: int| 0 <= p < main.len() && (p < end_at(o_meta, s) || p >= start_at(o_meta, b + 1) - 1) ==> main[p] == o_main[p],
        forall|u: int| s < u <= b ==> #[trigger] front_moved(main, o_main, o_meta, u),
        forall|u: int| s < u <= b ==> #[trigger] interior_kept(main, o_main, o_meta, u),
    ensures
        layout_ok(meta),
        blocks_ok(main, meta),
        main_keys(main, meta) == main_keys(o_main, o_meta),
{
    let n = o_meta.len() as int;
    lemma_slid_left_layout(o_meta, meta, s, b);
    assert forall|i: int| 0 <= i < n implies #[trigger] seq_views(block_seq(main, meta, i)) == seq_views(block_seq(o_main, o_meta, i))
        && views_distinct(block_seq(main, meta, i)) by {
        assert(block_ok(o_main, o_meta, i));
        if s < i <= b {
            assert(front_moved(main, o_main, o_meta, i));
            assert(interior_kept(main, o_main, o_meta, i));
        }
        lemma_slid_left_block(o_main, o_meta, main, meta, s, b, i);
    }
    lemma_blocks_same_views(o_main, o_meta, main, meta);
    assert forall|i: int| 0 <= i < n implies #[trigger] block_ok(main, meta, i) by {
        assert(seq_views(block_seq(main, meta, i)) == seq_views(block_seq(o_main, o_meta, i)));
        assert(block_ok(o_main, o_meta, i));
        assert(meta[i].threshold == o_meta[i].threshold);
        lemma_block_ok_same_views(o_main, o_meta, main, meta, i);
    }
}

/// Offsets and gaps part way through a left slide from block `s`: the gap of
/// `s` is one smaller and the blocks strictly between `s` and `t` start one
/// slot earlier.
spec fn meta_sliding_left(o_meta: Seq<SlickHashMetaData>, meta: Seq<SlickHashMetaData>, s: int, t: int) -> bool {
    &&& meta.len() == o_meta.len()
    &&& forall|i: int| #![trigger meta[i]] 0 <= i < meta.len() ==> {
        &&& meta[i].threshold == o_meta[i].threshold
        &&& meta[i].offset == if s < i < t { o_meta[i].offset - 1 } else { o_meta[i].offset as int }
        &&& meta[i].gap == if i == s { o_meta[i].gap - 1 } else { o_meta[i].gap as int }
    }
}

/// One step of a left slide: block `t` moves its last key into the slot
/// before its first one.
#[verifier::rlimit(40)]
#[verifier::spinoff_prover]
proof fn lemma_slide_left_step<K>(
    o_main: Seq<K>,
    o_meta: Seq<SlickHashMetaData>,
    main0: Seq<K>,
    main1: Seq<K>,
    s: int,
    t: int,
    b: int,
)
    requires
        layout_ok(o_meta),
        o_main.len() == 10 * o_meta.len(),
        main0.len() == o_main.len(),
        0 <= s < t <= b < o_meta.len(),
        o_meta[s].gap >= 1,
        forall|u: int| s < u <= b ==> #[trigger] o_meta[u].gap == 0 && o_meta[u].offset >= 1,
        forall|p: int| 0 <= p < main0.len() && (p < end_at(o_meta, s) || p >= start_at(o_meta, t) - 1) ==> main0[p] == o_main[p],
        forall|u: int| s < u < t ==> #[trigger] front_moved(main0, o_main, o_meta, u),
        forall|u: int| s < u < t ==> #[trigger] interior_kept(main0, o_main, o_meta, u),
        main1 == main0.update(start_at(o_meta, t) - 1, main0[end_at(o_meta, t) - 1]),
    ensures
        forall|p: int| 0 <= p < main1.len() && (p < end_at(o_meta, s) || p >= start_at(o_meta, t + 1) - 1) ==> main1[p] == o_main[p],
        forall|u: int| s < u < t + 1 ==> #[trigger] front_moved(main1, o_main, o_meta, u),
        forall|u: int| s < u < t + 1 ==> #[trigger] interior_kept(main1, o_main, o_meta, u),
{
    let st = start_at(o_meta, t);
    let en = end_at(o_meta, t);
    lemma_block_bounds(o_meta, t);
    lemma_block_bounds(o_meta, s);
    assert(o_meta[t].gap == 0 && o_meta[t].offset >= 1);
    lemma_layout_mono(o_meta, s + 1, t);
    assert(st >= 1);
    assert forall|p: int| 0 <= p < main1.len() && (p < end_at(o_meta, s) || p >= start_at(o_meta, t + 1) - 1) implies main1[p] == o_main[p] by {
        if p == st - 1 {
            assert(st == en);
        }
    }
    assert forall|u: int| s < u < t + 1 implies #[trigger] front_moved(main1, o_main, o_meta, u) by {
        if u < t {
            assert(front_moved(main0, o_main, o_meta, u));
            if start_at(o_meta, u) < end_at(o_meta, u) {
                lemma_layout_mono(o_meta, u, t);
            }
        }
    }
    assert forall|u: int| s < u < t + 1 implies #[trigger] interior_kept(main1, o_main, o_meta, u) by {
        if u < t {
            assert(interior_kept(main0, o_main, o_meta, u));
            lemma_layout_mono(o_meta, u, t);
        }
    }
}

/// After a right slide, the slot after block `u`'s last key holds what was
/// its first key.
spec fn back_moved<K>(main: Seq<K>, o_main: Seq<K>, o_meta: Seq<SlickHashMetaData>, u: int) -> bool {
    start_at(o_meta, u) < end_at(o_meta, u) ==> main[end_at(o_meta, u)] == o_main[start_at(o_meta, u)]
}

/// After a right slide, the keys of block `u` but its first are where they were.
spec fn tail_kept<K>(main: Seq<K>, o_main: Seq<K>, o_meta: Seq<SlickHashMetaData>, u: int) -> bool {
    forall|p: int| start_at(o_meta, u) < p < end_at(o_meta, u) ==> main[p] == o_main[p]
}

/// Offsets and gaps part way through a right slide from block `s`: the gap
/// of `s` is one smaller and the blocks after `c` up to `s` start one slot
/// later.
spec fn meta_sliding_right(o_meta: Seq<SlickHashMetaData>, meta: Seq<SlickHashMetaData>, c: int, s: int) -> bool {
    &&& meta.len() == o_meta.len()
    &&& forall|i: int| #![trigger meta[i]] 0 <= i < meta.len() ==> {
        &&& meta[i].threshold == o_meta[i].threshold
        &&& meta[i].offset == if c < i <= s { o_meta[i].offset + 1 } else { o_meta[i].offset as int }
        &&& meta[i].gap == if i == s { o_meta[i].gap - 1 } else { o_meta[i].gap as int }
    }
}

/// Offsets, gaps and thresholds after sliding the gap of block `s` right
/// over to block `b`.
spec fn meta_slid_right(o_meta: Seq<SlickHashMetaData>, meta: Seq<SlickHashMetaData>, b: int, s: int) -> bool {
    &&& meta.len() == o_meta.len()
    &&& forall|i: int| #![trigger meta[i]] 0 <= i < meta.len() ==> {
        &&& meta[i].threshold == o_meta[i].threshold
        &&& meta[i].offset == if b < i <= s { o_meta[i].offset + 1 } else { o_meta[i].offset as int }
        &&& meta[i].gap == if i == s { o_meta[i].gap - 1 } else if i == b { o_meta[i].gap + 1 } else { o_meta[i].gap as int }
    }
}

/// One step of a right slide: block `c` moves its first key into the slot
/// after its last one.
#[verifier::rlimit(40)]
#[verifier::spinoff_prover]
proof fn lemma_slide_right_step<K>(
    o_main: Seq<K>,
    o_meta: Seq<SlickHashMetaData>,
    main0: Seq<K>,
    main1: Seq<K>,
    b: int,
    c: int,
    s: int,
)
    requires
        layout_ok(o_meta),
        o_main.len() == 10 * o_meta.len(),
        main0.len() == o_main.len(),
        0 <= b < c <= s < o_meta.len(),
        o_meta[s].gap >= 1,
        forall|u: int| b < u < s ==> #[trigger] o_meta[u].gap == 0,
        forall|p: int| 0 <= p < main0.len() && (p <= start_at(o_meta, c + 1) || p > end_at(o_meta, s)) ==> main0[p] == o_main[p],
        forall|u: int| c < u <= s ==> #[trigger] back_moved(main0, o_main, o_meta, u),
        forall|u: int| c < u <= s ==> #[trigger] tail_kept(main0, o_main, o_meta, u),
        main1 == main0.update(end_at(o_meta, c), main0[start_at(o_meta, c)]),
    ensures
        forall|p: int| 0 <= p < main1.len() && (p <= start_at(o_meta, c) || p > end_at(o_meta, s)) ==> main1[p] == o_main[p],
        forall|u: int| c - 1 < u <= s ==> #[trigger] back_moved(main1, o_main, o_meta, u),
        forall|u: int| c - 1 < u <= s ==> #[trigger] tail_kept(main1, o_main, o_meta, u),
{
    let st = start_at(o_meta, c);
    let en = end_at(o_meta, c);
    lemma_block_bounds(o_meta, c);
    lemma_block_bounds(o_meta, s);
    if c < s {
        lemma_layout_mono(o_meta, c, s);
        assert(o_meta[c].gap == 0);
    }
    assert(en < main0.len());
    assert forall|p: int| 0 <= p < main1.len() && (p <= start_at(o_meta, c) || p > end_at(o_meta, s)) implies main1[p] == o_main[p] by {
        if p == en {
            assert(st == en);
        }
    }
    assert forall|u: int| c - 1 < u <= s implies #[trigger] back_moved(main1, o_main, o_meta, u) by {
        if u > c {
            assert(back_moved(main0, o_main, o_meta, u));
            lemma_layout_mono(o_meta, c, u);
            lemma_block_bounds(o_meta, u);
        }
    }
    assert forall|u: int| c - 1 < u <= s implies #[trigger] tail_kept(main1, o_main, o_meta, u) by {
        if u > c {
            assert(tail_kept(main0, o_main, o_meta, u));
            lemma_layout_mono(o_meta, c, u);
        }
    }
}

/// Block boundaries after a right slide: the blocks after `b` up to `s`
/// start and end one slot later, the others stay where they were.
proof fn lemma_slid_right_layout(o_meta: Seq<SlickHashMetaData>, meta: Seq<SlickHashMetaData>, b: int, s: int)
    requires
        layout_ok(o_meta),
        0 <= b < s < o_meta.len(),
        o_meta[s].gap >= 1,
        forall|u: int| b < u < s ==> #[trigger] o_meta[u].gap == 0,
        forall|u: int| b < u <= s ==> #[trigger] o_meta[u].offset < 10,
        !(o_meta[s].gap == 1 && start_at(o_meta, s) == end_at(o_meta, s)),
        meta_slid_right(o_meta, meta, b, s),
    ensures
        layout_ok(meta),
        forall|i: int| 0 <= i < o_meta.len() ==> #[trigger] start_at(meta, i) == if b < i <= s { start_at(o_meta, i) + 1 } else { start_at(o_meta, i) },
        forall|i: int| 0 <= i < o_meta.len() ==> #[trigger] end_at(meta, i) == if b < i <= s { end_at(o_meta, i) + 1 } else { end_at(o_meta, i) },
{
    let n = o_meta.len() as int;
    assert forall|i: int| 0 <= i <= n implies #[trigger] off_at(meta, i) == if b < i <= s { off_at(o_meta, i) + 1 } else { off_at(o_meta, i) } by {
        if i < n {
            assert(meta[i].offset == if b < i <= s { o_meta[i].offset + 1 } else { o_meta[i].offset as int });
        }
    }
    assert forall|i: int| 0 <= i < n implies #[trigger] start_at(meta, i) == if b < i <= s { start_at(o_meta, i) + 1 } else { start_at(o_meta, i) } by {
        assert(off_at(meta, i) == if b < i <= s { off_at(o_meta, i) + 1 } else { off_at(o_meta, i) });
    }
    assert forall|i: int| 0 <= i < n implies #[trigger] end_at(meta, i) == if b < i <= s { end_at(o_meta, i) + 1 } else { end_at(o_meta, i) } by {
        assert(off_at(meta, i + 1) == if b < i + 1 <= s { off_at(o_meta, i + 1) + 1 } else { off_at(o_meta, i + 1) });
        assert(meta[i].gap == if i == s { o_meta[i].gap - 1 } else if i == b { o_meta[i].gap + 1 } else { o_meta[i].gap as int });
        if b < i < s {
            assert(o_meta[i].gap == 0);
        }
    }
    assert forall|i: int| #![trigger meta[i]] 0 <= i < n implies {
        &&& meta[i].offset <= 10
        &&& meta[i].threshold <= 10
        &&& start_at(meta, i) <= end_at(meta, i)
        &&& start_at(meta, i) == end_at(meta, i) ==> meta[i].gap >= 1
    } by {
        assert(o_meta[i].offset <= 10);
        assert(start_at(o_meta, i) == end_at(o_meta, i) ==> o_meta[i].gap >= 1);
        if b < i <= s {
            assert(o_meta[i].offset < 10);
        }
        assert(start_at(meta, i) == if b < i <= s { start_at(o_meta, i) + 1 } else { start_at(o_meta, i) });
        assert(end_at(meta, i) == if b < i <= s { end_at(o_meta, i) + 1 } else { end_at(o_meta, i) });
    }
    assert(meta[0].offset == 0) by {
        assert(meta[0].offset == o_meta[0].offset);
    }
}

/// After a right slide, block `i` holds the same values as before, still
/// without repetition.
proof fn lemma_slid_right_block<K: View>(
    o_main: Seq<K>,
    o_meta: Seq<SlickHashMetaData>,
    main: Seq<K>,
    meta: Seq<SlickHashMetaData>,
    b: int,
    s: int,
    i: int,
)
    requires
        layout_ok(o_meta),
        o_main.len() == 10 * o_meta.len(),
        main.len() == o_main.len(),
        0 <= b < s < o_meta.len(),
        0 <= i < o_meta.len(),
        o_meta[s].gap >= 1,
        views_distinct(block_seq(o_main, o_meta, i)),
        start_at(meta, i) == if b < i <= s { start_at(o_meta, i) + 1 } else { start_at(o_meta, i) },
        end_at(meta, i) == if b < i <= s { end_at(o_meta, i) + 1 } else { end_at(o_meta, i) },
        forall|p: int| 0 <= p < main.len() && (p <= start_at(o_meta, b + 1) || p > end_at(o_meta, s)) ==> main[p] == o_main[p],
        b < i <= s ==> back_moved(main, o_main, o_meta, i),
        b < i <= s ==> tail_kept(main, o_main, o_meta, i),
    ensures
        seq_views(block_seq(main, meta, i)) == seq_views(block_seq(o_main, o_meta, i)),
        views_distinct(block_seq(main, meta, i)),
{
    let sq = block_seq(main, meta, i);
    let osq = block_seq(o_main, o_meta, i);
    lemma_block_bounds(o_meta, i);
    lemma_block_bounds(o_meta, s);
    if b < i <= s {
        assert forall|p: int| 0 <= p < sq.len() implies sq[p] == osq[if p == sq.len() - 1 { 0 } else { p + 1 }] by {
            if p < sq.len() - 1 {
                assert(main[start_at(o_meta, i) + 1 + p] == o_main[start_at(o_meta, i) + 1 + p]);
            }
        }
        lemma_rotate_front(osq, sq);
    } else {
        if i <= b {
            lemma_layout_mono(o_meta, i, b + 1);
        } else {
            lemma_layout_mono(o_meta, s + 1, i);
        }
        assert(sq =~= osq);
    }
}

/// The state after a right slide is well formed and holds the same keys.
proof fn lemma_slide_right_done<K: TableKey>(
    o_main: Seq<K>,
    o_meta: Seq<SlickHashMetaData>,
    main: Seq<K>,
    meta: Seq<SlickHashMetaData>,
    b: int,
    s: int,
)
    requires
        layout_ok(o_meta),
        blocks_ok(o_main, o_meta),
        main.len() == o_main.len(),
        0 <= b < s < o_meta.len(),
        o_meta[s].gap >= 1,
        forall|u: int| b < u < s ==> #[trigger] o_meta[u].gap == 0,
        forall|u: int| b < u <= s ==> #[trigger] o_meta[u].offset < 10,
        !(o_meta[s].gap == 1 && start_at(o_meta, s) == end_at(o_meta, s)),
        meta_slid_right(o_meta, meta, b, s),
        forall|p: int| 0 <= p < main.len() && (p <= start_at(o_meta, b + 1) || p > end_at(o_meta, s)) ==> main[p] == o_main[p],
        forall|u: int| b < u <= s ==> #[trigger] back_moved(main, o_main, o_meta, u),
        forall|u: int| b < u <= s ==> #[trigger] tail_kept(main, o_main, o_meta, u),
    ensures
        layout_ok(meta),
        blocks_ok(main, meta),
        main_keys(main, meta) == main_keys(o_main, o_meta),
{
    let n = o_meta.len() as int;
    lemma_slid_right_layout(o_meta, meta, b, s);
    assert forall|i: int| 0 <= i < n implies #[trigger] seq_views(block_seq(main, meta, i)) == seq_views(block_seq(o_main, o_meta, i))
        && views_distinct(block_seq(main, meta, i)) by {
        assert(block_ok(o_main, o_meta, i));
        if b < i <= s {
            assert(back_moved(main, o_main, o_meta, i));
            assert(tail_kept(main, o_main, o_meta, i));
        }
        lemma_slid_right_block(o_main, o_meta, main, meta, b, s, i);
    }
    lemma_blocks_same_views(o_main, o_meta, main, meta);
    assert forall|i: int| 0 <= i < n implies #[trigger] block_ok(main, meta, i) by {
        assert(seq_views(block_seq(main, meta, i)) == seq_views(block_seq(o_main, o_meta, i)));
        assert(block_ok(o_main, o_meta, i));
        assert(meta[i].threshold == o_meta[i].threshold);
        lemma_block_ok_same_views(o_main, o_meta, main, meta, i);
    }
}

/// Block `s` can give block `b` a slot by a left slide: it has a gap, every
/// block after it up to `b` has none and starts past its base position, and
/// it is not an empty block whose gap is a single slot.
spec fn left_source(meta: Seq<SlickHashMetaData>, s: int, b: int) -> bool {
    &&& 0 <= s < b < meta.len()
    &&& meta[s].gap >= 1
    &&& forall|u: int| s < u <= b ==> #[trigger] meta[u].gap == 0 && meta[u].offset >= 1
    &&& !(meta[s].gap == 1 && start_at(meta, s) == end_at(meta, s))
}

/// Block `s` can give block `b` a slot by a right slide: it has a gap and
/// starts before its farthest position, every block between `b` and it has
/// no gap and starts before its farthest position, and it is not an empty
/// block whose gap is a single slot.
spec fn right_source(meta: Seq<SlickHashMetaData>, b: int, s: int) -> bool {
    &&& 0 <= b < s < meta.len()
    &&& meta[s].gap >= 1
    &&& meta[s].offset < 10
    &&& forall|u: int| b < u < s ==> #[trigger] meta[u].gap == 0 && meta[u].offset < 10
    &&& !(meta[s].gap == 1 && start_at(meta, s) == end_at(meta, s))
}

/// `main` and `meta` are `o_main` and `o_meta` after sliding the gap of block
/// `s` left over to block `b`: the blocks after `s` up to `b` start one slot
/// earlier, each with its last key moved to its front.
spec fn slid_left<K>(o_main: Seq<K>, o_meta: Seq<SlickHashMetaData>, main: Seq<K>, meta: Seq<SlickHashMetaData>, s: int, b: int) -> bool {
    &&& meta_slid_left(o_meta, meta, s, b)
    &&& main.len() == o_main.len()
    &&& forall|p: int| 0 <= p < main.len() && (p < end_at(o_meta, s) || p >= start_at(o_meta, b + 1) - 1) ==> main[p] == o_main[p]
    &&& forall|u: int| s < u <= b ==> #[trigger] front_moved(main, o_main, o_meta, u)
    &&& forall|u: int| s < u <= b ==> #[trigger] interior_kept(main, o_main, o_meta, u)
}

/// `main` and `meta` are `o_main` and `o_meta` after sliding the gap of block
/// `s` right over to block `b`: the blocks after `b` up to `s` start one slot
/// later, each with its first key moved to its back.
spec fn slid_right<K>(o_main: Seq<K>, o_meta: Seq<SlickHashMetaData>, main: Seq<K>, meta: Seq<SlickHashMetaData>, b: int, s: int) -> bool {
    &&& meta_slid_right(o_meta, meta, b, s)
    &&& main.len() == o_main.len()
    &&& forall|p: int| 0 <= p < main.len() && (p <= start_at(o_meta, b + 1) || p > end_at(o_meta, s)) ==> main[p] == o_main[p]
    &&& forall|u: int| b < u <= s ==> #[trigger] back_moved(main, o_main, o_meta, u)
    &&& forall|u: int| b < u <= s ==> #[trigger] tail_kept(main, o_main, o_meta, u)
}

/// Block `b` cannot take another key: it holds the maximal number of keys,
/// or it has no gap and no gap can slide over to it from either side.
spec fn block_has_no_room(meta: Seq<SlickHashMetaData>, b: int) -> bool {
    ||| end_at(meta, b) - start_at(meta, b) >= 20
    ||| meta[b].gap == 0 && !(exists|s: int| left_source(meta, s, b)) && !(exists|s: int| right_source(meta, b, s))
}

/// `t` is one above the smallest threshold hash among the keys of `s` and
/// the value `v`.
spec fn raised_threshold<K: TableKey>(t: int, s: Seq<K>, v: K::V) -> bool {
    &&& t - 1 <= threshold_of::<K>(v)
    &&& forall|p: int| 0 <= p < s.len() ==> t - 1 <= threshold_of::<K>(#[trigger] s[p]@)
    &&& (t - 1 == threshold_of::<K>(v) || exists|p: int| 0 <= p < s.len() && threshold_of::<K>(#[trigger] s[p]@) == t - 1)
}

/// Overflow table of the Slick hash: an open-addressed linear-probing table.
struct Backyard<K> {
    table: LinearTable<K>,
}

/// Outcome of an insertion.
enum Insertion {
    /// The key is stored where it was looked for.
    Inserted,
    /// The key was found in the backyard already.
    Occupied,
}

/// The backyard's key set is finite.
proof fn lemma_slot_keys_len_of<K: TableKey>(b: &Backyard<K>)
    requires
        b.inv(),
    ensures
        b.key_set().finite(),
{
    b.table.lemma_finite();
}

impl<K: TableKey> Backyard<K> {
    spec fn inv(&self) -> bool {
        self.table.inv()
    }

    spec fn key_set(&self) -> Set<K::V> {
        self.table.key_set()
    }

    /// Number of slots.
    spec fn slots(&self) -> nat {
        self.table.slot_count()
    }

    /// An empty backyard of `capacity.next_power_of_two().max(16)` slots.
    fn new(capacity: usize) -> (b: Self)
        requires
            capacity <= usize::MAX / 8,
        ensures
            b.inv(),
            b.key_set() == Set::<K::V>::empty(),
            spec_table_capacity(capacity as int, b.slots() as int),
    {
        Backyard { table: LinearTable::with_capacity(capacity) }
    }

    /// Inserts a key (growing when the load factor would exceed 0.75).
    fn insert(&mut self, key: K) -> (r: Insertion)
        requires
            old(self).inv(),
            old(self).key_set().len() < max_keys(),
        ensures
            final(self).inv(),
            final(self).key_set() == old(self).key_set().insert(key@),
            final(self).key_set().finite(),
            r is Inserted <==> !old(self).key_set().contains(key@),
            final(self).slots() == if (old(self).key_set().len() + 1) * 4 > old(self).slots() * 3 {
                2 * old(self).slots()
            } else {
                old(self).slots()
            },
    {
        if self.table.insert_key(key) {
            Insertion::Inserted
        } else {
            Insertion::Occupied
        }
    }

    /// Whether a key is present.
    fn get(&self, key: &K) -> (b: bool)
        requires
            self.inv(),
        ensures
            b == self.key_set().contains(key@),
    {
        self.table.contains(key)
    }

    /// Removes a key; returns it, or `None` when it is absent.
    fn remove_entry(&mut self, key: &K) -> (r: Option<K>)
        requires
            old(self).inv(),
        ensures
            final(self).inv(),
            final(self).key_set() == old(self).key_set().remove(key@),
            final(self).slots() == old(self).slots(),
            r is Some <==> old(self).key_set().contains(key@),
            r is Some ==> r->0@ == key@,
    {
        self.table.remove_key(key)
    }

    /// Number of keys.
    fn len(&self) -> (n: usize)
        requires
            self.inv(),
        ensures
            n == self.key_set().len(),
            self.key_set().finite(),
    {
        self.table.key_count()
    }
}

/// The Slick hash table: a main table of blocks of nominally 10 slots whose
/// boundaries can slide, and a backyard for the keys that a block rejects.
pub struct SlickHash<K> {
    main_table_size: usize,
    block_size: usize,
    number_of_blocks: usize,
    max_slick_size: usize,
    max_offset: usize,
    max_threshold: usize,
    main_table: Vec<K>,
    meta_data: Vec<SlickHashMetaData>,
    backyard: Backyard<K>,
    no_elements_in_main_table: usize,
    /// The capacity hint that the table was created with.
    hint: Ghost<nat>,
}

impl<K: TableKey> SlickHash<K> {
    /// The sizes and constants of the table.
    spec fn shape_ok(&self) -> bool {
        let n = self.number_of_blocks as int;
        &&& self.block_size == 10
        &&& self.max_slick_size == 20
        &&& self.max_offset == 10
        &&& self.max_threshold == 10
        &&& 1 <= n <= usize::MAX / 64
        &&& self.main_table_size == 10 * n
    }

    /// The table's invariant.
    spec fn inv(&self) -> bool {
        let n = self.number_of_blocks as int;
        let meta = self.meta_data@;
        let main = self.main_table@;
        &&& self.shape_ok()
        &&& meta.len() == n
        &&& layout_ok(meta)
        &&& blocks_ok(main, meta)
        &&& self.backyard.inv()
        &&& forall|v: K::V| #[trigger] self.backyard.key_set().contains(v) ==> {
            let b = block_of::<K>(v, n);
            0 <= b < n && threshold_of::<K>(v) < meta[b].threshold
        }
        &&& main_keys(main, meta).finite()
        &&& self.no_elements_in_main_table == main_keys(main, meta).len()
        &&& self.all_keys().len() <= max_keys()
    }

    /// The values of all keys: those in the main table and those in the backyard.
    spec fn all_keys(&self) -> Set<K::V> {
        main_keys(self.main_table@, self.meta_data@) + self.backyard.key_set()
    }

    /// An empty table whose main table has the capacity hint rounded up to
    /// whole blocks of 10 slots (at least one block), and whose backyard is
    /// sized for as many keys.
    fn with_capacity(capacity: usize) -> (t: Self)
        requires
            capacity <= max_keys(),
        ensures
            t.inv(),
            t.all_keys() == Set::<K::V>::empty(),
            t.main_table_size == if capacity <= 10 { 10 } else { ((capacity + 9) / 10) * 10 },
            t.number_of_blocks * 10 == t.main_table_size,
            forall|b: int| 0 <= b < t.number_of_blocks ==> #[trigger] t.meta_data@[b] == (SlickHashMetaData { offset: 0, gap: 10, threshold: 0 }),
            t.no_elements_in_main_table == 0,
            t.hint@ == capacity,
            t.backyard.key_set() == Set::<K::V>::empty(),
            spec_table_capacity(t.main_table_size as int, t.backyard.slots() as int),
    {
        let block_size: usize = 10;
        let max_slick_size = block_size * 2;
        let max_offset = block_size;
        let max_threshold = block_size;

        let adjusted_capacity = if capacity > block_size { capacity } else { block_size };
        let main_table_size = ((adjusted_capacity + block_size - 1) / block_size) * block_size;
        let number_of_blocks: usize = main_table_size / block_size;
        let mut main_table: Vec<K> = Vec::with_capacity(main_table_size);
        let mut i: usize = 0;
        while i < main_table_size
            invariant
                i <= main_table_size,
                main_table@.len() == i,
            decreases main_table_size - i,
        {
            main_table.push(K::filler());
            i = i + 1;
        }
        let mut meta_data: Vec<SlickHashMetaData> = Vec::with_capacity(number_of_blocks);
        let mut b: usize = 0;
        while b < number_of_blocks
            invariant
                b <= number_of_blocks,
                block_size == 10,
                meta_data@.len() == b,
                forall|j: int| 0 <= j < b ==> #[trigger] meta_data@[j] == (SlickHashMetaData { offset: 0, gap: 10, threshold: 0 }),
            decreases number_of_blocks - b,
        {
            meta_data.push(SlickHashMetaData { offset: 0, gap: block_size, threshold: 0 });
            b = b + 1;
        }
        let t = SlickHash {
            main_table_size,
            block_size,
            number_of_blocks,
            max_slick_size,
            max_offset,
            max_threshold,
            main_table,
            meta_data,
            backyard: Backyard::new(main_table_size),
            no_elements_in_main_table: 0,
            hint: Ghost(capacity as nat),
        };
        proof {
            let meta = t.meta_data@;
            let n = number_of_blocks as int;
            assert forall|j: int| #![trigger meta[j]] 0 <= j < n implies {
                &&& meta[j].offset <= 10
                &&& meta[j].threshold <= 10
                &&& start_at(meta, j) <= end_at(meta, j)
            } by {
                if j + 1 < n {
                    assert(meta[j + 1].offset == 0);
                }
            }
            assert forall|j: int| 0 <= j < n implies #[trigger] block_ok(t.main_table@, meta, j) by {
                if j + 1 < n {
                    assert(meta[j + 1].offset == 0);
                }
                assert(block_seq(t.main_table@, meta, j).len() == 0);
            }
            assert(main_keys(t.main_table@, meta) =~= Set::<K::V>::empty());
            assert(t.all_keys() =~= Set::<K::V>::empty());
        }
        t
    }

    /// First slot of a block.
    fn block_start(&self, block_index: usize) -> (r: usize)
        requires
            self.inv(),
            block_index < self.number_of_blocks,
        ensures
            r == start_at(self.meta_data@, block_index as int),
    {
        proof {
            lemma_block_bounds(self.meta_data@, block_index as int);
        }
        self.block_size * block_index + self.meta_data[block_index].offset
    }

    /// One past the last key of a block.
    fn block_end(&self, block_index: usize) -> (r: usize)
        requires
            self.inv(),
            block_index < self.number_of_blocks,
        ensures
            r == end_at(self.meta_data@, block_index as int),
    {
        proof {
            lemma_block_bounds(self.meta_data@, block_index as int);
        }
        if block_index == self.number_of_blocks - 1 {
            return self.main_table_size - self.meta_data[block_index].gap;
        }
        self.block_size * block_index + self.block_size + self.meta_data[block_index + 1].offset
            - self.meta_data[block_index].gap
    }

    /// The slots holding the keys of a block.
    fn block_range(&self, block_index: usize) -> (r: std::ops::Range<usize>)
        requires
            self.inv(),
            block_index < self.number_of_blocks,
        ensures
            r.start == start_at(self.meta_data@, block_index as int),
            r.end == end_at(self.meta_data@, block_index as int),
    {
        let start = self.block_start(block_index);
        let end = self.block_end(block_index);
        start..end
    }

    /// Block of a key: its primary hash scaled down to the number of blocks.
    fn hash_block_index(&self, key: &K) -> (r: usize)
        requires
            self.shape_ok(),
        ensures
            r == block_of::<K>(key@, self.number_of_blocks as int),
            r < self.number_of_blocks,
    {
        let h = hash1(key);
        proof {
            lemma_scale(h as int, self.number_of_blocks as int);
        }
        let scaled = (h as u128) * (self.number_of_blocks as u128) / 0x1_0000_0000_0000_0000u128;
        scaled as usize
    }

    /// Threshold hash of a key: its secondary hash scaled down to the
    /// maximal threshold.
    fn hash_threshold(&self, key: &K) -> (r: usize)
        requires
            self.shape_ok(),
        ensures
            r == threshold_of::<K>(key@),
            r < 10,
    {
        let h = hash2(key);
        proof {
            lemma_scale(h as int, 10);
        }
        let scaled = (h as u128) * (self.max_threshold as u128) / 0x1_0000_0000_0000_0000u128;
        scaled as usize
    }

    /// Everything but the backyard is as in `other`.
    spec fn same_main(&self, other: &Self) -> bool {
        &&& self.hint == other.hint
        &&& self.main_table_size == other.main_table_size
        &&& self.block_size == other.block_size
        &&& self.number_of_blocks == other.number_of_blocks
        &&& self.max_slick_size == other.max_slick_size
        &&& self.max_offset == other.max_offset
        &&& self.max_threshold == other.max_threshold
        &&& self.main_table@ == other.main_table@
        &&& self.meta_data@ == other.meta_data@
        &&& self.no_elements_in_main_table == other.no_elements_in_main_table
    }

    /// The sizes and constants are as in `other`.
    spec fn same_shape(&self, other: &Self) -> bool {
        &&& self.hint == other.hint
        &&& self.main_table_size == other.main_table_size
        &&& self.block_size == other.block_size
        &&& self.number_of_blocks == other.number_of_blocks
        &&& self.max_slick_size == other.max_slick_size
        &&& self.max_offset == other.max_offset
        &&& self.max_threshold == other.max_threshold
    }

    /// The keys are disjointly split between main table and backyard, and
    /// there are fewer of them than the largest number accepted.
    proof fn lemma_key_split(&self)
        requires
            self.inv(),
        ensures
            self.all_keys().finite(),
            self.all_keys().len() == self.no_elements_in_main_table + self.backyard.key_set().len(),
            main_keys(self.main_table@, self.meta_data@).disjoint(self.backyard.key_set()),
            self.backyard.key_set() <= self.all_keys(),
            self.backyard.key_set().finite(),
    {
        let mk = main_keys(self.main_table@, self.meta_data@);
        let bk = self.backyard.key_set();
        let n = self.number_of_blocks as int;
        lemma_slot_keys_len_of(&self.backyard);
        assert forall|v: K::V| mk.contains(v) implies !bk.contains(v) by {
            let b = block_of::<K>(v, n);
            let sq = block_seq(self.main_table@, self.meta_data@, b);
            let p = choose|p: int| 0 <= p < sq.len() && sq[p]@ == v;
            assert(block_ok(self.main_table@, self.meta_data@, b));
            assert(threshold_of::<K>(sq[p]@) >= self.meta_data@[b].threshold);
            if bk.contains(v) {
                assert(threshold_of::<K>(v) < self.meta_data@[b].threshold);
            }
        }
        assert(mk.disjoint(bk));
        vstd::set_lib::lemma_set_disjoint_lens(mk, bk);
    }

    /// Inserts a key into the backyard.
    fn insert_into_backyard(&mut self, key: K) -> (r: Insertion)
        requires
            old(self).backyard.inv(),
            old(self).backyard.key_set().len() < max_keys(),
        ensures
            final(self).same_main(old(self)),
            final(self).backyard.inv(),
            final(self).backyard.key_set() == old(self).backyard.key_set().insert(key@),
            final(self).backyard.key_set().finite(),
            r is Inserted <==> !old(self).backyard.key_set().contains(key@),
    {
        self.backyard.insert(key)
    }

    /// Whether block `block_index`, occupying `block_range`, holds `key`.
    fn block_contains(&self, block_index: usize, block_range: &std::ops::Range<usize>, key: &K) -> (r: bool)
        requires
            self.inv(),
            block_index < self.number_of_blocks,
            block_range.start == start_at(self.meta_data@, block_index as int),
            block_range.end == end_at(self.meta_data@, block_index as int),
        ensures
            r == seq_views(block_seq(self.main_table@, self.meta_data@, block_index as int)).contains(key@),
    {
        let ghost sq = block_seq(self.main_table@, self.meta_data@, block_index as int);
        proof {
            lemma_block_bounds(self.meta_data@, block_index as int);
        }
        let mut j = block_range.start;
        while j < block_range.end
            invariant
                self.inv(),
                block_index < self.number_of_blocks,
                sq == block_seq(self.main_table@, self.meta_data@, block_index as int),
                block_range.start == start_at(self.meta_data@, block_index as int),
                block_range.end == end_at(self.meta_data@, block_index as int),
                block_range.end <= self.main_table@.len(),
                block_range.start <= j <= block_range.end,
                forall|p: int| 0 <= p < j - block_range.start ==> sq[p]@ != key@,
            decreases block_range.end - j,
        {
            if self.main_table[j].key_eq(key) {
                proof {
                    assert(sq[j - block_range.start] == self.main_table@[j as int]);
                }
                return true;
            }
            proof {
                assert(sq[j - block_range.start] == self.main_table@[j as int]);
            }
            j = j + 1;
        }
        false
    }

    /// Looks a key up: in the backyard when its threshold hash is below its
    /// block's threshold, in its block otherwise.
    fn get(&self, key: &K) -> (r: bool)
        requires
            self.inv(),
        ensures
            r == self.all_keys().contains(key@),
    {
        let block_index = self.hash_block_index(key);
        let ghost n = self.number_of_blocks as int;
        let ghost mk = main_keys(self.main_table@, self.meta_data@);
        if self.hash_threshold(key) < self.meta_data[block_index].threshold {
            proof {
                if mk.contains(key@) {
                    let sq = block_seq(self.main_table@, self.meta_data@, block_index as int);
                    let p = choose|p: int| 0 <= p < sq.len() && sq[p]@ == key@;
                    assert(block_ok(self.main_table@, self.meta_data@, block_index as int));
                    assert(threshold_of::<K>(sq[p]@) >= self.meta_data@[block_index as int].threshold);
                }
            }
            return self.backyard.get(key);
        }
        let block_range = self.block_range(block_index);
        proof {
            if self.backyard.key_set().contains(key@) {
                assert(threshold_of::<K>(key@) < self.meta_data@[block_index as int].threshold);
            }
        }
        self.block_contains(block_index, &block_range, key)
    }

    /// Smallest threshold hash among the keys of a block, or 11 for an
    /// empty block.
    fn min_block_threshold(&self, block_index: usize, block_range: &std::ops::Range<usize>) -> (m: usize)
        requires
            self.inv(),
            block_index < self.number_of_blocks,
            block_range.start == start_at(self.meta_data@, block_index as int),
            block_range.end == end_at(self.meta_data@, block_index as int),
        ensures
            ({
                let sq = block_seq(self.main_table@, self.meta_data@, block_index as int);
                &&& m <= 11
                &&& forall|p: int| 0 <= p < sq.len() ==> m <= threshold_of::<K>(#[trigger] sq[p]@)
                &&& m == 11 || exists|p: int| 0 <= p < sq.len() && threshold_of::<K>(#[trigger] sq[p]@) == m
            }),
    {
        let ghost sq = block_seq(self.main_table@, self.meta_data@, block_index as int);
        proof {
            lemma_block_bounds(self.meta_data@, block_index as int);
        }
        let mut min_threshold_hash = self.max_threshold + 1;
        let mut j = block_range.start;
        while j < block_range.end
            invariant
                self.inv(),
                block_index < self.number_of_blocks,
                sq == block_seq(self.main_table@, self.meta_data@, block_index as int),
                block_range.start == start_at(self.meta_data@, block_index as int),
                block_range.end == end_at(self.meta_data@, block_index as int),
                block_range.end <= self.main_table@.len(),
                block_range.start <= j <= block_range.end,
                min_threshold_hash <= 11,
                forall|p: int| 0 <= p < j - block_range.start ==> min_threshold_hash <= threshold_of::<K>(#[trigger] sq[p]@),
                min_threshold_hash == 11 || exists|p: int| 0 <= p < j - block_range.start && threshold_of::<K>(#[trigger] sq[p]@) == min_threshold_hash,
            decreases block_range.end - j,
        {
            let key_threshold = self.hash_threshold(&self.main_table[j]);
            proof {
                assert(sq[j - block_range.start] == self.main_table@[j as int]);
            }
            if key_threshold < min_threshold_hash {
                min_threshold_hash = key_threshold;
            }
            j = j + 1;
        }
        min_threshold_hash
    }

    /// Raises the threshold of block `block_index` to `t_prime` and moves every
    /// key of the block whose threshold hash is below it to the backyard,
    /// filling its slot with the block's last key.
    #[verifier::rlimit(50)]
    #[verifier::spinoff_prover]
    fn dump_below_threshold(&mut self, block_index: usize, block_start: usize, t_prime: usize)
        requires
            old(self).inv(),
            old(self).all_keys().len() < max_keys(),
            block_index < old(self).number_of_blocks,
            block_start == start_at(old(self).meta_data@, block_index as int),
            old(self).meta_data@[block_index as int].threshold < t_prime <= 10,
        ensures
            final(self).inv(),
            final(self).same_shape(old(self)),
            final(self).all_keys() == old(self).all_keys(),
            final(self).meta_data@[block_index as int].threshold == t_prime,
            forall|i: int| 0 <= i < final(self).meta_data@.len() && i != block_index ==> final(self).meta_data@[i].threshold == old(self).meta_data@[i].threshold,
            final(self).meta_data@[block_index as int].gap >= 1 || block_seq(final(self).main_table@, final(self).meta_data@, block_index as int) == block_seq(old(self).main_table@, old(self).meta_data@, block_index as int),
    {
        let ghost o_main = self.main_table@;
        let ghost o_meta = self.meta_data@;
        let ghost n = self.number_of_blocks as int;
        let ghost b = block_index as int;
        let ghost all = self.all_keys();
        let ghost old_t = o_meta[b].threshold as int;
        proof {
            self.lemma_key_split();
            lemma_block_bounds(o_meta, b);
        }
        self.meta_data[block_index].threshold = t_prime;
        let mut j = block_start;
        proof {
            lemma_block_bounds(o_meta, b);
            assert(off_at(self.meta_data@, b + 1) == off_at(o_meta, b + 1));
        }
        let mut block_end = self.block_end_raw(block_index);
        proof {
            assert(self.meta_data@ =~= o_meta.update(b, SlickHashMetaData { offset: o_meta[b].offset, gap: o_meta[b].gap, threshold: t_prime }));
            lemma_frame(o_main, o_meta, self.main_table@, self.meta_data@, b);
            lemma_main_keys_except(o_main, o_meta, self.main_table@, self.meta_data@, b);
            assert(main_keys(self.main_table@, self.meta_data@) =~= main_keys(o_main, o_meta));
            assert(block_seq(self.main_table@, self.meta_data@, b) == block_seq(o_main, o_meta, b));
            assert(block_ok(o_main, o_meta, b));
        }
        while j < block_end
            invariant
                self.same_shape(old(self)),
                self.shape_ok(),
                n == self.number_of_blocks,
                b == block_index,
                0 <= b < n,
                self.meta_data@.len() == n,
                forall|i: int| 0 <= i < n && i != b ==> self.meta_data@[i] == o_meta[i],
                self.meta_data@[b].offset == o_meta[b].offset,
                self.meta_data@[b].threshold == t_prime,
                self.meta_data@[b].gap >= o_meta[b].gap,
                layout_ok(o_meta),
                layout_ok(self.meta_data@),
                o_main.len() == 10 * n,
                self.main_table@.len() == 10 * n,
                forall|p: int| 0 <= p < 10 * n && !(start_at(o_meta, b) <= p < start_at(o_meta, b + 1)) ==> self.main_table@[p] == o_main[p],
                block_start == start_at(self.meta_data@, b),
                block_start == start_at(o_meta, b),
                block_end == end_at(self.meta_data@, b),
                block_start <= j <= block_end,
                blocks_ok(o_main, o_meta),
                old_t == o_meta[b].threshold,
                old_t < t_prime <= 10,
                views_distinct(block_seq(self.main_table@, self.meta_data@, b)),
                forall|p: int| 0 <= p < block_seq(self.main_table@, self.meta_data@, b).len() ==> {
                    &&& block_of::<K>(#[trigger] block_seq(self.main_table@, self.meta_data@, b)[p]@, n) == b
                    &&& threshold_of::<K>(block_seq(self.main_table@, self.meta_data@, b)[p]@) >= old_t
                },
                forall|p: int| 0 <= p < j - block_start ==> threshold_of::<K>(#[trigger] block_seq(self.main_table@, self.meta_data@, b)[p]@) >= t_prime,
                self.backyard.inv(),
                forall|v: K::V| #[trigger] self.backyard.key_set().contains(v) ==> {
                    let c = block_of::<K>(v, n);
                    0 <= c < n && threshold_of::<K>(v) < self.meta_data@[c].threshold
                },
                forall|v: K::V| block_of::<K>(v, n) != b ==> (main_keys(self.main_table@, self.meta_data@).contains(v) == main_keys(o_main, o_meta).contains(v)),
                forall|v: K::V| block_of::<K>(v, n) == b ==> (main_keys(self.main_table@, self.meta_data@).contains(v) == seq_views(block_seq(self.main_table@, self.meta_data@, b)).contains(v)),
                main_keys(self.main_table@, self.meta_data@) + self.backyard.key_set() == all,
                main_keys(self.main_table@, self.meta_data@).disjoint(self.backyard.key_set()),
                main_keys(self.main_table@, self.meta_data@).finite(),
                self.no_elements_in_main_table == main_keys(self.main_table@, self.meta_data@).len(),
                all.finite(),
                all.len() < max_keys(),
                self.meta_data@[b].gap >= 1 || (block_seq(self.main_table@, self.meta_data@, b) == block_seq(o_main, o_meta, b) && self.meta_data@[b].gap == o_meta[b].gap),
            decreases block_end - j,
        {
            let ghost main0 = self.main_table@;
            let ghost meta0 = self.meta_data@;
            let ghost s0 = block_seq(main0, meta0, b);
            let ghost mk0 = main_keys(main0, meta0);
            let ghost q = j - block_start;
            proof {
                lemma_block_bounds(meta0, b);
                assert(s0[q] == main0[j as int]);
            }
            let key_threshold = self.hash_threshold(&self.main_table[j]);
            if key_threshold < t_prime {
                let evicted = self.main_table[j].key_clone();
                proof {
                    assert(mk0.contains(evicted@));
                    assert(!self.backyard.key_set().contains(evicted@));
                    vstd::set_lib::lemma_len_subset(self.backyard.key_set(), all.remove(evicted@));
                }
                let _ = self.insert_into_backyard(evicted);
                self.no_elements_in_main_table = self.no_elements_in_main_table - 1;
                let last = self.main_table[block_end - 1].key_clone();
                self.main_table.set(j, last);
                self.meta_data[block_index].gap = self.meta_data[block_index].gap + 1;
                proof {
                    let meta1 = self.meta_data@;
                    assert(meta1 =~= meta0.update(b, SlickHashMetaData { offset: meta0[b].offset, gap: (meta0[b].gap + 1) as usize, threshold: t_prime }));
                    assert(off_at(meta1, b + 1) == off_at(meta0, b + 1));
                    assert(start_at(meta1, b) <= end_at(meta1, b));
                    assert(meta0[b].offset <= 10);
                }
                block_end = self.block_end_raw(block_index);
                proof {
                    let main1 = self.main_table@;
                    let meta1 = self.meta_data@;
                    assert(meta1 =~= meta0.update(b, SlickHashMetaData { offset: meta0[b].offset, gap: (meta0[b].gap + 1) as usize, threshold: t_prime }));
                    assert(main1 =~= main0.update(j as int, main0[end_at(meta0, b) - 1]));
                    lemma_evict_step(o_main, o_meta, main0, meta0, main1, meta1, b, j as int);
                    lemma_swap_remove(s0, q);
                    assert(main_keys(main1, meta1) + self.backyard.key_set() =~= all);
                }
            } else {
                j = j + 1;
            }
        }
        proof {
            let main1 = self.main_table@;
            let meta1 = self.meta_data@;
            lemma_frame(o_main, o_meta, main1, meta1, b);
            assert forall|i: int| 0 <= i < n implies #[trigger] block_ok(main1, meta1, i) by {
                if i != b {
                    assert(block_ok(o_main, o_meta, i));
                    assert(meta1[i] == o_meta[i]);
                }
            }
            assert(self.all_keys() =~= all);
        }
    }

    /// First slot of a block, from the current metadata alone.
    fn block_start_raw(&self, block_index: usize) -> (r: usize)
        requires
            self.meta_data@.len() == self.number_of_blocks,
            self.shape_ok(),
            block_index < self.number_of_blocks,
            self.meta_data@[block_index as int].offset <= 10,
        ensures
            r == start_at(self.meta_data@, block_index as int),
    {
        self.block_size * block_index + self.meta_data[block_index].offset
    }

    /// One past the last key of a block, from the current metadata alone.
    fn block_end_raw(&self, block_index: usize) -> (r: usize)
        requires
            self.meta_data@.len() == self.number_of_blocks,
            self.shape_ok(),
            block_index < self.number_of_blocks,
            off_at(self.meta_data@, block_index + 1) <= 10,
            self.meta_data@[block_index as int].gap <= 10 * (block_index + 1) + off_at(self.meta_data@, block_index + 1),
        ensures
            r == end_at(self.meta_data@, block_index as int),
    {
        if block_index == self.number_of_blocks - 1 {
            return self.main_table_size - self.meta_data[block_index].gap;
        }
        self.block_size * block_index + self.block_size + self.meta_data[block_index + 1].offset
            - self.meta_data[block_index].gap
    }

    /// Stores a key that belongs to block `block_index` in the slot right
    /// after the block's last key.
    fn append_to_block(&mut self, block_index: usize, key: K)
        requires
            old(self).inv(),
            old(self).all_keys().len() < max_keys(),
            block_index < old(self).number_of_blocks,
            block_index == block_of::<K>(key@, old(self).number_of_blocks as int),
            old(self).meta_data@[block_index as int].gap >= 1,
            !old(self).all_keys().contains(key@),
            threshold_of::<K>(key@) >= old(self).meta_data@[block_index as int].threshold,
        ensures
            final(self).inv(),
            final(self).same_shape(old(self)),
            final(self).all_keys() == old(self).all_keys().insert(key@),
            final(self).meta_data@ == old(self).meta_data@.update(block_index as int, SlickHashMetaData {
                offset: old(self).meta_data@[block_index as int].offset,
                gap: (old(self).meta_data@[block_index as int].gap - 1) as usize,
                threshold: old(self).meta_data@[block_index as int].threshold,
            }),
            block_seq(final(self).main_table@, final(self).meta_data@, block_index as int)
                == block_seq(old(self).main_table@, old(self).meta_data@, block_index as int).push(key),
            forall|i: int| 0 <= i < old(self).number_of_blocks && i != block_index
                ==> #[trigger] block_seq(final(self).main_table@, final(self).meta_data@, i) == block_seq(old(self).main_table@, old(self).meta_data@, i),
            final(self).backyard == old(self).backyard,
    {
        let ghost main0 = self.main_table@;
        let ghost meta0 = self.meta_data@;
        let ghost b = block_index as int;
        let ghost n = self.number_of_blocks as int;
        proof {
            self.lemma_key_split();
            lemma_block_bounds(meta0, b);
            assert(block_ok(main0, meta0, b));
        }
        let current_block_end = self.block_end(block_index);
        self.main_table.set(current_block_end, key);
        self.no_elements_in_main_table = self.no_elements_in_main_table + 1;
        self.meta_data[block_index].gap = self.meta_data[block_index].gap - 1;
        proof {
            let main1 = self.main_table@;
            let meta1 = self.meta_data@;
            assert(meta1 =~= meta0.update(b, SlickHashMetaData { offset: meta0[b].offset, gap: (meta0[b].gap - 1) as usize, threshold: meta0[b].threshold }));
            lemma_append_step(main0, meta0, main1, meta1, b, key);
            assert forall|i: int| 0 <= i < n implies #[trigger] block_ok(main1, meta1, i) by {
                if i != b {
                    assert(block_ok(main0, meta0, i));
                    assert(meta1[i] == meta0[i]);
                } else {
                    let s1 = block_seq(main1, meta1, b);
                    assert forall|p: int| 0 <= p < s1.len() implies {
                        &&& block_of::<K>(#[trigger] s1[p]@, n) == b
                        &&& threshold_of::<K>(s1[p]@) >= meta1[b].threshold
                    } by {
                        if p < s1.len() - 1 {
                            assert(s1[p] == block_seq(main0, meta0, b)[p]);
                        }
                    }
                }
            }
            assert forall|v: K::V| #[trigger] self.backyard.key_set().contains(v) implies {
                let c = block_of::<K>(v, n);
                0 <= c < n && threshold_of::<K>(v) < meta1[c].threshold
            } by {
                let c = block_of::<K>(v, n);
                assert(0 <= c < n && threshold_of::<K>(v) < meta0[c].threshold);
                if c != b {
                    assert(meta1[c] == meta0[c]);
                }
            }
            assert(self.all_keys() =~= main_keys(main0, meta0).insert(key@) + self.backyard.key_set());
            assert(self.all_keys() =~= old(self).all_keys().insert(key@));
            assert(self.all_keys().len() == old(self).all_keys().len() + 1);
        }
    }

    /// A table whose main table and metadata were rearranged, keeping the
    /// thresholds, the layout's well-formedness and the main keys, still
    /// satisfies the invariant and holds the same keys.
    proof fn lemma_rearranged(&self, before: &Self)
        requires
            before.inv(),
            self.same_shape(before),
            self.backyard == before.backyard,
            self.no_elements_in_main_table == before.no_elements_in_main_table,
            self.meta_data@.len() == before.meta_data@.len(),
            forall|i: int| 0 <= i < self.meta_data@.len() ==> #[trigger] self.meta_data@[i].threshold == before.meta_data@[i].threshold,
            layout_ok(self.meta_data@),
            blocks_ok(self.main_table@, self.meta_data@),
            main_keys(self.main_table@, self.meta_data@) == main_keys(before.main_table@, before.meta_data@),
        ensures
            self.inv(),
            self.all_keys() == before.all_keys(),
    {
        let n = self.number_of_blocks as int;
        let meta = self.meta_data@;
        assert forall|v: K::V| #[trigger] self.backyard.key_set().contains(v) implies {
            let c = block_of::<K>(v, n);
            0 <= c < n && threshold_of::<K>(v) < meta[c].threshold
        } by {
            assert(before.backyard.key_set().contains(v));
            let c = block_of::<K>(v, n);
            assert(meta[c].threshold == before.meta_data@[c].threshold);
        }
        assert(self.all_keys() =~= before.all_keys());
    }

    /// Slides the nearest gap on the left of block `block_index` over to it.
    #[verifier::rlimit(60)]
    #[verifier::spinoff_prover]
    fn slide_gap_from_left(&mut self, block_index: usize) -> (slid: bool)
        requires
            old(self).inv(),
            block_index < old(self).number_of_blocks,
            old(self).meta_data@[block_index as int].gap == 0,
        ensures
            final(self).inv(),
            final(self).same_shape(old(self)),
            final(self).all_keys() == old(self).all_keys(),
            forall|i: int| 0 <= i < final(self).meta_data@.len() ==> #[trigger] final(self).meta_data@[i].threshold == old(self).meta_data@[i].threshold,
            slid ==> final(self).meta_data@[block_index as int].gap >= 1,
            slid == exists|s: int| left_source(old(self).meta_data@, s, block_index as int),
            final(self).backyard == old(self).backyard,
            final(self).no_elements_in_main_table == old(self).no_elements_in_main_table,
            slid ==> exists|s: int| #[trigger] left_source(old(self).meta_data@, s, block_index as int)
                && slid_left(old(self).main_table@, old(self).meta_data@, final(self).main_table@, final(self).meta_data@, s, block_index as int),
            !slid ==> *final(self) == *old(self),
    {
        let ghost o_main = self.main_table@;
        let ghost o_meta = self.meta_data@;
        let ghost n = self.number_of_blocks as int;
        let ghost b = block_index as int;
        let mut sliding_block_index = block_index;
        while self.meta_data[sliding_block_index].gap == 0
            invariant
                *self == *old(self),
                self.inv(),
                o_meta == self.meta_data@,
                n == self.number_of_blocks,
                b == block_index,
                b < n,
                o_meta[b].gap == 0,
                sliding_block_index <= block_index,
                forall|u: int| sliding_block_index < u <= b ==> #[trigger] o_meta[u].gap == 0 && o_meta[u].offset >= 1,
            decreases sliding_block_index,
        {
            if (sliding_block_index == 0) || (self.meta_data[sliding_block_index].offset == 0) {
                proof {
                    let sb = sliding_block_index as int;
                    assert forall|s: int| !left_source(o_meta, s, b) by {
                        if left_source(o_meta, s, b) {
                            if s > sb {
                                assert(o_meta[s].gap == 0 && o_meta[s].offset >= 1);
                            } else if s < sb {
                                assert(o_meta[sb].gap == 0 && o_meta[sb].offset >= 1);
                            }
                        }
                    }
                }
                return false;
            }
            sliding_block_index = sliding_block_index - 1;
        }
        let ghost s = sliding_block_index as int;
        proof {
            assert forall|s2: int| left_source(o_meta, s2, b) implies s2 == s by {
                if s2 > s {
                    assert(o_meta[s2].gap == 0 && o_meta[s2].offset >= 1);
                } else if s2 < s {
                    assert(o_meta[s].gap == 0 && o_meta[s].offset >= 1);
                }
            }
        }
        let empty_block_has_gap_one = (self.meta_data[sliding_block_index].gap == 1)
            && (self.block_start(sliding_block_index) == self.block_end(sliding_block_index));
        if empty_block_has_gap_one {
            return false;
        }
        proof {
            lemma_block_bounds(o_meta, s);
            assert(left_source(o_meta, s, b));
        }
        self.meta_data[sliding_block_index].gap = self.meta_data[sliding_block_index].gap - 1;
        sliding_block_index = sliding_block_index + 1;
        proof {
            assert(meta_sliding_left(o_meta, self.meta_data@, s, s + 1));
        }
        while sliding_block_index <= block_index
            invariant
                self.same_shape(old(self)),
                self.shape_ok(),
                self.backyard == old(self).backyard,
                self.no_elements_in_main_table == old(self).no_elements_in_main_table,
                o_main == old(self).main_table@,
                o_meta == old(self).meta_data@,
                old(self).inv(),
                n == self.number_of_blocks,
                b == block_index,
                0 <= s < b < n,
                s < sliding_block_index <= b + 1,
                o_meta.len() == n,
                o_main.len() == 10 * n,
                self.main_table@.len() == 10 * n,
                layout_ok(o_meta),
                o_meta[s].gap >= 1,
                forall|u: int| s < u <= b ==> #[trigger] o_meta[u].gap == 0 && o_meta[u].offset >= 1,
                meta_sliding_left(o_meta, self.meta_data@, s, sliding_block_index as int),
                forall|p: int| 0 <= p < 10 * n && (p < end_at(o_meta, s) || p >= start_at(o_meta, sliding_block_index as int) - 1) ==> self.main_table@[p] == o_main[p],
                forall|u: int| s < u < sliding_block_index ==> #[trigger] front_moved(self.main_table@, o_main, o_meta, u),
                forall|u: int| s < u < sliding_block_index ==> #[trigger] interior_kept(self.main_table@, o_main, o_meta, u),
            decreases b + 1 - sliding_block_index,
        {
            let ghost t = sliding_block_index as int;
            let ghost main0 = self.main_table@;
            proof {
                let meta = self.meta_data@;
                assert(meta[t].offset == o_meta[t].offset);
                assert(o_meta[t].offset <= 10);
                assert(o_meta[t].gap == 0 && o_meta[t].offset >= 1);
                if t + 1 < n {
                    assert(meta[t + 1].offset == o_meta[t + 1].offset);
                    assert(o_meta[t + 1].offset <= 10);
                }
                assert(off_at(meta, t + 1) == off_at(o_meta, t + 1));
                lemma_block_bounds(o_meta, t);
                lemma_layout_mono(o_meta, s + 1, t);
                lemma_block_bounds(o_meta, s);
            }
            let start_sliding_block = self.block_start_raw(sliding_block_index);
            let end_sliding_block = self.block_end_raw(sliding_block_index);
            let moved = self.main_table[end_sliding_block - 1].key_clone();
            self.main_table.set(start_sliding_block - 1, moved);
            self.meta_data[sliding_block_index].offset = self.meta_data[sliding_block_index].offset - 1;
            proof {
                lemma_slide_left_step(o_main, o_meta, main0, self.main_table@, s, t, b);
                assert forall|i: int| #![trigger self.meta_data@[i]] 0 <= i < n implies {
                    &&& self.meta_data@[i].threshold == o_meta[i].threshold
                    &&& self.meta_data@[i].offset == if s < i < t + 1 { o_meta[i].offset - 1 } else { o_meta[i].offset as int }
                    &&& self.meta_data@[i].gap == if i == s { o_meta[i].gap - 1 } else { o_meta[i].gap as int }
                } by {}
            }
            sliding_block_index = sliding_block_index + 1;
        }
        self.meta_data[block_index].gap = self.meta_data[block_index].gap + 1;
        proof {
            let main = self.main_table@;
            let meta = self.meta_data@;
            assert(meta_slid_left(o_meta, meta, s, b));
            assert(blocks_ok(o_main, o_meta));
            lemma_slide_left_done(o_main, o_meta, main, meta, s, b);
            self.lemma_rearranged(old(self));
            assert(slid_left(o_main, o_meta, main, meta, s, b));
        }
        true
    }

    /// Slides the nearest gap on the right of block `block_index` over to it.
    #[verifier::rlimit(60)]
    #[verifier::spinoff_prover]
    fn slide_gap_from_right(&mut self, block_index: usize) -> (slid: bool)
        requires
            old(self).inv(),
            block_index < old(self).number_of_blocks,
            old(self).meta_data@[block_index as int].gap == 0,
        ensures
            final(self).inv(),
            final(self).same_shape(old(self)),
            final(self).all_keys() == old(self).all_keys(),
            forall|i: int| 0 <= i < final(self).meta_data@.len() ==> #[trigger] final(self).meta_data@[i].threshold == old(self).meta_data@[i].threshold,
            slid ==> final(self).meta_data@[block_index as int].gap >= 1,
            slid == exists|s: int| right_source(old(self).meta_data@, block_index as int, s),
            final(self).backyard == old(self).backyard,
            final(self).no_elements_in_main_table == old(self).no_elements_in_main_table,
            slid ==> exists|s: int| #[trigger] right_source(old(self).meta_data@, block_index as int, s)
                && slid_right(old(self).main_table@, old(self).meta_data@, final(self).main_table@, final(self).meta_data@, block_index as int, s),
            !slid ==> *final(self) == *old(self),
    {
        let ghost o_main = self.main_table@;
        let ghost o_meta = self.meta_data@;
        let ghost n = self.number_of_blocks as int;
        let ghost b = block_index as int;
        if block_index == self.number_of_blocks - 1 {
            proof {
                assert forall|s: int| !right_source(o_meta, b, s) by {}
            }
            return false;
        }
        let mut sliding_block_index = block_index + 1;
        while self.meta_data[sliding_block_index].gap == 0
            invariant
                *self == *old(self),
                self.inv(),
                o_meta == self.meta_data@,
                n == self.number_of_blocks,
                b == block_index,
                b < sliding_block_index < n,
                forall|u: int| b < u < sliding_block_index ==> #[trigger] o_meta[u].gap == 0 && o_meta[u].offset < 10,
            decreases n - sliding_block_index,
        {
            if (sliding_block_index == self.number_of_blocks - 1)
                || (self.meta_data[sliding_block_index].offset == self.max_offset)
            {
                proof {
                    let sb = sliding_block_index as int;
                    assert(o_meta[sb].offset <= 10);
                    assert forall|s: int| !right_source(o_meta, b, s) by {
                        if right_source(o_meta, b, s) {
                            if s < sb {
                                assert(o_meta[s].gap == 0 && o_meta[s].offset < 10);
                            } else if s > sb {
                                assert(o_meta[sb].gap == 0 && o_meta[sb].offset < 10);
                            }
                        }
                    }
                }
                return false;
            }
            sliding_block_index = sliding_block_index + 1;
        }
        let ghost s = sliding_block_index as int;
        proof {
            assert forall|s2: int| right_source(o_meta, b, s2) implies s2 == s by {
                if s2 < s {
                    assert(o_meta[s2].gap == 0 && o_meta[s2].offset < 10);
                } else if s2 > s {
                    assert(o_meta[s].gap == 0 && o_meta[s].offset < 10);
                }
            }
        }
        if self.meta_data[sliding_block_index].offset == self.max_offset {
            return false;
        }
        let empty_block_has_gap_one = (self.meta_data[sliding_block_index].gap == 1)
            && (self.block_start(sliding_block_index) == self.block_end(sliding_block_index));
        if empty_block_has_gap_one {
            return false;
        }
        proof {
            lemma_block_bounds(o_meta, s);
            assert(o_meta[s].offset <= 10);
            assert(right_source(o_meta, b, s));
        }
        let start_sliding_block = self.block_start(sliding_block_index);
        let end_sliding_block = self.block_end(sliding_block_index);
        let moved = self.main_table[start_sliding_block].key_clone();
        self.main_table.set(end_sliding_block, moved);
        self.meta_data[sliding_block_index].offset = self.meta_data[sliding_block_index].offset + 1;
        self.meta_data[sliding_block_index].gap = self.meta_data[sliding_block_index].gap - 1;
        proof {
            lemma_slide_right_step(o_main, o_meta, o_main, self.main_table@, b, s, s);
            assert(meta_sliding_right(o_meta, self.meta_data@, s - 1, s));
        }
        sliding_block_index = sliding_block_index - 1;
        while sliding_block_index > block_index
            invariant
                self.same_shape(old(self)),
                self.shape_ok(),
                self.backyard == old(self).backyard,
                self.no_elements_in_main_table == old(self).no_elements_in_main_table,
                o_main == old(self).main_table@,
                o_meta == old(self).meta_data@,
                old(self).inv(),
                n == self.number_of_blocks,
                b == block_index,
                0 <= b < s < n,
                b <= sliding_block_index < s,
                o_meta.len() == n,
                o_main.len() == 10 * n,
                self.main_table@.len() == 10 * n,
                layout_ok(o_meta),
                o_meta[s].gap >= 1,
                o_meta[s].offset < 10,
                forall|u: int| b < u < s ==> #[trigger] o_meta[u].gap == 0 && o_meta[u].offset < 10,
                meta_sliding_right(o_meta, self.meta_data@, sliding_block_index as int, s),
                forall|p: int| 0 <= p < 10 * n && (p <= start_at(o_meta, sliding_block_index + 1) || p > end_at(o_meta, s)) ==> self.main_table@[p] == o_main[p],
                forall|u: int| sliding_block_index < u <= s ==> #[trigger] back_moved(self.main_table@, o_main, o_meta, u),
                forall|u: int| sliding_block_index < u <= s ==> #[trigger] tail_kept(self.main_table@, o_main, o_meta, u),
            decreases sliding_block_index,
        {
            let ghost c = sliding_block_index as int;
            let ghost main0 = self.main_table@;
            proof {
                let meta = self.meta_data@;
                assert(meta[c].offset == o_meta[c].offset);
                assert(o_meta[c].offset <= 10);
                assert(o_meta[c].gap == 0 && o_meta[c].offset < 10);
                assert(meta[c + 1].offset == o_meta[c + 1].offset + 1);
                if c + 1 < s {
                    assert(o_meta[c + 1].gap == 0 && o_meta[c + 1].offset < 10);
                }
                assert(off_at(meta, c + 1) == off_at(o_meta, c + 1) + 1);
                lemma_block_bounds(o_meta, c);
            }
            let start_sliding_block = self.block_start_raw(sliding_block_index);
            let end_sliding_block = self.block_end_raw(sliding_block_index);
            let moved = self.main_table[start_sliding_block].key_clone();
            self.main_table.set(end_sliding_block - 1, moved);
            self.meta_data[sliding_block_index].offset = self.meta_data[sliding_block_index].offset + 1;
            proof {
                lemma_slide_right_step(o_main, o_meta, main0, self.main_table@, b, c, s);
                assert forall|i: int| #![trigger self.meta_data@[i]] 0 <= i < n implies {
                    &&& self.meta_data@[i].threshold == o_meta[i].threshold
                    &&& self.meta_data@[i].offset == if c - 1 < i <= s { o_meta[i].offset + 1 } else { o_meta[i].offset as int }
                    &&& self.meta_data@[i].gap == if i == s { o_meta[i].gap - 1 } else { o_meta[i].gap as int }
                } by {}
            }
            sliding_block_index = sliding_block_index - 1;
        }
        self.meta_data[sliding_block_index].gap = self.meta_data[sliding_block_index].gap + 1;
        proof {
            let main = self.main_table@;
            let meta = self.meta_data@;
            assert(meta_slid_right(o_meta, meta, b, s));
            assert(blocks_ok(o_main, o_meta));
            lemma_slide_right_done(o_main, o_meta, main, meta, b, s);
            self.lemma_rearranged(old(self));
            assert(slid_right(o_main, o_meta, main, meta, b, s));
        }
        true
    }

    /// Whether block `block_index` cannot take another key: it holds the
    /// maximal number of keys, or it has no gap and none can be slid over
    /// from either side. Sliding a gap over is a side effect.
    fn there_is_no_space(&mut self, block_range: &std::ops::Range<usize>, block_index: usize) -> (r: bool)
        requires
            old(self).inv(),
            block_index < old(self).number_of_blocks,
            block_range.start == start_at(old(self).meta_data@, block_index as int),
            block_range.end == end_at(old(self).meta_data@, block_index as int),
        ensures
            final(self).inv(),
            final(self).same_shape(old(self)),
            final(self).all_keys() == old(self).all_keys(),
            forall|i: int| 0 <= i < final(self).meta_data@.len() ==> #[trigger] final(self).meta_data@[i].threshold == old(self).meta_data@[i].threshold,
            !r ==> final(self).meta_data@[block_index as int].gap >= 1,
            final(self).backyard == old(self).backyard,
            final(self).no_elements_in_main_table == old(self).no_elements_in_main_table,
            r == (block_range.end - block_range.start >= old(self).max_slick_size
                || (old(self).meta_data@[block_index as int].gap == 0
                    && !(exists|s: int| left_source(old(self).meta_data@, s, block_index as int))
                    && !(exists|s: int| right_source(old(self).meta_data@, block_index as int, s)))),
            r ==> *final(self) == *old(self),
            block_range.end - block_range.start >= old(self).max_slick_size || old(self).meta_data@[block_index as int].gap > 0
                ==> *final(self) == *old(self),
            !r && old(self).meta_data@[block_index as int].gap == 0 ==> {
                ||| exists|s: int| #[trigger] left_source(old(self).meta_data@, s, block_index as int)
                    && slid_left(old(self).main_table@, old(self).meta_data@, final(self).main_table@, final(self).meta_data@, s, block_index as int)
                ||| !(exists|s: int| left_source(old(self).meta_data@, s, block_index as int))
                    && exists|s: int| #[trigger] right_source(old(self).meta_data@, block_index as int, s)
                    && slid_right(old(self).main_table@, old(self).meta_data@, final(self).main_table@, final(self).meta_data@, block_index as int, s)
            },
    {
        proof {
            lemma_block_bounds(self.meta_data@, block_index as int);
        }
        (block_range.end - block_range.start >= self.max_slick_size)
            || !(self.meta_data[block_index].gap > 0
                || self.slide_gap_from_left(block_index)
                || self.slide_gap_from_right(block_index))
    }

    /// Where each key lives: in the backyard exactly when its threshold hash
    /// is below its block's threshold, and otherwise in its block.
    proof fn lemma_placement(&self)
        requires
            self.inv(),
        ensures
            forall|v: K::V| #[trigger] self.all_keys().contains(v) ==> {
                let c = block_of::<K>(v, self.number_of_blocks as int);
                &&& 0 <= c < self.number_of_blocks
                &&& (self.backyard.key_set().contains(v) <==> threshold_of::<K>(v) < self.meta_data@[c].threshold)
                &&& (self.backyard.key_set().contains(v) <==> !seq_views(block_seq(self.main_table@, self.meta_data@, c)).contains(v))
            },
    {
        self.lemma_key_split();
        let n = self.number_of_blocks as int;
        let mk = main_keys(self.main_table@, self.meta_data@);
        assert forall|v: K::V| #[trigger] self.all_keys().contains(v) implies {
            let c = block_of::<K>(v, n);
            &&& 0 <= c < n
            &&& (self.backyard.key_set().contains(v) <==> threshold_of::<K>(v) < self.meta_data@[c].threshold)
            &&& (self.backyard.key_set().contains(v) <==> !seq_views(block_seq(self.main_table@, self.meta_data@, c)).contains(v))
        } by {
            let c = block_of::<K>(v, n);
            if mk.contains(v) {
                let sq = block_seq(self.main_table@, self.meta_data@, c);
                let p = choose|p: int| 0 <= p < sq.len() && sq[p]@ == v;
                assert(block_ok(self.main_table@, self.meta_data@, c));
                assert(threshold_of::<K>(sq[p]@) >= self.meta_data@[c].threshold);
                assert(!self.backyard.key_set().contains(v));
            } else {
                assert(self.backyard.key_set().contains(v));
            }
        }
    }

    /// Inserts a key: into the backyard when its threshold hash is below its
    /// block's threshold (`Occupied` when the backyard holds it already);
    /// otherwise into its block (`Inserted` also when the block holds it), after making room by
    /// sliding a gap over or by raising the block's threshold and moving the
    /// keys below it (and possibly the new key) to the backyard.
    ///
    /// Only the key's block can change its threshold, and only when the key
    /// is new, is not below that threshold, and the block has no room: the
    /// threshold then becomes one above the smallest threshold hash among the
    /// block's keys and the new key, the block's keys below it go to the
    /// backyard and the others stay. A key that is present already leaves
    /// the main table, the metadata and the backyard's keys as they were; a
    /// new key that finds a gap right after its block is appended there.
    #[verifier::rlimit(40)]
    #[verifier::spinoff_prover]
    fn try_insert(&mut self, key: K) -> (r: Insertion)
        requires
            old(self).inv(),
            old(self).all_keys().len() < max_keys(),
        ensures
            final(self).inv(),
            final(self).same_shape(old(self)),
            final(self).all_keys() == old(self).all_keys().insert(key@),
            r is Occupied <==> old(self).all_keys().contains(key@)
                && threshold_of::<K>(key@) < old(self).meta_data@[block_of::<K>(key@, old(self).number_of_blocks as int)].threshold,
            forall|i: int| 0 <= i < old(self).number_of_blocks && i != block_of::<K>(key@, old(self).number_of_blocks as int)
                ==> #[trigger] final(self).meta_data@[i].threshold == old(self).meta_data@[i].threshold,
            old(self).all_keys().contains(key@) ==> final(self).same_main(old(self))
                && final(self).backyard.key_set() == old(self).backyard.key_set(),
            ({
                let n = old(self).number_of_blocks as int;
                let b = block_of::<K>(key@, n);
                let o_meta = old(self).meta_data@;
                let ob = block_seq(old(self).main_table@, o_meta, b);
                let fb = block_seq(final(self).main_table@, final(self).meta_data@, b);
                let t = final(self).meta_data@[b].threshold as int;
                let fresh = !old(self).all_keys().contains(key@) && threshold_of::<K>(key@) >= o_meta[b].threshold;
                &&& threshold_of::<K>(key@) < o_meta[b].threshold ==> final(self).same_main(old(self))
                &&& fresh && block_has_no_room(o_meta, b) ==> {
                    &&& ob.len() > 0
                    &&& o_meta[b].threshold < t
                    &&& raised_threshold::<K>(t, ob, key@)
                    &&& forall|v: K::V| #[trigger] seq_views(ob).contains(v) ==> {
                        &&& threshold_of::<K>(v) < t ==> final(self).backyard.key_set().contains(v) && !seq_views(fb).contains(v)
                        &&& threshold_of::<K>(v) >= t ==> seq_views(fb).contains(v)
                    }
                }
                &&& !(fresh && block_has_no_room(o_meta, b)) ==> t == o_meta[b].threshold
                &&& (final(self).backyard.key_set().contains(key@) <==> threshold_of::<K>(key@) < t)
                &&& (final(self).backyard.key_set().contains(key@) <==> !seq_views(fb).contains(key@))
                &&& fresh && o_meta[b].gap >= 1 && end_at(o_meta, b) - start_at(o_meta, b) < 20 ==> {
                    &&& final(self).meta_data@ == o_meta.update(b, SlickHashMetaData {
                        offset: o_meta[b].offset,
                        gap: (o_meta[b].gap - 1) as usize,
                        threshold: o_meta[b].threshold,
                    })
                    &&& fb == ob.push(key)
                    &&& forall|i: int| 0 <= i < n && i != b
                        ==> #[trigger] block_seq(final(self).main_table@, final(self).meta_data@, i) == block_seq(old(self).main_table@, o_meta, i)
                    &&& final(self).backyard == old(self).backyard
                }
            }),
    {
        let ghost n = self.number_of_blocks as int;
        let block_index = self.hash_block_index(&key);
        let ghost b = block_index as int;
        let ghost kv = key@;
        let block_start = self.block_start(block_index);
        let block_range = self.block_range(block_index);
        proof {
            self.lemma_key_split();
            self.lemma_placement();
            lemma_block_bounds(self.meta_data@, b);
        }
        if self.hash_threshold(&key) < self.meta_data[block_index].threshold {
            let ghost mk = main_keys(self.main_table@, self.meta_data@);
            proof {
                if mk.contains(key@) {
                    let sq = block_seq(self.main_table@, self.meta_data@, b);
                    let p = choose|p: int| 0 <= p < sq.len() && sq[p]@ == key@;
                    assert(block_ok(self.main_table@, self.meta_data@, b));
                    assert(threshold_of::<K>(sq[p]@) >= self.meta_data@[b].threshold);
                }
            }
            let r = self.insert_into_backyard(key);
            proof {
                assert(self.all_keys() =~= old(self).all_keys().insert(kv));
                if old(self).all_keys().contains(kv) {
                    assert(old(self).backyard.key_set().contains(kv));
                    assert(self.backyard.key_set() =~= old(self).backyard.key_set());
                }
                self.lemma_placement();
                assert(self.all_keys().contains(kv));
            }
            return r;
        }
        if self.block_contains(block_index, &block_range, &key) {
            proof {
                assert(self.all_keys() =~= old(self).all_keys().insert(key@));
                assert(old(self).all_keys().contains(kv));
                assert(self.all_keys().contains(kv));
            }
            return Insertion::Inserted;
        }
        proof {
            if self.backyard.key_set().contains(key@) {
                assert(threshold_of::<K>(key@) < self.meta_data@[b].threshold);
            }
            assert(!self.all_keys().contains(key@));
        }
        let there_is_no_space = self.there_is_no_space(&block_range, block_index);
        if there_is_no_space {
            let ghost s1 = block_seq(self.main_table@, self.meta_data@, b);
            let ghost mid = *self;
            proof {
                assert(block_ok(self.main_table@, self.meta_data@, b));
                lemma_block_bounds(self.meta_data@, b);
                assert(start_at(self.meta_data@, b) == end_at(self.meta_data@, b) ==> self.meta_data@[b].gap >= 1);
                assert(s1.len() > 0);
            }
            let mut min_threshold_hash = self.min_block_threshold(block_index, &block_range);
            let key_threshold = self.hash_threshold(&key);
            if key_threshold < min_threshold_hash {
                min_threshold_hash = key_threshold;
            }
            let t_prime = min_threshold_hash + 1;
            proof {
                if s1.len() > 0 {
                    assert(min_threshold_hash <= threshold_of::<K>(s1[0]@));
                    assert(threshold_of::<K>(s1[0]@) >= self.meta_data@[b].threshold);
                }
                assert(raised_threshold::<K>(t_prime as int, s1, kv));
            }
            self.dump_below_threshold(block_index, block_start, t_prime);
            proof {
                assert forall|v: K::V| #[trigger] seq_views(s1).contains(v) implies old(self).all_keys().contains(v)
                    && block_of::<K>(v, n) == b by {
                    let p = choose|p: int| 0 <= p < s1.len() && s1[p]@ == v;
                    assert(block_ok(mid.main_table@, mid.meta_data@, b));
                    assert(block_of::<K>(s1[p]@, n) == b);
                    assert(main_keys(mid.main_table@, mid.meta_data@).contains(v));
                }
            }
            if self.hash_threshold(&key) < t_prime {
                proof {
                    self.lemma_key_split();
                }
                let r = self.insert_into_backyard(key);
                proof {
                    assert forall|v: K::V| #[trigger] self.backyard.key_set().contains(v) implies {
                        let c = block_of::<K>(v, n);
                        0 <= c < n && threshold_of::<K>(v) < self.meta_data@[c].threshold
                    } by {}
                    assert(self.all_keys() =~= old(self).all_keys().insert(key@));
                    self.lemma_placement();
                    assert(self.all_keys().contains(kv));
                    assert forall|v: K::V| #[trigger] seq_views(s1).contains(v) implies self.all_keys().contains(v) by {}
                }
                return r;
            }
            proof {
                if self.meta_data@[b].gap == 0 {
                    assert(block_seq(self.main_table@, self.meta_data@, b) == s1);
                    assert(block_ok(self.main_table@, self.meta_data@, b));
                    let p = choose|p: int| 0 <= p < s1.len() && threshold_of::<K>(#[trigger] s1[p]@) == min_threshold_hash;
                    assert(threshold_of::<K>(s1[p]@) >= t_prime);
                }
            }
            let ghost before_append = *self;
            self.append_to_block(block_index, key);
            proof {
                assert(self.all_keys() =~= old(self).all_keys().insert(key@));
                assert(self.meta_data@[b].threshold == before_append.meta_data@[b].threshold);
                assert forall|i: int| 0 <= i < n implies #[trigger] self.meta_data@[i].threshold == before_append.meta_data@[i].threshold by {}
                self.lemma_placement();
                assert(self.all_keys().contains(kv));
                assert forall|v: K::V| #[trigger] seq_views(s1).contains(v) implies self.all_keys().contains(v) by {
                    assert(before_append.all_keys().contains(v));
                }
            }
            return Insertion::Inserted;
        }
        self.append_to_block(block_index, key);
        proof {
            assert(self.all_keys() =~= old(self).all_keys().insert(key@));
            self.lemma_placement();
            assert(self.all_keys().contains(kv));
        }
        Insertion::Inserted
    }

    /// Removes a key: from the backyard when its threshold hash is below its
    /// block's threshold, and from its block, where the block's last key
    /// takes its slot. Returns the removed key, or `None` when it is absent.
    #[verifier::rlimit(30)]
    #[verifier::spinoff_prover]
    pub fn remove_entry(&mut self, key: &K) -> (removed: Option<K>)
        requires
            old(self).wf(),
        ensures
            final(self).wf(),
            final(self).spec_capacity() == old(self).spec_capacity(),
            final(self).spec_extra_space() == old(self).spec_extra_space(),
            final(self).block_thresholds() == old(self).block_thresholds(),
            final(self).keys() == old(self).keys().remove(key@),
            removed is Some <==> old(self).keys().contains(key@),
            removed is Some ==> removed->0@ == key@,
    {
        let ghost n = self.number_of_blocks as int;
        let block_index = self.hash_block_index(key);
        let ghost b = block_index as int;
        let mut remove_value: Option<K> = None;
        proof {
            self.lemma_key_split();
        }
        let below = self.hash_threshold(key) < self.meta_data[block_index].threshold;
        if below {
            let ghost mk = main_keys(self.main_table@, self.meta_data@);
            proof {
                if mk.contains(key@) {
                    let sq = block_seq(self.main_table@, self.meta_data@, b);
                    let p = choose|p: int| 0 <= p < sq.len() && sq[p]@ == key@;
                    assert(block_ok(self.main_table@, self.meta_data@, b));
                    assert(threshold_of::<K>(sq[p]@) >= self.meta_data@[b].threshold);
                }
            }
            remove_value = self.backyard.remove_entry(key);
            proof {
                lemma_slot_keys_len_of(&self.backyard);
                assert(self.all_keys() =~= old(self).all_keys().remove(key@));
                vstd::set_lib::lemma_len_subset(self.all_keys(), old(self).all_keys());
            }
        } else {
            proof {
                if self.backyard.key_set().contains(key@) {
                    assert(threshold_of::<K>(key@) < self.meta_data@[b].threshold);
                }
            }
        }
        let ghost mid = *self;
        let ghost sq = block_seq(self.main_table@, self.meta_data@, b);
        proof {
            lemma_block_bounds(self.meta_data@, b);
            if below && seq_views(sq).contains(key@) {
                assert(main_keys(self.main_table@, self.meta_data@).contains(key@));
            }
        }
        let block_range = self.block_range(block_index);
        let mut found: Option<usize> = None;
        let mut i = block_range.start;
        while i < block_range.end
            invariant_except_break
                found is None,
            invariant
                *self == mid,
                self.inv(),
                b == block_index,
                0 <= b < n,
                n == self.number_of_blocks,
                sq == block_seq(self.main_table@, self.meta_data@, b),
                block_range.start == start_at(self.meta_data@, b),
                block_range.end == end_at(self.meta_data@, b),
                block_range.end <= self.main_table@.len(),
                block_range.start <= i <= block_range.end,
                forall|p: int| 0 <= p < i - block_range.start ==> sq[p]@ != key@,
            ensures
                *self == mid,
                found is None ==> forall|p: int| 0 <= p < sq.len() ==> sq[p]@ != key@,
                found is Some ==> block_range.start <= found->0 < block_range.end && self.main_table@[found->0 as int]@ == key@,
            decreases block_range.end - i,
        {
            proof {
                assert(sq[i - block_range.start] == self.main_table@[i as int]);
            }
            if self.main_table[i].key_eq(key) {
                found = Some(i);
                break;
            }
            i = i + 1;
        }
        match found {
            None => {
                proof {
                    if !below {
                        assert(!main_keys(self.main_table@, self.meta_data@).contains(key@));
                        assert(self.all_keys() =~= old(self).all_keys().remove(key@));
                    }
                }
            },
            Some(j) => {
                let ghost main0 = self.main_table@;
                let ghost meta0 = self.meta_data@;
                let ghost q = j - block_range.start;
                proof {
                    assert(sq[q] == main0[j as int]);
                    assert(block_ok(main0, meta0, b));
                    assert(seq_views(sq).contains(key@));
                    assert(!below);
                    assert(main_keys(main0, meta0).contains(key@));
                    assert(main_keys(main0, meta0).remove(key@).len() + 1 == main_keys(main0, meta0).len());
                }
                let key_value_pair = self.main_table[j].key_clone();
                let end = self.block_end(block_index);
                let last = self.main_table[end - 1].key_clone();
                self.main_table.set(j, last);
                self.meta_data[block_index].gap = self.meta_data[block_index].gap + 1;
                self.no_elements_in_main_table = self.no_elements_in_main_table - 1;
                remove_value = Some(key_value_pair);
                proof {
                    let main1 = self.main_table@;
                    let meta1 = self.meta_data@;
                    assert(meta1 =~= meta0.update(b, SlickHashMetaData { offset: meta0[b].offset, gap: (meta0[b].gap + 1) as usize, threshold: meta0[b].threshold }));
                    assert(main1 =~= main0.update(j as int, main0[end_at(meta0, b) - 1]));
                    lemma_evict_step(main0, meta0, main0, meta0, main1, meta1, b, j as int);
                    lemma_swap_remove(sq, q);
                    lemma_frame(main0, meta0, main1, meta1, b);
                    assert forall|c: int| 0 <= c < n implies #[trigger] block_ok(main1, meta1, c) by {
                        assert(block_ok(main0, meta0, c));
                        if c != b {
                            assert(meta1[c] == meta0[c]);
                        } else {
                            let s1 = block_seq(main1, meta1, b);
                            assert forall|p: int| 0 <= p < s1.len() implies {
                                &&& block_of::<K>(#[trigger] s1[p]@, n) == b
                                &&& threshold_of::<K>(s1[p]@) >= meta1[b].threshold
                            } by {
                                assert(s1[p] == sq[p] || s1[p] == sq.last());
                            }
                        }
                    }
                    assert forall|v: K::V| #[trigger] self.backyard.key_set().contains(v) implies {
                        let c = block_of::<K>(v, n);
                        0 <= c < n && threshold_of::<K>(v) < meta1[c].threshold
                    } by {
                        let c = block_of::<K>(v, n);
                        if c != b {
                            assert(meta1[c] == meta0[c]);
                        }
                    }
                    assert(self.all_keys() =~= old(self).all_keys().remove(key@));
                    vstd::set_lib::lemma_len_subset(self.all_keys(), old(self).all_keys());
                    assert(self.block_thresholds() =~= old(self).block_thresholds());
                }
            },
        }
        remove_value
    }
}

impl<K: TableKey> SlickHash<K> {
    /// A Slick hash table never saturates: a key that its block cannot take
    /// goes to the backyard, which grows as needed.
    pub proof fn law_never_saturates(&self)
        ensures
            !self.saturated(),
    {
    }
}

impl<K: TableKey> SlickHash<K> {
    /// Number of slots that `capacity` reports.
    pub closed spec fn spec_capacity(&self) -> nat {
        self.main_table_size as nat
    }

    /// Number of overflow slots that `extra_space` reports.
    pub closed spec fn spec_extra_space(&self) -> nat {
        self.backyard.table.slot_count()
    }

    /// Number of keys in the backyard.
    pub closed spec fn backyard_count(&self) -> nat {
        self.backyard.key_set().len()
    }

    /// The backyard's slot count is a power of two of at least 16, at most
    /// three quarters of its slots hold keys, and one is always empty, so
    /// its probe loops end.
    pub proof fn law_backyard_load(&self)
        requires
            self.wf(),
        ensures
            is_pow2(self.spec_extra_space() as int),
            self.spec_extra_space() >= 16,
            4 * self.backyard_count() <= 3 * self.spec_extra_space(),
            self.backyard_count() < self.spec_extra_space(),
    {
        self.backyard.table.lemma_inv_is_wf();
        self.backyard.table.law_load_bound();
        self.backyard.table.law_slot_count();
    }

    /// The threshold of each block, in block order.
    pub closed spec fn block_thresholds(&self) -> Seq<int> {
        self.meta_data@.map_values(|m: SlickHashMetaData| m.threshold as int)
    }
}

impl<K: TableKey> HashTable<K> for SlickHash<K> {
    closed spec fn wf(&self) -> bool {
        self.inv()
    }

    closed spec fn keys(&self) -> Set<K::V> {
        self.all_keys()
    }

    /// Exactly the table's slot count.
    open spec fn reports_capacity(&self, c: nat) -> bool {
        c == self.spec_capacity()
    }

    /// Exactly the table's overflow slot count.
    open spec fn reports_extra_space(&self, e: nat) -> bool {
        e == self.spec_extra_space()
    }

    closed spec fn saturated(&self) -> bool {
        false
    }

    closed spec fn capacity_hint(&self) -> nat {
        self.hint@
    }



    /// Creates an empty table: a main table of the capacity hint rounded up
    /// to whole blocks of 10 slots (at least one block).
    fn new(capacity: usize) -> (t: Self)
        ensures
            t.spec_capacity() == if capacity <= 10 { 10 } else { ((capacity + 9) / 10) * 10 },
            spec_table_capacity(t.spec_capacity() as int, t.spec_extra_space() as int),
            t.block_thresholds().len() * 10 == t.spec_capacity(),
            forall|i: int| 0 <= i < t.block_thresholds().len() ==> #[trigger] t.block_thresholds()[i] == 0,
    {
        SlickHash::with_capacity(capacity)
    }

    /// Block thresholds never decrease, and stay at most 10.
    fn insert(&mut self, key: K)
        ensures
            final(self).keys() == old(self).keys().insert(key@),
            final(self).spec_capacity() == old(self).spec_capacity(),
            final(self).block_thresholds().len() == old(self).block_thresholds().len(),
            forall|i: int| 0 <= i < old(self).block_thresholds().len()
                ==> old(self).block_thresholds()[i] <= #[trigger] final(self).block_thresholds()[i] <= 10,
    {
        match self.try_insert(key) {
            Insertion::Inserted | Insertion::Occupied => {},
        }
        proof {
            self.lemma_key_split();
            assert forall|i: int| 0 <= i < old(self).block_thresholds().len()
                implies old(self).block_thresholds()[i] <= #[trigger] self.block_thresholds()[i] <= 10 by {
                assert(self.meta_data@[i].threshold <= 10);
            }
        }
    }

    fn find(&self, key: &K) -> (b: bool) {
        self.get(key)
    }

    /// Number of slots of the main table.
    fn capacity(&self) -> (c: usize)
        ensures
            c == self.spec_capacity(),
    {
        self.main_table_size
    }

    /// Number of keys in the main table and in the backyard.
    fn len(&self) -> (n: usize) {
        proof {
            self.lemma_key_split();
        }
        self.no_elements_in_main_table + self.backyard.len()
    }

    /// Number of slots of the backyard.
    fn extra_space(&self) -> (e: usize)
        ensures
            e == self.spec_extra_space(),
    {
        self.backyard.table.slot_capacity()
    }
}

} // verus!
