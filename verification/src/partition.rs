//! The partition strategies: given a non-empty list of payload-bound pairs
//! and the union bound that encloses them, decide which entries go into the
//! left and which into the right subtree.
//!
//! Two strategies exist. Heuristic binning spreads the entries over
//! equal-width bins along the split axis, accumulates a coverage-count
//! profile from each entry's entry/exit bins, splits at the bin where the
//! accumulated profile passes its median, and assigns each entry by its
//! centroid's bin. Centroid-median sorting orders the entries by their
//! centroid coordinate along the split axis and cuts the order in half; it
//! doubles as the fallback that the binning strategy engages when its
//! assignment leaves one side empty, which guarantees both sides are
//! populated whenever two or more entries come in.

use vstd::pervasive::VecAdditionalExecFns;
use vstd::prelude::*;

use mazth::bound::AxisAlignedBBox;

use crate::geom::centroid_info;
use crate::geom::centroid_info_of;
use crate::geom::span_bins;

verus! {

broadcast use
    vstd::seq_lib::group_to_multiset_ensures,
    vstd::seq_lib::lemma_multiset_commutative,
    vstd::multiset::group_multiset_axioms;

/// Maps the raw bit pattern of a coordinate to an unsigned key whose integer
/// order agrees with the coordinate's numeric order: patterns with the sign
/// bit set are wholly flipped, the rest get the sign bit set.
pub open spec fn spec_order_key(bits: u64) -> u64 {
    if bits >= 0x8000_0000_0000_0000 {
        !bits
    } else {
        bits | 0x8000_0000_0000_0000
    }
}

fn order_key(bits: u64) -> (r: u64)
    ensures
        r == spec_order_key(bits),
{
    if bits >= 0x8000_0000_0000_0000 {
        !bits
    } else {
        bits | 0x8000_0000_0000_0000
    }
}

/// The centroid's bin index of an entry's bound, under an enclosing bound
/// `u` divided into `nbins` bins.
pub open spec fn cbin_of<T>(e: (T, AxisAlignedBBox), u: AxisAlignedBBox, nbins: u32) -> usize {
    centroid_info_of(e.1, u, nbins).0
}

/// The sort key of an entry's bound: its centroid coordinate along the
/// split axis of `u`, as an order-preserving integer.
pub open spec fn ckey_of<T>(e: (T, AxisAlignedBBox), u: AxisAlignedBBox, nbins: u32) -> u64 {
    spec_order_key(centroid_info_of(e.1, u, nbins).1)
}

/// All entries of `s` project to one and the same centroid bin.
pub open spec fn all_cbins_equal<T>(
    s: Seq<(T, AxisAlignedBBox)>,
    u: AxisAlignedBBox,
    nbins: u32,
) -> bool {
    forall|i: int, j: int|
        0 <= i < s.len() && 0 <= j < s.len() ==> cbin_of(s[i], u, nbins) == cbin_of(s[j], u, nbins)
}

/// The two sides are separated by a single split bin: every left entry's
/// centroid bin is at most `s`, every right entry's is above it.
pub open spec fn split_by_bin<T>(
    l: Seq<(T, AxisAlignedBBox)>,
    r: Seq<(T, AxisAlignedBBox)>,
    u: AxisAlignedBBox,
    nbins: u32,
    s: usize,
) -> bool {
    &&& forall|i: int| 0 <= i < l.len() ==> cbin_of(#[trigger] l[i], u, nbins) <= s
    &&& forall|i: int| 0 <= i < r.len() ==> cbin_of(#[trigger] r[i], u, nbins) > s
}

/// Every left entry's centroid key is at most every right entry's: the two
/// sides are the lower and upper half of the centroid order.
pub open spec fn ordered_by_centroid<T>(
    l: Seq<(T, AxisAlignedBBox)>,
    r: Seq<(T, AxisAlignedBBox)>,
    u: AxisAlignedBBox,
    nbins: u32,
) -> bool {
    forall|i: int, j: int|
        0 <= i < l.len() && 0 <= j < r.len() ==> ckey_of(#[trigger] l[i], u, nbins) <= ckey_of(
            #[trigger] r[j],
            u,
            nbins,
        )
}

/// One entry awaiting placement, keyed for sorting: the centroid key, the
/// entry's original position as a tiebreak, and the payload-bound pair.
struct Keyed<T> {
    key: u64,
    tie: usize,
    entry: (T, AxisAlignedBBox),
}

spec fn keyed_le<T>(a: Keyed<T>, b: Keyed<T>) -> bool {
    a.key < b.key || (a.key == b.key && a.tie <= b.tie)
}

spec fn entries_of<T>(s: Seq<Keyed<T>>) -> Seq<(T, AxisAlignedBBox)> {
    s.map_values(|k: Keyed<T>| k.entry)
}

fn keyed_le_exec<T>(a: &Keyed<T>, b: &Keyed<T>) -> (r: bool)
    ensures
        r == keyed_le(*a, *b),
{
    a.key < b.key || (a.key == b.key && a.tie <= b.tie)
}

/// Mapping a function over two sequences with the same multiset of elements
/// yields two sequences with the same multiset of images.
pub(crate) proof fn lemma_map_values_to_multiset<A, B>(s1: Seq<A>, s2: Seq<A>, f: spec_fn(A) -> B)
    requires
        s1.to_multiset() == s2.to_multiset(),
    ensures
        s1.map_values(f).to_multiset() == s2.map_values(f).to_multiset(),
    decreases s1.len(),
{
    if s1.len() == 0 {
        assert(s1.to_multiset().len() == 0);
        assert(s2.to_multiset().len() == 0);
        assert(s2.len() == 0);
        assert(s1.map_values(f) =~= s2.map_values(f));
    } else {
        let a = s1[0];
        assert(s1.contains(a));
        assert(s2.to_multiset().count(a) > 0);
        assert(s2.contains(a));
        let j = choose|j: int| 0 <= j < s2.len() && s2[j] == a;
        let s1r = s1.remove(0);
        let s2r = s2.remove(j);
        assert(s1r.to_multiset() == s1.to_multiset().remove(a));
        assert(s2r.to_multiset() == s2.to_multiset().remove(a));
        lemma_map_values_to_multiset(s1r, s2r, f);
        let m1 = s1.map_values(f);
        let m2 = s2.map_values(f);
        assert(s1r.map_values(f) =~= m1.remove(0));
        assert(s2r.map_values(f) =~= m2.remove(j));
        assert(m1[0] == f(a));
        assert(m2[j] == f(a));
        assert(m1.remove(0).to_multiset() == m1.to_multiset().remove(f(a)));
        assert(m2.remove(j).to_multiset() == m2.to_multiset().remove(f(a)));
        assert(m1.contains(f(a)));
        assert(m2.contains(f(a)));
        assert(m1.to_multiset().count(f(a)) > 0);
        assert(m2.to_multiset().count(f(a)) > 0);
        assert(m1.to_multiset() =~= m2.to_multiset()) by {
            assert forall|x: B| true implies m1.to_multiset().count(x) == m2.to_multiset().count(
                x,
            ) by {
                assert(m1.to_multiset().remove(f(a)).count(x) == m2.to_multiset().remove(
                    f(a),
                ).count(x));
            }
        }
    }
}

/// A stable insertion sort over the keyed entries: the result is ordered by
/// key with the original position breaking ties, and holds the same
/// entries.
fn sort_keyed<T>(v: &mut Vec<Keyed<T>>)
    ensures
        final(v)@.len() == old(v)@.len(),
        final(v)@.to_multiset() == old(v)@.to_multiset(),
        forall|i: int, j: int| 0 <= i < j < final(v)@.len() ==> keyed_le(
            #[trigger] final(v)@[i],
            #[trigger] final(v)@[j],
        ),
{
    if v.len() <= 1 {
        return ;
    }
    let mut i: usize = 1;
    while i < v.len()
        invariant
            1 <= i <= v@.len(),
            v@.len() == old(v)@.len(),
            v@.to_multiset() == old(v)@.to_multiset(),
            forall|k: int, l: int| 0 <= k < l < i ==> keyed_le(#[trigger] v@[k], #[trigger] v@[l]),
        decreases v@.len() - i,
    {
        let ghost before = v@;
        let x = v.remove(i);
        let ghost v1 = v@;
        assert(v1 == before.remove(i as int));
        let mut j: usize = 0;
        while j < i && keyed_le_exec(&v[j], &x)
            invariant
                0 <= j <= i,
                i < v1.len() + 1,
                v@ == v1,
                forall|k: int| 0 <= k < j ==> keyed_le(#[trigger] v1[k], x),
            decreases i - j,
        {
            j += 1;
        }
        assert(j < i ==> !keyed_le(v1[j as int], x));
        v.insert(j, x);
        proof {
            assert(v@ == v1.insert(j as int, x));
            assert(v@.to_multiset() == v1.to_multiset().insert(x));
            assert(v1.to_multiset() == before.to_multiset().remove(before[i as int]));
            assert(before.contains(before[i as int]));
            assert(before.to_multiset().count(x) > 0);
            assert(v@.to_multiset() =~= before.to_multiset());
            // the prefix of length i + 1 is sorted again
            assert forall|k: int, l: int| 0 <= k < l < i + 1 implies keyed_le(
                #[trigger] v@[k],
                #[trigger] v@[l],
            ) by {
                if l < j {
                    assert(v@[k] == v1[k] && v@[l] == v1[l]);
                } else if l == j {
                    assert(v@[l] == x && v@[k] == v1[k]);
                } else {
                    // l > j: v@[l] == v1[l - 1]
                    assert(v@[l] == v1[l - 1]);
                    assert(!keyed_le(v1[j as int], x));
                    if k < j {
                        assert(v@[k] == v1[k]);
                    } else if k == j {
                        assert(v@[k] == x);
                        assert(keyed_le(x, v1[j as int]));
                        assert(j <= l - 1 < i ==> keyed_le(v1[j as int], v1[l - 1]));
                    } else {
                        assert(v@[k] == v1[k - 1]);
                    }
                }
            }
        }
        i += 1;
    }
}

/// Builds the keyed list for `objs`, in input order: each entry is paired
/// with its centroid key and its original position as a tiebreak.
fn key_entries<T>(objs: Vec<(T, AxisAlignedBBox)>, u: &AxisAlignedBBox, nbins: u32) -> (r: Vec<
    Keyed<T>,
>)
    ensures
        entries_of(r@) == objs@,
        forall|i: int| 0 <= i < r@.len() ==> (#[trigger] r@[i]).key == ckey_of(
            r@[i].entry,
            *u,
            nbins,
        ),
{
    let ghost orig = objs@;
    let mut objs = objs;
    let mut items: Vec<Keyed<T>> = Vec::new();
    while objs.len() > 0
        invariant
            objs@ == orig.skip(items@.len() as int),
            items@.len() + objs@.len() == orig.len(),
            forall|k: int| 0 <= k < items@.len() ==> (#[trigger] items@[k]).entry == orig[k],
            forall|k: int| 0 <= k < items@.len() ==> (#[trigger] items@[k]).key == ckey_of(
                items@[k].entry,
                *u,
                nbins,
            ),
        decreases objs@.len(),
    {
        let tie = items.len();
        assert(objs@[0] == orig[tie as int]);
        let e = objs.remove(0);
        let info = centroid_info(&e.1, u, nbins);
        let key = order_key(info.1);
        items.push(Keyed { key, tie, entry: e });
        proof {
            assert(objs@ =~= orig.skip(items@.len() as int));
        }
    }
    proof {
        assert(entries_of(items@) =~= orig);
    }
    items
}

/// Splits the entries at the midpoint of their centroid order along the
/// split axis of `u`: the lower half of the order goes left, the rest
/// right, so the two sides' sizes differ by at most one and together they
/// hold exactly the input entries.
pub fn median_partition<T>(objs: Vec<(T, AxisAlignedBBox)>, u: &AxisAlignedBBox, nbins: u32) -> (r:
    (Vec<(T, AxisAlignedBBox)>, Vec<(T, AxisAlignedBBox)>))
    requires
        objs@.len() >= 2,
    ensures
        r.0@.len() == objs@.len() / 2,
        r.1@.len() == objs@.len() - objs@.len() / 2,
        r.0@.to_multiset().add(r.1@.to_multiset()) == objs@.to_multiset(),
        ordered_by_centroid(r.0@, r.1@, *u, nbins),
{
    let ghost orig = objs@;
    let mut items = key_entries(objs, u, nbins);
    let ghost pre = items@;
    sort_keyed(&mut items);
    let ghost sorted = items@;
    proof {
        assert forall|k: int| 0 <= k < sorted.len() implies (#[trigger] sorted[k]).key == ckey_of(
            sorted[k].entry,
            *u,
            nbins,
        ) by {
            assert(sorted.contains(sorted[k]));
            assert(sorted.to_multiset().count(sorted[k]) > 0);
            assert(pre.to_multiset().count(sorted[k]) > 0);
            assert(pre.contains(sorted[k]));
            let m = choose|m: int| 0 <= m < pre.len() && pre[m] == sorted[k];
            assert(pre[m].key == ckey_of(pre[m].entry, *u, nbins));
        }
        lemma_map_values_to_multiset(sorted, pre, |k: Keyed<T>| k.entry);
    }
    let half = items.len() / 2;
    let mut left: Vec<(T, AxisAlignedBBox)> = Vec::new();
    let mut right: Vec<(T, AxisAlignedBBox)> = Vec::new();
    while left.len() < half
        invariant
            half == sorted.len() / 2,
            sorted.len() == orig.len(),
            left@.len() <= half,
            items@ == sorted.skip(left@.len() as int),
            left@ == entries_of(sorted.take(left@.len() as int)),
        decreases half - left@.len(),
    {
        assert(items@[0] == sorted[left@.len() as int]);
        let k = items.remove(0);
        left.push(k.entry);
        proof {
            assert(items@ =~= sorted.skip(left@.len() as int));
            assert(left@ =~= entries_of(sorted.take(left@.len() as int)));
        }
    }
    while items.len() > 0
        invariant
            half == sorted.len() / 2,
            sorted.len() == orig.len(),
            left@.len() == half,
            left@ == entries_of(sorted.take(half as int)),
            half + right@.len() <= sorted.len(),
            items@ == sorted.skip(half + right@.len()),
            right@ == entries_of(sorted.subrange(half as int, half + right@.len())),
        decreases items@.len(),
    {
        assert(items@[0] == sorted[half + right@.len()]);
        let k = items.remove(0);
        right.push(k.entry);
        proof {
            assert(items@ =~= sorted.skip(half + right@.len()));
            assert(right@ =~= entries_of(sorted.subrange(half as int, half + right@.len())));
        }
    }
    proof {
        assert(right@.len() == sorted.len() - half);
        assert(left@ + right@ =~= entries_of(sorted));
        assert((left@ + right@).to_multiset() == left@.to_multiset().add(right@.to_multiset()));
        assert(entries_of(sorted).to_multiset() == entries_of(pre).to_multiset());
        assert(entries_of(pre) == orig);
        assert forall|i: int, j: int| 0 <= i < left@.len() && 0 <= j < right@.len() implies ckey_of(
            #[trigger] left@[i],
            *u,
            nbins,
        ) <= ckey_of(#[trigger] right@[j], *u, nbins) by {
            assert(left@[i] == sorted[i].entry);
            assert(right@[j] == sorted[half + j].entry);
            assert(keyed_le(sorted[i], sorted[half + j]));
            assert(sorted[i].key == ckey_of(sorted[i].entry, *u, nbins));
            assert(sorted[half + j].key == ckey_of(sorted[half + j].entry, *u, nbins));
        }
    }
    (left, right)
}

/// The binning strategy. The split axis of `u` is divided into `nbins`
/// equal-width bins; every entry adds one to the bin its bound enters and
/// takes one from the bin it exits, and a running prefix sum turns that
/// delta profile into a per-bin coverage count. The split bin is the first
/// bin where the accumulated coverage passes half the profile's total, and
/// every entry goes left exactly when its centroid's bin is at or below the
/// split bin. If that assignment leaves one side empty while the other
/// holds two or more entries, the assignment is discarded and the
/// centroid-median split takes over, so both sides always end up populated.
pub fn heuristic_partition<T>(objs: Vec<(T, AxisAlignedBBox)>, u: &AxisAlignedBBox, nbins: u32) -> (r:
    (Vec<(T, AxisAlignedBBox)>, Vec<(T, AxisAlignedBBox)>))
    requires
        objs@.len() >= 2,
        nbins >= 1,
    ensures
        r.0@.len() + r.1@.len() == objs@.len(),
        r.0@.len() >= 1,
        r.1@.len() >= 1,
        r.0@.to_multiset().add(r.1@.to_multiset()) == objs@.to_multiset(),
        (exists|s: usize| split_by_bin(r.0@, r.1@, *u, nbins, s)) || (r.0@.len() == objs@.len() / 2
            && ordered_by_centroid(r.0@, r.1@, *u, nbins)),
        all_cbins_equal(objs@, *u, nbins) ==> r.0@.len() == objs@.len() / 2 && r.1@.len()
            == objs@.len() - objs@.len() / 2,
{
    let ghost orig = objs@;
    let nb = nbins as usize;
    let mut profile: Vec<i64> = Vec::new();
    while profile.len() < nb
        invariant
            profile@.len() <= nb,
        decreases nb - profile@.len(),
    {
        profile.push(0i64);
    }
    // delta pass: +1 at each entry bin, -1 at each exit bin, out-of-range
    // projections landing in the last bin; record each centroid's bin
    let mut cbins: Vec<usize> = Vec::new();
    let mut idx: usize = 0;
    while idx < objs.len()
        invariant
            profile@.len() == nb,
            nb == nbins as usize,
            nbins >= 1,
            objs@ == orig,
            idx <= orig.len(),
            cbins@.len() == idx,
            forall|k: int| 0 <= k < idx ==> #[trigger] cbins@[k] == cbin_of(orig[k], *u, nbins),
        decreases orig.len() - idx,
    {
        let (e_bin, x_bin) = span_bins(&objs[idx].1, u, nbins);
        let e2 = if e_bin >= nb { nb - 1 } else { e_bin };
        let x2 = if x_bin >= nb { nb - 1 } else { x_bin };
        profile.set(e2, profile[e2].wrapping_add(1i64));
        profile.set(x2, profile[x2].wrapping_sub(1i64));
        let info = centroid_info(&objs[idx].1, u, nbins);
        cbins.push(info.0);
        idx += 1;
    }
    // prefix sum: per-bin coverage counts
    let mut j: usize = 1;
    while j < nb
        invariant
            profile@.len() == nb,
            1 <= j,
        decreases nb - j,
    {
        let acc = profile[j].wrapping_add(profile[j - 1]);
        profile.set(j, acc);
        j += 1;
    }
    let mut sum: i64 = 0;
    let mut j2: usize = 0;
    while j2 < nb
        invariant
            profile@.len() == nb,
        decreases nb - j2,
    {
        sum = sum.wrapping_add(profile[j2]);
        j2 += 1;
    }
    let median = sum / 2;
    // the first bin where the accumulated coverage passes the median
    let mut split: usize = 0;
    let mut found = false;
    let mut accum: i64 = 0;
    let mut j3: usize = 0;
    while j3 < nb
        invariant
            profile@.len() == nb,
        decreases nb - j3,
    {
        accum = accum.wrapping_add(profile[j3]);
        if !found && accum > median {
            split = j3;
            found = true;
        }
        j3 += 1;
    }
    // assign every entry by its centroid's bin
    let total = objs.len();
    assert(orig.len() == total);
    let mut objs = objs;
    let mut left: Vec<(T, AxisAlignedBBox)> = Vec::new();
    let mut right: Vec<(T, AxisAlignedBBox)> = Vec::new();
    let mut k: usize = 0;
    while objs.len() > 0
        invariant
            cbins@.len() == orig.len(),
            forall|i: int| 0 <= i < orig.len() ==> #[trigger] cbins@[i] == cbin_of(
                orig[i],
                *u,
                nbins,
            ),
            k == left@.len() + right@.len(),
            k <= orig.len(),
            orig.len() == total,
            objs@ == orig.skip(k as int),
            left@.to_multiset().add(right@.to_multiset()) == orig.take(k as int).to_multiset(),
            forall|i: int| 0 <= i < left@.len() ==> cbin_of(#[trigger] left@[i], *u, nbins)
                <= split,
            forall|i: int| 0 <= i < right@.len() ==> cbin_of(#[trigger] right@[i], *u, nbins)
                > split,
            all_cbins_equal(orig, *u, nbins) ==> (if cbin_of(orig[0], *u, nbins) <= split {
                right@.len() == 0
            } else {
                left@.len() == 0
            }),
        decreases objs@.len(),
    {
        assert(objs@[0] == orig[k as int]);
        let e = objs.remove(0);
        proof {
            if all_cbins_equal(orig, *u, nbins) {
                assert(cbin_of(orig[k as int], *u, nbins) == cbin_of(orig[0], *u, nbins));
            }
            assert(orig.take(k + 1) =~= orig.take(k as int).push(orig[k as int]));
        }
        if cbins[k] <= split {
            left.push(e);
        } else {
            right.push(e);
        }
        k += 1;
        proof {
            assert(objs@ =~= orig.skip(k as int));
        }
    }
    proof {
        assert(orig.take(orig.len() as int) =~= orig);
    }
    // degenerate assignment: one side empty while the other holds everything
    if (left.len() >= 2 && right.len() == 0) || (left.len() == 0 && right.len() >= 2) {
        let all = if left.len() == 0 {
            right
        } else {
            left
        };
        proof {
            assert(all@.to_multiset() =~= orig.to_multiset());
            assert(all@.to_multiset().len() == orig.to_multiset().len());
        }
        let (l2, r2) = median_partition(all, u, nbins);
        return (l2, r2);
    }
    proof {
        if left@.len() == 0 || right@.len() == 0 {
            assert(left@.len() + right@.len() == orig.len());
            assert(false);
        }
        if all_cbins_equal(orig, *u, nbins) {
            assert(left@.len() == 0 || right@.len() == 0);
            assert(false);
        }
        assert(split_by_bin(left@, right@, *u, nbins, split));
        assert(exists|s: usize| split_by_bin(left@, right@, *u, nbins, s));
    }
    (left, right)
}

} // verus!
