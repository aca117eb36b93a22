//! Lists of tracks as sets of identifiers: joining, subtracting, and removing
//! duplicates.

use std::collections::HashSet;
use vstd::prelude::*;
use vstd::std_specs::hash::*;
use crate::tracker::matching::{indices, lemma_mapped, CostMatrix};
use crate::tracker::single::Single;
use crate::tracker::strack::STrack;

verus! {

/// Bit pattern of the overlap 0.85 above which two tracks are duplicates.
pub const DUPLICATE_OVERLAP_BITS: u32 = 0x3f59_999a;

/// Whether a track of `s` has the identifier `id`.
pub open spec fn has_id(s: Seq<STrack>, id: u64) -> bool {
    exists|i: int| 0 <= i < s.len() && (#[trigger] s[i]).track_id == id
}

/// No two tracks of `s` share an identifier.
pub open spec fn distinct_ids(s: Seq<STrack>) -> bool {
    forall|i: int, j: int|
        0 <= i < j < s.len() ==> (#[trigger] s[i]).track_id != (#[trigger] s[j]).track_id
}

/// No track of `a` shares its identifier with one of `b`.
pub open spec fn disjoint_ids(a: Seq<STrack>, b: Seq<STrack>) -> bool {
    forall|i: int, j: int|
        0 <= i < a.len() && 0 <= j < b.len() ==> (#[trigger] a[i]).track_id != (
        #[trigger] b[j]).track_id
}

/// `a`, followed by the tracks of `b` whose identifier occurs neither in `a`
/// nor earlier in `b`.
pub open spec fn joint(a: Seq<STrack>, b: Seq<STrack>) -> Seq<STrack>
    decreases b.len(),
{
    if b.len() == 0 {
        a
    } else {
        let before = joint(a, b.drop_last());
        if has_id(before, b.last().track_id) {
            before
        } else {
            before.push(b.last())
        }
    }
}

/// A track, unless its identifier occurs in `b`.
pub open spec fn outside(b: Seq<STrack>) -> spec_fn(STrack) -> Option<STrack> {
    |t: STrack|
        if has_id(b, t.track_id) {
            None
        } else {
            Some(t)
        }
}

/// The tracks of `a` whose identifier does not occur in `b`, in order.
pub open spec fn minus(a: Seq<STrack>, b: Seq<STrack>) -> Seq<STrack> {
    a.filter_map(outside(b))
}

/// Frames between the activation of a track and its last update.
pub open spec fn age(t: STrack) -> int {
    t.frame_id - t.start_frame
}

/// Whether the tracks `a[i]` and `b[j]` overlap by more than 0.85.
pub open spec fn overlap(ious: &CostMatrix, i: int, j: int) -> bool {
    ious.at(i, j).spec_gt(Single { bits: DUPLICATE_OVERLAP_BITS })
}

/// Whether `a[i]` overlaps one of the first `n` tracks of `b` that is at
/// least as old.
pub open spec fn drops_first(
    a: Seq<STrack>,
    b: Seq<STrack>,
    ious: &CostMatrix,
    i: int,
    n: int,
) -> bool {
    exists|j: int| 0 <= j < n && #[trigger] overlap(ious, i, j) && age(a[i]) <= age(b[j])
}

/// Whether `b[j]` overlaps one of the first `m` tracks of `a` that is older.
pub open spec fn drops_second(
    a: Seq<STrack>,
    b: Seq<STrack>,
    ious: &CostMatrix,
    j: int,
    m: int,
) -> bool {
    exists|i: int| 0 <= i < m && #[trigger] overlap(ious, i, j) && age(a[i]) > age(b[j])
}

/// The track `a[i]`, unless it is dropped as a duplicate.
pub open spec fn kept_first(a: Seq<STrack>, b: Seq<STrack>, ious: &CostMatrix) -> spec_fn(
    usize,
) -> Option<STrack> {
    |i: usize|
        if drops_first(a, b, ious, i as int, b.len() as int) {
            None
        } else {
            Some(a[i as int])
        }
}

/// The track `b[j]`, unless it is dropped as a duplicate.
pub open spec fn kept_second(a: Seq<STrack>, b: Seq<STrack>, ious: &CostMatrix) -> spec_fn(
    usize,
) -> Option<STrack> {
    |j: usize|
        if drops_second(a, b, ious, j as int, a.len() as int) {
            None
        } else {
            Some(b[j as int])
        }
}

/// Both lists without duplicates: of a pair that overlaps by more than 0.85
/// the younger track is dropped, and the one of `a` where both are of one age.
pub open spec fn without_duplicates(a: Seq<STrack>, b: Seq<STrack>, ious: &CostMatrix) -> (
    Seq<STrack>,
    Seq<STrack>,
) {
    if a.len() == 0 || b.len() == 0 {
        (a, b)
    } else {
        (
            indices(a.len()).filter_map(kept_first(a, b, ious)),
            indices(b.len()).filter_map(kept_second(a, b, ious)),
        )
    }
}

/// What `joint` keeps: `a` comes first and whole; every other track is one
/// of `b`; an identifier occurs in the result exactly if it occurs in `a` or
/// in `b`; and where no identifier occurs twice in `a`, none does in the
/// result.
pub proof fn lemma_joint(a: Seq<STrack>, b: Seq<STrack>)
    ensures
        joint(a, b).len() >= a.len(),
        forall|k: int| 0 <= k < a.len() ==> #[trigger] joint(a, b)[k] == a[k],
        forall|k: int| a.len() <= k < joint(a, b).len() ==> b.contains(#[trigger] joint(a, b)[k]),
        forall|k: int, l: int|
            a.len() <= k < l < joint(a, b).len() ==> (#[trigger] joint(a, b)[k]).track_id != (
            #[trigger] joint(a, b)[l]).track_id,
        forall|k: int, l: int|
            0 <= k < a.len() <= l < joint(a, b).len() ==> (#[trigger] joint(a, b)[k]).track_id != (
            #[trigger] joint(a, b)[l]).track_id,
        forall|id: u64| #[trigger] has_id(joint(a, b), id) <==> has_id(a, id) || has_id(b, id),
        distinct_ids(a) ==> distinct_ids(joint(a, b)),
    decreases b.len(),
{
    let r = joint(a, b);
    if b.len() == 0 {
    } else {
        let before = joint(a, b.drop_last());
        lemma_joint(a, b.drop_last());
        let t = b.last();
        assert forall|k: int| a.len() <= k < r.len() implies b.contains(#[trigger] r[k]) by {
            if k < before.len() {
                assert(b.drop_last().contains(before[k]));
                let w = choose|w: int| 0 <= w < b.drop_last().len() && b.drop_last()[w] == before[k];
                assert(b[w] == r[k]);
            } else {
                assert(b[b.len() - 1] == r[k]);
            }
        }
        assert forall|id: u64| #[trigger] has_id(r, id) <==> has_id(a, id) || has_id(b, id) by {
            if has_id(r, id) {
                let w = choose|w: int| 0 <= w < r.len() && (#[trigger] r[w]).track_id == id;
                if w < before.len() {
                    assert(before[w].track_id == id);
                    assert(has_id(before, id));
                    if !has_id(a, id) {
                        let v = choose|v: int|
                            0 <= v < b.drop_last().len() && (#[trigger] b.drop_last()[v]).track_id
                                == id;
                        assert(b[v].track_id == id);
                    }
                } else {
                    assert(b[b.len() - 1].track_id == id);
                }
            }
            if has_id(a, id) {
                assert(has_id(before, id));
                let w = choose|w: int| 0 <= w < before.len() && (#[trigger] before[w]).track_id == id;
                assert(r[w].track_id == id);
            }
            if has_id(b, id) {
                let v = choose|v: int| 0 <= v < b.len() && (#[trigger] b[v]).track_id == id;
                if v < b.len() - 1 {
                    assert(b.drop_last()[v].track_id == id);
                    assert(has_id(before, id));
                    let w = choose|w: int|
                        0 <= w < before.len() && (#[trigger] before[w]).track_id == id;
                    assert(r[w].track_id == id);
                } else if has_id(before, id) {
                    let w = choose|w: int|
                        0 <= w < before.len() && (#[trigger] before[w]).track_id == id;
                    assert(r[w].track_id == id);
                } else {
                    assert(r[r.len() - 1].track_id == id);
                }
            }
        }
        if !has_id(before, t.track_id) {
            assert forall|k: int| 0 <= k < before.len() implies (#[trigger] r[k]).track_id
                != t.track_id by {
                assert(before[k].track_id != t.track_id);
            }
        }
    }
}

/// `minus(a, b)` is a part of `a`, in order, that shares no identifier with `b`.
pub proof fn lemma_minus(a: Seq<STrack>, b: Seq<STrack>)
    ensures
        minus(a, b).len() <= a.len(),
        forall|k: int| 0 <= k < minus(a, b).len() ==> a.contains(#[trigger] minus(a, b)[k]),
        disjoint_ids(minus(a, b), b),
        distinct_ids(a) ==> distinct_ids(minus(a, b)),
        forall|id: u64| !has_id(a, id) ==> !#[trigger] has_id(minus(a, b), id),
    decreases a.len(),
{
    let r = minus(a, b);
    if a.len() == 0 {
    } else {
        let before = minus(a.drop_last(), b);
        lemma_minus(a.drop_last(), b);
        let t = a.last();
        assert forall|k: int| 0 <= k < r.len() implies a.contains(#[trigger] r[k]) by {
            if k < before.len() {
                let w = choose|w: int| 0 <= w < a.drop_last().len() && a.drop_last()[w] == before[k];
                assert(a[w] == r[k]);
            } else {
                assert(a[a.len() - 1] == r[k]);
            }
        }
        assert forall|id: u64| !has_id(a, id) implies !#[trigger] has_id(r, id) by {
            if has_id(r, id) {
                let w = choose|w: int| 0 <= w < r.len() && (#[trigger] r[w]).track_id == id;
                assert(a.contains(r[w]));
                let v = choose|v: int| 0 <= v < a.len() && a[v] == r[w];
                assert(a[v].track_id == id);
            }
        }
        if distinct_ids(a) {
            assert forall|i: int, j: int| 0 <= i < j < a.drop_last().len() implies (
            #[trigger] a.drop_last()[i]).track_id != (#[trigger] a.drop_last()[j]).track_id by {
                assert(a[i].track_id != a[j].track_id);
            }
            if !has_id(b, t.track_id) {
                assert forall|k: int| 0 <= k < before.len() implies (#[trigger] r[k]).track_id
                    != t.track_id by {
                    let w = choose|w: int|
                        0 <= w < a.drop_last().len() && a.drop_last()[w] == before[k];
                    assert(a[w].track_id != a[a.len() - 1].track_id);
                }
            }
        }
    }
}

/// Joins two lists of tracks: all of `tlista`, then each track of `tlistb`
/// whose identifier has not occurred before.
pub fn joint_stracks(tlista: Vec<STrack>, tlistb: &Vec<STrack>) -> (res: Vec<STrack>)
    ensures
        res@ == joint(tlista@, tlistb@),
{
    broadcast use group_hash_axioms;

    let mut exists: HashSet<u64> = HashSet::new();
    let na: usize = tlista.len();
    let mut i: usize = 0;
    while i < na
        invariant
            i <= na,
            na == tlista@.len(),
            forall|id: u64| #[trigger] exists@.contains(id) <==> has_id(tlista@.take(i as int), id),
        decreases na - i,
    {
        let id: u64 = tlista[i].track_id;
        exists.insert(id);
        proof {
            let before = tlista@.take(i as int);
            let after = tlista@.take(i + 1);
            assert(after[i as int].track_id == id);
            assert forall|x: u64| #[trigger] exists@.contains(x) <==> has_id(after, x) by {
                if has_id(before, x) {
                    let w = choose|w: int| 0 <= w < before.len() && (#[trigger] before[w]).track_id == x;
                    assert(after[w].track_id == x);
                }
                if has_id(after, x) && x != id {
                    let w = choose|w: int| 0 <= w < after.len() && (#[trigger] after[w]).track_id == x;
                    assert(before[w].track_id == x);
                }
            }
        }
        i = i + 1;
    }
    assert(tlista@.take(na as int) =~= tlista@);
    let ghost a = tlista@;
    let mut res: Vec<STrack> = tlista;
    let nb: usize = tlistb.len();
    let mut j: usize = 0;
    assert(tlistb@.take(0) =~= Seq::<STrack>::empty());
    while j < nb
        invariant
            j <= nb,
            nb == tlistb@.len(),
            res@ == joint(a, tlistb@.take(j as int)),
            forall|id: u64| #[trigger] exists@.contains(id) <==> has_id(res@, id),
        decreases nb - j,
    {
        let t: STrack = tlistb[j];
        let ghost before = res@;
        proof {
            assert(tlistb@.take(j + 1).drop_last() =~= tlistb@.take(j as int));
            assert(tlistb@.take(j + 1).last() == t);
        }
        if !exists.contains(&t.track_id) {
            exists.insert(t.track_id);
            res.push(t);
            proof {
                assert(res@[before.len() as int].track_id == t.track_id);
                assert forall|x: u64| #[trigger] exists@.contains(x) <==> has_id(res@, x) by {
                    if has_id(before, x) {
                        let w = choose|w: int|
                            0 <= w < before.len() && (#[trigger] before[w]).track_id == x;
                        assert(res@[w].track_id == x);
                    }
                    if has_id(res@, x) && x != t.track_id {
                        let w = choose|w: int|
                            0 <= w < res@.len() && (#[trigger] res@[w]).track_id == x;
                        assert(before[w].track_id == x);
                    }
                }
            }
        }
        j = j + 1;
    }
    assert(tlistb@.take(nb as int) =~= tlistb@);
    res
}

/// The tracks of `tlista` whose identifier does not occur in `tlistb`.
pub fn sub_stracks(tlista: Vec<STrack>, tlistb: &Vec<STrack>) -> (res: Vec<STrack>)
    ensures
        res@ == minus(tlista@, tlistb@),
{
    broadcast use group_hash_axioms;

    let mut b_ids: HashSet<u64> = HashSet::new();
    let nb: usize = tlistb.len();
    let mut j: usize = 0;
    while j < nb
        invariant
            j <= nb,
            nb == tlistb@.len(),
            forall|id: u64| #[trigger] b_ids@.contains(id) <==> has_id(tlistb@.take(j as int), id),
        decreases nb - j,
    {
        let id: u64 = tlistb[j].track_id;
        b_ids.insert(id);
        proof {
            let before = tlistb@.take(j as int);
            let after = tlistb@.take(j + 1);
            assert(after[j as int].track_id == id);
            assert forall|x: u64| #[trigger] b_ids@.contains(x) <==> has_id(after, x) by {
                if has_id(before, x) {
                    let w = choose|w: int| 0 <= w < before.len() && (#[trigger] before[w]).track_id == x;
                    assert(after[w].track_id == x);
                }
                if has_id(after, x) && x != id {
                    let w = choose|w: int| 0 <= w < after.len() && (#[trigger] after[w]).track_id == x;
                    assert(before[w].track_id == x);
                }
            }
        }
        j = j + 1;
    }
    assert(tlistb@.take(nb as int) =~= tlistb@);
    let mut res: Vec<STrack> = Vec::new();
    let na: usize = tlista.len();
    let mut i: usize = 0;
    while i < na
        invariant
            i <= na,
            na == tlista@.len(),
            forall|id: u64| #[trigger] b_ids@.contains(id) <==> has_id(tlistb@, id),
            res@ == tlista@.take(i as int).filter_map(outside(tlistb@)),
        decreases na - i,
    {
        proof {
            tlista@.lemma_filter_map_take_succ(outside(tlistb@), i as int);
        }
        let t: STrack = tlista[i];
        if !b_ids.contains(&t.track_id) {
            res.push(t);
        }
        i = i + 1;
    }
    assert(tlista@.take(na as int) =~= tlista@);
    res
}

/// A copy of a list of tracks.
pub fn copy_stracks(stracks: &Vec<STrack>) -> (res: Vec<STrack>)
    ensures
        res@ == stracks@,
{
    let mut res: Vec<STrack> = Vec::new();
    let n: usize = stracks.len();
    let mut i: usize = 0;
    while i < n
        invariant
            i <= n,
            n == stracks@.len(),
            res@ == stracks@.take(i as int),
        decreases n - i,
    {
        res.push(stracks[i]);
        i = i + 1;
        assert(res@ =~= stracks@.take(i as int));
    }
    assert(stracks@.take(n as int) =~= stracks@);
    res
}

/// The tracks of `stracks` whose mark is not set.
fn unmarked(
    stracks: &Vec<STrack>,
    marks: &Vec<bool>,
    Ghost(keep): Ghost<spec_fn(usize) -> Option<STrack>>,
) -> (res: Vec<STrack>)
    requires
        marks@.len() == stracks@.len(),
        forall|i: int|
            0 <= i < stracks@.len() ==> keep(i as usize) == (if marks@[i] {
                None
            } else {
                Some(stracks@[i])
            }),
    ensures
        res@ == indices(stracks@.len()).filter_map(keep),
{
    let ghost all = indices(stracks@.len());
    let mut res: Vec<STrack> = Vec::new();
    let n: usize = stracks.len();
    let mut i: usize = 0;
    while i < n
        invariant
            i <= n,
            n == stracks@.len(),
            n == marks@.len(),
            all == indices(stracks@.len()),
            forall|k: int|
                0 <= k < stracks@.len() ==> keep(k as usize) == (if marks@[k] {
                    None
                } else {
                    Some(stracks@[k])
                }),
            res@ == all.take(i as int).filter_map(keep),
        decreases n - i,
    {
        proof {
            all.lemma_filter_map_take_succ(keep, i as int);
            assert(all[i as int] == i);
        }
        if !marks[i] {
            res.push(stracks[i]);
        }
        i = i + 1;
    }
    assert(all.take(n as int) =~= all);
    res
}

/// Removes the duplicates between two lists of tracks, given the overlap of
/// each track of the first with each track of the second: of a pair that
/// overlaps by more than 0.85 the younger track is dropped, and the one of
/// the first list where both are of one age.
pub fn remove_duplicate_stracks(
    stracksa: &Vec<STrack>,
    stracksb: &Vec<STrack>,
    ious: &CostMatrix,
) -> (res: (Vec<STrack>, Vec<STrack>))
    requires
        stracksa@.len() > 0 && stracksb@.len() > 0 ==> ious.nrows() == stracksa@.len()
            && ious.ncols() == stracksb@.len(),
        forall|i: int|
            0 <= i < stracksa@.len() ==> (#[trigger] stracksa@[i]).start_frame
                <= stracksa@[i].frame_id,
        forall|j: int|
            0 <= j < stracksb@.len() ==> (#[trigger] stracksb@[j]).start_frame
                <= stracksb@[j].frame_id,
    ensures
        (res.0@, res.1@) == without_duplicates(stracksa@, stracksb@, ious),
{
    if stracksa.len() == 0 || stracksb.len() == 0 {
        return (copy_stracks(stracksa), copy_stracks(stracksb));
    }
    let ghost a = stracksa@;
    let ghost b = stracksb@;
    let rows: usize = stracksa.len();
    let cols: usize = stracksb.len();
    let threshold = Single { bits: DUPLICATE_OVERLAP_BITS };
    let mut dupa: Vec<bool> = Vec::new();
    let mut dupb: Vec<bool> = Vec::new();
    let mut k: usize = 0;
    while k < rows
        invariant
            k <= rows,
            dupa@.len() == k,
            forall|x: int| 0 <= x < k ==> !(#[trigger] dupa@[x]),
        decreases rows - k,
    {
        dupa.push(false);
        k = k + 1;
    }
    k = 0;
    while k < cols
        invariant
            k <= cols,
            dupb@.len() == k,
            forall|x: int| 0 <= x < k ==> !(#[trigger] dupb@[x]),
        decreases cols - k,
    {
        dupb.push(false);
        k = k + 1;
    }
    let mut i: usize = 0;
    while i < rows
        invariant
            i <= rows,
            a == stracksa@,
            b == stracksb@,
            rows == a.len(),
            cols == b.len(),
            ious.nrows() == rows,
            ious.ncols() == cols,
            threshold.bits == DUPLICATE_OVERLAP_BITS,
            dupa@.len() == rows,
            dupb@.len() == cols,
            forall|x: int| 0 <= x < a.len() ==> (#[trigger] a[x]).start_frame <= a[x].frame_id,
            forall|x: int| 0 <= x < b.len() ==> (#[trigger] b[x]).start_frame <= b[x].frame_id,
            forall|x: int|
                0 <= x < i ==> (#[trigger] dupa@[x]) == drops_first(a, b, ious, x, cols as int),
            forall|x: int| i <= x < rows ==> !(#[trigger] dupa@[x]),
            forall|y: int|
                0 <= y < cols ==> (#[trigger] dupb@[y]) == drops_second(a, b, ious, y, i as int),
        decreases rows - i,
    {
        let mut j: usize = 0;
        while j < cols
            invariant
                j <= cols,
                i < rows,
                a == stracksa@,
                b == stracksb@,
                rows == a.len(),
                cols == b.len(),
                ious.nrows() == rows,
                ious.ncols() == cols,
                threshold.bits == DUPLICATE_OVERLAP_BITS,
                dupa@.len() == rows,
                dupb@.len() == cols,
                forall|x: int| 0 <= x < a.len() ==> (#[trigger] a[x]).start_frame <= a[x].frame_id,
                forall|x: int| 0 <= x < b.len() ==> (#[trigger] b[x]).start_frame <= b[x].frame_id,
                forall|x: int|
                    0 <= x < i ==> (#[trigger] dupa@[x]) == drops_first(a, b, ious, x, cols as int),
                dupa@[i as int] == drops_first(a, b, ious, i as int, j as int),
                forall|x: int| i < x < rows ==> !(#[trigger] dupa@[x]),
                forall|y: int|
                    0 <= y < j ==> (#[trigger] dupb@[y]) == drops_second(a, b, ious, y, i + 1),
                forall|y: int|
                    j <= y < cols ==> (#[trigger] dupb@[y]) == drops_second(a, b, ious, y, i as int),
            decreases cols - j,
        {
            let ghost hit = overlap(ious, i as int, j as int);
            let ghost older = age(a[i as int]) > age(b[j as int]);
            let ghost dupa_before = dupa@;
            let ghost dupb_before = dupb@;
            if ious.get(i, j).gt(threshold) {
                let time_a: u32 = stracksa[i].frame_id - stracksa[i].start_frame;
                let time_b: u32 = stracksb[j].frame_id - stracksb[j].start_frame;
                if time_a > time_b {
                    dupb.set(j, true);
                } else {
                    dupa.set(i, true);
                }
            }
            proof {
                assert(dupa@[i as int] == (dupa_before[i as int] || (hit && !older)));
                assert(dupb@[j as int] == (dupb_before[j as int] || (hit && older)));
                assert(dupa@[i as int] == drops_first(a, b, ious, i as int, j + 1)) by {
                    if drops_first(a, b, ious, i as int, j + 1) {
                        let w = choose|w: int|
                            0 <= w < j + 1 && #[trigger] overlap(ious, i as int, w) && age(
                                a[i as int],
                            ) <= age(b[w]);
                        if w < j {
                            assert(drops_first(a, b, ious, i as int, j as int));
                        }
                    }
                    if drops_first(a, b, ious, i as int, j as int) {
                        let w = choose|w: int|
                            0 <= w < j && #[trigger] overlap(ious, i as int, w) && age(a[i as int])
                                <= age(b[w]);
                        assert(0 <= w < j + 1);
                    }
                    if hit && !older {
                        assert(overlap(ious, i as int, j as int));
                    }
                }
                assert(dupb@[j as int] == drops_second(a, b, ious, j as int, i + 1)) by {
                    if drops_second(a, b, ious, j as int, i + 1) {
                        let w = choose|w: int|
                            0 <= w < i + 1 && #[trigger] overlap(ious, w, j as int) && age(a[w])
                                > age(b[j as int]);
                        if w < i {
                            assert(drops_second(a, b, ious, j as int, i as int));
                        }
                    }
                    if drops_second(a, b, ious, j as int, i as int) {
                        let w = choose|w: int|
                            0 <= w < i && #[trigger] overlap(ious, w, j as int) && age(a[w]) > age(
                                b[j as int],
                            );
                        assert(0 <= w < i + 1);
                    }
                    if hit && older {
                        assert(overlap(ious, i as int, j as int));
                    }
                }
            }
            j = j + 1;
        }
        i = i + 1;
    }
    let resa = unmarked(stracksa, &dupa, Ghost(kept_first(a, b, ious)));
    let resb = unmarked(stracksb, &dupb, Ghost(kept_second(a, b, ious)));
    (resa, resb)
}

/// `without_duplicates` only drops tracks: each list that comes out is a part
/// of the one that went in, in order.
pub proof fn lemma_without_duplicates(a: Seq<STrack>, b: Seq<STrack>, ious: &CostMatrix)
    requires
        a.len() <= usize::MAX,
        b.len() <= usize::MAX,
    ensures
        ({
            let r = without_duplicates(a, b, ious);
            &&& forall|k: int| 0 <= k < r.0.len() ==> a.contains(#[trigger] r.0[k])
            &&& forall|k: int| 0 <= k < r.1.len() ==> b.contains(#[trigger] r.1[k])
            &&& (distinct_ids(a) ==> distinct_ids(r.0))
            &&& (distinct_ids(b) ==> distinct_ids(r.1))
            &&& (disjoint_ids(a, b) ==> disjoint_ids(r.0, r.1))
        }),
{
    let r = without_duplicates(a, b, ious);
    if a.len() == 0 || b.len() == 0 {
    } else {
        lemma_picked(a, indices(a.len()), kept_first(a, b, ious));
        lemma_picked(b, indices(b.len()), kept_second(a, b, ious));
        assert forall|i: int, j: int| 0 <= i < r.0.len() && 0 <= j < r.1.len() && disjoint_ids(
            a,
            b,
        ) implies (#[trigger] r.0[i]).track_id != (#[trigger] r.1[j]).track_id by {
            let x = choose|x: int| 0 <= x < a.len() && a[x] == r.0[i];
            let y = choose|y: int| 0 <= y < b.len() && b[y] == r.1[j];
            assert(a[x].track_id != b[y].track_id);
        }
    }
}

/// Picking tracks of `s` by increasing indices, each at most once, gives a
/// part of `s` in order.
pub proof fn lemma_picked(s: Seq<STrack>, at: Seq<usize>, pick: spec_fn(usize) -> Option<STrack>)
    requires
        forall|k: int| 0 <= k < at.len() ==> (#[trigger] at[k]) < s.len(),
        forall|k: int, l: int| 0 <= k < l < at.len() ==> (#[trigger] at[k]) < (#[trigger] at[l]),
        forall|k: int|
            0 <= k < at.len() && pick(#[trigger] at[k]) is Some ==> pick(at[k])->0 == s[at[k] as int],
    ensures
        forall|k: int|
            0 <= k < at.filter_map(pick).len() ==> s.contains(#[trigger] at.filter_map(pick)[k]),
        forall|k: int|
            0 <= k < at.filter_map(pick).len() ==> exists|l: int|
                0 <= l < at.len() && pick(#[trigger] at[l]) == Some(
                    #[trigger] at.filter_map(pick)[k],
                ),
        distinct_ids(s) ==> distinct_ids(at.filter_map(pick)),
    decreases at.len(),
{
    let r = at.filter_map(pick);
    if at.len() == 0 {
    } else {
        let rest = at.drop_last();
        let before = rest.filter_map(pick);
        lemma_picked(s, rest, pick);
        assert forall|k: int| 0 <= k < r.len() implies exists|l: int|
            0 <= l < at.len() && pick(#[trigger] at[l]) == Some(#[trigger] r[k]) by {
            if k < before.len() {
                let l = choose|l: int|
                    0 <= l < rest.len() && pick(#[trigger] rest[l]) == Some(before[k]);
                assert(at[l] == rest[l]);
            } else {
                assert(pick(at[at.len() - 1]) == Some(r[k]));
            }
        }
        assert forall|k: int| 0 <= k < r.len() implies s.contains(#[trigger] r[k]) by {
            let l = choose|l: int| 0 <= l < at.len() && pick(#[trigger] at[l]) == Some(r[k]);
            assert(s[at[l] as int] == r[k]);
        }
        if distinct_ids(s) && pick(at.last()) is Some {
            assert forall|k: int| 0 <= k < before.len() implies (#[trigger] r[k]).track_id
                != r[r.len() - 1].track_id by {
                let l = choose|l: int|
                    0 <= l < rest.len() && pick(#[trigger] rest[l]) == Some(before[k]);
                assert(at[l] < at[at.len() - 1]);
                assert(s[at[l] as int].track_id != s[at[at.len() - 1] as int].track_id);
            }
        }
    }
}

/// Two lists without a repeated identifier, which share none, make one such
/// list.
pub proof fn lemma_distinct_concat(a: Seq<STrack>, b: Seq<STrack>)
    requires
        distinct_ids(a),
        distinct_ids(b),
        disjoint_ids(a, b),
    ensures
        distinct_ids(a + b),
{
}

/// Whether `f` makes of each element of `src` a track with the identifier of
/// its row `row` of `rows`, rows growing along `src`.
pub open spec fn draws<A>(
    rows: Seq<STrack>,
    src: Seq<A>,
    row: spec_fn(A) -> int,
    f: spec_fn(A) -> Option<STrack>,
) -> bool {
    &&& forall|l: int| 0 <= l < src.len() ==> 0 <= row(#[trigger] src[l]) < rows.len()
    &&& forall|l1: int, l2: int|
        0 <= l1 < l2 < src.len() ==> row(#[trigger] src[l1]) < row(#[trigger] src[l2])
    &&& forall|l: int|
        0 <= l < src.len() && f(#[trigger] src[l]) is Some ==> (f(src[l])->0).track_id
            == rows[row(src[l])].track_id
}

/// Tracks drawn from different rows of a list without a repeated identifier
/// repeat none.
pub proof fn lemma_drawn<A>(
    rows: Seq<STrack>,
    src: Seq<A>,
    row: spec_fn(A) -> int,
    f: spec_fn(A) -> Option<STrack>,
)
    requires
        distinct_ids(rows),
        draws(rows, src, row, f),
    ensures
        distinct_ids(src.filter_map(f)),
{
    let out = src.filter_map(f);
    lemma_mapped(src, f);
    assert forall|k1: int, k2: int| 0 <= k1 < k2 < out.len() implies (#[trigger] out[k1]).track_id
        != (#[trigger] out[k2]).track_id by {
        let (l1, l2) = choose|l1: int, l2: int|
            0 <= l1 < l2 < src.len() && f(#[trigger] src[l1]) == Some(out[k1]) && f(
                #[trigger] src[l2],
            ) == Some(out[k2]);
        assert(row(src[l1]) < row(src[l2]));
        assert(rows[row(src[l1])].track_id != rows[row(src[l2])].track_id);
    }
}

/// Two lists drawn from rows of one list without a repeated identifier share
/// no identifier where they share no row.
pub proof fn lemma_drawn_apart<A, B>(
    rows: Seq<STrack>,
    src1: Seq<A>,
    row1: spec_fn(A) -> int,
    f1: spec_fn(A) -> Option<STrack>,
    src2: Seq<B>,
    row2: spec_fn(B) -> int,
    f2: spec_fn(B) -> Option<STrack>,
)
    requires
        distinct_ids(rows),
        draws(rows, src1, row1, f1),
        draws(rows, src2, row2, f2),
        forall|l1: int, l2: int|
            0 <= l1 < src1.len() && 0 <= l2 < src2.len() && f1(#[trigger] src1[l1]) is Some && f2(
                #[trigger] src2[l2],
            ) is Some ==> row1(src1[l1]) != row2(src2[l2]),
    ensures
        disjoint_ids(src1.filter_map(f1), src2.filter_map(f2)),
{
    let out1 = src1.filter_map(f1);
    let out2 = src2.filter_map(f2);
    lemma_mapped(src1, f1);
    lemma_mapped(src2, f2);
    assert forall|i: int, j: int| 0 <= i < out1.len() && 0 <= j < out2.len() implies (
    #[trigger] out1[i]).track_id != (#[trigger] out2[j]).track_id by {
        let l1 = choose|l: int| 0 <= l < src1.len() && f1(#[trigger] src1[l]) == Some(out1[i]);
        let l2 = choose|l: int| 0 <= l < src2.len() && f2(#[trigger] src2[l]) == Some(out2[j]);
        let a = row1(src1[l1]);
        let b = row2(src2[l2]);
        assert(a != b);
        if a < b {
            assert(rows[a].track_id != rows[b].track_id);
        } else {
            assert(rows[b].track_id != rows[a].track_id);
        }
    }
}

/// A list drawn from rows shares no identifier with a list that shares none
/// with those rows.
pub proof fn lemma_drawn_away<A>(
    rows: Seq<STrack>,
    src: Seq<A>,
    row: spec_fn(A) -> int,
    f: spec_fn(A) -> Option<STrack>,
    other: Seq<STrack>,
)
    requires
        draws(rows, src, row, f),
        forall|l: int, j: int|
            0 <= l < src.len() && 0 <= j < other.len() && f(#[trigger] src[l]) is Some
                ==> rows[row(src[l])].track_id != (#[trigger] other[j]).track_id,
    ensures
        disjoint_ids(src.filter_map(f), other),
        disjoint_ids(other, src.filter_map(f)),
{
    let out = src.filter_map(f);
    lemma_mapped(src, f);
    assert forall|i: int, j: int| 0 <= i < out.len() && 0 <= j < other.len() implies (
    #[trigger] out[i]).track_id != (#[trigger] other[j]).track_id by {
        let l = choose|l: int| 0 <= l < src.len() && f(#[trigger] src[l]) == Some(out[i]);
        assert(rows[row(src[l])].track_id != other[j].track_id);
    }
}

/// What holds of every track that `f` makes holds of every track of the
/// result.
pub proof fn lemma_drawn_all<A>(
    src: Seq<A>,
    f: spec_fn(A) -> Option<STrack>,
    good: spec_fn(STrack) -> bool,
)
    requires
        forall|l: int| 0 <= l < src.len() && f(#[trigger] src[l]) is Some ==> good(f(src[l])->0),
    ensures
        forall|k: int| 0 <= k < src.filter_map(f).len() ==> good(#[trigger] src.filter_map(f)[k]),
{
    let out = src.filter_map(f);
    lemma_mapped(src, f);
    assert forall|k: int| 0 <= k < out.len() implies good(#[trigger] out[k]) by {
        let l = choose|l: int| 0 <= l < src.len() && f(#[trigger] src[l]) == Some(out[k]);
    }
}

/// The row of a match.
pub open spec fn row_of_match() -> spec_fn((usize, usize)) -> int {
    |m: (usize, usize)| m.0 as int
}

/// The row that an index names.
pub open spec fn row_of_index() -> spec_fn(usize) -> int {
    |i: usize| i as int
}

/// A part of a list without a repeated identifier, each track keeping its
/// identifier, repeats none, and shares none with a list that shares none
/// with the whole.
pub proof fn lemma_kept(s: Seq<STrack>, f: spec_fn(STrack) -> Option<STrack>, other: Seq<STrack>)
    requires
        distinct_ids(s),
        disjoint_ids(s, other),
        forall|l: int|
            0 <= l < s.len() && f(#[trigger] s[l]) is Some ==> (f(s[l])->0).track_id
                == s[l].track_id,
    ensures
        distinct_ids(s.filter_map(f)),
        disjoint_ids(s.filter_map(f), other),
        disjoint_ids(other, s.filter_map(f)),
{
    let out = s.filter_map(f);
    lemma_mapped(s, f);
    assert forall|k1: int, k2: int| 0 <= k1 < k2 < out.len() implies (#[trigger] out[k1]).track_id
        != (#[trigger] out[k2]).track_id by {
        let (l1, l2) = choose|l1: int, l2: int|
            0 <= l1 < l2 < s.len() && f(#[trigger] s[l1]) == Some(out[k1]) && f(#[trigger] s[l2])
                == Some(out[k2]);
        assert(s[l1].track_id != s[l2].track_id);
    }
    assert forall|i: int, j: int| 0 <= i < out.len() && 0 <= j < other.len() implies (
    #[trigger] out[i]).track_id != (#[trigger] other[j]).track_id by {
        let l = choose|l: int| 0 <= l < s.len() && f(#[trigger] s[l]) == Some(out[i]);
        assert(s[l].track_id != other[j].track_id);
    }
}

} // verus!
