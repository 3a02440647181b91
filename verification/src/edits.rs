//! Pending edits and their application: sorting by start offset,
//! overlap detection, and the single-pass rewrite.
//!
//! Edits are applied from the highest start offset to the lowest, so the
//! offsets of the edits not yet applied stay valid while the document's
//! length changes under them.

use vstd::prelude::*;

verus! {

use crate::errors::{ErrorKind, RegopError};

/// The mathematical content of one pending edit: start offset, end
/// offset, replacement bytes.
pub type EditModel = (int, int, Seq<u8>);

/// Represents a single text edit operation: the half-open byte range to
/// replace and the replacement bytes.
#[derive(Debug)]
pub struct Edit {
    /// Start position of the bytes to replace.
    pub start: usize,
    /// End position of the bytes to replace.
    pub end: usize,
    /// The new bytes to insert.
    pub new: Vec<u8>,
}

impl Edit {
    /// The edit's mathematical content.
    pub open spec fn model(self) -> EditModel {
        (self.start as int, self.end as int, self.new@)
    }

    /// The range is well-formed.
    pub open spec fn wf(self) -> bool {
        self.start <= self.end
    }
}

/// The models of a sequence of edits.
pub open spec fn models_of(es: Seq<Edit>) -> Seq<EditModel> {
    es.map_values(|e: Edit| e.model())
}

/// Stable insertion of `e` into `es`: after every element whose start
/// offset does not exceed `e`'s.
pub open spec fn insert_sorted(e: EditModel, es: Seq<EditModel>) -> Seq<EditModel>
    decreases es.len(),
{
    if es.len() == 0 {
        seq![e]
    } else if es.last().0 <= e.0 {
        es.push(e)
    } else {
        insert_sorted(e, es.drop_last()).push(es.last())
    }
}

/// Stable sort of edits by start offset.
pub open spec fn sort_edits(es: Seq<EditModel>) -> Seq<EditModel>
    decreases es.len(),
{
    if es.len() == 0 {
        Seq::empty()
    } else {
        insert_sorted(es.last(), sort_edits(es.drop_last()))
    }
}

/// Non-decreasing start offsets.
pub open spec fn sorted_by_start(es: Seq<EditModel>) -> bool {
    forall|i: int, j: int| 0 <= i < j < es.len() ==> (#[trigger] es[i]).0 <= (#[trigger] es[j]).0
}

/// Some pair of consecutive edits has no defined distance: they touch a
/// shared character.
pub open spec fn has_adjacent_overlap(es: Seq<EditModel>) -> bool {
    exists|i: int|
        0 <= i && i + 1 < es.len() && crate::spec_distance(
            (#[trigger] es[i]).0,
            es[i].1,
            es[i + 1].0,
            es[i + 1].1,
        ) is None
}

/// `doc` with one edit applied; offsets beyond the document clamp to its
/// end, so the operation is total.
pub open spec fn splice_one(doc: Seq<u8>, e: EditModel) -> Seq<u8> {
    let s = if 0 <= e.0 <= doc.len() {
        e.0
    } else {
        doc.len() as int
    };
    let t = if e.1 <= s {
        s
    } else if e.1 <= doc.len() {
        e.1
    } else {
        doc.len() as int
    };
    doc.subrange(0, s) + e.2 + doc.subrange(t, doc.len() as int)
}

/// `doc` with all of `es` applied, from the highest start offset down;
/// `es` is expected in ascending start order.
pub open spec fn splice_all(doc: Seq<u8>, es: Seq<EditModel>) -> Seq<u8>
    decreases es.len(),
{
    if es.len() == 0 {
        doc
    } else {
        splice_all(splice_one(doc, es.last()), es.drop_last())
    }
}

/// Where a stable insertion lands: just before the first element whose
/// start offset exceeds the inserted edit's.
pub proof fn lemma_insert_sorted_at(e: EditModel, es: Seq<EditModel>, p: int)
    requires
        sorted_by_start(es),
        0 <= p <= es.len(),
        p > 0 ==> es[p - 1].0 <= e.0,
        forall|j: int| p <= j < es.len() ==> (#[trigger] es[j]).0 > e.0,
    ensures
        insert_sorted(e, es) == es.take(p) + seq![e] + es.skip(p),
    decreases es.len(),
{
    if es.len() == 0 {
        assert(insert_sorted(e, es) =~= es.take(p) + seq![e] + es.skip(p));
    } else if es.last().0 <= e.0 {
        assert(p == es.len());
        assert(es.take(p) =~= es);
        assert(insert_sorted(e, es) =~= es.take(p) + seq![e] + es.skip(p));
    } else {
        assert(p < es.len());
        let dl = es.drop_last();
        assert(sorted_by_start(dl));
        assert(p > 0 ==> dl[p - 1].0 <= e.0);
        lemma_insert_sorted_at(e, dl, p);
        assert(dl.take(p) =~= es.take(p));
        assert((dl.take(p) + seq![e] + dl.skip(p)).push(es.last()) =~= es.take(p) + seq![e]
            + es.skip(p));
    }
}

/// Inserting keeps the order sorted.
pub proof fn lemma_insert_sorted_sorted(e: EditModel, es: Seq<EditModel>, p: int)
    requires
        sorted_by_start(es),
        0 <= p <= es.len(),
        p > 0 ==> es[p - 1].0 <= e.0,
        forall|j: int| p <= j < es.len() ==> (#[trigger] es[j]).0 > e.0,
    ensures
        sorted_by_start(insert_sorted(e, es)),
{
    lemma_insert_sorted_at(e, es, p);
    let r = es.take(p) + seq![e] + es.skip(p);
    assert forall|i: int, j: int| 0 <= i < j < r.len() implies (#[trigger] r[i]).0 <= (
    #[trigger] r[j]).0 by {
        if i < p {
            assert(r[i] == es[i]);
        } else if i == p {
            assert(r[i] == e);
        } else {
            assert(r[i] == es[i - 1]);
        }
        if j < p {
            assert(r[j] == es[j]);
        } else if j == p {
            assert(r[j] == e);
        } else {
            assert(r[j] == es[j - 1]);
        }
        if i < p && p < j {
            assert(es[i].0 <= es[j - 1].0);
        }
    }
}

/// What insertion holds: one new element, the rest from `es`.
pub proof fn lemma_insert_sorted_members(e: EditModel, es: Seq<EditModel>)
    ensures
        insert_sorted(e, es).len() == es.len() + 1,
        forall|i: int|
            0 <= i < insert_sorted(e, es).len() ==> ((#[trigger] insert_sorted(e, es)[i]) == e
                || es.contains(insert_sorted(e, es)[i])),
    decreases es.len(),
{
    if es.len() > 0 && es.last().0 > e.0 {
        lemma_insert_sorted_members(e, es.drop_last());
        assert(forall|i: int|
            0 <= i < es.drop_last().len() ==> es.contains(#[trigger] es.drop_last()[i]));
        assert(es.contains(es.last()));
    }
}

/// Sorting preserves length.
pub proof fn lemma_sort_edits_len(es: Seq<EditModel>)
    ensures
        sort_edits(es).len() == es.len(),
    decreases es.len(),
{
    if es.len() > 0 {
        lemma_sort_edits_len(es.drop_last());
        lemma_insert_sorted_members(es.last(), sort_edits(es.drop_last()));
    }
}

proof fn lemma_insert_sorted_keeps_sorted(e: EditModel, es: Seq<EditModel>)
    requires
        sorted_by_start(es),
    ensures
        sorted_by_start(insert_sorted(e, es)),
    decreases es.len(),
{
    if es.len() == 0 {
    } else if es.last().0 <= e.0 {
        let r = es.push(e);
        assert forall|i: int, j: int| 0 <= i < j < r.len() implies (#[trigger] r[i]).0 <= (
        #[trigger] r[j]).0 by {
            if j < es.len() {
                assert(r[i] == es[i] && r[j] == es[j]);
            } else {
                assert(r[j] == e);
                if i < es.len() {
                    assert(r[i] == es[i]);
                    if i < es.len() - 1 {
                        assert(es[i].0 <= es[es.len() - 1].0);
                    }
                }
            }
        }
    } else {
        let dl = es.drop_last();
        lemma_insert_sorted_keeps_sorted(e, dl);
        lemma_insert_sorted_members(e, dl);
        let inner = insert_sorted(e, dl);
        let r = inner.push(es.last());
        assert forall|i: int| 0 <= i < inner.len() implies (#[trigger] inner[i]).0 <= es.last().0
            by {
            if inner[i] == e {
            } else {
                assert(dl.contains(inner[i]));
                let w = choose|w: int| 0 <= w < dl.len() && dl[w] == inner[i];
                assert(es[w] == dl[w]);
                assert(es[w].0 <= es[es.len() - 1].0);
            }
        }
        assert forall|i: int, j: int| 0 <= i < j < r.len() implies (#[trigger] r[i]).0 <= (
        #[trigger] r[j]).0 by {
            if j < inner.len() {
                assert(r[i] == inner[i] && r[j] == inner[j]);
            } else {
                assert(r[j] == es.last());
                assert(r[i] == inner[i]);
            }
        }
    }
}

/// Sorting orders the edits by start offset.
pub proof fn lemma_sort_edits_sorted(es: Seq<EditModel>)
    ensures
        sorted_by_start(sort_edits(es)),
    decreases es.len(),
{
    if es.len() > 0 {
        lemma_sort_edits_sorted(es.drop_last());
        lemma_insert_sorted_keeps_sorted(es.last(), sort_edits(es.drop_last()));
    }
}

/// Sorting keeps exactly the same edits.
pub proof fn lemma_sort_edits_multiset(es: Seq<EditModel>)
    ensures
        sort_edits(es).to_multiset() == es.to_multiset(),
    decreases es.len(),
{
    if es.len() > 0 {
        let dl = es.drop_last();
        let last = es.last();
        lemma_sort_edits_multiset(dl);
        lemma_insert_sorted_multiset(last, sort_edits(dl));
        dl.to_multiset_ensures();
        assert(sort_edits(es) == insert_sorted(last, sort_edits(dl)));
        assert(sort_edits(es).to_multiset() == sort_edits(dl).to_multiset().insert(last));
        assert(sort_edits(es).to_multiset() == dl.to_multiset().insert(last));
        assert(dl.push(last).to_multiset() =~= dl.to_multiset().insert(last));
        assert(dl.to_multiset().insert(last) == dl.push(last).to_multiset());
        assert(dl.push(last) =~= es);
        assert(dl.push(last).to_multiset() == es.to_multiset());
        assert(sort_edits(es).to_multiset() == es.to_multiset());
    } else {
        assert(sort_edits(es) == Seq::<EditModel>::empty());
        assert(es =~= Seq::<EditModel>::empty());
    }
}

proof fn lemma_insert_sorted_multiset(e: EditModel, es: Seq<EditModel>)
    ensures
        insert_sorted(e, es).to_multiset() == es.to_multiset().insert(e),
    decreases es.len(),
{
    if es.len() == 0 {
        assert(es =~= Seq::<EditModel>::empty());
        assert(insert_sorted(e, es) =~= es.push(e));
        es.to_multiset_ensures();
        assert(es.push(e).to_multiset() =~= es.to_multiset().insert(e));
    } else if es.last().0 <= e.0 {
        es.to_multiset_ensures();
        assert(es.push(e).to_multiset() =~= es.to_multiset().insert(e));
    } else {
        let dl = es.drop_last();
        let last = es.last();
        lemma_insert_sorted_multiset(e, dl);
        let inner = insert_sorted(e, dl);
        inner.to_multiset_ensures();
        assert(inner.push(last).to_multiset() =~= inner.to_multiset().insert(last));
        dl.to_multiset_ensures();
        assert(dl.push(last).to_multiset() =~= dl.to_multiset().insert(last));
        assert(dl.push(last) =~= es);
        assert(dl.to_multiset().insert(e).insert(last) =~= dl.to_multiset().insert(last).insert(
            e,
        ));
        assert(insert_sorted(e, es).to_multiset() =~= es.to_multiset().insert(e));
    }
}

/// Two distinct positions holding the given pair of edits survive any
/// reordering that keeps the same edits.
pub proof fn lemma_pair_survives_permutation(src: Seq<EditModel>, dst: Seq<EditModel>, i: int, j: int)
    requires
        src.to_multiset() == dst.to_multiset(),
        0 <= i < j < src.len(),
    ensures
        exists|p: int, q: int|
            0 <= p < dst.len() && 0 <= q < dst.len() && p != q && #[trigger] dst[p] == src[i]
                && #[trigger] dst[q] == src[j],
{
    let x = src[i];
    let y = src[j];
    src.to_multiset_ensures();
    dst.to_multiset_ensures();
    assert(src.contains(x)) by {
        assert(src[i] == x);
    }
    assert(src.contains(y)) by {
        assert(src[j] == y);
    }
    assert(src.to_multiset().count(x) > 0);
    assert(src.to_multiset().count(y) > 0);
    assert(dst.to_multiset().count(x) > 0);
    assert(dst.to_multiset().count(y) > 0);
    assert(dst.contains(x));
    assert(dst.contains(y));
    if x == y {
        let r = src.remove(i);
        assert(r[j - 1] == y) by {
            src.remove_ensures(i);
        }
        r.to_multiset_ensures();
        assert(r.contains(y)) by {
            assert(r[j - 1] == y);
        }
        assert(r.to_multiset() =~= src.to_multiset().remove(x));
        assert(src.to_multiset().count(x) >= 2) by {
            assert(r.to_multiset().count(x) > 0);
        }
        let p = choose|p: int| 0 <= p < dst.len() && dst[p] == x;
        let rd = dst.remove(p);
        rd.to_multiset_ensures();
        assert(rd.to_multiset() =~= dst.to_multiset().remove(x));
        assert(rd.to_multiset().count(x) > 0);
        assert(rd.contains(x));
        let q0 = choose|q0: int| 0 <= q0 < rd.len() && rd[q0] == x;
        dst.remove_ensures(p);
        let q = if q0 < p {
            q0
        } else {
            q0 + 1
        };
        assert(dst[q] == x);
        assert(dst[p] == src[i] && dst[q] == src[j] && p != q);
    } else {
        let p = choose|p: int| 0 <= p < dst.len() && dst[p] == x;
        let q = choose|q: int| 0 <= q < dst.len() && dst[q] == y;
        assert(dst[p] == src[i] && dst[q] == src[j] && p != q);
    }
}

/// Every edit of a reordering comes from the original list: an edit
/// property that holds of all originals holds of the reordering too.
pub proof fn lemma_permutation_keeps_nondegenerate(src: Seq<EditModel>, dst: Seq<EditModel>)
    requires
        src.to_multiset() == dst.to_multiset(),
        forall|k: int| 0 <= k < src.len() ==> (#[trigger] src[k]).0 < src[k].1,
    ensures
        forall|k: int| 0 <= k < dst.len() ==> (#[trigger] dst[k]).0 < dst[k].1,
{
    assert forall|k: int| 0 <= k < dst.len() implies (#[trigger] dst[k]).0 < dst[k].1 by {
        dst.to_multiset_ensures();
        src.to_multiset_ensures();
        assert(dst.contains(dst[k])) by {
            assert(dst[k] == dst[k]);
        }
        assert(dst.to_multiset().count(dst[k]) > 0);
        assert(src.contains(dst[k]));
        let w = choose|w: int| 0 <= w < src.len() && src[w] == dst[k];
        assert(src[w].0 < src[w].1);
    }
}

/// In a start-sorted edit list whose edits each cover at least one
/// character, any overlapping pair makes a consecutive pair overlap:
/// checking consecutive pairs catches every overlap.
pub proof fn lemma_overlap_has_adjacent(es: Seq<EditModel>, i: int, j: int)
    requires
        sorted_by_start(es),
        0 <= i < j < es.len(),
        forall|k: int| 0 <= k < es.len() ==> (#[trigger] es[k]).0 < es[k].1,
        crate::spec_distance(es[i].0, es[i].1, es[j].0, es[j].1) is None,
    ensures
        has_adjacent_overlap(es),
{
    let c = es[i + 1];
    if crate::spec_distance(es[i].0, es[i].1, c.0, c.1) is None {
        assert(has_adjacent_overlap(es)) by {
            assert(0 <= i && i + 1 < es.len());
        }
    } else {
        assert(es[i].0 <= c.0 && c.0 <= es[j].0);
        assert(c.1 <= es[i].0 ==> c.0 < c.1 <= es[i].0 && es[i].0 <= c.0);
        assert(es[i].1 <= c.0);
        assert(es[i].1 <= es[j].0);
        assert(false);
    }
}

/// Swap symmetry for one matched pair: exchanging the texts of two
/// disjoint spans, and then exchanging again at the spans as they lie
/// in the rewritten document, returns the original document byte for
/// byte.
pub proof fn lemma_swap_pair_round_trip(doc: Seq<u8>, a: (int, int), b: (int, int))
    requires
        0 <= a.0 <= a.1 <= b.0 <= b.1 <= doc.len(),
    ensures
        ({
            let ta = doc.subrange(a.0, a.1);
            let tb = doc.subrange(b.0, b.1);
            let d1 = splice_one(splice_one(doc, (b.0, b.1, ta)), (a.0, a.1, tb));
            let delta = (b.1 - b.0) - (a.1 - a.0);
            let a2 = (a.0, a.1 + delta);
            let b2 = (b.0 + delta, b.1);
            let d2 = splice_one(
                splice_one(d1, (b2.0, b2.1, d1.subrange(a2.0, a2.1))),
                (a2.0, a2.1, d1.subrange(b2.0, b2.1)),
            );
            d2 == doc
        }),
{
    let ta = doc.subrange(a.0, a.1);
    let tb = doc.subrange(b.0, b.1);
    let head = doc.subrange(0, a.0);
    let gap = doc.subrange(a.1, b.0);
    let tail = doc.subrange(b.1, doc.len() as int);
    let e1 = splice_one(doc, (b.0, b.1, ta));
    assert(e1 =~= head + ta + gap + ta + tail);
    let d1 = splice_one(e1, (a.0, a.1, tb));
    assert(e1.subrange(0, a.0) =~= head);
    assert(e1.subrange(a.1, e1.len() as int) =~= gap + ta + tail);
    assert(d1 =~= head + tb + gap + ta + tail);
    let delta = (b.1 - b.0) - (a.1 - a.0);
    let a2 = (a.0, a.1 + delta);
    let b2 = (b.0 + delta, b.1);
    assert(d1.len() == doc.len());
    assert(d1.subrange(a2.0, a2.1) =~= tb);
    assert(d1.subrange(b2.0, b2.1) =~= ta);
    let e2 = splice_one(d1, (b2.0, b2.1, d1.subrange(a2.0, a2.1)));
    assert(e2 =~= head + tb + gap + tb + tail);
    let d2 = splice_one(e2, (a2.0, a2.1, d1.subrange(b2.0, b2.1)));
    assert(e2.subrange(0, a2.0) =~= head);
    assert(e2.subrange(a2.1, e2.len() as int) =~= gap + tb + tail);
    assert(d2 =~= head + ta + gap + tb + tail);
    assert(d2 =~= doc);
}

/// Sorts `edits` by start offset, stably and in place.
fn sort_by_start(edits: &mut Vec<Edit>)
    ensures
        models_of(final(edits)@) == sort_edits(models_of(old(edits)@)),
        final(edits)@.len() == old(edits)@.len(),
        forall|i: int|
            0 <= i < final(edits)@.len() ==> old(edits)@.contains(#[trigger] final(edits)@[i]),
{
    let ghost orig = old(edits)@;
    let n = edits.len();
    let mut k: usize = 0;
    while k < n
        invariant
            0 <= k <= n,
            n == edits@.len() == orig.len(),
            edits@.skip(k as int) =~= orig.skip(k as int),
            models_of(edits@.take(k as int)) == sort_edits(models_of(orig.take(k as int))),
            sorted_by_start(models_of(edits@.take(k as int))),
            forall|i: int| 0 <= i < k ==> orig.contains(#[trigger] edits@[i]),
        decreases n - k,
    {
        let ghost pre = edits@;
        proof {
            assert(pre.skip(k as int)[0] == pre[k as int]);
            assert(orig.skip(k as int)[0] == orig[k as int]);
        }
        let e = edits.remove(k);
        let ghost rem = edits@;
        proof {
            assert(e == orig[k as int]);
            assert(orig.contains(e)) by {
                assert(orig[k as int] == e);
            }
            assert(rem =~= pre.take(k as int) + pre.skip(k as int + 1));
        }
        let ghost sortedpre = models_of(pre.take(k as int));
        let mut p: usize = k;
        while p > 0 && edits[p - 1].start > e.start
            invariant
                0 <= p <= k,
                k < n,
                edits@ == rem,
                rem.len() == n - 1,
                rem.take(k as int) == pre.take(k as int),
                forall|j: int| p <= j < k ==> (#[trigger] rem[j]).start > e.start,
            decreases p,
        {
            proof {
                assert(rem[p - 1] == rem.take(k as int)[p - 1]);
            }
            p = p - 1;
        }
        proof {
            assert(forall|j: int| 0 <= j < k ==> rem[j] == pre.take(k as int)[j]);
            assert(sortedpre.len() == k);
            assert(forall|j: int|
                p <= j < sortedpre.len() ==> (#[trigger] sortedpre[j]).0 > e.model().0) by {
                assert(forall|j: int|
                    0 <= j < k ==> (#[trigger] sortedpre[j]) == pre.take(k as int)[j].model());
            }
            if p > 0 {
                assert(sortedpre[p - 1] == pre.take(k as int)[p - 1].model());
            }
            lemma_insert_sorted_at(e.model(), sortedpre, p as int);
            lemma_insert_sorted_sorted(e.model(), sortedpre, p as int);
        }
        edits.insert(p, e);
        proof {
            assert(edits@ == rem.insert(p as int, e));
            assert(edits@.take(k + 1) =~= pre.take(k as int).take(p as int) + seq![e]
                + pre.take(k as int).skip(p as int));
            assert(edits@.skip(k + 1) =~= pre.skip(k as int + 1));
            assert(pre.skip(k as int + 1) =~= orig.skip(k as int + 1)) by {
                assert(forall|j: int|
                    0 <= j < pre.len() - k - 1 ==> #[trigger] pre.skip(k as int + 1)[j] == pre.skip(
                        k as int,
                    )[j + 1]);
                assert(forall|j: int|
                    0 <= j < orig.len() - k - 1 ==> #[trigger] orig.skip(k as int + 1)[j]
                        == orig.skip(k as int)[j + 1]);
            }
            assert(models_of(edits@.take(k + 1)) =~= sortedpre.take(p as int) + seq![e.model()]
                + sortedpre.skip(p as int));
            let ghost msnext = models_of(orig.take(k + 1));
            assert(msnext.drop_last() =~= models_of(orig.take(k as int)));
            assert(orig.take(k + 1)[k as int] == orig[k as int]);
            assert(msnext.last() == e.model());
            assert(msnext.len() == k + 1);
            assert(sort_edits(msnext) == insert_sorted(e.model(), sort_edits(msnext.drop_last())));
            assert(models_of(edits@.take(k + 1)) == sort_edits(msnext));
            assert(forall|i: int| 0 <= i < k + 1 ==> orig.contains(#[trigger] edits@[i])) by {
                assert(forall|i: int|
                    0 <= i < k ==> orig.contains(#[trigger] pre.take(k as int)[i]));
                assert(forall|i: int|
                    0 <= i < k + 1 ==> (#[trigger] edits@[i]) == (pre.take(k as int).take(p as int)
                        + seq![e] + pre.take(k as int).skip(p as int))[i]);
            }
        }
        k = k + 1;
    }
    proof {
        assert(edits@.take(n as int) =~= edits@);
        assert(orig.take(n as int) =~= orig);
    }
}

/// True when some pair of consecutive edits overlaps.
fn check_adjacent_overlap(edits: &Vec<Edit>) -> (r: bool)
    requires
        forall|i: int| 0 <= i < edits@.len() ==> (#[trigger] edits@[i]).wf(),
    ensures
        r == has_adjacent_overlap(models_of(edits@)),
{
    let n = edits.len();
    let mut i: usize = 0;
    while i + 1 < n
        invariant
            0 <= i,
            n > 0 ==> i + 1 <= n,
            n == 0 ==> i == 0,
            n == edits@.len(),
            forall|k: int| 0 <= k < edits@.len() ==> (#[trigger] edits@[k]).wf(),
            forall|k: int|
                0 <= k && k + 1 < i + 1 ==> !(crate::spec_distance(
                    (#[trigger] models_of(edits@)[k]).0,
                    models_of(edits@)[k].1,
                    models_of(edits@)[k + 1].0,
                    models_of(edits@)[k + 1].1,
                ) is None),
        decreases n - i,
    {
        let a = &edits[i];
        let b = &edits[i + 1];
        let overlap = crate::distance(a.start, a.end, b.start, b.end).is_none();
        proof {
            assert(models_of(edits@)[i as int] == edits@[i as int].model());
            assert(models_of(edits@)[i + 1] == edits@[i + 1].model());
        }
        if overlap {
            return true;
        }
        i = i + 1;
    }
    false
}

/// Replaces `doc[start..end)` with `new`, clamping offsets beyond the
/// document to its end.
fn splice_clamped(doc: &[u8], start: usize, end: usize, new: &[u8]) -> (r: Vec<u8>)
    ensures
        r@ == splice_one(doc@, (start as int, end as int, new@)),
{
    let n = doc.len();
    let s = if start <= n {
        start
    } else {
        n
    };
    let t = if end <= s {
        s
    } else if end <= n {
        end
    } else {
        n
    };
    let mut r: Vec<u8> = Vec::new();
    r.extend_from_slice(vstd::slice::slice_subrange(doc, 0, s));
    r.extend_from_slice(new);
    r.extend_from_slice(vstd::slice::slice_subrange(doc, t, n));
    proof {
        assert(r@ =~= splice_one(doc@, (start as int, end as int, new@)));
    }
    r
}

/// Sorts the pending edits, validates that no two consecutive edits
/// overlap, and applies them all to `content` from the highest start
/// offset to the lowest.  On overlap the transform fails with
/// `OverlappingEdits` and the content is left untouched.
#[verifier::rlimit(50)]
pub fn apply_edits(content: &mut Vec<u8>, edits: &mut Vec<Edit>) -> (r: Result<(), RegopError>)
    requires
        forall|i: int| 0 <= i < old(edits)@.len() ==> (#[trigger] old(edits)@[i]).wf(),
    ensures
        ({
            let sorted = sort_edits(models_of(old(edits)@));
            match r {
                Ok(()) => {
                    &&& !has_adjacent_overlap(sorted)
                    &&& final(content)@ == splice_all(old(content)@, sorted)
                    &&& final(edits)@.len() == old(edits)@.len()
                },
                Err(e) => {
                    &&& e.kind == ErrorKind::OverlappingEdits
                    &&& has_adjacent_overlap(sorted)
                    &&& final(content)@ == old(content)@
                },
            }
        }),
{
    sort_by_start(edits);
    let ghost sm = models_of(edits@);
    proof {
        assert(forall|i: int| 0 <= i < edits@.len() ==> (#[trigger] edits@[i]).wf());
    }
    if check_adjacent_overlap(edits) {
        return Err(RegopError::new(ErrorKind::OverlappingEdits, "edits overlap each other"));
    }
    let n = edits.len();
    proof {
        assert(sm.take(n as int) =~= sm);
    }
    let mut i: usize = n;
    while i > 0
        invariant
            0 <= i <= n,
            n == edits@.len(),
            models_of(edits@) == sm,
            splice_all(old(content)@, sm) == splice_all(content@, sm.take(i as int)),
        decreases i,
    {
        i = i - 1;
        let e = &edits[i];
        let newc = splice_clamped(content.as_slice(), e.start, e.end, e.new.as_slice());
        proof {
            assert(sm[i as int] == edits@[i as int].model());
            assert(sm.take(i + 1).last() == sm[i as int]);
            assert(sm.take(i + 1).drop_last() =~= sm.take(i as int));
        }
        *content = newc;
    }
    proof {
        assert(sm.take(n as int) =~= sm);
        assert(sm.take(0) =~= Seq::<EditModel>::empty());
    }
    Ok(())
}

} // verus!
