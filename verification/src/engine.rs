//! The transform engine: a document in, a rewritten document or a typed
//! failure out.
//!
//! A whole-document transform resolves the referenced captures, plans
//! every operator's edits, validates that no two edits overlap, and
//! commits them as a single rewrite.  Line mode tracks each line by its
//! index, transforms it independently, and rejoins the document.

use vstd::prelude::*;

verus! {

use crate::edits::{apply_edits, has_adjacent_overlap, models_of, sort_edits, splice_all,
    EditModel};
use crate::errors::{ErrorKind, RegopError};
use crate::ops::Operator;
use crate::pattern::{all_group_spans, Capture};
use crate::plan::{collect_captures_as_values, collect_edits, collect_value_captures, plan_upto,
    has_unresolved_reference, is_value_name, lemma_referenced_names_iff, plan_edits_spec};
use crate::text::{copy_range, find_byte, find_byte_from, lemma_find_byte};

/// ASCII newline.
pub const NL: u8 = 10;

/// What one whole-document transform returns: the first failure, or
/// `None` when no edit was planned, or the document with every planned
/// edit applied.
#[verifier::opaque]
pub open spec fn regop_spec(caps: Seq<Capture>, ops: Seq<Operator>, doc: Seq<u8>) -> Result<
    Option<Seq<u8>>,
    ErrorKind,
> {
    if has_unresolved_reference(ops, caps, doc) {
        Err(ErrorKind::UnresolvedGroupReference)
    } else {
        match plan_edits_spec(ops, caps, doc) {
            Err(k) => Err(k),
            Ok(es) => {
                let sorted = sort_edits(es);
                if has_adjacent_overlap(sorted) {
                    Err(ErrorKind::OverlappingEdits)
                } else if es.len() == 0 {
                    Ok(None)
                } else {
                    Ok(Some(splice_all(doc, sorted)))
                }
            },
        }
    }
}

/// Applies regex captures and operators to one document as a single
/// unit: returns the rewritten document if any edit applied, `None` if
/// none did, and the first failure otherwise.
pub fn regop(regex: &[Capture], ops: &[Operator], content: &[u8]) -> (r: Result<
    Option<Vec<u8>>,
    RegopError,
>)
    ensures
        match r {
            Ok(Some(v)) => regop_spec(regex@, ops@, content@) == Ok::<Option<Seq<u8>>, ErrorKind>(
                Some(v@),
            ),
            Ok(None) => regop_spec(regex@, ops@, content@) == Ok::<Option<Seq<u8>>, ErrorKind>(
                None::<Seq<u8>>,
            ),
            Err(e) => regop_spec(regex@, ops@, content@) == Err::<Option<Seq<u8>>, ErrorKind>(
                e.kind,
            ),
        },
{
    proof {
        reveal(regop_spec);
    }
    let names = collect_captures_as_values(ops);
    let table = match collect_value_captures(regex, content, &names) {
        Ok(t) => t,
        Err(e) => {
            proof {
                let n = choose|n: Seq<u8>|
                    #[trigger] names.deep_view().contains(n) && all_group_spans(
                        regex@,
                        content@,
                        n,
                    ).len() == 0;
                lemma_referenced_names_iff(ops@, n);
                assert(has_unresolved_reference(ops@, regex@, content@));
            }
            return Err(e);
        },
    };
    proof {
        assert(forall|n: Seq<u8>| #[trigger] table.has_entry(n) == is_value_name(ops@, n)) by {
            assert forall|n: Seq<u8>| #[trigger]
                table.has_entry(n) == is_value_name(ops@, n) by {
                lemma_referenced_names_iff(ops@, n);
            }
        }
        assert(forall|n: Seq<u8>|
            #[trigger] is_value_name(ops@, n) ==> all_group_spans(regex@, content@, n).len()
                > 0) by {
            assert forall|n: Seq<u8>| #[trigger]
                is_value_name(ops@, n) implies all_group_spans(regex@, content@, n).len() > 0 by {
                lemma_referenced_names_iff(ops@, n);
            }
        }
        assert(!has_unresolved_reference(ops@, regex@, content@));
    }
    let mut edits = match collect_edits(ops, regex, content, &table) {
        Ok(es) => es,
        Err(e) => {
            return Err(e);
        },
    };
    let ghost planned = models_of(edits@);
    let mut out = vstd::slice::slice_to_vec(content);
    match apply_edits(&mut out, &mut edits) {
        Ok(()) => {
            if edits.is_empty() {
                proof {
                    assert(planned.len() == 0);
                }
                Ok(None)
            } else {
                Ok(Some(out))
            }
        },
        Err(e) => Err(e),
    }
}

/// The newline-delimited segments of `doc` from offset `from` on:
/// splitting at every newline, separators dropped, empty segments kept.
pub open spec fn split_from(doc: Seq<u8>, from: int) -> Seq<Seq<u8>>
    decreases doc.len() - from,
{
    if !(0 <= from <= doc.len()) {
        Seq::empty()
    } else {
        let j = find_byte(doc, from, NL);
        if !(from <= j < doc.len()) {
            seq![doc.subrange(from, doc.len() as int)]
        } else {
            seq![doc.subrange(from, j)] + split_from(doc, j + 1)
        }
    }
}

/// The newline-delimited lines of a document.
pub open spec fn split_lines(doc: Seq<u8>) -> Seq<Seq<u8>> {
    split_from(doc, 0)
}

/// The lines rejoined with newlines: the inverse of splitting.
pub open spec fn join_lines(lines: Seq<Seq<u8>>) -> Seq<u8>
    decreases lines.len(),
{
    if lines.len() == 0 {
        Seq::empty()
    } else if lines.len() == 1 {
        lines[0]
    } else {
        join_lines(lines.drop_last()) + seq![NL] + lines.last()
    }
}

/// The per-line transform of the first `k` lines: the rewritten lines,
/// and whether any line changed; the first failing line aborts.
pub open spec fn lines_upto(
    caps: Seq<Capture>,
    ops: Seq<Operator>,
    lines: Seq<Seq<u8>>,
    k: int,
) -> Result<(Seq<Seq<u8>>, bool), ErrorKind>
    decreases k,
{
    if k <= 0 {
        Ok((Seq::empty(), false))
    } else {
        match lines_upto(caps, ops, lines, k - 1) {
            Err(e) => Err(e),
            Ok(acc) => match regop_spec(caps, ops, lines[k - 1]) {
                Err(e) => Err(e),
                Ok(None) => Ok((acc.0.push(lines[k - 1]), acc.1)),
                Ok(Some(t)) => Ok((acc.0.push(t), true)),
            },
        }
    }
}

proof fn lemma_lines_upto_err(
    caps: Seq<Capture>,
    ops: Seq<Operator>,
    lines: Seq<Seq<u8>>,
    k: int,
    j: int,
)
    requires
        0 <= k <= j,
        lines_upto(caps, ops, lines, k) is Err,
    ensures
        lines_upto(caps, ops, lines, j) == lines_upto(caps, ops, lines, k),
    decreases j,
{
    if j > k {
        lemma_lines_upto_err(caps, ops, lines, k, j - 1);
    }
}

/// What a transform returns: the whole document as one unit, or, in
/// line mode, each newline-delimited line independently transformed and
/// the document rejoined when at least one line changed.
pub open spec fn process_spec(
    lines: bool,
    caps: Seq<Capture>,
    ops: Seq<Operator>,
    doc: Seq<u8>,
) -> Result<Option<Seq<u8>>, ErrorKind> {
    if !lines {
        regop_spec(caps, ops, doc)
    } else {
        let ls = split_lines(doc);
        match lines_upto(caps, ops, ls, ls.len() as int) {
            Err(e) => Err(e),
            Ok(acc) => if acc.1 {
                Ok(Some(join_lines(acc.0)))
            } else {
                Ok(None)
            },
        }
    }
}

/// Splits a document into its newline-delimited lines, recording each
/// line by its position rather than by its content.
fn split_lines_exec(doc: &[u8]) -> (r: Vec<Vec<u8>>)
    ensures
        r.deep_view() == split_lines(doc@),
{
    let n = doc.len();
    let mut out: Vec<Vec<u8>> = Vec::new();
    let mut pos: usize = 0;
    let mut done: bool = false;
    while !done
        invariant
            0 <= pos <= n,
            n == doc@.len(),
            !done ==> split_lines(doc@) == out.deep_view() + split_from(doc@, pos as int),
            done ==> out.deep_view() == split_lines(doc@),
        decreases n - pos + (if done { 0int } else { 1int }),
    {
        let j = find_byte_from(doc, pos, NL);
        proof {
            lemma_find_byte(doc@, pos as int, NL);
        }
        let ghost before = out.deep_view();
        if j == n {
            let seg = copy_range(doc, pos, n);
            proof {
                assert(seg.deep_view() =~= doc@.subrange(pos as int, n as int));
            }
            out.push(seg);
            proof {
                assert(split_from(doc@, pos as int) =~= seq![
                    doc@.subrange(pos as int, n as int),
                ]);
                assert(out.deep_view() =~= before + split_from(doc@, pos as int));
                assert(out.deep_view() =~= split_lines(doc@));
            }
            done = true;
        } else {
            let seg = copy_range(doc, pos, j);
            proof {
                assert(seg.deep_view() =~= doc@.subrange(pos as int, j as int));
            }
            out.push(seg);
            proof {
                assert(split_from(doc@, pos as int) == seq![doc@.subrange(pos as int, j as int)]
                    + split_from(doc@, j + 1));
                assert(out.deep_view() + split_from(doc@, j + 1) =~= before + split_from(
                    doc@,
                    pos as int,
                ));
            }
            pos = j + 1;
        }
    }
    out
}

/// Rejoins lines with newlines.
fn join_lines_exec(lines: &Vec<Vec<u8>>) -> (r: Vec<u8>)
    ensures
        r@ == join_lines(lines.deep_view()),
{
    let mut out: Vec<u8> = Vec::new();
    let n = lines.len();
    let mut i: usize = 0;
    while i < n
        invariant
            0 <= i <= n,
            n == lines@.len(),
            out@ == join_lines(lines.deep_view().take(i as int)),
        decreases n - i,
    {
        let ghost dv = lines.deep_view();
        if i > 0 {
            out.push(NL);
        }
        out.extend_from_slice(lines[i].as_slice());
        proof {
            assert(dv.take(i + 1).last() == dv[i as int]);
            assert(dv.take(i + 1).drop_last() =~= dv.take(i as int));
            assert(dv[i as int] == lines@[i as int].deep_view());
            assert(lines@[i as int].deep_view() =~= lines@[i as int]@);
            if i == 0 {
                assert(out@ =~= dv.take(1)[0]);
                assert(join_lines(dv.take(1)) == dv.take(1)[0]);
            } else {
                assert(out@ =~= join_lines(dv.take(i as int)) + seq![NL] + dv[i as int]);
            }
        }
        i = i + 1;
    }
    proof {
        assert(lines.deep_view().take(n as int) =~= lines.deep_view());
    }
    out
}

/// Processes content with the given captures and operators: the whole
/// document as one unit, or, in line mode, each line independently with
/// results written back at the line's own recorded position.
#[verifier::rlimit(100)]
pub fn process(lines: bool, regex: &[Capture], ops: &[Operator], content: &[u8]) -> (r: Result<
    Option<Vec<u8>>,
    RegopError,
>)
    ensures
        match r {
            Ok(Some(v)) => process_spec(lines, regex@, ops@, content@) == Ok::<
                Option<Seq<u8>>,
                ErrorKind,
            >(Some(v@)),
            Ok(None) => process_spec(lines, regex@, ops@, content@) == Ok::<
                Option<Seq<u8>>,
                ErrorKind,
            >(None::<Seq<u8>>),
            Err(e) => process_spec(lines, regex@, ops@, content@) == Err::<
                Option<Seq<u8>>,
                ErrorKind,
            >(e.kind),
        },
{
    if !lines {
        return regop(regex, ops, content);
    }
    let segs = split_lines_exec(content);
    let ghost ls = split_lines(content@);
    let mut outlines: Vec<Vec<u8>> = Vec::new();
    let mut changed: bool = false;
    let n = segs.len();
    proof {
        assert(outlines.deep_view() =~= Seq::<Seq<u8>>::empty());
    }
    let mut i: usize = 0;
    while i < n
        invariant
            0 <= i <= n,
            n == segs@.len(),
            segs.deep_view() == ls,
            ls == split_lines(content@),
            n == ls.len(),
            lines,
            lines_upto(regex@, ops@, ls, i as int) == Ok::<(Seq<Seq<u8>>, bool), ErrorKind>(
                (outlines.deep_view(), changed),
            ),
        decreases n - i,
    {
        let line = &segs[i];
        proof {
            assert(ls[i as int] == segs@[i as int].deep_view());
            assert(segs@[i as int].deep_view() =~= line@);
        }
        let ghost before = outlines.deep_view();
        match regop(regex, ops, line.as_slice()) {
            Ok(None) => {
                let kept = vstd::slice::slice_to_vec(line.as_slice());
                proof {
                    assert(kept.deep_view() =~= ls[i as int]);
                }
                outlines.push(kept);
                proof {
                    assert(outlines.deep_view() =~= before.push(ls[i as int]));
                }
            },
            Ok(Some(t)) => {
                let ghost tv = t@;
                proof {
                    assert(t.deep_view() =~= tv);
                }
                outlines.push(t);
                changed = true;
                proof {
                    assert(outlines.deep_view() =~= before.push(tv));
                }
            },
            Err(e) => {
                proof {
                    assert(lines_upto(regex@, ops@, ls, i + 1) == Err::<
                        (Seq<Seq<u8>>, bool),
                        ErrorKind,
                    >(e.kind));
                    lemma_lines_upto_err(regex@, ops@, ls, i + 1, n as int);
                }
                return Err(e);
            },
        }
        i = i + 1;
    }
    if changed {
        Ok(Some(join_lines_exec(&outlines)))
    } else {
        Ok(None)
    }
}

proof fn lemma_plan_no_match(ops: Seq<Operator>, caps: Seq<Capture>, doc: Seq<u8>, k: int)
    requires
        0 <= k <= ops.len(),
        forall|n: Seq<u8>| #[trigger] all_group_spans(caps, doc, n).len() == 0,
    ensures
        plan_upto(ops, caps, doc, k) == Ok::<Seq<EditModel>, ErrorKind>(Seq::empty()),
    decreases k,
{
    if k > 0 {
        lemma_plan_no_match(ops, caps, doc, k - 1);
        let op = ops[k - 1];
        if op.op is Swap {
            assert(all_group_spans(caps, doc, op.target@).len() == 0);
            assert(all_group_spans(caps, doc, crate::plan::swap_target_name(op.value)).len()
                == 0);
            assert(crate::plan::op_edits_spec(op, caps, doc) == Ok::<Seq<EditModel>, ErrorKind>(
                Seq::empty(),
            ));
        } else {
            let spans = all_group_spans(caps, doc, op.target@);
            assert(spans.len() == 0);
            assert(crate::plan::regular_edits_upto(op, caps, doc, spans, 0) == Ok::<
                Seq<EditModel>,
                ErrorKind,
            >(Seq::empty()));
            assert(crate::plan::op_edits_spec(op, caps, doc) == Ok::<Seq<EditModel>, ErrorKind>(
                Seq::empty(),
            ));
        }
        assert(Seq::<EditModel>::empty() + Seq::<EditModel>::empty() =~= Seq::<
            EditModel,
        >::empty());
    }
}

/// Idempotence of no-op: transforming a document in which no capture
/// group matches anything reports "unchanged", provided no operator
/// references a group as a value (a reference to a group with no match
/// is a failure instead).
pub proof fn lemma_no_match_unchanged(caps: Seq<Capture>, ops: Seq<Operator>, doc: Seq<u8>)
    requires
        forall|n: Seq<u8>| #[trigger] all_group_spans(caps, doc, n).len() == 0,
        forall|i: int|
            0 <= i < ops.len() ==> crate::plan::referenced_name_of(#[trigger] ops[i]) is None,
    ensures
        regop_spec(caps, ops, doc) == Ok::<Option<Seq<u8>>, ErrorKind>(None::<Seq<u8>>),
{
    reveal(regop_spec);
    assert(!has_unresolved_reference(ops, caps, doc));
    lemma_plan_no_match(ops, caps, doc, ops.len() as int);
    let es = Seq::<EditModel>::empty();
    assert(sort_edits(es) == Seq::<EditModel>::empty());
    assert(!has_adjacent_overlap(sort_edits(es)));
}

/// The other face of overlap detection: when a transform commits its
/// plan, no two of the planned edits touch a shared character (each
/// edit covering at least one character).  Committed rewrites never
/// write twice to the same place.
pub proof fn lemma_applied_plan_disjoint(
    caps: Seq<Capture>,
    ops: Seq<Operator>,
    doc: Seq<u8>,
    i: int,
    j: int,
)
    requires
        regop_spec(caps, ops, doc) is Ok,
        ({
            let es = plan_edits_spec(ops, caps, doc)->Ok_0;
            &&& 0 <= i < j < es.len()
            &&& forall|k: int| 0 <= k < es.len() ==> (#[trigger] es[k]).0 < es[k].1
        }),
    ensures
        plan_edits_spec(ops, caps, doc) is Ok,
        crate::spec_distance(
            plan_edits_spec(ops, caps, doc)->Ok_0[i].0,
            plan_edits_spec(ops, caps, doc)->Ok_0[i].1,
            plan_edits_spec(ops, caps, doc)->Ok_0[j].0,
            plan_edits_spec(ops, caps, doc)->Ok_0[j].1,
        ) is Some,
{
    reveal(regop_spec);
    let es = plan_edits_spec(ops, caps, doc)->Ok_0;
    if crate::spec_distance(es[i].0, es[i].1, es[j].0, es[j].1) is None {
        lemma_overlap_rejected(caps, ops, doc, i, j);
    }
}

proof fn lemma_lines_noop(caps: Seq<Capture>, ops: Seq<Operator>, ls: Seq<Seq<u8>>, k: int)
    requires
        0 <= k <= ls.len(),
        forall|i: int, n: Seq<u8>|
            0 <= i < ls.len() ==> #[trigger] all_group_spans(caps, ls[i], n).len() == 0,
        forall|i: int|
            0 <= i < ops.len() ==> crate::plan::referenced_name_of(#[trigger] ops[i]) is None,
    ensures
        lines_upto(caps, ops, ls, k) == Ok::<(Seq<Seq<u8>>, bool), ErrorKind>((ls.take(k), false)),
    decreases k,
{
    if k > 0 {
        lemma_lines_noop(caps, ops, ls, k - 1);
        lemma_no_match_unchanged(caps, ops, ls[k - 1]);
        assert(ls.take(k) =~= ls.take(k - 1).push(ls[k - 1]));
    } else {
        assert(ls.take(0) =~= Seq::<Seq<u8>>::empty());
    }
}

/// Idempotence of no-op, in line mode: when no capture group matches on
/// any line and no operator references a group as a value, the whole
/// transform reports "unchanged".
pub proof fn lemma_no_match_unchanged_lines(caps: Seq<Capture>, ops: Seq<Operator>, doc: Seq<u8>)
    requires
        forall|i: int, n: Seq<u8>|
            0 <= i < split_lines(doc).len() ==> #[trigger] all_group_spans(
                caps,
                split_lines(doc)[i],
                n,
            ).len() == 0,
        forall|i: int|
            0 <= i < ops.len() ==> crate::plan::referenced_name_of(#[trigger] ops[i]) is None,
    ensures
        process_spec(true, caps, ops, doc) == Ok::<Option<Seq<u8>>, ErrorKind>(None::<Seq<u8>>),
{
    let ls = split_lines(doc);
    lemma_lines_noop(caps, ops, ls, ls.len() as int);
}

/// Overlap detection: when any two of the planned edits touch a shared
/// character — each edit covering at least one character — the whole
/// transform fails with `OverlappingEdits`; no overlapping plan is ever
/// applied.
#[verifier::rlimit(100)]
pub proof fn lemma_overlap_rejected(
    caps: Seq<Capture>,
    ops: Seq<Operator>,
    doc: Seq<u8>,
    i: int,
    j: int,
)
    requires
        !has_unresolved_reference(ops, caps, doc),
        plan_edits_spec(ops, caps, doc) is Ok,
        ({
            let es = plan_edits_spec(ops, caps, doc)->Ok_0;
            &&& 0 <= i < j < es.len()
            &&& forall|k: int| 0 <= k < es.len() ==> (#[trigger] es[k]).0 < es[k].1
            &&& crate::spec_distance(es[i].0, es[i].1, es[j].0, es[j].1) is None
        }),
    ensures
        regop_spec(caps, ops, doc) == Err::<Option<Seq<u8>>, ErrorKind>(
            ErrorKind::OverlappingEdits,
        ),
{
    reveal(regop_spec);
    let planned = plan_edits_spec(ops, caps, doc)->Ok_0;
    let es = sort_edits(planned);
    crate::edits::lemma_sort_edits_sorted(planned);
    crate::edits::lemma_sort_edits_multiset(planned);
    crate::edits::lemma_sort_edits_len(planned);
    crate::edits::lemma_pair_survives_permutation(planned, es, i, j);
    crate::edits::lemma_permutation_keeps_nondegenerate(planned, es);
    let (p, q) = choose|p: int, q: int|
        0 <= p < es.len() && 0 <= q < es.len() && p != q && #[trigger] es[p] == planned[i]
            && #[trigger] es[q] == planned[j];
    let (a, b) = if p < q {
        (p, q)
    } else {
        (q, p)
    };
    assert(crate::spec_distance(es[a].0, es[a].1, es[b].0, es[b].1) is None);
    crate::edits::lemma_overlap_has_adjacent(es, a, b);
}

} // verus!
