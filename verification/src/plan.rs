//! Edit planning: resolving operator parameters against the captured
//! values and computing the replacement text for every match.
//!
//! A group-reference parameter is resolved against the capture table by
//! textual nearness: among all recorded spans of the referenced group,
//! the one closest to the current match wins, the first of equally near
//! candidates on a tie, and an overlapping candidate counting as nearest
//! of all.  Swap operators pair the matches of their two groups
//! positionally and exchange their texts.

use vstd::prelude::*;

verus! {

use crate::edits::{Edit, EditModel, models_of};
use crate::errors::{ErrorKind, RegopError};
use crate::ints::{div_wrapped, int_to_dec, parse_int, parse_int_spec, format_int, div_isize};
use crate::ops::{Operation, Operator, Param};
use crate::pattern::{all_group_spans, collect_group_matches, Capture, Span};
use crate::text::{bytes_eq, lower_of, lower_bytes, upper_of, upper_bytes};
use vstd::wrapping::isize_specs;

/// A parameter value after resolution: a number or bytes.
pub enum ResolvedParam {
    /// A numeric value.
    Num(int),
    /// A textual value.
    Bytes(Seq<u8>),
}

/// The group one operator references as a value, if any: swap operators
/// resolve their reference by direct re-matching instead.
pub open spec fn referenced_name_of(op: Operator) -> Option<Seq<u8>> {
    if !(op.op is Swap) && op.value is Group {
        Some(op.value->Group_0@)
    } else {
        None
    }
}

/// The group names referenced as values, in operator order.
pub open spec fn referenced_names(ops: Seq<Operator>) -> Seq<Seq<u8>>
    decreases ops.len(),
{
    if ops.len() == 0 {
        Seq::empty()
    } else {
        referenced_names(ops.drop_last()) + (match referenced_name_of(ops.last()) {
            Some(n) => seq![n],
            None => Seq::empty(),
        })
    }
}

/// True when some operator references group `n` as a value.
pub open spec fn is_value_name(ops: Seq<Operator>, n: Seq<u8>) -> bool {
    exists|i: int| 0 <= i < ops.len() && referenced_name_of(#[trigger] ops[i]) == Some(n)
}

/// The referenced-names list holds exactly the referenced names.
pub proof fn lemma_referenced_names_iff(ops: Seq<Operator>, n: Seq<u8>)
    ensures
        referenced_names(ops).contains(n) == is_value_name(ops, n),
    decreases ops.len(),
{
    if ops.len() == 0 {
        assert(!referenced_names(ops).contains(n));
        assert(!is_value_name(ops, n));
    } else {
        let dl = ops.drop_last();
        lemma_referenced_names_iff(dl, n);
        let prev = referenced_names(dl);
        if referenced_names(ops).contains(n) {
            let j = choose|j: int|
                0 <= j < referenced_names(ops).len() && referenced_names(ops)[j] == n;
            if j < prev.len() {
                assert(prev.contains(n)) by {
                    assert(prev[j] == n);
                }
                let i = choose|i: int|
                    0 <= i < dl.len() && referenced_name_of(#[trigger] dl[i]) == Some(n);
                assert(referenced_name_of(ops[i]) == Some(n));
            } else {
                assert(referenced_name_of(ops[ops.len() - 1]) == Some(n));
            }
        }
        if is_value_name(ops, n) {
            let i = choose|i: int|
                0 <= i < ops.len() && referenced_name_of(#[trigger] ops[i]) == Some(n);
            if i < dl.len() {
                assert(referenced_name_of(dl[i]) == Some(n));
                assert(is_value_name(dl, n));
                let j = choose|j: int| 0 <= j < prev.len() && prev[j] == n;
                assert(referenced_names(ops)[j] == n);
            } else {
                assert(referenced_names(ops).last() == n);
            }
        }
    }
}

/// True when some group referenced as a value was never captured.
pub open spec fn has_unresolved_reference(
    ops: Seq<Operator>,
    caps: Seq<Capture>,
    doc: Seq<u8>,
) -> bool {
    exists|n: Seq<u8>|
        #[trigger] is_value_name(ops, n) && all_group_spans(caps, doc, n).len() == 0
}

/// Collects the capture group names that operators reference as values.
pub fn collect_captures_as_values(ops: &[Operator]) -> (r: Vec<Vec<u8>>)
    ensures
        r.deep_view() == referenced_names(ops@),
{
    let count = ops.len();
    let mut r: Vec<Vec<u8>> = Vec::new();
    let mut i: usize = 0;
    while i < count
        invariant
            0 <= i <= count,
            count == ops@.len(),
            r.deep_view() == referenced_names(ops@.take(i as int)),
        decreases count - i,
    {
        let ghost prefix = ops@.take(i as int);
        let op = &ops[i];
        proof {
            assert(ops@.take(i + 1).drop_last() =~= prefix);
            assert(ops@.take(i + 1).last() == ops@[i as int]);
        }
        let is_swap = matches!(op.op, Operation::Swap);
        match &op.value {
            Param::Group(g) => {
                if !is_swap {
                    let ghost before = r.deep_view();
                    let copied = vstd::slice::slice_to_vec(g.as_slice());
                    proof {
                        assert(copied.deep_view() =~= g@);
                    }
                    r.push(copied);
                    proof {
                        assert(r.deep_view() =~= before.push(g@));
                        assert(referenced_names(ops@.take(i + 1)) =~= before.push(g@));
                    }
                } else {
                    proof {
                        assert(referenced_names(ops@.take(i + 1)) =~= r.deep_view());
                    }
                }
            },
            _ => {
                proof {
                    assert(referenced_names(ops@.take(i + 1)) =~= r.deep_view());
                }
            },
        }
        i = i + 1;
    }
    proof {
        assert(ops@.take(count as int) =~= ops@);
    }
    r
}

/// One capture-table entry: a referenced group and all of its recorded
/// matches, in pattern order then match order.
pub struct TableEntry {
    /// The group's name.
    pub name: Vec<u8>,
    /// Every match of the group, with span and text.
    pub spans: Vec<Span>,
}

impl TableEntry {
    /// The entry holds exactly the group's matches over `doc`, at least
    /// one of them.
    pub open spec fn wf(self, caps: Seq<Capture>, doc: Seq<u8>) -> bool {
        let ags = all_group_spans(caps, doc, self.name@);
        &&& self.spans@.len() == ags.len()
        &&& self.spans@.len() > 0
        &&& forall|k: int|
            0 <= k < self.spans@.len() ==> (#[trigger] self.spans@[k]).key() == ags[k]
                && self.spans@[k].wf(doc)
    }
}

/// The capture table: for every group referenced as a value, all of its
/// recorded matches.
pub struct CaptureTable {
    /// One entry per referenced group.
    pub entries: Vec<TableEntry>,
}

impl CaptureTable {
    /// True when the table has an entry for group `n`.
    pub open spec fn has_entry(self, n: Seq<u8>) -> bool {
        exists|i: int|
            0 <= i < self.entries@.len() && (#[trigger] self.entries@[i]).name@ == n
    }

    /// Every entry is well-formed.
    pub open spec fn wf(self, caps: Seq<Capture>, doc: Seq<u8>) -> bool {
        forall|i: int|
            0 <= i < self.entries@.len() ==> (#[trigger] self.entries@[i]).wf(caps, doc)
    }

    /// Finds the entry recording group `n`.
    fn lookup(&self, n: &[u8]) -> (r: Option<usize>)
        ensures
            match r {
                Some(i) => i < self.entries@.len() && self.entries@[i as int].name@ == n@,
                None => !self.has_entry(n@),
            },
    {
        let count = self.entries.len();
        let mut i: usize = 0;
        while i < count
            invariant
                0 <= i <= count,
                count == self.entries@.len(),
                forall|k: int| 0 <= k < i ==> (#[trigger] self.entries@[k]).name@ != n@,
            decreases count - i,
        {
            if bytes_eq(self.entries[i].name.as_slice(), n) {
                return Some(i);
            }
            i = i + 1;
        }
        None
    }
}

/// Builds the capture table for the given referenced names: every match
/// of every named group across all patterns.  Fails with
/// `UnresolvedGroupReference` when a referenced group has no match.
pub fn collect_value_captures(
    regex: &[Capture],
    content: &[u8],
    captures_as_values: &Vec<Vec<u8>>,
) -> (r: Result<CaptureTable, RegopError>)
    ensures
        match r {
            Ok(t) => {
                &&& t.wf(regex@, content@)
                &&& forall|n: Seq<u8>|
                    t.has_entry(n) == #[trigger] captures_as_values.deep_view().contains(n)
                &&& forall|n: Seq<u8>|
                    #[trigger] captures_as_values.deep_view().contains(n) ==> all_group_spans(
                        regex@,
                        content@,
                        n,
                    ).len() > 0
            },
            Err(e) => {
                &&& e.kind == ErrorKind::UnresolvedGroupReference
                &&& exists|n: Seq<u8>|
                    #[trigger] captures_as_values.deep_view().contains(n) && all_group_spans(
                        regex@,
                        content@,
                        n,
                    ).len() == 0
            },
        },
{
    let count = captures_as_values.len();
    let mut table = CaptureTable { entries: Vec::new() };
    let mut i: usize = 0;
    while i < count
        invariant
            0 <= i <= count,
            count == captures_as_values.deep_view().len(),
            count == captures_as_values@.len(),
            table.wf(regex@, content@),
            forall|n: Seq<u8>|
                table.has_entry(n) == #[trigger] captures_as_values.deep_view().take(
                    i as int,
                ).contains(n),
            forall|n: Seq<u8>|
                #[trigger] captures_as_values.deep_view().take(i as int).contains(n)
                    ==> all_group_spans(regex@, content@, n).len() > 0,
        decreases count - i,
    {
        let ghost prefix = captures_as_values.deep_view().take(i as int);
        let name = &captures_as_values[i];
        proof {
            assert(captures_as_values.deep_view()[i as int] == name@);
            assert(captures_as_values.deep_view().take(i + 1).drop_last() =~= prefix);
            assert(captures_as_values.deep_view().take(i + 1).last() == name@);
        }
        match table.lookup(name.as_slice()) {
            Some(_) => {
                proof {
                    lemma_take_succ_contains(captures_as_values.deep_view(), i as int);
                }
            },
            None => {
                let spans = collect_group_matches(regex, content, name.as_slice());
                if spans.len() == 0 {
                    let mut e = RegopError::new(
                        ErrorKind::UnresolvedGroupReference,
                        "'<",
                    );
                    e.push_detail(name.as_slice());
                    e.push_detail(">' used as value but not found".as_bytes());
                    proof {
                        assert(captures_as_values.deep_view().contains(name@)) by {
                            assert(captures_as_values.deep_view()[i as int] == name@);
                        }
                    }
                    return Err(e);
                }
                let ghost oldtable = table;
                let entry = TableEntry { name: vstd::slice::slice_to_vec(name.as_slice()), spans };
                proof {
                    assert(entry.wf(regex@, content@));
                }
                table.entries.push(entry);
                proof {
                    assert(forall|k: int|
                        0 <= k < oldtable.entries@.len() ==> table.entries@[k]
                            == #[trigger] oldtable.entries@[k]);
                    assert(table.entries@.last().name@ == name@);
                    assert(forall|n: Seq<u8>|
                        #[trigger] table.has_entry(n) == (oldtable.has_entry(n) || n == name@))
                        by {
                        assert(forall|n: Seq<u8>|
                            oldtable.has_entry(n) ==> #[trigger] table.has_entry(n));
                        assert(table.has_entry(name@)) by {
                            assert(table.entries@[table.entries@.len() - 1].name@ == name@);
                        }
                        assert(forall|n: Seq<u8>|
                            #[trigger] table.has_entry(n) && n != name@ ==> oldtable.has_entry(
                                n,
                            ));
                    }
                    lemma_take_succ_contains(captures_as_values.deep_view(), i as int);
                }
            },
        }
        i = i + 1;
    }
    proof {
        assert(captures_as_values.deep_view().take(count as int) =~= captures_as_values.deep_view());
    }
    Ok(table)
}

proof fn lemma_take_succ_contains(s: Seq<Seq<u8>>, i: int)
    requires
        0 <= i < s.len(),
    ensures
        forall|n: Seq<u8>|
            #[trigger] s.take(i + 1).contains(n) == (s.take(i).contains(n) || n == s[i]),
{
    assert forall|n: Seq<u8>| #[trigger]
        s.take(i + 1).contains(n) == (s.take(i).contains(n) || n == s[i]) by {
        if s.take(i + 1).contains(n) {
            let j = choose|j: int| 0 <= j < i + 1 && #[trigger] s.take(i + 1)[j] == n;
            if j < i {
                assert(s.take(i)[j] == n);
            }
        }
        if s.take(i).contains(n) {
            let j = choose|j: int| 0 <= j < i && #[trigger] s.take(i)[j] == n;
            assert(s.take(i + 1)[j] == n);
        }
        if n == s[i] {
            assert(s.take(i + 1)[i] == n);
        }
    }
}

/// The interval distance, carried in machine form.
pub open spec fn opt_dist(m: (int, int), c: (int, int)) -> Option<usize> {
    match crate::spec_distance(m.0, m.1, c.0, c.1) {
        Some(d) => Some(d as usize),
        None => None,
    }
}

/// Nearness of candidate `c` to the match `m`: the distance between the
/// two intervals, an overlapping candidate counting as nearest of all.
pub open spec fn proximity(m: (int, int), c: (int, int)) -> int {
    match crate::spec_distance(m.0, m.1, c.0, c.1) {
        Some(d) => d,
        None => -1,
    }
}

/// Index of the first nearest candidate among the first `k` spans.
pub open spec fn best_prefix(spans: Seq<(int, int)>, m: (int, int), k: int) -> int
    decreases k,
{
    if k <= 1 {
        0
    } else {
        let b = best_prefix(spans, m, k - 1);
        if proximity(m, spans[k - 1]) < proximity(m, spans[b]) {
            k - 1
        } else {
            b
        }
    }
}

/// Index of the first nearest candidate.
pub open spec fn best_of(spans: Seq<(int, int)>, m: (int, int)) -> int {
    best_prefix(spans, m, spans.len() as int)
}

/// The spans of a recorded match list.
pub open spec fn span_keys(spans: Seq<Span>) -> Seq<(int, int)> {
    spans.map_values(|s: Span| s.key())
}

/// The value an operator's parameter denotes at one match site: literal
/// parameters as themselves, a group reference as the text of the
/// nearest recorded span of the referenced group.
pub open spec fn resolve_param_spec(
    value: Param,
    caps: Seq<Capture>,
    doc: Seq<u8>,
    m: (int, int),
) -> Result<ResolvedParam, ErrorKind> {
    match value {
        Param::Int(i) => Ok(ResolvedParam::Num(i as int)),
        Param::Text(t) => Ok(ResolvedParam::Bytes(t@)),
        Param::Group(g) => {
            let spans = all_group_spans(caps, doc, g@);
            if spans.len() == 0 {
                Err(ErrorKind::GroupReferenceNotFound)
            } else {
                let c = spans[best_of(spans, m)];
                Ok(ResolvedParam::Bytes(doc.subrange(c.0, c.1)))
            }
        },
    }
}

/// The numeric reading of a resolved value.
pub open spec fn resolved_num(rv: ResolvedParam) -> Option<int> {
    match rv {
        ResolvedParam::Num(i) => Some(i),
        ResolvedParam::Bytes(t) => parse_int_spec(t),
    }
}

/// The textual rendering of a resolved value.
pub open spec fn resolved_bytes(rv: ResolvedParam) -> Seq<u8> {
    match rv {
        ResolvedParam::Num(i) => int_to_dec(i),
        ResolvedParam::Bytes(t) => t,
    }
}

/// The replacement text one operation computes from the matched text
/// `old` and the resolved parameter `rv`.  Additions and subtractions
/// wrap at the machine word, as the multiplication does, keeping the
/// engine total; division truncates and fails on a zero divisor.
pub open spec fn op_new_text(op: Operation, rv: ResolvedParam, old: Seq<u8>) -> Result<
    Seq<u8>,
    ErrorKind,
> {
    match op {
        Operation::Inc => match parse_int_spec(old) {
            None => Err(ErrorKind::InvalidNumber),
            Some(o) => match resolved_num(rv) {
                None => Err(ErrorKind::InvalidNumber),
                Some(k) => Ok(
                    int_to_dec(isize_specs::wrapping_add(o as isize, k as isize) as int),
                ),
            },
        },
        Operation::Dec => match parse_int_spec(old) {
            None => Err(ErrorKind::InvalidNumber),
            Some(o) => match resolved_num(rv) {
                None => Err(ErrorKind::InvalidNumber),
                Some(k) => Ok(
                    int_to_dec(isize_specs::wrapping_sub(o as isize, k as isize) as int),
                ),
            },
        },
        Operation::Mul => match parse_int_spec(old) {
            None => Err(ErrorKind::InvalidNumber),
            Some(o) => match resolved_num(rv) {
                None => Err(ErrorKind::InvalidNumber),
                Some(k) => Ok(
                    int_to_dec(isize_specs::wrapping_mul(o as isize, k as isize) as int),
                ),
            },
        },
        Operation::Div => match resolved_num(rv) {
            None => Err(ErrorKind::InvalidNumber),
            Some(k) => if k == 0 {
                Err(ErrorKind::DivisionByZero)
            } else {
                match parse_int_spec(old) {
                    None => Err(ErrorKind::InvalidNumber),
                    Some(o) => Ok(int_to_dec(div_wrapped(o, k))),
                }
            },
        },
        Operation::Replace => Ok(resolved_bytes(rv)),
        Operation::Swap => Ok(resolved_bytes(rv)),
        Operation::Del => Ok(Seq::empty()),
        Operation::Append => Ok(old + resolved_bytes(rv)),
        Operation::Prepend => Ok(resolved_bytes(rv) + old),
        Operation::Upper => Ok(upper_of(old)),
        Operation::Lower => Ok(lower_of(old)),
    }
}

/// The edit one operator produces at one matched span.
pub open spec fn edit_for_spec(
    op: Operator,
    caps: Seq<Capture>,
    doc: Seq<u8>,
    m: (int, int),
) -> Result<EditModel, ErrorKind> {
    match resolve_param_spec(op.value, caps, doc, m) {
        Err(e) => Err(e),
        Ok(rv) => match op_new_text(op.op, rv, doc.subrange(m.0, m.1)) {
            Err(e) => Err(e),
            Ok(t) => Ok((m.0, m.1, t)),
        },
    }
}

/// A resolved parameter value, in executable form.
enum Resolved {
    Num(isize),
    Bytes(Vec<u8>),
}

impl Resolved {
    spec fn model(self) -> ResolvedParam {
        match self {
            Resolved::Num(i) => ResolvedParam::Num(i as int),
            Resolved::Bytes(v) => ResolvedParam::Bytes(v@),
        }
    }
}

/// Renders a resolved value as bytes.
fn render_resolved(rv: Resolved) -> (r: Vec<u8>)
    ensures
        r@ == resolved_bytes(rv.model()),
{
    match rv {
        Resolved::Num(i) => format_int(i),
        Resolved::Bytes(v) => v,
    }
}

/// Creates the edit one operator performs at one matched span: resolves
/// the parameter — a group reference against the capture table, by
/// textual nearness — and computes the replacement text.
pub fn edit(
    op: &Operator,
    m: &Span,
    captures: &CaptureTable,
    Ghost(caps): Ghost<Seq<Capture>>,
    Ghost(doc): Ghost<Seq<u8>>,
) -> (r: Result<Edit, RegopError>)
    requires
        captures.wf(caps, doc),
        m.wf(doc),
        op.value is Group ==> captures.has_entry(op.value->Group_0@) == (all_group_spans(
            caps,
            doc,
            op.value->Group_0@,
        ).len() > 0),
    ensures
        match r {
            Ok(ed) => {
                &&& edit_for_spec(*op, caps, doc, m.key()) == Ok::<EditModel, ErrorKind>(ed.model())
                &&& ed.wf()
                &&& ed.start == m.start
                &&& ed.end == m.end
            },
            Err(e) => edit_for_spec(*op, caps, doc, m.key()) == Err::<EditModel, ErrorKind>(e.kind),
        },
{
    let rv: Resolved = match &op.value {
        Param::Int(i) => Resolved::Num(*i),
        Param::Text(t) => Resolved::Bytes(vstd::slice::slice_to_vec(t.as_slice())),
        Param::Group(g) => {
            match captures.lookup(g.as_slice()) {
                None => {
                    let mut e = RegopError::new(
                        ErrorKind::GroupReferenceNotFound,
                        "no capture found named '",
                    );
                    e.push_detail(g.as_slice());
                    e.push_detail("'".as_bytes());
                    return Err(e);
                },
                Some(idx) => {
                    let entry = &captures.entries[idx];
                    let ghost ags = all_group_spans(caps, doc, g@);
                    proof {
                        assert(entry.wf(caps, doc));
                        assert(captures.has_entry(g@)) by {
                            assert(captures.entries@[idx as int].name@ == g@);
                        }
                        assert(span_keys(entry.spans@) =~= ags);
                    }
                    let spans = &entry.spans;
                    let n = spans.len();
                    let mkey_start = m.start;
                    let mkey_end = m.end;
                    let first = &spans[0];
                    let mut best: usize = 0;
                    let mut bd: Option<usize> = crate::distance(
                        mkey_start,
                        mkey_end,
                        first.start,
                        first.end,
                    );
                    let mut i: usize = 1;
                    while i < n
                        invariant
                            1 <= i <= n,
                            n == spans@.len(),
                            0 <= best < i,
                            m.wf(doc),
                            forall|k: int|
                                0 <= k < spans@.len() ==> (#[trigger] spans@[k]).wf(doc),
                            mkey_start == m.start,
                            mkey_end == m.end,
                            best == best_prefix(span_keys(spans@), m.key(), i as int),
                            bd == opt_dist(m.key(), spans@[best as int].key()),
                        decreases n - i,
                    {
                        let c = &spans[i];
                        let d = crate::distance(mkey_start, mkey_end, c.start, c.end);
                        let better = match (d, bd) {
                            (Option::None, Option::None) => false,
                            (Option::None, Option::Some(_)) => true,
                            (Option::Some(_), Option::None) => false,
                            (Option::Some(a), Option::Some(b)) => a < b,
                        };
                        proof {
                            assert(span_keys(spans@)[i as int] == spans@[i as int].key());
                            assert(span_keys(spans@)[best as int] == spans@[best as int].key());
                            assert(better == (proximity(m.key(), span_keys(spans@)[i as int])
                                < proximity(m.key(), span_keys(spans@)[best as int])));
                        }
                        if better {
                            best = i;
                            bd = d;
                        }
                        i = i + 1;
                    }
                    proof {
                        assert(best == best_of(ags, m.key()));
                        assert(spans@[best as int].text@ == doc.subrange(
                            ags[best as int].0,
                            ags[best as int].1,
                        ));
                    }
                    let chosen = &spans[best];
                    Resolved::Bytes(vstd::slice::slice_to_vec(chosen.text.as_slice()))
                },
            }
        },
    };
    proof {
        assert(resolve_param_spec(op.value, caps, doc, m.key()) == Ok::<ResolvedParam, ErrorKind>(rv.model()));
    }
    let ghost old_text = doc.subrange(m.key().0, m.key().1);
    proof {
        assert(m.text@ == old_text);
    }
    let new: Vec<u8> = match op.op {
        Operation::Inc => {
            let o = match parse_int(m.text.as_slice()) {
                Ok(v) => v,
                Err(e) => {
                    return Err(e);
                },
            };
            let k = match &rv {
                Resolved::Num(i) => *i,
                Resolved::Bytes(t) => match parse_int(t.as_slice()) {
                    Ok(v) => v,
                    Err(e) => {
                        return Err(e);
                    },
                },
            };
            format_int(o.wrapping_add(k))
        },
        Operation::Dec => {
            let o = match parse_int(m.text.as_slice()) {
                Ok(v) => v,
                Err(e) => {
                    return Err(e);
                },
            };
            let k = match &rv {
                Resolved::Num(i) => *i,
                Resolved::Bytes(t) => match parse_int(t.as_slice()) {
                    Ok(v) => v,
                    Err(e) => {
                        return Err(e);
                    },
                },
            };
            format_int(o.wrapping_sub(k))
        },
        Operation::Mul => {
            let o = match parse_int(m.text.as_slice()) {
                Ok(v) => v,
                Err(e) => {
                    return Err(e);
                },
            };
            let k = match &rv {
                Resolved::Num(i) => *i,
                Resolved::Bytes(t) => match parse_int(t.as_slice()) {
                    Ok(v) => v,
                    Err(e) => {
                        return Err(e);
                    },
                },
            };
            format_int(o.wrapping_mul(k))
        },
        Operation::Div => {
            let k = match &rv {
                Resolved::Num(i) => *i,
                Resolved::Bytes(t) => match parse_int(t.as_slice()) {
                    Ok(v) => v,
                    Err(e) => {
                        return Err(e);
                    },
                },
            };
            if k == 0 {
                return Err(RegopError::new(ErrorKind::DivisionByZero, "division by zero"));
            }
            let o = match parse_int(m.text.as_slice()) {
                Ok(v) => v,
                Err(e) => {
                    return Err(e);
                },
            };
            format_int(div_isize(o, k))
        },
        Operation::Replace => render_resolved(rv),
        Operation::Swap => render_resolved(rv),
        Operation::Del => Vec::new(),
        Operation::Append => {
            let mut v = vstd::slice::slice_to_vec(m.text.as_slice());
            let mut tail = render_resolved(rv);
            v.append(&mut tail);
            v
        },
        Operation::Prepend => {
            let mut v = render_resolved(rv);
            let mut tail = vstd::slice::slice_to_vec(m.text.as_slice());
            v.append(&mut tail);
            v
        },
        Operation::Upper => upper_bytes(m.text.as_slice()),
        Operation::Lower => lower_bytes(m.text.as_slice()),
    };
    let ed = Edit { start: m.start, end: m.end, new };
    proof {
        assert(ed.model() == (m.key().0, m.key().1, ed.new@));
        if matches!(op.op, Operation::Del) {
            assert(ed.new@ =~= Seq::<u8>::empty());
        }
    }
    Ok(ed)
}

/// The edits a non-swap operator produces over the first `k` matches of
/// its target group; the first failing match aborts.
pub open spec fn regular_edits_upto(
    op: Operator,
    caps: Seq<Capture>,
    doc: Seq<u8>,
    spans: Seq<(int, int)>,
    k: int,
) -> Result<Seq<EditModel>, ErrorKind>
    decreases k,
{
    if k <= 0 {
        Ok(Seq::empty())
    } else {
        match regular_edits_upto(op, caps, doc, spans, k - 1) {
            Err(e) => Err(e),
            Ok(es) => match edit_for_spec(op, caps, doc, spans[k - 1]) {
                Err(e) => Err(e),
                Ok(e1) => Ok(es.push(e1)),
            },
        }
    }
}

/// The edits a non-swap operator produces: one per match of its target
/// group, in order.
pub open spec fn regular_edits_spec(op: Operator, caps: Seq<Capture>, doc: Seq<u8>) -> Result<
    Seq<EditModel>,
    ErrorKind,
> {
    let spans = all_group_spans(caps, doc, op.target@);
    regular_edits_upto(op, caps, doc, spans, spans.len() as int)
}

proof fn lemma_regular_upto_err(
    op: Operator,
    caps: Seq<Capture>,
    doc: Seq<u8>,
    spans: Seq<(int, int)>,
    k: int,
    j: int,
)
    requires
        0 <= k <= j,
        regular_edits_upto(op, caps, doc, spans, k) is Err,
    ensures
        regular_edits_upto(op, caps, doc, spans, j) == regular_edits_upto(op, caps, doc, spans, k),
    decreases j,
{
    if j > k {
        lemma_regular_upto_err(op, caps, doc, spans, k, j - 1);
    }
}

/// The group name a swap parameter designates.
pub open spec fn swap_target_name(value: Param) -> Seq<u8> {
    match value {
        Param::Text(s) => s@,
        Param::Group(c) => c@,
        Param::Int(i) => int_to_dec(i as int),
    }
}

/// The paired edits of the first `k` swap pairs: the source span
/// receives the target's text and the target span the source's, both
/// computed from the document before any edit.
pub open spec fn swap_edits_upto(
    doc: Seq<u8>,
    src: Seq<(int, int)>,
    tgt: Seq<(int, int)>,
    k: int,
) -> Seq<EditModel>
    decreases k,
{
    if k <= 0 {
        Seq::empty()
    } else {
        swap_edits_upto(doc, src, tgt, k - 1).push(
            (src[k - 1].0, src[k - 1].1, doc.subrange(tgt[k - 1].0, tgt[k - 1].1)),
        ).push((tgt[k - 1].0, tgt[k - 1].1, doc.subrange(src[k - 1].0, src[k - 1].1)))
    }
}

/// The edits a swap operator produces, pairing the two groups' matches
/// positionally; fails when the match counts differ.
pub open spec fn swap_edits_spec(op: Operator, caps: Seq<Capture>, doc: Seq<u8>) -> Result<
    Seq<EditModel>,
    ErrorKind,
> {
    let src = all_group_spans(caps, doc, op.target@);
    let tgt = all_group_spans(caps, doc, swap_target_name(op.value));
    if src.len() != tgt.len() {
        Err(ErrorKind::SwapArityMismatch)
    } else {
        Ok(swap_edits_upto(doc, src, tgt, src.len() as int))
    }
}

/// The edits one operator produces.
pub open spec fn op_edits_spec(op: Operator, caps: Seq<Capture>, doc: Seq<u8>) -> Result<
    Seq<EditModel>,
    ErrorKind,
> {
    if op.op is Swap {
        swap_edits_spec(op, caps, doc)
    } else {
        regular_edits_spec(op, caps, doc)
    }
}

/// The edits of the first `k` operators, concatenated; the first
/// failing operator aborts the plan.
pub open spec fn plan_upto(ops: Seq<Operator>, caps: Seq<Capture>, doc: Seq<u8>, k: int) -> Result<
    Seq<EditModel>,
    ErrorKind,
>
    decreases k,
{
    if k <= 0 {
        Ok(Seq::empty())
    } else {
        match plan_upto(ops, caps, doc, k - 1) {
            Err(e) => Err(e),
            Ok(es) => match op_edits_spec(ops[k - 1], caps, doc) {
                Err(e) => Err(e),
                Ok(more) => Ok(es + more),
            },
        }
    }
}

/// The edits of all operators, in operator order.
pub open spec fn plan_edits_spec(ops: Seq<Operator>, caps: Seq<Capture>, doc: Seq<u8>) -> Result<
    Seq<EditModel>,
    ErrorKind,
> {
    plan_upto(ops, caps, doc, ops.len() as int)
}

proof fn lemma_plan_upto_err(ops: Seq<Operator>, caps: Seq<Capture>, doc: Seq<u8>, k: int, j: int)
    requires
        0 <= k <= j,
        plan_upto(ops, caps, doc, k) is Err,
    ensures
        plan_upto(ops, caps, doc, j) == plan_upto(ops, caps, doc, k),
    decreases j,
{
    if j > k {
        lemma_plan_upto_err(ops, caps, doc, k, j - 1);
    }
}

/// Appends the edits of a swap operator: collects the matches of its
/// target group and of the referenced group, pairs them positionally,
/// and emits two edits per pair, a true exchange computed from the
/// pre-edit text of both spans.  Fails with `SwapArityMismatch` when
/// the two sides matched a different number of times.
pub fn collect_swap_edits(
    op: &Operator,
    regex: &[Capture],
    content: &[u8],
    edits: &mut Vec<Edit>,
) -> (r: Result<(), RegopError>)
    requires
        op.op is Swap,
    ensures
        match r {
            Ok(()) => {
                &&& swap_edits_spec(*op, regex@, content@) is Ok
                &&& models_of(final(edits)@) == models_of(old(edits)@) + swap_edits_spec(
                    *op,
                    regex@,
                    content@,
                )->Ok_0
                &&& final(edits)@.len() >= old(edits)@.len()
                &&& forall|i: int|
                    old(edits)@.len() <= i < final(edits)@.len()
                        ==> (#[trigger] final(edits)@[i]).wf()
                &&& forall|i: int|
                    0 <= i < old(edits)@.len() ==> final(edits)@[i] == old(edits)@[i]
            },
            Err(e) => {
                &&& swap_edits_spec(*op, regex@, content@) == Err::<Seq<EditModel>, ErrorKind>(
                    e.kind,
                )
                &&& final(edits)@ == old(edits)@
            },
        },
{
    let src = collect_group_matches(regex, content, op.target.as_slice());
    let tname: Vec<u8> = match &op.value {
        Param::Text(s) => vstd::slice::slice_to_vec(s.as_slice()),
        Param::Group(c) => vstd::slice::slice_to_vec(c.as_slice()),
        Param::Int(i) => format_int(*i),
    };
    proof {
        assert(tname@ == swap_target_name(op.value));
    }
    let tgt = collect_group_matches(regex, content, tname.as_slice());
    let ghost src_keys = all_group_spans(regex@, content@, op.target@);
    let ghost tgt_keys = all_group_spans(regex@, content@, swap_target_name(op.value));
    if src.len() != tgt.len() {
        let mut e = RegopError::new(ErrorKind::SwapArityMismatch, "cannot swap '");
        e.push_detail(op.target.as_slice());
        e.push_detail("' and '".as_bytes());
        e.push_detail(tname.as_slice());
        e.push_detail("': different number of matches (".as_bytes());
        e.push_detail(crate::ints::format_usize(src.len()).as_slice());
        e.push_detail(" vs ".as_bytes());
        e.push_detail(crate::ints::format_usize(tgt.len()).as_slice());
        e.push_detail(")".as_bytes());
        return Err(e);
    }
    let n = src.len();
    let ghost base = edits@;
    let mut i: usize = 0;
    while i < n
        invariant
            0 <= i <= n,
            n == src@.len() == tgt@.len(),
            n == src_keys.len() == tgt_keys.len(),
            forall|k: int|
                0 <= k < n ==> (#[trigger] src@[k]).key() == src_keys[k] && src@[k].wf(content@),
            forall|k: int|
                0 <= k < n ==> (#[trigger] tgt@[k]).key() == tgt_keys[k] && tgt@[k].wf(content@),
            edits@.len() == base.len() + 2 * i,
            forall|k: int| 0 <= k < base.len() ==> edits@[k] == base[k],
            models_of(edits@) == models_of(base) + swap_edits_upto(
                content@,
                src_keys,
                tgt_keys,
                i as int,
            ),
            forall|k: int| base.len() <= k < edits@.len() ==> (#[trigger] edits@[k]).wf(),
        decreases n - i,
    {
        let s = &src[i];
        let t = &tgt[i];
        let ghost prev = edits@;
        let e1 = Edit { start: s.start, end: s.end, new: vstd::slice::slice_to_vec(
            t.text.as_slice(),
        ) };
        let e2 = Edit { start: t.start, end: t.end, new: vstd::slice::slice_to_vec(
            s.text.as_slice(),
        ) };
        proof {
            assert(s.text@ == content@.subrange(src_keys[i as int].0, src_keys[i as int].1));
            assert(t.text@ == content@.subrange(tgt_keys[i as int].0, tgt_keys[i as int].1));
            assert(e1.model() == (
                src_keys[i as int].0,
                src_keys[i as int].1,
                content@.subrange(tgt_keys[i as int].0, tgt_keys[i as int].1),
            ));
            assert(e2.model() == (
                tgt_keys[i as int].0,
                tgt_keys[i as int].1,
                content@.subrange(src_keys[i as int].0, src_keys[i as int].1),
            ));
        }
        edits.push(e1);
        edits.push(e2);
        proof {
            assert(models_of(edits@) =~= models_of(prev).push(e1.model()).push(e2.model()));
            assert(swap_edits_upto(content@, src_keys, tgt_keys, i + 1) == swap_edits_upto(
                content@,
                src_keys,
                tgt_keys,
                i as int,
            ).push(e1.model()).push(e2.model()));
            assert(models_of(edits@) =~= models_of(base) + swap_edits_upto(
                content@,
                src_keys,
                tgt_keys,
                i + 1,
            ));
        }
        i = i + 1;
    }
    proof {
        assert(swap_edits_spec(*op, regex@, content@) == Ok::<Seq<EditModel>, ErrorKind>(
            swap_edits_upto(content@, src_keys, tgt_keys, n as int),
        ));
    }
    Ok(())
}

/// Appends the edits of a non-swap operator: one per match of its
/// target group across all patterns, in order; the first failing match
/// aborts.
#[verifier::rlimit(30)]
pub fn collect_regular_edits(
    op: &Operator,
    regex: &[Capture],
    content: &[u8],
    captures: &CaptureTable,
    edits: &mut Vec<Edit>,
) -> (r: Result<(), RegopError>)
    requires
        !(op.op is Swap),
        captures.wf(regex@, content@),
        op.value is Group ==> captures.has_entry(op.value->Group_0@) == (all_group_spans(
            regex@,
            content@,
            op.value->Group_0@,
        ).len() > 0),
    ensures
        match r {
            Ok(()) => {
                &&& regular_edits_spec(*op, regex@, content@) is Ok
                &&& models_of(final(edits)@) == models_of(old(edits)@) + regular_edits_spec(
                    *op,
                    regex@,
                    content@,
                )->Ok_0
                &&& final(edits)@.len() >= old(edits)@.len()
                &&& forall|i: int|
                    old(edits)@.len() <= i < final(edits)@.len()
                        ==> (#[trigger] final(edits)@[i]).wf()
                &&& forall|i: int|
                    0 <= i < old(edits)@.len() ==> final(edits)@[i] == old(edits)@[i]
            },
            Err(e) => regular_edits_spec(*op, regex@, content@) == Err::<Seq<EditModel>, ErrorKind>(
                e.kind,
            ),
        },
{
    let spans = collect_group_matches(regex, content, op.target.as_slice());
    let ghost keys = all_group_spans(regex@, content@, op.target@);
    let n = spans.len();
    let ghost base = edits@;
    proof {
        assert(models_of(base).skip(base.len() as int) =~= Seq::<EditModel>::empty());
        assert(models_of(base).take(base.len() as int) =~= models_of(base));
    }
    let mut i: usize = 0;
    while i < n
        invariant
            0 <= i <= n,
            n == spans@.len() == keys.len(),
            keys == all_group_spans(regex@, content@, op.target@),
            forall|k: int|
                0 <= k < n ==> (#[trigger] spans@[k]).key() == keys[k] && spans@[k].wf(content@),
            captures.wf(regex@, content@),
            op.value is Group ==> captures.has_entry(op.value->Group_0@) == (all_group_spans(
                regex@,
                content@,
                op.value->Group_0@,
            ).len() > 0),
            !(op.op is Swap),
            edits@.len() == base.len() + i,
            forall|k: int| 0 <= k < base.len() ==> edits@[k] == base[k],
            regular_edits_upto(*op, regex@, content@, keys, i as int) == Ok::<
                Seq<EditModel>,
                ErrorKind,
            >(models_of(edits@).skip(base.len() as int)),
            models_of(edits@).take(base.len() as int) == models_of(base),
            forall|k: int| base.len() <= k < edits@.len() ==> (#[trigger] edits@[k]).wf(),
        decreases n - i,
    {
        let m = &spans[i];
        match edit(op, m, captures, Ghost(regex@), Ghost(content@)) {
            Ok(ed) => {
                edits.push(ed);
                proof {
                    assert(models_of(edits@).skip(base.len() as int) =~= regular_edits_upto(
                        *op,
                        regex@,
                        content@,
                        keys,
                        i as int,
                    )->Ok_0.push(ed.model()));
                    assert(models_of(edits@).take(base.len() as int) =~= models_of(base));
                }
            },
            Err(e) => {
                proof {
                    assert(spans@[i as int].key() == keys[i as int]);
                    assert(edit_for_spec(*op, regex@, content@, keys[i as int])
                        == Err::<EditModel, ErrorKind>(e.kind));
                    assert(regular_edits_upto(*op, regex@, content@, keys, i + 1)
                        == Err::<Seq<EditModel>, ErrorKind>(e.kind));
                    lemma_regular_upto_err(*op, regex@, content@, keys, i + 1, n as int);
                    assert(regular_edits_upto(*op, regex@, content@, keys, keys.len() as int)
                        == Err::<Seq<EditModel>, ErrorKind>(e.kind));
                    assert(regular_edits_spec(*op, regex@, content@) == regular_edits_upto(
                        *op,
                        regex@,
                        content@,
                        keys,
                        keys.len() as int,
                    ));
                    assert(regular_edits_spec(*op, regex@, content@) == Err::<
                        Seq<EditModel>,
                        ErrorKind,
                    >(e.kind));
                }
                return Err(e);
            },
        }
        i = i + 1;
    }
    proof {
        assert(models_of(edits@) =~= models_of(base) + models_of(edits@).skip(base.len() as int));
    }
    Ok(())
}

/// Collects the edits of every operator against the document, in
/// operator order; the first failing operator aborts the plan.
pub fn collect_edits(
    ops: &[Operator],
    regex: &[Capture],
    content: &[u8],
    captures: &CaptureTable,
) -> (r: Result<Vec<Edit>, RegopError>)
    requires
        captures.wf(regex@, content@),
        forall|n: Seq<u8>| #[trigger] captures.has_entry(n) == is_value_name(ops@, n),
        forall|n: Seq<u8>|
            #[trigger] is_value_name(ops@, n) ==> all_group_spans(regex@, content@, n).len() > 0,
    ensures
        match r {
            Ok(es) => {
                &&& plan_edits_spec(ops@, regex@, content@) == Ok::<Seq<EditModel>, ErrorKind>(
                    models_of(es@),
                )
                &&& forall|i: int| 0 <= i < es@.len() ==> (#[trigger] es@[i]).wf()
            },
            Err(e) => plan_edits_spec(ops@, regex@, content@) == Err::<Seq<EditModel>, ErrorKind>(
                e.kind,
            ),
        },
{
    let count = ops.len();
    let mut edits: Vec<Edit> = Vec::new();
    proof {
        assert(models_of(edits@) =~= Seq::<EditModel>::empty());
    }
    let mut i: usize = 0;
    while i < count
        invariant
            0 <= i <= count,
            count == ops@.len(),
            captures.wf(regex@, content@),
            forall|n: Seq<u8>| #[trigger] captures.has_entry(n) == is_value_name(ops@, n),
            forall|n: Seq<u8>|
                #[trigger] is_value_name(ops@, n) ==> all_group_spans(regex@, content@, n).len()
                    > 0,
            plan_upto(ops@, regex@, content@, i as int) == Ok::<Seq<EditModel>, ErrorKind>(
                models_of(edits@),
            ),
            forall|k: int| 0 <= k < edits@.len() ==> (#[trigger] edits@[k]).wf(),
        decreases count - i,
    {
        let op = &ops[i];
        let ghost before = edits@;
        let is_swap = matches!(op.op, Operation::Swap);
        if is_swap {
            match collect_swap_edits(op, regex, content, &mut edits) {
                Ok(()) => {
                    proof {
                        assert(op_edits_spec(ops@[i as int], regex@, content@) is Ok);
                        assert(models_of(edits@) == models_of(before) + op_edits_spec(
                            ops@[i as int],
                            regex@,
                            content@,
                        )->Ok_0);
                        assert(plan_upto(ops@, regex@, content@, i + 1) == Ok::<
                            Seq<EditModel>,
                            ErrorKind,
                        >(models_of(edits@)));
                    }
                },
                Err(e) => {
                    proof {
                        assert(plan_upto(ops@, regex@, content@, i + 1)
                            == Err::<Seq<EditModel>, ErrorKind>(e.kind));
                        lemma_plan_upto_err(ops@, regex@, content@, i + 1, count as int);
                    }
                    return Err(e);
                },
            }
        } else {
            proof {
                if op.value is Group {
                    let g = op.value->Group_0@;
                    assert(is_value_name(ops@, g)) by {
                        assert(referenced_name_of(ops@[i as int]) == Some(g));
                    }
                }
            }
            match collect_regular_edits(op, regex, content, captures, &mut edits) {
                Ok(()) => {
                    proof {
                        assert(op_edits_spec(ops@[i as int], regex@, content@) is Ok);
                        assert(models_of(edits@) == models_of(before) + op_edits_spec(
                            ops@[i as int],
                            regex@,
                            content@,
                        )->Ok_0);
                        assert(plan_upto(ops@, regex@, content@, i + 1) == Ok::<
                            Seq<EditModel>,
                            ErrorKind,
                        >(models_of(edits@)));
                    }
                },
                Err(e) => {
                    proof {
                        assert(plan_upto(ops@, regex@, content@, i + 1)
                            == Err::<Seq<EditModel>, ErrorKind>(e.kind));
                        lemma_plan_upto_err(ops@, regex@, content@, i + 1, count as int);
                    }
                    return Err(e);
                },
            }
        }
        i = i + 1;
    }
    Ok(edits)
}

/// Disambiguation: the candidate the resolver picks is at least as near
/// to the match as every other candidate, and strictly nearer than
/// every earlier one — the first of equally near candidates wins.
pub proof fn lemma_best_is_nearest(spans: Seq<(int, int)>, m: (int, int))
    requires
        spans.len() > 0,
    ensures
        0 <= best_of(spans, m) < spans.len(),
        forall|i: int|
            0 <= i < spans.len() ==> proximity(m, spans[best_of(spans, m)]) <= proximity(
                m,
                #[trigger] spans[i],
            ),
        forall|i: int|
            0 <= i < best_of(spans, m) ==> proximity(m, #[trigger] spans[i]) > proximity(
                m,
                spans[best_of(spans, m)],
            ),
{
    lemma_best_prefix_props(spans, m, spans.len() as int);
}

proof fn lemma_best_prefix_props(spans: Seq<(int, int)>, m: (int, int), k: int)
    requires
        1 <= k <= spans.len(),
    ensures
        0 <= best_prefix(spans, m, k) < k,
        forall|i: int|
            0 <= i < k ==> proximity(m, spans[best_prefix(spans, m, k)]) <= proximity(
                m,
                #[trigger] spans[i],
            ),
        forall|i: int|
            0 <= i < best_prefix(spans, m, k) ==> proximity(m, #[trigger] spans[i]) > proximity(
                m,
                spans[best_prefix(spans, m, k)],
            ),
    decreases k,
{
    if k > 1 {
        lemma_best_prefix_props(spans, m, k - 1);
    }
}

/// Division by zero: a divide operator with a literal zero parameter
/// fails with `DivisionByZero` as soon as its target group matches, so
/// no edit of it is ever planned.
pub proof fn lemma_div_by_zero(op: Operator, caps: Seq<Capture>, doc: Seq<u8>)
    requires
        op.op is Div,
        op.value is Int && op.value->Int_0 == 0,
        all_group_spans(caps, doc, op.target@).len() > 0,
    ensures
        regular_edits_spec(op, caps, doc) == Err::<Seq<EditModel>, ErrorKind>(
            ErrorKind::DivisionByZero,
        ),
{
    let spans = all_group_spans(caps, doc, op.target@);
    assert(edit_for_spec(op, caps, doc, spans[0]) == Err::<EditModel, ErrorKind>(
        ErrorKind::DivisionByZero,
    ));
    assert(regular_edits_upto(op, caps, doc, spans, 0) == Ok::<Seq<EditModel>, ErrorKind>(
        Seq::empty(),
    ));
    assert(regular_edits_upto(op, caps, doc, spans, 1) == Err::<Seq<EditModel>, ErrorKind>(
        ErrorKind::DivisionByZero,
    ));
    lemma_regular_upto_err(op, caps, doc, spans, 1, spans.len() as int);
}

/// Swap symmetry for one matched pair, in the engine's own terms:
/// applying the two edits of a swap to two disjoint spans, and then the
/// two edits of a second swap at the spans as they lie in the rewritten
/// document, returns the original document byte for byte.
pub proof fn lemma_swap_round_trip_single(doc: Seq<u8>, a: (int, int), b: (int, int))
    requires
        0 <= a.0 <= a.1 <= b.0 <= b.1 <= doc.len(),
    ensures
        ({
            let d1 = crate::edits::splice_all(
                doc,
                crate::edits::sort_edits(swap_edits_upto(doc, seq![a], seq![b], 1)),
            );
            let delta = (b.1 - b.0) - (a.1 - a.0);
            let a2 = (a.0, a.1 + delta);
            let b2 = (b.0 + delta, b.1);
            let d2 = crate::edits::splice_all(
                d1,
                crate::edits::sort_edits(swap_edits_upto(d1, seq![a2], seq![b2], 1)),
            );
            d2 == doc
        }),
{
    let delta = (b.1 - b.0) - (a.1 - a.0);
    let a2 = (a.0, a.1 + delta);
    let b2 = (b.0 + delta, b.1);
    crate::edits::lemma_swap_pair_round_trip(doc, a, b);
    let ta = doc.subrange(a.0, a.1);
    let tb = doc.subrange(b.0, b.1);
    let e1 = (a.0, a.1, tb);
    let e2 = (b.0, b.1, ta);
    lemma_pair_in_order(e1, e2);
    assert(swap_edits_upto(doc, seq![a], seq![b], 0) == Seq::<EditModel>::empty());
    assert(seq![a][0] == a && seq![b][0] == b);
    assert(swap_edits_upto(doc, seq![a], seq![b], 1) =~= seq![e1, e2]);
    lemma_two_splices(doc, e1, e2);
    let d1 = crate::edits::splice_all(doc, seq![e1, e2]);
    assert(d1 == crate::edits::splice_one(crate::edits::splice_one(doc, e2), e1));
    assert(d1.len() == doc.len());
    let f1 = (a2.0, a2.1, d1.subrange(b2.0, b2.1));
    let f2 = (b2.0, b2.1, d1.subrange(a2.0, a2.1));
    lemma_pair_in_order(f1, f2);
    assert(swap_edits_upto(d1, seq![a2], seq![b2], 0) == Seq::<EditModel>::empty());
    assert(seq![a2][0] == a2 && seq![b2][0] == b2);
    assert(swap_edits_upto(d1, seq![a2], seq![b2], 1) =~= seq![f1, f2]);
    lemma_two_splices(d1, f1, f2);
    let d2 = crate::edits::splice_all(d1, seq![f1, f2]);
    assert(d2 == crate::edits::splice_one(crate::edits::splice_one(d1, f2), f1));
}

proof fn lemma_two_splices(doc: Seq<u8>, e1: EditModel, e2: EditModel)
    ensures
        crate::edits::splice_all(doc, seq![e1, e2]) == crate::edits::splice_one(
            crate::edits::splice_one(doc, e2),
            e1,
        ),
{
    let s = seq![e1, e2];
    assert(s.drop_last() =~= seq![e1]);
    assert(seq![e1].drop_last() =~= Seq::<EditModel>::empty());
    let x2 = crate::edits::splice_one(doc, e2);
    assert(crate::edits::splice_all(doc, s) == crate::edits::splice_all(x2, seq![e1]));
    let x1 = crate::edits::splice_one(x2, e1);
    assert(crate::edits::splice_all(x2, seq![e1]) == crate::edits::splice_all(
        x1,
        Seq::<EditModel>::empty(),
    ));
    assert(crate::edits::splice_all(x1, Seq::<EditModel>::empty()) == x1);
}

proof fn lemma_pair_in_order(e1: EditModel, e2: EditModel)
    requires
        e1.0 <= e2.0,
    ensures
        crate::edits::sort_edits(seq![e1, e2]) == seq![e1, e2],
{
    let s = seq![e1, e2];
    assert(s.drop_last() =~= seq![e1]);
    assert(seq![e1].drop_last() =~= Seq::<EditModel>::empty());
    assert(crate::edits::sort_edits(Seq::<EditModel>::empty()) == Seq::<EditModel>::empty());
    assert(crate::edits::insert_sorted(e1, Seq::<EditModel>::empty()) =~= seq![e1]);
    assert(crate::edits::sort_edits(seq![e1]) =~= seq![e1]);
    assert(crate::edits::insert_sorted(e2, seq![e1]) =~= seq![e1].push(e2));
    assert(crate::edits::sort_edits(s) =~= s);
}

/// Round-trip arithmetic: incrementing a numeral by `k` and then
/// decrementing the result by `k` yields the numeral's canonical
/// decimal form, whatever the numeral and whatever `k`.
pub proof fn lemma_inc_dec_round_trip(old_text: Seq<u8>, k: isize, rv1: ResolvedParam, rv2: ResolvedParam)
    requires
        parse_int_spec(old_text) is Some,
        resolved_num(rv1) == Some(k as int),
        resolved_num(rv2) == Some(k as int),
    ensures
        op_new_text(Operation::Inc, rv1, old_text) is Ok,
        op_new_text(
            Operation::Dec,
            rv2,
            op_new_text(Operation::Inc, rv1, old_text)->Ok_0,
        ) == Ok::<Seq<u8>, ErrorKind>(int_to_dec(parse_int_spec(old_text)->Some_0)),
{
    let v = parse_int_spec(old_text)->Some_0;
    let v1 = isize_specs::wrapping_add(v as isize, k);
    crate::ints::lemma_dec_round_trip(v1 as int);
    let t1 = int_to_dec(v1 as int);
    assert(op_new_text(Operation::Inc, rv1, old_text) == Ok::<Seq<u8>, ErrorKind>(t1));
    assert(parse_int_spec(t1) == Some(v1 as int));
    let v2 = isize_specs::wrapping_sub(v1, k);
    assert(v2 == v as isize) by {
        assert(usize::MAX as int + 1 == (isize::MAX as int) - (isize::MIN as int) + 1);
    }
    assert(op_new_text(Operation::Dec, rv2, t1) == Ok::<Seq<u8>, ErrorKind>(int_to_dec(v2 as int)));
    assert(int_to_dec(v2 as int) == int_to_dec(v));
}

} // verus!
