//! Compiled patterns and the regular-expression engine boundary.
//!
//! The regex engine is outside code.  The library names what it computes
//! — whether a source compiles, which named groups a pattern declares,
//! and the spans of a group over a document — and every contract in the
//! crate speaks of those names.

use vstd::prelude::*;

verus! {

use crate::errors::ErrorKind;
use crate::text::bytes_eq;

#[verifier::external_type_specification]
#[verifier::external_body]
pub struct ExRegex(regex::bytes::Regex);

#[verifier::external_type_specification]
#[verifier::external_body]
pub struct ExRegexError(regex::Error);

/// Whether the regex engine accepts `src` as a pattern.  Acceptance is a
/// function of the source text alone.
pub uninterp spec fn pattern_compiles(src: Seq<char>) -> bool;

/// The names of the named capture groups a compiled pattern declares, in
/// the order the engine reports them.
pub uninterp spec fn regex_groups(re: regex::bytes::Regex) -> Seq<Seq<u8>>;

/// The `(start, end)` byte spans of capture group `name` over the
/// successive non-overlapping matches of `re` in `hay`, in match order:
/// one entry for each match of the whole pattern in which the group
/// participated.
pub uninterp spec fn group_spans(re: regex::bytes::Regex, name: Seq<u8>, hay: Seq<u8>) -> Seq<
    (int, int),
>;

/// One match of one capture group: its half-open byte span in the
/// document, and the bytes it covers.
pub struct Span {
    /// Byte offset of the first covered byte.
    pub start: usize,
    /// Byte offset one past the last covered byte.
    pub end: usize,
    /// The covered bytes.
    pub text: Vec<u8>,
}

impl Span {
    /// The span as a pair of offsets.
    pub open spec fn key(self) -> (int, int) {
        (self.start as int, self.end as int)
    }

    /// The span lies within `doc` and `text` holds the spanned bytes.
    pub open spec fn wf(self, doc: Seq<u8>) -> bool {
        &&& self.start <= self.end <= doc.len()
        &&& self.text@ == doc.subrange(self.start as int, self.end as int)
    }
}

/// Relies on `regex::bytes::Regex::new`: compiles the pattern source,
/// failing exactly when the engine rejects it.
#[verifier::external_body]
fn compile_regex(src: &str) -> (r: Result<regex::bytes::Regex, regex::Error>)
    ensures
        r is Ok <==> pattern_compiles(src@),
{
    regex::bytes::Regex::new(src)
}

/// Relies on `regex::bytes::Regex::capture_names`: the engine reports one
/// entry per capture group, named groups carrying their name; a pattern
/// cannot declare the same group name twice, so the names are distinct.
#[verifier::external_body]
fn capture_group_names(re: &regex::bytes::Regex) -> (r: Vec<Vec<u8>>)
    ensures
        r.deep_view() == regex_groups(*re),
        forall|i: int, j: int|
            0 <= i < j < r@.len() ==> #[trigger] r@[i]@ != #[trigger] r@[j]@,
{
    re.capture_names().flatten().map(|n| n.as_bytes().to_vec()).collect()
}

/// Relies on `regex::bytes::Regex::captures_iter` and `Captures::name`:
/// walks the successive non-overlapping matches of `re` in `hay` in
/// order and returns, for each match in which group `name` participated,
/// the group's span and covered bytes.  The engine guarantees that the
/// reported offsets satisfy `start <= end` and index into the haystack.
#[verifier::external_body]
fn find_group_matches(re: &regex::bytes::Regex, name: &[u8], hay: &[u8]) -> (r: Vec<Span>)
    ensures
        r@.len() == group_spans(*re, name@, hay@).len(),
        forall|i: int|
            0 <= i < r@.len() ==> (#[trigger] r@[i]).key() == group_spans(*re, name@, hay@)[i]
                && r@[i].wf(hay@),
{
    let mut out = Vec::new();
    if let Ok(n) = core::str::from_utf8(name) {
        for caps in re.captures_iter(hay) {
            if let Some(m) = caps.name(n) {
                out.push(Span { start: m.start(), end: m.end(), text: m.as_bytes().to_vec() });
            }
        }
    }
    out
}

/// A compiled pattern and the named capture groups it declares.
#[derive(Debug)]
pub struct Capture {
    /// The compiled regular expression.
    pub regex: regex::bytes::Regex,
    /// The names of the pattern's named capture groups.
    pub names: Vec<Vec<u8>>,
}

impl Capture {
    /// The names list is exactly what the engine reports for the pattern.
    pub open spec fn wf(self) -> bool {
        self.names.deep_view() == regex_groups(self.regex)
    }

    /// True when the pattern declares a group called `n`.
    pub open spec fn declares(self, n: Seq<u8>) -> bool {
        exists|j: int| 0 <= j < self.names@.len() && (#[trigger] self.names@[j])@ == n
    }

    /// Compiles `src` into a pattern; fails with `InvalidPattern` exactly
    /// when the engine rejects the source.
    pub fn from_str(src: &str) -> (r: Result<Capture, crate::errors::RegopError>)
        ensures
            match r {
                Ok(c) => pattern_compiles(src@) && c.wf(),
                Err(e) => !pattern_compiles(src@) && e.kind == ErrorKind::InvalidPattern,
            },
    {
        match compile_regex(src) {
            Ok(re) => {
                let names = capture_group_names(&re);
                Ok(Capture { regex: re, names })
            },
            Err(_) => {
                let mut e = crate::errors::RegopError::new(ErrorKind::InvalidPattern, "not a valid regex: ");
                e.push_detail(src.as_bytes());
                Err(e)
            },
        }
    }

    /// True when the pattern declares a group called `n`.
    pub fn declares_name(&self, n: &[u8]) -> (r: bool)
        ensures
            r == self.declares(n@),
    {
        let count = self.names.len();
        let mut j: usize = 0;
        while j < count
            invariant
                0 <= j <= count,
                count == self.names@.len(),
                forall|k: int| 0 <= k < j ==> (#[trigger] self.names@[k])@ != n@,
            decreases count - j,
        {
            if bytes_eq(self.names[j].as_slice(), n) {
                return true;
            }
            j = j + 1;
        }
        false
    }
}

/// All spans of group `n` across the patterns that declare it, in
/// pattern order and then in match order within each pattern.
pub open spec fn all_group_spans(caps: Seq<Capture>, doc: Seq<u8>, n: Seq<u8>) -> Seq<(int, int)>
    decreases caps.len(),
{
    if caps.len() == 0 {
        Seq::empty()
    } else {
        all_group_spans(caps.drop_last(), doc, n) + (if caps.last().declares(n) {
            group_spans(caps.last().regex, n, doc)
        } else {
            Seq::empty()
        })
    }
}

/// Collects every match of group `n` across all patterns, with its span
/// and covered bytes, in pattern order then match order.
pub fn collect_group_matches(caps: &[Capture], doc: &[u8], n: &[u8]) -> (r: Vec<Span>)
    ensures
        r@.len() == all_group_spans(caps@, doc@, n@).len(),
        forall|i: int|
            0 <= i < r@.len() ==> (#[trigger] r@[i]).key() == all_group_spans(caps@, doc@, n@)[i]
                && r@[i].wf(doc@),
{
    let count = caps.len();
    let mut out: Vec<Span> = Vec::new();
    let mut ci: usize = 0;
    while ci < count
        invariant
            0 <= ci <= count,
            count == caps@.len(),
            out@.len() == all_group_spans(caps@.take(ci as int), doc@, n@).len(),
            forall|i: int|
                0 <= i < out@.len() ==> (#[trigger] out@[i]).key() == all_group_spans(
                    caps@.take(ci as int),
                    doc@,
                    n@,
                )[i] && out@[i].wf(doc@),
        decreases count - ci,
    {
        let ghost prefix = all_group_spans(caps@.take(ci as int), doc@, n@);
        let cap = &caps[ci];
        if cap.declares_name(n) {
            let mut found = find_group_matches(&cap.regex, n, doc);
            let ghost fresh = found@;
            out.append(&mut found);
            proof {
                assert(caps@.take(ci + 1).drop_last() =~= caps@.take(ci as int));
                assert(caps@.take(ci + 1).last() == caps@[ci as int]);
                assert(all_group_spans(caps@.take(ci + 1), doc@, n@) == prefix + group_spans(
                    caps@[ci as int].regex,
                    n@,
                    doc@,
                ));
            }
        } else {
            proof {
                assert(caps@.take(ci + 1).drop_last() =~= caps@.take(ci as int));
                assert(caps@.take(ci + 1).last() == caps@[ci as int]);
                assert(all_group_spans(caps@.take(ci + 1), doc@, n@) =~= prefix);
            }
        }
        ci = ci + 1;
    }
    proof {
        assert(caps@.take(count as int) =~= caps@);
    }
    out
}

} // verus!
