//! Operators: the `<target>:operation[:parameter]` wire format, its
//! grammar, and the parsed instruction.
//!
//! The grammar is: a literal `<`, a target group name of one or more
//! bytes other than `>`, the two bytes `>:`, an operation keyword of one
//! or more bytes other than `:`, and an optional `:parameter`, where the
//! parameter runs to the next `:` or to the end of the string.  A raw
//! parameter is typed as an integer if it parses as one, as a group
//! reference if it has the shape `<name>`, and as literal text otherwise.

use vstd::prelude::*;

verus! {

use crate::errors::{ErrorKind, RegopError};
use crate::ints::parse_int_spec;
use crate::text::{copy_range, find_byte, find_byte_from, is_kw3, is_kw4, is_kw5, is_kw6, is_kw7,
    lemma_find_byte};
use vstd::string::StringSliceAdditionalSpecFns;

/// ASCII `<`.
pub const LT: u8 = 60;

/// ASCII `>`.
pub const GT: u8 = 62;

/// ASCII `:`.
pub const COLON: u8 = 58;

/// The operations an operator can apply to a captured value.
#[derive(Clone, Copy, Debug, PartialEq, Eq, Structural)]
pub enum Operation {
    /// Add to a number (default amount: 1).
    Inc,
    /// Subtract from a number (default amount: 1).
    Dec,
    /// Replace with a new value.
    Replace,
    /// Delete the captured value.
    Del,
    /// Exchange with another capture group, pairwise.
    Swap,
    /// Multiply a number, wrapping at the machine word.
    Mul,
    /// Divide a number, truncating toward zero.
    Div,
    /// Append text after the captured value.
    Append,
    /// Prepend text before the captured value.
    Prepend,
    /// Uppercase the captured value.
    Upper,
    /// Lowercase the captured value.
    Lower,
}

/// The parameter an operator consumes.
#[derive(Debug)]
pub enum Param {
    /// A literal integer.
    Int(isize),
    /// Literal text.
    Text(Vec<u8>),
    /// A reference to another capture group, by name.
    Group(Vec<u8>),
}

/// One parsed instruction: the group it rewrites, the operation, and the
/// operation's parameter.
#[derive(Debug)]
pub struct Operator {
    /// The name of the capture group to operate on.
    pub target: Vec<u8>,
    /// The operation to perform.
    pub op: Operation,
    /// The parameter for the operation.
    pub value: Param,
}

/// The keyword `inc`.
pub open spec fn kw_inc() -> Seq<u8> {
    seq![105u8, 110u8, 99u8]
}

/// The keyword `dec`.
pub open spec fn kw_dec() -> Seq<u8> {
    seq![100u8, 101u8, 99u8]
}

/// The keyword `rep`.
pub open spec fn kw_rep() -> Seq<u8> {
    seq![114u8, 101u8, 112u8]
}

/// The keyword `del`.
pub open spec fn kw_del() -> Seq<u8> {
    seq![100u8, 101u8, 108u8]
}

/// The keyword `swap`.
pub open spec fn kw_swap() -> Seq<u8> {
    seq![115u8, 119u8, 97u8, 112u8]
}

/// The keyword `mul`.
pub open spec fn kw_mul() -> Seq<u8> {
    seq![109u8, 117u8, 108u8]
}

/// The keyword `div`.
pub open spec fn kw_div() -> Seq<u8> {
    seq![100u8, 105u8, 118u8]
}

/// The keyword `append`.
pub open spec fn kw_append() -> Seq<u8> {
    seq![97u8, 112u8, 112u8, 101u8, 110u8, 100u8]
}

/// The keyword `prepend`.
pub open spec fn kw_prepend() -> Seq<u8> {
    seq![112u8, 114u8, 101u8, 112u8, 101u8, 110u8, 100u8]
}

/// The keyword `upper`.
pub open spec fn kw_upper() -> Seq<u8> {
    seq![117u8, 112u8, 112u8, 101u8, 114u8]
}

/// The keyword `lower`.
pub open spec fn kw_lower() -> Seq<u8> {
    seq![108u8, 111u8, 119u8, 101u8, 114u8]
}

/// The operation each keyword names.
pub open spec fn kw_to_op(kw: Seq<u8>) -> Option<Operation> {
    if kw == kw_inc() {
        Some(Operation::Inc)
    } else if kw == kw_dec() {
        Some(Operation::Dec)
    } else if kw == kw_rep() {
        Some(Operation::Replace)
    } else if kw == kw_del() {
        Some(Operation::Del)
    } else if kw == kw_swap() {
        Some(Operation::Swap)
    } else if kw == kw_mul() {
        Some(Operation::Mul)
    } else if kw == kw_div() {
        Some(Operation::Div)
    } else if kw == kw_append() {
        Some(Operation::Append)
    } else if kw == kw_prepend() {
        Some(Operation::Prepend)
    } else if kw == kw_upper() {
        Some(Operation::Upper)
    } else if kw == kw_lower() {
        Some(Operation::Lower)
    } else {
        None
    }
}

/// Operations that take no user parameter.
pub open spec fn takes_no_param(op: Operation) -> bool {
    op is Del || op is Upper || op is Lower
}

/// Operations whose parameter must be given explicitly.
pub open spec fn param_required(op: Operation) -> bool {
    !(op is Inc || op is Dec) && !takes_no_param(op)
}

/// Index of the `>` that closes the target name.
pub open spec fn opr_gt(s: Seq<u8>) -> int {
    find_byte(s, 1, GT)
}

/// Index one past the operation keyword.
pub open spec fn opr_kw_end(s: Seq<u8>) -> int {
    find_byte(s, opr_gt(s) + 2, COLON)
}

/// The operation keyword of an operator string.
pub open spec fn opr_kw(s: Seq<u8>) -> Seq<u8> {
    s.subrange(opr_gt(s) + 2, opr_kw_end(s))
}

/// The target group name of an operator string.
pub open spec fn opr_target(s: Seq<u8>) -> Seq<u8> {
    s.subrange(1, opr_gt(s))
}

/// Whether `s` has the operator shape `<target>:operation...`.
pub open spec fn opr_syntax_ok(s: Seq<u8>) -> bool {
    &&& s.len() >= 1
    &&& s[0] == LT
    &&& opr_gt(s) >= 2
    &&& opr_gt(s) + 1 < s.len()
    &&& s[opr_gt(s) + 1] == COLON
    &&& opr_kw_end(s) > opr_gt(s) + 2
}

/// The raw parameter text of an operator string: the bytes between the
/// colon after the keyword and the next colon or the end; `None` when
/// there is no such colon or the text is empty.
pub open spec fn opr_param_raw(s: Seq<u8>) -> Option<Seq<u8>> {
    let ke = opr_kw_end(s);
    if ke >= s.len() {
        None
    } else {
        let pe = find_byte(s, ke + 1, COLON);
        if pe == ke + 1 {
            None
        } else {
            Some(s.subrange(ke + 1, pe))
        }
    }
}

/// The shape `<name>`: a `<`, one or more bytes other than `>`, a `>`.
pub open spec fn is_group_shape(raw: Seq<u8>) -> bool {
    &&& raw.len() >= 3
    &&& raw[0] == LT
    &&& raw[raw.len() - 1] == GT
    &&& forall|i: int| 1 <= i < raw.len() - 1 ==> raw[i] != GT
}

/// How a raw parameter text is typed: an integer when it parses as one,
/// a group reference when it has the shape `<name>`, text otherwise.
pub open spec fn param_matches(p: Param, raw: Seq<u8>) -> bool {
    match parse_int_spec(raw) {
        Some(v) => p is Int && p->Int_0 == v,
        None => if is_group_shape(raw) {
            p is Group && p->Group_0@ == raw.subrange(1, raw.len() - 1)
        } else {
            p is Text && p->Text_0@ == raw
        },
    }
}

/// The parameter a well-formed operator carries: the neutral placeholder
/// for operations that take none, the typed raw parameter when one was
/// given, and the default of one for increment and decrement.
pub open spec fn operator_value_ok(op: Operation, value: Param, praw: Option<Seq<u8>>) -> bool {
    if takes_no_param(op) {
        value is Int && value->Int_0 == 0
    } else {
        match praw {
            Some(rawv) => param_matches(value, rawv),
            None => (op is Inc || op is Dec) && value is Int && value->Int_0 == 1,
        }
    }
}

impl Param {
    /// Types a raw parameter text.
    pub fn from_raw(raw: &[u8]) -> (r: Param)
        ensures
            param_matches(r, raw@),
    {
        match crate::ints::parse_int(raw) {
            Ok(v) => Param::Int(v),
            Err(_) => {
                let n = raw.len();
                if n >= 3 && raw[0] == LT && raw[n - 1] == GT {
                    let mid = find_byte_from(raw, 1, GT);
                    proof {
                        lemma_find_byte(raw@, 1, GT);
                    }
                    if mid == n - 1 {
                        return Param::Group(copy_range(raw, 1, n - 1));
                    }
                    proof {
                        assert(mid < n - 1);
                        assert(raw@[mid as int] == GT);
                        assert(!is_group_shape(raw@));
                    }
                    Param::Text(vstd::slice::slice_to_vec(raw))
                } else {
                    assert(!is_group_shape(raw@));
                    Param::Text(vstd::slice::slice_to_vec(raw))
                }
            },
        }
    }
}

impl Operator {
    /// Parses an operator string.  Fails with `InvalidOperatorSyntax`
    /// when the shape is wrong, `UnknownOperator` when the keyword names
    /// no operation, and `MissingParameter` when a required parameter is
    /// absent.
    pub fn from_str(s: &str) -> (r: Result<Operator, RegopError>)
        ensures
            ({
                let b = s.spec_bytes();
                match r {
                    Ok(o) => {
                        &&& opr_syntax_ok(b)
                        &&& Some(o.op) == kw_to_op(opr_kw(b))
                        &&& o.target@ == opr_target(b)
                        &&& operator_value_ok(o.op, o.value, opr_param_raw(b))
                    },
                    Err(e) => {
                        &&& (e.kind == ErrorKind::InvalidOperatorSyntax) == !opr_syntax_ok(b)
                        &&& opr_syntax_ok(b) ==> if kw_to_op(opr_kw(b)) is None {
                            e.kind == ErrorKind::UnknownOperator
                        } else {
                            &&& e.kind == ErrorKind::MissingParameter
                            &&& param_required(kw_to_op(opr_kw(b)).unwrap())
                            &&& opr_param_raw(b) is None
                        }
                    },
                }
            }),
    {
        let b = s.as_bytes();
        let n = b.len();
        if n == 0 || b[0] != LT {
            let mut e = RegopError::new(ErrorKind::InvalidOperatorSyntax, "not a valid operator format: ");
            e.push_detail(b);
            return Err(e);
        }
        let gt = find_byte_from(b, 1, GT);
        proof {
            lemma_find_byte(b@, 1, GT);
        }
        if gt < 2 || gt >= n - 1 || b[gt + 1] != COLON {
            let mut e = RegopError::new(ErrorKind::InvalidOperatorSyntax, "not a valid operator format: ");
            e.push_detail(b);
            return Err(e);
        }
        let ke = find_byte_from(b, gt + 2, COLON);
        proof {
            lemma_find_byte(b@, gt + 2, COLON);
        }
        if ke == gt + 2 {
            let mut e = RegopError::new(ErrorKind::InvalidOperatorSyntax, "not a valid operator format: ");
            e.push_detail(b);
            return Err(e);
        }
        let target = copy_range(b, 1, gt);
        let kw = vstd::slice::slice_subrange(b, gt + 2, ke);
        let opk: Option<Operation> = if is_kw3(kw, 105, 110, 99) {
            Some(Operation::Inc)
        } else if is_kw3(kw, 100, 101, 99) {
            Some(Operation::Dec)
        } else if is_kw3(kw, 114, 101, 112) {
            Some(Operation::Replace)
        } else if is_kw3(kw, 100, 101, 108) {
            Some(Operation::Del)
        } else if is_kw4(kw, 115, 119, 97, 112) {
            Some(Operation::Swap)
        } else if is_kw3(kw, 109, 117, 108) {
            Some(Operation::Mul)
        } else if is_kw3(kw, 100, 105, 118) {
            Some(Operation::Div)
        } else if is_kw6(kw, 97, 112, 112, 101, 110, 100) {
            Some(Operation::Append)
        } else if is_kw7(kw, 112, 114, 101, 112, 101, 110, 100) {
            Some(Operation::Prepend)
        } else if is_kw5(kw, 117, 112, 112, 101, 114) {
            Some(Operation::Upper)
        } else if is_kw5(kw, 108, 111, 119, 101, 114) {
            Some(Operation::Lower)
        } else {
            None
        };
        let op = match opk {
            Some(op) => op,
            None => {
                let mut e = RegopError::new(ErrorKind::UnknownOperator, "'");
                e.push_detail(kw);
                e.push_detail("' is not a valid operator".as_bytes());
                return Err(e);
            },
        };
        if matches!(op, Operation::Del | Operation::Upper | Operation::Lower) {
            return Ok(Operator { target, op, value: Param::Int(0) });
        }
        let praw: Option<&[u8]> = if ke >= n {
            None
        } else {
            let pe = find_byte_from(b, ke + 1, COLON);
            proof {
                lemma_find_byte(b@, ke + 1, COLON);
            }
            if pe == ke + 1 {
                None
            } else {
                Some(vstd::slice::slice_subrange(b, ke + 1, pe))
            }
        };
        match praw {
            Some(rawb) => Ok(Operator { target, op, value: Param::from_raw(rawb) }),
            None => {
                if matches!(op, Operation::Inc | Operation::Dec) {
                    Ok(Operator { target, op, value: Param::Int(1) })
                } else {
                    let mut e = RegopError::new(ErrorKind::MissingParameter, "parameter required in '");
                    e.push_detail(kw);
                    e.push_detail("' operator".as_bytes());
                    Err(e)
                }
            },
        }
    }
}

} // verus!
