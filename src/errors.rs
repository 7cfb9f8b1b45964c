//! The failures of one call, and the single message each becomes.
use vstd::prelude::*;
use vstd::string::*;
use crate::values::{DynModel, DynValue};

verus! {

/// Every way a call can fail.  All of them end the call with one message
/// that starts with `Uncaught `; the kinds are kept apart for diagnostics.
#[derive(Debug)]
pub enum RuntimeError {
    /// A value did not fit its type.  `name` is the parameter, field or tag
    /// concerned and `position` the parameter's index, where known; `found`
    /// describes the value that was there.
    ShapeMismatch {
        expected: String,
        name: Option<String>,
        position: Option<usize>,
        found: String,
    },
    /// An exception that the script raised and did not catch.
    InterpreterException { message: String },
    /// A defect of the generated code or of the trampoline, not of the script.
    InternalInconsistency { detail: String },
}

pub enum ErrorModel {
    ShapeMismatch {
        expected: Seq<char>,
        name: Option<Seq<char>>,
        position: Option<nat>,
        found: Seq<char>,
    },
    InterpreterException { message: Seq<char> },
    InternalInconsistency { detail: Seq<char> },
}

impl View for RuntimeError {
    type V = ErrorModel;

    open spec fn view(&self) -> ErrorModel {
        match self {
            RuntimeError::ShapeMismatch { expected, name, position, found } => ErrorModel::ShapeMismatch {
                expected: expected@,
                name: match name {
                    Some(n) => Some(n@),
                    None => None,
                },
                position: match position {
                    Some(p) => Some(*p as nat),
                    None => None,
                },
                found: found@,
            },
            RuntimeError::InterpreterException { message } => ErrorModel::InterpreterException {
                message: message@,
            },
            RuntimeError::InternalInconsistency { detail } => ErrorModel::InternalInconsistency {
                detail: detail@,
            },
        }
    }
}

/// The text after `Uncaught ` in the message of a failed call.
pub open spec fn description(e: ErrorModel) -> Seq<char> {
    match e {
        ErrorModel::ShapeMismatch { expected, name, found, .. } => "TypeError: value is not of type "@
            + expected + match name {
            Some(n) => " ("@ + n + ")"@,
            None => Seq::empty(),
        } + ": found "@ + found,
        ErrorModel::InterpreterException { message } => message,
        ErrorModel::InternalInconsistency { detail } => "InternalError: "@ + detail,
    }
}

pub open spec fn trap_message(e: ErrorModel) -> Seq<char> {
    "Uncaught "@ + description(e)
}

impl RuntimeError {
    /// The message handed to the host's abort primitive.
    pub fn to_trap_message(&self) -> (r: String)
        ensures
            r@ == trap_message(self@),
    {
        let mut r = String::from_str("Uncaught ");
        match self {
            RuntimeError::ShapeMismatch { expected, name, found, .. } => {
                r.append("TypeError: value is not of type ");
                r.append(expected.as_str());
                match name {
                    Some(n) => {
                        r.append(" (");
                        r.append(n.as_str());
                        r.append(")");
                    },
                    None => {
                        assert(r@ =~= r@ + Seq::<char>::empty());
                    },
                }
                r.append(": found ");
                r.append(found.as_str());
            },
            RuntimeError::InterpreterException { message } => {
                r.append(message.as_str());
            },
            RuntimeError::InternalInconsistency { detail } => {
                r.append("InternalError: ");
                r.append(detail.as_str());
            },
        }
        r
    }

    pub fn is_internal(&self) -> (r: bool)
        ensures
            r == (self@ is InternalInconsistency),
    {
        match self {
            RuntimeError::InternalInconsistency { .. } => true,
            _ => false,
        }
    }
}

pub open spec fn digit_char(d: nat) -> char {
    if d == 0 { '0' } else if d == 1 { '1' } else if d == 2 { '2' } else if d == 3 { '3' } else if d
        == 4 { '4' } else if d == 5 { '5' } else if d == 6 { '6' } else if d == 7 { '7' } else if d
        == 8 { '8' } else { '9' }
}

/// The decimal digits of `n`, most significant first.
pub open spec fn digits(n: nat) -> Seq<char>
    decreases n,
{
    if n < 10 {
        seq![digit_char(n)]
    } else {
        digits(n / 10).push(digit_char(n % 10))
    }
}

pub open spec fn decimal(i: int) -> Seq<char> {
    if i < 0 {
        seq!['-'] + digits((-i) as nat)
    } else {
        digits(i as nat)
    }
}

fn digit_str(d: u128) -> (r: &'static str)
    requires
        d < 10,
    ensures
        r@ == seq![digit_char(d as nat)],
{
    proof {
        reveal_strlit("0");
        reveal_strlit("1");
        reveal_strlit("2");
        reveal_strlit("3");
        reveal_strlit("4");
        reveal_strlit("5");
        reveal_strlit("6");
        reveal_strlit("7");
        reveal_strlit("8");
        reveal_strlit("9");
    }
    if d == 0 { "0" } else if d == 1 { "1" } else if d == 2 { "2" } else if d == 3 { "3" } else if d
        == 4 { "4" } else if d == 5 { "5" } else if d == 6 { "6" } else if d == 7 { "7" } else if d
        == 8 { "8" } else { "9" }
}

fn push_digits(n: u128, out: &mut String)
    ensures
        final(out)@ == old(out)@ + digits(n as nat),
    decreases n,
{
    if n >= 10 {
        push_digits(n / 10, out);
    }
    out.append(digit_str(n % 10));
    proof {
        if n >= 10 {
            assert(digits(n as nat) == digits((n / 10) as nat).push(digit_char((n % 10) as nat)));
        }
    }
    assert(final(out)@ =~= old(out)@ + digits(n as nat));
}

/// The decimal text of an integer.
pub fn int_to_decimal(i: i128) -> (r: String)
    ensures
        r@ == decimal(i as int),
{
    let mut r = String::new();
    if i < 0 {
        r.append("-");
        let magnitude: u128 = ((-(i + 1)) as u128) + 1;
        proof {
            reveal_strlit("-");
            assert(magnitude as int == -(i as int));
        }
        push_digits(magnitude, &mut r);
        assert(r@ =~= seq!['-'] + digits((-(i as int)) as nat));
    } else {
        push_digits(i as u128, &mut r);
        assert(r@ =~= digits(i as nat));
    }
    r
}

/// The message of a thrown value that is not an object: integers in
/// decimal, and `true`, `false`, `null`, `undefined` and text as written.
/// Arrays, objects and function references are rendered by the
/// interpreter's own `toString`.
pub open spec fn thrown_text(v: DynModel) -> Option<Seq<char>> {
    match v {
        DynModel::Int(i) => Some(decimal(i)),
        DynModel::Bool(b) => Some(if b { "true"@ } else { "false"@ }),
        DynModel::Null => Some("null"@),
        DynModel::Undefined => Some("undefined"@),
        DynModel::Text(s) => Some(s),
        _ => None,
    }
}

pub fn thrown_value_to_string(v: &DynValue) -> (r: Option<String>)
    ensures
        match r {
            Some(s) => thrown_text(v@) == Some(s@),
            None => thrown_text(v@) is None,
        },
{
    match v {
        DynValue::Int(i) => Some(int_to_decimal(*i)),
        DynValue::Bool(b) => Some(String::from_str(if *b { "true" } else { "false" })),
        DynValue::Null => Some(String::from_str("null")),
        DynValue::Undefined => Some(String::from_str("undefined")),
        DynValue::Text(s) => Some(s.clone()),
        _ => None,
    }
}

} // verus!
