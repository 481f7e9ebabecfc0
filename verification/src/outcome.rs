//! Errors shared by the requests, and how the kernel's answer to an add
//! request is judged.
use vstd::prelude::*;
use crate::text::{chars_of, contains_chars, contains_spec, occurs_at, push_text, string_from_chars, IntError};

verus! {

/// What an add request was meant to create.
#[derive(Debug, Clone, Copy, PartialEq, Eq, Structural)]
pub enum AddTarget {
    Address,
    Route,
    RoutingPolicyRule,
}

/// Why a request was not made, or failed.
#[derive(Debug)]
pub enum NetError {
    /// The text is not of the form `address/prefix`.
    NotCidr,
    /// The text is not an IP address of either family.
    InvalidIp,
    /// The text is not an IPv4 address.
    InvalidIpv4,
    /// The prefix length is not a `u8`.
    InvalidPrefix(IntError),
    /// The kernel refused an add request, for the reason given.
    AddFailed(AddTarget, String),
}

/// The text `File exists`, how the kernel's `EEXIST` reads.
pub open spec fn file_exists_text() -> Seq<char> {
    seq!['F', 'i', 'l', 'e', ' ', 'e', 'x', 'i', 's', 't', 's']
}

/// The text `EEXIST`.
pub open spec fn eexist_text() -> Seq<char> {
    seq!['E', 'E', 'X', 'I', 'S', 'T']
}

/// An error text says that what was to be added is there already.
pub open spec fn already_exists_spec(detail: Seq<char>) -> bool {
    contains_spec(detail, file_exists_text()) || contains_spec(detail, eexist_text())
}

/// Whether the error text `detail` says that what was to be added exists
/// already.
pub fn is_already_exists(detail: &str) -> (r: bool)
    ensures
        r == already_exists_spec(detail@),
{
    let hay = chars_of(detail);
    let file_exists = vec!['F', 'i', 'l', 'e', ' ', 'e', 'x', 'i', 's', 't', 's'];
    let eexist = vec!['E', 'E', 'X', 'I', 'S', 'T'];
    assert(file_exists@ == file_exists_text());
    assert(eexist@ == eexist_text());
    contains_chars(&hay, &file_exists) || contains_chars(&hay, &eexist)
}

/// The outcome of an add request, judged from the kernel's answer (`Ok`,
/// or the text of its error): an add of something that exists already
/// succeeds, any other error is reported.
pub open spec fn settle_add_spec(
    target: AddTarget,
    answer: Result<(), Seq<char>>,
    r: Result<(), NetError>,
) -> bool {
    match answer {
        Ok(()) => r is Ok,
        Err(detail) => if already_exists_spec(detail) {
            r is Ok
        } else {
            r matches Err(NetError::AddFailed(t, d)) && t == target && d@ == detail
        },
    }
}

/// The view of an answer whose error is a text.
pub open spec fn answer_view(answer: Result<(), String>) -> Result<(), Seq<char>> {
    match answer {
        Ok(()) => Ok(()),
        Err(d) => Err(d@),
    }
}

/// Judges the kernel's answer to an add request of `target`.
pub fn settle_add(target: AddTarget, answer: Result<(), String>) -> (r: Result<(), NetError>)
    ensures
        settle_add_spec(target, answer_view(answer), r),
{
    match answer {
        Ok(()) => Ok(()),
        Err(detail) => {
            if is_already_exists(detail.as_str()) {
                Ok(())
            } else {
                Err(NetError::AddFailed(target, detail))
            }
        },
    }
}

/// The kernel's answer to an add is judged as "exists already" exactly when
/// its text holds `File exists` or `EEXIST` somewhere, at any position; then
/// the add succeeds, and otherwise its failure is reported with the text.
pub proof fn lemma_already_exists_anywhere(target: AddTarget, d: Seq<char>, r: Result<(), NetError>)
    requires
        settle_add_spec(target, Err(d), r),
    ensures
        (exists|i: int|
            0 <= i && i + 11 <= d.len() && #[trigger] d.subrange(i, i + 11) == seq![
                'F',
                'i',
                'l',
                'e',
                ' ',
                'e',
                'x',
                'i',
                's',
                't',
                's',
            ]) ==> r is Ok,
        (exists|i: int|
            0 <= i && i + 6 <= d.len() && #[trigger] d.subrange(i, i + 6) == seq![
                'E',
                'E',
                'X',
                'I',
                'S',
                'T',
            ]) ==> r is Ok,
        r is Ok ==> (exists|i: int|
            0 <= i && i + 11 <= d.len() && #[trigger] d.subrange(i, i + 11) == seq![
                'F',
                'i',
                'l',
                'e',
                ' ',
                'e',
                'x',
                'i',
                's',
                't',
                's',
            ]) || (exists|i: int|
            0 <= i && i + 6 <= d.len() && #[trigger] d.subrange(i, i + 6) == seq![
                'E',
                'E',
                'X',
                'I',
                'S',
                'T',
            ]),
        r is Err ==> (r matches Err(NetError::AddFailed(t, e)) && t == target && e@ == d),
{
    let fe = seq!['F', 'i', 'l', 'e', ' ', 'e', 'x', 'i', 's', 't', 's'];
    let ee = seq!['E', 'E', 'X', 'I', 'S', 'T'];
    assert(file_exists_text() == fe);
    assert(eexist_text() == ee);
    if exists|i: int| 0 <= i && i + 11 <= d.len() && #[trigger] d.subrange(i, i + 11) == fe {
        let i = choose|i: int| 0 <= i && i + 11 <= d.len() && #[trigger] d.subrange(i, i + 11) == fe;
        assert(occurs_at(d, file_exists_text(), i));
    }
    if exists|i: int| 0 <= i && i + 6 <= d.len() && #[trigger] d.subrange(i, i + 6) == ee {
        let i = choose|i: int| 0 <= i && i + 6 <= d.len() && #[trigger] d.subrange(i, i + 6) == ee;
        assert(occurs_at(d, eexist_text(), i));
    }
    if r is Ok {
        if contains_spec(d, file_exists_text()) {
            let i = choose|i: int| occurs_at(d, file_exists_text(), i);
            assert(d.subrange(i, i + 11) == fe);
        } else {
            let i = choose|i: int| occurs_at(d, eexist_text(), i);
            assert(d.subrange(i, i + 6) == ee);
        }
    }
}

/// How the reason of a refused prefix length reads.
pub open spec fn int_error_text(e: IntError) -> Seq<char> {
    match e {
        IntError::Empty => "cannot parse integer from empty string"@,
        IntError::InvalidDigit => "invalid digit found in string"@,
        IntError::PosOverflow => "number too large to fit in target type"@,
    }
}

/// How what an add request was meant to create is named.
pub open spec fn add_target_text(t: AddTarget) -> Seq<char> {
    match t {
        AddTarget::Address => "address"@,
        AddTarget::Route => "route"@,
        AddTarget::RoutingPolicyRule => "routing policy rule"@,
    }
}

/// How an error reads.
pub open spec fn net_error_text(e: NetError) -> Seq<char> {
    match e {
        NetError::NotCidr => "Invalid address format, expected CIDR notation"@,
        NetError::InvalidIp => "invalid IP address syntax"@,
        NetError::InvalidIpv4 => "invalid IPv4 address syntax"@,
        NetError::InvalidPrefix(k) => int_error_text(k),
        NetError::AddFailed(t, d) => "Failed to add "@ + add_target_text(t) + ": "@ + d@,
    }
}

impl NetError {
    /// How this error reads.
    pub fn message(&self) -> (s: String)
        ensures
            s@ == net_error_text(*self),
    {
        let mut out: Vec<char> = Vec::new();
        match self {
            NetError::NotCidr => push_text(&mut out, "Invalid address format, expected CIDR notation"),
            NetError::InvalidIp => push_text(&mut out, "invalid IP address syntax"),
            NetError::InvalidIpv4 => push_text(&mut out, "invalid IPv4 address syntax"),
            NetError::InvalidPrefix(k) => match k {
                IntError::Empty => push_text(&mut out, "cannot parse integer from empty string"),
                IntError::InvalidDigit => push_text(&mut out, "invalid digit found in string"),
                IntError::PosOverflow => push_text(&mut out, "number too large to fit in target type"),
            },
            NetError::AddFailed(t, d) => {
                push_text(&mut out, "Failed to add ");
                match t {
                    AddTarget::Address => push_text(&mut out, "address"),
                    AddTarget::Route => push_text(&mut out, "route"),
                    AddTarget::RoutingPolicyRule => push_text(&mut out, "routing policy rule"),
                }
                push_text(&mut out, ": ");
                push_text(&mut out, d.as_str());
            },
        }
        assert(out@ == net_error_text(*self));
        string_from_chars(&out)
    }
}

} // verus!
