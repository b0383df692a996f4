//! What the catalog client decides without touching the network.

use crate::text::push_char;
use vstd::prelude::*;
use vstd::string::StringExecFns;

verus! {

/// How a reply of the catalog is to be read, by its status code.
#[derive(Debug, Clone, Copy, PartialEq, Eq, Hash, Structural)]
pub enum Reply {
    /// The reply carries what was asked for.
    Found,
    /// The catalog does not have what was asked for.
    NotFound,
    /// Any other status: the catalog cannot be used.
    Refused,
}

/// Reads a status code: 200 to 299 is success, 404 is not found, and
/// everything else is a refusal.
pub fn read_status(code: u16) -> (r: Reply)
    ensures
        r == (if 200 <= code <= 299 {
            Reply::Found
        } else if code == 404 {
            Reply::NotFound
        } else {
            Reply::Refused
        }),
{
    if 200 <= code && code <= 299 {
        Reply::Found
    } else if code == 404 {
        Reply::NotFound
    } else {
        Reply::Refused
    }
}

/// The text by which the client names itself: the program's name, then a
/// slash and the version where there is one, then the contact in round
/// brackets behind a space where there is one.
pub open spec fn user_agent_text(
    name: Seq<char>,
    version: Option<Seq<char>>,
    contact: Option<Seq<char>>,
) -> Seq<char> {
    name + (match version {
        Some(v) => seq!['/'] + v,
        None => Seq::empty(),
    }) + (match contact {
        Some(c) => seq![' ', '('] + c + seq![')'],
        None => Seq::empty(),
    })
}

/// The text by which the client names itself to the catalog.
pub fn user_agent(name: &str, version: Option<&str>, contact: Option<&str>) -> (r: String)
    ensures
        r@ == user_agent_text(
            name@,
            match version {
                Some(v) => Some(v@),
                None => None,
            },
            match contact {
                Some(c) => Some(c@),
                None => None,
            },
        ),
{
    let mut out = String::new();
    out.append(name);
    let ghost named = out@;
    if let Some(v) = version {
        push_char(&mut out, '/');
        out.append(v);
        assert(out@ =~= named + (seq!['/'] + v@));
    }
    let ghost versioned = out@;
    if let Some(c) = contact {
        push_char(&mut out, ' ');
        push_char(&mut out, '(');
        out.append(c);
        push_char(&mut out, ')');
        assert(out@ =~= versioned + (seq![' ', '('] + c@ + seq![')']));
    }
    assert(named =~= name@);
    out
}

} // verus!
