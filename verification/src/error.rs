//! Typed errors of the domain and of the transport boundary.
//!
//! `InfraError` holds, as plain text, what the transport layer reports;
//! it converts into `DomainError` at the boundary.

use vstd::prelude::*;

use crate::text::{push_str, string_of};

verus! {

/// Errors that can originate from or surface through the domain layer.
#[derive(Debug)]
pub enum DomainError {
    /// The user referenced an identifier that is not currently registered.
    UnknownId(String),
    /// The user tried to open a connection whose local id is already bound.
    IdAlreadyInUse(String),
    /// The user tried to label with a name already taken by another id.
    LabelAlreadyInUse(String),
    /// Hex payload parsing failed.
    InvalidHex(String),
    /// Send to a server that currently has no accepted children.
    ServerHasNoChildren(String),
    /// Send targeted an empty payload.
    EmptyPayload,
    /// Wrapping of underlying transport (I/O) failures.
    Io(String),
    /// Generic logical error for cases that do not fit any of the above.
    Logic(String),
}

pub enum DomainErrorView {
    UnknownId(Seq<char>),
    IdAlreadyInUse(Seq<char>),
    LabelAlreadyInUse(Seq<char>),
    InvalidHex(Seq<char>),
    ServerHasNoChildren(Seq<char>),
    EmptyPayload,
    Io(Seq<char>),
    Logic(Seq<char>),
}

impl View for DomainError {
    type V = DomainErrorView;

    open spec fn view(&self) -> DomainErrorView {
        match self {
            DomainError::UnknownId(s) => DomainErrorView::UnknownId(s@),
            DomainError::IdAlreadyInUse(s) => DomainErrorView::IdAlreadyInUse(s@),
            DomainError::LabelAlreadyInUse(s) => DomainErrorView::LabelAlreadyInUse(s@),
            DomainError::InvalidHex(s) => DomainErrorView::InvalidHex(s@),
            DomainError::ServerHasNoChildren(s) => DomainErrorView::ServerHasNoChildren(s@),
            DomainError::EmptyPayload => DomainErrorView::EmptyPayload,
            DomainError::Io(s) => DomainErrorView::Io(s@),
            DomainError::Logic(s) => DomainErrorView::Logic(s@),
        }
    }
}

impl DomainErrorView {
    /// The text the error displays as.
    pub open spec fn message(self) -> Seq<char> {
        match self {
            DomainErrorView::UnknownId(s) => "unknown id: "@ + s,
            DomainErrorView::IdAlreadyInUse(s) => "id already in use: "@ + s,
            DomainErrorView::LabelAlreadyInUse(s) => "label already in use: "@ + s,
            DomainErrorView::InvalidHex(s) => "invalid hex payload: "@ + s,
            DomainErrorView::ServerHasNoChildren(s) => "server "@ + s
                + " has no active accepted connections"@,
            DomainErrorView::EmptyPayload => "empty payload"@,
            DomainErrorView::Io(s) => "io error: "@ + s,
            DomainErrorView::Logic(s) => "logic error: "@ + s,
        }
    }
}

fn prefixed(prefix: &str, s: &String) -> (r: String)
    ensures
        r@ == prefix@ + s@,
{
    let mut out = string_of(prefix);
    push_str(&mut out, s.as_str());
    out
}

impl DomainError {
    /// The error message, as it is shown to the user.
    pub fn to_string(&self) -> (r: String)
        ensures
            r@ == self@.message(),
    {
        match self {
            DomainError::UnknownId(s) => prefixed("unknown id: ", s),
            DomainError::IdAlreadyInUse(s) => prefixed("id already in use: ", s),
            DomainError::LabelAlreadyInUse(s) => prefixed("label already in use: ", s),
            DomainError::InvalidHex(s) => prefixed("invalid hex payload: ", s),
            DomainError::ServerHasNoChildren(s) => {
                let mut out = prefixed("server ", s);
                push_str(&mut out, " has no active accepted connections");
                out
            },
            DomainError::EmptyPayload => string_of("empty payload"),
            DomainError::Io(s) => prefixed("io error: ", s),
            DomainError::Logic(s) => prefixed("logic error: ", s),
        }
    }
}

/// Errors reported by the transport layer, as text.
#[derive(Debug)]
pub enum InfraError {
    /// An I/O failure, with the system's message.
    Io(String),
    /// The local address (port or path) is already bound.
    AddressInUse(String),
    /// The peer credentials of a Unix socket could not be read.
    PeerCred(String),
    /// An endpoint that cannot be resolved or parsed.
    InvalidEndpoint(String),
}

pub enum InfraErrorView {
    Io(Seq<char>),
    AddressInUse(Seq<char>),
    PeerCred(Seq<char>),
    InvalidEndpoint(Seq<char>),
}

impl View for InfraError {
    type V = InfraErrorView;

    open spec fn view(&self) -> InfraErrorView {
        match self {
            InfraError::Io(s) => InfraErrorView::Io(s@),
            InfraError::AddressInUse(s) => InfraErrorView::AddressInUse(s@),
            InfraError::PeerCred(s) => InfraErrorView::PeerCred(s@),
            InfraError::InvalidEndpoint(s) => InfraErrorView::InvalidEndpoint(s@),
        }
    }
}

impl InfraErrorView {
    pub open spec fn message(self) -> Seq<char> {
        match self {
            InfraErrorView::Io(s) => "io error: "@ + s,
            InfraErrorView::AddressInUse(s) => "address already in use: "@ + s,
            InfraErrorView::PeerCred(s) => "peercred failed: "@ + s,
            InfraErrorView::InvalidEndpoint(s) => "invalid endpoint: "@ + s,
        }
    }

    /// The domain error a transport error becomes at the boundary.
    pub open spec fn to_domain(self) -> DomainErrorView {
        match self {
            InfraErrorView::AddressInUse(s) => DomainErrorView::IdAlreadyInUse(s),
            _ => DomainErrorView::Io(self.message()),
        }
    }
}

impl InfraError {
    /// The error message, as it is shown to the user.
    pub fn to_string(&self) -> (r: String)
        ensures
            r@ == self@.message(),
    {
        match self {
            InfraError::Io(s) => prefixed("io error: ", s),
            InfraError::AddressInUse(s) => prefixed("address already in use: ", s),
            InfraError::PeerCred(s) => prefixed("peercred failed: ", s),
            InfraError::InvalidEndpoint(s) => prefixed("invalid endpoint: ", s),
        }
    }
}

impl DomainError {
    /// Conversion at the transport boundary: an address in use becomes
    /// `IdAlreadyInUse`, everything else an `Io` error with the message.
    pub fn from_infra(e: InfraError) -> (r: DomainError)
        ensures
            r@ == e@.to_domain(),
    {
        match e {
            InfraError::AddressInUse(s) => DomainError::IdAlreadyInUse(s),
            _ => DomainError::Io(e.to_string()),
        }
    }
}

} // verus!
