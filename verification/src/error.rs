use vstd::prelude::*;

verus! {

/// The errors raised by the library. Each carries a human-readable message.
#[derive(Debug, Clone)]
pub enum Error {
    Any(String),
    Bug(String),
    Call(String),
    ConfigExists(String),
    Delivery(String),
    IncompleteCode(String),
    Incompatible(String),
    InvalidBoard(String),
    InvalidConfig(String),
    InvalidInstruction(String),
    InvalidPeer(String),
    InvalidState(String),
    Duplicate(String),
    Expired(String),
    Locked(String),
    Login(String),
    Misconfigured(String),
    MissingAgent(String),
    MissingProject(String),
    MissingUser(String),
    NoPortal(String),
    InvalidPortal(String),
    NotFound(String),
    Parse(String),
    PeerEdit(String),
    Run(String),
    State(String),
    Unknown(String),
    UnknownInstruction(String),
    UnmanagedUser(String),
    UnmanagedGroup(String),
}

impl Error {
    /// The message the error carries.
    pub open spec fn text(&self) -> Seq<char> {
        match self {
            Error::Any(m) => m@,
            Error::Bug(m) => m@,
            Error::Call(m) => m@,
            Error::ConfigExists(m) => m@,
            Error::Delivery(m) => m@,
            Error::IncompleteCode(m) => m@,
            Error::Incompatible(m) => m@,
            Error::InvalidBoard(m) => m@,
            Error::InvalidConfig(m) => m@,
            Error::InvalidInstruction(m) => m@,
            Error::InvalidPeer(m) => m@,
            Error::InvalidState(m) => m@,
            Error::Duplicate(m) => m@,
            Error::Expired(m) => m@,
            Error::Locked(m) => m@,
            Error::Login(m) => m@,
            Error::Misconfigured(m) => m@,
            Error::MissingAgent(m) => m@,
            Error::MissingProject(m) => m@,
            Error::MissingUser(m) => m@,
            Error::NoPortal(m) => m@,
            Error::InvalidPortal(m) => m@,
            Error::NotFound(m) => m@,
            Error::Parse(m) => m@,
            Error::PeerEdit(m) => m@,
            Error::Run(m) => m@,
            Error::State(m) => m@,
            Error::Unknown(m) => m@,
            Error::UnknownInstruction(m) => m@,
            Error::UnmanagedUser(m) => m@,
            Error::UnmanagedGroup(m) => m@,
        }
    }

    /// The message the error carries - what the error displays as.
    pub fn message(&self) -> (r: String)
        ensures
            r@ == self.text(),
    {
        match self {
            Error::Any(m) => m.clone(),
            Error::Bug(m) => m.clone(),
            Error::Call(m) => m.clone(),
            Error::ConfigExists(m) => m.clone(),
            Error::Delivery(m) => m.clone(),
            Error::IncompleteCode(m) => m.clone(),
            Error::Incompatible(m) => m.clone(),
            Error::InvalidBoard(m) => m.clone(),
            Error::InvalidConfig(m) => m.clone(),
            Error::InvalidInstruction(m) => m.clone(),
            Error::InvalidPeer(m) => m.clone(),
            Error::InvalidState(m) => m.clone(),
            Error::Duplicate(m) => m.clone(),
            Error::Expired(m) => m.clone(),
            Error::Locked(m) => m.clone(),
            Error::Login(m) => m.clone(),
            Error::Misconfigured(m) => m.clone(),
            Error::MissingAgent(m) => m.clone(),
            Error::MissingProject(m) => m.clone(),
            Error::MissingUser(m) => m.clone(),
            Error::NoPortal(m) => m.clone(),
            Error::InvalidPortal(m) => m.clone(),
            Error::NotFound(m) => m.clone(),
            Error::Parse(m) => m.clone(),
            Error::PeerEdit(m) => m.clone(),
            Error::Run(m) => m.clone(),
            Error::State(m) => m.clone(),
            Error::Unknown(m) => m.clone(),
            Error::UnknownInstruction(m) => m.clone(),
            Error::UnmanagedUser(m) => m.clone(),
            Error::UnmanagedGroup(m) => m.clone(),
        }
    }
}

} // verus!
