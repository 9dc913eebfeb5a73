use vstd::prelude::*;
use vstd::string::*;

use crate::error::Error;

verus! {

broadcast use vstd::string::group_string_axioms;

/// The raw text of an instruction this agent does not understand and never
/// needs to, kept verbatim so that it is forwarded unchanged.
#[derive(Debug)]
pub struct RawInstruction(String);

impl View for RawInstruction {
    type V = Seq<char>;

    closed spec fn view(&self) -> Seq<char> {
        self.0@
    }
}

impl RawInstruction {
    /// The instruction's text, exactly as it was read.
    pub fn to_string(&self) -> (r: String)
        ensures
            r@ == self@,
    {
        self.0.clone()
    }
}

/// The domain that understands nothing and forwards everything, spoken by
/// agents that only route.
#[derive(Debug, Clone, Copy, PartialEq, Eq, Structural)]
pub struct Erased;

/// The version of this engine, which the router reports as its domain's.
pub const ENGINE_VERSION: &'static str = "0.1.0";

impl Erased {
    /// Read an instruction: any text is one, kept as it is.
    pub fn parse_instruction(s: &str) -> (r: Result<RawInstruction, Error>)
        ensures
            r matches Ok(i) && i@ == s@,
    {
        Ok(RawInstruction(String::from_str(s)))
    }

    pub fn name() -> (r: &'static str)
        ensures
            r@ == "erased"@,
    {
        "erased"
    }

    pub fn version() -> (r: &'static str)
        ensures
            r@ == ENGINE_VERSION@,
    {
        ENGINE_VERSION
    }

    /// The domain version a peer of engine `engine_version` that reported
    /// none is taken to speak: none, for the router, which has no history
    /// before domains were named.
    pub fn assume_legacy_domain_version(engine_version: &str) -> (r: Option<&'static str>)
        ensures
            r is None,
    {
        None
    }
}

} // verus!
