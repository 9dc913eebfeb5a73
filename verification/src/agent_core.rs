use vstd::prelude::*;
use vstd::string::*;

use crate::agent::{kind_name, Type};
use crate::error::Error;
use crate::text::{chars_of, lower, push_str, string_of, trim};

verus! {

broadcast use vstd::string::group_string_axioms;

/// Check an agent type given for a peer, and write it in its canonical form.
/// No type means that the peer's type is not checked; a type that is not one
/// of the known names (ignoring surrounding whitespace and ASCII case) is
/// refused.
pub fn validate_agent_type(agent_type: &Option<String>) -> (r: Result<Option<String>, Error>)
    ensures
        agent_type is None ==> r matches Ok(None),
        agent_type matches Some(t) ==> ((exists|k: Type| kind_name(k) == lower(trim(t@))) ==> (r matches Ok(
            Some(n),
        ) && n@ == lower(trim(t@)))),
        agent_type matches Some(t) ==> ((forall|k: Type| kind_name(k) != lower(trim(t@))) ==> (r matches Err(
            Error::PeerEdit(m),
        ) && m@ == seq!['\''] + t@
            + "' is not a recognised agent type. Valid values are: portal, provider, platform, instance, bridge, account, filesystem, scheduler, virtual."@)),
{
    match agent_type {
        None => Ok(None),
        Some(t) => match Type::parse(t.as_str()) {
            Some(k) => Ok(Some(k.to_string())),
            None => {
                let mut m: Vec<char> = Vec::new();
                m.push('\'');
                push_str(&mut m, t.as_str());
                push_str(
                    &mut m,
                    "' is not a recognised agent type. Valid values are: portal, provider, platform, instance, bridge, account, filesystem, scheduler, virtual.",
                );
                assert(m@ =~= seq!['\''] + t@
                    + "' is not a recognised agent type. Valid values are: portal, provider, platform, instance, bridge, account, filesystem, scheduler, virtual."@);
                Err(Error::PeerEdit(string_of(&m)))
            },
        },
    }
}


/// Where a secret to be stored is read from.
#[derive(Debug)]
pub enum SecretSource {
    /// Given on the command line.
    Value(String),
    /// Read from the named file.
    File(String),
    /// Read from standard input, because it was asked for (`--value-file -`)
    /// or because nothing else was given.
    Stdin { explicit: bool },
}

/// Where to read a secret from, given `--value` and `--value-file` (with
/// whether the file named is `-`, standard input). Giving both is refused.
pub fn secret_source(value: Option<&str>, value_file: Option<&str>, value_file_is_stdin: bool) -> (r: Result<SecretSource, Error>)
    ensures
        value is Some && value_file is Some ==> (r matches Err(Error::PeerEdit(m)) && m@
            == "Pass either --value or --value-file, not both"@),
        value matches Some(v) ==> (value_file is None ==> (r matches Ok(SecretSource::Value(s))
            && s@ == v@)),
        value is None ==> (value_file matches Some(f) ==> (if value_file_is_stdin {
            r matches Ok(SecretSource::Stdin { explicit }) && explicit
        } else {
            r matches Ok(SecretSource::File(p)) && p@ == f@
        })),
        value is None && value_file is None ==> (r matches Ok(SecretSource::Stdin { explicit })
            && !explicit),
{
    match (value, value_file) {
        (Some(_), Some(_)) => Err(
            Error::PeerEdit(String::from_str("Pass either --value or --value-file, not both")),
        ),
        (Some(v), None) => Ok(SecretSource::Value(String::from_str(v))),
        (None, Some(f)) => {
            if value_file_is_stdin {
                Ok(SecretSource::Stdin { explicit: true })
            } else {
                Ok(SecretSource::File(String::from_str(f)))
            }
        },
        (None, None) => Ok(SecretSource::Stdin { explicit: false }),
    }
}

/// `s` without its trailing newlines and carriage returns.
pub open spec fn without_line_ends(s: Seq<char>) -> Seq<char>
    decreases s.len(),
{
    if s.len() > 0 && (s.last() == '\n' || s.last() == '\r') {
        without_line_ends(s.drop_last())
    } else {
        s
    }
}

/// The secret in text read from a file or standard input: the text without
/// the line ends a file usually finishes with. Nothing at all on standard
/// input, when nothing else was given, is refused.
pub fn secret_from_text(contents: &str, implicit_stdin: bool) -> (r: Result<String, Error>)
    ensures
        implicit_stdin && without_line_ends(contents@).len() == 0 ==> (r matches Err(
            Error::PeerEdit(m),
        ) && m@ == "No secret supplied - pass --value-file, or pipe the secret to stdin"@),
        !(implicit_stdin && without_line_ends(contents@).len() == 0) ==> (r matches Ok(s) && s@
            == without_line_ends(contents@)),
{
    let v = chars_of(contents);
    let mut n: usize = v.len();
    assert(v@ =~= v@.take(v@.len() as int));
    while n > 0 && (v[n - 1] == '\n' || v[n - 1] == '\r')
        invariant
            n <= v@.len(),
            without_line_ends(v@) == without_line_ends(v@.take(n as int)),
        decreases n,
    {
        assert(v@.take(n as int).drop_last() =~= v@.take(n - 1));
        n = n - 1;
    }
    let mut out: Vec<char> = Vec::new();
    let mut i: usize = 0;
    while i < n
        invariant
            i <= n <= v@.len(),
            out@ == v@.take(i as int),
        decreases n - i,
    {
        out.push(v[i]);
        i = i + 1;
        assert(out@ =~= v@.take(i as int));
    }
    assert(without_line_ends(v@.take(n as int)) == v@.take(n as int));
    if implicit_stdin && n == 0 {
        return Err(
            Error::PeerEdit(
                String::from_str("No secret supplied - pass --value-file, or pipe the secret to stdin"),
            ),
        );
    }
    Ok(string_of(&out))
}

} // verus!
