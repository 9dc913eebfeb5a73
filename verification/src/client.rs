use vstd::prelude::*;
use vstd::string::*;

use crate::board::Handle;

verus! {

broadcast use vstd::string::group_string_axioms;

/// What can go wrong in a client call.
#[derive(Debug)]
pub enum ClientError {
    AnyError(String),
    Unknown,
}

/// Ask for `user` to be added to `instance` within `project`.
pub fn add_user_to_instance_in_project(user: &String, instance: &String, project: &String) -> (r: Result<Handle, ClientError>)
    ensures
        r matches Ok(h) && h.id@ == "123"@,
{
    Ok(Handle { id: String::from_str("123") })
}

/// Ask for `user` to be added to `project`.
pub fn add_user_to_project(user: &String, project: &String) -> (r: Result<Handle, ClientError>)
    ensures
        r matches Ok(h) && h.id@ == "456"@,
{
    Ok(Handle { id: String::from_str("456") })
}

} // verus!
