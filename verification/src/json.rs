use vstd::prelude::*;
use vstd::string::*;

use crate::error::Error;
use crate::text::str_eq;

verus! {

broadcast use vstd::string::group_string_axioms;

/// A JSON number as serde_json holds it.
#[derive(Debug, Clone, Copy, PartialEq, Eq, Structural)]
pub enum Number {
    /// A non-negative integer.
    PosInt(u64),
    /// A negative integer.
    NegInt(i64),
    /// Any other number; nothing here reads its value.
    Float,
}

/// A JSON value, as read from Slurm's REST and command-line replies.
#[derive(Debug)]
pub enum Json {
    Null,
    Bool(bool),
    Number(Number),
    Str(String),
    Array(Vec<Json>),
    /// The members of an object, in order; a name stands once.
    Object(Vec<(String, Json)>),
}

/// The value of the first member named `key`, if any.
pub open spec fn member(members: Seq<(String, Json)>, key: Seq<char>) -> Option<Json>
    decreases members.len(),
{
    if members.len() == 0 {
        None
    } else if members[0].0@ == key {
        Some(members[0].1)
    } else {
        member(members.drop_first(), key)
    }
}

impl Json {
    /// The member named `key` of an object; `None` for any other value.
    pub open spec fn field(self, key: Seq<char>) -> Option<Json> {
        match self {
            Json::Object(m) => member(m@, key),
            _ => None,
        }
    }

    /// The characters of a string.
    pub open spec fn text(self) -> Option<Seq<char>> {
        match self {
            Json::Str(s) => Some(s@),
            _ => None,
        }
    }

    /// An integer that fits in an `i64`.
    pub open spec fn signed(self) -> Option<i64> {
        match self {
            Json::Number(Number::PosInt(u)) => if u <= i64::MAX {
                Some(u as i64)
            } else {
                None
            },
            Json::Number(Number::NegInt(i)) => Some(i),
            _ => None,
        }
    }

    /// A non-negative integer.
    pub open spec fn unsigned(self) -> Option<u64> {
        match self {
            Json::Number(Number::PosInt(u)) => Some(u),
            _ => None,
        }
    }

    /// The elements of an array.
    pub open spec fn items(self) -> Option<Seq<Json>> {
        match self {
            Json::Array(v) => Some(v@),
            _ => None,
        }
    }

    /// The member named `key`, if this is an object that has one.
    pub fn get(&self, key: &str) -> (r: Option<&Json>)
        ensures
            match r {
                Some(v) => self.field(key@) == Some(*v),
                None => self.field(key@) is None,
            },
    {
        match self {
            Json::Object(m) => {
                let mut i: usize = 0;
                assert(m@.skip(0) =~= m@);
                assert(self.field(key@) == member(m@, key@));
                while i < m.len()
                    invariant
                        i <= m@.len(),
                        self.field(key@) == member(m@.skip(i as int), key@),
                    decreases m@.len() - i,
                {
                    assert(m@.skip(i as int).drop_first() =~= m@.skip(i + 1));
                    if str_eq(m[i].0.as_str(), key) {
                        assert(m@.skip(i as int)[0] == m@[i as int]);
                        return Some(&m[i].1);
                    }
                    i = i + 1;
                }
                None
            },
            _ => None,
        }
    }

    /// The string, if this is one.
    pub fn as_str(&self) -> (r: Option<&str>)
        ensures
            match r {
                Some(s) => self.text() == Some(s@),
                None => self.text() is None,
            },
    {
        match self {
            Json::Str(s) => Some(s.as_str()),
            _ => None,
        }
    }

    /// The integer, if this is one that fits in an `i64`.
    pub fn as_i64(&self) -> (r: Option<i64>)
        ensures
            r == self.signed(),
    {
        match self {
            Json::Number(Number::PosInt(u)) => if *u <= 9223372036854775807u64 {
                Some(*u as i64)
            } else {
                None
            },
            Json::Number(Number::NegInt(i)) => Some(*i),
            _ => None,
        }
    }

    /// The integer, if this is a non-negative one.
    pub fn as_u64(&self) -> (r: Option<u64>)
        ensures
            r == self.unsigned(),
    {
        match self {
            Json::Number(Number::PosInt(u)) => Some(*u),
            _ => None,
        }
    }

    /// The elements, if this is an array.
    pub fn as_array(&self) -> (r: Option<&Vec<Json>>)
        ensures
            match r {
                Some(v) => self.items() == Some(v@),
                None => self.items() is None,
            },
    {
        match self {
            Json::Array(v) => Some(v),
            _ => None,
        }
    }
}

/// A member that must be a string: its characters, or the message for a
/// missing member or for one that is not a string.
pub open spec fn required_text(value: Json, key: Seq<char>, missing: Seq<char>, wrong: Seq<char>) -> Result<Seq<char>, Seq<char>> {
    match value.field(key) {
        None => Err(missing),
        Some(v) => match v.text() {
            Some(t) => Ok(t),
            None => Err(wrong),
        },
    }
}

/// A member that must be an integer that fits in an `i64`.
pub open spec fn required_signed(value: Json, key: Seq<char>, missing: Seq<char>, wrong: Seq<char>) -> Result<i64, Seq<char>> {
    match value.field(key) {
        None => Err(missing),
        Some(v) => match v.signed() {
            Some(n) => Ok(n),
            None => Err(wrong),
        },
    }
}

/// A member that must be a non-negative integer.
pub open spec fn required_unsigned(value: Json, key: Seq<char>, missing: Seq<char>, wrong: Seq<char>) -> Result<u64, Seq<char>> {
    match value.field(key) {
        None => Err(missing),
        Some(v) => match v.unsigned() {
            Some(n) => Ok(n),
            None => Err(wrong),
        },
    }
}

/// A call error carrying `message`.
pub fn call_error(message: &str) -> (e: Error)
    ensures
        e is Call,
        e.text() == message@,
{
    Error::Call(String::from_str(message))
}

/// The string member `key` of `value`; a call error with `missing` or
/// `wrong` where it is absent or not a string.
pub fn required_str<'a>(value: &'a Json, key: &str, missing: &str, wrong: &str) -> (r: Result<&'a str, Error>)
    ensures
        match r {
            Ok(t) => required_text(*value, key@, missing@, wrong@) == Ok::<Seq<char>, Seq<char>>(t@),
            Err(e) => e is Call && required_text(*value, key@, missing@, wrong@) == Err::<Seq<char>, Seq<char>>(e.text()),
        },
{
    match value.get(key) {
        None => Err(call_error(missing)),
        Some(v) => match v.as_str() {
            Some(t) => Ok(t),
            None => Err(call_error(wrong)),
        },
    }
}

/// The `i64` member `key` of `value`; a call error with `missing` or
/// `wrong` where it is absent or not such an integer.
pub fn required_i64(value: &Json, key: &str, missing: &str, wrong: &str) -> (r: Result<i64, Error>)
    ensures
        match r {
            Ok(n) => required_signed(*value, key@, missing@, wrong@) == Ok::<i64, Seq<char>>(n),
            Err(e) => e is Call && required_signed(*value, key@, missing@, wrong@) == Err::<i64, Seq<char>>(e.text()),
        },
{
    match value.get(key) {
        None => Err(call_error(missing)),
        Some(v) => match v.as_i64() {
            Some(n) => Ok(n),
            None => Err(call_error(wrong)),
        },
    }
}

/// The `u64` member `key` of `value`; a call error with `missing` or
/// `wrong` where it is absent or not such an integer.
pub fn required_u64(value: &Json, key: &str, missing: &str, wrong: &str) -> (r: Result<u64, Error>)
    ensures
        match r {
            Ok(n) => required_unsigned(*value, key@, missing@, wrong@) == Ok::<u64, Seq<char>>(n),
            Err(e) => e is Call && required_unsigned(*value, key@, missing@, wrong@) == Err::<u64, Seq<char>>(e.text()),
        },
{
    match value.get(key) {
        None => Err(call_error(missing)),
        Some(v) => match v.as_u64() {
            Some(n) => Ok(n),
            None => Err(call_error(wrong)),
        },
    }
}

/// The first of `items` whose `name` member is the string `name`.
pub open spec fn first_named(items: Seq<Json>, name: Seq<char>) -> Option<Json>
    decreases items.len(),
{
    if items.len() == 0 {
        None
    } else if items[0].field("name"@) matches Some(n) && n.text() == Some(name) {
        Some(items[0])
    } else {
        first_named(items.drop_first(), name)
    }
}

/// The entry named `name` in the list `key` of a reply; `None` where the
/// reply has no such list, or no such entry in it.
pub open spec fn named_entry(response: Json, key: Seq<char>, name: Seq<char>) -> Option<Json> {
    match response.field(key) {
        Some(l) => match l.items() {
            Some(items) => first_named(items, name),
            None => None,
        },
        None => None,
    }
}

/// The entry named `name` in the list `key` of `response`.
pub fn find_named<'a>(response: &'a Json, key: &str, name: &str) -> (r: Option<&'a Json>)
    ensures
        match r {
            Some(v) => named_entry(*response, key@, name@) == Some(*v),
            None => named_entry(*response, key@, name@) is None,
        },
{
    let list = match response.get(key) {
        Some(l) => l,
        None => return None,
    };
    let items = match list.as_array() {
        Some(items) => items,
        None => return None,
    };
    let ghost listed = response.field(key@)->Some_0.items()->Some_0;
    assert(listed == items@);
    let mut i: usize = 0;
    assert(items@.skip(0) =~= items@);
    while i < items.len()
        invariant
            i <= items@.len(),
            named_entry(*response, key@, name@) == first_named(items@.skip(i as int), name@),
        decreases items@.len() - i,
    {
        assert(items@.skip(i as int).drop_first() =~= items@.skip(i + 1));
        assert(items@.skip(i as int)[0] == items@[i as int]);
        let found = match items[i].get("name") {
            Some(n) => match n.as_str() {
                Some(t) => str_eq(t, name),
                None => false,
            },
            None => false,
        };
        if found {
            return Some(&items[i]);
        }
        i = i + 1;
    }
    None
}

} // verus!
