//! The built-in data types' properties: which names an array, a dictionary,
//! a number or a string answers to, and how many arguments each of those
//! methods takes.
use vstd::prelude::*;
use crate::text::str_equals;

verus! {

/// Why a property could not be read or written.
#[derive(Clone, Copy, Debug, PartialEq, Eq, Structural)]
pub enum Error {
    CannotGetProperty,
    CannotSetProperty,
}

/// The methods of an array.
#[derive(Clone, Copy, Debug, PartialEq, Eq, Structural)]
pub enum ArrayMethod {
    Len,
    IsEmpty,
    Push,
    Pop,
    Remove,
}

/// The methods of a dictionary.
#[derive(Clone, Copy, Debug, PartialEq, Eq, Structural)]
pub enum DictMethod {
    Len,
    Keys,
    Values,
    Remove,
}

/// The methods of a number.
#[derive(Clone, Copy, Debug, PartialEq, Eq, Structural)]
pub enum NumberMethod {
    Fract,
    Abs,
    Floor,
    Ceil,
}

/// The methods of a string.
#[derive(Clone, Copy, Debug, PartialEq, Eq, Structural)]
pub enum StringMethod {
    Len,
    Chars,
}

pub open spec fn array_method_spec(name: Seq<char>) -> Option<ArrayMethod> {
    if name == "len"@ {
        Some(ArrayMethod::Len)
    } else if name == "is_empty"@ {
        Some(ArrayMethod::IsEmpty)
    } else if name == "push"@ {
        Some(ArrayMethod::Push)
    } else if name == "pop"@ {
        Some(ArrayMethod::Pop)
    } else if name == "remove"@ {
        Some(ArrayMethod::Remove)
    } else {
        None
    }
}

pub open spec fn dict_method_spec(name: Seq<char>) -> Option<DictMethod> {
    if name == "len"@ {
        Some(DictMethod::Len)
    } else if name == "keys"@ {
        Some(DictMethod::Keys)
    } else if name == "values"@ {
        Some(DictMethod::Values)
    } else if name == "remove"@ {
        Some(DictMethod::Remove)
    } else {
        None
    }
}

pub open spec fn number_method_spec(name: Seq<char>) -> Option<NumberMethod> {
    if name == "fract"@ {
        Some(NumberMethod::Fract)
    } else if name == "abs"@ {
        Some(NumberMethod::Abs)
    } else if name == "floor"@ {
        Some(NumberMethod::Floor)
    } else if name == "ceil"@ {
        Some(NumberMethod::Ceil)
    } else {
        None
    }
}

pub open spec fn string_method_spec(name: Seq<char>) -> Option<StringMethod> {
    if name == "len"@ {
        Some(StringMethod::Len)
    } else if name == "chars"@ {
        Some(StringMethod::Chars)
    } else {
        None
    }
}

/// The array method called `name`; reading any other property of an array
/// fails with `CannotGetProperty`.
pub fn array_property(name: &str) -> (r: Result<ArrayMethod, Error>)
    ensures
        r == (match array_method_spec(name@) {
            Some(m) => Ok(m),
            None => Err(Error::CannotGetProperty),
        }),
{
    if str_equals(name, "len") {
        Ok(ArrayMethod::Len)
    } else if str_equals(name, "is_empty") {
        Ok(ArrayMethod::IsEmpty)
    } else if str_equals(name, "push") {
        Ok(ArrayMethod::Push)
    } else if str_equals(name, "pop") {
        Ok(ArrayMethod::Pop)
    } else if str_equals(name, "remove") {
        Ok(ArrayMethod::Remove)
    } else {
        Err(Error::CannotGetProperty)
    }
}

/// The dictionary method called `name`; reading any other property of a
/// dictionary fails with `CannotGetProperty`.
pub fn dict_property(name: &str) -> (r: Result<DictMethod, Error>)
    ensures
        r == (match dict_method_spec(name@) {
            Some(m) => Ok(m),
            None => Err(Error::CannotGetProperty),
        }),
{
    if str_equals(name, "len") {
        Ok(DictMethod::Len)
    } else if str_equals(name, "keys") {
        Ok(DictMethod::Keys)
    } else if str_equals(name, "values") {
        Ok(DictMethod::Values)
    } else if str_equals(name, "remove") {
        Ok(DictMethod::Remove)
    } else {
        Err(Error::CannotGetProperty)
    }
}

/// The number method called `name`; reading any other property of a number
/// fails with `CannotGetProperty`.
pub fn number_property(name: &str) -> (r: Result<NumberMethod, Error>)
    ensures
        r == (match number_method_spec(name@) {
            Some(m) => Ok(m),
            None => Err(Error::CannotGetProperty),
        }),
{
    if str_equals(name, "fract") {
        Ok(NumberMethod::Fract)
    } else if str_equals(name, "abs") {
        Ok(NumberMethod::Abs)
    } else if str_equals(name, "floor") {
        Ok(NumberMethod::Floor)
    } else if str_equals(name, "ceil") {
        Ok(NumberMethod::Ceil)
    } else {
        Err(Error::CannotGetProperty)
    }
}

/// The string method called `name`; reading any other property of a string
/// fails with `CannotGetProperty`.
pub fn string_property(name: &str) -> (r: Result<StringMethod, Error>)
    ensures
        r == (match string_method_spec(name@) {
            Some(m) => Ok(m),
            None => Err(Error::CannotGetProperty),
        }),
{
    if str_equals(name, "len") {
        Ok(StringMethod::Len)
    } else if str_equals(name, "chars") {
        Ok(StringMethod::Chars)
    } else {
        Err(Error::CannotGetProperty)
    }
}

impl ArrayMethod {
    /// How many arguments the method takes: one for `push` and `remove`,
    /// none for the others.
    pub fn arity(&self) -> (r: usize)
        ensures
            r == (if *self == ArrayMethod::Push || *self == ArrayMethod::Remove {
                1usize
            } else {
                0usize
            }),
    {
        match self {
            ArrayMethod::Push | ArrayMethod::Remove => 1,
            _ => 0,
        }
    }
}

impl DictMethod {
    /// How many arguments the method takes: one for `remove`, none for the
    /// others.
    pub fn arity(&self) -> (r: usize)
        ensures
            r == (if *self == DictMethod::Remove {
                1usize
            } else {
                0usize
            }),
    {
        match self {
            DictMethod::Remove => 1,
            _ => 0,
        }
    }
}

} // verus!
