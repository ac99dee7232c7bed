//! The ways building or decoding a key tree can fail.
use vstd::prelude::*;

verus! {

/// An error happened while building the key tree or while decoding it.
#[derive(Debug, PartialEq, Eq)]
pub enum EnvDeserializationError {
    /// A value could not be decoded: the text says why.
    GenericDeserialization(String),
    /// A map or a struct was requested where the tree holds a single value.
    UnsupportedValue,
    /// A nested group of keys stands where a single value was expected.
    InvalidNestedValues,
    /// A key continues below a key that already holds a value; the path from
    /// the clashing segment on.
    InvalidEnvNesting(Vec<String>),
}

/// The message for a value that its primitive type could not parse.
pub open spec fn parse_failure_text(value: Seq<char>, reason: Seq<char>) -> Seq<char> {
    seq!['\''] + value + "' could not be deserialized due to: "@ + reason
}

impl EnvDeserializationError {
    /// The error for a value that its primitive type could not parse, with
    /// the parser's own explanation.
    pub fn parse_failure(value: &str, reason: &str) -> (r: Self)
        ensures
            r matches EnvDeserializationError::GenericDeserialization(m) && m@ == parse_failure_text(
                value@,
                reason@,
            ),
    {
        let mut m = String::new();
        m.push('\'');
        m.append(value);
        m.append("' could not be deserialized due to: ");
        m.append(reason);
        proof {
            assert(m@ =~= parse_failure_text(value@, reason@));
        }
        EnvDeserializationError::GenericDeserialization(m)
    }
}

} // verus!
