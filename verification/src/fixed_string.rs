use vstd::prelude::*;

verus! {

/// Wrapper for a fixed-width string column value. On the wire such a value
/// is written with its schema-declared byte width and no length prefix,
/// unlike the default variable-length string encoding, so it needs its own
/// carrier type when bound or decoded.
pub struct FixedString {
    pub string: String,
}

impl FixedString {
    pub fn new(string: String) -> (r: Self)
        ensures
            r.string@ == string@,
    {
        FixedString { string }
    }
}

impl From<String> for FixedString {
    fn from(value: String) -> (r: Self) {
        FixedString { string: value }
    }
}

impl vstd::std_specs::convert::FromSpecImpl<String> for FixedString {
    open spec fn obeys_from_spec() -> bool {
        true
    }

    open spec fn from_spec(t: String) -> Self {
        FixedString { string: t }
    }
}

} // verus!
