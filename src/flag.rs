use vstd::prelude::*;

verus! {

/// The abstract identity of a flag: a single character or a
/// multi-character name.
pub enum FlagId {
    Short(char),
    Long(Seq<char>),
}

/// A flag specifier: `-c` or `--name`.
#[derive(PartialEq, Eq, Debug)]
pub enum Flag {
    Short(char),
    Long(String),
}

impl View for Flag {
    type V = FlagId;

    open spec fn view(&self) -> FlagId {
        match self {
            Flag::Short(c) => FlagId::Short(*c),
            Flag::Long(s) => FlagId::Long(s@),
        }
    }
}

impl Flag {
    /// Two flags are the same when tag and payload agree.
    pub fn same_as(&self, other: &Flag) -> (r: bool)
        ensures
            r == (self@ == other@),
    {
        match (self, other) {
            (Flag::Short(a), Flag::Short(b)) => *a == *b,
            (Flag::Long(a), Flag::Long(b)) => a.eq(b),
            _ => false,
        }
    }

    /// A copy of this flag.
    pub fn duplicate(&self) -> (r: Flag)
        ensures
            r@ == self@,
    {
        match self {
            Flag::Short(c) => Flag::Short(*c),
            Flag::Long(s) => Flag::Long(s.clone()),
        }
    }
}

} // verus!
