//! Composer stability flags, ordered from least to most stable:
//! `dev < alpha < beta < RC < stable`.

use vstd::prelude::*;
use crate::text::{chars_eq, lower, lower_chars, to_chars};

verus! {

#[derive(Debug, Clone, Copy, PartialEq, Eq, Structural, PartialOrd, Ord, Hash)]
pub enum Stability {
    Dev,
    Alpha,
    Beta,
    Rc,
    Stable,
}

impl Stability {
    /// Position in the order `dev < alpha < beta < RC < stable` (the
    /// declaration order, which the derived `Ord` follows).
    pub open spec fn rank(self) -> nat {
        match self {
            Stability::Dev => 0,
            Stability::Alpha => 1,
            Stability::Beta => 2,
            Stability::Rc => 3,
            Stability::Stable => 4,
        }
    }

    /// The stability a keyword names, compared after ASCII lower-casing.
    pub open spec fn from_keyword(s: Seq<char>) -> Option<Stability> {
        let l = lower(s);
        if l == "dev"@ {
            Some(Stability::Dev)
        } else if l == "alpha"@ {
            Some(Stability::Alpha)
        } else if l == "beta"@ {
            Some(Stability::Beta)
        } else if l == "rc"@ {
            Some(Stability::Rc)
        } else if l == "stable"@ {
            Some(Stability::Stable)
        } else {
            None
        }
    }

    /// The canonical keyword (`RC` upper-case, the rest lower-case).
    pub open spec fn keyword(self) -> Seq<char> {
        match self {
            Stability::Dev => "dev"@,
            Stability::Alpha => "alpha"@,
            Stability::Beta => "beta"@,
            Stability::Rc => "RC"@,
            Stability::Stable => "stable"@,
        }
    }

    /// Parse a Composer stability keyword (case-insensitive); `None` for
    /// anything else. Matches the keywords `minimum-stability` accepts.
    pub fn parse(s: &str) -> (r: Option<Self>)
        ensures
            r == Self::from_keyword(s@),
    {
        let l = lower_chars(&to_chars(s));
        if chars_eq(&l, &to_chars("dev")) {
            Some(Self::Dev)
        } else if chars_eq(&l, &to_chars("alpha")) {
            Some(Self::Alpha)
        } else if chars_eq(&l, &to_chars("beta")) {
            Some(Self::Beta)
        } else if chars_eq(&l, &to_chars("rc")) {
            Some(Self::Rc)
        } else if chars_eq(&l, &to_chars("stable")) {
            Some(Self::Stable)
        } else {
            None
        }
    }

    pub fn as_str(self) -> (r: &'static str)
        ensures
            r@ == self.keyword(),
    {
        match self {
            Self::Dev => "dev",
            Self::Alpha => "alpha",
            Self::Beta => "beta",
            Self::Rc => "RC",
            Self::Stable => "stable",
        }
    }
}

/// Every keyword `as_str` renders parses back to the same stability.
pub proof fn law_keyword_round_trip(st: Stability)
    ensures
        Stability::from_keyword(st.keyword()) == Some(st),
{
    reveal_strlit("dev");
    reveal_strlit("alpha");
    reveal_strlit("beta");
    reveal_strlit("rc");
    reveal_strlit("RC");
    reveal_strlit("stable");
    match st {
        Stability::Dev => { assert(lower("dev"@) =~= "dev"@); },
        Stability::Alpha => {
            assert(lower("alpha"@) =~= "alpha"@);
            assert("alpha"@ != "dev"@);
        },
        Stability::Beta => {
            assert(lower("beta"@) =~= "beta"@);
            assert("beta"@ != "dev"@);
            assert("beta"@ != "alpha"@);
        },
        Stability::Rc => {
            assert(lower("RC"@) =~= "rc"@);
            assert("rc"@ != "dev"@);
            assert("rc"@ != "alpha"@);
            assert("rc"@ != "beta"@);
        },
        Stability::Stable => {
            assert(lower("stable"@) =~= "stable"@);
            assert("stable"@ != "dev"@);
            assert("stable"@ != "alpha"@);
            assert("stable"@ != "beta"@);
            assert("stable"@ != "rc"@);
        },
    }
}

} // verus!
