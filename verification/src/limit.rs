//! The system's locked-memory limits: a finite kilobyte quantity or
//! "unlimited", parsed from the limit-query utility's output.

use vstd::prelude::*;
use crate::text::{all_digits, dec_seq, dec_value, parse_u64, split_ws, split_whitespace_tokens, str_eq, u64_to_string};

verus! {

/// A locked-memory limit: a finite number of kilobytes, or unlimited.
#[derive(Debug, Clone, Copy, PartialEq, Eq, Structural)]
pub enum Limit {
    Kb(u64),
    Unlimited,
}

/// What one limit token parses to: the literal `unlimited`, or a byte
/// count converted to kilobytes by integer division; anything else is
/// rejected.
pub open spec fn spec_parse_limit(s: Seq<char>) -> Option<Limit> {
    if s == "unlimited"@ {
        Some(Limit::Unlimited)
    } else if s.len() > 0 && all_digits(s) && dec_value(s) <= u64::MAX {
        Some(Limit::Kb((dec_value(s) / 1024) as u64))
    } else {
        None
    }
}

impl Limit {
    /// Parses one limit token.
    pub fn from_str(s: &str) -> (r: Result<Limit, ()>)
        ensures
            r == match spec_parse_limit(s@) {
                Some(l) => Result::<Limit, ()>::Ok(l),
                None => Result::<Limit, ()>::Err(()),
            },
    {
        if str_eq(s, "unlimited") {
            Ok(Limit::Unlimited)
        } else {
            match parse_u64(s) {
                Some(n) => Ok(Limit::Kb(n / 1024)),
                None => Err(()),
            }
        }
    }

    /// The limit's textual form: the kilobyte count in decimal, or the
    /// word `unlimited`.
    pub open spec fn spec_text(self) -> Seq<char> {
        match self {
            Limit::Kb(k) => dec_seq(k as nat),
            Limit::Unlimited => "unlimited"@,
        }
    }

    /// Renders the limit for the report.
    pub fn to_text(&self) -> (r: String)
        ensures
            r@ == self.spec_text(),
    {
        match self {
            Limit::Kb(k) => u64_to_string(*k),
            Limit::Unlimited => {
                let s = "unlimited";
                s.to_owned()
            },
        }
    }
}

/// The soft and hard locked-memory limits.
#[derive(Debug, Clone, Copy)]
pub struct MlockLimit {
    pub soft: Limit,
    pub hard: Limit,
}

/// What the limit-query output parses to: its first two
/// whitespace-separated tokens as soft and hard limits; fewer tokens,
/// or a token of the wrong shape, yield nothing.
pub open spec fn spec_parse_mlock_limit(s: Seq<char>) -> Option<(Limit, Limit)> {
    let toks = split_ws(s);
    if toks.len() >= 2 {
        match (spec_parse_limit(toks[0]), spec_parse_limit(toks[1])) {
            (Some(soft), Some(hard)) => Some((soft, hard)),
            _ => None,
        }
    } else {
        None
    }
}

/// Parses the limit-query utility's whole output.  The caller treats a
/// result of nothing as an unrecoverable setup fault.
pub fn parse_mlock_limit(s: &str) -> (r: Option<MlockLimit>)
    ensures
        r matches Some(m) ==> spec_parse_mlock_limit(s@) == Some((m.soft, m.hard)),
        r is None ==> spec_parse_mlock_limit(s@) is None,
{
    let toks = split_whitespace_tokens(s);
    if toks.len() < 2 {
        return None;
    }
    proof {
        assert(toks.deep_view()[0] == toks@[0]@);
        assert(toks.deep_view()[1] == toks@[1]@);
    }
    let soft = match Limit::from_str(toks[0].as_str()) {
        Ok(l) => l,
        Err(_) => {
            return None;
        },
    };
    let hard = match Limit::from_str(toks[1].as_str()) {
        Ok(l) => l,
        Err(_) => {
            return None;
        },
    };
    Some(MlockLimit { soft, hard })
}

} // verus!
