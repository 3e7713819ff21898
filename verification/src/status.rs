//! Extracts the locked-memory figure from a process's status record: a
//! line-oriented text where the relevant line starts with `VmLck` and
//! carries the value in kilobytes as its second field.

use vstd::prelude::*;
use crate::text::{all_digits, dec_value, has_prefix, parse_u64, split_lines, split_lines_vec,
    split_ws, split_whitespace_tokens, str_has_prefix};

verus! {

/// What the line beginning with the field name yields: the second
/// whitespace-separated token read as a number, if it is one.
pub open spec fn spec_lck_line_value(line: Seq<char>) -> Option<u64> {
    let toks = split_ws(line);
    if toks.len() >= 2 && toks[1].len() > 0 && all_digits(toks[1]) && dec_value(toks[1])
        <= u64::MAX {
        Some(dec_value(toks[1]) as u64)
    } else {
        None
    }
}

/// The locked-memory value of a status record: what the first line
/// starting with `VmLck` yields; nothing when no line does.
pub open spec fn spec_status_value(lines: Seq<Seq<char>>) -> Option<u64>
    decreases lines.len(),
{
    if lines.len() == 0 {
        None
    } else if has_prefix(lines[0], "VmLck"@) {
        spec_lck_line_value(lines[0])
    } else {
        spec_status_value(lines.drop_first())
    }
}

/// Parses a status record for the amount of locked memory.  A missing
/// field or an unreadable value is a normal "no data" outcome, never an
/// error.
pub fn parse_status_text(content: &str) -> (r: Option<u64>)
    ensures
        r == spec_status_value(split_lines(content@)),
{
    let lines = split_lines_vec(content);
    let n = lines.len();
    let mut i: usize = 0;
    proof {
        assert(lines.deep_view().skip(0) =~= lines.deep_view());
    }
    while i < n
        invariant
            n == lines.len(),
            lines.deep_view().len() == n,
            i <= n,
            spec_status_value(split_lines(content@))
                == spec_status_value(lines.deep_view().skip(i as int)),
        decreases n - i,
    {
        proof {
            assert(lines.deep_view().skip(i as int).drop_first()
                =~= lines.deep_view().skip(i + 1));
            assert(lines.deep_view().skip(i as int)[0] == lines.deep_view()[i as int]);
            assert(lines.deep_view()[i as int] == lines@[i as int]@);
        }
        if str_has_prefix(lines[i].as_str(), "VmLck") {
            let toks = split_whitespace_tokens(lines[i].as_str());
            if toks.len() < 2 {
                return None;
            }
            proof {
                assert(toks.deep_view()[1] == toks@[1]@);
            }
            return parse_u64(toks[1].as_str());
        }
        i = i + 1;
    }
    proof {
        assert(lines.deep_view().skip(n as int) =~= Seq::<Seq<char>>::empty());
    }
    None
}

} // verus!
