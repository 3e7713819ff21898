//! Parses the process-table listing: a header line followed by
//! fixed-column rows, with the process id in the second field and the
//! command in the eighth.  Rows that do not fit the layout are skipped,
//! and known compiler helper processes are filtered out.

use vstd::prelude::*;
use crate::database::Pid;
use crate::text::{all_digits, basename, basename_spec, dec_value, split_lines, split_lines_vec,
    split_ws, split_whitespace_tokens, str_eq};

verus! {

/// Child processes with these names are of no interest and are dropped
/// from every snapshot.
pub open spec fn ignored_name(n: Seq<char>) -> bool {
    n == "rustc"@ || n == "[rustc]"@ || n == "rustdoc"@
}

fn is_ignored(n: &str) -> (r: bool)
    ensures
        r == ignored_name(n@),
{
    str_eq(n, "rustc") || str_eq(n, "[rustc]") || str_eq(n, "rustdoc")
}

/// What one listing row yields: the id from the second field and the
/// command name from the eighth, stripped of its path prefix.  A row
/// with too few fields, an id that is not a number, or an ignored name
/// yields nothing.
pub open spec fn spec_parse_row(line: Seq<char>) -> Option<(Pid, Seq<char>)> {
    let toks = split_ws(line);
    if toks.len() < 8 {
        None
    } else if !(toks[1].len() > 0 && all_digits(toks[1]) && dec_value(toks[1]) <= Pid::MAX) {
        None
    } else if ignored_name(basename_spec(toks[7])) {
        None
    } else {
        Some((dec_value(toks[1]) as Pid, basename_spec(toks[7])))
    }
}

/// The (id, name) pairs of the listing's data rows, in order.
pub open spec fn spec_parse_rows(lines: Seq<Seq<char>>) -> Seq<(Pid, Seq<char>)>
    decreases lines.len(),
{
    if lines.len() == 0 {
        Seq::empty()
    } else {
        spec_parse_rows(lines.drop_last()) + match spec_parse_row(lines.last()) {
            Some(p) => seq![p],
            None => Seq::empty(),
        }
    }
}

/// The pairs yielded by a whole listing, its header line skipped.
pub open spec fn spec_parse_listing(s: Seq<char>) -> Seq<(Pid, Seq<char>)> {
    spec_parse_rows(split_lines(s).drop_first())
}

fn parse_row(line: &str) -> (r: Option<(Pid, String)>)
    ensures
        match r {
            Some(p) => spec_parse_row(line@) == Some((p.0, p.1@)),
            None => spec_parse_row(line@) is None,
        },
{
    let toks = split_whitespace_tokens(line);
    if toks.len() < 8 {
        return None;
    }
    proof {
        assert(toks.deep_view()[1] == toks@[1]@);
        assert(toks.deep_view()[7] == toks@[7]@);
    }
    let pid_wide = match crate::text::parse_u64(toks[1].as_str()) {
        Some(v) => v,
        None => {
            return None;
        },
    };
    if pid_wide > Pid::MAX as u64 {
        return None;
    }
    let pid = pid_wide as Pid;
    let name = basename(toks[7].as_str());
    if is_ignored(name.as_str()) {
        return None;
    }
    Some((pid, name))
}

/// Parses the process-listing output into the discovered (id, name)
/// snapshot.  An output with no data rows yields an empty snapshot.
pub fn parse_ps_output(s: &str) -> (r: Vec<(Pid, String)>)
    ensures
        r.deep_view() == spec_parse_listing(s@),
{
    let lines = split_lines_vec(s);
    let n = lines.len();
    let ghost data = lines.deep_view().drop_first();
    let mut out: Vec<(Pid, String)> = Vec::new();
    let mut i: usize = 1;
    proof {
        assert(data.take(0) =~= Seq::<Seq<char>>::empty());
        assert(out.deep_view() =~= Seq::<(Pid, Seq<char>)>::empty());
    }
    while i < n
        invariant
            n == lines.len(),
            lines.deep_view().len() == n,
            1 <= n,
            1 <= i <= n,
            data == lines.deep_view().drop_first(),
            out.deep_view() == spec_parse_rows(data.take(i - 1)),
        decreases n - i,
    {
        proof {
            assert(data.take(i as int).drop_last() =~= data.take(i - 1));
            assert(data.take(i as int).last() == lines.deep_view()[i as int]);
            assert(lines.deep_view()[i as int] == lines@[i as int]@);
        }
        let ghost prev = out.deep_view();
        match parse_row(lines[i].as_str()) {
            Some(p) => {
                let ghost pv = (p.0, p.1@);
                out.push(p);
                proof {
                    assert(out.deep_view() =~= prev.push(pv));
                    assert(prev.push(pv) =~= prev + seq![pv]);
                }
            },
            None => {
                proof {
                    assert(spec_parse_rows(data.take(i as int)) =~= prev);
                }
            },
        }
        i = i + 1;
    }
    proof {
        assert(data.take(n - 1) =~= data);
    }
    out
}

} // verus!
