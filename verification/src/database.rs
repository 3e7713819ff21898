//! The measurement database: a mapping from process id to the process's
//! name and the peak locked-memory value observed for it, kept sorted by
//! id so that reporting iterates deterministically.

use vstd::prelude::*;
use crate::text::{dec_seq, u64_to_string, push_char, push_repeat, repeat_char};

verus! {

/// An OS-assigned process identifier.
pub type Pid = u32;

/// A process name.
pub type Pname = String;

/// What the database records for one process: its name and the largest
/// locked-memory sample (in kilobytes) seen for it so far.
#[derive(Debug)]
pub struct Pinfo {
    pub pname: Pname,
    pub max_locked: u64,
}

/// The number of space characters between the table's columns.
pub const COLUMN_BUFFER: usize = 8;

/// The mathematical model of the database: rows of
/// (id, name, peak locked kb), in strictly increasing id order.
pub open spec fn rows_sorted(rows: Seq<(Pid, Seq<char>, u64)>) -> bool {
    forall|i: int, j: int| 0 <= i < j < rows.len() ==> rows[i].0 < rows[j].0
}

pub open spec fn rows_contains(rows: Seq<(Pid, Seq<char>, u64)>, pid: Pid) -> bool {
    exists|i: int| 0 <= i < rows.len() && rows[i].0 == pid
}

/// The index of the row for `pid`; meaningful when the rows are sorted
/// and the id is present, since the index is then unique.
pub open spec fn row_index(rows: Seq<(Pid, Seq<char>, u64)>, pid: Pid) -> int {
    choose|i: int| 0 <= i < rows.len() && rows[i].0 == pid
}

/// How many rows hold an id below `pid`: the insertion position for a
/// new id in sorted rows.
pub open spec fn count_lt(rows: Seq<(Pid, Seq<char>, u64)>, pid: Pid) -> int
    decreases rows.len(),
{
    if rows.len() == 0 {
        0
    } else {
        count_lt(rows.drop_last(), pid) + if rows.last().0 < pid { 1int } else { 0int }
    }
}

/// The effect of registering a process: a fresh row with peak 0 at the
/// sorted position if the id is new, no change otherwise.
pub open spec fn register_model(
    rows: Seq<(Pid, Seq<char>, u64)>,
    pid: Pid,
    pname: Seq<char>,
) -> Seq<(Pid, Seq<char>, u64)> {
    if rows_contains(rows, pid) {
        rows
    } else {
        rows.insert(count_lt(rows, pid), (pid, pname, 0u64))
    }
}

/// The effect of recording a sample: the row's peak is raised to the
/// sample if the sample is larger; an unknown id changes nothing.
pub open spec fn update_model(
    rows: Seq<(Pid, Seq<char>, u64)>,
    pid: Pid,
    kb: u64,
) -> Seq<(Pid, Seq<char>, u64)> {
    if rows_contains(rows, pid) {
        let i = row_index(rows, pid);
        let row = rows[i];
        rows.update(i, (pid, row.1, if kb > row.2 { kb } else { row.2 }))
    } else {
        rows
    }
}

/// Mapping from process id to process metadata, sorted by id.
#[derive(Debug)]
pub struct Database {
    entries: Vec<(Pid, Pinfo)>,
}

impl Database {
    /// The database's rows as a mathematical sequence.
    pub closed spec fn rows(&self) -> Seq<(Pid, Seq<char>, u64)> {
        self.entries@.map_values(|e: (Pid, Pinfo)| (e.0, e.1.pname@, e.1.max_locked))
    }

    /// Well-formedness: rows strictly sorted by id (so ids are unique
    /// and iteration order is deterministic).
    pub open spec fn wf(&self) -> bool {
        rows_sorted(self.rows())
    }

    pub fn new() -> (r: Database)
        ensures
            r.wf(),
            r.rows() == Seq::<(Pid, Seq<char>, u64)>::empty(),
    {
        let r = Database { entries: Vec::new() };
        proof {
            assert(r.rows() =~= Seq::<(Pid, Seq<char>, u64)>::empty());
        }
        r
    }

    pub fn contains(&self, pid: &Pid) -> (r: bool)
        ensures
            r == rows_contains(self.rows(), *pid),
    {
        let n = self.entries.len();
        let mut i: usize = 0;
        while i < n
            invariant
                n == self.entries.len(),
                i <= n,
                self.rows().len() == n,
                forall|k: int| 0 <= k < i ==> self.rows()[k].0 != *pid,
            decreases n - i,
        {
            if self.entries[i].0 == *pid {
                assert(self.rows()[i as int].0 == *pid);
                return true;
            }
            i = i + 1;
        }
        false
    }

    /// Registers a newly discovered process with peak 0.  Idempotent: an
    /// id already present is left exactly as it was.
    pub fn new_child_process(&mut self, pid: Pid, pname: Pname)
        requires
            old(self).wf(),
        ensures
            final(self).wf(),
            final(self).rows() == register_model(old(self).rows(), pid, pname@),
    {
        let ghost rows0 = self.rows();
        let n = self.entries.len();
        let mut k: usize = 0;
        while k < n && self.entries[k].0 < pid
            invariant
                n == self.entries.len(),
                k <= n,
                self.rows().len() == n,
                self == old(self),
                rows0 == self.rows(),
                rows_sorted(rows0),
                forall|j: int| 0 <= j < k ==> self.rows()[j].0 < pid,
            decreases n - k,
        {
            assert(self.rows()[k as int].0 == self.entries@[k as int].0);
            k = k + 1;
        }
        if k < n && self.entries[k].0 == pid {
            assert(self.rows()[k as int].0 == pid);
            assert(rows_contains(rows0, pid));
            return;
        }
        proof {
            assert(k < n ==> self.rows()[k as int].0 > pid);
            assert forall|i: int| 0 <= i < n implies self.rows()[i].0 != pid by {
                if i >= k && k < n {
                    assert(i > k ==> self.rows()[k as int].0 < self.rows()[i].0);
                }
            }
            assert(!rows_contains(rows0, pid));
            lemma_count_lt_at_boundary(rows0, pid, k as int);
        }
        let entry = (pid, Pinfo { pname, max_locked: 0 });
        let ghost new_row = (pid, entry.1.pname@, 0u64);
        self.entries.insert(k, entry);
        proof {
            rows0.insert_ensures(k as int, new_row);
            assert(self.rows() =~= rows0.insert(k as int, new_row));
            assert forall|i: int, j: int|
                0 <= i < j < self.rows().len() implies self.rows()[i].0 < self.rows()[j].0 by {
                if i < k && j < k {
                } else if i < k && j == k {
                } else if i == k && j > k {
                    assert(self.rows()[j] == rows0[j - 1]);
                } else if i < k && j > k {
                    assert(self.rows()[j] == rows0[j - 1]);
                    if j - 1 > k {
                        assert(rows0[k as int].0 < rows0[j - 1].0);
                    }
                } else {
                    assert(self.rows()[i] == rows0[i - 1]);
                    assert(self.rows()[j] == rows0[j - 1]);
                    if i - 1 >= k && i - 1 < j - 1 {
                        assert(rows0[i - 1].0 < rows0[j - 1].0);
                    } else if i == k {
                    }
                }
            }
        }
    }

    /// Records a locked-memory sample: raises the row's peak to the
    /// sample if it is larger.  A sample for an unknown id is dropped.
    pub fn update(&mut self, pid: Pid, kbs_locked: u64)
        requires
            old(self).wf(),
        ensures
            final(self).wf(),
            final(self).rows() == update_model(old(self).rows(), pid, kbs_locked),
    {
        let ghost rows0 = self.rows();
        let n = self.entries.len();
        let mut i: usize = 0;
        while i < n
            invariant
                n == self.entries.len(),
                i <= n,
                self.rows().len() == n,
                self == old(self),
                rows0 == self.rows(),
                rows_sorted(rows0),
                forall|k: int| 0 <= k < i ==> self.rows()[k].0 != pid,
            decreases n - i,
        {
            if self.entries[i].0 == pid {
                proof {
                    assert(self.rows()[i as int].0 == pid);
                    assert(rows0 == self.rows());
                    assert(rows0[i as int].0 == pid);
                    assert(rows_contains(rows0, pid));
                    let j = row_index(rows0, pid);
                    assert(0 <= j < rows0.len() && rows0[j].0 == pid);
                    if j < i as int {
                        assert(rows0[j].0 < rows0[i as int].0);
                    } else if j > i as int {
                        assert(rows0[i as int].0 < rows0[j].0);
                    }
                    assert(j == i as int);
                }
                let old_info = &self.entries[i].1;
                let new_peak = if kbs_locked > old_info.max_locked {
                    kbs_locked
                } else {
                    old_info.max_locked
                };
                let name = old_info.pname.clone();
                proof {
                    assert(name@ == self.entries@[i as int].1.pname@);
                }
                self.entries[i] = (pid, Pinfo { pname: name, max_locked: new_peak });
                proof {
                    let row = rows0[i as int];
                    assert(self.rows() =~= rows0.update(
                        i as int,
                        (pid, row.1, if kbs_locked > row.2 { kbs_locked } else { row.2 }),
                    ));
                    assert forall|a: int, b: int|
                        0 <= a < b < self.rows().len() implies self.rows()[a].0 < self.rows()[b].0 by {
                        assert(self.rows()[a].0 == rows0[a].0);
                        assert(self.rows()[b].0 == rows0[b].0);
                    }
                }
                return;
            }
            i = i + 1;
        }
        assert(!rows_contains(rows0, pid));
    }

    /// Renders the two-column report table: headings, a border row, one
    /// row per process in id order, and a bottom border.
    pub fn table(&self) -> (r: String)
        ensures
            r@ == table_str(self.rows()),
    {
        let h1 = "Process Name";
        let h2 = "Max Locked Memory (kb)";
        let h1len = h1.unicode_len();
        let h2len = h2.unicode_len();
        let n = self.entries.len();
        let mut cs: u128 = h1len as u128 + COLUMN_BUFFER as u128;
        let mut i: usize = 0;
        proof {
            assert(self.rows().take(0) =~= Seq::<(Pid, Seq<char>, u64)>::empty());
        }
        while i < n
            invariant
                n == self.entries.len(),
                self.rows().len() == n,
                i <= n,
                h1len as nat == col1_heading().len(),
                cs <= usize::MAX as u128 + COLUMN_BUFFER as u128,
                cs as nat == col2_start(self.rows().take(i as int)),
            decreases n - i,
        {
            proof {
                assert(self.rows().take(i + 1).drop_last() =~= self.rows().take(i as int));
                assert(self.rows().take(i + 1).last() == self.rows()[i as int]);
                assert(self.rows()[i as int].1 == self.entries@[i as int].1.pname@);
            }
            let nl = self.entries[i].1.pname.as_str().unicode_len();
            let c = nl as u128 + COLUMN_BUFFER as u128;
            if c > cs {
                cs = c;
            }
            i = i + 1;
        }
        proof {
            assert(self.rows().take(n as int) =~= self.rows());
            lemma_col2_start_bounds(self.rows());
        }
        let ghost cs_nat = cs as nat;
        let ghost gap = repeat_char((cs_nat - col1_heading().len()) as nat, ' ');
        let mut out = String::new();
        push_char(&mut out, '\n');
        out.append(h1);
        push_repeat(&mut out, ' ', cs - h1len as u128);
        out.append(h2);
        push_char(&mut out, '\n');
        push_repeat(&mut out, '=', h1len as u128);
        push_repeat(&mut out, ' ', cs - h1len as u128);
        push_repeat(&mut out, '=', h2len as u128);
        push_char(&mut out, '\n');
        let ghost header = seq!['\n'] + col1_heading() + gap + col2_heading() + seq!['\n']
            + repeat_char(col1_heading().len(), '=') + gap + repeat_char(col2_heading().len(), '=')
            + seq!['\n'];
        proof {
            assert(out@ =~= header);
        }
        let mut i: usize = 0;
        proof {
            assert(self.rows().take(0) =~= Seq::<(Pid, Seq<char>, u64)>::empty());
            assert(header + rows_body(self.rows().take(0), cs_nat) =~= header);
        }
        while i < n
            invariant
                n == self.entries.len(),
                self.rows().len() == n,
                i <= n,
                cs <= usize::MAX as u128 + COLUMN_BUFFER as u128,
                cs as nat == cs_nat,
                forall|k: int|
                    0 <= k < n ==> cs_nat >= #[trigger] self.rows()[k].1.len()
                        + COLUMN_BUFFER as nat,
                out@ == header + rows_body(self.rows().take(i as int), cs_nat),
            decreases n - i,
        {
            proof {
                assert(self.rows().take(i + 1).drop_last() =~= self.rows().take(i as int));
                assert(self.rows().take(i + 1).last() == self.rows()[i as int]);
                assert(self.rows()[i as int].1 == self.entries@[i as int].1.pname@);
                assert(self.rows()[i as int].2 == self.entries@[i as int].1.max_locked);
            }
            let ghost out0 = out@;
            let name = &self.entries[i].1.pname;
            let nl = name.as_str().unicode_len();
            out.append(name.as_str());
            push_repeat(&mut out, ' ', cs - nl as u128);
            let num = u64_to_string(self.entries[i].1.max_locked);
            out.append(num.as_str());
            push_char(&mut out, '\n');
            proof {
                assert(out@ =~= out0 + row_line(self.rows()[i as int], cs_nat));
                assert(out@ =~= header + rows_body(self.rows().take(i + 1), cs_nat));
            }
            i = i + 1;
        }
        push_repeat(&mut out, '=', cs + h2len as u128);
        proof {
            assert(self.rows().take(n as int) =~= self.rows());
            assert(out@ =~= table_str(self.rows()));
        }
        out
    }
}

/// The peak that remains after folding a sequence of sample values
/// into a starting peak, each by the same raise-if-larger rule that
/// recording a sample applies.
pub open spec fn fold_peak(vals: Seq<u64>, p0: u64) -> u64
    decreases vals.len(),
{
    if vals.len() == 0 {
        p0
    } else {
        let p = fold_peak(vals.drop_last(), p0);
        if vals.last() > p {
            vals.last()
        } else {
            p
        }
    }
}

/// Law: the folded peak is the maximum of the starting peak and all
/// sample values — it bounds every one of them and is attained by one
/// of them (or is the starting peak itself).
pub proof fn lemma_fold_peak_is_max(vals: Seq<u64>, p0: u64)
    ensures
        fold_peak(vals, p0) >= p0,
        forall|i: int| 0 <= i < vals.len() ==> fold_peak(vals, p0) >= vals[i],
        fold_peak(vals, p0) == p0 || vals.contains(fold_peak(vals, p0)),
    decreases vals.len(),
{
    if vals.len() > 0 {
        lemma_fold_peak_is_max(vals.drop_last(), p0);
        let f = fold_peak(vals, p0);
        assert forall|i: int| 0 <= i < vals.len() implies f >= vals[i] by {
            if i < vals.len() - 1 {
                assert(vals.drop_last()[i] == vals[i]);
            }
        }
        if f == vals.last() {
            assert(vals[vals.len() - 1] == f);
        } else {
            let fp = fold_peak(vals.drop_last(), p0);
            if fp != p0 {
                let i = choose|i: int|
                    0 <= i < vals.drop_last().len() && vals.drop_last()[i] == fp;
                assert(vals[i] == fp);
            }
        }
    }
}

/// Law: the folded peak does not depend on the order in which the
/// samples arrive — any two sample sequences with the same values give
/// the same peak.
pub proof fn lemma_fold_peak_order_irrelevant(v1: Seq<u64>, v2: Seq<u64>, p0: u64)
    requires
        v1.to_multiset() == v2.to_multiset(),
    ensures
        fold_peak(v1, p0) == fold_peak(v2, p0),
{
    broadcast use vstd::seq_lib::to_multiset_contains;

    lemma_fold_peak_is_max(v1, p0);
    lemma_fold_peak_is_max(v2, p0);
    let f1 = fold_peak(v1, p0);
    let f2 = fold_peak(v2, p0);
    if f2 != p0 {
        vstd::seq_lib::to_multiset_contains(v1, f2);
        vstd::seq_lib::to_multiset_contains(v2, f2);
        assert(v2.contains(f2));
        assert(v1.contains(f2));
        let i = choose|i: int| 0 <= i < v1.len() && v1[i] == f2;
        assert(f1 >= f2);
    }
    if f1 != p0 {
        vstd::seq_lib::to_multiset_contains(v1, f1);
        vstd::seq_lib::to_multiset_contains(v2, f1);
        assert(v1.contains(f1));
        assert(v2.contains(f1));
        let i = choose|i: int| 0 <= i < v2.len() && v2[i] == f1;
        assert(f2 >= f1);
    }
}

/// The result of recording a whole sequence of samples for one id.
pub open spec fn apply_peaks(
    rows: Seq<(Pid, Seq<char>, u64)>,
    pid: Pid,
    vals: Seq<u64>,
) -> Seq<(Pid, Seq<char>, u64)>
    decreases vals.len(),
{
    if vals.len() == 0 {
        rows
    } else {
        update_model(apply_peaks(rows, pid, vals.drop_last()), pid, vals.last())
    }
}

/// In sorted rows an id has at most one row, so the row index is the
/// one witness.
proof fn lemma_row_index_unique(rows: Seq<(Pid, Seq<char>, u64)>, pid: Pid, i: int)
    requires
        rows_sorted(rows),
        0 <= i < rows.len(),
        rows[i].0 == pid,
    ensures
        rows_contains(rows, pid),
        row_index(rows, pid) == i,
{
    assert(rows_contains(rows, pid));
    let j = row_index(rows, pid);
    assert(0 <= j < rows.len() && rows[j].0 == pid);
    if j < i {
        assert(rows[j].0 < rows[i].0);
    } else if j > i {
        assert(rows[i].0 < rows[j].0);
    }
}

/// Law: a sequence of recorded samples for a known id leaves every
/// other row untouched and sets that id's peak to the fold of the
/// sample values over its previous peak — which, by
/// `lemma_fold_peak_is_max` and `lemma_fold_peak_order_irrelevant`, is
/// their maximum, in whatever order they arrived.
pub proof fn lemma_peak_after_samples(rows: Seq<(Pid, Seq<char>, u64)>, pid: Pid, vals: Seq<u64>)
    requires
        rows_sorted(rows),
        rows_contains(rows, pid),
    ensures
        apply_peaks(rows, pid, vals) == rows.update(
            row_index(rows, pid),
            (pid, rows[row_index(rows, pid)].1, fold_peak(vals, rows[row_index(rows, pid)].2)),
        ),
    decreases vals.len(),
{
    let i = row_index(rows, pid);
    assert(0 <= i < rows.len() && rows[i].0 == pid);
    if vals.len() == 0 {
        assert(rows.update(i, (pid, rows[i].1, rows[i].2)) =~= rows);
    } else {
        lemma_peak_after_samples(rows, pid, vals.drop_last());
        let r1 = apply_peaks(rows, pid, vals.drop_last());
        let fp = fold_peak(vals.drop_last(), rows[i].2);
        assert(r1 == rows.update(i, (pid, rows[i].1, fp)));
        assert(r1[i] == (pid, rows[i].1, fp));
        assert forall|a: int, b: int| 0 <= a < b < r1.len() implies r1[a].0 < r1[b].0 by {
            assert(r1[a].0 == rows[a].0);
            assert(r1[b].0 == rows[b].0);
        }
        lemma_row_index_unique(r1, pid, i);
        assert(apply_peaks(rows, pid, vals) == r1.update(
            i,
            (pid, rows[i].1, if vals.last() > fp { vals.last() } else { fp }),
        ));
        assert(r1.update(i, (pid, rows[i].1, fold_peak(vals, rows[i].2)))
            =~= rows.update(i, (pid, rows[i].1, fold_peak(vals, rows[i].2))));
    }
}

/// Law: registering an id twice is the same as registering it once —
/// the second registration leaves the database exactly as it was.
pub proof fn lemma_register_idempotent(rows: Seq<(Pid, Seq<char>, u64)>, pid: Pid, pname: Seq<char>)
    ensures
        register_model(register_model(rows, pid, pname), pid, pname)
            == register_model(rows, pid, pname),
{
    if !rows_contains(rows, pid) {
        lemma_count_lt_bounds(rows, pid);
        let k = count_lt(rows, pid);
        rows.insert_ensures(k, (pid, pname, 0u64));
        let r1 = rows.insert(k, (pid, pname, 0u64));
        assert(r1[k] == (pid, pname, 0u64));
        assert(rows_contains(r1, pid));
    }
}

/// Law: a sample for an id that was never registered changes nothing.
pub proof fn lemma_sample_unknown_id_noop(rows: Seq<(Pid, Seq<char>, u64)>, pid: Pid, kb: u64)
    requires
        !rows_contains(rows, pid),
    ensures
        update_model(rows, pid, kb) == rows,
{
}

/// The insertion position lies within the rows.
pub proof fn lemma_count_lt_bounds(rows: Seq<(Pid, Seq<char>, u64)>, pid: Pid)
    ensures
        0 <= count_lt(rows, pid) <= rows.len(),
    decreases rows.len(),
{
    if rows.len() > 0 {
        lemma_count_lt_bounds(rows.drop_last(), pid);
    }
}

/// The first column's heading.
pub open spec fn col1_heading() -> Seq<char> {
    "Process Name"@
}

/// The second column's heading.
pub open spec fn col2_heading() -> Seq<char> {
    "Max Locked Memory (kb)"@
}

/// The character offset at which the table's second column starts: the
/// longest name (the heading counts as one) plus the column buffer.
pub open spec fn col2_start(rows: Seq<(Pid, Seq<char>, u64)>) -> nat
    decreases rows.len(),
{
    if rows.len() == 0 {
        col1_heading().len() + COLUMN_BUFFER as nat
    } else {
        let p = col2_start(rows.drop_last());
        let c = rows.last().1.len() + COLUMN_BUFFER as nat;
        if c > p {
            c
        } else {
            p
        }
    }
}

/// One rendered table row: name, padding to the second column, peak.
pub open spec fn row_line(row: (Pid, Seq<char>, u64), cs: nat) -> Seq<char> {
    row.1 + repeat_char((cs - row.1.len()) as nat, ' ') + dec_seq(row.2 as nat) + seq!['\n']
}

/// The rendered rows, in database order.
pub open spec fn rows_body(rows: Seq<(Pid, Seq<char>, u64)>, cs: nat) -> Seq<char>
    decreases rows.len(),
{
    if rows.len() == 0 {
        Seq::empty()
    } else {
        rows_body(rows.drop_last(), cs) + row_line(rows.last(), cs)
    }
}

/// The whole rendered table: heading row, border row, one row per
/// record, bottom border sized to the full table width.
pub open spec fn table_str(rows: Seq<(Pid, Seq<char>, u64)>) -> Seq<char> {
    let cs = col2_start(rows);
    let gap = repeat_char((cs - col1_heading().len()) as nat, ' ');
    seq!['\n'] + col1_heading() + gap + col2_heading() + seq!['\n']
        + repeat_char(col1_heading().len(), '=') + gap + repeat_char(col2_heading().len(), '=')
        + seq!['\n'] + rows_body(rows, cs) + repeat_char(cs + col2_heading().len(), '=')
}

/// The second column never starts before any name's end plus the
/// buffer, nor before the first heading's end plus the buffer.
proof fn lemma_col2_start_bounds(rows: Seq<(Pid, Seq<char>, u64)>)
    ensures
        col2_start(rows) >= col1_heading().len() + COLUMN_BUFFER as nat,
        forall|i: int|
            0 <= i < rows.len() ==> col2_start(rows) >= #[trigger] rows[i].1.len()
                + COLUMN_BUFFER as nat,
    decreases rows.len(),
{
    if rows.len() > 0 {
        lemma_col2_start_bounds(rows.drop_last());
        assert forall|i: int|
            0 <= i < rows.len() implies col2_start(rows) >= #[trigger] rows[i].1.len()
                + COLUMN_BUFFER as nat by {
            if i < rows.len() - 1 {
                assert(rows.drop_last()[i] == rows[i]);
            }
        }
    }
}

/// If the first `k` rows of sorted rows have ids below `pid` and the
/// rest do not, then `k` is the insertion position.
proof fn lemma_count_lt_at_boundary(rows: Seq<(Pid, Seq<char>, u64)>, pid: Pid, k: int)
    requires
        0 <= k <= rows.len(),
        forall|j: int| 0 <= j < k ==> rows[j].0 < pid,
        forall|j: int| k <= j < rows.len() ==> rows[j].0 >= pid,
    ensures
        count_lt(rows, pid) == k,
    decreases rows.len(),
{
    if rows.len() == 0 {
    } else {
        if k == rows.len() {
            lemma_count_lt_at_boundary(rows.drop_last(), pid, k - 1);
        } else {
            lemma_count_lt_at_boundary(rows.drop_last(), pid, k);
        }
    }
}

} // verus!
