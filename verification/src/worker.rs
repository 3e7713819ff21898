//! The decision logic of the two polling workers.  Each worker waits
//! for the supervised process id to appear, then polls until the
//! shutdown flag is set; the outside loop performs the process listing,
//! the status reads and the sleeps, and hands the results in as plain
//! values.

use vstd::prelude::*;
use crate::database::{Database, Pid, Pname, count_lt, lemma_count_lt_bounds, register_model,
    rows_contains, update_model};

verus! {

/// A worker's lifecycle.
#[derive(Clone, Copy, Debug, PartialEq, Eq, Structural)]
pub enum WorkerState {
    WaitingForSupervisedPid,
    Polling,
    Stopped,
}

/// One lifecycle step, taken at the head of each worker cycle: waiting
/// ends when the supervised process id is present; polling ends when
/// the shutdown flag is observed.
pub open spec fn spec_transition(s: WorkerState, pid_present: bool, shutdown: bool) -> WorkerState {
    match s {
        WorkerState::WaitingForSupervisedPid => if pid_present {
            WorkerState::Polling
        } else {
            WorkerState::WaitingForSupervisedPid
        },
        WorkerState::Polling => if shutdown {
            WorkerState::Stopped
        } else {
            WorkerState::Polling
        },
        WorkerState::Stopped => WorkerState::Stopped,
    }
}

pub fn transition(s: WorkerState, pid_present: bool, shutdown: bool) -> (r: WorkerState)
    ensures
        r == spec_transition(s, pid_present, shutdown),
{
    match s {
        WorkerState::WaitingForSupervisedPid => if pid_present {
            WorkerState::Polling
        } else {
            WorkerState::WaitingForSupervisedPid
        },
        WorkerState::Polling => if shutdown {
            WorkerState::Stopped
        } else {
            WorkerState::Polling
        },
        WorkerState::Stopped => WorkerState::Stopped,
    }
}

/// Law: once the shutdown flag is set, a worker that is past its
/// startup wait stops at its very next flag check — so it terminates
/// within one polling interval of its cycle period.
pub proof fn lemma_shutdown_stops_worker(s: WorkerState, pid_present: bool)
    requires
        s != WorkerState::WaitingForSupervisedPid,
    ensures
        spec_transition(s, pid_present, true) == WorkerState::Stopped,
{
}

/// The effect of one discovery cycle on the database: every snapshot
/// entry registered in order.
pub open spec fn register_all(
    rows: Seq<(Pid, Seq<char>, u64)>,
    snap: Seq<(Pid, Seq<char>)>,
) -> Seq<(Pid, Seq<char>, u64)>
    decreases snap.len(),
{
    if snap.len() == 0 {
        rows
    } else {
        register_model(register_all(rows, snap.drop_last()), snap.last().0, snap.last().1)
    }
}

/// The effect of one measurement cycle on the database: every sample
/// that produced a value folded in, in order.
pub open spec fn apply_samples(
    rows: Seq<(Pid, Seq<char>, u64)>,
    samples: Seq<(Pid, Option<u64>)>,
) -> Seq<(Pid, Seq<char>, u64)>
    decreases samples.len(),
{
    if samples.len() == 0 {
        rows
    } else {
        let r = apply_samples(rows, samples.drop_last());
        match samples.last().1 {
            Some(kb) => update_model(r, samples.last().0, kb),
            None => r,
        }
    }
}

/// Registering keeps every id that was present and adds the one named,
/// so after a discovery cycle every published child id has a record —
/// a sample taken for it afterwards is never dropped for want of one.
pub proof fn lemma_register_all_registers(
    rows: Seq<(Pid, Seq<char>, u64)>,
    snap: Seq<(Pid, Seq<char>)>,
)
    ensures
        forall|pid: Pid|
            rows_contains(rows, pid) ==> rows_contains(#[trigger] register_all(rows, snap), pid),
        forall|i: int|
            0 <= i < snap.len() ==> rows_contains(register_all(rows, snap), #[trigger] snap[i].0),
    decreases snap.len(),
{
    if snap.len() > 0 {
        lemma_register_all_registers(rows, snap.drop_last());
        let prev = register_all(rows, snap.drop_last());
        let pid = snap.last().0;
        lemma_register_model_contains(prev, pid, snap.last().1);
        assert forall|i: int|
            0 <= i < snap.len() implies rows_contains(
            register_all(rows, snap),
            #[trigger] snap[i].0,
        ) by {
            if i < snap.len() - 1 {
                assert(snap.drop_last()[i] == snap[i]);
                assert(rows_contains(prev, snap[i].0));
            }
        }
    }
}

/// Registering an id leaves every present id present and makes the
/// registered one present.
proof fn lemma_register_model_contains(rows: Seq<(Pid, Seq<char>, u64)>, pid: Pid, nm: Seq<char>)
    ensures
        rows_contains(register_model(rows, pid, nm), pid),
        forall|q: Pid|
            rows_contains(rows, q) ==> rows_contains(#[trigger] register_model(rows, pid, nm), q),
{
    if !rows_contains(rows, pid) {
        lemma_count_lt_bounds(rows, pid);
        let k = count_lt(rows, pid);
        rows.insert_ensures(k, (pid, nm, 0u64));
        let r = rows.insert(k, (pid, nm, 0u64));
        assert(r[k] == (pid, nm, 0u64));
        assert(rows_contains(r, pid));
        assert forall|q: Pid| rows_contains(rows, q) implies rows_contains(
            #[trigger] register_model(rows, pid, nm),
            q,
        ) by {
            let i = choose|i: int| 0 <= i < rows.len() && rows[i].0 == q;
            if i < k {
                assert(r[i].0 == q);
            } else {
                assert(r[i + 1].0 == q);
            }
        }
    }
}

/// One discovery cycle: registers every discovered (id, name) pair and
/// returns the ids, the fully replaced child-id set for the measurement
/// worker to consume.
pub fn discovery_step(db: &mut Database, snapshot: &Vec<(Pid, Pname)>) -> (child_ids: Vec<Pid>)
    requires
        old(db).wf(),
    ensures
        final(db).wf(),
        final(db).rows() == register_all(old(db).rows(), snapshot.deep_view()),
        child_ids@ == snapshot@.map_values(|p: (Pid, Pname)| p.0),
        forall|i: int|
            0 <= i < snapshot@.len() ==> rows_contains(
                final(db).rows(),
                #[trigger] snapshot@[i].0,
            ),
{
    let n = snapshot.len();
    let mut child_ids: Vec<Pid> = Vec::new();
    let mut i: usize = 0;
    proof {
        assert(snapshot.deep_view().take(0) =~= Seq::<(Pid, Seq<char>)>::empty());
        assert(child_ids@ =~= snapshot@.take(0).map_values(|p: (Pid, Pname)| p.0));
    }
    while i < n
        invariant
            n == snapshot.len(),
            snapshot.deep_view().len() == n,
            i <= n,
            db.wf(),
            db.rows() == register_all(old(db).rows(), snapshot.deep_view().take(i as int)),
            child_ids@ == snapshot@.take(i as int).map_values(|p: (Pid, Pname)| p.0),
        decreases n - i,
    {
        proof {
            assert(snapshot.deep_view().take(i + 1).drop_last()
                =~= snapshot.deep_view().take(i as int));
            assert(snapshot.deep_view().take(i + 1).last() == snapshot.deep_view()[i as int]);
            assert(snapshot.deep_view()[i as int]
                == (snapshot@[i as int].0, snapshot@[i as int].1@));
        }
        let pid = snapshot[i].0;
        let name = snapshot[i].1.clone();
        db.new_child_process(pid, name);
        child_ids.push(pid);
        proof {
            assert(child_ids@ =~= snapshot@.take(i + 1).map_values(|p: (Pid, Pname)| p.0));
        }
        i = i + 1;
    }
    proof {
        assert(snapshot.deep_view().take(n as int) =~= snapshot.deep_view());
        assert(snapshot@.take(n as int) =~= snapshot@);
        lemma_register_all_registers(old(db).rows(), snapshot.deep_view());
        assert forall|i: int|
            0 <= i < snapshot@.len() implies rows_contains(
            db.rows(),
            #[trigger] snapshot@[i].0,
        ) by {
            assert(snapshot.deep_view()[i].0 == snapshot@[i].0);
        }
    }
    child_ids
}

/// One measurement cycle: folds each id's locked-memory reading, where
/// one was obtained, into the database's peak tracker.
pub fn measurement_step(db: &mut Database, samples: &Vec<(Pid, Option<u64>)>)
    requires
        old(db).wf(),
    ensures
        final(db).wf(),
        final(db).rows() == apply_samples(old(db).rows(), samples@),
{
    let n = samples.len();
    let mut i: usize = 0;
    proof {
        assert(samples@.take(0) =~= Seq::<(Pid, Option<u64>)>::empty());
    }
    while i < n
        invariant
            n == samples.len(),
            i <= n,
            db.wf(),
            db.rows() == apply_samples(old(db).rows(), samples@.take(i as int)),
        decreases n - i,
    {
        proof {
            assert(samples@.take(i + 1).drop_last() =~= samples@.take(i as int));
            assert(samples@.take(i + 1).last() == samples@[i as int]);
        }
        match samples[i].1 {
            Some(kb) => {
                db.update(samples[i].0, kb);
            },
            None => {},
        }
        i = i + 1;
    }
    proof {
        assert(samples@.take(n as int) =~= samples@);
    }
}

} // verus!
