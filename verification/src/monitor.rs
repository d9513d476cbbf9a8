//! The load monitor: when it polls the workers, and what it hands on.
//!
//! [`LoadMonitor`] decides when the monitor task runs. [`MonitorState`] decides,
//! within the task, what each tick fetches and delivers; fetching, delivering
//! and waiting are left to the caller.
use crate::keyed::KeyedList;
use crate::policy::PrefillLoadReport;
use crate::text::same_text;
use crate::worker_manager::WorkerLoadInfo;
use vstd::prelude::*;

verus! {

/// The lifecycle of the monitor task.
#[derive(Debug)]
pub struct LoadMonitor {
    interval_secs: u64,
    running: bool,
}

impl LoadMonitor {
    pub closed spec fn interval(&self) -> u64 {
        self.interval_secs
    }

    pub closed spec fn runs(&self) -> bool {
        self.running
    }

    /// A monitor that has not been started.
    pub fn new(interval_secs: u64) -> (r: Self)
        ensures
            r.interval() == interval_secs,
            !r.runs(),
    {
        LoadMonitor { interval_secs, running: false }
    }

    /// The seconds between two ticks.
    pub fn interval_secs(&self) -> (r: u64)
        ensures
            r == self.interval(),
    {
        self.interval_secs
    }

    /// Starts the monitor. The result says whether a task is to be spawned:
    /// none where one runs already.
    pub fn start(&mut self) -> (spawn: bool)
        ensures
            spawn == !old(self).runs(),
            final(self).runs(),
            final(self).interval() == old(self).interval(),
    {
        let spawn: bool = !self.running;
        self.running = true;
        spawn
    }

    /// Stops the monitor. The result says whether there is a task to abort.
    pub fn stop(&mut self) -> (abort: bool)
        ensures
            abort == old(self).runs(),
            !final(self).runs(),
            final(self).interval() == old(self).interval(),
    {
        let abort: bool = self.running;
        self.running = false;
        abort
    }

    /// Whether the monitor has been started and not stopped since.
    pub fn is_running(&self) -> (r: bool)
        ensures
            r == self.runs(),
    {
        self.running
    }
}

/// What the monitor waits for.
#[derive(Debug, Clone, Copy, PartialEq, Eq, Structural)]
pub enum MonitorState {
    /// The next tick.
    Tick,
    /// The detailed prefill loads.
    PrefillLoads,
    /// The scalar loads.
    Loads,
}

/// What happened.
#[derive(Debug)]
pub enum MonitorEvent {
    /// A tick, with the names of the policies that want load updates.
    Ticked { policies: Vec<String> },
    /// The detailed prefill loads were fetched.
    PrefillLoads { reports: KeyedList<PrefillLoadReport> },
    /// The scalar loads were fetched.
    Loads { loads: Vec<WorkerLoadInfo> },
}

/// What is to be done next.
#[derive(Debug)]
pub enum MonitorAction {
    /// Wait for the next tick.
    Wait,
    /// Fetch the detailed prefill loads.
    FetchPrefillLoads,
    /// Hand the reports, if there are any, to the policies; then fetch the
    /// scalar loads.
    DeliverPrefillLoads { reports: Option<KeyedList<PrefillLoadReport>> },
    /// Fetch the scalar loads.
    FetchLoads,
    /// Hand the loads, if there are any, to the policies and publish them; then
    /// wait for the next tick.
    DeliverLoads { loads: Option<KeyedList<isize>> },
}

/// Whether a policy that wants the detailed prefill loads is among the names.
pub open spec fn wants_prefill_detail(policies: Seq<String>) -> bool {
    exists|i: int| 0 <= i < policies.len() && (#[trigger] policies[i])@ == "chunk_aware"@
}

/// The loads by worker; where a worker occurs twice, the later load stands.
pub open spec fn loads_by_worker(loads: Seq<WorkerLoadInfo>) -> Map<Seq<char>, isize>
    decreases loads.len(),
{
    if loads.len() == 0 {
        Map::empty()
    } else {
        loads_by_worker(loads.drop_last()).insert(loads.last().worker@, loads.last().load)
    }
}

fn is_detail_wanted(policies: &Vec<String>) -> (r: bool)
    ensures
        r == wants_prefill_detail(policies@),
{
    let mut i: usize = 0;
    while i < policies.len()
        invariant
            i <= policies@.len(),
            forall|k: int| 0 <= k < i ==> (#[trigger] policies@[k])@ != "chunk_aware"@,
        decreases policies@.len() - i,
    {
        if same_text(policies[i].as_str(), "chunk_aware") {
            return true;
        }
        i = i + 1;
    }
    false
}

/// The loads by worker.
pub fn collect_loads(loads: &Vec<WorkerLoadInfo>) -> (r: KeyedList<isize>)
    ensures
        r@ == loads_by_worker(loads@),
{
    let mut by_worker: KeyedList<isize> = KeyedList::new();
    let mut i: usize = 0;
    proof {
        assert(loads@.take(0) =~= Seq::<WorkerLoadInfo>::empty());
    }
    while i < loads.len()
        invariant
            i <= loads@.len(),
            by_worker@ == loads_by_worker(loads@.take(i as int)),
        decreases loads@.len() - i,
    {
        proof {
            let seen = loads@.take(i + 1);
            assert(seen.drop_last() =~= loads@.take(i as int));
            assert(seen.last() == loads@[i as int]);
        }
        by_worker.insert(loads[i].worker.clone(), loads[i].load);
        i = i + 1;
    }
    proof {
        assert(loads@.take(i as int) =~= loads@);
    }
    by_worker
}

impl MonitorState {
    /// Whether the event is the one that is waited for.
    pub open spec fn awaits(self, event: MonitorEvent) -> bool {
        match self {
            MonitorState::Tick => event is Ticked,
            MonitorState::PrefillLoads => event is PrefillLoads,
            MonitorState::Loads => event is Loads,
        }
    }

    /// Takes the event that is waited for, and says what is to be done next.
    ///
    /// A tick without policies fetches nothing. The detailed prefill loads are
    /// fetched only where a policy wants them, and handed on only where there
    /// are any; the scalar loads follow either way.
    pub fn step(self, event: MonitorEvent) -> (r: (MonitorState, MonitorAction))
        requires
            self.awaits(event),
        ensures
            match event {
                MonitorEvent::Ticked { policies } => if policies@.len() == 0 {
                    r == (MonitorState::Tick, MonitorAction::Wait)
                } else if wants_prefill_detail(policies@) {
                    r == (MonitorState::PrefillLoads, MonitorAction::FetchPrefillLoads)
                } else {
                    r == (MonitorState::Loads, MonitorAction::FetchLoads)
                },
                MonitorEvent::PrefillLoads { reports } => {
                    &&& r.0 == MonitorState::Loads
                    &&& r.1 == (MonitorAction::DeliverPrefillLoads {
                        reports: if reports@ == Map::<Seq<char>, PrefillLoadReport>::empty() {
                            None
                        } else {
                            Some(reports)
                        },
                    })
                },
                MonitorEvent::Loads { loads } => {
                    &&& r.0 == MonitorState::Tick
                    &&& r.1 matches MonitorAction::DeliverLoads { loads: delivered }
                        && match delivered {
                        Some(delivered) => loads@.len() > 0 && delivered@ == loads_by_worker(
                            loads@,
                        ),
                        None => loads@.len() == 0,
                    }
                },
            },
    {
        match event {
            MonitorEvent::Ticked { policies } => {
                if policies.len() == 0 {
                    (MonitorState::Tick, MonitorAction::Wait)
                } else if is_detail_wanted(&policies) {
                    (MonitorState::PrefillLoads, MonitorAction::FetchPrefillLoads)
                } else {
                    (MonitorState::Loads, MonitorAction::FetchLoads)
                }
            },
            MonitorEvent::PrefillLoads { reports } => {
                let reports: Option<KeyedList<PrefillLoadReport>> = if reports.is_empty() {
                    None
                } else {
                    Some(reports)
                };
                (MonitorState::Loads, MonitorAction::DeliverPrefillLoads { reports })
            },
            MonitorEvent::Loads { loads } => {
                let by_worker: KeyedList<isize> = collect_loads(&loads);
                proof {
                    if loads@.len() > 0 {
                        assert(by_worker@.contains_key(loads@.last().worker@));
                    }
                }
                let loads: Option<KeyedList<isize>> = if by_worker.is_empty() {
                    None
                } else {
                    Some(by_worker)
                };
                (MonitorState::Tick, MonitorAction::DeliverLoads { loads })
            },
        }
    }
}

} // verus!
