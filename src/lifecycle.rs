use vstd::prelude::*;
use crate::capabilities::{Capabilities, CodecError};
use crate::config::Config;

verus! {

/// Where a logical device stands in its binding cycle.
#[derive(Clone, Copy, Debug, PartialEq, Eq, Structural)]
pub enum Status {
    /// Its path is absent, or the last attempt failed.
    Pending,
    /// Its path exists and the device file is being opened.
    Binding,
    /// Its virtual device is being built.
    Creating,
    /// A proxy run forwards its events.
    Active,
}

/// The part of a logical device record that the binding cycle changes.
#[derive(Clone, Copy, Debug, PartialEq, Eq, Structural)]
pub struct RecordState {
    pub status: Status,
    /// A virtual device was built for this name; it is kept for the whole process.
    pub has_virtual: bool,
}

/// What the surroundings report about one logical device.
#[derive(Clone, Copy, Debug, PartialEq, Eq, Structural)]
pub enum LifecycleEvent {
    /// The physical device file was opened.
    Opened,
    /// Opening the physical device file failed.
    OpenFailed,
    /// Building the virtual device succeeded (true) or failed (false).
    Created(bool),
    /// The proxy run ended, whatever the cause.
    ProxyExited,
}

/// What the manager asks the surroundings to do for one logical device.
#[derive(Clone, Copy, Debug, PartialEq, Eq, Structural)]
pub enum LifecycleAction {
    Nothing,
    /// Build the virtual device from a descriptor.
    CreateVirtual,
    /// Start a proxy run between the open physical device and the virtual device.
    Dispatch,
}

/// Where the descriptor of a device without a virtual device comes from.
#[derive(Clone, Copy, Debug, PartialEq, Eq, Structural)]
pub enum DescriptorSource {
    /// The cache entry decoded.
    Cached,
    /// Query the open physical device, and save what it reports to the cache once.
    LearnAndSave,
}

/// One input to a record: a sweep that saw its path present or absent, or an event.
#[derive(Clone, Copy, Debug, PartialEq, Eq, Structural)]
pub enum RecordInput {
    Sweep(bool),
    Event(LifecycleEvent),
}

pub open spec fn with_status(s: RecordState, st: Status) -> RecordState {
    RecordState { status: st, has_virtual: s.has_virtual }
}

/// The next state of a record and the action asked for, on one input. An input that
/// does not apply to the record's status changes nothing.
pub open spec fn record_step(s: RecordState, i: RecordInput) -> (RecordState, LifecycleAction) {
    match i {
        RecordInput::Sweep(present) => if s.status == Status::Pending && present {
            (with_status(s, Status::Binding), LifecycleAction::Nothing)
        } else {
            (s, LifecycleAction::Nothing)
        },
        RecordInput::Event(ev) => match ev {
            LifecycleEvent::Opened => if s.status != Status::Binding {
                (s, LifecycleAction::Nothing)
            } else if s.has_virtual {
                (with_status(s, Status::Active), LifecycleAction::Dispatch)
            } else {
                (with_status(s, Status::Creating), LifecycleAction::CreateVirtual)
            },
            LifecycleEvent::OpenFailed => if s.status == Status::Binding {
                (with_status(s, Status::Pending), LifecycleAction::Nothing)
            } else {
                (s, LifecycleAction::Nothing)
            },
            LifecycleEvent::Created(ok) => if s.status != Status::Creating {
                (s, LifecycleAction::Nothing)
            } else if ok {
                (RecordState { status: Status::Active, has_virtual: true }, LifecycleAction::Dispatch)
            } else {
                (with_status(s, Status::Pending), LifecycleAction::Nothing)
            },
            LifecycleEvent::ProxyExited => if s.status == Status::Active {
                (with_status(s, Status::Pending), LifecycleAction::Nothing)
            } else {
                (s, LifecycleAction::Nothing)
            },
        },
    }
}

/// Every record after a sweep that saw the paths in `present`.
pub open spec fn swept_all(states: Seq<RecordState>, present: Seq<bool>) -> Seq<RecordState> {
    Seq::new(states.len(), |i: int| record_step(states[i], RecordInput::Sweep(present[i])).0)
}

/// The state of a record after a run of inputs, with the number of virtual devices
/// built for it along the way.
pub open spec fn run(s: RecordState, inputs: Seq<RecordInput>) -> (RecordState, nat)
    decreases inputs.len(),
{
    if inputs.len() == 0 {
        (s, 0)
    } else {
        let (prev, n) = run(s, inputs.drop_last());
        let (next, act) = record_step(prev, inputs.last());
        (next, if act == LifecycleAction::CreateVirtual { n + 1 } else { n })
    }
}

/// The state every record starts in.
pub open spec fn initial_state() -> RecordState {
    RecordState { status: Status::Pending, has_virtual: false }
}

/// A sweep that sees the same paths as the previous one changes nothing.
pub proof fn lemma_sweep_idempotent(states: Seq<RecordState>, present: Seq<bool>)
    requires
        states.len() == present.len(),
    ensures
        swept_all(swept_all(states, present), present) == swept_all(states, present),
{
    assert(swept_all(swept_all(states, present), present) =~= swept_all(states, present));
}

/// A sweep in which no pending record's path is present changes nothing.
pub proof fn lemma_sweep_without_arrivals(states: Seq<RecordState>, present: Seq<bool>)
    requires
        states.len() == present.len(),
        forall|i: int| 0 <= i < states.len() && states[i].status == Status::Pending ==> !present[i],
    ensures
        swept_all(states, present) == states,
{
    assert(swept_all(states, present) =~= states);
}

proof fn lemma_run_invariant(inputs: Seq<RecordInput>)
    requires
        forall|k: int| 0 <= k < inputs.len() ==> inputs[k] != RecordInput::Event(
            LifecycleEvent::Created(false),
        ),
    ensures
        ({
            let (s, n) = run(initial_state(), inputs);
            (n == 0 && !s.has_virtual && s.status != Status::Creating) || (n == 1 && (s.has_virtual
                || s.status == Status::Creating))
        }),
    decreases inputs.len(),
{
    if inputs.len() > 0 {
        let d = inputs.drop_last();
        assert forall|k: int| 0 <= k < d.len() implies d[k] != RecordInput::Event(
            LifecycleEvent::Created(false),
        ) by {
            assert(d[k] == inputs[k]);
        }
        lemma_run_invariant(d);
        assert(inputs.last() == inputs[inputs.len() - 1]);
    }
}

/// However often a logical device is bound, unbound and rebound, its virtual device is
/// built at most once, as long as building it never fails: later bindings reuse it.
pub proof fn lemma_virtual_built_once(inputs: Seq<RecordInput>)
    requires
        forall|k: int| 0 <= k < inputs.len() ==> inputs[k] != RecordInput::Event(
            LifecycleEvent::Created(false),
        ),
    ensures
        run(initial_state(), inputs).1 <= 1,
{
    lemma_run_invariant(inputs);
}

/// A sweep, then a failed open of every record it moved to binding, gives back the
/// states before the sweep: the next sweep sees the same records pending.
pub proof fn lemma_sweep_then_failed_opens(states: Seq<RecordState>, present: Seq<bool>)
    requires
        states.len() == present.len(),
    ensures
        Seq::new(
            states.len(),
            |i: int|
                if states[i].status == Status::Pending && present[i] {
                    record_step(
                        swept_all(states, present)[i],
                        RecordInput::Event(LifecycleEvent::OpenFailed),
                    ).0
                } else {
                    swept_all(states, present)[i]
                },
        ) == states,
{
    assert(Seq::new(
        states.len(),
        |i: int|
            if states[i].status == Status::Pending && present[i] {
                record_step(
                    swept_all(states, present)[i],
                    RecordInput::Event(LifecycleEvent::OpenFailed),
                ).0
            } else {
                swept_all(states, present)[i]
            },
    ) =~= states);
}

proof fn lemma_cached_run(inputs: Seq<RecordInput>)
    ensures
        run(RecordState { status: Status::Pending, has_virtual: true }, inputs).0.has_virtual,
        run(RecordState { status: Status::Pending, has_virtual: true }, inputs).0.status
            != Status::Creating,
        run(RecordState { status: Status::Pending, has_virtual: true }, inputs).1 == 0,
    decreases inputs.len(),
{
    if inputs.len() > 0 {
        lemma_cached_run(inputs.drop_last());
    }
}

/// A logical device that starts with a virtual device built from its cache entry never
/// has another one built, whatever binds and unbinds follow.
pub proof fn lemma_cached_virtual_never_rebuilt(inputs: Seq<RecordInput>)
    ensures
        run(RecordState { status: Status::Pending, has_virtual: true }, inputs).1 == 0,
{
    lemma_cached_run(inputs);
}

/// A configured logical device.
#[derive(Debug)]
pub struct DeviceRecord {
    pub name: String,
    pub path: String,
}

/// The binding cycle of every configured logical device. A record's index is the key
/// that travels with its proxy run.
#[derive(Debug)]
pub struct Manager {
    pub records: Vec<DeviceRecord>,
    /// The state of each record, at the record's index.
    pub states: Vec<RecordState>,
}

impl View for Manager {
    type V = Seq<RecordState>;

    open spec fn view(&self) -> Seq<RecordState> {
        self.states@
    }
}

impl Manager {
    /// Each record has a state.
    pub open spec fn wf(&self) -> bool {
        self.states@.len() == self.records@.len()
    }

    /// The names and paths of the records are those of `other`.
    pub open spec fn same_devices(&self, other: &Manager) -> bool {
        &&& self.records@.len() == other.records@.len()
        &&& forall|i: int|
            0 <= i < self.records@.len() ==> self.records@[i].name@ == other.records@[i].name@
                && self.records@[i].path@ == other.records@[i].path@
    }

    /// No two records share a name.
    pub open spec fn distinct_names(&self) -> bool {
        forall|i: int, j: int|
            0 <= i < j < self.records@.len() ==> self.records@[i].name@ != self.records@[j].name@
    }

    /// One pending record without a virtual device for each configured name.
    pub fn new(config: &Config) -> (r: Manager)
        requires
            config.wf(),
        ensures
            r.wf(),
            r.distinct_names(),
            r.records@.len() == config.devices@.len(),
            forall|i: int|
                0 <= i < r.records@.len() ==> r.records@[i].name@ == config.devices@[i].0@
                    && r.records@[i].path@ == config.devices@[i].1@ && r@[i] == initial_state(),
    {
        let mut records: Vec<DeviceRecord> = Vec::new();
        let mut states: Vec<RecordState> = Vec::new();
        let mut i: usize = 0;
        assert(config.wf());
        while i < config.devices.len()
            invariant
                config.wf(),
                i <= config.devices@.len(),
                records@.len() == i,
                states@.len() == i,
                forall|j: int| 0 <= j < i ==> #[trigger] records@[j].name@ == config.devices@[j].0@,
                forall|j: int|
                    0 <= j < i ==> records@[j].path@ == config.devices@[j].1@ && states@[j]
                        == initial_state(),
            decreases config.devices@.len() - i,
        {
            let (name, path) = &config.devices[i];
            records.push(DeviceRecord { name: name.clone(), path: path.clone() });
            states.push(RecordState { status: Status::Pending, has_virtual: false });
            i += 1;
        }
        let ghost records_seq = records@;
        let m = Manager { records, states };
        assert forall|a: int, b: int| 0 <= a < b < m.records@.len() implies m.records@[a].name@
            != m.records@[b].name@ by {
            assert(m.records@ == records_seq);
            assert(0 <= a < b < i);
            assert(records_seq[a].name@ == config.devices@[a].0@);
            assert(records_seq[b].name@ == config.devices@[b].0@);
            assert(m.records@[a].name@ == records_seq[a].name@);
            assert(config.devices@[a].0@ != config.devices@[b].0@);
        }
        m
    }

    /// One pending record for each configured name; the record at index `i` starts
    /// with a virtual device when `built[i]` holds, built from its cache entry at startup.
    pub fn with_virtuals(config: &Config, built: &Vec<bool>) -> (r: Manager)
        requires
            config.wf(),
            built@.len() == config.devices@.len(),
        ensures
            r.wf(),
            r.distinct_names(),
            r.records@.len() == config.devices@.len(),
            forall|i: int|
                0 <= i < r.records@.len() ==> r.records@[i].name@ == config.devices@[i].0@
                    && r.records@[i].path@ == config.devices@[i].1@ && r@[i] == (RecordState {
                    status: Status::Pending,
                    has_virtual: built@[i],
                }),
    {
        let mut records: Vec<DeviceRecord> = Vec::new();
        let mut states: Vec<RecordState> = Vec::new();
        let mut i: usize = 0;
        while i < config.devices.len()
            invariant
                config.wf(),
                built@.len() == config.devices@.len(),
                i <= config.devices@.len(),
                records@.len() == i,
                states@.len() == i,
                forall|j: int| 0 <= j < i ==> #[trigger] records@[j].name@ == config.devices@[j].0@,
                forall|j: int|
                    0 <= j < i ==> records@[j].path@ == config.devices@[j].1@ && states@[j] == (RecordState {
                        status: Status::Pending,
                        has_virtual: built@[j],
                    }),
            decreases config.devices@.len() - i,
        {
            let (name, path) = &config.devices[i];
            records.push(DeviceRecord { name: name.clone(), path: path.clone() });
            states.push(RecordState { status: Status::Pending, has_virtual: built[i] });
            i += 1;
        }
        let ghost records_seq = records@;
        let m = Manager { records, states };
        assert forall|a: int, b: int| 0 <= a < b < m.records@.len() implies m.records@[a].name@
            != m.records@[b].name@ by {
            assert(m.records@ == records_seq);
            assert(0 <= a < b < i);
            assert(records_seq[a].name@ == config.devices@[a].0@);
            assert(records_seq[b].name@ == config.devices@[b].0@);
            assert(m.records@[a].name@ == records_seq[a].name@);
            assert(config.devices@[a].0@ != config.devices@[b].0@);
        }
        m
    }

    /// Moves every pending record whose path is present to binding, and returns their
    /// indices in increasing order.
    pub fn sweep(&mut self, present: &Vec<bool>) -> (r: Vec<usize>)
        requires
            old(self).wf(),
            present@.len() == old(self)@.len(),
        ensures
            final(self).wf(),
            final(self)@ == swept_all(old(self)@, present@),
            final(self).same_devices(old(self)),
            forall|a: int, b: int| 0 <= a < b < r@.len() ==> r@[a] < r@[b],
            forall|i: usize|
                r@.contains(i) <==> (i < present@.len() && old(self)@[i as int].status
                    == Status::Pending && present@[i as int]),
    {
        let mut out: Vec<usize> = Vec::new();
        let mut i: usize = 0;
        let n = self.states.len();
        while i < n
            invariant
                n == present@.len(),
                n == old(self)@.len(),
                old(self).wf(),
                i <= n,
                self.wf(),
                self@.len() == n,
                self.same_devices(old(self)),
                forall|j: int|
                    0 <= j < i ==> self@[j] == record_step(
                        old(self)@[j],
                        RecordInput::Sweep(present@[j]),
                    ).0,
                forall|j: int| i <= j < n ==> self@[j] == old(self)@[j],
                forall|a: int, b: int| 0 <= a < b < out@.len() ==> out@[a] < out@[b],
                forall|a: int| 0 <= a < out@.len() ==> out@[a] < i,
                forall|k: usize|
                    out@.contains(k) <==> (k < i && old(self)@[k as int].status == Status::Pending
                        && present@[k as int]),
            decreases n - i,
        {
            if self.states[i].status == Status::Pending && present[i] {
                let ghost before = out@;
                assert(self@[i as int] == old(self)@[i as int]);
                out.push(i);
                assert forall|k: usize| out@.contains(k) <==> (k < i + 1
                    && old(self)@[k as int].status == Status::Pending && present@[k as int]) by {
                    if k == i {
                        assert(out@[out@.len() - 1] == i);
                    }
                    if out@.contains(k) && k != i {
                        let a = choose|a: int| 0 <= a < out@.len() && out@[a] == k;
                        assert(before[a] == k);
                        assert(before.contains(k));
                    }
                    if k < i && old(self)@[k as int].status == Status::Pending && present@[k as int] {
                        let a = choose|a: int| 0 <= a < before.len() && before[a] == k;
                        assert(out@[a] == k);
                    }
                }
                let has_virtual = self.states[i].has_virtual;
                self.states.set(i, RecordState { status: Status::Binding, has_virtual });
            }
            i += 1;
        }
        assert(self@ =~= swept_all(old(self)@, present@));
        out
    }

    /// Applies an event to the record at index `i` and returns what to do for it.
    pub fn apply(&mut self, i: usize, ev: LifecycleEvent) -> (r: LifecycleAction)
        requires
            old(self).wf(),
            i < old(self)@.len(),
        ensures
            final(self).wf(),
            final(self).same_devices(old(self)),
            final(self)@ == old(self)@.update(
                i as int,
                record_step(old(self)@[i as int], RecordInput::Event(ev)).0,
            ),
            r == record_step(old(self)@[i as int], RecordInput::Event(ev)).1,
    {
        let s = self.states[i];
        let (next, act) = match ev {
            LifecycleEvent::Opened => if s.status != Status::Binding {
                (s, LifecycleAction::Nothing)
            } else if s.has_virtual {
                (RecordState { status: Status::Active, has_virtual: s.has_virtual }, LifecycleAction::Dispatch)
            } else {
                (
                    RecordState { status: Status::Creating, has_virtual: s.has_virtual },
                    LifecycleAction::CreateVirtual,
                )
            },
            LifecycleEvent::OpenFailed => if s.status == Status::Binding {
                (RecordState { status: Status::Pending, has_virtual: s.has_virtual }, LifecycleAction::Nothing)
            } else {
                (s, LifecycleAction::Nothing)
            },
            LifecycleEvent::Created(ok) => if s.status != Status::Creating {
                (s, LifecycleAction::Nothing)
            } else if ok {
                (RecordState { status: Status::Active, has_virtual: true }, LifecycleAction::Dispatch)
            } else {
                (RecordState { status: Status::Pending, has_virtual: s.has_virtual }, LifecycleAction::Nothing)
            },
            LifecycleEvent::ProxyExited => if s.status == Status::Active {
                (RecordState { status: Status::Pending, has_virtual: s.has_virtual }, LifecycleAction::Nothing)
            } else {
                (s, LifecycleAction::Nothing)
            },
        };
        self.states.set(i, next);
        act
    }
}

/// Where the descriptor of a device that has no virtual device yet comes from, given
/// what loading its cache entry gave: a decoded, valid entry is used; a missing,
/// unreadable or invalid one sends the manager to the live device.
pub fn descriptor_source(cached: &Result<Capabilities, CodecError>) -> (r: DescriptorSource)
    ensures
        r == DescriptorSource::Cached <==> (cached matches Ok(c) && c@.valid()),
        r == DescriptorSource::LearnAndSave <==> !(cached matches Ok(c) && c@.valid()),
{
    match cached {
        Ok(c) => if c.is_valid() {
            DescriptorSource::Cached
        } else {
            DescriptorSource::LearnAndSave
        },
        Err(_) => DescriptorSource::LearnAndSave,
    }
}

/// Kinds of notification from the hotplug bus.
#[derive(Clone, Copy, Debug, PartialEq, Eq, Structural)]
pub enum HotplugKind {
    Add,
    Other,
}

/// Whether a notification starts a rebinding sweep: only a device being added does.
pub fn triggers_sweep(kind: HotplugKind) -> (r: bool)
    ensures
        r <==> kind == HotplugKind::Add,
{
    match kind {
        HotplugKind::Add => true,
        HotplugKind::Other => false,
    }
}

} // verus!
