use vstd::prelude::*;

verus! {

/// Event type of key events.
pub const EV_KEY: u16 = 1;

/// Milliseconds between two polls of the key state while waiting for release.
pub const RELEASE_POLL_MS: u64 = 100;

/// An input event without its timestamp.
#[derive(Clone, Copy, Debug, PartialEq, Eq, Structural)]
pub struct RawEvent {
    pub type_code: u16,
    pub code: u16,
    pub value: i32,
}

/// The key-up event of a key code.
pub open spec fn key_up(code: u16) -> RawEvent {
    RawEvent { type_code: EV_KEY, code, value: 0 }
}

/// One key-up event for each held key, in the order the keys were reported.
pub open spec fn key_ups(held: Seq<u16>) -> Seq<RawEvent> {
    held.map_values(|c: u16| key_up(c))
}

/// Where a proxy run stands.
#[derive(Clone, Copy, Debug, PartialEq, Eq, Structural)]
pub enum ProxyPhase {
    /// Waiting for the first key state, to release what it holds.
    Release,
    /// Polling until no key is held.
    WaitForRelease,
    /// The exclusive grab was requested.
    Grabbing,
    /// Forwarding batches from the physical device to the virtual one.
    Forwarding,
    /// The run is over.
    Finished,
}

/// What the surroundings report to a proxy run.
#[derive(Debug)]
pub enum ProxyEvent {
    /// The keys the physical device reports as held.
    KeyState(Vec<u16>),
    /// Reading the key state or sending events to the physical device failed.
    DeviceFailed,
    /// The outcome of the grab request.
    Grabbed(bool),
    /// A batch was fetched (true) or fetching failed (false).
    Fetched(bool),
    /// The fetched batch was handed to the virtual device, successfully or not.
    Emitted(bool),
}

/// What a proxy run asks its surroundings to do next.
#[derive(Debug)]
pub enum ProxyAction {
    /// Send these events to the physical device, then report the key state.
    SendKeyUps(Vec<RawEvent>),
    /// Wait this many milliseconds, then report the key state.
    PollAfter(u64),
    /// Request exclusive access to the physical device.
    Grab,
    /// Fetch the next batch of events from the physical device.
    Fetch,
    /// Emit the fetched batch, unchanged, to the virtual device.
    Emit,
    /// End the run.
    Stop,
}

/// The handshake and forwarding protocol of one physical device.
pub struct ProxySession {
    pub phase: ProxyPhase,
}

impl ProxySession {
    pub fn new() -> (r: ProxySession)
        ensures
            r.phase == ProxyPhase::Release,
    {
        ProxySession { phase: ProxyPhase::Release }
    }

    /// Advances the protocol by one reported event.
    pub fn step(&mut self, ev: ProxyEvent) -> (r: ProxyAction)
        ensures
            old(self).phase == ProxyPhase::Release ==> match ev {
                ProxyEvent::KeyState(h) => final(self).phase == ProxyPhase::WaitForRelease
                    && (r matches ProxyAction::SendKeyUps(e) && e@ == key_ups(h@)),
                _ => final(self).phase == ProxyPhase::Finished && r is Stop,
            },
            old(self).phase == ProxyPhase::WaitForRelease ==> match ev {
                ProxyEvent::KeyState(h) => if h@.len() == 0 {
                    final(self).phase == ProxyPhase::Grabbing && r is Grab
                } else {
                    final(self).phase == ProxyPhase::WaitForRelease
                        && (r matches ProxyAction::PollAfter(ms) && ms == RELEASE_POLL_MS)
                },
                _ => final(self).phase == ProxyPhase::Finished && r is Stop,
            },
            old(self).phase == ProxyPhase::Grabbing ==> match ev {
                ProxyEvent::Grabbed(true) => final(self).phase == ProxyPhase::Forwarding
                    && r is Fetch,
                _ => final(self).phase == ProxyPhase::Finished && r is Stop,
            },
            old(self).phase == ProxyPhase::Forwarding ==> match ev {
                ProxyEvent::Fetched(true) => final(self).phase == ProxyPhase::Forwarding
                    && r is Emit,
                ProxyEvent::Emitted(_) => final(self).phase == ProxyPhase::Forwarding
                    && r is Fetch,
                _ => final(self).phase == ProxyPhase::Finished && r is Stop,
            },
            old(self).phase == ProxyPhase::Finished ==> final(self).phase == ProxyPhase::Finished
                && r is Stop,
            r is Grab ==> old(self).phase == ProxyPhase::WaitForRelease
                && (ev matches ProxyEvent::KeyState(h) && h@.len() == 0),
    {
        match (self.phase, ev) {
            (ProxyPhase::Release, ProxyEvent::KeyState(held)) => {
                self.phase = ProxyPhase::WaitForRelease;
                ProxyAction::SendKeyUps(release_events(&held))
            },
            (ProxyPhase::WaitForRelease, ProxyEvent::KeyState(held)) => {
                if held.len() == 0 {
                    self.phase = ProxyPhase::Grabbing;
                    ProxyAction::Grab
                } else {
                    ProxyAction::PollAfter(RELEASE_POLL_MS)
                }
            },
            (ProxyPhase::Grabbing, ProxyEvent::Grabbed(true)) => {
                self.phase = ProxyPhase::Forwarding;
                ProxyAction::Fetch
            },
            (ProxyPhase::Forwarding, ProxyEvent::Fetched(true)) => ProxyAction::Emit,
            (ProxyPhase::Forwarding, ProxyEvent::Emitted(_)) => ProxyAction::Fetch,
            _ => {
                self.phase = ProxyPhase::Finished;
                ProxyAction::Stop
            },
        }
    }
}

/// The key-up events that release every held key, sent before the grab.
pub fn release_events(held: &Vec<u16>) -> (r: Vec<RawEvent>)
    ensures
        r@ == key_ups(held@),
{
    let mut out: Vec<RawEvent> = Vec::new();
    let mut i: usize = 0;
    while i < held.len()
        invariant
            i <= held@.len(),
            out@ == key_ups(held@.subrange(0, i as int)),
        decreases held@.len() - i,
    {
        out.push(RawEvent { type_code: EV_KEY, code: held[i], value: 0 });
        assert(key_ups(held@.subrange(0, i + 1)) =~= key_ups(held@.subrange(0, i as int)).push(
            key_up(held@[i as int]),
        ));
        i += 1;
    }
    assert(held@.subrange(0, held@.len() as int) =~= held@);
    out
}

} // verus!
