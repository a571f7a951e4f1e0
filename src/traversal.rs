//! The client's hole-punching procedure as a state machine: it is handed
//! the time and what arrived, and says what to send. Sockets and clocks stay
//! with the caller.
use vstd::prelude::*;

verus! {

/// Why a traversal attempt ended without a connection.
#[derive(Clone, Copy, Debug, PartialEq, Eq, Structural)]
pub enum ConnectOnError {
    CannotBind,
    CannotSetNonBlocking,
    /// The timeout must exceed the resend interval.
    TimoutIsLesTheResend,
    /// No probe came back from the peer's address in time.
    StageOneFailed,
    /// The connected socket heard nothing back in time.
    StageTwoFailed,
    /// The caller gave the attempt up.
    Cancelled,
}

/// Where an attempt stands.
#[derive(Clone, Copy, Debug, PartialEq, Eq, Structural)]
pub enum Phase {
    /// Before the agreed start time.
    Waiting,
    /// Probing the peer's advertised address.
    StageOne,
    /// Confirming the connected socket both ways.
    StageTwo,
    Done,
    Failed(ConnectOnError),
}

/// What the caller is to do next.
#[derive(Clone, Copy, Debug, PartialEq, Eq, Structural)]
pub enum Action {
    Nothing,
    /// Send the probe datagram to the peer's advertised address.
    SendProbe,
    /// Fix the socket on the peer's address, then send the liveness datagram.
    ConnectAndConfirm,
    /// Send the liveness datagram on the connected socket.
    SendConfirm,
    /// The socket is connected to the peer both ways.
    Connected,
    Fail(ConnectOnError),
}

/// The probe datagram of the first stage.
pub const PROBE: [u8; 4] = [1, 4, 21, 6];

/// The liveness datagram of the second stage.
pub const CONFIRM: [u8; 4] = [21, 20, 20, 21];

pub open spec fn probe_bytes() -> Seq<u8> {
    seq![1u8, 4u8, 21u8, 6u8]
}

pub open spec fn confirm_bytes() -> Seq<u8> {
    seq![21u8, 20u8, 20u8, 21u8]
}

/// Whether a datagram holds exactly the given four bytes.
fn is_datagram(d: &Vec<u8>, a: u8, b: u8, c: u8, e: u8) -> (r: bool)
    ensures
        r == (d@ == seq![a, b, c, e]),
{
    if d.len() != 4 {
        return false;
    }
    let r = d[0] == a && d[1] == b && d[2] == c && d[3] == e;
    if r {
        assert(d@ =~= seq![a, b, c, e]);
    }
    r
}

/// One hole-punching attempt: configuration, phase and its clocks (ns).
#[derive(Debug)]
pub struct Traversal {
    pub timeout: u128,
    pub resend: u128,
    /// The agreed absolute start time.
    pub start: u128,
    pub phase: Phase,
    /// When the current stage began.
    pub since: u128,
    /// When the current datagram was last sent.
    pub last_send: u128,
}

impl Traversal {
    /// An attempt that waits for `start`; refused unless `timeout > resend`.
    pub fn new(timeout: u128, resend: u128, start: u128) -> (r: Result<Traversal, ConnectOnError>)
        ensures
            timeout <= resend ==> r == Err::<Traversal, ConnectOnError>(
                ConnectOnError::TimoutIsLesTheResend,
            ),
            timeout > resend ==> (r matches Ok(t) && t.phase == Phase::Waiting && t.timeout
                == timeout && t.resend == resend && t.start == start),
    {
        if timeout <= resend {
            return Err(ConnectOnError::TimoutIsLesTheResend);
        }
        Ok(Traversal { timeout, resend, start, phase: Phase::Waiting, since: 0, last_send: 0 })
    }

    /// Elapsed time from `t` to `now`, zero if `now` is earlier.
    pub open spec fn elapsed(t: u128, now: u128) -> int {
        if now >= t { now - t } else { 0 }
    }

    /// Gives the attempt up, unless it already ended.
    pub fn cancel(&mut self) -> (a: Action)
        ensures
            final(self).timeout == old(self).timeout,
            final(self).resend == old(self).resend,
            final(self).start == old(self).start,
            match old(self).phase {
                Phase::Done => a == Action::Connected && *final(self) == *old(self),
                Phase::Failed(e) => a == Action::Fail(e) && *final(self) == *old(self),
                _ => a == Action::Fail(ConnectOnError::Cancelled) && final(self).phase
                    == Phase::Failed(ConnectOnError::Cancelled),
            },
    {
        match self.phase {
            Phase::Done => Action::Connected,
            Phase::Failed(e) => Action::Fail(e),
            _ => {
                self.phase = Phase::Failed(ConnectOnError::Cancelled);
                Action::Fail(ConnectOnError::Cancelled)
            },
        }
    }

    /// Advances the attempt to time `now`. `datagram` is what arrived since
    /// the last step, if anything, and `from_peer` whether it came from the
    /// peer's advertised address (in the second stage the socket is
    /// connected, so everything comes from the peer).
    ///
    /// Waiting: at the start time the first stage begins with a probe.
    /// In a stage: past the timeout the attempt fails with that stage's
    /// cause; the stage's datagram from the peer ends the stage (the first
    /// moves on to the second, the second succeeds); otherwise the stage's
    /// datagram is sent again once the resend interval has passed.
    pub fn step(&mut self, now: u128, datagram: Option<Vec<u8>>, from_peer: bool) -> (a: Action)
        ensures
            final(self).timeout == old(self).timeout,
            final(self).resend == old(self).resend,
            final(self).start == old(self).start,
            ({
                let s = *old(self);
                let n = *final(self);
                let got = |b: Seq<u8>| datagram matches Some(d) && d@ == b;
                match s.phase {
                    Phase::Waiting => if now >= s.start {
                        a == Action::SendProbe && n.phase == Phase::StageOne && n.since == now
                            && n.last_send == now
                    } else {
                        a == Action::Nothing && n == s
                    },
                    Phase::StageOne => if Self::elapsed(s.since, now) > s.timeout {
                        a == Action::Fail(ConnectOnError::StageOneFailed) && n.phase
                            == Phase::Failed(ConnectOnError::StageOneFailed)
                    } else if from_peer && got(probe_bytes()) {
                        a == Action::ConnectAndConfirm && n.phase == Phase::StageTwo && n.since
                            == now && n.last_send == now
                    } else if Self::elapsed(s.last_send, now) > s.resend {
                        a == Action::SendProbe && n.phase == s.phase && n.since == s.since
                            && n.last_send == now
                    } else {
                        a == Action::Nothing && n == s
                    },
                    Phase::StageTwo => if Self::elapsed(s.since, now) > s.timeout {
                        a == Action::Fail(ConnectOnError::StageTwoFailed) && n.phase
                            == Phase::Failed(ConnectOnError::StageTwoFailed)
                    } else if got(confirm_bytes()) {
                        a == Action::Connected && n.phase == Phase::Done
                    } else if Self::elapsed(s.last_send, now) > s.resend {
                        a == Action::SendConfirm && n.phase == s.phase && n.since == s.since
                            && n.last_send == now
                    } else {
                        a == Action::Nothing && n == s
                    },
                    Phase::Done => a == Action::Connected && n == s,
                    Phase::Failed(e) => a == Action::Fail(e) && n == s,
                }
            }),
    {
        let elapsed_since = if now >= self.since { now - self.since } else { 0 };
        let elapsed_send = if now >= self.last_send { now - self.last_send } else { 0 };
        match self.phase {
            Phase::Waiting => {
                if now >= self.start {
                    self.phase = Phase::StageOne;
                    self.since = now;
                    self.last_send = now;
                    Action::SendProbe
                } else {
                    Action::Nothing
                }
            },
            Phase::StageOne => {
                if elapsed_since > self.timeout {
                    self.phase = Phase::Failed(ConnectOnError::StageOneFailed);
                    return Action::Fail(ConnectOnError::StageOneFailed);
                }
                let probe = match &datagram {
                    Some(d) => is_datagram(d, 1, 4, 21, 6),
                    None => false,
                };
                if from_peer && probe {
                    self.phase = Phase::StageTwo;
                    self.since = now;
                    self.last_send = now;
                    Action::ConnectAndConfirm
                } else if elapsed_send > self.resend {
                    self.last_send = now;
                    Action::SendProbe
                } else {
                    Action::Nothing
                }
            },
            Phase::StageTwo => {
                if elapsed_since > self.timeout {
                    self.phase = Phase::Failed(ConnectOnError::StageTwoFailed);
                    return Action::Fail(ConnectOnError::StageTwoFailed);
                }
                let confirm = match &datagram {
                    Some(d) => is_datagram(d, 21, 20, 20, 21),
                    None => false,
                };
                if confirm {
                    self.phase = Phase::Done;
                    Action::Connected
                } else if elapsed_send > self.resend {
                    self.last_send = now;
                    Action::SendConfirm
                } else {
                    Action::Nothing
                }
            },
            Phase::Done => Action::Connected,
            Phase::Failed(e) => Action::Fail(e),
        }
    }
}

} // verus!
