//! The Wi-Fi / Bluetooth radio chip, told by the SDIO device id the kernel reports.
use vstd::prelude::*;
use crate::text::{chars_eq_str, chars_of, trim, trim_chars};

verus! {

/// A radio chip.
#[derive(Copy, Clone, Debug, PartialEq, Eq, Structural)]
pub enum Radio {
    RTL8822BS,
    RTL8822CS,
    RTL8733BS,
    BCM4335,
    BCM4354,
    BCM4358,
    BCM43569,
    SD8997,
    SD8987,
    IW416,
    /// Only on the Mini Ultra.
    AIC8800D80,
    Offline,
    Unknown,
}

/// The chip with SDIO device id `id`.
pub open spec fn radio_of(id: Seq<char>) -> Radio {
    if id == "0xb822"@ {
        Radio::RTL8822BS
    } else if id == "0xc822"@ {
        Radio::RTL8822CS
    } else if id == "0xb733"@ {
        Radio::RTL8733BS
    } else if id == "0x4335"@ {
        Radio::BCM4335
    } else if id == "0x4354"@ {
        Radio::BCM4354
    } else if id == "0x4358"@ {
        Radio::BCM4358
    } else if id == "0xaa31"@ {
        Radio::BCM43569
    } else if id == "0x9141"@ {
        Radio::SD8997
    } else if id == "0x9149"@ {
        Radio::SD8987
    } else if id == "0x9159"@ {
        Radio::IW416
    } else if id == "0x0082"@ {
        Radio::AIC8800D80
    } else {
        Radio::Unknown
    }
}

/// The name a radio is shown with.
pub open spec fn radio_name(r: Radio) -> &'static str {
    match r {
        Radio::RTL8822BS => "RTL8822BS",
        Radio::RTL8822CS => "RTL8822CS",
        Radio::RTL8733BS => "RTL8733BS",
        Radio::BCM4335 => "BCM4335",
        Radio::BCM4354 => "BCM4354",
        Radio::BCM4358 => "BCM4358",
        Radio::BCM43569 => "BCM43569",
        Radio::SD8997 => "SD8997",
        Radio::SD8987 => "SD8987",
        Radio::IW416 => "IW416",
        Radio::AIC8800D80 => "AIC8800D80",
        Radio::Unknown => "unknown",
        Radio::Offline => "offline",
    }
}

impl Radio {
    /// Whether a chip was found and recognised.
    pub fn valid(&self) -> (r: bool)
        ensures
            r == !(*self == Radio::Offline || *self == Radio::Unknown),
    {
        !(*self == Radio::Offline || *self == Radio::Unknown)
    }

    /// The chip for the text of the sysfs `device` file (surrounding whitespace ignored).
    pub fn from_device_id(text: &str) -> (r: Radio)
        ensures
            r == radio_of(trim(text@)),
    {
        let cs = chars_of(text);
        let id = trim_chars(cs.as_slice());
        let s = id.as_slice();
        if chars_eq_str(s, "0xb822") {
            Radio::RTL8822BS
        } else if chars_eq_str(s, "0xc822") {
            Radio::RTL8822CS
        } else if chars_eq_str(s, "0xb733") {
            Radio::RTL8733BS
        } else if chars_eq_str(s, "0x4335") {
            Radio::BCM4335
        } else if chars_eq_str(s, "0x4354") {
            Radio::BCM4354
        } else if chars_eq_str(s, "0x4358") {
            Radio::BCM4358
        } else if chars_eq_str(s, "0xaa31") {
            Radio::BCM43569
        } else if chars_eq_str(s, "0x9141") {
            Radio::SD8997
        } else if chars_eq_str(s, "0x9149") {
            Radio::SD8987
        } else if chars_eq_str(s, "0x9159") {
            Radio::IW416
        } else if chars_eq_str(s, "0x0082") {
            Radio::AIC8800D80
        } else {
            Radio::Unknown
        }
    }

    /// The name the radio is shown with.
    pub fn as_str(&self) -> (r: &'static str)
        ensures
            r == radio_name(*self),
    {
        match self {
            Radio::RTL8822BS => "RTL8822BS",
            Radio::RTL8822CS => "RTL8822CS",
            Radio::RTL8733BS => "RTL8733BS",
            Radio::BCM4335 => "BCM4335",
            Radio::BCM4354 => "BCM4354",
            Radio::BCM4358 => "BCM4358",
            Radio::BCM43569 => "BCM43569",
            Radio::SD8997 => "SD8997",
            Radio::SD8987 => "SD8987",
            Radio::IW416 => "IW416",
            Radio::AIC8800D80 => "AIC8800D80",
            Radio::Unknown => "unknown",
            Radio::Offline => "offline",
        }
    }
}

/// The vendor table of SDIO device ids: each id with the chip it belongs to and the name
/// that chip is shown with.
pub open spec fn sdio_id_table() -> Seq<(Seq<char>, Radio, &'static str)> {
    seq![
        ("0xb822"@, Radio::RTL8822BS, "RTL8822BS"),
        ("0xc822"@, Radio::RTL8822CS, "RTL8822CS"),
        ("0xb733"@, Radio::RTL8733BS, "RTL8733BS"),
        ("0x4335"@, Radio::BCM4335, "BCM4335"),
        ("0x4354"@, Radio::BCM4354, "BCM4354"),
        ("0x4358"@, Radio::BCM4358, "BCM4358"),
        ("0xaa31"@, Radio::BCM43569, "BCM43569"),
        ("0x9141"@, Radio::SD8997, "SD8997"),
        ("0x9149"@, Radio::SD8987, "SD8987"),
        ("0x9159"@, Radio::IW416, "IW416"),
        ("0x0082"@, Radio::AIC8800D80, "AIC8800D80"),
    ]
}

/// **Law: every known id names its own chip.** Each id of the vendor table is told as the
/// chip the table gives it, shown under that chip's name; no two ids of the table give
/// the same chip; and an id outside the table is unknown.
pub proof fn lemma_sdio_ids()
    ensures
        forall|k: int|
            0 <= k < sdio_id_table().len() ==> radio_of(#[trigger] sdio_id_table()[k].0)
                == sdio_id_table()[k].1 && radio_name(sdio_id_table()[k].1) == sdio_id_table()[k].2,
        forall|j: int, k: int|
            0 <= j < k < sdio_id_table().len() ==> radio_of(#[trigger] sdio_id_table()[j].0)
                != radio_of(#[trigger] sdio_id_table()[k].0),
        forall|id: Seq<char>|
            (forall|k: int| 0 <= k < sdio_id_table().len() ==> #[trigger] sdio_id_table()[k].0 != id)
                ==> radio_of(id) == Radio::Unknown,
{
    reveal_strlit("0xb822");
    reveal_strlit("0xc822");
    reveal_strlit("0xb733");
    reveal_strlit("0x4335");
    reveal_strlit("0x4354");
    reveal_strlit("0x4358");
    reveal_strlit("0xaa31");
    reveal_strlit("0x9141");
    reveal_strlit("0x9149");
    reveal_strlit("0x9159");
    reveal_strlit("0x0082");
    let t = sdio_id_table();
    assert(t[0].0 == "0xb822"@ && t[1].0 == "0xc822"@ && t[2].0 == "0xb733"@);
    assert(t[3].0 == "0x4335"@ && t[4].0 == "0x4354"@ && t[5].0 == "0x4358"@);
    assert(t[6].0 == "0xaa31"@ && t[7].0 == "0x9141"@ && t[8].0 == "0x9149"@);
    assert(t[9].0 == "0x9159"@ && t[10].0 == "0x0082"@);
    assert(t[0].0[2] != t[1].0[2]);
    assert(t[0].0[3] != t[2].0[3]);
    assert(t[0].0[2] != t[3].0[2]);
    assert(t[0].0[2] != t[4].0[2]);
    assert(t[0].0[2] != t[5].0[2]);
    assert(t[0].0[2] != t[6].0[2]);
    assert(t[0].0[2] != t[7].0[2]);
    assert(t[0].0[2] != t[8].0[2]);
    assert(t[0].0[2] != t[9].0[2]);
    assert(t[0].0[2] != t[10].0[2]);
    assert(t[1].0[2] != t[2].0[2]);
    assert(t[1].0[2] != t[3].0[2]);
    assert(t[1].0[2] != t[4].0[2]);
    assert(t[1].0[2] != t[5].0[2]);
    assert(t[1].0[2] != t[6].0[2]);
    assert(t[1].0[2] != t[7].0[2]);
    assert(t[1].0[2] != t[8].0[2]);
    assert(t[1].0[2] != t[9].0[2]);
    assert(t[1].0[2] != t[10].0[2]);
    assert(t[2].0[2] != t[3].0[2]);
    assert(t[2].0[2] != t[4].0[2]);
    assert(t[2].0[2] != t[5].0[2]);
    assert(t[2].0[2] != t[6].0[2]);
    assert(t[2].0[2] != t[7].0[2]);
    assert(t[2].0[2] != t[8].0[2]);
    assert(t[2].0[2] != t[9].0[2]);
    assert(t[2].0[2] != t[10].0[2]);
    assert(t[3].0[4] != t[4].0[4]);
    assert(t[3].0[4] != t[5].0[4]);
    assert(t[3].0[2] != t[6].0[2]);
    assert(t[3].0[2] != t[7].0[2]);
    assert(t[3].0[2] != t[8].0[2]);
    assert(t[3].0[2] != t[9].0[2]);
    assert(t[3].0[2] != t[10].0[2]);
    assert(t[4].0[5] != t[5].0[5]);
    assert(t[4].0[2] != t[6].0[2]);
    assert(t[4].0[2] != t[7].0[2]);
    assert(t[4].0[2] != t[8].0[2]);
    assert(t[4].0[2] != t[9].0[2]);
    assert(t[4].0[2] != t[10].0[2]);
    assert(t[5].0[2] != t[6].0[2]);
    assert(t[5].0[2] != t[7].0[2]);
    assert(t[5].0[2] != t[8].0[2]);
    assert(t[5].0[2] != t[9].0[2]);
    assert(t[5].0[2] != t[10].0[2]);
    assert(t[6].0[2] != t[7].0[2]);
    assert(t[6].0[2] != t[8].0[2]);
    assert(t[6].0[2] != t[9].0[2]);
    assert(t[6].0[2] != t[10].0[2]);
    assert(t[7].0[5] != t[8].0[5]);
    assert(t[7].0[4] != t[9].0[4]);
    assert(t[7].0[2] != t[10].0[2]);
    assert(t[8].0[4] != t[9].0[4]);
    assert(t[8].0[2] != t[10].0[2]);
    assert(t[9].0[2] != t[10].0[2]);
    assert(radio_of(t[0].0) == t[0].1 && radio_name(t[0].1) == t[0].2);
    assert(radio_of(t[1].0) == t[1].1 && radio_name(t[1].1) == t[1].2);
    assert(radio_of(t[2].0) == t[2].1 && radio_name(t[2].1) == t[2].2);
    assert(radio_of(t[3].0) == t[3].1 && radio_name(t[3].1) == t[3].2);
    assert(radio_of(t[4].0) == t[4].1 && radio_name(t[4].1) == t[4].2);
    assert(radio_of(t[5].0) == t[5].1 && radio_name(t[5].1) == t[5].2);
    assert(radio_of(t[6].0) == t[6].1 && radio_name(t[6].1) == t[6].2);
    assert(radio_of(t[7].0) == t[7].1 && radio_name(t[7].1) == t[7].2);
    assert(radio_of(t[8].0) == t[8].1 && radio_name(t[8].1) == t[8].2);
    assert(radio_of(t[9].0) == t[9].1 && radio_name(t[9].1) == t[9].2);
    assert(radio_of(t[10].0) == t[10].1 && radio_name(t[10].1) == t[10].2);
    assert forall|k: int| 0 <= k < t.len() implies radio_of(#[trigger] t[k].0) == t[k].1
        && radio_name(t[k].1) == t[k].2 by {
        assert(k == 0 || k == 1 || k == 2 || k == 3 || k == 4 || k == 5 || k == 6 || k == 7 || k == 8
            || k == 9 || k == 10);
    }
    assert forall|id: Seq<char>|
        (forall|k: int| 0 <= k < t.len() ==> #[trigger] t[k].0 != id) implies radio_of(id)
        == Radio::Unknown by {
        assert(t[0].0 != id && t[1].0 != id && t[2].0 != id && t[3].0 != id);
        assert(t[4].0 != id && t[5].0 != id && t[6].0 != id && t[7].0 != id);
        assert(t[8].0 != id && t[9].0 != id && t[10].0 != id);
    }
}

/// Longest poll timeout the kernel takes, in milliseconds (`c_int::MAX`).
pub const POLL_TIMEOUT_MAX: u64 = 2_147_483_647;
/// Pause between two looks at the device id when no uevent socket is available.
pub const DETECT_INTERVAL_MS: u64 = 20;

/// How the radio is waited for: woken by kernel uevents, or by looking every
/// `DETECT_INTERVAL_MS`.
#[derive(Debug, Clone, Copy, PartialEq, Eq, Structural)]
pub enum RadioWaitMode {
    Uevent,
    Poll,
}

/// What waiting for the radio needs done next.
#[derive(Debug, Clone, Copy, PartialEq, Eq, Structural)]
pub enum RadioWaitAction {
    /// Read the monotonic clock, in milliseconds, and report `Clock`.
    ReadClock,
    /// Poll the uevent socket for at most this many milliseconds and report `Polled`.
    Poll(u64),
    /// Receive one pending uevent without waiting and report `Received`.
    Receive,
    /// Read the radio's device id and report `Detected`.
    Detect,
    /// Sleep this many milliseconds and report `Slept`.
    Sleep(u64),
    /// Waiting is over, with this radio.
    Done(Radio),
}

/// What the last action gave.
#[derive(Debug, Clone, Copy, PartialEq, Eq, Structural)]
pub enum RadioWaitEvent {
    Clock(u64),
    /// `poll` returned `ret`; `interrupted` when it failed with `EINTR`.
    Polled { ret: i32, interrupted: bool },
    /// `recv` returned `ret`; `interrupted` when it failed with `EINTR`.
    Received { ret: i64, interrupted: bool },
    Detected(Radio),
    Slept,
}

/// The state of a wait: its mode, its deadline, the last clock reading and the action
/// whose result it expects.
#[derive(Debug, Clone, Copy, PartialEq, Eq, Structural)]
pub struct RadioWait {
    pub mode: RadioWaitMode,
    pub deadline_ms: u64,
    pub now_ms: u64,
    pub awaiting: RadioWaitAction,
}

/// The smaller of two numbers.
pub open spec fn min_u64(a: u64, b: u64) -> u64 {
    if a < b {
        a
    } else {
        b
    }
}

/// Milliseconds from the last clock reading to the deadline (none once it is past).
pub open spec fn time_left(w: RadioWait) -> u64 {
    if w.deadline_ms >= w.now_ms {
        (w.deadline_ms - w.now_ms) as u64
    } else {
        0
    }
}

/// The state after asking for `a`.
pub open spec fn asking(w: RadioWait, now: u64, a: RadioWaitAction) -> (RadioWait, RadioWaitAction) {
    (RadioWait { mode: w.mode, deadline_ms: w.deadline_ms, now_ms: now, awaiting: a }, a)
}

/// One step of a wait: the next state and action for the result `ev` of the action
/// the state awaits. A result that does not answer that action asks for it again; a
/// finished wait stays finished.
///
/// With uevents: past the deadline the radio is offline; otherwise the socket is
/// polled until the deadline; a poll that times out or fails (but for an interruption)
/// gives offline; each pending uevent is received and the device id looked at, until a
/// radio that is not offline shows up or no uevent is left. Without uevents the device id
/// is looked at every `DETECT_INTERVAL_MS` (or until the deadline) in the same way.
pub open spec fn wait_next(w: RadioWait, ev: RadioWaitEvent) -> (RadioWait, RadioWaitAction) {
    match (w.awaiting, ev) {
        (RadioWaitAction::Done(r), _) => (w, RadioWaitAction::Done(r)),
        (RadioWaitAction::ReadClock, RadioWaitEvent::Clock(now)) => if now >= w.deadline_ms {
            asking(w, now, RadioWaitAction::Done(Radio::Offline))
        } else {
            match w.mode {
                RadioWaitMode::Uevent => asking(
                    w,
                    now,
                    RadioWaitAction::Poll(min_u64((w.deadline_ms - now) as u64, POLL_TIMEOUT_MAX)),
                ),
                RadioWaitMode::Poll => asking(w, now, RadioWaitAction::Detect),
            }
        },
        (RadioWaitAction::Poll(_), RadioWaitEvent::Polled { ret, interrupted }) => if ret > 0 {
            asking(w, w.now_ms, RadioWaitAction::Receive)
        } else if ret < 0 && interrupted {
            asking(w, w.now_ms, RadioWaitAction::ReadClock)
        } else {
            asking(w, w.now_ms, RadioWaitAction::Done(Radio::Offline))
        },
        (RadioWaitAction::Receive, RadioWaitEvent::Received { ret, interrupted }) => if ret > 0 {
            asking(w, w.now_ms, RadioWaitAction::Detect)
        } else if ret < 0 && interrupted {
            asking(w, w.now_ms, RadioWaitAction::Receive)
        } else {
            asking(w, w.now_ms, RadioWaitAction::ReadClock)
        },
        (RadioWaitAction::Detect, RadioWaitEvent::Detected(r)) => if r != Radio::Offline {
            asking(w, w.now_ms, RadioWaitAction::Done(r))
        } else {
            match w.mode {
                RadioWaitMode::Uevent => asking(w, w.now_ms, RadioWaitAction::Receive),
                RadioWaitMode::Poll => asking(
                    w,
                    w.now_ms,
                    RadioWaitAction::Sleep(min_u64(time_left(w), DETECT_INTERVAL_MS)),
                ),
            }
        },
        (RadioWaitAction::Sleep(_), RadioWaitEvent::Slept) => asking(w, w.now_ms, RadioWaitAction::ReadClock),
        _ => (w, w.awaiting),
    }
}

fn min_exec(a: u64, b: u64) -> (r: u64)
    ensures
        r == min_u64(a, b),
{
    if a < b {
        a
    } else {
        b
    }
}

impl RadioWait {
    /// A wait that ends `timeout_ms` after `start_ms` (at the end of time if that does not
    /// fit), starting with a look at the clock.
    pub fn start(mode: RadioWaitMode, start_ms: u64, timeout_ms: u64) -> (r: (RadioWait, RadioWaitAction))
        ensures
            r.0.mode == mode,
            r.0.deadline_ms == if start_ms + timeout_ms > u64::MAX {
                u64::MAX as int
            } else {
                start_ms + timeout_ms
            },
            r.0.now_ms == start_ms,
            r.0.awaiting == RadioWaitAction::ReadClock,
            r.1 == RadioWaitAction::ReadClock,
    {
        let deadline_ms = start_ms.saturating_add(timeout_ms);
        (RadioWait { mode, deadline_ms, now_ms: start_ms, awaiting: RadioWaitAction::ReadClock }, RadioWaitAction::ReadClock)
    }

    fn ask(&self, now: u64, a: RadioWaitAction) -> (r: (RadioWait, RadioWaitAction))
        ensures
            r == asking(*self, now, a),
    {
        (RadioWait { mode: self.mode, deadline_ms: self.deadline_ms, now_ms: now, awaiting: a }, a)
    }

    /// The next state and action for the result of the awaited action.
    pub fn step(&self, ev: RadioWaitEvent) -> (r: (RadioWait, RadioWaitAction))
        ensures
            r == wait_next(*self, ev),
    {
        match (self.awaiting, ev) {
            (RadioWaitAction::Done(r), _) => (*self, RadioWaitAction::Done(r)),
            (RadioWaitAction::ReadClock, RadioWaitEvent::Clock(now)) => {
                if now >= self.deadline_ms {
                    return self.ask(now, RadioWaitAction::Done(Radio::Offline));
                }
                match self.mode {
                    RadioWaitMode::Uevent => self.ask(
                        now,
                        RadioWaitAction::Poll(min_exec(self.deadline_ms - now, POLL_TIMEOUT_MAX)),
                    ),
                    RadioWaitMode::Poll => self.ask(now, RadioWaitAction::Detect),
                }
            },
            (RadioWaitAction::Poll(_), RadioWaitEvent::Polled { ret, interrupted }) => {
                if ret > 0 {
                    self.ask(self.now_ms, RadioWaitAction::Receive)
                } else if ret < 0 && interrupted {
                    self.ask(self.now_ms, RadioWaitAction::ReadClock)
                } else {
                    self.ask(self.now_ms, RadioWaitAction::Done(Radio::Offline))
                }
            },
            (RadioWaitAction::Receive, RadioWaitEvent::Received { ret, interrupted }) => {
                if ret > 0 {
                    self.ask(self.now_ms, RadioWaitAction::Detect)
                } else if ret < 0 && interrupted {
                    self.ask(self.now_ms, RadioWaitAction::Receive)
                } else {
                    self.ask(self.now_ms, RadioWaitAction::ReadClock)
                }
            },
            (RadioWaitAction::Detect, RadioWaitEvent::Detected(r)) => {
                if r != Radio::Offline {
                    return self.ask(self.now_ms, RadioWaitAction::Done(r));
                }
                match self.mode {
                    RadioWaitMode::Uevent => self.ask(self.now_ms, RadioWaitAction::Receive),
                    RadioWaitMode::Poll => {
                        let left = if self.deadline_ms >= self.now_ms {
                            self.deadline_ms - self.now_ms
                        } else {
                            0
                        };
                        self.ask(self.now_ms, RadioWaitAction::Sleep(min_exec(left, DETECT_INTERVAL_MS)))
                    },
                }
            },
            (RadioWaitAction::Sleep(_), RadioWaitEvent::Slept) => self.ask(self.now_ms, RadioWaitAction::ReadClock),
            _ => (*self, self.awaiting),
        }
    }
}

/// **Law: a wait keeps its deadline.** Reading the clock at or past the deadline ends
/// the wait with the radio offline; a finished wait stays finished whatever is reported;
/// and a wait only ends with a radio that is not offline right after a look at the
/// device id found it.
pub proof fn lemma_wait_bounded(w: RadioWait, ev: RadioWaitEvent)
    ensures
        w.awaiting == RadioWaitAction::ReadClock && (ev matches RadioWaitEvent::Clock(now) && now
            >= w.deadline_ms) ==> wait_next(w, ev).1 == RadioWaitAction::Done(Radio::Offline),
        (w.awaiting matches RadioWaitAction::Done(r)) ==> wait_next(w, ev).1 == w.awaiting
            && wait_next(w, ev).0 == w,
        (wait_next(w, ev).1 is Done && wait_next(w, ev).1->Done_0 != Radio::Offline) ==> (w.awaiting
            == wait_next(w, ev).1 || (w.awaiting == RadioWaitAction::Detect && ev
            == RadioWaitEvent::Detected(wait_next(w, ev).1->Done_0))),
        wait_next(w, ev).0.deadline_ms == w.deadline_ms && wait_next(w, ev).0.mode == w.mode,
        wait_next(w, ev).0.awaiting == wait_next(w, ev).1,
{
}

/// **Law: a wait only ends for a reason.** A wait that is not over ends only on a clock
/// reading at or past the deadline (with the radio offline), on a poll of the uevent socket
/// that timed out or failed other than by interruption (offline), or on a look at the
/// device id that found a radio (that radio). In particular, running out of pending
/// uevents never ends a wait: the clock is read again.
pub proof fn lemma_wait_ends_for_reason(w: RadioWait, ev: RadioWaitEvent)
    ensures
        !(w.awaiting is Done) && wait_next(w, ev).1 is Done ==> {
            ||| w.awaiting == RadioWaitAction::ReadClock && (ev matches RadioWaitEvent::Clock(now)
                && now >= w.deadline_ms) && wait_next(w, ev).1 == RadioWaitAction::Done(Radio::Offline)
            ||| w.awaiting is Poll && (ev matches RadioWaitEvent::Polled { ret, interrupted } && (ret
                == 0 || (ret < 0 && !interrupted))) && wait_next(w, ev).1 == RadioWaitAction::Done(
                Radio::Offline,
            )
            ||| w.awaiting == RadioWaitAction::Detect && (ev matches RadioWaitEvent::Detected(r) && r
                != Radio::Offline && wait_next(w, ev).1 == RadioWaitAction::Done(r))
        },
        w.awaiting == RadioWaitAction::Receive && (ev matches RadioWaitEvent::Received {
            ret,
            interrupted,
        } && ret <= 0 && !(ret < 0 && interrupted)) ==> wait_next(w, ev).1 == RadioWaitAction::ReadClock,
{
}

} // verus!
