//! The keystroke injection plan: the tiered fallback order for
//! delivering a synthetic paste combination, and the exact byte layout
//! of the input event records the virtual-device tier writes. The
//! device file handling itself lives outside; it asks this module which
//! tier to try next and what bytes to write.

use vstd::prelude::*;

use crate::hotkey::{KEY_LEFTCTRL, KEY_V};

verus! {

/// Event type of a synchronization event.
pub const EV_SYN: u16 = 0;

/// Event type of a key event.
pub const EV_KEY: u16 = 1;

/// Event code of the report synchronization marker.
pub const SYN_REPORT: u16 = 0;

/// The mechanisms that can deliver the paste combination, in fallback
/// order.
#[derive(Debug, Clone, Copy, PartialEq, Eq, Structural)]
pub enum InjectionTier {
    /// A transient kernel-level virtual keyboard device.
    VirtualDevice,
    /// An input-automation library driving the session's input API.
    Automation,
    /// An external command-line key-synthesis utility; needs a display.
    CommandTool,
}

/// Where the injection attempt stands: a tier to try next, success, or
/// every tier exhausted.
#[derive(Debug, Clone, Copy, PartialEq, Eq, Structural)]
pub enum InjectionStep {
    /// Try this tier next.
    Attempt(InjectionTier),
    /// A tier succeeded; stop.
    Done,
    /// Every tier failed.
    Failed,
}

/// The step after one attempt: stop at the first success; otherwise
/// fall through the tiers in order, where the command-line tier is
/// tried only when a windowing display is available.
pub open spec fn next_step(tier: InjectionTier, succeeded: bool, display_available: bool)
    -> InjectionStep {
    if succeeded {
        InjectionStep::Done
    } else {
        match tier {
            InjectionTier::VirtualDevice => InjectionStep::Attempt(InjectionTier::Automation),
            InjectionTier::Automation => if display_available {
                InjectionStep::Attempt(InjectionTier::CommandTool)
            } else {
                InjectionStep::Failed
            },
            InjectionTier::CommandTool => InjectionStep::Failed,
        }
    }
}

/// The first step of every injection: try the virtual device tier.
pub fn first_injection_step() -> (r: InjectionStep)
    ensures
        r == InjectionStep::Attempt(InjectionTier::VirtualDevice),
{
    InjectionStep::Attempt(InjectionTier::VirtualDevice)
}

/// Advance the injection plan after attempting `tier`.
pub fn next_injection_step(tier: InjectionTier, succeeded: bool, display_available: bool) -> (r:
    InjectionStep)
    ensures
        r == next_step(tier, succeeded, display_available),
{
    if succeeded {
        InjectionStep::Done
    } else {
        match tier {
            InjectionTier::VirtualDevice => InjectionStep::Attempt(InjectionTier::Automation),
            InjectionTier::Automation => {
                if display_available {
                    InjectionStep::Attempt(InjectionTier::CommandTool)
                } else {
                    InjectionStep::Failed
                }
            },
            InjectionTier::CommandTool => InjectionStep::Failed,
        }
    }
}

/// One input event record as the virtual-device interface takes it:
/// 24 bytes, a zeroed timestamp, then the 16-bit event type, the 16-bit
/// event code and the 32-bit value. The kernel expects these fields in
/// the machine's native byte order; this layout fixes little-endian,
/// which coincides with native order on every target this program
/// supports, and would need swapping on a big-endian machine.
pub open spec fn event_record(event_type: u16, code: u16, value: i32) -> Seq<u8> {
    let v = value as u32;
    seq![
        0u8, 0u8, 0u8, 0u8, 0u8, 0u8, 0u8, 0u8, 0u8, 0u8, 0u8, 0u8, 0u8, 0u8, 0u8, 0u8,
        (event_type % 256) as u8, (event_type / 256) as u8, (code % 256) as u8,
        (code / 256) as u8, (v % 256) as u8, ((v / 0x100) % 256) as u8,
        ((v / 0x10000) % 256) as u8, (v / 0x1000000) as u8,
    ]
}

/// Build one 24-byte input event record, as `event_record` lays it out.
pub fn input_event_bytes(event_type: u16, code: u16, value: i32) -> (r: Vec<u8>)
    ensures
        r@ == event_record(event_type, code, value),
{
    let v = value as u32;
    let mut r: Vec<u8> = Vec::new();
    let mut i: usize = 0;
    while i < 16
        invariant
            0 <= i <= 16,
            r@.len() == i,
            forall|j: int| 0 <= j < i ==> r@[j] == 0u8,
        decreases 16 - i,
    {
        r.push(0u8);
        i += 1;
    }
    r.push((event_type % 256) as u8);
    r.push((event_type / 256) as u8);
    r.push((code % 256) as u8);
    r.push((code / 256) as u8);
    r.push((v % 256) as u8);
    r.push(((v / 0x100) % 256) as u8);
    r.push(((v / 0x10000) % 256) as u8);
    r.push((v / 0x1000000) as u8);
    proof {
        assert(r@ =~= event_record(event_type, code, value));
    }
    r
}

/// The eight records of one paste combination through the virtual
/// device: Control down, V down, V up, Control up, each followed by a
/// synchronization report.
pub fn paste_combo_events() -> (r: Vec<Vec<u8>>)
    ensures
        r@.len() == 8,
        r@[0]@ == event_record(EV_KEY, KEY_LEFTCTRL, 1),
        r@[1]@ == event_record(EV_SYN, SYN_REPORT, 0),
        r@[2]@ == event_record(EV_KEY, KEY_V, 1),
        r@[3]@ == event_record(EV_SYN, SYN_REPORT, 0),
        r@[4]@ == event_record(EV_KEY, KEY_V, 0),
        r@[5]@ == event_record(EV_SYN, SYN_REPORT, 0),
        r@[6]@ == event_record(EV_KEY, KEY_LEFTCTRL, 0),
        r@[7]@ == event_record(EV_SYN, SYN_REPORT, 0),
{
    let mut r: Vec<Vec<u8>> = Vec::new();
    r.push(input_event_bytes(EV_KEY, KEY_LEFTCTRL, 1));
    r.push(input_event_bytes(EV_SYN, SYN_REPORT, 0));
    r.push(input_event_bytes(EV_KEY, KEY_V, 1));
    r.push(input_event_bytes(EV_SYN, SYN_REPORT, 0));
    r.push(input_event_bytes(EV_KEY, KEY_V, 0));
    r.push(input_event_bytes(EV_SYN, SYN_REPORT, 0));
    r.push(input_event_bytes(EV_KEY, KEY_LEFTCTRL, 0));
    r.push(input_event_bytes(EV_SYN, SYN_REPORT, 0));
    r
}

} // verus!
