use clipboard_history::hotkey::{KEY_LEFTCTRL, KEY_V};
use clipboard_history::inject::{
    first_injection_step, input_event_bytes, next_injection_step, paste_combo_events,
    InjectionStep, InjectionTier, EV_KEY, EV_SYN, SYN_REPORT,
};

/// Drive the plan with a fixed outcome per tier; record what was tried.
fn drive(outcomes: &[(InjectionTier, bool)], display: bool) -> (Vec<InjectionTier>, bool) {
    let mut tried = Vec::new();
    let mut step = first_injection_step();
    loop {
        match step {
            InjectionStep::Attempt(tier) => {
                tried.push(tier);
                let ok = outcomes
                    .iter()
                    .find(|(t, _)| *t == tier)
                    .map(|(_, ok)| *ok)
                    .unwrap_or(false);
                step = next_injection_step(tier, ok, display);
            }
            InjectionStep::Done => return (tried, true),
            InjectionStep::Failed => return (tried, false),
        }
    }
}

#[test]
fn second_tier_success_stops_before_the_third() {
    let (tried, ok) = drive(
        &[
            (InjectionTier::VirtualDevice, false),
            (InjectionTier::Automation, true),
            (InjectionTier::CommandTool, true),
        ],
        true,
    );
    assert!(ok);
    assert_eq!(
        tried,
        vec![InjectionTier::VirtualDevice, InjectionTier::Automation]
    );
}

#[test]
fn first_tier_success_tries_nothing_else() {
    let (tried, ok) = drive(&[(InjectionTier::VirtualDevice, true)], true);
    assert!(ok);
    assert_eq!(tried, vec![InjectionTier::VirtualDevice]);
}

#[test]
fn all_tiers_failing_reports_failure() {
    let (tried, ok) = drive(&[], true);
    assert!(!ok);
    assert_eq!(
        tried,
        vec![
            InjectionTier::VirtualDevice,
            InjectionTier::Automation,
            InjectionTier::CommandTool
        ]
    );
}

#[test]
fn command_tool_is_skipped_without_a_display() {
    let (tried, ok) = drive(&[(InjectionTier::CommandTool, true)], false);
    assert!(!ok);
    assert_eq!(
        tried,
        vec![InjectionTier::VirtualDevice, InjectionTier::Automation]
    );
}

#[test]
fn event_records_lay_out_type_code_and_value() {
    let rec = input_event_bytes(EV_KEY, KEY_LEFTCTRL, 1);
    assert_eq!(rec.len(), 24);
    // The leading timestamp is zeroed.
    assert!(rec[..16].iter().all(|&b| b == 0));
    assert_eq!(&rec[16..24], &[1, 0, 29, 0, 1, 0, 0, 0]);

    let syn = input_event_bytes(EV_SYN, SYN_REPORT, 0);
    assert!(syn.iter().all(|&b| b == 0));

    let wide = input_event_bytes(0x0102, 0x0304, 0x05060708);
    assert_eq!(&wide[16..24], &[0x02, 0x01, 0x04, 0x03, 0x08, 0x07, 0x06, 0x05]);
}

#[test]
fn paste_combo_is_four_key_transitions_each_synced() {
    let events = paste_combo_events();
    assert_eq!(events.len(), 8);
    let expected = [
        (EV_KEY, KEY_LEFTCTRL, 1),
        (EV_SYN, SYN_REPORT, 0),
        (EV_KEY, KEY_V, 1),
        (EV_SYN, SYN_REPORT, 0),
        (EV_KEY, KEY_V, 0),
        (EV_SYN, SYN_REPORT, 0),
        (EV_KEY, KEY_LEFTCTRL, 0),
        (EV_SYN, SYN_REPORT, 0),
    ];
    for (record, &(ty, code, value)) in events.iter().zip(expected.iter()) {
        assert_eq!(record, &input_event_bytes(ty, code, value));
    }
}
