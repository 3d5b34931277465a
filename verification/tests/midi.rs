use ntrancerator::midi::{
    bar, find_port, port_label, EmptyRange, MidiState, SliderBank, BAR_WIDTH, DEFAULT_CC_FIRST,
    DEFAULT_CC_LAST,
};

#[test]
fn ports_are_found_by_name_ignoring_case() {
    let names = vec![
        Some("Midi Through".to_string()),
        None,
        Some("APC mini mk2 Control".to_string()),
        Some("APC mini mk2 Notes".to_string()),
    ];
    assert_eq!(find_port(&names, "APC mini mk2"), Some(2));
    assert_eq!(find_port(&names, "apc MINI"), Some(2));
    assert_eq!(find_port(&names, "notes"), Some(3));
    assert_eq!(find_port(&names, "UNKNOWN"), Some(1));
    assert_eq!(find_port(&names, "launchpad"), None);
    assert_eq!(find_port(&[], "x"), None);
    assert_eq!(port_label(&None), "(unknown)");
    assert_eq!(port_label(&names[0]), "Midi Through");
}

#[test]
fn names_are_compared_in_lowercase() {
    // Beyond ASCII, and where the lowercase text is longer.
    let names = vec![Some("ÄÖÜ".to_string()), Some("İstanbul".to_string())];
    assert_eq!(find_port(&names, "äöü"), Some(0));
    assert_eq!(find_port(&names, "STANBUL"), Some(1));
    assert_eq!(find_port(&names, "İ"), Some(1));
}

#[test]
fn sliders_follow_their_controllers() {
    let mut bank = SliderBank::new(DEFAULT_CC_FIRST, DEFAULT_CC_LAST).unwrap();
    assert_eq!(bank.count(), 9);
    assert_eq!(bank.snapshot(), vec![0; 9]);
    bank.apply(&[0xb0, 48, 10]);
    bank.apply(&[0xbf, 56, 127]);
    // Other controllers, other kinds and short messages do nothing.
    bank.apply(&[0xb0, 47, 1]);
    bank.apply(&[0xb0, 57, 1]);
    bank.apply(&[0xa0, 50, 1]);
    bank.apply(&[0xc0, 50, 1]);
    bank.apply(&[0xb0, 50]);
    bank.apply(&[]);
    assert_eq!(bank.snapshot(), vec![10, 0, 0, 0, 0, 0, 0, 0, 127]);
}

#[test]
fn slider_ranges_are_not_empty() {
    assert_eq!(SliderBank::new(10, 9).err(), Some(EmptyRange { first: 10, last: 9 }));
    assert_eq!(SliderBank::new(10, 10).unwrap().count(), 1);
    let mut all = SliderBank::new(0, 255).unwrap();
    assert_eq!(all.count(), 256);
    all.apply(&[0xb3, 255, 7]);
    assert_eq!(all.snapshot()[255], 7);
}

#[test]
fn bars_show_the_share_of_the_top() {
    for val in 0..=127u8 {
        let filled = (val as usize * BAR_WIDTH) / 127;
        let expected = "█".repeat(filled) + &"░".repeat(BAR_WIDTH - filled);
        assert_eq!(bar(val, BAR_WIDTH), expected);
    }
    assert_eq!(bar(64, 4), "██░░");
    assert_eq!(bar(127, 0), "");
}

#[test]
fn controllers_and_buttons_change_the_shared_state() {
    let mut s = MidiState::new();
    assert_eq!(s.sliders, [64; 8]);
    assert_eq!(s.button_presses, [0; 8]);
    s.apply(&[0xb0, 48, 1]);
    s.apply(&[0xb5, 55, 2]);
    s.apply(&[0x90, 64, 127]);
    s.apply(&[0x9f, 71, 1]);
    s.apply(&[0x90, 71, 1]);
    assert_eq!(s.sliders, [1, 64, 64, 64, 64, 64, 64, 2]);
    assert_eq!(s.button_presses, [1, 0, 0, 0, 0, 0, 0, 2]);
    // A velocity of zero is a release; the ninth slider and button do not count.
    s.apply(&[0x90, 65, 0]);
    s.apply(&[0x80, 65, 1]);
    s.apply(&[0xb0, 56, 9]);
    s.apply(&[0x90, 72, 9]);
    s.apply(&[0x90, 65]);
    assert_eq!(s.sliders, [1, 64, 64, 64, 64, 64, 64, 2]);
    assert_eq!(s.button_presses, [1, 0, 0, 0, 0, 0, 0, 2]);
}
