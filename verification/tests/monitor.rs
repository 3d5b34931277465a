use ntrancerator::render::monitor::{choose_monitor, match_monitor_index, MonitorChoice};

fn names(xs: &[&str]) -> Vec<String> {
    xs.iter().map(|s| s.to_string()).collect()
}

#[test]
fn matches_name_case_insensitive_substring() {
    let n = names(&["eDP-1", "HDMI-A-1"]);
    // Primary is the internal panel (index 0).
    assert_eq!(match_monitor_index(&n, 0, Some("hdmi")), Some(1));
    assert_eq!(match_monitor_index(&n, 0, Some("HDMI-A-1")), Some(1));
}

#[test]
fn numeric_request_selects_by_index() {
    let n = names(&["eDP-1", "HDMI-A-1", "DP-2"]);
    assert_eq!(match_monitor_index(&n, 0, Some("2")), Some(2));
    // Out-of-range index matches nothing.
    assert_eq!(match_monitor_index(&n, 0, Some("9")), None);
}

#[test]
fn default_prefers_non_primary_output() {
    // Internal panel (eDP) is primary; HDMI is the external output.
    let n = names(&["eDP-1", "HDMI-A-1"]);
    assert_eq!(match_monitor_index(&n, 0, None), Some(1));
    // If the external output were primary instead, fall back to the other.
    assert_eq!(match_monitor_index(&n, 1, None), Some(0));
}

#[test]
fn default_single_output_lets_winit_decide() {
    // Exactly one output, possibly named "Unknown-1".
    let n = names(&["Unknown-1"]);
    assert_eq!(match_monitor_index(&n, 0, None), None);
}

#[test]
fn unmatched_name_returns_none() {
    let n = names(&["eDP-1", "HDMI-A-1"]);
    assert_eq!(match_monitor_index(&n, 0, Some("DP-9")), None);
}

fn known(xs: &[&str]) -> Vec<Option<String>> {
    xs.iter().map(|s| Some(s.to_string())).collect()
}

#[test]
fn numbers_may_carry_a_plus_sign_and_must_fit() {
    let n = names(&["a", "b", "18446744073709551616"]);
    assert_eq!(match_monitor_index(&n, 0, Some("+1")), Some(1));
    assert_eq!(match_monitor_index(&n, 0, Some("0001")), Some(1));
    // Too great for an index, so it is a name.
    assert_eq!(match_monitor_index(&n, 0, Some("18446744073709551616")), Some(2));
    assert_eq!(match_monitor_index(&n, 0, Some("18446744073709551615")), None);
    assert_eq!(match_monitor_index(&n, 0, Some("+")), None);
    assert_eq!(match_monitor_index(&n, 0, Some("")), Some(0));
    assert_eq!(match_monitor_index(&n, 0, Some("-1")), None);
}

#[test]
fn names_are_compared_in_lowercase_on_both_sides() {
    let n = names(&["Äußerer BILDSCHIRM", "ΣΟΦΟΣ"]);
    assert_eq!(match_monitor_index(&n, 0, Some("ÄUSSERER")), None);
    assert_eq!(match_monitor_index(&n, 0, Some("äußerer bild")), Some(0));
    assert_eq!(match_monitor_index(&n, 0, Some("σοφο")), Some(1));
}

#[test]
fn unmatched_requests_are_told_apart_from_no_request() {
    let n = known(&["eDP-1", "HDMI-A-1"]);
    assert_eq!(choose_monitor(&n, Some(0), None), MonitorChoice::Index(1));
    assert_eq!(choose_monitor(&n, Some(1), None), MonitorChoice::Index(0));
    assert_eq!(choose_monitor(&n, None, None), MonitorChoice::Index(1));
    assert_eq!(choose_monitor(&n, None, Some("HDMI")), MonitorChoice::Index(1));
    assert_eq!(choose_monitor(&n, None, Some("DP-9")), MonitorChoice::Unmatched);
    assert_eq!(choose_monitor(&n, None, Some("2")), MonitorChoice::Unmatched);
    assert_eq!(choose_monitor(&known(&["Unknown-1"]), None, None), MonitorChoice::Default);
    // Without monitors there is nothing to match or to warn of.
    assert_eq!(choose_monitor(&[], None, Some("HDMI")), MonitorChoice::Default);
    // A monitor without a name has the empty one.
    assert_eq!(choose_monitor(&[None, None], None, Some("x")), MonitorChoice::Unmatched);
    assert_eq!(choose_monitor(&[None, None], None, Some("")), MonitorChoice::Index(0));
}
