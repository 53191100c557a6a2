use facecam::audio::{
    choose_config, find_device_by_name, interpolation_taps, pick_initial, pick_lowered,
    plan_stream, poll_stream, reopen_delay_ms, start, AudioControl, AudioDevice, CaptureError,
    ConfigRange, SampleFormat, StreamExit,
};
use facecam::listing::{arrange, list_devices};

fn dev(name: &str) -> AudioDevice {
    AudioDevice { name: name.to_string(), description: name.to_string() }
}

fn make_control(devices: Vec<AudioDevice>, initial: usize) -> AudioControl {
    AudioControl::new(devices, initial)
}

fn texts(names: &[&str]) -> Vec<String> {
    names.iter().map(|n| n.to_string()).collect()
}

fn listed(names: &[&str]) -> Vec<String> {
    list_devices(&texts(names)).iter().map(|d| d.name.clone()).collect()
}

#[test]
fn pick_initial_matches_by_substring() {
    let devices = vec![dev("MacBook Pro Microphone"), dev("BlackHole 2ch"), dev("USB Audio")];
    assert_eq!(pick_initial(&devices, Some("usb")), 2);
    assert_eq!(pick_initial(&devices, Some("Microphone")), 0);
}

#[test]
fn pick_initial_is_case_insensitive() {
    let devices = vec![dev("MacBook Pro Microphone"), dev("BlackHole 2ch")];
    assert_eq!(pick_initial(&devices, Some("blackhole 2ch")), 1);
}

#[test]
fn pick_initial_prefers_blackhole_when_no_pref() {
    // Order is arbitrary; the loopback must win regardless of position.
    let devices = vec![dev("MacBook Pro Microphone"), dev("BlackHole 16ch"), dev("USB Audio")];
    assert_eq!(pick_initial(&devices, None), 1);
}

#[test]
fn pick_initial_falls_back_to_first_without_blackhole() {
    let devices = vec![dev("MacBook Pro Microphone"), dev("USB Audio")];
    assert_eq!(pick_initial(&devices, None), 0);
    assert_eq!(pick_initial(&devices, Some("")), 0);
}

#[test]
fn pick_initial_unmatched_pref_falls_back() {
    // A preference that matches nothing falls through to the BlackHole rule.
    let devices = vec![dev("MacBook Pro Microphone"), dev("BlackHole 2ch")];
    assert_eq!(pick_initial(&devices, Some("nonexistent")), 1);
}

#[test]
fn control_next_wraps_around() {
    let mut ctrl = make_control(vec![dev("a"), dev("b"), dev("c")], 0);
    assert_eq!(ctrl.selected_idx(), 0);
    ctrl.next();
    assert_eq!(ctrl.pending_idx(), Some(1));
    // Simulate the worker consuming the request:
    assert!(ctrl.take_pending());
    assert_eq!(ctrl.selected_idx(), 1);
    ctrl.next();
    ctrl.next(); // would go past end
    assert_eq!(ctrl.pending_idx(), Some(0)); // wrapped
}

#[test]
fn control_prev_wraps_around() {
    let mut ctrl = make_control(vec![dev("a"), dev("b")], 0);
    ctrl.prev();
    assert_eq!(ctrl.pending_idx(), Some(1));
}

#[test]
fn control_next_sets_pending_not_selected() {
    // selected_idx must not change until the worker consumes the pending request,
    // so the overlay keeps showing the *active* device while the stream restarts.
    let mut ctrl = make_control(vec![dev("a"), dev("b")], 0);
    ctrl.next();
    assert_eq!(ctrl.selected_idx(), 0);
    assert_eq!(ctrl.pending_idx(), Some(1));
}

#[test]
fn control_rapid_taps_skip_forward() {
    let mut ctrl = make_control(vec![dev("a"), dev("b"), dev("c"), dev("d")], 0);
    ctrl.next();
    ctrl.next();
    ctrl.next();
    assert_eq!(ctrl.pending_idx(), Some(3));
}

#[test]
fn control_next_on_empty_is_noop() {
    let mut ctrl = make_control(vec![], 0);
    ctrl.next();
    ctrl.prev();
    // Should not panic.
    assert_eq!(ctrl.pending_idx(), None);
    assert!(!ctrl.take_pending());
}

#[test]
fn control_steps_undo_and_come_round() {
    let mut ctrl = make_control(vec![dev("a"), dev("b"), dev("c")], 2);
    ctrl.next();
    ctrl.prev();
    assert_eq!(ctrl.pending_idx(), Some(2));
    for _ in 0..3 {
        ctrl.prev();
    }
    assert_eq!(ctrl.pending_idx(), Some(2));
    assert_eq!(ctrl.current(), dev("c"));
}

#[test]
fn the_current_device_is_the_selected_one() {
    let mut ctrl = make_control(vec![dev("a"), dev("b")], 0);
    ctrl.next();
    assert_eq!(ctrl.current().description, "a");
    ctrl.take_pending();
    assert_eq!(ctrl.current().description, "b");
}

#[test]
fn lowered_texts_decide_the_first_device() {
    let devices = vec![dev("built-in"), dev("blackhole 2ch"), dev("usb mic"), dev("mic")];
    assert_eq!(pick_lowered(&devices, Some("mic")), 2);
    assert_eq!(pick_lowered(&devices, Some("MIC")), 1);
    assert_eq!(pick_lowered(&devices, None), 1);
    assert_eq!(pick_lowered(&[], None), 0);
}

#[test]
fn a_preference_is_found_in_either_text() {
    let devices = vec![
        AudioDevice { name: "hw:0".to_string(), description: "Line In".to_string() },
        AudioDevice { name: "HW:1".to_string(), description: "Headset".to_string() },
    ];
    assert_eq!(pick_initial(&devices, Some("hw:1")), 1);
    assert_eq!(pick_initial(&devices, Some("HEAD")), 1);
}

#[test]
fn a_loopback_is_known_by_its_description_only() {
    let devices = vec![
        AudioDevice { name: "BlackHole".to_string(), description: "x".to_string() },
        AudioDevice { name: "y".to_string(), description: "BLACKHOLE".to_string() },
    ];
    assert_eq!(pick_initial(&devices, None), 1);
}

#[test]
fn devices_are_listed_without_regard_to_case() {
    assert_eq!(listed(&["usb", "Built-in", "BlackHole"]), ["BlackHole", "Built-in", "usb"]);
    assert_eq!(listed(&["b", "B", "a", "A"]), ["a", "A", "b", "B"]);
    assert_eq!(listed(&["\u{c9}cran", "zoom", "\u{e9}a"]), ["zoom", "\u{e9}a", "\u{c9}cran"]);
}

#[test]
fn one_name_is_listed_once() {
    assert_eq!(listed(&["mic", "usb", "mic", "mic"]), ["mic", "usb"]);
    assert_eq!(listed(&[]), Vec::<String>::new());
}

#[test]
fn names_that_differ_in_case_can_keep_a_repeated_name_apart() {
    assert_eq!(listed(&["A", "a", "A"]), ["A", "a", "A"]);
}

#[test]
fn listed_devices_show_their_names() {
    let devices = list_devices(&texts(&["x"]));
    assert_eq!(devices, vec![dev("x")]);
}

#[test]
fn keys_decide_the_order() {
    let devices = arrange(&texts(&["x", "y", "z"]), &texts(&["2", "10", "1"]));
    let names: Vec<String> = devices.iter().map(|d| d.name.clone()).collect();
    assert_eq!(names, ["z", "y", "x"]);
}

#[test]
fn capture_needs_a_device() {
    let none = start(vec![], 8, None);
    assert!(matches!(none, Err(CaptureError::NoDevices)));
    assert_eq!(CaptureError::NoDevices.message(), "no audio input devices found via cpal");
    assert_eq!(CaptureError::UnsupportedFormat.message(), "unsupported sample format");
}

#[test]
fn capture_starts_with_the_picked_device() {
    match start(vec![dev("a"), dev("BlackHole 2ch")], 8, Some("nope")) {
        Ok(mut capture) => {
            assert_eq!(capture.control.selected_idx(), 1);
            assert_eq!(capture.control.pending_idx(), None);
            assert_eq!(capture.queue.push_slice(&[0; 9]), 8);
        }
        Err(e) => panic!("{}", e.message()),
    }
}

#[test]
fn a_device_is_found_again_by_its_exact_name() {
    let names = vec![None, Some("a".to_string()), Some("A".to_string()), Some("a".to_string())];
    assert_eq!(find_device_by_name(&names, "a"), Some(1));
    assert_eq!(find_device_by_name(&names, "A"), Some(2));
    assert_eq!(find_device_by_name(&names, "b"), None);
}

fn range(channels: u16, lo: u32, hi: u32, sample_format: SampleFormat) -> ConfigRange {
    ConfigRange { channels, min_sample_rate: lo, max_sample_rate: hi, sample_format }
}

#[test]
fn a_config_with_the_rate_is_preferred_by_format_then_channels() {
    let ranges = vec![
        range(1, 48000, 96000, SampleFormat::F32),
        range(1, 8000, 48000, SampleFormat::I16),
        range(6, 8000, 48000, SampleFormat::F32),
        range(2, 44100, 44100, SampleFormat::F32),
        range(2, 8000, 48000, SampleFormat::F32),
    ];
    assert_eq!(choose_config(&ranges, 44100), Some(3));
    assert_eq!(choose_config(&ranges, 96000), Some(0));
    assert_eq!(choose_config(&ranges, 192000), None);
    assert_eq!(choose_config(&vec![], 44100), None);
}

#[test]
fn streams_of_three_formats_are_read() {
    let plan = plan_stream(SampleFormat::I16, 2, 48000, 44100).unwrap();
    assert_eq!((plan.sample_format, plan.channels, plan.resample), (SampleFormat::I16, 2, true));
    let mono = plan_stream(SampleFormat::F32, 0, 44100, 44100).unwrap();
    assert_eq!((mono.channels, mono.resample), (1, false));
    assert!(plan_stream(SampleFormat::U16, 1, 1, 1).is_ok());
    assert_eq!(
        plan_stream(SampleFormat::Other, 1, 1, 1),
        Err(CaptureError::UnsupportedFormat)
    );
}

#[test]
fn interpolation_stays_inside_the_input() {
    assert_eq!(interpolation_taps(0, 3), (0, 1));
    assert_eq!(interpolation_taps(2, 3), (2, 3));
    assert_eq!(interpolation_taps(3, 3), (3, 3));
    assert_eq!(interpolation_taps(usize::MAX, 3), (3, 3));
    assert_eq!(interpolation_taps(0, 0), (0, 0));
}

#[test]
fn a_stream_gives_way_to_a_request() {
    let mut ctrl = make_control(vec![dev("a"), dev("b")], 0);
    assert_eq!(poll_stream(&mut ctrl, false), None);
    ctrl.next();
    assert_eq!(poll_stream(&mut ctrl, true), Some(StreamExit::Ended));
    assert_eq!(ctrl.pending_idx(), Some(1));
    assert_eq!(poll_stream(&mut ctrl, false), Some(StreamExit::Switch));
    assert_eq!((ctrl.selected_idx(), ctrl.pending_idx()), (1, None));
}

#[test]
fn only_a_switch_reopens_at_once() {
    assert_eq!(reopen_delay_ms(Some(StreamExit::Switch)), 0);
    assert_eq!(reopen_delay_ms(Some(StreamExit::Ended)), 500);
    assert_eq!(reopen_delay_ms(None), 500);
}
