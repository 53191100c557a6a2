use facecam::app::{
    background_base, bar_plan, control_entry, demo_enabled, mode_index, mode_index_lowered,
    palette_label, song_palette_override, title_palette, BarPlan, FacecamApp, FrameInput, Keys,
    Mode, Requests, SongPalette, CONTROL_COUNT,
};
use facecam::audio::{AudioControl, AudioDevice};
use facecam::fft::Analyzer;
use facecam::fonts::{first_readable, font_files, fonts_to_install, Fallback};
use facecam::heartbeat::Beat;
use facecam::nowplaying::{start, Track};
use facecam::queue::SampleQueue;
use facecam::text::{before, chars_of, contains, same_text, squeeze};

const NONE: Keys = Keys {
    space: false,
    m: false,
    d: false,
    shift: false,
    h: false,
    tab: false,
    s: false,
    q: false,
    escape: false,
};

fn track(artist: &str, title: &str) -> Track {
    Track { title: title.to_string(), artist: artist.to_string() }
}

fn control() -> AudioControl {
    let dev = |n: &str| AudioDevice { name: n.to_string(), description: format!("<{n}>") };
    AudioControl::new(vec![dev("a"), dev("b"), dev("c")], 0)
}

fn facecam(fixed_screenshot: bool) -> FacecamApp {
    let names = vec!["ember".to_string(), "ice".to_string(), "moss".to_string()];
    FacecamApp::new(names, "bumblebee".to_string(), None, None, fixed_screenshot)
}

fn input(keys: Keys, track: Option<Track>) -> FrameInput {
    FrameInput { track, keys, now: 0, dt: 0, loud: false, height: 0, frame_count: 0 }
}

#[test]
fn modes_have_names_and_an_order() {
    let names: Vec<&str> = (0..4).map(|i| Mode::at(i).name()).collect();
    assert_eq!(names, ["full", "half", "mirror", "rainbow"]);
    for i in 0..4 {
        assert_eq!(mode_index_lowered(Mode::at(i).name()), i);
    }
}

#[test]
fn a_mode_is_asked_for_in_any_case() {
    assert_eq!(mode_index(Some("Mirror")), 2);
    assert_eq!(mode_index(Some("RAINBOW")), 3);
    assert_eq!(mode_index(Some("half ")), 0);
    assert_eq!(mode_index(Some("")), 0);
    assert_eq!(mode_index(None), 0);
    assert_eq!(mode_index_lowered("Mirror"), 0);
}

#[test]
fn the_demo_is_asked_for_by_a_value() {
    assert!(demo_enabled(Some("1")));
    assert!(demo_enabled(Some("no")));
    assert!(demo_enabled(Some("00")));
    assert!(!demo_enabled(Some("0")));
    assert!(!demo_enabled(Some("")));
    assert!(!demo_enabled(None));
}

#[test]
fn modes_plan_their_bars() {
    let plan = |tall, mirrored, rainbow| BarPlan { tall, mirrored, rainbow };
    assert_eq!(bar_plan(Mode::Full), plan(true, false, false));
    assert_eq!(bar_plan(Mode::Half), plan(false, false, false));
    assert_eq!(bar_plan(Mode::Mirror), plan(false, true, false));
    assert_eq!(bar_plan(Mode::Rainbow), plan(true, false, true));
}

#[test]
fn a_rainbow_stands_on_black() {
    assert_eq!(background_base(Mode::Rainbow, (1, 2, 3)), (0, 0, 0));
    assert_eq!(background_base(Mode::Half, (1, 2, 3)), (1, 2, 3));
}

#[test]
fn tracks_show_what_is_known() {
    assert_eq!(track("", "").display(), "(no track)");
    assert_eq!(track("", "Song").display(), "Song");
    assert_eq!(track("Band", "").display(), "Band");
    assert_eq!(track("Band", "Song").display(), "Band \u{2014} Song");
    assert_eq!(Track::default().display(), "(no track)");
}

#[test]
fn there_is_no_track_at_the_start() {
    assert_eq!(start(), None);
}

#[test]
fn tracks_are_the_same_by_both_texts() {
    assert!(track("a", "b").same_as(&track("a", "b")));
    assert!(!track("a", "b").same_as(&track("a", "c")));
    assert!(!track("a", "b").same_as(&track("c", "b")));
    assert!(track("a", "b").same_as(&track("a", "b").clone()));
}

#[test]
fn a_bumblebee_song_has_a_palette() {
    let find = |title: &str| song_palette_override(Some(&track("x", title)));
    assert_eq!(find("Bumblebee"), Some(SongPalette::Bumblebee));
    assert_eq!(find("Flight of the BUMBLE\u{2003}bee (live)"), Some(SongPalette::Bumblebee));
    assert_eq!(find("bumble-bee"), None);
    assert_eq!(song_palette_override(Some(&track("bumblebee", "x"))), None);
    assert_eq!(song_palette_override(None), None);
    assert_eq!(title_palette("thebumblebee"), Some(SongPalette::Bumblebee));
    assert_eq!(title_palette("Bumblebee"), None);
}

#[test]
fn space_cycles_palettes() {
    let (mut app, mut ctrl) = (facecam(false), control());
    let keys = Keys { space: true, ..NONE };
    let seen: Vec<usize> = (0..4).map(|_| app.ui(&mut ctrl, input(keys, None)).palette_idx).collect();
    assert_eq!(seen, [1, 2, 0, 1]);
}

#[test]
fn m_cycles_modes() {
    let (mut app, mut ctrl) = (facecam(false), control());
    let keys = Keys { m: true, ..NONE };
    let seen: Vec<Mode> = (0..4).map(|_| app.ui(&mut ctrl, input(keys, None)).mode).collect();
    assert_eq!(seen, [Mode::Half, Mode::Mirror, Mode::Rainbow, Mode::Full]);
}

#[test]
fn d_walks_along_the_devices() {
    let (mut app, mut ctrl) = (facecam(false), control());
    app.handle_input(&mut ctrl, Keys { d: true, ..NONE });
    assert_eq!(ctrl.pending_idx(), Some(1));
    app.handle_input(&mut ctrl, Keys { d: true, shift: true, ..NONE });
    app.handle_input(&mut ctrl, Keys { d: true, shift: true, ..NONE });
    assert_eq!(ctrl.pending_idx(), Some(2));
    app.handle_input(&mut ctrl, Keys { shift: true, ..NONE });
    assert_eq!(ctrl.pending_idx(), Some(2));
    assert_eq!(ctrl.selected_idx(), 0);
}

#[test]
fn overlay_and_controls_toggle() {
    let (mut app, mut ctrl) = (facecam(false), control());
    let frame = app.ui(&mut ctrl, input(NONE, None));
    assert!(frame.overlay.is_some() && !frame.controls);
    let both = Keys { h: true, tab: true, ..NONE };
    let frame = app.ui(&mut ctrl, input(both, None));
    assert!(frame.overlay.is_none() && frame.controls);
    let frame = app.ui(&mut ctrl, input(both, None));
    assert!(frame.overlay.is_some() && !frame.controls);
}

#[test]
fn keys_ask_for_screenshots_and_the_end() {
    let (mut app, mut ctrl) = (facecam(false), control());
    let ask = |screenshot, close| Requests { screenshot, close };
    assert_eq!(app.handle_input(&mut ctrl, NONE), ask(false, false));
    assert_eq!(app.handle_input(&mut ctrl, Keys { s: true, ..NONE }), ask(true, false));
    assert_eq!(app.handle_input(&mut ctrl, Keys { q: true, ..NONE }), ask(false, true));
    assert_eq!(app.handle_input(&mut ctrl, Keys { escape: true, ..NONE }), ask(false, true));
}

#[test]
fn a_given_file_is_shot_by_itself() {
    let app = facecam(true);
    let ask = |screenshot, close| Requests { screenshot, close };
    assert_eq!(app.maybe_auto_screenshot(89), ask(false, false));
    assert_eq!(app.maybe_auto_screenshot(90), ask(true, false));
    assert_eq!(app.maybe_auto_screenshot(91), ask(false, false));
    assert_eq!(app.maybe_auto_screenshot(129), ask(false, false));
    assert_eq!(app.maybe_auto_screenshot(130), ask(false, true));
    assert_eq!(app.maybe_auto_screenshot(u32::MAX), ask(false, true));
    assert_eq!(facecam(false).maybe_auto_screenshot(90), ask(false, false));
    assert_eq!(facecam(false).maybe_auto_screenshot(130), ask(false, false));
}

#[test]
fn screenshots_go_to_numbered_files() {
    let mut app = facecam(false);
    let name = |n: &str| Some(n.to_string());
    assert_eq!(
        app.save_pending_screenshots(2),
        [name("/tmp/facecam_000.png"), name("/tmp/facecam_001.png")]
    );
    assert_eq!(app.save_pending_screenshots(0), Vec::<Option<String>>::new());
    assert_eq!(app.save_pending_screenshots(1), [name("/tmp/facecam_002.png")]);
    assert_eq!(facecam(true).save_pending_screenshots(2), [None, None]);
}

#[test]
fn a_new_track_brings_a_new_palette() {
    let (mut app, mut ctrl) = (facecam(false), control());
    let mut palette = |t: Option<Track>| {
        let frame = app.ui(&mut ctrl, input(NONE, t));
        (frame.palette_idx, frame.track_change)
    };
    assert_eq!(palette(Some(track("a", "1"))), (0, None));
    assert_eq!(palette(Some(track("a", "1"))), (0, None));
    assert_eq!(palette(Some(track("a", "2"))), (1, Some("ice".to_string())));
    assert_eq!(palette(None), (1, None));
    assert_eq!(palette(Some(track("a", "3"))), (1, None));
    assert_eq!(palette(Some(track("b", "3"))), (2, Some("moss".to_string())));
}

#[test]
fn a_track_and_a_key_step_twice() {
    let (mut app, mut ctrl) = (facecam(false), control());
    app.follow_track(Some(track("a", "1")));
    let frame = app.ui(&mut ctrl, input(Keys { space: true, ..NONE }, Some(track("a", "2"))));
    assert_eq!((frame.palette_idx, frame.track_change), (2, Some("ice".to_string())));
}

#[test]
fn the_overlay_names_track_palette_and_device() {
    let (mut app, mut ctrl) = (facecam(false), control());
    let overlay = app.ui(&mut ctrl, input(NONE, None)).overlay.unwrap();
    assert_eq!(overlay.track, "(no track)");
    assert_eq!(overlay.palette, "[full | ember]");
    assert_eq!(overlay.device, "<a>");
    let song = Some(track("Rimsky", "Bumble Bee"));
    let frame = app.ui(&mut ctrl, input(NONE, song));
    assert_eq!(frame.song, Some(SongPalette::Bumblebee));
    let overlay = frame.overlay.unwrap();
    assert_eq!(overlay.track, "Rimsky \u{2014} Bumble Bee");
    assert_eq!(overlay.palette, "[full | bumblebee]");
}

#[test]
fn a_rainbow_has_no_palette() {
    assert_eq!(palette_label(Mode::Rainbow, "ice"), "[rainbow]");
    assert_eq!(palette_label(Mode::Mirror, "ice"), "[mirror | ice]");
}

#[test]
fn the_heart_of_the_facecam_beats() {
    let (mut app, mut ctrl) = (facecam(false), control());
    let loud = FrameInput { loud: true, height: 5, dt: 3, ..input(NONE, None) };
    assert_eq!(app.ui(&mut ctrl, loud).pulse.lub, Some(Beat::Full));
    assert_eq!(app.rings().len(), 1);
    assert_eq!((app.rings()[0].height, app.rings()[0].age), (5, 3));
    app.ui(&mut ctrl, FrameInput { dt: u64::MAX, ..input(NONE, None) });
    assert_eq!(app.rings()[0].age, 100_000_003);
}

#[test]
fn settings_are_read_at_the_start() {
    let names = vec!["one".to_string()];
    let mut app =
        FacecamApp::new(names, "b".to_string(), Some("Rainbow"), Some("1"), true);
    assert!(app.is_demo());
    let frame = app.ui(&mut control(), FrameInput { frame_count: 90, ..input(NONE, None) });
    assert_eq!(frame.mode, Mode::Rainbow);
    assert_eq!(frame.automatic, Requests { screenshot: true, close: false });
    assert_eq!(frame.asked, Requests { screenshot: false, close: false });
    assert!(!facecam(false).is_demo());
}

fn in_demo(value: Option<&str>) -> FacecamApp {
    FacecamApp::new(vec!["one".to_string()], "b".to_string(), None, value, false)
}

#[test]
fn a_frame_takes_in_what_waits() {
    let (mut app, mut analyzer) = (in_demo(None), Analyzer::new(4, 1, &vec![]));
    let mut queue = SampleQueue::new(10_000);
    queue.push_slice(&(1..=9_000).collect::<Vec<u32>>());
    assert_eq!(app.feed(&mut analyzer, &mut queue, &[77]), [8189, 8190, 8191, 8192]);
    assert_eq!(app.demo_clock(), 0);
    assert_eq!(app.feed(&mut analyzer, &mut queue, &[]), [8997, 8998, 8999, 9000]);
    assert_eq!(app.feed(&mut analyzer, &mut queue, &[]), [8997, 8998, 8999, 9000]);
}

#[test]
fn a_demo_leaves_the_queue_alone() {
    let (mut app, mut analyzer) = (in_demo(Some("1")), Analyzer::new(4, 1, &vec![]));
    let mut queue = SampleQueue::new(8);
    queue.push_slice(&[1, 2, 3]);
    assert_eq!(app.feed(&mut analyzer, &mut queue, &[77, 78]), [0, 0, 77, 78]);
    assert_eq!(app.feed(&mut analyzer, &mut queue, &[79]), [0, 77, 78, 79]);
    assert_eq!(app.demo_clock(), 3);
    let mut out = vec![0; 8];
    assert_eq!(queue.pop_slice(&mut out), 3);
    assert_eq!(out[..3], [1, 2, 3]);
}

#[test]
fn synthetic_samples_are_wanted_for_the_time_of_a_frame() {
    let app = in_demo(Some("1"));
    assert_eq!(app.synthetic_wanted(0), 0);
    assert_eq!(app.synthetic_wanted(10_000_000), 441);
    assert_eq!(app.synthetic_wanted(100_000_000), 4410);
    assert_eq!(app.synthetic_wanted(u64::MAX), 4410);
    assert_eq!(in_demo(None).synthetic_wanted(10_000_000), 0);
}

#[test]
fn synthetic_samples_keep_time() {
    let (mut app, mut analyzer) = (in_demo(Some("1")), Analyzer::new(4, 1, &vec![]));
    let mut queue = SampleQueue::new(8);
    for _ in 0..10 {
        let signal: Vec<u32> = (0..app.synthetic_wanted(100_000_000) as u32).collect();
        assert_eq!(app.feed(&mut analyzer, &mut queue, &signal), [4406, 4407, 4408, 4409]);
    }
    assert_eq!(app.demo_clock(), 44_100);
}

#[test]
fn the_controls_are_listed() {
    let lines: Vec<(&str, &str)> = (0..CONTROL_COUNT).map(control_entry).collect();
    assert_eq!(
        lines,
        [
            ("Space", "cycle palette"),
            ("M", "cycle mode"),
            ("D / Shift+D", "next / prev audio device"),
            ("H", "toggle track overlay"),
            ("Tab", "toggle controls"),
            ("S", "screenshot"),
            ("Q / Esc", "quit"),
        ]
    );
}

#[test]
fn fonts_are_looked_for_in_order() {
    let cjk: Vec<&str> = font_files(Fallback::Cjk).iter().map(|f| f.path).collect();
    assert_eq!(
        cjk,
        [
            "/usr/share/fonts/google-noto-sans-mono-cjk-vf-fonts/NotoSansMonoCJK-VF.ttc",
            "/usr/share/fonts/google-noto-sans-cjk-vf-fonts/NotoSansCJK-VF.ttc",
            "/usr/share/fonts/google-droid-sans-fonts/DroidSansFallbackFull.ttf",
        ]
    );
    let emoji: Vec<u32> = font_files(Fallback::Emoji).iter().map(|f| f.index).collect();
    assert_eq!(emoji, [0, 0]);
    assert_eq!(first_readable(&[false, true, true]), Some(1));
    assert_eq!(first_readable(&[false, false]), None);
    assert_eq!(first_readable(&[]), None);
    assert_eq!(fonts_to_install(true, true), ["cjk_fallback", "emoji_fallback"]);
    assert_eq!(fonts_to_install(false, true), ["emoji_fallback"]);
    assert_eq!(fonts_to_install(false, false), Vec::<&str>::new());
}

#[test]
fn parts_of_texts_are_found() {
    assert!(contains("abcabd", "abd"));
    assert!(contains("abc", ""));
    assert!(contains("", ""));
    assert!(!contains("ab", "abc"));
    assert!(!contains("aab", "ba"));
    assert!(contains("\u{fc}ber", "\u{fc}"));
}

#[test]
fn texts_are_ordered_as_std_orders_them() {
    let words = ["", "a", "ab", "b", "B", "\u{e9}", "\u{1f41d}", "z", "aB", "\u{ffee}"];
    for a in words {
        for b in words {
            assert_eq!(before(&chars_of(a), &chars_of(b)), a < b);
            assert_eq!(same_text(a, b), a == b);
        }
    }
}

#[test]
fn squeezing_drops_white_space_and_case() {
    assert_eq!(squeeze(" A\tb\u{a0}C\u{3000}"), "abc");
    assert_eq!(squeeze("\u{130}"), "i\u{307}");
    assert_eq!(squeeze("\u{3a3}\u{3a3}"), "\u{3c3}\u{3c3}");
    assert_eq!(squeeze(""), "");
    let white = |n: u32| {
        matches!(
            n,
            0x9..=0xd | 0x20 | 0x85 | 0xa0 | 0x1680 | 0x2000..=0x200a
                | 0x2028 | 0x2029 | 0x202f | 0x205f | 0x3000
        )
    };
    for c in '\0'..=char::MAX {
        assert_eq!(squeeze(c.to_string().as_str()).is_empty(), white(c as u32));
    }
}
