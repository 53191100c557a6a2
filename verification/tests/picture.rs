use facecam::color::{darken, hsv_sector, lighten, Rgba};
use facecam::heartbeat::{Beat, Heartbeat, Pulse, PulseRing};
use facecam::mesh::{bar_rows, closed_fan_indices, fan_indices, quad_indices, strip_indices};
use facecam::screenshot::{encode_color_image, rgba_bytes, screenshot_name, ImageFault};

const MS: u64 = 1_000_000;

fn pulse(lub: Option<Beat>, dub: Option<Beat>) -> Pulse {
    Pulse { lub, dub }
}

#[test]
fn a_loud_bass_is_a_beat_and_a_dub_follows() {
    let mut heart = Heartbeat::new();
    assert_eq!(heart.update_reactive(10 * MS, 0, true, 7), pulse(Some(Beat::Full), None));
    assert_eq!(heart.update_reactive(149 * MS, 0, false, 7), pulse(None, None));
    assert_eq!(heart.update_reactive(150 * MS, 0, false, 7), pulse(None, Some(Beat::Full)));
    assert_eq!(heart.update_reactive(151 * MS, 0, false, 7), pulse(None, None));
}

#[test]
fn beats_keep_apart() {
    let mut heart = Heartbeat::new();
    assert_eq!(heart.update_reactive(0, 0, true, 7).lub, Some(Beat::Full));
    assert_eq!(heart.update_reactive(120 * MS, 0, true, 7).lub, None);
    assert_eq!(heart.update_reactive(120 * MS + 1, 0, true, 7).lub, Some(Beat::Full));
}

#[test]
fn every_lub_is_answered() {
    let mut heart = Heartbeat::new();
    let (mut lubs, mut dubs) = (0, 0);
    for i in 0..1000 {
        let p = heart.update_reactive(i * 10 * MS, 10 * MS, i % 50 == 0, 7);
        lubs += p.lub.is_some() as u32;
        dubs += p.dub.is_some() as u32;
    }
    assert_eq!((lubs, dubs), (20, 20));
}

#[test]
fn a_new_beat_puts_the_dub_off() {
    let mut heart = Heartbeat::new();
    heart.update_reactive(0, 0, true, 7);
    assert_eq!(heart.update_reactive(140 * MS, 0, true, 7), pulse(Some(Beat::Full), None));
    assert_eq!(heart.update_reactive(279 * MS, 0, false, 7), pulse(None, None));
    assert_eq!(heart.update_reactive(280 * MS, 0, false, 7), pulse(None, Some(Beat::Full)));
}

#[test]
fn the_heart_beats_at_rest() {
    let mut heart = Heartbeat::new();
    assert_eq!(heart.update_reactive(999 * MS, 0, false, 7).lub, None);
    assert_eq!(heart.update_reactive(1000 * MS, 0, false, 7).lub, Some(Beat::Rest));
    assert_eq!(heart.update_reactive(1140 * MS, 0, false, 7), pulse(None, Some(Beat::Rest)));
    assert_eq!(heart.update_reactive(1949 * MS, 0, false, 7).lub, None);
    assert_eq!(heart.update_reactive(1950 * MS, 0, false, 7).lub, Some(Beat::Rest));
}

#[test]
fn music_holds_the_resting_beat_off() {
    let mut heart = Heartbeat::new();
    assert_eq!(heart.update_reactive(900 * MS, 0, true, 7).lub, Some(Beat::Full));
    assert_eq!(heart.update_reactive(2099 * MS, 0, false, 7).lub, None);
    assert_eq!(heart.update_reactive(2100 * MS, 0, false, 7).lub, Some(Beat::Rest));
}

#[test]
fn a_dub_is_softer_than_its_lub() {
    let mut heart = Heartbeat::new();
    let mut push = |now: u64, loud: bool| heart.update_reactive(now * MS, 0, loud, 7).impulse();
    assert_eq!((push(0, true), push(70, false), push(140, false)), (340, 0, 200));
    assert_eq!((push(1200, false), push(1339, false), push(1340, false)), (170, 0, 100));
    assert_eq!((push(2150, false), push(2200, true), push(2340, false)), (170, 340, 200));
    assert_eq!(pulse(Some(Beat::Rest), Some(Beat::Full)).impulse(), 370);
}

#[test]
fn rings_grow_older_and_go() {
    let mut heart = Heartbeat::new();
    heart.update_reactive(0, 16 * MS, true, 720);
    assert_eq!(*heart.ring_list(), [PulseRing { age: 16 * MS, beat: Beat::Full, height: 720 }]);
    for i in 1..10 {
        heart.update_reactive(i, 100 * MS, false, 720);
    }
    assert_eq!(heart.ring_list()[0].age, 916 * MS);
    heart.update_reactive(10, 83 * MS, false, 720);
    assert_eq!(heart.ring_list().len(), 1);
    heart.update_reactive(11, MS, false, 720);
    assert_eq!(heart.ring_list().len(), 0);
}

#[test]
fn a_resting_ring_lives_shorter() {
    let full = PulseRing { age: 0, beat: Beat::Full, height: 1 };
    let rest = PulseRing { age: 0, beat: Beat::Rest, height: 1 };
    assert_eq!((full.max_age(), rest.max_age()), (1000 * MS, 775 * MS));
}

#[test]
fn there_are_no_more_than_sixteen_rings() {
    let mut heart = Heartbeat::new();
    for i in 0..20u32 {
        heart.update_reactive(i as u64 * 121 * MS, 0, true, i);
    }
    let heights: Vec<u32> = heart.ring_list().iter().map(|r| r.height).collect();
    assert_eq!(heights, (4..20).collect::<Vec<u32>>());
}

#[test]
fn strips_join_their_rows() {
    assert_eq!(strip_indices(1), Vec::<u32>::new());
    assert_eq!(strip_indices(3), [0, 2, 3, 0, 3, 1, 2, 4, 5, 2, 5, 3]);
}

#[test]
fn fans_turn_round_their_centre() {
    assert_eq!(fan_indices(3), [0, 1, 2, 0, 2, 3, 0, 3, 4]);
    assert_eq!(closed_fan_indices(3), [0, 1, 2, 0, 2, 3, 0, 3, 1]);
    assert_eq!(closed_fan_indices(0), Vec::<u32>::new());
    assert_eq!(quad_indices(), [0, 2, 3, 0, 3, 1]);
}

#[test]
fn every_corner_is_a_vertex() {
    assert!(strip_indices(9).iter().all(|&i| i < 18));
    assert!(fan_indices(24).iter().all(|&i| i < 26));
    assert!(closed_fan_indices(72).iter().all(|&i| i < 73));
}

#[test]
fn rows_run_from_end_to_end() {
    assert_eq!(bar_rows(10, 50, &vec![60, 40, 20, 10, 11, 49, 0], 11, 49), [10, 20, 40, 50]);
    assert_eq!(bar_rows(10, 50, &vec![], 11, 49), [10, 50]);
}

#[test]
fn darkening_takes_three_tenths() {
    for c in 0..=255u8 {
        let expected = (c as f32 * 0.30) as u8;
        assert_eq!(darken((c, 0, 255)), (expected, 0, 76));
    }
}

#[test]
fn lightening_goes_more_than_half_the_way_to_white() {
    for v in 0..=255u8 {
        let f = v as f32;
        let expected = (f + (255.0 - f) * 0.55).round().clamp(0.0, 255.0) as u8;
        let c = lighten(Rgba { r: v, g: 0, b: 255, a: 9 });
        assert_eq!(c, Rgba { r: expected, g: 140, b: 255, a: 9 });
    }
}

#[test]
fn hues_go_round_the_circle() {
    assert_eq!(hsv_sector(0, 'v', 'q', 'p', 't'), ('v', 't', 'p'));
    assert_eq!(hsv_sector(1, 'v', 'q', 'p', 't'), ('q', 'v', 'p'));
    assert_eq!(hsv_sector(2, 'v', 'q', 'p', 't'), ('p', 'v', 't'));
    assert_eq!(hsv_sector(3, 'v', 'q', 'p', 't'), ('p', 'q', 'v'));
    assert_eq!(hsv_sector(4, 'v', 'q', 'p', 't'), ('t', 'p', 'v'));
    assert_eq!(hsv_sector(5, 'v', 'q', 'p', 't'), ('v', 'p', 'q'));
    assert_eq!(hsv_sector(6, 1.0, 2.0, 3.0, 4.0), (1.0, 4.0, 3.0));
    assert_eq!(hsv_sector(-1, 'v', 'q', 'p', 't'), ('v', 'p', 'q'));
}

#[test]
fn screenshots_are_numbered_with_three_digits() {
    assert_eq!(screenshot_name(0), "/tmp/facecam_000.png");
    assert_eq!(screenshot_name(7), "/tmp/facecam_007.png");
    assert_eq!(screenshot_name(42), "/tmp/facecam_042.png");
    assert_eq!(screenshot_name(999), "/tmp/facecam_999.png");
    assert_eq!(screenshot_name(12345), "/tmp/facecam_12345.png");
}

fn gray(v: u8) -> Rgba {
    Rgba { r: v, g: v, b: v, a: 255 }
}

#[test]
fn pixels_become_four_bytes_each() {
    let pixels = vec![Rgba { r: 1, g: 2, b: 3, a: 4 }, Rgba { r: 5, g: 6, b: 7, a: 8 }];
    assert_eq!(rgba_bytes(&pixels), [1, 2, 3, 4, 5, 6, 7, 8]);
}

#[test]
fn an_image_becomes_a_png_file_that_reads_back() {
    let pixels = vec![gray(0), gray(50), gray(100), gray(150), gray(200), gray(250)];
    let file = encode_color_image(3, 2, &pixels).unwrap();
    assert_eq!(file[..8], [137, 80, 78, 71, 13, 10, 26, 10]);
    let mut reader = png::Decoder::new(std::io::Cursor::new(file)).read_info().unwrap();
    let mut buf = vec![0; reader.output_buffer_size().unwrap()];
    let info = reader.next_frame(&mut buf).unwrap();
    assert_eq!((info.width, info.height), (3, 2));
    assert_eq!(info.color_type, png::ColorType::Rgba);
    assert_eq!(buf, rgba_bytes(&pixels));
}

#[test]
fn images_of_wrong_size_are_refused() {
    let refused = |w, h, pixels: Vec<Rgba>| {
        let e = encode_color_image(w, h, &pixels).unwrap_err();
        (e.fault, e.message)
    };
    let zero_width = (ImageFault::ZeroWidth, "Zero width not allowed".to_string());
    assert_eq!(refused(0, 2, vec![]), zero_width);
    assert_eq!(refused(0, 0, vec![gray(1)]), zero_width);
    let zero_height = (ImageFault::ZeroHeight, "Zero height not allowed".to_string());
    assert_eq!(refused(2, 0, vec![]), zero_height);
    let few = (ImageFault::WrongSize, "wrong data size, expected 16 got 4".to_string());
    assert_eq!(refused(2, 2, vec![gray(1)]), few);
    let many = (ImageFault::WrongSize, "wrong data size, expected 4 got 8".to_string());
    assert_eq!(refused(1, 1, vec![gray(1), gray(2)]), many);
}
