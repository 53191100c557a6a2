use facecam::fft::{Analyzer, DRAIN_SIZE};
use facecam::keys::{key_word, magnitude_key, order_key};
use facecam::queue::SampleQueue;
use facecam::random::{Xorshift, SEED};

#[test]
fn a_queue_gives_back_what_fits_in_order() {
    let mut queue = SampleQueue::new(4);
    assert_eq!(queue.push_slice(&[1, 2, 3]), 3);
    assert_eq!(queue.push_slice(&[4, 5, 6]), 1);
    let mut out = vec![9; 2];
    assert_eq!(queue.pop_slice(&mut out), 2);
    assert_eq!(out, [1, 2]);
    assert_eq!(queue.push_slice(&[7, 8, 9]), 2);
    let mut rest = vec![0; 6];
    assert_eq!(queue.pop_slice(&mut rest), 4);
    assert_eq!(rest, [3, 4, 7, 8, 0, 0]);
    assert_eq!(queue.pop_slice(&mut rest), 0);
    assert_eq!(rest, [3, 4, 7, 8, 0, 0]);
}

#[test]
fn the_window_slides_to_the_latest_samples() {
    let mut analyzer = Analyzer::new(4, 1, &vec![2]);
    assert_eq!(analyzer.latest_words(), [0, 0, 0, 0]);
    analyzer.ingest(&[1, 2]);
    assert_eq!(analyzer.latest_words(), [0, 0, 1, 2]);
    analyzer.ingest(&[3, 4, 5]);
    assert_eq!(analyzer.latest_words(), [2, 3, 4, 5]);
    analyzer.ingest(&[6, 7, 8, 9, 10, 11]);
    assert_eq!(analyzer.latest_words(), [8, 9, 10, 11]);
}

#[test]
fn portions_do_not_matter() {
    let mut whole = Analyzer::new(5, 1, &vec![]);
    let mut parts = Analyzer::new(5, 1, &vec![]);
    whole.ingest(&[1, 2, 3, 4, 5, 6, 7]);
    parts.ingest(&[1]);
    parts.ingest(&[2, 3, 4, 5, 6]);
    parts.ingest(&[]);
    parts.ingest(&[7]);
    assert_eq!(whole.latest_words(), parts.latest_words());
    assert_eq!(whole.latest_words(), [3, 4, 5, 6, 7]);
}

#[test]
fn the_queue_is_drained_into_the_window() {
    let mut queue = SampleQueue::new(10_000);
    let words: Vec<u32> = (0..10_000).collect();
    assert_eq!(queue.push_slice(&words), 10_000);
    let mut analyzer = Analyzer::new(3, 1, &vec![]);
    assert_eq!(analyzer.drain(&mut queue), DRAIN_SIZE);
    assert_eq!(analyzer.latest_words(), [8189, 8190, 8191]);
    assert_eq!(analyzer.drain(&mut queue), 1808);
    assert_eq!(analyzer.latest_words(), [9997, 9998, 9999]);
    assert_eq!(analyzer.drain(&mut queue), 0);
    assert_eq!(analyzer.latest_words(), [9997, 9998, 9999]);
}

#[test]
fn an_empty_transform_takes_nothing() {
    let mut analyzer = Analyzer::new(0, 1, &vec![]);
    analyzer.ingest(&[]);
    assert_eq!(analyzer.latest_words(), Vec::<u32>::new());
    assert_eq!(analyzer.bar_count(), 0);
}

#[test]
fn bars_read_the_peaks_of_their_bins() {
    // Half is 8. Bars: 1..2 below the first, 2..3 (pushed on), 3..5, 5..8 (cut), 8..8.
    let analyzer = Analyzer::new(16, 2, &vec![1, 5, 100, 100]);
    assert_eq!(analyzer.bar_count(), 5);
    let magnitudes = [90, 11, 12, 13, 14, 5, 17, 6, 3];
    assert_eq!(analyzer.process(&magnitudes), [11, 12, 14, 17, 3]);
}

#[test]
fn the_bins_above_the_last_bar_have_a_bar() {
    let analyzer = Analyzer::new(16, 0, &vec![3]);
    assert_eq!(analyzer.bar_count(), 2);
    assert_eq!(analyzer.process(&[1, 2, 3, 4, 5, 6, 7, 8, 9]), [3, 8]);
}

#[test]
fn a_lowest_frequency_past_the_spectrum_still_reads_inside() {
    let analyzer = Analyzer::new(4, 50, &vec![60]);
    assert_eq!(analyzer.bar_count(), 2);
    assert_eq!(analyzer.process(&[7, 8, 9]), [8, 9]);
}

#[test]
fn bars_without_bins_read_one_bin() {
    let analyzer = Analyzer::new(1, 1, &vec![1]);
    assert_eq!(analyzer.process(&[42]), [42]);
}

#[test]
fn bass_is_a_fifth_of_the_bars() {
    assert_eq!(Analyzer::new(64, 1, &vec![]).bass_bars(), 1);
    let ends: Vec<usize> = (2..13).collect();
    let analyzer = Analyzer::new(64, 1, &ends);
    assert_eq!(analyzer.bar_count(), 12);
    assert_eq!(analyzer.bass_bars(), 2);
}

#[test]
fn keys_are_ordered_as_the_numbers_are() {
    let numbers = [f32::NEG_INFINITY, -3.5, -1.0, -1.0e-30, 0.0, 1.0e-30, 0.5, 1.0, 720.25, f32::INFINITY];
    for a in numbers {
        for b in numbers {
            let (x, y) = (order_key(a.to_bits()), order_key(b.to_bits()));
            assert_eq!(a < b, x < y);
        }
        assert_eq!(f32::from_bits(key_word(order_key(a.to_bits()))), a);
    }
}

#[test]
fn magnitudes_that_are_no_numbers_never_peak() {
    assert_eq!(magnitude_key(f32::NAN.to_bits()), 0);
    assert_eq!(magnitude_key((-f32::NAN).to_bits()), 0);
    assert_eq!(magnitude_key(0.25f32.to_bits()), 0.25f32.to_bits());
    assert_eq!(magnitude_key(f32::INFINITY.to_bits()), f32::INFINITY.to_bits());
    assert!(magnitude_key(0.25f32.to_bits()) < magnitude_key(0.5f32.to_bits()));
}

#[test]
fn the_generator_is_the_known_xorshift() {
    let mut rng = Xorshift { state: 1 };
    assert_eq!(rng.rand(), 270369 >> 8);
    assert_eq!(rng.state, 270369);
    rng.rand();
    assert_eq!(rng.state, 67634689);
    rng.rand();
    assert_eq!(rng.state, 2647435461);
    assert_eq!(Xorshift::new().state, SEED);
    let mut stuck = Xorshift { state: 0 };
    assert_eq!(stuck.rand(), 0);
    assert_eq!(stuck.state, 0);
}
