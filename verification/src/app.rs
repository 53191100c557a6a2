//! The face camera itself: its settings, what the keys do to them, and what
//! each frame shows.

use vstd::prelude::*;
use vstd::string::*;

use crate::audio;
use crate::audio::AudioControl;
use crate::fft;
use crate::fft::Analyzer;
use crate::heartbeat;
use crate::heartbeat::{Heartbeat, Pulse, PulseRing};
use crate::nowplaying;
use crate::nowplaying::Track;
use crate::queue;
use crate::queue::SampleQueue;
use crate::screenshot;
use crate::text;

verus! {

/// The number of logarithmic bars.
pub const NUM_BARS: usize = 64;

/// The length of the Fourier transform.
pub const FFT_SIZE: usize = 4096;

/// The rate to which samples are brought, in Hz.
pub const SAMPLE_RATE: u32 = 44100;

/// The number of samples that wait between the capture and the picture.
pub const QUEUE_CAPACITY: usize = 32_768;

/// The longest step from one frame to the next, in nanoseconds.
pub const MAX_STEP: u64 = 100_000_000;

/// The number at which the count of synthetic samples stops: 2^53, the last up
/// to which a double-precision number counts by ones.
pub const DEMO_CLOCK_END: u64 = 0x20_0000_0000_0000;

// ---------------------------------------------------------------------------
// Modes
// ---------------------------------------------------------------------------

/// How the bars are drawn.
#[derive(Debug, Clone, Copy, PartialEq, Eq, Structural)]
pub enum Mode {
    Full,
    Half,
    Mirror,
    Rainbow,
}

/// The number of modes.
pub const MODE_COUNT: usize = 4;

/// The mode at a position in the cycle of modes.
pub open spec fn mode_of(idx: int) -> Mode {
    if idx == 0 {
        Mode::Full
    } else if idx == 1 {
        Mode::Half
    } else if idx == 2 {
        Mode::Mirror
    } else {
        Mode::Rainbow
    }
}

/// The name of a mode.
pub open spec fn mode_name(mode: Mode) -> Seq<char> {
    match mode {
        Mode::Full => "full"@,
        Mode::Half => "half"@,
        Mode::Mirror => "mirror"@,
        Mode::Rainbow => "rainbow"@,
    }
}

/// The position of the first mode with the given name, or 0.
pub open spec fn named_mode(name: Seq<char>) -> int {
    if name == mode_name(Mode::Full) {
        0
    } else if name == mode_name(Mode::Half) {
        1
    } else if name == mode_name(Mode::Mirror) {
        2
    } else if name == mode_name(Mode::Rainbow) {
        3
    } else {
        0
    }
}

impl Mode {
    /// The name of the mode.
    pub fn name(&self) -> (res: &'static str)
        ensures
            res@ == mode_name(*self),
    {
        match self {
            Mode::Full => "full",
            Mode::Half => "half",
            Mode::Mirror => "mirror",
            Mode::Rainbow => "rainbow",
        }
    }

    /// The mode at a position in the cycle of modes.
    pub fn at(idx: usize) -> (res: Mode)
        requires
            idx < MODE_COUNT,
        ensures
            res == mode_of(idx as int),
    {
        match idx {
            0 => Mode::Full,
            1 => Mode::Half,
            2 => Mode::Mirror,
            _ => Mode::Rainbow,
        }
    }
}

/// The position of the mode with the given name, which is in lower case.
pub fn mode_index_lowered(name: &str) -> (res: usize)
    ensures
        res == named_mode(name@),
        res < MODE_COUNT,
{
    if text::same_text(name, Mode::Full.name()) {
        0
    } else if text::same_text(name, Mode::Half.name()) {
        1
    } else if text::same_text(name, Mode::Mirror.name()) {
        2
    } else if text::same_text(name, Mode::Rainbow.name()) {
        3
    } else {
        0
    }
}

/// Every mode is found by its name.
pub proof fn lemma_modes_are_found_by_name(idx: int)
    requires
        0 <= idx < MODE_COUNT,
    ensures
        named_mode(mode_name(mode_of(idx))) == idx,
{
    reveal_strlit("full");
    reveal_strlit("half");
    reveal_strlit("mirror");
    reveal_strlit("rainbow");
    assert("full"@[0] != "half"@[0]);
    assert("mirror"@.len() != "full"@.len());
    assert("mirror"@.len() != "half"@.len());
    assert("rainbow"@.len() != "mirror"@.len());
    assert("rainbow"@.len() != "full"@.len());
    assert("rainbow"@.len() != "half"@.len());
}

/// Any other name leads to the first mode.
pub proof fn lemma_other_names_lead_to_the_first_mode(name: Seq<char>)
    requires
        name != "full"@,
        name != "half"@,
        name != "mirror"@,
        name != "rainbow"@,
    ensures
        named_mode(name) == 0,
        mode_of(named_mode(name)) == Mode::Full,
{
}

/// The position of the mode that was asked for, without regard to case; the
/// first where none was, or none of that name.
pub fn mode_index(name: Option<&str>) -> (res: usize)
    ensures
        res == match name {
            Some(n) => named_mode(text::lowercase(n@)),
            None => 0,
        },
        res < MODE_COUNT,
{
    match name {
        Some(n) => {
            let lowered = n.to_lowercase();
            mode_index_lowered(lowered.as_str())
        },
        None => 0,
    }
}

/// Whether a synthetic signal is asked for: by any value but the empty one and
/// `0`.
pub fn demo_enabled(value: Option<&str>) -> (res: bool)
    ensures
        res == (value is Some && value->0@.len() > 0 && value->0@ != "0"@),
{
    match value {
        Some(v) => !text::same_text(v, "0") && !v.is_empty(),
        None => false,
    }
}

/// Where bars stand.
#[derive(Debug, Clone, Copy, PartialEq, Eq)]
pub enum BarSide {
    Bottom,
    Top,
}

/// How a mode draws its bars.
#[derive(Debug, Clone, Copy, PartialEq, Eq)]
pub struct BarPlan {
    /// Bars reach almost through the whole picture, not only through half.
    pub tall: bool,
    /// Bars hang from the top too.
    pub mirrored: bool,
    /// Bars have hues of their own instead of the colours of the palette.
    pub rainbow: bool,
}

/// How a mode draws its bars.
pub fn bar_plan(mode: Mode) -> (res: BarPlan)
    ensures
        res.tall == (mode == Mode::Full || mode == Mode::Rainbow),
        res.mirrored == (mode == Mode::Mirror),
        res.rainbow == (mode == Mode::Rainbow),
{
    match mode {
        Mode::Full => BarPlan { tall: true, mirrored: false, rainbow: false },
        Mode::Half => BarPlan { tall: false, mirrored: false, rainbow: false },
        Mode::Mirror => BarPlan { tall: false, mirrored: true, rainbow: false },
        Mode::Rainbow => BarPlan { tall: true, mirrored: false, rainbow: true },
    }
}

/// The colour at the foot of the background: that of the palette, but black
/// behind a rainbow.
pub fn background_base(mode: Mode, bg: (u8, u8, u8)) -> (res: (u8, u8, u8))
    ensures
        res == (if mode == Mode::Rainbow {
            (0u8, 0u8, 0u8)
        } else {
            bg
        }),
{
    if mode == Mode::Rainbow {
        (0, 0, 0)
    } else {
        bg
    }
}

// ---------------------------------------------------------------------------
// Palettes of songs
// ---------------------------------------------------------------------------

/// A palette that belongs to a song.
#[derive(Debug, Clone, Copy, PartialEq, Eq)]
pub enum SongPalette {
    Bumblebee,
}

/// The palette of a song by its title, which has no white space and is in
/// lower case.
pub open spec fn palette_of_title(squeezed: Seq<char>) -> Option<SongPalette> {
    if text::has_part(squeezed, "bumblebee"@) {
        Some(SongPalette::Bumblebee)
    } else {
        None
    }
}

/// The palette of a song, whatever palette is chosen.
pub open spec fn palette_of_track(track: Option<nowplaying::TrackText>) -> Option<SongPalette> {
    match track {
        Some(t) => palette_of_title(text::squeezed(t.title)),
        None => None,
    }
}

/// A title has the palette exactly when it is made of some text, `bumblebee`, and
/// some text again.
pub proof fn lemma_bumblebee_titles_have_a_palette(
    squeezed: Seq<char>,
    pre: Seq<char>,
    post: Seq<char>,
)
    ensures
        palette_of_title(pre + "bumblebee"@ + post) == Some(SongPalette::Bumblebee),
        palette_of_title(squeezed) is Some ==> exists|x: Seq<char>, y: Seq<char>|
            squeezed == #[trigger] (x + "bumblebee"@ + y),
{
    text::lemma_parts_stand_between_texts(squeezed, "bumblebee"@, pre, post);
}

/// A song has the palette exactly when its title, without white space and in
/// lower case, is made of some text, `bumblebee`, and some text again; what its
/// artist is called does not matter.
pub proof fn lemma_bumblebee_songs_have_a_palette(
    t: nowplaying::TrackText,
    pre: Seq<char>,
    post: Seq<char>,
)
    ensures
        palette_of_track(None) is None,
        text::squeezed(t.title) == pre + "bumblebee"@ + post ==> palette_of_track(Some(t)) == Some(
            SongPalette::Bumblebee,
        ),
        palette_of_track(Some(t)) is Some ==> exists|x: Seq<char>, y: Seq<char>|
            text::squeezed(t.title) == #[trigger] (x + "bumblebee"@ + y),
{
    lemma_bumblebee_titles_have_a_palette(text::squeezed(t.title), pre, post);
}

/// The palette of a song by its title, which has no white space and is in
/// lower case.
pub fn title_palette(squeezed: &str) -> (res: Option<SongPalette>)
    ensures
        res == palette_of_title(squeezed@),
{
    if text::contains(squeezed, "bumblebee") {
        Some(SongPalette::Bumblebee)
    } else {
        None
    }
}

/// The palette of a song: a title with `bumblebee` in it, in any case and with
/// any white space, has one.
pub fn song_palette_override(track: Option<&Track>) -> (res: Option<SongPalette>)
    ensures
        res == palette_of_track(
            match track {
                Some(t) => Some(t@),
                None => None,
            },
        ),
{
    match track {
        Some(t) => {
            let squeezed = text::squeeze(t.title.as_str());
            title_palette(squeezed.as_str())
        },
        None => None,
    }
}

// ---------------------------------------------------------------------------
// Settings
// ---------------------------------------------------------------------------

/// The keys that were pressed in a frame.
#[derive(Debug, Clone, Copy, PartialEq, Eq)]
pub struct Keys {
    pub space: bool,
    pub m: bool,
    pub d: bool,
    pub shift: bool,
    pub h: bool,
    pub tab: bool,
    pub s: bool,
    pub q: bool,
    pub escape: bool,
}

/// What the window is asked to do.
#[derive(Debug, Clone, Copy, PartialEq, Eq)]
pub struct Requests {
    pub screenshot: bool,
    pub close: bool,
}

/// The state of the face camera.
pub struct FacecamApp {
    palettes: Vec<String>,
    song_palette: String,
    palette_idx: usize,
    mode_idx: usize,
    show_overlay: bool,
    show_controls: bool,
    fixed_screenshot: bool,
    screenshot_counter: usize,
    demo: bool,
    demo_clock: u64,
    last_track: Option<Track>,
    heart: Heartbeat,
}

/// The texts of a list of names.
pub open spec fn name_texts(names: Seq<String>) -> Seq<Seq<char>> {
    names.map_values(|n: String| n@)
}

/// The texts of a list of names are those of its names, one by one.
pub proof fn lemma_name_texts(names: Seq<String>)
    ensures
        name_texts(names).len() == names.len(),
        forall|i: int| 0 <= i < names.len() ==> #[trigger] name_texts(names)[i] == names[i]@,
{
}

/// What a `FacecamApp` holds.
#[verifier::ext_equal]
pub struct AppView {
    /// The names of the palettes that are cycled through.
    pub palettes: Seq<Seq<char>>,
    /// The name of the palette that belongs to a song.
    pub song_palette: Seq<char>,
    pub palette_idx: int,
    pub mode_idx: int,
    pub show_overlay: bool,
    pub show_controls: bool,
    /// Screenshots go to a file that was given at the start.
    pub fixed_screenshot: bool,
    pub screenshot_counter: usize,
    /// A synthetic signal takes the place of the capture.
    pub demo: bool,
    /// The number of synthetic samples so far.
    pub demo_clock: u64,
    pub last_track: Option<nowplaying::TrackText>,
    pub clock: heartbeat::Clockwork,
    pub rings: Seq<PulseRing>,
}

impl AppView {
    /// Both positions are inside their cycles, the count of synthetic samples is
    /// not past its end, and the heart has rings that it may have.
    pub open spec fn wf(self) -> bool {
        &&& 0 <= self.palette_idx < self.palettes.len()
        &&& 0 <= self.mode_idx < MODE_COUNT
        &&& self.demo_clock <= DEMO_CLOCK_END
        &&& heartbeat::rings_ok(self.rings)
    }

    /// After a step to the next palette.
    pub open spec fn next_palette(self) -> AppView {
        AppView { palette_idx: (self.palette_idx + 1) % (self.palettes.len() as int), ..self }
    }

    /// The track is another one than before.
    pub open spec fn track_changes(self, track: Option<nowplaying::TrackText>) -> bool {
        self.last_track is Some && track is Some && self.last_track != track
    }

    /// After the track was looked up: with another track than before comes the
    /// next palette.
    pub open spec fn with_track(self, track: Option<nowplaying::TrackText>) -> AppView {
        let stepped = if self.track_changes(track) {
            self.next_palette()
        } else {
            self
        };
        AppView { last_track: track, ..stepped }
    }

    /// After keys were pressed.
    pub open spec fn with_keys(self, keys: Keys) -> AppView {
        let stepped = if keys.space {
            self.next_palette()
        } else {
            self
        };
        AppView {
            mode_idx: if keys.m {
                (self.mode_idx + 1) % MODE_COUNT as int
            } else {
                self.mode_idx
            },
            show_overlay: self.show_overlay != keys.h,
            show_controls: self.show_controls != keys.tab,
            ..stepped
        }
    }

    /// After the heart moved on.
    pub open spec fn with_heart(self, now: u64, dt: u64, loud: bool, height: u32) -> AppView {
        AppView {
            clock: self.clock.after(now, loud),
            rings: heartbeat::rings_after(
                self.rings,
                self.clock.pulse(now, loud).lub,
                dt,
                height,
            ),
            ..self
        }
    }

    /// After so many synthetic samples.
    pub open spec fn with_synthetic(self, count: nat) -> AppView {
        AppView {
            demo_clock: if self.demo_clock + count <= DEMO_CLOCK_END {
                (self.demo_clock + count) as u64
            } else {
                DEMO_CLOCK_END
            },
            ..self
        }
    }

    /// The samples that a frame takes in: the synthetic ones, or else those that
    /// wait in the queue, as many as are taken at a time.
    pub open spec fn fresh(self, waiting: Seq<u32>, synthetic: Seq<u32>) -> Seq<u32> {
        if self.demo {
            synthetic
        } else {
            queue::taken(waiting, fft::DRAIN_SIZE as nat)
        }
    }

    /// What then waits in the queue: with a synthetic signal it is left alone.
    pub open spec fn waiting_after(self, waiting: Seq<u32>) -> Seq<u32> {
        if self.demo {
            waiting
        } else {
            queue::left(waiting, fft::DRAIN_SIZE as nat)
        }
    }

    /// The name of the palette in use.
    pub open spec fn palette_name(self, song: Option<SongPalette>) -> Seq<char> {
        match song {
            Some(SongPalette::Bumblebee) => self.song_palette,
            None => self.palettes[self.palette_idx],
        }
    }
}

/// A control after keys were pressed.
pub open spec fn control_after(control: audio::ControlView, keys: Keys) -> audio::ControlView {
    if !keys.d {
        control
    } else if keys.shift {
        control.advanced(-1)
    } else {
        control.advanced(1)
    }
}

/// What the overlay says of mode and palette.
pub open spec fn palette_text(mode: Mode, palette: Seq<char>) -> Seq<char> {
    if mode == Mode::Rainbow {
        "["@ + mode_name(mode) + "]"@
    } else {
        "["@ + mode_name(mode) + " | "@ + palette + "]"@
    }
}

/// What the overlay says of mode and palette; a rainbow has no palette.
pub fn palette_label(mode: Mode, palette: &str) -> (res: String)
    ensures
        res@ == palette_text(mode, palette@),
{
    let start = "[".to_owned().concat(mode.name());
    if mode == Mode::Rainbow {
        start.concat("]")
    } else {
        start.concat(" | ").concat(palette).concat("]")
    }
}

/// What the overlay says of a track.
pub open spec fn track_line(track: Option<nowplaying::TrackText>) -> Seq<char> {
    match track {
        Some(t) => nowplaying::shown(t),
        None => "(no track)"@,
    }
}

/// The three lines of the overlay.
pub struct Overlay {
    pub track: String,
    pub palette: String,
    pub device: String,
}

/// What comes into a frame from outside.
pub struct FrameInput {
    pub track: Option<Track>,
    pub keys: Keys,
    /// The time of the frame, in nanoseconds since the start.
    pub now: u64,
    /// The time since the frame before, in nanoseconds.
    pub dt: u64,
    /// The bass stands out.
    pub loud: bool,
    /// The bit pattern of the height of the picture.
    pub height: u32,
    /// The number of the frame.
    pub frame_count: u32,
}

/// What a frame shows and does.
pub struct Frame {
    /// The name of the palette that a change of the track brought.
    pub track_change: Option<String>,
    /// The palette of the song, if it has one.
    pub song: Option<SongPalette>,
    /// The position of the palette otherwise.
    pub palette_idx: usize,
    pub mode: Mode,
    pub pulse: Pulse,
    pub overlay: Option<Overlay>,
    pub controls: bool,
    /// What the keys ask of the window.
    pub asked: Requests,
    /// What is asked of the window without keys.
    pub automatic: Requests,
}

/// What the window is asked to do in a frame when screenshots go to a file that
/// was given at the start: a screenshot once the picture has settled, and the
/// end some frames later.
pub open spec fn automatic_requests(fixed_screenshot: bool, frame_count: u32) -> Requests {
    Requests {
        screenshot: fixed_screenshot && frame_count == 90,
        close: fixed_screenshot && frame_count >= 130,
    }
}

/// The step that a frame makes, for the time since the frame before.
pub open spec fn step(dt: u64) -> u64 {
    if dt > MAX_STEP {
        MAX_STEP
    } else {
        dt
    }
}

/// The number of samples in a step of `dt` at the sample rate.
pub open spec fn samples_in(dt: u64) -> int {
    step(dt) * SAMPLE_RATE / 1_000_000_000
}

/// The number `i` places after `start`, for `i` up to the largest number: past
/// the largest number comes 0.
pub open spec fn shot_number(start: usize, i: int) -> usize {
    if start + i <= usize::MAX {
        (start + i) as usize
    } else {
        (start + i - usize::MAX - 1) as usize
    }
}

impl View for FacecamApp {
    type V = AppView;

    closed spec fn view(&self) -> AppView {
        AppView {
            palettes: name_texts(self.palettes@),
            song_palette: self.song_palette@,
            palette_idx: self.palette_idx as int,
            mode_idx: self.mode_idx as int,
            show_overlay: self.show_overlay,
            show_controls: self.show_controls,
            fixed_screenshot: self.fixed_screenshot,
            screenshot_counter: self.screenshot_counter,
            demo: self.demo,
            demo_clock: self.demo_clock,
            last_track: nowplaying::track_text(self.last_track),
            clock: self.heart.clock(),
            rings: self.heart.rings(),
        }
    }
}

impl FacecamApp {
    /// A face camera with the palettes of the given names. `mode` and `demo` are
    /// what was asked for at the start, and `fixed_screenshot` tells whether a
    /// file for screenshots was given.
    pub fn new(
        palettes: Vec<String>,
        song_palette: String,
        mode: Option<&str>,
        demo: Option<&str>,
        fixed_screenshot: bool,
    ) -> (res: Self)
        requires
            palettes@.len() > 0,
        ensures
            res@.wf(),
            res@ == (AppView {
                palettes: name_texts(palettes@),
                song_palette: song_palette@,
                palette_idx: 0,
                mode_idx: match mode {
                    Some(n) => named_mode(text::lowercase(n@)),
                    None => 0,
                },
                show_overlay: true,
                show_controls: false,
                fixed_screenshot,
                screenshot_counter: 0,
                demo: demo is Some && demo->0@.len() > 0 && demo->0@ != "0"@,
                demo_clock: 0,
                last_track: None,
                clock: heartbeat::Clockwork {
                    last_beat: None,
                    due: None,
                    idle_at: heartbeat::FIRST_REST,
                },
                rings: Seq::empty(),
            }),
    {
        FacecamApp {
            palettes,
            song_palette,
            palette_idx: 0,
            mode_idx: mode_index(mode),
            show_overlay: true,
            show_controls: false,
            fixed_screenshot,
            screenshot_counter: 0,
            demo: demo_enabled(demo),
            demo_clock: 0,
            last_track: None,
            heart: Heartbeat::new(),
        }
    }

    /// Whether the synthetic signal takes the place of the capture.
    pub fn is_demo(&self) -> (res: bool)
        ensures
            res == self@.demo,
    {
        self.demo
    }

    /// The number of synthetic samples so far.
    pub fn demo_clock(&self) -> (res: u64)
        ensures
            res == self@.demo_clock,
    {
        self.demo_clock
    }

    /// The number of synthetic samples that are wanted for a frame, `dt` after
    /// the frame before: none where there is no synthetic signal.
    pub fn synthetic_wanted(&self, dt: u64) -> (res: usize)
        ensures
            res == (if self@.demo {
                samples_in(dt)
            } else {
                0
            }),
    {
        if !self.demo {
            return 0;
        }
        let capped: u64 = if dt > MAX_STEP {
            MAX_STEP
        } else {
            dt
        };
        assert(capped * SAMPLE_RATE <= MAX_STEP * SAMPLE_RATE) by (nonlinear_arith)
            requires
                capped <= MAX_STEP,
                SAMPLE_RATE >= 0,
        ;
        let n: u64 = capped * SAMPLE_RATE as u64 / 1_000_000_000;
        n as usize
    }

    /// Takes the samples of a frame into the window, and returns the window that
    /// is to be transformed. With a synthetic signal, that signal is taken in and
    /// the queue is left alone; without one, what waits in the queue is taken in,
    /// each sample once and in order.
    pub fn feed(
        &mut self,
        analyzer: &mut Analyzer,
        source: &mut SampleQueue,
        synthetic: &[u32],
    ) -> (words: Vec<u32>)
        requires
            old(self)@.wf(),
            old(analyzer).wf(),
            old(analyzer).size() > 0,
        ensures
            final(self)@.wf(),
            final(self)@ == (if old(self)@.demo {
                old(self)@.with_synthetic(synthetic@.len())
            } else {
                old(self)@
            }),
            final(analyzer).wf(),
            final(analyzer).size() == old(analyzer).size(),
            final(analyzer).bins() == old(analyzer).bins(),
            final(analyzer).window() == fft::latest(
                old(analyzer).window() + old(self)@.fresh(old(source)@, synthetic@),
                old(analyzer).size(),
            ),
            final(source)@ == old(self)@.waiting_after(old(source)@),
            final(source).capacity() == old(source).capacity(),
            words@ == final(analyzer).window(),
    {
        if self.demo {
            analyzer.ingest(synthetic);
            let n: u64 = synthetic.len() as u64;
            self.demo_clock = if n > DEMO_CLOCK_END - self.demo_clock {
                DEMO_CLOCK_END
            } else {
                self.demo_clock + n
            };
        } else {
            analyzer.drain(source);
        }
        analyzer.latest_words()
    }

    /// The rings that the heart has sent out, oldest first.
    pub fn rings(&self) -> (res: &Vec<PulseRing>)
        ensures
            res@ == self@.rings,
    {
        self.heart.ring_list()
    }

    fn cycle_palette(&mut self)
        requires
            old(self)@.wf(),
        ensures
            final(self)@.wf(),
            final(self)@ == old(self)@.next_palette(),
    {
        let count: usize = self.palettes.len();
        self.palette_idx = (self.palette_idx + 1) % count;
    }

    /// Takes note of the track; where it is another one than before, the next
    /// palette is chosen and its name returned.
    pub fn follow_track(&mut self, track: Option<Track>) -> (res: Option<String>)
        requires
            old(self)@.wf(),
        ensures
            final(self)@.wf(),
            final(self)@ == old(self)@.with_track(nowplaying::track_text(track)),
            match res {
                Some(name) => {
                    &&& old(self)@.track_changes(nowplaying::track_text(track))
                    &&& name@ == final(self)@.palettes[final(self)@.palette_idx]
                },
                None => !old(self)@.track_changes(nowplaying::track_text(track)),
            },
    {
        let changed = match (&self.last_track, &track) {
            (Some(prev), Some(curr)) => !prev.same_as(curr),
            _ => false,
        };
        let mut res: Option<String> = None;
        if changed {
            self.cycle_palette();
            res = Some(self.palettes[self.palette_idx].clone());
        }
        self.last_track = track;
        res
    }

    /// Does what the pressed keys ask for; what they ask of the window is
    /// returned.
    pub fn handle_input(&mut self, control: &mut AudioControl, keys: Keys) -> (res: Requests)
        requires
            old(self)@.wf(),
            old(control)@.wf(),
        ensures
            final(self)@.wf(),
            final(control)@.wf(),
            final(self)@ == old(self)@.with_keys(keys),
            final(control)@ == control_after(old(control)@, keys),
            res.screenshot == keys.s,
            res.close == (keys.q || keys.escape),
    {
        if keys.space {
            self.cycle_palette();
        }
        if keys.m {
            self.mode_idx = (self.mode_idx + 1) % MODE_COUNT;
        }
        if keys.d {
            if keys.shift {
                control.prev();
            } else {
                control.next();
            }
        }
        if keys.h {
            self.show_overlay = !self.show_overlay;
        }
        if keys.tab {
            self.show_controls = !self.show_controls;
        }
        Requests { screenshot: keys.s, close: keys.q || keys.escape }
    }

    /// What is asked of the window without keys.
    pub fn maybe_auto_screenshot(&self, frame_count: u32) -> (res: Requests)
        ensures
            res == automatic_requests(self@.fixed_screenshot, frame_count),
    {
        Requests {
            screenshot: self.fixed_screenshot && frame_count == 90,
            close: self.fixed_screenshot && frame_count >= 130,
        }
    }

    /// The lines of the overlay.
    fn overlay(&self, control: &AudioControl, track: &Option<Track>, song: Option<SongPalette>) -> (res:
        Overlay)
        requires
            self@.wf(),
            control@.wf(),
            control@.devices.len() > 0,
        ensures
            res.track@ == track_line(nowplaying::track_text(*track)),
            res.palette@ == palette_text(mode_of(self@.mode_idx), self@.palette_name(song)),
            res.device@ == control@.devices[control@.state.selected_idx as int].description,
    {
        let line = match track {
            Some(t) => t.display(),
            None => "(no track)".to_owned(),
        };
        let name = match song {
            Some(SongPalette::Bumblebee) => self.song_palette.as_str(),
            None => self.palettes[self.palette_idx].as_str(),
        };
        Overlay {
            track: line,
            palette: palette_label(Mode::at(self.mode_idx), name),
            device: control.current().description,
        }
    }

    /// Moves on by a frame: takes note of the track, does what the keys ask for,
    /// moves the heart on, and tells what to show.
    pub fn ui(&mut self, control: &mut AudioControl, input: FrameInput) -> (frame: Frame)
        requires
            old(self)@.wf(),
            old(control)@.wf(),
            old(control)@.devices.len() > 0,
            input.now <= u64::MAX - heartbeat::HOLD_OFF,
        ensures
            final(self)@.wf(),
            final(control)@.wf(),
            final(control)@ == control_after(old(control)@, input.keys),
            ({
                let track = nowplaying::track_text(input.track);
                let followed = old(self)@.with_track(track);
                let after = followed.with_keys(input.keys);
                let song = palette_of_track(track);
                let device = final(control)@.devices[final(control)@.state.selected_idx as int];
                &&& final(self)@ == after.with_heart(
                    input.now,
                    step(input.dt),
                    input.loud,
                    input.height,
                )
                &&& match frame.track_change {
                    Some(name) => old(self)@.track_changes(track) && name@
                        == followed.palettes[followed.palette_idx],
                    None => !old(self)@.track_changes(track),
                }
                &&& frame.song == song
                &&& frame.palette_idx == after.palette_idx
                &&& frame.mode == mode_of(after.mode_idx)
                &&& frame.pulse == after.clock.pulse(input.now, input.loud)
                &&& match frame.overlay {
                    Some(overlay) => {
                        &&& after.show_overlay
                        &&& overlay.track@ == track_line(track)
                        &&& overlay.palette@ == palette_text(frame.mode, after.palette_name(song))
                        &&& overlay.device@ == device.description
                    },
                    None => !after.show_overlay,
                }
                &&& frame.controls == after.show_controls
                &&& frame.asked.screenshot == input.keys.s
                &&& frame.asked.close == (input.keys.q || input.keys.escape)
                &&& frame.automatic == automatic_requests(
                    after.fixed_screenshot,
                    input.frame_count,
                )
            }),
    {
        let song = song_palette_override(input.track.as_ref());
        let track_change = self.follow_track(input.track.clone());
        let asked = self.handle_input(control, input.keys);
        let mode = Mode::at(self.mode_idx);
        let palette_idx: usize = self.palette_idx;
        let dt: u64 = if input.dt > MAX_STEP {
            MAX_STEP
        } else {
            input.dt
        };
        let pulse = self.heart.update_reactive(input.now, dt, input.loud, input.height);
        let overlay = if self.show_overlay {
            Some(self.overlay(control, &input.track, song))
        } else {
            None
        };
        let automatic = self.maybe_auto_screenshot(input.frame_count);
        Frame {
            track_change,
            song,
            palette_idx,
            mode,
            pulse,
            overlay,
            controls: self.show_controls,
            asked,
            automatic,
        }
    }

    /// The files for that many screenshots: `None` for the file that was given at
    /// the start, else the next numbered ones.
    pub fn save_pending_screenshots(&mut self, images: usize) -> (res: Vec<Option<String>>)
        ensures
            res@.len() == images,
            forall|i: int|
                0 <= i < images ==> match #[trigger] res@[i] {
                    Some(name) => !old(self)@.fixed_screenshot && name@
                        == screenshot::screenshot_file(
                        shot_number(old(self)@.screenshot_counter, i) as nat,
                    ),
                    None => old(self)@.fixed_screenshot,
                },
            final(self)@ == (AppView {
                screenshot_counter: if old(self)@.fixed_screenshot {
                    old(self)@.screenshot_counter
                } else {
                    shot_number(old(self)@.screenshot_counter, images as int)
                },
                ..old(self)@
            }),
    {
        let mut res: Vec<Option<String>> = Vec::new();
        let mut i: usize = 0;
        let ghost start = self.screenshot_counter;
        let ghost before = self@;
        while i < images
            invariant
                i <= images,
                res@.len() == i,
                before == old(self)@,
                start == before.screenshot_counter,
                self@ == (AppView {
                    screenshot_counter: if before.fixed_screenshot {
                        start
                    } else {
                        shot_number(start, i as int)
                    },
                    ..before
                }),
                forall|k: int|
                    0 <= k < i ==> match #[trigger] res@[k] {
                        Some(name) => !before.fixed_screenshot && name@
                            == screenshot::screenshot_file(
                            shot_number(start, k) as nat,
                        ),
                        None => before.fixed_screenshot,
                    },
            decreases images - i,
        {
            if self.fixed_screenshot {
                res.push(None);
            } else {
                let n: usize = self.screenshot_counter;
                self.screenshot_counter = if n == usize::MAX {
                    0
                } else {
                    n + 1
                };
                res.push(Some(screenshot::screenshot_name(n)));
            }
            i += 1;
        }
        res
    }
}

// ---------------------------------------------------------------------------
// The list of controls
// ---------------------------------------------------------------------------

/// The number of lines in the list of controls.
pub const CONTROL_COUNT: usize = 7;

/// A key and what it does, as the list of controls shows them.
pub open spec fn control_line(i: int) -> (Seq<char>, Seq<char>) {
    if i == 0 {
        ("Space"@, "cycle palette"@)
    } else if i == 1 {
        ("M"@, "cycle mode"@)
    } else if i == 2 {
        ("D / Shift+D"@, "next / prev audio device"@)
    } else if i == 3 {
        ("H"@, "toggle track overlay"@)
    } else if i == 4 {
        ("Tab"@, "toggle controls"@)
    } else if i == 5 {
        ("S"@, "screenshot"@)
    } else {
        ("Q / Esc"@, "quit"@)
    }
}

/// A line in the list of controls: a key and what it does.
pub fn control_entry(i: usize) -> (res: (&'static str, &'static str))
    requires
        i < CONTROL_COUNT,
    ensures
        res.0@ == control_line(i as int).0,
        res.1@ == control_line(i as int).1,
{
    match i {
        0 => ("Space", "cycle palette"),
        1 => ("M", "cycle mode"),
        2 => ("D / Shift+D", "next / prev audio device"),
        3 => ("H", "toggle track overlay"),
        4 => ("Tab", "toggle controls"),
        5 => ("S", "screenshot"),
        _ => ("Q / Esc", "quit"),
    }
}

// ---------------------------------------------------------------------------
// What holds of every face camera
// ---------------------------------------------------------------------------

/// No key is pressed.
pub open spec fn no_keys() -> Keys {
    Keys {
        space: false,
        m: false,
        d: false,
        shift: false,
        h: false,
        tab: false,
        s: false,
        q: false,
        escape: false,
    }
}

/// Without keys nothing changes, neither the settings nor the device.
pub proof fn lemma_no_keys_change_nothing(v: AppView, control: audio::ControlView)
    ensures
        v.with_keys(no_keys()) == v,
        control_after(control, no_keys()) == control,
{
}

/// Each toggle has its own key: `H` turns the overlay on and off and `Tab` the
/// list of controls, and no other key does.
pub proof fn lemma_each_toggle_has_its_own_key(v: AppView, keys: Keys)
    ensures
        keys.h ==> v.with_keys(keys).show_overlay == !v.show_overlay,
        !keys.h ==> v.with_keys(keys).show_overlay == v.show_overlay,
        keys.tab ==> v.with_keys(keys).show_controls == !v.show_controls,
        !keys.tab ==> v.with_keys(keys).show_controls == v.show_controls,
{
}

/// The space bar leads to the next palette and `M` to the next mode, behind the
/// last stands the first, and no other key leads anywhere.
pub proof fn lemma_each_step_has_its_own_key(v: AppView, keys: Keys)
    requires
        v.wf(),
    ensures
        keys.space && v.palette_idx + 1 < v.palettes.len() ==> v.with_keys(keys).palette_idx
            == v.palette_idx + 1,
        keys.space && v.palette_idx + 1 == v.palettes.len() ==> v.with_keys(keys).palette_idx == 0,
        !keys.space ==> v.with_keys(keys).palette_idx == v.palette_idx,
        keys.m && v.mode_idx + 1 < MODE_COUNT ==> v.with_keys(keys).mode_idx == v.mode_idx + 1,
        keys.m && v.mode_idx + 1 == MODE_COUNT ==> v.with_keys(keys).mode_idx == 0,
        !keys.m ==> v.with_keys(keys).mode_idx == v.mode_idx,
{
    lemma_next_palette(v);
}

proof fn lemma_next_palette(v: AppView)
    requires
        v.wf(),
    ensures
        v.palette_idx + 1 < v.palettes.len() ==> v.next_palette().palette_idx == v.palette_idx + 1,
        v.palette_idx + 1 == v.palettes.len() ==> v.next_palette().palette_idx == 0,
{
    let n = v.palettes.len();
    if v.palette_idx + 1 < n {
        vstd::arithmetic::div_mod::lemma_small_mod((v.palette_idx + 1) as nat, n);
    } else {
        vstd::arithmetic::div_mod::lemma_mod_self_0(n as int);
    }
}

/// Keys change the palette, the mode and the two toggles, and nothing else.
pub proof fn lemma_keys_change_settings_alone(v: AppView, keys: Keys)
    ensures
        ({
            let w = v.with_keys(keys);
            w == AppView {
                palette_idx: w.palette_idx,
                mode_idx: w.mode_idx,
                show_overlay: w.show_overlay,
                show_controls: w.show_controls,
                ..v
            }
        }),
{
}

/// `D` asks for the next device and, with the shift key, for the previous one,
/// from the one asked for or else captured; without `D`, or without devices, none
/// is asked for.
pub proof fn lemma_d_walks_along_the_devices(control: audio::ControlView, keys: Keys)
    requires
        control.wf(),
    ensures
        control.devices.len() == 0 ==> control_after(control, keys) == control,
        control.devices.len() > 0 ==> ({
            let after = control_after(control, keys);
            let from = if control.state.pending_idx is Some {
                control.state.pending_idx->0
            } else {
                control.state.selected_idx
            };
            let n = control.devices.len();
            &&& after.devices == control.devices
            &&& after.state.selected_idx == control.state.selected_idx
            &&& !keys.d ==> after.state.pending_idx == control.state.pending_idx
            &&& keys.d && !keys.shift && from + 1 < n ==> after.state.pending_idx == Some(
                (from + 1) as usize,
            )
            &&& keys.d && !keys.shift && from + 1 == n ==> after.state.pending_idx == Some(0usize)
            &&& keys.d && keys.shift && from > 0 ==> after.state.pending_idx == Some(
                (from - 1) as usize,
            )
            &&& keys.d && keys.shift && from == 0 ==> after.state.pending_idx == Some(
                (n - 1) as usize,
            )
        }),
{
    audio::lemma_next_and_previous(control);
}

/// A toggle undoes itself: the same keys pressed twice leave the overlay and
/// the list of controls as they were.
pub proof fn lemma_toggles_undo_themselves(v: AppView, keys: Keys)
    ensures
        v.with_keys(keys).with_keys(keys).show_overlay == v.show_overlay,
        v.with_keys(keys).with_keys(keys).show_controls == v.show_controls,
{
}

/// After `count` steps to the next palette.
pub open spec fn palettes_on(v: AppView, count: nat) -> AppView
    decreases count,
{
    if count == 0 {
        v
    } else {
        palettes_on(v, (count - 1) as nat).next_palette()
    }
}

/// Palettes form a cycle: `count` steps lead `count` places on, round the
/// cycle, and change nothing else.
pub proof fn lemma_palettes_cycle(v: AppView, count: nat)
    requires
        v.wf(),
    ensures
        palettes_on(v, count).wf(),
        palettes_on(v, count) == (AppView {
            palette_idx: (v.palette_idx + count) % (v.palettes.len() as int),
            ..v
        }),
    decreases count,
{
    let n = v.palettes.len() as int;
    if count == 0 {
        vstd::arithmetic::div_mod::lemma_small_mod(v.palette_idx as nat, n as nat);
    } else {
        lemma_palettes_cycle(v, (count - 1) as nat);
        let x = v.palette_idx + count - 1;
        vstd::arithmetic::div_mod::lemma_add_mod_noop(x, 1, n);
        vstd::arithmetic::div_mod::lemma_mod_twice(x, n);
        vstd::arithmetic::div_mod::lemma_add_mod_noop(x % n, 1, n);
    }
}

/// Once round the cycle is the palette that it started from.
pub proof fn lemma_palettes_come_round(v: AppView)
    requires
        v.wf(),
    ensures
        palettes_on(v, v.palettes.len()) == v,
{
    let n = v.palettes.len() as int;
    lemma_palettes_cycle(v, v.palettes.len());
    vstd::arithmetic::div_mod::lemma_mod_add_multiples_vanish(v.palette_idx, n);
    vstd::arithmetic::div_mod::lemma_small_mod(v.palette_idx as nat, n as nat);
}

/// Modes form a cycle of their own: pressing `M` once for each mode leads back.
pub proof fn lemma_modes_come_round(v: AppView, keys: Keys)
    requires
        v.wf(),
        keys.m,
    ensures
        v.with_keys(keys).with_keys(keys).with_keys(keys).with_keys(keys).mode_idx == v.mode_idx,
{
}

/// Only a change from one known track to another brings a new palette: not the
/// first track, not the end of one, not the same one again.
pub proof fn lemma_palette_follows_known_tracks_only(
    v: AppView,
    track: Option<nowplaying::TrackText>,
)
    ensures
        v.with_track(None).palette_idx == v.palette_idx,
        v.last_track is None ==> v.with_track(track).palette_idx == v.palette_idx,
        v.with_track(track).with_track(track) == v.with_track(track),
{
}

/// A known track that follows another known one with another title or artist
/// brings the next palette; any other does not. The track is noted, and nothing
/// else changes.
pub proof fn lemma_another_track_brings_the_next_palette(
    v: AppView,
    track: Option<nowplaying::TrackText>,
)
    requires
        v.wf(),
    ensures
        ({
            let w = v.with_track(track);
            let another = v.last_track is Some && track is Some && (v.last_track->0.title
                != track->0.title || v.last_track->0.artist != track->0.artist);
            &&& v.track_changes(track) == another
            &&& another && v.palette_idx + 1 < v.palettes.len() ==> w.palette_idx == v.palette_idx
                + 1
            &&& another && v.palette_idx + 1 == v.palettes.len() ==> w.palette_idx == 0
            &&& !another ==> w.palette_idx == v.palette_idx
            &&& w.last_track == track
            &&& w == AppView { palette_idx: w.palette_idx, last_track: w.last_track, ..v }
        }),
{
    lemma_next_palette(v);
    if v.last_track is Some && track is Some {
        let a = v.last_track->0;
        let b = track->0;
        assert(a == b <==> a.title == b.title && a.artist == b.artist);
    }
}

/// The heart of a face camera beats as a heart does: by the clock of the heart
/// and the bass of the frame, in every mode and with every setting, and nothing
/// else changes with it.
pub proof fn lemma_settings_do_not_touch_the_heart(
    v: AppView,
    now: u64,
    dt: u64,
    loud: bool,
    height: u32,
)
    ensures
        ({
            let w = v.with_heart(now, dt, loud, height);
            &&& w.clock == v.clock.after(now, loud)
            &&& w.rings == heartbeat::rings_after(
                v.rings,
                v.clock.pulse(now, loud).lub,
                dt,
                height,
            )
            &&& w == AppView { clock: w.clock, rings: w.rings, ..v }
        }),
{
}

/// The palette of a song is used while the song has one; else the chosen one.
pub proof fn lemma_a_song_overrides_the_palette(v: AppView)
    ensures
        v.palette_name(Some(SongPalette::Bumblebee)) == v.song_palette,
        v.palette_name(None) == v.palettes[v.palette_idx],
{
}

/// The overlay names the mode and the palette, but of a rainbow the mode alone;
/// and it shows the track, or that there is none.
pub proof fn lemma_the_overlay_names_what_is_shown(
    palette: Seq<char>,
    track: nowplaying::TrackText,
)
    ensures
        palette_text(Mode::Full, palette) == "["@ + "full"@ + " | "@ + palette + "]"@,
        palette_text(Mode::Half, palette) == "["@ + "half"@ + " | "@ + palette + "]"@,
        palette_text(Mode::Mirror, palette) == "["@ + "mirror"@ + " | "@ + palette + "]"@,
        palette_text(Mode::Rainbow, palette) == "["@ + "rainbow"@ + "]"@,
        track_line(Some(track)) == nowplaying::shown(track),
        track_line(None) == "(no track)"@,
{
}

/// Only with a file that was given at the start is anything asked without keys:
/// one screenshot in one frame, and the end in every frame from some later one
/// on.
pub proof fn lemma_automatic_requests(frame: u32, later: u32)
    requires
        frame <= later,
    ensures
        !automatic_requests(false, frame).screenshot && !automatic_requests(false, frame).close,
        automatic_requests(true, frame).screenshot && automatic_requests(true, later).screenshot
            ==> frame == later,
        automatic_requests(true, 90).screenshot,
        automatic_requests(true, frame).close ==> automatic_requests(true, later).close,
        automatic_requests(true, 130).close && !automatic_requests(true, 129).close,
{
}

/// A step is the time since the frame before, but never more than a tenth of a
/// second.
pub proof fn lemma_steps_are_short(dt: u64)
    ensures
        dt <= 100_000_000 ==> step(dt) == dt,
        dt >= 100_000_000 ==> step(dt) == 100_000_000,
{
}

/// The synthetic signal keeps time: the samples that are wanted for a step of
/// `dt` are all taken in, and move their count on by `dt` at the sample rate, as
/// long as a double-precision number counts by ones.
pub proof fn lemma_synthetic_samples_keep_time(
    v: AppView,
    dt: u64,
    waiting: Seq<u32>,
    synthetic: Seq<u32>,
)
    requires
        v.wf(),
        v.demo,
        synthetic.len() == samples_in(dt),
        v.demo_clock + samples_in(dt) <= 0x20_0000_0000_0000,
    ensures
        v.fresh(waiting, synthetic) == synthetic,
        v.with_synthetic(synthetic.len()).demo_clock == v.demo_clock + samples_in(dt),
        samples_in(dt) * 1_000_000_000 <= step(dt) * 44_100,
        step(dt) * 44_100 < (samples_in(dt) + 1) * 1_000_000_000,
{
}

/// The count of synthetic samples goes on by as many as are taken in, and stops at
/// the last number up to which a double-precision number counts by ones.
pub proof fn lemma_synthetic_samples_are_counted(v: AppView, count: nat)
    requires
        v.wf(),
    ensures
        v.demo_clock + count <= 0x20_0000_0000_0000 ==> v.with_synthetic(count).demo_clock
            == v.demo_clock + count,
        v.demo_clock + count > 0x20_0000_0000_0000 ==> v.with_synthetic(count).demo_clock
            == 0x20_0000_0000_0000,
        v.with_synthetic(count) == (AppView {
            demo_clock: v.with_synthetic(count).demo_clock,
            ..v
        }),
{
}

/// The queue holds the samples of eight transforms, which are four times as many
/// as a frame takes in; and there is a bar for every 64 samples of a transform.
pub proof fn lemma_sizes_fit_together()
    ensures
        QUEUE_CAPACITY == 8 * FFT_SIZE,
        QUEUE_CAPACITY == 4 * fft::DRAIN_SIZE,
        FFT_SIZE == 64 * NUM_BARS,
        FFT_SIZE == 4096,
{
}

/// A synthetic signal takes nothing out of the queue; without one, what a frame
/// takes in and what then waits are what waited before, in order.
pub proof fn lemma_samples_are_taken_once(v: AppView, waiting: Seq<u32>, synthetic: Seq<u32>)
    ensures
        v.demo ==> v.waiting_after(waiting) == waiting && v.fresh(waiting, synthetic) == synthetic,
        !v.demo ==> v.fresh(waiting, synthetic) + v.waiting_after(waiting) == waiting,
        !v.demo ==> v.fresh(waiting, synthetic).len() <= fft::DRAIN_SIZE,
        !v.demo && waiting.len() <= fft::DRAIN_SIZE ==> v.waiting_after(waiting).len() == 0,
        !v.demo && waiting.len() > fft::DRAIN_SIZE ==> v.fresh(waiting, synthetic).len()
            == fft::DRAIN_SIZE,
{
    if !v.demo {
        assert(v.fresh(waiting, synthetic) + v.waiting_after(waiting) =~= waiting);
    }
}

/// A face camera that is in order stays in order.
pub proof fn lemma_settings_stay_in_order(
    v: AppView,
    track: Option<nowplaying::TrackText>,
    keys: Keys,
)
    requires
        v.wf(),
    ensures
        v.with_track(track).wf(),
        v.with_keys(keys).wf(),
{
    let n = v.palettes.len() as int;
    vstd::arithmetic::div_mod::lemma_mod_bound(v.palette_idx + 1, n);
}

/// Screenshots are numbered one after the other, and past the largest number
/// comes 0.
pub proof fn lemma_screenshots_are_numbered_in_order(start: usize, i: int)
    requires
        0 <= i < usize::MAX,
    ensures
        shot_number(start, 0) == start,
        shot_number(start, i) < usize::MAX ==> shot_number(start, i + 1) == shot_number(start, i)
            + 1,
        shot_number(start, i) == usize::MAX ==> shot_number(start, i + 1) == 0,
{
}

/// The numbered screenshots of a run go to files of their own.
pub proof fn lemma_screenshots_do_not_overwrite(start: usize, i: int, j: int)
    requires
        0 <= i < j <= usize::MAX,
    ensures
        screenshot::screenshot_file(shot_number(start, i) as nat) != screenshot::screenshot_file(
            shot_number(start, j) as nat,
        ),
{
    screenshot::lemma_file_names_differ(shot_number(start, i) as nat, shot_number(start, j) as nat);
}

} // verus!
