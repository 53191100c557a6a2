//! The heartbeat: when the heart beats, and the rings that it sends out.
//!
//! Times are nanoseconds since the start. A beat in the music is answered by a
//! full *lub* and, a little later, by a *dub*. While the music supplies no
//! beats, gentler resting beats keep the heart going.

use vstd::prelude::*;

verus! {

/// A beat is ignored until more than this time has passed since the last one.
pub const REFRACTORY: u64 = 120_000_000;

/// The dub follows the lub after this time.
pub const DUB_DELAY: u64 = 140_000_000;

/// After a beat in the music, the first resting beat comes after this time.
pub const HOLD_OFF: u64 = 1_200_000_000;

/// Resting beats follow one another after this time.
pub const RESTING_PERIOD: u64 = 950_000_000;

/// The first resting beat comes at this time, if there is no beat before.
pub const FIRST_REST: u64 = 1_000_000_000;

/// The largest number of rings at a time.
pub const MAX_RINGS: usize = 16;

/// No ring lives longer than this.
pub const LONGEST_LIFE: u64 = 1_000_000_000;

/// The strength of a beat.
#[derive(Debug, Clone, Copy, PartialEq, Eq)]
pub enum Beat {
    /// A beat in the music.
    Full,
    /// A resting beat.
    Rest,
}

/// How long a ring lives: `0.55 s` and half a second times its strength, which
/// is `0.9` for a full beat and `0.45` for a resting one.
pub open spec fn lifetime(beat: Beat) -> int {
    match beat {
        Beat::Full => 1_000_000_000,
        Beat::Rest => 775_000_000,
    }
}

/// A ring that a beat sent out.
#[derive(Debug, Clone, Copy, PartialEq, Eq)]
pub struct PulseRing {
    pub age: u64,
    pub beat: Beat,
    /// The bit pattern of the height of the picture when the ring was sent out.
    pub height: u32,
}

impl PulseRing {
    /// The age at which the ring is gone.
    pub fn max_age(&self) -> (res: u64)
        ensures
            res == lifetime(self.beat),
    {
        match self.beat {
            Beat::Full => 1_000_000_000,
            Beat::Rest => 775_000_000,
        }
    }
}

/// The push that a lub gives the heart, in hundredths: half of it at rest.
pub open spec fn lub_impulse(beat: Beat) -> int {
    match beat {
        Beat::Full => 340,
        Beat::Rest => 170,
    }
}

/// The push that the dub after it gives, in hundredths: half of it at rest.
pub open spec fn dub_impulse(beat: Beat) -> int {
    match beat {
        Beat::Full => 200,
        Beat::Rest => 100,
    }
}

/// What the heart does in a frame.
#[derive(Debug, Clone, Copy, PartialEq, Eq)]
pub struct Pulse {
    pub lub: Option<Beat>,
    /// The strength of the lub that a dub answers.
    pub dub: Option<Beat>,
}

/// The pushes of a frame together, in hundredths.
pub open spec fn total_impulse(pulse: Pulse) -> int {
    let lub = match pulse.lub {
        Some(beat) => lub_impulse(beat),
        None => 0,
    };
    let dub = match pulse.dub {
        Some(beat) => dub_impulse(beat),
        None => 0,
    };
    lub + dub
}

impl Pulse {
    /// The pushes of the frame together, in hundredths.
    pub fn impulse(&self) -> (res: u32)
        ensures
            res == total_impulse(*self),
    {
        let lub: u32 = match self.lub {
            Some(Beat::Full) => 340,
            Some(Beat::Rest) => 170,
            None => 0,
        };
        let dub: u32 = match self.dub {
            Some(Beat::Full) => 200,
            Some(Beat::Rest) => 100,
            None => 0,
        };
        lub + dub
    }
}

/// A dub that is still to come.
#[derive(Debug, Clone, Copy, PartialEq, Eq)]
pub struct DueDub {
    pub at: u64,
    /// The strength of the lub that it answers.
    pub beat: Beat,
}

/// The times of a heart.
#[derive(Debug, Clone, Copy, PartialEq, Eq)]
pub struct Clockwork {
    /// The time of the last beat in the music.
    pub last_beat: Option<u64>,
    /// The dub that answers the latest lub.
    pub due: Option<DueDub>,
    /// The time at which a resting beat is due.
    pub idle_at: u64,
}

impl Clockwork {
    /// A sound that is loud at `now` counts as a beat.
    pub open spec fn accepts(self, now: u64) -> bool {
        match self.last_beat {
            Some(t) => now - t > REFRACTORY,
            None => true,
        }
    }

    /// What the heart does at `now`.
    pub open spec fn pulse(self, now: u64, loud: bool) -> Pulse {
        if loud && self.accepts(now) {
            Pulse { lub: Some(Beat::Full), dub: None }
        } else if now >= self.idle_at {
            Pulse { lub: Some(Beat::Rest), dub: None }
        } else {
            Pulse {
                lub: None,
                dub: match self.due {
                    Some(due) if now >= due.at => Some(due.beat),
                    _ => None,
                },
            }
        }
    }

    /// The times after that.
    pub open spec fn after(self, now: u64, loud: bool) -> Clockwork {
        if loud && self.accepts(now) {
            Clockwork {
                last_beat: Some(now),
                due: Some(DueDub { at: (now + DUB_DELAY) as u64, beat: Beat::Full }),
                idle_at: (now + HOLD_OFF) as u64,
            }
        } else if now >= self.idle_at {
            Clockwork {
                last_beat: self.last_beat,
                due: Some(DueDub { at: (now + DUB_DELAY) as u64, beat: Beat::Rest }),
                idle_at: (now + RESTING_PERIOD) as u64,
            }
        } else if self.due is Some && now >= self.due->0.at {
            Clockwork { due: None, ..self }
        } else {
            self
        }
    }
}

/// Rings after a new one was sent out: where there are too many, the oldest is
/// dropped.
pub open spec fn emitted(rings: Seq<PulseRing>, beat: Beat, height: u32) -> Seq<PulseRing> {
    let all = rings.push(PulseRing { age: 0, beat, height });
    if all.len() > MAX_RINGS {
        all.drop_first()
    } else {
        all
    }
}

/// Rings, each older by `dt`.
pub open spec fn aged(rings: Seq<PulseRing>, dt: u64) -> Seq<PulseRing> {
    Seq::new(
        rings.len(),
        |i: int| PulseRing { age: (rings[i].age + dt) as u64, ..rings[i] },
    )
}

/// The rings whose time is not yet over, in order.
pub open spec fn surviving(rings: Seq<PulseRing>) -> Seq<PulseRing>
    decreases rings.len(),
{
    if rings.len() == 0 {
        Seq::empty()
    } else if rings.last().age < lifetime(rings.last().beat) {
        surviving(rings.drop_last()).push(rings.last())
    } else {
        surviving(rings.drop_last())
    }
}

/// The rings with the one that a lub sends out.
pub open spec fn with_sent(rings: Seq<PulseRing>, lub: Option<Beat>, height: u32) -> Seq<
    PulseRing,
> {
    match lub {
        Some(beat) => emitted(rings, beat, height),
        None => rings,
    }
}

/// The rings after a frame: a lub sends one out, all grow older, and those
/// whose time is over are gone.
pub open spec fn rings_after(
    rings: Seq<PulseRing>,
    lub: Option<Beat>,
    dt: u64,
    height: u32,
) -> Seq<PulseRing> {
    surviving(aged(with_sent(rings, lub, height), dt))
}

/// The rings that a heart may have: not too many, and none past its time.
pub open spec fn rings_ok(rings: Seq<PulseRing>) -> bool {
    &&& rings.len() <= MAX_RINGS
    &&& forall|i: int|
        0 <= i < rings.len() ==> (#[trigger] rings[i]).age < lifetime(rings[i].beat)
}

/// A beating heart.
pub struct Heartbeat {
    clock: Clockwork,
    rings: Vec<PulseRing>,
}

impl Heartbeat {
    /// The times of the heart.
    pub closed spec fn clock(&self) -> Clockwork {
        self.clock
    }

    /// The rings, oldest first.
    pub closed spec fn rings(&self) -> Seq<PulseRing> {
        self.rings@
    }

    /// The heart has rings that it may have.
    pub open spec fn wf(&self) -> bool {
        rings_ok(self.rings())
    }

    /// A heart that has not beaten yet.
    pub fn new() -> (res: Self)
        ensures
            res.wf(),
            res.clock() == (Clockwork { last_beat: None, due: None, idle_at: FIRST_REST }),
            res.rings() == Seq::<PulseRing>::empty(),
    {
        Heartbeat {
            clock: Clockwork { last_beat: None, due: None, idle_at: FIRST_REST },
            rings: Vec::new(),
        }
    }

    /// The rings, oldest first.
    pub fn ring_list(&self) -> (res: &Vec<PulseRing>)
        ensures
            res@ == self.rings(),
    {
        &self.rings
    }

    /// Moves the heart on to `now`, `dt` after the frame before, in a picture of
    /// the given height; `loud` tells whether the bass stands out.
    pub fn update_reactive(&mut self, now: u64, dt: u64, loud: bool, height: u32) -> (pulse: Pulse)
        requires
            old(self).wf(),
            now <= u64::MAX - HOLD_OFF,
            dt <= u64::MAX - LONGEST_LIFE,
        ensures
            final(self).wf(),
            pulse == old(self).clock().pulse(now, loud),
            final(self).clock() == old(self).clock().after(now, loud),
            final(self).rings() == rings_after(old(self).rings(), pulse.lub, dt, height),
    {
        let mut pulse = Pulse { lub: None, dub: None };
        let rested = match self.clock.last_beat {
            Some(t) => now > t && now - t > REFRACTORY,
            None => true,
        };
        if loud && rested {
            self.clock.last_beat = Some(now);
            self.clock.due = Some(DueDub { at: now + DUB_DELAY, beat: Beat::Full });
            self.clock.idle_at = now + HOLD_OFF;
            pulse.lub = Some(Beat::Full);
            self.emit_ring(Beat::Full, height);
        }
        if now >= self.clock.idle_at {
            self.clock.idle_at = now + RESTING_PERIOD;
            self.clock.due = Some(DueDub { at: now + DUB_DELAY, beat: Beat::Rest });
            pulse.lub = Some(Beat::Rest);
            self.emit_ring(Beat::Rest, height);
        }
        if let Some(due) = self.clock.due {
            if now >= due.at {
                self.clock.due = None;
                pulse.dub = Some(due.beat);
            }
        }
        self.age_rings(dt);
        pulse
    }

    fn emit_ring(&mut self, beat: Beat, height: u32)
        requires
            old(self).wf(),
        ensures
            final(self).wf(),
            final(self).clock() == old(self).clock(),
            final(self).rings() == emitted(old(self).rings(), beat, height),
    {
        self.rings.push(PulseRing { age: 0, beat, height });
        if self.rings.len() > MAX_RINGS {
            let ghost all = self.rings@;
            self.rings.remove(0);
            assert(self.rings@ =~= all.drop_first());
        }
    }

    fn age_rings(&mut self, dt: u64)
        requires
            old(self).wf(),
            dt <= u64::MAX - LONGEST_LIFE,
        ensures
            final(self).wf(),
            final(self).clock() == old(self).clock(),
            final(self).rings() == surviving(aged(old(self).rings(), dt)),
    {
        let ghost older = aged(self.rings@, dt);
        let mut kept: Vec<PulseRing> = Vec::new();
        let mut i: usize = 0;
        while i < self.rings.len()
            invariant
                self.wf(),
                *self == *old(self),
                dt <= u64::MAX - LONGEST_LIFE,
                i <= self.rings@.len(),
                older == aged(self.rings@, dt),
                kept@ == surviving(older.take(i as int)),
                kept@.len() <= i,
                rings_ok(kept@),
            decreases self.rings@.len() - i,
        {
            let r = self.rings[i];
            let ring = PulseRing { age: r.age + dt, beat: r.beat, height: r.height };
            assert(older.take(i + 1).drop_last() =~= older.take(i as int));
            assert(older.take(i + 1).last() == ring);
            if ring.age < ring.max_age() {
                kept.push(ring);
            }
            i += 1;
        }
        assert(older.take(i as int) =~= older);
        self.rings = kept;
    }
}

// ---------------------------------------------------------------------------
// What holds of every run
// ---------------------------------------------------------------------------

/// A frame: its time, and whether the bass stands out.
pub struct Moment {
    pub now: u64,
    pub loud: bool,
}

/// Frames in the order of time, early enough for all times to be numbers.
pub open spec fn timely(frames: Seq<Moment>) -> bool {
    &&& forall|i: int| 0 <= i < frames.len() ==> (#[trigger] frames[i]).now <= u64::MAX - HOLD_OFF
    &&& forall|i: int, j: int|
        0 <= i <= j < frames.len() ==> (#[trigger] frames[i]).now <= (#[trigger] frames[j]).now
}

/// The times of a heart before frame `k`, from its first beat on.
pub open spec fn clock_at(frames: Seq<Moment>, k: int) -> Clockwork
    decreases k,
{
    if k <= 0 {
        Clockwork { last_beat: None, due: None, idle_at: FIRST_REST }
    } else {
        clock_at(frames, k - 1).after(frames[k - 1].now, frames[k - 1].loud)
    }
}

/// What the heart does in frame `k`.
pub open spec fn pulse_at(frames: Seq<Moment>, k: int) -> Pulse {
    clock_at(frames, k).pulse(frames[k].now, frames[k].loud)
}

proof fn lemma_after_beat(frames: Seq<Moment>, i: int, k: int)
    requires
        timely(frames),
        0 <= i < k <= frames.len(),
        pulse_at(frames, i).lub == Some(Beat::Full),
    ensures
        clock_at(frames, k).last_beat is Some,
        clock_at(frames, k).last_beat->0 >= frames[i].now,
        clock_at(frames, k).idle_at >= frames[i].now + HOLD_OFF,
    decreases k,
{
    let _ = frames[k - 1].now;
    if k > i + 1 {
        lemma_after_beat(frames, i, k - 1);
    }
}

proof fn lemma_after_rest(frames: Seq<Moment>, i: int, k: int)
    requires
        timely(frames),
        0 <= i < k <= frames.len(),
        pulse_at(frames, i).lub == Some(Beat::Rest),
    ensures
        clock_at(frames, k).idle_at >= frames[i].now + RESTING_PERIOD,
    decreases k,
{
    let _ = frames[k - 1].now;
    if k > i + 1 {
        lemma_after_rest(frames, i, k - 1);
    }
}

/// Two full beats are always more than the refractory time apart.
pub proof fn lemma_full_beats_keep_apart(frames: Seq<Moment>, i: int, j: int)
    requires
        timely(frames),
        0 <= i < j < frames.len(),
        pulse_at(frames, i).lub == Some(Beat::Full),
        pulse_at(frames, j).lub == Some(Beat::Full),
    ensures
        frames[j].now - frames[i].now > REFRACTORY,
{
    lemma_after_beat(frames, i, j);
}

proof fn lemma_last_beat_was_a_beat(frames: Seq<Moment>, k: int) -> (i: int)
    requires
        timely(frames),
        0 <= k <= frames.len(),
        clock_at(frames, k).last_beat is Some,
    ensures
        0 <= i < k,
        pulse_at(frames, i).lub == Some(Beat::Full),
        frames[i].now == clock_at(frames, k).last_beat->0,
    decreases k,
{
    if pulse_at(frames, k - 1).lub == Some(Beat::Full) {
        k - 1
    } else {
        assert(clock_at(frames, k).last_beat == clock_at(frames, k - 1).last_beat);
        lemma_last_beat_was_a_beat(frames, k - 1)
    }
}

/// No beat in the music is missed: a loud bass is a full beat whenever every
/// full beat before lies more than the refractory time back, and so also where
/// there was none before, however many resting beats there were.
pub proof fn lemma_no_beat_is_missed(frames: Seq<Moment>, k: int)
    requires
        timely(frames),
        0 <= k < frames.len(),
        frames[k].loud,
        forall|i: int|
            0 <= i < k && (#[trigger] pulse_at(frames, i)).lub == Some(Beat::Full)
                ==> frames[k].now - frames[i].now > REFRACTORY,
    ensures
        pulse_at(frames, k).lub == Some(Beat::Full),
{
    if clock_at(frames, k).last_beat is Some {
        let i = lemma_last_beat_was_a_beat(frames, k);
        assert(pulse_at(frames, i).lub == Some(Beat::Full));
    }
}

/// A full beat is always a beat in the music: without a loud bass there is none.
pub proof fn lemma_full_beats_need_a_loud_bass(frames: Seq<Moment>, k: int)
    requires
        0 <= k < frames.len(),
        !frames[k].loud,
    ensures
        pulse_at(frames, k).lub != Some(Beat::Full),
{
}

/// The frames strictly between `j` and `k` have no lub.
pub open spec fn no_lub_between(frames: Seq<Moment>, j: int, k: int) -> bool {
    forall|m: int| j < m < k ==> (#[trigger] pulse_at(frames, m)).lub is None
}

proof fn lemma_rest_stays_due(frames: Seq<Moment>, j: int, k: int)
    requires
        -1 <= j < k <= frames.len(),
        j >= 0 ==> pulse_at(frames, j).lub is Some,
        j >= 0 ==> frames[j].now <= u64::MAX - HOLD_OFF,
        no_lub_between(frames, j, k),
    ensures
        clock_at(frames, k).idle_at == (if j < 0 {
            FIRST_REST as int
        } else if pulse_at(frames, j).lub == Some(Beat::Full) {
            frames[j].now + HOLD_OFF
        } else {
            frames[j].now + RESTING_PERIOD
        }),
    decreases k,
{
    if k > j + 1 {
        assert forall|m: int| j < m < k - 1 implies (#[trigger] pulse_at(frames, m)).lub is None by {
            assert(j < m < k);
        }
        assert(pulse_at(frames, k - 1).lub is None);
        lemma_rest_stays_due(frames, j, k - 1);
    }
}

/// Resting beats come on time: after a lub, a frame without a full beat has a
/// resting one exactly when the hold-off time has passed since a full lub, or
/// the resting period since a resting one.
pub proof fn lemma_resting_beats_come_on_time(frames: Seq<Moment>, j: int, k: int)
    requires
        timely(frames),
        0 <= j < k < frames.len(),
        pulse_at(frames, j).lub is Some,
        no_lub_between(frames, j, k),
        pulse_at(frames, k).lub != Some(Beat::Full),
    ensures
        pulse_at(frames, j).lub == Some(Beat::Full) ==> (pulse_at(frames, k).lub == Some(Beat::Rest)
            <==> frames[k].now - frames[j].now >= HOLD_OFF),
        pulse_at(frames, j).lub == Some(Beat::Rest) ==> (pulse_at(frames, k).lub == Some(Beat::Rest)
            <==> frames[k].now - frames[j].now >= RESTING_PERIOD),
{
    assert(frames[j].now <= u64::MAX - HOLD_OFF);
    lemma_rest_stays_due(frames, j, k);
}

/// The first lub, if it is a resting one, comes at its time and not before.
pub proof fn lemma_the_first_rest_comes_on_time(frames: Seq<Moment>, k: int)
    requires
        0 <= k < frames.len(),
        no_lub_between(frames, -1, k),
        pulse_at(frames, k).lub != Some(Beat::Full),
    ensures
        pulse_at(frames, k).lub == Some(Beat::Rest) <==> frames[k].now >= FIRST_REST,
{
    lemma_rest_stays_due(frames, -1, k);
}

/// The music holds resting beats off: one never comes sooner than the hold-off
/// time after a full beat, nor sooner than the resting period after another.
pub proof fn lemma_resting_beats_are_held_off(frames: Seq<Moment>, i: int, j: int)
    requires
        timely(frames),
        0 <= i < j < frames.len(),
        pulse_at(frames, j).lub == Some(Beat::Rest),
    ensures
        pulse_at(frames, i).lub == Some(Beat::Full) ==> frames[j].now - frames[i].now >= HOLD_OFF,
        pulse_at(frames, i).lub == Some(Beat::Rest) ==> frames[j].now - frames[i].now
            >= RESTING_PERIOD,
{
    if pulse_at(frames, i).lub == Some(Beat::Full) {
        lemma_after_beat(frames, i, j);
    }
    if pulse_at(frames, i).lub == Some(Beat::Rest) {
        lemma_after_rest(frames, i, j);
    }
}

/// The frames strictly between `i` and `k` have neither lub nor dub.
pub open spec fn silent_between(frames: Seq<Moment>, i: int, k: int) -> bool {
    forall|m: int|
        i < m < k ==> (#[trigger] pulse_at(frames, m)).lub is None && pulse_at(frames, m).dub is None
}

/// The lub in frame `i` is still to be answered in frame `k`.
pub open spec fn unanswered(frames: Seq<Moment>, i: int, k: int) -> bool {
    &&& 0 <= i < k
    &&& pulse_at(frames, i).lub is Some
    &&& silent_between(frames, i, k)
}

proof fn lemma_dub_is_owed(frames: Seq<Moment>, k: int) -> (i: int)
    requires
        timely(frames),
        0 <= k <= frames.len(),
        clock_at(frames, k).due is Some,
    ensures
        unanswered(frames, i, k),
        clock_at(frames, k).due->0.at == frames[i].now + DUB_DELAY,
        Some(clock_at(frames, k).due->0.beat) == pulse_at(frames, i).lub,
    decreases k,
{
    let now = frames[k - 1].now;
    if pulse_at(frames, k - 1).lub is Some {
        k - 1
    } else {
        assert(clock_at(frames, k - 1).due is Some);
        let i = lemma_dub_is_owed(frames, k - 1);
        assert forall|m: int| i < m < k implies (#[trigger] pulse_at(frames, m)).lub is None
            && pulse_at(frames, m).dub is None by {
            if m == k - 1 {
                assert(pulse_at(frames, k - 1).lub is None);
            }
        }
        i
    }
}

/// The dub in frame `k` answers the lub in frame `i`: it comes at least the dub's
/// delay after it, with no other lub or dub in between, and has its strength.
pub open spec fn answers(frames: Seq<Moment>, i: int, k: int) -> bool {
    &&& unanswered(frames, i, k)
    &&& frames[k].now >= frames[i].now + DUB_DELAY
    &&& pulse_at(frames, k).dub == pulse_at(frames, i).lub
}

/// Every dub answers a lub of its own.
pub proof fn lemma_every_dub_answers_a_lub(frames: Seq<Moment>, k: int)
    requires
        timely(frames),
        0 <= k < frames.len(),
        pulse_at(frames, k).dub is Some,
    ensures
        exists|i: int| #[trigger] answers(frames, i, k),
{
    let i = lemma_dub_is_owed(frames, k);
    assert(answers(frames, i, k));
}

/// A dub is softer than the lub that it answers, be that a full or a resting
/// one.
pub proof fn lemma_the_dub_is_softer(beat: Beat)
    ensures
        dub_impulse(beat) < lub_impulse(beat),
{
}

/// In every run, the frame of a dub pushes the heart, and less than the frame of
/// the lub that the dub answers did.
pub proof fn lemma_every_dub_pushes_less_than_its_lub(frames: Seq<Moment>, i: int, k: int)
    requires
        answers(frames, i, k),
    ensures
        0 < total_impulse(pulse_at(frames, k)) < total_impulse(pulse_at(frames, i)),
{
}

proof fn lemma_dub_stays_owed(frames: Seq<Moment>, i: int, k: int)
    requires
        timely(frames),
        0 <= i < k <= frames.len(),
        pulse_at(frames, i).lub is Some,
        silent_between(frames, i, k),
    ensures
        clock_at(frames, k).due is Some,
        clock_at(frames, k).due->0.at == frames[i].now + DUB_DELAY,
        Some(clock_at(frames, k).due->0.beat) == pulse_at(frames, i).lub,
    decreases k,
{
    let _ = frames[k - 1].now;
    if k > i + 1 {
        assert forall|m: int| i < m < k - 1 implies (#[trigger] pulse_at(frames, m)).lub is None
            && pulse_at(frames, m).dub is None by {
            assert(i < m < k);
        }
        lemma_dub_stays_owed(frames, i, k - 1);
        assert(pulse_at(frames, k - 1).lub is None && pulse_at(frames, k - 1).dub is None);
    }
}

/// Every lub is answered: the first frame after the dub's delay, with no lub or
/// dub in between, has the dub, or another lub that puts it off.
pub proof fn lemma_every_lub_is_answered(frames: Seq<Moment>, i: int, k: int)
    requires
        timely(frames),
        0 <= i < k < frames.len(),
        pulse_at(frames, i).lub is Some,
        silent_between(frames, i, k),
        frames[k].now >= frames[i].now + DUB_DELAY,
    ensures
        answers(frames, i, k) || pulse_at(frames, k).lub is Some,
{
    lemma_dub_stays_owed(frames, i, k);
}

/// The pushes of a frame are those of its lub and of its dub, and no others.
pub proof fn lemma_pushes_add_up(lub: Option<Beat>, dub: Option<Beat>)
    ensures
        total_impulse(Pulse { lub: None, dub: None }) == 0,
        lub is Some ==> total_impulse(Pulse { lub, dub: None }) == lub_impulse(lub->0),
        dub is Some ==> total_impulse(Pulse { lub: None, dub }) == dub_impulse(dub->0),
        total_impulse(Pulse { lub, dub }) == total_impulse(Pulse { lub, dub: None })
            + total_impulse(Pulse { lub: None, dub }),
{
}

/// A resting beat pushes half as much as a full one.
pub proof fn lemma_rest_is_gentler()
    ensures
        2 * lub_impulse(Beat::Rest) == lub_impulse(Beat::Full),
        2 * dub_impulse(Beat::Rest) == dub_impulse(Beat::Full),
        lifetime(Beat::Rest) < lifetime(Beat::Full),
{
}

/// A lub and a dub never fall into the same frame.
pub proof fn lemma_lub_and_dub_are_apart(clock: Clockwork, now: u64, loud: bool)
    ensures
        !(clock.pulse(now, loud).lub is Some && clock.pulse(now, loud).dub is Some),
{
}

proof fn lemma_idle_at_is_near(frames: Seq<Moment>, k: int)
    requires
        timely(frames),
        0 <= k <= frames.len(),
    ensures
        clock_at(frames, k).idle_at == FIRST_REST || exists|i: int|
            0 <= i < k && (#[trigger] pulse_at(frames, i)).lub is Some && clock_at(frames, k).idle_at
                <= frames[i].now + HOLD_OFF,
    decreases k,
{
    if k > 0 {
        lemma_idle_at_is_near(frames, k - 1);
        let now = frames[k - 1].now;
        if pulse_at(frames, k - 1).lub is Some {
            assert(clock_at(frames, k).idle_at <= frames[k - 1].now + HOLD_OFF);
        } else if clock_at(frames, k - 1).idle_at != FIRST_REST {
            let i = choose|i: int|
                0 <= i < k - 1 && (#[trigger] pulse_at(frames, i)).lub is Some && clock_at(
                    frames,
                    k - 1,
                ).idle_at <= frames[i].now + HOLD_OFF;
            assert(pulse_at(frames, i).lub is Some);
        }
    }
}

/// The heart never stops: in every frame it beats, or it beat less than the
/// hold-off time ago, or it is still before the time of the first resting beat.
pub proof fn lemma_the_heart_never_stops(frames: Seq<Moment>, k: int)
    requires
        timely(frames),
        0 <= k < frames.len(),
    ensures
        ({
            ||| pulse_at(frames, k).lub is Some
            ||| frames[k].now < FIRST_REST
            ||| exists|i: int|
                0 <= i < k && (#[trigger] pulse_at(frames, i)).lub is Some && frames[k].now
                    < frames[i].now + HOLD_OFF
        }),
{
    lemma_idle_at_is_near(frames, k);
    if pulse_at(frames, k).lub is None && clock_at(frames, k).idle_at != FIRST_REST {
        let i = choose|i: int|
            0 <= i < k && (#[trigger] pulse_at(frames, i)).lub is Some && clock_at(
                frames,
                k,
            ).idle_at <= frames[i].now + HOLD_OFF;
        assert(pulse_at(frames, i).lub is Some);
    }
}

proof fn lemma_surviving_shrinks(rings: Seq<PulseRing>)
    ensures
        surviving(rings).len() <= rings.len(),
    decreases rings.len(),
{
    if rings.len() > 0 {
        lemma_surviving_shrinks(rings.drop_last());
    }
}

/// Each lub sends out one ring, which outlives any but a very long first frame
/// as the youngest of all; without a lub no ring is added.
pub proof fn lemma_one_ring_for_each_lub(
    rings: Seq<PulseRing>,
    beat: Beat,
    dt: u64,
    height: u32,
)
    requires
        dt < lifetime(beat),
    ensures
        rings_after(rings, Some(beat), dt, height).len() > 0,
        rings_after(rings, Some(beat), dt, height).last() == (PulseRing { age: dt, beat, height }),
        rings_after(rings, Some(beat), dt, height).len() <= rings.len() + 1,
        rings_after(rings, None, dt, height).len() <= rings.len(),
{
    let sent = aged(emitted(rings, beat, height), dt);
    assert(sent.last() == (PulseRing { age: dt, beat, height }));
    lemma_surviving_shrinks(sent);
    lemma_surviving_shrinks(aged(rings, dt));
}

/// `after` has the rings of `before` at the positions `from`, in order, each
/// older by `dt`; the others have reached the end of their time.
pub open spec fn kept_in_order(
    before: Seq<PulseRing>,
    dt: u64,
    after: Seq<PulseRing>,
    from: Seq<int>,
) -> bool {
    &&& from.len() == after.len()
    &&& forall|i: int|
        0 <= i < from.len() ==> 0 <= #[trigger] from[i] < before.len() && after[i].age
            == before[from[i]].age + dt && after[i].beat == before[from[i]].beat
            && after[i].height == before[from[i]].height
    &&& forall|i: int, j: int|
        0 <= i < j < from.len() ==> #[trigger] from[i] < #[trigger] from[j]
    &&& forall|j: int|
        0 <= j < before.len() && (#[trigger] before[j]).age + dt < lifetime(before[j].beat)
            ==> from.contains(j)
}

proof fn lemma_surviving_in_order(before: Seq<PulseRing>, dt: u64) -> (from: Seq<int>)
    requires
        forall|i: int| 0 <= i < before.len() ==> (#[trigger] before[i]).age + dt <= u64::MAX,
    ensures
        kept_in_order(before, dt, surviving(aged(before, dt)), from),
        forall|i: int|
            0 <= i < surviving(aged(before, dt)).len() ==> (#[trigger] surviving(
                aged(before, dt),
            )[i]).age < lifetime(surviving(aged(before, dt))[i].beat),
    decreases before.len(),
{
    if before.len() == 0 {
        Seq::empty()
    } else {
        let front = before.drop_last();
        let n = before.len() - 1;
        assert forall|i: int| 0 <= i < front.len() implies (#[trigger] front[i]).age + dt
            <= u64::MAX by {
            assert(front[i] == before[i]);
        }
        let rest = lemma_surviving_in_order(front, dt);
        let kept = surviving(aged(front, dt));
        let all = surviving(aged(before, dt));
        assert(aged(before, dt).drop_last() =~= aged(front, dt));
        let stays = before[n].age + dt < lifetime(before[n].beat);
        let from = if stays {
            rest.push(n)
        } else {
            rest
        };
        assert(all == if stays {
            kept.push(aged(before, dt).last())
        } else {
            kept
        });
        assert forall|j: int|
            0 <= j < before.len() && (#[trigger] before[j]).age + dt < lifetime(
                before[j].beat,
            ) implies from.contains(j) by {
            if j < n {
                assert(front[j] == before[j]);
                let i = choose|i: int| 0 <= i < rest.len() && rest[i] == j;
                assert(from[i] == j);
            } else {
                assert(from[from.len() - 1] == j);
            }
        }
        assert forall|i: int| 0 <= i < from.len() implies 0 <= #[trigger] from[i] < before.len()
            && all[i].age == before[from[i]].age + dt && all[i].beat == before[from[i]].beat
            && all[i].height == before[from[i]].height by {
            if i < rest.len() {
                assert(from[i] == rest[i] && all[i] == kept[i]);
                assert(front[rest[i]] == before[rest[i]]);
            }
        }
        assert forall|i: int, j: int| 0 <= i < j < from.len() implies #[trigger] from[i]
            < #[trigger] from[j] by {
            assert(from[i] == rest[i]);
            if j < rest.len() {
                assert(from[j] == rest[j]);
            }
        }
        assert forall|i: int| 0 <= i < all.len() implies (#[trigger] all[i]).age < lifetime(
            all[i].beat,
        ) by {
            if i < kept.len() {
                assert(all[i] == kept[i]);
            }
        }
        from
    }
}

/// Over a frame the rings stay few and within their time; those that stay are
/// each older by exactly `dt` and in the order in which they were sent out; and
/// only those go whose time is over, or the oldest where there are too many.
pub proof fn lemma_rings_age_in_order(
    rings: Seq<PulseRing>,
    lub: Option<Beat>,
    dt: u64,
    height: u32,
)
    requires
        rings_ok(rings),
        dt <= u64::MAX - LONGEST_LIFE,
    ensures
        rings_ok(rings_after(rings, lub, dt, height)),
        exists|from: Seq<int>|
            kept_in_order(
                with_sent(rings, lub, height),
                dt,
                rings_after(rings, lub, dt, height),
                from,
            ),
        lub is None ==> with_sent(rings, lub, height) == rings,
        lub is Some && rings.len() < MAX_RINGS ==> with_sent(rings, lub, height) == rings.push(
            PulseRing { age: 0, beat: lub->0, height },
        ),
        lub is Some && rings.len() == MAX_RINGS ==> with_sent(rings, lub, height)
            == rings.drop_first().push(PulseRing { age: 0, beat: lub->0, height }),
{
    let sent = with_sent(rings, lub, height);
    if lub is Some {
        let ring = PulseRing { age: 0, beat: lub->0, height };
        assert(rings.push(ring).len() > MAX_RINGS ==> rings.push(ring).drop_first()
            =~= rings.drop_first().push(ring));
    }
    assert forall|i: int| 0 <= i < sent.len() implies (#[trigger] sent[i]).age + dt <= u64::MAX by {
        if lub is Some && rings.len() == MAX_RINGS && i < sent.len() - 1 {
            assert(sent[i] == rings[i + 1]);
        } else if i < rings.len() && !(lub is Some && rings.len() == MAX_RINGS) {
            assert(sent[i] == rings[i]);
        }
    }
    let from = lemma_surviving_in_order(sent, dt);
    lemma_surviving_shrinks(aged(sent, dt));
    assert(kept_in_order(sent, dt, rings_after(rings, lub, dt, height), from));
}

} // verus!
