//! Capture devices: which there are, which one to start with, which one the
//! user asks for, and how its stream is opened and watched.

use vstd::prelude::*;

use crate::queue::SampleQueue;
use crate::text;

verus! {

/// A capture device.
#[derive(Debug, PartialEq, Eq)]
pub struct AudioDevice {
    /// The device name as the system reports it, by which it is opened again.
    pub name: String,
    /// The name shown to the user.
    pub description: String,
}

/// The texts of an `AudioDevice`.
pub struct DeviceText {
    pub name: Seq<char>,
    pub description: Seq<char>,
}

impl View for AudioDevice {
    type V = DeviceText;

    open spec fn view(&self) -> DeviceText {
        DeviceText { name: self.name@, description: self.description@ }
    }
}

impl Clone for AudioDevice {
    fn clone(&self) -> (res: Self)
        ensures
            res@ == self@,
            res.name@ == self.name@,
            res.description@ == self.description@,
    {
        AudioDevice { name: self.name.clone(), description: self.description.clone() }
    }
}

/// The texts of a list of devices.
pub open spec fn device_texts(devices: Seq<AudioDevice>) -> Seq<DeviceText> {
    devices.map_values(|d: AudioDevice| d@)
}

/// The texts of a list are those of its devices, one by one.
pub proof fn lemma_device_texts(devices: Seq<AudioDevice>)
    ensures
        device_texts(devices).len() == devices.len(),
        forall|i: int|
            0 <= i < devices.len() ==> (#[trigger] device_texts(devices)[i]).name
                == devices[i].name@ && device_texts(devices)[i].description
                == devices[i].description@,
{
}

// ---------------------------------------------------------------------------
// The device that capture starts with
// ---------------------------------------------------------------------------

/// A device whose name or description holds `needle`.
pub open spec fn mentions(d: DeviceText, needle: Seq<char>) -> bool {
    text::has_part(d.name, needle) || text::has_part(d.description, needle)
}

/// A loopback device, which carries what the system plays back.
pub open spec fn is_loopback(d: DeviceText) -> bool {
    text::has_part(d.description, "blackhole"@)
}

/// The first device from position `i` on that mentions `needle`.
pub open spec fn first_mention(devices: Seq<DeviceText>, needle: Seq<char>, i: int) -> Option<int>
    decreases devices.len() - i,
{
    if i >= devices.len() {
        None
    } else if mentions(devices[i], needle) {
        Some(i)
    } else {
        first_mention(devices, needle, i + 1)
    }
}

/// The first loopback device from position `i` on.
pub open spec fn first_loopback(devices: Seq<DeviceText>, i: int) -> Option<int>
    decreases devices.len() - i,
{
    if i >= devices.len() {
        None
    } else if is_loopback(devices[i]) {
        Some(i)
    } else {
        first_loopback(devices, i + 1)
    }
}

/// The device to start with, among devices whose texts are in lower case: the
/// first that mentions a non-empty `needle`, else the first loopback device,
/// else the first device.
pub open spec fn initial_choice(lowered: Seq<DeviceText>, needle: Option<Seq<char>>) -> int {
    let wanted = match needle {
        Some(n) => if n.len() == 0 {
            None
        } else {
            first_mention(lowered, n, 0)
        },
        None => None,
    };
    match wanted {
        Some(i) => i,
        None => match first_loopback(lowered, 0) {
            Some(i) => i,
            None => 0,
        },
    }
}

fn find_mention(lowered: &[AudioDevice], needle: &str) -> (res: Option<usize>)
    ensures
        match res {
            Some(i) => first_mention(device_texts(lowered@), needle@, 0) == Some(i as int),
            None => first_mention(device_texts(lowered@), needle@, 0) is None,
        },
{
    let ghost texts = device_texts(lowered@);
    let mut i: usize = 0;
    while i < lowered.len()
        invariant
            texts == device_texts(lowered@),
            i <= lowered@.len(),
            first_mention(texts, needle@, 0) == first_mention(texts, needle@, i as int),
        decreases lowered@.len() - i,
    {
        let d = &lowered[i];
        if text::contains(d.name.as_str(), needle) || text::contains(d.description.as_str(), needle) {
            return Some(i);
        }
        i += 1;
    }
    None
}

fn find_loopback(lowered: &[AudioDevice]) -> (res: Option<usize>)
    ensures
        match res {
            Some(i) => first_loopback(device_texts(lowered@), 0) == Some(i as int),
            None => first_loopback(device_texts(lowered@), 0) is None,
        },
{
    let ghost texts = device_texts(lowered@);
    let mut i: usize = 0;
    while i < lowered.len()
        invariant
            texts == device_texts(lowered@),
            i <= lowered@.len(),
            first_loopback(texts, 0) == first_loopback(texts, i as int),
        decreases lowered@.len() - i,
    {
        if text::contains(lowered[i].description.as_str(), "blackhole") {
            return Some(i);
        }
        i += 1;
    }
    None
}

/// The device to start with, among devices whose texts are in lower case.
pub fn pick_lowered(lowered: &[AudioDevice], needle: Option<&str>) -> (res: usize)
    ensures
        res == initial_choice(device_texts(lowered@), pref_text(needle)),
{
    if let Some(n) = needle {
        if !n.is_empty() {
            if let Some(i) = find_mention(lowered, n) {
                return i;
            }
        }
    }
    match find_loopback(lowered) {
        Some(i) => i,
        None => 0,
    }
}

/// A device with both texts in lower case.
pub open spec fn lowered_text(d: DeviceText) -> DeviceText {
    DeviceText { name: text::lowercase(d.name), description: text::lowercase(d.description) }
}

/// The device to start with, without regard to case.
pub open spec fn picked(devices: Seq<DeviceText>, pref: Option<Seq<char>>) -> int {
    initial_choice(
        devices.map_values(|d: DeviceText| lowered_text(d)),
        match pref {
            Some(p) => Some(text::lowercase(p)),
            None => None,
        },
    )
}

/// The text of a preference.
pub open spec fn pref_text(pref: Option<&str>) -> Option<Seq<char>> {
    match pref {
        Some(p) => Some(p@),
        None => None,
    }
}

/// Picks the device to start with. A preference is looked up in name and
/// description without regard to case; with none, or none that matches, a
/// BlackHole loopback comes first, so that the picture follows what the system
/// plays; else the first device is taken.
pub fn pick_initial(devices: &[AudioDevice], pref: Option<&str>) -> (res: usize)
    ensures
        res == picked(device_texts(devices@), pref_text(pref)),
        devices@.len() > 0 ==> res < devices@.len(),
{
    let mut lowered: Vec<AudioDevice> = Vec::new();
    let mut i: usize = 0;
    while i < devices.len()
        invariant
            i <= devices@.len(),
            lowered@.len() == i,
            forall|j: int| 0 <= j < i ==> (#[trigger] lowered@[j])@ == lowered_text(devices@[j]@),
        decreases devices@.len() - i,
    {
        let d = &devices[i];
        lowered.push(
            AudioDevice {
                name: d.name.as_str().to_lowercase(),
                description: d.description.as_str().to_lowercase(),
            },
        );
        i += 1;
    }
    proof {
        assert(device_texts(lowered@) =~= device_texts(devices@).map_values(
            |d: DeviceText| lowered_text(d),
        ));
        lemma_initial_choice_in_range(
            device_texts(lowered@),
            match pref {
                Some(p) => Some(text::lowercase(p@)),
                None => None,
            },
        );
    }
    match pref {
        Some(p) => {
            let needle = p.to_lowercase();
            pick_lowered(lowered.as_slice(), Some(needle.as_str()))
        },
        None => pick_lowered(lowered.as_slice(), None),
    }
}

proof fn lemma_first_mention(devices: Seq<DeviceText>, needle: Seq<char>, i: int)
    requires
        0 <= i,
    ensures
        match first_mention(devices, needle, i) {
            Some(k) => {
                &&& i <= k < devices.len()
                &&& mentions(devices[k], needle)
                &&& forall|j: int| i <= j < k ==> !mentions(#[trigger] devices[j], needle)
            },
            None => forall|j: int|
                i <= j < devices.len() ==> !mentions(#[trigger] devices[j], needle),
        },
    decreases devices.len() - i,
{
    if i < devices.len() && !mentions(devices[i], needle) {
        lemma_first_mention(devices, needle, i + 1);
    }
}

proof fn lemma_first_loopback(devices: Seq<DeviceText>, i: int)
    requires
        0 <= i,
    ensures
        match first_loopback(devices, i) {
            Some(k) => {
                &&& i <= k < devices.len()
                &&& is_loopback(devices[k])
                &&& forall|j: int| i <= j < k ==> !is_loopback(#[trigger] devices[j])
            },
            None => forall|j: int| i <= j < devices.len() ==> !is_loopback(#[trigger] devices[j]),
        },
    decreases devices.len() - i,
{
    if i < devices.len() && !is_loopback(devices[i]) {
        lemma_first_loopback(devices, i + 1);
    }
}

/// Where there is a device, the device to start with is one of them.
pub proof fn lemma_initial_choice_in_range(
    lowered: Seq<DeviceText>,
    needle: Option<Seq<char>>,
)
    ensures
        0 <= initial_choice(lowered, needle),
        lowered.len() > 0 ==> initial_choice(lowered, needle) < lowered.len(),
{
    if let Some(n) = needle {
        lemma_first_mention(lowered, n, 0);
    }
    lemma_first_loopback(lowered, 0);
}

/// Case does not matter: devices and preferences that agree in lower case lead
/// to the same choice.
pub proof fn lemma_case_does_not_matter(
    a: Seq<DeviceText>,
    b: Seq<DeviceText>,
    p: Seq<char>,
    q: Seq<char>,
)
    requires
        a.len() == b.len(),
        forall|i: int| 0 <= i < a.len() ==> lowered_text(#[trigger] a[i]) == lowered_text(b[i]),
        text::lowercase(p) == text::lowercase(q),
    ensures
        picked(a, Some(p)) == picked(b, Some(q)),
        picked(a, None) == picked(b, None),
{
    assert(a.map_values(|d: DeviceText| lowered_text(d)) =~= b.map_values(
        |d: DeviceText| lowered_text(d),
    ));
}

/// A non-empty preference that some device mentions is honoured: the device to
/// start with mentions it, and no earlier one does.
pub proof fn lemma_preference_wins(lowered: Seq<DeviceText>, needle: Seq<char>)
    requires
        needle.len() > 0,
        exists|i: int| 0 <= i < lowered.len() && mentions(#[trigger] lowered[i], needle),
    ensures
        ({
            let k = initial_choice(lowered, Some(needle));
            &&& 0 <= k < lowered.len()
            &&& mentions(lowered[k], needle)
            &&& forall|j: int| 0 <= j < k ==> !mentions(#[trigger] lowered[j], needle)
        }),
{
    lemma_first_mention(lowered, needle, 0);
}

/// A preference that is empty, or that no device mentions, counts as none.
pub proof fn lemma_unmatched_preference_counts_as_none(
    lowered: Seq<DeviceText>,
    needle: Seq<char>,
)
    requires
        needle.len() == 0 || forall|i: int|
            0 <= i < lowered.len() ==> !mentions(#[trigger] lowered[i], needle),
    ensures
        initial_choice(lowered, Some(needle)) == initial_choice(lowered, None),
{
    lemma_first_mention(lowered, needle, 0);
}

/// Without a preference the first loopback device wins wherever it stands, and
/// the first device where there is no loopback device.
pub proof fn lemma_loopback_wins_without_preference(lowered: Seq<DeviceText>)
    ensures
        ({
            let k = initial_choice(lowered, None);
            ||| {
                &&& 0 <= k < lowered.len()
                &&& is_loopback(lowered[k])
                &&& forall|j: int| 0 <= j < k ==> !is_loopback(#[trigger] lowered[j])
            }
            ||| {
                &&& k == 0
                &&& forall|j: int| 0 <= j < lowered.len() ==> !is_loopback(#[trigger] lowered[j])
            }
        }),
{
    lemma_first_loopback(lowered, 0);
}

/// In lower case, the name or the description of device `i` holds the
/// preference.
pub open spec fn matches(devices: Seq<DeviceText>, pref: Seq<char>, i: int) -> bool {
    &&& 0 <= i < devices.len()
    &&& text::has_part(text::lowercase(devices[i].name), text::lowercase(pref)) || text::has_part(
        text::lowercase(devices[i].description),
        text::lowercase(pref),
    )
}

/// In lower case, the description of device `i` holds `blackhole`.
pub open spec fn is_blackhole(devices: Seq<DeviceText>, i: int) -> bool {
    &&& 0 <= i < devices.len()
    &&& text::has_part(text::lowercase(devices[i].description), "blackhole"@)
}

/// A preference that matches is honoured: the device to start with is the first
/// that it matches.
pub proof fn lemma_a_matching_preference_is_honoured(
    devices: Seq<DeviceText>,
    pref: Seq<char>,
    i: int,
)
    requires
        text::lowercase(pref).len() > 0,
        matches(devices, pref, i),
    ensures
        picked(devices, Some(pref)) <= i,
        matches(devices, pref, picked(devices, Some(pref))),
        forall|j: int|
            0 <= j < picked(devices, Some(pref)) ==> !(#[trigger] matches(devices, pref, j)),
{
    let lowered = devices.map_values(|d: DeviceText| lowered_text(d));
    let needle = text::lowercase(pref);
    assert(mentions(lowered[i], needle));
    lemma_first_mention(lowered, needle, 0);
    let k = picked(devices, Some(pref));
    assert(mentions(lowered[k], needle));
    assert forall|j: int| 0 <= j < k implies !(#[trigger] matches(devices, pref, j)) by {
        assert(!mentions(lowered[j], needle));
    }
}

/// Without a preference that matches, the first BlackHole device is the one to
/// start with, wherever it stands.
pub proof fn lemma_a_blackhole_comes_first(
    devices: Seq<DeviceText>,
    pref: Option<Seq<char>>,
    i: int,
)
    requires
        pref is Some && text::lowercase(pref->0).len() > 0 ==> forall|j: int|
            !(#[trigger] matches(devices, pref->0, j)),
        is_blackhole(devices, i),
    ensures
        picked(devices, pref) <= i,
        is_blackhole(devices, picked(devices, pref)),
        forall|j: int| 0 <= j < picked(devices, pref) ==> !(#[trigger] is_blackhole(devices, j)),
{
    let lowered = devices.map_values(|d: DeviceText| lowered_text(d));
    lemma_no_match(devices, pref);
    assert(is_loopback(lowered[i]));
    lemma_first_loopback(lowered, 0);
    let k = picked(devices, pref);
    assert(is_loopback(lowered[k]));
    assert forall|j: int| 0 <= j < k implies !(#[trigger] is_blackhole(devices, j)) by {
        assert(!is_loopback(lowered[j]));
    }
}

/// Without either, the first device is the one to start with.
pub proof fn lemma_else_the_first_device(devices: Seq<DeviceText>, pref: Option<Seq<char>>)
    requires
        pref is Some && text::lowercase(pref->0).len() > 0 ==> forall|j: int|
            !(#[trigger] matches(devices, pref->0, j)),
        forall|j: int| !(#[trigger] is_blackhole(devices, j)),
    ensures
        picked(devices, pref) == 0,
{
    let lowered = devices.map_values(|d: DeviceText| lowered_text(d));
    lemma_no_match(devices, pref);
    lemma_first_loopback(lowered, 0);
    if let Some(k) = first_loopback(lowered, 0) {
        assert(is_blackhole(devices, k));
    }
}

proof fn lemma_no_match(devices: Seq<DeviceText>, pref: Option<Seq<char>>)
    requires
        pref is Some && text::lowercase(pref->0).len() > 0 ==> forall|j: int|
            !(#[trigger] matches(devices, pref->0, j)),
    ensures
        picked(devices, pref) == initial_choice(
            devices.map_values(|d: DeviceText| lowered_text(d)),
            None,
        ),
{
    let lowered = devices.map_values(|d: DeviceText| lowered_text(d));
    if let Some(p) = pref {
        let needle = text::lowercase(p);
        lemma_first_mention(lowered, needle, 0);
        if needle.len() > 0 {
            if let Some(k) = first_mention(lowered, needle, 0) {
                assert(matches(devices, p, k));
            }
        }
    }
}

// ---------------------------------------------------------------------------
// The device that the user asks for
// ---------------------------------------------------------------------------

/// Which device is captured, and which one has been asked for since.
#[derive(Debug, Clone, Copy, PartialEq, Eq)]
pub struct ControlState {
    pub selected_idx: usize,
    pub pending_idx: Option<usize>,
}

/// The capture devices, and the user's walk along them.
pub struct AudioControl {
    devices: Vec<AudioDevice>,
    state: ControlState,
}

/// What an `AudioControl` holds.
pub struct ControlView {
    pub devices: Seq<DeviceText>,
    pub state: ControlState,
}

impl ControlView {
    /// Both positions are positions of devices, where there is a device.
    pub open spec fn wf(self) -> bool {
        &&& self.devices.len() <= usize::MAX
        &&& self.devices.len() > 0 ==> {
            &&& self.state.selected_idx < self.devices.len()
            &&& self.state.pending_idx is Some ==> self.state.pending_idx->0 < self.devices.len()
        }
    }

    /// The position that the user means: the latest one asked for, or else the
    /// one captured.
    pub open spec fn intent(self) -> int {
        match self.state.pending_idx {
            Some(i) => i as int,
            None => self.state.selected_idx as int,
        }
    }

    /// After a step of `delta` along the ring of devices. Without devices
    /// nothing changes.
    pub open spec fn advanced(self, delta: int) -> ControlView {
        if self.devices.len() == 0 {
            self
        } else {
            ControlView {
                state: ControlState {
                    pending_idx: Some(((self.intent() + delta) % (self.devices.len() as int)) as usize),
                    ..self.state
                },
                ..self
            }
        }
    }

    /// After the capture side has looked for a request: the device asked for
    /// becomes the one captured.
    pub open spec fn switched(self) -> ControlView {
        match self.state.pending_idx {
            Some(i) => ControlView {
                state: ControlState { selected_idx: i, pending_idx: None },
                ..self
            },
            None => self,
        }
    }
}

impl View for AudioControl {
    type V = ControlView;

    closed spec fn view(&self) -> ControlView {
        ControlView { devices: device_texts(self.devices@), state: self.state }
    }
}

proof fn lemma_wrapped(from: int, delta: int, n: int, q: int, r: int)
    requires
        n > 0,
        0 <= r < n,
        from + delta == q * n + r,
    ensures
        (from + delta) % n == r,
{
    vstd::arithmetic::div_mod::lemma_fundamental_div_mod_converse(from + delta, n, q, r);
}

/// The position `delta` steps from `from` on a ring of `n` positions.
fn wrapped(from: usize, delta: isize, n: usize) -> (res: usize)
    requires
        from < n,
    ensures
        res == (from + delta) % (n as int),
        res < n,
{
    if delta >= 0 {
        let d: usize = delta as usize;
        let step: usize = d % n;
        let ghost q = d as int / n as int;
        let room: usize = n - from;
        proof {
            vstd::arithmetic::div_mod::lemma_fundamental_div_mod(d as int, n as int);
            assert(n * q == q * n) by (nonlinear_arith);
            assert((q + 1) * n == q * n + n) by (nonlinear_arith);
        }
        if step < room {
            proof {
                lemma_wrapped(from as int, delta as int, n as int, q, from + step);
            }
            from + step
        } else {
            proof {
                lemma_wrapped(from as int, delta as int, n as int, q + 1, step - room);
            }
            step - room
        }
    } else {
        let d: usize = (-(delta + 1)) as usize;
        let back: usize = d % n;
        let ghost q = d as int / n as int;
        proof {
            vstd::arithmetic::div_mod::lemma_fundamental_div_mod(d as int, n as int);
            assert(n * q == q * n) by (nonlinear_arith);
            assert((-q) * n == -(q * n)) by (nonlinear_arith);
            assert((-q - 1) * n == -(q * n) - n) by (nonlinear_arith);
        }
        if back < from {
            proof {
                lemma_wrapped(from as int, delta as int, n as int, -q, from - 1 - back);
            }
            from - 1 - back
        } else {
            proof {
                lemma_wrapped(from as int, delta as int, n as int, -q - 1, n - 1 - (back - from));
            }
            n - 1 - (back - from)
        }
    }
}

impl AudioControl {
    /// A control over `devices` that captures the one at `initial`.
    pub fn new(devices: Vec<AudioDevice>, initial: usize) -> (control: Self)
        requires
            devices@.len() > 0 ==> initial < devices@.len(),
        ensures
            control@.wf(),
            control@.devices == device_texts(devices@),
            control@.state == (ControlState { selected_idx: initial, pending_idx: None }),
    {
        let count: usize = devices.len();
        assert(device_texts(devices@).len() == count);
        AudioControl {
            devices,
            state: ControlState { selected_idx: initial, pending_idx: None },
        }
    }

    /// The position of the device that is captured.
    pub fn selected_idx(&self) -> (res: usize)
        ensures
            res == self@.state.selected_idx,
    {
        self.state.selected_idx
    }

    /// The position of the device that has been asked for and not yet opened.
    pub fn pending_idx(&self) -> (res: Option<usize>)
        ensures
            res == self@.state.pending_idx,
    {
        self.state.pending_idx
    }

    /// The device that is captured.
    pub fn current(&self) -> (res: AudioDevice)
        requires
            self@.wf(),
            self@.devices.len() > 0,
        ensures
            res@ == self@.devices[self@.state.selected_idx as int],
    {
        self.devices[self.state.selected_idx].clone()
    }

    /// Asks for the next device.
    pub fn next(&mut self)
        requires
            old(self)@.wf(),
        ensures
            final(self)@.wf(),
            final(self)@ == old(self)@.advanced(1),
    {
        self.advance(1);
    }

    /// Asks for the previous device.
    pub fn prev(&mut self)
        requires
            old(self)@.wf(),
        ensures
            final(self)@.wf(),
            final(self)@ == old(self)@.advanced(-1),
    {
        self.advance(-1);
    }

    /// Advances from the latest *intent*, not from the captured device: two
    /// quick taps skip two devices instead of asking for the same one twice.
    fn advance(&mut self, delta: isize)
        requires
            old(self)@.wf(),
        ensures
            final(self)@.wf(),
            final(self)@ == old(self)@.advanced(delta as int),
    {
        let n: usize = self.devices.len();
        if n == 0 {
            return;
        }
        let from: usize = match self.state.pending_idx {
            Some(i) => i,
            None => self.state.selected_idx,
        };
        let next: usize = wrapped(from, delta, n);
        self.state.pending_idx = Some(next);
    }

    /// Makes the device that was asked for the captured one; tells whether one
    /// was asked for.
    pub fn take_pending(&mut self) -> (res: bool)
        requires
            old(self)@.wf(),
        ensures
            final(self)@.wf(),
            final(self)@ == old(self)@.switched(),
            res == (old(self)@.state.pending_idx is Some),
    {
        match self.state.pending_idx {
            Some(i) => {
                self.state.pending_idx = None;
                self.state.selected_idx = i;
                true
            },
            None => false,
        }
    }
}

/// Asking for a device leaves the captured one as it is.
pub proof fn lemma_request_keeps_selection(v: ControlView, delta: int)
    ensures
        v.advanced(delta).state.selected_idx == v.state.selected_idx,
        v.advanced(delta).devices == v.devices,
{
}

/// Steps add up: one of `a` and one of `b` ask for the device that a single
/// step of `a + b` asks for.
pub proof fn lemma_steps_add_up(v: ControlView, a: int, b: int)
    requires
        v.wf(),
    ensures
        v.advanced(a).wf(),
        v.advanced(a).advanced(b) == v.advanced(a + b),
{
    if v.devices.len() > 0 {
        let n = v.devices.len() as int;
        let x = v.intent() + a;
        vstd::arithmetic::div_mod::lemma_add_mod_noop(x, b, n);
        vstd::arithmetic::div_mod::lemma_mod_twice(x, n);
        vstd::arithmetic::div_mod::lemma_add_mod_noop(x % n, b, n);
        assert((x % n + b) % n == (x + b) % n);
    }
}

/// After `count` requests for the next device.
pub open spec fn tapped(v: ControlView, count: nat) -> ControlView
    decreases count,
{
    if count == 0 {
        v
    } else {
        tapped(v, (count - 1) as nat).advanced(1)
    }
}

/// Every tap counts: `count` quick taps ask for the device `count` places on,
/// round the ring, however few of them have been served.
pub proof fn lemma_taps_add_up(v: ControlView, count: nat)
    requires
        v.wf(),
        count > 0,
    ensures
        tapped(v, count) == v.advanced(count as int),
    decreases count,
{
    if count == 1 {
        assert(tapped(v, 0) == v);
    } else {
        lemma_taps_add_up(v, (count - 1) as nat);
        lemma_steps_add_up(v, count - 1, 1);
    }
}

/// One step forward and one back, or once round the ring, end at the device
/// that was meant before.
pub proof fn lemma_steps_undo(v: ControlView)
    requires
        v.wf(),
        v.devices.len() > 0,
    ensures
        v.advanced(1).advanced(-1).intent() == v.intent(),
        v.advanced(-1).advanced(1).intent() == v.intent(),
        v.advanced(v.devices.len() as int).intent() == v.intent(),
{
    let n = v.devices.len() as int;
    lemma_steps_add_up(v, 1, -1);
    lemma_steps_add_up(v, -1, 1);
    vstd::arithmetic::div_mod::lemma_small_mod(v.intent() as nat, n as nat);
    vstd::arithmetic::div_mod::lemma_mod_add_multiples_vanish(v.intent(), n);
}

/// The next device is the one behind the device asked for, or else behind the
/// one captured, and behind the last stands the first; the previous one stands
/// before it, and before the first stands the last. Without devices nothing is
/// asked for.
pub proof fn lemma_next_and_previous(v: ControlView)
    requires
        v.wf(),
    ensures
        v.devices.len() == 0 ==> v.advanced(1) == v && v.advanced(-1) == v,
        v.devices.len() > 0 ==> {
            let from = if v.state.pending_idx is Some {
                v.state.pending_idx->0
            } else {
                v.state.selected_idx
            };
            let n = v.devices.len();
            &&& v.advanced(1).state.pending_idx == Some(
                if from + 1 < n {
                    (from + 1) as usize
                } else {
                    0
                },
            )
            &&& v.advanced(-1).state.pending_idx == Some(
                if from > 0 {
                    (from - 1) as usize
                } else {
                    (n - 1) as usize
                },
            )
        },
{
    if v.devices.len() > 0 {
        let n = v.devices.len() as int;
        let from = v.intent();
        if from + 1 < n {
            lemma_wrapped(from, 1, n, 0, from + 1);
        } else {
            lemma_wrapped(from, 1, n, 1, 0);
        }
        if from > 0 {
            lemma_wrapped(from, -1, n, 0, from - 1);
        } else {
            lemma_wrapped(from, -1, n, -1, n - 1);
        }
    }
}

/// A look for a request makes the device asked for the one captured, forgets the
/// request, and changes nothing else; without a request it changes nothing.
pub proof fn lemma_requests_are_served_once(v: ControlView)
    ensures
        v.switched().devices == v.devices,
        v.switched().state.pending_idx is None,
        v.switched().state.selected_idx == (if v.state.pending_idx is Some {
            v.state.pending_idx->0
        } else {
            v.state.selected_idx
        }),
        v.switched().switched() == v.switched(),
{
}

/// A request that is served is the device captured, and none is left pending.
pub proof fn lemma_served_request(v: ControlView, delta: int)
    requires
        v.wf(),
        v.devices.len() > 0,
    ensures
        v.advanced(delta).switched().wf(),
        v.advanced(delta).switched().state.selected_idx == (v.intent() + delta)
            % (v.devices.len() as int),
        v.advanced(delta).switched().state.pending_idx is None,
{
}

// ---------------------------------------------------------------------------
// Opening a stream
// ---------------------------------------------------------------------------

/// Why capture cannot go on.
#[derive(Debug, Clone, Copy, PartialEq, Eq)]
pub enum CaptureError {
    /// There is no capture device.
    NoDevices,
    /// The stream carries samples of a kind that is not read.
    UnsupportedFormat,
}

impl CaptureError {
    /// The error in words.
    pub fn message(&self) -> (res: String)
        ensures
            res@ == match *self {
                CaptureError::NoDevices => "no audio input devices found via cpal"@,
                CaptureError::UnsupportedFormat => "unsupported sample format"@,
            },
    {
        match *self {
            CaptureError::NoDevices => "no audio input devices found via cpal".to_owned(),
            CaptureError::UnsupportedFormat => "unsupported sample format".to_owned(),
        }
    }
}

/// A running capture: the samples that come in, and the choice of the device.
pub struct AudioCapture {
    pub queue: SampleQueue,
    pub control: AudioControl,
}

/// Sets up capture over the listed devices, with room for `ringbuf_capacity`
/// samples between the capture and the picture.
pub fn start(
    devices: Vec<AudioDevice>,
    ringbuf_capacity: usize,
    device_pref: Option<&str>,
) -> (res: Result<AudioCapture, CaptureError>)
    requires
        0 < ringbuf_capacity,
        ringbuf_capacity * 4 <= isize::MAX,
    ensures
        match res {
            Ok(capture) => {
                &&& devices@.len() > 0
                &&& capture.queue@ == Seq::<u32>::empty()
                &&& capture.queue.capacity() == ringbuf_capacity
                &&& capture.control@.wf()
                &&& capture.control@.devices == device_texts(devices@)
                &&& capture.control@.state.selected_idx == picked(
                    device_texts(devices@),
                    pref_text(device_pref),
                )
                &&& capture.control@.state.pending_idx is None
            },
            Err(e) => devices@.len() == 0 && e == CaptureError::NoDevices,
        },
{
    if devices.len() == 0 {
        return Err(CaptureError::NoDevices);
    }
    let initial_idx: usize = pick_initial(devices.as_slice(), device_pref);
    Ok(
        AudioCapture {
            queue: SampleQueue::new(ringbuf_capacity),
            control: AudioControl::new(devices, initial_idx),
        },
    )
}

/// The first of the listed names that is readable and equal to `name`, from
/// position `i` on.
pub open spec fn first_named(names: Seq<Option<String>>, name: Seq<char>, i: int) -> Option<int>
    decreases names.len() - i,
{
    if i >= names.len() {
        None
    } else if names[i] is Some && names[i]->0@ == name {
        Some(i)
    } else {
        first_named(names, name, i + 1)
    }
}

/// Finds a device again by its name. A device whose name cannot be read is
/// passed over.
pub fn find_device_by_name(names: &Vec<Option<String>>, name: &str) -> (res: Option<usize>)
    ensures
        match res {
            Some(i) => {
                &&& first_named(names@, name@, 0) == Some(i as int)
                &&& i < names@.len()
                &&& names@[i as int] is Some && names@[i as int]->0@ == name@
                &&& forall|j: int|
                    0 <= j < i ==> !((#[trigger] names@[j]) is Some && names@[j]->0@ == name@)
            },
            None => {
                &&& first_named(names@, name@, 0) is None
                &&& forall|j: int|
                    0 <= j < names@.len() ==> !((#[trigger] names@[j]) is Some && names@[j]->0@
                        == name@)
            },
        },
{
    let mut i: usize = 0;
    while i < names.len()
        invariant
            i <= names@.len(),
            first_named(names@, name@, 0) == first_named(names@, name@, i as int),
            forall|j: int|
                0 <= j < i ==> !((#[trigger] names@[j]) is Some && names@[j]->0@ == name@),
        decreases names@.len() - i,
    {
        if let Some(n) = &names[i] {
            if text::same_text(n.as_str(), name) {
                return Some(i);
            }
        }
        i += 1;
    }
    None
}

/// A device is found again by the first readable name that is exactly its own,
/// and only where there is one.
pub proof fn lemma_the_first_of_a_name_is_found(names: Seq<Option<String>>, name: Seq<char>, i: int)
    requires
        0 <= i,
    ensures
        match first_named(names, name, i) {
            Some(k) => {
                &&& i <= k < names.len()
                &&& names[k] is Some && names[k]->0@ == name
                &&& forall|j: int|
                    i <= j < k ==> !((#[trigger] names[j]) is Some && names[j]->0@ == name)
            },
            None => forall|j: int|
                i <= j < names.len() ==> !((#[trigger] names[j]) is Some && names[j]->0@ == name),
        },
    decreases names.len() - i,
{
    if i < names.len() && !(names[i] is Some && names[i]->0@ == name) {
        lemma_the_first_of_a_name_is_found(names, name, i + 1);
    }
}

/// A kind of sample.
#[derive(Debug, Clone, Copy, PartialEq, Eq, Structural)]
pub enum SampleFormat {
    F32,
    I16,
    U16,
    /// Any kind that is not read.
    Other,
}

/// A range of configurations in which a device can be opened.
#[derive(Debug, Clone, Copy, PartialEq, Eq)]
pub struct ConfigRange {
    pub channels: u16,
    pub min_sample_rate: u32,
    pub max_sample_rate: u32,
    pub sample_format: SampleFormat,
}

impl ConfigRange {
    /// The range holds the rate.
    pub open spec fn offers(self, rate: u32) -> bool {
        self.min_sample_rate <= rate <= self.max_sample_rate
    }

    /// `self` is to be preferred to `other`: `f32` samples before others, then
    /// the fewer channels.
    pub open spec fn beats(self, other: ConfigRange) -> bool {
        let s = self.sample_format == SampleFormat::F32;
        let o = other.sample_format == SampleFormat::F32;
        if s != o {
            s
        } else {
            self.channels < other.channels
        }
    }
}

/// `best` is the position of the preferred range among the first `n` that
/// offer the rate, the earliest where several are equally good; `None` where
/// none offers it.
pub open spec fn is_best_of(
    ranges: Seq<ConfigRange>,
    n: int,
    rate: u32,
    best: Option<int>,
) -> bool {
    match best {
        Some(b) => {
            &&& 0 <= b < n
            &&& ranges[b].offers(rate)
            &&& forall|j: int|
                0 <= j < n && (#[trigger] ranges[j]).offers(rate) ==> !ranges[j].beats(ranges[b])
            &&& forall|j: int|
                0 <= j < b && (#[trigger] ranges[j]).offers(rate) ==> ranges[b].beats(ranges[j])
        },
        None => forall|j: int| 0 <= j < n ==> !(#[trigger] ranges[j]).offers(rate),
    }
}

/// Picks the configuration range in which to open a device: one that offers
/// the target rate, with `f32` samples if possible and then with the fewest
/// channels. With none, the caller takes the device's default configuration.
pub fn choose_config(ranges: &Vec<ConfigRange>, target_rate: u32) -> (res: Option<usize>)
    ensures
        is_best_of(
            ranges@,
            ranges@.len() as int,
            target_rate,
            match res {
                Some(i) => Some(i as int),
                None => None,
            },
        ),
        match res {
            Some(b) => {
                &&& b < ranges@.len()
                &&& ranges@[b as int].min_sample_rate <= target_rate
                    <= ranges@[b as int].max_sample_rate
                &&& forall|j: int|
                    0 <= j < ranges@.len() && (#[trigger] ranges@[j]).min_sample_rate <= target_rate
                        <= ranges@[j].max_sample_rate ==> no_better(ranges@, j, b as int)
            },
            None => forall|j: int|
                0 <= j < ranges@.len() ==> !((#[trigger] ranges@[j]).min_sample_rate <= target_rate
                    <= ranges@[j].max_sample_rate),
        },
{
    let mut best: Option<usize> = None;
    let mut i: usize = 0;
    while i < ranges.len()
        invariant
            i <= ranges@.len(),
            is_best_of(
                ranges@,
                i as int,
                target_rate,
                match best {
                    Some(b) => Some(b as int),
                    None => None,
                },
            ),
        decreases ranges@.len() - i,
    {
        let r = ranges[i];
        if r.min_sample_rate <= target_rate && target_rate <= r.max_sample_rate {
            let better = match best {
                None => true,
                Some(k) => {
                    let b = ranges[k];
                    let r_f32 = r.sample_format == SampleFormat::F32;
                    let b_f32 = b.sample_format == SampleFormat::F32;
                    if r_f32 != b_f32 {
                        r_f32
                    } else {
                        r.channels < b.channels
                    }
                },
            };
            if better {
                best = Some(i);
            }
        }
        i += 1;
    }
    proof {
        lemma_the_best_range(
            ranges@,
            target_rate,
            match best {
                Some(b) => Some(b as int),
                None => None,
            },
        );
    }
    best
}

/// Range `j` has no advantage over range `b`: `f32` samples only where `b` has
/// them too, and of two that both have them or both lack them `b` has the fewer
/// channels, or as many and stands first.
pub open spec fn no_better(ranges: Seq<ConfigRange>, j: int, b: int) -> bool {
    &&& ranges[j].sample_format == SampleFormat::F32 ==> ranges[b].sample_format
        == SampleFormat::F32
    &&& (ranges[j].sample_format == SampleFormat::F32) == (ranges[b].sample_format
        == SampleFormat::F32) ==> {
        &&& ranges[b].channels <= ranges[j].channels
        &&& ranges[b].channels == ranges[j].channels ==> b <= j
    }
}

/// The preferred range holds the rate, has `f32` samples if any range with the
/// rate has, and has the fewest channels of those that are alike in that, the
/// earliest where several have as few. There is none only where no range holds
/// the rate.
pub proof fn lemma_the_best_range(ranges: Seq<ConfigRange>, rate: u32, best: Option<int>)
    requires
        is_best_of(ranges, ranges.len() as int, rate, best),
    ensures
        match best {
            Some(b) => {
                &&& 0 <= b < ranges.len()
                &&& ranges[b].min_sample_rate <= rate <= ranges[b].max_sample_rate
                &&& forall|j: int|
                    0 <= j < ranges.len() && (#[trigger] ranges[j]).min_sample_rate <= rate
                        <= ranges[j].max_sample_rate ==> no_better(ranges, j, b)
            },
            None => forall|j: int|
                0 <= j < ranges.len() ==> !((#[trigger] ranges[j]).min_sample_rate <= rate
                    <= ranges[j].max_sample_rate),
        },
{
    if let Some(b) = best {
        assert forall|j: int|
            0 <= j < ranges.len() && (#[trigger] ranges[j]).min_sample_rate <= rate
                <= ranges[j].max_sample_rate implies no_better(ranges, j, b) by {
            assert(ranges[j].offers(rate));
        }
    } else {
        assert forall|j: int| 0 <= j < ranges.len() implies !((#[trigger] ranges[j]).min_sample_rate
            <= rate <= ranges[j].max_sample_rate) by {
            assert(!ranges[j].offers(rate));
        }
    }
}

/// There is one preferred range at most.
pub proof fn lemma_best_is_unique(
    ranges: Seq<ConfigRange>,
    rate: u32,
    a: Option<int>,
    b: Option<int>,
)
    requires
        is_best_of(ranges, ranges.len() as int, rate, a),
        is_best_of(ranges, ranges.len() as int, rate, b),
    ensures
        a == b,
{
    if let Some(i) = a {
        assert(ranges[i].offers(rate));
        if let Some(j) = b {
            assert(ranges[j].offers(rate));
        }
    }
    if let Some(j) = b {
        assert(ranges[j].offers(rate));
    }
}

/// How the samples of an open stream are read.
#[derive(Debug, Clone, Copy, PartialEq, Eq)]
pub struct StreamPlan {
    pub sample_format: SampleFormat,
    /// The number of samples in a frame, at least one.
    pub channels: usize,
    /// Whether frames are brought from the capture rate to the target rate.
    pub resample: bool,
}

/// Plans the reading of a stream; only `f32`, `i16` and `u16` samples are read.
pub fn plan_stream(
    sample_format: SampleFormat,
    channels: u16,
    capture_rate: u32,
    target_rate: u32,
) -> (res: Result<StreamPlan, CaptureError>)
    ensures
        match res {
            Ok(plan) => {
                &&& sample_format != SampleFormat::Other
                &&& plan.sample_format == sample_format
                &&& plan.channels == (if channels == 0 {
                    1
                } else {
                    channels as int
                })
                &&& plan.resample == (capture_rate != target_rate)
            },
            Err(e) => sample_format == SampleFormat::Other && e == CaptureError::UnsupportedFormat,
        },
{
    if sample_format == SampleFormat::Other {
        return Err(CaptureError::UnsupportedFormat);
    }
    let n: usize = if channels == 0 {
        1
    } else {
        channels as usize
    };
    Ok(StreamPlan { sample_format, channels: n, resample: capture_rate != target_rate })
}

/// The two input positions between which an output sample is interpolated:
/// the one at `idx` and the one behind it, neither past the last.
pub fn interpolation_taps(idx: usize, last: usize) -> (res: (usize, usize))
    ensures
        res.0 == (if idx < last {
            idx
        } else {
            last
        }),
        res.1 == (if idx < last {
            idx + 1
        } else {
            last as int
        }),
{
    if idx < last {
        (idx, idx + 1)
    } else {
        (last, last)
    }
}

// ---------------------------------------------------------------------------
// Watching a stream
// ---------------------------------------------------------------------------

/// Why a stream stopped: the user switched devices, or it ended on its own.
#[derive(Debug, Clone, Copy, PartialEq, Eq)]
pub enum StreamExit {
    Switch,
    Ended,
}

/// One look at a running stream: a dead stream ends; else a request for a
/// device is served and the stream gives way; else it runs on.
pub fn poll_stream(control: &mut AudioControl, dead: bool) -> (res: Option<StreamExit>)
    requires
        old(control)@.wf(),
    ensures
        final(control)@.wf(),
        dead ==> res == Some(StreamExit::Ended) && final(control)@ == old(control)@,
        !dead ==> final(control)@ == old(control)@.switched(),
        !dead ==> res == (if old(control)@.state.pending_idx is Some {
            Some(StreamExit::Switch)
        } else {
            None
        }),
{
    if dead {
        return Some(StreamExit::Ended);
    }
    if control.take_pending() {
        Some(StreamExit::Switch)
    } else {
        None
    }
}

/// How many milliseconds to wait before a stream is opened again: none after a
/// switch, half a second after a stream that ended or could not be opened.
pub fn reopen_delay_ms(exit: Option<StreamExit>) -> (res: u64)
    ensures
        res == (if exit == Some(StreamExit::Switch) {
            0u64
        } else {
            500
        }),
{
    match exit {
        Some(StreamExit::Switch) => 0,
        Some(StreamExit::Ended) => 500,
        None => 500,
    }
}

} // verus!
