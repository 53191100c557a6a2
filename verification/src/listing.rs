//! The list of capture devices: in order of their names without regard to
//! case, neighbours of one name merged.

use vstd::prelude::*;

use crate::audio;
use crate::audio::AudioDevice;
use crate::text;

verus! {

/// A name with the key by which it is ordered.
pub struct Entry {
    pub key: Seq<char>,
    pub name: Seq<char>,
}

/// The first position from `i` on whose key comes after `key`.
pub open spec fn slot_from(sorted: Seq<Entry>, key: Seq<char>, i: int) -> int
    decreases sorted.len() - i,
{
    if i >= sorted.len() {
        sorted.len() as int
    } else if text::precedes(key, sorted[i].key) {
        i
    } else {
        slot_from(sorted, key, i + 1)
    }
}

/// An entry put behind all entries that do not come after it.
pub open spec fn placed(sorted: Seq<Entry>, e: Entry) -> Seq<Entry> {
    sorted.insert(slot_from(sorted, e.key, 0), e)
}

/// The entries in order of their keys; those of equal keys in the order in
/// which they came.
pub open spec fn arranged(entries: Seq<Entry>) -> Seq<Entry>
    decreases entries.len(),
{
    if entries.len() == 0 {
        Seq::empty()
    } else {
        placed(arranged(entries.drop_last()), entries.last())
    }
}

/// Names with each run of one name shortened to its first.
pub open spec fn merged(names: Seq<Seq<char>>) -> Seq<Seq<char>>
    decreases names.len(),
{
    if names.len() == 0 {
        Seq::empty()
    } else {
        let front = merged(names.drop_last());
        if front.len() > 0 && front.last() == names.last() {
            front
        } else {
            front.push(names.last())
        }
    }
}

/// The names of entries.
pub open spec fn names_of(entries: Seq<Entry>) -> Seq<Seq<char>> {
    Seq::new(entries.len(), |i: int| entries[i].name)
}

/// Names with their keys.
pub open spec fn entries_of(names: Seq<String>, keys: Seq<String>) -> Seq<Entry> {
    Seq::new(names.len(), |i: int| Entry { key: keys[i]@, name: names[i]@ })
}

/// Names, each with its lowercase form as the key.
pub open spec fn keyed(names: Seq<String>) -> Seq<Entry> {
    Seq::new(names.len(), |i: int| Entry { key: text::lowercase(names[i]@), name: names[i]@ })
}

/// Devices that show their names.
pub open spec fn named_devices(names: Seq<Seq<char>>) -> Seq<audio::DeviceText> {
    Seq::new(
        names.len(),
        |i: int| audio::DeviceText { name: names[i], description: names[i] },
    )
}

/// The names that a list of devices shows.
pub open spec fn listing(names: Seq<String>) -> Seq<Seq<char>> {
    merged(names_of(arranged(keyed(names))))
}

/// Orders names by the given keys and merges neighbours of one name.
pub fn arrange(names: &Vec<String>, keys: &Vec<String>) -> (res: Vec<AudioDevice>)
    requires
        names@.len() == keys@.len(),
    ensures
        audio::device_texts(res@) == named_devices(
            merged(names_of(arranged(entries_of(names@, keys@)))),
        ),
        forall|i: int|
            0 <= i < res@.len() ==> (#[trigger] res@[i]).description@ == res@[i].name@,
{
    let sorted = sort_names(names, keys);
    let ghost all = names_of(arranged(entries_of(names@, keys@)));
    let mut res: Vec<AudioDevice> = Vec::new();
    let mut i: usize = 0;
    while i < sorted.len()
        invariant
            i <= sorted@.len(),
            sorted@.len() == all.len(),
            forall|j: int| 0 <= j < sorted@.len() ==> (#[trigger] sorted@[j])@ == all[j],
            audio::device_texts(res@) == named_devices(merged(all.take(i as int))),
            forall|j: int|
                0 <= j < res@.len() ==> (#[trigger] res@[j]).description@ == res@[j].name@,
        decreases sorted@.len() - i,
    {
        let ghost front = merged(all.take(i as int));
        assert(all.take(i + 1).drop_last() =~= all.take(i as int));
        assert(audio::device_texts(res@).len() == front.len());
        assert(forall|j: int|
            0 <= j < front.len() ==> (#[trigger] audio::device_texts(res@)[j]).name == front[j]);
        let repeated = res.len() > 0 && res[res.len() - 1].name == sorted[i];
        assert(res@.len() > 0 ==> audio::device_texts(res@).last().name
            == res@[res@.len() - 1].name@);
        assert(repeated == (front.len() > 0 && front.last() == all[i as int]));
        if !repeated {
            let d = AudioDevice { name: sorted[i].clone(), description: sorted[i].clone() };
            let ghost texts = audio::device_texts(res@);
            res.push(d);
            assert(audio::device_texts(res@) =~= texts.push(d@));
            assert(named_devices(front.push(all[i as int])) =~= named_devices(front).push(d@));
        }
        i += 1;
    }
    assert(all.take(i as int) =~= all);
    res
}

fn find_slot(sorted: &Vec<Vec<char>>, key: &Vec<char>, Ghost(entries): Ghost<Seq<Entry>>) -> (res:
    usize)
    requires
        sorted@.len() == entries.len(),
        forall|j: int| 0 <= j < sorted@.len() ==> (#[trigger] sorted@[j])@ == entries[j].key,
    ensures
        res == slot_from(entries, key@, 0),
        res <= sorted@.len(),
{
    let mut i: usize = 0;
    while i < sorted.len()
        invariant
            i <= sorted@.len(),
            sorted@.len() == entries.len(),
            forall|j: int| 0 <= j < sorted@.len() ==> (#[trigger] sorted@[j])@ == entries[j].key,
            slot_from(entries, key@, 0) == slot_from(entries, key@, i as int),
        decreases sorted@.len() - i,
    {
        if text::before(key, &sorted[i]) {
            return i;
        }
        i += 1;
    }
    i
}

fn sort_names(names: &Vec<String>, keys: &Vec<String>) -> (res: Vec<String>)
    requires
        names@.len() == keys@.len(),
    ensures
        res@.len() == names_of(arranged(entries_of(names@, keys@))).len(),
        forall|j: int|
            0 <= j < res@.len() ==> (#[trigger] res@[j])@ == names_of(
                arranged(entries_of(names@, keys@)),
            )[j],
{
    let ghost all = entries_of(names@, keys@);
    let mut sorted_keys: Vec<Vec<char>> = Vec::new();
    let mut sorted: Vec<String> = Vec::new();
    let mut i: usize = 0;
    while i < names.len()
        invariant
            all == entries_of(names@, keys@),
            names@.len() == keys@.len(),
            i <= names@.len(),
            sorted_keys@.len() == arranged(all.take(i as int)).len(),
            sorted@.len() == arranged(all.take(i as int)).len(),
            forall|j: int|
                0 <= j < sorted_keys@.len() ==> (#[trigger] sorted_keys@[j])@ == arranged(
                    all.take(i as int),
                )[j].key,
            forall|j: int|
                0 <= j < sorted@.len() ==> (#[trigger] sorted@[j])@ == arranged(
                    all.take(i as int),
                )[j].name,
        decreases names@.len() - i,
    {
        let ghost front = arranged(all.take(i as int));
        let key = text::chars_of(keys[i].as_str());
        let at: usize = find_slot(&sorted_keys, &key, Ghost(front));
        assert(all.take(i + 1).drop_last() =~= all.take(i as int));
        assert(all.take(i + 1).last() == all[i as int]);
        sorted_keys.insert(at, key);
        sorted.insert(at, names[i].clone());
        i += 1;
    }
    assert(all.take(i as int) =~= all);
    sorted
}

/// The devices of the given names: in order of the lowercase names, names of
/// equal lowercase form in the order in which they came, and each run of one
/// name merged into one device.
pub fn list_devices(names: &Vec<String>) -> (res: Vec<AudioDevice>)
    ensures
        audio::device_texts(res@) == named_devices(listing(names@)),
        res@.len() == listing(names@).len(),
        forall|i: int|
            0 <= i < res@.len() ==> (#[trigger] res@[i]).name@ == listing(names@)[i]
                && res@[i].description@ == res@[i].name@,
{
    let mut keys: Vec<String> = Vec::new();
    let mut i: usize = 0;
    while i < names.len()
        invariant
            i <= names@.len(),
            keys@.len() == i,
            forall|j: int|
                0 <= j < i ==> (#[trigger] keys@[j])@ == text::lowercase(names@[j]@),
        decreases names@.len() - i,
    {
        keys.push(names[i].as_str().to_lowercase());
        i += 1;
    }
    assert(entries_of(names@, keys@) =~= keyed(names@));
    let res = arrange(names, &keys);
    proof {
        audio::lemma_device_texts(res@);
        lemma_devices_show_their_names(listing(names@));
        assert forall|i: int| 0 <= i < res@.len() implies (#[trigger] res@[i]).name@ == listing(
            names@,
        )[i] by {
            assert(audio::device_texts(res@)[i].name == res@[i].name@);
        }
    }
    res
}

// ---------------------------------------------------------------------------
// What holds of every list
// ---------------------------------------------------------------------------

/// Every listed device shows its own name: the one by which it is opened again
/// is also the one shown to the user.
pub proof fn lemma_devices_show_their_names(names: Seq<Seq<char>>)
    ensures
        named_devices(names).len() == names.len(),
        forall|i: int|
            0 <= i < names.len() ==> (#[trigger] named_devices(names)[i]).name == names[i]
                && named_devices(names)[i].description == named_devices(names)[i].name,
{
}

/// Each name is ordered by its own key.
pub proof fn lemma_names_have_their_own_keys(names: Seq<String>, keys: Seq<String>, i: int)
    requires
        0 <= i < names.len(),
    ensures
        entries_of(names, keys).len() == names.len(),
        entries_of(names, keys)[i].name == names[i]@,
        entries_of(names, keys)[i].key == keys[i]@,
        keyed(names).len() == names.len(),
        keyed(names)[i].name == names[i]@,
        keyed(names)[i].key == text::lowercase(names[i]@),
        names_of(keyed(names)).len() == names.len(),
        names_of(keyed(names))[i] == names[i]@,
{
}

/// No entry comes after a later one.
pub open spec fn in_order(entries: Seq<Entry>) -> bool {
    forall|i: int, j: int|
        0 <= i < j < entries.len() ==> !text::precedes(
            (#[trigger] entries[j]).key,
            (#[trigger] entries[i]).key,
        )
}

/// The entries with a given key, in order.
pub open spec fn with_key(entries: Seq<Entry>, key: Seq<char>) -> Seq<Entry>
    decreases entries.len(),
{
    if entries.len() == 0 {
        Seq::empty()
    } else if entries.last().key == key {
        with_key(entries.drop_last(), key).push(entries.last())
    } else {
        with_key(entries.drop_last(), key)
    }
}

proof fn lemma_slot(sorted: Seq<Entry>, key: Seq<char>, i: int)
    requires
        0 <= i <= sorted.len(),
    ensures
        ({
            let k = slot_from(sorted, key, i);
            &&& i <= k <= sorted.len()
            &&& k < sorted.len() ==> text::precedes(key, sorted[k].key)
            &&& forall|j: int| i <= j < k ==> !text::precedes(key, (#[trigger] sorted[j]).key)
        }),
    decreases sorted.len() - i,
{
    if i < sorted.len() && !text::precedes(key, sorted[i].key) {
        lemma_slot(sorted, key, i + 1);
    }
}

proof fn lemma_placed_in_order(sorted: Seq<Entry>, e: Entry)
    requires
        in_order(sorted),
    ensures
        in_order(placed(sorted, e)),
        forall|j: int|
            slot_from(sorted, e.key, 0) <= j < sorted.len() ==> text::precedes(
                e.key,
                (#[trigger] sorted[j]).key,
            ),
{
    let k = slot_from(sorted, e.key, 0);
    let out = placed(sorted, e);
    lemma_slot(sorted, e.key, 0);
    assert forall|j: int| k <= j < sorted.len() implies text::precedes(
        e.key,
        (#[trigger] sorted[j]).key,
    ) by {
        text::lemma_precedes_is_an_order(e.key, sorted[j].key, sorted[k].key);
    }
    assert forall|i: int, j: int| 0 <= i < j < out.len() implies !text::precedes(
        (#[trigger] out[j]).key,
        (#[trigger] out[i]).key,
    ) by {
        if j == k {
            assert(out[i] == sorted[i]);
        } else if i == k {
            assert(out[j] == sorted[j - 1]);
            text::lemma_precedes_is_an_order(e.key, sorted[j - 1].key, e.key);
        } else {
            let a = if i < k {
                i
            } else {
                i - 1
            };
            let b = if j < k {
                j
            } else {
                j - 1
            };
            assert(out[i] == sorted[a] && out[j] == sorted[b]);
        }
    }
}

/// A list is in order of its keys.
pub proof fn lemma_arranged_in_order(entries: Seq<Entry>)
    ensures
        in_order(arranged(entries)),
    decreases entries.len(),
{
    if entries.len() > 0 {
        lemma_arranged_in_order(entries.drop_last());
        lemma_placed_in_order(arranged(entries.drop_last()), entries.last());
    }
}

proof fn lemma_with_key_add(a: Seq<Entry>, b: Seq<Entry>, key: Seq<char>)
    ensures
        with_key(a + b, key) == with_key(a, key) + with_key(b, key),
    decreases b.len(),
{
    if b.len() == 0 {
        assert(a + b =~= a);
        assert(with_key(a, key) + with_key(b, key) =~= with_key(a, key));
    } else {
        assert((a + b).drop_last() =~= a + b.drop_last());
        lemma_with_key_add(a, b.drop_last(), key);
        assert(with_key(a + b, key) =~= with_key(a, key) + with_key(b, key));
    }
}

proof fn lemma_with_key_none(a: Seq<Entry>, key: Seq<char>)
    requires
        forall|i: int| 0 <= i < a.len() ==> (#[trigger] a[i]).key != key,
    ensures
        with_key(a, key) == Seq::<Entry>::empty(),
    decreases a.len(),
{
    if a.len() > 0 {
        assert(a.last() == a[a.len() - 1]);
        assert forall|i: int| 0 <= i < a.drop_last().len() implies (#[trigger] a.drop_last()[i]).key
            != key by {
            assert(a.drop_last()[i] == a[i]);
        }
        lemma_with_key_none(a.drop_last(), key);
    }
}

/// Ordering neither loses nor adds an entry, and it keeps the entries of one
/// key in the order in which they came.
pub proof fn lemma_arranged_keeps_entries(entries: Seq<Entry>, key: Seq<char>)
    ensures
        with_key(arranged(entries), key) == with_key(entries, key),
    decreases entries.len(),
{
    if entries.len() > 0 {
        let front = arranged(entries.drop_last());
        let e = entries.last();
        let k = slot_from(front, e.key, 0);
        lemma_arranged_keeps_entries(entries.drop_last(), key);
        lemma_arranged_in_order(entries.drop_last());
        lemma_placed_in_order(front, e);
        lemma_slot(front, e.key, 0);
        let left = front.take(k);
        let right = front.skip(k);
        assert(front =~= left + right);
        assert(placed(front, e) =~= left + seq![e] + right);
        lemma_with_key_add(left, right, key);
        lemma_with_key_add(left + seq![e], right, key);
        lemma_with_key_add(left, seq![e], key);
        let one = seq![e];
        assert(one.drop_last() =~= Seq::<Entry>::empty());
        assert(with_key(one.drop_last(), key) =~= Seq::<Entry>::empty());
        assert(one.last() == e);
        if e.key == key {
            assert(with_key(one, key) =~= one);
            assert forall|i: int| 0 <= i < right.len() implies (#[trigger] right[i]).key != key by {
                assert(right[i] == front[k + i]);
                text::lemma_precedes_is_an_order(key, key, key);
            }
            lemma_with_key_none(right, key);
            assert(with_key(left, key) + Seq::<Entry>::empty() =~= with_key(left, key));
            assert(with_key(arranged(entries), key) =~= with_key(entries, key));
        } else {
            assert(with_key(one, key) =~= Seq::<Entry>::empty());
            assert(with_key(arranged(entries), key) =~= with_key(entries, key));
        }
    }
}

proof fn lemma_with_key_contains(entries: Seq<Entry>, e: Entry)
    ensures
        with_key(entries, e.key).contains(e) == entries.contains(e),
    decreases entries.len(),
{
    if entries.len() > 0 {
        let front = entries.drop_last();
        lemma_with_key_contains(front, e);
        assert(entries =~= front.push(entries.last()));
        if entries.contains(e) {
            let i = choose|i: int| 0 <= i < entries.len() && entries[i] == e;
            if i < front.len() {
                assert(front[i] == e);
                let w = with_key(front, e.key);
                let j = choose|j: int| 0 <= j < w.len() && w[j] == e;
                assert(with_key(entries, e.key)[j] == e);
            } else {
                let w = with_key(entries, e.key);
                assert(w[w.len() - 1] == e);
            }
        }
        if with_key(entries, e.key).contains(e) {
            let w = with_key(entries, e.key);
            let j = choose|j: int| 0 <= j < w.len() && w[j] == e;
            let v = with_key(front, e.key);
            if j < v.len() {
                assert(v[j] == e);
                let i = choose|i: int| 0 <= i < front.len() && front[i] == e;
                assert(entries[i] == e);
            } else {
                assert(entries[entries.len() - 1] == e);
            }
        }
    }
}

/// An ordered list has exactly the entries that it was made of.
pub proof fn lemma_arranged_has_the_same_entries(entries: Seq<Entry>, e: Entry)
    ensures
        arranged(entries).contains(e) == entries.contains(e),
{
    lemma_arranged_keeps_entries(entries, e.key);
    lemma_with_key_contains(entries, e);
    lemma_with_key_contains(arranged(entries), e);
}

/// `sorted` has the entries of `entries` at the positions `from`, each once,
/// with smaller keys first and equal keys in the order in which they came.
pub open spec fn sorts(entries: Seq<Entry>, sorted: Seq<Entry>, from: Seq<int>) -> bool {
    &&& sorted.len() == entries.len()
    &&& from.len() == entries.len()
    &&& from.no_duplicates()
    &&& forall|i: int|
        0 <= i < from.len() ==> 0 <= #[trigger] from[i] < entries.len() && sorted[i]
            == entries[from[i]]
    &&& forall|i: int, j: int|
        0 <= i < j < from.len() ==> {
            ||| text::precedes(entries[#[trigger] from[i]].key, entries[#[trigger] from[j]].key)
            ||| entries[from[i]].key == entries[from[j]].key && from[i] < from[j]
        }
}

proof fn lemma_arranged_from(entries: Seq<Entry>) -> (from: Seq<int>)
    ensures
        sorts(entries, arranged(entries), from),
    decreases entries.len(),
{
    if entries.len() == 0 {
        Seq::empty()
    } else {
        let rest = entries.drop_last();
        let e = entries.last();
        let n = entries.len() - 1;
        let old_from = lemma_arranged_from(rest);
        let front = arranged(rest);
        let k = slot_from(front, e.key, 0);
        lemma_arranged_in_order(rest);
        lemma_placed_in_order(front, e);
        lemma_slot(front, e.key, 0);
        let from = old_from.insert(k, n);
        let out = arranged(entries);
        assert forall|i: int| 0 <= i < from.len() implies 0 <= #[trigger] from[i] < entries.len()
            && out[i] == entries[from[i]] by {
            if i < k {
                assert(from[i] == old_from[i] && out[i] == front[i]);
            } else if i > k {
                assert(from[i] == old_from[i - 1] && out[i] == front[i - 1]);
            }
        }
        assert forall|i: int, j: int| 0 <= i < j < from.len() implies ({
            ||| text::precedes(entries[#[trigger] from[i]].key, entries[#[trigger] from[j]].key)
            ||| entries[from[i]].key == entries[from[j]].key && from[i] < from[j]
        }) by {
            let a = if i < k {
                i
            } else {
                i - 1
            };
            let b = if j < k {
                j
            } else {
                j - 1
            };
            if i == k {
                assert(from[j] == old_from[b] && rest[old_from[b]] == front[b]);
                assert(entries[from[j]] == front[b]);
            } else if j == k {
                assert(from[i] == old_from[a] && rest[old_from[a]] == front[a]);
                assert(entries[from[i]] == front[a]);
                if front[a].key != e.key {
                    text::lemma_precedes_is_total(front[a].key, e.key);
                }
            } else {
                assert(from[i] == old_from[a] && from[j] == old_from[b]);
                assert(rest[old_from[a]] == entries[from[i]]);
                assert(rest[old_from[b]] == entries[from[j]]);
            }
        }
        assert forall|i: int, j: int| 0 <= i < from.len() && 0 <= j < from.len() && i != j implies from[i]
            != from[j] by {
            let a = if i < k {
                i
            } else {
                i - 1
            };
            let b = if j < k {
                j
            } else {
                j - 1
            };
            if i != k {
                assert(from[i] == old_from[a]);
            }
            if j != k {
                assert(from[j] == old_from[b]);
            }
        }
        from
    }
}

/// A list is sorted and stable: it has every entry once, smaller keys first, and
/// those of equal keys in the order in which they came.
pub proof fn lemma_arranged_is_a_stable_sort(entries: Seq<Entry>)
    ensures
        exists|from: Seq<int>| sorts(entries, arranged(entries), from),
{
    let from = lemma_arranged_from(entries);
    assert(sorts(entries, arranged(entries), from));
}

/// `short` has the names of `names` at the positions `from`, in order: all but
/// those that repeat the name right before them.
pub open spec fn drops_repeats(
    names: Seq<Seq<char>>,
    short: Seq<Seq<char>>,
    from: Seq<int>,
) -> bool {
    &&& from.len() == short.len()
    &&& forall|i: int|
        0 <= i < from.len() ==> 0 <= #[trigger] from[i] < names.len() && short[i] == names[from[i]]
    &&& forall|i: int, j: int|
        0 <= i < j < from.len() ==> #[trigger] from[i] < #[trigger] from[j]
    &&& forall|j: int|
        0 <= j < names.len() ==> (#[trigger] from.contains(j) <==> j == 0 || names[j] != names[j
            - 1])
}

proof fn lemma_merged_from(names: Seq<Seq<char>>) -> (from: Seq<int>)
    ensures
        drops_repeats(names, merged(names), from),
    decreases names.len(),
{
    if names.len() == 0 {
        Seq::empty()
    } else {
        let front = names.drop_last();
        let n = names.len() - 1;
        let rest = lemma_merged_from(front);
        let m = merged(front);
        let out = merged(names);
        if n > 0 {
            lemma_merged_last(front);
            assert(front.last() == names[n - 1]);
        }
        let repeated = n > 0 && names[n] == names[n - 1];
        assert(repeated == (m.len() > 0 && m.last() == names.last()));
        let from = if repeated {
            rest
        } else {
            rest.push(n)
        };
        assert forall|i: int| 0 <= i < from.len() implies 0 <= #[trigger] from[i] < names.len()
            && out[i] == names[from[i]] by {
            if i < rest.len() {
                assert(from[i] == rest[i] && out[i] == m[i]);
                assert(front[rest[i]] == names[rest[i]]);
            }
        }
        assert forall|i: int, j: int| 0 <= i < j < from.len() implies #[trigger] from[i]
            < #[trigger] from[j] by {
            assert(from[i] == rest[i]);
            if j < rest.len() {
                assert(from[j] == rest[j]);
            }
        }
        assert forall|j: int| 0 <= j < names.len() implies (#[trigger] from.contains(j) <==> j == 0
            || names[j] != names[j - 1]) by {
            if j < n {
                assert(front[j] == names[j]);
                if j > 0 {
                    assert(front[j - 1] == names[j - 1]);
                }
                assert(rest.contains(j) <==> j == 0 || front[j] != front[j - 1]);
                if rest.contains(j) {
                    let i = choose|i: int| 0 <= i < rest.len() && rest[i] == j;
                    assert(from[i] == j);
                }
                if from.contains(j) {
                    let i = choose|i: int| 0 <= i < from.len() && from[i] == j;
                    assert(i < rest.len());
                    assert(rest[i] == j);
                }
            } else {
                if repeated {
                    if from.contains(j) {
                        let i = choose|i: int| 0 <= i < from.len() && from[i] == j;
                        assert(rest[i] < front.len());
                    }
                } else {
                    assert(from[from.len() - 1] == j);
                }
            }
        }
        from
    }
}

/// Merging drops exactly the names that repeat the one right before them, and
/// keeps the others in order.
pub proof fn lemma_merged_drops_repeats_alone(names: Seq<Seq<char>>)
    ensures
        exists|from: Seq<int>| drops_repeats(names, merged(names), from),
{
    let from = lemma_merged_from(names);
    assert(drops_repeats(names, merged(names), from));
}

proof fn lemma_merged_last(names: Seq<Seq<char>>)
    requires
        names.len() > 0,
    ensures
        merged(names).len() > 0,
        merged(names).last() == names.last(),
{
}

/// Merging keeps every name and adds none.
pub proof fn lemma_merged_has_the_same_names(names: Seq<Seq<char>>, name: Seq<char>)
    ensures
        merged(names).contains(name) == names.contains(name),
    decreases names.len(),
{
    if names.len() > 0 {
        let front = names.drop_last();
        let m = merged(front);
        lemma_merged_has_the_same_names(front, name);
        assert(names =~= front.push(names.last()));
        lemma_merged_last(names);
        if names.contains(name) {
            let i = choose|i: int| 0 <= i < names.len() && names[i] == name;
            if i < front.len() {
                assert(front[i] == name);
                let j = choose|j: int| 0 <= j < m.len() && m[j] == name;
                assert(merged(names)[j] == name);
            } else {
                assert(merged(names)[merged(names).len() - 1] == name);
            }
        }
        if merged(names).contains(name) {
            let j = choose|j: int| 0 <= j < merged(names).len() && merged(names)[j] == name;
            if j < m.len() {
                assert(m[j] == name);
                let i = choose|i: int| 0 <= i < front.len() && front[i] == name;
                assert(names[i] == name);
            } else {
                assert(names[names.len() - 1] == name);
            }
        }
    }
}

/// No two neighbours of a merged list are equal.
pub proof fn lemma_merged_neighbours_differ(names: Seq<Seq<char>>)
    ensures
        forall|i: int|
            0 < i < merged(names).len() ==> #[trigger] merged(names)[i] != merged(names)[i - 1],
    decreases names.len(),
{
    if names.len() > 0 {
        lemma_merged_neighbours_differ(names.drop_last());
        let m = merged(names.drop_last());
        assert forall|i: int| 0 < i < merged(names).len() implies #[trigger] merged(names)[i]
            != merged(names)[i - 1] by {
            if i < m.len() {
                assert(m[i] != m[i - 1]);
            }
        }
    }
}

proof fn lemma_arranged_keyed(names: Seq<String>, j: int)
    requires
        0 <= j < arranged(keyed(names)).len(),
    ensures
        ({
            let e = arranged(keyed(names))[j];
            &&& e.key == text::lowercase(e.name)
            &&& exists|i: int| 0 <= i < names.len() && (#[trigger] names[i])@ == e.name
        }),
{
    let e = arranged(keyed(names))[j];
    assert(arranged(keyed(names)).contains(e));
    lemma_arranged_has_the_same_entries(keyed(names), e);
    let i = choose|i: int| 0 <= i < keyed(names).len() && keyed(names)[i] == e;
    assert(names[i]@ == e.name);
}

/// A list shows exactly the names that it was made of.
pub proof fn lemma_listing_has_the_same_names(names: Seq<String>, name: Seq<char>)
    ensures
        listing(names).contains(name) <==> exists|i: int|
            0 <= i < names.len() && (#[trigger] names[i])@ == name,
{
    let sorted = arranged(keyed(names));
    lemma_merged_has_the_same_names(names_of(sorted), name);
    if names_of(sorted).contains(name) {
        let j = choose|j: int| 0 <= j < names_of(sorted).len() && names_of(sorted)[j] == name;
        lemma_arranged_keyed(names, j);
    }
    if exists|i: int| 0 <= i < names.len() && (#[trigger] names[i])@ == name {
        let i = choose|i: int| 0 <= i < names.len() && (#[trigger] names[i])@ == name;
        let e = keyed(names)[i];
        assert(keyed(names).contains(e));
        lemma_arranged_has_the_same_entries(keyed(names), e);
        let j = choose|j: int| 0 <= j < sorted.len() && sorted[j] == e;
        assert(names_of(sorted)[j] == name);
    }
}

/// No name comes after a later one in lower case.
pub open spec fn names_in_order(names: Seq<Seq<char>>) -> bool {
    forall|i: int, j: int|
        0 <= i < j < names.len() ==> !text::precedes(
            text::lowercase(#[trigger] names[j]),
            text::lowercase(#[trigger] names[i]),
        )
}

proof fn lemma_merged_in_order(names: Seq<Seq<char>>)
    requires
        names_in_order(names),
    ensures
        names_in_order(merged(names)),
    decreases names.len(),
{
    if names.len() > 0 {
        let front = names.drop_last();
        let m = merged(front);
        let out = merged(names);
        assert(forall|i: int| 0 <= i < front.len() ==> front[i] == #[trigger] names[i]);
        assert(names_in_order(front));
        lemma_merged_in_order(front);
        lemma_merged_last(names);
        assert forall|i: int, j: int| 0 <= i < j < out.len() implies !text::precedes(
            text::lowercase(#[trigger] out[j]),
            text::lowercase(#[trigger] out[i]),
        ) by {
            assert(m[i] == out[i]);
            if j < m.len() {
                assert(m[j] == out[j]);
            } else {
                assert(m.contains(out[i]));
                lemma_merged_has_the_same_names(front, out[i]);
                let a = choose|a: int| 0 <= a < front.len() && front[a] == out[i];
                assert(names[a] == out[i]);
                assert(names[names.len() - 1] == out[j]);
            }
        }
    }
}

/// A list is in order of the lowercase names.
pub proof fn lemma_listing_in_order(names: Seq<String>)
    ensures
        names_in_order(listing(names)),
{
    let sorted = arranged(keyed(names));
    lemma_arranged_in_order(keyed(names));
    let all = names_of(sorted);
    assert forall|i: int, j: int| 0 <= i < j < all.len() implies !text::precedes(
        text::lowercase(#[trigger] all[j]),
        text::lowercase(#[trigger] all[i]),
    ) by {
        lemma_arranged_keyed(names, i);
        lemma_arranged_keyed(names, j);
        assert(!text::precedes(sorted[j].key, sorted[i].key));
    }
    lemma_merged_in_order(all);
}

/// `all` has the given names at the positions `from`, each once, in order of
/// their lowercase forms, and names of one lowercase form in the order in which
/// they came.
pub open spec fn sorts_names(names: Seq<String>, all: Seq<Seq<char>>, from: Seq<int>) -> bool {
    &&& all.len() == names.len()
    &&& from.len() == names.len()
    &&& from.no_duplicates()
    &&& forall|i: int|
        0 <= i < from.len() ==> 0 <= #[trigger] from[i] < names.len() && all[i] == names[from[i]]@
    &&& forall|i: int, j: int|
        #![trigger from[i], from[j]]
        0 <= i < j < from.len() ==> {
            ||| text::precedes(
                text::lowercase(names[from[i]]@),
                text::lowercase(names[from[j]]@),
            )
            ||| text::lowercase(names[from[i]]@) == text::lowercase(names[from[j]]@) && from[i]
                < from[j]
        }
}

/// `kept` tells which of the given names are listed, in which order.
pub open spec fn lists(
    names: Seq<String>,
    shown: Seq<Seq<char>>,
    all: Seq<Seq<char>>,
    from: Seq<int>,
    kept: Seq<int>,
) -> bool {
    &&& sorts_names(names, all, from)
    &&& drops_repeats(all, shown, kept)
}

/// A list is made of the given names by sorting them without regard to case,
/// names that differ in case alone in the order in which they came, and then
/// dropping those that repeat the name right before them.
pub proof fn lemma_listing_sorts_and_drops_repeats(names: Seq<String>)
    ensures
        exists|all: Seq<Seq<char>>, from: Seq<int>, kept: Seq<int>|
            lists(names, listing(names), all, from, kept),
{
    let entries = keyed(names);
    let all = names_of(arranged(entries));
    let from = lemma_arranged_from(entries);
    let kept = lemma_merged_from(all);
    assert forall|i: int| 0 <= i < from.len() implies 0 <= #[trigger] from[i] < names.len()
        && all[i] == names[from[i]]@ by {
        assert(arranged(entries)[i] == entries[from[i]]);
    }
    assert forall|i: int, j: int|
        #![trigger from[i], from[j]]
        0 <= i < j < from.len() implies ({
        ||| text::precedes(text::lowercase(names[from[i]]@), text::lowercase(names[from[j]]@))
        ||| text::lowercase(names[from[i]]@) == text::lowercase(names[from[j]]@) && from[i]
            < from[j]
    }) by {
        assert(entries[from[i]].key == text::lowercase(names[from[i]]@));
        assert(entries[from[j]].key == text::lowercase(names[from[j]]@));
    }
    assert(lists(names, listing(names), all, from, kept));
}

/// Neighbours in a list differ in name.
pub proof fn lemma_listing_neighbours_differ(names: Seq<String>)
    ensures
        forall|i: int|
            0 < i < listing(names).len() ==> #[trigger] listing(names)[i] != listing(names)[i - 1],
{
    lemma_merged_neighbours_differ(names_of(arranged(keyed(names))));
}

/// No name is listed twice, as long as no two different names share a
/// lowercase form.
pub proof fn lemma_listing_has_no_duplicates(names: Seq<String>)
    requires
        forall|i: int, j: int|
            0 <= i < names.len() && 0 <= j < names.len() && text::lowercase(
                (#[trigger] names[i])@,
            ) == text::lowercase((#[trigger] names[j])@) ==> names[i]@ == names[j]@,
    ensures
        listing(names).no_duplicates(),
{
    let l = listing(names);
    lemma_listing_in_order(names);
    lemma_listing_neighbours_differ(names);
    assert forall|i: int, j: int| 0 <= i < j < l.len() implies l[i] != l[j] by {
        if l[i] == l[j] {
            let next = l[i + 1];
            if i + 1 < j {
                assert(!text::precedes(text::lowercase(next), text::lowercase(l[i])));
                assert(!text::precedes(text::lowercase(l[j]), text::lowercase(next)));
                if text::lowercase(next) != text::lowercase(l[i]) {
                    text::lemma_precedes_is_total(text::lowercase(next), text::lowercase(l[i]));
                }
                assert(l.contains(next));
                assert(l.contains(l[i]));
                lemma_listing_has_the_same_names(names, next);
                lemma_listing_has_the_same_names(names, l[i]);
            }
            assert(l[i + 1] != l[i]);
        }
    }
}

} // verus!
