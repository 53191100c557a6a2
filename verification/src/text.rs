//! Text as sequences of characters: search, order and case.

use vstd::prelude::*;

verus! {

/// The lowercase form of a text, as `str::to_lowercase` gives it.
pub uninterp spec fn lowercase(s: Seq<char>) -> Seq<char>;

/// The lowercase form of a single character, as `char::to_lowercase` gives it.
pub uninterp spec fn char_lowercase(c: char) -> Seq<char>;

/// The characters with the Unicode `White_Space` property.
pub open spec fn is_white_space(c: char) -> bool {
    let n = c as int;
    ||| 0x9 <= n <= 0xd
    ||| n == 0x20
    ||| n == 0x85
    ||| n == 0xa0
    ||| n == 0x1680
    ||| 0x2000 <= n <= 0x200a
    ||| n == 0x2028
    ||| n == 0x2029
    ||| n == 0x202f
    ||| n == 0x205f
    ||| n == 0x3000
}

/// `str::to_lowercase`: the result is a function of the text alone, called
/// `lowercase`. Which text that is, is left to the Unicode tables of `std`.
pub assume_specification[ str::to_lowercase ](s: &str) -> (res: String)
    ensures
        res@ == lowercase(s@),
;

/// `char::is_whitespace` tells whether a character has the `White_Space`
/// property.
pub assume_specification[ char::is_whitespace ](c: char) -> (res: bool)
    ensures
        res == is_white_space(c),
;

/// `String::push` puts one character behind the text.
pub assume_specification[ String::push ](s: &mut String, c: char)
    ensures
        final(s)@ == old(s)@.push(c),
;

/// `char::to_lowercase`, its characters collected in order: a function of the
/// character alone, called `char_lowercase`.
#[verifier::external_body]
fn lower_char(c: char) -> (res: Vec<char>)
    ensures
        res@ == char_lowercase(c),
{
    c.to_lowercase().collect()
}

/// The characters of a text, in order.
pub fn chars_of(s: &str) -> (res: Vec<char>)
    ensures
        res@ == s@,
{
    let mut res: Vec<char> = Vec::new();
    for c in it: s.chars()
        invariant
            it.seq() == s@,
            res@ == s@.take(it.index()),
    {
        res.push(c);
    }
    res
}

/// `needle` stands in `hay` from position `i` on.
pub open spec fn occurs_at(hay: Seq<char>, needle: Seq<char>, i: int) -> bool {
    &&& 0 <= i
    &&& i + needle.len() <= hay.len()
    &&& hay.subrange(i, i + needle.len()) =~= needle
}

/// `needle` is a contiguous part of `hay`.
pub open spec fn has_part(hay: Seq<char>, needle: Seq<char>) -> bool {
    exists|i: int| occurs_at(hay, needle, i)
}

/// `needle` is part of `hay` exactly where `hay` is made of some text, `needle`,
/// and some text again.
pub proof fn lemma_parts_stand_between_texts(
    hay: Seq<char>,
    needle: Seq<char>,
    pre: Seq<char>,
    post: Seq<char>,
)
    ensures
        has_part(pre + needle + post, needle),
        has_part(hay, needle) ==> exists|x: Seq<char>, y: Seq<char>|
            hay == #[trigger] (x + needle + y),
{
    let end = (pre.len() + needle.len()) as int;
    assert((pre + needle + post).subrange(pre.len() as int, end) =~= needle);
    assert(occurs_at(pre + needle + post, needle, pre.len() as int));
    if has_part(hay, needle) {
        let i = choose|i: int| occurs_at(hay, needle, i);
        let x = hay.take(i);
        let y = hay.skip(i + needle.len());
        assert(hay =~= x + needle + y) by {
            assert forall|j: int| i <= j < i + needle.len() implies hay[j] == needle[j - i] by {
                assert(hay.subrange(i, i + needle.len())[j - i] == hay[j]);
            }
        }
    }
}

fn occurs(hay: &Vec<char>, needle: &Vec<char>, at: usize) -> (res: bool)
    requires
        at + needle@.len() <= hay@.len(),
    ensures
        res == occurs_at(hay@, needle@, at as int),
{
    let end: usize = hay.len();
    let mut k: usize = 0;
    while k < needle.len()
        invariant
            end == hay@.len(),
            k <= needle@.len(),
            at + needle@.len() <= hay@.len(),
            forall|j: int| 0 <= j < k ==> hay@[at + j] == needle@[j],
        decreases needle@.len() - k,
    {
        if hay[at + k] != needle[k] {
            assert(hay@.subrange(at as int, at + needle@.len())[k as int] == hay@[at + k]);
            return false;
        }
        k += 1;
    }
    true
}

/// Whether `needle` is a contiguous part of `hay`; the empty text is part of
/// every text.
pub fn contains(hay: &str, needle: &str) -> (res: bool)
    ensures
        res == has_part(hay@, needle@),
{
    let h = chars_of(hay);
    let n = chars_of(needle);
    if n.len() > h.len() {
        return false;
    }
    let last: usize = h.len() - n.len();
    let mut i: usize = 0;
    while i <= last
        invariant
            h@ == hay@,
            n@ == needle@,
            last == h@.len() - n@.len(),
            i <= last + 1,
            forall|j: int| 0 <= j < i ==> !occurs_at(h@, n@, j),
        decreases last + 1 - i,
    {
        if occurs(&h, &n, i) {
            return true;
        }
        if i == last {
            assert forall|j: int| !occurs_at(h@, n@, j) by {
                assert(j < 0 || j <= i || j + n@.len() > h@.len());
            }
            return false;
        }
        i += 1;
    }
    false
}

/// Whether two texts are equal, character by character.
pub fn same_text(a: &str, b: &str) -> (res: bool)
    ensures
        res == (a@ == b@),
{
    let x = chars_of(a);
    let y = chars_of(b);
    if x.len() != y.len() {
        return false;
    }
    occurs_whole(&x, &y)
}

fn occurs_whole(x: &Vec<char>, y: &Vec<char>) -> (res: bool)
    requires
        x@.len() == y@.len(),
    ensures
        res == (x@ == y@),
{
    let res = occurs(x, y, 0);
    assert(x@.subrange(0, y@.len() as int) =~= x@);
    res
}

/// From position `i` on, `a` stands before `b` in the order of code points, a
/// text before its extensions.
pub open spec fn precedes_from(a: Seq<char>, b: Seq<char>, i: int) -> bool
    decreases b.len() - i,
{
    if i >= b.len() {
        false
    } else if i >= a.len() {
        true
    } else if a[i] != b[i] {
        (a[i] as int) < (b[i] as int)
    } else {
        precedes_from(a, b, i + 1)
    }
}

/// `a` stands before `b` in the order of `std` on strings.
pub open spec fn precedes(a: Seq<char>, b: Seq<char>) -> bool {
    precedes_from(a, b, 0)
}

/// Whether `a` stands before `b` in the order of code points.
pub fn before(a: &Vec<char>, b: &Vec<char>) -> (res: bool)
    ensures
        res == precedes(a@, b@),
{
    let mut i: usize = 0;
    while i < b.len()
        invariant
            i <= b@.len(),
            precedes(a@, b@) == precedes_from(a@, b@, i as int),
        decreases b@.len() - i,
    {
        if i >= a.len() {
            return true;
        }
        let x: char = a[i];
        let y: char = b[i];
        if x != y {
            return x < y;
        }
        i += 1;
    }
    false
}

proof fn lemma_precedes_from_at(a: Seq<char>, b: Seq<char>, i: int, at: int)
    requires
        0 <= i <= at,
        at <= a.len(),
        at < b.len(),
        forall|j: int| i <= j < at ==> a[j] == b[j],
    ensures
        precedes_from(a, b, i) == precedes_from(a, b, at),
    decreases at - i,
{
    if i < at {
        assert(a[i] == b[i]);
        lemma_precedes_from_at(a, b, i + 1, at);
    }
}

proof fn lemma_precedes_from_where(a: Seq<char>, b: Seq<char>, i: int) -> (at: int)
    requires
        precedes_from(a, b, i),
        0 <= i <= a.len(),
    ensures
        i <= at <= a.len(),
        at < b.len(),
        forall|j: int| i <= j < at ==> a[j] == b[j],
        at == a.len() || (a[at] as int) < (b[at] as int),
    decreases b.len() - i,
{
    if i == a.len() || a[i] != b[i] {
        i
    } else {
        lemma_precedes_from_where(a, b, i + 1)
    }
}

/// `a` and `b` agree up to position `at`, where `a` ends or has the smaller
/// character.
pub open spec fn parts_at(a: Seq<char>, b: Seq<char>, at: int) -> bool {
    &&& 0 <= at <= a.len()
    &&& at < b.len()
    &&& a.take(at) == b.take(at)
    &&& at == a.len() || (a[at] as int) < (b[at] as int)
}

/// The order of texts is that of their first different characters, and a text
/// stands before its extensions.
pub proof fn lemma_precedes_at_the_first_difference(a: Seq<char>, b: Seq<char>)
    ensures
        precedes(a, b) <==> exists|at: int| parts_at(a, b, at),
{
    if precedes(a, b) {
        let at = lemma_precedes_from_where(a, b, 0);
        assert(a.take(at) =~= b.take(at));
        assert(parts_at(a, b, at));
    }
    if exists|at: int| parts_at(a, b, at) {
        let at = choose|at: int| parts_at(a, b, at);
        assert forall|j: int| 0 <= j < at implies a[j] == b[j] by {
            assert(a.take(at)[j] == b.take(at)[j]);
        }
        lemma_precedes_from_at(a, b, 0, at);
    }
}

proof fn lemma_precedes_from(a: Seq<char>, b: Seq<char>, c: Seq<char>, i: int)
    requires
        0 <= i,
    ensures
        !precedes_from(a, a, i),
        precedes_from(a, b, i) ==> !precedes_from(b, a, i),
        precedes_from(a, b, i) && precedes_from(b, c, i) ==> precedes_from(a, c, i),
        !precedes_from(a, b, i) && !precedes_from(b, c, i) ==> !precedes_from(a, c, i),
    decreases a.len() + b.len() + c.len() - i,
{
    if i < a.len() || i < b.len() || i < c.len() {
        lemma_precedes_from(a, b, c, i + 1);
    }
}

/// The order of texts is strict and weak: no text stands before itself, two
/// texts do not each stand before the other, and both "before" and "not
/// before" carry over a third text.
pub proof fn lemma_precedes_is_an_order(a: Seq<char>, b: Seq<char>, c: Seq<char>)
    ensures
        !precedes(a, a),
        precedes(a, b) ==> !precedes(b, a),
        precedes(a, b) && precedes(b, c) ==> precedes(a, c),
        !precedes(a, b) && !precedes(b, c) ==> !precedes(a, c),
{
    lemma_precedes_from(a, b, c, 0);
}

proof fn lemma_incomparable_from(a: Seq<char>, b: Seq<char>, i: int)
    requires
        0 <= i <= a.len(),
        i <= b.len(),
        forall|j: int| 0 <= j < i ==> a[j] == b[j],
        !precedes_from(a, b, i),
        !precedes_from(b, a, i),
    ensures
        a == b,
    decreases a.len() - i,
{
    if i < a.len() && i < b.len() {
        lemma_incomparable_from(a, b, i + 1);
    } else {
        assert(a =~= b);
    }
}

/// Of two different texts, one stands before the other.
pub proof fn lemma_precedes_is_total(a: Seq<char>, b: Seq<char>)
    requires
        a != b,
    ensures
        precedes(a, b) || precedes(b, a),
{
    if !precedes(a, b) && !precedes(b, a) {
        lemma_incomparable_from(a, b, 0);
    }
}

/// A text without its white space, each remaining character in lower case.
pub open spec fn squeezed(s: Seq<char>) -> Seq<char>
    decreases s.len(),
{
    if s.len() == 0 {
        Seq::empty()
    } else if is_white_space(s.last()) {
        squeezed(s.drop_last())
    } else {
        squeezed(s.drop_last()) + char_lowercase(s.last())
    }
}

/// Drops the white space of a text and lowers what is left, character by
/// character.
pub fn squeeze(s: &str) -> (res: String)
    ensures
        res@ == squeezed(s@),
{
    let cs = chars_of(s);
    let mut res = String::new();
    let mut i: usize = 0;
    while i < cs.len()
        invariant
            i <= cs@.len(),
            res@ == squeezed(cs@.take(i as int)),
        decreases cs@.len() - i,
    {
        let c = cs[i];
        assert(cs@.take(i + 1).drop_last() =~= cs@.take(i as int));
        if !c.is_whitespace() {
            let lowered = lower_char(c);
            push_all(&mut res, &lowered);
        }
        i += 1;
    }
    assert(cs@.take(i as int) =~= cs@);
    res
}

fn push_all(s: &mut String, cs: &Vec<char>)
    ensures
        final(s)@ == old(s)@ + cs@,
{
    let mut i: usize = 0;
    while i < cs.len()
        invariant
            i <= cs@.len(),
            s@ == old(s)@ + cs@.take(i as int),
        decreases cs@.len() - i,
    {
        s.push(cs[i]);
        i += 1;
    }
    assert(cs@.take(i as int) =~= cs@);
}

/// Squeezing goes character by character: a white space leaves nothing, another
/// character its lowercase form, and the parts of a text stay in order.
pub proof fn lemma_squeezed_by_characters(a: Seq<char>, b: Seq<char>, c: char)
    ensures
        is_white_space(c) ==> squeezed(seq![c]) == Seq::<char>::empty(),
        !is_white_space(c) ==> squeezed(seq![c]) == char_lowercase(c),
        squeezed(a + b) == squeezed(a) + squeezed(b),
    decreases b.len(),
{
    let one = seq![c];
    assert(one.drop_last() =~= Seq::<char>::empty());
    assert(squeezed(one.drop_last()) =~= Seq::<char>::empty());
    assert(squeezed(one.drop_last()) + char_lowercase(c) =~= char_lowercase(c));
    if b.len() == 0 {
        assert(a + b =~= a);
        assert(squeezed(a) + squeezed(b) =~= squeezed(a));
    } else {
        lemma_squeezed_by_characters(a, b.drop_last(), c);
        assert((a + b).drop_last() =~= a + b.drop_last());
        assert(squeezed(a + b) =~= squeezed(a) + squeezed(b));
    }
}

} // verus!
