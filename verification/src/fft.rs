//! The spectrum analyzer around its Fourier transform: the window of latest
//! samples that goes into the transform, the frequency bins that each bar
//! covers, and the peak that each bar shows.

use vstd::prelude::*;

use crate::queue;
use crate::queue::SampleQueue;

verus! {

/// The number of words that are taken from the queue at a time.
pub const DRAIN_SIZE: usize = 8192;

/// The last `n` items of a sequence that has at least `n`.
pub open spec fn latest(s: Seq<u32>, n: nat) -> Seq<u32> {
    s.skip(s.len() - n)
}

/// The words of a ring, oldest first, when `pos` is where the next one goes.
pub open spec fn unrolled(ring: Seq<u32>, pos: int) -> Seq<u32> {
    Seq::new(ring.len(), |i: int| ring[(pos + i) % (ring.len() as int)])
}

/// Where the bar that starts at `prev` ends: at `raw`, but at least one bin
/// on, and not past `half`.
pub open spec fn bar_end(prev: int, raw: int, half: int) -> int {
    let end = if raw <= prev {
        prev + 1
    } else {
        raw
    };
    if end > half {
        half
    } else {
        end
    }
}

/// The bin at which bar `k` of the logarithmic bars starts.
pub open spec fn bar_edge(first: int, ends: Seq<usize>, half: int, k: int) -> int
    decreases k,
{
    if k <= 0 {
        first
    } else {
        bar_end(bar_edge(first, ends, half, k - 1), ends[k - 1] as int, half)
    }
}

/// The bins of all bars, each as a start and an end: one bar for the bins
/// below the first logarithmic bar, if there are any; the logarithmic bars;
/// and one for the bins above them, if there are any.
pub open spec fn bar_layout(first: int, ends: Seq<usize>, half: int) -> Seq<(int, int)> {
    let lead = if first > 1 {
        seq![(1int, first)]
    } else {
        Seq::empty()
    };
    let last = bar_edge(first, ends, half, ends.len() as int);
    let tail = if last < half {
        seq![(last, half)]
    } else {
        Seq::empty()
    };
    lead + Seq::new(
        ends.len(),
        |i: int| (bar_edge(first, ends, half, i), bar_edge(first, ends, half, i + 1)),
    ) + tail
}

/// Pairs of positions as numbers.
pub open spec fn as_ints(bins: Seq<(usize, usize)>) -> Seq<(int, int)> {
    Seq::new(bins.len(), |i: int| (bins[i].0 as int, bins[i].1 as int))
}

/// The bins that a bar reads: not past `half`, and at least one.
pub open spec fn read_range(bin: (int, int), half: int) -> (int, int) {
    let a = if bin.0 < half {
        bin.0
    } else {
        half
    };
    let b = if bin.1 < half {
        bin.1
    } else {
        half
    };
    (a, if b > a {
        b
    } else {
        a + 1
    })
}

/// The largest of the magnitudes from `a` up to and without `b`, or 0.
pub open spec fn peak_in(magnitudes: Seq<u32>, a: int, b: int) -> int
    decreases b - a,
{
    if b <= a {
        0
    } else {
        let rest = peak_in(magnitudes, a, b - 1);
        if magnitudes[b - 1] > rest {
            magnitudes[b - 1] as int
        } else {
            rest
        }
    }
}

/// The window of latest words and the layout of the bars.
pub struct Analyzer {
    fft_size: usize,
    samples: Vec<u32>,
    write_pos: usize,
    bar_bins: Vec<(usize, usize)>,
}

impl Analyzer {
    /// The ring is as long as the transform and is written inside its bounds.
    pub closed spec fn wf(&self) -> bool {
        &&& self.samples@.len() == self.fft_size
        &&& self.fft_size > 0 ==> self.write_pos < self.fft_size
    }

    /// The length of the transform.
    pub closed spec fn size(&self) -> nat {
        self.fft_size as nat
    }

    /// The latest words, oldest first.
    pub closed spec fn window(&self) -> Seq<u32> {
        unrolled(self.samples@, self.write_pos as int)
    }

    /// The bins of the bars.
    pub closed spec fn bins(&self) -> Seq<(int, int)> {
        as_ints(self.bar_bins@)
    }

    /// An analyzer whose window is filled with `0` words. `first_bin` is the
    /// bin of the lowest frequency, `ends` the bins at which the logarithmic
    /// bars should end.
    pub fn new(fft_size: usize, first_bin: usize, ends: &Vec<usize>) -> (res: Self)
        requires
            ends@.len() > 0 ==> first_bin < usize::MAX,
        ensures
            res.wf(),
            res.size() == fft_size,
            res.window() == Seq::new(fft_size as nat, |i: int| 0u32),
            res.bins() == bar_layout(
                if first_bin < 1 {
                    1
                } else {
                    first_bin as int
                },
                ends@,
                fft_size as int / 2,
            ),
    {
        let first: usize = if first_bin < 1 {
            1
        } else {
            first_bin
        };
        let half: usize = fft_size / 2;
        let bar_bins = layout_bars(first, ends, half);
        let samples: Vec<u32> = vec![0u32; fft_size];
        let res = Analyzer { fft_size, samples, write_pos: 0, bar_bins };
        proof {
            assert forall|i: int| 0 <= i < fft_size implies res.window()[i] == 0u32 by {
                assert(0 <= (0 + i) % (fft_size as int) < fft_size) by (nonlinear_arith)
                    requires
                        fft_size > 0,
                ;
            }
            assert(res.window() =~= Seq::new(fft_size as nat, |i: int| 0u32));
        }
        res
    }
}

fn layout_bars(first: usize, ends: &Vec<usize>, half: usize) -> (res: Vec<(usize, usize)>)
    requires
        ends@.len() > 0 ==> first < usize::MAX,
        half < usize::MAX,
    ensures
        as_ints(res@) == bar_layout(first as int, ends@, half as int),
{
    let mut bins: Vec<(usize, usize)> = Vec::new();
    if first > 1 {
        bins.push((1, first));
    }
    let ghost lead = as_ints(bins@);
    let mut prev: usize = first;
    let mut i: usize = 0;
    while i < ends.len()
        invariant
            i <= ends@.len(),
            ends@.len() > 0 ==> prev < usize::MAX,
            prev == bar_edge(first as int, ends@, half as int, i as int),
            half < usize::MAX,
            as_ints(bins@) == lead + Seq::new(
                i as nat,
                |k: int|
                    (
                        bar_edge(first as int, ends@, half as int, k),
                        bar_edge(first as int, ends@, half as int, k + 1),
                    ),
            ),
        decreases ends@.len() - i,
    {
        let mut end: usize = ends[i];
        if end <= prev {
            end = prev + 1;
        }
        if end > half {
            end = half;
        }
        let ghost before = as_ints(bins@);
        bins.push((prev, end));
        assert(as_ints(bins@) =~= before.push((prev as int, end as int)));
        prev = end;
        i += 1;
    }
    let ghost logs = as_ints(bins@);
    if prev < half {
        bins.push((prev, half));
        assert(as_ints(bins@) =~= logs.push((prev as int, half as int)));
    }
    bins
}

proof fn lemma_mod_once(x: int, n: int)
    requires
        0 <= x < 2 * n,
    ensures
        x % n == (if x < n {
            x
        } else {
            x - n
        }),
{
    if x < n {
        vstd::arithmetic::div_mod::lemma_small_mod(x as nat, n as nat);
    } else {
        vstd::arithmetic::div_mod::lemma_fundamental_div_mod_converse(x, n, 1, x - n);
    }
}

proof fn lemma_write_one(ring: Seq<u32>, pos: int, word: u32)
    requires
        0 <= pos < ring.len(),
    ensures
        unrolled(ring.update(pos, word), (pos + 1) % (ring.len() as int)) == unrolled(
            ring,
            pos,
        ).drop_first().push(word),
{
    let n = ring.len() as int;
    let after = ring.update(pos, word);
    let next = (pos + 1) % n;
    lemma_mod_once(pos + 1, n);
    let left = unrolled(after, next);
    let right = unrolled(ring, pos).drop_first().push(word);
    assert forall|i: int| 0 <= i < n implies left[i] == right[i] by {
        lemma_mod_once(next + i, n);
        lemma_mod_once(pos + i + 1, n);
        if i < n - 1 {
            assert(right[i] == unrolled(ring, pos)[i + 1]);
            assert(unrolled(ring, pos)[i + 1] == ring[(pos + (i + 1)) % n]);
        }
    }
    assert(left =~= right);
}

impl Analyzer {
    /// Takes in new words: the window slides on to the latest.
    pub fn ingest(&mut self, new_samples: &[u32])
        requires
            old(self).wf(),
            old(self).size() > 0 || new_samples@.len() == 0,
        ensures
            final(self).wf(),
            final(self).size() == old(self).size(),
            final(self).bins() == old(self).bins(),
            final(self).window() == latest(old(self).window() + new_samples@, old(self).size()),
    {
        let ghost base = self.window();
        let n: usize = new_samples.len();
        let mut i: usize = 0;
        assert(latest(base + new_samples@.take(0), self.size()) =~= base);
        while i < n
            invariant
                n == new_samples@.len(),
                i <= n,
                self.wf(),
                self.size() > 0 || n == 0,
                self.size() == old(self).size(),
                self.bins() == old(self).bins(),
                base == old(self).window(),
                base.len() == self.size(),
                self.window() == latest(base + new_samples@.take(i as int), self.size()),
            decreases n - i,
        {
            let s: u32 = new_samples[i];
            let ghost pos = self.write_pos as int;
            let ghost ring = self.samples@;
            self.samples.set(self.write_pos, s);
            self.write_pos = (self.write_pos + 1) % self.fft_size;
            proof {
                lemma_write_one(ring, pos, s);
                let shorter = base + new_samples@.take(i as int);
                let longer = base + new_samples@.take(i + 1);
                assert(latest(longer, self.size()) =~= latest(
                    shorter,
                    self.size(),
                ).drop_first().push(s));
            }
            i += 1;
        }
        assert(new_samples@.take(i as int) =~= new_samples@);
    }

    /// Takes in what waits in the queue, up to `DRAIN_SIZE` words; returns how
    /// many were taken.
    pub fn drain(&mut self, source: &mut SampleQueue) -> (count: usize)
        requires
            old(self).wf(),
            old(self).size() > 0,
        ensures
            final(self).wf(),
            final(self).size() == old(self).size(),
            final(self).bins() == old(self).bins(),
            count == queue::fitting(old(source)@.len(), DRAIN_SIZE as int),
            final(source)@ == queue::left(old(source)@, DRAIN_SIZE as nat),
            final(source).capacity() == old(source).capacity(),
            final(self).window() == latest(
                old(self).window() + queue::taken(old(source)@, DRAIN_SIZE as nat),
                old(self).size(),
            ),
    {
        let mut scratch: Vec<u32> = vec![0u32; DRAIN_SIZE];
        let count: usize = source.pop_slice(&mut scratch);
        let (fresh, _) = scratch.as_slice().split_at(count);
        assert(fresh@ =~= old(source)@.take(count as int));
        self.ingest(fresh);
        count
    }

    /// The latest words, oldest first.
    pub fn latest_words(&self) -> (res: Vec<u32>)
        requires
            self.wf(),
        ensures
            res@ == self.window(),
    {
        let mut res: Vec<u32> = Vec::new();
        let to_end: usize = if self.fft_size > 0 {
            self.fft_size - self.write_pos
        } else {
            0
        };
        let mut i: usize = 0;
        while i < self.fft_size
            invariant
                self.wf(),
                i <= self.fft_size,
                self.fft_size > 0 ==> to_end == self.fft_size - self.write_pos,
                res@ == self.window().take(i as int),
            decreases self.fft_size - i,
        {
            let src: usize = if i < to_end {
                self.write_pos + i
            } else {
                i - to_end
            };
            proof {
                lemma_mod_once(self.write_pos + i, self.fft_size as int);
            }
            res.push(self.samples[src]);
            i += 1;
        }
        assert(self.window().take(i as int) =~= self.window());
        res
    }

    /// The number of bars.
    pub fn bar_count(&self) -> (res: usize)
        ensures
            res == self.bins().len(),
    {
        self.bar_bins.len()
    }

    /// The number of low bars whose mean is taken for the bass: a fifth of
    /// them, at least one.
    pub fn bass_bars(&self) -> (res: usize)
        ensures
            res == (if self.bins().len() < 5 {
                1
            } else {
                self.bins().len() as int / 5
            }),
    {
        let n: usize = self.bar_bins.len();
        if n < 5 {
            1
        } else {
            n / 5
        }
    }

    /// The peak of each bar among the magnitudes of the transform. A magnitude
    /// is the bit pattern of a number that is not negative: such numbers are
    /// ordered as their bit patterns are.
    pub fn process(&self, magnitudes: &[u32]) -> (res: Vec<u32>)
        requires
            self.wf(),
            self.bins().len() > 0 ==> magnitudes@.len() > self.size() / 2,
        ensures
            res@.len() == self.bins().len(),
            forall|i: int|
                #![trigger res@[i]]
                0 <= i < res@.len() ==> res@[i] == peak_in(
                    magnitudes@,
                    read_range(self.bins()[i], self.size() as int / 2).0,
                    read_range(self.bins()[i], self.size() as int / 2).1,
                ),
    {
        let half: usize = self.fft_size / 2;
        let mut res: Vec<u32> = Vec::new();
        let mut i: usize = 0;
        while i < self.bar_bins.len()
            invariant
                self.wf(),
                half == self.size() as int / 2,
                self.bins().len() > 0 ==> magnitudes@.len() > half,
                i <= self.bar_bins@.len(),
                res@.len() == i,
                forall|j: int|
                    #![trigger res@[j]]
                    0 <= j < i ==> res@[j] == peak_in(
                        magnitudes@,
                        read_range(self.bins()[j], half as int).0,
                        read_range(self.bins()[j], half as int).1,
                    ),
            decreases self.bar_bins@.len() - i,
        {
            let (start, end) = self.bar_bins[i];
            let a: usize = if start < half {
                start
            } else {
                half
            };
            let b: usize = if end < half {
                end
            } else {
                half
            };
            let stop: usize = if b > a {
                b
            } else {
                a + 1
            };
            assert(self.bins()[i as int] == (start as int, end as int));
            res.push(peak(magnitudes, a, stop));
            i += 1;
        }
        res
    }
}

fn peak(magnitudes: &[u32], a: usize, b: usize) -> (res: u32)
    requires
        a <= b <= magnitudes@.len(),
    ensures
        res == peak_in(magnitudes@, a as int, b as int),
{
    let mut peak: u32 = 0;
    let mut k: usize = a;
    while k < b
        invariant
            a <= k <= b <= magnitudes@.len(),
            peak == peak_in(magnitudes@, a as int, k as int),
        decreases b - k,
    {
        if magnitudes[k] > peak {
            peak = magnitudes[k];
        }
        k += 1;
    }
    peak
}

// ---------------------------------------------------------------------------
// What holds of every window
// ---------------------------------------------------------------------------

impl Analyzer {
    /// The window of an analyzer is as long as its transform.
    pub proof fn lemma_window_is_as_long_as_the_transform(&self)
        requires
            self.wf(),
        ensures
            self.window().len() == self.size(),
            self.size() <= usize::MAX,
    {
    }
}

/// It does not matter in which portions words are taken in.
pub proof fn lemma_portions_do_not_matter(base: Seq<u32>, x: Seq<u32>, y: Seq<u32>)
    ensures
        latest(latest(base + x, base.len()) + y, base.len()) == latest(base + (x + y), base.len()),
{
    assert(latest(latest(base + x, base.len()) + y, base.len()) =~= latest(
        base + (x + y),
        base.len(),
    ));
}

/// Once at least a window's length of words has been taken in, the window is
/// made of the latest of them alone, in the order in which they came.
pub proof fn lemma_window_forgets(base: Seq<u32>, words: Seq<u32>)
    requires
        words.len() >= base.len(),
    ensures
        latest(base + words, base.len()) == latest(words, base.len()),
{
    assert(latest(base + words, base.len()) =~= latest(words, base.len()));
}

/// The window slides: it keeps its length, the latest words stand at its end in
/// the order in which they came, and before them the latest of the words that
/// it held.
pub proof fn lemma_window_slides(base: Seq<u32>, words: Seq<u32>)
    ensures
        latest(base + words, base.len()).len() == base.len(),
        forall|i: int|
            0 <= i < words.len() && i < base.len() ==> latest(
                base + words,
                base.len(),
            )[base.len() - 1 - i] == #[trigger] words[words.len() - 1 - i],
        forall|i: int|
            words.len() <= i < base.len() ==> latest(base + words, base.len())[i - words.len()]
                == #[trigger] base[i],
{
}

// ---------------------------------------------------------------------------
// What holds of every layout of bars
// ---------------------------------------------------------------------------

/// The logarithmic bars end where they were asked to: at the bin asked for,
/// where it lies past the start of the bar and inside the spectrum; at the end
/// of the spectrum, where it lies past that; and one bin on, where it does not
/// lie past the start.
pub proof fn lemma_bars_end_where_asked(first: int, ends: Seq<usize>, half: int, k: int)
    requires
        0 <= k < ends.len(),
    ensures
        bar_edge(first, ends, half, 0) == first,
        bar_edge(first, ends, half, k) < ends[k] <= half ==> bar_edge(first, ends, half, k + 1)
            == ends[k],
        ends[k] > half ==> bar_edge(first, ends, half, k + 1) == half,
        ends[k] <= bar_edge(first, ends, half, k) < half ==> bar_edge(first, ends, half, k + 1)
            == bar_edge(first, ends, half, k) + 1,
        bar_edge(first, ends, half, k) >= half ==> bar_edge(first, ends, half, k + 1) == half,
{
}

/// The number of bars before the logarithmic ones.
pub open spec fn lead_count(first: int) -> int {
    if first > 1 {
        1
    } else {
        0
    }
}

/// The bars are those asked for, in order: one for the bins from 1 up to the
/// first logarithmic bar, if there are any; for each end asked for one bar, that
/// starts where the one before it ends and ends where it was asked to; and one
/// for the bins that are left.
pub proof fn lemma_bars_are_those_asked_for(first: int, ends: Seq<usize>, half: int)
    ensures
        ({
            let bars = bar_layout(first, ends, half);
            let lead = lead_count(first);
            let n = ends.len() as int;
            &&& lead + n <= bars.len() <= lead + n + 1
            &&& first > 1 ==> bars[0] == (1int, first)
            &&& n > 0 ==> bars[lead].0 == first
            &&& forall|k: int|
                #![trigger ends[k]]
                0 <= k < n ==> {
                    let bar = bars[lead + k];
                    &&& k > 0 ==> bar.0 == bars[lead + k - 1].1
                    &&& bar.0 < ends[k] <= half ==> bar.1 == ends[k]
                    &&& ends[k] > half ==> bar.1 == half
                    &&& ends[k] <= bar.0 < half ==> bar.1 == bar.0 + 1
                    &&& bar.0 >= half ==> bar.1 == half
                }
            &&& bars.len() == lead + n ==> (if n > 0 {
                bars[lead + n - 1].1
            } else {
                first
            }) >= half
            &&& bars.len() > lead + n ==> bars.last() == (
                if n > 0 {
                    bars[lead + n - 1].1
                } else {
                    first
                },
                half,
            ) && bars.last().0 < half
        }),
{
    let bars = bar_layout(first, ends, half);
    let lead = lead_count(first);
    let n = ends.len() as int;
    assert forall|k: int|
        #![trigger ends[k]]
        0 <= k < n implies ({
        let bar = bars[lead + k];
        &&& k > 0 ==> bar.0 == bars[lead + k - 1].1
        &&& bar.0 < ends[k] <= half ==> bar.1 == ends[k]
        &&& ends[k] > half ==> bar.1 == half
        &&& ends[k] <= bar.0 < half ==> bar.1 == bar.0 + 1
        &&& bar.0 >= half ==> bar.1 == half
    }) by {
        lemma_bars_end_where_asked(first, ends, half, k);
        assert(bars[lead + k] == (
            bar_edge(first, ends, half, k),
            bar_edge(first, ends, half, k + 1),
        ));
        if k > 0 {
            assert(bars[lead + k - 1].1 == bar_edge(first, ends, half, k - 1 + 1));
        }
    }
    if n > 0 {
        assert(bars[lead].0 == bar_edge(first, ends, half, 0));
        assert(bars[lead + n - 1].1 == bar_edge(first, ends, half, n - 1 + 1));
    }
}

/// The ends ascend, from past the first bin up to the end of the spectrum at most.
pub open spec fn ascend_inside(first: int, ends: Seq<usize>, half: int) -> bool {
    &&& forall|i: int| 0 <= i < ends.len() ==> first < #[trigger] ends[i] <= half
    &&& forall|i: int, j: int|
        0 <= i < j < ends.len() ==> #[trigger] ends[i] < #[trigger] ends[j]
}

proof fn lemma_ascending_edges(first: int, ends: Seq<usize>, half: int, k: int)
    requires
        ascend_inside(first, ends, half),
        0 <= k <= ends.len(),
    ensures
        bar_edge(first, ends, half, k) == (if k == 0 {
            first
        } else {
            ends[k - 1] as int
        }),
    decreases k,
{
    if k > 0 {
        lemma_ascending_edges(first, ends, half, k - 1);
        assert(first < ends[k - 1] <= half);
        if k > 1 {
            assert(ends[k - 2] < ends[k - 1]);
        }
    }
}

/// Ends that ascend from the first bin and stay inside the spectrum are met
/// exactly: bar `k` covers the bins from the end before up to its own.
pub proof fn lemma_ascending_ends_are_met(first: int, ends: Seq<usize>, half: int, k: int)
    requires
        ascend_inside(first, ends, half),
        0 <= k < ends.len(),
    ensures
        bar_layout(first, ends, half)[lead_count(first) + k] == (
            if k == 0 {
                first
            } else {
                ends[k - 1] as int
            },
            ends[k] as int,
        ),
{
    lemma_ascending_edges(first, ends, half, k);
    lemma_ascending_edges(first, ends, half, k + 1);
    assert(bar_layout(first, ends, half)[lead_count(first) + k] == (
        bar_edge(first, ends, half, k),
        bar_edge(first, ends, half, k + 1),
    ));
}

proof fn lemma_edges(first: int, ends: Seq<usize>, half: int, k: int)
    requires
        0 <= k <= ends.len(),
        first <= half,
    ensures
        first <= bar_edge(first, ends, half, k) <= half,
        k < ends.len() ==> bar_edge(first, ends, half, k) <= bar_edge(first, ends, half, k + 1),
        k < ends.len() && bar_edge(first, ends, half, k) < half ==> bar_edge(first, ends, half, k)
            < bar_edge(first, ends, half, k + 1),
    decreases k,
{
    if k > 0 {
        lemma_edges(first, ends, half, k - 1);
    }
}

/// Each range ends where the next one starts, and none runs backwards.
pub open spec fn chained(bins: Seq<(int, int)>) -> bool {
    &&& forall|i: int| 0 <= i < bins.len() ==> (#[trigger] bins[i]).0 <= bins[i].1
    &&& forall|i: int| 0 < i < bins.len() ==> (#[trigger] bins[i]).0 == bins[i - 1].1
}

/// As long as the lowest frequency lies inside the spectrum, the bars form a
/// chain from bin 1 to the middle of the transform.
pub proof fn lemma_bars_are_chained(first: int, ends: Seq<usize>, half: int)
    requires
        1 <= first <= half,
    ensures
        chained(bar_layout(first, ends, half)),
        bar_layout(first, ends, half).len() > 0 ==> {
            &&& bar_layout(first, ends, half)[0].0 == 1
            &&& bar_layout(first, ends, half).last().1 == half
        },
        half > 1 ==> bar_layout(first, ends, half).len() > 0,
{
    let bins = bar_layout(first, ends, half);
    let n = ends.len() as int;
    let lead: int = if first > 1 {
        1
    } else {
        0
    };
    lemma_edges(first, ends, half, n);
    assert forall|i: int| 0 <= i < bins.len() implies (#[trigger] bins[i]).0 <= bins[i].1 by {
        if lead <= i < lead + n {
            lemma_edges(first, ends, half, i - lead);
        }
    }
    assert forall|i: int| 0 < i < bins.len() implies (#[trigger] bins[i]).0 == bins[i - 1].1 by {
        if i < lead + n {
            assert(bins[i].0 == bar_edge(first, ends, half, i - lead));
        }
        if i - 1 >= lead && i - 1 < lead + n {
            assert(bins[i - 1].1 == bar_edge(first, ends, half, i - 1 - lead + 1));
        }
    }
    if bins.len() > 0 {
        if lead == 0 && n > 0 {
            assert(bins[0].0 == bar_edge(first, ends, half, 0));
        }
        if bar_edge(first, ends, half, n) >= half && n > 0 {
            assert(bins.last().1 == bar_edge(first, ends, half, n - 1 + 1));
        }
    }
}

proof fn lemma_chain_is_monotone(bins: Seq<(int, int)>, i: int, j: int)
    requires
        chained(bins),
        0 <= i < j < bins.len(),
    ensures
        bins[i].1 <= bins[j].0,
    decreases j - i,
{
    assert(bins[j].0 == bins[j - 1].1);
    if i < j - 1 {
        lemma_chain_is_monotone(bins, i, j - 1);
        assert(bins[j - 1].0 <= bins[j - 1].1);
    }
}

proof fn lemma_chain_covers(bins: Seq<(int, int)>, bin: int, n: int)
    requires
        chained(bins),
        0 < n <= bins.len(),
        bins[0].0 <= bin < bins[n - 1].1,
    ensures
        exists|i: int| 0 <= i < n && (#[trigger] bins[i]).0 <= bin < bins[i].1,
    decreases n,
{
    if bins[n - 1].0 <= bin {
        assert(bins[n - 1].0 <= bin < bins[n - 1].1);
    } else {
        assert(n > 1);
        assert(bins[n - 1].0 == bins[n - 2].1);
        lemma_chain_covers(bins, bin, n - 1);
    }
}

/// As long as the lowest frequency lies inside the spectrum, every bin from 1
/// up to the middle of the transform belongs to exactly one bar.
pub proof fn lemma_every_bin_has_one_bar(first: int, ends: Seq<usize>, half: int, bin: int)
    requires
        1 <= first <= half,
        1 <= bin < half,
    ensures
        exists|i: int|
            0 <= i < bar_layout(first, ends, half).len() && (#[trigger] bar_layout(
                first,
                ends,
                half,
            )[i]).0 <= bin < bar_layout(first, ends, half)[i].1,
        forall|i: int, j: int|
            0 <= i < bar_layout(first, ends, half).len() && 0 <= j < bar_layout(
                first,
                ends,
                half,
            ).len() && (#[trigger] bar_layout(first, ends, half)[i]).0 <= bin < bar_layout(
                first,
                ends,
                half,
            )[i].1 && (#[trigger] bar_layout(first, ends, half)[j]).0 <= bin < bar_layout(
                first,
                ends,
                half,
            )[j].1 ==> i == j,
{
    let bins = bar_layout(first, ends, half);
    lemma_bars_are_chained(first, ends, half);
    lemma_chain_covers(bins, bin, bins.len() as int);
    assert forall|i: int, j: int|
        0 <= i < bins.len() && 0 <= j < bins.len() && (#[trigger] bins[i]).0 <= bin < bins[i].1 && (
        #[trigger] bins[j]).0 <= bin < bins[j].1 implies i == j by {
        if i < j {
            lemma_chain_is_monotone(bins, i, j);
        } else if j < i {
            lemma_chain_is_monotone(bins, j, i);
        }
    }
}

/// What a bar reads is never empty and never lies past the middle of the
/// transform; where the bar is neither empty nor past the middle, it is
/// exactly its bins.
pub proof fn lemma_read_range_in_bounds(bin: (int, int), half: int)
    requires
        0 <= bin.0,
        0 <= half,
    ensures
        0 <= read_range(bin, half).0 < read_range(bin, half).1 <= half + 1,
        bin.0 < bin.1 <= half ==> read_range(bin, half) == bin,
        bin.0 < half < bin.1 ==> read_range(bin, half) == (bin.0, half),
        bin.1 <= bin.0 < half ==> read_range(bin, half) == (bin.0, bin.0 + 1),
        bin.0 >= half ==> read_range(bin, half) == (half, half + 1),
{
}

/// A peak is at least as large as every magnitude in its range, and it is one
/// of them or 0.
pub proof fn lemma_peak_is_the_largest(magnitudes: Seq<u32>, a: int, b: int)
    requires
        0 <= a <= b <= magnitudes.len(),
    ensures
        forall|k: int| a <= k < b ==> #[trigger] magnitudes[k] <= peak_in(magnitudes, a, b),
        peak_in(magnitudes, a, b) == 0 || exists|k: int|
            a <= k < b && #[trigger] magnitudes[k] == peak_in(magnitudes, a, b),
    decreases b - a,
{
    if a < b {
        lemma_peak_is_the_largest(magnitudes, a, b - 1);
        let rest = peak_in(magnitudes, a, b - 1);
        if magnitudes[b - 1] <= rest && rest != 0 {
            let k = choose|k: int| a <= k < b - 1 && #[trigger] magnitudes[k] == rest;
            assert(magnitudes[k] == peak_in(magnitudes, a, b));
        }
    }
}

/// A single tone lights the bars that cover its bin, in full, and no others.
pub proof fn lemma_a_tone_lights_its_bar(magnitudes: Seq<u32>, a: int, b: int, bin: int)
    requires
        0 <= a <= b <= magnitudes.len(),
        0 <= bin < magnitudes.len(),
        forall|k: int| 0 <= k < magnitudes.len() && k != bin ==> #[trigger] magnitudes[k] == 0,
    ensures
        a <= bin < b ==> peak_in(magnitudes, a, b) == magnitudes[bin],
        !(a <= bin < b) ==> peak_in(magnitudes, a, b) == 0,
{
    lemma_peak_is_the_largest(magnitudes, a, b);
}

/// A tone at a bin below the end asked for lights that bar and no other: with
/// ends that ascend inside the spectrum, the bars show the tone where it lies.
pub proof fn lemma_a_tone_lights_where_it_lies(
    first: int,
    ends: Seq<usize>,
    half: int,
    magnitudes: Seq<u32>,
    bin: int,
    k: int,
)
    requires
        1 <= first,
        ascend_inside(first, ends, half),
        0 <= k < ends.len(),
        half < magnitudes.len(),
        0 <= bin < magnitudes.len(),
        forall|j: int| 0 <= j < magnitudes.len() && j != bin ==> #[trigger] magnitudes[j] == 0,
    ensures
        ({
            let range = read_range(
                bar_layout(first, ends, half)[lead_count(first) + k],
                half,
            );
            peak_in(magnitudes, range.0, range.1) == (if (if k == 0 {
                first
            } else {
                ends[k - 1] as int
            }) <= bin < ends[k] {
                magnitudes[bin] as int
            } else {
                0
            })
        }),
{
    lemma_ascending_ends_are_met(first, ends, half, k);
    let bar = bar_layout(first, ends, half)[lead_count(first) + k];
    assert(first < ends[k] <= half);
    if k > 0 {
        assert(ends[k - 1] < ends[k]);
    }
    assert(0 <= bar.0 < bar.1 <= half);
    lemma_read_range_in_bounds(bar, half);
    lemma_a_tone_lights_its_bar(magnitudes, bar.0, bar.1, bin);
}

} // verus!
