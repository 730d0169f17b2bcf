//! Crossfades between the parts of a spectrum split.
//!
//! A hard assignment gives every bin to exactly one part. With a crossfade,
//! the bins on either side of a boundary between two runs of bins are shared
//! by both runs, with linear weights that add up to one at every shared bin.
//! The weights are kept exact: each is a fraction over twice the width of the
//! fade it belongs to.

use vstd::prelude::*;

use crate::processor::AudioProcessor;

verus! {

/// The weight of a bin in a part, exactly.
///
/// `counter` is the bin's position inside its fade region, `count` the
/// region's width; every fading weight is a fraction over `2 * count`.
#[derive(Debug, Clone, Copy, PartialEq, Eq, Structural)]
pub enum FadeAmplitude {
    /// The bin belongs to the part alone: weight one.
    Full,
    /// A bin of the previous part, faded in from 0 towards 1/2: `counter / (2 count)`.
    FadeOutStart { counter: usize, count: usize },
    /// A bin at the start of the part, rising from 1/2 towards 1: `(count + counter) / (2 count)`.
    FadeInStart { counter: usize, count: usize },
    /// A bin at the end of the part, falling from 1 towards 1/2: `(2 count - counter) / (2 count)`.
    FadeOutEnd { counter: usize, count: usize },
    /// A bin of the next part, falling from 1/2 towards 0: `(count - counter) / (2 count)`.
    FadeInEnd { counter: usize, count: usize },
}

impl FadeAmplitude {
    /// The numerator of the weight.
    pub open spec fn numerator(self) -> int {
        match self {
            FadeAmplitude::Full => 1,
            FadeAmplitude::FadeOutStart { counter, count } => counter as int,
            FadeAmplitude::FadeInStart { counter, count } => count + counter,
            FadeAmplitude::FadeOutEnd { counter, count } => 2 * count - counter,
            FadeAmplitude::FadeInEnd { counter, count } => count - counter,
        }
    }

    /// The denominator of the weight.
    pub open spec fn denominator(self) -> int {
        match self {
            FadeAmplitude::Full => 1,
            FadeAmplitude::FadeOutStart { counter, count } => 2 * count,
            FadeAmplitude::FadeInStart { counter, count } => 2 * count,
            FadeAmplitude::FadeOutEnd { counter, count } => 2 * count,
            FadeAmplitude::FadeInEnd { counter, count } => 2 * count,
        }
    }

    /// The weight as a fraction `(numerator, denominator)`.
    pub fn weight(&self) -> (r: (i128, i128))
        ensures
            r.0 == self.numerator(),
            r.1 == self.denominator(),
    {
        match *self {
            FadeAmplitude::Full => (1, 1),
            FadeAmplitude::FadeOutStart { counter, count } => (counter as i128, 2 * count as i128),
            FadeAmplitude::FadeInStart { counter, count } => (
                count as i128 + counter as i128,
                2 * count as i128,
            ),
            FadeAmplitude::FadeOutEnd { counter, count } => (
                2 * count as i128 - counter as i128,
                2 * count as i128,
            ),
            FadeAmplitude::FadeInEnd { counter, count } => (
                count as i128 - counter as i128,
                2 * count as i128,
            ),
        }
    }
}

/// The weights of a fade of `count` bins are linear in the bin: over `2 count`
/// each, consecutive bins differ by exactly one step of `1 / (2 count)`. The
/// previous run's end rises from 0 towards 1/2 (reaching it on the bin after
/// the fade) and this run's start goes on from 1/2 towards 1; this run's end
/// falls from 1 towards 1/2, and the next run's start from 1/2 towards 0.
pub proof fn lemma_fade_weights_linear(counter: usize, count: usize)
    requires
        0 < count,
        counter < count,
    ensures
        ({
            let c = counter;
            let k = count;
            &&& FadeAmplitude::FadeOutStart { counter: c, count: k }.denominator() == 2 * k
            &&& FadeAmplitude::FadeInStart { counter: c, count: k }.denominator() == 2 * k
            &&& FadeAmplitude::FadeOutEnd { counter: c, count: k }.denominator() == 2 * k
            &&& FadeAmplitude::FadeInEnd { counter: c, count: k }.denominator() == 2 * k
            &&& FadeAmplitude::FadeOutStart { counter: 0, count: k }.numerator() == 0
            &&& FadeAmplitude::FadeInStart { counter: 0, count: k }.numerator() == k
            &&& FadeAmplitude::FadeOutEnd { counter: 0, count: k }.numerator() == 2 * k
            &&& FadeAmplitude::FadeInEnd { counter: 0, count: k }.numerator() == k
            &&& c + 1 < k ==> {
                &&& FadeAmplitude::FadeOutStart { counter: (c + 1) as usize, count: k }.numerator()
                    == FadeAmplitude::FadeOutStart { counter: c, count: k }.numerator() + 1
                &&& FadeAmplitude::FadeInStart { counter: (c + 1) as usize, count: k }.numerator()
                    == FadeAmplitude::FadeInStart { counter: c, count: k }.numerator() + 1
                &&& FadeAmplitude::FadeOutEnd { counter: (c + 1) as usize, count: k }.numerator()
                    == FadeAmplitude::FadeOutEnd { counter: c, count: k }.numerator() - 1
                &&& FadeAmplitude::FadeInEnd { counter: (c + 1) as usize, count: k }.numerator()
                    == FadeAmplitude::FadeInEnd { counter: c, count: k }.numerator() - 1
            }
            &&& c + 1 == k ==> {
                &&& FadeAmplitude::FadeOutStart { counter: c, count: k }.numerator() + 1 == k
                &&& FadeAmplitude::FadeInStart { counter: c, count: k }.numerator() + 1 == 2 * k
                &&& FadeAmplitude::FadeOutEnd { counter: c, count: k }.numerator() - 1 == k
                &&& FadeAmplitude::FadeInEnd { counter: c, count: k }.numerator() - 1 == 0
            }
        }),
{
}

/// The weight of one bin in a part.
#[derive(Debug, Clone, Copy, PartialEq, Eq, Structural)]
pub struct BinAmplitude {
    pub bin: usize,
    pub amplitude: FadeAmplitude,
}

/// The weighted bins of one run of a part.
#[derive(Debug)]
pub struct PartBinAmplitudes {
    pub part: usize,
    pub bin_amplitudes: Vec<BinAmplitude>,
}

/// An inclusive range of bins.
#[derive(Debug, Clone, Copy, PartialEq, Eq, Structural)]
pub struct BinBoundaries {
    pub bin_start: usize,
    pub bin_end: usize,
}

impl BinBoundaries {
    /// The number of bins in the range.
    pub open spec fn count(self) -> int {
        self.bin_end - self.bin_start + 1
    }

    /// The first bin of the last `fade_width` bins of the range.
    pub fn bin_from_end(&self, fade_width: usize) -> (r: usize)
        requires
            fade_width <= self.bin_end + 1,
            self.bin_end < usize::MAX,
        ensures
            r == self.bin_end + 1 - fade_width,
    {
        1 + self.bin_end - fade_width
    }

    /// The last bin of the first `fade_width` bins of the range.
    pub fn bin_from_start(&self, fade_width: usize) -> (r: usize)
        requires
            self.bin_start + fade_width >= 1,
            self.bin_start + fade_width <= usize::MAX,
        ensures
            r == self.bin_start + fade_width - 1,
    {
        self.bin_start + fade_width - 1
    }
}

/// A run of bins of one part, with the fade regions at its two ends.
#[derive(Debug, Clone, Copy, PartialEq, Eq, Structural)]
pub struct FadeBoundariesPart {
    /// The part the run belongs to
    pub part: usize,
    /// The bins of the run
    pub part_bins: BinBoundaries,
    /// The end of the previous run, faded in from 0 to 1/2
    pub fade_out_start: Option<BinBoundaries>,
    /// The start of this run, rising from 1/2 to 1
    pub fade_in_start: Option<BinBoundaries>,
    /// The end of this run, falling from 1 to 1/2
    pub fade_out_end: Option<BinBoundaries>,
    /// The start of the next run, falling from 1/2 to 0
    pub fade_in_end: Option<BinBoundaries>,
}

impl FadeBoundariesPart {
    /// The regions lie where their names say, next to the run and inside it.
    pub open spec fn wf(self) -> bool {
        let pb = self.part_bins;
        &&& pb.bin_start <= pb.bin_end < usize::MAX
        &&& self.fade_out_start is Some ==> {
            let o = self.fade_out_start.unwrap();
            o.bin_start <= o.bin_end && o.bin_end + 1 == pb.bin_start
        }
        &&& self.fade_in_start is Some ==> {
            let i = self.fade_in_start.unwrap();
            i.bin_start == pb.bin_start && i.bin_start <= i.bin_end <= pb.bin_end
        }
        &&& self.fade_out_end is Some ==> {
            let o = self.fade_out_end.unwrap();
            o.bin_end == pb.bin_end && pb.bin_start <= o.bin_start <= o.bin_end
        }
        &&& self.fade_in_end is Some ==> {
            let i = self.fade_in_end.unwrap();
            i.bin_start == pb.bin_end + 1 && i.bin_start <= i.bin_end < usize::MAX
        }
        &&& (self.fade_in_start is Some && self.fade_out_end is Some) ==> self.fade_in_start.unwrap().bin_end
            < self.fade_out_end.unwrap().bin_start
    }

    /// The start fades are written out: the previous run's end, and after it this run's start.
    pub open spec fn starts_faded(self) -> bool {
        self.fade_out_start is Some
    }

    /// The end fades are written out: this run's end, and after it the next run's start.
    pub open spec fn ends_faded(self) -> bool {
        self.fade_out_end is Some
    }

    /// The first bin that carries a weight of this run.
    pub open spec fn first_bin(self) -> int {
        if self.starts_faded() {
            self.fade_out_start.unwrap().bin_start as int
        } else {
            self.part_bins.bin_start as int
        }
    }

    /// The last bin that carries a weight of this run.
    pub open spec fn last_bin(self) -> int {
        if self.ends_faded() && self.fade_in_end is Some {
            self.fade_in_end.unwrap().bin_end as int
        } else {
            self.part_bins.bin_end as int
        }
    }

    /// The weight of bin `x` in this run.
    pub open spec fn amplitude_at(self, x: int) -> FadeAmplitude {
        if self.starts_faded() && x <= self.fade_out_start.unwrap().bin_end {
            let o = self.fade_out_start.unwrap();
            FadeAmplitude::FadeOutStart {
                counter: (x - o.bin_start) as usize,
                count: o.count() as usize,
            }
        } else if self.starts_faded() && self.fade_in_start is Some && x
            <= self.fade_in_start.unwrap().bin_end {
            let i = self.fade_in_start.unwrap();
            FadeAmplitude::FadeInStart {
                counter: (x - i.bin_start) as usize,
                count: i.count() as usize,
            }
        } else if self.ends_faded() && self.fade_out_end.unwrap().bin_start <= x
            <= self.fade_out_end.unwrap().bin_end {
            let o = self.fade_out_end.unwrap();
            FadeAmplitude::FadeOutEnd {
                counter: (x - o.bin_start) as usize,
                count: o.count() as usize,
            }
        } else if self.ends_faded() && self.fade_in_end is Some && self.fade_in_end.unwrap().bin_start
            <= x {
            let i = self.fade_in_end.unwrap();
            FadeAmplitude::FadeInEnd {
                counter: (x - i.bin_start) as usize,
                count: i.count() as usize,
            }
        } else {
            FadeAmplitude::Full
        }
    }

    /// The weighted bins of this run, one per bin from `first_bin` to `last_bin`.
    pub open spec fn amplitudes(self) -> Seq<BinAmplitude> {
        Seq::new(
            (self.last_bin() - self.first_bin() + 1) as nat,
            |i: int|
                BinAmplitude {
                    bin: (self.first_bin() + i) as usize,
                    amplitude: self.amplitude_at(self.first_bin() + i),
                },
        )
    }

    /// The number of bins in the run.
    pub fn bin_count(&self) -> (r: usize)
        requires
            self.part_bins.bin_start <= self.part_bins.bin_end < usize::MAX,
        ensures
            r == self.part_bins.count(),
    {
        (self.part_bins.bin_end - self.part_bins.bin_start) + 1
    }

    /// Push the weights of bins `from ..= to` of this run.
    fn push_range(&self, v: &mut Vec<BinAmplitude>, from: usize, to: usize)
        requires
            self.wf(),
            old(v)@ == self.amplitudes().take(old(v)@.len() as int),
            from == self.first_bin() + old(v)@.len(),
            from <= to + 1,
            to <= self.last_bin(),
            to < usize::MAX,
        ensures
            final(v)@ == self.amplitudes().take(final(v)@.len() as int),
            final(v)@.len() == to + 1 - self.first_bin(),
    {
        let mut bin = from;
        while bin <= to
            invariant
                self.wf(),
                from <= bin <= to + 1,
                to <= self.last_bin(),
                to < usize::MAX,
                v@ == self.amplitudes().take(v@.len() as int),
                bin == self.first_bin() + v@.len(),
            decreases to + 1 - bin,
        {
            let amplitude = self.exec_amplitude_at(bin);
            proof {
                let s = self.amplitudes();
                assert(s.take(v@.len() as int + 1) =~= s.take(v@.len() as int).push(s[v@.len() as int]));
            }
            v.push(BinAmplitude { bin, amplitude });
            bin = bin + 1;
        }
    }

    /// The weight of bin `x` in this run.
    fn exec_amplitude_at(&self, x: usize) -> (r: FadeAmplitude)
        requires
            self.wf(),
            self.first_bin() <= x <= self.last_bin(),
        ensures
            r == self.amplitude_at(x as int),
    {
        match (self.fade_out_start, self.fade_in_start) {
            (Some(o), _) if x <= o.bin_end => {
                return FadeAmplitude::FadeOutStart {
                    counter: x - o.bin_start,
                    count: o.bin_end + 1 - o.bin_start,
                };
            },
            (Some(_), Some(i)) if x <= i.bin_end => {
                return FadeAmplitude::FadeInStart {
                    counter: x - i.bin_start,
                    count: i.bin_end + 1 - i.bin_start,
                };
            },
            _ => {},
        }
        match (self.fade_out_end, self.fade_in_end) {
            (Some(o), _) if o.bin_start <= x && x <= o.bin_end => FadeAmplitude::FadeOutEnd {
                counter: x - o.bin_start,
                count: o.bin_end + 1 - o.bin_start,
            },
            (Some(_), Some(i)) if i.bin_start <= x => FadeAmplitude::FadeInEnd {
                counter: x - i.bin_start,
                count: i.bin_end + 1 - i.bin_start,
            },
            _ => FadeAmplitude::Full,
        }
    }

    /// The weight of every bin of the run and of the fades around it, in bin order.
    pub fn bin_amplitudes(&self) -> (r: Vec<BinAmplitude>)
        requires
            self.wf(),
        ensures
            r@ == self.amplitudes(),
    {
        let mut bin_amplitudes: Vec<BinAmplitude> = Vec::new();
        let ghost s = self.amplitudes();
        assert(bin_amplitudes@ =~= s.take(0));
        let mut middle_start_bin = self.part_bins.bin_start;
        if let Some(fos) = self.fade_out_start {
            // 0 -> 0.5
            self.push_range(&mut bin_amplitudes, fos.bin_start, fos.bin_end);
            middle_start_bin = fos.bin_end + 1;
            if let Some(fis) = self.fade_in_start {
                // 0.5 -> 1
                self.push_range(&mut bin_amplitudes, fis.bin_start, fis.bin_end);
                middle_start_bin = fis.bin_end + 1;
            }
        }
        match self.fade_out_end {
            Some(foe) => {
                // 1, then 1 -> 0.5
                self.push_range(&mut bin_amplitudes, middle_start_bin, foe.bin_end);
                if let Some(fie) = self.fade_in_end {
                    // 0.5 -> 0
                    self.push_range(&mut bin_amplitudes, fie.bin_start, fie.bin_end);
                }
            },
            None => {
                self.push_range(&mut bin_amplitudes, middle_start_bin, self.part_bins.bin_end);
            },
        }
        assert(bin_amplitudes@ =~= s);
        bin_amplitudes
    }
}


/// Every bin of `run` is assigned to the run's part.
#[verifier::opaque]
pub open spec fn run_holds(a: Seq<usize>, run: FadeBoundariesPart) -> bool {
    forall|x: int| run.part_bins.bin_start <= x <= run.part_bins.bin_end ==> #[trigger] a[x] == run.part
}

/// `runs` are the maximal runs of `a`: they cover its bins in order, each
/// holds one part, neighbouring runs hold different parts, and no run has fades yet.
pub open spec fn is_run_decomposition(a: Seq<usize>, runs: Seq<FadeBoundariesPart>) -> bool {
    &&& (a.len() == 0 <==> runs.len() == 0)
    &&& a.len() > 0 ==> runs[0].part_bins.bin_start == 0 && runs.last().part_bins.bin_end == a.len()
        - 1
    &&& forall|j: int|
        0 <= j < runs.len() ==> {
            &&& (#[trigger] runs[j]).part_bins.bin_start <= runs[j].part_bins.bin_end
            &&& runs[j].fade_out_start is None
            &&& runs[j].fade_in_start is None
            &&& runs[j].fade_out_end is None
            &&& runs[j].fade_in_end is None
            &&& run_holds(a, runs[j])
        }
    &&& forall|i: int, j: int|
        #![trigger runs[i], runs[j]]
        0 <= i && j == i + 1 && j < runs.len() ==> {
            &&& runs[j].part_bins.bin_start == runs[i].part_bins.bin_end + 1
            &&& runs[j].part != runs[i].part
        }
}

/// Later runs end later.
pub proof fn lemma_run_ends_ordered(a: Seq<usize>, runs: Seq<FadeBoundariesPart>, i: int, j: int)
    requires
        is_run_decomposition(a, runs),
        0 <= i <= j < runs.len(),
    ensures
        runs[i].part_bins.bin_end <= runs[j].part_bins.bin_end,
        i < j ==> runs[i].part_bins.bin_end < runs[j].part_bins.bin_start,
    decreases j - i,
{
    assert(runs[i].part_bins.bin_start <= runs[i].part_bins.bin_end);
    if i < j {
        lemma_run_ends_ordered(a, runs, i, j - 1);
        assert(runs[j].part_bins.bin_start == runs[j - 1].part_bins.bin_end + 1);
        assert(runs[j].part_bins.bin_start <= runs[j].part_bins.bin_end);
        assert(runs[j - 1].part_bins.bin_start <= runs[j - 1].part_bins.bin_end);
    }
}

/// Every run ends inside the assignment.
pub proof fn lemma_run_in_range(a: Seq<usize>, runs: Seq<FadeBoundariesPart>, j: int)
    requires
        is_run_decomposition(a, runs),
        0 <= j < runs.len(),
    ensures
        runs[j].part_bins.bin_start <= runs[j].part_bins.bin_end < a.len(),
{
    lemma_run_ends_ordered(a, runs, j, runs.len() - 1);
}

/// Two run decompositions of `a` agree on their first `j + 1` runs.
proof fn lemma_runs_agree(a: Seq<usize>, r1: Seq<FadeBoundariesPart>, r2: Seq<FadeBoundariesPart>, j: int)
    requires
        is_run_decomposition(a, r1),
        is_run_decomposition(a, r2),
        0 <= j < r1.len(),
        j < r2.len(),
    ensures
        forall|i: int| 0 <= i <= j ==> #[trigger] r1[i] == r2[i],
    decreases j,
{
    reveal(run_holds);
    if j > 0 {
        lemma_runs_agree(a, r1, r2, j - 1);
        assert(r1[j - 1] == r2[j - 1]);
        assert(r1[j].part_bins.bin_start == r1[j - 1].part_bins.bin_end + 1);
        assert(r2[j].part_bins.bin_start == r2[j - 1].part_bins.bin_end + 1);
    }
    let s = r1[j].part_bins.bin_start;
    assert(r2[j].part_bins.bin_start == s);
    lemma_run_in_range(a, r1, j);
    lemma_run_in_range(a, r2, j);
    assert(r1[j].part == a[s as int]);
    assert(r2[j].part == a[s as int]);
    let e1 = r1[j].part_bins.bin_end;
    let e2 = r2[j].part_bins.bin_end;
    if e1 < e2 {
        assert(a[e1 + 1] == r2[j].part);
        if j + 1 < r1.len() {
            assert(r1[j + 1].part_bins.bin_start == e1 + 1);
            lemma_run_in_range(a, r1, j + 1);
            assert(r1[j + 1].part == a[e1 + 1]);
            assert(r1[j + 1].part != r1[j].part);
        } else {
            assert(r1.last().part_bins.bin_end == a.len() - 1);
        }
    }
    if e2 < e1 {
        assert(a[e2 + 1] == r1[j].part);
        if j + 1 < r2.len() {
            assert(r2[j + 1].part_bins.bin_start == e2 + 1);
            lemma_run_in_range(a, r2, j + 1);
            assert(r2[j + 1].part == a[e2 + 1]);
            assert(r2[j + 1].part != r2[j].part);
        } else {
            assert(r2.last().part_bins.bin_end == a.len() - 1);
        }
    }
    assert(r1[j] == r2[j]);
}

/// An assignment has only one run decomposition. So the crossfaded parts
/// depend on nothing but the assignment and the fade widths of its runs: the
/// number of parts passed along plays no part.
pub proof fn lemma_run_decomposition_unique(
    a: Seq<usize>,
    r1: Seq<FadeBoundariesPart>,
    r2: Seq<FadeBoundariesPart>,
)
    requires
        is_run_decomposition(a, r1),
        is_run_decomposition(a, r2),
    ensures
        r1 == r2,
{
    if r1.len() > 0 && r2.len() > 0 {
        let m = if r1.len() < r2.len() {
            r1.len()
        } else {
            r2.len()
        };
        lemma_runs_agree(a, r1, r2, m - 1);
        if r1.len() < r2.len() {
            lemma_run_in_range(a, r2, m as int);
            assert(r2[m as int].part_bins.bin_start == r2[m - 1].part_bins.bin_end + 1);
            assert(r2[m - 1] == r1[m - 1]);
        }
        if r2.len() < r1.len() {
            lemma_run_in_range(a, r1, m as int);
            assert(r1[m as int].part_bins.bin_start == r1[m - 1].part_bins.bin_end + 1);
            assert(r1[m - 1] == r2[m - 1]);
        }
        assert(r1 =~= r2);
    } else {
        assert(r1 =~= r2);
    }
}

/// The fade regions of run `j` of `runs`, run `i` fading over `ks[i]` bins at each end.
pub open spec fn fade_part(runs: Seq<FadeBoundariesPart>, ks: Seq<usize>, j: int) -> FadeBoundariesPart {
    let pb = runs[j].part_bins;
    let k = ks[j];
    FadeBoundariesPart {
        part: runs[j].part,
        part_bins: pb,
        fade_out_start: if j > 0 && ks[j - 1] > 0 {
            Some(
                BinBoundaries {
                    bin_start: (runs[j - 1].part_bins.bin_end + 1 - ks[j - 1]) as usize,
                    bin_end: runs[j - 1].part_bins.bin_end,
                },
            )
        } else {
            None
        },
        fade_in_start: if j > 0 && k > 0 {
            Some(BinBoundaries { bin_start: pb.bin_start, bin_end: (pb.bin_start + k - 1) as usize })
        } else {
            None
        },
        fade_out_end: if j + 1 < runs.len() && k > 0 {
            Some(BinBoundaries { bin_start: (pb.bin_end + 1 - k) as usize, bin_end: pb.bin_end })
        } else {
            None
        },
        fade_in_end: if j + 1 < runs.len() && ks[j + 1] > 0 {
            Some(
                BinBoundaries {
                    bin_start: runs[j + 1].part_bins.bin_start,
                    bin_end: (runs[j + 1].part_bins.bin_start + ks[j + 1] - 1) as usize,
                },
            )
        } else {
            None
        },
    }
}

/// Every run fades over at most half of its bins.
pub open spec fn fade_widths_fit(runs: Seq<FadeBoundariesPart>, ks: Seq<usize>) -> bool {
    &&& ks.len() == runs.len()
    &&& forall|j: int| 0 <= j < runs.len() ==> 2 * #[trigger] ks[j] <= runs[j].part_bins.count()
}

/// The runs with their fade regions.
pub open spec fn fade_parts(runs: Seq<FadeBoundariesPart>, ks: Seq<usize>) -> Seq<FadeBoundariesPart> {
    Seq::new(runs.len(), |j: int| fade_part(runs, ks, j))
}

/// `ks` are widths that `fade_width` gives for the runs.
pub open spec fn widths_given_by<F: Fn(usize) -> usize>(
    runs: Seq<FadeBoundariesPart>,
    ks: Seq<usize>,
    fade_width: F,
) -> bool {
    &&& ks.len() == runs.len()
    &&& forall|j: int|
        0 <= j < ks.len() ==> fade_width.ensures(
            (runs[j].part_bins.count() as usize,),
            #[trigger] ks[j],
        )
}

/// Without a crossfade, when no run fades over any bin, every run keeps
/// exactly its own bins, each with weight one: the split is hard.
pub proof fn lemma_no_fade_is_hard_split(runs: Seq<FadeBoundariesPart>, ks: Seq<usize>, j: int)
    requires
        ks.len() == runs.len(),
        forall|i: int| 0 <= i < ks.len() ==> #[trigger] ks[i] == 0,
        0 <= j < runs.len(),
        runs[j].part_bins.bin_start <= runs[j].part_bins.bin_end,
    ensures
        fade_part(runs, ks, j).part == runs[j].part,
        fade_part(runs, ks, j).amplitudes() == Seq::new(
            runs[j].part_bins.count() as nat,
            |i: int|
                BinAmplitude {
                    bin: (runs[j].part_bins.bin_start + i) as usize,
                    amplitude: FadeAmplitude::Full,
                },
        ),
{
    let f = fade_part(runs, ks, j);
    assert(ks[j] == 0);
    if j > 0 {
        assert(ks[j - 1] == 0);
    }
    if j + 1 < runs.len() {
        assert(ks[j + 1] == 0);
    }
    assert(f.amplitudes() =~= Seq::new(
        runs[j].part_bins.count() as nat,
        |i: int|
            BinAmplitude {
                bin: (runs[j].part_bins.bin_start + i) as usize,
                amplitude: FadeAmplitude::Full,
            },
    ));
}

/// With fitting widths, the fade regions of a run lie where they should.
pub proof fn lemma_fade_part_wf(a: Seq<usize>, runs: Seq<FadeBoundariesPart>, ks: Seq<usize>, j: int)
    requires
        a.len() < usize::MAX,
        is_run_decomposition(a, runs),
        fade_widths_fit(runs, ks),
        0 <= j < runs.len(),
    ensures
        fade_part(runs, ks, j).wf(),
{
    lemma_run_in_range(a, runs, j);
    if j > 0 {
        assert(runs[j].part_bins.bin_start == runs[j - 1].part_bins.bin_end + 1);
        assert(2 * ks[j - 1] <= runs[j - 1].part_bins.count());
        lemma_run_in_range(a, runs, j - 1);
    }
    if j + 1 < runs.len() {
        assert(runs[j + 1].part_bins.bin_start == runs[j].part_bins.bin_end + 1);
        assert(2 * ks[j + 1] <= runs[j + 1].part_bins.count());
        lemma_run_in_range(a, runs, j + 1);
    }
    assert(2 * ks[j] <= runs[j].part_bins.count());
}

/// Along a run's weighted bins, a fade moves evenly: two neighbouring bins in
/// the same fade region differ in weight by exactly one step of
/// `1 / (2 width)`, rising over the starts and falling over the ends; where the
/// previous run's fading end meets this run's start the weight passes 1/2,
/// and so it does where this run's end meets the next run's start.
pub proof fn lemma_run_fades_step_evenly(
    a: Seq<usize>,
    runs: Seq<FadeBoundariesPart>,
    ks: Seq<usize>,
    j: int,
    x: int,
)
    requires
        a.len() < usize::MAX,
        is_run_decomposition(a, runs),
        fade_widths_fit(runs, ks),
        0 <= j < runs.len(),
        fade_part(runs, ks, j).first_bin() <= x,
        x + 1 <= fade_part(runs, ks, j).last_bin(),
    ensures
        ({
            let f = fade_part(runs, ks, j);
            let w0 = f.amplitude_at(x);
            let w1 = f.amplitude_at(x + 1);
            &&& (w0 is FadeOutStart && w1 is FadeOutStart) ==> w1.denominator() == w0.denominator()
                > 0 && w1.numerator() == w0.numerator() + 1
            &&& (w0 is FadeInStart && w1 is FadeInStart) ==> w1.denominator() == w0.denominator()
                > 0 && w1.numerator() == w0.numerator() + 1
            &&& (w0 is FadeOutEnd && w1 is FadeOutEnd) ==> w1.denominator() == w0.denominator()
                > 0 && w1.numerator() == w0.numerator() - 1
            &&& (w0 is FadeInEnd && w1 is FadeInEnd) ==> w1.denominator() == w0.denominator() > 0
                && w1.numerator() == w0.numerator() - 1
            &&& (w0 is FadeOutStart && w1 is FadeInStart) ==> 2 * (w0.numerator() + 1)
                == w0.denominator() && 2 * w1.numerator() == w1.denominator()
            &&& (w0 is FadeOutEnd && w1 is FadeInEnd) ==> 2 * (w0.numerator() - 1) == w0.denominator()
                && 2 * w1.numerator() == w1.denominator()
        }),
{
    lemma_fade_part_wf(a, runs, ks, j);
    let f = fade_part(runs, ks, j);
    let w0 = f.amplitude_at(x);
    let w1 = f.amplitude_at(x + 1);
    match w0 {
        FadeAmplitude::FadeOutStart { counter, count } => {
            lemma_fade_weights_linear(counter, count);
        },
        FadeAmplitude::FadeInStart { counter, count } => {
            lemma_fade_weights_linear(counter, count);
        },
        FadeAmplitude::FadeOutEnd { counter, count } => {
            lemma_fade_weights_linear(counter, count);
        },
        FadeAmplitude::FadeInEnd { counter, count } => {
            lemma_fade_weights_linear(counter, count);
        },
        FadeAmplitude::Full => {},
    }
    match w1 {
        FadeAmplitude::FadeOutStart { counter, count } => {
            lemma_fade_weights_linear(counter, count);
        },
        FadeAmplitude::FadeInStart { counter, count } => {
            lemma_fade_weights_linear(counter, count);
        },
        FadeAmplitude::FadeOutEnd { counter, count } => {
            lemma_fade_weights_linear(counter, count);
        },
        FadeAmplitude::FadeInEnd { counter, count } => {
            lemma_fade_weights_linear(counter, count);
        },
        FadeAmplitude::Full => {},
    }
}

/// A run that holds in a prefix of `a` holds in a longer prefix.
proof fn lemma_run_holds_longer(a: Seq<usize>, i: int, run: FadeBoundariesPart)
    requires
        0 <= i < a.len(),
        a.len() <= usize::MAX,
        run_holds(a.take(i), run),
        run.part_bins.bin_end < i,
    ensures
        run_holds(a.take(i + 1), run),
{
    reveal(run_holds);
    let p = a.take(i);
    let q = a.take(i + 1);
    assert forall|x: int| run.part_bins.bin_start <= x <= run.part_bins.bin_end implies #[trigger] q[x]
        == run.part by {
        assert(p[x] == run.part);
    }
}

/// A run that holds in a prefix of `a` and is the same part as bin `i` holds up to bin `i`.
proof fn lemma_run_holds_extended(a: Seq<usize>, i: int, run: FadeBoundariesPart)
    requires
        0 <= i < a.len(),
        a.len() <= usize::MAX,
        run_holds(a.take(i), run),
        run.part_bins.bin_end == i - 1,
        run.part == a[i],
    ensures
        run_holds(
            a.take(i + 1),
            FadeBoundariesPart {
                part_bins: BinBoundaries { bin_start: run.part_bins.bin_start, bin_end: i as usize },
                ..run
            },
        ),
{
    reveal(run_holds);
    let p = a.take(i);
    let q = a.take(i + 1);
    assert forall|x: int| run.part_bins.bin_start <= x <= i implies #[trigger] q[x] == run.part by {
        if x < i {
            assert(p[x] == run.part);
        }
    }
}

/// The run decomposition of `a` grows with one more bin.
proof fn lemma_runs_extend(a: Seq<usize>, i: int, runs: Seq<FadeBoundariesPart>, new_runs: Seq<
    FadeBoundariesPart,
>)
    requires
        0 <= i < a.len(),
        a.len() <= usize::MAX,
        is_run_decomposition(a.take(i), runs),
        runs.len() > 0,
        runs.last().part == a[i],
        new_runs == runs.update(
            runs.len() - 1,
            FadeBoundariesPart {
                part_bins: BinBoundaries { bin_start: runs.last().part_bins.bin_start, bin_end: i as usize },
                ..runs.last()
            },
        ),
    ensures
        is_run_decomposition(a.take(i + 1), new_runs),
{
    let p = a.take(i);
    let q = a.take(i + 1);
    let last = runs.len() - 1;
    assert(p.len() == i);
    lemma_run_holds_extended(a, i, runs[last]);
    assert forall|j: int| 0 <= j < new_runs.len() implies {
        &&& (#[trigger] new_runs[j]).part_bins.bin_start <= new_runs[j].part_bins.bin_end
        &&& new_runs[j].fade_out_start is None
        &&& new_runs[j].fade_in_start is None
        &&& new_runs[j].fade_out_end is None
        &&& new_runs[j].fade_in_end is None
        &&& run_holds(q, new_runs[j])
    } by {
        lemma_run_in_range(p, runs, j);
        if j < last {
            lemma_run_holds_longer(a, i, runs[j]);
        }
    }
}

/// The run decomposition of `a` grows with one more bin, which starts a new run.
proof fn lemma_runs_push(a: Seq<usize>, i: int, runs: Seq<FadeBoundariesPart>, new_runs: Seq<
    FadeBoundariesPart,
>)
    requires
        0 <= i < a.len(),
        a.len() <= usize::MAX,
        is_run_decomposition(a.take(i), runs),
        runs.len() == 0 || runs.last().part != a[i],
        new_runs == runs.push(
            FadeBoundariesPart {
                part: a[i],
                part_bins: BinBoundaries { bin_start: i as usize, bin_end: i as usize },
                fade_out_start: None,
                fade_in_start: None,
                fade_out_end: None,
                fade_in_end: None,
            },
        ),
    ensures
        is_run_decomposition(a.take(i + 1), new_runs),
{
    let p = a.take(i);
    let q = a.take(i + 1);
    assert(p.len() == i);
    assert forall|j: int| 0 <= j < new_runs.len() implies {
        &&& (#[trigger] new_runs[j]).part_bins.bin_start <= new_runs[j].part_bins.bin_end
        &&& new_runs[j].fade_out_start is None
        &&& new_runs[j].fade_in_start is None
        &&& new_runs[j].fade_out_end is None
        &&& new_runs[j].fade_in_end is None
        &&& run_holds(q, new_runs[j])
    } by {
        if j < runs.len() {
            lemma_run_in_range(p, runs, j);
            lemma_run_holds_longer(a, i, runs[j]);
        } else {
            reveal(run_holds);
            assert(q[i] == a[i]);
        }
    }
    if runs.len() > 0 {
        lemma_run_in_range(p, runs, runs.len() - 1);
    }
}

impl FadeBoundariesPart {
    /// The fade regions of run `index`, run `i` fading over `widths[i]` bins.
    fn with_fades(runs: &Vec<FadeBoundariesPart>, widths: &Vec<usize>, index: usize) -> (r:
        FadeBoundariesPart)
        requires
            exists|a: Seq<usize>| a.len() < usize::MAX && is_run_decomposition(a, runs@),
            fade_widths_fit(runs@, widths@),
            index < runs@.len(),
        ensures
            r == fade_part(runs@, widths@, index as int),
    {
        let ghost a = choose|a: Seq<usize>| a.len() < usize::MAX && is_run_decomposition(a, runs@);
        let m = runs.len();
        proof {
            lemma_run_in_range(a, runs@, index as int);
            if index > 0 {
                lemma_run_in_range(a, runs@, index - 1);
                assert(runs@[index as int].part_bins.bin_start == runs@[index - 1].part_bins.bin_end + 1);
                assert(2 * widths@[index - 1] <= runs@[index - 1].part_bins.count());
            }
            if index + 1 < m {
                lemma_run_in_range(a, runs@, index + 1);
                assert(runs@[index + 1].part_bins.bin_start == runs@[index as int].part_bins.bin_end + 1);
                assert(2 * widths@[index + 1] <= runs@[index + 1].part_bins.count());
            }
            assert(2 * widths@[index as int] <= runs@[index as int].part_bins.count());
        }
        let k = widths[index];
        let mut fade_boundaries_part = runs[index];
        if index > 0 {
            // The end of the previous run fades into this one, and this run's start fades in.
            let prev = runs[index - 1].part_bins;
            let prev_width = widths[index - 1];
            if prev_width > 0 {
                fade_boundaries_part.fade_out_start = Some(
                    BinBoundaries { bin_start: prev.bin_from_end(prev_width), bin_end: prev.bin_end },
                );
            }
            if k > 0 {
                let pb = fade_boundaries_part.part_bins;
                fade_boundaries_part.fade_in_start = Some(
                    BinBoundaries { bin_start: pb.bin_start, bin_end: pb.bin_from_start(k) },
                );
            }
        }
        if index + 1 < m {
            // This run's end fades out, and the start of the next run fades from it.
            let next = runs[index + 1].part_bins;
            let next_width = widths[index + 1];
            if next_width > 0 {
                fade_boundaries_part.fade_in_end = Some(
                    BinBoundaries { bin_start: next.bin_start, bin_end: next.bin_from_start(next_width) },
                );
            }
            if k > 0 {
                let pb = fade_boundaries_part.part_bins;
                fade_boundaries_part.fade_out_end = Some(
                    BinBoundaries { bin_start: pb.bin_from_end(k), bin_end: pb.bin_end },
                );
            }
        }
        fade_boundaries_part
    }
}

impl<S, B> AudioProcessor<S, B> {
    /// Applies a crossfade to a hard distribution, creating smooth transitions between parts.
    ///
    /// The assignment is cut into maximal runs of one part. `fade_width(n)`
    /// tells how many bins at each end of a run of `n` bins fade into the
    /// neighbouring run (for a crossfade factor `f`, the whole part of
    /// `n * f`). Returns, run by run, the part and the weights of its bins and
    /// of the neighbouring bins it shares.
    pub fn apply_crossfade_to_distribution<F: Fn(usize) -> usize>(
        hard_assignments: Vec<usize>,
        fade_width: F,
        _num_parts: usize,
    ) -> (r: Vec<PartBinAmplitudes>)
        requires
            hard_assignments.len() < usize::MAX,
            forall|n: usize| fade_width.requires((n,)),
            forall|n: usize, k: usize| fade_width.ensures((n,), k) ==> 2 * k <= n,
        ensures
            exists|runs: Seq<FadeBoundariesPart>, ks: Seq<usize>|
                {
                    &&& #[trigger] is_run_decomposition(hard_assignments@, runs)
                    &&& #[trigger] widths_given_by(runs, ks, fade_width)
                    &&& r@.len() == runs.len()
                    &&& forall|j: int|
                        0 <= j < r@.len() ==> {
                            &&& (#[trigger] r@[j]).part == runs[j].part
                            &&& r@[j].bin_amplitudes@ == fade_part(runs, ks, j).amplitudes()
                        }
                },
    {
        let ghost a = hard_assignments@;
        let n = hard_assignments.len();
        let mut runs: Vec<FadeBoundariesPart> = Vec::new();
        let mut bin_idx: usize = 0;
        while bin_idx < n
            invariant
                n == hard_assignments.len(),
                a == hard_assignments@,
                bin_idx <= n,
                is_run_decomposition(a.take(bin_idx as int), runs@),
            decreases n - bin_idx,
        {
            let part_idx = hard_assignments[bin_idx];
            let len = runs.len();
            let ghost old_runs = runs@;
            if len > 0 && runs[len - 1].part == part_idx {
                let mut last = runs[len - 1];
                last.part_bins.bin_end = bin_idx;
                runs.set(len - 1, last);
                proof {
                    lemma_runs_extend(a, bin_idx as int, old_runs, runs@);
                }
            } else {
                runs.push(
                    FadeBoundariesPart {
                        part: part_idx,
                        part_bins: BinBoundaries { bin_start: bin_idx, bin_end: bin_idx },
                        fade_out_start: None,
                        fade_in_start: None,
                        fade_out_end: None,
                        fade_in_end: None,
                    },
                );
                proof {
                    lemma_runs_push(a, bin_idx as int, old_runs, runs@);
                }
            }
            bin_idx = bin_idx + 1;
        }
        proof {
            assert(a.take(n as int) =~= a);
        }
        let ghost hr = runs@;
        let m = runs.len();
        // The fade width of every run, asked once.
        let mut widths: Vec<usize> = Vec::new();
        let mut j: usize = 0;
        while j < m
            invariant
                runs@ == hr,
                m == hr.len(),
                is_run_decomposition(a, hr),
                n == a.len(),
                n < usize::MAX,
                j <= m,
                widths@.len() == j,
                forall|n: usize| fade_width.requires((n,)),
                forall|n: usize, k: usize| fade_width.ensures((n,), k) ==> 2 * k <= n,
                forall|i: int|
                    0 <= i < j ==> fade_width.ensures(
                        (hr[i].part_bins.count() as usize,),
                        #[trigger] widths@[i],
                    ),
                forall|i: int| 0 <= i < j ==> 2 * #[trigger] widths@[i] <= hr[i].part_bins.count(),
            decreases m - j,
        {
            proof {
                lemma_run_in_range(a, hr, j as int);
            }
            let count = runs[j].bin_count();
            let k = fade_width(count);
            widths.push(k);
            j = j + 1;
        }
        let ghost ks = widths@;
        assert(fade_widths_fit(hr, ks));
        assert(widths_given_by(hr, ks, fade_width));
        let mut result: Vec<PartBinAmplitudes> = Vec::new();
        let mut index: usize = 0;
        while index < m
            invariant
                runs@ == hr,
                widths@ == ks,
                m == hr.len(),
                is_run_decomposition(a, hr),
                fade_widths_fit(hr, ks),
                n == a.len(),
                n < usize::MAX,
                index <= m,
                result@.len() == index,
                forall|i: int|
                    0 <= i < index ==> {
                        &&& (#[trigger] result@[i]).part == hr[i].part
                        &&& result@[i].bin_amplitudes@ == fade_part(hr, ks, i).amplitudes()
                    },
            decreases m - index,
        {
            let fade_boundaries_part = FadeBoundariesPart::with_fades(&runs, &widths, index);
            proof {
                lemma_fade_part_wf(a, hr, ks, index as int);
            }
            result.push(
                PartBinAmplitudes {
                    part: fade_boundaries_part.part,
                    bin_amplitudes: fade_boundaries_part.bin_amplitudes(),
                },
            );
            index = index + 1;
        }
        result
    }
}

} // verus!
