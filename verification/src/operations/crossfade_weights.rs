//! What a crossfade promises: at every bin, the weights of all runs add up to one.

use vstd::prelude::*;

use crate::operations::crossfade::{
    fade_part, fade_widths_fit, is_run_decomposition, lemma_fade_part_wf, lemma_run_ends_ordered,
    lemma_run_in_range, BinAmplitude, FadeAmplitude, FadeBoundariesPart,
};

verus! {

/// The weights that the list `es` gives bin `b`, in list order.
#[verifier::opaque]
pub open spec fn weights_in(es: Seq<BinAmplitude>, b: int) -> Seq<FadeAmplitude>
    decreases es.len(),
{
    if es.len() == 0 {
        Seq::empty()
    } else {
        weights_in(es.drop_last(), b) + if es.last().bin == b {
            seq![es.last().amplitude]
        } else {
            Seq::empty()
        }
    }
}

/// The weights that all the lists give bin `b`, list after list.
#[verifier::opaque]
pub open spec fn weights_at(lists: Seq<Seq<BinAmplitude>>, b: int) -> Seq<FadeAmplitude>
    decreases lists.len(),
{
    if lists.len() == 0 {
        Seq::empty()
    } else {
        weights_at(lists.drop_last(), b) + weights_in(lists.last(), b)
    }
}

/// The sum of the weights, as a fraction `(numerator, denominator)`.
#[verifier::opaque]
pub open spec fn weight_sum(w: Seq<FadeAmplitude>) -> (int, int)
    decreases w.len(),
{
    if w.len() == 0 {
        (0, 1)
    } else {
        let (n, d) = weight_sum(w.drop_last());
        (n * w.last().denominator() + w.last().numerator() * d, d * w.last().denominator())
    }
}

/// The weighted bin lists of all runs, with their fades.
pub open spec fn fade_lists(runs: Seq<FadeBoundariesPart>, ks: Seq<usize>) -> Seq<Seq<BinAmplitude>> {
    Seq::new(runs.len(), |j: int| fade_part(runs, ks, j).amplitudes())
}

/// A list of bins that runs from `lo` up, one bin after the other, gives bin `b`
/// its entry there, and nothing else.
proof fn lemma_weights_in_contiguous(es: Seq<BinAmplitude>, lo: int, b: int)
    requires
        forall|i: int| 0 <= i < es.len() ==> (#[trigger] es[i]).bin == lo + i,
    ensures
        weights_in(es, b) == if lo <= b < lo + es.len() {
            seq![es[b - lo].amplitude]
        } else {
            Seq::<FadeAmplitude>::empty()
        },
    decreases es.len(),
{
    reveal(weights_in);
    if es.len() > 0 {
        let p = es.drop_last();
        assert forall|i: int| 0 <= i < p.len() implies (#[trigger] p[i]).bin == lo + i by {
            assert(p[i] == es[i]);
        }
        lemma_weights_in_contiguous(p, lo, b);
        assert(es.last().bin == lo + es.len() - 1);
        if lo <= b < lo + p.len() {
            assert(p[b - lo] == es[b - lo]);
        }
        assert(weights_in(es, b) =~= if lo <= b < lo + es.len() {
            seq![es[b - lo].amplitude]
        } else {
            Seq::<FadeAmplitude>::empty()
        });
    }
}

/// The weights a run's list gives bin `b`: its weight there when `b` lies
/// between the run's first and last weighted bins, else none.
proof fn lemma_weights_in_part(f: FadeBoundariesPart, b: int)
    requires
        f.wf(),
    ensures
        weights_in(f.amplitudes(), b) == if f.first_bin() <= b <= f.last_bin() {
            seq![f.amplitude_at(b)]
        } else {
            Seq::<FadeAmplitude>::empty()
        },
{
    let es = f.amplitudes();
    assert forall|i: int| 0 <= i < es.len() implies (#[trigger] es[i]).bin == f.first_bin() + i by {}
    lemma_weights_in_contiguous(es, f.first_bin(), b);
}

/// The run that holds bin `b`.
proof fn lemma_owner(a: Seq<usize>, runs: Seq<FadeBoundariesPart>, b: int, j: int) -> (o: int)
    requires
        is_run_decomposition(a, runs),
        0 <= b < a.len(),
        0 <= j < runs.len(),
        runs[j].part_bins.bin_end >= b,
    ensures
        0 <= o <= j,
        runs[o].part_bins.bin_start <= b <= runs[o].part_bins.bin_end,
    decreases j,
{
    if runs[j].part_bins.bin_start <= b {
        j
    } else {
        assert(j > 0);
        assert(runs[j].part_bins.bin_start == runs[j - 1].part_bins.bin_end + 1) by {
            assert(runs[j - 1] == runs[j - 1] && runs[j] == runs[j]);
        }
        lemma_owner(a, runs, b, j - 1)
    }
}

/// Neighbouring runs touch.
proof fn lemma_adjacent(a: Seq<usize>, runs: Seq<FadeBoundariesPart>, j: int)
    requires
        is_run_decomposition(a, runs),
        0 < j < runs.len(),
    ensures
        runs[j].part_bins.bin_start == runs[j - 1].part_bins.bin_end + 1,
        runs[j - 1].part_bins.bin_start <= runs[j - 1].part_bins.bin_end,
        runs[j].part_bins.bin_start <= runs[j].part_bins.bin_end,
{
    assert(runs[j - 1] == runs[j - 1] && runs[j] == runs[j]);
}

/// The first and last weighted bins of run `j`.
proof fn lemma_part_span(a: Seq<usize>, runs: Seq<FadeBoundariesPart>, ks: Seq<usize>, j: int)
    requires
        a.len() < usize::MAX,
        is_run_decomposition(a, runs),
        fade_widths_fit(runs, ks),
        0 <= j < runs.len(),
    ensures
        fade_part(runs, ks, j).wf(),
        fade_part(runs, ks, j).first_bin() == if j > 0 && ks[j - 1] > 0 {
            runs[j - 1].part_bins.bin_end + 1 - ks[j - 1]
        } else {
            runs[j].part_bins.bin_start as int
        },
        fade_part(runs, ks, j).last_bin() == if j + 1 < runs.len() && ks[j] > 0 && ks[j + 1] > 0 {
            runs[j + 1].part_bins.bin_start + ks[j + 1] - 1
        } else {
            runs[j].part_bins.bin_end as int
        },
        runs[j].part_bins.bin_start <= runs[j].part_bins.bin_end < a.len(),
        2 * ks[j] <= runs[j].part_bins.count(),
        j > 0 ==> runs[j - 1].part_bins.bin_end + 1 - ks[j - 1] >= runs[j - 1].part_bins.bin_start,
        j + 1 < runs.len() ==> runs[j + 1].part_bins.bin_start + ks[j + 1] - 1
            <= runs[j + 1].part_bins.bin_end,
{
    lemma_fade_part_wf(a, runs, ks, j);
    lemma_run_in_range(a, runs, j);
    assert(2 * ks[j] <= runs[j].part_bins.count());
    if j > 0 {
        lemma_adjacent(a, runs, j);
        lemma_run_in_range(a, runs, j - 1);
        assert(2 * ks[j - 1] <= runs[j - 1].part_bins.count());
    }
    if j + 1 < runs.len() {
        lemma_adjacent(a, runs, j + 1);
        lemma_run_in_range(a, runs, j + 1);
        assert(2 * ks[j + 1] <= runs[j + 1].part_bins.count());
    }
}

/// Runs away from the owner of bin `b` give it no weight.
proof fn lemma_far_runs(
    a: Seq<usize>,
    runs: Seq<FadeBoundariesPart>,
    ks: Seq<usize>,
    b: int,
    o: int,
    j: int,
)
    requires
        a.len() < usize::MAX,
        is_run_decomposition(a, runs),
        fade_widths_fit(runs, ks),
        0 <= o < runs.len(),
        runs[o].part_bins.bin_start <= b <= runs[o].part_bins.bin_end,
        0 <= j < runs.len(),
        j < o - 1 || j > o + 1,
    ensures
        weights_in(fade_lists(runs, ks)[j], b) == Seq::<FadeAmplitude>::empty(),
{
    let f = fade_part(runs, ks, j);
    lemma_part_span(a, runs, ks, j);
    lemma_weights_in_part(f, b);
    if j < o - 1 {
        lemma_run_ends_ordered(a, runs, j + 1, o - 1);
        lemma_adjacent(a, runs, o);
        assert(f.last_bin() < b);
    } else {
        lemma_run_ends_ordered(a, runs, o, j - 1);
        lemma_run_in_range(a, runs, j - 1);
        assert(f.first_bin() > b);
    }
}

/// Taking one more list adds that list's weights.
proof fn lemma_weights_at_take(lists: Seq<Seq<BinAmplitude>>, b: int, t: int)
    requires
        0 < t <= lists.len(),
    ensures
        weights_at(lists.take(t), b) == weights_at(lists.take(t - 1), b) + weights_in(lists[t - 1], b),
{
    reveal(weights_at);
    assert(lists.take(t).drop_last() =~= lists.take(t - 1));
}

/// Lists that give bin `b` nothing leave the weights unchanged.
proof fn lemma_weights_at_skip(lists: Seq<Seq<BinAmplitude>>, b: int, t1: int, t2: int)
    requires
        0 <= t1 <= t2 <= lists.len(),
        forall|j: int| t1 <= j < t2 ==> weights_in(#[trigger] lists[j], b) == Seq::<FadeAmplitude>::empty(),
    ensures
        weights_at(lists.take(t2), b) == weights_at(lists.take(t1), b),
    decreases t2 - t1,
{
    if t1 < t2 {
        lemma_weights_at_skip(lists, b, t1, t2 - 1);
        lemma_weights_at_take(lists, b, t2);
        assert(weights_in(lists[t2 - 1], b) == Seq::<FadeAmplitude>::empty());
        assert(weights_at(lists.take(t2 - 1), b) + Seq::<FadeAmplitude>::empty() =~= weights_at(
            lists.take(t2 - 1),
            b,
        ));
    }
}

/// Two weights over one denominator whose numerators fill it add up to one.
proof fn lemma_pair_sum(x: FadeAmplitude, y: FadeAmplitude)
    requires
        x.denominator() == y.denominator(),
        x.denominator() > 0,
        x.numerator() + y.numerator() == x.denominator(),
    ensures
        weight_sum(seq![x, y]).0 == weight_sum(seq![x, y]).1,
        weight_sum(seq![x, y]).1 > 0,
{
    reveal(weight_sum);
    let w = seq![x, y];
    let w1 = seq![x];
    assert(w.len() == 2 && w.last() == y);
    assert(w.drop_last() =~= w1);
    assert(w1.len() == 1 && w1.last() == x);
    assert(w1.drop_last() =~= Seq::<FadeAmplitude>::empty());
    assert(weight_sum(Seq::<FadeAmplitude>::empty()) == (0int, 1int));
    let d = x.denominator();
    let nx = x.numerator();
    let ny = y.numerator();
    assert(weight_sum(w1) == (0 * d + nx * 1, 1 * d));
    assert(weight_sum(w1) == (nx, d));
    assert(weight_sum(w) == (nx * d + ny * d, d * d));
    assert(nx * d + ny * d == d * d && d * d > 0) by (nonlinear_arith)
        requires
            nx + ny == d,
            d > 0,
    ;
}

/// A single weight of one sums to one.
proof fn lemma_single_full_sum()
    ensures
        weight_sum(seq![FadeAmplitude::Full]).0 == weight_sum(seq![FadeAmplitude::Full]).1,
        weight_sum(seq![FadeAmplitude::Full]).1 > 0,
{
    reveal(weight_sum);
    let w1 = seq![FadeAmplitude::Full];
    assert(w1.len() == 1 && w1.last() == FadeAmplitude::Full);
    assert(w1.drop_last() =~= Seq::<FadeAmplitude>::empty());
    assert(weight_sum(Seq::<FadeAmplitude>::empty()) == (0int, 1int));
}

/// The weights that the runs next to run `o`, and `o` itself, give bin `b`.
pub open spec fn neighbour_weights(runs: Seq<FadeBoundariesPart>, ks: Seq<usize>, b: int, o: int) -> (
    Seq<FadeAmplitude>,
    Seq<FadeAmplitude>,
    Seq<FadeAmplitude>,
) {
    let lists = fade_lists(runs, ks);
    (
        if o > 0 {
            weights_in(lists[o - 1], b)
        } else {
            Seq::empty()
        },
        weights_in(lists[o], b),
        if o + 1 < runs.len() {
            weights_in(lists[o + 1], b)
        } else {
            Seq::empty()
        },
    )
}

/// Only the owner of bin `b` and its two neighbours give it weight.
proof fn lemma_weights_around_owner(
    a: Seq<usize>,
    runs: Seq<FadeBoundariesPart>,
    ks: Seq<usize>,
    b: int,
    o: int,
)
    requires
        a.len() < usize::MAX,
        is_run_decomposition(a, runs),
        fade_widths_fit(runs, ks),
        0 <= o < runs.len(),
        runs[o].part_bins.bin_start <= b <= runs[o].part_bins.bin_end,
    ensures
        ({
            let (wp, wo, wn) = neighbour_weights(runs, ks, b, o);
            weights_at(fade_lists(runs, ks), b) == wp + wo + wn
        }),
{
    let m = runs.len() as int;
    let lists = fade_lists(runs, ks);
    let (wp, wo, wn) = neighbour_weights(runs, ks, b, o);
    let lo = if o > 0 { o - 1 } else { 0 };
    let hi = if o + 1 < m { o + 2 } else { m };
    assert forall|j: int| 0 <= j < lo implies weights_in(#[trigger] lists[j], b)
        == Seq::<FadeAmplitude>::empty() by {
        lemma_far_runs(a, runs, ks, b, o, j);
    }
    assert forall|j: int| hi <= j < m implies weights_in(#[trigger] lists[j], b)
        == Seq::<FadeAmplitude>::empty() by {
        lemma_far_runs(a, runs, ks, b, o, j);
    }
    lemma_weights_at_skip(lists, b, 0, lo);
    lemma_weights_at_skip(lists, b, hi, m);
    assert(lists.take(0) =~= Seq::<Seq<BinAmplitude>>::empty());
    assert(lists.take(m) =~= lists);
    reveal(weights_at);
    if o > 0 {
        lemma_weights_at_take(lists, b, o);
    }
    lemma_weights_at_take(lists, b, o + 1);
    if o + 1 < m {
        lemma_weights_at_take(lists, b, o + 2);
    }
    assert(weights_at(lists, b) =~= wp + wo + wn);
}

/// Inside the fade at the start of run `o`, the previous run and `o` share bin `b`.
proof fn lemma_head_weights(a: Seq<usize>, runs: Seq<FadeBoundariesPart>, ks: Seq<usize>, b: int, o: int)
    requires
        a.len() < usize::MAX,
        is_run_decomposition(a, runs),
        fade_widths_fit(runs, ks),
        0 < o < runs.len(),
        ks[o - 1] > 0,
        ks[o] > 0,
        runs[o].part_bins.bin_start <= b < runs[o].part_bins.bin_start + ks[o],
    ensures
        ({
            let (wp, wo, wn) = neighbour_weights(runs, ks, b, o);
            let c = (b - runs[o].part_bins.bin_start) as usize;
            &&& wp == seq![FadeAmplitude::FadeInEnd { counter: c, count: ks[o] }]
            &&& wo == seq![FadeAmplitude::FadeInStart { counter: c, count: ks[o] }]
            &&& wn == Seq::<FadeAmplitude>::empty()
        }),
{
    let m = runs.len() as int;
    lemma_part_span(a, runs, ks, o);
    lemma_weights_in_part(fade_part(runs, ks, o), b);
    lemma_part_span(a, runs, ks, o - 1);
    lemma_adjacent(a, runs, o);
    lemma_weights_in_part(fade_part(runs, ks, o - 1), b);
    if o + 1 < m {
        lemma_part_span(a, runs, ks, o + 1);
        lemma_adjacent(a, runs, o + 1);
        lemma_weights_in_part(fade_part(runs, ks, o + 1), b);
    }
}

/// Inside the fade at the end of run `o`, `o` and the next run share bin `b`.
proof fn lemma_tail_weights(a: Seq<usize>, runs: Seq<FadeBoundariesPart>, ks: Seq<usize>, b: int, o: int)
    requires
        a.len() < usize::MAX,
        is_run_decomposition(a, runs),
        fade_widths_fit(runs, ks),
        0 <= o,
        o + 1 < runs.len(),
        ks[o] > 0,
        runs[o].part_bins.bin_end + 1 - ks[o] <= b <= runs[o].part_bins.bin_end,
    ensures
        ({
            let (wp, wo, wn) = neighbour_weights(runs, ks, b, o);
            let c = (b - (runs[o].part_bins.bin_end + 1 - ks[o])) as usize;
            &&& wp == Seq::<FadeAmplitude>::empty()
            &&& wo == seq![FadeAmplitude::FadeOutEnd { counter: c, count: ks[o] }]
            &&& wn == seq![FadeAmplitude::FadeOutStart { counter: c, count: ks[o] }]
        }),
{
    lemma_part_span(a, runs, ks, o);
    lemma_weights_in_part(fade_part(runs, ks, o), b);
    lemma_part_span(a, runs, ks, o + 1);
    lemma_adjacent(a, runs, o + 1);
    lemma_weights_in_part(fade_part(runs, ks, o + 1), b);
    if o > 0 {
        lemma_part_span(a, runs, ks, o - 1);
        lemma_adjacent(a, runs, o);
        lemma_weights_in_part(fade_part(runs, ks, o - 1), b);
    }
}

/// Away from the fades, run `o` alone gives bin `b` weight one.
proof fn lemma_inner_weights(a: Seq<usize>, runs: Seq<FadeBoundariesPart>, ks: Seq<usize>, b: int, o: int)
    requires
        a.len() < usize::MAX,
        is_run_decomposition(a, runs),
        fade_widths_fit(runs, ks),
        0 <= o < runs.len(),
        runs[o].part_bins.bin_start <= b <= runs[o].part_bins.bin_end,
        !(o > 0 && ks[o - 1] > 0 && ks[o] > 0 && b < runs[o].part_bins.bin_start + ks[o]),
        !(o + 1 < runs.len() && ks[o] > 0 && b > runs[o].part_bins.bin_end - ks[o]),
    ensures
        ({
            let (wp, wo, wn) = neighbour_weights(runs, ks, b, o);
            &&& wp == Seq::<FadeAmplitude>::empty()
            &&& wo == seq![FadeAmplitude::Full]
            &&& wn == Seq::<FadeAmplitude>::empty()
        }),
{
    let m = runs.len() as int;
    lemma_part_span(a, runs, ks, o);
    lemma_weights_in_part(fade_part(runs, ks, o), b);
    if o > 0 {
        lemma_part_span(a, runs, ks, o - 1);
        lemma_adjacent(a, runs, o);
        lemma_weights_in_part(fade_part(runs, ks, o - 1), b);
    }
    if o + 1 < m {
        lemma_part_span(a, runs, ks, o + 1);
        lemma_adjacent(a, runs, o + 1);
        lemma_weights_in_part(fade_part(runs, ks, o + 1), b);
    }
}

/// The weights of the runs of a hard assignment add up to one at every bin:
/// a bin that no fade reaches keeps weight one in its own run, and a bin in a
/// fade is shared by two neighbouring runs whose weights fill one denominator.
pub proof fn lemma_crossfade_weights_sum_to_one(
    a: Seq<usize>,
    runs: Seq<FadeBoundariesPart>,
    ks: Seq<usize>,
    b: int,
)
    requires
        a.len() < usize::MAX,
        is_run_decomposition(a, runs),
        fade_widths_fit(runs, ks),
        0 <= b < a.len(),
    ensures
        weight_sum(weights_at(fade_lists(runs, ks), b)).0 == weight_sum(
            weights_at(fade_lists(runs, ks), b),
        ).1,
        weight_sum(weights_at(fade_lists(runs, ks), b)).1 > 0,
{
    let m = runs.len() as int;
    let o = lemma_owner(a, runs, b, m - 1);
    lemma_sum_at_owner(a, runs, ks, b, o);
}

/// The weights at bin `b` of run `o` add up to one.
proof fn lemma_sum_at_owner(a: Seq<usize>, runs: Seq<FadeBoundariesPart>, ks: Seq<usize>, b: int, o: int)
    requires
        a.len() < usize::MAX,
        is_run_decomposition(a, runs),
        fade_widths_fit(runs, ks),
        0 <= o < runs.len(),
        runs[o].part_bins.bin_start <= b <= runs[o].part_bins.bin_end,
    ensures
        weight_sum(weights_at(fade_lists(runs, ks), b)).0 == weight_sum(
            weights_at(fade_lists(runs, ks), b),
        ).1,
        weight_sum(weights_at(fade_lists(runs, ks), b)).1 > 0,
{
    let m = runs.len() as int;
    lemma_weights_around_owner(a, runs, ks, b, o);
    let w = weights_at(fade_lists(runs, ks), b);
    let (wp, wo, wn) = neighbour_weights(runs, ks, b, o);
    assert(w == wp + wo + wn);
    let k = ks[o];
    let s = runs[o].part_bins.bin_start as int;
    let e = runs[o].part_bins.bin_end as int;
    if o > 0 && ks[o - 1] > 0 && k > 0 && b < s + k {
        lemma_head_weights(a, runs, ks, b, o);
        let c = (b - s) as usize;
        let x = FadeAmplitude::FadeInEnd { counter: c, count: k };
        let y = FadeAmplitude::FadeInStart { counter: c, count: k };
        assert(w =~= seq![x, y]);
        lemma_pair_sum(x, y);
    } else if o + 1 < m && k > 0 && b > e - k {
        lemma_tail_weights(a, runs, ks, b, o);
        let c = (b - (e + 1 - k)) as usize;
        let x = FadeAmplitude::FadeOutEnd { counter: c, count: k };
        let y = FadeAmplitude::FadeOutStart { counter: c, count: k };
        assert(w =~= seq![x, y]);
        lemma_pair_sum(x, y);
    } else {
        lemma_inner_weights(a, runs, ks, b, o);
        assert(w =~= seq![FadeAmplitude::Full]);
        lemma_single_full_sum();
    }
}

} // verus!
