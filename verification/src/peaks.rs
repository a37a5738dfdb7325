//! The analysis: from a power spectrum to ranked peak bins.
//!
//! The peaks of the energy sequence are detected, those in the upper half
//! of the energy sequence are dropped, and the rest are ranked from the
//! tallest down. Since the energy sequence is itself the lower half of the
//! spectrum, every ranked bin lies in the lowest quarter of the spectrum.
//!
//! A peak counts only if its energy is strictly above the height
//! threshold, and two ranked peaks are never nearer to each other than the
//! minimum distance. Equally tall peaks are ranked in the order in which
//! the detector reports them. A minimum distance as long as the energy
//! sequence or longer leaves room for no peak, and the ranking is empty.

use vstd::prelude::*;
use vstd::arithmetic::power2::is_pow2;
use crate::detect::{
    apart,
    detect,
    detected_spans,
    is_crowded,
    is_detection,
    is_reported,
    is_summit,
    Span,
};
use crate::energy::{energy, energy_of, extract_energy};
use crate::error::PeakError;
use crate::length::is_power_of_two;
use crate::level::{is_nan, is_nan_bits, level, level_of};
use crate::rank::{
    below,
    eligible,
    lemma_eligible_no_duplicates,
    lemma_ranking_has_all,
    lemma_ranking_members,
    lemma_ranking_no_duplicates,
    rank_candidates,
    ranking,
    Candidate,
};

verus! {

/// The ranked peaks of one spectrum: the bins, tallest peak first, and
/// beside each bin the energy found there, as a bit pattern.
#[derive(Debug)]
pub struct Ranking {
    pub bins: Vec<usize>,
    pub heights: Vec<u32>,
}

/// Why a request is refused, if it is: a spectrum whose length is no power
/// of two first, then a threshold that is no number or below zero.
pub open spec fn refusal(power: Seq<u32>, min_height: u32) -> Option<PeakError> {
    if !is_pow2(power.len() as int) {
        Some(PeakError::InvalidLength)
    } else if is_nan(min_height) || level(min_height) < 0 {
        Some(PeakError::DegenerateParameters)
    } else {
        None
    }
}

/// The lowest level that is strictly above the threshold.
pub open spec fn floor_above(min_height: u32) -> i64 {
    (level(min_height) + 1) as i64
}

/// The candidate that a span of the energy sequence `e` stands for.
pub open spec fn candidate_of(e: Seq<i64>, span: Span) -> Candidate {
    Candidate { height: e[span.start as int], bin: span.middle() as usize }
}

/// The candidates that a sequence of spans stands for, one for one.
pub open spec fn candidates_of(e: Seq<i64>, spans: Seq<Span>) -> Seq<Candidate> {
    Seq::new(spans.len(), |k: int| candidate_of(e, spans[k]))
}

/// The bins of a sequence of candidates, one for one.
pub open spec fn bins_of(r: Seq<Candidate>) -> Seq<usize> {
    Seq::new(r.len(), |k: int| r[k].bin)
}

/// The ranked bins of a spectrum: the peaks detected in its energy
/// sequence above the threshold, those in the lower half of that sequence
/// ranked by height; none where the minimum distance is as long as the
/// energy sequence.
pub open spec fn ranked_bins(power: Seq<u32>, min_height: u32, min_distance: usize) -> Seq<usize> {
    let e = energy(power);
    if min_distance >= e.len() {
        Seq::empty()
    } else {
        let spans = detected_spans(e, floor_above(min_height), min_distance);
        bins_of(ranking(eligible(candidates_of(e, spans), (e.len() / 2) as usize)))
    }
}

/// Each bin written twice in a row.
pub open spec fn paired(bins: Seq<usize>) -> Seq<usize> {
    Seq::new(2 * bins.len(), |i: int| bins[i / 2])
}

/// The energy patterns found at the given bins.
pub open spec fn heights_at(power: Seq<u32>, bins: Seq<usize>) -> Seq<u32> {
    Seq::new(bins.len(), |k: int| power[bins[k] as int])
}

/// The number of bins from one bin to another.
pub open spec fn gap(a: usize, b: usize) -> int {
    if a <= b {
        b - a
    } else {
        a - b
    }
}

/// Every bin lies in the lowest quarter of a spectrum of `n` bins.
pub open spec fn in_lowest_quarter(n: nat, bins: Seq<usize>) -> bool {
    forall|k: int| 0 <= k < bins.len() ==> #[trigger] bins[k] < n / 4
}

/// Every bin holds a number, and one strictly above the threshold.
pub open spec fn above_threshold(power: Seq<u32>, min_height: u32, bins: Seq<usize>) -> bool {
    forall|k: int|
        0 <= k < bins.len() ==> {
            &&& #[trigger] bins[k] < power.len()
            &&& !is_nan(power[bins[k] as int])
            &&& level(power[bins[k] as int]) > level(min_height)
        }
}

/// The energy never rises from one bin of the sequence to a later one.
pub open spec fn heights_descend(power: Seq<u32>, bins: Seq<usize>) -> bool {
    forall|k: int, l: int|
        0 <= k <= l < bins.len() ==> level(power[#[trigger] bins[k] as int]) >= level(
            power[#[trigger] bins[l] as int],
        )
}

/// No bin is ranked twice, and any two ranked bins are `min_distance` or
/// more apart.
pub open spec fn spaced(min_distance: usize, bins: Seq<usize>) -> bool {
    forall|k: int, l: int|
        0 <= k < bins.len() && 0 <= l < bins.len() && k != l ==> #[trigger] bins[k]
            != #[trigger] bins[l] && gap(bins[k], bins[l]) >= min_distance
}

/// `spaced`, of a sequence that holds each bin twice in a row: what stands
/// in different pairs differs, by `min_distance` or more.
pub open spec fn pairs_spaced(min_distance: usize, out: Seq<usize>) -> bool {
    forall|i: int, j: int|
        0 <= i < out.len() && 0 <= j < out.len() && i / 2 != j / 2 ==> #[trigger] out[i]
            != #[trigger] out[j] && gap(out[i], out[j]) >= min_distance
}

/// Every bin is a local maximum of the energy sequence: it has a bin on
/// either side, and neither holds more energy.
pub open spec fn on_local_maxima(power: Seq<u32>, bins: Seq<usize>) -> bool {
    forall|k: int|
        0 <= k < bins.len() ==> {
            let b = #[trigger] bins[k] as int;
            &&& 0 < b && b + 1 < power.len() / 2
            &&& energy_of(power[b - 1]) <= energy_of(power[b])
            &&& energy_of(power[b + 1]) <= energy_of(power[b])
        }
}

/// Whether no bin of the energy sequence holds energy above the threshold.
pub open spec fn nothing_above(power: Seq<u32>, min_height: u32) -> bool {
    forall|i: int| 0 <= i < power.len() / 2 ==> energy_of(#[trigger] power[i]) <= level(min_height)
}

/// Whether another run of the energy sequence `e`, at least as high as
/// `span`, has its middle nearer than `min_distance` to the middle of
/// `span`.
pub open spec fn has_rival(e: Seq<i64>, min_distance: usize, span: Span) -> bool {
    exists|other: Span|
        #[trigger] is_reported(e, other) && other != span && e[other.start as int]
            >= e[span.start as int] && apart(other, span) < min_distance
}

/// No peak is passed over: the middle of every run of the energy sequence
/// that is above the threshold and in the lower half of that sequence is
/// among `bins`, unless the run has a rival.
pub open spec fn complete(
    power: Seq<u32>,
    min_height: u32,
    min_distance: usize,
    bins: Seq<usize>,
) -> bool {
    forall|span: Span|
        #[trigger] is_reported(energy(power), span) && energy(power)[span.start as int] > level(
            min_height,
        ) && span.middle() < energy(power).len() / 2 ==> bins.contains(span.middle() as usize)
            || has_rival(energy(power), min_distance, span)
}

/// What the detector's facts say of one candidate: it sits on a local
/// maximum of `e`, has the height found there, and reaches the floor.
pub open spec fn sound(e: Seq<i64>, floor: i64, c: Candidate) -> bool {
    &&& 0 < c.bin && c.bin + 1 < e.len()
    &&& e[c.bin as int] == c.height
    &&& c.height >= floor
    &&& e[c.bin - 1] <= c.height
    &&& e[c.bin + 1] <= c.height
}

/// The candidate of a summit is sound, and its bin lies within the summit.
pub proof fn lemma_summit_sound(e: Seq<i64>, floor: i64, span: Span)
    requires
        is_summit(e, span),
        e[span.start as int] >= floor,
    ensures
        sound(e, floor, candidate_of(e, span)),
        span.start <= candidate_of(e, span).bin < span.end,
        candidate_of(e, span).bin == span.middle(),
{
    let m = span.middle();
    assert(span.start <= m < span.end);
    assert(e[m] == e[span.start as int]);
    if m > span.start {
        assert(e[m - 1] == e[span.start as int]);
    }
    if m + 1 < span.end {
        assert(e[m + 1] == e[span.start as int]);
    }
}

/// Of the candidates of a detection, each is sound, no two sit in one
/// bin, and any two are `spacing` or more apart.
pub proof fn lemma_detection_candidates(e: Seq<i64>, floor: i64, spacing: usize, spans: Seq<Span>)
    requires
        is_detection(e, floor, spacing, spans),
    ensures
        forall|k: int|
            0 <= k < spans.len() ==> sound(e, floor, #[trigger] candidates_of(e, spans)[k]),
        forall|k: int, l: int|
            0 <= k < spans.len() && 0 <= l < spans.len() && k != l ==> (#[trigger] candidates_of(
                e,
                spans,
            )[k]).bin != (#[trigger] candidates_of(e, spans)[l]).bin && gap(
                candidates_of(e, spans)[k].bin,
                candidates_of(e, spans)[l].bin,
            ) >= spacing,
        candidates_of(e, spans).no_duplicates(),
{
    let cands = candidates_of(e, spans);
    assert forall|k: int| 0 <= k < spans.len() implies sound(e, floor, #[trigger] cands[k]) by {
        assert(is_reported(e, spans[k]));
        lemma_summit_sound(e, floor, spans[k]);
    }
    assert forall|k: int, l: int| 0 <= k < spans.len() && 0 <= l < spans.len() && k != l implies (
    #[trigger] cands[k]).bin != (#[trigger] cands[l]).bin && gap(cands[k].bin, cands[l].bin)
        >= spacing by {
        assert(is_reported(e, spans[k]));
        assert(is_reported(e, spans[l]));
        lemma_summit_sound(e, floor, spans[k]);
        lemma_summit_sound(e, floor, spans[l]);
        assert(spans[k].end <= spans[l].start || spans[l].end <= spans[k].start);
        assert(apart(spans[k], spans[l]) >= spacing);
    }
}

/// The ranking of a detection's candidates below `limit`.
pub open spec fn ranked_of(e: Seq<i64>, spans: Seq<Span>, limit: usize) -> Seq<Candidate> {
    ranking(eligible(candidates_of(e, spans), limit))
}

/// Of the ranked candidates of a detection, each is sound and sits below
/// the limit, no two sit in one bin, and any two are `spacing` or more
/// apart.
pub proof fn lemma_ranked_sound(
    e: Seq<i64>,
    floor: i64,
    spacing: usize,
    spans: Seq<Span>,
    limit: usize,
)
    requires
        is_detection(e, floor, spacing, spans),
    ensures
        forall|k: int|
            0 <= k < ranked_of(e, spans, limit).len() ==> sound(
                e,
                floor,
                #[trigger] ranked_of(e, spans, limit)[k],
            ) && ranked_of(e, spans, limit)[k].bin < limit,
        forall|k: int, l: int|
            0 <= k < ranked_of(e, spans, limit).len() && 0 <= l < ranked_of(e, spans, limit).len()
                && k != l ==> (#[trigger] ranked_of(e, spans, limit)[k]).bin != (
            #[trigger] ranked_of(e, spans, limit)[l]).bin && gap(
                ranked_of(e, spans, limit)[k].bin,
                ranked_of(e, spans, limit)[l].bin,
            ) >= spacing,
{
    let cands = candidates_of(e, spans);
    let kept = eligible(cands, limit);
    let ranked = ranked_of(e, spans, limit);
    lemma_detection_candidates(e, floor, spacing, spans);
    lemma_eligible_no_duplicates(cands, limit);
    lemma_ranking_no_duplicates(kept);
    lemma_ranking_members(kept);
    assert forall|k: int| 0 <= k < ranked.len() implies sound(e, floor, #[trigger] ranked[k])
        && ranked[k].bin < limit by {
        assert(kept.contains(ranked[k]));
        let i = choose|i: int| 0 <= i < kept.len() && kept[i] == ranked[k];
        cands.lemma_filter_pred(below(limit), i);
        cands.lemma_filter_contains_rev(below(limit), ranked[k]);
        let j = choose|j: int| 0 <= j < cands.len() && cands[j] == ranked[k];
        assert(sound(e, floor, cands[j]));
    }
    assert forall|k: int, l: int|
        0 <= k < ranked.len() && 0 <= l < ranked.len() && k != l implies (#[trigger] ranked[k]).bin
        != (#[trigger] ranked[l]).bin && gap(ranked[k].bin, ranked[l].bin) >= spacing by {
        assert(kept.contains(ranked[k]));
        assert(kept.contains(ranked[l]));
        cands.lemma_filter_contains_rev(below(limit), ranked[k]);
        cands.lemma_filter_contains_rev(below(limit), ranked[l]);
        let i = choose|i: int| 0 <= i < cands.len() && cands[i] == ranked[k];
        let j = choose|j: int| 0 <= j < cands.len() && cands[j] == ranked[l];
        assert(ranked[k] != ranked[l]);
        assert(cands[i].bin != cands[j].bin);
    }
}

/// The ranking of a detection passes no run over: the middle of every
/// reported run that reaches the floor and lies below the limit is the bin
/// of a ranked candidate, unless the run has a rival.
pub proof fn lemma_ranked_complete(
    e: Seq<i64>,
    floor: i64,
    spacing: usize,
    spans: Seq<Span>,
    limit: usize,
    span: Span,
)
    requires
        is_detection(e, floor, spacing, spans),
        is_reported(e, span),
        e[span.start as int] >= floor,
        span.middle() < limit,
    ensures
        bins_of(ranked_of(e, spans, limit)).contains(span.middle() as usize) || has_rival(
            e,
            spacing,
            span,
        ),
{
    let cands = candidates_of(e, spans);
    let kept = eligible(cands, limit);
    let ranked = ranked_of(e, spans, limit);
    if spans.contains(span) {
        let j = choose|j: int| 0 <= j < spans.len() && spans[j] == span;
        assert(cands[j] == candidate_of(e, span));
        lemma_summit_sound(e, floor, span);
        cands.lemma_filter_contains(below(limit), j);
        let i = choose|i: int| 0 <= i < kept.len() && kept[i] == cands[j];
        lemma_ranking_has_all(kept);
        assert(ranked.contains(kept[i]));
        let k = choose|k: int| 0 <= k < ranked.len() && ranked[k] == cands[j];
        assert(bins_of(ranked)[k] == span.middle() as usize);
    } else {
        assert(is_crowded(e, spacing, spans, span));
        let q = choose|q: int|
            0 <= q < spans.len() && e[(#[trigger] spans[q]).start as int] >= e[span.start as int]
                && apart(spans[q], span) < spacing;
        assert(is_reported(e, spans[q]));
        assert(spans.contains(spans[q]));
        assert(spans[q] != span);
    }
}

/// What the ranked bins have from sound candidates, said of the spectrum
/// itself.
pub proof fn lemma_bins_of_sound(
    power: Seq<u32>,
    min_height: u32,
    ranked: Seq<Candidate>,
    bins: Seq<usize>,
)
    requires
        !is_nan(min_height) && level(min_height) >= 0,
        bins == bins_of(ranked),
        crate::rank::descending(ranked),
        forall|k: int|
            0 <= k < ranked.len() ==> sound(
                energy(power),
                floor_above(min_height),
                #[trigger] ranked[k],
            ) && ranked[k].bin < energy(power).len() / 2,
    ensures
        in_lowest_quarter(power.len(), bins),
        above_threshold(power, min_height, bins),
        heights_descend(power, bins),
        on_local_maxima(power, bins),
        nothing_above(power, min_height) ==> bins.len() == 0,
{
    let e = energy(power);
    let floor = floor_above(min_height);
    assert forall|j: int| 0 <= j < bins.len() implies {
        &&& level(power[#[trigger] bins[j] as int]) == ranked[j].height
        &&& !is_nan(power[bins[j] as int])
        &&& bins[j] < e.len() / 2
        &&& 0 < bins[j] && bins[j] + 1 < e.len()
        &&& energy_of(power[bins[j] - 1]) <= energy_of(power[bins[j] as int])
        &&& energy_of(power[bins[j] + 1]) <= energy_of(power[bins[j] as int])
    } by {
        let b = bins[j] as int;
        assert(sound(e, floor, ranked[j]));
        assert(e[b - 1] == energy_of(power[b - 1]));
        assert(e[b] == energy_of(power[b]));
        assert(e[b + 1] == energy_of(power[b + 1]));
    }
    assert forall|i: int, j: int| 0 <= i <= j < bins.len() implies level(
        power[#[trigger] bins[i] as int],
    ) >= level(power[#[trigger] bins[j] as int]) by {
        assert(ranked[i].height >= ranked[j].height);
    }
    if nothing_above(power, min_height) && bins.len() > 0 {
        assert(level(power[bins[0] as int]) > level(min_height));
        assert(energy_of(power[bins[0] as int]) <= level(min_height));
    }
}

/// Writes each bin twice in a row, the form in which the ranked bins are
/// handed to callers that expect pairs.
pub fn encode_pairs(bins: &Vec<usize>) -> (out: Vec<usize>)
    ensures
        out@ == paired(bins@),
        out.len() == 2 * bins.len(),
        forall|i: int| 0 <= i < out.len() ==> #[trigger] out[i] == bins[i / 2],
{
    let mut out: Vec<usize> = Vec::new();
    let mut i: usize = 0;
    while i < bins.len()
        invariant
            i <= bins.len(),
            out.len() == 2 * i,
            forall|j: int| 0 <= j < out.len() ==> #[trigger] out[j] == bins[j / 2],
        decreases bins.len() - i,
    {
        out.push(bins[i]);
        out.push(bins[i]);
        i += 1;
    }
    assert(out@ =~= paired(bins@));
    out
}

/// Turns the spans of a detection into candidates: each gets the energy at
/// its start as its height and its middle as its bin.
pub fn candidates(e: &Vec<i64>, spans: &Vec<Span>) -> (cands: Vec<Candidate>)
    requires
        forall|k: int| 0 <= k < spans.len() ==> (#[trigger] spans[k]).start < e.len(),
    ensures
        cands@ == candidates_of(e@, spans@),
{
    let mut cands: Vec<Candidate> = Vec::new();
    let mut k: usize = 0;
    while k < spans.len()
        invariant
            k <= spans.len(),
            cands.len() == k,
            forall|j: int| 0 <= j < spans.len() ==> (#[trigger] spans[j]).start < e.len(),
            forall|j: int| 0 <= j < k ==> #[trigger] cands[j] == candidate_of(e@, spans[j]),
        decreases spans.len() - k,
    {
        let span: Span = spans[k];
        cands.push(Candidate { height: e[span.start], bin: span.middle_position() });
        k += 1;
    }
    assert(cands@ =~= candidates_of(e@, spans@));
    cands
}

/// Ranks the peaks of a power spectrum.
///
/// `power` holds the squared magnitude of every bin of the spectrum and
/// `min_height` the height threshold, both as bit patterns; `min_distance`
/// is the least number of bins between two ranked peaks.
///
/// The request is refused exactly as `refusal` says. Otherwise the ranked
/// bins are those of `ranked_bins`, and of them the contract states: they
/// lie in the lowest quarter of the spectrum, on local maxima of the
/// energy sequence, and hold numbers strictly above the threshold; the
/// energy never rises along the ranking; no bin is ranked twice and any
/// two keep the minimum distance; where no bin holds energy above the
/// threshold, and where the minimum distance is as long as the energy
/// sequence, none is ranked; and otherwise no peak is passed over.
pub fn rank_peaks(power: &Vec<u32>, min_height: u32, min_distance: usize) -> (r: Result<
    Ranking,
    PeakError,
>)
    ensures
        match r {
            Ok(found) => {
                &&& refusal(power@, min_height) is None
                &&& found.bins@ == ranked_bins(power@, min_height, min_distance)
                &&& found.heights@ == heights_at(power@, found.bins@)
                &&& in_lowest_quarter(power@.len(), found.bins@)
                &&& above_threshold(power@, min_height, found.bins@)
                &&& heights_descend(power@, found.bins@)
                &&& spaced(min_distance, found.bins@)
                &&& on_local_maxima(power@, found.bins@)
                &&& nothing_above(power@, min_height) ==> found.bins@.len() == 0
                &&& min_distance >= power@.len() / 2 ==> found.bins@.len() == 0
                &&& min_distance < power@.len() / 2 ==> complete(
                    power@,
                    min_height,
                    min_distance,
                    found.bins@,
                )
            },
            Err(e) => refusal(power@, min_height) == Some(e),
        },
{
    if !is_power_of_two(power.len()) {
        return Err(PeakError::InvalidLength);
    }
    let threshold: i64 = level_of(min_height);
    if is_nan_bits(min_height) || threshold < 0 {
        return Err(PeakError::DegenerateParameters);
    }
    if min_distance >= power.len() / 2 {
        let found = Ranking { bins: Vec::new(), heights: Vec::new() };
        assert(found.heights@ =~= heights_at(power@, found.bins@));
        return Ok(found);
    }
    let e: Vec<i64> = extract_energy(power);
    let floor: i64 = threshold + 1;
    let limit: usize = e.len() / 2;
    let spans: Vec<Span> = detect(&e, floor, min_distance);
    proof {
        assert forall|k: int| 0 <= k < spans.len() implies (#[trigger] spans[k]).start
            < e.len() by {
            assert(is_reported(e@, spans[k]));
        }
    }
    let cands: Vec<Candidate> = candidates(&e, &spans);
    let ranked: Vec<Candidate> = rank_candidates(&cands, limit);
    proof {
        assert(ranked@ == ranked_of(e@, spans@, limit));
        lemma_ranked_sound(e@, floor, min_distance, spans@, limit);
    }
    let mut bins: Vec<usize> = Vec::new();
    let mut heights: Vec<u32> = Vec::new();
    let mut k: usize = 0;
    while k < ranked.len()
        invariant
            k <= ranked.len(),
            bins.len() == k,
            heights.len() == k,
            e.len() == power.len() / 2,
            forall|j: int| 0 <= j < ranked.len() ==> sound(e@, floor, #[trigger] ranked[j]),
            forall|j: int| 0 <= j < k ==> #[trigger] bins[j] == ranked[j].bin,
            forall|j: int| 0 <= j < k ==> #[trigger] heights[j] == power[bins[j] as int],
        decreases ranked.len() - k,
    {
        let c: Candidate = ranked[k];
        assert(sound(e@, floor, ranked[k as int]));
        bins.push(c.bin);
        heights.push(power[c.bin]);
        k += 1;
    }
    proof {
        assert(bins@ =~= bins_of(ranked@));
        assert(heights@ =~= heights_at(power@, bins@));
        lemma_bins_of_sound(power@, min_height, ranked@, bins@);
        assert(spaced(min_distance, bins@)) by {
            assert forall|i: int, j: int|
                0 <= i < bins.len() && 0 <= j < bins.len() && i != j implies #[trigger] bins[i]
                != #[trigger] bins[j] && gap(bins[i], bins[j]) >= min_distance by {
                assert(ranked[i].bin != ranked[j].bin);
            }
        }
        assert(complete(power@, min_height, min_distance, bins@)) by {
            assert forall|span: Span|
                #[trigger] is_reported(e@, span) && e@[span.start as int] > level(min_height)
                    && span.middle() < e@.len() / 2 implies bins@.contains(span.middle() as usize)
                || has_rival(e@, min_distance, span) by {
                lemma_ranked_complete(e@, floor, min_distance, spans@, limit, span);
            }
        }
    }
    Ok(Ranking { bins, heights })
}

/// Finds the peaks of a power spectrum and hands back their bins, ranked
/// from the tallest down and each written twice in a row.
///
/// The request is refused exactly as `refusal` says. Otherwise the result
/// is `ranked_bins` in pairs, and everything that `rank_peaks` states of
/// the ranked bins holds of the paired sequence as well.
pub fn find_interval_peaks(power: &Vec<u32>, min_height: u32, min_distance: usize) -> (r: Result<
    Vec<usize>,
    PeakError,
>)
    ensures
        match r {
            Ok(out) => {
                &&& refusal(power@, min_height) is None
                &&& out@ == paired(ranked_bins(power@, min_height, min_distance))
                &&& out.len() % 2 == 0
                &&& forall|i: int|
                    0 <= i < out.len() && i % 2 == 0 ==> #[trigger] out[i] == out[i + 1]
                &&& in_lowest_quarter(power@.len(), out@)
                &&& above_threshold(power@, min_height, out@)
                &&& heights_descend(power@, out@)
                &&& pairs_spaced(min_distance, out@)
                &&& on_local_maxima(power@, out@)
                &&& nothing_above(power@, min_height) ==> out@.len() == 0
                &&& min_distance >= power@.len() / 2 ==> out@.len() == 0
                &&& min_distance < power@.len() / 2 ==> complete(
                    power@,
                    min_height,
                    min_distance,
                    out@,
                )
            },
            Err(e) => refusal(power@, min_height) == Some(e),
        },
{
    match rank_peaks(power, min_height, min_distance) {
        Ok(found) => {
            let out: Vec<usize> = encode_pairs(&found.bins);
            proof {
                let bins = found.bins@;
                assert forall|i: int| 0 <= i < out.len() implies #[trigger] out[i] == bins[i / 2]
                    && 0 <= i / 2 < bins.len() by {}
                assert(heights_descend(power@, out@)) by {
                    assert forall|k: int, l: int| 0 <= k <= l < out.len() implies level(
                        power[#[trigger] out[k] as int],
                    ) >= level(power[#[trigger] out[l] as int]) by {
                        assert(out[k] == bins[k / 2]);
                        assert(out[l] == bins[l / 2]);
                        assert(k / 2 <= l / 2);
                    }
                }
                assert(pairs_spaced(min_distance, out@)) by {
                    assert forall|i: int, j: int|
                        0 <= i < out.len() && 0 <= j < out.len() && i / 2 != j
                            / 2 implies #[trigger] out[i] != #[trigger] out[j] && gap(
                        out[i],
                        out[j],
                    ) >= min_distance by {
                        assert(out[i] == bins[i / 2]);
                        assert(out[j] == bins[j / 2]);
                    }
                }
                assert(in_lowest_quarter(power@.len(), out@));
                assert(above_threshold(power@, min_height, out@)) by {
                    assert forall|k: int| 0 <= k < out.len() implies {
                        &&& #[trigger] out[k] < power@.len()
                        &&& !is_nan(power@[out[k] as int])
                        &&& level(power@[out[k] as int]) > level(min_height)
                    } by {
                        assert(out[k] == bins[k / 2]);
                    }
                }
                assert(on_local_maxima(power@, out@)) by {
                    assert forall|j: int| 0 <= j < out.len() implies {
                        let b = #[trigger] out[j] as int;
                        &&& 0 < b && b + 1 < power@.len() / 2
                        &&& energy_of(power@[b - 1]) <= energy_of(power@[b])
                        &&& energy_of(power@[b + 1]) <= energy_of(power@[b])
                    } by {
                        assert(out[j] == bins[j / 2]);
                    }
                }
                assert forall|i: int| 0 <= i < out.len() && i % 2 == 0 implies #[trigger] out[i]
                    == out[i + 1] by {
                    assert(out[i + 1] == bins[(i + 1) / 2]);
                }
                if min_distance < power@.len() / 2 {
                    assert forall|span: Span|
                        #[trigger] is_reported(energy(power@), span) && energy(
                            power@,
                        )[span.start as int] > level(min_height) && span.middle() < energy(
                            power@,
                        ).len() / 2 implies out@.contains(span.middle() as usize) || has_rival(
                        energy(power@),
                        min_distance,
                        span,
                    ) by {
                        if bins.contains(span.middle() as usize) {
                            let k = choose|k: int|
                                0 <= k < bins.len() && bins[k] == span.middle() as usize;
                            assert(out[2 * k] == bins[(2 * k) / 2]);
                        }
                    }
                }
            }
            Ok(out)
        },
        Err(e) => Err(e),
    }
}

} // verus!
