//! Local-maximum detection, done by the `find_peaks` crate.
//!
//! The detector takes a sequence of integer heights, a floor and a spacing,
//! and hands back the runs of bins it regards as peaks. Its choice among
//! peaks that crowd each other is its own; what this module states of it is
//! what every span it returns has in common.

use vstd::prelude::*;

verus! {

/// The largest height, in either direction, that the detector is given.
pub const HEIGHT_BOUND: i64 = 0x8000_0000;

/// A run of bins `start..end` that the detector regards as one peak.
#[derive(Debug, Clone, Copy, PartialEq, Eq, Structural)]
pub struct Span {
    pub start: usize,
    pub end: usize,
}

impl Span {
    /// The bin in the middle of the run; of the two middle bins of a run of
    /// even length, the later.
    pub open spec fn middle(self) -> int {
        (self.start + self.end) / 2
    }

    /// Computes the middle bin of the run.
    pub fn middle_position(&self) -> (m: usize)
        ensures
            m == self.middle(),
    {
        if self.start <= self.end {
            self.start + (self.end - self.start) / 2
        } else {
            self.end + (self.start - self.end) / 2
        }
    }
}

/// Whether `span` is a summit of `data`: a level run inside the data, with
/// no higher bin before it and a lower bin right after it.
pub open spec fn is_summit(data: Seq<i64>, span: Span) -> bool {
    &&& 0 < span.start < span.end < data.len()
    &&& forall|i: int| span.start <= i < span.end ==> #[trigger] data[i] == data[span.start as int]
    &&& data[span.start - 1] <= data[span.start as int]
    &&& data[span.end as int] < data[span.start as int]
}

/// Whether `span` is a run as the detector reports it: a summit that
/// starts where the detector begins to follow a level run, which is at bin
/// 1, behind a rise, or one bin behind a descent.
pub open spec fn is_reported(data: Seq<i64>, span: Span) -> bool {
    &&& is_summit(data, span)
    &&& (span.start == 1 || data[span.start - 1] < data[span.start as int] || data[span.start
        - 2] > data[span.start - 1])
}

/// The distance between the middle bins of two spans.
pub open spec fn apart(a: Span, b: Span) -> int {
    if a.middle() <= b.middle() {
        b.middle() - a.middle()
    } else {
        a.middle() - b.middle()
    }
}

/// Whether a span of `spans` at least as high as `span` has its middle
/// nearer than `spacing` to the middle of `span`.
pub open spec fn is_crowded(data: Seq<i64>, spacing: usize, spans: Seq<Span>, span: Span) -> bool {
    exists|k: int|
        0 <= k < spans.len() && data[(#[trigger] spans[k]).start as int]
            >= data[span.start as int] && apart(spans[k], span) < spacing
}

/// What holds of every detection.
///
/// Each span is a reported run at least as high as the floor. No two spans
/// share a bin, and the middles of any two are `spacing` or more apart.
/// Heights never rise along the sequence. And no run is passed over: a
/// reported run that reaches the floor is among the spans unless one of
/// them, at least as high, crowds it out.
pub open spec fn is_detection(data: Seq<i64>, floor: i64, spacing: usize, spans: Seq<Span>) -> bool {
    &&& forall|k: int|
        0 <= k < spans.len() ==> is_reported(data, #[trigger] spans[k])
            && data[spans[k].start as int] >= floor
    &&& forall|k: int, l: int|
        0 <= k < spans.len() && 0 <= l < spans.len() && k != l ==> {
            &&& (#[trigger] spans[k]).end <= (#[trigger] spans[l]).start || spans[l].end
                <= spans[k].start
            &&& apart(spans[k], spans[l]) >= spacing
        }
    &&& forall|k: int, l: int|
        0 <= k <= l < spans.len() ==> data[(#[trigger] spans[k]).start as int]
            >= data[(#[trigger] spans[l]).start as int]
    &&& forall|span: Span|
        #[trigger] is_reported(data, span) && data[span.start as int] >= floor
            ==> spans.contains(span) || is_crowded(data, spacing, spans, span)
}

/// The spans that the detector returns for `data`, keeping peaks of height
/// `floor` or more that lie `spacing` or more bins apart.
pub uninterp spec fn detected_spans(data: Seq<i64>, floor: i64, spacing: usize) -> Seq<Span>;

/// Runs `find_peaks::PeakFinder::find_peaks` on `data` with `floor` as the
/// minimum height and `spacing` as the minimum distance, and hands back the
/// position of each peak found.
///
/// Nothing of this is proved. The contract claims that the outcome depends
/// on the three arguments alone, and that it is a detection in the sense of
/// `is_detection`. The finder walks the data once and reports a run of
/// equal heights when the run ends in a descent and the bin before the run
/// is not higher than the run; of a level stretch that a descent led into
/// it reports the part from the second bin on. It drops the runs lower
/// than the minimum height, sorts the rest from the highest down, and then
/// keeps a run only if its middle is the minimum distance or more away
/// from the middle of every run kept before it. The heights are bounded so
/// that the differences the finder takes of them cannot overflow.
#[verifier::external_body]
pub(crate) fn detect(data: &Vec<i64>, floor: i64, spacing: usize) -> (spans: Vec<Span>)
    requires
        forall|i: int| 0 <= i < data.len() ==> -HEIGHT_BOUND < #[trigger] data[i] < HEIGHT_BOUND,
    ensures
        spans@ == detected_spans(data@, floor, spacing),
        is_detection(data@, floor, spacing, spans@),
{
    find_peaks::PeakFinder::new(data.as_slice())
        .with_min_height(floor)
        .with_min_distance(spacing)
        .find_peaks()
        .iter()
        .map(|p| Span { start: p.position.start, end: p.position.end })
        .collect()
}

} // verus!
