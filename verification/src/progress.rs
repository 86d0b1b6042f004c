use vstd::prelude::*;
use crate::date::{days_after, is_day};

verus! {

/// The bit pattern of the ease factor 2.5 that every card starts with
/// (`f64::to_bits(2.5)`).
pub const INITIAL_EASE_BITS: u64 = 0x4004_0000_0000_0000;

/// What is remembered of a card between sessions.
///
/// The ease factor is a floating-point number; the library carries it as its IEEE-754
/// bit pattern and never computes with it. Dates are day numbers (see `crate::date`).
#[derive(Clone, Copy, Debug, PartialEq, Eq, Structural)]
pub struct Progress {
    pub interval: u32,
    pub repetitions: u32,
    pub ease_factor_bits: u64,
    pub next_review: i32,
    pub last_review: Option<i32>,
}

/// The progress a card is given when it is rated for the first time.
pub open spec fn initial_progress(today: i32) -> Progress {
    Progress {
        interval: 1,
        repetitions: 0,
        ease_factor_bits: INITIAL_EASE_BITS,
        next_review: today,
        last_review: None,
    }
}

impl Progress {
    /// The progress of a card that has never been rated: due today.
    pub fn initial(today: i32) -> (p: Progress)
        ensures
            p == initial_progress(today),
            p.interval == 1,
            p.repetitions == 0,
            p.ease_factor_bits == INITIAL_EASE_BITS,
            p.next_review == today,
            p.last_review is None,
    {
        Progress {
            interval: 1,
            repetitions: 0,
            ease_factor_bits: INITIAL_EASE_BITS,
            next_review: today,
            last_review: None,
        }
    }
}

/// The repetition count after a review of the given quality: a failed review
/// (quality below 2) starts the count again.
pub open spec fn sm2_repetitions(p: Progress, quality: u8) -> int {
    if quality < 2 {
        0
    } else {
        p.repetitions + 1
    }
}

/// The new interval in days: 1 after a failure or a first success, 6 after a second
/// success, and from then on `grown_interval`, the old interval multiplied by the new
/// ease factor and rounded up.
pub open spec fn sm2_interval(p: Progress, quality: u8, grown_interval: u32) -> u32 {
    if quality < 2 {
        1
    } else if p.repetitions + 1 == 1 {
        1
    } else if p.repetitions + 1 == 2 {
        6
    } else {
        grown_interval
    }
}

/// The progress after one SM-2 review on day `today`.
pub open spec fn sm2_next(
    p: Progress,
    quality: u8,
    today: i32,
    ease_factor_bits: u64,
    grown_interval: u32,
) -> Progress {
    let interval = sm2_interval(p, quality, grown_interval);
    Progress {
        interval,
        repetitions: sm2_repetitions(p, quality) as u32,
        ease_factor_bits,
        next_review: (today + interval) as i32,
        last_review: Some(today),
    }
}

/// Whether a review of the given quality can be recorded without leaving the range
/// of the counters and of the calendar.
pub open spec fn sm2_can_update(p: Progress, quality: u8, today: i32, grown_interval: u32) -> bool {
    &&& quality >= 2 ==> p.repetitions < u32::MAX
    &&& is_day(today as int)
    &&& is_day(today + sm2_interval(p, quality, grown_interval))
}

/// What the floating-point half of a review gives for a card with a positive interval:
/// the old interval times an ease factor of at least 1.3, rounded up, is more than the
/// old interval (the calendar range keeps the product far below `u32::MAX`).
pub open spec fn interval_grows(p: Progress, grown_interval: u32) -> bool {
    p.interval >= 1 ==> grown_interval > p.interval
}

/// A review schedules the card ahead: when the card had a positive interval and the
/// grown interval is more than it, the new interval is at least 1 day, the next review
/// is after today, the review date is today, and from the third success in a row on
/// the interval grows.
pub proof fn lemma_review_schedules_ahead(
    p: Progress,
    quality: u8,
    today: i32,
    ease_factor_bits: u64,
    grown_interval: u32,
)
    requires
        p.interval >= 1,
        interval_grows(p, grown_interval),
        sm2_can_update(p, quality, today, grown_interval),
    ensures
        ({
            let next = sm2_next(p, quality, today, ease_factor_bits, grown_interval);
            &&& next.interval >= 1
            &&& next.next_review > today
            &&& next.last_review == Some(today)
            &&& quality >= 2 && p.repetitions >= 2 ==> next.interval > p.interval
        }),
{
}

/// What one review does, for every quality: the card takes the ease factor the
/// floating-point half computed for this review (a failed review lowers it as much as
/// any other), the review date is today and the next review is the new interval
/// later; a failure (quality 0 or 1) starts the repetitions again with a one-day
/// interval, a success counts one more repetition, with intervals of 1, then 6 days,
/// then the grown interval.
pub proof fn lemma_review_outcome(
    p: Progress,
    quality: u8,
    today: i32,
    ease_factor_bits: u64,
    grown_interval: u32,
)
    requires
        sm2_can_update(p, quality, today, grown_interval),
    ensures
        ({
            let n = sm2_next(p, quality, today, ease_factor_bits, grown_interval);
            &&& n.ease_factor_bits == ease_factor_bits
            &&& n.last_review == Some(today)
            &&& n.next_review == today + n.interval
            &&& quality < 2 ==> n.repetitions == 0 && n.interval == 1
            &&& quality >= 2 ==> n.repetitions == p.repetitions + 1
            &&& quality >= 2 && p.repetitions == 0 ==> n.interval == 1
            &&& quality >= 2 && p.repetitions == 1 ==> n.interval == 6
            &&& quality >= 2 && p.repetitions >= 2 ==> n.interval == grown_interval
        }),
{
}

/// One step of the SM-2 schedule.
///
/// The floating-point half of the algorithm is done by the caller: `ease_factor_bits`
/// is the new ease factor `max(1.3, ef + 0.1 - (3 - q) * (0.08 + (3 - q) * 0.02))`,
/// and `grown_interval` is `ceil(interval * new ease factor)` as a `u32`.
pub fn sm2_update(
    progress: &mut Progress,
    quality: u8,
    today: i32,
    ease_factor_bits: u64,
    grown_interval: u32,
)
    requires
        sm2_can_update(*old(progress), quality, today, grown_interval),
    ensures
        *final(progress) == sm2_next(*old(progress), quality, today, ease_factor_bits, grown_interval),
        final(progress).ease_factor_bits == ease_factor_bits,
        final(progress).last_review == Some(today),
        final(progress).next_review == today + final(progress).interval,
        quality < 2 ==> final(progress).repetitions == 0 && final(progress).interval == 1,
        quality >= 2 ==> final(progress).repetitions == old(progress).repetitions + 1,
        quality >= 2 && old(progress).repetitions == 0 ==> final(progress).interval == 1,
        quality >= 2 && old(progress).repetitions == 1 ==> final(progress).interval == 6,
        quality >= 2 && old(progress).repetitions >= 2 ==> final(progress).interval == grown_interval,
{
    progress.ease_factor_bits = ease_factor_bits;
    if quality < 2 {
        progress.repetitions = 0;
        progress.interval = 1;
    } else {
        progress.repetitions = progress.repetitions + 1;
        progress.interval = if progress.repetitions == 1 {
            1
        } else if progress.repetitions == 2 {
            6
        } else {
            grown_interval
        };
    }
    progress.last_review = Some(today);
    progress.next_review = days_after(today, progress.interval);
}

} // verus!
