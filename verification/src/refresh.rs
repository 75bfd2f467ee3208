//! When an outdated index is refreshed.
use crate::text::opt_text;
use vstd::prelude::*;

verus! {

/// A moment: whole seconds since the epoch, and the nanoseconds beyond them. In a
/// leap second these are a thousand million or more.
#[derive(Debug, Clone, Copy, PartialEq, Eq, Structural)]
pub struct Moment {
    pub secs: i64,
    pub nanos: u32,
}

/// The moment that `chrono::DateTime::parse_from_rfc3339` reads in a text.
pub uninterp spec fn rfc3339_moment(text: Seq<char>) -> Option<(i64, u32)>;

/// `chrono::DateTime::parse_from_rfc3339`, as whole seconds since the epoch and the
/// nanoseconds beyond them: a function of the text alone. The nanoseconds stay
/// below two thousand million; which texts are read is left to chrono.
#[verifier::external_body]
fn parse_rfc3339(text: &str) -> (r: Option<(i64, u32)>)
    ensures
        r == rfc3339_moment(text@),
        r matches Some((secs, nanos)) ==> nanos < 2_000_000_000,
{
    chrono::DateTime::parse_from_rfc3339(text).ok().map(
        |time| (time.timestamp(), time.timestamp_subsec_nanos()),
    )
}

/// The nanoseconds from one moment to another. A leap second that lies between
/// their times of day counts.
pub open spec fn nanos_between(from: Moment, to: Moment) -> int {
    let day_from = from.secs as int % 86_400;
    let day_to = to.secs as int % 86_400;
    let leap = if day_to > day_from && from.nanos >= 1_000_000_000 {
        1int
    } else if day_to < day_from && to.nanos >= 1_000_000_000 {
        -1
    } else {
        0
    };
    (to.secs - from.secs + leap) * 1_000_000_000 + to.nanos - from.nanos
}

/// The nanoseconds from one moment to another.
pub fn elapsed(from: &Moment, to: &Moment) -> (r: i128)
    ensures
        r == nanos_between(*from, *to),
{
    let day_from: i64 = time_of_day(from.secs);
    let day_to: i64 = time_of_day(to.secs);
    let leap: i128 = if day_to > day_from && from.nanos >= 1_000_000_000 {
        1
    } else if day_to < day_from && to.nanos >= 1_000_000_000 {
        -1
    } else {
        0
    };
    (to.secs as i128 - from.secs as i128 + leap) * 1_000_000_000 + to.nanos as i128
        - from.nanos as i128
}

/// The seconds since midnight.
fn time_of_day(secs: i64) -> (r: i64)
    ensures
        r == secs as int % 86_400,
{
    if secs >= 0 {
        secs % 86_400
    } else {
        let back: i64 = secs + 1;
        let above: u64 = (-(back as i128)) as u64;
        let rest: u64 = above % 86_400;
        assert(secs == -(above as int) - 1);
        assert(secs as int % 86_400 == 86_399 - rest as int) by {
            let q = above as int / 86_400;
            assert(above as int == q * 86_400 + rest);
            assert(secs as int == (-(q + 1)) * 86_400 + (86_399 - rest as int));
            vstd::arithmetic::div_mod::lemma_fundamental_div_mod_converse(
                secs as int,
                86_400,
                -(q + 1),
                86_399 - rest as int,
            );
        }
        (86_399 - rest) as i64
    }
}

/// Whether an index of this age is due, given when it was built, where that can be
/// read. A fresh index is never due, and none is where the threshold is zero. One
/// whose time of building is unknown is due; one that seems to come from the future
/// is not.
pub open spec fn is_refresh_due(
    stale: bool,
    built: Option<Moment>,
    threshold_secs: u64,
    now: Moment,
) -> bool {
    &&& threshold_secs > 0
    &&& stale
    &&& match built {
        None => true,
        Some(moment) => nanos_between(moment, now) >= threshold_secs * 1_000_000_000,
    }
}

/// Whether an index is due, given the moment it was built, where that is known.
pub fn is_due(stale: bool, built: Option<Moment>, threshold_secs: u64, now: &Moment) -> (r: bool)
    ensures
        r == is_refresh_due(stale, built, threshold_secs, *now),
{
    if threshold_secs == 0 || !stale {
        return false;
    }
    match built {
        None => true,
        Some(moment) => elapsed(&moment, now) >= threshold_secs as i128 * 1_000_000_000,
    }
}

/// The moment that a text of an index says it was built.
pub open spec fn built_moment(built_at: Option<Seq<char>>) -> Option<Moment> {
    match built_at {
        None => None,
        Some(text) => match rfc3339_moment(text) {
            Some((secs, nanos)) => Some(Moment { secs, nanos }),
            None => None,
        },
    }
}

/// Whether an outdated index has fallen far enough behind to be refreshed now.
pub fn refresh_due(
    stale: bool,
    built_at: &Option<String>,
    threshold_secs: u64,
    now: &Moment,
) -> (r: bool)
    ensures
        r == is_refresh_due(stale, built_moment(opt_text(*built_at)), threshold_secs, *now),
{
    let built: Option<Moment> = match built_at {
        None => None,
        Some(text) => match parse_rfc3339(text.as_str()) {
            Some((secs, nanos)) => Some(Moment { secs, nanos }),
            None => None,
        },
    };
    is_due(stale, built, threshold_secs, now)
}

/// A fresh index is never refreshed, however old it is.
pub proof fn lemma_fresh_index_is_never_due(built: Option<Moment>, threshold: u64, now: Moment)
    ensures
        !is_refresh_due(false, built, threshold, now),
{
}

/// An index that is due stays due as time goes on, leap seconds aside.
pub proof fn lemma_due_stays_due(built: Moment, threshold: u64, now: Moment, later: Moment)
    requires
        is_refresh_due(true, Some(built), threshold, now),
        built.nanos < 1_000_000_000,
        now.nanos < 1_000_000_000,
        later.nanos < 1_000_000_000,
        now.secs < later.secs || (now.secs == later.secs && now.nanos <= later.nanos),
    ensures
        is_refresh_due(true, Some(built), threshold, later),
{
}

// ---------------------------------------------------------------------------
// Refreshing before a search
// ---------------------------------------------------------------------------

/// The shortest time between two tries, in seconds.
pub const REFRESH_RETRY_BACKOFF_SECS: u64 = 300;

/// What is known when a search begins.
#[derive(Debug, Clone, Copy)]
pub struct RefreshInputs {
    /// Whether a build is running.
    pub reindex_running: bool,
    /// The threshold of age, in seconds.
    pub refresh_after_secs: u64,
    /// Whether an index is there.
    pub index_exists: bool,
    /// Whether the index holds sources that are left out.
    pub excluded_present: bool,
    /// Whether attachments changed.
    pub documents_changed: bool,
    /// Whether the index is due by its age.
    pub due_by_age: bool,
    /// The seconds since the last try, where there was one.
    pub since_last_try: Option<u64>,
    /// Whether another search is refreshing.
    pub refresh_busy: bool,
}

/// What is done before a search.
#[derive(Debug, Clone, Copy, PartialEq, Eq, Structural)]
pub struct RefreshStep {
    /// The index is marked as outdated.
    pub mark_stale: bool,
    /// The index is refreshed.
    pub refresh: bool,
}

/// What is done before a search. Nothing while a build runs or where refreshing is
/// switched off. An index that holds what is left out, or misses what changed, is
/// outdated and refreshed whatever its age; any other is refreshed once it is due.
/// After a try the next one waits, and one search refreshes at a time. A missing
/// index is never built here.
pub open spec fn refresh_decision(inputs: RefreshInputs) -> RefreshStep {
    if inputs.reindex_running || inputs.refresh_after_secs == 0 {
        RefreshStep { mark_stale: false, refresh: false }
    } else {
        RefreshStep {
            mark_stale: inputs.excluded_present || inputs.documents_changed,
            refresh: inputs.index_exists && (inputs.excluded_present || inputs.documents_changed
                || inputs.due_by_age) && (inputs.since_last_try matches Some(secs) ==> secs
                >= REFRESH_RETRY_BACKOFF_SECS) && !inputs.refresh_busy,
        }
    }
}

/// What is done before a search.
pub fn refresh_if_due(inputs: &RefreshInputs) -> (r: RefreshStep)
    ensures
        r == refresh_decision(*inputs),
{
    if inputs.reindex_running || inputs.refresh_after_secs == 0 {
        return RefreshStep { mark_stale: false, refresh: false };
    }
    let mark_stale: bool = inputs.excluded_present || inputs.documents_changed;
    if !inputs.index_exists {
        return RefreshStep { mark_stale, refresh: false };
    }
    if !mark_stale && !inputs.due_by_age {
        return RefreshStep { mark_stale, refresh: false };
    }
    match inputs.since_last_try {
        Some(secs) => {
            if secs < REFRESH_RETRY_BACKOFF_SECS {
                return RefreshStep { mark_stale, refresh: false };
            }
        },
        None => {},
    }
    RefreshStep { mark_stale, refresh: !inputs.refresh_busy }
}

/// What came of a refresh before a search. A failure never fails the search.
#[derive(Debug)]
pub struct RefreshReport {
    pub refreshed: bool,
    pub failure: Option<String>,
}

/// What is reported of a refresh, given how it ended where it ran.
pub fn refresh_report(step: &RefreshStep, failure: Option<String>) -> (r: RefreshReport)
    ensures
        r.refreshed == (step.refresh && failure is None),
        opt_text(r.failure) == if step.refresh {
            opt_text(failure)
        } else {
            None
        },
{
    if step.refresh {
        RefreshReport { refreshed: failure.is_none(), failure }
    } else {
        RefreshReport { refreshed: false, failure: None }
    }
}

/// A missing index is never built before a search.
pub proof fn lemma_missing_index_is_not_built(inputs: RefreshInputs)
    requires
        !inputs.index_exists,
    ensures
        !refresh_decision(inputs).refresh,
{
}

} // verus!
