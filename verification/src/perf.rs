//! Render profiling: a detector that counts renders that changed nothing.
use vstd::prelude::*;
use std::time::Duration;

verus! {

/// The length of a duration in nanoseconds, as `Duration::as_nanos` gives it.
pub uninterp spec fn nanos_of(d: Duration) -> nat;

/// The longest duration, `Duration::MAX`, in nanoseconds.
pub open spec fn max_nanos() -> nat {
    0xffff_ffff_ffff_ffffnat * 1_000_000_000nat + 999_999_999nat
}

/// `Duration::ZERO`. Trusted: std documents it as the zero duration.
#[verifier::external_body]
fn duration_zero() -> (r: Duration)
    ensures
        nanos_of(r) == 0,
{
    Duration::ZERO
}

/// `a + b` for durations. Trusted: std documents that the sum is the sum of
/// the lengths and that it panics past `Duration::MAX`, which `requires`
/// rules out.
#[verifier::external_body]
fn duration_add(a: Duration, b: Duration) -> (r: Duration)
    requires
        nanos_of(a) + nanos_of(b) <= max_nanos(),
    ensures
        nanos_of(r) == nanos_of(a) + nanos_of(b),
{
    a + b
}

/// `a.checked_add(b)` for durations. Trusted: std documents it as the sum,
/// or `None` where the sum would overflow a `Duration` (past
/// `Duration::MAX`).
#[verifier::external_body]
fn duration_checked_add(a: Duration, b: Duration) -> (r: Option<Duration>)
    ensures
        r is None <==> nanos_of(a) + nanos_of(b) > max_nanos(),
        r matches Some(x) ==> nanos_of(x) == nanos_of(a) + nanos_of(b),
{
    a.checked_add(b)
}

/// The length, in nanoseconds, of `d / n` for a duration of `total`
/// nanoseconds and a nonzero `n`, as std's `Duration / u32` computes it.
pub uninterp spec fn div_nanos(total: nat, n: u32) -> nat;

/// `d / n` for a duration and a nonzero count. Trusted: std divides the
/// length of the duration by `n`, a result fixed by that length and `n`
/// alone, so it is named by `div_nanos`. std's documentation does not say
/// how the quotient is rounded, so nothing more is stated of it.
#[verifier::external_body]
fn duration_div(d: Duration, n: u32) -> (r: Duration)
    requires
        n > 0,
    ensures
        nanos_of(r) == div_nanos(nanos_of(d), n),
{
    d / n
}

/// Counts of renders, of renders that changed nothing, and the total time
/// spent in views.
#[derive(Debug)]
pub struct UnnecessaryRenderDetector {
    total: u64,
    unnecessary: u64,
    total_view: Duration,
}

/// What one recorded render of `view` nanoseconds does to the counts.
pub open spec fn recorded(before: (int, int, int), after: (int, int, int), view: nat, unnecessary: bool) -> bool {
    &&& after.0 == before.0 + 1
    &&& after.1 == before.1 + if unnecessary {
        1int
    } else {
        0int
    }
    &&& after.2 == before.2 + view
}

/// The sum of the view times.
pub open spec fn total_of(views: Seq<nat>) -> int
    decreases views.len(),
{
    if views.len() == 0 {
        0
    } else {
        total_of(views.drop_last()) + views.last()
    }
}

/// How many renders were flagged unnecessary.
pub open spec fn flagged(flags: Seq<bool>) -> int
    decreases flags.len(),
{
    if flags.len() == 0 {
        0
    } else {
        flagged(flags.drop_last()) + if flags.last() {
            1int
        } else {
            0int
        }
    }
}

/// Over a run of recorded renders, the detector counts each render once,
/// each unnecessary one once, and adds up the view times: from counts
/// `states[0]`, after the renders `views[i]`/`flags[i]`, the counts are
/// the start plus the number of renders, the flagged ones, and the total
/// view time.
pub proof fn law_counts_over_records(states: Seq<(int, int, int)>, views: Seq<nat>, flags: Seq<bool>)
    requires
        states.len() == views.len() + 1,
        flags.len() == views.len(),
        forall|i: int| 0 <= i < views.len() ==> recorded(#[trigger] states[i], states[i + 1], views[i], flags[i]),
    ensures
        states.last().0 == states[0].0 + views.len(),
        states.last().1 == states[0].1 + flagged(flags),
        states.last().2 == states[0].2 + total_of(views),
    decreases views.len(),
{
    if views.len() > 0 {
        let k = views.len() - 1;
        assert forall|i: int| 0 <= i < views.drop_last().len() implies recorded(
            #[trigger] states.drop_last()[i],
            states.drop_last()[i + 1],
            views.drop_last()[i],
            flags.drop_last()[i],
        ) by {
            assert(recorded(states[i], states[i + 1], views[i], flags[i]));
        }
        law_counts_over_records(states.drop_last(), views.drop_last(), flags.drop_last());
        assert(recorded(states[k], states[k + 1], views[k], flags[k]));
    }
}

impl Default for UnnecessaryRenderDetector {
    /// A detector that has recorded nothing.
    fn default() -> (r: Self)
        ensures
            r.total_count() == 0,
            r.unnecessary_count() == 0,
            r.view_nanos() == 0,
    {
        UnnecessaryRenderDetector::new()
    }
}

impl UnnecessaryRenderDetector {
    /// Every unnecessary render is a render.
    #[verifier::type_invariant]
    spec fn counts_agree(&self) -> bool {
        self.unnecessary <= self.total
    }

    pub closed spec fn total_count(&self) -> u64 {
        self.total
    }

    pub closed spec fn unnecessary_count(&self) -> u64 {
        self.unnecessary
    }

    pub closed spec fn view_nanos(&self) -> nat {
        nanos_of(self.total_view)
    }

    /// The counts: renders, unnecessary renders, and view nanoseconds.
    pub open spec fn counts(&self) -> (int, int, int) {
        (self.total_count() as int, self.unnecessary_count() as int, self.view_nanos() as int)
    }

    /// A detector that has recorded nothing.
    pub fn new() -> (r: UnnecessaryRenderDetector)
        ensures
            r.total_count() == 0,
            r.unnecessary_count() == 0,
            r.view_nanos() == 0,
    {
        UnnecessaryRenderDetector { total: 0, unnecessary: 0, total_view: duration_zero() }
    }

    /// Records one render.
    pub fn record(&mut self, component: &str, view_time: Duration, patch_time: Duration, unnecessary: bool)
        requires
            old(self).total_count() < u64::MAX,
            old(self).view_nanos() + nanos_of(view_time) <= max_nanos(),
        ensures
            final(self).total_count() == old(self).total_count() + 1,
            final(self).unnecessary_count() == old(self).unnecessary_count() + if unnecessary {
                1int
            } else {
                0int
            },
            final(self).view_nanos() == old(self).view_nanos() + nanos_of(view_time),
            recorded(old(self).counts(), final(self).counts(), nanos_of(view_time), unnecessary),
    {
        proof {
            use_type_invariant(&*self);
        }
        let total = self.total + 1;
        let unn = if unnecessary {
            self.unnecessary + 1
        } else {
            self.unnecessary
        };
        let view = duration_add(self.total_view, view_time);
        *self = UnnecessaryRenderDetector { total, unnecessary: unn, total_view: view };
    }

    /// Records one render where the counts and the total view time have room
    /// for it, and says whether it did; otherwise the detector is left as it
    /// was.
    pub fn try_record(&mut self, component: &str, view_time: Duration, patch_time: Duration, unnecessary: bool) -> (r: bool)
        ensures
            r == (old(self).total_count() < u64::MAX && old(self).view_nanos() + nanos_of(view_time) <= max_nanos()),
            r ==> final(self).total_count() == old(self).total_count() + 1 && final(self).unnecessary_count()
                == old(self).unnecessary_count() + (if unnecessary {
                1int
            } else {
                0int
            }) && final(self).view_nanos() == old(self).view_nanos() + nanos_of(view_time),
            r ==> recorded(old(self).counts(), final(self).counts(), nanos_of(view_time), unnecessary),
            !r ==> final(self).total_count() == old(self).total_count() && final(self).unnecessary_count()
                == old(self).unnecessary_count() && final(self).view_nanos() == old(self).view_nanos(),
    {
        proof {
            use_type_invariant(&*self);
        }
        if self.total == u64::MAX {
            return false;
        }
        match duration_checked_add(self.total_view, view_time) {
            Some(view) => {
                let total = self.total + 1;
                let unn = if unnecessary {
                    self.unnecessary + 1
                } else {
                    self.unnecessary
                };
                *self = UnnecessaryRenderDetector { total, unnecessary: unn, total_view: view };
                true
            },
            None => false,
        }
    }

    /// The number of renders recorded.
    pub fn total(&self) -> (r: u64)
        ensures
            r == self.total_count(),
    {
        self.total
    }

    /// The number of renders recorded as unnecessary.
    pub fn unnecessary(&self) -> (r: u64)
        ensures
            r == self.unnecessary_count(),
    {
        self.unnecessary
    }

    /// The total time spent in views.
    pub fn total_view(&self) -> (r: Duration)
        ensures
            nanos_of(r) == self.view_nanos(),
    {
        self.total_view
    }

    /// The mean view time: zero before any render, otherwise the total view
    /// time divided by the number of renders (as a `u32`, as the count is
    /// taken modulo 2^32), as std's division gives it (`div_nanos`).
    pub fn mean_view(&self) -> (r: Duration)
        requires
            self.total_count() == 0 || self.total_count() % 0x1_0000_0000 != 0,
        ensures
            self.total_count() == 0 ==> nanos_of(r) == 0,
            self.total_count() > 0 ==> nanos_of(r) == div_nanos(
                self.view_nanos(),
                (self.total_count() % 0x1_0000_0000) as u32,
            ),
    {
        if self.total == 0 {
            duration_zero()
        } else {
            let n = (self.total % 0x1_0000_0000) as u32;
            duration_div(self.total_view, n)
        }
    }
}

} // verus!
