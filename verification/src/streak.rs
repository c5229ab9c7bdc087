//! Streak statistics: how many consecutive days up to a reference day are
//! marked, and the longest such run between a starting day and the reference
//! day. Both walk the calendar day by day over anything that can answer
//! "is this day marked", whether a single activity's date set or the
//! aggregated per-day activity counts of overview mode.

use vstd::prelude::*;
use crate::date_util::Date;
use crate::user_data::UserData;

verus! {

/// The larger of two counts.
pub open spec fn nat_max(a: nat, b: nat) -> nat {
    if a >= b {
        a
    } else {
        b
    }
}

/// Anything that can answer whether a given day is marked.
pub trait HasDate {
    /// The invariant the container maintains.
    spec fn inv(&self) -> bool;

    /// The set of marked days.
    spec fn date_set(&self) -> Set<Date>;

    /// Whether `date` is marked.
    fn has_date(&self, date: Date) -> (r: bool)
        requires
            self.inv(),
        ensures
            r == self.date_set().contains(date),
    ;
}

impl HasDate for Vec<Date> {
    open spec fn inv(&self) -> bool {
        true
    }

    open spec fn date_set(&self) -> Set<Date> {
        self@.to_set()
    }

    fn has_date(&self, date: Date) -> (r: bool) {
        let mut i: usize = 0;
        while i < self.len()
            invariant
                i <= self@.len(),
                forall|j: int| 0 <= j < i ==> self@[j] != date,
            decreases self@.len() - i,
        {
            if self[i] == date {
                return true;
            }
            i += 1;
        }
        false
    }
}

/// Number of consecutive marked days ending at `day`, walking backwards
/// until the first unmarked day. Zero when `day` itself is unmarked; the
/// walk cannot continue below the earliest representable date.
pub open spec fn spec_current_streak(dates: Set<Date>, day: Date) -> nat
    decreases day.ord(),
        when day.wf()
{
    if !dates.contains(day) {
        0
    } else if day.is_min() {
        1
    } else {
        1 + spec_current_streak(dates, day.spec_pred())
    }
}

/// Length of the run of consecutive marked days that ends at `day`, counting
/// back no further than `anchor`.
pub open spec fn spec_run_ending_at(dates: Set<Date>, anchor: Date, day: Date) -> nat
    decreases day.ord(),
        when day.wf()
{
    if !dates.contains(day) {
        0
    } else if day == anchor || day.is_min() {
        1
    } else {
        1 + spec_run_ending_at(dates, anchor, day.spec_pred())
    }
}

/// The longest run of consecutive marked days ending anywhere between
/// `anchor` and `day`, each run counted back no further than `anchor`.
pub open spec fn spec_longest_streak_upto(dates: Set<Date>, anchor: Date, day: Date) -> nat
    decreases day.ord(),
        when day.wf()
{
    let here = spec_run_ending_at(dates, anchor, day);
    if day == anchor || day.is_min() || day.on_or_before(anchor) {
        here
    } else {
        nat_max(here, spec_longest_streak_upto(dates, anchor, day.spec_pred()))
    }
}

/// A current streak never exceeds the number of days up to its end.
pub proof fn lemma_current_streak_bounded(dates: Set<Date>, day: Date)
    requires
        day.wf(),
    ensures
        spec_current_streak(dates, day) <= day.ord() + 1,
    decreases day.ord(),
{
    if dates.contains(day) && !day.is_min() {
        lemma_current_streak_bounded(dates, day.spec_pred());
    }
}

/// A run never exceeds the number of days up to its end.
pub proof fn lemma_run_bounded(dates: Set<Date>, anchor: Date, day: Date)
    requires
        day.wf(),
    ensures
        spec_run_ending_at(dates, anchor, day) <= day.ord() + 1,
    decreases day.ord(),
{
    if dates.contains(day) && !(day == anchor || day.is_min()) {
        lemma_run_bounded(dates, anchor, day.spec_pred());
    }
}

/// The longest streak never exceeds the number of days up to the reference
/// day.
pub proof fn lemma_longest_streak_bounded(dates: Set<Date>, anchor: Date, day: Date)
    requires
        day.wf(),
    ensures
        spec_longest_streak_upto(dates, anchor, day) <= day.ord() + 1,
    decreases day.ord(),
{
    lemma_run_bounded(dates, anchor, day);
    if !(day == anchor || day.is_min() || day.on_or_before(anchor)) {
        lemma_longest_streak_bounded(dates, anchor, day.spec_pred());
    }
}

/// The current streak is zero exactly when the reference day itself is
/// unmarked, no matter how many earlier days are marked.
pub proof fn lemma_current_streak_zero_iff_unmarked(dates: Set<Date>, day: Date)
    requires
        day.wf(),
    ensures
        spec_current_streak(dates, day) == 0 <==> !dates.contains(day),
{
}

/// The longest streak dominates the run ending at any day of the walked
/// range. In particular a run that ends exactly on the reference day is
/// counted even though no unmarked day follows it.
pub proof fn lemma_longest_streak_dominates_runs(
    dates: Set<Date>,
    anchor: Date,
    mid: Date,
    day: Date,
)
    requires
        anchor.wf(),
        mid.wf(),
        day.wf(),
        anchor.on_or_before(mid),
        mid.on_or_before(day),
    ensures
        spec_longest_streak_upto(dates, anchor, day) >= spec_run_ending_at(dates, anchor, mid),
    decreases day.ord(),
{
    if day == anchor || day.is_min() || day.on_or_before(anchor) {
        crate::date_util::lemma_ord_injective(mid, day);
    } else if mid == day {
    } else {
        crate::date_util::lemma_ord_injective(mid, day);
        assert(mid.before(day));
        assert(!day.is_min());
        crate::date_util::lemma_pred_succ_identity(day);
        if day.spec_pred().before(mid) {
            crate::date_util::lemma_succ_on_or_before(day.spec_pred(), mid);
            assert(false);
        }
        lemma_longest_streak_dominates_runs(dates, anchor, mid, day.spec_pred());
    }
}

/// Count backwards from `current_date` while each day is marked; the count
/// stops at the first unmarked day, so it is zero when `current_date` itself
/// is unmarked.
#[verifier::loop_isolation(false)]
pub fn find_current_streak<T: HasDate>(dates: &T, current_date: Date) -> (r: u32)
    requires
        dates.inv(),
        current_date.wf(),
    ensures
        r == spec_current_streak(dates.date_set(), current_date),
{
    proof {
        lemma_current_streak_bounded(dates.date_set(), current_date);
    }
    let mut day = current_date;
    let mut n: u32 = 0;
    loop
        invariant
            day.wf(),
            day.ord() <= current_date.ord(),
            n + spec_current_streak(dates.date_set(), day) == spec_current_streak(
                dates.date_set(),
                current_date,
            ),
        decreases day.ord(),
    {
        if !dates.has_date(day) {
            return n;
        }
        if day.year == 0 && day.month == 1 && day.day == 1 {
            return n + 1;
        }
        day = day.pred();
        n = n + 1;
    }
}

/// Walk forward from `start` to `current_date` inclusive, tracking the
/// longest run of consecutive marked days; a run is closed by the first
/// unmarked day after it, and the run still open on `current_date` is
/// counted as well.
#[verifier::loop_isolation(false)]
pub fn find_longest_streak<T: HasDate>(start: Date, dates: &T, current_date: Date) -> (r: u32)
    requires
        dates.inv(),
        start.wf(),
        current_date.wf(),
        start.on_or_before(current_date),
    ensures
        r == spec_longest_streak_upto(dates.date_set(), start, current_date),
{
    let ghost s = dates.date_set();
    let mut day = start;
    let mut streak: u32 = 0;
    let mut longest: u32 = 0;
    loop
        invariant
            day.wf(),
            start.on_or_before(day),
            day.on_or_before(current_date),
            day == start ==> streak == 0 && longest == 0,
            day != start ==> {
                &&& streak == spec_run_ending_at(s, start, day.spec_pred())
                &&& nat_max(longest as nat, streak as nat) == spec_longest_streak_upto(
                    s,
                    start,
                    day.spec_pred(),
                )
            },
            streak <= day.ord(),
            longest <= current_date.ord() + 1,
        decreases current_date.ord() - day.ord(),
    {
        proof {
            if day != start {
                crate::date_util::lemma_ord_injective(start, day);
            }
            lemma_run_bounded(s, start, day);
            lemma_longest_streak_bounded(s, start, current_date);
        }
        if dates.has_date(day) {
            streak = streak + 1;
        } else {
            if streak > longest {
                longest = streak;
            }
            streak = 0;
        }
        proof {
            assert(streak == spec_run_ending_at(s, start, day));
        }
        if day.year == current_date.year && day.month == current_date.month && day.day
            == current_date.day {
            if streak > longest {
                longest = streak;
            }
            proof {
                assert(longest == spec_longest_streak_upto(s, start, current_date));
            }
            return longest;
        }
        proof {
            crate::date_util::lemma_ord_injective(day, current_date);
            crate::date_util::lemma_succ_on_or_before(day, current_date);
            crate::date_util::lemma_succ_pred_identity(day);
        }
        day = day.succ();
        proof {
            assert(nat_max(longest as nat, streak as nat) == spec_longest_streak_upto(
                s,
                start,
                day.spec_pred(),
            ));
        }
    }
}

/// A per-day tally: for each date that at least one activity has marked,
/// how many activities have marked it.
pub struct NActivitiesCache {
    pub entries: Vec<(Date, u32)>,
}

/// The tally recorded for `date`: the value of its entry, or zero when no
/// entry carries that date. Entries are searched front to back.
pub open spec fn spec_lookup(entries: Seq<(Date, u32)>, date: Date) -> nat
    decreases entries.len(),
{
    if entries.len() == 0 {
        0
    } else if entries[0].0 == date {
        entries[0].1 as nat
    } else {
        spec_lookup(entries.drop_first(), date)
    }
}

/// How many of the given activities have `date` marked.
pub open spec fn spec_activity_count(
    activities: Seq<crate::user_data::ActivityModel>,
    date: Date,
) -> nat
    decreases activities.len(),
{
    if activities.len() == 0 {
        0
    } else {
        spec_activity_count(activities.drop_last(), date) + (if activities.last().date_set().contains(
            date,
        ) {
            1nat
        } else {
            0nat
        })
    }
}

/// No more activities can have a date marked than there are activities.
proof fn lemma_activity_count_bounded(
    activities: Seq<crate::user_data::ActivityModel>,
    date: Date,
)
    ensures
        spec_activity_count(activities, date) <= activities.len(),
    decreases activities.len(),
{
    if activities.len() > 0 {
        lemma_activity_count_bounded(activities.drop_last(), date);
    }
}

/// When the first entry carrying `date` sits at position `k`, the lookup
/// yields that entry's value.
proof fn lemma_lookup_found(entries: Seq<(Date, u32)>, k: int, date: Date)
    requires
        0 <= k < entries.len(),
        entries[k].0 == date,
        forall|j: int| 0 <= j < k ==> entries[j].0 != date,
    ensures
        spec_lookup(entries, date) == entries[k].1,
    decreases k,
{
    if k > 0 {
        lemma_lookup_found(entries.drop_first(), k - 1, date);
    }
}

/// When no entry carries `date`, the lookup yields zero.
proof fn lemma_lookup_absent(entries: Seq<(Date, u32)>, date: Date)
    requires
        forall|j: int| 0 <= j < entries.len() ==> entries[j].0 != date,
    ensures
        spec_lookup(entries, date) == 0,
    decreases entries.len(),
{
    if entries.len() > 0 {
        lemma_lookup_absent(entries.drop_first(), date);
    }
}

/// Lookups only read the keys, and the values stored under the looked-up
/// key: two entry sequences agreeing on those agree on the lookup.
proof fn lemma_lookup_pointwise(a: Seq<(Date, u32)>, b: Seq<(Date, u32)>, date: Date)
    requires
        a.len() == b.len(),
        forall|j: int| 0 <= j < a.len() ==> (#[trigger] a[j]).0 == (#[trigger] b[j]).0,
        forall|j: int| 0 <= j < a.len() ==> ((#[trigger] a[j]).0 == date ==> a[j].1 == b[j].1),
    ensures
        spec_lookup(a, date) == spec_lookup(b, date),
    decreases a.len(),
{
    if a.len() > 0 && a[0].0 != date {
        lemma_lookup_pointwise(a.drop_first(), b.drop_first(), date);
    }
}

/// Appending an entry leaves every earlier key's lookup unchanged, and gives
/// a previously absent key the appended value.
proof fn lemma_lookup_push(entries: Seq<(Date, u32)>, entry: (Date, u32), date: Date)
    ensures
        entry.0 != date ==> spec_lookup(entries.push(entry), date) == spec_lookup(entries, date),
        entry.0 == date && (forall|j: int| 0 <= j < entries.len() ==> entries[j].0 != date)
            ==> spec_lookup(entries.push(entry), date) == entry.1,
    decreases entries.len(),
{
    if entries.len() == 0 {
        assert(entries.push(entry)[0] == entry);
        assert(entries.push(entry).len() == 1);
        if entry.0 != date {
            assert(entries.push(entry).drop_first() =~= entries);
        }
    } else {
        assert(entries.push(entry).drop_first() =~= entries.drop_first().push(entry));
        lemma_lookup_push(entries.drop_first(), entry, date);
    }
}

impl NActivitiesCache {
    /// Every date has at most one entry, and entries only exist for dates
    /// marked at least once.
    pub open spec fn wf(self) -> bool {
        &&& forall|p: int, q: int|
            0 <= p < q < self.entries@.len() ==> (#[trigger] self.entries@[p]).0 != (
            #[trigger] self.entries@[q]).0
        &&& forall|p: int| 0 <= p < self.entries@.len() ==> (#[trigger] self.entries@[p]).1 >= 1
    }

    /// An empty tally: no date has a count.
    pub fn new() -> (r: NActivitiesCache)
        ensures
            r.wf(),
            forall|d: Date| spec_lookup(r.entries@, d) == 0,
    {
        NActivitiesCache { entries: Vec::new() }
    }

    /// The tally recorded for `date`, zero when absent.
    pub fn count(&self, date: Date) -> (r: u32)
        ensures
            r == spec_lookup(self.entries@, date),
    {
        let mut k: usize = 0;
        while k < self.entries.len()
            invariant
                k <= self.entries@.len(),
                forall|j: int| 0 <= j < k ==> (#[trigger] self.entries@[j]).0 != date,
            decreases self.entries@.len() - k,
        {
            if self.entries[k].0 == date {
                proof {
                    lemma_lookup_found(self.entries@, k as int, date);
                }
                return self.entries[k].1;
            }
            k += 1;
        }
        proof {
            lemma_lookup_absent(self.entries@, date);
        }
        0
    }

    /// Add one to the tally of `date`, creating its entry when absent.
    #[verifier::loop_isolation(false)]
    fn bump(&mut self, date: Date)
        requires
            old(self).wf(),
            spec_lookup(old(self).entries@, date) < u32::MAX,
        ensures
            final(self).wf(),
            spec_lookup(final(self).entries@, date) == spec_lookup(old(self).entries@, date) + 1,
            forall|d: Date|
                d != date ==> spec_lookup(final(self).entries@, d) == spec_lookup(
                    old(self).entries@,
                    d,
                ),
    {
        let ghost orig = self.entries@;
        let mut k: usize = 0;
        while k < self.entries.len()
            invariant
                *self == *old(self),
                k <= orig.len(),
                forall|j: int| 0 <= j < k ==> (#[trigger] orig[j]).0 != date,
            decreases orig.len() - k,
        {
            if self.entries[k].0 == date {
                let v: u32 = self.entries[k].1;
                proof {
                    lemma_lookup_found(orig, k as int, date);
                }
                self.entries[k] = (date, v + 1);
                proof {
                    let updated = orig.update(k as int, (date, (v + 1) as u32));
                    lemma_lookup_found(updated, k as int, date);
                    assert forall|d: Date| d != date implies spec_lookup(updated, d) == spec_lookup(
                        orig,
                        d,
                    ) by {
                        lemma_lookup_pointwise(orig, updated, d);
                    }
                }
                return ;
            }
            k += 1;
        }
        proof {
            lemma_lookup_absent(orig, date);
        }
        self.entries.push((date, 1));
        proof {
            assert forall|d: Date| spec_lookup(self.entries@, d) == (if d == date {
                spec_lookup(orig, d) + 1
            } else {
                spec_lookup(orig, d)
            }) by {
                lemma_lookup_push(orig, (date, 1u32), d);
            }
        }
    }
}

impl HasDate for NActivitiesCache {
    open spec fn inv(&self) -> bool {
        self.wf()
    }

    /// A day is marked when at least one activity has it marked.
    open spec fn date_set(&self) -> Set<Date> {
        Set::new(|d: Date| spec_lookup(self.entries@, d) >= 1)
    }

    fn has_date(&self, date: Date) -> (r: bool) {
        self.count(date) >= 1
    }
}

/// Rebuild the per-day tally from scratch: afterwards the tally of every
/// date is exactly the number of activities that have it marked. The
/// previous contents of the cache are discarded.
#[verifier::loop_isolation(false)]
pub fn compute_n_activities_cache(cache: &mut NActivitiesCache, user_data: &UserData)
    requires
        user_data.wf(),
        user_data@.len() <= u32::MAX,
    ensures
        final(cache).wf(),
        forall|d: Date|
            spec_lookup(final(cache).entries@, d) == spec_activity_count(user_data@, d),
{
    cache.entries = Vec::new();
    let ghost u = user_data@;
    proof {
        assert(u.take(0) =~= Seq::<crate::user_data::ActivityModel>::empty());
    }
    let mut i: usize = 0;
    while i < user_data.activities.len()
        invariant
            cache.wf(),
            i <= u.len(),
            forall|d: Date|
                spec_lookup(cache.entries@, d) == spec_activity_count(u.take(i as int), d),
        decreases u.len() - i,
    {
        let activity = &user_data.activities[i];
        let ghost ds = activity@.dates;
        proof {
            assert(u[i as int] == activity@);
            assert(ds.take(0) =~= Seq::<Date>::empty());
        }
        let mut j: usize = 0;
        while j < activity.dates.len()
            invariant
                cache.wf(),
                i < u.len(),
                j <= ds.len(),
                forall|d: Date|
                    spec_lookup(cache.entries@, d) == spec_activity_count(u.take(i as int), d) + (
                    if ds.take(j as int).contains(d) {
                        1nat
                    } else {
                        0nat
                    }),
            decreases ds.len() - j,
        {
            let date = activity.dates[j];
            proof {
                lemma_activity_count_bounded(u.take(i as int), date);
                assert(!ds.take(j as int).contains(date)) by {
                    assert(ds.no_duplicates());
                }
            }
            cache.bump(date);
            proof {
                assert(ds.take(j + 1) =~= ds.take(j as int).push(ds[j as int]));
                assert forall|d: Date|
                    spec_lookup(cache.entries@, d) == spec_activity_count(u.take(i as int), d) + (
                    if ds.take(j + 1).contains(d) {
                        1nat
                    } else {
                        0nat
                    }) by {
                    if d == date {
                        assert(ds.take(j + 1)[j as int] == d);
                    } else {
                        if ds.take(j + 1).contains(d) {
                            let t = choose|t: int| 0 <= t < j + 1 && #[trigger] ds.take(j + 1)[t]
                                == d;
                            assert(ds.take(j as int)[t] == d);
                        } else if ds.take(j as int).contains(d) {
                            let t = choose|t: int|
                                0 <= t < j && #[trigger] ds.take(j as int)[t] == d;
                            assert(ds.take(j + 1)[t] == d);
                        }
                    }
                }
            }
            j += 1;
        }
        proof {
            assert(ds.take(ds.len() as int) =~= ds);
            assert(u.take(i + 1).drop_last() =~= u.take(i as int));
            assert(u.take(i + 1).last() == u[i as int]);
        }
        i += 1;
    }
    proof {
        assert(u.take(u.len() as int) =~= u);
    }
}

} // verus!
