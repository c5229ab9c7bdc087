//! The in-memory data model: tracked activities and their completed dates.
//!
//! An [`Activity`] has a user-editable name, a starting date from which its
//! history is considered, and a set of completed dates, held as a vector
//! without duplicates. [`UserData`] is the ordered collection of activities a
//! session works on.

use vstd::prelude::*;
use crate::date_util::Date;

verus! {

/// The name every freshly created activity starts with.
pub open spec fn spec_default_name() -> Seq<char> {
    "New Unnamed Activity"@
}

/// Mathematical model of an [`Activity`]: its name as a character sequence,
/// its starting date, and its completed dates in storage order.
#[verifier::ext_equal]
pub struct ActivityModel {
    pub name: Seq<char>,
    pub starting_date: Date,
    pub dates: Seq<Date>,
}

impl ActivityModel {
    /// Every date is a real calendar day and no date is recorded twice.
    pub open spec fn wf(self) -> bool {
        &&& self.starting_date.wf()
        &&& forall|i: int| 0 <= i < self.dates.len() ==> (#[trigger] self.dates[i]).wf()
        &&& self.dates.no_duplicates()
    }

    /// The completed dates, as the set they stand for.
    pub open spec fn date_set(self) -> Set<Date> {
        self.dates.to_set()
    }
}

/// The model of an activity just created on the given date.
pub open spec fn spec_default_activity(current_date: Date) -> ActivityModel {
    ActivityModel { name: spec_default_name(), starting_date: current_date, dates: Seq::empty() }
}

/// One tracked habit: a name, the date tracking started, and the days on
/// which it was completed.
#[derive(Debug)]
pub struct Activity {
    pub name: String,
    pub starting_date: Date,
    pub dates: Vec<Date>,
}

impl View for Activity {
    type V = ActivityModel;

    open spec fn view(&self) -> ActivityModel {
        ActivityModel { name: self.name@, starting_date: self.starting_date, dates: self.dates@ }
    }
}

/// Membership of `date` in `s` flipped: inserted when absent, removed when
/// present.
pub open spec fn spec_toggled(s: Set<Date>, date: Date) -> Set<Date> {
    if s.contains(date) {
        s.remove(date)
    } else {
        s.insert(date)
    }
}

impl Activity {
    pub open spec fn wf(self) -> bool {
        self@.wf()
    }

    /// A fresh activity with the default name, no completed dates, and the
    /// given starting date.
    pub fn new_default(current_date: Date) -> (r: Activity)
        ensures
            r@ =~~= spec_default_activity(current_date),
            current_date.wf() ==> r.wf(),
    {
        let r = Activity {
            name: "New Unnamed Activity".to_owned(),
            dates: Vec::new(),
            starting_date: current_date,
        };
        assert(r@ =~~= spec_default_activity(current_date));
        r
    }

    /// Whether `date` is recorded as completed.
    pub fn has_date(&self, date: Date) -> (r: bool)
        ensures
            r == self@.date_set().contains(date),
    {
        let mut i: usize = 0;
        while i < self.dates.len()
            invariant
                i <= self.dates@.len(),
                forall|j: int| 0 <= j < i ==> self.dates@[j] != date,
            decreases self.dates@.len() - i,
        {
            if self.dates[i] == date {
                return true;
            }
            i += 1;
        }
        false
    }

    /// Flip whether `date` counts as completed: record it when absent,
    /// un-record it when present. This is the single mutation primitive for
    /// marking days.
    #[verifier::loop_isolation(false)]
    pub fn toggle_date(&mut self, date: Date)
        requires
            old(self).wf(),
            date.wf(),
        ensures
            final(self).wf(),
            final(self).name == old(self).name,
            final(self).starting_date == old(self).starting_date,
            final(self)@.date_set() =~= spec_toggled(old(self)@.date_set(), date),
            final(self)@.date_set().contains(date) <==> !old(self)@.date_set().contains(date),
    {
        let ghost orig = self.dates@;
        let mut i: usize = 0;
        while i < self.dates.len()
            invariant
                *self == *old(self),
                i <= orig.len(),
                forall|j: int| 0 <= j < i ==> orig[j] != date,
            decreases orig.len() - i,
        {
            if self.dates[i] == date {
                self.dates.remove(i);
                proof {
                    assert forall|d: Date| self@.date_set().contains(d) <==> spec_toggled(
                        orig.to_set(),
                        date,
                    ).contains(d) by {
                        lemma_remove_membership(orig, i as int, d);
                    }
                    assert(self@.date_set() =~= spec_toggled(orig.to_set(), date));
                    assert(self.dates@.no_duplicates()) by {
                        lemma_remove_no_duplicates(orig, i as int);
                    }
                }
                return ;
            }
            i += 1;
        }
        self.dates.push(date);
        proof {
            assert forall|d: Date| self@.date_set().contains(d) <==> spec_toggled(
                orig.to_set(),
                date,
            ).contains(d) by {
                if d != date {
                    assert(self.dates@.contains(d) <==> orig.contains(d)) by {
                        lemma_push_membership(orig, date, d);
                    }
                } else {
                    assert(self.dates@[orig.len() as int] == date);
                }
            }
            assert(self@.date_set() =~= spec_toggled(orig.to_set(), date));
            assert(self.dates@.no_duplicates()) by {
                assert(!orig.contains(date));
                assert forall|p: int, q: int|
                    0 <= p < q < self.dates@.len() implies self.dates@[p] != self.dates@[q] by {
                    if q < orig.len() {
                        assert(orig[p] != orig[q]);
                    } else {
                        assert(orig[p] != date);
                    }
                }
            }
        }
    }
}

/// After removing the entry at `i`, a sequence without duplicates contains
/// exactly the other entries.
proof fn lemma_remove_membership(s: Seq<Date>, i: int, d: Date)
    requires
        s.no_duplicates(),
        0 <= i < s.len(),
    ensures
        s.remove(i).contains(d) <==> (s.contains(d) && d != s[i]),
{
    let r = s.remove(i);
    if r.contains(d) {
        let j = choose|j: int| 0 <= j < r.len() && r[j] == d;
        if j < i {
            assert(s[j] == d);
        } else {
            assert(s[j + 1] == d);
        }
    }
    if s.contains(d) && d != s[i] {
        let j = choose|j: int| 0 <= j < s.len() && s[j] == d;
        if j < i {
            assert(r[j] == d);
        } else {
            assert(r[j - 1] == d);
        }
    }
}

/// Removing an entry keeps a sequence free of duplicates.
proof fn lemma_remove_no_duplicates(s: Seq<Date>, i: int)
    requires
        s.no_duplicates(),
        0 <= i < s.len(),
    ensures
        s.remove(i).no_duplicates(),
{
    let r = s.remove(i);
    assert forall|p: int, q: int| 0 <= p < q < r.len() implies r[p] != r[q] by {
        let sp = if p < i {
            p
        } else {
            p + 1
        };
        let sq = if q < i {
            q
        } else {
            q + 1
        };
        assert(r[p] == s[sp] && r[q] == s[sq]);
    }
}

/// Membership in a sequence after pushing one more entry.
proof fn lemma_push_membership(s: Seq<Date>, pushed: Date, d: Date)
    ensures
        s.push(pushed).contains(d) <==> (s.contains(d) || d == pushed),
{
    let r = s.push(pushed);
    if s.contains(d) {
        let j = choose|j: int| 0 <= j < s.len() && s[j] == d;
        assert(r[j] == d);
    }
    if d == pushed {
        assert(r[s.len() as int] == d);
    }
    if r.contains(d) {
        let j = choose|j: int| 0 <= j < r.len() && r[j] == d;
        if j < s.len() {
            assert(s[j] == d);
        }
    }
}

/// Toggling the same date twice restores the original membership everywhere:
/// the pair of toggles is the identity on the date set.
pub proof fn lemma_toggle_twice_identity(s: Set<Date>, date: Date)
    ensures
        spec_toggled(spec_toggled(s, date), date) =~= s,
{
}

/// The collection of tracked activities, in a user-chosen order that
/// index-based navigation relies on.
#[derive(Debug)]
pub struct UserData {
    pub activities: Vec<Activity>,
}

impl View for UserData {
    type V = Seq<ActivityModel>;

    open spec fn view(&self) -> Seq<ActivityModel> {
        self.activities@.map_values(|a: Activity| a@)
    }
}

impl UserData {
    pub open spec fn wf(self) -> bool {
        forall|i: int| 0 <= i < self@.len() ==> (#[trigger] self@[i]).wf()
    }

    /// Fresh user data holding exactly one default activity starting today.
    pub fn new_default(current_date: Date) -> (r: UserData)
        ensures
            r@ =~~= seq![spec_default_activity(current_date)],
            current_date.wf() ==> r.wf(),
    {
        let mut activities: Vec<Activity> = Vec::new();
        activities.push(Activity::new_default(current_date));
        let r = UserData { activities };
        assert(r@ =~~= seq![spec_default_activity(current_date)]);
        r
    }

    /// Insert a fresh default activity at `index`, shifting the activities
    /// at `index` and above one place towards the end.
    pub fn insert_default_activity(&mut self, index: usize, current_date: Date)
        requires
            index <= old(self)@.len(),
            old(self).wf(),
            current_date.wf(),
        ensures
            final(self).wf(),
            final(self)@ =~~= old(self)@.insert(index as int, spec_default_activity(current_date)),
    {
        let ghost orig = self@;
        self.activities.insert(index, Activity::new_default(current_date));
        assert(self@ =~~= orig.insert(index as int, spec_default_activity(current_date)));
    }

    /// Remove the activity at `index`, unless it is the last one left: the
    /// collection never becomes empty, so removing the only activity leaves
    /// the data unchanged.
    pub fn remove_activity(&mut self, index: usize)
        requires
            index < old(self)@.len(),
            old(self).wf(),
        ensures
            final(self).wf(),
            old(self)@.len() > 1 ==> final(self)@ =~~= old(self)@.remove(index as int),
            old(self)@.len() <= 1 ==> final(self)@ =~~= old(self)@,
    {
        let ghost orig = self@;
        if self.activities.len() > 1 {
            self.activities.remove(index);
            assert(self@ =~~= orig.remove(index as int));
        }
    }
}

/// Inserting an activity at `index` and then removing at `index` restores
/// the original sequence: removal is the inverse of insertion.
pub proof fn lemma_insert_remove_inverse(s: Seq<ActivityModel>, a: ActivityModel, index: int)
    requires
        0 <= index <= s.len(),
    ensures
        s.insert(index, a).remove(index) =~~= s,
{
}

} // verus!
