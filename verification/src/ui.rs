//! The interaction state machine: how abstract input events — a click on a
//! day box, a click on a side button, a typed character — change the view
//! state and the user data, depending on the current interaction mode. The
//! pixel work of finding which box or button was hit, and all drawing, is an
//! outside collaborator that reports events in these abstract terms.

use vstd::prelude::*;
use crate::date_util::Date;
use crate::streak::{
    HasDate, NActivitiesCache, compute_n_activities_cache, find_current_streak,
    find_longest_streak, spec_current_streak, spec_longest_streak_upto,
};
use crate::user_data::{ActivityModel, UserData, spec_default_activity, spec_toggled};

verus! {

/// Which side button was activated.
#[derive(Clone, Copy, PartialEq, Eq, Structural, Debug)]
pub enum Id {
    CurrentActivity,
    PrevActivity,
    AddActivity,
    RemActivity,
    NextActivity,
    Overview,
    SetStartingDate,
    EditMode,
}

/// How a side button is drawn.
#[derive(Clone, Copy, PartialEq, Eq, Structural, Debug)]
pub enum Kind {
    RectWithText,
    Sprite,
}

/// How the next input event is interpreted.
#[derive(Clone, Copy, PartialEq, Eq, Structural, Debug)]
pub enum InteractMode {
    /// Day clicks toggle dates; buttons act.
    Normal,
    /// The next day click sets the current activity's starting date.
    StartingDateSelect,
    /// Typed characters edit the current activity's name.
    ActivityRename,
}

/// The view state a session carries between events: the interaction mode,
/// which activity is current, the overview and edit toggles, the per-day
/// activity tally, and the two streak numbers shown.
pub struct UiState {
    pub imode: InteractMode,
    pub current_activity: usize,
    pub overview: bool,
    pub edit_mode: bool,
    pub n_activities_cache: NActivitiesCache,
    pub longest_streak: u32,
    pub current_streak: u32,
}

/// The earliest starting date among the activities.
pub open spec fn spec_min_start(activities: Seq<ActivityModel>) -> Date
    recommends
        activities.len() >= 1,
    decreases activities.len(),
{
    if activities.len() <= 1 {
        activities[0].starting_date
    } else {
        let m = spec_min_start(activities.drop_last());
        if activities.last().starting_date.before(m) {
            activities.last().starting_date
        } else {
            m
        }
    }
}

/// The earliest starting date among the activities.
#[verifier::loop_isolation(false)]
pub fn earliest_starting_date(user_data: &UserData) -> (r: Date)
    requires
        user_data.wf(),
        user_data@.len() >= 1,
    ensures
        r == spec_min_start(user_data@),
        r.wf(),
{
    let mut m = user_data.activities[0].starting_date;
    proof {
        assert(user_data@[0] == user_data.activities@[0]@);
        assert(user_data@.take(1)[0] == user_data@[0]);
    }
    let mut i: usize = 1;
    while i < user_data.activities.len()
        invariant
            1 <= i <= user_data@.len(),
            m == spec_min_start(user_data@.take(i as int)),
            m.wf(),
        decreases user_data@.len() - i,
    {
        proof {
            assert(user_data@[i as int] == user_data.activities@[i as int]@);
            assert(user_data@.take(i + 1).drop_last() =~= user_data@.take(i as int));
            assert(user_data@.take(i + 1).last() == user_data@[i as int]);
        }
        let d = user_data.activities[i].starting_date;
        if !m.le(d) {
            m = d;
        }
        i += 1;
    }
    proof {
        assert(user_data@.take(user_data@.len() as int) =~= user_data@);
    }
    m
}

/// Whether a click on `box_date` toggles it: always in edit mode, otherwise
/// only on the current day or the day before it.
pub open spec fn spec_day_click_toggles(edit_mode: bool, box_date: Date, current_date: Date) -> bool {
    edit_mode || box_date == current_date || box_date == current_date.spec_pred()
}

impl UiState {
    /// The current activity index names an activity.
    pub open spec fn index_ok(self, user_data: UserData) -> bool {
        self.current_activity < user_data@.len()
    }

    /// A fresh view state: normal mode, the first activity current, overview
    /// and edit mode off, an empty tally, no streaks yet.
    pub fn new() -> (r: UiState)
        ensures
            r.imode == InteractMode::Normal,
            r.current_activity == 0,
            !r.overview,
            !r.edit_mode,
            r.n_activities_cache.wf(),
            forall|d: Date| crate::streak::spec_lookup(r.n_activities_cache.entries@, d) == 0,
            r.longest_streak == 0,
            r.current_streak == 0,
    {
        UiState {
            imode: InteractMode::Normal,
            current_activity: 0,
            overview: false,
            edit_mode: false,
            n_activities_cache: NActivitiesCache::new(),
            longest_streak: 0,
            current_streak: 0,
        }
    }

    /// The date set the streaks are computed over: the current activity's
    /// dates, or in overview every date some activity has marked.
    pub open spec fn streak_dates(self, user_data: UserData) -> Set<Date> {
        if self.overview {
            self.n_activities_cache.date_set()
        } else {
            user_data@[self.current_activity as int].dates.to_set()
        }
    }

    /// The day the longest-streak walk starts from: the current activity's
    /// starting date, or in overview the earliest one.
    pub open spec fn streak_start(self, user_data: UserData) -> Date {
        if self.overview {
            spec_min_start(user_data@)
        } else {
            user_data@[self.current_activity as int].starting_date
        }
    }

    /// Recompute the two streak numbers for the current view: the current
    /// activity's dates, or in overview the aggregated tally, walked from the
    /// matching starting date.
    pub fn update_streaks(&mut self, user_data: &UserData, current_date: Date)
        requires
            user_data.wf(),
            user_data@.len() >= 1,
            old(self).index_ok(*user_data),
            old(self).n_activities_cache.wf(),
            current_date.wf(),
            old(self).streak_start(*user_data).on_or_before(current_date),
        ensures
            final(self).current_streak == spec_current_streak(
                old(self).streak_dates(*user_data),
                current_date,
            ),
            final(self).longest_streak == spec_longest_streak_upto(
                old(self).streak_dates(*user_data),
                old(self).streak_start(*user_data),
                current_date,
            ),
            final(self).imode == old(self).imode,
            final(self).current_activity == old(self).current_activity,
            final(self).overview == old(self).overview,
            final(self).edit_mode == old(self).edit_mode,
            final(self).n_activities_cache == old(self).n_activities_cache,
    {
        if self.overview {
            self.current_streak = find_current_streak(&self.n_activities_cache, current_date);
            let earliest_start = earliest_starting_date(user_data);
            self.longest_streak = find_longest_streak(
                earliest_start,
                &self.n_activities_cache,
                current_date,
            );
        } else {
            proof {
                assert(user_data@[self.current_activity as int] == user_data.activities@[
                    self.current_activity as int]@);
            }
            let activity = &user_data.activities[self.current_activity];
            self.current_streak = find_current_streak(&activity.dates, current_date);
            self.longest_streak = find_longest_streak(
                activity.starting_date,
                &activity.dates,
                current_date,
            );
        }
    }

    /// Rebuild the per-day tally from the data and recompute the streaks, as
    /// happens after every mutation.
    pub fn refresh(&mut self, user_data: &UserData, current_date: Date)
        requires
            user_data.wf(),
            1 <= user_data@.len() <= u32::MAX,
            old(self).index_ok(*user_data),
            current_date.wf(),
            old(self).overview ==> spec_min_start(user_data@).on_or_before(current_date),
            !old(self).overview ==> user_data@[old(
                self,
            ).current_activity as int].starting_date.on_or_before(current_date),
        ensures
            final(self).n_activities_cache.wf(),
            forall|d: Date|
                crate::streak::spec_lookup(final(self).n_activities_cache.entries@, d)
                    == crate::streak::spec_activity_count(user_data@, d),
            final(self).current_streak == spec_current_streak(
                final(self).streak_dates(*user_data),
                current_date,
            ),
            final(self).longest_streak == spec_longest_streak_upto(
                final(self).streak_dates(*user_data),
                final(self).streak_start(*user_data),
                current_date,
            ),
            final(self).imode == old(self).imode,
            final(self).current_activity == old(self).current_activity,
            final(self).overview == old(self).overview,
            final(self).edit_mode == old(self).edit_mode,
    {
        compute_n_activities_cache(&mut self.n_activities_cache, user_data);
        self.update_streaks(user_data, current_date);
    }

    /// Interpret a click on the day box of `box_date`. In normal mode it
    /// toggles the date on the current activity, when the rule allows: any
    /// box in edit mode, otherwise only today or yesterday. While selecting
    /// a starting date it sets the current activity's starting date and
    /// returns to normal mode. While renaming it does nothing.
    pub fn handle_day_click(&mut self, user_data: &mut UserData, box_date: Date, current_date: Date)
        requires
            old(user_data).wf(),
            old(self).index_ok(*old(user_data)),
            box_date.wf(),
            current_date.wf(),
            old(self).imode == InteractMode::Normal ==> !current_date.is_min(),
        ensures
            final(user_data).wf(),
            final(self).index_ok(*final(user_data)),
            final(user_data)@.len() == old(user_data)@.len(),
            final(self).current_activity == old(self).current_activity,
            final(self).overview == old(self).overview,
            final(self).edit_mode == old(self).edit_mode,
            final(self).n_activities_cache == old(self).n_activities_cache,
            final(self).current_streak == old(self).current_streak,
            final(self).longest_streak == old(self).longest_streak,
            match old(self).imode {
                InteractMode::Normal => {
                    let i = old(self).current_activity as int;
                    &&& final(self).imode == InteractMode::Normal
                    &&& forall|j: int|
                        0 <= j < old(user_data)@.len() && j != i ==> final(user_data)@[j] == old(
                            user_data,
                        )@[j]
                    &&& final(user_data)@[i].name == old(user_data)@[i].name
                    &&& final(user_data)@[i].starting_date == old(user_data)@[i].starting_date
                    &&& if spec_day_click_toggles(old(self).edit_mode, box_date, current_date) {
                        final(user_data)@[i].dates.to_set() =~= spec_toggled(
                            old(user_data)@[i].dates.to_set(),
                            box_date,
                        )
                    } else {
                        final(user_data)@[i].dates == old(user_data)@[i].dates
                    }
                },
                InteractMode::StartingDateSelect => {
                    let i = old(self).current_activity as int;
                    &&& final(self).imode == InteractMode::Normal
                    &&& forall|j: int|
                        0 <= j < old(user_data)@.len() && j != i ==> final(user_data)@[j] == old(
                            user_data,
                        )@[j]
                    &&& final(user_data)@[i].name == old(user_data)@[i].name
                    &&& final(user_data)@[i].starting_date == box_date
                    &&& final(user_data)@[i].dates == old(user_data)@[i].dates
                },
                InteractMode::ActivityRename => {
                    &&& final(self).imode == InteractMode::ActivityRename
                    &&& final(user_data)@ == old(user_data)@
                },
            },
    {
        let ghost orig = user_data@;
        match self.imode {
            InteractMode::Normal => {
                let toggles = self.edit_mode || {
                    let yesterday = current_date.pred();
                    box_date == current_date || box_date == yesterday
                };
                if toggles {
                    proof {
                        assert(user_data@[self.current_activity as int] == user_data.activities@[
                            self.current_activity as int]@);
                    }
                    user_data.activities[self.current_activity].toggle_date(box_date);
                    proof {
                        lemma_view_after_element_update(
                            orig,
                            user_data@,
                            user_data.activities@,
                            self.current_activity as int,
                        );
                    }
                }
            },
            InteractMode::StartingDateSelect => {
                proof {
                    assert(user_data@[self.current_activity as int] == user_data.activities@[
                        self.current_activity as int]@);
                }
                user_data.activities[self.current_activity].starting_date = box_date;
                self.imode = InteractMode::Normal;
                proof {
                    lemma_view_after_element_update(
                        orig,
                        user_data@,
                        user_data.activities@,
                        self.current_activity as int,
                    );
                }
            },
            InteractMode::ActivityRename => {
            },
        }
    }

    /// Interpret a click on the side button `id`. In normal mode the buttons
    /// act: start renaming, step to the previous or next activity, add a
    /// fresh activity after the current one, remove the current activity
    /// unless it is the last one left, toggle overview, start selecting a
    /// starting date, toggle edit mode. While selecting a starting date only
    /// the same button acts, cancelling back to normal mode. While renaming
    /// buttons do nothing.
    pub fn handle_button(&mut self, user_data: &mut UserData, id: Id, current_date: Date)
        requires
            old(user_data).wf(),
            1 <= old(user_data)@.len() < usize::MAX,
            old(self).index_ok(*old(user_data)),
            current_date.wf(),
        ensures
            final(user_data).wf(),
            final(user_data)@.len() >= 1,
            final(self).index_ok(*final(user_data)),
            final(self).n_activities_cache == old(self).n_activities_cache,
            final(self).current_streak == old(self).current_streak,
            final(self).longest_streak == old(self).longest_streak,
            match old(self).imode {
                InteractMode::Normal => {
                    let i = old(self).current_activity as int;
                    &&& final(self).overview == (old(self).overview != (id == Id::Overview))
                    &&& final(self).edit_mode == (old(self).edit_mode != (id == Id::EditMode))
                    &&& final(self).imode == (if id == Id::CurrentActivity {
                        InteractMode::ActivityRename
                    } else if id == Id::SetStartingDate {
                        InteractMode::StartingDateSelect
                    } else {
                        InteractMode::Normal
                    })
                    &&& match id {
                        Id::PrevActivity => {
                            &&& final(user_data)@ == old(user_data)@
                            &&& final(self).current_activity as int == (if i > 0 {
                                i - 1
                            } else {
                                0
                            })
                        },
                        Id::NextActivity => {
                            &&& final(user_data)@ == old(user_data)@
                            &&& final(self).current_activity as int == (if i + 1 < old(
                                user_data,
                            )@.len() {
                                i + 1
                            } else {
                                i
                            })
                        },
                        Id::AddActivity => {
                            &&& final(user_data)@ =~~= old(user_data)@.insert(
                                i + 1,
                                spec_default_activity(current_date),
                            )
                            &&& final(self).current_activity as int == i + 1
                        },
                        Id::RemActivity => {
                            &&& if old(user_data)@.len() > 1 {
                                final(user_data)@ =~~= old(user_data)@.remove(i)
                            } else {
                                final(user_data)@ == old(user_data)@
                            }
                            &&& final(self).current_activity as int == (if old(user_data)@.len()
                                > 1 && i > 0 {
                                i - 1
                            } else {
                                i
                            })
                        },
                        _ => {
                            &&& final(user_data)@ == old(user_data)@
                            &&& final(self).current_activity == old(self).current_activity
                        },
                    }
                },
                InteractMode::StartingDateSelect => {
                    &&& final(user_data)@ == old(user_data)@
                    &&& final(self).current_activity == old(self).current_activity
                    &&& final(self).overview == old(self).overview
                    &&& final(self).edit_mode == old(self).edit_mode
                    &&& final(self).imode == (if id == Id::SetStartingDate {
                        InteractMode::Normal
                    } else {
                        InteractMode::StartingDateSelect
                    })
                },
                InteractMode::ActivityRename => {
                    &&& final(user_data)@ == old(user_data)@
                    &&& final(self).current_activity == old(self).current_activity
                    &&& final(self).overview == old(self).overview
                    &&& final(self).edit_mode == old(self).edit_mode
                    &&& final(self).imode == InteractMode::ActivityRename
                },
            },
    {
        match self.imode {
            InteractMode::Normal => {
                match id {
                    Id::CurrentActivity => {
                        self.imode = InteractMode::ActivityRename;
                    },
                    Id::PrevActivity => {
                        if self.current_activity > 0 {
                            self.current_activity = self.current_activity - 1;
                        }
                    },
                    Id::AddActivity => {
                        user_data.insert_default_activity(self.current_activity + 1, current_date);
                        self.current_activity = self.current_activity + 1;
                    },
                    Id::RemActivity => {
                        if user_data.activities.len() > 1 {
                            user_data.remove_activity(self.current_activity);
                            if self.current_activity > 0 {
                                self.current_activity = self.current_activity - 1;
                            }
                        }
                    },
                    Id::NextActivity => {
                        if self.current_activity < user_data.activities.len() - 1 {
                            self.current_activity = self.current_activity + 1;
                        }
                    },
                    Id::Overview => {
                        self.overview = !self.overview;
                    },
                    Id::SetStartingDate => {
                        self.imode = InteractMode::StartingDateSelect;
                    },
                    Id::EditMode => {
                        self.edit_mode = !self.edit_mode;
                    },
                }
            },
            InteractMode::StartingDateSelect => {
                if matches!(id, Id::SetStartingDate) {
                    self.imode = InteractMode::Normal;
                }
            },
            InteractMode::ActivityRename => {
            },
        }
    }

    /// Interpret a typed character. While renaming, a backspace removes the
    /// last character of the current activity's name, a carriage return
    /// commits the rename and returns to normal mode, and any other
    /// character is appended to the name. In the other modes typing does
    /// nothing.
    pub fn handle_text(&mut self, user_data: &mut UserData, c: char)
        requires
            old(user_data).wf(),
            old(self).index_ok(*old(user_data)),
        ensures
            final(user_data).wf(),
            final(self).index_ok(*final(user_data)),
            final(user_data)@.len() == old(user_data)@.len(),
            final(self).current_activity == old(self).current_activity,
            final(self).overview == old(self).overview,
            final(self).edit_mode == old(self).edit_mode,
            final(self).n_activities_cache == old(self).n_activities_cache,
            final(self).current_streak == old(self).current_streak,
            final(self).longest_streak == old(self).longest_streak,
            match old(self).imode {
                InteractMode::ActivityRename => {
                    let i = old(self).current_activity as int;
                    &&& forall|j: int|
                        0 <= j < old(user_data)@.len() && j != i ==> final(user_data)@[j] == old(
                            user_data,
                        )@[j]
                    &&& final(user_data)@[i].starting_date == old(user_data)@[i].starting_date
                    &&& final(user_data)@[i].dates == old(user_data)@[i].dates
                    &&& if c == '\u{8}' {
                        &&& final(self).imode == InteractMode::ActivityRename
                        &&& final(user_data)@[i].name == (if old(user_data)@[i].name.len() > 0 {
                            old(user_data)@[i].name.drop_last()
                        } else {
                            old(user_data)@[i].name
                        })
                    } else if c == '\r' {
                        &&& final(self).imode == InteractMode::Normal
                        &&& final(user_data)@[i].name == old(user_data)@[i].name
                    } else {
                        &&& final(self).imode == InteractMode::ActivityRename
                        &&& final(user_data)@[i].name == old(user_data)@[i].name.push(c)
                    }
                },
                _ => {
                    &&& final(self).imode == old(self).imode
                    &&& final(user_data)@ == old(user_data)@
                },
            },
    {
        let ghost orig = user_data@;
        if matches!(self.imode, InteractMode::ActivityRename) {
            proof {
                assert(user_data@[self.current_activity as int] == user_data.activities@[
                    self.current_activity as int]@);
            }
            if c == '\u{8}' {
                pop_char(&mut user_data.activities[self.current_activity].name);
            } else if c == '\r' {
                self.imode = InteractMode::Normal;
            } else {
                push_char(&mut user_data.activities[self.current_activity].name, c);
            }
            proof {
                lemma_view_after_element_update(
                    orig,
                    user_data@,
                    user_data.activities@,
                    self.current_activity as int,
                );
            }
        }
    }
}

/// When only the activity at `i` was replaced, every other model is
/// unchanged.
proof fn lemma_view_after_element_update(
    orig: Seq<ActivityModel>,
    now: Seq<ActivityModel>,
    activities: Seq<crate::user_data::Activity>,
    i: int,
)
    requires
        now == activities.map_values(|a: crate::user_data::Activity| a@),
        orig.len() == now.len(),
        forall|j: int| 0 <= j < now.len() && j != i ==> activities[j]@ == orig[j],
    ensures
        forall|j: int| 0 <= j < now.len() && j != i ==> now[j] == orig[j],
        forall|j: int| 0 <= j < now.len() ==> now[j] == activities[j]@,
{
    assert forall|j: int| 0 <= j < now.len() implies now[j] == activities[j]@ by {
        assert(now[j] == activities.map_values(|a: crate::user_data::Activity| a@)[j]);
    }
}

/// Relies on `String::push`: it appends exactly the given character.
#[verifier::external_body]
fn push_char(s: &mut String, c: char)
    ensures
        final(s)@ == old(s)@.push(c),
{
    s.push(c);
}

/// Relies on `String::pop`: it removes and returns the last character, and
/// leaves an empty string empty.
#[verifier::external_body]
fn pop_char(s: &mut String) -> (r: Option<char>)
    ensures
        old(s)@.len() == 0 ==> r is None && final(s)@ == old(s)@,
        old(s)@.len() > 0 ==> r == Some(old(s)@.last()) && final(s)@ == old(s)@.drop_last(),
{
    s.pop()
}

} // verus!
