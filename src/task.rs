use vstd::prelude::*;

use crate::day::DayOfWeek;
use crate::time::Time;

verus! {

/// A task filed under one day of the week.
#[derive(Debug, Clone)]
pub struct Task {
    /// Assigned by the store; never changes and is never reused.
    pub id: usize,
    /// The day the task is filed under.
    pub day: DayOfWeek,
    pub title: String,
    pub time: Time,
    pub desc: String,
}

/// A task as the store lists it: day, identifier, title, time, description.
pub type TaskEntry = (DayOfWeek, usize, String, Time, String);

pub open spec fn entry_of(t: Task) -> TaskEntry {
    (t.day, t.id, t.title, t.time, t.desc)
}

/// Whether `a` and `b` are the same task in every field but those named.
pub open spec fn same_but_title(a: Task, b: Task) -> bool {
    a.id == b.id && a.day == b.day && a.time == b.time && a.desc@ == b.desc@
}

pub open spec fn same_but_desc(a: Task, b: Task) -> bool {
    a.id == b.id && a.day == b.day && a.time == b.time && a.title@ == b.title@
}

pub open spec fn same_but_time(a: Task, b: Task) -> bool {
    a.id == b.id && a.day == b.day && a.title@ == b.title@ && a.desc@ == b.desc@
}

pub open spec fn same_but_day(a: Task, b: Task) -> bool {
    a.id == b.id && a.time == b.time && a.title@ == b.title@ && a.desc@ == b.desc@
}

impl Task {
    pub fn edit_title(&mut self, title: String)
        ensures
            same_but_title(*final(self), *old(self)),
            final(self).title@ == title@,
    {
        self.title = title;
    }

    pub fn edit_desc(&mut self, desc: String)
        ensures
            same_but_desc(*final(self), *old(self)),
            final(self).desc@ == desc@,
    {
        self.desc = desc;
    }

    pub fn edit_time(&mut self, time: Time)
        ensures
            same_but_time(*final(self), *old(self)),
            final(self).time == time,
    {
        self.time = time;
    }
}

} // verus!
