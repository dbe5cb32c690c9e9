use vstd::prelude::*;

use crate::day::{all_days, day_named, string_to_day, week, DayOfWeek, DAYS_IN_WEEK};
use crate::table::{day_table, table_get, table_insert, table_new, DayTable};
use crate::task::{
    entry_of, same_but_day, same_but_desc, same_but_time, same_but_title, Task, TaskEntry,
};
use crate::time::{clock_le, parse_clock, SchedulerError, Time};

verus! {

/// Which field of a task an edit replaces.
#[derive(Debug, Clone, Copy, PartialEq, Eq, Structural)]
pub enum TaskAttribute {
    Title,
    Day,
    Time,
    Desc,
}

/// Tasks in non-decreasing order of time.
pub open spec fn sorted_by_time(s: Seq<Task>) -> bool {
    forall|i: int, j: int|
        0 <= i < j < s.len() ==> clock_le(#[trigger] s[i].time@, #[trigger] s[j].time@)
}

/// Whether the task at `k` of `s` stays ahead of `t` when `t` joins `s` and
/// the whole is sorted stably by time, the first `earlier` tasks of `s` having
/// been there before `t`: those ahead of it at the same time stay ahead.
pub open spec fn goes_before(s: Seq<Task>, k: int, t: Task, earlier: int) -> bool {
    if k < earlier {
        clock_le(s[k].time@, t.time@)
    } else {
        !clock_le(t.time@, s[k].time@)
    }
}

/// `p` is where a stable sort by time puts `t` among `s`.
pub open spec fn stable_slot(s: Seq<Task>, t: Task, earlier: int, p: int) -> bool {
    &&& 0 <= p <= s.len()
    &&& forall|k: int| 0 <= k < p ==> goes_before(s, k, t, earlier)
    &&& forall|k: int| p <= k < s.len() ==> !goes_before(s, k, t, earlier)
}

/// `r` is `s` with `t` joined at the place a stable sort by time gives it.
pub open spec fn placed_in_order(s: Seq<Task>, t: Task, earlier: int, r: Seq<Task>) -> bool {
    exists|p: int| stable_slot(s, t, earlier, p) && r == s.insert(p, t)
}

/// Puts `t` into the sorted `v` where a stable sort by time would put it.
fn insert_in_order(v: &mut Vec<Task>, t: Task, earlier: usize) -> (p: usize)
    requires
        sorted_by_time(old(v)@),
    ensures
        stable_slot(old(v)@, t, earlier as int, p as int),
        final(v)@ == old(v)@.insert(p as int, t),
        sorted_by_time(final(v)@),
{
    let n = v.len();
    let mut p: usize = 0;
    let mut done = false;
    while !done && p < n
        invariant
            p <= n,
            n == v@.len(),
            v@ == old(v)@,
            sorted_by_time(v@),
            forall|k: int| 0 <= k < p ==> goes_before(v@, k, t, earlier as int),
            done ==> p < n && !goes_before(v@, p as int, t, earlier as int),
        decreases n - p + if done {
            0int
        } else {
            1int
        },
    {
        let ahead = if p < earlier {
            v[p].time.at_or_before(&t.time)
        } else {
            !t.time.at_or_before(&v[p].time)
        };
        if ahead {
            p = p + 1;
        } else {
            done = true;
        }
    }
    let ghost s = v@;
    proof {
        assert forall|k: int| p <= k < s.len() implies !goes_before(s, k, t, earlier as int) by {
            if k > p {
                assert(clock_le(s[p as int].time@, s[k].time@));
            }
        }
    }
    v.insert(p, t);
    proof {
        s.insert_ensures(p as int, t);
        let r = v@;
        assert forall|i: int, j: int| 0 <= i < j < r.len() implies clock_le(
            #[trigger] r[i].time@,
            #[trigger] r[j].time@,
        ) by {
            if j < p {
            } else if j == p {
                assert(goes_before(s, i, t, earlier as int));
            } else if i < p {
                assert(goes_before(s, i, t, earlier as int));
                assert(!goes_before(s, j - 1, t, earlier as int));
            } else if i == p {
                assert(!goes_before(s, j - 1, t, earlier as int));
            } else {
                assert(r[i] == s[i - 1]);
                assert(r[j] == s[j - 1]);
            }
        }
    }
    p
}

/// The key under which a day's tasks are stored.
pub open spec fn day_key(d: DayOfWeek) -> u8 {
    d.index() as u8
}

proof fn lemma_day_key_injective(a: DayOfWeek, b: DayOfWeek)
    ensures
        day_key(a) == day_key(b) ==> a == b,
{
    match a {
        DayOfWeek::Mon => {},
        DayOfWeek::Tue => {},
        DayOfWeek::Wed => {},
        DayOfWeek::Thu => {},
        DayOfWeek::Fri => {},
        DayOfWeek::Sat => {},
        DayOfWeek::Sun => {},
    }
}

/// The error that editing task `id` of `pre` with `text` gives, if any.
pub open spec fn edit_error(pre: List, id: usize, atb: TaskAttribute, text: Seq<char>) -> Option<
    SchedulerError,
> {
    if !pre.contains_id(id) {
        Some(SchedulerError::NotFound)
    } else {
        match atb {
            TaskAttribute::Time => match parse_clock(text) {
                Ok(_) => None,
                Err(e) => Some(e),
            },
            TaskAttribute::Day => match day_named(text) {
                Some(_) => None,
                None => Some(SchedulerError::UnresolvedDay),
            },
            _ => None,
        }
    }
}

/// `post` is `pre` after the task at `i` of day `d` had `atb` set from `text`.
pub open spec fn edited(
    pre: List,
    post: List,
    d: DayOfWeek,
    i: int,
    atb: TaskAttribute,
    text: Seq<char>,
) -> bool {
    let was = pre.tasks_on(d)[i];
    let rest = pre.tasks_on(d).remove(i);
    match atb {
        TaskAttribute::Title => List::same_except(post, pre, d) && exists|t: Task|
            same_but_title(t, was) && t.title@ == text && #[trigger] pre.tasks_on(d).update(i, t)
                == post.tasks_on(d),
        TaskAttribute::Desc => List::same_except(post, pre, d) && exists|t: Task|
            same_but_desc(t, was) && t.desc@ == text && #[trigger] pre.tasks_on(d).update(i, t)
                == post.tasks_on(d),
        TaskAttribute::Time => match parse_clock(text) {
            Ok(v) => List::same_except(post, pre, d) && exists|t: Task|
                same_but_time(t, was) && t.time@ == v && #[trigger] placed_in_order(
                    rest,
                    t,
                    i,
                    post.tasks_on(d),
                ),
            Err(_) => false,
        },
        TaskAttribute::Day => match day_named(text) {
            Some(nd) => exists|t: Task|
                #[trigger] same_but_day(t, was) && t.day == nd && if nd == d {
                    List::same_except(post, pre, d) && placed_in_order(
                        rest,
                        t,
                        rest.len() as int,
                        post.tasks_on(d),
                    )
                } else {
                    &&& post.tasks_on(d) == rest
                    &&& placed_in_order(
                        pre.tasks_on(nd),
                        t,
                        pre.tasks_on(nd).len() as int,
                        post.tasks_on(nd),
                    )
                    &&& forall|e: DayOfWeek|
                        e != d && e != nd ==> #[trigger] post.tasks_on(e) == pre.tasks_on(e)
                },
            None => false,
        },
    }
}

/// What the schedule lists from its first `k` days, in order.
pub open spec fn listing_upto(l: List, k: nat) -> Seq<TaskEntry>
    decreases k,
{
    if k == 0 {
        Seq::<TaskEntry>::empty()
    } else {
        listing_upto(l, (k - 1) as nat) + l.tasks_on(week()[k - 1]).map_values(
            |t: Task| entry_of(t),
        )
    }
}

/// The schedule: for each day of the week, its tasks in order of time.
pub struct List {
    next_id: usize,
    schedule: DayTable,
}

impl List {
    /// The identifier the next new task gets; every identifier below it has been handed out.
    pub closed spec fn issued(&self) -> nat {
        self.next_id as nat
    }

    /// Every day of the week has an entry.
    pub closed spec fn has_every_day(&self) -> bool {
        forall|d: DayOfWeek| #[trigger] day_table(self.schedule).contains_key(day_key(d))
    }

    /// The tasks filed under `d`, in order.
    pub closed spec fn tasks_on(&self, d: DayOfWeek) -> Seq<Task> {
        day_table(self.schedule)[day_key(d)]
    }

    /// The task at `i` of day `d` has identifier `id`.
    pub open spec fn located(&self, d: DayOfWeek, i: int, id: usize) -> bool {
        0 <= i < self.tasks_on(d).len() && self.tasks_on(d)[i].id == id
    }

    /// Some task has identifier `id`.
    pub open spec fn contains_id(&self, id: usize) -> bool {
        exists|d: DayOfWeek, i: int| self.located(d, i, id)
    }

    /// No two tasks of the whole schedule share an identifier.
    pub open spec fn ids_unique(&self) -> bool {
        forall|d1: DayOfWeek, i: int, d2: DayOfWeek, j: int|
            0 <= i < self.tasks_on(d1).len() && 0 <= j < self.tasks_on(d2).len() && (
            #[trigger] self.tasks_on(d1)[i]).id == (#[trigger] self.tasks_on(d2)[j]).id ==> d1
                == d2 && i == j
    }

    pub open spec fn well_formed(&self) -> bool {
        &&& self.has_every_day()
        &&& forall|d: DayOfWeek| sorted_by_time(#[trigger] self.tasks_on(d))
        &&& forall|d: DayOfWeek, i: int|
            0 <= i < self.tasks_on(d).len() ==> (#[trigger] self.tasks_on(d)[i]).day == d
                && self.tasks_on(d)[i].id < self.issued()
        &&& self.ids_unique()
    }

    /// Every day but `d` holds the same tasks in `a` and `b`.
    pub open spec fn same_except(a: List, b: List, d: DayOfWeek) -> bool {
        forall|e: DayOfWeek| e != d ==> #[trigger] a.tasks_on(e) == b.tasks_on(e)
    }

    /// Takes the tasks of `d` out, leaving that day empty.
    fn take_day(&mut self, d: DayOfWeek) -> (v: Vec<Task>)
        requires
            old(self).has_every_day(),
        ensures
            final(self).has_every_day(),
            v@ == old(self).tasks_on(d),
            final(self).tasks_on(d) == Seq::<Task>::empty(),
            List::same_except(*final(self), *old(self), d),
            final(self).issued() == old(self).issued(),
    {
        let r = table_insert(&mut self.schedule, d.ordinal(), Vec::new());
        proof {
            assert forall|e: DayOfWeek| e != d implies #[trigger] self.tasks_on(e) == old(
                self,
            ).tasks_on(e) by {
                lemma_day_key_injective(e, d);
            }
        }
        match r {
            Some(v) => v,
            None => Vec::new(),
        }
    }

    /// Files `v` as the tasks of `d`.
    fn put_day(&mut self, d: DayOfWeek, v: Vec<Task>)
        requires
            old(self).has_every_day(),
        ensures
            final(self).has_every_day(),
            final(self).tasks_on(d) == v@,
            List::same_except(*final(self), *old(self), d),
            final(self).issued() == old(self).issued(),
    {
        let _ = table_insert(&mut self.schedule, d.ordinal(), v);
        proof {
            assert forall|e: DayOfWeek| e != d implies #[trigger] self.tasks_on(e) == old(
                self,
            ).tasks_on(e) by {
                lemma_day_key_injective(e, d);
            }
        }
    }
    /// An empty schedule: every day present, no task, identifiers starting at 0.
    pub fn new() -> (r: List)
        ensures
            r.well_formed(),
            r.issued() == 0,
            forall|d: DayOfWeek| #[trigger] r.tasks_on(d) == Seq::<Task>::empty(),
    {
        let mut schedule = table_new();
        let days = all_days();
        let mut k: usize = 0;
        while k < days.len()
            invariant
                k <= days@.len(),
                days@ == week(),
                forall|j: int|
                    0 <= j < k ==> day_table(schedule).contains_key(day_key(#[trigger] week()[j]))
                        && day_table(schedule)[day_key(week()[j])] == Seq::<Task>::empty(),
            decreases days.len() - k,
        {
            let d = days[k];
            let _ = table_insert(&mut schedule, d.ordinal(), Vec::new());
            k = k + 1;
        }
        let r = List { next_id: 0, schedule };
        proof {
            assert forall|d: DayOfWeek|
                #[trigger] day_table(r.schedule).contains_key(day_key(d)) && r.tasks_on(d)
                    == Seq::<Task>::empty() by {
                assert(week()[d.index() as int] == d);
            }
        }
        r
    }

    /// Files a new task under `day`, after the tasks of that day that come no
    /// later, and returns its identifier.
    pub fn add_task(&mut self, day: DayOfWeek, title: String, time: Time, desc: String) -> (id:
        usize)
        requires
            old(self).well_formed(),
            old(self).issued() < usize::MAX,
        ensures
            final(self).well_formed(),
            id == old(self).issued(),
            final(self).issued() == old(self).issued() + 1,
            !old(self).contains_id(id),
            placed_in_order(
                old(self).tasks_on(day),
                (Task { id, day, title, time, desc }),
                old(self).tasks_on(day).len() as int,
                final(self).tasks_on(day),
            ),
            sorted_by_time(final(self).tasks_on(day)),
            final(self).ids_unique(),
            List::same_except(*final(self), *old(self), day),
    {
        let id = self.next_id;
        let ghost s = self.tasks_on(day);
        let t = Task { id, day, title, time, desc };
        let ghost pre = *self;
        proof {
            assert forall|d: DayOfWeek, i: int| !pre.located(d, i, id) by {
                if pre.located(d, i, id) {
                    assert(pre.tasks_on(d)[i].id < pre.issued());
                }
            }
        }
        let n = match table_get(&self.schedule, day.ordinal()) {
            Some(v) => v.len(),
            None => 0,
        };
        self.next_id = id + 1;
        proof {
            assert forall|d: DayOfWeek| #[trigger] self.tasks_on(d) == pre.tasks_on(d) by {}
            assert(self.has_every_day());
            assert forall|d: DayOfWeek, i: int| !self.located(d, i, id) by {
                assert(self.tasks_on(d) == pre.tasks_on(d));
            }
            assert(self.ids_unique());
        }
        let _ = self.file_task(t, n);
        id
    }

    /// The identifier the next new task gets.
    pub fn next_id(&self) -> (r: usize)
        ensures
            r as nat == self.issued(),
    {
        self.next_id
    }

    /// Where the task with `target_id` is filed: its day and its place in that day.
    pub fn get_task(&self, target_id: usize) -> (r: Option<(DayOfWeek, usize)>)
        requires
            self.well_formed(),
        ensures
            r matches Some((d, i)) ==> self.located(d, i as int, target_id),
            r is None <==> !self.contains_id(target_id),
    {
        let days = all_days();
        let mut k: usize = 0;
        while k < days.len()
            invariant
                k <= days@.len(),
                days@ == week(),
                self.well_formed(),
                forall|j: int, i: int| 0 <= j < k ==> !#[trigger] self.located(week()[j], i, target_id),
            decreases days.len() - k,
        {
            let d = days[k];
            match table_get(&self.schedule, d.ordinal()) {
                Some(tasks) => {
                    let mut i: usize = 0;
                    while i < tasks.len()
                        invariant
                            i <= tasks@.len(),
                            tasks@ == self.tasks_on(d),
                            forall|m: int| 0 <= m < i ==> (#[trigger] tasks@[m]).id != target_id,
                        decreases tasks.len() - i,
                    {
                        if tasks[i].id == target_id {
                            assert(self.located(d, i as int, target_id));
                            return Some((d, i));
                        }
                        i = i + 1;
                    }
                    proof {
                        assert forall|m: int| !self.located(week()[k as int], m, target_id) by {
                            if 0 <= m < tasks@.len() {
                                assert(tasks@[m].id != target_id);
                            }
                        }
                    }
                },
                None => {},
            }
            k = k + 1;
        }
        proof {
            assert forall|d: DayOfWeek, i: int| !self.located(d, i, target_id) by {
                assert(week()[d.index() as int] == d);
            }
        }
        None
    }

    /// Removes the task with `target_id`, keeping the order of the rest;
    /// returns whether there was one.
    pub fn remove_task(&mut self, target_id: usize) -> (found: bool)
        requires
            old(self).well_formed(),
        ensures
            final(self).well_formed(),
            final(self).issued() == old(self).issued(),
            found == old(self).contains_id(target_id),
            !found ==> *final(self) == *old(self),
            found ==> exists|d: DayOfWeek, i: int|
                #[trigger] old(self).located(d, i, target_id) && final(self).tasks_on(d) == old(
                    self,
                ).tasks_on(d).remove(i) && List::same_except(*final(self), *old(self), d),
            !final(self).contains_id(target_id),
    {
        match self.get_task(target_id) {
            Some((d, i)) => {
                let _ = self.take_at(d, i);
                true
            },
            None => false,
        }
    }

    /// Sets field `atb` of the task with `id` from `new`. A new time is read
    /// as "hour.minute" and the day re-sorted; a new day is a day's name, and
    /// the task moves to that day with its identifier. On any error nothing changes.
    pub fn edit_task(&mut self, id: usize, atb: TaskAttribute, new: String) -> (r: Result<
        (),
        SchedulerError,
    >)
        requires
            old(self).well_formed(),
        ensures
            final(self).well_formed(),
            final(self).issued() == old(self).issued(),
            edit_error(*old(self), id, atb, new@) matches Some(e) ==> r == Err::<(), SchedulerError>(e)
                && *final(self) == *old(self),
            edit_error(*old(self), id, atb, new@) is None ==> r is Ok && exists|d: DayOfWeek, i: int|
                #[trigger] old(self).located(d, i, id) && edited(*old(self), *final(self), d, i, atb, new@),
    {
        let ghost pre = *self;
        let ghost text = new@;
        let (d, i) = match self.get_task(id) {
            Some(found) => found,
            None => {
                return Err(SchedulerError::NotFound);
            },
        };
        match atb {
            TaskAttribute::Title => {
                let mut t = self.take_at(d, i);
                t.edit_title(new);
                let ghost gt = t;
                let p = self.file_task(t, i);
                proof {
                    lemma_same_slot(pre.tasks_on(d), i as int, gt, p as int);
                    assert(pre.tasks_on(d).update(i as int, gt) == self.tasks_on(d));
                }
                Ok(())
            },
            TaskAttribute::Desc => {
                let mut t = self.take_at(d, i);
                t.edit_desc(new);
                let ghost gt = t;
                let p = self.file_task(t, i);
                proof {
                    lemma_same_slot(pre.tasks_on(d), i as int, gt, p as int);
                    assert(pre.tasks_on(d).update(i as int, gt) == self.tasks_on(d));
                }
                Ok(())
            },
            TaskAttribute::Time => {
                match Time::new(new) {
                    Ok(time) => {
                        let mut t = self.take_at(d, i);
                        t.edit_time(time);
                        let ghost gt = t;
                        let p = self.file_task(t, i);
                        proof {
                            assert(placed_in_order(pre.tasks_on(d).remove(i as int), gt, i as int, self.tasks_on(d))) by {
                                assert(stable_slot(pre.tasks_on(d).remove(i as int), gt, i as int, p as int));
                            }
                        }
                        Ok(())
                    },
                    Err(e) => Err(e),
                }
            },
            TaskAttribute::Day => {
                match string_to_day(new) {
                    Some(nd) => {
                        let mut t = self.take_at(d, i);
                        let ghost mid = *self;
                        let n = match table_get(&self.schedule, nd.ordinal()) {
                            Some(v) => v.len(),
                            None => 0,
                        };
                        t.day = nd;
                        let ghost gt = t;
                        let p = self.file_task(t, n);
                        proof {
                            assert(same_but_day(gt, pre.tasks_on(d)[i as int]));
                            assert(placed_in_order(mid.tasks_on(nd), gt, n as int, self.tasks_on(nd))) by {
                                assert(stable_slot(mid.tasks_on(nd), gt, n as int, p as int));
                            }
                            if nd != d {
                                assert(mid.tasks_on(nd) == pre.tasks_on(nd));
                                assert(self.tasks_on(d) == mid.tasks_on(d));
                                assert forall|e: DayOfWeek|
                                    e != d && e != nd implies #[trigger] self.tasks_on(e) == pre.tasks_on(e) by {
                                    assert(self.tasks_on(e) == mid.tasks_on(e));
                                }
                            }
                        }
                        Ok(())
                    },
                    None => Err(SchedulerError::UnresolvedDay),
                }
            },
        }
    }

    /// Every task as (day, identifier, title, time, description): the days
    /// Monday first, each day's tasks in order of time.
    pub fn all_tasks(&self) -> (r: Vec<TaskEntry>)
        requires
            self.well_formed(),
        ensures
            r@ == listing_upto(*self, DAYS_IN_WEEK as nat),
    {
        let days = all_days();
        let mut out: Vec<TaskEntry> = Vec::new();
        let mut k: usize = 0;
        while k < days.len()
            invariant
                k <= days@.len(),
                days@ == week(),
                self.well_formed(),
                out@ == listing_upto(*self, k as nat),
            decreases days.len() - k,
        {
            let d = days[k];
            match table_get(&self.schedule, d.ordinal()) {
                Some(tasks) => {
                    let ghost base = out@;
                    let mut i: usize = 0;
                    while i < tasks.len()
                        invariant
                            i <= tasks@.len(),
                            out@ == base + tasks@.take(i as int).map_values(|t: Task| entry_of(t)),
                        decreases tasks.len() - i,
                    {
                        let t = &tasks[i];
                        out.push((t.day, t.id, t.title.clone(), t.time, t.desc.clone()));
                        proof {
                            assert(tasks@.take(i as int + 1).map_values(|t: Task| entry_of(t))
                                =~= tasks@.take(i as int).map_values(|t: Task| entry_of(t)).push(
                                entry_of(tasks@[i as int]),
                            ));
                        }
                        i = i + 1;
                    }
                    proof {
                        assert(tasks@.take(tasks@.len() as int) == tasks@);
                    }
                },
                None => {
                    assert(day_table(self.schedule).contains_key(day_key(d)));
                },
            }
            k = k + 1;
        }
        out
    }

    /// Files `t` under its day, where a stable sort by time puts it.
    fn file_task(&mut self, t: Task, earlier: usize) -> (p: usize)
        requires
            old(self).well_formed(),
            !old(self).contains_id(t.id),
            t.id < old(self).issued(),
        ensures
            final(self).well_formed(),
            final(self).issued() == old(self).issued(),
            stable_slot(old(self).tasks_on(t.day), t, earlier as int, p as int),
            final(self).tasks_on(t.day) == old(self).tasks_on(t.day).insert(p as int, t),
            List::same_except(*final(self), *old(self), t.day),
    {
        let d = t.day;
        let ghost pre = *self;
        let ghost s = self.tasks_on(d);
        let mut v = self.take_day(d);
        let p = insert_in_order(&mut v, t, earlier);
        self.put_day(d, v);
        proof {
            s.insert_ensures(p as int, t);
            let post = *self;
            assert forall|e: DayOfWeek| sorted_by_time(#[trigger] post.tasks_on(e)) by {
                if e != d {
                    assert(post.tasks_on(e) == pre.tasks_on(e));
                }
            }
            assert forall|e: DayOfWeek, i: int| 0 <= i < post.tasks_on(e).len() implies (
            #[trigger] post.tasks_on(e)[i]).day == e && post.tasks_on(e)[i].id < post.issued() by {
                if e != d {
                    assert(post.tasks_on(e) == pre.tasks_on(e));
                } else if i < p {
                    assert(post.tasks_on(e)[i] == pre.tasks_on(e)[i]);
                } else if i > p {
                    assert(post.tasks_on(e)[i] == pre.tasks_on(e)[i - 1]);
                }
            }
            assert forall|d1: DayOfWeek, i: int, d2: DayOfWeek, j: int|
                0 <= i < post.tasks_on(d1).len() && 0 <= j < post.tasks_on(d2).len() && (
                #[trigger] post.tasks_on(d1)[i]).id == (#[trigger] post.tasks_on(d2)[j]).id implies d1
                == d2 && i == j by {
                let oi: int = if d1 != d || i < p {
                    i
                } else {
                    i - 1
                };
                let oj: int = if d2 != d || j < p {
                    j
                } else {
                    j - 1
                };
                if d1 != d {
                    assert(post.tasks_on(d1) == pre.tasks_on(d1));
                }
                if d2 != d {
                    assert(post.tasks_on(d2) == pre.tasks_on(d2));
                }
                if d1 == d && i == p {
                    if !(d2 == d && j == p) {
                        assert(post.tasks_on(d2)[j] == pre.tasks_on(d2)[oj]);
                        assert(pre.located(d2, oj, t.id));
                    }
                } else if d2 == d && j == p {
                    assert(post.tasks_on(d1)[i] == pre.tasks_on(d1)[oi]);
                    assert(pre.located(d1, oi, t.id));
                } else {
                    assert(post.tasks_on(d1)[i] == pre.tasks_on(d1)[oi]);
                    assert(post.tasks_on(d2)[j] == pre.tasks_on(d2)[oj]);
                }
            }
        }
        p
    }

    /// Takes out the task at `i` of day `d`.
    fn take_at(&mut self, d: DayOfWeek, i: usize) -> (t: Task)
        requires
            old(self).well_formed(),
            i < old(self).tasks_on(d).len(),
        ensures
            final(self).well_formed(),
            final(self).issued() == old(self).issued(),
            t == old(self).tasks_on(d)[i as int],
            final(self).tasks_on(d) == old(self).tasks_on(d).remove(i as int),
            List::same_except(*final(self), *old(self), d),
            !final(self).contains_id(t.id),
    {
        let ghost pre = *self;
        let ghost s = self.tasks_on(d);
        let mut v = self.take_day(d);
        let t = v.remove(i);
        self.put_day(d, v);
        proof {
            lemma_removal_order(pre, *self, d, i as int);
            lemma_removal_tags(pre, *self, d, i as int);
            lemma_removal_ids(pre, *self, d, i as int);
        }
        t
    }
}

impl Default for List {
    /// The empty schedule of `List::new`.
    fn default() -> (r: List)
        ensures
            r.well_formed(),
            r.issued() == 0,
            forall|d: DayOfWeek| #[trigger] r.tasks_on(d) == Seq::<Task>::empty(),
    {
        List::new()
    }
}

/// Removing the task at `i` keeps the others in the order they had: the task
/// at `a` afterwards is the one at `a`, or at `a + 1` from `i` on, before.
pub proof fn lemma_removal_keeps_order(s: Seq<Task>, i: int)
    requires
        0 <= i < s.len(),
    ensures
        forall|a: int|
            0 <= a < s.len() - 1 ==> #[trigger] s.remove(i)[a] == if a < i {
                s[a]
            } else {
                s[a + 1]
            },
        sorted_by_time(s) ==> sorted_by_time(s.remove(i)),
{
    s.remove_ensures(i);
    if sorted_by_time(s) {
        let r = s.remove(i);
        assert forall|a: int, b: int| 0 <= a < b < r.len() implies clock_le(
            #[trigger] r[a].time@,
            #[trigger] r[b].time@,
        ) by {
            let oa: int = if a < i { a } else { a + 1 };
            let ob: int = if b < i { b } else { b + 1 };
            assert(r[a] == s[oa]);
            assert(r[b] == s[ob]);
        }
    }
}

/// In a well-formed schedule a task found at `i` of day `d` is found nowhere
/// else: a task that moved to `d` is filed under that day alone.
pub proof fn lemma_filed_once(l: List, d: DayOfWeek, i: int, id: usize)
    requires
        l.well_formed(),
        l.located(d, i, id),
    ensures
        forall|e: DayOfWeek, j: int| #[trigger] l.located(e, j, id) ==> e == d && j == i,
{
    assert forall|e: DayOfWeek, j: int| #[trigger] l.located(e, j, id) implies e == d && j == i by {
        assert(l.tasks_on(e)[j].id == l.tasks_on(d)[i].id);
    }
}

/// What taking out the task at `i` of day `d` does to a schedule.
pub open spec fn removed_at(pre: List, post: List, d: DayOfWeek, i: int) -> bool {
    &&& pre.well_formed()
    &&& 0 <= i < pre.tasks_on(d).len()
    &&& post.has_every_day()
    &&& post.issued() == pre.issued()
    &&& post.tasks_on(d) == pre.tasks_on(d).remove(i)
    &&& List::same_except(post, pre, d)
}

proof fn lemma_removal_order(pre: List, post: List, d: DayOfWeek, i: int)
    requires
        removed_at(pre, post, d, i),
    ensures
        forall|e: DayOfWeek| sorted_by_time(#[trigger] post.tasks_on(e)),
{
    let s = pre.tasks_on(d);
    s.remove_ensures(i);
    assert forall|e: DayOfWeek| sorted_by_time(#[trigger] post.tasks_on(e)) by {
        if e != d {
            assert(post.tasks_on(e) == pre.tasks_on(e));
        } else {
            assert forall|a: int, b: int| 0 <= a < b < post.tasks_on(e).len() implies clock_le(
                #[trigger] post.tasks_on(e)[a].time@,
                #[trigger] post.tasks_on(e)[b].time@,
            ) by {
                let oa: int = if a < i { a } else { a + 1 };
                let ob: int = if b < i { b } else { b + 1 };
                assert(post.tasks_on(e)[a] == s[oa]);
                assert(post.tasks_on(e)[b] == s[ob]);
            }
        }
    }
}

proof fn lemma_removal_tags(pre: List, post: List, d: DayOfWeek, i: int)
    requires
        removed_at(pre, post, d, i),
    ensures
        forall|e: DayOfWeek, k: int| 0 <= k < post.tasks_on(e).len() ==> (
        #[trigger] post.tasks_on(e)[k]).day == e && post.tasks_on(e)[k].id < post.issued(),
{
    let s = pre.tasks_on(d);
    s.remove_ensures(i);
    assert forall|e: DayOfWeek, k: int| 0 <= k < post.tasks_on(e).len() implies (
    #[trigger] post.tasks_on(e)[k]).day == e && post.tasks_on(e)[k].id < post.issued() by {
        if e != d {
            assert(post.tasks_on(e) == pre.tasks_on(e));
        } else if k < i {
            assert(post.tasks_on(e)[k] == s[k]);
        } else {
            assert(post.tasks_on(e)[k] == s[k + 1]);
        }
    }
}

proof fn lemma_removal_ids(pre: List, post: List, d: DayOfWeek, i: int)
    requires
        removed_at(pre, post, d, i),
    ensures
        post.ids_unique(),
        !post.contains_id(pre.tasks_on(d)[i].id),
{
    let s = pre.tasks_on(d);
    s.remove_ensures(i);
    assert forall|d1: DayOfWeek, a: int, d2: DayOfWeek, b: int|
        0 <= a < post.tasks_on(d1).len() && 0 <= b < post.tasks_on(d2).len() && (
        #[trigger] post.tasks_on(d1)[a]).id == (#[trigger] post.tasks_on(d2)[b]).id implies d1
        == d2 && a == b by {
        let oa: int = if d1 != d || a < i { a } else { a + 1 };
        let ob: int = if d2 != d || b < i { b } else { b + 1 };
        if d1 != d {
            assert(post.tasks_on(d1) == pre.tasks_on(d1));
        }
        if d2 != d {
            assert(post.tasks_on(d2) == pre.tasks_on(d2));
        }
        assert(post.tasks_on(d1)[a] == pre.tasks_on(d1)[oa]);
        assert(post.tasks_on(d2)[b] == pre.tasks_on(d2)[ob]);
    }
    let id = s[i].id;
    assert forall|e: DayOfWeek, k: int| !post.located(e, k, id) by {
        if post.located(e, k, id) {
            let ok: int = if e != d || k < i { k } else { k + 1 };
            if e != d {
                assert(post.tasks_on(e) == pre.tasks_on(e));
            }
            assert(post.tasks_on(e)[k] == pre.tasks_on(e)[ok]);
        }
    }
}

/// Putting back a task with the time it had, where it was, gives the place it had.
proof fn lemma_same_slot(s: Seq<Task>, i: int, t: Task, p: int)
    requires
        sorted_by_time(s),
        0 <= i < s.len(),
        t.time == s[i].time,
        stable_slot(s.remove(i), t, i, p),
    ensures
        p == i,
        s.remove(i).insert(p, t) == s.update(i, t),
{
    let r = s.remove(i);
    s.remove_ensures(i);
    if p < i {
        assert(goes_before(r, p, t, i));
        assert(clock_le(s[p].time@, s[i].time@));
    } else if p > i {
        assert(goes_before(r, i, t, i));
        assert(clock_le(s[i].time@, s[i + 1].time@));
    }
    assert(r.insert(p, t) =~= s.update(i, t));
}


} // verus!
