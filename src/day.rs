use vstd::prelude::*;
use vstd::string::*;

verus! {

/// The seven days of the week.
#[derive(Debug, Clone, Copy, PartialEq, Eq, Structural, Hash)]
pub enum DayOfWeek {
    Mon,
    Tue,
    Wed,
    Thu,
    Fri,
    Sat,
    Sun,
}

/// The days, Monday first.
pub open spec fn week() -> Seq<DayOfWeek> {
    seq![
        DayOfWeek::Mon,
        DayOfWeek::Tue,
        DayOfWeek::Wed,
        DayOfWeek::Thu,
        DayOfWeek::Fri,
        DayOfWeek::Sat,
        DayOfWeek::Sun,
    ]
}

/// The number of days in a week.
pub const DAYS_IN_WEEK: usize = 7;

impl DayOfWeek {
    /// The day's place in the week, Monday being 0.
    pub open spec fn index(self) -> nat {
        match self {
            DayOfWeek::Mon => 0,
            DayOfWeek::Tue => 1,
            DayOfWeek::Wed => 2,
            DayOfWeek::Thu => 3,
            DayOfWeek::Fri => 4,
            DayOfWeek::Sat => 5,
            DayOfWeek::Sun => 6,
        }
    }

    /// The day's English name.
    pub open spec fn name(self) -> Seq<char> {
        match self {
            DayOfWeek::Mon => seq!['M', 'o', 'n', 'd', 'a', 'y'],
            DayOfWeek::Tue => seq!['T', 'u', 'e', 's', 'd', 'a', 'y'],
            DayOfWeek::Wed => seq!['W', 'e', 'd', 'n', 'e', 's', 'd', 'a', 'y'],
            DayOfWeek::Thu => seq!['T', 'h', 'u', 'r', 's', 'd', 'a', 'y'],
            DayOfWeek::Fri => seq!['F', 'r', 'i', 'd', 'a', 'y'],
            DayOfWeek::Sat => seq!['S', 'a', 't', 'u', 'r', 'd', 'a', 'y'],
            DayOfWeek::Sun => seq!['S', 'u', 'n', 'd', 'a', 'y'],
        }
    }

    /// The day's place in the week, Monday being 0.
    pub fn ordinal(&self) -> (r: u8)
        ensures
            r as nat == self.index(),
            week()[r as int] == *self,
    {
        match self {
            DayOfWeek::Mon => 0,
            DayOfWeek::Tue => 1,
            DayOfWeek::Wed => 2,
            DayOfWeek::Thu => 3,
            DayOfWeek::Fri => 4,
            DayOfWeek::Sat => 5,
            DayOfWeek::Sun => 6,
        }
    }

    /// The day's English name, "Monday" through "Sunday".
    pub fn to_string(&self) -> (r: String)
        ensures
            r@ == self.name(),
    {
        let s = match self {
            DayOfWeek::Mon => "Monday",
            DayOfWeek::Tue => "Tuesday",
            DayOfWeek::Wed => "Wednesday",
            DayOfWeek::Thu => "Thursday",
            DayOfWeek::Fri => "Friday",
            DayOfWeek::Sat => "Saturday",
            DayOfWeek::Sun => "Sunday",
        };
        proof {
            reveal_strlit("Monday");
            reveal_strlit("Tuesday");
            reveal_strlit("Wednesday");
            reveal_strlit("Thursday");
            reveal_strlit("Friday");
            reveal_strlit("Saturday");
            reveal_strlit("Sunday");
        }
        let r = String::from_str(s);
        assert(r@ =~= self.name());
        r
    }
}

/// Names of different days differ.
pub proof fn lemma_names_distinct(a: DayOfWeek, b: DayOfWeek)
    ensures
        a.name() == b.name() ==> a == b,
{
    if a != b {
        assert(a.name().len() != b.name().len() || a.name()[0] != b.name()[0] || a.name()[1]
            != b.name()[1]);
    }
}

/// The day whose name is exactly `s`, if any.
pub open spec fn day_named(s: Seq<char>) -> Option<DayOfWeek> {
    if exists|d: DayOfWeek| d.name() == s {
        Some(choose|d: DayOfWeek| d.name() == s)
    } else {
        None
    }
}

/// The day at `index` in the week, Monday being 0.
pub fn idx_to_day(idx: usize) -> (r: Option<DayOfWeek>)
    ensures
        idx < DAYS_IN_WEEK ==> r == Some(week()[idx as int]),
        idx >= DAYS_IN_WEEK ==> r is None,
{
    match idx {
        0 => Some(DayOfWeek::Mon),
        1 => Some(DayOfWeek::Tue),
        2 => Some(DayOfWeek::Wed),
        3 => Some(DayOfWeek::Thu),
        4 => Some(DayOfWeek::Fri),
        5 => Some(DayOfWeek::Sat),
        6 => Some(DayOfWeek::Sun),
        _ => None,
    }
}

/// The days in order, Monday through Sunday.
pub fn all_days() -> (r: Vec<DayOfWeek>)
    ensures
        r@ == week(),
{
    let r = vec![
        DayOfWeek::Mon,
        DayOfWeek::Tue,
        DayOfWeek::Wed,
        DayOfWeek::Thu,
        DayOfWeek::Fri,
        DayOfWeek::Sat,
        DayOfWeek::Sun,
    ];
    assert(r@ =~= week());
    r
}

/// The day whose English name is exactly `day`; `None` for any other text.
pub fn string_to_day(day: String) -> (r: Option<DayOfWeek>)
    ensures
        r == day_named(day@),
        r matches Some(d) ==> d.name() == day@,
{
    let mut i: usize = 0;
    while i < DAYS_IN_WEEK
        invariant
            i <= DAYS_IN_WEEK,
            forall|j: int| 0 <= j < i ==> (#[trigger] week()[j]).name() != day@,
        decreases DAYS_IN_WEEK - i,
    {
        let d = match idx_to_day(i) {
            Some(d) => d,
            None => DayOfWeek::Mon,
        };
        let name = d.to_string();
        if name == day {
            proof {
                assert forall|e: DayOfWeek| e.name() == day@ implies e == d by {
                    lemma_names_distinct(e, d);
                }
            }
            return Some(d);
        }
        i = i + 1;
    }
    proof {
        assert forall|e: DayOfWeek| e.name() != day@ by {
            assert(week()[e.index() as int] == e);
        }
    }
    None
}

/// The English name of `day`.
pub fn to_string(day: DayOfWeek) -> (r: String)
    ensures
        r@ == day.name(),
{
    day.to_string()
}

} // verus!
