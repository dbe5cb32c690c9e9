use vstd::prelude::*;
use vstd::string::*;

verus! {

/// Why a text could not be read as a clock time.
#[derive(Debug, Clone, Copy, PartialEq, Eq, Structural)]
pub enum SchedulerError {
    /// The text does not split into exactly two parts on the separator.
    InvalidTimeFormat,
    /// A part is not a number, or the hour or the minute is out of range.
    InvalidTime,
    /// No task has the identifier given.
    NotFound,
    /// The text names no day of the week.
    UnresolvedDay,
}

/// The character that separates hour and minute in input text.
pub const INPUT_SEPARATOR: char = '.';

/// The character that separates hour and minute in rendered text.
pub const DISPLAY_SEPARATOR: char = ':';

/// A point on the 24-hour clock; hour and minute are always in range.
#[derive(Debug, Clone, Copy, PartialEq, Eq, Structural, PartialOrd, Ord)]
pub struct Time {
    hour: usize,
    mins: usize,
}

impl View for Time {
    type V = (nat, nat);

    /// The pair (hour, minute).
    closed spec fn view(&self) -> (nat, nat) {
        (self.hour as nat, self.mins as nat)
    }
}

/// A pair (hour, minute) that a `Time` can hold.
pub open spec fn valid_clock(v: (nat, nat)) -> bool {
    v.0 <= 23 && v.1 <= 59
}

/// Order of clock times: by hour, then by minute.
pub open spec fn clock_le(a: (nat, nat), b: (nat, nat)) -> bool {
    a.0 < b.0 || (a.0 == b.0 && a.1 <= b.1)
}

pub open spec fn is_digit(c: char) -> bool {
    '0' <= c && c <= '9'
}

pub open spec fn digit_value(c: char) -> nat {
    (c as u32 - '0' as u32) as nat
}

/// The number written by a string of decimal digits.
pub open spec fn digits_value(s: Seq<char>) -> nat
    decreases s.len(),
{
    if s.len() == 0 {
        0
    } else {
        digits_value(s.drop_last()) * 10 + digit_value(s.last())
    }
}

/// The digits of a number text, without its optional leading `+`.
pub open spec fn unsigned_digits(s: Seq<char>) -> Seq<char> {
    if s.len() > 0 && s[0] == '+' {
        s.drop_first()
    } else {
        s
    }
}

/// Text that reads as an unsigned integer: an optional `+`, then one or more digits.
pub open spec fn is_number_text(s: Seq<char>) -> bool {
    let d = unsigned_digits(s);
    d.len() > 0 && forall|i: int| 0 <= i < d.len() ==> is_digit(#[trigger] d[i])
}

pub open spec fn number_value(s: Seq<char>) -> nat {
    digits_value(unsigned_digits(s))
}

/// How many times `c` occurs in `s`.
pub open spec fn count_char(s: Seq<char>, c: char) -> nat
    decreases s.len(),
{
    if s.len() == 0 {
        0
    } else {
        count_char(s.drop_last(), c) + if s.last() == c {
            1nat
        } else {
            0nat
        }
    }
}

/// The index of the last `c` in `s`, or -1 where there is none.
pub open spec fn last_index_of(s: Seq<char>, c: char) -> int
    decreases s.len(),
{
    if s.len() == 0 {
        -1
    } else if s.last() == c {
        s.len() - 1
    } else {
        last_index_of(s.drop_last(), c)
    }
}

/// What reading `s` as "hour.minute" gives.
pub open spec fn parse_clock(s: Seq<char>) -> Result<(nat, nat), SchedulerError> {
    if count_char(s, INPUT_SEPARATOR) != 1 {
        Err(SchedulerError::InvalidTimeFormat)
    } else {
        let k = last_index_of(s, INPUT_SEPARATOR);
        let h = s.subrange(0, k);
        let m = s.subrange(k + 1, s.len() as int);
        if is_number_text(h) && is_number_text(m) && number_value(h) <= 23 && number_value(m)
            <= 59 {
            Ok((number_value(h), number_value(m)))
        } else {
            Err(SchedulerError::InvalidTime)
        }
    }
}

pub open spec fn digit_char(d: nat) -> char {
    seq!['0', '1', '2', '3', '4', '5', '6', '7', '8', '9'][d as int]
}

/// A number below 100 as two digits.
pub open spec fn two_digits(n: nat) -> Seq<char> {
    seq![digit_char(n / 10), digit_char(n % 10)]
}

/// A clock time as "HH", the separator, then "MM".
pub open spec fn clock_text(v: (nat, nat), sep: char) -> Seq<char> {
    two_digits(v.0) + seq![sep] + two_digits(v.1)
}

/// Rendered text with the display separator replaced by the input separator.
pub open spec fn with_input_separator(s: Seq<char>) -> Seq<char> {
    s.map_values(|c: char| if c == DISPLAY_SEPARATOR {
        INPUT_SEPARATOR
    } else {
        c
    })
}

proof fn lemma_digit(d: nat)
    requires
        d < 10,
    ensures
        is_digit(digit_char(d)),
        digit_value(digit_char(d)) == d,
        digit_char(d) != INPUT_SEPARATOR,
        digit_char(d) != DISPLAY_SEPARATOR,
        digit_char(d) != '+',
{
    let ds = seq!['0', '1', '2', '3', '4', '5', '6', '7', '8', '9'];
    assert(ds[0] == '0' && ds[1] == '1' && ds[2] == '2' && ds[3] == '3' && ds[4] == '4' && ds[5]
        == '5' && ds[6] == '6' && ds[7] == '7' && ds[8] == '8' && ds[9] == '9');
}

proof fn lemma_two_digits_read(n: nat)
    requires
        n < 100,
    ensures
        is_number_text(two_digits(n)),
        number_value(two_digits(n)) == n,
{
    let s = two_digits(n);
    lemma_digit(n / 10);
    lemma_digit(n % 10);
    assert(unsigned_digits(s) == s);
    assert(s.drop_last() =~= seq![digit_char(n / 10)]);
    assert(s.drop_last().drop_last() =~= Seq::<char>::empty());
    reveal_with_fuel(digits_value, 3);
}

/// Rendering a time and reading the text back, once the display separator
/// is replaced by the input separator, gives the same time.
pub proof fn lemma_render_parse_round_trip(v: (nat, nat))
    requires
        valid_clock(v),
    ensures
        parse_clock(with_input_separator(clock_text(v, DISPLAY_SEPARATOR))) == Ok::<
            (nat, nat),
            SchedulerError,
        >(v),
{
    let h = two_digits(v.0);
    let m = two_digits(v.1);
    lemma_digit(v.0 / 10);
    lemma_digit(v.0 % 10);
    lemma_digit(v.1 / 10);
    lemma_digit(v.1 % 10);
    let s = with_input_separator(clock_text(v, DISPLAY_SEPARATOR));
    assert(s =~= seq![h[0], h[1], INPUT_SEPARATOR, m[0], m[1]]);
    reveal_with_fuel(count_char, 6);
    reveal_with_fuel(last_index_of, 6);
    assert(s.drop_last() =~= seq![h[0], h[1], INPUT_SEPARATOR, m[0]]);
    assert(s.drop_last().drop_last() =~= seq![h[0], h[1], INPUT_SEPARATOR]);
    assert(s.drop_last().drop_last().drop_last() =~= seq![h[0], h[1]]);
    assert(s.drop_last().drop_last().drop_last().drop_last() =~= seq![h[0]]);
    assert(s.drop_last().drop_last().drop_last().drop_last().drop_last() =~= Seq::<char>::empty());
    assert(last_index_of(s, INPUT_SEPARATOR) == 2);
    assert(count_char(s, INPUT_SEPARATOR) == 1);
    assert(s.subrange(0, 2) =~= h);
    assert(s.subrange(3, 5) =~= m);
    lemma_two_digits_read(v.0);
    lemma_two_digits_read(v.1);
}

/// `Time::new` on `s`, as a `Result` over views.
pub open spec fn parse_result_matches(s: Seq<char>, r: Result<Time, SchedulerError>) -> bool {
    match r {
        Ok(t) => parse_clock(s) == Ok::<(nat, nat), SchedulerError>(t@),
        Err(e) => parse_clock(s) == Err::<(nat, nat), SchedulerError>(e),
    }
}

/// Reads the value of a number text, capped at 100 (enough to tell whether
/// it is an hour or a minute). `None` where `s` is not a number text.
fn read_number(s: &str) -> (r: Option<usize>)
    ensures
        r is Some <==> is_number_text(s@),
        r matches Some(v) ==> v as nat == if number_value(s@) < 100 {
            number_value(s@)
        } else {
            100
        },
{
    let n = s.unicode_len();
    let mut i: usize = 0;
    if n > 0 && s.get_char(0) == '+' {
        i = 1;
    }
    let start = i;
    let ghost d = unsigned_digits(s@);
    assert(d == s@.subrange(start as int, n as int));
    if start == n {
        return None;
    }
    let mut acc: usize = 0;
    while i < n
        invariant
            start <= i <= n,
            n == s@.len(),
            d == s@.subrange(start as int, n as int),
            d == unsigned_digits(s@),
            forall|j: int| 0 <= j < i - start ==> is_digit(#[trigger] d[j]),
            acc as nat == if digits_value(d.take(i - start)) < 100 {
                digits_value(d.take(i - start))
            } else {
                100
            },
        decreases n - i,
    {
        let c = s.get_char(i);
        if !('0' <= c && c <= '9') {
            assert(!is_digit(d[i - start]));
            return None;
        }
        let ghost prev = d.take(i - start);
        let ghost next = d.take(i - start + 1);
        assert(next.drop_last() == prev);
        assert(next.last() == c);
        let v = (c as u32 - '0' as u32) as usize;
        if acc >= 100 {
            acc = 100;
        } else {
            acc = acc * 10 + v;
            if acc > 100 {
                acc = 100;
            }
        }
        i = i + 1;
    }
    assert(d.take(n - start) == d);
    Some(acc)
}

fn push_two_digits(out: &mut String, n: usize)
    requires
        n < 100,
    ensures
        final(out)@ == old(out)@ + two_digits(n as nat),
{
    proof {
        reveal_strlit("0123456789");
    }
    let digits = "0123456789";
    let hi = n / 10;
    let lo = n % 10;
    out.append(digits.substring_char(hi, hi + 1));
    out.append(digits.substring_char(lo, lo + 1));
    assert(digits@ == seq!['0', '1', '2', '3', '4', '5', '6', '7', '8', '9']);
    assert(final(out)@ == old(out)@ + two_digits(n as nat));
}

impl Time {
    #[verifier::type_invariant]
    spec fn in_range(self) -> bool {
        self.hour <= 23 && self.mins <= 59
    }

    /// Reads "hour.minute", as in "9.30" or "09.30".
    pub fn new(time: String) -> (r: Result<Self, SchedulerError>)
        ensures
            parse_result_matches(time@, r),
    {
        let s = time.as_str();
        let n = s.unicode_len();
        let mut i: usize = 0;
        let mut count: usize = 0;
        let mut last: usize = 0;
        while i < n
            invariant
                i <= n,
                n == s@.len(),
                count <= i,
                count == count_char(s@.take(i as int), INPUT_SEPARATOR),
                count > 0 ==> last < i,
                count > 0 ==> last as int == last_index_of(s@.take(i as int), INPUT_SEPARATOR),
                count == 0 ==> last_index_of(s@.take(i as int), INPUT_SEPARATOR) == -1,
            decreases n - i,
        {
            let ghost prev = s@.take(i as int);
            let ghost next = s@.take(i as int + 1);
            assert(next.drop_last() == prev);
            if s.get_char(i) == INPUT_SEPARATOR {
                count = count + 1;
                last = i;
            }
            i = i + 1;
        }
        assert(s@.take(n as int) == s@);
        if count != 1 {
            return Err(SchedulerError::InvalidTimeFormat);
        }
        let hour_text = s.substring_char(0, last);
        let min_text = s.substring_char(last + 1, n);
        let hour = read_number(hour_text);
        let min = read_number(min_text);
        match (hour, min) {
            (Some(h), Some(m)) => {
                if h > 23 || m > 59 {
                    Err(SchedulerError::InvalidTime)
                } else {
                    Ok(Time { hour: h, mins: m })
                }
            },
            _ => Err(SchedulerError::InvalidTime),
        }
    }

    /// The time at `hour`:`minute`, where both are in range.
    pub fn from_parts(hour: usize, minute: usize) -> (r: Result<Self, SchedulerError>)
        ensures
            valid_clock((hour as nat, minute as nat)) ==> (r matches Ok(t) && t@ == (
                hour as nat,
                minute as nat,
            )),
            !valid_clock((hour as nat, minute as nat)) ==> r == Err::<Time, SchedulerError>(
                SchedulerError::InvalidTime,
            ),
    {
        if hour > 23 || minute > 59 {
            Err(SchedulerError::InvalidTime)
        } else {
            Ok(Time { hour, mins: minute })
        }
    }

    pub fn hour(&self) -> (r: usize)
        ensures
            r as nat == self@.0,
    {
        self.hour
    }

    pub fn minute(&self) -> (r: usize)
        ensures
            r as nat == self@.1,
    {
        self.mins
    }

    /// Whether `self` comes no later than `other`.
    pub fn at_or_before(&self, other: &Time) -> (r: bool)
        ensures
            r == clock_le(self@, other@),
    {
        self.hour < other.hour || (self.hour == other.hour && self.mins <= other.mins)
    }

    /// The time as "HH:MM".
    pub fn to_string(&self) -> (r: String)
        ensures
            r@ == clock_text(self@, DISPLAY_SEPARATOR),
    {
        proof {
            use_type_invariant(self);
        }
        proof {
            reveal_strlit(":");
        }
        let mut out = String::new();
        push_two_digits(&mut out, self.hour);
        out.append(":");
        push_two_digits(&mut out, self.mins);
        assert(out@ == clock_text(self@, DISPLAY_SEPARATOR));
        out
    }
}

} // verus!
