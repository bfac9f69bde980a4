use vstd::prelude::*;

use crate::codec::{find_char, skip_digits};
use crate::text::{chars_eq, chars_of, slice_chars};

verus! {

/// A moment given by its calendar date and its time of day, to the minute.
#[derive(Clone, Copy, Debug, PartialEq, Eq, Structural)]
pub struct DateTime {
    pub year: i32,
    pub month: u32,
    pub day: u32,
    pub hour: u32,
    pub minute: u32,
}

/// The interval of a schedule entry, and whether the entry is marked as irregular.
#[derive(Clone, Copy, Debug, PartialEq, Eq, Structural)]
pub struct ScheduleTime {
    pub starred: bool,
    pub start: DateTime,
    pub end: DateTime,
}

/// Why a schedule entry could not be read.
#[derive(Clone, Copy, Debug, PartialEq, Eq, Structural)]
pub enum DateTimeError {
    /// The text does not have the form of a schedule entry.
    Malformed,
    /// The text has the form, but names a day or a time that does not exist.
    InvalidDate,
}

pub open spec fn leap_year(y: int) -> bool {
    (y % 4 == 0 && y % 100 != 0) || y % 400 == 0
}

pub open spec fn days_in_month(y: int, m: int) -> int {
    if m == 2 {
        if leap_year(y) {
            29
        } else {
            28
        }
    } else if m == 4 || m == 6 || m == 9 || m == 11 {
        30
    } else {
        31
    }
}

/// The day `d` of month `m` of year `y` exists in the proleptic Gregorian calendar.
pub open spec fn valid_date(y: int, m: int, d: int) -> bool {
    1 <= m <= 12 && 1 <= d <= days_in_month(y, m)
}

/// Relies on chrono's `NaiveDate::from_ymd_opt`, which gives `None` exactly for a day
/// that does not exist (the year here being well inside chrono's range).
#[verifier::external_body]
fn date_exists(year: i32, month: u32, day: u32) -> (r: bool)
    requires
        0 <= year <= 9999,
    ensures
        r == valid_date(year as int, month as int, day as int),
{
    chrono::NaiveDate::from_ymd_opt(year, month, day).is_some()
}

pub open spec fn is_digit(c: char) -> bool {
    '0' <= c <= '9'
}

pub open spec fn is_alpha(c: char) -> bool {
    ('a' <= c <= 'z') || ('A' <= c <= 'Z')
}

pub open spec fn all_digits(d: Seq<char>) -> bool {
    forall|i: int| 0 <= i < d.len() ==> is_digit(#[trigger] d[i])
}

/// The number written by the decimal digits `d`.
pub open spec fn digits_value(d: Seq<char>) -> nat
    decreases d.len(),
{
    if d.len() == 0 {
        0
    } else {
        digits_value(d.drop_last()) * 10 + (d.last() as nat - 48) as nat
    }
}

/// The abbreviated German name of month `m` (1 to 12).
pub open spec fn month_name(m: int) -> Seq<char> {
    if m == 1 {
        seq!['J', 'a', 'n', '.']
    } else if m == 2 {
        seq!['F', 'e', 'b', '.']
    } else if m == 3 {
        seq!['M', '\u{e4}', 'r', '.']
    } else if m == 4 {
        seq!['A', 'p', 'r', '.']
    } else if m == 5 {
        seq!['M', 'a', 'i']
    } else if m == 6 {
        seq!['J', 'u', 'n', '.']
    } else if m == 7 {
        seq!['J', 'u', 'l', '.']
    } else if m == 8 {
        seq!['A', 'u', 'g', '.']
    } else if m == 9 {
        seq!['S', 'e', 'p', '.']
    } else if m == 10 {
        seq!['O', 'k', 't', '.']
    } else if m == 11 {
        seq!['N', 'o', 'v', '.']
    } else {
        seq!['D', 'e', 'z', '.']
    }
}

/// The text of a schedule entry: `<weekday>, <day>. <month> <year>[*] <HH:MM>-<HH:MM>`.
pub open spec fn schedule_text(
    weekday: Seq<char>,
    day: Seq<char>,
    month: int,
    year: Seq<char>,
    starred: bool,
    start_hour: Seq<char>,
    start_minute: Seq<char>,
    end_hour: Seq<char>,
    end_minute: Seq<char>,
) -> Seq<char> {
    weekday + seq![',', ' '] + day + seq!['.', ' '] + month_name(month) + seq![' '] + year + (if starred {
        seq!['*']
    } else {
        Seq::empty()
    }) + seq![' '] + start_hour + seq![':'] + start_minute + seq!['-'] + end_hour + seq![':']
        + end_minute
}

/// The parts of a schedule entry have the widths and the characters that its form asks for.
pub open spec fn schedule_parts(
    weekday: Seq<char>,
    day: Seq<char>,
    month: int,
    year: Seq<char>,
    start_hour: Seq<char>,
    start_minute: Seq<char>,
    end_hour: Seq<char>,
    end_minute: Seq<char>,
) -> bool {
    &&& weekday.len() == 2 && is_alpha(weekday[0]) && is_alpha(weekday[1])
    &&& 1 <= day.len() <= 2 && all_digits(day)
    &&& 1 <= month <= 12
    &&& year.len() == 4 && all_digits(year)
    &&& start_hour.len() == 2 && all_digits(start_hour)
    &&& start_minute.len() == 2 && all_digits(start_minute)
    &&& end_hour.len() == 2 && all_digits(end_hour)
    &&& end_minute.len() == 2 && all_digits(end_minute)
}

/// The values that a well-formed schedule entry stands for are a real day and real times of it;
/// an end of `24:00` stands for the last minute of the day.
pub open spec fn schedule_valid(y: nat, m: int, d: nat, sh: nat, sm: nat, eh: nat, em: nat) -> bool {
    &&& valid_date(y as int, m, d as int)
    &&& sh < 24 && sm < 60
    &&& (eh < 24 && em < 60) || (eh == 24 && em == 0)
}

/// What a well-formed and valid schedule entry means.
pub open spec fn schedule_value(
    starred: bool,
    y: nat,
    m: int,
    d: nat,
    sh: nat,
    sm: nat,
    eh: nat,
    em: nat,
) -> ScheduleTime {
    let (eh2, em2) = if eh == 24 && em == 0 {
        (23nat, 59nat)
    } else {
        (eh, em)
    };
    ScheduleTime {
        starred,
        start: DateTime { year: y as i32, month: m as u32, day: d as u32, hour: sh as u32, minute: sm as u32 },
        end: DateTime { year: y as i32, month: m as u32, day: d as u32, hour: eh2 as u32, minute: em2 as u32 },
    }
}

/// `text` is a well-formed schedule entry with the given values.
pub open spec fn schedule_form(
    text: Seq<char>,
    starred: bool,
    y: nat,
    m: int,
    d: nat,
    sh: nat,
    sm: nat,
    eh: nat,
    em: nat,
) -> bool {
    exists|wd: Seq<char>, dd: Seq<char>, yd: Seq<char>, shd: Seq<char>, smd: Seq<char>, ehd: Seq<char>, emd: Seq<char>|
        {
            &&& schedule_parts(wd, dd, m, yd, shd, smd, ehd, emd)
            &&& text == schedule_text(wd, dd, m, yd, starred, shd, smd, ehd, emd)
            &&& y == digits_value(yd) && d == digits_value(dd)
            &&& sh == digits_value(shd) && sm == digits_value(smd)
            &&& eh == digits_value(ehd) && em == digits_value(emd)
        }
}

proof fn lemma_schedule_positions(
    wd: Seq<char>,
    dd: Seq<char>,
    m: int,
    yd: Seq<char>,
    st: bool,
    shd: Seq<char>,
    smd: Seq<char>,
    ehd: Seq<char>,
    emd: Seq<char>,
)
    requires
        schedule_parts(wd, dd, m, yd, shd, smd, ehd, emd),
    ensures
        ({
            let t = schedule_text(wd, dd, m, yd, st, shd, smd, ehd, emd);
            let a: int = 4 + dd.len() as int;
            let me: int = a + 2 + month_name(m).len();
            let p: int = me + 5 + (if st { 1int } else { 0int });
            &&& t.len() == p + 12
            &&& t[0] == wd[0] && t[1] == wd[1] && t[2] == ',' && t[3] == ' '
            &&& t.subrange(4, a) == dd
            &&& t[a] == '.' && t[a + 1] == ' '
            &&& t.subrange(a + 2, me) == month_name(m)
            &&& t[me] == ' '
            &&& t.subrange(me + 1, me + 5) == yd
            &&& (st ==> t[me + 5] == '*')
            &&& t[p] == ' '
            &&& t.subrange(p + 1, p + 3) == shd
            &&& t[p + 3] == ':'
            &&& t.subrange(p + 4, p + 6) == smd
            &&& t[p + 6] == '-'
            &&& t.subrange(p + 7, p + 9) == ehd
            &&& t[p + 9] == ':'
            &&& t.subrange(p + 10, p + 12) == emd
        }),
{
    let t = schedule_text(wd, dd, m, yd, st, shd, smd, ehd, emd);
    let a: int = 4 + dd.len() as int;
    let me: int = a + 2 + month_name(m).len();
    let p: int = me + 5 + (if st { 1int } else { 0int });
    assert(t.subrange(4, a) =~= dd);
    assert(t.subrange(a + 2, me) =~= month_name(m));
    assert(t.subrange(me + 1, me + 5) =~= yd);
    assert(t.subrange(p + 1, p + 3) =~= shd);
    assert(t.subrange(p + 4, p + 6) =~= smd);
    assert(t.subrange(p + 7, p + 9) =~= ehd);
    assert(t.subrange(p + 10, p + 12) =~= emd);
}

proof fn lemma_month_names()
    ensures
        forall|m: int, i: int|
            1 <= m <= 12 && 0 <= i < month_name(m).len() ==> #[trigger] month_name(m)[i] != ' ',
        forall|m1: int, m2: int|
            1 <= m1 <= 12 && 1 <= m2 <= 12 && #[trigger] month_name(m1) == #[trigger] month_name(m2) ==> m1
                == m2,
        forall|m: int| 1 <= m <= 12 ==> 3 <= #[trigger] month_name(m).len() <= 4,
{
    assert forall|m1: int, m2: int|
        1 <= m1 <= 12 && 1 <= m2 <= 12 && #[trigger] month_name(m1) == #[trigger] month_name(m2) implies m1
            == m2 by {
        if m1 != m2 {
            let a = month_name(m1);
            let b = month_name(m2);
            if a.len() == b.len() {
                assert(a[0] != b[0] || a[1] != b[1] || a[2] != b[2]);
            }
        }
    }
}

fn month_name_of(m: u32) -> (r: Vec<char>)
    requires
        1 <= m <= 12,
    ensures
        r@ == month_name(m as int),
{
    let r = if m == 1 {
        vec!['J', 'a', 'n', '.']
    } else if m == 2 {
        vec!['F', 'e', 'b', '.']
    } else if m == 3 {
        vec!['M', '\u{e4}', 'r', '.']
    } else if m == 4 {
        vec!['A', 'p', 'r', '.']
    } else if m == 5 {
        vec!['M', 'a', 'i']
    } else if m == 6 {
        vec!['J', 'u', 'n', '.']
    } else if m == 7 {
        vec!['J', 'u', 'l', '.']
    } else if m == 8 {
        vec!['A', 'u', 'g', '.']
    } else if m == 9 {
        vec!['S', 'e', 'p', '.']
    } else if m == 10 {
        vec!['O', 'k', 't', '.']
    } else if m == 11 {
        vec!['N', 'o', 'v', '.']
    } else {
        vec!['D', 'e', 'z', '.']
    };
    assert(r@ =~= month_name(m as int));
    r
}

fn month_of_name(s: &[char], from: usize, to: usize) -> (r: Option<u32>)
    requires
        from <= to <= s@.len(),
    ensures
        r matches Some(m) ==> 1 <= m <= 12 && month_name(m as int) == s@.subrange(from as int, to as int),
        r is None ==> forall|m: int| 1 <= m <= 12 ==> month_name(m) != s@.subrange(from as int, to as int),
{
    let mut m: u32 = 1;
    while m <= 12
        invariant
            1 <= m <= 13,
            from <= to <= s@.len(),
            forall|k: int| 1 <= k < m ==> month_name(k) != s@.subrange(from as int, to as int),
        decreases 13 - m,
    {
        let name = month_name_of(m);
        let part = slice_chars(s, from, to);
        if chars_eq(&name, &part) {
            return Some(m);
        }
        m = m + 1;
    }
    None
}

fn digits_value_of(s: &[char], from: usize, to: usize) -> (r: u32)
    requires
        from <= to <= s@.len(),
        to - from <= 4,
        forall|j: int| from <= j < to ==> is_digit(#[trigger] s@[j]),
    ensures
        r == digits_value(s@.subrange(from as int, to as int)),
        r < 10000,
{
    let mut r: u32 = 0;
    let mut i = from;
    while i < to
        invariant
            from <= i <= to <= s@.len(),
            to - from <= 4,
            forall|j: int| from <= j < to ==> is_digit(#[trigger] s@[j]),
            r == digits_value(s@.subrange(from as int, i as int)),
            r < (if i - from == 0 {
                1int
            } else if i - from == 1 {
                10int
            } else if i - from == 2 {
                100int
            } else if i - from == 3 {
                1000int
            } else {
                10000int
            }),
        decreases to - i,
    {
        assert(s@.subrange(from as int, i + 1).drop_last() =~= s@.subrange(from as int, i as int));
        assert(is_digit(s@[i as int]));
        r = r * 10 + (s[i] as u32 - 48);
        i = i + 1;
    }
    r
}

fn is_alpha_char(c: char) -> (r: bool)
    ensures
        r == is_alpha(c),
{
    ('a' <= c && c <= 'z') || ('A' <= c && c <= 'Z')
}

fn all_digits_in(s: &[char], from: usize, to: usize) -> (r: bool)
    requires
        from <= to <= s@.len(),
    ensures
        r == forall|j: int| from <= j < to ==> is_digit(#[trigger] s@[j]),
{
    let mut i = from;
    while i < to
        invariant
            from <= i <= to <= s@.len(),
            forall|j: int| from <= j < i ==> is_digit(#[trigger] s@[j]),
        decreases to - i,
    {
        if !('0' <= s[i] && s[i] <= '9') {
            return false;
        }
        i = i + 1;
    }
    true
}

pub open spec fn has_schedule_form(text: Seq<char>) -> bool {
    exists|wd: Seq<char>, dd: Seq<char>, m: int, yd: Seq<char>, st: bool, shd: Seq<char>, smd: Seq<char>, ehd: Seq<char>, emd: Seq<char>|
        schedule_parts(wd, dd, m, yd, shd, smd, ehd, emd) && text == #[trigger] schedule_text(
            wd,
            dd,
            m,
            yd,
            st,
            shd,
            smd,
            ehd,
            emd,
        )
}

/// What a schedule entry written with the given parts yields.
pub open spec fn schedule_result(
    dd: Seq<char>,
    m: int,
    yd: Seq<char>,
    st: bool,
    shd: Seq<char>,
    smd: Seq<char>,
    ehd: Seq<char>,
    emd: Seq<char>,
) -> Result<ScheduleTime, DateTimeError> {
    let y = digits_value(yd);
    let d = digits_value(dd);
    let sh = digits_value(shd);
    let sm = digits_value(smd);
    let eh = digits_value(ehd);
    let em = digits_value(emd);
    if schedule_valid(y, m, d, sh, sm, eh, em) {
        Ok(schedule_value(st, y, m, d, sh, sm, eh, em))
    } else {
        Err(DateTimeError::InvalidDate)
    }
}

/// Where the parts of a well-formed schedule entry `t` stand: the day ends at `de`, the month
/// name at `me`, and the times start after `p`.
pub open spec fn schedule_reading(t: Seq<char>, de: int, me: int, month: int, starred: bool, p: int) -> bool {
    &&& 4 <= de <= t.len()
    &&& forall|j: int| 4 <= j < de ==> is_digit(#[trigger] t[j])
    &&& de < t.len() ==> !is_digit(t[de])
    &&& de + 2 <= me <= t.len()
    &&& forall|j: int| de + 2 <= j < me ==> t[j] != ' '
    &&& me < t.len() ==> t[me] == ' '
    &&& 1 <= month <= 12
    &&& month_name(month) == t.subrange(de + 2, me)
    &&& me + 5 < t.len()
    &&& starred == (t[me + 5] == '*')
    &&& p == me + 5 + (if starred { 1int } else { 0int })
    &&& t.len() == p + 12
    &&& schedule_parts(
        t.subrange(0, 2),
        t.subrange(4, de),
        month,
        t.subrange(me + 1, me + 5),
        t.subrange(p + 1, p + 3),
        t.subrange(p + 4, p + 6),
        t.subrange(p + 7, p + 9),
        t.subrange(p + 10, p + 12),
    )
    &&& t == schedule_text(
        t.subrange(0, 2),
        t.subrange(4, de),
        month,
        t.subrange(me + 1, me + 5),
        starred,
        t.subrange(p + 1, p + 3),
        t.subrange(p + 4, p + 6),
        t.subrange(p + 7, p + 9),
        t.subrange(p + 10, p + 12),
    )
}

#[verifier::rlimit(100)]
#[verifier::spinoff_prover]
fn read_schedule(s: &Vec<char>) -> (r: Option<(usize, usize, u32, bool, usize)>)
    ensures
        r is None ==> !has_schedule_form(s@),
        r matches Some((de, me, month, starred, p)) ==> schedule_reading(
            s@,
            de as int,
            me as int,
            month as int,
            starred,
            p as int,
        ),
{
    let n = s.len();
    proof {
        lemma_month_names();
    }
    if n < 4 || !is_alpha_char(s[0]) || !is_alpha_char(s[1]) || s[2] != ',' || s[3] != ' ' {
        proof {
            lemma_no_form(s@, 0, 0, 0, 0);
        }
        return None;
    }
    let de = skip_digits(&s, 4);
    if de < 5 || de > 6 || de + 2 > n || s[de] != '.' || s[de + 1] != ' ' {
        proof {
            lemma_no_form(s@, 1, de as int, 0, 0);
        }
        return None;
    }
    let me = find_char(&s, de + 2, ' ');
    let month = match month_of_name(&s, de + 2, me) {
        Some(m) => m,
        None => {
            proof {
                lemma_no_form(s@, 2, de as int, me as int, 0);
            }
            return None;
        },
    };
    if n - me < 5 || !all_digits_in(&s, me + 1, me + 5) {
        proof {
            lemma_no_form(s@, 3, de as int, me as int, 0);
        }
        return None;
    }
    let mut p = me + 5;
    let starred = p < n && s[p] == '*';
    if starred {
        p = p + 1;
    }
    if n - p != 12 || s[p] != ' ' || s[p + 3] != ':' || s[p + 6] != '-' || s[p + 9] != ':'
        || !all_digits_in(&s, p + 1, p + 3) || !all_digits_in(&s, p + 4, p + 6) || !all_digits_in(
        &s,
        p + 7,
        p + 9,
    ) || !all_digits_in(&s, p + 10, p + 12) {
        proof {
            lemma_no_form(s@, 4, de as int, me as int, p as int);
        }
        return None;
    }
    proof {
        let t = s@;
        let wd = t.subrange(0, 2);
        let dd = t.subrange(4, de as int);
        let yd = t.subrange(me + 1, me + 5);
        let shd = t.subrange(p + 1, p + 3);
        let smd = t.subrange(p + 4, p + 6);
        let ehd = t.subrange(p + 7, p + 9);
        let emd = t.subrange(p + 10, p + 12);
        assert(schedule_parts(wd, dd, month as int, yd, shd, smd, ehd, emd));
        lemma_schedule_positions(wd, dd, month as int, yd, starred, shd, smd, ehd, emd);
        assert(t =~= schedule_text(wd, dd, month as int, yd, starred, shd, smd, ehd, emd));
    }
    Some((de, me, month, starred, p))
}

/// What reading the schedule entry `text` yields.
#[verifier::opaque]
pub open spec fn schedule_of(text: Seq<char>) -> Result<ScheduleTime, DateTimeError> {
    if has_schedule_form(text) {
        let (wd, dd, m, yd, st, shd, smd, ehd, emd) = choose|wd: Seq<char>, dd: Seq<char>, m: int, yd: Seq<char>, st: bool, shd: Seq<char>, smd: Seq<char>, ehd: Seq<char>, emd: Seq<char>|
            schedule_parts(wd, dd, m, yd, shd, smd, ehd, emd) && text == #[trigger] schedule_text(
                wd,
                dd,
                m,
                yd,
                st,
                shd,
                smd,
                ehd,
                emd,
            );
        schedule_result(dd, m, yd, st, shd, smd, ehd, emd)
    } else {
        Err(DateTimeError::Malformed)
    }
}

/// Reads the text `s` as one schedule entry as a whole.
#[verifier::rlimit(60)]
fn read_entry(s: &Vec<char>) -> (r: Result<ScheduleTime, DateTimeError>)
    ensures
        r == schedule_of(s@),
        r == Err::<ScheduleTime, DateTimeError>(DateTimeError::Malformed) <==> !has_schedule_form(s@),
{
    proof {
        reveal(schedule_of);
    }
    let (de, me, month, starred, p) = match read_schedule(s) {
        Some(v) => v,
        None => {
            return Err(DateTimeError::Malformed);
        },
    };
    let day = digits_value_of(&s, 4, de);
    let year = digits_value_of(&s, me + 1, me + 5);
    let sh = digits_value_of(&s, p + 1, p + 3);
    let sm = digits_value_of(&s, p + 4, p + 6);
    let eh = digits_value_of(&s, p + 7, p + 9);
    let em = digits_value_of(&s, p + 10, p + 12);
    let ghost res = schedule_result(
        s@.subrange(4, de as int),
        month as int,
        s@.subrange(me + 1, me + 5),
        starred,
        s@.subrange(p + 1, p + 3),
        s@.subrange(p + 4, p + 6),
        s@.subrange(p + 7, p + 9),
        s@.subrange(p + 10, p + 12),
    );
    proof {
        lemma_schedule_unique(s@, de as int, me as int, month as int, starred, p as int);
        assert(has_schedule_form(s@));
    }
    let valid = date_exists(year as i32, month, day) && sh < 24 && sm < 60 && ((eh < 24 && em < 60) || (
    eh == 24 && em == 0));
    if !valid {
        assert(res == Err::<ScheduleTime, DateTimeError>(DateTimeError::InvalidDate));
        return Err(DateTimeError::InvalidDate);
    }
    let (eh2, em2) = if eh == 24 && em == 0 {
        (23u32, 59u32)
    } else {
        (eh, em)
    };
    let r = ScheduleTime {
        starred,
        start: DateTime { year: year as i32, month, day, hour: sh, minute: sm },
        end: DateTime { year: year as i32, month, day, hour: eh2, minute: em2 },
    };
    assert(res == Ok::<ScheduleTime, DateTimeError>(r));
    Ok(r)
}

/// The schedule entry form occupies the characters `i..k` of `t`.
pub open spec fn form_at(t: Seq<char>, i: int, k: int) -> bool {
    0 <= i <= k <= t.len() && has_schedule_form(t.subrange(i, k))
}

/// The form occupies `i..k`, and no occurrence starts earlier (or at `i` and ends earlier).
pub open spec fn first_form(t: Seq<char>, i: int, k: int) -> bool {
    form_at(t, i, k) && forall|i2: int, k2: int| (i2 < i || (i2 == i && k2 < k)) ==> !#[trigger] form_at(t, i2, k2)
}

/// What searching the text `t` for a schedule entry yields: the value of its first
/// occurrence, and `Malformed` where the form occurs nowhere.
pub open spec fn schedule_in(t: Seq<char>) -> Result<ScheduleTime, DateTimeError> {
    if exists|i: int, k: int| first_form(t, i, k) {
        let (i, k) = choose|i: int, k: int| first_form(t, i, k);
        schedule_of(t.subrange(i, k))
    } else {
        Err(DateTimeError::Malformed)
    }
}

proof fn lemma_form_len(u: Seq<char>)
    requires
        has_schedule_form(u),
    ensures
        27 <= u.len() <= 30,
{
    lemma_month_names();
    let (wd, dd, m, yd, st, shd, smd, ehd, emd) = choose|wd: Seq<char>, dd: Seq<char>, m: int, yd: Seq<char>, st: bool, shd: Seq<char>, smd: Seq<char>, ehd: Seq<char>, emd: Seq<char>|
        schedule_parts(wd, dd, m, yd, shd, smd, ehd, emd) && u == #[trigger] schedule_text(wd, dd, m, yd, st, shd, smd, ehd, emd);
    lemma_schedule_positions(wd, dd, m, yd, st, shd, smd, ehd, emd);
}

proof fn lemma_first_form_unique(t: Seq<char>, i: int, k: int)
    requires
        first_form(t, i, k),
    ensures
        schedule_in(t) == schedule_of(t.subrange(i, k)),
{
    let (i2, k2) = choose|i2: int, k2: int| first_form(t, i2, k2);
    if i2 != i || k2 != k {
        if i2 < i || (i2 == i && k2 < k) {
            assert(!form_at(t, i2, k2));
        } else {
            assert(!form_at(t, i, k));
        }
    }
}

/// Finds the first schedule entry in `text`, such as `Mo, 3. Apr. 2023 10:00-12:00`, where a
/// `*` after the year marks the entry as irregular and an end of `24:00` stands for `23:59` of
/// the same day; text around the entry is ignored.
pub fn parse_datetime(text: &str) -> (r: Result<ScheduleTime, DateTimeError>)
    ensures
        r == schedule_in(text@),
        forall|i: int, k: int| #[trigger] first_form(text@, i, k) ==> r == schedule_of(text@.subrange(i, k)),
        (forall|i: int, k: int| !#[trigger] form_at(text@, i, k)) ==> r == Err::<ScheduleTime, DateTimeError>(
            DateTimeError::Malformed,
        ),
{
    let s = chars_of(text);
    let n = s.len();
    let mut i: usize = 0;
    while i < n
        invariant
            i <= n == s@.len(),
            s@ == text@,
            forall|i2: int, k2: int| 0 <= i2 < i ==> !#[trigger] form_at(s@, i2, k2),
        decreases n - i,
    {
        let mut l: usize = 27;
        proof {
            assert forall|k2: int| k2 < i + l implies !#[trigger] form_at(s@, i as int, k2) by {
                if form_at(s@, i as int, k2) {
                    lemma_form_len(s@.subrange(i as int, k2));
                }
            }
        }
        while l <= 30
            invariant
                27 <= l <= 31,
                i < n == s@.len(),
                s@ == text@,
                forall|i2: int, k2: int| 0 <= i2 < i ==> !#[trigger] form_at(s@, i2, k2),
                forall|k2: int| k2 < i + l ==> !#[trigger] form_at(s@, i as int, k2),
            decreases 31 - l,
        {
            proof {
                assert forall|k2: int| k2 == i + l && k2 > n implies !#[trigger] form_at(s@, i as int, k2) by {}
            }
            if l <= n - i {
                let sub = crate::text::slice_chars(&s, i, i + l);
                let r = read_entry(&sub);
                match r {
                    Err(DateTimeError::Malformed) => {},
                    _ => {
                        proof {
                            assert(form_at(s@, i as int, i + l));
                            assert forall|i2: int, k2: int| (i2 < i || (i2 == i && k2 < i + l)) implies !#[trigger] form_at(
                                s@,
                                i2,
                                k2,
                            ) by {
                                if i2 < 0 {
                                } else if i2 < i {
                                } else {
                                }
                            }
                            assert(first_form(s@, i as int, i + l));
                            lemma_first_form_unique(s@, i as int, i + l);
                            assert forall|i3: int, k3: int| #[trigger] first_form(text@, i3, k3) implies r == schedule_of(
                                text@.subrange(i3, k3),
                            ) by {
                                lemma_first_form_unique(s@, i3, k3);
                            }
                        }
                        return r;
                    },
                }
            }
            l = l + 1;
        }
        proof {
            assert forall|k2: int| #![trigger form_at(s@, i as int, k2)] true implies !form_at(s@, i as int, k2) by {
                if form_at(s@, i as int, k2) {
                    lemma_form_len(s@.subrange(i as int, k2));
                }
            }
        }
        i = i + 1;
    }
    proof {
        assert forall|i2: int, k2: int| #![trigger form_at(s@, i2, k2)] true implies !form_at(s@, i2, k2) by {
            if form_at(s@, i2, k2) && i2 == n {
                lemma_form_len(s@.subrange(i2, k2));
            }
        }
        assert(!exists|i2: int, k2: int| first_form(s@, i2, k2));
    }
    Err(DateTimeError::Malformed)
}

proof fn lemma_schedule_unique(t: Seq<char>, de: int, me: int, month: int, starred: bool, p: int)
    requires
        4 <= de <= t.len(),
        forall|j: int| 4 <= j < de ==> is_digit(#[trigger] t[j]),
        de < t.len() ==> !is_digit(t[de]),
        de + 2 <= me <= t.len(),
        forall|j: int| de + 2 <= j < me ==> t[j] != ' ',
        me < t.len() ==> t[me] == ' ',
        1 <= month <= 12,
        month_name(month) == t.subrange(de + 2, me),
        me + 5 < t.len(),
        starred == (t[me + 5] == '*'),
        p == me + 5 + (if starred { 1int } else { 0int }),
    ensures
        forall|wd2: Seq<char>, dd2: Seq<char>, m2: int, yd2: Seq<char>, st2: bool, shd2: Seq<char>, smd2: Seq<char>, ehd2: Seq<char>, emd2: Seq<char>|
            schedule_parts(wd2, dd2, m2, yd2, shd2, smd2, ehd2, emd2) && t == #[trigger] schedule_text(
                wd2,
                dd2,
                m2,
                yd2,
                st2,
                shd2,
                smd2,
                ehd2,
                emd2,
            ) ==> schedule_result(dd2, m2, yd2, st2, shd2, smd2, ehd2, emd2) == schedule_result(
                t.subrange(4, de),
                month,
                t.subrange(me + 1, me + 5),
                starred,
                t.subrange(p + 1, p + 3),
                t.subrange(p + 4, p + 6),
                t.subrange(p + 7, p + 9),
                t.subrange(p + 10, p + 12),
            ),
{
    lemma_month_names();
        assert forall|wd2: Seq<char>, dd2: Seq<char>, m2: int, yd2: Seq<char>, st2: bool, shd2: Seq<char>, smd2: Seq<char>, ehd2: Seq<char>, emd2: Seq<char>|
            schedule_parts(wd2, dd2, m2, yd2, shd2, smd2, ehd2, emd2) && t == #[trigger] schedule_text(
                wd2,
                dd2,
                m2,
                yd2,
                st2,
                shd2,
                smd2,
                ehd2,
                emd2,
            ) implies schedule_result(dd2, m2, yd2, st2, shd2, smd2, ehd2, emd2) == schedule_result(
                t.subrange(4, de),
                month,
                t.subrange(me + 1, me + 5),
                starred,
                t.subrange(p + 1, p + 3),
                t.subrange(p + 4, p + 6),
                t.subrange(p + 7, p + 9),
                t.subrange(p + 10, p + 12),
            ) by {
            lemma_schedule_positions(wd2, dd2, m2, yd2, st2, shd2, smd2, ehd2, emd2);
            let a2: int = 4 + dd2.len() as int;
            if a2 != de {
                if a2 < de {
                    assert(is_digit(t[a2]));
                } else {
                    assert(dd2[de - 4] == t[de as int]);
                }
            }
            let me2: int = a2 + 2 + month_name(m2).len();
            if me2 != me {
                if me2 < me {
                    assert(t[me2] != ' ');
                } else {
                    assert(month_name(m2)[me - de - 2] == t[me as int]);
                }
            }
            assert(m2 == month);
            if st2 != starred {
                if st2 {
                    assert(t[me + 5] == '*');
                } else {
                    assert(t[me + 5] == ' ');
                }
            }
        }
}

/// Facts that rule out the form of a schedule entry, one for each way the reading can stop.
proof fn lemma_no_form(t: Seq<char>, stage: int, de: int, me: int, p: int)
    requires
        stage == 0 ==> !(t.len() >= 4 && is_alpha(t[0]) && is_alpha(t[1]) && t[2] == ',' && t[3] == ' '),
        stage >= 1 ==> t.len() >= 4 && t[2] == ',' && t[3] == ' ',
        stage >= 1 ==> 4 <= de <= t.len() && (forall|j: int| 4 <= j < de ==> is_digit(#[trigger] t[j])) && (de
            < t.len() ==> !is_digit(t[de])),
        stage == 1 ==> !(5 <= de <= 6 && de + 2 <= t.len() && t[de] == '.' && t[de + 1] == ' '),
        stage >= 2 ==> 5 <= de <= 6 && de + 2 <= t.len() && t[de] == '.' && t[de + 1] == ' ',
        stage >= 2 ==> de + 2 <= me <= t.len() && (forall|j: int| de + 2 <= j < me ==> t[j] != ' ') && (me
            < t.len() ==> t[me] == ' '),
        stage == 2 ==> forall|m: int| 1 <= m <= 12 ==> month_name(m) != t.subrange(de + 2, me),
        stage >= 3 ==> exists|m: int| 1 <= m <= 12 && month_name(m) == t.subrange(de + 2, me),
        stage == 3 ==> !(me + 5 <= t.len() && forall|j: int| me + 1 <= j < me + 5 ==> is_digit(#[trigger] t[j])),
        stage == 4 ==> me + 5 <= t.len() && p == (if me + 5 < t.len() && t[me + 5] == '*' {
            me + 6
        } else {
            me + 5
        }),
        stage == 4 ==> !(t.len() == p + 12 && t[p] == ' ' && t[p + 3] == ':' && t[p + 6] == '-' && t[p + 9]
            == ':' && (forall|j: int| p + 1 <= j < p + 3 ==> is_digit(#[trigger] t[j])) && (forall|j: int|
            p + 4 <= j < p + 6 ==> is_digit(#[trigger] t[j])) && (forall|j: int|
            p + 7 <= j < p + 9 ==> is_digit(#[trigger] t[j])) && (forall|j: int|
            p + 10 <= j < p + 12 ==> is_digit(#[trigger] t[j]))),
        0 <= stage <= 4,
    ensures
        !has_schedule_form(t),
{
    lemma_month_names();
    if has_schedule_form(t) {
        let (wd, dd, m, yd, st, shd, smd, ehd, emd) = choose|wd: Seq<char>, dd: Seq<char>, m: int, yd: Seq<char>, st: bool, shd: Seq<char>, smd: Seq<char>, ehd: Seq<char>, emd: Seq<char>|
            schedule_parts(wd, dd, m, yd, shd, smd, ehd, emd) && t == #[trigger] schedule_text(
                wd,
                dd,
                m,
                yd,
                st,
                shd,
                smd,
                ehd,
                emd,
            );
        lemma_schedule_positions(wd, dd, m, yd, st, shd, smd, ehd, emd);
        let a: int = 4 + dd.len() as int;
        assert(t.subrange(4, a)[0] == dd[0]);
        if stage >= 1 {
            if a != de {
                if a < de {
                    assert(is_digit(t[a]));
                } else {
                    assert(t.subrange(4, a)[de - 4] == t[de]);
                    assert(dd[de - 4] == t[de]);
                }
            }
        }
        let me2: int = a + 2 + month_name(m).len();
        if stage >= 2 {
            if me2 != me {
                if me2 < me {
                    assert(t[me2] != ' ');
                } else {
                    assert(t.subrange(a + 2, me2)[me - a - 2] == t[me]);
                }
            }
        }
        if stage >= 3 {
            let m0 = choose|m0: int| 1 <= m0 <= 12 && month_name(m0) == t.subrange(de + 2, me);
            assert(m0 == m);
            assert forall|j: int| me + 1 <= j < me + 5 implies is_digit(#[trigger] t[j]) by {
                assert(t.subrange(me + 1, me + 5)[j - me - 1] == t[j]);
            }
        }
        if stage == 4 {
            assert forall|j: int| p + 1 <= j < p + 3 implies is_digit(#[trigger] t[j]) by {
                assert(t.subrange(p + 1, p + 3)[j - p - 1] == t[j]);
            }
            assert forall|j: int| p + 4 <= j < p + 6 implies is_digit(#[trigger] t[j]) by {
                assert(t.subrange(p + 4, p + 6)[j - p - 4] == t[j]);
            }
            assert forall|j: int| p + 7 <= j < p + 9 implies is_digit(#[trigger] t[j]) by {
                assert(t.subrange(p + 7, p + 9)[j - p - 7] == t[j]);
            }
            assert forall|j: int| p + 10 <= j < p + 12 implies is_digit(#[trigger] t[j]) by {
                assert(t.subrange(p + 10, p + 12)[j - p - 10] == t[j]);
            }
        }
    }
}

} // verus!
