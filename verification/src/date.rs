//! Dates: the week of the semester that a date falls in, and which of the
//! configured semester start dates applies on a given day.

use chrono::{Datelike, NaiveDate};
use vstd::prelude::*;
use vstd::string::*;

use crate::text::{
    decimal, decimal_text, digit_char, lemma_text_le_antisymmetric, text_le, text_le_str,
};

verus! {

/// The date that chrono's `NaiveDate::parse_from_str(text, "%Y-%m-%d")` reads
/// from `text`, given as its day number (`Datelike::num_days_from_ce`: day 1
/// is January 1 of year 1 in the proleptic Gregorian calendar); `None` when
/// chrono rejects the text.
pub uninterp spec fn parsed_day_number(text: Seq<char>) -> Option<i32>;

/// Calls chrono's `NaiveDate::parse_from_str` with the format `%Y-%m-%d` and
/// turns the date it returns into its day number with
/// `Datelike::num_days_from_ce`. Trusted: the result is `parsed_day_number`
/// of the text; what chrono accepts (signs, widths, padding) is not restated.
#[verifier::external_body]
fn parse_day_number(text: &str) -> (r: Option<i32>)
    ensures
        r == parsed_day_number(text@),
{
    match NaiveDate::parse_from_str(text, "%Y-%m-%d") {
        Ok(date) => Some(date.num_days_from_ce()),
        Err(_) => None,
    }
}

/// The whole days from the day numbered `start_day` to the one numbered
/// `current_day`: what chrono's `NaiveDate::signed_duration_since(..).num_days()`
/// gives for the two dates, since day numbers count consecutive days.
pub fn days_between(current_day: i32, start_day: i32) -> (r: i64)
    ensures
        r == current_day - start_day,
{
    current_day as i64 - start_day as i64
}

/// The week of the semester, counted from 1, for a date `days` days after the start.
pub open spec fn week_number(days: int) -> int {
    days / 7 + 1
}

/// The parity word of a week number.
pub open spec fn parity_word(week: int) -> Seq<char> {
    if week % 2 == 0 {
        "even"@
    } else {
        "odd"@
    }
}

/// The status line for a date `days` days after the semester start.
pub open spec fn week_status_text(days: int) -> Seq<char> {
    if days < 0 {
        "Before start date"@
    } else {
        "Week "@ + decimal(week_number(days) as nat) + ": "@ + parity_word(week_number(days))
    }
}

/// The status line for a date `days` days after the semester start, such as
/// `Week 3: odd`, or `Before start date` for a date before it.
pub fn week_status_from_days(days: i64) -> (r: String)
    ensures
        r@ == week_status_text(days as int),
{
    if days < 0 {
        return String::from_str("Before start date");
    }
    let week = days / 7 + 1;
    let mut out = String::from_str("Week ");
    let number = decimal_text(week as u64);
    out.append(number.as_str());
    out.append(": ");
    if week % 2 == 0 {
        out.append("even");
    } else {
        out.append("odd");
    }
    out
}

/// The status line for `current_date` in the semester that starts on
/// `start_date`, both written `YYYY-MM-DD`.
pub fn get_week_status(start_date: &str, current_date: &str) -> (r: String)
    requires
        parsed_day_number(start_date@) is Some,
        parsed_day_number(current_date@) is Some,
    ensures
        r@ == week_status_text(
            parsed_day_number(current_date@)->0 - parsed_day_number(start_date@)->0,
        ),
{
    let start = parse_day_number(start_date).unwrap();
    let current = parse_day_number(current_date).unwrap();
    week_status_from_days(days_between(current, start))
}

/// Why a status line could not be given.
#[derive(Clone, Copy, Debug, PartialEq, Eq)]
pub enum DateError {
    InvalidStartDate,
    InvalidCurrentDate,
}

impl DateError {
    /// The message for the error.
    pub fn message(&self) -> (r: &'static str)
        ensures
            r@ == match self {
                DateError::InvalidStartDate => "Invalid start date"@,
                DateError::InvalidCurrentDate => "Invalid current date"@,
            },
    {
        match self {
            DateError::InvalidStartDate => "Invalid start date",
            DateError::InvalidCurrentDate => "Invalid current date",
        }
    }
}

/// [`get_week_status`] for any two texts: the start date is read first, and
/// the first of the two that does not parse is reported.
pub fn try_week_status(start_date: &str, current_date: &str) -> (r: Result<String, DateError>)
    ensures
        match (parsed_day_number(start_date@), parsed_day_number(current_date@)) {
            (None, _) => r == Err::<String, DateError>(DateError::InvalidStartDate),
            (Some(_), None) => r == Err::<String, DateError>(DateError::InvalidCurrentDate),
            (Some(start), Some(current)) => r matches Ok(s) && s@ == week_status_text(
                current - start,
            ),
        },
{
    if parse_day_number(start_date).is_none() {
        return Err(DateError::InvalidStartDate);
    }
    if parse_day_number(current_date).is_none() {
        return Err(DateError::InvalidCurrentDate);
    }
    Ok(get_week_status(start_date, current_date))
}


/// A status line says `Before start date` exactly when the date is before
/// the start, however far before.
pub proof fn lemma_before_start_exactly(days: int)
    ensures
        (week_status_text(days) == "Before start date"@) <==> days < 0,
{
    reveal_strlit("Before start date");
    reveal_strlit("Week ");
    if days >= 0 {
        let t = week_status_text(days);
        assert(t[0] == 'W');
        assert("Before start date"@[0] == 'B');
    }
}

/// `get_week_status` answers `Before start date` whenever the current date
/// comes before the start date.
pub proof fn lemma_status_before_start(start_date: Seq<char>, current_date: Seq<char>)
    requires
        parsed_day_number(start_date) is Some,
        parsed_day_number(current_date) is Some,
    ensures
        (week_status_text(
            parsed_day_number(current_date)->0 - parsed_day_number(start_date)->0,
        ) == "Before start date"@) <==> parsed_day_number(current_date)->0
            < parsed_day_number(start_date)->0,
{
    lemma_before_start_exactly(
        parsed_day_number(current_date)->0 - parsed_day_number(start_date)->0,
    );
}

/// From the start date on, the status line names the week `n` whose seven
/// days hold the date, `7(n-1) <= days < 7n`, with `odd` for odd `n` and
/// `even` for even `n`.
pub proof fn lemma_week_of_day(days: int, n: int)
    requires
        0 <= days,
        1 <= n,
        7 * (n - 1) <= days < 7 * n,
    ensures
        week_status_text(days) == "Week "@ + decimal(n as nat) + ": "@ + (if n % 2 == 1 {
            "odd"@
        } else {
            "even"@
        }),
{
    assert(days / 7 == n - 1);
}

/// A week lasts seven days: a date seven days later falls in the next week,
/// which has the other parity.
pub proof fn lemma_week_advances_weekly(days: int)
    requires
        days >= 0,
    ensures
        week_number(days + 7) == week_number(days) + 1,
        parity_word(week_number(days + 7)) != parity_word(week_number(days)),
{
    reveal_strlit("even");
    reveal_strlit("odd");
    assert((days + 7) / 7 == days / 7 + 1);
    let w = week_number(days);
    assert(w >= 1);
    assert(((w + 1) % 2 == 0) != (w % 2 == 0));
    assert("even"@.len() != "odd"@.len());
}

/// The first seven days, from the start date on, make up week 1, an odd week.
pub proof fn lemma_first_week(days: int)
    requires
        0 <= days < 7,
    ensures
        week_status_text(days) == "Week 1: odd"@,
{
    reveal_strlit("Week ");
    reveal_strlit(": ");
    reveal_strlit("odd");
    reveal_strlit("Week 1: odd");
    assert(week_number(days) == 1);
    assert(decimal(1) == seq![digit_char(1)]);
    assert(week_status_text(days) =~= "Week 1: odd"@);
}

/// The start date itself is in week 1, an odd week: `get_week_status(d, d)`
/// is `Week 1: odd` for every date `d` that parses.
pub proof fn lemma_start_date_in_first_week(date: Seq<char>)
    requires
        parsed_day_number(date) is Some,
    ensures
        week_status_text(parsed_day_number(date)->0 - parsed_day_number(date)->0)
            == "Week 1: odd"@,
{
    lemma_first_week(0);
}

/// `d` is among `dates`, not after `today`, and no date of `dates` that is
/// not after `today` comes after it.
pub open spec fn is_latest_up_to(dates: Seq<Seq<char>>, today: Seq<char>, d: Seq<char>) -> bool {
    &&& dates.contains(d)
    &&& text_le(d, today)
    &&& forall|x: Seq<char>| dates.contains(x) && text_le(x, today) ==> text_le(x, d)
}

/// `d` is among `dates` and comes no later than any of them.
pub open spec fn is_earliest(dates: Seq<Seq<char>>, d: Seq<char>) -> bool {
    &&& dates.contains(d)
    &&& forall|x: Seq<char>| dates.contains(x) ==> text_le(d, x)
}

/// Some date of `dates` is not after `today`.
pub open spec fn has_date_up_to(dates: Seq<Seq<char>>, today: Seq<char>) -> bool {
    exists|x: Seq<char>| dates.contains(x) && text_le(x, today)
}

/// What [`latest_old_date`] picks: the latest date not after `today`, or when
/// every date is after it, the earliest date.
pub open spec fn is_latest_old_date(dates: Seq<Seq<char>>, today: Seq<char>, d: Seq<char>) -> bool {
    if has_date_up_to(dates, today) {
        is_latest_up_to(dates, today, d)
    } else {
        is_earliest(dates, d)
    }
}

/// At most one date is what [`latest_old_date`] picks, so its contract fixes
/// the result.
pub proof fn lemma_latest_old_date_unique(dates: Seq<Seq<char>>, today: Seq<char>, d1: Seq<char>, d2: Seq<char>)
    requires
        is_latest_old_date(dates, today, d1),
        is_latest_old_date(dates, today, d2),
    ensures
        d1 == d2,
{
    if has_date_up_to(dates, today) {
        assert(text_le(d1, d2) && text_le(d2, d1));
    } else {
        assert(text_le(d1, d2) && text_le(d2, d1));
    }
    lemma_text_le_antisymmetric(d1, d2);
}

/// The semester start date in effect on `today`: the latest of `dates` that
/// is not after `today`, or, when all of them are, the earliest; `None` when
/// `dates` is empty. Dates compare as text, which orders `YYYY-MM-DD` dates
/// by time.
pub fn latest_old_date(dates: &[String], today: &str) -> (r: Option<String>)
    ensures
        r is None <==> dates@.len() == 0,
        r matches Some(d) ==> is_latest_old_date(dates.deep_view(), today@, d@),
{
    let ghost dv = dates.deep_view();
    let mut latest: Option<usize> = None;
    let mut earliest: Option<usize> = None;
    let mut i: usize = 0;
    while i < dates.len()
        invariant
            i <= dates.len(),
            dv == dates.deep_view(),
            earliest is None <==> i == 0,
            earliest matches Some(e) ==> e < i && forall|j: int| 0 <= j < i ==> text_le(dv[e as int], dv[j]),
            latest matches Some(l) ==> l < i && text_le(dv[l as int], today@),
            latest matches Some(l) ==> forall|j: int| 0 <= j < i && text_le(dv[j], today@) ==> text_le(dv[j], dv[l as int]),
            latest is None ==> forall|j: int| 0 <= j < i ==> !text_le(dv[j], today@),
        decreases dates.len() - i,
    {
        let here = dates[i].as_str();
        assert(dv[i as int] == here@);
        if text_le_str(here, today) {
            let replace = match latest {
                None => true,
                Some(l) => text_le_str(dates[l].as_str(), here),
            };
            if replace {
                proof {
                    if let Some(l) = latest {
                        assert forall|j: int| 0 <= j <= i && text_le(dv[j], today@) implies text_le(dv[j], dv[i as int]) by {
                            if j < i {
                                crate::text::lemma_text_le_transitive(dv[j], dv[l as int], dv[i as int]);
                            } else {
                                crate::text::lemma_text_le_reflexive(dv[j]);
                            }
                        }
                    } else {
                        crate::text::lemma_text_le_reflexive(dv[i as int]);
                    }
                }
                latest = Some(i);
            } else {
                proof {
                    crate::text::lemma_text_le_total(dv[latest->0 as int], dv[i as int]);
                }
            }
        }
        let smaller = match earliest {
            None => true,
            Some(e) => !text_le_str(dates[e].as_str(), here),
        };
        if smaller {
            proof {
                if let Some(e) = earliest {
                    crate::text::lemma_text_le_total(dv[e as int], dv[i as int]);
                    assert forall|j: int| 0 <= j <= i implies text_le(dv[i as int], dv[j]) by {
                        if j < i {
                            crate::text::lemma_text_le_transitive(dv[i as int], dv[e as int], dv[j]);
                        } else {
                            crate::text::lemma_text_le_reflexive(dv[j]);
                        }
                    }
                } else {
                    crate::text::lemma_text_le_reflexive(dv[i as int]);
                }
            }
            earliest = Some(i);
        }
        i = i + 1;
    }
    proof {
        if let Some(l) = latest {
            assert(dv[l as int] == dv[l as int]);
            assert(dv.contains(dv[l as int]));
            assert(has_date_up_to(dv, today@));
        } else if let Some(e) = earliest {
            assert(dv.contains(dv[e as int]));
            assert(!has_date_up_to(dv, today@));
        }
    }
    match latest {
        Some(l) => Some(dates[l].clone()),
        None => match earliest {
            Some(e) => Some(dates[e].clone()),
            None => None,
        },
    }
}

/// The semester start date to show first: [`latest_old_date`] of the
/// configured dates, or `today` itself when there are none.
pub fn initial_base_date(dates: &[String], today: &str) -> (r: String)
    ensures
        dates@.len() == 0 ==> r@ == today@,
        dates@.len() > 0 ==> is_latest_old_date(dates.deep_view(), today@, r@),
{
    match latest_old_date(dates, today) {
        Some(d) => d,
        None => String::from_str(today),
    }
}

} // verus!
