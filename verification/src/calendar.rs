//! Calendar arithmetic: leap years, weekdays, dates within a year, Easter and
//! the holidays that hang on it, and the working days of a month.

use vstd::prelude::*;
use vstd::std_specs::convert::TryFromSpecImpl;

pub mod codes;

verus! {

/// A day of the week, counted from Sunday.
#[derive(Debug, Copy, Clone, Eq, PartialEq, Structural)]
pub enum DayOfWeek {
    Sunday,
    Monday,
    Tuesday,
    Wednesday,
    Thursday,
    Friday,
    Saturday,
}

impl DayOfWeek {
    /// The number of the day: 0 for Sunday up to 6 for Saturday.
    pub open spec fn index(self) -> int {
        match self {
            DayOfWeek::Sunday => 0,
            DayOfWeek::Monday => 1,
            DayOfWeek::Tuesday => 2,
            DayOfWeek::Wednesday => 3,
            DayOfWeek::Thursday => 4,
            DayOfWeek::Friday => 5,
            DayOfWeek::Saturday => 6,
        }
    }

    /// The day whose number is congruent to `n` modulo 7.
    pub open spec fn of(n: int) -> DayOfWeek {
        let i = n % 7;
        if i == 0 {
            DayOfWeek::Sunday
        } else if i == 1 {
            DayOfWeek::Monday
        } else if i == 2 {
            DayOfWeek::Tuesday
        } else if i == 3 {
            DayOfWeek::Wednesday
        } else if i == 4 {
            DayOfWeek::Thursday
        } else if i == 5 {
            DayOfWeek::Friday
        } else {
            DayOfWeek::Saturday
        }
    }

    /// Saturday and Sunday make the weekend.
    pub open spec fn weekend(self) -> bool {
        self == DayOfWeek::Saturday || self == DayOfWeek::Sunday
    }

    /// The day after this one; Sunday follows Saturday.
    pub open spec fn successor(self) -> DayOfWeek {
        DayOfWeek::of(self.index() + 1)
    }

    /// Whether the day belongs to the weekend.
    pub fn is_weekend(&self) -> (weekend: bool)
        ensures
            weekend == self.weekend(),
    {
        match self {
            DayOfWeek::Sunday => true,
            DayOfWeek::Monday => false,
            DayOfWeek::Tuesday => false,
            DayOfWeek::Wednesday => false,
            DayOfWeek::Thursday => false,
            DayOfWeek::Friday => false,
            DayOfWeek::Saturday => true,
        }
    }

    /// The following day of the week.
    pub fn next(&self) -> (day: Self)
        ensures
            day == self.successor(),
    {
        match self {
            DayOfWeek::Sunday => DayOfWeek::Monday,
            DayOfWeek::Monday => DayOfWeek::Tuesday,
            DayOfWeek::Tuesday => DayOfWeek::Wednesday,
            DayOfWeek::Wednesday => DayOfWeek::Thursday,
            DayOfWeek::Thursday => DayOfWeek::Friday,
            DayOfWeek::Friday => DayOfWeek::Saturday,
            DayOfWeek::Saturday => DayOfWeek::Sunday,
        }
    }
}

/// The error of turning a number over 6 into a day of the week.
#[derive(Debug)]
pub struct NotADayOfWeek;

impl TryFrom<u32> for DayOfWeek {
    type Error = NotADayOfWeek;

    fn try_from(value: u32) -> (day: Result<Self, Self::Error>) {
        match value {
            0 => Ok(DayOfWeek::Sunday),
            1 => Ok(DayOfWeek::Monday),
            2 => Ok(DayOfWeek::Tuesday),
            3 => Ok(DayOfWeek::Wednesday),
            4 => Ok(DayOfWeek::Thursday),
            5 => Ok(DayOfWeek::Friday),
            6 => Ok(DayOfWeek::Saturday),
            _ => Err(NotADayOfWeek),
        }
    }
}

impl TryFromSpecImpl<u32> for DayOfWeek {
    open spec fn obeys_try_from_spec() -> bool {
        true
    }

    /// The numbers 0 to 6 name the days from Sunday on; no other number
    /// names a day.
    open spec fn try_from_spec(value: u32) -> Result<Self, Self::Error> {
        if value <= 6 {
            Ok(DayOfWeek::of(value as int))
        } else {
            Err(NotADayOfWeek)
        }
    }
}

/// The Gregorian rule: every fourth year is a leap year, but of the years
/// that end a century only every fourth.
pub open spec fn leap_year(year: int) -> bool {
    year % 4 == 0 && (year % 100 != 0 || year % 400 == 0)
}

/// The number of days of a month: 28 or 29 for February, 30 for April, June,
/// September and November, 31 for any other.
pub open spec fn month_length(month: int, leap: bool) -> int {
    if month == 2 {
        if leap {
            29
        } else {
            28
        }
    } else if month == 4 || month == 6 || month == 9 || month == 11 {
        30
    } else {
        31
    }
}

/// Whether `year` is a leap year.
pub fn is_leap_year(year: u32) -> (leap: bool)
    ensures
        leap == leap_year(year as int),
{
    year % 4 == 0 && (year % 100 != 0 || year % 400 == 0)
}

/// The number of days of `month` in a leap year or in a common year.
pub fn days_of_month(month: u32, leap_year: bool) -> (days: u32)
    ensures
        days == month_length(month as int, leap_year),
{
    let days: u32 = match month {
        2 => {
            if leap_year {
                29
            } else {
                28
            }
        },
        4 | 6 | 9 | 11 => 30,
        _ => 31,
    };
    days
}

/// The days of the year that lie before the first of `month`.
pub open spec fn days_before_month(month: int, leap: bool) -> int
    decreases month,
{
    if month <= 1 {
        0
    } else {
        days_before_month(month - 1, leap) + month_length(month - 1, leap)
    }
}

/// The number of days of a year.
pub open spec fn year_length(leap: bool) -> int {
    days_before_month(13, leap)
}

/// The last month, from `month` down, that begins before the `n`-th day of
/// the year; January if none does.
pub open spec fn month_beginning_before(n: int, leap: bool, month: int) -> int
    decreases month,
{
    if month <= 1 {
        1
    } else if days_before_month(month, leap) < n {
        month
    } else {
        month_beginning_before(n, leap, month - 1)
    }
}

/// The date of the `n`-th day of the year, the first of January being the
/// first day. Days past the end of the year are counted on in December.
pub open spec fn date_of_ordinal(n: int, leap: bool) -> DateOfYear {
    let month = month_beginning_before(n, leap, 12);
    DateOfYear { day: (n - days_before_month(month, leap)) as u32, month: month as u32 }
}

/// The days before each month, written out: a year has 365 days, or 366
/// with the 29th of February.
pub proof fn lemma_days_before_month(leap: bool)
    ensures
        days_before_month(1, leap) == 0,
        days_before_month(2, leap) == 31,
        days_before_month(3, leap) == 59 + (if leap { 1int } else { 0int }),
        days_before_month(4, leap) == 90 + (if leap { 1int } else { 0int }),
        days_before_month(5, leap) == 120 + (if leap { 1int } else { 0int }),
        days_before_month(6, leap) == 151 + (if leap { 1int } else { 0int }),
        days_before_month(7, leap) == 181 + (if leap { 1int } else { 0int }),
        days_before_month(8, leap) == 212 + (if leap { 1int } else { 0int }),
        days_before_month(9, leap) == 243 + (if leap { 1int } else { 0int }),
        days_before_month(10, leap) == 273 + (if leap { 1int } else { 0int }),
        days_before_month(11, leap) == 304 + (if leap { 1int } else { 0int }),
        days_before_month(12, leap) == 334 + (if leap { 1int } else { 0int }),
        year_length(leap) == 365 + (if leap { 1int } else { 0int }),
{
    reveal_with_fuel(days_before_month, 14);
}

const DAYS_TO_MONTH: [u32; 12] = [0, 31, 59, 90, 120, 151, 181, 212, 243, 273, 304, 334];

const DAYS_TO_MONTH_LEAP: [u32; 12] = [0, 31, 60, 91, 121, 152, 182, 213, 244, 274, 305, 335];

/// Looks up the days before the first of `month` in the table of the year.
fn days_to_month(month: u32, leap_year: bool) -> (days: u32)
    requires
        1 <= month <= 12,
    ensures
        days == days_before_month(month as int, leap_year),
{
    proof {
        lemma_days_before_month(leap_year);
    }
    if leap_year {
        DAYS_TO_MONTH_LEAP[month as usize - 1]
    } else {
        DAYS_TO_MONTH[month as usize - 1]
    }
}

/// A day and a month, without a year.
#[derive(Debug, Copy, Clone, Eq, PartialEq, Structural)]
pub struct DateOfYear {
    pub day: u32,
    pub month: u32,
}

impl DateOfYear {
    /// Day and month both count from 1.
    pub open spec fn wf(self) -> bool {
        self.day >= 1 && self.month >= 1
    }

    /// The date exists in a year that is, or is not, a leap year.
    pub open spec fn in_year(self, leap: bool) -> bool {
        &&& 1 <= self.month <= 12
        &&& 1 <= self.day <= month_length(self.month as int, leap)
    }

    /// The place of the date among the days of its year, the first of
    /// January being day 1.
    pub open spec fn ordinal(self, leap: bool) -> int {
        days_before_month(self.month as int, leap) + self.day
    }

    /// The date that lies `days` days after this one, or before it where
    /// `days` is negative.
    pub open spec fn plus_days(self, days: int, leap: bool) -> DateOfYear {
        date_of_ordinal(self.ordinal(leap) + days, leap)
    }

    /// The date of a day and a month that both count from 1.
    pub fn new(day: u32, month: u32) -> (date: Self)
        requires
            day >= 1,
            month >= 1,
        ensures
            date == (DateOfYear { day, month }),
            date.wf(),
    {
        DateOfYear { day, month }
    }

    /// The date of a day and a month, unless one of them is 0.
    pub fn new_checked(day: u32, month: u32) -> (date: Option<Self>)
        ensures
            date == (if (DateOfYear { day, month }).wf() {
                Some(DateOfYear { day, month })
            } else {
                None
            }),
    {
        if day == 0 || month == 0 {
            None
        } else {
            Some(DateOfYear { day, month })
        }
    }

    /// Moves the date by `days` days within its year. The date is turned
    /// into a day of the year, `days` is added, and the month is searched in
    /// which that day falls. A day past the end of the year is counted on in
    /// December; one before the first of January is not a date.
    pub fn add_days(&self, days: i32, leap_year: bool) -> (date: Self)
        requires
            1 <= self.month <= 12,
            1 <= self.ordinal(leap_year) + days <= i32::MAX,
        ensures
            date == self.plus_days(days as int, leap_year),
            date.ordinal(leap_year) == self.ordinal(leap_year) + days,
            date.wf(),
            date.month <= 12,
            self.ordinal(leap_year) + days <= year_length(leap_year) ==> date.in_year(leap_year),
    {
        let day_of_year: i64 = days_to_month(self.month, leap_year) as i64 + self.day as i64
            + days as i64;
        let mut month: u32 = 12;
        while month > 1 && days_to_month(month, leap_year) as i64 >= day_of_year
            invariant
                1 <= month <= 12,
                month_beginning_before(day_of_year as int, leap_year, 12)
                    == month_beginning_before(day_of_year as int, leap_year, month as int),
            decreases month,
        {
            month -= 1;
        }
        proof {
            lemma_date_of_ordinal(day_of_year as int, leap_year);
        }
        DateOfYear { day: (day_of_year - days_to_month(month, leap_year) as i64) as u32, month }
    }
}

/// The date of the `n`-th day of the year lies in a month from 1 to 12 and
/// is the `n`-th day again when its place is counted. Before December its
/// day is a day of its month, and up to the end of the year it is a date of
/// the year.
pub proof fn lemma_date_of_ordinal(n: int, leap: bool)
    requires
        1 <= n <= u32::MAX,
    ensures
        1 <= date_of_ordinal(n, leap).month <= 12,
        1 <= date_of_ordinal(n, leap).day,
        date_of_ordinal(n, leap).ordinal(leap) == n,
        date_of_ordinal(n, leap).month < 12 ==> date_of_ordinal(n, leap).day <= month_length(
            date_of_ordinal(n, leap).month as int,
            leap,
        ),
        n <= year_length(leap) ==> date_of_ordinal(n, leap).in_year(leap),
{
    lemma_days_before_month(leap);
    reveal_with_fuel(month_beginning_before, 13);
}

/// Counting the days up to a date of the year and back gives the date.
pub proof fn lemma_ordinal_of_date(date: DateOfYear, leap: bool)
    requires
        date.in_year(leap),
    ensures
        1 <= date.ordinal(leap) <= year_length(leap),
        date_of_ordinal(date.ordinal(leap), leap) == date,
{
    lemma_days_before_month(leap);
    reveal_with_fuel(month_beginning_before, 13);
}

/// Going `days` days from a date of the year and the same number back ends
/// on the date, as long as the way does not lead before the first of
/// January.
pub proof fn lemma_add_days_round_trip(date: DateOfYear, days: int, leap: bool)
    requires
        date.in_year(leap),
        1 <= date.ordinal(leap) + days <= u32::MAX,
    ensures
        date.plus_days(days, leap).plus_days(-days, leap) == date,
{
    lemma_date_of_ordinal(date.ordinal(leap) + days, leap);
    lemma_ordinal_of_date(date, leap);
}

/// The number of days from the last day of February to Easter Sunday, by
/// the formula of Gauss. All of its divisions are between numbers that are
/// not negative.
pub open spec fn easter_offset(year: int) -> int {
    let k = year / 100;
    let m = 15 + (3 * k + 3) / 4 - (8 * k + 13) / 25;
    let s = 2 - (3 * k + 3) / 4;
    let a = year % 19;
    let d = (19 * a + m) % 30;
    let r = (d + a / 11) / 29;
    let og = 21 + d - r;
    let sz = 7 - (year + year / 4 + s) % 7;
    let oe = 7 - (og - sz) % 7;
    og + oe
}

/// Easter Sunday of `year`: the first of March moved on by the offset less
/// one.
pub open spec fn easter_date(year: int) -> DateOfYear {
    (DateOfYear { day: 1, month: 3 }).plus_days(easter_offset(year) - 1, leap_year(year))
}

/// The holidays of `year`: eight on fixed dates and five that move with
/// Easter, which are Good Friday, Easter Monday, Ascension Day, Whit Monday
/// and Corpus Christi.
pub open spec fn holiday_dates(year: int) -> Seq<DateOfYear> {
    let leap = leap_year(year);
    let easter = easter_date(year);
    seq![
        DateOfYear { day: 1, month: 1 },
        DateOfYear { day: 6, month: 1 },
        easter.plus_days(-2, leap),
        easter.plus_days(1, leap),
        DateOfYear { day: 1, month: 5 },
        easter.plus_days(39, leap),
        easter.plus_days(50, leap),
        easter.plus_days(60, leap),
        DateOfYear { day: 15, month: 8 },
        DateOfYear { day: 3, month: 10 },
        DateOfYear { day: 1, month: 11 },
        DateOfYear { day: 25, month: 12 },
        DateOfYear { day: 26, month: 12 },
    ]
}

/// Whether `date` is one of the holidays of `year`.
pub open spec fn is_holiday(date: DateOfYear, year: int) -> bool {
    holiday_dates(year).contains(date)
}

/// Easter Sunday lies 22 to 56 days after the last day of February.
pub proof fn lemma_easter_offset(year: int)
    requires
        0 <= year,
    ensures
        22 <= easter_offset(year) <= 56,
{
}

/// Easter Sunday falls on a day from the 22nd of March to the 25th of
/// April, in every year.
pub proof fn lemma_easter_in_range(year: int)
    requires
        0 <= year,
    ensures
        easter_date(year).month == 3 || easter_date(year).month == 4,
        easter_date(year).month == 3 ==> 22 <= easter_date(year).day <= 31,
        easter_date(year).month == 4 ==> 1 <= easter_date(year).day <= 25,
        easter_date(year).in_year(leap_year(year)),
        easter_date(year).ordinal(leap_year(year)) == days_before_month(3, leap_year(year))
            + easter_offset(year),
{
    let leap = leap_year(year);
    lemma_easter_offset(year);
    lemma_days_before_month(leap);
    lemma_date_of_ordinal(days_before_month(3, leap) + easter_offset(year), leap);
    reveal_with_fuel(month_beginning_before, 13);
}

/// A year, with what the calendar derives from its number.
pub struct Year {
    year: u32,
    is_leap: bool,
    combined_code: i32,
}

impl View for Year {
    type V = int;

    /// A year stands for its number.
    closed spec fn view(&self) -> int {
        self.year as int
    }
}

impl Year {
    #[verifier::type_invariant]
    closed spec fn derived(self) -> bool {
        &&& self.is_leap == leap_year(self.year as int)
        &&& self.combined_code == codes::combined_code(self.year as int)
    }

    /// The year of the given number.
    pub fn new(year: u32) -> (y: Self)
        ensures
            y@ == year,
    {
        let year_code: u32 = codes::get_year(year);
        let century_code: u32 = codes::get_century(year);
        let is_leap: bool = is_leap_year(year);
        let combined_code: i32 = year_code as i32 + century_code as i32 - (if is_leap {
            1i32
        } else {
            0i32
        });
        Self { year, is_leap, combined_code }
    }

    /// The number of the year.
    pub fn year(&self) -> (number: u32)
        ensures
            number == self@,
    {
        self.year
    }

    /// The number of days that `month` has in this year.
    pub fn days_of_month(&self, month: u32) -> (days: u32)
        ensures
            days == month_length(month as int, leap_year(self@)),
    {
        proof {
            use_type_invariant(self);
        }
        days_of_month(month, self.is_leap)
    }

    /// Easter Sunday of this year.
    pub fn easter(&self) -> (date: DateOfYear)
        ensures
            date == easter_date(self@),
            date.in_year(leap_year(self@)),
            date.month == 3 && 22 <= date.day || date.month == 4 && date.day <= 25,
    {
        proof {
            use_type_invariant(self);
            lemma_easter_offset(self.year as int);
            lemma_easter_in_range(self.year as int);
            lemma_days_before_month(self.is_leap);
        }
        let year: i64 = self.year as i64;
        let k: i64 = year / 100;
        let m: i64 = 15 + (3 * k + 3) / 4 - (8 * k + 13) / 25;
        let s: i64 = 2 - (3 * k + 3) / 4;
        let a: i64 = year % 19;
        let d: i64 = (19 * a + m) % 30;
        let r: i64 = (d + a / 11) / 29;
        let og: i64 = 21 + d - r;
        let sz: i64 = 7 - (year + year / 4 + s) % 7;
        let oe: i64 = 7 - (og - sz) % 7;
        let os: i64 = og + oe;
        DateOfYear::new(1, 3).add_days((os - 1) as i32, self.is_leap)
    }

    /// The holidays of this year, in a fixed order: New Year's Day,
    /// Epiphany, Good Friday, Easter Monday, Labour Day, Ascension Day, Whit
    /// Monday, Corpus Christi, Assumption Day, the Day of German Unity, All
    /// Saints' Day, Christmas Day and Boxing Day.
    pub fn holidays(&self) -> (dates: [DateOfYear; 13])
        ensures
            dates@ == holiday_dates(self@),
            forall|i: int| 0 <= i < 13 ==> (#[trigger] dates@[i]).in_year(leap_year(self@)),
    {
        proof {
            use_type_invariant(self);
            lemma_easter_in_range(self.year as int);
            lemma_easter_offset(self.year as int);
            lemma_days_before_month(self.is_leap);
        }
        let easter = self.easter();
        let new_years_day = DateOfYear::new_checked(1, 1).unwrap();
        let epiphany = DateOfYear::new_checked(6, 1).unwrap();
        let good_friday = easter.add_days(-2, self.is_leap);
        let easter_monday = easter.add_days(1, self.is_leap);
        let labor_day = DateOfYear::new_checked(1, 5).unwrap();
        let ascension_day = easter.add_days(39, self.is_leap);
        let whit_monday = easter.add_days(50, self.is_leap);
        let corpus_christi = easter.add_days(60, self.is_leap);
        let assumption_day = DateOfYear::new_checked(15, 8).unwrap();
        let german_unity_day = DateOfYear::new_checked(3, 10).unwrap();
        let all_saints = DateOfYear::new_checked(1, 11).unwrap();
        let christmas_day = DateOfYear::new_checked(25, 12).unwrap();
        let boxing_day = DateOfYear::new_checked(26, 12).unwrap();

        let dates = [
            new_years_day,
            epiphany,
            good_friday,
            easter_monday,
            labor_day,
            ascension_day,
            whit_monday,
            corpus_christi,
            assumption_day,
            german_unity_day,
            all_saints,
            christmas_day,
            boxing_day,
        ];
        assert(dates@ =~= holiday_dates(self@));
        dates
    }
}

/// A day of a month together with its day of the week.
#[derive(Debug, Copy, Clone, Eq, PartialEq, Structural)]
pub struct DayOfMonth {
    pub day_of_week: DayOfWeek,
    pub day_of_month: u32,
}

/// What a [`Month`] stands for: its number, the code that gives the days of
/// the week in it, and the number of its days.
pub ghost struct MonthView {
    pub month: int,
    pub combined_code: int,
    pub num_days: int,
}

/// The month of number `month` in `year`.
pub open spec fn month_of_year(month: int, year: int) -> MonthView {
    MonthView {
        month,
        combined_code: codes::combined_code(year) + codes::month_code(month),
        num_days: month_length(month, leap_year(year)),
    }
}

/// The days of a month in order, each with its day of the week: that of
/// the first comes from the code of the month, and from one day to the next
/// the day of the week moves on by one.
pub open spec fn days_of(month: MonthView) -> Seq<DayOfMonth> {
    Seq::new(
        month.num_days as nat,
        |i: int|
            DayOfMonth {
                day_of_week: DayOfWeek::of(i + 1 + month.combined_code),
                day_of_month: (i + 1) as u32,
            },
    )
}

/// From one day of a month to the next the day of the week moves on by one.
pub proof fn lemma_days_follow(month: MonthView, i: int)
    requires
        0 <= i,
        i + 1 < month.num_days <= 31,
    ensures
        days_of(month)[i + 1].day_of_week == days_of(month)[i].day_of_week.successor(),
        days_of(month)[i + 1].day_of_month == days_of(month)[i].day_of_month + 1,
{
}

/// A day to work on: not at the weekend, and no holiday of `year` when read
/// as a day of the month of number `month`.
pub open spec fn is_working_day(day: DayOfMonth, month: int, year: int) -> bool {
    &&& !day.day_of_week.weekend()
    &&& !is_holiday(DateOfYear { day: day.day_of_month, month: month as u32 }, year)
}

/// The working days of a month, in order, where holidays are those of
/// `year`.
pub open spec fn working_days(month: MonthView, year: int) -> Seq<DayOfMonth> {
    days_of(month).filter(|day: DayOfMonth| is_working_day(day, month.month, year))
}

/// A month of a year, with what the calendar derives from the two.
pub struct Month {
    month: u32,
    combined_code: i32,
    num_days: u32,
}

impl View for Month {
    type V = MonthView;

    closed spec fn view(&self) -> MonthView {
        MonthView {
            month: self.month as int,
            combined_code: self.combined_code as int,
            num_days: self.num_days as int,
        }
    }
}

impl Month {
    #[verifier::type_invariant]
    closed spec fn bounded(self) -> bool {
        &&& 1 <= self.month <= 12
        &&& -1 <= self.combined_code <= 19
        &&& 28 <= self.num_days <= 31
    }

    /// The month of number `month`, from 1 to 12, in `year`.
    pub fn new(month: u32, year: &Year) -> (m: Self)
        requires
            1 <= month <= 12,
        ensures
            m@ == month_of_year(month as int, year@),
    {
        proof {
            use_type_invariant(year);
        }
        let combined_code: i32 = year.combined_code + codes::get_month(month) as i32;
        let num_days: u32 = year.days_of_month(month);
        Self { month, combined_code, num_days }
    }

    /// The number of the month.
    pub fn month(&self) -> (number: u32)
        ensures
            number == self@.month,
            1 <= number <= 12,
    {
        proof {
            use_type_invariant(self);
        }
        self.month
    }

    /// The day of the week of the day of number `day` in this month.
    pub fn day_of_week(&self, day: u32) -> (weekday: DayOfWeek)
        ensures
            weekday == DayOfWeek::of(day + self@.combined_code),
    {
        proof {
            use_type_invariant(self);
        }
        codes::day_of_week(day, (self.combined_code + 7) as u32)
    }

    /// The days of this month, from the first to the last.
    pub fn days(&self) -> (days: Vec<DayOfMonth>)
        ensures
            days@ == days_of(self@),
    {
        proof {
            use_type_invariant(self);
        }
        let num_days: u32 = self.num_days;
        let mut day = DayOfMonth { day_of_week: self.day_of_week(1), day_of_month: 1 };
        let mut days: Vec<DayOfMonth> = Vec::new();
        while day.day_of_month < num_days
            invariant
                num_days == self@.num_days,
                1 <= day.day_of_month <= num_days <= 31,
                day.day_of_week == DayOfWeek::of(day.day_of_month + self@.combined_code),
                days@.len() == day.day_of_month - 1,
                forall|i: int| 0 <= i < days@.len() ==> days@[i] == days_of(self@)[i],
            decreases num_days - day.day_of_month,
        {
            let following = DayOfMonth {
                day_of_week: day.day_of_week.next(),
                day_of_month: day.day_of_month + 1,
            };
            days.push(day);
            day = following;
        }
        days.push(day);
        assert(days@ =~= days_of(self@));
        days
    }
}

/// Whether `date` is among `dates`.
fn contains_date(dates: &[DateOfYear; 13], date: DateOfYear) -> (found: bool)
    ensures
        found == dates@.contains(date),
{
    let mut i: usize = 0;
    while i < 13
        invariant
            i <= 13,
            forall|j: int| 0 <= j < i ==> dates@[j] != date,
        decreases 13 - i,
    {
        if dates[i] == date {
            return true;
        }
        i += 1;
    }
    false
}

/// The days of `month` that are neither at the weekend nor a holiday of
/// `year`, in order.
pub fn non_holidays_of_month(month: &Month, year: &Year) -> (days: Vec<DayOfMonth>)
    ensures
        days@ == working_days(month@, year@),
        forall|i: int|
            0 <= i < days@.len() ==> !(#[trigger] days@[i]).day_of_week.weekend() && !is_holiday(
                DateOfYear { day: days@[i].day_of_month, month: month@.month as u32 },
                year@,
            ),
        forall|i: int|
            0 <= i < days_of(month@).len() && is_working_day(
                #[trigger] days_of(month@)[i],
                month@.month,
                year@,
            ) ==> days@.contains(days_of(month@)[i]),
{
    let holidays = year.holidays();
    let all = month.days();
    let number: u32 = month.month();
    let ghost working = |day: DayOfMonth| is_working_day(day, month@.month, year@);
    let mut days: Vec<DayOfMonth> = Vec::new();
    let mut i: usize = 0;
    while i < all.len()
        invariant
            i <= all@.len(),
            all@ == days_of(month@),
            holidays@ == holiday_dates(year@),
            number == month@.month,
            working == |day: DayOfMonth| is_working_day(day, month@.month, year@),
            days@ == all@.take(i as int).filter(working),
        decreases all@.len() - i,
    {
        let day = all[i];
        proof {
            reveal(Seq::filter);
            assert(all@.take(i + 1).drop_last() =~= all@.take(i as int));
        }
        if !day.day_of_week.is_weekend() && !contains_date(
            &holidays,
            DateOfYear { day: day.day_of_month, month: number },
        ) {
            days.push(day);
        }
        i += 1;
    }
    proof {
        assert(all@.take(all@.len() as int) =~= all@);
        assert forall|i: int| 0 <= i < days@.len() implies working(#[trigger] days@[i]) by {
            all@.lemma_filter_pred(working, i);
        }
        assert forall|i: int| 0 <= i < all@.len() && working(all@[i]) implies days@.contains(
            #[trigger] all@[i],
        ) by {
            all@.lemma_filter_contains(working, i);
        }
    }
    days
}

} // verus!
