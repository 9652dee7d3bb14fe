use timesheet::calendar::codes::{day_of_week, get_century, get_month, get_year};
use timesheet::calendar::{
    days_of_month, is_leap_year, non_holidays_of_month, DateOfYear, DayOfMonth, DayOfWeek, Month,
    NotADayOfWeek, Year,
};

const WEEK: [DayOfWeek; 7] = [
    DayOfWeek::Sunday,
    DayOfWeek::Monday,
    DayOfWeek::Tuesday,
    DayOfWeek::Wednesday,
    DayOfWeek::Thursday,
    DayOfWeek::Friday,
    DayOfWeek::Saturday,
];

#[test]
fn test_add_days() {
    let first = DateOfYear::new(1, 1);
    assert_eq!(first.add_days(1, false), DateOfYear::new(2, 1));
    assert_eq!(first.add_days(31, false), DateOfYear::new(1, 2));
}

#[test]
fn add_no_days_stays() {
    let first = DateOfYear::new(1, 1);
    assert_eq!(first.add_days(0, false), DateOfYear::new(1, 1));
    assert_eq!(first.add_days(0, true), DateOfYear::new(1, 1));
}

#[test]
fn add_days_at_month_boundaries() {
    let first = DateOfYear::new(1, 1);
    // The day of the year equals an entry of the table: the last of a month.
    assert_eq!(first.add_days(30, false), DateOfYear::new(31, 1));
    assert_eq!(first.add_days(58, false), DateOfYear::new(28, 2));
    assert_eq!(first.add_days(59, false), DateOfYear::new(1, 3));
    assert_eq!(first.add_days(58, true), DateOfYear::new(28, 2));
    assert_eq!(first.add_days(59, true), DateOfYear::new(29, 2));
    assert_eq!(first.add_days(60, true), DateOfYear::new(1, 3));
    assert_eq!(first.add_days(333, false), DateOfYear::new(30, 11));
    assert_eq!(first.add_days(334, false), DateOfYear::new(1, 12));
    assert_eq!(first.add_days(364, false), DateOfYear::new(31, 12));
    assert_eq!(first.add_days(365, true), DateOfYear::new(31, 12));
}

#[test]
fn add_days_backwards() {
    assert_eq!(DateOfYear::new(1, 3).add_days(-1, false), DateOfYear::new(28, 2));
    assert_eq!(DateOfYear::new(1, 3).add_days(-1, true), DateOfYear::new(29, 2));
    assert_eq!(DateOfYear::new(31, 12).add_days(-364, false), DateOfYear::new(1, 1));
    assert_eq!(DateOfYear::new(1, 2).add_days(-31, true), DateOfYear::new(1, 1));
}

#[test]
fn add_days_past_the_year_counts_on_in_december() {
    assert_eq!(DateOfYear::new(31, 12).add_days(1, false), DateOfYear::new(32, 12));
    assert_eq!(DateOfYear::new(1, 1).add_days(399, false), DateOfYear::new(66, 12));
}

#[test]
fn add_days_round_trips() {
    for leap in [false, true] {
        for month in 1..=12u32 {
            for day in 1..=days_of_month(month, leap) {
                let date = DateOfYear::new(day, month).add_days(0, leap);
                assert_eq!(date, DateOfYear::new(day, month));
                let ordinal = (1..month).map(|m| days_of_month(m, leap)).sum::<u32>() + day;
                for delta in [-365i32, -60, -31, -2, -1, 0, 1, 2, 28, 31, 39, 50, 60, 364] {
                    if ordinal as i32 + delta < 1 {
                        continue;
                    }
                    let there = date.add_days(delta, leap);
                    assert_eq!(there.add_days(-delta, leap), date);
                }
            }
        }
    }
}

#[test]
fn new_checked_refuses_zero() {
    assert_eq!(DateOfYear::new_checked(0, 1), None);
    assert_eq!(DateOfYear::new_checked(1, 0), None);
    assert_eq!(DateOfYear::new_checked(0, 0), None);
    assert_eq!(DateOfYear::new_checked(15, 8), Some(DateOfYear::new(15, 8)));
    assert_eq!(DateOfYear::new_checked(40, 13), Some(DateOfYear { day: 40, month: 13 }));
}

#[test]
fn leap_years() {
    assert!(is_leap_year(2000));
    assert!(!is_leap_year(1900));
    assert!(is_leap_year(2024));
    assert!(!is_leap_year(2023));
    assert!(!is_leap_year(2100));
    assert!(is_leap_year(2400));
}

#[test]
fn month_lengths() {
    let common = [31, 28, 31, 30, 31, 30, 31, 31, 30, 31, 30, 31];
    for month in 1..=12u32 {
        assert_eq!(days_of_month(month, false), common[month as usize - 1]);
        let leap = if month == 2 { 29 } else { common[month as usize - 1] };
        assert_eq!(days_of_month(month, true), leap);
    }
    assert_eq!(days_of_month(0, false), 31);
    assert_eq!(days_of_month(13, true), 31);
    assert_eq!(Year::new(2024).days_of_month(2), 29);
    assert_eq!(Year::new(2023).days_of_month(2), 28);
    assert_eq!(Year::new(1900).days_of_month(2), 28);
}

#[test]
fn weekday_numbers() {
    for (number, day) in WEEK.iter().enumerate() {
        assert_eq!(DayOfWeek::try_from(number as u32).unwrap(), *day);
    }
    assert!(matches!(DayOfWeek::try_from(7), Err(NotADayOfWeek)));
    assert!(matches!(DayOfWeek::try_from(u32::MAX), Err(NotADayOfWeek)));
}

#[test]
fn weekdays_follow_in_a_circle() {
    for (number, day) in WEEK.iter().enumerate() {
        assert_eq!(day.next(), WEEK[(number + 1) % 7]);
    }
    assert_eq!(DayOfWeek::Saturday.next(), DayOfWeek::Sunday);
}

#[test]
fn weekend_is_saturday_and_sunday() {
    for day in WEEK {
        let expected = day == DayOfWeek::Saturday || day == DayOfWeek::Sunday;
        assert_eq!(day.is_weekend(), expected);
    }
}

#[test]
fn codes_of_the_congruence() {
    let months = [0, 3, 3, 6, 1, 4, 6, 2, 5, 0, 3, 5];
    for month in 1..=12u32 {
        assert_eq!(get_month(month), months[month as usize - 1]);
    }
    assert_eq!(get_year(2000), 0);
    assert_eq!(get_year(1970), 3);
    assert_eq!(get_year(2023), 0);
    assert_eq!(get_year(2024), 2);
    assert_eq!(get_century(1970), 0);
    assert_eq!(get_century(2000), 6);
    assert_eq!(get_century(2100), 4);
    assert_eq!(get_century(2200), 2);
    assert_eq!(day_of_week(1, 5), DayOfWeek::Saturday);
    assert_eq!(day_of_week(0, 0), DayOfWeek::Sunday);
    assert_eq!(day_of_week(u32::MAX, u32::MAX), DayOfWeek::Saturday);
}

#[test]
fn known_first_days_of_a_year() {
    let y2000 = Year::new(2000);
    assert_eq!(Month::new(1, &y2000).day_of_week(1), DayOfWeek::Saturday);
    let y1970 = Year::new(1970);
    assert_eq!(Month::new(1, &y1970).day_of_week(1), DayOfWeek::Thursday);
    let y2023 = Year::new(2023);
    assert_eq!(Month::new(1, &y2023).day_of_week(1), DayOfWeek::Sunday);
    assert_eq!(Month::new(12, &y2023).day_of_week(25), DayOfWeek::Monday);
}

#[test]
fn first_day_of_1984() {
    // The code of the year is negative here: 0 for the year, 0 for the
    // century, less one for the leap year.
    let year = Year::new(1984);
    assert_eq!(year.year(), 1984);
    assert_eq!(Month::new(1, &year).day_of_week(1), DayOfWeek::Sunday);
    assert_eq!(Month::new(2, &year).day_of_week(29), DayOfWeek::Wednesday);
}

#[test]
fn easter_reference_dates() {
    assert_eq!(Year::new(2000).easter(), DateOfYear::new(23, 4));
    assert_eq!(Year::new(2024).easter(), DateOfYear::new(31, 3));
    assert_eq!(Year::new(2023).easter(), DateOfYear::new(9, 4));
    assert_eq!(Year::new(2008).easter(), DateOfYear::new(23, 3));
    assert_eq!(Year::new(2038).easter(), DateOfYear::new(25, 4));
    assert_eq!(Year::new(1970).easter(), DateOfYear::new(29, 3));
}

#[test]
fn easter_lies_between_march_22_and_april_25() {
    for number in 1970..=2100u32 {
        let easter = Year::new(number).easter();
        let in_march = easter.month == 3 && (22..=31).contains(&easter.day);
        let in_april = easter.month == 4 && (1..=25).contains(&easter.day);
        assert!(in_march || in_april, "{:?} in {}", easter, number);
    }
}

#[test]
fn holidays_of_2024() {
    let holidays = Year::new(2024).holidays();
    let expected = [
        DateOfYear::new(1, 1),
        DateOfYear::new(6, 1),
        DateOfYear::new(29, 3),
        DateOfYear::new(1, 4),
        DateOfYear::new(1, 5),
        DateOfYear::new(9, 5),
        DateOfYear::new(20, 5),
        DateOfYear::new(30, 5),
        DateOfYear::new(15, 8),
        DateOfYear::new(3, 10),
        DateOfYear::new(1, 11),
        DateOfYear::new(25, 12),
        DateOfYear::new(26, 12),
    ];
    assert_eq!(holidays, expected);
}

#[test]
fn holidays_of_2023_move_with_easter() {
    let holidays = Year::new(2023).holidays();
    assert_eq!(holidays.len(), 13);
    assert_eq!(holidays[2], DateOfYear::new(7, 4));
    assert_eq!(holidays[3], DateOfYear::new(10, 4));
    assert_eq!(holidays[5], DateOfYear::new(18, 5));
    assert_eq!(holidays[6], DateOfYear::new(29, 5));
    assert_eq!(holidays[7], DateOfYear::new(8, 6));
}

#[test]
fn days_of_a_month_run_from_first_to_last() {
    let year = Year::new(2023);
    for number in 1..=12u32 {
        let month = Month::new(number, &year);
        assert_eq!(month.month(), number);
        let days = month.days();
        assert_eq!(days.len() as u32, year.days_of_month(number));
        for (i, day) in days.iter().enumerate() {
            assert_eq!(day.day_of_month, i as u32 + 1);
            assert_eq!(day.day_of_week, month.day_of_week(i as u32 + 1));
            if i > 0 {
                assert_eq!(day.day_of_week, days[i - 1].day_of_week.next());
            }
        }
    }
    let january = Month::new(1, &year).days();
    assert_eq!(
        january[0],
        DayOfMonth { day_of_week: DayOfWeek::Sunday, day_of_month: 1 }
    );
    assert_eq!(
        january[30],
        DayOfMonth { day_of_week: DayOfWeek::Tuesday, day_of_month: 31 }
    );
}

#[test]
fn february_has_a_29th_in_a_leap_year() {
    let days = Month::new(2, &Year::new(2024)).days();
    assert_eq!(days.len(), 29);
    assert_eq!(days[28].day_of_month, 29);
    assert_eq!(Month::new(2, &Year::new(2023)).days().len(), 28);
}

#[test]
fn working_days_of_december_2023() {
    let year = Year::new(2023);
    let month = Month::new(12, &year);
    let days = non_holidays_of_month(&month, &year);
    let numbers: Vec<u32> = days.iter().map(|day| day.day_of_month).collect();
    assert_eq!(
        numbers,
        vec![1, 4, 5, 6, 7, 8, 11, 12, 13, 14, 15, 18, 19, 20, 21, 22, 27, 28, 29]
    );
    assert!(!numbers.contains(&25));
    assert!(!numbers.contains(&26));
    assert_eq!(month.day_of_week(25), DayOfWeek::Monday);
    assert_eq!(month.day_of_week(26), DayOfWeek::Tuesday);
    assert_eq!(days[0].day_of_week, DayOfWeek::Friday);
}

#[test]
fn working_days_leave_out_weekends_and_holidays() {
    for number in [1970u32, 1999, 2000, 2023, 2024, 2038, 2100] {
        let year = Year::new(number);
        let holidays = year.holidays();
        for m in 1..=12u32 {
            let month = Month::new(m, &year);
            let working = non_holidays_of_month(&month, &year);
            for day in &working {
                assert!(!day.day_of_week.is_weekend());
                assert!(!holidays.contains(&DateOfYear::new(day.day_of_month, m)));
            }
            let expected: Vec<DayOfMonth> = month
                .days()
                .into_iter()
                .filter(|day| {
                    !day.day_of_week.is_weekend()
                        && !holidays.contains(&DateOfYear::new(day.day_of_month, m))
                })
                .collect();
            assert_eq!(working, expected);
        }
    }
}

#[test]
fn working_days_of_may_2023() {
    let year = Year::new(2023);
    let month = Month::new(5, &year);
    let numbers: Vec<u32> =
        non_holidays_of_month(&month, &year).iter().map(|day| day.day_of_month).collect();
    // Labour Day, Ascension Day (18th) and Whit Monday (29th) are left out.
    assert_eq!(
        numbers,
        vec![2, 3, 4, 5, 8, 9, 10, 11, 12, 15, 16, 17, 19, 22, 23, 24, 25, 26, 30, 31]
    );
}
