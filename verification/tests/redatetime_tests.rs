use redatetime::instant::Instant;
use redatetime::repeat_every::RepeatEvery;
use redatetime::ReDateTime;

#[test]
fn init() {
    let now = Instant::new(2020, 0, 15, 600).unwrap();
    let dt = ReDateTime::at(now.clone());

    assert_eq!(dt.at, now);
    assert_eq!(dt.repeat, RepeatEvery::zero());
    assert_eq!(dt.until, Instant::max_instant());
}

#[test]
fn simple_repeat() {
    let now = Instant::new(2020, 0, 15, 600).unwrap();
    let wkday = now.weekday();

    let until = RepeatEvery::weeks(13).add_to(&now).unwrap();
    let dt = ReDateTime::repeat_until(now, RepeatEvery::weeks(1), until);

    let mut c: u32 = 0;
    let mut it = dt.iter();
    while let Some(n) = it.next() {
        assert_eq!(n.weekday(), wkday, "wanted {:?}, got {:?}", wkday, n.weekday());
        c += 1;
    }
    assert_eq!(c, 14);
}

#[test]
fn month_repeat() {
    let now = Instant::new(2020, 0, 15, 600).unwrap();
    let day = now.day;
    let month = now.month0;

    let until = RepeatEvery::days(366).add_to(&now).unwrap();
    let dt = ReDateTime::repeat_until(now, RepeatEvery::months(1), until);

    let mut c: u32 = 0;
    let mut it = dt.iter();
    while let Some(n) = it.next() {
        assert_eq!(n.day, day);
        assert_eq!(n.month0, (month + c) % 12);
        c += 1;
    }
    assert_eq!(c, 13);
}

#[test]
fn year_repeat() {
    let now = Instant::new(2020, 0, 15, 600).unwrap();
    let day = now.day;
    let month = now.month0;
    let year = now.year;

    let until = RepeatEvery::days(1000).add_to(&now).unwrap();
    let dt = ReDateTime::repeat_until(now, RepeatEvery::years(1), until);

    let mut c: i32 = 0;
    let mut it = dt.iter();
    while let Some(n) = it.next() {
        assert_eq!(n.day, day);
        assert_eq!(n.month0, month);
        assert_eq!(n.year, year + c);
        c += 1;
    }
    assert_eq!(c, 3);
}

#[test]
fn done_before() {
    let now = Instant::new(2020, 0, 15, 600).unwrap();
    let dt1 = ReDateTime::repeat(now, RepeatEvery::weeks(1));
    let dt2 = ReDateTime::repeat_until(
        now,
        RepeatEvery::weeks(1),
        RepeatEvery::weeks(3).add_to(&now).unwrap(),
    );
    let dt3 = ReDateTime::repeat_until(
        now,
        RepeatEvery::weeks(1),
        RepeatEvery::weeks(6).add_to(&now).unwrap(),
    );

    let dt5 = RepeatEvery::weeks(5).add_to(&now).unwrap();

    assert!(!dt1.done_before(&dt5));
    assert!(dt2.done_before(&dt5));
    assert!(!dt3.done_before(&dt5));
}

#[test]
fn between() {
    let now = Instant::new(2020, 0, 15, 600).unwrap();
    let dt1 = ReDateTime::repeat(now, RepeatEvery::weeks(1));
    let dt11 = ReDateTime::repeat_until(
        now,
        RepeatEvery::weeks(1),
        RepeatEvery::weeks(2).add_to(&now).unwrap(),
    );

    let yesterday = Instant::new(2020, 0, 14, 600).unwrap();
    let tomorrow = Instant::new(2020, 0, 16, 600).unwrap();
    let dt3 = vec![
        RepeatEvery::days(1).add_to(&now).unwrap(),
        RepeatEvery::days(3).add_to(&now).unwrap(),
    ];
    let dt4 = vec![
        RepeatEvery::days(20).add_to(&now).unwrap(),
        RepeatEvery::days(22).add_to(&now).unwrap(),
    ];

    assert!(dt1.between(&yesterday, &tomorrow));
    assert!(!dt1.between(&dt3[0], &dt3[1]));
    assert!(dt1.between(&dt4[0], &dt4[1]));
    assert!(dt11.between(&yesterday, &tomorrow));
    assert!(!dt11.between(&dt3[0], &dt3[1]));
    assert!(!dt11.between(&dt4[0], &dt4[1]));
}

#[test]
fn first_after() {
    let now = Instant::new(2020, 0, 15, 600).unwrap();
    let dt1 = ReDateTime::repeat(now.clone(), RepeatEvery::weeks(1));
    let dt2 = RepeatEvery::days(15).add_to(&now).unwrap();
    let dt3 = Instant::new(2019, 11, 31, 600).unwrap();

    assert_eq!(
        dt1.first_after(&dt2).unwrap(),
        RepeatEvery::weeks(3).add_to(&now).unwrap()
    );
    assert_eq!(dt1.first_after(&dt3).unwrap(), now);
}

#[test]
fn unit_constructors() {
    assert_eq!(RepeatEvery::minutes(5).minutes, 5);
    assert_eq!(RepeatEvery::hours(2).minutes, 120);
    assert_eq!(RepeatEvery::hours(0).minutes, 0);
    assert_eq!(RepeatEvery::days(4).days, 4);
    assert_eq!(RepeatEvery::weeks(3).days, 21);
    assert_eq!(RepeatEvery::months(7).months, 7);
    assert_eq!(RepeatEvery::years(2).months, 24);
}

#[test]
fn is_zero_only_for_zero() {
    assert!(RepeatEvery::zero().is_zero());
    assert!(!RepeatEvery::minutes(1).is_zero());
    assert!(!RepeatEvery::days(1).is_zero());
    assert!(!RepeatEvery::months(1).is_zero());
}

#[test]
fn checked_add_matches_add() {
    let a = RepeatEvery::minutes(30);
    let b = RepeatEvery::days(2);
    let s = a.checked_add(&b).unwrap();
    assert_eq!(s, a.add(&b));
    assert_eq!(s.minutes, 30);
    assert_eq!(s.days, 2);
    assert_eq!(s.months, 0);
}

#[test]
fn checked_add_overflow() {
    let a = RepeatEvery::minutes(u32::MAX);
    let b = RepeatEvery::minutes(1);
    assert_eq!(a.checked_add(&b), None);
    let c = RepeatEvery::months(u32::MAX);
    assert_eq!(c.checked_add(&c), None);
    assert_eq!(a.checked_add(&RepeatEvery::zero()), Some(a));
}

#[test]
fn codec_round_trip() {
    let now = Instant::new(2020, 0, 15, 600).unwrap();
    let s = ReDateTime::repeat_until(
        now,
        RepeatEvery::weeks(2),
        RepeatEvery::weeks(6).add_to(&now).unwrap(),
    );
    let rec = s.encode();
    assert_eq!(rec.len(), 11);
    let back = ReDateTime::decode(&rec).unwrap();
    assert_eq!(back.at, s.at);
    assert_eq!(back.repeat, s.repeat);
    assert_eq!(back.until, s.until);
}

#[test]
fn codec_rejects_bad_records() {
    let short: Vec<i64> = vec![2020, 0, 15];
    assert!(ReDateTime::decode(&short).is_none());
    // day 31 does not exist in February
    let bad: Vec<i64> = vec![2020, 1, 31, 0, 0, 0, 0, 2020, 0, 1, 0];
    assert!(ReDateTime::decode(&bad).is_none());
    // minute of day out of range
    let bad2: Vec<i64> = vec![2020, 0, 15, 1440, 0, 0, 0, 2020, 0, 1, 0];
    assert!(ReDateTime::decode(&bad2).is_none());
}

#[test]
fn month_end_has_no_successor() {
    // a month step from the 31st lands on a day the next month lacks
    let eom = Instant::new(2020, 0, 31, 0).unwrap();
    assert_eq!(RepeatEvery::months(1).add_to(&eom), None);
}

#[test]
fn leap_day() {
    assert!(Instant::new(2020, 1, 29, 0).is_some());
    assert!(Instant::new(2021, 1, 29, 0).is_none());
    let feb29 = Instant::new(2020, 1, 29, 0).unwrap();
    // one year later there is no February 29th
    assert_eq!(RepeatEvery::years(1).add_to(&feb29), None);
    // four years later there is
    let next = RepeatEvery::years(4).add_to(&feb29).unwrap();
    assert_eq!(next.year, 2024);
    assert_eq!(next.month0, 1);
    assert_eq!(next.day, 29);
}

#[test]
fn range_end_overflows() {
    let mx = Instant::max_instant();
    assert_eq!(RepeatEvery::days(1).add_to(&mx), None);
    assert_eq!(RepeatEvery::minutes(1).add_to(&mx), None);
    assert_eq!(RepeatEvery::zero().add_to(&mx), Some(mx));
}

#[test]
fn zero_interval_repeat() {
    // the degenerate unbounded schedule over a zero step: its bound is the
    // minimum instant and its traversal yields nothing
    let now = Instant::new(2020, 0, 15, 600).unwrap();
    let s = ReDateTime::repeat(now, RepeatEvery::zero());
    assert_eq!(s.until, Instant::min_instant());
    let mut it = s.iter();
    assert_eq!(it.next(), None);
    assert_eq!(s.first_after(&now), Some(now));
    let tomorrow = Instant::new(2020, 0, 16, 600).unwrap();
    assert!(s.done_before(&tomorrow));
}

#[test]
fn weekday_steps() {
    let now = Instant::new(2020, 0, 15, 600).unwrap();
    let w = now.weekday();
    let next_day = RepeatEvery::days(1).add_to(&now).unwrap();
    assert_eq!(next_day.weekday(), (w + 1) % 7);
    let next_week = RepeatEvery::days(7).add_to(&now).unwrap();
    assert_eq!(next_week.weekday(), w);
}

#[test]
fn first_after_past_bound() {
    let now = Instant::new(2020, 0, 15, 600).unwrap();
    let s = ReDateTime::repeat_until(
        now,
        RepeatEvery::weeks(1),
        RepeatEvery::weeks(2).add_to(&now).unwrap(),
    );
    let late = RepeatEvery::weeks(4).add_to(&now).unwrap();
    assert_eq!(s.first_after(&late), None);
}

#[test]
fn hour_steps_carry_into_days() {
    let late = Instant::new(2020, 0, 15, 1400).unwrap();
    let n = RepeatEvery::hours(2).add_to(&late).unwrap();
    assert_eq!(n.day, 16);
    assert_eq!(n.minute, 80);
    assert_eq!(n.month0, 0);
}

#[test]
fn instant_ordering() {
    let a = Instant::new(2020, 0, 15, 600).unwrap();
    let later_minute = Instant::new(2020, 0, 15, 601).unwrap();
    let later_day = Instant::new(2020, 0, 16, 0).unwrap();
    let later_month = Instant::new(2020, 1, 1, 0).unwrap();
    let later_year = Instant::new(2021, 0, 1, 0).unwrap();
    assert!(a.lt(&later_minute));
    assert!(a.lt(&later_day));
    assert!(later_day.lt(&later_month));
    assert!(later_month.lt(&later_year));
    assert!(!later_year.lt(&a));
    assert!(a.le(&a));
    assert!(!later_minute.le(&a));
    assert!(Instant::min_instant().lt(&Instant::max_instant()));
}
