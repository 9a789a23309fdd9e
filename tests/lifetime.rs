use mls_tree::{Lifetime, MlsError, MlsTime};

const HOUR: u64 = 3600;
const DAY: u64 = 24 * 3600;

fn span(lifetime: &Lifetime) -> u64 {
    lifetime.not_after.seconds_since_epoch() - lifetime.not_before.seconds_since_epoch()
}

#[test]
fn test_lifetime_overflow() {
    let res = Lifetime::seconds(u64::MAX, None);
    assert!(matches!(res, Err(MlsError::TimeOverflow)));
}

#[test]
fn test_seconds() {
    let seconds = 10;
    let lifetime = Lifetime::seconds(seconds, None).unwrap();
    assert_eq!(span(&lifetime), 3610);
}

#[test]
fn test_days() {
    let days = 2;
    let lifetime = Lifetime::days(days, None).unwrap();
    assert_eq!(span(&lifetime), days as u64 * DAY + 1 * HOUR);
}

#[test]
fn test_years() {
    let years = 2;
    let lifetime = Lifetime::years(years, None).unwrap();
    assert_eq!(span(&lifetime), 365 * DAY * (years as u64) + 1 * HOUR);
}

#[test]
fn test_bounds() {
    let test_lifetime = Lifetime::new(MlsTime::from(5), MlsTime::from(10));

    assert!(!test_lifetime.within_lifetime(MlsTime::from(4)));
    assert!(!test_lifetime.within_lifetime(MlsTime::from(11)));
    assert!(test_lifetime.within_lifetime(MlsTime::from(5)));
    assert!(test_lifetime.within_lifetime(MlsTime::from(10)));
    assert!(test_lifetime.within_lifetime(MlsTime::from(6)));
}

#[test]
fn seconds_from_given_start() {
    let lifetime = Lifetime::seconds(100, Some(MlsTime::from(5000))).unwrap();
    assert_eq!(lifetime, Lifetime::new(MlsTime::from(1400), MlsTime::from(5100)));
}

#[test]
fn seconds_overflow_at_end_of_range() {
    let res = Lifetime::seconds(10, Some(MlsTime::from(u64::MAX - 5)));
    assert_eq!(res, Err(MlsError::TimeOverflow));
}

#[test]
fn seconds_start_before_clock_skew() {
    let res = Lifetime::seconds(10, Some(MlsTime::from(3599)));
    assert_eq!(res, Err(MlsError::TimeOverflow));
    let ok = Lifetime::seconds(0, Some(MlsTime::from(3600))).unwrap();
    assert_eq!(ok.not_before, MlsTime::from(0));
    assert_eq!(ok.not_after, MlsTime::from(3600));
}

#[test]
fn days_and_years_from_given_start() {
    let start = Some(MlsTime::from(10_000));
    let d = Lifetime::days(3, start).unwrap();
    assert_eq!(d.not_after, MlsTime::from(10_000 + 3 * DAY));
    let y = Lifetime::years(200, start).unwrap();
    assert_eq!(y.not_after, MlsTime::from(10_000 + 200 * 365 * DAY));
    assert_eq!(y.not_before, MlsTime::from(10_000 - HOUR));
}

#[test]
fn now_is_after_clock_skew() {
    assert!(MlsTime::now().seconds_since_epoch() > 3600);
}
