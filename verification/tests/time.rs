use yarn_berry_fetcher::time::{dos_time, safe_time, SAFE_SECONDS};

#[test]
fn files_are_from_1984() {
    assert_eq!(safe_time(), 148_287_040);
    assert_eq!(dos_time(SAFE_SECONDS), Some(148_287_040));
}

#[test]
fn years_before_1980_cannot_be_written() {
    // The last second of 1979, and the one after it.
    assert_eq!(dos_time(315_532_799), None);
    assert_eq!(dos_time(315_532_800), Some(((1 << 5) + 1) << 16));
    assert_eq!(dos_time(0), None);
}

#[test]
fn every_other_second_is_written() {
    // 2000-02-29 23:59:58 and the second after it.
    let date = (20 << 9) + (2 << 5) + 29;
    let time = (23 << 11) + (59 << 5) + 29;
    assert_eq!(dos_time(951_868_798), Some((date << 16) + time));
    assert_eq!(dos_time(951_868_799), Some((date << 16) + time));
}
