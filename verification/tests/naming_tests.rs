use time_back::naming::{date_token, generate_file_name};

#[test]
fn date_token_is_digits_only_and_padded() {
    assert_eq!(date_token(2026, 10, 12), "20261012");
    assert_eq!(date_token(987, 1, 2), "09870102");
    assert_eq!(date_token(5, 12, 31), "00051231");
    assert_eq!(date_token(0, 1, 1), "00000101");
}

#[test]
fn todays_file_name_is_a_date_token() {
    let name = generate_file_name();
    assert_eq!(name.len(), 8);
    assert!(name.chars().all(|c| c.is_ascii_digit()));
    let month: u32 = name[4..6].parse().unwrap();
    let day: u32 = name[6..8].parse().unwrap();
    assert!((1..=12).contains(&month));
    assert!((1..=31).contains(&day));
}
