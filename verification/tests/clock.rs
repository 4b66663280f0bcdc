use agm_cli::clock::{session_id_from, zero_padded_string, UtcFields};

fn fields(year: i32, month: u8, day: u8, hour: u8, minute: u8, second: u8) -> UtcFields {
    UtcFields { year, month, day, hour, minute, second }
}

#[test]
fn test_session_id_layout() {
    assert_eq!(session_id_from(&fields(2026, 4, 8, 9, 5, 7)), "run-2026-04-08-090507");
    assert_eq!(session_id_from(&fields(1999, 12, 31, 23, 59, 59)), "run-1999-12-31-235959");
}

#[test]
fn test_session_id_pads_small_and_negative_years() {
    assert_eq!(session_id_from(&fields(7, 1, 1, 0, 0, 0)), "run-0007-01-01-000000");
    assert_eq!(session_id_from(&fields(-5, 1, 1, 0, 0, 0)), "run--005-01-01-000000");
    assert_eq!(session_id_from(&fields(12345, 1, 1, 0, 0, 0)), "run-12345-01-01-000000");
}

#[test]
fn test_zero_padded_string() {
    assert_eq!(zero_padded_string(7, 3), "007");
    assert_eq!(zero_padded_string(0, 2), "00");
    assert_eq!(zero_padded_string(12345, 2), "12345");
    assert_eq!(zero_padded_string(42, 0), "42");
}
