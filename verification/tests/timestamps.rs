use tasktrack::model::ValidationError;
use tasktrack::time::parse_due_timestamp;
use tasktrack::time::parse_timestamp;

#[test]
fn epoch_parses_to_zero() {
    assert_eq!(parse_due_timestamp("1970-01-01T00:00:00.000Z"), Ok(0));
    assert_eq!(parse_timestamp("1970-01-01T00:00:00.000Z"), Ok(0));
    assert_eq!(parse_timestamp("1970-01-01T00:00:00.000"), Ok(0));
}

#[test]
fn exact_epoch_offsets() {
    assert_eq!(parse_due_timestamp("1970-01-02T00:00:00.000Z"), Ok(86_400_000));
    assert_eq!(parse_due_timestamp("1970-01-01T01:00:00.000Z"), Ok(3_600_000));
    assert_eq!(parse_due_timestamp("1970-01-01T00:00:00.250Z"), Ok(250));
}

#[test]
fn utc_and_naive_forms_agree() {
    let with_suffix = parse_timestamp("2023-05-05T11:43:17.082Z").unwrap();
    let without_suffix = parse_timestamp("2023-05-05T11:43:17.082").unwrap();
    assert_eq!(with_suffix, without_suffix);
    assert_eq!(parse_due_timestamp("2023-05-05T11:43:17.082Z"), Ok(with_suffix));
}

#[test]
fn malformed_timestamps_are_client_errors() {
    assert_eq!(parse_timestamp("not a date"), Err(ValidationError::BadTimestamp));
    assert_eq!(parse_timestamp(""), Err(ValidationError::BadTimestamp));
    assert_eq!(
        parse_due_timestamp("2023-05-10T23:01:00.000"),
        Err(ValidationError::BadTimestamp)
    );
    assert_eq!(parse_due_timestamp("2023-13-40T99:99:99.000Z"), Err(ValidationError::BadTimestamp));
}
