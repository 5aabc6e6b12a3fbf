use tasktrack::model::ValidationError;
use tasktrack::parse::parse_search_value;

#[test]
fn test_parse_search_value_one_value() {
    let status = "status".to_string();
    let value = ":status:Overdue";
    let value_2 = ":status:Done;";
    let parsed = parse_search_value(value).unwrap();
    let parsed_2 = parse_search_value(value_2).unwrap();
    assert_eq!(parsed.0, status);
    assert_eq!(parsed.1, vec!["overdue".to_string()]);
    assert_eq!(parsed_2.0, status);
    assert_eq!(parsed_2.1, vec!["done".to_string()]);
}

#[test]
fn test_parse_search_value_multiple_value() {
    let status = "status".to_string();
    let value = ":status:Overdue;Done";
    let parsed = parse_search_value(value).unwrap();
    assert_eq!(parsed.0, status);
    assert_eq!(parsed.1, vec!["overdue".to_string(), "done".to_string()]);
}

#[test]
fn parse_rejects_missing_second_separator() {
    assert_eq!(parse_search_value(":status"), Err(ValidationError::MalformedFilter));
    assert_eq!(parse_search_value("status"), Err(ValidationError::MalformedFilter));
    assert_eq!(parse_search_value(""), Err(ValidationError::MalformedFilter));
}

#[test]
fn parse_keeps_inner_empty_segments() {
    let parsed = parse_search_value(":status:Done;;Created").unwrap();
    assert_eq!(parsed.0, "status".to_string());
    assert_eq!(
        parsed.1,
        vec!["done".to_string(), "".to_string(), "created".to_string()]
    );
}

#[test]
fn parse_lowercases_values_not_field() {
    let parsed = parse_search_value(":Status:OVERDUE").unwrap();
    assert_eq!(parsed.0, "Status".to_string());
    assert_eq!(parsed.1, vec!["overdue".to_string()]);
}
