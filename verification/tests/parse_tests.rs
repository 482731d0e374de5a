use process_wick::parse_target_pids;

#[test]
fn test_parse_target_pids_basic() {
    let result = parse_target_pids("1234,5678,9012").unwrap();
    assert_eq!(result.len(), 3);
    assert!(result.contains(&1234));
    assert!(result.contains(&5678));
    assert!(result.contains(&9012));
}

#[test]
fn test_parse_target_pids_with_spaces() {
    let result = parse_target_pids(" 1234 , 5678 , 9012 ").unwrap();
    assert_eq!(result.len(), 3);
    assert!(result.contains(&1234));
    assert!(result.contains(&5678));
    assert!(result.contains(&9012));
}

#[test]
fn test_parse_target_pids_empty_and_duplicates() {
    let result = parse_target_pids(",1234,,5678,1234,").unwrap();
    assert_eq!(result.len(), 2);
    assert!(result.contains(&1234));
    assert!(result.contains(&5678));
}

#[test]
fn test_parse_target_pids_invalid_pid() {
    let result = parse_target_pids("1234,abc,5678");
    assert!(result.is_err());
    assert_eq!(result.unwrap_err(), "Invalid PID: abc");
}

#[test]
fn test_parse_target_pids_all_invalid() {
    let result = parse_target_pids(",,,");
    assert!(result.is_err());
    assert_eq!(result.unwrap_err(), "No valid PIDs provided");
}

#[test]
fn test_parse_target_pids_mixed_tokens() {
    let result = parse_target_pids("1,,2, 3 ,2").unwrap();
    assert_eq!(result.len(), 3);
    assert!(result.contains(&1));
    assert!(result.contains(&2));
    assert!(result.contains(&3));
}

#[test]
fn test_parse_target_pids_first_invalid_named() {
    let result = parse_target_pids("1,x,2");
    assert!(result.is_err());
    assert_eq!(result.unwrap_err(), "Invalid PID: x");
}

#[test]
fn test_parse_target_pids_empty_string() {
    let result = parse_target_pids("");
    assert!(result.is_err());
    assert_eq!(result.unwrap_err(), "No valid PIDs provided");
}

#[test]
fn test_parse_target_pids_spaces_only() {
    let result = parse_target_pids("  ,  ,  ");
    assert!(result.is_err());
    assert_eq!(result.unwrap_err(), "No valid PIDs provided");
}

#[test]
fn test_parse_target_pids_value_bounds() {
    let result = parse_target_pids("4294967295").unwrap();
    assert_eq!(result.len(), 1);
    assert!(result.contains(&4294967295));

    let overflow = parse_target_pids("4294967296");
    assert!(overflow.is_err());
    assert_eq!(overflow.unwrap_err(), "Invalid PID: 4294967296");
}

#[test]
fn test_parse_target_pids_negative_is_invalid() {
    let result = parse_target_pids("12,-3");
    assert!(result.is_err());
    assert_eq!(result.unwrap_err(), "Invalid PID: -3");
}
