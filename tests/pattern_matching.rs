use hiking_routes::pattern_matching::{match_1, match_2, match_3, match_4};

#[test]
fn test_match_1_short_vec() {
    let strs = vec!["PBAHello".to_string()];
    assert!(!match_1(strs));
}

#[test]
fn test_match_1_empty_vec() {
    let strs = vec![];
    assert!(!match_1(strs));
}

#[test]
fn test_match_2_short_vec() {
    let strs = vec!["PBAHello".to_string()];
    assert!(!match_2(strs));
}

#[test]
fn test_match_2_empty_vec() {
    let strs = vec![];
    assert!(!match_2(strs));
}

#[test]
fn test_match_3_false() {
    assert!(!match_3((false, true, true)))
}

#[test]
fn test_match_4_odd() {
    assert!(!match_4(Ok(7)))
}

#[test]
fn match_1_last_two_prefixed() {
    let strs = vec!["x".to_string(), "PBAone".to_string(), "PBA".to_string()];
    assert!(match_1(strs));
    let strs = vec!["PBAone".to_string(), "PB".to_string()];
    assert!(!match_1(strs));
}

#[test]
fn match_2_first_and_last_prefixed() {
    let strs = vec!["PBAa".to_string(), "zzz".to_string(), "PBAb".to_string()];
    assert!(match_2(strs));
    let strs = vec!["PBAa".to_string(), "pba".to_string()];
    assert!(!match_2(strs));
}

#[test]
fn match_3_and_4_true_cases() {
    assert!(match_3((true, false, false)));
    assert!(match_4(Ok(8)));
    assert!(!match_4(Err("no")));
}
