use hiking_routes::common_traits::Employee;
use std::cmp::Ordering;

#[test]
fn test_from_string_less_elements_error() {
    let s = String::from("Billy, 4, 5");
    assert_eq!(Err(()), Employee::try_from(s));
}

#[test]
fn test_from_string_more_elements_error() {
    let s = String::from("Billy, 4, 5, 7, 8");
    assert_eq!(Err(()), Employee::try_from(s));
}

#[test]
fn test_from_string_invalid_nums_error() {
    let s = String::from("Billy, 4a, 5, 7, 8");
    assert_eq!(Err(()), Employee::try_from(s));
}

#[test]
fn test_from_string_num_overflow_error() {
    const MAX_U32_PLUS_ONE: u64 = u32::MAX as u64 + 1;
    let s = format!("Billy, {}, 5, 7", MAX_U32_PLUS_ONE);
    assert_eq!(Err(()), Employee::try_from(s));
}

#[test]
fn test_eq() {
    let billy = Employee { name: String::from("Billy"), experience: 4, wage: 5, uid: 347 };
    let susie = Employee { name: String::from("Susie"), experience: 5, wage: 5, uid: 347 };

    assert_eq!(susie, billy);
}

#[test]
fn parses_well_formed_record() {
    let e = Employee::try_from(String::from("Jose, 12, 6, 1")).unwrap();
    assert_eq!(e.name, "Jose");
    assert_eq!(e.experience, 12);
    assert_eq!(e.wage, 6);
    assert_eq!(e.uid, 1);
    let e = Employee::try_from(String::from("  Billy  ,4,5,+345")).unwrap();
    assert_eq!(e.name, "Billy");
    assert_eq!(e.uid, 345);
}

#[test]
fn ordered_by_experience_over_wage() {
    let a = Employee { name: String::from("A"), experience: 12, wage: 6, uid: 1 };
    let b = Employee { name: String::from("B"), experience: 4, wage: 5, uid: 2 };
    let c = Employee { name: String::from("C"), experience: 9, wage: 4, uid: 3 };
    assert_eq!(a.partial_cmp(&b), Some(Ordering::Greater));
    assert_eq!(b.partial_cmp(&a), Some(Ordering::Less));
    assert_eq!(a.partial_cmp(&c), Some(Ordering::Equal));
    assert!(a != c);
    let z = Employee { name: String::from("Z"), experience: 9, wage: 0, uid: 4 };
    assert_eq!(a.partial_cmp(&z), None);
}

#[test]
fn written_as_comma_separated_text() {
    let e = Employee { name: String::from("Jose"), experience: 12, wage: 6, uid: 4294967295 };
    assert_eq!(e.to_text(), "Jose, 12, 6, 4294967295");
    let z = Employee { name: String::from("Zed"), experience: 0, wage: 10, uid: 7 };
    let text = String::from(z);
    assert_eq!(text, "Zed, 0, 10, 7");
    let back = Employee::try_from(text).unwrap();
    assert_eq!(back.name, "Zed");
    assert_eq!((back.experience, back.wage, back.uid), (0, 10, 7));
}
