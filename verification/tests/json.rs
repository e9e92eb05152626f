use eullm::inference::Single;
use eullm::json::{add_member, Json, Number};

fn number(text: &str) -> Json {
    Json::Number(Number { text: text.to_string(), single: None })
}

#[test]
fn members_are_found_by_name() {
    let mut m = Vec::new();
    add_member(&mut m, "a", Json::count(1));
    add_member(&mut m, "b", Json::text("x"));
    let j = Json::object(m);
    assert_eq!(j.get("a").unwrap().as_u64(), Some(1));
    assert_eq!(j.get("b").unwrap().as_text(), Some("x"));
    assert!(j.get("c").is_none());
    assert!(Json::Null.get("a").is_none());
    assert_eq!(Json::array(vec![Json::Null]).as_array().unwrap().len(), 1);
    assert_eq!(Json::Bool(true).as_bool(), Some(true));
    assert_eq!(Json::Null.as_bool(), None);
}

#[test]
fn whole_numbers_are_read_exactly() {
    assert_eq!(number("18446744073709551615").as_u64(), Some(u64::MAX));
    assert_eq!(number("18446744073709551616").as_u64(), None);
    assert_eq!(number("5.0").as_u64(), None);
    assert_eq!(number("-5").as_u64(), None);
    assert_eq!(number("-9223372036854775808").as_i64(), Some(i64::MIN));
    assert_eq!(number("9223372036854775807").as_i64(), Some(i64::MAX));
    assert_eq!(number("9223372036854775808").as_i64(), None);
    assert_eq!(number("-9223372036854775809").as_i64(), None);
    assert_eq!(number("1e3").as_i64(), None);
    assert_eq!(Json::signed(-7), number("-7"));
    assert_eq!(Json::count(12), number("12"));
}

#[test]
fn single_precision_values_are_carried_along() {
    let s = Single { bits: 0.7f32.to_bits() };
    let j = Json::Number(Number { text: "0.7".to_string(), single: Some(s) });
    assert_eq!(j.as_single(), Some(s));
    assert_eq!(Json::text("0.7").as_single(), None);
}
