use active_tree::field::{append_fields, append_val, Data, Val, ValColl};
use active_tree::text::{append_bool, append_i128, append_i64, append_u128, u64_to_string};
use active_tree::time::append_duration;

fn rendered(v: &Val) -> String {
    let mut s = String::new();
    append_val(&mut s, v);
    s
}

#[test]
fn unsigned_renders_as_plain_decimal_digits() {
    assert_eq!(rendered(&Val::U64(42)), "42");
    assert_eq!(rendered(&Val::U64(0)), "0");
    assert_eq!(rendered(&Val::U64(u64::MAX)), "18446744073709551615");
    assert_eq!(rendered(&Val::U128(u128::MAX)), "340282366920938463463374607431768211455");
}

#[test]
fn string_renders_with_quotation() {
    assert_eq!(rendered(&Val::String(String::from("hi"))), "\"hi\"");
    assert_eq!(rendered(&Val::String(String::from(""))), "\"\"");
}

#[test]
fn error_renders_prefixed() {
    let v = Val::String(format!("ERR:{}", "boom"));
    assert_eq!(rendered(&v), "\"ERR:boom\"");
}

#[test]
fn string_escapes_quotes_and_backslashes() {
    assert_eq!(rendered(&Val::String(String::from("a\"b\\c"))), "\"a\\\"b\\\\c\"");
}

#[test]
fn signed_renders_with_sign() {
    let mut s = String::new();
    append_i64(&mut s, -7);
    assert_eq!(s, "-7");
    let mut s = String::new();
    append_i64(&mut s, i64::MIN);
    assert_eq!(s, "-9223372036854775808");
    let mut s = String::new();
    append_i128(&mut s, i128::MIN);
    assert_eq!(s, "-170141183460469231731687303715884105728");
    let mut s = String::new();
    append_u128(&mut s, 12345);
    assert_eq!(s, "12345");
}

#[test]
fn bool_renders_as_words() {
    let mut s = String::new();
    append_bool(&mut s, true);
    append_bool(&mut s, false);
    assert_eq!(s, "truefalse");
}

#[test]
fn float_text_renders_verbatim() {
    assert_eq!(rendered(&Val::Float(format!("{}", 1.5f64))), "1.5");
}

#[test]
fn u64_to_string_matches_digits() {
    assert_eq!(u64_to_string(0), "0");
    assert_eq!(u64_to_string(1234567890), "1234567890");
}

#[test]
fn durations_pick_the_largest_fitting_unit() {
    let mut s = String::new();
    append_duration(&mut s, 999);
    assert_eq!(s, "999ns");
    let mut s = String::new();
    append_duration(&mut s, 1500);
    assert_eq!(s, "1.500µs");
    let mut s = String::new();
    append_duration(&mut s, 2_500_000);
    assert_eq!(s, "2.500ms");
    let mut s = String::new();
    append_duration(&mut s, 3_456_000_000);
    assert_eq!(s, "3.456s");
    let mut s = String::new();
    append_duration(&mut s, 1_000_000_000);
    assert_eq!(s, "1.000s");
    let mut s = String::new();
    append_duration(&mut s, 0);
    assert_eq!(s, "0ns");
    let mut s = String::new();
    append_duration(&mut s, u64::MAX);
    assert_eq!(s, "18446744073.709s");
}

#[test]
fn collected_fields_render_in_recording_order() {
    let mut fv = ValColl::new();
    fv.push(String::from("k"), Val::U64(5));
    fv.push(String::from("name"), Val::String(String::from("x")));
    assert_eq!(fv.len(), 2);
    let (key, val) = fv.get(0);
    assert_eq!(key, "k");
    assert_eq!(rendered(&val), "5");
    let mut s = String::new();
    append_fields(&mut s, &fv);
    assert_eq!(s, "[k=5] [name=\"x\"] ");
}

#[test]
fn captured_data_renders_fields_then_elapsed() {
    let mut fv = ValColl::new();
    fv.push(String::from("k"), Val::U64(5));
    let d = Data::capture(fv);
    let s = d.render();
    assert!(s.starts_with("[k=5] [elapsed="));
    assert!(s.ends_with(']'));
}

#[test]
fn data_at_fixed_clock_renders_exactly() {
    let d = Data::new(10, ValColl::new());
    let mut s = String::new();
    d.append_rendered(&mut s, 25);
    assert_eq!(s, "[elapsed=15ns]");
}
