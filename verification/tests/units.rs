use rust_labs::units::{compound_unit, product_unit, DoubleString};

#[test]
fn double_string_keeps_both_texts() {
    let string = String::from("hello");
    let pair = DoubleString::from_strs(&string, "world");
    assert_eq!(pair.0, "hello");
    assert_eq!(pair.1, "world");
    assert_eq!(pair.to_string(), "(hello, world)");
    let other = DoubleString::from_strings(&string, &String::from("world"));
    assert_eq!(other.to_string(), "(hello, world)");
    other.show();
}

#[test]
fn double_string_of_empty_texts() {
    assert_eq!(DoubleString::from_strs("", "").to_string(), "(, )");
}

#[test]
fn compound_units() {
    assert_eq!(compound_unit("km", "/", "h"), "km/h");
    assert_eq!(compound_unit("cm", "*", "cm"), "cm*cm");
    assert_eq!(compound_unit("", "*", "h"), "*h");
}

#[test]
fn product_units() {
    assert_eq!(product_unit(&vec![]), "");
    assert_eq!(product_unit(&vec![String::from("m")]), "m");
    let units = vec![String::from("m"), String::from("m"), String::from("s")];
    assert_eq!(product_unit(&units), "m*m*s");
}
