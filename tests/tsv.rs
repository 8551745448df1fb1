use easy_tsv::{from_tsv_string, to_tsv_string, Person, TsvError, TsvSerialize, TsvValue};

fn henning() -> Person {
    Person { name: "Henning".to_owned(), age: 44, note: "Ål".to_owned() }
}

fn people() -> Vec<Person> {
    vec![
        henning(),
        Person { name: "Søren".to_owned(), age: 23, note: "Ristet løg".to_owned() },
        Person { name: "Bjarki".to_owned(), age: 11, note: "Lasagne".to_owned() },
    ]
}

#[test]
fn encode_one_person() {
    let s = to_tsv_string(&[henning()]);
    assert_eq!(s, "name\tage\tnote\nHenning\t44\tÅl\n");
}

#[test]
fn decode_one_person() {
    let r: Result<Vec<Person>, TsvError> =
        from_tsv_string("name\tage\tnote\nHenning\t44\tÅl\n".to_owned());
    assert_eq!(r, Ok(vec![henning()]));
}

#[test]
fn encode_no_people_gives_header_only() {
    let none: Vec<Person> = Vec::new();
    assert_eq!(to_tsv_string(&none), "name\tage\tnote\n");
}

#[test]
fn decode_short_header_fails() {
    let r: Result<Vec<Person>, TsvError> = from_tsv_string("name\tage\nHenning\t44\n".to_owned());
    assert_eq!(r, Err(TsvError::KeyMismatch));
}

#[test]
fn decode_reordered_header_fails() {
    let r: Result<Vec<Person>, TsvError> =
        from_tsv_string("age\tname\tnote\n44\tHenning\tÅl\n".to_owned());
    assert_eq!(r, Err(TsvError::KeyMismatch));
}

#[test]
fn decode_mismatched_header_without_records_fails() {
    let r: Result<Vec<Person>, TsvError> = from_tsv_string("age\tname\tnote\n".to_owned());
    assert_eq!(r, Err(TsvError::KeyMismatch));
}

#[test]
fn pairs_encode_and_decode() {
    let pairs: Vec<(u32, String)> = vec![(1, "a".to_owned()), (2, "b".to_owned())];
    let s = to_tsv_string(&pairs);
    assert_eq!(s, "key\tvalue\n1\ta\n2\tb\n");
    let back: Result<Vec<(u32, String)>, TsvError> = from_tsv_string(s);
    assert_eq!(back, Ok(pairs));
}

#[test]
fn people_round_trip() {
    let all = people();
    let s = to_tsv_string(&all);
    assert_eq!(
        s,
        "name\tage\tnote\nHenning\t44\tÅl\nSøren\t23\tRistet løg\nBjarki\t11\tLasagne\n"
    );
    let back: Result<Vec<Person>, TsvError> = from_tsv_string(s);
    assert_eq!(back, Ok(all));
}

#[test]
fn empty_text_has_no_header() {
    let r: Result<Vec<Person>, TsvError> = from_tsv_string(String::new());
    assert_eq!(r, Err(TsvError::MissingHeader));
}

#[test]
fn header_only_decodes_to_no_records() {
    let r: Result<Vec<Person>, TsvError> = from_tsv_string("name\tage\tnote\n".to_owned());
    assert_eq!(r, Ok(Vec::new()));
}

#[test]
fn last_line_without_newline_is_read() {
    let r: Result<Vec<Person>, TsvError> =
        from_tsv_string("name\tage\tnote\nHenning\t44\tÅl".to_owned());
    assert_eq!(r, Ok(vec![henning()]));
}

#[test]
fn short_record_line_fails() {
    let r: Result<Vec<Person>, TsvError> =
        from_tsv_string("name\tage\tnote\nHenning\t44\n".to_owned());
    assert_eq!(r, Err(TsvError::FieldCount));
}

#[test]
fn long_record_line_fails() {
    let r: Result<Vec<Person>, TsvError> =
        from_tsv_string("name\tage\tnote\nHenning\t44\tÅl\textra\n".to_owned());
    assert_eq!(r, Err(TsvError::FieldCount));
}

#[test]
fn bad_number_fails() {
    let r: Result<Vec<Person>, TsvError> =
        from_tsv_string("name\tage\tnote\nHenning\tforty\tÅl\n".to_owned());
    assert_eq!(r, Err(TsvError::BadValue));
}

#[test]
fn first_failing_line_decides() {
    let r: Result<Vec<Person>, TsvError> =
        from_tsv_string("name\tage\tnote\nA\tx\tB\nC\t1\n".to_owned());
    assert_eq!(r, Err(TsvError::BadValue));
}

#[test]
fn empty_text_fields_round_trip() {
    let all = vec![Person { name: String::new(), age: 0, note: String::new() }];
    let s = to_tsv_string(&all);
    assert_eq!(s, "name\tage\tnote\n\t0\t\n");
    let back: Result<Vec<Person>, TsvError> = from_tsv_string(s);
    assert_eq!(back, Ok(all));
}

#[test]
fn field_order_follows_declaration() {
    let p = Person { note: "n".to_owned(), age: 7, name: "x".to_owned() };
    assert_eq!(p.to_line(), "x\t7\tn");
    assert_eq!(<Person as TsvSerialize>::keys(), &["name", "age", "note"][..]);
}

#[test]
fn pair_keys_and_line() {
    assert_eq!(<(i64, String) as TsvSerialize>::keys(), &["key", "value"][..]);
    assert_eq!((-5i64, "v".to_owned()).to_line(), "-5\tv");
}

#[test]
fn from_line_checks_names() {
    let r = <(u32, u32) as TsvSerialize>::from_line("1\t2", &["key", "val"]);
    assert_eq!(r, Err(TsvError::KeyMismatch));
    let r = <(u32, u32) as TsvSerialize>::from_line("1\t2", &["key", "value"]);
    assert_eq!(r, Ok((1, 2)));
}

#[test]
fn serialize_is_deterministic() {
    let v: u64 = 18446744073709551615;
    assert_eq!(v.serialize(), v.serialize());
    assert_eq!(v.serialize(), "18446744073709551615");
    let s = "Ål".to_owned();
    assert_eq!(s.serialize(), s.serialize());
}

#[test]
fn integer_texts() {
    assert_eq!(0u32.serialize(), "0");
    assert_eq!(44u32.serialize(), "44");
    assert_eq!((-7i32).serialize(), "-7");
    assert_eq!(i64::MIN.serialize(), "-9223372036854775808");
    assert_eq!(i64::MAX.serialize(), "9223372036854775807");
    assert_eq!(i32::MIN.serialize(), "-2147483648");
}

#[test]
fn integer_parsing() {
    assert_eq!(u32::deserialize("44"), Some(44));
    assert_eq!(u32::deserialize("+44"), Some(44));
    assert_eq!(u32::deserialize("007"), Some(7));
    assert_eq!(u32::deserialize("4294967295"), Some(u32::MAX));
    assert_eq!(u32::deserialize("4294967296"), None);
    assert_eq!(u32::deserialize("-1"), None);
    assert_eq!(u32::deserialize(""), None);
    assert_eq!(u32::deserialize("+"), None);
    assert_eq!(u32::deserialize("4 4"), None);
    assert_eq!(u64::deserialize("18446744073709551616"), None);
    assert_eq!(i64::deserialize("-9223372036854775808"), Some(i64::MIN));
    assert_eq!(i64::deserialize("-9223372036854775809"), None);
    assert_eq!(i64::deserialize("9223372036854775808"), None);
    assert_eq!(i32::deserialize("-0"), Some(0));
    assert_eq!(i32::deserialize("-"), None);
    assert_eq!(i32::deserialize("2147483648"), None);
    assert_eq!(i32::deserialize("-2147483648"), Some(i32::MIN));
}

#[test]
fn integers_round_trip() {
    for v in [0i64, 1, -1, 10, -10, 99, i64::MIN, i64::MAX] {
        assert_eq!(i64::deserialize(&v.serialize()), Some(v));
    }
    for v in [0u64, 9, 10, 100, u64::MAX] {
        assert_eq!(u64::deserialize(&v.serialize()), Some(v));
    }
}

#[test]
fn strings_are_verbatim() {
    assert_eq!(String::deserialize("  x y "), Some("  x y ".to_owned()));
    assert_eq!("Ål".to_owned().serialize(), "Ål");
}

#[test]
fn small_and_wide_integers() {
    assert_eq!(255u8.serialize(), "255");
    assert_eq!(u8::deserialize("256"), None);
    assert_eq!(u16::deserialize("65535"), Some(u16::MAX));
    assert_eq!(usize::deserialize("12"), Some(12));
    assert_eq!(i8::deserialize("-128"), Some(i8::MIN));
    assert_eq!(i8::deserialize("128"), None);
    assert_eq!((-300i16).serialize(), "-300");
    assert_eq!(isize::deserialize("-5"), Some(-5));
}

#[test]
fn bool_and_char_texts() {
    assert_eq!(true.serialize(), "true");
    assert_eq!(false.serialize(), "false");
    assert_eq!(bool::deserialize("true"), Some(true));
    assert_eq!(bool::deserialize("false"), Some(false));
    assert_eq!(bool::deserialize("True"), None);
    assert_eq!('Å'.serialize(), "Å");
    assert_eq!(char::deserialize("Å"), Some('Å'));
    assert_eq!(char::deserialize("ab"), None);
    assert_eq!(char::deserialize(""), None);
}

#[test]
fn pairs_of_other_scalars_round_trip() {
    let pairs: Vec<(bool, char)> = vec![(true, 'x'), (false, 'ø')];
    let s = to_tsv_string(&pairs);
    assert_eq!(s, "key\tvalue\ntrue\tx\nfalse\tø\n");
    let back: Result<Vec<(bool, char)>, TsvError> = from_tsv_string(s);
    assert_eq!(back, Ok(pairs));
}
