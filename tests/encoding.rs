use shifty::{transform, Action, EncodeNum, Encoding};

#[test]
fn encoding_create_empty_encoding() {
    let e = Encoding::new();
    assert_eq!(e.len(), 0);
    assert_eq!(e.char_count(), 0);
    assert_eq!(e.ordinal_count(), 0);
    assert_eq!(e.mapping_count(), 0);
}

#[test]
fn encoding_insert_new_char() {
    let mut e = Encoding::new();
    e.insert_char('a');
    assert_eq!(e.len(), 1);
    assert_eq!(e.char_count(), 1);
    assert_eq!(e.ordinal_count(), 1);
    assert_eq!(e.mapping_count(), 0);
}

#[test]
fn encoding_insert_new_map() {
    let mut e = Encoding::new();
    e.insert_map('A', 'a');
    assert_eq!(e.len(), 0);
    assert_eq!(e.char_count(), 0);
    assert_eq!(e.ordinal_count(), 0);
    assert_eq!(e.mapping_count(), 1);
}

#[test]
fn encoding_translate_with_map() {
    let mut e = Encoding::new();
    e.insert_map('A', 'a');
    assert_eq!(e.map_char(&'A'), 'a')
}

#[test]
fn encoding_encode() {
    let mut e = Encoding::new();
    e.insert_char('a');
    assert_eq!(e.char_to_number(&'a').unwrap(), EncodeNum(0))
}

#[test]
fn encoding_decode() {
    let mut e = Encoding::new();
    e.insert_char('a');
    assert_eq!(e.number_to_char(&EncodeNum(0)).unwrap(), 'a')
}

#[test]
fn create_empty_encoding() {
    let e = Encoding::new();
    assert_eq!(e.len(), 0);
    assert_eq!(e.char_count(), 0);
    assert_eq!(e.ordinal_count(), 0);
    assert_eq!(e.mapping_count(), 0);
}

#[test]
fn insert_new_char() {
    let mut e = Encoding::new();
    e.insert_char('a');
    assert_eq!(e.len(), 1);
    assert_eq!(e.char_count(), 1);
    assert_eq!(e.ordinal_count(), 1);
    assert_eq!(e.mapping_count(), 0);
}

#[test]
fn insert_new_map() {
    let mut e = Encoding::new();
    e.insert_map('A', 'a');
    assert_eq!(e.len(), 0);
    assert_eq!(e.char_count(), 0);
    assert_eq!(e.ordinal_count(), 0);
    assert_eq!(e.mapping_count(), 1);
}

#[test]
fn translate_with_map() {
    let mut e = Encoding::new();
    e.insert_map('A', 'a');
    assert_eq!(e.map_char(&'A'), 'a')
}

#[test]
fn encode() {
    let mut e = Encoding::new();
    e.insert_char('a');
    assert_eq!(e.char_to_number(&'a').unwrap(), EncodeNum(0))
}

#[test]
fn decode() {
    let mut e = Encoding::new();
    e.insert_char('a');
    assert_eq!(e.number_to_char(&EncodeNum(0)).unwrap(), 'a')
}

#[test]
fn transform_num_simple_add() {
    let m = EncodeNum(2);
    let k = EncodeNum(3);
    let c = EncodeNum(5);
    let abc_size: usize = 100;
    assert_eq!(transform(&m, &k, &abc_size, &Action::Encrypt), c)
}

#[test]
fn transform_num_simple_sub() {
    let m = EncodeNum(2);
    let k = EncodeNum(3);
    let c = EncodeNum(5);
    let abc_size: usize = 100;
    assert_eq!(transform(&c, &k, &abc_size, &Action::Decrypt), m)
}

#[test]
fn transform_num_wrapping_add() {
    let m = EncodeNum(2);
    let k = EncodeNum(3);
    let c = EncodeNum(1);
    let abc_size: usize = 4;
    assert_eq!(transform(&m, &k, &abc_size, &Action::Encrypt), c)
}

#[test]
fn transform_num_wrapping_sub() {
    let m = EncodeNum(2);
    let k = EncodeNum(3);
    let c = EncodeNum(1);
    let abc_size: usize = 4;
    assert_eq!(transform(&c, &k, &abc_size, &Action::Decrypt), m)
}

#[test]
fn transform_char_identity() {
    let mut e = Encoding::new();
    e.insert_char('a');
    e.insert_char('b');
    let m = "b".to_string();
    let k = "a".to_string();
    let c = "b".to_string();

    assert_eq!(e.transform_message(&m, &k, Action::Encrypt).unwrap(), c);
    assert_eq!(e.transform_message(&c, &k, Action::Decrypt).unwrap(), m);
}

#[test]
fn transform_char() {
    let mut e = Encoding::new();
    e.insert_char('a');
    e.insert_char('b');
    e.insert_char('c');
    e.insert_char('d');
    let m = "b".to_string();
    let k = "c".to_string();
    let c = "d".to_string();

    assert_eq!(e.transform_message(&m, &k, Action::Encrypt).unwrap(), c);
    assert_eq!(e.transform_message(&c, &k, Action::Decrypt).unwrap(), m);
}

#[test]
fn encrypt_decrypt() {
    let mut e = Encoding::new();
    e.insert_char('a');
    e.insert_char('b');
    e.insert_char('c');
    e.insert_char('d');
    let m = "add".to_string();
    let k = "bad".to_string();
    let c = "bdc".to_string();

    assert_eq!(e.encrypt(&m, &k).unwrap(), c);
    assert_eq!(e.decrypt(&c, &k).unwrap(), m);
}

#[test]
fn map_string() {
    let mut e = Encoding::new();
    e.insert_char('a');
    e.insert_map('A', 'a');
    let pre = "aAa".to_string();
    let post = "aaa".to_string();
    assert_eq!(e.map_string(&pre), post);
}

#[test]
fn filter_string() {
    let mut e = Encoding::new();
    e.insert_char('a');
    e.insert_char('b');
    e.insert_map('A', 'a');
    let pre = "Abc".to_string();
    let post = "b".to_string();
    assert_eq!(e.filter_string(&pre), post);
}

#[test]
fn parse_empty_string() {
    let test_string = r#""#;

    let e = Encoding::parse(test_string).unwrap();
    assert_eq!(e.len(), 0);
    assert_eq!(e.char_count(), 0);
    assert_eq!(e.ordinal_count(), 0);
    assert_eq!(e.mapping_count(), 0);
}

#[test]
fn parse_empty_alphabet() {
    let test_string = r#"
        alphabet = []
    "#;

    let e = Encoding::parse(test_string).unwrap();
    assert_eq!(e.len(), 0);
    assert_eq!(e.char_count(), 0);
    assert_eq!(e.ordinal_count(), 0);
    assert_eq!(e.mapping_count(), 0);
}

#[test]
fn parse_empty_mapping() {
    let test_string = r#"
        [mapping]
    "#;

    let e = Encoding::parse(test_string).unwrap();
    assert_eq!(e.len(), 0);
    assert_eq!(e.char_count(), 0);
    assert_eq!(e.ordinal_count(), 0);
    assert_eq!(e.mapping_count(), 0);
}

#[test]
fn parse_single_letter() {
    let test_string = r#"
    alphabet = ["a"]
    "#;

    let e = Encoding::parse(test_string).unwrap();
    assert_eq!(e.len(), 1);
    assert_eq!(e.char_count(), 1);
    assert_eq!(e.ordinal_count(), 1);
    assert_eq!(e.mapping_count(), 0);
}

#[test]
fn parse_single_mapping() {
    let test_string = r#"
    [mapping]
    A = "a"
    "#;

    let e = Encoding::parse(test_string).unwrap();
    assert_eq!(e.len(), 0);
    assert_eq!(e.char_count(), 0);
    assert_eq!(e.ordinal_count(), 0);
    assert_eq!(e.mapping_count(), 1);
}

#[test]
fn parse_simple_encoding() {
    let test_string = r#"
    alphabet = ["a", "b", "c"]
    [mapping]
    A = "a"
    B = "b"
    C = "c"
    "#;

    let e = Encoding::parse(test_string).unwrap();
    assert_eq!(e.len(), 3);
    assert_eq!(e.char_count(), 3);
    assert_eq!(e.ordinal_count(), 3);
    assert_eq!(e.mapping_count(), 3);
}
