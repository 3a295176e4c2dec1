use shifty::{
    alpha, alpha_space, alphanumeric, alphanumeric_space, new_from_toml, read_toml_string,
    short_abc, transcode, transform, Action, ConfigError, ConfigItem, ConfigValue, EncodeNum, Encoding,
    Error,
};

fn abcd() -> Encoding {
    let mut e = Encoding::new();
    for c in ['a', 'b', 'c', 'd'] {
        e.insert_char(c);
    }
    e
}

#[test]
fn round_trip_over_alphanumeric_space() {
    let e = alphanumeric_space();
    let m = "attack at dawn 1942".to_string();
    let k = "lemon tree".to_string();
    let c = e.encrypt(&m, &k).unwrap();
    assert_ne!(c, m);
    assert_eq!(c.chars().count(), m.chars().count());
    assert_eq!(e.decrypt(&c, &k).unwrap(), m);
}

#[test]
fn lengths_are_kept() {
    let e = alpha();
    let m = "abcdefghijklmnopqrstuvwxyz".to_string();
    let k = "zz".to_string();
    let c = e.encrypt(&m, &k).unwrap();
    assert_eq!(c.len(), m.len());
    assert_eq!(c, "zabcdefghijklmnopqrstuvwxy");
    let d = e.decrypt(&m, &k).unwrap();
    assert_eq!(d.len(), m.len());
    assert_eq!(d, "bcdefghijklmnopqrstuvwxyza");
}

#[test]
fn ordinals_stand_for_their_characters() {
    let e = short_abc();
    for (i, c) in ['a', 'b', 'c'].into_iter().enumerate() {
        let n = e.char_to_number(&c).unwrap();
        assert_eq!(n, EncodeNum(i as u64));
        assert_eq!(e.number_to_char(&n).unwrap(), c);
    }
}

#[test]
fn normalising_twice_changes_nothing_more() {
    let e = alpha_space();
    let once = e.map_string(&"Hello\tWorld".to_string());
    assert_eq!(once, "hello world");
    assert_eq!(e.map_string(&once), once);
}

#[test]
fn normalising_follows_one_step_only() {
    let mut e = Encoding::new();
    e.insert_map('x', 'y');
    e.insert_map('y', 'z');
    assert_eq!(e.map_char(&'x'), 'y');
    assert_eq!(e.map_string(&"xyw".to_string()), "yzw");
}

#[test]
fn filter_keeps_members_in_order() {
    let e = alpha();
    assert_eq!(e.filter_string(&"c1b2 a!".to_string()), "cba");
    assert_eq!(e.filter_string(&"".to_string()), "");
    assert_eq!(e.map_filter_string(&"Hi, Bob!".to_string()), "hibob");
}

#[test]
fn empty_key_fails() {
    let e = abcd();
    let empty = String::new();
    assert_eq!(e.encrypt(&"abc".to_string(), &empty), Err(Error::EmptyKey));
    assert_eq!(e.decrypt(&"abc".to_string(), &empty), Err(Error::EmptyKey));
    assert_eq!(e.encrypt(&empty, &empty), Err(Error::EmptyKey));
}

#[test]
fn key_outside_alphabet_fails_first() {
    let e = abcd();
    let r = e.encrypt(&"xyz".to_string(), &"abq".to_string());
    assert_eq!(r, Err(Error::CharNotInEncoding('q')));
    let r = e.encrypt(&"abxy".to_string(), &"ab".to_string());
    assert_eq!(r, Err(Error::CharNotInEncoding('x')));
}

#[test]
fn empty_alphabet_rejects_every_lookup() {
    let e = Encoding::new();
    assert_eq!(e.char_to_number(&'a'), Err(Error::CharNotInEncoding('a')));
    assert_eq!(e.number_to_char(&EncodeNum(0)), Err(Error::NumberNotInEncoding(EncodeNum(0))));
    assert!(!e.char_in_working_set(&'a'));
}

#[test]
fn ordinal_past_the_end_fails() {
    let e = abcd();
    assert_eq!(e.number_to_char(&EncodeNum(3)), Ok('d'));
    assert_eq!(e.number_to_char(&EncodeNum(4)), Err(Error::NumberNotInEncoding(EncodeNum(4))));
}

#[test]
fn single_step_arithmetic() {
    let e = EncodeNum(2);
    let k = EncodeNum(3);
    let c = transform(&e, &k, &4, &Action::Encrypt);
    assert_eq!(c, EncodeNum(1));
    assert_eq!(transform(&c, &k, &4, &Action::Decrypt), EncodeNum(2));
    assert_eq!(transform(&EncodeNum(9), &EncodeNum(6), &4, &Action::Decrypt), EncodeNum(3));
}

#[test]
fn repeated_character_takes_the_last_ordinal() {
    let mut e = Encoding::new();
    e.insert_char('a');
    e.insert_char('b');
    e.insert_char('a');
    assert_eq!(e.len(), 3);
    assert_eq!(e.char_count(), 2);
    assert_eq!(e.ordinal_count(), 3);
    assert_eq!(e.char_to_number(&'a'), Ok(EncodeNum(2)));
    assert_eq!(e.number_to_char(&EncodeNum(0)), Ok('a'));
}

#[test]
fn parse_fills_tables_in_order() {
    let e = Encoding::parse("alphabet = [\"c\", \"a\", \"b\"]\n[mapping]\nA = \"a\"\n").unwrap();
    assert_eq!(e.char_to_number(&'c'), Ok(EncodeNum(0)));
    assert_eq!(e.char_to_number(&'b'), Ok(EncodeNum(2)));
    assert_eq!(e.map_char(&'A'), 'a');
    assert_eq!(e.map_char(&'B'), 'B');
}

#[test]
fn malformed_alphabet_names_the_value() {
    let r = Encoding::parse("alphabet = [\"ab\"]");
    assert_eq!(
        r.unwrap_err(),
        Error::InvalidConfig(ConfigError::ValueNotChar(
            "String 'ab' is more than just a single char".to_string()
        ))
    );
}

#[test]
fn empty_alphabet_entry_fails() {
    let r = Encoding::parse("alphabet = [\"\"]");
    assert_eq!(
        r.unwrap_err(),
        Error::InvalidConfig(ConfigError::ValueNotChar(
            "Can not get char from empty string".to_string()
        ))
    );
}

#[test]
fn non_string_alphabet_entry_fails() {
    let r = Encoding::parse("alphabet = [\"a\", 1]");
    assert_eq!(
        r.unwrap_err(),
        Error::InvalidConfig(ConfigError::ValueNotChar(
            "Value of type integer is not a string".to_string()
        ))
    );
}

#[test]
fn alphabet_of_wrong_shape_fails() {
    let r = Encoding::parse("alphabet = \"abc\"");
    assert_eq!(
        r.unwrap_err(),
        Error::InvalidConfig(ConfigError::SchemaError(
            "Key 'alphabet' did not have Array: found string".to_string()
        ))
    );
}

#[test]
fn mapping_of_wrong_shape_fails() {
    let r = Encoding::parse("mapping = [\"a\"]");
    assert_eq!(
        r.unwrap_err(),
        Error::InvalidConfig(ConfigError::SchemaError(
            "Key 'mapping' did not have Table: found array".to_string()
        ))
    );
}

#[test]
fn mapping_value_must_be_one_char() {
    let r = Encoding::parse("[mapping]\nA = \"ab\"");
    assert_eq!(
        r.unwrap_err(),
        Error::InvalidConfig(ConfigError::ValueNotChar(
            "String 'ab' is more than just a single char".to_string()
        ))
    );
}

#[test]
fn unknown_keys_are_ignored() {
    let e = Encoding::parse("name = \"x\"\nalphabet = [\"a\"]").unwrap();
    assert_eq!(e.len(), 1);
}

#[test]
fn document_model_builds_encoding() {
    let doc = vec![
        (
            "alphabet".to_string(),
            ConfigValue::List(vec![ConfigItem::Text("x".to_string()), ConfigItem::Text("y".to_string())]),
        ),
        (
            "mapping".to_string(),
            ConfigValue::Table(vec![("X".to_string(), ConfigItem::Text("x".to_string()))]),
        ),
    ];
    let e = new_from_toml(doc).unwrap();
    assert_eq!(e.len(), 2);
    assert_eq!(e.map_char(&'X'), 'x');
    let bad = vec![("mapping".to_string(), ConfigValue::Other("integer".to_string()))];
    assert_eq!(
        new_from_toml(bad).unwrap_err(),
        Error::InvalidConfig(ConfigError::SchemaError(
            "Key 'mapping' did not have Table: found integer".to_string()
        ))
    );
}

#[test]
fn toml_text_is_read_into_entries() {
    let doc = read_toml_string("alphabet = [\"a\", true]\n[mapping]\nB = \"b\"").unwrap();
    assert_eq!(
        doc,
        vec![
            (
                "alphabet".to_string(),
                ConfigValue::List(vec![
                    ConfigItem::Text("a".to_string()),
                    ConfigItem::Other("boolean".to_string())
                ])
            ),
            (
                "mapping".to_string(),
                ConfigValue::Table(vec![("B".to_string(), ConfigItem::Text("b".to_string()))])
            ),
        ]
    );
    assert_eq!(read_toml_string("= 1"), Err(Error::InvalidConfig(ConfigError::InvalidToml)));
}

#[test]
fn presets_have_their_alphabets() {
    assert_eq!(alpha().len(), 26);
    assert_eq!(alpha_space().len(), 27);
    assert_eq!(alphanumeric().len(), 35);
    assert_eq!(alphanumeric_space().len(), 36);
    let e = alphanumeric_space();
    assert_eq!(e.char_to_number(&'1'), Ok(EncodeNum(26)));
    assert_eq!(e.char_to_number(&' '), Ok(EncodeNum(35)));
    assert!(!e.char_in_working_set(&'0'));
    assert_eq!(e.map_char(&'\n'), ' ');
    assert_eq!(e.map_char(&'Q'), 'q');
    assert_eq!(alpha().mapping_count(), 26);
    assert_eq!(alpha_space().mapping_count(), 28);
}

#[test]
fn transcode_prepares_text_unless_strict() {
    let e = alpha_space();
    let r = transcode(&e, Action::Encrypt, &"B!".to_string(), &"Hi There".to_string(), false);
    assert_eq!(r, e.encrypt(&"hi there".to_string(), &"b".to_string()));
    assert_eq!(r.clone().unwrap(), "ijauifsf");
    let back = transcode(&e, Action::Decrypt, &"b".to_string(), &r.unwrap(), true);
    assert_eq!(back.unwrap(), "hi there");
    let strict = transcode(&e, Action::Encrypt, &"b".to_string(), &"Hi".to_string(), true);
    assert_eq!(strict, Err(Error::CharNotInEncoding('H')));
}

#[test]
fn errors_describe_themselves() {
    assert_eq!(Error::CharNotInEncoding('x').message(), "Char x not in encoding");
    assert_eq!(Error::NumberNotInEncoding(EncodeNum(42)).message(), "Number 42 not in encoding");
    assert_eq!(Error::NumberNotInEncoding(EncodeNum(0)).message(), "Number 0 not in encoding");
    assert_eq!(
        Error::InvalidConfig(ConfigError::SchemaError("bad".to_string())).message(),
        "SchemaError: bad"
    );
    assert_eq!(Error::InvalidConfig(ConfigError::InvalidToml).message(), "String is not valid TOML");
    assert_eq!(Error::EmptyKey.description(), "key has no characters");
    assert_eq!(ConfigError::InvalidToml.description(), "string was not valid TOML");
    assert_eq!(Error::from(ConfigError::InvalidToml), Error::InvalidConfig(ConfigError::InvalidToml));
}
