use shifty::{ConfigError, Encoding, Error};

#[test]
fn fail_to_parse_bad_toml() {
    let test_string = r#"a = a"#;
    match Encoding::parse(test_string) {
        Ok(_) => panic!("We parsed invalid TOML!"),
        Err(Error::InvalidConfig(ConfigError::InvalidToml)) => (),
        Err(e) => panic!("We failed with the wrong type of error {:?}", e),
    }
}

#[test]
fn fail_to_parse_bad_char_in_alphabet() {
    let test_string = r#"
        alphabet = ["abc"]
        "#;

    match Encoding::parse(test_string) {
        Err(Error::InvalidConfig(ConfigError::ValueNotChar(_))) => (),
        Ok(_) => panic!("We parsed an invalid Alphabet!"),
        Err(e) => panic!("We failed with the wrong type of error {:?}", e),
    }
}

#[test]
fn fail_to_parse_bad_char_in_mapping() {
    let test_string = r#"
        [mapping]
        Abc = "a"
        "#;

    match Encoding::parse(test_string) {
        Err(Error::InvalidConfig(ConfigError::ValueNotChar(_))) => (),
        Ok(_) => panic!("We parsed an invalid Mapping!"),
        Err(e) => panic!("We failed with the wrong type of error {:?}", e),
    }
}
