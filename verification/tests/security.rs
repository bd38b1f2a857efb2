use amqprs::SecurityCredentials;

#[test]
fn plain_credentials() {
    let c = SecurityCredentials::new_plain("user", "pass");
    assert_eq!(c.username, "user");
    assert_eq!(c.password, "pass");
    assert_eq!(c.get_mechanism_name(), "PLAIN");
    assert_eq!(c.get_response(), "\0user\0pass");
}

#[test]
fn plain_response_of_empty_credentials() {
    let c = SecurityCredentials::new_plain("", "");
    assert_eq!(c.get_response(), "\0\0");
}

#[test]
fn amqplain_credentials() {
    let c = SecurityCredentials::new_amqplain("guest", "secret");
    assert_eq!(c.username, "guest");
    assert_eq!(c.password, "secret");
    assert_eq!(c.get_mechanism_name(), "AMQPLAIN");
    let expected = "\u{5}LOGINS\0\0\0\u{5}guest\u{8}PASSWORDS\0\0\0\u{6}secret";
    assert_eq!(c.get_response(), expected);
}

#[test]
fn amqplain_response_with_multibyte_text() {
    let c = SecurityCredentials::new_amqplain("é", "");
    let r = c.get_response();
    assert_eq!(
        r.as_bytes(),
        &[
            5u8, b'L', b'O', b'G', b'I', b'N', b'S', 0, 0, 0, 2, 0xc3, 0xa9, 8, b'P', b'A', b'S',
            b'S', b'W', b'O', b'R', b'D', b'S', 0, 0, 0, 0
        ][..]
    );
}

#[test]
fn cloned_credentials_answer_alike() {
    let c = SecurityCredentials::new_amqplain("a", "b");
    let d = c.clone();
    assert_eq!(c.get_response(), d.get_response());
    assert_eq!(d.get_mechanism_name(), "AMQPLAIN");
}

#[test]
fn mechanism_stays_after_fields_change() {
    let mut c = SecurityCredentials::new_amqplain("u", "p");
    c.username = String::from("other");
    c.password = String::from("secret");
    let d = c.clone();
    assert_eq!(c.get_mechanism_name(), "AMQPLAIN");
    assert_eq!(d.get_mechanism_name(), "AMQPLAIN");
    assert_eq!(d.username, "other");
    let mut e = SecurityCredentials::new_plain("u", "p");
    e.username = String::from("x");
    assert_eq!(e.clone().get_mechanism_name(), "PLAIN");
    assert_eq!(e.get_response(), "\0x\0p");
}
