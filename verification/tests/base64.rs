use qframe::base64::{base64, decode_base64};

#[test]
fn decodes_base64_answers() {
    assert_eq!(decode_base64("ZGVwbG95LWFwaQ=="), Some("deploy-api".into()));
    assert_eq!(decode_base64("w6dheQ=="), Some("çay".into()));
    assert_eq!(decode_base64(""), Some(String::new()));
    assert_eq!(decode_base64("//79"), None, "not UTF-8");
}

#[test]
fn line_breaks_and_what_follows_the_pad_are_ignored() {
    assert_eq!(decode_base64("ZGVw\nbG95"), Some("deploy".into()));
    assert_eq!(decode_base64("ZGU=ZGVw"), Some("de".into()));
}

#[test]
fn encodes_standard_padded_base64() {
    assert_eq!(base64(b""), "");
    assert_eq!(base64(b"d"), "ZA==");
    assert_eq!(base64(b"de"), "ZGU=");
    assert_eq!(base64(b"deploy-api"), "ZGVwbG95LWFwaQ==");
    assert_eq!(base64(&[0xff, 0xfe, 0xfd]), "//79");
}

#[test]
fn what_is_encoded_decodes_back() {
    for text in ["", "a", "ab", "abc", "çay", "deploy-api", "güncelleme denetimi"] {
        assert_eq!(decode_base64(&base64(text.as_bytes())), Some(text.to_owned()));
    }
}

#[test]
fn characters_outside_the_alphabet_are_ignored_before_the_padding() {
    let plain = decode_base64("ZGVwbG95LWFwaQ==");
    assert_eq!(decode_base64("ZGVw\nbG95 LW€FwaQ=="), plain);
    assert_eq!(decode_base64("ZGVwbG95LWFwaQ==ignored"), plain, "nothing after the padding counts");
}
