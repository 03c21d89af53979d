use llm_messages::{Author, Base64Data, ImageMime, MessageError, ModelId, Signature, Text};
use llm_messages::{ToolCallId, ToolName, TurnId};

#[test]
fn text_given_empty_when_new_then_blank() {
    assert!(matches!(
        Text::new(""),
        Err(MessageError::Blank { field: "text" })
    ));
}

#[test]
fn given_whitespace_only_when_new_then_blank() {
    assert!(matches!(
        Text::new("  \n\t "),
        Err(MessageError::Blank { field: "text" })
    ));
}

#[test]
fn given_text_with_surrounding_space_when_new_then_preserved() {
    let text = Text::new("  hello  ").unwrap();
    assert_eq!(text.as_str(), "  hello  ");
}

#[test]
fn given_unicode_space_only_when_new_then_blank() {
    assert!(matches!(
        Text::new("\u{3000}\u{a0}\u{2028}"),
        Err(MessageError::Blank { field: "text" })
    ));
    assert!(Text::new("\u{200b}").is_ok());
}

#[test]
fn given_owned_string_when_from_string_then_same_as_new() {
    let text = Text::from_string("bonjour".to_owned()).unwrap();
    assert_eq!(text, Text::new("bonjour").unwrap());
    assert_eq!(text.to_string(), "bonjour");
    assert_eq!(text.into_string(), "bonjour");
    assert!(matches!(
        Text::from_string(" ".to_owned()),
        Err(MessageError::Blank { field: "text" })
    ));
}

#[test]
fn base64_given_empty_when_new_then_blank() {
    assert!(matches!(
        Base64Data::new(""),
        Err(MessageError::Blank {
            field: "base64_data"
        })
    ));
}

#[test]
fn given_valid_padded_value_when_new_then_accepted() {
    assert!(Base64Data::new("aGVsbG8=").is_ok());
    assert!(Base64Data::new("aGVsbA==").is_ok());
    assert!(Base64Data::new("YWJjZA==").is_ok());
    assert!(Base64Data::new("QUJDRA==").is_ok());
}

#[test]
fn given_length_not_multiple_of_four_when_new_then_refused() {
    assert!(matches!(
        Base64Data::new("aGVsbG8"),
        Err(MessageError::InvalidBase64)
    ));
}

#[test]
fn given_char_outside_alphabet_when_new_then_refused() {
    assert!(matches!(
        Base64Data::new("aGV*bG8="),
        Err(MessageError::InvalidBase64)
    ));
}

#[test]
fn given_padding_in_the_middle_when_new_then_refused() {
    assert!(matches!(
        Base64Data::new("aG=lbG8="),
        Err(MessageError::InvalidBase64)
    ));
}

#[test]
fn given_more_than_two_padding_chars_when_new_then_refused() {
    assert!(matches!(
        Base64Data::new("aGVs===="),
        Err(MessageError::InvalidBase64)
    ));
}

#[test]
fn given_unpadded_alphabet_when_new_then_kept_verbatim() {
    let data = Base64Data::new("ab+/09AZ").unwrap();
    assert_eq!(data.as_str(), "ab+/09AZ");
    assert_eq!(data.to_string(), "ab+/09AZ");
    assert!(matches!(
        Base64Data::new("ab-_09AZ"),
        Err(MessageError::InvalidBase64)
    ));
    assert!(matches!(
        Base64Data::new("===="),
        Err(MessageError::InvalidBase64)
    ));
}

#[test]
fn signature_given_empty_when_new_then_blank() {
    assert!(matches!(
        Signature::new(""),
        Err(MessageError::Blank { field: "signature" })
    ));
}

#[test]
fn given_padded_opaque_value_when_new_then_stored_byte_for_byte() {
    let raw = "  Ab+/=\n";
    let sig = Signature::new(raw).unwrap();
    assert_eq!(sig.as_str(), raw);
}

#[test]
fn given_empty_string_when_new_then_blank() {
    assert!(matches!(
        ToolCallId::new(""),
        Err(MessageError::Blank {
            field: "tool_call_id"
        })
    ));
    assert!(matches!(
        ToolName::new(""),
        Err(MessageError::Blank { field: "tool_name" })
    ));
    assert!(matches!(
        Author::new(""),
        Err(MessageError::Blank { field: "author" })
    ));
    assert!(matches!(
        ModelId::new(""),
        Err(MessageError::Blank { field: "model_id" })
    ));
    assert!(matches!(
        TurnId::new(""),
        Err(MessageError::Blank { field: "turn_id" })
    ));
}

#[test]
fn given_nonempty_when_new_then_preserved_verbatim() {
    let id = ToolCallId::new("call_42").unwrap();
    assert_eq!(id.as_str(), "call_42");
    assert_eq!(id.to_string(), "call_42");
}

#[test]
fn given_single_space_when_new_then_accepted() {
    assert!(ToolName::new(" ").is_ok());
}

#[test]
fn given_two_ids_when_compared_then_same_by_characters() {
    let a = TurnId::new("0192-abc").unwrap();
    let b = TurnId::from_string("0192-abc".to_owned()).unwrap();
    let c = TurnId::new("0192-abd").unwrap();
    assert!(a.same(&b));
    assert!(!a.same(&c));
    assert_eq!(a.clone(), b);
    assert!(Author::new("agent-a").unwrap().same(&Author::new("agent-a").unwrap()));
    assert!(!ModelId::new("m1").unwrap().same(&ModelId::new("m2").unwrap()));
}

#[test]
fn given_every_mime_when_displayed_then_media_type() {
    assert_eq!(ImageMime::Jpeg.as_str(), "image/jpeg");
    assert_eq!(ImageMime::Png.as_str(), "image/png");
    assert_eq!(ImageMime::Gif.as_str(), "image/gif");
    assert_eq!(ImageMime::Webp.as_str(), "image/webp");
    for mime in [ImageMime::Jpeg, ImageMime::Png, ImageMime::Gif, ImageMime::Webp] {
        assert_eq!(mime.to_string(), mime.as_str());
    }
}
