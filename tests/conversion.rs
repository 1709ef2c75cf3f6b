use steamacf::{AcfToken, AcfTokenStream, JsonWriter, ParseError, TokenList, TokenSource};

fn tokens_of(input: &[u8]) -> Vec<Result<AcfToken, ParseError>> {
    let mut stream = AcfTokenStream::new(input.to_vec());
    let mut items = Vec::new();
    while let Some(item) = stream.next() {
        items.push(item);
    }
    items
}

fn convert(input: &[u8], compact: bool, indent: u32) -> (String, Result<(), ParseError>) {
    let mut stream = AcfTokenStream::new(input.to_vec());
    let mut out = String::new();
    let r = JsonWriter { compact, indent }.write(&mut stream, &mut out);
    (out, r)
}

fn write_items(items: Vec<Result<AcfToken, ParseError>>, compact: bool, indent: u32) -> (String, Result<(), ParseError>) {
    let mut list = TokenList::new(items);
    let mut out = String::new();
    let r = JsonWriter { compact, indent }.write(&mut list, &mut out);
    (out, r)
}

fn s(text: &str) -> AcfToken {
    AcfToken::String(text.to_string())
}

fn nested_tokens() -> Vec<Result<AcfToken, ParseError>> {
    vec![
        Ok(AcfToken::DictStart),
        Ok(s("k")),
        Ok(AcfToken::DictStart),
        Ok(s("x")),
        Ok(s("y")),
        Ok(AcfToken::DictEnd),
        Ok(AcfToken::DictEnd),
    ]
}

#[test]
fn tokenizes_simple_object() {
    assert_eq!(
        tokens_of(b"{\"a\" \"1\"}"),
        vec![Ok(AcfToken::DictStart), Ok(s("a")), Ok(s("1")), Ok(AcfToken::DictEnd)]
    );
}

#[test]
fn try_next_reports_end_of_input() {
    let mut stream = AcfTokenStream::new(b"  {  ".to_vec());
    assert_eq!(stream.try_next(), Ok(Some(AcfToken::DictStart)));
    assert_eq!(stream.try_next(), Ok(None));
    assert_eq!(stream.try_next(), Ok(None));
}

#[test]
fn empty_input_has_no_tokens() {
    assert_eq!(tokens_of(b""), vec![]);
    assert_eq!(tokens_of(b" \n\t\r "), vec![]);
}

#[test]
fn compact_nested_object() {
    let (out, r) = write_items(nested_tokens(), true, 2);
    assert_eq!(r, Ok(()));
    assert_eq!(out, "{\"k\":{\"x\":\"y\"}}");
}

#[test]
fn indented_nested_object() {
    let (out, r) = write_items(nested_tokens(), false, 2);
    assert_eq!(r, Ok(()));
    assert_eq!(out, "{\n  \"k\": {\n    \"x\": \"y\"\n  }\n}");
}

#[test]
fn indent_of_four_and_of_zero() {
    let (out, _) = write_items(nested_tokens(), false, 4);
    assert_eq!(out, "{\n    \"k\": {\n        \"x\": \"y\"\n    }\n}");
    let (out, _) = write_items(nested_tokens(), false, 0);
    assert_eq!(out, "{\n\"k\": {\n\"x\": \"y\"\n}\n}");
}

#[test]
fn unterminated_string() {
    assert_eq!(tokens_of(b"{\"a"), vec![Ok(AcfToken::DictStart), Err(ParseError::UnterminatedString)]);
    let (out, r) = convert(b"{\"a\" \"1", true, 0);
    assert_eq!(r, Err(ParseError::UnterminatedString));
    assert_eq!(out, "{\"a\":");
}

#[test]
fn dict_end_as_value() {
    let items = vec![Ok(AcfToken::DictStart), Ok(s("a")), Ok(AcfToken::DictEnd)];
    let (out, r) = write_items(items, true, 0);
    assert_eq!(r, Err(ParseError::UnexpectedToken(AcfToken::DictEnd)));
    assert_eq!(out, "{\"a\":");
}

#[test]
fn conversion_is_repeatable() {
    let input: &[u8] = b"{\"a\" {\"b\" \"c\"} \"d\" \"e\"}";
    let first = convert(input, false, 3);
    let second = convert(input, false, 3);
    assert_eq!(first, second);
    assert_eq!(first.1, Ok(()));
}

#[test]
fn members_are_separated_by_commas() {
    let (out, r) = convert(b"{\"a\" \"1\" \"b\" {} \"c\" \"3\"}", true, 0);
    assert_eq!(r, Ok(()));
    assert_eq!(out, "{\"a\":\"1\",\"b\":{},\"c\":\"3\"}");
    let (out, _) = convert(b"{\"a\" \"1\" \"b\" \"2\"}", false, 1);
    assert_eq!(out, "{\n \"a\": \"1\",\n \"b\": \"2\"\n}");
}

#[test]
fn empty_object() {
    assert_eq!(convert(b"{}", true, 2), ("{}".to_string(), Ok(())));
    assert_eq!(convert(b"{}", false, 2), ("{\n}".to_string(), Ok(())));
}

#[test]
fn empty_input_is_unexpected_eof() {
    assert_eq!(convert(b"", true, 0), (String::new(), Err(ParseError::UnexpectedEof)));
}

#[test]
fn document_must_open_with_brace() {
    let (out, r) = convert(b"\"AppState\" {}", true, 0);
    assert_eq!(out, "");
    assert_eq!(r, Err(ParseError::UnexpectedToken(s("AppState"))));
    let (_, r) = convert(b"}", true, 0);
    assert_eq!(r, Err(ParseError::UnexpectedToken(AcfToken::DictEnd)));
}

#[test]
fn truncated_object_is_closed() {
    assert_eq!(convert(b"{\"a\" {\"b\" \"c\"", true, 0), ("{\"a\":{\"b\":\"c\"}}".to_string(), Ok(())));
}

#[test]
fn missing_value_is_unexpected_eof() {
    let (out, r) = convert(b"{\"a\"", true, 0);
    assert_eq!(r, Err(ParseError::UnexpectedEof));
    assert_eq!(out, "{\"a\":");
}

#[test]
fn dict_start_as_key() {
    let (out, r) = convert(b"{{", true, 0);
    assert_eq!(r, Err(ParseError::UnexpectedToken(AcfToken::DictStart)));
    assert_eq!(out, "{");
}

#[test]
fn unexpected_character() {
    assert_eq!(tokens_of(b"{x}"), vec![Ok(AcfToken::DictStart), Err(ParseError::UnexpectedCharacter('x')), Ok(AcfToken::DictEnd)]);
    let (out, r) = convert(b"{\"a\" 1}", true, 0);
    assert_eq!(r, Err(ParseError::UnexpectedCharacter('1')));
    assert_eq!(out, "{\"a\":");
}

#[test]
fn tokenizer_error_reaches_writer() {
    let items = vec![Ok(AcfToken::DictStart), Err(ParseError::InvalidEncoding)];
    assert_eq!(write_items(items, true, 0), ("{".to_string(), Err(ParseError::InvalidEncoding)));
}

#[test]
fn invalid_utf8() {
    assert_eq!(tokens_of(&[0xff]), vec![Err(ParseError::InvalidEncoding)]);
    assert_eq!(tokens_of(b"{\"\xc3\x28\"}")[1], Err(ParseError::InvalidEncoding));
    // an encoded surrogate and an overlong slash
    assert_eq!(tokens_of(&[0xed, 0xa0, 0x80]), vec![Err(ParseError::InvalidEncoding)]);
    assert_eq!(tokens_of(&[0xc0, 0xaf]), vec![Err(ParseError::InvalidEncoding)]);
}

#[test]
fn partial_character_at_end() {
    assert_eq!(tokens_of(b"{\"a\" \"\xe6\x97"), vec![Ok(AcfToken::DictStart), Ok(s("a")), Err(ParseError::InvalidEncoding)]);
}

#[test]
fn multibyte_characters_are_kept() {
    let (out, r) = convert("{\"é\" \"日本\" \"k\" \"😀\"}".as_bytes(), true, 0);
    assert_eq!(r, Ok(()));
    assert_eq!(out, "{\"é\":\"日本\",\"k\":\"😀\"}");
}

#[test]
fn unicode_whitespace_is_skipped() {
    assert_eq!(
        tokens_of("\u{3000}{\u{a0}\"a\"\u{2028}\"b\"\u{85}}".as_bytes()),
        vec![Ok(AcfToken::DictStart), Ok(s("a")), Ok(s("b")), Ok(AcfToken::DictEnd)]
    );
}

#[test]
fn whitespace_and_backslash_inside_strings_are_kept() {
    assert_eq!(tokens_of(b"\" a\\b\n\""), vec![Ok(s(" a\\b\n"))]);
}

#[test]
fn output_strings_are_escaped() {
    let (out, r) = convert(b"{\"a\\b\" \"x\ny\tz\x01\x1f\r\x08\x0c\"}", true, 0);
    assert_eq!(r, Ok(()));
    assert_eq!(out, "{\"a\\\\b\":\"x\\ny\\tz\\u0001\\u001f\\r\\b\\f\"}");
    let items = vec![Ok(AcfToken::DictStart), Ok(s("q")), Ok(s("say \"hi\""))];
    assert_eq!(write_items(items, true, 0).0, "{\"q\":\"say \\\"hi\\\"\"}");
}

#[test]
fn tokens_after_the_document_stay_unread() {
    let mut stream = AcfTokenStream::new(b"{\"a\" \"b\"} \"c\" x".to_vec());
    let mut out = String::new();
    assert_eq!(JsonWriter { compact: true, indent: 0 }.write(&mut stream, &mut out), Ok(()));
    assert_eq!(stream.next(), Some(Ok(s("c"))));
    assert_eq!(stream.next(), Some(Err(ParseError::UnexpectedCharacter('x'))));
    assert_eq!(stream.next(), None);
}

#[test]
fn output_is_appended() {
    let mut list = TokenList::new(vec![Ok(AcfToken::DictStart), Ok(AcfToken::DictEnd)]);
    let mut out = "> ".to_string();
    assert_eq!(JsonWriter { compact: true, indent: 0 }.write(&mut list, &mut out), Ok(()));
    assert_eq!(out, "> {}");
    assert_eq!(list.next(), None);
}

#[test]
fn token_list_hands_out_in_order() {
    let mut list = TokenList::new(vec![Ok(s("a")), Err(ParseError::UnexpectedEof), Ok(AcfToken::DictEnd)]);
    assert_eq!(list.next(), Some(Ok(s("a"))));
    assert_eq!(list.next(), Some(Err(ParseError::UnexpectedEof)));
    assert_eq!(list.next(), Some(Ok(AcfToken::DictEnd)));
    assert_eq!(list.next(), None);
}

#[test]
fn deeper_document_in_both_layouts() {
    let input = b"{\n\t\"AppState\"\n\t{\n\t\t\"appid\"\t\t\"228980\"\n\t\t\"UserConfig\"\n\t\t{\n\t\t}\n\t\t\"name\"\t\t\"Steamworks Common\"\n\t}\n}\n";
    let (out, r) = convert(input, true, 0);
    assert_eq!(r, Ok(()));
    assert_eq!(out, "{\"AppState\":{\"appid\":\"228980\",\"UserConfig\":{},\"name\":\"Steamworks Common\"}}");
    let (out, r) = convert(input, false, 2);
    assert_eq!(r, Ok(()));
    assert_eq!(
        out,
        "{\n  \"AppState\": {\n    \"appid\": \"228980\",\n    \"UserConfig\": {\n    },\n    \"name\": \"Steamworks Common\"\n  }\n}"
    );
}
