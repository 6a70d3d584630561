use bytes::Bytes;
use resumable_json::{json_value_, parse_all, BytesRange, JsonValue, Literal, Outcome, ParseError, Value};

fn b(s: &'static [u8]) -> BytesRange {
    BytesRange(Bytes::from_static(s))
}

fn num(s: &'static [u8]) -> Value {
    Value::Number(b(s))
}

fn string(s: &'static [u8]) -> Value {
    Value::String(b(s))
}

/// Feeds the chunks in order, then declares the input complete if no value came.
fn feed_all(chunks: &[&[u8]]) -> Outcome {
    let mut p = JsonValue::start();
    for c in chunks {
        let r = p.feed(c);
        if r != Outcome::Incomplete {
            return r;
        }
    }
    p.finish()
}

fn whole(input: &[u8]) -> Result<Value, ParseError> {
    parse_all(input.to_vec())
}

#[test]
fn json_test() {
    let input = br#"{
        "array": [1, ""],
        "object" :  {},
        "number" : 3.14,
        "small_number": 0.59,
        "int": -100,
        "exp": -1e2,
        "exp_neg": 23E-2,
        "true": true,
        "false"  : false,
        "null" : null
    }"#;
    let result = whole(input);
    let expected = Value::Object(vec![
        (b(b"array"), Value::Array(vec![num(b"1"), string(b"")])),
        (b(b"object"), Value::Object(Vec::default())),
        (b(b"number"), num(b"3.14")),
        (b(b"small_number"), num(b"0.59")),
        (b(b"int"), num(b"-100")),
        (b(b"exp"), num(b"-1e2")),
        (b(b"exp_neg"), num(b"23E-2")),
        (b(b"true"), Value::Bool(true)),
        (b(b"false"), Value::Bool(false)),
        (b(b"null"), Value::Null),
    ]);
    match result {
        Ok(result) => assert_eq!(result, expected),
        Err(_) => assert!(false),
    }
}

#[test]
fn test() {
    let data = "  { \"a\"\t: 42,
  \"b\": [ \"x\", \"y\", 12 ] ,
  \"c\": { \"hello\" : \"world\"
  }
  }  ";
    let result = whole(data.as_bytes());
    result.unwrap();
}

#[test]
fn number_scenario() {
    assert_eq!(whole(b"42"), Ok(num(b"42")));
}

#[test]
fn array_scenario() {
    assert_eq!(whole(b"[1, \"\"]"), Ok(Value::Array(vec![num(b"1"), string(b"")])));
}

#[test]
fn empty_object_scenario() {
    assert_eq!(whole(b"{}"), Ok(Value::Object(vec![])));
}

#[test]
fn keyword_split_over_chunks() {
    let chunks: [&[u8]; 3] = [b"{\"x\": tr", b"u", b"e}"];
    let mut p = JsonValue::start();
    assert_eq!(p.feed(chunks[0]), Outcome::Incomplete);
    assert_eq!(p.feed(chunks[1]), Outcome::Incomplete);
    let expected = Value::Object(vec![(b(b"x"), Value::Bool(true))]);
    assert_eq!(p.feed(chunks[2]), Outcome::Incomplete);
    assert_eq!(p.finish(), Outcome::Complete(expected, 11));
    assert!(p.finished());
}

#[test]
fn escaped_quote_kept_raw() {
    assert_eq!(whole(b"\"a\\\"b\""), Ok(string(b"a\\\"b")));
}

#[test]
fn missing_value_is_unexpected_token() {
    assert_eq!(whole(b"{\"a\":}"), Err(ParseError::UnexpectedToken(b'}', 5)));
    assert_eq!(feed_all(&[b"{\"a\":}"]), Outcome::Error(ParseError::UnexpectedToken(b'}', 5)));
}

#[test]
fn object_fields_keep_order_and_duplicates() {
    let expected = Value::Object(vec![(b(b"b"), num(b"1")), (b(b"a"), num(b"2"))]);
    assert_eq!(whole(b"{\"b\":1,\"a\":2}"), Ok(expected));
    let dup = Value::Object(vec![(b(b"a"), num(b"1")), (b(b"a"), num(b"2"))]);
    assert_eq!(whole(b"{\"a\":1,\"a\":2}"), Ok(dup));
}

#[test]
fn incomplete_keyword_at_end() {
    assert_eq!(whole(b"tru"), Err(ParseError::UnexpectedEndOfInput));
    assert_eq!(feed_all(&[b"tru"]), Outcome::Error(ParseError::UnexpectedEndOfInput));
}

#[test]
fn same_result_for_every_split() {
    let input: &[u8] = b" {\"a\" : [1, 2.5e-3, \"x\\ny\"], \"b\": {\"c\": null}, \"d\" : false } ";
    let expected = whole(input).unwrap();
    let consumed = input.len();
    for cut in 0..=input.len() {
        let r = feed_all(&[&input[..cut], &input[cut..]]);
        match r {
            Outcome::Complete(v, n) => {
                assert_eq!(v, expected);
                assert_eq!(n, consumed);
            }
            other => panic!("cut at {}: {:?}", cut, other),
        }
    }
    let bytes: Vec<&[u8]> = input.chunks(1).collect();
    match feed_all(&bytes) {
        Outcome::Complete(v, n) => {
            assert_eq!(v, expected);
            assert_eq!(n, consumed);
        }
        other => panic!("byte by byte: {:?}", other),
    }
}

#[test]
fn same_error_for_every_split() {
    let input: &[u8] = b"[1, 2, {\"k\" 3}]";
    let expected = ParseError::ExpectedLiteral(Literal::Colon, 12);
    assert_eq!(whole(input), Err(expected));
    for cut in 0..=input.len() {
        assert_eq!(feed_all(&[&input[..cut], &input[cut..]]), Outcome::Error(expected));
    }
}

#[test]
fn number_at_end_needs_finish() {
    let mut p = json_value_();
    assert_eq!(p.feed(b"-12.5"), Outcome::Incomplete);
    assert_eq!(p.feed(b"e+7"), Outcome::Incomplete);
    assert_eq!(p.finish(), Outcome::Complete(num(b"-12.5e+7"), 8));
}

#[test]
fn number_ends_at_next_byte() {
    let mut p = JsonValue::start();
    assert_eq!(p.feed(b"123"), Outcome::Incomplete);
    assert_eq!(p.feed(b" tail"), Outcome::Complete(num(b"123"), 4));
}

#[test]
fn leftover_bytes_are_not_consumed() {
    assert_eq!(feed_all(&[b"[true]  garbage"]), Outcome::Complete(Value::Array(vec![Value::Bool(true)]), 8));
    assert_eq!(whole(b"null,"), Ok(Value::Null));
}

#[test]
fn whitespace_does_not_change_value() {
    let tight = whole(b"{\"a\":[1,2],\"b\":\"c\"}").unwrap();
    let loose = whole(b" \t{ \"a\" \r\n:\n[ 1 ,\t2 ] , \"b\" : \"c\" } \n").unwrap();
    assert_eq!(tight, loose);
    assert_eq!(whole(b"[ ]"), Ok(Value::Array(vec![])));
    assert_eq!(whole(b"{ }"), Ok(Value::Object(vec![])));
}

#[test]
fn permissive_numbers() {
    assert_eq!(whole(b".5"), Ok(num(b".5")));
    assert_eq!(whole(b"1."), Ok(num(b"1.")));
    assert_eq!(whole(b"+3"), Ok(num(b"+3")));
    assert_eq!(whole(b"-."), Err(ParseError::UnexpectedEndOfInput));
    assert_eq!(whole(b"-.x"), Err(ParseError::UnexpectedToken(b'x', 2)));
    assert_eq!(whole(b"1e"), Err(ParseError::UnexpectedEndOfInput));
    assert_eq!(whole(b"1ex"), Err(ParseError::UnexpectedToken(b'x', 2)));
    assert_eq!(whole(b"-a"), Err(ParseError::UnexpectedToken(b'a', 1)));
}

#[test]
fn error_kinds() {
    assert_eq!(whole(b""), Err(ParseError::UnexpectedEndOfInput));
    assert_eq!(whole(b"   "), Err(ParseError::UnexpectedEndOfInput));
    assert_eq!(whole(b"[1,]"), Err(ParseError::UnexpectedToken(b']', 3)));
    assert_eq!(whole(b"[1 2]"), Err(ParseError::UnexpectedToken(b'2', 3)));
    assert_eq!(whole(b"{1:2}"), Err(ParseError::UnexpectedToken(b'1', 1)));
    assert_eq!(whole(b"@"), Err(ParseError::UnexpectedToken(b'@', 0)));
    assert_eq!(whole(b"nul1"), Err(ParseError::ExpectedLiteral(Literal::Null, 3)));
    assert_eq!(whole(b"fals"), Err(ParseError::UnexpectedEndOfInput));
    assert_eq!(whole(b"tRue"), Err(ParseError::ExpectedLiteral(Literal::True, 1)));
    assert_eq!(whole(b"\"a\\qb\""), Err(ParseError::InvalidEscape(b'q', 3)));
    assert_eq!(whole(b"\"abc"), Err(ParseError::UnexpectedEndOfInput));
    assert_eq!(whole(b"{\"a\":1"), Err(ParseError::UnexpectedEndOfInput));
}

#[test]
fn all_escapes_accepted() {
    let input = b"\"\\\" \\\\ \\/ \\b \\f \\n \\r \\t\"";
    assert_eq!(whole(input), Ok(string(b"\\\" \\\\ \\/ \\b \\f \\n \\r \\t")));
}

#[test]
fn deep_nesting() {
    let mut input = Vec::new();
    for _ in 0..200 {
        input.push(b'[');
    }
    for _ in 0..200 {
        input.push(b']');
    }
    let mut expected = Value::Array(vec![]);
    for _ in 0..199 {
        expected = Value::Array(vec![expected]);
    }
    assert_eq!(parse_all(input), Ok(expected));
}

#[test]
fn incomplete_then_finish_is_end_of_input() {
    let mut p = JsonValue::start();
    assert_eq!(p.feed(b"[1, {\"a\": \"b"), Outcome::Incomplete);
    assert_eq!(p.finish(), Outcome::Error(ParseError::UnexpectedEndOfInput));
}

#[test]
fn ranges_are_slices_of_the_input() {
    match whole(b"[\"hello\", 12]").unwrap() {
        Value::Array(items) => {
            match &items[0] {
                Value::String(r) => {
                    assert_eq!(r.len(), 5);
                    assert!(!r.is_empty());
                    assert_eq!(&r.0[..], b"hello");
                }
                other => panic!("{:?}", other),
            }
            match &items[1] {
                Value::Number(r) => assert_eq!(&r.0[..], b"12"),
                other => panic!("{:?}", other),
            }
        }
        other => panic!("{:?}", other),
    }
    assert!(b(b"").is_empty());
}

#[test]
fn leading_whitespace_moves_only_offsets() {
    assert_eq!(whole(b" \n\t\"x\""), whole(b"\"x\""));
    assert_eq!(whole(b"\r\n{\"k\": [null]}"), whole(b"{\"k\": [null]}"));
    assert_eq!(whole(b"[1,]"), Err(ParseError::UnexpectedToken(b']', 3)));
    assert_eq!(whole(b"  [1,]"), Err(ParseError::UnexpectedToken(b']', 5)));
    assert_eq!(feed_all(&[b"  ", b"7 "]), Outcome::Complete(num(b"7"), 4));
}

#[test]
fn trailing_whitespace_is_consumed() {
    assert_eq!(feed_all(&[b"1 "]), Outcome::Complete(num(b"1"), 2));
    assert_eq!(feed_all(&[b"[] "]), Outcome::Complete(Value::Array(vec![]), 3));
    let mut p = JsonValue::start();
    assert_eq!(p.feed(b"{} \n"), Outcome::Incomplete);
    assert_eq!(p.feed(b"\t x"), Outcome::Complete(Value::Object(vec![]), 6));
}

#[test]
fn keyword_first_byte_is_checked() {
    assert_eq!(whole(b"[t]"), Err(ParseError::ExpectedLiteral(Literal::True, 2)));
    assert_eq!(whole(b"nUll"), Err(ParseError::ExpectedLiteral(Literal::Null, 1)));
}

#[test]
fn tokens_resume_across_chunks() {
    let mut p = JsonValue::start();
    assert_eq!(p.feed(b"[\"ab"), Outcome::Incomplete);
    assert_eq!(p.feed(b"c\\"), Outcome::Incomplete);
    assert_eq!(p.feed(b"\"d\", fa"), Outcome::Incomplete);
    assert_eq!(p.feed(b"lse, 12"), Outcome::Incomplete);
    assert_eq!(p.feed(b"3.4"), Outcome::Incomplete);
    assert_eq!(p.feed(b"5e"), Outcome::Incomplete);
    assert_eq!(p.feed(b"-"), Outcome::Incomplete);
    assert_eq!(p.feed(b"67]"), Outcome::Incomplete);
    let expected = Value::Array(vec![string(b"abc\\\"d"), Value::Bool(false), num(b"123.45e-67")]);
    assert_eq!(p.finish(), Outcome::Complete(expected, 29));
}

#[test]
fn object_keys_resume_across_chunks() {
    let r = feed_all(&[b"{\"ke", b"y\" ", b": nu", b"ll, \"k", b"\": 1}"]);
    let expected = Value::Object(vec![(b(b"key"), Value::Null), (b(b"k"), num(b"1"))]);
    assert_eq!(r, Outcome::Complete(expected, 22));
}
