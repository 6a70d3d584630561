use resumable_json::byterange::{skip_stream_while, skip_while, skip_while1, ByteClass, Skipped, StreamEnd};
use resumable_json::BytesBuf;

#[test]
fn cursor_reads_and_rewinds() {
    let mut c = BytesBuf::new(b"ab  cd".to_vec());
    let cp = c.checkpoint();
    assert_eq!(c.uncons(), Ok(b'a'));
    assert_eq!(c.uncons(), Ok(b'b'));
    assert_eq!(c.distance(cp), 2);
    assert_eq!(c.skip_while(ByteClass::Space), 2);
    assert_eq!(c.pos(), 4);
    assert_eq!(c.next_bytes(), b"cd");
    c.reset(cp);
    assert_eq!(c.pos(), 0);
    assert_eq!(c.slice_while(ByteClass::Plain), b"ab  cd");
    assert_eq!(c.uncons_range(3), Ok((0, 3)));
    assert_eq!(c.uncons_range(9), Err(StreamEnd::EndOfInput));
    assert_eq!(c.pos(), 3);
    c.reset(cp);
    assert_eq!(c.skip_range(6), Ok(()));
    assert_eq!(c.uncons(), Err(StreamEnd::EndOfInput));
    assert_eq!(c.skip_range(1), Err(StreamEnd::EndOfInput));
}

#[test]
fn incremental_cursor_asks_for_more() {
    let mut c = BytesBuf::incremental();
    assert_eq!(c.uncons(), Err(StreamEnd::NeedMoreInput));
    c.append(b"12");
    assert_eq!(c.uncons(), Ok(b'1'));
    c.append(b"3x");
    assert_eq!(c.skip_while(ByteClass::Digit), 2);
    assert_eq!(c.next_bytes(), b"x");
    assert_eq!(c.len(), 4);
    c.set_complete();
    assert!(!c.is_partial());
}

#[test]
fn skip_stream_while_three_outcomes() {
    let mut c = BytesBuf::new(b"x  ".to_vec());
    assert_eq!(skip_stream_while(&mut c, ByteClass::Space), Skipped::Empty);
    assert_eq!(c.pos(), 0);
    assert_eq!(c.uncons(), Ok(b'x'));
    assert_eq!(skip_stream_while(&mut c, ByteClass::Space), Skipped::Consumed(2));
    assert_eq!(c.pos(), 3);

    let mut p = BytesBuf::incremental();
    p.append(b"12");
    assert_eq!(skip_stream_while(&mut p, ByteClass::Digit), Skipped::Suspended(2));
    let mut q = BytesBuf::incremental();
    assert_eq!(skip_stream_while(&mut q, ByteClass::Digit), Skipped::Suspended(0));
}

#[test]
fn skip_while_resumes_past_confirmed_bytes() {
    let scan = skip_while(ByteClass::Digit);
    let mut c = BytesBuf::incremental();
    let mut state: usize = 0;
    c.append(b"123");
    assert_eq!(scan.parse(&mut c, &mut state), Skipped::Suspended(3));
    assert_eq!(state, 3);
    assert_eq!(c.pos(), 0);
    c.append(b"45");
    assert_eq!(scan.parse(&mut c, &mut state), Skipped::Suspended(5));
    assert_eq!(state, 5);
    c.append(b"6;");
    assert_eq!(scan.parse(&mut c, &mut state), Skipped::Consumed(6));
    assert_eq!(state, 0);
    assert_eq!(c.pos(), 6);
    assert_eq!(scan.parse(&mut c, &mut state), Skipped::Empty);
}

#[test]
fn skip_while1_needs_one_byte() {
    let mut c = BytesBuf::new(b"a1".to_vec());
    assert_eq!(skip_while1(&mut c, ByteClass::Digit), None);
    assert_eq!(c.pos(), 0);
    assert_eq!(skip_while1(&mut c, ByteClass::Plain), Some(Skipped::Consumed(2)));
}
