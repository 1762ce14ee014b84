use escapade::encode::encode_attribute_w;
use escapade::Escapable;
use escapade::EscapedWrite;
use escapade::EscapedWriter;
use escapade::Recorded;
use escapade::Sink;
use escapade::Writer;

/// A writer that takes a fixed number of bytes and then refuses.
struct Limited {
    taken: Vec<u8>,
    room: usize,
    writes: Vec<Vec<u8>>,
}

fn limited(room: usize) -> Recorded<Limited> {
    Recorded::new(Limited { taken: vec![], room: room, writes: vec![] })
}

impl Writer for Limited {
    type Failure = String;

    fn write_all(&mut self, buf: &[u8]) -> Result<(), String> {
        self.writes.push(buf.to_vec());
        let n = buf.len().min(self.room);
        self.taken.extend_from_slice(&buf[..n]);
        self.room -= n;
        if n < buf.len() {
            Err(format!("full after {}", self.taken.len()))
        } else {
            Ok(())
        }
    }
}

#[test]
fn buffer_takes_every_write() {
    let mut sink: Vec<u8> = b"ab".to_vec();
    assert!(Sink::write_all(&mut sink, b"cd").is_ok());
    assert!(Sink::write_all(&mut sink, b"").is_ok());
    assert_eq!(b"abcd".to_vec(), sink);
}

#[test]
fn recorded_hands_writes_to_its_writer() {
    let mut sink = limited(100);
    assert_eq!(Ok(()), Sink::write_all(&mut sink, b"one"));
    assert_eq!(Ok(()), Sink::write_all(&mut sink, b"two"));
    let inner = sink.into_inner();
    assert_eq!(b"onetwo".to_vec(), inner.taken);
    assert_eq!(vec![b"one".to_vec(), b"two".to_vec()], inner.writes);
}

#[test]
fn recorded_returns_the_failure_of_its_writer() {
    let mut sink = limited(2);
    assert_eq!(Err(String::from("full after 2")), Sink::write_all(&mut sink, b"one"));
}

#[test]
fn runs_are_written_before_each_replacement_and_at_the_end() {
    let mut sink = limited(100);
    assert_eq!(Ok(()), encode_attribute_w("ab<cd>&ef", &mut sink));
    let inner = sink.into_inner();
    let expected: Vec<Vec<u8>> = vec![
        b"ab".to_vec(),
        b"&lt;".to_vec(),
        b"cd".to_vec(),
        b"&gt;".to_vec(),
        b"".to_vec(),
        b"&amp;".to_vec(),
        b"ef".to_vec(),
    ];
    assert_eq!(expected, inner.writes);
    assert_eq!(b"ab&lt;cd&gt;&amp;ef".to_vec(), inner.taken);
}

#[test]
fn nothing_is_written_at_the_end_after_a_replacement() {
    let mut sink = limited(100);
    assert_eq!(Ok(()), encode_attribute_w("ab ", &mut sink));
    let inner = sink.into_inner();
    assert_eq!(vec![b"ab".to_vec(), b"&#x20;".to_vec()], inner.writes);
}

#[test]
fn empty_text_is_one_empty_write() {
    let mut sink = limited(0);
    assert_eq!(Ok(()), encode_attribute_w("", &mut sink));
    assert_eq!(vec![Vec::<u8>::new()], sink.into_inner().writes);
}

#[test]
fn unchanged_text_is_one_write() {
    let mut sink = limited(100);
    assert_eq!(Ok(()), encode_attribute_w("hello日本", &mut sink));
    assert_eq!(vec!["hello日本".as_bytes().to_vec()], sink.into_inner().writes);
}

#[test]
fn failure_while_writing_a_run() {
    let mut sink = limited(1);
    let r = encode_attribute_w("ab<cd>&ef", &mut sink);
    assert_eq!(Err(String::from("full after 1")), r);
    let inner = sink.into_inner();
    assert_eq!(b"a".to_vec(), inner.taken);
    assert_eq!(1, inner.writes.len());
}

#[test]
fn failure_while_writing_an_entity() {
    let mut sink = limited(9);
    let r = encode_attribute_w("ab<cd>&ef", &mut sink);
    assert_eq!(Err(String::from("full after 9")), r);
    let inner = sink.into_inner();
    assert_eq!(b"ab&lt;cd&".to_vec(), inner.taken);
    assert_eq!(4, inner.writes.len());
}

#[test]
fn failure_while_writing_a_hex_reference() {
    let mut sink = limited(4);
    let r = encode_attribute_w("ab cd", &mut sink);
    assert_eq!(Err(String::from("full after 4")), r);
    let inner = sink.into_inner();
    assert_eq!(b"ab&#".to_vec(), inner.taken);
    assert_eq!(2, inner.writes.len());
}

#[test]
fn failure_while_writing_the_last_run() {
    let mut sink = limited(7);
    let r = encode_attribute_w("ab<cd", &mut sink);
    assert_eq!(Err(String::from("full after 7")), r);
    let inner = sink.into_inner();
    assert_eq!(b"ab&lt;c".to_vec(), inner.taken);
    assert_eq!(3, inner.writes.len());
}

#[test]
fn what_a_failing_sink_took_is_a_leading_part() {
    let input = "a<b>&c d\"e'f/日é";
    let mut whole: Vec<u8> = Vec::new();
    encode_attribute_w(input, &mut whole).unwrap();
    for room in 0..whole.len() {
        let mut sink = limited(room);
        assert!(encode_attribute_w(input, &mut sink).is_err());
        assert_eq!(whole[..room].to_vec(), sink.into_inner().taken);
    }
    let mut sink = limited(whole.len());
    assert_eq!(Ok(()), encode_attribute_w(input, &mut sink));
    assert_eq!(whole, sink.into_inner().taken);
}

#[test]
fn writer_returns_the_failure_of_the_sink() {
    let mut buffer = EscapedWriter::new(limited(3));
    assert_eq!(Err(String::from("full after 3")), buffer.write_str("<p>"));
    assert_eq!(b"&lt".to_vec(), buffer.into_inner().into_inner().taken);

    let mut buffer = EscapedWriter::new(limited(3));
    assert_eq!(Err(String::from("full after 3")), buffer.write_str("<p>".escape()));
    assert_eq!(b"&lt".to_vec(), buffer.into_inner().into_inner().taken);
}

#[test]
fn writer_writes_escaped_text_in_one_piece() {
    let mut buffer = EscapedWriter::new(limited(100));
    assert_eq!(Ok(()), buffer.write_str("<p>".safe()));
    assert_eq!(Ok(()), buffer.write_str("<p>".escape()));
    let inner = buffer.into_inner().into_inner();
    assert_eq!(vec![b"<p>".to_vec(), b"&lt;p&gt;".to_vec()], inner.writes);
}
