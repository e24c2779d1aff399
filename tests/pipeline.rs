use tail_rust::{decode_line, Action, FileEvent, LineFramer, NativeEvent, Phase, ReadOutcome, Tail, TailError};

fn started() -> Tail {
    Tail::new(Ok(()), Some(0)).unwrap()
}

/// One modification whose delta read returns `bytes`.
fn append(tail: &mut Tail, bytes: &str) -> Vec<Result<String, TailError>> {
    let off = tail.offset();
    assert_eq!(tail.on_event(FileEvent::Modify), Action::Read(off));
    assert_eq!(tail.phase(), Phase::Reading);
    tail.on_read(ReadOutcome::Data(bytes.as_bytes().to_vec()))
}

fn oks(lines: &[&str]) -> Vec<Result<String, TailError>> {
    lines.iter().map(|l| Ok(l.to_string())).collect()
}

#[test]
fn split_line_is_reassembled() {
    let mut t = started();
    assert_eq!(append(&mut t, "hel"), oks(&[]));
    assert_eq!(t.pending_len(), 3);
    assert_eq!(append(&mut t, "lo\n"), oks(&["hello"]));
    assert_eq!(t.pending_len(), 0);
    assert_eq!(t.offset(), 6);
}

#[test]
fn two_timestamped_lines_in_order() {
    let mut t = started();
    let mut out = append(&mut t, "2024-01-01T00:00:00Z 1 payload\n");
    out.extend(append(&mut t, "2024-01-01T00:00:01Z 2 payload\n"));
    assert_eq!(
        out,
        oks(&["2024-01-01T00:00:00Z 1 payload", "2024-01-01T00:00:01Z 2 payload"])
    );
}

#[test]
fn a_then_b_newline_is_one_line() {
    let mut t = started();
    let mut out = append(&mut t, "A");
    out.extend(append(&mut t, "B\n"));
    assert_eq!(out, oks(&["AB"]));
}

#[test]
fn delete_with_nothing_buffered_emits_nothing() {
    let mut t = started();
    assert_eq!(append(&mut t, "x\n"), oks(&["x"]));
    assert_eq!(t.on_event(FileEvent::Delete), Action::Finish(vec![]));
    assert_eq!(t.phase(), Phase::Closed);
}

#[test]
fn delete_flushes_partial_line() {
    let mut t = started();
    assert_eq!(append(&mut t, "one\ntw"), oks(&["one"]));
    assert_eq!(t.on_event(FileEvent::Delete), Action::Finish(oks(&["tw"])));
    assert_eq!(t.pending_len(), 0);
    assert_eq!(t.phase(), Phase::Closed);
}

#[test]
fn ended_tail_is_not_resumed() {
    let mut t = started();
    assert_eq!(append(&mut t, "a"), oks(&[]));
    assert_eq!(t.on_event(FileEvent::Delete), Action::Finish(oks(&["a"])));
    // the file is re-created and written to: this tail stays ended
    assert_eq!(t.on_event(FileEvent::Modify), Action::Finish(vec![]));
    assert_eq!(t.on_event(FileEvent::Delete), Action::Finish(vec![]));
    assert_eq!(t.phase(), Phase::Closed);
}

#[test]
fn watch_failure_at_construction() {
    let r = Tail::new(Err("No such file or directory".to_string()), None);
    assert_eq!(r.err(), Some(TailError::WatchInit("No such file or directory".to_string())));
}

#[test]
fn starts_at_file_size() {
    let t = Tail::new(Ok(()), Some(42)).unwrap();
    assert_eq!(t.offset(), 42);
    assert_eq!(t.phase(), Phase::Idle);
    let t = Tail::new(Ok(()), None).unwrap();
    assert_eq!(t.offset(), 0);
}

#[test]
fn chunking_does_not_change_lines() {
    let text = "alpha\nbeta\n\ngamma\ndel";
    let mut whole = started();
    let all = append(&mut whole, text);
    for cut in 0..=text.len() {
        let mut t = started();
        let mut out = append(&mut t, &text[..cut]);
        out.extend(append(&mut t, &text[cut..]));
        assert_eq!(out, all);
        assert_eq!(t.pending_len(), 3);
        assert_eq!(t.offset(), text.len() as u64);
    }
    let mut t = started();
    let mut out = Vec::new();
    for i in 0..text.len() {
        out.extend(append(&mut t, &text[i..i + 1]));
    }
    assert_eq!(out, oks(&["alpha", "beta", "", "gamma"]));
    assert_eq!(out, all);
}

#[test]
fn missing_file_during_read_is_let_pass() {
    let mut t = started();
    assert_eq!(append(&mut t, "ab"), oks(&[]));
    assert_eq!(t.on_event(FileEvent::Modify), Action::Read(2));
    assert_eq!(t.on_read(ReadOutcome::Missing), vec![]);
    assert_eq!(t.phase(), Phase::Idle);
    assert_eq!(t.offset(), 2);
    assert_eq!(append(&mut t, "c\n"), oks(&["abc"]));
}

#[test]
fn read_failure_ends_sequence() {
    let mut t = started();
    assert_eq!(t.on_event(FileEvent::Modify), Action::Read(0));
    assert_eq!(
        t.on_read(ReadOutcome::Failed("permission denied".to_string())),
        vec![Err(TailError::ReadFatal("permission denied".to_string()))]
    );
    assert_eq!(t.phase(), Phase::Failed);
    assert_eq!(t.on_event(FileEvent::Modify), Action::Finish(vec![]));
}

#[test]
fn watch_error_event_ends_sequence() {
    let mut t = started();
    assert_eq!(t.on_event(FileEvent::Error), Action::Finish(vec![Err(TailError::Watch)]));
    assert_eq!(t.phase(), Phase::Failed);
}

#[test]
fn invalid_utf8_line_ends_sequence() {
    let mut t = started();
    assert_eq!(t.on_event(FileEvent::Modify), Action::Read(0));
    let bytes = vec![b'o', b'k', b'\n', 0xff, b'x', b'\n', b'n', b'o', b'\n'];
    assert_eq!(
        t.on_read(ReadOutcome::Data(bytes)),
        vec![Ok("ok".to_string()), Err(TailError::Decode(vec![0xff, b'x']))]
    );
    assert_eq!(t.phase(), Phase::Failed);
    assert_eq!(t.offset(), 9);
}

#[test]
fn multibyte_text_is_decoded() {
    let mut t = started();
    assert_eq!(append(&mut t, "h\u{e9}llo w\u{f6}rld\n"), oks(&["h\u{e9}llo w\u{f6}rld"]));
    assert_eq!(decode_line(&"\u{e9}t\u{e9}".as_bytes().to_vec()), Ok("\u{e9}t\u{e9}".to_string()));
    assert_eq!(decode_line(&vec![0xc3]), Err(TailError::Decode(vec![0xc3])));
    assert_eq!(decode_line(&vec![]), Ok(String::new()));
}

#[test]
fn framer_cuts_lines_and_keeps_rest() {
    let mut f = LineFramer::new();
    assert_eq!(f.push(b"a\nbc"), vec![b"a".to_vec()]);
    assert_eq!(f.buffered_len(), 2);
    assert_eq!(f.push(b"\n\nd\ne"), vec![b"bc".to_vec(), b"".to_vec(), b"d".to_vec()]);
    assert_eq!(f.flush_eof(), Some(b"e".to_vec()));
    assert_eq!(f.flush_eof(), None);
    assert_eq!(f.push(b""), Vec::<Vec<u8>>::new());
}

#[test]
fn native_events_are_classified() {
    assert_eq!(FileEvent::from(NativeEvent::Remove), FileEvent::Delete);
    assert_eq!(FileEvent::from(NativeEvent::Error), FileEvent::Error);
    for n in [
        NativeEvent::NoticeWrite,
        NativeEvent::NoticeRemove,
        NativeEvent::Create,
        NativeEvent::Write,
        NativeEvent::Chmod,
        NativeEvent::Rename,
        NativeEvent::Rescan,
    ] {
        assert_eq!(FileEvent::from(n), FileEvent::Modify);
    }
    assert!(FileEvent::Delete.is_terminal());
    assert!(!FileEvent::Modify.is_terminal());
}
