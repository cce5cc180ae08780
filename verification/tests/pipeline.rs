use tcp::batch::{write_plan, SendError, SendStage};
use tcp::client::{
    after_attempt, format_log_message, frame_record, generate_log_message, level_str,
    send_interval_micros, Attempt, SendSession, BENCHMARK_MILLIS, MAX_MESSAGES_PER_SECOND,
    PROGRESS_LOG_MILLIS, RECONNECT_DELAY_SECS,
};
use tcp::destination::{split_lines, store_received};
use tcp::server::{
    process_next_message, Intake, LineAssembler, LogBuffer, BATCH_SIZE, FLUSH_INTERVAL_SECS,
};
use tcp::text::{append_decimal, digit_str, find_newline};

fn strings(items: &[&str]) -> Vec<String> {
    items.iter().map(|s| s.to_string()).collect()
}

/// Feeds `text` to a fresh assembler in chunks of `chunk` bytes and drains it.
fn frame_in_chunks(text: &[u8], chunk: usize) -> (Vec<String>, String) {
    let mut assembler = LineAssembler::new();
    let mut buffer = LogBuffer::new();
    for part in text.chunks(chunk) {
        assembler.receive(part);
        while process_next_message(&mut assembler, &mut buffer) != Intake::Idle {}
    }
    (buffer.messages().to_vec(), assembler.pending().to_string())
}

#[test]
fn decimal_forms() {
    let mut s = String::new();
    append_decimal(&mut s, 0);
    assert_eq!(s, "0");
    let mut s = String::from("n=");
    append_decimal(&mut s, 9999);
    assert_eq!(s, "n=9999");
    let mut s = String::new();
    append_decimal(&mut s, u64::MAX);
    assert_eq!(s, u64::MAX.to_string());
    assert_eq!(digit_str(7), "7");
}

#[test]
fn first_newline_is_found() {
    assert_eq!(find_newline("abc"), None);
    assert_eq!(find_newline(""), None);
    assert_eq!(find_newline("ab\ncd\n"), Some(2));
    assert_eq!(find_newline("\n"), Some(0));
    // positions count characters, not bytes
    assert_eq!(find_newline("é\n"), Some(1));
}

#[test]
fn assembler_cuts_records_at_newlines() {
    let mut a = LineAssembler::new();
    assert_eq!(a.pending(), "");
    a.push_text("first\nsec");
    assert_eq!(a.next_message(), Some("first".to_string()));
    assert_eq!(a.pending(), "sec");
    assert_eq!(a.next_message(), None);
    assert_eq!(a.pending(), "sec");
    a.push_text("ond\n\nthird\r\n");
    assert_eq!(a.next_message(), Some("second".to_string()));
    assert_eq!(a.next_message(), Some("".to_string()));
    // the server keeps a carriage return: only '\n' ends a record
    assert_eq!(a.next_message(), Some("third\r".to_string()));
    assert_eq!(a.next_message(), None);
    assert_eq!(a.pending(), "");
}

#[test]
fn receive_decodes_lossily() {
    let mut a = LineAssembler::new();
    a.receive(b"ok ");
    a.receive(&[0x61, 0xff, 0x62]);
    assert_eq!(a.pending(), "ok a\u{FFFD}b");
    // a multi-byte character split across two reads is replaced on both sides
    let mut b = LineAssembler::new();
    let bytes = "é".as_bytes();
    b.receive(&bytes[..1]);
    b.receive(&bytes[1..]);
    assert_eq!(b.pending(), "\u{FFFD}\u{FFFD}");
    let mut c = LineAssembler::new();
    c.receive("é\n".as_bytes());
    assert_eq!(c.next_message(), Some("é".to_string()));
}

#[test]
fn intake_moves_records_in_order_and_signals_full_batch() {
    let mut a = LineAssembler::new();
    let mut buffer = LogBuffer::new();
    assert!(buffer.is_empty());
    assert_eq!(process_next_message(&mut a, &mut buffer), Intake::Idle);
    let mut text = String::new();
    for i in 0..BATCH_SIZE + 1 {
        text.push_str(&format!("m{}\n", i));
    }
    text.push_str("partial");
    a.push_text(&text);
    for i in 0..BATCH_SIZE - 1 {
        assert_eq!(process_next_message(&mut a, &mut buffer), Intake::Buffered);
        assert_eq!(buffer.len(), i + 1);
    }
    assert_eq!(process_next_message(&mut a, &mut buffer), Intake::BufferFull);
    assert_eq!(buffer.len(), 100);
    assert_eq!(process_next_message(&mut a, &mut buffer), Intake::BufferFull);
    assert_eq!(process_next_message(&mut a, &mut buffer), Intake::Idle);
    assert_eq!(buffer.len(), 101);
    assert_eq!(a.pending(), "partial");
    for (i, m) in buffer.messages().iter().enumerate() {
        assert_eq!(m, &format!("m{}", i));
    }
}

#[test]
fn framing_does_not_depend_on_read_sizes() {
    let text = b"[a] INFO - one\n[b] WARN - two\n[c] ERROR - three\nrest";
    let whole = frame_in_chunks(text, text.len());
    assert_eq!(whole.0, strings(&["[a] INFO - one", "[b] WARN - two", "[c] ERROR - three"]));
    assert_eq!(whole.1, "rest");
    for chunk in 1..text.len() {
        assert_eq!(frame_in_chunks(text, chunk), whole);
    }
}

#[test]
fn flush_keeps_undelivered_batches() {
    let mut buffer = LogBuffer::new();
    assert!(!buffer.begin_flush());
    assert!(buffer.take_batch().is_empty());
    buffer.push("a".to_string());
    buffer.push("b".to_string());
    assert!(buffer.begin_flush());
    assert_eq!(buffer.take_batch(), strings(&["a", "b"]));
    assert!(!buffer.complete_flush(false));
    assert_eq!(buffer.messages().to_vec(), strings(&["a", "b"]));
    assert!(!buffer.complete_flush(true));
    assert!(buffer.is_empty());
    assert!(!buffer.begin_flush());
    assert_eq!(FLUSH_INTERVAL_SECS, 10);
}

#[test]
fn batches_never_exceed_batch_size() {
    let mut buffer = LogBuffer::new();
    for i in 0..2 * BATCH_SIZE + 1 {
        buffer.push(format!("r{}", i));
    }
    let first = buffer.take_batch();
    assert_eq!(first.len(), BATCH_SIZE);
    assert_eq!(first[0], "r0");
    assert_eq!(first[99], "r99");
    // a failed delivery keeps everything
    assert!(!buffer.complete_flush(false));
    assert_eq!(buffer.len(), 201);
    // a delivery removes exactly the batch; the flush goes on while records remain
    assert!(buffer.complete_flush(true));
    assert_eq!(buffer.len(), 101);
    assert_eq!(buffer.messages()[0], "r100");
    assert_eq!(buffer.take_batch().len(), BATCH_SIZE);
    assert!(buffer.complete_flush(true));
    assert_eq!(buffer.messages().to_vec(), strings(&["r200"]));
    assert_eq!(buffer.take_batch(), strings(&["r200"]));
    assert!(!buffer.complete_flush(true));
    assert!(buffer.is_empty());
}

#[test]
fn one_flush_empties_the_buffer() {
    let mut buffer = LogBuffer::new();
    for i in 0..150 {
        buffer.push(format!("r{}", i));
    }
    let mut sizes = Vec::new();
    loop {
        let batch = buffer.take_batch();
        sizes.push(batch.len());
        if !buffer.complete_flush(true) {
            break;
        }
    }
    assert_eq!(sizes, vec![100, 50]);
    assert!(buffer.is_empty());
}

#[test]
fn push_reports_full_batch_at_batch_size() {
    let mut buffer = LogBuffer::new();
    for i in 0..BATCH_SIZE - 1 {
        assert!(!buffer.push(format!("{}", i)));
    }
    assert!(buffer.push("last".to_string()));
    assert!(buffer.push("more".to_string()));
}

#[test]
fn send_errors_name_the_failed_stage() {
    let e = SendError::new(SendStage::Connect, "refused");
    assert_eq!(e.detail(), "Connection failed: refused");
    assert_eq!(e.describe(), "SendError: Connection failed: refused");
    let e = SendError::new(SendStage::WriteMessage(12), "broken pipe");
    assert_eq!(e.describe(), "SendError: Failed to write message 12: broken pipe");
    let e = SendError::new(SendStage::WriteNewline(0), "reset");
    assert_eq!(e.detail(), "Failed to write newline after message 0: reset");
    let e = SendError::new(SendStage::Flush, "");
    assert_eq!(e.detail(), "Failed to flush stream: ");
}

#[test]
fn write_plan_writes_each_record_then_newline() {
    let batch = strings(&["x", "", "yz"]);
    let plan = write_plan(&batch);
    assert_eq!(plan.len(), 6);
    let texts: Vec<&str> = plan.iter().map(|w| w.text.as_str()).collect();
    assert_eq!(texts, vec!["x", "\n", "", "\n", "yz", "\n"]);
    let stages: Vec<SendStage> = plan.iter().map(|w| w.stage).collect();
    assert_eq!(
        stages,
        vec![
            SendStage::WriteMessage(0),
            SendStage::WriteNewline(0),
            SendStage::WriteMessage(1),
            SendStage::WriteNewline(1),
            SendStage::WriteMessage(2),
            SendStage::WriteNewline(2),
        ]
    );
    assert!(write_plan(&[]).is_empty());
}

#[test]
fn split_lines_follows_line_endings() {
    assert_eq!(split_lines(""), Vec::<String>::new());
    assert_eq!(split_lines("a\nb\n"), strings(&["a", "b"]));
    assert_eq!(split_lines("a\nb"), strings(&["a", "b"]));
    assert_eq!(split_lines("foo\r\nbar\n\nbaz\r"), strings(&["foo", "bar", "", "baz\r"]));
    assert_eq!(split_lines("\n"), strings(&[""]));
    assert_eq!(split_lines("\r\n\r\n"), strings(&["", ""]));
    assert_eq!(split_lines("é\r\nü"), strings(&["é", "ü"]));
    for text in ["", "x", "a\r\nb\r", "\n\n\r", "line one\nline two\r\n"] {
        let expected: Vec<String> = text.lines().map(|l| l.to_string()).collect();
        assert_eq!(split_lines(text), expected);
    }
}

#[test]
fn store_received_appends_lines() {
    let mut stored = strings(&["old"]);
    store_received(&mut stored, "n1\nn2\n");
    store_received(&mut stored, "");
    store_received(&mut stored, "n3");
    assert_eq!(stored, strings(&["old", "n1", "n2", "n3"]));
}

#[test]
fn client_timing_and_reconnection() {
    assert_eq!(send_interval_micros(1), 1_000_000);
    assert_eq!(send_interval_micros(5), 200_000);
    assert_eq!(send_interval_micros(13), 76_923);
    assert_eq!(send_interval_micros(MAX_MESSAGES_PER_SECOND), 1);
    assert_eq!(send_interval_micros(999_999), 1);
    assert_eq!(frame_record("abc"), "abc\n");
    assert_eq!(frame_record(""), "\n");
    assert_eq!(after_attempt(true), Attempt::Finished);
    assert_eq!(after_attempt(false), Attempt::RetryAfterSecs(RECONNECT_DELAY_SECS));
    assert_eq!(RECONNECT_DELAY_SECS, 5);
}

#[test]
fn session_reports_progress_and_ends_after_benchmark() {
    let mut s = SendSession::new();
    assert_eq!(s.sent(), 0);
    let r = s.record_sent(0, 0);
    assert!(!r.log_progress && !r.finished);
    let r = s.record_sent(PROGRESS_LOG_MILLIS - 1, BENCHMARK_MILLIS - 1);
    assert!(!r.log_progress && !r.finished);
    let r = s.record_sent(PROGRESS_LOG_MILLIS, 30_000);
    assert!(r.log_progress && !r.finished);
    let r = s.record_sent(10, BENCHMARK_MILLIS);
    assert!(!r.log_progress && r.finished);
    assert_eq!(s.sent(), 4);
}

#[test]
fn log_records_have_the_documented_shape() {
    assert_eq!(
        format_log_message("2024-01-02 03:04:05.678", 2, 42),
        "[2024-01-02 03:04:05.678] ERROR - Sample log message number 42"
    );
    assert_eq!(level_str(0), "INFO");
    assert_eq!(level_str(1), "WARN");
    assert_eq!(level_str(3), "DEBUG");
    for _ in 0..200 {
        let m = generate_log_message();
        assert!(m.starts_with('['));
        let close = m.find("] ").unwrap();
        let ts = &m[1..close];
        assert_eq!(ts.len(), 23);
        assert!(ts.chars().all(|c| c.is_ascii_digit() || "-: .".contains(c)));
        let rest = &m[close + 2..];
        let (level, tail) = rest.split_once(" - Sample log message number ").unwrap();
        assert!(["INFO", "WARN", "ERROR", "DEBUG"].contains(&level));
        let n: u32 = tail.parse().unwrap();
        assert!((1..10000).contains(&n));
        assert!(m.is_ascii() && !m.contains('\n') && !m.ends_with('\r'));
    }
}

/// The path of the records from a client to the destination, without sockets:
/// the client's stream read in uneven chunks, batches flushed when full, each
/// batch written as planned and split again by the destination.
#[test]
fn records_are_forwarded_unchanged() {
    let sent: Vec<String> = (0..250).map(|_| generate_log_message()).collect();
    let mut stream: Vec<u8> = Vec::new();
    for m in &sent {
        stream.extend_from_slice(frame_record(m).as_bytes());
    }
    let mut assembler = LineAssembler::new();
    let mut buffer = LogBuffer::new();
    let mut destination: Vec<String> = Vec::new();
    let mut batches = 0;
    let mut batch_sizes: Vec<usize> = Vec::new();
    let mut flush = |buffer: &mut LogBuffer, destination: &mut Vec<String>| {
        if buffer.begin_flush() {
            loop {
                let batch = buffer.take_batch();
                batch_sizes.push(batch.len());
                let wire: String = write_plan(&batch).iter().map(|w| w.text.as_str()).collect();
                store_received(destination, &wire);
                if !buffer.complete_flush(true) {
                    break;
                }
            }
        }
    };
    for part in stream.chunks(997) {
        assembler.receive(part);
        loop {
            match process_next_message(&mut assembler, &mut buffer) {
                Intake::Idle => break,
                Intake::Buffered => {}
                Intake::BufferFull => {
                    flush(&mut buffer, &mut destination);
                    batches += 1;
                }
            }
        }
    }
    flush(&mut buffer, &mut destination);
    drop(flush);
    assert_eq!(batches, 2);
    assert_eq!(batch_sizes, vec![100, 100, 50]);
    assert_eq!(assembler.pending(), "");
    assert!(buffer.is_empty());
    assert_eq!(destination, sent);
}
