//! The client's decisions: how fast to send, what a log record says, when a
//! sending session logs its progress and ends, and what follows a failed one.
use vstd::prelude::*;
use vstd::string::*;

use crate::outside::{is_digit, is_utc_timestamp, random_in_range, utc_timestamp};
use crate::text::{append_decimal, decimal};

verus! {

/// Seconds the client waits before it connects again after a failure.
pub const RECONNECT_DELAY_SECS: u64 = 5;

/// Milliseconds between two progress reports of a sending session.
pub const PROGRESS_LOG_MILLIS: u64 = 10_000;

/// Milliseconds after which a sending session ends.
pub const BENCHMARK_MILLIS: u64 = 60_000;

/// Number of log levels a generated record may carry.
pub const LEVEL_COUNT: usize = 4;

/// Lowest and one past the highest sample number of a generated record.
pub const SAMPLE_NUMBER_LOW: u64 = 1;

pub const SAMPLE_NUMBER_HIGH: u64 = 10000;

/// The highest rate at which records can be sent: one per microsecond.
pub const MAX_MESSAGES_PER_SECOND: u64 = 1_000_000;

/// Microseconds between two records sent at `messages_per_second`; never zero
/// on the rates the client accepts.
pub fn send_interval_micros(messages_per_second: u64) -> (r: u64)
    requires
        1 <= messages_per_second <= MAX_MESSAGES_PER_SECOND,
    ensures
        r == 1_000_000int / messages_per_second as int,
        r >= 1,
{
    proof {
        let m = messages_per_second as int;
        assert(1_000_000int / m >= 1) by (nonlinear_arith)
            requires
                1 <= m <= 1_000_000,
        ;
    }
    1_000_000 / messages_per_second
}

/// A record as the client writes it to the server: its text and a `'\n'`.
pub fn frame_record(message: &str) -> (r: String)
    ensures
        r@ == message@ + seq!['\n'],
{
    let mut r = String::from_str(message);
    r.append("\n");
    proof {
        reveal_strlit("\n");
    }
    r
}

/// What the client does after a sending session.
#[derive(PartialEq, Eq, Debug, Clone, Copy, Structural)]
pub enum Attempt {
    /// The session completed: the client stops.
    Finished,
    /// The session failed: the client connects again after this many seconds.
    RetryAfterSecs(u64),
}

/// The client's decision after a sending session that succeeded or failed.
pub fn after_attempt(succeeded: bool) -> (r: Attempt)
    ensures
        succeeded ==> r == Attempt::Finished,
        !succeeded ==> r == Attempt::RetryAfterSecs(RECONNECT_DELAY_SECS),
{
    if succeeded {
        Attempt::Finished
    } else {
        Attempt::RetryAfterSecs(RECONNECT_DELAY_SECS)
    }
}

/// What follows one record sent in a session.
#[derive(PartialEq, Eq, Debug, Clone, Copy, Structural)]
pub struct AfterSend {
    /// Report the number of records sent so far (and restart the report clock).
    pub log_progress: bool,
    /// The session has lasted long enough and ends.
    pub finished: bool,
}

/// Counts the records sent over one connection.
pub struct SendSession {
    sent: u64,
}

impl View for SendSession {
    type V = nat;

    closed spec fn view(&self) -> nat {
        self.sent as nat
    }
}

impl SendSession {
    /// A session that has sent nothing.
    pub fn new() -> (r: Self)
        ensures
            r@ == 0,
    {
        SendSession { sent: 0 }
    }

    /// Records sent so far.
    pub fn sent(&self) -> (r: u64)
        ensures
            r == self@,
    {
        self.sent
    }

    /// Counts a record just sent, given the milliseconds since the last
    /// progress report and since the session started.
    pub fn record_sent(&mut self, millis_since_report: u64, millis_since_start: u64) -> (r:
        AfterSend)
        requires
            old(self)@ < u64::MAX,
        ensures
            final(self)@ == old(self)@ + 1,
            r.log_progress == (millis_since_report >= PROGRESS_LOG_MILLIS),
            r.finished == (millis_since_start >= BENCHMARK_MILLIS),
    {
        self.sent = self.sent + 1;
        AfterSend {
            log_progress: millis_since_report >= PROGRESS_LOG_MILLIS,
            finished: millis_since_start >= BENCHMARK_MILLIS,
        }
    }
}

/// The name of log level `i`.
pub open spec fn level_name(i: int) -> Seq<char> {
    if i == 0 {
        "INFO"@
    } else if i == 1 {
        "WARN"@
    } else if i == 2 {
        "ERROR"@
    } else {
        "DEBUG"@
    }
}

/// A log record: `[timestamp] LEVEL - Sample log message number N`.
pub open spec fn log_line(timestamp: Seq<char>, level: int, number: nat) -> Seq<char> {
    "["@ + timestamp + "] "@ + level_name(level) + " - Sample log message number "@ + decimal(
        number,
    )
}

/// A character that a UTC timestamp is written with.
pub open spec fn timestamp_char(c: char) -> bool {
    ||| is_digit(c)
    ||| c == '-'
    ||| c == '+'
    ||| c == ':'
    ||| c == ' '
    ||| c == '.'
}

/// A UTC timestamp is written only with digits, signs and separators.
pub proof fn lemma_timestamp_chars(s: Seq<char>)
    requires
        is_utc_timestamp(s),
    ensures
        forall|i: int| 0 <= i < s.len() ==> timestamp_char(#[trigger] s[i]),
{
    let off = s.len() - 19;
    let y = s.take(off);
    let t = s.skip(off);
    assert forall|i: int| 0 <= i < s.len() implies timestamp_char(#[trigger] s[i]) by {
        if i < off {
            assert(s[i] == y[i]);
            if y.len() != 4 && i > 0 {
                assert(is_digit(y[i]));
            }
        } else {
            let j = i - off;
            assert(s[i] == t[j]);
            assert(j == 0 || j == 1 || j == 2 || j == 3 || j == 4 || j == 5 || j == 6 || j == 7
                || j == 8 || j == 9 || j == 10 || j == 11 || j == 12 || j == 13 || j == 14 || j
                == 15 || j == 16 || j == 17 || j == 18);
        }
    }
}

/// The name of log level `level`.
pub fn level_str(level: usize) -> (r: &'static str)
    requires
        level < LEVEL_COUNT,
    ensures
        r@ == level_name(level as int),
{
    if level == 0 {
        proof { reveal_strlit("INFO"); }
        "INFO"
    } else if level == 1 {
        proof { reveal_strlit("WARN"); }
        "WARN"
    } else if level == 2 {
        proof { reveal_strlit("ERROR"); }
        "ERROR"
    } else {
        proof { reveal_strlit("DEBUG"); }
        "DEBUG"
    }
}

/// The log record with this timestamp, level and sample number.
pub fn format_log_message(timestamp: &str, level: usize, number: u64) -> (r: String)
    requires
        level < LEVEL_COUNT,
    ensures
        r@ == log_line(timestamp@, level as int, number as nat),
{
    let mut r = String::from_str("[");
    r.append(timestamp);
    r.append("] ");
    r.append(level_str(level));
    r.append(" - Sample log message number ");
    append_decimal(&mut r, number);
    r
}

/// A sample log record: a random level, the current UTC time and a random
/// sample number in `1..10000`.
pub fn generate_log_message() -> (r: String)
    ensures
        exists|timestamp: Seq<char>, level: int, number: nat|
            {
                &&& is_utc_timestamp(timestamp)
                &&& 0 <= level < LEVEL_COUNT
                &&& SAMPLE_NUMBER_LOW <= number < SAMPLE_NUMBER_HIGH
                &&& r@ == #[trigger] log_line(timestamp, level, number)
            },
{
    let level = random_in_range(0, LEVEL_COUNT as u64) as usize;
    let timestamp = utc_timestamp();
    let number = random_in_range(SAMPLE_NUMBER_LOW, SAMPLE_NUMBER_HIGH);
    let r = format_log_message(timestamp.as_str(), level, number);
    proof {
        assert(r@ == log_line(timestamp@, level as int, number as nat));
    }
    r
}

} // verus!
