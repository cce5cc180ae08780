//! Properties of the system as a whole, stated over the specifications that the
//! components' contracts use.
use vstd::prelude::*;
use vstd::string::*;
use vstd::utf8::*;

use crate::batch::{plan_text, PlannedWrite};
use crate::client::{lemma_timestamp_chars, level_name, log_line, timestamp_char, LEVEL_COUNT};
use crate::outside::is_utc_timestamp;
use crate::server::{
    after_delivery, buffer_step, intake_step, intake_steps, next_batch, pushed, replay,
    BufferEvent, BATCH_SIZE,
};
use crate::text::{
    decimal, lemma_lines_of_wire, lemma_newline_index, lemma_records_chunked, lemma_records_of_wire,
    line_safe, lines_of, lemma_lines_of_wire_strip, strip_cr, no_newline, digit_char, newline_index, records_of, remainder_of, wire_of,
};

verus! {

/// Records enter the buffer in the order they arrived, none lost or repeated:
/// `n` intake steps append the first `n` complete records (or all of them, if
/// fewer are pending) to the buffer and leave the other records and the
/// unterminated remainder pending.
pub proof fn law_intake_in_order(pending: Seq<char>, buffered: Seq<Seq<char>>, n: nat)
    ensures
        ({
            let m = if n <= records_of(pending).len() {
                n as int
            } else {
                records_of(pending).len() as int
            };
            let after = intake_steps(pending, buffered, n);
            &&& after.1 == buffered + records_of(pending).take(m)
            &&& records_of(after.0) == records_of(pending).skip(m)
            &&& remainder_of(after.0) == remainder_of(pending)
            &&& n >= records_of(pending).len() ==> after.0 == remainder_of(pending)
        }),
    decreases n,
{
    let recs = records_of(pending);
    if n == 0 {
        assert(buffered + recs.take(0) == buffered);
        assert(recs.skip(0) == recs);
        if recs.len() == 0 {
            lemma_newline_index(pending);
        }
    } else {
        lemma_newline_index(pending);
        let k = newline_index(pending);
        let next = intake_step(pending, buffered);
        law_intake_in_order(next.0, next.1, (n - 1) as nat);
        if k >= pending.len() {
            assert(recs.len() == 0);
            assert(remainder_of(pending) == pending);
            assert(buffered + recs.take(0) == buffered);
            assert(recs.skip(0) == recs);
        } else {
            let tail = pending.skip(k as int + 1);
            assert(recs == seq![pending.take(k as int)] + records_of(tail));
            let m = if n <= recs.len() {
                n as int
            } else {
                recs.len() as int
            };
            assert(records_of(tail).take(m - 1) == recs.take(m).drop_first());
            assert(buffered.push(pending.take(k as int)) + records_of(tail).take(m - 1) == buffered
                + recs.take(m));
            assert(records_of(tail).skip(m - 1) == recs.skip(m));
            assert(remainder_of(pending) == remainder_of(tail));
        }
    }
}

/// The UTF-8 encoding of a concatenation is the concatenation of the encodings.
pub proof fn lemma_encode_utf8_concat(x: Seq<char>, y: Seq<char>)
    ensures
        encode_utf8(x + y) == encode_utf8(x) + encode_utf8(y),
    decreases x.len(),
{
    if x.len() == 0 {
        assert(x + y == y);
        assert(Seq::<u8>::empty() + encode_utf8(y) == encode_utf8(y));
    } else {
        lemma_encode_utf8_concat(x.drop_first(), y);
        assert((x + y).drop_first() == x.drop_first() + y);
        assert((x + y)[0] == x[0]);
    }
}

/// Reading a valid UTF-8 stream in two chunks that are each valid UTF-8 gives
/// the same text as reading it at once.
pub proof fn law_utf8_chunks(a: Seq<u8>, b: Seq<u8>)
    requires
        valid_utf8(a),
        valid_utf8(b),
    ensures
        valid_utf8(a + b),
        decode_utf8(a + b) == decode_utf8(a) + decode_utf8(b),
{
    broadcast use encode_utf8_valid_utf8, encode_utf8_decode_utf8, decode_utf8_encode_utf8;

    let x = decode_utf8(a);
    let y = decode_utf8(b);
    lemma_encode_utf8_concat(x, y);
    assert(a + b == encode_utf8(x + y));
}

/// Every character of the decimal form of a number is a digit.
pub proof fn lemma_decimal_digits(n: nat)
    ensures
        forall|i: int|
            0 <= i < decimal(n).len() ==> '0' <= #[trigger] decimal(n)[i] && decimal(n)[i] <= '9',
        decimal(n).len() > 0,
    decreases n,
{
    if n >= 10 {
        lemma_decimal_digits(n / 10);
        let d = decimal(n / 10);
        assert forall|i: int| 0 <= i < decimal(n).len() implies '0' <= #[trigger] decimal(n)[i]
            && decimal(n)[i] <= '9' by {
            if i < d.len() {
                assert(decimal(n)[i] == d[i]);
            }
        }
    }
}

/// A generated log record is pure ASCII, holds no `'\n'` and does not end in
/// `'\r'`: it travels through the system as one line.
pub proof fn law_log_line_is_one_line(timestamp: Seq<char>, level: int, number: nat)
    requires
        is_utc_timestamp(timestamp),
        0 <= level < LEVEL_COUNT,
    ensures
        line_safe(log_line(timestamp, level, number)),
        is_ascii_chars(log_line(timestamp, level, number)),
{
    lemma_timestamp_chars(timestamp);
    reveal_strlit("[");
    reveal_strlit("] ");
    reveal_strlit("INFO");
    reveal_strlit("WARN");
    reveal_strlit("ERROR");
    reveal_strlit("DEBUG");
    reveal_strlit(" - Sample log message number ");
    lemma_decimal_digits(number);
    let head = "["@ + timestamp + "] "@ + level_name(level) + " - Sample log message number "@;
    let digits = decimal(number);
    let line = log_line(timestamp, level, number);
    assert(line == head + digits);
    assert forall|i: int| 0 <= i < line.len() implies '\0' <= #[trigger] line[i] && line[i]
        <= '\u{7f}' && line[i] != '\n' by {
        if i < head.len() {
            assert(line[i] == head[i]);
            if 1 <= i < 1 + timestamp.len() {
                assert(head[i] == timestamp[i - 1]);
                assert(timestamp_char(timestamp[i - 1]));
            }
        } else {
            assert(line[i] == digits[i - head.len()]);
        }
    }
    assert(line.last() == digits.last());
}

/// What the client sends arrives at the destination unchanged and in order:
/// the server frames the client's stream of line-safe records back into those
/// records, and however the server cuts them into two consecutive batches,
/// the destination reads the lines of the two batches as those records again.
pub proof fn law_forwarding_preserves_records(records: Seq<Seq<char>>, cut: int)
    requires
        forall|i: int| 0 <= i < records.len() ==> line_safe(#[trigger] records[i]),
        0 <= cut <= records.len(),
    ensures
        records_of(wire_of(records)) == records,
        remainder_of(wire_of(records)) == Seq::<char>::empty(),
        lines_of(wire_of(records.take(cut))) + lines_of(wire_of(records.skip(cut))) == records,
{
    lemma_records_of_wire(records, Seq::<char>::empty());
    assert(wire_of(records) + Seq::<char>::empty() == wire_of(records));
    assert(records + Seq::<Seq<char>>::empty() == records);
    let first = records.take(cut);
    let second = records.skip(cut);
    assert forall|i: int| 0 <= i < first.len() implies line_safe(#[trigger] first[i]) by {
        assert(first[i] == records[i]);
    }
    assert forall|i: int| 0 <= i < second.len() implies line_safe(#[trigger] second[i]) by {
        assert(second[i] == records[cut + i]);
    }
    lemma_lines_of_wire(first);
    lemma_lines_of_wire(second);
    assert(first + second == records);
}

/// The writes that forward a run of batches, one plan after another, spell
/// out the wire form of all their records.
pub proof fn law_plans_concatenate(plans: Seq<Seq<PlannedWrite>>, batches: Seq<Seq<Seq<char>>>)
    requires
        plans.len() == batches.len(),
        forall|i: int| 0 <= i < plans.len() ==> plan_text(#[trigger] plans[i]) == wire_of(batches[i]),
    ensures
        plan_text(plans.flatten_alt()) == wire_of(batches.flatten_alt()),
    decreases plans.len(),
{
    if plans.len() > 0 {
        let n = plans.len() - 1;
        assert forall|i: int| 0 <= i < n implies plan_text(#[trigger] plans.drop_last()[i])
            == wire_of(batches.drop_last()[i]) by {
            assert(plans.drop_last()[i] == plans[i]);
            assert(batches.drop_last()[i] == batches[i]);
        }
        law_plans_concatenate(plans.drop_last(), batches.drop_last());
        lemma_plan_text_concat(plans.drop_last().flatten_alt(), plans.last());
        lemma_wire_concat(batches.drop_last().flatten_alt(), batches.last());
        assert(plan_text(plans[n]) == wire_of(batches[n]));
    }
}

/// The text of a concatenated plan is the concatenation of the texts.
pub proof fn lemma_plan_text_concat(plan1: Seq<PlannedWrite>, plan2: Seq<PlannedWrite>)
    ensures
        plan_text(plan1 + plan2) == plan_text(plan1) + plan_text(plan2),
    decreases plan2.len(),
{
    if plan2.len() == 0 {
        assert(plan1 + plan2 == plan1);
        assert(plan_text(plan1) + Seq::<char>::empty() == plan_text(plan1));
    } else {
        lemma_plan_text_concat(plan1, plan2.drop_last());
        assert((plan1 + plan2).drop_last() == plan1 + plan2.drop_last());
        assert((plan1 + plan2).last() == plan2.last());
        assert(plan_text(plan1) + plan_text(plan2.drop_last()) + plan2.last().text@ == plan_text(
            plan1,
        ) + (plan_text(plan2.drop_last()) + plan2.last().text@));
    }
}

/// The wire form of concatenated record sequences is the concatenation of the
/// wire forms.
pub proof fn lemma_wire_concat(a: Seq<Seq<char>>, b: Seq<Seq<char>>)
    ensures
        wire_of(a + b) == wire_of(a) + wire_of(b),
    decreases b.len(),
{
    if b.len() == 0 {
        assert(a + b == a);
        assert(wire_of(a) + Seq::<char>::empty() == wire_of(a));
    } else {
        lemma_wire_concat(a, b.drop_last());
        assert((a + b).drop_last() == a + b.drop_last());
        assert((a + b).last() == b.last());
        assert(wire_of(a) + wire_of(b.drop_last()) + b.last() + seq!['\n'] == wire_of(a) + (
        wire_of(b.drop_last()) + b.last() + seq!['\n']));
    }
}

/// Every record pushed into the buffer leaves it only inside a delivered
/// batch, once, and in push order: at any point, what was buffered at the start
/// followed by everything pushed since equals the delivered batches one after
/// another followed by what is still buffered. Every delivered batch holds
/// between one and `BATCH_SIZE` records.
pub proof fn law_buffer_history(initial: Seq<Seq<char>>, events: Seq<BufferEvent>)
    ensures
        initial + pushed(events) == replay(initial, events).0.flatten_alt() + replay(
            initial,
            events,
        ).1,
        forall|i: int|
            0 <= i < replay(initial, events).0.len() ==> 1 <= (#[trigger] replay(
                initial,
                events,
            ).0[i]).len() <= BATCH_SIZE,
    decreases events.len(),
{
    if events.len() == 0 {
        assert(initial + Seq::<Seq<char>>::empty() == initial);
        assert(Seq::<Seq<Seq<char>>>::empty().flatten_alt() + initial == initial);
    } else {
        let rest = events.drop_last();
        law_buffer_history(initial, rest);
        let prev = replay(initial, rest);
        let bs = prev.0;
        let b = prev.1;
        assert(replay(initial, events) == buffer_step(prev, events.last()));
        match events.last() {
            BufferEvent::Push(m) => {
                assert(pushed(events) == pushed(rest).push(m));
                assert((initial + pushed(rest)).push(m) == initial + pushed(rest).push(m));
                assert((bs.flatten_alt() + b).push(m) == bs.flatten_alt() + b.push(m));
            },
            BufferEvent::Flush(delivered) => {
                assert(pushed(events) == pushed(rest));
                if delivered && b.len() > 0 {
                    let nb = next_batch(b);
                    let ad = after_delivery(b);
                    assert(nb + ad == b);
                    assert(bs.push(nb).drop_last() == bs);
                    assert(bs.push(nb).flatten_alt() == bs.flatten_alt() + nb);
                    assert(bs.flatten_alt() + nb + ad == bs.flatten_alt() + b);
                    assert(1 <= nb.len() <= BATCH_SIZE);
                    assert forall|i: int| 0 <= i < bs.push(nb).len() implies 1 <= (
                    #[trigger] bs.push(nb)[i]).len() <= BATCH_SIZE by {
                        if i < bs.len() {
                            assert(bs.push(nb)[i] == bs[i]);
                        }
                    }
                }
            },
        }
    }
}

/// What the server frames when a stream arrives in `chunks`, each drained
/// before the next arrives: the records taken so far and the pending text.
pub open spec fn framed_in_chunks(chunks: Seq<Seq<char>>) -> (Seq<Seq<char>>, Seq<char>)
    decreases chunks.len(),
{
    if chunks.len() == 0 {
        (Seq::empty(), Seq::empty())
    } else {
        let prev = framed_in_chunks(chunks.drop_last());
        let p = prev.1 + chunks.last();
        (prev.0 + records_of(p), remainder_of(p))
    }
}

/// However the reads cut a stream, the server frames the same records and
/// keeps the same pending text as for the whole stream at once.
pub proof fn law_framing_any_chunks(chunks: Seq<Seq<char>>)
    ensures
        framed_in_chunks(chunks) == (
            records_of(chunks.flatten_alt()),
            remainder_of(chunks.flatten_alt()),
        ),
    decreases chunks.len(),
{
    if chunks.len() == 0 {
        lemma_newline_index(Seq::<char>::empty());
        assert(records_of(Seq::<char>::empty()) == Seq::<Seq<char>>::empty());
    } else {
        let front = chunks.drop_last();
        law_framing_any_chunks(front);
        lemma_records_chunked(front.flatten_alt(), chunks.last());
    }
}

/// Reading a stream in chunks that are each valid UTF-8 gives the same text,
/// chunk by chunk, as reading it at once.
pub proof fn law_utf8_any_chunks(chunks: Seq<Seq<u8>>)
    requires
        forall|i: int| 0 <= i < chunks.len() ==> valid_utf8(#[trigger] chunks[i]),
    ensures
        valid_utf8(chunks.flatten_alt()),
        decode_utf8(chunks.flatten_alt()) == chunks.map_values(|c: Seq<u8>| decode_utf8(c)).flatten_alt(),
    decreases chunks.len(),
{
    let f = |c: Seq<u8>| decode_utf8(c);
    if chunks.len() == 0 {
        assert(chunks.map_values(f).len() == 0);
    } else {
        let front = chunks.drop_last();
        assert forall|i: int| 0 <= i < front.len() implies valid_utf8(#[trigger] front[i]) by {
            assert(front[i] == chunks[i]);
        }
        law_utf8_any_chunks(front);
        assert(valid_utf8(chunks[chunks.len() - 1]));
        law_utf8_chunks(front.flatten_alt(), chunks.last());
        assert(chunks.map_values(f).drop_last() == front.map_values(f));
        assert(chunks.map_values(f).last() == decode_utf8(chunks.last()));
    }
}

/// The client's stream: each record followed by its `'\n'`, one after another,
/// is the wire form of the records.
pub proof fn law_frames_are_wire(records: Seq<Seq<char>>)
    ensures
        records.map_values(|r: Seq<char>| r + seq!['\n']).flatten_alt() == wire_of(records),
    decreases records.len(),
{
    let f = |r: Seq<char>| r + seq!['\n'];
    if records.len() > 0 {
        law_frames_are_wire(records.drop_last());
        assert(records.map_values(f).drop_last() == records.drop_last().map_values(f));
        assert(records.drop_last().map_values(f).flatten_alt() + (records.last() + seq!['\n'])
            == wire_of(records.drop_last()) + records.last() + seq!['\n']);
    } else {
        assert(records.map_values(f).len() == 0);
    }
}

/// However the server cuts line-safe records into batches, the destination
/// reads back exactly those records, in order, batch after batch.
pub proof fn law_forwarding_any_batches(batches: Seq<Seq<Seq<char>>>)
    requires
        forall|i: int, j: int|
            0 <= i < batches.len() && 0 <= j < batches[i].len() ==> line_safe(
                #[trigger] batches[i][j],
            ),
    ensures
        batches.map_values(|b: Seq<Seq<char>>| lines_of(wire_of(b))).flatten_alt()
            == batches.flatten_alt(),
{
    let f = |b: Seq<Seq<char>>| lines_of(wire_of(b));
    assert forall|i: int| 0 <= i < batches.len() implies #[trigger] lines_of(wire_of(batches[i]))
        == batches[i] by {
        assert forall|j: int| 0 <= j < batches[i].len() implies line_safe(
            #[trigger] batches[i][j],
        ) by {}
        lemma_lines_of_wire(batches[i]);
    }
    assert(batches.map_values(f) == batches);
}

/// A flush sends the whole buffer when it holds at most `BATCH_SIZE` records
/// and leaves it empty once delivered; from a larger buffer it sends exactly
/// the `BATCH_SIZE` oldest records and keeps the others, in order. Either way
/// the batch followed by what stays is the buffer.
pub proof fn law_flush_batches(buffered: Seq<Seq<char>>)
    ensures
        next_batch(buffered) + after_delivery(buffered) == buffered,
        buffered.len() <= BATCH_SIZE ==> next_batch(buffered) == buffered && after_delivery(
            buffered,
        ).len() == 0,
        buffered.len() > BATCH_SIZE ==> next_batch(buffered) == buffered.take(BATCH_SIZE as int)
            && after_delivery(buffered) == buffered.skip(BATCH_SIZE as int),
{
    assert(next_batch(buffered) + after_delivery(buffered) == buffered);
    if buffered.len() <= BATCH_SIZE {
        assert(buffered.take(buffered.len() as int) == buffered);
    }
}

/// A carriage return ends a line only as part of `"\r\n"`: one `'\r'` before the
/// `'\n'` is dropped whatever comes before it, and a line that does not end in
/// `'\r'` is kept whole.
pub proof fn law_strip_cr(r: Seq<char>)
    ensures
        strip_cr(r.push('\r')) == r,
        !(r.len() > 0 && r.last() == '\r') ==> strip_cr(r) == r,
        strip_cr(r).len() + 1 >= r.len(),
        strip_cr(r) == r.take(strip_cr(r).len() as int),
{
    assert(r.push('\r').drop_last() == r);
    assert(r.take(r.len() as int) == r);
}

/// Lines ended by `"\r\n"` come back without their terminators: whatever the
/// newline-free records hold, the destination splits the text that sends each
/// of them followed by `"\r\n"` into exactly those records.
pub proof fn law_crlf_lines(records: Seq<Seq<char>>)
    requires
        forall|i: int| 0 <= i < records.len() ==> no_newline(#[trigger] records[i]),
    ensures
        lines_of(wire_of(records.map_values(|r: Seq<char>| r.push('\r')))) == records,
{
    let g = |r: Seq<char>| r.push('\r');
    let crlf = records.map_values(g);
    assert forall|i: int| 0 <= i < crlf.len() implies no_newline(#[trigger] crlf[i]) by {
        assert(crlf[i] == records[i].push('\r'));
        assert forall|j: int| 0 <= j < crlf[i].len() implies crlf[i][j] != '\n' by {
            if j < records[i].len() {
                assert(crlf[i][j] == records[i][j]);
            }
        }
    }
    lemma_lines_of_wire_strip(crlf);
    let f = |r: Seq<char>| strip_cr(r);
    assert forall|i: int| 0 <= i < records.len() implies #[trigger] crlf.map_values(f)[i]
        == records[i] by {
        law_strip_cr(records[i]);
    }
    assert(crlf.map_values(f) == records);
}

/// The number that base-10 digits denote, most significant first.
pub open spec fn digits_value(s: Seq<char>) -> int
    decreases s.len(),
{
    if s.len() == 0 {
        0
    } else {
        10 * digits_value(s.drop_last()) + ((s.last() as u32) as int - 48)
    }
}

/// The decimal form of a number denotes that number: its characters are
/// digits, read in base 10 they give the number back, and there is no leading
/// zero (so the form is the shortest one).
pub proof fn law_decimal_denotes(n: nat)
    ensures
        digits_value(decimal(n)) == n,
        forall|i: int|
            0 <= i < decimal(n).len() ==> '0' <= #[trigger] decimal(n)[i] && decimal(n)[i] <= '9',
        n > 0 ==> decimal(n)[0] != '0',
        n < 10 <==> decimal(n).len() == 1,
    decreases n,
{
    lemma_decimal_digits(n);
    let d = n % 10;
    assert(d < 10);
    assert(((digit_char(d) as u32) as int - 48) == d as int) by {
        assert(d == 0 || d == 1 || d == 2 || d == 3 || d == 4 || d == 5 || d == 6 || d == 7 || d
            == 8 || d == 9);
    }
    if n >= 10 {
        law_decimal_denotes(n / 10);
        let front = decimal(n / 10);
        assert(decimal(n).drop_last() == front);
        assert(decimal(n).last() == digit_char(d));
        assert(n == 10 * (n / 10) + d);
        assert(decimal(n)[0] == front[0]);
        assert(digits_value(decimal(n)) == 10 * digits_value(front) + ((digit_char(d) as u32) as int
            - 48));
    } else {
        assert(n == d);
        assert(decimal(n).drop_last().len() == 0);
        assert(digits_value(decimal(n)) == 10 * digits_value(decimal(n).drop_last()) + ((digit_char(
            d,
        ) as u32) as int - 48));
    }
}

} // verus!
