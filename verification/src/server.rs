//! The server's decisions: framing what a client sends into records, holding
//! them in the batch buffer, and when to ask for and finish a flush.
use vstd::prelude::*;
use vstd::string::*;
#[allow(unused_imports)]
use vstd::utf8::*;

use crate::outside::{decode_lossy, lossy_utf8};
use crate::text::{find_newline, lemma_newline_index, newline_index, records_of, remainder_of};

verus! {

/// Buffered records at which the server asks for an early flush.
pub const BATCH_SIZE: usize = 100;

/// Seconds between the periodic flushes of the buffer.
pub const FLUSH_INTERVAL_SECS: u64 = 10;

/// Capacity of the queue of flush requests.
pub const FLUSH_QUEUE_CAPACITY: usize = 100;

/// The text received from one client that has not yet been cut into records.
pub struct LineAssembler {
    pending: String,
}

impl View for LineAssembler {
    type V = Seq<char>;

    closed spec fn view(&self) -> Seq<char> {
        self.pending@
    }
}

/// One intake step on a client's pending text and the shared buffer: the first
/// complete record, if any, moves into the buffer.
pub open spec fn intake_step(pending: Seq<char>, buffered: Seq<Seq<char>>) -> (
    Seq<char>,
    Seq<Seq<char>>,
) {
    let k = newline_index(pending);
    if k >= pending.len() {
        (pending, buffered)
    } else {
        (pending.skip(k as int + 1), buffered.push(pending.take(k as int)))
    }
}

/// `n` intake steps in a row.
pub open spec fn intake_steps(pending: Seq<char>, buffered: Seq<Seq<char>>, n: nat) -> (
    Seq<char>,
    Seq<Seq<char>>,
)
    decreases n,
{
    if n == 0 {
        (pending, buffered)
    } else {
        let next = intake_step(pending, buffered);
        intake_steps(next.0, next.1, (n - 1) as nat)
    }
}

impl LineAssembler {
    /// An assembler with nothing pending.
    pub fn new() -> (r: Self)
        ensures
            r@ == Seq::<char>::empty(),
    {
        LineAssembler { pending: String::new() }
    }

    /// The text received but not yet cut into records.
    pub fn pending(&self) -> (r: &str)
        ensures
            r@ == self@,
    {
        self.pending.as_str()
    }

    /// Appends received text to what is pending.
    pub fn push_text(&mut self, text: &str)
        ensures
            final(self)@ == old(self)@ + text@,
    {
        self.pending.append(text);
    }

    /// Appends a chunk of bytes read from the connection, decoded as UTF-8 with
    /// invalid sequences replaced, as the server reads them.
    pub fn receive(&mut self, bytes: &[u8])
        ensures
            final(self)@ == old(self)@ + lossy_utf8(bytes@),
            valid_utf8(bytes@) ==> final(self)@ == old(self)@ + decode_utf8(bytes@),
    {
        let text = decode_lossy(bytes);
        self.pending.append(text.as_str());
    }

    /// Cuts the first complete record off the pending text: the text before the
    /// first `'\n'`, which is dropped. `None`, and nothing changes, while no
    /// `'\n'` is pending.
    pub fn next_message(&mut self) -> (r: Option<String>)
        ensures
            r is None <==> newline_index(old(self)@) >= old(self)@.len(),
            r is None ==> final(self)@ == old(self)@,
            r matches Some(m) ==> {
                let k = newline_index(old(self)@) as int;
                &&& m@ == old(self)@.take(k)
                &&& final(self)@ == old(self)@.skip(k + 1)
            },
            r matches Some(m) ==> records_of(old(self)@) == seq![m@] + records_of(final(self)@),
            remainder_of(final(self)@) == remainder_of(old(self)@),
    {
        match find_newline(self.pending.as_str()) {
            None => None,
            Some(k) => {
                let n = self.pending.as_str().unicode_len();
                let message = self.pending.as_str().substring_char(0, k).to_owned();
                let rest = self.pending.as_str().substring_char(k + 1, n).to_owned();
                self.pending = rest;
                Some(message)
            },
        }
    }
}

/// The records received from all clients and not yet delivered.
pub struct LogBuffer {
    messages: Vec<String>,
}

impl View for LogBuffer {
    type V = Seq<Seq<char>>;

    closed spec fn view(&self) -> Seq<Seq<char>> {
        self.messages.deep_view()
    }
}

impl LogBuffer {
    /// An empty buffer.
    pub fn new() -> (r: Self)
        ensures
            r@ == Seq::<Seq<char>>::empty(),
    {
        LogBuffer { messages: Vec::new() }
    }

    /// Number of buffered records.
    pub fn len(&self) -> (r: usize)
        ensures
            r == self@.len(),
    {
        self.messages.len()
    }

    /// Whether nothing is buffered.
    pub fn is_empty(&self) -> (r: bool)
        ensures
            r == (self@.len() == 0),
    {
        self.messages.len() == 0
    }

    /// The buffered records, oldest first.
    pub fn messages(&self) -> (r: &[String])
        ensures
            r.deep_view() == self@,
    {
        self.messages.as_slice()
    }

    /// Appends a record; `true` when the buffer now holds a full batch, so that
    /// the server asks for a flush.
    pub fn push(&mut self, message: String) -> (full: bool)
        ensures
            final(self)@ == old(self)@.push(message@),
            full == (final(self)@.len() >= BATCH_SIZE),
    {
        self.messages.push(message);
        proof {
            assert(self.messages.deep_view() == old(self).messages.deep_view().push(message@));
        }
        self.messages.len() >= BATCH_SIZE
    }

    /// Whether a flush request leads to a send: only a non-empty buffer is sent.
    pub fn begin_flush(&self) -> (send: bool)
        ensures
            send == (self@.len() > 0),
    {
        self.messages.len() > 0
    }

    /// The batch that a flush sends: the oldest records, at most `BATCH_SIZE`.
    pub fn take_batch(&self) -> (batch: Vec<String>)
        ensures
            batch.deep_view() == next_batch(self@),
            batch@.len() <= BATCH_SIZE,
            batch@.len() == 0 <==> self@.len() == 0,
            batch.deep_view() == self@.take(batch@.len() as int),
            self@.len() <= BATCH_SIZE ==> batch.deep_view() == self@,
            self@.len() > BATCH_SIZE ==> batch@.len() == BATCH_SIZE,
    {
        let n = if self.messages.len() <= BATCH_SIZE {
            self.messages.len()
        } else {
            BATCH_SIZE
        };
        let mut batch: Vec<String> = Vec::new();
        for i in 0..n
            invariant
                n == batch_len(self@.len()),
                n <= self.messages@.len(),
                self@ == self.messages.deep_view(),
                batch.deep_view() == self@.take(i as int),
        {
            let ghost before = batch.deep_view();
            batch.push(self.messages[i].clone());
            proof {
                assert(batch.deep_view() == before.push(self@[i as int]));
                assert(self@.take(i as int + 1) == self@.take(i as int).push(self@[i as int]));
            }
        }
        batch
    }

    /// Ends a flush of the batch `take_batch` gave: a delivered batch leaves the
    /// buffer, a failed one stays for the next flush. `true` when, after a
    /// delivery, records are still buffered: the same flush sends them next, so
    /// that a flush empties the whole buffer in batches of at most `BATCH_SIZE`.
    pub fn complete_flush(&mut self, delivered: bool) -> (again: bool)
        ensures
            delivered ==> final(self)@ == after_delivery(old(self)@),
            !delivered ==> final(self)@ == old(self)@,
            again == (delivered && final(self)@.len() > 0),
            delivered && old(self)@.len() <= BATCH_SIZE ==> final(self)@.len() == 0 && !again,
            delivered && old(self)@.len() > BATCH_SIZE ==> final(self)@ == old(self)@.skip(
                BATCH_SIZE as int,
            ),
    {
        if delivered {
            let n = if self.messages.len() <= BATCH_SIZE {
                self.messages.len()
            } else {
                BATCH_SIZE
            };
            let rest = self.messages.split_off(n);
            self.messages = rest;
            proof {
                assert(self.messages.deep_view() =~= old(self)@.skip(n as int));
            }
            self.messages.len() > 0
        } else {
            false
        }
    }
}

/// Records a flush sends from a buffer of `n` records.
pub open spec fn batch_len(n: nat) -> nat {
    if n <= BATCH_SIZE {
        n
    } else {
        BATCH_SIZE as nat
    }
}

/// The batch a flush sends from `buffered`: its oldest records, at most `BATCH_SIZE`.
pub open spec fn next_batch(buffered: Seq<Seq<char>>) -> Seq<Seq<char>> {
    buffered.take(batch_len(buffered.len()) as int)
}

/// What stays buffered after the batch of `buffered` was delivered.
pub open spec fn after_delivery(buffered: Seq<Seq<char>>) -> Seq<Seq<char>> {
    buffered.skip(batch_len(buffered.len()) as int)
}

/// What happens to the buffer: a record is pushed, or a flush runs and its
/// batch is delivered or not.
pub enum BufferEvent {
    Push(Seq<char>),
    Flush(bool),
}

/// The batches delivered so far and the buffer, after one more event.
pub open spec fn buffer_step(
    state: (Seq<Seq<Seq<char>>>, Seq<Seq<char>>),
    event: BufferEvent,
) -> (Seq<Seq<Seq<char>>>, Seq<Seq<char>>) {
    match event {
        BufferEvent::Push(m) => (state.0, state.1.push(m)),
        BufferEvent::Flush(delivered) => if delivered && state.1.len() > 0 {
            (state.0.push(next_batch(state.1)), after_delivery(state.1))
        } else {
            state
        },
    }
}

/// The batches delivered and the buffer after `events`, from `buffered`.
pub open spec fn replay(buffered: Seq<Seq<char>>, events: Seq<BufferEvent>) -> (
    Seq<Seq<Seq<char>>>,
    Seq<Seq<char>>,
)
    decreases events.len(),
{
    if events.len() == 0 {
        (Seq::empty(), buffered)
    } else {
        buffer_step(replay(buffered, events.drop_last()), events.last())
    }
}

/// The records that `events` push, in order.
pub open spec fn pushed(events: Seq<BufferEvent>) -> Seq<Seq<char>>
    decreases events.len(),
{
    if events.len() == 0 {
        Seq::empty()
    } else {
        match events.last() {
            BufferEvent::Push(m) => pushed(events.drop_last()).push(m),
            BufferEvent::Flush(_) => pushed(events.drop_last()),
        }
    }
}

/// What one intake step did.
#[derive(PartialEq, Eq, Debug, Clone, Copy, Structural)]
pub enum Intake {
    /// No complete record is pending.
    Idle,
    /// A record moved into the buffer.
    Buffered,
    /// A record moved into the buffer, which now holds a full batch: the
    /// server asks for a flush.
    BufferFull,
}

/// Moves the first complete record pending from a client into the buffer.
pub fn process_next_message(assembler: &mut LineAssembler, buffer: &mut LogBuffer) -> (r: Intake)
    ensures
        (final(assembler)@, final(buffer)@) == intake_step(old(assembler)@, old(buffer)@),
        r == Intake::Idle <==> records_of(old(assembler)@).len() == 0,
        r == Intake::BufferFull <==> (r != Intake::Idle && final(buffer)@.len() >= BATCH_SIZE),
        records_of(old(assembler)@).len() > 0 ==> records_of(final(assembler)@) == records_of(
            old(assembler)@,
        ).drop_first() && final(buffer)@ == old(buffer)@.push(records_of(old(assembler)@)[0]),
        remainder_of(final(assembler)@) == remainder_of(old(assembler)@),
{
    proof {
        lemma_newline_index(old(assembler)@);
    }
    match assembler.next_message() {
        None => Intake::Idle,
        Some(message) => {
            proof {
                assert(records_of(old(assembler)@)[0] == message@);
                assert(records_of(old(assembler)@).drop_first() == records_of(assembler@));
            }
            if buffer.push(message) {
                Intake::BufferFull
            } else {
                Intake::Buffered
            }
        },
    }
}

} // verus!
