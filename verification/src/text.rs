//! Character-level text model shared by every component: where records end,
//! how a received text splits into lines, and the decimal form of numbers.
use vstd::prelude::*;
use vstd::string::*;

verus! {

/// `true` when `s` holds no record terminator.
pub open spec fn no_newline(s: Seq<char>) -> bool {
    forall|i: int| 0 <= i < s.len() ==> s[i] != '\n'
}

/// Index of the first `'\n'` in `s`, or `s.len()` when there is none.
pub open spec fn newline_index(s: Seq<char>) -> nat
    decreases s.len(),
{
    if s.len() == 0 {
        0
    } else if s[0] == '\n' {
        0
    } else {
        1 + newline_index(s.drop_first())
    }
}

/// The first newline of `s` is at `k` (or `k == s.len()` when `s` has none).
pub open spec fn first_newline_at(s: Seq<char>, k: int) -> bool {
    &&& 0 <= k <= s.len()
    &&& forall|j: int| 0 <= j < k ==> s[j] != '\n'
    &&& k < s.len() ==> s[k] == '\n'
}

/// The complete records of `s`: the texts before each `'\n'`, in order.
pub open spec fn records_of(s: Seq<char>) -> Seq<Seq<char>>
    decreases s.len(),
{
    let k = newline_index(s);
    if k >= s.len() {
        seq![]
    } else {
        seq![s.take(k as int)] + records_of(s.skip(k as int + 1))
    }
}

/// What follows the last `'\n'` of `s` (all of `s` when it has none).
pub open spec fn remainder_of(s: Seq<char>) -> Seq<char>
    decreases s.len(),
{
    let k = newline_index(s);
    if k >= s.len() {
        s
    } else {
        remainder_of(s.skip(k as int + 1))
    }
}

/// `s` without one trailing carriage return.
pub open spec fn strip_cr(s: Seq<char>) -> Seq<char> {
    if s.len() > 0 && s.last() == '\r' {
        s.drop_last()
    } else {
        s
    }
}

/// The lines of a text: split at `"\n"` or `"\r\n"`, terminators dropped,
/// the final terminator optional (no empty line after it).
pub open spec fn lines_of(s: Seq<char>) -> Seq<Seq<char>>
    decreases s.len(),
{
    if s.len() == 0 {
        seq![]
    } else {
        let k = newline_index(s);
        if k >= s.len() {
            seq![s]
        } else {
            seq![strip_cr(s.take(k as int))] + lines_of(s.skip(k as int + 1))
        }
    }
}

/// The wire form of a sequence of records: each one followed by `'\n'`.
pub open spec fn wire_of(records: Seq<Seq<char>>) -> Seq<char>
    decreases records.len(),
{
    if records.len() == 0 {
        seq![]
    } else {
        wire_of(records.drop_last()) + records.last() + seq!['\n']
    }
}

/// A record that a `'\n'`-terminated wire form carries back unchanged as a line.
pub open spec fn line_safe(r: Seq<char>) -> bool {
    &&& no_newline(r)
    &&& !(r.len() > 0 && r.last() == '\r')
}

/// The character of decimal digit `d`.
pub open spec fn digit_char(d: nat) -> char {
    if d == 0 {
        '0'
    } else if d == 1 {
        '1'
    } else if d == 2 {
        '2'
    } else if d == 3 {
        '3'
    } else if d == 4 {
        '4'
    } else if d == 5 {
        '5'
    } else if d == 6 {
        '6'
    } else if d == 7 {
        '7'
    } else if d == 8 {
        '8'
    } else {
        '9'
    }
}

/// Decimal representation of `n`, without sign or leading zeros.
pub open spec fn decimal(n: nat) -> Seq<char>
    decreases n,
{
    if n < 10 {
        seq![digit_char(n)]
    } else {
        decimal(n / 10) + seq![digit_char(n % 10)]
    }
}

pub proof fn lemma_newline_index(s: Seq<char>)
    ensures
        first_newline_at(s, newline_index(s) as int),
    decreases s.len(),
{
    if s.len() > 0 && s[0] != '\n' {
        lemma_newline_index(s.drop_first());
        let k = newline_index(s.drop_first()) as int;
        assert forall|j: int| 0 <= j < k + 1 implies s[j] != '\n' by {
            if j > 0 {
                assert(s[j] == s.drop_first()[j - 1]);
            }
        }
    }
}

/// The first newline is unique: any `k` with the first-newline property is `newline_index`.
pub proof fn lemma_newline_index_unique(s: Seq<char>, k: int)
    requires
        first_newline_at(s, k),
    ensures
        newline_index(s) == k,
{
    lemma_newline_index(s);
    let m = newline_index(s) as int;
    if m < k {
        assert(s[m] == '\n');
    } else if k < m {
        assert(s[k] == '\n');
    }
}

pub proof fn lemma_no_newline_index(s: Seq<char>)
    ensures
        no_newline(s) <==> newline_index(s) >= s.len(),
{
    lemma_newline_index(s);
    if no_newline(s) {
        if newline_index(s) < s.len() {
            assert(s[newline_index(s) as int] == '\n');
        }
    }
}

/// Every record and the remainder are free of `'\n'`.
pub proof fn lemma_records_have_no_newline(s: Seq<char>)
    ensures
        forall|i: int| 0 <= i < records_of(s).len() ==> no_newline(#[trigger] records_of(s)[i]),
        no_newline(remainder_of(s)),
    decreases s.len(),
{
    lemma_newline_index(s);
    let k = newline_index(s);
    if k >= s.len() {
        lemma_no_newline_index(s);
    } else {
        lemma_records_have_no_newline(s.skip(k as int + 1));
        let rest = records_of(s.skip(k as int + 1));
        assert(records_of(s) == seq![s.take(k as int)] + rest);
        assert forall|i: int| 0 <= i < records_of(s).len() implies no_newline(
            #[trigger] records_of(s)[i],
        ) by {
            if i > 0 {
                assert(records_of(s)[i] == rest[i - 1]);
            }
        }
    }
}

/// The wire form of a sequence extended by one record.
pub proof fn lemma_wire_push(records: Seq<Seq<char>>, r: Seq<char>)
    ensures
        wire_of(records.push(r)) == wire_of(records) + r + seq!['\n'],
{
    assert(records.push(r).drop_last() == records);
}

/// The wire form of a sequence whose first record is `r`.
pub proof fn lemma_wire_prepend(r: Seq<char>, records: Seq<Seq<char>>)
    ensures
        wire_of(seq![r] + records) == r + seq!['\n'] + wire_of(records),
    decreases records.len(),
{
    if records.len() == 0 {
        assert(seq![r] + records == seq![r]);
        assert(seq![r].drop_last() == Seq::<Seq<char>>::empty());
        assert(wire_of(seq![r]) == wire_of(Seq::<Seq<char>>::empty()) + r + seq!['\n']);
        assert(r + seq!['\n'] + Seq::<char>::empty() == r + seq!['\n']);
    } else {
        let front = records.drop_last();
        lemma_wire_prepend(r, front);
        assert((seq![r] + records).drop_last() == seq![r] + front);
        assert((seq![r] + records).last() == records.last());
        assert(r + seq!['\n'] + wire_of(front) + records.last() + seq!['\n'] == r + seq!['\n']
            + (wire_of(front) + records.last() + seq!['\n']));
    }
}

/// Nothing is lost by framing: the records, each with its `'\n'`, followed by the
/// remainder, spell out the text again.
pub proof fn lemma_records_reassemble(s: Seq<char>)
    ensures
        wire_of(records_of(s)) + remainder_of(s) == s,
    decreases s.len(),
{
    lemma_newline_index(s);
    let k = newline_index(s);
    if k >= s.len() {
        assert(wire_of(records_of(s)) == Seq::<char>::empty());
        assert(Seq::<char>::empty() + s == s);
    } else {
        let tail = s.skip(k as int + 1);
        lemma_records_reassemble(tail);
        lemma_wire_prepend(s.take(k as int), records_of(tail));
        assert(s.take(k as int) + seq!['\n'] + tail == s);
        assert(s.take(k as int) + seq!['\n'] + wire_of(records_of(tail)) + remainder_of(tail)
            == s.take(k as int) + seq!['\n'] + (wire_of(records_of(tail)) + remainder_of(tail)));
    }
}

/// Records of a text that starts with a record-free part `a` followed by `'\n'`.
proof fn lemma_first_record(a: Seq<char>, b: Seq<char>)
    requires
        no_newline(a),
    ensures
        newline_index(a + seq!['\n'] + b) == a.len(),
        (a + seq!['\n'] + b).take(a.len() as int) == a,
        (a + seq!['\n'] + b).skip(a.len() as int + 1) == b,
{
    let s = a + seq!['\n'] + b;
    assert(first_newline_at(s, a.len() as int)) by {
        assert forall|j: int| 0 <= j < a.len() implies s[j] != '\n' by {
            assert(s[j] == a[j]);
        }
        assert(s[a.len() as int] == '\n');
    }
    lemma_newline_index_unique(s, a.len() as int);
    assert(s.take(a.len() as int) == a);
    assert(s.skip(a.len() as int + 1) == b);
}

/// Framing the wire form of newline-free records gives back those records, with
/// whatever followed them as the remainder.
pub proof fn lemma_records_of_wire(records: Seq<Seq<char>>, rest: Seq<char>)
    requires
        forall|i: int| 0 <= i < records.len() ==> no_newline(#[trigger] records[i]),
    ensures
        records_of(wire_of(records) + rest) == records + records_of(rest),
        remainder_of(wire_of(records) + rest) == remainder_of(rest),
    decreases records.len(),
{
    if records.len() > 0 {
        let r = records[0];
        let tail = records.drop_first();
        assert(seq![r] + tail == records);
        assert forall|i: int| 0 <= i < tail.len() implies no_newline(#[trigger] tail[i]) by {
            assert(tail[i] == records[i + 1]);
        }
        lemma_records_of_wire(tail, rest);
        lemma_wire_prepend(r, tail);
        let s = wire_of(records) + rest;
        let b = wire_of(tail) + rest;
        assert(s == r + seq!['\n'] + b);
        lemma_first_record(r, b);
        assert(s.len() > r.len());
        assert(records_of(s) == seq![r] + records_of(b));
        assert(seq![r] + (tail + records_of(rest)) == records + records_of(rest));
    } else {
        assert(wire_of(records) + rest == rest);
        assert(records + records_of(rest) == records_of(rest));
    }
}

/// Receiving a text in two parts frames it exactly as receiving it whole: the
/// records of `a + b` are those of `a` followed by those of what `a` left
/// pending extended by `b`.
pub proof fn lemma_records_chunked(a: Seq<char>, b: Seq<char>)
    ensures
        records_of(a + b) == records_of(a) + records_of(remainder_of(a) + b),
        remainder_of(a + b) == remainder_of(remainder_of(a) + b),
{
    lemma_records_reassemble(a);
    lemma_records_have_no_newline(a);
    let recs = records_of(a);
    let rem = remainder_of(a);
    assert(a + b == wire_of(recs) + (rem + b)) by {
        assert(a + b == (wire_of(recs) + rem) + b);
    }
    lemma_records_of_wire(recs, rem + b);
}

/// The lines of the wire form of line-safe records are those records.
pub proof fn lemma_lines_of_wire(records: Seq<Seq<char>>)
    requires
        forall|i: int| 0 <= i < records.len() ==> line_safe(#[trigger] records[i]),
    ensures
        lines_of(wire_of(records)) == records,
    decreases records.len(),
{
    if records.len() > 0 {
        let r = records[0];
        let tail = records.drop_first();
        assert(seq![r] + tail == records);
        assert forall|i: int| 0 <= i < tail.len() implies line_safe(#[trigger] tail[i]) by {
            assert(tail[i] == records[i + 1]);
        }
        lemma_lines_of_wire(tail);
        lemma_wire_prepend(r, tail);
        assert(line_safe(records[0]));
        lemma_first_record(r, wire_of(tail));
        let s = wire_of(records);
        assert(s.len() > r.len());
        assert(strip_cr(r) == r);
        assert(lines_of(s) == seq![r] + lines_of(wire_of(tail)));
    } else {
        assert(wire_of(records).len() == 0);
    }
}

/// The lines of the wire form of newline-free records are those records, each
/// without one trailing `'\r'`.
pub proof fn lemma_lines_of_wire_strip(records: Seq<Seq<char>>)
    requires
        forall|i: int| 0 <= i < records.len() ==> no_newline(#[trigger] records[i]),
    ensures
        lines_of(wire_of(records)) == records.map_values(|r: Seq<char>| strip_cr(r)),
    decreases records.len(),
{
    let f = |r: Seq<char>| strip_cr(r);
    if records.len() > 0 {
        let r = records[0];
        let tail = records.drop_first();
        assert(seq![r] + tail == records);
        assert forall|i: int| 0 <= i < tail.len() implies no_newline(#[trigger] tail[i]) by {
            assert(tail[i] == records[i + 1]);
        }
        lemma_lines_of_wire_strip(tail);
        lemma_wire_prepend(r, tail);
        assert(no_newline(records[0]));
        lemma_first_record(r, wire_of(tail));
        let s = wire_of(records);
        assert(s.len() > r.len());
        assert(lines_of(s) == seq![strip_cr(r)] + lines_of(wire_of(tail)));
        assert(records.map_values(f) == seq![strip_cr(r)] + tail.map_values(f));
    } else {
        assert(wire_of(records).len() == 0);
        assert(records.map_values(f).len() == 0);
    }
}

/// The lines of a text are its records with any trailing `'\r'` removed,
/// followed by the unterminated remainder when it is not empty.
pub proof fn lemma_lines_are_records(s: Seq<char>)
    ensures
        lines_of(s) == records_of(s).map_values(|r: Seq<char>| strip_cr(r)) + (if remainder_of(
            s,
        ).len() == 0 {
            Seq::<Seq<char>>::empty()
        } else {
            seq![remainder_of(s)]
        }),
    decreases s.len(),
{
    lemma_newline_index(s);
    let k = newline_index(s);
    if s.len() == 0 {
        assert(records_of(s).map_values(|r: Seq<char>| strip_cr(r)) == Seq::<Seq<char>>::empty());
    } else if k >= s.len() {
        assert(records_of(s).map_values(|r: Seq<char>| strip_cr(r)) == Seq::<Seq<char>>::empty());
        assert(Seq::<Seq<char>>::empty() + seq![s] == seq![s]);
    } else {
        let tail = s.skip(k as int + 1);
        lemma_lines_are_records(tail);
        let f = |r: Seq<char>| strip_cr(r);
        let recs = records_of(s);
        assert(recs == seq![s.take(k as int)] + records_of(tail));
        assert(recs.map_values(f) == seq![strip_cr(s.take(k as int))] + records_of(tail).map_values(
            f,
        ));
    }
}

/// The character `'0' + d`, as a one-character literal.
pub fn digit_str(d: u64) -> (r: &'static str)
    requires
        d < 10,
    ensures
        r@ == seq![digit_char(d as nat)],
{
    match d {
        0 => {
            proof { reveal_strlit("0"); }
            "0"
        },
        1 => {
            proof { reveal_strlit("1"); }
            "1"
        },
        2 => {
            proof { reveal_strlit("2"); }
            "2"
        },
        3 => {
            proof { reveal_strlit("3"); }
            "3"
        },
        4 => {
            proof { reveal_strlit("4"); }
            "4"
        },
        5 => {
            proof { reveal_strlit("5"); }
            "5"
        },
        6 => {
            proof { reveal_strlit("6"); }
            "6"
        },
        7 => {
            proof { reveal_strlit("7"); }
            "7"
        },
        8 => {
            proof { reveal_strlit("8"); }
            "8"
        },
        _ => {
            proof { reveal_strlit("9"); }
            "9"
        },
    }
}

/// Appends the decimal form of `n` to `s`.
pub fn append_decimal(s: &mut String, n: u64)
    ensures
        final(s)@ == old(s)@ + decimal(n as nat),
    decreases n,
{
    if n >= 10 {
        append_decimal(s, n / 10);
    }
    s.append(digit_str(n % 10));
    proof {
        if n >= 10 {
            assert(old(s)@ + decimal((n / 10) as nat) + seq![digit_char((n % 10) as nat)] == old(
                s,
            )@ + (decimal((n / 10) as nat) + seq![digit_char((n % 10) as nat)]));
        }
    }
}

/// Position of the first `'\n'` of `s`, if any.
pub fn find_newline(s: &str) -> (r: Option<usize>)
    ensures
        r is None <==> newline_index(s@) >= s@.len(),
        r matches Some(k) ==> k == newline_index(s@) && k < s@.len(),
{
    let n = s.unicode_len();
    let mut i: usize = 0;
    for c in it: s.chars()
        invariant
            n == s@.len(),
            it.seq() == s@,
            i == it.index(),
            i <= n,
            forall|j: int| 0 <= j < i ==> s@[j] != '\n',
    {
        if c == '\n' {
            proof {
                assert(first_newline_at(s@, i as int));
                lemma_newline_index_unique(s@, i as int);
            }
            return Some(i);
        }
        i = i + 1;
    }
    proof {
        assert(first_newline_at(s@, s@.len() as int));
        lemma_newline_index_unique(s@, s@.len() as int);
    }
    None
}

} // verus!
