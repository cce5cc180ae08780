//! The destination's decision: the lines of what a connection delivered are
//! stored, in order, after those stored before.
use vstd::prelude::*;
use vstd::string::*;

use crate::text::{
    first_newline_at, lemma_newline_index_unique, lemma_no_newline_index, lines_of, newline_index,
    no_newline, strip_cr,
};

verus! {

/// The lines of `text`: split at `"\n"` and `"\r\n"`, without the terminators,
/// with no empty line after a final terminator.
pub fn split_lines(text: &str) -> (lines: Vec<String>)
    ensures
        lines.deep_view() == lines_of(text@),
{
    let ghost s = text@;
    let n = text.unicode_len();
    let mut lines: Vec<String> = Vec::new();
    let mut start: usize = 0;
    let mut i: usize = 0;
    let mut prev_cr = false;
    proof {
        assert(s.skip(0) == s);
        assert(lines.deep_view() + lines_of(s) == lines_of(s));
    }
    for c in it: text.chars()
        invariant
            n == s.len(),
            s == text@,
            it.seq() == s,
            i == it.index(),
            start <= i <= n,
            forall|j: int| start <= j < i ==> s[j] != '\n',
            prev_cr == (start < i && s[i - 1] == '\r'),
            lines.deep_view() + lines_of(s.skip(start as int)) == lines_of(s),
    {
        if c == '\n' {
            let end = if prev_cr {
                i - 1
            } else {
                i
            };
            let line = text.substring_char(start, end).to_owned();
            let ghost before = lines.deep_view();
            lines.push(line);
            proof {
                let t = s.skip(start as int);
                let k = (i - start) as int;
                assert(first_newline_at(t, k)) by {
                    assert forall|j: int| 0 <= j < k implies t[j] != '\n' by {
                        assert(t[j] == s[start + j]);
                    }
                    assert(t[k] == s[i as int]);
                }
                lemma_newline_index_unique(t, k);
                assert(t.take(k) == s.subrange(start as int, i as int));
                assert(strip_cr(t.take(k)) == s.subrange(start as int, end as int));
                assert(t.skip(k + 1) == s.skip(i + 1));
                assert(lines_of(t) == seq![strip_cr(t.take(k))] + lines_of(s.skip(i + 1)));
                assert(lines.deep_view() == before.push(s.subrange(start as int, end as int)));
                assert(before + lines_of(t) == lines.deep_view() + lines_of(s.skip(i + 1)));
            }
            start = i + 1;
            prev_cr = false;
        } else {
            prev_cr = c == '\r';
        }
        i = i + 1;
    }
    proof {
        let t = s.skip(start as int);
        assert(no_newline(t)) by {
            assert forall|j: int| 0 <= j < t.len() implies t[j] != '\n' by {
                assert(t[j] == s[start + j]);
            }
        }
        lemma_no_newline_index(t);
    }
    if start < n {
        let line = text.substring_char(start, n).to_owned();
        let ghost before = lines.deep_view();
        lines.push(line);
        proof {
            let t = s.skip(start as int);
            assert(t == s.subrange(start as int, n as int));
            assert(lines_of(t) == seq![t]);
            assert(lines.deep_view() == before.push(t));
        }
    } else {
        proof {
            assert(s.skip(start as int).len() == 0);
            assert(lines.deep_view() + Seq::<Seq<char>>::empty() == lines.deep_view());
        }
    }
    lines
}

/// Stores the lines that one connection delivered after those stored before.
pub fn store_received(messages: &mut Vec<String>, text: &str)
    ensures
        final(messages).deep_view() == old(messages).deep_view() + lines_of(text@),
{
    let lines = split_lines(text);
    let n = lines.len();
    let ghost start = messages.deep_view();
    for i in 0..n
        invariant
            n == lines@.len(),
            lines.deep_view() == lines_of(text@),
            messages.deep_view() == start + lines.deep_view().take(i as int),
    {
        let ghost before = messages.deep_view();
        messages.push(lines[i].clone());
        proof {
            assert(messages.deep_view() == before.push(lines@[i as int]@));
            assert(lines.deep_view().take(i as int + 1) == lines.deep_view().take(i as int).push(
                lines@[i as int]@,
            ));
            assert(start + lines.deep_view().take(i as int + 1) == (start + lines.deep_view().take(
                i as int,
            )).push(lines@[i as int]@));
        }
    }
    proof {
        assert(lines.deep_view().take(n as int) == lines.deep_view());
    }
}

} // verus!
