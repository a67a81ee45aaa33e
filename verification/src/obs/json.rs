//! The JSON that is written: escaped texts, pairs, and log lines.

use vstd::prelude::*;
use crate::hex::hex_digit;
use crate::text::{chars_of, dec_text, string_of, u64_text};

verus! {

/// How a character stands inside a JSON text.
pub open spec fn escaped_char(c: char) -> Seq<char> {
    if c == '"' {
        seq!['\\', '"']
    } else if c == '\\' {
        seq!['\\', '\\']
    } else if c == '\n' {
        seq!['\\', 'n']
    } else if c == '\r' {
        seq!['\\', 'r']
    } else if c == '\t' {
        seq!['\\', 't']
    } else if (c as u32) < 0x20 {
        seq![
            '\\',
            'u',
            '0',
            '0',
            hex_digit((c as u32 / 16) as int),
            hex_digit((c as u32 % 16) as int),
        ]
    } else {
        seq![c]
    }
}

/// How a text stands inside a JSON text.
pub open spec fn escaped(s: Seq<char>) -> Seq<char>
    decreases s.len(),
{
    if s.len() == 0 {
        Seq::empty()
    } else {
        escaped(s.drop_last()) + escaped_char(s.last())
    }
}

/// A pair, with the value quoted or as it stands.
pub open spec fn pair_text(k: Seq<char>, v: Seq<char>, quote: bool) -> Seq<char> {
    seq!['"'] + escaped(k) + seq!['"', ':'] + if quote {
        seq!['"'] + escaped(v) + seq!['"']
    } else {
        v
    }
}

/// A text as it stands inside a JSON text.
pub fn json_escape(s: &str) -> (r: String)
    ensures
        r@ == escaped(s@),
{
    let chars = chars_of(s);
    let mut out: Vec<char> = Vec::new();
    let mut i: usize = 0;
    assert(chars@.take(0) =~= Seq::empty());
    while i < chars.len()
        invariant
            i <= chars@.len(),
            out@ == escaped(chars@.take(i as int)),
        decreases chars.len() - i,
    {
        let c: char = chars[i];
        let ghost before = out@;
        proof {
            assert(chars@.take(i + 1).drop_last() =~= chars@.take(i as int));
        }
        if c == '"' {
            out.push('\\');
            out.push('"');
        } else if c == '\\' {
            out.push('\\');
            out.push('\\');
        } else if c == '\n' {
            out.push('\\');
            out.push('n');
        } else if c == '\r' {
            out.push('\\');
            out.push('r');
        } else if c == '\t' {
            out.push('\\');
            out.push('t');
        } else if (c as u32) < 0x20 {
            let n: u32 = c as u32;
            out.push('\\');
            out.push('u');
            out.push('0');
            out.push('0');
            out.push(crate::hex::digit_char((n / 16) as u8));
            out.push(crate::hex::digit_char((n % 16) as u8));
        } else {
            out.push(c);
        }
        assert(out@ =~= before + escaped_char(c));
        i += 1;
    }
    assert(chars@.take(chars@.len() as int) =~= chars@);
    string_of(out.as_slice())
}

/// A pair.
pub fn json_pair(k: &str, v: &str, quote_value: bool) -> (r: String)
    ensures
        r@ == pair_text(k@, v@, quote_value),
{
    let mut out = String::new();
    out.push('"');
    out.append(json_escape(k).as_str());
    out.push('"');
    out.push(':');
    if quote_value {
        out.push('"');
        out.append(json_escape(v).as_str());
        out.push('"');
    } else {
        out.append(v);
    }
    assert(out@ =~= pair_text(k@, v@, quote_value));
    out
}

/// The further pairs of a log line.
pub open spec fn more_pairs(fields: Seq<(Seq<char>, Seq<char>)>) -> Seq<char>
    decreases fields.len(),
{
    if fields.len() == 0 {
        Seq::empty()
    } else {
        more_pairs(fields.drop_last()) + seq![','] + pair_text(
            fields.last().0,
            fields.last().1,
            true,
        )
    }
}

/// A line of the log.
pub open spec fn log_text(
    at: u64,
    level: Seq<char>,
    event: Seq<char>,
    fields: Seq<(Seq<char>, Seq<char>)>,
) -> Seq<char> {
    seq!['{'] + pair_text("at"@, dec_text(at as nat), false) + seq![','] + pair_text(
        "level"@,
        level,
        true,
    ) + seq![','] + pair_text("event"@, event, true) + more_pairs(fields) + seq!['}', '\n']
}

/// A line of the log: the logical time, the level, the event and its fields.
pub fn log_line(at: u64, level: &str, event: &str, fields: &Vec<(String, String)>) -> (r: String)
    ensures
        r@ == log_text(at, level@, event@, fields.deep_view()),
{
    let mut out = String::new();
    out.push('{');
    out.append(json_pair("at", u64_text(at).as_str(), false).as_str());
    out.push(',');
    out.append(json_pair("level", level, true).as_str());
    out.push(',');
    out.append(json_pair("event", event, true).as_str());
    let ghost head = out@;
    let ghost all = fields.deep_view();
    let mut i: usize = 0;
    assert(all.take(0) =~= Seq::empty());
    assert(out@ =~= head + more_pairs(all.take(0)));
    while i < fields.len()
        invariant
            i <= fields@.len(),
            all == fields.deep_view(),
            out@ == head + more_pairs(all.take(i as int)),
        decreases fields.len() - i,
    {
        let ghost before = out@;
        assert(all.take(i + 1).drop_last() =~= all.take(i as int));
        assert(all[i as int] == (fields@[i as int].0@, fields@[i as int].1@));
        out.push(',');
        let p = json_pair(fields[i].0.as_str(), fields[i].1.as_str(), true);
        out.append(p.as_str());
        assert(out@ =~= before + (seq![','] + p@));
        i += 1;
        assert(out@ =~= head + more_pairs(all.take(i as int)));
    }
    assert(all.take(fields@.len() as int) =~= all);
    out.push('}');
    out.push('\n');
    assert(out@ =~= log_text(at, level@, event@, all));
    out
}

/// An escaped text holds no control characters, so a log line is one line.
pub proof fn lemma_escaped_one_line(s: Seq<char>)
    ensures
        forall|i: int| 0 <= i < escaped(s).len() ==> (#[trigger] escaped(s)[i]) as u32 >= 0x20,
    decreases s.len(),
{
    if s.len() > 0 {
        let front = escaped(s.drop_last());
        let c = s.last();
        let e = escaped_char(c);
        lemma_escaped_one_line(s.drop_last());
        assert(e.len() <= 6);
        assert forall|j: int| 0 <= j < e.len() implies (#[trigger] e[j]) as u32 >= 0x20 by {
            if (c as u32) < 0x20 {
                assert(hex_digit((c as u32 / 16) as int) as u32 >= 0x20);
                assert(hex_digit((c as u32 % 16) as int) as u32 >= 0x20);
            }
        }
        assert forall|i: int| 0 <= i < escaped(s).len() implies (#[trigger] escaped(s)[i]) as u32
            >= 0x20 by {
            if i >= front.len() {
                assert(escaped(s)[i] == e[i - front.len()]);
            } else {
                assert(escaped(s)[i] == front[i]);
            }
        }
    }
}

} // verus!
