//! A small TOML subset: `[section]` headers, `key = value` pairs with string,
//! integer, float, boolean and array values, `#` comments and blank lines.

use vstd::prelude::*;
use crate::text::{
    char_views, chars_between, chars_of, dec_text, find_chars, find_from, i64_of, is_space,
    lemma_decimal_read, lemma_find, lemma_trimmed, occurs_at, parse_i64, pieces, split_marked, str_eq,
    string_of, trim_back, trim_chars, trim_front, trimmed, u64_text,
};
use crate::textmap::TextMap;

verus! {

/// A value of the configuration language. A float is kept as its text, with
/// the underscores taken out.
#[derive(Debug)]
pub enum TomlValue {
    Str(String),
    Int(i64),
    Float(String),
    Bool(bool),
    Array(Vec<TomlValue>),
}

/// A configuration value as a mathematical object.
#[verifier::ext_equal]
pub enum TomlV {
    Str(Seq<char>),
    Int(i64),
    Float(Seq<char>),
    Bool(bool),
    Array(Seq<TomlV>),
}

/// What a configuration value denotes.
pub open spec fn toml_view(v: TomlValue) -> TomlV
    decreases v,
{
    match v {
        TomlValue::Str(s) => TomlV::Str(s@),
        TomlValue::Int(i) => TomlV::Int(i),
        TomlValue::Float(s) => TomlV::Float(s@),
        TomlValue::Bool(b) => TomlV::Bool(b),
        TomlValue::Array(a) => TomlV::Array(
            Seq::new(
                a@.len(),
                |i: int|
                    if 0 <= i < a@.len() {
                        toml_view(a@[i])
                    } else {
                        TomlV::Bool(false)
                    },
            ),
        ),
    }
}

impl View for TomlValue {
    type V = TomlV;

    open spec fn view(&self) -> TomlV {
        toml_view(*self)
    }
}

impl DeepView for TomlValue {
    type V = TomlV;

    open spec fn deep_view(&self) -> TomlV {
        toml_view(*self)
    }
}

/// A number read from a value, still to be turned into a float.
#[derive(Debug)]
pub enum FloatText {
    Literal(String),
    Integer(i64),
}

impl TomlValue {
    pub fn as_str(&self) -> (r: Option<&str>)
        ensures
            match r {
                Some(s) => self@ == TomlV::Str(s@),
                None => !(self@ is Str),
            },
    {
        match self {
            TomlValue::Str(s) => Some(s.as_str()),
            _ => None,
        }
    }

    pub fn as_int(&self) -> (r: Option<i64>)
        ensures
            r == match self@ {
                TomlV::Int(i) => Some(i),
                _ => None,
            },
    {
        match self {
            TomlValue::Int(i) => Some(*i),
            _ => None,
        }
    }

    /// The number of a float or an integer.
    pub fn as_float(&self) -> (r: Option<FloatText>)
        ensures
            match r {
                Some(FloatText::Literal(s)) => self@ == TomlV::Float(s@),
                Some(FloatText::Integer(i)) => self@ == TomlV::Int(i),
                None => !(self@ is Float) && !(self@ is Int),
            },
    {
        match self {
            TomlValue::Float(s) => Some(FloatText::Literal(s.clone())),
            TomlValue::Int(i) => Some(FloatText::Integer(*i)),
            _ => None,
        }
    }

    pub fn as_bool(&self) -> (r: Option<bool>)
        ensures
            r == match self@ {
                TomlV::Bool(b) => Some(b),
                _ => None,
            },
    {
        match self {
            TomlValue::Bool(b) => Some(*b),
            _ => None,
        }
    }
}

/// Where the comment of a line begins, or the end of the line; a `#` within
/// quotes begins none.
pub open spec fn comment_at(s: Seq<char>, i: int, in_str: bool, escape: bool) -> int
    decreases s.len() - i,
{
    if i >= s.len() {
        s.len() as int
    } else if escape {
        comment_at(s, i + 1, in_str, false)
    } else if s[i] == '\\' && in_str {
        comment_at(s, i + 1, in_str, true)
    } else if s[i] == '"' {
        comment_at(s, i + 1, !in_str, false)
    } else if s[i] == '#' && !in_str {
        i
    } else {
        comment_at(s, i + 1, in_str, false)
    }
}

/// The line without its comment and the white space around it.
pub open spec fn bare_line(raw: Seq<char>) -> Seq<char> {
    trimmed(raw.take(comment_at(raw, 0, false, false)))
}

fn strip_comment(line: &[char]) -> (r: usize)
    ensures
        r == comment_at(line@, 0, false, false),
        r <= line@.len(),
{
    let mut in_str: bool = false;
    let mut escape: bool = false;
    let mut i: usize = 0;
    while i < line.len()
        invariant
            i <= line@.len(),
            comment_at(line@, 0, false, false) == comment_at(line@, i as int, in_str, escape),
        decreases line.len() - i,
    {
        let c: char = line[i];
        if escape {
            escape = false;
        } else if c == '\\' && in_str {
            escape = true;
        } else if c == '"' {
            in_str = !in_str;
        } else if c == '#' && !in_str {
            return i;
        }
        i += 1;
    }
    line.len()
}

/// What an escaped character stands for.
pub open spec fn unescaped(c: char) -> Option<char> {
    if c == 'n' {
        Some('\n')
    } else if c == 't' {
        Some('\t')
    } else if c == 'r' {
        Some('\r')
    } else if c == '"' {
        Some('"')
    } else if c == '\\' {
        Some('\\')
    } else {
        None
    }
}

/// The rest of a quoted string from place `i` on, behind what was read before.
pub open spec fn unquote_from(s: Seq<char>, i: int, out: Seq<char>) -> Result<
    Seq<char>,
    Seq<char>,
>
    decreases s.len() - i,
{
    if i >= s.len() {
        Err("unterminated string"@)
    } else if s[i] == '"' {
        if i != s.len() - 1 {
            Err("trailing characters after string"@)
        } else {
            Ok(out)
        }
    } else if s[i] == '\\' {
        if i + 1 >= s.len() {
            Err("dangling escape"@)
        } else {
            match unescaped(s[i + 1]) {
                Some(c) => unquote_from(s, i + 2, out.push(c)),
                None => Err("unknown escape \\"@ + seq![s[i + 1]]),
            }
        }
    } else {
        unquote_from(s, i + 1, out.push(s[i]))
    }
}

/// The content of a quoted string.
pub open spec fn unquote(s: Seq<char>) -> Result<Seq<char>, Seq<char>> {
    if s.len() < 2 || s[0] != '"' {
        Err("expected string"@)
    } else {
        unquote_from(s, 1, Seq::empty())
    }
}

/// An executable outcome matches the one stated.
pub open spec fn same_text(r: Result<String, String>, want: Result<Seq<char>, Seq<char>>) -> bool {
    match (r, want) {
        (Ok(a), Ok(b)) => a@ == b,
        (Err(a), Err(b)) => a@ == b,
        _ => false,
    }
}

fn parse_string(s: &[char]) -> (r: Result<String, String>)
    ensures
        same_text(r, unquote(s@)),
{
    if s.len() < 2 || s[0] != '"' {
        return Err("expected string".to_owned());
    }
    let mut out = String::new();
    let mut i: usize = 1;
    while i < s.len()
        invariant
            1 <= i <= s@.len(),
            unquote(s@) == unquote_from(s@, i as int, out@),
        decreases s.len() - i,
    {
        let c: char = s[i];
        if c == '"' {
            if i != s.len() - 1 {
                return Err("trailing characters after string".to_owned());
            }
            return Ok(out);
        } else if c == '\\' {
            if i + 1 >= s.len() {
                return Err("dangling escape".to_owned());
            }
            let e: char = s[i + 1];
            if e == 'n' {
                out.push('\n');
            } else if e == 't' {
                out.push('\t');
            } else if e == 'r' {
                out.push('\r');
            } else if e == '"' {
                out.push('"');
            } else if e == '\\' {
                out.push('\\');
            } else {
                let mut m = "unknown escape \\".to_owned();
                m.push(e);
                assert(m@ =~= "unknown escape \\"@ + seq![e]);
                return Err(m);
            }
            i += 2;
        } else {
            out.push(c);
            i += 1;
        }
    }
    Err("unterminated string".to_owned())
}

/// Splitting an array body: what was split off, what is being collected, and
/// where the scan stands.
pub struct Splitting {
    pub items: Seq<Seq<char>>,
    pub cur: Seq<char>,
    pub in_str: bool,
    pub escape: bool,
    pub depth: nat,
}

/// One character more.
pub open spec fn split_step(st: Splitting, c: char) -> Splitting {
    if st.escape {
        Splitting { cur: st.cur.push(c), escape: false, ..st }
    } else if c == '\\' && st.in_str {
        Splitting { cur: st.cur.push(c), escape: true, ..st }
    } else if c == '"' {
        Splitting { cur: st.cur.push(c), in_str: !st.in_str, ..st }
    } else if c == '[' && !st.in_str {
        Splitting { cur: st.cur.push(c), depth: st.depth + 1, ..st }
    } else if c == ']' && !st.in_str {
        Splitting {
            cur: st.cur.push(c),
            depth: if st.depth == 0 {
                0
            } else {
                (st.depth - 1) as nat
            },
            ..st
        }
    } else if c == ',' && !st.in_str && st.depth == 0 {
        Splitting { items: st.items.push(st.cur), cur: Seq::empty(), ..st }
    } else {
        Splitting { cur: st.cur.push(c), ..st }
    }
}

/// The scan of some characters.
pub open spec fn split_scan(s: Seq<char>) -> Splitting
    decreases s.len(),
{
    if s.len() == 0 {
        Splitting {
            items: Seq::empty(),
            cur: Seq::empty(),
            in_str: false,
            escape: false,
            depth: 0,
        }
    } else {
        split_step(split_scan(s.drop_last()), s.last())
    }
}

/// The parts of an array body between its own commas; commas in strings and
/// in inner arrays do not count, and a blank last part is dropped.
pub open spec fn array_parts(s: Seq<char>) -> Result<Seq<Seq<char>>, Seq<char>> {
    let st = split_scan(s);
    if st.in_str {
        Err("unterminated string in array"@)
    } else if trimmed(st.cur).len() > 0 {
        Ok(st.items.push(st.cur))
    } else {
        Ok(st.items)
    }
}

proof fn lemma_scan_lengths(s: Seq<char>)
    ensures
        split_scan(s).cur.len() <= s.len(),
        forall|i: int|
            0 <= i < split_scan(s).items.len() ==> (#[trigger] split_scan(s).items[i]).len()
                <= s.len(),
    decreases s.len(),
{
    if s.len() > 0 {
        let d = s.drop_last();
        lemma_scan_lengths(d);
        let a = split_scan(d);
        let b = split_scan(s);
        assert forall|i: int| 0 <= i < b.items.len() implies (#[trigger] b.items[i]).len() <= s.len() by {
            if i < a.items.len() {
                assert(b.items[i] == a.items[i]);
            }
        }
    }
}

fn split_array_items(s: &[char]) -> (r: Result<Vec<Vec<char>>, String>)
    ensures
        match (r, array_parts(s@)) {
            (Ok(a), Ok(b)) => char_views(a@) == b && forall|i: int|
                0 <= i < a@.len() ==> (#[trigger] a@[i])@.len() <= s@.len(),
            (Err(a), Err(b)) => a@ == b,
            _ => false,
        },
{
    let mut items: Vec<Vec<char>> = Vec::new();
    let mut cur: Vec<char> = Vec::new();
    let mut in_str: bool = false;
    let mut escape: bool = false;
    let mut depth: usize = 0;
    let mut i: usize = 0;
    assert(char_views(items@) =~= Seq::<Seq<char>>::empty());
    while i < s.len()
        invariant
            i <= s@.len(),
            depth <= i,
            split_scan(s@.take(i as int)).items == char_views(items@),
            split_scan(s@.take(i as int)).cur == cur@,
            split_scan(s@.take(i as int)).in_str == in_str,
            split_scan(s@.take(i as int)).escape == escape,
            split_scan(s@.take(i as int)).depth == depth,
        decreases s.len() - i,
    {
        let c: char = s[i];
        let ghost before = char_views(items@);
        let ghost cur0 = cur@;
        assert(s@.take(i + 1).drop_last() =~= s@.take(i as int));
        if escape {
            cur.push(c);
            escape = false;
        } else if c == '\\' && in_str {
            cur.push(c);
            escape = true;
        } else if c == '"' {
            in_str = !in_str;
            cur.push(c);
        } else if c == '[' && !in_str {
            depth += 1;
            cur.push(c);
        } else if c == ']' && !in_str {
            if depth > 0 {
                depth -= 1;
            }
            cur.push(c);
        } else if c == ',' && !in_str && depth == 0 {
            items.push(cur);
            cur = Vec::new();
            assert(char_views(items@) =~= before.push(cur0));
        } else {
            cur.push(c);
        }
        i += 1;
    }
    assert(s@.take(s@.len() as int) =~= s@);
    proof {
        lemma_scan_lengths(s@);
    }
    if in_str {
        return Err("unterminated string in array".to_owned());
    }
    let ghost before = char_views(items@);
    assert forall|k: int| 0 <= k < items@.len() implies (#[trigger] items@[k])@.len() <= s@.len() by {
        assert(split_scan(s@).items[k] == items@[k]@);
    }
    if trim_chars(cur.as_slice()).len() > 0 {
        let ghost cur0 = cur@;
        items.push(cur);
        assert(char_views(items@) =~= before.push(cur0));
    }
    Ok(items)
}

/// The end of the digits that begin at place `i`.
pub open spec fn digits_end(s: Seq<char>, i: int) -> int
    decreases s.len() - i,
{
    if 0 <= i < s.len() && '0' <= s[i] && s[i] <= '9' {
        digits_end(s, i + 1)
    } else {
        i
    }
}

/// The place behind an optional sign at place `i`.
pub open spec fn after_sign(s: Seq<char>, i: int) -> int {
    if 0 <= i < s.len() && (s[i] == '+' || s[i] == '-') {
        i + 1
    } else {
        i
    }
}

/// An optional sign, digits with at most one point among or around them, and
/// an optional exponent.
pub open spec fn is_number(s: Seq<char>) -> bool {
    let a = after_sign(s, 0);
    let b = digits_end(s, a);
    let point = b < s.len() && s[b] == '.';
    let end = if point {
        digits_end(s, b + 1)
    } else {
        b
    };
    let some_digit = b > a || (point && end > b + 1);
    &&& some_digit
    &&& end == s.len() || {
        let f = after_sign(s, end + 1);
        let g = digits_end(s, f);
        (s[end] == 'e' || s[end] == 'E') && g > f && g == s.len()
    }
}

fn skip_digits(s: &[char], from: usize) -> (r: usize)
    requires
        from <= s@.len(),
    ensures
        r == digits_end(s@, from as int),
        from <= r <= s@.len(),
{
    let mut i: usize = from;
    while i < s.len() && '0' <= s[i] && s[i] <= '9'
        invariant
            from <= i <= s@.len(),
            digits_end(s@, from as int) == digits_end(s@, i as int),
        decreases s.len() - i,
    {
        i += 1;
    }
    i
}

fn skip_sign(s: &[char], from: usize) -> (r: usize)
    requires
        from <= s@.len(),
    ensures
        r == after_sign(s@, from as int),
        from <= r <= s@.len(),
{
    if from < s.len() && (s[from] == '+' || s[from] == '-') {
        from + 1
    } else {
        from
    }
}

fn number_shaped(s: &[char]) -> (r: bool)
    ensures
        r == is_number(s@),
{
    let a: usize = skip_sign(s, 0);
    let b: usize = skip_digits(s, a);
    let point: bool = b < s.len() && s[b] == '.';
    let end: usize = if point { skip_digits(s, b + 1) } else { b };
    if !(b > a || (point && end > b + 1)) {
        return false;
    }
    if end == s.len() {
        return true;
    }
    if s[end] != 'e' && s[end] != 'E' {
        return false;
    }
    let f: usize = skip_sign(s, end + 1);
    let g: usize = skip_digits(s, f);
    g > f && g == s.len()
}

/// The characters but the underscores.
pub open spec fn no_underscores(s: Seq<char>) -> Seq<char> {
    s.filter(|c: char| c != '_')
}

fn drop_underscores(s: &[char]) -> (r: Vec<char>)
    ensures
        r@ == no_underscores(s@),
{
    let ghost keep = |c: char| c != '_';
    let mut out: Vec<char> = Vec::new();
    let mut i: usize = 0;
    proof {
        reveal(Seq::filter);
    }
    while i < s.len()
        invariant
            i <= s@.len(),
            keep == (|c: char| c != '_'),
            out@ == s@.take(i as int).filter(keep),
        decreases s.len() - i,
    {
        proof {
            reveal(Seq::filter);
            assert(s@.take(i + 1).drop_last() =~= s@.take(i as int));
        }
        if s[i] != '_' {
            out.push(s[i]);
        }
        i += 1;
    }
    assert(s@.take(s@.len() as int) =~= s@);
    out
}

/// A value that is neither quoted nor an array.
pub open spec fn plain_value(s: Seq<char>) -> Result<TomlV, Seq<char>> {
    let c = no_underscores(s);
    if s == "true"@ {
        Ok(TomlV::Bool(true))
    } else if s == "false"@ {
        Ok(TomlV::Bool(false))
    } else if (c.contains('.') || c.contains('e') || c.contains('E')) && is_number(c) {
        Ok(TomlV::Float(c))
    } else {
        match i64_of(c) {
            Some(i) => Ok(TomlV::Int(i)),
            None => Err("cannot parse value: "@ + s),
        }
    }
}

/// The value that a text stands for.
pub open spec fn value_of(text: Seq<char>) -> Result<TomlV, Seq<char>>
    decreases text.len(), 0nat,
{
    let s = trimmed(text);
    if s.len() == 0 || s.len() > text.len() {
        Err("empty value"@)
    } else if s[0] == '"' {
        match unquote(s) {
            Ok(t) => Ok(TomlV::Str(t)),
            Err(e) => Err(e),
        }
    } else if s[0] == '[' {
        if s.last() != ']' {
            Err("unterminated array"@)
        } else {
            let inner = s.subrange(1, s.len() - 1);
            match array_parts(inner) {
                Err(e) => Err(e),
                Ok(parts) => match items_of(parts, inner.len()) {
                    Ok(xs) => Ok(TomlV::Array(xs)),
                    Err(e) => Err(e),
                },
            }
        }
    } else {
        plain_value(s)
    }
}

/// The values of the parts of an array, none of which is longer than `most`;
/// blank parts are passed over.
pub open spec fn items_of(parts: Seq<Seq<char>>, most: nat) -> Result<Seq<TomlV>, Seq<char>>
    decreases most, parts.len() + 1,
{
    if parts.len() == 0 {
        Ok(Seq::empty())
    } else {
        match items_of(parts.drop_last(), most) {
            Err(e) => Err(e),
            Ok(xs) => {
                let p = trimmed(parts.last());
                if p.len() == 0 || p.len() > most {
                    Ok(xs)
                } else {
                    match value_of(p) {
                        Ok(v) => Ok(xs.push(v)),
                        Err(e) => Err(e),
                    }
                }
            },
        }
    }
}

/// The values of a list.
pub open spec fn toml_views(s: Seq<TomlValue>) -> Seq<TomlV> {
    Seq::new(s.len(), |i: int| s[i]@)
}

fn holds_char(s: &[char], c: char) -> (r: bool)
    ensures
        r == s@.contains(c),
{
    let mut i: usize = 0;
    while i < s.len()
        invariant
            i <= s@.len(),
            forall|j: int| 0 <= j < i ==> s@[j] != c,
        decreases s.len() - i,
    {
        if s[i] == c {
            return true;
        }
        i += 1;
    }
    false
}

fn parse_plain(s: &[char]) -> (r: Result<TomlValue, String>)
    ensures
        match (r, plain_value(s@)) {
            (Ok(a), Ok(b)) => a@ == b,
            (Err(a), Err(b)) => a@ == b,
            _ => false,
        },
{
    let text = string_of(s);
    if str_eq(text.as_str(), "true") {
        return Ok(TomlValue::Bool(true));
    }
    if str_eq(text.as_str(), "false") {
        return Ok(TomlValue::Bool(false));
    }
    let c = drop_underscores(s);
    if (holds_char(c.as_slice(), '.') || holds_char(c.as_slice(), 'e') || holds_char(
        c.as_slice(),
        'E',
    )) && number_shaped(c.as_slice()) {
        return Ok(TomlValue::Float(string_of(c.as_slice())));
    }
    let cleaned = string_of(c.as_slice());
    match parse_i64(cleaned.as_str()) {
        Some(i) => Ok(TomlValue::Int(i)),
        None => {
            let mut m = "cannot parse value: ".to_owned();
            m.append(text.as_str());
            Err(m)
        },
    }
}

proof fn lemma_items_error(parts: Seq<Seq<char>>, most: nat, n: int)
    requires
        0 <= n <= parts.len(),
    ensures
        match items_of(parts.take(n), most) {
            Err(e) => items_of(parts, most) == Err::<Seq<TomlV>, _>(e),
            Ok(_) => true,
        },
    decreases parts.len(),
{
    if n < parts.len() {
        lemma_items_error(parts.drop_last(), most, n);
        assert(parts.drop_last().take(n) =~= parts.take(n));
    } else {
        assert(parts.take(n) =~= parts);
    }
}

fn parse_value(text: &[char]) -> (r: Result<TomlValue, String>)
    ensures
        match (r, value_of(text@)) {
            (Ok(a), Ok(b)) => a@ == b,
            (Err(a), Err(b)) => a@ == b,
            _ => false,
        },
    decreases text@.len(),
{
    let s = trim_chars(text);
    proof {
        lemma_trimmed(text@);
    }
    if s.len() == 0 {
        return Err("empty value".to_owned());
    }
    if s[0] == '"' {
        return match parse_string(s.as_slice()) {
            Ok(t) => Ok(TomlValue::Str(t)),
            Err(e) => Err(e),
        };
    }
    if s[0] == '[' {
        if s[s.len() - 1] != ']' {
            return Err("unterminated array".to_owned());
        }
        let inner = chars_between(s.as_slice(), 1, s.len() - 1);
        let parts = match split_array_items(inner.as_slice()) {
            Ok(p) => p,
            Err(e) => {
                return Err(e);
            },
        };
        let ghost pv = char_views(parts@);
        let ghost most = inner@.len();
        let mut items: Vec<TomlValue> = Vec::new();
        let mut i: usize = 0;
        assert(toml_views(items@) =~= Seq::<TomlV>::empty());
        while i < parts.len()
            invariant
                i <= parts@.len(),
                pv == char_views(parts@),
                most == inner@.len(),
                most < text@.len(),
                forall|k: int| 0 <= k < parts@.len() ==> (#[trigger] parts@[k])@.len() <= most,
                items_of(pv.take(i as int), most) == Ok::<_, Seq<char>>(toml_views(items@)),
                match items_of(pv, most) {
                    Ok(xs) => value_of(text@) == Ok::<_, Seq<char>>(TomlV::Array(xs)),
                    Err(e) => value_of(text@) == Err::<TomlV, _>(e),
                },
            decreases parts.len() - i,
        {
            let part = trim_chars(parts[i].as_slice());
            let ghost before = toml_views(items@);
            proof {
                assert(pv.take(i + 1).drop_last() =~= pv.take(i as int));
                assert(pv.take(i + 1).last() == parts@[i as int]@);
                lemma_trimmed(parts@[i as int]@);
                lemma_items_error(pv, most, i + 1);
            }
            if part.len() > 0 {
                match parse_value(part.as_slice()) {
                    Ok(v) => {
                        items.push(v);
                        assert(toml_views(items@) =~= before.push(v@));
                    },
                    Err(e) => {
                        return Err(e);
                    },
                }
            }
            i += 1;
        }
        assert(pv.take(pv.len() as int) =~= pv);
        let v = TomlValue::Array(items);
        assert(v@->Array_0 =~= toml_views(items@));
        return Ok(v);
    }
    parse_plain(s.as_slice())
}

/// Section names, each with its keys and values; keys before the first
/// header are under the empty name.
pub type TomlDoc = TextMap<TextMap<TomlValue>>;

/// A document as a mathematical object.
pub type TomlDocV = Map<Seq<char>, Map<Seq<char>, TomlV>>;

/// The message of an error in a line.
pub open spec fn line_error(n: nat, message: Seq<char>) -> Seq<char> {
    "line "@ + dec_text(n) + ": "@ + message
}

/// The document and the section at hand after one more line.
pub open spec fn after_line(doc: TomlDocV, section: Seq<char>, raw: Seq<char>, n: nat) -> Result<
    (TomlDocV, Seq<char>),
    Seq<char>,
> {
    let line = bare_line(raw);
    if line.len() == 0 {
        Ok((doc, section))
    } else if line[0] == '[' {
        if line.last() != ']' {
            Err(line_error(n, "unterminated section header"@))
        } else {
            let name = trimmed(line.subrange(1, line.len() - 1));
            if name.len() == 0 {
                Err(line_error(n, "empty section name"@))
            } else if doc.contains_key(name) {
                Ok((doc, name))
            } else {
                Ok((doc.insert(name, Map::empty()), name))
            }
        }
    } else {
        match find_from(line, seq!['='], 0) {
            None => Err(line_error(n, "expected `key = value`"@)),
            Some(eq) => {
                let key = trimmed(line.take(eq));
                let val = trimmed(line.skip(eq + 1));
                if key.len() == 0 {
                    Err(line_error(n, "empty key"@))
                } else {
                    match value_of(val) {
                        Err(e) => Err(line_error(n, e)),
                        Ok(v) => Ok(
                            (doc.insert(section, doc[section].insert(key, v)), section),
                        ),
                    }
                }
            },
        }
    }
}

/// The document and the section at hand after the first `n` lines.
pub open spec fn after_lines(lines: Seq<Seq<char>>, n: nat) -> Result<
    (TomlDocV, Seq<char>),
    Seq<char>,
>
    decreases n,
{
    if n == 0 {
        Ok(
            (
                Map::<Seq<char>, Map<Seq<char>, TomlV>>::empty().insert(Seq::empty(), Map::empty()),
                Seq::empty(),
            ),
        )
    } else {
        match after_lines(lines, (n - 1) as nat) {
            Err(e) => Err(e),
            Ok((doc, section)) => after_line(doc, section, lines[n - 1], n),
        }
    }
}

/// How a character is written within quotes.
pub open spec fn written(c: char) -> Seq<char> {
    if c == '\n' {
        seq!['\\', 'n']
    } else if c == '\t' {
        seq!['\\', 't']
    } else if c == '\r' {
        seq!['\\', 'r']
    } else if c == '"' || c == '\\' {
        seq!['\\', c]
    } else {
        seq![c]
    }
}

/// How a text is written within quotes.
pub open spec fn written_text(t: Seq<char>) -> Seq<char>
    decreases t.len(),
{
    if t.len() == 0 {
        Seq::empty()
    } else {
        written(t[0]) + written_text(t.skip(1))
    }
}

/// A text in quotes.
pub open spec fn quoted(t: Seq<char>) -> Seq<char> {
    seq!['"'] + written_text(t) + seq!['"']
}

proof fn lemma_unquote_written(s: Seq<char>, i: int, out: Seq<char>, t: Seq<char>)
    requires
        0 <= i <= s.len(),
        s.skip(i) == written_text(t) + seq!['"'],
    ensures
        unquote_from(s, i, out) == Ok::<Seq<char>, Seq<char>>(out + t),
    decreases t.len(),
{
    let w = s.skip(i);
    assert(w.len() == written_text(t).len() + 1);
    assert(w[0] == s[i]);
    if t.len() == 0 {
        assert(w =~= seq!['"']);
        assert(out + t =~= out);
    } else {
        let c = t[0];
        let k = written(c).len() as int;
        assert(w =~= written(c) + (written_text(t.skip(1)) + seq!['"']));
        assert(s.skip(i + k) =~= w.skip(k));
        assert(w.skip(k) =~= written_text(t.skip(1)) + seq!['"']);
        lemma_unquote_written(s, i + k, out.push(c), t.skip(1));
        assert(out.push(c) + t.skip(1) =~= out + t);
        if k == 2 {
            assert(w[1] == s[i + 1]);
            assert(unescaped(s[i + 1]) == Some(c));
        }
    }
}

/// A text in quotes is read back as that text.
pub proof fn lemma_quoted_read(t: Seq<char>)
    ensures
        value_of(quoted(t)) == Ok::<TomlV, Seq<char>>(TomlV::Str(t)),
{
    let q = quoted(t);
    assert(q[0] == '"' && q.last() == '"');
    assert(trimmed(q) == q);
    assert(q.skip(1) =~= written_text(t) + seq!['"']);
    lemma_unquote_written(q, 1, Seq::empty(), t);
    assert(Seq::<char>::empty() + t =~= t);
}

proof fn lemma_nothing_filtered(s: Seq<char>)
    requires
        !s.contains('_'),
    ensures
        no_underscores(s) == s,
    decreases s.len(),
{
    reveal(Seq::filter);
    if s.len() > 0 {
        assert(s.last() != '_') by {
            assert(s[s.len() - 1] == s.last());
        }
        assert forall|i: int| 0 <= i < s.drop_last().len() implies s.drop_last()[i] != '_' by {
            assert(s[i] == s.drop_last()[i]);
        }
        lemma_nothing_filtered(s.drop_last());
        assert(s.drop_last().push(s.last()) =~= s);
    }
}

/// A number in decimal is read back as that number, and the two words as the truth
/// values.
pub proof fn lemma_plain_read(n: i64)
    ensures
        n >= 0 ==> value_of(dec_text(n as nat)) == Ok::<TomlV, Seq<char>>(TomlV::Int(n)),
        value_of("true"@) == Ok::<TomlV, Seq<char>>(TomlV::Bool(true)),
        value_of("false"@) == Ok::<TomlV, Seq<char>>(TomlV::Bool(false)),
{
    reveal_strlit("true");
    reveal_strlit("false");
    assert("true"@.len() == 4 && "false"@.len() == 5);
    assert("true"@[0] == 't' && "true"@.last() == 'e');
    assert("false"@[0] == 'f' && "false"@.last() == 'e');
    assert(trimmed("true"@) == "true"@);
    assert(trimmed("false"@) == "false"@);
    if n >= 0 {
        let d = dec_text(n as nat);
        lemma_decimal_read(n as nat);
        assert('0' <= d[0] <= '9');
        assert('0' <= d[d.len() - 1] <= '9');
        assert(trimmed(d) == d);
        lemma_nothing_filtered(d);
        assert(d != "true"@ && d != "false"@);
    }
}

proof fn lemma_no_mark(s: Seq<char>, i: int, k: int)
    requires
        0 <= i <= k <= s.len(),
        forall|j: int| i <= j < k ==> #[trigger] s[j] != '#' && s[j] != '"',
    ensures
        comment_at(s, i, false, false) == comment_at(s, k, false, false),
    decreases k - i,
{
    if i < k {
        lemma_no_mark(s, i + 1, k);
    }
}

proof fn lemma_within_quotes(s: Seq<char>, i: int, t: Seq<char>, tail: Seq<char>)
    requires
        0 <= i <= s.len(),
        s.skip(i) == written_text(t) + tail,
    ensures
        comment_at(s, i, true, false) == comment_at(s, i + written_text(t).len(), true, false),
    decreases t.len(),
{
    if t.len() > 0 {
        let w = s.skip(i);
        let c = t[0];
        let k = written(c).len() as int;
        assert(w =~= written(c) + (written_text(t.skip(1)) + tail));
        assert(w[0] == s[i]);
        if k == 2 {
            assert(w[1] == s[i + 1]);
            assert(comment_at(s, i + 1, true, true) == comment_at(s, i + 2, true, false));
        }
        assert(s.skip(i + k) =~= w.skip(k));
        assert(w.skip(k) =~= written_text(t.skip(1)) + tail);
        lemma_within_quotes(s, i + k, t.skip(1), tail);
        assert(written_text(t).len() == k + written_text(t.skip(1)).len());
    }
}

/// A name that stands as a key: it is not blank at its ends, opens no section and
/// holds no sign of the language.
pub open spec fn is_key(key: Seq<char>) -> bool {
    &&& key.len() > 0
    &&& !is_space(key[0])
    &&& !is_space(key.last())
    &&& key[0] != '['
    &&& forall|i: int|
        0 <= i < key.len() ==> #[trigger] key[i] != '=' && key[i] != '#' && key[i] != '"'
}

proof fn lemma_bare_pair(key: Seq<char>, val: Seq<char>)
    requires
        is_key(key),
        val.len() > 0,
        !is_space(val[0]),
        !is_space(val.last()),
    ensures
        ({
            let line = key + seq![' ', '=', ' '] + val;
            &&& trimmed(line + seq![' ']) == line
            &&& line[0] != '['
            &&& find_from(line, seq!['='], 0) == Some(key.len() + 1int)
            &&& trimmed(line.take(key.len() + 1int)) == key
            &&& trimmed(line.skip(key.len() + 2int)) == val
        }),
{
    let line = key + seq![' ', '=', ' '] + val;
    let wide = line + seq![' '];
    assert(line[0] == key[0] && line.last() == val.last());
    assert(wide[0] == key[0]);
    assert(wide.drop_last() =~= line);
    assert(trim_front(wide) == wide);
    assert(trim_back(line) == line);
    assert(is_space(' '));
    assert(trim_back(wide) == trim_back(wide.drop_last()));
    let at = key.len() + 1;
    lemma_find(line, seq!['='], 0);
    assert(line.subrange(at as int, at + 1int) =~= seq!['=']);
    assert(occurs_at(line, seq!['='], at as int));
    let f = find_from(line, seq!['='], 0);
    assert(f is Some);
    assert(line.subrange(f->0, f->0 + 1)[0] == line[f->0]);
    if f->0 < key.len() {
        assert(line[f->0] == key[f->0]);
    } else if f->0 == key.len() {
        assert(line[f->0] == ' ');
    }
    assert(f->0 == at);
    let front = line.take(at as int);
    assert(front =~= key + seq![' ']);
    assert(front[0] == key[0]);
    assert(front.drop_last() =~= key);
    assert(front.last() == ' ');
    assert(trim_back(key) == key);
    assert(trim_back(front) == trim_back(front.drop_last()));
    let back = line.skip(at + 1int);
    assert(back =~= seq![' '] + val);
    assert(back.skip(1) =~= val);
    assert(back[0] == ' ');
    assert(trim_front(val) == val);
    assert(trim_front(back) == trim_front(back.skip(1)));
    assert(trim_back(val) == val);
}

/// A line with a key and a number, and any comment behind it, sets that key of the
/// section at hand to that number and nothing else.
pub proof fn lemma_number_line(
    doc: TomlDocV,
    section: Seq<char>,
    key: Seq<char>,
    v: i64,
    comment: Seq<char>,
    n: nat,
)
    requires
        is_key(key),
        v >= 0,
    ensures
        after_line(
            doc,
            section,
            key + seq![' ', '=', ' '] + dec_text(v as nat) + seq![' ', '#'] + comment,
            n,
        ) == Ok::<(TomlDocV, Seq<char>), Seq<char>>(
            (doc.insert(section, doc[section].insert(key, TomlV::Int(v))), section),
        ),
{
    let d = dec_text(v as nat);
    lemma_decimal_read(v as nat);
    lemma_plain_read(v);
    assert('0' <= d[0] <= '9');
    assert('0' <= d[d.len() - 1] <= '9');
    lemma_bare_pair(key, d);
    let line = key + seq![' ', '=', ' '] + d;
    let raw = line + seq![' ', '#'] + comment;
    assert(key + seq![' ', '=', ' '] + d + seq![' ', '#'] + comment =~= raw);
    let k = line.len() + 1int;
    assert forall|j: int| 0 <= j < k implies #[trigger] raw[j] != '#' && raw[j] != '"' by {
        if j < key.len() {
            assert(raw[j] == key[j]);
        } else if j >= key.len() + 3 && j < line.len() {
            assert(raw[j] == d[j - key.len() - 3]);
        }
    }
    lemma_no_mark(raw, 0, k);
    assert(raw[k] == '#');
    assert(raw.take(k) =~= line + seq![' ']);
}

/// A line with a key and a text in quotes, and any comment behind it, sets that key
/// of the section at hand to that text and nothing else, whatever signs the text
/// holds.
pub proof fn lemma_text_line(
    doc: TomlDocV,
    section: Seq<char>,
    key: Seq<char>,
    t: Seq<char>,
    comment: Seq<char>,
    n: nat,
)
    requires
        is_key(key),
    ensures
        after_line(
            doc,
            section,
            key + seq![' ', '=', ' '] + quoted(t) + seq![' ', '#'] + comment,
            n,
        ) == Ok::<(TomlDocV, Seq<char>), Seq<char>>(
            (doc.insert(section, doc[section].insert(key, TomlV::Str(t))), section),
        ),
{
    let q = quoted(t);
    lemma_quoted_read(t);
    assert(q[0] == '"' && q.last() == '"');
    lemma_bare_pair(key, q);
    let line = key + seq![' ', '=', ' '] + q;
    let raw = line + seq![' ', '#'] + comment;
    let a = key.len() + 3int;
    assert forall|j: int| 0 <= j < a implies #[trigger] raw[j] != '#' && raw[j] != '"' by {
        if j < key.len() {
            assert(raw[j] == key[j]);
        }
    }
    lemma_no_mark(raw, 0, a);
    assert(raw[a] == q[0]);
    let tail = seq!['"', ' ', '#'] + comment;
    assert(raw.skip(a + 1) =~= written_text(t) + tail);
    lemma_within_quotes(raw, a + 1, t, tail);
    let b = a + 1 + written_text(t).len();
    assert(raw[b] == '"' && raw[b + 1] == ' ' && raw[b + 2] == '#');
    assert(comment_at(raw, b, true, false) == comment_at(raw, b + 1, false, false));
    assert(comment_at(raw, b + 1, false, false) == comment_at(raw, b + 2, false, false));
    assert(b + 1 == line.len());
    assert(raw.take(b + 2) =~= line + seq![' ']);
}

/// A header opens its section: what the document held stays, and a new section is
/// empty.
pub proof fn lemma_header_line(doc: TomlDocV, section: Seq<char>, name: Seq<char>, n: nat)
    requires
        name.len() > 0,
        !is_space(name[0]),
        !is_space(name.last()),
        forall|i: int| 0 <= i < name.len() ==> #[trigger] name[i] != '#' && name[i] != '"',
    ensures
        after_line(doc, section, seq!['['] + name + seq![']'], n) == Ok::<
            (TomlDocV, Seq<char>),
            Seq<char>,
        >(
            (
                if doc.contains_key(name) {
                    doc
                } else {
                    doc.insert(name, Map::empty())
                },
                name,
            ),
        ),
{
    let raw = seq!['['] + name + seq![']'];
    let k = raw.len() as int;
    assert forall|j: int| 0 <= j < k implies #[trigger] raw[j] != '#' && raw[j] != '"' by {
        if 0 < j < k - 1 {
            assert(raw[j] == name[j - 1]);
        }
    }
    lemma_no_mark(raw, 0, k);
    assert(raw.take(k) =~= raw);
    assert(raw[0] == '[' && raw.last() == ']');
    assert(trimmed(raw) == raw);
    assert(raw.subrange(1, k - 1) =~= name);
    assert(trimmed(name) == name);
}

/// Which characters end a line.
pub open spec fn newline_marks(s: Seq<char>) -> Seq<bool> {
    Seq::new(s.len(), |i: int| s[i] == '\n')
}

/// The lines of a text.
pub open spec fn lines_of(s: Seq<char>) -> Seq<Seq<char>> {
    pieces(s, newline_marks(s))
}

/// What a configuration text says, or the message of its first error.
pub open spec fn doc_of(s: Seq<char>) -> Result<TomlDocV, Seq<char>> {
    match after_lines(lines_of(s), lines_of(s).len()) {
        Ok((doc, _)) => Ok(doc),
        Err(e) => Err(e),
    }
}

fn split_lines(c: &[char]) -> (r: Vec<Vec<char>>)
    ensures
        char_views(r@) == lines_of(c@),
{
    let mut marks: Vec<bool> = Vec::new();
    let mut i: usize = 0;
    while i < c.len()
        invariant
            i <= c@.len(),
            marks@ == newline_marks(c@).take(i as int),
        decreases c.len() - i,
    {
        marks.push(c[i] == '\n');
        i += 1;
        assert(marks@ =~= newline_marks(c@).take(i as int));
    }
    assert(marks@ =~= newline_marks(c@));
    split_marked(c, marks.as_slice())
}

fn at_line(n: usize, message: &str) -> (r: String)
    ensures
        r@ == line_error(n as nat, message@),
{
    let mut m = "line ".to_owned();
    m.append(u64_text(n as u64).as_str());
    m.append(": ");
    m.append(message);
    m
}

proof fn lemma_lines_error(lines: Seq<Seq<char>>, k: nat, n: nat)
    requires
        k <= n,
    ensures
        match after_lines(lines, k) {
            Err(e) => after_lines(lines, n) == Err::<(TomlDocV, Seq<char>), _>(e),
            Ok(_) => true,
        },
    decreases n,
{
    if k < n {
        lemma_lines_error(lines, k, (n - 1) as nat);
    }
}

/// Takes in one line.
fn take_line(doc: &mut TomlDoc, section: &mut String, raw: &[char], n: usize) -> (r: Result<
    (),
    String,
>)
    requires
        old(doc)@.contains_key(old(section)@),
    ensures
        match (r, after_line(old(doc)@, old(section)@, raw@, n as nat)) {
            (Ok(_), Ok((d, s))) => final(doc)@ == d && final(section)@ == s && d.contains_key(s),
            (Err(a), Err(b)) => a@ == b,
            _ => false,
        },
{
    let end: usize = strip_comment(raw);
    let cut = chars_between(raw, 0, end);
    assert(cut@ =~= raw@.take(end as int));
    let line = trim_chars(cut.as_slice());
    if line.len() == 0 {
        return Ok(());
    }
    if line[0] == '[' {
        if line[line.len() - 1] != ']' {
            return Err(at_line(n, "unterminated section header"));
        }
        let inner = chars_between(line.as_slice(), 1, line.len() - 1);
        let name = trim_chars(inner.as_slice());
        if name.len() == 0 {
            return Err(at_line(n, "empty section name"));
        }
        let name = string_of(name.as_slice());
        if !doc.contains_key(name.as_str()) {
            doc.insert(name.clone(), TextMap::new());
        }
        *section = name;
        return Ok(());
    }
    let sign: [char; 1] = ['='];
    assert(sign@ =~= seq!['=']);
    match find_chars(line.as_slice(), &sign, 0) {
        None => Err(at_line(n, "expected `key = value`")),
        Some(eq) => {
            let before = chars_between(line.as_slice(), 0, eq);
            assert(before@ =~= line@.take(eq as int));
            let behind = chars_between(line.as_slice(), eq + 1, line.len());
            assert(behind@ =~= line@.skip(eq + 1));
            let key = trim_chars(before.as_slice());
            let val = trim_chars(behind.as_slice());
            if key.len() == 0 {
                return Err(at_line(n, "empty key"));
            }
            match parse_value(val.as_slice()) {
                Err(e) => Err(at_line(n, e.as_str())),
                Ok(v) => {
                    let ghost was = doc@;
                    if let Some(keys) = doc.remove(section.as_str()) {
                        let mut keys = keys;
                        let k = string_of(key.as_slice());
                        let ghost kv = k@;
                        keys.insert(k, v);
                        doc.insert(section.clone(), keys);
                        assert(doc@ =~= was.insert(section@, was[section@].insert(kv, v@)));
                    }
                    Ok(())
                },
            }
        },
    }
}

/// Reads a configuration text.
pub fn parse(input: &str) -> (r: Result<TomlDoc, String>)
    ensures
        match (r, doc_of(input@)) {
            (Ok(a), Ok(b)) => a@ == b,
            (Err(a), Err(b)) => a@ == b,
            _ => false,
        },
{
    let chars = chars_of(input);
    let lines = split_lines(chars.as_slice());
    let ghost lv = lines_of(input@);
    let mut doc: TomlDoc = TextMap::new();
    let mut section = String::new();
    doc.insert(String::new(), TextMap::new());
    let mut i: usize = 0;
    assert(section@ =~= Seq::<char>::empty());
    while i < lines.len()
        invariant
            i <= lines@.len(),
            lv == char_views(lines@),
            lv == lines_of(input@),
            doc@.contains_key(section@),
            after_lines(lv, i as nat) == Ok::<_, Seq<char>>((doc@, section@)),
        decreases lines.len() - i,
    {
        proof {
            lemma_lines_error(lv, (i + 1) as nat, lv.len());
            assert(lv[i as int] == lines@[i as int]@);
        }
        match take_line(&mut doc, &mut section, lines[i].as_slice(), i + 1) {
            Ok(()) => {},
            Err(e) => {
                return Err(e);
            },
        }
        i += 1;
    }
    Ok(doc)
}

} // verus!
