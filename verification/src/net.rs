//! Socket addresses in literal form, and the rule that plain TCP listens on
//! loopback only.

use vstd::prelude::*;
use crate::hex::{hex_value, hexval};
use crate::text::{
    cat3, cat4, char_views, chars_between, chars_of, dec_text, digits_of, find_chars, find_from,
    lemma_decimal_read, pieces, read_digits, split_marked,
};
use crate::vocab::{agrees, ErrCode, ErrV, UcError, UcResult};

verus! {

/// An address: four bytes, or eight groups of sixteen bits.
#[derive(Clone, Debug, PartialEq, Eq)]
pub enum Ip {
    V4(Vec<u8>),
    V6(Vec<u16>),
}

/// An address as a mathematical object.
pub enum IpV {
    V4(Seq<u8>),
    V6(Seq<u16>),
}

impl DeepView for Ip {
    type V = IpV;

    open spec fn deep_view(&self) -> IpV {
        match self {
            Ip::V4(b) => IpV::V4(b@),
            Ip::V6(g) => IpV::V6(g@),
        }
    }
}

impl IpV {
    /// The address is this machine itself: 127.x.y.z, or ::1.
    pub open spec fn loopback(self) -> bool {
        match self {
            IpV::V4(b) => b.len() == 4 && b[0] == 127,
            IpV::V6(g) => g.len() == 8 && g[7] == 1 && forall|i: int| 0 <= i < 7 ==> g[i] == 0,
        }
    }
}

impl Ip {
    /// Whether the address is this machine itself.
    pub fn is_loopback(&self) -> (r: bool)
        ensures
            r == self.deep_view().loopback(),
    {
        match self {
            Ip::V4(b) => b.len() == 4 && b[0] == 127,
            Ip::V6(g) => {
                if g.len() != 8 || g[7] != 1 {
                    return false;
                }
                let mut i: usize = 0;
                while i < 7
                    invariant
                        i <= 7,
                        g@.len() == 8,
                        g@[7] == 1,
                        self.deep_view() == IpV::V6(g@),
                        forall|j: int| 0 <= j < i ==> g@[j] == 0,
                    decreases 7 - i,
                {
                    if g[i] != 0 {
                        return false;
                    }
                    i += 1;
                }
                true
            },
        }
    }
}

/// Where a character occurs.
pub open spec fn occurrences(s: Seq<char>, c: char) -> Seq<bool> {
    Seq::new(s.len(), |i: int| s[i] == c)
}

/// The text cut at every `c`.
pub open spec fn cut_at(s: Seq<char>, c: char) -> Seq<Seq<char>> {
    pieces(s, occurrences(s, c))
}

fn cut(s: &[char], c: char) -> (r: Vec<Vec<char>>)
    ensures
        char_views(r@) == cut_at(s@, c),
{
    let mut marks: Vec<bool> = Vec::new();
    let mut i: usize = 0;
    while i < s.len()
        invariant
            i <= s@.len(),
            marks@.len() == i,
            forall|j: int| 0 <= j < i ==> #[trigger] marks@[j] == (s@[j] == c),
        decreases s.len() - i,
    {
        marks.push(s[i] == c);
        i += 1;
    }
    assert(marks@ =~= occurrences(s@, c));
    split_marked(s, marks.as_slice())
}

/// A number of a dotted address: up to three digits, none of them a leading
/// zero.
pub open spec fn octet_of(s: Seq<char>) -> Option<u8> {
    if s.len() == 0 || s.len() > 3 || (s.len() > 1 && s[0] == '0') {
        None
    } else {
        match digits_of(s) {
            Some(n) => if n <= 255 {
                Some(n as u8)
            } else {
                None
            },
            None => None,
        }
    }
}

/// The first `n` pieces as numbers.
pub open spec fn octets_of(ps: Seq<Seq<char>>, n: nat) -> Option<Seq<u8>>
    decreases n,
{
    if n == 0 {
        Some(Seq::empty())
    } else {
        match (octets_of(ps, (n - 1) as nat), octet_of(ps[n - 1])) {
            (Some(a), Some(b)) => Some(a.push(b)),
            _ => None,
        }
    }
}

/// A dotted address.
pub open spec fn v4_of(s: Seq<char>) -> Option<Seq<u8>> {
    let ps = cut_at(s, '.');
    if ps.len() == 4 {
        octets_of(ps, 4)
    } else {
        None
    }
}

fn parse_v4(s: &[char]) -> (r: Option<Vec<u8>>)
    ensures
        match r {
            Some(b) => v4_of(s@) == Some(b@) && b@.len() == 4,
            None => v4_of(s@) is None,
        },
{
    let ps = cut(s, '.');
    let ghost all = cut_at(s@, '.');
    if ps.len() != 4 {
        return None;
    }
    let mut out: Vec<u8> = Vec::new();
    let mut i: usize = 0;
    assert(out@ =~= Seq::empty());
    while i < 4
        invariant
            i <= 4,
            ps@.len() == 4,
            all == char_views(ps@),
            all == cut_at(s@, '.'),
            out@.len() == i,
            octets_of(all, i as nat) == Some(out@),
        decreases 4 - i,
    {
        let p = &ps[i];
        assert(all[i as int] == p@);
        let good: bool = p.len() > 0 && p.len() <= 3 && !(p.len() > 1 && p[0] == '0');
        let mut value: Option<u8> = None;
        if good {
            if let Some(n) = read_digits(p.as_slice(), 0) {
                if n <= 255 {
                    value = Some(n as u8);
                }
            }
            assert(p@.skip(0) =~= p@);
        }
        assert(value == octet_of(p@));
        match value {
            Some(b) => {
                out.push(b);
            },
            None => {
                proof {
                    lemma_octets_fail(all, (i + 1) as nat, 4);
                }
                return None;
            },
        }
        i += 1;
    }
    Some(out)
}

proof fn lemma_octets_fail(ps: Seq<Seq<char>>, n: nat, m: nat)
    requires
        n <= m,
        octets_of(ps, n) is None,
    ensures
        octets_of(ps, m) is None,
    decreases m,
{
    if n < m {
        lemma_octets_fail(ps, n, (m - 1) as nat);
    }
}

/// The number of a hexadecimal text.
pub open spec fn hex_number(s: Seq<char>) -> Option<nat>
    decreases s.len(),
{
    if s.len() == 0 {
        Some(0)
    } else {
        match (hex_number(s.drop_last()), hex_value(s.last())) {
            (Some(a), Some(d)) => Some((a * 16 + d) as nat),
            _ => None,
        }
    }
}

/// A group of a colon address: one to four hexadecimal digits.
pub open spec fn group_of(s: Seq<char>) -> Option<u16> {
    if s.len() == 0 || s.len() > 4 {
        None
    } else {
        match hex_number(s) {
            Some(n) => Some(n as u16),
            None => None,
        }
    }
}

/// The first `n` pieces as groups.
pub open spec fn groups_of(ps: Seq<Seq<char>>, n: nat) -> Option<Seq<u16>>
    decreases n,
{
    if n == 0 {
        Some(Seq::empty())
    } else {
        match (groups_of(ps, (n - 1) as nat), group_of(ps[n - 1])) {
            (Some(a), Some(b)) => Some(a.push(b)),
            _ => None,
        }
    }
}

/// A dotted address as two groups.
pub open spec fn as_groups(b: Seq<u8>) -> Seq<u16> {
    seq![(b[0] * 256 + b[1]) as u16, (b[2] * 256 + b[3]) as u16]
}

/// The groups on one side of an address; where `dotted` allows it the last may
/// be a dotted address.
pub open spec fn side_of(s: Seq<char>, dotted: bool) -> Option<Seq<u16>> {
    if s.len() == 0 {
        Some(Seq::empty())
    } else {
        let ps = cut_at(s, ':');
        let last = ps[ps.len() - 1];
        if dotted && last.contains('.') {
            match (groups_of(ps, (ps.len() - 1) as nat), v4_of(last)) {
                (Some(g), Some(b)) => Some(g + as_groups(b)),
                _ => None,
            }
        } else {
            groups_of(ps, ps.len())
        }
    }
}

/// The eight groups of a colon address: written out, or with a double colon for
/// one or more groups of zero.
pub open spec fn v6_of(s: Seq<char>) -> Option<Seq<u16>> {
    match find_from(s, "::"@, 0) {
        None => match side_of(s, true) {
            Some(g) => if g.len() == 8 {
                Some(g)
            } else {
                None
            },
            None => None,
        },
        Some(i) => match (side_of(s.take(i), false), side_of(s.skip(i + 2), true)) {
            (Some(a), Some(b)) => if a.len() + b.len() <= 7 {
                Some(a + Seq::new((8 - a.len() - b.len()) as nat, |k: int| 0u16) + b)
            } else {
                None
            },
            _ => None,
        },
    }
}

fn parse_group(s: &Vec<char>) -> (r: Option<u16>)
    ensures
        r == group_of(s@),
{
    if s.len() == 0 || s.len() > 4 {
        return None;
    }
    let mut n: u32 = 0;
    let mut i: usize = 0;
    let mut most: u32 = 1;
    assert(s@.take(0) =~= Seq::empty());
    while i < s.len()
        invariant
            i <= s@.len() <= 4,
            hex_number(s@.take(i as int)) == Some(n as nat),
            n < most,
            i == 0 ==> most == 1,
            i == 1 ==> most == 16,
            i == 2 ==> most == 256,
            i == 3 ==> most == 4096,
            i == 4 ==> most == 65536,
        decreases s.len() - i,
    {
        assert(s@.take(i + 1).drop_last() =~= s@.take(i as int));
        match hexval(s[i]) {
            Some(d) => {
                n = n * 16 + d as u32;
                most = most * 16;
            },
            None => {
                proof {
                    lemma_hex_fail(s@, i + 1);
                }
                return None;
            },
        }
        i += 1;
    }
    assert(s@.take(i as int) =~= s@);
    Some(n as u16)
}

proof fn lemma_hex_fail(s: Seq<char>, n: int)
    requires
        0 <= n <= s.len(),
        hex_number(s.take(n)) is None,
    ensures
        hex_number(s) is None,
    decreases s.len() - n,
{
    if n < s.len() {
        assert(s.take(n + 1).drop_last() =~= s.take(n));
        lemma_hex_fail(s, n + 1);
    } else {
        assert(s.take(n) =~= s);
    }
}

proof fn lemma_groups_fail(ps: Seq<Seq<char>>, n: nat, m: nat)
    requires
        n <= m,
        groups_of(ps, n) is None,
    ensures
        groups_of(ps, m) is None,
    decreases m,
{
    if n < m {
        lemma_groups_fail(ps, n, (m - 1) as nat);
    }
}

fn parse_groups(ps: &Vec<Vec<char>>, n: usize) -> (r: Option<Vec<u16>>)
    requires
        n <= ps@.len(),
    ensures
        match r {
            Some(g) => groups_of(char_views(ps@), n as nat) == Some(g@),
            None => groups_of(char_views(ps@), n as nat) is None,
        },
{
    let ghost all = char_views(ps@);
    let mut out: Vec<u16> = Vec::new();
    let mut i: usize = 0;
    assert(out@ =~= Seq::empty());
    while i < n
        invariant
            i <= n <= ps@.len(),
            all == char_views(ps@),
            groups_of(all, i as nat) == Some(out@),
        decreases n - i,
    {
        assert(all[i as int] == ps@[i as int]@);
        match parse_group(&ps[i]) {
            Some(g) => {
                out.push(g);
            },
            None => {
                proof {
                    lemma_groups_fail(all, (i + 1) as nat, n as nat);
                }
                return None;
            },
        }
        i += 1;
    }
    Some(out)
}

fn has_dot(s: &Vec<char>) -> (r: bool)
    ensures
        r == s@.contains('.'),
{
    let mut i: usize = 0;
    while i < s.len()
        invariant
            i <= s@.len(),
            forall|j: int| 0 <= j < i ==> #[trigger] s@[j] != '.',
        decreases s.len() - i,
    {
        if s[i] == '.' {
            assert(s@[i as int] == '.');
            return true;
        }
        i += 1;
    }
    false
}

proof fn lemma_some_piece(s: Seq<char>, marks: Seq<bool>)
    ensures
        pieces(s, marks).len() >= 1,
    decreases s.len(),
{
    if s.len() > 0 {
        lemma_some_piece(s.drop_last(), marks);
    }
}

fn parse_side(s: &[char], dotted: bool) -> (r: Option<Vec<u16>>)
    ensures
        match r {
            Some(g) => side_of(s@, dotted) == Some(g@),
            None => side_of(s@, dotted) is None,
        },
{
    if s.len() == 0 {
        let none: Vec<u16> = Vec::new();
        assert(none@ =~= Seq::empty());
        return Some(none);
    }
    let ps = cut(s, ':');
    proof {
        lemma_some_piece(s@, occurrences(s@, ':'));
        assert(char_views(ps@).len() == ps@.len());
    }
    let n: usize = ps.len();
    assert(cut_at(s@, ':')[n - 1] == ps@[n - 1]@);
    if dotted && has_dot(&ps[n - 1]) {
        match (parse_groups(&ps, n - 1), parse_v4(ps[n - 1].as_slice())) {
            (Some(mut g), Some(b)) => {
                let ghost front = g@;
                g.push(b[0] as u16 * 256 + b[1] as u16);
                g.push(b[2] as u16 * 256 + b[3] as u16);
                assert(g@ =~= front + as_groups(b@));
                Some(g)
            },
            _ => None,
        }
    } else {
        parse_groups(&ps, n)
    }
}

fn parse_v6(s: &[char]) -> (r: Option<Vec<u16>>)
    ensures
        match r {
            Some(g) => v6_of(s@) == Some(g@),
            None => v6_of(s@) is None,
        },
{
    let mark = chars_of("::");
    proof {
        reveal_strlit("::");
        assert("::"@.len() == 2);
    }
    match find_chars(s, mark.as_slice(), 0) {
        None => match parse_side(s, true) {
            Some(g) => {
                if g.len() == 8 {
                    Some(g)
                } else {
                    None
                }
            },
            None => None,
        },
        Some(i) => {
            let n: usize = s.len();
            let front = chars_between(s, 0, i);
            let back = chars_between(s, i + 2, n);
            assert(front@ =~= s@.take(i as int));
            assert(back@ =~= s@.skip(i + 2));
            match (parse_side(front.as_slice(), false), parse_side(back.as_slice(), true)) {
                (Some(a), Some(b)) => {
                    if a.len() > 7 || b.len() > 7 - a.len() {
                        return None;
                    }
                    let ghost av = a@;
                    let gap: usize = 8 - a.len() - b.len();
                    let mut out = a;
                    let mut k: usize = 0;
                    assert(out@ =~= av + Seq::new(0, |k: int| 0u16));
                    while k < gap
                        invariant
                            k <= gap,
                            out@ == av + Seq::new(k as nat, |k: int| 0u16),
                        decreases gap - k,
                    {
                        out.push(0);
                        k += 1;
                        assert(out@ =~= av + Seq::new(k as nat, |k: int| 0u16));
                    }
                    let ghost mid = out@;
                    k = 0;
                    assert(out@ =~= mid + b@.take(0));
                    while k < b.len()
                        invariant
                            k <= b@.len(),
                            out@ == mid + b@.take(k as int),
                        decreases b.len() - k,
                    {
                        out.push(b[k]);
                        k += 1;
                        assert(out@ =~= mid + b@.take(k as int));
                    }
                    assert(b@.take(k as int) =~= b@);
                    Some(out)
                },
                _ => None,
            }
        },
    }
}

/// A number that is written in decimal digits and is at most `most`.
pub open spec fn bounded(s: Seq<char>, most: nat) -> bool {
    match digits_of(s) {
        Some(n) => n <= most,
        None => false,
    }
}

fn is_bounded(s: &[char], from: usize, to: usize, most: u64) -> (r: bool)
    requires
        from <= to <= s@.len(),
    ensures
        r == bounded(s@.subrange(from as int, to as int), most as nat),
{
    let part = chars_between(s, from, to);
    assert(part@.skip(0) =~= part@);
    match read_digits(part.as_slice(), 0) {
        Some(n) => n <= most,
        None => false,
    }
}

/// The place of a character from `i` on; the end where it does not occur.
pub open spec fn char_place(s: Seq<char>, c: char, i: int) -> int
    decreases s.len() - i,
{
    if i < 0 || i >= s.len() {
        s.len() as int
    } else if s[i] == c {
        i
    } else {
        char_place(s, c, i + 1)
    }
}

fn place_of(s: &[char], c: char, from: usize) -> (r: usize)
    requires
        from <= s@.len(),
    ensures
        r == char_place(s@, c, from as int),
        from <= r <= s@.len(),
        r < s@.len() ==> s@[r as int] == c,
{
    let mut i: usize = from;
    while i < s.len() && s[i] != c
        invariant
            from <= i <= s@.len(),
            char_place(s@, c, from as int) == char_place(s@, c, i as int),
        decreases s.len() - i,
    {
        i += 1;
    }
    i
}

/// The address of a literal socket address: `a.b.c.d:port`, or
/// `[groups]:port`, where a scope may follow the groups behind a percent sign.
pub open spec fn literal_of(s: Seq<char>) -> Option<IpV> {
    if s.len() > 0 && s[0] == '[' {
        let close = char_place(s, ']', 0);
        let inner = s.subrange(1, close);
        let scope = char_place(inner, '%', 0);
        if close >= s.len() || close + 1 >= s.len() || s[close + 1] != ':' {
            None
        } else if !bounded(s.subrange(close + 2, s.len() as int), 65535) {
            None
        } else if scope < inner.len() && !bounded(
            inner.subrange(scope + 1, inner.len() as int),
            0xFFFF_FFFF,
        ) {
            None
        } else {
            match v6_of(inner.take(scope)) {
                Some(g) => Some(IpV::V6(g)),
                None => None,
            }
        }
    } else {
        let colon = char_place(s, ':', 0);
        if colon >= s.len() || !bounded(s.subrange(colon + 1, s.len() as int), 65535) {
            None
        } else {
            match v4_of(s.take(colon)) {
                Some(b) => Some(IpV::V4(b)),
                None => None,
            }
        }
    }
}

proof fn lemma_same_marks(s: Seq<char>, a: Seq<bool>, b: Seq<bool>)
    requires
        s.len() <= a.len(),
        s.len() <= b.len(),
        forall|i: int| 0 <= i < s.len() ==> #[trigger] a[i] == b[i],
    ensures
        pieces(s, a) == pieces(s, b),
    decreases s.len(),
{
    if s.len() > 0 {
        lemma_same_marks(s.drop_last(), a, b);
        assert(a[s.len() - 1] == b[s.len() - 1]);
    }
}

proof fn lemma_cut_behind(s: Seq<char>, c: char, t: Seq<char>)
    requires
        forall|i: int| 0 <= i < t.len() ==> #[trigger] t[i] != c,
    ensures
        cut_at(s + seq![c] + t, c) == cut_at(s, c).push(t),
    decreases t.len(),
{
    let all = s + seq![c] + t;
    let rest = all.drop_last();
    lemma_same_marks(rest, occurrences(all, c), occurrences(rest, c));
    if t.len() == 0 {
        assert(rest =~= s);
        assert(all.last() == c);
        assert(t =~= Seq::empty());
    } else {
        let u = t.drop_last();
        assert(rest =~= s + seq![c] + u);
        assert forall|i: int| 0 <= i < u.len() implies #[trigger] u[i] != c by {
            assert(u[i] == t[i]);
        }
        lemma_cut_behind(s, c, u);
        assert(all.last() == t[t.len() - 1]);
        let p = cut_at(s, c).push(u);
        assert(p.drop_last() =~= cut_at(s, c));
        assert(u.push(t.last()) =~= t);
    }
}

proof fn lemma_uncut(t: Seq<char>, c: char)
    requires
        forall|i: int| 0 <= i < t.len() ==> #[trigger] t[i] != c,
    ensures
        cut_at(t, c) == seq![t],
    decreases t.len(),
{
    if t.len() == 0 {
        assert(t =~= Seq::empty());
    } else {
        let u = t.drop_last();
        assert forall|i: int| 0 <= i < u.len() implies #[trigger] u[i] != c by {
            assert(u[i] == t[i]);
        }
        lemma_uncut(u, c);
        lemma_same_marks(u, occurrences(t, c), occurrences(u, c));
        assert(t[t.len() - 1] != c);
        assert(u.push(t.last()) =~= t);
        assert(cut_at(t, c) =~= seq![t]);
    }
}

proof fn lemma_octet_read(n: u8)
    ensures
        octet_of(dec_text(n as nat)) == Some(n),
        forall|i: int|
            0 <= i < dec_text(n as nat).len() ==> #[trigger] dec_text(n as nat)[i] != '.'
                && dec_text(n as nat)[i] != ':' && dec_text(n as nat)[i] != '[',
{
    let k = n as nat;
    let d = dec_text(k);
    lemma_decimal_read(k);
    if k >= 10 {
        assert(d == dec_text(k / 10).push(crate::text::digit(k as int % 10)));
        if k >= 100 {
            assert(dec_text(k / 10) == dec_text(k / 100).push(
                crate::text::digit((k / 10) as int % 10),
            )) by {
                assert((k / 10) / 10 == k / 100);
            }
            assert(dec_text(k / 100) == seq![crate::text::digit((k / 100) as int)]);
            assert(d[0] == crate::text::digit((k / 100) as int));
        } else {
            assert(dec_text(k / 10) == seq![crate::text::digit((k / 10) as int)]);
            assert(d[0] == crate::text::digit((k / 10) as int));
        }
    } else {
        assert(d.len() == 1);
    }
    assert forall|i: int| 0 <= i < d.len() implies #[trigger] d[i] != '.' && d[i] != ':' && d[i]
        != '[' by {
        assert('0' <= d[i] <= '9');
    }
}

/// Four numbers with dots between them.
pub open spec fn dotted(a: u8, b: u8, c: u8, d: u8) -> Seq<char> {
    dec_text(a as nat) + seq!['.'] + dec_text(b as nat) + seq!['.'] + dec_text(c as nat) + seq!['.']
        + dec_text(d as nat)
}

proof fn lemma_place_of(s: Seq<char>, c: char, i: int, p: int)
    requires
        0 <= i <= p < s.len(),
        s[p] == c,
        forall|j: int| i <= j < p ==> #[trigger] s[j] != c,
    ensures
        char_place(s, c, i) == p,
    decreases p - i,
{
    if i < p {
        lemma_place_of(s, c, i + 1, p);
    }
}

/// A dotted address with a port is read back as its four bytes, in order; it is a
/// loopback address where the first is 127 and nowhere else.
pub proof fn lemma_dotted_read(a: u8, b: u8, c: u8, d: u8, port: u16)
    ensures
        v4_of(dotted(a, b, c, d)) == Some(seq![a, b, c, d]),
        literal_of(dotted(a, b, c, d) + seq![':'] + dec_text(port as nat)) == Some(
            IpV::V4(seq![a, b, c, d]),
        ),
        IpV::V4(seq![a, b, c, d]).loopback() == (a == 127),
{
    lemma_octet_read(a);
    lemma_octet_read(b);
    lemma_octet_read(c);
    lemma_octet_read(d);
    lemma_decimal_read(port as nat);
    let ta = dec_text(a as nat);
    let tb = dec_text(b as nat);
    let tc = dec_text(c as nat);
    let td = dec_text(d as nat);
    let ab = ta + seq!['.'] + tb;
    let abc = ab + seq!['.'] + tc;
    let s = dotted(a, b, c, d);
    lemma_uncut(ta, '.');
    lemma_cut_behind(ta, '.', tb);
    lemma_cut_behind(ab, '.', tc);
    lemma_cut_behind(abc, '.', td);
    let ps = cut_at(s, '.');
    assert(ps =~= seq![ta, tb, tc, td]);
    assert(octets_of(ps, 0) == Some(Seq::<u8>::empty()));
    assert(octets_of(ps, 1) == Some(Seq::<u8>::empty().push(a)));
    assert(octets_of(ps, 2) == Some(Seq::<u8>::empty().push(a).push(b)));
    assert(octets_of(ps, 3) == Some(Seq::<u8>::empty().push(a).push(b).push(c)));
    assert(octets_of(ps, 4) == Some(Seq::<u8>::empty().push(a).push(b).push(c).push(d)));
    assert(Seq::<u8>::empty().push(a).push(b).push(c).push(d) =~= seq![a, b, c, d]);
    let full = s + seq![':'] + dec_text(port as nat);
    let k = s.len() as int;
    lemma_decimal_read(a as nat);
    assert(full[0] == ta[0]);
    assert forall|j: int| 0 <= j < k implies #[trigger] full[j] != ':' by {
        assert(full[j] == s[j]);
        let x = ta.len() as int;
        let y = ab.len() as int;
        let z = abc.len() as int;
        if j < x {
            assert(s[j] == ta[j]);
        } else if x < j < y {
            assert(s[j] == tb[j - x - 1]);
        } else if y < j < z {
            assert(s[j] == tc[j - y - 1]);
        } else if z < j {
            assert(s[j] == td[j - z - 1]);
        } else {
            assert(s[j] == '.');
        }
    }
    lemma_place_of(full, ':', 0, k);
    assert(full.subrange(k + 1, full.len() as int) =~= dec_text(port as nat));
    assert(full.take(k) =~= s);
}

/// The address of a literal socket address.
pub fn parse_literal(addr: &str) -> (r: Option<Ip>)
    ensures
        match r {
            Some(ip) => literal_of(addr@) == Some(ip.deep_view()),
            None => literal_of(addr@) is None,
        },
{
    let s = chars_of(addr);
    let n: usize = s.len();
    if n > 0 && s[0] == '[' {
        let close: usize = place_of(s.as_slice(), ']', 0);
        if close >= n || n - close < 2 || s[close + 1] != ':' {
            return None;
        }
        if !is_bounded(s.as_slice(), close + 2, n, 65535) {
            return None;
        }
        let inner = chars_between(s.as_slice(), 1, close);
        let m: usize = inner.len();
        let scope: usize = place_of(inner.as_slice(), '%', 0);
        if scope < m && !is_bounded(inner.as_slice(), scope + 1, m, 0xFFFF_FFFF) {
            return None;
        }
        let groups = chars_between(inner.as_slice(), 0, scope);
        assert(groups@ =~= inner@.take(scope as int));
        match parse_v6(groups.as_slice()) {
            Some(g) => Some(Ip::V6(g)),
            None => None,
        }
    } else {
        let colon: usize = place_of(s.as_slice(), ':', 0);
        if colon >= n || !is_bounded(s.as_slice(), colon + 1, n, 65535) {
            return None;
        }
        let front = chars_between(s.as_slice(), 0, colon);
        assert(front@ =~= s@.take(colon as int));
        match parse_v4(front.as_slice()) {
            Some(b) => Some(Ip::V4(b)),
            None => None,
        }
    }
}

/// What a resolver says of an address that is no literal: the addresses, or why
/// there are none.
pub type Resolved = Result<Vec<Ip>, String>;

/// What is known of an address.
pub enum ResolvedV {
    Found(Seq<IpV>),
    Failed(Seq<char>),
}

/// What a resolver said, as a mathematical object.
pub open spec fn resolved_view(r: Resolved) -> ResolvedV {
    match r {
        Ok(ips) => ResolvedV::Found(ips.deep_view()),
        Err(e) => ResolvedV::Failed(e@),
    }
}

/// Every address of the list is this machine itself.
pub open spec fn all_loopback(ips: Seq<IpV>) -> bool {
    forall|i: int| 0 <= i < ips.len() ==> (#[trigger] ips[i]).loopback()
}

/// Whether a node may listen on an address that stands for those.
pub open spec fn listen_verdict(addr: Seq<char>, r: ResolvedV) -> Result<(), ErrV> {
    match r {
        ResolvedV::Failed(e) => Err(
            (ErrCode::ContractViolation, "bad listen.tcp address `"@ + addr + "`: "@ + e),
        ),
        ResolvedV::Found(ips) => if ips.len() == 0 {
            Err(
                (
                    ErrCode::ContractViolation,
                    "listen.tcp address `"@ + addr + "` resolved to no socket addresses"@,
                ),
            )
        } else if !all_loopback(ips) {
            Err(
                (
                    ErrCode::ContractViolation,
                    "listen.tcp `"@ + addr
                        + "` is non-loopback; this checkout only permits plaintext TCP on loopback"@,
                ),
            )
        } else {
            Ok(())
        },
    }
}

/// A node may listen on an address exactly where it stands for something and everything that
/// it stands for is this machine itself: 127 in front, or the one address of the newer kind
/// that is all zeros but for its end.
pub proof fn lemma_only_loopback(addr: Seq<char>, r: ResolvedV)
    ensures
        listen_verdict(addr, r) is Ok <==> match r {
            ResolvedV::Failed(_) => false,
            ResolvedV::Found(ips) => ips.len() > 0 && forall|i: int|
                0 <= i < ips.len() ==> match #[trigger] ips[i] {
                    IpV::V4(b) => b.len() == 4 && b[0] == 127,
                    IpV::V6(g) => g.len() == 8 && g[0] == 0 && g[1] == 0 && g[2] == 0 && g[3] == 0
                        && g[4] == 0 && g[5] == 0 && g[6] == 0 && g[7] == 1,
                },
        },
        listen_verdict(addr, r) is Err ==> listen_verdict(addr, r)->Err_0.0 is ContractViolation,
{
}

/// What is known of an address: a literal says it itself; of anything else the
/// resolver does.
pub open spec fn known_of(addr: Seq<char>, resolver: ResolvedV) -> ResolvedV {
    match literal_of(addr) {
        Some(ip) => ResolvedV::Found(seq![ip]),
        None => resolver,
    }
}

/// Whether a node may listen on an address: a literal one by itself, and a name by
/// what a resolver says of it.
pub fn validate_tcp_listen_addr(addr: &str, resolver: &Resolved) -> (r: UcResult<()>)
    ensures
        agrees(r, listen_verdict(addr@, known_of(addr@, resolved_view(*resolver)))),
{
    let single: Vec<Ip>;
    let ips: &Vec<Ip> = match parse_literal(addr) {
        Some(ip) => {
            single = vec![ip];
            assert(single.deep_view() =~= seq![literal_of(addr@)->0]);
            &single
        },
        None => match resolver {
            Ok(ips) => ips,
            Err(e) => {
                return Err(
                    UcError::schema(
                        cat4("bad listen.tcp address `", addr, "`: ", e.as_str()).as_str(),
                    ),
                );
            },
        },
    };
    let ghost all = ips.deep_view();
    if ips.len() == 0 {
        return Err(
            UcError::schema(
                cat3(
                    "listen.tcp address `",
                    addr,
                    "` resolved to no socket addresses",
                ).as_str(),
            ),
        );
    }
    let mut i: usize = 0;
    while i < ips.len()
        invariant
            i <= ips@.len(),
            ips@.len() > 0,
            all == ips.deep_view(),
            ResolvedV::Found(all) == known_of(addr@, resolved_view(*resolver)),
            forall|j: int| 0 <= j < i ==> (#[trigger] all[j]).loopback(),
        decreases ips.len() - i,
    {
        assert(all[i as int] == ips@[i as int].deep_view());
        if !ips[i].is_loopback() {
            return Err(
                UcError::schema(
                    cat3(
                        "listen.tcp `",
                        addr,
                        "` is non-loopback; this checkout only permits plaintext TCP on loopback",
                    ).as_str(),
                ),
            );
        }
        i += 1;
    }
    Ok(())
}

} // verus!
