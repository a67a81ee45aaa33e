//! Metrics: counters, gauges and histograms by name.

use vstd::prelude::*;
use vstd::arithmetic::power2::{lemma2_to64, lemma_pow2_unfold, pow2};
use crate::obs::json::{json_pair, pair_text};
use crate::text::{
    cat2, dec_text, ends, joined, join_texts, str_ends, u64_text, chars_of, chars_between,
    string_of,
};
use crate::cbor::text_views;
use crate::textmap::{text_order, TextMap};

verus! {

/// A histogram: how many values, their sum, the largest, and how many of each
/// size, in powers of two.
#[derive(Debug)]
pub struct Histo {
    pub count: u64,
    pub sum: u64,
    pub max: u64,
    pub buckets: Vec<u64>,
}

/// A histogram as a mathematical object.
#[verifier::ext_equal]
pub struct HistoV {
    pub count: u64,
    pub sum: u64,
    pub max: u64,
    pub buckets: Seq<u64>,
}

impl DeepView for Histo {
    type V = HistoV;

    open spec fn deep_view(&self) -> HistoV {
        HistoV { count: self.count, sum: self.sum, max: self.max, buckets: self.buckets@ }
    }
}

/// The largest power of two that is not above `n`, as an exponent, up to 31.
pub open spec fn size_class(n: u64) -> nat
    decreases n,
{
    if n <= 1 {
        0
    } else {
        let k = size_class(n / 2);
        if k >= 31 {
            31
        } else {
            k + 1
        }
    }
}

fn class_of(n: u64) -> (r: usize)
    ensures
        r == size_class(n),
        r <= 31,
    decreases n,
{
    if n <= 1 {
        0
    } else {
        let k: usize = class_of(n / 2);
        if k >= 31 {
            31
        } else {
            k + 1
        }
    }
}

impl HistoV {
    pub open spec fn empty() -> HistoV {
        HistoV { count: 0, sum: 0, max: 0, buckets: Seq::new(32, |i: int| 0u64) }
    }

    /// There is room for one more value.
    pub open spec fn takes(self, value: u64) -> bool {
        self.count < u64::MAX && self.sum + value <= u64::MAX && self.buckets.len() == 32
            && self.buckets[size_class(value) as int] < u64::MAX
    }

    /// The histogram with one more value.
    pub open spec fn observed(self, value: u64) -> HistoV {
        let k = size_class(value) as int;
        HistoV {
            count: (self.count + 1) as u64,
            sum: (self.sum + value) as u64,
            max: if value > self.max {
                value
            } else {
                self.max
            },
            buckets: self.buckets.update(k, (self.buckets[k] + 1) as u64),
        }
    }
}

/// Counters, gauges and histograms by name.
#[verifier::ext_equal]
pub struct MetricsV {
    pub counters: Map<Seq<char>, u64>,
    pub gauges: Map<Seq<char>, i64>,
    pub histos: Map<Seq<char>, HistoV>,
}

impl MetricsV {
    pub open spec fn empty() -> MetricsV {
        MetricsV { counters: Map::empty(), gauges: Map::empty(), histos: Map::empty() }
    }

    /// A counter; one that was never counted is zero.
    pub open spec fn counted(self, name: Seq<char>) -> u64 {
        if self.counters.contains_key(name) {
            self.counters[name]
        } else {
            0
        }
    }

    /// A histogram; one that was never fed is empty.
    pub open spec fn histo(self, name: Seq<char>) -> HistoV {
        if self.histos.contains_key(name) {
            self.histos[name]
        } else {
            HistoV::empty()
        }
    }

    /// The metrics with a counter raised; counters wrap around.
    pub open spec fn raised(self, name: Seq<char>, by: u64) -> MetricsV {
        let n = (self.counted(name) + by) % 0x1_0000_0000_0000_0000;
        MetricsV { counters: self.counters.insert(name, n as u64), ..self }
    }

    /// The metrics with a counter raised by one.
    pub open spec fn noted(self, name: Seq<char>) -> MetricsV {
        self.raised(name, 1)
    }
}

/// A count as a signed number.
pub open spec fn signed(n: u64) -> i64 {
    if n <= i64::MAX {
        n as i64
    } else {
        (n - 0x1_0000_0000_0000_0000) as i64
    }
}

pub(crate) fn to_signed(n: u64) -> (r: i64)
    ensures
        r == signed(n),
{
    if n <= 0x7FFF_FFFF_FFFF_FFFF {
        n as i64
    } else {
        -((u64::MAX - n) as i64) - 1
    }
}

/// The first `n` counters of an order, put into a flat table.
pub open spec fn flat_counters(m: Map<Seq<char>, u64>, o: Seq<Seq<char>>, n: nat) -> Map<
    Seq<char>,
    i64,
>
    decreases n,
{
    if n == 0 {
        Map::empty()
    } else {
        flat_counters(m, o, (n - 1) as nat).insert(o[n - 1], signed(m[o[n - 1]]))
    }
}

/// The first `n` gauges of an order, put over a flat table.
pub open spec fn flat_gauges(
    m: Map<Seq<char>, i64>,
    o: Seq<Seq<char>>,
    n: nat,
    over: Map<Seq<char>, i64>,
) -> Map<Seq<char>, i64>
    decreases n,
{
    if n == 0 {
        over
    } else {
        flat_gauges(m, o, (n - 1) as nat, over).insert(o[n - 1] + "(gauge)"@, m[o[n - 1]])
    }
}

/// A histogram put over a flat table: its count and, where there is one, its
/// mean and its largest value.
pub open spec fn flat_histo(over: Map<Seq<char>, i64>, k: Seq<char>, h: HistoV) -> Map<
    Seq<char>,
    i64,
> {
    let a = over.insert(k + ".count"@, signed(h.count));
    if h.count > 0 {
        a.insert(k + ".mean"@, signed((h.sum / h.count) as u64)).insert(k + ".max"@, signed(h.max))
    } else {
        a
    }
}

/// The first `n` histograms of an order, put over a flat table.
pub open spec fn flat_histos(
    m: Map<Seq<char>, HistoV>,
    o: Seq<Seq<char>>,
    n: nat,
    over: Map<Seq<char>, i64>,
) -> Map<Seq<char>, i64>
    decreases n,
{
    if n == 0 {
        over
    } else {
        flat_histo(flat_histos(m, o, (n - 1) as nat, over), o[n - 1], m[o[n - 1]])
    }
}

/// All metrics as one table of names and numbers.
pub open spec fn flat(m: MetricsV) -> Map<Seq<char>, i64> {
    let co = text_order(m.counters.dom());
    let go = text_order(m.gauges.dom());
    let ho = text_order(m.histos.dom());
    flat_histos(
        m.histos,
        ho,
        ho.len(),
        flat_gauges(m.gauges, go, go.len(), flat_counters(m.counters, co, co.len())),
    )
}

/// A number in decimal.
pub open spec fn signed_text(n: int) -> Seq<char> {
    if n < 0 {
        "-"@ + dec_text((-n) as nat)
    } else {
        dec_text(n as nat)
    }
}

/// A number in decimal.
pub fn i64_text(n: i64) -> (r: String)
    ensures
        r@ == signed_text(n as int),
{
    if n < 0 {
        let m: u64 = (-(n + 1)) as u64 + 1;
        cat2("-", u64_text(m).as_str())
    } else {
        u64_text(n as u64)
    }
}

/// The metrics of a node.
#[derive(Debug)]
pub struct Metrics {
    counters: TextMap<u64>,
    gauges: TextMap<i64>,
    histos: TextMap<Histo>,
}

impl View for Metrics {
    type V = MetricsV;

    closed spec fn view(&self) -> MetricsV {
        MetricsV { counters: self.counters@, gauges: self.gauges@, histos: self.histos@ }
    }
}

impl Metrics {
    pub fn new() -> (r: Self)
        ensures
            r@ == MetricsV::empty(),
    {
        let r = Metrics { counters: TextMap::new(), gauges: TextMap::new(), histos: TextMap::new() };
        assert(r@ =~= MetricsV::empty());
        r
    }

    pub fn inc(&mut self, name: &str)
        ensures
            final(self)@ == old(self)@.noted(name@),
    {
        self.add(name, 1);
    }

    pub fn add(&mut self, name: &str, v: u64)
        ensures
            final(self)@ == old(self)@.raised(name@, v),
    {
        let n: u64 = self.counter(name);
        self.counters.insert(name.to_string(), n.wrapping_add(v));
    }

    pub fn counter(&self, name: &str) -> (r: u64)
        ensures
            r == self@.counted(name@),
    {
        match self.counters.get(name) {
            Some(n) => *n,
            None => 0,
        }
    }

    pub fn gauge_set(&mut self, name: &str, v: i64)
        ensures
            final(self)@ == (MetricsV { gauges: old(self)@.gauges.insert(name@, v), ..old(self)@ }),
    {
        self.gauges.insert(name.to_string(), v);
    }

    pub fn gauge(&self, name: &str) -> (r: i64)
        ensures
            r == if self@.gauges.contains_key(name@) {
                self@.gauges[name@]
            } else {
                0
            },
    {
        match self.gauges.get(name) {
            Some(n) => *n,
            None => 0,
        }
    }

    /// Tells whether a value can still be observed: its count and sum fit.
    pub fn takes(&self, name: &str, value: u64) -> (r: bool)
        ensures
            r == self@.histo(name@).takes(value),
    {
        let k: usize = class_of(value);
        match self.histos.get(name) {
            Some(h) => h.count < u64::MAX && value <= u64::MAX - h.sum && h.buckets.len() == 32
                && h.buckets[k] < u64::MAX,
            None => {
                assert(HistoV::empty().takes(value));
                true
            },
        }
    }

    pub fn observe(&mut self, name: &str, value: u64)
        requires
            old(self)@.histo(name@).takes(value),
        ensures
            final(self)@ == (MetricsV {
                histos: old(self)@.histos.insert(
                    name@,
                    old(self)@.histo(name@).observed(value),
                ),
                ..old(self)@
            }),
    {
        let ghost was = self@;
        let mut h = match self.histos.remove(name) {
            Some(h) => h,
            None => {
                let mut zeros: Vec<u64> = Vec::new();
                let mut i: usize = 0;
                while i < 32
                    invariant
                        i <= 32,
                        zeros@.len() == i,
                        forall|j: int| 0 <= j < i ==> #[trigger] zeros@[j] == 0,
                    decreases 32 - i,
                {
                    zeros.push(0);
                    i += 1;
                }
                let h = Histo { count: 0, sum: 0, max: 0, buckets: zeros };
                assert(h.deep_view() =~= HistoV::empty());
                h
            },
        };
        let k: usize = class_of(value);
        h.count = h.count + 1;
        h.sum = h.sum + value;
        if value > h.max {
            h.max = value;
        }
        let n: u64 = h.buckets[k];
        h.buckets.set(k, n + 1);
        assert(h.deep_view() =~= was.histo(name@).observed(value));
        self.histos.insert(name.to_string(), h);
        assert(self@.histos =~= was.histos.insert(name@, was.histo(name@).observed(value)));
    }

    /// All metrics as one table.
    pub fn snapshot(&self) -> (r: TextMap<i64>)
        ensures
            r@ == flat(self@),
            self@.counters.dom().finite(),
            self@.gauges.dom().finite(),
            self@.histos.dom().finite(),
    {
        let mut out: TextMap<i64> = TextMap::new();
        let mut i: usize = 0;
        let n: usize = self.counters.len();
        let ghost co = self.counters.order();
        while i < n
            invariant
                i <= n == co.len(),
                co == self.counters.order(),
                out@ == flat_counters(self.counters@, co, i as nat),
            decreases n - i,
        {
            let k = self.counters.key_at(i).as_str().to_string();
            let v: u64 = *self.counters.value_at(i);
            out.insert(k, to_signed(v));
            i += 1;
        }
        let ghost first = out@;
        i = 0;
        let n: usize = self.gauges.len();
        let ghost go = self.gauges.order();
        while i < n
            invariant
                i <= n == go.len(),
                go == self.gauges.order(),
                out@ == flat_gauges(self.gauges@, go, i as nat, first),
            decreases n - i,
        {
            let k = cat2(self.gauges.key_at(i).as_str(), "(gauge)");
            let v: i64 = *self.gauges.value_at(i);
            out.insert(k, v);
            i += 1;
        }
        let ghost second = out@;
        i = 0;
        let n: usize = self.histos.len();
        let ghost ho = self.histos.order();
        while i < n
            invariant
                i <= n == ho.len(),
                ho == self.histos.order(),
                out@ == flat_histos(self.histos@, ho, i as nat, second),
            decreases n - i,
        {
            let k = self.histos.key_at(i);
            let h = self.histos.value_at(i);
            out.insert(cat2(k.as_str(), ".count"), to_signed(h.count));
            if h.count > 0 {
                out.insert(cat2(k.as_str(), ".mean"), to_signed(h.sum / h.count));
                out.insert(cat2(k.as_str(), ".max"), to_signed(h.max));
            }
            i += 1;
        }
        out
    }

    /// The metrics as OTLP JSON.
    pub fn otlp_json(&self) -> (r: String)
        ensures
            r@ == export_text(flat(self@)),
            flat(self@).dom().finite(),
    {
        export_json(&self.snapshot())
    }
}

/// One number of the export.
pub open spec fn metric_text(name: Seq<char>, value: int) -> Seq<char> {
    if ends(name, "(gauge)"@) {
        "{"@ + pair_text("name"@, name.take(name.len() - 7), true)
            + ",\"gauge\":{\"dataPoints\":[{\"asInt\":"@ + signed_text(value) + "}]}}"@
    } else {
        "{"@ + pair_text("name"@, name, true)
            + ",\"sum\":{\"aggregationTemporality\":2,\"isMonotonic\":true,\"dataPoints\":[{\"asInt\":"@
            + signed_text(value) + "}]}}"@
    }
}

/// The numbers of the export, in the order of their names.
pub open spec fn metric_texts(table: Map<Seq<char>, i64>) -> Seq<Seq<char>> {
    let o = text_order(table.dom());
    Seq::new(o.len(), |i: int| metric_text(o[i], table[o[i]] as int))
}

/// The export.
pub open spec fn export_text(table: Map<Seq<char>, i64>) -> Seq<char> {
    "{\"resourceMetrics\":[{\"resource\":{\"attributes\":[{\"key\":\"service.name\",\"value\":{\"stringValue\":\"ultracortex\"}}]},\"scopeMetrics\":[{\"scope\":{\"name\":\"ultracortex.obs\"},\"metrics\":["@
        + joined(metric_texts(table), ","@) + "]}]}]}"@
}

fn metric_json(name: &str, value: i64) -> (r: String)
    ensures
        r@ == metric_text(name@, value as int),
{
    let mut out = String::new();
    out.append("{");
    if str_ends(name, "(gauge)") {
        proof {
            reveal_strlit("(gauge)");
            assert("(gauge)"@.len() == 7);
        }
        let chars = chars_of(name);
        let short = string_of(
            chars_between(chars.as_slice(), 0, chars.len() - 7).as_slice(),
        );
        assert(short@ =~= name@.take(name@.len() - 7));
        out.append(json_pair("name", short.as_str(), true).as_str());
        out.append(",\"gauge\":{\"dataPoints\":[{\"asInt\":");
    } else {
        out.append(json_pair("name", name, true).as_str());
        out.append(
            ",\"sum\":{\"aggregationTemporality\":2,\"isMonotonic\":true,\"dataPoints\":[{\"asInt\":",
        );
    }
    out.append(i64_text(value).as_str());
    out.append("}]}}");
    assert(out@ =~= metric_text(name@, value as int));
    out
}

/// The export of a table of numbers.
pub fn export_json(table: &TextMap<i64>) -> (r: String)
    ensures
        r@ == export_text(table@),
        table@.dom().finite(),
{
    let n: usize = table.len();
    let ghost want = metric_texts(table@);
    let mut parts: Vec<String> = Vec::new();
    let mut i: usize = 0;
    assert(text_views(parts@) =~= want.take(0));
    while i < n
        invariant
            i <= n == table.order().len(),
            table.order() == text_order(table@.dom()),
            want == metric_texts(table@),
            text_views(parts@) == want.take(i as int),
        decreases n - i,
    {
        let ghost before = text_views(parts@);
        let one = metric_json(table.key_at(i).as_str(), *table.value_at(i));
        parts.push(one);
        assert(text_views(parts@) =~= before.push(one@));
        i += 1;
        assert(want.take(i as int) =~= want.take(i - 1).push(want[i - 1]));
    }
    assert(want.take(n as int) =~= want);
    assert(text_views(parts@) =~= Seq::new(parts@.len(), |i: int| parts@[i]@));
    let mut out = String::new();
    out.append(
        "{\"resourceMetrics\":[{\"resource\":{\"attributes\":[{\"key\":\"service.name\",\"value\":{\"stringValue\":\"ultracortex\"}}]},\"scopeMetrics\":[{\"scope\":{\"name\":\"ultracortex.obs\"},\"metrics\":[",
    );
    out.append(join_texts(parts.as_slice(), ",").as_str());
    out.append("]}]}]}");
    assert(out@ =~= export_text(table@));
    out
}

/// The sum of counts.
pub open spec fn total(counts: Seq<u64>) -> nat
    decreases counts.len(),
{
    if counts.len() == 0 {
        0
    } else {
        total(counts.drop_last()) + counts.last() as nat
    }
}

proof fn lemma_total_raised(counts: Seq<u64>, k: int)
    requires
        0 <= k < counts.len(),
        counts[k] < u64::MAX,
    ensures
        total(counts.update(k, (counts[k] + 1) as u64)) == total(counts) + 1,
    decreases counts.len(),
{
    let next = counts.update(k, (counts[k] + 1) as u64);
    if k == counts.len() - 1 {
        assert(next.drop_last() =~= counts.drop_last());
    } else {
        lemma_total_raised(counts.drop_last(), k);
        assert(next.drop_last() =~= counts.drop_last().update(k, (counts[k] + 1) as u64));
    }
}

proof fn lemma_total_zeros(counts: Seq<u64>)
    requires
        forall|i: int| 0 <= i < counts.len() ==> #[trigger] counts[i] == 0,
    ensures
        total(counts) == 0,
    decreases counts.len(),
{
    if counts.len() > 0 {
        lemma_total_zeros(counts.drop_last());
    }
}

/// Every value that was observed is counted once in all and once in the class of
/// its size.
pub proof fn lemma_observed_once(h: HistoV, value: u64)
    requires
        h.takes(value),
        total(h.buckets) == h.count,
    ensures
        total(HistoV::empty().buckets) == HistoV::empty().count,
        total(h.observed(value).buckets) == h.observed(value).count,
        h.observed(value).count == h.count + 1,
        h.observed(value).max >= value,
{
    lemma_total_zeros(HistoV::empty().buckets);
    lemma_class_bound(value);
    lemma_total_raised(h.buckets, size_class(value) as int);
}

/// A value that is observed raises the count by one and the sum by itself, and is the largest
/// where it is larger than all before. It falls into the class of its size: each class holds
/// the values that are at least as large as the power of two with its number and smaller than
/// the next, the first also nothing, and the last whatever is larger.
pub proof fn lemma_observed(h: HistoV, value: u64, k: int)
    requires
        h.takes(value),
        h.buckets.len() == 32,
        0 <= k < 32,
    ensures
        ({
            let now = h.observed(value);
            &&& now.count == h.count + 1
            &&& now.sum == h.sum + value
            &&& now.max == if value > h.max {
                value
            } else {
                h.max
            }
            &&& now.buckets.len() == 32
            &&& now.buckets[k] == h.buckets[k] + if k == size_class(value) {
                1int
            } else {
                0
            }
        }),
        value > 0 && size_class(value) < 31 ==> pow2(size_class(value)) <= value < pow2(
            size_class(value) + 1,
        ),
        value > 0 && size_class(value) == 31 ==> pow2(31) <= value,
        value == 0 ==> size_class(value) == 0,
{
    lemma_class_bound(value);
    if value > 0 {
        lemma_class_size(value);
    }
}

proof fn lemma_class_size(n: u64)
    requires
        n > 0,
    ensures
        size_class(n) <= 31,
        pow2(size_class(n)) <= n,
        size_class(n) < 31 ==> n < pow2(size_class(n) + 1),
    decreases n,
{
    lemma2_to64();
    if n > 1 {
        lemma_class_size(n / 2);
        let k = size_class(n / 2);
        lemma_pow2_unfold(k + 1);
        if k < 31 {
            lemma_pow2_unfold(k + 2);
        }
    }
}

proof fn lemma_class_bound(value: u64)
    ensures
        size_class(value) <= 31,
    decreases value,
{
    if value > 0 {
        lemma_class_bound(value / 2);
    }
}

/// Counting twice is counting the sum, and one counter leaves the others alone.
pub proof fn lemma_counting(m: MetricsV, a: Seq<char>, x: u64, y: u64, b: Seq<char>)
    requires
        a != b,
    ensures
        m.raised(a, x).raised(a, y).counted(a) == (m.counted(a) + x + y) % 0x1_0000_0000_0000_0000,
        m.raised(a, x).counted(b) == m.counted(b),
{
    let w = 0x1_0000_0000_0000_0000int;
    let n = m.counted(a) as int;
    vstd::arithmetic::div_mod::lemma_add_mod_noop(n + x, y as int, w);
    vstd::arithmetic::div_mod::lemma_add_mod_noop((n + x) % w, y as int, w);
    vstd::arithmetic::div_mod::lemma_mod_twice(n + x, w);
}

} // verus!
