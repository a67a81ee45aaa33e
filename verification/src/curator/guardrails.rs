//! Guardrails against collusion: probes, blind re-audits, and whether the
//! confidence bands keep what they promise. Rates are the bits of doubles.

use vstd::prelude::*;
use crate::cells::timeline::last_n;
use crate::curator::ledger::{count_true, lemma_count_true, ONE};
use crate::curator::{minted, ConfidenceBand};
use crate::fixed::{below, less, multiply, product_bits, ratio, ratio_bits, unit, unit_bits};
use crate::text::cat2;
use crate::ulid::{draw, next_state, seeded, ulid_int, DetRng, Ulid};

verus! {

/// How many audits of a band are looked back on.
pub const CALIBRATION_WINDOW: usize = 50;

/// How many audits there have to be before a band has an accuracy.
pub const LEAST_SAMPLES: usize = 10;

/// The bits of 0.85, below which the high band is no longer worth its name.
pub const HIGH_BAND_FLOOR: u64 = 0x3FEB_3333_3333_3333;

/// The bits of 0.6, below which the medium band is no longer worth its name.
pub const MEDIUM_BAND_FLOOR: u64 = 0x3FE3_3333_3333_3333;

/// The double that the next draw of a generator gives.
pub open spec fn drawn(s: u64) -> u64 {
    unit_bits((draw(next_state(s)) >> 11) as nat) as u64
}

/// A rate stepped up by a factor, and at most one.
pub open spec fn threshold_of(rate: u64, boost: u64) -> u64 {
    let t = product_bits(rate, boost);
    if below(t, ONE) {
        t
    } else {
        ONE
    }
}

/// Where a scheduler of probes stands.
#[verifier::ext_equal]
pub struct ProbeV {
    pub rng: u64,
    pub base_rate: u64,
    pub counter: u64,
}

/// Decides when a probe is sent.
#[derive(Debug)]
pub struct ProbeScheduler {
    rng: DetRng,
    /// The bit pattern of the usual rate.
    pub base_rate: u64,
    counter: u64,
}

impl View for ProbeScheduler {
    type V = ProbeV;

    closed spec fn view(&self) -> ProbeV {
        ProbeV { rng: self.rng@, base_rate: self.base_rate, counter: self.counter }
    }
}

impl ProbeScheduler {
    pub fn new(seed: u64, base_rate: u64) -> (r: Self)
        ensures
            r@ == (ProbeV { rng: seeded(seed ^ 0x9B0B), base_rate, counter: 0 }),
    {
        ProbeScheduler { rng: DetRng::new(seed ^ 0x9B0B), base_rate, counter: 0 }
    }

    /// Whether the next audit carries a probe.
    pub fn should_probe(&mut self, boost: u64) -> (r: bool)
        requires
            old(self)@.counter < u64::MAX,
        ensures
            r == below(drawn(old(self)@.rng), threshold_of(old(self)@.base_rate, boost)),
            final(self)@ == (ProbeV {
                rng: next_state(old(self)@.rng),
                counter: (old(self)@.counter + 1) as u64,
                ..old(self)@
            }),
    {
        self.counter = self.counter + 1;
        let t: u64 = multiply(self.base_rate, boost);
        let threshold: u64 = if less(t, ONE) { t } else { ONE };
        let k: u64 = self.rng.next_unit();
        less(unit(k), threshold)
    }

    /// A handle that looks like any other and names nothing.
    pub fn fabricated_handle(&mut self, logical_at: u64) -> (r: String)
        ensures
            r@ == "fact/"@ + minted(logical_at, old(self)@.rng),
            final(self)@ == (ProbeV {
                rng: next_state(next_state(old(self)@.rng)),
                ..old(self)@
            }),
    {
        let ghost s = self.rng@;
        let ulid = Ulid::from_parts(logical_at, &mut self.rng);
        assert(ulid.0 == ulid_int(logical_at, draw(next_state(s)), draw(next_state(next_state(s)))));
        cat2("fact/", ulid.to_base32().as_str())
    }

    pub fn probes_scheduled(&self) -> (r: u64)
        ensures
            r == self@.counter,
    {
        self.counter
    }
}

/// Decides which audits are repeated blind.
#[derive(Debug)]
pub struct BlindReauditScheduler {
    rng: DetRng,
    rate: u64,
}

impl View for BlindReauditScheduler {
    type V = (u64, u64);

    closed spec fn view(&self) -> (u64, u64) {
        (self.rng@, self.rate)
    }
}

impl BlindReauditScheduler {
    pub fn new(seed: u64, rate: u64) -> (r: Self)
        ensures
            r@ == (seeded(seed ^ 0xB1AD), rate),
    {
        BlindReauditScheduler { rng: DetRng::new(seed ^ 0xB1AD), rate }
    }

    pub fn should_reaudit(&mut self) -> (r: bool)
        ensures
            r == below(drawn(old(self)@.0), old(self)@.1),
            final(self)@ == (next_state(old(self)@.0), old(self)@.1),
    {
        let k: u64 = self.rng.next_unit();
        less(unit(k), self.rate)
    }
}

/// The last audits of each band: whether each passed.
#[verifier::ext_equal]
pub struct CalibrationV {
    pub high: Seq<bool>,
    pub medium: Seq<bool>,
    pub low: Seq<bool>,
}

/// A window with one more audit.
pub open spec fn slid(w: Seq<bool>, passed: bool) -> Seq<bool> {
    last_n(w.push(passed), CALIBRATION_WINDOW as int)
}

/// The share of audits that passed, as the bits of a double.
pub open spec fn accuracy_of(w: Seq<bool>) -> Option<u64> {
    if w.len() < LEAST_SAMPLES {
        None
    } else {
        Some(ratio_bits(count_true(w), w.len()) as u64)
    }
}

/// There is an accuracy and it lies below a floor.
pub open spec fn fails(accuracy: Option<u64>, floor: u64) -> bool {
    match accuracy {
        Some(a) => below(a, floor),
        None => false,
    }
}

impl CalibrationV {
    pub open spec fn wf(self) -> bool {
        self.high.len() <= CALIBRATION_WINDOW && self.medium.len() <= CALIBRATION_WINDOW
            && self.low.len() <= CALIBRATION_WINDOW
    }

    pub open spec fn empty() -> CalibrationV {
        CalibrationV { high: Seq::empty(), medium: Seq::empty(), low: Seq::empty() }
    }

    pub open spec fn recorded(self, band: ConfidenceBand, passed: bool) -> CalibrationV {
        match band {
            ConfidenceBand::High => CalibrationV { high: slid(self.high, passed), ..self },
            ConfidenceBand::Medium => CalibrationV { medium: slid(self.medium, passed), ..self },
            ConfidenceBand::Low => CalibrationV { low: slid(self.low, passed), ..self },
        }
    }

    pub open spec fn degraded(self) -> bool {
        fails(accuracy_of(self.high), HIGH_BAND_FLOOR) || fails(
            accuracy_of(self.medium),
            MEDIUM_BAND_FLOOR,
        )
    }
}

/// An audit is noted for its band alone: it is the last of that band's audits, those before
/// it stay in order, and the oldest goes where the window is full.
pub proof fn lemma_recorded(c: CalibrationV, band: ConfidenceBand, passed: bool, i: int)
    requires
        c.wf(),
    ensures
        ({
            let now = c.recorded(band, passed);
            let (was, is) = match band {
                ConfidenceBand::High => (c.high, now.high),
                ConfidenceBand::Medium => (c.medium, now.medium),
                ConfidenceBand::Low => (c.low, now.low),
            };
            &&& now.wf()
            &&& is.len() > 0 && is.last() == passed
            &&& is.len() == if was.len() < CALIBRATION_WINDOW {
                was.len() + 1int
            } else {
                CALIBRATION_WINDOW as int
            }
            &&& 0 <= i < is.len() - 1 ==> is[i] == was[was.len() - is.len() + 1 + i]
            &&& !(band is High) ==> now.high == c.high
            &&& !(band is Medium) ==> now.medium == c.medium
            &&& !(band is Low) ==> now.low == c.low
        }),
{
}

/// The librarian is out of calibration exactly where enough audits of the high band were
/// made and too few of them passed, or of the medium band. The low band promises nothing.
pub proof fn lemma_degraded(c: CalibrationV)
    ensures
        c.degraded() <==> {
            ||| c.high.len() >= LEAST_SAMPLES && below(
                ratio_bits(c.high.filter(|b: bool| b).len(), c.high.len()) as u64,
                HIGH_BAND_FLOOR,
            )
            ||| c.medium.len() >= LEAST_SAMPLES && below(
                ratio_bits(c.medium.filter(|b: bool| b).len(), c.medium.len()) as u64,
                MEDIUM_BAND_FLOOR,
            )
        },
{
    lemma_count_true(c.high);
    lemma_count_true(c.medium);
}

/// Watches whether outputs of each band pass their audits.
#[derive(Debug)]
pub struct CalibrationTracker {
    high: Vec<bool>,
    medium: Vec<bool>,
    low: Vec<bool>,
}

impl View for CalibrationTracker {
    type V = CalibrationV;

    closed spec fn view(&self) -> CalibrationV {
        CalibrationV { high: self.high@, medium: self.medium@, low: self.low@ }
    }
}

impl Default for CalibrationTracker {
    fn default() -> (r: Self)
        ensures
            r@ == CalibrationV::empty(),
    {
        CalibrationTracker::new()
    }
}

fn slide(w: &mut Vec<bool>, passed: bool)
    requires
        old(w)@.len() <= CALIBRATION_WINDOW,
    ensures
        final(w)@ == slid(old(w)@, passed),
        final(w)@.len() <= CALIBRATION_WINDOW,
{
    let ghost before = w@;
    if w.len() == CALIBRATION_WINDOW {
        w.remove(0);
    }
    w.push(passed);
    assert(w@ =~= slid(before, passed));
}

fn accuracy(w: &Vec<bool>) -> (r: Option<u64>)
    requires
        w@.len() <= CALIBRATION_WINDOW,
    ensures
        r == accuracy_of(w@),
{
    let n: usize = w.len();
    if n < LEAST_SAMPLES {
        return None;
    }
    let mut passed: u64 = 0;
    let mut i: usize = 0;
    assert(w@.take(0) =~= Seq::empty());
    while i < n
        invariant
            i <= n == w@.len() <= CALIBRATION_WINDOW,
            passed == count_true(w@.take(i as int)),
            passed <= i,
        decreases n - i,
    {
        assert(w@.take(i + 1).drop_last() =~= w@.take(i as int));
        if w[i] {
            passed += 1;
        }
        i += 1;
    }
    assert(w@.take(n as int) =~= w@);
    Some(ratio(passed, n as u64))
}

impl CalibrationTracker {
    pub fn new() -> (r: Self)
        ensures
            r@ == CalibrationV::empty(),
    {
        let r = CalibrationTracker { high: Vec::new(), medium: Vec::new(), low: Vec::new() };
        assert(r@ =~= CalibrationV::empty());
        r
    }

    pub fn record(&mut self, band: ConfidenceBand, audit_passed: bool)
        requires
            old(self)@.wf(),
        ensures
            final(self)@ == old(self)@.recorded(band, audit_passed),
            final(self)@.wf(),
    {
        match band {
            ConfidenceBand::High => slide(&mut self.high, audit_passed),
            ConfidenceBand::Medium => slide(&mut self.medium, audit_passed),
            ConfidenceBand::Low => slide(&mut self.low, audit_passed),
        }
    }

    pub fn high_accuracy(&self) -> (r: Option<u64>)
        requires
            self@.wf(),
        ensures
            r == accuracy_of(self@.high),
    {
        accuracy(&self.high)
    }

    pub fn medium_accuracy(&self) -> (r: Option<u64>)
        requires
            self@.wf(),
        ensures
            r == accuracy_of(self@.medium),
    {
        accuracy(&self.medium)
    }

    /// Whether a band has lost its meaning.
    pub fn degraded(&self) -> (r: bool)
        requires
            self@.wf(),
        ensures
            r == self@.degraded(),
    {
        let high: bool = match self.high_accuracy() {
            Some(a) => less(a, HIGH_BAND_FLOOR),
            None => false,
        };
        let medium: bool = match self.medium_accuracy() {
            Some(a) => less(a, MEDIUM_BAND_FLOOR),
            None => false,
        };
        high || medium
    }
}

/// However a rate is stepped up, the threshold is never above one.
pub proof fn lemma_threshold_capped(rate: u64, boost: u64)
    ensures
        !below(ONE, threshold_of(rate, boost)),
{
}

} // verus!
