//! The ledger of cross-checks: every exchange between curators, in order.
//!
//! Over the last audits the rate of agreement has to lie in a band: where the
//! warden agrees nearly always, the pair may be colluding; where it agrees too
//! seldom, it is out of step. At the signing tiers every full batch of records
//! is signed.

use vstd::prelude::*;
use crate::bytes::push_all;
use crate::cbor::{
    dup_text, lookup_from, map_value, missing_text, missing_uint, opt_text_value, text_or_empty,
    u64_or_zero, views, Cbor, CborV,
};
use crate::cells::timeline::last_n;
use crate::cells::{CellBehavior, CellType};
use crate::codec::enc;
use crate::digest::{sha256, sha_of};
use crate::fixed::{below, less, ratio, ratio_bits};
use crate::hex::{hex, hex_text};
use crate::lists::{from_list, lemma_list_back, list_in, list_values, to_list, Item};
use crate::obs::metrics::{Metrics, MetricsV};
use crate::persist::kms::{batch_mac, signs, vouched, EncryptionTier, Kms, RingV};
use crate::persist::wal::{FrameV, WalFrame, WalOp, FLAG_CROSS_CHECK};
use crate::rows::done;
use crate::text::str_eq;
use crate::textmap::TextMap;
use crate::vocab::{agrees, CellId, ErrCode, ErrV, SchemaId, UcError, UcResult};

verus! {

/// How many audits the rate of agreement looks back.
pub const AGREEMENT_WINDOW: usize = 200;

/// How many audits there have to be before there is a rate.
pub const LEAST_AUDITS: usize = 20;

/// How many records make a batch.
pub const BATCH_SIGN_EVERY: u64 = 256;

/// The bits of 0.99: a higher rate of agreement is suspicious.
pub const SUSPICIOUS_ABOVE: u64 = 0x3FEF_AE14_7AE1_47AE;

/// The bits of 0.92, the usual lower end of the band.
pub const QUOTA_LOW: u64 = 0x3FED_70A3_D70A_3D71;

/// The bits of 0.97, the usual upper end of the band.
pub const QUOTA_HIGH: u64 = 0x3FEF_0A3D_70A3_D70A;

/// The bits of 1.
pub const ONE: u64 = 0x3FF0_0000_0000_0000;

/// The bits of 10.
pub const TEN: u64 = 0x4024_0000_0000_0000;

/// What kind of exchange a record is of.
#[derive(Clone, Copy, Debug, PartialEq, Eq, Structural)]
pub enum CrossCheckKind {
    LibrarianOutput,
    WardenAudit,
    WardenFlag,
    LibrarianSanity,
    Adjudication,
    Probe,
    BlindReaudit,
}

impl CrossCheckKind {
    /// The text that stands for a kind.
    pub open spec fn name(self) -> Seq<char> {
        match self {
            CrossCheckKind::LibrarianOutput => "librarian_output"@,
            CrossCheckKind::WardenAudit => "warden_audit"@,
            CrossCheckKind::WardenFlag => "warden_flag"@,
            CrossCheckKind::LibrarianSanity => "librarian_sanity"@,
            CrossCheckKind::Adjudication => "adjudication"@,
            CrossCheckKind::Probe => "probe"@,
            CrossCheckKind::BlindReaudit => "blind_reaudit"@,
        }
    }

    /// The kind with that name.
    pub open spec fn named(s: Seq<char>) -> Option<CrossCheckKind> {
        if s == "librarian_output"@ {
            Some(CrossCheckKind::LibrarianOutput)
        } else if s == "warden_audit"@ {
            Some(CrossCheckKind::WardenAudit)
        } else if s == "warden_flag"@ {
            Some(CrossCheckKind::WardenFlag)
        } else if s == "librarian_sanity"@ {
            Some(CrossCheckKind::LibrarianSanity)
        } else if s == "adjudication"@ {
            Some(CrossCheckKind::Adjudication)
        } else if s == "probe"@ {
            Some(CrossCheckKind::Probe)
        } else if s == "blind_reaudit"@ {
            Some(CrossCheckKind::BlindReaudit)
        } else {
            None
        }
    }

    pub fn as_str(self) -> (r: &'static str)
        ensures
            r@ == self.name(),
    {
        match self {
            CrossCheckKind::LibrarianOutput => "librarian_output",
            CrossCheckKind::WardenAudit => "warden_audit",
            CrossCheckKind::WardenFlag => "warden_flag",
            CrossCheckKind::LibrarianSanity => "librarian_sanity",
            CrossCheckKind::Adjudication => "adjudication",
            CrossCheckKind::Probe => "probe",
            CrossCheckKind::BlindReaudit => "blind_reaudit",
        }
    }

    /// The kind with that name.
    pub fn parse(s: &str) -> (r: Option<CrossCheckKind>)
        ensures
            r == CrossCheckKind::named(s@),
    {
        if str_eq(s, "librarian_output") {
            Some(CrossCheckKind::LibrarianOutput)
        } else if str_eq(s, "warden_audit") {
            Some(CrossCheckKind::WardenAudit)
        } else if str_eq(s, "warden_flag") {
            Some(CrossCheckKind::WardenFlag)
        } else if str_eq(s, "librarian_sanity") {
            Some(CrossCheckKind::LibrarianSanity)
        } else if str_eq(s, "adjudication") {
            Some(CrossCheckKind::Adjudication)
        } else if str_eq(s, "probe") {
            Some(CrossCheckKind::Probe)
        } else if str_eq(s, "blind_reaudit") {
            Some(CrossCheckKind::BlindReaudit)
        } else {
            None
        }
    }

    /// Every kind is found again by its name, and no two share one.
    pub proof fn lemma_named(a: CrossCheckKind, b: CrossCheckKind)
        ensures
            CrossCheckKind::named(a.name()) == Some(a),
            a.name() == b.name() ==> a == b,
    {
        reveal_strlit("librarian_output");
        reveal_strlit("warden_audit");
        reveal_strlit("warden_flag");
        reveal_strlit("librarian_sanity");
        reveal_strlit("adjudication");
        reveal_strlit("probe");
        reveal_strlit("blind_reaudit");
        assert("librarian_output"@.len() == 16);
        assert("warden_audit"@.len() == 12);
        assert("warden_flag"@.len() == 11);
        assert("librarian_sanity"@.len() == 16);
        assert("adjudication"@.len() == 12);
        assert("probe"@.len() == 5);
        assert("blind_reaudit"@.len() == 13);
        assert("librarian_output"@[10] != "librarian_sanity"@[10]);
        assert("warden_audit"@[0] != "adjudication"@[0]);
    }
}

/// How an exchange came out, as its initiator sees it.
#[derive(Clone, Copy, Debug, PartialEq, Eq, Structural)]
pub enum CrossCheckOutcome {
    Agree,
    Disagree,
    Escalated,
}

impl CrossCheckOutcome {
    /// The text that stands for an outcome.
    pub open spec fn name(self) -> Seq<char> {
        match self {
            CrossCheckOutcome::Agree => "agree"@,
            CrossCheckOutcome::Disagree => "disagree"@,
            CrossCheckOutcome::Escalated => "escalated"@,
        }
    }

    /// The outcome with that name.
    pub open spec fn named(s: Seq<char>) -> Option<CrossCheckOutcome> {
        if s == "agree"@ {
            Some(CrossCheckOutcome::Agree)
        } else if s == "disagree"@ {
            Some(CrossCheckOutcome::Disagree)
        } else if s == "escalated"@ {
            Some(CrossCheckOutcome::Escalated)
        } else {
            None
        }
    }

    pub fn as_str(self) -> (r: &'static str)
        ensures
            r@ == self.name(),
    {
        match self {
            CrossCheckOutcome::Agree => "agree",
            CrossCheckOutcome::Disagree => "disagree",
            CrossCheckOutcome::Escalated => "escalated",
        }
    }

    /// The outcome with that name.
    pub fn parse(s: &str) -> (r: Option<CrossCheckOutcome>)
        ensures
            r == CrossCheckOutcome::named(s@),
    {
        if str_eq(s, "agree") {
            Some(CrossCheckOutcome::Agree)
        } else if str_eq(s, "disagree") {
            Some(CrossCheckOutcome::Disagree)
        } else if str_eq(s, "escalated") {
            Some(CrossCheckOutcome::Escalated)
        } else {
            None
        }
    }

    /// Every outcome is found again by its name, and no two share one.
    pub proof fn lemma_named(a: CrossCheckOutcome, b: CrossCheckOutcome)
        ensures
            CrossCheckOutcome::named(a.name()) == Some(a),
            a.name() == b.name() ==> a == b,
    {
        reveal_strlit("agree");
        reveal_strlit("disagree");
        reveal_strlit("escalated");
        assert("agree"@.len() == 5);
        assert("disagree"@.len() == 8);
        assert("escalated"@.len() == 9);
    }
}

/// How the rate of agreement stands.
#[derive(Clone, Copy, Debug, PartialEq, Eq, Structural)]
pub enum AgreementHealth {
    Healthy,
    SuspiciousAgreement,
    Miscalibration,
    InsufficientData,
}

impl AgreementHealth {
    /// The text that stands for a state of health.
    pub open spec fn name(self) -> Seq<char> {
        match self {
            AgreementHealth::Healthy => "healthy"@,
            AgreementHealth::SuspiciousAgreement => "suspicious_agreement"@,
            AgreementHealth::Miscalibration => "miscalibration"@,
            AgreementHealth::InsufficientData => "insufficient_data"@,
        }
    }

    pub fn as_str(self) -> (r: &'static str)
        ensures
            r@ == self.name(),
    {
        match self {
            AgreementHealth::Healthy => "healthy",
            AgreementHealth::SuspiciousAgreement => "suspicious_agreement",
            AgreementHealth::Miscalibration => "miscalibration",
            AgreementHealth::InsufficientData => "insufficient_data",
        }
    }

    /// No two states of health share a name.
    pub proof fn lemma_named(a: AgreementHealth, b: AgreementHealth)
        ensures
            a.name() == b.name() ==> a == b,
    {
        reveal_strlit("healthy");
        reveal_strlit("suspicious_agreement");
        reveal_strlit("miscalibration");
        reveal_strlit("insufficient_data");
        assert("healthy"@.len() == 7);
        assert("suspicious_agreement"@.len() == 20);
        assert("miscalibration"@.len() == 14);
        assert("insufficient_data"@.len() == 17);
    }
}

/// A record of the ledger.
#[derive(Debug)]
pub struct CrossCheckRecord {
    pub seq: u64,
    pub kind: CrossCheckKind,
    /// The artifact that is checked.
    pub initiator: String,
    /// The artifact that checks it; empty where there is none.
    pub auditor: String,
    pub outcome: CrossCheckOutcome,
    pub adjudication: Option<String>,
    pub logical_at: u64,
}

/// A record as a mathematical object.
#[verifier::ext_equal]
pub struct CrossCheckRecordV {
    pub seq: u64,
    pub kind: CrossCheckKind,
    pub initiator: Seq<char>,
    pub auditor: Seq<char>,
    pub outcome: CrossCheckOutcome,
    pub adjudication: Option<Seq<char>>,
    pub logical_at: u64,
}

impl DeepView for CrossCheckRecord {
    type V = CrossCheckRecordV;

    open spec fn deep_view(&self) -> CrossCheckRecordV {
        CrossCheckRecordV {
            seq: self.seq,
            kind: self.kind,
            initiator: self.initiator@,
            auditor: self.auditor@,
            outcome: self.outcome,
            adjudication: self.adjudication.deep_view(),
            logical_at: self.logical_at,
        }
    }
}

impl Clone for CrossCheckRecord {
    fn clone(&self) -> (r: CrossCheckRecord)
        ensures
            r.deep_view() == self.deep_view(),
    {
        CrossCheckRecord {
            seq: self.seq,
            kind: self.kind,
            initiator: self.initiator.clone(),
            auditor: self.auditor.clone(),
            outcome: self.outcome,
            adjudication: dup_text(&self.adjudication),
            logical_at: self.logical_at,
        }
    }
}

impl CrossCheckRecordV {
    /// The encoded form of a record.
    pub open spec fn value(self) -> CborV {
        map_value(
            seq![
                ("seq"@, CborV::U64(self.seq)),
                ("kind"@, CborV::Text(self.kind.name())),
                ("initiator"@, CborV::Text(self.initiator)),
                ("auditor"@, CborV::Text(self.auditor)),
                ("outcome"@, CborV::Text(self.outcome.name())),
                ("adjudication"@, opt_text_value(self.adjudication)),
                ("logical_at"@, CborV::U64(self.logical_at)),
            ],
        )
    }

    /// What an encoded form says; the first required field that is missing is the
    /// error.
    pub open spec fn read(v: CborV) -> Result<CrossCheckRecordV, ErrV> {
        if v.u64_field("seq"@) is None {
            Err((ErrCode::Internal, missing_uint("seq"@)))
        } else if v.text_field("kind"@) is None {
            Err((ErrCode::Internal, missing_text("kind"@)))
        } else if CrossCheckKind::named(v.text_field("kind"@)->0) is None {
            Err((ErrCode::ContractViolation, "bad cross-check kind"@))
        } else {
            Ok(
                CrossCheckRecordV {
                    seq: v.u64_field("seq"@)->0,
                    kind: CrossCheckKind::named(v.text_field("kind"@)->0)->0,
                    initiator: text_or_empty(v, "initiator"@),
                    auditor: text_or_empty(v, "auditor"@),
                    outcome: match CrossCheckOutcome::named(text_or_empty(v, "outcome"@)) {
                        Some(x) => x,
                        None => CrossCheckOutcome::Escalated,
                    },
                    adjudication: v.text_field("adjudication"@),
                    logical_at: u64_or_zero(v, "logical_at"@),
                },
            )
        }
    }

    /// Reading gives back what was encoded.
    pub proof fn lemma_read_back(self)
        ensures
            CrossCheckRecordV::read(self.value()) == Ok::<_, ErrV>(self),
            self.value().field("seq"@) == Some(CborV::U64(self.seq)),
            self.value().field("kind"@) == Some(CborV::Text(self.kind.name())),
            self.value().field("initiator"@) == Some(CborV::Text(self.initiator)),
            self.value().field("auditor"@) == Some(CborV::Text(self.auditor)),
            self.value().field("outcome"@) == Some(CborV::Text(self.outcome.name())),
            self.value().field("adjudication"@) == Some(opt_text_value(self.adjudication)),
            self.value().field("logical_at"@) == Some(CborV::U64(self.logical_at)),
    {
        reveal_strlit("seq");
        reveal_strlit("kind");
        reveal_strlit("initiator");
        reveal_strlit("auditor");
        reveal_strlit("outcome");
        reveal_strlit("adjudication");
        reveal_strlit("logical_at");
        assert("seq"@.len() == 3);
        assert("kind"@.len() == 4);
        assert("initiator"@.len() == 9);
        assert("auditor"@.len() == 7);
        assert("outcome"@.len() == 7);
        assert("adjudication"@.len() == 12);
        assert("logical_at"@.len() == 10);
        assert("auditor"@[0] != "outcome"@[0]);
        reveal_with_fuel(lookup_from, 8);
        CrossCheckKind::lemma_named(self.kind, self.kind);
        CrossCheckOutcome::lemma_named(self.outcome, self.outcome);
        let m = self.value()->Pairs_0;
        assert(m[0].0 == CborV::Text("seq"@));
        assert(m[1].0 == CborV::Text("kind"@));
        assert(m[2].0 == CborV::Text("initiator"@));
        assert(m[3].0 == CborV::Text("auditor"@));
        assert(m[4].0 == CborV::Text("outcome"@));
        assert(m[5].0 == CborV::Text("adjudication"@));
        assert(m[6].0 == CborV::Text("logical_at"@));
        assert(self.value().field("seq"@) == Some(CborV::U64(self.seq)));
        assert(self.value().field("kind"@) == Some(CborV::Text(self.kind.name())));
        assert(self.value().field("initiator"@) == Some(CborV::Text(self.initiator)));
        assert(self.value().field("auditor"@) == Some(CborV::Text(self.auditor)));
        assert(self.value().field("outcome"@) == Some(CborV::Text(self.outcome.name())));
        assert(self.value().field("adjudication"@) == Some(opt_text_value(self.adjudication)));
        assert(self.value().field("logical_at"@) == Some(CborV::U64(self.logical_at)));
    }

}

impl CrossCheckRecord {
    pub fn to_cbor(&self) -> (r: Cbor)
        ensures
            r@ == self.deep_view().value(),
    {
        let pairs = vec![
            ("seq", Cbor::U64(self.seq)),
            ("kind", Cbor::t(self.kind.as_str())),
            ("initiator", Cbor::t(self.initiator.as_str())),
            ("auditor", Cbor::t(self.auditor.as_str())),
            ("outcome", Cbor::t(self.outcome.as_str())),
            ("adjudication", Cbor::opt_text(&self.adjudication)),
            ("logical_at", Cbor::U64(self.logical_at)),
        ];
        let ghost want = seq![
            ("seq"@, CborV::U64(self.seq)),
            ("kind"@, CborV::Text(self.kind.name())),
            ("initiator"@, CborV::Text(self.initiator@)),
            ("auditor"@, CborV::Text(self.auditor@)),
            ("outcome"@, CborV::Text(self.outcome.name())),
            ("adjudication"@, opt_text_value(self.adjudication.deep_view())),
            ("logical_at"@, CborV::U64(self.logical_at)),
        ];
        assert(Seq::new(pairs@.len(), |i: int| (pairs@[i].0@, pairs@[i].1@)) =~= want);
        Cbor::map(pairs)
    }

    pub fn from_cbor(c: &Cbor) -> (r: UcResult<CrossCheckRecord>)
        ensures
            agrees(r, CrossCheckRecordV::read(c@)),
    {
        let seq = match c.req_u64("seq") {
            Ok(x) => x,
            Err(e) => {
                return Err(e);
            },
        };
        let kind = match c.req_str("kind") {
            Ok(x) => match CrossCheckKind::parse(x.as_str()) {
                Some(y) => y,
                None => {
                    return Err(UcError::schema("bad cross-check kind"));
                },
            },
            Err(e) => {
                return Err(e);
            },
        };
        let initiator = c.str_or_empty("initiator");
        let auditor = c.str_or_empty("auditor");
        let outcome = match CrossCheckOutcome::parse(c.str_or_empty("outcome").as_str()) {
            Some(x) => x,
            None => CrossCheckOutcome::Escalated,
        };
        let adjudication = c.opt_str("adjudication");
        let logical_at: u64 = c.u64_or_zero("logical_at");
        Ok(CrossCheckRecord { seq, kind, initiator, auditor, outcome, adjudication, logical_at })
    }
}

impl Item for CrossCheckRecord {
    open spec fn value_of(v: CrossCheckRecordV) -> CborV {
        v.value()
    }

    open spec fn read_of(c: CborV) -> Result<CrossCheckRecordV, ErrV> {
        CrossCheckRecordV::read(c)
    }

    open spec fn valid(v: CrossCheckRecordV) -> bool {
        true
    }

    proof fn lemma_back(v: CrossCheckRecordV) {
        v.lemma_read_back();
    }

    fn to_item(&self) -> (r: Cbor) {
        self.to_cbor()
    }

    fn from_item(c: &Cbor) -> (r: UcResult<CrossCheckRecord>) {
        CrossCheckRecord::from_cbor(c)
    }
}


/// The outcomes of the audits among records: whether the auditor agreed.
pub open spec fn audits(rs: Seq<CrossCheckRecordV>) -> Seq<bool>
    decreases rs.len(),
{
    if rs.len() == 0 {
        Seq::empty()
    } else if rs.last().kind is WardenAudit {
        audits(rs.drop_last()).push(rs.last().outcome is Agree)
    } else {
        audits(rs.drop_last())
    }
}

/// The last audits, as far as the window reaches.
pub open spec fn window_of(rs: Seq<CrossCheckRecordV>) -> Seq<bool> {
    last_n(audits(rs), AGREEMENT_WINDOW as int)
}

/// How many of a list are true.
pub open spec fn count_true(s: Seq<bool>) -> nat
    decreases s.len(),
{
    if s.len() == 0 {
        0
    } else {
        count_true(s.drop_last()) + if s.last() {
            1nat
        } else {
            0
        }
    }
}

/// The rate of agreement, as the bits of a double; none before there are enough
/// audits.
pub open spec fn rate_of(w: Seq<bool>) -> Option<u64> {
    if w.len() < LEAST_AUDITS {
        None
    } else {
        Some(ratio_bits(count_true(w), w.len()) as u64)
    }
}

/// How a rate stands to the band.
pub open spec fn health_of(rate: Option<u64>, quota_low: u64) -> AgreementHealth {
    match rate {
        None => AgreementHealth::InsufficientData,
        Some(r) => if below(SUSPICIOUS_ABOVE, r) {
            AgreementHealth::SuspiciousAgreement
        } else if below(r, quota_low) {
            AgreementHealth::Miscalibration
        } else {
            AgreementHealth::Healthy
        },
    }
}

/// The number after the highest of the records.
pub open spec fn next_of(rs: Seq<CrossCheckRecordV>) -> int
    decreases rs.len(),
{
    if rs.len() == 0 {
        0
    } else {
        let n = next_of(rs.drop_last());
        if rs.last().seq + 1 > n {
            rs.last().seq + 1
        } else {
            n
        }
    }
}

/// Digests one behind the other.
pub open spec fn run_of(hs: Seq<Seq<u8>>) -> Seq<u8>
    decreases hs.len(),
{
    if hs.len() == 0 {
        Seq::empty()
    } else {
        run_of(hs.drop_last()) + hs.last()
    }
}

/// How many records have each outcome; an outcome that none has is left out.
pub open spec fn outcomes_of(rs: Seq<CrossCheckRecordV>) -> Map<Seq<char>, u64>
    decreases rs.len(),
{
    if rs.len() == 0 {
        Map::empty()
    } else {
        let m = outcomes_of(rs.drop_last());
        let k = rs.last().outcome.name();
        m.insert(
            k,
            (1 + if m.contains_key(k) {
                m[k] as int
            } else {
                0
            }) as u64,
        )
    }
}

/// The state of the ledger.
#[verifier::ext_equal]
pub struct LedgerV {
    pub records: Seq<CrossCheckRecordV>,
    /// The digests of the records of the batch that is not yet full.
    pub pending: Seq<Seq<u8>>,
    /// The signatures, each with the last record of its batch.
    pub signatures: Seq<(u64, Seq<char>)>,
    pub quota_low: u64,
    pub quota_high: u64,
}

/// What custody there is for signing.
pub type CustodyV = Option<(EncryptionTier, RingV)>;

/// The signature that custody gives for a batch's digest.
pub open spec fn signature_of(custody: CustodyV, digest: Seq<u8>) -> Option<Seq<u8>> {
    match custody {
        Some((tier, ring)) => if signs(tier) && ring.keys.contains_key(ring.active) {
            Some(batch_mac(ring, ring.active, digest))
        } else {
            None
        },
        None => None,
    }
}

/// The batch that a number belongs to.
pub open spec fn batch_of(seq: int) -> int {
    seq / (BATCH_SIGN_EVERY as int)
}

/// The digests of the records of a batch, in order.
pub open spec fn digests_of(rs: Seq<CrossCheckRecordV>, batch: int) -> Seq<Seq<u8>>
    decreases rs.len(),
{
    if rs.len() == 0 {
        Seq::empty()
    } else if batch_of(rs.last().seq as int) == batch {
        digests_of(rs.drop_last(), batch).push(sha_of(enc(rs.last().value())))
    } else {
        digests_of(rs.drop_last(), batch)
    }
}

/// Whether custody stands by a signature, over the records of its batch.
pub open spec fn stands_by(
    custody: (EncryptionTier, RingV),
    rs: Seq<CrossCheckRecordV>,
    mark: (u64, Seq<char>),
) -> bool {
    vouched(custody, mark.1, sha_of(run_of(digests_of(rs, batch_of(mark.0 as int)))))
}

/// How many signatures hold before the first that does not.
pub open spec fn holding(
    custody: (EncryptionTier, RingV),
    rs: Seq<CrossCheckRecordV>,
    marks: Seq<(u64, Seq<char>)>,
) -> nat
    decreases marks.len(),
{
    if marks.len() == 0 {
        0
    } else {
        let n = holding(custody, rs, marks.drop_last());
        if n == marks.len() - 1 && stands_by(custody, rs, marks.last()) {
            n + 1
        } else {
            n
        }
    }
}

proof fn lemma_holding(
    custody: (EncryptionTier, RingV),
    rs: Seq<CrossCheckRecordV>,
    marks: Seq<(u64, Seq<char>)>,
)
    ensures
        holding(custody, rs, marks) <= marks.len(),
        holding(custody, rs, marks) == marks.len() <==> (forall|i: int|
            0 <= i < marks.len() ==> stands_by(custody, rs, #[trigger] marks[i])),
    decreases marks.len(),
{
    if marks.len() > 0 {
        let m = marks.drop_last();
        lemma_holding(custody, rs, m);
        if holding(custody, rs, marks) == marks.len() {
            assert forall|i: int| 0 <= i < marks.len() implies stands_by(
                custody,
                rs,
                #[trigger] marks[i],
            ) by {
                if i < m.len() {
                    assert(m[i] == marks[i]);
                }
            }
        } else if forall|i: int| 0 <= i < marks.len() ==> stands_by(custody, rs, #[trigger] marks[i]) {
            assert forall|i: int| 0 <= i < m.len() implies stands_by(custody, rs, #[trigger] m[i]) by {
                assert(m[i] == marks[i]);
            }
            assert(marks[marks.len() - 1] == marks.last());
        }
    }
}

proof fn lemma_no_digests(rs: Seq<CrossCheckRecordV>, batch: int)
    requires
        forall|i: int| 0 <= i < rs.len() ==> batch_of((#[trigger] rs[i]).seq as int) != batch,
    ensures
        digests_of(rs, batch) == Seq::<Seq<u8>>::empty(),
    decreases rs.len(),
{
    if rs.len() > 0 {
        let d = rs.drop_last();
        assert(rs[rs.len() - 1] == rs.last());
        assert forall|i: int| 0 <= i < d.len() implies batch_of((#[trigger] d[i]).seq as int)
            != batch by {
            assert(d[i] == rs[i]);
        }
        lemma_no_digests(d, batch);
    }
}

proof fn lemma_numbered(rs: Seq<CrossCheckRecordV>)
    requires
        forall|i: int| 0 <= i < rs.len() ==> (#[trigger] rs[i]).seq == i,
    ensures
        next_of(rs) == rs.len(),
    decreases rs.len(),
{
    if rs.len() > 0 {
        let d = rs.drop_last();
        assert(rs[rs.len() - 1] == rs.last());
        assert forall|i: int| 0 <= i < d.len() implies (#[trigger] d[i]).seq == i by {
            assert(d[i] == rs[i]);
        }
        lemma_numbered(d);
    }
}

impl LedgerV {
    /// The ledger with the digests of its open batch taken anew from its records.
    pub open spec fn reloaded(self) -> LedgerV {
        LedgerV { pending: digests_of(self.records, batch_of(self.next_seq())), ..self }
    }

    /// The records are numbered from zero, the digests are those of the open batch,
    /// every signature is of a batch that is full, and custody stands by each.
    pub open spec fn sound(self, custody: (EncryptionTier, RingV)) -> bool {
        &&& forall|i: int| 0 <= i < self.records.len() ==> (#[trigger] self.records[i]).seq == i
        &&& self.pending == digests_of(self.records, batch_of(self.next_seq()))
        &&& forall|i: int|
            0 <= i < self.signatures.len() ==> batch_of((#[trigger] self.signatures[i]).0 as int)
                < batch_of(self.next_seq()) && stands_by(
                custody,
                self.records,
                self.signatures[i],
            )
    }

    /// Appending the next record under custody keeps the ledger sound: every batch
    /// that was signed is verified, and stays so.
    pub proof fn lemma_appended_sound(
        self,
        rec: CrossCheckRecordV,
        custody: (EncryptionTier, RingV),
    )
        requires
            self.sound(custody),
            rec.seq == self.next_seq(),
        ensures
            self.appended(rec, Some(custody)).sound(custody),
            holding(
                custody,
                self.appended(rec, Some(custody)).records,
                self.appended(rec, Some(custody)).signatures,
            ) == self.appended(rec, Some(custody)).signatures.len(),
    {
        let n = self.records.len() as int;
        let after = self.appended(rec, Some(custody));
        lemma_numbered(self.records);
        assert(after.records.drop_last() =~= self.records);
        assert(after.records.last() == rec);
        assert forall|i: int| 0 <= i < after.records.len() implies (
        #[trigger] after.records[i]).seq == i by {
            if i < n {
                assert(after.records[i] == self.records[i]);
            }
        }
        lemma_numbered(after.records);
        let full = rec.seq % BATCH_SIGN_EVERY == BATCH_SIGN_EVERY - 1;
        let b = batch_of(n);
        let pending = self.pending.push(sha_of(enc(rec.value())));
        assert(digests_of(after.records, b) == pending);
        if full {
            assert(batch_of(n + 1) == b + 1);
            assert forall|i: int| 0 <= i < after.records.len() implies batch_of(
                (#[trigger] after.records[i]).seq as int,
            ) != b + 1 by {
                assert(after.records[i].seq == i);
                assert(i / 256 <= n / 256);
            }
            lemma_no_digests(after.records, b + 1);
        } else {
            assert(batch_of(n + 1) == b);
        }
        assert(after.pending == digests_of(after.records, batch_of(after.next_seq())));
        assert forall|i: int| 0 <= i < after.signatures.len() implies batch_of(
            (#[trigger] after.signatures[i]).0 as int,
        ) < batch_of(after.next_seq()) && stands_by(
            custody,
            after.records,
            after.signatures[i],
        ) by {
            if i < self.signatures.len() {
                let mark = self.signatures[i];
                assert(after.signatures[i] == mark);
                assert(batch_of(mark.0 as int) < b);
                assert(digests_of(after.records, batch_of(mark.0 as int)) == digests_of(
                    self.records,
                    batch_of(mark.0 as int),
                ));
            } else {
                assert(full);
                let hash = sha_of(run_of(pending));
                assert(custody.1.keys.contains_key(custody.1.active));
                assert(after.signatures[i] == (
                    rec.seq,
                    hex_text(batch_mac(custody.1, custody.1.active, hash)),
                ));
            }
        }
        lemma_holding(custody, after.records, after.signatures);
    }

    /// A sound ledger stays so under every later ring that holds the same keys.
    pub proof fn lemma_sound_within(self, tier: EncryptionTier, ring: RingV, later: RingV)
        requires
            self.sound((tier, ring)),
            ring.within(later),
        ensures
            self.sound((tier, later)),
    {
        assert forall|i: int| 0 <= i < self.signatures.len() implies batch_of(
            (#[trigger] self.signatures[i]).0 as int,
        ) < batch_of(self.next_seq()) && stands_by(
            (tier, later),
            self.records,
            self.signatures[i],
        ) by {
            let mark = self.signatures[i];
            let hash = sha_of(run_of(digests_of(self.records, batch_of(mark.0 as int))));
            let now = (tier, ring);
            assert(stands_by(now, self.records, mark));
            assert(vouched(now, mark.1, hash));
            let id = choose|id: u64| #[trigger]
                ring.keys.contains_key(id) && mark.1 == hex_text(batch_mac(ring, id, hash));
            assert(ring.keys.contains_key(id));
            assert(later.keys.contains_key(id));
            assert(batch_mac(later, id, hash) == batch_mac(ring, id, hash));
            let after = (tier, later);
            assert(after.1.keys.contains_key(id) && mark.1 == hex_text(batch_mac(after.1, id, hash)));
            assert(vouched(after, mark.1, hash));
        }
    }

    /// A sound ledger stays so however often the key is rotated.
    pub proof fn lemma_sound_lasts(
        self,
        tier: EncryptionTier,
        ring: RingV,
        turns: Seq<(u64, Seq<u8>)>,
    )
        requires
            self.sound((tier, ring)),
            ring.held(),
            ring.turnable(turns),
        ensures
            self.sound((tier, ring.turned(turns))),
    {
        ring.lemma_turned(turns);
        self.lemma_sound_within(tier, ring, ring.turned(turns));
    }

    /// A sound ledger that was taken up from its snapshot, with its open batch
    /// reloaded, is sound again.
    pub proof fn lemma_reloaded_sound(self, other: LedgerV, custody: (EncryptionTier, RingV))
        requires
            self.sound(custody),
        ensures
            other.restored(self.image()).0.reloaded().sound(custody),
            other.restored(self.image()).0.reloaded().pending == self.pending,
    {
        self.lemma_restore_snapshot(other);
    }

    pub open spec fn next_seq(self) -> int {
        next_of(self.records)
    }

    pub open spec fn rate(self) -> Option<u64> {
        rate_of(window_of(self.records))
    }

    pub open spec fn health(self) -> AgreementHealth {
        health_of(self.rate(), self.quota_low)
    }

    /// The ledger with one more record; a full batch is signed and begun anew.
    pub open spec fn appended(self, rec: CrossCheckRecordV, custody: CustodyV) -> LedgerV {
        let pending = self.pending.push(sha_of(enc(rec.value())));
        let full = rec.seq % BATCH_SIGN_EVERY == BATCH_SIGN_EVERY - 1;
        LedgerV {
            records: self.records.push(rec),
            pending: if full {
                Seq::empty()
            } else {
                pending
            },
            signatures: if !full {
                self.signatures
            } else {
                match signature_of(custody, sha_of(run_of(pending))) {
                    Some(mac) => self.signatures.push((rec.seq, hex_text(mac))),
                    None => self.signatures,
                }
            },
            ..self
        }
    }

    /// The encoded form of a signature.
    pub open spec fn mark(s: (u64, Seq<char>)) -> CborV {
        map_value(seq![("last_seq"@, CborV::U64(s.0)), ("hmac"@, CborV::Text(s.1))])
    }

    /// The state as one value.
    pub open spec fn image(self) -> CborV {
        map_value(
            seq![
                ("records"@, CborV::Array(list_values::<CrossCheckRecord>(self.records))),
                (
                    "batch_signatures"@,
                    CborV::Array(
                        Seq::new(
                            self.signatures.len(),
                            |i: int| LedgerV::mark(self.signatures[i]),
                        ),
                    ),
                ),
            ],
        )
    }

    /// The ledger after a snapshot was taken up, and the error that ended it.
    pub open spec fn restored(self, v: CborV) -> (LedgerV, Option<ErrV>) {
        let (records, e) = list_in::<CrossCheckRecord>(v, "records"@);
        (
            LedgerV {
                records,
                signatures: match (e, v.array_field("batch_signatures"@)) {
                    (None, Some(a)) => marks_of(a),
                    _ => Seq::empty(),
                },
                ..self
            },
            e,
        )
    }

    /// What a query answers.
    pub open spec fn answer(self, q: CborV) -> Result<CborV, ErrV> {
        let tail = match q.text_field("op"@) {
            None => true,
            Some(op) => op == "tail"@,
        };
        if tail {
            let n = match q.u64_field("n"@) {
                Some(n) => n,
                None => 20,
            };
            Ok(
                map_value(
                    seq![
                        (
                            "records"@,
                            CborV::Array(
                                list_values::<CrossCheckRecord>(last_n(self.records, n as int)),
                            ),
                        ),
                        (
                            "agreement_rate"@,
                            match self.rate() {
                                Some(b) => CborV::F64(b),
                                None => CborV::Null,
                            },
                        ),
                        ("health"@, CborV::Text(self.health().name())),
                    ],
                ),
            )
        } else {
            Err((ErrCode::ContractViolation, "cross_check: unknown op"@))
        }
    }

    /// Taking up a snapshot of a ledger gives its records and signatures back,
    /// and with them the rate of agreement and the next number.
    pub proof fn lemma_restore_snapshot(self, other: LedgerV)
        ensures
            other.restored(self.image()).1 is None,
            other.restored(self.image()).0.records == self.records,
            other.restored(self.image()).0.signatures == self.signatures,
            other.restored(self.image()).0.rate() == self.rate(),
            other.restored(self.image()).0.next_seq() == self.next_seq(),
            other.restored(self.image()).0.image() == self.image(),
    {
        let v = self.image();
        let marks = Seq::new(self.signatures.len(), |i: int| LedgerV::mark(self.signatures[i]));
        let m = v->Pairs_0;
        reveal_strlit("records");
        reveal_strlit("batch_signatures");
        assert("records"@.len() == 7);
        assert("batch_signatures"@.len() == 16);
        reveal_with_fuel(lookup_from, 3);
        assert(m[0].0 == CborV::Text("records"@));
        assert(m[1].0 == CborV::Text("batch_signatures"@));
        assert(v.field("records"@) == Some(CborV::Array(list_values::<CrossCheckRecord>(self.records))));
        assert(v.field("batch_signatures"@) == Some(CborV::Array(marks)));
        lemma_list_back::<CrossCheckRecord>(self.records);
        assert forall|i: int| 0 <= i < marks.len() implies #[trigger] marks_of(marks)[i]
            == self.signatures[i] by {
            let one = LedgerV::mark(self.signatures[i]);
            assert(marks[i] == one);
            let p = one->Pairs_0;
            reveal_strlit("last_seq");
            reveal_strlit("hmac");
            assert("last_seq"@.len() == 8);
            assert("hmac"@.len() == 4);
            assert(p[0].0 == CborV::Text("last_seq"@));
            assert(p[1].0 == CborV::Text("hmac"@));
            assert(one.field("last_seq"@) == Some(CborV::U64(self.signatures[i].0)));
            assert(one.field("hmac"@) == Some(CborV::Text(self.signatures[i].1)));
        }
        assert(marks_of(marks) =~= self.signatures);
    }
}

/// The audits of a ledger are its records of that kind, in order, each by whether it
/// agreed.
pub proof fn lemma_audits(rs: Seq<CrossCheckRecordV>)
    ensures
        audits(rs) == rs.filter(|r: CrossCheckRecordV| r.kind is WardenAudit).map_values(
            |r: CrossCheckRecordV| r.outcome is Agree,
        ),
    decreases rs.len(),
{
    reveal(Seq::filter);
    let f = |r: CrossCheckRecordV| r.kind is WardenAudit;
    let g = |r: CrossCheckRecordV| r.outcome is Agree;
    if rs.len() > 0 {
        lemma_audits(rs.drop_last());
        assert(audits(rs) =~= rs.filter(f).map_values(g));
    } else {
        assert(audits(rs) =~= rs.filter(f).map_values(g));
    }
}

/// A count of what is true is the number of those that are.
pub proof fn lemma_count_true(s: Seq<bool>)
    ensures
        count_true(s) == s.filter(|b: bool| b).len(),
        count_true(s) <= s.len(),
    decreases s.len(),
{
    reveal(Seq::filter);
    if s.len() > 0 {
        lemma_count_true(s.drop_last());
    }
}

/// The window holds the last 200 audits, or all of them where there are fewer, in order.
pub proof fn lemma_window(rs: Seq<CrossCheckRecordV>, i: int)
    ensures
        ({
            let (all, w) = (audits(rs), window_of(rs));
            &&& w.len() == if all.len() < 200 {
                all.len() as int
            } else {
                200
            }
            &&& 0 <= i < w.len() ==> w[i] == all[all.len() - w.len() + i]
        }),
{
}

/// A ledger with fewer than 20 audits says nothing of its health. Beyond that it is
/// suspicious where more than 99 of a hundred agree, out of step where fewer agree than the
/// band allows, and else healthy.
pub proof fn lemma_health(l: LedgerV)
    ensures
        ({
            let w = window_of(l.records);
            let rate = ratio_bits(w.filter(|b: bool| b).len(), w.len()) as u64;
            let enough = w.len() >= 20;
            &&& l.rate() is Some <==> enough
            &&& enough ==> l.rate() == Some(rate)
            &&& l.health() is InsufficientData <==> !enough
            &&& l.health() is SuspiciousAgreement <==> enough && below(0x3FEF_AE14_7AE1_47AE, rate)
            &&& l.health() is Miscalibration <==> enough && !below(0x3FEF_AE14_7AE1_47AE, rate)
                && below(rate, l.quota_low)
            &&& l.health() is Healthy <==> enough && !below(0x3FEF_AE14_7AE1_47AE, rate) && !below(
                rate,
                l.quota_low,
            )
        }),
{
    lemma_count_true(window_of(l.records));
}

/// Appending adds the record at the end and changes no other; its band stays.
pub proof fn lemma_appended(
    l: LedgerV,
    rec: CrossCheckRecordV,
    custody: CustodyV,
    i: int,
)
    requires
        0 <= i < l.records.len(),
    ensures
        ({
            let now = l.appended(rec, custody);
            &&& now.records.len() == l.records.len() + 1
            &&& now.records.last() == rec
            &&& now.records[i] == l.records[i]
            &&& now.quota_low == l.quota_low && now.quota_high == l.quota_high
            &&& now.signatures.len() <= l.signatures.len() + 1
        }),
{
}

/// How often an outcome stands in a ledger is the number of its records with it, as long as
/// a machine can count them; an outcome that none has is left out.
pub proof fn lemma_outcomes(rs: Seq<CrossCheckRecordV>, o: CrossCheckOutcome)
    requires
        rs.len() <= u64::MAX,
    ensures
        ({
            let n = rs.filter(|r: CrossCheckRecordV| r.outcome == o).len();
            &&& outcomes_of(rs).contains_key(o.name()) <==> n > 0
            &&& n > 0 ==> outcomes_of(rs)[o.name()] == n
            &&& n <= rs.len()
        }),
    decreases rs.len(),
{
    reveal(Seq::filter);
    if rs.len() > 0 {
        lemma_outcomes(rs.drop_last(), o);
        CrossCheckOutcome::lemma_named(rs.last().outcome, o);
    }
}

/// The signatures in encoded form.
pub open spec fn marks_of(a: Seq<CborV>) -> Seq<(u64, Seq<char>)> {
    Seq::new(a.len(), |i: int| (u64_or_zero(a[i], "last_seq"@), text_or_empty(a[i], "hmac"@)))
}

/// The window forgets: where the last audits all agreed and fill it, the rate is
/// one, whatever came before.
pub proof fn lemma_window_rolls(older: Seq<CrossCheckRecordV>, newer: Seq<CrossCheckRecordV>)
    requires
        newer.len() >= AGREEMENT_WINDOW,
        forall|i: int|
            0 <= i < newer.len() ==> (#[trigger] newer[i]).kind is WardenAudit
                && newer[i].outcome is Agree,
    ensures
        window_of(older + newer).len() == AGREEMENT_WINDOW,
        forall|i: int|
            0 <= i < AGREEMENT_WINDOW ==> #[trigger] window_of(older + newer)[i],
{
    lemma_audits_behind(older, newer);
    let a = audits(older + newer);
    assert forall|i: int| 0 <= i < AGREEMENT_WINDOW implies #[trigger] window_of(
        older + newer,
    )[i] by {
        assert(a[a.len() - AGREEMENT_WINDOW + i]);
    }
}

proof fn lemma_audits_behind(older: Seq<CrossCheckRecordV>, newer: Seq<CrossCheckRecordV>)
    requires
        forall|i: int|
            0 <= i < newer.len() ==> (#[trigger] newer[i]).kind is WardenAudit
                && newer[i].outcome is Agree,
    ensures
        audits(older + newer).len() == audits(older).len() + newer.len(),
        forall|i: int|
            audits(older).len() <= i < audits(older + newer).len() ==> #[trigger] audits(
                older + newer,
            )[i],
    decreases newer.len(),
{
    if newer.len() == 0 {
        assert(older + newer =~= older);
    } else {
        let front = newer.drop_last();
        assert forall|i: int| 0 <= i < front.len() implies (#[trigger] front[i]).kind is WardenAudit
            && front[i].outcome is Agree by {
            assert(front[i] == newer[i]);
        }
        lemma_audits_behind(older, front);
        assert((older + newer).drop_last() =~= older + front);
        assert((older + newer).last() == newer[newer.len() - 1]);
    }
}

/// The ledger of cross-checks.
#[derive(Debug)]
pub struct CrossCheckLedgerCell {
    id: CellId,
    records: Vec<CrossCheckRecord>,
    next_seq: u64,
    window: Vec<bool>,
    quota_low: u64,
    quota_high: u64,
    batch_hashes: Vec<[u8; 32]>,
    batch_signatures: Vec<(u64, String)>,
}

/// Digests as byte strings.
pub open spec fn hash_views(hs: Seq<[u8; 32]>) -> Seq<Seq<u8>> {
    Seq::new(hs.len(), |i: int| hs[i]@)
}

/// Signatures as mathematical objects.
pub open spec fn mark_views(s: Seq<(u64, String)>) -> Seq<(u64, Seq<char>)> {
    Seq::new(s.len(), |i: int| (s[i].0, s[i].1@))
}

impl View for CrossCheckLedgerCell {
    type V = LedgerV;

    closed spec fn view(&self) -> LedgerV {
        LedgerV {
            records: self.records.deep_view(),
            pending: hash_views(self.batch_hashes@),
            signatures: mark_views(self.batch_signatures@),
            quota_low: self.quota_low,
            quota_high: self.quota_high,
        }
    }
}

/// What custody stands for in contracts.
pub open spec fn custody_view(kms: Option<&Kms>) -> CustodyV {
    match kms {
        Some(k) => Some(k@),
        None => None,
    }
}

/// The metrics after an append: a bad state of health is counted with every
/// audit, and every record is.
pub open spec fn append_metrics(m: MetricsV, audit: bool, health: AgreementHealth) -> MetricsV {
    let m = if audit && health is SuspiciousAgreement {
        m.noted("curator.suspicious_agreement"@)
    } else if audit && health is Miscalibration {
        m.noted("curator.miscalibration"@)
    } else {
        m
    };
    m.noted("cross_check.records"@)
}

proof fn lemma_next_push(rs: Seq<CrossCheckRecordV>, r: CrossCheckRecordV)
    ensures
        next_of(rs.push(r)) == if r.seq + 1 > next_of(rs) {
            r.seq + 1
        } else {
            next_of(rs)
        },
        audits(rs.push(r)) == if r.kind is WardenAudit {
            audits(rs).push(r.outcome is Agree)
        } else {
            audits(rs)
        },
{
    assert(rs.push(r).drop_last() =~= rs);
}

fn push_window(w: &mut Vec<bool>, agreed: bool, Ghost(a): Ghost<Seq<bool>>)
    requires
        old(w)@ == last_n(a, AGREEMENT_WINDOW as int),
    ensures
        final(w)@ == last_n(a.push(agreed), AGREEMENT_WINDOW as int),
{
    if w.len() == AGREEMENT_WINDOW {
        w.remove(0);
    }
    w.push(agreed);
    assert(w@ =~= last_n(a.push(agreed), AGREEMENT_WINDOW as int));
}

impl CrossCheckLedgerCell {
    /// The id of the cell.
    pub closed spec fn ident(&self) -> CellId {
        self.id
    }

    /// The window and the next number are those of the records.
    pub closed spec fn whole(&self) -> bool {
        self.window@ == window_of(self@.records) && self.next_seq == self@.next_seq()
    }

    pub fn new(id: CellId) -> (r: Self)
        ensures
            r.ident() == id,
            r.whole(),
            r@ == (LedgerV {
                records: Seq::empty(),
                pending: Seq::empty(),
                signatures: Seq::empty(),
                quota_low: QUOTA_LOW,
                quota_high: QUOTA_HIGH,
            }),
    {
        let r = CrossCheckLedgerCell {
            id,
            records: Vec::new(),
            next_seq: 0,
            window: Vec::new(),
            quota_low: QUOTA_LOW,
            quota_high: QUOTA_HIGH,
            batch_hashes: Vec::new(),
            batch_signatures: Vec::new(),
        };
        proof {
            assert(r@.records =~= Seq::empty());
            assert(r@.pending =~= Seq::empty());
            assert(r@.signatures =~= Seq::empty());
            assert(r.window@ =~= window_of(r@.records));
        }
        r
    }

    /// Sets the band.
    pub fn set_quota(&mut self, low: u64, high: u64)
        ensures
            final(self).ident() == old(self).ident(),
            old(self).whole() ==> final(self).whole(),
            final(self)@ == (LedgerV { quota_low: low, quota_high: high, ..old(self)@ }),
    {
        self.quota_low = low;
        self.quota_high = high;
    }

    /// The next record.
    pub open spec fn record_of(
        next_seq: u64,
        logical_at: u64,
        kind: CrossCheckKind,
        initiator: Seq<char>,
        auditor: Seq<char>,
        outcome: CrossCheckOutcome,
        adjudication: Option<Seq<char>>,
    ) -> CrossCheckRecordV {
        CrossCheckRecordV {
            seq: next_seq,
            kind,
            initiator,
            auditor,
            outcome,
            adjudication,
            logical_at,
        }
    }

    fn make_record(
        &self,
        logical_at: u64,
        kind: CrossCheckKind,
        initiator: &str,
        auditor: &str,
        outcome: CrossCheckOutcome,
        adjudication: &Option<String>,
    ) -> (r: CrossCheckRecord)
        requires
            self.whole(),
        ensures
            r.deep_view() == Self::record_of(
                self@.next_seq() as u64,
                logical_at,
                kind,
                initiator@,
                auditor@,
                outcome,
                adjudication.deep_view(),
            ),
    {
        CrossCheckRecord {
            seq: self.next_seq,
            kind,
            initiator: initiator.to_string(),
            auditor: auditor.to_string(),
            outcome,
            adjudication: dup_text(adjudication),
            logical_at,
        }
    }

    /// The frame that makes the next record durable; it has to be written before
    /// the record is appended.
    pub fn frame(
        &self,
        logical_at: u64,
        kind: CrossCheckKind,
        initiator: &str,
        auditor: &str,
        outcome: CrossCheckOutcome,
        adjudication: &Option<String>,
    ) -> (r: WalFrame)
        requires
            self.whole(),
        ensures
            r@ == (FrameV {
                logical_at,
                cell_id: self.ident().0,
                op: WalOp::CrossCheck,
                schema_ver: 1,
                flags: FLAG_CROSS_CHECK,
                payload: enc(
                    Self::record_of(
                        self@.next_seq() as u64,
                        logical_at,
                        kind,
                        initiator@,
                        auditor@,
                        outcome,
                        adjudication.deep_view(),
                    ).value(),
                ),
            }),
    {
        let rec = self.make_record(logical_at, kind, initiator, auditor, outcome, adjudication);
        WalFrame {
            logical_at,
            cell_id: self.id.0,
            op: WalOp::CrossCheck,
            schema_ver: 1,
            flags: FLAG_CROSS_CHECK,
            payload: rec.to_cbor().encode(),
        }
    }

    /// Appends a record whose frame was written; where it was not, the ledger
    /// stays as it is. Gives the record's number.
    pub fn append(
        &mut self,
        metrics: &mut Metrics,
        logical_at: u64,
        kind: CrossCheckKind,
        initiator: &str,
        auditor: &str,
        outcome: CrossCheckOutcome,
        adjudication: Option<String>,
        written: Result<(), String>,
        kms: Option<&Kms>,
    ) -> (r: UcResult<u64>)
        requires
            old(self).whole(),
            old(self)@.next_seq() < u64::MAX,
        ensures
            final(self).ident() == old(self).ident(),
            final(self).whole(),
            match written {
                Err(e) => {
                    &&& agrees(r, Err((ErrCode::Internal, e@)))
                    &&& final(self)@ == old(self)@
                    &&& final(metrics)@ == old(metrics)@
                },
                Ok(_) => {
                    &&& agrees(r, Ok(old(self)@.next_seq() as u64))
                    &&& final(self)@ == old(self)@.appended(
                        Self::record_of(
                            old(self)@.next_seq() as u64,
                            logical_at,
                            kind,
                            initiator@,
                            auditor@,
                            outcome,
                            adjudication.deep_view(),
                        ),
                        custody_view(kms),
                    )
                    &&& final(metrics)@ == append_metrics(
                        old(metrics)@,
                        kind is WardenAudit,
                        final(self)@.health(),
                    )
                },
            },
    {
        let rec = self.make_record(logical_at, kind, initiator, auditor, outcome, &adjudication);
        if let Err(e) = written {
            return Err(UcError::internal(e.as_str()));
        }
        let ghost was = self@;
        let ghost v = rec.deep_view();
        let seq: u64 = self.next_seq;
        let hash = sha256(rec.to_cbor().encode().as_slice());
        self.batch_hashes.push(hash);
        assert(hash_views(self.batch_hashes@) =~= was.pending.push(hash@));
        proof {
            lemma_next_push(was.records, v);
        }
        if kind == CrossCheckKind::WardenAudit {
            push_window(
                &mut self.window,
                outcome == CrossCheckOutcome::Agree,
                Ghost(audits(was.records)),
            );
        }
        if seq % BATCH_SIGN_EVERY == BATCH_SIGN_EVERY - 1 {
            self.sign_batch(kms);
        }
        self.records.push(rec);
        self.next_seq = seq + 1;
        assert(self@.records =~= was.records.push(v));
        assert(self@ =~= was.appended(v, custody_view(kms)));
        if kind == CrossCheckKind::WardenAudit {
            match self.health() {
                AgreementHealth::SuspiciousAgreement => {
                    metrics.inc("curator.suspicious_agreement");
                },
                AgreementHealth::Miscalibration => {
                    metrics.inc("curator.miscalibration");
                },
                _ => {},
            }
        }
        metrics.inc("cross_check.records");
        Ok(seq)
    }

    fn sign_batch(&mut self, kms: Option<&Kms>)
        ensures
            final(self).ident() == old(self).ident(),
            final(self).window@ == old(self).window@,
            final(self).next_seq == old(self).next_seq,
            final(self)@ == (LedgerV {
                pending: Seq::empty(),
                signatures: match signature_of(
                    custody_view(kms),
                    sha_of(run_of(old(self)@.pending)),
                ) {
                    Some(mac) => old(self)@.signatures.push((old(self).next_seq, hex_text(mac))),
                    None => old(self)@.signatures,
                },
                ..old(self)@
            }),
    {
        let ghost was = self@;
        if let Some(k) = kms {
            let digest = digest_of(&self.batch_hashes);
            if let Some(sig) = k.batch_sign(&digest) {
                let text = hex(&sig.mac);
                let seq: u64 = self.next_seq;
                self.batch_signatures.push((seq, text));
                assert(mark_views(self.batch_signatures@) =~= was.signatures.push((seq, text@)));
            }
        }
        self.batch_hashes = Vec::new();
        assert(hash_views(self.batch_hashes@) =~= Seq::empty());
    }

    /// The rate of agreement over the last audits.
    pub fn agreement_rate(&self) -> (r: Option<u64>)
        requires
            self.whole(),
        ensures
            r == self@.rate(),
    {
        let n: usize = self.window.len();
        if n < LEAST_AUDITS {
            return None;
        }
        let ghost w = self.window@;
        let mut agree: u64 = 0;
        let mut i: usize = 0;
        assert(w.take(0) =~= Seq::empty());
        while i < n
            invariant
                i <= n == w.len() <= AGREEMENT_WINDOW,
                w == self.window@,
                agree == count_true(w.take(i as int)),
                agree <= i,
            decreases n - i,
        {
            assert(w.take(i + 1).drop_last() =~= w.take(i as int));
            if self.window[i] {
                agree += 1;
            }
            i += 1;
        }
        assert(w.take(n as int) =~= w);
        Some(ratio(agree, n as u64))
    }

    pub fn health(&self) -> (r: AgreementHealth)
        requires
            self.whole(),
        ensures
            r == self@.health(),
    {
        match self.agreement_rate() {
            None => AgreementHealth::InsufficientData,
            Some(r) => {
                if less(SUSPICIOUS_ABOVE, r) {
                    AgreementHealth::SuspiciousAgreement
                } else if less(r, self.quota_low) {
                    AgreementHealth::Miscalibration
                } else {
                    AgreementHealth::Healthy
                }
            },
        }
    }

    /// By how much probing is stepped up, as the bits of a double.
    pub fn probe_boost(&self) -> (r: u64)
        requires
            self.whole(),
        ensures
            r == if self@.health() is SuspiciousAgreement {
                TEN
            } else {
                ONE
            },
    {
        match self.health() {
            AgreementHealth::SuspiciousAgreement => TEN,
            _ => ONE,
        }
    }

    /// The last records, in their encoded form.
    pub fn tail(&self, n: u64) -> (r: Vec<Cbor>)
        ensures
            views(r@) == list_values::<CrossCheckRecord>(last_n(self@.records, n as int)),
    {
        let len: usize = self.records.len();
        let from: usize = if len as u64 > n { len - n as usize } else { 0 };
        assert(self@.records.skip(from as int) =~= last_n(self@.records, n as int));
        to_list(&self.records, from)
    }

    pub fn len(&self) -> (r: usize)
        ensures
            r == self@.records.len(),
    {
        self.records.len()
    }

    pub fn is_empty(&self) -> (r: bool)
        ensures
            r == (self@.records.len() == 0),
    {
        self.records.len() == 0
    }

    /// How many records have each outcome.
    pub fn outcome_counts(&self) -> (r: TextMap<u64>)
        ensures
            r@ == outcomes_of(self@.records),
    {
        let mut out: TextMap<u64> = TextMap::new();
        let ghost all = self@.records;
        let mut i: usize = 0;
        assert(all.take(0) =~= Seq::empty());
        while i < self.records.len()
            invariant
                i <= self.records@.len(),
                all == self@.records,
                out@ == outcomes_of(all.take(i as int)),
                forall|k: Seq<char>| #[trigger] out@.contains_key(k) ==> out@[k] <= i,
            decreases self.records.len() - i,
        {
            assert(all.take(i + 1).drop_last() =~= all.take(i as int));
            assert(all[i as int] == self.records@[i as int].deep_view());
            let k = self.records[i].outcome.as_str();
            let n: u64 = match out.get(k) {
                Some(n) => *n,
                None => 0,
            };
            out.insert(k.to_string(), n + 1);
            i += 1;
        }
        assert(all.take(i as int) =~= all);
        out
    }

    /// The signatures so far, each with the last record of its batch.
    pub fn batch_signatures(&self) -> (r: &Vec<(u64, String)>)
        ensures
            mark_views(r@) == self@.signatures,
    {
        &self.batch_signatures
    }

    /// The digests of the records of a batch, one behind the other.
    fn batch_run(&self, batch: u64) -> (r: Vec<[u8; 32]>)
        ensures
            hash_views(r@) == digests_of(self@.records, batch as int),
    {
        let ghost all = self@.records;
        let mut out: Vec<[u8; 32]> = Vec::new();
        let mut i: usize = 0;
        assert(all.take(0) =~= Seq::empty());
        assert(hash_views(out@) =~= Seq::empty());
        while i < self.records.len()
            invariant
                i <= self.records@.len(),
                all == self.records.deep_view(),
                hash_views(out@) == digests_of(all.take(i as int), batch as int),
            decreases self.records.len() - i,
        {
            let rec = &self.records[i];
            let ghost before = hash_views(out@);
            assert(all.take(i + 1).drop_last() =~= all.take(i as int));
            assert(all.take(i + 1).last() == rec.deep_view());
            if rec.seq / BATCH_SIGN_EVERY == batch {
                let hash = sha256(rec.to_cbor().encode().as_slice());
                out.push(hash);
                assert(hash_views(out@) =~= before.push(hash@));
            }
            i += 1;
        }
        assert(all.take(i as int) =~= all);
        out
    }

    /// Takes the digests of the open batch anew from the records, as a node does
    /// that took up a snapshot.
    pub fn reload_signature_state(&mut self)
        requires
            old(self).whole(),
        ensures
            final(self).ident() == old(self).ident(),
            final(self).whole(),
            final(self)@ == old(self)@.reloaded(),
    {
        let hashes = self.batch_run(self.next_seq / BATCH_SIGN_EVERY);
        self.batch_hashes = hashes;
        assert(self@ =~= old(self)@.reloaded());
    }

    /// How many signatures hold over the records of their batches, before the first
    /// that does not, and whether all of them do.
    pub fn verify_batch_signatures(&self, kms: &Kms) -> (r: (u64, bool))
        ensures
            r.0 == holding(kms@, self@.records, self@.signatures),
            r.1 == (forall|i: int|
                0 <= i < self@.signatures.len() ==> stands_by(
                    kms@,
                    self@.records,
                    #[trigger] self@.signatures[i],
                )),
    {
        let ghost marks = self@.signatures;
        let mut n: usize = 0;
        let mut i: usize = 0;
        assert(marks.take(0) =~= Seq::empty());
        while i < self.batch_signatures.len()
            invariant
                i <= self.batch_signatures@.len(),
                marks == mark_views(self.batch_signatures@),
                n <= i,
                n == holding(kms@, self@.records, marks.take(i as int)),
            decreases self.batch_signatures.len() - i,
        {
            let (seq, text) = &self.batch_signatures[i];
            assert(marks.take(i + 1).drop_last() =~= marks.take(i as int));
            assert(marks.take(i + 1).last() == (*seq, text@));
            if n == i {
                let hashes = self.batch_run(*seq / BATCH_SIGN_EVERY);
                let digest = digest_of(&hashes);
                if kms.vouches(text.as_str(), &digest) {
                    n += 1;
                }
            }
            i += 1;
        }
        assert(marks.take(i as int) =~= marks);
        proof {
            lemma_holding(kms@, self@.records, marks);
        }
        (n as u64, n == i)
    }
}

/// The digest of digests one behind the other.
fn digest_of(hashes: &Vec<[u8; 32]>) -> (r: [u8; 32])
    ensures
        r@ == sha_of(run_of(hash_views(hashes@))),
{
    let ghost all = hash_views(hashes@);
    let mut run: Vec<u8> = Vec::new();
    let mut i: usize = 0;
    assert(all.take(0) =~= Seq::empty());
    while i < hashes.len()
        invariant
            i <= hashes@.len(),
            all == hash_views(hashes@),
            run@ == run_of(all.take(i as int)),
        decreases hashes.len() - i,
    {
        assert(all.take(i + 1).drop_last() =~= all.take(i as int));
        push_all(&mut run, &hashes[i]);
        i += 1;
    }
    assert(all.take(i as int) =~= all);
    sha256(run.as_slice())
}

/// A snapshot whose record numbers leave room for the next.
pub open spec fn numbers_fit(state: CborV) -> bool {
    next_of(list_in::<CrossCheckRecord>(state, "records"@).0) <= u64::MAX
}

/// Tells whether the records of a snapshot can be counted on.
pub fn numbers_stand(state: &Cbor) -> (r: bool)
    ensures
        r == numbers_fit(state@),
{
    let records = from_list::<CrossCheckRecord>(state, "records").0;
    let ghost all = records.deep_view();
    let mut i: usize = 0;
    assert(all.take(0) =~= Seq::empty());
    while i < records.len()
        invariant
            i <= records@.len(),
            all == records.deep_view(),
            all == list_in::<CrossCheckRecord>(state@, "records"@).0,
            next_of(all.take(i as int)) <= u64::MAX,
        decreases records.len() - i,
    {
        proof {
            let v = records@[i as int].deep_view();
            assert(all[i as int] == v);
            assert(all.take(i + 1) =~= all.take(i as int).push(v));
            lemma_next_push(all.take(i as int), v);
            lemma_next_grows(all, i + 1);
        }
        if records[i].seq == u64::MAX {
            return false;
        }
        i += 1;
    }
    assert(all.take(all.len() as int) =~= all);
    true
}

impl CellBehavior for CrossCheckLedgerCell {
    open spec fn wf(&self) -> bool {
        self.whole()
    }

    open spec fn accepts(&self, logical_at: u64, update: CborV) -> bool {
        true
    }

    open spec fn restorable(state: CborV) -> bool {
        numbers_fit(state)
    }

    fn cell_id(&self) -> (r: CellId)
        ensures
            r == self.ident(),
    {
        self.id
    }

    fn cell_type(&self) -> (r: CellType)
        ensures
            r == CellType::CrossCheckLedger,
    {
        CellType::CrossCheckLedger
    }

    fn schema_id(&self) -> (r: SchemaId)
        ensures
            r.0@ == "curator.cross_check_ledger.v1"@,
    {
        SchemaId::new("curator.cross_check_ledger.v1")
    }

    fn on_query(&self, _at: u64, query: &Cbor) -> (r: UcResult<Cbor>)
        ensures
            agrees(r, self@.answer(query@)),
    {
        let tail: bool = match query.opt_str("op") {
            None => true,
            Some(op) => str_eq(op.as_str(), "tail"),
        };
        if !tail {
            return Err(UcError::schema("cross_check: unknown op"));
        }
        let n: u64 = match query.opt_u64("n") {
            Some(n) => n,
            None => 20,
        };
        let rate = match self.agreement_rate() {
            Some(b) => Cbor::f(b),
            None => Cbor::Null,
        };
        assert(rate@ == match self@.rate() {
            Some(b) => CborV::F64(b),
            None => CborV::Null,
        });
        let items = Cbor::arr(self.tail(n));
        let h = Cbor::t(self.health().as_str());
        let r = Cbor::map3("records", items, "agreement_rate", rate, "health", h);
        assert(r@->Pairs_0 =~= self@.answer(query@)->Ok_0->Pairs_0);
        Ok(r)
    }

    fn on_update(&mut self, _at: u64, _update: &Cbor) -> (r: UcResult<Cbor>)
        ensures
            *final(self) == *old(self),
            agrees(
                r,
                Err(
                    (
                        ErrCode::ContractViolation,
                        "cross_check ledger is appended by the curator flow, not direct writes"@,
                    ),
                ),
            ),
    {
        Err(
            UcError::schema(
                "cross_check ledger is appended by the curator flow, not direct writes",
            ),
        )
    }

    fn snapshot_state(&self) -> (r: Cbor)
        ensures
            r@ == self@.image(),
    {
        let ghost want = Seq::new(
            self@.signatures.len(),
            |i: int| LedgerV::mark(self@.signatures[i]),
        );
        let mut sigs: Vec<Cbor> = Vec::new();
        let mut i: usize = 0;
        assert(views(sigs@) =~= want.take(0));
        while i < self.batch_signatures.len()
            invariant
                i <= self.batch_signatures@.len(),
                self@.signatures == mark_views(self.batch_signatures@),
                want == Seq::new(
                    self@.signatures.len(),
                    |i: int| LedgerV::mark(self@.signatures[i]),
                ),
                views(sigs@) == want.take(i as int),
            decreases self.batch_signatures.len() - i,
        {
            let ghost before = views(sigs@);
            let s = &self.batch_signatures[i];
            let one = Cbor::map2(
                "last_seq",
                Cbor::U64(s.0),
                "hmac",
                Cbor::t(s.1.as_str()),
            );
            sigs.push(one);
            assert(views(sigs@) =~= before.push(one@));
            i += 1;
            assert(want.take(i as int) =~= want.take(i - 1).push(want[i - 1]));
        }
        assert(want.take(want.len() as int) =~= want);
        let items = to_list(&self.records, 0);
        assert(self@.records.skip(0) =~= self@.records);
        Cbor::map2("records", Cbor::arr(items), "batch_signatures", Cbor::arr(sigs))
    }

    fn restore_state(&mut self, state: &Cbor) -> (r: UcResult<()>)
        ensures
            final(self).ident() == old(self).ident(),
            final(self)@ == old(self)@.restored(state@).0,
            agrees(r, done(old(self)@.restored(state@).1)),
    {
        let ghost was = self@;
        let (records, outcome) = from_list::<CrossCheckRecord>(state, "records");
        let ghost all = records.deep_view();
        self.window = Vec::new();
        self.next_seq = 0;
        self.batch_signatures = Vec::new();
        let mut i: usize = 0;
        proof {
            assert(all.take(0) =~= Seq::empty());
            assert(self.window@ =~= window_of(all.take(0)));
            lemma_next_grows(all, 0);
        }
        while i < records.len()
            invariant
                i <= records@.len(),
                all == records.deep_view(),
                next_of(all) <= u64::MAX,
                self.next_seq == next_of(all.take(i as int)),
                self.window@ == window_of(all.take(i as int)),
                self.id == old(self).id,
                self.batch_hashes@ == old(self).batch_hashes@,
                self.quota_low == old(self).quota_low,
                self.quota_high == old(self).quota_high,
                self.batch_signatures@.len() == 0,
            decreases records.len() - i,
        {
            let rec = &records[i];
            proof {
                let v = rec.deep_view();
                assert(all[i as int] == v);
                assert(all.take(i + 1) =~= all.take(i as int).push(v));
                lemma_next_push(all.take(i as int), v);
                lemma_next_grows(all, i + 1);
            }
            if rec.kind == CrossCheckKind::WardenAudit {
                push_window(
                    &mut self.window,
                    rec.outcome == CrossCheckOutcome::Agree,
                    Ghost(audits(all.take(i as int))),
                );
            }
            if rec.seq >= self.next_seq {
                self.next_seq = rec.seq + 1;
            }
            i += 1;
        }
        assert(all.take(i as int) =~= all);
        self.records = records;
        if let Err(e) = outcome {
            assert(self@.signatures =~= Seq::empty());
            assert(self@ =~= was.restored(state@).0);
            return Err(e);
        }
        if let Some(items) = state.opt_array("batch_signatures") {
            let ghost want = marks_of(views(items@));
            let mut sigs: Vec<(u64, String)> = Vec::new();
            let mut k: usize = 0;
            assert(mark_views(sigs@) =~= want.take(0));
            while k < items.len()
                invariant
                    k <= items@.len(),
                    want == marks_of(views(items@)),
                    mark_views(sigs@) == want.take(k as int),
                decreases items.len() - k,
            {
                let ghost before = mark_views(sigs@);
                let seq: u64 = items[k].u64_or_zero("last_seq");
                let text = items[k].str_or_empty("hmac");
                sigs.push((seq, text));
                assert(mark_views(sigs@) =~= before.push((seq, text@)));
                assert(want[k as int] == (seq, text@));
                k += 1;
                assert(want.take(k as int) =~= want.take(k - 1).push(want[k - 1]));
            }
            assert(want.take(want.len() as int) =~= want);
            self.batch_signatures = sigs;
        }
        assert(self@.signatures =~= was.restored(state@).0.signatures);
        assert(self@ =~= was.restored(state@).0);
        Ok(())
    }
}

proof fn lemma_next_grows(rs: Seq<CrossCheckRecordV>, n: int)
    requires
        0 <= n <= rs.len(),
    ensures
        0 <= next_of(rs.take(n)) <= next_of(rs),
    decreases rs.len() - n,
{
    if n < rs.len() {
        lemma_next_grows(rs, n + 1);
        assert(rs.take(n + 1).drop_last() =~= rs.take(n));
        lemma_next_nonneg(rs.take(n));
    } else {
        assert(rs.take(n) =~= rs);
        lemma_next_nonneg(rs);
    }
}

proof fn lemma_next_nonneg(rs: Seq<CrossCheckRecordV>)
    ensures
        0 <= next_of(rs),
    decreases rs.len(),
{
    if rs.len() > 0 {
        lemma_next_nonneg(rs.drop_last());
    }
}

} // verus!
