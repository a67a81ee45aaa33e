//! Configuration: the settings of a node, and how a file, the environment and
//! the command line change them.

use vstd::prelude::*;
use crate::cbor::text_views;
use crate::curator::ledger::{QUOTA_HIGH, QUOTA_LOW};
use crate::minitoml::{FloatText, TomlDoc, TomlDocV, TomlV, TomlValue};
use crate::net::{
    known_of, listen_verdict, resolved_view, validate_tcp_listen_addr, Resolved, ResolvedV,
};
use crate::obs::otlp::{default_otlp, OtlpConfig, OtlpConfigV};
use crate::persist::kms::EncryptionTier;
use crate::persist::store::{ascii_lower, lower_ascii};
use crate::text::{
    cat2, cat3, char_views, chars_of, digit_value, digits_of, parse_u64, pieces, split_marked, str_eq,
    string_of, trim_chars, trimmed, u64_of,
};
use crate::textmap::{text_order, TextMap};
use crate::vocab::{agrees, ErrCode, ErrV, ShardTopology, UcError, UcResult};

verus! {

/// The bits of 0.001, the usual rate of probes.
pub const PROBE_RATE: u64 = 0x3F50_624D_D2F1_A9FC;

/// The bits of 0.01, the usual rate of blind re-audits.
pub const BLIND_REAUDIT_RATE: u64 = 0x3F84_7AE1_47AE_147B;

/// How much memory the curators' models may keep.
#[derive(Clone, Copy, Debug, PartialEq, Eq, Structural)]
pub enum CuratorKvBudgetProfile {
    Small,
    Reference,
    Heavy,
}

impl CuratorKvBudgetProfile {
    /// The text that stands for a profile.
    pub open spec fn name(self) -> Seq<char> {
        match self {
            CuratorKvBudgetProfile::Small => "small"@,
            CuratorKvBudgetProfile::Reference => "reference"@,
            CuratorKvBudgetProfile::Heavy => "heavy"@,
        }
    }

    /// The profile with that name.
    pub open spec fn named(s: Seq<char>) -> Option<CuratorKvBudgetProfile> {
        if s == "small"@ {
            Some(CuratorKvBudgetProfile::Small)
        } else if s == "reference"@ {
            Some(CuratorKvBudgetProfile::Reference)
        } else if s == "heavy"@ {
            Some(CuratorKvBudgetProfile::Heavy)
        } else {
            None
        }
    }

    pub fn as_str(self) -> (r: &'static str)
        ensures
            r@ == self.name(),
    {
        match self {
            CuratorKvBudgetProfile::Small => "small",
            CuratorKvBudgetProfile::Reference => "reference",
            CuratorKvBudgetProfile::Heavy => "heavy",
        }
    }

    /// The profile with that name.
    pub fn from_str(s: &str) -> (r: Option<CuratorKvBudgetProfile>)
        ensures
            r == CuratorKvBudgetProfile::named(s@),
    {
        if str_eq(s, "small") {
            Some(CuratorKvBudgetProfile::Small)
        } else if str_eq(s, "reference") {
            Some(CuratorKvBudgetProfile::Reference)
        } else if str_eq(s, "heavy") {
            Some(CuratorKvBudgetProfile::Heavy)
        } else {
            None
        }
    }

    /// Every profile is found again by its name, and no two share one.
    pub proof fn lemma_named(a: CuratorKvBudgetProfile, b: CuratorKvBudgetProfile)
        ensures
            CuratorKvBudgetProfile::named(a.name()) == Some(a),
            a.name() == b.name() ==> a == b,
    {
        reveal_strlit("small");
        reveal_strlit("reference");
        reveal_strlit("heavy");
        assert("small"@.len() == 5);
        assert("reference"@.len() == 9);
        assert("heavy"@.len() == 5);
        assert("small"@[0] != "heavy"@[0]);
    }
}

/// The settings of the curators. Rates are the bits of doubles.
#[derive(Debug)]
pub struct CuratorConfig {
    pub disagreement_quota_low: u64,
    pub disagreement_quota_high: u64,
    pub probe_rate: u64,
    pub blind_reaudit_rate: u64,
    pub adjudicator_pool: Vec<String>,
    /// The digest of each model's weights, in hex.
    pub pinned: TextMap<String>,
    pub external_cmd: Option<String>,
    pub topology: ShardTopology,
    pub kv_budget_profile: CuratorKvBudgetProfile,
    pub librarian_model: String,
    pub warden_model: String,
    /// Only pinned models may judge.
    pub strict_model_pins: bool,
}

/// The settings of the curators as a mathematical object.
#[verifier::ext_equal]
pub struct CuratorConfigV {
    pub disagreement_quota_low: u64,
    pub disagreement_quota_high: u64,
    pub probe_rate: u64,
    pub blind_reaudit_rate: u64,
    pub adjudicator_pool: Seq<Seq<char>>,
    pub pinned: Map<Seq<char>, Seq<char>>,
    pub external_cmd: Option<Seq<char>>,
    pub topology: ShardTopology,
    pub kv_budget_profile: CuratorKvBudgetProfile,
    pub librarian_model: Seq<char>,
    pub warden_model: Seq<char>,
    pub strict_model_pins: bool,
}

impl DeepView for CuratorConfig {
    type V = CuratorConfigV;

    open spec fn deep_view(&self) -> CuratorConfigV {
        CuratorConfigV {
            disagreement_quota_low: self.disagreement_quota_low,
            disagreement_quota_high: self.disagreement_quota_high,
            probe_rate: self.probe_rate,
            blind_reaudit_rate: self.blind_reaudit_rate,
            adjudicator_pool: text_views(self.adjudicator_pool@),
            pinned: self.pinned@,
            external_cmd: self.external_cmd.deep_view(),
            topology: self.topology,
            kv_budget_profile: self.kv_budget_profile,
            librarian_model: self.librarian_model@,
            warden_model: self.warden_model@,
            strict_model_pins: self.strict_model_pins,
        }
    }
}

/// The usual settings of the curators.
pub open spec fn default_curator() -> CuratorConfigV {
    CuratorConfigV {
        disagreement_quota_low: QUOTA_LOW,
        disagreement_quota_high: QUOTA_HIGH,
        probe_rate: PROBE_RATE,
        blind_reaudit_rate: BLIND_REAUDIT_RATE,
        adjudicator_pool: seq!["phi-3.5-mini"@, "llama-3.2-3b"@, "smollm2-1.7b"@],
        pinned: Map::empty(),
        external_cmd: None,
        topology: ShardTopology::Dedicated,
        kv_budget_profile: CuratorKvBudgetProfile::Reference,
        librarian_model: "gemma-2-2b"@,
        warden_model: "qwen-2.5-coder-1.5b"@,
        strict_model_pins: true,
    }
}

impl Default for CuratorConfig {
    fn default() -> (r: Self)
        ensures
            r.deep_view() == default_curator(),
    {
        let pool = vec![
            "phi-3.5-mini".to_string(),
            "llama-3.2-3b".to_string(),
            "smollm2-1.7b".to_string(),
        ];
        assert(text_views(pool@) =~= seq!["phi-3.5-mini"@, "llama-3.2-3b"@, "smollm2-1.7b"@]);
        CuratorConfig {
            disagreement_quota_low: QUOTA_LOW,
            disagreement_quota_high: QUOTA_HIGH,
            probe_rate: PROBE_RATE,
            blind_reaudit_rate: BLIND_REAUDIT_RATE,
            adjudicator_pool: pool,
            pinned: TextMap::new(),
            external_cmd: None,
            topology: ShardTopology::Dedicated,
            kv_budget_profile: CuratorKvBudgetProfile::Reference,
            librarian_model: "gemma-2-2b".to_string(),
            warden_model: "qwen-2.5-coder-1.5b".to_string(),
            strict_model_pins: true,
        }
    }
}

impl CuratorConfig {
    /// The settings for development: no model has to be pinned.
    pub fn development() -> (r: Self)
        ensures
            r.deep_view() == (CuratorConfigV { strict_model_pins: false, ..default_curator() }),
    {
        let mut r = CuratorConfig::default();
        r.strict_model_pins = false;
        r
    }
}

/// The settings of a node.
#[derive(Debug)]
pub struct Config {
    pub node_id: String,
    pub data_dir: String,
    pub shards: u64,
    pub trinity_topology: ShardTopology,
    pub encryption_tier: EncryptionTier,
    pub boot_seed: u64,
    pub embedder_dim: u64,
    pub uds_path: Option<String>,
    pub tcp_addr: Option<String>,
    pub curator: CuratorConfig,
    pub observability: OtlpConfig,
}

/// The settings of a node as a mathematical object.
#[verifier::ext_equal]
pub struct ConfigV {
    pub node_id: Seq<char>,
    pub data_dir: Seq<char>,
    pub shards: u64,
    pub trinity_topology: ShardTopology,
    pub encryption_tier: EncryptionTier,
    pub boot_seed: u64,
    pub embedder_dim: u64,
    pub uds_path: Option<Seq<char>>,
    pub tcp_addr: Option<Seq<char>>,
    pub curator: CuratorConfigV,
    pub observability: OtlpConfigV,
}

impl DeepView for Config {
    type V = ConfigV;

    open spec fn deep_view(&self) -> ConfigV {
        ConfigV {
            node_id: self.node_id@,
            data_dir: self.data_dir@,
            shards: self.shards,
            trinity_topology: self.trinity_topology,
            encryption_tier: self.encryption_tier,
            boot_seed: self.boot_seed,
            embedder_dim: self.embedder_dim,
            uds_path: self.uds_path.deep_view(),
            tcp_addr: self.tcp_addr.deep_view(),
            curator: self.curator.deep_view(),
            observability: self.observability.deep_view(),
        }
    }
}

/// How many shards a machine with so many cores gets: all but two, and two at
/// least.
pub open spec fn shards_for(cores: u64) -> u64 {
    if cores <= 4 {
        2
    } else {
        (cores - 2) as u64
    }
}

/// The usual settings.
pub open spec fn default_config(cores: u64) -> ConfigV {
    ConfigV {
        node_id: "ultracortex-0"@,
        data_dir: "./ultracortex-data"@,
        shards: shards_for(cores),
        trinity_topology: ShardTopology::Dedicated,
        encryption_tier: EncryptionTier::T1,
        boot_seed: 0x0517AC0817E,
        embedder_dim: 256,
        uds_path: None,
        tcp_addr: None,
        curator: default_curator(),
        observability: default_otlp(),
    }
}

impl Default for Config {
    /// The usual settings of a machine whose number of cores is not known.
    fn default() -> (r: Self)
        ensures
            r.deep_view() == default_config(4),
    {
        Config::for_cores(4)
    }
}

/// An optional text; an empty one is none.
pub open spec fn nonempty(v: Seq<char>) -> Option<Seq<char>> {
    if v.len() == 0 {
        None
    } else {
        Some(v)
    }
}

fn some_text(v: &str) -> (r: Option<String>)
    ensures
        r.deep_view() == nonempty(v@),
{
    if chars_of(v).len() == 0 {
        None
    } else {
        Some(v.to_string())
    }
}

/// Why a text is no number: the first thing from `i` on that is wrong.
pub open spec fn problem_from(s: Seq<char>, i: int) -> Seq<char>
    decreases s.len() - i,
{
    if i < 0 || i >= s.len() || digit_value(s[i]) is None {
        "invalid digit found in string"@
    } else if digits_of(s.take(i + 1)) is Some && digits_of(s.take(i + 1))->0 > u64::MAX {
        "number too large to fit in target type"@
    } else {
        problem_from(s, i + 1)
    }
}

/// Why a text is no number.
pub open spec fn problem_of(s: Seq<char>) -> Seq<char> {
    if s.len() == 0 {
        "cannot parse integer from empty string"@
    } else if s[0] == '+' {
        problem_from(s.skip(1), 0)
    } else {
        problem_from(s, 0)
    }
}

fn number_problem(s: &str) -> (r: String)
    ensures
        r@ == problem_of(s@),
{
    let all = chars_of(s);
    if all.len() == 0 {
        return "cannot parse integer from empty string".to_string();
    }
    let from: usize = if all[0] == '+' { 1 } else { 0 };
    let body = crate::text::chars_between(all.as_slice(), from, all.len());
    assert(body@ =~= if s@[0] == '+' {
        s@.skip(1)
    } else {
        s@
    });
    let mut i: usize = 0;
    while i < body.len()
        invariant
            i <= body@.len(),
            forall|j: int| 0 <= j < i ==> digit_value(#[trigger] body@[j]) is Some,
            problem_of(s@) == problem_from(body@, 0),
            problem_from(body@, 0) == problem_from(body@, i as int),
        decreases body.len() - i,
    {
        let c: char = body[i];
        if !('0' <= c && c <= '9') {
            return "invalid digit found in string".to_string();
        }
        let head = crate::text::chars_between(body.as_slice(), 0, i + 1);
        assert(head@ =~= body@.take(i + 1));
        assert(head@.skip(0) =~= head@);
        if crate::text::read_digits(head.as_slice(), 0).is_none() {
            proof {
                assert forall|j: int| 0 <= j < head@.len() implies digit_value(
                    #[trigger] head@[j],
                ) is Some by {
                    assert(head@[j] == body@[j]);
                }
                lemma_all_digits(head@);
            }
            return "number too large to fit in target type".to_string();
        }
        i += 1;
    }
    "invalid digit found in string".to_string()
}

proof fn lemma_all_digits(s: Seq<char>)
    requires
        s.len() > 0,
        forall|j: int| 0 <= j < s.len() ==> digit_value(#[trigger] s[j]) is Some,
    ensures
        digits_of(s) is Some,
    decreases s.len(),
{
    if s.len() > 1 {
        assert forall|j: int| 0 <= j < s.drop_last().len() implies digit_value(
            #[trigger] s.drop_last()[j],
        ) is Some by {
            assert(s.drop_last()[j] == s[j]);
        }
        lemma_all_digits(s.drop_last());
    }
    assert(s.last() == s[s.len() - 1]);
}

/// A count that a text stands for, and one at least.
pub open spec fn count_of(s: Seq<char>, error: Seq<char>) -> Result<u64, ErrV> {
    match u64_of(s) {
        Some(n) => Ok(
            if n == 0 {
                1
            } else {
                n
            },
        ),
        None => Err((ErrCode::ContractViolation, error)),
    }
}

/// A switch: the usual words, in any case.
pub open spec fn switch_of(s: Seq<char>) -> Option<bool> {
    let l = s.map_values(|c: char| ascii_lower(c));
    if l == "1"@ || l == "true"@ || l == "yes"@ {
        Some(true)
    } else if l == "0"@ || l == "false"@ || l == "no"@ {
        Some(false)
    } else {
        None
    }
}

fn switch(s: &str) -> (r: Option<bool>)
    ensures
        r == switch_of(s@),
{
    let l = lower_ascii(s);
    let t = l.as_str();
    if str_eq(t, "1") || str_eq(t, "true") || str_eq(t, "yes") {
        Some(true)
    } else if str_eq(t, "0") || str_eq(t, "false") || str_eq(t, "no") {
        Some(false)
    } else {
        None
    }
}

/// A setting that a text sets.
#[derive(Clone, Copy, Debug, PartialEq, Eq, Structural)]
pub enum Setting {
    NodeId,
    DataDir,
    Shards,
    TrinityTopology,
    BootSeed,
    Tier,
    Uds,
    Tcp,
    OtlpEnabled,
    OtlpMetrics,
    OtlpTraces,
    OtlpLogs,
    OtlpTimeout,
    CuratorTopology,
    KvBudget,
}

/// Where a text comes from; errors name a setting differently.
#[derive(Clone, Copy, Debug, PartialEq, Eq, Structural)]
pub enum Source {
    Environment,
    CommandLine,
}

/// The setting of a key on the command line.
pub open spec fn setting_of(k: Seq<char>) -> Option<Setting> {
    if k == "node.id"@ {
        Some(Setting::NodeId)
    } else if k == "node.data_dir"@ {
        Some(Setting::DataDir)
    } else if k == "node.shards"@ {
        Some(Setting::Shards)
    } else if k == "shards.trinity_topology"@ {
        Some(Setting::TrinityTopology)
    } else if k == "node.boot_seed"@ {
        Some(Setting::BootSeed)
    } else if k == "persist.encryption_tier"@ {
        Some(Setting::Tier)
    } else if k == "listen.uds"@ {
        Some(Setting::Uds)
    } else if k == "listen.tcp"@ {
        Some(Setting::Tcp)
    } else if k == "observability.otlp_enabled"@ {
        Some(Setting::OtlpEnabled)
    } else if k == "observability.otlp_metrics_endpoint"@ {
        Some(Setting::OtlpMetrics)
    } else if k == "observability.otlp_traces_endpoint"@ {
        Some(Setting::OtlpTraces)
    } else if k == "observability.otlp_logs_endpoint"@ {
        Some(Setting::OtlpLogs)
    } else if k == "observability.otlp_timeout_ms"@ {
        Some(Setting::OtlpTimeout)
    } else if k == "curator.topology"@ {
        Some(Setting::CuratorTopology)
    } else if k == "curator.kv_budget_profile"@ {
        Some(Setting::KvBudget)
    } else {
        None
    }
}

/// The setting of a variable of the environment.
pub open spec fn variable_of(k: Seq<char>) -> Option<Setting> {
    if k == "UC_NODE_ID"@ {
        Some(Setting::NodeId)
    } else if k == "UC_DATA_DIR"@ {
        Some(Setting::DataDir)
    } else if k == "UC_SHARDS"@ {
        Some(Setting::Shards)
    } else if k == "UC_TRINITY_TOPOLOGY"@ {
        Some(Setting::TrinityTopology)
    } else if k == "UC_ENCRYPTION_TIER"@ {
        Some(Setting::Tier)
    } else if k == "UC_UDS"@ {
        Some(Setting::Uds)
    } else if k == "UC_TCP"@ {
        Some(Setting::Tcp)
    } else if k == "UC_OTLP_ENABLED"@ {
        Some(Setting::OtlpEnabled)
    } else if k == "UC_OTLP_METRICS_ENDPOINT"@ {
        Some(Setting::OtlpMetrics)
    } else if k == "UC_OTLP_TRACES_ENDPOINT"@ {
        Some(Setting::OtlpTraces)
    } else if k == "UC_OTLP_LOGS_ENDPOINT"@ {
        Some(Setting::OtlpLogs)
    } else if k == "UC_OTLP_TIMEOUT_MS"@ {
        Some(Setting::OtlpTimeout)
    } else if k == "UC_CURATOR_TOPOLOGY"@ {
        Some(Setting::CuratorTopology)
    } else if k == "UC_CURATOR_KV_BUDGET_PROFILE"@ {
        Some(Setting::KvBudget)
    } else {
        None
    }
}

/// The variables of the environment that are looked at, in order.
pub const ENV_KEYS: [&'static str; 14] = [
    "UC_NODE_ID",
    "UC_DATA_DIR",
    "UC_SHARDS",
    "UC_TRINITY_TOPOLOGY",
    "UC_ENCRYPTION_TIER",
    "UC_UDS",
    "UC_TCP",
    "UC_OTLP_ENABLED",
    "UC_OTLP_METRICS_ENDPOINT",
    "UC_OTLP_TRACES_ENDPOINT",
    "UC_OTLP_LOGS_ENDPOINT",
    "UC_OTLP_TIMEOUT_MS",
    "UC_CURATOR_TOPOLOGY",
    "UC_CURATOR_KV_BUDGET_PROFILE",
];

fn find_setting(k: &str) -> (r: Option<Setting>)
    ensures
        r == setting_of(k@),
{
    if str_eq(k, "node.id") {
        Some(Setting::NodeId)
    } else if str_eq(k, "node.data_dir") {
        Some(Setting::DataDir)
    } else if str_eq(k, "node.shards") {
        Some(Setting::Shards)
    } else if str_eq(k, "shards.trinity_topology") {
        Some(Setting::TrinityTopology)
    } else if str_eq(k, "node.boot_seed") {
        Some(Setting::BootSeed)
    } else if str_eq(k, "persist.encryption_tier") {
        Some(Setting::Tier)
    } else if str_eq(k, "listen.uds") {
        Some(Setting::Uds)
    } else if str_eq(k, "listen.tcp") {
        Some(Setting::Tcp)
    } else if str_eq(k, "observability.otlp_enabled") {
        Some(Setting::OtlpEnabled)
    } else if str_eq(k, "observability.otlp_metrics_endpoint") {
        Some(Setting::OtlpMetrics)
    } else if str_eq(k, "observability.otlp_traces_endpoint") {
        Some(Setting::OtlpTraces)
    } else if str_eq(k, "observability.otlp_logs_endpoint") {
        Some(Setting::OtlpLogs)
    } else if str_eq(k, "observability.otlp_timeout_ms") {
        Some(Setting::OtlpTimeout)
    } else if str_eq(k, "curator.topology") {
        Some(Setting::CuratorTopology)
    } else if str_eq(k, "curator.kv_budget_profile") {
        Some(Setting::KvBudget)
    } else {
        None
    }
}

fn find_variable(k: &str) -> (r: Option<Setting>)
    ensures
        r == variable_of(k@),
{
    if str_eq(k, "UC_NODE_ID") {
        Some(Setting::NodeId)
    } else if str_eq(k, "UC_DATA_DIR") {
        Some(Setting::DataDir)
    } else if str_eq(k, "UC_SHARDS") {
        Some(Setting::Shards)
    } else if str_eq(k, "UC_TRINITY_TOPOLOGY") {
        Some(Setting::TrinityTopology)
    } else if str_eq(k, "UC_ENCRYPTION_TIER") {
        Some(Setting::Tier)
    } else if str_eq(k, "UC_UDS") {
        Some(Setting::Uds)
    } else if str_eq(k, "UC_TCP") {
        Some(Setting::Tcp)
    } else if str_eq(k, "UC_OTLP_ENABLED") {
        Some(Setting::OtlpEnabled)
    } else if str_eq(k, "UC_OTLP_METRICS_ENDPOINT") {
        Some(Setting::OtlpMetrics)
    } else if str_eq(k, "UC_OTLP_TRACES_ENDPOINT") {
        Some(Setting::OtlpTraces)
    } else if str_eq(k, "UC_OTLP_LOGS_ENDPOINT") {
        Some(Setting::OtlpLogs)
    } else if str_eq(k, "UC_OTLP_TIMEOUT_MS") {
        Some(Setting::OtlpTimeout)
    } else if str_eq(k, "UC_CURATOR_TOPOLOGY") {
        Some(Setting::CuratorTopology)
    } else if str_eq(k, "UC_CURATOR_KV_BUDGET_PROFILE") {
        Some(Setting::KvBudget)
    } else {
        None
    }
}

/// The error for a text that a setting does not take.
pub open spec fn complaint(s: Setting, from: Source) -> Seq<char> {
    match (s, from) {
        (Setting::TrinityTopology, Source::Environment) => "bad UC_TRINITY_TOPOLOGY"@,
        (Setting::TrinityTopology, Source::CommandLine) => "bad trinity topology"@,
        (Setting::BootSeed, _) => "bad boot_seed"@,
        (Setting::OtlpEnabled, Source::Environment) => "bad UC_OTLP_ENABLED"@,
        (Setting::OtlpEnabled, Source::CommandLine) => "bad observability.otlp_enabled"@,
        (Setting::OtlpTimeout, Source::Environment) => "bad UC_OTLP_TIMEOUT_MS"@,
        (Setting::OtlpTimeout, Source::CommandLine) => "bad observability.otlp_timeout_ms"@,
        (Setting::CuratorTopology, Source::Environment) => "bad UC_CURATOR_TOPOLOGY"@,
        (Setting::CuratorTopology, Source::CommandLine) => "bad curator topology"@,
        (Setting::KvBudget, Source::Environment) => "bad UC_CURATOR_KV_BUDGET_PROFILE"@,
        (Setting::KvBudget, Source::CommandLine) => "bad curator kv budget profile"@,
        _ => Seq::empty(),
    }
}

fn complain(s: Setting, from: Source) -> (r: UcError)
    ensures
        r.plain(ErrCode::ContractViolation, complaint(s, from)),
{
    match (s, from) {
        (Setting::TrinityTopology, Source::Environment) => UcError::schema(
            "bad UC_TRINITY_TOPOLOGY",
        ),
        (Setting::TrinityTopology, Source::CommandLine) => UcError::schema("bad trinity topology"),
        (Setting::BootSeed, _) => UcError::schema("bad boot_seed"),
        (Setting::OtlpEnabled, Source::Environment) => UcError::schema("bad UC_OTLP_ENABLED"),
        (Setting::OtlpEnabled, Source::CommandLine) => UcError::schema(
            "bad observability.otlp_enabled",
        ),
        (Setting::OtlpTimeout, Source::Environment) => UcError::schema("bad UC_OTLP_TIMEOUT_MS"),
        (Setting::OtlpTimeout, Source::CommandLine) => UcError::schema(
            "bad observability.otlp_timeout_ms",
        ),
        (Setting::CuratorTopology, Source::Environment) => UcError::schema(
            "bad UC_CURATOR_TOPOLOGY",
        ),
        (Setting::CuratorTopology, Source::CommandLine) => UcError::schema("bad curator topology"),
        (Setting::KvBudget, Source::Environment) => UcError::schema(
            "bad UC_CURATOR_KV_BUDGET_PROFILE",
        ),
        (Setting::KvBudget, Source::CommandLine) => UcError::schema(
            "bad curator kv budget profile",
        ),
        _ => {
            proof {
                reveal_strlit("");
                assert(""@ =~= Seq::empty());
            }
            UcError::schema("")
        },
    }
}

/// The tier that a text names.
pub open spec fn tier_of(v: Seq<char>) -> Result<EncryptionTier, ErrV> {
    match EncryptionTier::named(v) {
        Some(t) => Ok(t),
        None => Err(
            (
                ErrCode::ContractViolation,
                "unknown encryption_tier: "@ + v + " (expected T0..T3)"@,
            ),
        ),
    }
}

impl ConfigV {
    /// The settings with the addresses to listen on changed.
    pub open spec fn with_tcp(self, v: Seq<char>, resolver: ResolvedV) -> Result<ConfigV, ErrV> {
        if v.len() == 0 {
            Ok(ConfigV { tcp_addr: None, ..self })
        } else {
            match listen_verdict(v, known_of(v, resolver)) {
                Err(e) => Err(e),
                Ok(_) => Ok(ConfigV { tcp_addr: Some(v), ..self }),
            }
        }
    }

    /// The settings after a text sets one of them. What a resolver says only
    /// matters to an address to listen on that is no literal.
    pub open spec fn with_setting(
        self,
        s: Setting,
        v: Seq<char>,
        from: Source,
        resolver: ResolvedV,
    ) -> Result<ConfigV, ErrV> {
        let bad = (ErrCode::ContractViolation, complaint(s, from));
        match s {
            Setting::NodeId => Ok(ConfigV { node_id: v, ..self }),
            Setting::DataDir => Ok(ConfigV { data_dir: v, ..self }),
            Setting::Shards => match count_of(v, problem_of(v)) {
                Ok(n) => Ok(ConfigV { shards: n, ..self }),
                Err(e) => Err(e),
            },
            Setting::TrinityTopology => match ShardTopology::named(v) {
                Some(t) => Ok(ConfigV { trinity_topology: t, ..self }),
                None => Err(bad),
            },
            Setting::BootSeed => match u64_of(v) {
                Some(n) => Ok(ConfigV { boot_seed: n, ..self }),
                None => Err(bad),
            },
            Setting::Tier => match tier_of(v) {
                Ok(t) => Ok(ConfigV { encryption_tier: t, ..self }),
                Err(e) => Err(e),
            },
            Setting::Uds => Ok(ConfigV { uds_path: nonempty(v), ..self }),
            Setting::Tcp => self.with_tcp(v, resolver),
            Setting::OtlpEnabled => match switch_of(v) {
                Some(b) => Ok(
                    ConfigV {
                        observability: OtlpConfigV { enabled: b, ..self.observability },
                        ..self
                    },
                ),
                None => Err(bad),
            },
            Setting::OtlpMetrics => Ok(
                ConfigV {
                    observability: OtlpConfigV { metrics_endpoint: v, ..self.observability },
                    ..self
                },
            ),
            Setting::OtlpTraces => Ok(
                ConfigV {
                    observability: OtlpConfigV { traces_endpoint: v, ..self.observability },
                    ..self
                },
            ),
            Setting::OtlpLogs => Ok(
                ConfigV {
                    observability: OtlpConfigV { logs_endpoint: v, ..self.observability },
                    ..self
                },
            ),
            Setting::OtlpTimeout => match count_of(v, complaint(s, from)) {
                Ok(n) => Ok(
                    ConfigV {
                        observability: OtlpConfigV { timeout_ms: n, ..self.observability },
                        ..self
                    },
                ),
                Err(e) => Err(e),
            },
            Setting::CuratorTopology => match ShardTopology::named(v) {
                Some(t) => Ok(
                    ConfigV { curator: CuratorConfigV { topology: t, ..self.curator }, ..self },
                ),
                None => Err(bad),
            },
            Setting::KvBudget => match CuratorKvBudgetProfile::named(v) {
                Some(p) => Ok(
                    ConfigV {
                        curator: CuratorConfigV { kv_budget_profile: p, ..self.curator },
                        ..self
                    },
                ),
                None => Err(bad),
            },
        }
    }

    /// The settings after a pair of the command line.
    pub open spec fn with_kv(self, k: Seq<char>, v: Seq<char>, resolver: ResolvedV) -> Result<
        ConfigV,
        ErrV,
    > {
        match setting_of(k) {
            Some(s) => self.with_setting(s, v, Source::CommandLine, resolver),
            None => Err((ErrCode::ContractViolation, "unknown config key `"@ + k + "`"@)),
        }
    }

    /// The settings after a variable of the environment; other variables do not
    /// matter.
    pub open spec fn with_env(self, k: Seq<char>, v: Seq<char>, resolver: ResolvedV) -> Result<
        ConfigV,
        ErrV,
    > {
        match variable_of(k) {
            Some(s) => self.with_setting(s, v, Source::Environment, resolver),
            None => Ok(self),
        }
    }
}

/// The new settings, or the old ones and the error.
pub open spec fn outcome(r: UcResult<()>, was: ConfigV, now: ConfigV, want: Result<ConfigV, ErrV>) -> bool {
    match want {
        Ok(c) => r is Ok && now == c,
        Err(e) => r is Err && r->Err_0.plain(e.0, e.1) && now == was,
    }
}

impl Config {
    /// The usual settings of a machine with so many cores.
    pub fn for_cores(cores: u64) -> (r: Self)
        ensures
            r.deep_view() == default_config(cores),
    {
        let r = Config {
            node_id: "ultracortex-0".to_string(),
            data_dir: "./ultracortex-data".to_string(),
            shards: if cores <= 4 { 2 } else { cores - 2 },
            trinity_topology: ShardTopology::Dedicated,
            encryption_tier: EncryptionTier::T1,
            boot_seed: 0x0517AC0817E,
            embedder_dim: 256,
            uds_path: None,
            tcp_addr: None,
            curator: CuratorConfig::default(),
            observability: OtlpConfig::default(),
        };
        assert(r.deep_view() =~= default_config(cores));
        r
    }

    fn set_tcp(&mut self, v: &str, resolver: &Resolved) -> (r: UcResult<()>)
        ensures
            outcome(
                r,
                old(self).deep_view(),
                final(self).deep_view(),
                old(self).deep_view().with_tcp(v@, resolved_view(*resolver)),
            ),
    {
        let ghost was = self.deep_view();
        if chars_of(v).len() == 0 {
            self.tcp_addr = None;
            assert(self.deep_view() =~= (ConfigV { tcp_addr: None, ..was }));
            return Ok(());
        }
        match validate_tcp_listen_addr(v, resolver) {
            Err(e) => Err(e),
            Ok(_) => {
                self.tcp_addr = Some(v.to_string());
                assert(self.deep_view() =~= (ConfigV { tcp_addr: Some(v@), ..was }));
                Ok(())
            },
        }
    }

    /// Sets one setting from a text.
    pub fn set(&mut self, s: Setting, v: &str, from: Source, resolver: &Resolved) -> (r: UcResult<()>)
        ensures
            outcome(
                r,
                old(self).deep_view(),
                final(self).deep_view(),
                old(self).deep_view().with_setting(s, v@, from, resolved_view(*resolver)),
            ),
    {
        let ghost was = self.deep_view();
        let ghost want = was.with_setting(s, v@, from, resolved_view(*resolver));
        match s {
            Setting::NodeId => {
                self.node_id = v.to_string();
            },
            Setting::DataDir => {
                self.data_dir = v.to_string();
            },
            Setting::Shards => match parse_u64(v) {
                Some(n) => {
                    self.shards = if n == 0 { 1 } else { n };
                },
                None => {
                    return Err(UcError::schema(number_problem(v).as_str()));
                },
            },
            Setting::TrinityTopology => match ShardTopology::from_str(v) {
                Some(t) => {
                    self.trinity_topology = t;
                },
                None => {
                    return Err(complain(s, from));
                },
            },
            Setting::BootSeed => match parse_u64(v) {
                Some(n) => {
                    self.boot_seed = n;
                },
                None => {
                    return Err(complain(s, from));
                },
            },
            Setting::Tier => match EncryptionTier::parse(v) {
                Ok(t) => {
                    self.encryption_tier = t;
                },
                Err(e) => {
                    return Err(e);
                },
            },
            Setting::Uds => {
                self.uds_path = some_text(v);
            },
            Setting::Tcp => {
                return self.set_tcp(v, resolver);
            },
            Setting::OtlpEnabled => match switch(v) {
                Some(b) => {
                    self.observability.enabled = b;
                },
                None => {
                    return Err(complain(s, from));
                },
            },
            Setting::OtlpMetrics => {
                self.observability.metrics_endpoint = v.to_string();
            },
            Setting::OtlpTraces => {
                self.observability.traces_endpoint = v.to_string();
            },
            Setting::OtlpLogs => {
                self.observability.logs_endpoint = v.to_string();
            },
            Setting::OtlpTimeout => match parse_u64(v) {
                Some(n) => {
                    self.observability.timeout_ms = if n == 0 { 1 } else { n };
                },
                None => {
                    return Err(complain(s, from));
                },
            },
            Setting::CuratorTopology => match ShardTopology::from_str(v) {
                Some(t) => {
                    self.curator.topology = t;
                },
                None => {
                    return Err(complain(s, from));
                },
            },
            Setting::KvBudget => match CuratorKvBudgetProfile::from_str(v) {
                Some(p) => {
                    self.curator.kv_budget_profile = p;
                },
                None => {
                    return Err(complain(s, from));
                },
            },
        }
        assert(want is Ok);
        assert(self.deep_view() =~= want->Ok_0);
        Ok(())
    }

    /// Takes a variable of the environment.
    pub fn apply_env(&mut self, k: &str, v: &str, resolver: &Resolved) -> (r: UcResult<()>)
        ensures
            outcome(
                r,
                old(self).deep_view(),
                final(self).deep_view(),
                old(self).deep_view().with_env(k@, v@, resolved_view(*resolver)),
            ),
    {
        match find_variable(k) {
            Some(s) => self.set(s, v, Source::Environment, resolver),
            None => Ok(()),
        }
    }
}

/// Takes a pair of the command line, given what a resolver says of its value.
pub fn apply_kv(cfg: &mut Config, k: &str, v: &str, resolver: &Resolved) -> (r: UcResult<()>)
    ensures
        outcome(
            r,
            old(cfg).deep_view(),
            final(cfg).deep_view(),
            old(cfg).deep_view().with_kv(k@, v@, resolved_view(*resolver)),
        ),
{
    match find_setting(k) {
        Some(s) => cfg.set(s, v, Source::CommandLine, resolver),
        None => Err(UcError::schema(cat3("unknown config key `", k, "`").as_str())),
    }
}

/// The value under a key of a section.
pub open spec fn at(doc: TomlDocV, section: Seq<char>, key: Seq<char>) -> Option<TomlV> {
    if doc.contains_key(section) && doc[section].contains_key(key) {
        Some(doc[section][key])
    } else {
        None
    }
}

/// The text under a key of a section.
pub open spec fn text_at(doc: TomlDocV, section: Seq<char>, key: Seq<char>) -> Option<Seq<char>> {
    match at(doc, section, key) {
        Some(TomlV::Str(s)) => Some(s),
        _ => None,
    }
}

/// The integer under a key of a section.
pub open spec fn int_at(doc: TomlDocV, section: Seq<char>, key: Seq<char>) -> Option<i64> {
    match at(doc, section, key) {
        Some(TomlV::Int(n)) => Some(n),
        _ => None,
    }
}

/// The switch under a key of a section.
pub open spec fn bool_at(doc: TomlDocV, section: Seq<char>, key: Seq<char>) -> Option<bool> {
    match at(doc, section, key) {
        Some(TomlV::Bool(b)) => Some(b),
        _ => None,
    }
}

fn value_in<'a>(doc: &'a TomlDoc, section: &str, key: &str) -> (r: Option<&'a TomlValue>)
    ensures
        match r {
            Some(v) => at(doc@, section@, key@) == Some(v@),
            None => at(doc@, section@, key@) is None,
        },
{
    match doc.get(section) {
        Some(s) => s.get(key),
        None => None,
    }
}

fn text_in(doc: &TomlDoc, section: &str, key: &str) -> (r: Option<String>)
    ensures
        r.deep_view() == text_at(doc@, section@, key@),
{
    match value_in(doc, section, key) {
        Some(v) => match v.as_str() {
            Some(s) => Some(s.to_string()),
            None => None,
        },
        None => None,
    }
}

fn int_in(doc: &TomlDoc, section: &str, key: &str) -> (r: Option<i64>)
    ensures
        r == int_at(doc@, section@, key@),
{
    match value_in(doc, section, key) {
        Some(v) => v.as_int(),
        None => None,
    }
}

fn bool_in(doc: &TomlDoc, section: &str, key: &str) -> (r: Option<bool>)
    ensures
        r == bool_at(doc@, section@, key@),
{
    match value_in(doc, section, key) {
        Some(v) => v.as_bool(),
        None => None,
    }
}

/// The larger of two numbers, as a count.
pub open spec fn at_least(n: i64, least: u64) -> u64 {
    if n < least {
        least
    } else {
        n as u64
    }
}

fn floor_at(n: i64, least: u64) -> (r: u64)
    requires
        least <= 1000,
    ensures
        r == at_least(n, least),
{
    if n < least as i64 {
        least
    } else {
        n as u64
    }
}

/// A number modulo two to the power 64.
pub open spec fn wrapped(n: i64) -> u64 {
    if n >= 0 {
        n as u64
    } else {
        (n + 0x1_0000_0000_0000_0000) as u64
    }
}

fn wrap(n: i64) -> (r: u64)
    ensures
        r == wrapped(n),
{
    if n >= 0 {
        n as u64
    } else {
        u64::MAX - (-(n + 1)) as u64
    }
}

/// The names of a list that is separated by commas; blanks around them and empty
/// ones do not count.
pub open spec fn names_in(s: Seq<char>) -> Seq<Seq<char>> {
    let ps = pieces(s, commas(s));
    kept_names(ps, ps.len())
}

/// Where the commas of a text are.
pub open spec fn commas(s: Seq<char>) -> Seq<bool> {
    Seq::new(s.len(), |i: int| s[i] == ',')
}

/// The first `n` pieces, trimmed, as far as something is left of them.
pub open spec fn kept_names(ps: Seq<Seq<char>>, n: nat) -> Seq<Seq<char>>
    decreases n,
{
    if n == 0 {
        Seq::empty()
    } else if trimmed(ps[n - 1]).len() > 0 {
        kept_names(ps, (n - 1) as nat).push(trimmed(ps[n - 1]))
    } else {
        kept_names(ps, (n - 1) as nat)
    }
}

/// The names of a list that is separated by commas.
pub fn names(s: &str) -> (r: Vec<String>)
    ensures
        text_views(r@) == names_in(s@),
{
    let chars = chars_of(s);
    let mut marks: Vec<bool> = Vec::new();
    let mut i: usize = 0;
    while i < chars.len()
        invariant
            i <= chars@.len(),
            marks@.len() == i,
            forall|j: int| 0 <= j < i ==> #[trigger] marks@[j] == (chars@[j] == ','),
        decreases chars.len() - i,
    {
        marks.push(chars[i] == ',');
        i += 1;
    }
    assert(marks@ =~= commas(s@));
    let ps = split_marked(chars.as_slice(), marks.as_slice());
    let ghost all = char_views(ps@);
    let mut out: Vec<String> = Vec::new();
    assert(text_views(out@) =~= Seq::empty());
    let mut k: usize = 0;
    while k < ps.len()
        invariant
            k <= ps@.len(),
            all == char_views(ps@),
            text_views(out@) == kept_names(all, k as nat),
        decreases ps.len() - k,
    {
        assert(all[k as int] == ps@[k as int]@);
        let t = trim_chars(ps[k].as_slice());
        if t.len() > 0 {
            let ghost before = text_views(out@);
            let one = string_of(t.as_slice());
            out.push(one);
            assert(text_views(out@) =~= before.push(one@));
        }
        k += 1;
    }
    out
}

/// A rate that a file may set.
#[derive(Clone, Copy, Debug, PartialEq, Eq, Structural)]
pub enum Rate {
    QuotaLow,
    QuotaHigh,
    Probe,
    BlindReaudit,
}

/// The key of a rate in the curators' section.
pub open spec fn rate_key(r: Rate) -> Seq<char> {
    match r {
        Rate::QuotaLow => "disagreement_quota_low"@,
        Rate::QuotaHigh => "disagreement_quota_high"@,
        Rate::Probe => "probe_rate"@,
        Rate::BlindReaudit => "blind_reaudit_rate"@,
    }
}

/// The number that a file gives for a rate: a text still to be read as a float,
/// or an integer.
pub open spec fn rate_at(doc: TomlDocV, r: Rate) -> Option<TomlV> {
    match at(doc, "curator"@, rate_key(r)) {
        Some(TomlV::Float(s)) => Some(TomlV::Float(s)),
        Some(TomlV::Int(n)) => Some(TomlV::Int(n)),
        _ => None,
    }
}

/// The number that a file gives for a rate.
pub fn rate_in(doc: &TomlDoc, r: Rate) -> (f: Option<FloatText>)
    ensures
        match f {
            Some(FloatText::Literal(s)) => rate_at(doc@, r) == Some(TomlV::Float(s@)),
            Some(FloatText::Integer(n)) => rate_at(doc@, r) == Some(TomlV::Int(n)),
            None => rate_at(doc@, r) is None,
        },
{
    let key = match r {
        Rate::QuotaLow => "disagreement_quota_low",
        Rate::QuotaHigh => "disagreement_quota_high",
        Rate::Probe => "probe_rate",
        Rate::BlindReaudit => "blind_reaudit_rate",
    };
    match value_in(doc, "curator", key) {
        Some(v) => v.as_float(),
        None => None,
    }
}

/// The settings after the parts of a file on the node itself.
pub open spec fn node_part(c: ConfigV, doc: TomlDocV) -> ConfigV {
    let c = match text_at(doc, "node"@, "id"@) {
        Some(v) => ConfigV { node_id: v, ..c },
        None => c,
    };
    let c = match text_at(doc, "node"@, "data_dir"@) {
        Some(v) => ConfigV { data_dir: v, ..c },
        None => c,
    };
    let c = match int_at(doc, "node"@, "shards"@) {
        Some(v) => ConfigV { shards: at_least(v, 1), ..c },
        None => c,
    };
    let c = match text_at(doc, "shards"@, "trinity_topology"@) {
        Some(v) => match ShardTopology::named(v) {
            Some(t) => ConfigV { trinity_topology: t, ..c },
            None => c,
        },
        None => c,
    };
    let c = match int_at(doc, "node"@, "boot_seed"@) {
        Some(v) => ConfigV { boot_seed: wrapped(v), ..c },
        None => c,
    };
    let c = match int_at(doc, "node"@, "embedder_dim"@) {
        Some(v) => ConfigV { embedder_dim: at_least(v, 16), ..c },
        None => c,
    };
    let c = match text_at(doc, "persist"@, "encryption_tier"@) {
        Some(v) => match EncryptionTier::named(v) {
            Some(t) => ConfigV { encryption_tier: t, ..c },
            None => c,
        },
        None => c,
    };
    let c = match text_at(doc, "listen"@, "uds"@) {
        Some(v) => ConfigV { uds_path: nonempty(v), ..c },
        None => c,
    };
    c
}

/// The settings after the parts of a file on the curators, but for the memory
/// profile and the rates.
pub open spec fn curator_part(c: ConfigV, doc: TomlDocV) -> ConfigV {
    let c = match text_at(doc, "curator"@, "topology"@) {
        Some(v) => match ShardTopology::named(v) {
            Some(t) => ConfigV { curator: CuratorConfigV { topology: t, ..c.curator }, ..c },
            None => c,
        },
        None => c,
    };
    let c = match text_at(doc, "curator"@, "external_cmd"@) {
        Some(v) => ConfigV { curator: CuratorConfigV { external_cmd: nonempty(v), ..c.curator }, ..c },
        None => c,
    };
    let c = match text_at(doc, "curator"@, "librarian_model"@) {
        Some(v) => ConfigV { curator: CuratorConfigV { librarian_model: v, ..c.curator }, ..c },
        None => c,
    };
    let c = match text_at(doc, "curator"@, "warden_model"@) {
        Some(v) => ConfigV { curator: CuratorConfigV { warden_model: v, ..c.curator }, ..c },
        None => c,
    };
    let c = match text_at(doc, "curator"@, "pool"@) {
        Some(v) => if names_in(v).len() > 0 {
            ConfigV { curator: CuratorConfigV { adjudicator_pool: names_in(v), ..c.curator }, ..c }
        } else {
            c
        },
        None => c,
    };
    c
}

/// The settings after the parts of a file on observability.
pub open spec fn observability_part(c: ConfigV, doc: TomlDocV) -> ConfigV {
    let c = match bool_at(doc, "observability"@, "otlp_enabled"@) {
        Some(v) => ConfigV { observability: OtlpConfigV { enabled: v, ..c.observability }, ..c },
        None => c,
    };
    let c = match text_at(doc, "observability"@, "otlp_metrics_endpoint"@) {
        Some(v) => ConfigV { observability: OtlpConfigV { metrics_endpoint: v, ..c.observability }, ..c },
        None => c,
    };
    let c = match text_at(doc, "observability"@, "otlp_traces_endpoint"@) {
        Some(v) => ConfigV { observability: OtlpConfigV { traces_endpoint: v, ..c.observability }, ..c },
        None => c,
    };
    let c = match text_at(doc, "observability"@, "otlp_logs_endpoint"@) {
        Some(v) => ConfigV { observability: OtlpConfigV { logs_endpoint: v, ..c.observability }, ..c },
        None => c,
    };
    let c = match int_at(doc, "observability"@, "otlp_timeout_ms"@) {
        Some(v) => ConfigV { observability: OtlpConfigV { timeout_ms: at_least(v, 1), ..c.observability }, ..c },
        None => c,
    };
    c
}

/// The pins of the first `n` models of an order, put over those there are.
pub open spec fn pins_of(
    section: Map<Seq<char>, TomlV>,
    o: Seq<Seq<char>>,
    n: nat,
    over: Map<Seq<char>, Seq<char>>,
) -> Map<Seq<char>, Seq<char>>
    decreases n,
{
    if n == 0 {
        over
    } else {
        let before = pins_of(section, o, (n - 1) as nat, over);
        match section[o[n - 1]] {
            TomlV::Str(s) => before.insert(o[n - 1], s),
            _ => before,
        }
    }
}

/// The settings after the part of a file that pins models.
pub open spec fn pinned_part(c: ConfigV, doc: TomlDocV) -> ConfigV {
    if doc.contains_key("curator.pinned"@) {
        let section = doc["curator.pinned"@];
        let o = text_order(section.dom());
        ConfigV {
            curator: CuratorConfigV {
                pinned: pins_of(section, o, o.len(), c.curator.pinned),
                ..c.curator
            },
            ..c
        }
    } else {
        c
    }
}

impl ConfigV {
    /// The settings after a file, and the error that ended its taking: an address
    /// that may not be listened on, or an unknown memory profile. Values of the
    /// wrong kind do not matter.
    pub open spec fn with_toml(self, doc: TomlDocV, resolver: ResolvedV) -> (ConfigV, Option<ErrV>) {
        let a = node_part(self, doc);
        let b = match text_at(doc, "listen"@, "tcp"@) {
            Some(v) => a.with_tcp(v, resolver),
            None => Ok(a),
        };
        match b {
            Err(e) => (a, Some(e)),
            Ok(b) => {
                let c = match text_at(doc, "curator"@, "kv_budget_profile"@) {
                    Some(v) => b.with_setting(
                        Setting::KvBudget,
                        v,
                        Source::CommandLine,
                        resolver,
                    ),
                    None => Ok(b),
                };
                match c {
                    Err(e) => (b, Some(e)),
                    Ok(c) => (
                        pinned_part(observability_part(curator_part(c, doc), doc), doc),
                        None,
                    ),
                }
            },
        }
    }

    /// The settings with a rate set.
    pub open spec fn with_rate(self, r: Rate, bits: u64) -> ConfigV {
        ConfigV {
            curator: match r {
                Rate::QuotaLow => CuratorConfigV { disagreement_quota_low: bits, ..self.curator },
                Rate::QuotaHigh => CuratorConfigV { disagreement_quota_high: bits, ..self.curator },
                Rate::Probe => CuratorConfigV { probe_rate: bits, ..self.curator },
                Rate::BlindReaudit => CuratorConfigV { blind_reaudit_rate: bits, ..self.curator },
            },
            ..self
        }
    }
}

/// The outcome of taking a file.
pub open spec fn taken(r: UcResult<()>, now: ConfigV, want: (ConfigV, Option<ErrV>)) -> bool {
    now == want.0 && match want.1 {
        None => r is Ok,
        Some(e) => r is Err && r->Err_0.plain(e.0, e.1),
    }
}

impl Config {
    fn apply_node(&mut self, doc: &TomlDoc)
        ensures
            final(self).deep_view() == node_part(old(self).deep_view(), doc@),
    {
        let ghost c = self.deep_view();
        if let Some(v) = text_in(doc, "node", "id") {
            self.node_id = v;
        }
        assert(self.deep_view() =~= match text_at(doc@, "node"@, "id"@) {
            Some(v) => ConfigV { node_id: v, ..c },
            None => c,
        });
        let ghost c = self.deep_view();
        if let Some(v) = text_in(doc, "node", "data_dir") {
            self.data_dir = v;
        }
        assert(self.deep_view() =~= match text_at(doc@, "node"@, "data_dir"@) {
            Some(v) => ConfigV { data_dir: v, ..c },
            None => c,
        });
        let ghost c = self.deep_view();
        if let Some(v) = int_in(doc, "node", "shards") {
            self.shards = floor_at(v, 1);
        }
        assert(self.deep_view() =~= match int_at(doc@, "node"@, "shards"@) {
            Some(v) => ConfigV { shards: at_least(v, 1), ..c },
            None => c,
        });
        let ghost c = self.deep_view();
        if let Some(v) = text_in(doc, "shards", "trinity_topology") {
            if let Some(t) = ShardTopology::from_str(v.as_str()) {
                self.trinity_topology = t;
            }
        }
        assert(self.deep_view() =~= match text_at(doc@, "shards"@, "trinity_topology"@) {
            Some(v) => match ShardTopology::named(v) {
            Some(t) => ConfigV { trinity_topology: t, ..c },
            None => c,
        },
            None => c,
        });
        let ghost c = self.deep_view();
        if let Some(v) = int_in(doc, "node", "boot_seed") {
            self.boot_seed = wrap(v);
        }
        assert(self.deep_view() =~= match int_at(doc@, "node"@, "boot_seed"@) {
            Some(v) => ConfigV { boot_seed: wrapped(v), ..c },
            None => c,
        });
        let ghost c = self.deep_view();
        if let Some(v) = int_in(doc, "node", "embedder_dim") {
            self.embedder_dim = floor_at(v, 16);
        }
        assert(self.deep_view() =~= match int_at(doc@, "node"@, "embedder_dim"@) {
            Some(v) => ConfigV { embedder_dim: at_least(v, 16), ..c },
            None => c,
        });
        let ghost c = self.deep_view();
        if let Some(v) = text_in(doc, "persist", "encryption_tier") {
            if let Ok(t) = EncryptionTier::parse(v.as_str()) {
                self.encryption_tier = t;
            }
        }
        assert(self.deep_view() =~= match text_at(doc@, "persist"@, "encryption_tier"@) {
            Some(v) => match EncryptionTier::named(v) {
            Some(t) => ConfigV { encryption_tier: t, ..c },
            None => c,
        },
            None => c,
        });
        let ghost c = self.deep_view();
        if let Some(v) = text_in(doc, "listen", "uds") {
            self.uds_path = some_text(v.as_str());
        }
        assert(self.deep_view() =~= match text_at(doc@, "listen"@, "uds"@) {
            Some(v) => ConfigV { uds_path: nonempty(v), ..c },
            None => c,
        });
    }

    fn apply_curator(&mut self, doc: &TomlDoc)
        ensures
            final(self).deep_view() == curator_part(old(self).deep_view(), doc@),
    {
        let ghost c = self.deep_view();
        if let Some(v) = text_in(doc, "curator", "topology") {
            if let Some(t) = ShardTopology::from_str(v.as_str()) {
                self.curator.topology = t;
            }
        }
        assert(self.deep_view() =~= match text_at(doc@, "curator"@, "topology"@) {
            Some(v) => match ShardTopology::named(v) {
            Some(t) => ConfigV { curator: CuratorConfigV { topology: t, ..c.curator }, ..c },
            None => c,
        },
            None => c,
        });
        let ghost c = self.deep_view();
        if let Some(v) = text_in(doc, "curator", "external_cmd") {
            self.curator.external_cmd = some_text(v.as_str());
        }
        assert(self.deep_view() =~= match text_at(doc@, "curator"@, "external_cmd"@) {
            Some(v) => ConfigV { curator: CuratorConfigV { external_cmd: nonempty(v), ..c.curator }, ..c },
            None => c,
        });
        let ghost c = self.deep_view();
        if let Some(v) = text_in(doc, "curator", "librarian_model") {
            self.curator.librarian_model = v;
        }
        assert(self.deep_view() =~= match text_at(doc@, "curator"@, "librarian_model"@) {
            Some(v) => ConfigV { curator: CuratorConfigV { librarian_model: v, ..c.curator }, ..c },
            None => c,
        });
        let ghost c = self.deep_view();
        if let Some(v) = text_in(doc, "curator", "warden_model") {
            self.curator.warden_model = v;
        }
        assert(self.deep_view() =~= match text_at(doc@, "curator"@, "warden_model"@) {
            Some(v) => ConfigV { curator: CuratorConfigV { warden_model: v, ..c.curator }, ..c },
            None => c,
        });
        let ghost c = self.deep_view();
        if let Some(v) = text_in(doc, "curator", "pool") {
            let pool = names(v.as_str());
            if pool.len() > 0 {
                self.curator.adjudicator_pool = pool;
            }
        }
        assert(self.deep_view() =~= match text_at(doc@, "curator"@, "pool"@) {
            Some(v) => if names_in(v).len() > 0 {
            ConfigV { curator: CuratorConfigV { adjudicator_pool: names_in(v), ..c.curator }, ..c }
        } else {
            c
        },
            None => c,
        });
    }

    fn apply_observability(&mut self, doc: &TomlDoc)
        ensures
            final(self).deep_view() == observability_part(old(self).deep_view(), doc@),
    {
        let ghost c = self.deep_view();
        if let Some(v) = bool_in(doc, "observability", "otlp_enabled") {
            self.observability.enabled = v;
        }
        assert(self.deep_view() =~= match bool_at(doc@, "observability"@, "otlp_enabled"@) {
            Some(v) => ConfigV { observability: OtlpConfigV { enabled: v, ..c.observability }, ..c },
            None => c,
        });
        let ghost c = self.deep_view();
        if let Some(v) = text_in(doc, "observability", "otlp_metrics_endpoint") {
            self.observability.metrics_endpoint = v;
        }
        assert(self.deep_view() =~= match text_at(doc@, "observability"@, "otlp_metrics_endpoint"@) {
            Some(v) => ConfigV { observability: OtlpConfigV { metrics_endpoint: v, ..c.observability }, ..c },
            None => c,
        });
        let ghost c = self.deep_view();
        if let Some(v) = text_in(doc, "observability", "otlp_traces_endpoint") {
            self.observability.traces_endpoint = v;
        }
        assert(self.deep_view() =~= match text_at(doc@, "observability"@, "otlp_traces_endpoint"@) {
            Some(v) => ConfigV { observability: OtlpConfigV { traces_endpoint: v, ..c.observability }, ..c },
            None => c,
        });
        let ghost c = self.deep_view();
        if let Some(v) = text_in(doc, "observability", "otlp_logs_endpoint") {
            self.observability.logs_endpoint = v;
        }
        assert(self.deep_view() =~= match text_at(doc@, "observability"@, "otlp_logs_endpoint"@) {
            Some(v) => ConfigV { observability: OtlpConfigV { logs_endpoint: v, ..c.observability }, ..c },
            None => c,
        });
        let ghost c = self.deep_view();
        if let Some(v) = int_in(doc, "observability", "otlp_timeout_ms") {
            self.observability.timeout_ms = floor_at(v, 1);
        }
        assert(self.deep_view() =~= match int_at(doc@, "observability"@, "otlp_timeout_ms"@) {
            Some(v) => ConfigV { observability: OtlpConfigV { timeout_ms: at_least(v, 1), ..c.observability }, ..c },
            None => c,
        });
    }

    fn apply_pinned(&mut self, doc: &TomlDoc)
        ensures
            final(self).deep_view() == pinned_part(old(self).deep_view(), doc@),
            doc@.contains_key("curator.pinned"@) ==> doc@["curator.pinned"@].dom().finite(),
    {
        let ghost was = self.deep_view();
        if let Some(section) = doc.get("curator.pinned") {
            let n: usize = section.len();
            let ghost o = section.order();
            let mut i: usize = 0;
            while i < n
                invariant
                    i <= n == o.len(),
                    o == section.order(),
                    self.deep_view() == (ConfigV {
                        curator: CuratorConfigV {
                            pinned: pins_of(section@, o, i as nat, was.curator.pinned),
                            ..was.curator
                        },
                        ..was
                    }),
                decreases n - i,
            {
                let k = section.key_at(i).as_str().to_string();
                if let Some(s) = section.value_at(i).as_str() {
                    self.curator.pinned.insert(k, s.to_string());
                }
                i += 1;
                assert(self.deep_view() =~= (ConfigV {
                    curator: CuratorConfigV {
                        pinned: pins_of(section@, o, i as nat, was.curator.pinned),
                        ..was.curator
                    },
                    ..was
                }));
            }
        }
        assert(self.deep_view() =~= pinned_part(was, doc@));
    }

    /// Takes a file, given what a resolver says of its address to listen on. The
    /// rates are left: see `rate_in` and `set_rate`.
    pub fn apply_toml(&mut self, doc: &TomlDoc, resolver: &Resolved) -> (r: UcResult<()>)
        ensures
            taken(
                r,
                final(self).deep_view(),
                old(self).deep_view().with_toml(doc@, resolved_view(*resolver)),
            ),
    {
        self.apply_node(doc);
        if let Some(v) = text_in(doc, "listen", "tcp") {
            if let Err(e) = self.set_tcp(v.as_str(), resolver) {
                return Err(e);
            }
        }
        if let Some(v) = text_in(doc, "curator", "kv_budget_profile") {
            if let Err(e) = self.set(
                Setting::KvBudget,
                v.as_str(),
                Source::CommandLine,
                resolver,
            ) {
                return Err(e);
            }
        }
        self.apply_curator(doc);
        self.apply_observability(doc);
        self.apply_pinned(doc);
        Ok(())
    }

    /// Sets a rate.
    pub fn set_rate(&mut self, r: Rate, bits: u64)
        ensures
            final(self).deep_view() == old(self).deep_view().with_rate(r, bits),
    {
        match r {
            Rate::QuotaLow => {
                self.curator.disagreement_quota_low = bits;
            },
            Rate::QuotaHigh => {
                self.curator.disagreement_quota_high = bits;
            },
            Rate::Probe => {
                self.curator.probe_rate = bits;
            },
            Rate::BlindReaudit => {
                self.curator.blind_reaudit_rate = bits;
            },
        }
    }
}

proof fn lemma_node_part(c: ConfigV, doc: TomlDocV)
    ensures
        node_part(c, doc).tcp_addr == c.tcp_addr,
{
}

proof fn lemma_curator_part(c: ConfigV, doc: TomlDocV)
    ensures
        curator_part(c, doc).tcp_addr == c.tcp_addr,
{
}

proof fn lemma_observability_part(c: ConfigV, doc: TomlDocV)
    ensures
        observability_part(c, doc).tcp_addr == c.tcp_addr,
{
}

/// A key with its value, and what the value stands for as an address.
#[derive(Debug)]
pub struct Given {
    pub key: String,
    pub value: String,
    pub resolved: Resolved,
}

/// A key with its value, as a mathematical object.
pub struct GivenV {
    pub key: Seq<char>,
    pub value: Seq<char>,
    pub resolved: ResolvedV,
}

/// Keys with their values.
pub open spec fn given_views(s: Seq<Given>) -> Seq<GivenV> {
    Seq::new(
        s.len(),
        |i: int|
            GivenV {
                key: s[i].key@,
                value: s[i].value@,
                resolved: resolved_view(s[i].resolved),
            },
    )
}

impl ConfigV {
    /// The settings after the first `n` variables, up to the first that is refused.
    pub open spec fn with_variables(self, env: Seq<GivenV>, n: nat) -> Result<ConfigV, ErrV>
        decreases n,
    {
        if n == 0 {
            Ok(self)
        } else {
            match self.with_variables(env, (n - 1) as nat) {
                Err(e) => Err(e),
                Ok(c) => c.with_env(env[n - 1].key, env[n - 1].value, env[n - 1].resolved),
            }
        }
    }

    /// The settings after the first `n` pairs of the command line, up to the first
    /// that is refused.
    pub open spec fn with_pairs(self, cli: Seq<GivenV>, n: nat) -> Result<ConfigV, ErrV>
        decreases n,
    {
        if n == 0 {
            Ok(self)
        } else {
            match self.with_pairs(cli, (n - 1) as nat) {
                Err(e) => Err(e),
                Ok(c) => c.with_kv(cli[n - 1].key, cli[n - 1].value, cli[n - 1].resolved),
            }
        }
    }

    /// The settings after the first `n` rates.
    pub open spec fn with_rates(self, rates: Seq<(Rate, u64)>, n: nat) -> ConfigV
        decreases n,
    {
        if n == 0 {
            self
        } else {
            self.with_rates(rates, (n - 1) as nat).with_rate(rates[n - 1].0, rates[n - 1].1)
        }
    }

    /// The settings of a file and its rates, of the variables, and of the command
    /// line; each overrides what came before.
    pub open spec fn loaded(
        self,
        doc: Option<TomlDocV>,
        tcp: ResolvedV,
        rates: Seq<(Rate, u64)>,
        env: Seq<GivenV>,
        cli: Seq<GivenV>,
    ) -> Result<ConfigV, ErrV> {
        let file = match doc {
            None => (self, None),
            Some(d) => self.with_toml(d, tcp),
        };
        match file.1 {
            Some(e) => Err(e),
            None => match file.0.with_rates(rates, rates.len()).with_variables(env, env.len()) {
                Err(e) => Err(e),
                Ok(c) => match c.with_pairs(cli, cli.len()) {
                    Err(e) => Err(e),
                    Ok(c) => Ok(c.with_socket()),
                },
            },
        }
    }

    /// The settings with a local socket: the one that is set, or else one in the
    /// directory of the node.
    pub open spec fn with_socket(self) -> ConfigV {
        ConfigV {
            uds_path: match self.uds_path {
                Some(p) => Some(p),
                None => Some(below_dir(self.data_dir, "ultracortex.sock"@)),
            },
            ..self
        }
    }
}

/// The path of a name in a directory.
pub open spec fn below_dir(dir: Seq<char>, name: Seq<char>) -> Seq<char> {
    if dir.len() == 0 {
        name
    } else if dir.last() == '/' {
        dir + name
    } else {
        dir + "/"@ + name
    }
}

fn path_below(dir: &str, name: &str) -> (r: String)
    ensures
        r@ == below_dir(dir@, name@),
{
    let c = chars_of(dir);
    let n: usize = c.len();
    if n == 0 {
        name.to_string()
    } else if c[n - 1] == '/' {
        cat2(dir, name)
    } else {
        cat3(dir, "/", name)
    }
}

proof fn lemma_variables_stop(c: ConfigV, env: Seq<GivenV>, n: nat, m: nat)
    requires
        n <= m,
        c.with_variables(env, n) is Err,
    ensures
        c.with_variables(env, m) == c.with_variables(env, n),
    decreases m,
{
    if n < m {
        lemma_variables_stop(c, env, n, (m - 1) as nat);
    }
}

proof fn lemma_pairs_stop(c: ConfigV, cli: Seq<GivenV>, n: nat, m: nat)
    requires
        n <= m,
        c.with_pairs(cli, n) is Err,
    ensures
        c.with_pairs(cli, m) == c.with_pairs(cli, n),
    decreases m,
{
    if n < m {
        lemma_pairs_stop(c, cli, n, (m - 1) as nat);
    }
}

impl Config {
    fn take_variables(&mut self, env: &Vec<Given>) -> (r: UcResult<()>)
        ensures
            match old(self).deep_view().with_variables(given_views(env@), env@.len()) {
                Ok(c) => r is Ok && final(self).deep_view() == c,
                Err(e) => r is Err && r->Err_0.plain(e.0, e.1),
            },
    {
        let ghost was = self.deep_view();
        let ghost all = given_views(env@);
        let mut i: usize = 0;
        while i < env.len()
            invariant
                i <= env@.len(),
                all == given_views(env@),
                was == old(self).deep_view(),
                was.with_variables(all, i as nat) == Ok::<_, ErrV>(self.deep_view()),
            decreases env.len() - i,
        {
            let g = &env[i];
            assert(all[i as int] == (GivenV {
                key: g.key@,
                value: g.value@,
                resolved: resolved_view(g.resolved),
            }));
            if let Err(e) = self.apply_env(g.key.as_str(), g.value.as_str(), &g.resolved) {
                proof {
                    lemma_variables_stop(was, all, (i + 1) as nat, all.len());
                }
                return Err(e);
            }
            i += 1;
        }
        Ok(())
    }

    fn take_pairs(&mut self, cli: &Vec<Given>) -> (r: UcResult<()>)
        ensures
            match old(self).deep_view().with_pairs(given_views(cli@), cli@.len()) {
                Ok(c) => r is Ok && final(self).deep_view() == c,
                Err(e) => r is Err && r->Err_0.plain(e.0, e.1),
            },
    {
        let ghost was = self.deep_view();
        let ghost all = given_views(cli@);
        let mut i: usize = 0;
        while i < cli.len()
            invariant
                i <= cli@.len(),
                all == given_views(cli@),
                was == old(self).deep_view(),
                was.with_pairs(all, i as nat) == Ok::<_, ErrV>(self.deep_view()),
            decreases cli.len() - i,
        {
            let g = &cli[i];
            assert(all[i as int] == (GivenV {
                key: g.key@,
                value: g.value@,
                resolved: resolved_view(g.resolved),
            }));
            if let Err(e) = apply_kv(self, g.key.as_str(), g.value.as_str(), &g.resolved) {
                proof {
                    lemma_pairs_stop(was, all, (i + 1) as nat, all.len());
                }
                return Err(e);
            }
            i += 1;
        }
        Ok(())
    }

    /// The settings of a machine with so many cores, of a file and its rates, of
    /// the variables, and of the command line; each overrides what came before.
    pub fn load(
        cores: u64,
        doc: Option<&TomlDoc>,
        tcp: &Resolved,
        rates: &Vec<(Rate, u64)>,
        env: &Vec<Given>,
        cli: &Vec<Given>,
    ) -> (r: UcResult<Config>)
        ensures
            agrees(
                r,
                default_config(cores).loaded(
                    match doc {
                        Some(d) => Some(d@),
                        None => None,
                    },
                    resolved_view(*tcp),
                    rates@,
                    given_views(env@),
                    given_views(cli@),
                ),
            ),
    {
        let mut cfg = Config::for_cores(cores);
        if let Some(d) = doc {
            if let Err(e) = cfg.apply_toml(d, tcp) {
                return Err(e);
            }
        }
        let ghost file = cfg.deep_view();
        let mut i: usize = 0;
        while i < rates.len()
            invariant
                i <= rates@.len(),
                cfg.deep_view() == file.with_rates(rates@, i as nat),
            decreases rates.len() - i,
        {
            let (rate, bits) = rates[i];
            cfg.set_rate(rate, bits);
            i += 1;
        }
        if let Err(e) = cfg.take_variables(env) {
            return Err(e);
        }
        if let Err(e) = cfg.take_pairs(cli) {
            return Err(e);
        }
        let ghost given = cfg.deep_view();
        if cfg.uds_path.is_none() {
            cfg.uds_path = Some(path_below(cfg.data_dir.as_str(), "ultracortex.sock"));
        }
        assert(cfg.deep_view() =~= given.with_socket());
        Ok(cfg)
    }
}

/// A file changes the address to listen on only to one of this machine.
pub proof fn lemma_toml_loopback(c: ConfigV, doc: TomlDocV, resolver: ResolvedV)
    ensures
        ({
            let d = c.with_toml(doc, resolver).0;
            d.tcp_addr is Some && d.tcp_addr != c.tcp_addr ==> listen_verdict(
                d.tcp_addr->0,
                known_of(d.tcp_addr->0, resolver),
            ) is Ok
        }),
{
    lemma_node_part(c, doc);
    let a = node_part(c, doc);
    let b = match text_at(doc, "listen"@, "tcp"@) {
        Some(v) => a.with_tcp(v, resolver),
        None => Ok(a),
    };
    if let Ok(b) = b {
        let e = match text_at(doc, "curator"@, "kv_budget_profile"@) {
            Some(v) => b.with_setting(Setting::KvBudget, v, Source::CommandLine, resolver),
            None => Ok(b),
        };
        if let Ok(e) = e {
            lemma_curator_part(e, doc);
            lemma_observability_part(curator_part(e, doc), doc);
        }
    }
}

/// A pair of the command line, or a variable, changes the address to listen on
/// only to one of this machine.
pub proof fn lemma_setting_loopback(
    c: ConfigV,
    s: Setting,
    v: Seq<char>,
    from: Source,
    resolver: ResolvedV,
)
    ensures
        match c.with_setting(s, v, from, resolver) {
            Ok(d) => d.tcp_addr is Some && d.tcp_addr != c.tcp_addr ==> listen_verdict(
                d.tcp_addr->0,
                known_of(d.tcp_addr->0, resolver),
            ) is Ok,
            Err(_) => true,
        },
{
}

/// A pair of the command line changes the one setting that its key names, to what its value
/// says, and nothing else; a value that says nothing for it is refused, and so is a key that
/// names none.
pub proof fn lemma_pair_sets(c: ConfigV, v: Seq<char>, resolver: ResolvedV)
    ensures
        c.with_kv("node.id"@, v, resolver) == Ok::<_, ErrV>(ConfigV { node_id: v, ..c }),
        c.with_kv("node.data_dir"@, v, resolver) == Ok::<_, ErrV>(ConfigV { data_dir: v, ..c }),
        match u64_of(v) {
            Some(n) => c.with_kv("node.shards"@, v, resolver) == Ok::<_, ErrV>(
                ConfigV {
                    shards: if n == 0 {
                        1
                    } else {
                        n
                    },
                    ..c
                },
            ) && c.with_kv("node.boot_seed"@, v, resolver) == Ok::<_, ErrV>(
                ConfigV { boot_seed: n, ..c },
            ) && c.with_kv("observability.otlp_timeout_ms"@, v, resolver) == Ok::<_, ErrV>(
                ConfigV {
                    observability: OtlpConfigV {
                        timeout_ms: if n == 0 {
                            1
                        } else {
                            n
                        },
                        ..c.observability
                    },
                    ..c
                },
            ),
            None => c.with_kv("node.shards"@, v, resolver) is Err && c.with_kv(
                "node.boot_seed"@,
                v,
                resolver,
            ) is Err && c.with_kv("observability.otlp_timeout_ms"@, v, resolver) is Err,
        },
        match EncryptionTier::named(v) {
            Some(t) => c.with_kv("persist.encryption_tier"@, v, resolver) == Ok::<_, ErrV>(
                ConfigV { encryption_tier: t, ..c },
            ),
            None => c.with_kv("persist.encryption_tier"@, v, resolver) is Err,
        },
        match ShardTopology::named(v) {
            Some(t) => c.with_kv("shards.trinity_topology"@, v, resolver) == Ok::<_, ErrV>(
                ConfigV { trinity_topology: t, ..c },
            ) && c.with_kv("curator.topology"@, v, resolver) == Ok::<_, ErrV>(
                ConfigV { curator: CuratorConfigV { topology: t, ..c.curator }, ..c },
            ),
            None => c.with_kv("shards.trinity_topology"@, v, resolver) is Err && c.with_kv(
                "curator.topology"@,
                v,
                resolver,
            ) is Err,
        },
        match CuratorKvBudgetProfile::named(v) {
            Some(p) => c.with_kv("curator.kv_budget_profile"@, v, resolver) == Ok::<_, ErrV>(
                ConfigV { curator: CuratorConfigV { kv_budget_profile: p, ..c.curator }, ..c },
            ),
            None => c.with_kv("curator.kv_budget_profile"@, v, resolver) is Err,
        },
        c.with_kv("listen.uds"@, v, resolver) == Ok::<_, ErrV>(
            ConfigV {
                uds_path: if v.len() == 0 {
                    None
                } else {
                    Some(v)
                },
                ..c
            },
        ),
        c.with_kv("listen.tcp"@, v, resolver) is Ok ==> c.with_kv("listen.tcp"@, v, resolver)->Ok_0
            == (ConfigV {
            tcp_addr: if v.len() == 0 {
                None
            } else {
                Some(v)
            },
            ..c
        }),
        match switch_of(v) {
            Some(b) => c.with_kv("observability.otlp_enabled"@, v, resolver) == Ok::<_, ErrV>(
                ConfigV { observability: OtlpConfigV { enabled: b, ..c.observability }, ..c },
            ),
            None => c.with_kv("observability.otlp_enabled"@, v, resolver) is Err,
        },
        c.with_kv("observability.otlp_metrics_endpoint"@, v, resolver) == Ok::<_, ErrV>(
            ConfigV { observability: OtlpConfigV { metrics_endpoint: v, ..c.observability }, ..c },
        ),
        c.with_kv("observability.otlp_traces_endpoint"@, v, resolver) == Ok::<_, ErrV>(
            ConfigV { observability: OtlpConfigV { traces_endpoint: v, ..c.observability }, ..c },
        ),
        c.with_kv("observability.otlp_logs_endpoint"@, v, resolver) == Ok::<_, ErrV>(
            ConfigV { observability: OtlpConfigV { logs_endpoint: v, ..c.observability }, ..c },
        ),
{
    reveal_strlit("node.id");
    reveal_strlit("node.data_dir");
    reveal_strlit("node.shards");
    reveal_strlit("shards.trinity_topology");
    reveal_strlit("node.boot_seed");
    reveal_strlit("persist.encryption_tier");
    reveal_strlit("listen.uds");
    reveal_strlit("listen.tcp");
    reveal_strlit("observability.otlp_enabled");
    reveal_strlit("observability.otlp_metrics_endpoint");
    reveal_strlit("observability.otlp_traces_endpoint");
    reveal_strlit("observability.otlp_logs_endpoint");
    reveal_strlit("observability.otlp_timeout_ms");
    reveal_strlit("curator.topology");
    reveal_strlit("curator.kv_budget_profile");
    assert("node.id"@.len() == 7);
    assert("node.data_dir"@.len() == 13);
    assert("node.shards"@.len() == 11);
    assert("shards.trinity_topology"@.len() == 23);
    assert("node.boot_seed"@.len() == 14);
    assert("persist.encryption_tier"@.len() == 23);
    assert("listen.uds"@.len() == 10);
    assert("listen.tcp"@.len() == 10);
    assert("observability.otlp_enabled"@.len() == 26);
    assert("observability.otlp_metrics_endpoint"@.len() == 35);
    assert("observability.otlp_traces_endpoint"@.len() == 34);
    assert("observability.otlp_logs_endpoint"@.len() == 32);
    assert("observability.otlp_timeout_ms"@.len() == 29);
    assert("curator.topology"@.len() == 16);
    assert("curator.kv_budget_profile"@.len() == 25);
    assert("shards.trinity_topology"@[0] != "persist.encryption_tier"@[0]);
    assert("listen.uds"@[7] != "listen.tcp"@[7]);
}

/// A variable of the environment sets what the key of the command line with its meaning sets,
/// to the same; a variable of another name sets nothing.
pub proof fn lemma_variable_sets(c: ConfigV, v: Seq<char>, resolver: ResolvedV, k: Seq<char>)
    ensures
        same_settings(c.with_env("UC_NODE_ID"@, v, resolver), c.with_kv("node.id"@, v, resolver)),
        same_settings(c.with_env("UC_DATA_DIR"@, v, resolver), c.with_kv("node.data_dir"@, v, resolver)),
        same_settings(c.with_env("UC_SHARDS"@, v, resolver), c.with_kv("node.shards"@, v, resolver)),
        same_settings(c.with_env("UC_TRINITY_TOPOLOGY"@, v, resolver), c.with_kv("shards.trinity_topology"@, v, resolver)),
        same_settings(c.with_env("UC_ENCRYPTION_TIER"@, v, resolver), c.with_kv("persist.encryption_tier"@, v, resolver)),
        same_settings(c.with_env("UC_UDS"@, v, resolver), c.with_kv("listen.uds"@, v, resolver)),
        same_settings(c.with_env("UC_TCP"@, v, resolver), c.with_kv("listen.tcp"@, v, resolver)),
        same_settings(c.with_env("UC_OTLP_ENABLED"@, v, resolver), c.with_kv("observability.otlp_enabled"@, v, resolver)),
        same_settings(c.with_env("UC_OTLP_METRICS_ENDPOINT"@, v, resolver), c.with_kv("observability.otlp_metrics_endpoint"@, v, resolver)),
        same_settings(c.with_env("UC_OTLP_TRACES_ENDPOINT"@, v, resolver), c.with_kv("observability.otlp_traces_endpoint"@, v, resolver)),
        same_settings(c.with_env("UC_OTLP_LOGS_ENDPOINT"@, v, resolver), c.with_kv("observability.otlp_logs_endpoint"@, v, resolver)),
        same_settings(c.with_env("UC_OTLP_TIMEOUT_MS"@, v, resolver), c.with_kv("observability.otlp_timeout_ms"@, v, resolver)),
        same_settings(c.with_env("UC_CURATOR_TOPOLOGY"@, v, resolver), c.with_kv("curator.topology"@, v, resolver)),
        same_settings(c.with_env("UC_CURATOR_KV_BUDGET_PROFILE"@, v, resolver), c.with_kv("curator.kv_budget_profile"@, v, resolver)),
        k != "UC_NODE_ID"@
            && k != "UC_DATA_DIR"@
            && k != "UC_SHARDS"@
            && k != "UC_TRINITY_TOPOLOGY"@
            && k != "UC_ENCRYPTION_TIER"@
            && k != "UC_UDS"@
            && k != "UC_TCP"@
            && k != "UC_OTLP_ENABLED"@
            && k != "UC_OTLP_METRICS_ENDPOINT"@
            && k != "UC_OTLP_TRACES_ENDPOINT"@
            && k != "UC_OTLP_LOGS_ENDPOINT"@
            && k != "UC_OTLP_TIMEOUT_MS"@
            && k != "UC_CURATOR_TOPOLOGY"@
            && k != "UC_CURATOR_KV_BUDGET_PROFILE"@ ==> c.with_env(k, v, resolver)
            == Ok::<_, ErrV>(c),
{
    reveal_strlit("node.id");
    reveal_strlit("node.data_dir");
    reveal_strlit("node.shards");
    reveal_strlit("shards.trinity_topology");
    reveal_strlit("node.boot_seed");
    reveal_strlit("persist.encryption_tier");
    reveal_strlit("listen.uds");
    reveal_strlit("listen.tcp");
    reveal_strlit("observability.otlp_enabled");
    reveal_strlit("observability.otlp_metrics_endpoint");
    reveal_strlit("observability.otlp_traces_endpoint");
    reveal_strlit("observability.otlp_logs_endpoint");
    reveal_strlit("observability.otlp_timeout_ms");
    reveal_strlit("curator.topology");
    reveal_strlit("curator.kv_budget_profile");
    reveal_strlit("UC_NODE_ID");
    reveal_strlit("UC_DATA_DIR");
    reveal_strlit("UC_SHARDS");
    reveal_strlit("UC_TRINITY_TOPOLOGY");
    reveal_strlit("UC_ENCRYPTION_TIER");
    reveal_strlit("UC_UDS");
    reveal_strlit("UC_TCP");
    reveal_strlit("UC_OTLP_ENABLED");
    reveal_strlit("UC_OTLP_METRICS_ENDPOINT");
    reveal_strlit("UC_OTLP_TRACES_ENDPOINT");
    reveal_strlit("UC_OTLP_LOGS_ENDPOINT");
    reveal_strlit("UC_OTLP_TIMEOUT_MS");
    reveal_strlit("UC_CURATOR_TOPOLOGY");
    reveal_strlit("UC_CURATOR_KV_BUDGET_PROFILE");
    assert("node.id"@.len() == 7);
    assert("node.data_dir"@.len() == 13);
    assert("node.shards"@.len() == 11);
    assert("shards.trinity_topology"@.len() == 23);
    assert("node.boot_seed"@.len() == 14);
    assert("persist.encryption_tier"@.len() == 23);
    assert("listen.uds"@.len() == 10);
    assert("listen.tcp"@.len() == 10);
    assert("observability.otlp_enabled"@.len() == 26);
    assert("observability.otlp_metrics_endpoint"@.len() == 35);
    assert("observability.otlp_traces_endpoint"@.len() == 34);
    assert("observability.otlp_logs_endpoint"@.len() == 32);
    assert("observability.otlp_timeout_ms"@.len() == 29);
    assert("curator.topology"@.len() == 16);
    assert("curator.kv_budget_profile"@.len() == 25);
    assert("shards.trinity_topology"@[0] != "persist.encryption_tier"@[0]);
    assert("listen.uds"@[7] != "listen.tcp"@[7]);
    assert("UC_NODE_ID"@.len() == 10);
    assert("UC_DATA_DIR"@.len() == 11);
    assert("UC_SHARDS"@.len() == 9);
    assert("UC_TRINITY_TOPOLOGY"@.len() == 19);
    assert("UC_ENCRYPTION_TIER"@.len() == 18);
    assert("UC_UDS"@.len() == 6);
    assert("UC_TCP"@.len() == 6);
    assert("UC_OTLP_ENABLED"@.len() == 15);
    assert("UC_OTLP_METRICS_ENDPOINT"@.len() == 24);
    assert("UC_OTLP_TRACES_ENDPOINT"@.len() == 23);
    assert("UC_OTLP_LOGS_ENDPOINT"@.len() == 21);
    assert("UC_OTLP_TIMEOUT_MS"@.len() == 18);
    assert("UC_CURATOR_TOPOLOGY"@.len() == 19);
    assert("UC_CURATOR_KV_BUDGET_PROFILE"@.len() == 28);
    assert("UC_TRINITY_TOPOLOGY"@[3] != "UC_CURATOR_TOPOLOGY"@[3]);
    assert("UC_ENCRYPTION_TIER"@[3] != "UC_OTLP_TIMEOUT_MS"@[3]);
    assert("UC_UDS"@[3] != "UC_TCP"@[3]);
}

/// Two outcomes give the same settings, or both are refusals.
pub open spec fn same_settings(a: Result<ConfigV, ErrV>, b: Result<ConfigV, ErrV>) -> bool {
    match (a, b) {
        (Ok(x), Ok(y)) => x == y,
        (Err(_), Err(_)) => true,
        _ => false,
    }
}

/// What comes later overrides: the last pair of the command line is in force, whatever the
/// file, the environment and the other pairs say; and without a pair the last variable is.
pub proof fn lemma_last_wins(
    c: ConfigV,
    doc: Option<TomlDocV>,
    tcp: ResolvedV,
    rates: Seq<(Rate, u64)>,
    env: Seq<GivenV>,
    cli: Seq<GivenV>,
)
    requires
        c.loaded(doc, tcp, rates, env, cli) is Ok,
    ensures
        ({
            let d = c.loaded(doc, tcp, rates, env, cli)->Ok_0;
            &&& cli.len() > 0 && cli.last().key == "node.id"@ ==> d.node_id == cli.last().value
            &&& cli.len() > 0 && cli.last().key == "node.data_dir"@ ==> d.data_dir
                == cli.last().value
            &&& cli.len() > 0 && cli.last().key == "listen.uds"@ && cli.last().value.len() > 0
                ==> d.uds_path == Some(cli.last().value)
            &&& cli.len() == 0 && env.len() > 0 && env.last().key == "UC_NODE_ID"@ ==> d.node_id
                == env.last().value
            &&& cli.len() == 0 && env.len() > 0 && env.last().key == "UC_DATA_DIR"@ ==> d.data_dir
                == env.last().value
            &&& d.uds_path is Some
        }),
{
    let file = match doc {
        None => (c, None),
        Some(d) => c.with_toml(d, tcp),
    };
    let f = file.0.with_rates(rates, rates.len());
    let e = f.with_variables(env, env.len());
    if env.len() > 0 {
        let g = f.with_variables(env, (env.len() - 1) as nat);
        lemma_pair_sets(g->Ok_0, env.last().value, env.last().resolved);
        lemma_variable_sets(g->Ok_0, env.last().value, env.last().resolved, env.last().key);
    }
    if cli.len() > 0 {
        let g = e->Ok_0.with_pairs(cli, (cli.len() - 1) as nat);
        lemma_pair_sets(g->Ok_0, cli.last().value, cli.last().resolved);
    }
}

} // verus!
