//! How a node is put together: which backend serves which curator, where its logs
//! lie, and what its first manifest says.

use vstd::prelude::*;
use crate::config::{CuratorConfig, CuratorConfigV};
use crate::curator::guardrails::{
    BlindReauditScheduler, CalibrationTracker, CalibrationV, ProbeScheduler, ProbeV,
};
use crate::idmap::IdMap;
use crate::persist::kms::EncryptionTier;
use crate::persist::manifest::{Manifest, ManifestV};
use crate::text::{cat2, cat5, padded, padded_text};
use crate::ulid::seeded;
use crate::vocab::{agrees, ErrCode, ErrV, UcError, UcResult};

verus! {

/// The backend of a curator.
#[derive(Debug)]
pub enum BackendChoice {
    /// The built-in one.
    Deterministic,
    /// A runner with pinned weights.
    Runner { slot: String, model: String, sha: String, command: String },
}

/// The backend of a curator, as a mathematical object.
pub enum BackendChoiceV {
    Deterministic,
    Runner { slot: Seq<char>, model: Seq<char>, sha: Seq<char>, command: Seq<char> },
}

impl DeepView for BackendChoice {
    type V = BackendChoiceV;

    open spec fn deep_view(&self) -> BackendChoiceV {
        match self {
            BackendChoice::Deterministic => BackendChoiceV::Deterministic,
            BackendChoice::Runner { slot, model, sha, command } => BackendChoiceV::Runner {
                slot: slot@,
                model: model@,
                sha: sha@,
                command: command@,
            },
        }
    }
}

/// The text under a name, if any.
pub open spec fn pin_of(c: CuratorConfigV, name: Seq<char>) -> Option<Seq<char>> {
    if c.pinned.contains_key(name) {
        Some(c.pinned[name])
    } else {
        None
    }
}

/// The backend of a slot: a runner where there are one and pinned weights; else
/// the built-in one, unless only pinned models may judge.
pub open spec fn slot_backend(c: CuratorConfigV, slot: Seq<char>, model: Seq<char>) -> Result<
    BackendChoiceV,
    ErrV,
> {
    match (c.external_cmd, pin_of(c, slot)) {
        (Some(command), Some(sha)) => Ok(BackendChoiceV::Runner { slot, model, sha, command }),
        _ => if c.strict_model_pins {
            Err(
                (
                    ErrCode::Unimplemented,
                    "curator "@ + slot + " default requires pinned "@ + model
                        + " weights and a local GGUF runner"@,
                ),
            )
        } else {
            Ok(BackendChoiceV::Deterministic)
        },
    }
}

/// The backend of a judge: a runner where only pinned models may judge, and
/// else the built-in one.
pub open spec fn judge_backend(c: CuratorConfigV, name: Seq<char>) -> Result<
    BackendChoiceV,
    ErrV,
> {
    if !c.strict_model_pins {
        Ok(BackendChoiceV::Deterministic)
    } else if c.external_cmd is None {
        Err((ErrCode::Unimplemented, "strict curator mode requires a GGUF runner"@))
    } else {
        match pin_of(c, name) {
            None => Err(
                (ErrCode::ContractViolation, "missing curator pin for adjudicator: "@ + name),
            ),
            Some(sha) => Ok(
                BackendChoiceV::Runner { slot: name, model: name, sha, command: c.external_cmd->0 },
            ),
        }
    }
}

/// A curator works with a local model exactly where a program to run it is set and its
/// weights are pinned; then it is that model with those weights. Where only pinned models
/// may judge, there is no other way.
pub proof fn lemma_slot_backend(c: CuratorConfigV, slot: Seq<char>, model: Seq<char>)
    ensures
        ({
            let runs = c.external_cmd is Some && c.pinned.contains_key(slot);
            let r = slot_backend(c, slot, model);
            &&& runs ==> r == Ok::<_, ErrV>(
                BackendChoiceV::Runner {
                    slot,
                    model,
                    sha: c.pinned[slot],
                    command: c.external_cmd->0,
                },
            )
            &&& !runs && c.strict_model_pins ==> r is Err
            &&& !runs && !c.strict_model_pins ==> r == Ok::<_, ErrV>(BackendChoiceV::Deterministic)
        }),
{
}

/// A judge works with its own pinned model where only pinned models may judge, and with the
/// built-in backend where others may.
pub proof fn lemma_judge_backend(c: CuratorConfigV, name: Seq<char>)
    ensures
        ({
            let r = judge_backend(c, name);
            &&& !c.strict_model_pins ==> r == Ok::<_, ErrV>(BackendChoiceV::Deterministic)
            &&& c.strict_model_pins ==> (r is Ok <==> c.external_cmd is Some
                && c.pinned.contains_key(name))
            &&& c.strict_model_pins && r is Ok ==> r->Ok_0 == (BackendChoiceV::Runner {
                slot: name,
                model: name,
                sha: c.pinned[name],
                command: c.external_cmd->0,
            })
        }),
{
}

/// The backends of the first `n` judges, up to the first error.
pub open spec fn judges(c: CuratorConfigV, n: nat) -> Result<
    Seq<(Seq<char>, BackendChoiceV)>,
    ErrV,
>
    decreases n,
{
    if n == 0 {
        Ok(Seq::empty())
    } else {
        match judges(c, (n - 1) as nat) {
            Err(e) => Err(e),
            Ok(js) => match judge_backend(c, c.adjudicator_pool[n - 1]) {
                Err(e) => Err(e),
                Ok(b) => Ok(js.push((c.adjudicator_pool[n - 1], b))),
            },
        }
    }
}

proof fn lemma_judges_stop(c: CuratorConfigV, n: nat, m: nat)
    requires
        n <= m,
        judges(c, n) is Err,
    ensures
        judges(c, m) == judges(c, n),
    decreases m,
{
    if n < m {
        lemma_judges_stop(c, n, (m - 1) as nat);
    }
}

/// Only runners with pinned weights serve where only pinned models may judge.
pub proof fn lemma_strict_pins(c: CuratorConfigV, slot: Seq<char>, model: Seq<char>)
    requires
        c.strict_model_pins,
    ensures
        slot_backend(c, slot, model) is Ok ==> slot_backend(c, slot, model)->Ok_0 is Runner
            && c.pinned.contains_key(slot),
        judge_backend(c, slot) is Ok ==> judge_backend(c, slot)->Ok_0 is Runner
            && c.pinned.contains_key(slot),
{
}

fn runner(slot: &str, model: &str, sha: &str, command: &str) -> (r: BackendChoice)
    ensures
        r.deep_view() == (BackendChoiceV::Runner {
            slot: slot@,
            model: model@,
            sha: sha@,
            command: command@,
        }),
{
    BackendChoice::Runner {
        slot: slot.to_string(),
        model: model.to_string(),
        sha: sha.to_string(),
        command: command.to_string(),
    }
}

/// Chooses the backend of a slot.
pub fn configured_curator_backend(cfg: &CuratorConfig, slot: &str, model: &str) -> (r: UcResult<
    BackendChoice,
>)
    ensures
        agrees(r, slot_backend(cfg.deep_view(), slot@, model@)),
{
    if let Some(cmd) = &cfg.external_cmd {
        if let Some(sha) = cfg.pinned.get(slot) {
            return Ok(runner(slot, model, sha.as_str(), cmd.as_str()));
        }
    }
    if cfg.strict_model_pins {
        let text = cat5(
            "curator ",
            slot,
            " default requires pinned ",
            model,
            " weights and a local GGUF runner",
        );
        return Err(UcError::unsupported(text.as_str()));
    }
    Ok(BackendChoice::Deterministic)
}

fn choose_judge(cfg: &CuratorConfig, name: &str) -> (r: UcResult<BackendChoice>)
    ensures
        agrees(r, judge_backend(cfg.deep_view(), name@)),
{
    if !cfg.strict_model_pins {
        return Ok(BackendChoice::Deterministic);
    }
    match &cfg.external_cmd {
        None => Err(UcError::unsupported("strict curator mode requires a GGUF runner")),
        Some(cmd) => match cfg.pinned.get(name) {
            None => {
                let text = cat2("missing curator pin for adjudicator: ", name);
                Err(UcError::schema(text.as_str()))
            },
            Some(sha) => Ok(runner(name, name, sha.as_str(), cmd.as_str())),
        },
    }
}

/// Judges with their backends, as mathematical objects.
pub open spec fn judge_views(s: Seq<(String, BackendChoice)>) -> Seq<(Seq<char>, BackendChoiceV)> {
    Seq::new(s.len(), |i: int| (s[i].0@, s[i].1.deep_view()))
}

/// Chooses the backends of the judges.
pub fn configured_judges(cfg: &CuratorConfig) -> (r: UcResult<Vec<(String, BackendChoice)>>)
    ensures
        match (r, judges(cfg.deep_view(), cfg.deep_view().adjudicator_pool.len())) {
            (Ok(js), Ok(want)) => judge_views(js@) == want,
            (Err(e), Err(want)) => e.plain(want.0, want.1),
            _ => false,
        },
{
    let ghost c = cfg.deep_view();
    let mut out: Vec<(String, BackendChoice)> = Vec::new();
    let mut i: usize = 0;
    assert(judge_views(out@) =~= Seq::empty());
    while i < cfg.adjudicator_pool.len()
        invariant
            i <= cfg.adjudicator_pool@.len(),
            c == cfg.deep_view(),
            c.adjudicator_pool.len() == cfg.adjudicator_pool@.len(),
            judges(c, i as nat) == Ok::<_, ErrV>(judge_views(out@)),
        decreases cfg.adjudicator_pool.len() - i,
    {
        let name = cfg.adjudicator_pool[i].as_str();
        assert(c.adjudicator_pool[i as int] == name@);
        match choose_judge(cfg, name) {
            Err(e) => {
                proof {
                    lemma_judges_stop(c, (i + 1) as nat, c.adjudicator_pool.len());
                }
                return Err(e);
            },
            Ok(b) => {
                let ghost before = judge_views(out@);
                let ghost x = (name@, b.deep_view());
                out.push((name.to_string(), b));
                assert(judge_views(out@) =~= before.push(x));
            },
        }
        i += 1;
    }
    Ok(out)
}

/// The directory of a shard's log, below that of the node.
pub fn shard_dir(shard: u64) -> (r: String)
    ensures
        r@ == "wal/shard-"@ + padded(shard as nat, 3),
{
    cat2("wal/shard-", padded_text(shard, 3).as_str())
}

/// The manifest of a node that holds nothing yet.
pub fn first_manifest(node_id: &str, proto_version: u64, tier: EncryptionTier, shard_count: u64) -> (r:
    Manifest)
    ensures
        r.deep_view() == (ManifestV {
            node_id: node_id@,
            proto_version,
            logical_at: 0,
            clean_shutdown: false,
            encryption_tier: tier.name(),
            shard_count,
            state_hashes: Map::empty(),
            last_snapshot: None,
        }),
{
    let r = Manifest {
        node_id: node_id.to_string(),
        proto_version,
        logical_at: 0,
        clean_shutdown: false,
        encryption_tier: tier.as_str().to_string(),
        shard_count,
        state_hashes: IdMap::new(),
        last_snapshot: None,
    };
    assert(r.deep_view().last_snapshot == None::<Seq<char>>);
    r
}

/// The guardrails of the curators.
#[derive(Debug)]
pub struct Guardrails {
    pub probe: ProbeScheduler,
    pub blind: BlindReauditScheduler,
    pub calibration: CalibrationTracker,
}

impl Guardrails {
    /// The guardrails of a node, from its seed and its settings.
    pub fn new(boot_seed: u64, cfg: &CuratorConfig) -> (r: Self)
        ensures
            r.probe@ == (ProbeV {
                rng: seeded(boot_seed ^ 0x9B0B),
                base_rate: cfg.deep_view().probe_rate,
                counter: 0,
            }),
            r.blind@ == (seeded(boot_seed ^ 0xB1AD), cfg.deep_view().blind_reaudit_rate),
            r.calibration@ == CalibrationV::empty(),
    {
        Guardrails {
            probe: ProbeScheduler::new(boot_seed, cfg.probe_rate),
            blind: BlindReauditScheduler::new(boot_seed, cfg.blind_reaudit_rate),
            calibration: CalibrationTracker::new(),
        }
    }
}

} // verus!
