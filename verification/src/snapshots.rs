//! What a node notes of a snapshot that it wrote: in its manifest, in its
//! metrics, and in its log.

use vstd::prelude::*;
use crate::bootstrap::admin::{SnapshotReply, SnapshotReplyV};
use crate::idmap::IdMap;
use crate::node::SNAPSHOT_PAUSE_TARGET_US;
use crate::obs::metrics::{signed, to_signed, Metrics, MetricsV};
use crate::persist::manifest::{Manifest, ManifestV};
use crate::text::{dec_text, u64_text};

verus! {

/// How long the parts of a snapshot took, in microseconds.
#[derive(Clone, Copy, Debug, PartialEq, Eq, Structural)]
pub struct SnapshotTimes {
    pub total_us: u64,
    pub capture_us: u64,
    pub hash_us: u64,
    pub write_us: u64,
    pub manifest_us: u64,
}

/// A snapshot that was written.
#[derive(Debug)]
pub struct SnapshotOutcome {
    pub name: String,
    pub cells: usize,
    pub pause_us: u64,
    pub total_us: u64,
    pub capture_us: u64,
    pub hash_us: u64,
    pub write_us: u64,
    pub manifest_us: u64,
    pub within_target: bool,
}

/// The manifest after a snapshot was written; the hashes are kept where none are
/// given.
pub open spec fn manifest_with(
    m: ManifestV,
    at: u64,
    name: Seq<char>,
    hashes: Option<Map<u64, Seq<u8>>>,
) -> ManifestV {
    ManifestV {
        logical_at: at,
        last_snapshot: Some(name),
        state_hashes: match hashes {
            Some(h) => h,
            None => m.state_hashes,
        },
        ..m
    }
}

/// A manifest names the snapshot that was written last and its time; what else it says of the
/// node stays, and the digests of the states with it where no new ones are given.
pub proof fn lemma_manifest_with(
    m: ManifestV,
    at: u64,
    name: Seq<char>,
    hashes: Option<Map<u64, Seq<u8>>>,
)
    ensures
        ({
            let now = manifest_with(m, at, name, hashes);
            &&& now.last_snapshot == Some(name)
            &&& now.logical_at == at
            &&& hashes is Some ==> now.state_hashes == hashes->0
            &&& hashes is None ==> now.state_hashes == m.state_hashes
            &&& now.node_id == m.node_id
            &&& now.clean_shutdown == m.clean_shutdown
        }),
{
}

/// Notes a snapshot in the manifest.
pub fn mark_snapshot(m: &mut Manifest, at: u64, name: &str, hashes: Option<IdMap<[u8; 32]>>)
    ensures
        final(m).deep_view() == manifest_with(
            old(m).deep_view(),
            at,
            name@,
            match hashes {
                Some(h) => Some(h@),
                None => None,
            },
        ),
{
    m.logical_at = at;
    m.last_snapshot = Some(name.to_string());
    if let Some(h) = hashes {
        m.state_hashes = h;
    }
    assert(final(m).deep_view().last_snapshot == Some(name@));
}

/// Notes a clean shutdown in the manifest.
pub fn mark_clean(m: &mut Manifest, at: u64)
    ensures
        final(m).deep_view() == (ManifestV {
            logical_at: at,
            clean_shutdown: true,
            ..old(m).deep_view()
        }),
{
    m.logical_at = at;
    m.clean_shutdown = true;
}

impl MetricsV {
    /// The metrics with a value observed, where its sum still fits.
    pub open spec fn observed(self, name: Seq<char>, value: u64) -> MetricsV {
        if self.histo(name).takes(value) {
            MetricsV { histos: self.histos.insert(name, self.histo(name).observed(value)), ..self }
        } else {
            self
        }
    }

    /// The metrics with a gauge set to a count.
    pub open spec fn gauged(self, name: Seq<char>, value: u64) -> MetricsV {
        MetricsV { gauges: self.gauges.insert(name, signed(value)), ..self }
    }
}

/// The metrics after a snapshot.
pub open spec fn snapshot_metrics(m: MetricsV, o: SnapshotOutcome) -> MetricsV {
    let m = m.observed("snapshot.pause_us"@, o.pause_us).observed(
        "snapshot.total_us"@,
        o.total_us,
    ).observed("snapshot.capture_us"@, o.capture_us).observed(
        "snapshot.hash_us"@,
        o.hash_us,
    ).observed("snapshot.write_us"@, o.write_us).observed("snapshot.manifest_us"@, o.manifest_us);
    let m = m.gauged("snapshot.last_pause_us"@, o.pause_us).gauged(
        "snapshot.last_total_us"@,
        o.total_us,
    ).gauged("snapshot.last_cells"@, o.cells as u64);
    if o.within_target {
        m
    } else {
        m.noted("snapshot.pause_target_exceeded"@)
    }
}

/// The name of a snapshot's event.
pub open spec fn snapshot_event(o: SnapshotOutcome) -> (Seq<char>, Seq<char>) {
    if o.within_target {
        ("info"@, "snapshot.completed"@)
    } else {
        ("warn"@, "snapshot.pause_target_exceeded"@)
    }
}

/// The fields of a snapshot's event.
pub open spec fn snapshot_fields(o: SnapshotOutcome) -> Seq<(Seq<char>, Seq<char>)> {
    let fields = seq![
        ("pause_us"@, dec_text(o.pause_us as nat)),
        ("total_us"@, dec_text(o.total_us as nat)),
        ("pause_target_us"@, dec_text(SNAPSHOT_PAUSE_TARGET_US as nat)),
        ("cells"@, dec_text(o.cells as nat)),
    ];
    if o.within_target {
        fields.push(("snapshot"@, o.name@))
    } else {
        fields
    }
}

impl SnapshotOutcome {
    /// The outcome of a snapshot: the pause is the time of the capture, and is
    /// held against its target.
    pub fn new(name: String, cells: usize, t: SnapshotTimes) -> (r: Self)
        ensures
            r.name@ == name@,
            r.cells == cells,
            r.pause_us == t.capture_us,
            r.total_us == t.total_us,
            r.capture_us == t.capture_us,
            r.hash_us == t.hash_us,
            r.write_us == t.write_us,
            r.manifest_us == t.manifest_us,
            r.within_target == (t.capture_us <= SNAPSHOT_PAUSE_TARGET_US),
    {
        SnapshotOutcome {
            name,
            cells,
            pause_us: t.capture_us,
            total_us: t.total_us,
            capture_us: t.capture_us,
            hash_us: t.hash_us,
            write_us: t.write_us,
            manifest_us: t.manifest_us,
            within_target: t.capture_us <= SNAPSHOT_PAUSE_TARGET_US,
        }
    }

    /// Notes the snapshot in the metrics.
    pub fn note(&self, metrics: &mut Metrics)
        ensures
            final(metrics)@ == snapshot_metrics(old(metrics)@, *self),
    {
        observe(metrics, "snapshot.pause_us", self.pause_us);
        observe(metrics, "snapshot.total_us", self.total_us);
        observe(metrics, "snapshot.capture_us", self.capture_us);
        observe(metrics, "snapshot.hash_us", self.hash_us);
        observe(metrics, "snapshot.write_us", self.write_us);
        observe(metrics, "snapshot.manifest_us", self.manifest_us);
        metrics.gauge_set("snapshot.last_pause_us", to_signed(self.pause_us));
        metrics.gauge_set("snapshot.last_total_us", to_signed(self.total_us));
        metrics.gauge_set("snapshot.last_cells", to_signed(self.cells as u64));
        if !self.within_target {
            metrics.inc("snapshot.pause_target_exceeded");
        }
    }

    /// What an operator is told of the snapshot.
    pub fn to_reply(&self) -> (r: SnapshotReply)
        ensures
            r.deep_view() == (SnapshotReplyV {
                snapshot: self.name@,
                cells: self.cells as u64,
                pause_us: self.pause_us,
                total_us: self.total_us,
                pause_target_us: SNAPSHOT_PAUSE_TARGET_US,
                capture_us: self.capture_us,
                hash_us: self.hash_us,
                write_us: self.write_us,
                manifest_us: self.manifest_us,
                within_target: self.within_target,
            }),
    {
        SnapshotReply {
            snapshot: self.name.as_str().to_string(),
            cells: self.cells as u64,
            pause_us: self.pause_us,
            total_us: self.total_us,
            pause_target_us: SNAPSHOT_PAUSE_TARGET_US,
            capture_us: self.capture_us,
            hash_us: self.hash_us,
            write_us: self.write_us,
            manifest_us: self.manifest_us,
            within_target: self.within_target,
        }
    }

    /// The level and the name of the snapshot's event.
    pub fn event(&self) -> (r: (&'static str, &'static str))
        ensures
            (r.0@, r.1@) == snapshot_event(*self),
    {
        if self.within_target {
            ("info", "snapshot.completed")
        } else {
            ("warn", "snapshot.pause_target_exceeded")
        }
    }

    /// The fields of the snapshot's event.
    pub fn fields(&self) -> (r: Vec<(String, String)>)
        ensures
            r.deep_view() == snapshot_fields(*self),
    {
        let mut out: Vec<(String, String)> = Vec::new();
        out.push(("pause_us".to_string(), u64_text(self.pause_us)));
        out.push(("total_us".to_string(), u64_text(self.total_us)));
        out.push(("pause_target_us".to_string(), u64_text(SNAPSHOT_PAUSE_TARGET_US)));
        out.push(("cells".to_string(), u64_text(self.cells as u64)));
        if self.within_target {
            out.push(("snapshot".to_string(), self.name.as_str().to_string()));
        }
        assert(out.deep_view() =~= snapshot_fields(*self));
        out
    }
}

fn observe(metrics: &mut Metrics, name: &str, value: u64)
    ensures
        final(metrics)@ == old(metrics)@.observed(name@, value),
{
    if metrics.takes(name, value) {
        metrics.observe(name, value);
    }
}

} // verus!
