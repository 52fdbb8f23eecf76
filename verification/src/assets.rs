//! The shared-asset materialization planner: the writes that put every
//! plugin-declared asset into the plugin-namespaced directory under the
//! book source root, once per run, before any chapter is processed. The
//! host performs the writes; each one overwrites any file of the same
//! name, so a run's plan is authoritative and applying it twice leaves a
//! directory exactly as applying it once.

use vstd::prelude::*;
use crate::paths::{join_path, spec_join};
use crate::processor::Asset;

verus! {

/// One pending file write: a path under the book source root and the
/// bytes to put there.
pub struct FileWrite {
    pub path: String,
    pub contents: &'static [u8],
}

/// The writes of one materialization run: the plugin-namespaced directory
/// to create, and one write per declared asset, in declared order.
pub struct MaterializationPlan {
    pub dir: String,
    pub writes: Vec<FileWrite>,
}

/// Plan the materialization of `assets` into the directory named
/// `namespace` under `src_dir`: one write per asset, in declared order,
/// each at `src_dir/namespace/name` with the asset's bytes.
pub fn materialization_plan(src_dir: &str, namespace: &str, assets: &Vec<Asset>) -> (p:
    MaterializationPlan)
    ensures
        p.dir@ == spec_join(src_dir@, namespace@),
        p.writes@.len() == assets@.len(),
        forall|i: int|
            0 <= i < assets@.len() ==> (#[trigger] p.writes@[i]).path@ == spec_join(
                spec_join(src_dir@, namespace@),
                assets@[i].name@,
            ) && p.writes@[i].contents@ == assets@[i].contents@,
{
    let dir = join_path(src_dir, namespace);
    let mut writes: Vec<FileWrite> = Vec::new();
    let n = assets.len();
    let mut i: usize = 0;
    while i < n
        invariant
            i <= n,
            n == assets@.len(),
            dir@ == spec_join(src_dir@, namespace@),
            writes@.len() == i,
            forall|k: int|
                0 <= k < i ==> (#[trigger] writes@[k]).path@ == spec_join(
                    spec_join(src_dir@, namespace@),
                    assets@[k].name@,
                ) && writes@[k].contents@ == assets@[k].contents@,
        decreases n - i,
    {
        let a = assets[i];
        let path = join_path(dir.as_str(), a.name);
        writes.push(FileWrite { path, contents: a.contents });
        i += 1;
    }
    MaterializationPlan { dir, writes }
}

/// A directory modeled as a map from file path to file bytes, after the
/// writes of a plan have been applied in order, each overwriting any
/// earlier file of the same path.
pub open spec fn spec_apply_writes(
    d: Map<Seq<char>, Seq<u8>>,
    ws: Seq<FileWrite>,
) -> Map<Seq<char>, Seq<u8>>
    decreases ws.len(),
{
    if ws.len() == 0 {
        d
    } else {
        spec_apply_writes(d, ws.drop_last()).insert(ws.last().path@, ws.last().contents@)
    }
}

/// The index of the last write to the path `k`, or `-1` if there is none.
pub open spec fn last_write(ws: Seq<FileWrite>, k: Seq<char>) -> int
    decreases ws.len(),
{
    if ws.len() == 0 {
        -1
    } else if ws.last().path@ == k {
        ws.len() - 1
    } else {
        last_write(ws.drop_last(), k)
    }
}

/// After the writes, the path `k` holds the bytes of the last write to it,
/// and a path no write names keeps whatever the directory held before.
pub proof fn lemma_apply_writes_at(d: Map<Seq<char>, Seq<u8>>, ws: Seq<FileWrite>, k: Seq<char>)
    ensures
        -1 <= last_write(ws, k) < ws.len(),
        last_write(ws, k) >= 0 ==> spec_apply_writes(d, ws).contains_key(k) && spec_apply_writes(
            d,
            ws,
        )[k] == ws[last_write(ws, k)].contents@,
        last_write(ws, k) < 0 ==> spec_apply_writes(d, ws).contains_key(k) == d.contains_key(k) && (
        d.contains_key(k) ==> spec_apply_writes(d, ws)[k] == d[k]),
    decreases ws.len(),
{
    if ws.len() > 0 {
        lemma_apply_writes_at(d, ws.drop_last(), k);
    }
}

/// Materialization idempotence: running the same plan twice leaves the
/// directory exactly as running it once.
pub proof fn lemma_materialization_idempotent(d: Map<Seq<char>, Seq<u8>>, ws: Seq<FileWrite>)
    ensures
        spec_apply_writes(spec_apply_writes(d, ws), ws) == spec_apply_writes(d, ws),
{
    let once = spec_apply_writes(d, ws);
    let twice = spec_apply_writes(once, ws);
    assert forall|k: Seq<char>| #[trigger] twice.contains_key(k) == once.contains_key(k) && (
    once.contains_key(k) ==> twice[k] == once[k]) by {
        lemma_apply_writes_at(d, ws, k);
        lemma_apply_writes_at(once, ws, k);
    }
    assert(twice =~= once);
}

} // verus!
