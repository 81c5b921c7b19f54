use std::collections::BTreeMap;
use std::collections::HashMap;
use vstd::prelude::*;

verus! {

broadcast use vstd::std_specs::hash::group_hash_axioms, vstd::std_specs::btree::group_btree_axioms, vstd::laws_cmp::group_laws_cmp;

/// Stale objects by the version that removed them, seen through the vectors' contents.
pub open spec fn stale_view(m: Map<u64, Vec<u64>>) -> Map<u64, Seq<u64>> {
    m.map_values(|v: Vec<u64>| v@)
}

/// Whether the delta log records objects removed by version `v`, with `lo < v <= hi`.
pub open spec fn removes_in(deltas: Map<u64, Seq<u64>>, lo: u64, hi: u64, v: u64) -> bool {
    lo < v <= hi && deltas.contains_key(v) && deltas[v].len() > 0
}

/// `stale` with the objects removed by each version in `(lo, hi]` added, under that version;
/// versions that removed nothing add no entry.
pub open spec fn stale_after(
    stale: Map<u64, Seq<u64>>,
    deltas: Map<u64, Seq<u64>>,
    lo: u64,
    hi: u64,
) -> Map<u64, Seq<u64>> {
    Map::new(
        |v: u64| stale.contains_key(v) || removes_in(deltas, lo, hi, v),
        |v: u64|
            if removes_in(deltas, lo, hi, v) {
                deltas[v]
            } else {
                stale[v]
            },
    )
}

fn copy_ids(v: &Vec<u64>) -> (r: Vec<u64>)
    ensures
        r@ == v@,
{
    let mut out: Vec<u64> = Vec::new();
    let mut i: usize = 0;
    while i < v.len()
        invariant
            i <= v@.len(),
            out@ == v@.take(i as int),
        decreases v.len() - i,
    {
        out.push(v[i]);
        i = i + 1;
        assert(out@ =~= v@.take(i as int));
    }
    assert(v@.take(i as int) =~= v@);
    out
}

/// A version checkpoint: the version it was taken at, and the objects that the deltas it
/// compacted removed, by the version that removed them.
#[derive(Debug)]
pub struct VersionCheckpoint {
    pub version_id: u64,
    pub stale_objects: HashMap<u64, Vec<u64>>,
}

/// Whether a new checkpoint is due at `current` after the one at `old`: at least `min` versions
/// have passed and the version has not gone back.
pub open spec fn checkpoint_due(current: u64, old: u64, min: u64) -> bool {
    current >= old && current - old >= min
}

/// Moves the checkpoint to `current_version_id` once at least `min_delta_log_num` versions
/// have passed since it was taken, folding the delta log since then (the objects each
/// version removed, by version) into its stale objects.
/// Returns how many versions the checkpoint advanced by; 0 where it is not due, and then
/// nothing changes. The checkpoint's version never decreases.
pub fn create_version_checkpoint(
    current_version_id: u64,
    min_delta_log_num: u64,
    deltas: &BTreeMap<u64, Vec<u64>>,
    checkpoint: &mut VersionCheckpoint,
) -> (r: u64)
    ensures
        final(checkpoint).version_id >= old(checkpoint).version_id,
        if checkpoint_due(current_version_id, old(checkpoint).version_id, min_delta_log_num) {
            &&& r == current_version_id - old(checkpoint).version_id
            &&& final(checkpoint).version_id == current_version_id
            &&& stale_view(final(checkpoint).stale_objects@) == stale_after(
                stale_view(old(checkpoint).stale_objects@),
                stale_view(deltas@),
                old(checkpoint).version_id,
                current_version_id,
            )
        } else {
            &&& r == 0
            &&& final(checkpoint).version_id == old(checkpoint).version_id
            &&& final(checkpoint).stale_objects@ == old(checkpoint).stale_objects@
        },
{
    let old_checkpoint_id = checkpoint.version_id;
    if current_version_id < old_checkpoint_id || current_version_id - old_checkpoint_id
        < min_delta_log_num {
        return 0;
    }
    let mut v: u64 = old_checkpoint_id;
    assert(stale_view(checkpoint.stale_objects@) =~= stale_after(
        stale_view(old(checkpoint).stale_objects@),
        stale_view(deltas@),
        old_checkpoint_id,
        v,
    ));
    while v < current_version_id
        invariant
            old_checkpoint_id <= v <= current_version_id,
            old_checkpoint_id == old(checkpoint).version_id,
            checkpoint.version_id == old_checkpoint_id,
            stale_view(checkpoint.stale_objects@) == stale_after(
                stale_view(old(checkpoint).stale_objects@),
                stale_view(deltas@),
                old_checkpoint_id,
                v,
            ),
        decreases current_version_id - v,
    {
        let ghost prev = stale_view(checkpoint.stale_objects@);
        v = v + 1;
        let ghost before = checkpoint.stale_objects@;
        assert(prev == stale_after(
            stale_view(old(checkpoint).stale_objects@),
            stale_view(deltas@),
            old_checkpoint_id,
            (v - 1) as u64,
        ));
        match deltas.get(&v) {
            Some(gc) => {
                assert(deltas@.contains_key(v) && deltas@[v] == *gc);
                if gc.len() > 0 {
                    let ids = copy_ids(gc);
                    checkpoint.stale_objects.insert(v, ids);
                    assert(stale_view(checkpoint.stale_objects@) =~= prev.insert(v, gc@));
                }
            },
            None => {
                assert(!deltas@.contains_key(v));
            },
        }
        assert(stale_view(checkpoint.stale_objects@) =~= stale_after(
            stale_view(old(checkpoint).stale_objects@),
            stale_view(deltas@),
            old_checkpoint_id,
            v,
        ));
    }
    checkpoint.version_id = current_version_id;
    current_version_id - old_checkpoint_id
}

} // verus!
