//! What a node says of its own sync: it is syncing until what it serves is
//! what another process would reopen from disk.

use vstd::prelude::*;

use crate::primitives::U256;

verus! {

/// A stage with the block it has come to.
#[derive(Debug)]
pub struct Stage {
    pub name: String,
    pub block: u64,
}

/// How far a sync has come.
#[derive(Debug)]
pub struct SyncInfo {
    pub starting_block: U256,
    pub current_block: U256,
    pub highest_block: U256,
    pub warp_chunks_amount: Option<U256>,
    pub warp_chunks_processed: Option<U256>,
    pub stages: Option<Vec<Stage>>,
}

/// Whether the node is syncing.
#[derive(Debug)]
pub enum SyncStatus {
    /// It is, and this far.
    Info(Box<SyncInfo>),
    /// It is not.
    NotSyncing,
}

/// Whether syncing is to be reported: while the network is, and while the
/// durable head is another than the canonical one.
pub fn should_report_syncing(network_syncing: bool, durable_head: u64, canonical_head: u64) -> (r:
    bool)
    ensures
        r == (network_syncing || durable_head != canonical_head),
{
    network_syncing || durable_head != canonical_head
}

/// The block that the first checkpoint named `Finish` has come to, zero where
/// there is none: the state that is on disk.
pub open spec fn durable_head_of(checkpoints: Seq<(String, u64)>) -> u64
    decreases checkpoints.len(),
{
    if checkpoints.len() == 0 {
        0
    } else if checkpoints[0].0@ == "Finish"@ {
        checkpoints[0].1
    } else {
        durable_head_of(checkpoints.skip(1))
    }
}

/// The block that the first checkpoint named `Finish` has come to.
pub fn durable_head(checkpoints: &Vec<(String, u64)>) -> (r: u64)
    ensures
        r == durable_head_of(checkpoints@),
{
    let finish: String = "Finish".to_owned();
    let mut i: usize = 0;
    assert(checkpoints@.skip(0) =~= checkpoints@);
    while i < checkpoints.len()
        invariant
            i <= checkpoints@.len(),
            finish@ == "Finish"@,
            durable_head_of(checkpoints@) == durable_head_of(checkpoints@.skip(i as int)),
        decreases checkpoints@.len() - i,
    {
        assert(checkpoints@.skip(i as int).skip(1) =~= checkpoints@.skip(i + 1));
        if checkpoints[i].0 == finish {
            return checkpoints[i].1;
        }
        i = i + 1;
    }
    0
}

/// The stages are these checkpoints.
pub open spec fn lists(stages: Seq<Stage>, checkpoints: Seq<(String, u64)>) -> bool {
    &&& stages.len() == checkpoints.len()
    &&& forall|i: int|
        0 <= i < stages.len() ==> (#[trigger] stages[i]).name@ == checkpoints[i].0@
            && stages[i].block == checkpoints[i].1
}

/// The node's sync status, by what its network, its tree and its database say.
pub fn sync_status(
    network_syncing: bool,
    canonical_head: u64,
    checkpoints: &Vec<(String, u64)>,
    starting_block: U256,
) -> (r: SyncStatus)
    ensures
        r is Info <==> network_syncing || durable_head_of(checkpoints@) != canonical_head,
        r matches SyncStatus::Info(info) ==> {
            &&& info.starting_block == starting_block
            &&& info.current_block == (U256 {
                hi: 0,
                lo: durable_head_of(checkpoints@) as u128,
            })
            &&& info.highest_block == (U256 { hi: 0, lo: canonical_head as u128 })
            &&& info.warp_chunks_amount is None
            &&& info.warp_chunks_processed is None
            &&& info.stages is Some
            &&& lists(info.stages->Some_0@, checkpoints@)
        },
{
    let durable: u64 = durable_head(checkpoints);
    if !should_report_syncing(network_syncing, durable, canonical_head) {
        return SyncStatus::NotSyncing;
    }
    let mut stages: Vec<Stage> = Vec::new();
    let mut i: usize = 0;
    while i < checkpoints.len()
        invariant
            i <= checkpoints@.len(),
            lists(stages@, checkpoints@.take(i as int)),
        decreases checkpoints@.len() - i,
    {
        stages.push(Stage { name: checkpoints[i].0.clone(), block: checkpoints[i].1 });
        i = i + 1;
    }
    assert(checkpoints@.take(i as int) =~= checkpoints@);
    SyncStatus::Info(
        Box::new(
            SyncInfo {
                starting_block,
                current_block: U256 { hi: 0, lo: durable as u128 },
                highest_block: U256 { hi: 0, lo: canonical_head as u128 },
                warp_chunks_amount: None,
                warp_chunks_processed: None,
                stages: Some(stages),
            },
        ),
    )
}

} // verus!
