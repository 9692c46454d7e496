//! Protocol constants (integer-valued ones).
use vstd::prelude::*;

verus! {

/// Default fee per transaction, in milliANGP (1 ANGP = 1000 milliANGP).
pub const DEFAULT_TX_FEE_MILLI: u64 = 1;

/// Total number of shards in the system (31 squared).
pub const N_SHARDS: u32 = 961;

/// Balance given to a genesis account, in milliANGP (1000 ANGP).
pub const GENESIS_BALANCE_MILLI: u64 = 1_000_000;

/// Number of recent nonces remembered per sender for double-spend detection.
pub const NONCE_HISTORY_MAX_PER_SENDER: usize = 1024;

/// Dimension of the prediction vectors nodes vote with.
pub const DIM: usize = 4;

/// Steps during which reputation is not yet updated.
pub const BOOTSTRAP_STEPS: u64 = 150;

/// Steps after bootstrap during which penalties are softened.
pub const GRACE_PERIOD: u64 = 200;

/// Steps of warm-up before the node starts proposing.
pub const WARMUP_STEPS: u64 = 0;

/// Length of the history window of the neural model.
pub const WINDOW_SIZE: usize = 200;

/// Number of recent predictions kept for novelty scoring.
pub const NOVELTY_HISTORY_SIZE: usize = 50;

/// Number of leading zero hex digits a proposal's proof of work needs.
pub const POW_DIFFICULTY: usize = 4;

/// Number of nodes the network expects to be active.
pub const EXPECTED_ACTIVE_NODES: usize = 10;

/// Bytes of a hash each embedding coordinate is computed from.
pub const EMBED_WINDOW_BYTES: usize = 8;

/// Number of tips a proposal names.
pub const PROPOSAL_TIPS_COUNT: usize = 3;

/// Minimum number of proposals for a consensus round.
pub const MIN_CONSENSUS_NODES: usize = 1;

/// Consecutive near-identical predictions that mark a clone.
pub const CLONE_STREAK_THRESHOLD: u32 = 5;

/// Minimum size of a cluster of identical predictions that counts as coordination.
pub const COORDINATION_MIN_CLUSTER: usize = 3;

/// Window of error history the adaptive-attack detector looks at.
pub const ADAPTIVE_DETECTION_WINDOW: usize = 100;

/// Consecutive prediction jumps that trigger the jump penalty.
pub const PREDICTION_JUMP_STREAK: u32 = 3;

/// Steps of history needed before the reputation floor applies.
pub const REPUTATION_FLOOR_MIN_STEPS: usize = 20;

/// Steps before the reputation floor applies.
pub const REPUTATION_FLOOR_GRACE: u64 = 500;

/// Window of predictions the temporal-consistency detector looks at.
pub const TEMPORAL_WINDOW: usize = 20;

/// Finalization happens every this many steps.
pub const FINALIZATION_INTERVAL: u64 = 5;

/// Length of a fee-distribution epoch, in steps.
pub const EPOCH_LENGTH: u64 = 1000;

/// Steps during which votes on a conflict are collected.
pub const CONFLICT_VOTE_WINDOW: u64 = 20;

/// Rate-limit violations after which a node is penalized.
pub const RATE_LIMIT_PENALTY_THRESHOLD: u64 = 10;

/// Number of past consensus rounds whose common tips give momentum.
pub const PREDICTIVE_MOMENTUM_HISTORY: usize = 10;

/// State, pool and ledger are written out every this many steps.
pub const FLUSH_INTERVAL_STEPS: u64 = 100;

/// Maximum number of transactions in one network batch.
pub const MAX_TX_BATCH_SIZE: usize = 256;

/// Pause between steps of the main loop, in milliseconds.
pub const LOOP_SLEEP_MS: u64 = 10;

/// Steps after which an unconsumed cross-shard receipt expires and is refunded.
pub const CROSS_SHARD_RECEIPT_EXPIRY: u64 = 1000;

/// Whether a node's prediction error is divided by the median pairwise
/// distance between all predictions.
pub const ERROR_NORMALIZATION: bool = true;

/// Number of steps of the backward random walk over the ledger.
pub const MCMC_WALK_LENGTH: usize = 15;

/// Whether the backward walk prefers parents with fewer children.
pub const MCMC_PREFER_LIGHT: bool = true;

} // verus!
