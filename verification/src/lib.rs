//! NeuroGraph: a DAG ledger with emergent reputation-weighted consensus.
pub mod config;
pub mod crypto;
pub mod cross_shard;
pub mod encoding;
pub mod hex;
pub mod transaction;
pub mod sharding;
pub mod maps;
pub mod strings;
pub mod state;
pub mod keyed;
pub mod mempool;
pub mod ledger;
pub mod snapshot;
pub mod dag_logic;
pub mod clock_skew;
pub mod conflict;
pub mod incentives;
pub mod security;
pub mod attack;
pub mod wallet;
pub mod utils;
pub mod attack_detection;
