//! Transaction generation for a load-testing client of a Solana cluster.

pub mod accounts;
pub mod args;
pub mod blockhash;
pub mod bytes;
pub mod command_accounts;
pub mod commands;
pub mod cpi;
pub mod decimal;
pub mod draws;
pub mod generate;
pub mod instructions;
pub mod keypair;
pub mod leaders;
pub mod message;
pub mod options;
pub mod plan;
pub mod pubkey;
pub mod refresh;
pub mod rpc_clients;
pub mod signatures;
pub mod tpus;
pub mod transaction;
pub mod worker;
