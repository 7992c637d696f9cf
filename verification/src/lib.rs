//! Matching the journal entries of a general ledger with the transactions of a bank statement.
//!
//! Rows are read by [`load`] and [`ledger`], descriptions are split into tokens by [`token`],
//! candidates are found by [`listing`], matched by [`matcher`], and recorded by [`report`].
pub mod admission;
pub mod amount;
pub mod blocking;
pub mod buckets;
pub mod candidate;
pub mod capacity;
pub mod cli;
pub mod course;
pub mod cut;
pub mod datetime;
pub mod digits;
pub mod dinic;
pub mod error;
pub mod heap;
pub mod heuristic;
pub mod ledger;
pub mod listing;
pub mod load;
pub mod matcher;
pub mod matching;
pub mod maxflow;
pub mod mincost;
pub mod network;
pub mod order;
pub mod places;
pub mod rank;
pub mod records;
pub mod report;
pub mod search;
pub mod sums;
pub mod table;
pub mod text;
pub mod token;
pub mod weights;
