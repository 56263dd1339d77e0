//! Streaming knapsack block building: transactions, blocks, pools and the
//! algorithms that pack them, with their contracts proved by Verus.

pub mod tx;
pub mod seqs;
pub mod block;
pub mod order;
pub mod builder;
pub mod pool;
pub mod nonce;
pub mod conflict;
pub mod bundle;
pub mod lookahead;
pub mod time;
pub mod builder_loop;
pub mod sim;
pub mod stream;
pub mod output;
pub mod metrics;
