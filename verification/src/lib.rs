//! Pair selection for a disaggregated-inference load balancer: a bounded
//! prefix index over tokenized prompts, per-rank load counters, and the
//! policy that picks one prefill rank and one decode rank per request.

pub mod accounting;
pub mod context;
pub mod engines;
pub mod fanout;
pub mod passthrough;
pub mod radixtrie_kv_router;
pub mod room;
pub mod score;
pub mod trie;

use vstd::prelude::*;

verus! {

/// Identifier of a token produced by the tokenizer.
pub type TokenId = u32;

/// A prefill worker as it was registered: its URL and its bootstrap port.
#[derive(Debug)]
pub struct PrefillConfig {
    pub url: String,
    pub bootstrap_port: Option<u16>,
}

impl Clone for PrefillConfig {
    fn clone(&self) -> (copy: Self)
        ensures
            copy == *self,
    {
        PrefillConfig { url: self.url.clone(), bootstrap_port: self.bootstrap_port }
    }
}

} // verus!
