//! The requests that the balancer passes on to its workers: which URL is
//! asked for which endpoint.

use vstd::prelude::*;
use crate::context::Context;
use crate::engines::{join_url, url_joined};

verus! {

/// `request` is `path` resolved against the worker's URL `base`, or says why
/// `path` does not resolve against it.
pub open spec fn asks(request: Result<String, String>, base: Seq<char>, path: Seq<char>) -> bool {
    match request {
        Ok(url) => url_joined(base, path) == Some(url@),
        Err(_) => url_joined(base, path) is None,
    }
}

/// `requests` asks each worker of `bases` for `path`, in order.
pub open spec fn asks_each(
    requests: Seq<Result<String, String>>,
    bases: Seq<String>,
    path: Seq<char>,
) -> bool {
    &&& requests.len() == bases.len()
    &&& forall|i: int| 0 <= i < requests.len() ==> asks(#[trigger] requests[i], bases[i]@, path)
}

/// The URL of `path` on each worker of `bases`, in order. A worker whose URL
/// `path` does not resolve against gets the reason in its place.
pub fn endpoint_urls(bases: &Vec<String>, path: &str) -> (requests: Vec<Result<String, String>>)
    ensures
        asks_each(requests@, bases@, path@),
{
    let mut requests: Vec<Result<String, String>> = Vec::new();
    let mut i: usize = 0;
    while i < bases.len()
        invariant
            i <= bases@.len(),
            requests@.len() == i,
            forall|j: int| 0 <= j < i ==> asks(#[trigger] requests@[j], bases@[j]@, path@),
        decreases bases@.len() - i,
    {
        requests.push(join_url(bases[i].as_str(), path));
        i = i + 1;
    }
    requests
}

impl Context {
    /// The requests of a health check: `health_generate` on every prefill
    /// worker, in the order of registration.
    pub fn health_generate_requests(&self) -> (requests: Vec<Result<String, String>>)
        ensures
            requests@.len() == self@.prefills.len(),
            forall|w: int|
                0 <= w < requests@.len() ==> asks(
                    #[trigger] requests@[w],
                    self@.prefills[w].url,
                    "health_generate"@,
                ),
    {
        let bases = self.health_generate_targets();
        endpoint_urls(&bases, "health_generate")
    }

    /// The requests of a cache flush: `flush_cache` on every prefill worker
    /// and then on every decode worker, each in the order of registration.
    pub fn flush_cache_requests(&self) -> (requests: Vec<Result<String, String>>)
        ensures
            requests@.len() == self@.prefills.len() + self@.decodes.len(),
            forall|w: int|
                0 <= w < self@.prefills.len() ==> asks(
                    #[trigger] requests@[w],
                    self@.prefills[w].url,
                    "flush_cache"@,
                ),
            forall|v: int|
                0 <= v < self@.decodes.len() ==> asks(
                    #[trigger] requests@[self@.prefills.len() + v],
                    self@.decodes[v],
                    "flush_cache"@,
                ),
    {
        let bases = self.flush_cache_targets();
        endpoint_urls(&bases, "flush_cache")
    }

    /// The requests for the workers' descriptions: `get_server_info` on
    /// every prefill worker, and on every decode worker.
    pub fn server_info_requests(&self) -> (requests: (
        Vec<Result<String, String>>,
        Vec<Result<String, String>>,
    ))
        ensures
            requests.0@.len() == self@.prefills.len(),
            forall|w: int|
                0 <= w < requests.0@.len() ==> asks(
                    #[trigger] requests.0@[w],
                    self@.prefills[w].url,
                    "get_server_info"@,
                ),
            requests.1@.len() == self@.decodes.len(),
            forall|v: int|
                0 <= v < requests.1@.len() ==> asks(
                    #[trigger] requests.1@[v],
                    self@.decodes[v],
                    "get_server_info"@,
                ),
    {
        let (prefills, decodes) = self.all_serves();
        (endpoint_urls(&prefills, "get_server_info"), endpoint_urls(&decodes, "get_server_info"))
    }

    /// The request for `path` on the prefill worker that was registered
    /// first, which answers for the model; nothing where no prefill worker
    /// is registered.
    pub fn first_prefill_request(&self, path: &str) -> (request: Option<Result<String, String>>)
        ensures
            match request {
                Some(asked) => self@.prefills.len() > 0 && asks(asked, self@.prefills[0].url, path@),
                None => self@.prefills.len() == 0,
            },
    {
        match self.first_prefill() {
            Some(base) => Some(join_url(base.as_str(), path)),
            None => None,
        }
    }

    /// The request for the model's description: `get_model_info` on the
    /// first prefill worker.
    pub fn model_info_request(&self) -> (request: Option<Result<String, String>>)
        ensures
            match request {
                Some(asked) => self@.prefills.len() > 0 && asks(
                    asked,
                    self@.prefills[0].url,
                    "get_model_info"@,
                ),
                None => self@.prefills.len() == 0,
            },
    {
        self.first_prefill_request("get_model_info")
    }

    /// The request for the list of models: `v1/models` on the first prefill
    /// worker.
    pub fn models_request(&self) -> (request: Option<Result<String, String>>)
        ensures
            match request {
                Some(asked) => self@.prefills.len() > 0 && asks(asked, self@.prefills[0].url, "v1/models"@),
                None => self@.prefills.len() == 0,
            },
    {
        self.first_prefill_request("v1/models")
    }
}

} // verus!
