//! Messages of the web demo's compute worker, and the reply of its echo worker.
//!
//! The worker runtime (message channel, serialization, registration) lives outside the
//! library; what the worker computes from a request is here.

use vstd::prelude::*;

verus! {

/// Message sent from the UI to the worker.
#[derive(Debug)]
pub struct PingRequest {
    pub payload: String,
}

/// Message sent from the worker back to the UI.
#[derive(Debug)]
pub struct PingResponse {
    pub payload: String,
}

/// Placeholder worker that echoes the payload back.
pub struct EchoWorker;

impl EchoWorker {
    /// The reply to `input`: its payload behind the prefix `worker echo: `.
    pub fn reply(&self, input: PingRequest) -> (r: PingResponse)
        ensures
            r.payload@ == "worker echo: "@ + input.payload@,
    {
        let mut payload = String::from_str("worker echo: ");
        payload.append(input.payload.as_str());
        PingResponse { payload }
    }
}

} // verus!
