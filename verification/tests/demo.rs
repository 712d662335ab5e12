use bhtsne::{EchoWorker, PingRequest};

/// The echo worker answers with the request's payload behind its prefix.
#[test]
fn echo_worker_prefixes_the_payload() {
    let reply = EchoWorker.reply(PingRequest { payload: String::from("ping from the UI") });
    assert_eq!(reply.payload, "worker echo: ping from the UI");
}

/// An empty payload is echoed as the bare prefix.
#[test]
fn echo_worker_echoes_an_empty_payload() {
    let reply = EchoWorker.reply(PingRequest { payload: String::new() });
    assert_eq!(reply.payload, "worker echo: ");
}
