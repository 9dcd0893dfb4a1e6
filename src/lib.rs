//! A recursive web crawler's core: link extraction and resolution, the
//! archive of findings, per-host admission control and the dispatcher that
//! drives a crawl from its seeds to the drained state.

pub mod link;
pub mod finding;
pub mod resolve;
pub mod extract;
pub mod archive;
pub mod throttle;
pub mod dispatcher;
pub mod seeds;
pub mod resource;
