//! Decision core of a Responses API proxy: request admission, conversation identities,
//! account bookkeeping and metadata rewriting, stated and proved over plain values.
pub mod accounts;
pub mod admin;
pub mod admission;
pub mod affinity;
pub mod auth;
pub mod capture;
pub mod clock;
pub mod continuation;
pub mod continuation_index;
pub mod conversations;
pub mod digest;
pub mod forward;
pub mod header;
pub mod header_map;
pub mod identity;
pub mod journal;
pub mod json;
pub mod lifecycle;
pub mod login;
pub mod metrics;
pub mod models;
pub mod profiles;
pub mod queue_http;
pub mod quota;
pub mod raw_headers;
pub mod raw_response;
pub mod rejection;
pub mod rewrite;
pub mod rotation;
pub mod rpc;
pub mod scheduler;
pub mod signals;
pub mod startup;
pub mod table;
pub mod text;
pub mod throttle;
pub mod turn_metadata;
pub mod usage;
