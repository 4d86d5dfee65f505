//! Tandem: real local working copies on different machines, backed by one shared
//! Jujutsu repository.
//!
//! This crate is what Tandem decides and computes. It opens no file and no socket:
//! a function takes what was read and says what to do, and where work alternates
//! with decisions the decisions are a machine that is driven from outside. What each
//! function does is stated beside it and proved.
//!
//! * Bytes and texts: [`hex`], [`text`], [`order`], [`ids`], [`json`],
//!   [`document`].
//! * What crosses the wire and what is stored: [`wire`], [`wal`], [`proto_convert`],
//!   [`views`].
//! * The server: [`heads`] moves the operation heads by compare-and-swap, [`staging`],
//!   [`uploads`], [`bucket`] and [`publish`] make a publish durable before it is applied,
//!   [`authority`], [`publish_scope`] and [`writer`] say who may, [`http`] speaks the
//!   API, [`serve`] and [`control`] run it, [`faults`] makes it fail on purpose.
//! * The client: [`http_client`], [`rpc`], [`backend`], [`op_store`],
//!   [`op_heads_store`], [`repo_link`], [`watch`].
//! * The command line, servers in the background and new workspaces: [`cli`],
//!   [`daemon`], [`workspace_init`], [`placeholder`].
//! * Bytes in, bytes out, from one client through the server to another: [`roundtrip`].
//! * Runs against a whole cluster, and what has to hold after one: [`rng`], [`agent`],
//!   [`reach`], [`prepared`], [`oracle`].
pub mod agent;
pub mod authority;
pub mod backend;
pub mod bucket;
pub mod cli;
pub mod control;
pub mod daemon;
pub mod document;
pub mod faults;
pub mod heads;
pub mod hex;
pub mod http;
pub mod http_client;
pub mod ids;
pub mod json;
pub mod op_heads_store;
pub mod op_store;
pub mod oracle;
pub mod order;
pub mod placeholder;
pub mod prepared;
pub mod proto_convert;
pub mod publish;
pub mod publish_scope;
pub mod reach;
pub mod repo_link;
pub mod rng;
pub mod roundtrip;
pub mod rpc;
pub mod serve;
pub mod staging;
pub mod text;
pub mod uploads;
pub mod views;
pub mod wal;
pub mod watch;
pub mod wire;
pub mod workspace_init;
pub mod writer;
