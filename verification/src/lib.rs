//! A proxy from WebSocket to TCP for mail clients: who may connect, to where, for
//! how long and for how many bytes, with each rule stated as a contract and proved.
//!
//! A request passes `server` (origin, host, client address, token), `auth` (what
//! the token says), and `admission` (policy of `dest`, caps of `limits`, the answer
//! of a lookup). A session is a `connection` that takes one event at a time and says
//! what to do; `probe` and `proto` read its first bytes. `config` and `startup` hold
//! the settings and read them from variables. `history` states what the caps mean
//! over time. `ip`, `names`, `text` and `time` are what these stand on.
pub mod admission;
pub mod auth;
pub mod config;
pub mod connection;
pub mod dest;
pub mod history;
pub mod ip;
pub mod limits;
pub mod metrics;
pub mod names;
pub mod probe;
pub mod proto;
pub mod server;
pub mod startup;
pub mod text;
pub mod time;
