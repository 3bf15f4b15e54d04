//! The logic of a VPS probe: an agent reports the state of a machine, and a
//! dashboard shows the machines with the traffic of the panels behind them.
//!
//! `agent`, `serve`, `panel`, `config`, `gui`, `launcher` and `cli` are the
//! program; `http`, `url`, `json` and `metrics` are what it reads and writes.
//! `laws`, `form_laws`, `exchange`, `addresses` and `roundtrip` state what holds
//! across them, and `grammar` and the modules that end in `_laws` what each of
//! them makes of what the other side writes. Numbers are double-precision numbers
//! held as bit patterns, see `num`.

pub mod addresses;
pub mod agent;
pub mod big;
pub mod bytes;
pub mod cli;
pub mod clock;
pub mod config;
pub mod digits;
pub mod exchange;
pub mod form_laws;
pub mod grammar;
pub mod gui;
pub mod http;
pub mod http_laws;
pub mod json;
pub mod json_laws;
pub mod launcher;
pub mod laws;
pub mod metrics;
pub mod metrics_laws;
pub mod normalize;
pub mod num;
pub mod num_laws;
pub mod numeral;
pub mod panel;
pub mod panel_laws;
pub mod reader;
pub mod roundtrip;
pub mod sent;
pub mod serve;
pub mod serve_laws;
pub mod shortest;
pub mod table;
pub mod text;
pub mod text_laws;
pub mod url;
pub mod web;
pub mod window_laws;
