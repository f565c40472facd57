//! TCP connection tracking and visualisation logic.

pub mod app;
pub mod config;
pub mod conn;
pub mod decode;
pub mod detail;
pub mod dns;
pub mod endpoint;
pub mod flight;
pub mod flow;
pub mod format;
pub mod graphs;
pub mod index;
pub mod inflight;
pub mod ingest;
pub mod keys;
pub mod lifecycle;
pub mod lines;
pub mod link;
pub mod live;
pub mod metric;
pub mod metrics;
pub mod moments;
pub mod name;
pub mod net;
pub mod panes;
pub mod passes;
pub mod plot;
pub mod rates;
pub mod reading;
pub mod recording;
pub mod replay;
pub mod report;
pub mod retention;
pub mod rows;
pub mod rtt;
pub mod screen;
pub mod segment;
pub mod seq;
pub mod service;
pub mod sort;
pub mod state;
pub mod text;
pub mod throughput;
pub mod time;
pub mod timeline;
pub mod tracker;
pub mod transport;
pub mod view;
pub mod wire;
