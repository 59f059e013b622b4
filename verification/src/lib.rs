//! The logic of a multichannel audio streaming server and of its receiving client.
//!
//! The server captures 32 USB channels of a mixing console, maps them to what a listener
//! hears, and sends them as RTP packets; the client receives them and measures the network.
//! Sockets, files, devices and clocks belong to the program around this library.

pub mod api;
pub mod audio;
pub mod client;
pub mod client_laws;
pub mod clock;
pub mod config;
pub mod database;
pub mod database_laws;
pub mod mdns;
pub mod rows;
pub mod rtp;
pub mod rtp_laws;
pub mod session;
pub mod stream;
pub mod sync;
pub mod tables;
pub mod text;
pub mod wire;
