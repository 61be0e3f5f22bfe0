//! Spot aggregation logic for an amateur-radio DX cluster assistant.

pub mod text;
pub mod bands;
pub mod modes;
pub mod cty;
pub mod adif;
pub mod assoc;
pub mod dxcc;
pub mod awards;
pub mod grid;
pub mod matrix;
pub mod beacons;
pub mod classify;
pub mod xml;
pub mod wsjtx;
pub mod spot;
pub mod format;
pub mod telegram;
pub mod lotwreport;
pub mod clublog;
pub mod lotw;
pub mod iota;
pub mod broadcast;
pub mod mqtt;
pub mod flex;
pub mod tci;
pub mod dxcluster;
pub mod telnet;
pub mod wsjtx_udp;
pub mod fcc;
