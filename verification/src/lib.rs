pub mod alerts;
pub mod autostart;
pub mod chars;
pub mod command;
pub mod connections;
pub mod dns;
pub mod firewall;
pub mod format;
pub mod geoip;
pub mod history;
pub mod interfaces;
pub mod lan;
pub mod monitor;
pub mod netdev;
pub mod nethogs;
pub mod numbers;
pub mod order;
pub mod packets;
pub mod pages;
pub mod paths;
pub mod pattern;
pub mod ports;
pub mod reports;
pub mod settings;
pub mod speedtest;
pub mod table;
pub mod text;
pub mod vpn;
pub mod wifi;
