//! The HTTP API's decisions: who is let in, which model answers, and how.
pub mod auth;
pub mod duration;
pub mod env_file;
pub mod handler;
pub mod ip_allowlist;
pub mod keep_alive;
pub mod listing;
pub mod models;
pub mod origin;
pub mod perimeter;
pub mod reply;
pub mod request;
pub mod swap;
pub mod web;
