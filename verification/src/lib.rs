//! Verified core of a local monitor for AI coding tool usage and account limits.
pub mod app_server;
pub mod codex;
pub mod codex_dashboard;
pub mod credits;
pub mod dashboard_view;
pub mod fields;
pub mod model;
pub mod opencode;
pub mod opencode_dashboard;
pub mod paths;
pub mod rate_limits;
pub mod text;
pub mod update;
