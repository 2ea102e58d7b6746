//! Verified core of a key-rotating, latency-aware proxy for the NVIDIA NIM API.
pub mod config;
pub mod key_pool;
pub mod text;
pub mod model_stats;
pub mod model_router;
pub mod proxy;
pub mod model_refresh;
pub mod gateway;
pub mod json;
pub mod json_text;
pub mod request;
pub mod log_query;
pub mod dispatch;
pub mod startup;
pub mod turn_log;
pub mod tool_ids;
pub mod ping;
pub mod test_utils;
