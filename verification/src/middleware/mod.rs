//! What a request passes through on its way to the upstream.

pub mod access_control;
pub mod rate_limit;
