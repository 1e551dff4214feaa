pub mod algorithm;
pub mod binary64;
pub mod config;
pub mod headers;
pub mod identity;
pub mod json;
pub mod keeper;
pub mod middleware;
pub mod network;
pub mod notation;
pub mod policy;
pub mod proxy;
pub mod request;
pub mod response;
pub mod store;
pub mod text;
pub mod time;
pub mod uri;
