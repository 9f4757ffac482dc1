pub mod alt_auth_mw;
pub mod auth;
