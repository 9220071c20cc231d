pub mod authenticator;
pub mod crypto;
pub mod error;
pub mod storage;
pub mod totp;
