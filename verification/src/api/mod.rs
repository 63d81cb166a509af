pub mod base64_laws;
pub mod handlers;
