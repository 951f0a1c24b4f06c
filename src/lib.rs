//! Schema-driven resolution of linked resources, served with server push.

pub mod catalog;
pub mod schema;
pub mod selection;
pub mod resolve;
pub mod push;
pub mod preload;
pub mod request;
pub mod router;
