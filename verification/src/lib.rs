//! Verified core of a local osu! HTTPS proxy: Bancho packet framing, domain
//! rewriting inside packet payloads, host validation and request planning.

pub mod byte_buffer;
pub mod packet;
pub mod payload;
pub mod text;
pub mod upstream;
pub mod domain_rewriter;
pub mod host;
pub mod supporter;
pub mod plan;
