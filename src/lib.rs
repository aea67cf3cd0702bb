//! Core logic of a multi-protocol proxy: addresses, the SOCKS5 and HTTP
//! proxy codecs, the route engine, the DNS answer handling and the flow pump.
pub mod buf;
pub mod text;
pub mod addr;
pub mod socks5;
pub mod matcher;
pub mod route;
pub mod http;
pub mod dns;
pub mod pump;
pub mod stream;
