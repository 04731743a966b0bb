//! Pest control: the binary messages between sites, the authority and the
//! server, and the policies the server keeps at each site's authority.
pub mod wire;
pub mod frame;
pub mod packets;
pub mod policy;
pub mod session;
