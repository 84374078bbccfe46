//! Dynamic DNS: discover the host's public address by racing several
//! "what is my IP" remotes, then point a zone's address records at it.
pub mod address;
pub mod pinger;
pub mod race;
pub mod reconcile;
pub mod registrar;
