//! The network: headers, checksums, messages, and what a driver puts into its rings.

pub mod arp;
pub mod cards;
pub mod dns;
pub mod e1000;
pub mod icmp;
pub mod layout;
pub mod talks;
pub mod tcp;
pub mod tcpip;
pub mod udp;
pub mod virtio;
pub mod virtio_net;
