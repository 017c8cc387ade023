//! A reverse SOCKS5 broker core: remote "slave" agents dial in, are vetted
//! (version, geolocation, downlink speed), and then carry many client
//! sessions multiplexed over one framed connection each.  This crate holds
//! the verified logic of the broker: the wire codec, the buffer pool, the
//! configuration resolution, the metrics model, the vetting decisions and
//! the proxy manager (roster, session table, routing, retirement).
pub mod broker;
pub mod buffer_pool;
pub mod conf;
pub mod metrics;
pub mod packet;
pub mod text;
pub mod vetting;
