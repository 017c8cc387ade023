//! The broker's observability counters, as plain values.  The process
//! exposes them over HTTP in Prometheus text form; that server and the
//! Prometheus registry live outside this crate, mirroring these fields.
use vstd::prelude::*;

verus! {

/// Gauge and counters of the slave lifecycle.
pub struct Metrics {
    /// Slaves in the pool right now.
    pub slave_active_connections: i64,
    /// Slave connections ever accepted, vetted or not.
    pub slave_total_connections: u64,
    /// Slaves that left the pool (disconnect, timeout, retirement).
    pub slave_disconnections: u64,
}

impl Metrics {
    pub fn new() -> (r: Metrics)
        ensures
            r.slave_active_connections == 0,
            r.slave_total_connections == 0,
            r.slave_disconnections == 0,
    {
        Metrics {
            slave_active_connections: 0,
            slave_total_connections: 0,
            slave_disconnections: 0,
        }
    }

    /// Counts one inbound slave connection, before vetting.
    pub fn note_connection(&mut self)
        requires
            old(self).slave_total_connections < u64::MAX,
        ensures
            final(self).slave_total_connections == old(self).slave_total_connections + 1,
            final(self).slave_active_connections == old(self).slave_active_connections,
            final(self).slave_disconnections == old(self).slave_disconnections,
    {
        self.slave_total_connections = self.slave_total_connections + 1;
    }

    /// Counts one slave entering the pool.
    pub fn note_admission(&mut self)
        requires
            old(self).slave_active_connections < i64::MAX,
        ensures
            final(self).slave_active_connections == old(self).slave_active_connections + 1,
            final(self).slave_total_connections == old(self).slave_total_connections,
            final(self).slave_disconnections == old(self).slave_disconnections,
    {
        self.slave_active_connections = self.slave_active_connections + 1;
    }

    /// Counts one slave leaving the pool.
    pub fn note_disconnection(&mut self)
        requires
            old(self).slave_disconnections < u64::MAX,
            old(self).slave_active_connections > i64::MIN,
        ensures
            final(self).slave_disconnections == old(self).slave_disconnections + 1,
            final(self).slave_active_connections == old(self).slave_active_connections - 1,
            final(self).slave_total_connections == old(self).slave_total_connections,
    {
        self.slave_disconnections = self.slave_disconnections + 1;
        self.slave_active_connections = self.slave_active_connections - 1;
    }
}

} // verus!
