//! The proxy manager: the slave roster, the session table, slave
//! selection, frame routing and retirement.
//!
//! Sessions reference their slave by id, never by ownership, so retiring a
//! slave can remove every dependent record in one pass.  The manager holds
//! no socket: the runtime around it performs the reads and writes that its
//! decisions call for.
use vstd::prelude::*;

use crate::metrics::Metrics;
use crate::packet::{CommandType, Frame, PacketType};
use crate::text::bytes_eq;

verus! {

/// One vetted slave in the pool.
pub struct SlaveInfo {
    pub id: u64,
    /// Remote address text; its source IP is the sticky client key.
    pub addr: Vec<u8>,
    pub version: Vec<u8>,
    pub country: Vec<u8>,
    /// Measured downlink, tenths of a megabit per second.
    pub speed_tenths: u64,
    pub registered_at: u64,
    pub last_seen: u64,
}

impl SlaveInfo {
    pub fn set_version(&mut self, version: Vec<u8>)
        ensures
            *final(self) == (SlaveInfo { version, ..*old(self) }),
    {
        self.version = version;
    }

    pub fn set_location(&mut self, country: Vec<u8>)
        ensures
            *final(self) == (SlaveInfo { country, ..*old(self) }),
    {
        self.country = country;
    }

    pub fn set_speed(&mut self, speed_tenths: u64)
        ensures
            *final(self) == (SlaveInfo { speed_tenths, ..*old(self) }),
    {
        self.speed_tenths = speed_tenths;
    }

    /// Marks the slave seen now.
    pub fn touch(&mut self, now: u64)
        ensures
            *final(self) == (SlaveInfo { last_seen: now, ..*old(self) }),
    {
        self.last_seen = now;
    }
}

/// One live client session, keyed by its 32-bit id.
pub struct SessionEntry {
    pub id: u32,
    pub slave_id: u64,
    /// Payload chunks routed from the slave, in arrival order, awaiting
    /// the client-side writer.
    pub to_client: Vec<Vec<u8>>,
}

/// One sticky assignment: client key to slave id.
pub struct StickyEntry {
    pub key: Vec<u8>,
    pub slave_id: u64,
}

/// What the caller must do after a frame was routed.
pub enum RouteAction {
    /// Nothing: the frame was consumed (dropped or uninteresting).
    Ignored,
    /// A heartbeat reply refreshed the slave's liveness.
    HeartbeatAccepted,
    /// The payload was queued for this session's client writer.
    Delivered(u32),
    /// A zero-length data frame closed this session; close its client
    /// streams.
    SessionClosed(u32),
}

/// The heartbeat reply payload that refreshes liveness: ASCII `ALIVE`.
pub open spec fn alive_payload() -> Seq<u8> {
    seq![65u8, 76u8, 73u8, 86u8, 69u8]
}

pub struct ProxyManager {
    /// 1 sticky, anything else non-sticky.
    pub mode: u8,
    /// Ticks a slave may stay unseen before it is retired.
    pub heartbeat_timeout: u64,
    pub slaves: Vec<SlaveInfo>,
    pub sessions: Vec<SessionEntry>,
    pub sticky: Vec<StickyEntry>,
    pub next_session_id: u32,
    pub next_slave_id: u64,
    pub metrics: Metrics,
}

/// Sessions in `s` owned by `slave_id`.
pub open spec fn count_by_slave(s: Seq<SessionEntry>, slave_id: u64) -> int
    decreases s.len(),
{
    if s.len() == 0 {
        0
    } else {
        count_by_slave(s.drop_last(), slave_id) + if s.last().slave_id == slave_id {
            1int
        } else {
            0int
        }
    }
}

/// `x + k`, wrapped at 2^32, for `0 <= k < 2^32`.
pub open spec fn wrap_add_u32(x: u32, k: int) -> u32 {
    if x + k < 0x1_0000_0000 {
        (x + k) as u32
    } else {
        (x + k - 0x1_0000_0000) as u32
    }
}

impl ProxyManager {
    /// A slave is alive iff now - last_seen <= heartbeat_timeout.
    pub open spec fn spec_alive(self, s: SlaveInfo, now: u64) -> bool {
        now <= s.last_seen + self.heartbeat_timeout
    }

    pub open spec fn has_slave(self, slave_id: u64) -> bool {
        exists|i: int| 0 <= i < self.slaves@.len() && (#[trigger] self.slaves@[i]).id == slave_id
    }

    pub open spec fn has_session(self, session_id: u32) -> bool {
        exists|i: int|
            0 <= i < self.sessions@.len() && (#[trigger] self.sessions@[i]).id == session_id
    }

    pub open spec fn has_live_slave(self, now: u64) -> bool {
        exists|i: int|
            0 <= i < self.slaves@.len() && self.spec_alive(#[trigger] self.slaves@[i], now)
    }

    pub open spec fn session_count_of(self, slave_id: u64) -> int {
        count_by_slave(self.sessions@, slave_id)
    }

    /// The non-sticky selection order: fewer sessions, then higher speed,
    /// then earlier registration.
    pub open spec fn prefer(self, a: SlaveInfo, b: SlaveInfo) -> bool {
        ||| self.session_count_of(a.id) < self.session_count_of(b.id)
        ||| (self.session_count_of(a.id) == self.session_count_of(b.id) && a.speed_tenths
            > b.speed_tenths)
        ||| (self.session_count_of(a.id) == self.session_count_of(b.id) && a.speed_tenths
            == b.speed_tenths && a.registered_at < b.registered_at)
    }

    /// Whether sticky entry `i` points at a live, pooled slave.
    pub open spec fn sticky_target_live(self, i: int, now: u64) -> bool {
        exists|t: int|
            0 <= t < self.slaves@.len() && (#[trigger] self.slaves@[t]).id == self.sticky@[
                i
            ].slave_id && self.spec_alive(self.slaves@[t], now)
    }

    /// Whether `key` has a sticky mapping whose target is still live.
    pub open spec fn has_live_mapping(self, key: Seq<u8>, now: u64) -> bool {
        exists|i: int|
            0 <= i < self.sticky@.len() && (#[trigger] self.sticky@[i]).key@ == key
                && self.sticky_target_live(i, now)
    }

    pub open spec fn wf(self) -> bool {
        &&& (forall|i: int, j: int|
            0 <= i < j < self.slaves@.len() ==> (#[trigger] self.slaves@[i]).id != (
            #[trigger] self.slaves@[j]).id)
        &&& (forall|i: int|
            0 <= i < self.slaves@.len() ==> (#[trigger] self.slaves@[i]).id
                < self.next_slave_id)
        &&& (forall|i: int, j: int|
            0 <= i < j < self.sessions@.len() ==> (#[trigger] self.sessions@[i]).id != (
            #[trigger] self.sessions@[j]).id)
        &&& (forall|i: int, j: int|
            0 <= i < j < self.sticky@.len() ==> (#[trigger] self.sticky@[i]).key@ != (
            #[trigger] self.sticky@[j]).key@)
        &&& (forall|i: int|
            0 <= i < self.sessions@.len() ==> self.has_slave(
                (#[trigger] self.sessions@[i]).slave_id,
            ))
        &&& (forall|i: int|
            0 <= i < self.sticky@.len() ==> self.has_slave(
                (#[trigger] self.sticky@[i]).slave_id,
            ))
        &&& self.metrics.slave_active_connections == self.slaves@.len()
    }

    pub fn new(mode: u8, heartbeat_timeout: u64) -> (r: ProxyManager)
        ensures
            r.wf(),
            r.mode == mode,
            r.heartbeat_timeout == heartbeat_timeout,
            r.slaves@.len() == 0,
            r.sessions@.len() == 0,
            r.sticky@.len() == 0,
            r.metrics.slave_total_connections == 0,
            r.metrics.slave_disconnections == 0,
    {
        ProxyManager {
            mode,
            heartbeat_timeout,
            slaves: Vec::new(),
            sessions: Vec::new(),
            sticky: Vec::new(),
            next_session_id: 1,
            next_slave_id: 1,
            metrics: Metrics::new(),
        }
    }

    /// Index of the slave with this id.
    fn find_slave(&self, slave_id: u64) -> (r: Option<usize>)
        ensures
            r matches Some(idx) ==> 0 <= idx < self.slaves@.len() && self.slaves@[
                idx as int
            ].id == slave_id,
            r is None ==> !self.has_slave(slave_id),
    {
        let mut i: usize = 0;
        while i < self.slaves.len()
            invariant
                i <= self.slaves@.len(),
                forall|j: int| 0 <= j < i ==> (#[trigger] self.slaves@[j]).id != slave_id,
            decreases self.slaves@.len() - i,
        {
            if self.slaves[i].id == slave_id {
                return Some(i);
            }
            i = i + 1;
        }
        None
    }

    /// Index of the session with this id.
    fn find_session(&self, session_id: u32) -> (r: Option<usize>)
        ensures
            r matches Some(idx) ==> 0 <= idx < self.sessions@.len() && self.sessions@[
                idx as int
            ].id == session_id,
            r is None ==> !self.has_session(session_id),
    {
        let mut i: usize = 0;
        while i < self.sessions.len()
            invariant
                i <= self.sessions@.len(),
                forall|j: int| 0 <= j < i ==> (#[trigger] self.sessions@[j]).id != session_id,
            decreases self.sessions@.len() - i,
        {
            if self.sessions[i].id == session_id {
                return Some(i);
            }
            i = i + 1;
        }
        None
    }

    /// Index of the sticky entry for this client key.
    fn find_sticky(&self, key: &[u8]) -> (r: Option<usize>)
        ensures
            r matches Some(idx) ==> 0 <= idx < self.sticky@.len() && self.sticky@[
                idx as int
            ].key@ == key@,
            r is None ==> forall|j: int|
                0 <= j < self.sticky@.len() ==> (#[trigger] self.sticky@[j]).key@ != key@,
    {
        let mut i: usize = 0;
        while i < self.sticky.len()
            invariant
                i <= self.sticky@.len(),
                forall|j: int| 0 <= j < i ==> (#[trigger] self.sticky@[j]).key@ != key@,
            decreases self.sticky@.len() - i,
        {
            if bytes_eq(self.sticky[i].key.as_slice(), key) {
                return Some(i);
            }
            i = i + 1;
        }
        None
    }

    /// Whether the slave at `idx` is alive at `now`.
    fn alive_at(&self, idx: usize, now: u64) -> (r: bool)
        requires
            idx < self.slaves@.len(),
        ensures
            r == self.spec_alive(self.slaves@[idx as int], now),
    {
        let s = &self.slaves[idx];
        now <= s.last_seen || now - s.last_seen <= self.heartbeat_timeout
    }

    /// Live sessions owned by `slave_id`.
    fn count_sessions(&self, slave_id: u64) -> (r: usize)
        ensures
            r as int == self.session_count_of(slave_id),
    {
        let mut i: usize = 0;
        let mut c: usize = 0;
        while i < self.sessions.len()
            invariant
                i <= self.sessions@.len(),
                c <= i,
                c as int == count_by_slave(self.sessions@.take(i as int), slave_id),
            decreases self.sessions@.len() - i,
        {
            proof {
                assert(self.sessions@.take(i + 1).drop_last() =~= self.sessions@.take(i as int));
                assert(self.sessions@.take(i + 1).last() == self.sessions@[i as int]);
            }
            if self.sessions[i].slave_id == slave_id {
                c = c + 1;
            }
            i = i + 1;
        }
        proof {
            assert(self.sessions@.take(self.sessions@.len() as int) =~= self.sessions@);
        }
        c
    }

    /// Whether the slave at `a` comes before the one at `b` in the
    /// non-sticky order.
    fn prefer_at(&self, a: usize, b: usize) -> (r: bool)
        requires
            a < self.slaves@.len(),
            b < self.slaves@.len(),
        ensures
            r == self.prefer(self.slaves@[a as int], self.slaves@[b as int]),
    {
        let ca = self.count_sessions(self.slaves[a].id);
        let cb = self.count_sessions(self.slaves[b].id);
        if ca < cb {
            true
        } else if ca == cb && self.slaves[a].speed_tenths > self.slaves[b].speed_tenths {
            true
        } else if ca == cb && self.slaves[a].speed_tenths == self.slaves[b].speed_tenths
            && self.slaves[a].registered_at < self.slaves[b].registered_at {
            true
        } else {
            false
        }
    }

    /// The non-sticky rule: the best live slave, or nothing when the
    /// roster holds no live slave.
    fn pick_fresh(&self, now: u64) -> (r: Option<usize>)
        ensures
            (r is None) <==> !self.has_live_slave(now),
            r matches Some(idx) ==> {
                &&& 0 <= idx < self.slaves@.len()
                &&& self.spec_alive(self.slaves@[idx as int], now)
                &&& forall|j: int|
                    0 <= j < self.slaves@.len() && self.spec_alive(
                        #[trigger] self.slaves@[j],
                        now,
                    ) ==> !self.prefer(self.slaves@[j], self.slaves@[idx as int])
            },
    {
        let mut best: Option<usize> = None;
        let mut i: usize = 0;
        while i < self.slaves.len()
            invariant
                i <= self.slaves@.len(),
                best is None ==> forall|j: int|
                    0 <= j < i ==> !self.spec_alive(#[trigger] self.slaves@[j], now),
                best matches Some(b) ==> {
                    &&& 0 <= b < i
                    &&& self.spec_alive(self.slaves@[b as int], now)
                    &&& forall|j: int|
                        0 <= j < i && self.spec_alive(#[trigger] self.slaves@[j], now)
                            ==> !self.prefer(self.slaves@[j], self.slaves@[b as int])
                },
            decreases self.slaves@.len() - i,
        {
            if self.alive_at(i, now) {
                match best {
                    None => {
                        best = Some(i);
                    },
                    Some(b) => {
                        if self.prefer_at(i, b) {
                            best = Some(i);
                        }
                    },
                }
            }
            i = i + 1;
        }
        best
    }

    /// A fresh session id: the counter's next value, skipping ids still
    /// live (only reachable after the 32-bit counter wraps).
    fn alloc_session_id(&mut self) -> (r: u32)
        requires
            old(self).wf(),
            old(self).sessions@.len() < 0xFFFF_FFFFusize,
        ensures
            *final(self) == (ProxyManager {
                next_session_id: wrap_add_u32(r, 1),
                ..*old(self)
            }),
            !old(self).has_session(r),
    {
        let ghost start = self.next_session_id;
        let mut cand: u32 = self.next_session_id;
        let mut probes: usize = 0;
        while self.find_session(cand).is_some()
            invariant
                *self == *old(self),
                self.wf(),
                self.sessions@.len() < 0xFFFF_FFFFusize,
                probes <= self.sessions@.len(),
                cand == wrap_add_u32(start, probes as int),
                forall|j: int|
                    0 <= j < probes ==> self.has_session(#[trigger] wrap_add_u32(start, j)),
            decreases self.sessions@.len() - probes,
        {
            proof {
                self.lemma_probe_bound(start, probes as int, cand);
            }
            cand = if cand == u32::MAX {
                0
            } else {
                cand + 1
            };
            probes = probes + 1;
            proof {
                assert(cand == wrap_add_u32(start, probes as int));
            }
        }
        self.next_session_id = if cand == u32::MAX {
            0
        } else {
            cand + 1
        };
        cand
    }

    /// Pigeonhole: while every probed candidate id is still live, fewer
    /// candidates than live sessions have been probed.
    proof fn lemma_probe_bound(self, start: u32, probes: int, cand: u32)
        requires
            self.wf(),
            self.sessions@.len() < 0xFFFF_FFFFusize,
            0 <= probes <= self.sessions@.len(),
            cand == wrap_add_u32(start, probes),
            forall|j: int| 0 <= j < probes ==> self.has_session(#[trigger] wrap_add_u32(start, j)),
            self.has_session(cand),
        ensures
            probes < self.sessions@.len(),
    {
        broadcast use vstd::seq_lib::seq_to_set_is_finite;

        let ids = self.sessions@.map_values(|e: SessionEntry| e.id);
        assert(ids.no_duplicates()) by {
            assert forall|i: int, j: int| 0 <= i < j < ids.len() implies ids[i] != ids[j] by {
                assert(self.sessions@[i].id != self.sessions@[j].id);
            }
        }
        let c = Seq::new((probes + 1) as nat, |j: int| wrap_add_u32(start, j));
        assert(c.no_duplicates()) by {
            assert forall|m: int, n: int| 0 <= m < n < c.len() implies c[m] != c[n] by {
                assert(wrap_add_u32(start, m) != wrap_add_u32(start, n));
            }
        }
        assert forall|j: int| 0 <= j < c.len() implies ids.to_set().contains(#[trigger] c[j]) by {
            assert(self.has_session(wrap_add_u32(start, j)));
            let w = choose|i: int|
                0 <= i < self.sessions@.len() && (#[trigger] self.sessions@[i]).id == wrap_add_u32(
                    start,
                    j,
                );
            assert(ids[w] == wrap_add_u32(start, j));
            assert(ids.contains(c[j]));
        }
        assert(c.to_set().subset_of(ids.to_set())) by {
            assert forall|x: u32| c.to_set().contains(x) implies ids.to_set().contains(x) by {
                assert(c.contains(x));
                let j = choose|j: int| 0 <= j < c.len() && c[j] == x;
                assert(ids.to_set().contains(c[j]));
            }
        }
        c.unique_seq_to_set();
        ids.unique_seq_to_set();
        vstd::set_lib::lemma_len_subset(c.to_set(), ids.to_set());
    }

    /// Removing one session preserves well-formedness when nothing else
    /// moved.
    proof fn lemma_wf_after_session_remove(self, pre: ProxyManager, i: int)
        requires
            pre.wf(),
            0 <= i < pre.sessions@.len(),
            self.sessions@ =~= pre.sessions@.remove(i),
            self.slaves == pre.slaves,
            self.sticky == pre.sticky,
            self.metrics == pre.metrics,
            self.next_slave_id == pre.next_slave_id,
        ensures
            self.wf(),
    {
        assert forall|m: int, n: int|
            0 <= m < n < self.sessions@.len() implies (#[trigger] self.sessions@[m]).id != (
        #[trigger] self.sessions@[n]).id by {
            let m0: int = if m < i {
                m
            } else {
                m + 1
            };
            let n0: int = if n < i {
                n
            } else {
                n + 1
            };
            assert(self.sessions@[m] == pre.sessions@[m0]);
            assert(self.sessions@[n] == pre.sessions@[n0]);
        }
        assert forall|k: int|
            0 <= k < self.sessions@.len() implies self.has_slave(
            (#[trigger] self.sessions@[k]).slave_id,
        ) by {
            let k0: int = if k < i {
                k
            } else {
                k + 1
            };
            assert(self.sessions@[k] == pre.sessions@[k0]);
            assert(pre.has_slave(pre.sessions@[k0].slave_id));
            let t = choose|t: int|
                0 <= t < pre.slaves@.len() && (#[trigger] pre.slaves@[t]).id == pre.sessions@[
                    k0
                ].slave_id;
            assert(self.slaves@[t].id == pre.slaves@[t].id);
        }
        assert forall|k: int|
            0 <= k < self.sticky@.len() implies self.has_slave(
            (#[trigger] self.sticky@[k]).slave_id,
        ) by {
            assert(pre.has_slave(pre.sticky@[k].slave_id));
            let t = choose|t: int|
                0 <= t < pre.slaves@.len() && (#[trigger] pre.slaves@[t]).id == pre.sticky@[
                    k
                ].slave_id;
            assert(self.slaves@[t].id == pre.slaves@[t].id);
        }
    }

    /// A pointwise session update that keeps every id and owner preserves
    /// well-formedness when nothing else moved.
    proof fn lemma_wf_after_session_update(self, pre: ProxyManager)
        requires
            pre.wf(),
            self.sessions@.len() == pre.sessions@.len(),
            forall|k: int|
                0 <= k < pre.sessions@.len() ==> (#[trigger] self.sessions@[k]).id
                    == pre.sessions@[k].id && self.sessions@[k].slave_id == pre.sessions@[
                    k
                ].slave_id,
            self.slaves == pre.slaves,
            self.sticky == pre.sticky,
            self.metrics == pre.metrics,
            self.next_slave_id == pre.next_slave_id,
        ensures
            self.wf(),
    {
        assert forall|k: int|
            0 <= k < self.sessions@.len() implies self.has_slave(
            (#[trigger] self.sessions@[k]).slave_id,
        ) by {
            assert(pre.has_slave(pre.sessions@[k].slave_id));
            let t = choose|t: int|
                0 <= t < pre.slaves@.len() && (#[trigger] pre.slaves@[t]).id == pre.sessions@[
                    k
                ].slave_id;
            assert(self.slaves@[t].id == pre.slaves@[t].id);
        }
        assert forall|k: int|
            0 <= k < self.sticky@.len() implies self.has_slave(
            (#[trigger] self.sticky@[k]).slave_id,
        ) by {
            assert(pre.has_slave(pre.sticky@[k].slave_id));
            let t = choose|t: int|
                0 <= t < pre.slaves@.len() && (#[trigger] pre.slaves@[t]).id == pre.sticky@[
                    k
                ].slave_id;
            assert(self.slaves@[t].id == pre.slaves@[t].id);
        }
    }

    /// Admits a vetted slave to the pool under a fresh id.
    pub fn admit_slave(
        &mut self,
        addr: Vec<u8>,
        version: Vec<u8>,
        country: Vec<u8>,
        speed_tenths: u64,
        now: u64,
    ) -> (r: u64)
        requires
            old(self).wf(),
            old(self).next_slave_id < u64::MAX,
            old(self).slaves@.len() + 1 <= i64::MAX,
        ensures
            final(self).wf(),
            r == old(self).next_slave_id,
            !old(self).has_slave(r),
            final(self).has_slave(r),
            final(self).slaves@.len() == old(self).slaves@.len() + 1,
            final(self).slaves@.take(old(self).slaves@.len() as int) =~= old(self).slaves@,
            ({
                let s = final(self).slaves@.last();
                &&& s.id == r
                &&& s.addr@ == addr@
                &&& s.version@ == version@
                &&& s.country@ == country@
                &&& s.speed_tenths == speed_tenths
                &&& s.registered_at == now
                &&& s.last_seen == now
            }),
            final(self).sessions@ == old(self).sessions@,
            final(self).sticky@ == old(self).sticky@,
            final(self).metrics.slave_active_connections == old(self).metrics.slave_active_connections + 1,
            final(self).metrics.slave_total_connections == old(self).metrics.slave_total_connections,
            final(self).metrics.slave_disconnections == old(self).metrics.slave_disconnections,
            final(self).mode == old(self).mode,
            final(self).heartbeat_timeout == old(self).heartbeat_timeout,
    {
        let id = self.next_slave_id;
        self.next_slave_id = self.next_slave_id + 1;
        self.slaves.push(
            SlaveInfo {
                id,
                addr,
                version,
                country,
                speed_tenths,
                registered_at: now,
                last_seen: now,
            },
        );
        self.metrics.note_admission();
        proof {
            let n = old(self).slaves@.len() as int;
            assert(self.slaves@[n].id == id);
            assert forall|i: int, j: int|
                0 <= i < j < self.slaves@.len() implies (#[trigger] self.slaves@[i]).id != (
            #[trigger] self.slaves@[j]).id by {
                if j == n {
                    assert(self.slaves@[i] == old(self).slaves@[i]);
                    assert(old(self).slaves@[i].id < old(self).next_slave_id);
                }
            }
            assert forall|k: int|
                0 <= k < self.sessions@.len() implies self.has_slave(
                (#[trigger] self.sessions@[k]).slave_id,
            ) by {
                assert(old(self).has_slave(old(self).sessions@[k].slave_id));
                let t = choose|t: int|
                    0 <= t < old(self).slaves@.len() && (#[trigger] old(self).slaves@[t]).id
                        == old(self).sessions@[k].slave_id;
                assert(self.slaves@[t] == old(self).slaves@[t]);
            }
            assert forall|k: int|
                0 <= k < self.sticky@.len() implies self.has_slave(
                (#[trigger] self.sticky@[k]).slave_id,
            ) by {
                assert(old(self).has_slave(old(self).sticky@[k].slave_id));
                let t = choose|t: int|
                    0 <= t < old(self).slaves@.len() && (#[trigger] old(self).slaves@[t]).id
                        == old(self).sticky@[k].slave_id;
                assert(self.slaves@[t] == old(self).slaves@[t]);
            }
            assert(self.slaves@.take(n) =~= old(self).slaves@);
        }
        id
    }

    /// Routes one inbound frame from an established slave: a heartbeat
    /// whose payload is exactly
    /// `ALIVE` refreshes liveness and nothing else does; a data frame is
    /// queued for its session's client, an empty one closes the session;
    /// anything unknown is dropped.
    pub fn route_frame(&mut self, slave_id: u64, frame: &Frame, now: u64) -> (r: RouteAction)
        requires
            old(self).wf(),
        ensures
            final(self).wf(),
            frame.kind == PacketType::Command && !is_heartbeat(frame) ==> *final(self) == *old(self) && r == RouteAction::Ignored,
            frame.kind == PacketType::Command && is_heartbeat(frame) && !old(self).has_slave(
                slave_id,
            ) ==> *final(self) == *old(self) && r == RouteAction::Ignored,
            frame.kind == PacketType::Command && is_heartbeat(frame) && old(self).has_slave(
                slave_id,
            ) ==> {
                &&& r == RouteAction::HeartbeatAccepted
                &&& exists|i: int|
                    {
                        &&& 0 <= i < old(self).slaves@.len()
                        &&& (#[trigger] old(self).slaves@[i]).id == slave_id
                        &&& final(self).slaves@ =~= old(self).slaves@.update(
                            i,
                            SlaveInfo { last_seen: now, ..old(self).slaves@[i] },
                        )
                    }
                &&& *final(self) == (ProxyManager { slaves: final(self).slaves, ..*old(self) })
            },
            frame.kind == PacketType::Data && !old(self).has_session(frame.session_id) ==> *final(self) == *old(self) && r == RouteAction::Ignored,
            frame.kind == PacketType::Data && old(self).has_session(frame.session_id)
                && frame.payload@.len() > 0 ==> {
                &&& r == RouteAction::Delivered(frame.session_id)
                &&& exists|i: int|
                    {
                        &&& 0 <= i < old(self).sessions@.len()
                        &&& (#[trigger] old(self).sessions@[i]).id == frame.session_id
                        &&& final(self).sessions@.len() == old(self).sessions@.len()
                        &&& final(self).sessions@[i].id == old(self).sessions@[i].id
                        &&& final(self).sessions@[i].slave_id == old(self).sessions@[i].slave_id
                        &&& chunk_views(final(self).sessions@[i].to_client@) =~= chunk_views(
                            old(self).sessions@[i].to_client@,
                        ).push(frame.payload@)
                        &&& (forall|j: int|
                            0 <= j < old(self).sessions@.len() && j != i ==> final(self).sessions@[j] == old(self).sessions@[j])
                    }
                &&& *final(self) == (ProxyManager { sessions: final(self).sessions, ..*old(self) })
            },
            frame.kind == PacketType::Data && old(self).has_session(frame.session_id)
                && frame.payload@.len() == 0 ==> {
                &&& r == RouteAction::SessionClosed(frame.session_id)
                &&& !final(self).has_session(frame.session_id)
                &&& exists|i: int|
                    {
                        &&& 0 <= i < old(self).sessions@.len()
                        &&& (#[trigger] old(self).sessions@[i]).id == frame.session_id
                        &&& final(self).sessions@ =~= old(self).sessions@.remove(i)
                    }
                &&& *final(self) == (ProxyManager { sessions: final(self).sessions, ..*old(self) })
            },
    {
        match frame.kind {
            PacketType::Command => {
                let hb = match frame.command {
                    Some(CommandType::Heartbeat) => true,
                    _ => false,
                };
                if hb && is_alive_payload(frame.payload.as_slice()) {
                    if let Some(i) = self.find_slave(slave_id) {
                        let mut s = self.slaves.remove(i);
                        s.touch(now);
                        self.slaves.insert(i, s);
                        proof {
                            assert(self.slaves@ =~= old(self).slaves@.update(
                                i as int,
                                SlaveInfo { last_seen: now, ..old(self).slaves@[i as int] },
                            ));
                            assert(forall|k: int|
                                0 <= k < self.slaves@.len() ==> (#[trigger] self.slaves@[k]).id
                                    == old(self).slaves@[k].id);
                            assert forall|k: int|
                                0 <= k < self.sessions@.len() implies self.has_slave(
                                (#[trigger] self.sessions@[k]).slave_id,
                            ) by {
                                assert(old(self).has_slave(old(self).sessions@[k].slave_id));
                                let t = choose|t: int|
                                    0 <= t < old(self).slaves@.len() && (#[trigger] old(
                                        self,
                                    ).slaves@[t]).id == old(self).sessions@[k].slave_id;
                                assert(self.slaves@[t].id == old(self).slaves@[t].id);
                            }
                            assert forall|k: int|
                                0 <= k < self.sticky@.len() implies self.has_slave(
                                (#[trigger] self.sticky@[k]).slave_id,
                            ) by {
                                assert(old(self).has_slave(old(self).sticky@[k].slave_id));
                                let t = choose|t: int|
                                    0 <= t < old(self).slaves@.len() && (#[trigger] old(
                                        self,
                                    ).slaves@[t]).id == old(self).sticky@[k].slave_id;
                                assert(self.slaves@[t].id == old(self).slaves@[t].id);
                            }
                        }
                        RouteAction::HeartbeatAccepted
                    } else {
                        RouteAction::Ignored
                    }
                } else {
                    RouteAction::Ignored
                }
            },
            PacketType::Data => {
                if let Some(i) = self.find_session(frame.session_id) {
                    if frame.payload.len() == 0 {
                        self.sessions.remove(i);
                        proof {
                            assert forall|k: int|
                                0 <= k < self.sessions@.len() implies (
                            #[trigger] self.sessions@[k]).id != frame.session_id by {
                                if k < i {
                                    assert(self.sessions@[k] == old(self).sessions@[k]);
                                } else {
                                    assert(self.sessions@[k] == old(self).sessions@[k + 1]);
                                }
                            }
                            self.lemma_wf_after_session_remove(*old(self), i as int);
                        }
                        RouteAction::SessionClosed(frame.session_id)
                    } else {
                        let e = self.sessions.remove(i);
                        let mut chunks = e.to_client;
                        let mut copy: Vec<u8> = Vec::new();
                        let mut k: usize = 0;
                        while k < frame.payload.len()
                            invariant
                                k <= frame.payload@.len(),
                                copy@ =~= frame.payload@.subrange(0, k as int),
                            decreases frame.payload@.len() - k,
                        {
                            copy.push(frame.payload[k]);
                            k = k + 1;
                        }
                        proof {
                            assert(copy@ =~= frame.payload@);
                        }
                        chunks.push(copy);
                        self.sessions.insert(
                            i,
                            SessionEntry { id: e.id, slave_id: e.slave_id, to_client: chunks },
                        );
                        proof {
                            assert(forall|j: int|
                                0 <= j < old(self).sessions@.len() && j != i
                                    ==> self.sessions@[j] == old(self).sessions@[j]);
                            self.lemma_wf_after_session_update(*old(self));
                        }
                        RouteAction::Delivered(frame.session_id)
                    }
                } else {
                    RouteAction::Ignored
                }
            },
        }
    }

    /// Routes a run of inbound data frames for live sessions: each
    /// session's client queue grows by exactly that session's payloads, in
    /// arrival order — no bytes lost, none reordered, none crossing
    /// sessions.  With the codec round trip this says a session's
    /// client-side stream equals what the slave side sent.
    pub fn route_data_frames(&mut self, slave_id: u64, frames: &Vec<Frame>, now: u64)
        requires
            old(self).wf(),
            forall|i: int|
                0 <= i < frames@.len() ==> {
                    &&& (#[trigger] frames@[i]).kind == PacketType::Data
                    &&& frames@[i].payload@.len() > 0
                    &&& old(self).has_session(frames@[i].session_id)
                },
        ensures
            final(self).wf(),
            final(self).sessions@.len() == old(self).sessions@.len(),
            forall|k: int|
                0 <= k < old(self).sessions@.len() ==> {
                    &&& (#[trigger] final(self).sessions@[k]).id == old(self).sessions@[k].id
                    &&& final(self).sessions@[k].slave_id == old(self).sessions@[k].slave_id
                    &&& chunk_views(final(self).sessions@[k].to_client@) == chunk_views(
                        old(self).sessions@[k].to_client@,
                    ) + payloads_for(frames@, old(self).sessions@[k].id)
                },
            *final(self) == (ProxyManager { sessions: final(self).sessions, ..*old(self) }),
    {
        let mut j: usize = 0;
        while j < frames.len()
            invariant
                self.wf(),
                j <= frames@.len(),
                forall|i: int|
                    0 <= i < frames@.len() ==> {
                        &&& (#[trigger] frames@[i]).kind == PacketType::Data
                        &&& frames@[i].payload@.len() > 0
                        &&& old(self).has_session(frames@[i].session_id)
                    },
                self.sessions@.len() == old(self).sessions@.len(),
                forall|k: int|
                    0 <= k < old(self).sessions@.len() ==> {
                        &&& (#[trigger] self.sessions@[k]).id == old(self).sessions@[k].id
                        &&& self.sessions@[k].slave_id == old(self).sessions@[k].slave_id
                        &&& chunk_views(self.sessions@[k].to_client@) == chunk_views(
                            old(self).sessions@[k].to_client@,
                        ) + payloads_for(frames@.take(j as int), old(self).sessions@[k].id)
                    },
                self.slaves == old(self).slaves,
                self.sticky == old(self).sticky,
                self.metrics == old(self).metrics,
                self.mode == old(self).mode,
                self.heartbeat_timeout == old(self).heartbeat_timeout,
                self.next_session_id == old(self).next_session_id,
                self.next_slave_id == old(self).next_slave_id,
            decreases frames@.len() - j,
        {
            let ghost prev = *self;
            let frame = &frames[j];
            proof {
                assert(old(self).has_session(frame.session_id));
                let w = choose|w: int|
                    0 <= w < old(self).sessions@.len() && (#[trigger] old(self).sessions@[
                        w
                    ]).id == frame.session_id;
                assert(self.sessions@[w].id == frame.session_id);
                assert(self.has_session(frame.session_id));
            }
            let _ = self.route_frame(slave_id, frame, now);
            proof {
                let sid = frame.session_id;
                let i = choose|i: int|
                    {
                        &&& 0 <= i < prev.sessions@.len()
                        &&& (#[trigger] prev.sessions@[i]).id == sid
                        &&& self.sessions@.len() == prev.sessions@.len()
                        &&& self.sessions@[i].id == prev.sessions@[i].id
                        &&& self.sessions@[i].slave_id == prev.sessions@[i].slave_id
                        &&& chunk_views(self.sessions@[i].to_client@) =~= chunk_views(
                            prev.sessions@[i].to_client@,
                        ).push(frame.payload@)
                        &&& (forall|j2: int|
                            0 <= j2 < prev.sessions@.len() && j2 != i ==> self.sessions@[j2]
                                == prev.sessions@[j2])
                    };
                assert(frames@.take(j + 1).drop_last() =~= frames@.take(j as int));
                assert(frames@.take(j + 1).last() == frames@[j as int]);
                assert forall|k: int|
                    0 <= k < old(self).sessions@.len() implies {
                    &&& (#[trigger] self.sessions@[k]).id == old(self).sessions@[k].id
                    &&& self.sessions@[k].slave_id == old(self).sessions@[k].slave_id
                    &&& chunk_views(self.sessions@[k].to_client@) == chunk_views(
                        old(self).sessions@[k].to_client@,
                    ) + payloads_for(frames@.take(j + 1), old(self).sessions@[k].id)
                } by {
                    let target = payloads_for(frames@.take(j + 1), old(self).sessions@[k].id);
                    if k == i {
                        assert(old(self).sessions@[k].id == sid);
                        assert(target == payloads_for(
                            frames@.take(j as int),
                            old(self).sessions@[k].id,
                        ).push(frame.payload@));
                        assert(chunk_views(self.sessions@[k].to_client@) =~= chunk_views(
                            old(self).sessions@[k].to_client@,
                        ) + target);
                    } else {
                        assert(self.sessions@[k] == prev.sessions@[k]);
                        assert(old(self).sessions@[k].id != sid);
                        assert(target == payloads_for(
                            frames@.take(j as int),
                            old(self).sessions@[k].id,
                        ));
                    }
                }
            }
            j = j + 1;
        }
        proof {
            assert(frames@.take(frames@.len() as int) =~= frames@);
        }
    }

    /// Removes one session; tells whether it was there.  Closing is
    /// idempotent and a zero-length data frame is its wire form.
    pub fn close_session(&mut self, session_id: u32) -> (r: bool)
        requires
            old(self).wf(),
        ensures
            final(self).wf(),
            r == old(self).has_session(session_id),
            !final(self).has_session(session_id),
            !r ==> *final(self) == *old(self),
            r ==> exists|i: int|
                {
                    &&& 0 <= i < old(self).sessions@.len()
                    &&& (#[trigger] old(self).sessions@[i]).id == session_id
                    &&& final(self).sessions@ =~= old(self).sessions@.remove(i)
                },
            *final(self) == (ProxyManager { sessions: final(self).sessions, ..*old(self) }),
    {
        if let Some(i) = self.find_session(session_id) {
            self.sessions.remove(i);
            proof {
                assert forall|k: int|
                    0 <= k < self.sessions@.len() implies (#[trigger] self.sessions@[k]).id
                    != session_id by {
                    if k < i {
                        assert(self.sessions@[k] == old(self).sessions@[k]);
                    } else {
                        assert(self.sessions@[k] == old(self).sessions@[k + 1]);
                    }
                }
                self.lemma_wf_after_session_remove(*old(self), i as int);
            }
            true
        } else {
            false
        }
    }

    /// Hands the chunks queued for this session's client to its writer,
    /// in arrival order, leaving the queue empty.
    pub fn drain_session_output(&mut self, session_id: u32) -> (r: Vec<Vec<u8>>)
        requires
            old(self).wf(),
        ensures
            final(self).wf(),
            !old(self).has_session(session_id) ==> *final(self) == *old(self) && r@.len() == 0,
            old(self).has_session(session_id) ==> exists|i: int|
                {
                    &&& 0 <= i < old(self).sessions@.len()
                    &&& (#[trigger] old(self).sessions@[i]).id == session_id
                    &&& r == old(self).sessions@[i].to_client
                    &&& final(self).sessions@.len() == old(self).sessions@.len()
                    &&& final(self).sessions@[i].id == old(self).sessions@[i].id
                    &&& final(self).sessions@[i].slave_id == old(self).sessions@[i].slave_id
                    &&& final(self).sessions@[i].to_client@.len() == 0
                    &&& (forall|j: int|
                        0 <= j < old(self).sessions@.len() && j != i ==> final(self).sessions@[j]
                            == old(self).sessions@[j])
                },
            *final(self) == (ProxyManager { sessions: final(self).sessions, ..*old(self) }),
    {
        if let Some(i) = self.find_session(session_id) {
            let e = self.sessions.remove(i);
            let SessionEntry { id, slave_id, to_client } = e;
            self.sessions.insert(i, SessionEntry { id, slave_id, to_client: Vec::new() });
            proof {
                assert(forall|j: int|
                    0 <= j < old(self).sessions@.len() && j != i ==> self.sessions@[j] == old(
                        self,
                    ).sessions@[j]);
                self.lemma_wf_after_session_update(*old(self));
            }
            to_client
        } else {
            Vec::new()
        }
    }

    /// Opens a session for a client: picks a slave under the configured
    /// policy, allocates a fresh session id, records the session and, in
    /// sticky mode, the client's assignment.  Refused exactly when no
    /// live slave is in the pool.
    pub fn open_session(&mut self, client_key: &[u8], now: u64) -> (r: Option<(u32, u64)>)
        requires
            old(self).wf(),
            old(self).sessions@.len() < 0xFFFF_FFFFusize,
        ensures
            final(self).wf(),
            (r is None) <==> !old(self).has_live_slave(now),
            r is None ==> *final(self) == *old(self),
            (r matches Some((sid, sl)) ==> {
                &&& !old(self).has_session(sid)
                &&& final(self).has_session(sid)
                &&& (exists|ci: int|
                    {
                        &&& 0 <= ci < old(self).slaves@.len()
                        &&& (#[trigger] old(self).slaves@[ci]).id == sl
                        &&& old(self).spec_alive(old(self).slaves@[ci], now)
                        &&& ((old(self).mode != 1 || !old(self).has_live_mapping(
                            client_key@,
                            now,
                        )) ==> forall|j: int|
                            0 <= j < old(self).slaves@.len() && old(self).spec_alive(
                                #[trigger] old(self).slaves@[j],
                                now,
                            ) ==> !old(self).prefer(
                                old(self).slaves@[j],
                                old(self).slaves@[ci],
                            ))
                    })
                &&& final(self).sessions@.len() == old(self).sessions@.len() + 1
                &&& final(self).sessions@.take(old(self).sessions@.len() as int) =~= old(
                    self,
                ).sessions@
                &&& final(self).sessions@.last().id == sid
                &&& final(self).sessions@.last().slave_id == sl
                &&& final(self).sessions@.last().to_client@.len() == 0
                &&& final(self).slaves@ == old(self).slaves@
                &&& final(self).metrics == old(self).metrics
                &&& final(self).mode == old(self).mode
                &&& final(self).heartbeat_timeout == old(self).heartbeat_timeout
                &&& (old(self).mode == 1 ==> {
                    &&& (forall|i: int|
                        0 <= i < old(self).sticky@.len() && (#[trigger] old(self).sticky@[i]).key@ == client_key@ && old(self).sticky_target_live(i, now)
                            ==> sl == old(self).sticky@[i].slave_id && final(self).sticky@
                            == old(self).sticky@)
                    &&& (exists|i: int|
                        0 <= i < final(self).sticky@.len() && (#[trigger] final(self).sticky@[i]).key@ == client_key@ && final(self).sticky@[i].slave_id
                            == sl)
                })
                &&& (old(self).mode != 1 ==> final(self).sticky@ == old(self).sticky@)
            }),
    {
        let picked: Option<usize> = if self.mode == 1 {
            let mut hit: Option<usize> = None;
            if let Some(si) = self.find_sticky(client_key) {
                let target = self.sticky[si].slave_id;
                if let Some(t) = self.find_slave(target) {
                    if self.alive_at(t, now) {
                        hit = Some(t);
                    }
                }
            }
            match hit {
                Some(t) => Some(t),
                None => {
                    proof {
                        assert(!self.has_live_mapping(client_key@, now)) by {
                            if self.has_live_mapping(client_key@, now) {
                                let i = choose|i: int|
                                    0 <= i < self.sticky@.len() && (#[trigger] self.sticky@[
                                        i
                                    ]).key@ == client_key@ && self.sticky_target_live(i, now);
                                assert(false);
                            }
                        }
                    }
                    self.pick_fresh(now)
                },
            }
        } else {
            self.pick_fresh(now)
        };
        let idx = match picked {
            Some(i) => i,
            None => {
                return None;
            },
        };
        let sl = self.slaves[idx].id;
        let sid = self.alloc_session_id();
        if self.mode == 1 {
            match self.find_sticky(client_key) {
                Some(si) => {
                    if self.sticky[si].slave_id != sl {
                        let e = self.sticky.remove(si);
                        self.sticky.insert(si, StickyEntry { key: e.key, slave_id: sl });
                        proof {
                            assert(forall|j: int|
                                0 <= j < old(self).sticky@.len() && j != si
                                    ==> self.sticky@[j] == old(self).sticky@[j]);
                            assert(self.sticky@[si as int].key@ == old(self).sticky@[
                                si as int
                            ].key@);
                        }
                    }
                    proof {
                        assert(self.sticky@[si as int].key@ == client_key@ && self.sticky@[
                            si as int
                        ].slave_id == sl);
                    }
                },
                None => {
                    let mut key_copy: Vec<u8> = Vec::new();
                    let mut k: usize = 0;
                    while k < client_key.len()
                        invariant
                            k <= client_key@.len(),
                            key_copy@ =~= client_key@.subrange(0, k as int),
                        decreases client_key@.len() - k,
                    {
                        key_copy.push(client_key[k]);
                        k = k + 1;
                    }
                    proof {
                        assert(key_copy@ =~= client_key@);
                    }
                    self.sticky.push(StickyEntry { key: key_copy, slave_id: sl });
                    proof {
                        let n = self.sticky@.len() - 1;
                        assert(self.sticky@[n].key@ == client_key@ && self.sticky@[n].slave_id
                            == sl);
                    }
                },
            }
        }
        self.sessions.push(SessionEntry { id: sid, slave_id: sl, to_client: Vec::new() });
        proof {
            let post = *self;
            let pre = *old(self);
            let n = pre.sessions@.len() as int;
            assert(post.sessions@[n].id == sid);
            assert(post.sessions@.take(n) =~= pre.sessions@);
            assert forall|m: int, j: int|
                0 <= m < j < post.sessions@.len() implies (#[trigger] post.sessions@[m]).id != (
            #[trigger] post.sessions@[j]).id by {
                if j == n {
                    assert(post.sessions@[m] == pre.sessions@[m]);
                    assert(!pre.has_session(sid));
                }
            }
            assert forall|k2: int|
                0 <= k2 < post.sessions@.len() implies post.has_slave(
                (#[trigger] post.sessions@[k2]).slave_id,
            ) by {
                if k2 == n {
                    assert(post.slaves@[idx as int].id == sl);
                } else {
                    assert(post.sessions@[k2] == pre.sessions@[k2]);
                    assert(pre.has_slave(pre.sessions@[k2].slave_id));
                    let t = choose|t: int|
                        0 <= t < pre.slaves@.len() && (#[trigger] pre.slaves@[t]).id
                            == pre.sessions@[k2].slave_id;
                    assert(post.slaves@[t].id == pre.slaves@[t].id);
                }
            }
            assert forall|i: int, j: int|
                0 <= i < j < post.sticky@.len() implies (#[trigger] post.sticky@[i]).key@ != (
            #[trigger] post.sticky@[j]).key@ by {
                if j < pre.sticky@.len() {
                    assert(post.sticky@[i].key@ == pre.sticky@[i].key@);
                    assert(post.sticky@[j].key@ == pre.sticky@[j].key@);
                } else {
                    assert(post.sticky@[i] == pre.sticky@[i]);
                }
            }
            assert forall|k2: int|
                0 <= k2 < post.sticky@.len() implies post.has_slave(
                (#[trigger] post.sticky@[k2]).slave_id,
            ) by {
                if k2 < pre.sticky@.len() && post.sticky@[k2].slave_id == pre.sticky@[
                    k2
                ].slave_id {
                    assert(pre.has_slave(pre.sticky@[k2].slave_id));
                    let t = choose|t: int|
                        0 <= t < pre.slaves@.len() && (#[trigger] pre.slaves@[t]).id
                            == pre.sticky@[k2].slave_id;
                    assert(post.slaves@[t].id == pre.slaves@[t].id);
                } else {
                    assert(post.sticky@[k2].slave_id == sl);
                    assert(post.slaves@[idx as int].id == sl);
                }
            }
        }
        Some((sid, sl))
    }

    /// The slaves whose heartbeat has lapsed at `now`, in roster order;
    /// the supervisor retires each of them.
    pub fn expired_slaves(&self, now: u64) -> (r: Vec<u64>)
        ensures
            r@ == self.slaves@.filter(expired_pred(self.heartbeat_timeout, now)).map_values(
                slave_id_of(),
            ),
    {
        let mut out: Vec<u64> = Vec::new();
        let mut i: usize = 0;
        while i < self.slaves.len()
            invariant
                i <= self.slaves@.len(),
                out@ == self.slaves@.take(i as int).filter(
                    expired_pred(self.heartbeat_timeout, now),
                ).map_values(slave_id_of()),
            decreases self.slaves@.len() - i,
        {
            proof {
                lemma_filter_take_step(
                    self.slaves@,
                    expired_pred(self.heartbeat_timeout, now),
                    i as int,
                );
            }
            if !self.alive_at(i, now) {
                out.push(self.slaves[i].id);
                proof {
                    let pred = expired_pred(self.heartbeat_timeout, now);
                    assert(self.slaves@.take(i as int).filter(pred).push(
                        self.slaves@[i as int],
                    ).map_values(slave_id_of()) =~= self.slaves@.take(i as int).filter(
                        pred,
                    ).map_values(slave_id_of()).push(self.slaves@[i as int].id));
                }
            }
            i = i + 1;
        }
        proof {
            assert(self.slaves@.take(self.slaves@.len() as int) =~= self.slaves@);
        }
        out
    }

    /// Retires a slave: it leaves the roster, every session it owns is
    /// destroyed, every sticky assignment pointing at it is dropped, and
    /// the disconnection is counted.  No later routing or selection can
    /// reference it.
    pub fn retire_slave(&mut self, slave_id: u64)
        requires
            old(self).wf(),
            old(self).has_slave(slave_id),
            old(self).metrics.slave_disconnections < u64::MAX,
        ensures
            final(self).wf(),
            !final(self).has_slave(slave_id),
            exists|i: int|
                {
                    &&& 0 <= i < old(self).slaves@.len()
                    &&& (#[trigger] old(self).slaves@[i]).id == slave_id
                    &&& final(self).slaves@ =~= old(self).slaves@.remove(i)
                },
            final(self).sessions@ == old(self).sessions@.filter(keeps_other_sessions(slave_id)),
            final(self).sticky@ == old(self).sticky@.filter(keeps_other_sticky(slave_id)),
            forall|i: int|
                0 <= i < final(self).sessions@.len() ==> (#[trigger] final(self).sessions@[i]).slave_id != slave_id,
            final(self).metrics.slave_disconnections == old(self).metrics.slave_disconnections
                + 1,
            final(self).metrics.slave_total_connections == old(self).metrics.slave_total_connections,
            final(self).metrics.slave_active_connections == old(self).metrics.slave_active_connections - 1,
            final(self).mode == old(self).mode,
            final(self).heartbeat_timeout == old(self).heartbeat_timeout,
            final(self).next_session_id == old(self).next_session_id,
            final(self).next_slave_id == old(self).next_slave_id,
    {
        let idx = match self.find_slave(slave_id) {
            Some(i) => i,
            None => {
                proof {
                    assert(false);
                }
                0
            },
        };
        self.slaves.remove(idx);
        proof {
            assert forall|k: int|
                0 <= k < self.slaves@.len() implies (#[trigger] self.slaves@[k]).id != slave_id
                    && self.slaves@[k].id < self.next_slave_id by {
                if k < idx {
                    assert(self.slaves@[k] == old(self).slaves@[k]);
                } else {
                    assert(self.slaves@[k] == old(self).slaves@[k + 1]);
                }
            }
            assert forall|m: int, n: int|
                0 <= m < n < self.slaves@.len() implies (#[trigger] self.slaves@[m]).id != (
            #[trigger] self.slaves@[n]).id by {
                let m0: int = if m < idx {
                    m
                } else {
                    m + 1
                };
                let n0: int = if n < idx {
                    n
                } else {
                    n + 1
                };
                assert(self.slaves@[m] == old(self).slaves@[m0]);
                assert(self.slaves@[n] == old(self).slaves@[n0]);
            }
        }
        let ghost mid = *self;
        let ghost orig_sessions = self.sessions@;
        let ghost session_pred = keeps_other_sessions(slave_id);
        let mut kept: Vec<SessionEntry> = Vec::new();
        while self.sessions.len() > 0
            invariant
                self.sessions@.len() <= orig_sessions.len(),
                kept@ == orig_sessions.take(
                    orig_sessions.len() - self.sessions@.len(),
                ).filter(session_pred),
                self.sessions@ =~= orig_sessions.skip(
                    orig_sessions.len() - self.sessions@.len(),
                ),
                session_pred == keeps_other_sessions(slave_id),
                self.slaves == mid.slaves,
                self.sticky == mid.sticky,
                self.metrics == mid.metrics,
                self.mode == mid.mode,
                self.heartbeat_timeout == mid.heartbeat_timeout,
                self.next_session_id == mid.next_session_id,
                self.next_slave_id == mid.next_slave_id,
            decreases self.sessions@.len(),
        {
            let ghost j = orig_sessions.len() - self.sessions@.len();
            let e = self.sessions.remove(0);
            proof {
                assert(e == orig_sessions[j]);
                lemma_filter_take_step(orig_sessions, session_pred, j);
                assert(self.sessions@ =~= orig_sessions.skip(j + 1));
            }
            if e.slave_id != slave_id {
                kept.push(e);
            }
        }
        proof {
            assert(orig_sessions.take(orig_sessions.len() as int) =~= orig_sessions);
        }
        self.sessions = kept;
        let ghost mid2 = *self;
        let ghost orig_sticky = self.sticky@;
        let ghost sticky_pred = keeps_other_sticky(slave_id);
        let mut kept_sticky: Vec<StickyEntry> = Vec::new();
        while self.sticky.len() > 0
            invariant
                self.sticky@.len() <= orig_sticky.len(),
                kept_sticky@ == orig_sticky.take(
                    orig_sticky.len() - self.sticky@.len(),
                ).filter(sticky_pred),
                self.sticky@ =~= orig_sticky.skip(orig_sticky.len() - self.sticky@.len()),
                sticky_pred == keeps_other_sticky(slave_id),
                self.slaves == mid.slaves,
                self.sessions == mid2.sessions,
                self.metrics == mid.metrics,
                self.mode == mid.mode,
                self.heartbeat_timeout == mid.heartbeat_timeout,
                self.next_session_id == mid.next_session_id,
                self.next_slave_id == mid.next_slave_id,
            decreases self.sticky@.len(),
        {
            let ghost j = orig_sticky.len() - self.sticky@.len();
            let e = self.sticky.remove(0);
            proof {
                assert(e == orig_sticky[j]);
                lemma_filter_take_step(orig_sticky, sticky_pred, j);
                assert(self.sticky@ =~= orig_sticky.skip(j + 1));
            }
            if e.slave_id != slave_id {
                kept_sticky.push(e);
            }
        }
        proof {
            assert(orig_sticky.take(orig_sticky.len() as int) =~= orig_sticky);
        }
        self.sticky = kept_sticky;
        self.metrics.note_disconnection();
        proof {
            lemma_filter_keeps_distinct(orig_sessions, session_pred, |e: SessionEntry| e.id);
            lemma_filter_keeps_distinct(orig_sticky, sticky_pred, |e: StickyEntry| e.key@);
            lemma_filter_elems(orig_sessions, session_pred);
            lemma_filter_elems(orig_sticky, sticky_pred);
            assert forall|i: int|
                0 <= i < self.sessions@.len() implies self.has_slave(
                #[trigger] self.sessions@[i].slave_id,
            ) by {
                assert(orig_sessions.contains(self.sessions@[i]));
                let w = choose|w: int|
                    0 <= w < orig_sessions.len() && orig_sessions[w] == self.sessions@[i];
                assert(old(self).has_slave(orig_sessions[w].slave_id));
                let t = choose|t: int|
                    0 <= t < old(self).slaves@.len() && (#[trigger] old(self).slaves@[t]).id
                        == orig_sessions[w].slave_id;
                if t < idx {
                    assert(self.slaves@[t] == old(self).slaves@[t]);
                } else {
                    assert(self.slaves@[t - 1] == old(self).slaves@[t]);
                }
            }
            assert forall|i: int|
                0 <= i < self.sticky@.len() implies self.has_slave(
                #[trigger] self.sticky@[i].slave_id,
            ) by {
                assert(orig_sticky.contains(self.sticky@[i]));
                let w = choose|w: int|
                    0 <= w < orig_sticky.len() && orig_sticky[w] == self.sticky@[i];
                assert(old(self).has_slave(orig_sticky[w].slave_id));
                let t = choose|t: int|
                    0 <= t < old(self).slaves@.len() && (#[trigger] old(self).slaves@[t]).id
                        == orig_sticky[w].slave_id;
                if t < idx {
                    assert(self.slaves@[t] == old(self).slaves@[t]);
                } else {
                    assert(self.slaves@[t - 1] == old(self).slaves@[t]);
                }
            }
        }
    }
}

/// A command frame that is a well-formed heartbeat reply.
pub open spec fn is_heartbeat(frame: &Frame) -> bool {
    frame.kind == PacketType::Command && frame.command == Some(CommandType::Heartbeat)
        && frame.payload@ == alive_payload()
}

/// Whether `payload` is exactly the ASCII `ALIVE` heartbeat body.
pub fn is_alive_payload(payload: &[u8]) -> (r: bool)
    ensures
        r <==> payload@ == alive_payload(),
{
    let expected: [u8; 5] = [65, 76, 73, 86, 69];
    proof {
        assert(expected@ =~= alive_payload());
    }
    let r = crate::text::bytes_eq(payload, expected.as_slice());
    proof {
        if payload@ =~= expected@ {
            assert(payload@ == alive_payload());
        }
    }
    r
}

/// The SOCKS5 reply code for a slave assignment: success, or network
/// unreachable when the roster holds no live slave.
pub fn connect_reply_code(assigned: &Option<(u32, u64)>) -> (r: u8)
    ensures
        assigned is Some ==> r == 0,
        assigned is None ==> r == 3,
{
    match assigned {
        Some(_) => 0,
        None => 3,
    }
}

/// The payloads among `frames` that belong to session `sid`, in order.
pub open spec fn payloads_for(frames: Seq<Frame>, sid: u32) -> Seq<Seq<u8>>
    decreases frames.len(),
{
    if frames.len() == 0 {
        Seq::<Seq<u8>>::empty()
    } else {
        let rest = payloads_for(frames.drop_last(), sid);
        if frames.last().kind == PacketType::Data && frames.last().session_id == sid {
            rest.push(frames.last().payload@)
        } else {
            rest
        }
    }
}

/// No two live sessions share a session id: the table is well formed, and
/// every operation above keeps it so while allocating only fresh ids.
pub proof fn lemma_session_ids_unique(m: ProxyManager, i: int, j: int)
    requires
        m.wf(),
        0 <= i < j < m.sessions@.len(),
    ensures
        m.sessions@[i].id != m.sessions@[j].id,
{
}

/// The slaves whose heartbeat has lapsed.
pub open spec fn expired_pred(timeout: u64, now: u64) -> spec_fn(SlaveInfo) -> bool {
    |s: SlaveInfo| !(now <= s.last_seen + timeout)
}

/// A slave's id, for reading ids off a roster.
pub open spec fn slave_id_of() -> spec_fn(SlaveInfo) -> u64 {
    |s: SlaveInfo| s.id
}

/// The sessions that survive retiring `slave_id`.
pub open spec fn keeps_other_sessions(slave_id: u64) -> spec_fn(SessionEntry) -> bool {
    |e: SessionEntry| e.slave_id != slave_id
}

/// The sticky entries that survive retiring `slave_id`.
pub open spec fn keeps_other_sticky(slave_id: u64) -> spec_fn(StickyEntry) -> bool {
    |e: StickyEntry| e.slave_id != slave_id
}

/// The views of a session's queued chunks.
pub open spec fn chunk_views(s: Seq<Vec<u8>>) -> Seq<Seq<u8>> {
    s.map_values(|c: Vec<u8>| c@)
}

/// Every element of a filtered sequence is an element of the original.
pub proof fn lemma_filter_elems<A>(s: Seq<A>, pred: spec_fn(A) -> bool)
    ensures
        forall|i: int| 0 <= i < s.filter(pred).len() ==> s.contains(#[trigger] s.filter(pred)[i]),
    decreases s.len(),
{
    reveal(Seq::filter);
    if s.len() > 0 {
        lemma_filter_elems(s.drop_last(), pred);
        let sub = s.drop_last().filter(pred);
        let out = s.filter(pred);
        assert forall|i: int| 0 <= i < out.len() implies s.contains(#[trigger] out[i]) by {
            if pred(s.last()) && i == out.len() - 1 {
                assert(out[i] == s.last());
                assert(s[s.len() - 1] == s.last());
            } else {
                assert(out[i] == sub[i]);
                assert(s.drop_last().contains(sub[i]));
                let j = choose|j: int|
                    0 <= j < s.drop_last().len() && s.drop_last()[j] == sub[i];
                assert(s[j] == sub[i]);
            }
        }
    }
}

/// Filtering keeps elements pairwise distinct under any key.
pub proof fn lemma_filter_keeps_distinct<A, K>(
    s: Seq<A>,
    pred: spec_fn(A) -> bool,
    key: spec_fn(A) -> K,
)
    requires
        forall|i: int, j: int| 0 <= i < j < s.len() ==> key(#[trigger] s[i]) != key(
            #[trigger] s[j],
        ),
    ensures
        forall|i: int, j: int|
            0 <= i < j < s.filter(pred).len() ==> key(#[trigger] s.filter(pred)[i]) != key(
                #[trigger] s.filter(pred)[j],
            ),
    decreases s.len(),
{
    reveal(Seq::filter);
    if s.len() > 0 {
        lemma_filter_keeps_distinct(s.drop_last(), pred, key);
        lemma_filter_elems(s.drop_last(), pred);
        let sub = s.drop_last().filter(pred);
        let out = s.filter(pred);
        assert forall|i: int, j: int|
            0 <= i < j < out.len() implies key(#[trigger] out[i]) != key(#[trigger] out[j]) by {
            if pred(s.last()) && j == out.len() - 1 {
                assert(out[i] == sub[i]);
                assert(s.drop_last().contains(sub[i]));
                let w = choose|w: int|
                    0 <= w < s.drop_last().len() && s.drop_last()[w] == sub[i];
                assert(key(s[w]) != key(s[s.len() - 1]));
                assert(out[j] == s.last());
            } else {
                assert(out[i] == sub[i] && out[j] == sub[j]);
            }
        }
    }
}

/// One step of filtering a prefix: taking one more element appends it to
/// the filtered prefix exactly when it passes.
pub proof fn lemma_filter_take_step<A>(s: Seq<A>, pred: spec_fn(A) -> bool, i: int)
    requires
        0 <= i < s.len(),
    ensures
        s.take(i + 1).filter(pred) == (if pred(s[i]) {
            s.take(i).filter(pred).push(s[i])
        } else {
            s.take(i).filter(pred)
        }),
{
    reveal(Seq::filter);
    assert(s.take(i + 1).drop_last() =~= s.take(i));
    assert(s.take(i + 1).last() == s[i]);
}

} // verus!
