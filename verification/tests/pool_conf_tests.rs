use socks_broker::buffer_pool::{PoolBuffer, ShardedBufferPool, POOL_SIZE};
use socks_broker::conf::{build_config, proxy_mode_of, resolve_setting, split_locations};
use socks_broker::packet::MAX_BUF_SIZE;

#[test]
fn every_acquired_buffer_is_empty_and_full_size() {
    let mut pool = ShardedBufferPool::new(4, 2);
    // interleave acquisitions and returns across shards
    let mut held: Vec<(usize, PoolBuffer)> = Vec::new();
    for id in 0..16usize {
        let mut b = pool.get_buffer(id);
        assert_eq!(b.data.len(), 0);
        assert!(b.cap >= MAX_BUF_SIZE);
        b.data.push(7);
        held.push((id, b));
    }
    for (id, b) in held {
        pool.return_buffer(id, b);
    }
    // a dirtied buffer is recorded in its shard with length zero
    for shard in &pool.shards {
        for b in shard {
            assert_eq!(b.data.len(), 0);
        }
    }
    let b = pool.get_buffer(3);
    assert_eq!(b.data.len(), 0);
    assert!(b.cap >= MAX_BUF_SIZE);
}

#[test]
fn full_shard_drops_the_returned_buffer() {
    let mut pool = ShardedBufferPool::new(1, POOL_SIZE);
    pool.return_buffer(0, PoolBuffer::with_max_capacity());
    assert_eq!(pool.shards[0].len(), POOL_SIZE);
}

#[test]
fn setting_precedence_is_flag_env_default() {
    let r = resolve_setting(
        Some("flag".to_string()),
        Some("env".to_string()),
        "def".to_string(),
    );
    assert_eq!(r, "flag");
    let r = resolve_setting(None, Some("env".to_string()), "def".to_string());
    assert_eq!(r, "env");
    let r = resolve_setting(None, None, "def".to_string());
    assert_eq!(r, "def");
}

#[test]
fn proxy_mode_names_map_to_numbers() {
    assert_eq!(proxy_mode_of(b"stick"), 1);
    assert_eq!(proxy_mode_of(b"nonstick"), 2);
    assert_eq!(proxy_mode_of(b"anything"), 2);
    assert_eq!(proxy_mode_of(b""), 2);
}

#[test]
fn location_list_is_split_trimmed_and_filtered() {
    let r = split_locations(b" US, ca ,,DE ");
    assert_eq!(r, vec![b"US".to_vec(), b"ca".to_vec(), b"DE".to_vec()]);
    assert_eq!(split_locations(b""), Vec::<Vec<u8>>::new());
    assert_eq!(split_locations(b" , ,"), Vec::<Vec<u8>>::new());
    assert_eq!(split_locations(b"US"), vec![b"US".to_vec()]);
}

#[test]
fn config_is_assembled_from_resolved_settings() {
    let c = build_config(
        b"stick",
        b"US,CA",
        "info".to_string(),
        "0.0.0.0:8001".to_string(),
        "0.0.0.0:1081".to_string(),
        "0.0.0.0:9091".to_string(),
    );
    assert_eq!(c.proxy_mode, 1);
    assert_eq!(c.allowed_locations, vec![b"US".to_vec(), b"CA".to_vec()]);
    assert_eq!(c.verbosity, "info");
    assert_eq!(c.master_addr, "0.0.0.0:8001");
    assert_eq!(c.socks_addr, "0.0.0.0:1081");
    assert_eq!(c.metrics_addr, "0.0.0.0:9091");
}
