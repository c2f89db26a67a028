//! Configuration, its tests, and the readiness of an instance.
use crowdb_chunkdb::chunkdb_config::{
    replace_port, AddressCheck, ChunkdbConfig, ConversionConfig, LifecycleConfig, Overrides,
    RepairConfig, ServerConfig, ServicePorts,
};
use crowdb_chunkdb::service::http::{ready_response, Readiness};

const PORTS: ServicePorts = ServicePorts { http: 8080, rpc: 9090, kv_mgmt: 7070 };
const GOOD: AddressCheck = AddressCheck { http: true, rpc: true };

#[test]
fn defaults_are_valid() {
    let config = ChunkdbConfig::on_ports(PORTS);
    assert_eq!(config.server.http_listen_addr, "0.0.0.0:8080");
    assert_eq!(config.server.rpc_listen_addr, "0.0.0.0:9090");
    assert_eq!(config.server.kv_server_mgmt_seeds, vec!["http://127.0.0.1:7070".to_string()]);
    assert_eq!(config.validate(GOOD), Ok(()));
    assert_eq!(RepairConfig::default().memory_bytes, 64 * 1024 * 1024);
    assert_eq!(LifecycleConfig::default().layout_validity_ms, 30_000);
    assert_eq!(ConversionConfig::default().task_lease_secs, 30);
}

#[test]
fn missing_seeds_come_first() {
    let mut config = ChunkdbConfig::on_ports(PORTS);
    config.server.kv_server_mgmt_seeds = Vec::new();
    let found = config.validate(AddressCheck { http: false, rpc: false });
    assert_eq!(found, Err("server.kv_server_mgmt_seeds must not be empty".to_string()));
}

#[test]
fn bad_addresses_are_quoted() {
    let mut config = ChunkdbConfig::on_ports(PORTS);
    config.server.http_listen_addr = "no\"where".to_string();
    assert_eq!(
        config.validate(AddressCheck { http: false, rpc: true }),
        Err("server.http_listen_addr \"no\\\"where\" is not a valid SocketAddr".to_string())
    );
    assert_eq!(
        config.validate(AddressCheck { http: true, rpc: false }),
        Err("server.rpc_listen_addr \"0.0.0.0:9090\" is not a valid SocketAddr".to_string())
    );
}

#[test]
fn zero_intervals_and_pools_are_refused() {
    let mut config = ChunkdbConfig::on_ports(PORTS);
    config.topology.refresh_interval_secs = 0;
    assert_eq!(
        config.validate(GOOD),
        Err("topology.refresh_interval_secs must be > 0".to_string())
    );
    let mut config = ChunkdbConfig::on_ports(PORTS);
    config.server.diskdb_rpc_workers = 0;
    assert_eq!(
        config.validate(GOOD),
        Err("server client pool sizes and RPC workers must be > 0".to_string())
    );
}

#[test]
fn lifecycle_faults() {
    let good = LifecycleConfig::default();
    let cases = [
        (LifecycleConfig { cache_capacity: 0, ..good }, "lifecycle.cache_capacity must be > 0"),
        (
            LifecycleConfig { sweep_chunk_lock_interval_secs: 0, ..good },
            "lifecycle.sweep_chunk_lock_interval_secs must be > 0",
        ),
        (LifecycleConfig { layout_validity_ms: 0, ..good }, "lifecycle.layout_validity_ms must be > 0"),
    ];
    for (config, message) in cases {
        assert_eq!(config.validate(), Err(message.to_string()));
        let mut whole = ChunkdbConfig::on_ports(PORTS);
        whole.lifecycle = config;
        assert_eq!(whole.validate(GOOD), Err(message.to_string()));
    }
}

#[test]
fn conversion_faults() {
    let good = ConversionConfig::default();
    let cases = [
        (
            ConversionConfig { code_num: 0, ..good },
            "conversion data_num and code_num must be > 0",
        ),
        (
            ConversionConfig { min_mirror_strips: 7, ..good },
            "conversion.min_mirror_strips must be >= data_num",
        ),
        (ConversionConfig { max_concurrency: 0, ..good }, "conversion.max_concurrency must be > 0"),
        (
            ConversionConfig { max_bandwidth_mbps: 0, ..good },
            "conversion.max_bandwidth_mbps must be > 0",
        ),
        (
            ConversionConfig { scan_interval_secs: 0, ..good },
            "conversion.scan_interval_secs must be > 0",
        ),
        (ConversionConfig { task_lease_secs: 0, ..good }, "conversion.task_lease_secs must be > 0"),
    ];
    for (config, message) in cases {
        assert_eq!(config.validate(), Err(message.to_string()));
    }
}

#[test]
fn repair_faults() {
    let good = RepairConfig::default();
    let cases = [
        (RepairConfig { max_concurrency: 0, ..good }, "repair.max_concurrency must be > 0"),
        (RepairConfig { memory_bytes: 0, ..good }, "repair.memory_bytes must be in 1..=u32::MAX"),
        (
            RepairConfig { memory_bytes: 1 << 32, ..good },
            "repair.memory_bytes must be in 1..=u32::MAX",
        ),
        (RepairConfig { scan_interval_secs: 0, ..good }, "repair.scan_interval_secs must be > 0"),
    ];
    for (config, message) in cases {
        assert_eq!(config.validate(), Err(message.to_string()));
    }
    assert_eq!(good.validate(), Ok(()));
}

#[test]
fn ports_are_replaced_behind_the_last_colon() {
    assert_eq!(replace_port("127.0.0.1:80", 8081), "127.0.0.1:8081");
    assert_eq!(replace_port("[::1]:80", 5), "[::1]:5");
    assert_eq!(replace_port("localhost", 1), "0.0.0.0:1");
    assert_eq!(replace_port(&replace_port("h:1", 22), 333), replace_port("h:1", 333));
}

#[test]
fn overrides_change_the_addresses_only() {
    let mut config = ChunkdbConfig::on_ports(PORTS);
    config.apply(&Overrides {
        http_addr: Some("10.0.0.1:1".to_string()),
        rpc_listen_addr: None,
        http_port: Some(2),
        rpc_port: Some(3),
    });
    assert_eq!(config.server.http_listen_addr, "10.0.0.1:2");
    assert_eq!(config.server.rpc_listen_addr, "0.0.0.0:3");
    assert_eq!(config.server.kv_rpc_workers, 2);
}

#[test]
fn readiness_follows_ranges_and_refresh() {
    assert_eq!(ready_response(Some(false), true), Readiness::RefreshFailed);
    assert_eq!(ready_response(Some(true), true), Readiness::Ready);
    assert_eq!(ready_response(None, true), Readiness::Ready);
    assert_eq!(ready_response(None, false), Readiness::Pending);
    assert_eq!(Readiness::Ready.status(), 200);
    assert_eq!(Readiness::Ready.text(), "ok");
    assert_eq!(Readiness::RefreshFailed.status(), 503);
    assert_eq!(Readiness::RefreshFailed.text(), "range ownership refresh failed");
    assert_eq!(Readiness::Pending.text(), "range ownership pending");
}

#[test]
fn registration_needs_a_number_and_an_interval() {
    let mut server = ServerConfig::on_ports(ServicePorts { http: 1, rpc: 2, kv_mgmt: 3 });
    let entry = server.registration(Some(7)).unwrap();
    assert_eq!((entry.instance, entry.interval_secs), (7, 10));
    assert_eq!(entry.rpc_endpoint, "http://0.0.0.0:2");
    assert!(server.registration(None).is_none());
    server.keepalive_interval_secs = 0;
    assert!(server.registration(Some(7)).is_none());
}
