//! Configuration of a server instance.
use vstd::prelude::*;
use crate::text::{decimal, push_decimal, text};

verus! {

/// How Rust's `Debug` shows a string: in double quotes, with what needs it escaped.
pub uninterp spec fn quoted_text(content: Seq<char>) -> Seq<char>;

/// Shows a string with `format!` and the `{:?}` placeholder, that is with `str`'s
/// `Debug`. The result depends on the string alone; which characters are escaped is
/// left unsaid.
#[verifier::external_body]
fn quoted(content: &String) -> (r: String)
    ensures
        r@ == quoted_text(content@),
{
    format!("{:?}", content)
}

/// Placement safety policy.
#[derive(Debug, Clone, Copy, PartialEq, Eq, Structural)]
pub struct PlacementConfig {
    /// Permit EC layouts that exceed the safe per-node failure bound.
    pub allow_unsafe_ec: bool,
}

impl Default for PlacementConfig {
    fn default() -> (r: Self)
        ensures
            !r.allow_unsafe_ec,
    {
        PlacementConfig { allow_unsafe_ec: false }
    }
}

/// Background repair policy for strips marked unavailable by readers.
#[derive(Debug, Clone, Copy, PartialEq, Eq, Structural)]
pub struct RepairConfig {
    pub enabled: bool,
    /// Permits placements without a spare failure domain.
    pub allow_unsafe_placement: bool,
    pub max_concurrency: usize,
    pub memory_bytes: usize,
    pub scan_interval_secs: u64,
}

impl RepairConfig {
    /// The default policy.
    pub open spec fn spec_default() -> RepairConfig {
        RepairConfig {
            enabled: true,
            allow_unsafe_placement: false,
            max_concurrency: 4,
            memory_bytes: 67_108_864,
            scan_interval_secs: 1,
        }
    }

    /// What is wrong with the policy.
    pub open spec fn fault(self) -> Option<Seq<char>> {
        if self.max_concurrency == 0 {
            Some("repair.max_concurrency must be > 0"@)
        } else if self.memory_bytes == 0 || self.memory_bytes > u32::MAX {
            Some("repair.memory_bytes must be in 1..=u32::MAX"@)
        } else if self.scan_interval_secs == 0 {
            Some("repair.scan_interval_secs must be > 0"@)
        } else {
            None
        }
    }

    /// Tests the policy.
    pub fn validate(&self) -> (r: Result<(), String>)
        ensures
            fault_of(r) == self.fault(),
    {
        if self.max_concurrency == 0 {
            return Err(text("repair.max_concurrency must be > 0"));
        }
        if self.memory_bytes == 0 || self.memory_bytes > u32::MAX as usize {
            return Err(text("repair.memory_bytes must be in 1..=u32::MAX"));
        }
        if self.scan_interval_secs == 0 {
            return Err(text("repair.scan_interval_secs must be > 0"));
        }
        Ok(())
    }
}

impl Default for RepairConfig {
    fn default() -> (r: Self)
        ensures
            r == RepairConfig::spec_default(),
    {
        RepairConfig {
            enabled: true,
            allow_unsafe_placement: false,
            max_concurrency: 4,
            memory_bytes: 67_108_864,
            scan_interval_secs: 1,
        }
    }
}

/// Text of a failed test.
pub open spec fn fault_of(result: Result<(), String>) -> Option<Seq<char>> {
    match result {
        Ok(_) => None,
        Err(message) => Some(message@),
    }
}

/// Background mirror-to-EC conversion policy.
#[derive(Debug, Clone, Copy, PartialEq, Eq, Structural)]
pub struct ConversionConfig {
    /// Run automatic conversion scans. Manual triggers remain available.
    pub enabled: bool,
    pub data_num: u32,
    pub code_num: u32,
    pub min_seal_age_secs: u64,
    pub min_mirror_strips: u32,
    pub max_concurrency: usize,
    pub max_bandwidth_mbps: u64,
    pub scan_interval_secs: u64,
    pub task_lease_secs: u64,
}

/// Default lease of a conversion task.
pub fn default_conversion_task_lease_secs() -> (r: u64)
    ensures
        r == 30,
{
    30
}

impl ConversionConfig {
    /// The default policy.
    pub open spec fn spec_default() -> ConversionConfig {
        ConversionConfig {
            enabled: false,
            data_num: 8,
            code_num: 4,
            min_seal_age_secs: 3_600,
            min_mirror_strips: 8,
            max_concurrency: 4,
            max_bandwidth_mbps: 50,
            scan_interval_secs: 30,
            task_lease_secs: 30,
        }
    }

    /// What is wrong with the policy.
    pub open spec fn fault(self) -> Option<Seq<char>> {
        if self.data_num == 0 || self.code_num == 0 {
            Some("conversion data_num and code_num must be > 0"@)
        } else if self.min_mirror_strips < self.data_num {
            Some("conversion.min_mirror_strips must be >= data_num"@)
        } else if self.max_concurrency == 0 {
            Some("conversion.max_concurrency must be > 0"@)
        } else if self.max_bandwidth_mbps == 0 {
            Some("conversion.max_bandwidth_mbps must be > 0"@)
        } else if self.scan_interval_secs == 0 {
            Some("conversion.scan_interval_secs must be > 0"@)
        } else if self.task_lease_secs == 0 {
            Some("conversion.task_lease_secs must be > 0"@)
        } else {
            None
        }
    }

    /// Tests the policy.
    pub fn validate(&self) -> (r: Result<(), String>)
        ensures
            fault_of(r) == self.fault(),
    {
        if self.data_num == 0 || self.code_num == 0 {
            return Err(text("conversion data_num and code_num must be > 0"));
        }
        if self.min_mirror_strips < self.data_num {
            return Err(text("conversion.min_mirror_strips must be >= data_num"));
        }
        if self.max_concurrency == 0 {
            return Err(text("conversion.max_concurrency must be > 0"));
        }
        if self.max_bandwidth_mbps == 0 {
            return Err(text("conversion.max_bandwidth_mbps must be > 0"));
        }
        if self.scan_interval_secs == 0 {
            return Err(text("conversion.scan_interval_secs must be > 0"));
        }
        if self.task_lease_secs == 0 {
            return Err(text("conversion.task_lease_secs must be > 0"));
        }
        Ok(())
    }
}

impl Default for ConversionConfig {
    fn default() -> (r: Self)
        ensures
            r == ConversionConfig::spec_default(),
    {
        ConversionConfig {
            enabled: false,
            data_num: 8,
            code_num: 4,
            min_seal_age_secs: 3_600,
            min_mirror_strips: 8,
            max_concurrency: 4,
            max_bandwidth_mbps: 50,
            scan_interval_secs: 30,
            task_lease_secs: default_conversion_task_lease_secs(),
        }
    }
}

/// Range guard configuration.
#[derive(Debug, Clone, Copy, PartialEq, Eq, Structural)]
pub struct RangeGuardConfig {
    /// Whether an empty guard allows every request. Without it, an empty guard rejects
    /// mutating requests until the binding table is loaded.
    pub allow_all_when_empty: bool,
}

impl Default for RangeGuardConfig {
    fn default() -> (r: Self)
        ensures
            r.allow_all_when_empty,
    {
        RangeGuardConfig { allow_all_when_empty: true }
    }
}

/// Topology cache refresh configuration.
#[derive(Debug, Clone, Copy, PartialEq, Eq, Structural)]
pub struct TopologyConfig {
    pub refresh_interval_secs: u32,
}

impl Default for TopologyConfig {
    fn default() -> (r: Self)
        ensures
            r.refresh_interval_secs == 30,
    {
        TopologyConfig { refresh_interval_secs: 30 }
    }
}

/// Lifecycle lock and cache configuration.
#[derive(Debug, Clone, Copy, PartialEq, Eq, Structural)]
pub struct LifecycleConfig {
    /// Max entries in the chunk payload cache.
    pub cache_capacity: usize,
    /// Reap idle chunk locks every N seconds.
    pub sweep_chunk_lock_interval_secs: u32,
    /// Warn if a chunk lock is held longer than N milliseconds.
    pub lock_hold_warn_threshold_ms: u64,
    /// Minimum lifetime of a retired strip layout before block reuse.
    pub layout_validity_ms: u64,
}

/// Default lifetime of a retired strip layout.
pub fn default_layout_validity_ms() -> (r: u64)
    ensures
        r == 30_000,
{
    30_000
}

impl LifecycleConfig {
    /// The default configuration.
    pub open spec fn spec_default() -> LifecycleConfig {
        LifecycleConfig {
            cache_capacity: 10_000,
            sweep_chunk_lock_interval_secs: 60,
            lock_hold_warn_threshold_ms: 1000,
            layout_validity_ms: 30_000,
        }
    }

    /// What is wrong with the configuration.
    pub open spec fn fault(self) -> Option<Seq<char>> {
        if self.cache_capacity == 0 {
            Some("lifecycle.cache_capacity must be > 0"@)
        } else if self.sweep_chunk_lock_interval_secs == 0 {
            Some("lifecycle.sweep_chunk_lock_interval_secs must be > 0"@)
        } else if self.layout_validity_ms == 0 {
            Some("lifecycle.layout_validity_ms must be > 0"@)
        } else {
            None
        }
    }

    /// Tests the configuration.
    pub fn validate(&self) -> (r: Result<(), String>)
        ensures
            fault_of(r) == self.fault(),
    {
        if self.cache_capacity == 0 {
            return Err(text("lifecycle.cache_capacity must be > 0"));
        }
        if self.sweep_chunk_lock_interval_secs == 0 {
            return Err(text("lifecycle.sweep_chunk_lock_interval_secs must be > 0"));
        }
        if self.layout_validity_ms == 0 {
            return Err(text("lifecycle.layout_validity_ms must be > 0"));
        }
        Ok(())
    }
}

impl Default for LifecycleConfig {
    fn default() -> (r: Self)
        ensures
            r == LifecycleConfig::spec_default(),
    {
        LifecycleConfig {
            cache_capacity: 10_000,
            sweep_chunk_lock_interval_secs: 60,
            lock_hold_warn_threshold_ms: 1000,
            layout_validity_ms: default_layout_validity_ms(),
        }
    }
}

/// Listen addresses and client pools.
#[derive(Debug)]
pub struct ServerConfig {
    pub http_listen_addr: String,
    pub rpc_listen_addr: String,
    pub instance_id: Option<String>,
    pub kv_server_mgmt_seeds: Vec<String>,
    /// KV client connections kept per endpoint.
    pub kv_pool_size: usize,
    /// RPC I/O workers used by the KV client.
    pub kv_rpc_workers: u32,
    /// DiskDB client connections kept per endpoint.
    pub diskdb_pool_size: usize,
    /// RPC I/O workers used by the DiskDB client.
    pub diskdb_rpc_workers: u32,
    /// Service-registry keep-alive interval in seconds. 0 disables registration.
    pub keepalive_interval_secs: u32,
}

/// Well-known ports of the services.
#[derive(Debug, Clone, Copy, PartialEq, Eq, Structural)]
pub struct ServicePorts {
    pub http: u16,
    pub rpc: u16,
    pub kv_mgmt: u16,
}

/// Default number of connections per endpoint.
pub fn default_client_pool_size() -> (r: usize)
    ensures
        r == 1,
{
    1
}

/// Default number of client RPC workers.
pub fn default_client_rpc_workers() -> (r: u32)
    ensures
        r == 2,
{
    2
}

/// Default keep-alive interval.
pub fn default_keepalive_interval_secs() -> (r: u32)
    ensures
        r == 10,
{
    10
}

/// An address of all interfaces.
pub open spec fn any_interface(port: u16) -> Seq<char> {
    "0.0.0.0:"@ + decimal(port as nat)
}

/// Default RPC listen address.
pub fn default_rpc_listen_addr(port: u16) -> (r: String)
    ensures
        r@ == any_interface(port),
{
    let mut out = text("0.0.0.0:");
    push_decimal(&mut out, port as u64);
    out
}

/// How an instance is kept in the service registry.
#[derive(Debug, PartialEq, Eq)]
pub struct KeepAlive {
    pub instance: u64,
    pub rpc_endpoint: String,
    pub interval_secs: u32,
}

impl ServerConfig {
    /// How the instance is kept in the service registry; none where it has no
    /// number or the interval disables the registration.
    pub fn registration(&self, instance: Option<u64>) -> (r: Option<KeepAlive>)
        ensures
            match r {
                Some(entry) => instance == Some(entry.instance) && self.keepalive_interval_secs > 0
                    && entry.rpc_endpoint@ == "http://"@ + self.rpc_listen_addr@
                    && entry.interval_secs == self.keepalive_interval_secs,
                None => instance is None || self.keepalive_interval_secs == 0,
            },
    {
        if self.keepalive_interval_secs == 0 {
            return None;
        }
        match instance {
            Some(instance) => {
                let mut rpc_endpoint = text("http://");
                rpc_endpoint.append(self.rpc_listen_addr.as_str());
                Some(
                    KeepAlive {
                        instance,
                        rpc_endpoint,
                        interval_secs: self.keepalive_interval_secs,
                    },
                )
            },
            None => None,
        }
    }

    /// The default configuration on the given ports.
    pub fn on_ports(ports: ServicePorts) -> (r: ServerConfig)
        ensures
            r.http_listen_addr@ == any_interface(ports.http),
            r.rpc_listen_addr@ == any_interface(ports.rpc),
            r.instance_id is None,
            r.kv_server_mgmt_seeds@.len() == 1,
            r.kv_server_mgmt_seeds@[0]@ == "http://127.0.0.1:"@ + decimal(ports.kv_mgmt as nat),
            r.kv_pool_size == 1 && r.kv_rpc_workers == 2,
            r.diskdb_pool_size == 1 && r.diskdb_rpc_workers == 2,
            r.keepalive_interval_secs == 10,
    {
        let mut seed = text("http://127.0.0.1:");
        push_decimal(&mut seed, ports.kv_mgmt as u64);
        let mut seeds: Vec<String> = Vec::new();
        seeds.push(seed);
        ServerConfig {
            http_listen_addr: default_rpc_listen_addr(ports.http),
            rpc_listen_addr: default_rpc_listen_addr(ports.rpc),
            instance_id: None,
            kv_server_mgmt_seeds: seeds,
            kv_pool_size: default_client_pool_size(),
            kv_rpc_workers: default_client_rpc_workers(),
            diskdb_pool_size: default_client_pool_size(),
            diskdb_rpc_workers: default_client_rpc_workers(),
            keepalive_interval_secs: default_keepalive_interval_secs(),
        }
    }
}

/// Top-level configuration of an instance.
#[derive(Debug)]
pub struct ChunkdbConfig {
    pub server: ServerConfig,
    pub topology: TopologyConfig,
    pub range_guard: RangeGuardConfig,
    pub lifecycle: LifecycleConfig,
    pub placement: PlacementConfig,
    pub conversion: ConversionConfig,
    pub repair: RepairConfig,
}

/// Which of the listen addresses are socket addresses.
#[derive(Debug, Clone, Copy, PartialEq, Eq, Structural)]
pub struct AddressCheck {
    pub http: bool,
    pub rpc: bool,
}

/// What a configuration is overridden with at start.
#[derive(Debug)]
pub struct Overrides {
    pub http_addr: Option<String>,
    pub rpc_listen_addr: Option<String>,
    pub http_port: Option<u16>,
    pub rpc_port: Option<u16>,
}

/// Text of an address that is none.
pub open spec fn bad_address(field: Seq<char>, address: Seq<char>) -> Seq<char> {
    field + " "@ + quoted_text(address) + " is not a valid SocketAddr"@
}

/// An address after its overrides: another address, then another port.
pub open spec fn overridden(address: Seq<char>, other: Option<Seq<char>>, port: Option<u16>) -> Seq<char> {
    let address = match other {
        Some(other) => other,
        None => address,
    };
    match port {
        Some(port) => with_port(address, port),
        None => address,
    }
}

/// Content of an optional text.
pub open spec fn content(value: Option<String>) -> Option<Seq<char>> {
    match value {
        Some(value) => Some(value@),
        None => None,
    }
}

fn override_address(address: &String, other: &Option<String>, port: Option<u16>) -> (r: String)
    ensures
        r@ == overridden(address@, content(*other), port),
{
    let address = match other {
        Some(other) => other,
        None => address,
    };
    match port {
        Some(port) => replace_port(address.as_str(), port),
        None => text(address.as_str()),
    }
}

impl ChunkdbConfig {
    /// What is wrong with the configuration, the first fault in the order of the tests.
    pub open spec fn fault(self, addresses: AddressCheck) -> Option<Seq<char>> {
        if self.server.kv_server_mgmt_seeds@.len() == 0 {
            Some("server.kv_server_mgmt_seeds must not be empty"@)
        } else if !addresses.http {
            Some(bad_address("server.http_listen_addr"@, self.server.http_listen_addr@))
        } else if !addresses.rpc {
            Some(bad_address("server.rpc_listen_addr"@, self.server.rpc_listen_addr@))
        } else if self.topology.refresh_interval_secs == 0 {
            Some("topology.refresh_interval_secs must be > 0"@)
        } else if self.server.kv_pool_size == 0 || self.server.kv_rpc_workers == 0
            || self.server.diskdb_pool_size == 0 || self.server.diskdb_rpc_workers == 0 {
            Some("server client pool sizes and RPC workers must be > 0"@)
        } else if self.lifecycle.fault() is Some {
            self.lifecycle.fault()
        } else if self.conversion.fault() is Some {
            self.conversion.fault()
        } else {
            self.repair.fault()
        }
    }

    /// The default configuration on the given ports.
    pub fn on_ports(ports: ServicePorts) -> (r: ChunkdbConfig)
        ensures
            r.server.http_listen_addr@ == any_interface(ports.http),
            r.server.rpc_listen_addr@ == any_interface(ports.rpc),
            r.fault((AddressCheck { http: true, rpc: true })) is None,
            r.lifecycle == LifecycleConfig::spec_default(),
            r.conversion == ConversionConfig::spec_default(),
            r.repair == RepairConfig::spec_default(),
            r.range_guard.allow_all_when_empty && !r.placement.allow_unsafe_ec,
    {
        ChunkdbConfig {
            server: ServerConfig::on_ports(ports),
            topology: TopologyConfig::default(),
            range_guard: RangeGuardConfig::default(),
            lifecycle: LifecycleConfig::default(),
            placement: PlacementConfig::default(),
            conversion: ConversionConfig::default(),
            repair: RepairConfig::default(),
        }
    }

    /// Tests the configuration. Whether the two listen addresses are socket addresses
    /// is given.
    pub fn validate(&self, addresses: AddressCheck) -> (r: Result<(), String>)
        ensures
            fault_of(r) == self.fault(addresses),
    {
        if self.server.kv_server_mgmt_seeds.len() == 0 {
            return Err(text("server.kv_server_mgmt_seeds must not be empty"));
        }
        if !addresses.http {
            return Err(bad_address_text("server.http_listen_addr", &self.server.http_listen_addr));
        }
        if !addresses.rpc {
            return Err(bad_address_text("server.rpc_listen_addr", &self.server.rpc_listen_addr));
        }
        if self.topology.refresh_interval_secs == 0 {
            return Err(text("topology.refresh_interval_secs must be > 0"));
        }
        if self.server.kv_pool_size == 0 || self.server.kv_rpc_workers == 0
            || self.server.diskdb_pool_size == 0 || self.server.diskdb_rpc_workers == 0 {
            return Err(text("server client pool sizes and RPC workers must be > 0"));
        }
        match self.lifecycle.validate() {
            Ok(_) => {},
            Err(message) => {
                return Err(message);
            },
        }
        match self.conversion.validate() {
            Ok(_) => {},
            Err(message) => {
                return Err(message);
            },
        }
        self.repair.validate()
    }

    /// Overrides the listen addresses.
    pub fn apply(&mut self, overrides: &Overrides)
        ensures
            final(self).server.http_listen_addr@ == overridden(
                old(self).server.http_listen_addr@,
                content(overrides.http_addr),
                overrides.http_port,
            ),
            final(self).server.rpc_listen_addr@ == overridden(
                old(self).server.rpc_listen_addr@,
                content(overrides.rpc_listen_addr),
                overrides.rpc_port,
            ),
            *final(self) == (ChunkdbConfig {
                server: ServerConfig {
                    http_listen_addr: final(self).server.http_listen_addr,
                    rpc_listen_addr: final(self).server.rpc_listen_addr,
                    ..old(self).server
                },
                ..*old(self)
            }),
    {
        let http = override_address(
            &self.server.http_listen_addr,
            &overrides.http_addr,
            overrides.http_port,
        );
        let rpc = override_address(
            &self.server.rpc_listen_addr,
            &overrides.rpc_listen_addr,
            overrides.rpc_port,
        );
        self.server.http_listen_addr = http;
        self.server.rpc_listen_addr = rpc;
    }
}

fn bad_address_text(field: &str, address: &String) -> (r: String)
    ensures
        r@ == bad_address(field@, address@),
{
    let mut out = text(field);
    out.append(" ");
    let shown = quoted(address);
    out.append(shown.as_str());
    out.append(" is not a valid SocketAddr");
    out
}

/// Place of the last colon among the first `n` characters.
pub open spec fn last_colon(address: Seq<char>, n: int) -> Option<int>
    decreases n,
{
    if n <= 0 {
        None
    } else if address[n - 1] == ':' {
        Some(n - 1)
    } else {
        last_colon(address, n - 1)
    }
}

/// The address with another port: what stands behind the last colon is replaced;
/// an address without colon becomes one of all interfaces.
pub open spec fn with_port(address: Seq<char>, port: u16) -> Seq<char> {
    match last_colon(address, address.len() as int) {
        Some(at) => address.take(at) + ":"@ + decimal(port as nat),
        None => any_interface(port),
    }
}

proof fn lemma_last_colon(address: Seq<char>, n: int)
    requires
        0 <= n <= address.len(),
    ensures
        last_colon(address, n) matches Some(at) ==> 0 <= at < n && address[at] == ':',
    decreases n,
{
    if n > 0 && address[n - 1] != ':' {
        lemma_last_colon(address, n - 1);
    }
}

/// Replaces the port of an address.
pub fn replace_port(address: &str, port: u16) -> (r: String)
    ensures
        r@ == with_port(address@, port),
{
    let mut n: usize = address.unicode_len();
    while n > 0 && address.get_char(n - 1) != ':'
        invariant
            n <= address@.len(),
            last_colon(address@, address@.len() as int) == last_colon(address@, n as int),
        decreases n,
    {
        n = n - 1;
    }
    if n == 0 {
        return default_rpc_listen_addr(port);
    }
    let mut out = text(address.substring_char(0, n - 1));
    out.append(":");
    push_decimal(&mut out, port as u64);
    out
}

/// Replacing a port twice is replacing it once by the second port.
pub proof fn law_last_port_stays(address: Seq<char>, first: u16, second: u16)
    requires
        last_colon(address, address.len() as int) is Some,
    ensures
        with_port(with_port(address, first), second) == with_port(address, second),
{
    reveal_strlit(":");
    let at = last_colon(address, address.len() as int)->0;
    lemma_last_colon(address, address.len() as int);
    let once = with_port(address, first);
    let digits = decimal(first as nat);
    assert(":"@ =~= seq![':']);
    assert(once =~= address.take(at) + seq![':'] + digits);
    lemma_digits_have_no_colon(first as nat);
    assert forall|k: int| at < k < once.len() implies once[k] != ':' by {
        assert(once[k] == digits[k - at - 1]);
    }
    lemma_colon_found(once, once.len() as int, at);
    assert(once.take(at) =~= address.take(at));
}

proof fn lemma_colon_found(address: Seq<char>, n: int, at: int)
    requires
        0 <= at < n <= address.len(),
        address[at] == ':',
        forall|k: int| at < k < n ==> address[k] != ':',
    ensures
        last_colon(address, n) == Some(at),
    decreases n,
{
    if at < n - 1 {
        lemma_colon_found(address, n - 1, at);
    }
}

proof fn lemma_digits_have_no_colon(n: nat)
    ensures
        forall|k: int| 0 <= k < decimal(n).len() ==> decimal(n)[k] != ':',
    decreases n,
{
    if n >= 10 {
        lemma_digits_have_no_colon(n / 10);
        assert forall|k: int| 0 <= k < decimal(n).len() implies decimal(n)[k] != ':' by {
            if k < decimal(n / 10).len() {
                assert(decimal(n)[k] == decimal(n / 10)[k]);
            }
        }
    }
}

/// The port is what stands behind the last colon of an address: it is replaced, and all
/// that stands before it is kept. An address without a colon becomes that of every
/// interface.
pub proof fn law_port_stands_behind_the_last_colon(address: Seq<char>, port: u16)
    ensures
        forall|at: int|
            0 <= at < address.len() && #[trigger] address[at] == ':' && (forall|k: int|
                at < k < address.len() ==> #[trigger] address[k] != ':') ==> with_port(address, port)
                == address.take(at) + seq![':'] + decimal(port as nat),
        !address.contains(':') ==> with_port(address, port) == "0.0.0.0:"@ + decimal(port as nat),
{
    reveal_strlit(":");
    assert(":"@ =~= seq![':']);
    lemma_last_colon(address, address.len() as int);
    assert forall|at: int|
        0 <= at < address.len() && #[trigger] address[at] == ':' && (forall|k: int|
            at < k < address.len() ==> #[trigger] address[k] != ':') implies with_port(address, port)
        == address.take(at) + seq![':'] + decimal(port as nat) by {
        lemma_colon_found(address, address.len() as int, at);
    }
}

/// An address that is given takes the place of the one so far, and a port that is given
/// that of the port of either; what is not given changes nothing.
pub proof fn law_what_is_given_overrides(
    address: Seq<char>,
    other: Seq<char>,
    port: u16,
)
    ensures
        overridden(address, None, None) == address,
        overridden(address, Some(other), None) == other,
        overridden(address, None, Some(port)) == with_port(address, port),
        overridden(address, Some(other), Some(port)) == with_port(other, port),
{
}

/// A configuration is accepted exactly where it has a seed, both addresses can be read,
/// no interval, pool or limit is zero, the repair memory fits in 32 bits, and a
/// conversion waits for as many strips as it has data blocks at least.
pub proof fn law_sound_configuration_is_accepted(config: ChunkdbConfig, addresses: AddressCheck)
    ensures
        config.fault(addresses) is None <==> {
            &&& config.server.kv_server_mgmt_seeds@.len() > 0
            &&& addresses.http && addresses.rpc
            &&& config.topology.refresh_interval_secs > 0
            &&& config.server.kv_pool_size > 0
            &&& config.server.kv_rpc_workers > 0
            &&& config.server.diskdb_pool_size > 0
            &&& config.server.diskdb_rpc_workers > 0
            &&& config.lifecycle.cache_capacity > 0
            &&& config.lifecycle.sweep_chunk_lock_interval_secs > 0
            &&& config.lifecycle.layout_validity_ms > 0
            &&& config.conversion.data_num > 0
            &&& config.conversion.code_num > 0
            &&& config.conversion.min_mirror_strips >= config.conversion.data_num
            &&& config.conversion.max_concurrency > 0
            &&& config.conversion.max_bandwidth_mbps > 0
            &&& config.conversion.scan_interval_secs > 0
            &&& config.conversion.task_lease_secs > 0
            &&& config.repair.max_concurrency > 0
            &&& 0 < config.repair.memory_bytes <= u32::MAX
            &&& config.repair.scan_interval_secs > 0
        },
{
}

/// The default policies are accepted; the repair runs, the conversion waits to be
/// switched on, and no placement is unsafe.
pub proof fn law_defaults_are_sound()
    ensures
        LifecycleConfig::spec_default().fault() is None,
        ConversionConfig::spec_default().fault() is None,
        RepairConfig::spec_default().fault() is None,
        RepairConfig::spec_default().enabled,
        !RepairConfig::spec_default().allow_unsafe_placement,
        !ConversionConfig::spec_default().enabled,
{
}

} // verus!
