//! Configuration of the peer monitoring service and of its sub-monitors.

use vstd::prelude::*;

verus! {

/// The interval (ms) between latency pings, their timeout, how many failures a
/// peer tolerates, and how many pings are retained per peer.
#[derive(Clone, Debug, PartialEq, Eq, Structural)]
pub struct LatencyMonitoringConfig {
    /// The interval (ms) between latency pings for each peer
    pub latency_ping_interval_ms: u64,
    /// The timeout (ms) for each latency ping
    pub latency_ping_timeout_ms: u64,
    /// Max ping failures before the peer connection fails
    pub max_latency_ping_failures: u64,
    /// The max latency pings to retain per peer
    pub max_num_latency_pings_to_retain: usize,
}

impl LatencyMonitoringConfig {
    /// The values that `default` gives.
    pub open spec fn spec_default() -> Self {
        LatencyMonitoringConfig {
            latency_ping_interval_ms: 30_000,
            latency_ping_timeout_ms: 20_000,
            max_latency_ping_failures: 3,
            max_num_latency_pings_to_retain: 10,
        }
    }
}

impl Default for LatencyMonitoringConfig {
    fn default() -> (config: Self)
        ensures
            config == Self::spec_default(),
    {
        LatencyMonitoringConfig {
            latency_ping_interval_ms: 30_000,  // 30 seconds
            latency_ping_timeout_ms: 20_000,  // 20 seconds
            max_latency_ping_failures: 3,
            max_num_latency_pings_to_retain: 10,
        }
    }
}


/// The interval (ms) between network info requests and their timeout.
#[derive(Clone, Debug, PartialEq, Eq, Structural)]
pub struct NetworkMonitoringConfig {
    /// The interval (ms) between network info requests
    pub network_info_request_interval_ms: u64,
    /// The timeout (ms) for each network info request
    pub network_info_request_timeout_ms: u64,
}

impl NetworkMonitoringConfig {
    /// The values that `default` gives.
    pub open spec fn spec_default() -> Self {
        NetworkMonitoringConfig {
            network_info_request_interval_ms: 60_000,
            network_info_request_timeout_ms: 10_000,
        }
    }
}

impl Default for NetworkMonitoringConfig {
    fn default() -> (config: Self)
        ensures
            config == Self::spec_default(),
    {
        NetworkMonitoringConfig {
            network_info_request_interval_ms: 60_000,  // 1 minute
            network_info_request_timeout_ms: 10_000,  // 10 seconds
        }
    }
}

/// The interval (ms) between node info requests and their timeout.
#[derive(Clone, Debug, PartialEq, Eq, Structural)]
pub struct NodeMonitoringConfig {
    /// The interval (ms) between node info requests
    pub node_info_request_interval_ms: u64,
    /// The timeout (ms) for each node info request
    pub node_info_request_timeout_ms: u64,
}

impl NodeMonitoringConfig {
    /// The values that `default` gives.
    pub open spec fn spec_default() -> Self {
        NodeMonitoringConfig {
            node_info_request_interval_ms: 20_000,
            node_info_request_timeout_ms: 10_000,
        }
    }
}

impl Default for NodeMonitoringConfig {
    fn default() -> (config: Self)
        ensures
            config == Self::spec_default(),
    {
        NodeMonitoringConfig {
            node_info_request_interval_ms: 20_000,  // 20 seconds
            node_info_request_timeout_ms: 10_000,  // 10 seconds
        }
    }
}

/// Settings of the network performance test mode (direct sends and RPCs).
/// The service configuration carries it only in builds made for network
/// performance testing; by default that monitoring is disabled.
#[derive(Clone, Debug, PartialEq, Eq, Structural)]
pub struct PerformanceMonitoringConfig {
    /// Whether or not to enable direct send test mode
    pub enable_direct_send_testing: bool,
    /// The size of the data to send in each direct send request
    pub direct_send_data_size: u64,
    /// The interval (microseconds) between direct send requests
    pub direct_send_interval_usec: u64,
    /// Whether or not to enable RPC test mode
    pub enable_rpc_testing: bool,
    /// The size of the data to send in each RPC request
    pub rpc_data_size: u64,
    /// The interval (microseconds) between RPC requests
    pub rpc_interval_usec: u64,
    /// The timeout (ms) for each RPC request
    pub rpc_timeout_ms: u64,
}

impl PerformanceMonitoringConfig {
    /// The values that `default` gives.
    pub open spec fn spec_default() -> Self {
        PerformanceMonitoringConfig {
            enable_direct_send_testing: false,
            direct_send_data_size: 524_288,
            direct_send_interval_usec: 1000,
            enable_rpc_testing: true,
            rpc_data_size: 524_288,
            rpc_interval_usec: 1000,
            rpc_timeout_ms: 10_000,
        }
    }
}

impl Default for PerformanceMonitoringConfig {
    fn default() -> (config: Self)
        ensures
            config == Self::spec_default(),
    {
        PerformanceMonitoringConfig {
            enable_direct_send_testing: false,  // Disable direct send test mode
            direct_send_data_size: 512 * 1024,  // 512 KB
            direct_send_interval_usec: 1000,  // 1000 microseconds
            enable_rpc_testing: true,  // Enable RPC test mode
            rpc_data_size: 512 * 1024,  // 512 KB
            rpc_interval_usec: 1000,  // 1000 microseconds
            rpc_timeout_ms: 10_000,  // 10 seconds
        }
    }
}

/// Configuration of the peer monitoring service: the client switch, the
/// server limits, the intervals, and the configuration of each monitor.
#[derive(Clone, Debug, PartialEq, Eq, Structural)]
pub struct PeerMonitoringServiceConfig {
    /// Whether or not to spawn the monitoring client
    pub enable_peer_monitoring_client: bool,
    pub latency_monitoring: LatencyMonitoringConfig,
    /// Max num of concurrent server tasks
    pub max_concurrent_requests: u64,
    /// Max num of pending network messages
    pub max_network_channel_size: u64,
    /// Max amount of jitter (ms) that a request will be delayed for
    pub max_request_jitter_ms: u64,
    /// The interval (ms) between metadata updates
    pub metadata_update_interval_ms: u64,
    pub network_monitoring: NetworkMonitoringConfig,
    pub node_monitoring: NodeMonitoringConfig,
    /// The interval (ms) between peer monitor executions
    pub peer_monitor_interval_ms: u64,
}

impl PeerMonitoringServiceConfig {
    /// The values that `default` gives.
    pub open spec fn spec_default() -> Self {
        PeerMonitoringServiceConfig {
            enable_peer_monitoring_client: false,
            latency_monitoring: LatencyMonitoringConfig::spec_default(),
            max_concurrent_requests: 1000,
            max_network_channel_size: 1000,
            max_request_jitter_ms: 1000,
            metadata_update_interval_ms: 5000,
            network_monitoring: NetworkMonitoringConfig::spec_default(),
            node_monitoring: NodeMonitoringConfig::spec_default(),
            peer_monitor_interval_ms: 1000,
        }
    }
}

impl Default for PeerMonitoringServiceConfig {
    fn default() -> (config: Self)
        ensures
            config == Self::spec_default(),
    {
        PeerMonitoringServiceConfig {
            enable_peer_monitoring_client: false,
            latency_monitoring: LatencyMonitoringConfig::default(),
            max_concurrent_requests: 1000,
            max_network_channel_size: 1000,
            max_request_jitter_ms: 1000,  // Monitoring requests are very infrequent
            metadata_update_interval_ms: 5000,
            network_monitoring: NetworkMonitoringConfig::default(),
            node_monitoring: NodeMonitoringConfig::default(),
            peer_monitor_interval_ms: 1000,
        }
    }
}

} // verus!
