use aptosdb::peer_monitoring_config::{
    LatencyMonitoringConfig, NetworkMonitoringConfig, NodeMonitoringConfig,
    PeerMonitoringServiceConfig, PerformanceMonitoringConfig,
};

#[test]
fn latency_monitoring_defaults() {
    let config = LatencyMonitoringConfig::default();
    assert_eq!(config.latency_ping_interval_ms, 30_000);
    assert_eq!(config.latency_ping_timeout_ms, 20_000);
    assert_eq!(config.max_latency_ping_failures, 3);
    assert_eq!(config.max_num_latency_pings_to_retain, 10);
}

#[test]
fn network_monitoring_defaults() {
    let config = NetworkMonitoringConfig::default();
    assert_eq!(config.network_info_request_interval_ms, 60_000);
    assert_eq!(config.network_info_request_timeout_ms, 10_000);
}

#[test]
fn node_monitoring_defaults() {
    let config = NodeMonitoringConfig::default();
    assert_eq!(config.node_info_request_interval_ms, 20_000);
    assert_eq!(config.node_info_request_timeout_ms, 10_000);
}

#[test]
fn performance_monitoring_defaults() {
    let config = PerformanceMonitoringConfig::default();
    assert!(!config.enable_direct_send_testing);
    assert_eq!(config.direct_send_data_size, 512 * 1024);
    assert_eq!(config.direct_send_interval_usec, 1000);
    assert!(config.enable_rpc_testing);
    assert_eq!(config.rpc_data_size, 512 * 1024);
    assert_eq!(config.rpc_interval_usec, 1000);
    assert_eq!(config.rpc_timeout_ms, 10_000);
}

#[test]
fn peer_monitoring_service_defaults() {
    let config = PeerMonitoringServiceConfig::default();
    assert!(!config.enable_peer_monitoring_client);
    assert_eq!(config.latency_monitoring, LatencyMonitoringConfig::default());
    assert_eq!(config.max_concurrent_requests, 1000);
    assert_eq!(config.max_network_channel_size, 1000);
    assert_eq!(config.max_request_jitter_ms, 1000);
    assert_eq!(config.metadata_update_interval_ms, 5000);
    assert_eq!(config.network_monitoring, NetworkMonitoringConfig::default());
    assert_eq!(config.node_monitoring, NodeMonitoringConfig::default());
    assert_eq!(config.peer_monitor_interval_ms, 1000);
}

#[test]
fn peer_monitoring_service_config_compares_by_fields() {
    let mut config = PeerMonitoringServiceConfig::default();
    assert_eq!(config.clone(), PeerMonitoringServiceConfig::default());
    config.latency_monitoring.max_latency_ping_failures = 4;
    assert_ne!(config, PeerMonitoringServiceConfig::default());
}
