use caravan::network::NodeDiscoveryInfo;
use caravan::status::{latency_report, SwarmStatus};

#[test]
fn a_fresh_status_is_offline() {
    let st = SwarmStatus::new(None);
    assert_eq!(st.model_name, "Caravan Swarm Model");
    assert_eq!(st.ttft_ms, 0);
    assert_eq!(st.latency_report, "Awaiting generation...");
    assert!(st.nodes.is_empty());
    assert!(!st.connected);
    assert_eq!(SwarmStatus::new(Some("Llama".to_string())).model_name, "Llama");
}

#[test]
fn a_lost_swarm_has_no_nodes() {
    let mut st = SwarmStatus::new(None);
    st.go_online(vec![NodeDiscoveryInfo {
        addr: "a".to_string(),
        layers: "0-1".to_string(),
        is_final: true,
        role: "r".to_string(),
    }]);
    assert!(st.connected);
    assert_eq!(st.nodes[0].addr, "a");
    st.go_offline();
    assert!(!st.connected);
    assert!(st.nodes.is_empty());
}

#[test]
fn times_are_noted() {
    let mut st = SwarmStatus::new(None);
    assert_eq!(st.first_token_after(250), 250);
    assert_eq!(st.ttft_ms, 250);
    assert_eq!(st.first_token_after(0x1_0000_0003), 3);
    assert_eq!(st.ttft_ms, 3);
    st.token_took(250, "41.7");
    assert_eq!(st.latency_report, "Prefill: 250ms | Token: 41.7ms");
    assert_eq!(latency_report(0, "0.0"), "Prefill: 0ms | Token: 0.0ms");
}
