use autonomysim::network::{LinkQuality, NetworkTopology, Position};
use autonomysim::partition::PartitionDetector;

fn pos(x_m: i64, y_m: i64, z_m: i64) -> Position {
    Position { x_mm: x_m * 1000, y_mm: y_m * 1000, z_mm: z_m * 1000 }
}

#[test]
fn test_network_topology() {
    let mut topology = NetworkTopology::new();

    topology.add_agent(0, pos(0, 0, 0));
    topology.add_agent(1, pos(100, 0, 0));
    topology.add_agent(2, pos(200, 0, 0));

    assert_eq!(topology.agent_count(), 3);

    let quality = LinkQuality { snr_mdb: 20_000, packet_loss_ppm: 10_000, ..Default::default() };

    topology.add_link(0, 1, quality);
    topology.add_link(1, 2, quality);

    assert_eq!(topology.link_count(), 2);

    assert!(topology.is_connected(0, 1));
    assert!(topology.is_connected(0, 2));
}

#[test]
fn test_shortest_path() {
    let mut topology = NetworkTopology::new();

    for i in 0..4 {
        topology.add_agent(i, pos(i as i64 * 100, 0, 0));
    }

    let quality = LinkQuality::default();
    for i in 0..3 {
        topology.add_link(i, i + 1, quality);
        topology.add_link(i + 1, i, quality);
    }

    let path = topology.find_shortest_path(0, 3);
    assert!(path.is_some());
    let path = path.unwrap();
    assert_eq!(path, vec![0, 1, 2, 3]);
}

#[test]
fn test_partition_detection() {
    let mut topology = NetworkTopology::new();

    for i in 0..4 {
        topology.add_agent(i, pos(i as i64 * 100, 0, 0));
    }

    let quality = LinkQuality::default();

    topology.add_link(0, 1, quality);
    topology.add_link(1, 0, quality);

    topology.add_link(2, 3, quality);
    topology.add_link(3, 2, quality);

    let mut detector = PartitionDetector::new(topology);
    detector.detect_partitions();

    assert!(detector.is_partitioned());
    assert_eq!(detector.partition_count(), 2);
}

#[test]
fn test_link_quality_score() {
    let good_link = LinkQuality {
        snr_mdb: 30_000,
        packet_loss_ppm: 0,
        latency_ms: 10,
        ..Default::default()
    };

    let bad_link = LinkQuality {
        snr_mdb: 5_000,
        packet_loss_ppm: 500_000,
        latency_ms: 500,
        ..Default::default()
    };

    assert!(good_link.compute_score() > bad_link.compute_score());
    assert!(good_link.compute_score() > 800_000);
    assert!(bad_link.compute_score() < 500_000);
}

#[test]
fn connected_to_self() {
    let mut topology = NetworkTopology::new();
    topology.add_agent(7, pos(0, 0, 0));
    assert!(topology.is_connected(7, 7));
    assert!(topology.is_connected(42, 42));
}

#[test]
fn one_way_link_is_directed() {
    let mut topology = NetworkTopology::new();
    topology.add_agent(1, pos(0, 0, 0));
    topology.add_agent(2, pos(100, 0, 0));
    topology.add_link(1, 2, LinkQuality::default());

    assert!(topology.is_connected(1, 2));
    assert!(!topology.is_connected(2, 1));
    assert!(!topology.get_neighbors(2).contains(&1));
    assert_eq!(topology.get_neighbors(1), vec![2]);
}

#[test]
fn unusable_links_are_hidden_but_kept() {
    let mut topology = NetworkTopology::new();
    topology.add_agent(1, pos(0, 0, 0));
    topology.add_agent(2, pos(100, 0, 0));
    // Below the default 10 dB minimum SNR.
    let weak = LinkQuality { snr_mdb: 5_000, ..Default::default() };
    topology.add_link(1, 2, weak);

    assert_eq!(topology.link_count(), 1);
    assert!(topology.get_neighbors(1).is_empty());
    assert!(!topology.is_connected(1, 2));
}

#[test]
fn link_expiry_boundary() {
    let mut topology = NetworkTopology::new();
    topology.update_time(1_000);
    topology.add_link(1, 2, LinkQuality::default());

    // Strictly inside the 5 s window: retained.
    topology.update_time(5_999);
    assert_eq!(topology.link_count(), 1);

    // Age equal to the timeout: removed.
    topology.update_time(6_000);
    assert_eq!(topology.link_count(), 0);
}

#[test]
fn connectivity_fraction() {
    let mut topology = NetworkTopology::new();
    assert_eq!(topology.compute_connectivity(), 1_000_000);
    topology.add_agent(1, pos(0, 0, 0));
    assert_eq!(topology.compute_connectivity(), 1_000_000);
    topology.add_agent(2, pos(100, 0, 0));
    assert_eq!(topology.compute_connectivity(), 0);
    topology.add_link(1, 2, LinkQuality::default());
    // One of the two ordered pairs is connected.
    assert_eq!(topology.compute_connectivity(), 500_000);
}

#[test]
fn shortest_path_prefers_better_links() {
    let mut topology = NetworkTopology::new();
    for i in 0..3 {
        topology.add_agent(i, pos(i as i64 * 100, 0, 0));
    }
    // Direct link 0 -> 2 with the worst usable score (about 0.44, cost
    // about 2.3), against a two-hop detour over perfect links (cost 2):
    // the detour is cheaper.
    let poor = LinkQuality {
        snr_mdb: 10_000,
        packet_loss_ppm: 100_000,
        latency_ms: 1_000,
        ..Default::default()
    };
    let excellent = LinkQuality { snr_mdb: 30_000, latency_ms: 0, ..Default::default() };
    topology.add_link(0, 2, poor);
    topology.add_link(0, 1, excellent);
    topology.add_link(1, 2, excellent);

    let path = topology.find_shortest_path(0, 2).unwrap();
    assert_eq!(path, vec![0, 1, 2]);
}

#[test]
fn removed_agent_cascades_links() {
    let mut topology = NetworkTopology::new();
    for i in 0..3 {
        topology.add_agent(i, pos(0, 0, 0));
    }
    topology.add_link(0, 1, LinkQuality::default());
    topology.add_link(1, 2, LinkQuality::default());
    topology.add_link(2, 0, LinkQuality::default());
    topology.remove_agent(1);
    assert_eq!(topology.agent_count(), 2);
    assert_eq!(topology.link_count(), 1);
    assert!(topology.get_link(2, 0).is_some());
    assert!(topology.get_link(0, 1).is_none());
}

#[test]
fn partition_queries() {
    let mut topology = NetworkTopology::new();
    for i in 0..5 {
        topology.add_agent(i, pos(i as i64, 0, 0));
    }
    let q = LinkQuality::default();
    topology.add_link(0, 1, q);
    topology.add_link(1, 0, q);
    topology.add_link(2, 3, q);
    topology.add_link(3, 2, q);
    topology.add_link(3, 4, q);
    topology.add_link(4, 3, q);

    let mut detector = PartitionDetector::new(topology);
    detector.detect_partitions();

    assert_eq!(detector.partition_count(), 2);
    let largest = detector.largest_partition().unwrap();
    assert_eq!(largest.len(), 3);
    let p0 = detector.get_partition(0).unwrap();
    assert_eq!(p0.len(), 2);
    assert!(p0.contains(&0) && p0.contains(&1));
    assert!(detector.get_partition(99).is_none());
}

#[test]
fn positions_are_stored_and_updated() {
    let mut topology = NetworkTopology::new();
    topology.add_agent(1, pos(10, 20, 30));
    assert_eq!(topology.get_position(1), Some(pos(10, 20, 30)));
    assert_eq!(topology.get_position(2), None);

    // Upsert refreshes the position without touching other agents.
    topology.add_agent(2, pos(5, 5, 5));
    topology.add_agent(1, pos(11, 21, 31));
    assert_eq!(topology.get_position(1), Some(pos(11, 21, 31)));
    assert_eq!(topology.get_position(2), Some(pos(5, 5, 5)));

    // Removal keeps the survivors' positions.
    topology.remove_agent(1);
    assert_eq!(topology.get_position(1), None);
    assert_eq!(topology.get_position(2), Some(pos(5, 5, 5)));
}
