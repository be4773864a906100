use autonomysim::jamming::{JammingConfig, JammingModel, JammingType};
use autonomysim::network::Position;

fn pos_m(x_m: i64, y_m: i64, z_m: i64) -> Position {
    Position { x_mm: x_m * 1000, y_mm: y_m * 1000, z_mm: z_m * 1000 }
}

#[test]
fn test_barrage_jamming() {
    let config = JammingConfig {
        jammer_position: pos_m(0, 0, 100),
        jammer_power_mdbm: 50_000, // 100 W
        jamming_type: JammingType::Barrage,
        center_frequency_hz: 2_400_000_000,
        bandwidth_hz: 20_000_000,
        ..Default::default()
    };

    let jammer = JammingModel::new(config);

    let target = pos_m(1000, 0, 50);
    let jamming_power = jammer.compute_jamming_power(target);

    assert!(jamming_power < 50_000);
    assert!(jamming_power > -100_000);
}

#[test]
fn test_jsr_calculation() {
    let config = JammingConfig::default();
    let jammer = JammingModel::new(config);

    let signal_mdbm = -70_000;
    let jamming_mdbm = -60_000;
    let jsr = jammer.compute_jamming_to_signal_ratio(signal_mdbm, jamming_mdbm);

    assert_eq!(jsr, 10_000);
}

#[test]
fn test_effective_jamming() {
    let config = JammingConfig {
        jammer_position: pos_m(0, 0, 0),
        jammer_power_mdbm: 40_000,
        jamming_type: JammingType::Follower { tracking_time_ms: 100 },
        ..Default::default()
    };

    let jammer = JammingModel::new(config);

    let target = pos_m(100, 0, 10);
    let signal_mdbm = -80_000;

    assert!(jammer.is_effective(signal_mdbm, target));
}

#[test]
fn test_throughput_reduction() {
    let config = JammingConfig {
        jammer_position: pos_m(0, 0, 0),
        jammer_power_mdbm: 30_000,
        ..Default::default()
    };

    let jammer = JammingModel::new(config);
    let target = pos_m(500, 0, 50);
    let signal_mdbm = -70_000;
    let noise_mdbm = -100_000;

    let throughput = jammer.compute_throughput_reduction(signal_mdbm, target, noise_mdbm);

    assert!(throughput < 1_000_000);
    assert!(throughput > 0);
}

#[test]
fn test_packet_error_rate() {
    let config = JammingConfig {
        jammer_position: pos_m(0, 0, 0),
        jammer_power_mdbm: 40_000,
        ..Default::default()
    };

    let jammer = JammingModel::new(config);
    let target = pos_m(1000, 0, 50);
    let signal_mdbm = -70_000;
    let noise_mdbm = -100_000;
    let packet_length = 1000;

    let per = jammer.compute_packet_error_rate(signal_mdbm, target, noise_mdbm, packet_length);

    assert!(per > 0);
    assert!(per <= 1_000_000_000_000);
}

#[test]
fn barrage_power_stays_below_transmit_level() {
    // A 100 W (50 dBm) barrage jammer with 20 MHz bandwidth at 1 km:
    // path loss plus the barrage processing-gain loss must leave the
    // received power strictly below transmit power plus antenna gain.
    let config = JammingConfig {
        jammer_power_mdbm: 50_000,
        jamming_type: JammingType::Barrage,
        bandwidth_hz: 20_000_000,
        ..Default::default()
    };
    let jammer = JammingModel::new(config);
    let received = jammer.compute_jamming_power(pos_m(1000, 0, 0));
    assert!(received < config.jammer_power_mdbm + config.antenna_gain_mdbi);
}

#[test]
fn effectiveness_threshold_is_strict() {
    let jammer = JammingModel::new(JammingConfig::default());
    let target = pos_m(200, 0, 50);
    let jam = jammer.compute_jamming_power(target);

    // J/S exactly 10 dB: not effective; a hair above: effective.
    assert!(!jammer.is_effective(jam - 10_000, target));
    assert!(jammer.is_effective(jam - 10_001, target));
}

#[test]
fn per_grows_with_jamming_power() {
    let target = pos_m(600, 0, 50);
    let signal_mdbm = -70_000;
    let noise_mdbm = -100_000;
    let mut last = 0u64;
    for power in [0i64, 20_000, 30_000, 40_000, 60_000] {
        let config = JammingConfig { jammer_power_mdbm: power, ..Default::default() };
        let jammer = JammingModel::new(config);
        let per = jammer.compute_packet_error_rate(signal_mdbm, target, noise_mdbm, 1000);
        assert!(per >= last);
        last = per;
    }
}

#[test]
fn near_field_clamps_to_transmit_level() {
    let jammer = JammingModel::new(JammingConfig::default());
    // Half a metre away: inside the near-field clamp.
    let target = Position { x_mm: 500, y_mm: 0, z_mm: 0 };
    let received = jammer.compute_jamming_power(target);
    assert_eq!(received, 40_000 + 10_000);
}

#[test]
fn deception_and_follower_adjustments() {
    let target = pos_m(300, 0, 50);
    let base = JammingConfig { jamming_type: JammingType::Follower { tracking_time_ms: 50 }, ..Default::default() };
    let follower = JammingModel::new(base).compute_jamming_power(target);
    let deception = JammingModel::new(JammingConfig {
        jamming_type: JammingType::Deception { delay_ms: 5 },
        ..Default::default()
    })
    .compute_jamming_power(target);
    // Deception gains +10 dB where the follower gains +3 dB.
    assert_eq!(deception - follower, 7_000);
}
