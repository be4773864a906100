use autonomysim::metrics::{
    dbm_to_watts_aw, watts_aw_to_dbm, BERCalculator, LinkBudget, ModulationScheme,
    PERCalculator, SignalMetrics,
};

#[test]
fn test_signal_metrics() {
    let metrics = SignalMetrics::new(-70_000, -100_000, -90_000);

    assert_eq!(metrics.snr_mdb, 30_000);
    assert!(metrics.is_detectable(10_000));
    // SINR is a little below the SNR because interference adds to noise:
    // S/(I+N) with I = -90 dBm, N = -100 dBm is about 19.6 dB.
    assert!(metrics.sinr_mdb < 20_000 && metrics.sinr_mdb > 19_000);
}

#[test]
fn test_ber_bpsk() {
    // At high SNR the BER is very low (below 1e-5).
    let ber_high = BERCalculator::bpsk(20_000);
    assert!(ber_high < 10_000_000);

    // At low SNR the BER approaches one half (above 0.4).
    let ber_low = BERCalculator::bpsk(-10_000);
    assert!(ber_low > 400_000_000_000);
}

#[test]
fn test_per_calculation() {
    // BER of 0.001 over a 1000-bit packet: PER near 1 - 0.999^1000,
    // about 0.63.
    let per = PERCalculator::from_ber(1_000_000_000, 1000);
    assert!(per > 600_000_000_000 && per < 700_000_000_000);
}

#[test]
fn test_dbm_conversion() {
    let power_mdbm = 30_000;
    let power_aw = dbm_to_watts_aw(power_mdbm);
    // 30 dBm is exactly one watt.
    assert_eq!(power_aw, 1_000_000_000_000_000_000);

    let back_mdbm = watts_aw_to_dbm(power_aw);
    assert!((power_mdbm - back_mdbm).abs() <= 10);
}

#[test]
fn test_modulation_bits_per_symbol() {
    assert_eq!(ModulationScheme::BPSK.bits_per_symbol(), 1);
    assert_eq!(ModulationScheme::QPSK.bits_per_symbol(), 2);
    assert_eq!(ModulationScheme::QAM16.bits_per_symbol(), 4);
    assert_eq!(ModulationScheme::QAM64.bits_per_symbol(), 6);
}

#[test]
fn test_power_conversions() {
    // One watt in attowatts converts to 30 dBm and back.
    let watts_aw: u128 = 1_000_000_000_000_000_000;
    let mdbm = watts_aw_to_dbm(watts_aw);
    assert!((mdbm - 30_000).abs() <= 10);

    let converted = dbm_to_watts_aw(mdbm);
    let diff = converted.abs_diff(watts_aw);
    // Within a tenth of a percent of a watt.
    assert!(diff < 2_000_000_000_000_000);
}

#[test]
fn per_edge_values() {
    assert_eq!(PERCalculator::from_ber(0, 1000), 0);
    assert_eq!(PERCalculator::from_ber(1_000_000_000_000, 1000), 1_000_000_000_000);
    // Zero-length packets never fail.
    assert_eq!(PERCalculator::from_ber(1_000_000_000, 0), 0);
    // Small BER: the short-packet product.
    assert_eq!(PERCalculator::from_ber(100, 1000), 100_000);
}

#[test]
fn per_from_sinr_runs_the_chain() {
    let per = PERCalculator::from_sinr(
        10_000,
        ModulationScheme::QPSK,
        20_000_000,
        10_000_000,
        1000,
    );
    assert!(per > 0 && per <= 1_000_000_000_000);
}

#[test]
fn qam_ber_ordering() {
    // Denser constellations fare worse at the same mid-range Eb/N0.
    let e = 9_000;
    let bpsk = BERCalculator::bpsk(e);
    let qam16 = BERCalculator::qam16(e);
    let qam64 = BERCalculator::qam64(e);
    assert!(bpsk < qam16);
    assert!(qam16 < qam64);
}

#[test]
fn test_link_budget() {
    let budget = LinkBudget {
        tx_power_mdbm: 30_000, // 1 W
        tx_gain_mdbi: 10_000,
        rx_gain_mdbi: 10_000,
        path_loss_mdb: 100_000,
        additional_loss_mdb: 5_000,
        noise_figure_mdb: 3_000,
        bandwidth_hz: 20_000_000,
    };

    let rx_power = budget.received_power_mdbm();
    assert_eq!(rx_power, -55_000);

    let snr = budget.snr_mdb();
    assert!(snr > 0);
}

#[test]
fn test_thermal_noise() {
    // About -114 dBm for 1 MHz at room temperature.
    let budget = LinkBudget {
        tx_power_mdbm: 0,
        tx_gain_mdbi: 0,
        rx_gain_mdbi: 0,
        path_loss_mdb: 0,
        additional_loss_mdb: 0,
        noise_figure_mdb: 0,
        bandwidth_hz: 1_000_000,
    };
    let noise = budget.noise_power_mdbm();
    assert!(noise > -115_000 && noise < -113_000);
}
