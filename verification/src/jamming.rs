//! Electronic-warfare jamming model.
//!
//! Converts a jammer configuration and a target position into received
//! jamming power, jamming-to-signal ratio, throughput reduction and
//! packet error rate.  All quantities are scaled integers: positions in
//! millimetres, decibel values in milli-dB, ratios in parts per million
//! or per trillion.

use vstd::prelude::*;

use crate::network::Position;
use crate::numeric::{
    ber_pt, ber_pt_spec, dbm_to_attowatts, dbm_to_aw_spec, is_sqrt, isqrt_u128, log10_milli,
    log10_milli_spec, log2_milli, log2_milli_spec, pow_frac_pt, pow_frac_pt_spec, sqrt_spec,
};
use crate::units::{clamp_i64, clamp_spec};

verus! {

/// J/S above which communication is completely denied, in milli-dB.
pub const COMPLETE_DENIAL_MDB: i64 = 10_000;

/// J/S above which degradation is severe (under a tenth of throughput).
pub const SEVERE_DEGRADATION_MDB: i64 = 6_000;

/// J/S above which degradation is moderate (about half throughput).
pub const MODERATE_DEGRADATION_MDB: i64 = 3_000;

/// J/S above which operation is marginal, with increased errors.
pub const MARGINAL_MDB: i64 = 0;

/// Jamming technique.  Each variant contributes a distinct power
/// adjustment to the received jamming power.
#[derive(Debug, Clone, Copy, PartialEq, Eq, Structural)]
pub enum JammingType {
    /// Wideband noise over the whole bandwidth.
    Barrage,
    /// Tracks and jams one frequency; `tracking_time_ms` is the tracking
    /// time constant.
    Follower { tracking_time_ms: i64 },
    /// Periodic frequency sweep at `sweep_rate_hz_per_s`, one sweep per
    /// `sweep_period_ms`.
    Swept { sweep_rate_hz_per_s: u64, sweep_period_ms: u64 },
    /// High-power pulses at `prf_hz` with width `pulse_width_us` and
    /// peak level `peak_power_mdbm`.
    Pulse { prf_hz: u64, pulse_width_us: u64, peak_power_mdbm: i64 },
    /// Mimics legitimate signals after `delay_ms`.
    Deception { delay_ms: i64 },
}

/// Jammer configuration.
#[derive(Debug, Clone, Copy, PartialEq, Eq, Structural)]
pub struct JammingConfig {
    pub jammer_position: Position,
    pub jammer_power_mdbm: i64,
    pub jamming_type: JammingType,
    pub center_frequency_hz: u64,
    pub bandwidth_hz: u64,
    pub antenna_gain_mdbi: i64,
    pub polarization_loss_mdb: i64,
    pub atmospheric_loss_mdb_per_km: i64,
    pub enable_terrain_masking: bool,
}

/// Machine-limit bounds under which the fixed-point formulas cannot
/// overflow: decibel fields within one million milli-dB, frequencies
/// positive and at most a terahertz, positions within a million
/// kilometres, pulse parameters bounded.
pub open spec fn config_wf(c: JammingConfig) -> bool {
    &&& -1_000_000 <= c.jammer_power_mdbm <= 1_000_000
    &&& -1_000_000 <= c.antenna_gain_mdbi <= 1_000_000
    &&& -1_000_000 <= c.polarization_loss_mdb <= 1_000_000
    &&& 0 <= c.atmospheric_loss_mdb_per_km <= 1_000_000
    &&& 1 <= c.center_frequency_hz <= 1_000_000_000_000
    &&& 1 <= c.bandwidth_hz <= 1_000_000_000_000
    &&& position_wf(c.jammer_position)
    &&& match c.jamming_type {
        JammingType::Barrage => true,
        JammingType::Follower { tracking_time_ms } => 0 <= tracking_time_ms,
        JammingType::Swept { sweep_rate_hz_per_s, sweep_period_ms } => sweep_rate_hz_per_s
            <= 1_000_000_000_000 && sweep_period_ms <= 1_000_000_000,
        JammingType::Pulse { prf_hz, pulse_width_us, peak_power_mdbm } => prf_hz
            <= 1_000_000_000 && pulse_width_us <= 1_000_000_000 && -1_000_000
            <= peak_power_mdbm <= 1_000_000,
        JammingType::Deception { delay_ms } => 0 <= delay_ms,
    }
}

/// Coordinates within a million kilometres of the origin.
pub open spec fn position_wf(p: Position) -> bool {
    &&& -1_000_000_000_000 <= p.x_mm <= 1_000_000_000_000
    &&& -1_000_000_000_000 <= p.y_mm <= 1_000_000_000_000
    &&& -1_000_000_000_000 <= p.z_mm <= 1_000_000_000_000
}

impl Default for JammingConfig {
    /// A nominal 10 W barrage jammer at the origin: 2.4 GHz centre,
    /// 20 MHz bandwidth, 10 dBi gain, 3 dB polarization loss,
    /// 0.1 dB/km atmospheric loss, terrain masking on.
    fn default() -> (r: Self)
        ensures
            r.jammer_power_mdbm == 40_000,
            r.jamming_type == JammingType::Barrage,
            r.center_frequency_hz == 2_400_000_000,
            r.bandwidth_hz == 20_000_000,
            r.antenna_gain_mdbi == 10_000,
            r.polarization_loss_mdb == 3_000,
            r.atmospheric_loss_mdb_per_km == 100,
            r.enable_terrain_masking,
            r.jammer_position == (Position { x_mm: 0, y_mm: 0, z_mm: 0 }),
            config_wf(r),
    {
        JammingConfig {
            jammer_position: Position { x_mm: 0, y_mm: 0, z_mm: 0 },
            jammer_power_mdbm: 40_000,
            jamming_type: JammingType::Barrage,
            center_frequency_hz: 2_400_000_000,
            bandwidth_hz: 20_000_000,
            antenna_gain_mdbi: 10_000,
            polarization_loss_mdb: 3_000,
            atmospheric_loss_mdb_per_km: 100,
            enable_terrain_masking: true,
        }
    }
}

/// Squared distance between two positions, in square millimetres.
pub open spec fn dist2_spec(a: Position, b: Position) -> int {
    (a.x_mm - b.x_mm) * (a.x_mm - b.x_mm) + (a.y_mm - b.y_mm) * (a.y_mm - b.y_mm) + (a.z_mm
        - b.z_mm) * (a.z_mm - b.z_mm)
}

/// Free-space path loss in milli-dB for a distance in millimetres and a
/// frequency in hertz: `20 log10(4 pi d f / c)`.
pub open spec fn fspl_spec(d_mm: int, freq_hz: int) -> int {
    let num0 = 12_566_370_614 * d_mm * freq_hz;
    if num0 >= 0x400_0000_0000_0000_0000_0000 {
        20 * log10_milli_spec(num0 / 1_000_000_000, 299_792_458_000)
    } else {
        20 * log10_milli_spec(num0, 299_792_458_000_000_000_000)
    }
}

/// The technique-specific power adjustment, in milli-dB.
pub open spec fn type_gain_spec(c: JammingConfig) -> int {
    match c.jamming_type {
        JammingType::Barrage => {
            let processing = 10 * log10_milli_spec(c.bandwidth_hz as int, 1_000_000);
            -(if processing <= 20_000 {
                processing
            } else {
                20_000
            })
        },
        JammingType::Follower { .. } => 3_000,
        JammingType::Swept { sweep_period_ms, .. } => {
            let duty_ppm = clamp_spec(
                10_000 * c.bandwidth_hz * sweep_period_ms / (c.center_frequency_hz as int),
                10_000,
                1_000_000,
            );
            10 * log10_milli_spec(duty_ppm, 1_000_000)
        },
        JammingType::Pulse { prf_hz, pulse_width_us, peak_power_mdbm } => {
            let duty_ppm = clamp_spec(prf_hz * pulse_width_us, 1_000, 1_000_000);
            let peak_term = if peak_power_mdbm >= c.jammer_power_mdbm {
                (peak_power_mdbm - c.jammer_power_mdbm) * duty_ppm / 1_000_000
            } else {
                -((c.jammer_power_mdbm - peak_power_mdbm) * duty_ppm / 1_000_000)
            };
            10 * log10_milli_spec(duty_ppm, 1_000_000) + peak_term
        },
        JammingType::Deception { .. } => 10_000,
    }
}

/// Received jamming power at the target, in milli-dBm: transmit power
/// plus gain, less free-space, atmospheric and polarization losses,
/// plus the technique adjustment; clamped to the transmit level inside
/// one metre, and 10 dB worse when terrain masking applies with both
/// ends below ten metres altitude.
pub open spec fn jam_power_spec(c: JammingConfig, target: Position) -> int {
    let d2 = dist2_spec(target, c.jammer_position);
    if d2 < 1_000_000 {
        c.jammer_power_mdbm + c.antenna_gain_mdbi
    } else {
        let d = sqrt_spec(d2);
        let base = c.jammer_power_mdbm + c.antenna_gain_mdbi - fspl_spec(
            d,
            c.center_frequency_hz as int,
        ) - c.atmospheric_loss_mdb_per_km * d / 1_000_000 - c.polarization_loss_mdb
            + type_gain_spec(c);
        if c.enable_terrain_masking && -10_000 < c.jammer_position.z_mm < 10_000 && -10_000
            < target.z_mm < 10_000 {
            base - 10_000
        } else {
            base
        }
    }
}

/// Jamming model: a configuration plus the current time used by
/// time-varying techniques.
pub struct JammingModel {
    pub config: JammingConfig,
    pub current_time_ms: i64,
}

impl JammingModel {
    /// A model over the given configuration at time zero.
    pub fn new(config: JammingConfig) -> (r: Self)
        ensures
            r.config == config,
            r.current_time_ms == 0,
    {
        JammingModel { config, current_time_ms: 0 }
    }

    /// Advance the clock used by the time-varying techniques.
    pub fn update_time(&mut self, time_ms: i64)
        ensures
            final(self).current_time_ms == time_ms,
            final(self).config == old(self).config,
    {
        self.current_time_ms = time_ms;
    }

    /// The current configuration.
    pub fn config(&self) -> (r: JammingConfig)
        ensures
            r == self.config,
    {
        self.config
    }

    /// Replace the configuration.
    pub fn set_config(&mut self, config: JammingConfig)
        ensures
            final(self).config == config,
            final(self).current_time_ms == old(self).current_time_ms,
    {
        self.config = config;
    }

    /// Received jamming power at `target`, in milli-dBm.
    pub fn compute_jamming_power(&self, target: Position) -> (r: i64)
        requires
            config_wf(self.config),
            position_wf(target),
        ensures
            r == jam_power_spec(self.config, target),
            -8_000_000_000_000 <= r <= 8_000_000_000_000,
    {
        let c = &self.config;
        let dx: i64 = target.x_mm - c.jammer_position.x_mm;
        let dy: i64 = target.y_mm - c.jammer_position.y_mm;
        let dz: i64 = target.z_mm - c.jammer_position.z_mm;
        proof {
            let xx: int = dx as int;
            let yy: int = dy as int;
            let zz: int = dz as int;
            assert(0 <= xx * xx <= 4_000_000_000_000_000_000_000_000) by (nonlinear_arith)
                requires -2_000_000_000_000 <= xx <= 2_000_000_000_000;
            assert(0 <= yy * yy <= 4_000_000_000_000_000_000_000_000) by (nonlinear_arith)
                requires -2_000_000_000_000 <= yy <= 2_000_000_000_000;
            assert(0 <= zz * zz <= 4_000_000_000_000_000_000_000_000) by (nonlinear_arith)
                requires -2_000_000_000_000 <= zz <= 2_000_000_000_000;
        }
        let d2: u128 = (dx as i128 * dx as i128 + dy as i128 * dy as i128 + dz as i128
            * dz as i128) as u128;
        proof {
            assert(d2 as int == dist2_spec(target, c.jammer_position));
        }
        if d2 < 1_000_000 {
            return c.jammer_power_mdbm + c.antenna_gain_mdbi;
        }
        let d: u128 = isqrt_u128(d2);
        proof {
            let di: int = d as int;
            assert(di * di <= d2 as int);
            assert(di <= 4_000_000_000_000) by (nonlinear_arith)
                requires
                    di * di <= 12_000_000_000_000_000_000_000_000,
                    0 <= di,
            ;
            assert(di >= 1000) by (nonlinear_arith)
                requires (d2 as int) < (di + 1) * (di + 1), 1_000_000 <= d2 as int, 0 <= di;
        }
        let fspl: i64 = self.fspl_mdb(d);
        proof {
            let a: int = c.atmospheric_loss_mdb_per_km as int;
            let di: int = d as int;
            assert(0 <= a * di <= 4_000_000_000_000_000_000) by (nonlinear_arith)
                requires 0 <= a <= 1_000_000, 0 <= di <= 4_000_000_000_000;
            vstd::arithmetic::div_mod::lemma_div_pos_is_pos(a * di, 1_000_000);
            vstd::arithmetic::div_mod::lemma_div_is_ordered(
                a * di,
                4_000_000_000_000_000_000,
                1_000_000,
            );
        }
        let atm: i64 = ((c.atmospheric_loss_mdb_per_km as i128 * d as i128)
            / 1_000_000) as i64;
        let adj: i64 = self.type_gain_mdb();
        let mut r: i64 = c.jammer_power_mdbm + c.antenna_gain_mdbi - fspl - atm
            - c.polarization_loss_mdb + adj;
        if c.enable_terrain_masking && -10_000 < c.jammer_position.z_mm
            && c.jammer_position.z_mm < 10_000 && -10_000 < target.z_mm && target.z_mm < 10_000 {
            r = r - 10_000;
        }
        proof {
            assert(d as int == sqrt_spec(d2 as int)) by {
                assert(is_sqrt(d2 as int, d as int));
            }
        }
        r
    }

    /// Free-space path loss to a target `d_mm` millimetres away.
    fn fspl_mdb(&self, d_mm: u128) -> (r: i64)
        requires
            config_wf(self.config),
            1 <= d_mm <= 4_000_000_000_000,
        ensures
            r == fspl_spec(d_mm as int, self.config.center_frequency_hz as int),
            -800_000 <= r <= 800_000,
    {
        proof {
            let f: int = self.config.center_frequency_hz as int;
            let di: int = d_mm as int;
            assert(12_566_370_614 * di >= 1 && 12_566_370_614 * di
                <= 51_000_000_000_000_000_000_000) by (nonlinear_arith)
                requires 1 <= di <= 4_000_000_000_000;
            assert(12_566_370_614 * di * f >= 1 && 12_566_370_614 * di * f
                <= 51_000_000_000_000_000_000_000_000_000_000_000) by (nonlinear_arith)
                requires
                    1 <= 12_566_370_614 * di <= 51_000_000_000_000_000_000_000,
                    1 <= f <= 1_000_000_000_000,
            ;
        }
        let num0: u128 = 12_566_370_614u128 * d_mm * (self.config.center_frequency_hz as u128);
        if num0 >= 0x400_0000_0000_0000_0000_0000 {
            proof {
                vstd::arithmetic::div_mod::lemma_div_is_ordered(
                    0x400_0000_0000_0000_0000_0000,
                    num0 as int,
                    1_000_000_000,
                );
                vstd::arithmetic::div_mod::lemma_div_is_ordered(
                    num0 as int,
                    51_000_000_000_000_000_000_000_000_000_000_000,
                    1_000_000_000,
                );
            }
            let num: u128 = num0 / 1_000_000_000;
            20 * log10_milli(num, 299_792_458_000)
        } else {
            20 * log10_milli(num0, 299_792_458_000_000_000_000)
        }
    }

    /// The technique-specific adjustment, in milli-dB.
    fn type_gain_mdb(&self) -> (r: i64)
        requires
            config_wf(self.config),
        ensures
            r == type_gain_spec(self.config),
            -3_000_000 <= r <= 3_000_000,
    {
        let c = &self.config;
        match c.jamming_type {
            JammingType::Barrage => {
                let processing: i64 = 10 * log10_milli(c.bandwidth_hz as u128, 1_000_000);
                if processing <= 20_000 {
                    -processing
                } else {
                    -20_000
                }
            },
            JammingType::Follower { .. } => 3_000,
            JammingType::Swept { sweep_period_ms, .. } => {
                proof {
                    let b: int = c.bandwidth_hz as int;
                    let p: int = sweep_period_ms as int;
                    assert(0 <= 10_000 * b * p <= 10_000_000_000_000_000_000_000_000_000)
                        by (nonlinear_arith)
                        requires 1 <= b <= 1_000_000_000_000, 0 <= p <= 1_000_000_000;
                }
                let raw: u128 = 10_000u128 * (c.bandwidth_hz as u128) * (sweep_period_ms
                    as u128) / (c.center_frequency_hz as u128);
                let duty_u: u128 = if raw < 10_000 {
                    10_000
                } else if raw > 1_000_000 {
                    1_000_000
                } else {
                    raw
                };
                proof {
                    assert(duty_u as int == clamp_spec(raw as int, 10_000, 1_000_000));
                }
                10 * log10_milli(duty_u, 1_000_000)
            },
            JammingType::Pulse { prf_hz, pulse_width_us, peak_power_mdbm } => {
                proof {
                    let a: int = prf_hz as int;
                    let b: int = pulse_width_us as int;
                    assert(0 <= a * b <= 1_000_000_000_000_000_000) by (nonlinear_arith)
                        requires 0 <= a <= 1_000_000_000, 0 <= b <= 1_000_000_000;
                }
                let raw: u128 = (prf_hz as u128) * (pulse_width_us as u128);
                let duty_u: u128 = if raw < 1_000 {
                    1_000
                } else if raw > 1_000_000 {
                    1_000_000
                } else {
                    raw
                };
                proof {
                    assert(duty_u as int == clamp_spec(raw as int, 1_000, 1_000_000));
                }
                let log_term: i64 = 10 * log10_milli(duty_u, 1_000_000);
                let duty: i64 = duty_u as i64;
                proof {
                    let du: int = duty as int;
                    if peak_power_mdbm >= c.jammer_power_mdbm {
                        let mag: int = peak_power_mdbm - c.jammer_power_mdbm;
                        assert(0 <= mag * du <= 2_000_000_000_000) by (nonlinear_arith)
                            requires 0 <= mag <= 2_000_000, 0 <= du <= 1_000_000;
                        vstd::arithmetic::div_mod::lemma_div_pos_is_pos(mag * du, 1_000_000);
                        vstd::arithmetic::div_mod::lemma_div_is_ordered(
                            mag * du,
                            2_000_000_000_000,
                            1_000_000,
                        );
                    } else {
                        let mag: int = c.jammer_power_mdbm - peak_power_mdbm;
                        assert(0 <= mag * du <= 2_000_000_000_000) by (nonlinear_arith)
                            requires 0 <= mag <= 2_000_000, 0 <= du <= 1_000_000;
                        vstd::arithmetic::div_mod::lemma_div_pos_is_pos(mag * du, 1_000_000);
                        vstd::arithmetic::div_mod::lemma_div_is_ordered(
                            mag * du,
                            2_000_000_000_000,
                            1_000_000,
                        );
                    }
                }
                let peak_term: i64 = if peak_power_mdbm >= c.jammer_power_mdbm {
                    ((peak_power_mdbm - c.jammer_power_mdbm) as i128 * duty as i128
                        / 1_000_000) as i64
                } else {
                    -(((c.jammer_power_mdbm - peak_power_mdbm) as i128 * duty as i128
                        / 1_000_000) as i64)
                };
                log_term + peak_term
            },
            JammingType::Deception { .. } => 10_000,
        }
    }

    /// Jamming-to-signal ratio in milli-dB: the exact, unclamped
    /// difference of the two levels.
    pub fn compute_jamming_to_signal_ratio(
        &self,
        signal_power_mdbm: i64,
        jamming_power_mdbm: i64,
    ) -> (r: i64)
        requires
            -1_000_000_000_000_000 <= signal_power_mdbm <= 1_000_000_000_000_000,
            -1_000_000_000_000_000 <= jamming_power_mdbm <= 1_000_000_000_000_000,
        ensures
            r == jamming_power_mdbm - signal_power_mdbm,
    {
        jamming_power_mdbm - signal_power_mdbm
    }

    /// Whether jamming denies communication at the target: true exactly
    /// when J/S is strictly above the complete-denial threshold of
    /// 10 dB (10 dB itself is not effective).
    pub fn is_effective(&self, signal_power_mdbm: i64, target: Position) -> (r: bool)
        requires
            config_wf(self.config),
            position_wf(target),
            -1_000_000_000_000 <= signal_power_mdbm <= 1_000_000_000_000,
        ensures
            r == (jam_power_spec(self.config, target) - signal_power_mdbm > COMPLETE_DENIAL_MDB),
    {
        let jamming_power_mdbm = self.compute_jamming_power(target);
        let jsr = self.compute_jamming_to_signal_ratio(signal_power_mdbm, jamming_power_mdbm);
        jsr > COMPLETE_DENIAL_MDB
    }
}


/// Linear SINR in parts per million, for linear powers in attowatts.
pub open spec fn sinr_micro_spec(s_aw: int, j_aw: int, n_aw: int) -> int {
    s_aw * 1_000_000 / (j_aw + n_aw)
}

/// Packet error rate in parts per trillion for signal, jamming and
/// noise levels in milli-dBm and a packet length in bits:
/// `1 - (1 - BER)^bits` with the BER curve over the linear SINR.  The
/// jamming level saturates at the conversion range bounds.
pub open spec fn per_pt_spec(
    signal_mdbm: int,
    jamming_mdbm: int,
    noise_mdbm: int,
    bits: nat,
) -> int {
    let j_aw = dbm_to_aw_spec(clamp_spec(jamming_mdbm, -10_000_000, 110_000));
    let s_aw = dbm_to_aw_spec(signal_mdbm);
    let n_aw = dbm_to_aw_spec(noise_mdbm);
    let ber = ber_pt_spec(sinr_micro_spec(s_aw, j_aw, n_aw));
    1_000_000_000_000 - pow_frac_pt_spec(1_000_000_000_000 - ber, bits)
}

/// Throughput ratio in parts per million for signal, jamming and noise
/// levels in milli-dBm: the Shannon capacity under jamming over the
/// clear capacity, clamped into the unit interval; full throughput when
/// the clear capacity is already zero.
pub open spec fn throughput_ppm_spec(
    signal_mdbm: int,
    jamming_mdbm: int,
    noise_mdbm: int,
) -> int {
    let j_aw = dbm_to_aw_spec(clamp_spec(jamming_mdbm, -10_000_000, 110_000));
    let s_aw = dbm_to_aw_spec(signal_mdbm);
    let n_aw = dbm_to_aw_spec(noise_mdbm);
    let cap_clear = log2_milli_spec(n_aw + s_aw, n_aw);
    if cap_clear <= 0 {
        1_000_000
    } else {
        let cap_jam = log2_milli_spec(n_aw + j_aw + s_aw, n_aw + j_aw);
        clamp_spec(cap_jam * 1_000_000 / cap_clear, 0, 1_000_000)
    }
}

/// The packet error rate never decreases as the jamming level rises,
/// the signal and noise levels and the packet length held fixed.
pub proof fn lemma_per_monotone_in_jamming(
    signal_mdbm: int,
    j1: int,
    j2: int,
    noise_mdbm: int,
    bits: nat,
)
    requires
        j1 <= j2,
        -150_000 <= signal_mdbm <= 100_000,
        -150_000 <= noise_mdbm <= 100_000,
    ensures
        per_pt_spec(signal_mdbm, j1, noise_mdbm, bits) <= per_pt_spec(
            signal_mdbm,
            j2,
            noise_mdbm,
            bits,
        ),
{
    let c1 = clamp_spec(j1, -10_000_000, 110_000);
    let c2 = clamp_spec(j2, -10_000_000, 110_000);
    crate::numeric::lemma_dbm_to_aw_monotone(c1, c2);
    crate::numeric::lemma_dbm_to_aw_nonneg(c1);
    crate::numeric::lemma_dbm_to_aw_nonneg(signal_mdbm);
    crate::numeric::lemma_dbm_to_aw_monotone(-150_000, noise_mdbm);
    crate::numeric::lemma_dbm_to_aw_values();
    let ja1 = dbm_to_aw_spec(c1);
    let ja2 = dbm_to_aw_spec(c2);
    let s_aw = dbm_to_aw_spec(signal_mdbm);
    let n_aw = dbm_to_aw_spec(noise_mdbm);
    assert(n_aw >= 1);
    vstd::arithmetic::div_mod::lemma_div_is_ordered_by_denominator(
        s_aw * 1_000_000,
        ja1 + n_aw,
        ja2 + n_aw,
    );
    let si1 = sinr_micro_spec(s_aw, ja1, n_aw);
    let si2 = sinr_micro_spec(s_aw, ja2, n_aw);
    assert(s_aw * 1_000_000 >= 0) by (nonlinear_arith)
        requires s_aw >= 0;
    vstd::arithmetic::div_mod::lemma_div_pos_is_pos(s_aw * 1_000_000, ja2 + n_aw);
    crate::numeric::lemma_ber_antitone(si2, si1);
    vstd::arithmetic::div_mod::lemma_div_pos_is_pos(s_aw * 1_000_000, ja1 + n_aw);
    crate::numeric::lemma_ber_range(si1);
    crate::numeric::lemma_ber_range(si2);
    let b1 = 1_000_000_000_000 - ber_pt_spec(si1);
    let b2 = 1_000_000_000_000 - ber_pt_spec(si2);
    crate::numeric::lemma_pow_frac_monotone(b2, b1, bits);
}

impl JammingModel {
    /// Throughput ratio at the target under jamming, in parts per
    /// million of the clear-channel throughput.
    pub fn compute_throughput_reduction(
        &self,
        signal_power_mdbm: i64,
        target: Position,
        noise_power_mdbm: i64,
    ) -> (r: u64)
        requires
            config_wf(self.config),
            position_wf(target),
            -150_000 <= signal_power_mdbm <= 100_000,
            -150_000 <= noise_power_mdbm <= 100_000,
        ensures
            r == throughput_ppm_spec(
                signal_power_mdbm as int,
                jam_power_spec(self.config, target),
                noise_power_mdbm as int,
            ),
            r <= 1_000_000,
    {
        let jamming_power_mdbm = self.compute_jamming_power(target);
        let jc = clamp_i64(jamming_power_mdbm, -10_000_000, 110_000);
        let j_aw = dbm_to_attowatts(jc);
        let s_aw = dbm_to_attowatts(signal_power_mdbm);
        let n_aw = dbm_to_attowatts(noise_power_mdbm);
        proof {
            crate::numeric::lemma_dbm_to_aw_values();
            crate::numeric::lemma_dbm_to_aw_monotone(-150_000, noise_power_mdbm as int);
            crate::numeric::lemma_dbm_to_aw_monotone(noise_power_mdbm as int, 100_000);
            crate::numeric::lemma_dbm_to_aw_monotone(signal_power_mdbm as int, 100_000);
            crate::numeric::lemma_dbm_to_aw_monotone(jc as int, 110_000);
            crate::numeric::lemma_dbm_to_aw_nonneg(signal_power_mdbm as int);
            crate::numeric::lemma_dbm_to_aw_nonneg(jc as int);
        }
        let cap_clear: i64 = log2_milli(n_aw + s_aw, n_aw);
        if cap_clear <= 0 {
            return 1_000_000;
        }
        let cap_jam: i64 = log2_milli(n_aw + j_aw + s_aw, n_aw + j_aw);
        proof {
            vstd::arithmetic::div_mod::lemma_div_pos_is_pos(
                cap_jam as int * 1_000_000,
                cap_clear as int,
            );
        }
        let ratio: i64 = (cap_jam as i128 * 1_000_000 / cap_clear as i128) as i64;
        let out: i64 = clamp_i64(ratio, 0, 1_000_000);
        proof {
            vstd::arithmetic::div_mod::lemma_div_is_ordered(
                cap_jam as int * 1_000_000,
                128_000_000_000,
                cap_clear as int,
            );
        }
        out as u64
    }

    /// Packet error rate at the target under jamming, in parts per
    /// trillion, for a packet of `packet_length_bits` bits.
    pub fn compute_packet_error_rate(
        &self,
        signal_power_mdbm: i64,
        target: Position,
        noise_power_mdbm: i64,
        packet_length_bits: usize,
    ) -> (r: u64)
        requires
            config_wf(self.config),
            position_wf(target),
            -150_000 <= signal_power_mdbm <= 100_000,
            -150_000 <= noise_power_mdbm <= 100_000,
        ensures
            r == per_pt_spec(
                signal_power_mdbm as int,
                jam_power_spec(self.config, target),
                noise_power_mdbm as int,
                packet_length_bits as nat,
            ),
            r <= 1_000_000_000_000,
    {
        let jamming_power_mdbm = self.compute_jamming_power(target);
        let jc = clamp_i64(jamming_power_mdbm, -10_000_000, 110_000);
        let j_aw = dbm_to_attowatts(jc);
        let s_aw = dbm_to_attowatts(signal_power_mdbm);
        let n_aw = dbm_to_attowatts(noise_power_mdbm);
        proof {
            crate::numeric::lemma_dbm_to_aw_values();
            crate::numeric::lemma_dbm_to_aw_monotone(-150_000, noise_power_mdbm as int);
        }
        let sinr: u128 = s_aw * 1_000_000 / (j_aw + n_aw);
        let ber: u64 = ber_pt(sinr);
        let base: u64 = 1_000_000_000_000 - ber;
        let pf: u64 = pow_frac_pt(base, packet_length_bits);
        1_000_000_000_000 - pf
    }
}


/// Outside the near field, a barrage jammer with at least a megahertz
/// of bandwidth and a propagation ratio `4 pi d f / c` of at least two
/// is received strictly below its transmit power plus antenna gain:
/// the path loss and the barrage processing-gain loss only subtract.
pub proof fn lemma_barrage_below_transmit(c: JammingConfig, target: Position)
    requires
        config_wf(c),
        c.jamming_type == JammingType::Barrage,
        c.bandwidth_hz >= 1_000_000,
        c.polarization_loss_mdb >= 0,
        dist2_spec(target, c.jammer_position) >= 1_000_000,
        12_566_370_614 * sqrt_spec(dist2_spec(target, c.jammer_position))
            * c.center_frequency_hz >= 2 * 299_792_458_000_000_000_000,
    ensures
        jam_power_spec(c, target) < c.jammer_power_mdbm + c.antenna_gain_mdbi,
{
    let d2 = dist2_spec(target, c.jammer_position);
    crate::numeric::lemma_sqrt_exists(d2);
    let d = sqrt_spec(d2);
    assert(d >= 1) by (nonlinear_arith)
        requires d2 >= 1_000_000, crate::numeric::is_sqrt(d2, d);
    let f = c.center_frequency_hz as int;
    let num0 = 12_566_370_614 * d * f;
    let den0 = 299_792_458_000_000_000_000int;
    assert(12_566_370_614 * d * f >= 12_566_370_614) by (nonlinear_arith)
        requires d >= 1, f >= 1;
    let fspl = fspl_spec(d, f);
    if num0 >= 0x400_0000_0000_0000_0000_0000 {
        vstd::arithmetic::div_mod::lemma_div_is_ordered(
            2 * den0,
            num0,
            1_000_000_000,
        );
        assert((2 * den0) / 1_000_000_000 == 2 * 299_792_458_000);
        vstd::arithmetic::div_mod::lemma_div_is_ordered(
            0x400_0000_0000_0000_0000_0000,
            num0,
            1_000_000_000,
        );
        crate::numeric::lemma_log10_milli_lower(num0 / 1_000_000_000, 299_792_458_000);
    } else {
        crate::numeric::lemma_log10_milli_lower(num0, den0);
    }
    assert(fspl >= 20 * 301);
    let atm = c.atmospheric_loss_mdb_per_km * d / 1_000_000;
    assert(c.atmospheric_loss_mdb_per_km * d >= 0) by (nonlinear_arith)
        requires c.atmospheric_loss_mdb_per_km >= 0, d >= 0;
    vstd::arithmetic::div_mod::lemma_div_pos_is_pos(c.atmospheric_loss_mdb_per_km * d, 1_000_000);
    crate::numeric::lemma_log10_milli_lower(c.bandwidth_hz as int, 1_000_000);
    assert(type_gain_spec(c) <= 0);
}

} // verus!
