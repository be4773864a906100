//! Link quality metrics: SNR and SINR bookkeeping, bit error rate
//! estimation per modulation scheme, and packet error rates.
//!
//! Decibel quantities are milli-dB integers, linear powers attowatts,
//! linear ratios parts per million, error rates parts per trillion.

use vstd::prelude::*;

use crate::numeric::{
    ber_pt, ber_pt_spec, dbm_to_attowatts, dbm_to_aw_spec, log10_milli, log10_milli_spec,
    pow2_u128, pow_frac_pt, pow_frac_pt_spec,
};
use vstd::arithmetic::power2::pow2;

verus! {

/// Linear ratio in parts per million for a level difference in
/// milli-dB: `10^(mdb/10000) * 10^6`.
pub open spec fn db_to_linear_micro_spec(mdb: int) -> int {
    dbm_to_aw_spec(mdb - 90_000)
}

/// Linear ratio in parts per million for a level difference in
/// milli-dB.
pub fn db_to_linear_micro(mdb: i64) -> (r: u128)
    requires
        -9_000_000 <= mdb <= 240_000,
    ensures
        r as int == db_to_linear_micro_spec(mdb as int),
{
    dbm_to_attowatts(mdb - 90_000)
}

/// Linear power in attowatts for a level in milli-dBm.
pub fn dbm_to_watts_aw(mdbm: i64) -> (r: u128)
    requires
        -10_000_000 <= mdbm <= 150_000,
    ensures
        r as int == dbm_to_aw_spec(mdbm as int),
{
    dbm_to_attowatts(mdbm)
}

/// Level in milli-dBm for a linear power in attowatts.
pub open spec fn aw_to_dbm_spec(aw: int) -> int {
    10 * log10_milli_spec(aw, 1) - 150_000
}

/// Level in milli-dBm for a linear power in attowatts.
pub fn watts_aw_to_dbm(aw: u128) -> (r: i64)
    requires
        1 <= aw < 0x400_0000_0000_0000_0000_0000,
    ensures
        r as int == aw_to_dbm_spec(aw as int),
        -550_000 <= r <= 550_000,
{
    10 * log10_milli(aw, 1) - 150_000
}

/// Signal power bookkeeping: the raw levels, the signal-to-noise ratio
/// and the signal-to-interference-plus-noise ratio, all in milli-dB(m).
#[derive(Debug, Clone, Copy, PartialEq, Eq, Structural)]
pub struct SignalMetrics {
    pub signal_power_mdbm: i64,
    pub noise_power_mdbm: i64,
    pub interference_power_mdbm: i64,
    pub snr_mdb: i64,
    pub sinr_mdb: i64,
}

/// The SINR in milli-dB: the signal level against interference plus
/// noise combined in the linear domain.
pub open spec fn sinr_mdb_spec(signal_mdbm: int, noise_mdbm: int, interference_mdbm: int) -> int {
    10 * log10_milli_spec(
        dbm_to_aw_spec(signal_mdbm),
        dbm_to_aw_spec(interference_mdbm) + dbm_to_aw_spec(noise_mdbm),
    )
}

impl SignalMetrics {
    /// Metrics for the given levels: the SNR is the exact level
    /// difference, the SINR combines interference and noise linearly.
    pub fn new(
        signal_power_mdbm: i64,
        noise_power_mdbm: i64,
        interference_power_mdbm: i64,
    ) -> (r: Self)
        requires
            -150_000 <= signal_power_mdbm <= 100_000,
            -150_000 <= noise_power_mdbm <= 100_000,
            -150_000 <= interference_power_mdbm <= 100_000,
        ensures
            r.signal_power_mdbm == signal_power_mdbm,
            r.noise_power_mdbm == noise_power_mdbm,
            r.interference_power_mdbm == interference_power_mdbm,
            r.snr_mdb == signal_power_mdbm - noise_power_mdbm,
            r.sinr_mdb as int == sinr_mdb_spec(
                signal_power_mdbm as int,
                noise_power_mdbm as int,
                interference_power_mdbm as int,
            ),
    {
        let snr_mdb = signal_power_mdbm - noise_power_mdbm;
        let s_aw = dbm_to_attowatts(signal_power_mdbm);
        let n_aw = dbm_to_attowatts(noise_power_mdbm);
        let i_aw = dbm_to_attowatts(interference_power_mdbm);
        proof {
            crate::numeric::lemma_dbm_to_aw_values();
            crate::numeric::lemma_dbm_to_aw_monotone(-150_000, signal_power_mdbm as int);
            crate::numeric::lemma_dbm_to_aw_monotone(-150_000, noise_power_mdbm as int);
            crate::numeric::lemma_dbm_to_aw_monotone(signal_power_mdbm as int, 100_000);
            crate::numeric::lemma_dbm_to_aw_monotone(noise_power_mdbm as int, 100_000);
            crate::numeric::lemma_dbm_to_aw_monotone(interference_power_mdbm as int, 100_000);
            crate::numeric::lemma_dbm_to_aw_nonneg(interference_power_mdbm as int);
        }
        let sinr_mdb = 10 * log10_milli(s_aw, i_aw + n_aw);
        SignalMetrics {
            signal_power_mdbm,
            noise_power_mdbm,
            interference_power_mdbm,
            snr_mdb,
            sinr_mdb,
        }
    }

    /// Whether the signal clears the given minimum SNR.
    pub fn is_detectable(&self, min_snr_mdb: i64) -> (r: bool)
        ensures
            r == (self.snr_mdb >= min_snr_mdb),
    {
        self.snr_mdb >= min_snr_mdb
    }
}

/// `e^(-y)`, in parts per trillion, for a linear argument in parts per
/// million: approximated through the base-2 exponent, the integer part
/// as a shift and the fraction linearly.
pub open spec fn exp_neg_pt_spec(y_micro: int) -> int {
    let t = y_micro * 1_442_695 / 1_000_000;
    (1_000_000_000_000 - (t % 1_000_000) / 2) / (pow2((t / 1_000_000) as nat) as int)
}

/// `e^(-y)`, in parts per trillion, for `0 <= y <= 30` (in parts per
/// million).
fn exp_neg_pt(y_micro: u64) -> (r: u64)
    requires
        y_micro <= 30_000_000,
    ensures
        r as int == exp_neg_pt_spec(y_micro as int),
        r <= 1_000_000_000_000,
{
    let t: u64 = ((y_micro as u128) * 1_442_695 / 1_000_000) as u64;
    let k: u32 = (t / 1_000_000) as u32;
    let f: u64 = t % 1_000_000;
    proof {
        assert(t <= 43_280_850);
        assert(k <= 43);
        vstd::arithmetic::power2::lemma2_to64();
        vstd::arithmetic::power2::lemma_pow2_pos(k as nat);
    }
    let p: u128 = pow2_u128(k);
    let num: u128 = 1_000_000_000_000 - ((f as u128) / 2);
    proof {
        vstd::arithmetic::div_mod::lemma_div_is_ordered(
            num as int,
            1_000_000_000_000,
            p as int,
        );
        vstd::arithmetic::div_mod::lemma_div_is_ordered_by_denominator(
            num as int,
            1,
            p as int,
        );
        vstd::arithmetic::div_mod::lemma_div_pos_is_pos(num as int, p as int);
    }
    (num / p) as u64
}

/// Bit error rate calculators for the supported modulation schemes.
#[derive(Debug, Clone, Copy, PartialEq, Eq, Structural)]
pub struct BERCalculator;

/// BPSK bit error rate in parts per trillion for an `Eb/N0` level in
/// milli-dB: `1e-10` above a linear 20, one half below a linear 0.01,
/// else `exp(-Eb/N0)/2`.
pub open spec fn bpsk_ber_pt_spec(eb_n0_mdb: int) -> int {
    ber_pt_spec(db_to_linear_micro_spec(eb_n0_mdb))
}

/// 16-QAM bit error rate in parts per trillion: `1e-9` above a linear
/// 20, `0.4` below a linear 0.1, else `0.375 exp(-Eb/N0 / 5)`.
pub open spec fn qam16_ber_pt_spec(eb_n0_mdb: int) -> int {
    let lin = db_to_linear_micro_spec(eb_n0_mdb);
    if lin > 20_000_000 {
        1_000
    } else if lin < 100_000 {
        400_000_000_000
    } else {
        375 * exp_neg_pt_spec(lin / 5) / 1_000
    }
}

/// 64-QAM bit error rate in parts per trillion: `1e-8` above a linear
/// 25, `0.35` below a linear 1, else `0.29 exp(-Eb/N0 / 21)`.
pub open spec fn qam64_ber_pt_spec(eb_n0_mdb: int) -> int {
    let lin = db_to_linear_micro_spec(eb_n0_mdb);
    if lin > 25_000_000 {
        10_000
    } else if lin < 1_000_000 {
        350_000_000_000
    } else {
        29 * exp_neg_pt_spec(lin / 21) / 100
    }
}

impl BERCalculator {
    /// BPSK bit error rate for an `Eb/N0` level in milli-dB.
    pub fn bpsk(eb_n0_mdb: i64) -> (r: u64)
        requires
            -9_000_000 <= eb_n0_mdb <= 1_500_000,
        ensures
            r as int == bpsk_ber_pt_spec(eb_n0_mdb as int),
            r <= 500_000_000_000,
    {
        if eb_n0_mdb > 240_000 {
            proof {
                crate::numeric::lemma_dbm_to_aw_values();
                crate::numeric::lemma_dbm_to_aw_monotone(150_000, eb_n0_mdb - 90_000);
            }
            return 100;
        }
        let lin = db_to_linear_micro(eb_n0_mdb);
        ber_pt(lin)
    }

    /// QPSK bit error rate: with Gray coding, the same as BPSK.
    pub fn qpsk(eb_n0_mdb: i64) -> (r: u64)
        requires
            -9_000_000 <= eb_n0_mdb <= 1_500_000,
        ensures
            r as int == bpsk_ber_pt_spec(eb_n0_mdb as int),
            r <= 500_000_000_000,
    {
        BERCalculator::bpsk(eb_n0_mdb)
    }

    /// 16-QAM bit error rate for an `Eb/N0` level in milli-dB.
    pub fn qam16(eb_n0_mdb: i64) -> (r: u64)
        requires
            -9_000_000 <= eb_n0_mdb <= 1_500_000,
        ensures
            r as int == qam16_ber_pt_spec(eb_n0_mdb as int),
            r <= 500_000_000_000,
    {
        if eb_n0_mdb > 240_000 {
            proof {
                crate::numeric::lemma_dbm_to_aw_values();
                crate::numeric::lemma_dbm_to_aw_monotone(150_000, eb_n0_mdb - 90_000);
            }
            return 1_000;
        }
        let lin = db_to_linear_micro(eb_n0_mdb);
        if lin > 20_000_000 {
            1_000
        } else if lin < 100_000 {
            400_000_000_000
        } else {
            let e = exp_neg_pt((lin / 5) as u64);
            proof {
                vstd::arithmetic::div_mod::lemma_div_is_ordered(
                    375 * e as int,
                    375_000_000_000_000,
                    1_000,
                );
                vstd::arithmetic::div_mod::lemma_div_pos_is_pos(375 * e as int, 1_000);
            }
            ((375u128 * (e as u128)) / 1_000) as u64
        }
    }

    /// 64-QAM bit error rate for an `Eb/N0` level in milli-dB.
    pub fn qam64(eb_n0_mdb: i64) -> (r: u64)
        requires
            -9_000_000 <= eb_n0_mdb <= 1_500_000,
        ensures
            r as int == qam64_ber_pt_spec(eb_n0_mdb as int),
            r <= 500_000_000_000,
    {
        if eb_n0_mdb > 240_000 {
            proof {
                crate::numeric::lemma_dbm_to_aw_values();
                crate::numeric::lemma_dbm_to_aw_monotone(150_000, eb_n0_mdb - 90_000);
            }
            return 10_000;
        }
        let lin = db_to_linear_micro(eb_n0_mdb);
        if lin > 25_000_000 {
            10_000
        } else if lin < 1_000_000 {
            350_000_000_000
        } else {
            let e = exp_neg_pt((lin / 21) as u64);
            proof {
                vstd::arithmetic::div_mod::lemma_div_is_ordered(
                    29 * e as int,
                    29_000_000_000_000,
                    100,
                );
                vstd::arithmetic::div_mod::lemma_div_pos_is_pos(29 * e as int, 100);
            }
            ((29u128 * (e as u128)) / 100) as u64
        }
    }

    /// `Eb/N0` in milli-dB from an SNR in milli-dB:
    /// `snr + 10 log10(bandwidth / bit rate)`.
    pub fn snr_to_eb_n0(snr_mdb: i64, bandwidth_hz: u64, bit_rate_bps: u64) -> (r: i64)
        requires
            -1_000_000 <= snr_mdb <= 1_000_000,
            1 <= bandwidth_hz <= 1_000_000_000_000,
            1 <= bit_rate_bps <= 1_000_000_000_000,
        ensures
            r == snr_mdb + 10 * log10_milli_spec(bandwidth_hz as int, bit_rate_bps as int),
            -1_400_000 <= r <= 1_400_000,
    {
        snr_mdb + 10 * log10_milli(bandwidth_hz as u128, bit_rate_bps as u128)
    }
}

/// Modulation scheme.
#[derive(Debug, Clone, Copy, PartialEq, Eq, Structural)]
pub enum ModulationScheme {
    BPSK,
    QPSK,
    QAM16,
    QAM64,
}

/// The bit error rate curve of a scheme, in parts per trillion.
pub open spec fn scheme_ber_pt_spec(m: ModulationScheme, eb_n0_mdb: int) -> int {
    match m {
        ModulationScheme::BPSK => bpsk_ber_pt_spec(eb_n0_mdb),
        ModulationScheme::QPSK => bpsk_ber_pt_spec(eb_n0_mdb),
        ModulationScheme::QAM16 => qam16_ber_pt_spec(eb_n0_mdb),
        ModulationScheme::QAM64 => qam64_ber_pt_spec(eb_n0_mdb),
    }
}

impl ModulationScheme {
    /// Bits carried per symbol.
    pub fn bits_per_symbol(&self) -> (r: usize)
        ensures
            r == match *self {
                ModulationScheme::BPSK => 1usize,
                ModulationScheme::QPSK => 2usize,
                ModulationScheme::QAM16 => 4usize,
                ModulationScheme::QAM64 => 6usize,
            },
    {
        match self {
            ModulationScheme::BPSK => 1,
            ModulationScheme::QPSK => 2,
            ModulationScheme::QAM16 => 4,
            ModulationScheme::QAM64 => 6,
        }
    }

    /// Bit error rate of this scheme, in parts per trillion.
    pub fn compute_ber(&self, eb_n0_mdb: i64) -> (r: u64)
        requires
            -9_000_000 <= eb_n0_mdb <= 1_500_000,
        ensures
            r as int == scheme_ber_pt_spec(*self, eb_n0_mdb as int),
            r <= 500_000_000_000,
    {
        match self {
            ModulationScheme::BPSK => BERCalculator::bpsk(eb_n0_mdb),
            ModulationScheme::QPSK => BERCalculator::qpsk(eb_n0_mdb),
            ModulationScheme::QAM16 => BERCalculator::qam16(eb_n0_mdb),
            ModulationScheme::QAM64 => BERCalculator::qam64(eb_n0_mdb),
        }
    }
}

/// Packet error rate calculator.
#[derive(Debug, Clone, Copy, PartialEq, Eq, Structural)]
pub struct PERCalculator;

/// Packet error rate in parts per trillion from a bit error rate in
/// parts per trillion and a packet length in bits: zero and one pass
/// through; a small rate uses the short-packet product `bits * ber`,
/// capped at one; otherwise `1 - (1 - ber)^bits`.
pub open spec fn per_from_ber_spec(ber_pt: int, bits: nat) -> int {
    if ber_pt <= 0 {
        0
    } else if ber_pt >= 1_000_000_000_000 {
        1_000_000_000_000
    } else if ber_pt < 1_000_000 {
        if bits * ber_pt <= 1_000_000_000_000 {
            bits * ber_pt
        } else {
            1_000_000_000_000
        }
    } else {
        1_000_000_000_000 - pow_frac_pt_spec(1_000_000_000_000 - ber_pt, bits)
    }
}

impl PERCalculator {
    /// Packet error rate from a bit error rate and a packet length.
    pub fn from_ber(ber_pt_value: u64, packet_length_bits: usize) -> (r: u64)
        requires
            ber_pt_value <= 1_000_000_000_000,
        ensures
            r as int == per_from_ber_spec(ber_pt_value as int, packet_length_bits as nat),
            r <= 1_000_000_000_000,
    {
        if ber_pt_value == 0 {
            0
        } else if ber_pt_value >= 1_000_000_000_000 {
            1_000_000_000_000
        } else if ber_pt_value < 1_000_000 {
            proof {
                let b: int = packet_length_bits as int;
                let e: int = ber_pt_value as int;
                assert(0 <= b * e && b * e <= 18_446_744_073_709_551_615 * 1_000_000)
                    by (nonlinear_arith)
                    requires 0 <= b <= 18_446_744_073_709_551_615, 0 <= e <= 1_000_000;
            }
            let prod: u128 = (packet_length_bits as u128) * (ber_pt_value as u128);
            if prod <= 1_000_000_000_000 {
                prod as u64
            } else {
                1_000_000_000_000
            }
        } else {
            let pf = pow_frac_pt(1_000_000_000_000 - ber_pt_value, packet_length_bits);
            1_000_000_000_000 - pf
        }
    }

    /// Packet error rate from an SINR level for a given modulation,
    /// bandwidth, bit rate and packet size.
    pub fn from_sinr(
        sinr_mdb: i64,
        modulation: ModulationScheme,
        bandwidth_hz: u64,
        bit_rate_bps: u64,
        packet_length_bits: usize,
    ) -> (r: u64)
        requires
            -1_000_000 <= sinr_mdb <= 1_000_000,
            1 <= bandwidth_hz <= 1_000_000_000_000,
            1 <= bit_rate_bps <= 1_000_000_000_000,
        ensures
            r as int == per_from_ber_spec(
                scheme_ber_pt_spec(
                    modulation,
                    sinr_mdb + 10 * log10_milli_spec(bandwidth_hz as int, bit_rate_bps as int),
                ),
                packet_length_bits as nat,
            ),
            r <= 1_000_000_000_000,
    {
        let eb_n0_mdb = BERCalculator::snr_to_eb_n0(sinr_mdb, bandwidth_hz, bit_rate_bps);
        let ber = modulation.compute_ber(eb_n0_mdb);
        PERCalculator::from_ber(ber, packet_length_bits)
    }
}


/// Thermal noise power in milli-dBm for a bandwidth in hertz at room
/// temperature with the given noise figure:
/// `10 log10(k T B / 1 mW) + NF`, with `k T = 1.38e-23 * 290`.
pub open spec fn noise_power_mdbm_spec(bandwidth_hz: int, noise_figure_mdb: int) -> int {
    10 * log10_milli_spec(4_002 * bandwidth_hz, 1_000_000_000_000_000_000_000)
        + noise_figure_mdb
}

/// Link budget: transmit power, antenna gains, path and system losses,
/// and the receiver noise parameters, in milli-dB quantities.
#[derive(Debug, Clone, Copy, PartialEq, Eq, Structural)]
pub struct LinkBudget {
    pub tx_power_mdbm: i64,
    pub tx_gain_mdbi: i64,
    pub rx_gain_mdbi: i64,
    pub path_loss_mdb: i64,
    pub additional_loss_mdb: i64,
    pub noise_figure_mdb: i64,
    pub bandwidth_hz: u64,
}

/// Machine-limit bounds for the link budget sums.
pub open spec fn budget_wf(b: LinkBudget) -> bool {
    &&& -1_000_000 <= b.tx_power_mdbm <= 1_000_000
    &&& -1_000_000 <= b.tx_gain_mdbi <= 1_000_000
    &&& -1_000_000 <= b.rx_gain_mdbi <= 1_000_000
    &&& -1_000_000 <= b.path_loss_mdb <= 1_000_000
    &&& -1_000_000 <= b.additional_loss_mdb <= 1_000_000
    &&& -1_000_000 <= b.noise_figure_mdb <= 1_000_000
    &&& 1 <= b.bandwidth_hz <= 1_000_000_000_000
}

impl LinkBudget {
    /// Received signal power: transmit power plus both antenna gains,
    /// less the path and additional losses.
    pub fn received_power_mdbm(&self) -> (r: i64)
        requires
            budget_wf(*self),
        ensures
            r == self.tx_power_mdbm + self.tx_gain_mdbi + self.rx_gain_mdbi
                - self.path_loss_mdb - self.additional_loss_mdb,
    {
        self.tx_power_mdbm + self.tx_gain_mdbi + self.rx_gain_mdbi - self.path_loss_mdb
            - self.additional_loss_mdb
    }

    /// Receiver noise power: thermal noise over the bandwidth plus the
    /// noise figure.
    pub fn noise_power_mdbm(&self) -> (r: i64)
        requires
            budget_wf(*self),
        ensures
            r == noise_power_mdbm_spec(self.bandwidth_hz as int, self.noise_figure_mdb as int),
            -1_400_000 <= r <= 1_400_000,
    {
        proof {
            assert(1 <= 4_002 * (self.bandwidth_hz as int) <= 4_002_000_000_000_000)
                by (nonlinear_arith)
                requires 1 <= self.bandwidth_hz as int <= 1_000_000_000_000;
        }
        let thermal: i64 = 10 * log10_milli(
            4_002u128 * (self.bandwidth_hz as u128),
            1_000_000_000_000_000_000_000,
        );
        thermal + self.noise_figure_mdb
    }

    /// Signal-to-noise ratio at the receiver.
    pub fn snr_mdb(&self) -> (r: i64)
        requires
            budget_wf(*self),
        ensures
            r == self.tx_power_mdbm + self.tx_gain_mdbi + self.rx_gain_mdbi
                - self.path_loss_mdb - self.additional_loss_mdb - noise_power_mdbm_spec(
                self.bandwidth_hz as int,
                self.noise_figure_mdb as int,
            ),
            -6_400_000 <= r <= 6_400_000,
    {
        self.received_power_mdbm() - self.noise_power_mdbm()
    }

    /// Margin above a required SNR.
    pub fn link_margin_mdb(&self, required_snr_mdb: i64) -> (r: i64)
        requires
            budget_wf(*self),
            -1_000_000_000 <= required_snr_mdb <= 1_000_000_000,
        ensures
            r == self.tx_power_mdbm + self.tx_gain_mdbi + self.rx_gain_mdbi
                - self.path_loss_mdb - self.additional_loss_mdb - noise_power_mdbm_spec(
                self.bandwidth_hz as int,
                self.noise_figure_mdb as int,
            ) - required_snr_mdb,
    {
        self.snr_mdb() - required_snr_mdb
    }

    /// Whether the link closes: a strictly positive margin.
    pub fn is_viable(&self, required_snr_mdb: i64) -> (r: bool)
        requires
            budget_wf(*self),
            -1_000_000_000 <= required_snr_mdb <= 1_000_000_000,
        ensures
            r == (self.tx_power_mdbm + self.tx_gain_mdbi + self.rx_gain_mdbi
                - self.path_loss_mdb - self.additional_loss_mdb - noise_power_mdbm_spec(
                self.bandwidth_hz as int,
                self.noise_figure_mdb as int,
            ) - required_snr_mdb > 0),
    {
        self.link_margin_mdb(required_snr_mdb) > 0
    }
}

} // verus!
