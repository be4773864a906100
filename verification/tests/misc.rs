use autonomysim::backend::BackendType;
use autonomysim::network::LinkQuality;
use autonomysim::scheduler::{Scheduler, Task};
use autonomysim::spectrum::Channel;
use autonomysim::units::SPEED_OF_LIGHT_M_PER_S;

#[test]
fn test_backend_type_as_str() {
    assert_eq!(BackendType::Native.as_str(), "native");
    assert_eq!(BackendType::UnrealEngine5.as_str(), "unreal_engine_5");
    assert_eq!(BackendType::IsaacLab.as_str(), "isaac_lab");
}

#[test]
fn test_speed_of_light() {
    assert_eq!(SPEED_OF_LIGHT_M_PER_S, 299_792_458);
}

#[test]
fn test_scheduler() {
    let mut scheduler = Scheduler::new(4);

    scheduler.submit(Task::Physics { agent_start: 0, agent_end: 100 });
    scheduler.submit(Task::Sensors { agent_start: 0, agent_end: 100 });

    assert_eq!(scheduler.queue_len(), 2);
    assert!(!scheduler.is_idle());

    let task = scheduler.get_task();
    assert!(task.is_some());
    assert_eq!(scheduler.queue_len(), 1);
}

#[test]
fn test_channel_overlap() {
    let ch1 = Channel::new(0, 2_400_000_000, 20_000_000);
    let ch2 = Channel::new(1, 2_420_000_000, 20_000_000);
    let ch3 = Channel::new(2, 2_450_000_000, 20_000_000);

    assert!(ch1.overlaps(&ch2));
    assert!(!ch1.overlaps(&ch3));
}

#[test]
fn channel_separation() {
    let ch1 = Channel::new(0, 2_400_000_000, 20_000_000);
    let ch2 = Channel::new(1, 2_420_000_000, 20_000_000);
    assert_eq!(ch1.frequency_separation(&ch2), 20_000_000);
    assert_eq!(ch2.frequency_separation(&ch1), 20_000_000);
}

#[test]
fn score_weights_follow_the_spec() {
    // Default link quality (20 dB SNR, no loss, 10 ms latency) scores
    // 0.5 * 20/30 + 0.3 + 0.2 * 0.99 = 0.831333, strictly between one
    // half and one.
    let score = LinkQuality::default().compute_score();
    assert_eq!(score, 831_333);
    assert!(score > 500_000 && score < 1_000_000);

    // Score rises with SNR, falls with loss and latency.
    let better_snr = LinkQuality { snr_mdb: 25_000, ..Default::default() };
    assert!(better_snr.compute_score() >= score);
    let worse_loss = LinkQuality { packet_loss_ppm: 200_000, ..Default::default() };
    assert!(worse_loss.compute_score() <= score);
    let worse_latency = LinkQuality { latency_ms: 700, ..Default::default() };
    assert!(worse_latency.compute_score() <= score);
}
