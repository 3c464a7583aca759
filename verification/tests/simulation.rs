use mgk_cont::policy::Policy;
use mgk_cont::rate::Rate;
use mgk_cont::simulation::{SimConfig, Simulation, StepOutcome};
use mgk_cont::UNIT;

fn config(policy: Policy, num_servers: usize, num_jobs: u64) -> SimConfig {
    SimConfig { policy, num_servers, num_jobs, arrival_rate: Rate { num: 10, den: 10 } }
}

#[test]
fn first_step_waits_for_the_first_arrival() {
    let mut sim = Simulation::new(config(Policy::FCFS, 1, 100), 5 * UNIT);
    assert_eq!(sim.step(), StepOutcome::Advanced { arrival: true });
    assert_eq!(sim.time, 5 * UNIT);
    sim.add_arrival(2 * UNIT, UNIT / 2, 3 * UNIT);
    assert_eq!(sim.num_arrivals, 1);
    assert_eq!(sim.queue.len(), 1);
    assert_eq!(sim.queue[0].arrival_time, 5 * UNIT);
    assert_eq!(sim.next_arrival_time, 8 * UNIT);
    assert_eq!(sim.total_work, 0);
}

#[test]
fn a_served_job_completes_before_the_next_arrival() {
    let mut sim = Simulation::new(config(Policy::FCFS, 1, 100), 0);
    assert_eq!(sim.step(), StepOutcome::Advanced { arrival: true });
    sim.add_arrival(2 * UNIT, UNIT / 2, 3 * UNIT);
    assert_eq!(sim.step(), StepOutcome::Advanced { arrival: false });
    assert_eq!(sim.time, 2 * UNIT);
    assert_eq!(sim.num_completions, 1);
    assert_eq!(sim.total_response, 2 * UNIT as u128);
    assert!(sim.queue.is_empty());
    assert_eq!(sim.step(), StepOutcome::Advanced { arrival: true });
    assert_eq!(sim.time, 3 * UNIT);
}

#[test]
fn an_arrival_interrupts_service() {
    let mut sim = Simulation::new(config(Policy::SRPT, 1, 100), 0);
    sim.step();
    sim.add_arrival(5 * UNIT, UNIT / 2, UNIT);
    assert_eq!(sim.step(), StepOutcome::Advanced { arrival: true });
    assert_eq!(sim.time, UNIT);
    assert_eq!(sim.queue[0].rem_size, 4 * UNIT);
    sim.add_arrival(UNIT, UNIT / 2, 10 * UNIT);
    assert_eq!(sim.total_work, 4 * UNIT as u128);
    // both fit: 0.5 + 0.5 + epsilon is not below one server, so only the shorter is served
    assert_eq!(sim.step(), StepOutcome::Advanced { arrival: false });
    assert_eq!(sim.time, 2 * UNIT);
    assert_eq!(sim.num_completions, 1);
    assert_eq!(sim.total_response, UNIT as u128);
    assert_eq!(sim.queue.len(), 1);
    assert_eq!(sim.queue[0].rem_size, 4 * UNIT);
}

#[test]
fn jobs_are_conserved() {
    let mut sim = Simulation::new(config(Policy::LSFB, 1, 1_000_000), 0);
    let sizes = [3, 1, 4, 1, 5, 9, 2, 6];
    let reqs = [2, 7, 1, 8, 2, 8, 1, 8];
    let mut n = 0;
    for _ in 0..40 {
        match sim.step() {
            StepOutcome::Advanced { arrival: true } => {
                let i = n % sizes.len();
                sim.add_arrival(sizes[i] * UNIT / 3, reqs[i] * UNIT / 10, UNIT / 2);
                n += 1;
            }
            StepOutcome::Advanced { arrival: false } => {}
            other => panic!("unexpected {:?}", other),
        }
        assert_eq!(sim.num_completions + sim.queue.len() as u64, sim.num_arrivals);
        assert!(sim.time <= sim.next_arrival_time);
    }
}

#[test]
fn queue_too_long_stops_the_run() {
    let mut sim = Simulation::new(config(Policy::FCFS, 1, 3), 0);
    sim.step();
    sim.add_arrival(10 * UNIT, UNIT, 0);
    sim.step();
    sim.add_arrival(10 * UNIT, UNIT, 0);
    assert_eq!(sim.step(), StepOutcome::QueueTooLong);
    assert_eq!(sim.queue.len(), 2);
}

#[test]
fn two_servers_can_exceed_one_servers_resource() {
    let mut sim = Simulation::new(config(Policy::FCFS, 2, 100), 0);
    sim.step();
    sim.add_arrival(UNIT, UNIT * 9 / 10, 0);
    sim.step();
    sim.add_arrival(UNIT, UNIT * 9 / 10, 0);
    assert_eq!(sim.step(), StepOutcome::CapacityExceeded);
}

#[test]
fn bucket_policy_runs() {
    let mut sim = Simulation::new(config(Policy::DBE, 1, 100), 0);
    sim.step();
    sim.add_arrival(UNIT, UNIT / 10, 0);
    sim.step();
    sim.add_arrival(UNIT, UNIT / 2, 5 * UNIT);
    assert_eq!(sim.step(), StepOutcome::Advanced { arrival: false });
    assert_eq!(sim.num_completions, 2);
    assert_eq!(sim.total_response, 2 * UNIT as u128);
}

#[test]
fn is_done_after_enough_completions() {
    let mut sim = Simulation::new(config(Policy::FCFS, 1, 1), 0);
    assert!(!sim.is_done());
    sim.step();
    sim.add_arrival(UNIT, UNIT / 2, 9 * UNIT);
    sim.step();
    assert!(sim.is_done());
}
