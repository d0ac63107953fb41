use nbody_sim::schedule::{plan_step, Schedule, StepPlan};

fn all_plans(steps: usize, every: usize) -> Vec<StepPlan> {
    let mut s = Schedule::new(steps, every);
    let mut plans = Vec::new();
    while let Some(p) = s.next_plan() {
        plans.push(p);
    }
    assert_eq!(s.next_plan(), None);
    plans
}

#[test]
fn plans_cover_every_step_once_in_order() {
    let plans = all_plans(5, 2);
    let steps: Vec<usize> = plans.iter().map(|p| p.step).collect();
    assert_eq!(steps, vec![0, 1, 2, 3, 4, 5]);
}

#[test]
fn snapshots_at_multiples_and_at_the_end() {
    let plans = all_plans(5, 2);
    let snaps: Vec<usize> = plans.iter().filter(|p| p.snapshot).map(|p| p.step).collect();
    assert_eq!(snaps, vec![0, 2, 4, 5]);
    let plans = all_plans(6, 3);
    let snaps: Vec<usize> = plans.iter().filter(|p| p.snapshot).map(|p| p.step).collect();
    assert_eq!(snaps, vec![0, 3, 6]);
}

#[test]
fn every_step_but_the_last_advances() {
    let plans = all_plans(4, 100);
    let adv: Vec<bool> = plans.iter().map(|p| p.advance).collect();
    assert_eq!(adv, vec![true, true, true, true, false]);
}

#[test]
fn run_counts_match_the_formula() {
    for (steps, every) in [(10_000usize, 100usize), (250, 100), (0, 1), (1, 1), (7, 3), (9, 10)] {
        let plans = all_plans(steps, every);
        let advances = plans.iter().filter(|p| p.advance).count();
        let snapshots = plans.iter().filter(|p| p.snapshot).count();
        assert_eq!(advances, steps);
        assert_eq!(snapshots, (steps + every - 1) / every + 1);
    }
}

#[test]
fn zero_step_run_snapshots_once() {
    assert_eq!(
        all_plans(0, 100),
        vec![StepPlan { step: 0, snapshot: true, advance: false }]
    );
}

#[test]
fn single_plans() {
    assert_eq!(plan_step(3, 10, 3), StepPlan { step: 3, snapshot: true, advance: true });
    assert_eq!(plan_step(4, 10, 3), StepPlan { step: 4, snapshot: false, advance: true });
    assert_eq!(plan_step(10, 10, 3), StepPlan { step: 10, snapshot: true, advance: false });
}

#[test]
fn snapshot_rows_ascend_over_snapshot_steps() {
    for (steps, every) in [(10usize, 3usize), (12, 4), (0, 5), (1, 2)] {
        let rows: Vec<usize> = all_plans(steps, every)
            .iter()
            .filter(|p| p.snapshot)
            .map(|p| p.step)
            .collect();
        let expected: Vec<usize> = (0..=steps).filter(|s| s % every == 0 || *s == steps).collect();
        assert_eq!(rows, expected);
        assert!(rows.windows(2).all(|w| w[0] < w[1]));
    }
}
