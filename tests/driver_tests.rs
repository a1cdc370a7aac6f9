use juicebox::driver::{reset_simulation_to_default, SimSchedule};
use juicebox::extrapolation::{check_surrounding, plan_extrapolation, UNREACHED};
use juicebox::grid::{SimGrid, SimGridCellType};
use juicebox::particles::{add_particle, SimParticles};

#[test]
fn step_while_paused_runs_one_tick_and_stays_paused() {
    let mut s = SimSchedule::default();
    s.is_paused = true;
    let plan = s.plan_frame(false, false, &vec![true]);
    assert!(!plan.tick_before_events);
    assert_eq!(plan.event_ticks, 1);
    assert!(plan.use_tools);
    assert!(s.is_paused);
}

#[test]
fn play_pause_flips_and_step_pauses() {
    let mut s = SimSchedule::default();
    let plan = s.plan_frame(false, false, &vec![false]);
    assert!(plan.tick_before_events);
    assert_eq!(plan.event_ticks, 0);
    assert!(s.is_paused);
    let plan = s.plan_frame(false, false, &vec![false, true, true, false]);
    assert_eq!(plan.event_ticks, 2);
    assert!(!s.is_paused);
}

#[test]
fn reset_and_clear_take_precedence() {
    let mut s = SimSchedule::default();
    let plan = s.plan_frame(true, true, &vec![false, true]);
    assert!(plan.reset && !plan.clear && !plan.use_tools);
    assert_eq!(plan.event_ticks, 0);
    assert!(!s.is_paused);
    let plan = s.plan_frame(false, true, &vec![false]);
    assert!(!plan.reset && plan.clear && !plan.use_tools);
    assert!(!s.is_paused);
}

#[test]
fn toggling_the_projection() {
    let mut s = SimSchedule::default();
    assert_eq!(s.incomp_iters_per_frame, 100);
    assert_eq!(s.collision_iters_per_frame, 2);
    s.toggle_simulation_pause();
    assert_eq!(s.incomp_iters_per_frame, 0);
    s.toggle_simulation_pause();
    assert_eq!(s.incomp_iters_per_frame, 5);
}

#[test]
fn reset_restores_defaults() {
    let mut s = SimSchedule::default();
    s.incomp_iters_per_frame = 7;
    s.is_paused = true;
    let mut g = match SimGrid::new(5, 5, 3) {
        Ok(g) => g,
        Err(_) => panic!("grid construction failed"),
    };
    assert!(g.set_grid_cell_type(1, 1, SimGridCellType::Solid).is_ok());
    let mut p: SimParticles<u8> = SimParticles::new();
    add_particle(&mut g, &mut p, 1, 2, 2);
    reset_simulation_to_default(&mut s, &mut g, &mut p);
    assert_eq!(g.dimensions, (50, 50));
    assert_eq!(g.cell_size, 5);
    assert_eq!(p.len(), 0);
    assert_eq!(s.incomp_iters_per_frame, 100);
    assert!(s.is_paused);
}

#[test]
fn first_wavefront_fills_the_halo() {
    // One known face in the middle of a 5 x 5 table.
    let mut known = vec![vec![false; 5]; 5];
    known[2][2] = true;
    let plan = plan_extrapolation(&known, 1);
    assert_eq!(plan.wavefronts.len(), 2);
    assert_eq!(
        plan.wavefronts[0],
        vec![(1, 1), (1, 2), (1, 3), (2, 1), (2, 3), (3, 1), (3, 2), (3, 3)]
    );
    assert_eq!(plan.distance[2][2], 0);
    for (r, c) in plan.wavefronts[0].iter() {
        assert_eq!(plan.distance[*r][*c], 1);
    }
    assert_eq!(plan.wavefronts[1].len(), 16);
    assert_eq!(plan.distance[0][0], 2);
    assert_eq!(plan.distance[4][2], 2);
}

#[test]
fn wavefronts_stop_at_depth() {
    let mut known = vec![vec![false; 7]; 1];
    known[0][0] = true;
    let plan = plan_extrapolation(&known, 2);
    assert_eq!(plan.distance[0], vec![0, 1, 2, 3, UNREACHED, UNREACHED, UNREACHED]);
    assert_eq!(plan.wavefronts, vec![vec![(0, 1)], vec![(0, 2)], vec![(0, 3)]]);
    let none = plan_extrapolation(&vec![vec![false; 3]; 2], 1);
    assert!(none.wavefronts.iter().all(|w| w.is_empty()));
    assert!(none.distance.iter().flatten().all(|d| *d == UNREACHED));
}

#[test]
fn surrounding_offsets() {
    let table = vec![vec![0, 5, 0], vec![5, 5, 5], vec![5, 0, 5]];
    // Offsets in visiting order: (+1,-1), (0,-1), (-1,-1), (+1,0), (-1,0), (+1,+1), (0,+1), (-1,+1).
    assert_eq!(check_surrounding(&table, 1, 1, 0), vec![2, 3, 7]);
    assert_eq!(check_surrounding(&table, 0, 0, 5), vec![3, 5, 6]);
    assert!(check_surrounding(&table, 2, 2, 7).is_empty());
}

#[test]
fn wavefront_faces_average_their_sources() {
    let mut known = vec![vec![false; 4]; 3];
    known[0][0] = true;
    known[2][3] = true;
    let plan = plan_extrapolation(&known, 1);
    assert_eq!(plan.sources(0, 1), vec![(0, 0)]);
    assert_eq!(plan.sources(1, 2), vec![(2, 3)]);
    // A face of the second wavefront draws on the first.
    assert_eq!(plan.distance[0][2], 2);
    assert_eq!(plan.sources(0, 2), vec![(1, 1), (0, 1), (1, 2), (1, 3)]);
    for wave in plan.wavefronts.iter().take(1) {
        for (r, c) in wave.iter() {
            assert!(!plan.sources(*r, *c).is_empty());
        }
    }
    assert!(plan.sources(0, 0).is_empty());
}
