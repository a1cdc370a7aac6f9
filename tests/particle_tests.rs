use juicebox::grid::{SimGrid, SimGridCellType};
use juicebox::particles::{
    add_particle, delete_all_particles, delete_marked_particles,
    delete_particle, update_particle_lookup, SimParticles,
};
use juicebox::tools::{add_wall_cells, remove_wall_cells};

fn grid(rows: u16, cols: u16) -> SimGrid {
    match SimGrid::new(rows, cols, 5) {
        Ok(g) => g,
        Err(_) => panic!("grid construction failed"),
    }
}

/// Every particle sits once in the bucket its cached index names, and nowhere else.
fn assert_consistent<T>(g: &SimGrid, p: &SimParticles<T>) {
    assert_eq!(p.data.len(), p.lookup_index.len());
    let total: usize = g.spatial_lookup.iter().map(|b| b.len()).sum();
    assert_eq!(total, p.lookup_index.len());
    for (h, index) in p.lookup_index.iter().enumerate() {
        let hits = g.spatial_lookup[*index].iter().filter(|x| **x == h).count();
        assert_eq!(hits, 1);
    }
}

#[test]
fn add_and_move_particles() {
    let mut g = grid(4, 4);
    let mut p: SimParticles<u32> = SimParticles::new();
    assert_eq!(add_particle(&mut g, &mut p, 10, 1, 1), 0);
    assert_eq!(add_particle(&mut g, &mut p, 11, 1, 1), 1);
    assert_eq!(add_particle(&mut g, &mut p, 12, 3, 2), 2);
    assert_eq!(p.lookup_index, vec![5, 5, 14]);
    assert_eq!(g.get_particles_in_lookup(5), vec![0, 1]);
    assert_consistent(&g, &p);

    update_particle_lookup(&mut g, &mut p, 0, 3, 2);
    assert_eq!(p.lookup_index, vec![14, 5, 14]);
    assert_eq!(g.get_particles_in_lookup(5), vec![1]);
    assert_eq!(g.get_particles_in_lookup(14), vec![2, 0]);
    assert_eq!(p.data, vec![10, 11, 12]);
    assert_consistent(&g, &p);

    // Staying in the same cell changes nothing.
    update_particle_lookup(&mut g, &mut p, 1, 1, 1);
    assert_eq!(g.get_particles_in_lookup(5), vec![1]);
    assert!(g.get_particles_in_lookup(99).is_empty());
}

#[test]
fn delete_moves_last_into_hole() {
    let mut g = grid(3, 3);
    let mut p: SimParticles<char> = SimParticles::new();
    add_particle(&mut g, &mut p, 'a', 0, 0);
    add_particle(&mut g, &mut p, 'b', 1, 1);
    add_particle(&mut g, &mut p, 'c', 2, 2);
    delete_particle(&mut g, &mut p, 0);
    assert_eq!(p.data, vec!['c', 'b']);
    assert_eq!(p.lookup_index, vec![8, 4]);
    assert_eq!(g.get_particles_in_lookup(8), vec![0]);
    assert!(g.get_particles_in_lookup(0).is_empty());
    assert_consistent(&g, &p);
    delete_particle(&mut g, &mut p, 1);
    assert_eq!(p.data, vec!['c']);
    assert_consistent(&g, &p);
}

#[test]
fn lookup_bucket_operations() {
    let mut g = grid(2, 2);
    g.add_particle_to_lookup(7, 1);
    g.add_particle_to_lookup(8, 1);
    g.add_particle_to_lookup(9, 1);
    g.add_particle_to_lookup(5, 4);
    assert_eq!(g.spatial_lookup[1], vec![7, 8, 9]);
    g.remove_particle_from_lookup(7, 1);
    assert_eq!(g.spatial_lookup[1], vec![9, 8]);
    g.remove_particle_from_lookup(42, 1);
    g.remove_particle_from_lookup(9, 17);
    assert_eq!(g.spatial_lookup[1], vec![9, 8]);
}

#[test]
fn drain_style_deletion_counts() {
    // Fifty particles around a drain; the ones marked as close enough are deleted.
    let mut g = grid(30, 30);
    let mut p: SimParticles<usize> = SimParticles::new();
    for i in 0..50usize {
        add_particle(&mut g, &mut p, i, 14 + i % 3, 14 + (i / 3) % 3);
    }
    let doomed: Vec<bool> = (0..50).map(|i| i % 4 == 0).collect();
    let removed = delete_marked_particles(&mut g, &mut p, &doomed);
    assert_eq!(removed, 13);
    assert_eq!(p.len(), 37);
    assert!(p.data.iter().all(|i| i % 4 != 0));
    assert_consistent(&g, &p);
    let kept = p.data.clone();
    let none = vec![false; 37];
    assert_eq!(delete_marked_particles(&mut g, &mut p, &none), 0);
    assert_eq!(p.len(), 37);
    assert_eq!(p.data, kept);
    let all = vec![true; 37];
    assert_eq!(delete_marked_particles(&mut g, &mut p, &all), 37);
    assert_eq!(p.len(), 0);
    assert_consistent(&g, &p);
}

#[test]
fn delete_cell_and_everything() {
    let mut g = grid(3, 3);
    let mut p: SimParticles<u8> = SimParticles::new();
    add_particle(&mut g, &mut p, 1, 1, 1);
    add_particle(&mut g, &mut p, 2, 0, 0);
    add_particle(&mut g, &mut p, 3, 1, 1);
    add_particle(&mut g, &mut p, 4, 2, 0);
    assert_eq!(g.delete_all_particles_in_cell(&mut p, 4), 2);
    assert_eq!(p.data, vec![4, 2]);
    assert!(p.lookup_index.iter().all(|i| *i != 4));
    assert_consistent(&g, &p);
    delete_all_particles(&mut g, &mut p);
    assert_eq!(p.len(), 0);
    assert!(g.spatial_lookup.iter().all(|b| b.is_empty()));
}

#[test]
fn label_cells_twice_is_label_cells_once() {
    let mut g = grid(4, 4);
    let mut p: SimParticles<()> = SimParticles::new();
    assert!(g.set_grid_cell_type(0, 0, SimGridCellType::Solid).is_ok());
    assert!(g.set_grid_cell_type(3, 3, SimGridCellType::Fluid).is_ok());
    add_particle(&mut g, &mut p, (), 1, 2);
    add_particle(&mut g, &mut p, (), 0, 0);
    g.label_cells();
    let once = g.cell_type.clone();
    assert_eq!(once[1][2], SimGridCellType::Fluid);
    assert_eq!(once[0][0], SimGridCellType::Solid);
    assert_eq!(once[3][3], SimGridCellType::Air);
    assert_eq!(once[2][2], SimGridCellType::Air);
    g.label_cells();
    assert_eq!(g.cell_type, once);
}

#[test]
fn nearby_particles_do_not_wrap() {
    let mut g = grid(3, 4);
    let mut p: SimParticles<()> = SimParticles::new();
    // One particle per cell: handle h sits in cell h.
    for r in 0..3 {
        for c in 0..4 {
            add_particle(&mut g, &mut p, (), r, c);
        }
    }
    // Cell (1, 0): left border, no wrap to the end of row 0.
    assert_eq!(g.get_nearby_particles(4), vec![4, 5, 0, 1, 8, 9]);
    // Cell (1, 3): right border, no wrap to the start of row 2.
    assert_eq!(g.get_nearby_particles(7), vec![7, 6, 3, 2, 11, 10]);
    // Interior cell (1, 1).
    assert_eq!(g.get_nearby_particles(5), vec![5, 4, 6, 1, 0, 2, 9, 8, 10]);
    // Corner (0, 0).
    assert_eq!(g.get_nearby_particles(0), vec![0, 1, 4, 5]);
}

#[test]
fn fluid_particles_and_projected_cells() {
    let mut g = grid(3, 3);
    let mut p: SimParticles<()> = SimParticles::new();
    add_particle(&mut g, &mut p, (), 2, 2);
    add_particle(&mut g, &mut p, (), 0, 1);
    add_particle(&mut g, &mut p, (), 2, 2);
    g.label_cells();
    assert_eq!(g.particles_in_fluid_cells(), vec![1, 0, 2]);
    assert_eq!(g.projected_cells(), vec![1, 8]);
    // Walled in on all four sides, a Fluid cell drops out of the projection.
    let walls = vec![(1, 0), (0, 0), (0, 2), (1, 1)];
    add_wall_cells(&mut g, &mut p, &walls);
    assert_eq!(g.projected_cells(), vec![8]);
}

#[test]
fn walls_delete_their_particles() {
    let mut g = grid(4, 4);
    let mut p: SimParticles<u8> = SimParticles::new();
    add_particle(&mut g, &mut p, 1, 1, 1);
    add_particle(&mut g, &mut p, 2, 1, 2);
    add_particle(&mut g, &mut p, 3, 1, 1);
    let cells = vec![(1, 1), (9, 9)];
    assert_eq!(add_wall_cells(&mut g, &mut p, &cells), 2);
    assert_eq!(p.data, vec![2]);
    assert_eq!(g.cell_type[1][1], SimGridCellType::Solid);
    assert_eq!(g.cell_type[1][2], SimGridCellType::Air);
    assert_consistent(&g, &p);
    remove_wall_cells(&mut g, &cells);
    assert_eq!(g.cell_type[1][1], SimGridCellType::Air);
}
