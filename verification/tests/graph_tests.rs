use citygrid::{Config, ConnectDir, Grid, Intersection};

fn config(grid_size: usize) -> Config {
    // World extent grid_size * 3, chunked by 3.
    Config { grid_size, street_width: 1, block_width: 2, chunk_size: 3 }
}

#[test]
fn lattice_counts() {
    for gs in 1..6usize {
        let g = Grid::generate(&config(gs));
        assert_eq!(g.grid_size, gs);
        assert_eq!(g.intersections.len(), gs * gs);
        assert_eq!(g.streets.len(), 2 * gs * (gs - 1));
    }
}

#[test]
fn diagonal_slots_stay_empty() {
    let g = Grid::generate(&config(4));
    for inter in g.intersections.iter() {
        assert!(inter.ne.is_none());
        assert!(inter.se.is_none());
        assert!(inter.sw.is_none());
        assert!(inter.nw.is_none());
    }
}

#[test]
fn intersections_carry_grid_coordinates() {
    let gs = 3usize;
    let g = Grid::generate(&config(gs));
    for gy in 0..gs {
        for gx in 0..gs {
            let inter = &g.intersections[gy * gs + gx];
            assert_eq!(inter.x, gx);
            assert_eq!(inter.y, gy);
        }
    }
}

#[test]
fn neighbors_share_one_street() {
    let gs = 3usize;
    let g = Grid::generate(&config(gs));
    for gy in 0..gs {
        for gx in 0..gs {
            let inter = &g.intersections[gy * gs + gx];
            // East slot is present short of the east edge and is the same
            // handle as the east neighbor's west slot.
            if gx + 1 < gs {
                let id = inter.e.expect("east street missing");
                let east = &g.intersections[gy * gs + gx + 1];
                assert_eq!(east.w, Some(id));
                let st = &g.streets[id];
                assert_eq!(st.inter1, gy * gs + gx);
                assert_eq!(st.inter1_dir, ConnectDir::E);
                assert_eq!(st.inter2, gy * gs + gx + 1);
                assert_eq!(st.inter2_dir, ConnectDir::W);
            } else {
                assert!(inter.e.is_none());
            }
            // The same for south/north.
            if gy + 1 < gs {
                let id = inter.s.expect("south street missing");
                let south = &g.intersections[(gy + 1) * gs + gx];
                assert_eq!(south.n, Some(id));
                let st = &g.streets[id];
                assert_eq!(st.inter1, gy * gs + gx);
                assert_eq!(st.inter1_dir, ConnectDir::S);
                assert_eq!(st.inter2, (gy + 1) * gs + gx);
                assert_eq!(st.inter2_dir, ConnectDir::N);
            } else {
                assert!(inter.s.is_none());
            }
            if gx == 0 {
                assert!(inter.w.is_none());
            }
            if gy == 0 {
                assert!(inter.n.is_none());
            }
        }
    }
}

#[test]
fn single_intersection_grid_has_no_streets() {
    let g = Grid::generate(&config(1));
    assert_eq!(g.intersections.len(), 1);
    assert_eq!(g.streets.len(), 0);
    let inter = &g.intersections[0];
    assert!(inter.n.is_none() && inter.e.is_none() && inter.s.is_none() && inter.w.is_none());
}

#[test]
fn new_intersection_is_unconnected() {
    let inter = Intersection::new(5, 9);
    assert_eq!(inter.x, 5);
    assert_eq!(inter.y, 9);
    assert!(inter.n.is_none() && inter.ne.is_none() && inter.e.is_none() && inter.se.is_none());
    assert!(inter.s.is_none() && inter.sw.is_none() && inter.w.is_none() && inter.nw.is_none());
}
