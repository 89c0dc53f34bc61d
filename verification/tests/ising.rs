//! Tests of the Ising-model library parts: lattice, Wolff cluster growth
//! and the ramp's update schemes.

use md_ising::ising::lattice::Lattice;
use md_ising::ising::metropolis::MetropolisSweep;
use md_ising::ising::ramp::{SamplerFault, Update, check_sampler, frame_sweep, spin_text};
use md_ising::ising::wolff::{WolffCluster, WolffStats};
use rand::rngs::StdRng;
use rand::{Rng, SeedableRng};

/// L x L checkerboard built from an all-up lattice.
fn checkerboard(l: usize) -> Lattice {
    let mut lat = Lattice::all_up(l);
    for y in 0..l {
        for x in 0..l {
            if (x + y) % 2 == 1 {
                lat.flip(y * l + x);
            }
        }
    }
    lat
}

fn magnetization(lat: &Lattice) -> f64 {
    lat.spin_sum() as f64 / (lat.l * lat.l) as f64
}

fn energy_per_site(lat: &Lattice) -> f64 {
    lat.energy() as f64 / (lat.l * lat.l) as f64
}

/// One Wolff step with bond decisions `draw < p_add`, as the sampler does.
fn cluster_flip(lattice: &mut Lattice, rng: &mut StdRng, p_add: f64) -> WolffStats {
    let mut cluster = WolffCluster::start_random(lattice, rng);
    while cluster.next_candidate(lattice).is_some() {
        let accept = rng.gen::<f64>() < p_add;
        cluster.decide(lattice, accept);
    }
    cluster.finish(lattice)
}

/// The Metropolis acceptance rule: min(1, exp(-delta_e / t)) against a
/// uniform draw.
fn should_accept(delta_e: f64, t: f64, draw: f64) -> bool {
    if delta_e <= 0.0 {
        return true;
    }
    draw < (-delta_e / t).exp()
}

/// One Metropolis sweep of l*l proposals, as the sampler drives it.
fn sweep(lattice: &mut Lattice, rng: &mut StdRng, t: f64) -> md_ising::ising::metropolis::SweepStats {
    let mut proposals = MetropolisSweep::start(lattice);
    while !proposals.is_done() {
        let i = proposals.propose(lattice, rng);
        let accept = should_accept(proposals.energy_change(lattice, i) as f64, t, rng.gen::<f64>());
        proposals.apply(lattice, i, accept);
    }
    proposals.finish()
}

fn add_probability(t: f64) -> f64 {
    1.0 - (-2.0 / t).exp()
}

#[test]
fn all_up_energy_is_minus_two_per_site() {
    let lat = Lattice::all_up(4);
    assert_eq!(lat.energy() as f64, -32.0);
    assert_eq!(energy_per_site(&lat), -2.0);
}

#[test]
fn checkerboard_energy_is_plus_two_per_site() {
    let lat = checkerboard(4);
    assert_eq!(lat.energy() as f64, 32.0);
}

#[test]
fn magnetization_is_per_spin_signed() {
    let lat = Lattice::all_up(4);
    assert_eq!(magnetization(&lat), 1.0);
    let mut mixed = Lattice::all_up(4);
    mixed.flip(5);
    assert_eq!(magnetization(&mixed), 0.875);
    assert_eq!(mixed.spin_sum(), 14);
}

#[test]
fn delta_e_matches_direct_energy_change() {
    let mut rng = rand::rngs::StdRng::seed_from_u64(7);
    let mut lat = checkerboard(4);
    for _ in 0..20 {
        let i = rng.gen_range(0..16);
        let de = lat.delta_e(i);
        let e_before = lat.energy();
        lat.flip(i);
        let e_after = lat.energy();
        assert_eq!(e_after - e_before, de, "site {i}: de={de}, e_before={e_before}, e_after={e_after}");
        lat.flip(i);
    }
}

#[test]
fn delta_e_matches_energy_change_on_random_lattices() {
    let mut rng = rand::rngs::StdRng::seed_from_u64(99);
    for l in [2usize, 3, 5] {
        let mut lat = Lattice::all_up(l);
        for i in 0..l * l {
            if rng.gen::<bool>() {
                lat.flip(i);
            }
        }
        for i in 0..l * l {
            let de = lat.delta_e(i);
            let e0 = lat.energy();
            lat.flip(i);
            assert_eq!(lat.energy() - e0, de, "l = {l}, site {i}");
            lat.flip(i);
            assert_eq!(lat.energy(), e0);
        }
    }
}

#[test]
fn delta_e_all_up_flip_costs_plus_8() {
    let lat = Lattice::all_up(4);
    assert_eq!(lat.delta_e(0) as f64, 8.0);
}

#[test]
fn periodic_boundary_neighbours_wrap() {
    let mut lat = Lattice::all_up(3);
    lat.flip(6);
    assert_eq!(lat.neighbour_sum(0), 2);
    assert_eq!(lat.delta_e(0) as f64, 4.0);
}

#[test]
fn neighbours_follow_the_documented_order() {
    let lat = Lattice::all_up(4);
    // Site 5 = (x=1, y=1): (x+1,y), (x-1,y), (x,y+1), (x,y-1).
    assert_eq!(lat.neighbours(5), [6, 4, 9, 1]);
    // Corner site 0 wraps on both axes.
    assert_eq!(lat.neighbours(0), [1, 3, 4, 12]);
    // Last site 15 = (3, 3).
    assert_eq!(lat.neighbours(15), [12, 14, 3, 11]);
}

#[test]
fn get_and_flip_reverse_a_single_spin() {
    let mut lat = Lattice::all_up(2);
    lat.flip(3);
    assert_eq!(lat.get(3), -1);
    assert_eq!(lat.get(0), 1);
    assert_eq!(lat.spins, vec![1, 1, 1, -1]);
    lat.flip(3);
    assert_eq!(lat.spins, vec![1, 1, 1, 1]);
}

#[test]
fn one_site_lattice_is_its_own_neighbour() {
    let lat = Lattice::all_up(1);
    assert_eq!(lat.neighbour_sum(0), 4);
    assert_eq!(lat.energy(), -2);
    // Flipping the only spin leaves the energy unchanged, unlike delta_e.
    assert_eq!(lat.delta_e(0), 8);
    let mut flipped = lat.clone();
    flipped.flip(0);
    assert_eq!(flipped.energy(), -2);
}

#[test]
fn empty_lattice_has_no_energy() {
    let lat = Lattice::all_up(0);
    assert_eq!(lat.energy(), 0);
    assert_eq!(lat.spin_sum(), 0);
}

#[test]
fn low_temperature_cluster_is_whole_lattice_from_all_up() {
    let mut rng = rand::rngs::StdRng::seed_from_u64(17);
    let mut lat = Lattice::all_up(4);
    let stats = cluster_flip(&mut lat, &mut rng, add_probability(1e-9));
    assert_eq!(stats.cluster_size, 16);
    assert_eq!(magnetization(&lat), -1.0);
    assert_eq!(energy_per_site(&lat), -2.0);
}

#[test]
fn high_temperature_cluster_is_seed_site_alone() {
    let mut rng = rand::rngs::StdRng::seed_from_u64(19);
    let mut lat = Lattice::all_up(4);
    let stats = cluster_flip(&mut lat, &mut rng, add_probability(1e12));
    assert_eq!(stats.cluster_size, 1);
    assert!((magnetization(&lat) - 0.875).abs() < 1e-12);
}

#[test]
fn flipped_sites_match_cluster_size_and_are_connected_in_practice() {
    let mut rng = rand::rngs::StdRng::seed_from_u64(23);
    let mut lat = Lattice::all_up(4);
    let before = lat.spins.clone();
    let stats = cluster_flip(&mut lat, &mut rng, add_probability(2.269));
    let flips: usize = before.iter().zip(lat.spins.iter()).filter(|(a, b)| a != b).count();
    assert_eq!(flips, stats.cluster_size);
    assert!(stats.cluster_size > 1);
}

#[test]
fn cluster_grows_only_over_equal_spins() {
    // Column x = 0 is down, the rest up; accepting every bond from a down
    // seed takes exactly the down column.
    let mut lat = Lattice::all_up(4);
    for y in 0..4 {
        lat.flip(y * 4);
    }
    let mut cluster = WolffCluster::start(&lat, 8);
    let mut offered = Vec::new();
    while let Some(c) = cluster.next_candidate(&lat) {
        offered.push(c);
        cluster.decide(&lat, true);
    }
    offered.sort_unstable();
    assert_eq!(offered, vec![0, 4, 12]);
    let stats = cluster.finish(&mut lat);
    assert_eq!(stats, WolffStats { cluster_size: 4 });
    assert_eq!(lat.spin_sum(), 16);
}

#[test]
fn refused_bonds_stop_the_cluster() {
    let mut lat = Lattice::all_up(3);
    let mut cluster = WolffCluster::start(&lat, 4);
    let mut first = true;
    while cluster.next_candidate(&lat).is_some() {
        // Accept only the first candidate; refuse everything else.
        cluster.decide(&lat, first);
        first = false;
    }
    let stats = cluster.finish(&mut lat);
    assert_eq!(stats.cluster_size, 2);
    assert_eq!(lat.spin_sum(), 9 - 4);
}

#[test]
fn update_names_and_time_units() {
    assert_eq!(Update::from_name("metropolis"), Some(Update::Metropolis));
    assert_eq!(Update::from_name("wolff"), Some(Update::Wolff));
    assert_eq!(Update::from_name("swendsen"), None);
    assert_eq!(Update::Metropolis.time_unit(), "sweep");
    assert_eq!(Update::Wolff.time_unit(), "cluster_flip");
}

#[test]
fn frames_at_multiples_of_every_with_cumulative_global_sweep() {
    let mut frames = Vec::new();
    for k in 0..2 {
        for j in 1..=6 {
            if let Some(g) = frame_sweep(k, 6, j, 2) {
                frames.push(g);
            }
        }
    }
    assert_eq!(frames, vec![2, 4, 6, 8, 10, 12]);
}

#[test]
fn every_zero_records_no_frames() {
    for k in 0..2 {
        for j in 1..=3 {
            assert_eq!(frame_sweep(k, 3, j, 0), None);
        }
    }
}

#[test]
fn spin_text_writes_ones_and_zeros() {
    let mut lat = Lattice::all_up(2);
    lat.flip(1);
    let text: String = spin_text(&lat.spins).into_iter().collect();
    assert_eq!(text, "1011");
}

#[test]
fn sampler_arguments_name_the_update() {
    assert_eq!(check_sampler("metropolis", 4, 5), Ok(Update::Metropolis));
    assert_eq!(check_sampler("wolff", 1, 1), Ok(Update::Wolff));
}

#[test]
fn sampler_arguments_rejected_in_order() {
    assert_eq!(check_sampler("glauber", 0, 0), Err(SamplerFault::UnknownUpdate));
    assert_eq!(check_sampler("Wolff", 4, 5), Err(SamplerFault::UnknownUpdate));
    assert_eq!(check_sampler("wolff", 0, 0), Err(SamplerFault::ZeroSide));
    assert_eq!(check_sampler("metropolis", 4, 0), Err(SamplerFault::ZeroMeasure));
}

#[test]
fn candidates_are_offered_in_depth_first_order() {
    // Seed 4 of an all-up 3x3 lattice, every bond accepted: the neighbours
    // of each popped member are offered in the order right, left, down, up,
    // and the most recently added member is examined next.
    let lat = Lattice::all_up(3);
    let mut cluster = WolffCluster::start(&lat, 4);
    let mut offered = Vec::new();
    while let Some(c) = cluster.next_candidate(&lat) {
        offered.push(c);
        cluster.decide(&lat, true);
    }
    assert_eq!(offered, vec![5, 3, 7, 1, 2, 0, 6, 8]);
}

#[test]
fn proposals_are_sites_of_the_lattice_and_vary() {
    let lat = Lattice::all_up(4);
    let sweep = MetropolisSweep::start(&lat);
    let mut rng = StdRng::seed_from_u64(5);
    let mut seen = [false; 16];
    for _ in 0..400 {
        let site = sweep.propose(&lat, &mut rng);
        assert!(site < 16);
        seen[site] = true;
    }
    assert!(seen.iter().all(|&s| s), "every site is proposed at some point");
}

#[test]
fn random_seeds_are_sites_of_the_lattice_and_vary() {
    let lat = Lattice::all_up(3);
    let mut rng = StdRng::seed_from_u64(8);
    let mut seen = [false; 9];
    for _ in 0..300 {
        let mut cluster = WolffCluster::start_random(&lat, &mut rng);
        let first = cluster.next_candidate(&lat);
        assert!(first.is_some());
        seen[cluster_seed(&lat, first.unwrap())] = true;
    }
    assert!(seen.iter().filter(|&&s| s).count() > 1, "seeds are not all the same site");
}

/// On an all-up 3x3 lattice the first candidate of a fresh cluster is the
/// seed's right neighbour; recover the seed from it.
fn cluster_seed(lat: &Lattice, first: usize) -> usize {
    let l = lat.l;
    let (x, y) = (first % l, first / l);
    y * l + (x + l - 1) % l
}

#[test]
fn low_temperature_sweep_from_all_up_rejects_everything() {
    let mut rng = StdRng::seed_from_u64(11);
    let mut lat = Lattice::all_up(4);
    let stats = sweep(&mut lat, &mut rng, 1e-12);
    assert_eq!(stats.accepted, 0);
    assert_eq!(lat, Lattice::all_up(4)); // no flip can lower the energy from all-up
}

#[test]
fn high_temperature_sweep_accepts_exactly_l2_proposals() {
    let mut rng = StdRng::seed_from_u64(13);
    let mut lat = Lattice::all_up(4);
    let stats = sweep(&mut lat, &mut rng, 1e12);
    assert_eq!(stats.accepted, 16); // one sweep is exactly l*l proposals
}
