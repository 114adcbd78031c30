use harmonic_pickup::anti_node::anti_nodes_scaled;
use harmonic_pickup::defaults::{
    default_heat_map_resolution, default_search_limit, default_string_length, default_weights,
    heat_map_hex_stops,
};
use harmonic_pickup::heat_map::build_heat_map;
use harmonic_pickup::score::score_at;
use harmonic_pickup::search::{find_optimal_pickup_positions, SearchError};

#[test]
fn anti_nodes_count_spacing_and_range() {
    // positions are scaled by 2 * harmonic: anti-node i of harmonic h sits at
    // (2i + 1) * length there, i.e. (i + 1/2) * length / h of the string
    for harmonic in 1..=7u64 {
        let length = 650u64;
        let nodes = anti_nodes_scaled(length, harmonic);
        assert_eq!(nodes.len() as u64, harmonic);
        // first anti-node half a segment in
        assert_eq!(nodes[0], length);
        for i in 1..nodes.len() {
            // evenly spaced by a full segment (2 * length scaled)
            assert_eq!(nodes[i] - nodes[i - 1], 2 * length);
        }
        for &n in nodes.iter() {
            // strictly inside the string (2 * harmonic * length scaled)
            assert!(0 < n && n < 2 * harmonic * length);
        }
    }
}

#[test]
fn anti_nodes_concrete_values() {
    let nodes = anti_nodes_scaled(650, 2);
    // scale 4: 650 / 4 = 162.5 mm and 1950 / 4 = 487.5 mm
    assert_eq!(nodes, vec![650, 1950]);
    let nodes = anti_nodes_scaled(1000, 3);
    assert_eq!(nodes, vec![1000, 3000, 5000]);
}

#[test]
fn score_is_full_weight_on_an_anti_node() {
    // position 1/6 of the string is the first anti-node of harmonic 3
    // (weight index 1); its contribution is weight * FALLOFF_ONE exactly
    let weights = vec![0, 1000, 0, 0, 0, 0];
    assert_eq!(score_at(1, 6, &weights), 1_000_000_000);
}

#[test]
fn score_reaches_the_weight_sum_on_a_shared_anti_node() {
    // position 1/4 of the string is an anti-node of both harmonic 2 and
    // harmonic 6 (weight indices 0 and 4): with weight on those two alone,
    // the score is exactly FALLOFF_ONE times the weight sum
    let weights = vec![500, 0, 0, 0, 800, 0];
    assert_eq!(score_at(1, 4, &weights), 1_300_000_000);
}

#[test]
fn score_depends_only_on_the_fraction() {
    // the same fraction of the string scores the same whatever the
    // denominator: 1/4 == 5/20 == 250/1000
    let weights = default_weights();
    let quarter = score_at(250, 1000, &weights);
    assert_eq!(score_at(1, 4, &weights), quarter);
    assert_eq!(score_at(5, 20, &weights), quarter);
    assert_eq!(quarter, 3_547_057_500);
}

#[test]
fn score_concrete_values() {
    let weights = default_weights();
    // the end of the string is one half-wavelength from every anti-node
    assert_eq!(score_at(0, 1000, &weights), 0);
    assert_eq!(score_at(250, 1000, &weights), 3_547_057_500);
    assert_eq!(score_at(500, 1000, &weights), 3_750_000_000);
}

#[test]
fn score_rises_toward_an_anti_node() {
    // single harmonic 2, anti-node at 1/4 of the string: the score never
    // falls while the distance to the anti-node shrinks
    let weights = vec![1000];
    let samples = [150u64, 175, 200, 225, 250];
    let mut prev = score_at(samples[0], 1000, &weights);
    for &pos in &samples[1..] {
        let next = score_at(pos, 1000, &weights);
        assert!(next >= prev);
        prev = next;
    }
    assert_eq!(prev, 1_000_000_000);
    assert_eq!(score_at(150, 1000, &weights), 807_692_000);
}

#[test]
fn search_default_setup() {
    let length = default_string_length();
    let weights = default_weights();
    let limit = default_search_limit(length) as usize;
    assert_eq!(limit, 325);
    let r = find_optimal_pickup_positions(length, &weights, limit).unwrap();
    assert_eq!(r.bridge_index, 101);
    assert_eq!(r.bridge_milli, 65_650); // 65.65 mm from the bridge
    assert_eq!(r.neck_index, Some(224));
    assert_eq!(r.neck_milli, 145_600); // 145.6 mm from the bridge
    // both positions inside the searched range [0, 325/1000 * 650 mm]
    assert!(r.bridge_milli <= 211_250);
    assert!(r.neck_milli <= 211_250);
    // the two pickups sit at least a tenth of the string apart
    assert!(r.neck_milli - r.bridge_milli >= 65_000);
}

#[test]
fn search_all_zero_weights_falls_back() {
    // every sample ties at score 0: the bridge stays on sample 0 and the
    // neck falls back to three tenths of the string
    let weights = vec![0, 0, 0, 0, 0, 0];
    let r = find_optimal_pickup_positions(650, &weights, 325).unwrap();
    assert_eq!(r.bridge_index, 0);
    assert_eq!(r.bridge_milli, 0);
    assert_eq!(r.neck_index, None);
    assert_eq!(r.neck_milli, 195_000); // 0.3 * 650 mm
}

#[test]
fn search_single_sample_falls_back() {
    let weights = default_weights();
    let r = find_optimal_pickup_positions(650, &weights, 0).unwrap();
    assert_eq!(r.bridge_index, 0);
    assert_eq!(r.bridge_milli, 0);
    assert_eq!(r.neck_index, None);
    assert_eq!(r.neck_milli, 195_000);
}

#[test]
fn search_rejects_zero_length() {
    let weights = default_weights();
    assert_eq!(
        find_optimal_pickup_positions(0, &weights, 100),
        Err(SearchError::InvalidLength)
    );
}

#[test]
fn search_rejects_limit_past_half_the_samples() {
    let weights = default_weights();
    assert_eq!(
        find_optimal_pickup_positions(650, &weights, 501),
        Err(SearchError::SearchLimitOutOfRange)
    );
    assert!(find_optimal_pickup_positions(650, &weights, 500).is_ok());
}

#[test]
fn heat_map_matches_the_score_field() {
    let weights = default_weights();
    let heat = build_heat_map(&weights, 10);
    assert_eq!(heat.len(), 10);
    // every sample is the score of its fraction of the string
    for i in 0..10u64 {
        assert_eq!(heat[i as usize], score_at(i, 10, &weights));
    }
    assert_eq!(
        heat,
        vec![
            0,
            5_543_994_000,
            3_602_286_750,
            3_661_947_000,
            3_547_785_750,
            3_750_000_000,
            3_547_785_750,
            3_661_947_000,
            3_602_286_750,
            5_543_994_000,
        ]
    );
}

#[test]
fn heat_map_spans_the_full_string() {
    // the heat map covers the whole string however far the search went
    let weights = default_weights();
    let resolution = default_heat_map_resolution();
    let heat = build_heat_map(&weights, resolution);
    assert_eq!(heat.len(), resolution);
    assert_eq!(heat[0], score_at(0, resolution as u64, &weights));
    assert_eq!(
        heat[resolution - 1],
        score_at(resolution as u64 - 1, resolution as u64, &weights)
    );
}

#[test]
fn default_parameters() {
    assert_eq!(default_string_length(), 650);
    assert_eq!(default_weights(), vec![150, 1500, 1500, 1500, 750, 750]);
    assert_eq!(default_search_limit(650), 325);
    assert_eq!(default_heat_map_resolution(), 1000);
    assert_eq!(
        heat_map_hex_stops(),
        vec![0x000000, 0x0000FF, 0x00FFFF, 0x00FF00, 0xFFFF00, 0xFF0000, 0xFFFFFF]
    );
}
