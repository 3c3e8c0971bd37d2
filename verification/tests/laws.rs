//! Exact values, edge cases and the library's laws on concrete inputs.

use std::collections::HashSet;

use error_forest::burst_ecology::{BurstCorrectionResult, BurstEcology};
use error_forest::distributed_spore::SporeNetwork;
use error_forest::gf256::GF256;
use error_forest::hub_tree::Ratio;
use error_forest::mycorrhizal_channel::{NoiseModel, SimpleRng};
use error_forest::reed_solomon::ReedSolomon;
use error_forest::runs::{count_ones, find_mismatch_runs};
use error_forest::symbols::{majority_value, vote_received};
use error_forest::{HubTree, MycorrhizalChannel, PhytoCode, SporeConfig};

fn quiet() -> NoiseModel {
    NoiseModel { burst_threshold: 0, burst_length: 0, random_threshold: 0, attenuation: None }
}

fn g(v: &[u8]) -> Vec<GF256> {
    v.iter().map(|&b| GF256(b)).collect()
}

// === GF(256) ===

#[test]
fn gf_mul_exact_value() {
    assert_eq!(GF256(0x57).mul(GF256(0x83)), GF256(0x31));
    assert_eq!(GF256(0x02).mul(GF256(0x80)), GF256(0x1d));
}

#[test]
fn gf_inv_div_pow_exact_values() {
    assert_eq!(GF256(0x53).inv(), GF256(0x8c));
    assert_eq!(GF256(0x57).div(GF256(0x83)), GF256(0x8d));
    assert_eq!(GF256(2).pow(8), GF256(0x1d));
    assert_eq!(GF256(0x37).pow(0), GF256(1));
    assert_eq!(GF256(0).pow(5), GF256(0));
    assert_eq!(GF256::new(7), GF256(7));
}

#[test]
fn gf_field_laws_on_many_values() {
    let vals: Vec<u8> = vec![0, 1, 2, 3, 0x1d, 0x53, 0x80, 0xca, 0xff];
    for &a in &vals {
        for &b in &vals {
            let (x, y) = (GF256(a), GF256(b));
            assert_eq!(x.mul(y), y.mul(x));
            assert_eq!(x.add(y).sub(y), x);
            for &c in &vals {
                let z = GF256(c);
                assert_eq!(x.mul(y).mul(z), x.mul(y.mul(z)));
                assert_eq!(x.mul(y.add(z)), x.mul(y).add(x.mul(z)));
            }
            if b != 0 {
                assert_eq!(x.div(y).mul(y), x);
            }
        }
        if a != 0 {
            assert_eq!(GF256(a).mul(GF256(a).inv()), GF256(1));
            assert_eq!(GF256(a).pow(255), GF256(1));
        }
    }
}

#[test]
fn gf_polynomial_exact_values() {
    assert_eq!(GF256::eval_poly(&g(&[1, 2, 3]), GF256(2)), GF256(3));
    assert_eq!(GF256::eval_poly(&[], GF256(9)), GF256(0));
    assert_eq!(GF256::poly_mul(&g(&[1, 1]), &g(&[1, 2])), g(&[1, 3, 2]));
    let (q, r) = GF256::poly_div(&g(&[1, 0, 0, 0]), &g(&[1, 3, 2]));
    assert_eq!(q, g(&[1, 3]));
    assert_eq!(r, g(&[0, 0, 7, 6]));
    let (q, r) = GF256::poly_div(&g(&[5]), &g(&[1, 3, 2]));
    assert_eq!(q, g(&[]));
    assert_eq!(r, g(&[5]));
    let (_, r) = GF256::poly_div(&g(&[1, 3, 2]), &g(&[1, 3, 2]));
    assert_eq!(r, g(&[0]));
    let (q, r) = GF256::poly_div(&g(&[1, 3, 0, 0]), &g(&[1, 3, 2]));
    assert_eq!((q, r), (g(&[1, 0]), g(&[0, 0, 2, 0])));
    let a = g(&[7, 0, 9]);
    let b = g(&[1, 3, 2, 5]);
    assert_eq!(GF256::poly_div(&GF256::poly_mul(&a, &b), &b), (a.clone(), g(&[0])));
    assert_eq!(GF256::poly_mul(&a, &b), GF256::poly_mul(&b, &a));
    assert_eq!(GF256::sum(&g(&[1, 2, 4])), GF256(7));
    assert_eq!(GF256::sum(&[]), GF256(0));
}

#[test]
fn gf_evaluation_of_product_is_product_of_values() {
    let a = g(&[3, 0, 7, 1]);
    let b = g(&[9, 4, 0x80]);
    let p = GF256::poly_mul(&a, &b);
    for x in [0u8, 1, 2, 0x53, 0xff] {
        let x = GF256(x);
        assert_eq!(GF256::eval_poly(&p, x), GF256::eval_poly(&a, x).mul(GF256::eval_poly(&b, x)));
    }
}

// === Reed-Solomon ===

#[test]
fn rs_encode_exact_value() {
    let rs = ReedSolomon::new(10, 4);
    assert_eq!(rs.encode(&[1, 2, 3, 4, 5, 6, 7, 8, 9, 10]), vec![1, 2, 3, 4, 5, 6, 7, 8, 9, 10, 192, 143, 40, 108]);
    assert_eq!(rs.t(), 2);
    assert_eq!(rs.n(), 14);
}

#[test]
fn rs_roundtrip_law_on_several_inputs() {
    let rs = ReedSolomon::new(6, 4);
    for data in [[0u8; 6], [1, 2, 3, 4, 5, 6], [255, 0, 128, 7, 9, 200], [185, 15, 157, 228, 67, 79]] {
        let cw = rs.encode(&data);
        assert_eq!(rs.decode(&cw), Ok(data.to_vec()));
    }
}

#[test]
fn rs_parity_keeps_every_remainder_coefficient() {
    // Remainders ending in a zero coefficient keep that zero in place.
    let rs = ReedSolomon::new(3, 2);
    assert_eq!(rs.encode(&[0, 1, 3]), vec![0, 1, 3, 2, 0]);
    assert_eq!(rs.decode(&[0, 1, 3, 2, 0]), Ok(vec![0, 1, 3]));
    assert_eq!(ReedSolomon::new(2, 2).encode(&[1, 3]), vec![1, 3, 2, 0]);
}

#[test]
fn rs_corrects_errors_up_to_t() {
    let rs = ReedSolomon::new(10, 4);
    let data = [10, 20, 30, 40, 50, 60, 70, 80, 90, 100];
    let cw = rs.encode(&data);
    assert_eq!(cw[10..].to_vec(), vec![208, 136, 165, 243]);
    for pos in 0..cw.len() {
        let mut bad = cw.clone();
        bad[pos] ^= 0x37;
        assert_eq!(rs.decode(&bad), Ok(data.to_vec()), "single error at {}", pos);
        for pos2 in pos + 1..cw.len() {
            let mut two = bad.clone();
            two[pos2] ^= 0xc5;
            assert_eq!(rs.decode(&two), Ok(data.to_vec()), "errors at {} and {}", pos, pos2);
        }
    }
    let rs13 = ReedSolomon::new(13, 4);
    let msg = b"mycorrhiza!!!".to_vec();
    let mut rx = rs13.encode(&msg);
    rx[2] ^= 0xAB;
    rx[7] ^= 0xCD;
    assert_eq!(rs13.decode(&rx), Ok(msg));
}

#[test]
fn rs_error_variants() {
    let rs = ReedSolomon::new(6, 4);
    assert_eq!(rs.decode(&[1, 2, 3]), Err("received length mismatch".to_string()));
    let rs2 = ReedSolomon::new(6, 2);
    let mut cw = rs2.encode(&[1, 2, 3, 4, 5, 6]);
    assert_eq!(cw, vec![1, 2, 3, 4, 5, 6, 13, 10]);
    cw[1] ^= 0xFF;
    cw[3] ^= 0xAA;
    assert_eq!(rs2.decode(&cw), Err("could not find all error positions".to_string()));
}

// === PhytoCode ===

#[test]
fn phyto_parity_exact_value() {
    let code = PhytoCode::new(4, 4, 2);
    assert_eq!(code.encode(&[10, 20, 30, 40]), vec![10, 20, 30, 40, 7, 117, 167, 130]);
}

#[test]
fn phyto_roundtrip_and_corrections() {
    let code = PhytoCode::new(4, 4, 2);
    let cw = code.encode(&[1, 2, 3, 4]);
    assert_eq!(cw, vec![1, 2, 3, 4, 41, 36, 57, 21]);
    assert_eq!(code.decode(&cw), Ok(vec![1, 2, 3, 4]));
    let mut one = cw.clone();
    one[1] ^= 0x33;
    assert_eq!(code.decode(&one), Ok(vec![1, 2, 3, 4]));
    let mut parity_err = cw.clone();
    parity_err[5] ^= 3;
    assert_eq!(code.decode(&parity_err), Ok(vec![1, 2, 3, 4]));
}

#[test]
fn phyto_every_single_error_is_repaired() {
    let code = PhytoCode::new(8, 3, 1);
    let data: Vec<u8> = vec![0x10, 0x20, 0x30, 0x40, 0x50, 0x60, 0x70, 0x80];
    let cw = code.encode(&data);
    for pos in 0..cw.len() {
        for e in [1u8, 0x0f, 0x80, 0xff] {
            let mut bad = cw.clone();
            bad[pos] ^= e;
            assert_eq!(code.decode(&bad), Ok(data.clone()), "position {} error {}", pos, e);
        }
    }
}

#[test]
fn phyto_corrects_up_to_half_the_parity_in_data() {
    let code = PhytoCode::new(8, 8, 3);
    let data = vec![0x10, 0x20, 0x30, 0x40, 0x50, 0x60, 0x70, 0x80];
    assert_eq!(code.max_correctable(), 4);
    let cw = code.encode(&data);
    let mut two = cw.clone();
    two[1] ^= 0x0F;
    two[3] ^= 0x0F;
    assert_eq!(code.decode(&two), Ok(data.clone()));
    let mut four = cw.clone();
    for (pos, e) in [(0usize, 0x11u8), (2, 0x22), (5, 0x33), (7, 0x44)] {
        four[pos] ^= e;
    }
    assert_eq!(code.decode(&four), Ok(data.clone()));
    let small = PhytoCode::new(4, 4, 2);
    let mut pair = small.encode(&[1, 2, 3, 4]);
    pair[0] ^= 5;
    pair[2] ^= 9;
    assert_eq!(small.decode(&pair), Ok(vec![1, 2, 3, 4]));
}

#[test]
fn phyto_error_variants() {
    let code = PhytoCode::new(4, 4, 2);
    assert_eq!(code.decode(&[1, 2]), Err("received data too short".to_string()));
    let mut three = code.encode(&[1, 2, 3, 4]);
    three[0] ^= 5;
    three[1] ^= 9;
    three[2] ^= 7;
    assert_eq!(code.decode(&three), Err("could not correct errors".to_string()));
    assert_eq!(code.decode_multipath(&[]), Err("no received paths".to_string()));
}

#[test]
fn phyto_multipath_survives_any_single_path_failure() {
    let code = PhytoCode::new(8, 4, 3);
    let data = vec![0x11, 0x22, 0x33, 0x44, 0x55, 0x66, 0x77, 0x88];
    let other = code.encode(&[9, 9, 9, 9, 9, 9, 9, 9]);
    let paths = code.encode_multipath(&data);
    for j in 0..paths.len() {
        for bad in [other.clone(), vec![0xFF; 12], vec![], vec![0; 12]] {
            let mut damaged = paths.clone();
            damaged[j] = bad;
            assert_eq!(code.decode_multipath(&damaged), Ok(data.clone()), "path {} replaced", j);
        }
    }
}

#[test]
fn phyto_multipath_first_intact_path_decodes() {
    let code = PhytoCode::new(5, 3, 3);
    let data = [9u8, 8, 7, 6, 5];
    let paths = code.encode_multipath(&data);
    assert_eq!(paths.len(), 4);
    for p in 0..paths.len() {
        let mut damaged = paths.clone();
        for path in damaged.iter_mut().take(p) {
            path.clear();
        }
        assert_eq!(code.decode_multipath(&damaged), Ok(data.to_vec()));
    }
}

#[test]
fn phyto_repetition_comparison_without_noise() {
    let channel = MycorrhizalChannel::new(4, quiet());
    let code = PhytoCode::new(4, 4, 2);
    assert_eq!(code.compare_to_repetition(&[5, 6, 7, 8], &channel, 3), (0, 0));
}

// === Channel ===

#[test]
fn rng_exact_values() {
    let mut rng = SimpleRng::new(1);
    assert_eq!(rng.next_u64(), 1082269761);
    let mut zero = SimpleRng::new(0);
    assert_eq!(zero.next_u64(), 1082269761);
    let mut r8 = SimpleRng::new(1);
    assert_eq!(r8.next_u8(), (1082269761u64 & 0xff) as u8);
}

#[test]
fn transmit_exact_value() {
    let noise = NoiseModel { burst_threshold: 1048576, burst_length: 5, random_threshold: 0, attenuation: None };
    let channel = MycorrhizalChannel::new(10, noise);
    let received = channel.transmit(&[42u8; 20], 12345);
    assert_eq!(
        received,
        vec![42, 155, 50, 196, 233, 244, 237, 164, 195, 58, 254, 69, 119, 199, 200, 243, 35, 135, 194, 109]
    );
}

#[test]
fn transmit_zero_length_bursts_redraw() {
    // A burst of length zero corrupts nothing; the channel draws again at the same symbol
    // until a draw misses, which shifts the draws of the random-error pass.
    let noise = NoiseModel { burst_threshold: 1048576, burst_length: 0, random_threshold: 1048576, attenuation: None };
    let channel = MycorrhizalChannel::new(10, noise);
    let received = channel.transmit(&[42u8; 20], 12345);
    assert_eq!(
        received,
        vec![40, 42, 55, 42, 42, 42, 42, 42, 183, 16, 42, 55, 244, 184, 182, 27, 42, 195, 26, 107]
    );
}

#[test]
fn transmit_quiet_and_attenuated() {
    let channel = MycorrhizalChannel::new(3, quiet());
    assert_eq!(channel.transmit(&[1, 2, 3], 7), vec![1, 2, 3]);
    assert_eq!(channel.transmit(&[], 7), Vec::<u8>::new());
    let half: Vec<u8> = (0..256u32).map(|b| (b / 2) as u8).collect();
    let noise = NoiseModel { burst_threshold: 0, burst_length: 0, random_threshold: 0, attenuation: Some(half) };
    let channel = MycorrhizalChannel::new(3, noise);
    assert_eq!(channel.transmit(&[200, 201, 3], 42), vec![100, 100, 1]);
}

#[test]
fn count_and_classify_exact_values() {
    let a = [0u8, 0, 0, 0, 0, 0, 0];
    let b = [0xffu8, 0, 1, 3, 7, 0, 0x80];
    assert_eq!(MycorrhizalChannel::count_errors(&a, &b), (8 + 1 + 2 + 3 + 1, 5));
    assert_eq!(MycorrhizalChannel::count_errors(&a, &b[..2]), (8, 1));
    let c = MycorrhizalChannel::classify_errors(&a, &b);
    assert_eq!(c.bursts.len(), 1);
    assert_eq!((c.bursts[0].start, c.bursts[0].length), (2, 3));
    assert_eq!(c.random_errors, 2);
    assert_eq!(c.total_errors, 5);
    assert_eq!(find_mismatch_runs(&a, &b), vec![(0, 1), (2, 3), (6, 1)]);
    assert_eq!(count_ones(0xff), 8);
    assert_eq!(count_ones(0), 0);
}

#[test]
fn channel_links_and_routes() {
    let mut channel = MycorrhizalChannel::new(4, quiet());
    assert_eq!(channel.paths, vec![vec![0, 1], vec![0, 2], vec![1, 2], vec![1, 3], vec![2, 3], vec![3, 0]]);
    let routes: HashSet<Vec<usize>> = channel.find_paths(0, 3, 10).into_iter().collect();
    let expected: HashSet<Vec<usize>> =
        vec![vec![0, 3], vec![0, 1, 3], vec![0, 2, 3], vec![0, 1, 2, 3], vec![0, 2, 1, 3]].into_iter().collect();
    assert_eq!(routes, expected);
    assert_eq!(channel.find_paths(0, 3, 2).len(), 2);
    assert_eq!(channel.find_paths(2, 2, 3), vec![vec![2]]);
    assert_eq!(channel.find_paths(0, 3, 0), Vec::<Vec<usize>>::new());
    channel.add_path(vec![0, 4 - 1]);
    assert_eq!(channel.paths.len(), 7);
    let lonely = MycorrhizalChannel::new(1, quiet());
    assert_eq!(lonely.find_paths(0, 0, 5), vec![vec![0]]);
}

#[test]
fn majority_prefers_smallest_mode() {
    assert_eq!(majority_value(&[3, 1, 3, 1, 2]), 1);
    assert_eq!(majority_value(&[9, 9, 4]), 9);
    assert_eq!(majority_value(&[]), 0);
}

// === Burst ecology ===

#[test]
fn burst_decode_without_paths() {
    let eco = BurstEcology::new(5, 2, 3);
    let r = eco.decode(&[]);
    assert_eq!(
        (r.original_errors, r.corrected_errors, r.remaining_errors, r.burst_count, r.correction_success),
        (5, 0, 5, 0, false)
    );
}

#[test]
fn burst_unaltered_encoding_decodes() {
    for (k, parity, paths, data) in [
        (1usize, 3usize, 1usize, vec![105u8]),
        (3, 1, 1, vec![1, 0, 0]),
        (10, 6, 3, vec![10, 20, 30, 40, 50, 60, 70, 80, 90, 100]),
        (4, 2, 4, vec![9, 8, 7, 6]),
    ] {
        let eco = BurstEcology::new(k, parity, paths);
        let r = eco.decode(&eco.encode(&data));
        assert_eq!(
            (r.original_errors, r.corrected_errors, r.remaining_errors, r.burst_count, r.correction_success),
            (0, 0, 0, 0, true)
        );
    }
}

#[test]
fn burst_paths_are_permutations() {
    // Stride 2 would collide on a word of 4 symbols, so path 0 takes stride 3.
    let eco = BurstEcology::new(3, 1, 2);
    assert_eq!(eco.encode(&[1, 2, 3]), vec![vec![1, 0, 3, 2], vec![2, 1, 0, 3]]);
    assert_eq!(BurstEcology::new(1, 3, 1).encode(&[105]), vec![vec![105, 187, 210, 105]]);
    assert_eq!(BurstEcology::new(3, 1, 1).encode(&[1, 0, 0]), vec![vec![1, 1, 0, 0]]);
}

#[test]
fn burst_pattern_exact_values() {
    let original = vec![0u8; 30];
    let mut corrupted = original.clone();
    for i in 5..15 {
        corrupted[i] = 0xFF;
    }
    corrupted[20] = 0xAA;
    corrupted[21] = 0xBB;
    corrupted[22] = 0xCC;
    corrupted[25] = 0x01;
    let p = BurstEcology::classify_burst_patterns(&corrupted, &original);
    let summary: Vec<(usize, usize, u32, String)> =
        p.iter().map(|x| (x.start, x.length, x.severity, x.pattern_type.clone())).collect();
    assert_eq!(
        summary,
        vec![
            (5, 10, 80, "long_burst".to_string()),
            (20, 3, 14, "short_burst".to_string()),
            (25, 1, 1, "isolated".to_string()),
        ]
    );
}

#[test]
fn burst_transmit_without_noise() {
    let channel = MycorrhizalChannel::new(4, quiet());
    let eco = BurstEcology::new(4, 2, 3);
    let r: BurstCorrectionResult = eco.transmit_and_decode(&[1, 2, 3, 4], &channel, 11);
    assert_eq!((r.original_errors, r.corrected_errors, r.burst_count), (0, 0, 0));
    assert_eq!(r.remaining_errors, 0);
    assert_eq!(r.correction_success, eco.decode(&eco.encode(&[1, 2, 3, 4])).correction_success);
}

// === Hub tree ===

#[test]
fn hub_tree_exact_values() {
    let tree = HubTree::new(8, 2);
    assert_eq!(tree.connectivity, vec![vec![0, 1, 2], vec![3, 4, 5], vec![6, 7]]);
    assert_eq!(tree.total_nodes(), 11);
    let data = vec![10, 20, 30, 40, 50, 60, 70, 80];
    assert_eq!(tree.encode(&data), vec![vec![180, 166], vec![15, 83], vec![126, 128]]);
    assert_eq!(tree.compute_hub_parity(1, &data), vec![15, 83]);
    let mut corrupted = data.clone();
    corrupted[3] = 99;
    let parity = tree.encode(&data);
    assert_eq!(tree.compute_syndromes(&corrupted, &parity), vec![vec![0, 0], vec![196, 220], vec![0, 0]]);
    let r = tree.detect_failed_node(&corrupted, &parity);
    assert_eq!(r.error_position, Some(3));
    assert_eq!(r.corrected_value, Some(40));
    assert!(r.corrected);
    assert_eq!(r.confidence, Ratio { numerator: 1, denominator: 3 });
    let (fixed, _) = tree.decode(&corrupted, &parity);
    assert_eq!(fixed, data);
}

#[test]
fn hub_tree_multiple_and_hub_failures() {
    let tree = HubTree::new(8, 2);
    let data = vec![10, 20, 30, 40, 50, 60, 70, 80];
    let parity = tree.encode(&data);
    let mut two = data.clone();
    two[0] ^= 1;
    two[7] ^= 1;
    let r = tree.detect_failed_node(&two, &parity);
    assert_eq!((r.error_position, r.corrected, r.corrected_value), (None, false, None));
    assert_eq!(r.confidence, Ratio { numerator: 1, denominator: 10 });
    let mut bad_hub = parity.clone();
    bad_hub[2][1] ^= 0x40;
    let r = tree.detect_failed_node(&data, &bad_hub);
    assert_eq!((r.error_position, r.corrected), (Some(8 + 2), false));
    assert_eq!(r.confidence, Ratio { numerator: 1, denominator: 2 });
}

#[test]
fn hub_tree_health() {
    let mut tree = HubTree::new(4, 1);
    assert_eq!(tree.node_health, vec![true; 6]);
    tree.simulate_failures(&[1, 5, 9]);
    assert_eq!(tree.node_health, vec![true, false, true, true, true, false]);
}

#[test]
fn hub_single_fault_located_and_restored() {
    let tree = HubTree::new(9, 2);
    let data = vec![1, 2, 3, 4, 5, 6, 7, 8, 9];
    let parity = tree.encode(&data);
    for s in 0..9usize {
        let mut bad = data.clone();
        bad[s] ^= 0x5a;
        let (fixed, r) = tree.decode(&bad, &parity);
        assert_eq!((r.error_position, r.corrected, r.corrected_value), (Some(s), true, Some(data[s])));
        assert_eq!(fixed, data);
    }
}

#[test]
fn hub_locates_spoke_five() {
    let tree = HubTree::new(8, 2);
    let data = vec![10, 20, 30, 40, 50, 60, 70, 80];
    let parity = tree.encode(&data);
    let mut bad = data.clone();
    bad[5] = 200;
    let r = tree.detect_failed_node(&bad, &parity);
    assert_eq!((r.error_position, r.corrected, r.corrected_value), (Some(5), true, Some(60)));
}

#[test]
fn hub_many_parity_symbols_locate_with_few_spokes() {
    // More parity symbols than the field has nonzero elements, but fewer than 256 spokes.
    let tree = HubTree::new(100, 300);
    let data: Vec<u8> = (0..100u32).map(|i| (i * 7 + 3) as u8).collect();
    let parity = tree.encode(&data);
    for s in [0usize, 41, 99] {
        let mut bad = data.clone();
        bad[s] ^= 0x81;
        let r = tree.detect_failed_node(&bad, &parity);
        assert_eq!((r.error_position, r.corrected, r.corrected_value), (Some(s), true, Some(data[s])));
    }
}

#[test]
fn hub_clean_report_iff_zero_syndromes() {
    let tree = HubTree::new(9, 2);
    let data = vec![1, 2, 3, 4, 5, 6, 7, 8, 9];
    let parity = tree.encode(&data);
    let r = tree.detect_failed_node(&data, &parity);
    assert_eq!((r.error_position, r.corrected, r.corrected_value), (None, true, None));
    assert_eq!(r.confidence, Ratio { numerator: 1, denominator: 1 });
    let mut bad = data.clone();
    bad[4] ^= 1;
    let r = tree.detect_failed_node(&bad, &parity);
    assert!(!(r.error_position.is_none() && r.corrected));
}

#[test]
fn hub_single_parity_names_first_spoke_of_group() {
    // With one parity symbol every spoke of the group explains the syndrome, so the first
    // one is named.
    let tree = HubTree::new(8, 1);
    let data = vec![10, 20, 30, 40, 50, 60, 70, 80];
    let parity = tree.encode(&data);
    let mut bad = data.clone();
    bad[1] = 99;
    let r = tree.detect_failed_node(&bad, &parity);
    assert_eq!((r.error_position, r.corrected, r.corrected_value), (Some(0), true, Some(228)));
}

#[test]
fn ratio_comparison() {
    let half = Ratio { numerator: 1, denominator: 2 };
    let big = Ratio { numerator: u128::MAX, denominator: u128::MAX - 1 };
    assert!(half.at_least(&Ratio { numerator: 2, denominator: 4 }));
    assert!(!half.at_least(&Ratio { numerator: 51, denominator: 100 }));
    assert!(big.at_least(&Ratio { numerator: 1, denominator: 1 }));
    assert!(!Ratio { numerator: 1, denominator: 1 }.at_least(&big));
}

// === Spore gossip ===

fn config(fanout: usize, ttl: usize) -> SporeConfig {
    SporeConfig { fanout, ttl, convergence_target: Ratio { numerator: 1, denominator: 1 } }
}

#[test]
fn spore_neighbour_lists() {
    let net = SporeNetwork::new(6, config(2, 4));
    assert_eq!(net.nodes[0].neighbors, vec![1, 2]);
    assert_eq!(net.nodes[3].neighbors, vec![1, 2, 4, 5]);
    assert_eq!(net.nodes[5].neighbors, vec![0, 1, 3, 4]);
    let lonely = SporeNetwork::new(1, config(3, 4));
    assert!(lonely.nodes[0].neighbors.is_empty());
    let empty = SporeNetwork::new(0, config(3, 4));
    assert_eq!(empty.compute_convergence(), Ratio { numerator: 1, denominator: 1 });
}

#[test]
fn spore_round_exact_values() {
    let mut net = SporeNetwork::new(6, config(2, 4));
    assert_eq!(net.compute_convergence(), Ratio { numerator: 1, denominator: 1 });
    let spore = net.originate(0, vec![7, 7]);
    assert_eq!(spore.id, 0);
    assert_eq!(net.total_spores_originated, 1);
    assert_eq!(net.compute_convergence(), Ratio { numerator: 1, denominator: 6 });
    let mut pending = vec![spore];
    let sent = net.gossip_round(&mut pending);
    assert_eq!(sent, 2);
    assert_eq!(pending.len(), 2);
    for s in &pending {
        assert_eq!((s.ttl, s.generation, s.data.clone()), (3, 1, vec![7, 7]));
        assert!(s.visited.contains(&0));
    }
    assert_eq!(net.nodes[1].data.get(&0), Some(&vec![7, 7]));
    assert_eq!(net.nodes[2].received_generations.get(&0), Some(&1));
    assert_eq!(net.compute_convergence(), Ratio { numerator: 3, denominator: 6 });
}

#[test]
fn spore_laws_on_a_run() {
    let mut net = SporeNetwork::new(9, config(2, 3));
    let a = net.originate(0, vec![1, 2, 3]);
    let b = net.originate(4, vec![9]);
    let mut pending = vec![a, b];
    let mut last = net.compute_convergence();
    let mut rounds = 0;
    while !pending.is_empty() {
        net.gossip_round(&mut pending);
        rounds += 1;
        // Convergence never goes down.
        let now = net.compute_convergence();
        assert!(now.at_least(&last));
        last = now;
        // Every spore loses a hop per round.
        assert!(pending.iter().all(|s| s.ttl + rounds <= 3));
        // Nothing stored is ever altered.
        for node in &net.nodes {
            for (id, d) in &node.data {
                let expected: Vec<u8> = if *id == 0 { vec![1, 2, 3] } else { vec![9] };
                assert_eq!(d, &expected);
            }
        }
    }
    assert!(rounds <= 4);
}

#[test]
fn spore_run_reports_history() {
    let cfg = SporeConfig { fanout: 3, ttl: 6, convergence_target: Ratio { numerator: 1, denominator: 1 } };
    let mut net = SporeNetwork::new(7, cfg);
    let s = net.originate(2, vec![5]);
    let r = net.run_until_convergence(vec![s], 40);
    assert_eq!(r.convergence_history.len(), r.rounds);
    assert_eq!(r.convergence_ratio, net.compute_convergence());
    if r.rounds > 0 {
        assert_eq!(r.convergence_history[r.rounds - 1], r.convergence_ratio);
    }
    assert_eq!(r.converged, r.convergence_ratio.at_least(&Ratio { numerator: 1, denominator: 1 }));
    let mut idle = SporeNetwork::new(3, SporeConfig::default());
    let r = idle.run_until_convergence(vec![], 5);
    assert_eq!((r.rounds, r.messages_sent, r.converged), (0, 0, true));
}

#[test]
fn vote_received_merges_by_position() {
    let received = vec![vec![1u8, 2, 3], vec![1, 5], vec![4, 5, 3]];
    assert_eq!(vote_received(&received, 3), vec![1, 5, 3]);
    assert_eq!(vote_received(&received, 4), vec![1, 5, 3, 0]);
    assert_eq!(vote_received(&[], 2), vec![0, 0]);
}
