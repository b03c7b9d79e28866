use split_learning::compute::{computation_plan, ComputePlan};
use split_learning::distribute::{distribute_input, distribute_weight};
use split_learning::operations::get_input_mapping;
use split_learning::layers::{Conv, ConvMapping, LayerWrapper};
use split_learning::util::{decode_u128, split_u128_to_u8};

fn two_kernels() -> Conv<f32> {
    let m = ConvMapping { o_pg: 1, i_pg: 1, s: (1, 1), k: (3, 3), i: (2, 4, 4), o: (2, 4, 4) };
    let w: Vec<Vec<Vec<Vec<f32>>>> = (0..2)
        .map(|j| vec![(0..3).map(|r| (0..3).map(|q| (j * 9 + r * 3 + q) as f32).collect()).collect()])
        .collect();
    Conv { w, info: m }
}

#[test]
fn decoding_joined_bytes_joins_the_positions() {
    let a = vec![0b0000_0101u8, 0b1000_0000];
    let b = vec![0b0000_0010u8];
    let joined: Vec<u8> = [a.clone(), b.clone()].concat();
    let mut expected = decode_u128(&a);
    expected.extend(decode_u128(&b).into_iter().map(|p| p + 8 * a.len()));
    assert_eq!(decode_u128(&joined), expected);
    assert_eq!(decode_u128(&joined), vec![0, 2, 15, 17]);
}

#[test]
fn split_bytes_read_back_as_the_number() {
    for n in [0u128, 1, 0x1234_5678_9abc_def0_0fed_cba9_8765_4321, u128::MAX, 1u128 << 127] {
        let bytes = split_u128_to_u8(n);
        let mut arr = [0u8; 16];
        arr.copy_from_slice(&bytes[..16]);
        assert_eq!(u128::from_le_bytes(arr), n & !(1u128 << 127));
    }
}

#[test]
fn every_output_of_a_channel_meets_the_whole_kernel() {
    let c = two_kernels();
    for o in 0..2 {
        let flat: Vec<f32> = c.w[o as usize].iter().flatten().flatten().cloned().collect();
        for (y, x) in [(0, 0), (1, 2), (3, 3)] {
            let window = c.get_input(vec![o, y, x]);
            assert_eq!(c.get_weights_from_input(window, o), flat);
        }
    }
}

#[test]
fn units_hold_the_weights_of_their_kernel() {
    let c = two_kernels();
    let flats: Vec<Vec<f32>> = c.w.iter().map(|k| k.iter().flatten().flatten().cloned().collect()).collect();
    let layer = LayerWrapper::Convolution(c);
    let dist = distribute_weight(&layer, 3);
    let mut seen = 0;
    for list in &dist {
        for u in list {
            assert_eq!(u.data, flats[u.which_kernel as usize]);
            seen += 1;
        }
    }
    assert!(seen >= 2);
}

#[test]
fn reads_take_the_weights_in_window_order() {
    let c = two_kernels();
    let layer = LayerWrapper::Convolution(c);
    let dist = distribute_weight(&layer, 1);
    let input = vec![vec![vec![1.0f32; 4]; 4]; 2];
    let mapping = get_input_mapping(&layer, 1, vec![2, 4, 4]);
    let inputs = distribute_input(input, mapping, 1, 0.0);
    match computation_plan(inputs[0].len(), &dist[0]) {
        Some(ComputePlan::Sums(products)) => {
            assert_eq!(products.len(), 32);
            for p in products {
                assert_eq!(p.reads.len(), 9);
                for (q, r) in p.reads.iter().enumerate() {
                    assert_eq!(r.1, q);
                }
            }
        }
        _ => panic!("a convolution computes sums"),
    }
}

#[test]
fn a_lone_worker_receives_every_padded_cell_in_order() {
    let m = ConvMapping { o_pg: 1, i_pg: 1, s: (1, 1), k: (3, 3), i: (1, 3, 3), o: (1, 3, 3) };
    let w = vec![vec![vec![vec![1.0f32; 3]; 3]]];
    let layer = LayerWrapper::Convolution(Conv { w, info: m });
    let input: Vec<Vec<Vec<f32>>> = vec![(0..3).map(|r| (0..3).map(|c| (1 + r * 3 + c) as f32).collect()).collect()];
    let mapping = get_input_mapping(&layer, 1, vec![1, 3, 3]);
    let cells: usize = mapping.iter().map(|p| p.iter().map(|r| r.len()).sum::<usize>()).sum();
    assert!(mapping.iter().flatten().flatten().all(|&code| code & 1 == 1));
    let dist = distribute_input(input, mapping.clone(), 1, 0.0);
    assert_eq!(dist[0].len(), cells);
    let mut next = 1.0;
    let mut expected = Vec::new();
    for code in mapping.iter().flatten().flatten() {
        if code >> 15 == 1 {
            expected.push(0.0);
        } else {
            expected.push(next);
            next += 1.0;
        }
    }
    assert_eq!(dist[0], expected);
}
