use split_learning::compact;
use split_learning::compact::IOMapping as IOMapping16;
use split_learning::distribute::distribute_input;
use split_learning::layers::{Conv, ConvMapping, IOMapping, LayerWrapper, LinearMapping};
use split_learning::num::{div_i32, rem_i32};
use split_learning::operations::{get_input_mapping, num_per_cpu, output_count};
use split_learning::util::{decode_u128, sample_input_from_p_zero_padding, sample_input_linear, split_u128_to_u8};

fn conv_mapping(k: i32, i: (i32, i32, i32), o: (i32, i32, i32)) -> ConvMapping {
    ConvMapping { o_pg: 1, i_pg: 1, s: (1, 1), k: (k, k), i, o }
}

#[test]
fn split_gives_little_endian_bytes() {
    let bytes = split_u128_to_u8(0x0102);
    assert_eq!(bytes.len(), 16);
    assert_eq!(bytes[0], 0x02);
    assert_eq!(bytes[1], 0x01);
    assert!(bytes[2..].iter().all(|b| *b == 0));
}

#[test]
fn split_clears_the_top_bit() {
    let bytes = split_u128_to_u8(u128::MAX);
    assert_eq!(bytes[15], 0x7f);
    assert!(bytes[..15].iter().all(|b| *b == 0xff));
}

#[test]
fn decode_lists_set_bits_in_order() {
    assert_eq!(decode_u128(&vec![0b0000_0101, 0b1000_0000]), vec![0, 2, 15]);
    assert_eq!(decode_u128(&vec![]), Vec::<usize>::new());
}

#[test]
fn decode_inverts_split_below_top_bit() {
    let n: u128 = (1u128 << 127) | (1u128 << 100) | (1u128 << 5) | 1;
    assert_eq!(decode_u128(&split_u128_to_u8(n)), vec![0, 5, 100]);
}

#[test]
fn conv_map_to_input_covers_the_window() {
    let m = conv_mapping(3, (1, 4, 4), (1, 4, 4));
    let pos = m.map_to_input(vec![0, 1, 2]);
    let expected: Vec<Vec<i32>> = vec![
        vec![0, 0, 1], vec![0, 0, 2], vec![0, 0, 3],
        vec![0, 1, 1], vec![0, 1, 2], vec![0, 1, 3],
        vec![0, 2, 1], vec![0, 2, 2], vec![0, 2, 3],
    ];
    assert_eq!(pos, expected);
}

#[test]
fn conv_map_to_input_reads_the_group_channels() {
    let m = ConvMapping { o_pg: 2, i_pg: 3, s: (2, 2), k: (1, 1), i: (6, 8, 8), o: (4, 4, 4) };
    let pos = m.map_to_input(vec![3, 1, 2]);
    assert_eq!(pos, vec![vec![3, 2, 4], vec![4, 2, 4], vec![5, 2, 4]]);
}

#[test]
fn linear_map_to_input_reads_the_row() {
    let m = LinearMapping { b_in: 1, c_in: 3, b_out: 1, c_out: 2 };
    assert_eq!(m.map_to_input(vec![1, 0]), vec![vec![1, 0], vec![1, 1], vec![1, 2]]);
}

#[test]
fn compact_map_to_input_leaves_out_the_last_column() {
    let m = compact::ConvMapping { o_pg: 1, i_pg: 1, s: (1, 1), k: (3, 3), i: (1, 4, 4), o: (1, 4, 4) };
    let pos = compact::map_to_input((0, 1, 2), m);
    let expected: Vec<Vec<i16>> = vec![
        vec![0, 0, 1], vec![0, 0, 2],
        vec![0, 1, 1], vec![0, 1, 2],
        vec![0, 2, 1], vec![0, 2, 2],
    ];
    assert_eq!(pos, expected);
    let full = m.map_to_input(vec![0, 1, 2]);
    assert_eq!(full.len(), 9);
    assert_eq!(full[8], vec![0, 2, 3]);
}

#[test]
fn compact_linear_and_relu() {
    let m = compact::LinearMapping { b_in: 1, c_in: 3, b_out: 1, c_out: 2 };
    assert_eq!(m.map_to_input(vec![2, 7]), vec![vec![2, 0], vec![2, 1], vec![2, 2]]);
    let r = compact::Relu6 { input_shape: vec![3, 4, 4] };
    assert_eq!(r.get_output_shape(), vec![3, 4, 4]);
    assert_eq!(r.get_input(vec![1, 2, 3]), vec![vec![1, 2, 3]]);
    assert_eq!(r.identify(), "Relu6");
}

#[test]
fn work_split_rounds_up_and_saturates() {
    assert_eq!(num_per_cpu(4, 3), 2);
    assert_eq!(num_per_cpu(7, 2), 4);
    assert_eq!(num_per_cpu(-7, 2), -3);
    assert_eq!(num_per_cpu(7, -2), -3);
    assert_eq!(num_per_cpu(0, 0), 0);
    assert_eq!(num_per_cpu(5, 0), i32::MAX);
    assert_eq!(num_per_cpu(-5, 0), i32::MIN);
    assert_eq!(output_count(&vec![3, 4, 5]), 60);
    assert_eq!(output_count(&vec![]), 1);
}

#[test]
fn truncating_division() {
    assert_eq!(div_i32(-7, 2), -3);
    assert_eq!(rem_i32(-7, 2), -1);
    assert_eq!(div_i32(7, -2), -3);
    assert_eq!(rem_i32(7, -2), 1);
    assert_eq!(div_i32(i32::MIN, 1), i32::MIN);
}

#[test]
fn input_mapping_without_padding() {
    let layer: LayerWrapper<f32> = LayerWrapper::Convolution(Conv {
        w: vec![vec![vec![vec![1.0]]]],
        info: conv_mapping(1, (1, 2, 2), (1, 2, 2)),
    });
    let mapping = get_input_mapping(&layer, 2, vec![1, 2, 2]);
    assert_eq!(mapping, vec![vec![vec![1u16, 1], vec![2, 2]]]);
}

#[test]
fn input_mapping_marks_padding() {
    let layer: LayerWrapper<f32> = LayerWrapper::Convolution(Conv {
        w: vec![vec![vec![vec![1.0; 3]; 3]]],
        info: conv_mapping(3, (1, 2, 2), (1, 2, 2)),
    });
    let mapping = get_input_mapping(&layer, 2, vec![1, 2, 2]);
    let expected: Vec<Vec<Vec<u16>>> = vec![vec![
        vec![0x8001, 0x8001, 0x8001, 0x8001],
        vec![0x8003, 3, 3, 0x8003],
        vec![0x8003, 3, 3, 0x8003],
        vec![0x8002, 0x8002, 0x8002, 0x8002],
    ]];
    assert_eq!(mapping, expected);
}

#[test]
fn input_mapping_of_other_layers_is_empty() {
    let layer: LayerWrapper<f32> = LayerWrapper::ReLU6(split_learning::layers::Relu6 { input_shape: vec![1, 2, 2] });
    assert!(get_input_mapping(&layer, 2, vec![1, 2, 2]).is_empty());
}

#[test]
fn distribute_input_follows_the_map() {
    let mapping: Vec<Vec<Vec<u16>>> = vec![vec![
        vec![0x8001, 0x8001, 0x8001, 0x8001],
        vec![0x8003, 3, 3, 0x8003],
        vec![0x8003, 3, 3, 0x8003],
        vec![0x8002, 0x8002, 0x8002, 0x8002],
    ]];
    let input = vec![vec![vec![1.0f32, 2.0], vec![3.0, 4.0]]];
    let dist = distribute_input(input, mapping, 2, 0.0);
    assert_eq!(dist.len(), 2);
    assert_eq!(dist[0], vec![0.0, 0.0, 0.0, 0.0, 0.0, 1.0, 2.0, 0.0, 0.0, 3.0, 4.0, 0.0]);
    assert_eq!(dist[1], vec![0.0, 1.0, 2.0, 0.0, 0.0, 3.0, 4.0, 0.0, 0.0, 0.0, 0.0, 0.0]);
}

#[test]
fn distribute_input_with_empty_map_gives_nothing() {
    let input = vec![vec![vec![1.0f32]]];
    let dist = distribute_input(input, vec![], 3, 0.0);
    assert!(dist.is_empty());
}

#[test]
fn distribute_input_wraps_rows_across_planes() {
    // Two planes of one row each; the counters run on across planes.
    let mapping: Vec<Vec<Vec<u16>>> = vec![vec![vec![1, 0, 1]], vec![vec![1, 1, 0]]];
    let input = vec![vec![vec![5u8, 6]], vec![vec![7u8, 8]]];
    let dist = distribute_input(input, mapping, 1, 0);
    assert_eq!(dist, vec![vec![5, 6, 7, 8]]);
}

#[test]
fn sampling_pads_with_zero() {
    let input = vec![vec![vec![1.0f32, 2.0], vec![3.0, 4.0]]];
    let p = vec![vec![0, 0, 0], vec![0, 1, 1], vec![-1, 0, 0], vec![0, 2, 0]];
    assert_eq!(sample_input_from_p_zero_padding(p, &input, 0.0), vec![1.0, 4.0, 0.0, 0.0]);
    let rows = vec![vec![1.0f32, 2.0], vec![3.0, 4.0]];
    assert_eq!(sample_input_linear(vec![vec![1, 0], vec![0, 1]], &rows), vec![3.0, 2.0]);
}

#[test]
fn flatten_reads_the_box_of_the_first_plane() {
    let arr = vec![vec![vec![1, 2], vec![3, 4]], vec![vec![5, 6, 60], vec![7, 8]]];
    assert_eq!(split_learning::flat::flatten_3d_array(arr), vec![1, 2, 3, 4, 5, 6, 7, 8]);
    let empty: Vec<Vec<Vec<u8>>> = vec![];
    assert!(split_learning::flat::flatten_3d_array(empty).is_empty());
}
