use split_learning::compute::{computation_plan, ComputePlan};
use split_learning::distribute::{distribute_input, distribute_weight};
use split_learning::layers::{Conv, ConvMapping, IOMapping, LayerWrapper};
use split_learning::operations::get_input_mapping;
use split_learning::util::sample_input_from_p_zero_padding;

/// A convolution of `cin` input and `cout` output channels (`o_pg` output
/// channels per group), computed once by the workers from what the
/// distribution hands them, and once directly.
fn distributed_and_direct(cin: i32, cout: i32, o_pg: i32, k: i32, hw: i32, s: i32, workers: i32) -> (Vec<f32>, Vec<f32>) {
    let groups = cout / o_pg;
    let i_pg = cin / groups;
    let o = (hw + 2 * (k / 2) - k) / s + 1;
    let m = ConvMapping { o_pg, i_pg, s: (s, s), k: (k, k), i: (cin, hw, hw), o: (cout, o, o) };
    let w: Vec<Vec<Vec<Vec<f32>>>> = (0..cout)
        .map(|j| {
            (0..i_pg)
                .map(|c| (0..k).map(|r| (0..k).map(|q| ((j * 7 + c * 5 + r * k + q) % 11) as f32 - 5.0).collect()).collect())
                .collect()
        })
        .collect();
    let input: Vec<Vec<Vec<f32>>> = (0..cin)
        .map(|c| (0..hw).map(|r| (0..hw).map(|q| ((c * 13 + r * 3 + q * 7) % 17) as f32).collect()).collect())
        .collect();
    let layer: LayerWrapper<f32> = LayerWrapper::Convolution(Conv { w: w.clone(), info: m });
    let dist_w = distribute_weight(&layer, workers);
    let mapping = get_input_mapping(&layer, workers, vec![cin as usize, hw as usize, hw as usize]);
    let dist_in = distribute_input(input.clone(), mapping, workers, 0.0);
    let mut distributed = Vec::new();
    for wk in 0..workers as usize {
        if dist_w[wk].is_empty() {
            continue;
        }
        match computation_plan(dist_in[wk].len(), &dist_w[wk]) {
            Some(ComputePlan::Sums(products)) => {
                for p in products {
                    let data = &dist_w[wk][p.unit].data;
                    distributed.push(p.reads.iter().fold(0.0, |acc, &(i, j)| acc + dist_in[wk][i] * data[j]));
                }
            }
            _ => panic!("a convolution computes sums"),
        }
    }
    let mut direct = Vec::new();
    for j in 0..cout {
        for r in 0..o {
            for q in 0..o {
                let pos = m.map_to_input(vec![j, r, q]);
                let vals = sample_input_from_p_zero_padding(pos, &input, 0.0);
                let ws: Vec<f32> = w[j as usize].iter().flatten().flatten().cloned().collect();
                direct.push(vals.iter().zip(ws.iter()).fold(0.0, |a, (x, y)| a + x * y));
            }
        }
    }
    (distributed, direct)
}

#[test]
fn pointwise_convolution_on_two_workers() {
    let (distributed, direct) = distributed_and_direct(1, 1, 1, 1, 4, 1, 2);
    assert_eq!(distributed, direct);
}

#[test]
fn padded_convolution_on_one_worker() {
    let (distributed, direct) = distributed_and_direct(1, 1, 1, 3, 4, 1, 1);
    assert_eq!(distributed, direct);
}

#[test]
fn padded_convolution_on_two_workers() {
    let (distributed, direct) = distributed_and_direct(1, 1, 1, 3, 4, 1, 2);
    assert_eq!(distributed, direct);
}

#[test]
fn padded_convolution_on_three_workers() {
    let (distributed, direct) = distributed_and_direct(1, 1, 1, 3, 6, 1, 3);
    assert_eq!(distributed, direct);
}

#[test]
fn strided_convolution_on_two_workers() {
    let (distributed, direct) = distributed_and_direct(1, 1, 1, 3, 8, 2, 2);
    assert_eq!(distributed, direct);
}

#[test]
fn depthwise_convolution_on_two_workers() {
    let (distributed, direct) = distributed_and_direct(2, 2, 1, 3, 5, 1, 2);
    assert_eq!(distributed, direct);
}

#[test]
fn pointwise_convolution_over_channels_on_two_workers() {
    let (distributed, direct) = distributed_and_direct(2, 2, 2, 1, 4, 1, 2);
    assert_eq!(distributed, direct);
}

#[test]
fn full_convolution_on_one_worker() {
    let (distributed, direct) = distributed_and_direct(2, 2, 2, 3, 5, 1, 1);
    assert_eq!(distributed, direct);
}

#[test]
fn convolution_with_more_outputs_than_inputs_on_two_workers() {
    let (distributed, direct) = distributed_and_direct(1, 2, 2, 3, 5, 1, 2);
    assert_eq!(distributed, direct);
}
