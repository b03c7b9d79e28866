use split_learning::compute::{computation_plan, ComputePlan};
use split_learning::distribute::{distribute_input, distribute_weight, rearrange_weight, compare_positions, WeightUnit};
use split_learning::layers::{
    Batchnorm2d, Conv, ConvMapping, InfoWrapper, LayerWrapper, Linear, LinearMapping, Relu6,
};

fn unit(kernel: u16, start: Vec<i32>) -> WeightUnit<f32> {
    WeightUnit {
        data: vec![kernel as f32],
        which_kernel: kernel,
        count: 1,
        start_pos_in: start,
        info: InfoWrapper::ReLU6(vec![]),
    }
}

#[test]
fn positions_compare_lexicographically() {
    assert_eq!(compare_positions(&vec![0, 5], &vec![0, 5, 1]), -1);
    assert_eq!(compare_positions(&vec![1, 0], &vec![0, 9, 9]), 1);
    assert_eq!(compare_positions(&vec![2, 3], &vec![2, 3]), 0);
    assert_eq!(compare_positions(&vec![], &vec![]), 0);
}

#[test]
fn rearrange_sorts_stably() {
    let mut units = vec![
        unit(0, vec![1, 0]),
        unit(1, vec![0, 5]),
        unit(2, vec![1, 0]),
        unit(3, vec![0, 5, 1]),
        unit(4, vec![]),
    ];
    rearrange_weight(&mut units);
    let kernels: Vec<u16> = units.iter().map(|u| u.which_kernel).collect();
    assert_eq!(kernels, vec![4, 1, 3, 0, 2]);
}

#[test]
fn linear_weights_go_out_by_rows() {
    let layer: LayerWrapper<f32> = LayerWrapper::Linear(Linear {
        w: vec![vec![1.0, 2.0], vec![3.0, 4.0], vec![5.0, 6.0]],
        info: LinearMapping { b_in: 1, c_in: 2, b_out: 1, c_out: 3 },
        bias: vec![0.0, 0.0, 0.0],
    });
    let dist = distribute_weight(&layer, 2);
    assert_eq!(dist.len(), 2);
    assert_eq!(dist[0].len(), 2);
    assert_eq!(dist[1].len(), 1);
    assert_eq!(dist[0][0].data, vec![1.0, 2.0]);
    assert_eq!(dist[0][1].data, vec![3.0, 4.0]);
    assert_eq!(dist[1][0].data, vec![5.0, 6.0]);
    assert_eq!(dist[0][0].which_kernel, 0);
    assert_eq!(dist[0][1].which_kernel, 1);
    assert_eq!(dist[1][0].which_kernel, 2);
    assert!(dist.iter().flatten().all(|u| u.count == 0 && u.start_pos_in.is_empty()));
    assert!(matches!(dist[1][0].info, InfoWrapper::Linear(LinearMapping { c_in: 2, c_out: 3, .. })));
}

#[test]
fn relu_has_no_weights_to_send() {
    let layer: LayerWrapper<f32> = LayerWrapper::ReLU6(Relu6 { input_shape: vec![1, 2, 2] });
    assert!(distribute_weight(&layer, 4).is_empty());
}

#[test]
fn batchnorm_weights_stay_together() {
    let layer: LayerWrapper<f32> = LayerWrapper::BatchNorm2d(Batchnorm2d {
        w: vec![3.0],
        bias: vec![4.0],
        r_m: vec![1.0],
        r_v: vec![2.0],
        input_shape: vec![1, 1, 2, 2],
    });
    let dist = distribute_weight(&layer, 4);
    assert_eq!(dist.len(), 1);
    assert_eq!(dist[0].len(), 1);
    assert_eq!(dist[0][0].data, vec![1.0, 2.0, 3.0, 4.0]);
    assert_eq!(dist[0][0].which_kernel, 0);
    assert_eq!(dist[0][0].count, 0);
}

#[test]
fn conv_outputs_are_dealt_in_runs() {
    let layer: LayerWrapper<f32> = LayerWrapper::Convolution(Conv {
        w: vec![vec![vec![vec![10.0]]], vec![vec![vec![20.0]]]],
        info: ConvMapping { o_pg: 1, i_pg: 1, s: (1, 1), k: (1, 1), i: (1, 2, 2), o: (2, 1, 2) },
    });
    let dist = distribute_weight(&layer, 3);
    assert_eq!(dist.len(), 3);
    // worker 0: the first two outputs, of kernel 0
    assert_eq!(dist[0].len(), 1);
    assert_eq!(dist[0][0].data, vec![10.0]);
    assert_eq!(dist[0][0].which_kernel, 0);
    assert_eq!(dist[0][0].count, 2);
    assert_eq!(dist[0][0].start_pos_in, vec![0, 0, 0]);
    // worker 1: an empty run of kernel 0 where the worker changes, then kernel 1
    assert_eq!(dist[1].len(), 2);
    assert_eq!(dist[1][0].which_kernel, 0);
    assert_eq!(dist[1][0].count, 0);
    assert_eq!(dist[1][0].start_pos_in, vec![1, 0, 0]);
    assert_eq!(dist[1][1].which_kernel, 1);
    assert_eq!(dist[1][1].data, vec![20.0]);
    assert_eq!(dist[1][1].count, 2);
    assert_eq!(dist[1][1].start_pos_in, vec![1, 0, 0]);
    // worker 2 gets nothing
    assert!(dist[2].is_empty());
    // every output is counted once
    let total: i32 = dist.iter().flatten().map(|u| u.count).sum();
    assert_eq!(total, 4);
}

#[test]
fn conv_units_of_a_worker_are_sorted_by_position() {
    // One kernel, four outputs along a row with stride 1, all on one worker.
    let layer: LayerWrapper<f32> = LayerWrapper::Convolution(Conv {
        w: vec![vec![vec![vec![1.0]]], vec![vec![vec![2.0]]]],
        info: ConvMapping { o_pg: 2, i_pg: 1, s: (1, 1), k: (1, 1), i: (1, 1, 2), o: (2, 1, 2) },
    });
    let dist = distribute_weight(&layer, 1);
    assert_eq!(dist.len(), 1);
    let starts: Vec<Vec<i32>> = dist[0].iter().map(|u| u.start_pos_in.clone()).collect();
    let mut sorted = starts.clone();
    sorted.sort();
    assert_eq!(starts, sorted);
    let total: i32 = dist[0].iter().map(|u| u.count).sum();
    assert_eq!(total, 4);
}

fn conv_unit(kernel: u16, count: i32, start: Vec<i32>, info: ConvMapping) -> WeightUnit<f32> {
    WeightUnit { data: vec![2.0], which_kernel: kernel, count, start_pos_in: start, info: InfoWrapper::Convolution(info) }
}

#[test]
fn conv_plan_walks_a_row() {
    let m = ConvMapping { o_pg: 1, i_pg: 1, s: (1, 1), k: (1, 1), i: (1, 1, 4), o: (1, 1, 4) };
    let units = vec![conv_unit(0, 4, vec![0, 0, 0], m)];
    match computation_plan(4, &units) {
        Some(ComputePlan::Sums(products)) => {
            let reads: Vec<Vec<(usize, usize)>> = products.iter().map(|p| p.reads.clone()).collect();
            assert_eq!(reads, vec![vec![(0, 0)], vec![(1, 0)], vec![(2, 0)], vec![(3, 0)]]);
            assert!(products.iter().all(|p| p.unit == 0));
        }
        _ => panic!("a convolution computes sums"),
    }
}

#[test]
fn conv_plan_skips_units_without_outputs() {
    let m = ConvMapping { o_pg: 1, i_pg: 1, s: (1, 1), k: (1, 1), i: (1, 1, 4), o: (1, 1, 4) };
    let units = vec![conv_unit(0, 0, vec![0, 0, 0], m), conv_unit(1, 2, vec![0, 0, 0], m)];
    match computation_plan(4, &units) {
        Some(ComputePlan::Sums(products)) => {
            assert_eq!(products.len(), 2);
            assert!(products.iter().all(|p| p.unit == 1));
            assert_eq!(products[0].reads, vec![(0, 0)]);
            assert_eq!(products[1].reads, vec![(1, 0)]);
        }
        _ => panic!("a convolution computes sums"),
    }
}

#[test]
fn linear_plan_groups_by_kernel() {
    let info = InfoWrapper::Linear(LinearMapping { b_in: 1, c_in: 3, b_out: 1, c_out: 2 });
    let units = vec![
        WeightUnit { data: vec![1.0f32, 2.0], which_kernel: 1, count: 0, start_pos_in: vec![], info: info.copied() },
        WeightUnit { data: vec![3.0f32, 4.0, 5.0], which_kernel: 0, count: 0, start_pos_in: vec![], info },
    ];
    match computation_plan(2, &units) {
        Some(ComputePlan::Sums(products)) => {
            assert_eq!(products.len(), 2);
            assert_eq!(products[0].unit, 1);
            assert_eq!(products[1].unit, 0);
            assert_eq!(products[0].reads, vec![(0, 0), (1, 1)]);
            assert_eq!(products[1].reads, vec![(0, 0), (1, 1)]);
        }
        _ => panic!("a linear layer computes sums"),
    }
}

#[test]
fn activation_plans() {
    let relu = vec![WeightUnit::<f32> { data: vec![], which_kernel: 0, count: 0, start_pos_in: vec![], info: InfoWrapper::ReLU6(vec![]) }];
    assert!(matches!(computation_plan(3, &relu), Some(ComputePlan::Clamp)));
    let bn = vec![WeightUnit::<f32> { data: vec![], which_kernel: 0, count: 0, start_pos_in: vec![], info: InfoWrapper::BatchNorm2d(vec![]) }];
    assert!(matches!(computation_plan(3, &bn), Some(ComputePlan::Nothing)));
}

#[test]
fn sorting_twice_changes_nothing() {
    let mut units = vec![unit(0, vec![2, 1]), unit(1, vec![0, 3]), unit(2, vec![2, 1]), unit(3, vec![1])];
    rearrange_weight(&mut units);
    let once: Vec<u16> = units.iter().map(|u| u.which_kernel).collect();
    rearrange_weight(&mut units);
    let twice: Vec<u16> = units.iter().map(|u| u.which_kernel).collect();
    assert_eq!(once, vec![1, 3, 0, 2]);
    assert_eq!(once, twice);
}

#[test]
fn conv_work_is_split_in_runs_of_the_share() {
    let layer: LayerWrapper<f32> = LayerWrapper::Convolution(Conv {
        w: vec![vec![vec![vec![1.0]]]],
        info: ConvMapping { o_pg: 1, i_pg: 1, s: (1, 1), k: (1, 1), i: (1, 1, 10), o: (1, 1, 10) },
    });
    let dist = distribute_weight(&layer, 3);
    let counts: Vec<Vec<i32>> = dist.iter().map(|l| l.iter().map(|u| u.count).collect()).collect();
    assert_eq!(counts, vec![vec![4], vec![4], vec![2]]);
    assert_eq!(dist[1][0].start_pos_in, vec![0, 0, 4]);
    assert_eq!(dist[2][0].start_pos_in, vec![0, 0, 8]);
}

#[test]
fn linear_weights_with_more_inputs_than_outputs() {
    let layer: LayerWrapper<f32> = LayerWrapper::Linear(Linear {
        w: vec![vec![1.0, 2.0, 3.0], vec![4.0, 5.0, 6.0]],
        info: LinearMapping { b_in: 1, c_in: 3, b_out: 1, c_out: 2 },
        bias: vec![0.0, 0.0],
    });
    let dist = distribute_weight(&layer, 1);
    assert_eq!(dist.len(), 1);
    assert_eq!(dist[0].len(), 2);
    assert_eq!(dist[0][0].data, vec![1.0, 2.0, 3.0]);
    assert_eq!(dist[0][1].data, vec![4.0, 5.0, 6.0]);
}

#[test]
fn empty_read_map_gives_no_distribution() {
    let input = vec![vec![vec![1.0f32, 2.0]]];
    assert!(distribute_input(input.clone(), vec![], 3, 0.0).is_empty());
    assert!(distribute_input(input, vec![], -1, 0.0).is_empty());
}
