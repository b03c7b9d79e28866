use split_learning::imaging::{center_crop_region, crop_rgb, store_image, store_rgb_planes};
use split_learning::nodes::{
    buffer_until_signal, clamp_results_q, collect_result, residual_flag, send_plan, Coordinator, Mapping,
    Message, QuantizedMapping, RouteCursor, Step, Worker,
};

fn table() -> QuantizedMapping {
    QuantizedMapping {
        count: vec![2, 1],
        map: vec![vec![0b0000_0010], vec![0b0000_0001]],
        padding_pos: vec![vec![0], vec![]],
        end_pos: vec![(1, 0, 0)],
        zero_point: 9,
    }
}

#[test]
fn send_plan_adds_end_signals() {
    let plan = send_plan(&vec![1, 3], 7u8, &vec![(0, 3, 5), (1, 1, 5), (0, 3, 5)], 0, 5);
    assert_eq!(
        plan,
        vec![
            (1, Message::Work(Some(7u8))),
            (3, Message::Work(Some(7u8))),
            (3, Message::Work(None)),
            (3, Message::Work(None)),
        ]
    );
}

#[test]
fn send_plan_for_no_workers_is_empty() {
    assert!(send_plan(&vec![], 1.5f32, &vec![(0, 0, 0)], 0, 0).is_empty());
}

#[test]
fn residual_flags() {
    assert_eq!(residual_flag(&vec![vec![1, 3], vec![2, 3]], 3), (2, false));
    assert_eq!(residual_flag(&vec![vec![3, 5], vec![1, 3]], 3), (2, true));
    assert_eq!(residual_flag(&vec![vec![1, 3], vec![3, 5]], 3), (3, false));
    assert_eq!(residual_flag(&vec![vec![3, 5]], 3), (1, true));
    assert_eq!(residual_flag(&vec![], 3), (0, false));
}

#[test]
fn coordinator_forwards_padding_and_results() {
    let mut coordinator = Coordinator { mapping: vec![table()] };
    let mut c = RouteCursor::new();
    assert!(coordinator.padding_due(0, &c));
    let plan = coordinator.send_padding(0, &mut c);
    assert_eq!(plan, vec![(1, Message::Work(Some(9u8)))]);
    assert_eq!(c, RouteCursor { cur_phase: 0, count: 1, total_count: 0 });
    assert!(coordinator.mapping[0].padding_pos[0].is_empty());
    assert!(!coordinator.padding_due(0, &c));

    let step = coordinator.on_message(0, &mut c, Message::Result(Some(5u8)), 1);
    assert_eq!(step, Step::Send(vec![(1, Message::Work(Some(5u8)))]));
    assert_eq!(c, RouteCursor { cur_phase: 1, count: 0, total_count: 1 });

    let step = coordinator.on_message(0, &mut c, Message::Result(Some(6u8)), 1);
    assert_eq!(step, Step::Send(vec![(0, Message::Work(Some(6u8))), (0, Message::Work(None))]));
    assert_eq!(c, RouteCursor { cur_phase: 2, count: 0, total_count: 2 });

    assert_eq!(coordinator.on_message(0, &mut c, Message::<u8>::Result(None), 1), Step::Done(false));
    assert_eq!(coordinator.on_message(0, &mut c, Message::<u8>::Quit, 1), Step::Ignore);
    assert!(!coordinator.padding_due(0, &c));
}

#[test]
fn coordinator_without_tables_broadcasts() {
    let coordinator: Coordinator<Mapping> = Coordinator { mapping: vec![] };
    let mut c = RouteCursor::new();
    assert!(!coordinator.padding_due(0, &c));
    assert_eq!(
        coordinator.on_message(1, &mut c, Message::Result(Some(2.5f32)), 2),
        Step::Broadcast(Message::Work(Some(2.5f32)))
    );
    assert_eq!(coordinator.on_message(0, &mut c, Message::<f32>::Result(None), 2), Step::Done(false));
    assert_eq!(coordinator.on_message(1, &mut c, Message::<f32>::Result(None), 2), Step::Done(true));
    assert_eq!(c, RouteCursor::new());
}

#[test]
fn float_coordinator_pads_with_given_value() {
    let mut coordinator = Coordinator {
        mapping: vec![Mapping {
            count: vec![1],
            map: vec![vec![0b0000_0110]],
            padding_pos: vec![vec![0]],
            end_pos: vec![(0, 2, 0)],
        }],
    };
    let mut c = RouteCursor::new();
    assert!(coordinator.padding_due(0, &c));
    let plan = coordinator.send_padding(0, &mut c, 0.0f32);
    assert_eq!(
        plan,
        vec![(1, Message::Work(Some(0.0f32))), (2, Message::Work(Some(0.0f32))), (2, Message::Work(None))]
    );
    assert_eq!(c, RouteCursor { cur_phase: 1, count: 0, total_count: 0 });
}

#[test]
fn worker_receives_until_end_or_quit() {
    let mut w: Worker<u8, f32> = Worker { weights: vec![], inputs: vec![], status: false, operations: vec![] };
    assert!(!w.take_message(Message::Work(Some(1.0))));
    assert!(!w.take_message(Message::StartTransmission));
    assert!(w.take_message(Message::Work(None)));
    assert_eq!(w.inputs, vec![1.0]);
    assert!(!w.status);
    assert!(w.take_message(Message::Quit));
    assert!(w.status);
}

#[test]
fn waiting_buffers_inputs() {
    let mut buffer: Vec<u8> = vec![];
    assert!(!buffer_until_signal(&mut buffer, Message::Work(Some(4))));
    assert!(!buffer_until_signal(&mut buffer, Message::Result(Some(5))));
    assert!(buffer_until_signal(&mut buffer, Message::StartTransmission));
    assert_eq!(buffer, vec![4]);
}

#[test]
fn collecting_results() {
    let mut results: Vec<u8> = vec![];
    assert!(!collect_result(&mut results, Message::Result(Some(1))));
    assert!(!collect_result(&mut results, Message::Work(Some(2))));
    assert!(collect_result(&mut results, Message::Result(None)));
    assert_eq!(results, vec![1]);
}

#[test]
fn quantized_relu_clamps_only_when_asked() {
    let mut r = vec![1u8, 200, 50];
    clamp_results_q(&vec![2, 1], &mut r, 60);
    assert_eq!(r, vec![1, 60, 50]);
    let mut r = vec![1u8, 200, 50];
    clamp_results_q(&vec![2], &mut r, 60);
    assert_eq!(r, vec![1, 200, 50]);
}

#[test]
fn quantized_pooling_averages_windows() {
    let mut inputs = Vec::new();
    for k in 0..1280u32 {
        inputs.push((k % 100) as u8);
        inputs.push((k % 100 + 3) as u8);
    }
    let mut w: Worker<u8, u8> = Worker { weights: vec![], inputs, status: false, operations: vec![1] };
    w.adaptive_pooling_q();
    assert_eq!(w.inputs.len(), 1280);
    for k in 0..1280usize {
        assert_eq!(w.inputs[k], ((k % 100) + 1) as u8);
    }
    assert_eq!(w.operations, vec![1]);
}

#[test]
fn quantized_pooling_of_exact_size_keeps_values() {
    let inputs: Vec<u8> = (0..1280u32).map(|k| (k % 256) as u8).collect();
    let mut w: Worker<u8, u8> = Worker { weights: vec![], inputs: inputs.clone(), status: false, operations: vec![] };
    w.adaptive_pooling_q();
    assert_eq!(w.inputs, inputs);
}

#[test]
fn centre_square_of_an_image() {
    assert_eq!(center_crop_region(640, 480), (80, 0, 560, 480));
    assert_eq!(center_crop_region(100, 300), (0, 100, 100, 200));
    assert_eq!(center_crop_region(224, 224), (0, 0, 224, 224));
}

#[test]
fn crop_is_clamped_to_the_image() {
    // 3 x 2 image, pixel (x, y) holds (x, y, 7)
    let mut rgb = Vec::new();
    for y in 0..2u8 {
        for x in 0..3u8 {
            rgb.extend_from_slice(&[x, y, 7]);
        }
    }
    let c = crop_rgb(&rgb, 3, 2, 1, 1, 5, 5);
    assert_eq!(c, vec![1, 1, 7, 2, 1, 7]);
    assert!(crop_rgb(&rgb, 3, 2, 4, 0, 2, 2).is_empty());
}

#[test]
fn planes_are_zero_outside_the_image() {
    let rgb = vec![1u8, 2, 3, 4, 5, 6];
    let planes = store_rgb_planes(2, 1, &rgb);
    assert_eq!(planes.len(), 3);
    assert_eq!(planes[0][0][0], 1);
    assert_eq!(planes[1][0][1], 5);
    assert_eq!(planes[2][0][1], 6);
    assert_eq!(planes[0][1][0], 0);
    assert_eq!(planes[0][0][2], 0);
}

#[test]
fn square_image_of_the_right_size_is_kept() {
    let mut rgb = Vec::new();
    for y in 0..224u32 {
        for x in 0..224u32 {
            rgb.extend_from_slice(&[(x % 256) as u8, (y % 256) as u8, ((x + y) % 256) as u8]);
        }
    }
    let planes = store_image(&rgb, 224, 224);
    for y in 0..224usize {
        for x in 0..224usize {
            assert_eq!(planes[0][y][x], x as u8);
            assert_eq!(planes[1][y][x], y as u8);
            assert_eq!(planes[2][y][x], ((x + y) % 256) as u8);
        }
    }
}

#[test]
fn wide_image_is_cut_by_the_centre_before_resizing() {
    let rgb: Vec<u8> = (0..448 * 224).flat_map(|_| [10u8, 20, 30]).collect();
    let planes = store_image(&rgb, 448, 224);
    for y in 0..224usize {
        for x in 0..224usize {
            if x < 112 {
                assert_eq!((planes[0][y][x], planes[1][y][x], planes[2][y][x]), (10, 20, 30));
            } else {
                assert_eq!((planes[0][y][x], planes[1][y][x], planes[2][y][x]), (0, 0, 0));
            }
        }
    }
}

#[test]
fn residual_connection_starting_here_needs_one_entry() {
    assert_eq!(residual_flag(&vec![vec![3]], 3), (1, true));
}

#[test]
fn wide_image_is_resized_before_the_cut() {
    // Left half dark, right half bright; the cut keeps the resized right half.
    let mut rgb = Vec::new();
    for _y in 0..224u32 {
        for x in 0..448u32 {
            let v = if x < 224 { 0u8 } else { 200u8 };
            rgb.extend_from_slice(&[v, v, v]);
        }
    }
    let planes = store_image(&rgb, 448, 224);
    for y in [0usize, 1, 100, 223] {
        for x in 4..108usize {
            assert_eq!(planes[0][y][x], 200);
            assert_eq!(planes[2][y][x], 200);
        }
        assert_eq!(planes[1][y][150], 0);
    }
}

#[test]
fn pooling_windows_split_the_inputs_evenly() {
    let w = split_learning::nodes::pooling_windows(1280 * 3);
    assert_eq!(w.len(), 1280);
    assert_eq!(w[0], (0, 3));
    assert_eq!(w[1], (3, 6));
    assert_eq!(w[1279], (3837, 3840));
    let one = split_learning::nodes::pooling_windows(1280);
    assert_eq!(one[5], (5, 6));
}
