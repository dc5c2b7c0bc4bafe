use bevy_pf_vector::bench::rng::Rng;
use bevy_pf_vector::bench::workload::{
    draw_clipped_elements, draw_element, draw_elements, draw_gradient, draw_sprites, draw_stroke,
    draw_strokes, grid_cell, Cell, ClippedKind, Kind, CLIP_SEED, GRADIENT_SEED, STANDARD_SEED,
    STROKE_SEED,
};
use bevy_pf_vector::path::{LineCap, LineJoin};

fn f(n: u32) -> f32 {
    n as f32 / (1u32 << 24) as f32
}

/// A second SplitMix64, written with floats.
struct Stream(u64);

impl Stream {
    fn next(&mut self) -> u64 {
        self.0 = self.0.wrapping_add(0x9E37_79B9_7F4A_7C15);
        let mut z = self.0;
        z = (z ^ (z >> 30)).wrapping_mul(0xBF58_476D_1CE4_E5B9);
        z = (z ^ (z >> 27)).wrapping_mul(0x94D0_49BB_1331_11EB);
        z ^ (z >> 31)
    }

    fn unit(&mut self) -> f32 {
        (self.next() >> 40) as f32 / (1u64 << 24) as f32
    }

    fn pick(&mut self, n: u64) -> u32 {
        (self.next() % n) as u32
    }
}

#[test]
fn the_generator_is_splitmix64() {
    let mut rng = Rng(0);
    assert_eq!(rng.next_u64(), 0xE220_A839_7B1D_CDAF);
    assert_eq!(rng.next_u64(), 0x6E78_9E6A_A1B9_65F4);
    assert_eq!(rng.next_u64(), 0x06C4_5D18_8009_454F);
    let mut rng = Rng(1234567);
    assert_eq!(rng.next_u64(), 6457827717110365317);
    assert_eq!(rng.next_u64(), 3203168211198807973);
}

#[test]
fn draws_are_exact_fractions() {
    let (mut rng, mut stream) = (Rng(99), Stream(99));
    for _ in 0..1000 {
        assert_eq!(rng.unit().bits, stream.unit().to_bits());
        assert_eq!(f(rng.steps()), stream.unit());
        assert_eq!(rng.pick(7), stream.pick(7));
    }
}

#[test]
fn elements_take_the_stream_in_order() {
    let mut stream = Stream(STANDARD_SEED);
    let elements = draw_elements(300, 20, false);
    for (i, e) in elements.iter().enumerate() {
        for draw in [e.spot.first, e.spot.second, e.spot.size] {
            assert_eq!(f(draw), stream.unit());
        }
        assert_eq!(e.color, stream.pick(6));
        assert_eq!(e.gradient, None);
        for draw in [e.motion.rotation, e.motion.phase, e.motion.speed] {
            assert_eq!(f(draw), stream.unit());
        }
        if i < 20 {
            assert_eq!(e.kind, Kind::Gauge);
            continue;
        }
        let kind = stream.pick(100);
        match e.kind {
            Kind::Gauge => panic!("only the first elements are gauges"),
            Kind::Disc { thickness } => {
                assert!(kind < 40);
                assert_eq!(thickness.map(f), if kind >= 20 { Some(stream.unit()) } else { None });
            }
            Kind::Rect { thickness, corner, aspect } => {
                assert!((40..65).contains(&kind));
                assert_eq!(thickness.map(f), if kind >= 55 { Some(stream.unit()) } else { None });
                assert_eq!(corner.map(f), if kind % 2 == 0 { Some(stream.unit()) } else { None });
                assert_eq!(f(aspect), stream.unit());
            }
            Kind::Polygon { thickness, sides } => {
                assert!((65..80).contains(&kind));
                assert_eq!(thickness.map(f), if kind >= 74 { Some(stream.unit()) } else { None });
                assert_eq!(sides, 3 + stream.pick(6));
            }
            Kind::Line { width, dx, dy } => {
                assert!(kind >= 80);
                assert_eq!([f(width), f(dx), f(dy)], [stream.unit(), stream.unit(), stream.unit()]);
            }
        }
    }
}

#[test]
fn a_shorter_workload_is_the_start_of_a_longer_one() {
    let long = draw_elements(80, 10, true);
    assert_eq!(draw_elements(30, 10, true)[..], long[..30]);
}

#[test]
fn gradients_cost_one_draw() {
    let (mut plain, mut fancy) = (Rng(5), Rng(5));
    let a = draw_element(&mut plain, true, false);
    let b = draw_element(&mut fancy, true, true);
    assert_eq!((a.spot, a.color), (b.spot, b.color));
    plain.next_u64();
    assert_eq!(plain, fancy);
    assert!(b.gradient.unwrap() < 24);
}

#[test]
fn gradients_depend_on_their_number_alone() {
    for g in 0..24 {
        let plan = draw_gradient(g);
        let mut stream = Stream(GRADIENT_SEED + u64::from(g));
        assert_eq!([plan.first, plan.middle, plan.last], [stream.pick(6), stream.pick(6), stream.pick(6)]);
        assert_eq!(f(plan.offset), stream.unit());
        assert_eq!(plan.linear, g % 2 == 0);
    }
}

#[test]
fn strokes_cycle_their_styles() {
    let plans = draw_strokes(12);
    let mut rng = Rng(STROKE_SEED);
    for (i, plan) in plans.iter().enumerate() {
        assert_eq!(draw_stroke(&mut rng, i as u32), *plan);
    }
    let joins: Vec<LineJoin> = plans[..4].iter().map(|p| p.join).collect();
    assert_eq!(joins, vec![LineJoin::Miter, LineJoin::Round, LineJoin::Bevel, LineJoin::Miter]);
    assert_eq!((plans[2].cap, plans[3].cap, plans[8].cap), (LineCap::Butt, LineCap::Round, LineCap::Square));
    assert_eq!((plans[0].dashed, plans[1].dashed), (true, false));
    let circles: Vec<usize> = (0..12).filter(|&i| plans[i].circle).collect();
    assert_eq!(circles, vec![4, 9]);
}

#[test]
fn sprites_skip_the_kinds() {
    let mut stream = Stream(STANDARD_SEED);
    for plan in draw_sprites(50) {
        assert_eq!(f(plan.spot.first), stream.unit());
        assert_eq!(f(plan.spot.second), stream.unit());
        assert_eq!(f(plan.spot.size), stream.unit());
        assert_eq!(plan.color, stream.pick(6));
        assert_eq!(f(plan.motion.rotation), stream.unit());
        assert_eq!(f(plan.motion.phase), stream.unit());
        assert_eq!(f(plan.motion.speed), stream.unit());
    }
}

#[test]
fn clipped_elements_go_round_the_panels() {
    let mut stream = Stream(CLIP_SEED);
    for (j, plan) in draw_clipped_elements(60, 7).iter().enumerate() {
        assert_eq!(plan.panel, j as u32 % 7);
        assert_eq!(f(plan.spot.first), stream.unit());
        assert_eq!(f(plan.spot.second), stream.unit());
        assert_eq!(f(plan.spot.size), stream.unit());
        assert_eq!(plan.color, stream.pick(6));
        assert_eq!(f(plan.motion.rotation), stream.unit());
        assert_eq!(f(plan.motion.phase), stream.unit());
        assert_eq!(f(plan.motion.speed), stream.unit());
        let expected = match stream.pick(3) {
            0 => ClippedKind::Circle,
            1 => ClippedKind::RoundedRect,
            _ => ClippedKind::Polygon { sides: 3 + stream.pick(6) },
        };
        assert_eq!(plan.kind, expected);
    }
}

#[test]
fn cells_fill_row_by_row() {
    assert_eq!(grid_cell(0, 200, 19), Cell { column: 0, row: 0, rows: 11 });
    assert_eq!(grid_cell(199, 200, 19), Cell { column: 9, row: 10, rows: 11 });
    assert_eq!(grid_cell(5, 6, 3), Cell { column: 2, row: 1, rows: 2 });
    assert_eq!(grid_cell(0, 0, 1), Cell { column: 0, row: 0, rows: 0 });
    assert_eq!(grid_cell(u32::MAX, u32::MAX, 1).rows, u32::MAX);
}

#[test]
fn cells_are_distinct() {
    let mut cells: Vec<(u32, u32)> = (0..100)
        .map(|i| {
            let cell = grid_cell(i, 100, 14);
            assert!(cell.column < 14 && cell.row < cell.rows);
            (cell.column, cell.row)
        })
        .collect();
    cells.sort();
    cells.dedup();
    assert_eq!(cells.len(), 100);
}
