use bevy_pf_vector::bench::args::{parse_args, ArgError, Backend, BenchConfig};
use bevy_pf_vector::bench::outline::{
    circle_path, ngon_path, polyline_path, ring_segment_path, rounded_rect_path, Corners,
};
use bevy_pf_vector::bench::report::{report_series, write_report, Metric};
use bevy_pf_vector::bench::sampling::{BenchState, SampleStep, Series, SCREENSHOT_FRAME};
use bevy_pf_vector::bench::stats::{percentile_index, sort_samples, stats};
use bevy_pf_vector::bench::text::{append_number, parse_number};
use bevy_pf_vector::bench::style::{
    element_style, gradient_brush, planned_stroke, round_stroke,
};
use bevy_pf_vector::bench::workload::{
    draw_gradient, draw_strokes, stage_control, stage_engine, Kind, Sizing,
};
use bevy_pf_vector::path::{Brush, LineCap, LineJoin, LinearRgba, PathCommand, Point};
use bevy_pf_vector::scalar::Scalar;

fn s(x: f32) -> Scalar {
    Scalar { bits: x.to_bits() }
}

fn p(x: f32, y: f32) -> Point {
    Point::new(s(x), s(y))
}

fn parse(line: &str) -> Result<BenchConfig, ArgError> {
    parse_args(&line.split_whitespace().map(String::from).collect())
}

#[test]
fn numbers_are_read() {
    assert_eq!(parse_number("0"), Some(0));
    assert_eq!(parse_number("+42"), Some(42));
    assert_eq!(parse_number("007"), Some(7));
    assert_eq!(parse_number("4294967295"), Some(u32::MAX));
    assert_eq!(parse_number("0000000000000000004294967295"), Some(u32::MAX));
    for bad in ["", "+", "-1", "4294967296", "1.5", " 1", "1 ", "++1", "0x10", "99999999999999"] {
        assert_eq!(parse_number(bad), None, "{bad}");
        assert!(bad.parse::<u32>().is_err());
    }
}

#[test]
fn numbers_read_back() {
    for n in [0u32, 7, 10, 99, 100, 12345, u32::MAX] {
        let mut text = String::from("n");
        append_number(&mut text, n as u64);
        assert_eq!(text, format!("n{n}"));
        assert_eq!(parse_number(&text[1..]), Some(n));
    }
}

#[test]
fn a_bare_command_line_is_the_control() {
    let config = parse("").unwrap();
    assert_eq!(config.backend, Backend::Shapes);
    assert_eq!((config.elements, config.warmup, config.frames), (200, 120, 600));
    assert_eq!((config.dynamic, config.clips, config.strokes), (0, 0, 0));
    assert!(!config.overlap && !config.flat && !config.gradients && !config.screenshot);
    assert_eq!(config.out_dir, "benchmarks/results");
    assert_eq!(config.label, "shapes_200el_600f");
    assert!(config.is_supported() && config.draws_standard());
}

#[test]
fn every_option_is_heard() {
    let config = parse(
        "--backend engine --elements 10 --dynamic 2 --clips 3 --warmup 4 --frames 5 --out dir \
         --label name --strokes 6 --screenshot --overlap --flat --gradients",
    )
    .unwrap();
    assert_eq!(config.backend, Backend::Engine);
    assert_eq!((config.elements, config.dynamic, config.clips), (10, 2, 3));
    assert_eq!((config.warmup, config.frames, config.strokes), (4, 5, 6));
    assert_eq!((config.out_dir.as_str(), config.label.as_str()), ("dir", "name"));
    assert!(config.screenshot && config.overlap && config.flat && config.gradients);
    assert!(!config.draws_standard());
}

#[test]
fn set_ups_draw_the_same_workload() {
    let config = parse("--backend engine --elements 50 --dynamic 7").unwrap();
    let (control, engine) = (stage_control(&config), stage_engine(&config));
    assert_eq!((control.len(), engine.len()), (50, 50));
    for (i, (a, b)) in control.iter().zip(&engine).enumerate() {
        assert_eq!(a.element, b.element);
        assert_eq!((a.sizing, b.sizing), (Sizing::Scaled, Sizing::Baked));
        assert_eq!(a.element.kind == Kind::Gauge, i < 7);
    }
    let clipped = parse("--backend engine --elements 50 --clips 3").unwrap();
    assert!(stage_engine(&clipped).is_empty());
    let fancy = parse("--backend engine --elements 50 --gradients").unwrap();
    assert!(stage_engine(&fancy).iter().all(|s| s.element.gradient.is_some()));
}

#[test]
fn backends_are_found_by_name() {
    for backend in [Backend::Shapes, Backend::Sprites, Backend::Engine, Backend::Vello] {
        let config = parse(&format!("--backend {}", backend.name())).unwrap();
        assert_eq!(config.backend, backend);
    }
}

#[test]
fn the_last_option_wins() {
    let config = parse("--elements 1 --elements 2 --backend vello --backend sprites").unwrap();
    assert_eq!((config.elements, config.backend), (2, Backend::Sprites));
}

#[test]
fn labels_name_the_workload() {
    let label = |line: &str| parse(line).unwrap().label;
    assert_eq!(label("--strokes 300 --backend engine --flat"), "engine_300strk_600f");
    assert_eq!(label("--flat --gradients"), "shapes_200el_flat_600f");
    assert_eq!(label("--gradients --overlap"), "shapes_200el_grad_600f");
    assert_eq!(label("--overlap --clips 2"), "shapes_200el_ovl_600f");
    assert_eq!(label("--clips 12 --dynamic 1"), "shapes_200el_12clips_600f");
    assert_eq!(label("--dynamic 50 --frames 7"), "shapes_200el_50dyn_7f");
}

#[test]
fn bad_command_lines_are_refused() {
    assert!(matches!(parse("--elements"), Err(ArgError::MissingValue(a)) if a == "--elements"));
    assert!(matches!(parse("--label"), Err(ArgError::MissingValue(a)) if a == "--label"));
    assert!(matches!(parse("--backend skia"), Err(ArgError::UnknownBackend(a)) if a == "skia"));
    assert!(matches!(parse("--frames many"), Err(ArgError::BadNumber(a)) if a == "--frames"));
    assert!(matches!(parse("--nope 3"), Err(ArgError::UnknownArgument(a)) if a == "--nope"));
    // The first fault counts.
    assert!(matches!(parse("--nope --frames x"), Err(ArgError::UnknownArgument(_))));
}

#[test]
fn some_workloads_need_the_engine_or_vello() {
    for line in ["--clips 2", "--strokes 2", "--gradients"] {
        assert!(!parse(line).unwrap().is_supported());
        assert!(!parse(&format!("--backend sprites {line}")).unwrap().is_supported());
        assert!(parse(&format!("--backend engine {line}")).unwrap().is_supported());
        assert!(parse(&format!("--backend vello {line}")).unwrap().is_supported());
    }
    assert!(parse("--backend sprites --overlap").unwrap().is_supported());
    assert!(parse("--backend engine --gradients").unwrap().draws_standard());
}

#[test]
fn outlines_follow_their_points() {
    let corners = vec![p(0.0, 1.0), p(1.0, 0.0), p(-1.0, 0.0)];
    let open = vec![
        PathCommand::MoveTo(corners[0]),
        PathCommand::LineTo(corners[1]),
        PathCommand::LineTo(corners[2]),
    ];
    assert_eq!(polyline_path(&corners), open);
    let closed: Vec<PathCommand> = open.iter().copied().chain([PathCommand::Close]).collect();
    assert_eq!(ngon_path(&corners), closed);
    assert_eq!(ngon_path(&vec![]), vec![PathCommand::Close]);
    let circle = circle_path(s(2.0), s(1.0));
    assert_eq!((circle.len(), circle[0]), (6, PathCommand::MoveTo(p(2.0, 0.0))));
    let first = PathCommand::CubicTo { ctrl1: p(2.0, 1.0), ctrl2: p(1.0, 2.0), to: p(0.0, 2.0) };
    assert_eq!(circle[1], first);
    let ring = ring_segment_path(&vec![p(2.0, 0.0), p(0.0, 2.0)], &vec![p(1.0, 0.0), p(0.0, 1.0)]);
    assert_eq!(
        ring,
        vec![
            PathCommand::MoveTo(p(2.0, 0.0)),
            PathCommand::LineTo(p(0.0, 2.0)),
            PathCommand::LineTo(p(0.0, 1.0)),
            PathCommand::LineTo(p(1.0, 0.0)),
            PathCommand::Close,
        ]
    );
}

#[test]
fn rectangles_round_their_corners() {
    let corners =
        Corners { half: p(4.0, 3.0), left: s(-3.0), right: s(3.0), bottom: s(-2.0), top: s(2.0) };
    let quad = |ctrl: Point, to: Point| PathCommand::QuadTo { ctrl, to };
    assert_eq!(
        rounded_rect_path(corners, s(1.0)),
        vec![
            PathCommand::MoveTo(p(-3.0, 3.0)),
            PathCommand::LineTo(p(3.0, 3.0)),
            quad(p(4.0, 3.0), p(4.0, 2.0)),
            PathCommand::LineTo(p(4.0, -2.0)),
            quad(p(4.0, -3.0), p(3.0, -3.0)),
            PathCommand::LineTo(p(-3.0, -3.0)),
            quad(p(-4.0, -3.0), p(-4.0, -2.0)),
            PathCommand::LineTo(p(-4.0, 2.0)),
            quad(p(-4.0, 3.0), p(-3.0, 3.0)),
            PathCommand::Close,
        ]
    );
    let sharp = vec![
        PathCommand::MoveTo(p(-4.0, 3.0)),
        PathCommand::LineTo(p(4.0, 3.0)),
        PathCommand::LineTo(p(4.0, -3.0)),
        PathCommand::LineTo(p(-4.0, -3.0)),
        PathCommand::Close,
    ];
    assert_eq!(rounded_rect_path(corners, s(0.0)), sharp);
    assert_eq!(rounded_rect_path(corners, s(-0.0)), sharp);
    assert_eq!(rounded_rect_path(corners, s(-1.0)), sharp);
}

fn red() -> LinearRgba {
    LinearRgba { red: s(1.0), green: s(0.0), blue: s(0.0), alpha: s(1.0) }
}

#[test]
fn hollow_elements_are_stroked() {
    let hollow = element_style(red(), Brush::Solid(LinearRgba::white()), Some(s(2.0)));
    let stroke = hollow.stroke.unwrap();
    assert!(hollow.fill.is_none());
    assert_eq!((stroke.join, stroke.cap, stroke.width), (LineJoin::Round, LineCap::Round, s(2.0)));
    assert_eq!(stroke.brush.flat_color(), red());
    let filled = element_style(red(), Brush::Solid(LinearRgba::white()), None);
    assert!(filled.stroke.is_none());
    assert_eq!(filled.fill.unwrap().flat_color(), LinearRgba::white());
    assert_eq!(round_stroke(red(), s(3.0)).stroke.unwrap().width, s(3.0));
}

#[test]
fn planned_strokes_keep_their_plan() {
    let plans = draw_strokes(2);
    let dash = [s(4.0), s(2.0)];
    let first = planned_stroke(&plans[0], red(), s(1.5), dash).stroke.unwrap();
    assert_eq!((first.join, first.cap, first.dash), (LineJoin::Miter, LineCap::Butt, Some(dash)));
    let second = planned_stroke(&plans[1], red(), s(1.5), dash).stroke.unwrap();
    assert_eq!((second.join, second.dash, second.width), (LineJoin::Round, None, s(1.5)));
}

#[test]
fn gradients_run_over_the_palette() {
    let palette: Vec<LinearRgba> =
        (0..6).map(|i| LinearRgba { red: s(i as f32), ..red() }).collect();
    for g in 0..2 {
        let plan = draw_gradient(g);
        let brush =
            gradient_brush(&plan, &palette, s(0.4), p(-1.0, -1.0), p(1.0, 1.0), s(5.0));
        let stops = match brush {
            Brush::Linear { start, end, stops } => {
                assert_eq!((g, start, end), (0, p(-1.0, -1.0), p(1.0, 1.0)));
                stops
            }
            Brush::Radial { center, radius, stops } => {
                assert_eq!((g, center, radius), (1, p(0.0, 0.0), s(5.0)));
                stops
            }
            Brush::Solid(_) => panic!("a gradient is not solid"),
        };
        let offsets: Vec<Scalar> = stops.iter().map(|x| x.offset).collect();
        assert_eq!(offsets, vec![s(0.0), s(0.4), s(1.0)]);
        let reds: Vec<Scalar> = stops.iter().map(|x| x.color.red).collect();
        let expected = [plan.first, plan.middle, plan.last].map(|i| s(i as f32));
        assert_eq!(reds, expected.to_vec());
    }
}

#[test]
fn samples_sort_in_total_order() {
    let values = [3.5f64, -1.0, f64::NAN, 0.0, -0.0, f64::INFINITY, -2.5, 3.5, f64::NEG_INFINITY];
    let bits: Vec<u64> = values.iter().map(|v| v.to_bits()).collect();
    let mut expected = values.to_vec();
    expected.sort_by(|a, b| a.total_cmp(b));
    let expected: Vec<u64> = expected.iter().map(|v| v.to_bits()).collect();
    assert_eq!(sort_samples(&bits), expected);
}

#[test]
fn percentiles_round_to_the_nearest_sample() {
    for n in (1usize..3000).chain([100_000, 123_457, 1_000_011]) {
        for q in [50u32, 95, 99] {
            let expected = ((f64::from(q) / 100.0) * (n - 1) as f64).round() as usize;
            assert_eq!(percentile_index(n, q), expected, "{n} {q}");
        }
    }
}

#[test]
fn statistics_are_order_statistics() {
    let bits: Vec<u64> = (0..101).rev().map(|v| (v as f64 * 0.5).to_bits()).collect();
    let found = stats(&bits).unwrap();
    let f = f64::from_bits;
    assert_eq!(found.count, 101);
    assert_eq!((f(found.p50), f(found.p95), f(found.p99)), (25.0, 47.5, 49.5));
    assert_eq!((f(found.min), f(found.max)), (0.0, 50.0));
    assert!(stats(&vec![]).is_none());
}

#[test]
fn statistics_do_not_rest_on_the_order() {
    let samples = [4.5, -1.0, 4.5, 0.25, 9.0, -0.0, 0.0];
    let bits = |values: &[f64]| values.iter().map(|v| v.to_bits()).collect::<Vec<u64>>();
    let mut turned = samples;
    turned.reverse();
    let (one, other) = (sort_samples(&bits(&samples)), sort_samples(&bits(&turned)));
    assert_eq!(one, other);
    assert_eq!(stats(&bits(&samples)), stats(&bits(&turned)));
    assert_eq!(one, bits(&[-1.0, -0.0, 0.0, 0.25, 4.5, 4.5, 9.0]));
}

#[test]
fn reports_lead_with_the_frame_times() {
    let series = |name: &str, values: &[u64]| (name.to_string(), values.to_vec());
    let render =
        vec![series("render/a", &[3]), series("render/none", &[]), series("render/b", &[1, 2])];
    assert_eq!(
        report_series(&vec![7, 8], &render),
        vec![series("cpu_frame_ms", &[7, 8]), series("render/a", &[3]), series("render/b", &[1, 2])]
    );
    assert_eq!(report_series(&vec![], &render)[0].0, "render/a");
    assert!(report_series(&vec![], &vec![]).is_empty());
}

#[test]
fn measurements_are_counted_once() {
    let mut series = Series::new();
    series.record(1, 10, 3);
    series.record(1, 11, 3);
    series.record(2, 12, 3);
    series.record(1, 13, 3);
    series.record(5, 14, 3);
    assert_eq!(series.values, vec![10, 12, 13]);
    assert_eq!(series.last_time, Some(1));
}

#[test]
fn a_run_warms_up_measures_and_ends() {
    let mut state = BenchState::new();
    let idle = SampleStep { screenshot: false, measure: false, announce: false, finish: false };
    assert_eq!(state.sample(1, 2, 2, true, 7), idle);
    assert_eq!(state.sample(2, 2, 2, true, 7), idle);
    assert_eq!(state.sample(3, 2, 2, true, 8), SampleStep { measure: true, announce: true, ..idle });
    assert_eq!(state.sample(4, 2, 2, true, 9), SampleStep { measure: true, finish: true, ..idle });
    assert_eq!(state.cpu_ms, vec![8, 9]);
    let mut state = BenchState::new();
    assert!(state.sample(SCREENSHOT_FRAME, 200, 1, true, 0).screenshot);
    assert!(!state.sample(SCREENSHOT_FRAME, 200, 1, false, 0).screenshot);
}

#[test]
fn reports_are_json() {
    let config = parse("--backend engine --label run --elements 7 --frames 2").unwrap();
    let metric = |name: &str, raw: &[&str]| Metric {
        name: name.into(),
        mean: "1.5".into(),
        p50: "1".into(),
        p95: "2".into(),
        p99: "2.5".into(),
        min: "0.5".into(),
        max: "3".into(),
        raw: raw.iter().map(|x| x.to_string()).collect(),
    };
    let metrics = vec![metric("cpu_frame_ms", &["1.000000", "2.000000"]), metric("render/x", &["3"])];
    assert_eq!(
        write_report(&config, "Card \"X\" (Vulkan)", &metrics),
        "{\n  \"label\": \"run\",\n  \"backend\": \"engine\",\n  \"elements\": 7,\n  \
         \"warmup\": 120,\n  \"frames\": 2,\n  \"adapter\": \"Card 'X' (Vulkan)\",\n  \
         \"metrics\": {\n    \"cpu_frame_ms\": {\n      \"count\": 2, \"mean\": 1.5, \"p50\": 1, \
         \"p95\": 2, \"p99\": 2.5, \"min\": 0.5, \"max\": 3,\n      \
         \"raw\": [1.000000,2.000000]\n    },\n    \"render/x\": {\n      \"count\": 1, \
         \"mean\": 1.5, \"p50\": 1, \"p95\": 2, \"p99\": 2.5, \"min\": 0.5, \"max\": 3,\n      \
         \"raw\": [3]\n    }\n  }\n}\n"
    );
    assert!(write_report(&config, "", &vec![]).ends_with("\"metrics\": {\n\n  }\n}\n"));
}
