use regex::Regex;
use termetheus::decimal::{Decimal, DecimalError, ONE};
use termetheus::labels::LabelSet;
use termetheus::prometheus::{QueryData, QueryResult, QueryValue};
use termetheus::ui::{
    compose, generate_legend_entry, get_bounds, get_datasets, get_points, palette_color, ui,
    Bounds, ChartError, Color, GraphType, Marker, Point, LEGEND_WIDTH, PALETTE_LEN,
};

fn decimal(value: f64) -> Decimal {
    Decimal::parse(&format!("{}", value)).unwrap()
}

fn point(x: f64, y: f64) -> Point {
    Point { x: decimal(x), y: decimal(y) }
}

fn sample(time: f64, value: &str) -> QueryValue {
    QueryValue(decimal(time), value.to_string())
}

fn series(labels: &[(&str, &str)], values: Vec<QueryValue>) -> QueryResult {
    let mut metric = LabelSet::new();
    for (key, value) in labels {
        metric.insert(key.to_string(), value.to_string());
    }
    QueryResult { metric, values }
}

fn matrix(result: Vec<QueryResult>) -> QueryData {
    QueryData { result_type: "matrix".to_string(), result }
}

#[test]
fn test_get_points() {
    let mut metric = LabelSet::new();
    metric.insert("__name__".to_string(), "test".to_string());
    let data = QueryData {
        result_type: "matrix".to_string(),
        result: vec![QueryResult {
            metric,
            values: vec![
                QueryValue(decimal(1.0), "1.0".to_string()),
                QueryValue(decimal(2.0), "2.0".to_string()),
            ],
        }],
    };
    let points = get_points(&data).unwrap();
    assert_eq!(points.len(), 1);
    assert_eq!(points[0].len(), 2);
    assert_eq!(points[0][0], point(1.0, 1.0));
    assert_eq!(points[0][1], point(2.0, 2.0));
}

#[test]
fn test_get_datasets() {
    let mut metric = LabelSet::new();
    metric.insert("__name__".to_string(), "test".to_string());
    let data = QueryData {
        result_type: "matrix".to_string(),
        result: vec![
            QueryResult {
                metric: metric.clone(),
                values: vec![
                    QueryValue(decimal(1.0), "1.0".to_string()),
                    QueryValue(decimal(2.0), "2.0".to_string()),
                ],
            },
            QueryResult {
                metric: metric.clone(),
                values: vec![
                    QueryValue(decimal(1.0), "1.0".to_string()),
                    QueryValue(decimal(2.0), "2.0".to_string()),
                ],
            },
        ],
    };
    let points = get_points(&data).unwrap();
    let datasets = get_datasets(&data, &points);

    assert_eq!(datasets.len(), 2);
}

#[test]
fn test_get_bounds() {
    let data = vec![
        vec![point(1.0, 1.0), point(2.0, 2.0), point(3.0, 3.0)],
        vec![point(1.0, 1.0), point(2.0, 2.0), point(3.0, 3.0)],
    ];
    let (x_bounds, y_bounds) = get_bounds(&data);
    assert_eq!(x_bounds.min, decimal(1.0));
    assert_eq!(x_bounds.max, decimal(3.0));
    assert_eq!(x_bounds.inbetween, decimal(2.0));
    assert_eq!(y_bounds.min, decimal(1.0));
    assert_eq!(y_bounds.max, decimal(3.0));
    assert_eq!(y_bounds.inbetween, decimal(2.0));
}

#[test]
fn test_get_bounds_same_min_max() {
    let data = vec![
        vec![point(1.0, 1.0), point(1.0, 1.0), point(1.0, 1.0)],
        vec![point(1.0, 1.0), point(1.0, 1.0), point(1.0, 1.0)],
    ];
    let (x_bounds, y_bounds) = get_bounds(&data);
    assert_eq!(x_bounds.min, decimal(0.0));
    assert_eq!(x_bounds.max, decimal(2.0));
    assert_eq!(x_bounds.inbetween, decimal(1.0));
    assert_eq!(y_bounds.min, decimal(0.0));
    assert_eq!(y_bounds.max, decimal(2.0));
    assert_eq!(y_bounds.inbetween, decimal(1.0));
}

#[test]
fn test_generate_legend_entry() {
    let mut metric = LabelSet::new();
    metric.insert("instance".to_string(), "testinstance".to_string());
    metric.insert("__name__".to_string(), "test".to_string());
    metric.insert("thing".to_string(), "testthing".to_string());
    let result = generate_legend_entry(&metric);
    let re = Regex::new(r#"\{(.*?=".*?",?)*\}"#).unwrap();

    assert!(re.is_match(&result));
    assert!(result.contains("instance=\"testinstance\""));
    assert!(result.contains("__name__=\"test\""));
    assert!(result.contains("thing=\"testthing\""));
}

#[test]
fn legend_is_the_labels_in_braces() {
    let mut metric = LabelSet::new();
    metric.insert("instance".to_string(), "testinstance".to_string());
    metric.insert("__name__".to_string(), "test".to_string());
    metric.insert("thing".to_string(), "testthing".to_string());
    assert_eq!(
        generate_legend_entry(&metric),
        "{instance=\"testinstance\", __name__=\"test\", thing=\"testthing\"}"
    );
}

#[test]
fn legend_of_one_label_and_of_none() {
    let mut metric = LabelSet::new();
    assert_eq!(generate_legend_entry(&metric), "{}");
    metric.insert("job".to_string(), "node".to_string());
    assert_eq!(generate_legend_entry(&metric), "{job=\"node\"}");
    metric.insert("job".to_string(), "".to_string());
    assert_eq!(generate_legend_entry(&metric), "{job=\"\"}");
}

#[test]
fn legend_is_the_same_each_time() {
    let mut metric = LabelSet::new();
    metric.insert("b".to_string(), "2".to_string());
    metric.insert("a".to_string(), "1".to_string());
    assert_eq!(generate_legend_entry(&metric), generate_legend_entry(&metric));
    assert_eq!(generate_legend_entry(&metric), generate_legend_entry(&metric.clone()));
}

#[test]
fn bounds_of_two_ends() {
    let d = Decimal::from_units;
    assert_eq!(
        Bounds::new(decimal(1.0), decimal(3.0)),
        Bounds { min: decimal(1.0), max: decimal(3.0), inbetween: decimal(2.0) }
    );
    assert_eq!(
        Bounds::new(decimal(-1.0), decimal(2.0)),
        Bounds { min: decimal(-1.0), max: decimal(2.0), inbetween: decimal(0.5) }
    );
    assert_eq!(Bounds::new(d(0), d(1)), Bounds { min: d(0), max: d(1), inbetween: d(0) });
    assert_eq!(Bounds::new(d(0), d(2)), Bounds { min: d(0), max: d(2), inbetween: d(1) });
    assert_eq!(Bounds::new(d(0), d(3)), Bounds { min: d(0), max: d(3), inbetween: d(1) });
    assert_eq!(
        Bounds::new(d(i128::MIN), d(i128::MAX)),
        Bounds { min: d(i128::MIN), max: d(i128::MAX), inbetween: d(-1) }
    );
}

#[test]
fn bounds_of_one_value() {
    let d = Decimal::from_units;
    assert_eq!(
        Bounds::new(decimal(5.0), decimal(5.0)),
        Bounds { min: decimal(4.0), max: decimal(6.0), inbetween: decimal(5.0) }
    );
    assert_eq!(
        Bounds::new(decimal(0.0), decimal(0.0)),
        Bounds { min: decimal(-1.0), max: decimal(1.0), inbetween: decimal(0.0) }
    );
    assert_eq!(
        Bounds::new(d(i128::MAX), d(i128::MAX)),
        Bounds { min: d(i128::MAX - ONE), max: d(i128::MAX), inbetween: d(i128::MAX) }
    );
    assert_eq!(
        Bounds::new(d(i128::MIN), d(i128::MIN)),
        Bounds { min: d(i128::MIN), max: d(i128::MIN + ONE), inbetween: d(i128::MIN) }
    );
}

#[test]
fn bounds_look_at_each_axis_alone() {
    let data = vec![
        Vec::new(),
        vec![point(5.0, -2.0), point(1.0, 7.5)],
        Vec::new(),
        vec![point(3.0, 0.25)],
    ];
    let (x_bounds, y_bounds) = get_bounds(&data);
    assert_eq!(x_bounds, Bounds { min: decimal(1.0), max: decimal(5.0), inbetween: decimal(3.0) });
    assert_eq!(
        y_bounds,
        Bounds { min: decimal(-2.0), max: decimal(7.5), inbetween: decimal(2.75) }
    );
}

#[test]
fn bounds_of_a_single_point() {
    let data = vec![vec![point(10.0, 0.5)]];
    let (x_bounds, y_bounds) = get_bounds(&data);
    assert_eq!(x_bounds, Bounds { min: decimal(9.0), max: decimal(11.0), inbetween: decimal(10.0) });
    assert_eq!(y_bounds, Bounds { min: decimal(-0.5), max: decimal(1.5), inbetween: decimal(0.5) });
}

#[test]
fn bounds_are_ordered() {
    let data = vec![vec![point(1.0, 9.0), point(2.0, 3.0), point(0.5, 3.0), point(7.0, 4.0)]];
    let (x_bounds, y_bounds) = get_bounds(&data);
    for bounds in [x_bounds, y_bounds] {
        assert!(bounds.min.units < bounds.inbetween.units);
        assert!(bounds.inbetween.units < bounds.max.units);
        assert_eq!(
            bounds.inbetween.units,
            bounds.min.units + (bounds.max.units - bounds.min.units) / 2
        );
    }
}

#[test]
fn points_of_no_series_and_of_empty_series() {
    assert_eq!(get_points(&matrix(Vec::new())).unwrap(), Vec::<Vec<Point>>::new());
    let data = matrix(vec![series(&[], Vec::new()), series(&[], vec![sample(1.0, "2")])]);
    assert_eq!(get_points(&data).unwrap(), vec![Vec::new(), vec![point(1.0, 2.0)]]);
}

#[test]
fn one_bad_value_fails_all_points() {
    let data = matrix(vec![
        series(&[], vec![sample(1.0, "1"), sample(2.0, "2")]),
        series(&[], vec![sample(1.0, "1"), sample(2.0, "two"), sample(3.0, "3")]),
    ]);
    assert_eq!(get_points(&data), Err(DecimalError::Malformed));
    assert_eq!(ui(&data).err(), Some(ChartError::Sample(DecimalError::Malformed)));
}

#[test]
fn the_first_bad_value_names_the_error() {
    let huge = "1000000000000000000000000000000000000000";
    let data = matrix(vec![series(&[], vec![sample(1.0, huge), sample(2.0, "NaN")])]);
    assert_eq!(get_points(&data), Err(DecimalError::OutOfRange));
    let data = matrix(vec![
        series(&[], vec![sample(1.0, "NaN")]),
        series(&[], vec![sample(2.0, huge)]),
    ]);
    assert_eq!(get_points(&data), Err(DecimalError::Malformed));
}

#[test]
fn two_series_make_two_lines_of_different_colours() {
    let values = || vec![sample(1.0, "1.0"), sample(2.0, "2.0")];
    let data = matrix(vec![
        series(&[("__name__", "test"), ("job", "a")], values()),
        series(&[("__name__", "test"), ("job", "b")], values()),
    ]);
    let points = get_points(&data).unwrap();
    let datasets = get_datasets(&data, &points);
    assert_eq!(datasets.len(), 2);
    assert_eq!(datasets[0].name, "{__name__=\"test\", job=\"a\"}");
    assert_eq!(datasets[1].name, "{__name__=\"test\", job=\"b\"}");
    assert_eq!(datasets[0].color, Color::Red);
    assert_eq!(datasets[1].color, Color::Green);
    assert_ne!(datasets[0].color, datasets[1].color);
    for dataset in &datasets {
        assert_eq!(dataset.marker, Marker::Braille);
        assert_eq!(dataset.graph_type, GraphType::Line);
        assert_eq!(dataset.data, vec![point(1.0, 1.0), point(2.0, 2.0)]);
    }
}

#[test]
fn datasets_follow_the_points_given() {
    let data = matrix(vec![
        series(&[("a", "1")], vec![sample(1.0, "1")]),
        series(&[("b", "2")], vec![sample(1.0, "1")]),
    ]);
    let points = vec![vec![point(4.0, 5.0)]];
    let datasets = get_datasets(&data, &points);
    assert_eq!(datasets.len(), 1);
    assert_eq!(datasets[0].name, "{a=\"1\"}");
    assert_eq!(datasets[0].data, vec![point(4.0, 5.0)]);
    assert_eq!(get_datasets(&data, &[]).len(), 0);
}

#[test]
fn a_long_legend_is_cut_at_fifty_characters() {
    let long = "x".repeat(60);
    let data = matrix(vec![
        series(&[("instance", long.as_str())], vec![sample(1.0, "1")]),
        series(&[("k", "\u{e9}\u{e9}\u{e9}\u{e9}\u{e9}\u{e9}\u{e9}\u{e9}\u{e9}\u{e9}\u{e9}\u{e9}\u{e9}\u{e9}\u{e9}\u{e9}\u{e9}\u{e9}\u{e9}\u{e9}\u{e9}\u{e9}\u{e9}\u{e9}\u{e9}\u{e9}\u{e9}\u{e9}\u{e9}\u{e9}\u{e9}\u{e9}\u{e9}\u{e9}\u{e9}\u{e9}\u{e9}\u{e9}\u{e9}\u{e9}\u{e9}\u{e9}\u{e9}\u{e9}\u{e9}\u{e9}\u{e9}\u{e9}\u{e9}\u{e9}")], vec![sample(1.0, "1")]),
        series(&[("k", "0123456789012345678901234567890123456789012")], vec![sample(1.0, "1")]),
        series(&[("k", "01234567890123456789012345678901234567890123")], vec![sample(1.0, "1")]),
    ]);
    let points = get_points(&data).unwrap();
    let datasets = get_datasets(&data, &points);
    assert_eq!(LEGEND_WIDTH, 50);
    assert_eq!(datasets[0].name.chars().count(), 50);
    assert_eq!(datasets[0].name, format!("{{instance=\"{}", "x".repeat(39)));
    assert_eq!(datasets[1].name.chars().count(), 50);
    assert!(datasets[1].name.starts_with("{k=\"\u{e9}"));
    assert_eq!(datasets[2].name.chars().count(), 49);
    assert!(datasets[2].name.ends_with("\"}"));
    assert_eq!(datasets[3].name.chars().count(), 50);
    assert!(datasets[3].name.ends_with("\"}"));
}

#[test]
fn colours_go_round_the_palette() {
    assert_eq!(PALETTE_LEN, 12);
    let palette = [
        Color::Red,
        Color::Green,
        Color::Blue,
        Color::Yellow,
        Color::Magenta,
        Color::Cyan,
        Color::LightRed,
        Color::LightGreen,
        Color::LightBlue,
        Color::LightYellow,
        Color::LightMagenta,
        Color::LightCyan,
    ];
    for place in 0..40_usize {
        assert_eq!(palette_color(place), palette[place % 12]);
    }
    assert_eq!(palette_color(usize::MAX), palette[usize::MAX % 12]);
    let data = matrix((0..14).map(|_| series(&[], vec![sample(1.0, "1")])).collect());
    let points = get_points(&data).unwrap();
    let datasets = get_datasets(&data, &points);
    assert_eq!(datasets[11].color, Color::LightCyan);
    assert_eq!(datasets[12].color, Color::Red);
    assert_eq!(datasets[13].color, Color::Green);
}

#[test]
fn chart_of_an_answer() {
    let data = matrix(vec![
        series(
            &[("__name__", "up"), ("instance", "localhost:9090")],
            vec![sample(1662621690.781, "1"), sample(1662621750.781, "0.5")],
        ),
        series(&[("__name__", "up")], vec![sample(1662621810.781, "3")]),
    ]);
    let chart = ui(&data).unwrap();
    assert_eq!(chart.title, "Graphingoooo");
    assert!(chart.bordered);
    assert_eq!(chart.x_axis.title, "X Axis");
    assert_eq!(chart.x_axis.color, Color::Gray);
    assert_eq!(chart.x_axis.min, decimal(1662621690.781));
    assert_eq!(chart.x_axis.max, decimal(1662621810.781));
    assert_eq!(chart.x_axis.labels, vec!["07:21", "07:22", "07:23"]);
    assert_eq!(chart.y_axis.title, "Y Axis");
    assert_eq!(chart.y_axis.color, Color::Gray);
    assert_eq!(chart.y_axis.min, decimal(0.5));
    assert_eq!(chart.y_axis.max, decimal(3.0));
    assert_eq!(chart.y_axis.labels, vec!["0.50", "1.75", "3.00"]);
    assert_eq!(chart.datasets.len(), 2);
    assert_eq!(chart.datasets[0].name, "{__name__=\"up\", instance=\"localhost:9090\"}");
    assert_eq!(chart.datasets[0].color, Color::Red);
    assert_eq!(
        chart.datasets[0].data,
        vec![point(1662621690.781, 1.0), point(1662621750.781, 0.5)]
    );
    assert_eq!(chart.datasets[1].name, "{__name__=\"up\"}");
    assert_eq!(chart.datasets[1].color, Color::Green);
    assert_eq!(chart.datasets[1].data, vec![point(1662621810.781, 3.0)]);
}

#[test]
fn chart_of_one_flat_series() {
    let data = matrix(vec![series(&[], vec![sample(3600.0, "1"), sample(3600.0, "1")])]);
    let chart = ui(&data).unwrap();
    assert_eq!(chart.x_axis.labels, vec!["00:59", "01:00", "01:00"]);
    assert_eq!(chart.y_axis.labels, vec!["0.00", "1.00", "2.00"]);
    assert_eq!(chart.x_axis.min, decimal(3599.0));
    assert_eq!(chart.x_axis.max, decimal(3601.0));
}

#[test]
fn no_chart_without_a_point() {
    assert_eq!(ui(&matrix(Vec::new())).err(), Some(ChartError::EmptyData));
    let data = matrix(vec![series(&[("a", "b")], Vec::new()), series(&[], Vec::new())]);
    assert_eq!(ui(&data).err(), Some(ChartError::EmptyData));
}

#[test]
fn no_chart_of_times_outside_the_calendar() {
    let data = matrix(vec![series(&[], vec![sample(1e15, "1")])]);
    assert_eq!(ui(&data).err(), Some(ChartError::TimeOutOfRange));
    let data = matrix(vec![series(&[], vec![sample(0.0, "1"), sample(1e15, "1")])]);
    assert_eq!(ui(&data).err(), Some(ChartError::TimeOutOfRange));
    let bounds = Bounds::new(decimal(0.0), decimal(1.0));
    let far = Bounds::new(decimal(-1e15), decimal(0.0));
    assert!(compose(Vec::new(), far, bounds).is_none());
    assert!(compose(Vec::new(), bounds, far).is_some());
}

#[test]
fn the_same_inputs_give_the_same_chart() {
    let data = matrix(vec![
        series(&[("__name__", "up")], vec![sample(10.0, "1"), sample(70.0, "2")]),
        series(&[("job", "x")], vec![sample(20.0, "-4.25")]),
    ]);
    let points = get_points(&data).unwrap();
    let (x_bounds, y_bounds) = get_bounds(&points);
    let first = compose(get_datasets(&data, &points), x_bounds, y_bounds).unwrap();
    let second = compose(get_datasets(&data, &points), x_bounds, y_bounds).unwrap();
    assert_eq!(format!("{:?}", first), format!("{:?}", second));
    assert_eq!(format!("{:?}", ui(&data).unwrap()), format!("{:?}", first));
    assert_eq!(first.x_axis.labels, vec!["00:00", "00:00", "00:01"]);
    assert_eq!(first.y_axis.labels, vec!["-4.25", "-1.12", "2.00"]);
}

#[test]
fn values_with_exponents_are_charted() {
    let data = matrix(vec![series(
        &[("__name__", "rate")],
        vec![sample(60.0, "1e3"), sample(120.0, "2.5e-07"), sample(180.0, "-1.5E+2")],
    )]);
    let points = get_points(&data).unwrap();
    assert_eq!(
        points,
        vec![vec![
            Point { x: decimal(60.0), y: decimal(1000.0) },
            Point { x: decimal(120.0), y: Decimal::from_units(250) },
            Point { x: decimal(180.0), y: decimal(-150.0) },
        ]]
    );
    let chart = ui(&data).unwrap();
    assert_eq!(chart.y_axis.min, decimal(-150.0));
    assert_eq!(chart.y_axis.max, decimal(1000.0));
    assert_eq!(chart.y_axis.labels, vec!["-150.00", "425.00", "1000.00"]);
    assert_eq!(chart.x_axis.labels, vec!["00:01", "00:02", "00:03"]);
    assert_eq!(chart.datasets[0].data, points[0]);
}

#[test]
fn a_value_with_a_broken_exponent_fails_all_points() {
    let data = matrix(vec![series(&[], vec![sample(1.0, "1e3"), sample(2.0, "1e")])]);
    assert_eq!(get_points(&data), Err(DecimalError::Malformed));
    let data = matrix(vec![series(&[], vec![sample(1.0, "1e3"), sample(2.0, "1e30")])]);
    assert_eq!(ui(&data).err(), Some(ChartError::Sample(DecimalError::OutOfRange)));
}
