//! From the backend's answer to the description of a chart: the points of
//! each series, the bounds of the two axes, the legend and colour of each
//! line, and the chart that holds them all.

use crate::decimal::{midpoint_of, parsed, saturate, Decimal, DecimalError, ONE};
use crate::labels::{LabelSet, Pairs};
use crate::prometheus::{QueryData, QueryResult, QueryValue};
use crate::decimal::text_2dp;
use crate::time_utils::{time_string_of, timestamp_to_time_string};
use vstd::prelude::*;
use vstd::string::*;

verus! {

/// A sample in plot coordinates: seconds since the epoch and the value.
#[derive(Clone, Copy, Debug, PartialEq, Eq, Structural)]
pub struct Point {
    pub x: Decimal,
    pub y: Decimal,
}

/// The ends of an axis and the point between them.
#[derive(Clone, Copy, Debug, PartialEq, Eq, Structural)]
pub struct Bounds {
    pub min: Decimal,
    pub max: Decimal,
    pub inbetween: Decimal,
}

/// The decimal of `units` billionths.
pub open spec fn decimal(units: int) -> Decimal {
    Decimal { units: units as i128 }
}

/// The bounds of an axis whose data reach from `min` to `max`. Where the two
/// are one value, the axis reaches one unit to either side of it and the value
/// stays in the middle.
pub open spec fn bounds_of(min: int, max: int) -> Bounds {
    if min == max {
        Bounds {
            min: decimal(saturate(min - ONE)),
            max: decimal(saturate(max + ONE)),
            inbetween: decimal(min),
        }
    } else {
        Bounds { min: decimal(min), max: decimal(max), inbetween: decimal(midpoint_of(min, max)) }
    }
}

impl Bounds {
    /// The bounds of an axis whose data reach from `min` to `max`.
    pub fn new(min: Decimal, max: Decimal) -> (r: Bounds)
        ensures
            r == bounds_of(min.units as int, max.units as int),
    {
        if min.units == max.units {
            let one = Decimal::from_units(ONE);
            return Bounds {
                min: min.saturating_sub(one),
                max: max.saturating_add(one),
                inbetween: min,
            };
        }
        Bounds { min, max, inbetween: min.midpoint(max) }
    }
}

/// The series of `data` as sequences of points.
pub open spec fn rows(data: Seq<Vec<Point>>) -> Seq<Seq<Point>> {
    data.map_values(|series: Vec<Point>| series@)
}

/// Between two different ends the middle is the first end plus half the way
/// to the second, rounded down. Where the first end is the lower one, the
/// middle lies below the upper end, and above the lower one unless the ends
/// are one billionth apart.
pub proof fn lemma_bounds_of_distinct_ends(min: int, max: int)
    requires
        i128::MIN <= min <= i128::MAX,
        i128::MIN <= max <= i128::MAX,
        min != max,
    ensures
        bounds_of(min, max).min.units == min,
        bounds_of(min, max).max.units == max,
        bounds_of(min, max).inbetween.units == min + (max - min) / 2,
        min < max ==> min <= bounds_of(min, max).inbetween.units < max,
        max - min >= 2 ==> min < bounds_of(min, max).inbetween.units,
{
}

/// Where both ends are the value `v`, the axis reaches one unit to either
/// side of `v`, as far as a decimal can, and `v` is its middle.
pub proof fn lemma_bounds_of_one_value(v: int)
    requires
        i128::MIN <= v <= i128::MAX,
    ensures
        bounds_of(v, v).min.units == saturate(v - ONE),
        bounds_of(v, v).max.units == saturate(v + ONE),
        bounds_of(v, v).inbetween.units == v,
        i128::MIN + ONE <= v <= i128::MAX - ONE ==> bounds_of(v, v).min.units == v - ONE
            && bounds_of(v, v).max.units == v + ONE,
{
}

/// The middle of an axis lies between its ends.
pub proof fn lemma_bounds_are_ordered(min: int, max: int)
    requires
        i128::MIN <= min <= max <= i128::MAX,
    ensures
        bounds_of(min, max).min.units <= bounds_of(min, max).inbetween.units <= bounds_of(
            min,
            max,
        ).max.units,
{
}

/// The points of every series, one series after the other.
pub open spec fn all_points(series: Seq<Seq<Point>>) -> Seq<Point> {
    series.flatten()
}

/// The horizontal coordinates of `points`, in billionths.
pub open spec fn xs(points: Seq<Point>) -> Seq<int> {
    points.map_values(|p: Point| p.x.units as int)
}

/// The vertical coordinates of `points`, in billionths.
pub open spec fn ys(points: Seq<Point>) -> Seq<int> {
    points.map_values(|p: Point| p.y.units as int)
}

/// The bounds of the axis that shows `values`.
pub open spec fn axis_bounds(values: Seq<int>) -> Bounds {
    bounds_of(values.min(), values.max())
}

/// Where every coordinate is the value `v`, the axis reaches one unit to
/// either side of `v`, as far as a decimal can, and `v` is its middle.
pub proof fn lemma_axis_of_one_value(values: Seq<int>, v: int)
    requires
        values.len() > 0,
        forall|k: int| 0 <= k < values.len() ==> values[k] == v,
        i128::MIN <= v <= i128::MAX,
    ensures
        axis_bounds(values) == (Bounds {
            min: decimal(saturate(v - ONE)),
            max: decimal(saturate(v + ONE)),
            inbetween: decimal(v),
        }),
{
    values.min_ensures();
    values.max_ensures();
    let a = choose|k: int| 0 <= k < values.len() && values[k] == values.min();
    let b = choose|k: int| 0 <= k < values.len() && values[k] == values.max();
    assert(values.contains(values.min()));
    assert(values.contains(values.max()));
}

/// Where the coordinates differ, the axis reaches from the least to the
/// greatest of them, and its middle is the least plus half the distance.
pub proof fn lemma_axis_of_many_values(values: Seq<int>)
    requires
        values.len() > 0,
        forall|k: int| 0 <= k < values.len() ==> i128::MIN <= #[trigger] values[k] <= i128::MAX,
        values.min() != values.max(),
    ensures
        axis_bounds(values).min.units == values.min(),
        axis_bounds(values).max.units == values.max(),
        axis_bounds(values).inbetween.units == values.min() + (values.max() - values.min()) / 2,
        values.min() <= axis_bounds(values).inbetween.units < values.max(),
{
    values.min_ensures();
    values.max_ensures();
    assert(values.contains(values.min()));
    assert(values.contains(values.max()));
    let a = choose|k: int| 0 <= k < values.len() && values[k] == values.min();
    let b = choose|k: int| 0 <= k < values.len() && values[k] == values.max();
    assert(values.min() <= values[b]);
}

/// Whether `v` is one of `values` and none of them is below it.
spec fn is_least(values: Seq<int>, v: int) -> bool {
    &&& exists|k: int| 0 <= k < values.len() && values[k] == v
    &&& forall|k: int| 0 <= k < values.len() ==> v <= values[k]
}

/// Whether `v` is one of `values` and none of them is above it.
spec fn is_greatest(values: Seq<int>, v: int) -> bool {
    &&& exists|k: int| 0 <= k < values.len() && values[k] == v
    &&& forall|k: int| 0 <= k < values.len() ==> values[k] <= v
}

proof fn lemma_least_is_min(values: Seq<int>, v: int)
    requires
        is_least(values, v),
    ensures
        values.min() == v,
{
    values.min_ensures();
    let k = choose|k: int| 0 <= k < values.len() && values[k] == v;
    assert(values.contains(v));
    let m = values.min();
    assert(values.contains(m));
    let j = choose|j: int| 0 <= j < values.len() && values[j] == m;
    assert(v <= values[j]);
}

proof fn lemma_greatest_is_max(values: Seq<int>, v: int)
    requires
        is_greatest(values, v),
    ensures
        values.max() == v,
{
    values.max_ensures();
    let k = choose|k: int| 0 <= k < values.len() && values[k] == v;
    assert(values.contains(v));
    let m = values.max();
    assert(values.contains(m));
    let j = choose|j: int| 0 <= j < values.len() && values[j] == m;
    assert(values[j] <= v);
}

/// The least and the greatest of `values` after one more value.
proof fn lemma_extremes_push(values: Seq<int>, lo: int, hi: int, v: int)
    requires
        values.len() > 0 ==> is_least(values, lo) && is_greatest(values, hi),
    ensures
        is_least(
            values.push(v),
            if values.len() == 0 || v < lo {
                v
            } else {
                lo
            },
        ),
        is_greatest(
            values.push(v),
            if values.len() == 0 || v > hi {
                v
            } else {
                hi
            },
        ),
{
    let next = values.push(v);
    assert(next[values.len() as int] == v);
    if values.len() > 0 {
        let a = choose|k: int| 0 <= k < values.len() && values[k] == lo;
        assert(next[a] == lo);
        let b = choose|k: int| 0 <= k < values.len() && values[k] == hi;
        assert(next[b] == hi);
        assert forall|k: int| 0 <= k < next.len() implies (if v < lo {
            v
        } else {
            lo
        }) <= next[k] by {
            if k < values.len() {
                assert(next[k] == values[k]);
            }
        }
        assert forall|k: int| 0 <= k < next.len() implies next[k] <= (if v > hi {
            v
        } else {
            hi
        }) by {
            if k < values.len() {
                assert(next[k] == values[k]);
            }
        }
    }
}

/// The bounds of the two axes of a chart of `data`: for each axis, from the
/// least to the greatest coordinate of all points of all series. There must be
/// a point.
pub fn get_bounds(data: &[Vec<Point>]) -> (r: (Bounds, Bounds))
    requires
        all_points(rows(data@)).len() > 0,
    ensures
        r.0 == axis_bounds(xs(all_points(rows(data@)))),
        r.1 == axis_bounds(ys(all_points(rows(data@)))),
{
    let ghost grid = rows(data@);
    let ghost mut seen: Seq<Point> = Seq::empty();
    let mut found: bool = false;
    let mut x_lo: i128 = 0;
    let mut x_hi: i128 = 0;
    let mut y_lo: i128 = 0;
    let mut y_hi: i128 = 0;
    let n: usize = data.len();
    let mut i: usize = 0;
    assert(grid.take(0) =~= Seq::<Seq<Point>>::empty());
    while i < n
        invariant
            i <= n,
            n == data@.len(),
            grid == rows(data@),
            seen == grid.take(i as int).flatten(),
            found == (seen.len() > 0),
            found ==> is_least(xs(seen), x_lo as int) && is_greatest(xs(seen), x_hi as int),
            found ==> is_least(ys(seen), y_lo as int) && is_greatest(ys(seen), y_hi as int),
        decreases n - i,
    {
        let series = &data[i];
        let m: usize = series.len();
        let ghost before = seen;
        let mut j: usize = 0;
        assert(series@.take(0) =~= Seq::<Point>::empty());
        assert(before + series@.take(0) =~= before);
        while j < m
            invariant
                j <= m,
                m == series@.len(),
                seen == before + series@.take(j as int),
                found == (seen.len() > 0),
                found ==> is_least(xs(seen), x_lo as int) && is_greatest(xs(seen), x_hi as int),
                found ==> is_least(ys(seen), y_lo as int) && is_greatest(ys(seen), y_hi as int),
            decreases m - j,
        {
            let p = series[j];
            proof {
                lemma_extremes_push(xs(seen), x_lo as int, x_hi as int, p.x.units as int);
                lemma_extremes_push(ys(seen), y_lo as int, y_hi as int, p.y.units as int);
                assert(xs(seen.push(p)) =~= xs(seen).push(p.x.units as int));
                assert(ys(seen.push(p)) =~= ys(seen).push(p.y.units as int));
                assert(before + series@.take(j + 1) =~= seen.push(p));
                seen = seen.push(p);
            }
            if !found || p.x.units < x_lo {
                x_lo = p.x.units;
            }
            if !found || p.x.units > x_hi {
                x_hi = p.x.units;
            }
            if !found || p.y.units < y_lo {
                y_lo = p.y.units;
            }
            if !found || p.y.units > y_hi {
                y_hi = p.y.units;
            }
            found = true;
            j = j + 1;
        }
        proof {
            assert(series@.take(m as int) =~= series@);
            assert(grid.take(i + 1) =~= grid.take(i as int).push(series@));
            grid.take(i as int).lemma_flatten_push(series@);
        }
        i = i + 1;
    }
    proof {
        assert(grid.take(n as int) =~= grid);
        lemma_least_is_min(xs(seen), x_lo as int);
        lemma_greatest_is_max(xs(seen), x_hi as int);
        lemma_least_is_min(ys(seen), y_lo as int);
        lemma_greatest_is_max(ys(seen), y_hi as int);
    }
    (
        Bounds::new(Decimal::from_units(x_lo), Decimal::from_units(x_hi)),
        Bounds::new(Decimal::from_units(y_lo), Decimal::from_units(y_hi)),
    )
}

/// Whether the value of the sample `v` reads as a decimal number.
pub open spec fn sample_reads(v: QueryValue) -> bool {
    parsed(v.1@) is Ok
}

/// The point of the sample `v`: its time and the number that its value
/// writes.
pub open spec fn sample_point(v: QueryValue) -> Point {
    Point {
        x: v.0,
        y: match parsed(v.1@) {
            Ok(y) => y,
            Err(_) => Decimal { units: 0 },
        },
    }
}

/// The points of the samples `values`.
pub open spec fn series_points(values: Seq<QueryValue>) -> Seq<Point> {
    values.map_values(|v: QueryValue| sample_point(v))
}

/// The points of every series of `result`.
pub open spec fn result_points(result: Seq<QueryResult>) -> Seq<Seq<Point>> {
    result.map_values(|series: QueryResult| series_points(series.values@))
}

/// Whether the sample at place `j` of the series at place `i` is the first of
/// `result`, series by series, whose value does not read as a decimal number.
pub open spec fn first_unread(result: Seq<QueryResult>, i: int, j: int) -> bool {
    &&& 0 <= i < result.len()
    &&& 0 <= j < result[i].values@.len()
    &&& !sample_reads(result[i].values@[j])
    &&& forall|l: int| 0 <= l < j ==> sample_reads(#[trigger] result[i].values@[l])
    &&& forall|k: int, l: int|
        0 <= k < i && 0 <= l < result[k].values@.len() ==> sample_reads(
            #[trigger] result[k].values@[l],
        )
}

/// Whether every value of every series of `result` reads as a decimal number.
pub open spec fn all_read(result: Seq<QueryResult>) -> bool {
    forall|k: int, l: int|
        0 <= k < result.len() && 0 <= l < result[k].values@.len() ==> sample_reads(
            #[trigger] result[k].values@[l],
        )
}

/// The points of one series, or the error of its first value that does not
/// read.
fn get_series_points(values: &Vec<QueryValue>) -> (r: Result<Vec<Point>, DecimalError>)
    ensures
        match r {
            Ok(points) => points@ == series_points(values@) && forall|l: int|
                0 <= l < values@.len() ==> sample_reads(#[trigger] values@[l]),
            Err(e) => exists|j: int|
                0 <= j < values@.len() && parsed((#[trigger] values@[j]).1@) == Err::<
                    Decimal,
                    DecimalError,
                >(e) && forall|l: int| 0 <= l < j ==> sample_reads(#[trigger] values@[l]),
        },
{
    let n: usize = values.len();
    let mut points: Vec<Point> = Vec::new();
    let mut j: usize = 0;
    while j < n
        invariant
            j <= n,
            n == values@.len(),
            points@ == series_points(values@.take(j as int)),
            forall|l: int| 0 <= l < j ==> sample_reads(#[trigger] values@[l]),
        decreases n - j,
    {
        let x = values[j].0;
        match Decimal::parse(values[j].1.as_str()) {
            Ok(y) => {
                points.push(Point { x, y });
            },
            Err(e) => {
                return Err(e);
            },
        }
        assert(points@ =~= series_points(values@.take(j + 1)));
        j = j + 1;
    }
    assert(values@.take(n as int) =~= values@);
    Ok(points)
}

/// The points of every series of `data`: each sample's time and the number
/// that its value writes. One value that does not read as a decimal number
/// fails the whole; the error is that of the first such value.
pub fn get_points(data: &QueryData) -> (r: Result<Vec<Vec<Point>>, DecimalError>)
    ensures
        match r {
            Ok(points) => all_read(data.result@) && rows(points@) == result_points(data.result@),
            Err(e) => exists|i: int, j: int|
                first_unread(data.result@, i, j) && parsed(
                    (#[trigger] data.result@[i].values@[j]).1@,
                ) == Err::<Decimal, DecimalError>(e),
        },
{
    let n: usize = data.result.len();
    let mut points: Vec<Vec<Point>> = Vec::new();
    let mut i: usize = 0;
    while i < n
        invariant
            i <= n,
            n == data.result@.len(),
            points@.len() == i,
            rows(points@) == result_points(data.result@.take(i as int)),
            forall|k: int, l: int|
                0 <= k < i && 0 <= l < data.result@[k].values@.len() ==> sample_reads(
                    #[trigger] data.result@[k].values@[l],
                ),
        decreases n - i,
    {
        let ghost before = points@;
        match get_series_points(&data.result[i].values) {
            Ok(series) => {
                points.push(series);
                proof {
                    let left = rows(points@);
                    let right = result_points(data.result@.take(i + 1));
                    assert forall|k: int| 0 <= k < left.len() implies left[k] == right[k] by {
                        if k < i {
                            assert(left[k] == rows(before)[k]);
                            assert(right[k] == result_points(data.result@.take(i as int))[k]);
                        }
                    }
                }
            },
            Err(e) => {
                proof {
                    let values = data.result@[i as int].values@;
                    let j = choose|j: int|
                        0 <= j < values.len() && parsed((#[trigger] values[j]).1@) == Err::<
                            Decimal,
                            DecimalError,
                        >(e) && forall|l: int| 0 <= l < j ==> sample_reads(#[trigger] values[l]);
                    assert(first_unread(data.result@, i as int, j));
                }
                return Err(e);
            },
        }
        assert(rows(points@) =~= result_points(data.result@.take(i + 1)));
        i = i + 1;
    }
    assert(data.result@.take(n as int) =~= data.result@);
    Ok(points)
}

/// One label as the legend shows it: the key, `=`, and the value in double
/// quotes.
pub open spec fn entry_text(key: Seq<char>, value: Seq<char>) -> Seq<char> {
    key + seq!['=', '"'] + value + seq!['"']
}

/// The labels as the legend shows them, in their order, with a comma and a
/// space between one and the next.
pub open spec fn entries_text(labels: Pairs) -> Seq<char>
    decreases labels.len(),
{
    if labels.len() == 0 {
        Seq::empty()
    } else if labels.len() == 1 {
        entry_text(labels[0].0, labels[0].1)
    } else {
        entries_text(labels.drop_last()) + seq![',', ' '] + entry_text(
            labels.last().0,
            labels.last().1,
        )
    }
}

/// The legend of a series with the labels `labels`: the labels in braces.
pub open spec fn legend_text(labels: Pairs) -> Seq<char> {
    seq!['{'] + entries_text(labels) + seq!['}']
}

/// The legend of a series: its labels in braces, each as `key="value"`, with
/// `, ` between one and the next.
pub fn generate_legend_entry(labels: &LabelSet) -> (r: String)
    ensures
        r@ == legend_text(labels@),
{
    proof {
        reveal_strlit("{");
        reveal_strlit("}");
        reveal_strlit(", ");
        reveal_strlit("=\"");
        reveal_strlit("\"");
        assert("{"@ =~= seq!['{']);
        assert("}"@ =~= seq!['}']);
        assert(", "@ =~= seq![',', ' ']);
        assert("=\""@ =~= seq!['=', '"']);
        assert("\""@ =~= seq!['"']);
    }
    let mut out = String::new();
    out.append("{");
    let n: usize = labels.len();
    let mut i: usize = 0;
    assert(labels@.take(0) =~= Pairs::empty());
    assert(out@ =~= seq!['{'] + entries_text(labels@.take(0)));
    while i < n
        invariant
            i <= n,
            n == labels@.len(),
            out@ == seq!['{'] + entries_text(labels@.take(i as int)),
            "}"@ == seq!['}'],
            ", "@ == seq![',', ' '],
            "=\""@ == seq!['=', '"'],
            "\""@ == seq!['"'],
        decreases n - i,
    {
        let label = labels.label(i);
        let ghost before = out@;
        if i > 0 {
            out.append(", ");
        }
        out.append(label.key.as_str());
        out.append("=\"");
        out.append(label.value.as_str());
        out.append("\"");
        proof {
            let next = labels@.take(i + 1);
            assert(next.drop_last() =~= labels@.take(i as int));
            assert(next.last() == labels@[i as int]);
            if i == 0 {
                assert(entries_text(labels@.take(0)) =~= Seq::<char>::empty());
            }
            assert(out@ =~= seq!['{'] + entries_text(next));
        }
        i = i + 1;
    }
    assert(labels@.take(n as int) =~= labels@);
    out.append("}");
    out
}

/// The colours of lines and axes.
#[derive(Clone, Copy, Debug, PartialEq, Eq, Structural)]
pub enum Color {
    Red,
    Green,
    Blue,
    Yellow,
    Magenta,
    Cyan,
    LightRed,
    LightGreen,
    LightBlue,
    LightYellow,
    LightMagenta,
    LightCyan,
    Gray,
}

/// The sign drawn at a point of a line.
#[derive(Clone, Copy, Debug, PartialEq, Eq, Structural)]
pub enum Marker {
    Dot,
    Block,
    Braille,
}

/// How the points of a series are joined.
#[derive(Clone, Copy, Debug, PartialEq, Eq, Structural)]
pub enum GraphType {
    Scatter,
    Line,
}

/// The number of characters of a legend that a chart shows.
pub const LEGEND_WIDTH: usize = 50;

/// The number of colours that lines take in turn.
pub const PALETTE_LEN: usize = 12;

/// The colours that lines take in turn.
pub open spec fn palette() -> Seq<Color> {
    seq![
        Color::Red,
        Color::Green,
        Color::Blue,
        Color::Yellow,
        Color::Magenta,
        Color::Cyan,
        Color::LightRed,
        Color::LightGreen,
        Color::LightBlue,
        Color::LightYellow,
        Color::LightMagenta,
        Color::LightCyan,
    ]
}

/// The colour of the line of the series at place `place`.
pub fn palette_color(place: usize) -> (c: Color)
    ensures
        c == palette()[place as int % 12],
{
    let k: usize = place % PALETTE_LEN;
    if k == 0 {
        Color::Red
    } else if k == 1 {
        Color::Green
    } else if k == 2 {
        Color::Blue
    } else if k == 3 {
        Color::Yellow
    } else if k == 4 {
        Color::Magenta
    } else if k == 5 {
        Color::Cyan
    } else if k == 6 {
        Color::LightRed
    } else if k == 7 {
        Color::LightGreen
    } else if k == 8 {
        Color::LightBlue
    } else if k == 9 {
        Color::LightYellow
    } else if k == 10 {
        Color::LightMagenta
    } else {
        Color::LightCyan
    }
}

/// One line of a chart.
#[derive(Clone, Debug)]
pub struct Dataset {
    pub name: String,
    pub marker: Marker,
    pub graph_type: GraphType,
    pub color: Color,
    pub data: Vec<Point>,
}

/// One line of a chart, as mathematical values.
pub struct DatasetView {
    pub name: Seq<char>,
    pub marker: Marker,
    pub graph_type: GraphType,
    pub color: Color,
    pub data: Seq<Point>,
}

impl View for Dataset {
    type V = DatasetView;

    open spec fn view(&self) -> DatasetView {
        DatasetView {
            name: self.name@,
            marker: self.marker,
            graph_type: self.graph_type,
            color: self.color,
            data: self.data@,
        }
    }
}

/// The first `width` characters of `text`, or all of it where it is shorter.
pub open spec fn truncated(text: Seq<char>, width: int) -> Seq<char> {
    if text.len() <= width {
        text
    } else {
        text.take(width)
    }
}

/// The line of the series at place `place` with the labels `labels` and the
/// points `points`: a line through braille dots, in the colour of its place,
/// under the first characters of its legend.
pub open spec fn dataset_of(labels: Pairs, place: int, points: Seq<Point>) -> DatasetView {
    DatasetView {
        name: truncated(legend_text(labels), LEGEND_WIDTH as int),
        marker: Marker::Braille,
        graph_type: GraphType::Line,
        color: palette()[place % 12],
        data: points,
    }
}

/// A line's legend is never longer than the legend width, and is a start of
/// the series' whole legend.
pub proof fn lemma_legend_fits(labels: Pairs, place: int, points: Seq<Point>)
    ensures
        dataset_of(labels, place, points).name.len() <= LEGEND_WIDTH,
        dataset_of(labels, place, points).name.is_prefix_of(legend_text(labels)),
{
}

/// Lines whose places differ by the length of the palette have one colour,
/// and every line's colour is one of the palette.
pub proof fn lemma_colors_go_in_turn(labels: Pairs, place: int, points: Seq<Point>)
    requires
        0 <= place,
    ensures
        dataset_of(labels, place, points).color == dataset_of(
            labels,
            place + PALETTE_LEN as int,
            points,
        ).color,
        palette().contains(dataset_of(labels, place, points).color),
        palette().len() == PALETTE_LEN,
{
    assert(palette()[place % 12] == dataset_of(labels, place, points).color);
}

/// Two lines fewer than the length of the palette apart have different
/// colours.
pub proof fn lemma_near_lines_differ_in_color(
    labels: Pairs,
    points: Seq<Point>,
    place: int,
    other: int,
)
    requires
        0 <= place < other < place + PALETTE_LEN,
    ensures
        dataset_of(labels, place, points).color != dataset_of(labels, other, points).color,
{
    let a = place % 12;
    let b = other % 12;
    assert(a != b);
    assert(palette()[a] != palette()[b]);
}

/// The first `width` characters of `text`.
fn first_chars(text: &str, width: usize) -> (r: String)
    ensures
        r@ == truncated(text@, width as int),
{
    let n: usize = text.unicode_len();
    if n <= width {
        return text.to_owned();
    }
    let part = text.substring_char(0, width);
    assert(text@.subrange(0, width as int) =~= text@.take(width as int));
    part.to_owned()
}

/// A copy of `points`.
fn copy_points(points: &Vec<Point>) -> (r: Vec<Point>)
    ensures
        r@ == points@,
{
    let n: usize = points.len();
    let mut r: Vec<Point> = Vec::new();
    let mut i: usize = 0;
    while i < n
        invariant
            i <= n,
            n == points@.len(),
            r@ == points@.take(i as int),
        decreases n - i,
    {
        r.push(points[i]);
        assert(r@ =~= points@.take(i + 1));
        i = i + 1;
    }
    assert(points@.take(n as int) =~= points@);
    r
}

/// The lines of a chart: for each series of `points`, in order, a line with
/// the legend of the series at the same place in `data`. `data` must have a
/// series for each one of `points`.
pub fn get_datasets(data: &QueryData, points: &[Vec<Point>]) -> (r: Vec<Dataset>)
    requires
        points@.len() <= data.result@.len(),
    ensures
        r@.len() == points@.len(),
        forall|i: int|
            0 <= i < r@.len() ==> (#[trigger] r@[i])@ == dataset_of(
                data.result@[i].metric@,
                i,
                points@[i]@,
            ),
{
    let n: usize = points.len();
    let mut datasets: Vec<Dataset> = Vec::new();
    let mut i: usize = 0;
    while i < n
        invariant
            i <= n,
            n == points@.len(),
            n <= data.result@.len(),
            datasets@.len() == i,
            forall|k: int|
                0 <= k < i ==> (#[trigger] datasets@[k])@ == dataset_of(
                    data.result@[k].metric@,
                    k,
                    points@[k]@,
                ),
        decreases n - i,
    {
        let legend = generate_legend_entry(&data.result[i].metric);
        let dataset = Dataset {
            name: first_chars(legend.as_str(), LEGEND_WIDTH),
            marker: Marker::Braille,
            graph_type: GraphType::Line,
            color: palette_color(i),
            data: copy_points(&points[i]),
        };
        datasets.push(dataset);
        i = i + 1;
    }
    datasets
}

/// One axis of a chart.
#[derive(Clone, Debug)]
pub struct Axis {
    pub title: String,
    pub color: Color,
    pub min: Decimal,
    pub max: Decimal,
    pub labels: Vec<String>,
}

/// One axis of a chart, as mathematical values.
pub struct AxisView {
    pub title: Seq<char>,
    pub color: Color,
    pub min: Decimal,
    pub max: Decimal,
    pub labels: Seq<Seq<char>>,
}

impl View for Axis {
    type V = AxisView;

    open spec fn view(&self) -> AxisView {
        AxisView {
            title: self.title@,
            color: self.color,
            min: self.min,
            max: self.max,
            labels: self.labels@.map_values(|label: String| label@),
        }
    }
}

/// A chart, ready to be drawn: a frame with a title, two axes and the lines.
#[derive(Clone, Debug)]
pub struct Chart {
    pub title: String,
    pub bordered: bool,
    pub x_axis: Axis,
    pub y_axis: Axis,
    pub datasets: Vec<Dataset>,
}

/// A chart, as mathematical values.
pub struct ChartView {
    pub title: Seq<char>,
    pub bordered: bool,
    pub x_axis: AxisView,
    pub y_axis: AxisView,
    pub datasets: Seq<DatasetView>,
}

impl View for Chart {
    type V = ChartView;

    open spec fn view(&self) -> ChartView {
        ChartView {
            title: self.title@,
            bordered: self.bordered,
            x_axis: self.x_axis@,
            y_axis: self.y_axis@,
            datasets: self.datasets@.map_values(|dataset: Dataset| dataset@),
        }
    }
}

/// The labels of the time axis with the bounds `bounds`: the clock times of
/// its start, middle and end. There are none where one of the three lies
/// outside the calendar.
pub open spec fn time_labels(bounds: Bounds) -> Option<Seq<Seq<char>>> {
    match (
        time_string_of(bounds.min),
        time_string_of(bounds.inbetween),
        time_string_of(bounds.max),
    ) {
        (Some(start), Some(middle), Some(end)) => Some(seq![start, middle, end]),
        _ => None,
    }
}

/// The labels of the value axis with the bounds `bounds`: its start, middle
/// and end with two decimal places.
pub open spec fn value_labels(bounds: Bounds) -> Seq<Seq<char>> {
    seq![
        text_2dp(bounds.min.units as int),
        text_2dp(bounds.inbetween.units as int),
        text_2dp(bounds.max.units as int),
    ]
}

/// The chart of the lines `datasets` between the bounds `x_bounds` of time
/// and `y_bounds` of value, where the time axis has labels.
pub open spec fn chart_of(datasets: Seq<DatasetView>, x_bounds: Bounds, y_bounds: Bounds) -> Option<
    ChartView,
> {
    match time_labels(x_bounds) {
        Some(labels) => Some(
            ChartView {
                title: "Graphingoooo"@,
                bordered: true,
                x_axis: AxisView {
                    title: "X Axis"@,
                    color: Color::Gray,
                    min: x_bounds.min,
                    max: x_bounds.max,
                    labels,
                },
                y_axis: AxisView {
                    title: "Y Axis"@,
                    color: Color::Gray,
                    min: y_bounds.min,
                    max: y_bounds.max,
                    labels: value_labels(y_bounds),
                },
                datasets,
            },
        ),
        None => None,
    }
}

/// Puts a chart together: a bordered frame with a title, a time axis with the
/// clock times of its start, middle and end, a value axis with the same three
/// to two decimal places, and the lines. There is no chart where a bound of
/// the time axis lies outside the calendar.
pub fn compose(datasets: Vec<Dataset>, x_bounds: Bounds, y_bounds: Bounds) -> (r: Option<Chart>)
    ensures
        match r {
            Some(chart) => chart_of(
                datasets@.map_values(|dataset: Dataset| dataset@),
                x_bounds,
                y_bounds,
            ) == Some(chart@),
            None => chart_of(
                datasets@.map_values(|dataset: Dataset| dataset@),
                x_bounds,
                y_bounds,
            ) is None,
        },
{
    let start = match timestamp_to_time_string(x_bounds.min) {
        Some(t) => t,
        None => {
            return None;
        },
    };
    let middle = match timestamp_to_time_string(x_bounds.inbetween) {
        Some(t) => t,
        None => {
            return None;
        },
    };
    let end = match timestamp_to_time_string(x_bounds.max) {
        Some(t) => t,
        None => {
            return None;
        },
    };
    let mut x_labels: Vec<String> = Vec::new();
    x_labels.push(start);
    x_labels.push(middle);
    x_labels.push(end);
    let mut y_labels: Vec<String> = Vec::new();
    y_labels.push(y_bounds.min.format_2dp());
    y_labels.push(y_bounds.inbetween.format_2dp());
    y_labels.push(y_bounds.max.format_2dp());
    let chart = Chart {
        title: "Graphingoooo".to_owned(),
        bordered: true,
        x_axis: Axis {
            title: "X Axis".to_owned(),
            color: Color::Gray,
            min: x_bounds.min,
                    max: x_bounds.max,
            labels: x_labels,
        },
        y_axis: Axis {
            title: "Y Axis".to_owned(),
            color: Color::Gray,
            min: y_bounds.min,
                    max: y_bounds.max,
            labels: y_labels,
        },
        datasets,
    };
    proof {
        assert(chart.x_axis@.labels =~= time_labels(x_bounds)->0);
        assert(chart.y_axis@.labels =~= value_labels(y_bounds));
    }
    Some(chart)
}

/// Two charts put together from the same lines and bounds are the same
/// chart.
pub proof fn lemma_same_inputs_same_chart(
    first: Chart,
    second: Chart,
    datasets: Seq<DatasetView>,
    x_bounds: Bounds,
    y_bounds: Bounds,
)
    requires
        chart_of(datasets, x_bounds, y_bounds) == Some(first@),
        chart_of(datasets, x_bounds, y_bounds) == Some(second@),
    ensures
        first@ == second@,
{
}

/// Why there is no chart of an answer.
#[derive(Clone, Copy, Debug, PartialEq, Eq, Structural)]
pub enum ChartError {
    /// A value of a sample does not read as a decimal number.
    Sample(DecimalError),
    /// No series has a sample.
    EmptyData,
    /// A bound of the time axis lies outside the calendar.
    TimeOutOfRange,
}

/// The lines of the chart of `result`.
pub open spec fn datasets_of(result: Seq<QueryResult>) -> Seq<DatasetView> {
    Seq::new(
        result.len(),
        |i: int| dataset_of(result[i].metric@, i, series_points(result[i].values@)),
    )
}

/// The chart of the series `result`, where every value reads, there is a
/// sample and the time axis has labels.
pub open spec fn chart_for(result: Seq<QueryResult>) -> Option<ChartView> {
    let points = all_points(result_points(result));
    chart_of(datasets_of(result), axis_bounds(xs(points)), axis_bounds(ys(points)))
}

/// The chart of the answer `data`: the points of its series, the bounds of
/// the two axes around them, one line for each series, and the frame and axes
/// that hold them.
pub fn ui(data: &QueryData) -> (r: Result<Chart, ChartError>)
    ensures
        match r {
            Ok(chart) => {
                &&& all_read(data.result@)
                &&& all_points(result_points(data.result@)).len() > 0
                &&& chart_for(data.result@) == Some(chart@)
            },
            Err(ChartError::Sample(e)) => exists|i: int, j: int|
                first_unread(data.result@, i, j) && parsed(
                    (#[trigger] data.result@[i].values@[j]).1@,
                ) == Err::<Decimal, DecimalError>(e),
            Err(ChartError::EmptyData) => {
                &&& all_read(data.result@)
                &&& all_points(result_points(data.result@)).len() == 0
            },
            Err(ChartError::TimeOutOfRange) => {
                &&& all_read(data.result@)
                &&& all_points(result_points(data.result@)).len() > 0
                &&& chart_for(data.result@) is None
            },
        },
{
    let points = match get_points(data) {
        Ok(points) => points,
        Err(e) => {
            return Err(ChartError::Sample(e));
        },
    };
    if !has_point(&points) {
        return Err(ChartError::EmptyData);
    }
    let (x_bounds, y_bounds) = get_bounds(points.as_slice());
    let datasets = get_datasets(data, points.as_slice());
    proof {
        assert(datasets@.map_values(|dataset: Dataset| dataset@) =~= datasets_of(data.result@)) by {
            assert forall|i: int| 0 <= i < datasets@.len() implies datasets@[i]@ == datasets_of(
                data.result@,
            )[i] by {
                assert(rows(points@)[i] == result_points(data.result@)[i]);
            }
        }
    }
    match compose(datasets, x_bounds, y_bounds) {
        Some(chart) => Ok(chart),
        None => Err(ChartError::TimeOutOfRange),
    }
}

/// Whether some series of `data` has a point.
fn has_point(data: &Vec<Vec<Point>>) -> (r: bool)
    ensures
        r == (all_points(rows(data@)).len() > 0),
{
    let n: usize = data.len();
    let ghost grid = rows(data@);
    let mut i: usize = 0;
    assert(grid.take(0) =~= Seq::<Seq<Point>>::empty());
    while i < n
        invariant
            i <= n,
            n == data@.len(),
            grid == rows(data@),
            grid.take(i as int).flatten().len() == 0,
        decreases n - i,
    {
        proof {
            assert(grid.take(i + 1) =~= grid.take(i as int).push(data@[i as int]@));
            grid.take(i as int).lemma_flatten_push(data@[i as int]@);
        }
        if data[i].len() > 0 {
            proof {
                lemma_flatten_grows(grid, i + 1);
            }
            return true;
        }
        i = i + 1;
    }
    assert(grid.take(n as int) =~= grid);
    false
}

/// The points of the first `k` series are among the points of all.
proof fn lemma_flatten_grows(grid: Seq<Seq<Point>>, k: int)
    requires
        0 <= k <= grid.len(),
    ensures
        grid.take(k).flatten().len() <= grid.flatten().len(),
    decreases grid.len() - k,
{
    if k < grid.len() {
        assert(grid.take(k + 1) =~= grid.take(k).push(grid[k]));
        grid.take(k).lemma_flatten_push(grid[k]);
        lemma_flatten_grows(grid, k + 1);
    } else {
        assert(grid.take(k) =~= grid);
    }
}

} // verus!
