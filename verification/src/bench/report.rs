//! The results file.

use vstd::prelude::*;
use vstd::string::{StrSliceExecFns, StringExecFns};

use crate::bench::args::BenchConfig;
use crate::bench::text::{append_number, decimal};

verus! {

/// One measured quantity, its numbers already written out. There are as many
/// samples as `raw` lists.
pub struct Metric {
    pub name: String,
    pub mean: String,
    pub p50: String,
    pub p95: String,
    pub p99: String,
    pub min: String,
    pub max: String,
    pub raw: Vec<String>,
}

/// The contents of named series.
pub open spec fn series_view(series: Seq<(String, Vec<u64>)>) -> Seq<(Seq<char>, Seq<u64>)> {
    series.map_values(|one: (String, Vec<u64>)| (one.0@, one.1@))
}

/// The series that have samples, in their order.
pub open spec fn measured(series: Seq<(Seq<char>, Seq<u64>)>) -> Seq<(Seq<char>, Seq<u64>)>
    decreases series.len(),
{
    if series.len() == 0 {
        Seq::empty()
    } else if series.last().1.len() > 0 {
        measured(series.drop_last()).push(series.last())
    } else {
        measured(series.drop_last())
    }
}

/// What is reported: the frame times first, behind them the render series as
/// they are given, and none of them without samples.
pub open spec fn reported(cpu: Seq<u64>, render: Seq<(String, Vec<u64>)>) -> Seq<
    (Seq<char>, Seq<u64>),
> {
    measured(seq![("cpu_frame_ms"@, cpu)] + series_view(render))
}

fn copied(values: &Vec<u64>) -> (copy: Vec<u64>)
    ensures
        copy@ == values@,
{
    let copy: Vec<u64> = values.clone();
    assert(copy@ =~= values@);
    copy
}

/// Chooses and orders the series of a report.
pub fn report_series(cpu: &Vec<u64>, render: &Vec<(String, Vec<u64>)>) -> (series: Vec<
    (String, Vec<u64>),
>)
    ensures
        series_view(series@) == reported(cpu@, render@),
{
    let ghost all = seq![("cpu_frame_ms"@, cpu@)] + series_view(render@);
    let mut series: Vec<(String, Vec<u64>)> = Vec::new();
    assert(measured(all.take(0)) =~= Seq::empty());
    assert(all.take(1).drop_last() =~= all.take(0));
    assert(all.take(1).last() == ("cpu_frame_ms"@, cpu@));
    if cpu.len() > 0 {
        series.push(("cpu_frame_ms".to_owned(), copied(cpu)));
    }
    assert(series_view(series@) =~= measured(all.take(1)));
    let mut i: usize = 0;
    while i < render.len()
        invariant
            all == seq![("cpu_frame_ms"@, cpu@)] + series_view(render@),
            i <= render@.len(),
            series_view(series@) == measured(all.take(i + 1)),
        decreases render@.len() - i,
    {
        let ghost before = series@;
        proof {
            assert(all.take(i + 2).drop_last() =~= all.take(i + 1));
            assert(all.take(i + 2).last() == (render@[i as int].0@, render@[i as int].1@));
        }
        if render[i].1.len() > 0 {
            series.push((render[i].0.clone(), copied(&render[i].1)));
            assert(series_view(series@) =~= series_view(before).push(series_view(series@).last()));
        }
        i = i + 1;
    }
    assert(all.take(all.len() as int) =~= all);
    series
}

/// Double quotes become single ones.
pub open spec fn unquoted(text: Seq<char>) -> Seq<char> {
    text.map_values(
        |c: char|
            if c == '"' {
                '\''
            } else {
                c
            },
    )
}

/// Texts with commas between them.
pub open spec fn joined(texts: Seq<String>) -> Seq<char>
    decreases texts.len(),
{
    if texts.len() == 0 {
        Seq::empty()
    } else if texts.len() == 1 {
        texts[0]@
    } else {
        joined(texts.drop_last()) + ","@ + texts.last()@
    }
}

/// A line that gives a text.
pub open spec fn text_line(key: Seq<char>, value: Seq<char>) -> Seq<char> {
    "  \""@ + key + "\": \""@ + value + "\",\n"@
}

/// A line that gives a number.
pub open spec fn number_line(key: Seq<char>, value: u32) -> Seq<char> {
    "  \""@ + key + "\": "@ + decimal(value as nat) + ",\n"@
}

pub open spec fn head_json(config: BenchConfig, adapter: Seq<char>) -> Seq<char> {
    "{\n"@ + text_line("label"@, config.label@) + text_line(
        "backend"@,
        config.backend.spec_name(),
    ) + number_line("elements"@, config.elements) + number_line("warmup"@, config.warmup)
        + number_line("frames"@, config.frames) + text_line("adapter"@, unquoted(adapter))
        + "  \"metrics\": {\n"@
}

/// One of the numbers of a metric.
pub open spec fn field(key: Seq<char>, value: Seq<char>) -> Seq<char> {
    ", \""@ + key + "\": "@ + value
}

/// A metric with its statistics and all its samples, as many as it says.
pub open spec fn metric_json(metric: Metric) -> Seq<char> {
    "    \""@ + metric.name@ + "\": {\n      \"count\": "@ + decimal(metric.raw@.len()) + field(
        "mean"@,
        metric.mean@,
    ) + field("p50"@, metric.p50@) + field("p95"@, metric.p95@) + field("p99"@, metric.p99@)
        + field("min"@, metric.min@) + field("max"@, metric.max@) + ",\n      \"raw\": ["@
        + joined(metric.raw@) + "]\n    }"@
}

/// The metrics, a comma and a line break between them.
pub open spec fn metrics_json(metrics: Seq<Metric>) -> Seq<char>
    decreases metrics.len(),
{
    if metrics.len() == 0 {
        Seq::empty()
    } else if metrics.len() == 1 {
        metric_json(metrics[0])
    } else {
        metrics_json(metrics.drop_last()) + ",\n"@ + metric_json(metrics.last())
    }
}

pub open spec fn report_json(config: BenchConfig, adapter: Seq<char>, metrics: Seq<Metric>) -> Seq<
    char,
> {
    head_json(config, adapter) + metrics_json(metrics) + "\n  }\n}\n"@
}

fn without_quotes(from: &str) -> (text: String)
    ensures
        text@ == unquoted(from@),
{
    let mut text: String = String::new();
    let ghost start = text@;
    let n: usize = from.unicode_len();
    let mut i: usize = 0;
    assert(text@ =~= start + unquoted(from@).take(0));
    while i < n
        invariant
            n == from@.len(),
            i <= n,
            text@ == start + unquoted(from@).take(i as int),
        decreases n - i,
    {
        let c: char = from.get_char(i);
        if c == '"' {
            text.push('\'');
        } else {
            text.push(c);
        }
        assert(text@ =~= start + unquoted(from@).take(i + 1));
        i = i + 1;
    }
    assert(text@ =~= unquoted(from@));
    text
}

fn append_joined(text: &mut String, texts: &Vec<String>)
    ensures
        final(text)@ == old(text)@ + joined(texts@),
{
    let ghost start = text@;
    let mut i: usize = 0;
    assert(text@ =~= start + joined(texts@.take(0)));
    while i < texts.len()
        invariant
            i <= texts@.len(),
            text@ == start + joined(texts@.take(i as int)),
        decreases texts@.len() - i,
    {
        assert(texts@.take(i + 1).drop_last() =~= texts@.take(i as int));
        if i > 0 {
            text.append(",");
        }
        text.append(texts[i].as_str());
        assert(text@ =~= start + joined(texts@.take(i + 1)));
        i = i + 1;
    }
    assert(texts@.take(texts@.len() as int) =~= texts@);
}

fn append_text_line(text: &mut String, key: &str, value: &str)
    ensures
        final(text)@ == old(text)@ + text_line(key@, value@),
{
    text.append("  \"");
    text.append(key);
    text.append("\": \"");
    text.append(value);
    text.append("\",\n");
    assert(text@ =~= old(text)@ + text_line(key@, value@));
}

fn append_number_line(text: &mut String, key: &str, value: u32)
    ensures
        final(text)@ == old(text)@ + number_line(key@, value),
{
    text.append("  \"");
    text.append(key);
    text.append("\": ");
    append_number(text, value as u64);
    text.append(",\n");
    assert(text@ =~= old(text)@ + number_line(key@, value));
}

fn append_field(text: &mut String, key: &str, value: &str)
    ensures
        final(text)@ == old(text)@ + field(key@, value@),
{
    text.append(", \"");
    text.append(key);
    text.append("\": ");
    text.append(value);
    assert(text@ =~= old(text)@ + field(key@, value@));
}

fn append_metric(text: &mut String, metric: &Metric)
    ensures
        final(text)@ == old(text)@ + metric_json(*metric),
{
    let mut body: String = String::new();
    body.append("    \"");
    assert(body@ =~= "    \""@);
    body.append(metric.name.as_str());
    body.append("\": {\n      \"count\": ");
    append_number(&mut body, metric.raw.len() as u64);
    append_field(&mut body, "mean", metric.mean.as_str());
    append_field(&mut body, "p50", metric.p50.as_str());
    append_field(&mut body, "p95", metric.p95.as_str());
    append_field(&mut body, "p99", metric.p99.as_str());
    append_field(&mut body, "min", metric.min.as_str());
    append_field(&mut body, "max", metric.max.as_str());
    body.append(",\n      \"raw\": [");
    append_joined(&mut body, &metric.raw);
    body.append("]\n    }");
    text.append(body.as_str());
}

fn append_head(text: &mut String, config: &BenchConfig, adapter: &str)
    ensures
        final(text)@ == old(text)@ + head_json(*config, adapter@),
{
    let mut head: String = String::new();
    head.append("{\n");
    assert(head@ =~= "{\n"@);
    append_text_line(&mut head, "label", config.label.as_str());
    append_text_line(&mut head, "backend", config.backend.name());
    append_number_line(&mut head, "elements", config.elements);
    append_number_line(&mut head, "warmup", config.warmup);
    append_number_line(&mut head, "frames", config.frames);
    let quiet: String = without_quotes(adapter);
    append_text_line(&mut head, "adapter", quiet.as_str());
    head.append("  \"metrics\": {\n");
    text.append(head.as_str());
}

/// Writes the results of a run as JSON.
pub fn write_report(config: &BenchConfig, adapter: &str, metrics: &Vec<Metric>) -> (json: String)
    ensures
        json@ == report_json(*config, adapter@, metrics@),
{
    let mut json: String = String::new();
    append_head(&mut json, config, adapter);
    let ghost head = json@;
    let mut i: usize = 0;
    assert(json@ =~= head + metrics_json(metrics@.take(0)));
    while i < metrics.len()
        invariant
            i <= metrics@.len(),
            json@ == head + metrics_json(metrics@.take(i as int)),
        decreases metrics@.len() - i,
    {
        assert(metrics@.take(i + 1).drop_last() =~= metrics@.take(i as int));
        if i > 0 {
            json.append(",\n");
        }
        append_metric(&mut json, &metrics[i]);
        assert(json@ =~= head + metrics_json(metrics@.take(i + 1)));
        i = i + 1;
    }
    assert(metrics@.take(metrics@.len() as int) =~= metrics@);
    json.append("\n  }\n}\n");
    assert(json@ =~= report_json(*config, adapter@, metrics@));
    json
}


/// The places, in the given series, of those that are reported: in their order,
/// and of every one that has samples.
pub open spec fn picks_measured(
    series: Seq<(Seq<char>, Seq<u64>)>,
    shown: Seq<(Seq<char>, Seq<u64>)>,
    from: Seq<int>,
) -> bool {
    &&& from.len() == shown.len()
    &&& forall|k: int|
        0 <= k < from.len() ==> 0 <= (#[trigger] from[k]) < series.len() && shown[k]
            == series[from[k]] && shown[k].1.len() > 0
    &&& forall|k: int, m: int| 0 <= k < m < from.len() ==> (#[trigger] from[k]) < (
        #[trigger] from[m])
    &&& forall|i: int|
        0 <= i < series.len() && (#[trigger] series[i]).1.len() > 0 ==> from.contains(i)
}

proof fn lemma_measured_are_picked(series: Seq<(Seq<char>, Seq<u64>)>) -> (from: Seq<int>)
    ensures
        picks_measured(series, measured(series), from),
    decreases series.len(),
{
    if series.len() == 0 {
        Seq::empty()
    } else {
        let rest = series.drop_last();
        let n = rest.len() as int;
        let earlier = lemma_measured_are_picked(rest);
        let from = if series.last().1.len() > 0 {
            earlier.push(n)
        } else {
            earlier
        };
        assert forall|i: int|
            0 <= i < series.len() && (#[trigger] series[i]).1.len() > 0 implies from.contains(i) by {
            if i < n {
                assert(rest[i] == series[i]);
                let k = choose|k: int| 0 <= k < earlier.len() && earlier[k] == i;
                assert(from[k] == i);
            } else {
                assert(from[from.len() - 1] == i);
            }
        }
        from
    }
}

/// A report shows the frame times first and behind them the render series, in
/// their order: all that have samples, and no others, each under its own name.
pub proof fn lemma_reports_show_what_was_measured(
    cpu: Seq<u64>,
    render: Seq<(String, Vec<u64>)>,
    given: Seq<(Seq<char>, Seq<u64>)>,
)
    requires
        given.len() == render.len() + 1,
        given[0] == ("cpu_frame_ms"@, cpu),
        forall|i: int|
            0 <= i < render.len() ==> (#[trigger] given[i + 1]) == (render[i].0@, render[i].1@),
    ensures
        exists|from: Seq<int>| #[trigger] picks_measured(given, reported(cpu, render), from),
{
    let all = seq![("cpu_frame_ms"@, cpu)] + series_view(render);
    assert forall|i: int| 0 <= i < all.len() implies all[i] == given[i] by {
        if i > 0 {
            assert(given[(i - 1) + 1] == (render[i - 1].0@, render[i - 1].1@));
        }
    }
    assert(all =~= given);
    let from = lemma_measured_are_picked(given);
    assert(reported(cpu, render) == measured(given));
    assert(picks_measured(given, reported(cpu, render), from));
}

/// A text within quotes has none of its own: they become single ones, and every
/// other character stays.
pub proof fn lemma_quotes_do_not_end_a_text(text: Seq<char>)
    ensures
        unquoted(text).len() == text.len(),
        forall|i: int| 0 <= i < text.len() ==> (#[trigger] unquoted(text)[i]) != '"',
        forall|i: int|
            0 <= i < text.len() ==> if text[i] == '"' {
                (#[trigger] unquoted(text)[i]) == '\''
            } else {
                unquoted(text)[i] == text[i]
            },
{
}

/// Samples are listed in order, with a comma between each two.
pub proof fn lemma_samples_are_listed_in_order(texts: Seq<String>, last: String)
    ensures
        joined(Seq::empty()) == Seq::<char>::empty(),
        texts.len() == 0 ==> joined(texts.push(last)) == last@,
        texts.len() > 0 ==> joined(texts.push(last)) == joined(texts) + ","@ + last@,
{
    assert(texts.push(last).drop_last() =~= texts);
}

/// A metric's entry gives, under its name, as many samples as it lists, its six
/// statistics each under its own key, and the samples.
pub proof fn lemma_metrics_give_their_statistics(metric: Metric)
    ensures
        metric_json(metric) == "    \""@ + metric.name@ + "\": {\n      \"count\": "@ + decimal(
            metric.raw@.len(),
        ) + (", \""@ + "mean"@ + "\": "@ + metric.mean@) + (", \""@ + "p50"@ + "\": "@
            + metric.p50@) + (", \""@ + "p95"@ + "\": "@ + metric.p95@) + (", \""@ + "p99"@
            + "\": "@ + metric.p99@) + (", \""@ + "min"@ + "\": "@ + metric.min@) + (", \""@
            + "max"@ + "\": "@ + metric.max@) + ",\n      \"raw\": ["@ + joined(metric.raw@)
            + "]\n    }"@,
{
}

/// One metric more stands behind the others, with a comma and a line break
/// before it, and the rest of the report stays as it is.
pub proof fn lemma_reports_list_their_metrics(
    config: BenchConfig,
    adapter: Seq<char>,
    metrics: Seq<Metric>,
    last: Metric,
)
    ensures
        report_json(config, adapter, Seq::empty()) == head_json(config, adapter)
            + "\n  }\n}\n"@,
        exists|body: Seq<char>|
            {
                &&& report_json(config, adapter, metrics) == head_json(config, adapter) + body
                    + "\n  }\n}\n"@
                &&& report_json(config, adapter, metrics.push(last)) == #[trigger] (head_json(
                    config,
                    adapter,
                ) + body) + (if metrics.len() > 0 {
                    ",\n"@
                } else {
                    Seq::empty()
                }) + metric_json(last) + "\n  }\n}\n"@
            },
{
    let head = head_json(config, adapter);
    let end = "\n  }\n}\n"@;
    assert(report_json(config, adapter, Seq::empty()) =~= head + end);
    let body = metrics_json(metrics);
    assert(metrics.push(last).drop_last() =~= metrics);
    let between = if metrics.len() > 0 {
        ",\n"@
    } else {
        Seq::empty()
    };
    assert(report_json(config, adapter, metrics.push(last)) =~= (head + body) + between
        + metric_json(last) + end);
}

/// A report begins with the run: its label, backend, elements, warm-up, frames
/// and adapter, each under its own key.
pub proof fn lemma_reports_begin_with_the_run(config: BenchConfig, adapter: Seq<char>)
    ensures
        head_json(config, adapter) == "{\n"@ + ("  \""@ + "label"@ + "\": \""@ + config.label@
            + "\",\n"@) + ("  \""@ + "backend"@ + "\": \""@ + config.backend.spec_name()
            + "\",\n"@) + ("  \""@ + "elements"@ + "\": "@ + decimal(config.elements as nat)
            + ",\n"@) + ("  \""@ + "warmup"@ + "\": "@ + decimal(config.warmup as nat) + ",\n"@)
            + ("  \""@ + "frames"@ + "\": "@ + decimal(config.frames as nat) + ",\n"@) + (
        "  \""@ + "adapter"@ + "\": \""@ + unquoted(adapter) + "\",\n"@) + "  \"metrics\": {\n"@,
{
}

} // verus!
