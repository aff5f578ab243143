//! The StatsD line grammar and its parser.
//!
//! A message is one or more lines separated by `'\n'`, each of the shape
//! `name:value|type`, with type one of `c` (counter), `g` (gauge) and `ms`
//! (timer), and an optional `|@rate` sample rate after a counter. A name is
//! a run (possibly empty) of ASCII letters, digits, `.` and `_`; a value is
//! a decimal numeral with an optional leading `-` and an optional fraction.
//!
//! The grammar is stated below as spec functions over the input's
//! characters; the executable parser is proved to return exactly what the
//! grammar derives. Parsing stops, without error, at the first character
//! that no further line can be read from: a message whose first line is
//! well-formed parses even when trailing input is left over.

use vstd::prelude::*;

use crate::metric::{
    collected_view, events_view, CollectedMetric, CollectedMetricView, IdView, MetricKind,
};

verus! {

/// Characters a metric name is made of: ASCII letters and digits, `.`, `_`.
pub open spec fn is_name_char(c: char) -> bool {
    ('a' <= c && c <= 'z') || ('A' <= c && c <= 'Z') || ('0' <= c && c <= '9') || c == '.' || c
        == '_'
}

/// ASCII decimal digits.
pub open spec fn is_digit_char(c: char) -> bool {
    '0' <= c && c <= '9'
}

/// The end of the run of name characters starting at `i`.
pub open spec fn scan_name(s: Seq<char>, i: int) -> int
    decreases s.len() - i,
{
    if 0 <= i < s.len() && is_name_char(s[i]) {
        scan_name(s, i + 1)
    } else {
        i
    }
}

/// The end of the run of digits starting at `i`.
pub open spec fn scan_digits(s: Seq<char>, i: int) -> int
    decreases s.len() - i,
{
    if 0 <= i < s.len() && is_digit_char(s[i]) {
        scan_digits(s, i + 1)
    } else {
        i
    }
}

/// A decimal numeral: sign, integer digits, fraction digits. The numeral
/// `2.5` has integer part `2` and fraction part `5`; `.24` has an empty
/// integer part; `23` an empty fraction part.
#[derive(Debug, PartialEq)]
pub struct Number {
    pub negative: bool,
    pub int_part: String,
    pub frac_part: String,
}

/// Mathematical view of a numeral.
#[verifier::ext_equal]
pub struct NumberView {
    pub negative: bool,
    pub int_part: Seq<char>,
    pub frac_part: Seq<char>,
}

pub open spec fn number_view(n: Number) -> NumberView {
    NumberView { negative: n.negative, int_part: n.int_part@, frac_part: n.frac_part@ }
}

/// A numeral is well formed when both digit parts hold digits alone. Every
/// numeral the parser returns is well formed.
pub open spec fn number_wf(n: NumberView) -> bool {
    &&& forall|i: int| 0 <= i < n.int_part.len() ==> is_digit_char(#[trigger] n.int_part[i])
    &&& forall|i: int| 0 <= i < n.frac_part.len() ==> is_digit_char(#[trigger] n.frac_part[i])
}

/// The numeral (if any) starting at `i`, and the position after it:
/// an optional `-`, then either `digits [. digits]` or `. digits`.
pub open spec fn parse_number(s: Seq<char>, i: int) -> Option<(NumberView, int)> {
    let neg = i < s.len() && s[i] == '-';
    let j = if neg {
        i + 1
    } else {
        i
    };
    let d1 = scan_digits(s, j);
    if d1 > j {
        if d1 < s.len() && s[d1] == '.' {
            let d2 = scan_digits(s, d1 + 1);
            Some(
                (
                    NumberView {
                        negative: neg,
                        int_part: s.subrange(j, d1),
                        frac_part: s.subrange(d1 + 1, d2),
                    },
                    d2,
                ),
            )
        } else {
            Some(
                (
                    NumberView {
                        negative: neg,
                        int_part: s.subrange(j, d1),
                        frac_part: Seq::empty(),
                    },
                    d1,
                ),
            )
        }
    } else {
        if j < s.len() && s[j] == '.' && scan_digits(s, j + 1) > j + 1 {
            let d2 = scan_digits(s, j + 1);
            Some(
                (
                    NumberView {
                        negative: neg,
                        int_part: Seq::empty(),
                        frac_part: s.subrange(j + 1, d2),
                    },
                    d2,
                ),
            )
        } else {
            None
        }
    }
}

/// The sample rate (if any) starting at `i`: `|@` then a numeral. A parsed
/// sample rate is consumed and then discarded: no metric records one.
pub open spec fn parse_sample_rate(s: Seq<char>, i: int) -> Option<(NumberView, int)> {
    if i + 2 <= s.len() && s[i] == '|' && s[i + 1] == '@' {
        parse_number(s, i + 2)
    } else {
        None
    }
}

/// One parsed metric of the wire protocol.
#[derive(Debug, PartialEq)]
pub enum StatsdMetric {
    /// Name, value, sample rate
    Counter(String, Number, Option<Number>),
    /// Name, value
    Gauge(String, Number),
    /// Name, value, sample rate
    Timer(String, Number, Option<Number>),
}

/// The kind of a parsed metric.
pub enum StatsdKind {
    Counter,
    Gauge,
    Timer,
}

/// Mathematical view of a parsed metric.
#[verifier::ext_equal]
pub struct StatsdMetricView {
    pub kind: StatsdKind,
    pub name: Seq<char>,
    pub value: NumberView,
    pub sample_rate: Option<NumberView>,
}

pub open spec fn statsd_view(m: StatsdMetric) -> StatsdMetricView {
    match m {
        StatsdMetric::Counter(name, value, rate) => StatsdMetricView {
            kind: StatsdKind::Counter,
            name: name@,
            value: number_view(value),
            sample_rate: match rate {
                Some(r) => Some(number_view(r)),
                None => None,
            },
        },
        StatsdMetric::Gauge(name, value) => StatsdMetricView {
            kind: StatsdKind::Gauge,
            name: name@,
            value: number_view(value),
            sample_rate: None,
        },
        StatsdMetric::Timer(name, value, rate) => StatsdMetricView {
            kind: StatsdKind::Timer,
            name: name@,
            value: number_view(value),
            sample_rate: match rate {
                Some(r) => Some(number_view(r)),
                None => None,
            },
        },
    }
}

pub open spec fn statsd_views(ms: Seq<StatsdMetric>) -> Seq<StatsdMetricView> {
    ms.map_values(|m: StatsdMetric| statsd_view(m))
}

/// The metric (if any) starting at `i`, and the position after it: a name,
/// `:`, a numeral, then `|c` (counter, optionally followed by a sample
/// rate, which is discarded), `|g` (gauge) or `|ms` (timer).
pub open spec fn parse_metric(s: Seq<char>, i: int) -> Option<(StatsdMetricView, int)> {
    let n_end = scan_name(s, i);
    if n_end < s.len() && s[n_end] == ':' {
        match parse_number(s, n_end + 1) {
            Some((num, k)) => {
                let name = s.subrange(i, n_end);
                if k + 2 <= s.len() && s[k] == '|' && s[k + 1] == 'c' {
                    let after = match parse_sample_rate(s, k + 2) {
                        Some((_rate, e)) => e,
                        None => k + 2,
                    };
                    Some(
                        (
                            StatsdMetricView {
                                kind: StatsdKind::Counter,
                                name,
                                value: num,
                                sample_rate: None,
                            },
                            after,
                        ),
                    )
                } else if k + 2 <= s.len() && s[k] == '|' && s[k + 1] == 'g' {
                    Some(
                        (
                            StatsdMetricView {
                                kind: StatsdKind::Gauge,
                                name,
                                value: num,
                                sample_rate: None,
                            },
                            k + 2,
                        ),
                    )
                } else if k + 3 <= s.len() && s[k] == '|' && s[k + 1] == 'm' && s[k + 2] == 's' {
                    Some(
                        (
                            StatsdMetricView {
                                kind: StatsdKind::Timer,
                                name,
                                value: num,
                                sample_rate: None,
                            },
                            k + 3,
                        ),
                    )
                } else {
                    None
                }
            },
            None => None,
        }
    } else {
        None
    }
}

/// A scan never moves backwards and never passes the end.
pub proof fn lemma_scan_bounds(s: Seq<char>, i: int)
    requires
        0 <= i <= s.len(),
    ensures
        i <= scan_name(s, i) <= s.len(),
        i <= scan_digits(s, i) <= s.len(),
    decreases s.len() - i,
{
    if i < s.len() {
        lemma_scan_bounds(s, i + 1);
    }
}

/// A parsed numeral sits strictly after its start, within the input.
pub proof fn lemma_parse_number_advances(s: Seq<char>, i: int)
    requires
        0 <= i <= s.len(),
        parse_number(s, i) is Some,
    ensures
        i < parse_number(s, i)->Some_0.1 <= s.len(),
{
    lemma_scan_bounds(s, i);
    if i < s.len() && s[i] == '-' {
        lemma_scan_bounds(s, i + 1);
        let d1 = scan_digits(s, i + 1);
        if d1 > i + 1 && d1 < s.len() && s[d1] == '.' {
            lemma_scan_bounds(s, d1 + 1);
        }
        if !(d1 > i + 1) && i + 1 < s.len() && s[i + 1] == '.' {
            lemma_scan_bounds(s, i + 2);
        }
    } else {
        let d1 = scan_digits(s, i);
        if d1 > i && d1 < s.len() && s[d1] == '.' {
            lemma_scan_bounds(s, d1 + 1);
        }
        if !(d1 > i) && i < s.len() && s[i] == '.' {
            lemma_scan_bounds(s, i + 1);
        }
    }
}

/// A parsed metric sits strictly after its start, within the input.
pub proof fn lemma_parse_metric_advances(s: Seq<char>, i: int)
    requires
        0 <= i <= s.len(),
        parse_metric(s, i) is Some,
    ensures
        i < parse_metric(s, i)->Some_0.1 <= s.len(),
{
    lemma_scan_bounds(s, i);
    let n_end = scan_name(s, i);
    lemma_parse_number_advances(s, n_end + 1);
    let k = parse_number(s, n_end + 1)->Some_0.1;
    if k + 2 <= s.len() && s[k] == '|' && s[k + 1] == 'c' {
        if parse_sample_rate(s, k + 2) is Some {
            lemma_parse_number_advances(s, k + 4);
        }
    }
}

/// The metrics readable after one parsed metric: as long as a separator
/// `'\n'` and a further metric follow, that metric joins the list; the
/// first position where they do not ends the message, whatever else stands
/// there.
pub open spec fn parse_metrics_from(s: Seq<char>, i: int) -> Seq<StatsdMetricView>
    decreases s.len() - i when 0 <= i <= s.len() via parse_metrics_from_decreases
{
    if i < s.len() && s[i] == '\n' {
        match parse_metric(s, i + 1) {
            Some((m, j)) => seq![m] + parse_metrics_from(s, j),
            None => Seq::empty(),
        }
    } else {
        Seq::empty()
    }
}

#[via_fn]
proof fn parse_metrics_from_decreases(s: Seq<char>, i: int) {
    if 0 <= i < s.len() && s[i] == '\n' {
        if parse_metric(s, i + 1) is Some {
            lemma_parse_metric_advances(s, i + 1);
        }
    }
}

/// The whole message: a first metric, then every further metric a
/// separator leads to. A message whose very first characters spell no
/// metric is an error.
pub open spec fn parse_metrics_spec(s: Seq<char>) -> Option<Seq<StatsdMetricView>> {
    match parse_metric(s, 0) {
        Some((m, j)) => Some(seq![m] + parse_metrics_from(s, j)),
        None => None,
    }
}


fn name_char(c: char) -> (r: bool)
    ensures
        r == is_name_char(c),
{
    ('a' <= c && c <= 'z') || ('A' <= c && c <= 'Z') || ('0' <= c && c <= '9') || c == '.' || c
        == '_'
}

fn digit_char(c: char) -> (r: bool)
    ensures
        r == is_digit_char(c),
{
    '0' <= c && c <= '9'
}

/// The end of the run of name characters starting at `i`; `len` is the
/// input's length in characters.
pub fn scan_name_exec(s: &str, i: usize, len: usize) -> (r: usize)
    requires
        len == s@.len(),
        i <= len,
    ensures
        r as int == scan_name(s@, i as int),
        i <= r <= len,
{
    let mut r = i;
    while r < len && name_char(s.get_char(r))
        invariant
            i <= r <= len,
            len == s@.len(),
            scan_name(s@, i as int) == scan_name(s@, r as int),
        decreases len - r,
    {
        r = r + 1;
    }
    r
}

fn scan_digits_exec(s: &str, i: usize, len: usize) -> (r: usize)
    requires
        len == s@.len(),
        i <= len,
    ensures
        r as int == scan_digits(s@, i as int),
        i <= r <= len,
{
    let mut r = i;
    while r < len && digit_char(s.get_char(r))
        invariant
            i <= r <= len,
            len == s@.len(),
            scan_digits(s@, i as int) == scan_digits(s@, r as int),
        decreases len - r,
    {
        r = r + 1;
    }
    r
}

/// Read the numeral starting at `i`, if any.
pub fn parse_number_exec(s: &str, i: usize, len: usize) -> (r: Option<(Number, usize)>)
    requires
        len == s@.len(),
        i <= len,
    ensures
        match r {
            Some(nj) => parse_number(s@, i as int) == Some((number_view(nj.0), nj.1 as int)) && i
                < nj.1 <= len,
            None => parse_number(s@, i as int) is None,
        },
{
    proof {
        lemma_scan_bounds(s@, i as int);
    }
    let neg = i < len && s.get_char(i) == '-';
    let j = if neg {
        i + 1
    } else {
        i
    };
    let d1 = scan_digits_exec(s, j, len);
    if d1 > j {
        if d1 < len && s.get_char(d1) == '.' {
            let d2 = scan_digits_exec(s, d1 + 1, len);
            let n = Number {
                negative: neg,
                int_part: s.substring_char(j, d1).to_owned(),
                frac_part: s.substring_char(d1 + 1, d2).to_owned(),
            };
            proof {
                assert(number_view(n) =~= parse_number(s@, i as int)->Some_0.0);
            }
            Some((n, d2))
        } else {
            let n = Number {
                negative: neg,
                int_part: s.substring_char(j, d1).to_owned(),
                frac_part: String::new(),
            };
            proof {
                assert(number_view(n) =~= parse_number(s@, i as int)->Some_0.0);
            }
            Some((n, d1))
        }
    } else {
        if j < len && s.get_char(j) == '.' {
            let d2 = scan_digits_exec(s, j + 1, len);
            if d2 > j + 1 {
                let n = Number {
                    negative: neg,
                    int_part: String::new(),
                    frac_part: s.substring_char(j + 1, d2).to_owned(),
                };
                proof {
                    assert(number_view(n) =~= parse_number(s@, i as int)->Some_0.0);
                }
                Some((n, d2))
            } else {
                None
            }
        } else {
            None
        }
    }
}

fn parse_sample_rate_exec(s: &str, i: usize, len: usize) -> (r: Option<(Number, usize)>)
    requires
        len == s@.len(),
        i <= len,
    ensures
        match r {
            Some(nj) => parse_sample_rate(s@, i as int) == Some((number_view(nj.0), nj.1 as int))
                && i < nj.1 <= len,
            None => parse_sample_rate(s@, i as int) is None,
        },
{
    if i < len && s.get_char(i) == '|' {
        if i + 1 < len && s.get_char(i + 1) == '@' {
            parse_number_exec(s, i + 2, len)
        } else {
            None
        }
    } else {
        None
    }
}

/// Read the metric starting at `i`, if any.
pub fn parse_metric_exec(s: &str, i: usize, len: usize) -> (r: Option<(StatsdMetric, usize)>)
    requires
        len == s@.len(),
        i <= len,
    ensures
        match r {
            Some(mj) => parse_metric(s@, i as int) == Some((statsd_view(mj.0), mj.1 as int)) && i
                < mj.1 <= len,
            None => parse_metric(s@, i as int) is None,
        },
{
    proof {
        lemma_scan_bounds(s@, i as int);
    }
    let n_end = scan_name_exec(s, i, len);
    if n_end < len && s.get_char(n_end) == ':' {
        match parse_number_exec(s, n_end + 1, len) {
            Some((num, k)) => {
                if k < len && s.get_char(k) == '|' {
                    if k + 1 < len {
                        let t = s.get_char(k + 1);
                        if t == 'c' {
                            let after = match parse_sample_rate_exec(s, k + 2, len) {
                                Some(re) => re.1,
                                None => k + 2,
                            };
                            let name = s.substring_char(i, n_end).to_owned();
                            let m = StatsdMetric::Counter(name, num, None);
                            proof {
                                assert(statsd_view(m) =~= parse_metric(s@, i as int)->Some_0.0);
                            }
                            Some((m, after))
                        } else if t == 'g' {
                            let name = s.substring_char(i, n_end).to_owned();
                            let m = StatsdMetric::Gauge(name, num);
                            proof {
                                assert(statsd_view(m) =~= parse_metric(s@, i as int)->Some_0.0);
                            }
                            Some((m, k + 2))
                        } else if t == 'm' {
                            if k + 2 < len && s.get_char(k + 2) == 's' {
                                let name = s.substring_char(i, n_end).to_owned();
                                let m = StatsdMetric::Timer(name, num, None);
                                proof {
                                    assert(statsd_view(m) =~= parse_metric(
                                        s@,
                                        i as int,
                                    )->Some_0.0);
                                }
                                Some((m, k + 3))
                            } else {
                                None
                            }
                        } else {
                            None
                        }
                    } else {
                        None
                    }
                } else {
                    None
                }
            },
            None => None,
        }
    } else {
        None
    }
}

/// The error a malformed message parses to.
#[derive(Debug, PartialEq)]
pub struct ParseError {
    pub description: String,
}

/// Parse a whole message. `Ok` holds exactly the metrics the grammar
/// derives from the input's characters; `Err` comes exactly when no metric
/// can be read at the very start of the input.
pub fn parse_metrics(input: &str) -> (r: Result<Vec<StatsdMetric>, ParseError>)
    ensures
        match r {
            Ok(ms) => parse_metrics_spec(input@) == Some(statsd_views(ms@)),
            Err(e) => parse_metrics_spec(input@) is None && e.description@
                == "invalid metric syntax"@,
        },
{
    let len = input.unicode_len();
    match parse_metric_exec(input, 0, len) {
        None => Err(ParseError { description: "invalid metric syntax".to_owned() }),
        Some((m0, p0)) => {
            let ghost target = parse_metrics_spec(input@)->Some_0;
            let mut out: Vec<StatsdMetric> = Vec::new();
            out.push(m0);
            let mut pos = p0;
            proof {
                assert(statsd_views(out@) =~= seq![statsd_view(m0)]);
                assert(statsd_views(out@) + parse_metrics_from(input@, pos as int) =~= target);
            }
            loop
                invariant
                    pos <= len,
                    len == input@.len(),
                    target == parse_metrics_spec(input@)->Some_0,
                    statsd_views(out@) + parse_metrics_from(input@, pos as int) == target,
                ensures
                    statsd_views(out@) == target,
                decreases len - pos,
            {
                if pos < len {
                    if input.get_char(pos) == '\n' {
                        match parse_metric_exec(input, pos + 1, len) {
                            Some((m, p2)) => {
                                let ghost out0 = out@;
                                out.push(m);
                                proof {
                                    assert(parse_metrics_from(input@, pos as int) == seq![
                                        statsd_view(m),
                                    ] + parse_metrics_from(input@, p2 as int));
                                    assert(statsd_views(out@) =~= statsd_views(out0) + seq![
                                        statsd_view(m),
                                    ]);
                                    assert(statsd_views(out@) + parse_metrics_from(
                                        input@,
                                        p2 as int,
                                    ) =~= target);
                                }
                                pos = p2;
                            },
                            None => {
                                proof {
                                    assert(parse_metrics_from(input@, pos as int)
                                        =~= Seq::<StatsdMetricView>::empty());
                                    assert(statsd_views(out@) =~= target);
                                }
                                break;
                            },
                        }
                    } else {
                        proof {
                            assert(parse_metrics_from(input@, pos as int) =~= Seq::<
                                StatsdMetricView,
                            >::empty());
                            assert(statsd_views(out@) =~= target);
                        }
                        break;
                    }
                } else {
                    proof {
                        assert(parse_metrics_from(input@, pos as int) =~= Seq::<
                            StatsdMetricView,
                        >::empty());
                        assert(statsd_views(out@) =~= target);
                    }
                    break;
                }
            }
            Ok(out)
        },
    }
}


/// The integer a run of decimal digits denotes.
pub open spec fn digits_val(ds: Seq<char>) -> int
    decreases ds.len(),
{
    if ds.len() == 0 {
        0
    } else {
        digits_val(ds.drop_last()) * 10 + (ds.last() as int - 48)
    }
}

/// The integer a numeral truncates to: its fraction dropped, its sign kept.
pub open spec fn number_trunc(n: NumberView) -> int {
    if n.negative {
        -digits_val(n.int_part)
    } else {
        digits_val(n.int_part)
    }
}

/// A value clamped into the range of the measurement value type.
pub open spec fn clamp_i32(v: int) -> int {
    if v < i32::MIN {
        i32::MIN as int
    } else if v > i32::MAX {
        i32::MAX as int
    } else {
        v
    }
}

/// Digits denote a nonnegative integer.
pub proof fn lemma_digits_val_nonneg(ds: Seq<char>)
    requires
        forall|i: int| 0 <= i < ds.len() ==> is_digit_char(#[trigger] ds[i]),
    ensures
        digits_val(ds) >= 0,
    decreases ds.len(),
{
    if ds.len() > 0 {
        assert forall|i: int|
            0 <= i < ds.drop_last().len() implies is_digit_char(#[trigger] ds.drop_last()[i]) by {
            assert(ds.drop_last()[i] == ds[i]);
        }
        lemma_digits_val_nonneg(ds.drop_last());
        assert(is_digit_char(ds.last())) by {
            assert(ds[ds.len() - 1] == ds.last());
        }
    }
}

fn digits_to_val(ds: &str) -> (r: u64)
    requires
        forall|i: int| 0 <= i < ds@.len() ==> is_digit_char(#[trigger] ds@[i]),
    ensures
        digits_val(ds@) <= i32::MAX as int ==> r as int == digits_val(ds@),
        digits_val(ds@) > i32::MAX as int ==> r as int > i32::MAX as int,
{
    let len = ds.unicode_len();
    let mut acc: u64 = 0;
    let mut j: usize = 0;
    proof {
        assert(ds@.take(0) =~= Seq::<char>::empty());
    }
    while j < len
        invariant
            0 <= j <= len,
            len == ds@.len(),
            forall|i: int| 0 <= i < ds@.len() ==> is_digit_char(#[trigger] ds@[i]),
            0 <= digits_val(ds@.take(j as int)),
            acc as int <= digits_val(ds@.take(j as int)),
            acc as int == digits_val(ds@.take(j as int)) || acc as int > u32::MAX as int,
            acc as int <= 42949672959,
        decreases len - j,
    {
        let c = ds.get_char(j);
        proof {
            assert(is_digit_char(c));
            assert('0' as int == 48 && '9' as int == 57);
            assert(48 <= c as int <= 57);
            let k = j as int;
            assert(ds@.take(k + 1).drop_last() =~= ds@.take(k));
            assert(ds@.take(k + 1).last() == ds@[k]);
            assert(digits_val(ds@.take(k + 1)) == digits_val(ds@.take(k)) * 10 + (c as int - 48));
        }
        let d = (c as u32 - 48) as u64;
        if acc <= 0xFFFF_FFFF {
            acc = acc * 10 + d;
        }
        j = j + 1;
    }
    proof {
        assert(ds@.take(len as int) =~= ds@);
    }
    acc
}

/// The measurement value a numeral converts to: truncated toward zero and
/// clamped into the value type's range.
fn number_to_i32(n: &Number) -> (r: i32)
    requires
        number_wf(number_view(*n)),
    ensures
        r as int == clamp_i32(number_trunc(number_view(*n))),
{
    proof {
        assert(number_view(*n).int_part == n.int_part@);
        assert forall|i: int|
            0 <= i < n.int_part@.len() implies is_digit_char(#[trigger] n.int_part@[i]) by {
            assert(is_digit_char(number_view(*n).int_part[i]));
        }
        lemma_digits_val_nonneg(n.int_part@);
    }
    let mag = digits_to_val(n.int_part.as_str());
    if n.negative {
        if mag > i32::MAX as u64 {
            i32::MIN
        } else {
            -(mag as i32)
        }
    } else {
        if mag > i32::MAX as u64 {
            i32::MAX
        } else {
            mag as i32
        }
    }
}


/// Every character a digit scan passes over is a digit.
proof fn lemma_scan_digits_chars(s: Seq<char>, i: int)
    requires
        0 <= i <= s.len(),
    ensures
        forall|j: int| i <= j < scan_digits(s, i) ==> is_digit_char(#[trigger] s[j]),
    decreases s.len() - i,
{
    if i < s.len() && is_digit_char(s[i]) {
        lemma_scan_digits_chars(s, i + 1);
    }
}

/// Every numeral the grammar derives is well formed.
pub proof fn lemma_parse_number_wf(s: Seq<char>, i: int)
    requires
        0 <= i <= s.len(),
        parse_number(s, i) is Some,
    ensures
        number_wf(parse_number(s, i)->Some_0.0),
{
    let neg = i < s.len() && s[i] == '-';
    let j = if neg {
        i + 1
    } else {
        i
    };
    lemma_scan_bounds(s, j);
    lemma_scan_digits_chars(s, j);
    let d1 = scan_digits(s, j);
    if d1 > j {
        if d1 < s.len() && s[d1] == '.' {
            lemma_scan_bounds(s, d1 + 1);
            lemma_scan_digits_chars(s, d1 + 1);
        }
    } else {
        if j < s.len() && s[j] == '.' {
            lemma_scan_bounds(s, j + 1);
            lemma_scan_digits_chars(s, j + 1);
        }
    }
}

/// A parsed metric is well formed: its numeral parts hold digits alone.
pub open spec fn statsd_wf(m: StatsdMetricView) -> bool {
    &&& number_wf(m.value)
    &&& match m.sample_rate {
        Some(r) => number_wf(r),
        None => true,
    }
}

/// Every metric the grammar derives is well formed.
pub proof fn lemma_parse_metric_wf(s: Seq<char>, i: int)
    requires
        0 <= i <= s.len(),
        parse_metric(s, i) is Some,
    ensures
        statsd_wf(parse_metric(s, i)->Some_0.0),
{
    lemma_scan_bounds(s, i);
    let n_end = scan_name(s, i);
    lemma_parse_number_wf(s, n_end + 1);
}

/// Every metric in the tail of a message is well formed.
pub proof fn lemma_parse_metrics_from_wf(s: Seq<char>, i: int)
    requires
        0 <= i <= s.len(),
    ensures
        forall|p: int|
            0 <= p < parse_metrics_from(s, i).len() ==> statsd_wf(
                #[trigger] parse_metrics_from(s, i)[p],
            ),
    decreases s.len() - i,
{
    if i < s.len() && s[i] == '\n' {
        if parse_metric(s, i + 1) is Some {
            let (m, j) = parse_metric(s, i + 1)->Some_0;
            lemma_parse_metric_advances(s, i + 1);
            lemma_parse_metric_wf(s, i + 1);
            lemma_parse_metrics_from_wf(s, j);
            assert forall|p: int|
                0 <= p < parse_metrics_from(s, i).len() implies statsd_wf(
                #[trigger] parse_metrics_from(s, i)[p],
            ) by {
                if p == 0 {
                    assert(parse_metrics_from(s, i)[0] == m);
                } else {
                    assert(parse_metrics_from(s, i)[p] == parse_metrics_from(s, j)[p - 1]);
                }
            }
        }
    }
}

/// Every metric a whole message derives is well formed.
pub proof fn lemma_parse_metrics_wf(s: Seq<char>)
    requires
        parse_metrics_spec(s) is Some,
    ensures
        forall|p: int|
            0 <= p < parse_metrics_spec(s)->Some_0.len() ==> statsd_wf(
                #[trigger] parse_metrics_spec(s)->Some_0[p],
            ),
{
    let (m, j) = parse_metric(s, 0)->Some_0;
    lemma_parse_metric_advances(s, 0);
    lemma_parse_metric_wf(s, 0);
    lemma_parse_metrics_from_wf(s, j);
    assert forall|p: int|
        0 <= p < parse_metrics_spec(s)->Some_0.len() implies statsd_wf(
        #[trigger] parse_metrics_spec(s)->Some_0[p],
    ) by {
        if p == 0 {
            assert(parse_metrics_spec(s)->Some_0[0] == m);
        } else {
            assert(parse_metrics_spec(s)->Some_0[p] == parse_metrics_from(s, j)[p - 1]);
        }
    }
}


/// The measurement event a parsed metric becomes: a counter collects as a
/// Count, a gauge as a Gauge, a timer as a Histogram sample; the value is
/// truncated toward zero and clamped; the identifier carries the wire name
/// and no dimensions; the timestamp is the caller's.
pub open spec fn collected_of_statsd(m: StatsdMetricView, time: u64) -> CollectedMetricView {
    let kind = match m.kind {
        StatsdKind::Counter => MetricKind::Count,
        StatsdKind::Gauge => MetricKind::Gauge,
        StatsdKind::Timer => MetricKind::Histogram,
    };
    CollectedMetricView {
        kind,
        time,
        id: IdView { name: m.name, dims: Seq::empty() },
        value: clamp_i32(number_trunc(m.value)),
    }
}

pub open spec fn collected_of_batch(ms: Seq<StatsdMetricView>, time: u64) -> Seq<
    CollectedMetricView,
> {
    ms.map_values(|m: StatsdMetricView| collected_of_statsd(m, time))
}

impl StatsdMetric {
    /// The measurement event this wire metric stands for, stamped with the
    /// receiver's timestamp.
    pub fn to_collected(&self, time: u64) -> (r: CollectedMetric)
        requires
            statsd_wf(statsd_view(*self)),
        ensures
            collected_view(r) == collected_of_statsd(statsd_view(*self), time),
    {
        let r = match self {
            StatsdMetric::Counter(name, value, _rate) => CollectedMetric::Count(
                time,
                (name.clone(), Vec::new()),
                number_to_i32(value),
            ),
            StatsdMetric::Gauge(name, value) => CollectedMetric::Gauge(
                time,
                (name.clone(), Vec::new()),
                number_to_i32(value),
            ),
            StatsdMetric::Timer(name, value, _rate) => CollectedMetric::Histogram(
                time,
                (name.clone(), Vec::new()),
                number_to_i32(value),
            ),
        };
        proof {
            assert(collected_view(r).id =~= IdView {
                name: statsd_view(*self).name,
                dims: Seq::empty(),
            });
            assert(collected_view(r) =~= collected_of_statsd(statsd_view(*self), time));
        }
        r
    }
}

/// Parse a whole message straight into measurement events, every event
/// stamped with the given timestamp. `Ok` holds exactly the events the
/// grammar derives; `Err` comes exactly when no metric can be read at the
/// very start of the input.
pub fn parse_collected(input: &str, time: u64) -> (r: Result<Vec<CollectedMetric>, ParseError>)
    ensures
        match r {
            Ok(ms) => parse_metrics_spec(input@) is Some && events_view(ms@) == collected_of_batch(
                parse_metrics_spec(input@)->Some_0,
                time,
            ),
            Err(e) => parse_metrics_spec(input@) is None && e.description@
                == "invalid metric syntax"@,
        },
{
    match parse_metrics(input) {
        Err(e) => Err(e),
        Ok(parsed) => {
            proof {
                lemma_parse_metrics_wf(input@);
            }
            let ghost specms = parse_metrics_spec(input@)->Some_0;
            let mut out: Vec<CollectedMetric> = Vec::new();
            let mut j: usize = 0;
            while j < parsed.len()
                invariant
                    0 <= j <= parsed@.len(),
                    specms == statsd_views(parsed@),
                    forall|p: int| 0 <= p < specms.len() ==> statsd_wf(#[trigger] specms[p]),
                    out@.len() == j,
                    forall|p: int|
                        0 <= p < j ==> collected_view(#[trigger] out@[p]) == collected_of_statsd(
                            specms[p],
                            time,
                        ),
                decreases parsed@.len() - j,
            {
                proof {
                    assert(statsd_views(parsed@)[j as int] == statsd_view(parsed@[j as int]));
                    assert(statsd_wf(specms[j as int]));
                }
                let ev = parsed[j].to_collected(time);
                out.push(ev);
                j = j + 1;
            }
            proof {
                assert(events_view(out@) =~= collected_of_batch(specms, time));
            }
            Ok(out)
        },
    }
}

} // verus!
