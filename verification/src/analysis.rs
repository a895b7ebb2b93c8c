//! What a decoded trace shows: the properties that the page read and did
//! not find, and the writes and sinks that tainted values reached.
//!
//! Both analyses look only at what the page itself did: the messages from
//! the first `DocumentStart` on. A trace without that marker shows nothing.

use crate::location::{location_of, place_of, resolve_location, Place, SourceLocation};
use crate::log_format::Event;
use crate::log_parser::{LogMessage, SiteLog};
use crate::text::{
    bytes_of, lemma_bytes_of_injective, lemma_precedes_total, lemma_precedes_transitive, text_eq,
    text_precede, text_precedes,
};
use vstd::prelude::*;
use vstd::string::*;

verus! {

/// A property that the page read and did not find, with the place of the
/// read where the stack trace names one.
#[derive(Debug, Clone, PartialEq, Eq)]
pub struct Finding {
    pub name: String,
    pub stack_trace: String,
    pub location: Option<SourceLocation>,
}

/// A finding, with its text as characters.
pub struct FindingView {
    pub name: Seq<char>,
    pub stack_trace: Seq<char>,
    pub location: Option<Place>,
}

impl View for Finding {
    type V = FindingView;

    open spec fn view(&self) -> FindingView {
        FindingView {
            name: self.name@,
            stack_trace: self.stack_trace@,
            location: place_of(self.location),
        }
    }
}

/// What tells one finding from another: the property and the stack trace of
/// the read.
pub type Key = (Seq<char>, Seq<char>);

/// The findings as their views.
pub open spec fn findings(report: Seq<Finding>) -> Seq<FindingView> {
    report.map_values(|f: Finding| f@)
}

// ----- the page's own messages -----
/// The index of the first `DocumentStart` at or after `from`, or the length
/// when there is none.
pub open spec fn document_start(trace: Seq<Event>, from: int) -> int
    decreases trace.len() - from,
{
    if from < 0 || from >= trace.len() || trace[from] is DocumentStart {
        from
    } else {
        document_start(trace, from + 1)
    }
}

/// The events from the first `DocumentStart` on: what happened while the
/// page's own scripts ran.
pub open spec fn page_events(trace: Seq<Event>) -> Seq<Event> {
    trace.skip(document_start(trace, 0))
}

// ----- undefined properties -----
/// Whether `a` comes before `b`: by the property's name, and for one name
/// by the stack trace.
pub open spec fn key_precedes(a: Key, b: Key) -> bool {
    text_precedes(a.0, b.0) || (a.0 == b.0 && text_precedes(a.1, b.1))
}

/// The key of a finding.
pub open spec fn key_of(f: FindingView) -> Key {
    (f.name, f.stack_trace)
}

/// Whether the events hold a read of a missing property with this key.
pub open spec fn reads_undefined(trace: Seq<Event>, key: Key) -> bool {
    exists|i: int|
        0 <= i < trace.len() && (#[trigger] trace[i]) is UndefinedProperty
            && trace[i]->UndefinedProperty_name == key.0
            && trace[i]->UndefinedProperty_stack_trace == key.1
}

/// Whether the report holds a finding with this key.
pub open spec fn reports(report: Seq<FindingView>, key: Key) -> bool {
    exists|i: int| 0 <= i < report.len() && key_of(#[trigger] report[i]) == key
}

/// Whether the findings stand in strictly ascending order of their keys, so
/// that no key occurs twice.
pub open spec fn ascending(report: Seq<FindingView>) -> bool {
    forall|i: int, j: int|
        0 <= i < j < report.len() ==> key_precedes(
            key_of(#[trigger] report[i]),
            key_of(#[trigger] report[j]),
        )
}

/// Whether each finding carries the place that its stack trace names.
pub open spec fn located_all(report: Seq<FindingView>) -> bool {
    forall|i: int|
        0 <= i < report.len() ==> (#[trigger] report[i]).location == location_of(
            report[i].stack_trace,
        )
}

/// Whether `report` is the report on the undefined properties of `events`:
/// one finding for each distinct pair of name and stack trace among the
/// reads of missing properties, in ascending order, each with its place.
pub open spec fn is_report_of(report: Seq<FindingView>, trace: Seq<Event>) -> bool {
    &&& ascending(report)
    &&& located_all(report)
    &&& forall|key: Key| reports(report, key) <==> reads_undefined(trace, key)
}

/// Of two keys one comes before the other, or they are the same; never two
/// of these at once.
pub proof fn lemma_key_order_total(a: Key, b: Key)
    ensures
        key_precedes(a, b) || key_precedes(b, a) || a == b,
        !(key_precedes(a, b) && key_precedes(b, a)),
        !key_precedes(a, a),
{
    lemma_precedes_total(bytes_of(a.0), bytes_of(b.0));
    lemma_precedes_total(bytes_of(a.1), bytes_of(b.1));
    lemma_precedes_total(bytes_of(a.0), bytes_of(a.0));
    lemma_precedes_total(bytes_of(a.1), bytes_of(a.1));
    lemma_bytes_of_injective(a.0, b.0);
    lemma_bytes_of_injective(a.1, b.1);
}

/// The order of keys is transitive.
pub proof fn lemma_key_order_transitive(a: Key, b: Key, c: Key)
    requires
        key_precedes(a, b),
        key_precedes(b, c),
    ensures
        key_precedes(a, c),
{
    if text_precedes(a.0, b.0) && text_precedes(b.0, c.0) {
        lemma_precedes_transitive(bytes_of(a.0), bytes_of(b.0), bytes_of(c.0));
    } else if a.0 == b.0 && b.0 == c.0 {
        lemma_precedes_transitive(bytes_of(a.1), bytes_of(b.1), bytes_of(c.1));
    }
}

/// Whether the key `(name, stack_trace)` comes before the key of `f`.
fn key_before(name: &str, stack_trace: &str, f: &Finding) -> (r: bool)
    ensures
        r == key_precedes((name@, stack_trace@), key_of(f@)),
{
    if text_precede(name, f.name.as_str()) {
        true
    } else if text_eq(name, f.name.as_str()) {
        text_precede(stack_trace, f.stack_trace.as_str())
    } else {
        false
    }
}

/// Whether `f` has the key `(name, stack_trace)`.
fn has_key(name: &str, stack_trace: &str, f: &Finding) -> (r: bool)
    ensures
        r == (key_of(f@) == (name@, stack_trace@)),
{
    text_eq(name, f.name.as_str()) && text_eq(stack_trace, f.stack_trace.as_str())
}

/// Puts a finding for `(name, stack_trace)` into an ascending report, at
/// its place in the order, unless the report already holds one.
fn insert_finding(report: &mut Vec<Finding>, name: &str, stack_trace: &str)
    requires
        ascending(findings(old(report)@)),
        located_all(findings(old(report)@)),
    ensures
        ascending(findings(final(report)@)),
        located_all(findings(final(report)@)),
        forall|key: Key|
            reports(findings(final(report)@), key) <==> (reports(findings(old(report)@), key)
                || key == (name@, stack_trace@)),
{
    let ghost before = findings(report@);
    let ghost key: Key = (name@, stack_trace@);
    let mut at: usize = 0;
    while at < report.len() && !key_before(name, stack_trace, &report[at]) && !has_key(
        name,
        stack_trace,
        &report[at],
    )
        invariant
            at <= report.len(),
            before == findings(report@),
            key == (name@, stack_trace@),
            forall|i: int| 0 <= i < at ==> key_precedes(key_of(#[trigger] before[i]), key),
        decreases report.len() - at,
    {
        proof {
            lemma_key_order_total(key_of(before[at as int]), key);
        }
        at += 1;
    }
    if at < report.len() && has_key(name, stack_trace, &report[at]) {
        assert(key_of(before[at as int]) == key);
        return ;
    }
    let finding = Finding {
        name: name.to_owned(),
        stack_trace: stack_trace.to_owned(),
        location: resolve_location(stack_trace),
    };
    report.insert(at, finding);
    let ghost after = findings(report@);
    proof {
        assert(after =~= before.insert(at as int, finding@));
        assert forall|i: int, j: int| 0 <= i < j < after.len() implies key_precedes(
            key_of(#[trigger] after[i]),
            key_of(#[trigger] after[j]),
        ) by {
            if j < at {
                assert(after[i] == before[i] && after[j] == before[j]);
            } else if j == at {
                assert(after[i] == before[i]);
            } else if i == at {
                assert(after[j] == before[j - 1]);
                if j - 1 > at {
                    assert(key_precedes(key_of(before[at as int]), key_of(before[j - 1])));
                    lemma_key_order_transitive(
                        key,
                        key_of(before[at as int]),
                        key_of(before[j - 1]),
                    );
                }
            } else if i < at {
                assert(after[i] == before[i] && after[j] == before[j - 1]);
            } else {
                assert(after[i] == before[i - 1] && after[j] == before[j - 1]);
            }
        }
        assert forall|i: int| 0 <= i < after.len() implies (#[trigger] after[i]).location
            == location_of(after[i].stack_trace) by {
            if i < at {
                assert(after[i] == before[i]);
            } else if i > at {
                assert(after[i] == before[i - 1]);
            }
        }
        assert forall|k: Key| reports(after, k) <==> (reports(before, k) || k == key) by {
            if reports(after, k) {
                let i = choose|i: int| 0 <= i < after.len() && key_of(#[trigger] after[i]) == k;
                if i < at {
                    assert(after[i] == before[i]);
                } else if i > at {
                    assert(after[i] == before[i - 1]);
                }
            }
            if reports(before, k) {
                let i = choose|i: int| 0 <= i < before.len() && key_of(#[trigger] before[i]) == k;
                if i < at {
                    assert(after[i] == before[i]);
                } else {
                    assert(after[i + 1] == before[i]);
                }
            }
            if k == key {
                assert(key_of(after[at as int]) == k);
            }
        }
    }
}

/// Whether a message is the marker that the page's own scripts start.
fn is_document_start(message: &LogMessage) -> (r: bool)
    ensures
        r == (message@ is DocumentStart),
{
    match message {
        LogMessage::DocumentStart => true,
        _ => false,
    }
}

/// The index of the first `DocumentStart` message, or the number of
/// messages when there is none.
pub fn find_document_start(log: &SiteLog) -> (start: usize)
    ensures
        start == document_start(log@, 0),
        start <= log.messages.len(),
        log@.len() == log.messages.len(),
{
    let mut start: usize = 0;
    while start < log.messages.len() && !is_document_start(&log.messages[start])
        invariant
            start <= log.messages.len(),
            log@.len() == log.messages.len(),
            document_start(log@, 0) == document_start(log@, start as int),
        decreases log.messages.len() - start,
    {
        start += 1;
    }
    start
}

/// Reports the properties that the page read and did not find: one finding
/// for each distinct pair of property name and stack trace, in ascending
/// order of the pair, each with the place that its stack trace names. Reads
/// before the first `DocumentStart` are left out.
pub fn get_all_undefined_properties(log: &SiteLog) -> (report: Vec<Finding>)
    ensures
        is_report_of(findings(report@), page_events(log@)),
{
    let start: usize = find_document_start(log);
    let ghost trace = log@;
    let mut report: Vec<Finding> = Vec::new();
    let mut i: usize = start;
    while i < log.messages.len()
        invariant
            start <= i <= log.messages.len(),
            trace == log@,
            trace.len() == log.messages.len(),
            ascending(findings(report@)),
            located_all(findings(report@)),
            forall|key: Key|
                reports(findings(report@), key) <==> reads_undefined(
                    trace.subrange(start as int, i as int),
                    key,
                ),
        decreases log.messages.len() - i,
    {
        let ghost seen = trace.subrange(start as int, i as int);
        let ghost more = trace.subrange(start as int, i + 1);
        let ghost before = findings(report@);
        assert(more.drop_last() =~= seen);
        assert(more.last() == log.messages@[i as int]@);
        match &log.messages[i] {
            LogMessage::UndefinedProperty { name, stack_trace, .. } => {
                insert_finding(&mut report, name.as_str(), stack_trace.as_str());
                proof {
                    let added: Key = (name@, stack_trace@);
                    assert forall|key: Key|
                        reports(findings(report@), key) <==> reads_undefined(more, key) by {
                        lemma_reads_undefined_grows(more, key);
                    }
                }
            },
            _ => {
                proof {
                    assert forall|key: Key|
                        reports(findings(report@), key) <==> reads_undefined(more, key) by {
                        lemma_reads_undefined_grows(more, key);
                    }
                }
            },
        }
        i += 1;
    }
    assert(trace.subrange(start as int, i as int) =~= page_events(trace));
    report
}

/// The reads of missing properties in a trace are those of the trace
/// without its last event, and the last event if it is such a read.
pub proof fn lemma_reads_undefined_grows(trace: Seq<Event>, key: Key)
    requires
        trace.len() > 0,
    ensures
        reads_undefined(trace, key) <==> (reads_undefined(trace.drop_last(), key) || (
        trace.last() is UndefinedProperty && trace.last()->UndefinedProperty_name == key.0
            && trace.last()->UndefinedProperty_stack_trace == key.1)),
{
    let shorter = trace.drop_last();
    if reads_undefined(trace, key) {
        let i = choose|i: int|
            0 <= i < trace.len() && (#[trigger] trace[i]) is UndefinedProperty
                && trace[i]->UndefinedProperty_name == key.0
                && trace[i]->UndefinedProperty_stack_trace == key.1;
        if i < trace.len() - 1 {
            assert(shorter[i] == trace[i]);
        }
    }
    if reads_undefined(shorter, key) {
        let i = choose|i: int|
            0 <= i < shorter.len() && (#[trigger] shorter[i]) is UndefinedProperty
                && shorter[i]->UndefinedProperty_name == key.0
                && shorter[i]->UndefinedProperty_stack_trace == key.1;
        assert(trace[i] == shorter[i]);
    }
    if trace.last() is UndefinedProperty && trace.last()->UndefinedProperty_name == key.0
        && trace.last()->UndefinedProperty_stack_trace == key.1 {
        assert(trace[trace.len() - 1] == trace.last());
    }
}

/// In an ascending report no key occurs twice.
pub proof fn law_report_has_no_duplicates(report: Seq<FindingView>, i: int, j: int)
    requires
        ascending(report),
        0 <= i < report.len(),
        0 <= j < report.len(),
        i != j,
    ensures
        key_of(report[i]) != key_of(report[j]),
{
    lemma_key_order_total(key_of(report[i]), key_of(report[j]));
    if i < j {
        assert(key_precedes(key_of(report[i]), key_of(report[j])));
    } else {
        assert(key_precedes(key_of(report[j]), key_of(report[i])));
    }
}

/// Every finding of a report on the page's events is a read that stands at
/// or behind the first `DocumentStart` of the trace: what the engine did
/// before the page's scripts started is not reported.
pub proof fn law_findings_follow_document_start(
    report: Seq<FindingView>,
    trace: Seq<Event>,
    k: int,
)
    requires
        is_report_of(report, page_events(trace)),
        0 <= k < report.len(),
    ensures
        exists|i: int|
            document_start(trace, 0) <= i < trace.len() && (#[trigger] trace[i])
                is UndefinedProperty && trace[i]->UndefinedProperty_name == report[k].name
                && trace[i]->UndefinedProperty_stack_trace == report[k].stack_trace,
{
    let page = page_events(trace);
    let key = key_of(report[k]);
    assert(reports(report, key));
    assert(reads_undefined(page, key));
    let i = choose|i: int|
        0 <= i < page.len() && (#[trigger] page[i]) is UndefinedProperty
            && page[i]->UndefinedProperty_name == key.0
            && page[i]->UndefinedProperty_stack_trace == key.1;
    lemma_document_start_bounds(trace, 0);
    let at = document_start(trace, 0) + i;
    assert(trace[at] == page[i]);
}

/// The first `DocumentStart` lies inside the trace or at its end.
pub proof fn lemma_document_start_bounds(trace: Seq<Event>, from: int)
    requires
        0 <= from <= trace.len(),
    ensures
        from <= document_start(trace, from) <= trace.len(),
        document_start(trace, from) < trace.len() ==> trace[document_start(trace, from)]
            is DocumentStart,
        forall|i: int| from <= i < document_start(trace, from) ==> !((#[trigger] trace[i])
            is DocumentStart),
    decreases trace.len() - from,
{
    if from < trace.len() && !(trace[from] is DocumentStart) {
        lemma_document_start_bounds(trace, from + 1);
    }
}

/// A trace without a `DocumentStart` has an empty report.
pub proof fn law_no_document_start_no_findings(report: Seq<FindingView>, trace: Seq<Event>)
    requires
        is_report_of(report, page_events(trace)),
        forall|i: int| 0 <= i < trace.len() ==> !((#[trigger] trace[i]) is DocumentStart),
    ensures
        report.len() == 0,
{
    lemma_document_start_bounds(trace, 0);
    if report.len() > 0 {
        assert(reports(report, key_of(report[0])));
    }
}

/// A trace has one report: the order and the keys leave no choice.
pub proof fn law_report_is_unique(a: Seq<FindingView>, b: Seq<FindingView>, trace: Seq<Event>)
    requires
        is_report_of(a, trace),
        is_report_of(b, trace),
    ensures
        a == b,
{
    assert forall|key: Key| reports(a, key) <==> reports(b, key) by {}
    lemma_same_keys_same_report(a, b);
}

proof fn lemma_same_keys_same_report(a: Seq<FindingView>, b: Seq<FindingView>)
    requires
        ascending(a),
        ascending(b),
        located_all(a),
        located_all(b),
        forall|key: Key| reports(a, key) <==> reports(b, key),
    ensures
        a == b,
    decreases a.len(),
{
    if a.len() == 0 {
        if b.len() > 0 {
            assert(reports(b, key_of(b[0])));
        }
        assert(a =~= b);
    } else if b.len() == 0 {
        assert(reports(a, key_of(a[0])));
    } else {
        lemma_first_is_least(a, b);
        lemma_first_is_least(b, a);
        lemma_key_order_total(key_of(a[0]), key_of(b[0]));
        assert(key_of(a[0]) == key_of(b[0]));
        let rest_a = a.drop_first();
        let rest_b = b.drop_first();
        assert forall|key: Key| reports(rest_a, key) <==> reports(rest_b, key) by {
            lemma_rest_reports(a, key);
            lemma_rest_reports(b, key);
        }
        lemma_same_keys_same_report(rest_a, rest_b);
        assert(a[0] == b[0]);
        assert(a =~= seq![a[0]] + rest_a);
        assert(b =~= seq![b[0]] + rest_b);
    }
}

/// The first key of an ascending report does not come behind any key of a
/// report with the same keys.
proof fn lemma_first_is_least(a: Seq<FindingView>, b: Seq<FindingView>)
    requires
        ascending(a),
        a.len() > 0,
        b.len() > 0,
        forall|key: Key| reports(a, key) <==> reports(b, key),
    ensures
        !key_precedes(key_of(b[0]), key_of(a[0])),
{
    assert(reports(b, key_of(b[0])));
    let i = choose|i: int| 0 <= i < a.len() && key_of(#[trigger] a[i]) == key_of(b[0]);
    lemma_key_order_total(key_of(a[0]), key_of(b[0]));
    if i > 0 {
        assert(key_precedes(key_of(a[0]), key_of(a[i])));
    }
}

/// Behind the first finding of an ascending report stand the findings with
/// the other keys.
proof fn lemma_rest_reports(a: Seq<FindingView>, key: Key)
    requires
        ascending(a),
        a.len() > 0,
    ensures
        ascending(a.drop_first()),
        located_all(a) ==> located_all(a.drop_first()),
        reports(a.drop_first(), key) <==> (reports(a, key) && key != key_of(a[0])),
{
    let rest = a.drop_first();
    assert forall|i: int, j: int| 0 <= i < j < rest.len() implies key_precedes(
        key_of(#[trigger] rest[i]),
        key_of(#[trigger] rest[j]),
    ) by {
        assert(rest[i] == a[i + 1] && rest[j] == a[j + 1]);
    }
    if located_all(a) {
        assert forall|i: int| 0 <= i < rest.len() implies (#[trigger] rest[i]).location
            == location_of(rest[i].stack_trace) by {
            assert(rest[i] == a[i + 1]);
        }
    }
    if reports(rest, key) {
        let i = choose|i: int| 0 <= i < rest.len() && key_of(#[trigger] rest[i]) == key;
        assert(rest[i] == a[i + 1]);
        assert(key_precedes(key_of(a[0]), key_of(a[i + 1])));
        lemma_key_order_total(key_of(a[0]), key);
    }
    if reports(a, key) && key != key_of(a[0]) {
        let i = choose|i: int| 0 <= i < a.len() && key_of(#[trigger] a[i]) == key;
        assert(rest[i - 1] == a[i]);
    }
}

// ----- pollution and sinks -----
pub const CLASS_OBJECT: &'static str = "Object";

pub const CLASS_ARRAY: &'static str = "Array";

pub const CLASS_FUNCTION: &'static str = "Function";

/// Whether a class is one that the engine itself writes to all the time:
/// `Object`, `Array` or `Function`.
pub open spec fn is_builtin_class(class_name: Seq<char>) -> bool {
    class_name == CLASS_OBJECT@ || class_name == CLASS_ARRAY@ || class_name == CLASS_FUNCTION@
}

/// Whether an event belongs to a path from pollution to a sink: a sink that
/// was reached, or an assignment under a tainted key on an object that is
/// of no built-in class.
pub open spec fn is_sink_related(event: Event) -> bool {
    match event {
        Event::AssignTaintedKey { class_name, .. } => !is_builtin_class(class_name),
        Event::SinkReached { .. } => true,
        _ => false,
    }
}

/// The sink-related events of the page, in the order of the trace.
pub open spec fn sink_related(trace: Seq<Event>) -> Seq<Event> {
    page_events(trace).filter(|e: Event| is_sink_related(e))
}

/// Whether `at` names places in `whole`, one for each event of `part`, that
/// rise from one to the next and hold the events of `part`.
pub open spec fn selects(at: Seq<int>, part: Seq<Event>, whole: Seq<Event>) -> bool {
    &&& at.len() == part.len()
    &&& forall|k: int| 0 <= k < at.len() ==> 0 <= (#[trigger] at[k]) < whole.len() && whole[at[k]] == part[k]
    &&& forall|k: int, l: int| 0 <= k < l < at.len() ==> (#[trigger] at[k]) < (#[trigger] at[l])
}

/// What a filter keeps stands in the order in which it stood before.
pub proof fn lemma_filter_keeps_order(whole: Seq<Event>, keep: spec_fn(Event) -> bool) -> (at: Seq<
    int,
>)
    ensures
        selects(at, whole.filter(keep), whole),
    decreases whole.len(),
{
    reveal(Seq::filter);
    if whole.len() == 0 {
        Seq::empty()
    } else {
        let shorter = whole.drop_last();
        let at = lemma_filter_keeps_order(shorter, keep);
        assert forall|k: int| 0 <= k < at.len() implies whole[#[trigger] at[k]] == shorter[at[k]] by {}
        if keep(whole.last()) {
            at.push(whole.len() - 1)
        } else {
            at
        }
    }
}

/// The sink-related events are events of the page, each is a sink or a
/// write on an object of no built-in class, and they stand in the order of
/// the trace: `at` names the place of each in the trace.
pub proof fn law_sink_related_keeps_order(trace: Seq<Event>) -> (at: Seq<int>)
    ensures
        selects(at, sink_related(trace), trace),
        forall|k: int|
            0 <= k < at.len() ==> document_start(trace, 0) <= (#[trigger] at[k]) && is_sink_related(
                trace[at[k]],
            ),
{
    let page = page_events(trace);
    let keep = |e: Event| is_sink_related(e);
    let local = lemma_filter_keeps_order(page, keep);
    lemma_document_start_bounds(trace, 0);
    let start = document_start(trace, 0);
    let at = local.map_values(|i: int| start + i);
    assert forall|k: int| 0 <= k < at.len() implies start <= (#[trigger] at[k]) < trace.len()
        && trace[at[k]] == sink_related(trace)[k] && is_sink_related(trace[at[k]]) by {
        assert(at[k] == start + local[k]);
        assert(page[local[k]] == trace[start + local[k]]);
        page.lemma_filter_pred(keep, k);
    }
    assert forall|k: int, l: int| 0 <= k < l < at.len() implies (#[trigger] at[k]) < (
    #[trigger] at[l]) by {
        assert(local[k] < local[l]);
    }
    at
}

/// Every sink-related event of the page is kept: a sink that was reached
/// behind the first `DocumentStart`, or a write under a tainted key on an
/// object of no built-in class, is among the sink-related events.
pub proof fn law_sink_related_keeps_all(trace: Seq<Event>, i: int)
    requires
        document_start(trace, 0) <= i < trace.len(),
        is_sink_related(trace[i]),
    ensures
        sink_related(trace).contains(trace[i]),
{
    let page = page_events(trace);
    let keep = |e: Event| is_sink_related(e);
    lemma_document_start_bounds(trace, 0);
    let local = i - document_start(trace, 0);
    assert(page[local] == trace[i]);
    page.lemma_filter_contains(keep, local);
}

/// The events that a sequence of borrowed messages stands for.
pub open spec fn events_of_refs(messages: Seq<&LogMessage>) -> Seq<Event> {
    messages.map_values(|m: &LogMessage| m@)
}

/// Whether a message belongs to a path from pollution to a sink.
pub fn is_sink_related_message(message: &LogMessage) -> (r: bool)
    ensures
        r == is_sink_related(message@),
{
    match message {
        LogMessage::AssignTaintedKey { class_name, .. } => {
            let class_name = class_name.as_str();
            !(text_eq(class_name, CLASS_OBJECT) || text_eq(class_name, CLASS_ARRAY) || text_eq(
                class_name,
                CLASS_FUNCTION,
            ))
        },
        LogMessage::SinkReached { .. } => true,
        _ => false,
    }
}

/// Keeps the messages that belong to a path from pollution to a sink: every
/// sink that was reached, and every assignment under a tainted key but
/// those on `Object`, `Array` and `Function`. The messages keep the order
/// of the trace, and none is dropped for being like another. Messages
/// before the first `DocumentStart` are left out.
pub fn retain_sink_related_log_entries(log: &SiteLog) -> (kept: Vec<&LogMessage>)
    ensures
        events_of_refs(kept@) == sink_related(log@),
{
    let start: usize = find_document_start(log);
    let ghost trace = log@;
    let mut kept: Vec<&LogMessage> = Vec::new();
    let mut i: usize = start;
    assert(trace.subrange(start as int, start as int) =~= Seq::<Event>::empty());
    while i < log.messages.len()
        invariant
            start <= i <= log.messages.len(),
            trace == log@,
            trace.len() == log.messages.len(),
            events_of_refs(kept@) == trace.subrange(start as int, i as int).filter(
                |e: Event| is_sink_related(e),
            ),
        decreases log.messages.len() - i,
    {
        let ghost seen = trace.subrange(start as int, i as int);
        let ghost more = trace.subrange(start as int, i + 1);
        let ghost before = events_of_refs(kept@);
        let message = &log.messages[i];
        proof {
            assert(more =~= seen.push(message@));
            seen.lemma_filter_push(message@, |e: Event| is_sink_related(e));
        }
        if is_sink_related_message(message) {
            kept.push(message);
            assert(events_of_refs(kept@) =~= before.push(message@));
        }
        i += 1;
    }
    assert(trace.subrange(start as int, i as int) =~= page_events(trace));
    kept
}

} // verus!
