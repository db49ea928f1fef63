//! The matching engine driven as a host framework would drive it:
//! callsites registered, spans created, entered, recorded and exited,
//! events checked for enablement. A site is delivered when its callsite
//! interest is not `Never` and the filter enables it right now.

use tracing_filter::legacy::matcher::FieldValue;
use tracing_filter::legacy::{Caches, Filter, Interest, ScopeStack, SiteInfo};
use tracing_filter::Level;

struct Host {
    filter: Filter,
    caches: Caches,
    scope: ScopeStack,
    next_span: u64,
}

fn host(filter: Filter) -> Host {
    Host {
        filter,
        caches: Caches::new(),
        scope: ScopeStack::new(),
        next_span: 1,
    }
}

fn event_site(id: u64, target: &str, level: Level, fields: &[&str]) -> SiteInfo {
    SiteInfo {
        id,
        name: "event".to_string(),
        target: target.to_string(),
        level,
        is_span: false,
        fields: fields.iter().map(|f| f.to_string()).collect(),
    }
}

fn span_site(id: u64, name: &str, target: &str, level: Level, fields: &[&str]) -> SiteInfo {
    SiteInfo {
        id,
        name: name.to_string(),
        target: target.to_string(),
        level,
        is_span: true,
        fields: fields.iter().map(|f| f.to_string()).collect(),
    }
}

fn bools(pairs: &[(&str, bool)]) -> Vec<(String, FieldValue)> {
    pairs
        .iter()
        .map(|(n, v)| (n.to_string(), FieldValue::Bool(*v)))
        .collect()
}

fn ints(pairs: &[(&str, i64)]) -> Vec<(String, FieldValue)> {
    pairs
        .iter()
        .map(|(n, v)| (n.to_string(), FieldValue::I64(*v)))
        .collect()
}

impl Host {
    fn delivered(&mut self, site: &SiteInfo) -> bool {
        let interest = self.filter.callsite_enabled(site, &mut self.caches);
        interest != Interest::Never && self.filter.enabled(site, &self.caches, &self.scope)
    }

    /// A span macro: the span is created only when it is delivered.
    fn new_span(&mut self, site: &SiteInfo, values: Vec<(String, FieldValue)>) -> Option<u64> {
        if self.delivered(site) {
            let id = self.next_span;
            self.next_span += 1;
            self.filter.on_new_span(site, &values, id, &mut self.caches);
            Some(id)
        } else {
            None
        }
    }

    fn enter(&mut self, id: u64) {
        self.filter.on_enter(id, &mut self.caches, &mut self.scope);
    }

    fn exit(&mut self, id: u64) {
        self.filter.on_exit(id, &self.caches, &mut self.scope);
    }

    fn record(&mut self, id: u64, values: Vec<(String, FieldValue)>) {
        self.filter.on_record(id, &values, &mut self.caches);
    }
}

#[test]
fn field_filter_events() {
    let filter = Filter::new("[{thing}]=debug");
    let mut h = host(filter);
    assert!(!h.delivered(&event_site(1, "app", Level::Trace, &["disabled"])));
    assert!(!h.delivered(&event_site(2, "app", Level::Info, &[])));
    assert!(h.delivered(&event_site(3, "app", Level::Info, &["thing"])));
    assert!(h.delivered(&event_site(4, "app", Level::Debug, &["thing"])));
    assert!(!h.delivered(&event_site(5, "app", Level::Trace, &["thing"])));
}

#[test]
fn field_filter_spans() {
    let filter = Filter::new("[{enabled=true}]=debug");
    let mut h = host(filter);
    assert!(!h.delivered(&event_site(1, "app", Level::Trace, &[])));
    assert!(!h.delivered(&event_site(2, "app", Level::Info, &[])));

    let span1 = h
        .new_span(
            &span_site(10, "span1", "app", Level::Info, &["enabled"]),
            bools(&[("enabled", true)]),
        )
        .expect("span1 should be created");
    h.enter(span1);
    assert!(h.delivered(&event_site(3, "app", Level::Info, &["something"])));
    h.exit(span1);

    let span2 = h
        .new_span(
            &span_site(11, "span2", "app", Level::Debug, &["enabled", "foo"]),
            bools(&[("enabled", false)]),
        )
        .expect("span2 should be created");
    h.enter(span2);
    assert!(!h.delivered(&event_site(4, "app", Level::Warn, &["something"])));
    h.exit(span2);

    let span3 = h.new_span(
        &span_site(12, "span3", "app", Level::Trace, &["enabled", "answer"]),
        bools(&[("enabled", true)]),
    );
    assert!(span3.is_none(), "a trace-level span is not enabled here");
}

#[test]
fn record_after_created() {
    let filter = Filter::new("[{enabled=true}]=debug");
    let mut h = host(filter);

    let span = h
        .new_span(
            &span_site(10, "span", "app", Level::Debug, &["enabled"]),
            bools(&[("enabled", false)]),
        )
        .expect("span should be created");

    h.enter(span);
    assert!(!h.delivered(&event_site(1, "app", Level::Debug, &[])));
    h.exit(span);

    h.record(span, bools(&[("enabled", true)]));

    h.enter(span);
    assert!(h.delivered(&event_site(2, "app", Level::Debug, &[])));
    h.exit(span);

    assert!(!h.delivered(&event_site(3, "app", Level::Debug, &[])));
}

#[test]
fn level_filter_event() {
    let filter = Filter::new("info");
    let mut h = host(filter);
    assert!(!h.delivered(&event_site(1, "app", Level::Trace, &[])));
    assert!(h.delivered(&event_site(2, "app", Level::Info, &[])));
    assert!(!h.delivered(&event_site(3, "foo", Level::Debug, &[])));
    assert!(h.delivered(&event_site(4, "foo", Level::Warn, &[])));
    assert!(h.delivered(&event_site(5, "app", Level::Error, &[])));
}

#[test]
fn same_name_spans() {
    let filter = Filter::new("[foo{bar}]=trace,[foo{baz}]=trace");
    let mut h = host(filter);
    let s1 = h
        .new_span(
            &span_site(10, "foo", "app", Level::Trace, &["bar"]),
            ints(&[("bar", 1)]),
        )
        .expect("span with bar should be created");
    h.enter(s1);
    h.exit(s1);
    let s2 = h
        .new_span(
            &span_site(11, "foo", "app", Level::Trace, &["baz"]),
            ints(&[("baz", 1)]),
        )
        .expect("span with baz should be created");
    h.enter(s2);
    h.exit(s2);
}

#[test]
fn level_filter_event_with_target() {
    let filter = Filter::new("info,stuff=debug");
    let mut h = host(filter);
    assert!(!h.delivered(&event_site(1, "app", Level::Trace, &[])));
    assert!(h.delivered(&event_site(2, "app", Level::Info, &[])));
    assert!(h.delivered(&event_site(3, "stuff", Level::Debug, &[])));
    assert!(!h.delivered(&event_site(4, "app", Level::Debug, &[])));
    assert!(!h.delivered(&event_site(5, "stuff", Level::Trace, &[])));
    assert!(h.delivered(&event_site(6, "stuff", Level::Warn, &[])));
    assert!(h.delivered(&event_site(7, "app", Level::Error, &[])));
    assert!(h.delivered(&event_site(8, "stuff", Level::Error, &[])));
}

#[test]
fn not_order_dependent() {
    let filter = Filter::new("stuff=debug,info");
    let mut h = host(filter);
    assert!(!h.delivered(&event_site(1, "app", Level::Trace, &[])));
    assert!(h.delivered(&event_site(2, "app", Level::Info, &[])));
    assert!(h.delivered(&event_site(3, "stuff", Level::Debug, &[])));
    assert!(!h.delivered(&event_site(4, "app", Level::Debug, &[])));
    assert!(!h.delivered(&event_site(5, "stuff", Level::Trace, &[])));
    assert!(h.delivered(&event_site(6, "stuff", Level::Warn, &[])));
    assert!(h.delivered(&event_site(7, "app", Level::Error, &[])));
    assert!(h.delivered(&event_site(8, "stuff", Level::Error, &[])));
}

#[test]
fn span_name_filter_is_dynamic() {
    let filter = Filter::new("info,[cool_span]=debug");
    let mut h = host(filter);
    assert!(!h.delivered(&event_site(1, "app", Level::Trace, &[])));
    assert!(h.delivered(&event_site(2, "app", Level::Info, &[])));

    let cool = h
        .new_span(&span_site(10, "cool_span", "app", Level::Info, &[]), vec![])
        .expect("cool_span should be created");
    let uncool = h
        .new_span(
            &span_site(11, "uncool_span", "app", Level::Info, &[]),
            vec![],
        )
        .expect("uncool_span should be created");

    h.enter(cool);
    assert!(h.delivered(&event_site(3, "app", Level::Debug, &[])));
    assert!(!h.delivered(&event_site(4, "app", Level::Trace, &[])));
    h.enter(uncool);
    assert!(h.delivered(&event_site(5, "app", Level::Warn, &[])));
    assert!(h.delivered(&event_site(6, "app", Level::Debug, &[])));
    h.exit(uncool);
    h.exit(cool);

    h.enter(uncool);
    assert!(h.delivered(&event_site(7, "app", Level::Warn, &[])));
    assert!(!h.delivered(&event_site(8, "app", Level::Trace, &[])));
    assert!(h.delivered(&event_site(9, "app", Level::Error, &[])));
    h.exit(uncool);
}

#[test]
fn same_length_targets() {
    let filter = Filter::new("foo=trace,bar=trace");
    let mut h = host(filter);
    assert!(h.delivered(&event_site(1, "foo", Level::Trace, &[])));
    assert!(h.delivered(&event_site(2, "bar", Level::Trace, &[])));
}

#[test]
fn same_num_fields_event() {
    let filter = Filter::new("[{foo}]=trace,[{bar}]=trace");
    let mut h = host(filter);
    assert!(h.delivered(&event_site(1, "app", Level::Trace, &["foo"])));
    assert!(h.delivered(&event_site(2, "app", Level::Trace, &["bar"])));
}

#[test]
fn same_num_fields_and_name_len() {
    let filter = Filter::new("[foo{bar=1}]=trace,[baz{boz=1}]=trace");
    let mut h = host(filter);
    let s1 = h
        .new_span(
            &span_site(10, "foo", "app", Level::Trace, &["bar"]),
            ints(&[("bar", 1)]),
        )
        .expect("foo span should be created");
    h.enter(s1);
    h.exit(s1);
    let s2 = h
        .new_span(
            &span_site(11, "baz", "app", Level::Trace, &["boz"]),
            ints(&[("boz", 1)]),
        )
        .expect("baz span should be created");
    h.enter(s2);
    h.exit(s2);
}
