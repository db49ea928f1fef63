//! Scenario checks for the documented behavior: specificity, the
//! static projection, sticky field matches, recovery from bad clauses,
//! locations of reported errors, and the canonical text.

use tracing_filter::diagnostics::{IgnoredDirective, SourceRange};
use tracing_filter::legacy::directive::StaticDirective;
use tracing_filter::legacy::matcher::FieldValue;
use tracing_filter::legacy::{Caches, Filter, Interest, ScopeStack, SiteInfo};
use tracing_filter::Level;

fn event_site(id: u64, target: &str, level: Level, fields: &[&str]) -> SiteInfo {
    SiteInfo {
        id,
        name: "event".to_string(),
        target: target.to_string(),
        level,
        is_span: false,
        fields: fields.iter().map(|f| f.to_string()).collect(),
    }
}

fn span_site(id: u64, name: &str, target: &str, level: Level, fields: &[&str]) -> SiteInfo {
    SiteInfo {
        id,
        name: name.to_string(),
        target: target.to_string(),
        level,
        is_span: true,
        fields: fields.iter().map(|f| f.to_string()).collect(),
    }
}

fn enabled_now(filter: &Filter, site: &SiteInfo) -> bool {
    let caches = Caches::new();
    let scope = ScopeStack::new();
    filter.enabled(site, &caches, &scope)
}

#[test]
fn longest_target_wins() {
    let filter = Filter::new("foo::bar=debug,foo=info");
    // the most specific matching prefix decides
    assert!(enabled_now(
        &filter,
        &event_site(1, "foo::bar::baz", Level::Debug, &[])
    ));
    assert!(!enabled_now(
        &filter,
        &event_site(2, "foo::other", Level::Debug, &[])
    ));
    assert!(enabled_now(
        &filter,
        &event_site(3, "foo::other", Level::Info, &[])
    ));
}

#[test]
fn field_presence_directive_is_static_convertible() {
    let (filter, diagnostics) = Filter::parse("[{thing}]=debug");
    assert!(diagnostics.is_none());
    // the directive is dynamic, but its projection gates plain events
    assert_eq!(filter.dynamics.directives.len(), 1);
    let expected = StaticDirective {
        target: None,
        fields: vec!["thing".to_string()],
        level: Level::Debug,
    };
    assert_eq!(filter.statics.directives, vec![expected]);
    assert!(enabled_now(
        &filter,
        &event_site(1, "app", Level::Debug, &["thing"])
    ));
    assert!(!enabled_now(
        &filter,
        &event_site(2, "app", Level::Debug, &["other"])
    ));
}

#[test]
fn sticky_field_match_persists() {
    let filter = Filter::new("[{enabled=true}]=debug");
    let mut caches = Caches::new();
    let mut scope = ScopeStack::new();
    let site = span_site(10, "span", "app", Level::Debug, &["enabled"]);
    let interest = filter.callsite_enabled(&site, &mut caches);
    assert_eq!(interest, Interest::Always);
    let values = vec![("enabled".to_string(), FieldValue::Bool(false))];
    filter.on_new_span(&site, &values, 1, &mut caches);

    let event = event_site(20, "app", Level::Debug, &[]);

    filter.on_enter(1, &mut caches, &mut scope);
    assert!(!filter.enabled(&event, &caches, &scope));
    filter.on_exit(1, &caches, &mut scope);

    let now_true = vec![("enabled".to_string(), FieldValue::Bool(true))];
    filter.on_record(1, &now_true, &mut caches);

    filter.on_enter(1, &mut caches, &mut scope);
    assert!(filter.enabled(&event, &caches, &scope));
    filter.on_exit(1, &caches, &mut scope);

    // a later record that no longer matches does not un-satisfy it
    let back_false = vec![("enabled".to_string(), FieldValue::Bool(false))];
    filter.on_record(1, &back_false, &mut caches);

    filter.on_enter(1, &mut caches, &mut scope);
    assert!(filter.enabled(&event, &caches, &scope));
    filter.on_exit(1, &caches, &mut scope);

    filter.on_close(1, &mut caches);
    assert!(!filter.cares_about_span(1, &caches));
}

#[test]
fn scope_stack_propagation() {
    let filter = Filter::new("info,[cool_span]=debug");
    let mut caches = Caches::new();
    let mut scope = ScopeStack::new();

    let cool = span_site(10, "cool_span", "app", Level::Info, &[]);
    let sibling = span_site(11, "plain_span", "app", Level::Info, &[]);
    filter.callsite_enabled(&cool, &mut caches);
    filter.callsite_enabled(&sibling, &mut caches);
    filter.on_new_span(&cool, &vec![], 1, &mut caches);
    filter.on_new_span(&sibling, &vec![], 2, &mut caches);

    let event = event_site(20, "app", Level::Debug, &[]);

    filter.on_enter(1, &mut caches, &mut scope);
    assert!(filter.enabled(&event, &caches, &scope));
    filter.on_exit(1, &caches, &mut scope);

    filter.on_enter(2, &mut caches, &mut scope);
    assert!(!filter.enabled(&event, &caches, &scope));
    filter.on_exit(2, &caches, &mut scope);
}

#[test]
fn ignored_directive_recovery() {
    let (filter, diagnostics) = Filter::parse("crate1::mod1=noNumber,crate2=debug");
    // exactly one directive is retained
    assert_eq!(filter.dynamics.directives.len(), 0);
    assert_eq!(filter.statics.directives.len(), 1);
    assert_eq!(filter.statics.directives[0].target, Some("crate2".into()));
    assert_eq!(filter.statics.directives[0].level, Level::Debug);
    // and exactly one located warning is reported
    let diagnostics = diagnostics.expect("one clause should be reported");
    assert!(!diagnostics.is_error());
    assert!(diagnostics.is_warning());
    assert_eq!(diagnostics.ignored.len(), 1);
    assert_eq!(
        diagnostics.ignored[0],
        IgnoredDirective::InvalidLevel {
            span: SourceRange { start: 13, end: 21 }
        }
    );
    assert_eq!(diagnostics.source, "crate1::mod1=noNumber,crate2=debug");
}

#[test]
fn unclosed_span_directive() {
    let (filter, diagnostics) = Filter::parse("app[unterminated");
    // nothing is retained: only the baseline error rule remains
    assert_eq!(filter.dynamics.directives.len(), 0);
    let baseline = StaticDirective {
        target: None,
        fields: vec![],
        level: Level::Error,
    };
    assert_eq!(filter.statics.directives, vec![baseline]);
    let diagnostics = diagnostics.expect("the clause should be reported");
    assert_eq!(diagnostics.ignored.len(), 1);
    assert_eq!(
        diagnostics.ignored[0],
        IgnoredDirective::UnclosedSpan {
            open: SourceRange { start: 3, end: 4 },
            close: SourceRange { start: 16, end: 16 },
        }
    );
}

#[test]
fn canonical_display_text() {
    let filter = Filter::new("info,[cool_span]=debug");
    assert_eq!(filter.display(), "info,[cool_span]=debug");

    let filter = Filter::new("foo=warn");
    assert_eq!(filter.display(), "foo=warn");

    let filter = Filter::new("[{x=42}]=info");
    assert_eq!(filter.display(), "[{x=42}]=info");

    let filter = Filter::new("[{n=-7}]");
    assert_eq!(filter.display(), "[{n=-7}]=trace");
}

#[test]
fn pattern_values_match_text() {
    let filter = Filter::new("[{name=bob}]=debug");
    let mut caches = Caches::new();
    let mut scope = ScopeStack::new();
    let site = span_site(10, "span", "app", Level::Debug, &["name"]);
    assert_eq!(filter.callsite_enabled(&site, &mut caches), Interest::Always);

    let event = event_site(20, "app", Level::Debug, &[]);

    // a matching recorded text satisfies the pattern
    let bob = vec![("name".to_string(), FieldValue::Str("bob".to_string()))];
    filter.on_new_span(&site, &bob, 1, &mut caches);
    filter.on_enter(1, &mut caches, &mut scope);
    assert!(filter.enabled(&event, &caches, &scope));
    filter.on_exit(1, &caches, &mut scope);

    // a non-matching one does not
    let alice = vec![("name".to_string(), FieldValue::Str("alice".to_string()))];
    filter.on_new_span(&site, &alice, 2, &mut caches);
    filter.on_enter(2, &mut caches, &mut scope);
    assert!(!filter.enabled(&event, &caches, &scope));
    filter.on_exit(2, &caches, &mut scope);
}

#[test]
fn invalid_pattern_is_reported() {
    let (filter, diagnostics) = Filter::parse("[{x=(}]=debug,crate2=debug");
    assert_eq!(filter.statics.directives.len(), 1);
    assert_eq!(filter.statics.directives[0].target, Some("crate2".into()));
    let diagnostics = diagnostics.expect("the bad pattern should be reported");
    assert_eq!(diagnostics.ignored.len(), 1);
    match &diagnostics.ignored[0] {
        IgnoredDirective::InvalidRegex { span, .. } => {
            assert_eq!(*span, SourceRange { start: 4, end: 5 });
        }
        other => panic!("expected an invalid pattern report, got {:?}", other),
    }
}

#[test]
fn numeric_and_empty_levels() {
    let filter = Filter::new("+3");
    assert_eq!(filter.statics.directives[0].level, Level::Info);

    let filter = Filter::new("05");
    assert_eq!(filter.statics.directives[0].level, Level::Trace);

    // an empty specification reads as a bare `error` rule
    let (filter, diagnostics) = Filter::parse("");
    assert!(diagnostics.is_none());
    assert_eq!(filter.statics.directives[0].level, Level::Error);
    assert_eq!(filter.statics.directives[0].target, None);
}

#[test]
fn max_level_hint_accounts_for_value_filters() {
    let filter = Filter::new("info");
    assert_eq!(filter.max_level_hint(), Some(Level::Info));

    let filter = Filter::new("warn,[cool_span]=debug");
    assert_eq!(filter.max_level_hint(), Some(Level::Debug));

    // a value predicate can only be judged once values are recorded
    let filter = Filter::new("warn,[{enabled=true}]=debug");
    assert_eq!(filter.max_level_hint(), Some(Level::Trace));
}

#[test]
fn no_ceiling_advisory_under_a_full_build() {
    // this build has no compiled-in ceiling, so nothing can be moot
    let (_, diagnostics) = Filter::parse("foo=trace");
    assert!(diagnostics.is_none());
}

#[test]
fn ceiling_advisory_reports_moot_directives() {
    let (_, diagnostics) = Filter::parse_with_ceiling("foo=debug,bar=error", Level::Warn);
    let diagnostics = diagnostics.expect("one directive is moot");
    let disabled = diagnostics.disabled.expect("the advisory should be present");
    assert_eq!(disabled.directives.len(), 1);
    assert_eq!(disabled.directives[0].directive, "foo=debug");
    assert_eq!(disabled.directives[0].level, Level::Debug);
    assert_eq!(disabled.directives[0].target, "the `foo` target");
    let advice = disabled.static_max.expect("the feature advice names the ceiling");
    assert_eq!(advice.static_level, Level::Warn);
    assert_eq!(advice.earlier_level, Some(Level::Info));
    assert_eq!(advice.feature, "max_level_warn");
}
