//! Directive parsing and ordering, driven through the public API.

use tracing_filter::legacy::directive::{Dynamics, DynamicDirective};
use tracing_filter::legacy::{Caches, Filter, Interest, SiteInfo};
use tracing_filter::Level;

fn parse_directives(dirs: &str) -> Vec<DynamicDirective> {
    dirs.split(',').filter_map(|s| s.parse().ok()).collect()
}

fn expect_parse(dirs: &str) -> Vec<DynamicDirective> {
    dirs.split(',')
        .map(|s| {
            s.parse()
                .unwrap_or_else(|err| panic!("directive '{:?}' should parse: {:?}", s, err))
        })
        .collect()
}

fn into_set(dirs: Vec<DynamicDirective>) -> Dynamics {
    let mut set = Dynamics::empty();
    for d in dirs {
        set.add(d);
    }
    set
}

fn span_site(id: u64, name: &str, target: &str, level: Level, fields: &[&str]) -> SiteInfo {
    SiteInfo {
        id,
        name: name.to_string(),
        target: target.to_string(),
        level,
        is_span: true,
        fields: fields.iter().map(|f| f.to_string()).collect(),
    }
}

#[test]
fn callsite_enabled_no_span_directive() {
    let filter = Filter::new("app=debug");
    let mut caches = Caches::new();
    let meta = span_site(1, "mySpan", "app", Level::Trace, &[]);
    let interest = filter.callsite_enabled(&meta, &mut caches);
    assert_eq!(interest, Interest::Never);
}

#[test]
fn callsite_off() {
    let filter = Filter::new("app=off");
    let mut caches = Caches::new();
    let meta = span_site(1, "mySpan", "app", Level::Error, &[]);
    let interest = filter.callsite_enabled(&meta, &mut caches);
    assert_eq!(interest, Interest::Never);
}

#[test]
fn callsite_enabled_includes_span_directive() {
    let filter = Filter::new("app[mySpan]=debug");
    let mut caches = Caches::new();
    let meta = span_site(1, "mySpan", "app", Level::Trace, &[]);
    let interest = filter.callsite_enabled(&meta, &mut caches);
    assert_eq!(interest, Interest::Always);
}

#[test]
fn callsite_enabled_includes_span_directive_field() {
    let filter = Filter::new("app[mySpan{field=\"value\"}]=debug");
    let mut caches = Caches::new();
    let meta = span_site(1, "mySpan", "app", Level::Trace, &["field"]);
    let interest = filter.callsite_enabled(&meta, &mut caches);
    assert_eq!(interest, Interest::Always);
}

#[test]
fn roundtrip() {
    let f1: Filter = "[span1{foo=1}]=error,[span2{bar=2 baz=false}],crate2[{quux=\"quuux\"}]=debug"
        .parse()
        .unwrap();
    let f2: Filter = f1.display().parse().unwrap();
    assert_eq!(f1.statics, f2.statics);
    assert_eq!(f1.dynamics, f2.dynamics);
}

#[test]
fn directive_ordering_by_target_len() {
    let dirs = into_set(expect_parse(
        "foo::bar=debug,foo::bar::baz=trace,foo=info,a_really_long_name_with_no_colons=warn",
    ));

    let expected = vec![
        "a_really_long_name_with_no_colons",
        "foo::bar::baz",
        "foo::bar",
        "foo",
    ];
    let sorted = dirs
        .directives
        .iter()
        .map(|d| d.target.as_deref().unwrap())
        .collect::<Vec<_>>();

    assert_eq!(expected, sorted);
}

#[test]
fn directive_ordering_by_span() {
    let dirs = into_set(expect_parse("bar[span]=trace,foo=debug,baz::quux=info,a[span]=warn"));

    let expected = vec!["baz::quux", "bar", "foo", "a"];
    let sorted = dirs
        .directives
        .iter()
        .map(|d| d.target.as_deref().unwrap())
        .collect::<Vec<_>>();

    assert_eq!(expected, sorted);
}

#[test]
fn directive_ordering_uses_lexicographic_when_equal() {
    let dirs = into_set(expect_parse("span[b]=debug,b=debug,a=trace,c=info,span[a]=info"));

    let expected = vec![
        ("span", Some("b")),
        ("span", Some("a")),
        ("c", None),
        ("b", None),
        ("a", None),
    ];
    let sorted = dirs
        .directives
        .iter()
        .map(|d| (d.target.as_deref().unwrap(), d.span.as_deref()))
        .collect::<Vec<_>>();

    assert_eq!(expected, sorted);
}

#[test]
fn parse_directives_ralith() {
    let dirs = parse_directives("common=trace,server=trace");
    assert_eq!(dirs.len(), 2, "\nparsed: {:#?}", dirs);
    assert_eq!(dirs[0].target, Some("common".into()));
    assert_eq!(dirs[0].level, Level::Trace);
    assert_eq!(dirs[0].span, None);

    assert_eq!(dirs[1].target, Some("server".into()));
    assert_eq!(dirs[1].level, Level::Trace);
    assert_eq!(dirs[1].span, None);
}

#[test]
fn parse_directives_ralith_uc() {
    let dirs = parse_directives("common=INFO,server=DEBUG");
    assert_eq!(dirs.len(), 2, "\nparsed: {:#?}", dirs);
    assert_eq!(dirs[0].target, Some("common".into()));
    assert_eq!(dirs[0].level, Level::Info);
    assert_eq!(dirs[0].span, None);

    assert_eq!(dirs[1].target, Some("server".into()));
    assert_eq!(dirs[1].level, Level::Debug);
    assert_eq!(dirs[1].span, None);
}

#[test]
fn parse_directives_ralith_mixed() {
    let dirs = parse_directives("common=iNfo,server=dEbUg");
    assert_eq!(dirs.len(), 2, "\nparsed: {:#?}", dirs);
    assert_eq!(dirs[0].target, Some("common".into()));
    assert_eq!(dirs[0].level, Level::Info);
    assert_eq!(dirs[0].span, None);

    assert_eq!(dirs[1].target, Some("server".into()));
    assert_eq!(dirs[1].level, Level::Debug);
    assert_eq!(dirs[1].span, None);
}

#[test]
fn parse_directives_valid() {
    let dirs = parse_directives("crate1::mod1=error,crate1::mod2,crate2=debug,crate3=off");
    assert_eq!(dirs.len(), 4, "\nparsed: {:#?}", dirs);
    assert_eq!(dirs[0].target, Some("crate1::mod1".into()));
    assert_eq!(dirs[0].level, Level::Error);
    assert_eq!(dirs[0].span, None);

    assert_eq!(dirs[1].target, Some("crate1::mod2".into()));
    assert_eq!(dirs[1].level, Level::Trace);
    assert_eq!(dirs[1].span, None);

    assert_eq!(dirs[2].target, Some("crate2".into()));
    assert_eq!(dirs[2].level, Level::Debug);
    assert_eq!(dirs[2].span, None);

    assert_eq!(dirs[3].target, Some("crate3".into()));
    assert_eq!(dirs[3].level, Level::Off);
    assert_eq!(dirs[3].span, None);
}

#[test]
fn parse_level_directives() {
    let dirs = parse_directives(
        "crate1::mod1=error,crate1::mod2=warn,crate1::mod2::mod3=info,\
         crate2=debug,crate3=trace,crate3::mod2::mod1=off",
    );
    assert_eq!(dirs.len(), 6, "\nparsed: {:#?}", dirs);
    assert_eq!(dirs[0].target, Some("crate1::mod1".into()));
    assert_eq!(dirs[0].level, Level::Error);
    assert_eq!(dirs[0].span, None);

    assert_eq!(dirs[1].target, Some("crate1::mod2".into()));
    assert_eq!(dirs[1].level, Level::Warn);
    assert_eq!(dirs[1].span, None);

    assert_eq!(dirs[2].target, Some("crate1::mod2::mod3".into()));
    assert_eq!(dirs[2].level, Level::Info);
    assert_eq!(dirs[2].span, None);

    assert_eq!(dirs[3].target, Some("crate2".into()));
    assert_eq!(dirs[3].level, Level::Debug);
    assert_eq!(dirs[3].span, None);

    assert_eq!(dirs[4].target, Some("crate3".into()));
    assert_eq!(dirs[4].level, Level::Trace);
    assert_eq!(dirs[4].span, None);

    assert_eq!(dirs[5].target, Some("crate3::mod2::mod1".into()));
    assert_eq!(dirs[5].level, Level::Off);
    assert_eq!(dirs[5].span, None);
}

#[test]
fn parse_uppercase_level_directives() {
    let dirs = parse_directives(
        "crate1::mod1=ERROR,crate1::mod2=WARN,crate1::mod2::mod3=INFO,\
         crate2=DEBUG,crate3=TRACE,crate3::mod2::mod1=OFF",
    );
    assert_eq!(dirs.len(), 6, "\nparsed: {:#?}", dirs);
    assert_eq!(dirs[0].target, Some("crate1::mod1".into()));
    assert_eq!(dirs[0].level, Level::Error);
    assert_eq!(dirs[0].span, None);

    assert_eq!(dirs[1].target, Some("crate1::mod2".into()));
    assert_eq!(dirs[1].level, Level::Warn);
    assert_eq!(dirs[1].span, None);

    assert_eq!(dirs[2].target, Some("crate1::mod2::mod3".into()));
    assert_eq!(dirs[2].level, Level::Info);
    assert_eq!(dirs[2].span, None);

    assert_eq!(dirs[3].target, Some("crate2".into()));
    assert_eq!(dirs[3].level, Level::Debug);
    assert_eq!(dirs[3].span, None);

    assert_eq!(dirs[4].target, Some("crate3".into()));
    assert_eq!(dirs[4].level, Level::Trace);
    assert_eq!(dirs[4].span, None);

    assert_eq!(dirs[5].target, Some("crate3::mod2::mod1".into()));
    assert_eq!(dirs[5].level, Level::Off);
    assert_eq!(dirs[5].span, None);
}

#[test]
fn parse_numeric_level_directives() {
    let dirs = parse_directives(
        "crate1::mod1=1,crate1::mod2=2,crate1::mod2::mod3=3,crate2=4,\
         crate3=5,crate3::mod2::mod1=0",
    );
    assert_eq!(dirs.len(), 6, "\nparsed: {:#?}", dirs);
    assert_eq!(dirs[0].target, Some("crate1::mod1".into()));
    assert_eq!(dirs[0].level, Level::Error);
    assert_eq!(dirs[0].span, None);

    assert_eq!(dirs[1].target, Some("crate1::mod2".into()));
    assert_eq!(dirs[1].level, Level::Warn);
    assert_eq!(dirs[1].span, None);

    assert_eq!(dirs[2].target, Some("crate1::mod2::mod3".into()));
    assert_eq!(dirs[2].level, Level::Info);
    assert_eq!(dirs[2].span, None);

    assert_eq!(dirs[3].target, Some("crate2".into()));
    assert_eq!(dirs[3].level, Level::Debug);
    assert_eq!(dirs[3].span, None);

    assert_eq!(dirs[4].target, Some("crate3".into()));
    assert_eq!(dirs[4].level, Level::Trace);
    assert_eq!(dirs[4].span, None);

    assert_eq!(dirs[5].target, Some("crate3::mod2::mod1".into()));
    assert_eq!(dirs[5].level, Level::Off);
    assert_eq!(dirs[5].span, None);
}

#[test]
fn parse_directives_invalid_crate() {
    // multiple `=` in a clause
    let dirs = parse_directives("crate1::mod1=warn=info,crate2=debug");
    assert_eq!(dirs.len(), 1, "\nparsed: {:#?}", dirs);
    assert_eq!(dirs[0].target, Some("crate2".into()));
    assert_eq!(dirs[0].level, Level::Debug);
    assert_eq!(dirs[0].span, None);
}

#[test]
fn parse_directives_invalid_level() {
    // 'noNumber' as the level
    let dirs = parse_directives("crate1::mod1=noNumber,crate2=debug");
    assert_eq!(dirs.len(), 1, "\nparsed: {:#?}", dirs);
    assert_eq!(dirs[0].target, Some("crate2".into()));
    assert_eq!(dirs[0].level, Level::Debug);
    assert_eq!(dirs[0].span, None);
}

#[test]
fn parse_directives_string_level() {
    // 'wrong' as the level
    let dirs = parse_directives("crate1::mod1=wrong,crate2=warn");
    assert_eq!(dirs.len(), 1, "\nparsed: {:#?}", dirs);
    assert_eq!(dirs[0].target, Some("crate2".into()));
    assert_eq!(dirs[0].level, Level::Warn);
    assert_eq!(dirs[0].span, None);
}

#[test]
fn parse_directives_empty_level() {
    // nothing after the `=`
    let dirs = parse_directives("crate1::mod1=wrong,crate2=");
    assert_eq!(dirs.len(), 1, "\nparsed: {:#?}", dirs);
    assert_eq!(dirs[0].target, Some("crate2".into()));
    assert_eq!(dirs[0].level, Level::Trace);
    assert_eq!(dirs[0].span, None);
}

#[test]
fn parse_directives_global() {
    // no target at all
    let dirs = parse_directives("warn,crate2=debug");
    assert_eq!(dirs.len(), 2, "\nparsed: {:#?}", dirs);
    assert_eq!(dirs[0].target, None);
    assert_eq!(dirs[0].level, Level::Warn);
    assert_eq!(dirs[1].span, None);

    assert_eq!(dirs[1].target, Some("crate2".into()));
    assert_eq!(dirs[1].level, Level::Debug);
    assert_eq!(dirs[1].span, None);
}

fn test_parse_bare_level(directive_to_test: &str, level_expected: Level) {
    let dirs = parse_directives(directive_to_test);
    assert_eq!(
        dirs.len(),
        1,
        "\ninput: \"{}\"; parsed: {:#?}",
        directive_to_test,
        dirs
    );
    assert_eq!(dirs[0].target, None);
    assert_eq!(dirs[0].level, level_expected);
    assert_eq!(dirs[0].span, None);
}

#[test]
fn parse_directives_global_bare_warn_lc() {
    test_parse_bare_level("warn", Level::Warn);
}

#[test]
fn parse_directives_global_bare_warn_uc() {
    test_parse_bare_level("WARN", Level::Warn);
}

#[test]
fn parse_directives_global_bare_warn_mixed() {
    test_parse_bare_level("wArN", Level::Warn);
}

#[test]
fn parse_directives_valid_with_spans() {
    let dirs = parse_directives("crate1::mod1[foo]=error,crate1::mod2[bar],crate2[baz]=debug");
    assert_eq!(dirs.len(), 3, "\nparsed: {:#?}", dirs);
    assert_eq!(dirs[0].target, Some("crate1::mod1".into()));
    assert_eq!(dirs[0].level, Level::Error);
    assert_eq!(dirs[0].span, Some("foo".into()));

    assert_eq!(dirs[1].target, Some("crate1::mod2".into()));
    assert_eq!(dirs[1].level, Level::Trace);
    assert_eq!(dirs[1].span, Some("bar".into()));

    assert_eq!(dirs[2].target, Some("crate2".into()));
    assert_eq!(dirs[2].level, Level::Debug);
    assert_eq!(dirs[2].span, Some("baz".into()));
}

#[test]
fn parse_directives_with_dash_in_target_name() {
    let dirs = parse_directives("target-name=info");
    assert_eq!(dirs.len(), 1, "\nparsed: {:#?}", dirs);
    assert_eq!(dirs[0].target, Some("target-name".into()));
    assert_eq!(dirs[0].level, Level::Info);
    assert_eq!(dirs[0].span, None);
}

#[test]
fn parse_directives_with_dash_in_span_name() {
    let dirs = parse_directives("target[span-name]=info");
    assert_eq!(dirs.len(), 1, "\nparsed: {:#?}", dirs);
    assert_eq!(dirs[0].target, Some("target".into()));
    assert_eq!(dirs[0].level, Level::Info);
    assert_eq!(dirs[0].span, Some("span-name".into()));
}

#[test]
fn parse_directives_with_special_characters_in_span_name() {
    let span_name = "!\"#$%&'()*+-./:;<=>?@^_`|~[}";

    let dirs = parse_directives(&format!("target[{}]=info", span_name));
    assert_eq!(dirs.len(), 1, "\nparsed: {:#?}", dirs);
    assert_eq!(dirs[0].target, Some("target".into()));
    assert_eq!(dirs[0].level, Level::Info);
    assert_eq!(dirs[0].span, Some(span_name.into()));
}

#[test]
fn parse_directives_with_invalid_span_chars() {
    let invalid_span_name = "]{";

    let dirs = parse_directives(&format!("target[{}]=info", invalid_span_name));
    assert_eq!(dirs.len(), 0, "\nparsed: {:#?}", dirs);
}
