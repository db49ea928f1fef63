//! The hierarchical filter: a directive language over targets, span
//! names and span field values, compiled into ordered directive sets and
//! evaluated by a runtime matching engine.
//!
//! The engine itself is pure state: the host adapter owns the locking
//! and the per-thread storage, and drives these functions with plain
//! values.

pub mod directive;
pub mod matcher;
pub mod parse;
pub mod roundtrip;

use vstd::prelude::*;

use crate::level::Level;
use crate::legacy::directive::{Dynamics, Statics};
use crate::legacy::matcher::{CallsiteMatcher, FieldValue, SpanMatcher};

verus! {

use vstd::hash_map::HashMapWithView;
use crate::legacy::directive::{
    dyn_has_value_filters, spec_matcher, spec_statics_enabled, wf_dynamics, wf_statics,
};
use crate::legacy::matcher::{
    checked_span_matcher, new_span_matcher, record_span_matcher, span_level, vals_v,
    wf_span_matcher,
};

/// What a code site looks like to the filter: a stable identity, a
/// name, a target, a level, whether it is a span or an event, and the
/// names of the fields it defines.
#[derive(Debug)]
pub struct SiteInfo {
    pub id: u64,
    pub name: String,
    pub target: String,
    pub level: Level,
    pub is_span: bool,
    pub fields: Vec<String>,
}

/// The mathematical value of a [`SiteInfo`].
#[verifier::ext_equal]
pub struct SiteInfoV {
    pub id: u64,
    pub name: Seq<char>,
    pub target: Seq<char>,
    pub level: Level,
    pub is_span: bool,
    pub fields: Seq<Seq<char>>,
}

impl View for SiteInfo {
    type V = SiteInfoV;

    open spec fn view(&self) -> SiteInfoV {
        SiteInfoV {
            id: self.id,
            name: self.name@,
            target: self.target@,
            level: self.level,
            is_span: self.is_span,
            fields: crate::legacy::directive::names_v(self.fields@),
        }
    }
}

/// How interested the filter is in a code site: never, per event, or
/// always.
#[derive(Clone, Copy, Debug, PartialEq, Eq, Structural)]
pub enum Interest {
    Never,
    Sometimes,
    Always,
}

/// The per-thread stack of verbosity ceilings contributed by entered,
/// matcher-bearing spans. Strictly one per thread: the host adapter
/// keeps one in thread-local storage.
#[derive(Debug)]
pub struct ScopeStack {
    pub levels: Vec<Level>,
}

impl View for ScopeStack {
    type V = Seq<Level>;

    open spec fn view(&self) -> Seq<Level> {
        self.levels@
    }
}

impl ScopeStack {
    /// An empty stack: no span is entered on this thread.
    pub fn new() -> (r: ScopeStack)
        ensures
            r@ =~= Seq::<Level>::empty(),
    {
        ScopeStack { levels: Vec::new() }
    }

    /// Whether some entered span's ceiling is at least this verbose.
    pub fn any_ge(&self, level: Level) -> (r: bool)
        ensures
            r == exists|i: int| 0 <= i < self@.len() && (#[trigger] self@[i]).rank()
                >= level.rank(),
    {
        let n = self.levels.len();
        let mut i: usize = 0;
        while i < n
            invariant
                i <= n,
                n == self.levels.len(),
                forall|k: int| 0 <= k < i ==> (#[trigger] self@[k]).rank() < level.rank(),
            decreases n - i,
        {
            if self.levels[i].ge(level) {
                proof {
                    assert(self@[i as int].rank() >= level.rank());
                }
                return true;
            }
            i = i + 1;
        }
        false
    }
}

/// The filter's shared runtime state: per-callsite compiled matchers,
/// and per-span-instance live matchers. The host adapter guards this
/// with its lock; every entry's cached flags stay sound.
pub struct Caches {
    pub by_cs: HashMapWithView<u64, CallsiteMatcher>,
    pub by_id: HashMapWithView<u64, SpanMatcher>,
}

/// Every live matcher's cached flag says only what its field flags show.
pub open spec fn wf_caches(c: &Caches) -> bool {
    forall|id: u64| c.by_id@.dom().contains(id) ==> wf_span_matcher((#[trigger] c.by_id@[id])@)
}

impl Caches {
    /// Empty caches: no callsite registered, no span live.
    pub fn new() -> (r: Caches)
        ensures
            r.by_cs@ =~= Map::<u64, CallsiteMatcher>::empty(),
            r.by_id@ =~= Map::<u64, SpanMatcher>::empty(),
            wf_caches(&r),
    {
        Caches { by_cs: HashMapWithView::new(), by_id: HashMapWithView::new() }
    }
}

/// A compiled filter: the static and dynamic directive sets.
#[derive(Debug, PartialEq, Eq)]
pub struct Filter {
    pub statics: Statics,
    pub dynamics: Dynamics,
}

/// Both directive sets are ordered and level-bounded.
pub open spec fn wf_filter(f: &Filter) -> bool {
    wf_statics(f.statics@) && wf_dynamics(f.dynamics@)
}

/// The per-event decision, as a function of the directive sets, the
/// callsite cache, and the calling thread's scope stack. The dynamic
/// path applies only when some dynamic directive could be this verbose;
/// it enables a span whose callsite was compiled, or any site below an
/// entered span whose ceiling reaches the site's level; everything else
/// falls back to the static decision.
pub open spec fn spec_enabled(
    f: &Filter,
    m: SiteInfoV,
    cs_cached: bool,
    scope: Seq<Level>,
) -> bool {
    if f.dynamics@.directives.len() > 0 && f.dynamics@.level.rank() >= m.level.rank() {
        ||| (m.is_span && cs_cached)
        ||| (exists|i: int| 0 <= i < scope.len() && (#[trigger] scope[i]).rank() >= m.level.rank())
        ||| spec_statics_enabled(f.statics@, m)
    } else {
        spec_statics_enabled(f.statics@, m)
    }
}

impl Filter {
    /// Whether any dynamic directive exists.
    pub fn has_dynamics(&self) -> (r: bool)
        ensures
            r == (self.dynamics@.directives.len() > 0),
    {
        self.dynamics.directives.len() > 0
    }

    /// Whether a live span with this instance identity has matchers.
    pub fn cares_about_span(&self, id: u64, caches: &Caches) -> (r: bool)
        ensures
            r == caches.by_id@.dom().contains(id),
    {
        caches.by_id.contains_key(&id)
    }

    /// The interest when nothing matched statically: a filter with
    /// dynamic directives must still see each event.
    pub fn base_interest(&self) -> (r: Interest)
        ensures
            r == (if self.dynamics@.directives.len() > 0 {
                Interest::Sometimes
            } else {
                Interest::Never
            }),
    {
        if self.has_dynamics() {
            Interest::Sometimes
        } else {
            Interest::Never
        }
    }

    /// Whether this event or span is enabled right now.
    pub fn enabled(&self, m: &SiteInfo, caches: &Caches, scope: &ScopeStack) -> (r: bool)
        requires
            wf_filter(self),
        ensures
            r == spec_enabled(self, m@, caches.by_cs@.dom().contains(m@.id), scope@),
    {
        if self.has_dynamics() && self.dynamics.level.ge(m.level) {
            if m.is_span && caches.by_cs.contains_key(&m.id) {
                return true;
            }
            if scope.any_ge(m.level) {
                return true;
            }
        }
        self.statics.enabled(m)
    }

    /// Register a code site: a span that some dynamic directive cares
    /// about gets its matcher compiled and cached, and must always be
    /// visited so its field values can be observed; otherwise the site
    /// is always interesting if the statics enable it, never if nothing
    /// could, and sometimes if dynamic directives remain in play.
    pub fn callsite_enabled(&self, m: &SiteInfo, caches: &mut Caches) -> (r: Interest)
        requires
            wf_filter(self),
            wf_caches(&*old(caches)),
        ensures
            wf_caches(&*final(caches)),
            final(caches).by_id@ == old(caches).by_id@,
            ({
                let compiled = self.dynamics@.directives.len() > 0 && m@.is_span && spec_matcher(
                    self.dynamics@,
                    m@,
                ) is Some;
                &&& (compiled ==> r == Interest::Always && final(caches).by_cs@.dom() =~= old(caches).by_cs@.dom().insert(m@.id) && final(caches).by_cs@[m@.id]@ == spec_matcher(
                    self.dynamics@,
                    m@,
                )->Some_0 && (forall|k: u64|
                    old(caches).by_cs@.dom().contains(k) && k != m@.id ==> final(caches).by_cs@[k] == old(caches).by_cs@[k]))
                &&& (!compiled ==> final(caches).by_cs@ == old(caches).by_cs@)
                &&& (!compiled && spec_statics_enabled(self.statics@, m@) ==> r
                    == Interest::Always)
                &&& (!compiled && !spec_statics_enabled(self.statics@, m@)
                    && self.dynamics@.directives.len() > 0 ==> r == Interest::Sometimes)
                &&& (!compiled && !spec_statics_enabled(self.statics@, m@)
                    && self.dynamics@.directives.len() == 0 ==> r == Interest::Never)
            }),
    {
        if self.has_dynamics() && m.is_span {
            if let Option::Some(matcher) = self.dynamics.matcher(m) {
                caches.by_cs.insert(m.id, matcher);
                return Interest::Always;
            }
        }
        if self.statics.enabled(m) {
            Interest::Always
        } else {
            self.base_interest()
        }
    }

    /// A new span was created: if its callsite was compiled, build its
    /// live matchers, seeded with the span's initial field values.
    pub fn on_new_span(
        &self,
        m: &SiteInfo,
        values: &Vec<(String, FieldValue)>,
        id: u64,
        caches: &mut Caches,
    )
        requires
            wf_caches(&*old(caches)),
        ensures
            wf_caches(&*final(caches)),
            final(caches).by_cs@ == old(caches).by_cs@,
            ({
                let cs = old(caches).by_cs@;
                &&& (cs.dom().contains(m@.id) ==> final(caches).by_id@.dom() =~= old(caches).by_id@.dom().insert(id) && final(caches).by_id@[id]@ == new_span_matcher(
                    cs[m@.id]@,
                    vals_v(values@),
                ) && (forall|k: u64|
                    old(caches).by_id@.dom().contains(k) && k != id ==> final(caches).by_id@[k]
                        == old(caches).by_id@[k]))
                &&& (!cs.dom().contains(m@.id) ==> final(caches).by_id@ == old(caches).by_id@)
            }),
    {
        let cs = caches.by_cs.get(&m.id);
        if let Option::Some(cm) = cs {
            let span = cm.to_span_matcher(values);
            caches.by_id.insert(id, span);
        }
    }

    /// A live span recorded new field values: re-run its matchers over
    /// them. Satisfied predicates stay satisfied.
    pub fn on_record(
        &self,
        id: u64,
        values: &Vec<(String, FieldValue)>,
        caches: &mut Caches,
    )
        requires
            wf_caches(&*old(caches)),
        ensures
            wf_caches(&*final(caches)),
            final(caches).by_cs@ == old(caches).by_cs@,
            ({
                let by_id = old(caches).by_id@;
                &&& (by_id.dom().contains(id) ==> final(caches).by_id@.dom() =~= by_id.dom()
                    && final(caches).by_id@[id]@ == record_values_matcher(
                    by_id[id]@,
                    vals_v(values@),
                ) && (forall|k: u64|
                    by_id.dom().contains(k) && k != id ==> final(caches).by_id@[k] == by_id[k]))
                &&& (!by_id.dom().contains(id) ==> final(caches).by_id@ == by_id)
            }),
    {
        let entry = caches.by_id.remove(&id);
        if let Option::Some(mut span) = entry {
            let ghost orig = span@;
            let n = values.len();
            let mut j: usize = 0;
            proof {
                assert(vals_v(values@).skip(0) =~= vals_v(values@));
            }
            while j < n
                invariant
                    n == values.len(),
                    j <= n,
                    wf_span_matcher(span@),
                    record_values_matcher(span@, vals_v(values@).skip(j as int))
                        == record_values_matcher(orig, vals_v(values@)),
                decreases n - j,
            {
                proof {
                    assert(vals_v(values@).skip(j as int)[0] == vals_v(values@)[j as int]);
                    assert(vals_v(values@).skip(j as int).drop_first() =~= vals_v(values@).skip(
                        j + 1,
                    ));
                }
                span.record_update(&values[j].0, &values[j].1);
                j = j + 1;
            }
            proof {
                assert(vals_v(values@).skip(n as int) =~= Seq::<(Seq<char>, crate::legacy::matcher::FieldValueV)>::empty());
            }
            caches.by_id.insert(id, span);
            proof {
                assert(final(caches).by_id@.dom() =~= old(caches).by_id@.dom());
            }
        }
    }

    /// A span was entered: push the level it currently enables onto the
    /// calling thread's scope stack (spans without matchers contribute
    /// nothing). Each live matcher's cached flag is refreshed.
    pub fn on_enter(&self, id: u64, caches: &mut Caches, scope: &mut ScopeStack)
        requires
            wf_caches(&*old(caches)),
        ensures
            wf_caches(&*final(caches)),
            final(caches).by_cs@ == old(caches).by_cs@,
            ({
                let by_id = old(caches).by_id@;
                &&& (by_id.dom().contains(id) ==> final(scope)@ == old(scope)@.push(
                    span_level(by_id[id]@),
                ) && final(caches).by_id@.dom() =~= by_id.dom() && final(caches).by_id@[id]@
                    == checked_span_matcher(by_id[id]@) && (forall|k: u64|
                    by_id.dom().contains(k) && k != id ==> final(caches).by_id@[k] == by_id[k]))
                &&& (!by_id.dom().contains(id) ==> final(scope)@ == old(scope)@ && final(caches).by_id@ == by_id)
            }),
    {
        let entry = caches.by_id.remove(&id);
        if let Option::Some(mut span) = entry {
            let level = span.level();
            caches.by_id.insert(id, span);
            scope.levels.push(level);
            proof {
                assert(final(caches).by_id@.dom() =~= old(caches).by_id@.dom());
            }
        }
    }

    /// A span was exited: pop the ceiling it contributed, if it had
    /// matchers.
    pub fn on_exit(&self, id: u64, caches: &Caches, scope: &mut ScopeStack)
        ensures
            caches.by_id@.dom().contains(id) && old(scope)@.len() > 0 ==> final(scope)@ == old(
                scope,
            )@.drop_last(),
            caches.by_id@.dom().contains(id) && old(scope)@.len() == 0 ==> final(scope)@ == old(
                scope,
            )@,
            !caches.by_id@.dom().contains(id) ==> final(scope)@ == old(scope)@,
    {
        if self.cares_about_span(id, caches) {
            let popped = scope.levels.pop();
        }
    }

    /// A span was closed for good: drop its live matchers.
    pub fn on_close(&self, id: u64, caches: &mut Caches)
        requires
            wf_caches(&*old(caches)),
        ensures
            wf_caches(&*final(caches)),
            final(caches).by_cs@ == old(caches).by_cs@,
            final(caches).by_id@ == old(caches).by_id@.remove(id),
    {
        let removed = caches.by_id.remove(&id);
    }

    /// The most verbose level this filter could ever enable. When some
    /// directive matches a field's *value*, everything must be let
    /// through: values are unknown until spans record them.
    pub fn max_level_hint(&self) -> (r: Option<Level>)
        ensures
            r == Some(
                if dyn_has_value_filters(self.dynamics@.directives) {
                    Level::Trace
                } else {
                    self.statics@.level.spec_max(self.dynamics@.level)
                },
            ),
    {
        if self.dynamics.has_value_filters() {
            return Some(Level::Trace);
        }
        Some(self.statics.level.max(self.dynamics.level))
    }
}

/// Recording a list of name/value pairs across all of a span's live
/// matchers, first pair first.
pub open spec fn record_values_matcher(m: crate::legacy::matcher::SpanMatcherV, values: Seq<(Seq<char>, crate::legacy::matcher::FieldValueV)>)
    -> crate::legacy::matcher::SpanMatcherV
    decreases values.len(),
{
    if values.len() == 0 {
        m
    } else {
        record_values_matcher(record_span_matcher(m, values[0].0, values[0].1), values.drop_first())
    }
}

} // verus!

// === canonical text of a whole filter ===

verus! {

use crate::legacy::directive::{
    display_dyn, display_names_items, display_name_items_prefix, display_static, dyns_v, stats_v,
    lemma_display_name_items_whole,
};

/// The texts of all directives of a filter, static then dynamic.
pub open spec fn filter_texts(f: &Filter) -> Seq<Seq<char>> {
    f.statics@.directives.map_values(|d: crate::legacy::directive::StaticDirectiveV| display_static(d))
        + f.dynamics@.directives.map_values(
        |d: crate::legacy::directive::DynDirectiveV| display_dyn(d),
    )
}

/// The canonical text of a filter: every directive, most specific
/// first, statics before dynamics, joined by commas.
pub open spec fn display_filter(f: &Filter) -> Seq<char> {
    display_names_items(filter_texts(f))
}

impl Filter {
    /// The canonical text of this filter. Parsed again, it rebuilds
    /// equal directive sets.
    pub fn display(&self) -> (r: String)
        ensures
            r@ == display_filter(self),
    {
        let ghost texts = filter_texts(self);
        let mut out = String::new();
        let sn = self.statics.directives.len();
        let dn = self.dynamics.directives.len();
        proof {
            assert(texts.len() == sn + dn);
        }
        let mut i: usize = 0;
        while i < sn
            invariant
                i <= sn,
                sn == self.statics.directives.len(),
                texts == filter_texts(self),
                out@ == display_name_items_prefix(texts, i as int),
            decreases sn - i,
        {
            if i > 0 {
                crate::chars::push_char(&mut out, ',');
            }
            proof {
                assert(stats_v(self.statics.directives@)[i as int]
                    == self.statics.directives@[i as int]@);
                assert(texts[i as int] == display_static(self.statics@.directives[i as int]));
            }
            self.statics.directives[i].push_display(&mut out);
            proof {
                crate::legacy::directive::lemma_display_name_items_step(texts, i as int);
            }
            i = i + 1;
        }
        let mut j: usize = 0;
        while j < dn
            invariant
                j <= dn,
                sn == self.statics.directives.len(),
                dn == self.dynamics.directives.len(),
                texts == filter_texts(self),
                texts.len() == sn + dn,
                out@ == display_name_items_prefix(texts, sn + j),
            decreases dn - j,
        {
            if sn > 0 || j > 0 {
                crate::chars::push_char(&mut out, ',');
            }
            proof {
                assert(dyns_v(self.dynamics.directives@)[j as int]
                    == self.dynamics.directives@[j as int]@);
                assert(texts[sn + j] == display_dyn(self.dynamics@.directives[j as int]));
            }
            self.dynamics.directives[j].push_display(&mut out);
            proof {
                crate::legacy::directive::lemma_display_name_items_step(texts, sn + j);
            }
            j = j + 1;
        }
        proof {
            if texts.len() > 0 {
                lemma_display_name_items_whole(texts);
            } else {
                assert(out@ =~= display_filter(self));
            }
        }
        out
    }
}

} // verus!
