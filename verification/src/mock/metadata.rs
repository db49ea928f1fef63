//! An expected metadata shape: each present part must match.

use vstd::prelude::*;

use crate::level::Level;

verus! {

/// An expectation with nothing expected yet.
pub fn mock() -> (r: MockMetadata)
    ensures
        r.name is None,
        r.level is None,
        r.target is None,
{
    MockMetadata { name: None, level: None, target: None }
}

/// What a piece of metadata is expected to look like; an absent part
/// matches anything.
#[derive(Debug)]
pub struct MockMetadata {
    pub name: Option<String>,
    pub level: Option<Level>,
    pub target: Option<String>,
}

impl MockMetadata {
    /// Expect this name.
    pub fn name(self, name: String) -> (r: Self)
        ensures
            r.name == Some(name),
            r.level == self.level,
            r.target == self.target,
    {
        MockMetadata { name: Some(name), ..self }
    }

    /// Expect this level.
    pub fn level(self, level: Level) -> (r: Self)
        ensures
            r.level == Some(level),
            r.name == self.name,
            r.target == self.target,
    {
        MockMetadata { level: Some(level), ..self }
    }

    /// Expect this target.
    pub fn target(self, target: String) -> (r: Self)
        ensures
            r.target == Some(target),
            r.name == self.name,
            r.level == self.level,
    {
        MockMetadata { target: Some(target), ..self }
    }

    /// Whether a site meets every present expectation.
    pub fn matches_site(&self, m: &crate::legacy::SiteInfo) -> (r: bool)
        ensures
            r == ((match self.name {
                Option::Some(n) => n@ == m.name@,
                Option::None => true,
            }) && (match self.level {
                Option::Some(l) => l == m.level,
                Option::None => true,
            }) && (match self.target {
                Option::Some(t) => t@ == m.target@,
                Option::None => true,
            })),
    {
        let name_ok = match &self.name {
            Option::Some(n) => *n == m.name,
            Option::None => true,
        };
        let level_ok = match &self.level {
            Option::Some(l) => *l == m.level,
            Option::None => true,
        };
        let target_ok = match &self.target {
            Option::Some(t) => *t == m.target,
            Option::None => true,
        };
        name_ok && level_ok && target_ok
    }
}

} // verus!
