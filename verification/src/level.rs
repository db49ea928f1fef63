//! Verbosity levels, totally ordered from `Off` (least verbose) to `Trace`
//! (most verbose).

use vstd::prelude::*;

verus! {

/// A verbosity level. `Off` enables nothing; `Trace` enables everything.
#[derive(Clone, Copy, Debug, PartialEq, Eq, Hash, Structural, PartialOrd, Ord)]
pub enum Level {
    Off,
    Error,
    Warn,
    Info,
    Debug,
    Trace,
}

impl Level {
    /// The rank of a level in the verbosity order: `Off` is 0, `Trace` is 5.
    pub open spec fn rank(self) -> int {
        match self {
            Level::Off => 0,
            Level::Error => 1,
            Level::Warn => 2,
            Level::Info => 3,
            Level::Debug => 4,
            Level::Trace => 5,
        }
    }

    /// Whether `self` is at least as verbose as `other`.
    pub fn ge(self, other: Level) -> (r: bool)
        ensures
            r == (self.rank() >= other.rank()),
    {
        self.as_index() >= other.as_index()
    }

    /// Whether `self` is strictly more verbose than `other`.
    pub fn gt(self, other: Level) -> (r: bool)
        ensures
            r == (self.rank() > other.rank()),
    {
        self.as_index() > other.as_index()
    }

    /// The more verbose of the two levels.
    pub fn max(self, other: Level) -> (r: Level)
        ensures
            r == self.spec_max(other),
    {
        if self.ge(other) {
            self
        } else {
            other
        }
    }

    /// The more verbose of the two levels, in specifications.
    pub open spec fn spec_max(self, other: Level) -> Level {
        if self.rank() >= other.rank() {
            self
        } else {
            other
        }
    }

    /// The rank as an executable index.
    pub fn as_index(self) -> (r: u8)
        ensures
            r as int == self.rank(),
    {
        match self {
            Level::Off => 0,
            Level::Error => 1,
            Level::Warn => 2,
            Level::Info => 3,
            Level::Debug => 4,
            Level::Trace => 5,
        }
    }
}

} // verus!

// === the level's text ===

verus! {

use vstd::string::StringExecFns;

/// The canonical (lower-case) text of a level.
pub open spec fn level_text(l: Level) -> Seq<char> {
    match l {
        Level::Off => seq!['o', 'f', 'f'],
        Level::Error => seq!['e', 'r', 'r', 'o', 'r'],
        Level::Warn => seq!['w', 'a', 'r', 'n'],
        Level::Info => seq!['i', 'n', 'f', 'o'],
        Level::Debug => seq!['d', 'e', 'b', 'u', 'g'],
        Level::Trace => seq!['t', 'r', 'a', 'c', 'e'],
    }
}

impl Level {
    /// Append this level's canonical text.
    pub fn push_display(&self, out: &mut String)
        ensures
            final(out)@ == old(out)@ + level_text(*self),
    {
        match self {
            Level::Off => {
                out.append("off");
                proof {
                    reveal_strlit("off");
                    assert(old(out)@ + "off"@ =~= old(out)@ + level_text(*self));
                }
            },
            Level::Error => {
                out.append("error");
                proof {
                    reveal_strlit("error");
                    assert(old(out)@ + "error"@ =~= old(out)@ + level_text(*self));
                }
            },
            Level::Warn => {
                out.append("warn");
                proof {
                    reveal_strlit("warn");
                    assert(old(out)@ + "warn"@ =~= old(out)@ + level_text(*self));
                }
            },
            Level::Info => {
                out.append("info");
                proof {
                    reveal_strlit("info");
                    assert(old(out)@ + "info"@ =~= old(out)@ + level_text(*self));
                }
            },
            Level::Debug => {
                out.append("debug");
                proof {
                    reveal_strlit("debug");
                    assert(old(out)@ + "debug"@ =~= old(out)@ + level_text(*self));
                }
            },
            Level::Trace => {
                out.append("trace");
                proof {
                    reveal_strlit("trace");
                    assert(old(out)@ + "trace"@ =~= old(out)@ + level_text(*self));
                }
            },
        }
    }
}

} // verus!
