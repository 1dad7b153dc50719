use vstd::prelude::*;

verus! {

/// The level filter of the logger that user programs link: messages up to the level pass, and
/// every message passes when there is no level.
pub struct UserLogger {
    level: Option<usize>,
}

impl UserLogger {
    /// The level messages are held to; `None` lets every message through.
    pub closed spec fn level_view(&self) -> Option<usize> {
        self.level
    }

    /// A logger with the level `level` (the build picks it: none, or 0 to 5).
    pub fn new(level: Option<usize>) -> (r: UserLogger)
        ensures
            r.level_view() == level,
    {
        UserLogger { level: level }
    }

    /// Set the level and give back the one before.
    pub fn set_level(&mut self, level: Option<usize>) -> (r: Option<usize>)
        ensures
            r == old(self).level_view(),
            final(self).level_view() == level,
    {
        let res = self.level;
        self.level = level;
        res
    }

    /// Whether a message of `level` is written.
    pub fn passes(&self, level: usize) -> (r: bool)
        ensures
            r == match self.level_view() {
                Some(l) => level <= l,
                None => true,
            },
    {
        match self.level {
            Some(log_level) => level <= log_level,
            None => true,
        }
    }
}

} // verus!
