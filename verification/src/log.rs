use vstd::prelude::*;
use vstd::string::StringSliceAdditionalSpecFns;

verus! {

/// Where a message was logged from.
#[derive(Debug, Clone, Copy)]
pub struct Location {
    pub module: &'static str,
    pub file: &'static str,
    pub line: u32,
}

/// The name of a log level: 0 is CRITICAL, then ERROR, WARN, INFO, DEBUG, TRACE; other
/// levels have an empty name.
pub open spec fn level_name_spec(level: usize) -> Seq<char> {
    if level == 0 {
        "CRITICAL"@
    } else if level == 1 {
        "ERROR"@
    } else if level == 2 {
        "WARN"@
    } else if level == 3 {
        "INFO"@
    } else if level == 4 {
        "DEBUG"@
    } else if level == 5 {
        "TRACE"@
    } else {
        ""@
    }
}

/// The name of a log level (see `level_name_spec`).
pub fn level_name(level: usize) -> (r: &'static str)
    ensures
        r@ == level_name_spec(level),
{
    match level {
        0 => "CRITICAL",
        1 => "ERROR",
        2 => "WARN",
        3 => "INFO",
        4 => "DEBUG",
        5 => "TRACE",
        _ => "",
    }
}

/// The level a name stands for, in lower or upper case: "any" is no limit, then critical,
/// error, warn, info, debug and trace are 0 to 5; any other name is an error.
pub open spec fn to_level_spec(name: Seq<u8>) -> Result<Option<usize>, ()> {
    // "any" or "ANY"
    if name == seq![97u8, 110u8, 121u8] || name == seq![65u8, 78u8, 89u8] {
        Ok(None)
    // "critical" or "CRITICAL"
    } else if name == seq![99u8, 114u8, 105u8, 116u8, 105u8, 99u8, 97u8, 108u8] || name == seq![67u8, 82u8, 73u8, 84u8, 73u8, 67u8, 65u8, 76u8] {
        Ok(Some(0))
    // "error" or "ERROR"
    } else if name == seq![101u8, 114u8, 114u8, 111u8, 114u8] || name == seq![69u8, 82u8, 82u8, 79u8, 82u8] {
        Ok(Some(1))
    // "warn" or "WARN"
    } else if name == seq![119u8, 97u8, 114u8, 110u8] || name == seq![87u8, 65u8, 82u8, 78u8] {
        Ok(Some(2))
    // "info" or "INFO"
    } else if name == seq![105u8, 110u8, 102u8, 111u8] || name == seq![73u8, 78u8, 70u8, 79u8] {
        Ok(Some(3))
    // "debug" or "DEBUG"
    } else if name == seq![100u8, 101u8, 98u8, 117u8, 103u8] || name == seq![68u8, 69u8, 66u8, 85u8, 71u8] {
        Ok(Some(4))
    // "trace" or "TRACE"
    } else if name == seq![116u8, 114u8, 97u8, 99u8, 101u8] || name == seq![84u8, 82u8, 65u8, 67u8, 69u8] {
        Ok(Some(5))
    } else {
        Err(())
    }
}

/// The name of a level reads back as that level.
pub proof fn lemma_level_name_read_back(name: &str, level: usize)
    requires
        level <= 5,
        name@ == level_name_spec(level),
    ensures
        to_level_spec(name.spec_bytes()) == Ok::<Option<usize>, ()>(Some(level)),
{
    reveal_strlit("CRITICAL");
    reveal_strlit("ERROR");
    reveal_strlit("WARN");
    reveal_strlit("INFO");
    reveal_strlit("DEBUG");
    reveal_strlit("TRACE");
    assert(vstd::string::is_ascii(name));
    vstd::string::is_ascii_spec_bytes(name);
    let b = name.spec_bytes();
    if level == 0 {
        assert(b =~= seq![67u8, 82u8, 73u8, 84u8, 73u8, 67u8, 65u8, 76u8]);
    } else if level == 1 {
        assert(b =~= seq![69u8, 82u8, 82u8, 79u8, 82u8]);
    } else if level == 2 {
        assert(b =~= seq![87u8, 65u8, 82u8, 78u8]);
    } else if level == 3 {
        assert(b =~= seq![73u8, 78u8, 70u8, 79u8]);
    } else if level == 4 {
        assert(b =~= seq![68u8, 69u8, 66u8, 85u8, 71u8]);
    } else {
        assert(b =~= seq![84u8, 82u8, 65u8, 67u8, 69u8]);
    }
}

/// The bytes of `s` with the ASCII capitals turned into small letters.
pub open spec fn ascii_lower(s: Seq<u8>) -> Seq<u8> {
    Seq::new(s.len(), |i: int| if 65 <= s[i] <= 90 { (s[i] + 32) as u8 } else { s[i] })
}

/// A name that reads as a level reads as the same level in small letters: case does not
/// matter to the names of levels.
pub proof fn lemma_to_level_small_letters(name: Seq<u8>)
    requires
        to_level_spec(name) is Ok,
    ensures
        to_level_spec(ascii_lower(name)) == to_level_spec(name),
{
    let l = ascii_lower(name);
    let any = seq![97u8, 110u8, 121u8];
    let critical = seq![99u8, 114u8, 105u8, 116u8, 105u8, 99u8, 97u8, 108u8];
    let error = seq![101u8, 114u8, 114u8, 111u8, 114u8];
    let warn = seq![119u8, 97u8, 114u8, 110u8];
    let info = seq![105u8, 110u8, 102u8, 111u8];
    let debug = seq![100u8, 101u8, 98u8, 117u8, 103u8];
    let trace = seq![116u8, 114u8, 97u8, 99u8, 101u8];
    if to_level_spec(name) == Ok::<Option<usize>, ()>(None) {
        assert(l =~= any);
    } else if to_level_spec(name) == Ok::<Option<usize>, ()>(Some(0)) {
        assert(l =~= critical);
    } else if to_level_spec(name) == Ok::<Option<usize>, ()>(Some(1)) {
        assert(l =~= error);
    } else if to_level_spec(name) == Ok::<Option<usize>, ()>(Some(2)) {
        assert(l =~= warn);
    } else if to_level_spec(name) == Ok::<Option<usize>, ()>(Some(3)) {
        assert(l =~= info);
    } else if to_level_spec(name) == Ok::<Option<usize>, ()>(Some(4)) {
        assert(l =~= debug);
    } else {
        assert(l =~= trace);
    }
}

/// The name of each level, in small letters as on a command line, reads back as that level.
pub proof fn lemma_level_name_small_read_back(name: &str, level: usize)
    requires
        level <= 5,
        name@ == level_name_spec(level),
    ensures
        to_level_spec(ascii_lower(name.spec_bytes())) == Ok::<Option<usize>, ()>(Some(level)),
{
    lemma_level_name_read_back(name, level);
    lemma_to_level_small_letters(name.spec_bytes());
}

/// Whether `name` is the ASCII word `word`.
fn is_word(name: &[u8], word: &Vec<u8>) -> (r: bool)
    ensures
        r == (name@ == word@),
{
    if name.len() != word.len() {
        return false;
    }
    let mut i: usize = 0;
    while i < name.len()
        invariant
            0 <= i <= name@.len(),
            name@.len() == word@.len(),
            forall|j: int| 0 <= j < i ==> name@[j] == word@[j],
        decreases name@.len() - i,
    {
        if name[i] != word[i] {
            return false;
        }
        i = i + 1;
    }
    proof {
        assert(name@ =~= word@);
    }
    true
}

/// Whether `name` is one of two ASCII words.
fn is_either(name: &[u8], lower: Vec<u8>, upper: Vec<u8>) -> (r: bool)
    ensures
        r == (name@ == lower@ || name@ == upper@),
{
    is_word(name, &lower) || is_word(name, &upper)
}

/// The level a name stands for (see `to_level_spec`).
pub fn to_level(name: &str) -> (r: Result<Option<usize>, ()>)
    ensures
        r == to_level_spec(name.spec_bytes()),
{
    to_level_bytes(name.as_bytes())
}

/// The level that the bytes of a name stand for (see `to_level_spec`).
pub fn to_level_bytes(n: &[u8]) -> (r: Result<Option<usize>, ()>)
    ensures
        r == to_level_spec(n@),
{
    if is_either(n, vec![97u8, 110u8, 121u8], vec![65u8, 78u8, 89u8]) {
        Ok(None)
    } else if is_either(
        n,
        vec![99u8, 114u8, 105u8, 116u8, 105u8, 99u8, 97u8, 108u8],
        vec![67u8, 82u8, 73u8, 84u8, 73u8, 67u8, 65u8, 76u8],
    ) {
        Ok(Some(0))
    } else if is_either(n, vec![101u8, 114u8, 114u8, 111u8, 114u8], vec![69u8, 82u8, 82u8, 79u8, 82u8]) {
        Ok(Some(1))
    } else if is_either(n, vec![119u8, 97u8, 114u8, 110u8], vec![87u8, 65u8, 82u8, 78u8]) {
        Ok(Some(2))
    } else if is_either(n, vec![105u8, 110u8, 102u8, 111u8], vec![73u8, 78u8, 70u8, 79u8]) {
        Ok(Some(3))
    } else if is_either(n, vec![100u8, 101u8, 98u8, 117u8, 103u8], vec![68u8, 69u8, 66u8, 85u8, 71u8]) {
        Ok(Some(4))
    } else if is_either(n, vec![116u8, 114u8, 97u8, 99u8, 101u8], vec![84u8, 82u8, 65u8, 67u8, 69u8]) {
        Ok(Some(5))
    } else {
        Err(())
    }
}

/// What becomes of a message handed to the logger.
#[derive(Debug, Clone, Copy, PartialEq, Eq, Structural)]
pub enum Delivery {
    /// Above the level limit: not written.
    Filtered,
    /// Written to the output, after a warning that `lost` messages went missing when `lost`
    /// is not zero.
    Output { lost: usize },
    /// Written to the reserve writer, after the same warning.
    Reserve { lost: usize },
    /// Nowhere to write: counted as lost.
    Lost,
}

/// The logger's state: a level limit, whether an output and a reserve writer are attached,
/// and how many messages were lost since the last one written.
pub struct Logger {
    level: Option<usize>,
    output: bool,
    reserve: bool,
    lost: usize,
}

impl Logger {
    pub closed spec fn level_view(&self) -> Option<usize> {
        self.level
    }

    pub closed spec fn output_view(&self) -> bool {
        self.output
    }

    pub closed spec fn reserve_view(&self) -> bool {
        self.reserve
    }

    pub closed spec fn lost_view(&self) -> usize {
        self.lost
    }

    /// Whether a message at `level` passes the limit.
    pub open spec fn passes(&self, level: usize) -> bool {
        match self.level_view() {
            Some(limit) => level <= limit,
            None => true,
        }
    }

    /// A logger with the given limit (`None`: everything), no writer attached, nothing lost.
    pub fn new(level: Option<usize>) -> (r: Logger)
        ensures
            r.level_view() == level,
            !r.output_view(),
            !r.reserve_view(),
            r.lost_view() == 0,
    {
        Logger { level: level, output: false, reserve: false, lost: 0 }
    }

    pub fn has_output(&self) -> (r: bool)
        ensures
            r == self.output_view(),
    {
        self.output
    }

    pub fn has_reserve(&self) -> (r: bool)
        ensures
            r == self.reserve_view(),
    {
        self.reserve
    }

    /// Messages lost since the last one written.
    pub fn lost(&self) -> (r: usize)
        ensures
            r == self.lost_view(),
    {
        self.lost
    }

    /// Attach an output (`true`) or detach it (`false`).
    pub fn set_output(&mut self, present: bool)
        ensures
            final(self).output_view() == present,
            final(self).level_view() == old(self).level_view(),
            final(self).reserve_view() == old(self).reserve_view(),
            final(self).lost_view() == old(self).lost_view(),
    {
        self.output = present;
    }

    /// Attach a reserve writer (`true`) or detach it (`false`).
    pub fn set_reserve(&mut self, present: bool)
        ensures
            final(self).reserve_view() == present,
            final(self).level_view() == old(self).level_view(),
            final(self).output_view() == old(self).output_view(),
            final(self).lost_view() == old(self).lost_view(),
    {
        self.reserve = present;
    }

    /// Set the limit when no filter is given; give back whether the output, which also gets
    /// the new level and filter, is attached.
    pub fn set_level(&mut self, level: Option<usize>, filter: Option<&str>) -> (r: bool)
        ensures
            r == old(self).output_view(),
            filter is None ==> final(self).level_view() == level,
            filter is Some ==> final(self).level_view() == old(self).level_view(),
            final(self).output_view() == old(self).output_view(),
            final(self).reserve_view() == old(self).reserve_view(),
            final(self).lost_view() == old(self).lost_view(),
    {
        if filter.is_none() {
            self.level = level;
        }
        self.output
    }

    /// Hand a message to the reserve writer; without one it is counted as lost.
    pub fn reserve_log(&mut self) -> (r: Delivery)
        requires
            !old(self).reserve_view() ==> old(self).lost_view() < usize::MAX,
        ensures
            old(self).reserve_view() ==> r == (Delivery::Reserve { lost: old(self).lost_view() })
                && final(self).lost_view() == 0,
            !old(self).reserve_view() ==> r == Delivery::Lost && final(self).lost_view() == old(
                self,
            ).lost_view() + 1,
            final(self).level_view() == old(self).level_view(),
            final(self).output_view() == old(self).output_view(),
            final(self).reserve_view() == old(self).reserve_view(),
    {
        if self.reserve {
            let lost = self.lost;
            self.lost = 0;
            Delivery::Reserve { lost: lost }
        } else {
            self.lost = self.lost + 1;
            Delivery::Lost
        }
    }

    /// Decide where a message at `level` goes: dropped above the limit, else to the output,
    /// else to the reserve writer, else lost.
    pub fn log(&mut self, level: usize) -> (r: Delivery)
        requires
            !old(self).output_view() && !old(self).reserve_view() ==> old(self).lost_view()
                < usize::MAX,
        ensures
            !old(self).passes(level) ==> r == Delivery::Filtered && final(self).lost_view() == old(
                self,
            ).lost_view(),
            old(self).passes(level) && old(self).output_view() ==> r == (Delivery::Output {
                lost: old(self).lost_view(),
            }) && final(self).lost_view() == 0,
            old(self).passes(level) && !old(self).output_view() && old(self).reserve_view() ==> r
                == (Delivery::Reserve { lost: old(self).lost_view() }) && final(self).lost_view()
                == 0,
            old(self).passes(level) && !old(self).output_view() && !old(self).reserve_view() ==> r
                == Delivery::Lost && final(self).lost_view() == old(self).lost_view() + 1,
            final(self).level_view() == old(self).level_view(),
            final(self).output_view() == old(self).output_view(),
            final(self).reserve_view() == old(self).reserve_view(),
    {
        if let Some(limit) = self.level {
            if level > limit {
                return Delivery::Filtered;
            }
        }
        if self.output {
            let lost = self.lost;
            self.lost = 0;
            Delivery::Output { lost: lost }
        } else {
            self.reserve_log()
        }
    }
}


/// After a busy logger turned calls away, whether to warn of the `count` calls turned away,
/// and whether a warning stands: every other time calls were turned away a warning is given,
/// and nothing changes when none were.
pub fn suppression_notice(count: usize, warned: bool) -> (r: (bool, bool))
    ensures
        r == (if count == 0 { (false, warned) } else if !warned { (true, true) } else { (false, false) }),
{
    if count == 0 {
        (false, warned)
    } else if !warned {
        (true, true)
    } else {
        (false, false)
    }
}

} // verus!
