use vstd::prelude::*;
use crate::log::{to_level_bytes, to_level_spec};
use crate::paging::segment::le_u64;

verus! {

/// Whether the boot loader handed over `magic` as a multiboot 2 loader does.
pub fn multiboot_magic_ok(magic: u32) -> (r: bool)
    ensures
        r == (magic == crate::constants::MULTIBOOT2_MAGIC),
{
    magic == crate::constants::MULTIBOOT2_MAGIC
}

/// What the kernel's command-line splitter knows after some bytes: the pairs found, the
/// current item name if an `=` was seen, and the bytes read since.
pub struct PairState {
    pub pairs: Seq<(Seq<u8>, Seq<u8>)>,
    pub item: Option<Seq<u8>>,
    pub acc: Seq<u8>,
}

/// One byte of the command line: the first `=` of a word ends the item name (later ones are
/// kept in the value); a space ends a pair; other bytes extend the word.
pub open spec fn pair_step(st: PairState, ch: u8) -> PairState {
    if ch == 61u8 {
        match st.item {
            None => PairState { pairs: st.pairs, item: Some(st.acc), acc: Seq::empty() },
            Some(_) => PairState { pairs: st.pairs, item: st.item, acc: st.acc.push(61u8) },
        }
    } else if ch == 32u8 {
        PairState {
            pairs: match st.item {
                Some(item) => st.pairs.push((item, st.acc)),
                None => st.pairs,
            },
            item: None,
            acc: Seq::empty(),
        }
    } else {
        PairState { pairs: st.pairs, item: st.item, acc: st.acc.push(ch) }
    }
}

pub open spec fn pair_run(line: Seq<u8>) -> PairState
    decreases line.len(),
{
    if line.len() == 0 {
        PairState { pairs: Seq::empty(), item: None, acc: Seq::empty() }
    } else {
        pair_step(pair_run(line.drop_last()), line.last())
    }
}

/// The `item=value` pairs of a command line, in order; a pair still open at the end counts.
pub open spec fn command_pairs(line: Seq<u8>) -> Seq<(Seq<u8>, Seq<u8>)> {
    let st = pair_run(line);
    match st.item {
        Some(item) => st.pairs.push((item, st.acc)),
        None => st.pairs,
    }
}

/// The splitter's state after the bytes `q`, from the state `st`.
pub open spec fn pair_fold(st: PairState, q: Seq<u8>) -> PairState
    decreases q.len(),
{
    if q.len() == 0 {
        st
    } else {
        pair_step(pair_fold(st, q.drop_last()), q.last())
    }
}

/// Splitting `p` then `q` is splitting `p + q`.
proof fn lemma_pair_fold_concat(p: Seq<u8>, q: Seq<u8>)
    ensures
        pair_run(p + q) == pair_fold(pair_run(p), q),
    decreases q.len(),
{
    if q.len() == 0 {
        assert(p + q =~= p);
    } else {
        assert((p + q).drop_last() =~= p + q.drop_last());
        assert((p + q).last() == q.last());
        lemma_pair_fold_concat(p, q.drop_last());
    }
}

/// The pairs found from a state are those it had, then those found from a state with none.
proof fn lemma_pair_fold_prefix(pairs: Seq<(Seq<u8>, Seq<u8>)>, item: Option<Seq<u8>>, acc: Seq<u8>, q: Seq<u8>)
    ensures
        ({
            let full = pair_fold(PairState { pairs, item, acc }, q);
            let bare = pair_fold(PairState { pairs: Seq::empty(), item, acc }, q);
            &&& full.pairs == pairs + bare.pairs
            &&& full.item == bare.item
            &&& full.acc == bare.acc
        }),
    decreases q.len(),
{
    if q.len() > 0 {
        lemma_pair_fold_prefix(pairs, item, acc, q.drop_last());
        let full = pair_fold(PairState { pairs, item, acc }, q.drop_last());
        let bare = pair_fold(PairState { pairs: Seq::empty(), item, acc }, q.drop_last());
        if q.last() == 32u8 {
            if let Some(it) = bare.item {
                assert(pairs + bare.pairs.push((it, bare.acc)) =~= (pairs + bare.pairs).push((it, bare.acc)));
            }
        }
    }
}

/// Splitting from the start is splitting from the empty state.
proof fn lemma_pair_run_fold(q: Seq<u8>)
    ensures
        pair_run(q) == pair_fold(PairState { pairs: Seq::empty(), item: None, acc: Seq::empty() }, q),
    decreases q.len(),
{
    if q.len() > 0 {
        lemma_pair_run_fold(q.drop_last());
    }
}

/// Bytes without a space end no pair.
proof fn lemma_no_space_no_pairs(w: Seq<u8>)
    requires
        !w.contains(32u8),
    ensures
        pair_run(w).pairs == Seq::<(Seq<u8>, Seq<u8>)>::empty(),
    decreases w.len(),
{
    if w.len() > 0 {
        assert(!w.drop_last().contains(32u8)) by {
            if w.drop_last().contains(32u8) {
                let k = choose|k: int| 0 <= k < w.drop_last().len() && w.drop_last()[k] == 32u8;
                assert(w[k] == 32u8);
            }
        }
        lemma_no_space_no_pairs(w.drop_last());
        assert(w.last() != 32u8) by {
            assert(w[w.len() - 1] == w.last());
        }
    }
}

/// A space splits a command line into parts that are split on their own: the pairs of a word
/// without spaces, a space and the rest are the pairs of the word followed by the pairs of the
/// rest. In particular every item name is exactly what lies between the last space and its
/// first `=`.
pub proof fn lemma_pairs_split_at_space(w: Seq<u8>, rest: Seq<u8>)
    requires
        !w.contains(32u8),
    ensures
        command_pairs(w + seq![32u8] + rest) == command_pairs(w) + command_pairs(rest),
{
    let sp = w + seq![32u8];
    lemma_pair_fold_concat(sp, rest);
    assert(sp.drop_last() =~= w);
    assert(sp.last() == 32u8);
    lemma_no_space_no_pairs(w);
    let after = pair_run(sp);
    assert(after.pairs == command_pairs(w));
    assert(after.item == None::<Seq<u8>>);
    assert(after.acc == Seq::<u8>::empty());
    lemma_pair_fold_prefix(command_pairs(w), None, Seq::empty(), rest);
    lemma_pair_run_fold(rest);
    let full = pair_fold(after, rest);
    let bare = pair_run(rest);
    match bare.item {
        Some(it) => {
            assert(full.pairs.push((it, full.acc)) =~= command_pairs(w) + bare.pairs.push((it, bare.acc)));
        },
        None => {},
    }
}

/// Bytes other than a space or `=` only extend the word.
proof fn lemma_pair_fold_plain(st: PairState, q: Seq<u8>)
    requires
        !q.contains(32u8),
        !q.contains(61u8),
    ensures
        pair_fold(st, q) == (PairState { pairs: st.pairs, item: st.item, acc: st.acc + q }),
    decreases q.len(),
{
    if q.len() == 0 {
        assert(st.acc + q =~= st.acc);
    } else {
        let d = q.drop_last();
        assert(!d.contains(32u8) && !d.contains(61u8)) by {
            if d.contains(32u8) || d.contains(61u8) {
                let k = choose|k: int| 0 <= k < d.len() && (d[k] == 32u8 || d[k] == 61u8);
                assert(q[k] == d[k]);
            }
        }
        assert(q[q.len() - 1] == q.last());
        lemma_pair_fold_plain(st, d);
        assert((st.acc + d).push(q.last()) =~= st.acc + q);
    }
}

/// Bytes other than a space only extend the value once the item name is set.
proof fn lemma_pair_fold_value(st: PairState, q: Seq<u8>)
    requires
        !q.contains(32u8),
        st.item is Some,
    ensures
        pair_fold(st, q) == (PairState { pairs: st.pairs, item: st.item, acc: st.acc + q }),
    decreases q.len(),
{
    if q.len() == 0 {
        assert(st.acc + q =~= st.acc);
    } else {
        let d = q.drop_last();
        assert(!d.contains(32u8)) by {
            if d.contains(32u8) {
                let k = choose|k: int| 0 <= k < d.len() && d[k] == 32u8;
                assert(q[k] == d[k]);
            }
        }
        assert(q[q.len() - 1] == q.last());
        lemma_pair_fold_value(st, d);
        assert((st.acc + d).push(q.last()) =~= st.acc + q);
    }
}

/// A word `item=value` gives the one pair of the bytes before its first `=` and the bytes after
/// it, `=` signs included.
pub proof fn lemma_single_pair(item: Seq<u8>, value: Seq<u8>)
    requires
        !item.contains(32u8),
        !item.contains(61u8),
        !value.contains(32u8),
    ensures
        command_pairs(item + seq![61u8] + value) == seq![(item, value)],
{
    let start = PairState { pairs: Seq::empty(), item: None, acc: Seq::empty() };
    let ie = item + seq![61u8];
    lemma_pair_fold_concat(ie, value);
    lemma_pair_fold_concat(item, seq![61u8]);
    lemma_pair_run_fold(item);
    lemma_pair_fold_plain(start, item);
    assert(Seq::<u8>::empty() + item =~= item);
    let after_item = pair_run(item);
    assert(seq![61u8].drop_last() =~= Seq::<u8>::empty());
    assert(seq![61u8].last() == 61u8);
    assert(pair_fold(after_item, seq![61u8].drop_last()) == after_item);
    let after_eq = pair_run(ie);
    assert(after_eq == (PairState { pairs: Seq::empty(), item: Some(item), acc: Seq::empty() }));
    lemma_pair_fold_value(after_eq, value);
    assert(Seq::<u8>::empty() + value =~= value);
    let st = pair_run(ie + value);
    assert(st.pairs.push((item, st.acc)) =~= seq![(item, value)]);
}

/// The views of a sequence of byte-vector pairs.
pub open spec fn pairs_view(v: Seq<(Vec<u8>, Vec<u8>)>) -> Seq<(Seq<u8>, Seq<u8>)> {
    Seq::new(v.len(), |i: int| (v[i].0@, v[i].1@))
}

/// A continuation byte of UTF-8: `10xxxxxx`.
pub open spec fn utf8_cont(b: u8) -> bool {
    0x80 <= b <= 0xBF
}

/// The length of the well-formed UTF-8 character that `s` starts with, zero when `s` does not
/// start with one (Unicode's table of well-formed byte sequences: no overlong forms, no
/// surrogates, nothing past U+10FFFF).
pub open spec fn utf8_char_len(s: Seq<u8>) -> int {
    if s.len() == 0 {
        0
    } else {
        let b0 = s[0];
        if b0 < 0x80 {
            1
        } else if 0xC2 <= b0 <= 0xDF {
            if s.len() >= 2 && utf8_cont(s[1]) {
                2
            } else {
                0
            }
        } else if 0xE0 <= b0 <= 0xEF {
            let lo: u8 = if b0 == 0xE0 { 0xA0 } else { 0x80 };
            let hi: u8 = if b0 == 0xED { 0x9F } else { 0xBF };
            if s.len() >= 3 && lo <= s[1] <= hi && utf8_cont(s[2]) {
                3
            } else {
                0
            }
        } else if 0xF0 <= b0 <= 0xF4 {
            let lo: u8 = if b0 == 0xF0 { 0x90 } else { 0x80 };
            let hi: u8 = if b0 == 0xF4 { 0x8F } else { 0xBF };
            if s.len() >= 4 && lo <= s[1] <= hi && utf8_cont(s[2]) && utf8_cont(s[3]) {
                4
            } else {
                0
            }
        } else {
            0
        }
    }
}

/// Whether `s` is well-formed UTF-8: a run of well-formed characters.
pub open spec fn utf8_valid(s: Seq<u8>) -> bool
    decreases s.len(),
{
    if s.len() == 0 {
        true
    } else if utf8_char_len(s) == 0 {
        false
    } else {
        utf8_valid(s.skip(utf8_char_len(s)))
    }
}

/// The length of the well-formed character at `i` in `bytes`, zero when there is none.
fn char_len_at(bytes: &[u8], i: usize) -> (r: usize)
    requires
        i < bytes@.len(),
    ensures
        r == utf8_char_len(bytes@.skip(i as int)),
{
    let n = bytes.len();
    let b0 = bytes[i];
    if b0 < 0x80 {
        1
    } else if 0xC2 <= b0 && b0 <= 0xDF {
        if n - i >= 2 && 0x80 <= bytes[i + 1] && bytes[i + 1] <= 0xBF {
            2
        } else {
            0
        }
    } else if 0xE0 <= b0 && b0 <= 0xEF {
        let lo: u8 = if b0 == 0xE0 { 0xA0 } else { 0x80 };
        let hi: u8 = if b0 == 0xED { 0x9F } else { 0xBF };
        if n - i >= 3 && lo <= bytes[i + 1] && bytes[i + 1] <= hi && 0x80 <= bytes[i + 2] && bytes[i + 2]
            <= 0xBF {
            3
        } else {
            0
        }
    } else if 0xF0 <= b0 && b0 <= 0xF4 {
        let lo: u8 = if b0 == 0xF0 { 0x90 } else { 0x80 };
        let hi: u8 = if b0 == 0xF4 { 0x8F } else { 0xBF };
        if n - i >= 4 && lo <= bytes[i + 1] && bytes[i + 1] <= hi && 0x80 <= bytes[i + 2] && bytes[i + 2]
            <= 0xBF && 0x80 <= bytes[i + 3] && bytes[i + 3] <= 0xBF {
            4
        } else {
            0
        }
    } else {
        0
    }
}

/// Whether `bytes` is well-formed UTF-8.
pub fn valid_utf8(bytes: &[u8]) -> (r: bool)
    ensures
        r == utf8_valid(bytes@),
{
    let mut i: usize = 0;
    proof {
        assert(bytes@.skip(0) =~= bytes@);
    }
    while i < bytes.len()
        invariant
            0 <= i <= bytes@.len(),
            utf8_valid(bytes@) == utf8_valid(bytes@.skip(i as int)),
        decreases bytes@.len() - i,
    {
        let n = char_len_at(bytes, i);
        if n == 0 {
            return false;
        }
        proof {
            assert(bytes@.skip(i as int).skip(n as int) =~= bytes@.skip(i + n));
        }
        i = i + n;
    }
    proof {
        assert(bytes@.skip(i as int) =~= Seq::<u8>::empty());
    }
    true
}

/// Split the kernel command line into its `item=value` pairs; a command line that is not
/// UTF-8 gives none. (A space or `=` byte never stands inside a multi-byte character, so the
/// split on bytes is the split on characters.)
pub fn parse_cmdline(cmdline: &[u8]) -> (r: Vec<(Vec<u8>, Vec<u8>)>)
    ensures
        pairs_view(r@) == if utf8_valid(cmdline@) {
            command_pairs(cmdline@)
        } else {
            Seq::empty()
        },
{
    if !valid_utf8(cmdline) {
        let none: Vec<(Vec<u8>, Vec<u8>)> = Vec::new();
        proof {
            assert(pairs_view(none@) =~= Seq::empty());
        }
        return none;
    }
    let mut pairs: Vec<(Vec<u8>, Vec<u8>)> = Vec::new();
    let mut item: Option<Vec<u8>> = None;
    let mut acc: Vec<u8> = Vec::new();
    let mut i: usize = 0;
    proof {
        assert(cmdline@.take(0) =~= Seq::<u8>::empty());
        assert(pairs_view(pairs@) =~= Seq::empty());
    }
    while i < cmdline.len()
        invariant
            0 <= i <= cmdline@.len(),
            pair_run(cmdline@.take(i as int)) == (PairState {
                pairs: pairs_view(pairs@),
                item: match item {
                    Some(v) => Some(v@),
                    None => None,
                },
                acc: acc@,
            }),
        decreases cmdline@.len() - i,
    {
        let ch = cmdline[i];
        let ghost before = pair_run(cmdline@.take(i as int));
        proof {
            assert(cmdline@.take(i + 1).drop_last() =~= cmdline@.take(i as int));
            assert(cmdline@.take(i + 1).last() == ch);
        }
        if ch == 61u8 {
            if item.is_none() {
                item = Some(acc);
                acc = Vec::new();
            } else {
                acc.push(61u8);
            }
        } else if ch == 32u8 {
            let taken = item;
            item = None;
            match taken {
                Some(name) => {
                    let ghost old_pairs = pairs@;
                    let value = acc;
                    acc = Vec::new();
                    pairs.push((name, value));
                    proof {
                        assert(pairs_view(pairs@) =~= pairs_view(old_pairs).push((name@, value@)));
                    }
                },
                None => {
                    acc = Vec::new();
                },
            }
        } else {
            acc.push(ch);
        }
        proof {
            let after = pair_step(before, ch);
            assert(acc@ =~= after.acc);
            assert(pairs_view(pairs@) =~= after.pairs);
        }
        i = i + 1;
    }
    proof {
        assert(cmdline@.take(i as int) =~= cmdline@);
    }
    match item {
        Some(name) => {
            let ghost old_pairs = pairs@;
            let value = acc;
            pairs.push((name, value));
            proof {
                assert(pairs_view(pairs@) =~= pairs_view(old_pairs).push((name@, value@)));
            }
        },
        None => {},
    }
    pairs
}

/// A log setting taken from the `log` item: a level for everything or for one filter, or a
/// word that names no level.
#[derive(Debug)]
pub enum LevelSetting {
    Level { level: Option<usize>, filter: Option<Vec<u8>> },
    Unknown { word: Vec<u8> },
}

/// The view of a setting: the level, or `Err` with the word for an unknown one, and the filter.
pub open spec fn setting_view(s: LevelSetting) -> (Result<Option<usize>, Seq<u8>>, Option<Seq<u8>>) {
    match s {
        LevelSetting::Level { level, filter } => (
            Ok(level),
            match filter {
                Some(f) => Some(f@),
                None => None,
            },
        ),
        LevelSetting::Unknown { word } => (Err(word@), None),
    }
}

/// What the log-item parser knows after some bytes: the settings found, the filter if an `=`
/// was seen, and the word being read.
pub struct LevelState {
    pub settings: Seq<(Result<Option<usize>, Seq<u8>>, Option<Seq<u8>>)>,
    pub filter: Option<Seq<u8>>,
    pub acc: Seq<u8>,
}

/// The setting that a finished word gives.
pub open spec fn word_setting(acc: Seq<u8>, filter: Option<Seq<u8>>) -> (Result<Option<usize>, Seq<u8>>, Option<Seq<u8>>) {
    match to_level_spec(acc) {
        Ok(level) => (Ok(level), filter),
        Err(_) => (Err(acc), None),
    }
}

/// One byte of a log value: the first `=` ends the filter name; a comma ends a level word;
/// other bytes extend the word.
pub open spec fn level_step(st: LevelState, ch: u8) -> LevelState {
    if ch == 61u8 {
        match st.filter {
            None => LevelState { settings: st.settings, filter: Some(st.acc), acc: Seq::empty() },
            Some(_) => LevelState { settings: st.settings, filter: st.filter, acc: st.acc.push(61u8) },
        }
    } else if ch == 44u8 {
        LevelState {
            settings: st.settings.push(word_setting(st.acc, st.filter)),
            filter: st.filter,
            acc: Seq::empty(),
        }
    } else {
        LevelState { settings: st.settings, filter: st.filter, acc: st.acc.push(ch) }
    }
}

pub open spec fn level_run(value: Seq<u8>) -> LevelState
    decreases value.len(),
{
    if value.len() == 0 {
        LevelState { settings: Seq::empty(), filter: None, acc: Seq::empty() }
    } else {
        level_step(level_run(value.drop_last()), value.last())
    }
}

/// The settings of a command-line pair: none unless the item is `log`; a word still open at the
/// end counts when it is not empty.
pub open spec fn command_settings(item: Seq<u8>, value: Seq<u8>) -> Seq<(Result<Option<usize>, Seq<u8>>, Option<Seq<u8>>)> {
    if item != seq![108u8, 111u8, 103u8] {
        Seq::empty()
    } else {
        let st = level_run(value);
        if st.acc.len() > 0 {
            st.settings.push(word_setting(st.acc, st.filter))
        } else {
            st.settings
        }
    }
}

/// A level word ended by the end of the value gives the setting it gives when a comma ends it:
/// the same level and the same filter. (A value that ends in a comma or in the `=` after a
/// filter name has no word open at its end, so a further comma would add an empty word.)
pub proof fn lemma_trailing_word_like_comma(value: Seq<u8>)
    requires
        value.len() > 0,
        value.last() != 44u8,
        value.last() != 61u8,
    ensures
        command_settings(seq![108u8, 111u8, 103u8], value.push(44u8)) == command_settings(
            seq![108u8, 111u8, 103u8],
            value,
        ),
{
    let st = level_run(value);
    let v2 = value.push(44u8);
    assert(v2.drop_last() =~= value);
    assert(v2.last() == 44u8);
    assert(value.drop_last().push(value.last()) =~= value);
    assert(st.acc.len() > 0);
}

/// The log parser's state after the bytes `q`, from the state `st`.
pub open spec fn level_fold(st: LevelState, q: Seq<u8>) -> LevelState
    decreases q.len(),
{
    if q.len() == 0 {
        st
    } else {
        level_step(level_fold(st, q.drop_last()), q.last())
    }
}

proof fn lemma_level_fold_concat(p: Seq<u8>, q: Seq<u8>)
    ensures
        level_run(p + q) == level_fold(level_run(p), q),
    decreases q.len(),
{
    if q.len() == 0 {
        assert(p + q =~= p);
    } else {
        assert((p + q).drop_last() =~= p + q.drop_last());
        assert((p + q).last() == q.last());
        lemma_level_fold_concat(p, q.drop_last());
    }
}

/// Bytes that are neither `=` nor a comma only extend the word.
proof fn lemma_level_fold_plain(st: LevelState, q: Seq<u8>)
    requires
        !q.contains(61u8),
        !q.contains(44u8),
    ensures
        level_fold(st, q) == (LevelState { settings: st.settings, filter: st.filter, acc: st.acc + q }),
    decreases q.len(),
{
    if q.len() == 0 {
        assert(st.acc + q =~= st.acc);
    } else {
        let d = q.drop_last();
        assert(!d.contains(61u8) && !d.contains(44u8)) by {
            if d.contains(61u8) || d.contains(44u8) {
                let k = choose|k: int| 0 <= k < d.len() && (d[k] == 61u8 || d[k] == 44u8);
                assert(q[k] == d[k]);
            }
        }
        assert(q[q.len() - 1] == q.last());
        lemma_level_fold_plain(st, d);
        assert((st.acc + d).push(q.last()) =~= st.acc + q);
    }
}

/// `filter=level` sets the level for that filter: a filter name and a level word, neither holding
/// a comma or `=`, give one setting, the level with that filter.
pub proof fn lemma_filtered_level(filter: Seq<u8>, word: Seq<u8>)
    requires
        !filter.contains(61u8),
        !filter.contains(44u8),
        !word.contains(61u8),
        !word.contains(44u8),
        word.len() > 0,
        to_level_spec(word) is Ok,
    ensures
        command_settings(seq![108u8, 111u8, 103u8], filter + seq![61u8] + word) == seq![
            (Ok::<Option<usize>, Seq<u8>>(to_level_spec(word)->Ok_0), Some(filter)),
        ],
{
    let start = LevelState { settings: Seq::empty(), filter: None, acc: Seq::empty() };
    let fe = filter + seq![61u8];
    lemma_level_fold_concat(fe, word);
    lemma_level_fold_concat(filter, seq![61u8]);
    lemma_level_fold_concat(Seq::empty(), filter);
    assert(Seq::<u8>::empty() + filter =~= filter);
    lemma_level_fold_plain(start, filter);
    assert(Seq::<u8>::empty() + filter =~= filter);
    let after_filter = level_run(filter);
    assert(after_filter == (LevelState { settings: Seq::empty(), filter: None, acc: filter }));
    assert(seq![61u8].drop_last() =~= Seq::<u8>::empty());
    assert(seq![61u8].last() == 61u8);
    assert(level_fold(after_filter, seq![61u8].drop_last()) == after_filter);
    assert(level_fold(after_filter, seq![61u8]) == level_step(after_filter, 61u8));
    let after_eq = level_run(fe);
    assert(after_eq == (LevelState { settings: Seq::empty(), filter: Some(filter), acc: Seq::empty() }));
    lemma_level_fold_plain(after_eq, word);
    assert(Seq::<u8>::empty() + word =~= word);
    let st = level_run(fe + word);
    assert(st.acc == word);
    assert(st.filter == Some(filter));
    assert(st.settings.push(word_setting(word, Some(filter))) =~= seq![
        (Ok::<Option<usize>, Seq<u8>>(to_level_spec(word)->Ok_0), Some(filter)),
    ]);
}

pub open spec fn settings_view(v: Seq<LevelSetting>) -> Seq<(Result<Option<usize>, Seq<u8>>, Option<Seq<u8>>)> {
    Seq::new(v.len(), |i: int| setting_view(v[i]))
}

fn clone_bytes(v: &Vec<u8>) -> (r: Vec<u8>)
    ensures
        r@ == v@,
{
    let r = v.clone();
    proof {
        assert(r@ =~= v@);
    }
    r
}

fn finish_word(acc: &Vec<u8>, filter: &Option<Vec<u8>>) -> (r: LevelSetting)
    ensures
        setting_view(r) == word_setting(
            acc@,
            match filter {
                Some(f) => Some(f@),
                None => None,
            },
        ),
{
    match to_level_bytes(acc.as_slice()) {
        Ok(level) => {
            let f = match filter {
                Some(f) => Some(clone_bytes(f)),
                None => None,
            };
            LevelSetting::Level { level: level, filter: f }
        },
        Err(_) => LevelSetting::Unknown { word: clone_bytes(acc) },
    }
}

/// The log settings that one command-line pair asks for (see `command_settings`).
pub fn parse_command(item: &[u8], value: &[u8]) -> (r: Vec<LevelSetting>)
    ensures
        settings_view(r@) == command_settings(item@, value@),
{
    let mut settings: Vec<LevelSetting> = Vec::new();
    if !(item.len() == 3 && item[0] == 108u8 && item[1] == 111u8 && item[2] == 103u8) {
        proof {
            if item@ == seq![108u8, 111u8, 103u8] {
                assert(item@[0] == 108u8 && item@[1] == 111u8 && item@[2] == 103u8);
            }
            assert(settings_view(settings@) =~= Seq::empty());
        }
        return settings;
    }
    proof {
        assert(item@ =~= seq![108u8, 111u8, 103u8]);
    }
    let mut filter: Option<Vec<u8>> = None;
    let mut acc: Vec<u8> = Vec::new();
    let mut i: usize = 0;
    proof {
        assert(value@.take(0) =~= Seq::<u8>::empty());
        assert(settings_view(settings@) =~= Seq::empty());
    }
    while i < value.len()
        invariant
            0 <= i <= value@.len(),
            level_run(value@.take(i as int)) == (LevelState {
                settings: settings_view(settings@),
                filter: match filter {
                    Some(f) => Some(f@),
                    None => None,
                },
                acc: acc@,
            }),
        decreases value@.len() - i,
    {
        let ch = value[i];
        let ghost before = level_run(value@.take(i as int));
        proof {
            assert(value@.take(i + 1).drop_last() =~= value@.take(i as int));
            assert(value@.take(i + 1).last() == ch);
        }
        if ch == 61u8 {
            if filter.is_none() {
                filter = Some(acc);
                acc = Vec::new();
            } else {
                acc.push(61u8);
            }
        } else if ch == 44u8 {
            let setting = finish_word(&acc, &filter);
            let ghost old_settings = settings@;
            settings.push(setting);
            proof {
                assert(settings_view(settings@) =~= settings_view(old_settings).push(setting_view(setting)));
            }
            acc = Vec::new();
        } else {
            acc.push(ch);
        }
        proof {
            let after = level_step(before, ch);
            assert(acc@ =~= after.acc);
            assert(settings_view(settings@) =~= after.settings);
        }
        i = i + 1;
    }
    proof {
        assert(value@.take(i as int) =~= value@);
    }
    if acc.len() > 0 {
        let setting = finish_word(&acc, &filter);
        let ghost old_settings = settings@;
        settings.push(setting);
        proof {
            assert(settings_view(settings@) =~= settings_view(old_settings).push(setting_view(setting)));
        }
    }
    settings
}

/// Bytes of the initial heap.
pub const INITIAL_HEAP_SIZE: usize = 0x200000;

/// Region `r` with the part below `max_paddr` cut off.
pub open spec fn clipped(r: (usize, usize), max_paddr: usize) -> (int, int) {
    if r.0 < max_paddr {
        (max_paddr as int, r.1 - (max_paddr - r.0))
    } else {
        (r.0 as int, r.1 as int)
    }
}

/// Region `r`, clipped, holds the initial heap.
pub open spec fn holds_heap(r: (usize, usize), max_paddr: usize) -> bool {
    clipped(r, max_paddr).1 >= INITIAL_HEAP_SIZE
}

/// Clipping region `r` does not take more than it has.
pub open spec fn clips_cleanly(r: (usize, usize), max_paddr: usize) -> bool {
    r.0 < max_paddr ==> r.1 >= max_paddr - r.0
}

/// The index of the first region that holds the initial heap.
pub open spec fn first_heap(regions: Seq<(usize, usize)>, max_paddr: usize) -> Option<int> {
    if exists|i: int| 0 <= i < regions.len() && holds_heap(regions[i], max_paddr) {
        Some(
            choose|i: int|
                0 <= i < regions.len() && holds_heap(regions[i], max_paddr) && forall|j: int|
                    0 <= j < i ==> !holds_heap(#[trigger] regions[j], max_paddr),
        )
    } else {
        None
    }
}

proof fn lemma_first_heap(regions: Seq<(usize, usize)>, max_paddr: usize, i: int)
    requires
        0 <= i < regions.len(),
        holds_heap(regions[i], max_paddr),
        forall|j: int| 0 <= j < i ==> !holds_heap(#[trigger] regions[j], max_paddr),
    ensures
        first_heap(regions, max_paddr) == Some(i),
{
    let c = choose|k: int|
        0 <= k < regions.len() && holds_heap(regions[k], max_paddr) && forall|j: int|
            0 <= j < k ==> !holds_heap(#[trigger] regions[j], max_paddr);
    assert(0 <= c < regions.len() && holds_heap(regions[c], max_paddr) && forall|j: int|
        0 <= j < c ==> !holds_heap(#[trigger] regions[j], max_paddr));
    if c < i {
        assert(!holds_heap(regions[c], max_paddr));
    }
    if i < c {
        assert(!holds_heap(regions[i], max_paddr));
    }
}

/// Where the initial heap goes: 2 megabytes at the start of the first region that has that
/// much above `max_paddr`, the end of the physical memory that the boot stage maps.
pub fn build_initial_heap(regions: &[(usize, usize)], max_paddr: usize) -> (r: Option<(usize, usize)>)
    requires
        forall|i: int|
            0 <= i < regions@.len() && (forall|j: int|
                0 <= j < i ==> !holds_heap(#[trigger] regions@[j], max_paddr)) ==> clips_cleanly(
                regions@[i],
                max_paddr,
            ),
    ensures
        match first_heap(regions@, max_paddr) {
            Some(i) => r == Some((clipped(regions@[i], max_paddr).0 as usize, INITIAL_HEAP_SIZE)),
            None => r is None,
        },
{
    let mut i: usize = 0;
    while i < regions.len()
        invariant
            0 <= i <= regions@.len(),
            forall|j: int| 0 <= j < i ==> !holds_heap(#[trigger] regions@[j], max_paddr),
            forall|k: int|
                0 <= k < regions@.len() && (forall|j: int|
                    0 <= j < k ==> !holds_heap(#[trigger] regions@[j], max_paddr)) ==> clips_cleanly(
                    regions@[k],
                    max_paddr,
                ),
        decreases regions@.len() - i,
    {
        let (mut base, mut size) = regions[i];
        proof {
            assert(clips_cleanly(regions@[i as int], max_paddr));
        }
        if base < max_paddr {
            size = size - (max_paddr - base);
            base = max_paddr;
        }
        if size >= INITIAL_HEAP_SIZE {
            proof {
                lemma_first_heap(regions@, max_paddr, i as int);
            }
            return Some((base, INITIAL_HEAP_SIZE));
        }
        i = i + 1;
    }
    None
}

/// The regions registered as general memory once the initial heap sits at `max_paddr`:
/// regions reaching below the end of the heap lose that part, and are skipped when smaller
/// than the heap.
pub open spec fn registered(r: (usize, usize), max_paddr: usize) -> Option<(int, int)> {
    let heap_end = max_paddr + INITIAL_HEAP_SIZE;
    if r.0 < heap_end {
        if r.1 < INITIAL_HEAP_SIZE {
            None
        } else {
            Some((heap_end, r.1 - (heap_end - r.0)))
        }
    } else {
        Some((r.0 as int, r.1 as int))
    }
}

pub open spec fn registered_all(regions: Seq<(usize, usize)>, max_paddr: usize) -> Seq<(int, int)>
    decreases regions.len(),
{
    if regions.len() == 0 {
        Seq::empty()
    } else {
        let rest = registered_all(regions.drop_last(), max_paddr);
        match registered(regions.last(), max_paddr) {
            Some(r) => rest.push(r),
            None => rest,
        }
    }
}

/// The general-memory regions to register, in order (see `registered`).
pub fn setup_memory(regions: &[(usize, usize)], max_paddr: usize) -> (r: Vec<(usize, usize)>)
    requires
        max_paddr + INITIAL_HEAP_SIZE <= usize::MAX,
        forall|i: int|
            0 <= i < regions@.len() ==> (#[trigger] regions@[i]).0 < max_paddr + INITIAL_HEAP_SIZE
                && regions@[i].1 >= INITIAL_HEAP_SIZE ==> regions@[i].1 >= max_paddr
                + INITIAL_HEAP_SIZE - regions@[i].0,
    ensures
        r@.len() == registered_all(regions@, max_paddr).len(),
        forall|k: int|
            0 <= k < r@.len() ==> (#[trigger] r@[k]).0 == registered_all(regions@, max_paddr)[k].0
                && r@[k].1 == registered_all(regions@, max_paddr)[k].1,
{
    let heap_end = max_paddr + INITIAL_HEAP_SIZE;
    let mut out: Vec<(usize, usize)> = Vec::new();
    let mut i: usize = 0;
    while i < regions.len()
        invariant
            0 <= i <= regions@.len(),
            heap_end == max_paddr + INITIAL_HEAP_SIZE,
            forall|k: int|
                0 <= k < regions@.len() ==> (#[trigger] regions@[k]).0 < max_paddr + INITIAL_HEAP_SIZE
                    && regions@[k].1 >= INITIAL_HEAP_SIZE ==> regions@[k].1 >= max_paddr
                    + INITIAL_HEAP_SIZE - regions@[k].0,
            out@.len() == registered_all(regions@.take(i as int), max_paddr).len(),
            forall|k: int|
                0 <= k < out@.len() ==> (#[trigger] out@[k]).0 == registered_all(
                    regions@.take(i as int),
                    max_paddr,
                )[k].0 && out@[k].1 == registered_all(regions@.take(i as int), max_paddr)[k].1,
        decreases regions@.len() - i,
    {
        let (mut base, mut size) = regions[i];
        proof {
            assert(regions@.take(i + 1).drop_last() =~= regions@.take(i as int));
            assert(regions@.take(i + 1).last() == regions@[i as int]);
            assert(regions@[i as int] == (base, size));
        }
        if base < heap_end {
            if size < INITIAL_HEAP_SIZE {
                i = i + 1;
                continue;
            } else {
                size = size - (heap_end - base);
                base = heap_end;
            }
        }
        out.push((base, size));
        i = i + 1;
    }
    proof {
        assert(regions@.take(i as int) =~= regions@);
    }
    out
}

/// The section flag that marks a section as loaded into memory.
pub const SHF_ALLOC: u64 = 0x2;

/// The bytes of the loaded sections, among `(address, flags, size)` section headers, that lie at
/// or above `kernel_top`.
pub open spec fn kernel_bytes(sections: Seq<(u64, u64, u64)>, kernel_top: u64) -> int
    decreases sections.len(),
{
    if sections.len() == 0 {
        0
    } else {
        let s = sections.last();
        kernel_bytes(sections.drop_last(), kernel_top) + if s.0 >= kernel_top && s.1 & SHF_ALLOC
            == SHF_ALLOC {
            s.2 as int
        } else {
            0
        }
    }
}

/// A loaded section at or above the kernel's top adds its size, wherever it stands, and one
/// below the top, or not loaded, adds nothing: the sum over `sections` and one more section.
pub proof fn lemma_kernel_bytes_counts(sections: Seq<(u64, u64, u64)>, kernel_top: u64, addr: u64, flags: u64, size: u64)
    ensures
        addr >= kernel_top && flags & SHF_ALLOC == SHF_ALLOC ==> kernel_bytes(
            sections.push((addr, flags, size)),
            kernel_top,
        ) == kernel_bytes(sections, kernel_top) + size,
        addr < kernel_top || flags & SHF_ALLOC != SHF_ALLOC ==> kernel_bytes(
            sections.push((addr, flags, size)),
            kernel_top,
        ) == kernel_bytes(sections, kernel_top),
{
    assert(sections.push((addr, flags, size)).drop_last() =~= sections);
}

/// The sum does not depend on the order of the sections: it is the sum over the first part
/// plus the sum over the rest.
pub proof fn lemma_kernel_bytes_split(first: Seq<(u64, u64, u64)>, rest: Seq<(u64, u64, u64)>, kernel_top: u64)
    ensures
        kernel_bytes(first + rest, kernel_top) == kernel_bytes(first, kernel_top) + kernel_bytes(rest, kernel_top),
    decreases rest.len(),
{
    if rest.len() == 0 {
        assert(first + rest =~= first);
    } else {
        assert((first + rest).drop_last() =~= first + rest.drop_last());
        assert((first + rest).last() == rest.last());
        lemma_kernel_bytes_split(first, rest.drop_last(), kernel_top);
    }
}

/// The kernel's first section, loaded right at the kernel's top, counts in full.
pub proof fn lemma_kernel_bytes_at_top(kernel_top: u64, flags: u64, size: u64)
    requires
        flags & SHF_ALLOC == SHF_ALLOC,
    ensures
        kernel_bytes(seq![(kernel_top, flags, size)], kernel_top) == size,
{
    lemma_kernel_bytes_counts(Seq::empty(), kernel_top, kernel_top, flags, size);
    assert(Seq::<(u64, u64, u64)>::empty().push((kernel_top, flags, size)) =~= seq![(kernel_top, flags, size)]);
}

/// The bytes used by the kernel's loaded sections at or above `kernel_top`.
pub fn parse_elf(sections: &[(u64, u64, u64)], kernel_top: u64) -> (r: u64)
    requires
        kernel_bytes(sections@, kernel_top) <= u64::MAX,
    ensures
        r == kernel_bytes(sections@, kernel_top),
{
    let mut sum: u64 = 0;
    let mut i: usize = 0;
    while i < sections.len()
        invariant
            0 <= i <= sections@.len(),
            sum == kernel_bytes(sections@.take(i as int), kernel_top),
            kernel_bytes(sections@, kernel_top) <= u64::MAX,
        decreases sections@.len() - i,
    {
        let (addr, flags, size) = sections[i];
        proof {
            assert(sections@.take(i + 1).drop_last() =~= sections@.take(i as int));
            lemma_kernel_bytes_grow(sections@, kernel_top, i + 1);
        }
        if addr >= kernel_top && flags & SHF_ALLOC == SHF_ALLOC {
            sum = sum + size;
        }
        i = i + 1;
    }
    proof {
        assert(sections@.take(i as int) =~= sections@);
    }
    sum
}

/// The loaded bytes of a prefix of the sections are at most those of all of them.
proof fn lemma_kernel_bytes_grow(sections: Seq<(u64, u64, u64)>, kernel_top: u64, n: int)
    requires
        0 <= n <= sections.len(),
    ensures
        0 <= kernel_bytes(sections.take(n), kernel_top) <= kernel_bytes(sections, kernel_top),
    decreases sections.len(),
{
    if n == sections.len() {
        assert(sections.take(n) =~= sections);
        lemma_kernel_bytes_nonneg(sections, kernel_top);
    } else {
        lemma_kernel_bytes_grow(sections.drop_last(), kernel_top, n);
        assert(sections.drop_last().take(n) =~= sections.take(n));
    }
}

proof fn lemma_kernel_bytes_nonneg(sections: Seq<(u64, u64, u64)>, kernel_top: u64)
    ensures
        kernel_bytes(sections, kernel_top) >= 0,
    decreases sections.len(),
{
    if sections.len() > 0 {
        lemma_kernel_bytes_nonneg(sections.drop_last(), kernel_top);
    }
}

/// The little-endian value of the four bytes of `s` from `off`.
pub open spec fn le_u32(s: Seq<u8>, off: int) -> u32 {
    (s[off] as u32) | ((s[off + 1] as u32) << 8u32) | ((s[off + 2] as u32) << 16u32) | ((s[off
        + 3] as u32) << 24u32)
}

fn read_le_u32(raw: &[u8], off: usize) -> (r: u32)
    requires
        off + 4 <= raw@.len(),
    ensures
        r == le_u32(raw@, off as int),
{
    (raw[off] as u32) | ((raw[off + 1] as u32) << 8u32) | ((raw[off + 2] as u32) << 16u32) | ((
    raw[off + 3] as u32) << 24u32)
}

/// `n` rounded up to a multiple of 8.
pub open spec fn round8(n: int) -> int {
    n + (8 - n % 8) % 8
}

/// Rounding up to a multiple of 8 adds less than 8.
pub proof fn lemma_round8(n: int)
    ensures
        n <= round8(n) < n + 8,
{
}

/// Whether walking the multiboot tags from offset `off` of the boot information `s`, which
/// holds `size` bytes of tags, reads only bytes that are there and ends: each tag it visits
/// has its type and length in `s`, and a tag other than the end tag is at least one byte long.
pub open spec fn tags_ok(s: Seq<u8>, size: int, off: int) -> bool
    decreases (if off < size { size - off } else { 0 }),
{
    if off >= size {
        true
    } else if off < 0 || off + 8 > s.len() {
        false
    } else if le_u32(s, off) == 0 {
        true
    } else {
        let len = le_u32(s, off + 4) as int;
        if len < 1 || round8(off + len) > usize::MAX {
            false
        } else {
            proof {
                lemma_round8(off + len);
            }
            tags_ok(s, size, round8(off + len))
        }
    }
}

/// The tags met walking the multiboot tags from offset `off`, as their type and offset, in
/// order, up to the end tag or the end of the `size` bytes; each tag starts at the next multiple
/// of 8 after the one before.
pub open spec fn tag_list(s: Seq<u8>, size: int, off: int) -> Seq<(u32, usize)>
    decreases (if off < size { size - off } else { 0 }),
{
    if off >= size || off < 0 || off + 8 > s.len() || le_u32(s, off) == 0 || le_u32(s, off + 4) == 0 {
        Seq::empty()
    } else {
        proof {
            lemma_round8(off + le_u32(s, off + 4));
        }
        seq![(le_u32(s, off), off as usize)] + tag_list(s, size, round8(off + le_u32(s, off + 4)))
    }
}

/// The tags of the multiboot information `info`, which holds `size` bytes of tags after its
/// 8-byte header: their types and offsets, in order, up to the end tag.
pub fn multiboot_tags(info: &[u8], size: usize) -> (r: Vec<(u32, usize)>)
    requires
        tags_ok(info@, size as int, 8),
    ensures
        r@ == tag_list(info@, size as int, 8),
{
    let mut tags: Vec<(u32, usize)> = Vec::new();
    let mut off: usize = 8;
    while off < size
        invariant
            tags_ok(info@, size as int, off as int),
            tags@ + tag_list(info@, size as int, off as int) == tag_list(info@, size as int, 8),
        decreases (if off < size { size - off } else { 0 }),
    {
        let ty = read_le_u32(info, off);
        if ty == 0 {
            proof {
                assert(tags@ + tag_list(info@, size as int, off as int) =~= tags@);
            }
            return tags;
        }
        let len = read_le_u32(info, off + 4);
        proof {
            lemma_round8(off + len);
        }
        let t = off + len as usize;
        let next = t + (8 - t % 8) % 8;
        proof {
            assert(next as int == round8(off + len));
            assert(tag_list(info@, size as int, off as int) == seq![(ty, off)] + tag_list(
                info@,
                size as int,
                next as int,
            ));
            assert(tags@.push((ty, off)) + tag_list(info@, size as int, next as int) =~= tags@ + tag_list(
                info@,
                size as int,
                off as int,
            ));
        }
        tags.push((ty, off));
        off = next;
    }
    proof {
        assert(tags@ + tag_list(info@, size as int, off as int) =~= tags@);
    }
    tags
}

/// The position of the first zero byte of `s` at or after `i`, or the length of `s`.
pub open spec fn nul_from(s: Seq<u8>, i: int) -> int
    decreases s.len() - i,
{
    if i >= s.len() || i < 0 {
        s.len() as int
    } else if s[i] == 0 {
        i
    } else {
        nul_from(s, i + 1)
    }
}

/// The first zero byte at or after `i` comes no earlier than `i`.
proof fn lemma_nul_from(s: Seq<u8>, i: int)
    requires
        0 <= i,
    ensures
        i <= nul_from(s, i) || i > s.len(),
        nul_from(s, i) <= s.len(),
    decreases s.len() - i,
{
    if i < s.len() && s[i] != 0 {
        lemma_nul_from(s, i + 1);
    }
}

/// The text of a string tag (the command line or the boot loader's name): its bytes from
/// offset 8 up to the first zero byte.
pub fn tag_string(tag: &[u8]) -> (r: Vec<u8>)
    requires
        nul_from(tag@, 8) < tag@.len(),
    ensures
        r@ == tag@.subrange(8, nul_from(tag@, 8)),
{
    let mut out: Vec<u8> = Vec::new();
    let mut i: usize = 8;
    proof {
        lemma_nul_from(tag@, 8);
    }
    while tag[i] != 0
        invariant
            8 <= i <= nul_from(tag@, 8) < tag@.len(),
            nul_from(tag@, i as int) == nul_from(tag@, 8),
            out@ == tag@.subrange(8, i as int),
        decreases tag@.len() - i,
    {
        out.push(tag[i]);
        proof {
            lemma_nul_from(tag@, i + 1);
        }
        i = i + 1;
        proof {
            assert(out@ =~= tag@.subrange(8, i as int));
        }
    }
    out
}

/// The memory-map type of RAM that is free to use.
pub const MEMORY_AVAILABLE: u32 = 1;

/// Whether walking the memory map entries from offset `off` up to `end`, `entry_size` bytes
/// apart (rounded up to 8), reads only bytes that are there and ends, with no entry's end past
/// the last 64-bit address.
pub open spec fn entries_ok(s: Seq<u8>, end: int, entry_size: int, off: int) -> bool
    decreases (if off < end { end - off } else { 0 }),
{
    if off >= end {
        true
    } else {
        proof {
            lemma_round8(off + entry_size);
        }
        &&& entry_size >= 1
        &&& 0 <= off
        &&& off + 20 <= s.len()
        &&& le_u64(s, off) + le_u64(s, off + 8) <= u64::MAX
        &&& round8(off + entry_size) <= usize::MAX
        &&& entries_ok(s, end, entry_size, round8(off + entry_size))
    }
}

/// The available regions, as base and length, of the memory map entries from offset `off` up to
/// `end` that end above `max_paddr`, in order.
pub open spec fn available_entries(s: Seq<u8>, end: int, entry_size: int, off: int, max_paddr: u64) -> Seq<(usize, usize)>
    decreases (if off < end { end - off } else { 0 }),
{
    if off >= end || entry_size < 1 {
        Seq::empty()
    } else {
        proof {
            lemma_round8(off + entry_size);
        }
        let rest = available_entries(s, end, entry_size, round8(off + entry_size), max_paddr);
        if le_u32(s, off + 16) == MEMORY_AVAILABLE && le_u64(s, off) + le_u64(s, off + 8) > max_paddr {
            seq![(le_u64(s, off) as usize, le_u64(s, off + 8) as usize)] + rest
        } else {
            rest
        }
    }
}

/// The offset of entry `n` of a memory map whose first entry is at `first`, entries `entry_size`
/// bytes apart rounded up to 8.
pub open spec fn entry_offset(entry_size: int, first: int, n: nat) -> int
    decreases n,
{
    if n == 0 {
        first
    } else {
        round8(entry_offset(entry_size, first, (n - 1) as nat) + entry_size)
    }
}

proof fn lemma_entry_offset_next(entry_size: int, first: int, n: nat)
    ensures
        entry_offset(entry_size, round8(first + entry_size), n) == entry_offset(entry_size, first, n + 1),
    decreases n,
{
    if n > 0 {
        lemma_entry_offset_next(entry_size, first, (n - 1) as nat);
        assert(((n + 1) - 1) as nat == n);
        assert(entry_offset(entry_size, first, n + 1) == round8(entry_offset(entry_size, first, n) + entry_size));
        assert(entry_offset(entry_size, round8(first + entry_size), n) == round8(
            entry_offset(entry_size, round8(first + entry_size), (n - 1) as nat) + entry_size,
        ));
    } else {
        assert(entry_offset(entry_size, first, 1) == round8(entry_offset(entry_size, first, 0) + entry_size));
    }
}

/// Entry `n` of the memory map (first entry at `first`, entries `entry_size` bytes apart) lies
/// before `end`, is of type 1 (available RAM), ends above `max_paddr`, and has base and length
/// `r`.
pub open spec fn available_source(s: Seq<u8>, end: int, entry_size: int, first: int, max_paddr: u64, n: nat, r: (usize, usize)) -> bool {
    let o = entry_offset(entry_size, first, n);
    &&& o < end
    &&& le_u32(s, o + 16) == 1
    &&& le_u64(s, o) + le_u64(s, o + 8) > max_paddr
    &&& r == (le_u64(s, o) as usize, le_u64(s, o + 8) as usize)
}

/// Region `k` found from offset `off` comes from an available entry.
proof fn lemma_available_at(s: Seq<u8>, end: int, entry_size: int, off: int, max_paddr: u64, k: int)
    requires
        0 <= k < available_entries(s, end, entry_size, off, max_paddr).len(),
    ensures
        exists|n: nat| #[trigger] available_source(s, end, entry_size, off, max_paddr, n, available_entries(s, end, entry_size, off, max_paddr)[k]),
    decreases (if off < end { end - off } else { 0 }),
{
    lemma_round8(off + entry_size);
    let next = round8(off + entry_size);
    let all = available_entries(s, end, entry_size, off, max_paddr);
    let rest = available_entries(s, end, entry_size, next, max_paddr);
    let here = le_u32(s, off + 16) == MEMORY_AVAILABLE && le_u64(s, off) + le_u64(s, off + 8) > max_paddr;
    let head = (le_u64(s, off) as usize, le_u64(s, off + 8) as usize);
    if here {
        assert(all == seq![head] + rest);
    } else {
        assert(all == rest);
    }
    if here && k == 0 {
        assert(all[0] == head);
        assert(available_source(s, end, entry_size, off, max_paddr, 0, all[k]));
    } else {
        let j = if here { k - 1 } else { k };
        assert(all[k] == rest[j]);
        lemma_available_at(s, end, entry_size, next, max_paddr, j);
        let m = choose|m: nat| #[trigger] available_source(s, end, entry_size, next, max_paddr, m, rest[j]);
        lemma_entry_offset_next(entry_size, off, m);
        assert(available_source(s, end, entry_size, off, max_paddr, m + 1, all[k]));
    }
}

/// Only available RAM is reported: region `k` of those that `parse_memory` finds in a
/// memory-map tag, whichever it is, is the base and length of one of the tag's entries whose type is 1 (available RAM) and that
/// ends above `max_paddr`; an entry of any other type never appears.
pub proof fn lemma_parse_memory_available_only(tag: Seq<u8>, max_paddr: u64, k: int)
    requires
        0 <= k < available_entries(tag, 16 + le_u32(tag, 4), le_u32(tag, 8) as int, 16, max_paddr).len(),
    ensures
        exists|n: nat| #[trigger] available_source(
            tag,
            16 + le_u32(tag, 4),
            le_u32(tag, 8) as int,
            16,
            max_paddr,
            n,
            available_entries(tag, 16 + le_u32(tag, 4), le_u32(tag, 8) as int, 16, max_paddr)[k],
        ),
{
    lemma_available_at(tag, 16 + le_u32(tag, 4), le_u32(tag, 8) as int, 16, max_paddr, k);
}

/// The regions of available memory that end above `max_paddr`, from the memory-map tag `tag`:
/// the entries, `entry_size` bytes apart (the tag's third word), start 16 bytes into the tag,
/// and are read up to as many bytes past that start as the tag's length says.
pub fn parse_memory(tag: &[u8], max_paddr: u64) -> (r: Vec<(usize, usize)>)
    requires
        tag@.len() >= 16,
        16 + le_u32(tag@, 4) <= usize::MAX,
        entries_ok(tag@, 16 + le_u32(tag@, 4), le_u32(tag@, 8) as int, 16),
    ensures
        r@ == available_entries(tag@, 16 + le_u32(tag@, 4), le_u32(tag@, 8) as int, 16, max_paddr),
{
    let entry_size = read_le_u32(tag, 8);
    let length = read_le_u32(tag, 4);
    let end: usize = 16 + length as usize;
    let ghost s = tag@;
    let ghost total = available_entries(s, end as int, entry_size as int, 16, max_paddr);
    let mut regions: Vec<(usize, usize)> = Vec::new();
    let mut off: usize = 16;
    while off < end
        invariant
            s == tag@,
            end == 16 + le_u32(s, 4),
            entry_size == le_u32(s, 8),
            entries_ok(s, end as int, entry_size as int, off as int),
            regions@ + available_entries(s, end as int, entry_size as int, off as int, max_paddr) == total,
        decreases (if off < end { end - off } else { 0 }),
    {
        proof {
            lemma_round8(off + entry_size);
            assert(off + 20 <= tag@.len());
        }
        assert(off + 20 <= tag.len());
        let base = crate::paging::segment::read_le_u64(tag, off);
        let size = crate::paging::segment::read_le_u64(tag, off + 8);
        let ty = read_le_u32(tag, off + 16);
        let t = off + entry_size as usize;
        let next = t + (8 - t % 8) % 8;
        let ghost rest = available_entries(s, end as int, entry_size as int, next as int, max_paddr);
        proof {
            assert(next as int == round8(off + entry_size));
        }
        if ty == MEMORY_AVAILABLE && base + size > max_paddr {
            proof {
                assert(regions@.push((base as usize, size as usize)) + rest =~= regions@ + (seq![
                    (base as usize, size as usize),
                ] + rest));
            }
            regions.push((base as usize, size as usize));
        }
        off = next;
    }
    proof {
        assert(regions@ + available_entries(s, end as int, entry_size as int, off as int, max_paddr) =~= regions@);
    }
    regions
}

/// Whether the multiboot tags of `info` can be walked: `tags_ok` from the first tag.
pub fn tags_readable(info: &[u8], size: usize) -> (r: bool)
    ensures
        r == tags_ok(info@, size as int, 8),
{
    let mut off: usize = 8;
    while off < size
        invariant
            tags_ok(info@, size as int, 8) == tags_ok(info@, size as int, off as int),
        decreases (if off < size { size - off } else { 0 }),
    {
        if off > info.len() || info.len() - off < 8 {
            return false;
        }
        let ty = read_le_u32(info, off);
        if ty == 0 {
            return true;
        }
        let len = read_le_u32(info, off + 4);
        if len < 1 {
            return false;
        }
        proof {
            lemma_round8(off + len);
        }
        if off > usize::MAX - len as usize {
            return false;
        }
        let t = off + len as usize;
        let pad = (8 - t % 8) % 8;
        if t > usize::MAX - pad {
            return false;
        }
        let next = t + pad;
        assert(next as int == round8(off + len));
        off = next;
    }
    true
}

/// Whether the memory map of the tag `tag` can be read: the tag holds its header, its length
/// leaves room for the entries' end, and `entries_ok` holds from the first entry.
pub fn memory_map_readable(tag: &[u8]) -> (r: bool)
    ensures
        r == (tag@.len() >= 16 && 16 + le_u32(tag@, 4) <= usize::MAX && entries_ok(
            tag@,
            16 + le_u32(tag@, 4),
            le_u32(tag@, 8) as int,
            16,
        )),
{
    if tag.len() < 16 {
        return false;
    }
    let length = read_le_u32(tag, 4);
    let entry_size = read_le_u32(tag, 8);
    if length as usize > usize::MAX - 16 {
        return false;
    }
    let end: usize = 16 + length as usize;
    let ghost s = tag@;
    let mut off: usize = 16;
    while off < end
        invariant
            s == tag@,
            end == 16 + le_u32(s, 4),
            entry_size == le_u32(s, 8),
            16 <= off,
            entries_ok(s, end as int, entry_size as int, 16) == entries_ok(s, end as int, entry_size as int, off as int),
        decreases (if off < end { end - off } else { 0 }),
    {
        if entry_size < 1 || off > tag.len() || tag.len() - off < 20 {
            return false;
        }
        let base = crate::paging::segment::read_le_u64(tag, off);
        let size = crate::paging::segment::read_le_u64(tag, off + 8);
        if base > u64::MAX - size {
            return false;
        }
        proof {
            lemma_round8(off + entry_size);
        }
        if off > usize::MAX - entry_size as usize {
            return false;
        }
        let t = off + entry_size as usize;
        let pad = (8 - t % 8) % 8;
        if t > usize::MAX - pad {
            return false;
        }
        let next = t + pad;
        assert(next as int == round8(off + entry_size));
        off = next;
    }
    true
}

/// Whether the string of the tag `tag` ends inside it: a zero byte follows offset 8.
pub fn string_ends(tag: &[u8]) -> (r: bool)
    ensures
        r == (nul_from(tag@, 8) < tag@.len()),
{
    let mut i: usize = 8;
    while i < tag.len()
        invariant
            8 <= i,
            nul_from(tag@, i as int) == nul_from(tag@, 8),
        decreases tag@.len() - i,
    {
        if tag[i] == 0 {
            return true;
        }
        i = i + 1;
    }
    false
}

} // verus!
