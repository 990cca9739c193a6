//! The decisions behind the API server's routes: inventory counts, player
//! roles, data import, log access and ordering.
use crate::paths::{path_join, spec_path_join};
use crate::tappables::strings_view;
use crate::text::{
    chars_of, lemma_text_lt_irreflexive, lemma_text_lt_total, lemma_text_lt_transitive, text_less,
    text_lt,
};
use vstd::prelude::*;

verus! {

/// How many bytes from the end of a log file a read returns.
pub const DEFAULT_LOG_TAIL_BYTES: u64 = 65536;

/// The new count of an item after adding `delta`: never below zero, and kept
/// to 32 bits, so that a sum past `u32::MAX` wraps around.
pub open spec fn spec_updated_count(current: u32, delta: i32) -> u32 {
    let sum = current + delta;
    if sum <= 0 {
        0
    } else if sum <= u32::MAX {
        sum as u32
    } else {
        (sum - 0x1_0000_0000) as u32
    }
}

pub fn updated_item_count(current: u32, delta: i32) -> (updated: u32)
    ensures
        updated == spec_updated_count(current, delta),
{
    let sum: i64 = current as i64 + delta as i64;
    if sum <= 0 {
        0
    } else if sum <= 4294967295 {
        sum as u32
    } else {
        (sum - 4294967296) as u32
    }
}

/// An inventory entry: an item id and how many of it a player has.
pub open spec fn entries_view(items: Seq<(String, u32)>) -> Seq<(Seq<char>, u32)> {
    items.map_values(|e: (String, u32)| (e.0@, e.1))
}

/// No item id occurs twice.
pub open spec fn keys_unique(s: Seq<(Seq<char>, u32)>) -> bool {
    forall|i: int, j: int| 0 <= i < j < s.len() ==> (#[trigger] s[i]).0 != (#[trigger] s[j]).0
}

pub open spec fn has_key(s: Seq<(Seq<char>, u32)>, key: Seq<char>) -> bool {
    exists|i: int| 0 <= i < s.len() && (#[trigger] s[i]).0 == key
}

/// The count recorded for `key`, if there is one.
pub open spec fn spec_lookup(s: Seq<(Seq<char>, u32)>, key: Seq<char>) -> Option<u32> {
    if has_key(s, key) {
        Some(s[choose|i: int| 0 <= i < s.len() && (#[trigger] s[i]).0 == key].1)
    } else {
        None
    }
}

proof fn lemma_lookup_at(s: Seq<(Seq<char>, u32)>, i: int)
    requires
        keys_unique(s),
        0 <= i < s.len(),
    ensures
        spec_lookup(s, s[i].0) == Some(s[i].1),
{
    assert(has_key(s, s[i].0));
    let j = choose|j: int| 0 <= j < s.len() && (#[trigger] s[j]).0 == s[i].0;
    if j != i {
        if j < i {
            assert(s[j].0 != s[i].0);
        } else {
            assert(s[i].0 != s[j].0);
        }
    }
}

/// The count a player has of `key`: zero when there is no entry.
pub open spec fn count_or_zero(s: Seq<(Seq<char>, u32)>, key: Seq<char>) -> u32 {
    match spec_lookup(s, key) {
        Some(count) => count,
        None => 0,
    }
}

fn find_entry(items: &Vec<(String, u32)>, item_id: &String) -> (found: Option<usize>)
    ensures
        match found {
            Some(i) => i < items@.len() && entries_view(items@)[i as int].0 == item_id@,
            None => !has_key(entries_view(items@), item_id@),
        },
{
    let ghost s = entries_view(items@);
    let mut i: usize = 0;
    while i < items.len()
        invariant
            i <= items@.len(),
            s == entries_view(items@),
            forall|j: int| 0 <= j < i ==> (#[trigger] s[j]).0 != item_id@,
        decreases items@.len() - i,
    {
        if items[i].0 == *item_id {
            return Some(i);
        }
        i = i + 1;
    }
    proof {
        if has_key(s, item_id@) {
            let j = choose|j: int| 0 <= j < s.len() && (#[trigger] s[j]).0 == item_id@;
            assert(s[j].0 != item_id@);
        }
    }
    None
}

/// Adds `delta` to a player's count of `item_id`: the entry goes when the
/// new count is zero, and is set to the new count otherwise; every other
/// entry stays as it was.
pub fn apply_item_delta(items: &mut Vec<(String, u32)>, item_id: &str, delta: i32)
    requires
        keys_unique(entries_view(old(items)@)),
    ensures
        keys_unique(entries_view(final(items)@)),
        spec_lookup(entries_view(final(items)@), item_id@) == ({
            let updated = spec_updated_count(count_or_zero(entries_view(old(items)@), item_id@), delta);
            if updated == 0 {
                None
            } else {
                Some(updated)
            }
        }),
        forall|key: Seq<char>|
            key != item_id@ ==> spec_lookup(entries_view(final(items)@), key) == spec_lookup(
                entries_view(old(items)@),
                key,
            ),
{
    let ghost s = entries_view(items@);
    let id = item_id.to_owned();
    let found = find_entry(items, &id);
    let current = match found {
        Some(i) => items[i].1,
        None => 0,
    };
    proof {
        if let Some(i) = found {
            lemma_lookup_at(s, i as int);
        }
    }
    let updated = updated_item_count(current, delta);
    match found {
        Some(i) => {
            if updated == 0 {
                items.remove(i);
                proof {
                    let r = entries_view(items@);
                    assert(r =~= s.remove(i as int));
                    assert forall|a: int, b: int| 0 <= a < b < r.len() implies (#[trigger] r[a]).0 != (#[trigger] r[b]).0 by {
                        let a2 = if a < i { a } else { a + 1 };
                        let b2 = if b < i { b } else { b + 1 };
                        assert(r[a] == s[a2] && r[b] == s[b2]);
                    }
                    if has_key(r, item_id@) {
                        let j = choose|j: int| 0 <= j < r.len() && (#[trigger] r[j]).0 == item_id@;
                        let j2 = if j < i { j } else { j + 1 };
                        assert(s[j2].0 == item_id@);
                    }
                    assert forall|key: Seq<char>| key != item_id@ implies spec_lookup(r, key) == spec_lookup(s, key) by {
                        if has_key(s, key) {
                            let j = choose|j: int| 0 <= j < s.len() && (#[trigger] s[j]).0 == key;
                            lemma_lookup_at(s, j);
                            assert(j != i);
                            let j2 = if j < i { j } else { j - 1 };
                            assert(r[j2] == s[j]);
                            lemma_lookup_at(r, j2);
                        }
                        if has_key(r, key) {
                            let j = choose|j: int| 0 <= j < r.len() && (#[trigger] r[j]).0 == key;
                            let j2 = if j < i { j } else { j + 1 };
                            assert(s[j2].0 == key);
                        }
                    }
                }
            } else {
                items.set(i, (id, updated));
                proof {
                    let r = entries_view(items@);
                    assert(r =~= s.update(i as int, (item_id@, updated)));
                    assert forall|a: int, b: int| 0 <= a < b < r.len() implies (#[trigger] r[a]).0 != (#[trigger] r[b]).0 by {
                        assert(s[a].0 != s[b].0);
                    }
                    lemma_lookup_at(r, i as int);
                    assert forall|key: Seq<char>| key != item_id@ implies spec_lookup(r, key) == spec_lookup(s, key) by {
                        if has_key(s, key) {
                            let j = choose|j: int| 0 <= j < s.len() && (#[trigger] s[j]).0 == key;
                            lemma_lookup_at(s, j);
                            lemma_lookup_at(r, j);
                        }
                        if has_key(r, key) {
                            let j = choose|j: int| 0 <= j < r.len() && (#[trigger] r[j]).0 == key;
                            assert(s[j].0 == key);
                        }
                    }
                }
            }
        },
        None => {
            if updated != 0 {
                items.push((id, updated));
                proof {
                    let r = entries_view(items@);
                    assert(r =~= s.push((item_id@, updated)));
                    assert forall|a: int, b: int| 0 <= a < b < r.len() implies (#[trigger] r[a]).0 != (#[trigger] r[b]).0 by {
                        if b == s.len() {
                            assert(s[a].0 != item_id@);
                        } else {
                            assert(s[a].0 != s[b].0);
                        }
                    }
                    lemma_lookup_at(r, s.len() as int);
                    assert forall|key: Seq<char>| key != item_id@ implies spec_lookup(r, key) == spec_lookup(s, key) by {
                        if has_key(s, key) {
                            let j = choose|j: int| 0 <= j < s.len() && (#[trigger] s[j]).0 == key;
                            lemma_lookup_at(s, j);
                            assert(r[j] == s[j]);
                            lemma_lookup_at(r, j);
                        }
                        if has_key(r, key) {
                            let j = choose|j: int| 0 <= j < r.len() && (#[trigger] r[j]).0 == key;
                            assert(j != s.len());
                            assert(s[j].0 == key);
                        }
                    }
                }
            }
        },
    }
}


/// Texts in strictly increasing text order: sorted, none twice.
pub open spec fn strictly_sorted(s: Seq<Seq<char>>) -> bool {
    forall|i: int, j: int| 0 <= i < j < s.len() ==> text_lt(#[trigger] s[i], #[trigger] s[j])
}

/// A player's roles as they are kept: sorted, each once, and exactly the
/// roles that were given.
pub fn normalize_roles(roles: Vec<String>) -> (normalized: Vec<String>)
    ensures
        strictly_sorted(strings_view(normalized@)),
        forall|role: Seq<char>| strings_view(normalized@).contains(role) <==> strings_view(roles@).contains(role),
{
    let ghost given = strings_view(roles@);
    let mut out: Vec<String> = Vec::new();
    let mut i: usize = 0;
    while i < roles.len()
        invariant
            i <= roles@.len(),
            given == strings_view(roles@),
            strictly_sorted(strings_view(out@)),
            forall|role: Seq<char>| strings_view(out@).contains(role) <==> given.take(i as int).contains(role),
        decreases roles@.len() - i,
    {
        let role = &roles[i];
        let ghost before = strings_view(out@);
        let mut k: usize = 0;
        while k < out.len() && text_less(out[k].as_str(), role.as_str())
            invariant
                k <= out@.len(),
                before == strings_view(out@),
                forall|j: int| 0 <= j < k ==> text_lt(#[trigger] before[j], role@),
            decreases out@.len() - k,
        {
            k = k + 1;
        }
        proof {
            assert(given.take(i + 1) =~= given.take(i as int).push(role@));
            assert(given[i as int] == role@);
        }
        if k < out.len() && out[k] == *role {
            proof {
                assert forall|x: Seq<char>| before.contains(x) <==> given.take(i + 1).contains(x) by {
                    if given.take(i + 1).contains(x) && !given.take(i as int).contains(x) {
                        let n = choose|n: int| 0 <= n < given.take(i + 1).len() && #[trigger] given.take(i + 1)[n] == x;
                        if n < i {
                            assert(given.take(i as int)[n] == x);
                        }
                        assert(before[k as int] == x);
                    }
                    if given.take(i as int).contains(x) {
                        let n = choose|n: int| 0 <= n < given.take(i as int).len() && #[trigger] given.take(i as int)[n] == x;
                        assert(given.take(i + 1)[n] == x);
                    }
                }
            }
        } else {
            let copy = role.clone();
            out.insert(k, copy);
            proof {
                let after = strings_view(out@);
                assert(after =~= before.insert(k as int, role@));
                if k < before.len() {
                    lemma_text_lt_total(before[k as int], role@);
                }
                assert forall|a: int, b: int| 0 <= a < b < after.len() implies text_lt(#[trigger] after[a], #[trigger] after[b]) by {
                    if b < k {
                        assert(after[a] == before[a] && after[b] == before[b]);
                    } else if b == k {
                        assert(after[a] == before[a]);
                    } else if a == k {
                        assert(after[b] == before[b - 1]);
                        if b - 1 > k {
                            lemma_text_lt_transitive(role@, before[k as int], before[b - 1]);
                        }
                    } else if a < k {
                        assert(after[a] == before[a] && after[b] == before[b - 1]);
                    } else {
                        assert(after[a] == before[a - 1] && after[b] == before[b - 1]);
                    }
                }
                assert forall|x: Seq<char>| after.contains(x) <==> given.take(i + 1).contains(x) by {
                    if after.contains(x) {
                        let n = choose|n: int| 0 <= n < after.len() && after[n] == x;
                        if n < k {
                            assert(before[n] == x);
                            assert(before.contains(x));
                        } else if n > k {
                            assert(before[n - 1] == x);
                            assert(before.contains(x));
                        } else {
                            assert(x == role@);
                        }
                        if x != role@ {
                            assert(given.take(i as int).contains(x));
                            let m = choose|m: int| 0 <= m < given.take(i as int).len() && #[trigger] given.take(i as int)[m] == x;
                            assert(given.take(i + 1)[m] == x);
                        } else {
                            assert(given.take(i + 1)[i as int] == x);
                        }
                    }
                    if given.take(i + 1).contains(x) {
                        let n = choose|n: int| 0 <= n < given.take(i + 1).len() && #[trigger] given.take(i + 1)[n] == x;
                        if n < i {
                            assert(given.take(i as int)[n] == x);
                            assert(given.take(i as int).contains(x));
                            assert(before.contains(x));
                            let m = choose|m: int| 0 <= m < before.len() && before[m] == x;
                            if m < k {
                                assert(after[m] == x);
                            } else {
                                assert(after[m + 1] == x);
                            }
                        } else {
                            assert(after[k as int] == x);
                        }
                    }
                }
            }
        }
        i = i + 1;
    }
    proof {
        assert(given.take(i as int) =~= given);
    }
    out
}

/// Kept roles are in the order, and hold each role once.
pub proof fn law_normalized_roles_unique(s: Seq<Seq<char>>, i: int, j: int)
    requires
        strictly_sorted(s),
        0 <= i < j < s.len(),
    ensures
        s[i] != s[j],
{
    lemma_text_lt_irreflexive(s[i]);
}


/// The characters that `char::is_whitespace` accepts: those with the Unicode
/// `White_Space` property.
pub open spec fn is_unicode_whitespace(c: char) -> bool {
    ||| '\u{9}' <= c && c <= '\u{d}'
    ||| c == ' '
    ||| c == '\u{85}'
    ||| c == '\u{a0}'
    ||| c == '\u{1680}'
    ||| '\u{2000}' <= c && c <= '\u{200a}'
    ||| c == '\u{2028}'
    ||| c == '\u{2029}'
    ||| c == '\u{202f}'
    ||| c == '\u{205f}'
    ||| c == '\u{3000}'
}

fn is_whitespace_char(c: char) -> (white: bool)
    ensures
        white == is_unicode_whitespace(c),
{
    ('\u{9}' <= c && c <= '\u{d}') || c == ' ' || c == '\u{85}' || c == '\u{a0}' || c == '\u{1680}' || ('\u{2000}'
        <= c && c <= '\u{200a}') || c == '\u{2028}' || c == '\u{2029}' || c == '\u{202f}' || c == '\u{205f}' || c
        == '\u{3000}'
}

/// Text that is empty once trimmed: every character is white space.
pub open spec fn spec_is_blank(text: Seq<char>) -> bool {
    forall|i: int| 0 <= i < text.len() ==> is_unicode_whitespace(#[trigger] text[i])
}

pub fn is_blank(text: &str) -> (blank: bool)
    ensures
        blank == spec_is_blank(text@),
{
    let chars = chars_of(text);
    let mut i: usize = 0;
    while i < chars.len()
        invariant
            i <= chars@.len(),
            chars@ == text@,
            forall|j: int| 0 <= j < i ==> is_unicode_whitespace(#[trigger] text@[j]),
        decreases chars@.len() - i,
    {
        if !is_whitespace_char(chars[i]) {
            return false;
        }
        i = i + 1;
    }
    true
}

/// What an import does with one record.
#[derive(Clone, Copy, Debug, PartialEq, Eq, Structural)]
pub enum ImportAction {
    /// The object exists and merging was not asked for: the record is skipped.
    SkipExisting,
    /// The record is written over an existing object, with a warning.
    MergeOver,
    /// The record is written as a new object.
    Import,
}

/// Whether a record with a blank type or id is refused before anything is
/// read.
pub fn import_precheck(object_type: &str, id: &str) -> (blank: bool)
    ensures
        blank == (spec_is_blank(object_type@) || spec_is_blank(id@)),
{
    is_blank(object_type) || is_blank(id)
}

/// What an import does with a record whose object reads at
/// `existing_version`: an object that was written (version above one) is
/// skipped unless merging was asked for.
pub fn import_action(existing_version: i64, merge: bool) -> (action: ImportAction)
    ensures
        action == if existing_version > 1 && !merge {
            ImportAction::SkipExisting
        } else if existing_version > 1 {
            ImportAction::MergeOver
        } else {
            ImportAction::Import
        },
{
    if existing_version > 1 && !merge {
        ImportAction::SkipExisting
    } else if existing_version > 1 {
        ImportAction::MergeOver
    } else {
        ImportAction::Import
    }
}

/// Whether a request may reach the logs: always when no secret is set, and
/// otherwise only when the request supplies that secret.
pub fn log_secret_accepted(configured: Option<&str>, supplied: Option<&str>) -> (accepted: bool)
    ensures
        accepted == match configured {
            None => true,
            Some(secret) => match supplied {
                Some(given) => given@ == secret@,
                None => false,
            },
        },
{
    match configured {
        None => true,
        Some(secret) => match supplied {
            Some(given) => given.to_owned() == secret.to_owned(),
            None => false,
        },
    }
}

/// A log file name that stays inside the log directory: no `/`, no `\\`
/// and no `..`.
pub open spec fn spec_is_safe_child_name(name: Seq<char>) -> bool {
    &&& !name.contains('/')
    &&& !name.contains('\\')
    &&& forall|i: int| 0 <= i < name.len() - 1 ==> !(#[trigger] name[i] == '.' && name[i + 1] == '.')
}

pub fn is_safe_child_name(name: &str) -> (safe: bool)
    ensures
        safe == spec_is_safe_child_name(name@),
{
    let chars = chars_of(name);
    let mut i: usize = 0;
    while i < chars.len()
        invariant
            i <= chars@.len(),
            chars@ == name@,
            forall|j: int| 0 <= j < i ==> #[trigger] name@[j] != '/' && name@[j] != '\\',
            forall|j: int| 0 <= j < i && j < name@.len() - 1 ==> !(#[trigger] name@[j] == '.' && name@[j + 1] == '.'),
        decreases chars@.len() - i,
    {
        let c = chars[i];
        if c == '/' || c == '\\' {
            proof {
                assert(name@[i as int] == c);
            }
            return false;
        }
        if c == '.' && i + 1 < chars.len() && chars[i + 1] == '.' {
            proof {
                assert(name@[i as int] == '.' && name@[i + 1] == '.');
            }
            return false;
        }
        i = i + 1;
    }
    proof {
        if name@.contains('/') {
            let j = choose|j: int| 0 <= j < name@.len() && name@[j] == '/';
            assert(name@[j] != '/');
        }
        if name@.contains('\\') {
            let j = choose|j: int| 0 <= j < name@.len() && name@[j] == '\\';
            assert(name@[j] != '\\');
        }
    }
    true
}

/// The path of log file `name` under `root`, when the name stays inside it.
pub fn safe_child_path(root: &std::path::PathBuf, name: &str) -> (path: Option<std::path::PathBuf>)
    ensures
        path == if spec_is_safe_child_name(name@) {
            Some(spec_path_join(*root, name@))
        } else {
            None::<std::path::PathBuf>
        },
{
    if !is_safe_child_name(name) {
        return None;
    }
    Some(path_join(root, name))
}

/// Where in a log file of `length` bytes a read starts: at most the last
/// `DEFAULT_LOG_TAIL_BYTES` bytes are returned.
pub fn log_tail_start(length: u64) -> (start: u64)
    ensures
        start == if length > DEFAULT_LOG_TAIL_BYTES {
            length - DEFAULT_LOG_TAIL_BYTES
        } else {
            0
        },
{
    if length > DEFAULT_LOG_TAIL_BYTES {
        length - DEFAULT_LOG_TAIL_BYTES
    } else {
        0
    }
}


/// A file in the log directory.
#[derive(Clone, Debug)]
pub struct LogFileInfo {
    pub name: String,
    pub bytes: u64,
    pub modified_ms: Option<u64>,
}

/// How recent a file is: a known modification time ranks above an unknown
/// one, and a later time above an earlier one.
pub open spec fn age_rank(modified_ms: Option<u64>) -> int {
    match modified_ms {
        Some(ms) => ms as int,
        None => -1,
    }
}

/// How many files at the front of `sorted` are at least as recent as `rank`.
pub open spec fn newer_prefix(sorted: Seq<LogFileInfo>, rank: int) -> int
    decreases sorted.len(),
{
    if sorted.len() == 0 {
        0
    } else if age_rank(sorted[0].modified_ms) >= rank {
        1 + newer_prefix(sorted.drop_first(), rank)
    } else {
        0
    }
}

/// The files newest first, files equally recent in the order they came:
/// each file goes after the files before it that are at least as recent.
pub open spec fn spec_newest_first(files: Seq<LogFileInfo>) -> Seq<LogFileInfo>
    decreases files.len(),
{
    if files.len() == 0 {
        files
    } else {
        let sorted = spec_newest_first(files.drop_last());
        sorted.insert(newer_prefix(sorted, age_rank(files.last().modified_ms)), files.last())
    }
}

pub open spec fn newest_first_sorted(s: Seq<LogFileInfo>) -> bool {
    forall|i: int, j: int| 0 <= i < j < s.len() ==> age_rank((#[trigger] s[i]).modified_ms) >= age_rank(
        (#[trigger] s[j]).modified_ms,
    )
}

proof fn lemma_newer_prefix(sorted: Seq<LogFileInfo>, rank: int)
    ensures
        0 <= newer_prefix(sorted, rank) <= sorted.len(),
        forall|i: int| 0 <= i < newer_prefix(sorted, rank) ==> age_rank((#[trigger] sorted[i]).modified_ms) >= rank,
        newer_prefix(sorted, rank) < sorted.len() ==> age_rank(sorted[newer_prefix(sorted, rank)].modified_ms) < rank,
    decreases sorted.len(),
{
    if sorted.len() > 0 && age_rank(sorted[0].modified_ms) >= rank {
        lemma_newer_prefix(sorted.drop_first(), rank);
        assert forall|i: int| 0 <= i < newer_prefix(sorted, rank) implies age_rank((#[trigger] sorted[i]).modified_ms) >= rank by {
            if i > 0 {
                assert(sorted[i] == sorted.drop_first()[i - 1]);
            }
        }
        if newer_prefix(sorted, rank) < sorted.len() {
            assert(sorted[newer_prefix(sorted, rank)] == sorted.drop_first()[newer_prefix(sorted.drop_first(), rank)]);
        }
    }
}

/// Putting files newest first keeps every file, each as often as it came,
/// and leaves them ordered from the most recent down.
pub proof fn law_newest_first_is_sorted_permutation(files: Seq<LogFileInfo>)
    ensures
        newest_first_sorted(spec_newest_first(files)),
        spec_newest_first(files).to_multiset() == files.to_multiset(),
    decreases files.len(),
{
    broadcast use vstd::seq_lib::to_multiset_insert, vstd::seq_lib::to_multiset_build;

    if files.len() > 0 {
        let init = files.drop_last();
        law_newest_first_is_sorted_permutation(init);
        let sorted = spec_newest_first(init);
        let x = files.last();
        let r = age_rank(x.modified_ms);
        let p = newer_prefix(sorted, r);
        lemma_newer_prefix(sorted, r);
        let out = sorted.insert(p, x);
        assert forall|i: int, j: int| 0 <= i < j < out.len() implies age_rank((#[trigger] out[i]).modified_ms) >= age_rank(
            (#[trigger] out[j]).modified_ms,
        ) by {
            if j < p {
                assert(out[i] == sorted[i] && out[j] == sorted[j]);
            } else if j == p {
                assert(out[i] == sorted[i]);
            } else if i == p {
                assert(out[j] == sorted[j - 1]);
                if j - 1 > p {
                    assert(age_rank(sorted[p].modified_ms) >= age_rank(sorted[j - 1].modified_ms));
                }
            } else if i < p {
                assert(out[i] == sorted[i] && out[j] == sorted[j - 1]);
            } else {
                assert(out[i] == sorted[i - 1] && out[j] == sorted[j - 1]);
            }
        }
        assert(files =~= init.push(x));
    }
}

fn position_by_age(sorted: &Vec<LogFileInfo>, rank_of: Option<u64>) -> (position: usize)
    ensures
        position == newer_prefix(sorted@, age_rank(rank_of)),
        position <= sorted@.len(),
{
    let mut k: usize = 0;
    proof {
        assert(sorted@.skip(0) =~= sorted@);
    }
    while k < sorted.len() && !older(sorted[k].modified_ms, rank_of)
        invariant
            k <= sorted@.len(),
            newer_prefix(sorted@, age_rank(rank_of)) == k + newer_prefix(sorted@.skip(k as int), age_rank(rank_of)),
        decreases sorted@.len() - k,
    {
        proof {
            assert(sorted@.skip(k as int).drop_first() =~= sorted@.skip(k + 1));
            assert(sorted@.skip(k as int)[0] == sorted@[k as int]);
        }
        k = k + 1;
    }
    proof {
        if k < sorted.len() {
            assert(sorted@.skip(k as int)[0] == sorted@[k as int]);
        }
    }
    k
}

/// Whether a file modified at `a` is less recent than one modified at `b`.
fn older(a: Option<u64>, b: Option<u64>) -> (less_recent: bool)
    ensures
        less_recent == (age_rank(a) < age_rank(b)),
{
    match (a, b) {
        (None, None) => false,
        (None, Some(_)) => true,
        (Some(_), None) => false,
        (Some(x), Some(y)) => x < y,
    }
}

/// Orders log files newest first; files equally recent keep their order.
pub fn order_logs_newest_first(files: Vec<LogFileInfo>) -> (ordered: Vec<LogFileInfo>)
    ensures
        ordered@ == spec_newest_first(files@),
{
    let ghost all = files@;
    assert(all.len() == files.len());
    let mut rest = files;
    let mut out: Vec<LogFileInfo> = Vec::new();
    let mut n: usize = 0;
    proof {
        assert(all.take(0) =~= Seq::<LogFileInfo>::empty());
        assert(all.skip(0) =~= all);
    }
    while rest.len() > 0
        invariant
            n <= all.len(),
            all.len() <= usize::MAX,
            rest@ == all.skip(n as int),
            out@ == spec_newest_first(all.take(n as int)),
        decreases rest@.len(),
    {
        let file = rest.remove(0);
        proof {
            assert(all.skip(n as int)[0] == file);
            assert(all[n as int] == file);
            assert(rest@ =~= all.skip(n + 1));
            assert(all.take(n + 1).drop_last() =~= all.take(n as int));
            assert(all.take(n + 1).last() == file);
        }
        let position = position_by_age(&out, file.modified_ms);
        out.insert(position, file);
        n = n + 1;
    }
    proof {
        assert(all.skip(n as int).len() == 0);
        assert(all.take(n as int) =~= all);
    }
    out
}

/// Adding a delta to a count gives their sum when it is positive and fits in
/// 32 bits, zero when the sum is not positive, and the sum less 2^32 above that.
pub proof fn law_updated_count_adds_the_delta(current: u32, delta: i32)
    ensures
        0 < current + delta <= u32::MAX ==> spec_updated_count(current, delta) == current + delta,
        current + delta <= 0 ==> spec_updated_count(current, delta) == 0,
        current + delta > u32::MAX ==> spec_updated_count(current, delta) == current + delta - 0x1_0000_0000,
{
}

/// A log file name is accepted exactly when it holds no `/`, no `\\` and no
/// two dots in a row.
pub proof fn law_safe_child_names(name: Seq<char>)
    ensures
        spec_is_safe_child_name(name) ==> forall|i: int| 0 <= i < name.len() ==> (#[trigger] name[i]) != '/' && name[i] != '\\',
        spec_is_safe_child_name(name) ==> forall|i: int| 0 <= i < name.len() - 1 ==> !((#[trigger] name[i]) == '.' && name[i + 1] == '.'),
        (exists|i: int| 0 <= i < name.len() && ((#[trigger] name[i]) == '/' || name[i] == '\\')) ==> !spec_is_safe_child_name(name),
        (exists|i: int| 0 <= i < name.len() - 1 && (#[trigger] name[i]) == '.' && name[i + 1] == '.') ==> !spec_is_safe_child_name(name),
{
    if spec_is_safe_child_name(name) {
        assert forall|i: int| 0 <= i < name.len() implies (#[trigger] name[i]) != '/' && name[i] != '\\' by {
            if name[i] == '/' {
                assert(name.contains('/'));
            }
            if name[i] == '\\' {
                assert(name.contains('\\'));
            }
        }
    }
}

} // verus!
