//! Directory listings: which entries are shown, in which order, and the
//! synthetic entry that leads back up.
//!
//! Reading the directory is done by the caller; this module takes the entries
//! it found and decides what the listing is.
use vstd::prelude::*;
use vstd::multiset::Multiset;
use crate::order::{text_lt, text_less, lemma_text_lt_irreflexive, lemma_text_lt_transitive, lemma_text_lt_total};
use crate::path::RelativePath;
use fmtsize::{Conventional, FmtSize};

verus! {

broadcast use vstd::seq_lib::group_to_multiset_ensures;

/// Whether an entry is a directory or a file.
#[derive(Clone, Copy, Debug, PartialEq, Eq, Structural)]
pub enum EntryKind {
    Directory,
    File,
}

/// One row of a listing. `size_bytes` is 0 for directories.
#[derive(Clone, Debug, PartialEq, Eq)]
pub struct DirectoryEntry {
    pub kind: EntryKind,
    pub name: String,
    pub size_bytes: u64,
}

/// Why a directory could not be listed.
#[derive(Clone, Debug, PartialEq, Eq)]
pub enum ListError {
    /// The requested path could leave the shared root.
    Traversal,
    /// The directory does not exist.
    NotFound,
    /// The directory exists but could not be read; the text describes why.
    Io(String),
}

impl DirectoryEntry {
    /// The placeholder row for an entry whose metadata could not be read: a
    /// file entry of size 0 that carries the description of the failure.
    pub fn unreadable(description: String) -> (r: DirectoryEntry)
        ensures
            r.kind == EntryKind::File,
            r.name == description,
            r.size_bytes == 0,
    {
        DirectoryEntry { kind: EntryKind::File, name: description, size_bytes: 0 }
    }

    /// The name as shown to users: directories carry a trailing `/`.
    pub fn display_name(&self) -> (r: String)
        ensures
            r@ == (if self.kind == EntryKind::Directory {
                self.name@ + seq!['/']
            } else {
                self.name@
            }),
    {
        let mut r = self.name.clone();
        if let EntryKind::Directory = self.kind {
            r.append("/");
            proof {
                reveal_strlit("/");
            }
        }
        r
    }

    /// The size as shown to users: a human-readable size for files, nothing
    /// for directories.
    pub fn size_text(&self) -> (r: String)
        ensures
            r@ == (if self.kind == EntryKind::File {
                size_label_of(self.size_bytes)
            } else {
                Seq::<char>::empty()
            }),
    {
        match self.kind {
            EntryKind::File => size_label(self.size_bytes),
            EntryKind::Directory => String::new(),
        }
    }
}

/// The case-insensitive form of a name, as `str::to_lowercase` gives it.
pub uninterp spec fn lower_of(s: Seq<char>) -> Seq<char>;

/// The human-readable size text of `fmtsize` in conventional (1024-based) units.
pub uninterp spec fn size_label_of(size: u64) -> Seq<char>;

/// Relies on `str::to_lowercase`: the lowercase form depends on the characters alone.
#[verifier::external_body]
fn to_lower(s: &str) -> (r: String)
    ensures
        r@ == lower_of(s@),
{
    s.to_lowercase()
}

/// Relies on `fmtsize::FmtSize::fmt_size` with `Conventional` units, rendered
/// through its `Display`: the text depends on the size alone.
#[verifier::external_body]
fn size_label(size: u64) -> (r: String)
    ensures
        r@ == size_label_of(size),
{
    size.fmt_size(Conventional).to_string()
}

/// Directories sort before files.
pub open spec fn kind_rank(k: EntryKind) -> int {
    match k {
        EntryKind::Directory => 0,
        EntryKind::File => 1,
    }
}

/// `a`, whose name compares as `ka`, is listed strictly before `b`, whose name
/// compares as `kb`: directories first, then by the compared forms, and equal
/// compared forms by the exact names.
pub open spec fn keyed_before(a: DirectoryEntry, ka: Seq<char>, b: DirectoryEntry, kb: Seq<char>) -> bool {
    ||| kind_rank(a.kind) < kind_rank(b.kind)
    ||| kind_rank(a.kind) == kind_rank(b.kind) && text_lt(ka, kb)
    ||| kind_rank(a.kind) == kind_rank(b.kind) && ka == kb && text_lt(a.name@, b.name@)
}

/// `a` is listed strictly before `b` when names compare as `key` gives them.
pub open spec fn entry_before_by(
    a: DirectoryEntry,
    b: DirectoryEntry,
    key: spec_fn(Seq<char>) -> Seq<char>,
) -> bool {
    keyed_before(a, key(a.name@), b, key(b.name@))
}

/// `a` is listed strictly before `b`: directories first, then by case-insensitive
/// name, and names that differ only in case by their exact text.
pub open spec fn entry_before(a: DirectoryEntry, b: DirectoryEntry) -> bool {
    keyed_before(a, lower_of(a.name@), b, lower_of(b.name@))
}

/// No entry of `s` is listed before one that precedes it, names compared as `key` gives them.
pub open spec fn is_sorted_by(s: Seq<DirectoryEntry>, key: spec_fn(Seq<char>) -> Seq<char>) -> bool {
    forall|i: int, j: int|
        0 <= i < j < s.len() ==> !entry_before_by(#[trigger] s[j], #[trigger] s[i], key)
}

/// No entry of `s` is listed before one that precedes it.
pub open spec fn is_sorted(s: Seq<DirectoryEntry>) -> bool {
    forall|i: int, j: int| 0 <= i < j < s.len() ==> !entry_before(#[trigger] s[j], #[trigger] s[i])
}

/// `keys` gives one compared form for each entry, the same for equal names.
pub open spec fn keys_consistent(entries: Seq<DirectoryEntry>, keys: Seq<String>) -> bool {
    &&& keys.len() == entries.len()
    &&& forall|i: int, j: int|
        0 <= i < entries.len() && 0 <= j < entries.len() && (#[trigger] entries[i]).name@ == (
        #[trigger] entries[j]).name@ ==> keys[i]@ == keys[j]@
}

/// The compared form that `keys` gives each name of `entries`.
pub open spec fn key_of(entries: Seq<DirectoryEntry>, keys: Seq<String>) -> spec_fn(Seq<char>) -> Seq<
    char,
> {
    |n: Seq<char>|
        if exists|i: int| 0 <= i < entries.len() && (#[trigger] entries[i]).name@ == n {
            keys[choose|i: int| 0 <= i < entries.len() && (#[trigger] entries[i]).name@ == n]@
        } else {
            n
        }
}

proof fn lemma_key_of_at(entries: Seq<DirectoryEntry>, keys: Seq<String>, i: int)
    requires
        keys_consistent(entries, keys),
        0 <= i < entries.len(),
    ensures
        key_of(entries, keys)(entries[i].name@) == keys[i]@,
{
    let n = entries[i].name@;
    assert(exists|k: int| 0 <= k < entries.len() && (#[trigger] entries[k]).name@ == n);
    let j = choose|k: int| 0 <= k < entries.len() && (#[trigger] entries[k]).name@ == n;
    assert(entries[j].name@ == entries[i].name@);
}

/// The names `.` and `..`, which a directory never lists as entries of its own.
pub open spec fn is_dot_name(name: Seq<char>) -> bool {
    name == seq!['.'] || name == seq!['.', '.']
}

/// The entries of a directory that a listing shows, in their original order.
pub open spec fn shown(s: Seq<DirectoryEntry>) -> Seq<DirectoryEntry>
    decreases s.len(),
{
    if s.len() == 0 {
        s
    } else if is_dot_name(s.last().name@) {
        shown(s.drop_last())
    } else {
        shown(s.drop_last()).push(s.last())
    }
}

/// The synthetic entry that leads to the parent directory.
pub open spec fn is_up_entry(e: DirectoryEntry) -> bool {
    e.kind == EntryKind::Directory && e.name@ == seq!['.', '.'] && e.size_bytes == 0
}

/// The part of a listing of `path` that holds the directory's own entries.
pub open spec fn own_entries(path: Seq<char>, listing: Seq<DirectoryEntry>) -> Seq<DirectoryEntry> {
    if path.len() == 0 {
        listing
    } else {
        listing.drop_first()
    }
}

/// `listing` is the listing of the directory at `path` whose entries are `entries`:
/// below the root it starts with the entry leading up; the rest is the shown
/// entries, each as often as found, in listing order.
pub open spec fn is_listing_of(
    path: Seq<char>,
    entries: Seq<DirectoryEntry>,
    listing: Seq<DirectoryEntry>,
) -> bool {
    &&& path.len() > 0 ==> listing.len() > 0 && is_up_entry(listing[0])
    &&& is_sorted(own_entries(path, listing))
    &&& own_entries(path, listing).to_multiset() == shown(entries).to_multiset()
}

proof fn lemma_shown_has_no_dot_names(s: Seq<DirectoryEntry>, e: DirectoryEntry)
    requires
        shown(s).contains(e),
    ensures
        !is_dot_name(e.name@),
    decreases s.len(),
{
    if s.len() > 0 {
        if shown(s.drop_last()).contains(e) {
            lemma_shown_has_no_dot_names(s.drop_last(), e);
        } else {
            let t = shown(s.drop_last());
            if !is_dot_name(s.last().name@) {
                let k = choose|k: int| 0 <= k < t.push(s.last()).len() && t.push(s.last())[k] == e;
                if k < t.len() {
                    assert(t.contains(e));
                }
            }
        }
    }
}

/// A listing of the root never holds an entry named `..`: the entry leading up
/// is only added below the root, and a directory's own `..` is never shown.
pub proof fn lemma_root_listing_has_no_parent_entry(
    entries: Seq<DirectoryEntry>,
    listing: Seq<DirectoryEntry>,
)
    requires
        is_listing_of(Seq::empty(), entries, listing),
    ensures
        forall|i: int| 0 <= i < listing.len() ==> (#[trigger] listing[i]).name@ != seq!['.', '.'],
{
    assert forall|i: int| 0 <= i < listing.len() implies (#[trigger] listing[i]).name@ != seq![
        '.',
        '.',
    ] by {
        assert(listing.to_multiset().count(listing[i]) > 0);
        assert(shown(entries).to_multiset().count(listing[i]) > 0);
        lemma_shown_has_no_dot_names(entries, listing[i]);
    }
}

proof fn lemma_keyed_asymmetric(a: DirectoryEntry, ka: Seq<char>, b: DirectoryEntry, kb: Seq<char>)
    requires
        keyed_before(a, ka, b, kb),
    ensures
        !keyed_before(b, kb, a, ka),
{
    lemma_text_lt_irreflexive(a.name@);
    lemma_text_lt_irreflexive(ka);
    if text_lt(ka, kb) && text_lt(kb, ka) {
        lemma_text_lt_transitive(ka, kb, ka);
    }
    if text_lt(a.name@, b.name@) && text_lt(b.name@, a.name@) {
        lemma_text_lt_transitive(a.name@, b.name@, a.name@);
    }
}

proof fn lemma_keyed_irreflexive(a: DirectoryEntry, ka: Seq<char>)
    ensures
        !keyed_before(a, ka, a, ka),
{
    lemma_text_lt_irreflexive(a.name@);
    lemma_text_lt_irreflexive(ka);
}

/// Whatever `a` precedes, it also precedes everything not before that.
proof fn lemma_keyed_transfer(
    a: DirectoryEntry,
    ka: Seq<char>,
    b: DirectoryEntry,
    kb: Seq<char>,
    c: DirectoryEntry,
    kc: Seq<char>,
)
    requires
        keyed_before(a, ka, b, kb),
        !keyed_before(c, kc, b, kb),
    ensures
        keyed_before(a, ka, c, kc),
{
    if kb != kc {
        lemma_text_lt_total(kb, kc);
    }
    if b.name@ != c.name@ {
        lemma_text_lt_total(b.name@, c.name@);
    }
    if text_lt(ka, kb) && text_lt(kb, kc) {
        lemma_text_lt_transitive(ka, kb, kc);
    }
    if text_lt(a.name@, b.name@) && text_lt(b.name@, c.name@) {
        lemma_text_lt_transitive(a.name@, b.name@, c.name@);
    }
}

/// Whether `name` is `.` or `..`.
fn is_dot_text(name: &str) -> (r: bool)
    ensures
        r == is_dot_name(name@),
{
    let n = name.unicode_len();
    if n == 1 {
        let r = name.get_char(0) == '.';
        assert(r ==> name@ =~= seq!['.']);
        r
    } else if n == 2 {
        let r = name.get_char(0) == '.' && name.get_char(1) == '.';
        assert(r ==> name@ =~= seq!['.', '.']);
        r
    } else {
        false
    }
}

/// Whether `a`, whose name compares as `a_low`, is listed strictly before
/// `b`, whose name compares as `b_low`.
pub fn precedes(a: &DirectoryEntry, a_low: &String, b: &DirectoryEntry, b_low: &String) -> (r: bool)
    ensures
        r == keyed_before(*a, a_low@, *b, b_low@),
{
    let ra: u8 = match a.kind {
        EntryKind::Directory => 0,
        EntryKind::File => 1,
    };
    let rb: u8 = match b.kind {
        EntryKind::Directory => 0,
        EntryKind::File => 1,
    };
    assert(ra as int == kind_rank(a.kind) && rb as int == kind_rank(b.kind));
    if ra != rb {
        return ra < rb;
    }
    if text_less(a_low.as_str(), b_low.as_str()) {
        return true;
    }
    if *a_low == *b_low {
        text_less(a.name.as_str(), b.name.as_str())
    } else {
        false
    }
}

/// Puts `e`, whose name compares as `low`, into the sorted `sorted`, keeping
/// `lows` the compared forms of its entries.
fn insert_sorted(
    sorted: &mut Vec<DirectoryEntry>,
    lows: &mut Vec<String>,
    e: DirectoryEntry,
    low: String,
    Ghost(key): Ghost<spec_fn(Seq<char>) -> Seq<char>>,
)
    requires
        is_sorted_by(old(sorted)@, key),
        low@ == key(e.name@),
        old(lows)@.len() == old(sorted)@.len(),
        forall|k: int| 0 <= k < old(sorted)@.len() ==> (#[trigger] old(lows)@[k])@ == key(
            old(sorted)@[k].name@,
        ),
    ensures
        is_sorted_by(final(sorted)@, key),
        final(sorted)@.to_multiset() == old(sorted)@.to_multiset().insert(e),
        final(lows)@.len() == final(sorted)@.len(),
        forall|k: int| 0 <= k < final(sorted)@.len() ==> (#[trigger] final(lows)@[k])@ == key(
            final(sorted)@[k].name@,
        ),
{
    let n = sorted.len();
    let mut j: usize = 0;
    while j < n && !precedes(&e, &low, &sorted[j], &lows[j])
        invariant
            n == sorted@.len(),
            n == lows@.len(),
            j <= n,
            low@ == key(e.name@),
            forall|k: int| 0 <= k < n ==> (#[trigger] lows@[k])@ == key(sorted@[k].name@),
            forall|k: int| 0 <= k < j ==> !entry_before_by(e, #[trigger] sorted@[k], key),
        decreases n - j,
    {
        j += 1;
    }
    let ghost before = sorted@;
    let ghost lows_before = lows@;
    sorted.insert(j, e);
    lows.insert(j, low);
    proof {
        let s = sorted@;
        assert forall|a: int, b: int| 0 <= a < b < s.len() implies !entry_before_by(
            #[trigger] s[b],
            #[trigger] s[a],
            key,
        ) by {
            if b < j {
                assert(s[a] == before[a] && s[b] == before[b]);
            } else if a > j {
                assert(s[a] == before[a - 1] && s[b] == before[b - 1]);
            } else if a == j {
                // e is followed by entries it precedes
                let bj = before[j as int];
                let bb = before[b - 1];
                assert(s[b] == bb);
                assert(entry_before_by(e, bj, key));
                if b - 1 > j {
                    assert(!entry_before_by(bb, bj, key));
                } else {
                    lemma_keyed_irreflexive(bj, key(bj.name@));
                }
                lemma_keyed_transfer(e, key(e.name@), bj, key(bj.name@), bb, key(bb.name@));
                lemma_keyed_asymmetric(e, key(e.name@), bb, key(bb.name@));
            } else if b == j {
                assert(s[a] == before[a]);
            } else {
                assert(s[a] == before[a] && s[b] == before[b - 1]);
            }
        }
        assert forall|k: int| 0 <= k < s.len() implies (#[trigger] lows@[k])@ == key(s[k].name@) by {
            if k < j {
                assert(lows@[k] == lows_before[k]);
            } else if k > j {
                assert(lows@[k] == lows_before[k - 1]);
            }
        }
    }
}

/// Orders `entries`, whose names compare as the matching items of `keys` give
/// them: directories first, then by compared form, then by exact name. The
/// result holds each entry as often as `entries` does.
pub fn order_by_keys(entries: Vec<DirectoryEntry>, keys: Vec<String>) -> (r: Vec<DirectoryEntry>)
    requires
        keys_consistent(entries@, keys@),
    ensures
        is_sorted_by(r@, key_of(entries@, keys@)),
        r@.to_multiset() == entries@.to_multiset(),
{
    let ghost all = entries@;
    let ghost all_keys = keys@;
    let ghost key = key_of(all, all_keys);
    let mut rest = entries;
    let mut rest_keys = keys;
    let mut sorted: Vec<DirectoryEntry> = Vec::new();
    let mut lows: Vec<String> = Vec::new();
    proof {
        assert(all.subrange(0, all.len() as int) =~= all);
        assert(all_keys.subrange(0, all.len() as int) =~= all_keys);
    }
    while rest.len() > 0
        invariant
            keys_consistent(all, all_keys),
            key == key_of(all, all_keys),
            rest@.len() <= all.len(),
            rest_keys@.len() == rest@.len(),
            rest@ == all.subrange(0, rest@.len() as int),
            rest_keys@ == all_keys.subrange(0, rest@.len() as int),
            is_sorted_by(sorted@, key),
            lows@.len() == sorted@.len(),
            forall|k: int| 0 <= k < sorted@.len() ==> (#[trigger] lows@[k])@ == key(
                sorted@[k].name@,
            ),
            sorted@.to_multiset().add(rest@.to_multiset()) == all.to_multiset(),
        decreases rest@.len(),
    {
        let ghost rest_before = rest@;
        let ghost k = rest@.len() - 1;
        let e = rest.pop().unwrap();
        let low = rest_keys.pop().unwrap();
        proof {
            assert(rest_before.drop_last() =~= rest@);
            assert(e == all[k]);
            assert(low == all_keys[k]);
            lemma_key_of_at(all, all_keys, k);
            assert(rest@ =~= all.subrange(0, rest@.len() as int));
            assert(rest_keys@ =~= all_keys.subrange(0, rest@.len() as int));
            assert(rest_before == rest@.push(e));
        }
        insert_sorted(&mut sorted, &mut lows, e, low, Ghost(key));
        proof {
            assert(sorted@.to_multiset().add(rest@.to_multiset()) =~= all.to_multiset());
        }
    }
    proof {
        assert(rest@.to_multiset() =~= Multiset::<DirectoryEntry>::empty());
        assert(sorted@.to_multiset() =~= all.to_multiset());
    }
    sorted
}

/// The listing of the directory at `path` whose entries are `entries`.
///
/// `.` and `..` among the entries are left out. Directories come before files,
/// each group in case-insensitive name order. Below the root, the listing
/// starts with a directory entry named `..` that leads back up.
pub fn list_entries(path: &RelativePath, entries: Vec<DirectoryEntry>) -> (r: Vec<DirectoryEntry>)
    ensures
        is_listing_of(path@, entries@, r@),
{
    let ghost all = entries@;
    let mut rest = entries;
    let mut kept: Vec<DirectoryEntry> = Vec::new();
    let mut lows: Vec<String> = Vec::new();
    while rest.len() > 0
        invariant
            lows@.len() == kept@.len(),
            forall|k: int| 0 <= k < kept@.len() ==> (#[trigger] lows@[k])@ == lower_of(
                kept@[k].name@,
            ),
            kept@.to_multiset().add(shown(rest@).to_multiset()) == shown(all).to_multiset(),
        decreases rest@.len(),
    {
        let ghost rest_before = rest@;
        let e = rest.pop().unwrap();
        proof {
            assert(rest_before.drop_last() =~= rest@);
        }
        if !is_dot_text(e.name.as_str()) {
            let low = to_lower(e.name.as_str());
            let ghost kept_before = kept@;
            kept.push(e);
            lows.push(low);
            proof {
                assert(shown(rest_before) == shown(rest@).push(e));
                assert(kept@ == kept_before.push(e));
                assert(kept@.to_multiset().add(shown(rest@).to_multiset()) =~= shown(
                    all,
                ).to_multiset());
                assert forall|k: int| 0 <= k < kept@.len() implies (#[trigger] lows@[k])@
                    == lower_of(kept@[k].name@) by {
                    if k < kept_before.len() {
                        assert(kept@[k] == kept_before[k]);
                    }
                }
            }
        }
    }
    proof {
        assert(shown(rest@) =~= Seq::<DirectoryEntry>::empty());
        assert(kept@.to_multiset() =~= shown(all).to_multiset());
    }
    let ghost kept_all = kept@;
    let ghost kept_keys = lows@;
    let mut sorted = order_by_keys(kept, lows);
    proof {
        let key = key_of(kept_all, kept_keys);
        let s = sorted@;
        assert forall|x: int| 0 <= x < s.len() implies key((#[trigger] s[x]).name@) == lower_of(
            s[x].name@,
        ) by {
            assert(s.to_multiset().count(s[x]) > 0);
            assert(kept_all.to_multiset().count(s[x]) > 0);
            assert(kept_all.contains(s[x]));
            let k = choose|k: int| 0 <= k < kept_all.len() && kept_all[k] == s[x];
            lemma_key_of_at(kept_all, kept_keys, k);
        }
        assert forall|i: int, j: int| 0 <= i < j < s.len() implies !entry_before(
            #[trigger] s[j],
            #[trigger] s[i],
        ) by {
            assert(!entry_before_by(s[j], s[i], key));
            assert(key(s[i].name@) == lower_of(s[i].name@));
            assert(key(s[j].name@) == lower_of(s[j].name@));
        }
    }
    if path.is_root() {
        return sorted;
    }
    let up = DirectoryEntry { kind: EntryKind::Directory, name: String::from_str(".."), size_bytes: 0 };
    proof {
        reveal_strlit("..");
        assert(up.name@ =~= seq!['.', '.']);
    }
    let mut listing: Vec<DirectoryEntry> = Vec::new();
    listing.push(up);
    let ghost own = sorted@;
    listing.append(&mut sorted);
    proof {
        assert(listing@.drop_first() =~= own);
    }
    listing
}

} // verus!
