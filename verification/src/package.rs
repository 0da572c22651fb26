//! The project and its tree of sources.

use vstd::prelude::*;
use crate::error::Error;
use crate::manifest::{describe, description, document_items, lookup, parse, reports, table_items};
use crate::manifest::Item;
use crate::text::{is_under, join, joined, kind_of, lies_under, classify, chars_of, texts, Kind};
use crate::text::{lemma_joined_below, lemma_under_transitive};

verus! {

/// What a directory holds, as the file system gave it.
#[derive(Debug)]
pub enum Entry {
    /// A file, with its name.
    File(String),
    /// A directory, with its name and what it holds.
    Directory(String, Vec<Entry>),
}

/// What the first `n` of the entries of the directory `path` add to the
/// tree: the directories kept below `path`, each with its children and
/// behind the directories below it, and the children of `path` itself.
///
/// A file is a child where it is a source file. A directory is a child, and
/// kept, where it has a child of its own.
pub open spec fn scan_first(path: Seq<char>, entries: Seq<Entry>, n: int) -> (
    Seq<(Seq<char>, Seq<Seq<char>>)>,
    Seq<Seq<char>>,
)
    decreases entries, n,
{
    if n <= 0 || n > entries.len() {
        (Seq::empty(), Seq::empty())
    } else {
        let (kept, children) = scan_first(path, entries, n - 1);
        match entries[n - 1] {
            Entry::File(name) => {
                let file = joined(path, name@);
                if kind_of(file) == Kind::Source {
                    (kept, children.push(file))
                } else {
                    (kept, children)
                }
            },
            Entry::Directory(name, inner) => {
                let directory = joined(path, name@);
                let (deeper, found) = scan_first(directory, inner@, inner@.len() as int);
                if found.len() > 0 {
                    ((kept + deeper).push((directory, found)), children.push(directory))
                } else {
                    (kept + deeper, children)
                }
            },
        }
    }
}

/// What the entries of the directory `path` add to the tree.
pub open spec fn scan(path: Seq<char>, entries: Seq<Entry>) -> (
    Seq<(Seq<char>, Seq<Seq<char>>)>,
    Seq<Seq<char>>,
) {
    scan_first(path, entries, entries.len() as int)
}

/// The tree of the project at `root` that holds `entries`: the directories
/// kept below the root, and the root behind them, whatever it holds.
pub open spec fn tree_of(root: Seq<char>, entries: Seq<Entry>) -> Seq<
    (Seq<char>, Seq<Seq<char>>),
> {
    scan(root, entries).0.push((root, scan(root, entries).1))
}

/// Whether `path` is a directory of `tree`.
pub open spec fn has_directory(tree: Seq<(Seq<char>, Seq<Seq<char>>)>, path: Seq<char>) -> bool {
    exists|i: int| 0 <= i < tree.len() && (#[trigger] tree[i]).0 == path
}

/// Whether no two directories of `tree` have the same path.
pub open spec fn has_distinct_keys(tree: Seq<(Seq<char>, Seq<Seq<char>>)>) -> bool {
    forall|i: int, j: int|
        0 <= i < tree.len() && 0 <= j < tree.len() && i != j ==> (#[trigger] tree[i]).0
            != (#[trigger] tree[j]).0
}

/// Whether `tree` stands bottom-up: a child of a directory that is itself a
/// directory of the tree stands before the directory that it is a child of.
pub open spec fn is_bottom_up(tree: Seq<(Seq<char>, Seq<Seq<char>>)>) -> bool {
    forall|i: int, c: int, j: int|
        0 <= i < tree.len() && 0 <= c < tree[i].1.len() && 0 <= j < tree.len() && (
        #[trigger] tree[j]).0 == #[trigger] tree[i].1[c] ==> j < i
}

/// Whether `tree` is the tree of a project at `root`: the root is its last
/// directory, every directory lies under the root, every other directory
/// has a child, no two directories have the same path, and the tree stands
/// bottom-up.
pub open spec fn is_rooted_at(tree: Seq<(Seq<char>, Seq<Seq<char>>)>, root: Seq<char>) -> bool {
    &&& tree.len() > 0
    &&& tree.last().0 == root
    &&& forall|i: int| 0 <= i < tree.len() ==> is_under(root, (#[trigger] tree[i]).0)
    &&& forall|i: int| 0 <= i < tree.len() - 1 ==> (#[trigger] tree[i]).1.len() > 0
    &&& has_distinct_keys(tree)
    &&& is_bottom_up(tree)
}

/// Whether the directory `path`, which holds `entries`, holds no source
/// file at any depth: each file among the entries is no source file, and
/// each directory among them holds none.
pub open spec fn holds_no_source(path: Seq<char>, entries: Seq<Entry>) -> bool
    decreases entries,
{
    forall|i: int|
        0 <= i < entries.len() ==> match #[trigger] entries[i] {
            Entry::File(name) => kind_of(joined(path, name@)) != Kind::Source,
            Entry::Directory(name, inner) => holds_no_source(joined(path, name@), inner@),
        }
}

/// A directory that holds no source file at any depth adds nothing to the
/// tree: no directory is kept from what it holds, and it has no child, so
/// that it is not kept itself and the directory that holds it does not
/// list it.
pub proof fn lemma_nothing_to_build(path: Seq<char>, entries: Seq<Entry>, n: int)
    requires
        holds_no_source(path, entries),
    ensures
        scan_first(path, entries, n) == (
            Seq::<(Seq<char>, Seq<Seq<char>>)>::empty(),
            Seq::<Seq<char>>::empty(),
        ),
    decreases entries, n,
{
    if 0 < n <= entries.len() {
        lemma_nothing_to_build(path, entries, n - 1);
        let (kept, children) = scan_first(path, entries, n - 1);
        match entries[n - 1] {
            Entry::File(name) => {},
            Entry::Directory(name, inner) => {
                let directory = joined(path, name@);
                lemma_nothing_to_build(directory, inner@, inner@.len() as int);
                let (deeper, found) = scan_first(directory, inner@, inner@.len() as int);
                assert(kept + deeper =~= Seq::<(Seq<char>, Seq<Seq<char>>)>::empty());
            },
        }
    }
}

/// A directory is kept only with a child, and only under the directory that
/// was scanned; the children of that directory lie under it too.
pub proof fn lemma_scan_is_sound(path: Seq<char>, entries: Seq<Entry>, n: int)
    ensures
        forall|i: int|
            0 <= i < scan_first(path, entries, n).0.len() ==> is_under(
                path,
                (#[trigger] scan_first(path, entries, n).0[i]).0,
            ) && scan_first(path, entries, n).0[i].1.len() > 0,
        forall|i: int|
            0 <= i < scan_first(path, entries, n).1.len() ==> is_under(
                path,
                #[trigger] scan_first(path, entries, n).1[i],
            ),
    decreases entries, n,
{
    if 0 < n <= entries.len() {
        lemma_scan_is_sound(path, entries, n - 1);
        let (kept, children) = scan_first(path, entries, n - 1);
        match entries[n - 1] {
            Entry::File(name) => {
                lemma_joined_below(path, name@);
            },
            Entry::Directory(name, inner) => {
                let directory = joined(path, name@);
                lemma_joined_below(path, name@);
                lemma_scan_is_sound(directory, inner@, inner@.len() as int);
                let (deeper, found) = scan_first(directory, inner@, inner@.len() as int);
                let grown = kept + deeper;
                assert forall|i: int| 0 <= i < grown.len() implies is_under(
                    path,
                    (#[trigger] grown[i]).0,
                ) && grown[i].1.len() > 0 by {
                    if i >= kept.len() {
                        assert(grown[i] == deeper[i - kept.len()]);
                        lemma_under_transitive(path, directory, deeper[i - kept.len()].0);
                    } else {
                        assert(grown[i] == kept[i]);
                    }
                }
            },
        }
    }
}

/// The name of an entry.
pub open spec fn name_of(entry: Entry) -> Seq<char> {
    match entry {
        Entry::File(name) => name@,
        Entry::Directory(name, _) => name@,
    }
}

/// Whether `name` can name an entry: it is not empty and holds no separator.
pub open spec fn is_name(name: Seq<char>) -> bool {
    name.len() > 0 && !name.contains('/')
}

/// Whether `entries` can be what a directory holds: each has a name, no two
/// have the same, and what a directory among them holds is such a listing
/// too.
pub open spec fn is_listing(entries: Seq<Entry>) -> bool
    decreases entries,
{
    &&& forall|i: int| 0 <= i < entries.len() ==> is_name(name_of(#[trigger] entries[i]))
    &&& forall|i: int, j: int|
        0 <= i < entries.len() && 0 <= j < entries.len() && i != j ==> name_of(
            #[trigger] entries[i],
        ) != name_of(#[trigger] entries[j])
    &&& forall|i: int|
        0 <= i < entries.len() ==> match #[trigger] entries[i] {
            Entry::File(_) => true,
            Entry::Directory(_, inner) => is_listing(inner@),
        }
}

/// The directory that `walk` leads to from the directory `path`, which
/// holds `entries`: its path and what it holds. Each step of the walk is
/// the place of a directory among the entries of the directory before.
pub open spec fn located(path: Seq<char>, entries: Seq<Entry>, walk: Seq<int>) -> Option<
    (Seq<char>, Seq<Entry>),
>
    decreases walk.len(),
{
    if walk.len() == 0 {
        Some((path, entries))
    } else if 0 <= walk[0] < entries.len() {
        match entries[walk[0]] {
            Entry::File(_) => None,
            Entry::Directory(name, inner) => located(joined(path, name@), inner@, walk.skip(1)),
        }
    } else {
        None
    }
}

/// The path of an entry is longer than that of its directory, and ends in
/// no separator.
proof fn lemma_joined_is_longer(path: Seq<char>, name: Seq<char>)
    requires
        is_name(name),
    ensures
        joined(path, name).len() > path.len(),
        joined(path, name).last() != '/',
{
    let whole = joined(path, name);
    assert(whole.last() == name.last());
    assert(name.contains(name.last()));
}

/// No path lies under the paths of two entries of one directory.
proof fn lemma_entries_lie_apart(path: Seq<char>, a: Seq<char>, b: Seq<char>, key: Seq<char>)
    requires
        is_name(a),
        is_name(b),
        a != b,
        is_under(joined(path, a), key),
    ensures
        !is_under(joined(path, b), key),
{
    let first = joined(path, a);
    let second = joined(path, b);
    lemma_joined_is_longer(path, a);
    lemma_joined_is_longer(path, b);
    if is_under(second, key) {
        let start = first.len() - a.len();
        assert(second.len() - b.len() == start);
        assert forall|k: int| 0 <= k < a.len() implies key[start + k] == a[k] by {
            assert(first[start + k] == a[k]);
            assert(first.is_prefix_of(key));
            assert(key[start + k] == first[start + k]);
        }
        assert forall|k: int| 0 <= k < b.len() implies key[start + k] == b[k] by {
            assert(second[start + k] == b[k]);
            assert(second.is_prefix_of(key));
            assert(key[start + k] == second[start + k]);
        }
        if a.len() == b.len() {
            assert(a =~= b);
        } else if a.len() < b.len() {
            assert(key != first);
            assert(key[first.len() as int] == '/');
            assert(b[a.len() as int] == '/');
            assert(b.contains('/'));
        } else {
            assert(key != second);
            assert(key[second.len() as int] == '/');
            assert(a[b.len() as int] == '/');
            assert(a.contains('/'));
        }
    }
}

/// Each directory that is kept is a directory among the entries, or is
/// kept from what such a directory holds.
proof fn lemma_kept_comes_from_an_entry(path: Seq<char>, entries: Seq<Entry>, n: int, k: int)
    requires
        0 <= k < scan_first(path, entries, n).0.len(),
    ensures
        exists|j: int|
            0 <= j < entries.len() && j < n && match #[trigger] entries[j] {
                Entry::File(_) => false,
                Entry::Directory(name, inner) => {
                    ||| scan_first(path, entries, n).0[k].0 == joined(path, name@) && scan(
                        joined(path, name@),
                        inner@,
                    ).1.len() > 0
                    ||| has_directory(
                        scan(joined(path, name@), inner@).0,
                        scan_first(path, entries, n).0[k].0,
                    )
                },
            },
    decreases n,
{
    if 0 < n <= entries.len() {
        let (kept, children) = scan_first(path, entries, n - 1);
        let key = scan_first(path, entries, n).0[k].0;
        if k < kept.len() {
            assert(scan_first(path, entries, n).0[k] == kept[k]) by {
                match entries[n - 1] {
                    Entry::File(_) => {},
                    Entry::Directory(name, inner) => {},
                }
            }
            lemma_kept_comes_from_an_entry(path, entries, n - 1, k);
            let j = choose|j: int|
                0 <= j < entries.len() && j < n - 1 && match #[trigger] entries[j] {
                    Entry::File(_) => false,
                    Entry::Directory(name, inner) => {
                        ||| kept[k].0 == joined(path, name@) && scan(joined(path, name@), inner@).1.len()
                            > 0
                        ||| has_directory(scan(joined(path, name@), inner@).0, kept[k].0)
                    },
                };
            assert(entries[j] is Directory);
        } else {
            match entries[n - 1] {
                Entry::File(_) => {},
                Entry::Directory(name, inner) => {
                    let directory = joined(path, name@);
                    let (deeper, found) = scan(directory, inner@);
                    if k < kept.len() + deeper.len() {
                        assert(scan_first(path, entries, n).0[k] == deeper[k - kept.len()]);
                    }
                    assert(entries[n - 1] is Directory);
                },
            }
        }
    }
}

/// The directory that a walk leads to lies under the directory that the
/// walk starts from, and has a longer path unless the walk is empty.
proof fn lemma_located_lies_under(path: Seq<char>, entries: Seq<Entry>, walk: Seq<int>)
    requires
        is_listing(entries),
        located(path, entries, walk) is Some,
    ensures
        is_under(path, located(path, entries, walk).unwrap().0),
        walk.len() > 0 ==> located(path, entries, walk).unwrap().0.len() > path.len(),
        is_listing(located(path, entries, walk).unwrap().1),
    decreases walk.len(),
{
    if walk.len() > 0 {
        match entries[walk[0]] {
            Entry::File(_) => {},
            Entry::Directory(name, inner) => {
                let directory = joined(path, name@);
                assert(is_name(name_of(entries[walk[0]])));
                lemma_joined_is_longer(path, name@);
                lemma_joined_below(path, name@);
                lemma_located_lies_under(directory, inner@, walk.skip(1));
                lemma_under_transitive(
                    path,
                    directory,
                    located(path, entries, walk).unwrap().0,
                );
            },
        }
    }
}

/// A directory that holds no source file is not kept, at whatever depth it
/// lies.
proof fn lemma_not_kept(path: Seq<char>, entries: Seq<Entry>, walk: Seq<int>)
    requires
        is_listing(entries),
        walk.len() > 0,
        located(path, entries, walk) is Some,
        holds_no_source(
            located(path, entries, walk).unwrap().0,
            located(path, entries, walk).unwrap().1,
        ),
    ensures
        !has_directory(scan(path, entries).0, located(path, entries, walk).unwrap().0),
    decreases walk.len(),
{
    let target = located(path, entries, walk).unwrap().0;
    let kept = scan(path, entries).0;
    let i = walk[0];
    if has_directory(kept, target) {
        let k = choose|k: int| 0 <= k < kept.len() && (#[trigger] kept[k]).0 == target;
        lemma_kept_comes_from_an_entry(path, entries, entries.len() as int, k);
        let j = choose|j: int|
            0 <= j < entries.len() && j < entries.len() && match #[trigger] entries[j] {
                Entry::File(_) => false,
                Entry::Directory(name, inner) => {
                    ||| kept[k].0 == joined(path, name@) && scan(joined(path, name@), inner@).1.len()
                        > 0
                    ||| has_directory(scan(joined(path, name@), inner@).0, kept[k].0)
                },
            };
        match (entries[i], entries[j]) {
            (Entry::Directory(a, held), Entry::Directory(b, inner)) => {
                let mine = joined(path, a@);
                let other = joined(path, b@);
                assert(is_name(name_of(entries[i])));
                assert(is_name(name_of(entries[j])));
                lemma_located_lies_under(mine, held@, walk.skip(1));
                lemma_joined_is_longer(path, a@);
                lemma_scan_is_sound(other, inner@, inner@.len() as int);
                assert(is_under(other, target)) by {
                    if target != other {
                        let m = choose|m: int|
                            0 <= m < scan(other, inner@).0.len() && (#[trigger] scan(
                                other,
                                inner@,
                            ).0[m]).0 == target;
                    }
                }
                if i != j {
                    assert(name_of(entries[i]) != name_of(entries[j]));
                    lemma_entries_lie_apart(path, a@, b@, target);
                } else if walk.len() == 1 {
                    assert(walk.skip(1).len() == 0);
                    lemma_nothing_to_build(mine, held@, held@.len() as int);
                } else {
                    lemma_not_kept(mine, held@, walk.skip(1));
                }
            },
            _ => {},
        }
    }
}

/// Each child of the directory that was scanned is the path of one of its
/// entries: of a source file, or of a directory that has a child.
proof fn lemma_child_is_an_entry(path: Seq<char>, entries: Seq<Entry>, n: int, c: int)
    requires
        0 <= c < scan_first(path, entries, n).1.len(),
    ensures
        exists|e: int|
            0 <= e < n && e < entries.len() && scan_first(path, entries, n).1[c] == joined(
                path,
                name_of(#[trigger] entries[e]),
            ) && match entries[e] {
                Entry::File(name) => kind_of(joined(path, name@)) == Kind::Source,
                Entry::Directory(name, inner) => scan(joined(path, name@), inner@).1.len() > 0,
            },
    decreases n,
{
    if 0 < n <= entries.len() {
        let (kept, children) = scan_first(path, entries, n - 1);
        let listed = scan_first(path, entries, n).1;
        if c < children.len() {
            assert(listed[c] == children[c]) by {
                match entries[n - 1] {
                    Entry::File(_) => {},
                    Entry::Directory(_, _) => {},
                }
            }
            lemma_child_is_an_entry(path, entries, n - 1, c);
            let e = choose|e: int|
                0 <= e < n - 1 && e < entries.len() && children[c] == joined(
                    path,
                    name_of(#[trigger] entries[e]),
                ) && match entries[e] {
                    Entry::File(name) => kind_of(joined(path, name@)) == Kind::Source,
                    Entry::Directory(name, inner) => scan(joined(path, name@), inner@).1.len()
                        > 0,
                };
            assert(listed[c] == joined(path, name_of(entries[e])));
        } else {
            match entries[n - 1] {
                Entry::File(name) => {
                    assert(listed[c] == joined(path, name_of(entries[n - 1])));
                },
                Entry::Directory(name, inner) => {
                    assert(listed[c] == joined(path, name_of(entries[n - 1])));
                },
            }
        }
    }
}

/// Each directory that is kept stands in the tree with the children that
/// the scan of it found: it is a directory among the entries, or is kept
/// from what such a directory holds.
proof fn lemma_record_comes_from_an_entry(path: Seq<char>, entries: Seq<Entry>, n: int, k: int)
    requires
        0 <= k < scan_first(path, entries, n).0.len(),
    ensures
        exists|j: int|
            0 <= j < n && j < entries.len() && match #[trigger] entries[j] {
                Entry::File(_) => false,
                Entry::Directory(name, inner) => {
                    ||| scan_first(path, entries, n).0[k] == (
                        joined(path, name@),
                        scan(joined(path, name@), inner@).1,
                    )
                    ||| scan(joined(path, name@), inner@).0.contains(
                        scan_first(path, entries, n).0[k],
                    )
                },
            },
    decreases n,
{
    if 0 < n <= entries.len() {
        let (kept, children) = scan_first(path, entries, n - 1);
        let grown = scan_first(path, entries, n).0;
        if k < kept.len() {
            assert(grown[k] == kept[k]) by {
                match entries[n - 1] {
                    Entry::File(_) => {},
                    Entry::Directory(_, _) => {},
                }
            }
            lemma_record_comes_from_an_entry(path, entries, n - 1, k);
            let j = choose|j: int|
                0 <= j < n - 1 && j < entries.len() && match #[trigger] entries[j] {
                    Entry::File(_) => false,
                    Entry::Directory(name, inner) => {
                        ||| kept[k] == (joined(path, name@), scan(joined(path, name@), inner@).1)
                        ||| scan(joined(path, name@), inner@).0.contains(kept[k])
                    },
                };
            assert(entries[j] is Directory);
        } else {
            match entries[n - 1] {
                Entry::File(_) => {},
                Entry::Directory(name, inner) => {
                    let directory = joined(path, name@);
                    let (deeper, found) = scan(directory, inner@);
                    if k < kept.len() + deeper.len() {
                        assert(grown[k] == deeper[k - kept.len()]);
                    } else {
                        assert(grown[k] == (directory, found));
                    }
                    assert(entries[n - 1] is Directory);
                },
            }
        }
    }
}

/// A directory that holds no source file is no child in the tree, at
/// whatever depth it lies: neither of the directory that was scanned nor of
/// a directory that is kept.
proof fn lemma_not_listed(path: Seq<char>, entries: Seq<Entry>, walk: Seq<int>)
    requires
        is_listing(entries),
        walk.len() > 0,
        located(path, entries, walk) is Some,
        holds_no_source(
            located(path, entries, walk).unwrap().0,
            located(path, entries, walk).unwrap().1,
        ),
    ensures
        !scan(path, entries).1.contains(located(path, entries, walk).unwrap().0),
        forall|k: int|
            0 <= k < scan(path, entries).0.len() ==> !(#[trigger] scan(path, entries).0[k]).1.contains(
                located(path, entries, walk).unwrap().0,
            ),
    decreases walk.len(),
{
    let target = located(path, entries, walk).unwrap().0;
    let (kept, children) = scan(path, entries);
    let count = entries.len() as int;
    let i = walk[0];
    match entries[i] {
        Entry::File(_) => {},
        Entry::Directory(a, held) => {
            let mine = joined(path, a@);
            assert(is_name(name_of(entries[i])));
            lemma_joined_is_longer(path, a@);
            lemma_located_lies_under(mine, held@, walk.skip(1));
            if walk.len() == 1 {
                assert(walk.skip(1).len() == 0);
                lemma_nothing_to_build(mine, held@, held@.len() as int);
            } else {
                lemma_not_listed(mine, held@, walk.skip(1));
            }
            if children.contains(target) {
                let c = choose|c: int| 0 <= c < children.len() && children[c] == target;
                lemma_child_is_an_entry(path, entries, count, c);
                let e = choose|e: int|
                    0 <= e < count && e < entries.len() && children[c] == joined(
                        path,
                        name_of(#[trigger] entries[e]),
                    ) && match entries[e] {
                        Entry::File(name) => kind_of(joined(path, name@)) == Kind::Source,
                        Entry::Directory(name, inner) => scan(joined(path, name@), inner@).1.len()
                            > 0,
                    };
                assert(is_name(name_of(entries[e])));
                if e != i {
                    assert(name_of(entries[e]) != name_of(entries[i]));
                    lemma_entries_lie_apart(path, a@, name_of(entries[e]), target);
                    assert(is_under(target, target));
                }
            }
            assert forall|k: int| 0 <= k < kept.len() implies !(#[trigger] kept[k]).1.contains(
                target,
            ) by {
                if kept[k].1.contains(target) {
                    lemma_record_comes_from_an_entry(path, entries, count, k);
                    let j = choose|j: int|
                        0 <= j < count && j < entries.len() && match #[trigger] entries[j] {
                            Entry::File(_) => false,
                            Entry::Directory(name, inner) => {
                                ||| kept[k] == (
                                    joined(path, name@),
                                    scan(joined(path, name@), inner@).1,
                                )
                                ||| scan(joined(path, name@), inner@).0.contains(kept[k])
                            },
                        };
                    match entries[j] {
                        Entry::File(_) => {},
                        Entry::Directory(b, inner) => {
                            let other = joined(path, b@);
                            assert(is_name(name_of(entries[j])));
                            if j != i {
                                assert(name_of(entries[i]) != name_of(entries[j]));
                                lemma_scan_is_sound(other, inner@, inner@.len() as int);
                                lemma_scan_comes_from(other, inner@, inner@.len() as int);
                                assert(is_under(other, target)) by {
                                    if kept[k] == (other, scan(other, inner@).1) {
                                        let c = choose|c: int|
                                            0 <= c < kept[k].1.len() && kept[k].1[c] == target;
                                        assert(scan(other, inner@).1[c] == target);
                                    } else {
                                        let deeper = scan(other, inner@).0;
                                        let m = choose|m: int|
                                            0 <= m < deeper.len() && deeper[m] == kept[k];
                                        let c = choose|c: int|
                                            0 <= c < deeper[m].1.len() && deeper[m].1[c] == target;
                                        assert(comes_from(
                                            other,
                                            inner@,
                                            inner@.len() as int,
                                            deeper[m].1[c],
                                        ));
                                        let w = choose|w: int|
                                            0 <= w < inner@.len() && w < inner@.len() && (
                                            #[trigger] inner@[w]) is Directory && is_under(
                                                joined(other, name_of(inner@[w])),
                                                target,
                                            );
                                        lemma_joined_below(other, name_of(inner@[w]));
                                        lemma_under_transitive(
                                            other,
                                            joined(other, name_of(inner@[w])),
                                            target,
                                        );
                                    }
                                }
                                lemma_entries_lie_apart(path, a@, b@, target);
                            } else {
                                assert(inner == held);
                                if kept[k] != (mine, scan(mine, held@).1) {
                                    let deeper = scan(mine, held@).0;
                                    let m = choose|m: int|
                                        0 <= m < deeper.len() && deeper[m] == kept[k];
                                }
                            }
                        },
                    }
                }
            }
        },
    }
}

/// A directory that holds no source file at any depth is absent from the
/// tree, unless it is the root: wherever in the project it lies, its path
/// is not among the tree's directories, and no directory of the tree has
/// it among its children.
///
/// The project is a listing: its entries have names, and no two entries of
/// one directory have the same name.
pub proof fn lemma_nothing_to_build_is_absent(
    root: Seq<char>,
    entries: Seq<Entry>,
    walk: Seq<int>,
)
    requires
        is_listing(entries),
        walk.len() > 0,
        located(root, entries, walk) is Some,
        holds_no_source(
            located(root, entries, walk).unwrap().0,
            located(root, entries, walk).unwrap().1,
        ),
    ensures
        !has_directory(tree_of(root, entries), located(root, entries, walk).unwrap().0),
        forall|k: int|
            0 <= k < tree_of(root, entries).len() ==> !(#[trigger] tree_of(root, entries)[k]).1.contains(
                located(root, entries, walk).unwrap().0,
            ),
{
    let target = located(root, entries, walk).unwrap().0;
    let tree = tree_of(root, entries);
    let (kept, children) = scan(root, entries);
    lemma_not_kept(root, entries, walk);
    lemma_not_listed(root, entries, walk);
    lemma_located_lies_under(root, entries, walk);
    if has_directory(tree, target) {
        let k = choose|k: int| 0 <= k < tree.len() && (#[trigger] tree[k]).0 == target;
        if k < kept.len() {
            assert(tree[k] == kept[k]);
        }
    }
    assert forall|k: int| 0 <= k < tree.len() implies !(#[trigger] tree[k]).1.contains(
        target,
    ) by {
        if k < kept.len() {
            assert(tree[k] == kept[k]);
        } else {
            assert(tree[k].1 == children);
        }
    }
}

/// Each directory that is kept from the first `n` entries of a directory is
/// a child of that directory or of a directory kept behind it.
proof fn lemma_kept_is_listed(path: Seq<char>, entries: Seq<Entry>, n: int, j: int)
    requires
        0 <= j < scan_first(path, entries, n).0.len(),
    ensures
        scan_first(path, entries, n).1.contains(scan_first(path, entries, n).0[j].0) || exists|
            i: int,
        |
            j < i < scan_first(path, entries, n).0.len() && (#[trigger] scan_first(
                path,
                entries,
                n,
            ).0[i]).1.contains(scan_first(path, entries, n).0[j].0),
    decreases entries, n, 0int,
{
    if 0 < n <= entries.len() {
        let (kept, children) = scan_first(path, entries, n - 1);
        let (grown, listed) = scan_first(path, entries, n);
        let key = grown[j].0;
        match entries[n - 1] {
            Entry::File(name) => {
                lemma_kept_is_listed(path, entries, n - 1, j);
                if children.contains(key) {
                    let k = choose|k: int| 0 <= k < children.len() && children[k] == key;
                    assert(listed[k] == key);
                }
            },
            Entry::Directory(name, inner) => {
                let directory = joined(path, name@);
                let (deeper, found) = scan_first(directory, inner@, inner@.len() as int);
                if j < kept.len() {
                    assert(grown[j] == kept[j]);
                    lemma_kept_is_listed(path, entries, n - 1, j);
                    if children.contains(key) {
                        let k = choose|k: int| 0 <= k < children.len() && children[k] == key;
                        assert(listed[k] == key);
                    } else {
                        let i = choose|i: int|
                            j < i < kept.len() && (#[trigger] kept[i]).1.contains(key);
                        assert(grown[i] == kept[i]);
                    }
                } else if j < kept.len() + deeper.len() {
                    let m = j - kept.len();
                    assert(grown[j] == deeper[m]);
                    lemma_kept_is_listed(directory, inner@, inner@.len() as int, m);
                    if found.contains(key) {
                        if found.len() > 0 {
                            let last = (kept.len() + deeper.len()) as int;
                            assert(grown[last] == (directory, found));
                        }
                    } else {
                        let i = choose|i: int|
                            m < i < deeper.len() && (#[trigger] deeper[i]).1.contains(key);
                        assert(grown[kept.len() + i] == deeper[i]);
                    }
                } else {
                    assert(grown[j] == (directory, found));
                    assert(listed[listed.len() - 1] == directory);
                }
            },
        }
    }
}

/// The tree stands bottom-up: each of its directories but the last, which
/// is the root, is a child of a directory behind it.
pub proof fn lemma_tree_is_bottom_up(root: Seq<char>, entries: Seq<Entry>, j: int)
    requires
        0 <= j < tree_of(root, entries).len() - 1,
    ensures
        exists|i: int|
            j < i < tree_of(root, entries).len() && (#[trigger] tree_of(root, entries)[i]).1.contains(
                tree_of(root, entries)[j].0,
            ),
{
    let tree = tree_of(root, entries);
    let (kept, children) = scan(root, entries);
    lemma_kept_is_listed(root, entries, entries.len() as int, j);
    assert(tree[j] == kept[j]);
    if children.contains(kept[j].0) {
        assert(tree[kept.len() as int].1 == children);
    } else {
        let i = choose|i: int| j < i < kept.len() && (#[trigger] kept[i]).1.contains(kept[j].0);
        assert(tree[i] == kept[i]);
    }
}

/// Whether `x` lies under one of the directories among the first `n`
/// entries of the directory `path`.
spec fn comes_from(path: Seq<char>, entries: Seq<Entry>, n: int, x: Seq<char>) -> bool {
    exists|j: int|
        0 <= j < n && j < entries.len() && (#[trigger] entries[j]) is Directory && is_under(
            joined(path, name_of(entries[j])),
            x,
        )
}

/// What lies under an entry of a directory has a longer path than the
/// directory.
proof fn lemma_comes_from_is_longer(path: Seq<char>, entries: Seq<Entry>, n: int, x: Seq<char>)
    requires
        is_listing(entries),
        comes_from(path, entries, n, x),
    ensures
        x.len() > path.len(),
{
    let j = choose|j: int|
        0 <= j < n && j < entries.len() && (#[trigger] entries[j]) is Directory && is_under(
            joined(path, name_of(entries[j])),
            x,
        );
    assert(is_name(name_of(entries[j])));
    lemma_joined_is_longer(path, name_of(entries[j]));
    let base = joined(path, name_of(entries[j]));
    assert(base.is_prefix_of(x));
}

/// What lies under an earlier entry of a directory is not what lies under
/// the directory that is its entry at `n - 1`.
proof fn lemma_comes_from_elsewhere(
    path: Seq<char>,
    entries: Seq<Entry>,
    n: int,
    x: Seq<char>,
    y: Seq<char>,
)
    requires
        is_listing(entries),
        0 < n <= entries.len(),
        comes_from(path, entries, n - 1, x),
        is_under(joined(path, name_of(entries[n - 1])), y),
    ensures
        x != y,
{
    let j = choose|j: int|
        0 <= j < n - 1 && j < entries.len() && (#[trigger] entries[j]) is Directory && is_under(
            joined(path, name_of(entries[j])),
            x,
        );
    assert(is_name(name_of(entries[j])));
    assert(is_name(name_of(entries[n - 1])));
    assert(name_of(entries[j]) != name_of(entries[n - 1]));
    lemma_entries_lie_apart(path, name_of(entries[j]), name_of(entries[n - 1]), x);
}

/// Each directory that is kept, and each of its children, lies under a
/// directory among the entries; each child of the directory that was
/// scanned has a longer path than it.
proof fn lemma_scan_comes_from(path: Seq<char>, entries: Seq<Entry>, n: int)
    requires
        is_listing(entries),
    ensures
        forall|i: int|
            0 <= i < scan_first(path, entries, n).0.len() ==> comes_from(
                path,
                entries,
                n,
                (#[trigger] scan_first(path, entries, n).0[i]).0,
            ),
        forall|i: int, c: int|
            0 <= i < scan_first(path, entries, n).0.len() && 0 <= c < scan_first(
                path,
                entries,
                n,
            ).0[i].1.len() ==> comes_from(
                path,
                entries,
                n,
                #[trigger] scan_first(path, entries, n).0[i].1[c],
            ),
        forall|c: int|
            0 <= c < scan_first(path, entries, n).1.len() ==> (#[trigger] scan_first(
                path,
                entries,
                n,
            ).1[c]).len() > path.len(),
    decreases entries, n,
{
    if 0 < n <= entries.len() {
        lemma_scan_comes_from(path, entries, n - 1);
        let (kept, children) = scan_first(path, entries, n - 1);
        let (grown, listed) = scan_first(path, entries, n);
        assert(is_name(name_of(entries[n - 1])));
        assert forall|x: Seq<char>| comes_from(path, entries, n - 1, x) implies comes_from(
            path,
            entries,
            n,
            x,
        ) by {
            let j = choose|j: int|
                0 <= j < n - 1 && j < entries.len() && (#[trigger] entries[j]) is Directory
                    && is_under(joined(path, name_of(entries[j])), x);
            assert(entries[j] is Directory);
        }
        match entries[n - 1] {
            Entry::File(name) => {
                lemma_joined_is_longer(path, name@);
                assert(grown == kept);
            },
            Entry::Directory(name, inner) => {
                let directory = joined(path, name@);
                lemma_joined_is_longer(path, name@);
                lemma_scan_is_sound(directory, inner@, inner@.len() as int);
                lemma_scan_comes_from(directory, inner@, inner@.len() as int);
                let (deeper, found) = scan_first(directory, inner@, inner@.len() as int);
                assert(entries[n - 1] is Directory);
                assert(name_of(entries[n - 1]) == name@);
                assert forall|x: Seq<char>| is_under(directory, x) implies comes_from(
                    path,
                    entries,
                    n,
                    x,
                ) by {
                    assert(is_under(joined(path, name_of(entries[n - 1])), x));
                }
                assert forall|i: int| 0 <= i < grown.len() implies comes_from(
                    path,
                    entries,
                    n,
                    (#[trigger] grown[i]).0,
                ) by {
                    if i < kept.len() {
                        assert(grown[i] == kept[i]);
                    } else if i < kept.len() + deeper.len() {
                        assert(grown[i] == deeper[i - kept.len()]);
                    } else {
                        assert(grown[i] == (directory, found));
                    }
                }
                assert forall|i: int, c: int|
                    0 <= i < grown.len() && 0 <= c < grown[i].1.len() implies comes_from(
                    path,
                    entries,
                    n,
                    #[trigger] grown[i].1[c],
                ) by {
                    if i < kept.len() {
                        assert(grown[i] == kept[i]);
                    } else if i < kept.len() + deeper.len() {
                        let m = i - kept.len();
                        assert(grown[i] == deeper[m]);
                        let x = deeper[m].1[c];
                        assert(comes_from(directory, inner@, inner@.len() as int, x));
                        let j = choose|j: int|
                            0 <= j < inner@.len() && j < inner@.len() && (#[trigger] inner@[j])
                                is Directory && is_under(
                                joined(directory, name_of(inner@[j])),
                                x,
                            );
                        lemma_joined_below(directory, name_of(inner@[j]));
                        lemma_under_transitive(
                            directory,
                            joined(directory, name_of(inner@[j])),
                            x,
                        );
                    } else {
                        assert(grown[i] == (directory, found));
                        assert(is_under(directory, found[c]));
                    }
                }
            },
        }
    }
}

/// No two directories that are kept have the same path, and a child of one
/// that is itself kept stands before it.
proof fn lemma_scan_is_ordered(path: Seq<char>, entries: Seq<Entry>, n: int)
    requires
        is_listing(entries),
    ensures
        has_distinct_keys(scan_first(path, entries, n).0),
        is_bottom_up(scan_first(path, entries, n).0),
    decreases entries, n,
{
    if 0 < n <= entries.len() {
        lemma_scan_is_ordered(path, entries, n - 1);
        lemma_scan_comes_from(path, entries, n - 1);
        let (kept, children) = scan_first(path, entries, n - 1);
        let (grown, listed) = scan_first(path, entries, n);
        match entries[n - 1] {
            Entry::File(name) => {
                assert(grown == kept);
            },
            Entry::Directory(name, inner) => {
                let directory = joined(path, name@);
                let count = inner@.len() as int;
                lemma_scan_is_ordered(directory, inner@, count);
                lemma_scan_is_sound(directory, inner@, count);
                lemma_scan_comes_from(directory, inner@, count);
                let (deeper, found) = scan_first(directory, inner@, count);
                let first = kept.len() as int;
                let last = (kept.len() + deeper.len()) as int;
                assert(name_of(entries[n - 1]) == name@);
                // Where each directory of the grown list lies, and each child
                // of one.
                assert forall|i: int| first <= i < grown.len() implies is_under(
                    directory,
                    (#[trigger] grown[i]).0,
                ) && (i < last ==> grown[i].0.len() > directory.len()) by {
                    if i < last {
                        assert(grown[i] == deeper[i - first]);
                        lemma_comes_from_is_longer(directory, inner@, count, deeper[i - first].0);
                    } else {
                        assert(grown[i] == (directory, found));
                    }
                }
                assert forall|i: int, c: int|
                    first <= i < grown.len() && 0 <= c < grown[i].1.len() implies is_under(
                    directory,
                    #[trigger] grown[i].1[c],
                ) && grown[i].1[c].len() > directory.len() by {
                    if i < last {
                        let m = i - first;
                        assert(grown[i] == deeper[m]);
                        let x = deeper[m].1[c];
                        lemma_comes_from_is_longer(directory, inner@, count, x);
                        let j = choose|j: int|
                            0 <= j < count && j < inner@.len() && (#[trigger] inner@[j])
                                is Directory && is_under(
                                joined(directory, name_of(inner@[j])),
                                x,
                            );
                        lemma_joined_below(directory, name_of(inner@[j]));
                        lemma_under_transitive(
                            directory,
                            joined(directory, name_of(inner@[j])),
                            x,
                        );
                    } else {
                        assert(grown[i] == (directory, found));
                    }
                }
                assert forall|i: int, j: int|
                    0 <= i < grown.len() && 0 <= j < grown.len() && i != j implies (
                #[trigger] grown[i]).0 != (#[trigger] grown[j]).0 by {
                    if i < first && j < first {
                        assert(grown[i] == kept[i] && grown[j] == kept[j]);
                    } else if i < first {
                        assert(grown[i] == kept[i]);
                        lemma_comes_from_elsewhere(path, entries, n, grown[i].0, grown[j].0);
                    } else if j < first {
                        assert(grown[j] == kept[j]);
                        lemma_comes_from_elsewhere(path, entries, n, grown[j].0, grown[i].0);
                    } else if i < last && j < last {
                        assert(grown[i] == deeper[i - first] && grown[j] == deeper[j - first]);
                    } else if i < last {
                        assert(grown[j] == (directory, found));
                    } else {
                        assert(grown[i] == (directory, found));
                    }
                }
                assert forall|i: int, c: int, j: int|
                    0 <= i < grown.len() && 0 <= c < grown[i].1.len() && 0 <= j < grown.len() && (
                    #[trigger] grown[j]).0 == #[trigger] grown[i].1[c] implies j < i by {
                    if i < first && j < first {
                        assert(grown[i] == kept[i] && grown[j] == kept[j]);
                    } else if i < first {
                        assert(grown[i] == kept[i]);
                        lemma_comes_from_elsewhere(path, entries, n, grown[i].1[c], grown[j].0);
                    } else if j < first {
                        assert(grown[j] == kept[j]);
                        lemma_comes_from_elsewhere(path, entries, n, grown[j].0, grown[i].1[c]);
                    } else if i < last && j < last {
                        assert(grown[i] == deeper[i - first] && grown[j] == deeper[j - first]);
                    } else if j >= last {
                        assert(grown[j] == (directory, found));
                    }
                }
            },
        }
    }
}

/// The tree of a project whose entries are a listing is rooted at the
/// project's root: no directory stands twice in it, and each stands behind
/// the directories among its children.
pub proof fn lemma_tree_is_rooted(root: Seq<char>, entries: Seq<Entry>)
    requires
        is_listing(entries),
    ensures
        is_rooted_at(tree_of(root, entries), root),
{
    let count = entries.len() as int;
    lemma_scan_is_sound(root, entries, count);
    lemma_scan_is_ordered(root, entries, count);
    lemma_scan_comes_from(root, entries, count);
    let tree = tree_of(root, entries);
    let (kept, children) = scan(root, entries);
    let last = kept.len() as int;
    assert(tree[last] == (root, children));
    assert forall|i: int| 0 <= i < last implies tree[i] == kept[i] by {}
    assert forall|i: int| 0 <= i < tree.len() implies is_under(root, (#[trigger] tree[i]).0) by {
        if i < last {
            assert(tree[i] == kept[i]);
        }
    }
    assert forall|i: int| 0 <= i < tree.len() - 1 implies (#[trigger] tree[i]).1.len() > 0 by {
        assert(tree[i] == kept[i]);
    }
    assert forall|i: int, j: int| 0 <= i < tree.len() && 0 <= j < tree.len() && i != j implies (
    #[trigger] tree[i]).0 != (#[trigger] tree[j]).0 by {
        if i < last && j < last {
            assert(tree[i] == kept[i] && tree[j] == kept[j]);
        } else if i < last {
            assert(tree[i] == kept[i]);
            lemma_comes_from_is_longer(root, entries, count, kept[i].0);
        } else {
            assert(tree[j] == kept[j]);
            lemma_comes_from_is_longer(root, entries, count, kept[j].0);
        }
    }
    assert forall|i: int, c: int, j: int|
        0 <= i < tree.len() && 0 <= c < tree[i].1.len() && 0 <= j < tree.len() && (
        #[trigger] tree[j]).0 == #[trigger] tree[i].1[c] implies j < i by {
        if i < last && j < last {
            assert(tree[i] == kept[i] && tree[j] == kept[j]);
        } else if i < last {
            assert(tree[i] == kept[i]);
            lemma_comes_from_is_longer(root, entries, count, kept[i].1[c]);
        } else if j >= last {
            assert(tree[i].1[c] == children[c]);
        }
    }
}

/// In a rooted tree each directory among the children of a directory stands
/// before it: the calls for it are made, and its name is bound, before the
/// directory's own turn comes.
pub proof fn lemma_subdirectories_stand_before(
    tree: Seq<(Seq<char>, Seq<Seq<char>>)>,
    root: Seq<char>,
    place: int,
    k: int,
)
    requires
        is_rooted_at(tree, root),
        0 <= place < tree.len(),
        0 <= k < subdirectories(tree, tree[place].1).len(),
    ensures
        keys(tree).take(place).contains(subdirectories(tree, tree[place].1)[k]),
{
    let children = tree[place].1;
    let child = subdirectories(tree, children)[k];
    children.lemma_filter_pred(directories_of(tree), k);
    assert(has_directory(tree, child));
    children.lemma_filter_contains_rev(directories_of(tree), child);
    assert(children.contains(child));
    let c = choose|c: int| 0 <= c < children.len() && children[c] == child;
    let j = choose|j: int| 0 <= j < tree.len() && (#[trigger] tree[j]).0 == child;
    assert(tree[j].0 == tree[place].1[c]);
    assert(j < place);
    assert(keys(tree).take(place)[j] == child);
}

/// Which paths are directories of `tree`.
pub open spec fn directories_of(tree: Seq<(Seq<char>, Seq<Seq<char>>)>) -> spec_fn(
    Seq<char>,
) -> bool {
    |path: Seq<char>| has_directory(tree, path)
}

/// Which paths are no directories of `tree`.
pub open spec fn files_of(tree: Seq<(Seq<char>, Seq<Seq<char>>)>) -> spec_fn(Seq<char>) -> bool {
    |path: Seq<char>| !has_directory(tree, path)
}

/// Those of `children` that are directories of `tree`, in their order.
pub open spec fn subdirectories(
    tree: Seq<(Seq<char>, Seq<Seq<char>>)>,
    children: Seq<Seq<char>>,
) -> Seq<Seq<char>> {
    children.filter(directories_of(tree))
}

/// Those of `children` that are files, in their order.
pub open spec fn sources(tree: Seq<(Seq<char>, Seq<Seq<char>>)>, children: Seq<Seq<char>>) -> Seq<
    Seq<char>,
> {
    children.filter(files_of(tree))
}

/// The directories of `tree`, in its order.
pub open spec fn keys(tree: Seq<(Seq<char>, Seq<Seq<char>>)>) -> Seq<Seq<char>> {
    tree.map_values(|d: (Seq<char>, Seq<Seq<char>>)| d.0)
}

/// The tree of a project's sources: its directories, each with its
/// children, the files and directories in it that count.
///
/// The list stands for a map from each directory to its children, held in
/// the order in which the directories are built. A sound tree names no
/// directory twice and stands bottom-up: each directory behind the
/// directories among its children, the root last.
#[derive(Debug)]
pub struct FileTree {
    /// Each directory with its children.
    pub directories: Vec<(String, Vec<String>)>,
}

impl View for FileTree {
    type V = Seq<(Seq<char>, Seq<Seq<char>>)>;

    open spec fn view(&self) -> Seq<(Seq<char>, Seq<Seq<char>>)> {
        self.directories@.map_values(|d: (String, Vec<String>)| (d.0@, texts(d.1@)))
    }
}

impl FileTree {
    /// Whether the tree is sound: no directory stands twice in it, and each
    /// stands behind the directories among its children.
    pub open spec fn wf(&self) -> bool {
        has_distinct_keys(self@) && is_bottom_up(self@)
    }

    /// The tree without directories.
    pub fn empty() -> (tree: FileTree)
        ensures
            tree@ == Seq::<(Seq<char>, Seq<Seq<char>>)>::empty(),
            tree.wf(),
    {
        let tree = FileTree { directories: Vec::new() };
        assert(tree@ =~= Seq::empty());
        tree
    }

    /// Whether `path` is a directory of the tree.
    pub fn contains_key(&self, path: &str) -> (found: bool)
        ensures
            found == has_directory(self@, path@),
    {
        let wanted = path.to_owned();
        let mut i: usize = 0;
        while i < self.directories.len()
            invariant
                i <= self.directories.len(),
                wanted@ == path@,
                forall|k: int| 0 <= k < i ==> (#[trigger] self@[k]).0 != path@,
            decreases self.directories.len() - i,
        {
            if self.directories[i].0 == wanted {
                assert(self@[i as int].0 == path@);
                return true;
            }
            i += 1;
        }
        false
    }

    /// Adds to the tree what the entries of the directory `path` add to it,
    /// and gives the children of `path`.
    fn scan_into(&mut self, path: &str, entries: &Vec<Entry>) -> (children: Vec<String>)
        ensures
            final(self)@ == old(self)@ + scan(path@, entries@).0,
            texts(children@) == scan(path@, entries@).1,
        decreases entries,
    {
        let mut children: Vec<String> = Vec::new();
        let ghost before = self@;
        let mut i: usize = 0;
        assert(self@ =~= before + scan_first(path@, entries@, 0).0);
        assert(texts(children@) =~= scan_first(path@, entries@, 0).1);
        while i < entries.len()
            invariant
                i <= entries.len(),
                self@ == before + scan_first(path@, entries@, i as int).0,
                texts(children@) == scan_first(path@, entries@, i as int).1,
            decreases entries.len() - i,
        {
            let ghost (kept, listed) = scan_first(path@, entries@, i as int);
            match &entries[i] {
                Entry::File(name) => {
                    let file = join(path, name.as_str());
                    let chars = chars_of(file.as_str());
                    if classify(&chars) == Kind::Source {
                        children.push(file);
                        assert(texts(children@) =~= listed.push(joined(path@, name@)));
                    }
                },
                Entry::Directory(name, inner) => {
                    let directory = join(path, name.as_str());
                    let ghost earlier = self@;
                    let found = self.scan_into(directory.as_str(), inner);
                    let ghost (deeper, below) = scan(directory@, inner@);
                    if found.len() > 0 {
                        let ghost grown = self@;
                        children.push(directory.clone());
                        self.directories.push((directory, found));
                        proof {
                            assert(texts(children@) =~= listed.push(joined(path@, name@)));
                            assert(self@ =~= grown.push((joined(path@, name@), below)));
                            assert(self@ =~= before + (kept + deeper).push(
                                (joined(path@, name@), below),
                            ));
                        }
                    } else {
                        assert(self@ =~= before + (kept + deeper));
                    }
                },
            }
            i += 1;
        }
        children
    }

    /// The tree of the project at `root`, whose directory holds `entries`.
    ///
    /// A file counts where it is a source file. A directory counts where
    /// something in it counts: a directory with nothing to build is left
    /// out, and so is not among the children of the directory that holds
    /// it. The root is always a directory of the tree.
    ///
    /// Where the entries are a listing, with a name for each and no name
    /// twice in one directory, the tree is rooted at `root`.
    pub fn from_root(root: &str, entries: &Vec<Entry>) -> (tree: FileTree)
        ensures
            tree@ == tree_of(root@, entries@),
            has_directory(tree@, root@),
            is_listing(entries@) ==> tree.wf() && is_rooted_at(tree@, root@),
    {
        let mut tree = FileTree::empty();
        let children = tree.scan_into(root, entries);
        let ghost kept = tree@;
        tree.directories.push((root.to_owned(), children));
        proof {
            assert(kept =~= scan(root@, entries@).0);
            assert(tree@ =~= tree_of(root@, entries@));
            if is_listing(entries@) {
                lemma_tree_is_rooted(root@, entries@);
            }
            assert(tree@[tree@.len() - 1].0 == root@);
        }
        tree
    }

    /// Whether no two directories of the tree have the same path.
    pub fn has_no_key_twice(&self) -> (distinct: bool)
        ensures
            distinct == has_distinct_keys(self@),
    {
        let n = self.directories.len();
        let ghost tree = self@;
        let mut i: usize = 0;
        while i < n
            invariant
                i <= n,
                n == self.directories.len(),
                tree == self@,
                forall|a: int, b: int|
                    0 <= a < i && a < b < n ==> (#[trigger] tree[a]).0 != (#[trigger] tree[b]).0,
            decreases n - i,
        {
            let mut j: usize = i + 1;
            while j < n
                invariant
                    i < j <= n,
                    n == self.directories.len(),
                    tree == self@,
                    forall|b: int| i < b < j ==> tree[i as int].0 != (#[trigger] tree[b]).0,
                decreases n - j,
            {
                if self.directories[i].0 == self.directories[j].0 {
                    assert(tree[i as int].0 == tree[j as int].0);
                    return false;
                }
                j += 1;
            }
            i += 1;
        }
        assert forall|a: int, b: int| 0 <= a < n && 0 <= b < n && a != b implies (
        #[trigger] tree[a]).0 != (#[trigger] tree[b]).0 by {
            if a < b {
                assert(tree[a].0 != tree[b].0);
            } else {
                assert(tree[b].0 != tree[a].0);
            }
        }
        true
    }

    /// Whether the tree stands bottom-up: whether each child of a directory
    /// that is itself a directory of the tree stands before that directory.
    pub fn stands_bottom_up(&self) -> (ordered: bool)
        ensures
            ordered == is_bottom_up(self@),
    {
        let n = self.directories.len();
        let ghost tree = self@;
        let mut i: usize = 0;
        while i < n
            invariant
                i <= n,
                n == self.directories.len(),
                tree == self@,
                forall|a: int, c: int, j: int|
                    0 <= a < i && 0 <= c < tree[a].1.len() && a <= j < n ==> (#[trigger] tree[j]).0
                        != #[trigger] tree[a].1[c],
            decreases n - i,
        {
            let children = &self.directories[i].1;
            assert(tree[i as int].1 == texts(children@));
            let mut c: usize = 0;
            while c < children.len()
                invariant
                    i < n,
                    n == self.directories.len(),
                    tree == self@,
                    children == &self.directories[i as int].1,
                    tree[i as int].1 == texts(children@),
                    c <= children.len(),
                    forall|d: int, j: int|
                        0 <= d < c && i <= j < n ==> (#[trigger] tree[j]).0
                            != #[trigger] tree[i as int].1[d],
                decreases children.len() - c,
            {
                let mut j: usize = i;
                while j < n
                    invariant
                        i <= j <= n,
                        n == self.directories.len(),
                        tree == self@,
                        children == &self.directories[i as int].1,
                        tree[i as int].1 == texts(children@),
                        c < children.len(),
                        forall|k: int| i <= k < j ==> (#[trigger] tree[k]).0 != children[c as int]@,
                    decreases n - j,
                {
                    if self.directories[j].0 == children[c] {
                        assert(tree[j as int].0 == tree[i as int].1[c as int]);
                        return false;
                    }
                    j += 1;
                }
                assert(tree[i as int].1[c as int] == children[c as int]@);
                c += 1;
            }
            i += 1;
        }
        assert forall|a: int, c: int, j: int|
            0 <= a < n && 0 <= c < tree[a].1.len() && 0 <= j < n && (#[trigger] tree[j]).0
                == #[trigger] tree[a].1[c] implies j < a by {
            if a <= j {
                assert(tree[j].0 != tree[a].1[c]);
            }
        }
        true
    }

    /// The children of the directory at `place`, parted: the directories
    /// among them, and the files.
    pub fn split(&self, place: usize) -> (parts: (Vec<String>, Vec<String>))
        requires
            place < self@.len(),
        ensures
            texts(parts.0@) == subdirectories(self@, self@[place as int].1),
            texts(parts.1@) == sources(self@, self@[place as int].1),
    {
        let children = &self.directories[place].1;
        let ghost listed = self@[place as int].1;
        let mut directories: Vec<String> = Vec::new();
        let mut files: Vec<String> = Vec::new();
        let mut i: usize = 0;
        proof {
            reveal(Seq::filter);
            assert(listed.take(0) =~= Seq::<Seq<char>>::empty());
            assert(texts(directories@) =~= subdirectories(self@, listed.take(0)));
            assert(texts(files@) =~= sources(self@, listed.take(0)));
        }
        while i < children.len()
            invariant
                i <= children.len(),
                place < self@.len(),
                listed == self@[place as int].1,
                listed == texts(children@),
                texts(directories@) == subdirectories(self@, listed.take(i as int)),
                texts(files@) == sources(self@, listed.take(i as int)),
            decreases children.len() - i,
        {
            let child = children[i].clone();
            proof {
                let seen = listed.take(i as int);
                assert(listed.take(i + 1) =~= seen.push(child@));
                seen.lemma_filter_push(child@, directories_of(self@));
                seen.lemma_filter_push(child@, files_of(self@));
            }
            if self.contains_key(child.as_str()) {
                let ghost before = directories@;
                directories.push(child);
                assert(texts(directories@) =~= texts(before).push(children[i as int]@));
            } else {
                let ghost before = files@;
                files.push(child);
                assert(texts(files@) =~= texts(before).push(children[i as int]@));
            }
            i += 1;
        }
        assert(listed.take(children.len() as int) =~= listed);
        (directories, files)
    }
}

/// A project: its description and the tree of its sources.
#[derive(Debug)]
pub struct Package {
    /// The directory of the project.
    pub root: String,
    /// The name of the project.
    pub name: String,
    /// The version of the project.
    pub version: String,
    /// The authors of the project, where it names them.
    pub authors: Option<Vec<String>>,
    /// The packages that the project needs, each with its version.
    pub dependencies: Vec<(String, String)>,
    /// The sources of the project.
    pub filetree: FileTree,
}

impl Package {
    /// Whether the tree of the project is rooted at its root.
    pub open spec fn wf(&self) -> bool {
        is_rooted_at(self.filetree@, self.root@)
    }

    /// Whether the tree of the project is rooted at its root.
    pub fn is_rooted(&self) -> (rooted: bool)
        ensures
            rooted == self.wf(),
    {
        let n = self.filetree.directories.len();
        let ghost tree = self.filetree@;
        if n == 0 {
            return false;
        }
        if !(self.filetree.directories[n - 1].0 == self.root) {
            assert(tree.last().0 == self.filetree.directories[n - 1].0@);
            return false;
        }
        let mut i: usize = 0;
        while i < n
            invariant
                i <= n,
                n == self.filetree.directories.len(),
                tree == self.filetree@,
                forall|k: int| 0 <= k < i ==> is_under(self.root@, (#[trigger] tree[k]).0),
                forall|k: int| 0 <= k < i && k < n - 1 ==> (#[trigger] tree[k]).1.len() > 0,
            decreases n - i,
        {
            let directory = &self.filetree.directories[i];
            assert(tree[i as int].0 == directory.0@);
            assert(tree[i as int].1.len() == directory.1.len());
            if !lies_under(self.root.as_str(), directory.0.as_str()) {
                return false;
            }
            if i + 1 < n && directory.1.len() == 0 {
                return false;
            }
            i += 1;
        }
        self.filetree.has_no_key_twice() && self.filetree.stands_bottom_up()
    }

    /// The project at `root` with the given name and version, whose
    /// directory holds `entries`. It names no author and needs no other
    /// package. Its tree is rooted at `root` where the entries are a
    /// listing.
    pub fn new(root: &str, name: String, version: String, entries: &Vec<Entry>) -> (package:
        Package)
        ensures
            is_listing(entries@) ==> package.wf(),
            package.root@ == root@,
            package.name == name,
            package.version == version,
            package.authors is None,
            package.dependencies@.len() == 0,
            package.filetree@ == tree_of(root@, entries@),
    {
        Package {
            root: root.to_owned(),
            name: name,
            version: version,
            authors: None,
            dependencies: Vec::new(),
            filetree: FileTree::from_root(root, entries),
        }
    }

    /// Whether `result` is the project at `root` that `document` describes,
    /// with the tree of `entries`, or the error that says what the document
    /// lacks.
    pub open spec fn is_described(
        root: Seq<char>,
        document: Map<Seq<char>, Item>,
        entries: Seq<Entry>,
        result: Result<Package, Error>,
    ) -> bool {
        match (result, description(document)) {
            (Ok(package), Ok(found)) => {
                &&& is_listing(entries) ==> package.wf()
                &&& package.root@ == root
                &&& package.name@ == found.0
                &&& package.version@ == found.1
                &&& package.authors is None
                &&& package.dependencies@.len() == 0
                &&& package.filetree@ == tree_of(root, entries)
            },
            (Err(error), Err(fault)) => reports(error, fault),
            _ => false,
        }
    }

    /// The packages that a manifest declares the project to need. None is
    /// taken from it.
    pub fn construct_dependencies(_value: &toml::Value) -> (declared: Vec<(String, String)>)
        ensures
            declared@.len() == 0,
    {
        Vec::new()
    }

    /// The project at `root` that the manifest with the top table `value`
    /// describes, whose directory holds `entries`.
    ///
    /// The manifest must hold the table `package` with the strings `name`
    /// and `version`; the error names the first of them that is missing, or
    /// says that it is of another type.
    pub fn from_value(root: &str, value: toml::Table, entries: &Vec<Entry>) -> (result: Result<
        Package,
        Error,
    >)
        ensures
            Package::is_described(root@, table_items(value), entries@, result),
    {
        let (name, version) = match describe(&value) {
            Ok(found) => found,
            Err(error) => {
                return Err(error);
            },
        };
        let dependencies = match lookup(&value, "dependencies") {
            Some(declared) => Package::construct_dependencies(declared),
            None => Vec::new(),
        };
        Ok(
            Package {
                root: root.to_owned(),
                name: name,
                version: version,
                authors: None,
                dependencies: dependencies,
                filetree: FileTree::from_root(root, entries),
            },
        )
    }

    /// The project at `root` whose manifest reads `manifest` and whose
    /// directory holds `entries`.
    ///
    /// A manifest that is no TOML document is a syntax error; one that
    /// lacks what describes the project is the error that says what it
    /// lacks.
    pub fn from_root(root: &str, manifest: &str, entries: &Vec<Entry>) -> (result: Result<
        Package,
        Error,
    >)
        ensures
            match document_items(manifest@) {
                Some(document) => Package::is_described(root@, document, entries@, result),
                None => result matches Err(Error::Syntax),
            },
    {
        match parse(manifest) {
            Some(value) => Package::from_value(root, value, entries),
            None => Err(Error::Syntax),
        }
    }
}

} // verus!
