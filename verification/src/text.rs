//! Paths as text.
//!
//! A path is held as the text it is written with, its components parted by
//! `/`. Two paths are the same path exactly when their texts are equal. An
//! empty component counts for nothing: a separator at the end of a path, or
//! one that follows another, changes neither the path's components nor its
//! file name.

use vstd::prelude::*;

verus! {

/// The texts of a list of strings.
pub open spec fn texts(strings: Seq<String>) -> Seq<Seq<char>> {
    strings.map_values(|s: String| s@)
}

/// The extension of a source file.
pub open spec fn source_extension() -> Seq<char> {
    seq!['v']
}

/// The extension of the object compiled from a source file.
pub open spec fn object_extension() -> Seq<char> {
    seq!['v', 'o']
}

/// The last place at which `c` stands in `s`, or -1 where it stands nowhere.
pub open spec fn last_index_of(s: Seq<char>, c: char) -> int
    decreases s.len(),
{
    if s.len() == 0 {
        -1
    } else if s.last() == c {
        s.len() - 1
    } else {
        last_index_of(s.drop_last(), c)
    }
}

/// The path without the separators at its end.
pub open spec fn trimmed(path: Seq<char>) -> Seq<char>
    decreases path.len(),
{
    if path.len() > 0 && path.last() == '/' {
        trimmed(path.drop_last())
    } else {
        path
    }
}

/// The last component of `path`: what stands between its last separator
/// that something follows and the separators at its end.
pub open spec fn file_name(path: Seq<char>) -> Seq<char> {
    trimmed(path).skip(last_index_of(trimmed(path), '/') + 1)
}

/// The extension of `path`: what follows the last dot of its file name. A
/// file name without a dot has none, nor has one whose only dot comes first,
/// nor has `..`.
pub open spec fn extension(path: Seq<char>) -> Option<Seq<char>> {
    let name = file_name(path);
    let dot = last_index_of(name, '.');
    if dot <= 0 || name == seq!['.', '.'] {
        None
    } else {
        Some(name.skip(dot + 1))
    }
}

/// What a path's extension says of the file.
#[derive(Debug, PartialEq, Eq, Structural, Clone, Copy)]
pub enum Kind {
    /// The path has no extension.
    Plain,
    /// A source file.
    Source,
    /// The object compiled from a source file.
    Object,
    /// A file of no interest to the build.
    Foreign,
}

/// The kind of the file that `path` names.
pub open spec fn kind_of(path: Seq<char>) -> Kind {
    match extension(path) {
        None => Kind::Plain,
        Some(e) => if e == source_extension() {
            Kind::Source
        } else if e == object_extension() {
            Kind::Object
        } else {
            Kind::Foreign
        },
    }
}

/// The source file behind `path`: a source file's path without the
/// separators at its end, an object's path with the source extension in
/// place of its own, any other path as it is.
pub open spec fn canonical(path: Seq<char>) -> Seq<char> {
    match kind_of(path) {
        Kind::Source => trimmed(path),
        Kind::Object => trimmed(path).drop_last(),
        _ => path,
    }
}

/// The path of the entry `name` of the directory `parent`.
pub open spec fn joined(parent: Seq<char>, name: Seq<char>) -> Seq<char> {
    if parent.len() == 0 || parent.last() == '/' {
        parent + name
    } else {
        parent + seq!['/'] + name
    }
}

/// What `path` says below `root`: nothing where the two are equal, else the
/// text behind `root` and the separator that follows it. `None` where `path`
/// does not lie under `root`.
pub open spec fn below(root: Seq<char>, path: Seq<char>) -> Option<Seq<char>> {
    if path == root {
        Some(Seq::empty())
    } else if !root.is_prefix_of(path) {
        None
    } else if root.len() == 0 || root.last() == '/' {
        Some(path.skip(root.len() as int))
    } else if path[root.len() as int] == '/' {
        Some(path.skip(root.len() as int + 1))
    } else {
        None
    }
}

/// Whether `path` is `root` or lies under it.
pub open spec fn is_under(root: Seq<char>, path: Seq<char>) -> bool {
    below(root, path) is Some
}

/// How many characters of `s` stand before the first one at which `stop`
/// holds: all of them where it holds at none.
pub open spec fn leading(s: Seq<char>, stop: spec_fn(char) -> bool) -> nat
    decreases s.len(),
{
    if s.len() == 0 || stop(s[0]) {
        0
    } else {
        1 + leading(s.skip(1), stop)
    }
}

/// The components of a path: its longest runs of characters that are no
/// separators. A separator at either end of the path, and a separator that
/// follows another, parts nothing: no component is empty.
pub open spec fn components(path: Seq<char>) -> Seq<Seq<char>>
    decreases path.len(),
{
    if path.len() == 0 {
        Seq::empty()
    } else if path[0] == '/' {
        components(path.skip(1))
    } else {
        let n = leading(path, |c: char| c == '/');
        if n >= path.len() {
            seq![path]
        } else {
            seq![path.take(n as int)] + components(path.skip(n as int))
        }
    }
}

/// The names joined by dots.
pub open spec fn dotted(names: Seq<Seq<char>>) -> Seq<char>
    decreases names.len(),
{
    if names.len() == 0 {
        Seq::empty()
    } else if names.len() == 1 {
        names[0]
    } else {
        dotted(names.drop_last()) + seq!['.'] + names.last()
    }
}

/// The logical name of `path` in the project at `root`: its components below
/// the root, joined by dots.
pub open spec fn logical_name(root: Seq<char>, path: Seq<char>) -> Seq<char>
    recommends
        is_under(root, path),
{
    dotted(components(below(root, path).unwrap()))
}

/// `leading` is `n` where `stop` holds at `n` and nowhere before it.
pub proof fn lemma_leading(s: Seq<char>, stop: spec_fn(char) -> bool, n: int)
    requires
        0 <= n <= s.len(),
        forall|k: int| 0 <= k < n ==> !stop(#[trigger] s[k]),
        n < s.len() ==> stop(s[n]),
    ensures
        leading(s, stop) == n,
    decreases s.len(),
{
    if n > 0 {
        let rest = s.skip(1);
        assert forall|k: int| 0 <= k < n - 1 implies !stop(#[trigger] rest[k]) by {
            assert(rest[k] == s[k + 1]);
        }
        lemma_leading(rest, stop, n - 1);
    }
}


/// `last_index_of` finds `i` where `c` stands at `i` and nowhere behind it.
pub proof fn lemma_last_index_of(s: Seq<char>, c: char, i: int)
    requires
        -1 <= i < s.len(),
        i >= 0 ==> s[i] == c,
        forall|k: int| i < k < s.len() ==> s[k] != c,
    ensures
        last_index_of(s, c) == i,
    decreases s.len(),
{
    if s.len() > 0 && s.last() != c {
        lemma_last_index_of(s.drop_last(), c, i);
    }
}

/// An entry's path lies under its directory, and is the entry's name below it.
pub proof fn lemma_joined_below(parent: Seq<char>, name: Seq<char>)
    ensures
        below(parent, joined(parent, name)) == Some(name),
{
    let path = joined(parent, name);
    if parent.len() == 0 || parent.last() == '/' {
        assert(path.skip(parent.len() as int) =~= name);
        if path == parent {
            assert(name =~= Seq::<char>::empty());
        }
    } else {
        assert(path.skip(parent.len() as int + 1) =~= name);
        assert(path[parent.len() as int] == '/');
    }
}

/// What lies under a directory lies under each directory that this one lies
/// under.
pub proof fn lemma_under_transitive(a: Seq<char>, b: Seq<char>, c: Seq<char>)
    requires
        is_under(a, b),
        is_under(b, c),
    ensures
        is_under(a, c),
{
    if a != b && b != c {
        assert(a.len() < b.len()) by {
            if a.len() == b.len() {
                assert(a =~= b);
            }
        }
        assert(c[a.len() as int] == b[a.len() as int]);
    }
}

/// The characters of a string.
pub fn chars_of(s: &str) -> (chars: Vec<char>)
    ensures
        chars@ == s@,
{
    let mut chars: Vec<char> = Vec::new();
    for c in it: s.chars()
        invariant
            it.seq() == s@,
            chars@ == s@.take(it.index() as int),
    {
        chars.push(c);
    }
    assert(s@.take(s@.len() as int) == s@);
    chars
}

/// `String::from_iter` on a list of characters: the string made of them, in
/// their order.
#[verifier::external_body]
pub(crate) fn string_of(chars: &Vec<char>) -> (s: String)
    ensures
        s@ == chars@,
{
    String::from_iter(chars)
}

/// How long `path` is without the separators at its end.
pub fn trimmed_len(path: &Vec<char>) -> (end: usize)
    ensures
        end <= path.len(),
        trimmed(path@) == path@.take(end as int),
{
    let mut end: usize = path.len();
    assert(path@.take(end as int) =~= path@);
    while end > 0 && path[end - 1] == '/'
        invariant
            end <= path.len(),
            trimmed(path@) == trimmed(path@.take(end as int)),
        decreases end,
    {
        assert(path@.take(end as int).drop_last() =~= path@.take(end - 1));
        end -= 1;
    }
    end
}

/// Where the extension of `path` starts, if it has one.
pub fn extension_start(path: &Vec<char>) -> (start: Option<usize>)
    ensures
        match start {
            Some(k) => k <= trimmed(path@).len() && extension(path@) == Some(
                trimmed(path@).skip(k as int),
            ),
            None => extension(path@) is None,
        },
{
    let end = trimmed_len(path);
    let ghost whole = path@.take(end as int);
    let mut i: usize = end;
    let mut dot: Option<usize> = None;
    while i > 0 && path[i - 1] != '/'
        invariant
            i <= end <= path.len(),
            whole == path@.take(end as int),
            forall|k: int| i <= k < end ==> whole[k] != '/',
            match dot {
                Some(d) => i <= d < end && whole[d as int] == '.' && forall|k: int|
                    d < k < end ==> whole[k] != '.',
                None => forall|k: int| i <= k < end ==> whole[k] != '.',
            },
        decreases i,
    {
        i -= 1;
        assert(whole[i as int] == path[i as int]);
        if dot.is_none() && path[i] == '.' {
            dot = Some(i);
        }
    }
    let ghost name = whole.skip(i as int);
    proof {
        if i > 0 {
            assert(whole[i - 1] == path[i - 1]);
        }
        lemma_last_index_of(whole, '/', i - 1);
        assert(file_name(path@) == name);
    }
    match dot {
        None => {
            proof {
                lemma_last_index_of(name, '.', -1);
            }
            None
        },
        Some(d) => {
            proof {
                lemma_last_index_of(name, '.', d - i);
                assert(name.skip(d - i + 1) =~= whole.skip(d + 1));
            }
            if d == i {
                None
            } else if end - i == 2 && path[i] == '.' && path[i + 1] == '.' {
                assert(whole[i as int] == path[i as int]);
                assert(whole[i + 1] == path[i + 1]);
                assert(name =~= seq!['.', '.']);
                None
            } else {
                assert(name != seq!['.', '.']) by {
                    if name == seq!['.', '.'] {
                        assert(name.len() == 2);
                        assert(name[0] == '.' && name[1] == '.');
                        assert(whole[i as int] == path[i as int]);
                        assert(whole[i + 1] == path[i + 1]);
                    }
                }
                Some(d + 1)
            }
        },
    }
}

/// The kind of the file that `path` names.
pub fn classify(path: &Vec<char>) -> (kind: Kind)
    ensures
        kind == kind_of(path@),
        kind == Kind::Object ==> trimmed(path@).len() > 0,
{
    let end = trimmed_len(path);
    match extension_start(path) {
        None => Kind::Plain,
        Some(k) => {
            let ghost whole = path@.take(end as int);
            let ghost e = whole.skip(k as int);
            let n = end - k;
            proof {
                if n >= 1 {
                    assert(e[0] == path[k as int]);
                }
                if n >= 2 {
                    assert(e[1] == path[k + 1]);
                }
            }
            if n == 1 && path[k] == 'v' {
                assert(e =~= source_extension());
                Kind::Source
            } else if n == 2 && path[k] == 'v' && path[k + 1] == 'o' {
                assert(e =~= object_extension());
                Kind::Object
            } else {
                assert(e != source_extension()) by {
                    if e == source_extension() {
                        assert(e.len() == 1 && e[0] == 'v');
                    }
                }
                assert(e != object_extension()) by {
                    if e == object_extension() {
                        assert(e.len() == 2 && e[0] == 'v' && e[1] == 'o');
                    }
                }
                Kind::Foreign
            }
        },
    }
}

/// The path of the entry `name` of the directory `parent`.
pub fn join(parent: &str, name: &str) -> (path: String)
    ensures
        path@ == joined(parent@, name@),
{
    let head = chars_of(parent);
    let mut path = parent.to_owned();
    if head.len() > 0 && head[head.len() - 1] != '/' {
        proof {
            reveal_strlit("/");
            assert("/"@ =~= seq!['/']);
        }
        path.append("/");
    }
    path.append(name);
    path
}

/// Whether `path` is `root` or lies under it, and where in `path` the part
/// below `root` starts.
pub fn start_below(root: &Vec<char>, path: &Vec<char>) -> (start: Option<usize>)
    ensures
        match start {
            Some(k) => k <= path.len() && below(root@, path@) == Some(path@.skip(k as int)),
            None => below(root@, path@) is None,
        },
{
    let n = root.len();
    if n > path.len() {
        assert(!root@.is_prefix_of(path@));
        assert(path@ != root@);
        return None;
    }
    let mut i: usize = 0;
    while i < n
        invariant
            i <= n,
            n == root.len(),
            n <= path.len(),
            forall|k: int| 0 <= k < i ==> root[k] == path[k],
        decreases n - i,
    {
        if root[i] != path[i] {
            assert(!root@.is_prefix_of(path@)) by {
                if root@.is_prefix_of(path@) {
                    assert(root@ == path@.subrange(0, n as int));
                    assert(path@.subrange(0, n as int)[i as int] == path@[i as int]);
                }
            }
            assert(path@ != root@);
            return None;
        }
        i += 1;
    }
    assert(root@.is_prefix_of(path@)) by {
        assert(root@ =~= path@.subrange(0, n as int));
    }
    if n == path.len() {
        assert(path@ =~= root@);
        assert(path@.skip(n as int) =~= Seq::<char>::empty());
        Some(n)
    } else {
        assert(path@ != root@);
        if n == 0 || root[n - 1] == '/' {
            Some(n)
        } else if path[n] == '/' {
            Some(n + 1)
        } else {
            None
        }
    }
}

/// Whether `path` is `root` or lies under it.
pub fn lies_under(root: &str, path: &str) -> (under: bool)
    ensures
        under == is_under(root@, path@),
{
    let base = chars_of(root);
    let full = chars_of(path);
    start_below(&base, &full).is_some()
}

/// The logical name of `path` in the project at `root`: the components of
/// `path` below `root`, joined by dots. The root's own name is empty.
pub fn to_logical_path(root: &str, path: &str) -> (name: String)
    requires
        is_under(root@, path@),
    ensures
        name@ == logical_name(root@, path@),
{
    let base = chars_of(root);
    let full = chars_of(path);
    let start = start_below(&base, &full).unwrap();
    let ghost relative = full@.skip(start as int);
    let ghost mut seen: Seq<Seq<char>> = Seq::empty();
    let mut name: Vec<char> = Vec::new();
    let mut i: usize = start;
    proof {
        assert(relative.skip(0) =~= relative);
        assert(seen + components(relative) =~= components(relative));
    }
    while i < full.len()
        invariant
            start <= i <= full.len(),
            relative == full@.skip(start as int),
            components(relative) == seen + components(relative.skip(i - start)),
            name@ == dotted(seen),
            seen.len() == 0 <==> name.len() == 0,
            forall|k: int| 0 <= k < seen.len() ==> (#[trigger] seen[k]).len() > 0,
        decreases full.len() - i,
    {
        let ghost rest = relative.skip(i - start);
        assert(rest[0] == full[i as int]);
        if full[i] == '/' {
            assert(rest.skip(1) =~= relative.skip(i + 1 - start));
            i += 1;
        } else {
            let ghost before = name@;
            if name.len() > 0 {
                name.push('.');
            }
            let ghost head = name@;
            let mut j: usize = i;
            while j < full.len() && full[j] != '/'
                invariant
                    i <= j <= full.len(),
                    forall|m: int| i <= m < j ==> full[m] != '/',
                    name@ == head + full@.subrange(i as int, j as int),
                decreases full.len() - j,
            {
                name.push(full[j]);
                assert(name@ =~= head + full@.subrange(i as int, j + 1));
                j += 1;
            }
            proof {
                let word = full@.subrange(i as int, j as int);
                assert forall|m: int| 0 <= m < j - i implies rest[m] != '/' by {
                    assert(rest[m] == full[i + m]);
                }
                if j < full.len() {
                    assert(rest[j - i] == full[j as int]);
                }
                lemma_leading(rest, |c: char| c == '/', j - i);
                assert(word =~= rest.take(j - i));
                assert(rest.skip(j - i) =~= relative.skip(j - start));
                if j == full.len() {
                    assert(rest.take(j - i) =~= rest);
                    assert(relative.skip(j - start).len() == 0);
                    assert(components(relative.skip(j - start)) =~= Seq::empty());
                }
                assert(components(rest) =~= seq![word] + components(relative.skip(j - start)));
                assert(components(relative) =~= seen.push(word) + components(
                    relative.skip(j - start),
                ));
                assert(seen.push(word).drop_last() =~= seen);
                assert(seen.push(word).last() == word);
                if seen.len() == 0 {
                    assert(before =~= Seq::<char>::empty());
                    assert(name@ =~= word);
                } else {
                    assert(head =~= before + seq!['.']);
                    assert(name@ =~= dotted(seen) + seq!['.'] + word);
                }
                seen = seen.push(word);
            }
            i = j;
        }
    }
    proof {
        assert(relative.skip(i - start).len() == 0);
        assert(components(relative.skip(i - start)) =~= Seq::empty());
        assert(components(relative) =~= seen);
    }
    string_of(&name)
}

} // verus!
