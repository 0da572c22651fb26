//! The compiler: the order in which it is given the files of a directory,
//! and the calls that build a project.

use vstd::prelude::*;
use crate::coqdep::{analyzer_arguments, is_extraction_step, CoqDep, Extraction};
use crate::dependencies::{Dependencies, Graph};
use crate::error::Error;
use crate::invocation::{analyzer, compiler, mappings, push_files, push_mappings, recursive};
use crate::invocation::{lemma_mappings_bind, recursive_flag};
use crate::invocation::{Action, Invocation, Output};
use crate::package::{is_rooted_at, keys, lemma_subdirectories_stand_before, sources};
use crate::package::{subdirectories, Package};
use crate::text::{is_under, logical_name, texts, to_logical_path};

verus! {

/// Whether the file at place `i` may come first: it depends on none of
/// `files`.
pub open spec fn is_free(graph: Graph, files: Seq<Seq<char>>, i: int) -> bool {
    forall|j: int| 0 <= j < files.len() ==> !graph.is_dependent(files[i], #[trigger] files[j])
}

/// The first place from `from` on whose file may come first; the length of
/// `files` where there is none.
pub open spec fn first_free(graph: Graph, files: Seq<Seq<char>>, from: int) -> int
    decreases files.len() - from,
{
    if from >= files.len() {
        files.len() as int
    } else if is_free(graph, files, from) {
        from
    } else {
        first_free(graph, files, from + 1)
    }
}

/// The order in which `files` are compiled: again and again the first of
/// the files left that depends on none of them. `None` where files are
/// left of which each depends on another.
pub open spec fn ordered(graph: Graph, files: Seq<Seq<char>>) -> Option<Seq<Seq<char>>>
    decreases files.len(),
{
    if files.len() == 0 {
        Some(Seq::empty())
    } else {
        let i = first_free(graph, files, 0);
        if 0 <= i < files.len() {
            match ordered(graph, files.remove(i)) {
                Some(rest) => Some(seq![files[i]] + rest),
                None => None,
            }
        } else {
            None
        }
    }
}

/// 1 while something is still to be done, else 0.
spec fn pending(open: bool) -> nat {
    if open {
        1
    } else {
        0
    }
}

/// The files at `places`.
spec fn pick(files: Seq<Seq<char>>, places: Seq<usize>) -> Seq<Seq<char>> {
    places.map_values(|k: usize| files[k as int])
}

/// Whether two of `files` depend on each other.
pub open spec fn has_cycle(graph: Graph, files: Seq<Seq<char>>) -> bool {
    exists|x: int, y: int|
        0 <= x < files.len() && 0 <= y < files.len() && graph.is_dependent(
            #[trigger] files[x],
            #[trigger] files[y],
        ) && graph.is_dependent(files[y], files[x])
}

/// `first_free` is `i` where no file from `from` to `i` may come first, and
/// the file at `i` may, or `i` is the length of `files`.
pub proof fn lemma_first_free(graph: Graph, files: Seq<Seq<char>>, from: int, i: int)
    requires
        0 <= from <= i <= files.len(),
        forall|k: int| from <= k < i ==> !is_free(graph, files, k),
        i < files.len() ==> is_free(graph, files, i),
    ensures
        first_free(graph, files, from) == i,
    decreases i - from,
{
    if from < i {
        lemma_first_free(graph, files, from + 1, i);
    }
}

/// What `first_free` gives lies between `from` and the length of `files`.
pub proof fn lemma_first_free_is_free(graph: Graph, files: Seq<Seq<char>>, from: int)
    requires
        0 <= from <= files.len(),
    ensures
        from <= first_free(graph, files, from) <= files.len(),
        first_free(graph, files, from) < files.len() ==> is_free(
            graph,
            files,
            first_free(graph, files, from),
        ),
        forall|k: int| from <= k < first_free(graph, files, from) ==> !is_free(graph, files, k),
    decreases files.len() - from,
{
    if from < files.len() && !is_free(graph, files, from) {
        lemma_first_free_is_free(graph, files, from + 1);
    }
}

/// The order holds the files that were given, each as often as it was given.
pub proof fn lemma_ordered_is_permutation(graph: Graph, files: Seq<Seq<char>>)
    requires
        ordered(graph, files) is Some,
    ensures
        ordered(graph, files).unwrap().to_multiset() == files.to_multiset(),
        ordered(graph, files).unwrap().len() == files.len(),
    decreases files.len(),
{
    if files.len() == 0 {
        assert(files =~= Seq::<Seq<char>>::empty());
    } else {
        let i = first_free(graph, files, 0);
        let rest = ordered(graph, files.remove(i)).unwrap();
        lemma_first_free_is_free(graph, files, 0);
        let less = files.remove(i);
        lemma_ordered_is_permutation(graph, less);
        let whole = seq![files[i]] + rest;
        assert(whole =~= rest.insert(0, files[i]));
        assert(files =~= less.insert(i, files[i]));
        vstd::seq_lib::to_multiset_insert(rest, 0, files[i]);
        vstd::seq_lib::to_multiset_insert(less, i, files[i]);
        assert(ordered(graph, files) == Some(whole));
        assert(whole.to_multiset() == rest.to_multiset().insert(files[i]));
        assert(files.to_multiset() == less.to_multiset().insert(files[i]));
    }
}

/// In the order no file stands before a file that it depends on.
pub proof fn lemma_ordered_respects(graph: Graph, files: Seq<Seq<char>>, a: int, b: int)
    requires
        ordered(graph, files) is Some,
        0 <= a < b < files.len(),
    ensures
        ordered(graph, files).unwrap().len() == files.len(),
        !graph.is_dependent(ordered(graph, files).unwrap()[a], ordered(graph, files).unwrap()[b]),
    decreases files.len(),
{
    let i = first_free(graph, files, 0);
    lemma_first_free_is_free(graph, files, 0);
    let less = files.remove(i);
    let rest = ordered(graph, less).unwrap();
    let whole = seq![files[i]] + rest;
    lemma_ordered_is_permutation(graph, files);
    lemma_ordered_is_permutation(graph, less);
    if a == 0 {
        let later = whole[b];
        assert(later == rest[b - 1]);
        vstd::seq_lib::to_multiset_contains(rest, later);
        vstd::seq_lib::to_multiset_contains(less, later);
        assert(rest.contains(later));
        assert(less.contains(later));
        let k = choose|k: int| 0 <= k < less.len() && less[k] == later;
        if k < i {
            assert(files[k] == later);
        } else {
            assert(files[k + 1] == later);
        }
    } else {
        lemma_ordered_respects(graph, less, a - 1, b - 1);
        assert(whole[a] == rest[a - 1]);
        assert(whole[b] == rest[b - 1]);
    }
}

/// Files of which none depends on another keep the order they were given in.
pub proof fn lemma_ordered_keeps_order(graph: Graph, files: Seq<Seq<char>>)
    requires
        forall|i: int, j: int|
            0 <= i < files.len() && 0 <= j < files.len() ==> !graph.is_dependent(
                #[trigger] files[i],
                #[trigger] files[j],
            ),
    ensures
        ordered(graph, files) == Some(files),
    decreases files.len(),
{
    if files.len() > 0 {
        assert(is_free(graph, files, 0));
        let less = files.remove(0);
        assert forall|i: int, j: int| 0 <= i < less.len() && 0 <= j < less.len() implies
            !graph.is_dependent(#[trigger] less[i], #[trigger] less[j]) by {
            assert(less[i] == files[i + 1]);
            assert(less[j] == files[j + 1]);
        }
        lemma_ordered_keeps_order(graph, less);
        assert(seq![files[0]] + less =~= files);
    } else {
        assert(files =~= Seq::empty());
    }
}

/// Files of which two depend on each other have no order.
pub proof fn lemma_cycle_has_no_order(graph: Graph, files: Seq<Seq<char>>, x: int, y: int)
    requires
        0 <= x < files.len(),
        0 <= y < files.len(),
        graph.is_dependent(files[x], files[y]),
        graph.is_dependent(files[y], files[x]),
    ensures
        ordered(graph, files) is None,
    decreases files.len(),
{
    let i = first_free(graph, files, 0);
    lemma_first_free_is_free(graph, files, 0);
    if i < files.len() {
        assert(i != x && i != y);
        let less = files.remove(i);
        let nx = if x < i {
            x
        } else {
            x - 1
        };
        let ny = if y < i {
            y
        } else {
            y - 1
        };
        assert(less[nx] == files[x]);
        assert(less[ny] == files[y]);
        lemma_cycle_has_no_order(graph, less, nx, ny);
    }
}

/// Of files of which no two depend on each other, one depends on none.
proof fn lemma_some_file_is_free(graph: Graph, files: Seq<Seq<char>>)
    requires
        files.len() > 0,
        !has_cycle(graph, files),
    ensures
        exists|i: int| 0 <= i < files.len() && is_free(graph, files, i),
    decreases files.len(),
{
    let z = files.len() - 1;
    if files.len() == 1 {
        assert(is_free(graph, files, 0));
    } else {
        let rest = files.drop_last();
        assert(!has_cycle(graph, rest)) by {
            if has_cycle(graph, rest) {
                let (x, y) = choose|x: int, y: int|
                    0 <= x < rest.len() && 0 <= y < rest.len() && graph.is_dependent(
                        #[trigger] rest[x],
                        #[trigger] rest[y],
                    ) && graph.is_dependent(rest[y], rest[x]);
                assert(files[x] == rest[x] && files[y] == rest[y]);
            }
        }
        lemma_some_file_is_free(graph, rest);
        let f = choose|i: int| 0 <= i < rest.len() && is_free(graph, rest, i);
        assert(files[f] == rest[f]);
        if graph.is_dependent(files[f], files[z]) {
            assert forall|j: int| 0 <= j < files.len() implies !graph.is_dependent(
                files[z],
                #[trigger] files[j],
            ) by {
                if graph.is_dependent(files[z], files[j]) {
                    assert(j != z);
                    assert(files[j] == rest[j]);
                    if files[j] != files[f] {
                        graph.lemma_reaches_transitive(files[j], files[z], files[f]);
                        assert(graph.is_dependent(rest[f], rest[j]));
                    }
                }
            }
            assert(is_free(graph, files, z));
        } else {
            assert forall|j: int| 0 <= j < files.len() implies !graph.is_dependent(
                files[f],
                #[trigger] files[j],
            ) by {
                if j < z {
                    assert(files[j] == rest[j]);
                }
            }
            assert(is_free(graph, files, f));
        }
    }
}

/// Files that have no order hold two that depend on each other.
pub proof fn lemma_no_order_has_cycle(graph: Graph, files: Seq<Seq<char>>)
    requires
        ordered(graph, files) is None,
    ensures
        has_cycle(graph, files),
    decreases files.len(),
{
    let i = first_free(graph, files, 0);
    lemma_first_free_is_free(graph, files, 0);
    if i < files.len() {
        let less = files.remove(i);
        lemma_no_order_has_cycle(graph, less);
        let (x, y) = choose|x: int, y: int|
            0 <= x < less.len() && 0 <= y < less.len() && graph.is_dependent(
                #[trigger] less[x],
                #[trigger] less[y],
            ) && graph.is_dependent(less[y], less[x]);
        let fx = if x < i {
            x
        } else {
            x + 1
        };
        let fy = if y < i {
            y
        } else {
            y + 1
        };
        assert(files[fx] == less[x] && files[fy] == less[y]);
    } else if !has_cycle(graph, files) {
        lemma_some_file_is_free(graph, files);
    }
}

/// Files have an order unless two of them depend on each other.
pub proof fn lemma_order_exists_unless_cycle(graph: Graph, files: Seq<Seq<char>>)
    ensures
        ordered(graph, files) is None <==> has_cycle(graph, files),
{
    if ordered(graph, files) is None {
        lemma_no_order_has_cycle(graph, files);
    }
    if has_cycle(graph, files) {
        let (x, y) = choose|x: int, y: int|
            0 <= x < files.len() && 0 <= y < files.len() && graph.is_dependent(
                #[trigger] files[x],
                #[trigger] files[y],
            ) && graph.is_dependent(files[y], files[x]);
        lemma_cycle_has_no_order(graph, files, x, y);
    }
}

/// Puts `files` in the order in which they are compiled: each file behind
/// the files among them that it depends on, and files that do not depend
/// on each other in the order they were given in. Where files depend on
/// each other in a circle, `files` stay as they are and the error says so.
pub fn sort_dependencies(files: &mut Vec<String>, deps: &Dependencies) -> (result: Result<
    (),
    Error,
>)
    requires
        deps.wf(),
    ensures
        match result {
            Ok(_) => {
                &&& !has_cycle(deps@, texts(old(files)@))
                &&& ordered(deps@, texts(old(files)@)) == Some(texts(final(files)@))
                &&& texts(final(files)@).to_multiset() == texts(old(files)@).to_multiset()
                &&& forall|a: int, b: int|
                    0 <= a < b < final(files).len() ==> !deps@.is_dependent(
                        #[trigger] final(files)[a]@,
                        #[trigger] final(files)[b]@,
                    )
            },
            Err(Error::Cycle) => has_cycle(deps@, texts(old(files)@)) && final(files)@ == old(
                files,
            )@,
            Err(_) => false,
        },
{
    let n = files.len();
    let table = deps.dependents_among(files);
    let ghost given = texts(files@);
    let mut left: Vec<usize> = Vec::new();
    while left.len() < n
        invariant
            left.len() <= n,
            forall|k: int| 0 <= k < left.len() ==> left[k] == k,
        decreases n - left.len(),
    {
        left.push(left.len());
    }
    let mut sorted: Vec<String> = Vec::new();
    proof {
        assert(pick(given, left@) =~= given);
        assert(texts(sorted@) + given =~= given);
    }
    while left.len() > 0
        invariant
            n == files.len(),
            given == texts(files@),
            table.len() == n,
            forall|d: int| 0 <= d < n ==> (#[trigger] table[d]).len() == n,
            forall|d: int, p: int|
                0 <= d < n && 0 <= p < n ==> #[trigger] table[d][p] == deps@.is_dependent(
                    files[p]@,
                    files[d]@,
                ),
            forall|k: int| 0 <= k < left.len() ==> #[trigger] left[k] < n,
            match ordered(deps@, pick(given, left@)) {
                Some(rest) => ordered(deps@, given) == Some(texts(sorted@) + rest),
                None => ordered(deps@, given) is None,
            },
        decreases left.len(),
    {
        let ghost now = pick(given, left@);
        let mut r: usize = 0;
        let mut found = false;
        while r < left.len() && !found
            invariant
                n == files.len(),
                given == texts(files@),
                now == pick(given, left@),
                table.len() == n,
                forall|d: int| 0 <= d < n ==> (#[trigger] table[d]).len() == n,
                forall|d: int, p: int|
                    0 <= d < n && 0 <= p < n ==> #[trigger] table[d][p] == deps@.is_dependent(
                        files[p]@,
                        files[d]@,
                    ),
                forall|k: int| 0 <= k < left.len() ==> #[trigger] left[k] < n,
                r <= left.len(),
                found ==> r < left.len() && is_free(deps@, now, r as int),
                forall|k: int| 0 <= k < r ==> !is_free(deps@, now, k),
            decreases left.len() - r, pending(!found),
        {
            let mut s: usize = 0;
            let mut free = true;
            while s < left.len() && free
                invariant
                    n == files.len(),
                    given == texts(files@),
                    now == pick(given, left@),
                    table.len() == n,
                    forall|d: int| 0 <= d < n ==> (#[trigger] table[d]).len() == n,
                    forall|d: int, p: int|
                        0 <= d < n && 0 <= p < n ==> #[trigger] table[d][p] == deps@.is_dependent(
                            files[p]@,
                            files[d]@,
                        ),
                    forall|k: int| 0 <= k < left.len() ==> #[trigger] left[k] < n,
                    r < left.len(),
                    s <= left.len(),
                    free ==> forall|j: int|
                        0 <= j < s ==> !deps@.is_dependent(now[r as int], #[trigger] now[j]),
                    !free ==> !is_free(deps@, now, r as int),
                decreases left.len() - s, pending(free),
            {
                if table[left[s]][left[r]] {
                    free = false;
                    assert(deps@.is_dependent(now[r as int], now[s as int]));
                } else {
                    s += 1;
                }
            }
            if free {
                found = true;
            } else {
                r += 1;
            }
        }
        proof {
            lemma_first_free(deps@, now, 0, r as int);
        }
        if !found {
            proof {
                lemma_order_exists_unless_cycle(deps@, given);
            }
            return Err(Error::Cycle);
        }
        let k = left.remove(r);
        let ghost earlier = texts(sorted@);
        sorted.push(files[k].clone());
        proof {
            assert(pick(given, left@) =~= now.remove(r as int));
            assert(texts(sorted@) =~= earlier.push(now[r as int]));
            match ordered(deps@, now.remove(r as int)) {
                Some(rest) => {
                    assert(texts(sorted@) + rest =~= earlier + (seq![now[r as int]] + rest));
                },
                None => {},
            }
        }
    }
    proof {
        assert(pick(given, left@) =~= Seq::<Seq<char>>::empty());
        assert(texts(sorted@) + Seq::<Seq<char>>::empty() =~= texts(sorted@));
    }
    proof {
        lemma_order_exists_unless_cycle(deps@, given);
        lemma_ordered_is_permutation(deps@, given);
        assert forall|a: int, b: int| 0 <= a < b < sorted.len() implies !deps@.is_dependent(
            #[trigger] sorted[a]@,
            #[trigger] sorted[b]@,
        ) by {
            lemma_ordered_respects(deps@, given, a, b);
            assert(texts(sorted@)[a] == sorted[a]@);
            assert(texts(sorted@)[b] == sorted[b]@);
        }
    }
    *files = sorted;
    Ok(())
}

/// The arguments of the compiler's call for `directory` in the project at
/// `root`.
///
/// Unless the directory is the root, they first bind the directory itself to
/// its logical name. Then they bind each of `directories` to its logical
/// name. The files come last.
pub open spec fn compiler_arguments(
    root: Seq<char>,
    directory: Seq<char>,
    directories: Seq<Seq<char>>,
    files: Seq<Seq<char>>,
) -> Seq<Seq<char>> {
    (if directory != root {
        seq![recursive_flag(), directory, logical_name(root, directory)]
    } else {
        Seq::<Seq<char>>::empty()
    }) + mappings(root, directories) + files
}

/// The compiler's call for the directory at `place` of `tree`: it binds the
/// directories before it in the tree, which are compiled by then, and
/// names the files of the directory in the order in which they are
/// compiled. `None` where they have no such order.
pub open spec fn compiler_call(
    root: Seq<char>,
    tree: Seq<(Seq<char>, Seq<Seq<char>>)>,
    graph: Graph,
    place: int,
) -> Option<(Seq<char>, Seq<Seq<char>>)> {
    match ordered(graph, sources(tree, tree[place].1)) {
        Some(files) => Some(
            (compiler(), compiler_arguments(root, tree[place].0, keys(tree).take(place), files)),
        ),
        None => None,
    }
}

/// The compiler's call for a directory of a rooted tree binds each
/// directory among the children of that directory to its logical name: the
/// flag, the child's path and its name stand side by side among the
/// arguments.
pub proof fn lemma_call_binds_subdirectories(
    root: Seq<char>,
    tree: Seq<(Seq<char>, Seq<Seq<char>>)>,
    graph: Graph,
    place: int,
    k: int,
)
    requires
        is_rooted_at(tree, root),
        0 <= place < tree.len(),
        0 <= k < subdirectories(tree, tree[place].1).len(),
        compiler_call(root, tree, graph, place) is Some,
    ensures
        exists|at: int|
            0 <= at && at + 2 < compiler_call(root, tree, graph, place).unwrap().1.len() && (
            #[trigger] compiler_call(root, tree, graph, place).unwrap().1[at]) == recursive_flag()
                && compiler_call(root, tree, graph, place).unwrap().1[at + 1] == subdirectories(
                tree,
                tree[place].1,
            )[k] && compiler_call(root, tree, graph, place).unwrap().1[at + 2] == logical_name(
                root,
                subdirectories(tree, tree[place].1)[k],
            ),
{
    let child = subdirectories(tree, tree[place].1)[k];
    let bound = keys(tree).take(place);
    let arguments = compiler_call(root, tree, graph, place).unwrap().1;
    lemma_subdirectories_stand_before(tree, root, place, k);
    let j = choose|j: int| 0 <= j < bound.len() && bound[j] == child;
    lemma_mappings_bind(root, bound, j);
    let own: Seq<Seq<char>> = if tree[place].0 != root {
        seq![recursive_flag(), tree[place].0, logical_name(root, tree[place].0)]
    } else {
        Seq::empty()
    };
    let at = own.len() + 3 * j;
    let all = mappings(root, bound);
    assert(arguments[at] == all[3 * j]);
    assert(arguments[at + 1] == all[3 * j + 1]);
    assert(arguments[at + 2] == all[3 * j + 2]);
}

/// A build under way.
#[derive(Debug)]
pub enum Build {
    /// The dependencies are being extracted.
    Analyzing(Extraction),
    /// The compiler was called for the directory at this place of the
    /// project's tree; the graph holds the dependencies of the project.
    Compiling(usize, Dependencies),
}

impl Build {
    /// Whether a call is under way for a directory of `package`, and the
    /// graph is sound.
    pub open spec fn wf(&self, package: &Package) -> bool {
        match self {
            Build::Analyzing(state) => state.graph.wf() && state.place < package.filetree@.len(),
            Build::Compiling(place, graph) => graph.wf() && place < package.filetree@.len(),
        }
    }
}

/// Whether `result` begins the compilation of `package` with the
/// dependencies `graph`, or goes on with it at the directory at `place`.
pub open spec fn is_compilation_at(
    package: &Package,
    graph: Dependencies,
    place: int,
    result: Result<(Build, Action), Error>,
) -> bool {
    match result {
        Ok((Build::Compiling(at, held), Action::Invoke(call))) => {
            &&& at == place
            &&& held == graph
            &&& Some(call@) == compiler_call(package.root@, package.filetree@, graph@, place)
        },
        Err(Error::Cycle) => compiler_call(package.root@, package.filetree@, graph@, place)
            is None,
        _ => false,
    }
}

/// Whether `result` is what the build `build` comes to when the tool that
/// was called leaves `output` behind.
///
/// While the dependencies are extracted, the step is that of the
/// extraction; when that is done, the compiler is called for the first
/// directory of the tree. A compiler that ends with an exit code other than
/// 0 ends the build. Else the compiler is called for the next directory of
/// the tree, and behind the last, which is the root, the build is done. A
/// directory whose files depend on each other in a circle ends the build
/// before the compiler is called for it.
pub open spec fn is_build_step(
    package: &Package,
    build: Build,
    output: &Output,
    result: Result<(Build, Action), Error>,
) -> bool {
    match build {
        Build::Analyzing(state) => {
            ||| exists|next: Extraction, call: Invocation|
                #![auto]
                is_extraction_step(package, state, output, Ok((next, Action::Invoke(call))))
                    && result == Ok::<(Build, Action), Error>(
                    (Build::Analyzing(next), Action::Invoke(call)),
                )
            ||| exists|next: Extraction|
                #![auto]
                is_extraction_step(package, state, output, Ok((next, Action::Finish)))
                    && is_compilation_at(package, next.graph, 0, result)
            ||| result is Err && is_extraction_step(
                package,
                state,
                output,
                Err(result->Err_0),
            )
        },
        Build::Compiling(place, graph) => {
            if !output.success {
                match result {
                    Err(Error::CompilerFailed(stdout, stderr)) => stdout@ == output.stdout@
                        && stderr@ == output.stderr@,
                    _ => false,
                }
            } else if place + 1 < package.filetree@.len() {
                is_compilation_at(package, graph, place + 1, result)
            } else {
                match result {
                    Ok((Build::Compiling(at, held), Action::Finish)) => at == place + 1 && held
                        == graph,
                    _ => false,
                }
            }
        },
    }
}

/// The compiler of a project.
#[derive(Debug)]
pub struct Coqc<'p> {
    /// The project.
    pub package: &'p Package,
}

impl<'p> Coqc<'p> {
    /// The call of the compiler for `directory`, with `directories` bound
    /// to their logical names and `files` to compile, in their order.
    pub fn invoke(
        package: &Package,
        directory: &str,
        directories: &Vec<String>,
        files: &Vec<String>,
    ) -> (call: Invocation)
        requires
            is_under(package.root@, directory@),
            forall|i: int|
                0 <= i < directories.len() ==> is_under(package.root@, #[trigger] directories[i]@),
        ensures
            call@ == (
                compiler(),
                compiler_arguments(
                    package.root@,
                    directory@,
                    texts(directories@),
                    texts(files@),
                ),
            ),
    {
        let mut arguments: Vec<String> = Vec::new();
        let target = directory.to_owned();
        if !(target == package.root) {
            let name = to_logical_path(package.root.as_str(), directory);
            arguments.push(recursive());
            arguments.push(target);
            arguments.push(name);
            assert(texts(arguments@) =~= seq![
                recursive_flag(),
                directory@,
                logical_name(package.root@, directory@),
            ]);
        } else {
            assert(texts(arguments@) =~= Seq::<Seq<char>>::empty());
        }
        push_mappings(&mut arguments, package.root.as_str(), directories);
        push_files(&mut arguments, files);
        proof {
            reveal_strlit("coqc");
        }
        let program = "coqc".to_owned();
        assert(program@ =~= compiler());
        Invocation { program, arguments }
    }

    /// The call of the compiler for the directory at `place` of the
    /// project's tree, or the error that its files have no order.
    pub fn plan(package: &Package, graph: Dependencies, place: usize) -> (result: Result<
        (Build, Action),
        Error,
    >)
        requires
            package.wf(),
            graph.wf(),
            place < package.filetree@.len(),
        ensures
            is_compilation_at(package, graph, place as int, result),
    {
        let ghost tree = package.filetree@;
        let (_, mut files) = package.filetree.split(place);
        proof {
            lemma_order_exists_unless_cycle(graph@, texts(files@));
        }
        match sort_dependencies(&mut files, &graph) {
            Ok(_) => {},
            Err(e) => {
                return Err(e);
            },
        }
        let mut directories: Vec<String> = Vec::new();
        let mut i: usize = 0;
        assert(texts(directories@) =~= keys(tree).take(0));
        while i < place
            invariant
                i <= place < package.filetree.directories.len(),
                tree == package.filetree@,
                texts(directories@) == keys(tree).take(i as int),
            decreases place - i,
        {
            let ghost before = directories@;
            directories.push(package.filetree.directories[i].0.clone());
            assert(texts(directories@) =~= texts(before).push(tree[i as int].0));
            assert(texts(directories@) =~= keys(tree).take(i + 1));
            i += 1;
        }
        proof {
            assert forall|k: int| 0 <= k < directories.len() implies is_under(
                package.root@,
                #[trigger] directories[k]@,
            ) by {
                assert(texts(directories@)[k] == keys(tree)[k]);
                assert(is_under(package.root@, tree[k].0));
            }
            assert(is_under(package.root@, tree[place as int].0));
        }
        let call = Coqc::invoke(
            package,
            package.filetree.directories[place].0.as_str(),
            &directories,
            &files,
        );
        Ok((Build::Compiling(place, graph), Action::Invoke(call)))
    }

    /// Begins the build: the dependencies are to be extracted, and the
    /// analyzer is to be called for the first directory of the tree.
    pub fn start(&self) -> (begun: (Build, Invocation))
        requires
            self.package.wf(),
        ensures
            begun.0.wf(self.package),
            begun.0 matches Build::Analyzing(state) && state.place == 0 && state.graph@
                == Graph::empty(),
            begun.1@ == (
                analyzer(),
                analyzer_arguments(self.package.root@, self.package.filetree@, 0),
            ),
    {
        let coqdep = CoqDep { package: self.package };
        let (state, call) = coqdep.start();
        (Build::Analyzing(state), call)
    }

    /// Takes what the tool that was called left behind, and says what to
    /// do next.
    ///
    /// First the analyzer is called for each directory of the tree, then
    /// the compiler, both in the order of the tree, bottom-up. The first
    /// failure ends the build: no call follows it.
    pub fn run(&self, build: Build, output: &Output) -> (result: Result<(Build, Action), Error>)
        requires
            self.package.wf(),
            build.wf(self.package),
        ensures
            is_build_step(self.package, build, output, result),
            result matches Ok((next, Action::Invoke(_))) ==> next.wf(self.package),
    {
        match build {
            Build::Analyzing(state) => {
                let coqdep = CoqDep { package: self.package };
                match coqdep.run(state, output) {
                    Err(e) => Err(e),
                    Ok((next, Action::Invoke(call))) => Ok(
                        (Build::Analyzing(next), Action::Invoke(call)),
                    ),
                    Ok((next, Action::Finish)) => Coqc::plan(self.package, next.graph, 0),
                }
            },
            Build::Compiling(place, graph) => {
                assert(self.package.filetree@.len() == self.package.filetree.directories.len());
                if !output.success {
                    Err(Error::CompilerFailed(output.stdout.clone(), output.stderr.clone()))
                } else if place + 1 < self.package.filetree.directories.len() {
                    Coqc::plan(self.package, graph, place + 1)
                } else {
                    Ok((Build::Compiling(place + 1, graph), Action::Finish))
                }
            },
        }
    }
}

} // verus!
