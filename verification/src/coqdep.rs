//! The dependency analyzer: what its answers mean.

use vstd::prelude::*;
use crate::dependencies::{Dependencies, Graph};
use crate::error::Error;
use crate::invocation::{analyzer, mappings, push_files, push_mappings, qualified_flag};
use crate::invocation::{Action, Invocation, Output};
use crate::package::{has_directory, sources, subdirectories, directories_of, Package};
use crate::text::{canonical, chars_of, classify, is_under, kind_of, string_of, texts, Kind};
use crate::text::{leading, lemma_leading, trimmed, trimmed_len};

verus! {

/// Whether `c` parts two words of a line.
pub open spec fn is_blank(c: char) -> bool {
    c == ' ' || c == '\t' || c == '\n' || c == '\r' || c == '\x0c'
}

/// The lines of a text. A line ends at a line feed or at the end of the
/// text; what follows the last line feed is a line unless it is empty.
pub open spec fn lines(text: Seq<char>) -> Seq<Seq<char>>
    decreases text.len(),
{
    if text.len() == 0 {
        Seq::empty()
    } else {
        let n = leading(text, |c: char| c == '\n');
        if n >= text.len() {
            seq![text]
        } else {
            seq![text.take(n as int)] + lines(text.skip(n as int + 1))
        }
    }
}

/// The words of a line: its longest runs of characters that are not blank.
pub open spec fn words(s: Seq<char>) -> Seq<Seq<char>>
    decreases s.len(),
{
    if s.len() == 0 {
        Seq::empty()
    } else if is_blank(s[0]) {
        words(s.skip(1))
    } else {
        let n = leading(s, |c: char| is_blank(c));
        if n >= s.len() {
            seq![s]
        } else {
            seq![s.take(n as int)] + words(s.skip(n as int))
        }
    }
}

/// Where the colon of `line` stands, if it has exactly one.
pub open spec fn colon(line: Seq<char>) -> Option<int> {
    let k = leading(line, |c: char| c == ':');
    if k < line.len() && leading(line.skip(k as int + 1), |c: char| c == ':') == line.len() - k - 1 {
        Some(k as int)
    } else {
        None
    }
}

/// Whether `word` names a compilation unit: a source file or its object.
pub open spec fn is_unit(word: Seq<char>) -> bool {
    kind_of(word) == Kind::Source || kind_of(word) == Kind::Object
}

/// Whether one of `list` has no extension.
pub open spec fn has_plain(list: Seq<Seq<char>>) -> bool {
    exists|i: int| 0 <= i < list.len() && kind_of(#[trigger] list[i]) == Kind::Plain
}

/// The units among `list`, each named by its source file.
pub open spec fn select(list: Seq<Seq<char>>) -> Seq<Seq<char>> {
    list.filter(|word: Seq<char>| is_unit(word)).map_values(|word: Seq<char>| canonical(word))
}

/// What stands before the colon of `line`.
pub open spec fn left_of(line: Seq<char>) -> Seq<char>
    recommends
        colon(line) is Some,
{
    line.take(colon(line).unwrap())
}

/// What stands behind the colon of `line`.
pub open spec fn right_of(line: Seq<char>) -> Seq<char>
    recommends
        colon(line) is Some,
{
    line.skip(colon(line).unwrap() + 1)
}

/// Whether `line` cannot be read: it has no colon or more than one, or one
/// of its words has no extension.
pub open spec fn is_malformed(line: Seq<char>) -> bool {
    colon(line) is None || has_plain(words(left_of(line))) || has_plain(words(right_of(line)))
}

/// What `line` says: the products named before its colon, and the units
/// named behind it that each of them needs.
pub open spec fn rule_of(line: Seq<char>) -> (Seq<Seq<char>>, Seq<Seq<char>>) {
    (select(words(left_of(line))), select(words(right_of(line))))
}

/// What a text says: the rules of its lines, but for those without a product.
pub open spec fn rules_of(text: Seq<char>) -> Seq<(Seq<Seq<char>>, Seq<Seq<char>>)> {
    lines(text).map_values(|line: Seq<char>| rule_of(line)).filter(
        |rule: (Seq<Seq<char>>, Seq<Seq<char>>)| rule.0.len() > 0,
    )
}

/// Whether the line at place `k` of `text` is the first that cannot be read.
pub open spec fn is_first_malformed(text: Seq<char>, k: int) -> bool {
    &&& 0 <= k < lines(text).len()
    &&& is_malformed(lines(text)[k])
    &&& forall|j: int| 0 <= j < k ==> !is_malformed(#[trigger] lines(text)[j])
}

/// Whether every line of `text` can be read.
pub open spec fn is_well_formed(text: Seq<char>) -> bool {
    forall|k: int| 0 <= k < lines(text).len() ==> !is_malformed(#[trigger] lines(text)[k])
}

/// Rules as values.
pub open spec fn rules_view(rules: Seq<(Vec<String>, Vec<String>)>) -> Seq<
    (Seq<Seq<char>>, Seq<Seq<char>>),
> {
    rules.map_values(|rule: (Vec<String>, Vec<String>)| (texts(rule.0@), texts(rule.1@)))
}

/// Whether `c` parts two words of a line.
pub fn is_blank_char(c: char) -> (blank: bool)
    ensures
        blank == is_blank(c),
{
    c == ' ' || c == '\t' || c == '\n' || c == '\r' || c == '\x0c'
}

/// Where the colon of the line `text[from..to]` stands, if it has exactly one.
fn find_colon(text: &Vec<char>, from: usize, to: usize) -> (at: Option<usize>)
    requires
        from <= to <= text.len(),
    ensures
        match at {
            Some(k) => from <= k < to && colon(text@.subrange(from as int, to as int)) == Some(
                k - from,
            ),
            None => colon(text@.subrange(from as int, to as int)) is None,
        },
{
    let ghost line = text@.subrange(from as int, to as int);
    let mut k: usize = from;
    while k < to && text[k] != ':'
        invariant
            from <= k <= to <= text.len(),
            forall|j: int| from <= j < k ==> text[j] != ':',
        decreases to - k,
    {
        k += 1;
    }
    proof {
        assert forall|j: int| 0 <= j < k - from implies #[trigger] line[j] != ':' by {
            assert(line[j] == text[from + j]);
        }
        lemma_leading(line, |c: char| c == ':', k - from);
    }
    if k == to {
        return None;
    }
    let mut m: usize = k + 1;
    while m < to && text[m] != ':'
        invariant
            k < m <= to <= text.len(),
            forall|j: int| k < j < m ==> text[j] != ':',
        decreases to - m,
    {
        m += 1;
    }
    proof {
        let rest = line.skip(k - from + 1);
        assert forall|j: int| 0 <= j < m - k - 1 implies #[trigger] rest[j] != ':' by {
            assert(rest[j] == text[k + 1 + j]);
        }
        if m < to {
            assert(rest[m - k - 1] == text[m as int]);
        }
        lemma_leading(rest, |c: char| c == ':', m - k - 1);
    }
    if m == to {
        Some(k)
    } else {
        None
    }
}

/// The units named in `text[from..to]`, each by its source file; `None`
/// where a word there has no extension.
fn units_of(text: &Vec<char>, from: usize, to: usize) -> (units: Option<Vec<String>>)
    requires
        from <= to <= text.len(),
    ensures
        match units {
            Some(list) => !has_plain(words(text@.subrange(from as int, to as int))) && texts(list@)
                == select(words(text@.subrange(from as int, to as int))),
            None => has_plain(words(text@.subrange(from as int, to as int))),
        },
{
    let ghost side = text@.subrange(from as int, to as int);
    let ghost mut seen: Seq<Seq<char>> = Seq::empty();
    let mut list: Vec<String> = Vec::new();
    let mut i: usize = from;
    proof {
        assert(side.skip(0) =~= side);
        assert(seen + words(side) =~= words(side));
        assert(select(seen) =~= texts(list@)) by {
            reveal(Seq::filter);
        }
    }
    while i < to
        invariant
            from <= i <= to <= text.len(),
            side == text@.subrange(from as int, to as int),
            words(side) == seen + words(side.skip(i - from)),
            !has_plain(seen),
            texts(list@) == select(seen),
        decreases to - i,
    {
        let ghost rest = side.skip(i - from);
        assert(rest[0] == text[i as int]);
        if is_blank_char(text[i]) {
            assert(rest.skip(1) =~= side.skip(i + 1 - from));
            i += 1;
        } else {
            let mut word: Vec<char> = Vec::new();
            let mut j: usize = i;
            while j < to && !is_blank_char(text[j])
                invariant
                    i <= j <= to <= text.len(),
                    forall|m: int| i <= m < j ==> !is_blank(text[m]),
                    word@ == text@.subrange(i as int, j as int),
                decreases to - j,
            {
                word.push(text[j]);
                assert(word@ =~= text@.subrange(i as int, j + 1));
                j += 1;
            }
            let ghost name = word@;
            proof {
                assert forall|m: int| 0 <= m < j - i implies !is_blank(#[trigger] rest[m]) by {
                    assert(rest[m] == text[i + m]);
                }
                if j < to {
                    assert(rest[j - i] == text[j as int]);
                }
                lemma_leading(rest, |c: char| is_blank(c), j - i);
                assert(name =~= rest.take(j - i));
                assert(rest.skip(j - i) =~= side.skip(j - from));
                if j == to {
                    assert(rest.take(j - i) =~= rest);
                    assert(side.skip(j - from).len() == 0);
                    assert(words(side.skip(j - from)) =~= Seq::empty());
                }
                assert(words(rest) =~= seq![name] + words(side.skip(j - from)));
                assert(words(side) =~= seen.push(name) + words(side.skip(j - from)));
                seen.lemma_filter_push(name, |word: Seq<char>| is_unit(word));
            }
            match classify(&word) {
                Kind::Plain => {
                    proof {
                        assert(words(side)[seen.len() as int] == name);
                    }
                    return None;
                },
                Kind::Source => {
                    let ghost before = list@;
                    let end = trimmed_len(&word);
                    word.truncate(end);
                    list.push(string_of(&word));
                    proof {
                        let kept = seen.filter(|word: Seq<char>| is_unit(word));
                        assert(word@ =~= trimmed(name));
                        assert(texts(list@) =~= texts(before).push(trimmed(name)));
                        assert(kept.push(name).map_values(|word: Seq<char>| canonical(word))
                            =~= kept.map_values(|word: Seq<char>| canonical(word)).push(
                            trimmed(name),
                        ));
                    }
                },
                Kind::Object => {
                    let ghost before = list@;
                    let end = trimmed_len(&word);
                    word.truncate(end - 1);
                    list.push(string_of(&word));
                    proof {
                        let kept = seen.filter(|word: Seq<char>| is_unit(word));
                        assert(word@ =~= trimmed(name).drop_last());
                        assert(texts(list@) =~= texts(before).push(trimmed(name).drop_last()));
                        assert(kept.push(name).map_values(|word: Seq<char>| canonical(word))
                            =~= kept.map_values(|word: Seq<char>| canonical(word)).push(
                            trimmed(name).drop_last(),
                        ));
                    }
                },
                Kind::Foreign => {
                    assert(texts(list@) =~= select(seen.push(name)));
                },
            }
            proof {
                assert(!has_plain(seen.push(name))) by {
                    if has_plain(seen.push(name)) {
                        let m = choose|m: int|
                            0 <= m < seen.push(name).len() && kind_of(#[trigger] seen.push(name)[m])
                                == Kind::Plain;
                        if m < seen.len() {
                            assert(seen[m] == seen.push(name)[m]);
                        }
                    }
                }
                seen = seen.push(name);
            }
            i = j;
        }
    }
    proof {
        assert(side.skip(i - from).len() == 0);
        assert(words(side.skip(i - from)) =~= Seq::empty());
        assert(words(side) =~= seen);
    }
    Some(list)
}

/// The arguments of the analyzer's call for the directory at `place` of
/// `tree`, in the project at `root`.
///
/// Unless the directory is the root, they first bind the directory itself to
/// the empty name. Then they bind each directory among its children to its
/// logical name. The files among its children come last.
pub open spec fn analyzer_arguments(
    root: Seq<char>,
    tree: Seq<(Seq<char>, Seq<Seq<char>>)>,
    place: int,
) -> Seq<Seq<char>> {
    let directory = tree[place].0;
    let children = tree[place].1;
    (if directory != root {
        seq![qualified_flag(), directory, Seq::<char>::empty()]
    } else {
        Seq::<Seq<char>>::empty()
    }) + mappings(root, subdirectories(tree, children)) + sources(tree, children)
}

/// An extraction under way: the analyzer was called for the directory at
/// `place` of the project's tree, and `graph` holds what it answered for the
/// directories before that one.
#[derive(Debug)]
pub struct Extraction {
    /// The place of the directory that the analyzer was called for.
    pub place: usize,
    /// The graph of the answers taken so far.
    pub graph: Dependencies,
}

/// Whether `result` is what the extraction `state` comes to when the
/// analyzer leaves `output` behind.
///
/// An exit code other than 0 ends the extraction, and so does an answer
/// that cannot be read. Else the rules of the answer join the graph, and the
/// analyzer is called for the next directory of the tree; behind the last
/// directory, which is the root, the extraction is done.
pub open spec fn is_extraction_step(
    package: &Package,
    state: Extraction,
    output: &Output,
    result: Result<(Extraction, Action), Error>,
) -> bool {
    match result {
        Ok((next, action)) => {
            &&& output.success
            &&& is_well_formed(output.stdout@)
            &&& next.graph.wf()
            &&& next.graph@ == state.graph@.record_rules(rules_of(output.stdout@))
            &&& next.place == state.place + 1
            &&& match action {
                Action::Invoke(call) => next.place < package.filetree@.len() && call@ == (
                    analyzer(),
                    analyzer_arguments(package.root@, package.filetree@, next.place as int),
                ),
                Action::Finish => next.place == package.filetree@.len(),
            }
        },
        Err(Error::AnalyzerFailed(stdout, stderr)) => {
            &&& !output.success
            &&& stdout@ == output.stdout@
            &&& stderr@ == output.stderr@
        },
        Err(Error::MalformedLine(k)) => output.success && is_first_malformed(
            output.stdout@,
            k as int,
        ),
        Err(_) => false,
    }
}

/// The dependency analyzer of a project.
#[derive(Debug)]
pub struct CoqDep<'p> {
    /// The project.
    pub package: &'p Package,
}

impl<'p> CoqDep<'p> {
    /// The call of the analyzer for the directory at `place` of the
    /// project's tree.
    pub fn invoke(package: &Package, place: usize) -> (call: Invocation)
        requires
            package.wf(),
            place < package.filetree@.len(),
        ensures
            call@ == (analyzer(), analyzer_arguments(package.root@, package.filetree@, place as int)),
    {
        let ghost tree = package.filetree@;
        let ghost children = tree[place as int].1;
        let (directories, files) = package.filetree.split(place);
        let mut arguments: Vec<String> = Vec::new();
        if !(package.filetree.directories[place].0 == package.root) {
            proof {
                reveal_strlit("-Q");
                reveal_strlit("");
            }
            arguments.push("-Q".to_owned());
            arguments.push(package.filetree.directories[place].0.clone());
            arguments.push("".to_owned());
            assert("-Q"@ =~= qualified_flag());
            assert(""@ =~= Seq::<char>::empty());
            assert(texts(arguments@) =~= seq![
                qualified_flag(),
                tree[place as int].0,
                Seq::<char>::empty(),
            ]);
        } else {
            assert(texts(arguments@) =~= Seq::<Seq<char>>::empty());
        }
        proof {
            assert forall|i: int| 0 <= i < directories.len() implies is_under(
                package.root@,
                #[trigger] directories[i]@,
            ) by {
                children.lemma_filter_pred(directories_of(tree), i);
                let list = subdirectories(tree, children);
                assert(list[i] == directories[i]@);
                assert(directories_of(tree)(list[i]));
                let k = choose|k: int| 0 <= k < tree.len() && (#[trigger] tree[k]).0 == list[i];
                assert(is_under(package.root@, tree[k].0));
            }
        }
        push_mappings(&mut arguments, package.root.as_str(), &directories);
        push_files(&mut arguments, &files);
        proof {
            reveal_strlit("coqdep");
        }
        let program = "coqdep".to_owned();
        assert(program@ =~= analyzer());
        Invocation { program, arguments }
    }

    /// Begins the extraction: the graph is empty, and the analyzer is to be
    /// called for the first directory of the tree.
    pub fn start(&self) -> (begun: (Extraction, Invocation))
        requires
            self.package.wf(),
        ensures
            begun.0.place == 0,
            begun.0.graph.wf(),
            begun.0.graph@ == Graph::empty(),
            begun.1@ == (
                analyzer(),
                analyzer_arguments(self.package.root@, self.package.filetree@, 0),
            ),
    {
        let call = CoqDep::invoke(self.package, 0);
        (Extraction { place: 0, graph: Dependencies::empty() }, call)
    }

    /// Takes what the analyzer left behind for the directory it was called
    /// for, and says what to do next.
    ///
    /// The directories are analyzed in the order of the tree, bottom-up:
    /// each behind the directories below it, the root last.
    pub fn run(&self, state: Extraction, output: &Output) -> (result: Result<
        (Extraction, Action),
        Error,
    >)
        requires
            self.package.wf(),
            state.graph.wf(),
            state.place < self.package.filetree@.len(),
        ensures
            is_extraction_step(self.package, state, output, result),
    {
        if !output.success {
            return Err(Error::AnalyzerFailed(output.stdout.clone(), output.stderr.clone()));
        }
        let rules = match CoqDep::parse_output(output.stdout.as_str()) {
            Ok(rules) => rules,
            Err(e) => {
                return Err(e);
            },
        };
        let mut graph = state.graph;
        graph.merge(&rules);
        assert(self.package.filetree@.len() == self.package.filetree.directories.len());
        let place = state.place + 1;
        if place < self.package.filetree.directories.len() {
            let call = CoqDep::invoke(self.package, place);
            Ok((Extraction { place, graph }, Action::Invoke(call)))
        } else {
            Ok((Extraction { place, graph }, Action::Finish))
        }
    }

    /// Reads the analyzer's answer.
    ///
    /// Each line is `products : dependencies`, two lists of paths parted by
    /// blanks. Of both lists only the source files and objects count, each
    /// named by its source file; a line that names no product says nothing. The
    /// rules come in the order of their lines.
    ///
    /// The answer is refused as a whole where one of its lines has not exactly
    /// one colon or names a file without an extension; the error names the
    /// first such line.
    pub fn parse_output(output: &str) -> (result: Result<Vec<(Vec<String>, Vec<String>)>, Error>)
        ensures
            match result {
                Ok(rules) => is_well_formed(output@) && rules_view(rules@) == rules_of(output@),
                Err(Error::MalformedLine(k)) => is_first_malformed(output@, k as int),
                Err(_) => false,
            },
    {
        let text = chars_of(output);
        let ghost all = lines(text@);
        let ghost keep = |rule: (Seq<Seq<char>>, Seq<Seq<char>>)| rule.0.len() > 0;
        let ghost read = |line: Seq<char>| rule_of(line);
        let mut rules: Vec<(Vec<String>, Vec<String>)> = Vec::new();
        let mut i: usize = 0;
        let mut number: usize = 0;
        proof {
            assert(text@.skip(0) =~= text@);
            assert(all.take(0) + all =~= all);
            assert(all.take(0).map_values(read).filter(keep) =~= rules_view(rules@)) by {
                reveal(Seq::filter);
            }
        }
        while i < text.len()
            invariant
                i <= text.len(),
                text@ == output@,
                all == lines(text@),
                keep == |rule: (Seq<Seq<char>>, Seq<Seq<char>>)| rule.0.len() > 0,
                read == |line: Seq<char>| rule_of(line),
                number <= i,
                number <= all.len(),
                all == all.take(number as int) + lines(text@.skip(i as int)),
                forall|k: int| 0 <= k < number ==> !is_malformed(#[trigger] all[k]),
                rules_view(rules@) == all.take(number as int).map_values(read).filter(keep),
            decreases text.len() - i,
        {
            let ghost rest = text@.skip(i as int);
            let mut j: usize = i;
            while j < text.len() && text[j] != '\n'
                invariant
                    i <= j <= text.len(),
                    forall|m: int| i <= m < j ==> text[m] != '\n',
                decreases text.len() - j,
            {
                j += 1;
            }
            let ghost line = text@.subrange(i as int, j as int);
            let next = if j < text.len() {
                j + 1
            } else {
                j
            };
            proof {
                assert forall|m: int| 0 <= m < j - i implies #[trigger] rest[m] != '\n' by {
                    assert(rest[m] == text[i + m]);
                }
                if j < text.len() {
                    assert(rest[j - i] == text[j as int]);
                }
                lemma_leading(rest, |c: char| c == '\n', j - i);
                assert(line =~= rest.take(j - i));
                if j < text.len() {
                    assert(rest.skip(j - i + 1) =~= text@.skip(next as int));
                } else {
                    assert(rest.take(j - i) =~= rest);
                    assert(text@.skip(next as int).len() == 0);
                    assert(lines(text@.skip(next as int)) =~= Seq::empty());
                }
                assert(lines(rest) =~= seq![line] + lines(text@.skip(next as int)));
                assert(all[number as int] == line);
                assert(all.take(number + 1) =~= all.take(number as int).push(line));
                assert(all =~= all.take(number + 1) + lines(text@.skip(next as int)));
            }
            let ghost k = colon(line);
            match find_colon(&text, i, j) {
                None => {
                    return Err(Error::MalformedLine(number));
                },
                Some(at) => {
                    proof {
                        assert(left_of(line) =~= text@.subrange(i as int, at as int));
                        assert(right_of(line) =~= text@.subrange(at + 1, j as int));
                    }
                    let products = match units_of(&text, i, at) {
                        None => {
                            return Err(Error::MalformedLine(number));
                        },
                        Some(list) => list,
                    };
                    let needs = match units_of(&text, at + 1, j) {
                        None => {
                            return Err(Error::MalformedLine(number));
                        },
                        Some(list) => list,
                    };
                    proof {
                        let earlier = all.take(number as int);
                        assert(earlier.push(line).map_values(read) =~= earlier.map_values(read).push(
                            rule_of(line),
                        ));
                        earlier.map_values(read).lemma_filter_push(rule_of(line), keep);
                    }
                    if products.len() > 0 {
                        rules.push((products, needs));
                        assert(rules_view(rules@) =~= all.take(number + 1).map_values(read).filter(keep));
                    }
                },
            }
            number += 1;
            i = next;
        }
        proof {
            assert(text@.skip(i as int).len() == 0);
            assert(lines(text@.skip(i as int)) =~= Seq::empty());
            assert(all.take(number as int) =~= all);
        }
        Ok(rules)
    }
}

} // verus!
