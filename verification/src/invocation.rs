//! What the build asks of its tools, and what they answer.

use vstd::prelude::*;
use crate::text::{is_under, logical_name, texts, to_logical_path};

verus! {

/// A call of a tool: the program, and the arguments it is given.
#[derive(Debug)]
pub struct Invocation {
    /// The name of the program.
    pub program: String,
    /// The arguments, in their order.
    pub arguments: Vec<String>,
}

impl View for Invocation {
    type V = (Seq<char>, Seq<Seq<char>>);

    open spec fn view(&self) -> (Seq<char>, Seq<Seq<char>>) {
        (self.program@, texts(self.arguments@))
    }
}

/// What a call of a tool left behind.
#[derive(Debug)]
pub struct Output {
    /// Whether the tool ended with the exit code 0.
    pub success: bool,
    /// What it wrote to its standard output.
    pub stdout: String,
    /// What it wrote to its standard error.
    pub stderr: String,
}

/// What the build is to do next.
#[derive(Debug)]
pub enum Action {
    /// Make this call, wait for its end, and hand back what it left behind.
    Invoke(Invocation),
    /// Nothing: the build is done.
    Finish,
}

/// The name of the dependency analyzer.
pub open spec fn analyzer() -> Seq<char> {
    seq!['c', 'o', 'q', 'd', 'e', 'p']
}

/// The name of the compiler.
pub open spec fn compiler() -> Seq<char> {
    seq!['c', 'o', 'q', 'c']
}

/// The flag that binds a directory and what lies below it to a logical name.
pub open spec fn recursive_flag() -> Seq<char> {
    seq!['-', 'R']
}

/// The flag that binds a directory alone to a logical name.
pub open spec fn qualified_flag() -> Seq<char> {
    seq!['-', 'Q']
}

/// The arguments that bind each of `directories` to its logical name in the
/// project at `root`: for each the flag, its path and its name.
pub open spec fn mappings(root: Seq<char>, directories: Seq<Seq<char>>) -> Seq<Seq<char>>
    decreases directories.len(),
{
    if directories.len() == 0 {
        Seq::empty()
    } else {
        mappings(root, directories.drop_last()) + seq![
            recursive_flag(),
            directories.last(),
            logical_name(root, directories.last()),
        ]
    }
}

/// The arguments that bind directories are three for each, and those of the
/// directory at place `k` are the flag, its path and its logical name.
pub proof fn lemma_mappings_bind(root: Seq<char>, directories: Seq<Seq<char>>, k: int)
    requires
        0 <= k < directories.len(),
    ensures
        mappings(root, directories).len() == 3 * directories.len(),
        mappings(root, directories)[3 * k] == recursive_flag(),
        mappings(root, directories)[3 * k + 1] == directories[k],
        mappings(root, directories)[3 * k + 2] == logical_name(root, directories[k]),
    decreases directories.len(),
{
    let earlier = directories.drop_last();
    let last = seq![
        recursive_flag(),
        directories.last(),
        logical_name(root, directories.last()),
    ];
    if earlier.len() > 0 {
        lemma_mappings_bind(root, earlier, if k < earlier.len() {
            k
        } else {
            0
        });
    }
    assert(mappings(root, earlier).len() == 3 * earlier.len());
    if k < earlier.len() {
        assert(earlier[k] == directories[k]);
    } else {
        assert(mappings(root, directories)[3 * k] == last[0]);
        assert(mappings(root, directories)[3 * k + 1] == last[1]);
        assert(mappings(root, directories)[3 * k + 2] == last[2]);
    }
}

/// The string `-R`.
pub fn recursive() -> (flag: String)
    ensures
        flag@ == recursive_flag(),
{
    proof {
        reveal_strlit("-R");
    }
    let flag = "-R".to_owned();
    assert(flag@ =~= recursive_flag());
    flag
}

/// Adds to `arguments` those that bind each of `directories` to its logical
/// name in the project at `root`.
pub fn push_mappings(arguments: &mut Vec<String>, root: &str, directories: &Vec<String>)
    requires
        forall|i: int| 0 <= i < directories.len() ==> is_under(root@, #[trigger] directories[i]@),
    ensures
        texts(final(arguments)@) == texts(old(arguments)@) + mappings(
            root@,
            texts(directories@),
        ),
{
    let ghost before = texts(arguments@);
    let ghost all = texts(directories@);
    let mut i: usize = 0;
    assert(all.take(0) =~= Seq::<Seq<char>>::empty());
    assert(texts(arguments@) =~= before + mappings(root@, all.take(0)));
    while i < directories.len()
        invariant
            i <= directories.len(),
            all == texts(directories@),
            forall|i: int|
                0 <= i < directories.len() ==> is_under(root@, #[trigger] directories[i]@),
            texts(arguments@) == before + mappings(root@, all.take(i as int)),
        decreases directories.len() - i,
    {
        let ghost earlier = arguments@;
        let ghost directory = directories[i as int]@;
        let name = to_logical_path(root, directories[i].as_str());
        arguments.push(recursive());
        arguments.push(directories[i].clone());
        arguments.push(name);
        proof {
            assert(all.take(i + 1).drop_last() =~= all.take(i as int));
            assert(all.take(i + 1).last() == directory);
            assert(texts(arguments@) =~= texts(earlier) + seq![
                recursive_flag(),
                directory,
                logical_name(root@, directory),
            ]);
            assert(texts(arguments@) =~= before + mappings(root@, all.take(i + 1)));
        }
        i += 1;
    }
    assert(all.take(directories.len() as int) =~= all);
}

/// Adds `files` to `arguments`.
pub fn push_files(arguments: &mut Vec<String>, files: &Vec<String>)
    ensures
        texts(final(arguments)@) == texts(old(arguments)@) + texts(files@),
{
    let ghost before = texts(arguments@);
    let mut i: usize = 0;
    assert(texts(arguments@) =~= before + texts(files@).take(0));
    while i < files.len()
        invariant
            i <= files.len(),
            texts(arguments@) == before + texts(files@).take(i as int),
        decreases files.len() - i,
    {
        let ghost earlier = arguments@;
        arguments.push(files[i].clone());
        assert(texts(arguments@) =~= texts(earlier).push(files[i as int]@));
        assert(texts(arguments@) =~= before + texts(files@).take(i + 1));
        i += 1;
    }
    assert(texts(files@).take(files.len() as int) =~= texts(files@));
}

} // verus!
