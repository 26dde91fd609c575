//! Which directories of a scanned tree are source directories.

use vstd::prelude::*;
use vstd::string::StringExecFns;
use crate::text::texts;

verus! {

/// A directory as a scan of the file system found it.
#[derive(Debug, PartialEq, Eq)]
pub struct Directory {
    pub path: String,
    /// Whether the directory holds a `.git` directory of its own.
    pub is_source: bool,
    /// The directories directly below this one, symbolic links left out, in
    /// the order in which they were listed.
    pub children: Vec<Directory>,
}

/// The source directories at and below `dir`: `dir` itself where it is one,
/// and otherwise those of its children, in order. Nothing below a source
/// directory is looked at.
pub open spec fn sources_at(dir: Directory) -> Seq<Seq<char>>
    decreases dir, 1nat,
{
    if dir.is_source {
        seq![dir.path@]
    } else {
        sources_below(dir.children@)
    }
}

/// The source directories at and below each of `dirs`, in order.
pub open spec fn sources_below(dirs: Seq<Directory>) -> Seq<Seq<char>>
    decreases dirs, 0nat,
{
    if dirs.len() == 0 {
        Seq::empty()
    } else {
        sources_below(dirs.drop_last()) + sources_at(dirs.last())
    }
}

/// Whether `dir` is a source directory.
pub fn is_source_dir(dir: &Directory) -> (r: bool)
    ensures
        r == dir.is_source,
{
    dir.is_source
}

/// Appends the source directories at and below `dir` to `repos`.
fn visit_dir(dir: &Directory, repos: &mut Vec<String>)
    ensures
        texts(final(repos)@) == texts(old(repos)@) + sources_at(*dir),
    decreases dir,
{
    if is_source_dir(dir) {
        repos.push(dir.path.clone());
        assert(texts(repos@) =~= texts(old(repos)@) + sources_at(*dir));
        return ;
    }
    let mut i: usize = 0;
    assert(dir.children@.take(0) =~= Seq::<Directory>::empty());
    assert(texts(repos@) =~= texts(old(repos)@) + sources_below(dir.children@.take(0)));
    while i < dir.children.len()
        invariant
            0 <= i <= dir.children@.len(),
            texts(repos@) == texts(old(repos)@) + sources_below(dir.children@.take(i as int)),
        decreases dir.children@.len() - i,
    {
        let ghost before = repos@;
        visit_dir(&dir.children[i], repos);
        proof {
            let next = dir.children@.take(i + 1);
            assert(next.drop_last() =~= dir.children@.take(i as int));
            assert(next.last() == dir.children@[i as int]);
            assert(texts(repos@) =~= texts(old(repos)@) + sources_below(next));
        }
        i = i + 1;
    }
    assert(dir.children@.take(i as int) =~= dir.children@);
}

/// The source directories of the tree under `root`, in the order of a walk
/// that goes depth first and takes the children of a directory in order.
pub fn get_source_directories(root: &Directory) -> (repos: Vec<String>)
    ensures
        texts(repos@) == sources_at(*root),
{
    let mut repos: Vec<String> = Vec::new();
    visit_dir(root, &mut repos);
    assert(texts(repos@) =~= sources_at(*root));
    repos
}

/// The line that stands for a directory in a list to choose from: the name
/// of the directory, a space, and its path. A path that has no name to show
/// gets no line.
pub fn format_path(file_name: Option<&str>, path: &str) -> (r: Option<String>)
    ensures
        match file_name {
            Some(base) => r matches Some(line) && line@ == base@ + " "@ + path@,
            None => r is None,
        },
{
    match file_name {
        Some(base) => {
            let mut line = String::from_str(base);
            line.append(" ");
            line.append(path);
            Some(line)
        },
        None => None,
    }
}

} // verus!
