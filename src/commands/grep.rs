//! The report of the lines where patterns were found, grouped by directory and file.
use vstd::prelude::*;
use crate::commands::pattern_search::{PatternTree, selected_offsets, string_texts};
use crate::commands::boyer_moore::offsets;

verus! {

/// The lines found, by directory.
#[derive(Debug)]
pub struct GrepReport {
    pub directories: Vec<Directory>,
}

/// The files of one directory with lines found.
#[derive(Debug)]
pub struct Directory {
    pub name: String,
    pub files: Vec<GrepFile>,
}

/// The lines found in one file.
#[derive(Debug)]
pub struct GrepFile {
    pub name: String,
    pub items: Vec<GrepLine>,
}

/// One line found: its number from 1, its text, and where the patterns start in it.
#[derive(Debug)]
pub struct GrepLine {
    pub line: usize,
    pub content: String,
    pub position: Vec<usize>,
}

pub type LineView = (usize, Seq<char>, Seq<usize>);

pub type FileView = (Seq<char>, Seq<LineView>);

pub type DirectoryView = (Seq<char>, Seq<FileView>);

pub open spec fn line_view(l: GrepLine) -> LineView {
    (l.line, l.content@, l.position@)
}

pub open spec fn lines_view(v: Seq<GrepLine>) -> Seq<LineView> {
    v.map_values(|l: GrepLine| line_view(l))
}

pub open spec fn file_view(f: GrepFile) -> FileView {
    (f.name@, lines_view(f.items@))
}

pub open spec fn files_view(v: Seq<GrepFile>) -> Seq<FileView> {
    v.map_values(|f: GrepFile| file_view(f))
}

pub open spec fn directory_view(d: Directory) -> DirectoryView {
    (d.name@, files_view(d.files@))
}

pub open spec fn directories_view(v: Seq<Directory>) -> Seq<DirectoryView> {
    v.map_values(|d: Directory| directory_view(d))
}

pub open spec fn file_names(v: Seq<FileView>) -> Seq<Seq<char>> {
    v.map_values(|f: FileView| f.0)
}

pub open spec fn directory_names(v: Seq<DirectoryView>) -> Seq<Seq<char>> {
    v.map_values(|d: DirectoryView| d.0)
}

impl View for GrepReport {
    type V = Seq<DirectoryView>;

    open spec fn view(&self) -> Seq<DirectoryView> {
        directories_view(self.directories@)
    }
}

/// The first index from `k` on where `name` stands in `names`.
pub open spec fn first_named(names: Seq<Seq<char>>, name: Seq<char>, k: int) -> Option<int>
    decreases names.len() - k,
{
    if k < 0 || k >= names.len() {
        None
    } else if names[k] == name {
        Some(k)
    } else {
        first_named(names, name, k + 1)
    }
}

proof fn lemma_first_named(names: Seq<Seq<char>>, name: Seq<char>, k: int)
    requires
        0 <= k,
    ensures
        first_named(names, name, k) matches Some(i) ==> k <= i < names.len() && names[i] == name,
    decreases names.len() - k,
{
    if k < names.len() && names[k] != name {
        lemma_first_named(names, name, k + 1);
    }
}

/// The files with `item` recorded under the file called `file`.
pub open spec fn files_with_line(files: Seq<FileView>, file: Seq<char>, item: LineView) -> Seq<FileView> {
    match first_named(file_names(files), file, 0) {
        Some(i) => files.update(i, (file, files[i].1.push(item))),
        None => files.push((file, seq![item])),
    }
}

/// The report with `item` recorded under directory `dir` and file `file`, each made
/// where it is missing.
pub open spec fn report_with_line(dirs: Seq<DirectoryView>, dir: Seq<char>, file: Seq<char>, item: LineView) -> Seq<DirectoryView> {
    match first_named(directory_names(dirs), dir, 0) {
        Some(i) => dirs.update(i, (dir, files_with_line(dirs[i].1, file, item))),
        None => dirs.push((dir, seq![(file, seq![item])])),
    }
}

/// The directory part of a path, as `std::path::Path::parent` gives it.
pub uninterp spec fn parent_of(path: Seq<char>) -> Option<Seq<char>>;

/// Relies on `std::path::Path::parent`: the path without its last component, `None`
/// for a root or an empty path.
#[verifier::external_body]
fn parent_name(path: &str) -> (r: Option<String>)
    ensures
        match r {
            Some(d) => parent_of(path@) == Some(d@),
            None => parent_of(path@) is None,
        },
{
    std::path::Path::new(path).parent().map(|d| d.display().to_string())
}

/// The index of the file called `name` in `files`, if any.
fn find_file(files: &Vec<GrepFile>, name: &String) -> (r: Option<usize>)
    ensures
        match r {
            Some(i) => first_named(file_names(files_view(files@)), name@, 0) == Some(i as int) && i < files@.len(),
            None => first_named(file_names(files_view(files@)), name@, 0) is None,
        },
{
    let ghost names = file_names(files_view(files@));
    let mut k: usize = files.len();
    let mut found: Option<usize> = None;
    while k > 0
        invariant
            k <= files@.len(),
            names == file_names(files_view(files@)),
            match found {
                Some(i) => first_named(names, name@, k as int) == Some(i as int) && i < files@.len(),
                None => first_named(names, name@, k as int) is None,
            },
        decreases k,
    {
        k -= 1;
        assert(names[k as int] == files@[k as int].name@);
        if files[k].name == *name {
            found = Some(k);
        }
    }
    found
}

/// The index of the directory called `name` in `dirs`, if any.
fn find_directory(dirs: &Vec<Directory>, name: &String) -> (r: Option<usize>)
    ensures
        match r {
            Some(i) => first_named(directory_names(directories_view(dirs@)), name@, 0) == Some(i as int) && i < dirs@.len(),
            None => first_named(directory_names(directories_view(dirs@)), name@, 0) is None,
        },
{
    let ghost names = directory_names(directories_view(dirs@));
    let mut k: usize = dirs.len();
    let mut found: Option<usize> = None;
    while k > 0
        invariant
            k <= dirs@.len(),
            names == directory_names(directories_view(dirs@)),
            match found {
                Some(i) => first_named(names, name@, k as int) == Some(i as int) && i < dirs@.len(),
                None => first_named(names, name@, k as int) is None,
            },
        decreases k,
    {
        k -= 1;
        assert(names[k as int] == dirs@[k as int].name@);
        if dirs[k].name == *name {
            found = Some(k);
        }
    }
    found
}

/// The directory that a found line is filed under: the path's parent, or the empty
/// name for a path without one.
pub open spec fn directory_of(path: Seq<char>) -> Seq<char> {
    match parent_of(path) {
        Some(d) => d,
        None => seq![],
    }
}

impl GrepReport {
    pub fn new() -> (r: Self)
        ensures
            r@.len() == 0,
    {
        GrepReport { directories: Vec::new() }
    }

    /// Searches line `index` (from 0) of the file at `path`, and records it where a
    /// pattern is found.
    pub fn process_line(
        &mut self,
        line: String,
        index: usize,
        path: &str,
        pattern_tree: &PatternTree,
        patterns: &Vec<String>,
    )
        requires
            index < usize::MAX,
        ensures
            ({
                let found = selected_offsets(*pattern_tree, string_texts(patterns@), line@);
                &&& found.len() == 0 ==> final(self)@ == old(self)@
                &&& found.len() > 0 ==> exists|p: Seq<usize>|
                    offsets(p) == found && final(self)@ == report_with_line(
                        old(self)@,
                        directory_of(path@),
                        path@,
                        ((index + 1) as usize, line@, p),
                    )
            }),
    {
        let (found, positions) = pattern_tree.selective_search(patterns, line.as_str());
        if found {
            let dir_name = match parent_name(path) {
                Some(d) => d,
                None => String::new(),
            };
            let file_name = path.to_owned();
            let ghost p = positions@;
            let item = GrepLine { line: index + 1, content: line, position: positions };
            self.add_line(dir_name, file_name, item);
            assert(offsets(p) == selected_offsets(*pattern_tree, string_texts(patterns@), line@));
        } else {
            assert(offsets(positions@).len() == 0);
        }
    }

    /// Records `item` under directory `dir_name` and file `file_name`.
    pub fn add_line(&mut self, dir_name: String, file_name: String, item: GrepLine)
        ensures
            final(self)@ == report_with_line(old(self)@, dir_name@, file_name@, line_view(item)),
    {
        let ghost lv = line_view(item);
        let ghost dv = dir_name@;
        let ghost fv = file_name@;
        match find_directory(&self.directories, &dir_name) {
            Some(di) => {
                proof {
                    lemma_first_named(directory_names(old(self)@), dv, 0);
                }
                let mut dir = self.directories.remove(di);
                let ghost old_files = directory_view(dir).1;
                match find_file(&dir.files, &file_name) {
                    Some(fi) => {
                        proof {
                            lemma_first_named(file_names(old_files), fv, 0);
                        }
                        let mut file = dir.files.remove(fi);
                        let ghost old_items = file_view(file).1;
                        file.items.push(item);
                        assert(file_view(file).1 =~= old_items.push(lv));
                        dir.files.insert(fi, file);
                        assert(directory_view(dir).1 =~= files_with_line(old_files, fv, lv));
                    },
                    None => {
                        let mut items: Vec<GrepLine> = Vec::new();
                        items.push(item);
                        let f = GrepFile { name: file_name, items };
                        assert(file_view(f) == (fv, seq![lv])) by {
                            assert(lines_view(f.items@) =~= seq![lv]);
                        }
                        dir.files.push(f);
                        assert(directory_view(dir).1 =~= files_with_line(old_files, fv, lv));
                    },
                }
                self.directories.insert(di, dir);
                assert(self@ =~= report_with_line(old(self)@, dv, fv, lv));
            },
            None => {
                let mut items: Vec<GrepLine> = Vec::new();
                items.push(item);
                let mut files: Vec<GrepFile> = Vec::new();
                let f = GrepFile { name: file_name, items };
                assert(file_view(f) == (fv, seq![lv])) by {
                    assert(lines_view(f.items@) =~= seq![lv]);
                }
                files.push(f);
                let d = Directory { name: dir_name, files };
                assert(directory_view(d) == (dv, seq![(fv, seq![lv])])) by {
                    assert(files_view(d.files@) =~= seq![(fv, seq![lv])]);
                }
                self.directories.push(d);
                assert(self@ =~= report_with_line(old(self)@, dv, fv, lv));
            },
        }
    }
}

} // verus!
