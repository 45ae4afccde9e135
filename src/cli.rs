use vstd::prelude::*;

use crate::error::CodicatError;
use crate::fileview::{binary_view, file_view_with_lines, looks_binary, shown_lines_decode};
use crate::fileview::{text_view, FileSource};
use crate::pathset::{relative, relative_components};
use crate::text::{components, path_components, views};
use crate::treeview::{tree_view_from_git, tree_view_text};

verus! {

/// Whether `regex::Regex::new` accepts the pattern: its syntax is valid and
/// the compiled program stays within the default size limit.
pub uninterp spec fn pattern_is_valid(pattern: Seq<char>) -> bool;

/// Whether the regex of a valid pattern matches somewhere in `text`.
pub uninterp spec fn regex_matches(pattern: Seq<char>, text: Seq<char>) -> bool;

/// Relies on regex::Regex::new and regex::Regex::is_match: the pattern
/// compiles exactly where it is valid, which depends on the pattern alone,
/// and whether the regex matches depends on the pattern and the text alone.
#[verifier::external_body]
fn pattern_matches(pattern: &str, text: &str) -> (r: Option<bool>)
    ensures
        r is Some <==> pattern_is_valid(pattern@),
        r matches Some(b) ==> b == regex_matches(pattern@, text@),
{
    regex::Regex::new(pattern).ok().map(|re| re.is_match(text))
}

/// The paths of `fs` whose flag in `keep` is set, in order.
pub open spec fn selected(fs: Seq<Seq<char>>, keep: Seq<bool>, n: int) -> Seq<Seq<char>>
    decreases n,
{
    if n <= 0 {
        Seq::empty()
    } else if keep[n - 1] {
        selected(fs, keep, n - 1).push(fs[n - 1])
    } else {
        selected(fs, keep, n - 1)
    }
}

/// Keeps the paths whose flag is set, in their order.
pub fn select_paths(files: &Vec<String>, keep: &Vec<bool>) -> (r: Vec<String>)
    requires
        keep@.len() == files@.len(),
    ensures
        views(r@) == selected(views(files@), keep@, files@.len() as int),
{
    let ghost fs = views(files@);
    let mut r: Vec<String> = Vec::new();
    let mut i: usize = 0;
    while i < files.len()
        invariant
            fs == views(files@),
            keep@.len() == files@.len(),
            i <= files@.len(),
            views(r@) == selected(fs, keep@, i as int),
        decreases files@.len() - i,
    {
        if keep[i] {
            let ghost before = views(r@);
            r.push(files[i].clone());
            assert(views(r@) =~= before.push(fs[i as int]));
        }
        i = i + 1;
    }
    r
}

/// Why the tracked-file lister gave no list.
#[derive(Debug)]
pub enum ListingError {
    /// The path is not inside a repository.
    NotARepository,
    /// The lister failed for another reason.
    Failed { reason: String },
}

/// The lines that join the tree section and the file blocks.
pub open spec fn tree_separator() -> Seq<char> {
    "\n\n"@
}

/// A file to render: the path shown for it, and where its content comes from.
#[derive(Debug)]
pub struct FileInput {
    pub path: String,
    pub source: FileSource,
}

/// The options of a run.
#[derive(Debug)]
pub struct RunOptions {
    /// Lines shown per file; 0 shows every line.
    pub max_lines: usize,
    /// Leave out the tree section.
    pub no_tree: bool,
    /// Leave out the file blocks.
    pub no_content: bool,
}

/// The file renders without error.
pub open spec fn block_ok(f: FileInput, max: int) -> bool {
    match f.source {
        FileSource::Bytes { content } => looks_binary(content@) || shown_lines_decode(
            content@,
            max,
        ),
        _ => false,
    }
}

/// The rendered block of a file that renders without error.
pub open spec fn block_text(f: FileInput, max: int) -> Seq<char> {
    match f.source {
        FileSource::Bytes { content } => if looks_binary(content@) {
            binary_view(f.path@)
        } else {
            text_view(f.path@, content@, max)
        },
        _ => Seq::empty(),
    }
}

/// A file with a zero byte among its first 8000 renders, whatever else it
/// holds, as its header, the line `[binary file omitted]` and its footer.
pub proof fn lemma_binary_placeholder(f: FileInput, max: int)
    requires
        f.source matches FileSource::Bytes { content } && looks_binary(content@),
    ensures
        block_ok(f, max),
        block_text(f, max) == binary_view(f.path@),
{
}

/// The first `n` files all render.
pub open spec fn blocks_ok(fs: Seq<FileInput>, max: int, n: int) -> bool {
    forall|k: int| 0 <= k < n ==> block_ok(#[trigger] fs[k], max)
}

/// The blocks of the first `n` files, one after another.
pub open spec fn blocks_text(fs: Seq<FileInput>, max: int, n: int) -> Seq<char>
    decreases n,
{
    if n <= 0 {
        Seq::empty()
    } else {
        blocks_text(fs, max, n - 1) + block_text(fs[n - 1], max)
    }
}

/// The output of a run whose parts all succeed.
pub open spec fn run_text(
    root: Seq<char>,
    listed: Seq<Seq<char>>,
    files: Seq<FileInput>,
    opts: RunOptions,
) -> Seq<char> {
    (if opts.no_tree {
        Seq::empty()
    } else {
        tree_view_text(root, listed)->Some_0 + tree_separator()
    }) + (if opts.no_content {
        Seq::empty()
    } else {
        blocks_text(files, opts.max_lines as int, files.len() as int)
    })
}

/// Every part of the run succeeds.
pub open spec fn run_ok(
    root: Seq<char>,
    listed: Seq<Seq<char>>,
    files: Seq<FileInput>,
    opts: RunOptions,
) -> bool {
    &&& (opts.no_tree || tree_view_text(root, listed) is Some)
    &&& (opts.no_content || blocks_ok(files, opts.max_lines as int, files.len() as int))
}

/// The segments of `ss` joined by slashes.
pub open spec fn joined_path(ss: Seq<Seq<char>>) -> Seq<char>
    decreases ss.len(),
{
    if ss.len() == 0 {
        Seq::empty()
    } else if ss.len() == 1 {
        ss[0]
    } else {
        joined_path(ss.drop_last()) + "/"@ + ss.last()
    }
}

/// `path` relative to `base`, where `base`'s segments begin it.
pub open spec fn relative_text(path: Seq<char>, base: Seq<char>) -> Option<Seq<char>> {
    match relative(components(base), components(path)) {
        Some(rel) => Some(joined_path(rel)),
        None => None,
    }
}

/// The path shown in a file's header.
pub open spec fn shown_path(
    path: Seq<char>,
    project_root: Option<Seq<char>>,
    cwd: Option<Seq<char>>,
) -> Seq<char> {
    match project_root {
        Some(root) if relative_text(path, root) is Some => relative_text(path, root)->Some_0,
        _ => match cwd {
            Some(dir) if relative_text(path, dir) is Some => relative_text(path, dir)->Some_0,
            _ => path,
        },
    }
}

fn join_segments(ss: &Vec<String>) -> (r: String)
    ensures
        r@ == joined_path(views(ss@)),
{
    let ghost vs = views(ss@);
    let mut r = String::new();
    let mut i: usize = 0;
    assert(vs.subrange(0, 0) =~= Seq::<Seq<char>>::empty());
    while i < ss.len()
        invariant
            vs == views(ss@),
            i <= ss@.len(),
            r@ == joined_path(vs.subrange(0, i as int)),
        decreases ss@.len() - i,
    {
        if i > 0 {
            r.append("/");
        }
        r.append(ss[i].as_str());
        assert(vs.subrange(0, i + 1).drop_last() =~= vs.subrange(0, i as int));
        if i == 0 {
            assert(vs.subrange(0, 1)[0] == vs[0]);
        }
        i = i + 1;
    }
    assert(vs.subrange(0, ss@.len() as int) =~= vs);
    r
}

fn relative_path_text(path: &str, base: &str) -> (r: Option<String>)
    ensures
        match r {
            Some(s) => relative_text(path@, base@) == Some(s@),
            None => relative_text(path@, base@) is None,
        },
{
    let pc = path_components(path);
    let bc = path_components(base);
    match relative_components(&bc, &pc) {
        Some(rel) => Some(join_segments(&rel)),
        None => None,
    }
}

/// The path to show for a file: relative to the project root where it lies
/// there, else relative to the working directory where it lies there, else
/// as given.
pub fn display_path(path: &str, project_root: Option<&str>, cwd: Option<&str>) -> (r: String)
    ensures
        r@ == shown_path(
            path@,
            match project_root {
                Some(p) => Some(p@),
                None => None,
            },
            match cwd {
                Some(c) => Some(c@),
                None => None,
            },
        ),
{
    if let Some(root) = project_root {
        if let Some(rel) = relative_path_text(path, root) {
            return rel;
        }
    }
    if let Some(dir) = cwd {
        if let Some(rel) = relative_path_text(path, dir) {
            return rel;
        }
    }
    String::from_str(path)
}

/// The flags that say which of `files` the pattern matches.
pub open spec fn match_flags(pattern: Seq<char>, files: Seq<String>) -> Seq<bool> {
    Seq::new(files.len(), |k: int| regex_matches(pattern, files[k]@))
}

/// What filtering `files` by `pattern` gives: all of them without a
/// pattern; an error exactly where the pattern is invalid; else the files
/// whose path the regex matches, in order.
pub open spec fn filter_outcome(
    files: Seq<String>,
    pattern: Option<String>,
    r: Result<Vec<String>, CodicatError>,
) -> bool {
    match pattern {
        None => r matches Ok(v) && v@ == files,
        Some(p) => {
            &&& (r is Ok <==> pattern_is_valid(p@))
            &&& (r matches Err(e) ==> (e matches CodicatError::InvalidFilterPattern { pattern: q }
                && q@ == p@))
            &&& (r matches Ok(v) ==> views(v@) == selected(
                views(files),
                match_flags(p@, files),
                files.len() as int,
            ))
        },
    }
}

/// The application: sequences the tree section and the file blocks of one run.
pub struct App;

impl Default for App {
    fn default() -> (r: App)
        ensures
            r == App,
    {
        App::new()
    }
}

impl App {
    pub fn new() -> (r: App)
        ensures
            r == App,
    {
        App
    }

    /// Turns the tracked-file lister's outcome into the list of files, or the
    /// error of the run. An empty list is an error.
    pub fn list_git_files(&self, path: &str, listing: Result<Vec<String>, ListingError>) -> (r:
        Result<Vec<String>, CodicatError>)
        ensures
            match listing {
                Ok(fs) => if fs@.len() > 0 {
                    r matches Ok(v) && v@ == fs@
                } else {
                    r matches Err(CodicatError::NoTrackedFiles { path: p }) && p@ == path@
                },
                Err(ListingError::NotARepository) => r matches Err(
                    CodicatError::NotUnderVersionControl { path: p },
                ) && p@ == path@,
                Err(ListingError::Failed { reason }) => r matches Err(
                    CodicatError::ListingFailed { reason: q },
                ) && q@ == reason@,
            },
    {
        match listing {
            Ok(fs) => {
                if fs.len() == 0 {
                    Err(CodicatError::NoTrackedFiles { path: String::from_str(path) })
                } else {
                    Ok(fs)
                }
            },
            Err(ListingError::NotARepository) => Err(
                CodicatError::NotUnderVersionControl { path: String::from_str(path) },
            ),
            Err(ListingError::Failed { reason }) => Err(CodicatError::ListingFailed { reason }),
        }
    }

    /// Keeps the files whose path the pattern matches, in order; without a
    /// pattern keeps them all. An invalid pattern is an error.
    pub fn filter_files(&self, files: Vec<String>, pattern: Option<String>) -> (r: Result<
        Vec<String>,
        CodicatError,
    >)
        ensures
            filter_outcome(files@, pattern, r),
    {
        match pattern {
            None => Ok(files),
            Some(p) => {
                match pattern_matches(p.as_str(), "") {
                    Some(_) => {},
                    None => {
                        return Err(CodicatError::InvalidFilterPattern { pattern: p });
                    },
                }
                let mut keep: Vec<bool> = Vec::new();
                let mut i: usize = 0;
                while i < files.len()
                    invariant
                        i <= files@.len(),
                        pattern_is_valid(p@),
                        keep@ =~= match_flags(p@, files@).subrange(0, i as int),
                    decreases files@.len() - i,
                {
                    match pattern_matches(p.as_str(), files[i].as_str()) {
                        Some(b) => keep.push(b),
                        None => {
                            return Err(CodicatError::InvalidFilterPattern { pattern: p });
                        },
                    }
                    i = i + 1;
                }
                assert(keep@ =~= match_flags(p@, files@));
                Ok(select_paths(&files, &keep))
            },
        }
    }

    /// Whether a run needs the tracked-file listing: for the tree section, and
    /// for the file blocks of a query root that is not a file.
    pub fn needs_listing(&self, opts: &RunOptions, query_is_file: bool) -> (r: bool)
        ensures
            r == (!opts.no_tree || (!opts.no_content && !query_is_file)),
    {
        !opts.no_tree || (!opts.no_content && !query_is_file)
    }

    /// The files whose blocks a run shows: the query root alone where it is a
    /// file, else the listed files that the pattern keeps.
    pub fn candidate_files(
        &self,
        query_root: &str,
        query_is_file: bool,
        listed: Vec<String>,
        pattern: Option<String>,
    ) -> (r: Result<Vec<String>, CodicatError>)
        ensures
            query_is_file ==> (r matches Ok(v) && v@.len() == 1 && v@[0]@ == query_root@),
            !query_is_file ==> filter_outcome(listed@, pattern, r),
    {
        if query_is_file {
            let mut v: Vec<String> = Vec::new();
            v.push(String::from_str(query_root));
            Ok(v)
        } else {
            self.filter_files(listed, pattern)
        }
    }

    /// Runs one rendering: the tree section of `query_root` over the listed
    /// paths `listed` (unless left out), a blank separator, then the block of
    /// each of `files` in order (unless left out). The run is all or nothing:
    /// the first failure is its result.
    pub fn execute(
        &self,
        query_root: &str,
        listed: &Vec<String>,
        files: &Vec<FileInput>,
        opts: &RunOptions,
    ) -> (r: Result<String, CodicatError>)
        ensures
            r is Ok <==> run_ok(query_root@, views(listed@), files@, *opts),
            r matches Ok(s) ==> s@ == run_text(query_root@, views(listed@), files@, *opts),
            r matches Err(e) ==> if !opts.no_tree && tree_view_text(
                query_root@,
                views(listed@),
            ) is None {
                e matches CodicatError::NoTrackedFilesUnderPath { path } && path@ == query_root@
            } else {
                exists|k: int|
                    0 <= k < files@.len() && blocks_ok(files@, opts.max_lines as int, k)
                        && !block_ok(#[trigger] files@[k], opts.max_lines as int) && (match files@[k].source {
                        FileSource::Directory => e matches CodicatError::NotAFile { path }
                            && path@ == files@[k].path@,
                        FileSource::Unreadable { reason } => e matches CodicatError::IOError {
                            path,
                            reason: q,
                        } && path@ == files@[k].path@ && q@ == reason@,
                        FileSource::Bytes { .. } => e matches CodicatError::EncodingError { path }
                            && path@ == files@[k].path@,
                    })
            },
    {
        let mut output = String::new();
        if !opts.no_tree {
            tree_view_from_git(query_root, listed, &mut output)?;
            output.append("\n\n");
        }
        let ghost head = output@;
        if opts.no_content {
            return Ok(output);
        }
        let mut i: usize = 0;
        while i < files.len()
            invariant
                i <= files@.len(),
                !opts.no_content,
                !opts.no_tree ==> tree_view_text(query_root@, views(listed@)) is Some,
                head == (if opts.no_tree {
                    Seq::<char>::empty()
                } else {
                    tree_view_text(query_root@, views(listed@))->Some_0 + tree_separator()
                }),
                blocks_ok(files@, opts.max_lines as int, i as int),
                output@ == head + blocks_text(files@, opts.max_lines as int, i as int),
            decreases files@.len() - i,
        {
            let f = &files[i];
            let res = file_view_with_lines(f.path.as_str(), &f.source, &mut output, opts.max_lines);
            match res {
                Ok(()) => {},
                Err(e) => {
                    assert(!block_ok(files@[i as int], opts.max_lines as int));
                    assert(!blocks_ok(files@, opts.max_lines as int, files@.len() as int));
                    return Err(e);
                },
            }
            assert(blocks_ok(files@, opts.max_lines as int, i + 1));
            i = i + 1;
        }
        Ok(output)
    }
}

} // verus!
