//! Project scaffolding helpers: locating a project on disk, finding the
//! module a new command belongs under, inserting its `mod` statement, and
//! rendering the boilerplate files of a fresh project.
//!
//! The filesystem is handed in as a value: a list of source files, each a
//! path (as segments) with its contents.  The driver reads the disk,
//! calls these functions, and writes the results back.

use vstd::prelude::*;
use vstd::string::StrSliceExecFns;
use vstd::string::StringExecFns;

use crate::casing::{pascal_case_of, snake_case_of, to_pascal_case, to_snake_case};
use crate::input::CommandName;
use crate::registry::{clone_string_vec, eq_string_vec};

verus! {

/// Whether `n` occurs in `h` starting at position `i`.
pub open spec fn starts_at(h: Seq<char>, n: Seq<char>, i: int) -> bool {
    0 <= i && i + n.len() <= h.len() && h.subrange(i, i + n.len()) == n
}

/// Whether `n` occurs anywhere in `h`.
pub open spec fn contains_seq(h: Seq<char>, n: Seq<char>) -> bool {
    exists|i: int| starts_at(h, n, i)
}

fn match_at(h: &str, n: &str, i: usize) -> (r: bool)
    requires
        i + n@.len() <= h@.len(),
        h@.len() <= usize::MAX,
    ensures
        r == starts_at(h@, n@, i as int),
{
    let nl = n.unicode_len();
    let mut j: usize = 0;
    while j < nl
        invariant
            0 <= j <= nl,
            nl == n@.len(),
            i + nl <= h@.len(),
            h@.len() <= usize::MAX,
            forall|x: int| 0 <= x < j ==> h@[i + x] == n@[x],
        decreases nl - j,
    {
        if h.get_char(i + j) != n.get_char(j) {
            proof {
                assert(h@.subrange(i as int, i + n@.len())[j as int] == h@[i + j]);
            }
            return false;
        }
        j += 1;
    }
    proof {
        assert(h@.subrange(i as int, i + n@.len()) =~= n@);
    }
    true
}

/// Whether the string `n` occurs anywhere in `h`.
pub fn str_contains(h: &String, n: &str) -> (r: bool)
    ensures
        r == contains_seq(h@, n@),
{
    let hl = h.as_str().unicode_len();
    let nl = n.unicode_len();
    if nl == 0 {
        proof {
            assert(h@.subrange(0, 0) =~= n@);
            assert(starts_at(h@, n@, 0));
        }
        return true;
    }
    if nl > hl {
        proof {
            assert forall|i: int| !starts_at(h@, n@, i) by {}
        }
        return false;
    }
    let mut i: usize = 0;
    while i <= hl - nl
        invariant
            nl <= hl,
            hl == h@.len(),
            nl == n@.len(),
            1 <= nl,
            0 <= i <= hl - nl + 1,
            forall|x: int| 0 <= x < i ==> !starts_at(h@, n@, x),
        decreases hl - nl + 1 - i,
    {
        if match_at(h.as_str(), n, i) {
            return true;
        }
        i += 1;
    }
    proof {
        assert forall|x: int| !starts_at(h@, n@, x) by {
            if 0 <= x && x + n@.len() <= h@.len() {
                assert(!starts_at(h@, n@, x));
            }
        }
    }
    false
}

/// Whether a character counts as leading blank space.
pub open spec fn is_blank(c: char) -> bool {
    c == ' ' || c == '\t'
}

/// The position of the first character that is not blank space, or the
/// length of the string if every character is.
pub open spec fn first_non_blank(s: Seq<char>) -> int
    decreases s.len(),
{
    if s.len() == 0 {
        0
    } else if !is_blank(s[0]) {
        0
    } else {
        1 + first_non_blank(s.drop_first())
    }
}

proof fn lemma_first_non_blank_props(s: Seq<char>)
    ensures
        0 <= first_non_blank(s) <= s.len(),
        forall|j: int| 0 <= j < first_non_blank(s) ==> is_blank(s[j]),
        first_non_blank(s) < s.len() ==> !is_blank(s[first_non_blank(s)]),
    decreases s.len(),
{
    if s.len() > 0 && is_blank(s[0]) {
        lemma_first_non_blank_props(s.drop_first());
        assert(forall|j: int| 0 <= j < s.len() - 1 ==> s.drop_first()[j] == s[j + 1]);
        assert forall|j: int| 0 <= j < first_non_blank(s) implies is_blank(s[j]) by {
            if j > 0 {
                assert(is_blank(s.drop_first()[j - 1]));
            }
        }
    }
}

/// Whether `s`, its leading blank space ignored, starts with `p`.
pub open spec fn trimmed_starts_with(s: Seq<char>, p: Seq<char>) -> bool {
    starts_at(s, p, first_non_blank(s))
}

/// Whether `line`, its leading blank space ignored, starts with `p`.
pub fn line_starts_with_trimmed(line: &String, p: &str) -> (r: bool)
    ensures
        r == trimmed_starts_with(line@, p@),
{
    let s = line.as_str();
    let len = s.unicode_len();
    let mut i: usize = 0;
    while i < len && (s.get_char(i) == ' ' || s.get_char(i) == '\t')
        invariant
            s@ == line@,
            len == line@.len(),
            0 <= i <= len,
            forall|x: int| 0 <= x < i ==> is_blank(line@[x]),
        decreases len - i,
    {
        i += 1;
    }
    proof {
        lemma_first_non_blank_props(line@);
        let fnb = first_non_blank(line@);
        if fnb < i {
            assert(is_blank(line@[fnb]));
            assert(false);
        }
        if fnb > i {
            assert(is_blank(line@[i as int]));
            assert(false);
        }
    }
    let pl = p.unicode_len();
    if pl > len - i {
        return false;
    }
    match_at(s, p, i)
}

/// One file of the project: its path, as segments from the filesystem
/// root, and its contents.
#[derive(Debug)]
pub struct SourceFile {
    pub path: Vec<String>,
    pub contents: String,
}

/// Whether `files[i]` sits at path `p`.
pub open spec fn file_at(files: Seq<SourceFile>, p: Seq<Seq<char>>, i: int) -> bool {
    0 <= i < files.len() && files[i].path.deep_view() == p
}

/// Whether some file sits at path `p`.
pub open spec fn path_exists(files: Seq<SourceFile>, p: Seq<Seq<char>>) -> bool {
    exists|i: int| file_at(files, p, i)
}

/// Whether no two files share a path, as on a real filesystem.
pub open spec fn paths_unique(files: Seq<SourceFile>) -> bool {
    forall|i: int, j: int|
        0 <= i < j < files.len() ==> (#[trigger] files[i]).path.deep_view() != (
        #[trigger] files[j]).path.deep_view()
}

/// The contents of the file at path `p`.
pub open spec fn contents_at(files: Seq<SourceFile>, p: Seq<Seq<char>>) -> Seq<char> {
    files[choose|i: int| file_at(files, p, i)].contents@
}

/// Whether some file sits at path `p`.
pub fn path_exists_exec(files: &Vec<SourceFile>, p: &Vec<String>) -> (r: bool)
    ensures
        r == path_exists(files@, p.deep_view()),
{
    let n = files.len();
    let mut i: usize = 0;
    while i < n
        invariant
            0 <= i <= n,
            n == files@.len(),
            forall|j: int| 0 <= j < i ==> !file_at(files@, p.deep_view(), j),
        decreases n - i,
    {
        if eq_string_vec(&files[i].path, p) {
            proof {
                assert(file_at(files@, p.deep_view(), i as int));
            }
            return true;
        }
        i += 1;
    }
    false
}

/// The contents of the file at path `p`, if one exists.
fn lookup_file<'a>(files: &'a Vec<SourceFile>, p: &Vec<String>) -> (r: Option<&'a String>)
    requires
        paths_unique(files@),
    ensures
        match r {
            Some(c) => path_exists(files@, p.deep_view()) && c@ == contents_at(
                files@,
                p.deep_view(),
            ),
            None => !path_exists(files@, p.deep_view()),
        },
{
    let n = files.len();
    let mut i: usize = 0;
    while i < n
        invariant
            0 <= i <= n,
            n == files@.len(),
            paths_unique(files@),
            forall|j: int| 0 <= j < i ==> !file_at(files@, p.deep_view(), j),
        decreases n - i,
    {
        if eq_string_vec(&files[i].path, p) {
            proof {
                assert(file_at(files@, p.deep_view(), i as int));
                let w = choose|w: int| file_at(files@, p.deep_view(), w);
                if w != i {
                    assert(files@[w].path.deep_view() == files@[i as int].path.deep_view());
                    assert(false);
                }
            }
            return Some(&files[i].contents);
        }
        i += 1;
    }
    None
}

/// What keeps a scaffolding step from going ahead.
#[derive(Debug, PartialEq, Eq, Structural)]
pub enum ScaffoldError {
    /// No `main.rs` was found in the working directory or any of its
    /// parents.
    MainRsNotFound,
    /// The `main.rs` that was found does not invoke the framework's entry
    /// macro, so this is not a project of this framework.
    MainRsMissingMacro,
    /// The `main.rs` that was found sits too close to the filesystem root
    /// for a project directory to exist above it.
    NoProjectDirectory,
    /// The module the new command would belong under does not exist.
    ParentModuleMissing,
}

/// The search for the project's `main.rs`: from `dir` upwards, first
/// `dir/src/main.rs`, then `dir/main.rs`, then the same in the parent.
pub open spec fn main_rs_search(files: Seq<SourceFile>, dir: Seq<Seq<char>>) -> Option<
    Seq<Seq<char>>,
>
    decreases dir.len(),
{
    let src_cand = dir + seq!["src"@, "main.rs"@];
    let cand = dir.push("main.rs"@);
    if path_exists(files, src_cand) {
        Some(src_cand)
    } else if path_exists(files, cand) {
        Some(cand)
    } else if dir.len() == 0 {
        None
    } else {
        main_rs_search(files, dir.drop_last())
    }
}

proof fn lemma_main_rs_search_exists(files: Seq<SourceFile>, dir: Seq<Seq<char>>)
    ensures
        main_rs_search(files, dir) matches Some(p) ==> path_exists(files, p),
    decreases dir.len(),
{
    if dir.len() > 0 {
        lemma_main_rs_search_exists(files, dir.drop_last());
    }
}

/// Finds the `main.rs` of the project the working directory belongs to:
/// `src/main.rs` is preferred over a bare `main.rs`, and parents are
/// searched when the working directory itself has neither.
pub fn find_main_rs(current_working_directory: &Vec<String>, files: &Vec<SourceFile>) -> (r:
    Option<Vec<String>>)
    ensures
        match r {
            Some(p) => main_rs_search(files@, current_working_directory.deep_view()) == Some(
                p.deep_view(),
            ),
            None => main_rs_search(files@, current_working_directory.deep_view()) is None,
        },
{
    let mut dir = clone_string_vec(current_working_directory);
    loop
        invariant
            main_rs_search(files@, current_working_directory.deep_view()) == main_rs_search(
                files@,
                dir.deep_view(),
            ),
        decreases dir.len(),
    {
        let mut src_cand = clone_string_vec(&dir);
        src_cand.push("src".to_owned());
        src_cand.push("main.rs".to_owned());
        proof {
            assert(src_cand.deep_view() =~= dir.deep_view() + seq!["src"@, "main.rs"@]);
        }
        if path_exists_exec(files, &src_cand) {
            return Some(src_cand);
        }
        let mut cand = clone_string_vec(&dir);
        cand.push("main.rs".to_owned());
        proof {
            assert(cand.deep_view() =~= dir.deep_view().push("main.rs"@));
        }
        if path_exists_exec(files, &cand) {
            return Some(cand);
        }
        if dir.len() == 0 {
            return None;
        }
        let ghost old_dir = dir.deep_view();
        dir.pop();
        proof {
            assert(dir.deep_view() =~= old_dir.drop_last());
        }
    }
}

/// Checks that a `main.rs` belongs to a project of this framework: its
/// contents must invoke the framework's entry macro.
pub fn check_main_rs(contents: &String) -> (r: Result<(), ScaffoldError>)
    ensures
        r is Ok <==> contains_seq(contents@, "clawless::main!"@),
        r matches Err(e) ==> e == ScaffoldError::MainRsMissingMacro,
{
    if str_contains(contents, "clawless::main!") {
        Ok(())
    } else {
        Err(ScaffoldError::MainRsMissingMacro)
    }
}

/// Locates the root directory of the project the working directory
/// belongs to: the directory two levels above the project's `main.rs`,
/// which must invoke the framework's entry macro.
pub fn find_clawless_project(
    current_working_directory: &Vec<String>,
    files: &Vec<SourceFile>,
) -> (r: Result<Vec<String>, ScaffoldError>)
    requires
        paths_unique(files@),
    ensures
        match r {
            Ok(root) => main_rs_search(files@, current_working_directory.deep_view())
                matches Some(p) && contains_seq(contents_at(files@, p), "clawless::main!"@)
                && p.len() >= 2 && root.deep_view() == p.take(p.len() - 2),
            Err(ScaffoldError::MainRsNotFound) => main_rs_search(
                files@,
                current_working_directory.deep_view(),
            ) is None,
            Err(ScaffoldError::MainRsMissingMacro) => main_rs_search(
                files@,
                current_working_directory.deep_view(),
            ) matches Some(p) && !contains_seq(contents_at(files@, p), "clawless::main!"@),
            Err(ScaffoldError::NoProjectDirectory) => main_rs_search(
                files@,
                current_working_directory.deep_view(),
            ) matches Some(p) && contains_seq(contents_at(files@, p), "clawless::main!"@)
                && p.len() < 2,
            Err(ScaffoldError::ParentModuleMissing) => false,
        },
{
    let main_rs_path = match find_main_rs(current_working_directory, files) {
        Some(p) => p,
        None => {
            return Err(ScaffoldError::MainRsNotFound);
        },
    };
    proof {
        lemma_main_rs_search_exists(files@, current_working_directory.deep_view());
    }
    let contents = match lookup_file(files, &main_rs_path) {
        Some(c) => c,
        None => vstd::pervasive::unreached(),
    };
    match check_main_rs(contents) {
        Ok(()) => {},
        Err(e) => {
            return Err(e);
        },
    }
    if main_rs_path.len() < 2 {
        return Err(ScaffoldError::NoProjectDirectory);
    }
    let mut root = main_rs_path;
    let ghost p = root.deep_view();
    root.pop();
    root.pop();
    proof {
        assert(root.deep_view() =~= p.take(p.len() - 2));
    }
    Ok(root)
}

/// The directory holding the file of the module a new command belongs
/// under.
pub open spec fn parent_module_base(root: Seq<Seq<char>>, parents: Seq<Seq<char>>) -> Seq<
    Seq<char>,
> {
    if parents.len() > 1 {
        root + seq!["src"@, "commands"@] + Seq::new(
            (parents.len() - 1) as nat,
            |i: int| snake_case_of(parents[i]),
        )
    } else if parents.len() == 0 {
        root.push("src"@)
    } else {
        root + seq!["src"@, "commands"@]
    }
}

/// The name of the module a new command belongs under: the innermost
/// parent module, or the commands module itself.
pub open spec fn parent_module_name(parents: Seq<Seq<char>>) -> Seq<char> {
    if parents.len() == 0 {
        "commands"@
    } else {
        parents.last()
    }
}

/// Locates the file of the module a new command's `mod` statement belongs
/// in: the parent module as a plain file first, then as a directory
/// module; a parent module that exists as neither is refused rather than
/// created.
pub fn find_parent_module(
    project: &Vec<String>,
    command_name: &CommandName,
    files: &Vec<SourceFile>,
) -> (r: Result<Vec<String>, ScaffoldError>)
    ensures
        ({
            let base = parent_module_base(project.deep_view(), command_name.parents_spec());
            let pname = parent_module_name(command_name.parents_spec());
            let cand_file = base.push(snake_case_of(pname) + ".rs"@);
            let cand_mod = base + seq![snake_case_of(pname), "mod.rs"@];
            match r {
                Ok(p) => (path_exists(files@, cand_file) && p.deep_view() == cand_file) || (
                !path_exists(files@, cand_file) && path_exists(files@, cand_mod) && p.deep_view()
                    == cand_mod),
                Err(e) => e == ScaffoldError::ParentModuleMissing && !path_exists(
                    files@,
                    cand_file,
                ) && !path_exists(files@, cand_mod),
            }
        }),
{
    let parent_modules = command_name.parent_modules();
    let count = parent_modules.len();
    let mut base = clone_string_vec(project);
    if count > 1 {
        base.push("src".to_owned());
        base.push("commands".to_owned());
        let mut i: usize = 0;
        while i < count - 1
            invariant
                0 <= i <= count - 1,
                count == command_name.parents_spec().len(),
                count == parent_modules.len(),
                parent_modules.deep_view() == command_name.parents_spec(),
                base.deep_view() == project.deep_view() + seq!["src"@, "commands"@] + Seq::new(
                    i as nat,
                    |x: int| snake_case_of(command_name.parents_spec()[x]),
                ),
            decreases count - 1 - i,
        {
            let ghost old_base = base.deep_view();
            base.push(to_snake_case(parent_modules[i].as_str()));
            proof {
                assert(base.deep_view() =~= old_base.push(
                    snake_case_of(command_name.parents_spec()[i as int]),
                ));
                assert(base.deep_view() =~= project.deep_view() + seq!["src"@, "commands"@]
                    + Seq::new(
                    (i + 1) as nat,
                    |x: int| snake_case_of(command_name.parents_spec()[x]),
                ));
            }
            i += 1;
        }
    } else if count == 0 {
        base.push("src".to_owned());
        proof {
            assert(base.deep_view() =~= project.deep_view().push("src"@));
        }
    } else {
        base.push("src".to_owned());
        base.push("commands".to_owned());
        proof {
            assert(base.deep_view() =~= project.deep_view() + seq!["src"@, "commands"@]);
        }
    }
    let parent_snake = if count == 0 {
        to_snake_case("commands")
    } else {
        to_snake_case(parent_modules[count - 1].as_str())
    };
    proof {
        if count == 0 {
            assert(parent_snake@ == snake_case_of(parent_module_name(
                command_name.parents_spec(),
            )));
        }
    }
    let mut file_name = parent_snake.clone();
    file_name.append(".rs");
    let mut cand_file = clone_string_vec(&base);
    cand_file.push(file_name);
    proof {
        assert(cand_file.deep_view() =~= base.deep_view().push(
            snake_case_of(parent_module_name(command_name.parents_spec())) + ".rs"@,
        ));
    }
    if path_exists_exec(files, &cand_file) {
        return Ok(cand_file);
    }
    let mut cand_mod = base;
    cand_mod.push(parent_snake);
    cand_mod.push("mod.rs".to_owned());
    proof {
        assert(cand_mod.deep_view() =~= parent_module_base(
            project.deep_view(),
            command_name.parents_spec(),
        ) + seq![
            snake_case_of(parent_module_name(command_name.parents_spec())),
            "mod.rs"@,
        ]);
    }
    if path_exists_exec(files, &cand_mod) {
        return Ok(cand_mod);
    }
    Err(ScaffoldError::ParentModuleMissing)
}

/// Whether `x` occurs in one of the lines.
pub open spec fn any_line_contains(ls: Seq<Seq<char>>, x: Seq<char>) -> bool {
    exists|i: int| 0 <= i < ls.len() && contains_seq(#[trigger] ls[i], x)
}

/// The last line that, trimmed, starts with `p`; negative if none does.
pub open spec fn last_trimmed_prefix_index(ls: Seq<Seq<char>>, p: Seq<char>) -> int
    decreases ls.len(),
{
    if ls.len() == 0 {
        -1
    } else if trimmed_starts_with(ls.last(), p) {
        ls.len() - 1
    } else {
        last_trimmed_prefix_index(ls.drop_last(), p)
    }
}

proof fn lemma_last_trimmed_props(ls: Seq<Seq<char>>, p: Seq<char>)
    ensures
        last_trimmed_prefix_index(ls, p) >= 0 ==> last_trimmed_prefix_index(ls, p) < ls.len()
            && trimmed_starts_with(ls[last_trimmed_prefix_index(ls, p)], p) && (forall|j: int|
            last_trimmed_prefix_index(ls, p) < j < ls.len() ==> !trimmed_starts_with(
                #[trigger] ls[j],
                p,
            )),
        last_trimmed_prefix_index(ls, p) < 0 ==> forall|j: int|
            0 <= j < ls.len() ==> !trimmed_starts_with(#[trigger] ls[j], p),
    decreases ls.len(),
{
    if ls.len() > 0 && !trimmed_starts_with(ls.last(), p) {
        lemma_last_trimmed_props(ls.drop_last(), p);
        assert(forall|j: int| 0 <= j < ls.len() - 1 ==> ls.drop_last()[j] == ls[j]);
    }
}

/// The first line that, trimmed, is not an inner doc comment; negative if
/// every line is one.
pub open spec fn first_non_doc_index(ls: Seq<Seq<char>>) -> int
    decreases ls.len(),
{
    if ls.len() == 0 {
        -1
    } else if !trimmed_starts_with(ls[0], "//!"@) {
        0
    } else {
        let r = first_non_doc_index(ls.drop_first());
        if r < 0 {
            -1
        } else {
            r + 1
        }
    }
}

proof fn lemma_first_non_doc_props(ls: Seq<Seq<char>>)
    ensures
        first_non_doc_index(ls) >= 0 ==> first_non_doc_index(ls) < ls.len()
            && !trimmed_starts_with(ls[first_non_doc_index(ls)], "//!"@) && (forall|j: int|
            0 <= j < first_non_doc_index(ls) ==> trimmed_starts_with(#[trigger] ls[j], "//!"@)),
        first_non_doc_index(ls) < 0 ==> forall|j: int|
            0 <= j < ls.len() ==> trimmed_starts_with(#[trigger] ls[j], "//!"@),
    decreases ls.len(),
{
    if ls.len() > 0 && trimmed_starts_with(ls[0], "//!"@) {
        lemma_first_non_doc_props(ls.drop_first());
        assert(forall|j: int| 0 <= j < ls.len() - 1 ==> ls.drop_first()[j] == ls[j + 1]);
        let r = first_non_doc_index(ls.drop_first());
        if r >= 0 {
            assert forall|j: int| 0 <= j < r + 1 implies trimmed_starts_with(
                #[trigger] ls[j],
                "//!"@,
            ) by {
                if j > 0 {
                    assert(trimmed_starts_with(ls.drop_first()[j - 1], "//!"@));
                }
            }
        } else {
            assert forall|j: int| 0 <= j < ls.len() implies trimmed_starts_with(
                #[trigger] ls[j],
                "//!"@,
            ) by {
                if j > 0 {
                    assert(trimmed_starts_with(ls.drop_first()[j - 1], "//!"@));
                }
            }
        }
    }
}

/// Where a new `mod` statement belongs: after the last existing `mod`
/// statement, else after the last `use` statement, else after the module's
/// leading doc comment, else at the very top.
pub open spec fn mod_insertion_index(ls: Seq<Seq<char>>) -> int {
    let m = last_trimmed_prefix_index(ls, "mod "@);
    let u = last_trimmed_prefix_index(ls, "use "@);
    let d = first_non_doc_index(ls);
    if m >= 0 {
        m
    } else if u >= 0 {
        u
    } else if d >= 0 {
        d
    } else {
        0
    }
}

/// Inserts `mod_statement` into the lines of a module file, unless some
/// line already contains it.  The statement lands after the last `mod`
/// statement, else after the last `use` statement, else after the leading
/// doc comment, else after the first line.
#[verifier::loop_isolation(false)]
pub fn insert_mod_line(lines: &Vec<String>, mod_statement: &String) -> (r: Vec<String>)
    requires
        lines@.len() >= 1,
    ensures
        any_line_contains(lines.deep_view(), mod_statement@) ==> r.deep_view()
            == lines.deep_view(),
        !any_line_contains(lines.deep_view(), mod_statement@) ==> r.deep_view()
            == lines.deep_view().insert(
            mod_insertion_index(lines.deep_view()) + 1,
            mod_statement@,
        ),
{
    let n = lines.len();
    let ghost lsv = lines.deep_view();
    let mut i: usize = 0;
    while i < n
        invariant
            0 <= i <= n,
            n == lines@.len(),
            lsv == lines.deep_view(),
            forall|j: int| 0 <= j < i ==> !contains_seq(#[trigger] lsv[j], mod_statement@),
        decreases n - i,
    {
        proof {
            assert(lsv[i as int] == lines@[i as int]@);
        }
        if str_contains(&lines[i], mod_statement.as_str()) {
            proof {
                assert(contains_seq(lsv[i as int], mod_statement@));
            }
            return clone_string_vec(lines);
        }
        i += 1;
    }
    proof {
        lemma_last_trimmed_props(lsv, "mod "@);
        lemma_last_trimmed_props(lsv, "use "@);
        lemma_first_non_doc_props(lsv);
    }
    let mut index: usize = 0;
    let mut found = false;
    let mut j: usize = n;
    while j > 0
        invariant
            0 <= j <= n,
            n == lines@.len(),
            lsv == lines.deep_view(),
            !found ==> forall|x: int| j <= x < n ==> !trimmed_starts_with(
                #[trigger] lsv[x],
                "mod "@,
            ),
            found ==> 0 <= index < n && last_trimmed_prefix_index(lsv, "mod "@) == index,
        decreases j,
    {
        if found {
            break;
        }
        j -= 1;
        proof {
            assert(lsv[j as int] == lines@[j as int]@);
        }
        if line_starts_with_trimmed(&lines[j], "mod ") {
            index = j;
            found = true;
            proof {
                let m = last_trimmed_prefix_index(lsv, "mod "@);
                if m < 0 {
                    assert(!trimmed_starts_with(lsv[j as int], "mod "@));
                }
                if m != j {
                    if m > j {
                        assert(!trimmed_starts_with(lsv[m], "mod "@));
                    } else {
                        assert(!trimmed_starts_with(lsv[j as int], "mod "@));
                    }
                }
            }
        }
    }
    if !found {
        let mut j2: usize = n;
        while j2 > 0
            invariant
                0 <= j2 <= n,
                n == lines@.len(),
                lsv == lines.deep_view(),
                !found ==> forall|x: int| j2 <= x < n ==> !trimmed_starts_with(
                    #[trigger] lsv[x],
                    "use "@,
                ),
                found ==> 0 <= index < n && last_trimmed_prefix_index(lsv, "use "@) == index,
                last_trimmed_prefix_index(lsv, "mod "@) < 0,
            decreases j2,
        {
            if found {
                break;
            }
            j2 -= 1;
            proof {
                assert(lsv[j2 as int] == lines@[j2 as int]@);
            }
            if line_starts_with_trimmed(&lines[j2], "use ") {
                index = j2;
                found = true;
                proof {
                    let u = last_trimmed_prefix_index(lsv, "use "@);
                    if u < 0 {
                        assert(!trimmed_starts_with(lsv[j2 as int], "use "@));
                    }
                    if u != j2 {
                        if u > j2 {
                            assert(!trimmed_starts_with(lsv[u], "use "@));
                        } else {
                            assert(!trimmed_starts_with(lsv[j2 as int], "use "@));
                        }
                    }
                }
            }
        }
    }
    if !found {
        let mut j3: usize = 0;
        while j3 < n
            invariant
                0 <= j3 <= n,
                n == lines@.len(),
                lsv == lines.deep_view(),
                !found ==> forall|x: int| 0 <= x < j3 ==> trimmed_starts_with(
                    #[trigger] lsv[x],
                    "//!"@,
                ),
                found ==> 0 <= index < n && first_non_doc_index(lsv) == index,
                last_trimmed_prefix_index(lsv, "mod "@) < 0,
                last_trimmed_prefix_index(lsv, "use "@) < 0,
            decreases n - j3,
        {
            if found {
                break;
            }
            proof {
                assert(lsv[j3 as int] == lines@[j3 as int]@);
            }
            if !line_starts_with_trimmed(&lines[j3], "//!") {
                index = j3;
                found = true;
                proof {
                    let d = first_non_doc_index(lsv);
                    if d < 0 {
                        assert(trimmed_starts_with(lsv[j3 as int], "//!"@));
                    }
                    if d != j3 {
                        if d > j3 {
                            assert(trimmed_starts_with(lsv[j3 as int], "//!"@));
                        } else {
                            assert(!trimmed_starts_with(lsv[d], "//!"@));
                        }
                    }
                }
                break;
            } else {
                j3 += 1;
            }
        }
    }
    if !found {
        index = 0;
        proof {
            assert(mod_insertion_index(lsv) == 0);
        }
    }
    proof {
        assert(mod_insertion_index(lsv) == index);
    }
    let mut r = clone_string_vec(lines);
    let ghost before = r.deep_view();
    r.insert(index + 1, mod_statement.clone());
    proof {
        assert(r.deep_view() =~= before.insert(index + 1, mod_statement@));
    }
    r
}

/// The boilerplate source of a freshly generated command: an empty
/// arguments struct named after the command, and an annotated asynchronous
/// handler that receives it together with the context.
pub open spec fn command_boilerplate_of(name: Seq<char>) -> Seq<char> {
    "use clawless::prelude::*;\n\n#[derive(Copy, Clone, Eq, PartialEq, Ord, PartialOrd, Hash, Debug, Args)]\npub struct "@
        + pascal_case_of(name)
        + "Args {\n    // Define command arguments here\n}\n\n#[command]\npub async fn "@ + name
        + "(args: "@ + pascal_case_of(name)
        + "Args, context: Context) -> CommandResult {\n    // Command implementation goes here\n    Ok(())\n}\n"@
}

/// Renders the boilerplate source of a freshly generated command.
pub fn command_file_boilerplate(name: &String) -> (r: String)
    ensures
        r@ == command_boilerplate_of(name@),
{
    let struct_prefix = to_pascal_case(name.as_str());
    let mut r =
        "use clawless::prelude::*;\n\n#[derive(Copy, Clone, Eq, PartialEq, Ord, PartialOrd, Hash, Debug, Args)]\npub struct ".to_owned();
    r.append(struct_prefix.as_str());
    r.append("Args {\n    // Define command arguments here\n}\n\n#[command]\npub async fn ");
    r.append(name.as_str());
    r.append("(args: ");
    r.append(struct_prefix.as_str());
    r.append(
        "Args, context: Context) -> CommandResult {\n    // Command implementation goes here\n    Ok(())\n}\n",
    );
    r
}

/// The boilerplate `main.rs` of a freshly created project.
pub fn main_rs_boilerplate() -> (r: String)
    ensures
        r@
            == "mod commands;\n\n// Initialize and start the Clawless application\n//\n// This macro sets up the Clawless runtime, parses the command-line arguments, and then\n// calls the appropriate command function based on the user's input.\nclawless::main!();\n"@,
{
    "mod commands;\n\n// Initialize and start the Clawless application\n//\n// This macro sets up the Clawless runtime, parses the command-line arguments, and then\n// calls the appropriate command function based on the user's input.\nclawless::main!();\n".to_owned()
}

/// The boilerplate `commands.rs` of a freshly created project.
pub fn commands_rs_boilerplate() -> (r: String)
    ensures
        r@
            == "mod greet;\n\n// Collect the commands of the application\n//\n// This macro collects all the command functions defined in this module and its sub-modules,\n// and registers them with the Clawless runtime so they can be invoked from the command line.\nclawless::commands!();\n"@,
{
    "mod greet;\n\n// Collect the commands of the application\n//\n// This macro collects all the command functions defined in this module and its sub-modules,\n// and registers them with the Clawless runtime so they can be invoked from the command line.\nclawless::commands!();\n".to_owned()
}

/// The boilerplate greeting command of a freshly created project.
pub fn greeting_command_boilerplate() -> (r: String)
    ensures
        r@
            == "use clawless::prelude::*;\n\n#[derive(Clone, Eq, PartialEq, Ord, PartialOrd, Hash, Debug, Args)]\npub struct GreetArgs {\n    /// Name of the person to greet\n    #[arg(default_value = \"World\")]\n    name: String,\n}\n\n#[command]\npub async fn greet(args: GreetArgs) -> CommandResult {\n    // Print the greeting to the console\n    println!(\"Hello, {}!\", args.name);\n\n    // Exit the CLI successfully\n    Ok(())\n}\n"@,
{
    "use clawless::prelude::*;\n\n#[derive(Clone, Eq, PartialEq, Ord, PartialOrd, Hash, Debug, Args)]\npub struct GreetArgs {\n    /// Name of the person to greet\n    #[arg(default_value = \"World\")]\n    name: String,\n}\n\n#[command]\npub async fn greet(args: GreetArgs) -> CommandResult {\n    // Print the greeting to the console\n    println!(\"Hello, {}!\", args.name);\n\n    // Exit the CLI successfully\n    Ok(())\n}\n".to_owned()
}

} // verus!
