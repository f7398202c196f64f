//! Parsed command names.
//!
//! A command name given on the command line can be simple (`greet`) or
//! nested with slash notation (`db/migrate`).  `CommandName` separates the
//! command's own name from its parent module hierarchy and renders the
//! file name and path the command's source belongs at.

use vstd::prelude::*;
use vstd::string::StrSliceExecFns;
use vstd::string::StringExecFns;

use crate::casing::{lower_case_of, snake_case_of, to_lower_case, to_snake_case};
use crate::registry::clone_string_vec;

verus! {

/// The position of the first occurrence of `sep` in `s`, or a negative
/// number if `sep` does not occur.
pub open spec fn first_index_of(s: Seq<char>, sep: char) -> int
    decreases s.len(),
{
    if s.len() == 0 {
        -1
    } else if s[0] == sep {
        0
    } else {
        let r = first_index_of(s.drop_first(), sep);
        if r < 0 {
            -1
        } else {
            r + 1
        }
    }
}

proof fn lemma_first_index_props(s: Seq<char>, sep: char)
    ensures
        first_index_of(s, sep) >= 0 ==> first_index_of(s, sep) < s.len() && s[first_index_of(
            s,
            sep,
        )] == sep && (forall|j: int| 0 <= j < first_index_of(s, sep) ==> s[j] != sep),
        first_index_of(s, sep) < 0 ==> forall|j: int| 0 <= j < s.len() ==> s[j] != sep,
    decreases s.len(),
{
    if s.len() > 0 && s[0] != sep {
        lemma_first_index_props(s.drop_first(), sep);
        let r = first_index_of(s.drop_first(), sep);
        assert(forall|j: int| 0 <= j < s.len() - 1 ==> s.drop_first()[j] == s[j + 1]);
        if r >= 0 {
            assert(s[r + 1] == s.drop_first()[r]);
            assert forall|j: int| 0 <= j < r + 1 implies s[j] != sep by {
                if j > 0 {
                    assert(s.drop_first()[j - 1] != sep);
                }
            }
        } else {
            assert forall|j: int| 0 <= j < s.len() implies s[j] != sep by {
                if j > 0 {
                    assert(s.drop_first()[j - 1] != sep);
                }
            }
        }
    }
}

/// The pieces of `s` between occurrences of `sep`: the separators are
/// dropped, and `n` separators yield `n + 1` pieces.
pub open spec fn split_on(s: Seq<char>, sep: char) -> Seq<Seq<char>>
    decreases s.len(),
{
    let i = first_index_of(s, sep);
    if i < 0 || i >= s.len() {
        seq![s]
    } else {
        seq![s.take(i)] + split_on(s.skip(i + 1), sep)
    }
}

proof fn lemma_split_on_nonempty(s: Seq<char>, sep: char)
    ensures
        split_on(s, sep).len() >= 1,
    decreases s.len(),
{
    let i = first_index_of(s, sep);
    if 0 <= i < s.len() {
        lemma_split_on_nonempty(s.skip(i + 1), sep);
    }
}

/// Splits `s` at every occurrence of `sep`.
pub fn split_string(s: &String, sep: char) -> (r: Vec<String>)
    ensures
        r.deep_view() == split_on(s@, sep),
        r.len() >= 1,
{
    let st = s.as_str();
    let len = st.unicode_len();
    let mut parts: Vec<String> = Vec::new();
    let mut start: usize = 0;
    proof {
        assert(s@.skip(0) =~= s@);
        assert(parts.deep_view() =~= Seq::<Seq<char>>::empty());
    }
    loop
        invariant
            st@ == s@,
            len == s@.len(),
            0 <= start <= len,
            split_on(s@, sep) == parts.deep_view() + split_on(s@.skip(start as int), sep),
        decreases len - start,
    {
        let mut j = start;
        while j < len && st.get_char(j) != sep
            invariant
                st@ == s@,
                len == s@.len(),
                start <= j <= len,
                forall|x: int| start <= x < j ==> s@[x] != sep,
            decreases len - j,
        {
            j += 1;
        }
        let ghost suffix = s@.skip(start as int);
        proof {
            assert(forall|x: int| 0 <= x < suffix.len() ==> suffix[x] == s@[start + x]);
            lemma_first_index_props(suffix, sep);
        }
        if j == len {
            proof {
                assert(first_index_of(suffix, sep) < 0) by {
                    if first_index_of(suffix, sep) >= 0 {
                        assert(suffix[first_index_of(suffix, sep)] == sep);
                    }
                }
                assert(split_on(suffix, sep) == seq![suffix]);
            }
            let part = st.substring_char(start, len).to_owned();
            let ghost old_parts = parts.deep_view();
            parts.push(part);
            proof {
                assert(suffix =~= s@.subrange(start as int, len as int));
                assert(parts.deep_view() =~= old_parts + seq![suffix]);
                lemma_split_on_nonempty(s@, sep);
            }
            return parts;
        } else {
            proof {
                let fi = first_index_of(suffix, sep);
                assert(suffix[j - start] == sep);
                if fi < 0 {
                    assert(suffix[j - start] != sep);
                }
                assert(fi >= 0);
                if fi < j - start {
                    assert(s@[start + fi] != sep);
                    assert(suffix[fi] == sep);
                    assert(false);
                }
                if fi > j - start {
                    assert(suffix[j - start] != sep);
                    assert(false);
                }
                assert(fi == j - start);
                assert(split_on(suffix, sep) == seq![suffix.take(j - start)] + split_on(
                    suffix.skip(j - start + 1),
                    sep,
                ));
                assert(suffix.take(j - start) =~= s@.subrange(start as int, j as int));
                assert(suffix.skip(j - start + 1) =~= s@.skip(j + 1));
            }
            let part = st.substring_char(start, j).to_owned();
            let ghost old_parts = parts.deep_view();
            parts.push(part);
            proof {
                assert(parts.deep_view() =~= old_parts + seq![
                    s@.subrange(start as int, j as int),
                ]);
                assert(parts.deep_view() + split_on(s@.skip(j + 1), sep) =~= old_parts + split_on(
                    s@.skip(start as int),
                    sep,
                ));
            }
            start = j + 1;
        }
    }
}

/// A problem with a command name given on the command line.
#[derive(Debug, PartialEq, Eq, Structural)]
pub enum CommandNameError {
    EmptyName,
}

/// A parsed command name with optional parent modules.
///
/// The parent modules are ordered from outermost to innermost.
#[derive(Debug)]
pub struct CommandName {
    name: String,
    parent_modules: Vec<String>,
}

impl CommandName {
    /// The name of the command, without parent modules.
    pub closed spec fn name_spec(&self) -> Seq<char> {
        self.name@
    }

    /// The parent module hierarchy, outermost first.
    pub closed spec fn parents_spec(&self) -> Seq<Seq<char>> {
        self.parent_modules.deep_view()
    }

    /// Builds a command name from its parts.
    pub fn new(name: String, parent_modules: Vec<String>) -> (r: Self)
        ensures
            r.name_spec() == name@,
            r.parents_spec() == parent_modules.deep_view(),
    {
        CommandName { name, parent_modules }
    }

    /// The name of the command (without parent modules).
    pub fn name(&self) -> (r: &String)
        ensures
            r@ == self.name_spec(),
    {
        &self.name
    }

    /// Parent module hierarchy, ordered from outermost to innermost.
    pub fn parent_modules(&self) -> (r: &Vec<String>)
        ensures
            r.deep_view() == self.parents_spec(),
    {
        &self.parent_modules
    }

    /// The filename for this command: its name in snake case, with the
    /// source file suffix.
    pub fn filename(&self) -> (r: String)
        ensures
            r@ == snake_case_of(self.name_spec()) + ".rs"@,
    {
        let mut f = to_snake_case(self.name.as_str());
        f.append(".rs");
        f
    }

    /// The path of this command's source file from the project root: the
    /// commands directory, one directory per parent module in snake case,
    /// then the command's filename.
    pub fn path_from_project_root(&self, project_root: &Vec<String>) -> (r: Vec<String>)
        ensures
            r.deep_view() == project_root.deep_view() + seq!["src"@, "commands"@] + Seq::new(
                self.parents_spec().len(),
                |i: int| snake_case_of(self.parents_spec()[i]),
            ) + seq![snake_case_of(self.name_spec()) + ".rs"@],
    {
        let mut path = clone_string_vec(project_root);
        path.push("src".to_owned());
        path.push("commands".to_owned());
        let count = self.parent_modules.len();
        let mut i: usize = 0;
        while i < count
            invariant
                0 <= i <= count,
                count == self.parent_modules.len(),
                path.deep_view() == project_root.deep_view() + seq!["src"@, "commands"@]
                    + Seq::new(i as nat, |x: int| snake_case_of(self.parents_spec()[x])),
            decreases count - i,
        {
            let ghost old_path = path.deep_view();
            path.push(to_snake_case(self.parent_modules[i].as_str()));
            proof {
                assert(path.deep_view() =~= old_path.push(
                    snake_case_of(self.parents_spec()[i as int]),
                ));
                assert(path.deep_view() =~= project_root.deep_view() + seq!["src"@, "commands"@]
                    + Seq::new((i + 1) as nat, |x: int| snake_case_of(self.parents_spec()[x])));
            }
            i += 1;
        }
        let ghost before_file = path.deep_view();
        path.push(self.filename());
        proof {
            assert(path.deep_view() =~= before_file.push(
                snake_case_of(self.name_spec()) + ".rs"@,
            ));
            assert(path.deep_view() =~= project_root.deep_view() + seq!["src"@, "commands"@]
                + Seq::new(
                self.parents_spec().len(),
                |i: int| snake_case_of(self.parents_spec()[i]),
            ) + seq![snake_case_of(self.name_spec()) + ".rs"@]);
        }
        path
    }

    /// Parses a command name written on the command line: the whole value
    /// is lowercased, then split on slashes; the last piece is the
    /// command's own name and the earlier pieces its parent modules.  The
    /// split always yields at least one piece, so parsing succeeds on
    /// every input.
    pub fn try_from(value: &String) -> (r: Result<CommandName, CommandNameError>)
        ensures
            r is Ok,
            r matches Ok(c) ==> {
                let parts = split_on(lower_case_of(value@), '/');
                &&& c.name_spec() == parts.last()
                &&& c.parents_spec() == parts.drop_last()
            },
    {
        let lowered = to_lower_case(value.as_str());
        let mut parts = split_string(&lowered, '/');
        let count = parts.len();
        let mut parent_modules: Vec<String> = Vec::new();
        let mut i: usize = 0;
        while i < count - 1
            invariant
                0 <= i <= count - 1,
                count == parts.len(),
                count >= 1,
                parent_modules.deep_view() =~= parts.deep_view().take(i as int),
            decreases count - 1 - i,
        {
            let ghost old_pm = parent_modules.deep_view();
            parent_modules.push(parts[i].clone());
            proof {
                assert(parent_modules.deep_view() =~= old_pm.push(parts.deep_view()[i as int]));
                assert(parent_modules.deep_view() =~= parts.deep_view().take(i + 1));
            }
            i += 1;
        }
        let name = parts.pop().unwrap();
        proof {
            assert(name@ == parts.deep_view().push(name@).last());
            assert(parent_modules.deep_view() =~= parts.deep_view().push(name@).drop_last());
        }
        Ok(CommandName { name, parent_modules })
    }
}

} // verus!
