//! The command registry: the process-wide tree of named command nodes.
//!
//! Handlers are registered as flat, order-independent records, each naming
//! its parent path.  `Registry::assemble` groups the records by parent path
//! and wires them into a single tree rooted at an implicit application root
//! group, rejecting sibling name or alias collisions and parent paths that
//! do not resolve to a group node.  The assembled tree is immutable.

use vstd::prelude::*;

use crate::dispatch::{children_names, first_token_match_from, resolution_matches, resolve_model, Resolution, ResolutionModel};
use crate::error::ConfigurationError;

verus! {

/// Whether a node performs an action itself (leaf) or exists only to host
/// subcommands (group).  Invoking a group without a child selection is not
/// a valid terminal action.
#[derive(Clone, Copy, PartialEq, Eq, Structural, Debug)]
pub enum NodeKind {
    Group,
    Leaf,
}

/// Short and long description strings for a node, derived once at
/// registration and never recomputed.
#[derive(Debug)]
pub struct Documentation {
    pub short: String,
    pub long: String,
}

/// The declared shape of a node's expected arguments: the names of the
/// arguments its handler expects, possibly none.
#[derive(Debug)]
pub struct Schema {
    pub args: Vec<String>,
}

/// The flat, order-independent unit of registration submitted for each
/// handler.  The parent path is a sequence of names leading from the tree
/// root to the group this record's node belongs under; an empty path places
/// the node directly under the root.
#[derive(Debug)]
pub struct Record {
    pub name: String,
    pub parent_path: Vec<String>,
    pub aliases: Vec<String>,
    pub kind: NodeKind,
    pub doc: Documentation,
    pub schema: Schema,
    pub executor: u64,
}

/// One node of the assembled command tree.  Children are indices into the
/// registry's node arena, each strictly greater than the node's own index.
#[derive(Debug)]
pub struct CommandNode {
    pub name: String,
    pub aliases: Vec<String>,
    pub kind: NodeKind,
    pub doc: Documentation,
    pub schema: Schema,
    pub executor: u64,
    pub children: Vec<usize>,
}

impl Documentation {
    /// A field-for-field copy.
    pub fn duplicate(&self) -> (r: Self)
        ensures
            r.short@ == self.short@,
            r.long@ == self.long@,
    {
        Documentation { short: self.short.clone(), long: self.long.clone() }
    }
}

/// A field-for-field copy of a vector of strings.
pub fn clone_string_vec(v: &Vec<String>) -> (r: Vec<String>)
    ensures
        r.deep_view() == v.deep_view(),
{
    let mut r: Vec<String> = Vec::new();
    let n = v.len();
    let mut i: usize = 0;
    while i < n
        invariant
            0 <= i <= n,
            n == v.len(),
            r.len() == i,
            forall|j: int| 0 <= j < i ==> r.deep_view()[j] == v.deep_view()[j],
        decreases n - i,
    {
        r.push(v[i].clone());
        i += 1;
    }
    proof {
        assert(r.deep_view() =~= v.deep_view());
    }
    r
}

/// Whether two vectors of strings hold the same strings in the same order.
pub fn eq_string_vec(a: &Vec<String>, b: &Vec<String>) -> (r: bool)
    ensures
        r <==> a.deep_view() == b.deep_view(),
{
    if a.len() != b.len() {
        proof {
            assert(a.deep_view().len() != b.deep_view().len());
        }
        return false;
    }
    let n = a.len();
    let mut i: usize = 0;
    while i < n
        invariant
            0 <= i <= n,
            n == a.len() && n == b.len(),
            forall|j: int| 0 <= j < i ==> a.deep_view()[j] == b.deep_view()[j],
        decreases n - i,
    {
        if !(a[i] == b[i]) {
            proof {
                assert(a.deep_view()[i as int] != b.deep_view()[i as int]);
            }
            return false;
        }
        i += 1;
    }
    proof {
        assert(a.deep_view() =~= b.deep_view());
    }
    true
}

/// The lines of a doc comment joined with newlines.
pub open spec fn joined_lines(ls: Seq<Seq<char>>) -> Seq<char>
    decreases ls.len(),
{
    if ls.len() == 0 {
        Seq::empty()
    } else if ls.len() == 1 {
        ls[0]
    } else {
        joined_lines(ls.drop_last()) + "\n"@ + ls.last()
    }
}

impl Documentation {
    /// Derives a node's documentation from the lines of its doc comment:
    /// the first line becomes the short description, and all the lines
    /// joined with newlines the long one.  A handler without doc lines has
    /// no documentation.
    pub fn from_lines(lines: &Vec<String>) -> (r: Option<Documentation>)
        ensures
            match r {
                Some(d) => lines@.len() > 0 && d.short@ == lines.deep_view()[0] && d.long@
                    == joined_lines(lines.deep_view()),
                None => lines@.len() == 0,
            },
    {
        let n = lines.len();
        if n == 0 {
            return None;
        }
        let short = lines[0].clone();
        let mut long = lines[0].clone();
        proof {
            assert(lines.deep_view().take(1).len() == 1);
            assert(lines.deep_view().take(1)[0] == lines.deep_view()[0]);
        }
        let mut i: usize = 1;
        while i < n
            invariant
                1 <= i <= n,
                n == lines@.len(),
                short@ == lines.deep_view()[0],
                long@ == joined_lines(lines.deep_view().take(i as int)),
            decreases n - i,
        {
            long.append("\n");
            long.append(lines[i].as_str());
            proof {
                let dv = lines.deep_view();
                assert(dv.take(i + 1).drop_last() =~= dv.take(i as int));
                assert(dv.take(i + 1).last() == dv[i as int]);
                assert(dv.take(i + 1).len() == i + 1 >= 2);
            }
            i += 1;
        }
        proof {
            assert(lines.deep_view().take(n as int) =~= lines.deep_view());
        }
        Some(Documentation { short, long })
    }
}

impl Schema {
    /// A field-for-field copy.
    pub fn duplicate(&self) -> (r: Self)
        ensures
            r.args.deep_view() == self.args.deep_view(),
    {
        Schema { args: clone_string_vec(&self.args) }
    }
}

/// The identifiers a node answers to among its siblings: its name first,
/// then its aliases.
pub open spec fn node_ident(n: CommandNode, m: int) -> Seq<char> {
    if m == 0 {
        n.name@
    } else {
        n.aliases@[m - 1]@
    }
}

/// How many identifiers a node answers to.
pub open spec fn node_ident_count(n: CommandNode) -> int {
    1 + n.aliases@.len() as int
}

/// The identifiers a record claims: its name first, then its aliases.
pub open spec fn record_ident(r: Record, m: int) -> Seq<char> {
    if m == 0 {
        r.name@
    } else {
        r.aliases@[m - 1]@
    }
}

/// How many identifiers a record claims.
pub open spec fn record_ident_count(r: Record) -> int {
    1 + r.aliases@.len() as int
}

/// Every child index points further right in the arena and stays in
/// bounds, so each parent precedes its children.
pub open spec fn wf_child_indices(reg: Seq<CommandNode>) -> bool {
    forall|i: int, k: int|
        0 <= i < reg.len() && 0 <= k < reg[i].children@.len() ==> i < #[trigger] reg[i].children@[k]
            < reg.len()
}

/// Leaves host no children.
pub open spec fn wf_leaves(reg: Seq<CommandNode>) -> bool {
    forall|i: int|
        0 <= i < reg.len() ==> ((#[trigger] reg[i]).kind is Leaf ==> reg[i].children@.len() == 0)
}

/// Within one parent's children, every name and alias is claimed at most
/// once, a node's own name included.
pub open spec fn wf_unique_siblings_at(reg: Seq<CommandNode>, i: int) -> bool {
    forall|k1: int, m1: int, k2: int, m2: int|
        #![trigger node_ident(reg[reg[i].children@[k1] as int], m1), node_ident(reg[reg[i].children@[k2] as int], m2)]
        0 <= k1 < reg[i].children@.len() && 0 <= k2 < reg[i].children@.len() && 0 <= m1
            < node_ident_count(reg[reg[i].children@[k1] as int]) && 0 <= m2 < node_ident_count(
            reg[reg[i].children@[k2] as int],
        ) && (k1 != k2 || m1 != m2) ==> node_ident(reg[reg[i].children@[k1] as int], m1)
            != node_ident(reg[reg[i].children@[k2] as int], m2)
}

/// Well-formedness of an assembled node arena: a root group at index zero,
/// forward-pointing child edges, childless leaves, and collision-free
/// sibling sets.
pub open spec fn wf_nodes(reg: Seq<CommandNode>) -> bool {
    &&& reg.len() >= 1
    &&& reg[0].kind is Group
    &&& wf_child_indices(reg)
    &&& wf_leaves(reg)
    &&& forall|i: int| 0 <= i < reg.len() ==> #[trigger] wf_unique_siblings_at(reg, i)
}

/// Whether an assembled node carries exactly the payload of a record.
pub open spec fn node_matches_record(n: CommandNode, r: Record) -> bool {
    &&& n.name@ == r.name@
    &&& n.aliases.deep_view() == r.aliases.deep_view()
    &&& n.kind == r.kind
    &&& n.doc.short@ == r.doc.short@
    &&& n.doc.long@ == r.doc.long@
    &&& n.schema.args.deep_view() == r.schema.args.deep_view()
    &&& n.executor == r.executor
}

/// The first child of `reg[at]`, scanning from position `k`, whose name is
/// `name`; names only, since parent paths are written with names.
pub open spec fn find_child_by_name_from(
    reg: Seq<CommandNode>,
    at: int,
    name: Seq<char>,
    k: int,
) -> Option<int>
    decreases reg[at].children@.len() - k,
{
    if k < 0 || k >= reg[at].children@.len() {
        None
    } else if reg[reg[at].children@[k] as int].name@ == name {
        Some(reg[at].children@[k] as int)
    } else {
        find_child_by_name_from(reg, at, name, k + 1)
    }
}

/// The node reached from `reg[at]` by following `path` name by name.
pub open spec fn find_node_spec(reg: Seq<CommandNode>, at: int, path: Seq<Seq<char>>) -> Option<
    int,
>
    decreases path.len(),
{
    if path.len() == 0 {
        Some(at)
    } else {
        match find_child_by_name_from(reg, at, path[0], 0) {
            Some(c) => find_node_spec(reg, c, path.drop_first()),
            None => None,
        }
    }
}

/// Whether `p` is a chain of group records in `rs`: every prefix of `p`
/// names a registered group record under the preceding prefix.  The parent
/// path of a record must satisfy this for the record to find its place in
/// the tree.
pub open spec fn resolvable(rs: Seq<Record>, p: Seq<Seq<char>>) -> bool
    decreases p.len(),
{
    if p.len() == 0 {
        true
    } else {
        resolvable(rs, p.drop_last()) && exists|i: int|
            0 <= i < rs.len() && (#[trigger] rs[i]).parent_path.deep_view() == p.drop_last()
                && rs[i].name@ == p.last() && rs[i].kind is Group
    }
}

/// Whether some record's parent path fails to resolve to a group node.
pub open spec fn has_dangling(rs: Seq<Record>) -> bool {
    exists|i: int| 0 <= i < rs.len() && !resolvable(rs, (#[trigger] rs[i]).parent_path.deep_view())
}

/// A collision among the identifiers of records that would become
/// siblings: two records with the same parent path claim the same
/// identifier, or one record claims the same identifier twice.
pub open spec fn collide_at(rs: Seq<Record>, i: int, j: int, m1: int, m2: int) -> bool {
    &&& 0 <= i <= j < rs.len()
    &&& 0 <= m1 < record_ident_count(rs[i])
    &&& 0 <= m2 < record_ident_count(rs[j])
    &&& (if i == j {
        m1 < m2
    } else {
        true
    })
    &&& rs[i].parent_path.deep_view() == rs[j].parent_path.deep_view()
    &&& record_ident(rs[i], m1) == record_ident(rs[j], m2)
}

/// Whether any sibling set claims an identifier twice.
pub open spec fn has_collision(rs: Seq<Record>) -> bool {
    exists|i: int, j: int, m1: int, m2: int| collide_at(rs, i, j, m1, m2)
}

/// Whether `x` is one of the identifiers claimed twice within a sibling
/// set.
pub open spec fn is_duplicate_ident(rs: Seq<Record>, x: Seq<char>) -> bool {
    exists|i: int, j: int, m1: int, m2: int|
        collide_at(rs, i, j, m1, m2) && record_ident(rs[i], m1) == x
}

/// The payload of the implicit application root: a group that exists only
/// to host the top-level commands.
pub open spec fn is_root_node(n: CommandNode) -> bool {
    &&& n.name@ == "clawless"@
    &&& n.aliases@.len() == 0
    &&& n.kind is Group
    &&& n.doc.short@ == Seq::<char>::empty()
    &&& n.doc.long@ == Seq::<char>::empty()
    &&& n.schema.args@.len() == 0
    &&& n.executor == 0
}

/// A read-only view of one identifier a record claims: its name for
/// position zero, its aliases after that.
fn record_ident_at(r: &Record, m: usize) -> (s: &String)
    requires
        m < record_ident_count(*r),
    ensures
        s@ == record_ident(*r, m as int),
{
    if m == 0 {
        &r.name
    } else {
        &r.aliases[m - 1]
    }
}

/// The position among `b`'s identifiers at which the string `x` occurs.
fn find_ident_in(b: &Record, x: &String) -> (r: Option<usize>)
    ensures
        match r {
            Some(m2) => m2 < record_ident_count(*b) && record_ident(*b, m2 as int) == x@,
            None => forall|m2: int|
                0 <= m2 < record_ident_count(*b) ==> record_ident(*b, m2) != x@,
        },
{
    if b.name == *x {
        return Some(0);
    }
    let mut bm: usize = 0;
    while bm < b.aliases.len()
        invariant
            0 <= bm <= b.aliases.len(),
            forall|m2: int| 0 <= m2 <= bm ==> record_ident(*b, m2) != x@,
        decreases b.aliases.len() - bm,
    {
        if b.aliases[bm] == *x {
            proof {
                assert(record_ident(*b, bm + 1) == x@);
            }
            return Some(bm + 1);
        }
        bm += 1;
    }
    None
}

/// Whether two distinct sibling records claim a common identifier.
fn find_shared_ident(a: &Record, b: &Record) -> (r: Option<(usize, usize)>)
    ensures
        match r {
            Some((m1, m2)) => m1 < record_ident_count(*a) && m2 < record_ident_count(*b)
                && record_ident(*a, m1 as int) == record_ident(*b, m2 as int),
            None => forall|m1: int, m2: int|
                0 <= m1 < record_ident_count(*a) && 0 <= m2 < record_ident_count(*b)
                    ==> record_ident(*a, m1) != record_ident(*b, m2),
        },
{
    if let Some(m2) = find_ident_in(b, &a.name) {
        return Some((0, m2));
    }
    let mut am: usize = 0;
    while am < a.aliases.len()
        invariant
            0 <= am <= a.aliases.len(),
            forall|m1: int, m2: int|
                0 <= m1 <= am && 0 <= m2 < record_ident_count(*b) ==> record_ident(*a, m1)
                    != record_ident(*b, m2),
        decreases a.aliases.len() - am,
    {
        if let Some(m2) = find_ident_in(b, &a.aliases[am]) {
            proof {
                assert(record_ident(*a, am + 1) == a.aliases@[am as int]@);
            }
            return Some((am + 1, m2));
        }
        proof {
            assert(record_ident(*a, am + 1) == a.aliases@[am as int]@);
        }
        am += 1;
    }
    None
}

/// Whether one record claims the same identifier twice.
fn find_internal_dup(a: &Record) -> (r: Option<(usize, usize)>)
    ensures
        match r {
            Some((m1, m2)) => m1 < m2 < record_ident_count(*a) && record_ident(*a, m1 as int)
                == record_ident(*a, m2 as int),
            None => forall|m1: int, m2: int|
                0 <= m1 < m2 < record_ident_count(*a) ==> record_ident(*a, m1) != record_ident(
                    *a,
                    m2,
                ),
        },
{
    let mut am: usize = 0;
    while am < a.aliases.len()
        invariant
            0 <= am <= a.aliases.len(),
            forall|m2: int| 0 < m2 <= am ==> record_ident(*a, 0) != #[trigger] record_ident(*a, m2),
        decreases a.aliases.len() - am,
    {
        if a.name == a.aliases[am] {
            proof {
                assert(record_ident(*a, am + 1) == a.aliases@[am as int]@);
            }
            return Some((0, am + 1));
        }
        proof {
            assert(record_ident(*a, am + 1) == a.aliases@[am as int]@);
        }
        am += 1;
    }
    let mut x1: usize = 0;
    while x1 < a.aliases.len()
        invariant
            0 <= x1 <= a.aliases.len(),
            forall|m2: int| 0 < m2 < record_ident_count(*a) ==> record_ident(*a, 0)
                != #[trigger] record_ident(*a, m2),
            forall|m1: int, m2: int|
                0 < m1 <= x1 && m1 < m2 < record_ident_count(*a) ==> record_ident(*a, m1)
                    != record_ident(*a, m2),
        decreases a.aliases.len() - x1,
    {
        let mut x2: usize = x1 + 1;
        while x2 < a.aliases.len()
            invariant
                0 <= x1 < x2 <= a.aliases.len(),
                forall|m2: int| x1 + 1 < m2 <= x2 ==> record_ident(*a, x1 + 1)
                    != #[trigger] record_ident(*a, m2),
            decreases a.aliases.len() - x2,
        {
            if a.aliases[x1] == a.aliases[x2] {
                proof {
                    assert(record_ident(*a, x1 + 1) == a.aliases@[x1 as int]@);
                    assert(record_ident(*a, x2 + 1) == a.aliases@[x2 as int]@);
                }
                return Some((x1 + 1, x2 + 1));
            }
            proof {
                assert(record_ident(*a, x1 + 1) == a.aliases@[x1 as int]@);
                assert(record_ident(*a, x2 + 1) == a.aliases@[x2 as int]@);
            }
            x2 += 1;
        }
        x1 += 1;
    }
    None
}

/// Whether any pair of records with the same parent path (one record
/// paired with itself included) claims a common identifier.
pub open spec fn pair_collides(rs: Seq<Record>, i: int, j: int) -> bool {
    exists|m1: int, m2: int| collide_at(rs, i, j, m1, m2)
}

/// Scans the records for an identifier claimed twice within one sibling
/// set, returning a copy of the first such identifier found.
fn find_duplicate(records: &Vec<Record>) -> (r: Option<String>)
    ensures
        match r {
            Some(x) => has_collision(records@) && is_duplicate_ident(records@, x@),
            None => !has_collision(records@),
        },
{
    let n = records.len();
    let mut i: usize = 0;
    while i < n
        invariant
            0 <= i <= n,
            n == records.len(),
            forall|i2: int, j2: int| 0 <= i2 < i && i2 <= j2 < n ==> !pair_collides(
                records@,
                i2,
                j2,
            ),
        decreases n - i,
    {
        if let Some((m1, m2)) = find_internal_dup(&records[i]) {
            proof {
                assert(collide_at(records@, i as int, i as int, m1 as int, m2 as int));
            }
            return Some(record_ident_at(&records[i], m1).clone());
        }
        let mut j: usize = i + 1;
        while j < n
            invariant
                0 <= i < j <= n,
                n == records.len(),
                forall|i2: int, j2: int| 0 <= i2 < i && i2 <= j2 < n ==> !pair_collides(
                    records@,
                    i2,
                    j2,
                ),
                !pair_collides(records@, i as int, i as int),
                forall|j2: int| i < j2 < j ==> !pair_collides(records@, i as int, j2),
            decreases n - j,
        {
            if eq_string_vec(&records[i].parent_path, &records[j].parent_path) {
                if let Some((m1, m2)) = find_shared_ident(&records[i], &records[j]) {
                    proof {
                        assert(collide_at(records@, i as int, j as int, m1 as int, m2 as int));
                    }
                    return Some(record_ident_at(&records[i], m1).clone());
                }
            }
            proof {
                assert forall|m1: int, m2: int| !collide_at(records@, i as int, j as int, m1, m2)
                by {
                }
            }
            j += 1;
        }
        proof {
            assert forall|j2: int| i as int <= j2 < n implies !pair_collides(
                records@,
                i as int,
                j2,
            ) by {
            }
        }
        i += 1;
    }
    proof {
        assert forall|i2: int, j2: int, m1: int, m2: int| !collide_at(
            records@,
            i2,
            j2,
            m1,
            m2,
        ) by {
            if 0 <= i2 <= j2 < records@.len() {
                assert(!pair_collides(records@, i2, j2));
            }
        }
    }
    None
}

/// Fabricates the implicit application root that every assembled tree
/// starts with: a group that exists only to host the top-level commands.
pub struct AppGenerator {}

impl AppGenerator {
    /// Creates a generator.
    pub fn new() -> (r: Self)
        ensures
            r == (AppGenerator {  }),
    {
        AppGenerator {}
    }

    /// The implicit root group node.
    pub fn root_node(&self) -> (n: CommandNode)
        ensures
            is_root_node(n),
            n.children@.len() == 0,
    {
        CommandNode {
            name: "clawless".to_owned(),
            aliases: Vec::new(),
            kind: NodeKind::Group,
            doc: Documentation { short: String::new(), long: String::new() },
            schema: Schema { args: Vec::new() },
            executor: 0,
            children: Vec::new(),
        }
    }
}

/// How many entries of a boolean sequence are set.
pub open spec fn count_true(s: Seq<bool>) -> int
    decreases s.len(),
{
    if s.len() == 0 {
        0
    } else {
        count_true(s.drop_last()) + if s.last() {
            1int
        } else {
            0int
        }
    }
}

proof fn lemma_count_true_bounds(s: Seq<bool>)
    ensures
        0 <= count_true(s) <= s.len(),
    decreases s.len(),
{
    if s.len() > 0 {
        lemma_count_true_bounds(s.drop_last());
    }
}

proof fn lemma_count_true_update(s: Seq<bool>, k: int)
    requires
        0 <= k < s.len(),
        !s[k],
    ensures
        count_true(s.update(k, true)) == count_true(s) + 1,
    decreases s.len(),
{
    if k == s.len() - 1 {
        assert(s.update(k, true).drop_last() =~= s.drop_last());
    } else {
        assert(s.update(k, true).drop_last() =~= s.drop_last().update(k, true));
        lemma_count_true_update(s.drop_last(), k);
    }
}

proof fn lemma_count_true_full(s: Seq<bool>)
    requires
        count_true(s) == s.len(),
    ensures
        forall|k: int| 0 <= k < s.len() ==> s[k],
    decreases s.len(),
{
    if s.len() > 0 {
        lemma_count_true_bounds(s.drop_last());
        lemma_count_true_full(s.drop_last());
        assert forall|k: int| 0 <= k < s.len() implies s[k] by {
            if k < s.len() - 1 {
                assert(s.drop_last()[k]);
            }
        }
    }
}

/// A node's identifiers are exactly the identifiers of the record it was
/// assembled from.
proof fn lemma_node_record_idents(n: CommandNode, r: Record)
    requires
        node_matches_record(n, r),
    ensures
        node_ident_count(n) == record_ident_count(r),
        forall|m: int| 0 <= m < node_ident_count(n) ==> node_ident(n, m) == record_ident(r, m),
{
    assert(n.aliases.deep_view().len() == n.aliases@.len());
    assert(r.aliases.deep_view().len() == r.aliases@.len());
    assert forall|m: int| 0 <= m < node_ident_count(n) implies node_ident(n, m) == record_ident(
        r,
        m,
    ) by {
        if m > 0 {
            assert(n.aliases.deep_view()[m - 1] == n.aliases@[m - 1]@);
            assert(r.aliases.deep_view()[m - 1] == r.aliases@[m - 1]@);
        }
    }
}

/// How one assembled node hangs together with the record it came from and
/// the node it is attached under, during and after assembly.  `og[j]` is
/// the index of node `j`'s record, `po[j]` the index of its parent node.
pub open spec fn node_linked(
    rs: Seq<Record>,
    nodes: Seq<CommandNode>,
    paths: Seq<Vec<String>>,
    att: Seq<bool>,
    og: Seq<int>,
    po: Seq<int>,
    j: int,
) -> bool {
    &&& 0 <= og[j] < rs.len()
    &&& att[og[j]]
    &&& node_matches_record(nodes[j], rs[og[j]])
    &&& 0 <= po[j] < j
    &&& nodes[po[j]].kind is Group
    &&& nodes[po[j]].children@.contains(j as usize)
    &&& paths[j].deep_view() == paths[po[j]].deep_view().push(rs[og[j]].name@)
    &&& rs[og[j]].parent_path.deep_view() == paths[po[j]].deep_view()
}

/// Every record whose parent path is `p` has been attached.
pub open spec fn siblings_attached(rs: Seq<Record>, p: Seq<Seq<char>>, att: Seq<bool>) -> bool {
    forall|k: int|
        0 <= k < rs.len() && (#[trigger] rs[k]).parent_path.deep_view() == p ==> att[k]
}

/// The whole state of the assembly worklist: arena, per-node paths,
/// per-record attachment marks, and the ghost maps tying nodes to records
/// (`og`), records to nodes (`nf`), and nodes to their parents (`po`).
pub open spec fn build_inv(
    rs: Seq<Record>,
    nodes: Seq<CommandNode>,
    paths: Seq<Vec<String>>,
    att: Seq<bool>,
    og: Seq<int>,
    po: Seq<int>,
    nf: Seq<int>,
) -> bool {
    &&& nodes.len() <= usize::MAX as int
    &&& nodes.len() == paths.len()
    &&& nodes.len() == og.len()
    &&& nodes.len() == po.len()
    &&& att.len() == rs.len()
    &&& nf.len() == rs.len()
    &&& nodes.len() == 1 + count_true(att)
    &&& is_root_node(nodes[0])
    &&& paths[0].deep_view() == Seq::<Seq<char>>::empty()
    &&& wf_nodes(nodes)
    &&& forall|j: int| 1 <= j < nodes.len() ==> #[trigger] node_linked(rs, nodes, paths, att, og, po, j)
    &&& forall|k: int|
        0 <= k < rs.len() && att[k] ==> 1 <= #[trigger] nf[k] < nodes.len() && og[nf[k]] == k
            && resolvable(rs, rs[k].parent_path.deep_view())
    &&& forall|j: int, q: int|
        0 <= j < nodes.len() && 0 <= q < nodes[j].children@.len() ==> po[#[trigger] nodes[j].children@[q] as int] == j
    &&& forall|j: int|
        0 <= j < nodes.len() && (#[trigger] nodes[j]).kind is Group ==> resolvable(
            rs,
            paths[j].deep_view(),
        )
    &&& forall|j: int| 1 <= j < nodes.len() ==> nf[#[trigger] og[j]] == j
    &&& forall|j: int, q1: int, q2: int|
        #![trigger nodes[j].children@[q1], nodes[j].children@[q2]]
        0 <= j < nodes.len() && 0 <= q1 < q2 < nodes[j].children@.len()
            ==> og[nodes[j].children@[q1] as int] < og[nodes[j].children@[q2] as int]
}

/// One attachment step preserves the assembly invariant: pushing a fresh
/// node for record `k` under group node `i` and marking `k` attached.
#[verifier::rlimit(60)]
proof fn lemma_attach_step(
    rs: Seq<Record>,
    o_nodes: Seq<CommandNode>,
    o_paths: Seq<Vec<String>>,
    o_att: Seq<bool>,
    o_og: Seq<int>,
    o_po: Seq<int>,
    o_nf: Seq<int>,
    nodes: Seq<CommandNode>,
    paths: Seq<Vec<String>>,
    att: Seq<bool>,
    og: Seq<int>,
    po: Seq<int>,
    nf: Seq<int>,
    i: int,
    k: int,
    childv: CommandNode,
)
    requires
        build_inv(rs, o_nodes, o_paths, o_att, o_og, o_po, o_nf),
        !has_collision(rs),
        0 <= i < o_nodes.len(),
        o_nodes[i].kind is Group,
        0 <= k < rs.len(),
        !o_att[k],
        rs[k].parent_path.deep_view() == o_paths[i].deep_view(),
        node_matches_record(childv, rs[k]),
        childv.children@.len() == 0,
        nodes.len() == o_nodes.len() + 1,
        nodes.len() <= usize::MAX as int,
        forall|j: int| 0 <= j < o_nodes.len() && j != i ==> nodes[j] == o_nodes[j],
        nodes[o_nodes.len() as int] == childv,
        nodes[i].children@ == o_nodes[i].children@.push(o_nodes.len() as usize),
        nodes[i].name == o_nodes[i].name,
        nodes[i].aliases == o_nodes[i].aliases,
        nodes[i].kind == o_nodes[i].kind,
        nodes[i].doc.short == o_nodes[i].doc.short,
        nodes[i].doc.long == o_nodes[i].doc.long,
        nodes[i].schema.args == o_nodes[i].schema.args,
        nodes[i].executor == o_nodes[i].executor,
        paths.len() == o_paths.len() + 1,
        forall|j: int| 0 <= j < o_paths.len() ==> paths[j] == o_paths[j],
        paths[o_paths.len() as int].deep_view() == o_paths[i].deep_view().push(rs[k].name@),
        att == o_att.update(k, true),
        og == o_og.push(k),
        po == o_po.push(i),
        nf == o_nf.update(k, o_nodes.len() as int),
        count_true(att) == count_true(o_att) + 1,
        forall|q: int|
            0 <= q < o_nodes[i].children@.len() ==> o_og[#[trigger] o_nodes[i].children@[q] as int]
                < k,
    ensures
        build_inv(rs, nodes, paths, att, og, po, nf),
{
    let new_idx = o_nodes.len() as int;
    assert(node_ident(nodes[i], 0) == node_ident(o_nodes[i], 0));
    assert(forall|m: int|
        0 < m < node_ident_count(nodes[i]) ==> node_ident(nodes[i], m) == node_ident(
            o_nodes[i],
            m,
        ));
    // identifiers of untouched nodes are unchanged
    assert forall|c: int, m: int|
        0 <= c < o_nodes.len() && 0 <= m < node_ident_count(nodes[c]) implies node_ident_count(
        nodes[c],
    ) == node_ident_count(o_nodes[c]) && node_ident(nodes[c], m) == node_ident(o_nodes[c], m) by {
        if c != i {
            assert(nodes[c] == o_nodes[c]);
        }
    }
    // structural well-formedness
    assert(wf_child_indices(nodes)) by {
        assert forall|i2: int, k2: int|
            0 <= i2 < nodes.len() && 0 <= k2 < nodes[i2].children@.len() implies i2
            < #[trigger] nodes[i2].children@[k2] < nodes.len() by {
            if i2 == i {
                if k2 < o_nodes[i].children@.len() {
                    assert(nodes[i2].children@[k2] == o_nodes[i].children@[k2]);
                }
            } else if i2 == new_idx {
            } else {
                assert(nodes[i2] == o_nodes[i2]);
            }
        }
    }
    assert(wf_leaves(nodes)) by {
        assert forall|j: int|
            0 <= j < nodes.len() && (#[trigger] nodes[j]).kind is Leaf
                implies nodes[j].children@.len() == 0 by {
            if j != i && j != new_idx {
                assert(nodes[j] == o_nodes[j]);
            }
        }
    }
    // sibling uniqueness
    assert forall|j: int| 0 <= j < nodes.len() implies #[trigger] wf_unique_siblings_at(
        nodes,
        j,
    ) by {
        if j == new_idx {
            assert(nodes[j].children@.len() == 0);
        } else if j != i {
            assert(nodes[j] == o_nodes[j]);
            assert(wf_unique_siblings_at(o_nodes, j));
            assert forall|k1: int, m1: int, k2: int, m2: int|
                #![trigger node_ident(nodes[nodes[j].children@[k1] as int], m1), node_ident(nodes[nodes[j].children@[k2] as int], m2)]
                0 <= k1 < nodes[j].children@.len() && 0 <= k2 < nodes[j].children@.len() && 0 <= m1
                    < node_ident_count(nodes[nodes[j].children@[k1] as int]) && 0 <= m2
                    < node_ident_count(nodes[nodes[j].children@[k2] as int]) && (k1 != k2 || m1
                    != m2) implies node_ident(nodes[nodes[j].children@[k1] as int], m1)
                != node_ident(nodes[nodes[j].children@[k2] as int], m2) by {
                let c1 = nodes[j].children@[k1] as int;
                let c2 = nodes[j].children@[k2] as int;
                assert(c1 < o_nodes.len() && c2 < o_nodes.len());
                assert(node_ident(nodes[c1], m1) == node_ident(o_nodes[c1], m1));
                assert(node_ident(nodes[c2], m2) == node_ident(o_nodes[c2], m2));
            }
        } else {
            // node i gained the new child; its identifiers are those of
            // record k, and records that would become siblings are
            // collision-free
            let oc = o_nodes[i].children@.len() as int;
            lemma_node_record_idents(childv, rs[k]);
            assert forall|k1: int, m1: int, k2: int, m2: int|
                #![trigger node_ident(nodes[nodes[j].children@[k1] as int], m1), node_ident(nodes[nodes[j].children@[k2] as int], m2)]
                0 <= k1 < nodes[j].children@.len() && 0 <= k2 < nodes[j].children@.len() && 0 <= m1
                    < node_ident_count(nodes[nodes[j].children@[k1] as int]) && 0 <= m2
                    < node_ident_count(nodes[nodes[j].children@[k2] as int]) && (k1 != k2 || m1
                    != m2) implies node_ident(nodes[nodes[j].children@[k1] as int], m1)
                != node_ident(nodes[nodes[j].children@[k2] as int], m2) by {
                let c1 = nodes[j].children@[k1] as int;
                let c2 = nodes[j].children@[k2] as int;
                if k1 < oc && k2 < oc {
                    assert(nodes[j].children@[k1] == o_nodes[i].children@[k1]);
                    assert(nodes[j].children@[k2] == o_nodes[i].children@[k2]);
                    assert(wf_unique_siblings_at(o_nodes, i));
                    assert(node_ident(o_nodes[o_nodes[i].children@[k1] as int], m1) != node_ident(
                        o_nodes[o_nodes[i].children@[k2] as int],
                        m2,
                    ));
                } else if k1 == oc && k2 == oc {
                    // both are the new child: an internal duplicate would
                    // be a collision of record k with itself
                    assert(c1 == new_idx && c2 == new_idx);
                    if node_ident(nodes[c1], m1) == node_ident(nodes[c2], m2) {
                        assert(record_ident(rs[k], m1) == record_ident(rs[k], m2));
                        if m1 < m2 {
                            assert(collide_at(rs, k, k, m1, m2));
                        } else {
                            assert(collide_at(rs, k, k, m2, m1));
                        }
                        assert(false);
                    }
                } else {
                    // one is the new child, the other an earlier sibling:
                    // their records share a parent path, so a shared
                    // identifier would be a collision
                    let ko = if k1 < oc {
                        k1
                    } else {
                        k2
                    };
                    let mo = if k1 < oc {
                        m1
                    } else {
                        m2
                    };
                    let mn = if k1 < oc {
                        m2
                    } else {
                        m1
                    };
                    let co = nodes[j].children@[ko] as int;
                    assert(nodes[j].children@[ko] == o_nodes[i].children@[ko]);
                    assert(o_po[co] == i);
                    assert(node_linked(rs, o_nodes, o_paths, o_att, o_og, o_po, co));
                    let kr = o_og[co];
                    assert(o_att[kr]);
                    assert(kr != k);
                    assert(rs[kr].parent_path.deep_view() == o_paths[i].deep_view());
                    lemma_node_record_idents(o_nodes[co], rs[kr]);
                    assert(node_ident(nodes[co], mo) == record_ident(rs[kr], mo));
                    assert(node_ident(nodes[new_idx], mn) == record_ident(rs[k], mn));
                    if node_ident(nodes[c1], m1) == node_ident(nodes[c2], m2) {
                        assert(record_ident(rs[kr], mo) == record_ident(rs[k], mn));
                        if k < kr {
                            assert(collide_at(rs, k, kr, mn, mo));
                        } else {
                            assert(collide_at(rs, kr, k, mo, mn));
                        }
                        assert(false);
                    }
                }
            }
        }
    }
    // per-node linkage
    assert forall|j: int| 1 <= j < nodes.len() implies #[trigger] node_linked(
        rs,
        nodes,
        paths,
        att,
        og,
        po,
        j,
    ) by {
        if j < o_nodes.len() {
            assert(node_linked(rs, o_nodes, o_paths, o_att, o_og, o_po, j));
            assert(og[j] == o_og[j] && po[j] == o_po[j]);
            assert(o_og[j] != k);
            assert(att[o_og[j]]);
            if j != i {
                assert(nodes[j] == o_nodes[j]);
            }
            assert(node_matches_record(nodes[j], rs[og[j]]));
            if po[j] == i {
                let q = choose|q: int|
                    0 <= q < o_nodes[i].children@.len() && o_nodes[i].children@[q] == (j as usize);
                assert(nodes[i].children@[q] == (j as usize));
                assert(nodes[po[j]].children@.contains(j as usize));
            } else {
                assert(nodes[po[j]] == o_nodes[po[j]]);
            }
        } else {
            assert(j == new_idx);
            assert(og[j] == k && po[j] == i);
            assert(nodes[i].children@[o_nodes[i].children@.len() as int] == (new_idx as usize));
            assert(nodes[i].children@.contains(new_idx as usize));
        }
    }
    // record-to-node map
    assert forall|k2: int| 0 <= k2 < rs.len() && att[k2] implies 1 <= #[trigger] nf[k2]
        < nodes.len() && og[nf[k2]] == k2 && resolvable(rs, rs[k2].parent_path.deep_view()) by {
        if k2 == k {
            assert(nf[k] == new_idx);
            assert(resolvable(rs, o_paths[i].deep_view()));
        } else {
            assert(o_att[k2]);
            assert(nf[k2] == o_nf[k2]);
        }
    }
    // child-to-parent map
    assert forall|j: int, q: int|
        0 <= j < nodes.len() && 0 <= q < nodes[j].children@.len() implies po[#[trigger] nodes[j].children@[q] as int]
        == j by {
        if j == i {
            if q < o_nodes[i].children@.len() {
                assert(nodes[j].children@[q] == o_nodes[i].children@[q]);
                assert(o_po[o_nodes[i].children@[q] as int] == i);
            } else {
                assert(nodes[j].children@[q] == (new_idx as usize));
            }
        } else if j == new_idx {
        } else {
            assert(nodes[j] == o_nodes[j]);
            assert(o_po[o_nodes[j].children@[q] as int] == j);
        }
    }
    // groups carry resolvable paths
    assert forall|j: int|
        0 <= j < nodes.len() && (#[trigger] nodes[j]).kind is Group implies resolvable(
        rs,
        paths[j].deep_view(),
    ) by {
        if j < o_nodes.len() {
            if j != i {
                assert(nodes[j] == o_nodes[j]);
            }
            assert(resolvable(rs, o_paths[j].deep_view()));
        } else {
            assert(j == new_idx);
            assert(childv.kind == rs[k].kind);
            let p = paths[new_idx].deep_view();
            assert(p.drop_last() =~= o_paths[i].deep_view());
            assert(p.last() == rs[k].name@);
            assert(resolvable(rs, o_paths[i].deep_view()));
            assert(rs[k].parent_path.deep_view() == p.drop_last() && rs[k].name@ == p.last()
                && rs[k].kind is Group);
            assert(resolvable(rs, p));
        }
    }
    assert(is_root_node(nodes[0])) by {
        if i == 0 {
            assert(is_root_node(o_nodes[0]));
        } else {
            assert(nodes[0] == o_nodes[0]);
        }
    }
    // the node-to-record map stays inverse to the record-to-node map
    assert forall|j: int| 1 <= j < nodes.len() implies nf[#[trigger] og[j]] == j by {
        if j < o_nodes.len() {
            assert(node_linked(rs, o_nodes, o_paths, o_att, o_og, o_po, j));
            assert(o_og[j] != k);
        }
    }
    // children stay ordered by the index of their record
    assert forall|j: int, q1: int, q2: int|
        #![trigger nodes[j].children@[q1], nodes[j].children@[q2]]
        0 <= j < nodes.len() && 0 <= q1 < q2 < nodes[j].children@.len() implies og[nodes[j].children@[q1] as int]
        < og[nodes[j].children@[q2] as int] by {
        let oc = o_nodes[i].children@.len() as int;
        if j == i {
            if q2 < oc {
                assert(nodes[j].children@[q1] == o_nodes[i].children@[q1]);
                assert(nodes[j].children@[q2] == o_nodes[i].children@[q2]);
            } else {
                assert(q2 == oc);
                assert(nodes[j].children@[q1] == o_nodes[i].children@[q1]);
                assert(nodes[j].children@[q2] == (new_idx as usize));
                assert(o_og[o_nodes[i].children@[q1] as int] < k);
            }
        } else if j == new_idx {
        } else {
            assert(nodes[j] == o_nodes[j]);
        }
    }
}

proof fn lemma_find_child_props(reg: Seq<CommandNode>, at: int, name: Seq<char>, k: int)
    requires
        0 <= at < reg.len(),
        0 <= k,
    ensures
        match find_child_by_name_from(reg, at, name, k) {
            Some(c) => exists|kk: int|
                k <= kk < reg[at].children@.len() && #[trigger] reg[at].children@[kk] == c
                    && reg[c].name@ == name,
            None => forall|kk: int|
                k <= kk < reg[at].children@.len() ==> reg[#[trigger] reg[at].children@[kk] as int].name@
                    != name,
        },
    decreases reg[at].children@.len() - k,
{
    if k < reg[at].children@.len() {
        if reg[reg[at].children@[k] as int].name@ != name {
            lemma_find_child_props(reg, at, name, k + 1);
        }
    }
}

proof fn lemma_find_node_snoc(reg: Seq<CommandNode>, at: int, p: Seq<Seq<char>>, x: Seq<char>)
    ensures
        find_node_spec(reg, at, p.push(x)) == (match find_node_spec(reg, at, p) {
            Some(t) => find_child_by_name_from(reg, t, x, 0),
            None => None::<int>,
        }),
    decreases p.len(),
{
    if p.len() == 0 {
        assert(p.push(x)[0] == x);
        assert(p.push(x).drop_first() =~= Seq::<Seq<char>>::empty());
        match find_child_by_name_from(reg, at, x, 0) {
            Some(c) => {
                assert(find_node_spec(reg, c, p.push(x).drop_first()) == Some(c));
            },
            None => {},
        }
    } else {
        assert(p.push(x)[0] == p[0]);
        assert(p.push(x).drop_first() =~= p.drop_first().push(x));
        match find_child_by_name_from(reg, at, p[0], 0) {
            Some(c) => {
                lemma_find_node_snoc(reg, c, p.drop_first(), x);
                assert(find_node_spec(reg, at, p.push(x)) == find_node_spec(
                    reg,
                    c,
                    p.drop_first().push(x),
                ));
                assert(find_node_spec(reg, at, p) == find_node_spec(reg, c, p.drop_first()));
            },
            None => {},
        }
    }
}

/// During assembly, the path recorded for each node leads back to exactly
/// that node when followed from the root.
proof fn lemma_path_finds_node(
    rs: Seq<Record>,
    nodes: Seq<CommandNode>,
    paths: Seq<Vec<String>>,
    att: Seq<bool>,
    og: Seq<int>,
    po: Seq<int>,
    nf: Seq<int>,
    j: int,
)
    requires
        build_inv(rs, nodes, paths, att, og, po, nf),
        0 <= j < nodes.len(),
    ensures
        find_node_spec(nodes, 0, paths[j].deep_view()) == Some(j),
    decreases j,
{
    if j == 0 {
    } else {
        assert(node_linked(rs, nodes, paths, att, og, po, j));
        let pi = po[j];
        let name = rs[og[j]].name@;
        lemma_path_finds_node(rs, nodes, paths, att, og, po, nf, pi);
        lemma_find_node_snoc(nodes, 0, paths[pi].deep_view(), name);
        lemma_find_child_props(nodes, pi, name, 0);
        let q = choose|q: int| 0 <= q < nodes[pi].children@.len() && nodes[pi].children@[q] == (
        j as usize);
        assert(nodes[pi].children@[q] as int == j);
        assert(node_ident(nodes[j], 0) == name);
        match find_child_by_name_from(nodes, pi, name, 0) {
            Some(c) => {
                if c != j {
                    let kk = choose|kk: int|
                        0 <= kk < nodes[pi].children@.len() && #[trigger] nodes[pi].children@[kk]
                            == c && nodes[c].name@ == name;
                    assert(wf_unique_siblings_at(nodes, pi));
                    assert(node_ident(nodes[nodes[pi].children@[kk] as int], 0) == node_ident(
                        nodes[nodes[pi].children@[q] as int],
                        0,
                    ));
                    assert(false);
                }
            },
            None => {
                assert(nodes[nodes[pi].children@[q] as int].name@ == name);
                assert(false);
            },
        }
    }
}

/// Once the worklist is exhausted, every resolvable path is realised by a
/// processed group node.
proof fn lemma_resolvable_has_node(
    rs: Seq<Record>,
    nodes: Seq<CommandNode>,
    paths: Seq<Vec<String>>,
    att: Seq<bool>,
    og: Seq<int>,
    po: Seq<int>,
    nf: Seq<int>,
    p: Seq<Seq<char>>,
)
    requires
        build_inv(rs, nodes, paths, att, og, po, nf),
        forall|j: int|
            0 <= j < nodes.len() && (#[trigger] nodes[j]).kind is Group ==> siblings_attached(
                rs,
                paths[j].deep_view(),
                att,
            ),
        resolvable(rs, p),
    ensures
        exists|j: int|
            0 <= j < nodes.len() && (#[trigger] paths[j]).deep_view() == p && nodes[j].kind
                is Group,
    decreases p.len(),
{
    if p.len() == 0 {
        assert(paths[0].deep_view() == p);
    } else {
        lemma_resolvable_has_node(rs, nodes, paths, att, og, po, nf, p.drop_last());
        let j0 = choose|j0: int|
            0 <= j0 < nodes.len() && (#[trigger] paths[j0]).deep_view() == p.drop_last()
                && nodes[j0].kind is Group;
        let m = choose|m: int|
            0 <= m < rs.len() && (#[trigger] rs[m]).parent_path.deep_view() == p.drop_last()
                && rs[m].name@ == p.last() && rs[m].kind is Group;
        assert(siblings_attached(rs, paths[j0].deep_view(), att));
        assert(att[m]);
        let j1 = nf[m];
        assert(node_linked(rs, nodes, paths, att, og, po, j1));
        assert(paths[j1].deep_view() == rs[m].parent_path.deep_view().push(rs[m].name@));
        assert(p.drop_last().push(p.last()) =~= p);
        assert(nodes[j1].kind == rs[m].kind);
    }
}

/// With collision-free records, no two assembled nodes share a path.
proof fn lemma_paths_unique(
    rs: Seq<Record>,
    nodes: Seq<CommandNode>,
    paths: Seq<Vec<String>>,
    att: Seq<bool>,
    og: Seq<int>,
    po: Seq<int>,
    nf: Seq<int>,
    j1: int,
    j2: int,
)
    requires
        build_inv(rs, nodes, paths, att, og, po, nf),
        !has_collision(rs),
        0 <= j1 < nodes.len(),
        0 <= j2 < nodes.len(),
        j1 != j2,
    ensures
        paths[j1].deep_view() != paths[j2].deep_view(),
{
    if j1 == 0 || j2 == 0 {
        let jn = if j1 == 0 {
            j2
        } else {
            j1
        };
        assert(node_linked(rs, nodes, paths, att, og, po, jn));
        assert(paths[jn].deep_view().len() >= 1);
    } else {
        assert(node_linked(rs, nodes, paths, att, og, po, j1));
        assert(node_linked(rs, nodes, paths, att, og, po, j2));
        if paths[j1].deep_view() == paths[j2].deep_view() {
            let k1 = og[j1];
            let k2 = og[j2];
            assert(nf[k1] == j1 && nf[k2] == j2);
            assert(k1 != k2);
            let p1 = paths[po[j1]].deep_view();
            let p2 = paths[po[j2]].deep_view();
            assert(p1.push(rs[k1].name@) == p2.push(rs[k2].name@));
            assert(p1 =~= p1.push(rs[k1].name@).drop_last());
            assert(p2 =~= p2.push(rs[k2].name@).drop_last());
            assert(p1 == p2);
            assert(rs[k1].name@ == p1.push(rs[k1].name@).last());
            assert(rs[k1].name@ == rs[k2].name@);
            assert(rs[k1].parent_path.deep_view() == rs[k2].parent_path.deep_view());
            assert(record_ident(rs[k1], 0) == record_ident(rs[k2], 0));
            if k1 < k2 {
                assert(collide_at(rs, k1, k2, 0, 0));
            } else {
                assert(collide_at(rs, k2, k1, 0, 0));
            }
            assert(false);
        }
    }
}

proof fn lemma_count_true_all(s: Seq<bool>)
    requires
        forall|k: int| 0 <= k < s.len() ==> s[k],
    ensures
        count_true(s) == s.len(),
    decreases s.len(),
{
    if s.len() > 0 {
        lemma_count_true_all(s.drop_last());
    }
}

/// Builds a childless node carrying a record's payload.
fn node_from_record(r: &Record) -> (n: CommandNode)
    ensures
        node_matches_record(n, *r),
        n.children@.len() == 0,
{
    CommandNode {
        name: r.name.clone(),
        aliases: clone_string_vec(&r.aliases),
        kind: r.kind,
        doc: r.doc.duplicate(),
        schema: r.schema.duplicate(),
        executor: r.executor,
        children: Vec::new(),
    }
}

/// The process-wide registry: the assembled, immutable command tree.
///
/// The tree lives in an arena of nodes; the node at index zero is the
/// implicit application root group, and every other node was assembled
/// from exactly one registration record.  A registry can only be built by
/// `assemble`, so every registry is well-formed.
pub struct Registry {
    nodes: Vec<CommandNode>,
}

impl View for Registry {
    type V = Seq<CommandNode>;

    closed spec fn view(&self) -> Seq<CommandNode> {
        self.nodes@
    }
}

impl Registry {
    #[verifier::type_invariant]
    pub(crate) open spec fn type_inv(&self) -> bool {
        wf_nodes(self@)
    }

    /// Every assembled registry is well-formed.
    pub fn check_well_formed(&self) -> (r: bool)
        ensures
            r,
            wf_nodes(self@),
    {
        proof {
            use_type_invariant(self);
        }
        true
    }

    /// The number of nodes in the tree, the root included.
    pub fn node_count(&self) -> (r: usize)
        ensures
            r == self@.len(),
    {
        self.nodes.len()
    }

    /// Assembles the flat registration records into the command tree.
    ///
    /// The records are grouped by parent path and wired, parents before
    /// children, into an arena rooted at the implicit application root
    /// group; sibling order is registration order.  Assembly fails with
    /// `DuplicateName` when two records that would become siblings claim
    /// the same name or alias (one record claiming an identifier twice
    /// included), and with `DanglingParent` when, the names being
    /// collision-free, some record's parent path does not resolve to a
    /// chain of registered group records.  On success every record appears
    /// in the tree, attached under the node its parent path names.
    pub fn assemble(records: Vec<Record>) -> (r: Result<Registry, ConfigurationError>)
        ensures
            match r {
                Ok(reg) => {
                    &&& !has_collision(records@)
                    &&& !has_dangling(records@)
                    &&& wf_nodes(reg@)
                    &&& reg@.len() == records@.len() + 1
                    &&& is_root_node(reg@[0])
                    &&& forall|k: int|
                        0 <= k < records@.len() ==> record_placed(reg@, #[trigger] records@[k])
                    &&& forall|j: int|
                        1 <= j < reg@.len() ==> #[trigger] node_from_some_record(
                            reg@,
                            records@,
                            j,
                        )
                    &&& forall|k1: int, k2: int|
                        0 <= k1 < k2 < records@.len() && (
                        #[trigger] records@[k1]).parent_path.deep_view() == (
                        #[trigger] records@[k2]).parent_path.deep_view() ==> placed_in_order(
                            reg@,
                            records@[k1],
                            records@[k2],
                        )
                },
                Err(ConfigurationError::DuplicateName { identifier }) => has_collision(records@)
                    && is_duplicate_ident(records@, identifier@),
                Err(ConfigurationError::DanglingParent { parent_path, name }) => {
                    &&& !has_collision(records@)
                    &&& has_dangling(records@)
                    &&& !resolvable(records@, parent_path.deep_view())
                    &&& exists|k: int|
                        0 <= k < records@.len() && (#[trigger] records@[k]).parent_path.deep_view()
                            == parent_path.deep_view() && records@[k].name@ == name@
                },
            },
    {
        if let Some(identifier) = find_duplicate(&records) {
            return Err(ConfigurationError::DuplicateName { identifier });
        }
        let n = records.len();
        let mut nodes: Vec<CommandNode> = Vec::new();
        nodes.push(AppGenerator::new().root_node());
        let mut paths: Vec<Vec<String>> = Vec::new();
        paths.push(Vec::new());
        let mut attached: Vec<bool> = Vec::new();
        while attached.len() < n
            invariant
                attached.len() <= n,
                count_true(attached@) == 0,
                forall|k: int| 0 <= k < attached@.len() ==> !attached@[k],
            decreases n - attached.len(),
        {
            let ghost old_att = attached@;
            attached.push(false);
            proof {
                assert(attached@.drop_last() =~= old_att);
            }
        }
        let mut attached_count: usize = 0;
        let ghost mut og: Seq<int> = seq![-1int];
        let ghost mut po: Seq<int> = seq![-1int];
        let ghost mut nf: Seq<int> = Seq::new(n as nat, |k: int| -1int);
        proof {
            assert(paths@[0].deep_view() =~= Seq::<Seq<char>>::empty());
            assert(build_inv(records@, nodes@, paths@, attached@, og, po, nf));
        }
        let mut i: usize = 0;
        while i < nodes.len()
            invariant
                n == records.len(),
                0 <= i <= nodes@.len(),
                nodes@.len() == 1 + attached_count,
                attached_count <= n,
                build_inv(records@, nodes@, paths@, attached@, og, po, nf),
                forall|j: int|
                    0 <= j < i && (#[trigger] nodes@[j]).kind is Group ==> siblings_attached(
                        records@,
                        paths@[j].deep_view(),
                        attached@,
                    ),
                forall|j: int|
                    i <= j < nodes@.len() ==> (#[trigger] nodes@[j]).children@.len() == 0,
                !has_collision(records@),
            decreases records@.len() + 1 - i,
        {
            let is_group = match nodes[i].kind {
                NodeKind::Group => true,
                NodeKind::Leaf => false,
            };
            if is_group {
                let mut k: usize = 0;
                while k < n
                    invariant
                        n == records.len(),
                        0 <= i < nodes@.len(),
                        nodes@[i as int].kind is Group,
                        nodes@.len() == 1 + attached_count,
                        attached_count <= n,
                        0 <= k <= n,
                        build_inv(records@, nodes@, paths@, attached@, og, po, nf),
                        forall|j: int|
                            0 <= j < i && (#[trigger] nodes@[j]).kind is Group
                                ==> siblings_attached(
                                records@,
                                paths@[j].deep_view(),
                                attached@,
                            ),
                        forall|k2: int|
                            0 <= k2 < k && (#[trigger] records@[k2]).parent_path.deep_view()
                                == paths@[i as int].deep_view() ==> attached@[k2],
                        forall|j: int|
                            i < j < nodes@.len() ==> (#[trigger] nodes@[j]).children@.len() == 0,
                        forall|q: int|
                            0 <= q < nodes@[i as int].children@.len() ==> og[#[trigger] nodes@[i as int].children@[q] as int]
                                < k,
                        !has_collision(records@),
                    decreases n - k,
                {
                    let parent_matches = eq_string_vec(&records[k].parent_path, &paths[i]);
                    if !attached[k] && parent_matches {
                        let ghost old_nodes = nodes@;
                        let ghost old_paths = paths@;
                        let ghost old_att = attached@;
                        let ghost old_og = og;
                        let ghost old_po = po;
                        let ghost old_nf = nf;
                        proof {
                            lemma_count_true_update(old_att, k as int);
                            lemma_count_true_bounds(old_att.update(k as int, true));
                        }
                        let new_idx = nodes.len();
                        let child = node_from_record(&records[k]);
                        let ghost childv = child;
                        nodes.push(child);
                        let new_len = nodes.len();
                        let mut child_path = clone_string_vec(&paths[i]);
                        child_path.push(records[k].name.clone());
                        let ghost cpdv = child_path.deep_view();
                        paths.push(child_path);
                        attached[k] = true;
                        attached_count += 1;
                        nodes[i].children.push(new_idx);
                        proof {
                            og = og.push(k as int);
                            po = po.push(i as int);
                            nf = nf.update(k as int, new_idx as int);
                            assert(attached@ =~= old_att.update(k as int, true));
                            assert(cpdv =~= old_paths[i as int].deep_view().push(
                                records@[k as int].name@,
                            ));
                            lemma_attach_step(
                                records@,
                                old_nodes,
                                old_paths,
                                old_att,
                                old_og,
                                old_po,
                                old_nf,
                                nodes@,
                                paths@,
                                attached@,
                                og,
                                po,
                                nf,
                                i as int,
                                k as int,
                                childv,
                            );
                        }
                    }
                    k += 1;
                }
            }
            i += 1;
        }
        if attached_count == n {
            proof {
                lemma_count_true_full(attached@);
                assert forall|k: int| 0 <= k < records@.len() implies record_placed(
                    nodes@,
                    #[trigger] records@[k],
                ) by {
                    assert(attached@[k]);
                    let j = nf[k];
                    assert(node_linked(records@, nodes@, paths@, attached@, og, po, j));
                    lemma_path_finds_node(records@, nodes@, paths@, attached@, og, po, nf, po[j]);
                    let q = choose|q: int|
                        0 <= q < nodes@[po[j]].children@.len() && nodes@[po[j]].children@[q] == (
                        j as usize);
                    assert(find_node_spec(nodes@, 0, records@[k].parent_path.deep_view()) == Some(
                        po[j],
                    ));
                    assert(node_matches_record(
                        nodes@[nodes@[po[j]].children@[q] as int],
                        records@[k],
                    ));
                }
                assert forall|j: int| 1 <= j < nodes@.len() implies node_from_some_record(
                    nodes@,
                    records@,
                    j,
                ) by {
                    assert(node_linked(records@, nodes@, paths@, attached@, og, po, j));
                    assert(node_matches_record(nodes@[j], records@[og[j]]));
                }
                assert forall|k1: int, k2: int|
                    0 <= k1 < k2 < records@.len() && (
                #[trigger] records@[k1]).parent_path.deep_view() == (
                #[trigger] records@[k2]).parent_path.deep_view() implies placed_in_order(
                    nodes@,
                    records@[k1],
                    records@[k2],
                ) by {
                    assert(attached@[k1] && attached@[k2]);
                    let j1 = nf[k1];
                    let j2 = nf[k2];
                    assert(node_linked(records@, nodes@, paths@, attached@, og, po, j1));
                    assert(node_linked(records@, nodes@, paths@, attached@, og, po, j2));
                    assert(og[j1] == k1 && og[j2] == k2);
                    assert(j1 != j2);
                    let pi1 = po[j1];
                    let pi2 = po[j2];
                    if pi1 != pi2 {
                        lemma_paths_unique(
                            records@,
                            nodes@,
                            paths@,
                            attached@,
                            og,
                            po,
                            nf,
                            pi1,
                            pi2,
                        );
                        assert(false);
                    }
                    lemma_path_finds_node(records@, nodes@, paths@, attached@, og, po, nf, pi1);
                    let q1 = choose|q: int|
                        0 <= q < nodes@[pi1].children@.len() && nodes@[pi1].children@[q] == (
                        j1 as usize);
                    let q2 = choose|q: int|
                        0 <= q < nodes@[pi1].children@.len() && nodes@[pi1].children@[q] == (
                        j2 as usize);
                    assert(nodes@[pi1].children@[q1] as int == j1);
                    assert(nodes@[pi1].children@[q2] as int == j2);
                    if q1 == q2 {
                        assert(false);
                    }
                    if q2 < q1 {
                        assert(og[nodes@[pi1].children@[q2] as int] < og[nodes@[pi1].children@[q1] as int]);
                        assert(false);
                    }
                    assert(find_node_spec(nodes@, 0, records@[k1].parent_path.deep_view())
                        == Some(pi1));
                    assert(node_matches_record(
                        nodes@[nodes@[pi1].children@[q1] as int],
                        records@[k1],
                    ));
                    assert(node_matches_record(
                        nodes@[nodes@[pi1].children@[q2] as int],
                        records@[k2],
                    ));
                }
                assert(!has_dangling(records@)) by {
                    assert forall|k: int|
                        0 <= k < records@.len() implies resolvable(
                        records@,
                        (#[trigger] records@[k]).parent_path.deep_view(),
                    ) by {
                        assert(attached@[k]);
                        assert(1 <= nf[k] < nodes@.len());
                    }
                }
            }
            Ok(Registry { nodes })
        } else {
            let mut k: usize = 0;
            while k < n
                invariant
                    n == records.len(),
                    0 <= k <= n,
                    attached@.len() == n,
                    forall|k2: int| 0 <= k2 < k ==> attached@[k2],
                    nodes@.len() == 1 + attached_count,
                    attached_count < n,
                    build_inv(records@, nodes@, paths@, attached@, og, po, nf),
                    forall|j: int|
                        0 <= j < nodes@.len() && (#[trigger] nodes@[j]).kind is Group
                            ==> siblings_attached(records@, paths@[j].deep_view(), attached@),
                    !has_collision(records@),
                decreases n - k,
            {
                if !attached[k] {
                    proof {
                        if resolvable(records@, records@[k as int].parent_path.deep_view()) {
                            lemma_resolvable_has_node(
                                records@,
                                nodes@,
                                paths@,
                                attached@,
                                og,
                                po,
                                nf,
                                records@[k as int].parent_path.deep_view(),
                            );
                            let j = choose|j: int|
                                0 <= j < nodes@.len() && (#[trigger] paths@[j]).deep_view()
                                    == records@[k as int].parent_path.deep_view()
                                    && nodes@[j].kind is Group;
                            assert(siblings_attached(records@, paths@[j].deep_view(), attached@));
                            assert(false);
                        }
                    }
                    return Err(ConfigurationError::DanglingParent {
                        parent_path: clone_string_vec(&records[k].parent_path),
                        name: records[k].name.clone(),
                    });
                }
                k += 1;
            }
            proof {
                lemma_count_true_all(attached@);
                assert(false);
            }
            vstd::pervasive::unreached()
        }
    }

    /// A read-only view of the node at `index`.
    pub fn node(&self, index: usize) -> (r: &CommandNode)
        requires
            index < self@.len(),
        ensures
            *r == self@[index as int],
    {
        &self.nodes[index]
    }
}

/// Whether two records that share a parent path keep their registration
/// order among the children of that parent's node: the node carrying the
/// first record's payload stands at an earlier child position than the
/// node carrying the second's.
pub open spec fn placed_in_order(reg: Seq<CommandNode>, r1: Record, r2: Record) -> bool {
    exists|pi: int, q1: int, q2: int|
        {
            &&& find_node_spec(reg, 0, r1.parent_path.deep_view()) == Some(pi)
            &&& 0 <= pi < reg.len()
            &&& 0 <= q1 < q2 < reg[pi].children@.len()
            &&& node_matches_record(reg[#[trigger] reg[pi].children@[q1] as int], r1)
            &&& node_matches_record(reg[#[trigger] reg[pi].children@[q2] as int], r2)
        }
}

/// Whether node `j` of the arena carries the payload of one of the
/// records.
pub open spec fn node_from_some_record(reg: Seq<CommandNode>, rs: Seq<Record>, j: int) -> bool {
    exists|k: int| 0 <= k < rs.len() && node_matches_record(reg[j], #[trigger] rs[k])
}

/// Whether record `r` found its place in the assembled arena: its parent
/// path leads to a node whose children include a node carrying exactly
/// `r`'s payload.
pub open spec fn record_placed(reg: Seq<CommandNode>, r: Record) -> bool {
    exists|pi: int, k: int|
        {
            &&& find_node_spec(reg, 0, r.parent_path.deep_view()) == Some(pi)
            &&& 0 <= pi < reg.len()
            &&& 0 <= k < reg[pi].children@.len()
            &&& node_matches_record(reg[#[trigger] reg[pi].children@[k] as int], r)
        }
}

impl Registry {
    /// Resolves `argv` against the tree, starting at the root.
    ///
    /// The tokens are the sub-path part of the command line; matching is
    /// exact, a child's name being checked before its aliases.  No handler
    /// is invoked: the driver acts on the returned outcome.
    pub fn resolve(&self, argv: &Vec<String>) -> (r: Resolution)
        ensures
            resolution_matches(
                self@,
                r,
                resolve_model(self@, 0, Seq::empty(), argv.deep_view()),
            ),
    {
        proof {
            use_type_invariant(self);
            assert(argv.deep_view().skip(0) =~= argv.deep_view());
        }
        let mut at: usize = 0;
        let mut path: Vec<String> = Vec::new();
        let mut pos: usize = 0;
        let n = argv.len();
        proof {
            assert(path.deep_view() =~= Seq::<Seq<char>>::empty());
        }
        while pos < n
            invariant
                wf_nodes(self@),
                at < self@.len(),
                0 <= pos <= n,
                n == argv.len(),
                resolve_model(self@, 0, Seq::empty(), argv.deep_view()) == resolve_model(
                    self@,
                    at as int,
                    path.deep_view(),
                    argv.deep_view().skip(pos as int),
                ),
            decreases n - pos,
        {
            let tok = &argv[pos];
            proof {
                assert(argv.deep_view().skip(pos as int)[0] == tok@);
            }
            match self.first_matching_child(at, tok) {
                Some(c) => {
                    let ghost old_path = path.deep_view();
                    path.push(tok.clone());
                    proof {
                        assert(path.deep_view() =~= old_path.push(tok@));
                        assert(argv.deep_view().skip(pos as int).drop_first()
                            =~= argv.deep_view().skip(pos as int + 1));
                    }
                    at = c;
                    pos += 1;
                },
                None => {
                    return Resolution::UnknownToken { path, token: tok.clone() };
                },
            }
        }
        proof {
            assert(argv.deep_view().skip(pos as int) =~= Seq::<Seq<char>>::empty());
        }
        let node = self.node(at);
        match node.kind {
            NodeKind::Leaf => Resolution::Resolved {
                node: at,
                executor: node.executor,
                leftover: Vec::new(),
            },
            NodeKind::Group => {
                let mut available: Vec<String> = Vec::new();
                let count = node.children.len();
                let mut k: usize = 0;
                while k < count
                    invariant
                        wf_nodes(self@),
                        at < self@.len(),
                        0 <= k <= count,
                        count == self@[at as int].children@.len(),
                        available.len() == k,
                        forall|j: int|
                            0 <= j < k ==> available.deep_view()[j] == children_names(
                                self@,
                                at as int,
                            )[j],
                    decreases count - k,
                {
                    let c = self.node(at).children[k];
                    let ghost old_available = available.deep_view();
                    available.push(self.node(c).name.clone());
                    proof {
                        assert(available.deep_view() =~= old_available.push(
                            self@[c as int].name@,
                        ));
                    }
                    k += 1;
                }
                proof {
                    assert(available.deep_view() =~= children_names(self@, at as int));
                }
                Resolution::AmbiguousOrMissingChild { node: at, path, available }
            },
        }
    }
}

/// A record occupies a single place in an assembled tree: under any one
/// node, at most one child carries its payload, since siblings never share
/// a name.
pub proof fn lemma_record_placed_unique(
    reg: Seq<CommandNode>,
    r: Record,
    pi: int,
    k1: int,
    k2: int,
)
    requires
        wf_nodes(reg),
        0 <= pi < reg.len(),
        0 <= k1 < reg[pi].children@.len(),
        0 <= k2 < reg[pi].children@.len(),
        node_matches_record(reg[#[trigger] reg[pi].children@[k1] as int], r),
        node_matches_record(reg[#[trigger] reg[pi].children@[k2] as int], r),
    ensures
        k1 == k2,
{
    if k1 != k2 {
        assert(wf_unique_siblings_at(reg, pi));
        assert(node_ident(reg[reg[pi].children@[k1] as int], 0) == node_ident(
            reg[reg[pi].children@[k2] as int],
            0,
        ));
        assert(false);
    }
}

} // verus!
