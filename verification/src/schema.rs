//! Schema composition: the argument shape of every node, composed with the
//! schemas advertised by its children, as needed to render combined help
//! and usage text.
//!
//! Building a schema is pure: it reads the assembled tree and produces a
//! fresh schema tree, so building it twice yields identical trees.

use vstd::prelude::*;

use crate::registry::{
    clone_string_vec, find_node_spec, wf_child_indices, wf_nodes, CommandNode, NodeKind, Registry,
};

verus! {

/// One node of the composed schema tree: the node's own argument shape
/// together with its description strings, aliases, and the schemas of its
/// subcommands.
#[derive(Debug)]
pub struct SchemaNode {
    pub name: String,
    pub aliases: Vec<String>,
    pub about: String,
    pub long_about: String,
    pub args: Vec<String>,
    pub require_subcommand: bool,
    pub subcommands: Vec<SchemaNode>,
}

/// The abstract value of a schema tree, over views.
pub struct SchemaModel {
    pub name: Seq<char>,
    pub aliases: Seq<Seq<char>>,
    pub about: Seq<char>,
    pub long_about: Seq<char>,
    pub args: Seq<Seq<char>>,
    pub require_subcommand: bool,
    pub subcommands: Seq<SchemaModel>,
}

/// The abstract value of a schema node.
pub open spec fn schema_view(n: SchemaNode) -> SchemaModel
    decreases n,
{
    SchemaModel {
        name: n.name@,
        aliases: n.aliases.deep_view(),
        about: n.about@,
        long_about: n.long_about@,
        args: n.args.deep_view(),
        require_subcommand: n.require_subcommand,
        subcommands: schema_views(n.subcommands@),
    }
}

/// The abstract values of a sequence of schema nodes.
pub open spec fn schema_views(s: Seq<SchemaNode>) -> Seq<SchemaModel>
    decreases s,
{
    if s.len() == 0 {
        Seq::empty()
    } else {
        seq![schema_view(s[0])] + schema_views(s.drop_first())
    }
}

proof fn lemma_schema_views_index(s: Seq<SchemaNode>)
    ensures
        schema_views(s).len() == s.len(),
        forall|i: int| 0 <= i < s.len() ==> schema_views(s)[i] == schema_view(#[trigger] s[i]),
    decreases s,
{
    if s.len() > 0 {
        lemma_schema_views_index(s.drop_first());
        assert forall|i: int| 0 <= i < s.len() implies schema_views(s)[i] == schema_view(
            #[trigger] s[i],
        ) by {
            if i > 0 {
                assert(s.drop_first()[i - 1] == s[i]);
                assert(schema_views(s)[i] == schema_views(s.drop_first())[i - 1]);
            }
        }
    }
}

/// The schemas of the children of `reg[at]`, scanning from position `k`.
pub open spec fn schema_model_children(reg: Seq<CommandNode>, at: int, k: int) -> Seq<SchemaModel>
    decreases reg.len() - at, reg[at].children@.len() - k,
        when 0 <= at < reg.len() && wf_child_indices(reg)
{
    if k < 0 || k >= reg[at].children@.len() {
        Seq::empty()
    } else {
        seq![schema_model_of(reg, reg[at].children@[k] as int)] + schema_model_children(
            reg,
            at,
            k + 1,
        )
    }
}

/// The schema tree that node `at` composes: its own declared argument
/// shape and descriptions, and recursively the schemas of its children.
pub open spec fn schema_model_of(reg: Seq<CommandNode>, at: int) -> SchemaModel
    decreases reg.len() - at, reg[at].children@.len() + 1,
        when 0 <= at < reg.len() && wf_child_indices(reg)
{
    SchemaModel {
        name: reg[at].name@,
        aliases: reg[at].aliases.deep_view(),
        about: reg[at].doc.short@,
        long_about: reg[at].doc.long@,
        args: reg[at].schema.args.deep_view(),
        require_subcommand: reg[at].kind is Group,
        subcommands: schema_model_children(reg, at, 0),
    }
}

proof fn lemma_schema_model_children_index(reg: Seq<CommandNode>, at: int, k: int)
    requires
        0 <= at < reg.len(),
        wf_child_indices(reg),
        0 <= k <= reg[at].children@.len(),
    ensures
        schema_model_children(reg, at, k).len() == reg[at].children@.len() - k,
        forall|j: int|
            k <= j < reg[at].children@.len() ==> schema_model_children(reg, at, k)[j - k]
                == schema_model_of(reg, #[trigger] reg[at].children@[j] as int),
    decreases reg[at].children@.len() - k,
{
    if k < reg[at].children@.len() {
        lemma_schema_model_children_index(reg, at, k + 1);
    }
}

impl Registry {
    /// Composes the schema tree of the node at `at`.
    fn schema_at(&self, at: usize) -> (r: SchemaNode)
        requires
            wf_nodes(self@),
            at < self@.len(),
        ensures
            schema_view(r) == schema_model_of(self@, at as int),
        decreases self@.len() - at,
    {
        let count = self.node(at).children.len();
        let mut subcommands: Vec<SchemaNode> = Vec::new();
        let mut k: usize = 0;
        while k < count
            invariant
                wf_nodes(self@),
                at < self@.len(),
                0 <= k <= count,
                count == self@[at as int].children@.len(),
                subcommands.len() == k,
                forall|j: int|
                    0 <= j < k ==> schema_view(#[trigger] subcommands@[j]) == schema_model_of(
                        self@,
                        self@[at as int].children@[j] as int,
                    ),
            decreases count - k,
        {
            let c = self.node(at).children[k];
            subcommands.push(self.schema_at(c));
            k += 1;
        }
        let node = self.node(at);
        let require_subcommand = match node.kind {
            NodeKind::Group => true,
            NodeKind::Leaf => false,
        };
        let r = SchemaNode {
            name: node.name.clone(),
            aliases: clone_string_vec(&node.aliases),
            about: node.doc.short.clone(),
            long_about: node.doc.long.clone(),
            args: clone_string_vec(&node.schema.args),
            require_subcommand,
            subcommands,
        };
        proof {
            lemma_schema_views_index(r.subcommands@);
            lemma_schema_model_children_index(self@, at as int, 0);
            assert forall|j: int| 0 <= j < r.subcommands@.len() implies schema_views(
                r.subcommands@,
            )[j] == schema_model_children(self@, at as int, 0)[j] by {
                assert(schema_views(r.subcommands@)[j] == schema_view(r.subcommands@[j]));
                assert(schema_model_children(self@, at as int, 0)[j] == schema_model_of(
                    self@,
                    self@[at as int].children@[j] as int,
                ));
            }
            assert(schema_views(r.subcommands@) =~= schema_model_children(self@, at as int, 0));
        }
        r
    }

    /// Composes the full schema tree, starting at the application root.
    ///
    /// Pure: the tree is read, never changed, so two calls yield identical
    /// schema trees.
    pub fn build_schema(&self) -> (r: SchemaNode)
        ensures
            schema_view(r) == schema_model_of(self@, 0),
    {
        proof {
            use_type_invariant(self);
        }
        self.schema_at(0)
    }

    /// The first child of node `at` whose name is `name`; names only,
    /// aliases are not consulted when following an explicit path.
    fn first_child_by_name(&self, at: usize, name: &String) -> (r: Option<usize>)
        requires
            wf_nodes(self@),
            at < self@.len(),
        ensures
            match r {
                Some(c) => crate::registry::find_child_by_name_from(self@, at as int, name@, 0)
                    == Some(c as int) && c < self@.len(),
                None => crate::registry::find_child_by_name_from(self@, at as int, name@, 0)
                    is None,
            },
    {
        let count = self.node(at).children.len();
        let mut k: usize = 0;
        while k < count
            invariant
                wf_nodes(self@),
                at < self@.len(),
                0 <= k <= count,
                count == self@[at as int].children@.len(),
                crate::registry::find_child_by_name_from(self@, at as int, name@, 0)
                    == crate::registry::find_child_by_name_from(self@, at as int, name@, k as int),
            decreases count - k,
        {
            let c = self.node(at).children[k];
            if self.node(c).name == *name {
                return Some(c);
            }
            k += 1;
        }
        None
    }

    /// Composes the schema tree of the node that `path` names, or reports
    /// that the path does not lead to a node.  Pure; callable before any
    /// dispatch.
    pub fn schema_for(&self, path: &Vec<String>) -> (r: Option<SchemaNode>)
        ensures
            match r {
                Some(s) => find_node_spec(self@, 0, path.deep_view()) matches Some(at)
                    && schema_view(s) == schema_model_of(self@, at),
                None => find_node_spec(self@, 0, path.deep_view()) is None,
            },
    {
        proof {
            use_type_invariant(self);
            assert(path.deep_view().skip(0) =~= path.deep_view());
        }
        let mut at: usize = 0;
        let n = path.len();
        let mut pos: usize = 0;
        while pos < n
            invariant
                wf_nodes(self@),
                at < self@.len(),
                0 <= pos <= n,
                n == path.len(),
                find_node_spec(self@, 0, path.deep_view()) == find_node_spec(
                    self@,
                    at as int,
                    path.deep_view().skip(pos as int),
                ),
            decreases n - pos,
        {
            let name = &path[pos];
            proof {
                assert(path.deep_view().skip(pos as int)[0] == name@);
            }
            match self.first_child_by_name(at, name) {
                Some(c) => {
                    proof {
                        assert(path.deep_view().skip(pos as int).drop_first() =~= path.deep_view()
                            .skip(pos as int + 1));
                    }
                    at = c;
                    pos += 1;
                },
                None => {
                    return None;
                },
            }
        }
        proof {
            assert(path.deep_view().skip(pos as int) =~= Seq::<Seq<char>>::empty());
        }
        Some(self.schema_at(at))
    }
}

/// Rendering the schema is free of hidden mutation: any two schema trees
/// built from the same assembled tree are identical.
pub proof fn lemma_build_schema_idempotent(reg: Seq<CommandNode>, r1: SchemaNode, r2: SchemaNode)
    requires
        schema_view(r1) == schema_model_of(reg, 0),
        schema_view(r2) == schema_model_of(reg, 0),
    ensures
        schema_view(r1) == schema_view(r2),
{
}

} // verus!
