//! The dispatcher: resolving argument tokens against the command tree.
//!
//! Resolution is a state machine walking top-down from the tree root.  At
//! each step the next token is matched against the current node's children
//! by name first, then by alias, with exact comparison only.  Running out
//! of tokens at a leaf resolves to that leaf; running out at a group is a
//! usage error, since a group requires an explicit child selection; a token
//! matching no child is a usage error carrying the offending token.  The
//! dispatcher never invokes a handler itself: it reports which node was
//! reached, and the driver invokes that node's executor.

use vstd::prelude::*;

use crate::registry::{node_ident, node_ident_count, wf_nodes, wf_unique_siblings_at, CommandNode, NodeKind, Registry};

verus! {

/// The outcome of resolving a token sequence against the tree.
#[derive(Debug)]
pub enum Resolution {
    /// The tokens spell a path from the root to this leaf node; `executor`
    /// is the leaf's executor handle and `leftover` the tokens that remain
    /// to be parsed against the leaf's schema.
    Resolved { node: usize, executor: u64, leftover: Vec<String> },
    /// The tokens ran out at a group node, which is not a valid terminal
    /// action; carries the path already matched and the names of the
    /// children that were available.
    AmbiguousOrMissingChild { node: usize, path: Vec<String>, available: Vec<String> },
    /// A token matched neither a child name nor a child alias; carries the
    /// path already matched and the offending token.
    UnknownToken { path: Vec<String>, token: String },
}

/// The abstract outcome of resolution, over views.
pub enum ResolutionModel {
    ResolvedAt { node: int, leftover: Seq<Seq<char>> },
    MissingChildAt { node: int, path: Seq<Seq<char>> },
    UnknownAt { node: int, path: Seq<Seq<char>>, token: Seq<char> },
}

/// Whether `tok` is one of the identifiers node `n` answers to.
pub open spec fn child_token_match(n: CommandNode, tok: Seq<char>) -> bool {
    exists|m: int| 0 <= m < node_ident_count(n) && node_ident(n, m) == tok
}

/// The first child of `reg[at]`, scanning from position `k`, that answers
/// to `tok`.
pub open spec fn first_token_match_from(
    reg: Seq<CommandNode>,
    at: int,
    tok: Seq<char>,
    k: int,
) -> Option<int>
    decreases reg[at].children@.len() - k,
{
    if k < 0 || k >= reg[at].children@.len() {
        None
    } else if child_token_match(reg[reg[at].children@[k] as int], tok) {
        Some(reg[at].children@[k] as int)
    } else {
        first_token_match_from(reg, at, tok, k + 1)
    }
}

/// The names of the children of `reg[at]`, in registration order.
pub open spec fn children_names(reg: Seq<CommandNode>, at: int) -> Seq<Seq<char>> {
    Seq::new(reg[at].children@.len(), |k: int| reg[reg[at].children@[k] as int].name@)
}

/// The resolution state machine: from node `at` with `path` already
/// matched, consume `tokens` one by one.
pub open spec fn resolve_model(
    reg: Seq<CommandNode>,
    at: int,
    path: Seq<Seq<char>>,
    tokens: Seq<Seq<char>>,
) -> ResolutionModel
    decreases tokens.len(),
{
    if tokens.len() == 0 {
        if reg[at].kind is Leaf {
            ResolutionModel::ResolvedAt { node: at, leftover: Seq::empty() }
        } else {
            ResolutionModel::MissingChildAt { node: at, path }
        }
    } else {
        match first_token_match_from(reg, at, tokens[0], 0) {
            Some(c) => resolve_model(reg, c, path.push(tokens[0]), tokens.drop_first()),
            None => ResolutionModel::UnknownAt { node: at, path, token: tokens[0] },
        }
    }
}

/// Whether the concrete outcome `r` is the one the model prescribes.
pub open spec fn resolution_matches(
    reg: Seq<CommandNode>,
    r: Resolution,
    m: ResolutionModel,
) -> bool {
    match m {
        ResolutionModel::ResolvedAt { node, leftover } => r matches Resolution::Resolved {
            node: n2,
            executor,
            leftover: l2,
        } && n2 as int == node && executor == reg[node].executor && l2.deep_view() == leftover,
        ResolutionModel::MissingChildAt { node, path } => r
            matches Resolution::AmbiguousOrMissingChild { node: n2, path: p2, available }
            && n2 as int == node && p2.deep_view() == path && available.deep_view()
            == children_names(reg, node),
        ResolutionModel::UnknownAt { node, path, token } => r matches Resolution::UnknownToken {
            path: p2,
            token: t2,
        } && p2.deep_view() == path && t2@ == token,
    }
}

/// Whether `tokens` spell a walk from node `at` down to node `target`,
/// each token matching a child's name or alias.
pub open spec fn tokens_reach(
    reg: Seq<CommandNode>,
    at: int,
    tokens: Seq<Seq<char>>,
    target: int,
) -> bool
    decreases tokens.len(),
{
    if tokens.len() == 0 {
        at == target
    } else {
        exists|k: int|
            0 <= k < reg[at].children@.len() && child_token_match(
                reg[#[trigger] reg[at].children@[k] as int],
                tokens[0],
            ) && tokens_reach(reg, reg[at].children@[k] as int, tokens.drop_first(), target)
    }
}

proof fn lemma_first_match_props(reg: Seq<CommandNode>, at: int, tok: Seq<char>, k: int)
    requires
        0 <= at < reg.len(),
        0 <= k,
    ensures
        match first_token_match_from(reg, at, tok, k) {
            Some(c) => exists|kk: int|
                k <= kk < reg[at].children@.len() && #[trigger] reg[at].children@[kk] == c
                    && child_token_match(reg[c], tok),
            None => forall|kk: int|
                k <= kk < reg[at].children@.len() ==> !child_token_match(
                    reg[#[trigger] reg[at].children@[kk] as int],
                    tok,
                ),
        },
    decreases reg[at].children@.len() - k,
{
    if k < reg[at].children@.len() {
        if !child_token_match(reg[reg[at].children@[k] as int], tok) {
            lemma_first_match_props(reg, at, tok, k + 1);
        }
    }
}

/// With collision-free sibling sets, a token that matches some child along
/// a walk is matched by exactly that child, so the scan finds it.
proof fn lemma_resolve_follows_walk(
    reg: Seq<CommandNode>,
    at: int,
    path: Seq<Seq<char>>,
    tokens: Seq<Seq<char>>,
    target: int,
)
    requires
        wf_nodes(reg),
        0 <= at < reg.len(),
        tokens_reach(reg, at, tokens, target),
    ensures
        reg[target].kind is Leaf ==> resolve_model(reg, at, path, tokens)
            == (ResolutionModel::ResolvedAt { node: target, leftover: Seq::empty() }),
        reg[target].kind is Group ==> resolve_model(reg, at, path, tokens)
            == (ResolutionModel::MissingChildAt { node: target, path: path + tokens }),
    decreases tokens.len(),
{
    if tokens.len() == 0 {
        assert(path + tokens =~= path);
    } else {
        let k = choose|k: int|
            0 <= k < reg[at].children@.len() && child_token_match(
                reg[#[trigger] reg[at].children@[k] as int],
                tokens[0],
            ) && tokens_reach(reg, reg[at].children@[k] as int, tokens.drop_first(), target);
        let c = reg[at].children@[k] as int;
        lemma_first_match_props(reg, at, tokens[0], 0);
        match first_token_match_from(reg, at, tokens[0], 0) {
            Some(c2) => {
                let kk = choose|kk: int|
                    0 <= kk < reg[at].children@.len() && #[trigger] reg[at].children@[kk] == c2
                        && child_token_match(reg[c2], tokens[0]);
                if c2 != c {
                    let m1 = choose|m1: int|
                        0 <= m1 < node_ident_count(reg[c2]) && node_ident(reg[c2], m1)
                            == tokens[0];
                    let m2 = choose|m2: int|
                        0 <= m2 < node_ident_count(reg[c]) && node_ident(reg[c], m2) == tokens[0];
                    assert(wf_unique_siblings_at(reg, at));
                    assert(node_ident(reg[reg[at].children@[kk] as int], m1) == node_ident(
                        reg[reg[at].children@[k] as int],
                        m2,
                    ));
                    assert(false);
                }
                assert(path.push(tokens[0]) + tokens.drop_first() =~= path + tokens);
                lemma_resolve_follows_walk(
                    reg,
                    c,
                    path.push(tokens[0]),
                    tokens.drop_first(),
                    target,
                );
            },
            None => {
                assert(!child_token_match(reg[reg[at].children@[k] as int], tokens[0]));
                assert(false);
            },
        }
    }
}

/// For every token sequence spelling a walk from the root to a leaf,
/// resolution reaches exactly that leaf, with no leftover tokens.
pub proof fn lemma_dispatch_reaches_leaf(
    reg: Seq<CommandNode>,
    tokens: Seq<Seq<char>>,
    target: int,
)
    requires
        wf_nodes(reg),
        0 <= target < reg.len(),
        reg[target].kind is Leaf,
        tokens_reach(reg, 0, tokens, target),
    ensures
        resolve_model(reg, 0, Seq::empty(), tokens) == (ResolutionModel::ResolvedAt {
            node: target,
            leftover: Seq::<Seq<char>>::empty(),
        }),
{
    lemma_resolve_follows_walk(reg, 0, Seq::empty(), tokens, target);
}

/// For every token sequence that ends exactly at a group node, resolution
/// reports the missing child selection at that group; no leaf is resolved,
/// so no handler can be invoked for such a sequence.
pub proof fn lemma_dispatch_stops_at_group(
    reg: Seq<CommandNode>,
    tokens: Seq<Seq<char>>,
    target: int,
)
    requires
        wf_nodes(reg),
        0 <= target < reg.len(),
        reg[target].kind is Group,
        tokens_reach(reg, 0, tokens, target),
    ensures
        resolve_model(reg, 0, Seq::empty(), tokens) == (ResolutionModel::MissingChildAt {
            node: target,
            path: tokens,
        }),
{
    lemma_resolve_follows_walk(reg, 0, Seq::empty(), tokens, target);
    assert(Seq::<Seq<char>>::empty() + tokens =~= tokens);
}

impl CommandNode {
    /// Whether this node answers to `tok`, by name or by alias, with exact
    /// comparison only.
    pub fn matches_token(&self, tok: &String) -> (r: bool)
        ensures
            r == child_token_match(*self, tok@),
    {
        if self.name == *tok {
            proof {
                assert(node_ident(*self, 0) == tok@);
            }
            return true;
        }
        let n = self.aliases.len();
        let mut i: usize = 0;
        while i < n
            invariant
                0 <= i <= n,
                n == self.aliases.len(),
                forall|m: int| 0 <= m <= i ==> node_ident(*self, m) != tok@,
            decreases n - i,
        {
            if self.aliases[i] == *tok {
                proof {
                    assert(node_ident(*self, i + 1) == tok@);
                }
                return true;
            }
            i += 1;
        }
        false
    }
}

impl Registry {
    /// The first child of node `at` that answers to `tok`.
    pub(crate) fn first_matching_child(&self, at: usize, tok: &String) -> (r: Option<usize>)
        requires
            wf_nodes(self@),
            at < self@.len(),
        ensures
            match r {
                Some(c) => first_token_match_from(self@, at as int, tok@, 0) == Some(c as int)
                    && c < self@.len(),
                None => first_token_match_from(self@, at as int, tok@, 0) is None,
            },
    {
        let node = self.node(at);
        let n = node.children.len();
        let mut k: usize = 0;
        while k < n
            invariant
                wf_nodes(self@),
                at < self@.len(),
                0 <= k <= n,
                n == self@[at as int].children@.len(),
                first_token_match_from(self@, at as int, tok@, 0) == first_token_match_from(
                    self@,
                    at as int,
                    tok@,
                    k as int,
                ),
            decreases n - k,
        {
            let c = self.node(at).children[k];
            if self.node(c).matches_token(tok) {
                return Some(c);
            }
            k += 1;
        }
        None
    }
}

} // verus!
