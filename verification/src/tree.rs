//! The radix-tree engine: insertion with prefix splitting, removal with
//! node merging, in-place update of handler values, and backtracking
//! search across literal, parameter and wildcard branches.

use vstd::prelude::*;
use crate::method::Method;

verus! {

/// A fatal configuration error raised while registering or updating routes.
#[derive(Clone, Copy, Debug, PartialEq, Eq, Structural)]
pub enum RouteError {
    /// The (method, path) pair is already registered.
    DuplicateRoute,
    /// Two registrations reach the same leaf with the same number of
    /// parameters but different parameter names.
    AmbiguousParams,
    /// Characters follow the `*` wildcard token.
    MalformedWildcard,
    /// Two registrations reach the same leaf with differing parameter
    /// counts; this signals an internal bookkeeping bug.
    ParamCountMismatch,
    /// No handler is registered for the (method, path) pair being updated.
    UnknownRoute,
}

/// The mathematical shape of a tree node: its literal segment, its three
/// kinds of children, the handlers registered at it, and the parameter
/// names recorded for its leaf.
#[verifier::ext_equal]
pub struct NodeModel<V> {
    /// The literal string this node contributes to the full path.
    pub seg: Seq<char>,
    /// Children reached by matching a literal segment; dispatch is on the
    /// first character of each child's segment.
    pub statics: Seq<NodeModel<V>>,
    /// The child reached by binding the next path segment as a parameter.
    pub param: Option<Box<NodeModel<V>>>,
    /// The child holding handlers for a trailing `*` wildcard.
    pub star: Option<Box<NodeModel<V>>>,
    /// The handler registered at this node for each method.
    pub handlers: Map<Method, V>,
    /// The parameter names collected root-to-leaf, recorded once the first
    /// handler is registered here.
    pub names: Option<Seq<Seq<char>>>,
}

/// A node with segment `seg` and nothing else.
pub open spec fn blank_model<V>(seg: Seq<char>) -> NodeModel<V> {
    NodeModel {
        seg: seg,
        statics: Seq::empty(),
        param: None,
        star: None,
        handlers: Map::empty(),
        names: None,
    }
}

/// The model of a freshly created tree root.
pub open spec fn root_model<V>() -> NodeModel<V> {
    blank_model("/"@)
}

/// The handler map described by a list of (method, value) pairs; a later
/// pair overrides an earlier one with the same method.
pub open spec fn handler_map<V>(s: Seq<(Method, V)>) -> Map<Method, V>
    decreases s.len(),
{
    if s.len() == 0 {
        Map::empty()
    } else {
        handler_map(s.drop_last()).insert(s.last().0, s.last().1)
    }
}

/// The index of the first `/` in `p`, or `p.len()` if there is none.
pub open spec fn slash_pos(p: Seq<char>) -> int
    decreases p.len(),
{
    if p.len() == 0 {
        0
    } else if p[0] == '/' {
        0
    } else {
        1 + slash_pos(p.drop_first())
    }
}

/// The first `/` comes no later than the end of the path, no `/` stands
/// before it, and it is not at the front unless the path starts with `/`.
pub proof fn lemma_slash_pos(p: Seq<char>)
    ensures
        0 <= slash_pos(p) <= p.len(),
        forall|j: int| 0 <= j < slash_pos(p) ==> p[j] != '/',
        slash_pos(p) < p.len() ==> p[slash_pos(p)] == '/',
    decreases p.len(),
{
    if p.len() > 0 && p[0] != '/' {
        lemma_slash_pos(p.drop_first());
        assert forall|j: int| 0 <= j < slash_pos(p) implies p[j] != '/' by {
            if j > 0 {
                assert(p.drop_first()[j - 1] != '/');
            }
        }
    }
}

/// The length of the token at the front of a non-empty path: a lone `/`,
/// or everything up to (not including) the next `/`.
pub open spec fn token_len(p: Seq<char>) -> int {
    if p[0] == '/' {
        1
    } else {
        slash_pos(p)
    }
}

/// The length of the longest common prefix of `a` and `b`.
pub open spec fn common_len(a: Seq<char>, b: Seq<char>) -> int
    decreases a.len(),
{
    if a.len() == 0 || b.len() == 0 || a[0] != b[0] {
        0
    } else {
        1 + common_len(a.drop_first(), b.drop_first())
    }
}

/// The longest common prefix of two strings is no longer than either of
/// them, is at least one character when their first characters agree, and
/// is a shared prefix in fact.
pub proof fn lemma_common_len(a: Seq<char>, b: Seq<char>)
    ensures
        0 <= common_len(a, b) <= a.len(),
        common_len(a, b) <= b.len(),
        a.take(common_len(a, b)) == b.take(common_len(a, b)),
        a.len() > 0 && b.len() > 0 && a[0] == b[0] ==> common_len(a, b) >= 1,
    decreases a.len(),
{
    if a.len() > 0 && b.len() > 0 && a[0] == b[0] {
        lemma_common_len(a.drop_first(), b.drop_first());
        let l = common_len(a, b);
        assert(a.drop_first().take(l - 1) == b.drop_first().take(l - 1));
        assert(a.take(l) =~= b.take(l)) by {
            assert forall|j: int| 0 <= j < l implies a[j] == b[j] by {
                if j > 0 {
                    assert(a.drop_first().take(l - 1)[j - 1] == b.drop_first().take(l - 1)[j
                        - 1]);
                }
            }
        }
    }
}

/// Whether `pre` is a prefix of `p`.
pub open spec fn is_prefix_of(pre: Seq<char>, p: Seq<char>) -> bool {
    pre.len() <= p.len() && p.take(pre.len() as int) == pre
}

/// The index of the first static child whose (non-empty) segment starts
/// with `c`, or `kids.len()` if there is none.
pub open spec fn match_idx<V>(kids: Seq<NodeModel<V>>, c: char) -> int
    decreases kids.len(),
{
    if kids.len() == 0 {
        0
    } else if kids[0].seg.len() > 0 && kids[0].seg[0] == c {
        0
    } else {
        1 + match_idx(kids.drop_first(), c)
    }
}

/// The first matching static child comes no later than the end of the
/// list, it does match, and no earlier child does.
pub proof fn lemma_match_idx<V>(kids: Seq<NodeModel<V>>, c: char)
    ensures
        0 <= match_idx(kids, c) <= kids.len(),
        match_idx(kids, c) < kids.len() ==> kids[match_idx(kids, c)].seg.len() > 0
            && kids[match_idx(kids, c)].seg[0] == c,
        forall|j: int| 0 <= j < match_idx(kids, c) ==> !((#[trigger] kids[j]).seg.len() > 0
            && kids[j].seg[0] == c),
    decreases kids.len(),
{
    if kids.len() > 0 && !(kids[0].seg.len() > 0 && kids[0].seg[0] == c) {
        lemma_match_idx(kids.drop_first(), c);
        assert forall|j: int| 0 <= j < match_idx(kids, c) implies !((#[trigger] kids[j]).seg.len()
            > 0 && kids[j].seg[0] == c) by {
            if j > 0 {
                assert(kids.drop_first()[j - 1] == kids[j]);
            }
        }
    }
}

/// The recorded parameter names of a leaf, or the empty list if none were
/// recorded.
pub open spec fn names_or_empty(names: Option<Seq<Seq<char>>>) -> Seq<Seq<char>> {
    match names {
        Some(ns) => ns,
        None => Seq::empty(),
    }
}

/// The names accumulated while descending, as the mathematical model sees
/// them.
pub open spec fn names_view(o: Option<Vec<String>>) -> Option<Seq<Seq<char>>> {
    match o {
        Some(v) => Some(v.deep_view()),
        None => None,
    }
}

/// The names accumulated so far with one more appended.
pub open spec fn nv_push(nv: Option<Seq<Seq<char>>>, name: Seq<char>) -> Option<Seq<Seq<char>>> {
    match nv {
        Some(ns) => Some(ns.push(name)),
        None => Some(seq![name]),
    }
}

/// A path with a single leading `/` removed, as the facade hands it to the
/// root node.
pub open spec fn spec_strip(p: Seq<char>) -> Seq<char> {
    if p.len() > 0 && p[0] == '/' {
        p.drop_first()
    } else {
        p
    }
}

/// Registers `(method, value)` at node `n` itself, after reconciling the
/// accumulated parameter names with the ones already recorded. Returns the
/// updated node and the outcome.
pub open spec fn spec_set_leaf<V>(
    n: NodeModel<V>,
    method: Method,
    value: V,
    names: Option<Seq<Seq<char>>>,
) -> (NodeModel<V>, Result<(), RouteError>) {
    match names {
        Some(ns) => match n.names {
            Some(ex) => if ns.len() != ex.len() {
                (n, Err(RouteError::ParamCountMismatch))
            } else if ns != ex {
                (n, Err(RouteError::AmbiguousParams))
            } else {
                spec_add_handler(n, method, value)
            },
            None => spec_add_handler(
                NodeModel { names: Some(ns), ..n },
                method,
                value,
            ),
        },
        None => spec_add_handler(n, method, value),
    }
}

/// Adds `(method, value)` to the handlers of `n`, failing if the method is
/// already registered there.
pub open spec fn spec_add_handler<V>(n: NodeModel<V>, method: Method, value: V) -> (
    NodeModel<V>,
    Result<(), RouteError>,
) {
    if n.handlers.dom().contains(method) {
        (n, Err(RouteError::DuplicateRoute))
    } else {
        (NodeModel { handlers: n.handlers.insert(method, value), ..n }, Ok(()))
    }
}

/// Reconciles the token at the front of `tok` with the static child at
/// `idx`: if the child's segment is a prefix of the token, nothing changes;
/// otherwise an intermediate node holding the common prefix takes the
/// child's slot and the child, shortened by that prefix, becomes its sole
/// static child. Returns the updated node and the number of characters
/// consumed structurally.
pub open spec fn spec_split<V>(n: NodeModel<V>, idx: int, tok: Seq<char>) -> (
    NodeModel<V>,
    int,
) {
    let child = n.statics[idx];
    if is_prefix_of(child.seg, tok) {
        (n, child.seg.len() as int)
    } else {
        let l = common_len(tok, child.seg);
        let demoted = NodeModel { seg: child.seg.skip(l), ..child };
        let inter = NodeModel {
            seg: tok.take(l),
            statics: seq![demoted],
            param: None,
            star: None,
            handlers: Map::empty(),
            names: None,
        };
        (NodeModel { statics: n.statics.update(idx, inter), ..n }, l)
    }
}

/// Registers `(method, value)` under the pattern `p` below `n`, threading
/// the parameter names accumulated so far. Returns the updated node and
/// the outcome; structural changes made before an error is found persist,
/// but no handler is added on error.
pub open spec fn spec_insert<V>(
    n: NodeModel<V>,
    method: Method,
    p: Seq<char>,
    value: V,
    names: Option<Seq<Seq<char>>>,
) -> (NodeModel<V>, Result<(), RouteError>)
    decreases p.len(),
    via spec_insert_decreases::<V>
{
    if p.len() == 0 {
        spec_set_leaf(n, method, value, names)
    } else {
        let c = p[0];
        if c == '$' {
            let sp = slash_pos(p);
            let name = p.subrange(1, sp);
            let rest = p.skip(sp);
            let child = match n.param {
                Some(b) => *b,
                None => blank_model(name),
            };
            let names2 = match names {
                Some(ns) => ns.push(name),
                None => seq![name],
            };
            let (child2, r) = spec_insert(child, method, rest, value, Some(names2));
            (NodeModel { param: Some(Box::new(child2)), ..n }, r)
        } else if c == '*' {
            if p != seq!['*'] {
                (n, Err(RouteError::MalformedWildcard))
            } else {
                let star0 = match n.star {
                    Some(b) => *b,
                    None => blank_model(Seq::empty()),
                };
                if star0.handlers.dom().contains(method) {
                    (n, Err(RouteError::DuplicateRoute))
                } else {
                    let star1 = NodeModel {
                        handlers: star0.handlers.insert(method, value),
                        names: names,
                        ..star0
                    };
                    (NodeModel { star: Some(Box::new(star1)), ..n }, Ok(()))
                }
            }
        } else {
            let tl = token_len(p);
            let tok = p.take(tl);
            let idx = match_idx(n.statics, c);
            if idx < n.statics.len() {
                let (n2, consumed) = spec_split(n, idx, tok);
                let (child2, r) = spec_insert(
                    n2.statics[idx],
                    method,
                    p.skip(consumed),
                    value,
                    names,
                );
                (NodeModel { statics: n2.statics.update(idx, child2), ..n2 }, r)
            } else {
                let (child, r) = spec_insert(blank_model(tok), method, p.skip(tl), value, names);
                (NodeModel { statics: n.statics.push(child), ..n }, r)
            }
        }
    }
}

/// Clears the handlers registered under `p` below `n`, pruning static
/// nodes that become fully empty, collapsing one level of single-child
/// chains, dropping an emptied parameter branch, and dropping the wildcard
/// branch whole.
pub open spec fn spec_remove<V>(n: NodeModel<V>, p: Seq<char>) -> NodeModel<V>
    decreases p.len(),
    via spec_remove_decreases::<V>
{
    if p.len() == 0 {
        NodeModel { handlers: Map::empty(), names: None, ..n }
    } else {
        let c = p[0];
        let idx = match_idx(n.statics, c);
        if idx < n.statics.len() && is_prefix_of(n.statics[idx].seg, p) {
            let child = n.statics[idx];
            let child2 = spec_remove(child, p.skip(child.seg.len() as int));
            if child2.handlers.dom() =~= Set::empty() && child2.statics.len() == 0
                && child2.param is None && child2.star is None {
                NodeModel { statics: n.statics.remove(idx), ..n }
            } else if child2.handlers.dom() =~= Set::empty() && child2.statics.len() == 1
                && child2.param is None && child2.seg != "/"@
                && child2.statics[0].seg != "/"@ {
                let merged = NodeModel {
                    seg: child2.seg + child2.statics[0].seg,
                    ..child2.statics[0]
                };
                NodeModel { statics: n.statics.update(idx, merged), ..n }
            } else {
                NodeModel { statics: n.statics.update(idx, child2), ..n }
            }
        } else if c == '$' && n.param is Some {
            let pc2 = spec_remove(*n.param.unwrap(), p.skip(slash_pos(p)));
            if pc2.handlers.dom() =~= Set::empty() && pc2.statics.len() == 0 {
                NodeModel { param: None, ..n }
            } else {
                NodeModel { param: Some(Box::new(pc2)), ..n }
            }
        } else if c == '*' {
            NodeModel { star: None, ..n }
        } else {
            n
        }
    }
}

/// Replaces the value registered for `method` under `p` below `n` without
/// changing the structure; fails if no handler is registered there.
pub open spec fn spec_update<V>(n: NodeModel<V>, method: Method, p: Seq<char>, value: V) -> (
    NodeModel<V>,
    Result<(), RouteError>,
)
    decreases p.len(),
    via spec_update_decreases::<V>
{
    if p.len() == 0 {
        if n.handlers.dom().contains(method) {
            (NodeModel { handlers: n.handlers.insert(method, value), ..n }, Ok(()))
        } else {
            (n, Err(RouteError::UnknownRoute))
        }
    } else {
        let c = p[0];
        let idx = match_idx(n.statics, c);
        if idx < n.statics.len() && is_prefix_of(n.statics[idx].seg, p) {
            let child = n.statics[idx];
            let (child2, r) = spec_update(child, method, p.skip(child.seg.len() as int), value);
            (NodeModel { statics: n.statics.update(idx, child2), ..n }, r)
        } else if c == '$' && n.param is Some {
            let (pc2, r) = spec_update(*n.param.unwrap(), method, p.skip(slash_pos(p)), value);
            (NodeModel { param: Some(Box::new(pc2)), ..n }, r)
        } else if c == '*' && n.star is Some {
            let star = *n.star.unwrap();
            if star.handlers.dom().contains(method) {
                let star2 = NodeModel { handlers: star.handlers.insert(method, value), ..star };
                (NodeModel { star: Some(Box::new(star2)), ..n }, Ok(()))
            } else {
                (n, Err(RouteError::UnknownRoute))
            }
        } else {
            (n, Err(RouteError::UnknownRoute))
        }
    }
}

/// One step of a lookup: no structural match at all, a structural match
/// whose leaf has no handler for the requested method, or a full match
/// carrying the value, the leaf's parameter names, and the parameter
/// values consumed below the current node.
pub enum SearchStep<V> {
    /// Nothing below the current node matches the path.
    Miss,
    /// A leaf matches the path but holds no handler for the method.
    MethodMiss,
    /// A handler matches; `values` are in root-to-leaf order.
    Found { value: V, names: Seq<Seq<char>>, values: Seq<Seq<char>> },
}

/// Looks `p` up below `n` for `method`. Literal branches are tried first;
/// if the literal subtree yields no full match, the parameter branch is
/// tried on a non-empty next segment, then the wildcard branch. A
/// `MethodMiss` below the current node does not stop the alternatives
/// here, and turns into a `Miss` if none of them succeeds.
pub open spec fn spec_search<V>(n: NodeModel<V>, method: Method, p: Seq<char>) -> SearchStep<V>
    decreases p.len(),
    via spec_search_decreases::<V>
{
    if p.len() == 0 {
        if n.handlers.dom() =~= Set::empty() {
            SearchStep::Miss
        } else if n.handlers.dom().contains(method) {
            SearchStep::Found {
                value: n.handlers[method],
                names: names_or_empty(n.names),
                values: Seq::empty(),
            }
        } else {
            SearchStep::MethodMiss
        }
    } else {
        let c = p[0];
        let idx = match_idx(n.statics, c);
        let from_static = if idx < n.statics.len() && is_prefix_of(n.statics[idx].seg, p) {
            spec_search(n.statics[idx], method, p.skip(n.statics[idx].seg.len() as int))
        } else {
            SearchStep::Miss
        };
        if from_static is Found {
            from_static
        } else {
            let sp = slash_pos(p);
            let from_param = if n.param is Some && sp > 0 {
                spec_search(*n.param.unwrap(), method, p.skip(sp))
            } else {
                SearchStep::Miss
            };
            match from_param {
                SearchStep::Found { value, names, values } => SearchStep::Found {
                    value: value,
                    names: names,
                    values: seq![p.take(sp)] + values,
                },
                _ => match n.star {
                    Some(b) => if (*b).handlers.dom().contains(method) {
                        SearchStep::Found {
                            value: (*b).handlers[method],
                            names: names_or_empty((*b).names),
                            values: Seq::empty(),
                        }
                    } else {
                        SearchStep::Miss
                    },
                    None => SearchStep::Miss,
                },
            }
        }
    }
}

#[via_fn]
proof fn spec_insert_decreases<V>(
    n: NodeModel<V>,
    method: Method,
    p: Seq<char>,
    value: V,
    names: Option<Seq<Seq<char>>>,
) {
    if p.len() > 0 {
        lemma_slash_pos(p);
        let c = p[0];
        if c != '$' && c != '*' {
            lemma_match_idx(n.statics, c);
            let idx = match_idx(n.statics, c);
            if idx < n.statics.len() {
                lemma_common_len(p.take(token_len(p)), n.statics[idx].seg);
            }
        }
    }
}

#[via_fn]
proof fn spec_remove_decreases<V>(n: NodeModel<V>, p: Seq<char>) {
    if p.len() > 0 {
        lemma_slash_pos(p);
        lemma_match_idx(n.statics, p[0]);
    }
}

#[via_fn]
proof fn spec_update_decreases<V>(n: NodeModel<V>, method: Method, p: Seq<char>, value: V) {
    if p.len() > 0 {
        lemma_slash_pos(p);
        lemma_match_idx(n.statics, p[0]);
    }
}

#[via_fn]
proof fn spec_search_decreases<V>(n: NodeModel<V>, method: Method, p: Seq<char>) {
    if p.len() > 0 {
        lemma_slash_pos(p);
        lemma_match_idx(n.statics, p[0]);
    }
}

/// The (name, value) pairs a lookup reports: names and values paired up by
/// position, stopping at the shorter list.
pub open spec fn zip_params(names: Seq<Seq<char>>, values: Seq<Seq<char>>) -> Seq<
    (Seq<char>, Seq<char>),
> {
    Seq::new(
        if names.len() <= values.len() {
            names.len()
        } else {
            values.len()
        },
        |i: int| (names[i], values[i]),
    )
}

/// The handler map holds a method exactly when some pair in the list
/// carries it.
proof fn lemma_handler_map_contains<V>(s: Seq<(Method, V)>, m: Method)
    ensures
        handler_map(s).dom().contains(m) <==> exists|i: int| 0 <= i < s.len() && s[i].0 == m,
    decreases s.len(),
{
    if s.len() > 0 {
        lemma_handler_map_contains(s.drop_last(), m);
        if s.last().0 == m {
            assert(s[s.len() - 1].0 == m);
        } else if exists|i: int| 0 <= i < s.len() && s[i].0 == m {
            let i = choose|i: int| 0 <= i < s.len() && s[i].0 == m;
            assert(s.drop_last()[i] == s[i]);
        }
    }
}

/// The value the handler map assigns to a method is the one in the last
/// pair carrying that method.
proof fn lemma_handler_map_get<V>(s: Seq<(Method, V)>, i: int)
    requires
        0 <= i < s.len(),
        forall|j: int| i < j < s.len() ==> (#[trigger] s[j]).0 != s[i].0,
    ensures
        handler_map(s).dom().contains(s[i].0),
        handler_map(s)[s[i].0] == s[i].1,
    decreases s.len(),
{
    if i < s.len() - 1 {
        assert(s.drop_last()[i] == s[i]);
        lemma_handler_map_get(s.drop_last(), i);
    }
}

/// Appending a pair updates the handler map at that method.
proof fn lemma_handler_map_push<V>(s: Seq<(Method, V)>, m: Method, v: V)
    ensures
        handler_map(s.push((m, v))) == handler_map(s).insert(m, v),
{
    assert(s.push((m, v)).drop_last() =~= s);
    assert(s.push((m, v)).last() == (m, v));
}

/// Overwriting the last pair that carries a method updates the handler
/// map at that method.
proof fn lemma_handler_map_set<V>(s: Seq<(Method, V)>, i: int, v: V)
    requires
        0 <= i < s.len(),
        forall|j: int| i < j < s.len() ==> (#[trigger] s[j]).0 != s[i].0,
    ensures
        handler_map(s.update(i, (s[i].0, v))) == handler_map(s).insert(s[i].0, v),
    decreases s.len(),
{
    let m = s[i].0;
    let s2 = s.update(i, (m, v));
    if i == s.len() - 1 {
        assert(s2.drop_last() =~= s.drop_last());
        assert(s2.last() == (m, v));
        assert(handler_map(s2) =~= handler_map(s).insert(m, v));
    } else {
        assert(s.drop_last()[i] == s[i]);
        lemma_handler_map_set(s.drop_last(), i, v);
        assert(s2.drop_last() =~= s.drop_last().update(i, (m, v)));
        assert(s2.last() == s.last());
        assert(handler_map(s2) =~= handler_map(s).insert(m, v));
    }
}

/// A single `/` is at its own front, so a one-character inspection tells a
/// bare separator segment apart from any other.
proof fn lemma_slash_pos_unique(p: Seq<char>, i: int)
    requires
        0 <= i <= p.len(),
        forall|j: int| 0 <= j < i ==> p[j] != '/',
        i < p.len() ==> p[i] == '/',
    ensures
        slash_pos(p) == i,
    decreases p.len(),
{
    if p.len() > 0 && p[0] != '/' {
        assert forall|j: int| 0 <= j < i - 1 implies p.drop_first()[j] != '/' by {
            assert(p[j + 1] != '/');
        }
        lemma_slash_pos_unique(p.drop_first(), i - 1);
    }
}

/// A node of the radix tree; the tree root is itself a `Node`.
///
/// Handler values are `Copy` so that a lookup can hand a registered value
/// back without touching the tree.
pub struct Node<V> {
    /// The literal string this node contributes to the full path.
    path: String,
    /// Children reached by matching a literal segment.
    static_child: Vec<Node<V>>,
    /// The child reached by binding the next path segment as a parameter.
    param_child: Option<Box<Node<V>>>,
    /// The child holding handlers for a trailing `*` wildcard.
    star_child: Option<Box<Node<V>>>,
    /// The handlers registered at this node, one per method.
    leaf_handler: Vec<(Method, V)>,
    /// The parameter names collected root-to-leaf for this node's leaf.
    leaf_param_names: Option<Vec<String>>,
}

/// The models of a list of sibling nodes, in order.
pub closed spec fn models_of<V>(kids: Seq<Node<V>>) -> Seq<NodeModel<V>>
    decreases kids,
{
    if kids.len() == 0 {
        Seq::empty()
    } else {
        models_of(kids.drop_last()).push(kids.last().model())
    }
}

/// `models_of` maps each sibling to its model, position by position.
proof fn lemma_models_of<V>(kids: Seq<Node<V>>)
    ensures
        models_of(kids).len() == kids.len(),
        forall|i: int| 0 <= i < kids.len() ==> models_of(kids)[i] == (#[trigger] kids[i]).model(),
    decreases kids,
{
    if kids.len() > 0 {
        lemma_models_of(kids.drop_last());
        assert forall|i: int| 0 <= i < kids.len() implies models_of(kids)[i] == (
        #[trigger] kids[i]).model() by {
            if i < kids.len() - 1 {
                assert(kids.drop_last()[i] == kids[i]);
            }
        }
    }
}

impl<V> Node<V> {
    /// The mathematical tree this node represents.
    pub closed spec fn model(self) -> NodeModel<V>
        decreases self,
    {
        NodeModel {
            seg: self.path@,
            statics: models_of(self.static_child@),
            param: match self.param_child {
                Some(b) => Some(Box::new((*b).model())),
                None => None,
            },
            star: match self.star_child {
                Some(b) => Some(Box::new((*b).model())),
                None => None,
            },
            handlers: handler_map(self.leaf_handler@),
            names: match self.leaf_param_names {
                Some(ns) => Some(ns.deep_view()),
                None => None,
            },
        }
    }
}

/// The character at position `i`.
fn char_at(s: &str, i: usize) -> (c: char)
    requires
        i < s@.len(),
    ensures
        c == s@[i as int],
{
    s.get_char(i)
}

/// True when `pre` is a prefix of `s`, character for character.
fn str_has_prefix(s: &str, pre: &str) -> (r: bool)
    ensures
        r == is_prefix_of(pre@, s@),
{
    let np = pre.unicode_len();
    let n = s.unicode_len();
    if np > n {
        return false;
    }
    let mut i: usize = 0;
    while i < np
        invariant
            i <= np,
            np == pre@.len(),
            np <= n,
            n == s@.len(),
            forall|j: int| 0 <= j < i ==> s@[j] == pre@[j],
        decreases np - i,
    {
        if s.get_char(i) != pre.get_char(i) {
            proof {
                assert(s@.take(np as int)[i as int] != pre@[i as int]);
            }
            return false;
        }
        i = i + 1;
    }
    proof {
        assert(s@.take(np as int) =~= pre@);
    }
    true
}

/// The position of the first `/` in `s`, or its length if there is none.
fn find_slash(s: &str) -> (i: usize)
    ensures
        i as int == slash_pos(s@),
        i <= s@.len(),
{
    let n = s.unicode_len();
    let mut i: usize = 0;
    while i < n
        invariant
            i <= n,
            n == s@.len(),
            forall|j: int| 0 <= j < i ==> s@[j] != '/',
        decreases n - i,
    {
        if s.get_char(i) == '/' {
            proof {
                lemma_slash_pos_unique(s@, i as int);
            }
            return i;
        }
        i = i + 1;
    }
    proof {
        lemma_slash_pos_unique(s@, n as int);
    }
    n
}

/// The length of the longest common prefix of `a` and `b`.
fn common_prefix_len(a: &str, b: &str) -> (l: usize)
    ensures
        l as int == common_len(a@, b@),
{
    let na = a.unicode_len();
    let nb = b.unicode_len();
    let mut i: usize = 0;
    while i < na && i < nb
        invariant
            i <= na,
            i <= nb,
            na == a@.len(),
            nb == b@.len(),
            forall|j: int| 0 <= j < i ==> a@[j] == b@[j],
        decreases na - i,
    {
        if a.get_char(i) != b.get_char(i) {
            proof {
                lemma_common_len_unique(a@, b@, i as int);
            }
            return i;
        }
        i = i + 1;
    }
    proof {
        lemma_common_len_unique(a@, b@, i as int);
    }
    i
}

/// A copy of a list of parameter names.
fn clone_names(v: &Vec<String>) -> (r: Vec<String>)
    ensures
        r.deep_view() == v.deep_view(),
{
    let mut r: Vec<String> = Vec::new();
    let mut i: usize = 0;
    while i < v.len()
        invariant
            i <= v@.len(),
            r@.len() == i,
            forall|j: int| 0 <= j < i ==> r@[j]@ == v@[j]@,
        decreases v@.len() - i,
    {
        r.push(v[i].clone());
        i = i + 1;
    }
    proof {
        assert(r.deep_view() =~= v.deep_view());
    }
    r
}

/// True when two lists of parameter names are equal, name for name.
fn names_equal(a: &Vec<String>, b: &Vec<String>) -> (r: bool)
    ensures
        r == (a.deep_view() == b.deep_view()),
{
    if a.len() != b.len() {
        proof {
            assert(a.deep_view().len() != b.deep_view().len());
        }
        return false;
    }
    let mut i: usize = 0;
    while i < a.len()
        invariant
            i <= a@.len(),
            a@.len() == b@.len(),
            forall|j: int| 0 <= j < i ==> a@[j]@ == b@[j]@,
        decreases a@.len() - i,
    {
        if !a[i].eq(&b[i]) {
            proof {
                assert(a.deep_view()[i as int] != b.deep_view()[i as int]);
            }
            return false;
        }
        i = i + 1;
    }
    proof {
        assert(a.deep_view() =~= b.deep_view());
    }
    true
}

/// The first matching static child is pinned down by no earlier sibling
/// matching and it matching itself (or the scan running out).
proof fn lemma_match_idx_unique<V>(kids: Seq<NodeModel<V>>, c: char, i: int)
    requires
        0 <= i <= kids.len(),
        forall|j: int| 0 <= j < i ==> !((#[trigger] kids[j]).seg.len() > 0 && kids[j].seg[0] == c),
        i < kids.len() ==> kids[i].seg.len() > 0 && kids[i].seg[0] == c,
    ensures
        match_idx(kids, c) == i,
    decreases kids.len(),
{
    if kids.len() > 0 {
        if kids[0].seg.len() > 0 && kids[0].seg[0] == c {
            assert(i == 0);
        } else {
            assert forall|j: int| 0 <= j < i - 1 implies !((#[trigger] kids.drop_first()[j]).seg.len()
                > 0 && kids.drop_first()[j].seg[0] == c) by {
                assert(kids.drop_first()[j] == kids[j + 1]);
            }
            lemma_match_idx_unique(kids.drop_first(), c, i - 1);
        }
    }
}

impl<V> Node<V> {
    /// A node with segment `path` and nothing registered below it.
    fn blank(path: String) -> (n: Node<V>)
        ensures
            n.model() == blank_model::<V>(path@),
            n.static_child@ == Seq::<Node<V>>::empty(),
    {
        let n = Node {
            path,
            static_child: Vec::new(),
            param_child: None,
            star_child: None,
            leaf_handler: Vec::new(),
            leaf_param_names: None,
        };
        proof {
            assert(models_of(Seq::<Node<V>>::empty()) == Seq::<NodeModel<V>>::empty());
            assert(n.model() =~= blank_model::<V>(n.path@));
        }
        n
    }

    /// Creates an empty tree whose root owns the bare `/` segment.
    pub fn new() -> (n: Node<V>)
        ensures
            n.model() == root_model::<V>(),
    {
        Node::blank(String::from_str("/"))
    }

    /// The index of the first static child whose segment starts with `c`,
    /// or the number of children if none does.
    fn find_static_idx(&self, c: char) -> (r: usize)
        ensures
            r as int == match_idx(self.model().statics, c),
            r <= self.static_child@.len(),
            self.model().statics.len() == self.static_child@.len(),
    {
        proof {
            lemma_models_of(self.static_child@);
        }
        let n = self.static_child.len();
        let mut i: usize = 0;
        while i < n
            invariant
                i <= n,
                n == self.static_child@.len(),
                models_of(self.static_child@) == self.model().statics,
                models_of(self.static_child@).len() == n,
                forall|j: int| 0 <= j < n ==> models_of(self.static_child@)[j] == (
                #[trigger] self.static_child@[j]).model(),
                forall|j: int| 0 <= j < i ==> !((#[trigger] models_of(self.static_child@)[j]).seg.len()
                    > 0 && models_of(self.static_child@)[j].seg[0] == c),
            decreases n - i,
        {
            let child = &self.static_child[i];
            if !child.path.as_str().is_empty() && char_at(child.path.as_str(), 0) == c {
                proof {
                    lemma_match_idx_unique(self.model().statics, c, i as int);
                }
                return i;
            }
            i = i + 1;
        }
        proof {
            lemma_match_idx_unique(self.model().statics, c, n as int);
        }
        n
    }
}

impl<V: Copy> Node<V> {
    /// The handler this node's leaf holds for `method`, if any.
    fn lookup_handler(&self, method: Method) -> (r: Option<V>)
        ensures
            match r {
                Some(v) => self.model().handlers.dom().contains(method)
                    && self.model().handlers[method] == v,
                None => !self.model().handlers.dom().contains(method),
            },
    {
        let mut i: usize = self.leaf_handler.len();
        while i > 0
            invariant
                i <= self.leaf_handler@.len(),
                forall|j: int| i <= j < self.leaf_handler@.len() ==> (
                #[trigger] self.leaf_handler@[j]).0 != method,
            decreases i,
        {
            i = i - 1;
            if self.leaf_handler[i].0 == method {
                proof {
                    lemma_handler_map_get(self.leaf_handler@, i as int);
                }
                return Some(self.leaf_handler[i].1);
            }
        }
        proof {
            lemma_handler_map_contains(self.leaf_handler@, method);
        }
        None
    }

    /// Registers `(method, value)` on this node's leaf, failing if the
    /// method already has a handler here.
    fn set_handler(&mut self, method: Method, value: V) -> (r: Result<(), RouteError>)
        ensures
            final(self).model() == spec_add_handler(old(self).model(), method, value).0,
            r == spec_add_handler(old(self).model(), method, value).1,
    {
        match self.lookup_handler(method) {
            Some(_) => Err(RouteError::DuplicateRoute),
            None => {
                proof {
                    lemma_handler_map_push(self.leaf_handler@, method, value);
                }
                self.leaf_handler.push((method, value));
                proof {
                    assert(self.model() =~= spec_add_handler(old(self).model(), method, value).0);
                }
                Ok(())
            },
        }
    }

    /// Replaces the handler this node's leaf holds for `method`, failing
    /// if the method has none here.
    fn update_handler(&mut self, method: Method, value: V) -> (r: Result<(), RouteError>)
        ensures
            old(self).model().handlers.dom().contains(method) ==> r == Ok::<(), RouteError>(())
                && final(self).model() == (NodeModel {
                handlers: old(self).model().handlers.insert(method, value),
                ..old(self).model()
            }),
            !old(self).model().handlers.dom().contains(method) ==> r == Err::<(), RouteError>(
                RouteError::UnknownRoute,
            ) && *final(self) == *old(self),
    {
        let ghost s = self.leaf_handler@;
        let mut i: usize = self.leaf_handler.len();
        while i > 0
            invariant
                i <= s.len(),
                *self == *old(self),
                self.leaf_handler@ == s,
                forall|j: int| i <= j < s.len() ==> (#[trigger] s[j]).0 != method,
            decreases i,
        {
            i = i - 1;
            if self.leaf_handler[i].0 == method {
                proof {
                    lemma_handler_map_get(s, i as int);
                    lemma_handler_map_set(s, i as int, value);
                }
                self.leaf_handler.remove(i);
                self.leaf_handler.insert(i, (method, value));
                proof {
                    assert(self.leaf_handler@ =~= s.update(i as int, (method, value)));
                    assert(self.static_child@ == old(self).static_child@);
                    assert(self.model() =~= (NodeModel {
                        handlers: old(self).model().handlers.insert(method, value),
                        ..old(self).model()
                    }));
                }
                return Ok(());
            }
        }
        proof {
            lemma_handler_map_contains(s, method);
        }
        Err(RouteError::UnknownRoute)
    }
}

impl<V: Copy> Node<V> {
    /// Reconciles an incoming token with the static child at `idx`,
    /// splitting off a shared-prefix intermediate node when the child's
    /// segment is not itself a prefix of the token. Returns how many
    /// characters were consumed structurally.
    fn split_common_prefix(&mut self, idx: usize, token: &str) -> (l: usize)
        requires
            idx < old(self).static_child@.len(),
            old(self).model().statics[idx as int].seg.len() > 0,
            token@.len() > 0,
            token@[0] == old(self).model().statics[idx as int].seg[0],
        ensures
            final(self).model() == spec_split(old(self).model(), idx as int, token@).0,
            l as int == spec_split(old(self).model(), idx as int, token@).1,
            1 <= l <= token@.len(),
            final(self).static_child@.len() == old(self).static_child@.len(),
            final(self).model().statics.len() == old(self).model().statics.len(),
    {
        proof {
            lemma_models_of(old(self).static_child@);
        }
        let ghost m0 = old(self).model();
        let child_seg_len = self.static_child[idx].path.as_str().unicode_len();
        if str_has_prefix(token, self.static_child[idx].path.as_str()) {
            proof {
                lemma_models_of(self.static_child@);
                assert(is_prefix_of(m0.statics[idx as int].seg, token@));
            }
            child_seg_len
        } else {
            let l = common_prefix_len(token, self.static_child[idx].path.as_str());
            proof {
                lemma_common_len(token@, m0.statics[idx as int].seg);
            }
            let mut old_child: Node<V> = self.static_child.remove(idx);
            let ghost ch_m = old_child.model();
            let suffix: String = old_child.path.as_str().substring_char(l, child_seg_len)
                .to_owned();
            old_child.path = suffix;
            proof {
                assert(old_child.model() =~= (NodeModel {
                    seg: ch_m.seg.skip(l as int),
                    ..ch_m
                }));
            }
            let mut inter: Node<V> = Node::blank(token.substring_char(0, l).to_owned());
            let ghost oc = old_child;
            inter.static_child.push(old_child);
            proof {
                lemma_models_of(inter.static_child@);
                assert(inter.static_child@ =~= Seq::<Node<V>>::empty().push(oc));
                assert(inter.static_child@[0] == oc);
                assert(models_of(inter.static_child@)[0] == inter.static_child@[0].model());
                assert(inter.model().statics =~= seq![
                    (NodeModel { seg: ch_m.seg.skip(l as int), ..ch_m }),
                ]);
            }
            self.static_child.insert(idx, inter);
            proof {
                assert(self.static_child@ =~= old(self).static_child@.update(
                    idx as int,
                    inter,
                ));
                lemma_models_of(self.static_child@);
                assert forall|j: int| 0 <= j < self.static_child@.len() implies models_of(
                    self.static_child@,
                )[j] == m0.statics.update(idx as int, inter.model())[j] by {
                    assert(models_of(self.static_child@)[j] == self.static_child@[j].model());
                    if j != idx {
                        assert(self.static_child@[j] == old(self).static_child@[j]);
                        assert(models_of(old(self).static_child@)[j] == old(
                            self,
                        ).static_child@[j].model());
                    }
                }
                assert(self.model().statics =~= m0.statics.update(
                    idx as int,
                    inter.model(),
                ));
                assert(self.model() =~= spec_split(m0, idx as int, token@).0);
            }
            l
        }
    }

    /// Registers `(method, value)` under `path` below this node,
    /// threading the parameter names collected so far.
    fn insert_path(
        &mut self,
        method: Method,
        path: &str,
        value: V,
        param_names: Option<Vec<String>>,
    ) -> (r: Result<(), RouteError>)
        ensures
            final(self).model() == spec_insert(
                old(self).model(),
                method,
                path@,
                value,
                names_view(param_names),
            ).0,
            r == spec_insert(old(self).model(), method, path@, value, names_view(param_names)).1,
        decreases path@.len(),
    {
        let ghost m0 = old(self).model();
        let ghost nv = names_view(param_names);
        if path.is_empty() {
            match param_names {
                Some(ns) => {
                    if self.leaf_param_names.is_some() {
                        let ex = self.leaf_param_names.as_ref().unwrap();
                        if ns.len() != ex.len() {
                            proof {
                                assert(ns.deep_view().len() != ex.deep_view().len());
                            }
                            return Err(RouteError::ParamCountMismatch);
                        }
                        if !names_equal(&ns, ex) {
                            return Err(RouteError::AmbiguousParams);
                        }
                        let r = self.set_handler(method, value);
                        return r;
                    } else {
                        self.leaf_param_names = Some(ns);
                        let ghost m1 = self.model();
                        proof {
                            assert(m1 =~= (NodeModel { names: nv, ..m0 }));
                        }
                        let r = self.set_handler(method, value);
                        return r;
                    }
                },
                None => {
                    let r = self.set_handler(method, value);
                    return r;
                },
            }
        }
        let n = path.unicode_len();
        let first_char = char_at(path, 0);
        proof {
            lemma_slash_pos(path@);
        }
        if first_char == '$' {
            let sp = find_slash(path);
            let name: String = path.substring_char(1, sp).to_owned();
            let rest: &str = path.substring_char(sp, n);
            if self.param_child.is_none() {
                let child = Node::blank(name.clone());
                self.param_child = Some(Box::new(child));
            }
            let mut names2: Vec<String> = match param_names {
                Some(v) => v,
                None => Vec::new(),
            };
            let ghost dv0 = names2.deep_view();
            names2.push(name);
            proof {
                assert(names2.deep_view() =~= dv0.push(path@.subrange(1, sp as int)));
                assert(names_view(Some(names2)) == Some(dv0.push(path@.subrange(1, sp as int))));
                match nv {
                    Some(ns0) => assert(dv0 == ns0),
                    None => assert(dv0 =~= Seq::<Seq<char>>::empty()),
                }
            }
            let mut pc: Node<V> = *self.param_child.take().unwrap();
            let ghost pc_m = pc.model();
            proof {
                match m0.param {
                    Some(b) => assert(pc_m == *b),
                    None => assert(pc_m =~= blank_model(path@.subrange(1, sp as int))),
                }
            }
            let r = pc.insert_path(method, rest, value, Some(names2));
            self.param_child = Some(Box::new(pc));
            proof {
                assert(self.static_child@ == old(self).static_child@);
                assert(self.model() =~= (NodeModel {
                    param: Some(Box::new(spec_insert(pc_m, method, rest@, value, nv_push(nv, path@.subrange(1, sp as int))).0)),
                    ..m0
                }));
                assert(self.model() == spec_insert(m0, method, path@, value, nv).0);
            }
            r
        } else if first_char == '*' {
            if n != 1 {
                proof {
                    assert(path@.len() != seq!['*'].len());
                }
                return Err(RouteError::MalformedWildcard);
            }
            proof {
                assert(path@ =~= seq!['*']);
            }
            if self.star_child.is_none() {
                self.star_child = Some(Box::new(Node::blank(String::new())));
            }
            let mut sc: Node<V> = *self.star_child.take().unwrap();
            let ghost sc_m = sc.model();
            proof {
                match m0.star {
                    Some(b) => assert(sc_m == *b),
                    None => assert(sc_m =~= blank_model(Seq::<char>::empty())),
                }
            }
            let r = sc.set_handler(method, value);
            if r.is_ok() {
                sc.leaf_param_names = param_names;
            }
            self.star_child = Some(Box::new(sc));
            proof {
                assert(self.static_child@ == old(self).static_child@);
                if sc_m.handlers.dom().contains(method) {
                    assert(sc.model() == sc_m);
                    assert(self.model() =~= m0);
                } else {
                    assert(sc.model() =~= (NodeModel {
                        handlers: sc_m.handlers.insert(method, value),
                        names: nv,
                        ..sc_m
                    }));
                    assert(self.model() =~= spec_insert(m0, method, path@, value, nv).0);
                }
            }
            r
        } else {
            let tl: usize = if first_char == '/' {
                1
            } else {
                find_slash(path)
            };
            proof {
                assert(tl as int == token_len(path@));
            }
            let token: &str = path.substring_char(0, tl);
            let idx = self.find_static_idx(first_char);
            if idx < self.static_child.len() {
                proof {
                    lemma_match_idx(m0.statics, first_char);
                }
                let consumed = self.split_common_prefix(idx, token);
                let ghost m1 = self.model();
                let ghost sv = self.static_child@;
                let mut child: Node<V> = self.static_child.remove(idx);
                let ghost child_m = child.model();
                proof {
                    lemma_models_of(sv);
                    assert(child_m == m1.statics[idx as int]);
                }
                let rest = path.substring_char(consumed, n);
                let r = child.insert_path(method, rest, value, param_names);
                self.static_child.insert(idx, child);
                proof {
                    assert(self.static_child@ =~= sv.update(idx as int, child));
                    lemma_models_of(self.static_child@);
                    assert forall|j: int| 0 <= j < self.static_child@.len() implies models_of(
                        self.static_child@,
                    )[j] == m1.statics.update(idx as int, child.model())[j] by {
                        assert(models_of(self.static_child@)[j] == self.static_child@[j].model());
                        if j != idx {
                            assert(self.static_child@[j] == sv[j]);
                            assert(models_of(sv)[j] == sv[j].model());
                        }
                    }
                    assert(self.model().statics =~= m1.statics.update(
                        idx as int,
                        child.model(),
                    ));
                    assert(rest@ == path@.skip(consumed as int));
                    assert(self.model() =~= spec_insert(m0, method, path@, value, nv).0);
                }
                r
            } else {
                let mut child = Node::blank(token.to_owned());
                let rest = path.substring_char(tl, n);
                let ghost child_m = child.model();
                let r = child.insert_path(method, rest, value, param_names);
                self.static_child.push(child);
                proof {
                    assert(child_m =~= blank_model(path@.take(tl as int)));
                    assert(self.static_child@ =~= old(self).static_child@.push(child));
                    lemma_models_of(old(self).static_child@);
                    lemma_models_of(self.static_child@);
                    assert forall|j: int| 0 <= j < self.static_child@.len() implies models_of(
                        self.static_child@,
                    )[j] == m0.statics.push(child.model())[j] by {
                        assert(models_of(self.static_child@)[j] == self.static_child@[j].model());
                        if j < old(self).static_child@.len() {
                            assert(self.static_child@[j] == old(self).static_child@[j]);
                            assert(models_of(old(self).static_child@)[j] == old(
                                self,
                            ).static_child@[j].model());
                        }
                    }
                    assert(self.model().statics =~= m0.statics.push(child.model()));
                    assert(rest@ == path@.skip(tl as int));
                    assert(self.model() =~= spec_insert(m0, method, path@, value, nv).0);
                }
                r
            }
        }
    }
}

/// A non-empty handler list puts its last method into the map, so the map
/// is empty exactly when the list is.
proof fn lemma_handler_map_is_empty<V>(s: Seq<(Method, V)>)
    ensures
        (handler_map(s).dom() =~= Set::empty()) <==> s.len() == 0,
{
    if s.len() > 0 {
        assert(handler_map(s).dom().contains(s.last().0));
    } else {
        assert(handler_map(s).dom() =~= Set::<Method>::empty());
    }
}

/// True when `s` is the bare separator segment.
fn str_is_slash(s: &str) -> (r: bool)
    ensures
        r == (s@ == "/"@),
{
    proof {
        reveal_strlit("/");
    }
    if s.unicode_len() == 1 && char_at(s, 0) == '/' {
        proof {
            assert(s@ =~= "/"@);
        }
        true
    } else {
        proof {
            assert(s@ != "/"@);
        }
        false
    }
}

impl<V: Copy> Node<V> {
    /// Clears every handler registered under `path` below this node,
    /// pruning nodes that died and collapsing one level of single-child
    /// chains.
    fn remove_path(&mut self, path: &str)
        ensures
            final(self).model() == spec_remove(old(self).model(), path@),
        decreases path@.len(),
    {
        let ghost m0 = old(self).model();
        if path.is_empty() {
            self.leaf_handler.clear();
            self.leaf_param_names = None;
            proof {
                assert(self.model() =~= spec_remove(m0, path@));
            }
            return;
        }
        let n = path.unicode_len();
        let first_char = char_at(path, 0);
        proof {
            lemma_slash_pos(path@);
            lemma_match_idx(m0.statics, first_char);
            lemma_models_of(self.static_child@);
        }
        let idx = self.find_static_idx(first_char);
        let static_hit = idx < self.static_child.len() && str_has_prefix(
            path,
            self.static_child[idx].path.as_str(),
        );
        if static_hit {
            let child_len = self.static_child[idx].path.as_str().unicode_len();
            let ghost sv = self.static_child@;
            let mut child: Node<V> = self.static_child.remove(idx);
            let ghost child_m = child.model();
            proof {
                assert(child_m == m0.statics[idx as int]);
            }
            let rest = path.substring_char(child_len, n);
            child.remove_path(rest);
            let ghost child2_m = child.model();
            proof {
                assert(child2_m == spec_remove(child_m, path@.skip(child_m.seg.len() as int)));
                lemma_handler_map_is_empty(child.leaf_handler@);
                lemma_models_of(child.static_child@);
                lemma_models_of(self.static_child@);
                assert forall|j: int| 0 <= j < self.static_child@.len() implies models_of(
                    self.static_child@,
                )[j] == m0.statics.remove(idx as int)[j] by {
                    assert(models_of(self.static_child@)[j] == self.static_child@[j].model());
                    if j < idx {
                        assert(self.static_child@[j] == sv[j]);
                    } else {
                        assert(self.static_child@[j] == sv[j + 1]);
                    }
                }
                assert(models_of(self.static_child@) =~= m0.statics.remove(idx as int));
            }
            if child.leaf_handler.is_empty() && child.static_child.is_empty()
                && child.param_child.is_none() && child.star_child.is_none() {
                proof {
                    assert(self.model().statics =~= m0.statics.remove(idx as int));
                    assert(self.model() =~= spec_remove(m0, path@));
                }
            } else {
                let ghost pre = models_of(self.static_child@);
                let merge_shape = self.merge_back(idx, child);
                proof {
                    let target = spec_remove(m0, path@);
                    assert(self.model().statics == pre.insert(
                        idx as int,
                        target.statics[idx as int],
                    ));
                    assert(self.model().statics =~= target.statics);
                    assert(self.model() =~= target);
                }
            }
            return;
        }
        if first_char == '$' && self.param_child.is_some() {
            let sp = find_slash(path);
            let mut pc: Node<V> = *self.param_child.take().unwrap();
            let rest = path.substring_char(sp, n);
            pc.remove_path(rest);
            proof {
                lemma_handler_map_is_empty(pc.leaf_handler@);
                lemma_models_of(pc.static_child@);
            }
            if pc.leaf_handler.is_empty() && pc.static_child.is_empty() {
                proof {
                    assert(self.model() =~= spec_remove(m0, path@));
                }
            } else {
                self.param_child = Some(Box::new(pc));
                proof {
                    assert(self.model() =~= spec_remove(m0, path@));
                }
            }
            return;
        }
        if first_char == '*' {
            self.star_child = None;
            proof {
                assert(self.model() =~= spec_remove(m0, path@));
            }
            return;
        }
        proof {
            assert(self.model() =~= spec_remove(m0, path@));
        }
    }

    /// Puts a child that survived a removal back at `idx`, collapsing it
    /// into its sole static grandchild when it carries nothing itself.
    /// Returns whether the collapse happened.
    fn merge_back(&mut self, idx: usize, child: Node<V>) -> (merged: bool)
        requires
            idx <= old(self).static_child@.len(),
        ensures
            ({
                let cm = child.model();
                let do_merge = cm.handlers.dom() =~= Set::empty() && cm.statics.len() == 1
                    && cm.param is None && cm.seg != "/"@ && cm.statics[0].seg != "/"@;
                &&& merged == do_merge
                &&& final(self).static_child@.len() == old(self).static_child@.len() + 1
                &&& models_of(final(self).static_child@) == models_of(
                    old(self).static_child@,
                ).insert(
                    idx as int,
                    if do_merge {
                        NodeModel { seg: cm.seg + cm.statics[0].seg, ..cm.statics[0] }
                    } else {
                        cm
                    },
                )
                &&& final(self).path == old(self).path
                &&& final(self).param_child == old(self).param_child
                &&& final(self).star_child == old(self).star_child
                &&& final(self).leaf_handler == old(self).leaf_handler
                &&& final(self).leaf_param_names == old(self).leaf_param_names
            }),
    {
        let ghost cm = child.model();
        proof {
            lemma_handler_map_is_empty(child.leaf_handler@);
            lemma_models_of(child.static_child@);
        }
        let mut child = child;
        let can_merge = child.leaf_handler.is_empty() && child.static_child.len() == 1
            && child.param_child.is_none() && !str_is_slash(child.path.as_str());
        if can_merge {
            proof {
                assert(child.static_child@[0].model() == cm.statics[0]);
            }
            if !str_is_slash(child.static_child[0].path.as_str()) {
                let mut grand: Node<V> = child.static_child.remove(0);
                let mut joined: String = child.path;
                joined.append(grand.path.as_str());
                grand.path = joined;
                proof {
                    assert(grand.model() =~= (NodeModel {
                        seg: cm.seg + cm.statics[0].seg,
                        ..cm.statics[0]
                    }));
                }
                let ghost g = grand;
                self.static_child.insert(idx, grand);
                proof {
                    lemma_models_of(old(self).static_child@);
                    lemma_models_of(self.static_child@);
                    assert forall|j: int| 0 <= j < self.static_child@.len() implies models_of(
                        self.static_child@,
                    )[j] == models_of(old(self).static_child@).insert(idx as int, g.model())[j] by {
                        assert(models_of(self.static_child@)[j] == self.static_child@[j].model());
                        if j < idx {
                            assert(self.static_child@[j] == old(self).static_child@[j]);
                        } else if j > idx {
                            assert(self.static_child@[j] == old(self).static_child@[j - 1]);
                        }
                    }
                    assert(models_of(self.static_child@) =~= models_of(
                        old(self).static_child@,
                    ).insert(idx as int, g.model()));
                }
                return true;
            }
        }
        let ghost c = child;
        self.static_child.insert(idx, child);
        proof {
            lemma_models_of(old(self).static_child@);
            lemma_models_of(self.static_child@);
            assert forall|j: int| 0 <= j < self.static_child@.len() implies models_of(
                self.static_child@,
            )[j] == models_of(old(self).static_child@).insert(idx as int, c.model())[j] by {
                assert(models_of(self.static_child@)[j] == self.static_child@[j].model());
                if j < idx {
                    assert(self.static_child@[j] == old(self).static_child@[j]);
                } else if j > idx {
                    assert(self.static_child@[j] == old(self).static_child@[j - 1]);
                }
            }
            assert(models_of(self.static_child@) =~= models_of(old(self).static_child@).insert(
                idx as int,
                c.model(),
            ));
        }
        false
    }
}

impl<V: Copy> Node<V> {
    /// Replaces the handler for `method` under `path` below this node,
    /// leaving the structure untouched; fails if no handler is there.
    fn update_path(&mut self, method: Method, path: &str, value: V) -> (r: Result<
        (),
        RouteError,
    >)
        ensures
            final(self).model() == spec_update(old(self).model(), method, path@, value).0,
            r == spec_update(old(self).model(), method, path@, value).1,
        decreases path@.len(),
    {
        let ghost m0 = old(self).model();
        if path.is_empty() {
            let r = self.update_handler(method, value);
            proof {
                if m0.handlers.dom().contains(method) {
                    assert(self.model() =~= spec_update(m0, method, path@, value).0);
                }
            }
            return r;
        }
        let n = path.unicode_len();
        let first_char = char_at(path, 0);
        proof {
            lemma_slash_pos(path@);
            lemma_match_idx(m0.statics, first_char);
            lemma_models_of(self.static_child@);
        }
        let idx = self.find_static_idx(first_char);
        let static_hit = idx < self.static_child.len() && str_has_prefix(
            path,
            self.static_child[idx].path.as_str(),
        );
        if static_hit {
            let child_len = self.static_child[idx].path.as_str().unicode_len();
            let ghost sv = self.static_child@;
            let mut child: Node<V> = self.static_child.remove(idx);
            let rest = path.substring_char(child_len, n);
            let r = child.update_path(method, rest, value);
            self.static_child.insert(idx, child);
            proof {
                assert(self.static_child@ =~= sv.update(idx as int, child));
                lemma_models_of(self.static_child@);
                assert forall|j: int| 0 <= j < self.static_child@.len() implies models_of(
                    self.static_child@,
                )[j] == m0.statics.update(idx as int, child.model())[j] by {
                    assert(models_of(self.static_child@)[j] == self.static_child@[j].model());
                    if j != idx {
                        assert(self.static_child@[j] == sv[j]);
                        assert(models_of(sv)[j] == sv[j].model());
                    }
                }
                assert(self.model().statics =~= m0.statics.update(idx as int, child.model()));
                assert(self.model() =~= spec_update(m0, method, path@, value).0);
            }
            return r;
        }
        if first_char == '$' && self.param_child.is_some() {
            let sp = find_slash(path);
            let mut pc: Node<V> = *self.param_child.take().unwrap();
            let rest = path.substring_char(sp, n);
            let r = pc.update_path(method, rest, value);
            self.param_child = Some(Box::new(pc));
            proof {
                assert(self.static_child@ == old(self).static_child@);
                assert(self.model() =~= spec_update(m0, method, path@, value).0);
            }
            return r;
        }
        if first_char == '*' && self.star_child.is_some() {
            let mut sc: Node<V> = *self.star_child.take().unwrap();
            let ghost sc_m = sc.model();
            let r = sc.update_handler(method, value);
            self.star_child = Some(Box::new(sc));
            proof {
                assert(self.static_child@ == old(self).static_child@);
                if sc_m.handlers.dom().contains(method) {
                    assert(self.model() =~= spec_update(m0, method, path@, value).0);
                } else {
                    assert(self.model() =~= m0);
                }
            }
            return r;
        }
        proof {
            assert(self.model() == m0);
        }
        Err(RouteError::UnknownRoute)
    }
}

/// What one recursive lookup step reports upward: the value for the
/// requested method (if the leaf had one), the leaf's parameter names, and
/// the parameter values consumed so far.
struct MatchResult<V> {
    /// The handler found, or nothing when a leaf matched without one for
    /// the requested method.
    value: Option<V>,
    /// The names of the path parameters, from the matched leaf.
    param_names: Vec<String>,
    /// The values of the path parameters, root-to-leaf.
    param_values: Vec<String>,
}

impl<V: Copy> Node<V> {
    /// Looks `path` up below this node: literal children first, then the
    /// parameter child on a non-empty segment, then the wildcard child.
    fn internal_search(&self, method: Method, path: &str) -> (r: Option<MatchResult<V>>)
        ensures
            match spec_search(self.model(), method, path@) {
                SearchStep::Miss => r is None,
                SearchStep::MethodMiss => r matches Some(mr) && mr.value is None,
                SearchStep::Found { value, names, values } => r matches Some(mr) && mr.value
                    == Some(value) && mr.param_names.deep_view() == names
                    && mr.param_values.deep_view() == values,
            },
        decreases path@.len(),
    {
        let ghost m = self.model();
        if path.is_empty() {
            proof {
                lemma_handler_map_is_empty(self.leaf_handler@);
            }
            if self.leaf_handler.is_empty() {
                return None;
            }
            let v = self.lookup_handler(method);
            let names: Vec<String> = match &self.leaf_param_names {
                Some(ns) => clone_names(ns),
                None => Vec::new(),
            };
            proof {
                assert(names.deep_view() =~= names_or_empty(m.names));
            }
            return Some(MatchResult { value: v, param_names: names, param_values: Vec::new() });
        }
        let n = path.unicode_len();
        let first_char = char_at(path, 0);
        proof {
            lemma_slash_pos(path@);
            lemma_match_idx(m.statics, first_char);
            lemma_models_of(self.static_child@);
        }
        let idx = self.find_static_idx(first_char);
        let static_hit = idx < self.static_child.len() && str_has_prefix(
            path,
            self.static_child[idx].path.as_str(),
        );
        if static_hit {
            let child = &self.static_child[idx];
            let child_len = child.path.as_str().unicode_len();
            let rest = path.substring_char(child_len, n);
            let found = child.internal_search(method, rest);
            let return_now = match &found {
                Some(mr) => mr.value.is_some(),
                None => false,
            };
            if return_now {
                return found;
            }
        }
        if self.param_child.is_some() {
            let sp = find_slash(path);
            if sp > 0 {
                let bound: String = path.substring_char(0, sp).to_owned();
                let rest = path.substring_char(sp, n);
                let pc_ref: &Box<Node<V>> = self.param_child.as_ref().unwrap();
                let found = (**pc_ref).internal_search(method, rest);
                match found {
                    Some(mut mr) => {
                        if mr.value.is_some() {
                            let mut vals: Vec<String> = Vec::new();
                            vals.push(bound);
                            let ghost tail = mr.param_values.deep_view();
                            vals.append(&mut mr.param_values);
                            mr.param_values = vals;
                            proof {
                                assert(mr.param_values.deep_view() =~= seq![
                                    path@.take(sp as int),
                                ] + tail);
                            }
                            return Some(mr);
                        }
                    },
                    None => {},
                }
            }
        }
        if self.star_child.is_some() {
            let sc_ref: &Box<Node<V>> = self.star_child.as_ref().unwrap();
            let sc: &Node<V> = &**sc_ref;
            let v = sc.lookup_handler(method);
            if v.is_some() {
                let names: Vec<String> = match &sc.leaf_param_names {
                    Some(ns) => clone_names(ns),
                    None => Vec::new(),
                };
                proof {
                    assert(names.deep_view() =~= names_or_empty(sc.model().names));
                }
                return Some(
                    MatchResult { value: v, param_names: names, param_values: Vec::new() },
                );
            }
        }
        None
    }
}

/// A single path parameter: a name from the registered pattern and the
/// value bound to it by the looked-up path.
#[derive(Debug)]
pub struct Param {
    name: String,
    value: String,
}

impl Param {
    /// The parameter's name, as the pattern declared it.
    pub closed spec fn spec_name(self) -> Seq<char> {
        self.name@
    }

    /// The segment of the looked-up path bound to this parameter.
    pub closed spec fn spec_value(self) -> Seq<char> {
        self.value@
    }

    /// The parameter's name.
    pub fn name(&self) -> (s: &String)
        ensures
            s@ == self.spec_name(),
    {
        &self.name
    }

    /// The value bound to the parameter.
    pub fn value(&self) -> (s: &String)
        ensures
            s@ == self.spec_value(),
    {
        &self.value
    }

    /// A parameter built from a name and the value bound to it.
    fn new(name: String, value: String) -> (p: Param)
        ensures
            p.spec_name() == name@,
            p.spec_value() == value@,
    {
        Param { name, value }
    }
}

impl<V> MatchResult<V> {
    /// Pairs parameter names with the values bound during the lookup,
    /// position by position.
    fn from_params(&self) -> (ps: Vec<Param>)
        ensures
            ps@.len() == zip_params(
                self.param_names.deep_view(),
                self.param_values.deep_view(),
            ).len(),
            forall|i: int| 0 <= i < ps@.len() ==> (#[trigger] ps@[i]).spec_name() == zip_params(
                self.param_names.deep_view(),
                self.param_values.deep_view(),
            )[i].0 && ps@[i].spec_value() == zip_params(
                self.param_names.deep_view(),
                self.param_values.deep_view(),
            )[i].1,
    {
        let k: usize = if self.param_names.len() <= self.param_values.len() {
            self.param_names.len()
        } else {
            self.param_values.len()
        };
        let mut ps: Vec<Param> = Vec::new();
        let mut i: usize = 0;
        while i < k
            invariant
                i <= k,
                k <= self.param_names@.len(),
                k <= self.param_values@.len(),
                ps@.len() == i,
                forall|j: int| 0 <= j < i ==> (#[trigger] ps@[j]).spec_name()
                    == self.param_names@[j]@ && ps@[j].spec_value() == self.param_values@[j]@,
            decreases k - i,
        {
            ps.push(Param::new(self.param_names[i].clone(), self.param_values[i].clone()));
            i = i + 1;
        }
        ps
    }
}

/// The result of a successful lookup: the registered value and the
/// parameters bound while matching, in root-to-leaf order.
#[derive(Debug)]
pub struct SearchResult<V> {
    value: V,
    params: Vec<Param>,
}

impl<V> SearchResult<V> {
    /// The value registered for the matched route.
    pub closed spec fn spec_value(self) -> V {
        self.value
    }

    /// The (name, value) pairs bound while matching.
    pub closed spec fn spec_params(self) -> Seq<(Seq<char>, Seq<char>)> {
        Seq::new(
            self.params@.len(),
            |i: int| (self.params@[i].spec_name(), self.params@[i].spec_value()),
        )
    }

    /// The value registered for the matched route.
    pub fn value(&self) -> (v: &V)
        ensures
            *v == self.spec_value(),
    {
        &self.value
    }

    /// The parameters bound while matching, in root-to-leaf order.
    pub fn params(&self) -> (ps: &Vec<Param>)
        ensures
            ps@.len() == self.spec_params().len(),
            forall|i: int| 0 <= i < ps@.len() ==> (#[trigger] ps@[i]).spec_name()
                == self.spec_params()[i].0 && ps@[i].spec_value() == self.spec_params()[i].1,
    {
        &self.params
    }
}

/// Removes a single leading `/`, if present.
fn strip_start_slash(path: &str) -> (r: &str)
    ensures
        r@ == spec_strip(path@),
{
    if !path.is_empty() && char_at(path, 0) == '/' {
        let r = path.substring_char(1, path.unicode_len());
        proof {
            assert(r@ =~= spec_strip(path@));
        }
        r
    } else {
        path
    }
}

impl<V: Copy> Node<V> {
    /// Registers `value` for `(method, path)`. Fails on a second
    /// registration of the same method and path, on parameter names that
    /// clash with an earlier registration reaching the same leaf, and on
    /// a wildcard token with trailing characters.
    pub fn insert(&mut self, method: Method, path: &str, value: V) -> (r: Result<
        (),
        RouteError,
    >)
        ensures
            final(self).model() == spec_insert(
                old(self).model(),
                method,
                spec_strip(path@),
                value,
                None,
            ).0,
            r == spec_insert(old(self).model(), method, spec_strip(path@), value, None).1,
    {
        self.insert_path(method, strip_start_slash(path), value, None)
    }

    /// Clears every method's handler registered at `path`; a path that
    /// matches nothing leaves the routes unchanged.
    pub fn remove(&mut self, path: &str)
        ensures
            final(self).model() == spec_remove(old(self).model(), spec_strip(path@)),
    {
        self.remove_path(strip_start_slash(path));
    }

    /// Replaces the handler registered for `(method, path)` without
    /// altering the structure; fails if none is registered there.
    pub fn update(&mut self, method: Method, path: &str, value: V) -> (r: Result<
        (),
        RouteError,
    >)
        ensures
            final(self).model() == spec_update(
                old(self).model(),
                method,
                spec_strip(path@),
                value,
            ).0,
            r == spec_update(old(self).model(), method, spec_strip(path@), value).1,
    {
        self.update_path(method, strip_start_slash(path), value)
    }

    /// Looks `(method, path)` up and returns the registered value with
    /// its parameter bindings. `None` covers both a path that matches
    /// nothing and a matching leaf without a handler for the method.
    pub fn search(&self, method: Method, path: &str) -> (r: Option<SearchResult<V>>)
        ensures
            match spec_search(self.model(), method, spec_strip(path@)) {
                SearchStep::Found { value, names, values } => r matches Some(sr)
                    && sr.spec_value() == value && sr.spec_params() == zip_params(names, values),
                _ => r is None,
            },
    {
        match self.internal_search(method, strip_start_slash(path)) {
            None => None,
            Some(mr) => {
                if mr.value.is_some() {
                    let params = mr.from_params();
                    let v = mr.value.unwrap();
                    let sr = SearchResult { value: v, params };
                    proof {
                        match spec_search(self.model(), method, spec_strip(path@)) {
                            SearchStep::Found { value, names, values } => {
                                assert(sr.spec_params() =~= zip_params(names, values));
                            },
                            _ => {},
                        }
                    }
                    Some(sr)
                } else {
                    None
                }
            },
        }
    }
}

/// The longest common prefix is pinned down by agreeing up to it and
/// disagreeing (or running out) right after it.
proof fn lemma_common_len_unique(a: Seq<char>, b: Seq<char>, l: int)
    requires
        0 <= l <= a.len(),
        l <= b.len(),
        forall|j: int| 0 <= j < l ==> a[j] == b[j],
        l < a.len() && l < b.len() ==> a[l] != b[l],
    ensures
        common_len(a, b) == l,
    decreases a.len(),
{
    if a.len() > 0 && b.len() > 0 && a[0] == b[0] {
        assert(l != 0);
        assert forall|j: int| 0 <= j < l - 1 implies a.drop_first()[j] == b.drop_first()[j] by {
            assert(a[j + 1] == b[j + 1]);
        }
        assert(l - 1 < a.drop_first().len() && l - 1 < b.drop_first().len() ==> a[l] != b[l]);
        lemma_common_len_unique(a.drop_first(), b.drop_first(), l - 1);
    }
}

/// Every parameter value a successful lookup binds is non-empty: an
/// empty segment never matches a parameter branch, so a path such as
/// `/users/` does not match a pattern such as `/users/$id`.
pub proof fn lemma_search_binds_nonempty<V>(n: NodeModel<V>, method: Method, p: Seq<char>)
    ensures
        spec_search(n, method, p) matches SearchStep::Found { values, .. } ==> forall|i: int|
            0 <= i < values.len() ==> (#[trigger] values[i]).len() > 0,
    decreases p.len(),
{
    if p.len() > 0 {
        let c = p[0];
        lemma_slash_pos(p);
        lemma_match_idx(n.statics, c);
        let idx = match_idx(n.statics, c);
        if idx < n.statics.len() && is_prefix_of(n.statics[idx].seg, p) {
            lemma_search_binds_nonempty(
                n.statics[idx],
                method,
                p.skip(n.statics[idx].seg.len() as int),
            );
        }
        let sp = slash_pos(p);
        if n.param is Some && sp > 0 {
            lemma_search_binds_nonempty(*n.param.unwrap(), method, p.skip(sp));
            match spec_search(*n.param.unwrap(), method, p.skip(sp)) {
                SearchStep::Found { values, .. } => {
                    let all = seq![p.take(sp)] + values;
                    assert forall|i: int| 0 <= i < all.len() implies (#[trigger] all[i]).len()
                        > 0 by {
                        if i == 0 {
                            assert(all[0] == p.take(sp));
                        } else {
                            assert(all[i] == values[i - 1]);
                        }
                    }
                },
                _ => {},
            }
        }
    }
}

/// Structural well-formedness of a tree: every static child carries a
/// non-empty segment, sibling static segments have pairwise-distinct
/// first characters, and a wildcard child is always a leaf.
pub open spec fn wf<V>(n: NodeModel<V>) -> bool
    decreases n,
{
    &&& forall|i: int| 0 <= i < n.statics.len() ==> (#[trigger] n.statics[i]).seg.len() > 0 && wf(
        n.statics[i],
    )
    &&& forall|i: int, j: int| 0 <= i < j < n.statics.len() ==> (#[trigger] n.statics[i]).seg[0]
        != (#[trigger] n.statics[j]).seg[0]
    &&& (n.param matches Some(b) ==> wf(*b))
    &&& (n.star matches Some(b) ==> (*b).statics.len() == 0 && (*b).param is None && (*b).star
        is None)
}

/// A freshly created tree is well-formed.
pub proof fn lemma_new_wf<V>()
    ensures
        wf(root_model::<V>()),
{
}

/// Registration never changes the segment a node owns.
proof fn lemma_insert_preserves_seg<V>(
    n: NodeModel<V>,
    method: Method,
    p: Seq<char>,
    value: V,
    names: Option<Seq<Seq<char>>>,
)
    ensures
        spec_insert(n, method, p, value, names).0.seg == n.seg,
{
}

/// Removal never changes the segment a node owns.
proof fn lemma_remove_preserves_seg<V>(n: NodeModel<V>, p: Seq<char>)
    ensures
        spec_remove(n, p).seg == n.seg,
{
}

/// Update never changes the segment a node owns.
proof fn lemma_update_preserves_seg<V>(n: NodeModel<V>, method: Method, p: Seq<char>, value: V)
    ensures
        spec_update(n, method, p, value).0.seg == n.seg,
{
}

/// Registration keeps the tree well-formed: the invariants of the data
/// model survive every insertion, successful or failed.
pub proof fn lemma_insert_wf<V>(
    n: NodeModel<V>,
    method: Method,
    p: Seq<char>,
    value: V,
    names: Option<Seq<Seq<char>>>,
)
    requires
        wf(n),
    ensures
        wf(spec_insert(n, method, p, value, names).0),
    decreases p.len(),
{
    let out = spec_insert(n, method, p, value, names).0;
    if p.len() == 0 {
        assert(out.statics == n.statics);
        assert(out.param == n.param);
        assert(out.star == n.star);
        assert(wf(out));
    } else {
        let c = p[0];
        lemma_slash_pos(p);
        lemma_match_idx(n.statics, c);
        if c == '$' {
            let sp = slash_pos(p);
            let name = p.subrange(1, sp);
            let child = match n.param {
                Some(b) => *b,
                None => blank_model(name),
            };
            let names2 = match names {
                Some(ns) => ns.push(name),
                None => seq![name],
            };
            lemma_insert_wf(child, method, p.skip(sp), value, Some(names2));
            assert(wf(out));
        } else if c == '*' {
            assert(wf(out));
        } else {
            let tl = token_len(p);
            let tok = p.take(tl);
            let idx = match_idx(n.statics, c);
            if idx < n.statics.len() {
                let child = n.statics[idx];
                lemma_common_len(tok, child.seg);
                let (n2, consumed) = spec_split(n, idx, tok);
                if !is_prefix_of(child.seg, tok) {
                    let l = common_len(tok, child.seg);
                    assert(l < child.seg.len()) by {
                        if l == child.seg.len() {
                            assert(tok.take(l) == child.seg.take(l));
                            assert(child.seg.take(l) =~= child.seg);
                            assert(is_prefix_of(child.seg, tok));
                        }
                    }
                    let demoted = NodeModel { seg: child.seg.skip(l), ..child };
                    assert(wf(demoted)) by {
                        assert(wf(child));
                    }
                    let inter = n2.statics[idx];
                    assert(inter.statics == seq![demoted]);
                    assert(wf(inter)) by {
                        assert(inter.statics[0] == demoted);
                    }
                    assert(inter.seg == tok.take(l));
                    assert(inter.seg[0] == tok[0]);
                }
                assert(wf(n2)) by {
                    assert forall|i: int| 0 <= i < n2.statics.len() implies (
                    #[trigger] n2.statics[i]).seg.len() > 0 && wf(n2.statics[i]) by {
                        if i != idx {
                            assert(n2.statics[i] == n.statics[i]);
                        }
                    }
                    assert forall|i: int, j: int| 0 <= i < j < n2.statics.len() implies (
                    #[trigger] n2.statics[i]).seg[0] != (#[trigger] n2.statics[j]).seg[0] by {
                        assert(n2.statics[idx].seg[0] == n.statics[idx].seg[0]);
                        if i != idx {
                            assert(n2.statics[i] == n.statics[i]);
                        }
                        if j != idx {
                            assert(n2.statics[j] == n.statics[j]);
                        }
                    }
                }
                lemma_insert_wf(n2.statics[idx], method, p.skip(consumed), value, names);
                lemma_insert_preserves_seg(n2.statics[idx], method, p.skip(consumed), value, names);
                let child2 = spec_insert(n2.statics[idx], method, p.skip(consumed), value, names).0;
                assert(wf(out)) by {
                    assert(out.statics == n2.statics.update(idx, child2));
                    assert(child2.seg == n2.statics[idx].seg);
                    assert forall|i: int| 0 <= i < out.statics.len() implies (
                    #[trigger] out.statics[i]).seg.len() > 0 && wf(out.statics[i]) by {
                        if i != idx {
                            assert(out.statics[i] == n2.statics[i]);
                        }
                    }
                    assert forall|i: int, j: int| 0 <= i < j < out.statics.len() implies (
                    #[trigger] out.statics[i]).seg[0] != (#[trigger] out.statics[j]).seg[0] by {
                        if i != idx {
                            assert(out.statics[i] == n2.statics[i]);
                        }
                        if j != idx {
                            assert(out.statics[j] == n2.statics[j]);
                        }
                    }
                }
            } else {
                lemma_insert_wf(blank_model(tok), method, p.skip(tl), value, names);
                lemma_insert_preserves_seg(blank_model(tok), method, p.skip(tl), value, names);
                let child = spec_insert(blank_model(tok), method, p.skip(tl), value, names).0;
                assert(wf(out)) by {
                    assert(out.statics == n.statics.push(child));
                    assert(child.seg == tok);
                    assert forall|i: int| 0 <= i < out.statics.len() implies (
                    #[trigger] out.statics[i]).seg.len() > 0 && wf(out.statics[i]) by {
                        if i < n.statics.len() {
                            assert(out.statics[i] == n.statics[i]);
                        } else {
                            assert(out.statics[i] == child);
                        }
                    }
                    assert forall|i: int, j: int| 0 <= i < j < out.statics.len() implies (
                    #[trigger] out.statics[i]).seg[0] != (#[trigger] out.statics[j]).seg[0] by {
                        if j < n.statics.len() {
                            assert(out.statics[i] == n.statics[i]);
                            assert(out.statics[j] == n.statics[j]);
                        } else {
                            assert(out.statics[j] == child);
                            assert(out.statics[i] == n.statics[i]);
                            assert(!(n.statics[i].seg.len() > 0 && n.statics[i].seg[0] == c));
                        }
                    }
                }
            }
        }
    }
}

/// Removal keeps the tree well-formed: pruning, chain collapsing and
/// branch dropping preserve the invariants of the data model.
pub proof fn lemma_remove_wf<V>(n: NodeModel<V>, p: Seq<char>)
    requires
        wf(n),
    ensures
        wf(spec_remove(n, p)),
    decreases p.len(),
{
    let out = spec_remove(n, p);
    if p.len() == 0 {
        assert(wf(out));
    } else {
        let c = p[0];
        lemma_slash_pos(p);
        lemma_match_idx(n.statics, c);
        let idx = match_idx(n.statics, c);
        if idx < n.statics.len() && is_prefix_of(n.statics[idx].seg, p) {
            let child = n.statics[idx];
            let rest = p.skip(child.seg.len() as int);
            lemma_remove_wf(child, rest);
            lemma_remove_preserves_seg(child, rest);
            let child2 = spec_remove(child, rest);
            if child2.handlers.dom() =~= Set::empty() && child2.statics.len() == 0
                && child2.param is None && child2.star is None {
                assert(wf(out)) by {
                    assert(out.statics == n.statics.remove(idx));
                    assert forall|i: int| 0 <= i < out.statics.len() implies (
                    #[trigger] out.statics[i]).seg.len() > 0 && wf(out.statics[i]) by {
                        if i < idx {
                            assert(out.statics[i] == n.statics[i]);
                        } else {
                            assert(out.statics[i] == n.statics[i + 1]);
                        }
                    }
                    assert forall|i: int, j: int| 0 <= i < j < out.statics.len() implies (
                    #[trigger] out.statics[i]).seg[0] != (#[trigger] out.statics[j]).seg[0] by {
                        let i0: int = if i < idx {
                            i
                        } else {
                            i + 1
                        };
                        let j0: int = if j < idx {
                            j
                        } else {
                            j + 1
                        };
                        assert(out.statics[i] == n.statics[i0]);
                        assert(out.statics[j] == n.statics[j0]);
                    }
                }
            } else {
                let replacement = if child2.handlers.dom() =~= Set::empty()
                    && child2.statics.len() == 1 && child2.param is None && child2.seg != "/"@
                    && child2.statics[0].seg != "/"@ {
                    NodeModel { seg: child2.seg + child2.statics[0].seg, ..child2.statics[0] }
                } else {
                    child2
                };
                assert(replacement.seg.len() > 0 && replacement.seg[0] == child.seg[0] && wf(
                    replacement,
                )) by {
                    if child2.handlers.dom() =~= Set::empty() && child2.statics.len() == 1
                        && child2.param is None && child2.seg != "/"@ && child2.statics[0].seg
                        != "/"@ {
                        assert(wf(child2));
                        assert(child2.statics[0].seg.len() > 0 && wf(child2.statics[0]));
                        assert(replacement.seg[0] == child2.seg[0]);
                    }
                }
                assert(wf(out)) by {
                    assert(out.statics == n.statics.update(idx, replacement));
                    assert forall|i: int| 0 <= i < out.statics.len() implies (
                    #[trigger] out.statics[i]).seg.len() > 0 && wf(out.statics[i]) by {
                        if i != idx {
                            assert(out.statics[i] == n.statics[i]);
                        }
                    }
                    assert forall|i: int, j: int| 0 <= i < j < out.statics.len() implies (
                    #[trigger] out.statics[i]).seg[0] != (#[trigger] out.statics[j]).seg[0] by {
                        if i != idx {
                            assert(out.statics[i] == n.statics[i]);
                        }
                        if j != idx {
                            assert(out.statics[j] == n.statics[j]);
                        }
                    }
                }
            }
        } else if c == '$' && n.param is Some {
            lemma_remove_wf(*n.param.unwrap(), p.skip(slash_pos(p)));
            assert(wf(out));
        } else {
            assert(wf(out));
        }
    }
}

/// Update keeps the tree well-formed: it only swaps handler values and
/// never touches the structure.
pub proof fn lemma_update_wf<V>(n: NodeModel<V>, method: Method, p: Seq<char>, value: V)
    requires
        wf(n),
    ensures
        wf(spec_update(n, method, p, value).0),
    decreases p.len(),
{
    let out = spec_update(n, method, p, value).0;
    if p.len() == 0 {
        assert(wf(out));
    } else {
        let c = p[0];
        lemma_slash_pos(p);
        lemma_match_idx(n.statics, c);
        let idx = match_idx(n.statics, c);
        if idx < n.statics.len() && is_prefix_of(n.statics[idx].seg, p) {
            let child = n.statics[idx];
            let rest = p.skip(child.seg.len() as int);
            lemma_update_wf(child, method, rest, value);
            lemma_update_preserves_seg(child, method, rest, value);
            let child2 = spec_update(child, method, rest, value).0;
            assert(wf(out)) by {
                assert(out.statics == n.statics.update(idx, child2));
                assert forall|i: int| 0 <= i < out.statics.len() implies (
                #[trigger] out.statics[i]).seg.len() > 0 && wf(out.statics[i]) by {
                    if i != idx {
                        assert(out.statics[i] == n.statics[i]);
                    }
                }
                assert forall|i: int, j: int| 0 <= i < j < out.statics.len() implies (
                #[trigger] out.statics[i]).seg[0] != (#[trigger] out.statics[j]).seg[0] by {
                    if i != idx {
                        assert(out.statics[i] == n.statics[i]);
                    }
                    if j != idx {
                        assert(out.statics[j] == n.statics[j]);
                    }
                }
            }
        } else if c == '$' && n.param is Some {
            lemma_update_wf(*n.param.unwrap(), method, p.skip(slash_pos(p)), value);
            assert(wf(out));
        } else {
            assert(wf(out));
        }
    }
}

/// Removing a trailing-wildcard route drops the wildcard branch whole:
/// the handlers of every method registered under it disappear in one
/// call, while everything else at the node stays.
pub proof fn lemma_remove_star_drops_all<V>(n: NodeModel<V>, p: Seq<char>)
    requires
        p.len() > 0,
        p[0] == '*',
        !(match_idx(n.statics, p[0]) < n.statics.len() && is_prefix_of(
            n.statics[match_idx(n.statics, p[0])].seg,
            p,
        )),
    ensures
        spec_remove(n, p) == (NodeModel { star: None, ..n }),
{
}

/// Removing a path that matches no branch of a node leaves the node
/// exactly as it was, so no other route is disturbed.
pub proof fn lemma_remove_unmatched_noop<V>(n: NodeModel<V>, p: Seq<char>)
    requires
        p.len() > 0,
        !(match_idx(n.statics, p[0]) < n.statics.len() && is_prefix_of(
            n.statics[match_idx(n.statics, p[0])].seg,
            p,
        )),
        p[0] == '$' ==> n.param is None,
        p[0] != '*',
    ensures
        spec_remove(n, p) == n,
{
}

/// Removing the empty path at a node that has nothing registered is a
/// no-op.
pub proof fn lemma_remove_unregistered_leaf_noop<V>(n: NodeModel<V>, p: Seq<char>)
    requires
        p.len() == 0,
        n.handlers.dom() =~= Set::empty(),
        n.names is None,
    ensures
        spec_remove(n, p) == n,
{
    assert(n.handlers =~= Map::<Method, V>::empty());
    assert(spec_remove(n, p) =~= n);
}

/// Registering the same (method, path) twice fails with a duplicate-route
/// error, and the failing attempt leaves the tree — and so the first
/// registration's handler — exactly as the first registration left it.
pub proof fn lemma_insert_duplicate<V>(
    n: NodeModel<V>,
    method: Method,
    p: Seq<char>,
    v: V,
    w: V,
    names: Option<Seq<Seq<char>>>,
)
    requires
        spec_insert(n, method, p, v, names).1 == Ok::<(), RouteError>(()),
    ensures
        spec_insert(spec_insert(n, method, p, v, names).0, method, p, w, names).0 == spec_insert(
            n,
            method,
            p,
            v,
            names,
        ).0,
        spec_insert(spec_insert(n, method, p, v, names).0, method, p, w, names).1 == Err::<
            (),
            RouteError,
        >(RouteError::DuplicateRoute),
    decreases p.len(),
{
    let n1 = spec_insert(n, method, p, v, names).0;
    if p.len() == 0 {
        assert(n1.handlers.dom().contains(method));
        match names {
            Some(ns) => {
                assert(n1.names == Some(ns));
                assert(spec_insert(n1, method, p, w, names).0 =~= n1);
            },
            None => {
                assert(spec_insert(n1, method, p, w, names).0 =~= n1);
            },
        }
    } else {
        let c = p[0];
        lemma_slash_pos(p);
        lemma_match_idx(n.statics, c);
        if c == '$' {
            let sp = slash_pos(p);
            let name = p.subrange(1, sp);
            let rest = p.skip(sp);
            let child = match n.param {
                Some(b) => *b,
                None => blank_model(name),
            };
            let names2 = match names {
                Some(ns) => ns.push(name),
                None => seq![name],
            };
            lemma_insert_duplicate(child, method, rest, v, w, Some(names2));
            let child2 = spec_insert(child, method, rest, v, Some(names2)).0;
            assert(n1.param == Some(Box::new(child2)));
            assert(spec_insert(n1, method, p, w, names).0 =~= n1);
        } else if c == '*' {
            assert(p == seq!['*']);
            assert(n1.star is Some);
            assert((*n1.star.unwrap()).handlers.dom().contains(method));
            assert(spec_insert(n1, method, p, w, names).0 =~= n1);
        } else {
            let tl = token_len(p);
            let tok = p.take(tl);
            assert(tok[0] == c && tok.len() == tl >= 1);
            let idx = match_idx(n.statics, c);
            if idx < n.statics.len() {
                let child = n.statics[idx];
                lemma_common_len(tok, child.seg);
                let (n2, consumed) = spec_split(n, idx, tok);
                let mid = n2.statics[idx];
                assert(mid.seg.len() > 0 && mid.seg[0] == c && is_prefix_of(mid.seg, tok)) by {
                    if is_prefix_of(child.seg, tok) {
                        assert(mid == child);
                        assert(child.seg[0] == tok.take(child.seg.len() as int)[0]);
                    } else {
                        let l = common_len(tok, child.seg);
                        assert(mid.seg == tok.take(l));
                        assert(tok.take(l).len() == l);
                        assert(is_prefix_of(tok.take(l), tok)) by {
                            assert(tok.take(l) =~= tok.take(tok.take(l).len() as int));
                        }
                    }
                }
                lemma_insert_duplicate(mid, method, p.skip(consumed), v, w, names);
                lemma_insert_preserves_seg(mid, method, p.skip(consumed), v, names);
                let child2 = spec_insert(mid, method, p.skip(consumed), v, names).0;
                assert(n1.statics == n2.statics.update(idx, child2));
                assert(child2.seg == mid.seg);
                // the second descent finds the same child at the same index
                assert forall|j: int| 0 <= j < idx implies !((#[trigger] n1.statics[j]).seg.len()
                    > 0 && n1.statics[j].seg[0] == c) by {
                    assert(n1.statics[j] == n2.statics[j]);
                    if is_prefix_of(child.seg, tok) {
                        assert(n2.statics[j] == n.statics[j]);
                    } else {
                        assert(n2.statics[j] == n.statics[j]);
                    }
                }
                lemma_match_idx_unique(n1.statics, c, idx);
                // and consumes the same number of characters without a split
                assert(is_prefix_of(n1.statics[idx].seg, tok));
                assert(spec_split(n1, idx, tok) == (n1, consumed as int)) by {
                    assert(n1.statics[idx].seg.len() == consumed);
                }
                assert(spec_insert(n1, method, p, w, names).0 =~= n1) by {
                    assert(n1.statics.update(idx, child2) =~= n1.statics);
                }
            } else {
                let fresh = blank_model(tok);
                lemma_insert_duplicate(fresh, method, p.skip(tl), v, w, names);
                lemma_insert_preserves_seg(fresh, method, p.skip(tl), v, names);
                let childx = spec_insert(fresh, method, p.skip(tl), v, names).0;
                assert(n1.statics == n.statics.push(childx));
                assert(childx.seg == tok);
                assert forall|j: int| 0 <= j < n.statics.len() implies !((
                #[trigger] n1.statics[j]).seg.len() > 0 && n1.statics[j].seg[0] == c) by {
                    assert(n1.statics[j] == n.statics[j]);
                }
                assert(n1.statics[n.statics.len() as int] == childx);
                lemma_match_idx_unique(n1.statics, c, n.statics.len() as int);
                assert(is_prefix_of(n1.statics[n.statics.len() as int].seg, tok)) by {
                    assert(tok.take(tok.len() as int) =~= tok);
                }
                assert(spec_split(n1, n.statics.len() as int, tok) == (n1, tl));
                assert(spec_insert(n1, method, p, w, names).0 =~= n1) by {
                    assert(n1.statics.update(n.statics.len() as int, childx) =~= n1.statics);
                }
            }
        }
    }
}

/// A path with no parameter or wildcard markers anywhere: registering it
/// declares a purely literal route.
pub open spec fn fully_literal(p: Seq<char>) -> bool {
    forall|i: int| 0 <= i < p.len() ==> p[i] != '$' && p[i] != '*'
}

/// A literal route that was just registered is found: searching the same
/// method and path returns exactly the registered value, with no
/// parameter bindings.
pub proof fn lemma_insert_then_search_literal<V>(
    n: NodeModel<V>,
    method: Method,
    p: Seq<char>,
    v: V,
    names: Option<Seq<Seq<char>>>,
)
    requires
        fully_literal(p),
        spec_insert(n, method, p, v, names).1 == Ok::<(), RouteError>(()),
    ensures
        spec_search(spec_insert(n, method, p, v, names).0, method, p) matches SearchStep::Found {
            value,
            values,
            ..
        } && value == v && values == Seq::<Seq<char>>::empty(),
    decreases p.len(),
{
    let n1 = spec_insert(n, method, p, v, names).0;
    if p.len() == 0 {
        assert(n1.handlers.dom().contains(method) && n1.handlers[method] == v);
        assert(!(n1.handlers.dom() =~= Set::empty()));
    } else {
        let c = p[0];
        lemma_slash_pos(p);
        lemma_match_idx(n.statics, c);
        assert(c != '$' && c != '*');
        let tl = token_len(p);
        let tok = p.take(tl);
        assert(tok[0] == c && tok.len() == tl >= 1);
        let idx = match_idx(n.statics, c);
        if idx < n.statics.len() {
            let child = n.statics[idx];
            lemma_common_len(tok, child.seg);
            let (n2, consumed) = spec_split(n, idx, tok);
            let mid = n2.statics[idx];
            assert(mid.seg.len() > 0 && mid.seg[0] == c && is_prefix_of(mid.seg, tok)) by {
                if is_prefix_of(child.seg, tok) {
                    assert(mid == child);
                    assert(child.seg[0] == tok.take(child.seg.len() as int)[0]);
                } else {
                    let l = common_len(tok, child.seg);
                    assert(mid.seg == tok.take(l));
                    assert(is_prefix_of(tok.take(l), tok)) by {
                        assert(tok.take(l) =~= tok.take(tok.take(l).len() as int));
                    }
                }
            }
            assert(fully_literal(p.skip(consumed))) by {
                assert forall|i: int| 0 <= i < p.skip(consumed).len() implies p.skip(
                    consumed,
                )[i] != '$' && p.skip(consumed)[i] != '*' by {
                    assert(p.skip(consumed)[i] == p[consumed + i]);
                }
            }
            lemma_insert_then_search_literal(mid, method, p.skip(consumed), v, names);
            lemma_insert_preserves_seg(mid, method, p.skip(consumed), v, names);
            let child2 = spec_insert(mid, method, p.skip(consumed), v, names).0;
            assert(n1.statics == n2.statics.update(idx, child2));
            assert forall|j: int| 0 <= j < idx implies !((#[trigger] n1.statics[j]).seg.len() > 0
                && n1.statics[j].seg[0] == c) by {
                assert(n1.statics[j] == n2.statics[j]);
                assert(n2.statics[j] == n.statics[j]);
            }
            lemma_match_idx_unique(n1.statics, c, idx);
            assert(is_prefix_of(n1.statics[idx].seg, p)) by {
                assert(child2.seg.len() <= tl <= p.len());
                assert(p.take(child2.seg.len() as int) =~= tok.take(child2.seg.len() as int));
            }
            assert(p.skip(n1.statics[idx].seg.len() as int) == p.skip(consumed)) by {
                assert(child2.seg.len() == consumed);
            }
        } else {
            let fresh = blank_model(tok);
            assert(fully_literal(p.skip(tl))) by {
                assert forall|i: int| 0 <= i < p.skip(tl).len() implies p.skip(tl)[i] != '$'
                    && p.skip(tl)[i] != '*' by {
                    assert(p.skip(tl)[i] == p[tl + i]);
                }
            }
            lemma_insert_then_search_literal(fresh, method, p.skip(tl), v, names);
            lemma_insert_preserves_seg(fresh, method, p.skip(tl), v, names);
            let childx = spec_insert(fresh, method, p.skip(tl), v, names).0;
            assert(n1.statics == n.statics.push(childx));
            assert(childx.seg == tok);
            assert forall|j: int| 0 <= j < n.statics.len() implies !((
            #[trigger] n1.statics[j]).seg.len() > 0 && n1.statics[j].seg[0] == c) by {
                assert(n1.statics[j] == n.statics[j]);
            }
            assert(n1.statics[n.statics.len() as int] == childx);
            lemma_match_idx_unique(n1.statics, c, n.statics.len() as int);
            assert(is_prefix_of(n1.statics[n.statics.len() as int].seg, p)) by {
                assert(p.take(tl) =~= tok);
            }
            assert(p.skip(n1.statics[n.statics.len() as int].seg.len() as int) == p.skip(tl));
        }
    }
}

/// A tree with literal branches only: no parameter or wildcard children
/// anywhere.
pub open spec fn statics_only<V>(n: NodeModel<V>) -> bool
    decreases n,
{
    &&& n.param is None
    &&& n.star is None
    &&& forall|i: int| 0 <= i < n.statics.len() ==> statics_only(#[trigger] n.statics[i])
}

/// Removal introduces no parameter or wildcard branches.
proof fn lemma_remove_keeps_statics_only<V>(n: NodeModel<V>, p: Seq<char>)
    requires
        statics_only(n),
    ensures
        statics_only(spec_remove(n, p)),
    decreases p.len(),
{
    let out = spec_remove(n, p);
    if p.len() > 0 {
        let c = p[0];
        lemma_slash_pos(p);
        lemma_match_idx(n.statics, c);
        let idx = match_idx(n.statics, c);
        if idx < n.statics.len() && is_prefix_of(n.statics[idx].seg, p) {
            let child = n.statics[idx];
            let rest = p.skip(child.seg.len() as int);
            lemma_remove_keeps_statics_only(child, rest);
            let child2 = spec_remove(child, rest);
            assert forall|i: int| 0 <= i < out.statics.len() implies statics_only(
                #[trigger] out.statics[i],
            ) by {
                if child2.handlers.dom() =~= Set::empty() && child2.statics.len() == 0
                    && child2.param is None && child2.star is None {
                    if i < idx {
                        assert(out.statics[i] == n.statics[i]);
                    } else {
                        assert(out.statics[i] == n.statics[i + 1]);
                    }
                } else {
                    if i != idx {
                        assert(out.statics[i] == n.statics[i]);
                    } else {
                        if child2.handlers.dom() =~= Set::empty() && child2.statics.len() == 1
                            && child2.param is None && child2.seg != "/"@
                            && child2.statics[0].seg != "/"@ {
                            assert(statics_only(child2.statics[0]));
                        }
                    }
                }
            }
        }
    }
}

/// In a tree of literal branches only, removing a path removes it for
/// every method at once: a search of that exact path afterwards finds
/// nothing, whatever the method.
pub proof fn lemma_remove_then_search_static<V>(n: NodeModel<V>, method: Method, p: Seq<char>)
    requires
        wf(n),
        statics_only(n),
    ensures
        spec_search(spec_remove(n, p), method, p) is Miss,
    decreases p.len(),
{
    let out = spec_remove(n, p);
    if p.len() == 0 {
        assert(out.handlers.dom() =~= Set::empty());
    } else {
        let c = p[0];
        lemma_slash_pos(p);
        lemma_match_idx(n.statics, c);
        let idx = match_idx(n.statics, c);
        if idx < n.statics.len() && is_prefix_of(n.statics[idx].seg, p) {
            let child = n.statics[idx];
            let rest = p.skip(child.seg.len() as int);
            lemma_remove_then_search_static(child, method, rest);
            lemma_remove_preserves_seg(child, rest);
            lemma_remove_wf(child, rest);
            lemma_remove_keeps_statics_only(child, rest);
            let child2 = spec_remove(child, rest);
            if child2.handlers.dom() =~= Set::empty() && child2.statics.len() == 0
                && child2.param is None && child2.star is None {
                // the child died: nothing matches the leading character now
                assert forall|j: int| 0 <= j < out.statics.len() implies !((
                #[trigger] out.statics[j]).seg.len() > 0 && out.statics[j].seg[0] == c) by {
                    let j0: int = if j < idx {
                        j
                    } else {
                        j + 1
                    };
                    assert(out.statics[j] == n.statics[j0]);
                    if j0 < idx {
                        assert(!(n.statics[j0].seg.len() > 0 && n.statics[j0].seg[0] == c));
                    } else {
                        assert(n.statics[idx].seg[0] == c);
                        assert(n.statics[idx].seg[0] != n.statics[j0].seg[0]);
                    }
                }
                lemma_match_idx_unique(out.statics, c, out.statics.len() as int);
            } else if child2.handlers.dom() =~= Set::empty() && child2.statics.len() == 1
                && child2.param is None && child2.seg != "/"@ && child2.statics[0].seg != "/"@ {
                // the child collapsed into its sole grandchild
                let grand = child2.statics[0];
                let merged = NodeModel { seg: child2.seg + grand.seg, ..grand };
                assert(out.statics == n.statics.update(idx, merged));
                assert(grand.seg.len() > 0) by {
                    assert(wf(child2));
                }
                assert forall|j: int| 0 <= j < idx implies !((#[trigger] out.statics[j]).seg.len()
                    > 0 && out.statics[j].seg[0] == c) by {
                    assert(out.statics[j] == n.statics[j]);
                }
                assert(merged.seg[0] == c);
                lemma_match_idx_unique(out.statics, c, idx);
                if is_prefix_of(merged.seg, p) {
                    let rest2 = p.skip(merged.seg.len() as int);
                    // the grandchild's segment continues the removed path
                    assert(is_prefix_of(grand.seg, rest)) by {
                        assert forall|k: int| 0 <= k < grand.seg.len() implies rest[k]
                            == grand.seg[k] by {
                            assert(p.take(merged.seg.len() as int)[child.seg.len() + k]
                                == merged.seg[child.seg.len() + k]);
                        }
                        assert(rest.take(grand.seg.len() as int) =~= grand.seg);
                    }
                    assert(rest.len() > 0);
                    assert(match_idx(child2.statics, rest[0]) == 0) by {
                        lemma_match_idx_unique(child2.statics, rest[0], 0);
                    }
                    assert(rest.skip(grand.seg.len() as int) =~= rest2);
                    // a Found below the grandchild would have been a Found
                    // below the surviving child, which the recursion rules out
                    assert(!(spec_search(grand, method, rest2) is Found));
                    assert(spec_search(merged, method, rest2) == spec_search(
                        grand,
                        method,
                        rest2,
                    ));
                } else {
                    assert(!(idx < out.statics.len() && is_prefix_of(out.statics[idx].seg, p)));
                }
            } else {
                // the child survived in place, with the path cleared below it
                assert(out.statics == n.statics.update(idx, child2));
                assert forall|j: int| 0 <= j < idx implies !((#[trigger] out.statics[j]).seg.len()
                    > 0 && out.statics[j].seg[0] == c) by {
                    assert(out.statics[j] == n.statics[j]);
                }
                assert(child2.seg == child.seg);
                lemma_match_idx_unique(out.statics, c, idx);
                assert(!(spec_search(child2, method, rest) is Found));
            }
        } else {
            assert(out.statics == n.statics);
        }
    }
}

/// The parameter-name bookkeeping invariant: a node `d` parameter edges
/// below the root records, if anything, exactly `d` parameter names, and
/// so does its wildcard leaf; static children sit at the same depth,
/// the parameter child one deeper.
pub open spec fn wf_names<V>(n: NodeModel<V>, d: nat) -> bool
    decreases n,
{
    &&& (n.names matches Some(ns) ==> ns.len() == d)
    &&& forall|i: int| 0 <= i < n.statics.len() ==> wf_names(#[trigger] n.statics[i], d)
    &&& (n.param matches Some(b) ==> wf_names(*b, d + 1))
    &&& (n.star matches Some(b) ==> ((*b).names matches Some(ns) ==> ns.len() == d))
}

/// Registration keeps the parameter-name bookkeeping consistent: the
/// names it threads down grow by one at each parameter edge, so the list
/// recorded at a leaf always has one name per parameter edge above it.
pub proof fn lemma_insert_wf_names<V>(
    n: NodeModel<V>,
    method: Method,
    p: Seq<char>,
    value: V,
    names: Option<Seq<Seq<char>>>,
    d: nat,
)
    requires
        wf_names(n, d),
        names matches Some(ns) ==> ns.len() == d,
        names is None ==> d == 0,
    ensures
        wf_names(spec_insert(n, method, p, value, names).0, d),
    decreases p.len(),
{
    let out = spec_insert(n, method, p, value, names).0;
    if p.len() == 0 {
        assert(wf_names(out, d));
    } else {
        let c = p[0];
        lemma_slash_pos(p);
        lemma_match_idx(n.statics, c);
        if c == '$' {
            let sp = slash_pos(p);
            let name = p.subrange(1, sp);
            let child = match n.param {
                Some(b) => *b,
                None => blank_model(name),
            };
            let names2 = match names {
                Some(ns) => ns.push(name),
                None => seq![name],
            };
            if names is None {
                assert(names2.len() == 1);
            }
            lemma_insert_wf_names(child, method, p.skip(sp), value, Some(names2), d + 1);
            assert(wf_names(out, d));
        } else if c == '*' {
            assert(wf_names(out, d));
        } else {
            let tl = token_len(p);
            let tok = p.take(tl);
            let idx = match_idx(n.statics, c);
            if idx < n.statics.len() {
                let child = n.statics[idx];
                lemma_common_len(tok, child.seg);
                let (n2, consumed) = spec_split(n, idx, tok);
                assert(wf_names(n2, d)) by {
                    if !is_prefix_of(child.seg, tok) {
                        let l = common_len(tok, child.seg);
                        let demoted = NodeModel { seg: child.seg.skip(l), ..child };
                        assert(wf_names(child, d));
                        assert(wf_names(demoted, d));
                        assert(n2.statics[idx].statics[0] == demoted);
                        assert(wf_names(n2.statics[idx], d));
                    }
                    assert forall|i: int| 0 <= i < n2.statics.len() implies wf_names(
                        #[trigger] n2.statics[i],
                        d,
                    ) by {
                        if i != idx {
                            assert(n2.statics[i] == n.statics[i]);
                        }
                    }
                }
                lemma_insert_wf_names(n2.statics[idx], method, p.skip(consumed), value, names, d);
                let child2 = spec_insert(n2.statics[idx], method, p.skip(consumed), value, names).0;
                assert(wf_names(out, d)) by {
                    assert(out.statics == n2.statics.update(idx, child2));
                    assert forall|i: int| 0 <= i < out.statics.len() implies wf_names(
                        #[trigger] out.statics[i],
                        d,
                    ) by {
                        if i != idx {
                            assert(out.statics[i] == n2.statics[i]);
                        }
                    }
                }
            } else {
                lemma_insert_wf_names(blank_model(tok), method, p.skip(tl), value, names, d);
                let childx = spec_insert(blank_model(tok), method, p.skip(tl), value, names).0;
                assert(wf_names(out, d)) by {
                    assert(out.statics == n.statics.push(childx));
                    assert forall|i: int| 0 <= i < out.statics.len() implies wf_names(
                        #[trigger] out.statics[i],
                        d,
                    ) by {
                        if i < n.statics.len() {
                            assert(out.statics[i] == n.statics[i]);
                        } else {
                            assert(out.statics[i] == childx);
                        }
                    }
                }
            }
        }
    }
}

/// A parameter route registered on a fresh tree matches every non-empty
/// single-segment path, whatever its characters: the value bound to the
/// parameter is the segment itself.
pub proof fn lemma_param_route_matches<V>(method: Method, name: Seq<char>, seg: Seq<char>, v: V)
    requires
        slash_pos(name) == name.len(),
        seg.len() > 0,
        slash_pos(seg) == seg.len(),
    ensures
        ({
            let p = seq!['$'] + name;
            let n1 = spec_insert(root_model::<V>(), method, p, v, None).0;
            &&& spec_insert(root_model::<V>(), method, p, v, None).1 == Ok::<(), RouteError>(())
            &&& spec_search(n1, method, seg) matches SearchStep::Found { value, names, values }
                && value == v && names == seq![name] && values == seq![seg]
        }),
{
    let p = seq!['$'] + name;
    assert(p[0] == '$');
    assert(slash_pos(p) == p.len()) by {
        assert(p.drop_first() =~= name);
    }
    let sp = slash_pos(p);
    assert(p.subrange(1, sp) =~= name);
    assert(p.skip(sp) =~= Seq::<char>::empty());
    let leaf_in = blank_model::<V>(name);
    let leaf = spec_insert(leaf_in, method, Seq::empty(), v, Some(seq![name])).0;
    assert(leaf.handlers == Map::<Method, V>::empty().insert(method, v));
    assert(leaf.names == Some(seq![name]));
    assert(spec_insert(leaf_in, method, Seq::empty(), v, Some(seq![name])).1 == Ok::<
        (),
        RouteError,
    >(()));
    let n1 = spec_insert(root_model::<V>(), method, p, v, None).0;
    assert(n1.param == Some(Box::new(leaf)));
    assert(n1.statics.len() == 0);
    let sp2 = slash_pos(seg);
    assert(seg.skip(sp2) =~= Seq::<char>::empty());
    assert(spec_search(leaf, method, Seq::empty()) matches SearchStep::Found { .. }) by {
        assert(leaf.handlers.dom().contains(method));
        assert(!(leaf.handlers.dom() =~= Set::empty()));
    }
    match spec_search(n1, method, seg) {
        SearchStep::Found { value, names, values } => {
            assert(values =~= seq![seg]) by {
                assert(seg.take(sp2) =~= seg);
                assert(seq![seg.take(sp2)] + Seq::<Seq<char>>::empty() =~= seq![seg.take(sp2)]);
            }
        },
        _ => {
            assert(false);
        },
    }
}

/// On a tree whose name bookkeeping is consistent, a lookup started `d`
/// parameter edges below the root never reports more names than `d` plus
/// the values it bound. At the root (`d == 0`) every recorded name
/// therefore gets a value, so pairing names with values drops nothing.
pub proof fn lemma_search_values_cover_names<V>(
    n: NodeModel<V>,
    method: Method,
    p: Seq<char>,
    d: nat,
)
    requires
        wf_names(n, d),
    ensures
        spec_search(n, method, p) matches SearchStep::Found { names, values, .. } ==> names.len()
            <= d + values.len(),
    decreases p.len(),
{
    if p.len() > 0 {
        let c = p[0];
        lemma_slash_pos(p);
        lemma_match_idx(n.statics, c);
        let idx = match_idx(n.statics, c);
        if idx < n.statics.len() && is_prefix_of(n.statics[idx].seg, p) {
            assert(wf_names(n.statics[idx], d));
            lemma_search_values_cover_names(
                n.statics[idx],
                method,
                p.skip(n.statics[idx].seg.len() as int),
                d,
            );
        }
        let sp = slash_pos(p);
        if n.param is Some && sp > 0 {
            lemma_search_values_cover_names(*n.param.unwrap(), method, p.skip(sp), d + 1);
        }
    }
}

} // verus!
