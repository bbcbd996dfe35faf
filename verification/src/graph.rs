//! The dependency graph and the resolver: maps each segment name to its
//! dependency tokens (later declarations overwrite earlier ones), admits the
//! requested targets (by name, or by glob pattern against the declared
//! names), computes the set of segments reachable from them, and re-emits
//! the document keeping free content verbatim and only the reachable
//! segments' bodies, each with its indentation stripped.

use vstd::prelude::*;

use crate::chars::contains_glob_pattern_symbols;
use crate::chars::find_nl;
use crate::chars::has_glob_meta;
use crate::chars::lemma_find_nl;
use crate::chars::str_eq;
use crate::glob_ext::glob_compiles;
use crate::glob_ext::glob_matches;
use crate::glob_ext::pattern_text;
use crate::node::Node;
use crate::node::NodeModel;
use vstd::string::StringExecFns;

verus! {

/// The dependency graph of a node stream: every segment's name mapped to
/// its dependency tokens, later declarations overwriting earlier ones.
pub open spec fn graph_of(nodes: Seq<NodeModel>) -> Map<Seq<char>, Seq<Seq<char>>>
    decreases nodes.len(),
{
    if nodes.len() == 0 {
        Map::empty()
    } else {
        let g = graph_of(nodes.drop_last());
        match nodes.last() {
            NodeModel::Content { .. } => g,
            NodeModel::Segment { name, dependencies, .. } => g.insert(name, dependencies),
        }
    }
}

/// Whether `nd` is a segment named `x`.
pub open spec fn node_named(nd: NodeModel, x: Seq<char>) -> bool {
    match nd {
        NodeModel::Segment { name, .. } => name == x,
        NodeModel::Content { .. } => false,
    }
}

pub proof fn lemma_graph_key(nodes: Seq<NodeModel>, x: Seq<char>)
    ensures
        graph_of(nodes).contains_key(x) <==> exists|j: int|
            0 <= j < nodes.len() && node_named(#[trigger] nodes[j], x),
    decreases nodes.len(),
{
    if nodes.len() > 0 {
        let sub = nodes.drop_last();
        lemma_graph_key(sub, x);
        if graph_of(nodes).contains_key(x) {
            if node_named(nodes.last(), x) {
                assert(node_named(nodes[nodes.len() - 1], x));
            } else {
                assert(graph_of(sub).contains_key(x));
                let j = choose|j: int| 0 <= j < sub.len() && node_named(#[trigger] sub[j], x);
                assert(node_named(nodes[j], x));
            }
        }
        if exists|j: int| 0 <= j < nodes.len() && node_named(#[trigger] nodes[j], x) {
            let j = choose|j: int| 0 <= j < nodes.len() && node_named(#[trigger] nodes[j], x);
            if j < nodes.len() - 1 {
                assert(node_named(sub[j], x));
            }
            assert(graph_of(nodes).contains_key(x));
        }
    }
}

/// Segments in `nodes[i..]` named otherwise than `x` do not affect what the
/// graph holds at `x`.
pub proof fn lemma_graph_take(nodes: Seq<NodeModel>, i: int, x: Seq<char>)
    requires
        0 <= i <= nodes.len(),
        forall|j: int| i <= j < nodes.len() ==> !node_named(#[trigger] nodes[j], x),
    ensures
        graph_of(nodes).contains_key(x) == graph_of(nodes.take(i)).contains_key(x),
        graph_of(nodes).contains_key(x) ==> graph_of(nodes)[x] == graph_of(nodes.take(i))[x],
    decreases nodes.len() - i,
{
    if i < nodes.len() {
        lemma_graph_take(nodes, i + 1, x);
        assert(nodes.take(i + 1).drop_last() =~= nodes.take(i));
        assert(nodes.take(i + 1).last() == nodes[i]);
    } else {
        assert(nodes.take(i) =~= nodes);
    }
}

/// An edge of the graph.
pub open spec fn edge(g: Map<Seq<char>, Seq<Seq<char>>>, a: Seq<char>, b: Seq<char>) -> bool {
    g.contains_key(a) && g[a].contains(b)
}

/// Consecutive elements of `p` are joined by edges.
pub open spec fn path_ok(g: Map<Seq<char>, Seq<Seq<char>>>, p: Seq<Seq<char>>) -> bool {
    forall|i: int, j: int| 0 <= i && j == i + 1 && j < p.len() ==> #[trigger] edge(g, p[i], p[j])
}

/// `to` can be reached from `from` by following dependency edges; every
/// name reaches itself.
pub open spec fn reaches(g: Map<Seq<char>, Seq<Seq<char>>>, from: Seq<char>, to: Seq<char>) -> bool {
    exists|p: Seq<Seq<char>>|
        #[trigger] path_ok(g, p) && p.len() >= 1 && p.first() == from && p.last() == to
}

pub proof fn lemma_reaches_self(g: Map<Seq<char>, Seq<Seq<char>>>, x: Seq<char>)
    ensures
        reaches(g, x, x),
{
    let p = seq![x];
    assert(path_ok(g, p) && p.len() >= 1 && p.first() == x && p.last() == x);
}

pub proof fn lemma_reaches_step(
    g: Map<Seq<char>, Seq<Seq<char>>>,
    s: Seq<char>,
    v: Seq<char>,
    d: Seq<char>,
)
    requires
        reaches(g, s, v),
        edge(g, v, d),
    ensures
        reaches(g, s, d),
{
    let p = choose|p: Seq<Seq<char>>|
        #[trigger] path_ok(g, p) && p.len() >= 1 && p.first() == s && p.last() == v;
    let p2 = p.push(d);
    assert forall|i: int, j: int| 0 <= i && j == i + 1 && j < p2.len() implies #[trigger] edge(
        g,
        p2[i],
        p2[j],
    ) by {
        if j < p.len() {
            assert(edge(g, p[i], p[j]));
        } else {
            assert(p2[i] == p.last() && p2[j] == d);
        }
    }
    assert(path_ok(g, p2) && p2.len() >= 1 && p2.first() == s && p2.last() == d);
}

/// A set closed under the graph's edges.
pub open spec fn closed_under_edges(g: Map<Seq<char>, Seq<Seq<char>>>, s: Set<Seq<char>>) -> bool {
    forall|a: Seq<char>, b: Seq<char>| s.contains(a) && #[trigger] edge(g, a, b) ==> s.contains(b)
}

proof fn lemma_path_stays(g: Map<Seq<char>, Seq<Seq<char>>>, s: Set<Seq<char>>, p: Seq<Seq<char>>)
    requires
        closed_under_edges(g, s),
        path_ok(g, p),
        p.len() >= 1,
        s.contains(p.first()),
    ensures
        s.contains(p.last()),
    decreases p.len(),
{
    if p.len() > 1 {
        assert(edge(g, p[0int], p[0int + 1]));
        assert(s.contains(p[1]));
        let p2 = p.drop_first();
        assert(path_ok(g, p2)) by {
            assert forall|i: int, j: int| 0 <= i && j == i + 1 && j < p2.len() implies #[trigger] edge(
                g,
                p2[i],
                p2[j],
            ) by {
                assert(edge(g, p[i + 1], p[(i + 1) + 1]));
                assert(p2[i] == p[i + 1] && p2[j] == p[j + 1]);
            }
        }
        lemma_path_stays(g, s, p2);
    }
}

/// Everything reachable from a set contained in an edge-closed set lies in
/// that set.
pub proof fn lemma_closed_reach(
    g: Map<Seq<char>, Seq<Seq<char>>>,
    s: Set<Seq<char>>,
    from: Seq<char>,
    to: Seq<char>,
)
    requires
        closed_under_edges(g, s),
        s.contains(from),
        reaches(g, from, to),
    ensures
        s.contains(to),
{
    let p = choose|p: Seq<Seq<char>>|
        #[trigger] path_ok(g, p) && p.len() >= 1 && p.first() == from && p.last() == to;
    lemma_path_stays(g, s, p);
}

/// Everything reachable from some name of `starts`.
pub open spec fn reachable_set(g: Map<Seq<char>, Seq<Seq<char>>>, starts: Set<Seq<char>>) -> Set<
    Seq<char>,
> {
    Set::new(|v: Seq<char>| exists|s: Seq<char>| #[trigger] starts.contains(s) && reaches(g, s, v))
}

/// The declared names a target pattern matches.
pub open spec fn target_matches(g: Map<Seq<char>, Seq<Seq<char>>>, pat: Seq<char>) -> Set<
    Seq<char>,
> {
    Set::new(|name: Seq<char>| g.contains_key(name) && glob_matches(pat, name))
}

/// The names one target token admits: the token itself when it is a
/// declared name; otherwise, when it holds glob metacharacters, compiles,
/// and matches at least one declared name, those names; otherwise nothing.
pub open spec fn admit_target(g: Map<Seq<char>, Seq<Seq<char>>>, tok: Seq<char>) -> Option<
    Set<Seq<char>>,
> {
    if g.contains_key(tok) {
        Some(Set::empty().insert(tok))
    } else if has_glob_meta(tok) && glob_compiles(tok) && exists|n: Seq<char>|
        target_matches(g, tok).contains(n) {
        Some(target_matches(g, tok))
    } else {
        None
    }
}

/// The names a target list admits, or the first token that admits none.
pub open spec fn admitted(g: Map<Seq<char>, Seq<Seq<char>>>, toks: Seq<Seq<char>>) -> Result<
    Set<Seq<char>>,
    Seq<char>,
>
    decreases toks.len(),
{
    if toks.len() == 0 {
        Ok(Set::empty())
    } else {
        match admitted(g, toks.drop_last()) {
            Err(e) => Err(e),
            Ok(s) => match admit_target(g, toks.last()) {
                None => Err(toks.last()),
                Some(m) => Ok(s.union(m)),
            },
        }
    }
}

/// Once a prefix of the target list fails, the whole list fails the same
/// way.
pub proof fn lemma_admitted_err(g: Map<Seq<char>, Seq<Seq<char>>>, toks: Seq<Seq<char>>, m: int)
    requires
        0 <= m <= toks.len(),
        admitted(g, toks.take(m)) is Err,
    ensures
        admitted(g, toks) == admitted(g, toks.take(m)),
    decreases toks.len() - m,
{
    if m < toks.len() {
        assert(toks.take(m + 1).drop_last() =~= toks.take(m));
        lemma_admitted_err(g, toks, m + 1);
    } else {
        assert(toks.take(m) =~= toks);
    }
}

/// A line of a body with up to `l` leading characters removed.
pub open spec fn drop_indent(line: Seq<char>, l: int) -> Seq<char> {
    if l <= line.len() {
        line.skip(l)
    } else {
        Seq::empty()
    }
}

/// A body from position `p` on with `l` characters of indentation stripped
/// from every line.
pub open spec fn strip_from(body: Seq<char>, l: int, p: int) -> Seq<char>
    decreases body.len() - p,
    via strip_from_decreases
{
    if p < 0 || p >= body.len() {
        Seq::empty()
    } else {
        match find_nl(body, p) {
            None => drop_indent(body.subrange(p, body.len() as int), l),
            Some(i) => drop_indent(body.subrange(p, i), l) + seq!['\n'] + strip_from(
                body,
                l,
                i + 1,
            ),
        }
    }
}

#[via_fn]
proof fn strip_from_decreases(body: Seq<char>, l: int, p: int) {
    if 0 <= p < body.len() {
        lemma_find_nl(body, p);
    }
}

/// A body with its indentation stripped: unchanged when the indentation is
/// empty.
pub open spec fn strip_body(body: Seq<char>, l: int) -> Seq<char> {
    if l == 0 {
        body
    } else {
        strip_from(body, l, 0)
    }
}

/// What one node contributes to the resolved output: free content verbatim,
/// an included segment's body with its indentation stripped, and nothing
/// for the rest.
pub open spec fn emit_node(nd: NodeModel, included: Set<Seq<char>>) -> Seq<char> {
    match nd {
        NodeModel::Content { text } => text,
        NodeModel::Segment { name, indentation, body, .. } => if included.contains(name) {
            strip_body(body, indentation.len() as int)
        } else {
            Seq::empty()
        },
    }
}

/// The resolved output: each node's contribution, in document order.
pub open spec fn emit_nodes(nodes: Seq<NodeModel>, included: Set<Seq<char>>) -> Seq<char>
    decreases nodes.len(),
{
    if nodes.len() == 0 {
        Seq::empty()
    } else {
        emit_nodes(nodes.drop_last(), included) + emit_node(nodes.last(), included)
    }
}

/// Every name and dependency token that occurs in the node stream.
pub open spec fn all_tokens(nodes: Seq<NodeModel>) -> Seq<Seq<char>>
    decreases nodes.len(),
{
    if nodes.len() == 0 {
        Seq::empty()
    } else {
        all_tokens(nodes.drop_last()) + (match nodes.last() {
            NodeModel::Content { .. } => Seq::empty(),
            NodeModel::Segment { name, dependencies, .. } => seq![name] + dependencies,
        })
    }
}

/// Membership in a sequence extended by one element.
proof fn lemma_push_contains_iff(s: Seq<Seq<char>>, x: Seq<char>, y: Seq<char>)
    ensures
        s.push(x).contains(y) <==> (s.contains(y) || y == x),
{
    if s.push(x).contains(y) {
        let j = choose|j: int| 0 <= j < s.push(x).len() && s.push(x)[j] == y;
        if j < s.len() {
            assert(s[j] == y);
        }
    }
    if s.contains(y) {
        let j = choose|j: int| 0 <= j < s.len() && s[j] == y;
        assert(s.push(x)[j] == y);
    }
    assert(s.push(x)[s.len() as int] == x);
}

/// Membership in a sequence shortened by its last element.
proof fn lemma_drop_last_contains_iff(s: Seq<Seq<char>>, y: Seq<char>)
    requires
        s.len() > 0,
    ensures
        s.contains(y) <==> (s.drop_last().contains(y) || y == s.last()),
{
    if s.contains(y) {
        let j = choose|j: int| 0 <= j < s.len() && s[j] == y;
        if j < s.len() - 1 {
            assert(s.drop_last()[j] == y);
        }
    }
    if s.drop_last().contains(y) {
        let j = choose|j: int| 0 <= j < s.drop_last().len() && s.drop_last()[j] == y;
        assert(s[j] == y);
    }
    assert(s[s.len() - 1] == s.last());
}

/// Whether some element of `v` holds the same characters as `x`.
fn contains_str(v: &Vec<&str>, x: &str) -> (r: bool)
    ensures
        r == v.deep_view().contains(x@),
{
    let mut i: usize = 0;
    while i < v.len()
        invariant
            0 <= i <= v.len(),
            forall|k: int| 0 <= k < i ==> v.deep_view()[k] != x@,
        decreases v.len() - i,
    {
        if str_eq(v[i], x) {
            proof {
                assert(v.deep_view()[i as int] == x@);
            }
            return true;
        }
        i = i + 1;
    }
    false
}

/// The dependency tokens of the last declaration of `name`, if any.
fn lookup_deps<'a, 'b>(nodes: &'b [Node<'a>], name: &str) -> (r: Option<&'b Vec<&'a str>>)
    ensures
        match r {
            Some(d) => graph_of(nodes.deep_view()).contains_key(name@) && d.deep_view()
                == graph_of(nodes.deep_view())[name@],
            None => !graph_of(nodes.deep_view()).contains_key(name@),
        },
{
    let ghost ndv = nodes.deep_view();
    let mut i: usize = nodes.len();
    while i > 0
        invariant
            0 <= i <= nodes.len(),
            ndv == nodes.deep_view(),
            ndv.len() == nodes.len(),
            forall|j: int| i <= j < ndv.len() ==> !node_named(#[trigger] ndv[j], name@),
        decreases i,
    {
        i = i - 1;
        match &nodes[i] {
            Node::Segment { name: nm, dependencies, .. } => {
                if str_eq(nm, name) {
                    proof {
                        lemma_graph_take(ndv, i + 1, name@);
                        assert(ndv.take(i + 1).drop_last() =~= ndv.take(i as int));
                        assert(ndv.take(i + 1).last() == ndv[i as int]);
                    }
                    return Some(dependencies);
                }
            },
            Node::Content(_) => {},
        }
    }
    proof {
        lemma_graph_take(ndv, 0, name@);
        assert(ndv.take(0) =~= Seq::empty());
    }
    None
}

/// Appends every element of `items` to `stack`.
fn push_all<'a>(stack: &mut Vec<&'a str>, items: &Vec<&'a str>)
    ensures
        final(stack)@ == old(stack)@ + items@,
        final(stack).deep_view() == old(stack).deep_view() + items.deep_view(),
{
    let mut i: usize = 0;
    proof {
        assert(stack@ =~= old(stack)@ + items@.take(0));
    }
    while i < items.len()
        invariant
            0 <= i <= items.len(),
            stack@ == old(stack)@ + items@.take(i as int),
        decreases items.len() - i,
    {
        stack.push(items[i]);
        proof {
            assert(stack@ =~= old(stack)@ + items@.take(i + 1));
        }
        i = i + 1;
    }
    proof {
        assert(items@.take(items.len() as int) =~= items@);
        assert forall|k: int| 0 <= k < stack.deep_view().len() implies stack.deep_view()[k]
            == (old(stack).deep_view() + items.deep_view())[k] by {
            if k < old(stack)@.len() {
                assert(stack@[k] == old(stack)@[k]);
            } else {
                assert(stack@[k] == items@[k - old(stack)@.len()]);
            }
        }
        assert(stack.deep_view() =~= old(stack).deep_view() + items.deep_view());
    }
}

/// Depth-first reachability from the admitted targets: every admitted name
/// and everything its dependency edges lead to, each name once.
fn resolve_targets<'a>(nodes: &[Node<'a>], targets: Vec<&'a str>) -> (r: Vec<&'a str>)
    ensures
        r.deep_view().no_duplicates(),
        r.deep_view().to_set() == reachable_set(
            graph_of(nodes.deep_view()),
            targets.deep_view().to_set(),
        ),
{
    broadcast use vstd::seq_lib::seq_to_set_is_finite;
    broadcast use vstd::seq_lib::group_seq_properties;

    let ghost ndv = nodes.deep_view();
    let ghost g = graph_of(ndv);
    let ghost tset = targets.deep_view().to_set();
    let ghost u = tset.union(all_tokens(ndv).to_set());
    proof {
        lemma_graph_in_tokens(ndv);
    }
    let mut visited: Vec<&'a str> = Vec::new();
    let mut stack: Vec<&'a str> = targets;
    proof {
        assert forall|x: Seq<char>| #[trigger] stack.deep_view().contains(x) implies reachable_set(
            g,
            tset,
        ).contains(x) by {
            lemma_reaches_self(g, x);
            assert(tset.contains(x) && reaches(g, x, x));
        }
    }
    while stack.len() > 0
        invariant
            ndv == nodes.deep_view(),
            g == graph_of(ndv),
            u == tset.union(all_tokens(ndv).to_set()),
            u.finite(),
            forall|k: Seq<char>| #[trigger] g.contains_key(k) ==> all_tokens(ndv).contains(k),
            forall|k: Seq<char>, d: Seq<char>|
                g.contains_key(k) && #[trigger] g[k].contains(d) ==> all_tokens(ndv).contains(d),
            visited.deep_view().no_duplicates(),
            forall|x: Seq<char>| #[trigger] visited.deep_view().contains(x) ==> u.contains(x),
            forall|x: Seq<char>| #[trigger] stack.deep_view().contains(x) ==> u.contains(x),
            forall|x: Seq<char>| #[trigger]
                tset.contains(x) ==> visited.deep_view().contains(x)
                    || stack.deep_view().contains(x),
            forall|x: Seq<char>|
                visited.deep_view().contains(x) || #[trigger] stack.deep_view().contains(x)
                    ==> reachable_set(g, tset).contains(x),
            forall|x: Seq<char>| #[trigger]
                visited.deep_view().contains(x) ==> reachable_set(g, tset).contains(x),
            forall|a: Seq<char>, b: Seq<char>|
                visited.deep_view().contains(a) && #[trigger] edge(g, a, b)
                    ==> visited.deep_view().contains(b) || stack.deep_view().contains(b),
        decreases u.difference(visited.deep_view().to_set()).len(), stack.len(),
    {
        let ghost visited0 = visited.deep_view();
        let ghost stack0 = stack.deep_view();
        let ghost sv0 = stack@;
        let node = match stack.pop() {
            Some(node) => node,
            None => {
                proof {
                    assert(false);
                }
                return visited;
            },
        };
        proof {
            assert forall|k: int| 0 <= k < stack.deep_view().len() implies stack.deep_view()[k]
                == stack0.drop_last()[k] by {
                assert(stack@[k] == sv0[k]);
            }
            assert(stack.deep_view() =~= stack0.drop_last());
            assert(stack0.last() == node@);
            assert(stack0.contains(node@));
            assert forall|x: Seq<char>| #[trigger] stack0.contains(x) implies stack.deep_view().contains(x) || x == node@ by {
                lemma_drop_last_contains_iff(stack0, x);
            }
            assert forall|x: Seq<char>| #[trigger] stack.deep_view().contains(x) implies stack0.contains(x) by {
                lemma_drop_last_contains_iff(stack0, x);
            }
        }
        if contains_str(&visited, node) {
            proof {
                assert(visited.deep_view().contains(node@));
            }
            continue ;
        }
        visited.push(node);
        proof {
            let vnew = visited.deep_view();
            assert(vnew =~= visited0.push(node@));
            assert forall|x: Seq<char>| #[trigger] vnew.contains(x) implies visited0.contains(x)
                || x == node@ by {
                let j = choose|j: int| 0 <= j < vnew.len() && vnew[j] == x;
                if j < visited0.len() {
                    assert(visited0[j] == x);
                }
            }
            assert(vnew.no_duplicates());
            assert forall|y: Seq<char>| #[trigger] vnew.contains(y) <==> (visited0.contains(y)
                || y == node@) by {
                lemma_push_contains_iff(visited0, node@, y);
            }
            assert(vnew.contains(node@));
            // the measure shrinks: a fresh element left the unvisited set
            assert(u.contains(node@));
            assert(vnew.to_set() =~= visited0.to_set().insert(node@));
            assert(u.difference(vnew.to_set()) =~= u.difference(visited0.to_set()).remove(
                node@,
            ));
            assert(u.difference(visited0.to_set()).contains(node@));
            assert(u.difference(visited0.to_set()).finite()) by {
                vstd::set_lib::lemma_len_subset(u.difference(visited0.to_set()), u);
            }
        }
        match lookup_deps(nodes, node) {
            Some(deps) => {
                let ghost stack1 = stack.deep_view();
                push_all(&mut stack, deps);
                proof {
                    let vnew = visited.deep_view();
                    let snew = stack.deep_view();
                    assert(snew =~= stack1 + deps.deep_view());
                    assert forall|x: Seq<char>| #[trigger] snew.contains(x) implies stack1.contains(
                        x,
                    ) || g[node@].contains(x) by {
                        let j = choose|j: int| 0 <= j < snew.len() && snew[j] == x;
                        if j < stack1.len() {
                            assert(stack1[j] == x);
                        } else {
                            assert(deps.deep_view()[j - stack1.len()] == x);
                        }
                    }
                    assert forall|x: Seq<char>| #[trigger] snew.contains(x) implies u.contains(
                        x,
                    ) by {
                        if !stack1.contains(x) {
                            assert(g[node@].contains(x));
                            assert(all_tokens(ndv).contains(x));
                        }
                    }
                    assert forall|x: Seq<char>| #[trigger] snew.contains(x) implies reachable_set(
                        g,
                        tset,
                    ).contains(x) by {
                        if !stack1.contains(x) {
                            assert(g[node@].contains(x));
                            assert(edge(g, node@, x));
                            assert(vnew.contains(node@));
                            let s0 = choose|s0: Seq<char>| #[trigger] tset.contains(s0)
                                && reaches(g, s0, node@);
                            lemma_reaches_step(g, s0, node@, x);
                        }
                    }
                    assert forall|x: Seq<char>| #[trigger] stack1.contains(x) implies snew.contains(
                        x,
                    ) by {
                        let j = choose|j: int| 0 <= j < stack1.len() && stack1[j] == x;
                        assert(snew[j] == x);
                    }
                    assert forall|x: Seq<char>| #[trigger] g[node@].contains(x) implies snew.contains(
                        x,
                    ) by {
                        let j = choose|j: int| 0 <= j < deps.deep_view().len()
                            && deps.deep_view()[j] == x;
                        assert(snew[stack1.len() + j] == x);
                    }
                    assert forall|a: Seq<char>, b: Seq<char>|
                        visited.deep_view().contains(a) && #[trigger] edge(g, a, b)
                            implies visited.deep_view().contains(b) || snew.contains(b) by {
                        if a == node@ {
                            assert(g[node@].contains(b));
                            assert(snew.contains(b));
                        } else {
                            assert(vnew.contains(a) && a != node@);
                            assert(visited0.contains(a));
                            if !visited0.contains(b) {
                                assert(stack0.contains(b));
                                let j = choose|j: int| 0 <= j < stack0.len() && stack0[j] == b;
                                if j < stack0.len() - 1 {
                                    assert(stack1[j] == b);
                                    assert(stack1.contains(b));
                                    assert(snew.contains(b));
                                } else {
                                    assert(b == node@);
                                    assert(visited.deep_view().contains(b));
                                }
                            } else {
                                assert(vnew.contains(b));
                            }
                        }
                    }
                    assert forall|x: Seq<char>| #[trigger]
                        tset.contains(x) implies visited.deep_view().contains(x) || snew.contains(
                        x,
                    ) by {
                        if stack0.contains(x) && !visited.deep_view().contains(x) {
                            let j = choose|j: int| 0 <= j < stack0.len() && stack0[j] == x;
                            if j < stack0.len() - 1 {
                                assert(stack1[j] == x);
                            }
                        }
                    }
                }
            },
            None => {
                proof {
                    let vnew = visited.deep_view();
                    assert forall|a: Seq<char>, b: Seq<char>|
                        vnew.contains(a) && #[trigger] edge(g, a, b) implies vnew.contains(b)
                        || stack.deep_view().contains(b) by {
                        if a == node@ {
                            assert(g.contains_key(node@));
                            assert(false);
                        } else {
                            assert(visited0.contains(a));
                            if stack0.contains(b) && !vnew.contains(b) {
                                let j = choose|j: int| 0 <= j < stack0.len() && stack0[j] == b;
                                if j < stack0.len() - 1 {
                                    assert(stack.deep_view()[j] == b);
                                } else {
                                    assert(b == node@ && vnew.contains(b));
                                }
                            }
                        }
                    }
                    assert forall|x: Seq<char>| #[trigger]
                        tset.contains(x) implies visited.deep_view().contains(x)
                        || stack.deep_view().contains(x) by {
                        if stack0.contains(x) && !visited.deep_view().contains(x) {
                            let j = choose|j: int| 0 <= j < stack0.len() && stack0[j] == x;
                            if j < stack0.len() - 1 {
                                assert(stack.deep_view()[j] == x);
                            }
                        }
                    }
                }
            },
        }
    }
    proof {
        let vset = visited.deep_view().to_set();
        assert forall|v: Seq<char>| #[trigger]
            reachable_set(g, tset).contains(v) implies vset.contains(v) by {
            let s = choose|s: Seq<char>| #[trigger] tset.contains(s) && reaches(g, s, v);
            assert(closed_under_edges(g, vset)) by {
                assert forall|a: Seq<char>, b: Seq<char>|
                    vset.contains(a) && #[trigger] edge(g, a, b) implies vset.contains(b) by {
                    assert(visited.deep_view().contains(a));
                }
            }
            assert(visited.deep_view().contains(s));
            lemma_closed_reach(g, vset, s, v);
        }
        assert forall|v: Seq<char>| vset.contains(v) implies reachable_set(g, tset).contains(
            v,
        ) by {
            assert(visited.deep_view().contains(v));
        }
        assert(vset =~= reachable_set(g, tset));
    }
    visited
}

pub proof fn lemma_graph_in_tokens(nodes: Seq<NodeModel>)
    ensures
        forall|k: Seq<char>| #[trigger]
            graph_of(nodes).contains_key(k) ==> all_tokens(nodes).contains(k),
        forall|k: Seq<char>, d: Seq<char>|
            graph_of(nodes).contains_key(k) && #[trigger] graph_of(nodes)[k].contains(d)
                ==> all_tokens(nodes).contains(d),
    decreases nodes.len(),
{
    if nodes.len() > 0 {
        let sub = nodes.drop_last();
        lemma_graph_in_tokens(sub);
        let prev = all_tokens(sub);
        let whole = all_tokens(nodes);
        assert forall|x: Seq<char>| prev.contains(x) implies whole.contains(x) by {
            let j = choose|j: int| 0 <= j < prev.len() && prev[j] == x;
            assert(whole[j] == x);
        }
        assert forall|k: Seq<char>| #[trigger]
            graph_of(nodes).contains_key(k) implies whole.contains(k) by {
            match nodes.last() {
                NodeModel::Content { .. } => {
                    assert(graph_of(sub).contains_key(k));
                    assert(prev.contains(k));
                },
                NodeModel::Segment { name, dependencies, .. } => {
                    if k == name {
                        assert(whole[prev.len() as int] == name);
                    } else {
                        assert(graph_of(sub).contains_key(k));
                        assert(prev.contains(k));
                    }
                },
            }
        }
        assert forall|k: Seq<char>, d: Seq<char>|
            graph_of(nodes).contains_key(k) && #[trigger] graph_of(nodes)[k].contains(
                d,
            ) implies whole.contains(d) by {
            match nodes.last() {
                NodeModel::Content { .. } => {
                    assert(graph_of(sub).contains_key(k) && graph_of(sub)[k].contains(d));
                    assert(prev.contains(d));
                },
                NodeModel::Segment { name, dependencies, .. } => {
                    if k == name {
                        let j = choose|j: int|
                            0 <= j < dependencies.len() && dependencies[j] == d;
                        assert(whole[prev.len() + 1 + j] == d);
                    } else {
                        assert(graph_of(sub).contains_key(k) && graph_of(sub)[k].contains(d));
                        assert(prev.contains(d));
                    }
                },
            }
        }
    }
}


/// A segment node whose name the pattern matches.
pub open spec fn seg_matches(nd: NodeModel, pat: Seq<char>) -> bool {
    match nd {
        NodeModel::Segment { name, .. } => glob_matches(pat, name),
        NodeModel::Content { .. } => false,
    }
}

/// The names matched, among the nodes before `j`, by the pattern `pat`.
pub open spec fn matched_upto(ndv: Seq<NodeModel>, pat: Seq<char>, j: int) -> Set<Seq<char>> {
    Set::new(
        |x: Seq<char>|
            glob_matches(pat, x) && exists|j2: int|
                0 <= j2 < j && node_named(#[trigger] ndv[j2], x),
    )
}

/// Admits each requested target: a declared name stands for itself, a
/// pattern for every declared name it matches. Returns the set of admitted
/// names, or the first target that is neither a declared name nor a
/// compiling pattern with at least one match.
pub fn resolve_segments<'a>(nodes: &[Node<'a>], targets_or_patterns: &[&'a str]) -> (r: Result<
    Vec<&'a str>,
    &'a str,
>)
    ensures
        ({
            let g = graph_of(nodes.deep_view());
            let adm = admitted(g, targets_or_patterns.deep_view());
            match r {
                Ok(v) => {
                    &&& adm matches Ok(s) && v.deep_view().to_set() == reachable_set(g, s)
                    &&& v.deep_view().no_duplicates()
                },
                Err(e) => adm matches Err(tok) && tok == e@,
            }
        }),
{
    broadcast use vstd::seq_lib::group_seq_properties;

    let ghost ndv = nodes.deep_view();
    let ghost g = graph_of(ndv);
    let ghost tp = targets_or_patterns.deep_view();
    let mut targets: Vec<&'a str> = Vec::new();
    let mut k: usize = 0;
    proof {
        assert(tp.take(0) =~= Seq::<Seq<char>>::empty());
        assert(targets.deep_view().to_set() =~= Set::<Seq<char>>::empty());
    }
    while k < targets_or_patterns.len()
        invariant
            ndv == nodes.deep_view(),
            g == graph_of(ndv),
            tp == targets_or_patterns.deep_view(),
            tp.len() == targets_or_patterns.len(),
            ndv.len() == nodes.len(),
            0 <= k <= tp.len(),
            admitted(g, tp.take(k as int)) matches Ok(s) && targets.deep_view().to_set() == s,
        decreases tp.len() - k,
    {
        let ghost s_cur = admitted(g, tp.take(k as int))->Ok_0;
        let ghost tdv0 = targets.deep_view();
        let t = targets_or_patterns[k];
        proof {
            assert(tp[k as int] == t@);
            assert(tp.take(k + 1).drop_last() =~= tp.take(k as int));
            assert(tp.take(k + 1).last() == t@);
        }
        let declared = match lookup_deps(nodes, t) {
            Some(_) => true,
            None => false,
        };
        if declared {
            targets.push(t);
            proof {
                let snew = targets.deep_view();
                assert(snew =~= tdv0.push(t@));
                assert forall|y: Seq<char>| #[trigger] snew.contains(y) <==> (tdv0.contains(y)
                    || y == t@) by {
                    lemma_push_contains_iff(tdv0, t@, y);
                }
                assert(admit_target(g, t@) == Some(Set::<Seq<char>>::empty().insert(t@)));
                assert(snew.to_set() =~= s_cur.union(Set::<Seq<char>>::empty().insert(t@)));
                assert(admitted(g, tp.take(k + 1)) == Ok::<Set<Seq<char>>, Seq<char>>(
                    s_cur.union(Set::<Seq<char>>::empty().insert(t@)),
                ));
            }
            k = k + 1;
            continue ;
        }
        let old_size = targets.len();
        if contains_glob_pattern_symbols(t) {
            let pattern = match glob::Pattern::new(t) {
                Ok(pattern) => pattern,
                Err(_) => {
                    proof {
                        assert(admit_target(g, t@) is None);
                        assert(admitted(g, tp.take(k + 1)) == Err::<Set<Seq<char>>, Seq<char>>(
                            t@,
                        ));
                        lemma_admitted_err(g, tp, k + 1);
                        assert(tp.take(tp.len() as int) =~= tp);
                    }
                    return Err(t);
                },
            };
            let mut j: usize = 0;
            proof {
                assert(targets.deep_view().to_set() =~= s_cur.union(matched_upto(ndv, t@, 0)));
            }
            while j < nodes.len()
                invariant
                    ndv == nodes.deep_view(),
                    g == graph_of(ndv),
                    ndv.len() == nodes.len(),
                    0 <= j <= ndv.len(),
                    pattern_text(pattern) == t@,
                    old_size <= targets.len(),
                    targets.deep_view().to_set() == s_cur.union(matched_upto(ndv, t@, j as int)),
                    (targets.len() == old_size) <==> (forall|j2: int|
                        0 <= j2 < j ==> !seg_matches(#[trigger] ndv[j2], t@)),
                decreases ndv.len() - j,
            {
                let ghost tdv1 = targets.deep_view();
                match &nodes[j] {
                    Node::Segment { name, .. } => {
                        if pattern.matches(name) {
                            targets.push(*name);
                            proof {
                                let snew = targets.deep_view();
                                assert(snew =~= tdv1.push(name@));
                                assert forall|y: Seq<char>| #[trigger] snew.contains(y) <==> (
                                tdv1.contains(y) || y == name@) by {
                                    lemma_push_contains_iff(tdv1, name@, y);
                                }
                                assert(node_named(ndv[j as int], name@));
                                assert(seg_matches(ndv[j as int], t@));
                                assert forall|x: Seq<char>|
                                    matched_upto(ndv, t@, j + 1).contains(x) implies matched_upto(
                                    ndv,
                                    t@,
                                    j as int,
                                ).contains(x) || x == name@ by {
                                    let j2 = choose|j2: int|
                                        0 <= j2 < j + 1 && node_named(#[trigger] ndv[j2], x);
                                    if j2 < j {
                                        assert(node_named(ndv[j2], x));
                                    }
                                }
                                assert forall|x: Seq<char>|
                                    matched_upto(ndv, t@, j as int).contains(
                                    x,
                                ) implies matched_upto(ndv, t@, j + 1).contains(x) by {
                                    let j2 = choose|j2: int|
                                        0 <= j2 < j && node_named(#[trigger] ndv[j2], x);
                                    assert(node_named(ndv[j2], x) && 0 <= j2 < j + 1);
                                }
                                assert(glob_matches(t@, name@));
                                assert(matched_upto(ndv, t@, j + 1).contains(name@));
                                assert forall|y: Seq<char>| #[trigger] snew.to_set().contains(
                                    y,
                                ) <==> s_cur.union(matched_upto(ndv, t@, j + 1)).contains(
                                    y,
                                ) by {
                                    assert(snew.to_set().contains(y) == snew.contains(y));
                                    assert(tdv1.to_set().contains(y) == tdv1.contains(y));
                                    assert(tdv1.to_set().contains(y) == s_cur.union(
                                        matched_upto(ndv, t@, j as int),
                                    ).contains(y));
                                }
                                assert(snew.to_set() =~= s_cur.union(
                                    matched_upto(ndv, t@, j + 1),
                                ));
                            }
                        } else {
                            proof {
                                assert forall|x: Seq<char>|
                                    matched_upto(ndv, t@, j + 1).contains(x) implies matched_upto(
                                    ndv,
                                    t@,
                                    j as int,
                                ).contains(x) by {
                                    let j2 = choose|j2: int|
                                        0 <= j2 < j + 1 && node_named(#[trigger] ndv[j2], x);
                                    if j2 < j {
                                        assert(node_named(ndv[j2], x));
                                    } else {
                                        assert(x == name@);
                                    }
                                }
                                assert(matched_upto(ndv, t@, j + 1) =~= matched_upto(
                                    ndv,
                                    t@,
                                    j as int,
                                ));
                                assert(!seg_matches(ndv[j as int], t@));
                            }
                        }
                    },
                    Node::Content(_) => {
                        proof {
                            assert forall|x: Seq<char>|
                                matched_upto(ndv, t@, j + 1).contains(x) implies matched_upto(
                                ndv,
                                t@,
                                j as int,
                            ).contains(x) by {
                                let j2 = choose|j2: int|
                                    0 <= j2 < j + 1 && node_named(#[trigger] ndv[j2], x);
                                assert(j2 < j);
                            }
                            assert(matched_upto(ndv, t@, j + 1) =~= matched_upto(
                                ndv,
                                t@,
                                j as int,
                            ));
                            assert(!seg_matches(ndv[j as int], t@));
                        }
                    },
                }
                j = j + 1;
            }
            proof {
                lemma_graph_key(ndv, t@);
            }
        }
        if targets.len() == old_size {
            proof {
                if has_glob_meta(t@) && glob_compiles(t@) {
                    assert forall|n2: Seq<char>| !(#[trigger] target_matches(g, t@).contains(
                        n2,
                    )) by {
                        if g.contains_key(n2) && glob_matches(t@, n2) {
                            lemma_graph_key(ndv, n2);
                            let j2 = choose|j2: int|
                                0 <= j2 < ndv.len() && node_named(#[trigger] ndv[j2], n2);
                            assert(seg_matches(ndv[j2], t@));
                            assert(false);
                        }
                    }
                }
                assert(admit_target(g, t@) is None);
                assert(admitted(g, tp.take(k + 1)) == Err::<Set<Seq<char>>, Seq<char>>(t@));
                lemma_admitted_err(g, tp, k + 1);
                assert(tp.take(tp.len() as int) =~= tp);
            }
            return Err(t);
        }
        proof {
            // a pattern that brought at least one name: its match set is the
            // set of declared names it matches
            let j2w = choose|j2: int| 0 <= j2 < ndv.len() && seg_matches(#[trigger] ndv[j2], t@);
            assert(has_glob_meta(t@) && glob_compiles(t@));
            assert forall|x: Seq<char>| matched_upto(ndv, t@, ndv.len() as int).contains(
                x,
            ) implies target_matches(g, t@).contains(x) by {
                let j3 = choose|j3: int| 0 <= j3 < ndv.len() && node_named(#[trigger] ndv[j3], x);
                lemma_graph_key(ndv, x);
            }
            assert forall|x: Seq<char>| #[trigger] target_matches(g, t@).contains(
                x,
            ) implies matched_upto(ndv, t@, ndv.len() as int).contains(x) by {
                lemma_graph_key(ndv, x);
            }
            assert(matched_upto(ndv, t@, ndv.len() as int) =~= target_matches(g, t@));
            let named = match ndv[j2w] {
                NodeModel::Segment { name, .. } => name,
                NodeModel::Content { .. } => Seq::empty(),
            };
            assert(node_named(ndv[j2w], named));
            assert(target_matches(g, t@).contains(named)) by {
                lemma_graph_key(ndv, named);
            }
            assert(admit_target(g, t@) == Some(target_matches(g, t@)));
            assert(admitted(g, tp.take(k + 1)) == Ok::<Set<Seq<char>>, Seq<char>>(
                s_cur.union(target_matches(g, t@)),
            ));
        }
        k = k + 1;
    }
    proof {
        assert(tp.take(tp.len() as int) =~= tp);
    }
    let reached = resolve_targets(nodes, targets);
    Ok(reached)
}


/// Appends `body` from position `p` on with `l` leading characters
/// stripped from every line.
fn append_stripped(out: &mut String, body: &str, l: usize)
    ensures
        final(out)@ == old(out)@ + strip_from(body@, l as int, 0),
{
    let ghost t = body@;
    let n = body.unicode_len();
    let mut p: usize = 0;
    while p < n
        invariant
            0 <= p <= n,
            n == t.len(),
            t == body@,
            old(out)@ + strip_from(t, l as int, 0) == out@ + strip_from(t, l as int, p as int),
        decreases n - p,
    {
        match crate::chars::find_nl_at(body, p) {
            Some(i) => {
                proof {
                    lemma_find_nl(t, p as int);
                }
                let start = if l < i - p {
                    p + l
                } else {
                    i
                };
                let ghost out0 = out@;
                let piece = body.substring_char(start, i);
                out.append(piece);
                out.append("\n");
                proof {
                    reveal_strlit("\n");
                    assert("\n"@ =~= seq!['\n']);
                    assert(drop_indent(t.subrange(p as int, i as int), l as int) =~= t.subrange(
                        start as int,
                        i as int,
                    ));
                    assert(strip_from(t, l as int, p as int) =~= t.subrange(
                        start as int,
                        i as int,
                    ) + seq!['\n'] + strip_from(t, l as int, i + 1));
                    assert(out@ + strip_from(t, l as int, i + 1) =~= out0 + strip_from(
                        t,
                        l as int,
                        p as int,
                    ));
                }
                p = i + 1;
            },
            None => {
                proof {
                    lemma_find_nl(t, p as int);
                }
                let start = if l < n - p {
                    p + l
                } else {
                    n
                };
                let ghost out0 = out@;
                let piece = body.substring_char(start, n);
                out.append(piece);
                proof {
                    assert(drop_indent(t.subrange(p as int, n as int), l as int) =~= t.subrange(
                        start as int,
                        n as int,
                    ));
                    assert(strip_from(t, l as int, p as int) =~= t.subrange(
                        start as int,
                        n as int,
                    ));
                    assert(strip_from(t, l as int, n as int) =~= Seq::<char>::empty());
                    assert(out@ + strip_from(t, l as int, n as int) =~= out0 + strip_from(
                        t,
                        l as int,
                        p as int,
                    ));
                }
                p = n;
            },
        }
    }
    proof {
        assert(strip_from(t, l as int, p as int) =~= Seq::<char>::empty());
        assert(out@ =~= out@ + strip_from(t, l as int, p as int));
        assert(old(out)@ + strip_from(t, l as int, 0) =~= out@);
    }
}

/// Resolves the requested targets to a single script: free content is kept
/// verbatim and, of the segments, exactly the reachable ones contribute
/// their bodies, indentation stripped, in document order. Fails with the
/// first target that admits no segment.
pub fn resolve<'a>(nodes: &[Node<'a>], targets_or_patterns: &[&'a str]) -> (r: Result<
    String,
    &'a str,
>)
    ensures
        ({
            let g = graph_of(nodes.deep_view());
            let adm = admitted(g, targets_or_patterns.deep_view());
            match r {
                Ok(out) => adm matches Ok(st) && out@ == emit_nodes(
                    nodes.deep_view(),
                    reachable_set(g, st),
                ),
                Err(e) => adm matches Err(tok) && tok == e@,
            }
        }),
{
    let segments = match resolve_segments(nodes, targets_or_patterns) {
        Ok(v) => v,
        Err(e) => {
            return Err(e);
        },
    };
    let ghost ndv = nodes.deep_view();
    let ghost inc = segments.deep_view().to_set();
    let mut out = String::new();
    let mut idx: usize = 0;
    proof {
        assert(ndv.take(0) =~= Seq::<NodeModel>::empty());
        assert(out@ =~= emit_nodes(ndv.take(0), inc));
    }
    while idx < nodes.len()
        invariant
            ndv == nodes.deep_view(),
            ndv.len() == nodes.len(),
            inc == segments.deep_view().to_set(),
            0 <= idx <= ndv.len(),
            out@ == emit_nodes(ndv.take(idx as int), inc),
        decreases ndv.len() - idx,
    {
        proof {
            assert(ndv.take(idx + 1).drop_last() =~= ndv.take(idx as int));
            assert(ndv.take(idx + 1).last() == ndv[idx as int]);
        }
        let ghost out0 = out@;
        match &nodes[idx] {
            Node::Content(text) => {
                out.append(text);
                proof {
                    assert(out@ =~= out0 + emit_node(ndv[idx as int], inc));
                }
            },
            Node::Segment { name, content, indentation, .. } => {
                if contains_str(&segments, name) {
                    proof {
                        assert(inc.contains(name@));
                    }
                    let l = indentation.unicode_len();
                    if l == 0 {
                        out.append(content);
                        proof {
                            assert(out@ =~= out0 + emit_node(ndv[idx as int], inc));
                        }
                    } else {
                        append_stripped(&mut out, content, l);
                        proof {
                            assert(out@ =~= out0 + emit_node(ndv[idx as int], inc));
                        }
                    }
                } else {
                    proof {
                        assert(!inc.contains(name@));
                        assert(emit_node(ndv[idx as int], inc) =~= Seq::<char>::empty());
                        assert(out@ =~= out0 + emit_node(ndv[idx as int], inc));
                    }
                }
            },
        }
        proof {
            assert(out@ =~= emit_nodes(ndv.take(idx + 1), inc));
        }
        idx = idx + 1;
    }
    proof {
        assert(ndv.take(ndv.len() as int) =~= ndv);
    }
    Ok(out)
}


/// The resolver's output preserves document order: however the node stream
/// is split, the output is what the earlier nodes contribute followed by
/// what the later nodes contribute.
pub proof fn lemma_emit_document_order(nodes: Seq<NodeModel>, included: Set<Seq<char>>, k: int)
    requires
        0 <= k <= nodes.len(),
    ensures
        emit_nodes(nodes, included) == emit_nodes(nodes.take(k), included) + emit_nodes(
            nodes.skip(k),
            included,
        ),
    decreases nodes.len(),
{
    if k == nodes.len() {
        assert(nodes.take(k) =~= nodes);
        assert(nodes.skip(k) =~= Seq::<NodeModel>::empty());
        assert(emit_nodes(nodes, included) + emit_nodes(nodes.skip(k), included) =~= emit_nodes(
            nodes,
            included,
        ));
    } else {
        let dl = nodes.drop_last();
        lemma_emit_document_order(dl, included, k);
        assert(dl.take(k) =~= nodes.take(k));
        assert(nodes.skip(k).drop_last() =~= dl.skip(k));
        assert(nodes.skip(k).last() == nodes.last());
        assert(nodes.skip(k).len() > 0);
        assert(emit_nodes(nodes.skip(k), included) == emit_nodes(dl.skip(k), included)
            + emit_node(nodes.last(), included));
        assert((emit_nodes(nodes.take(k), included) + emit_nodes(dl.skip(k), included))
            + emit_node(nodes.last(), included) =~= emit_nodes(nodes.take(k), included) + (
        emit_nodes(dl.skip(k), included) + emit_node(nodes.last(), included)));
    }
}

/// For a target that names a declared segment, the resolver admits exactly
/// that name, and the included set holds exactly the segments reachable
/// from it: the target itself, everything its dependency edges lead to, and
/// nothing else.
pub proof fn lemma_single_target_reachable(nodes: Seq<NodeModel>, tok: Seq<char>)
    requires
        graph_of(nodes).contains_key(tok),
    ensures
        admitted(graph_of(nodes), seq![tok]) is Ok,
        ({
            let g = graph_of(nodes);
            let included = reachable_set(g, admitted(g, seq![tok])->Ok_0);
            &&& included.contains(tok)
            &&& forall|v: Seq<char>| #[trigger] included.contains(v) <==> reaches(g, tok, v)
        }),
{
    let g = graph_of(nodes);
    let toks = seq![tok];
    assert(toks.drop_last() =~= Seq::<Seq<char>>::empty());
    assert(toks.last() == tok);
    assert(admitted(g, Seq::<Seq<char>>::empty()) == Ok::<Set<Seq<char>>, Seq<char>>(
        Set::<Seq<char>>::empty(),
    ));
    assert(admit_target(g, tok) == Some(Set::<Seq<char>>::empty().insert(tok)));
    let s = Set::<Seq<char>>::empty().union(Set::<Seq<char>>::empty().insert(tok));
    assert(admitted(g, toks) == Ok::<Set<Seq<char>>, Seq<char>>(s));
    assert(s =~= Set::<Seq<char>>::empty().insert(tok));
    let included = reachable_set(g, s);
    assert forall|v: Seq<char>| #[trigger] included.contains(v) <==> reaches(g, tok, v) by {
        if included.contains(v) {
            let st = choose|st: Seq<char>| #[trigger] s.contains(st) && reaches(g, st, v);
            assert(st == tok);
        }
        if reaches(g, tok, v) {
            assert(s.contains(tok) && reaches(g, tok, v));
        }
    }
    lemma_reaches_self(g, tok);
    assert(included.contains(tok));
}

} // verus!