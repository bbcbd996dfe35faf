//! The glob-pattern desugarer: rewrites every dependency token that holds
//! glob metacharacters into the sorted list of declared segment names it
//! matches, and re-emits the document with normalised headers.

use vstd::prelude::*;

use crate::chars::contains_glob_pattern_symbols;
use crate::chars::has_glob_meta;
use crate::glob_ext::glob_compiles;
use crate::glob_ext::glob_matches;
use crate::glob_ext::pattern_text;
use crate::node::Node;
use crate::node::NodeModel;
use crate::segments_scanner::scan_all;
use crate::segments_scanner::scan_spec;
use vstd::string::StringExecFns;

verus! {

/// Lexicographic order on character sequences, compared from position `k`.
pub open spec fn str_le_from(a: Seq<char>, b: Seq<char>, k: int) -> bool
    decreases a.len() - k,
{
    if k < 0 || k >= a.len() {
        true
    } else if k >= b.len() {
        false
    } else if a[k] == b[k] {
        str_le_from(a, b, k + 1)
    } else {
        (a[k] as u32) < (b[k] as u32)
    }
}

/// Lexicographic order on character sequences.
pub open spec fn str_le(a: Seq<char>, b: Seq<char>) -> bool {
    str_le_from(a, b, 0)
}

/// Whether `a` comes at or before `b` in lexicographic order.
fn str_le_exec(a: &str, b: &str) -> (r: bool)
    ensures
        r == str_le(a@, b@),
{
    let n = a.unicode_len();
    let m = b.unicode_len();
    let mut k: usize = 0;
    while k < n && k < m
        invariant
            0 <= k,
            k <= n,
            k <= m,
            n == a@.len(),
            m == b@.len(),
            str_le(a@, b@) == str_le_from(a@, b@, k as int),
        decreases n - k,
    {
        let ca = a.get_char(k);
        let cb = b.get_char(k);
        if ca != cb {
            return (ca as u32) < (cb as u32);
        }
        k = k + 1;
    }
    k >= n
}

/// `x` inserted into an ordered list of names, once: a copy already present
/// at the insertion point is not repeated.
pub open spec fn insert_sorted(x: Seq<char>, s: Seq<Seq<char>>) -> Seq<Seq<char>>
    decreases s.len(),
{
    if s.len() == 0 {
        seq![x]
    } else if str_le(x, s[0]) {
        if x == s[0] {
            s
        } else {
            seq![x] + s
        }
    } else {
        seq![s[0]] + insert_sorted(x, s.drop_first())
    }
}

/// The declared names matched by the pattern `d`, each once, in
/// lexicographic order.
pub open spec fn matches_sorted(d: Seq<char>, names: Seq<Seq<char>>) -> Seq<Seq<char>>
    decreases names.len(),
{
    if names.len() == 0 {
        Seq::empty()
    } else {
        let prev = matches_sorted(d, names.drop_last());
        if glob_matches(d, names.last()) {
            insert_sorted(names.last(), prev)
        } else {
            prev
        }
    }
}

/// What one dependency token becomes: itself when it holds no glob
/// metacharacter or does not compile; the sorted names it matches
/// otherwise.
pub open spec fn expand_dep(d: Seq<char>, names: Seq<Seq<char>>) -> Seq<Seq<char>> {
    if !has_glob_meta(d) {
        seq![d]
    } else if !glob_compiles(d) {
        seq![d]
    } else {
        matches_sorted(d, names)
    }
}

/// A whole dependency list after expansion, in order.
pub open spec fn expand_deps(deps: Seq<Seq<char>>, names: Seq<Seq<char>>) -> Seq<Seq<char>>
    decreases deps.len(),
{
    if deps.len() == 0 {
        Seq::empty()
    } else {
        expand_deps(deps.drop_last(), names) + expand_dep(deps.last(), names)
    }
}

/// The declared segment names of a node stream, in document order.
pub open spec fn names_of(nodes: Seq<NodeModel>) -> Seq<Seq<char>>
    decreases nodes.len(),
{
    if nodes.len() == 0 {
        Seq::empty()
    } else {
        names_of(nodes.drop_last()) + (match nodes.last() {
            NodeModel::Content { .. } => Seq::empty(),
            NodeModel::Segment { name, .. } => seq![name],
        })
    }
}

/// Dependency tokens as they stand in a re-emitted header: each preceded by
/// one space.
pub open spec fn spaced(deps: Seq<Seq<char>>) -> Seq<char>
    decreases deps.len(),
{
    if deps.len() == 0 {
        Seq::empty()
    } else {
        spaced(deps.drop_last()) + seq![' '] + deps.last()
    }
}

pub proof fn lemma_spaced_concat(a: Seq<Seq<char>>, b: Seq<Seq<char>>)
    ensures
        spaced(a + b) == spaced(a) + spaced(b),
    decreases b.len(),
{
    if b.len() == 0 {
        assert(a + b =~= a);
        assert(spaced(a) + spaced(b) =~= spaced(a));
    } else {
        lemma_spaced_concat(a, b.drop_last());
        assert((a + b).drop_last() =~= a + b.drop_last());
        assert((a + b).last() == b.last());
        assert(spaced(a) + (spaced(b.drop_last()) + seq![' '] + b.last()) =~= (spaced(a) + spaced(
            b.drop_last(),
        )) + seq![' '] + b.last());
    }
}

/// The text of one node as the desugarer re-emits it: content verbatim, a
/// segment as `name:` + its spaced dependencies + newline + body.
pub open spec fn node_text(nd: NodeModel) -> Seq<char> {
    match nd {
        NodeModel::Content { text } => text,
        NodeModel::Segment { name, dependencies, body, .. } => name + seq![':'] + spaced(
            dependencies,
        ) + seq!['\n'] + body,
    }
}

/// One node after glob expansion of its dependencies.
pub open spec fn glob_node(nd: NodeModel, names: Seq<Seq<char>>) -> NodeModel {
    match nd {
        NodeModel::Content { text } => NodeModel::Content { text },
        NodeModel::Segment { name, dependencies, indentation, body } => NodeModel::Segment {
            name,
            dependencies: expand_deps(dependencies, names),
            indentation,
            body,
        },
    }
}

/// The re-emitted document after glob expansion.
pub open spec fn emit_glob(nodes: Seq<NodeModel>, names: Seq<Seq<char>>) -> Seq<char>
    decreases nodes.len(),
{
    if nodes.len() == 0 {
        Seq::empty()
    } else {
        emit_glob(nodes.drop_last(), names) + node_text(glob_node(nodes.last(), names))
    }
}

/// The glob desugaring of a whole document.
pub open spec fn glob_desugar_spec(t: Seq<char>) -> Seq<char> {
    emit_glob(scan_spec(t), names_of(scan_spec(t)))
}

/// Inserts `x` into the ordered list `list`, keeping each name once.
fn insert_name<'a>(list: &mut Vec<&'a str>, x: &'a str)
    ensures
        final(list).deep_view() == insert_sorted(x@, old(list).deep_view()),
{
    broadcast use vstd::seq_lib::group_seq_properties;

    let ghost dv = list.deep_view();
    let mut i: usize = 0;
    while i < list.len()
        invariant
            0 <= i <= list.len(),
            dv == list.deep_view(),
            dv == old(list).deep_view(),
            dv.len() == list.len(),
            insert_sorted(x@, dv) == dv.take(i as int) + insert_sorted(x@, dv.skip(i as int)),
        decreases list.len() - i,
    {
        proof {
            assert(dv.skip(i as int)[0] == dv[i as int]);
            assert(dv.skip(i as int).drop_first() =~= dv.skip(i + 1));
        }
        if str_le_exec(x, list[i]) {
            if crate::chars::str_eq(x, list[i]) {
                proof {
                    assert(insert_sorted(x@, dv.skip(i as int)) == dv.skip(i as int));
                    assert(dv.take(i as int) + dv.skip(i as int) =~= dv);
                }
                return ;
            }
            list.insert(i, x);
            proof {
                assert(insert_sorted(x@, dv.skip(i as int)) == seq![x@] + dv.skip(i as int));
                assert(list.deep_view() =~= dv.take(i as int) + (seq![x@] + dv.skip(i as int)));
            }
            return ;
        }
        proof {
            assert(insert_sorted(x@, dv.skip(i as int)) == seq![dv[i as int]] + insert_sorted(
                x@,
                dv.skip(i + 1),
            ));
            assert(dv.take(i as int) + (seq![dv[i as int]] + insert_sorted(x@, dv.skip(i + 1)))
                =~= dv.take(i + 1) + insert_sorted(x@, dv.skip(i + 1)));
        }
        i = i + 1;
    }
    proof {
        assert(dv.skip(dv.len() as int) =~= Seq::<Seq<char>>::empty());
        assert(dv.take(dv.len() as int) =~= dv);
    }
    list.push(x);
    proof {
        assert(list.deep_view() =~= dv + seq![x@]);
        assert(insert_sorted(x@, dv.skip(dv.len() as int)) == seq![x@]);
        assert(dv + seq![x@] =~= dv.take(dv.len() as int) + insert_sorted(
            x@,
            dv.skip(dv.len() as int),
        ));
    }
}

/// The declared names the pattern matches, each once, in lexicographic
/// order; the pattern itself when it does not compile.
fn resolve_glob_pattern<'a>(segments: &Vec<&'a str>, pattern_str: &'a str) -> (r: Vec<&'a str>)
    ensures
        r.deep_view() == (if glob_compiles(pattern_str@) {
            matches_sorted(pattern_str@, segments.deep_view())
        } else {
            seq![pattern_str@]
        }),
{
    let ghost sdv = segments.deep_view();
    let pattern = match glob::Pattern::new(pattern_str) {
        Ok(pattern) => pattern,
        Err(_) => {
            let mut only: Vec<&'a str> = Vec::new();
            only.push(pattern_str);
            proof {
                assert(only.deep_view() =~= seq![pattern_str@]);
            }
            return only;
        },
    };
    let mut result: Vec<&'a str> = Vec::new();
    let mut j: usize = 0;
    proof {
        assert(sdv.take(0) =~= Seq::<Seq<char>>::empty());
        assert(result.deep_view() =~= matches_sorted(pattern_str@, sdv.take(0)));
    }
    while j < segments.len()
        invariant
            0 <= j <= segments.len(),
            sdv == segments.deep_view(),
            sdv.len() == segments.len(),
            pattern_text(pattern) == pattern_str@,
            result.deep_view() == matches_sorted(pattern_str@, sdv.take(j as int)),
        decreases segments.len() - j,
    {
        proof {
            assert(sdv.take(j + 1).drop_last() =~= sdv.take(j as int));
            assert(sdv.take(j + 1).last() == sdv[j as int]);
        }
        if pattern.matches(segments[j]) {
            insert_name(&mut result, segments[j]);
        }
        j = j + 1;
    }
    proof {
        assert(sdv.take(sdv.len() as int) =~= sdv);
    }
    result
}

/// Re-emits the document with every glob dependency expanded against the
/// declared segment names, sorted and without repetition; headers come out
/// normalised as `name:` + one space before each token + newline.
#[verifier::rlimit(60)]
pub fn desugar(content: &str) -> (r: String)
    ensures
        r@ == glob_desugar_spec(content@),
{
    let nodes = scan_all(content);
    let ghost ndv = nodes.deep_view();
    let mut segments: Vec<&str> = Vec::new();
    let mut i: usize = 0;
    proof {
        assert(ndv.take(0) =~= Seq::<NodeModel>::empty());
        assert(segments.deep_view() =~= names_of(ndv.take(0)));
    }
    while i < nodes.len()
        invariant
            0 <= i <= nodes.len(),
            ndv == nodes.deep_view(),
            ndv.len() == nodes.len(),
            segments.deep_view() == names_of(ndv.take(i as int)),
        decreases nodes.len() - i,
    {
        proof {
            assert(ndv.take(i + 1).drop_last() =~= ndv.take(i as int));
            assert(ndv.take(i + 1).last() == ndv[i as int]);
        }
        let ghost sdv0 = segments.deep_view();
        match &nodes[i] {
            Node::Content(_) => {
                proof {
                    assert(segments.deep_view() =~= names_of(ndv.take(i + 1)));
                }
            },
            Node::Segment { name, .. } => {
                segments.push(*name);
                proof {
                    assert(segments.deep_view() =~= sdv0 + seq![name@]);
                    assert(segments.deep_view() =~= names_of(ndv.take(i + 1)));
                }
            },
        }
        i = i + 1;
    }
    proof {
        assert(ndv.take(ndv.len() as int) =~= ndv);
    }
    let ghost names = segments.deep_view();
    let mut out = String::new();
    let mut i: usize = 0;
    proof {
        assert(ndv.take(0) =~= Seq::<NodeModel>::empty());
        assert(out@ =~= emit_glob(ndv.take(0), names));
    }
    while i < nodes.len()
        invariant
            0 <= i <= nodes.len(),
            ndv == nodes.deep_view(),
            ndv.len() == nodes.len(),
            names == segments.deep_view(),
            out@ == emit_glob(ndv.take(i as int), names),
        decreases nodes.len() - i,
    {
        proof {
            assert(ndv.take(i + 1).drop_last() =~= ndv.take(i as int));
            assert(ndv.take(i + 1).last() == ndv[i as int]);
        }
        let ghost out0 = out@;
        match &nodes[i] {
            Node::Content(text) => {
                out.append(text);
                proof {
                    assert(out@ =~= out0 + node_text(glob_node(ndv[i as int], names)));
                }
            },
            Node::Segment { name, content: body, dependencies, .. } => {
                out.append(name);
                out.append(":");
                proof {
                    reveal_strlit(":");
                    assert(":"@ =~= seq![':']);
                }
                let ghost deps = dependencies.deep_view();
                let ghost after_colon = out@;
                let mut k: usize = 0;
                proof {
                    assert(deps.take(0) =~= Seq::<Seq<char>>::empty());
                    assert(out@ =~= after_colon + spaced(expand_deps(deps.take(0), names)));
                }
                while k < dependencies.len()
                    invariant
                        0 <= k <= dependencies.len(),
                        deps == dependencies.deep_view(),
                        deps.len() == dependencies.len(),
                        names == segments.deep_view(),
                        out@ == after_colon + spaced(expand_deps(deps.take(k as int), names)),
                    decreases dependencies.len() - k,
                {
                    proof {
                        assert(deps.take(k + 1).drop_last() =~= deps.take(k as int));
                        assert(deps.take(k + 1).last() == deps[k as int]);
                        lemma_spaced_concat(
                            expand_deps(deps.take(k as int), names),
                            expand_dep(deps[k as int], names),
                        );
                    }
                    let d = dependencies[k];
                    let ghost out1 = out@;
                    if !contains_glob_pattern_symbols(d) {
                        out.append(" ");
                        out.append(d);
                        proof {
                            reveal_strlit(" ");
                            assert(" "@ =~= seq![' ']);
                            assert(seq![deps[k as int]].drop_last() =~= Seq::<Seq<char>>::empty());
                            assert(spaced(Seq::<Seq<char>>::empty()) =~= Seq::<char>::empty());
                            assert(spaced(expand_dep(deps[k as int], names)) =~= seq![' ']
                                + deps[k as int]);
                            assert(out@ =~= out1 + spaced(expand_dep(deps[k as int], names)));
                            assert(out@ =~= after_colon + spaced(
                                expand_deps(deps.take(k + 1), names),
                            ));
                        }
                    } else {
                        let expanded = resolve_glob_pattern(&segments, d);
                        let ghost edv = expanded.deep_view();
                        proof {
                            assert(edv == expand_dep(deps[k as int], names));
                        }
                        let mut m: usize = 0;
                        proof {
                            assert(edv.take(0) =~= Seq::<Seq<char>>::empty());
                            assert(out@ =~= out1 + spaced(edv.take(0)));
                        }
                        while m < expanded.len()
                            invariant
                                0 <= m <= expanded.len(),
                                edv == expanded.deep_view(),
                                edv.len() == expanded.len(),
                                out@ == out1 + spaced(edv.take(m as int)),
                            decreases expanded.len() - m,
                        {
                            proof {
                                assert(edv.take(m + 1).drop_last() =~= edv.take(m as int));
                                assert(edv.take(m + 1).last() == edv[m as int]);
                            }
                            let ghost out2 = out@;
                            out.append(" ");
                            out.append(expanded[m]);
                            proof {
                                reveal_strlit(" ");
                                assert(" "@ =~= seq![' ']);
                                assert(out@ =~= out2 + seq![' '] + edv[m as int]);
                                assert(out@ =~= out1 + spaced(edv.take(m + 1)));
                            }
                            m = m + 1;
                        }
                        proof {
                            assert(edv.take(edv.len() as int) =~= edv);
                            assert(out@ =~= after_colon + spaced(
                                expand_deps(deps.take(k + 1), names),
                            ));
                        }
                    }
                    k = k + 1;
                }
                proof {
                    assert(deps.take(deps.len() as int) =~= deps);
                }
                out.append("\n");
                out.append(body);
                proof {
                    reveal_strlit("\n");
                    assert("\n"@ =~= seq!['\n']);
                    assert(out@ =~= out0 + node_text(glob_node(ndv[i as int], names)));
                }
            },
        }
        proof {
            assert(out@ =~= emit_glob(ndv.take(i + 1), names));
        }
        i = i + 1;
    }
    proof {
        assert(ndv.take(ndv.len() as int) =~= ndv);
    }
    out
}


proof fn lemma_insert_sorted_elems(x: Seq<char>, s: Seq<Seq<char>>, y: Seq<char>)
    requires
        insert_sorted(x, s).contains(y),
    ensures
        y == x || s.contains(y),
    decreases s.len(),
{
    broadcast use vstd::seq_lib::group_seq_properties;

    if s.len() == 0 {
        assert(insert_sorted(x, s)[0] == x);
    } else if str_le(x, s[0]) {
        if x == s[0] {
        } else {
            let r = insert_sorted(x, s);
            let j = choose|j: int| 0 <= j < r.len() && r[j] == y;
            if j == 0 {
            } else {
                assert(s[j - 1] == y);
            }
        }
    } else {
        let r = insert_sorted(x, s);
        let j = choose|j: int| 0 <= j < r.len() && r[j] == y;
        if j == 0 {
            assert(s[0] == y);
        } else {
            assert(insert_sorted(x, s.drop_first())[j - 1] == y);
            lemma_insert_sorted_elems(x, s.drop_first(), y);
            if s.drop_first().contains(y) {
                let j2 = choose|j2: int| 0 <= j2 < s.drop_first().len() && s.drop_first()[j2]
                    == y;
                assert(s[j2 + 1] == y);
            }
        }
    }
}

proof fn lemma_matches_sorted_elems(d: Seq<char>, names: Seq<Seq<char>>, y: Seq<char>)
    requires
        matches_sorted(d, names).contains(y),
    ensures
        names.contains(y),
    decreases names.len(),
{
    broadcast use vstd::seq_lib::group_seq_properties;

    if names.len() > 0 {
        let prev = matches_sorted(d, names.drop_last());
        if glob_matches(d, names.last()) {
            lemma_insert_sorted_elems(names.last(), prev, y);
            if y == names.last() {
                assert(names[names.len() - 1] == y);
            } else {
                lemma_matches_sorted_elems(d, names.drop_last(), y);
                let j = choose|j: int| 0 <= j < names.drop_last().len() && names.drop_last()[j]
                    == y;
                assert(names[j] == y);
            }
        } else {
            lemma_matches_sorted_elems(d, names.drop_last(), y);
            let j = choose|j: int| 0 <= j < names.drop_last().len() && names.drop_last()[j] == y;
            assert(names[j] == y);
        }
    }
}

/// After glob expansion, every dependency token of every segment either
/// holds no glob metacharacter, or is one of the declared segment names, or
/// is a pattern that does not compile (such a token is kept verbatim).
pub proof fn lemma_expanded_deps_resolved(
    deps: Seq<Seq<char>>,
    names: Seq<Seq<char>>,
    y: Seq<char>,
)
    requires
        expand_deps(deps, names).contains(y),
    ensures
        !has_glob_meta(y) || !glob_compiles(y) || names.contains(y),
    decreases deps.len(),
{
    broadcast use vstd::seq_lib::group_seq_properties;

    if deps.len() > 0 {
        let a = expand_deps(deps.drop_last(), names);
        let b = expand_dep(deps.last(), names);
        let j = choose|j: int| 0 <= j < (a + b).len() && (a + b)[j] == y;
        if j < a.len() {
            assert(a[j] == y);
            lemma_expanded_deps_resolved(deps.drop_last(), names, y);
        } else {
            assert(b[j - a.len()] == y);
            let d = deps.last();
            if !has_glob_meta(d) || !glob_compiles(d) {
                assert(b =~= seq![d]);
                assert(y == d);
            } else {
                lemma_matches_sorted_elems(d, names, y);
            }
        }
    }
}


/// Re-concatenation of a node stream: headers reconstructed as `name:` +
/// spaced dependencies + newline, bodies and free content verbatim.
pub open spec fn reconstruct(nodes: Seq<NodeModel>) -> Seq<char>
    decreases nodes.len(),
{
    if nodes.len() == 0 {
        Seq::empty()
    } else {
        reconstruct(nodes.drop_last()) + node_text(nodes.last())
    }
}

proof fn lemma_scan_at_content_only(t: Seq<char>, cs: int, p: int)
    requires
        forall|p2: int| crate::segments_scanner::header_colon(t, p2) is None,
        0 <= cs <= t.len(),
        0 <= p <= t.len(),
    ensures
        crate::segments_scanner::scan_at(t, cs, p) == seq![
            NodeModel::Content { text: t.subrange(cs, t.len() as int) },
        ],
    decreases t.len() + 1 - p,
{
    crate::segments_scanner::lemma_line_end(t, p);
    let q = crate::segments_scanner::line_end(t, p);
    if q <= t.len() {
        lemma_scan_at_content_only(t, cs, q);
    }
}

/// Re-concatenating the scanner's nodes reproduces the input byte for byte
/// for a document without segment headers: it is emitted as one verbatim
/// content node.
pub proof fn lemma_scan_reconstructs_content(t: Seq<char>)
    requires
        forall|p: int| crate::segments_scanner::header_colon(t, p) is None,
    ensures
        scan_spec(t) == seq![NodeModel::Content { text: t }],
        reconstruct(scan_spec(t)) == t,
{
    lemma_scan_at_content_only(t, 0, 0);
    assert(t.subrange(0, t.len() as int) =~= t);
    let nodes = scan_spec(t);
    assert(nodes.drop_last() =~= Seq::<NodeModel>::empty());
    assert(reconstruct(Seq::<NodeModel>::empty()) =~= Seq::<char>::empty());
    assert(reconstruct(nodes) =~= t);
}


/// Document-level form of the dependency-resolution guarantee: in the node
/// stream the glob desugarer re-emits, every dependency token either holds
/// no glob metacharacter, or names a declared segment, or is a pattern
/// that does not compile (and is kept verbatim).
pub proof fn lemma_glob_desugar_resolves_deps(t: Seq<char>, i: int, y: Seq<char>)
    requires
        0 <= i < scan_spec(t).len(),
        ({
            let nd = glob_node(scan_spec(t)[i], names_of(scan_spec(t)));
            nd is Segment && nd->Segment_dependencies.contains(y)
        }),
    ensures
        !has_glob_meta(y) || !glob_compiles(y) || names_of(scan_spec(t)).contains(y),
{
    let names = names_of(scan_spec(t));
    match scan_spec(t)[i] {
        NodeModel::Content { .. } => {
            assert(false);
        },
        NodeModel::Segment { dependencies, .. } => {
            lemma_expanded_deps_resolved(dependencies, names, y);
        },
    }
}

} // verus!
