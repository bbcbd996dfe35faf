//! The groups desugarer: rewrites nested `name/:` group blocks into flat
//! `prefix/child` segments. Free content inside a group is promoted into a
//! synthesised segment named after the group; child segments are renamed to
//! `group/child` and their dependencies qualified: a leading `/` marks an
//! absolute dependency (resolved at the root), anything else is resolved
//! within the group.

use vstd::prelude::*;

use crate::chars::find_nl;
use crate::chars::find_nonws;
use crate::chars::is_alphabetic_char;
use crate::chars::is_name_char;
use crate::chars::lemma_find_nl;
use crate::chars::lemma_find_nonws;
use crate::dependencies_collector::deps_consumed;
use crate::dependencies_collector::deps_of;
use crate::dependencies_collector::DependenciesCollector;
use crate::glob_pattern::spaced;
use crate::node::Node;
use crate::node::NodeModel;
use crate::segments_scanner::scan_all;
use crate::segments_scanner::scan_spec;
use crate::segments_scanner::starts_with_at;
use vstd::string::StringExecFns;

verus! {

/// Where the next group header starts: scanning from position `i` on the
/// line that began at `base`, with `prev_slash` recording whether the
/// previous name character was a `/`. A group header is a name of at least
/// two characters ending in `/`, followed by a colon; any other line is
/// skipped.
pub open spec fn group_scan(t: Seq<char>, base: int, i: int, prev_slash: bool) -> Option<
    (int, int),
>
    decreases t.len() - i,
    via group_scan_decreases
{
    if i < 0 || i >= t.len() {
        None
    } else {
        let c = t[i];
        if (i == base && is_alphabetic_char(c)) || is_name_char(c) {
            group_scan(t, base, i + 1, c == '/')
        } else if c == ':' && i - base >= 2 && prev_slash {
            Some((base, i - base))
        } else {
            match find_nl(t, i) {
                None => None,
                Some(j) => group_scan(t, j + 1, j + 1, false),
            }
        }
    }
}

#[via_fn]
proof fn group_scan_decreases(t: Seq<char>, base: int, i: int, prev_slash: bool) {
    if 0 <= i < t.len() {
        lemma_find_nl(t, i);
    }
}

/// Where the first group header of `t` starts, with its name's length
/// (trailing slash included).
pub open spec fn find_group_start_spec(t: Seq<char>) -> Option<(int, int)> {
    group_scan(t, 0, 0, false)
}

pub proof fn lemma_group_scan(t: Seq<char>, base: int, i: int, prev_slash: bool)
    requires
        0 <= base <= i,
    ensures
        match group_scan(t, base, i, prev_slash) {
            Some(r) => {
                &&& 0 <= r.0
                &&& r.1 >= 2
                &&& r.0 + r.1 < t.len()
                &&& t[r.0 + r.1] == ':'
            },
            None => true,
        },
    decreases t.len() - i,
{
    if 0 <= i < t.len() {
        let c = t[i];
        if (i == base && is_alphabetic_char(c)) || is_name_char(c) {
            lemma_group_scan(t, base, i + 1, c == '/');
        } else if c == ':' && i - base >= 2 && prev_slash {
        } else {
            lemma_find_nl(t, i);
            match find_nl(t, i) {
                None => {},
                Some(j) => {
                    lemma_group_scan(t, j + 1, j + 1, false);
                },
            }
        }
    }
}

/// End of a group's body: from `shift`, lines are consumed while each line
/// after a newline still starts with the group's indentation; the body ends
/// just past the first newline whose next line does not.
pub open spec fn group_end_loop(t: Seq<char>, ind: Seq<char>, shift: int) -> int
    decreases t.len() - shift,
    via group_end_loop_decreases
{
    if shift < 0 || shift > t.len() {
        t.len() as int
    } else {
        match find_nl(t, shift) {
            None => t.len() as int,
            Some(p) => {
                if !starts_with_at(t, p + 1, ind) {
                    p + 1
                } else {
                    group_end_loop(t, ind, p + 1 + ind.len())
                }
            },
        }
    }
}

#[via_fn]
proof fn group_end_loop_decreases(t: Seq<char>, ind: Seq<char>, shift: int) {
    if 0 <= shift <= t.len() {
        lemma_find_nl(t, shift);
    }
}

pub proof fn lemma_group_end_loop(t: Seq<char>, ind: Seq<char>, shift: int)
    requires
        0 <= shift <= t.len(),
    ensures
        shift <= group_end_loop(t, ind, shift) <= t.len(),
    decreases t.len() - shift,
{
    lemma_find_nl(t, shift);
    match find_nl(t, shift) {
        None => {},
        Some(p) => {
            if starts_with_at(t, p + 1, ind) {
                lemma_group_end_loop(t, ind, p + 1 + ind.len());
            }
        },
    }
}

/// A line of a group body with up to `l` leading characters removed.
pub open spec fn drop_prefix(line: Seq<char>, l: int) -> Seq<char> {
    if 0 <= l <= line.len() {
        line.skip(l)
    } else if l > line.len() {
        Seq::empty()
    } else {
        line
    }
}

/// The text from line start `p` on, with `l` characters removed from the
/// head of every line; a trailing newline of the whole text is dropped, as
/// the lines are re-joined with single newlines.
pub open spec fn remove_from(t: Seq<char>, l: int, p: int) -> Seq<char>
    decreases t.len() - p,
    via remove_from_decreases
{
    if p < 0 || p >= t.len() {
        Seq::empty()
    } else {
        match find_nl(t, p) {
            None => drop_prefix(t.subrange(p, t.len() as int), l),
            Some(i) => {
                if i + 1 >= t.len() {
                    drop_prefix(t.subrange(p, i), l)
                } else {
                    drop_prefix(t.subrange(p, i), l) + seq!['\n'] + remove_from(t, l, i + 1)
                }
            },
        }
    }
}

#[via_fn]
proof fn remove_from_decreases(t: Seq<char>, l: int, p: int) {
    if 0 <= p < t.len() {
        lemma_find_nl(t, p);
    }
}

/// A group body with its parent indentation removed from every line.
pub open spec fn remove_indent(t: Seq<char>, l: int) -> Seq<char> {
    if l == 0 {
        t
    } else {
        remove_from(t, l, 0)
    }
}

pub proof fn lemma_remove_from_len(t: Seq<char>, l: int, p: int)
    requires
        0 <= p <= t.len(),
    ensures
        remove_from(t, l, p).len() <= t.len() - p,
    decreases t.len() - p,
{
    if 0 <= p < t.len() {
        lemma_find_nl(t, p);
        match find_nl(t, p) {
            None => {
                assert(drop_prefix(t.subrange(p, t.len() as int), l).len() <= t.len() - p);
            },
            Some(i) => {
                assert(drop_prefix(t.subrange(p, i), l).len() <= i - p);
                if i + 1 < t.len() {
                    lemma_remove_from_len(t, l, i + 1);
                }
            },
        }
    }
}

/// `text`, re-indented: every line prefixed with `gind`, the trailing
/// newline kept if the text ended with one.
pub open spec fn reindent_from(t: Seq<char>, gind: Seq<char>, p: int) -> Seq<char>
    decreases t.len() - p,
    via reindent_from_decreases
{
    if p < 0 || p >= t.len() {
        Seq::empty()
    } else {
        match find_nl(t, p) {
            None => gind + t.subrange(p, t.len() as int),
            Some(i) => gind + t.subrange(p, i) + seq!['\n'] + reindent_from(t, gind, i + 1),
        }
    }
}

#[via_fn]
proof fn reindent_from_decreases(t: Seq<char>, gind: Seq<char>, p: int) {
    if 0 <= p < t.len() {
        lemma_find_nl(t, p);
    }
}

/// A dependency on a root-level group header: a leading `/` is stripped.
pub open spec fn root_dep(d: Seq<char>) -> Seq<char> {
    if d.len() > 0 && d[0] == '/' {
        d.drop_first()
    } else {
        d
    }
}

/// A dependency on a nested group header: absolute ones are preserved, the
/// rest are qualified with the enclosing prefix.
pub open spec fn prefixed_dep(prefix: Seq<char>, d: Seq<char>) -> Seq<char> {
    if d.len() > 0 && d[0] == '/' {
        d
    } else {
        prefix + seq!['/'] + d
    }
}

/// The header a group itself is rewritten to: its name without the trailing
/// slash, then its dependencies, root-stripped at the root and
/// prefix-qualified deeper in.
pub open spec fn group_header(prefix: Seq<char>, name: Seq<char>, deps: Seq<Seq<char>>) -> Seq<
    char,
> {
    if prefix.len() == 0 {
        name + seq![':'] + spaced(deps.map_values(|d: Seq<char>| root_dep(d)))
    } else {
        name + seq![':'] + spaced(deps.map_values(|d: Seq<char>| prefixed_dep(prefix, d)))
    }
}

/// A dependency of a child segment inside a group: absolute ones are
/// resolved at the root (the slash stripped at root level, kept deeper in),
/// relative ones within the group.
pub open spec fn child_dep(d: Seq<char>, gname: Seq<char>, prefix: Seq<char>) -> Seq<char> {
    if d.len() > 0 && d[0] == '/' {
        if prefix.len() == 0 {
            d.drop_first()
        } else {
            d
        }
    } else {
        gname + seq!['/'] + d
    }
}

/// The text one node of a desugared group body is rewritten to. Free
/// content becomes a synthesised segment named after the group, carrying
/// the group's dependencies and the content re-indented; a child segment
/// becomes `group/child`, anchored on the group and with its dependencies
/// qualified.
pub open spec fn group_node_text(
    nd: NodeModel,
    gname: Seq<char>,
    gind: Seq<char>,
    gdeps: Seq<Seq<char>>,
    prefix: Seq<char>,
) -> Seq<char> {
    match nd {
        NodeModel::Content { text } => gname + seq![':'] + spaced(gdeps) + seq!['\n']
            + reindent_from(text, gind, 0),
        NodeModel::Segment { name, dependencies, body, .. } => gname + seq!['/'] + name + seq![':']
            + spaced(
            seq![gname] + dependencies.map_values(|d: Seq<char>| child_dep(d, gname, prefix)),
        ) + seq!['\n'] + body,
    }
}

/// The rewritten text of a whole desugared group body.
pub open spec fn emit_group(
    nodes: Seq<NodeModel>,
    gname: Seq<char>,
    gind: Seq<char>,
    gdeps: Seq<Seq<char>>,
    prefix: Seq<char>,
) -> Seq<char>
    decreases nodes.len(),
{
    if nodes.len() == 0 {
        Seq::empty()
    } else {
        emit_group(nodes.drop_last(), gname, gind, gdeps, prefix) + group_node_text(
            nodes.last(),
            gname,
            gind,
            gdeps,
            prefix,
        )
    }
}

/// The groups desugaring of `t` under an accumulated `prefix`: the first
/// group found is flattened (its body first desugared recursively, then
/// scanned and rewritten node by node), and the rest of the document is
/// desugared in turn. Text without a group is returned unchanged.
pub open spec fn desugar_groups_spec(t: Seq<char>, prefix: Seq<char>) -> Seq<char>
    decreases t.len(),
    via desugar_groups_spec_decreases
{
    match find_group_start_spec(t) {
        None => t,
        Some(r) => {
            let start = r.0;
            let length = r.1;
            let deps_start = start + length + 1;
            let rest = t.subrange(deps_start, t.len() as int);
            let gdeps = deps_of(rest);
            let gcs = deps_start + deps_consumed(rest);
            let name = t.subrange(start, start + length - 1);
            if gcs >= t.len() {
                t.subrange(0, start) + group_header(prefix, name, gdeps)
            } else {
                match find_nonws(t, gcs) {
                    None => t.subrange(0, start) + group_header(prefix, name, gdeps)
                        + seq!['\n'] + desugar_groups_spec(
                        t.subrange(gcs, t.len() as int),
                        prefix,
                    ),
                    Some(iw) => {
                        let gind = t.subrange(gcs, iw);
                        let gce = group_end_loop(t, gind, gcs + gind.len());
                        let gpref = if prefix.len() == 0 {
                            name
                        } else {
                            prefix + seq!['/'] + name
                        };
                        let inner = desugar_groups_spec(
                            remove_indent(t.subrange(gcs, gce), gind.len() as int),
                            gpref,
                        );
                        let flat = t.subrange(0, start) + emit_group(
                            scan_spec(inner),
                            name,
                            gind,
                            gdeps,
                            prefix,
                        );
                        if gce < t.len() {
                            flat + seq!['\n'] + desugar_groups_spec(
                                t.subrange(gce, t.len() as int),
                                prefix,
                            )
                        } else {
                            flat
                        }
                    },
                }
            }
        },
    }
}

#[via_fn]
proof fn desugar_groups_spec_decreases(t: Seq<char>, prefix: Seq<char>) {
    match find_group_start_spec(t) {
        None => {},
        Some(r) => {
            lemma_group_scan(t, 0, 0, false);
            let start = r.0;
            let length = r.1;
            let deps_start = start + length + 1;
            let rest = t.subrange(deps_start, t.len() as int);
            lemma_find_nl(rest, 0);
            let gcs = deps_start + deps_consumed(rest);
            if gcs < t.len() {
                match find_nonws(t, gcs) {
                    None => {},
                    Some(iw) => {
                        lemma_find_nonws(t, gcs);
                        let gind = t.subrange(gcs, iw);
                        lemma_group_end_loop(t, gind, gcs + gind.len());
                        lemma_remove_from_len(t.subrange(gcs, group_end_loop(t, gind, gcs + gind.len())), gind.len() as int, 0);
                    },
                }
            }
        },
    }
}


/// Where the first group header starts within a text.
#[derive(Debug, PartialEq, Eq, Structural)]
pub struct Position {
    pub start: usize,
    pub length: usize,
}

/// Finds the first group header of `content`: the position of its line and
/// the length of its name, trailing slash included.
pub fn find_group_start(content: &str) -> (r: Option<Position>)
    ensures
        match r {
            Some(pos) => find_group_start_spec(content@) == Some(
                (pos.start as int, pos.length as int),
            ),
            None => find_group_start_spec(content@) is None,
        },
{
    let ghost t = content@;
    let n = content.unicode_len();
    let mut base: usize = 0;
    let mut i: usize = 0;
    let mut prev_slash = false;
    while i < n
        invariant
            0 <= base <= i <= n,
            n == t.len(),
            t == content@,
            group_scan(t, 0, 0, false) == group_scan(t, base as int, i as int, prev_slash),
        decreases n - i,
    {
        let c = content.get_char(i);
        if (i == base && c.is_alphabetic()) || crate::chars::is_valid_segment_name_char(c) {
            prev_slash = c == '/';
            i = i + 1;
        } else if c == ':' && i - base >= 2 && prev_slash {
            return Some(Position { start: base, length: i - base });
        } else {
            match crate::chars::find_nl_at(content, i) {
                None => {
                    return None;
                },
                Some(j) => {
                    proof {
                        lemma_find_nl(t, i as int);
                    }
                    base = j + 1;
                    i = j + 1;
                    prev_slash = false;
                },
            }
        }
    }
    None
}

/// End of the group body that begins before `shift`, whose lines carry the
/// indentation `gind`.
fn group_end(content: &str, gind: &str, shift: usize) -> (r: usize)
    requires
        shift <= content@.len(),
    ensures
        r == group_end_loop(content@, gind@, shift as int),
        shift <= r <= content@.len(),
{
    let ghost t = content@;
    let ghost ind = gind@;
    let n = content.unicode_len();
    let m = gind.unicode_len();
    let mut s: usize = shift;
    loop
        invariant
            shift <= s <= n,
            n == t.len(),
            t == content@,
            ind == gind@,
            m == ind.len(),
            group_end_loop(t, ind, shift as int) == group_end_loop(t, ind, s as int),
        decreases n - s,
    {
        match crate::chars::find_nl_at(content, s) {
            None => {
                return n;
            },
            Some(q) => {
                proof {
                    lemma_find_nl(t, s as int);
                }
                if !crate::segments_scanner::starts_with_at_exec(content, q + 1, gind) {
                    return q + 1;
                }
                proof {
                    lemma_group_end_loop(t, ind, q + 1 + m);
                }
                s = q + 1 + m;
            },
        }
    }
}

/// Whether `d` starts with a slash, marking an absolute dependency.
fn starts_with_slash(d: &str) -> (r: bool)
    ensures
        r == (d@.len() > 0 && d@[0] == '/'),
{
    if d.is_empty() {
        false
    } else {
        d.get_char(0) == '/'
    }
}

/// The flattened header of a group: its name without the trailing slash,
/// then its dependencies, root-stripped at the root and prefix-qualified
/// deeper in.
fn build_group_header(prefix: &str, name: &str, deps: &Vec<&str>) -> (r: String)
    ensures
        r@ == group_header(prefix@, name@, deps.deep_view()),
{
    let ghost dv = deps.deep_view();
    let root = prefix.is_empty();
    let ghost mapped = if root {
        dv.map_values(|d: Seq<char>| root_dep(d))
    } else {
        dv.map_values(|d: Seq<char>| prefixed_dep(prefix@, d))
    };
    let mut out = String::from_str(name);
    out.append(":");
    let ghost head = out@;
    proof {
        reveal_strlit(":");
        assert(":"@ =~= seq![':']);
        assert(head =~= name@ + seq![':']);
        assert(mapped.take(0) =~= Seq::<Seq<char>>::empty());
        assert(out@ =~= head + spaced(mapped.take(0)));
    }
    let mut k: usize = 0;
    while k < deps.len()
        invariant
            0 <= k <= deps.len(),
            dv == deps.deep_view(),
            dv.len() == deps.len(),
            root == (prefix@.len() == 0),
            mapped == (if root {
                dv.map_values(|d: Seq<char>| root_dep(d))
            } else {
                dv.map_values(|d: Seq<char>| prefixed_dep(prefix@, d))
            }),
            out@ == head + spaced(mapped.take(k as int)),
        decreases deps.len() - k,
    {
        proof {
            assert(mapped.take(k + 1).drop_last() =~= mapped.take(k as int));
            assert(mapped.take(k + 1).last() == mapped[k as int]);
        }
        let ghost out0 = out@;
        out.append(" ");
        let d = deps[k];
        if root {
            if starts_with_slash(d) {
                let dn = d.unicode_len();
                out.append(d.substring_char(1, dn));
                proof {
                    assert(d@.subrange(1, d@.len() as int) =~= d@.drop_first());
                }
            } else {
                out.append(d);
            }
        } else {
            if starts_with_slash(d) {
                out.append(d);
            } else {
                out.append(prefix);
                out.append("/");
                out.append(d);
                proof {
                    reveal_strlit("/");
                    assert("/"@ =~= seq!['/']);
                }
            }
        }
        proof {
            reveal_strlit(" ");
            assert(" "@ =~= seq![' ']);
            assert(out@ =~= out0 + seq![' '] + mapped[k as int]);
            assert(out@ =~= head + spaced(mapped.take(k + 1)));
        }
        k = k + 1;
    }
    proof {
        assert(mapped.take(mapped.len() as int) =~= mapped);
    }
    out
}

/// `content` with `indentation_len` characters removed from the head of
/// every line; lines are re-joined with single newlines, so a trailing
/// newline is dropped.
pub(crate) fn remove_parent_indentation(content: &str, indentation_len: usize) -> (r: String)
    ensures
        r@ == remove_indent(content@, indentation_len as int),
{
    if indentation_len == 0 {
        return content.to_owned();
    }
    let ghost t = content@;
    let ghost l = indentation_len as int;
    let n = content.unicode_len();
    let mut out = String::new();
    let mut p: usize = 0;
    proof {
        assert(out@ + remove_from(t, l, 0) =~= remove_from(t, l, 0));
    }
    while p < n
        invariant
            0 <= p <= n,
            n == t.len(),
            t == content@,
            l == indentation_len as int,
            remove_from(t, l, 0) == out@ + remove_from(t, l, p as int),
        decreases n - p,
    {
        let ghost out0 = out@;
        match crate::chars::find_nl_at(content, p) {
            None => {
                let start = if indentation_len <= n - p {
                    p + indentation_len
                } else {
                    n
                };
                out.append(content.substring_char(start, n));
                proof {
                    if l <= n - p {
                        assert(t.subrange(p as int, n as int).skip(l) =~= t.subrange(
                            start as int,
                            n as int,
                        ));
                    } else {
                        assert(t.subrange(start as int, n as int) =~= Seq::<char>::empty());
                    }
                    assert(remove_from(t, l, p as int) =~= t.subrange(start as int, n as int));
                    assert(remove_from(t, l, n as int) =~= Seq::<char>::empty());
                    assert(out@ + remove_from(t, l, n as int) =~= out0 + remove_from(
                        t,
                        l,
                        p as int,
                    ));
                }
                p = n;
            },
            Some(i) => {
                proof {
                    lemma_find_nl(t, p as int);
                }
                let start = if indentation_len <= i - p {
                    p + indentation_len
                } else {
                    i
                };
                out.append(content.substring_char(start, i));
                proof {
                    if l <= i - p {
                        assert(t.subrange(p as int, i as int).skip(l) =~= t.subrange(
                            start as int,
                            i as int,
                        ));
                    } else {
                        assert(t.subrange(start as int, i as int) =~= Seq::<char>::empty());
                    }
                    assert(drop_prefix(t.subrange(p as int, i as int), l) =~= t.subrange(
                        start as int,
                        i as int,
                    ));
                }
                if i + 1 < n {
                    out.append("\n");
                    proof {
                        reveal_strlit("\n");
                        assert("\n"@ =~= seq!['\n']);
                        assert(remove_from(t, l, p as int) =~= t.subrange(start as int, i as int)
                            + seq!['\n'] + remove_from(t, l, i + 1));
                        assert(out@ + remove_from(t, l, i + 1) =~= out0 + remove_from(
                            t,
                            l,
                            p as int,
                        ));
                    }
                } else {
                    proof {
                        assert(remove_from(t, l, p as int) =~= t.subrange(start as int, i as int));
                        assert(remove_from(t, l, i + 1) =~= Seq::<char>::empty());
                        assert(out@ + remove_from(t, l, i + 1) =~= out0 + remove_from(
                            t,
                            l,
                            p as int,
                        ));
                    }
                }
                p = i + 1;
            },
        }
    }
    proof {
        assert(remove_from(t, l, p as int) =~= Seq::<char>::empty());
        assert(out@ =~= out@ + remove_from(t, l, p as int));
    }
    out
}

/// Appends `text` with every line prefixed by `gind`, keeping a trailing
/// newline if the text ended with one.
fn append_reindented(out: &mut String, text: &str, gind: &str)
    ensures
        final(out)@ == old(out)@ + reindent_from(text@, gind@, 0),
{
    let ghost t = text@;
    let ghost ind = gind@;
    let n = text.unicode_len();
    let mut p: usize = 0;
    proof {
        assert(old(out)@ + reindent_from(t, ind, 0) =~= out@ + reindent_from(t, ind, 0));
    }
    while p < n
        invariant
            0 <= p <= n,
            n == t.len(),
            t == text@,
            ind == gind@,
            old(out)@ + reindent_from(t, ind, 0) == out@ + reindent_from(t, ind, p as int),
        decreases n - p,
    {
        let ghost out0 = out@;
        out.append(gind);
        match crate::chars::find_nl_at(text, p) {
            None => {
                out.append(text.substring_char(p, n));
                proof {
                    assert(reindent_from(t, ind, p as int) =~= ind + t.subrange(p as int, n as int));
                    assert(reindent_from(t, ind, n as int) =~= Seq::<char>::empty());
                    assert(out@ + reindent_from(t, ind, n as int) =~= out0 + reindent_from(
                        t,
                        ind,
                        p as int,
                    ));
                }
                p = n;
            },
            Some(i) => {
                proof {
                    lemma_find_nl(t, p as int);
                }
                out.append(text.substring_char(p, i));
                out.append("\n");
                proof {
                    reveal_strlit("\n");
                    assert("\n"@ =~= seq!['\n']);
                    assert(reindent_from(t, ind, p as int) =~= ind + t.subrange(p as int, i as int)
                        + seq!['\n'] + reindent_from(t, ind, i + 1));
                    assert(out@ + reindent_from(t, ind, i + 1) =~= out0 + reindent_from(
                        t,
                        ind,
                        p as int,
                    ));
                }
                p = i + 1;
            },
        }
    }
    proof {
        assert(reindent_from(t, ind, p as int) =~= Seq::<char>::empty());
        assert(out@ =~= out@ + reindent_from(t, ind, p as int));
    }
}


/// Flattens every group of `content` under the accumulated `prefix`: each
/// group's body is desugared recursively, scanned, and rewritten into flat
/// `group/child` segments with qualified dependencies, free body content
/// being promoted into a segment named after the group.
fn desugar_groups(content: &str, prefix: &str) -> (r: String)
    ensures
        r@ == desugar_groups_spec(content@, prefix@),
    decreases content@.len(),
{
    let ghost t = content@;
    let n = content.unicode_len();
    let gs = match find_group_start(content) {
        None => {
            return content.to_owned();
        },
        Some(pos) => pos,
    };
    proof {
        lemma_group_scan(t, 0, 0, false);
    }
    let start = gs.start;
    let length = gs.length;
    let deps_start = start + length + 1;
    let rest = content.substring_char(deps_start, n);
    let ghost restv = rest@;
    let mut collector = DependenciesCollector::new(rest);
    let (consumed, deps) = collector.collect();
    proof {
        lemma_find_nl(restv, 0);
    }
    let name = content.substring_char(start, start + length - 1);
    if consumed >= n - deps_start {
        // the header is all there is
        let mut out = String::from_str(content.substring_char(0, start));
        let header = build_group_header(prefix, name, &deps);
        out.append(header.as_str());
        proof {
            assert(out@ =~= desugar_groups_spec(t, prefix@));
        }
        return out;
    }
    let gcs = deps_start + consumed;
    match crate::chars::find_nonws_at(content, gcs) {
        None => {
            // an empty group: emit its header and go on after it
            let mut out = String::from_str(content.substring_char(0, start));
            let header = build_group_header(prefix, name, &deps);
            out.append(header.as_str());
            out.append("\n");
            let tail = desugar_groups(content.substring_char(gcs, n), prefix);
            out.append(tail.as_str());
            proof {
                reveal_strlit("\n");
                assert("\n"@ =~= seq!['\n']);
                assert(out@ =~= desugar_groups_spec(t, prefix@));
            }
            out
        },
        Some(iw) => {
            proof {
                lemma_find_nonws(t, gcs as int);
            }
            let gind = content.substring_char(gcs, iw);
            let gce = group_end(content, gind, iw);
            proof {
                assert(iw as int == gcs + gind@.len());
            }
            let il = gind.unicode_len();
            let sliced = content.substring_char(gcs, gce);
            let deind = remove_parent_indentation(sliced, il);
            let gpref = if prefix.is_empty() {
                String::from_str(name)
            } else {
                let mut acc = String::from_str(prefix);
                acc.append("/");
                acc.append(name);
                proof {
                    reveal_strlit("/");
                    assert("/"@ =~= seq!['/']);
                }
                acc
            };
            proof {
                if il == 0 {
                    assert(remove_indent(sliced@, 0) == sliced@);
                } else {
                    lemma_remove_from_len(sliced@, il as int, 0);
                }
                assert(deind@.len() < t.len());
            }
            let inner = desugar_groups(deind.as_str(), gpref.as_str());
            let nodes = scan_all(inner.as_str());
            let ghost ndv = nodes.deep_view();
            let ghost gdeps = deps.deep_view();
            let mut out = String::from_str(content.substring_char(0, start));
            let ghost head = out@;
            let mut idx: usize = 0;
            proof {
                assert(ndv.take(0) =~= Seq::<NodeModel>::empty());
                assert(out@ =~= head + emit_group(ndv.take(0), name@, gind@, gdeps, prefix@));
            }
            while idx < nodes.len()
                invariant
                    0 <= idx <= nodes.len(),
                    ndv == nodes.deep_view(),
                    ndv.len() == nodes.len(),
                    gdeps == deps.deep_view(),
                    gdeps.len() == deps.len(),
                    out@ == head + emit_group(ndv.take(idx as int), name@, gind@, gdeps, prefix@),
                decreases nodes.len() - idx,
            {
                proof {
                    assert(ndv.take(idx + 1).drop_last() =~= ndv.take(idx as int));
                    assert(ndv.take(idx + 1).last() == ndv[idx as int]);
                }
                let ghost out0 = out@;
                match &nodes[idx] {
                    Node::Content(text) => {
                        out.append(name);
                        out.append(":");
                        let ghost h2 = out@;
                        proof {
                            reveal_strlit(":");
                            assert(":"@ =~= seq![':']);
                            assert(gdeps.take(0) =~= Seq::<Seq<char>>::empty());
                            assert(out@ =~= h2 + spaced(gdeps.take(0)));
                        }
                        let mut k: usize = 0;
                        while k < deps.len()
                            invariant
                                0 <= k <= deps.len(),
                                gdeps == deps.deep_view(),
                                gdeps.len() == deps.len(),
                                out@ == h2 + spaced(gdeps.take(k as int)),
                            decreases deps.len() - k,
                        {
                            proof {
                                assert(gdeps.take(k + 1).drop_last() =~= gdeps.take(k as int));
                                assert(gdeps.take(k + 1).last() == gdeps[k as int]);
                            }
                            let ghost out1 = out@;
                            out.append(" ");
                            out.append(deps[k]);
                            proof {
                                reveal_strlit(" ");
                                assert(" "@ =~= seq![' ']);
                                assert(out@ =~= out1 + seq![' '] + gdeps[k as int]);
                                assert(out@ =~= h2 + spaced(gdeps.take(k + 1)));
                            }
                            k = k + 1;
                        }
                        proof {
                            assert(gdeps.take(gdeps.len() as int) =~= gdeps);
                        }
                        out.append("\n");
                        proof {
                            reveal_strlit("\n");
                            assert("\n"@ =~= seq!['\n']);
                        }
                        append_reindented(&mut out, text, gind);
                        proof {
                            assert(out@ =~= out0 + group_node_text(
                                ndv[idx as int],
                                name@,
                                gind@,
                                gdeps,
                                prefix@,
                            ));
                        }
                    },
                    Node::Segment { name: child, content: body, dependencies: cdeps, .. } => {
                        let ghost cdv = cdeps.deep_view();
                        let ghost full = seq![name@] + cdv.map_values(
                            |d: Seq<char>| child_dep(d, name@, prefix@),
                        );
                        out.append(name);
                        out.append("/");
                        out.append(child);
                        out.append(":");
                        let ghost h2 = out@;
                        out.append(" ");
                        out.append(name);
                        proof {
                            reveal_strlit("/");
                            reveal_strlit(":");
                            reveal_strlit(" ");
                            assert("/"@ =~= seq!['/']);
                            assert(":"@ =~= seq![':']);
                            assert(" "@ =~= seq![' ']);
                            assert(full.take(1).drop_last() =~= full.take(0));
                            assert(full.take(1).last() == name@);
                            assert(spaced(full.take(0)) =~= Seq::<char>::empty());
                            assert(spaced(full.take(1)) =~= spaced(full.take(0)) + seq![' ']
                                + name@);
                            assert(out@ =~= h2 + spaced(full.take(1)));
                        }
                        let mut k: usize = 0;
                        while k < cdeps.len()
                            invariant
                                0 <= k <= cdeps.len(),
                                cdv == cdeps.deep_view(),
                                cdv.len() == cdeps.len(),
                                full == seq![name@] + cdv.map_values(
                                    |d: Seq<char>| child_dep(d, name@, prefix@),
                                ),
                                full.len() == 1 + cdv.len(),
                                out@ == h2 + spaced(full.take(1 + k as int)),
                            decreases cdeps.len() - k,
                        {
                            proof {
                                assert(full.take(1 + k + 1).drop_last() =~= full.take(1 + k as int));
                                assert(full.take(1 + k + 1).last() == full[1 + k as int]);
                                assert(full[1 + k as int] == child_dep(
                                    cdv[k as int],
                                    name@,
                                    prefix@,
                                ));
                            }
                            let ghost out1 = out@;
                            out.append(" ");
                            let d = cdeps[k];
                            if starts_with_slash(d) {
                                if prefix.is_empty() {
                                    let dn = d.unicode_len();
                                    out.append(d.substring_char(1, dn));
                                    proof {
                                        assert(d@.subrange(1, d@.len() as int) =~= d@.drop_first());
                                    }
                                } else {
                                    out.append(d);
                                }
                            } else {
                                out.append(name);
                                out.append("/");
                                out.append(d);
                            }
                            proof {
                                reveal_strlit(" ");
                                reveal_strlit("/");
                                assert(" "@ =~= seq![' ']);
                                assert("/"@ =~= seq!['/']);
                                assert(out@ =~= out1 + seq![' '] + child_dep(
                                    cdv[k as int],
                                    name@,
                                    prefix@,
                                ));
                                assert(out@ =~= h2 + spaced(full.take(1 + k + 1)));
                            }
                            k = k + 1;
                        }
                        proof {
                            assert(full.take(full.len() as int) =~= full);
                        }
                        out.append("\n");
                        out.append(body);
                        proof {
                            reveal_strlit("\n");
                            assert("\n"@ =~= seq!['\n']);
                            assert(out@ =~= out0 + group_node_text(
                                ndv[idx as int],
                                name@,
                                gind@,
                                gdeps,
                                prefix@,
                            ));
                        }
                    },
                }
                proof {
                    assert(out@ =~= head + emit_group(
                        ndv.take(idx + 1),
                        name@,
                        gind@,
                        gdeps,
                        prefix@,
                    ));
                }
                idx = idx + 1;
            }
            proof {
                assert(ndv.take(ndv.len() as int) =~= ndv);
            }
            if gce < n {
                out.append("\n");
                let tail = desugar_groups(content.substring_char(gce, n), prefix);
                out.append(tail.as_str());
                proof {
                    reveal_strlit("\n");
                    assert("\n"@ =~= seq!['\n']);
                    assert(out@ =~= desugar_groups_spec(t, prefix@));
                }
                out
            } else {
                proof {
                    assert(out@ =~= desugar_groups_spec(t, prefix@));
                }
                out
            }
        },
    }
}

/// Rewrites every nested group of `content` into flat, prefix-qualified
/// segments.
pub fn desugar(content: &str) -> (r: String)
    ensures
        r@ == desugar_groups_spec(content@, Seq::empty()),
{
    proof {
        reveal_strlit("");
        assert(""@ =~= Seq::<char>::empty());
    }
    desugar_groups(content, "")
}

} // verus!
