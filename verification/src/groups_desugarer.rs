//! An earlier, more limited group rewriter, kept alongside the recursive
//! one: it rewrites headers of empty groups (stripping the trailing slash
//! and root-qualifying their dependencies) but leaves a group with indented
//! content unchanged.

use vstd::prelude::*;

use crate::chars::find_nl;
use crate::chars::find_nonws;
use crate::chars::is_alphabetic_char;
use crate::chars::is_name_char;
use crate::chars::lemma_find_nl;
use crate::dependencies_collector::deps_consumed;
use crate::dependencies_collector::deps_of;
use crate::dependencies_collector::DependenciesCollector;
use crate::groups::remove_indent;
use crate::groups::root_dep;
use vstd::string::StringExecFns;

verus! {

/// Where the next group header starts, validating each line only from
/// offset `level` on: scanning from `i` on the line that began at `base`,
/// with `prev_slash` recording whether the previous character was a `/`.
pub open spec fn level_scan(t: Seq<char>, base: int, i: int, level: int, prev_slash: bool) -> Option<
    (int, int),
>
    decreases t.len() - i,
    via level_scan_decreases
{
    if i < 0 || i >= t.len() || base < 0 || base > i {
        None
    } else if i - base < level {
        level_scan(t, base, i + 1, level, prev_slash)
    } else {
        let c = t[i];
        if i == base && !is_alphabetic_char(c) {
            match find_nl(t, base + 1) {
                None => None,
                Some(j) => level_scan(t, j + 1, j + 1, level, false),
            }
        } else if is_name_char(c) {
            level_scan(t, base, i + 1, level, c == '/')
        } else if c == ':' && i - base >= 2 && prev_slash {
            Some((base, i - base))
        } else {
            match find_nl(t, i) {
                None => None,
                Some(j) => level_scan(t, j + 1, j + 1, level, false),
            }
        }
    }
}

#[via_fn]
proof fn level_scan_decreases(t: Seq<char>, base: int, i: int, level: int, prev_slash: bool) {
    if 0 <= base <= i < t.len() {
        lemma_find_nl(t, base + 1);
        lemma_find_nl(t, i);
    }
}

pub proof fn lemma_level_scan(t: Seq<char>, base: int, i: int, level: int, prev_slash: bool)
    ensures
        match level_scan(t, base, i, level, prev_slash) {
            Some(r) => {
                &&& 0 <= r.0
                &&& r.1 >= 2
                &&& r.0 + r.1 < t.len()
                &&& t[r.0 + r.1] == ':'
            },
            None => true,
        },
    decreases t.len() - i,
{
    if 0 <= base <= i < t.len() {
        if i - base < level {
            lemma_level_scan(t, base, i + 1, level, prev_slash);
        } else {
            let c = t[i];
            if i == base && !is_alphabetic_char(c) {
                lemma_find_nl(t, base + 1);
                match find_nl(t, base + 1) {
                    None => {},
                    Some(j) => {
                        lemma_level_scan(t, j + 1, j + 1, level, false);
                    },
                }
            } else if is_name_char(c) {
                lemma_level_scan(t, base, i + 1, level, c == '/');
            } else if c == ':' && i - base >= 2 && prev_slash {
            } else {
                lemma_find_nl(t, i);
                match find_nl(t, i) {
                    None => {},
                    Some(j) => {
                        lemma_level_scan(t, j + 1, j + 1, level, false);
                    },
                }
            }
        }
    }
}

/// Dependency tokens joined by single spaces.
pub open spec fn joined(deps: Seq<Seq<char>>) -> Seq<char>
    decreases deps.len(),
{
    if deps.len() == 0 {
        Seq::empty()
    } else if deps.len() == 1 {
        deps[0]
    } else {
        joined(deps.drop_last()) + seq![' '] + deps.last()
    }
}

/// The rewritten header of a group found at `start`: everything before it,
/// its name without the trailing slash, then a colon, a space, and its
/// dependencies, root-stripped at level zero.
pub open spec fn level_header(
    t: Seq<char>,
    level: int,
    start: int,
    length: int,
    deps: Seq<Seq<char>>,
) -> Seq<char> {
    let list = if level == 0 {
        joined(deps.map_values(|d: Seq<char>| root_dep(d)))
    } else {
        joined(deps)
    };
    t.subrange(0, start) + t.subrange(start, start + length - 1) + seq![':', ' '] + list
}

/// What this rewriter makes of a document: without a group it removes
/// `level` characters of indentation; an empty group's header is rewritten
/// and the rest desugared in turn; a group with indented content is left
/// unchanged.
pub open spec fn desugar_group_spec(t: Seq<char>, level: int) -> Seq<char>
    decreases t.len(),
    via desugar_group_spec_decreases
{
    match level_scan(t, 0, 0, level, false) {
        None => remove_indent(t, level),
        Some(r) => {
            let start = r.0;
            let length = r.1;
            let deps_start = start + length + 1;
            let rest = t.subrange(deps_start, t.len() as int);
            let gdeps = deps_of(rest);
            let gcs = deps_start + deps_consumed(rest);
            if gcs >= t.len() {
                level_header(t, level, start, length, gdeps)
            } else {
                match find_nonws(t, gcs) {
                    None => level_header(t, level, start, length, gdeps) + seq!['\n']
                        + desugar_group_spec(t.subrange(gcs, t.len() as int), level),
                    Some(_) => t,
                }
            }
        },
    }
}

#[via_fn]
proof fn desugar_group_spec_decreases(t: Seq<char>, level: int) {
    match level_scan(t, 0, 0, level, false) {
        None => {},
        Some(r) => {
            lemma_level_scan(t, 0, 0, level, false);
            lemma_find_nl(t.subrange(r.0 + r.1 + 1, t.len() as int), 0);
        },
    }
}

/// Finds the first group header, validating each line from offset `level`
/// on: the position of its line and the length of its name, trailing slash
/// included.
pub fn find_group_start(content: &str, level: usize) -> (r: Option<(usize, usize)>)
    ensures
        match r {
            Some(pos) => level_scan(content@, 0, 0, level as int, false) == Some(
                (pos.0 as int, pos.1 as int),
            ),
            None => level_scan(content@, 0, 0, level as int, false) is None,
        },
{
    let ghost t = content@;
    let n = content.unicode_len();
    let mut base: usize = 0;
    let mut i: usize = 0;
    let mut prev_slash = false;
    while i < n
        invariant
            0 <= base <= i <= n,
            n == t.len(),
            t == content@,
            level_scan(t, 0, 0, level as int, false) == level_scan(
                t,
                base as int,
                i as int,
                level as int,
                prev_slash,
            ),
        decreases n - i,
    {
        if i - base < level {
            i = i + 1;
            continue ;
        }
        let c = content.get_char(i);
        if i == base && !c.is_alphabetic() {
            match crate::chars::find_nl_at(content, base + 1) {
                None => {
                    return None;
                },
                Some(j) => {
                    proof {
                        lemma_find_nl(t, base as int + 1);
                    }
                    base = j + 1;
                    i = j + 1;
                    prev_slash = false;
                },
            }
        } else if crate::chars::is_valid_segment_name_char(c) {
            prev_slash = c == '/';
            i = i + 1;
        } else if c == ':' && i - base >= 2 && prev_slash {
            return Some((base, i - base));
        } else {
            match crate::chars::find_nl_at(content, i) {
                None => {
                    return None;
                },
                Some(j) => {
                    proof {
                        lemma_find_nl(t, i as int);
                    }
                    base = j + 1;
                    i = j + 1;
                    prev_slash = false;
                },
            }
        }
    }
    None
}

/// The rewritten header of a group: text before it, the name without its
/// trailing slash, a colon and a space, and the dependency list,
/// root-stripped at level zero.
fn build_group_header(
    content: &str,
    level: usize,
    start: usize,
    length: usize,
    deps: &Vec<&str>,
) -> (r: String)
    requires
        2 <= length,
        start + length < content@.len(),
    ensures
        r@ == level_header(content@, level as int, start as int, length as int, deps.deep_view()),
{
    let ghost t = content@;
    let ghost dv = deps.deep_view();
    let n = content.unicode_len();
    let root = level == 0;
    let ghost mapped = if root {
        dv.map_values(|d: Seq<char>| root_dep(d))
    } else {
        dv
    };
    let mut out = String::from_str(content.substring_char(0, start));
    out.append(content.substring_char(start, start + length - 1));
    out.append(": ");
    let ghost head = out@;
    proof {
        reveal_strlit(": ");
        assert(": "@ =~= seq![':', ' ']);
        assert(mapped.take(0) =~= Seq::<Seq<char>>::empty());
        assert(out@ =~= head + joined(mapped.take(0)));
    }
    let mut k: usize = 0;
    while k < deps.len()
        invariant
            0 <= k <= deps.len(),
            dv == deps.deep_view(),
            dv.len() == deps.len(),
            root == (level == 0),
            mapped == (if root {
                dv.map_values(|d: Seq<char>| root_dep(d))
            } else {
                dv
            }),
            mapped.len() == dv.len(),
            out@ == head + joined(mapped.take(k as int)),
        decreases deps.len() - k,
    {
        proof {
            assert(mapped.take(k + 1).drop_last() =~= mapped.take(k as int));
            assert(mapped.take(k + 1).last() == mapped[k as int]);
        }
        let ghost out0 = out@;
        if k > 0 {
            out.append(" ");
        }
        let d = deps[k];
        if root && starts_with_slash(d) {
            let dn = d.unicode_len();
            out.append(d.substring_char(1, dn));
            proof {
                assert(d@.subrange(1, d@.len() as int) =~= d@.drop_first());
            }
        } else {
            out.append(d);
        }
        proof {
            reveal_strlit(" ");
            assert(" "@ =~= seq![' ']);
            if k == 0 {
                assert(joined(mapped.take(1)) =~= mapped[0]);
                assert(out@ =~= head + joined(mapped.take(1)));
            } else {
                assert(joined(mapped.take(k + 1)) =~= joined(mapped.take(k as int)) + seq![' ']
                    + mapped[k as int]);
                assert(out@ =~= out0 + seq![' '] + mapped[k as int]);
                assert(out@ =~= head + joined(mapped.take(k + 1)));
            }
        }
        k = k + 1;
    }
    proof {
        assert(mapped.take(mapped.len() as int) =~= mapped);
    }
    out
}

/// Whether `d` starts with a slash.
fn starts_with_slash(d: &str) -> (r: bool)
    ensures
        r == (d@.len() > 0 && d@[0] == '/'),
{
    if d.is_empty() {
        false
    } else {
        d.get_char(0) == '/'
    }
}

/// One pass of the limited rewriter at the given indentation level.
fn desugar_group(content: &str, level: usize) -> (r: String)
    ensures
        r@ == desugar_group_spec(content@, level as int),
    decreases content@.len(),
{
    let ghost t = content@;
    let n = content.unicode_len();
    let gs = match find_group_start(content, level) {
        None => {
            return crate::groups::remove_parent_indentation(content, level);
        },
        Some(pos) => pos,
    };
    proof {
        lemma_level_scan(t, 0, 0, level as int, false);
    }
    let start = gs.0;
    let length = gs.1;
    let deps_start = start + length + 1;
    let rest = content.substring_char(deps_start, n);
    let ghost restv = rest@;
    let mut collector = DependenciesCollector::new(rest);
    let (consumed, deps) = collector.collect();
    proof {
        lemma_find_nl(restv, 0);
    }
    if consumed >= n - deps_start {
        return build_group_header(content, level, start, length, &deps);
    }
    let gcs = deps_start + consumed;
    match crate::chars::find_nonws_at(content, gcs) {
        None => {
            let mut out = build_group_header(content, level, start, length, &deps);
            out.append("\n");
            let tail = desugar_group(content.substring_char(gcs, n), level);
            out.append(tail.as_str());
            proof {
                reveal_strlit("\n");
                assert("\n"@ =~= seq!['\n']);
                assert(out@ =~= desugar_group_spec(t, level as int));
            }
            out
        },
        Some(_) => content.to_owned(),
    }
}

/// Rewrites empty group headers at the root level; a group with indented
/// content is left as it stands.
pub fn desugar(content: &str) -> (r: String)
    ensures
        r@ == desugar_group_spec(content@, 0),
{
    desugar_group(content, 0)
}

} // verus!
