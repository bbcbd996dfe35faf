//! The node stream emitted by the scanner: verbatim free content, or a named
//! segment with its dependencies, indentation and body.

use vstd::prelude::*;

use crate::chars::find_nl;

verus! {

/// Mathematical model of a node: the sequences of characters that the
/// borrowed fields of `Node` stand for.
pub enum NodeModel {
    Content { text: Seq<char> },
    Segment {
        name: Seq<char>,
        dependencies: Seq<Seq<char>>,
        indentation: Seq<char>,
        body: Seq<char>,
    },
}

/// A scanner node: a verbatim slice of free content, or a segment whose
/// `content` is the exact input slice covering its indented body lines.
#[derive(Debug, PartialEq)]
pub enum Node<'a> {
    Content(&'a str),
    Segment {
        name: &'a str,
        content: &'a str,
        indentation: &'a str,
        dependencies: Vec<&'a str>,
    },
}

impl<'a> View for Node<'a> {
    type V = NodeModel;

    open spec fn view(&self) -> NodeModel {
        match self {
            Node::Content(text) => NodeModel::Content { text: text@ },
            Node::Segment { name, content, indentation, dependencies } => NodeModel::Segment {
                name: name@,
                dependencies: dependencies.deep_view(),
                indentation: indentation@,
                body: content@,
            },
        }
    }
}

impl<'a> DeepView for Node<'a> {
    type V = NodeModel;

    open spec fn deep_view(&self) -> NodeModel {
        self.view()
    }
}

/// Index of the first `#` at or after `p` on the current line (stopping at a
/// newline), if any.
pub open spec fn find_hash(t: Seq<char>, p: int) -> Option<int>
    decreases t.len() - p,
{
    if p < 0 || p >= t.len() {
        None
    } else if t[p] == '\n' {
        None
    } else if t[p] == '#' {
        Some(p)
    } else {
        find_hash(t, p + 1)
    }
}

/// The description lines of a body: for every line of the leading run of
/// lines that contain `#`, the text after the first `#` of that line.
pub open spec fn description_lines(t: Seq<char>, p: int) -> Seq<Seq<char>>
    decreases t.len() - p,
    via description_lines_decreases
{
    if p < 0 {
        Seq::empty()
    } else {
        match find_hash(t, p) {
            None => Seq::empty(),
            Some(h) => match find_nl(t, h) {
                None => seq![t.subrange(h + 1, t.len() as int)],
                Some(e) => seq![t.subrange(h + 1, e)] + description_lines(t, e + 1),
            },
        }
    }
}

#[via_fn]
proof fn description_lines_decreases(t: Seq<char>, p: int) {
    if p >= 0 {
        match find_hash(t, p) {
            None => {},
            Some(h) => {
                lemma_find_hash_bounds(t, p);
                crate::chars::lemma_find_nl(t, h);
            },
        }
    }
}

proof fn lemma_find_hash_bounds(t: Seq<char>, p: int)
    requires
        0 <= p,
    ensures
        match find_hash(t, p) {
            Some(h) => p <= h < t.len() && t[h] == '#',
            None => true,
        },
    decreases t.len() - p,
{
    if p < t.len() && t[p] != '\n' && t[p] != '#' {
        lemma_find_hash_bounds(t, p + 1);
    }
}

impl<'a> Node<'a> {
    /// The description of a segment: the `#`-prefixed lines at the head of
    /// its body, each with everything up to and including the first `#`
    /// removed. Free content and segments without such lines have none.
    pub fn description(&self) -> (r: Option<Vec<&'a str>>)
        ensures
            (match self {
                Node::Content(_) => r is None,
                Node::Segment { content, .. } => {
                    let ls = description_lines(content@, 0);
                    if ls.len() > 0 {
                        r matches Some(v) && v.deep_view() == ls
                    } else {
                        r is None
                    }
                },
            }),
    {
        match self {
            Node::Content(_) => None,
            Node::Segment { content, .. } => {
                if content.is_empty() {
                    return None;
                }
                let n = content.unicode_len();
                let ghost t = content@;
                let mut lines: Vec<&'a str> = Vec::new();
                let mut p: usize = 0;
                loop
                    invariant_except_break
                        p <= n,
                        n == t.len(),
                        t == content@,
                        description_lines(t, 0) == lines.deep_view() + description_lines(
                            t,
                            p as int,
                        ),
                    ensures
                        lines.deep_view() == description_lines(t, 0),
                    decreases n - p,
                {
                    let h = match find_hash_at(content, p) {
                        None => {
                            proof {
                                assert(description_lines(t, p as int) =~= Seq::empty());
                                assert(lines.deep_view() + Seq::empty() =~= lines.deep_view());
                            }
                            break ;
                        },
                        Some(h) => h,
                    };
                    proof {
                        lemma_find_hash_bounds(t, p as int);
                    }
                    match crate::chars::find_nl_at(content, h) {
                        None => {
                            let tail = content.substring_char(h + 1, n);
                            lines.push(tail);
                            proof {
                                assert(description_lines(t, p as int) =~= seq![
                                    t.subrange(h + 1, n as int),
                                ]);
                                assert(lines.deep_view() =~= description_lines(t, 0));
                            }
                            p = n;
                            break ;
                        },
                        Some(e) => {
                            proof {
                                crate::chars::lemma_find_nl(t, h as int);
                            }
                            let piece = content.substring_char(h + 1, e);
                            lines.push(piece);
                            proof {
                                assert(description_lines(t, p as int) =~= seq![
                                    t.subrange(h + 1, e as int),
                                ] + description_lines(t, e + 1));
                                assert(lines.deep_view() + description_lines(t, e + 1)
                                    =~= description_lines(t, 0));
                            }
                            p = e + 1;
                        },
                    }
                }
                if lines.len() == 0 {
                    return None;
                }
                Some(lines)
            },
        }
    }
}

/// Position of the first `#` of `content` at or after `from` on the current
/// line, if any.
fn find_hash_at(content: &str, from: usize) -> (r: Option<usize>)
    ensures
        match r {
            Some(i) => find_hash(content@, from as int) == Some(i as int) && from <= i < content@.len(),
            None => find_hash(content@, from as int) is None,
        },
{
    let n = content.unicode_len();
    if from >= n {
        return None;
    }
    let mut i: usize = from;
    while i < n
        invariant
            from <= i <= n,
            n == content@.len(),
            find_hash(content@, from as int) == find_hash(content@, i as int),
        decreases n - i,
    {
        let c = content.get_char(i);
        if c == '\n' {
            return None;
        }
        if c == '#' {
            return Some(i);
        }
        i = i + 1;
    }
    None
}

} // verus!
