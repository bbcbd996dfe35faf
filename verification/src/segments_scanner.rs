//! A single forward pass over the input text that emits free content and
//! segments as a stream of nodes.
//!
//! A segment header starts only at column zero: an alphabetic character,
//! then segment-name characters, then a colon; the rest of the header line
//! holds the dependency tokens. A line that is not a header is skipped as
//! free content. After a header, the common whitespace prefix of the next
//! non-whitespace character determines the body's indentation, and the body
//! extends over every following line that starts with that prefix.

use vstd::prelude::*;

use crate::chars::find_nl;
use crate::chars::find_nonws;
use crate::chars::is_alphabetic_char;
use crate::chars::is_name_char;
use crate::chars::lemma_find_nl;
use crate::chars::lemma_find_nonws;
use crate::dependencies_collector::deps_consumed;
use crate::dependencies_collector::deps_of;
use crate::dependencies_collector::DependenciesCollector;
use crate::node::Node;
use crate::node::NodeModel;

verus! {

/// Position of the colon ending a segment name whose characters run from
/// `p`, if the name is made of name characters only.
pub open spec fn scan_name(t: Seq<char>, p: int) -> Option<int>
    decreases t.len() - p,
{
    if p < 0 || p >= t.len() {
        None
    } else if t[p] == ':' {
        Some(p)
    } else if is_name_char(t[p]) {
        scan_name(t, p + 1)
    } else {
        None
    }
}

/// Position of the colon of a segment header starting at `p`, if `p` starts
/// one: an alphabetic character followed by name characters up to a colon.
pub open spec fn header_colon(t: Seq<char>, p: int) -> Option<int> {
    if 0 <= p < t.len() && is_alphabetic_char(t[p]) {
        scan_name(t, p + 1)
    } else {
        None
    }
}

/// Position just past the newline that ends the line holding `p`; one past
/// the end of the text when no newline follows.
pub open spec fn line_end(t: Seq<char>, p: int) -> int {
    match find_nl(t, p) {
        Some(i) => i + 1,
        None => t.len() as int + 1,
    }
}

/// Whether `ind` occurs in `t` starting at position `p`.
pub open spec fn starts_with_at(t: Seq<char>, p: int, ind: Seq<char>) -> bool {
    0 <= p && p + ind.len() <= t.len() && t.subrange(p, p + ind.len()) == ind
}

pub proof fn lemma_line_end(t: Seq<char>, p: int)
    requires
        0 <= p <= t.len(),
    ensures
        p < line_end(t, p) <= t.len() + 1,
{
    lemma_find_nl(t, p);
}

/// End of a body that may still be extended from line start `r`: the first
/// line start that does not begin with `ind`.
pub open spec fn body_end(t: Seq<char>, ind: Seq<char>, r: int) -> int
    decreases t.len() + 1 - r,
    via body_end_decreases
{
    if r < 0 || r > t.len() {
        r
    } else if !starts_with_at(t, r, ind) {
        r
    } else {
        body_end(t, ind, line_end(t, r))
    }
}

#[via_fn]
proof fn body_end_decreases(t: Seq<char>, ind: Seq<char>, r: int) {
    if 0 <= r <= t.len() && starts_with_at(t, r, ind) {
        lemma_line_end(t, r);
    }
}

pub proof fn lemma_body_end(t: Seq<char>, ind: Seq<char>, r: int)
    requires
        0 <= r <= t.len() + 1,
    ensures
        r <= body_end(t, ind, r) <= t.len() + 1,
    decreases t.len() + 1 - r,
{
    if 0 <= r <= t.len() && starts_with_at(t, r, ind) {
        lemma_line_end(t, r);
        lemma_body_end(t, ind, line_end(t, r));
    }
}

pub proof fn lemma_scan_name(t: Seq<char>, p: int)
    requires
        0 <= p,
    ensures
        match scan_name(t, p) {
            Some(c) => p <= c < t.len() && t[c] == ':' && forall|k: int|
                p <= k < c ==> is_name_char(t[k]),
            None => true,
        },
    decreases t.len() - p,
{
    if 0 <= p < t.len() && t[p] != ':' && is_name_char(t[p]) {
        lemma_scan_name(t, p + 1);
    }
}

pub proof fn lemma_header_colon(t: Seq<char>, p: int)
    requires
        0 <= p,
    ensures
        match header_colon(t, p) {
            Some(c) => p < c < t.len() && t[c] == ':' && is_alphabetic_char(t[p]) && forall|k: int|
                p < k < c ==> is_name_char(t[k]),
            None => true,
        },
{
    if 0 <= p < t.len() && is_alphabetic_char(t[p]) {
        lemma_scan_name(t, p + 1);
        if header_colon(t, p) is Some {
            let c = header_colon(t, p)->Some_0;
            assert(t[c] == ':');
            assert(!is_name_char(':'));
        }
    }
}

pub proof fn lemma_deps_consumed(t: Seq<char>)
    ensures
        1 <= deps_consumed(t) <= t.len() + 1,
{
    lemma_find_nl(t, 0);
}

/// The nodes still to come while scanning for a header at line start `p`,
/// with free content pending since `cs`.
pub open spec fn scan_at(t: Seq<char>, cs: int, p: int) -> Seq<NodeModel>
    decreases t.len() + 1 - p, 0int,
    via scan_at_decreases
{
    if p < 0 || p > t.len() {
        Seq::empty()
    } else {
        match header_colon(t, p) {
            None => {
                let q = line_end(t, p);
                if q > t.len() {
                    seq![NodeModel::Content { text: t.subrange(cs, t.len() as int) }]
                } else {
                    scan_at(t, cs, q)
                }
            },
            Some(colon) => {
                let name = t.subrange(p, colon);
                let rest = t.subrange(colon + 1, t.len() as int);
                let q = colon + 1 + deps_consumed(rest);
                let tail = scan_seg(t, name, deps_of(rest), q);
                if p > cs {
                    seq![NodeModel::Content { text: t.subrange(cs, p) }] + tail
                } else {
                    tail
                }
            },
        }
    }
}

/// The nodes still to come for a segment whose header has been consumed:
/// the segment itself, with whatever body begins at `q`, then the rest of
/// the document.
pub open spec fn scan_seg(t: Seq<char>, name: Seq<char>, deps: Seq<Seq<char>>, q: int) -> Seq<
    NodeModel,
>
    decreases t.len() + 1 - q, 1int,
    via scan_seg_decreases
{
    if q < 0 || q > t.len() {
        seq![empty_segment(name, deps)]
    } else {
        match find_nonws(t, q) {
            None => seq![empty_segment(name, deps)],
            Some(i) => {
                if i == q {
                    seq![empty_segment(name, deps)] + scan_at(t, q, q)
                } else {
                    let ind = t.subrange(q, i);
                    let e = body_end(t, ind, line_end(t, i));
                    let body = t.subrange(
                        q,
                        if e > t.len() {
                            t.len() as int
                        } else {
                            e
                        },
                    );
                    seq![
                        NodeModel::Segment { name, dependencies: deps, indentation: ind, body },
                    ] + scan_at(t, e, e)
                }
            },
        }
    }
}

/// A segment with no body and no indentation.
pub open spec fn empty_segment(name: Seq<char>, deps: Seq<Seq<char>>) -> NodeModel {
    NodeModel::Segment {
        name,
        dependencies: deps,
        indentation: Seq::empty(),
        body: Seq::empty(),
    }
}

#[via_fn]
proof fn scan_at_decreases(t: Seq<char>, cs: int, p: int) {
    if 0 <= p <= t.len() {
        match header_colon(t, p) {
            None => {
                lemma_line_end(t, p);
            },
            Some(colon) => {
                lemma_header_colon(t, p);
                lemma_deps_consumed(t.subrange(colon + 1, t.len() as int));
            },
        }
    }
}

#[via_fn]
proof fn scan_seg_decreases(t: Seq<char>, name: Seq<char>, deps: Seq<Seq<char>>, q: int) {
    if 0 <= q <= t.len() {
        match find_nonws(t, q) {
            None => {},
            Some(i) => {
                lemma_find_nonws(t, q);
                if i != q {
                    lemma_line_end(t, i);
                    lemma_body_end(t, t.subrange(q, i), line_end(t, i));
                }
            },
        }
    }
}

/// The node stream of a whole text.
pub open spec fn scan_spec(t: Seq<char>) -> Seq<NodeModel> {
    scan_at(t, 0, 0)
}

/// The scanner's control state.
#[derive(Debug, PartialEq, Eq, Structural)]
pub enum StateKind {
    SegmentNotDefined,
    SegmentStarts,
    SegmentContinued,
}

/// What the scanner knows about the segment in flight. While no header has
/// been recognised, `content_start_position` is where the pending free
/// content starts; after a header it is where the body starts.
pub struct ScannerState<'a> {
    pub kind: StateKind,
    pub segment: &'a str,
    pub dependencies: Vec<&'a str>,
    pub content_start_position: usize,
}

/// The scanner: one immutable input text and a forward cursor. When
/// `finished` holds, the cursor rests at the end of the text and the
/// virtual sentinel past it has been consumed.
pub struct SegmentsScanner<'a> {
    pub content: &'a str,
    pub cursor: usize,
    pub finished: bool,
    pub state: ScannerState<'a>,
    pub segment_indentation: &'a str,
}

impl<'a> SegmentsScanner<'a> {
    pub open spec fn text(self) -> Seq<char> {
        self.content@
    }

    /// The scanner's abstract position: one past the end once finished.
    pub open spec fn pos(self) -> int {
        if self.finished {
            self.content@.len() as int + 1
        } else {
            self.cursor as int
        }
    }

    /// The states the scanner passes between two emitted nodes.
    pub open spec fn wf(self) -> bool {
        &&& !self.finished ==> self.cursor <= self.content@.len()
        &&& self.finished ==> self.cursor == self.content@.len()
        &&& match self.state.kind {
            StateKind::SegmentNotDefined => self.state.content_start_position as int <= self.pos()
                && self.state.content_start_position <= self.content@.len(),
            StateKind::SegmentStarts => self.state.content_start_position == self.cursor,
            StateKind::SegmentContinued => false,
        }
    }

    /// The nodes the scanner has yet to emit.
    pub open spec fn remaining(self) -> Seq<NodeModel> {
        match self.state.kind {
            StateKind::SegmentNotDefined => if self.finished {
                Seq::empty()
            } else {
                scan_at(self.text(), self.state.content_start_position as int, self.cursor as int)
            },
            StateKind::SegmentStarts => scan_seg(
                self.text(),
                self.state.segment@,
                self.state.dependencies.deep_view(),
                self.pos(),
            ),
            StateKind::SegmentContinued => Seq::empty(),
        }
    }

    pub fn new(content: &'a str) -> (r: Self)
        ensures
            r.wf(),
            r.content == content,
            r.cursor == 0,
            !r.finished,
            r.state.kind is SegmentNotDefined,
            r.remaining() == scan_spec(content@),
    {
        Self {
            content,
            cursor: 0,
            finished: false,
            state: ScannerState {
                kind: StateKind::SegmentNotDefined,
                segment: "",
                dependencies: Vec::new(),
                content_start_position: 0,
            },
            segment_indentation: "",
        }
    }

    /// Whether the scanner has consumed the whole text and its sentinel.
    pub fn done(&self) -> (r: bool)
        ensures
            r == self.finished,
    {
        self.finished
    }

    /// Position of the colon of a segment header starting at `p`, if one
    /// starts there.
    fn try_header(&self, p: usize) -> (r: Option<usize>)
        requires
            p <= self.content@.len(),
        ensures
            match r {
                Some(c) => header_colon(self.content@, p as int) == Some(c as int),
                None => header_colon(self.content@, p as int) is None,
            },
    {
        let ghost t = self.content@;
        let n = self.content.unicode_len();
        if p >= n {
            return None;
        }
        let c0 = self.content.get_char(p);
        if !c0.is_alphabetic() {
            return None;
        }
        let mut i: usize = p + 1;
        while i < n
            invariant
                p + 1 <= i <= n,
                p < n == t.len(),
                t == self.content@,
                is_alphabetic_char(t[p as int]),
                scan_name(t, p as int + 1) == scan_name(t, i as int),
            decreases n - i,
        {
            let c = self.content.get_char(i);
            if c == ':' {
                return Some(i);
            }
            if !crate::chars::is_valid_segment_name_char(c) {
                return None;
            }
            i = i + 1;
        }
        None
    }

    /// Consumes the dependency tokens of the header line the cursor stands
    /// in, advancing the cursor past the line's newline (or past the end of
    /// the text and its sentinel).
    pub fn dependencies(&mut self) -> (r: Vec<&'a str>)
        requires
            old(self).wf(),
            !old(self).finished,
            old(self).state.kind is SegmentNotDefined,
            old(self).content@.len() - old(self).cursor < usize::MAX,
        ensures
            final(self).wf(),
            final(self).content == old(self).content,
            final(self).state == old(self).state,
            final(self).segment_indentation == old(self).segment_indentation,
            r.deep_view() == deps_of(
                old(self).text().subrange(old(self).cursor as int, old(self).text().len() as int),
            ),
            final(self).pos() == old(self).cursor + deps_consumed(
                old(self).text().subrange(old(self).cursor as int, old(self).text().len() as int),
            ),
    {
        let n = self.content.unicode_len();
        let rest = self.content.substring_char(self.cursor, n);
        proof {
            lemma_deps_consumed(rest@);
        }
        let mut collector = DependenciesCollector::new(rest);
        let (consumed, deps) = collector.collect();
        if consumed > n - self.cursor {
            self.cursor = n;
            self.finished = true;
        } else {
            self.cursor = self.cursor + consumed;
        }
        deps
    }

    /// Tries to recognise a segment header at the cursor. On success the
    /// header line is consumed, the scanner remembers the segment's name and
    /// dependencies, and the body may follow; otherwise the cursor skips the
    /// current line.
    pub fn start_segment(&mut self) -> (r: bool)
        requires
            old(self).wf(),
            !old(self).finished,
            old(self).state.kind is SegmentNotDefined,
        ensures
            final(self).wf(),
            final(self).content == old(self).content,
            final(self).segment_indentation == old(self).segment_indentation,
            match header_colon(old(self).text(), old(self).cursor as int) {
                Some(colon) => {
                    &&& r == true
                    &&& final(self).state.kind is SegmentStarts
                    &&& final(self).state.segment@ == old(self).text().subrange(
                        old(self).cursor as int,
                        colon,
                    )
                    &&& final(self).state.dependencies.deep_view() == deps_of(
                        old(self).text().subrange(colon + 1, old(self).text().len() as int),
                    )
                    &&& final(self).pos() == colon + 1 + deps_consumed(
                        old(self).text().subrange(colon + 1, old(self).text().len() as int),
                    )
                },
                None => {
                    &&& r == false
                    &&& final(self).state.kind is SegmentNotDefined
                    &&& final(self).state.content_start_position == old(
                        self,
                    ).state.content_start_position
                    &&& final(self).pos() == line_end(old(self).text(), old(self).cursor as int)
                },
            },
    {
        let ghost t = self.content@;
        let p = self.cursor;
        let n = self.content.unicode_len();
        match self.try_header(p) {
            Some(colon) => {
                proof {
                    lemma_header_colon(t, p as int);
                }
                let name = self.content.substring_char(p, colon);
                self.cursor = colon + 1;
                let deps = self.dependencies();
                let body_start = self.cursor;
                self.state = ScannerState {
                    kind: StateKind::SegmentStarts,
                    segment: name,
                    dependencies: deps,
                    content_start_position: body_start,
                };
                true
            },
            None => {
                match crate::chars::find_nl_at(self.content, p) {
                    Some(i) => {
                        proof {
                            lemma_find_nl(t, p as int);
                        }
                        self.cursor = i + 1;
                    },
                    None => {
                        self.cursor = n;
                        self.finished = true;
                    },
                }
                false
            },
        }
    }

    /// Looks for the segment's body: skips whitespace, adopts everything
    /// before the first non-whitespace character as the body's indentation,
    /// and consumes that first body line. Without indented content the
    /// segment stays empty and the cursor does not move.
    pub fn continue_segment(&mut self) -> (r: bool)
        requires
            !old(self).finished,
            old(self).cursor <= old(self).content@.len(),
        ensures
            final(self).content == old(self).content,
            final(self).state.segment == old(self).state.segment,
            final(self).state.dependencies == old(self).state.dependencies,
            final(self).state.content_start_position == old(self).state.content_start_position,
            final(self).finished ==> final(self).cursor == final(self).content@.len(),
            !final(self).finished ==> final(self).cursor <= final(self).content@.len(),
            old(self).cursor <= final(self).cursor,
            match find_nonws(old(self).text(), old(self).cursor as int) {
                None => {
                    &&& r == false
                    &&& final(self).state.kind == old(self).state.kind
                    &&& final(self).segment_indentation == old(self).segment_indentation
                    &&& final(self).pos() == old(self).text().len() + 1
                },
                Some(i) => if i == old(self).cursor {
                    &&& r == false
                    &&& *final(self) == *old(self)
                } else {
                    &&& r == true
                    &&& final(self).state.kind is SegmentContinued
                    &&& final(self).segment_indentation@ == old(self).text().subrange(
                        old(self).cursor as int,
                        i,
                    )
                    &&& final(self).pos() == line_end(old(self).text(), i)
                },
            },
    {
        let ghost t = self.content@;
        let n = self.content.unicode_len();
        match crate::chars::find_nonws_at(self.content, self.cursor) {
            None => {
                self.cursor = n;
                self.finished = true;
                false
            },
            Some(i) => {
                if i == self.cursor {
                    return false;
                }
                self.state.kind = StateKind::SegmentContinued;
                self.segment_indentation = self.content.substring_char(self.cursor, i);
                match crate::chars::find_nl_at(self.content, i) {
                    Some(j) => {
                        proof {
                            lemma_find_nl(t, i as int);
                        }
                        self.cursor = j + 1;
                    },
                    None => {
                        self.cursor = n;
                        self.finished = true;
                    },
                }
                true
            },
        }
    }

    /// Extends the body over every following line that starts with the
    /// adopted indentation.
    fn complete_segment(&mut self)
        requires
            !old(self).finished ==> old(self).cursor <= old(self).content@.len(),
            old(self).finished ==> old(self).cursor == old(self).content@.len(),
        ensures
            final(self).content == old(self).content,
            final(self).state == old(self).state,
            final(self).segment_indentation == old(self).segment_indentation,
            final(self).pos() == body_end(
                old(self).text(),
                old(self).segment_indentation@,
                old(self).pos(),
            ),
            final(self).finished ==> final(self).cursor == final(self).content@.len(),
            !final(self).finished ==> final(self).cursor <= final(self).content@.len(),
            old(self).cursor <= final(self).cursor,
    {
        let ghost t = self.content@;
        let ghost ind = self.segment_indentation@;
        let n = self.content.unicode_len();
        while !self.finished
            invariant
                t == self.content@,
                ind == self.segment_indentation@,
                n == t.len(),
                self.state == old(self).state,
                self.segment_indentation == old(self).segment_indentation,
                self.content == old(self).content,
                !self.finished ==> self.cursor <= n,
                self.finished ==> self.cursor == n,
                old(self).cursor <= self.cursor,
                body_end(t, ind, old(self).pos()) == body_end(t, ind, self.pos()),
            decreases n + 1 - self.pos(),
        {
            if !starts_with_at_exec(self.content, self.cursor, self.segment_indentation) {
                proof {
                    assert(body_end(t, ind, self.pos()) == self.pos());
                }
                return ;
            }
            proof {
                lemma_line_end(t, self.cursor as int);
            }
            match crate::chars::find_nl_at(self.content, self.cursor) {
                Some(j) => {
                    proof {
                        lemma_find_nl(t, self.cursor as int);
                    }
                    self.cursor = j + 1;
                },
                None => {
                    self.cursor = n;
                    self.finished = true;
                },
            }
        }
    }

    /// Forgets the finished segment and starts accumulating free content at
    /// `content_start_position`.
    fn finish_segment(&mut self, content_start_position: usize)
        requires
            content_start_position <= old(self).content@.len(),
        ensures
            final(self).content == old(self).content,
            final(self).cursor == old(self).cursor,
            final(self).finished == old(self).finished,
            final(self).segment_indentation == old(self).segment_indentation,
            final(self).state.kind is SegmentNotDefined,
            final(self).state.content_start_position == content_start_position,
    {
        self.state = ScannerState {
            kind: StateKind::SegmentNotDefined,
            segment: "",
            dependencies: Vec::new(),
            content_start_position,
        };
    }

    /// Emits the next node of the stream, if one is left.
    pub fn next(&mut self) -> (r: Option<Node<'a>>)
        requires
            old(self).wf(),
        ensures
            final(self).wf(),
            final(self).content == old(self).content,
            old(self).remaining().len() == 0 ==> r is None && final(self).remaining().len() == 0,
            old(self).remaining().len() > 0 ==> {
                &&& r matches Some(node) && node@ == old(self).remaining()[0]
                &&& final(self).remaining() == old(self).remaining().drop_first()
            },
    {
        let ghost t = self.content@;
        let ghost rem0 = self.remaining();
        let n = self.content.unicode_len();
        if self.finished && self.state.kind == StateKind::SegmentNotDefined {
            return None;
        }
        loop
            invariant
                t == self.content@,
                n == t.len(),
                self.wf(),
                self.content == old(self).content,
                self.remaining() == rem0,
                rem0 == old(self).remaining(),
                self.state.kind is SegmentNotDefined ==> !self.finished,
            decreases n + 1 - self.pos(),
        {
            if self.state.kind == StateKind::SegmentNotDefined {
                let cs = self.state.content_start_position;
                let ic = self.cursor;
                if self.start_segment() {
                    proof {
                        lemma_header_colon(t, ic as int);
                        let colon = header_colon(t, ic as int)->Some_0;
                        lemma_deps_consumed(t.subrange(colon + 1, t.len() as int));
                    }
                    if ic > cs {
                        let piece = self.content.substring_char(cs, ic);
                        proof {
                            assert(rem0 =~= seq![
                                NodeModel::Content { text: t.subrange(cs as int, ic as int) },
                            ] + self.remaining());
                            assert(self.remaining() =~= rem0.drop_first());
                        }
                        return Some(Node::Content(piece));
                    }
                    proof {
                        assert(self.remaining() =~= rem0);
                    }
                } else {
                    proof {
                        lemma_line_end(t, ic as int);
                    }
                    if self.finished {
                        let piece = self.content.substring_char(cs, n);
                        proof {
                            assert(rem0 =~= seq![
                                NodeModel::Content { text: t.subrange(cs as int, n as int) },
                            ]);
                            assert(self.remaining() =~= rem0.drop_first());
                        }
                        return Some(Node::Content(piece));
                    }
                    proof {
                        assert(self.remaining() =~= rem0);
                    }
                }
            } else {
                let name = self.state.segment;
                let body_start = self.state.content_start_position;
                if self.finished {
                    let node = self.emit_empty_segment();
                    proof {
                        assert(rem0 =~= seq![node@]);
                        assert(self.remaining() =~= rem0.drop_first());
                    }
                    return Some(node);
                }
                if !self.continue_segment() {
                    let node = self.emit_empty_segment();
                    proof {
                        assert(rem0 =~= seq![node@] + self.remaining());
                        assert(self.remaining() =~= rem0.drop_first());
                    }
                    return Some(node);
                }
                self.complete_segment();
                let body = self.content.substring_char(body_start, self.cursor);
                let mut deps: Vec<&'a str> = Vec::new();
                core::mem::swap(&mut deps, &mut self.state.dependencies);
                let node = Node::Segment {
                    name,
                    content: body,
                    indentation: self.segment_indentation,
                    dependencies: deps,
                };
                let end = self.cursor;
                self.finish_segment(end);
                proof {
                    assert(rem0 =~= seq![node@] + self.remaining());
                    assert(self.remaining() =~= rem0.drop_first());
                }
                return Some(node);
            }
        }
    }

    /// Emits the segment in flight with an empty body and indentation, and
    /// returns to accumulating free content at the cursor.
    fn emit_empty_segment(&mut self) -> (r: Node<'a>)
        requires
            old(self).state.kind is SegmentStarts,
            old(self).finished ==> old(self).cursor == old(self).content@.len(),
            !old(self).finished ==> old(self).cursor <= old(self).content@.len(),
        ensures
            final(self).wf(),
            final(self).content == old(self).content,
            final(self).cursor == old(self).cursor,
            final(self).finished == old(self).finished,
            final(self).state.kind is SegmentNotDefined,
            final(self).state.content_start_position == old(self).cursor,
            r@ == empty_segment(
                old(self).state.segment@,
                old(self).state.dependencies.deep_view(),
            ),
    {
        let name = self.state.segment;
        let mut deps: Vec<&'a str> = Vec::new();
        core::mem::swap(&mut deps, &mut self.state.dependencies);
        let node = Node::Segment {
            name,
            content: "",
            indentation: "",
            dependencies: deps,
        };
        proof {
            reveal_strlit("");
            assert(""@ =~= Seq::<char>::empty());
        }
        let end = self.cursor;
        self.finish_segment(end);
        node
    }
}

/// Whether `ind` occurs in `content` starting at position `p`.
pub(crate) fn starts_with_at_exec(content: &str, p: usize, ind: &str) -> (r: bool)
    requires
        p <= content@.len(),
    ensures
        r == starts_with_at(content@, p as int, ind@),
{
    let n = content.unicode_len();
    let m = ind.unicode_len();
    if m > n - p {
        return false;
    }
    let mut k: usize = 0;
    while k < m
        invariant
            0 <= k <= m,
            p + m <= n,
            n == content@.len(),
            m == ind@.len(),
            forall|j: int| 0 <= j < k ==> content@[p + j] == ind@[j],
        decreases m - k,
    {
        if content.get_char(p + k) != ind.get_char(k) {
            proof {
                assert(content@.subrange(p as int, p + ind@.len())[k as int] != ind@[k as int]);
            }
            return false;
        }
        k = k + 1;
    }
    proof {
        assert(content@.subrange(p as int, p + ind@.len()) =~= ind@);
    }
    true
}

/// Runs the scanner over a whole text and collects its node stream.
pub fn scan_all<'a>(content: &'a str) -> (r: Vec<Node<'a>>)
    ensures
        r.deep_view() == scan_spec(content@),
{
    let mut scanner = SegmentsScanner::new(content);
    let mut nodes: Vec<Node<'a>> = Vec::new();
    proof {
        assert(nodes.deep_view() + scanner.remaining() =~= scan_spec(content@));
    }
    loop
        invariant_except_break
            scanner.wf(),
            scanner.content == content,
            nodes.deep_view() + scanner.remaining() == scan_spec(content@),
        ensures
            nodes.deep_view() == scan_spec(content@),
        decreases scanner.remaining().len(),
    {
        match scanner.next() {
            Some(node) => {
                nodes.push(node);
                proof {
                    assert(nodes.deep_view() + scanner.remaining() =~= scan_spec(content@));
                }
            },
            None => {
                proof {
                    assert(nodes.deep_view() =~= scan_spec(content@));
                }
                break ;
            },
        }
    }
    nodes
}

} // verus!
