//! Splits the remainder of a header line into whitespace-separated
//! dependency tokens, reporting how many characters were consumed up to and
//! including the terminating newline (or one past the end of the input,
//! standing for a virtual sentinel, when no newline exists).

use vstd::prelude::*;

use crate::chars::find_nl;
use crate::chars::is_whitespace_char;
use crate::chars::lemma_find_nl;

verus! {

/// End of the token region: the first newline, or the whole text.
pub open spec fn deps_region_end(t: Seq<char>) -> int {
    match find_nl(t, 0) {
        Some(i) => i,
        None => t.len() as int,
    }
}

/// Characters consumed by the collector: the token region and its
/// terminating newline, or the whole text plus a sentinel.
pub open spec fn deps_consumed(t: Seq<char>) -> int {
    deps_region_end(t) + 1
}

/// First position in `[p, e]` that ends a token: `e` itself, or the first
/// whitespace character.
pub open spec fn token_end(t: Seq<char>, p: int, e: int) -> int
    decreases e - p,
{
    if p < 0 || p >= e || e > t.len() {
        e
    } else if is_whitespace_char(t[p]) {
        p
    } else {
        token_end(t, p + 1, e)
    }
}

/// The maximal non-whitespace runs of `t` within `[p, e)`, in order.
pub open spec fn deps_tokens(t: Seq<char>, p: int, e: int) -> Seq<Seq<char>>
    decreases e - p,
    via deps_tokens_decreases
{
    if p < 0 || p >= e || e > t.len() {
        Seq::empty()
    } else if is_whitespace_char(t[p]) {
        deps_tokens(t, p + 1, e)
    } else {
        seq![t.subrange(p, token_end(t, p, e))] + deps_tokens(t, token_end(t, p, e), e)
    }
}

#[via_fn]
proof fn deps_tokens_decreases(t: Seq<char>, p: int, e: int) {
    if 0 <= p < e <= t.len() && !is_whitespace_char(t[p]) {
        lemma_token_end(t, p, e);
    }
}

pub proof fn lemma_token_end(t: Seq<char>, p: int, e: int)
    requires
        0 <= p < e <= t.len(),
        !is_whitespace_char(t[p]),
    ensures
        p < token_end(t, p, e) <= e,
        forall|k: int| p <= k < token_end(t, p, e) ==> !is_whitespace_char(t[k]),
        token_end(t, p, e) < e ==> is_whitespace_char(t[token_end(t, p, e)]),
    decreases e - p,
{
    assert(token_end(t, p, e) == token_end(t, p + 1, e));
    if p + 1 < e && !is_whitespace_char(t[p + 1]) {
        lemma_token_end(t, p + 1, e);
    } else {
        assert(token_end(t, p + 1, e) == if p + 1 < e {
            p + 1
        } else {
            e
        });
    }
}

/// `token_end` is where the non-whitespace run that starts at `p` ends.
proof fn lemma_token_end_at(t: Seq<char>, p: int, i: int, e: int)
    requires
        0 <= p <= i <= e <= t.len(),
        p < i,
        forall|k: int| p <= k < i ==> !is_whitespace_char(t[k]),
        i == e || is_whitespace_char(t[i]),
    ensures
        token_end(t, p, e) == i,
    decreases i - p,
{
    assert(token_end(t, p, e) == token_end(t, p + 1, e));
    if p + 1 < i {
        lemma_token_end_at(t, p + 1, i, e);
    } else {
        assert(token_end(t, p + 1, e) == i);
    }
}

/// The tokens of `t` within `[0, deps_region_end(t))`.
pub open spec fn deps_of(t: Seq<char>) -> Seq<Seq<char>> {
    deps_tokens(t, 0, deps_region_end(t))
}

/// A single-pass tokenizer over one header line.
pub struct DependenciesCollector<'a> {
    content: &'a str,
    word_begin: Option<usize>,
}

impl<'a> DependenciesCollector<'a> {
    /// The text the collector walks.
    pub closed spec fn text(&self) -> Seq<char> {
        self.content@
    }

    /// A collector that has not started a token yet.
    pub closed spec fn fresh(&self) -> bool {
        self.word_begin is None
    }

    pub fn new(content: &'a str) -> (r: Self)
        ensures
            r.text() == content@,
            r.fresh(),
    {
        Self { content, word_begin: None }
    }

    /// Collects the dependency tokens of one header line: the maximal
    /// non-whitespace runs before the first newline, together with the
    /// number of characters consumed, newline included (one more than the
    /// text's length when no newline terminates it).
    pub fn collect(&mut self) -> (r: (usize, Vec<&'a str>))
        requires
            old(self).fresh(),
            old(self).text().len() < usize::MAX,
        ensures
            r.0 == deps_consumed(old(self).text()),
            r.1.deep_view() == deps_of(old(self).text()),
    {
        let ghost t = self.content@;
        let ghost e = deps_region_end(t);
        proof {
            lemma_find_nl(t, 0);
        }
        let n = self.content.unicode_len();
        let mut deps: Vec<&'a str> = Vec::new();
        proof {
            assert(deps.deep_view() + deps_tokens(t, 0, e) =~= deps_tokens(t, 0, e));
        }
        let mut i: usize = 0;
        while i < n
            invariant
                0 <= i <= n,
                n == t.len() < usize::MAX,
                t == self.content@,
                t == old(self).text(),
                e == deps_region_end(t),
                i <= e,
                forall|k: int| 0 <= k < i ==> t[k] != '\n',
                self.word_begin matches Some(w) ==> w < i,
                self.word_begin is None ==> deps_tokens(t, 0, e) == deps.deep_view() + deps_tokens(
                    t,
                    i as int,
                    e,
                ),
                self.word_begin matches Some(w) ==> {
                    &&& forall|k: int| w <= k < i as int ==> !is_whitespace_char(t[k])
                    &&& deps_tokens(t, 0, e) == deps.deep_view() + deps_tokens(t, w as int, e)
                },
            decreases n - i,
        {
            proof {
                lemma_find_nl(t, 0);
            }
            let c = self.content.get_char(i);
            if c == '\n' {
                proof {
                    assert(e == i as int);
                }
                if let Some(wb) = self.word_begin {
                    proof {
                        lemma_token_end_at(t, wb as int, i as int, e);
                        assert(deps_tokens(t, wb as int, e) =~= seq![t.subrange(wb as int, e)]
                            + deps_tokens(t, e, e));
                    }
                    deps.push(self.content.substring_char(wb, i));
                    self.word_begin = None;
                    proof {
                        assert(deps.deep_view() =~= deps_tokens(t, 0, e));
                    }
                } else {
                    proof {
                        assert(deps.deep_view() =~= deps_tokens(t, 0, e));
                    }
                }
                return (i + 1, deps);
            }
            if c.is_whitespace() {
                if let Some(wb) = self.word_begin {
                    proof {
                        lemma_token_end_at(t, wb as int, i as int, e);
                        assert(deps_tokens(t, wb as int, e) =~= seq![t.subrange(wb as int, i as int)]
                            + deps_tokens(t, i as int, e));
                        assert((deps.deep_view() + seq![t.subrange(wb as int, i as int)])
                            + deps_tokens(t, i as int, e) =~= deps.deep_view() + deps_tokens(
                            t,
                            wb as int,
                            e,
                        ));
                    }
                    deps.push(self.content.substring_char(wb, i));
                    self.word_begin = None;
                }
                i = i + 1;
                continue ;
            }
            if self.word_begin.is_none() {
                self.word_begin = Some(i);
            }
            i = i + 1;
        }
        proof {
            lemma_find_nl(t, 0);
            assert(e == n as int);
        }
        if let Some(wb) = self.word_begin {
            proof {
                lemma_token_end_at(t, wb as int, n as int, e);
                assert(deps_tokens(t, wb as int, e) =~= seq![t.subrange(wb as int, n as int)]
                    + deps_tokens(t, n as int, e));
            }
            deps.push(self.content.substring_char(wb, n));
            self.word_begin = None;
            proof {
                assert(deps.deep_view() =~= deps_tokens(t, 0, e));
            }
        } else {
            proof {
                assert(deps.deep_view() =~= deps_tokens(t, 0, e));
            }
        }
        (n + 1, deps)
    }
}

} // verus!
