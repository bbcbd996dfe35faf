//! Character classes and first-occurrence searches used by the scanner and
//! the desugarers.

use vstd::prelude::*;

verus! {

// What the Unicode tables say about characters above ASCII is not restated
// here: those classes keep their meaning through uninterpreted functions,
// while the ASCII range is pinned down exactly.

pub uninterp spec fn whitespace_above_ascii(c: char) -> bool;

pub uninterp spec fn alphabetic_above_ascii(c: char) -> bool;

pub uninterp spec fn numeric_above_ascii(c: char) -> bool;

/// The White_Space property. Within ASCII that is space, tab, line feed,
/// vertical tab, form feed and carriage return.
pub open spec fn is_whitespace_char(c: char) -> bool {
    if (c as u32) < 128 {
        c == ' ' || c == '\t' || c == '\n' || c == '\u{b}' || c == '\u{c}' || c == '\r'
    } else {
        whitespace_above_ascii(c)
    }
}

/// The Alphabetic property. Within ASCII that is exactly the letters.
pub open spec fn is_alphabetic_char(c: char) -> bool {
    if (c as u32) < 128 {
        ('a' as u32 <= c as u32 && c as u32 <= 'z' as u32) || ('A' as u32 <= c as u32
            && c as u32 <= 'Z' as u32)
    } else {
        alphabetic_above_ascii(c)
    }
}

/// The Numeric property. Within ASCII that is exactly the decimal digits.
pub open spec fn is_numeric_char(c: char) -> bool {
    if (c as u32) < 128 {
        '0' as u32 <= c as u32 && c as u32 <= '9' as u32
    } else {
        numeric_above_ascii(c)
    }
}

/// Alphanumeric means alphabetic or numeric.
pub open spec fn is_alphanumeric_char(c: char) -> bool {
    is_alphabetic_char(c) || is_numeric_char(c)
}

/// Relies on char::is_whitespace: true exactly for characters with the
/// White_Space property, whose ASCII part is listed in is_whitespace_char.
pub assume_specification[ char::is_whitespace ](c: char) -> (r: bool)
    ensures
        r == is_whitespace_char(c),
        (c as u32) >= 128 ==> r == whitespace_above_ascii(c),
;

/// Relies on char::is_alphabetic: true exactly for characters with the
/// Alphabetic property, whose ASCII part is the letters.
pub assume_specification[ char::is_alphabetic ](c: char) -> (r: bool)
    ensures
        r == is_alphabetic_char(c),
        (c as u32) >= 128 ==> r == alphabetic_above_ascii(c),
;

/// Relies on char::is_alphanumeric, documented as is_alphabetic or
/// is_numeric; the ASCII parts of both properties are pinned down above.
pub assume_specification[ char::is_alphanumeric ](c: char) -> (r: bool)
    ensures
        r == is_alphanumeric_char(c),
        (c as u32) >= 128 ==> r == (alphabetic_above_ascii(c) || numeric_above_ascii(c)),
;

/// The glob metacharacters. `-` is deliberately absent even though ranges
/// use it, so that names containing `-` are not taken for patterns.
pub open spec fn is_glob_meta(c: char) -> bool {
    c == '*' || c == '!' || c == '?' || c == '[' || c == ']'
}

/// The symbols allowed in segment names besides alphanumerics and glob
/// metacharacters.
pub open spec fn is_allowed_symbol(c: char) -> bool {
    c == '/' || c == '_' || c == '-' || c == '.'
}

/// A character that may appear in a segment name.
pub open spec fn is_name_char(c: char) -> bool {
    is_alphanumeric_char(c) || is_allowed_symbol(c) || is_glob_meta(c)
}

/// Some character of `t` is a glob metacharacter.
pub open spec fn has_glob_meta(t: Seq<char>) -> bool {
    exists|i: int| 0 <= i < t.len() && is_glob_meta(t[i])
}

/// Index of the first newline at or after `p`, if any.
pub open spec fn find_nl(t: Seq<char>, p: int) -> Option<int>
    decreases t.len() - p,
{
    if p < 0 || p >= t.len() {
        None
    } else if t[p] == '\n' {
        Some(p)
    } else {
        find_nl(t, p + 1)
    }
}

/// Index of the first non-whitespace character at or after `p`, if any.
pub open spec fn find_nonws(t: Seq<char>, p: int) -> Option<int>
    decreases t.len() - p,
{
    if p < 0 || p >= t.len() {
        None
    } else if !is_whitespace_char(t[p]) {
        Some(p)
    } else {
        find_nonws(t, p + 1)
    }
}

pub proof fn lemma_find_nl(t: Seq<char>, p: int)
    requires
        0 <= p,
    ensures
        match find_nl(t, p) {
            Some(i) => p <= i < t.len() && t[i] == '\n' && forall|k: int|
                p <= k < i ==> t[k] != '\n',
            None => forall|k: int| p <= k < t.len() ==> t[k] != '\n',
        },
    decreases t.len() - p,
{
    if p < t.len() && t[p] != '\n' {
        lemma_find_nl(t, p + 1);
    }
}

pub proof fn lemma_find_nonws(t: Seq<char>, p: int)
    requires
        0 <= p,
    ensures
        match find_nonws(t, p) {
            Some(i) => p <= i < t.len() && !is_whitespace_char(t[i]) && forall|k: int|
                p <= k < i ==> is_whitespace_char(t[k]),
            None => forall|k: int| p <= k < t.len() ==> is_whitespace_char(t[k]),
        },
    decreases t.len() - p,
{
    if p < t.len() && is_whitespace_char(t[p]) {
        lemma_find_nonws(t, p + 1);
    }
}

/// Whether `c` is a newline.
pub fn is_new_line(c: char) -> (r: bool)
    ensures
        r == (c == '\n'),
{
    c == '\n'
}

/// Whether `c` is not whitespace.
pub fn is_not_whitespace(c: char) -> (r: bool)
    ensures
        r == !is_whitespace_char(c),
{
    !c.is_whitespace()
}

/// Position of the first newline of `content`, if any.
pub fn find_new_line_index(content: &str) -> (r: Option<usize>)
    ensures
        match r {
            Some(i) => find_nl(content@, 0) == Some(i as int),
            None => find_nl(content@, 0) is None,
        },
{
    let n = content.unicode_len();
    let mut i: usize = 0;
    while i < n
        invariant
            0 <= i <= n,
            n == content@.len(),
            find_nl(content@, 0) == find_nl(content@, i as int),
        decreases n - i,
    {
        if content.get_char(i) == '\n' {
            return Some(i);
        }
        i = i + 1;
    }
    None
}

/// Position and value of the first non-whitespace character of `content`,
/// if any.
pub fn find_not_whitespace(content: &str) -> (r: Option<(usize, char)>)
    ensures
        match r {
            Some(p) => find_nonws(content@, 0) == Some(p.0 as int) && p.1 == content@[p.0 as int],
            None => find_nonws(content@, 0) is None,
        },
{
    let n = content.unicode_len();
    let mut i: usize = 0;
    while i < n
        invariant
            0 <= i <= n,
            n == content@.len(),
            find_nonws(content@, 0) == find_nonws(content@, i as int),
        decreases n - i,
    {
        let c = content.get_char(i);
        if !c.is_whitespace() {
            return Some((i, c));
        }
        i = i + 1;
    }
    None
}

/// Position of the first newline of `content` at or after `from`, if any.
pub fn find_nl_at(content: &str, from: usize) -> (r: Option<usize>)
    ensures
        match r {
            Some(i) => find_nl(content@, from as int) == Some(i as int) && from <= i,
            None => find_nl(content@, from as int) is None,
        },
{
    let n = content.unicode_len();
    if from >= n {
        return None;
    }
    let mut i: usize = from;
    while i < n
        invariant
            from <= i <= n,
            n == content@.len(),
            find_nl(content@, from as int) == find_nl(content@, i as int),
        decreases n - i,
    {
        if content.get_char(i) == '\n' {
            return Some(i);
        }
        i = i + 1;
    }
    None
}

/// Position of the first non-whitespace character of `content` at or after
/// `from`, if any.
pub fn find_nonws_at(content: &str, from: usize) -> (r: Option<usize>)
    ensures
        match r {
            Some(i) => find_nonws(content@, from as int) == Some(i as int) && from <= i < content@.len(),
            None => find_nonws(content@, from as int) is None,
        },
{
    let n = content.unicode_len();
    if from >= n {
        return None;
    }
    let mut i: usize = from;
    while i < n
        invariant
            from <= i <= n,
            n == content@.len(),
            find_nonws(content@, from as int) == find_nonws(content@, i as int),
        decreases n - i,
    {
        let c = content.get_char(i);
        if !c.is_whitespace() {
            return Some(i);
        }
        i = i + 1;
    }
    None
}

/// Whether any character of `content` is a glob metacharacter.
pub fn contains_glob_pattern_symbols(content: &str) -> (r: bool)
    ensures
        r == has_glob_meta(content@),
{
    let n = content.unicode_len();
    let mut i: usize = 0;
    while i < n
        invariant
            0 <= i <= n,
            n == content@.len(),
            forall|k: int| 0 <= k < i ==> !is_glob_meta(content@[k]),
        decreases n - i,
    {
        let c = content.get_char(i);
        if c == '*' || c == '!' || c == '?' || c == '[' || c == ']' {
            return true;
        }
        i = i + 1;
    }
    false
}

/// Whether two string slices hold the same characters.
pub fn str_eq(a: &str, b: &str) -> (r: bool)
    ensures
        r == (a@ == b@),
{
    let n = a.unicode_len();
    let m = b.unicode_len();
    if n != m {
        proof {
            assert(a@ != b@);
        }
        return false;
    }
    let mut i: usize = 0;
    while i < n
        invariant
            0 <= i <= n,
            n == a@.len(),
            n == b@.len(),
            forall|k: int| 0 <= k < i ==> a@[k] == b@[k],
        decreases n - i,
    {
        if a.get_char(i) != b.get_char(i) {
            proof {
                assert(a@[i as int] != b@[i as int]);
            }
            return false;
        }
        i = i + 1;
    }
    proof {
        assert(a@ =~= b@);
    }
    true
}

/// Whether `c` may appear in a segment name.
pub fn is_valid_segment_name_char(c: char) -> (r: bool)
    ensures
        r == is_name_char(c),
{
    c.is_alphanumeric() || c == '/' || c == '_' || c == '-' || c == '.' || c == '*' || c == '!'
        || c == '?' || c == '[' || c == ']'
}

} // verus!
