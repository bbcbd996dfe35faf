//! Selects an output mode from the name of the task file that was found: a
//! file called `Mkfile*` or `mkfile*` whose name carries an `x` between the
//! prefix and the first dot asks for the executor.

use vstd::prelude::*;

use crate::printer::Printer;

verus! {

/// Index of the first `.` at or after `p`, if any.
pub open spec fn find_dot(t: Seq<char>, p: int) -> Option<int>
    decreases t.len() - p,
{
    if p < 0 || p >= t.len() {
        None
    } else if t[p] == '.' {
        Some(p)
    } else {
        find_dot(t, p + 1)
    }
}

/// Whether a path starts with `Mkfile` or `mkfile`.
pub open spec fn has_mkfile_prefix(t: Seq<char>) -> bool {
    t.len() >= 6 && (t[0] == 'M' || t[0] == 'm') && t[1] == 'k' && t[2] == 'f' && t[3] == 'i'
        && t[4] == 'l' && t[5] == 'e'
}

/// The part of the file name between the `Mkfile` prefix and the first dot.
pub open spec fn mkfile_tag(t: Seq<char>) -> Seq<char> {
    let rest = t.skip(6);
    match find_dot(rest, 0) {
        Some(i) => rest.subrange(0, i),
        None => rest,
    }
}

/// Whether the file name asks for the executor: a non-empty tag holding an
/// `x`.
pub open spec fn selects_executor(t: Seq<char>) -> bool {
    has_mkfile_prefix(t) && mkfile_tag(t).len() > 0 && (exists|i: int|
        0 <= i < mkfile_tag(t).len() && mkfile_tag(t)[i] == 'x')
}

/// The configuration drawn from the discovered task files.
pub struct Config {
    pub printer: Printer,
}

impl Config {
    /// A configuration that prints to standard output.
    pub fn new() -> (r: Config)
        ensures
            r.printer == Printer::Stdout,
    {
        Config { printer: Printer::Stdout }
    }

    /// Reads one task-file name: a name like `mkfilex` or `Mkfilex.local`
    /// switches the printer to the executor, anything else changes nothing.
    pub fn parse(&mut self, path: &str)
        ensures
            final(self).printer == (if selects_executor(path@) {
                Printer::Executor
            } else {
                old(self).printer
            }),
    {
        let ghost t = path@;
        let n = path.unicode_len();
        if n < 6 {
            return ;
        }
        let c0 = path.get_char(0);
        if !((c0 == 'M' || c0 == 'm') && path.get_char(1) == 'k' && path.get_char(2) == 'f'
            && path.get_char(3) == 'i' && path.get_char(4) == 'l' && path.get_char(5) == 'e') {
            return ;
        }
        let ghost rest = t.skip(6);
        // end of the tag: the first dot, or the end of the name
        let e = match find_dot_at(path, 6) {
            Some(i) => i,
            None => n,
        };
        proof {
            lemma_find_dot(rest, 0);
            assert forall|j: int| 0 <= j < rest.len() implies rest[j] == t[j + 6] by {}
            if e < n {
                assert(mkfile_tag(t) =~= rest.subrange(0, e - 6));
            } else {
                assert(mkfile_tag(t) =~= rest);
                assert(mkfile_tag(t) =~= rest.subrange(0, e - 6));
            }
        }
        if e == 6 {
            return ;
        }
        let mut k: usize = 6;
        while k < e
            invariant
                6 < e,
                6 <= k <= e <= n,
                n == t.len(),
                t == path@,
                rest == t.skip(6),
                has_mkfile_prefix(t),
                self.printer == old(self).printer,
                mkfile_tag(t) == rest.subrange(0, e - 6),
                forall|j: int| 0 <= j < k - 6 ==> mkfile_tag(t)[j] != 'x',
            decreases e - k,
        {
            if path.get_char(k) == 'x' {
                proof {
                    assert(mkfile_tag(t)[k - 6] == 'x');
                }
                self.printer = Printer::Executor;
                return ;
            }
            proof {
                assert(mkfile_tag(t)[k - 6] == t[k as int]);
            }
            k = k + 1;
        }
        proof {
            assert(!selects_executor(t));
        }
    }
}


/// Position of the first `.` of `path` at or after `from`, if any, where
/// `from` is at least 6.
fn find_dot_at(path: &str, from: usize) -> (r: Option<usize>)
    requires
        from == 6,
        path@.len() >= 6,
    ensures
        ({
            let rest = path@.skip(6);
            match r {
                Some(i) => 6 <= i < path@.len() && find_dot(rest, 0) == Some(i - 6),
                None => find_dot(rest, 0) is None,
            }
        }),
{
    let ghost t = path@;
    let ghost rest = t.skip(6);
    let n = path.unicode_len();
    let mut i: usize = 6;
    while i < n
        invariant
            6 <= i <= n,
            n == t.len(),
            t == path@,
            rest == t.skip(6),
            find_dot(rest, 0) == find_dot(rest, i - 6),
        decreases n - i,
    {
        proof {
            assert(rest[i - 6] == t[i as int]);
        }
        if path.get_char(i) == '.' {
            return Some(i);
        }
        i = i + 1;
    }
    None
}

proof fn lemma_find_dot(t: Seq<char>, p: int)
    requires
        0 <= p,
    ensures
        match find_dot(t, p) {
            Some(i) => p <= i < t.len() && t[i] == '.',
            None => true,
        },
    decreases t.len() - p,
{
    if 0 <= p < t.len() && t[p] != '.' {
        lemma_find_dot(t, p + 1);
    }
}

} // verus!
