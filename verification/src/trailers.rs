//! Trailer trimming: cutting a git-style trailer block, such as a
//! `Signed-off-by` line, off the end of a commit message.

use vstd::prelude::*;

use crate::version::is_ident_char;

verus! {

/// The position of the first `:` in `[q, e)`, or `e` when there is none.
pub open spec fn first_colon(s: Seq<char>, q: int, e: int) -> int
    decreases e - q when q <= e
{
    if q >= e {
        e
    } else if s[q] == ':' {
        q
    } else {
        first_colon(s, q + 1, e)
    }
}

/// Whether the line `[q, e)` is a trailer line: a nonempty key of
/// letters, digits and dashes, followed by a colon.
pub open spec fn trailer_line(s: Seq<char>, q: int, e: int) -> bool {
    let c = first_colon(s, q, e);
    &&& q < c < e
    &&& forall|j: int| q <= j < c ==> is_ident_char(#[trigger] s[j])
}

/// Whether a trailer block may start at `p`: the start of the text, or
/// the line right after an empty line.
pub open spec fn block_boundary(s: Seq<char>, p: int) -> bool {
    p == 0 || (p >= 1 && s[p - 1] == '\n' && (p == 1 || s[p - 2] == '\n'))
}

/// The last position where a trailer block may start.
pub open spec fn last_boundary(s: Seq<char>, p: int) -> int
    decreases p when p >= 0
{
    if p <= 0 {
        0
    } else if block_boundary(s, p) {
        p
    } else {
        last_boundary(s, p - 1)
    }
}

/// The position of the first `\n` at or after `q`, bounded by the length.
pub open spec fn next_nl(s: Seq<char>, q: int) -> int
    decreases s.len() - q when 0 <= q <= s.len()
{
    if q >= s.len() {
        s.len() as int
    } else if s[q] == '\n' {
        q
    } else {
        next_nl(s, q + 1)
    }
}

/// Whether every line from `cut` to the end is a trailer line.
pub open spec fn all_trailers(s: Seq<char>, cut: int) -> bool {
    forall|q: int|
        cut <= q < s.len() && (q == cut || s[q - 1] == '\n') ==> #[trigger] trailer_line(
            s,
            q,
            next_nl(s, q),
        )
}

/// The end of the message once a trailing trailer block is removed: the
/// whole text when its last paragraph is not entirely trailer lines.
pub open spec fn trimmed_end(s: Seq<char>) -> int {
    let cut = last_boundary(s, s.len() as int);
    if cut < s.len() && all_trailers(s, cut) {
        cut
    } else {
        s.len() as int
    }
}

proof fn lemma_last_boundary(s: Seq<char>, p: int)
    requires
        0 <= p,
    ensures
        0 <= last_boundary(s, p) <= p,
        block_boundary(s, last_boundary(s, p)),
        forall|q: int| last_boundary(s, p) < q <= p ==> !block_boundary(s, q),
    decreases p,
{
    if p > 0 && !block_boundary(s, p) {
        lemma_last_boundary(s, p - 1);
    }
}

/// Finds the last block boundary at or before `p`.
#[verifier::loop_isolation(false)]
fn find_last_boundary(v: &Vec<char>, p: usize) -> (r: usize)
    requires
        p <= v@.len(),
    ensures
        r as int == last_boundary(v@, p as int),
{
    let mut q = p;
    while q > 0
        invariant
            q <= p <= v@.len(),
            last_boundary(v@, p as int) == last_boundary(v@, q as int),
        decreases q,
    {
        if q == 1 {
            if v[0] == '\n' {
                return 1;
            }
        } else {
            if v[q - 1] == '\n' && v[q - 2] == '\n' {
                return q;
            }
        }
        proof {
            assert(!block_boundary(v@, q as int));
            assert(last_boundary(v@, q as int) == last_boundary(v@, q - 1));
        }
        q = q - 1;
    }
    0
}

/// Finds the first `\n` at or after `q`.
#[verifier::loop_isolation(false)]
pub(crate) fn find_next_nl(v: &Vec<char>, q: usize) -> (r: usize)
    requires
        q <= v@.len(),
    ensures
        r as int == next_nl(v@, q as int),
        q <= r <= v@.len(),
        next_nl(v@, q as int) <= v@.len(),
{
    let mut i = q;
    while i < v.len() && v[i] != '\n'
        invariant
            q <= i <= v@.len(),
            next_nl(v@, q as int) == next_nl(v@, i as int),
        decreases v@.len() - i,
    {
        proof {
            assert(next_nl(v@, i as int) == next_nl(v@, i + 1));
        }
        i = i + 1;
    }
    proof {
        if i < v@.len() {
            assert(next_nl(v@, i as int) == i);
        }
    }
    i
}

/// Whether the line `[q, e)` is a trailer line.
#[verifier::loop_isolation(false)]
fn check_trailer_line(v: &Vec<char>, q: usize, e: usize) -> (r: bool)
    requires
        q <= e <= v@.len(),
    ensures
        r == trailer_line(v@, q as int, e as int),
{
    proof {
        lemma_first_colon(v@, q as int, e as int);
    }
    let mut c = q;
    while c < e && v[c] != ':'
        invariant
            q <= c <= e <= v@.len(),
            first_colon(v@, q as int, e as int) == first_colon(v@, c as int, e as int),
        decreases e - c,
    {
        proof {
            assert(first_colon(v@, c as int, e as int) == first_colon(v@, c + 1, e as int));
        }
        c = c + 1;
    }
    proof {
        if c < e {
            assert(first_colon(v@, c as int, e as int) == c);
        }
    }
    if c == e || c == q {
        return false;
    }
    let mut j = q;
    while j < c
        invariant
            q <= j <= c < e <= v@.len(),
            forall|k: int| q <= k < j ==> is_ident_char(#[trigger] v@[k]),
        decreases c - j,
    {
        let ch = v[j];
        let u = ch as u32;
        let ok = (0x30 <= u && u <= 0x39) || (0x41 <= u && u <= 0x5a) || (0x61 <= u && u <= 0x7a)
            || ch == '-';
        if !ok {
            assert(!is_ident_char(v@[j as int]));
            return false;
        }
        j = j + 1;
    }
    true
}

proof fn lemma_first_colon(s: Seq<char>, q: int, e: int)
    requires
        0 <= q <= e,
    ensures
        q <= first_colon(s, q, e) <= e,
    decreases e - q,
{
    if q < e && s[q] != ':' {
        lemma_first_colon(s, q + 1, e);
    }
}

/// Returns the end of the message once a trailing trailer block is cut
/// off: the start of the last paragraph when all of its lines are
/// trailers, the full length otherwise.
#[verifier::loop_isolation(false)]
pub fn trim_trailers_end(v: &Vec<char>) -> (r: usize)
    ensures
        r as int == trimmed_end(v@),
        r <= v@.len(),
{
    let n = v.len();
    let cut = find_last_boundary(v, n);
    proof {
        lemma_last_boundary(v@, n as int);
    }
    if cut >= n {
        proof {
            assert(trimmed_end(v@) == n as int);
        }
        return n;
    }
    // check every line of the block
    let mut q = cut;
    while q < n
        invariant
            cut <= q <= n,
            n == v@.len(),
            cut as int == last_boundary(v@, n as int),
            cut < n,
            q == cut || v@[q - 1] == '\n',
            forall|p: int|
                cut <= p < q && (p == cut || v@[p - 1] == '\n') ==> #[trigger] trailer_line(
                    v@,
                    p,
                    next_nl(v@, p),
                ),
        decreases n - q,
    {
        let e = find_next_nl(v, q);
        if !check_trailer_line(v, q, e) {
            proof {
                assert(!trailer_line(v@, q as int, next_nl(v@, q as int)));
                assert(!all_trailers(v@, cut as int));
                assert(trimmed_end(v@) == n as int);
            }
            return n;
        }
        proof {
            lemma_next_nl(v@, q as int);
        }
        if e >= n {
            proof {
                assert forall|p: int|
                    cut <= p < n && (p == cut || v@[p - 1] == '\n') implies #[trigger] trailer_line(
                    v@,
                    p,
                    next_nl(v@, p),
                ) by {
                    if p > q {
                        assert(v@[p - 1] == '\n');
                        assert(next_nl(v@, q as int) <= p - 1) by {
                            lemma_next_nl_first(v@, q as int, p - 1);
                        }
                        assert(false);
                    }
                }
                assert(all_trailers(v@, cut as int));
                assert(trimmed_end(v@) == cut as int);
            }
            return cut;
        }
        proof {
            assert(v@[e as int] == '\n');
            assert forall|p: int|
                cut <= p < e + 1 && (p == cut || v@[p - 1] == '\n') implies #[trigger] trailer_line(
                v@,
                p,
                next_nl(v@, p),
            ) by {
                if p > q {
                    assert(v@[p - 1] == '\n');
                    assert(next_nl(v@, q as int) <= p - 1) by {
                        lemma_next_nl_first(v@, q as int, p - 1);
                    }
                    assert(p - 1 >= e);
                }
            }
        }
        q = e + 1;
    }
    // the block ends with a final newline; every line was a trailer
    proof {
        assert(all_trailers(v@, cut as int));
        assert(trimmed_end(v@) == cut as int);
    }
    cut
}

/// No `\n` stands before the first one.
pub(crate) proof fn lemma_next_nl(s: Seq<char>, q: int)
    requires
        0 <= q <= s.len(),
    ensures
        q <= next_nl(s, q) <= s.len(),
        next_nl(s, q) < s.len() ==> s[next_nl(s, q)] == '\n',
        forall|j: int| q <= j < next_nl(s, q) ==> s[j] != '\n',
    decreases s.len() - q,
{
    if q < s.len() && s[q] != '\n' {
        lemma_next_nl(s, q + 1);
    }
}

proof fn lemma_next_nl_first(s: Seq<char>, q: int, j: int)
    requires
        0 <= q <= j < s.len(),
        s[j] == '\n',
    ensures
        next_nl(s, q) <= j,
    decreases j - q,
{
    if q < j && s[q] != '\n' {
        lemma_next_nl_first(s, q + 1, j);
    }
}

} // verus!
