//! Comments on one line: a line comment runs from `//` to the end of the
//! line, a block comment from `/*` to the next `*/`, and a block comment that
//! does not end on its line stays open.

use crate::text::{find_pair_from, flat, lemma_pair_at_or_after, pair_at_or_after};
use vstd::prelude::*;

verus! {

/// `a` stands at `i`, directly before `b`.
pub open spec fn pair_at(s: Seq<char>, i: int, a: char, b: char) -> bool {
    0 <= i && i + 1 < s.len() && s[i] == a && s[i + 1] == b
}

/// Where the block comment that opens at `i` ends: behind the first `*/`
/// that starts behind the opener, if the line holds one.
pub open spec fn comment_end(s: Seq<char>, i: int) -> Option<int> {
    let close = pair_at_or_after(s, '*', '/', i + 2);
    if close < s.len() {
        Some(close + 2)
    } else {
        None
    }
}

/// The code of a line from `i` on, where no comment is open at `i`: what
/// stands outside comments. A line comment and an open block comment take the
/// rest of the line, a closed block comment is passed over.
pub open spec fn code_from(s: Seq<char>, i: int) -> Seq<char>
    decreases s.len() - i,
{
    if i < 0 || i >= s.len() {
        Seq::empty()
    } else if pair_at(s, i, '/', '/') {
        Seq::empty()
    } else if pair_at(s, i, '/', '*') {
        match comment_end(s, i) {
            Some(end) => {
                proof {
                    lemma_pair_at_or_after(s, '*', '/', i + 2);
                }
                code_from(s, end)
            },
            None => Seq::empty(),
        }
    } else {
        seq![s[i]] + code_from(s, i + 1)
    }
}

/// Whether a block comment is open at the end of a line, where none is open
/// at `i`.
pub open spec fn open_from(s: Seq<char>, i: int) -> bool
    decreases s.len() - i,
{
    if i < 0 || i >= s.len() {
        false
    } else if pair_at(s, i, '/', '/') {
        false
    } else if pair_at(s, i, '/', '*') {
        match comment_end(s, i) {
            Some(end) => {
                proof {
                    lemma_pair_at_or_after(s, '*', '/', i + 2);
                }
                open_from(s, end)
            },
            None => true,
        }
    } else {
        open_from(s, i + 1)
    }
}

/// The code of a line that starts outside any comment.
pub open spec fn code_of(s: Seq<char>) -> Seq<char> {
    code_from(s, 0)
}

/// Whether a line that starts outside any comment ends inside one.
pub open spec fn opens_comment(s: Seq<char>) -> bool {
    open_from(s, 0)
}

/// A text holds no comment opener: neither `//` nor `/*`.
pub open spec fn comment_free(s: Seq<char>) -> bool {
    forall|k: int| !pair_at(s, k, '/', '/') && !pair_at(s, k, '/', '*')
}

/// Code that starts with a slash starts where the line does: no comment was
/// passed over before it.
proof fn lemma_code_starts(s: Seq<char>, i: int)
    requires
        0 <= i < s.len(),
        code_from(s, i).len() > 0,
    ensures
        s[i] == '/' || code_from(s, i)[0] == s[i],
    decreases s.len() - i,
{
}

/// The code of a line holds no comment: no `//` and no `/*` is left in it,
/// nor does taking a comment out make one.
pub proof fn lemma_code_is_comment_free(s: Seq<char>, i: int)
    requires
        0 <= i,
    ensures
        comment_free(code_from(s, i)),
    decreases s.len() - i,
{
    let code = code_from(s, i);
    if i < s.len() && !pair_at(s, i, '/', '/') {
        if pair_at(s, i, '/', '*') {
            match comment_end(s, i) {
                Some(end) => {
                    lemma_pair_at_or_after(s, '*', '/', i + 2);
                    lemma_code_is_comment_free(s, end);
                },
                None => {},
            }
        } else {
            let rest = code_from(s, i + 1);
            lemma_code_is_comment_free(s, i + 1);
            assert forall|k: int| !pair_at(code, k, '/', '/') && !pair_at(code, k, '/', '*') by {
                if k == 0 && code.len() > 1 {
                    assert(code[0] == s[i]);
                    assert(code[1] == rest[0]);
                    lemma_code_starts(s, i + 1);
                } else if k > 0 && k + 1 < code.len() {
                    assert(code[k] == rest[k - 1]);
                    assert(code[k + 1] == rest[k]);
                    assert(!pair_at(rest, k - 1, '/', '/') && !pair_at(rest, k - 1, '/', '*'));
                }
            }
        }
    }
}

/// The code of one line is one line.
pub proof fn lemma_code_is_flat(s: Seq<char>, i: int)
    requires
        0 <= i,
        flat(s),
    ensures
        flat(code_from(s, i)),
    decreases s.len() - i,
{
    if i < s.len() && !pair_at(s, i, '/', '/') {
        if pair_at(s, i, '/', '*') {
            match comment_end(s, i) {
                Some(end) => {
                    lemma_pair_at_or_after(s, '*', '/', i + 2);
                    lemma_code_is_flat(s, end);
                },
                None => {},
            }
        } else {
            lemma_code_is_flat(s, i + 1);
            let rest = code_from(s, i + 1);
            let code = code_from(s, i);
            assert forall|k: int| 0 <= k < code.len() implies #[trigger] code[k] != '\n' by {
                if k > 0 {
                    assert(code[k] == rest[k - 1]);
                }
            }
        }
    }
}

/// Takes the comments out of a line that starts outside any comment, and
/// tells whether the line ends inside one.
pub fn strip_comments(s: &Vec<char>) -> (r: (Vec<char>, bool))
    ensures
        r.0@ == code_of(s@),
        r.1 == opens_comment(s@),
{
    let mut out: Vec<char> = Vec::new();
    let mut i: usize = 0;
    while i < s.len()
        invariant
            i <= s.len(),
            code_of(s@) == out@ + code_from(s@, i as int),
            opens_comment(s@) == open_from(s@, i as int),
        decreases s.len() - i,
    {
        if s[i] == '/' && s.len() - i >= 2 && s[i + 1] == '/' {
            assert(out@ + Seq::<char>::empty() == out@);
            return (out, false);
        }
        if s[i] == '/' && s.len() - i >= 2 && s[i + 1] == '*' {
            match find_pair_from(s, '*', '/', i + 2) {
                Some(close) => {
                    i = close + 2;
                },
                None => {
                    assert(out@ + Seq::<char>::empty() == out@);
                    return (out, true);
                },
            }
        } else {
            let ghost before = out@;
            out.push(s[i]);
            assert(before + (seq![s@[i as int]] + code_from(s@, i + 1)) == before.push(s@[i as int])
                + code_from(s@, i + 1));
            i += 1;
        }
    }
    assert(out@ + Seq::<char>::empty() == out@);
    (out, false)
}

} // verus!
