//! What quoted arguments stand for, stated apart from how the grammar reads
//! them: an escape means the same thing inside either kind of quotes.

use crate::parser::grammar::{
    is_quote, parse_arg, prepend_value, scan_quoted, ArgParse, QuotedEnd, BACKSLASH, CR, DQUOTE,
    LF, LOWER_N, LOWER_R, LOWER_T, SQUOTE, TAB,
};
use crate::ast::ArgView;
use vstd::prelude::*;

verus! {

/// What the escape `\c` stands for in a quoted argument: `\\`, `\"` and
/// `\'` for the character itself, `\t`, `\r` and `\n` for a tab, a carriage
/// return and a line feed, and any other `\c` for the backslash and `c`.
/// The enclosing quote plays no part.
pub open spec fn escape_value(c: u8) -> Seq<u8> {
    if c == BACKSLASH || c == DQUOTE || c == SQUOTE {
        seq![c]
    } else if c == LOWER_T {
        seq![TAB]
    } else if c == LOWER_R {
        seq![CR]
    } else if c == LOWER_N {
        seq![LF]
    } else {
        seq![BACKSLASH, c]
    }
}

/// Inside a quoted argument, whichever its quote, a backslash and the byte
/// after it add what that escape stands for to the value, and reading goes
/// on after them.
pub proof fn lemma_escape(b: Seq<u8>, i: int, q: u8)
    requires
        is_quote(q),
        0 <= i,
        i + 1 < b.len(),
        b[i] == BACKSLASH,
    ensures
        scan_quoted(b, i, q) == prepend_value(escape_value(b[i + 1]), scan_quoted(b, i + 2, q)),
{
}

/// From `i` to `n` the bytes hold no quote but inside an escape, and no
/// escape runs past `n`.
pub open spec fn quote_free(b: Seq<u8>, i: int, n: int) -> bool
    decreases n - i,
{
    if i >= n {
        i == n
    } else if b[i] == BACKSLASH {
        i + 1 < n && quote_free(b, i + 2, n)
    } else {
        !is_quote(b[i]) && quote_free(b, i + 1, n)
    }
}

/// The same contents read as a double-quoted and as a single-quoted
/// argument give the same value and end at the same place: only the
/// closing quote differs.
pub proof fn lemma_quote_independent(b1: Seq<u8>, b2: Seq<u8>, i: int, n: int)
    requires
        0 <= i <= n,
        n < b1.len(),
        n < b2.len(),
        forall|k: int| i <= k < n ==> #[trigger] b1[k] == b2[k],
        b1[n] == DQUOTE,
        b2[n] == SQUOTE,
        quote_free(b1, i, n),
    ensures
        scan_quoted(b1, i, DQUOTE) == scan_quoted(b2, i, SQUOTE),
        scan_quoted(b1, i, DQUOTE) == QuotedEnd::Closed(n + 1, scan_quoted(b1, i, DQUOTE)->Closed_1),
    decreases n - i,
{
    if i < n {
        assert(b1[i] == b2[i]);
        if b1[i] == BACKSLASH {
            assert(b1[i + 1] == b2[i + 1]);
            lemma_quote_independent(b1, b2, i + 2, n);
        } else {
            lemma_quote_independent(b1, b2, i + 1, n);
        }
    }
}

/// A quoted argument holding just an escaped quote or backslash has that
/// one byte as its value, whichever quote encloses it; one holding nothing
/// has the empty value. Either is an argument of its own, owned.
pub proof fn lemma_short_quoted(b: Seq<u8>, i: int)
    requires
        0 <= i,
        i + 1 < b.len(),
        is_quote(b[i]),
    ensures
        b[i + 1] == b[i] ==> parse_arg(b, i) == ArgParse::Arg(
            ArgView { value: Seq::empty(), span: (i, i + 2), borrowed: false },
        ),
        i + 3 < b.len() && b[i + 1] == BACKSLASH && (b[i + 2] == BACKSLASH || is_quote(b[i + 2]))
            && b[i + 3] == b[i] ==> parse_arg(b, i) == ArgParse::Arg(
            ArgView { value: seq![b[i + 2]], span: (i, i + 4), borrowed: false },
        ),
{
    if i + 3 < b.len() && b[i + 1] == BACKSLASH {
        lemma_escape(b, i + 1, b[i]);
    }
}

} // verus!
