use vstd::prelude::*;
use vstd::string::*;

use crate::row::{rv, RowV};
use crate::text::{push_char, push_str};

verus! {

/// The values of a row joined by `, `.
pub open spec fn joined(parts: RowV, k: int) -> Seq<char>
    decreases k,
{
    if k <= 0 {
        Seq::empty()
    } else {
        joined(parts, k - 1) + (if k > 1 {
            ", "@
        } else {
            Seq::empty()
        }) + parts[k - 1]
    }
}

/// Formats a row as `[a, b, c]`.
pub fn format_row(parts: &Vec<String>) -> (r: String)
    ensures
        r@ == "["@ + joined(rv(parts), parts@.len() as int) + "]"@,
{
    proof {
        reveal_strlit("[");
        reveal_strlit("]");
        reveal_strlit(", ");
    }
    let mut body = String::new();
    let mut i: usize = 0;
    while i < parts.len()
        invariant
            i <= parts@.len(),
            body@ == joined(rv(parts), i as int),
        decreases parts@.len() - i,
    {
        if i > 0 {
            push_str(&mut body, ", ");
        }
        push_str(&mut body, parts[i].as_str());
        proof {
            assert(rv(parts)[i as int] == parts@[i as int]@);
            assert(body@ =~= joined(rv(parts), i + 1));
        }
        i += 1;
    }
    let mut r = String::from_str("[");
    push_str(&mut r, body.as_str());
    push_str(&mut r, "]");
    r
}

/// `text` with `prefix` after each line break.
pub open spec fn indented(text: Seq<char>, prefix: Seq<char>) -> Seq<char>
    decreases text.len(),
{
    if text.len() == 0 {
        Seq::empty()
    } else {
        indented(text.drop_last(), prefix) + if text.last() == '\n' {
            seq!['\n'] + prefix
        } else {
            seq![text.last()]
        }
    }
}

/// Indents every line of `text` after the first by `prefix`.
pub fn indent(text: &str, prefix: &str) -> (r: String)
    ensures
        r@ == indented(text@, prefix@),
{
    let mut r = String::new();
    let n = text.unicode_len();
    let mut i: usize = 0;
    while i < n
        invariant
            n == text@.len(),
            i <= n,
            r@ == indented(text@.subrange(0, i as int), prefix@),
        decreases n - i,
    {
        let c = text.get_char(i);
        proof {
            assert(text@.subrange(0, i + 1).drop_last() =~= text@.subrange(0, i as int));
            assert(text@.subrange(0, i + 1).last() == c);
        }
        push_char(&mut r, c);
        if c == '\n' {
            push_str(&mut r, prefix);
        }
        proof {
            assert(r@ =~= indented(text@.subrange(0, i + 1), prefix@));
        }
        i += 1;
    }
    proof {
        assert(text@.subrange(0, n as int) =~= text@);
    }
    r
}

} // verus!
