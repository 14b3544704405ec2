//! What requests may ask for, and the settings of the server.
use vstd::prelude::*;
use vstd::string::*;

use crate::text::same_text;

verus! {

/// Default depth for snapshots and for the first message of a subscription.
pub const DEFAULT_BOOK_DEPTH: usize = 20;

pub const MAX_BOOK_DEPTH: usize = 100;

pub const MAX_TRADES_QUERY: usize = 1_000;

pub const DEFAULT_TRADES_QUERY: usize = 100;

/// What is asked for, or the default, but no more than the most that is given.
pub open spec fn capped(asked: Option<usize>, default: usize, most: usize) -> usize {
    let wanted = match asked {
        Some(n) => n,
        None => default,
    };
    if wanted < most {
        wanted
    } else {
        most
    }
}

/// How many levels a request for the book gets.
pub fn book_depth(asked: Option<usize>) -> (depth: usize)
    ensures
        depth == capped(asked, DEFAULT_BOOK_DEPTH, MAX_BOOK_DEPTH),
{
    let wanted = match asked {
        Some(n) => n,
        None => DEFAULT_BOOK_DEPTH,
    };
    if wanted < MAX_BOOK_DEPTH {
        wanted
    } else {
        MAX_BOOK_DEPTH
    }
}

/// How many trades a request for trades gets.
pub fn trades_limit(asked: Option<usize>) -> (limit: usize)
    ensures
        limit == capped(asked, DEFAULT_TRADES_QUERY, MAX_TRADES_QUERY),
{
    let wanted = match asked {
        Some(n) => n,
        None => DEFAULT_TRADES_QUERY,
    };
    if wanted < MAX_TRADES_QUERY {
        wanted
    } else {
        MAX_TRADES_QUERY
    }
}

/// The lower case of an ASCII letter; any other character itself.
pub open spec fn ascii_lower(c: char) -> char {
    if 'A' <= c <= 'Z' {
        (c as u32 + 32) as char
    } else {
        c
    }
}

/// Whether two characters are the same but for the case of an ASCII letter.
fn same_letter(a: char, b: char) -> (same: bool)
    ensures
        same == (ascii_lower(a) == ascii_lower(b)),
{
    let x = a as u32;
    let y = b as u32;
    let u: u32 = if 0x41 <= x && x <= 0x5a {
        x + 32
    } else {
        x
    };
    let v: u32 = if 0x41 <= y && y <= 0x5a {
        y + 32
    } else {
        y
    };
    u == v
}

/// Two texts are the same but for the case of ASCII letters.
pub open spec fn same_but_case(a: Seq<char>, b: Seq<char>) -> bool {
    a.len() == b.len() && forall|i: int|
        0 <= i < a.len() ==> ascii_lower(#[trigger] a[i]) == ascii_lower(b[i])
}

fn eq_ignore_ascii_case(a: &str, b: &str) -> (same: bool)
    ensures
        same == same_but_case(a@, b@),
{
    let n = a.unicode_len();
    if n != b.unicode_len() {
        return false;
    }
    let mut i: usize = 0;
    while i < n
        invariant
            n == a@.len(),
            n == b@.len(),
            i <= n,
            forall|k: int| 0 <= k < i ==> ascii_lower(#[trigger] a@[k]) == ascii_lower(b@[k]),
        decreases n - i,
    {
        if !same_letter(a.get_char(i), b.get_char(i)) {
            return false;
        }
        i = i + 1;
    }
    true
}

/// Whether a setting, where it is given, switches the permissive cross-origin rules on.
pub fn dev_cors_setting(value: Option<String>) -> (on: bool)
    ensures
        on == (value is Some && (value->0@ == "1"@ || same_but_case(value->0@, "true"@))),
{
    match value {
        Some(value) => same_text(&value, "1") || eq_ignore_ascii_case(value.as_str(), "true"),
        None => false,
    }
}

/// A request for the book gets as many levels as it asks for, but no more than a hundred; and
/// twenty where it does not say.
pub proof fn law_book_depth(asked: Option<usize>, depth: usize)
    requires
        call_ensures(book_depth, (asked,), depth),
    ensures
        depth <= 100,
        asked matches Some(n) ==> depth <= n && (n <= 100 ==> depth == n) && (n > 100 ==> depth
            == 100),
        asked is None ==> depth == 20,
{
}

/// A request for trades gets as many as it asks for, but no more than a thousand; and a hundred
/// where it does not say.
pub proof fn law_trades_limit(asked: Option<usize>, limit: usize)
    requires
        call_ensures(trades_limit, (asked,), limit),
    ensures
        limit <= 1000,
        asked matches Some(n) ==> limit <= n && (n <= 1000 ==> limit == n) && (n > 1000 ==> limit
            == 1000),
        asked is None ==> limit == 100,
{
}

/// The setting is on where it is given as one, or as true with letters of either case.
pub proof fn law_dev_cors(value: Option<String>, on: bool)
    requires
        call_ensures(dev_cors_setting, (value,), on),
    ensures
        on <==> match value {
            Some(text) => {
                ||| text@.len() == 1 && text@[0] == '1'
                ||| {
                    &&& text@.len() == 4
                    &&& text@[0] == 't' || text@[0] == 'T'
                    &&& text@[1] == 'r' || text@[1] == 'R'
                    &&& text@[2] == 'u' || text@[2] == 'U'
                    &&& text@[3] == 'e' || text@[3] == 'E'
                }
            },
            None => false,
        },
{
    reveal_strlit("1");
    reveal_strlit("true");
    if let Some(text) = value {
        let s = text@;
        if s.len() == 1 && s[0] == '1' {
            assert(s =~= "1"@);
        }
        if s.len() == 4 {
            assert(same_but_case(s, "true"@) <==> ascii_lower(s[0]) == 't' && ascii_lower(s[1])
                == 'r' && ascii_lower(s[2]) == 'u' && ascii_lower(s[3]) == 'e') by {
                if same_but_case(s, "true"@) {
                    assert(ascii_lower(s[0]) == ascii_lower("true"@[0]));
                    assert(ascii_lower(s[1]) == ascii_lower("true"@[1]));
                    assert(ascii_lower(s[2]) == ascii_lower("true"@[2]));
                    assert(ascii_lower(s[3]) == ascii_lower("true"@[3]));
                }
            }
        }
    }
}

} // verus!
