//! Small functions on texts.
use crate::outside::{same_text, whitespace};
use vstd::prelude::*;
use vstd::std_specs::iter::IteratorSpec;

verus! {

/// Whether every character of a text is white space.
pub open spec fn blank(s: Seq<char>) -> bool {
    forall|i: int| 0 <= i < s.len() ==> whitespace(#[trigger] s[i])
}

/// The texts of a sequence of strings.
pub open spec fn lines(list: Seq<String>) -> Seq<Seq<char>> {
    Seq::new(list.len(), |i: int| list[i]@)
}

/// The texts of a sequence, with `separator` between each two of them.
pub open spec fn joined(parts: Seq<Seq<char>>, separator: Seq<char>) -> Seq<char>
    decreases parts.len(),
{
    if parts.len() == 0 {
        Seq::empty()
    } else if parts.len() == 1 {
        parts[0]
    } else {
        joined(parts.drop_last(), separator) + separator + parts.last()
    }
}

/// Joins the strings of a list, with `separator` between each two of them.
pub fn join(parts: &Vec<String>, separator: &str) -> (s: String)
    ensures
        s@ == joined(lines(parts@), separator@),
{
    let mut s = String::new();
    let mut i: usize = 0;
    while i < parts.len()
        invariant
            i <= parts@.len(),
            s@ == joined(lines(parts@).take(i as int), separator@),
        decreases parts@.len() - i,
    {
        if i > 0 {
            s.append(separator);
        }
        s.append(parts[i].as_str());
        proof {
            let now = lines(parts@).take(i + 1);
            assert(now.drop_last() == lines(parts@).take(i as int));
            assert(now.last() == parts@[i as int]@);
            if i == 0 {
                assert(Seq::<char>::empty() + parts@[i as int]@ == parts@[i as int]@);
            }
        }
        i += 1;
    }
    assert(lines(parts@).take(parts@.len() as int) == lines(parts@));
    s
}

/// The decimal digit that stands for a number below ten.
pub open spec fn digit(d: nat) -> char
    recommends
        d < 10,
{
    ((48 + d) as u8) as char
}

/// A number in decimal notation, without leading zeros.
pub open spec fn decimal(n: nat) -> Seq<char>
    decreases n,
{
    if n < 10 {
        seq![digit(n)]
    } else {
        decimal(n / 10).push(digit(n % 10))
    }
}

/// Writes a number in decimal notation.
pub fn decimal_text(n: usize) -> (s: String)
    ensures
        s@ == decimal(n as nat),
    decreases n,
{
    let last: u8 = (n % 10) as u8;
    let mut s = if n < 10 {
        String::new()
    } else {
        decimal_text(n / 10)
    };
    s.push((48 + last) as char);
    proof {
        if n < 10 {
            assert(Seq::<char>::empty().push(digit(n as nat)) == seq![digit(n as nat)]);
        }
    }
    s
}

/// Whether one text comes before another, or equals it, in the order of the
/// dictionary, where characters are ordered by their code points.
pub open spec fn precedes(a: Seq<char>, b: Seq<char>) -> bool
    decreases a.len(),
{
    if a.len() == 0 {
        true
    } else if b.len() == 0 {
        false
    } else if a[0] != b[0] {
        (a[0] as u32) < (b[0] as u32)
    } else {
        precedes(a.skip(1), b.skip(1))
    }
}

/// Whether texts stand in the order of the dictionary.
pub open spec fn ascending(list: Seq<Seq<char>>) -> bool {
    forall|i: int, j: int| 0 <= i < j < list.len() ==> precedes(list[i], list[j])
}

/// The truth value that a text stands for: `true` and `false` stand for
/// themselves, and no other text stands for one.
pub open spec fn parsed_bool(text: Seq<char>) -> Option<bool> {
    if text == "true"@ {
        Some(true)
    } else if text == "false"@ {
        Some(false)
    } else {
        None
    }
}

/// Reads a truth value.
pub fn parse_bool(text: &str) -> (r: Option<bool>)
    ensures
        r == parsed_bool(text@),
{
    if same_text(text, "true") {
        Some(true)
    } else if same_text(text, "false") {
        Some(false)
    } else {
        None
    }
}

/// A text followed by another.
pub fn followed(a: &str, b: &str) -> (s: String)
    ensures
        s@ == a@ + b@,
{
    let mut s = a.to_owned();
    s.append(b);
    s
}

/// Whether a character of a text is white space.
pub fn has_whitespace(text: &str) -> (b: bool)
    ensures
        b == exists|i: int| 0 <= i < text@.len() && whitespace(text@[i]),
{
    broadcast use vstd::string::group_string_axioms;

    let n = text.unicode_len();
    let mut it = text.chars();
    let mut i: usize = 0;
    loop
        invariant
            n == text@.len(),
            it.remaining() == text@.skip(i as int),
            it.obeys_prophetic_iter_laws(),
            i <= n,
            forall|k: int| 0 <= k < i ==> !whitespace(text@[k]),
        decreases n - i,
    {
        match it.next() {
            None => {
                return false;
            },
            Some(c) => {
                assert(c == text@[i as int]);
                if c.is_whitespace() {
                    return true;
                }
                i += 1;
            },
        }
    }
}

} // verus!
