//! The structured filter mini-language: `":" field ":" value (";" value)*`,
//! with each value lowercased on extraction and a trailing empty segment
//! dropped.

use vstd::prelude::*;

use crate::model::ValidationError;
use crate::text::chars_to_string;
use crate::text::lower_char;
use crate::text::lower_char_exec;
use crate::text::str_chars;

verus! {

/// The first position at or after `from` holding a `':'`.
pub open spec fn first_colon_from(s: Seq<char>, from: int) -> Option<int>
    decreases s.len() - from,
{
    if from < 0 || from >= s.len() {
        None
    } else if s[from] == ':' {
        Some(from)
    } else {
        first_colon_from(s, from + 1)
    }
}

/// The `';'`-separated segments of the value part, each lowercased, read
/// left to right: `cur` is the segment being read, `acc` those already
/// read.  A final empty segment — a trailing separator — is dropped.
pub open spec fn split_values_rec(s: Seq<char>, cur: Seq<char>, acc: Seq<Seq<char>>) -> Seq<
    Seq<char>,
>
    decreases s.len(),
{
    if s.len() == 0 {
        if cur.len() > 0 {
            acc.push(cur)
        } else {
            acc
        }
    } else if s[0] == ';' {
        split_values_rec(s.drop_first(), Seq::empty(), acc.push(cur))
    } else {
        split_values_rec(s.drop_first(), cur.push(lower_char(s[0])), acc)
    }
}

/// The lowercased values of a filter expression's value part.
pub open spec fn split_values(s: Seq<char>) -> Seq<Seq<char>> {
    split_values_rec(s, Seq::empty(), Seq::empty())
}

/// What a filter expression parses to: the field name between the first
/// two separators and the lowercased values after the second, or nothing
/// when the expression lacks that second separator.
pub open spec fn parse_spec(s: Seq<char>) -> Option<(Seq<char>, Seq<Seq<char>>)> {
    if s.len() == 0 {
        None
    } else {
        match first_colon_from(s, 1) {
            Some(n) => Some(
                (s.subrange(1, n), split_values(s.subrange(n + 1, s.len() as int))),
            ),
            None => None,
        }
    }
}

/// Parses a filter expression into its field name and lowercased values.
/// An expression without a second `':'` is malformed and rejected.
pub fn parse_search_value(text: &str) -> (r: Result<(String, Vec<String>), ValidationError>)
    ensures
        r is Ok <==> parse_spec(text@) is Some,
        r is Ok ==> r->Ok_0.0@ == parse_spec(text@)->Some_0.0,
        r is Ok ==> r->Ok_0.1.deep_view() == parse_spec(text@)->Some_0.1,
        r is Err ==> r->Err_0 == ValidationError::MalformedFilter,
{
    let chars = str_chars(text);
    let len = chars.len();
    if len == 0 {
        return Err(ValidationError::MalformedFilter);
    }
    let mut i: usize = 1;
    while i < len && chars[i] != ':'
        invariant
            len == text@.len(),
            chars@ == text@,
            1 <= i <= len,
            first_colon_from(text@, 1) == first_colon_from(text@, i as int),
        decreases len - i,
    {
        i = i + 1;
    }
    if i == len {
        return Err(ValidationError::MalformedFilter);
    }
    let n = i;
    assert(first_colon_from(text@, 1) == Some(n as int));
    let key = text.substring_char(1, n).to_owned();

    let mut values: Vec<String> = Vec::new();
    let mut cur: Vec<char> = Vec::new();
    let mut j: usize = n + 1;
    let ghost value_part = text@.subrange(n + 1, len as int);
    proof {
        assert(values.deep_view() =~~= Seq::<Seq<char>>::empty());
        assert(text@.subrange(j as int, len as int) =~= value_part);
    }
    while j < len
        invariant
            len == text@.len(),
            chars@ == text@,
            n + 1 <= j <= len,
            split_values(value_part) == split_values_rec(
                text@.subrange(j as int, len as int),
                cur@,
                values.deep_view(),
            ),
        decreases len - j,
    {
        let ghost pre = text@.subrange(j as int, len as int);
        let ghost old_acc = values.deep_view();
        let ghost old_cur = cur@;
        let c = chars[j];
        if c == ';' {
            values.push(chars_to_string(&cur));
            cur = Vec::new();
            proof {
                assert(values.deep_view() =~~= old_acc.push(old_cur));
            }
        } else {
            cur.push(lower_char_exec(c));
        }
        j = j + 1;
        proof {
            assert(pre[0] == c);
            assert(pre.drop_first() =~= text@.subrange(j as int, len as int));
        }
    }
    proof {
        assert(text@.subrange(len as int, len as int) =~= Seq::<char>::empty());
    }
    if cur.len() > 0 {
        let ghost old_acc = values.deep_view();
        let ghost old_cur = cur@;
        values.push(chars_to_string(&cur));
        proof {
            assert(values.deep_view() =~~= old_acc.push(old_cur));
        }
    }
    Ok((key, values))
}

} // verus!
