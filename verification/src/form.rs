//! Query strings in the `application/x-www-form-urlencoded` syntax.

use crate::text::{optional, same_text, views};
use vstd::prelude::*;
use vstd::utf8::encode_utf8;

verus! {

/// The characters of each pair of a list.
pub open spec fn pair_views(pairs: Seq<(String, String)>) -> Seq<(Seq<char>, Seq<char>)> {
    pairs.map_values(|pair: (String, String)| (pair.0@, pair.1@))
}

/// The name and value pairs that `url::form_urlencoded::parse` finds in `query`.
pub uninterp spec fn form_pairs(query: Seq<u8>) -> Seq<(Seq<char>, Seq<char>)>;

/// What `url::form_urlencoded::Serializer` writes for `pairs`.
pub uninterp spec fn form_text(pairs: Seq<(Seq<char>, Seq<char>)>) -> Seq<char>;

/// The characters that an encoded query is written with.
pub open spec fn is_form_char(ch: char) -> bool {
    ||| '0' <= ch && ch <= '9'
    ||| 'A' <= ch && ch <= 'Z'
    ||| 'a' <= ch && ch <= 'z'
    ||| ch == '*'
    ||| ch == '-'
    ||| ch == '.'
    ||| ch == '_'
    ||| ch == '+'
    ||| ch == '%'
    ||| ch == '&'
    ||| ch == '='
}

/// Calls `url::form_urlencoded::parse`, whose result depends on the bytes of the query alone.
#[verifier::external_body]
fn parse_form(query: &[u8]) -> (pairs: Vec<(String, String)>)
    ensures
        pair_views(pairs@) == form_pairs(query@),
{
    url::form_urlencoded::parse(query).into_owned().collect()
}

/// Calls `url::form_urlencoded::Serializer::extend_pairs` on an empty target. The result depends
/// on the pairs alone, is written with the characters of the syntax, and
/// `url::form_urlencoded::parse` reads the same pairs back from it.
#[verifier::external_body]
pub(crate) fn encode_form(pairs: &Vec<(String, String)>) -> (query: String)
    ensures
        query@ == form_text(pair_views(pairs@)),
        forall|i: int| 0 <= i < query@.len() ==> is_form_char(#[trigger] query@[i]),
        form_pairs(encode_utf8(query@)) == pair_views(pairs@),
{
    url::form_urlencoded::Serializer::new(String::new()).extend_pairs(pairs).finish()
}

/// The name and value pairs of a query.
pub open spec fn query_pairs(query: Seq<char>) -> Seq<(Seq<char>, Seq<char>)> {
    form_pairs(encode_utf8(query))
}

/// The name and value pairs of a query, in the order in which they stand in it.
pub fn parse_query(query: &str) -> (pairs: Vec<(String, String)>)
    ensures
        pair_views(pairs@) == query_pairs(query@),
{
    parse_form(query.as_bytes())
}

/// The value of the first pair with the given name.
pub open spec fn first_value(pairs: Seq<(Seq<char>, Seq<char>)>, name: Seq<char>) -> Option<
    Seq<char>,
>
    decreases pairs.len(),
{
    if pairs.len() == 0 {
        None
    } else if pairs[0].0 == name {
        Some(pairs[0].1)
    } else {
        first_value(pairs.drop_first(), name)
    }
}

/// The value of the last pair with the given name.
pub open spec fn last_value(pairs: Seq<(Seq<char>, Seq<char>)>, name: Seq<char>) -> Option<
    Seq<char>,
>
    decreases pairs.len(),
{
    if pairs.len() == 0 {
        None
    } else if pairs.last().0 == name {
        Some(pairs.last().1)
    } else {
        last_value(pairs.drop_last(), name)
    }
}

/// The value of the last pair with the given name and a value that is not empty.
pub open spec fn last_filled_value(
    pairs: Seq<(Seq<char>, Seq<char>)>,
    name: Seq<char>,
) -> Option<Seq<char>>
    decreases pairs.len(),
{
    if pairs.len() == 0 {
        None
    } else if pairs.last().0 == name && pairs.last().1.len() > 0 {
        Some(pairs.last().1)
    } else {
        last_filled_value(pairs.drop_last(), name)
    }
}

/// The values, in their order, of the pairs with the given name and a value that is not empty.
pub open spec fn filled_values(pairs: Seq<(Seq<char>, Seq<char>)>, name: Seq<char>) -> Seq<
    Seq<char>,
>
    decreases pairs.len(),
{
    if pairs.len() == 0 {
        Seq::empty()
    } else if pairs.last().0 == name && pairs.last().1.len() > 0 {
        filled_values(pairs.drop_last(), name).push(pairs.last().1)
    } else {
        filled_values(pairs.drop_last(), name)
    }
}

/// The value of the first pair named `name`.
pub fn find_first_value(pairs: &Vec<(String, String)>, name: &str) -> (value: Option<String>)
    ensures
        optional(value) == first_value(pair_views(pairs@), name@),
{
    let ghost all = pair_views(pairs@);
    let mut i: usize = 0;
    assert(all.skip(0) =~= all);
    while i < pairs.len()
        invariant
            i <= pairs.len(),
            all == pair_views(pairs@),
            first_value(all, name@) == first_value(all.skip(i as int), name@),
        decreases pairs.len() - i,
    {
        assert(all.skip(i as int)[0] == (pairs@[i as int].0@, pairs@[i as int].1@));
        assert(all.skip(i as int).drop_first() =~= all.skip(i + 1));
        if same_text(pairs[i].0.as_str(), name) {
            return Some(pairs[i].1.clone());
        }
        i = i + 1;
    }
    None
}

/// The value of the last pair named `name`.
pub fn find_last_value(pairs: &Vec<(String, String)>, name: &str) -> (value: Option<String>)
    ensures
        optional(value) == last_value(pair_views(pairs@), name@),
{
    let ghost all = pair_views(pairs@);
    let mut i: usize = pairs.len();
    assert(all.take(i as int) =~= all);
    while i > 0
        invariant
            i <= pairs.len(),
            all == pair_views(pairs@),
            last_value(all, name@) == last_value(all.take(i as int), name@),
        decreases i,
    {
        assert(all.take(i as int).last() == (pairs@[i - 1].0@, pairs@[i - 1].1@));
        assert(all.take(i as int).drop_last() =~= all.take(i - 1));
        if same_text(pairs[i - 1].0.as_str(), name) {
            return Some(pairs[i - 1].1.clone());
        }
        i = i - 1;
    }
    None
}

/// The value of the last pair named `name` that has one.
pub fn find_last_filled_value(pairs: &Vec<(String, String)>, name: &str) -> (value: Option<String>)
    ensures
        optional(value) == last_filled_value(pair_views(pairs@), name@),
{
    let ghost all = pair_views(pairs@);
    let mut i: usize = pairs.len();
    assert(all.take(i as int) =~= all);
    while i > 0
        invariant
            i <= pairs.len(),
            all == pair_views(pairs@),
            last_filled_value(all, name@) == last_filled_value(all.take(i as int), name@),
        decreases i,
    {
        assert(all.take(i as int).last() == (pairs@[i - 1].0@, pairs@[i - 1].1@));
        assert(all.take(i as int).drop_last() =~= all.take(i - 1));
        if same_text(pairs[i - 1].0.as_str(), name) && !pairs[i - 1].1.as_str().is_empty() {
            return Some(pairs[i - 1].1.clone());
        }
        i = i - 1;
    }
    None
}

/// The values of the pairs named `name` that have one, in their order.
pub fn collect_filled_values(pairs: &Vec<(String, String)>, name: &str) -> (values: Vec<String>)
    ensures
        views(values@) == filled_values(pair_views(pairs@), name@),
{
    let ghost all = pair_views(pairs@);
    let mut values: Vec<String> = Vec::new();
    let mut i: usize = 0;
    assert(views(values@) =~= filled_values(all.take(0), name@));
    while i < pairs.len()
        invariant
            i <= pairs.len(),
            all == pair_views(pairs@),
            views(values@) == filled_values(all.take(i as int), name@),
        decreases pairs.len() - i,
    {
        let ghost before = views(values@);
        assert(all.take(i + 1).last() == (pairs@[i as int].0@, pairs@[i as int].1@));
        assert(all.take(i + 1).drop_last() =~= all.take(i as int));
        if same_text(pairs[i].0.as_str(), name) && !pairs[i].1.as_str().is_empty() {
            values.push(pairs[i].1.clone());
            assert(views(values@) =~= before.push(pairs@[i as int].1@));
        }
        i = i + 1;
    }
    assert(all.take(i as int) =~= all);
    values
}

/// In a query made of two, a first value comes from the first that has one, a last value from the
/// second that has one, and the filled values are those of both, in their order.
pub proof fn values_of_joined_queries(
    left: Seq<(Seq<char>, Seq<char>)>,
    right: Seq<(Seq<char>, Seq<char>)>,
    name: Seq<char>,
)
    ensures
        first_value(left + right, name) == (if first_value(left, name) is Some {
            first_value(left, name)
        } else {
            first_value(right, name)
        }),
        last_value(left + right, name) == (if last_value(right, name) is Some {
            last_value(right, name)
        } else {
            last_value(left, name)
        }),
        last_filled_value(left + right, name) == (if last_filled_value(right, name) is Some {
            last_filled_value(right, name)
        } else {
            last_filled_value(left, name)
        }),
        filled_values(left + right, name) == filled_values(left, name) + filled_values(right, name),
{
    lemma_first_of_joined(left, right, name);
    lemma_last_of_joined(left, right, name);
}

proof fn lemma_first_of_joined(
    left: Seq<(Seq<char>, Seq<char>)>,
    right: Seq<(Seq<char>, Seq<char>)>,
    name: Seq<char>,
)
    ensures
        first_value(left + right, name) == (if first_value(left, name) is Some {
            first_value(left, name)
        } else {
            first_value(right, name)
        }),
    decreases left.len(),
{
    if left.len() == 0 {
        assert(left + right =~= right);
    } else {
        lemma_first_of_joined(left.drop_first(), right, name);
        assert((left + right).drop_first() =~= left.drop_first() + right);
    }
}

proof fn lemma_last_of_joined(
    left: Seq<(Seq<char>, Seq<char>)>,
    right: Seq<(Seq<char>, Seq<char>)>,
    name: Seq<char>,
)
    ensures
        last_value(left + right, name) == (if last_value(right, name) is Some {
            last_value(right, name)
        } else {
            last_value(left, name)
        }),
        last_filled_value(left + right, name) == (if last_filled_value(right, name) is Some {
            last_filled_value(right, name)
        } else {
            last_filled_value(left, name)
        }),
        filled_values(left + right, name) == filled_values(left, name) + filled_values(right, name),
    decreases right.len(),
{
    if right.len() == 0 {
        assert(left + right =~= left);
        assert(filled_values(left, name) + filled_values(right, name) =~= filled_values(
            left,
            name,
        ));
    } else {
        lemma_last_of_joined(left, right.drop_last(), name);
        assert((left + right).drop_last() =~= left + right.drop_last());
        assert((left + right).last() == right.last());
        assert(filled_values(left + right, name) =~= filled_values(left, name) + filled_values(
            right,
            name,
        ));
    }
}

/// A single pair gives its value under its own name and under no other; an empty value does not
/// count as a filled one. A query without pairs gives nothing.
pub proof fn values_of_a_single_pair(key: Seq<char>, value: Seq<char>, name: Seq<char>)
    ensures
        ({
            let pairs = seq![(key, value)];
            let found = if key == name {
                Some(value)
            } else {
                None
            };
            let filled = if value.len() > 0 {
                found
            } else {
                None
            };
            &&& first_value(pairs, name) == found
            &&& last_value(pairs, name) == found
            &&& last_filled_value(pairs, name) == filled
            &&& filled_values(pairs, name) == (match filled {
                Some(text) => seq![text],
                None => Seq::empty(),
            })
        }),
        first_value(Seq::empty(), name) is None,
        last_value(Seq::empty(), name) is None,
        last_filled_value(Seq::empty(), name) is None,
        filled_values(Seq::empty(), name).len() == 0,
{
    let pairs = seq![(key, value)];
    assert(pairs.drop_first() =~= Seq::empty());
    assert(pairs.drop_last() =~= Seq::empty());
    assert(first_value(pairs.drop_first(), name) is None);
    assert(last_value(pairs.drop_last(), name) is None);
    assert(last_filled_value(pairs.drop_last(), name) is None);
    assert(filled_values(pairs.drop_last(), name) =~= Seq::empty());
    assert(filled_values(pairs, name) =~= (if key == name && value.len() > 0 {
        seq![value]
    } else {
        Seq::empty()
    }));
}

/// The last value under a name is that of the last pair with this name; there is none only where
/// no pair has it. The same goes for values that are not empty.
pub proof fn the_last_value_stands_last(pairs: Seq<(Seq<char>, Seq<char>)>, name: Seq<char>)
    ensures
        match last_value(pairs, name) {
            Some(value) => exists|at: int|
                0 <= at < pairs.len() && #[trigger] pairs[at] == (name, value) && forall|k: int|
                    at < k < pairs.len() ==> (#[trigger] pairs[k]).0 != name,
            None => forall|k: int| 0 <= k < pairs.len() ==> (#[trigger] pairs[k]).0 != name,
        },
        match last_filled_value(pairs, name) {
            Some(value) => value.len() > 0 && exists|at: int|
                0 <= at < pairs.len() && #[trigger] pairs[at] == (name, value) && forall|k: int|
                    at < k < pairs.len() ==> (#[trigger] pairs[k]).0 != name
                        || pairs[k].1.len() == 0,
            None => forall|k: int|
                0 <= k < pairs.len() ==> (#[trigger] pairs[k]).0 != name || pairs[k].1.len() == 0,
        },
    decreases pairs.len(),
{
    if pairs.len() > 0 {
        let shorter = pairs.drop_last();
        the_last_value_stands_last(shorter, name);
        assert(forall|k: int| 0 <= k < shorter.len() ==> shorter[k] == pairs[k]);
        let end = pairs.len() - 1;
        if pairs[end].0 == name {
            assert(pairs[end] == (name, pairs[end].1));
        } else if last_value(shorter, name) is Some {
            let value = last_value(shorter, name)->0;
            let at = choose|at: int|
                0 <= at < shorter.len() && #[trigger] shorter[at] == (name, value) && forall|k: int|
                    at < k < shorter.len() ==> (#[trigger] shorter[k]).0 != name;
            assert(pairs[at] == (name, value));
        }
        if pairs[end].0 == name && pairs[end].1.len() > 0 {
            assert(pairs[end] == (name, pairs[end].1));
        } else if last_filled_value(shorter, name) is Some {
            let value = last_filled_value(shorter, name)->0;
            let at = choose|at: int|
                0 <= at < shorter.len() && #[trigger] shorter[at] == (name, value) && forall|k: int|
                    at < k < shorter.len() ==> (#[trigger] shorter[k]).0 != name
                        || shorter[k].1.len() == 0;
            assert(pairs[at] == (name, value));
        }
    }
}

/// The first value under a name is that of the first pair with this name.
pub proof fn lemma_first_value(pairs: Seq<(Seq<char>, Seq<char>)>, name: Seq<char>, at: int)
    requires
        0 <= at < pairs.len(),
        pairs[at].0 == name,
        forall|k: int| 0 <= k < at ==> (#[trigger] pairs[k]).0 != name,
    ensures
        first_value(pairs, name) == Some(pairs[at].1),
    decreases at,
{
    if at > 0 {
        let rest = pairs.drop_first();
        assert(forall|k: int| 0 <= k < rest.len() ==> rest[k] == pairs[k + 1]);
        lemma_first_value(rest, name, at - 1);
    }
}

/// Where no pair has a name, there is no first value under it.
pub proof fn lemma_no_first_value(pairs: Seq<(Seq<char>, Seq<char>)>, name: Seq<char>)
    requires
        forall|k: int| 0 <= k < pairs.len() ==> (#[trigger] pairs[k]).0 != name,
    ensures
        first_value(pairs, name) is None,
    decreases pairs.len(),
{
    if pairs.len() > 0 {
        let rest = pairs.drop_first();
        assert(forall|k: int| 0 <= k < rest.len() ==> rest[k] == pairs[k + 1]);
        lemma_no_first_value(rest, name);
    }
}

} // verus!
