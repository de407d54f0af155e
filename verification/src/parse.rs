//! Reading an environment file back into its pairs, and the round trip with
//! rendering.

use vstd::prelude::*;

use crate::naming::{plain_policy, sanitized, transformed, NamingPolicyView};
use crate::pairs::Pair;
use crate::render::{export_keyword, export_line, named_pairs, rendered};
use crate::text::{chars_of, text_of};

verus! {

/// Whether `i` is the place of the first newline of `text`.
pub open spec fn is_first_newline(text: Seq<char>, i: int) -> bool {
    &&& 0 <= i < text.len()
    &&& text[i] == '\n'
    &&& forall|j: int| 0 <= j < i ==> text[j] != '\n'
}

/// The place of the first newline of `text`, where it has one.
pub open spec fn first_newline(text: Seq<char>) -> int {
    choose|i: int| is_first_newline(text, i)
}

/// Whether `='` stands at `i` in `body`.
pub open spec fn is_assignment_at(body: Seq<char>, i: int) -> bool {
    &&& 0 <= i
    &&& i + 1 < body.len()
    &&& body[i] == '='
    &&& body[i + 1] == '\''
}

/// Whether the first `='` of `body` stands at `i`.
pub open spec fn is_first_assignment(body: Seq<char>, i: int) -> bool {
    &&& is_assignment_at(body, i)
    &&& forall|j: int| 0 <= j < i ==> !is_assignment_at(body, j)
}

/// The place of the first `='` of `body`, where it has one.
pub open spec fn first_assignment(body: Seq<char>) -> int {
    choose|i: int| is_first_assignment(body, i)
}

/// The pair of a line `export <name>='<value>'`, given without its newline.
/// The name ends before the first `='`; the value is all that stands between
/// that and the closing quote. Any other line has no pair.
pub open spec fn parsed_line(line: Seq<char>) -> Option<Pair> {
    if line.len() >= 8 && line.take(7) == export_keyword() && line.last() == '\'' {
        let body = line.subrange(7, line.len() - 1);
        if exists|i: int| is_assignment_at(body, i) {
            let at = first_assignment(body);
            Some((body.take(at), body.skip(at + 2)))
        } else {
            None
        }
    } else {
        None
    }
}

/// The pairs of a text in which every line ends in a newline and has a pair,
/// in the order of the lines. Any other text has none.
pub open spec fn parsed(text: Seq<char>) -> Option<Seq<Pair>>
    decreases text.len(),
{
    if text.len() == 0 {
        Some(Seq::empty())
    } else {
        let end = first_newline(text);
        if is_first_newline(text, end) {
            match (parsed_line(text.take(end)), parsed(text.skip(end + 1))) {
                (Some(pair), Some(rest)) => Some(seq![pair] + rest),
                _ => None,
            }
        } else {
            None
        }
    }
}

/// The pairs over sequences of characters.
pub open spec fn pair_views(pairs: Seq<(String, String)>) -> Seq<Pair> {
    pairs.map_values(|p: (String, String)| (p.0@, p.1@))
}

/// Whether a text can stand in a name and be read back: it holds no
/// newline and no `='`.
pub open spec fn fit_for_name(text: Seq<char>) -> bool {
    &&& !text.contains('\n')
    &&& forall|i: int| !is_assignment_at(text, i)
}

/// Whether a name and a value come back from their line: the name is fit
/// for a name, and the value holds no newline.
pub open spec fn survives_rendering(name: Seq<char>, value: Seq<char>) -> bool {
    &&& fit_for_name(name)
    &&& !value.contains('\n')
}

/// The first newline of a text is where any newline stands that has none
/// before it.
pub proof fn lemma_first_newline(text: Seq<char>, i: int)
    requires
        is_first_newline(text, i),
    ensures
        first_newline(text) == i,
{
    let k = first_newline(text);
    assert(is_first_newline(text, k));
    if k < i {
        assert(text[k] != '\n');
    }
    if i < k {
        assert(text[i] != '\n');
    }
}

/// The first `='` of a text is where any `='` stands that has none before it.
pub proof fn lemma_first_assignment(body: Seq<char>, i: int)
    requires
        is_first_assignment(body, i),
    ensures
        first_assignment(body) == i,
        exists|k: int| is_assignment_at(body, k),
{
    let k = first_assignment(body);
    assert(is_first_assignment(body, k));
    if k < i {
        assert(!is_assignment_at(body, k));
    }
    if i < k {
        assert(!is_assignment_at(body, i));
    }
}

/// A rendered line, without its newline, reads back as its name and value.
pub proof fn lemma_line_round_trip(name: Seq<char>, value: Seq<char>)
    requires
        forall|i: int| !is_assignment_at(name, i),
    ensures
        export_line(name, value).last() == '\n',
        parsed_line(export_line(name, value).drop_last()) == Some((name, value)),
{
    let line = export_line(name, value).drop_last();
    let body = line.subrange(7, line.len() - 1);
    let at = name.len() as int;
    assert(line.take(7) =~= export_keyword());
    assert(body =~= name + seq!['=', '\''] + value);
    assert(is_assignment_at(body, at));
    assert forall|j: int| 0 <= j < at implies !is_assignment_at(body, j) by {
        assert(!is_assignment_at(name, j));
        assert(body[j] == name[j]);
        if j + 1 < at {
            assert(body[j + 1] == name[j + 1]);
        } else {
            assert(body[j + 1] == '=');
        }
    }
    lemma_first_assignment(body, at);
    assert(body.take(at) =~= name);
    assert(body.skip(at + 2) =~= value);
}

/// The text of some pairs is the line of the first pair and then the text
/// of the others.
pub proof fn lemma_rendered_from_front(pairs: Seq<Pair>)
    requires
        pairs.len() > 0,
    ensures
        rendered(pairs) == export_line(pairs[0].0, pairs[0].1) + rendered(pairs.drop_first()),
    decreases pairs.len(),
{
    if pairs.len() == 1 {
        assert(pairs.drop_last() =~= Seq::empty());
        assert(pairs.drop_first() =~= Seq::empty());
        assert(rendered(pairs) =~= export_line(pairs[0].0, pairs[0].1) + rendered(pairs.drop_first()));
    } else {
        let front = pairs.drop_last();
        lemma_rendered_from_front(front);
        assert(front.drop_first() =~= pairs.drop_first().drop_last());
        assert(pairs.drop_first().last() == pairs.last());
        assert(rendered(pairs) =~= export_line(pairs[0].0, pairs[0].1) + rendered(pairs.drop_first()));
    }
}

/// Round trip: the text rendered from pairs that survive rendering reads
/// back as exactly those pairs, in the order in which they were rendered.
pub proof fn lemma_round_trip(pairs: Seq<Pair>)
    requires
        forall|i: int| 0 <= i < pairs.len() ==> survives_rendering((#[trigger] pairs[i]).0, pairs[i].1),
    ensures
        parsed(rendered(pairs)) == Some(pairs),
    decreases pairs.len(),
{
    if pairs.len() > 0 {
        let (name, value) = pairs[0];
        let rest = pairs.drop_first();
        let line = export_line(name, value);
        let text = rendered(pairs);
        lemma_rendered_from_front(pairs);
        assert(survives_rendering(pairs[0].0, pairs[0].1));
        lemma_line_round_trip(name, value);
        let end = line.len() - 1;
        assert forall|j: int| 0 <= j < end implies text[j] != '\n' by {
            if 7 <= j < 7 + name.len() {
                assert(name.contains(name[j - 7]));
            }
            if 9 + name.len() <= j < 9 + name.len() + value.len() {
                assert(value.contains(value[j - 9 - name.len()]));
            }
        }
        assert(is_first_newline(text, end));
        lemma_first_newline(text, end);
        assert(text.take(end) =~= line.drop_last());
        assert(text.skip(end + 1) =~= rendered(rest));
        assert forall|i: int| 0 <= i < rest.len() implies survives_rendering(
            (#[trigger] rest[i]).0,
            rest[i].1,
        ) by {
            assert(rest[i] == pairs[i + 1]);
        }
        lemma_round_trip(rest);
        assert(seq![pairs[0]] + rest =~= pairs);
    }
}

/// Round trip of a set: where the names and values survive rendering, the
/// text rendered from the pairs under a policy reads back as exactly the
/// pairs with their keys renamed.
pub proof fn lemma_named_round_trip(pairs: Seq<Pair>, policy: NamingPolicyView)
    requires
        forall|i: int|
            0 <= i < pairs.len() ==> survives_rendering(
                transformed((#[trigger] pairs[i]).0, policy),
                pairs[i].1,
            ),
    ensures
        parsed(rendered(named_pairs(pairs, policy))) == Some(named_pairs(pairs, policy)),
{
    let named = named_pairs(pairs, policy);
    assert forall|i: int| 0 <= i < named.len() implies survives_rendering(
        (#[trigger] named[i]).0,
        named[i].1,
    ) by {
        assert(survives_rendering(transformed(pairs[i].0, policy), pairs[i].1));
    }
    lemma_round_trip(named);
}

/// Without case transform, the name of a key is fit for a name where the
/// key and the prefix are.
pub proof fn lemma_plain_name_is_fit(key: Seq<char>, prefix: Seq<char>)
    requires
        fit_for_name(key),
        fit_for_name(prefix),
    ensures
        fit_for_name(transformed(key, plain_policy(prefix))),
{
    let name = transformed(key, plain_policy(prefix));
    let clean = sanitized(key);
    let shift = if prefix.len() == 0 {
        0
    } else {
        prefix.len() + 1
    };
    assert forall|i: int| shift <= i < name.len() implies name[i] == #[trigger] clean[i - shift] by {}
    if name.contains('\n') {
        let i = choose|i: int| 0 <= i < name.len() && name[i] == '\n';
        if i < prefix.len() && prefix.len() > 0 {
            assert(prefix.contains(prefix[i]));
        } else if i >= shift {
            assert(clean[i - shift] == '\n');
            assert(key.contains(key[i - shift]));
        }
    }
    assert forall|i: int| !is_assignment_at(name, i) by {
        if is_assignment_at(name, i) {
            if prefix.len() > 0 && i + 1 < prefix.len() {
                assert(is_assignment_at(prefix, i));
            } else if i >= shift {
                assert(clean[i - shift] == '=');
                assert(clean[i + 1 - shift] == '\'');
                assert(is_assignment_at(key, i - shift));
            }
        }
    }
}

/// Round trip without case transform: where the keys and the prefix are fit
/// for a name and no value holds a newline, the text rendered from the pairs
/// reads back as exactly the pairs with their keys renamed.
pub proof fn lemma_plain_round_trip(pairs: Seq<Pair>, prefix: Seq<char>)
    requires
        fit_for_name(prefix),
        forall|i: int|
            0 <= i < pairs.len() ==> fit_for_name((#[trigger] pairs[i]).0) && !pairs[i].1.contains(
                '\n',
            ),
    ensures
        parsed(rendered(named_pairs(pairs, plain_policy(prefix)))) == Some(
            named_pairs(pairs, plain_policy(prefix)),
        ),
{
    assert forall|i: int| 0 <= i < pairs.len() implies survives_rendering(
        transformed((#[trigger] pairs[i]).0, plain_policy(prefix)),
        pairs[i].1,
    ) by {
        lemma_plain_name_is_fit(pairs[i].0, prefix);
    }
    lemma_named_round_trip(pairs, plain_policy(prefix));
}

/// Round trip in any order: in whatever order the lines of some pairs are
/// written, the text reads back as the same pairs, each as often as before.
pub proof fn lemma_round_trip_in_any_order(pairs: Seq<Pair>, reordered: Seq<Pair>)
    requires
        forall|i: int| 0 <= i < pairs.len() ==> survives_rendering((#[trigger] pairs[i]).0, pairs[i].1),
        reordered.to_multiset() == pairs.to_multiset(),
    ensures
        parsed(rendered(reordered)) matches Some(back) && back.to_multiset() == pairs.to_multiset(),
{
    pairs.to_multiset_ensures();
    reordered.to_multiset_ensures();
    assert forall|j: int| 0 <= j < reordered.len() implies survives_rendering(
        (#[trigger] reordered[j]).0,
        reordered[j].1,
    ) by {
        assert(reordered.contains(reordered[j]));
        assert(reordered.to_multiset().count(reordered[j]) > 0);
        assert(pairs.to_multiset().count(reordered[j]) > 0);
        assert(pairs.contains(reordered[j]));
        let i = choose|i: int| 0 <= i < pairs.len() && pairs[i] == reordered[j];
        assert(survives_rendering(pairs[i].0, pairs[i].1));
    }
    lemma_round_trip(reordered);
}

/// Whether the characters from `from` on start with `export `.
fn starts_with_keyword(chars: &Vec<char>, from: usize) -> (found: bool)
    requires
        from + 7 <= chars.len(),
    ensures
        found == (chars@.subrange(from as int, from + 7) == export_keyword()),
{
    let found = chars[from] == 'e' && chars[from + 1] == 'x' && chars[from + 2] == 'p' && chars[from
        + 3] == 'o' && chars[from + 4] == 'r' && chars[from + 5] == 't' && chars[from + 6] == ' ';
    proof {
        let head = chars@.subrange(from as int, from + 7);
        if found {
            assert(head =~= export_keyword());
        } else {
            assert(head[0] == chars[from as int]);
            assert(head[1] == chars[from + 1]);
            assert(head[2] == chars[from + 2]);
            assert(head[3] == chars[from + 3]);
            assert(head[4] == chars[from + 4]);
            assert(head[5] == chars[from + 5]);
            assert(head[6] == chars[from + 6]);
        }
    }
    found
}

/// Reads the line that the characters from `from` up to `to` make up.
fn parse_line_between(chars: &Vec<char>, from: usize, to: usize) -> (pair: Option<(String, String)>)
    requires
        from <= to <= chars.len(),
    ensures
        match pair {
            Some(p) => parsed_line(chars@.subrange(from as int, to as int)) == Some((p.0@, p.1@)),
            None => parsed_line(chars@.subrange(from as int, to as int)) is None,
        },
{
    let ghost line = chars@.subrange(from as int, to as int);
    if to - from < 8 {
        return None;
    }
    assert(line.take(7) =~= chars@.subrange(from as int, from + 7));
    if !starts_with_keyword(chars, from) || chars[to - 1] != '\'' {
        return None;
    }
    let ghost body = line.subrange(7, line.len() - 1);
    assert(body =~= chars@.subrange(from + 7, to - 1));
    let mut i: usize = from + 7;
    while i + 1 < to - 1
        invariant
            from + 7 <= i < to <= chars.len(),
            line == chars@.subrange(from as int, to as int),
            line.take(7) == export_keyword(),
            line.last() == '\'',
            body == line.subrange(7, line.len() - 1),
            body == chars@.subrange(from + 7, to - 1),
            forall|j: int| 0 <= j < i - (from + 7) ==> !is_assignment_at(body, j),
        decreases to - i,
    {
        if chars[i] == '=' && chars[i + 1] == '\'' {
            let name = text_of(chars, from + 7, i);
            let value = text_of(chars, i + 2, to - 1);
            proof {
                let at = i - (from + 7);
                assert(is_assignment_at(body, at));
                lemma_first_assignment(body, at);
                assert(body.take(at) =~= name@);
                assert(body.skip(at + 2) =~= value@);
            }
            return Some((name, value));
        }
        i += 1;
    }
    None
}

/// Reads one line `export <name>='<value>'`, given without its newline.
pub fn parse_line(line: &str) -> (pair: Option<(String, String)>)
    ensures
        match pair {
            Some(p) => parsed_line(line@) == Some((p.0@, p.1@)),
            None => parsed_line(line@) is None,
        },
{
    let chars = chars_of(line);
    assert(chars@.subrange(0, chars.len() as int) =~= line@);
    parse_line_between(&chars, 0, chars.len())
}

/// Reads the text of an environment file back into its pairs, in the order
/// of its lines.
pub fn parse(text: &str) -> (pairs: Option<Vec<(String, String)>>)
    ensures
        match pairs {
            Some(found) => parsed(text@) == Some(pair_views(found@)),
            None => parsed(text@) is None,
        },
{
    let chars = chars_of(text);
    let mut found: Vec<(String, String)> = Vec::new();
    let mut start: usize = 0;
    proof {
        assert(text@.skip(0) =~= text@);
        if parsed(text@) is Some {
            let all = parsed(text@)->0;
            assert(pair_views(found@) + all =~= all);
        }
    }
    while start < chars.len()
        invariant
            start <= chars.len(),
            chars@ == text@,
            parsed(text@) == match parsed(text@.skip(start as int)) {
                Some(rest) => Some(pair_views(found@) + rest),
                None => None,
            },
        decreases chars.len() - start,
    {
        let ghost tail = text@.skip(start as int);
        let mut end: usize = start;
        while end < chars.len() && chars[end] != '\n'
            invariant
                start <= end <= chars.len(),
                chars@ == text@,
                tail == text@.skip(start as int),
                forall|j: int| 0 <= j < end - start ==> tail[j] != '\n',
            decreases chars.len() - end,
        {
            end += 1;
        }
        if end == chars.len() {
            proof {
                let k = first_newline(tail);
                if is_first_newline(tail, k) {
                    assert(tail[k] != '\n');
                }
            }
            return None;
        }
        proof {
            assert(is_first_newline(tail, end - start));
            lemma_first_newline(tail, end - start);
            assert(tail.take(end - start) =~= chars@.subrange(start as int, end as int));
            assert(tail.skip(end - start + 1) =~= text@.skip(end + 1));
        }
        match parse_line_between(&chars, start, end) {
            None => {
                return None;
            },
            Some(pair) => {
                proof {
                    let before = pair_views(found@);
                    let after = pair_views(found@.push(pair));
                    assert(after =~= before.push((pair.0@, pair.1@)));
                    if parsed(text@.skip(end + 1)) is Some {
                        let rest = parsed(text@.skip(end + 1))->0;
                        assert(before + (seq![(pair.0@, pair.1@)] + rest) =~= after + rest);
                    }
                }
                found.push(pair);
            },
        }
        start = end + 1;
    }
    proof {
        assert(text@.skip(start as int).len() == 0);
        assert(pair_views(found@) + Seq::empty() =~= pair_views(found@));
    }
    Some(found)
}

} // verus!
