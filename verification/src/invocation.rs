//! The command line: which secrets to fetch, where to write, how to name.

use vstd::pervasive::unreached;
use vstd::prelude::*;

use crate::text::{chars_of, same_text, text_of};

verus! {

/// Whether `flag` stands at `i` in `args` and nowhere before.
pub open spec fn is_first_occurrence(args: Seq<Seq<char>>, i: int, flag: Seq<char>) -> bool {
    &&& 0 <= i < args.len()
    &&& args[i] == flag
    &&& forall|j: int| 0 <= j < i ==> args[j] != flag
}

/// The argument that follows the first occurrence of `flag`, if the flag
/// occurs and is not the last argument.
pub open spec fn value_after(args: Seq<Seq<char>>, flag: Seq<char>) -> Option<Seq<char>> {
    let at = choose|i: int| is_first_occurrence(args, i, flag);
    if is_first_occurrence(args, at, flag) && at + 1 < args.len() {
        Some(args[at + 1])
    } else {
        None
    }
}

/// The argument that follows the first occurrence of `flag`, or the empty
/// text where there is none.
pub open spec fn value_or_empty(args: Seq<Seq<char>>, flag: Seq<char>) -> Seq<char> {
    match value_after(args, flag) {
        Some(value) => value,
        None => Seq::empty(),
    }
}

/// Whether `i` is the place of the first comma of `text`.
pub open spec fn is_first_comma(text: Seq<char>, i: int) -> bool {
    &&& 0 <= i < text.len()
    &&& text[i] == ','
    &&& forall|j: int| 0 <= j < i ==> text[j] != ','
}

/// The pieces of `text` between its commas, in order. A text without comma
/// is one piece, the empty text too.
pub open spec fn split_at_commas(text: Seq<char>) -> Seq<Seq<char>>
    decreases text.len(),
{
    let at = choose|i: int| is_first_comma(text, i);
    if is_first_comma(text, at) {
        seq![text.take(at)] + split_at_commas(text.skip(at + 1))
    } else {
        seq![text]
    }
}

/// The texts of the arguments.
pub open spec fn texts(args: Seq<String>) -> Seq<Seq<char>> {
    args.map_values(|a: String| a@)
}

/// Finds the argument that follows the first occurrence of `flag`.
pub fn find_value(args: &Vec<String>, flag: &str) -> (value: Option<String>)
    ensures
        match value {
            Some(v) => value_after(texts(args@), flag@) == Some(v@),
            None => value_after(texts(args@), flag@) is None,
        },
{
    let ghost all = texts(args@);
    let mut i: usize = 0;
    while i < args.len()
        invariant
            i <= args.len(),
            all == texts(args@),
            forall|j: int| 0 <= j < i ==> all[j] != flag@,
        decreases args.len() - i,
    {
        if same_text(args[i].as_str(), flag) {
            proof {
                assert(is_first_occurrence(all, i as int, flag@));
                let at = choose|k: int| is_first_occurrence(all, k, flag@);
                if at < i {
                    assert(all[at] != flag@);
                }
                if i < at {
                    assert(all[i as int] == flag@);
                }
            }
            if i + 1 < args.len() {
                return Some(args[i + 1].clone());
            } else {
                return None;
            }
        }
        i += 1;
    }
    proof {
        let at = choose|k: int| is_first_occurrence(all, k, flag@);
        if is_first_occurrence(all, at, flag@) {
            assert(all[at] != flag@);
        }
    }
    None
}

/// Splits `text` at its commas.
pub fn split_list(text: &str) -> (pieces: Vec<String>)
    ensures
        texts(pieces@) == split_at_commas(text@),
{
    let chars = chars_of(text);
    let mut pieces: Vec<String> = Vec::new();
    let mut start: usize = 0;
    let mut end: usize = 0;
    proof {
        assert(text@.skip(0) =~= text@);
        assert(texts(pieces@) + split_at_commas(text@) =~= split_at_commas(text@));
    }
    while end < chars.len()
        invariant
            start <= end <= chars.len(),
            chars@ == text@,
            split_at_commas(text@) == texts(pieces@) + split_at_commas(text@.skip(start as int)),
            forall|j: int| start <= j < end ==> chars@[j] != ',',
        decreases chars.len() - end,
    {
        if chars[end] == ',' {
            let piece = text_of(&chars, start, end);
            proof {
                let tail = text@.skip(start as int);
                let at = end - start;
                assert(is_first_comma(tail, at));
                let k = choose|k: int| is_first_comma(tail, k);
                if k < at {
                    assert(tail[k] != ',');
                }
                if at < k {
                    assert(tail[at] == ',');
                }
                assert(tail.take(at) =~= piece@);
                assert(tail.skip(at + 1) =~= text@.skip(end + 1));
                assert(texts(pieces@.push(piece)) =~= texts(pieces@).push(piece@));
                assert(texts(pieces@) + (seq![piece@] + split_at_commas(text@.skip(end + 1))) =~= texts(
                    pieces@.push(piece),
                ) + split_at_commas(text@.skip(end + 1)));
            }
            pieces.push(piece);
            start = end + 1;
        }
        end += 1;
    }
    let piece = text_of(&chars, start, end);
    proof {
        let tail = text@.skip(start as int);
        let k = choose|k: int| is_first_comma(tail, k);
        if is_first_comma(tail, k) {
            assert(tail[k] == chars@[start + k]);
        }
        assert(tail =~= piece@);
        assert(texts(pieces@.push(piece)) =~= texts(pieces@) + seq![piece@]);
    }
    pieces.push(piece);
    pieces
}

/// The identifiers of the secrets to fetch: the pieces, between commas, of
/// the argument that follows `--secrets`. Without that argument there is one
/// identifier, the empty one.
pub fn retrieve_secret_args(args: &Vec<String>) -> (identifiers: Vec<String>)
    ensures
        texts(identifiers@) == split_at_commas(value_or_empty(texts(args@), "--secrets"@)),
{
    let list = match find_value(args, "--secrets") {
        Some(list) => list,
        None => String::new(),
    };
    split_list(list.as_str())
}

/// The path of the file to write: the argument that follows `--path`. A
/// command line in which nothing follows a first `--path` has no path and
/// is not taken: the caller looks with `find_value` first and ends the run
/// where it finds none.
pub fn retrieve_path_args(args: &Vec<String>) -> (path: String)
    requires
        value_after(texts(args@), "--path"@) is Some,
    ensures
        value_after(texts(args@), "--path"@) == Some(path@),
{
    match find_value(args, "--path") {
        Some(path) => path,
        None => unreached(),
    }
}

/// The prefix of the names: the argument that follows `--prefix`, or the
/// empty text.
pub fn retrieve_prefix_args(args: &Vec<String>) -> (prefix: String)
    ensures
        prefix@ == value_or_empty(texts(args@), "--prefix"@),
{
    match find_value(args, "--prefix") {
        Some(prefix) => prefix,
        None => String::new(),
    }
}

/// The word for the case transform: the argument that follows
/// `--transform`, or the empty text.
pub fn retrieve_transform_args(args: &Vec<String>) -> (word: String)
    ensures
        word@ == value_or_empty(texts(args@), "--transform"@),
{
    match find_value(args, "--transform") {
        Some(word) => word,
        None => String::new(),
    }
}

} // verus!
