//! Rendering of the aggregated set as `export` lines.

use vstd::prelude::*;
use vstd::string::StringExecFns;

use crate::naming::{transformed, NamingPolicy, NamingPolicyView};
use crate::pairs::Pair;
use crate::set::{AggregatedSet, Entry};

verus! {

/// The word that every line starts with, and the blank behind it.
pub open spec fn export_keyword() -> Seq<char> {
    seq!['e', 'x', 'p', 'o', 'r', 't', ' ']
}

/// The line `export <name>='<value>'` with its newline. The value stands
/// between the quotes as it is.
pub open spec fn export_line(name: Seq<char>, value: Seq<char>) -> Seq<char> {
    export_keyword() + name + seq!['=', '\''] + value + seq!['\'', '\n']
}

/// The pairs with each key replaced by its name under the policy.
pub open spec fn named_pairs(pairs: Seq<Pair>, policy: NamingPolicyView) -> Seq<Pair> {
    pairs.map_values(|p: Pair| (transformed(p.0, policy), p.1))
}

/// The lines of the pairs, one after the other.
pub open spec fn rendered(pairs: Seq<Pair>) -> Seq<char>
    decreases pairs.len(),
{
    if pairs.len() == 0 {
        Seq::empty()
    } else {
        rendered(pairs.drop_last()) + export_line(pairs.last().0, pairs.last().1)
    }
}

/// Renders one pair as an `export` line that ends in a newline.
pub fn render_line(name: &str, value: &str) -> (line: String)
    ensures
        line@ == export_line(name@, value@),
{
    let mut line = String::from_str("export ");
    line.append(name);
    line.append("='");
    line.append(value);
    line.append("'\n");
    proof {
        reveal_strlit("export ");
        reveal_strlit("='");
        reveal_strlit("'\n");
        assert("export "@ =~= export_keyword());
        assert("='"@ =~= seq!['=', '\'']);
        assert("'\n"@ =~= seq!['\'', '\n']);
    }
    line
}

/// Renders the set under the policy: one line for each pair, in the set's
/// order, with the key replaced by its name.
pub fn render_lines(set: &AggregatedSet, policy: &NamingPolicy) -> (lines: Vec<String>)
    ensures
        lines.len() == set.pairs().len(),
        forall|i: int|
            0 <= i < lines.len() ==> (#[trigger] lines[i])@ == export_line(
                transformed(set.pairs()[i].0, policy@),
                set.pairs()[i].1,
            ),
{
    let entries = set.entries();
    let mut lines: Vec<String> = Vec::new();
    let mut i: usize = 0;
    while i < entries.len()
        invariant
            i <= entries.len(),
            entries@.map_values(|e: Entry| e@) == set.pairs(),
            lines.len() == i,
            forall|j: int|
                0 <= j < i ==> (#[trigger] lines[j])@ == export_line(
                    transformed(set.pairs()[j].0, policy@),
                    set.pairs()[j].1,
                ),
        decreases entries.len() - i,
    {
        let name = policy.transform(entries[i].key.as_str());
        let line = render_line(name.as_str(), entries[i].value.as_str());
        assert(set.pairs()[i as int] == entries[i as int]@);
        lines.push(line);
        i += 1;
    }
    lines
}

/// Renders the set under the policy as the text of the environment file:
/// the lines of `render_lines`, one after the other.
pub fn render(set: &AggregatedSet, policy: &NamingPolicy) -> (text: String)
    ensures
        text@ == rendered(named_pairs(set.pairs(), policy@)),
{
    let lines = render_lines(set, policy);
    let ghost named = named_pairs(set.pairs(), policy@);
    let mut text = String::new();
    let mut i: usize = 0;
    while i < lines.len()
        invariant
            i <= lines.len(),
            lines.len() == named.len(),
            forall|j: int|
                0 <= j < lines.len() ==> (#[trigger] lines[j])@ == export_line(
                    named[j].0,
                    named[j].1,
                ),
            text@ == rendered(named.take(i as int)),
        decreases lines.len() - i,
    {
        proof {
            assert(named.take(i + 1).drop_last() =~= named.take(i as int));
        }
        text.append(lines[i].as_str());
        i += 1;
    }
    proof {
        assert(named.take(i as int) =~= named);
    }
    text
}

} // verus!
