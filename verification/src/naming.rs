//! Derivation of environment-variable names from aggregated keys.

use vstd::prelude::*;
use vstd::string::StringExecFns;

use crate::text::same_text;

verus! {

/// What `str::to_lowercase` returns for a text.
pub uninterp spec fn lowercase(text: Seq<char>) -> Seq<char>;

/// What `str::to_uppercase` returns for a text.
pub uninterp spec fn uppercase(text: Seq<char>) -> Seq<char>;

/// Assumed of `str::to_lowercase`, not proved: its result depends on the
/// text alone. What the lowercase form of a given text is, by Unicode's
/// rules, is not stated.
pub assume_specification[ str::to_lowercase ](s: &str) -> (lower: String)
    ensures
        lower@ == lowercase(s@),
;

/// Assumed of `str::to_uppercase`, not proved: its result depends on the
/// text alone. What the uppercase form of a given text is, by Unicode's
/// rules, is not stated.
pub assume_specification[ str::to_uppercase ](s: &str) -> (upper: String)
    ensures
        upper@ == uppercase(s@),
;

/// How the letters of a name are cased.
#[derive(Clone, Copy, Debug, PartialEq, Eq, Structural)]
pub enum CaseTransform {
    /// The name keeps its letters as they are.
    Unchanged,
    /// The whole name is lowercased.
    Lower,
    /// The whole name is uppercased.
    Upper,
}

/// How keys become names: an optional prefix and a case transform.
#[derive(Debug, PartialEq, Eq)]
pub struct NamingPolicy {
    /// Put before every key, followed by `_`, unless it is empty.
    pub prefix: String,
    pub case: CaseTransform,
}

/// A naming policy over sequences of characters.
pub struct NamingPolicyView {
    pub prefix: Seq<char>,
    pub case: CaseTransform,
}

impl View for NamingPolicy {
    type V = NamingPolicyView;

    open spec fn view(&self) -> NamingPolicyView {
        NamingPolicyView { prefix: self.prefix@, case: self.case }
    }
}

/// The key with every `-` replaced by `_`.
pub open spec fn sanitized(key: Seq<char>) -> Seq<char> {
    key.map_values(|c: char| if c == '-' { '_' } else { c })
}

/// The sanitized key behind the prefix and a `_`, or alone where the prefix
/// is empty.
pub open spec fn qualified(key: Seq<char>, prefix: Seq<char>) -> Seq<char> {
    if prefix.len() == 0 {
        sanitized(key)
    } else {
        prefix + seq!['_'] + sanitized(key)
    }
}

/// The name in the given case.
pub open spec fn cased(name: Seq<char>, case: CaseTransform) -> Seq<char> {
    match case {
        CaseTransform::Unchanged => name,
        CaseTransform::Lower => lowercase(name),
        CaseTransform::Upper => uppercase(name),
    }
}

/// The name that a key gets under a policy: sanitized, prefixed, and then
/// cased as a whole.
pub open spec fn transformed(key: Seq<char>, policy: NamingPolicyView) -> Seq<char> {
    cased(qualified(key, policy.prefix), policy.case)
}

impl CaseTransform {
    /// Reads the case transform from its command-line word: `lower`, `upper`,
    /// and anything else for none.
    pub fn from_flag(word: &str) -> (case: CaseTransform)
        ensures
            case == if word@ == "lower"@ {
                CaseTransform::Lower
            } else if word@ == "upper"@ {
                CaseTransform::Upper
            } else {
                CaseTransform::Unchanged
            },
    {
        if same_text(word, "lower") {
            CaseTransform::Lower
        } else if same_text(word, "upper") {
            CaseTransform::Upper
        } else {
            CaseTransform::Unchanged
        }
    }
}

/// Replaces every `-` of `key` by `_` and keeps all other characters.
pub fn sanitize_key(key: &str) -> (name: String)
    ensures
        name@ == sanitized(key@),
{
    let mut name = String::new();
    for c in it: key.chars()
        invariant
            it.seq() == key@,
            name@ == sanitized(key@.take(it.index() as int)),
    {
        if c == '-' {
            name.push('_');
        } else {
            name.push(c);
        }
    }
    name
}

/// Sanitizes `key` and puts `prefix` and a `_` before it, unless the prefix
/// is empty.
pub fn qualified_name(key: &str, prefix: &str) -> (name: String)
    ensures
        name@ == qualified(key@, prefix@),
{
    let sanitized_key = sanitize_key(key);
    if prefix.is_empty() {
        sanitized_key
    } else {
        let mut name = String::from_str(prefix);
        name.push('_');
        name.append(sanitized_key.as_str());
        name
    }
}

impl NamingPolicy {
    /// The environment-variable name of `key` under this policy.
    pub fn transform(&self, key: &str) -> (name: String)
        ensures
            name@ == transformed(key@, self@),
    {
        let name = qualified_name(key, self.prefix.as_str());
        match self.case {
            CaseTransform::Unchanged => name,
            CaseTransform::Lower => name.as_str().to_lowercase(),
            CaseTransform::Upper => name.as_str().to_uppercase(),
        }
    }
}

/// Sanitizing a key that holds no `-` leaves it as it is.
pub proof fn lemma_sanitized_is_stable(name: Seq<char>)
    requires
        !name.contains('-'),
    ensures
        sanitized(name) == name,
{
    assert forall|i: int| 0 <= i < name.len() implies sanitized(name)[i] == name[i] by {
        assert(name.contains(name[i]));
    }
    assert(sanitized(name) =~= name);
}

/// Idempotence: under a policy without prefix, a name that holds no `-` and
/// that the policy's case transform leaves as it is, is its own name. So
/// naming an already transformed name of that kind again changes nothing.
/// With a prefix this does not hold: each application puts the prefix
/// before the name once more.
pub proof fn lemma_transform_is_idempotent(name: Seq<char>, policy: NamingPolicyView)
    requires
        policy.prefix.len() == 0,
        !name.contains('-'),
        cased(name, policy.case) == name,
    ensures
        transformed(name, policy) == name,
{
    lemma_sanitized_is_stable(name);
}

/// A policy with this prefix and no case transform.
pub open spec fn plain_policy(prefix: Seq<char>) -> NamingPolicyView {
    NamingPolicyView { prefix, case: CaseTransform::Unchanged }
}

/// Without case transform, a name made under a prefix that holds no `-`
/// holds no `-` either.
pub proof fn lemma_plain_name_has_no_dash(key: Seq<char>, prefix: Seq<char>)
    requires
        !prefix.contains('-'),
    ensures
        !transformed(key, plain_policy(prefix)).contains('-'),
{
    let name = transformed(key, plain_policy(prefix));
    if name.contains('-') {
        let i = choose|i: int| 0 <= i < name.len() && name[i] == '-';
        if prefix.len() > 0 {
            if i < prefix.len() {
                assert(prefix.contains(prefix[i]));
            } else if i > prefix.len() {
                assert(name[i] == sanitized(key)[i - prefix.len() - 1]);
            }
        }
    }
}

/// Idempotence without case transform: a name made under a prefix that holds
/// no `-` is its own name under the policy without prefix. In particular,
/// without prefix, naming a name again changes nothing.
pub proof fn lemma_plain_name_is_stable(key: Seq<char>, prefix: Seq<char>)
    requires
        !prefix.contains('-'),
    ensures
        transformed(transformed(key, plain_policy(prefix)), plain_policy(Seq::empty()))
            == transformed(key, plain_policy(prefix)),
{
    lemma_plain_name_has_no_dash(key, prefix);
    lemma_sanitized_is_stable(transformed(key, plain_policy(prefix)));
}

} // verus!
