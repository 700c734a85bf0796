//! Glob patterns: which paths they match, and where a search for matches starts.

use crate::path::{components_of, FsPath};
use crate::text::chars_of;
use vstd::prelude::*;

verus! {

/// Whether the glob `pattern` matches the path `path`, written with `/`
/// between its components. There is no answer where `pattern` is no glob.
pub uninterp spec fn glob_match(pattern: Seq<char>, path: Seq<char>) -> Option<bool>;

/// Whether `pattern` matches `path`.
///
/// Trusted: stands for `globset::Glob::new` and `globset::GlobSet::is_match`
/// on the set that holds this one glob. A pattern that `globset` refuses gives
/// `None`. Neither text that is let in holds a backslash, which `globset`
/// reads as a separator on some platforms and as an escape on others, so the
/// answer is a function of the two texts alone; the contract gives it the name
/// `glob_match`.
#[verifier::external_body]
pub(crate) fn glob_is_match(pattern: &str, path: &str) -> (answer: Option<bool>)
    requires
        !pattern@.contains('\\'),
        !path@.contains('\\'),
    ensures
        answer == glob_match(pattern@, path@),
{
    let glob = match globset::Glob::new(pattern) {
        Ok(glob) => glob,
        Err(_) => return None,
    };
    match globset::GlobSetBuilder::new().add(glob).build() {
        Ok(set) => Some(set.is_match(path)),
        Err(_) => None,
    }
}

/// Whether the glob `pattern` matches the path `path` on every machine.
///
/// A backslash means different things on different machines. So a glob with a
/// backslash in it counts as no glob, and a path with a backslash in it
/// matches no glob.
pub open spec fn portable_match(pattern: Seq<char>, path: Seq<char>) -> Option<bool> {
    if pattern.contains('\\') {
        None
    } else if path.contains('\\') {
        Some(false)
    } else {
        glob_match(pattern, path)
    }
}

/// Whether `text` holds a backslash.
fn has_backslash(text: &str) -> (r: bool)
    ensures
        r == text@.contains('\\'),
{
    let chars = chars_of(text);
    let mut i: usize = 0;
    while i < chars.len()
        invariant
            i <= chars.len(),
            chars@ == text@,
            forall|k: int| 0 <= k < i ==> chars@[k] != '\\',
        decreases chars.len() - i,
    {
        if chars[i] == '\\' {
            assert(text@[i as int] == '\\');
            return true;
        }
        i += 1;
    }
    false
}

/// Whether the glob `pattern` matches the path `path`, written with `/`
/// between its components. There is no answer where `pattern` is no glob.
pub fn is_match(pattern: &str, path: &str) -> (answer: Option<bool>)
    ensures
        answer == portable_match(pattern@, path@),
{
    if has_backslash(pattern) {
        None
    } else if has_backslash(path) {
        Some(false)
    } else {
        glob_is_match(pattern, path)
    }
}

/// A character that has a meaning of its own in a glob.
pub open spec fn is_glob_special(c: char) -> bool {
    c == '*' || c == '?' || c == '[' || c == ']' || c == '{' || c == '}' || c == '!' || c == '\\'
}

/// A component that a glob matches letter for letter.
pub open spec fn is_literal(component: Seq<char>) -> bool {
    forall|i: int| 0 <= i < component.len() ==> !is_glob_special(#[trigger] component[i])
}

/// The leading components of `components` that are literal.
pub open spec fn literal_prefix(components: Seq<Seq<char>>) -> Seq<Seq<char>>
    decreases components.len(),
{
    if components.len() == 0 || !is_literal(components[0]) {
        Seq::empty()
    } else {
        seq![components[0]] + literal_prefix(components.drop_first())
    }
}

/// The directory, relative to the folder of the config, below which every
/// match of `pattern` lies: the components of the pattern up to the first one
/// that is not literal.
pub open spec fn glob_prefix(pattern: Seq<char>) -> Seq<Seq<char>> {
    literal_prefix(components_of(pattern))
}

/// Whether a glob matches `component` letter for letter.
fn literal(component: &str) -> (r: bool)
    ensures
        r == is_literal(component@),
{
    let chars = chars_of(component);
    let mut i: usize = 0;
    while i < chars.len()
        invariant
            i <= chars.len(),
            chars@ == component@,
            forall|k: int| 0 <= k < i ==> !is_glob_special(#[trigger] chars@[k]),
        decreases chars.len() - i,
    {
        let c = chars[i];
        if c == '*' || c == '?' || c == '[' || c == ']' || c == '{' || c == '}' || c == '!' || c
            == '\\' {
            assert(is_glob_special(component@[i as int]));
            return false;
        }
        i += 1;
    }
    true
}

/// The directory, relative to the folder of the config, below which every
/// match of `pattern` lies.
pub fn get_prefix(pattern: &str) -> (prefix: FsPath)
    ensures
        prefix@ == glob_prefix(pattern@),
{
    let all = FsPath::parse(pattern);
    let mut components: Vec<String> = Vec::new();
    let mut i: usize = 0;
    assert(all@.skip(0) =~= all@);
    while i < all.components.len()
        invariant
            i <= all.components.len(),
            glob_prefix(pattern@) == Seq::new(components@.len(), |k: int| components@[k]@)
                + literal_prefix(all@.skip(i as int)),
            all@ == components_of(pattern@),
        decreases all.components.len() - i,
    {
        let ghost done = Seq::new(components@.len(), |k: int| components@[k]@);
        let ghost rest = all@.skip(i as int);
        assert(rest[0] == all@[i as int]);
        assert(rest.drop_first() =~= all@.skip(i + 1));
        if !literal(all.components[i].as_str()) {
            let prefix = FsPath { components };
            assert(prefix@ =~= glob_prefix(pattern@));
            return prefix;
        }
        components.push(all.components[i].clone());
        assert(Seq::new(components@.len(), |k: int| components@[k]@) =~= done + seq![rest[0]]);
        i += 1;
    }
    assert(all@.skip(all@.len() as int).len() == 0);
    let prefix = FsPath { components };
    assert(prefix@ =~= glob_prefix(pattern@));
    prefix
}

} // verus!
