//! File paths as sequences of components.
//!
//! A path is the list of its components from the outermost inwards. The
//! components `.` and `..` keep their usual meaning; every other component
//! names a file or a directory.

use crate::text::{chars_of, push_text, string_of};
use vstd::prelude::*;

verus! {

/// `base` is a leading part of `path`.
pub open spec fn is_prefix(base: Seq<Seq<char>>, path: Seq<Seq<char>>) -> bool {
    base.len() <= path.len() && path.take(base.len() as int) == base
}

/// The components of `parts` written out with `/` between them.
pub open spec fn joined(parts: Seq<Seq<char>>) -> Seq<char>
    decreases parts.len(),
{
    if parts.len() == 0 {
        Seq::empty()
    } else if parts.len() == 1 {
        parts[0]
    } else {
        joined(parts.drop_last()) + seq!['/'] + parts.last()
    }
}

/// The component `.`, which stands for the directory it is found in.
pub open spec fn is_current(name: Seq<char>) -> bool {
    name == seq!['.']
}

/// The component `..`, which stands for the directory above.
pub open spec fn is_parent(name: Seq<char>) -> bool {
    name == seq!['.', '.']
}

/// The position of the last `.` in `name`, or -1 where it has none.
pub open spec fn last_dot(name: Seq<char>) -> int
    decreases name.len(),
{
    if name.len() == 0 {
        -1
    } else if name.last() == '.' {
        name.len() - 1
    } else {
        last_dot(name.drop_last())
    }
}

/// Whether `name` ends in an extension: it has a `.` that is not its first
/// character, and it is not `..`.
pub open spec fn has_extension(name: Seq<char>) -> bool {
    last_dot(name) > 0 && !is_parent(name)
}

/// The part of `name` before its extension; all of it where it has none.
pub open spec fn stem_of(name: Seq<char>) -> Seq<char> {
    if has_extension(name) {
        name.take(last_dot(name))
    } else {
        name
    }
}

/// The part of `name` after its last `.`, where it has an extension.
pub open spec fn extension_of(name: Seq<char>) -> Option<Seq<char>> {
    if has_extension(name) {
        Some(name.skip(last_dot(name) + 1))
    } else {
        None
    }
}

/// `parts` with each `.` left out and each `..` taken together with the
/// component before it, on top of the components already in `stack`. There is
/// no result where a `..` has nothing before it.
pub open spec fn collapse_onto(stack: Seq<Seq<char>>, parts: Seq<Seq<char>>) -> Option<
    Seq<Seq<char>>,
>
    decreases parts.len(),
{
    if parts.len() == 0 {
        Some(stack)
    } else if is_current(parts[0]) {
        collapse_onto(stack, parts.drop_first())
    } else if is_parent(parts[0]) {
        if stack.len() == 0 {
            None
        } else {
            collapse_onto(stack.drop_last(), parts.drop_first())
        }
    } else {
        collapse_onto(stack.push(parts[0]), parts.drop_first())
    }
}

/// `parts` without its `.` and `..` components.
pub open spec fn collapsed(parts: Seq<Seq<char>>) -> Option<Seq<Seq<char>>> {
    collapse_onto(Seq::empty(), parts)
}

/// `path` with the extension of its last component replaced by `ext`. A path
/// whose last component names no file (none at all, `.` or `..`) stays as it is.
pub open spec fn with_extension_of(path: Seq<Seq<char>>, ext: Seq<char>) -> Seq<Seq<char>> {
    if path.len() == 0 || is_current(path.last()) || is_parent(path.last()) {
        path
    } else {
        path.drop_last().push(stem_of(path.last()) + seq!['.'] + ext)
    }
}

/// Skipping a found `.` does not move the last one before it.
proof fn lemma_last_dot_bounds(name: Seq<char>)
    ensures
        -1 <= last_dot(name) < name.len(),
        last_dot(name) >= 0 ==> name[last_dot(name)] == '.',
        forall|j: int| last_dot(name) < j < name.len() ==> name[j] != '.',
    decreases name.len(),
{
    if name.len() > 0 && name.last() != '.' {
        let rest = name.drop_last();
        lemma_last_dot_bounds(rest);
        assert forall|j: int| last_dot(name) < j < name.len() implies name[j] != '.' by {
            if j < name.len() - 1 {
                assert(rest[j] == name[j]);
            }
        }
    }
}

/// The last `.` of `name` is at `i` when `name` has one there and none after.
proof fn lemma_last_dot_at(name: Seq<char>, i: int)
    requires
        -1 <= i < name.len(),
        i >= 0 ==> name[i] == '.',
        forall|j: int| i < j < name.len() ==> name[j] != '.',
    ensures
        last_dot(name) == i,
    decreases name.len(),
{
    if name.len() > 0 && i < name.len() - 1 {
        let rest = name.drop_last();
        assert forall|j: int| i < j < rest.len() implies rest[j] != '.' by {
            assert(rest[j] == name[j]);
        }
        if i >= 0 {
            assert(rest[i] == name[i]);
        }
        lemma_last_dot_at(rest, i);
    }
}

/// The pieces of `current` followed by `text`, cut at each `/`, without the
/// empty ones. `current` is the start of a piece and holds no `/`.
pub open spec fn split_after(current: Seq<char>, text: Seq<char>) -> Seq<Seq<char>>
    decreases text.len(),
{
    let ended = if current.len() == 0 {
        Seq::<Seq<char>>::empty()
    } else {
        seq![current]
    };
    if text.len() == 0 {
        ended
    } else if text[0] == '/' {
        ended + split_after(Seq::empty(), text.drop_first())
    } else {
        split_after(current.push(text[0]), text.drop_first())
    }
}

/// The components of `text`: its pieces between `/`, without the empty ones.
pub open spec fn components_of(text: Seq<char>) -> Seq<Seq<char>> {
    split_after(Seq::empty(), text)
}

/// A file path.
#[derive(Debug, PartialEq, Eq)]
pub struct FsPath {
    pub components: Vec<String>,
}

impl View for FsPath {
    type V = Seq<Seq<char>>;

    open spec fn view(&self) -> Seq<Seq<char>> {
        Seq::new(self.components@.len(), |i: int| self.components@[i]@)
    }
}

impl Clone for FsPath {
    fn clone(&self) -> (copy: Self)
        ensures
            copy@ == self@,
    {
        let mut components: Vec<String> = Vec::new();
        let mut i: usize = 0;
        while i < self.components.len()
            invariant
                i <= self.components.len(),
                components@.len() == i,
                forall|j: int| 0 <= j < i ==> components@[j]@ == self.components@[j]@,
            decreases self.components.len() - i,
        {
            components.push(self.components[i].clone());
            i += 1;
        }
        let copy = FsPath { components };
        assert(copy@ =~= self@);
        copy
    }
}

/// Where the last `.` of `name` stands, with `name.len()` for "nowhere".
fn find_last_dot(name: &Vec<char>) -> (at: usize)
    ensures
        at == if last_dot(name@) < 0 {
            name@.len() as int
        } else {
            last_dot(name@)
        },
{
    let mut i: usize = name.len();
    while i > 0
        invariant
            i <= name.len(),
            forall|j: int| i <= j < name.len() ==> name@[j] != '.',
        decreases i,
    {
        if name[i - 1] == '.' {
            proof {
                lemma_last_dot_at(name@, i - 1);
            }
            return i - 1;
        }
        i -= 1;
    }
    proof {
        lemma_last_dot_at(name@, -1);
    }
    name.len()
}

/// Whether `name` is the component `..`.
fn names_parent(name: &Vec<char>) -> (r: bool)
    ensures
        r == is_parent(name@),
{
    let r = name.len() == 2 && name[0] == '.' && name[1] == '.';
    proof {
        if r {
            assert(name@ =~= seq!['.', '.']);
        } else if name@.len() == 2 {
            assert(seq!['.', '.'][0] == '.' && seq!['.', '.'][1] == '.');
        } else {
            assert(seq!['.', '.'].len() == 2);
        }
    }
    r
}

/// Whether `name` is the component `.`.
fn names_current(name: &Vec<char>) -> (r: bool)
    ensures
        r == is_current(name@),
{
    let r = name.len() == 1 && name[0] == '.';
    proof {
        if r {
            assert(name@ =~= seq!['.']);
        } else if name@.len() == 1 {
            assert(seq!['.'][0] == '.');
        } else {
            assert(seq!['.'].len() == 1);
        }
    }
    r
}

/// The length of the stem of `name`, and whether an extension follows it.
fn split_name(name: &Vec<char>) -> (r: (usize, bool))
    ensures
        r.1 == has_extension(name@),
        r.0 == stem_of(name@).len(),
        r.0 <= name@.len(),
        r.1 ==> r.0 == last_dot(name@),
        r.1 ==> r.0 < name@.len(),
{
    let at = find_last_dot(name);
    proof {
        lemma_last_dot_bounds(name@);
    }
    if at > 0 && at < name.len() && !names_parent(name) {
        (at, true)
    } else {
        (name.len(), false)
    }
}

/// The component `name` without its extension.
pub fn stem(name: &str) -> (stem: String)
    ensures
        stem@ == stem_of(name@),
{
    let name = chars_of(name);
    let (cut, _) = split_name(&name);
    let mut out: Vec<char> = Vec::new();
    let mut i: usize = 0;
    while i < cut
        invariant
            i <= cut <= name.len(),
            out@ == name@.take(i as int),
        decreases cut - i,
    {
        out.push(name[i]);
        assert(name@.take(i + 1) =~= name@.take(i as int).push(name@[i as int]));
        i += 1;
    }
    proof {
        if !has_extension(name@) {
            assert(name@.take(name@.len() as int) == name@);
        }
    }
    string_of(&out)
}

impl FsPath {
    /// The path that `text` spells with `/` between its components. Empty
    /// components, as before a leading `/` or between two, are left out.
    pub fn parse(text: &str) -> (path: FsPath)
        ensures
            path@ == components_of(text@),
    {
        let chars = chars_of(text);
        let mut components: Vec<String> = Vec::new();
        let mut current: Vec<char> = Vec::new();
        let mut i: usize = 0;
        assert(chars@.skip(0) =~= chars@);
        while i < chars.len()
            invariant
                i <= chars.len(),
                components_of(chars@) == Seq::new(components@.len(), |k: int| components@[k]@)
                    + split_after(current@, chars@.skip(i as int)),
            decreases chars.len() - i,
        {
            let ghost done = Seq::new(components@.len(), |k: int| components@[k]@);
            let ghost rest = chars@.skip(i as int);
            assert(rest[0] == chars@[i as int]);
            assert(rest.drop_first() =~= chars@.skip(i + 1));
            let ghost tail = split_after(Seq::empty(), rest.drop_first());
            if chars[i] == '/' {
                if current.len() > 0 {
                    components.push(string_of(&current));
                    assert(Seq::new(components@.len(), |k: int| components@[k]@) =~= done + seq![
                        current@,
                    ]);
                    assert((done + seq![current@]) + tail =~= done + (seq![current@] + tail));
                    current = Vec::new();
                } else {
                    assert(done + (Seq::<Seq<char>>::empty() + tail) =~= done + tail);
                }
                assert(current@ =~= Seq::<char>::empty());
            } else {
                current.push(chars[i]);
            }
            i += 1;
        }
        let ghost done = Seq::new(components@.len(), |k: int| components@[k]@);
        assert(chars@.skip(chars@.len() as int).len() == 0);
        if current.len() > 0 {
            components.push(string_of(&current));
            assert(Seq::new(components@.len(), |k: int| components@[k]@) =~= done + seq![current@]);
        }
        let path = FsPath { components };
        assert(path@ =~= components_of(text@));
        path
    }

    /// The path made of `components`, outermost first.
    pub fn new(components: Vec<String>) -> (path: FsPath)
        ensures
            path.components == components,
    {
        FsPath { components }
    }

    /// The number of components.
    pub fn len(&self) -> (n: usize)
        ensures
            n == self@.len(),
    {
        self.components.len()
    }

    /// Whether two paths have the same components.
    pub fn same(&self, other: &FsPath) -> (r: bool)
        ensures
            r == (self@ == other@),
    {
        if self.components.len() != other.components.len() {
            assert(self@.len() != other@.len());
            return false;
        }
        let mut i: usize = 0;
        while i < self.components.len()
            invariant
                i <= self.components.len(),
                self.components.len() == other.components.len(),
                forall|j: int| 0 <= j < i ==> self@[j] == other@[j],
            decreases self.components.len() - i,
        {
            if self.components[i] != other.components[i] {
                assert(self@[i as int] != other@[i as int]);
                return false;
            }
            i += 1;
        }
        assert(self@ =~= other@);
        true
    }

    /// Whether this path lies at or beneath `base`.
    pub fn starts_with(&self, base: &FsPath) -> (r: bool)
        ensures
            r == is_prefix(base@, self@),
    {
        if base.components.len() > self.components.len() {
            return false;
        }
        let mut i: usize = 0;
        while i < base.components.len()
            invariant
                i <= base.components.len(),
                base.components.len() <= self.components.len(),
                forall|j: int| 0 <= j < i ==> self@[j] == base@[j],
            decreases base.components.len() - i,
        {
            if self.components[i] != base.components[i] {
                assert(self@.take(base@.len() as int)[i as int] != base@[i as int]);
                return false;
            }
            i += 1;
        }
        assert(self@.take(base@.len() as int) =~= base@);
        true
    }

    /// This path relative to `base`, where it lies at or beneath `base`.
    pub fn strip_prefix(&self, base: &FsPath) -> (rest: Option<FsPath>)
        ensures
            rest is Some <==> is_prefix(base@, self@),
            rest matches Some(r) ==> r@ == self@.skip(base@.len() as int),
    {
        if !self.starts_with(base) {
            return None;
        }
        let mut components: Vec<String> = Vec::new();
        let mut i: usize = base.components.len();
        while i < self.components.len()
            invariant
                base.components.len() <= i <= self.components.len(),
                components@.len() == i - base.components.len(),
                forall|j: int|
                    0 <= j < components@.len() ==> components@[j]@ == self@[j
                        + base.components.len()],
            decreases self.components.len() - i,
        {
            components.push(self.components[i].clone());
            i += 1;
        }
        let rest = FsPath { components };
        assert(rest@ =~= self@.skip(base@.len() as int));
        Some(rest)
    }

    /// The components of this path followed by those of `other`.
    pub fn join(&self, other: &FsPath) -> (path: FsPath)
        ensures
            path@ == self@ + other@,
    {
        let mut path = self.clone();
        let mut i: usize = 0;
        while i < other.components.len()
            invariant
                i <= other.components.len(),
                path@ == self@ + other@.take(i as int),
            decreases other.components.len() - i,
        {
            let ghost before = path@;
            path.components.push(other.components[i].clone());
            assert(path@ =~= before.push(other@[i as int]));
            assert(other@.take(i + 1) =~= other@.take(i as int).push(other@[i as int]));
            assert(path@ =~= self@ + other@.take(i + 1));
            i += 1;
        }
        assert(other@.take(other@.len() as int) == other@);
        path
    }

    /// The path written out with `/` between its components.
    pub fn display(&self) -> (text: String)
        ensures
            text@ == joined(self@),
    {
        let mut out: Vec<char> = Vec::new();
        let mut i: usize = 0;
        while i < self.components.len()
            invariant
                i <= self.components.len(),
                out@ == joined(self@.take(i as int)),
            decreases self.components.len() - i,
        {
            if i > 0 {
                out.push('/');
            }
            push_text(&mut out, self.components[i].as_str());
            proof {
                let next = self@.take(i + 1);
                assert(next.drop_last() =~= self@.take(i as int));
                assert(next.last() == self@[i as int]);
                if i == 0 {
                    assert(out@ =~= next[0]);
                } else {
                    assert(out@ =~= joined(next.drop_last()) + seq!['/'] + next.last());
                }
            }
            i += 1;
        }
        assert(self@.take(self@.len() as int) == self@);
        string_of(&out)
    }

    /// The last component without its extension, where the path has a last
    /// component.
    pub fn file_stem(&self) -> (stem: Option<String>)
        ensures
            stem is Some <==> self@.len() > 0,
            stem matches Some(s) ==> s@ == stem_of(self@.last()),
    {
        let n = self.components.len();
        if n == 0 {
            return None;
        }
        Some(stem(self.components[n - 1].as_str()))
    }

    /// The extension of the last component, where it has one.
    pub fn extension(&self) -> (ext: Option<String>)
        ensures
            match ext {
                Some(e) => self@.len() > 0 && extension_of(self@.last()) == Some(e@),
                None => self@.len() == 0 || extension_of(self@.last()) is None,
            },
    {
        let n = self.components.len();
        if n == 0 {
            return None;
        }
        let name = chars_of(self.components[n - 1].as_str());
        let (cut, found) = split_name(&name);
        if !found {
            return None;
        }
        let end = name.len();
        let mut out: Vec<char> = Vec::new();
        let mut i: usize = cut + 1;
        while i < end
            invariant
                end == name.len(),
                cut + 1 <= i <= end,
                out@ == name@.subrange(cut + 1, i as int),
            decreases end - i,
        {
            out.push(name[i]);
            assert(name@.subrange(cut + 1, i + 1) =~= name@.subrange(cut + 1, i as int).push(
                name@[i as int],
            ));
            i += 1;
        }
        Some(string_of(&out))
    }

    /// This path with the extension of its last component replaced by `ext`.
    pub fn with_extension(&self, ext: &str) -> (path: FsPath)
        ensures
            path@ == with_extension_of(self@, ext@),
    {
        let n = self.components.len();
        if n == 0 {
            return self.clone();
        }
        let name = chars_of(self.components[n - 1].as_str());
        if names_current(&name) || names_parent(&name) {
            return self.clone();
        }
        let (cut, _) = split_name(&name);
        let mut out: Vec<char> = Vec::new();
        let mut i: usize = 0;
        while i < cut
            invariant
                i <= cut <= name.len(),
                out@ == name@.take(i as int),
            decreases cut - i,
        {
            out.push(name[i]);
            assert(name@.take(i + 1) =~= name@.take(i as int).push(name@[i as int]));
            i += 1;
        }
        proof {
            if !has_extension(name@) {
                assert(name@.take(name@.len() as int) == name@);
            }
        }
        out.push('.');
        push_text(&mut out, ext);
        let mut components: Vec<String> = Vec::new();
        let mut k: usize = 0;
        while k < n - 1
            invariant
                k <= n - 1,
                n == self.components.len(),
                components@.len() == k,
                forall|j: int| 0 <= j < k ==> components@[j]@ == self@[j],
            decreases n - 1 - k,
        {
            components.push(self.components[k].clone());
            k += 1;
        }
        components.push(string_of(&out));
        let path = FsPath { components };
        proof {
            let last = self@.last();
            assert(name@ == last);
            assert(out@ == stem_of(last) + seq!['.'] + ext@);
            let wanted = self@.drop_last().push(stem_of(last) + seq!['.'] + ext@);
            assert(path@.len() == wanted.len());
            assert forall|j: int| 0 <= j < path@.len() implies path@[j] == wanted[j] by {
                if j < n - 1 {
                    assert(wanted[j] == self@[j]);
                }
            }
            assert(path@ =~= wanted);
        }
        path
    }

    /// This path without its `.` and `..` components, where no `..` reaches
    /// above the start of the path.
    pub fn collapse(&self) -> (path: Option<FsPath>)
        ensures
            match path {
                Some(p) => collapsed(self@) == Some(p@),
                None => collapsed(self@) is None,
            },
    {
        let mut stack: Vec<String> = Vec::new();
        let mut i: usize = 0;
        assert(Seq::new(stack@.len(), |j: int| stack@[j]@) =~= Seq::<Seq<char>>::empty());
        assert(self@.skip(0) =~= self@);
        while i < self.components.len()
            invariant
                i <= self.components.len(),
                collapsed(self@) == collapse_onto(
                    Seq::new(stack@.len(), |j: int| stack@[j]@),
                    self@.skip(i as int),
                ),
            decreases self.components.len() - i,
        {
            let ghost before = Seq::new(stack@.len(), |j: int| stack@[j]@);
            let ghost rest = self@.skip(i as int);
            assert(rest[0] == self@[i as int]);
            assert(rest.drop_first() =~= self@.skip(i + 1));
            let name = chars_of(self.components[i].as_str());
            if names_current(&name) {
            } else if names_parent(&name) {
                if stack.len() == 0 {
                    return None;
                }
                stack.pop();
                assert(Seq::new(stack@.len(), |j: int| stack@[j]@) =~= before.drop_last());
            } else {
                stack.push(self.components[i].clone());
                assert(Seq::new(stack@.len(), |j: int| stack@[j]@) =~= before.push(rest[0]));
            }
            i += 1;
        }
        let path = FsPath { components: stack };
        assert(self@.skip(self@.len() as int).len() == 0);
        assert(path@ =~= Seq::new(stack@.len(), |j: int| stack@[j]@));
        Some(path)
    }
}

} // verus!
