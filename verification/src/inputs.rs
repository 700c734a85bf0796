//! Discovery of inputs: which of the files that were found become inputs of
//! the sync, and under which names.

use crate::asset_name::{asset_name_of, AssetName};
use crate::data::{ConfigError, ConfigView, Error, InputConfigView};
use crate::glob::{is_match, portable_match};
use crate::path::{is_prefix, FsPath};
use crate::sorted::{
    lemma_map_pairs_put, lemma_map_pairs_rank, lemma_put_lookup, lemma_put_sorted,
    lemma_rank, lemma_sorted_canonical, lookup, map_pairs, put, sorted,
};
use crate::sync::{configs_view, index_view, SyncInput, SyncInputView, SyncSession};
use crate::text::chars_of;
use vstd::prelude::*;
use vstd::seq_lib::{to_multiset_contains, to_multiset_remove};

verus! {

/// A file or directory that a search for inputs came across.
#[derive(Debug, PartialEq, Eq)]
pub struct FoundPath {
    /// The config and the declaration of inputs that the search was for.
    pub config_index: (usize, usize),
    /// The path of what was found.
    pub path: FsPath,
}

/// What a `FoundPath` says.
pub struct FoundView {
    pub config_index: (usize, usize),
    pub path: Seq<Seq<char>>,
}

impl View for FoundPath {
    type V = FoundView;

    open spec fn view(&self) -> FoundView {
        FoundView { config_index: self.config_index, path: self.path@ }
    }
}

/// What each of `found` says.
pub open spec fn found_view(found: Seq<FoundPath>) -> Seq<FoundView> {
    Seq::new(found.len(), |i: int| found[i]@)
}

/// One step of a walk through the directories: a file or directory that the
/// walk came across, or a place that it could not get into.
#[derive(Debug, PartialEq, Eq)]
pub enum WalkEntry {
    /// What the walk came across.
    Found(FoundPath),
    /// The walk failed, for the reason given.
    Failed(String),
}

/// What a `WalkEntry` says.
pub enum WalkView {
    Found(FoundView),
    Failed(Seq<char>),
}

impl View for WalkEntry {
    type V = WalkView;

    open spec fn view(&self) -> WalkView {
        match self {
            WalkEntry::Found(found) => WalkView::Found(found@),
            WalkEntry::Failed(reason) => WalkView::Failed(reason@),
        }
    }
}

/// What each of `entries` says.
pub open spec fn walk_view(entries: Seq<WalkEntry>) -> Seq<WalkView> {
    Seq::new(entries.len(), |i: int| entries[i]@)
}

/// The declaration of inputs that `index` names.
pub open spec fn declaration(configs: Seq<ConfigView>, index: (usize, usize)) -> InputConfigView {
    configs[index.0 as int].inputs[index.1 as int]
}

/// `f` was found by a search for a declaration that is there, at or below the
/// folder of its config.
pub open spec fn found_in_place(configs: Seq<ConfigView>, f: FoundView) -> bool {
    &&& f.config_index.0 < configs.len()
    &&& f.config_index.1 < configs[f.config_index.0 as int].inputs.len()
    &&& is_prefix(configs[f.config_index.0 as int].folder, f.path)
}

/// The asset name that `f` would have as an input.
pub open spec fn found_name(configs: Seq<ConfigView>, f: FoundView) -> Seq<char> {
    asset_name_of(configs[f.config_index.0 as int].folder, f.path)
}

/// Whether `f` becomes an input: its path below the folder of its config,
/// written with `/`, matches the glob of its declaration. There is no answer
/// where the glob of the declaration is no glob.
pub open spec fn accepts(configs: Seq<ConfigView>, f: FoundView) -> Option<bool> {
    portable_match(declaration(configs, f.config_index).glob, found_name(configs, f))
}

/// The input that `f` becomes: nothing is known of its contents yet.
pub open spec fn fresh_input(f: FoundView) -> SyncInputView {
    SyncInputView { path: f.path, config_index: f.config_index, hash: None, id: None }
}

/// How a discovery of inputs ends.
pub enum Discovery {
    /// With these inputs, by name.
    Inputs(Seq<(Seq<char>, SyncInputView)>),
    /// At a declaration whose glob, given here, is no glob.
    BadGlob(Seq<char>),
    /// At a file whose name another input has already; given is the path of
    /// that other input.
    Overlap(Seq<Seq<char>>),
    /// At a place that the walk could not get into, for the reason given.
    WalkFailed(Seq<char>),
}

/// How the discovery goes on from the inputs `so_far` with the file `f`: the
/// file becomes an input where it matches the glob it was found for, unless
/// another input has its name already.
pub open spec fn registered(
    configs: Seq<ConfigView>,
    so_far: Seq<(Seq<char>, SyncInputView)>,
    f: FoundView,
) -> Discovery {
    match accepts(configs, f) {
        None => Discovery::BadGlob(declaration(configs, f.config_index).glob),
        Some(false) => Discovery::Inputs(so_far),
        Some(true) => match lookup(so_far, found_name(configs, f)) {
            Some(earlier) => Discovery::Overlap(earlier.path),
            None => Discovery::Inputs(put(so_far, found_name(configs, f), fresh_input(f))),
        },
    }
}

/// How the discovery ends that starts from the inputs `index` and goes
/// through the first `n` of `found` in order.
pub open spec fn discovered(
    configs: Seq<ConfigView>,
    index: Seq<(Seq<char>, SyncInputView)>,
    found: Seq<FoundView>,
    n: int,
) -> Discovery
    decreases n,
{
    if n <= 0 {
        Discovery::Inputs(index)
    } else {
        match discovered(configs, index, found, n - 1) {
            Discovery::Inputs(so_far) => registered(configs, so_far, found[n - 1]),
            ended => ended,
        }
    }
}

/// How the discovery ends that starts from the inputs `index` and goes
/// through the first `n` steps of the walk `entries` in order: as the
/// discovery through the files that the walk came across, unless the walk
/// fails first.
pub open spec fn walked(
    configs: Seq<ConfigView>,
    index: Seq<(Seq<char>, SyncInputView)>,
    entries: Seq<WalkView>,
    n: int,
) -> Discovery
    decreases n,
{
    if n <= 0 {
        Discovery::Inputs(index)
    } else {
        match walked(configs, index, entries, n - 1) {
            Discovery::Inputs(so_far) => match entries[n - 1] {
                WalkView::Found(f) => registered(configs, so_far, f),
                WalkView::Failed(reason) => Discovery::WalkFailed(reason),
            },
            ended => ended,
        }
    }
}

/// What an input says, as a function.
pub open spec fn input_view() -> spec_fn(SyncInput) -> SyncInputView {
    |input: SyncInput| input@
}

impl SyncSession {
    /// Makes inputs of the files that the walk `entries` came across and that
    /// match the glob of the declaration they were found for, each under the
    /// name that its path below the folder of its config gives it.
    ///
    /// The steps of the walk are taken in order. The discovery ends at the
    /// first place that the walk could not get into, at the first file whose
    /// name another input has already, with the path of that other input in
    /// the error, and at the first declaration whose glob is no glob. The
    /// files before that step have become inputs then, and no other.
    pub fn discover_inputs(&mut self, entries: &Vec<WalkEntry>) -> (result: Result<(), Error>)
        requires
            old(self).wf(),
            forall|i: int|
                0 <= i < entries@.len() ==> (#[trigger] entries@[i] matches WalkEntry::Found(f)
                    ==> found_in_place(configs_view(old(self).configs@), f@)),
        ensures
            final(self).wf(),
            final(self).configs == old(self).configs,
            final(self).original_manifest == old(self).original_manifest,
            final(self).to_search == old(self).to_search,
            final(self).searching == old(self).searching,
            final(self).searched == old(self).searched,
            match result {
                Ok(()) => walked(
                    configs_view(old(self).configs@),
                    index_view(old(self).inputs.model()),
                    walk_view(entries@),
                    entries@.len() as int,
                ) == Discovery::Inputs(index_view(final(self).inputs.model())),
                Err(Error::OverlappingGlobs { path }) => walked(
                    configs_view(old(self).configs@),
                    index_view(old(self).inputs.model()),
                    walk_view(entries@),
                    entries@.len() as int,
                ) == Discovery::Overlap(path@),
                Err(Error::Config { source: ConfigError::Invalid(glob) }) => walked(
                    configs_view(old(self).configs@),
                    index_view(old(self).inputs.model()),
                    walk_view(entries@),
                    entries@.len() as int,
                ) == Discovery::BadGlob(glob@),
                Err(Error::WalkDir { source }) => walked(
                    configs_view(old(self).configs@),
                    index_view(old(self).inputs.model()),
                    walk_view(entries@),
                    entries@.len() as int,
                ) == Discovery::WalkFailed(source@),
                Err(_) => false,
            },
            result is Err ==> exists|k: int|
                0 <= k < entries@.len() && #[trigger] walked(
                    configs_view(old(self).configs@),
                    index_view(old(self).inputs.model()),
                    walk_view(entries@),
                    k,
                ) == Discovery::Inputs(index_view(final(self).inputs.model())),
    {
        let ghost configs = configs_view(self.configs@);
        let ghost start = index_view(self.inputs.model());
        let ghost all = walk_view(entries@);
        let mut i: usize = 0;
        while i < entries.len()
            invariant
                i <= entries.len(),
                self.wf(),
                self.configs == old(self).configs,
                self.original_manifest == old(self).original_manifest,
                self.to_search == old(self).to_search,
                self.searching == old(self).searching,
                self.searched == old(self).searched,
                configs == configs_view(self.configs@),
                start == index_view(old(self).inputs.model()),
                all == walk_view(entries@),
                forall|k: int|
                    0 <= k < entries@.len() ==> (#[trigger] entries@[k] matches WalkEntry::Found(f)
                        ==> found_in_place(configs, f@)),
                walked(configs, start, all, i as int) == Discovery::Inputs(
                    index_view(self.inputs.model()),
                ),
            decreases entries.len() - i,
        {
            assert(all[i as int] == entries@[i as int]@);
            let f = match &entries[i] {
                WalkEntry::Found(f) => f,
                WalkEntry::Failed(reason) => {
                    proof {
                        assert(walked(configs, start, all, i + 1) == Discovery::WalkFailed(reason@));
                        lemma_walked_ends(configs, start, all, i + 1, entries@.len() as int);
                    }
                    return Err(Error::WalkDir { source: reason.clone() });
                },
            };
            assert(found_in_place(configs, f@));
            let ghost so_far = index_view(self.inputs.model());
            let ghost model = self.inputs.model();
            assert(so_far =~= map_pairs(model, input_view()));
            let config = &self.configs[f.config_index.0];
            assert(configs[f.config_index.0 as int] == config@);
            let declared = &config.inputs[f.config_index.1];
            assert(declaration(configs, f.config_index) == declared@);
            let name = AssetName::from_paths(&config.folder, &f.path);
            assert(name@ == found_name(configs, f@));
            match is_match(declared.glob.as_str(), name.as_str()) {
                None => {
                    proof {
                        assert(accepts(configs, f@) is None);
                        assert(walked(configs, start, all, i + 1) == Discovery::BadGlob(
                            declared@.glob,
                        ));
                        lemma_walked_ends(configs, start, all, i + 1, entries@.len() as int);
                    }
                    return Err(
                        Error::Config { source: ConfigError::Invalid(declared.glob.clone()) },
                    );
                },
                Some(false) => {},
                Some(true) => {
                    let key = chars_of(name.as_str());
                    let (at, present) = self.inputs.search(&key);
                    proof {
                        lemma_map_pairs_rank(model, input_view(), key@);
                        lemma_rank(model, key@);
                    }
                    if present {
                        let earlier = self.inputs.value_at(at).path.clone();
                        proof {
                            assert(so_far[at as int].1 == model[at as int].1@);
                            assert(accepts(configs, f@) == Some(true));
                            assert(lookup(so_far, key@) == Some(so_far[at as int].1));
                            assert(walked(configs, start, all, i + 1) == Discovery::Overlap(
                                earlier@,
                            ));
                            lemma_walked_ends(configs, start, all, i + 1, entries@.len() as int);
                        }
                        return Err(Error::OverlappingGlobs { path: earlier });
                    }
                    let input = SyncInput {
                        path: f.path.clone(),
                        config_index: f.config_index,
                        hash: None,
                        id: None,
                    };
                    assert(input@ == fresh_input(f@));
                    self.inputs.insert(name.text, input);
                    proof {
                        lemma_map_pairs_put(model, input_view(), key@, input);
                        assert(index_view(self.inputs.model()) =~= map_pairs(
                            self.inputs.model(),
                            input_view(),
                        ));
                        let after = self.inputs.model();
                        assert forall|k: int| 0 <= k < after.len() implies self.names_declaration(
                            (#[trigger] after[k]).1.config_index,
                        ) by {
                            if k < at {
                                assert(after[k] == model[k]);
                            } else if k > at {
                                assert(after[k] == model[k - 1]);
                            }
                        }
                    }
                },
            }
            i += 1;
        }
        Ok(())
    }
}

/// A walk that has ended stays ended, whatever comes later.
pub proof fn lemma_walked_ends(
    configs: Seq<ConfigView>,
    index: Seq<(Seq<char>, SyncInputView)>,
    entries: Seq<WalkView>,
    n: int,
    m: int,
)
    requires
        n <= m,
        !(walked(configs, index, entries, n) is Inputs),
    ensures
        walked(configs, index, entries, m) == walked(configs, index, entries, n),
    decreases m - n,
{
    if n < m {
        lemma_walked_ends(configs, index, entries, n, m - 1);
    }
}

/// A walk that fails nowhere ends as the discovery through the files that it
/// came across.
pub proof fn lemma_walked_is_discovered(
    configs: Seq<ConfigView>,
    index: Seq<(Seq<char>, SyncInputView)>,
    entries: Seq<WalkView>,
    found: Seq<FoundView>,
    n: int,
)
    requires
        0 <= n <= entries.len(),
        entries.len() == found.len(),
        forall|k: int| 0 <= k < n ==> #[trigger] entries[k] == WalkView::Found(found[k]),
    ensures
        walked(configs, index, entries, n) == discovered(configs, index, found, n),
    decreases n,
{
    if n > 0 {
        lemma_walked_is_discovered(configs, index, entries, found, n - 1);
        assert(entries[n - 1] == WalkView::Found(found[n - 1]));
    }
}

/// A walk that fails somewhere does not end with inputs.
pub proof fn lemma_failed_walk_fails(
    configs: Seq<ConfigView>,
    index: Seq<(Seq<char>, SyncInputView)>,
    entries: Seq<WalkView>,
    k: int,
    n: int,
)
    requires
        0 <= k < n,
        entries[k] is Failed,
    ensures
        !(walked(configs, index, entries, n) is Inputs),
    decreases n - k,
{
    if n > k + 1 {
        lemma_failed_walk_fails(configs, index, entries, k, n - 1);
    }
}

/// A discovery that has ended stays ended, whatever is found later.
pub proof fn lemma_discovered_ends(
    configs: Seq<ConfigView>,
    index: Seq<(Seq<char>, SyncInputView)>,
    found: Seq<FoundView>,
    n: int,
    m: int,
)
    requires
        n <= m,
        !(discovered(configs, index, found, n) is Inputs),
    ensures
        discovered(configs, index, found, m) == discovered(configs, index, found, n),
    decreases m - n,
{
    if n < m {
        lemma_discovered_ends(configs, index, found, n, m - 1);
    }
}

/// The file at position `k` of `found` matches the glob it was found for.
pub open spec fn accepted(configs: Seq<ConfigView>, found: Seq<FoundView>, k: int) -> bool {
    accepts(configs, found[k]) == Some(true)
}

/// Every declaration for which one of the first `n` of `found` was found has
/// a glob that is a glob.
pub open spec fn globs_valid(configs: Seq<ConfigView>, found: Seq<FoundView>, n: int) -> bool {
    forall|k: int| 0 <= k < n ==> (#[trigger] accepts(configs, found[k])) is Some
}

/// Two files among the first `n` of `found` collide: they stand at the
/// different positions `a` and `b`, both match their globs, and both get the
/// same asset name.
pub open spec fn collide(
    configs: Seq<ConfigView>,
    found: Seq<FoundView>,
    n: int,
    a: int,
    b: int,
) -> bool {
    &&& 0 <= a < b < n
    &&& accepted(configs, found, a)
    &&& accepted(configs, found, b)
    &&& found_name(configs, found[a]) == found_name(configs, found[b])
}

/// No two files among the first `n` of `found` collide.
pub open spec fn names_distinct(configs: Seq<ConfigView>, found: Seq<FoundView>, n: int) -> bool {
    forall|a: int, b: int| !#[trigger] collide(configs, found, n, a, b)
}

/// `index` holds the files among the first `n` of `found` that match their
/// globs, each under its name and as a fresh input, and nothing else.
pub open spec fn holds_accepted(
    configs: Seq<ConfigView>,
    index: Seq<(Seq<char>, SyncInputView)>,
    found: Seq<FoundView>,
    n: int,
) -> bool {
    &&& sorted(index)
    &&& forall|k: int|
        0 <= k < n && #[trigger] accepted(configs, found, k) ==> lookup(
            index,
            found_name(configs, found[k]),
        ) == Some(fresh_input(found[k]))
    &&& forall|name: Seq<char>|
        (#[trigger] lookup(index, name)) is Some ==> exists|k: int|
            0 <= k < n && #[trigger] accepted(configs, found, k) && found_name(configs, found[k])
                == name
}

/// How a discovery from no inputs ends, told without the order of its steps.
///
/// Where every glob is a glob, the discovery ends either with exactly the
/// files that match, none of which collide, or at a collision, with the path
/// of the file of a colliding pair that was found first.
pub proof fn lemma_discovered(configs: Seq<ConfigView>, found: Seq<FoundView>, n: int)
    requires
        0 <= n <= found.len(),
        globs_valid(configs, found, n),
    ensures
        match discovered(configs, Seq::empty(), found, n) {
            Discovery::Inputs(index) => {
                &&& names_distinct(configs, found, n)
                &&& holds_accepted(configs, index, found, n)
            },
            Discovery::Overlap(path) => exists|a: int, b: int|
                #[trigger] collide(configs, found, n, a, b) && path == found[a].path,
            Discovery::BadGlob(_) => false,
            Discovery::WalkFailed(_) => false,
        },
    decreases n,
{
    let empty = Seq::<(Seq<char>, SyncInputView)>::empty();
    if n == 0 {
        assert forall|name: Seq<char>| (#[trigger] lookup(empty, name)) is None by {
            lemma_rank(empty, name);
        }
    } else {
        assert(globs_valid(configs, found, n - 1)) by {
            assert forall|k: int| 0 <= k < n - 1 implies (#[trigger] accepts(
                configs,
                found[k],
            )) is Some by {}
        }
        lemma_discovered(configs, found, n - 1);
        let f = found[n - 1];
        let name = found_name(configs, f);
        assert(accepts(configs, found[n - 1]) is Some);
        match discovered(configs, empty, found, n - 1) {
            Discovery::Inputs(so_far) => {
                if accepts(configs, f) == Some(true) {
                    assert(accepted(configs, found, n - 1));
                    match lookup(so_far, name) {
                        Some(earlier) => {
                            let k = choose|k: int|
                                0 <= k < n - 1 && #[trigger] accepted(configs, found, k)
                                    && found_name(configs, found[k]) == name;
                            assert(collide(configs, found, n, k, n - 1));
                        },
                        None => {
                            let index = put(so_far, name, fresh_input(f));
                            lemma_put_sorted(so_far, name, fresh_input(f));
                            assert forall|a: int, b: int| !#[trigger] collide(
                                configs,
                                found,
                                n,
                                a,
                                b,
                            ) by {
                                if collide(configs, found, n, a, b) {
                                    if b < n - 1 {
                                        assert(collide(configs, found, n - 1, a, b));
                                    } else {
                                        assert(accepted(configs, found, a));
                                    }
                                }
                            }
                            assert forall|k: int|
                                0 <= k < n && #[trigger] accepted(configs, found, k) implies lookup(
                                index,
                                found_name(configs, found[k]),
                            ) == Some(fresh_input(found[k])) by {
                                lemma_put_lookup(
                                    so_far,
                                    name,
                                    fresh_input(f),
                                    found_name(configs, found[k]),
                                );
                            }
                            assert forall|other: Seq<char>|
                                (#[trigger] lookup(index, other)) is Some implies exists|k: int|
                                0 <= k < n && #[trigger] accepted(configs, found, k) && found_name(
                                    configs,
                                    found[k],
                                ) == other by {
                                lemma_put_lookup(so_far, name, fresh_input(f), other);
                                if other == name {
                                    assert(accepted(configs, found, n - 1));
                                } else {
                                    let k = choose|k: int|
                                        0 <= k < n - 1 && #[trigger] accepted(configs, found, k)
                                            && found_name(configs, found[k]) == other;
                                    assert(accepted(configs, found, k));
                                }
                            }
                        },
                    }
                } else {
                    assert forall|a: int, b: int| !#[trigger] collide(configs, found, n, a, b) by {
                        if collide(configs, found, n, a, b) {
                            assert(collide(configs, found, n - 1, a, b));
                        }
                    }
                    assert forall|other: Seq<char>|
                        (#[trigger] lookup(so_far, other)) is Some implies exists|k: int|
                        0 <= k < n && #[trigger] accepted(configs, found, k) && found_name(
                            configs,
                            found[k],
                        ) == other by {
                        let k = choose|k: int|
                            0 <= k < n - 1 && #[trigger] accepted(configs, found, k) && found_name(
                                configs,
                                found[k],
                            ) == other;
                        assert(accepted(configs, found, k));
                    }
                }
            },
            Discovery::Overlap(path) => {
                let (a, b) = choose|a: int, b: int|
                    #[trigger] collide(configs, found, n - 1, a, b) && path == found[a].path;
                assert(collide(configs, found, n, a, b));
            },
            Discovery::BadGlob(_) => {},
            Discovery::WalkFailed(_) => {},
        }
    }
}

/// Two files that get the same asset name never both become inputs: where
/// every glob is a glob, a discovery from no inputs fails if and only if two
/// of the files that match their globs get the same name, and then it fails
/// with the overlap error, which names the file of such a pair that was found
/// first.
pub proof fn lemma_overlap_is_reported(configs: Seq<ConfigView>, found: Seq<FoundView>)
    requires
        globs_valid(configs, found, found.len() as int),
    ensures
        discovered(configs, Seq::empty(), found, found.len() as int) is Inputs <==> names_distinct(
            configs,
            found,
            found.len() as int,
        ),
        !(discovered(configs, Seq::empty(), found, found.len() as int) is Inputs) ==> exists|
            a: int,
            b: int,
        |
            #[trigger] collide(configs, found, found.len() as int, a, b) && discovered(
                configs,
                Seq::empty(),
                found,
                found.len() as int,
            ) == Discovery::Overlap(found[a].path),
{
    lemma_discovered(configs, found, found.len() as int);
}

/// A discovery that ends with inputs met no glob that is no glob.
pub proof fn lemma_inputs_mean_valid_globs(
    configs: Seq<ConfigView>,
    index: Seq<(Seq<char>, SyncInputView)>,
    found: Seq<FoundView>,
    n: int,
)
    requires
        0 <= n <= found.len(),
        discovered(configs, index, found, n) is Inputs,
    ensures
        globs_valid(configs, found, n),
    decreases n,
{
    if n > 0 {
        if !(discovered(configs, index, found, n - 1) is Inputs) {
            lemma_discovered_ends(configs, index, found, n - 1, n);
        }
        lemma_inputs_mean_valid_globs(configs, index, found, n - 1);
        assert forall|k: int| 0 <= k < n implies (#[trigger] accepts(configs, found[k])) is Some by {
            if k < n - 1 {
                assert(accepts(configs, found[k]) is Some);
            }
        }
    }
}

/// A value that stands at two positions of `s` occurs at least twice in it.
proof fn lemma_twice<T>(s: Seq<T>, x: int, y: int)
    requires
        0 <= x < y < s.len(),
        s[x] == s[y],
    ensures
        s.to_multiset().count(s[x]) >= 2,
{
    broadcast use vstd::multiset::group_multiset_axioms;

    let rest = s.remove(x);
    to_multiset_remove(s, x);
    assert(rest[y - 1] == s[y]);
    assert(rest.contains(s[x]));
    to_multiset_contains(rest, s[x]);
}

/// A value that occurs at least twice in `s` stands at two positions of it.
proof fn lemma_two_positions<T>(s: Seq<T>, v: T) -> (r: (int, int))
    requires
        s.to_multiset().count(v) >= 2,
    ensures
        0 <= r.0 < r.1 < s.len(),
        s[r.0] == v,
        s[r.1] == v,
{
    broadcast use vstd::multiset::group_multiset_axioms;

    to_multiset_contains(s, v);
    assert(s.contains(v));
    let p = choose|p: int| 0 <= p < s.len() && s[p] == v;
    let rest = s.remove(p);
    to_multiset_remove(s, p);
    to_multiset_contains(rest, v);
    assert(rest.contains(v));
    let q = choose|q: int| 0 <= q < rest.len() && rest[q] == v;
    if q < p {
        assert(rest[q] == s[q]);
        (q, p)
    } else {
        assert(rest[q] == s[q + 1]);
        (p, q + 1)
    }
}

/// The order in which the files are found does not matter: two discoveries
/// from no inputs that go through the same files, in whatever order, both end
/// with inputs or both fail, and where they end with inputs, these are the
/// same.
pub proof fn lemma_discovery_ignores_order(
    configs: Seq<ConfigView>,
    one: Seq<FoundView>,
    other: Seq<FoundView>,
)
    requires
        one.to_multiset() == other.to_multiset(),
    ensures
        discovered(configs, Seq::empty(), one, one.len() as int) is Inputs <==> discovered(
            configs,
            Seq::empty(),
            other,
            other.len() as int,
        ) is Inputs,
        discovered(configs, Seq::empty(), one, one.len() as int) is Inputs ==> discovered(
            configs,
            Seq::empty(),
            other,
            other.len() as int,
        ) == discovered(configs, Seq::empty(), one, one.len() as int),
{
    if discovered(configs, Seq::empty(), one, one.len() as int) is Inputs {
        lemma_same_files_same_inputs(configs, one, other);
    } else if discovered(configs, Seq::empty(), other, other.len() as int) is Inputs {
        lemma_same_files_same_inputs(configs, other, one);
    }
}

/// A discovery from no inputs that ends with inputs ends with the same inputs
/// when it goes through the same files in another order.
proof fn lemma_same_files_same_inputs(
    configs: Seq<ConfigView>,
    one: Seq<FoundView>,
    other: Seq<FoundView>,
)
    requires
        one.to_multiset() == other.to_multiset(),
        discovered(configs, Seq::empty(), one, one.len() as int) is Inputs,
    ensures
        discovered(configs, Seq::empty(), other, other.len() as int) == discovered(
            configs,
            Seq::empty(),
            one,
            one.len() as int,
        ),
{
    let empty = Seq::<(Seq<char>, SyncInputView)>::empty();
    let n = one.len() as int;
    let m = other.len() as int;
    assert forall|f: FoundView| one.contains(f) == other.contains(f) by {
        to_multiset_contains(one, f);
        to_multiset_contains(other, f);
    }
    lemma_inputs_mean_valid_globs(configs, empty, one, n);
    lemma_discovered(configs, one, n);
    assert(globs_valid(configs, other, m)) by {
        assert forall|k: int| 0 <= k < m implies (#[trigger] accepts(configs, other[k])) is Some by {
            assert(other.contains(other[k]));
            assert(one.contains(other[k]));
            let p = choose|p: int| 0 <= p < n && one[p] == other[k];
            assert(accepts(configs, one[p]) is Some);
        }
    }
    lemma_discovered(configs, other, m);
    assert(names_distinct(configs, other, m)) by {
        assert forall|a: int, b: int| !#[trigger] collide(configs, other, m, a, b) by {
            if collide(configs, other, m, a, b) {
                if other[a] == other[b] {
                    lemma_twice(other, a, b);
                    let (p, q) = lemma_two_positions(one, other[a]);
                    assert(collide(configs, one, n, p, q));
                } else {
                    assert(other.contains(other[a]));
                    assert(other.contains(other[b]));
                    assert(one.contains(other[a]));
                    assert(one.contains(other[b]));
                    let p = choose|p: int| 0 <= p < n && one[p] == other[a];
                    let q = choose|q: int| 0 <= q < n && one[q] == other[b];
                    if p < q {
                        assert(collide(configs, one, n, p, q));
                    } else {
                        assert(collide(configs, one, n, q, p));
                    }
                }
            }
        }
    }
    let first = discovered(configs, empty, one, n)->Inputs_0;
    let second = discovered(configs, empty, other, m)->Inputs_0;
    assert forall|name: Seq<char>| lookup(first, name) == lookup(second, name) by {
        if lookup(first, name) is Some {
            let k = choose|k: int|
                0 <= k < n && #[trigger] accepted(configs, one, k) && found_name(configs, one[k])
                    == name;
            assert(one.contains(one[k]));
            assert(other.contains(one[k]));
            let p = choose|p: int| 0 <= p < m && other[p] == one[k];
            assert(accepted(configs, other, p));
        } else if lookup(second, name) is Some {
            let k = choose|k: int|
                0 <= k < m && #[trigger] accepted(configs, other, k) && found_name(
                    configs,
                    other[k],
                ) == name;
            assert(other.contains(other[k]));
            assert(one.contains(other[k]));
            let p = choose|p: int| 0 <= p < n && one[p] == other[k];
            assert(accepted(configs, one, p));
        }
    }
    lemma_sorted_canonical(first, second);
}

} // verus!
