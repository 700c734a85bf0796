//! One run of a sync: the configs it found, the inputs they name, what the
//! previous run recorded, and what this run decides for each input.

use crate::data::{Config, ConfigError, ConfigView, Error, Manifest, ManifestError};
use crate::glob::{get_prefix, glob_prefix};
use crate::path::{extension_of, FsPath};
use crate::sorted::SortedMap;
use crate::text::same_text;
use std::collections::VecDeque;
use vstd::prelude::*;

verus! {

/// One input of a sync.
#[derive(Debug, PartialEq, Eq)]
pub struct SyncInput {
    /// The path of the file that holds the input.
    pub path: FsPath,
    /// Which config, and which declaration of inputs in it, applies to the
    /// input: positions in `SyncSession::configs` and in `Config::inputs`.
    pub config_index: (usize, usize),
    /// The hash of the contents of the input, once it was computed.
    pub hash: Option<String>,
    /// The identifier that the asset store gave the input.
    pub id: Option<u64>,
}

/// What a `SyncInput` says.
pub struct SyncInputView {
    pub path: Seq<Seq<char>>,
    pub config_index: (usize, usize),
    pub hash: Option<Seq<char>>,
    pub id: Option<u64>,
}

impl View for SyncInput {
    type V = SyncInputView;

    open spec fn view(&self) -> SyncInputView {
        SyncInputView {
            path: self.path@,
            config_index: self.config_index,
            hash: crate::data::text_view(self.hash),
            id: self.id,
        }
    }
}

/// The state of one run of a sync.
#[derive(Debug)]
pub struct SyncSession {
    /// The configs found so far. The first is the config that the run started
    /// from. A config is never taken out again.
    pub configs: Vec<Config>,
    /// What the previous run recorded.
    pub original_manifest: Manifest,
    /// The inputs found so far, by asset name.
    pub inputs: SortedMap<SyncInput>,
    /// The paths that are still to be searched for configs, in the order in
    /// which they are searched.
    pub to_search: VecDeque<FsPath>,
    /// The path that is being searched.
    pub searching: Option<FsPath>,
    /// The canonical paths of what was searched so far.
    pub searched: Vec<FsPath>,
}

/// The paths of `paths`, each as its components.
pub open spec fn paths_view(paths: Seq<FsPath>) -> Seq<Seq<Seq<char>>> {
    Seq::new(paths.len(), |i: int| paths[i]@)
}

/// What each of `configs` says.
pub open spec fn configs_view(configs: Seq<Config>) -> Seq<ConfigView> {
    Seq::new(configs.len(), |i: int| configs[i]@)
}

/// The inputs of a session, each with its name and what it says.
pub open spec fn index_view(entries: Seq<(Seq<char>, SyncInput)>) -> Seq<(Seq<char>, SyncInputView)> {
    Seq::new(entries.len(), |i: int| (entries[i].0, entries[i].1@))
}

/// What has to be found out next in the search for configs.
#[derive(Debug, PartialEq, Eq)]
pub enum SearchRequest {
    /// Whether the path is a file or a directory, and the config in it.
    Inspect(FsPath),
    /// The directories directly inside the directory at the path.
    ListFolders(FsPath),
    /// Nothing: the search is over.
    Finished,
}

/// What was found out about the path that is being searched.
#[derive(Debug, PartialEq, Eq)]
pub enum SearchReport {
    /// The path is a file with the canonical path `canonical`, and `config`
    /// came of loading it as a config.
    File { canonical: FsPath, config: Result<Config, ConfigError> },
    /// The path is a directory with the canonical path `canonical`, and
    /// `config` came of loading the config that lies directly inside it.
    Folder { canonical: FsPath, config: Result<Config, ConfigError> },
    /// The directories directly inside the path.
    Subfolders(Vec<FsPath>),
    /// The file system refused an operation on `path`.
    Failed { path: FsPath, source: String },
}

/// A place where a search for inputs starts.
#[derive(Debug, PartialEq, Eq)]
pub struct WalkRoot {
    /// The config and the declaration of inputs that the search is for.
    pub config_index: (usize, usize),
    /// The directory, or the file, where the search starts.
    pub path: FsPath,
}

/// What a `WalkRoot` says.
pub struct WalkRootView {
    pub config_index: (usize, usize),
    pub path: Seq<Seq<char>>,
}

impl View for WalkRoot {
    type V = WalkRootView;

    open spec fn view(&self) -> WalkRootView {
        WalkRootView { config_index: self.config_index, path: self.path@ }
    }
}

/// What each of `roots` says.
pub open spec fn roots_view(roots: Seq<WalkRoot>) -> Seq<WalkRootView> {
    Seq::new(roots.len(), |i: int| roots[i]@)
}

/// The places where the searches for the first `n` declarations of `config`
/// start, which is the config at position `at`.
pub open spec fn config_roots(config: ConfigView, at: usize, n: int) -> Seq<WalkRootView>
    decreases n,
{
    if n <= 0 {
        Seq::empty()
    } else {
        config_roots(config, at, n - 1).push(
            WalkRootView {
                config_index: (at, (n - 1) as usize),
                path: config.folder + glob_prefix(config.inputs[n - 1].glob),
            },
        )
    }
}

/// The places where the searches for the inputs of the first `n` configs
/// start: config by config, and in each config declaration by declaration.
pub open spec fn all_roots(configs: Seq<ConfigView>, n: int) -> Seq<WalkRootView>
    decreases n,
{
    if n <= 0 {
        Seq::empty()
    } else {
        all_roots(configs, n - 1) + config_roots(
            configs[n - 1],
            (n - 1) as usize,
            configs[n - 1].inputs.len() as int,
        )
    }
}

/// Where a sync brings the assets.
#[derive(Clone, Copy, Debug, PartialEq, Eq)]
pub enum SyncTarget {
    /// To the asset store, which asks for a credential.
    Roblox,
    /// To a content folder on this machine.
    ContentFolder,
}

/// The credential that a sync to `target` goes on with, given the credential
/// `auth` that is at hand. A sync to the asset store without a credential ends
/// here; a sync to a content folder uses none.
pub fn authenticate(target: SyncTarget, auth: Option<String>) -> (credential: Result<
    Option<String>,
    Error,
>)
    ensures
        match target {
            SyncTarget::Roblox => match auth {
                Some(cookie) => credential == Ok::<Option<String>, Error>(Some(cookie)),
                None => credential matches Err(Error::NoAuth),
            },
            SyncTarget::ContentFolder => credential matches Ok(None),
        },
{
    match target {
        SyncTarget::Roblox => match auth {
            Some(cookie) => Ok(Some(cookie)),
            None => Err(Error::NoAuth),
        },
        SyncTarget::ContentFolder => Ok(None),
    }
}

/// Whether the file at `path` is an image that can be uploaded as it is: its
/// extension is `png` or `jpg`.
pub open spec fn is_image(path: Seq<Seq<char>>) -> bool {
    path.len() > 0 && (extension_of(path.last()) == Some("png"@) || extension_of(path.last())
        == Some("jpg"@))
}

/// Whether the file at `path` is an image that can be uploaded as it is.
pub fn is_image_asset(path: &FsPath) -> (r: bool)
    ensures
        r == is_image(path@),
{
    match path.extension() {
        Some(ext) => same_text(ext.as_str(), "png") || same_text(ext.as_str(), "jpg"),
        None => false,
    }
}

/// What the search does once `queue` holds the paths that are left: it is over
/// where none is left, and else it goes on with the first.
pub open spec fn goes_on(
    queue: Seq<Seq<Seq<char>>>,
    after: SyncSession,
    request: Result<SearchRequest, Error>,
) -> bool {
    if queue.len() == 0 {
        &&& request matches Ok(SearchRequest::Finished)
        &&& paths_view(after.to_search@) == queue
        &&& after.searching is None
    } else {
        &&& request matches Ok(SearchRequest::Inspect(path))
        &&& path@ == queue[0]
        &&& paths_view(after.to_search@) == queue.skip(1)
        &&& after.searching matches Some(current)
        &&& current@ == queue[0]
    }
}

impl SyncSession {
    /// The configs, the inputs and the manifest are in order: there is a
    /// first config, the inputs and the records of the manifest stand in the
    /// order of their names, and every input names a declaration of a config
    /// that is there.
    pub open spec fn wf(&self) -> bool {
        &&& self.configs@.len() > 0
        &&& self.inputs.wf()
        &&& self.original_manifest.inputs.wf()
        &&& forall|i: int|
            0 <= i < self.inputs.model().len() ==> self.names_declaration(
                (#[trigger] self.inputs.model()[i]).1.config_index,
            )
    }

    /// `index` names a declaration of inputs of one of the configs.
    pub open spec fn names_declaration(&self, index: (usize, usize)) -> bool {
        index.0 < self.configs@.len() && index.1 < self.configs@[index.0 as int].inputs@.len()
    }

    /// A session that starts from `root_config`, which was loaded from the
    /// canonical path `root_path`, with what the previous run recorded. Where
    /// the previous run left no manifest, the session starts from the empty
    /// one; any other failure to load it ends the run. The place that the root
    /// config was loaded from counts as searched.
    pub fn new(
        root_path: FsPath,
        root_config: Config,
        manifest: Result<Manifest, ManifestError>,
    ) -> (session: Result<SyncSession, Error>)
        requires
            manifest matches Ok(m) ==> m.inputs.wf(),
        ensures
            match manifest {
                Ok(m) => session matches Ok(s) && s.original_manifest == m,
                Err(ManifestError::NotFound) => session matches Ok(s) && s.original_manifest@.len()
                    == 0,
                Err(e) => session matches Err(Error::Manifest { source }) && source == e,
            },
            session matches Ok(s) ==> {
                &&& s.wf()
                &&& s.configs@ == seq![root_config]
                &&& s.inputs.model().len() == 0
                &&& paths_view(s.to_search@) == root_config@.includes
                &&& s.searching is None
                &&& paths_view(s.searched@) == seq![root_path@]
                &&& s.searched_once()
            },
    {
        let original_manifest = match manifest {
            Ok(m) => m,
            Err(err) => {
                if err.is_not_found() {
                    Manifest::new()
                } else {
                    return Err(Error::Manifest { source: err });
                }
            },
        };
        let mut to_search: VecDeque<FsPath> = VecDeque::new();
        let mut i: usize = 0;
        while i < root_config.includes.len()
            invariant
                i <= root_config.includes.len(),
                paths_view(to_search@) == root_config@.includes.take(i as int),
            decreases root_config.includes.len() - i,
        {
            let ghost queued = paths_view(to_search@);
            let path = root_config.includes[i].path.clone();
            to_search.push_back(path);
            assert(paths_view(to_search@) =~= queued.push(path@));
            assert(root_config@.includes.take(i + 1) =~= root_config@.includes.take(i as int).push(
                root_config@.includes[i as int],
            ));
            i += 1;
        }
        assert(root_config@.includes.take(root_config@.includes.len() as int)
            == root_config@.includes);
        let mut configs: Vec<Config> = Vec::new();
        configs.push(root_config);
        assert(configs@ =~= seq![root_config]);
        let mut searched: Vec<FsPath> = Vec::new();
        searched.push(root_path);
        assert(paths_view(searched@) =~= seq![root_path@]);
        Ok(
            SyncSession {
                configs,
                original_manifest,
                inputs: SortedMap::new(),
                to_search,
                searching: None,
                searched,
            },
        )
    }

    /// The config that the session started from.
    pub fn root_config(&self) -> (config: &Config)
        requires
            self.configs@.len() > 0,
        ensures
            *config == self.configs@[0],
    {
        &self.configs[0]
    }

    /// Puts the paths that `config` includes at the end of the paths to search.
    fn enqueue_includes(&mut self, config: &Config)
        ensures
            paths_view(final(self).to_search@) == paths_view(old(self).to_search@)
                + config@.includes,
            final(self).configs == old(self).configs,
            final(self).inputs == old(self).inputs,
            final(self).original_manifest == old(self).original_manifest,
            final(self).searching == old(self).searching,
            final(self).searched == old(self).searched,
    {
        let mut i: usize = 0;
        assert(paths_view(self.to_search@) =~= paths_view(old(self).to_search@)
            + config@.includes.take(0));
        while i < config.includes.len()
            invariant
                i <= config.includes.len(),
                paths_view(self.to_search@) == paths_view(old(self).to_search@)
                    + config@.includes.take(i as int),
                self.configs == old(self).configs,
                self.inputs == old(self).inputs,
                self.original_manifest == old(self).original_manifest,
                self.searching == old(self).searching,
                self.searched == old(self).searched,
            decreases config.includes.len() - i,
        {
            let ghost queued = paths_view(self.to_search@);
            let path = config.includes[i].path.clone();
            self.to_search.push_back(path);
            assert(paths_view(self.to_search@) =~= queued.push(path@));
            assert(config@.includes.take(i + 1) =~= config@.includes.take(i as int).push(
                config@.includes[i as int],
            ));
            assert(paths_view(self.to_search@) =~= paths_view(old(self).to_search@)
                + config@.includes.take(i + 1));
            i += 1;
        }
        assert(config@.includes.take(config@.includes.len() as int) == config@.includes);
    }

    /// Takes the next path to search, where one is left.
    fn next_search(&mut self) -> (request: Result<SearchRequest, Error>)
        ensures
            goes_on(paths_view(old(self).to_search@), *final(self), request),
            final(self).configs == old(self).configs,
            final(self).inputs == old(self).inputs,
            final(self).original_manifest == old(self).original_manifest,
            final(self).searched == old(self).searched,
    {
        match self.to_search.pop_front() {
            Some(path) => {
                let asked = path.clone();
                self.searching = Some(path);
                assert(paths_view(self.to_search@) =~= paths_view(old(self).to_search@).skip(1));
                Ok(SearchRequest::Inspect(asked))
            },
            None => {
                self.searching = None;
                Ok(SearchRequest::Finished)
            },
        }
    }

    /// The canonical path `path` was searched before.
    pub open spec fn was_searched(&self, path: Seq<Seq<char>>) -> bool {
        paths_view(self.searched@).contains(path)
    }

    /// No canonical path was searched twice.
    pub open spec fn searched_once(&self) -> bool {
        paths_view(self.searched@).no_duplicates()
    }

    /// The search stands in `after` as it stands in this session.
    pub open spec fn search_unchanged(&self, after: SyncSession) -> bool {
        &&& after.configs == self.configs
        &&& after.to_search == self.to_search
        &&& after.searching == self.searching
        &&& after.searched == self.searched
    }

    /// What the search makes of a path with the canonical path `canonical`,
    /// where `config` came of loading the config at it; `file` says whether
    /// the path is a file.
    ///
    /// A path that was searched before ends the search: the includes lead in
    /// a circle, or to one place twice. Else the path counts as searched. A
    /// config that was found is added to the configs, and the paths that it
    /// includes are searched later. A directory without a config of its own
    /// has its subdirectories listed next. Any other failure to load a config
    /// ends the search.
    pub open spec fn config_step(
        &self,
        canonical: FsPath,
        config: Result<Config, ConfigError>,
        file: bool,
        after: SyncSession,
        request: Result<SearchRequest, Error>,
    ) -> bool {
        if self.was_searched(canonical@) {
            &&& self.search_unchanged(after)
            &&& request matches Err(Error::Config { source: ConfigError::Cycle(path) })
            &&& path@ == canonical@
        } else {
            match config {
                Ok(found) => {
                    &&& after.configs@ == self.configs@.push(found)
                    &&& paths_view(after.searched@) == paths_view(self.searched@).push(canonical@)
                    &&& goes_on(
                        paths_view(self.to_search@) + found@.includes,
                        after,
                        request,
                    )
                },
                Err(e) => if !file && e is NotFound {
                    &&& after.configs == self.configs
                    &&& paths_view(after.searched@) == paths_view(self.searched@).push(canonical@)
                    &&& match self.searching {
                        Some(current) => {
                            &&& request matches Ok(SearchRequest::ListFolders(path))
                            &&& path@ == current@
                            &&& after.to_search == self.to_search
                            &&& after.searching == self.searching
                        },
                        None => goes_on(paths_view(self.to_search@), after, request),
                    }
                } else {
                    &&& self.search_unchanged(after)
                    &&& request matches Err(Error::Config { source })
                    &&& source == e
                },
            }
        }
    }

    /// What one step of the search makes of `report`: `after` is the session
    /// after the step and `request` what the step asks for next.
    pub open spec fn search_step(
        &self,
        report: Option<SearchReport>,
        after: SyncSession,
        request: Result<SearchRequest, Error>,
    ) -> bool {
        match report {
            None => {
                &&& after.configs == self.configs
                &&& after.searched == self.searched
                &&& goes_on(paths_view(self.to_search@), after, request)
            },
            Some(SearchReport::File { canonical, config }) => self.config_step(
                canonical,
                config,
                true,
                after,
                request,
            ),
            Some(SearchReport::Folder { canonical, config }) => self.config_step(
                canonical,
                config,
                false,
                after,
                request,
            ),
            Some(SearchReport::Subfolders(folders)) => {
                &&& after.configs == self.configs
                &&& after.searched == self.searched
                &&& goes_on(paths_view(self.to_search@) + paths_view(folders@), after, request)
            },
            Some(SearchReport::Failed { path, source }) => {
                &&& self.search_unchanged(after)
                &&& request == Err::<SearchRequest, Error>(Error::Io { path, source })
            },
        }
    }

    /// Whether the canonical path `path` was searched before.
    fn searched_before(&self, path: &FsPath) -> (r: bool)
        ensures
            r == self.was_searched(path@),
    {
        let mut i: usize = 0;
        while i < self.searched.len()
            invariant
                i <= self.searched.len(),
                forall|k: int| 0 <= k < i ==> paths_view(self.searched@)[k] != path@,
            decreases self.searched.len() - i,
        {
            if self.searched[i].same(path) {
                assert(paths_view(self.searched@)[i as int] == path@);
                return true;
            }
            i += 1;
        }
        false
    }

    /// Takes in what was found at a path that was not searched before.
    fn take_config(&mut self, canonical: FsPath, config: Result<Config, ConfigError>, file: bool) -> (request:
        Result<SearchRequest, Error>)
        requires
            !old(self).was_searched(canonical@),
        ensures
            final(self).inputs == old(self).inputs,
            final(self).original_manifest == old(self).original_manifest,
            old(self).config_step(canonical, config, file, *final(self), request),
            old(self).searched_once() ==> final(self).searched_once(),
    {
        match config {
            Ok(found) => {
                self.note_searched(canonical);
                self.enqueue_includes(&found);
                self.configs.push(found);
                self.next_search()
            },
            Err(e) => {
                if !file && e.is_not_found() {
                    self.note_searched(canonical);
                    match &self.searching {
                        Some(current) => Ok(SearchRequest::ListFolders(current.clone())),
                        None => self.next_search(),
                    }
                } else {
                    Err(Error::Config { source: e })
                }
            },
        }
    }

    /// Counts the canonical path `path` as searched.
    fn note_searched(&mut self, path: FsPath)
        requires
            !old(self).was_searched(path@),
        ensures
            paths_view(final(self).searched@) == paths_view(old(self).searched@).push(path@),
            old(self).searched_once() ==> final(self).searched_once(),
            final(self).configs == old(self).configs,
            final(self).inputs == old(self).inputs,
            final(self).original_manifest == old(self).original_manifest,
            final(self).to_search == old(self).to_search,
            final(self).searching == old(self).searching,
    {
        let ghost before = paths_view(self.searched@);
        self.searched.push(path);
        let ghost after = paths_view(self.searched@);
        assert(after =~= before.push(path@));
        assert forall|x: int, y: int| 0 <= x < after.len() && 0 <= y < after.len() && x != y
            && before.no_duplicates() implies after[x] != after[y] by {
            if x < before.len() && y < before.len() {
                assert(after[x] == before[x] && after[y] == before[y]);
            } else if x < before.len() {
                assert(after[x] == before[x]);
                assert(before.contains(before[x]));
            } else {
                assert(after[y] == before[y]);
                assert(before.contains(before[y]));
            }
        }
    }

    /// One step of the search for the configs that the root config leads to.
    ///
    /// The search goes through the paths that configs include, first come
    /// first served. A path that is a file is loaded as a config. A directory
    /// that holds a config of its own gives that config, and nothing below it
    /// is searched; a directory without one has its subdirectories searched in
    /// turn. Every config found is added to the session, and the paths that it
    /// includes are searched later.
    ///
    /// No place is searched twice. A report of a file or directory comes with
    /// its canonical path, and a canonical path that was reported before ends
    /// the search with an error: so a circle of includes is a failure of the
    /// configs, and the search does not go round it.
    ///
    /// The caller starts with no report, does what the request says, and comes
    /// back with what it found until the request is `Finished`.
    pub fn discover_configs(&mut self, report: Option<SearchReport>) -> (request: Result<
        SearchRequest,
        Error,
    >)
        ensures
            final(self).inputs == old(self).inputs,
            final(self).original_manifest == old(self).original_manifest,
            old(self).search_step(report, *final(self), request),
            old(self).searched_once() ==> final(self).searched_once(),
    {
        match report {
            None => self.next_search(),
            Some(SearchReport::File { canonical, config }) => {
                if self.searched_before(&canonical) {
                    Err(Error::Config { source: ConfigError::Cycle(canonical) })
                } else {
                    self.take_config(canonical, config, true)
                }
            },
            Some(SearchReport::Folder { canonical, config }) => {
                if self.searched_before(&canonical) {
                    Err(Error::Config { source: ConfigError::Cycle(canonical) })
                } else {
                    self.take_config(canonical, config, false)
                }
            },
            Some(SearchReport::Subfolders(folders)) => {
                let mut i: usize = 0;
                assert(paths_view(self.to_search@) =~= paths_view(old(self).to_search@)
                    + paths_view(folders@).take(0));
                while i < folders.len()
                    invariant
                        i <= folders.len(),
                        paths_view(self.to_search@) == paths_view(old(self).to_search@)
                            + paths_view(folders@).take(i as int),
                        self.configs == old(self).configs,
                        self.inputs == old(self).inputs,
                        self.original_manifest == old(self).original_manifest,
                        self.searched == old(self).searched,
                    decreases folders.len() - i,
                {
                    let ghost queued = paths_view(self.to_search@);
                    let path = folders[i].clone();
                    self.to_search.push_back(path);
                    assert(paths_view(self.to_search@) =~= queued.push(path@));
                    assert(paths_view(folders@).take(i + 1) =~= paths_view(folders@).take(
                        i as int,
                    ).push(paths_view(folders@)[i as int]));
                    assert(paths_view(self.to_search@) =~= paths_view(old(self).to_search@)
                        + paths_view(folders@).take(i + 1));
                    i += 1;
                }
                assert(paths_view(folders@).take(folders@.len() as int) == paths_view(folders@));
                self.next_search()
            },
            Some(SearchReport::Failed { path, source }) => Err(Error::Io { path, source }),
        }
    }

    /// The places where the searches for inputs start: for each declaration
    /// of inputs of each config, the folder of the config followed by the
    /// literal start of the glob.
    pub fn walk_roots(&self) -> (roots: Vec<WalkRoot>)
        ensures
            roots_view(roots@) == all_roots(configs_view(self.configs@), self.configs@.len() as int),
    {
        let ghost configs = configs_view(self.configs@);
        let mut roots: Vec<WalkRoot> = Vec::new();
        let mut at: usize = 0;
        assert(roots_view(roots@) =~= all_roots(configs, 0));
        while at < self.configs.len()
            invariant
                at <= self.configs.len(),
                configs == configs_view(self.configs@),
                roots_view(roots@) == all_roots(configs, at as int),
            decreases self.configs.len() - at,
        {
            let config = &self.configs[at];
            let ghost before = roots_view(roots@);
            let mut k: usize = 0;
            assert(roots_view(roots@) =~= before + config_roots(config@, at, 0));
            while k < config.inputs.len()
                invariant
                    k <= config.inputs.len(),
                    roots_view(roots@) == before + config_roots(config@, at, k as int),
                decreases config.inputs.len() - k,
            {
                let prefix = get_prefix(config.inputs[k].glob.as_str());
                let path = config.folder.join(&prefix);
                let ghost listed = roots_view(roots@);
                let root = WalkRoot { config_index: (at, k), path };
                roots.push(root);
                assert(roots_view(roots@) =~= listed.push(root@));
                assert(config@.inputs[k as int].glob == config.inputs@[k as int].glob@);
                assert(config_roots(config@, at, k + 1) == config_roots(config@, at, k as int).push(
                    root@,
                ));
                assert(roots_view(roots@) =~= before + config_roots(config@, at, k + 1));
                k += 1;
            }
            assert(configs[at as int] == config@);
            at += 1;
        }
        roots
    }
}

} // verus!
