use tarmac::data::{
    CodegenKind, Config, ConfigError, Error, Include, InputConfig, Manifest, ManifestError,
};
use tarmac::inputs::{FoundPath, WalkEntry};
use tarmac::path::FsPath;
use tarmac::sync::{
    authenticate, SearchReport, SearchRequest, SyncSession, SyncTarget, WalkRoot,
};

fn path(text: &str) -> FsPath {
    FsPath::parse(text)
}

fn config(name: &str, folder: &str, includes: &[&str], globs: &[&str]) -> Config {
    Config {
        name: name.to_string(),
        base_path: path(folder),
        folder: path(folder),
        includes: includes.iter().map(|p| Include { path: path(p) }).collect(),
        inputs: globs
            .iter()
            .map(|g| InputConfig {
                glob: g.to_string(),
                packable: false,
                codegen: Some(CodegenKind::AssetUrl),
            })
            .collect(),
    }
}

fn session(root: Config) -> SyncSession {
    match SyncSession::new(path("proj"), root, Err(ManifestError::NotFound)) {
        Ok(session) => session,
        Err(e) => panic!("no session: {:?}", e),
    }
}

fn found(index: (usize, usize), text: &str) -> WalkEntry {
    WalkEntry::Found(FoundPath { config_index: index, path: path(text) })
}

fn file(at: &str, config: Result<Config, ConfigError>) -> Option<SearchReport> {
    Some(SearchReport::File { canonical: path(at), config })
}

fn folder(at: &str, config: Result<Config, ConfigError>) -> Option<SearchReport> {
    Some(SearchReport::Folder { canonical: path(at), config })
}

fn names(session: &SyncSession) -> Vec<String> {
    session.inputs.entries.iter().map(|e| e.0.clone()).collect()
}

#[test]
fn new_session_starts_from_the_root_config() {
    let s = session(config("root", "proj", &["proj/a", "proj/b"], &["**/*.png"]));
    assert_eq!(s.configs.len(), 1);
    assert_eq!(s.root_config().name, "root");
    assert_eq!(s.inputs.len(), 0);
    assert_eq!(s.original_manifest, Manifest::new());
    assert_eq!(s.to_search.len(), 2);
    assert_eq!(s.to_search[0], path("proj/a"));
    assert_eq!(s.to_search[1], path("proj/b"));
    assert_eq!(s.searched, vec![path("proj")]);
    assert_eq!(s.root_config().folder(), &path("proj"));
}

#[test]
fn new_session_fails_on_an_unreadable_manifest() {
    let result = SyncSession::new(
        path("proj"),
        config("root", "proj", &[], &[]),
        Err(ManifestError::Invalid("broken".to_string())),
    );
    match result {
        Err(Error::Manifest { source }) => {
            assert_eq!(source, ManifestError::Invalid("broken".to_string()))
        }
        other => panic!("unexpected: {:?}", other.map(|_| ())),
    }
    assert!(ManifestError::NotFound.is_not_found());
    assert!(!ManifestError::Invalid("x".to_string()).is_not_found());
    assert!(ConfigError::NotFound.is_not_found());
    assert!(!ConfigError::Invalid("x".to_string()).is_not_found());
}

#[test]
fn config_search_without_includes_is_over_at_once() {
    let mut s = session(config("root", "proj", &[], &[]));
    assert_eq!(s.discover_configs(None), Ok(SearchRequest::Finished));
    assert_eq!(s.configs.len(), 1);
}

#[test]
fn config_search_goes_breadth_first_and_stops_at_owned_configs() {
    let mut s = session(config("root", "proj", &["proj/one.toml", "proj/dir"], &[]));
    assert_eq!(s.discover_configs(None), Ok(SearchRequest::Inspect(path("proj/one.toml"))));
    // The file is a config that includes a directory of its own.
    let one = config("one", "proj", &["proj/deep"], &[]);
    assert_eq!(
        s.discover_configs(file("proj/one.toml", Ok(one))),
        Ok(SearchRequest::Inspect(path("proj/dir")))
    );
    // The directory holds no config: its subdirectories are asked for.
    assert_eq!(
        s.discover_configs(folder("proj/dir", Err(ConfigError::NotFound))),
        Ok(SearchRequest::ListFolders(path("proj/dir")))
    );
    assert_eq!(
        s.discover_configs(Some(SearchReport::Subfolders(vec![
            path("proj/dir/x"),
            path("proj/dir/y")
        ]))),
        Ok(SearchRequest::Inspect(path("proj/deep")))
    );
    // This directory owns a config: nothing below it is searched.
    let deep = config("deep", "proj/deep", &[], &[]);
    assert_eq!(
        s.discover_configs(folder("proj/deep", Ok(deep))),
        Ok(SearchRequest::Inspect(path("proj/dir/x")))
    );
    assert_eq!(
        s.discover_configs(folder("proj/dir/x", Err(ConfigError::NotFound))),
        Ok(SearchRequest::ListFolders(path("proj/dir/x")))
    );
    assert_eq!(
        s.discover_configs(Some(SearchReport::Subfolders(vec![]))),
        Ok(SearchRequest::Inspect(path("proj/dir/y")))
    );
    let y = config("y", "proj/dir/y", &[], &[]);
    assert_eq!(
        s.discover_configs(folder("proj/dir/y", Ok(y))),
        Ok(SearchRequest::Finished)
    );
    let found: Vec<&str> = s.configs.iter().map(|c| c.name.as_str()).collect();
    assert_eq!(found, vec!["root", "one", "deep", "y"]);
}

#[test]
fn config_search_fails_on_errors_other_than_not_found() {
    let mut s = session(config("root", "proj", &["proj/a"], &[]));
    assert_eq!(s.discover_configs(None), Ok(SearchRequest::Inspect(path("proj/a"))));
    assert_eq!(
        s.discover_configs(folder("proj/a", Err(ConfigError::Invalid("bad".to_string())))),
        Err(Error::Config { source: ConfigError::Invalid("bad".to_string()) })
    );

    let mut s = session(config("root", "proj", &["proj/a.toml"], &[]));
    assert_eq!(s.discover_configs(None), Ok(SearchRequest::Inspect(path("proj/a.toml"))));
    assert_eq!(
        s.discover_configs(file("proj/a.toml", Err(ConfigError::NotFound))),
        Err(Error::Config { source: ConfigError::NotFound })
    );

    let mut s = session(config("root", "proj", &["proj/gone"], &[]));
    assert_eq!(s.discover_configs(None), Ok(SearchRequest::Inspect(path("proj/gone"))));
    assert_eq!(
        s.discover_configs(Some(SearchReport::Failed {
            path: path("proj/gone"),
            source: "no such file".to_string()
        })),
        Err(Error::Io { path: path("proj/gone"), source: "no such file".to_string() })
    );
    assert_eq!(s.configs.len(), 1);
}

#[test]
fn a_circle_of_includes_ends_the_search() {
    // The root includes a directory whose config includes the directory again.
    let mut s = session(config("root", "proj", &["proj/sub"], &[]));
    assert_eq!(s.discover_configs(None), Ok(SearchRequest::Inspect(path("proj/sub"))));
    let sub = config("sub", "proj/sub", &["proj/sub/../sub"], &[]);
    assert_eq!(
        s.discover_configs(folder("/abs/proj/sub", Ok(sub))),
        Ok(SearchRequest::Inspect(path("proj/sub/../sub")))
    );
    let again = config("sub", "proj/sub", &["proj/sub/../sub"], &[]);
    assert_eq!(
        s.discover_configs(folder("/abs/proj/sub", Ok(again))),
        Err(Error::Config { source: ConfigError::Cycle(path("/abs/proj/sub")) })
    );
    assert_eq!(s.configs.len(), 2);
    assert_eq!(s.searched, vec![path("proj"), path("/abs/proj/sub")]);
}

#[test]
fn includes_that_lead_back_to_the_root_end_the_search() {
    let mut s = session(config("root", "proj", &["proj/sub"], &[]));
    assert_eq!(s.discover_configs(None), Ok(SearchRequest::Inspect(path("proj/sub"))));
    let sub = config("sub", "proj/sub", &["proj/sub/.."], &[]);
    assert_eq!(
        s.discover_configs(folder("proj/sub", Ok(sub))),
        Ok(SearchRequest::Inspect(path("proj/sub/..")))
    );
    let root_again = config("root", "proj", &["proj/sub"], &[]);
    assert_eq!(
        s.discover_configs(folder("proj", Ok(root_again))),
        Err(Error::Config { source: ConfigError::Cycle(path("proj")) })
    );
    assert_eq!(s.configs.len(), 2);
}

#[test]
fn a_place_reached_twice_ends_the_search_whatever_lies_there() {
    let mut s = session(config("root", "proj", &["proj/a", "proj/b.toml", "proj/a"], &[]));
    assert_eq!(s.discover_configs(None), Ok(SearchRequest::Inspect(path("proj/a"))));
    assert_eq!(
        s.discover_configs(folder("proj/a", Err(ConfigError::NotFound))),
        Ok(SearchRequest::ListFolders(path("proj/a")))
    );
    assert_eq!(
        s.discover_configs(Some(SearchReport::Subfolders(vec![]))),
        Ok(SearchRequest::Inspect(path("proj/b.toml")))
    );
    let b = config("b", "proj", &[], &[]);
    assert_eq!(
        s.discover_configs(file("proj/b.toml", Ok(b))),
        Ok(SearchRequest::Inspect(path("proj/a")))
    );
    assert_eq!(
        s.discover_configs(folder("proj/a", Err(ConfigError::NotFound))),
        Err(Error::Config { source: ConfigError::Cycle(path("proj/a")) })
    );
    assert_eq!(s.searched, vec![path("proj"), path("proj/a"), path("proj/b.toml")]);
    // A file that was loaded before is refused as well.
    let b = config("b", "proj", &[], &[]);
    assert_eq!(
        s.discover_configs(file("proj/b.toml", Ok(b))),
        Err(Error::Config { source: ConfigError::Cycle(path("proj/b.toml")) })
    );
    assert_eq!(s.configs.len(), 2);
}

#[test]
fn walk_roots_follow_configs_and_declarations() {
    let mut s = session(config("root", "proj", &["proj/sub"], &["assets/**/*.png", "*.jpg"]));
    assert_eq!(s.discover_configs(None), Ok(SearchRequest::Inspect(path("proj/sub"))));
    let sub = config("sub", "proj/sub", &[], &["img/icons/*.png"]);
    assert_eq!(
        s.discover_configs(folder("proj/sub", Ok(sub))),
        Ok(SearchRequest::Finished)
    );
    assert_eq!(
        s.walk_roots(),
        vec![
            WalkRoot { config_index: (0, 0), path: path("proj/assets") },
            WalkRoot { config_index: (0, 1), path: path("proj") },
            WalkRoot { config_index: (1, 0), path: path("proj/sub/img/icons") },
        ]
    );
}

#[test]
fn only_paths_that_match_the_glob_become_inputs() {
    let mut s = session(config("root", "proj", &[], &["assets/**/*.png"]));
    let listing = vec![
        found((0, 0), "proj/assets"),
        found((0, 0), "proj/assets/a.png"),
        found((0, 0), "proj/assets/notes.txt"),
        found((0, 0), "proj/assets/deep/er/b.png"),
        found((0, 0), "proj/other/c.png"),
    ];
    assert_eq!(s.discover_inputs(&listing), Ok(()));
    assert_eq!(names(&s), vec!["assets/a.png", "assets/deep/er/b.png"]);
    let first = &s.inputs.entries[0].1;
    assert_eq!(first.path, path("proj/assets/a.png"));
    assert_eq!(first.config_index, (0, 0));
    assert_eq!(first.hash, None);
    assert_eq!(first.id, None);
}

#[test]
fn paths_with_a_backslash_never_become_inputs() {
    let mut s = session(config("root", "proj", &[], &["**/*.png"]));
    let listing = vec![found((0, 0), "proj/we\\ird.png"), found((0, 0), "proj/fine.png")];
    assert_eq!(s.discover_inputs(&listing), Ok(()));
    assert_eq!(names(&s), vec!["fine.png"]);
}

#[test]
fn inputs_are_held_in_the_order_of_their_names() {
    let listing = vec![
        found((0, 0), "proj/c.png"),
        found((0, 0), "proj/a/z.png"),
        found((0, 0), "proj/b.png"),
        found((0, 0), "proj/a.png"),
    ];
    let mut s = session(config("root", "proj", &[], &["**/*.png"]));
    assert_eq!(s.discover_inputs(&listing), Ok(()));
    assert_eq!(names(&s), vec!["a.png", "a/z.png", "b.png", "c.png"]);
}

#[test]
fn discovery_does_not_depend_on_the_order_of_the_listing() {
    let texts = ["proj/c.png", "proj/a/z.png", "proj/b.png", "proj/a.png", "proj/skip.txt"];
    let forward: Vec<WalkEntry> = texts.iter().map(|t| found((0, 0), t)).collect();
    let backward: Vec<WalkEntry> = texts.iter().rev().map(|t| found((0, 0), t)).collect();
    let mut one = session(config("root", "proj", &[], &["**/*.png"]));
    let mut other = session(config("root", "proj", &[], &["**/*.png"]));
    assert_eq!(one.discover_inputs(&forward), Ok(()));
    assert_eq!(other.discover_inputs(&backward), Ok(()));
    assert_eq!(one.inputs, other.inputs);
    assert_eq!(one.write_manifest(), other.write_manifest());
    assert_eq!(one.codegen().files, other.codegen().files);
}

#[test]
fn two_files_with_one_name_end_the_discovery() {
    // Two declarations of one config match the same file.
    let mut s = session(config("root", "proj", &[], &["**/*.png", "img/*"]));
    let listing = vec![
        found((0, 0), "proj/img/a.png"),
        found((0, 0), "proj/b.png"),
        found((0, 1), "proj/img/a.png"),
    ];
    assert_eq!(
        s.discover_inputs(&listing),
        Err(Error::OverlappingGlobs { path: path("proj/img/a.png") })
    );
}

#[test]
fn the_overlap_error_names_the_file_found_first() {
    // Two configs whose folders give different files the same name.
    let mut s = session(config("root", "proj", &["proj/sub"], &["**/*.png"]));
    assert_eq!(s.discover_configs(None), Ok(SearchRequest::Inspect(path("proj/sub"))));
    let sub = config("sub", "proj/sub", &[], &["**/*.png"]);
    assert_eq!(
        s.discover_configs(folder("proj/sub", Ok(sub))),
        Ok(SearchRequest::Finished)
    );
    let listing = vec![found((0, 0), "proj/a.png"), found((1, 0), "proj/sub/a.png")];
    assert_eq!(
        s.discover_inputs(&listing),
        Err(Error::OverlappingGlobs { path: path("proj/a.png") })
    );
    let mut s2 = session(config("root", "proj", &["proj/sub"], &["*.png"]));
    assert_eq!(s2.discover_configs(None), Ok(SearchRequest::Inspect(path("proj/sub"))));
    let sub = config("sub", "proj/sub", &[], &["**/*.png"]);
    assert_eq!(
        s2.discover_configs(folder("proj/sub", Ok(sub))),
        Ok(SearchRequest::Finished)
    );
    let reversed = vec![found((1, 0), "proj/sub/a.png"), found((0, 0), "proj/a.png")];
    assert_eq!(
        s2.discover_inputs(&reversed),
        Err(Error::OverlappingGlobs { path: path("proj/sub/a.png") })
    );
}

#[test]
fn a_walk_that_fails_ends_the_discovery() {
    let mut s = session(config("root", "proj", &[], &["**/*.png"]));
    let listing = vec![
        found((0, 0), "proj/a.png"),
        WalkEntry::Failed("permission denied".to_string()),
        found((0, 0), "proj/b.png"),
    ];
    assert_eq!(
        s.discover_inputs(&listing),
        Err(Error::WalkDir { source: "permission denied".to_string() })
    );
    assert_eq!(names(&s), vec!["a.png"]);
    // Whatever ends the discovery first is what it ends with.
    let mut s = session(config("root", "proj", &[], &["**/*.png"]));
    let listing = vec![
        found((0, 0), "proj/a.png"),
        found((0, 0), "proj/a.png"),
        WalkEntry::Failed("permission denied".to_string()),
    ];
    assert_eq!(
        s.discover_inputs(&listing),
        Err(Error::OverlappingGlobs { path: path("proj/a.png") })
    );
}

#[test]
fn a_glob_that_is_no_glob_ends_the_discovery() {
    let mut s = session(config("root", "proj", &[], &["assets/{a,b"]));
    let listing = vec![found((0, 0), "proj/assets/a")];
    assert_eq!(
        s.discover_inputs(&listing),
        Err(Error::Config { source: ConfigError::Invalid("assets/{a,b".to_string()) })
    );
}

#[test]
fn a_glob_with_a_backslash_counts_as_no_glob() {
    let mut s = session(config("root", "proj", &[], &["assets/\\*.png"]));
    let listing = vec![found((0, 0), "proj/assets/a.png")];
    assert_eq!(
        s.discover_inputs(&listing),
        Err(Error::Config { source: ConfigError::Invalid("assets/\\*.png".to_string()) })
    );
    // Without a file that was found for it, the declaration is never looked at.
    let mut quiet = session(config("root", "proj", &[], &["assets/\\*.png"]));
    assert_eq!(quiet.discover_inputs(&Vec::new()), Ok(()));
}

#[test]
fn glob_matching_follows_the_pattern() {
    let mut s = session(config("root", "proj", &[], &["img/[ab]?.{png,jpg}"]));
    let listing = vec![
        found((0, 0), "proj/img/a1.png"),
        found((0, 0), "proj/img/b2.jpg"),
        found((0, 0), "proj/img/c3.png"),
        found((0, 0), "proj/img/a.png"),
        found((0, 0), "proj/img/a1.gif"),
        found((0, 0), "proj/a1.png"),
    ];
    assert_eq!(s.discover_inputs(&listing), Ok(()));
    assert_eq!(names(&s), vec!["img/a1.png", "img/b2.jpg"]);
}

#[test]
fn a_sync_to_the_asset_store_needs_a_credential() {
    assert_eq!(authenticate(SyncTarget::Roblox, None), Err(Error::NoAuth));
    assert_eq!(
        authenticate(SyncTarget::Roblox, Some("cookie".to_string())),
        Ok(Some("cookie".to_string()))
    );
    assert_eq!(authenticate(SyncTarget::ContentFolder, None), Ok(None));
    assert_eq!(authenticate(SyncTarget::ContentFolder, Some("cookie".to_string())), Ok(None));
}
