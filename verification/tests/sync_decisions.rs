use tarmac::codegen::{perform_codegen, CODEGEN_HEADER};
use tarmac::data::{
    CodegenKind, Config, Error, InputConfig, InputManifest, Manifest, ManifestError,
};
use tarmac::decision::{decide, Decision, FileRead};
use tarmac::inputs::{FoundPath, WalkEntry};
use tarmac::path::FsPath;
use tarmac::sync::SyncSession;
use tarmac::upload::{UploadData, UploadResponse, UploadStrategy, Uploader};

const HASH_OF_HELLO: &str = "2cf24dba5fb0a30e26e83b2ac5b9e29e1b161e5c1fa7425e73043362938b9824";
const HASH_OF_NOTHING: &str = "e3b0c44298fc1c149afbf4c8996fb92427ae41e4649b934ca495991b7852b855";

struct Counting {
    next_id: u64,
    calls: Vec<(String, Vec<u8>, String)>,
    fail_on: Option<String>,
}

impl Counting {
    fn new() -> Counting {
        Counting { next_id: 100, calls: Vec::new(), fail_on: None }
    }

    fn from(next_id: u64) -> Counting {
        Counting { next_id, calls: Vec::new(), fail_on: None }
    }

    fn failing_on(name: &str) -> Counting {
        Counting { next_id: 100, calls: Vec::new(), fail_on: Some(name.to_string()) }
    }
}

fn found(index: (usize, usize), path: &str) -> WalkEntry {
    WalkEntry::Found(FoundPath { config_index: index, path: FsPath::parse(path) })
}

impl UploadStrategy for Counting {
    fn upload(&mut self, data: UploadData) -> Result<UploadResponse, Error> {
        let name = data.name.as_str().to_string();
        self.calls.push((name.clone(), data.contents, data.hash));
        if self.fail_on.as_deref() == Some(name.as_str()) {
            return Err(Error::NoAuth);
        }
        let id = self.next_id;
        self.next_id += 1;
        Ok(UploadResponse { id })
    }
}

fn declaration(codegen: Option<CodegenKind>, packable: bool) -> InputConfig {
    InputConfig { glob: "**/*".to_string(), packable, codegen }
}

fn config(inputs: Vec<InputConfig>) -> Config {
    Config {
        name: "root".to_string(),
        base_path: FsPath::parse("proj"),
        folder: FsPath::parse("proj"),
        includes: Vec::new(),
        inputs,
    }
}

fn session(inputs: Vec<InputConfig>, manifest: Result<Manifest, ManifestError>, files: &[&str]) -> SyncSession {
    let mut s = match SyncSession::new(FsPath::parse("proj"), config(inputs), manifest) {
        Ok(s) => s,
        Err(e) => panic!("no session: {:?}", e),
    };
    let entries: Vec<WalkEntry> = files.iter().map(|f| found((0, 0), f)).collect();
    assert_eq!(s.discover_inputs(&entries), Ok(()));
    s
}

fn read(bytes: &[u8]) -> FileRead {
    FileRead::Contents(bytes.to_vec())
}

fn record(hash: Option<&str>, id: Option<u64>, config: InputConfig) -> InputManifest {
    InputManifest { hash: hash.map(|h| h.to_string()), id, slice: None, config }
}

#[test]
fn decision_without_previous_record_is_upload() {
    let now = declaration(Some(CodegenKind::AssetUrl), false);
    assert_eq!(decide(None, HASH_OF_HELLO, &now), Decision::Upload);
}

#[test]
fn decision_with_other_hash_is_upload() {
    let now = declaration(Some(CodegenKind::AssetUrl), false);
    let previous = record(Some(HASH_OF_NOTHING), Some(7), declaration(Some(CodegenKind::AssetUrl), false));
    assert_eq!(decide(Some(&previous), HASH_OF_HELLO, &now), Decision::Upload);
    let unhashed = record(None, Some(7), declaration(Some(CodegenKind::AssetUrl), false));
    assert_eq!(decide(Some(&unhashed), HASH_OF_HELLO, &now), Decision::Upload);
}

#[test]
fn decision_without_previous_id_is_upload() {
    let now = declaration(Some(CodegenKind::AssetUrl), false);
    let previous = record(Some(HASH_OF_HELLO), None, declaration(Some(CodegenKind::AssetUrl), false));
    assert_eq!(decide(Some(&previous), HASH_OF_HELLO, &now), Decision::Upload);
}

#[test]
fn decision_with_other_config_is_upload() {
    let now = declaration(Some(CodegenKind::AssetUrl), false);
    let other_kind = record(Some(HASH_OF_HELLO), Some(7), declaration(Some(CodegenKind::UrlAndSlice), false));
    assert_eq!(decide(Some(&other_kind), HASH_OF_HELLO, &now), Decision::Upload);
    let no_kind = record(Some(HASH_OF_HELLO), Some(7), declaration(None, false));
    assert_eq!(decide(Some(&no_kind), HASH_OF_HELLO, &now), Decision::Upload);
    let other_packing = record(Some(HASH_OF_HELLO), Some(7), declaration(Some(CodegenKind::AssetUrl), true));
    assert_eq!(decide(Some(&other_packing), HASH_OF_HELLO, &now), Decision::Upload);
    let mut other_glob = declaration(Some(CodegenKind::AssetUrl), false);
    other_glob.glob = "*.png".to_string();
    let previous = record(Some(HASH_OF_HELLO), Some(7), other_glob);
    assert_eq!(decide(Some(&previous), HASH_OF_HELLO, &now), Decision::Upload);
}

#[test]
fn decision_with_nothing_changed_is_reuse() {
    let now = declaration(Some(CodegenKind::AssetUrl), false);
    let previous = record(Some(HASH_OF_HELLO), Some(7), declaration(Some(CodegenKind::AssetUrl), false));
    assert_eq!(decide(Some(&previous), HASH_OF_HELLO, &now), Decision::Reuse(7));
    assert!(now.same(&declaration(Some(CodegenKind::AssetUrl), false)));
    assert!(!now.same(&declaration(None, false)));
}

#[test]
fn first_run_uploads_every_image() {
    let mut s = session(
        vec![declaration(Some(CodegenKind::AssetUrl), false)],
        Err(ManifestError::NotFound),
        &["proj/a.png", "proj/b.png"],
    );
    assert!(s.wants_contents(0));
    assert!(s.wants_contents(1));
    let mut uploader = Uploader::new(Counting::new());
    let report = s.sync(&mut uploader, &vec![read(b"hello"), read(b"")]);
    let report = match report {
        Ok(r) => r,
        Err(e) => panic!("sync failed: {:?}", e),
    };
    assert_eq!(report.uploaded, vec![0, 1]);
    assert!(report.packable.is_empty());
    assert!(report.unrecognized.is_empty());
    assert_eq!(
        uploader.strategy().calls,
        vec![
            ("a.png".to_string(), b"hello".to_vec(), HASH_OF_HELLO.to_string()),
            ("b.png".to_string(), Vec::new(), HASH_OF_NOTHING.to_string()),
        ]
    );
    assert_eq!(s.inputs.entries[0].1.hash, Some(HASH_OF_HELLO.to_string()));
    assert_eq!(s.inputs.entries[0].1.id, Some(100));
    assert_eq!(s.inputs.entries[1].1.hash, Some(HASH_OF_NOTHING.to_string()));
    assert_eq!(s.inputs.entries[1].1.id, Some(101));

    let manifest = s.write_manifest();
    assert_eq!(manifest.inputs.len(), 2);
    assert_eq!(
        manifest.inputs.get("a.png"),
        Some(&record(Some(HASH_OF_HELLO), Some(100), declaration(Some(CodegenKind::AssetUrl), false)))
    );
    assert_eq!(
        manifest.inputs.get("b.png"),
        Some(&record(Some(HASH_OF_NOTHING), Some(101), declaration(Some(CodegenKind::AssetUrl), false)))
    );
    assert_eq!(manifest.inputs.get("c.png"), None);
}

fn first_run() -> Manifest {
    let mut s = session(
        vec![declaration(Some(CodegenKind::AssetUrl), false)],
        Err(ManifestError::NotFound),
        &["proj/b.png", "proj/a.png", "proj/notes.txt"],
    );
    let mut uploader = Uploader::new(Counting::new());
    let reads = vec![read(b"hello"), read(b"world"), FileRead::Skipped];
    assert!(s.sync(&mut uploader, &reads).is_ok());
    s.write_manifest()
}

#[test]
fn second_run_without_changes_uploads_nothing() {
    let before = first_run();
    let mut s = session(
        vec![declaration(Some(CodegenKind::AssetUrl), false)],
        Ok(first_run()),
        &["proj/notes.txt", "proj/a.png", "proj/b.png"],
    );
    let mut uploader = Uploader::new(Counting::new());
    let reads = vec![read(b"hello"), read(b"world"), FileRead::Skipped];
    let report = s.sync(&mut uploader, &reads);
    match report {
        Ok(r) => {
            assert!(r.uploaded.is_empty());
            assert_eq!(r.unrecognized, vec![2]);
        }
        Err(e) => panic!("sync failed: {:?}", e),
    }
    assert!(uploader.strategy().calls.is_empty());
    assert_eq!(s.write_manifest(), before);
}

#[test]
fn second_run_uploads_only_the_file_that_changed() {
    let mut s = session(
        vec![declaration(Some(CodegenKind::AssetUrl), false)],
        Ok(first_run()),
        &["proj/a.png", "proj/b.png", "proj/notes.txt"],
    );
    let mut uploader = Uploader::new(Counting::from(500));
    let reads = vec![read(b"hello"), read(b"changed"), FileRead::Skipped];
    let report = s.sync(&mut uploader, &reads);
    match report {
        Ok(r) => assert_eq!(r.uploaded, vec![1]),
        Err(e) => panic!("sync failed: {:?}", e),
    }
    assert_eq!(uploader.strategy().calls.len(), 1);
    assert_eq!(uploader.strategy().calls[0].0, "b.png");
    assert_eq!(s.inputs.entries[0].1.id, Some(100));
    assert_eq!(s.inputs.entries[0].1.hash, Some(HASH_OF_HELLO.to_string()));
    assert_eq!(s.inputs.entries[1].1.id, Some(500));
    assert_eq!(s.inputs.entries[2].1.id, None);
    assert_eq!(s.inputs.entries[2].1.hash, None);
}

#[test]
fn a_changed_declaration_uploads_again() {
    let mut s = session(
        vec![declaration(Some(CodegenKind::UrlAndSlice), false)],
        Ok(first_run()),
        &["proj/a.png"],
    );
    let mut uploader = Uploader::new(Counting::new());
    let report = s.sync(&mut uploader, &vec![read(b"hello")]);
    match report {
        Ok(r) => assert_eq!(r.uploaded, vec![0]),
        Err(e) => panic!("sync failed: {:?}", e),
    }
    assert_eq!(uploader.strategy().calls.len(), 1);
}

#[test]
fn packable_and_unrecognized_inputs_are_left_alone() {
    let mut s = match SyncSession::new(
        FsPath::parse("proj"),
        config(vec![
            declaration(Some(CodegenKind::AssetUrl), true),
            declaration(Some(CodegenKind::AssetUrl), false),
        ]),
        Err(ManifestError::NotFound),
    ) {
        Ok(s) => s,
        Err(e) => panic!("no session: {:?}", e),
    };
    let found = vec![
        found((0, 0), "proj/packed.png"),
        found((0, 1), "proj/readme.md"),
        found((0, 1), "proj/image.jpg"),
    ];
    assert_eq!(s.discover_inputs(&found), Ok(()));
    // In the order of the names: image.jpg, packed.png, readme.md.
    assert!(s.wants_contents(0));
    assert!(!s.wants_contents(1));
    assert!(!s.wants_contents(2));
    let mut uploader = Uploader::new(Counting::new());
    let reads = vec![read(b"hello"), FileRead::Skipped, FileRead::Skipped];
    let report = s.sync(&mut uploader, &reads);
    match report {
        Ok(r) => {
            assert_eq!(r.uploaded, vec![0]);
            assert_eq!(r.packable, vec![1]);
            assert_eq!(r.unrecognized, vec![2]);
        }
        Err(e) => panic!("sync failed: {:?}", e),
    }
    assert_eq!(s.inputs.entries[1].1.hash, None);
    assert_eq!(s.inputs.entries[1].1.id, None);
    let manifest = s.write_manifest();
    assert_eq!(
        manifest.inputs.get("packed.png"),
        Some(&record(None, None, declaration(Some(CodegenKind::AssetUrl), true)))
    );
}

#[test]
fn a_failed_upload_ends_the_sync() {
    let mut s = session(
        vec![declaration(Some(CodegenKind::AssetUrl), false)],
        Err(ManifestError::NotFound),
        &["proj/a.png", "proj/b.png", "proj/c.png"],
    );
    let mut uploader = Uploader::new(Counting::failing_on("b.png"));
    let reads = vec![read(b"1"), read(b"2"), read(b"3")];
    assert_eq!(s.sync(&mut uploader, &reads), Err(Error::NoAuth));
    assert_eq!(uploader.strategy().calls.len(), 2);
    assert_eq!(s.inputs.entries[0].1.id, Some(100));
    assert_eq!(s.inputs.entries[1].1.id, None);
    assert_eq!(s.inputs.entries[2].1.id, None);
    assert_eq!(s.inputs.entries[2].1.hash, None);
}

#[test]
fn a_file_that_cannot_be_read_ends_the_sync() {
    let mut s = session(
        vec![declaration(Some(CodegenKind::AssetUrl), false)],
        Err(ManifestError::NotFound),
        &["proj/a.png", "proj/b.png"],
    );
    let mut uploader = Uploader::new(Counting::new());
    let reads = vec![read(b"1"), FileRead::Failed("permission denied".to_string())];
    assert_eq!(
        s.sync(&mut uploader, &reads),
        Err(Error::Io {
            path: FsPath::parse("proj/b.png"),
            source: "permission denied".to_string()
        })
    );
    assert_eq!(uploader.strategy().calls.len(), 1);
}

#[test]
fn syncing_one_image_says_whether_it_was_uploaded() {
    let mut s = session(
        vec![declaration(Some(CodegenKind::AssetUrl), false)],
        Ok(first_run()),
        &["proj/a.png"],
    );
    let mut uploader = Uploader::new(Counting::from(900));
    assert_eq!(s.sync_unpackable_image(&mut uploader, 0, &read(b"hello")), Ok(false));
    assert_eq!(s.inputs.entries[0].1.id, Some(100));
    assert!(uploader.strategy().calls.is_empty());
    assert_eq!(s.sync_unpackable_image(&mut uploader, 0, &read(b"other")), Ok(true));
    assert_eq!(s.inputs.entries[0].1.id, Some(900));
    assert_eq!(uploader.strategy().calls.len(), 1);
    assert_eq!(
        s.sync_unpackable_image(&mut uploader, 0, &FileRead::Failed("gone".to_string())),
        Err(Error::Io { path: FsPath::parse("proj/a.png"), source: "gone".to_string() })
    );
}

#[test]
fn upload_data_holds_the_name_the_contents_and_the_hash() {
    let s = session(
        vec![declaration(Some(CodegenKind::AssetUrl), false)],
        Err(ManifestError::NotFound),
        &["proj/a.png", "proj/sub/b.png"],
    );
    let data = s.upload_data(1, &b"hello".to_vec(), &HASH_OF_HELLO.to_string());
    assert_eq!(data.name.as_str(), "sub/b.png");
    assert_eq!(data.contents, b"hello".to_vec());
    assert_eq!(data.hash, HASH_OF_HELLO);
}

#[test]
fn recording_an_upload_takes_the_identifier_of_the_answer() {
    let mut s = session(
        vec![declaration(Some(CodegenKind::AssetUrl), false)],
        Err(ManifestError::NotFound),
        &["proj/a.png", "proj/b.png"],
    );
    assert_eq!(
        s.record_upload(1, HASH_OF_HELLO.to_string(), Ok(UploadResponse { id: 7 })),
        Ok(true)
    );
    assert_eq!(s.inputs.entries[1].1.id, Some(7));
    assert_eq!(s.inputs.entries[1].1.hash, Some(HASH_OF_HELLO.to_string()));
    assert_eq!(s.inputs.entries[1].1.path, FsPath::parse("proj/b.png"));
    assert_eq!(s.inputs.entries[0].1.id, None);
    assert_eq!(s.inputs.entries[0].1.hash, None);
}

#[test]
fn recording_a_failed_upload_hands_the_error_back_and_keeps_the_identifier() {
    let mut s = session(
        vec![declaration(Some(CodegenKind::AssetUrl), false)],
        Err(ManifestError::NotFound),
        &["proj/a.png"],
    );
    let failure = Error::Io { path: FsPath::parse("net"), source: "timeout".to_string() };
    assert_eq!(
        s.record_upload(0, HASH_OF_HELLO.to_string(), Err(failure)),
        Err(Error::Io { path: FsPath::parse("net"), source: "timeout".to_string() })
    );
    assert_eq!(s.inputs.entries[0].1.id, None);
    assert_eq!(s.inputs.entries[0].1.hash, Some(HASH_OF_HELLO.to_string()));
    assert_eq!(s.record_upload(0, HASH_OF_NOTHING.to_string(), Ok(UploadResponse { id: 3 })), Ok(true));
    assert_eq!(
        s.record_upload(0, HASH_OF_HELLO.to_string(), Err(Error::NoAuth)),
        Err(Error::NoAuth)
    );
    assert_eq!(s.inputs.entries[0].1.id, Some(3));
    assert_eq!(s.inputs.entries[0].1.hash, Some(HASH_OF_HELLO.to_string()));
}

#[test]
fn an_uploader_hands_everything_to_its_strategy() {
    let mut uploader = Uploader::new(Counting::from(40));
    let data = UploadData {
        name: tarmac::asset_name::AssetName { text: "a.png".to_string() },
        contents: b"hello".to_vec(),
        hash: HASH_OF_HELLO.to_string(),
    };
    assert_eq!(uploader.upload(data), Ok(UploadResponse { id: 40 }));
    assert_eq!(
        uploader.strategy().calls,
        vec![("a.png".to_string(), b"hello".to_vec(), HASH_OF_HELLO.to_string())]
    );
    let strategy = uploader.into_strategy();
    assert_eq!(strategy.next_id, 41);
}

#[test]
fn session_codegen_writes_asset_urls_next_to_the_inputs() {
    let mut s = match SyncSession::new(
        FsPath::parse("proj"),
        config(vec![
            declaration(Some(CodegenKind::AssetUrl), false),
            declaration(Some(CodegenKind::UrlAndSlice), false),
            declaration(None, false),
        ]),
        Err(ManifestError::NotFound),
    ) {
        Ok(s) => s,
        Err(e) => panic!("no session: {:?}", e),
    };
    let found = vec![
        found((0, 0), "proj/a.png"),
        found((0, 0), "proj/b.txt"),
        found((0, 1), "proj/c.png"),
        found((0, 2), "proj/d.png"),
    ];
    assert_eq!(s.discover_inputs(&found), Ok(()));
    let mut uploader = Uploader::new(Counting::new());
    let reads = vec![read(b"a"), FileRead::Skipped, read(b"c"), read(b"d")];
    assert!(s.sync(&mut uploader, &reads).is_ok());
    let output = s.codegen();
    assert_eq!(output.unsupported, vec![2]);
    assert_eq!(output.files.len(), 1);
    assert_eq!(output.files[0].path, FsPath::parse("proj/a.lua"));
    assert_eq!(
        output.files[0].contents,
        format!("{}\nreturn \"rbxassetid://100\"\n", CODEGEN_HEADER)
    );

    let inputs = s.codegen_inputs();
    assert_eq!(inputs.len(), 4);
    assert_eq!(inputs[0].base_path, FsPath::parse("proj"));
    assert_eq!(inputs[0].id, Some(100));
    assert_eq!(inputs[1].id, None);
    assert_eq!(inputs[2].codegen, Some(CodegenKind::UrlAndSlice));
    assert_eq!(inputs[3].codegen, None);
    let grouped = perform_codegen(Some(&FsPath::parse("proj/assets.lua")), &inputs);
    assert_eq!(
        grouped.files[0].contents,
        format!(
            "{}\nreturn {{\n\ta = \"rbxassetid://100\",\n\tc = {{\n\t\tImage = \"rbxassetid://101\",\n\t}},\n}}\n",
            CODEGEN_HEADER
        )
    );
}
