//! The values that a sync works on: configs, inputs, manifests and errors.

use crate::path::FsPath;
use crate::sorted::SortedMap;
use vstd::prelude::*;

verus! {

/// Which binding code is generated for an input.
#[derive(Clone, Copy, PartialEq, Eq, Debug, Structural)]
pub enum CodegenKind {
    /// A string that holds the URL of the asset.
    AssetUrl,
    /// A table that holds the URL of the image and where the asset lies in it.
    UrlAndSlice,
}

/// A rectangle inside a packed image.
#[derive(Clone, Copy, PartialEq, Eq, Debug)]
pub struct ImageSlice {
    pub min: (u32, u32),
    pub size: (u32, u32),
}

impl ImageSlice {
    /// The corner of the rectangle with the smallest coordinates.
    pub fn min(&self) -> (corner: (u32, u32))
        ensures
            corner == self.min,
    {
        self.min
    }

    /// The width and height of the rectangle.
    pub fn size(&self) -> (size: (u32, u32))
        ensures
            size == self.size,
    {
        self.size
    }
}

/// The characters of a text that may be missing.
pub open spec fn text_view(text: Option<String>) -> Option<Seq<char>> {
    match text {
        Some(s) => Some(s@),
        None => None,
    }
}

/// A copy of a text that may be missing.
pub fn clone_text(text: &Option<String>) -> (copy: Option<String>)
    ensures
        text_view(copy) == text_view(*text),
{
    match text {
        Some(s) => Some(s.clone()),
        None => None,
    }
}

/// One declaration of inputs in a config: which files, and what to do with them.
#[derive(Debug, PartialEq, Eq)]
pub struct InputConfig {
    /// The pattern that the files match, relative to the folder of the config.
    pub glob: String,
    /// Whether the files may be packed into a shared image.
    pub packable: bool,
    /// Which binding code is generated for the files, if any.
    pub codegen: Option<CodegenKind>,
}

/// What an `InputConfig` says.
pub struct InputConfigView {
    pub glob: Seq<char>,
    pub packable: bool,
    pub codegen: Option<CodegenKind>,
}

impl View for InputConfig {
    type V = InputConfigView;

    open spec fn view(&self) -> InputConfigView {
        InputConfigView { glob: self.glob@, packable: self.packable, codegen: self.codegen }
    }
}

impl Clone for InputConfig {
    fn clone(&self) -> (copy: Self)
        ensures
            copy@ == self@,
    {
        InputConfig { glob: self.glob.clone(), packable: self.packable, codegen: self.codegen }
    }
}

impl InputConfig {
    /// Whether two declarations say the same.
    pub fn same(&self, other: &InputConfig) -> (r: bool)
        ensures
            r == (self@ == other@),
    {
        let same_codegen = match (self.codegen, other.codegen) {
            (None, None) => true,
            (Some(CodegenKind::AssetUrl), Some(CodegenKind::AssetUrl)) => true,
            (Some(CodegenKind::UrlAndSlice), Some(CodegenKind::UrlAndSlice)) => true,
            _ => false,
        };
        self.glob == other.glob && self.packable == other.packable && same_codegen
    }
}

/// A reference from one config to another config file, or to a directory that
/// is searched for configs.
#[derive(Debug, PartialEq, Eq)]
pub struct Include {
    pub path: FsPath,
}

/// A config file, as loaded.
#[derive(Debug, PartialEq, Eq)]
pub struct Config {
    pub name: String,
    /// The path that the paths of generated names are taken relative to.
    pub base_path: FsPath,
    /// The directory that holds the config file.
    pub folder: FsPath,
    pub includes: Vec<Include>,
    pub inputs: Vec<InputConfig>,
}

/// What a `Config` says.
pub struct ConfigView {
    pub name: Seq<char>,
    pub base_path: Seq<Seq<char>>,
    pub folder: Seq<Seq<char>>,
    pub includes: Seq<Seq<Seq<char>>>,
    pub inputs: Seq<InputConfigView>,
}

impl View for Config {
    type V = ConfigView;

    open spec fn view(&self) -> ConfigView {
        ConfigView {
            name: self.name@,
            base_path: self.base_path@,
            folder: self.folder@,
            includes: Seq::new(self.includes@.len(), |i: int| self.includes@[i].path@),
            inputs: Seq::new(self.inputs@.len(), |i: int| self.inputs@[i]@),
        }
    }
}

impl Config {
    /// The directory that holds the config file.
    pub fn folder(&self) -> (folder: &FsPath)
        ensures
            folder@ == self@.folder,
    {
        &self.folder
    }
}

/// What the previous sync recorded of one input.
#[derive(Debug, PartialEq, Eq)]
pub struct InputManifest {
    /// The hash of the contents that the input had.
    pub hash: Option<String>,
    /// The identifier that the asset store gave the input.
    pub id: Option<u64>,
    /// Where the input lies in a packed image.
    pub slice: Option<ImageSlice>,
    /// The declaration that applied to the input.
    pub config: InputConfig,
}

/// What an `InputManifest` says.
pub struct InputManifestView {
    pub hash: Option<Seq<char>>,
    pub id: Option<u64>,
    pub slice: Option<ImageSlice>,
    pub config: InputConfigView,
}

impl View for InputManifest {
    type V = InputManifestView;

    open spec fn view(&self) -> InputManifestView {
        InputManifestView {
            hash: text_view(self.hash),
            id: self.id,
            slice: self.slice,
            config: self.config@,
        }
    }
}

/// What a sync recorded of its inputs, by asset name.
#[derive(Debug, PartialEq, Eq)]
pub struct Manifest {
    pub inputs: SortedMap<InputManifest>,
}

/// The pairs of a manifest, each with what its record says.
pub open spec fn manifest_view(entries: Seq<(Seq<char>, InputManifest)>) -> Seq<
    (Seq<char>, InputManifestView),
> {
    Seq::new(entries.len(), |i: int| (entries[i].0, entries[i].1@))
}

impl View for Manifest {
    type V = Seq<(Seq<char>, InputManifestView)>;

    open spec fn view(&self) -> Seq<(Seq<char>, InputManifestView)> {
        manifest_view(self.inputs.model())
    }
}

impl Manifest {
    /// The manifest without records.
    pub fn new() -> (manifest: Manifest)
        ensures
            manifest@ == Seq::<(Seq<char>, InputManifestView)>::empty(),
            manifest.inputs.wf(),
    {
        let manifest = Manifest { inputs: SortedMap::new() };
        assert(manifest@ =~= Seq::<(Seq<char>, InputManifestView)>::empty());
        manifest
    }
}

/// Why a config could not be loaded.
#[derive(Debug, PartialEq, Eq)]
pub enum ConfigError {
    /// There is no config file at the place that was looked at.
    NotFound,
    /// The file is there and could not be read as a config.
    Invalid(String),
    /// The includes of the configs lead to the place with this canonical path
    /// a second time.
    Cycle(FsPath),
}

impl ConfigError {
    /// Whether the config file was missing.
    pub fn is_not_found(&self) -> (r: bool)
        ensures
            r == (self is NotFound),
    {
        match self {
            ConfigError::NotFound => true,
            ConfigError::Invalid(_) => false,
            ConfigError::Cycle(_) => false,
        }
    }
}

/// Why a manifest could not be loaded or stored.
#[derive(Debug, PartialEq, Eq)]
pub enum ManifestError {
    /// There is no manifest file at the place that was looked at.
    NotFound,
    /// The file is there and could not be read, or could not be written.
    Invalid(String),
}

impl ManifestError {
    /// Whether the manifest file was missing.
    pub fn is_not_found(&self) -> (r: bool)
        ensures
            r == (self is NotFound),
    {
        match self {
            ManifestError::NotFound => true,
            ManifestError::Invalid(_) => false,
        }
    }
}

/// Why a sync ended early.
#[derive(Debug, PartialEq, Eq)]
#[allow(inconsistent_fields)]
pub enum Error {
    /// A config file could not be loaded.
    Config { source: ConfigError },
    /// The manifest could not be loaded or stored.
    Manifest { source: ManifestError },
    /// The file system refused an operation on `path`.
    Io { path: FsPath, source: String },
    /// The current directory of the process could not be found out.
    CurrentDir { source: String },
    /// The asset store asks for a credential and none was given.
    NoAuth,
    /// A directory could not be walked.
    WalkDir { source: String },
    /// Two inputs have the same asset name; `path` is the one found first.
    OverlappingGlobs { path: FsPath },
}

} // verus!
