//! The names by which assets are known, whatever the machine they lie on.

use crate::path::{is_prefix, joined, FsPath};
use vstd::prelude::*;

verus! {

/// The name of the asset at `asset` for the config whose folder is `root`: the
/// path of the asset below the folder, with `/` between its components.
pub open spec fn asset_name_of(root: Seq<Seq<char>>, asset: Seq<Seq<char>>) -> Seq<char> {
    joined(asset.skip(root.len() as int))
}

/// The name of an asset.
#[derive(Debug, PartialEq, Eq)]
pub struct AssetName {
    pub text: String,
}

impl View for AssetName {
    type V = Seq<char>;

    open spec fn view(&self) -> Seq<char> {
        self.text@
    }
}

impl Clone for AssetName {
    fn clone(&self) -> (copy: Self)
        ensures
            copy@ == self@,
    {
        AssetName { text: self.text.clone() }
    }
}

impl AssetName {
    /// The name of the asset at `asset_path` for the config whose folder is
    /// `root_path`.
    pub fn from_paths(root_path: &FsPath, asset_path: &FsPath) -> (name: AssetName)
        requires
            is_prefix(root_path@, asset_path@),
        ensures
            name@ == asset_name_of(root_path@, asset_path@),
    {
        match asset_path.strip_prefix(root_path) {
            Some(relative) => AssetName { text: relative.display() },
            None => AssetName { text: String::new() },
        }
    }

    /// The name as text.
    pub fn as_str(&self) -> (text: &str)
        ensures
            text@ == self@,
    {
        self.text.as_str()
    }
}

} // verus!
