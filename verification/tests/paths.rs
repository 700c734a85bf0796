use tarmac::asset_name::AssetName;
use tarmac::glob::get_prefix;
use tarmac::path::{stem, FsPath};
use tarmac::sync::is_image_asset;
use tarmac::text::{compare_text, Relation};

fn path(text: &str) -> FsPath {
    FsPath::parse(text)
}

#[test]
fn parse_splits_at_slashes_and_drops_empty_components() {
    assert_eq!(
        path("a/b/x.png").components,
        vec!["a".to_string(), "b".to_string(), "x.png".to_string()]
    );
    assert_eq!(path("/a//b/").components, vec!["a".to_string(), "b".to_string()]);
    assert_eq!(path("").components, Vec::<String>::new());
    assert_eq!(path("///").components, Vec::<String>::new());
    assert_eq!(path("single").components, vec!["single".to_string()]);
}

#[test]
fn display_joins_with_slashes() {
    assert_eq!(path("a/b/c.png").display(), "a/b/c.png");
    assert_eq!(path("a").display(), "a");
    assert_eq!(path("").display(), "");
}

#[test]
fn strip_prefix_gives_the_rest_or_nothing() {
    let full = path("proj/assets/a.png");
    assert_eq!(full.strip_prefix(&path("proj")), Some(path("assets/a.png")));
    assert_eq!(full.strip_prefix(&path("proj/assets/a.png")), Some(path("")));
    assert_eq!(full.strip_prefix(&path("")), Some(path("proj/assets/a.png")));
    assert_eq!(full.strip_prefix(&path("other")), None);
    assert_eq!(full.strip_prefix(&path("proj/assets/a.png/deeper")), None);
    assert!(full.starts_with(&path("proj/assets")));
    assert!(!full.starts_with(&path("assets")));
}

#[test]
fn join_appends_components() {
    assert_eq!(path("proj").join(&path("assets/img")), path("proj/assets/img"));
    assert_eq!(path("proj").join(&path("")), path("proj"));
}

#[test]
fn same_compares_component_by_component() {
    assert!(path("a/b").same(&path("a//b")));
    assert!(!path("a/b").same(&path("a/c")));
    assert!(!path("a/b").same(&path("a")));
}

#[test]
fn collapse_resolves_dots() {
    assert_eq!(path("a/./b/../c").collapse(), Some(path("a/c")));
    assert_eq!(path("./a").collapse(), Some(path("a")));
    assert_eq!(path("a/..").collapse(), Some(path("")));
    assert_eq!(path("a/../..").collapse(), None);
    assert_eq!(path("../a").collapse(), None);
    assert_eq!(path("a/b").collapse(), Some(path("a/b")));
}

#[test]
fn stem_and_extension_split_at_the_last_dot() {
    assert_eq!(stem("x.png"), "x");
    assert_eq!(stem("archive.tar.gz"), "archive.tar");
    assert_eq!(stem("noext"), "noext");
    assert_eq!(stem(".hidden"), ".hidden");
    assert_eq!(stem(".."), "..");
    assert_eq!(stem("trailing."), "trailing");
    assert_eq!(path("a/x.png").file_stem(), Some("x".to_string()));
    assert_eq!(path("").file_stem(), None);
    assert_eq!(path("a/x.png").extension(), Some("png".to_string()));
    assert_eq!(path("a/archive.tar.gz").extension(), Some("gz".to_string()));
    assert_eq!(path("a/noext").extension(), None);
    assert_eq!(path("a/.hidden").extension(), None);
    assert_eq!(path("a/..").extension(), None);
    assert_eq!(path("a/trailing.").extension(), Some("".to_string()));
    assert_eq!(path("").extension(), None);
}

#[test]
fn with_extension_replaces_or_adds() {
    assert_eq!(path("a/x.png").with_extension("lua"), path("a/x.lua"));
    assert_eq!(path("a/noext").with_extension("lua"), path("a/noext.lua"));
    assert_eq!(path("a/archive.tar.gz").with_extension("lua"), path("a/archive.tar.lua"));
    assert_eq!(path("a/.hidden").with_extension("lua"), path("a/.hidden.lua"));
    assert_eq!(path("a/..").with_extension("lua"), path("a/.."));
    assert_eq!(path("").with_extension("lua"), path(""));
}

#[test]
fn image_assets_are_png_and_jpg() {
    assert!(is_image_asset(&path("a/x.png")));
    assert!(is_image_asset(&path("a/x.jpg")));
    assert!(!is_image_asset(&path("a/x.PNG")));
    assert!(!is_image_asset(&path("a/x.jpeg")));
    assert!(!is_image_asset(&path("a/x.txt")));
    assert!(!is_image_asset(&path("a/png")));
    assert!(!is_image_asset(&path("a/.png")));
    assert!(!is_image_asset(&path("")));
}

#[test]
fn asset_name_is_the_path_below_the_folder() {
    let name = AssetName::from_paths(&path("home/proj"), &path("home/proj/assets/a.png"));
    assert_eq!(name.as_str(), "assets/a.png");
    let at_root = AssetName::from_paths(&path("home/proj"), &path("home/proj"));
    assert_eq!(at_root.as_str(), "");
}

#[test]
fn glob_prefix_stops_at_the_first_pattern_component() {
    assert_eq!(get_prefix("assets/img/**/*.png"), path("assets/img"));
    assert_eq!(get_prefix("**/*.png"), path(""));
    assert_eq!(get_prefix("assets/logo.png"), path("assets/logo.png"));
    assert_eq!(get_prefix("assets/ico?s/a.png"), path("assets"));
    assert_eq!(get_prefix("a/[bc]/d"), path("a"));
    assert_eq!(get_prefix("a/{b,c}/d"), path("a"));
    assert_eq!(get_prefix(""), path(""));
}

#[test]
fn texts_are_ordered_by_code_point() {
    assert_eq!(compare_text("a", "b"), Relation::Before);
    assert_eq!(compare_text("b", "a"), Relation::After);
    assert_eq!(compare_text("abc", "abc"), Relation::Same);
    assert_eq!(compare_text("ab", "abc"), Relation::Before);
    assert_eq!(compare_text("abc", "ab"), Relation::After);
    assert_eq!(compare_text("", ""), Relation::Same);
    assert_eq!(compare_text("", "a"), Relation::Before);
    assert_eq!(compare_text("Z", "a"), Relation::Before);
    assert_eq!(compare_text("a", "\u{e9}"), Relation::Before);
}
