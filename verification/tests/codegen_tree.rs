use tarmac::codegen::{
    codegen_grouped, codegen_individual, perform_codegen, CodegenInput, PathConflict,
    CODEGEN_HEADER,
};
use tarmac::data::{CodegenKind, ImageSlice};
use tarmac::path::FsPath;

fn input(path: &str, id: Option<u64>) -> CodegenInput {
    CodegenInput {
        path: FsPath::parse(path),
        base_path: FsPath::parse("proj/assets"),
        codegen: Some(CodegenKind::AssetUrl),
        id,
        slice: None,
    }
}

fn file(body: &str) -> String {
    format!("{}\nreturn {}\n", CODEGEN_HEADER, body)
}

#[test]
fn grouped_codegen_rebuilds_the_tree_of_paths() {
    let inputs = vec![
        input("proj/assets/a/b/x.png", Some(1)),
        input("proj/assets/a/b/y.png", Some(2)),
        input("proj/assets/a/c/z.png", Some(3)),
    ];
    let out = FsPath::parse("proj/out.lua");
    let output = perform_codegen(Some(&out), &inputs);
    assert_eq!(output.files.len(), 1);
    assert_eq!(output.files[0].path, out);
    assert_eq!(
        output.files[0].contents,
        file(
            "{\n\ta = {\n\t\tb = {\n\t\t\tx = \"rbxassetid://1\",\n\t\t\ty = \"rbxassetid://2\",\n\t\t},\n\t\tc = {\n\t\t\tz = \"rbxassetid://3\",\n\t\t},\n\t},\n}"
        )
    );
    assert!(output.conflicts.is_empty());
}

#[test]
fn grouped_codegen_orders_keys_whatever_the_order_of_inputs() {
    let forward = vec![
        input("proj/assets/a/b/x.png", Some(1)),
        input("proj/assets/a/b/y.png", Some(2)),
        input("proj/assets/a/c/z.png", Some(3)),
        input("proj/assets/B.png", Some(4)),
    ];
    let backward = vec![
        input("proj/assets/B.png", Some(4)),
        input("proj/assets/a/c/z.png", Some(3)),
        input("proj/assets/a/b/y.png", Some(2)),
        input("proj/assets/a/b/x.png", Some(1)),
    ];
    let out = FsPath::parse("out.lua");
    let one = codegen_grouped(&out, &forward);
    let other = codegen_grouped(&out, &backward);
    assert_eq!(one.files[0].contents, other.files[0].contents);
    assert!(one.files[0].contents.contains("return {\n\tB = \"rbxassetid://4\",\n\ta = {\n"));
}

#[test]
fn grouped_codegen_leaves_out_inputs_without_identifier() {
    let inputs = vec![
        input("proj/assets/a/b/x.png", Some(1)),
        input("proj/assets/a/b/y.png", None),
        input("proj/assets/a/c/z.png", Some(3)),
    ];
    let output = codegen_grouped(&FsPath::parse("out.lua"), &inputs);
    assert_eq!(
        output.files[0].contents,
        file(
            "{\n\ta = {\n\t\tb = {\n\t\t\tx = \"rbxassetid://1\",\n\t\t},\n\t\tc = {\n\t\t\tz = \"rbxassetid://3\",\n\t\t},\n\t},\n}"
        )
    );
}

#[test]
fn namespace_without_renderable_children_is_an_empty_table() {
    let inputs = vec![input("proj/assets/a/x.png", None)];
    let output = codegen_grouped(&FsPath::parse("out.lua"), &inputs);
    assert_eq!(output.files[0].contents, file("{\n\ta = {},\n}"));
    let nothing = codegen_grouped(&FsPath::parse("out.lua"), &Vec::new());
    assert_eq!(nothing.files[0].contents, file("{}"));
}

#[test]
fn a_file_taken_for_a_folder_is_reported_and_skipped() {
    let inputs = vec![
        input("proj/assets/a.png", Some(1)),
        input("proj/assets/a/b.png", Some(2)),
        input("proj/assets/c.png", Some(3)),
    ];
    let output = codegen_grouped(&FsPath::parse("out.lua"), &inputs);
    assert_eq!(
        output.conflicts,
        vec![PathConflict { input: 1, segment: "a".to_string() }]
    );
    assert_eq!(
        output.files[0].contents,
        file("{\n\ta = \"rbxassetid://1\",\n\tc = \"rbxassetid://3\",\n}")
    );
}

#[test]
fn a_conflict_deep_in_the_tree_leaves_the_folders_above_alone() {
    let inputs = vec![
        input("proj/assets/a/b.png", Some(1)),
        input("proj/assets/a/b/c/d.png", Some(2)),
    ];
    let output = codegen_grouped(&FsPath::parse("out.lua"), &inputs);
    assert_eq!(
        output.conflicts,
        vec![PathConflict { input: 1, segment: "b".to_string() }]
    );
    assert_eq!(output.files[0].contents, file("{\n\ta = {\n\t\tb = \"rbxassetid://1\",\n\t},\n}"));
}

#[test]
fn a_later_leaf_takes_the_place_of_what_had_its_name() {
    let inputs = vec![
        input("proj/assets/a/b.png", Some(1)),
        input("proj/assets/a.png", Some(2)),
        input("proj/assets/x.png", Some(3)),
        input("proj/assets/x.jpg", Some(4)),
    ];
    let output = codegen_grouped(&FsPath::parse("out.lua"), &inputs);
    assert!(output.conflicts.is_empty());
    assert_eq!(
        output.files[0].contents,
        file("{\n\ta = \"rbxassetid://2\",\n\tx = \"rbxassetid://4\",\n}")
    );
}

#[test]
fn relative_paths_are_collapsed() {
    let inputs = vec![input("proj/assets/./a/../b/x.png", Some(1))];
    let output = codegen_grouped(&FsPath::parse("out.lua"), &inputs);
    assert_eq!(output.files[0].contents, file("{\n\tb = {\n\t\tx = \"rbxassetid://1\",\n\t},\n}"));
}

#[test]
fn groupable_inputs_lie_below_their_base_path() {
    assert!(input("proj/assets/a.png", None).is_groupable());
    assert!(input("proj/assets", None).is_groupable());
    assert!(!input("proj/other/a.png", None).is_groupable());
    assert!(!input("proj/assets/../a.png", None).is_groupable());
    assert_eq!(
        input("proj/assets/a/./b.png", None).relative_path(),
        Some(FsPath::parse("a/b.png"))
    );
}

#[test]
fn an_input_at_its_base_path_adds_nothing() {
    let inputs = vec![input("proj/assets", Some(1))];
    let output = codegen_grouped(&FsPath::parse("out.lua"), &inputs);
    assert_eq!(output.files[0].contents, file("{}"));
}

#[test]
fn url_and_slice_leaves_render_as_tables() {
    let mut sliced = input("proj/assets/ui/icon.png", Some(9));
    sliced.codegen = Some(CodegenKind::UrlAndSlice);
    sliced.slice = Some(ImageSlice { min: (1, 2), size: (3, 4) });
    let mut plain = input("proj/assets/ui/logo.png", Some(8));
    plain.codegen = Some(CodegenKind::UrlAndSlice);
    let output = codegen_grouped(&FsPath::parse("out.lua"), &vec![sliced, plain]);
    assert_eq!(
        output.files[0].contents,
        file(
            "{\n\tui = {\n\t\ticon = {\n\t\t\tImage = \"rbxassetid://9\",\n\t\t\tImageRectOffset = Vector2.new(1, 2),\n\t\t\tImageRectSize = Vector2.new(3, 4),\n\t\t},\n\t\tlogo = {\n\t\t\tImage = \"rbxassetid://8\",\n\t\t},\n\t},\n}"
        )
    );
}

#[test]
fn inputs_without_codegen_kind_give_no_code() {
    let mut silent = input("proj/assets/a.png", Some(1));
    silent.codegen = None;
    let grouped = codegen_grouped(&FsPath::parse("out.lua"), &vec![silent]);
    assert_eq!(grouped.files[0].contents, file("{}"));
    let mut silent = input("proj/assets/a.png", Some(1));
    silent.codegen = None;
    let individual = codegen_individual(&vec![silent]);
    assert!(individual.files.is_empty());
}

#[test]
fn individual_codegen_writes_one_file_next_to_each_input() {
    let mut sliced = input("proj/assets/b/icon.jpg", Some(5));
    sliced.codegen = Some(CodegenKind::UrlAndSlice);
    let inputs = vec![
        input("proj/assets/a/x.png", Some(1)),
        input("proj/assets/a/y.png", None),
        sliced,
    ];
    let output = perform_codegen(None, &inputs);
    assert!(output.conflicts.is_empty());
    assert_eq!(output.files.len(), 2);
    assert_eq!(output.files[0].path, FsPath::parse("proj/assets/a/x.lua"));
    assert_eq!(output.files[0].contents, file("\"rbxassetid://1\""));
    assert_eq!(output.files[1].path, FsPath::parse("proj/assets/b/icon.lua"));
    assert_eq!(output.files[1].contents, file("{\n\tImage = \"rbxassetid://5\",\n}"));
}
