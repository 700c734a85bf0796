use tarmac::codegen::{AssetUrlTemplate, UrlAndSliceTemplate, CODEGEN_HEADER};
use tarmac::data::ImageSlice;
use tarmac::lua::{Expression, Statement, Table};

fn text(s: &str) -> Expression {
    Expression::String(s.to_string())
}

fn table(entries: Vec<(&str, Expression)>) -> Expression {
    Expression::Table(Table {
        entries: entries.into_iter().map(|(k, v)| (k.to_string(), v)).collect(),
    })
}

#[test]
fn strings_are_quoted_and_escaped() {
    assert_eq!(text("hello").render(), "\"hello\"");
    assert_eq!(text("").render(), "\"\"");
    assert_eq!(text("a\"b").render(), "\"a\\\"b\"");
    assert_eq!(text("a\\b").render(), "\"a\\\\b\"");
    assert_eq!(text("a\nb\rc").render(), "\"a\\nb\\rc\"");
}

#[test]
fn raw_text_is_written_as_it_stands() {
    assert_eq!(Expression::Raw("Vector2.new(1, 2)".to_string()).render(), "Vector2.new(1, 2)");
}

#[test]
fn empty_table_renders_as_braces() {
    assert_eq!(table(vec![]).render(), "{}");
}

#[test]
fn tables_nest_with_tabs() {
    let value = table(vec![("a", table(vec![("b", text("x"))])), ("c", table(vec![]))]);
    assert_eq!(value.render(), "{\n\ta = {\n\t\tb = \"x\",\n\t},\n\tc = {},\n}");
}

#[test]
fn keys_that_are_no_names_are_bracketed() {
    let value = table(vec![
        ("plain_1", text("a")),
        ("with space", text("b")),
        ("1st", text("c")),
        ("end", text("d")),
        ("", text("e")),
        ("caf\u{e9}", text("f")),
    ]);
    assert_eq!(
        value.render(),
        "{\n\tplain_1 = \"a\",\n\t[\"with space\"] = \"b\",\n\t[\"1st\"] = \"c\",\n\t[\"end\"] = \"d\",\n\t[\"\"] = \"e\",\n\t[\"caf\u{e9}\"] = \"f\",\n}"
    );
}

#[test]
fn return_statement_ends_the_line() {
    assert_eq!(Statement::Return(text("x")).render(), "return \"x\"\n");
}

#[test]
fn asset_url_template_names_the_asset() {
    assert_eq!(AssetUrlTemplate { id: 0 }.to_lua(), text("rbxassetid://0"));
    assert_eq!(AssetUrlTemplate { id: 1234567890 }.to_lua(), text("rbxassetid://1234567890"));
    assert_eq!(
        AssetUrlTemplate { id: u64::MAX }.to_lua(),
        text("rbxassetid://18446744073709551615")
    );
}

#[test]
fn asset_url_template_renders_a_whole_file() {
    let expected = format!("{}\nreturn \"rbxassetid://42\"\n", CODEGEN_HEADER);
    assert_eq!(AssetUrlTemplate { id: 42 }.render(), expected);
    assert_eq!(
        CODEGEN_HEADER,
        "-- This file was @generated by Tarmac. It is not intended for manual editing."
    );
}

#[test]
fn url_and_slice_template_without_slice_has_only_the_image() {
    let code = UrlAndSliceTemplate { id: 7, slice: None }.to_lua();
    assert_eq!(code, table(vec![("Image", text("rbxassetid://7"))]));
    assert_eq!(code.render(), "{\n\tImage = \"rbxassetid://7\",\n}");
}

#[test]
fn url_and_slice_template_with_slice_has_offset_and_size() {
    let slice = ImageSlice { min: (10, 20), size: (300, 4000) };
    let code = UrlAndSliceTemplate { id: 7, slice: Some(slice) }.to_lua();
    assert_eq!(
        code,
        table(vec![
            ("Image", text("rbxassetid://7")),
            ("ImageRectOffset", Expression::Raw("Vector2.new(10, 20)".to_string())),
            ("ImageRectSize", Expression::Raw("Vector2.new(300, 4000)".to_string())),
        ])
    );
    assert_eq!(slice.min(), (10, 20));
    assert_eq!(slice.size(), (300, 4000));
}
