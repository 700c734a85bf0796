//! Generation of the Lua code that links to synced assets.
//!
//! The inputs of a group are laid out as a tree that follows their paths, and
//! the tree is written out as nested tables. An input that is not part of a
//! group gets a file of its own next to it.

use crate::data::{CodegenKind, ImageSlice};
use crate::lua::{fields_view, rendered_return, Expression, LuaValue, Statement, Table};
use crate::path::{collapsed, is_prefix, stem, stem_of, with_extension_of, FsPath};
use crate::sorted::{
    lemma_map_pairs_put, lemma_map_pairs_rank, lemma_put_sorted, lemma_rank, lookup,
    map_pairs, put, rank, sorted, SortedMap,
};
use crate::text::{
    chars_of, decimal, lemma_text_lt_at, lemma_text_lt_transitive, push_decimal, push_text,
    string_of, text_lt,
};
use vstd::prelude::*;

verus! {

/// The first line of every generated file.
pub const CODEGEN_HEADER: &'static str =
    "-- This file was @generated by Tarmac. It is not intended for manual editing.";

/// What the generated code says of one input.
#[derive(Clone, Copy, PartialEq, Eq, Debug)]
pub struct Asset {
    /// Which binding code is generated, if any.
    pub codegen: Option<CodegenKind>,
    /// The identifier that the asset store gave the input, once it has one.
    pub id: Option<u64>,
    /// Where the input lies in a packed image.
    pub slice: Option<ImageSlice>,
}

/// An input as code generation sees it.
#[derive(Debug, PartialEq, Eq)]
pub struct CodegenInput {
    /// The path of the file.
    pub path: FsPath,
    /// The path that generated names are taken relative to.
    pub base_path: FsPath,
    /// Which binding code is generated, if any.
    pub codegen: Option<CodegenKind>,
    /// The identifier that the asset store gave the input, once it has one.
    pub id: Option<u64>,
    /// Where the input lies in a packed image.
    pub slice: Option<ImageSlice>,
}

/// What a `CodegenInput` says.
pub struct CodegenInputView {
    pub path: Seq<Seq<char>>,
    pub base_path: Seq<Seq<char>>,
    pub asset: Asset,
}

impl View for CodegenInput {
    type V = CodegenInputView;

    open spec fn view(&self) -> CodegenInputView {
        CodegenInputView {
            path: self.path@,
            base_path: self.base_path@,
            asset: Asset { codegen: self.codegen, id: self.id, slice: self.slice },
        }
    }
}

/// What each of `inputs` says.
pub open spec fn inputs_view(inputs: Seq<CodegenInput>) -> Seq<CodegenInputView> {
    Seq::new(inputs.len(), |i: int| inputs[i]@)
}

/// A file to be written.
#[derive(Debug, PartialEq, Eq)]
pub struct GeneratedFile {
    pub path: FsPath,
    pub contents: String,
}

/// Where a file goes and what it holds.
pub struct FileView {
    pub path: Seq<Seq<char>>,
    pub contents: Seq<char>,
}

impl View for GeneratedFile {
    type V = FileView;

    open spec fn view(&self) -> FileView {
        FileView { path: self.path@, contents: self.contents@ }
    }
}

/// Where each of `files` goes and what it holds.
pub open spec fn files_view(files: Seq<GeneratedFile>) -> Seq<FileView> {
    Seq::new(files.len(), |i: int| files[i]@)
}

/// An input that was left out of a group: its path leads through `segment`,
/// which an earlier input had made a file.
#[derive(Debug, PartialEq, Eq)]
pub struct PathConflict {
    /// The position of the input among the inputs of the group.
    pub input: usize,
    /// The path segment that is a file and was taken for a folder.
    pub segment: String,
}

/// Which inputs were left out, and at which segment.
pub open spec fn conflicts_view(conflicts: Seq<PathConflict>) -> Seq<(usize, Seq<char>)> {
    Seq::new(conflicts.len(), |i: int| (conflicts[i].input, conflicts[i].segment@))
}

/// What code generation hands back: the files to write, and the inputs that a
/// group had to leave out.
#[derive(Debug, PartialEq, Eq)]
pub struct CodegenOutput {
    pub files: Vec<GeneratedFile>,
    pub conflicts: Vec<PathConflict>,
}

/// The tree of a group: folders by name, in the order of the names, and the
/// inputs at their leaves.
pub enum Tree {
    Folder(Seq<(Seq<char>, Tree)>),
    Leaf(Asset),
}

/// A node of the tree of a group while it is built.
pub enum Item {
    Folder(SortedMap<Item>),
    Input(Asset),
}

impl Item {
    /// The tree that this node stands for.
    pub open spec fn tree(&self) -> Tree
        decreases self,
    {
        match self {
            Item::Folder(children) => Tree::Folder(children_trees(children.entries@)),
            Item::Input(asset) => Tree::Leaf(*asset),
        }
    }
}

/// The trees that the children of a folder stand for, each under its name.
pub open spec fn children_trees(entries: Seq<(String, Item)>) -> Seq<(Seq<char>, Tree)>
    decreases entries,
{
    Seq::new(
        entries.len(),
        |i: int|
            if 0 <= i < entries.len() {
                (entries[i].0@, entries[i].1.tree())
            } else {
                (Seq::empty(), Tree::Folder(Seq::empty()))
            },
    )
}

/// The text of the URL that names the asset `id`.
pub open spec fn asset_url(id: u64) -> Seq<char> {
    "rbxassetid://"@ + decimal(id as nat)
}

/// The text of the Lua vector with the coordinates `v`.
pub open spec fn vector2(v: (u32, u32)) -> Seq<char> {
    "Vector2.new("@ + decimal(v.0 as nat) + ", "@ + decimal(v.1 as nat) + ")"@
}

/// The table that names the image `id` and, where there is one, the rectangle
/// `slice` in it.
pub open spec fn url_and_slice(id: u64, slice: Option<ImageSlice>) -> LuaValue {
    let image = seq![("Image"@, LuaValue::Text(asset_url(id)))];
    match slice {
        Some(s) => LuaValue::Table(
            image.push(("ImageRectOffset"@, LuaValue::Raw(vector2(s.min)))).push(
                ("ImageRectSize"@, LuaValue::Raw(vector2(s.size))),
            ),
        ),
        None => LuaValue::Table(image),
    }
}

/// The code for one input: none while it has no identifier, and none where its
/// config asks for none.
pub open spec fn leaf_value(asset: Asset) -> Option<LuaValue> {
    match (asset.codegen, asset.id) {
        (Some(CodegenKind::AssetUrl), Some(id)) => Some(LuaValue::Text(asset_url(id))),
        (Some(CodegenKind::UrlAndSlice), Some(id)) => Some(url_and_slice(id, asset.slice)),
        _ => None,
    }
}

/// The text of a generated file that returns `value`.
pub open spec fn file_text(value: LuaValue) -> Seq<char> {
    CODEGEN_HEADER@ + seq!['\n'] + rendered_return(value)
}

/// The path of an input below its base path, without `.` and `..`. There is
/// none where the input does not lie below its base path, or where a `..`
/// leads above it.
pub open spec fn relative_segments(input: CodegenInputView) -> Option<Seq<Seq<char>>> {
    if is_prefix(input.base_path, input.path) {
        collapsed(input.path.skip(input.base_path.len() as int))
    } else {
        None
    }
}

/// The folder `children` after the input at `segments` was added as `leaf`.
///
/// The folders on the way are made where they are missing; the last segment,
/// without its extension, names the leaf and takes the place of whatever had
/// that name. Where a segment on the way names a leaf, nothing changes.
pub open spec fn tree_insert(
    children: Seq<(Seq<char>, Tree)>,
    segments: Seq<Seq<char>>,
    leaf: Asset,
) -> Seq<(Seq<char>, Tree)>
    decreases segments.len(),
{
    if segments.len() == 0 {
        children
    } else if segments.len() == 1 {
        put(children, stem_of(segments[0]), Tree::Leaf(leaf))
    } else {
        match lookup(children, segments[0]) {
            Some(Tree::Leaf(_)) => children,
            Some(Tree::Folder(inner)) => put(
                children,
                segments[0],
                Tree::Folder(tree_insert(inner, segments.drop_first(), leaf)),
            ),
            None => put(
                children,
                segments[0],
                Tree::Folder(tree_insert(Seq::empty(), segments.drop_first(), leaf)),
            ),
        }
    }
}

/// The segment on the way along `segments` that names a leaf of `children`,
/// if there is one.
pub open spec fn tree_conflict(children: Seq<(Seq<char>, Tree)>, segments: Seq<Seq<char>>) -> Option<
    Seq<char>,
>
    decreases segments.len(),
{
    if segments.len() <= 1 {
        None
    } else {
        match lookup(children, segments[0]) {
            Some(Tree::Leaf(_)) => Some(segments[0]),
            Some(Tree::Folder(inner)) => tree_conflict(inner, segments.drop_first()),
            None => None,
        }
    }
}

/// The root folder of the group after its first `n` inputs were added, in order.
pub open spec fn group_tree(inputs: Seq<CodegenInputView>, n: int) -> Seq<(Seq<char>, Tree)>
    decreases n,
{
    if n <= 0 {
        Seq::empty()
    } else {
        tree_insert(
            group_tree(inputs, n - 1),
            relative_segments(inputs[n - 1]).unwrap(),
            inputs[n - 1].asset,
        )
    }
}

/// The inputs among the first `n` that were left out of the group, each with
/// the segment at which its path was stopped.
pub open spec fn group_conflicts(inputs: Seq<CodegenInputView>, n: int) -> Seq<(usize, Seq<char>)>
    decreases n,
{
    if n <= 0 {
        Seq::empty()
    } else {
        let before = group_conflicts(inputs, n - 1);
        match tree_conflict(group_tree(inputs, n - 1), relative_segments(inputs[n - 1]).unwrap()) {
            Some(segment) => before.push(((n - 1) as usize, segment)),
            None => before,
        }
    }
}

/// The code for a tree: a leaf gives the code of its input, a folder a table
/// of what its children give.
pub open spec fn built(tree: Tree) -> Option<LuaValue>
    decreases tree, 0nat,
{
    match tree {
        Tree::Leaf(asset) => leaf_value(asset),
        Tree::Folder(children) => Some(LuaValue::Table(built_fields(children))),
    }
}

/// The fields that the children of a folder give, in their order. A child
/// that gives no code gives no field.
pub open spec fn built_fields(children: Seq<(Seq<char>, Tree)>) -> Seq<(Seq<char>, LuaValue)>
    decreases children, 1nat,
{
    if children.len() == 0 {
        Seq::empty()
    } else {
        let before = built_fields(children.drop_last());
        match built(children.last().1) {
            Some(value) => before.push((children.last().0, value)),
            None => before,
        }
    }
}

/// The text of the file that holds the code of a whole group.
pub open spec fn grouped_text(inputs: Seq<CodegenInputView>) -> Seq<char> {
    file_text(LuaValue::Table(built_fields(group_tree(inputs, inputs.len() as int))))
}

/// The files of inputs that are not part of a group: one for each input that
/// has code, next to the input and with the extension `lua`.
pub open spec fn individual_files(inputs: Seq<CodegenInputView>) -> Seq<FileView>
    decreases inputs.len(),
{
    if inputs.len() == 0 {
        Seq::empty()
    } else {
        let before = individual_files(inputs.drop_last());
        match leaf_value(inputs.last().asset) {
            Some(value) => before.push(
                FileView {
                    path: with_extension_of(inputs.last().path, "lua"@),
                    contents: file_text(value),
                },
            ),
            None => before,
        }
    }
}

/// The tree that a node stands for, as a function.
pub open spec fn item_tree() -> spec_fn(Item) -> Tree {
    |item: Item| item.tree()
}

/// The trees of the children of a folder are the trees of its values.
proof fn lemma_children_trees(children: &SortedMap<Item>)
    ensures
        children_trees(children.entries@) == map_pairs(children.model(), item_tree()),
{
    assert(children_trees(children.entries@) =~= map_pairs(children.model(), item_tree()));
}

/// Template for the code of an input whose kind is `AssetUrl`.
pub struct AssetUrlTemplate {
    pub id: u64,
}

/// Appends the URL that names the asset `id`.
fn push_asset_url(out: &mut Vec<char>, id: u64)
    ensures
        final(out)@ == old(out)@ + asset_url(id),
{
    push_text(out, "rbxassetid://");
    push_decimal(out, id);
    assert(out@ =~= old(out)@ + asset_url(id));
}

impl AssetUrlTemplate {
    /// The string that holds the URL of the asset.
    pub fn to_lua(&self) -> (code: Expression)
        ensures
            code@ == LuaValue::Text(asset_url(self.id)),
    {
        let mut out: Vec<char> = Vec::new();
        push_asset_url(&mut out, self.id);
        assert(out@ =~= asset_url(self.id));
        Expression::String(string_of(&out))
    }

    /// The whole text of the file that returns the URL of the asset.
    pub fn render(&self) -> (text: String)
        ensures
            text@ == file_text(LuaValue::Text(asset_url(self.id))),
    {
        file_contents(self.to_lua())
    }
}

/// Template for the code of an input whose kind is `UrlAndSlice`.
pub struct UrlAndSliceTemplate {
    pub id: u64,
    pub slice: Option<ImageSlice>,
}

/// The source text of the Lua vector with the coordinates `v`.
fn vector2_text(v: (u32, u32)) -> (text: String)
    ensures
        text@ == vector2(v),
{
    let mut out: Vec<char> = Vec::new();
    push_text(&mut out, "Vector2.new(");
    push_decimal(&mut out, v.0 as u64);
    push_text(&mut out, ", ");
    push_decimal(&mut out, v.1 as u64);
    push_text(&mut out, ")");
    assert(out@ =~= vector2(v));
    string_of(&out)
}

impl UrlAndSliceTemplate {
    /// The table that holds the URL of the image and, where the input has a
    /// slice, its offset and its size.
    pub fn to_lua(&self) -> (code: Expression)
        ensures
            code@ == url_and_slice(self.id, self.slice),
    {
        let mut entries: Vec<(String, Expression)> = Vec::new();
        let url = AssetUrlTemplate { id: self.id }.to_lua();
        entries.push(("Image".to_string(), url));
        if let Some(slice) = self.slice {
            let offset = slice.min();
            let size = slice.size();
            entries.push(("ImageRectOffset".to_string(), Expression::Raw(vector2_text(offset))));
            entries.push(("ImageRectSize".to_string(), Expression::Raw(vector2_text(size))));
        }
        let code = Expression::Table(Table { entries });
        proof {
            let fields = fields_view(entries@);
            match self.slice {
                Some(slice) => {
                    assert(fields =~= seq![("Image"@, LuaValue::Text(asset_url(self.id)))].push(
                        ("ImageRectOffset"@, LuaValue::Raw(vector2(slice.min))),
                    ).push(("ImageRectSize"@, LuaValue::Raw(vector2(slice.size)))));
                },
                None => {
                    assert(fields =~= seq![("Image"@, LuaValue::Text(asset_url(self.id)))]);
                },
            }
        }
        code
    }
}

/// The code for one input, where it has any.
fn leaf_code(asset: &Asset) -> (code: Option<Expression>)
    ensures
        match code {
            Some(e) => leaf_value(*asset) == Some(e@),
            None => leaf_value(*asset) is None,
        },
{
    match asset.codegen {
        Some(CodegenKind::AssetUrl) => {
            if let Some(id) = asset.id {
                let template = AssetUrlTemplate { id };
                Some(template.to_lua())
            } else {
                None
            }
        },
        Some(CodegenKind::UrlAndSlice) => {
            if let Some(id) = asset.id {
                let template = UrlAndSliceTemplate { id, slice: asset.slice };
                Some(template.to_lua())
            } else {
                None
            }
        },
        None => None,
    }
}

/// The whole text of the file that returns `code`.
fn file_contents(code: Expression) -> (text: String)
    ensures
        text@ == file_text(code@),
{
    let ast = Statement::Return(code);
    let body = ast.render();
    let mut out: Vec<char> = Vec::new();
    push_text(&mut out, CODEGEN_HEADER);
    out.push('\n');
    push_text(&mut out, body.as_str());
    assert(out@ =~= file_text(code@));
    string_of(&out)
}

/// Adds the input at `segments[from..]` to the folder `children` as `leaf`.
/// Hands back the segment that stopped the way, where one did.
fn insert_path(
    children: &mut SortedMap<Item>,
    segments: &Vec<String>,
    from: usize,
    leaf: Asset,
) -> (conflict: Option<String>)
    requires
        from <= segments.len(),
    ensures
        children_trees(final(children).entries@) == tree_insert(
            children_trees(old(children).entries@),
            Seq::new(segments@.len(), |i: int| segments@[i]@).skip(from as int),
            leaf,
        ),
        match conflict {
            Some(segment) => tree_conflict(
                children_trees(old(children).entries@),
                Seq::new(segments@.len(), |i: int| segments@[i]@).skip(from as int),
            ) == Some(segment@),
            None => tree_conflict(
                children_trees(old(children).entries@),
                Seq::new(segments@.len(), |i: int| segments@[i]@).skip(from as int),
            ) is None,
        },
    decreases segments.len() - from,
{
    let ghost all = Seq::new(segments@.len(), |i: int| segments@[i]@);
    let ghost rest = all.skip(from as int);
    let ghost before = children_trees(children.entries@);
    proof {
        lemma_children_trees(children);
    }
    let remaining = segments.len() - from;
    if remaining == 0 {
        return None;
    }
    assert(rest[0] == segments@[from as int]@);
    assert(rest.drop_first() =~= all.skip(from + 1));
    if remaining == 1 {
        let name = stem(segments[from].as_str());
        children.insert(name, Item::Input(leaf));
        proof {
            lemma_children_trees(children);
            lemma_map_pairs_put(old(children).model(), item_tree(), name@, Item::Input(leaf));
        }
        return None;
    }
    let key = chars_of(segments[from].as_str());
    let (at, found) = children.search(&key);
    proof {
        lemma_map_pairs_rank(children.model(), item_tree(), key@);
        lemma_rank(children.model(), key@);
    }
    if found {
        let child = children.replace_at(at, Item::Input(leaf));
        match child {
            Item::Folder(mut inner) => {
                let ghost inner_before = children_trees(inner.entries@);
                let conflict = insert_path(&mut inner, segments, from + 1, leaf);
                let ghost inner_after = children_trees(inner.entries@);
                children.replace_at(at, Item::Folder(inner));
                proof {
                    lemma_children_trees(children);
                    assert(lookup(before, key@) == Some(Tree::Folder(inner_before)));
                    assert(children_trees(children.entries@) =~= before.update(
                        at as int,
                        (key@, Tree::Folder(inner_after)),
                    ));
                }
                conflict
            },
            Item::Input(asset) => {
                children.replace_at(at, Item::Input(asset));
                proof {
                    lemma_children_trees(children);
                    assert(lookup(before, key@) == Some(Tree::Leaf(asset)));
                    assert(children_trees(children.entries@) =~= before);
                }
                Some(segments[from].clone())
            },
        }
    } else {
        let mut inner: SortedMap<Item> = SortedMap::new();
        assert(children_trees(inner.entries@) =~= Seq::<(Seq<char>, Tree)>::empty());
        let conflict = insert_path(&mut inner, segments, from + 1, leaf);
        let name = segments[from].clone();
        let ghost folder = Item::Folder(inner);
        children.insert(name, Item::Folder(inner));
        proof {
            lemma_children_trees(children);
            lemma_map_pairs_put(old(children).model(), item_tree(), key@, folder);
            lemma_no_conflict_in_empty(rest.drop_first());
        }
        conflict
    }
}

/// An input without an identifier has no code: it gives no field in the table
/// of its folder, and no file of its own.
pub proof fn lemma_no_identifier_no_code(
    children: Seq<(Seq<char>, Tree)>,
    name: Seq<char>,
    inputs: Seq<CodegenInputView>,
    input: CodegenInputView,
)
    requires
        input.asset.id is None,
    ensures
        leaf_value(input.asset) is None,
        built_fields(children.push((name, Tree::Leaf(input.asset)))) == built_fields(children),
        individual_files(inputs.push(input)) == individual_files(inputs),
{
    let more = children.push((name, Tree::Leaf(input.asset)));
    assert(more.drop_last() =~= children);
    assert(more.last() == (name, Tree::Leaf(input.asset)));
    assert(built(more.last().1) == leaf_value(input.asset));
    assert(leaf_value(input.asset) is None);
    assert(built_fields(more) == built_fields(more.drop_last()));
    assert(inputs.push(input).drop_last() =~= inputs);
    assert(inputs.push(input).last() == input);
}

/// An input that is left out leaves the tree as it was: where a segment on
/// the way names a leaf, adding the input changes nothing.
pub proof fn lemma_conflict_changes_nothing(
    children: Seq<(Seq<char>, Tree)>,
    segments: Seq<Seq<char>>,
    leaf: Asset,
)
    requires
        tree_conflict(children, segments) is Some,
    ensures
        tree_insert(children, segments, leaf) == children,
    decreases segments.len(),
{
    match lookup(children, segments[0]) {
        Some(Tree::Folder(inner)) => {
            lemma_conflict_changes_nothing(inner, segments.drop_first(), leaf);
            lemma_rank(children, segments[0]);
            assert(put(children, segments[0], Tree::Folder(inner)) =~= children);
        },
        _ => {},
    }
}

/// The folders of `tree`, at every depth, hold their children in the order
/// of their names.
pub open spec fn tree_sorted(tree: Tree) -> bool
    decreases tree, 0nat,
{
    match tree {
        Tree::Leaf(_) => true,
        Tree::Folder(children) => children_sorted(children),
    }
}

/// The folder with the children `children` and the folders below it hold
/// their children in the order of their names.
pub open spec fn children_sorted(children: Seq<(Seq<char>, Tree)>) -> bool
    decreases children, 1nat,
{
    &&& sorted(children)
    &&& forall|i: int| 0 <= i < children.len() ==> tree_sorted(#[trigger] children[i].1)
}

/// The tables of `value`, at every depth, list their fields in the order of
/// their names.
pub open spec fn value_sorted(value: LuaValue) -> bool
    decreases value, 0nat,
{
    match value {
        LuaValue::Table(fields) => fields_sorted(fields),
        _ => true,
    }
}

/// The table with the fields `fields` and the tables in it list their fields
/// in the order of their names.
pub open spec fn fields_sorted(fields: Seq<(Seq<char>, LuaValue)>) -> bool
    decreases fields, 1nat,
{
    &&& sorted(fields)
    &&& forall|i: int| 0 <= i < fields.len() ==> value_sorted(#[trigger] fields[i].1)
}

/// Putting a tree in order into a folder in order leaves the folder in order.
proof fn lemma_put_children_sorted(children: Seq<(Seq<char>, Tree)>, key: Seq<char>, tree: Tree)
    requires
        children_sorted(children),
        tree_sorted(tree),
    ensures
        children_sorted(put(children, key, tree)),
{
    lemma_put_sorted(children, key, tree);
    lemma_rank(children, key);
    let r = rank(children, key);
    let after = put(children, key, tree);
    assert forall|i: int| 0 <= i < after.len() implies tree_sorted(#[trigger] after[i].1) by {
        if i != r {
            if r < children.len() && children[r].0 == key {
                assert(after[i] == children[i]);
            } else if i < r {
                assert(after[i] == children[i]);
            } else {
                assert(after[i] == children[i - 1]);
            }
        }
    }
}

/// Adding an input to a folder in order leaves the folder in order.
pub proof fn lemma_tree_insert_sorted(
    children: Seq<(Seq<char>, Tree)>,
    segments: Seq<Seq<char>>,
    leaf: Asset,
)
    requires
        children_sorted(children),
    ensures
        children_sorted(tree_insert(children, segments, leaf)),
    decreases segments.len(),
{
    if segments.len() == 1 {
        lemma_put_children_sorted(children, stem_of(segments[0]), Tree::Leaf(leaf));
    } else if segments.len() > 1 {
        match lookup(children, segments[0]) {
            Some(Tree::Leaf(_)) => {},
            Some(Tree::Folder(inner)) => {
                lemma_rank(children, segments[0]);
                assert(tree_sorted(children[rank(children, segments[0])].1));
                lemma_tree_insert_sorted(inner, segments.drop_first(), leaf);
                lemma_put_children_sorted(
                    children,
                    segments[0],
                    Tree::Folder(tree_insert(inner, segments.drop_first(), leaf)),
                );
            },
            None => {
                lemma_tree_insert_sorted(Seq::empty(), segments.drop_first(), leaf);
                lemma_put_children_sorted(
                    children,
                    segments[0],
                    Tree::Folder(tree_insert(Seq::empty(), segments.drop_first(), leaf)),
                );
            },
        }
    }
}

/// Whatever the order of the inputs, the tree of a group holds the children
/// of every folder in the order of their names.
pub proof fn lemma_group_tree_sorted(inputs: Seq<CodegenInputView>, n: int)
    ensures
        children_sorted(group_tree(inputs, n)),
    decreases n,
{
    if n > 0 {
        lemma_group_tree_sorted(inputs, n - 1);
        lemma_tree_insert_sorted(
            group_tree(inputs, n - 1),
            relative_segments(inputs[n - 1]).unwrap(),
            inputs[n - 1].asset,
        );
    }
}

/// The code of a tree in order lists the fields of every table in the order
/// of their names, and every field has the name of a child of the folder.
pub proof fn lemma_built_sorted(children: Seq<(Seq<char>, Tree)>)
    requires
        children_sorted(children),
    ensures
        fields_sorted(built_fields(children)),
        forall|j: int|
            0 <= j < built_fields(children).len() ==> exists|i: int|
                0 <= i < children.len() && #[trigger] children[i].0 == (
                #[trigger] built_fields(children)[j]).0,
    decreases children, 1nat,
{
    if children.len() > 0 {
        let front = children.drop_last();
        let last = children.last();
        assert(children_sorted(front)) by {
            assert forall|x: int, y: int| 0 <= x < y < front.len() implies text_lt(
                #[trigger] front[x].0,
                #[trigger] front[y].0,
            ) by {
                assert(front[x] == children[x] && front[y] == children[y]);
            }
            assert forall|i: int| 0 <= i < front.len() implies tree_sorted(
                #[trigger] front[i].1,
            ) by {
                assert(front[i] == children[i]);
            }
        }
        lemma_built_sorted(front);
        let before = built_fields(front);
        let all = built_fields(children);
        assert forall|j: int| 0 <= j < before.len() implies text_lt(
            (#[trigger] before[j]).0,
            last.0,
        ) by {
            let i = choose|i: int|
                0 <= i < front.len() && #[trigger] front[i].0 == before[j].0;
            assert(front[i] == children[i]);
            assert(text_lt(children[i].0, children[children.len() - 1].0));
        }
        assert(tree_sorted(children[children.len() - 1].1));
        match last.1 {
            Tree::Folder(inner) => {
                lemma_built_sorted(inner);
            },
            Tree::Leaf(asset) => {
                lemma_leaf_value_sorted(asset);
            },
        }
        assert forall|j: int| 0 <= j < all.len() implies exists|i: int|
            0 <= i < children.len() && #[trigger] children[i].0 == (#[trigger] all[j]).0 by {
            if j < before.len() {
                assert(all[j] == before[j]);
                let i = choose|i: int|
                    0 <= i < front.len() && #[trigger] front[i].0 == before[j].0;
                assert(front[i] == children[i]);
                assert(children[i].0 == all[j].0);
            } else {
                assert(children[children.len() - 1].0 == all[j].0);
            }
        }
        assert forall|x: int, y: int| 0 <= x < y < all.len() implies text_lt(
            #[trigger] all[x].0,
            #[trigger] all[y].0,
        ) by {
            if y < before.len() {
                assert(all[x] == before[x] && all[y] == before[y]);
            } else {
                assert(all[x] == before[x]);
            }
        }
        assert forall|i: int| 0 <= i < all.len() implies value_sorted(#[trigger] all[i].1) by {
            if i < before.len() {
                assert(all[i] == before[i]);
            } else {
                assert(Some(all[i].1) == built(last.1));
            }
        }
    }
}

/// The code of one input lists its fields in the order of their names.
proof fn lemma_leaf_value_sorted(asset: Asset)
    ensures
        leaf_value(asset) matches Some(value) ==> value_sorted(value),
{
    match (asset.codegen, asset.id) {
        (Some(CodegenKind::UrlAndSlice), Some(id)) => {
            reveal_strlit("Image");
            reveal_strlit("ImageRectOffset");
            reveal_strlit("ImageRectSize");
            let a = "Image"@;
            let b = "ImageRectOffset"@;
            let c = "ImageRectSize"@;
            assert(a.take(5) =~= b.take(5));
            lemma_text_lt_at(a, b, 5);
            assert(b.take(9) =~= c.take(9));
            lemma_text_lt_at(b, c, 9);
            lemma_text_lt_transitive(a, b, c);
            let image = seq![(a, LuaValue::Text(asset_url(id)))];
            match asset.slice {
                Some(slice) => {
                    let fields = image.push((b, LuaValue::Raw(vector2(slice.min)))).push(
                        (c, LuaValue::Raw(vector2(slice.size))),
                    );
                    assert(fields[0].0 == a && fields[1].0 == b && fields[2].0 == c);
                    assert(fields_sorted(fields));
                },
                None => {
                    assert(fields_sorted(image));
                },
            }
        },
        _ => {},
    }
}

/// Every table in the code of a group lists its fields in the order of their
/// names, whatever the order in which the inputs were given.
pub proof fn lemma_grouped_code_is_ordered(inputs: Seq<CodegenInputView>)
    ensures
        value_sorted(
            LuaValue::Table(built_fields(group_tree(inputs, inputs.len() as int))),
        ),
{
    lemma_group_tree_sorted(inputs, inputs.len() as int);
    lemma_built_sorted(group_tree(inputs, inputs.len() as int));
}

/// No way through an empty folder is stopped.
proof fn lemma_no_conflict_in_empty(segments: Seq<Seq<char>>)
    ensures
        tree_conflict(Seq::empty(), segments) is None,
{
}

/// The code of a node, where it has any.
fn build_item(item: &Item) -> (code: Option<Expression>)
    ensures
        match code {
            Some(e) => built(item.tree()) == Some(e@),
            None => built(item.tree()) is None,
        },
    decreases item, 0nat,
{
    match item {
        Item::Folder(children) => {
            let entries = build_fields(&children.entries);
            Some(Expression::Table(Table { entries }))
        },
        Item::Input(asset) => leaf_code(asset),
    }
}

/// The fields that the children of a folder give.
fn build_fields(children: &Vec<(String, Item)>) -> (fields: Vec<(String, Expression)>)
    ensures
        fields_view(fields@) == built_fields(children_trees(children@)),
    decreases children, 1nat,
{
    let ghost trees = children_trees(children@);
    let mut fields: Vec<(String, Expression)> = Vec::new();
    let mut i: usize = 0;
    assert(fields_view(fields@) =~= built_fields(trees.take(0)));
    while i < children.len()
        invariant
            i <= children.len(),
            trees == children_trees(children@),
            fields_view(fields@) == built_fields(trees.take(i as int)),
        decreases children.len() - i,
    {
        let ghost before = fields_view(fields@);
        let code = build_item(&children[i].1);
        proof {
            let next = trees.take(i + 1);
            assert(next.drop_last() =~= trees.take(i as int));
            assert(next.last() == trees[i as int]);
        }
        if let Some(e) = code {
            fields.push((children[i].0.clone(), e));
            assert(fields_view(fields@) =~= before.push((trees[i as int].0, e@)));
        }
        i += 1;
    }
    assert(trees.take(trees.len() as int) == trees);
    fields
}

impl CodegenInput {
    /// What the generated code says of this input.
    pub fn asset(&self) -> (asset: Asset)
        ensures
            asset == self@.asset,
    {
        Asset { codegen: self.codegen, id: self.id, slice: self.slice }
    }

    /// The path of this input below its base path, without `.` and `..`,
    /// where it has one.
    pub fn relative_path(&self) -> (segments: Option<FsPath>)
        ensures
            match segments {
                Some(p) => relative_segments(self@) == Some(p@),
                None => relative_segments(self@) is None,
            },
    {
        match self.path.strip_prefix(&self.base_path) {
            Some(relative) => relative.collapse(),
            None => None,
        }
    }

    /// Whether this input can be part of a group.
    pub fn is_groupable(&self) -> (r: bool)
        ensures
            r == relative_segments(self@) is Some,
    {
        self.relative_path().is_some()
    }
}

/// Generates the code for `inputs`: one file at `output_path` for all of them
/// where a path is given, and else one file next to each input.
pub fn perform_codegen(output_path: Option<&FsPath>, inputs: &Vec<CodegenInput>) -> (output:
    CodegenOutput)
    requires
        output_path is Some ==> forall|i: int|
            0 <= i < inputs@.len() ==> relative_segments(#[trigger] inputs@[i]@) is Some,
    ensures
        match output_path {
            Some(path) => {
                &&& files_view(output.files@) == seq![
                    FileView { path: path@, contents: grouped_text(inputs_view(inputs@)) },
                ]
                &&& conflicts_view(output.conflicts@) == group_conflicts(
                    inputs_view(inputs@),
                    inputs@.len() as int,
                )
            },
            None => {
                &&& files_view(output.files@) == individual_files(inputs_view(inputs@))
                &&& output.conflicts@.len() == 0
            },
        },
{
    if let Some(path) = output_path {
        codegen_grouped(path, inputs)
    } else {
        codegen_individual(inputs)
    }
}

/// Generates one file at `output_path` that holds the code of all of `inputs`,
/// as nested tables that follow the path of each input below its base path.
///
/// The inputs are added to the tree in the order in which they are given.
/// Where two inputs ask for the same place in the tree, the later one has it;
/// where an input leads through a place that an earlier one holds as a file,
/// the input is left out and handed back among the conflicts. So the code can
/// depend on the order of the inputs where they clash in one of these ways,
/// and only there. Whatever their order, each table lists its fields in the
/// order of their names.
pub fn codegen_grouped(output_path: &FsPath, inputs: &Vec<CodegenInput>) -> (output: CodegenOutput)
    requires
        forall|i: int| 0 <= i < inputs@.len() ==> relative_segments(#[trigger] inputs@[i]@) is Some,
    ensures
        files_view(output.files@) == seq![
            FileView { path: output_path@, contents: grouped_text(inputs_view(inputs@)) },
        ],
        conflicts_view(output.conflicts@) == group_conflicts(
            inputs_view(inputs@),
            inputs@.len() as int,
        ),
{
    let ghost views = inputs_view(inputs@);
    let mut root: SortedMap<Item> = SortedMap::new();
    let mut conflicts: Vec<PathConflict> = Vec::new();
    let mut i: usize = 0;
    assert(children_trees(root.entries@) =~= group_tree(views, 0));
    assert(conflicts_view(conflicts@) =~= group_conflicts(views, 0));
    while i < inputs.len()
        invariant
            i <= inputs.len(),
            views == inputs_view(inputs@),
            forall|k: int|
                0 <= k < inputs@.len() ==> relative_segments(#[trigger] inputs@[k]@) is Some,
            children_trees(root.entries@) == group_tree(views, i as int),
            conflicts_view(conflicts@) == group_conflicts(views, i as int),
        decreases inputs.len() - i,
    {
        let ghost listed = conflicts_view(conflicts@);
        assert(views[i as int] == inputs@[i as int]@);
        if let Some(relative) = inputs[i].relative_path() {
            let ghost all = Seq::new(
                relative.components@.len(),
                |k: int| relative.components@[k]@,
            );
            assert(all.skip(0) =~= relative@);
            let conflict = insert_path(&mut root, &relative.components, 0, inputs[i].asset());
            if let Some(segment) = conflict {
                conflicts.push(PathConflict { input: i, segment });
                assert(conflicts_view(conflicts@) =~= listed.push((i, segment@)));
            }
        }
        i += 1;
    }
    let entries = build_fields(&root.entries);
    let contents = file_contents(Expression::Table(Table { entries }));
    let mut files: Vec<GeneratedFile> = Vec::new();
    files.push(GeneratedFile { path: output_path.clone(), contents });
    assert(files_view(files@) =~= seq![
        FileView { path: output_path@, contents: grouped_text(views) },
    ]);
    CodegenOutput { files, conflicts }
}

/// Generates one file next to each of `inputs` that has code.
pub fn codegen_individual(inputs: &Vec<CodegenInput>) -> (output: CodegenOutput)
    ensures
        files_view(output.files@) == individual_files(inputs_view(inputs@)),
        output.conflicts@.len() == 0,
{
    let ghost views = inputs_view(inputs@);
    let mut files: Vec<GeneratedFile> = Vec::new();
    let mut i: usize = 0;
    assert(files_view(files@) =~= individual_files(views.take(0)));
    while i < inputs.len()
        invariant
            i <= inputs.len(),
            views == inputs_view(inputs@),
            files_view(files@) == individual_files(views.take(i as int)),
        decreases inputs.len() - i,
    {
        let ghost before = files_view(files@);
        let input = &inputs[i];
        proof {
            let next = views.take(i + 1);
            assert(next.drop_last() =~= views.take(i as int));
            assert(next.last() == input@);
        }
        if let Some(code) = leaf_code(&input.asset()) {
            let path = input.path.with_extension("lua");
            let contents = file_contents(code);
            files.push(GeneratedFile { path, contents });
            assert(files_view(files@) =~= before.push(
                FileView {
                    path: with_extension_of(input@.path, "lua"@),
                    contents: file_text(code@),
                },
            ));
        }
        i += 1;
    }
    assert(views.take(views.len() as int) == views);
    CodegenOutput { files, conflicts: Vec::new() }
}

} // verus!
