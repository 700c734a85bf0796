//! What a sync leaves behind: the manifest for the next run and the generated
//! code.

use crate::codegen::{
    asset_url, file_text, files_view, grouped_text, individual_files, inputs_view, Asset,
    AssetUrlTemplate, CodegenInput, CodegenInputView, FileView, GeneratedFile,
};
use crate::data::{
    clone_text, CodegenKind, ConfigView, Error, InputManifest, InputManifestView, Manifest,
};
use crate::decision::{alike, decision, indexes_where, Decision, FileRead};
use crate::upload::UploadCall;
use crate::hash::sha256_hex;
use crate::inputs::{declaration, discovered, lemma_discovery_ignores_order, FoundView};
use crate::lua::LuaValue;
use crate::path::with_extension_of;
use crate::sorted::{lemma_lookup, lookup, sorted, SortedMap};
use crate::sync::{configs_view, index_view, SyncInputView, SyncSession};
use vstd::prelude::*;

verus! {

/// What a sync records of `input`: its hash and identifier as they stand, no
/// slice, and the declaration that applies to it now.
pub open spec fn record_of(configs: Seq<ConfigView>, input: SyncInputView) -> InputManifestView {
    InputManifestView {
        hash: input.hash,
        id: input.id,
        slice: None,
        config: declaration(configs, input.config_index),
    }
}

/// The manifest that a sync with the inputs `index` leaves behind: one record
/// for each input, under its name.
pub open spec fn manifest_of(configs: Seq<ConfigView>, index: Seq<(Seq<char>, SyncInputView)>) -> Seq<
    (Seq<char>, InputManifestView),
> {
    Seq::new(index.len(), |i: int| (index[i].0, record_of(configs, index[i].1)))
}

/// The input `input` as code generation sees it.
pub open spec fn codegen_input_of(configs: Seq<ConfigView>, input: SyncInputView) -> CodegenInputView {
    CodegenInputView {
        path: input.path,
        base_path: configs[input.config_index.0 as int].base_path,
        asset: Asset {
            codegen: declaration(configs, input.config_index).codegen,
            id: input.id,
            slice: None,
        },
    }
}

/// The inputs `index` as code generation sees them, in the order of their
/// names.
pub open spec fn codegen_inputs_of(
    configs: Seq<ConfigView>,
    index: Seq<(Seq<char>, SyncInputView)>,
) -> Seq<CodegenInputView> {
    Seq::new(index.len(), |i: int| codegen_input_of(configs, index[i].1))
}

/// The files that a session generates for the first `n` of its inputs: for
/// each input of the kind `AssetUrl` that has an identifier, a file next to it
/// that returns its URL.
pub open spec fn session_files(
    configs: Seq<ConfigView>,
    index: Seq<(Seq<char>, SyncInputView)>,
    n: int,
) -> Seq<FileView>
    decreases n,
{
    if n <= 0 {
        Seq::empty()
    } else {
        let before = session_files(configs, index, n - 1);
        let input = index[n - 1].1;
        match (declaration(configs, input.config_index).codegen, input.id) {
            (Some(CodegenKind::AssetUrl), Some(id)) => before.push(
                FileView {
                    path: with_extension_of(input.path, "lua"@),
                    contents: file_text(LuaValue::Text(asset_url(id))),
                },
            ),
            _ => before,
        }
    }
}

/// The code that a session generated.
#[derive(Debug, PartialEq, Eq)]
pub struct SessionCodegen {
    /// The files to write.
    pub files: Vec<GeneratedFile>,
    /// The inputs, by position, whose kind of code the session does not
    /// generate.
    pub unsupported: Vec<usize>,
}

impl SyncSession {
    /// The input at position `i` asks for code of the kind `UrlAndSlice`.
    pub open spec fn asks_for_slice(&self) -> spec_fn(int) -> bool {
        |i: int| self.declaration_at(i).codegen == Some(CodegenKind::UrlAndSlice)
    }

    /// The manifest that this run leaves for the next one.
    pub fn write_manifest(&self) -> (manifest: Manifest)
        requires
            self.wf(),
        ensures
            manifest@ == manifest_of(
                configs_view(self.configs@),
                index_view(self.inputs.model()),
            ),
            manifest.inputs.wf(),
    {
        let ghost configs = configs_view(self.configs@);
        let ghost index = index_view(self.inputs.model());
        let mut entries: Vec<(String, InputManifest)> = Vec::new();
        let mut i: usize = 0;
        while i < self.inputs.len()
            invariant
                i <= self.inputs.model().len(),
                self.wf(),
                configs == configs_view(self.configs@),
                index == index_view(self.inputs.model()),
                entries@.len() == i,
                forall|k: int|
                    0 <= k < i ==> (#[trigger] entries@[k]).0@ == index[k].0 && entries@[k].1@
                        == record_of(configs, index[k].1),
            decreases self.inputs.model().len() - i,
        {
            let input = self.inputs.value_at(i);
            assert(self.names_declaration(self.inputs.model()[i as int].1.config_index));
            let config = &self.configs[input.config_index.0];
            assert(configs[input.config_index.0 as int] == config@);
            let declared = &config.inputs[input.config_index.1];
            let record = InputManifest {
                hash: clone_text(&input.hash),
                id: input.id,
                slice: None,
                config: declared.clone(),
            };
            entries.push((self.inputs.key_at(i).clone(), record));
            i += 1;
        }
        let manifest = Manifest { inputs: SortedMap { entries } };
        proof {
            assert(manifest@ =~= manifest_of(configs, index));
            let model = manifest.inputs.model();
            assert forall|x: int, y: int| 0 <= x < y < model.len() implies crate::text::text_lt(
                #[trigger] model[x].0,
                #[trigger] model[y].0,
            ) by {
                assert(model[x].0 == self.inputs.model()[x].0);
                assert(model[y].0 == self.inputs.model()[y].0);
            }
        }
        manifest
    }

    /// The inputs of the session as code generation sees them, in the order
    /// of their names.
    pub fn codegen_inputs(&self) -> (inputs: Vec<CodegenInput>)
        requires
            self.wf(),
        ensures
            inputs_view(inputs@) == codegen_inputs_of(
                configs_view(self.configs@),
                index_view(self.inputs.model()),
            ),
    {
        let ghost configs = configs_view(self.configs@);
        let mut inputs: Vec<CodegenInput> = Vec::new();
        let mut i: usize = 0;
        while i < self.inputs.len()
            invariant
                i <= self.inputs.model().len(),
                self.wf(),
                configs == configs_view(self.configs@),
                inputs@.len() == i,
                forall|k: int|
                    0 <= k < i ==> (#[trigger] inputs@[k])@ == codegen_input_of(
                        configs,
                        self.input_at(k),
                    ),
            decreases self.inputs.model().len() - i,
        {
            let input = self.inputs.value_at(i);
            assert(self.names_declaration(self.inputs.model()[i as int].1.config_index));
            let config = &self.configs[input.config_index.0];
            assert(configs[input.config_index.0 as int] == config@);
            let declared = &config.inputs[input.config_index.1];
            inputs.push(
                CodegenInput {
                    path: input.path.clone(),
                    base_path: config.base_path.clone(),
                    codegen: declared.codegen,
                    id: input.id,
                    slice: None,
                },
            );
            i += 1;
        }
        assert(inputs_view(inputs@) =~= codegen_inputs_of(
            configs,
            index_view(self.inputs.model()),
        ));
        inputs
    }

    /// Generates the code of the session: for each input of the kind
    /// `AssetUrl` that has an identifier, a file next to the input that
    /// returns its URL. An input without an identifier gets no file. The
    /// inputs of the kind `UrlAndSlice` are handed back as not supported.
    pub fn codegen(&self) -> (output: SessionCodegen)
        requires
            self.wf(),
        ensures
            files_view(output.files@) == session_files(
                configs_view(self.configs@),
                index_view(self.inputs.model()),
                self.inputs.model().len() as int,
            ),
            output.unsupported@ == indexes_where(
                self.inputs.model().len() as int,
                self.asks_for_slice(),
            ),
    {
        let ghost configs = configs_view(self.configs@);
        let ghost index = index_view(self.inputs.model());
        let mut files: Vec<GeneratedFile> = Vec::new();
        let mut unsupported: Vec<usize> = Vec::new();
        let mut i: usize = 0;
        assert(files_view(files@) =~= session_files(configs, index, 0));
        while i < self.inputs.len()
            invariant
                i <= self.inputs.model().len(),
                self.wf(),
                configs == configs_view(self.configs@),
                index == index_view(self.inputs.model()),
                files_view(files@) == session_files(configs, index, i as int),
                unsupported@ == indexes_where(i as int, self.asks_for_slice()),
            decreases self.inputs.model().len() - i,
        {
            let ghost before = files_view(files@);
            let input = self.inputs.value_at(i);
            assert(index[i as int].1 == input@);
            assert(self.names_declaration(self.inputs.model()[i as int].1.config_index));
            let config = &self.configs[input.config_index.0];
            assert(configs[input.config_index.0 as int] == config@);
            let declared = &config.inputs[input.config_index.1];
            assert(declaration(configs, input.config_index) == declared@);
            match declared.codegen {
                None => {},
                Some(CodegenKind::AssetUrl) => {
                    if let Some(id) = input.id {
                        let path = input.path.with_extension("lua");
                        let contents = AssetUrlTemplate { id }.render();
                        files.push(GeneratedFile { path, contents });
                        assert(files_view(files@) =~= before.push(
                            FileView {
                                path: with_extension_of(input@.path, "lua"@),
                                contents: file_text(LuaValue::Text(asset_url(id))),
                            },
                        ));
                    }
                },
                Some(CodegenKind::UrlAndSlice) => {
                    unsupported.push(i);
                },
            }
            i += 1;
        }
        SessionCodegen { files, unsupported }
    }
}

/// The numbers below `n` that `keep` holds of are none where `keep` holds of
/// none of them.
pub proof fn lemma_indexes_where_none(n: int, keep: spec_fn(int) -> bool)
    requires
        forall|i: int| 0 <= i < n ==> !#[trigger] keep(i),
    ensures
        indexes_where(n, keep) == Seq::<usize>::empty(),
    decreases n,
{
    if n > 0 {
        lemma_indexes_where_none(n - 1, keep);
    }
}

/// The manifest of a run holds, under the name of each input, what the run
/// recorded of it.
pub proof fn lemma_manifest_lookup(
    configs: Seq<ConfigView>,
    index: Seq<(Seq<char>, SyncInputView)>,
    i: int,
)
    requires
        sorted(index),
        0 <= i < index.len(),
    ensures
        sorted(manifest_of(configs, index)),
        lookup(manifest_of(configs, index), index[i].0) == Some(record_of(configs, index[i].1)),
{
    let manifest = manifest_of(configs, index);
    assert forall|x: int, y: int| 0 <= x < y < manifest.len() implies crate::text::text_lt(
        #[trigger] manifest[x].0,
        #[trigger] manifest[y].0,
    ) by {
        assert(manifest[x].0 == index[x].0 && manifest[y].0 == index[y].0);
    }
    lemma_lookup(manifest, index[i].0);
    assert(manifest[i].0 == index[i].0);
}

/// An input that did not change keeps its identifier: where the previous run
/// ended with the inputs `index`, and the input at position `i` had the
/// contents `contents` and got an identifier then, a run that finds the same
/// contents and the same declaration decides to reuse that identifier.
pub proof fn lemma_unchanged_input_is_reused(
    configs: Seq<ConfigView>,
    index: Seq<(Seq<char>, SyncInputView)>,
    i: int,
    contents: Seq<u8>,
)
    requires
        sorted(index),
        0 <= i < index.len(),
        index[i].1.hash == Some(sha256_hex(contents)),
        index[i].1.id is Some,
    ensures
        decision(
            lookup(manifest_of(configs, index), index[i].0),
            sha256_hex(contents),
            declaration(configs, index[i].1.config_index),
        ) == Decision::Reuse(index[i].1.id->0),
{
    lemma_manifest_lookup(configs, index, i);
}

/// The second run starts where the first ended: `second` is a session over
/// the configs and inputs of `first`, it starts from the manifest that `first`
/// wrote, and `reads` are the files as both runs find them. The inputs that
/// `first` synced have the hash of these files and an identifier; the others
/// stand in `second` as they stand in `first`.
pub open spec fn follows(first: SyncSession, second: SyncSession, reads: Seq<FileRead>) -> bool {
    &&& first.wf()
    &&& second.wf()
    &&& configs_view(second.configs@) == configs_view(first.configs@)
    &&& second.original_manifest@ == manifest_of(
        configs_view(first.configs@),
        index_view(first.inputs.model()),
    )
    &&& reads.len() == first.inputs.model().len()
    &&& second.inputs.model().len() == first.inputs.model().len()
    &&& forall|i: int|
        0 <= i < reads.len() ==> {
            &&& #[trigger] second.name_at(i) == first.name_at(i)
            &&& second.input_at(i).path == first.input_at(i).path
            &&& second.input_at(i).config_index == first.input_at(i).config_index
        }
    &&& forall|i: int|
        0 <= i < reads.len() && first.is_synced(i) ==> {
            &&& #[trigger] reads[i] matches FileRead::Contents(bytes)
            &&& first.input_at(i).hash == Some(sha256_hex(bytes@))
            &&& first.input_at(i).id is Some
        }
    &&& forall|i: int|
        0 <= i < reads.len() && !first.is_synced(i) ==> #[trigger] second.input_at(i)
            == first.input_at(i)
}

/// A file that did not change keeps its identifier, whatever became of the
/// other files: where the run `first` left the input at position `i` with the
/// hash of `contents` and an identifier, a run over the same configs that
/// starts from the manifest of `first` and finds `contents` under the same
/// name and declaration decides to reuse that identifier.
pub proof fn lemma_unchanged_file_keeps_identifier(
    first: SyncSession,
    second: SyncSession,
    i: int,
    k: int,
    contents: Seq<u8>,
)
    requires
        first.wf(),
        configs_view(second.configs@) == configs_view(first.configs@),
        second.original_manifest@ == manifest_of(
            configs_view(first.configs@),
            index_view(first.inputs.model()),
        ),
        0 <= i < first.inputs.model().len(),
        0 <= k < second.inputs.model().len(),
        second.name_at(k) == first.name_at(i),
        second.input_at(k).config_index == first.input_at(i).config_index,
        first.input_at(i).hash == Some(sha256_hex(contents)),
        first.input_at(i).id is Some,
    ensures
        second.decision_at(k, contents) == Decision::Reuse(first.input_at(i).id->0),
{
    let index = index_view(first.inputs.model());
    assert(sorted(index)) by {
        assert forall|x: int, y: int| 0 <= x < y < index.len() implies crate::text::text_lt(
            #[trigger] index[x].0,
            #[trigger] index[y].0,
        ) by {
            assert(index[x].0 == first.inputs.model()[x].0);
            assert(index[y].0 == first.inputs.model()[y].0);
        }
    }
    lemma_unchanged_input_is_reused(configs_view(first.configs@), index, i, contents);
}

/// A second run has nothing to do. Where `second` follows `first`, no input
/// has to be uploaded and no file fails, so the sync of `second` cannot stop:
/// it succeeds, and it makes no upload.
pub proof fn lemma_second_run_uploads_nothing(
    first: SyncSession,
    second: SyncSession,
    reads: Seq<FileRead>,
)
    requires
        follows(first, second, reads),
    ensures
        indexes_where(reads.len() as int, second.needs_upload(reads)) == Seq::<usize>::empty(),
        forall|i: int|
            0 <= i < reads.len() && second.is_synced(i) ==> {
                &&& #[trigger] reads[i] matches FileRead::Contents(bytes)
                &&& second.decision_at(i, bytes@) == Decision::Reuse(first.input_at(i).id->0)
            },
        forall|k: int, made: Seq<UploadCall>, after: SyncSession, error: Error|
            !#[trigger] second.stopped_at(k, reads, made, after, error),
{
    let n = reads.len() as int;
    assert forall|i: int| 0 <= i < n implies second.is_synced(i) == first.is_synced(i) by {
        assert(second.name_at(i) == first.name_at(i));
    }
    assert forall|i: int| 0 <= i < n && second.is_synced(i) implies {
        &&& #[trigger] reads[i] matches FileRead::Contents(bytes)
        &&& second.decision_at(i, bytes@) == Decision::Reuse(first.input_at(i).id->0)
    } by {
        assert(second.name_at(i) == first.name_at(i));
        let bytes = reads[i]->Contents_0;
        lemma_unchanged_file_keeps_identifier(first, second, i, i, bytes@);
    }
    assert forall|i: int| 0 <= i < n implies !#[trigger] (second.needs_upload(reads))(i) by {
        if second.is_synced(i) {
            assert(reads[i] is Contents);
        }
    }
    lemma_indexes_where_none(n, second.needs_upload(reads));
    assert forall|k: int, made: Seq<UploadCall>, after: SyncSession, error: Error|
        !#[trigger] second.stopped_at(k, reads, made, after, error) by {
        if 0 <= k < n && second.is_synced(k) {
            assert(reads[k] is Contents);
        }
    }
}

/// A second run changes nothing. Where `second` follows `first`, the manifest
/// that `second` writes, from any state `after` that its sync may leave, is
/// the manifest it started from.
pub proof fn lemma_second_run_changes_nothing(
    first: SyncSession,
    second: SyncSession,
    after: SyncSession,
    reads: Seq<FileRead>,
)
    requires
        follows(first, second, reads),
        after.same_inputs_as(&second),
        forall|i: int|
            0 <= i < reads.len() ==> second.synced_at(i, #[trigger] reads[i], after.input_at(i)),
    ensures
        manifest_of(configs_view(after.configs@), index_view(after.inputs.model()))
            == second.original_manifest@,
{
    let n = reads.len() as int;
    lemma_second_run_uploads_nothing(first, second, reads);
    assert forall|i: int| 0 <= i < n implies second.is_synced(i) == first.is_synced(i) by {
        assert(second.name_at(i) == first.name_at(i));
    }
    let left = manifest_of(configs_view(after.configs@), index_view(after.inputs.model()));
    assert(left.len() == second.original_manifest@.len());
    assert forall|i: int| 0 <= i < n implies left[i] == second.original_manifest@[i] by {
        assert(after.name_at(i) == second.name_at(i));
        assert(second.name_at(i) == first.name_at(i));
        assert(second.synced_at(i, reads[i], after.input_at(i)));
        if second.is_synced(i) {
            assert(reads[i] is Contents);
        } else {
            assert(second.input_at(i) == first.input_at(i));
        }
    }
    assert(left =~= second.original_manifest@);
}

/// What a run leaves behind depends on what its session says, and on
/// nothing else: the inputs stand in the order of their names, so sessions
/// that have the same configs and the same inputs, in whatever order the
/// files were found, write the same manifest and generate the same code,
/// letter for letter, for a group as for single inputs.
pub proof fn lemma_alike_sessions_leave_the_same(one: SyncSession, other: SyncSession)
    requires
        alike(one, other),
    ensures
        manifest_of(configs_view(one.configs@), index_view(one.inputs.model())) == manifest_of(
            configs_view(other.configs@),
            index_view(other.inputs.model()),
        ),
        session_files(
            configs_view(one.configs@),
            index_view(one.inputs.model()),
            one.inputs.model().len() as int,
        ) == session_files(
            configs_view(other.configs@),
            index_view(other.inputs.model()),
            other.inputs.model().len() as int,
        ),
        grouped_text(
            codegen_inputs_of(configs_view(one.configs@), index_view(one.inputs.model())),
        ) == grouped_text(
            codegen_inputs_of(configs_view(other.configs@), index_view(other.inputs.model())),
        ),
        individual_files(
            codegen_inputs_of(configs_view(one.configs@), index_view(one.inputs.model())),
        ) == individual_files(
            codegen_inputs_of(configs_view(other.configs@), index_view(other.inputs.model())),
        ),
{
    assert(index_view(one.inputs.model()).len() == one.inputs.model().len());
    assert(index_view(other.inputs.model()).len() == other.inputs.model().len());
}

/// The order in which the files are found does not show in what a run
/// leaves behind: two discoveries from no inputs that go through the same
/// files, in whatever order, lead to the same manifest and to the same code,
/// letter for letter, where one of them ends with inputs at all.
pub proof fn lemma_outcome_ignores_found_order(
    configs: Seq<ConfigView>,
    one: Seq<FoundView>,
    other: Seq<FoundView>,
)
    requires
        one.to_multiset() == other.to_multiset(),
        discovered(configs, Seq::empty(), one, one.len() as int) is Inputs,
    ensures
        discovered(configs, Seq::empty(), other, other.len() as int) is Inputs,
        ({
            let a = discovered(configs, Seq::empty(), one, one.len() as int)->Inputs_0;
            let b = discovered(configs, Seq::empty(), other, other.len() as int)->Inputs_0;
            &&& manifest_of(configs, a) == manifest_of(configs, b)
            &&& session_files(configs, a, a.len() as int) == session_files(
                configs,
                b,
                b.len() as int,
            )
            &&& grouped_text(codegen_inputs_of(configs, a)) == grouped_text(
                codegen_inputs_of(configs, b),
            )
            &&& individual_files(codegen_inputs_of(configs, a)) == individual_files(
                codegen_inputs_of(configs, b),
            )
        }),
{
    lemma_discovery_ignores_order(configs, one, other);
}

} // verus!
