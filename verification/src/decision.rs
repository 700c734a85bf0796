//! The decisions of a sync: for each input, whether the identifier of the
//! previous run still stands or the input is uploaded again.

use crate::asset_name::AssetName;
use crate::data::{Error, InputConfig, InputConfigView, InputManifest, InputManifestView};
use crate::hash::{generate_asset_hash, sha256_hex};
use crate::inputs::declaration;
use crate::sorted::{lemma_map_pairs_lookup, lookup, map_pairs};
use crate::sync::{
    configs_view, index_view, is_image, is_image_asset, SyncInput, SyncInputView, SyncSession,
};
use crate::text::same_text;
use crate::upload::{UploadCall, UploadData, UploadResponse, UploadStrategy, Uploader};
use vstd::prelude::*;

verus! {

/// What a sync does with an input.
#[derive(Clone, Copy, PartialEq, Eq, Debug)]
pub enum Decision {
    /// The input is uploaded and gets a new identifier.
    Upload,
    /// The input keeps this identifier, which the previous run recorded.
    Reuse(u64),
}

/// What a sync does with an input whose contents hash to `hash` and whose
/// declaration is `config`, where the previous run recorded `previous` of it.
///
/// The identifier of the previous run stands where that run recorded the same
/// hash, an identifier and the same declaration. In every other case the
/// input is uploaded.
pub open spec fn decision(
    previous: Option<InputManifestView>,
    hash: Seq<char>,
    config: InputConfigView,
) -> Decision {
    match previous {
        None => Decision::Upload,
        Some(record) => if record.hash != Some(hash) {
            Decision::Upload
        } else {
            match record.id {
                None => Decision::Upload,
                Some(id) => if record.config != config {
                    Decision::Upload
                } else {
                    Decision::Reuse(id)
                },
            }
        },
    }
}

/// What a sync does with an input whose contents hash to `hash` and whose
/// declaration is `config`, where the previous run recorded `previous` of it.
pub fn decide(previous: Option<&InputManifest>, hash: &str, config: &InputConfig) -> (d: Decision)
    ensures
        d == decision(
            match previous {
                Some(record) => Some(record@),
                None => None,
            },
            hash@,
            config@,
        ),
{
    match previous {
        None => Decision::Upload,
        Some(record) => {
            let same_hash = match &record.hash {
                Some(recorded) => same_text(recorded.as_str(), hash),
                None => false,
            };
            if !same_hash {
                Decision::Upload
            } else {
                match record.id {
                    None => Decision::Upload,
                    Some(id) => if !record.config.same(config) {
                        Decision::Upload
                    } else {
                        Decision::Reuse(id)
                    },
                }
            }
        },
    }
}

/// The identifier of the previous run stands in one case only: that run
/// recorded the input, with the hash that the contents have now, with an
/// identifier, and with the declaration that applies now.
pub proof fn lemma_reuse_only_when_unchanged(
    previous: Option<InputManifestView>,
    hash: Seq<char>,
    config: InputConfigView,
    id: u64,
)
    ensures
        decision(previous, hash, config) == Decision::Reuse(id) <==> {
            &&& previous matches Some(record)
            &&& record.hash == Some(hash)
            &&& record.id == Some(id)
            &&& record.config == config
        },
        decision(previous, hash, config) is Upload <==> forall|other: u64|
            decision(previous, hash, config) != Decision::Reuse(other),
{
}

/// What came of reading the file of an input.
#[derive(Debug, PartialEq, Eq)]
pub enum FileRead {
    /// The contents of the file.
    Contents(Vec<u8>),
    /// The file could not be read, for the reason given.
    Failed(String),
    /// The file was not read.
    Skipped,
}

/// What a sync did.
#[derive(Debug, PartialEq, Eq)]
pub struct SyncReport {
    /// The inputs that were uploaded, by position, in the order of the uploads.
    pub uploaded: Vec<usize>,
    /// The inputs that were left alone because packing is not supported.
    pub packable: Vec<usize>,
    /// The inputs that were left alone because they are no images.
    pub unrecognized: Vec<usize>,
}

/// The numbers below `n` that `keep` holds of, in growing order.
pub open spec fn indexes_where(n: int, keep: spec_fn(int) -> bool) -> Seq<usize>
    decreases n,
{
    if n <= 0 {
        Seq::empty()
    } else if keep(n - 1) {
        indexes_where(n - 1, keep).push((n - 1) as usize)
    } else {
        indexes_where(n - 1, keep)
    }
}

/// An input as it stands once its contents were hashed to `hash` and it has
/// the identifier `id`.
pub open spec fn settled(input: SyncInputView, hash: Seq<char>, id: Option<u64>) -> SyncInputView {
    SyncInputView { path: input.path, config_index: input.config_index, hash: Some(hash), id }
}

impl SyncSession {
    /// The name of the input at position `i`.
    pub open spec fn name_at(&self, i: int) -> Seq<char> {
        self.inputs.model()[i].0
    }

    /// What the input at position `i` says.
    pub open spec fn input_at(&self, i: int) -> SyncInputView {
        self.inputs.model()[i].1@
    }

    /// The declaration that applies to the input at position `i`.
    pub open spec fn declaration_at(&self, i: int) -> InputConfigView {
        declaration(configs_view(self.configs@), self.input_at(i).config_index)
    }

    /// The input at position `i` is set aside for packing, which is not
    /// supported.
    pub open spec fn is_packable(&self, i: int) -> bool {
        self.declaration_at(i).packable
    }

    /// The input at position `i` is synced: it is an image, and it is not set
    /// aside for packing.
    pub open spec fn is_synced(&self, i: int) -> bool {
        !self.is_packable(i) && is_image(self.input_at(i).path)
    }

    /// What the sync does with the input at position `i` where its file holds
    /// `contents`.
    pub open spec fn decision_at(&self, i: int, contents: Seq<u8>) -> Decision {
        decision(
            lookup(self.original_manifest@, self.name_at(i)),
            sha256_hex(contents),
            self.declaration_at(i),
        )
    }

    /// The input at position `i` is synced and has to be uploaded.
    pub open spec fn needs_upload(&self, reads: Seq<FileRead>) -> spec_fn(int) -> bool {
        |i: int|
            {
                &&& self.is_synced(i)
                &&& reads[i] matches FileRead::Contents(bytes)
                &&& self.decision_at(i, bytes@) is Upload
            }
    }

    /// The input at position `i` is set aside for packing.
    pub open spec fn set_aside(&self) -> spec_fn(int) -> bool {
        |i: int| self.is_packable(i)
    }

    /// The input at position `i` is neither set aside for packing nor an image.
    pub open spec fn not_recognized(&self) -> spec_fn(int) -> bool {
        |i: int| !self.is_packable(i) && !is_image(self.input_at(i).path)
    }

    /// Nothing but the hashes and identifiers of the inputs differs between
    /// this session and `before`.
    pub open spec fn same_inputs_as(&self, before: &SyncSession) -> bool {
        &&& self.configs == before.configs
        &&& self.original_manifest == before.original_manifest
        &&& self.to_search == before.to_search
        &&& self.searching == before.searching
        &&& self.searched == before.searched
        &&& self.inputs.model().len() == before.inputs.model().len()
        &&& forall|i: int|
            0 <= i < self.inputs.model().len() ==> {
                &&& #[trigger] self.name_at(i) == before.name_at(i)
                &&& self.input_at(i).path == before.input_at(i).path
                &&& self.input_at(i).config_index == before.input_at(i).config_index
            }
    }

    /// Whether the input at position `i` is synced.
    pub fn wants_contents(&self, i: usize) -> (r: bool)
        requires
            self.wf(),
            i < self.inputs.model().len(),
        ensures
            r == self.is_synced(i as int),
    {
        let input = self.inputs.value_at(i);
        let config = &self.configs[input.config_index.0];
        assert(configs_view(self.configs@)[input.config_index.0 as int] == config@);
        let declared = &config.inputs[input.config_index.1];
        assert(self.declaration_at(i as int) == declared@);
        !declared.packable && is_image_asset(&input.path)
    }

    /// Puts `hash` and `id` in place of the hash and the identifier of the
    /// input at position `i`.
    fn settle(&mut self, i: usize, hash: String, id: Option<u64>)
        requires
            old(self).wf(),
            i < old(self).inputs.model().len(),
        ensures
            final(self).wf(),
            final(self).same_inputs_as(old(self)),
            final(self).input_at(i as int) == settled(old(self).input_at(i as int), hash@, id),
            forall|j: int|
                0 <= j < old(self).inputs.model().len() && j != i ==> final(self).inputs.model()[j]
                    == old(self).inputs.model()[j],
    {
        let current = self.inputs.value_at(i);
        let input = SyncInput {
            path: current.path.clone(),
            config_index: current.config_index,
            hash: Some(hash),
            id,
        };
        assert(old(self).names_declaration(old(self).inputs.model()[i as int].1.config_index));
        self.inputs.replace_at(i, input);
        assert forall|j: int| 0 <= j < self.inputs.model().len() implies self.names_declaration(
            (#[trigger] self.inputs.model()[j]).1.config_index,
        ) by {
            if j != i {
                assert(self.inputs.model()[j] == old(self).inputs.model()[j]);
            }
        }
    }

    /// `call` is the upload of the input at position `i`, whose file holds
    /// `contents`: the strategy was handed the name of the input, the contents
    /// of its file and their hash.
    pub open spec fn is_upload_of(&self, i: int, contents: Seq<u8>, call: UploadCall) -> bool {
        &&& call.name == self.name_at(i)
        &&& call.contents == contents
        &&& call.hash == sha256_hex(contents)
    }

    /// `call` is the upload of the input at position `i`, whose file was read
    /// as `read`; it succeeded, and `after`, the input after the sync, has the
    /// identifier that the strategy answered.
    pub open spec fn upload_succeeded(
        &self,
        i: int,
        read: FileRead,
        call: UploadCall,
        after: SyncInputView,
    ) -> bool {
        &&& read matches FileRead::Contents(bytes)
        &&& self.is_upload_of(i, bytes@, call)
        &&& call.answer matches Ok(response)
        &&& after.id == Some(response.id)
    }

    /// What is handed to the strategy to upload the input at position `i`,
    /// whose file holds `contents`, which hash to `hash`.
    pub fn upload_data(&self, i: usize, contents: &Vec<u8>, hash: &String) -> (data: UploadData)
        requires
            self.wf(),
            i < self.inputs.model().len(),
            hash@ == sha256_hex(contents@),
        ensures
            data.name@ == self.name_at(i as int),
            data.contents@ == contents@,
            data.hash@ == hash@,
    {
        let data = UploadData {
            name: AssetName { text: self.inputs.key_at(i).clone() },
            contents: contents.clone(),
            hash: hash.clone(),
        };
        assert(data.contents@ =~= contents@);
        data
    }

    /// Records what came of the upload of the input at position `i`, whose
    /// contents hash to `hash`. The input has that hash from now on. Where the
    /// strategy answered with an identifier, the input has it from now on and
    /// the result says that the input was uploaded. Where the strategy failed,
    /// the identifier stays as it was and the result is the error of the
    /// strategy.
    pub fn record_upload(
        &mut self,
        i: usize,
        hash: String,
        answer: Result<UploadResponse, Error>,
    ) -> (result: Result<bool, Error>)
        requires
            old(self).wf(),
            i < old(self).inputs.model().len(),
        ensures
            final(self).wf(),
            final(self).same_inputs_as(old(self)),
            forall|j: int|
                0 <= j < old(self).inputs.model().len() && j != i ==> final(self).inputs.model()[j]
                    == old(self).inputs.model()[j],
            match answer {
                Ok(response) => {
                    &&& result matches Ok(true)
                    &&& final(self).input_at(i as int) == settled(
                        old(self).input_at(i as int),
                        hash@,
                        Some(response.id),
                    )
                },
                Err(e) => {
                    &&& result == Err::<bool, Error>(e)
                    &&& final(self).input_at(i as int) == settled(
                        old(self).input_at(i as int),
                        hash@,
                        old(self).input_at(i as int).id,
                    )
                },
            },
    {
        match answer {
            Ok(response) => {
                self.settle(i, hash, Some(response.id));
                Ok(true)
            },
            Err(e) => {
                let kept = self.inputs.value_at(i).id;
                self.settle(i, hash, kept);
                Err(e)
            },
        }
    }

    /// What `sync_unpackable_image` makes of the input at position `i`, whose
    /// file holds `contents`: `calls` are the uploads on record before and
    /// `made` those on record after, `result` is what is handed back, and
    /// `after` is the input as it is left.
    ///
    /// Where the identifier of the previous run stands, the input gets it and
    /// no upload is made. Else exactly one upload is made, of this input; the
    /// input gets the identifier that the strategy answers, or keeps its own
    /// where the strategy fails, and then the error of the strategy is handed
    /// back.
    pub open spec fn image_synced(
        &self,
        i: int,
        contents: Seq<u8>,
        calls: Seq<UploadCall>,
        made: Seq<UploadCall>,
        result: Result<bool, Error>,
        after: SyncInputView,
    ) -> bool {
        let hash = sha256_hex(contents);
        let before = self.input_at(i);
        match self.decision_at(i, contents) {
            Decision::Reuse(id) => {
                &&& result matches Ok(false)
                &&& made == calls
                &&& after == settled(before, hash, Some(id))
            },
            Decision::Upload => {
                &&& made.len() == calls.len() + 1
                &&& made.drop_last() == calls
                &&& self.is_upload_of(i, contents, made.last())
                &&& match made.last().answer {
                    Ok(response) => {
                        &&& result matches Ok(true)
                        &&& after == settled(before, hash, Some(response.id))
                    },
                    Err(e) => {
                        &&& result == Err::<bool, Error>(e)
                        &&& after == settled(before, hash, before.id)
                    },
                }
            },
        }
    }

    /// Syncs the input at position `i`, whose file was read as `read`.
    ///
    /// The hash of the contents is computed and recorded. Then the input
    /// either keeps the identifier of the previous run, as `decision` says, and
    /// nothing is uploaded; or it is uploaded once through `uploader` and gets
    /// the identifier that the upload answers. The result says whether the
    /// input was uploaded. A file that could not be read ends the sync of the
    /// input with an error before anything is uploaded, and an upload that
    /// fails ends it with the error of the upload.
    pub fn sync_unpackable_image<S: UploadStrategy>(
        &mut self,
        uploader: &mut Uploader<S>,
        i: usize,
        read: &FileRead,
    ) -> (result: Result<bool, Error>)
        requires
            old(self).wf(),
            i < old(self).inputs.model().len(),
            !(read is Skipped),
        ensures
            final(self).wf(),
            final(self).same_inputs_as(old(self)),
            forall|j: int|
                0 <= j < old(self).inputs.model().len() && j != i ==> final(self).inputs.model()[j]
                    == old(self).inputs.model()[j],
            match *read {
                FileRead::Contents(bytes) => old(self).image_synced(
                    i as int,
                    bytes@,
                    old(uploader).calls(),
                    final(uploader).calls(),
                    result,
                    final(self).input_at(i as int),
                ),
                FileRead::Failed(reason) => {
                    &&& result matches Err(Error::Io { path, source })
                    &&& path@ == old(self).input_at(i as int).path
                    &&& source@ == reason@
                    &&& final(self).inputs == old(self).inputs
                    &&& final(uploader).calls() == old(uploader).calls()
                },
                FileRead::Skipped => false,
            },
    {
        let contents = match read {
            FileRead::Contents(bytes) => bytes,
            FileRead::Failed(reason) => {
                let path = self.inputs.value_at(i).path.clone();
                return Err(Error::Io { path, source: reason.clone() });
            },
            FileRead::Skipped => {
                return Ok(false);
            },
        };
        let hash = generate_asset_hash(contents);

        let input = self.inputs.value_at(i);
        let config = &self.configs[input.config_index.0];
        assert(configs_view(self.configs@)[input.config_index.0 as int] == config@);
        let declared = &config.inputs[input.config_index.1];
        let name = self.inputs.key_at(i);
        let previous = self.original_manifest.inputs.get(name.as_str());
        proof {
            let records = self.original_manifest.inputs.model();
            assert(self.original_manifest@ =~= map_pairs(records, record_view()));
            lemma_map_pairs_lookup(records, record_view(), name@);
        }
        match decide(previous, hash.as_str(), declared) {
            Decision::Reuse(id) => {
                self.settle(i, hash, Some(id));
                Ok(false)
            },
            Decision::Upload => {
                let data = self.upload_data(i, contents, &hash);
                let answer = uploader.upload(data);
                assert(uploader.calls().drop_last() =~= old(uploader).calls());
                self.record_upload(i, hash, answer)
            },
        }
    }

    /// The sync of this session, with the files read as `reads`, stopped at
    /// the input at position `k` with `error`, after the uploads `made`, and
    /// left the session as `after`.
    ///
    /// The inputs before `k` are synced, each upload among them succeeded, and
    /// the inputs after `k` are untouched. The input at `k` either could not
    /// be read, which `error` says, and nothing was uploaded for it; or its
    /// upload, the last that was made, failed with `error`, and the input has
    /// its hash and no new identifier.
    pub open spec fn stopped_at(
        &self,
        k: int,
        reads: Seq<FileRead>,
        made: Seq<UploadCall>,
        after: SyncSession,
        error: Error,
    ) -> bool {
        let before = indexes_where(k, self.needs_upload(reads));
        &&& 0 <= k < reads.len()
        &&& self.is_synced(k)
        &&& forall|j: int|
            0 <= j < k ==> self.synced_at(j, #[trigger] reads[j], after.input_at(j))
        &&& forall|j: int|
            k < j < reads.len() ==> #[trigger] after.inputs.model()[j] == self.inputs.model()[j]
        &&& self.uploads_succeeded(reads, before, made, after)
        &&& match reads[k] {
            FileRead::Failed(reason) => {
                &&& error matches Error::Io { path, source }
                &&& path@ == self.input_at(k).path
                &&& source@ == reason@
                &&& after.inputs.model()[k] == self.inputs.model()[k]
                &&& made.len() == before.len()
            },
            FileRead::Contents(bytes) => {
                &&& self.decision_at(k, bytes@) is Upload
                &&& made.len() == before.len() + 1
                &&& self.is_upload_of(k, bytes@, made.last())
                &&& made.last().answer == Err::<UploadResponse, Error>(error)
                &&& after.input_at(k) == settled(
                    self.input_at(k),
                    sha256_hex(bytes@),
                    self.input_at(k).id,
                )
            },
            FileRead::Skipped => false,
        }
    }

    /// The first uploads of `made` are those of the inputs at the positions
    /// `uploaded`, one for each and in this order; each of them succeeded, and
    /// each input has in `after` the identifier that its own upload answered.
    pub open spec fn uploads_succeeded(
        &self,
        reads: Seq<FileRead>,
        uploaded: Seq<usize>,
        made: Seq<UploadCall>,
        after: SyncSession,
    ) -> bool {
        &&& uploaded.len() <= made.len()
        &&& forall|j: int|
            0 <= j < uploaded.len() ==> {
                &&& uploaded[j] < reads.len()
                &&& self.upload_succeeded(
                    uploaded[j] as int,
                    reads[uploaded[j] as int],
                    #[trigger] made[j],
                    after.input_at(uploaded[j] as int),
                )
            }
    }

    /// The sync of this session, with the files read as `reads`, went through:
    /// it made the uploads `made`, of the inputs at the positions `uploaded`,
    /// and left the session as `after`.
    ///
    /// The inputs that had to be uploaded are those in `uploaded`; each was
    /// uploaded once, in this order, and nothing else was. Every upload
    /// succeeded. An input that is not synced is as it was; one that is synced
    /// has the hash of its contents and an identifier, which is the one of the
    /// previous run where that stands and else the one that its own upload
    /// answered.
    pub open spec fn sync_done(
        &self,
        reads: Seq<FileRead>,
        uploaded: Seq<usize>,
        made: Seq<UploadCall>,
        after: SyncSession,
    ) -> bool {
        &&& uploaded == indexes_where(reads.len() as int, self.needs_upload(reads))
        &&& forall|i: int|
            0 <= i < reads.len() ==> self.synced_at(i, #[trigger] reads[i], after.input_at(i))
        &&& made.len() == uploaded.len()
        &&& self.uploads_succeeded(reads, uploaded, made, after)
    }

    /// Syncs every input that is an image and is not set aside for packing,
    /// in the order of the names. `reads` holds, for each input by position,
    /// what came of reading its file.
    ///
    /// Each input that has to be uploaded is uploaded once through `uploader`,
    /// and nothing else is: the uploads that the sync adds to the record are
    /// those of the inputs in `uploaded`, in this order. The sync ends at the
    /// first file that could not be read and at the first upload that fails,
    /// with the error of that upload. It succeeds where neither happens, in
    /// particular where no input has to be uploaded.
    pub fn sync<S: UploadStrategy>(&mut self, uploader: &mut Uploader<S>, reads: &Vec<FileRead>) -> (result:
        Result<SyncReport, Error>)
        requires
            old(self).wf(),
            reads@.len() == old(self).inputs.model().len(),
            forall|i: int|
                0 <= i < reads@.len() && old(self).is_synced(i) ==> !(#[trigger] reads@[i]
                    is Skipped),
        ensures
            final(self).wf(),
            final(self).same_inputs_as(old(self)),
            old(uploader).calls().len() <= final(uploader).calls().len(),
            final(uploader).calls().take(old(uploader).calls().len() as int) == old(
                uploader,
            ).calls(),
            match result {
                Ok(report) => {
                    &&& report.packable@ == indexes_where(
                        reads@.len() as int,
                        old(self).set_aside(),
                    )
                    &&& report.unrecognized@ == indexes_where(
                        reads@.len() as int,
                        old(self).not_recognized(),
                    )
                    &&& old(self).sync_done(
                        reads@,
                        report.uploaded@,
                        final(uploader).calls().skip(old(uploader).calls().len() as int),
                        *final(self),
                    )
                },
                Err(error) => exists|k: int|
                    #[trigger] old(self).stopped_at(
                        k,
                        reads@,
                        final(uploader).calls().skip(old(uploader).calls().len() as int),
                        *final(self),
                        error,
                    ),
            },
    {
        let n = self.inputs.len();
        let mut report = SyncReport {
            uploaded: Vec::new(),
            packable: Vec::new(),
            unrecognized: Vec::new(),
        };
        let ghost start = uploader.calls();
        let mut i: usize = 0;
        assert(uploader.calls().skip(start.len() as int) =~= Seq::<UploadCall>::empty());
        while i < n
            invariant
                i <= n,
                n == reads@.len(),
                n == old(self).inputs.model().len(),
                old(self).wf(),
                self.wf(),
                self.same_inputs_as(old(self)),
                start == old(uploader).calls(),
                start.len() <= uploader.calls().len(),
                uploader.calls().take(start.len() as int) == start,
                forall|k: int|
                    0 <= k < reads@.len() && old(self).is_synced(k) ==> !(#[trigger] reads@[k]
                        is Skipped),
                forall|k: int|
                    i <= k < n ==> #[trigger] self.inputs.model()[k] == old(self).inputs.model()[k],
                forall|k: int|
                    0 <= k < i ==> old(self).synced_at(k, #[trigger] reads@[k], self.input_at(k)),
                report.uploaded@ == indexes_where(i as int, old(self).needs_upload(reads@)),
                report.packable@ == indexes_where(i as int, old(self).set_aside()),
                report.unrecognized@ == indexes_where(i as int, old(self).not_recognized()),
                forall|j: int| 0 <= j < report.uploaded@.len() ==> #[trigger] report.uploaded@[j] < i,
                uploader.calls().len() == start.len() + report.uploaded@.len(),
                old(self).uploads_succeeded(
                    reads@,
                    report.uploaded@,
                    uploader.calls().skip(start.len() as int),
                    *self,
                ),
            decreases n - i,
        {
            let ghost before = *self;
            let ghost calls = uploader.calls();
            let ghost made = calls.skip(start.len() as int);
            let ghost listed = report.uploaded@;
            assert(self.input_at(i as int) == old(self).input_at(i as int));
            assert(self.name_at(i as int) == old(self).name_at(i as int));
            let packable = {
                let input = self.inputs.value_at(i);
                let config = &self.configs[input.config_index.0];
                assert(configs_view(self.configs@)[input.config_index.0 as int] == config@);
                config.inputs[input.config_index.1].packable
            };
            assert(packable == old(self).is_packable(i as int));
            if packable {
                report.packable.push(i);
            } else if self.wants_contents(i) {
                assert(old(self).is_synced(i as int));
                assert(self.declaration_at(i as int) == old(self).declaration_at(i as int));
                let outcome = self.sync_unpackable_image(uploader, i, &reads[i]);
                proof {
                    let now = uploader.calls().skip(start.len() as int);
                    assert(uploader.calls().take(start.len() as int) =~= start);
                    assert forall|j: int| 0 <= j < listed.len() implies {
                        &&& listed[j] < reads@.len()
                        &&& old(self).upload_succeeded(
                            listed[j] as int,
                            reads@[listed[j] as int],
                            #[trigger] now[j],
                            self.input_at(listed[j] as int),
                        )
                    } by {
                        assert(listed[j] < i);
                        assert(now[j] == made[j]);
                        assert(self.inputs.model()[listed[j] as int] == before.inputs.model()[
                            listed[j] as int
                        ]);
                    }
                    assert forall|j: int| 0 <= j < i implies old(self).synced_at(
                        j,
                        #[trigger] reads@[j],
                        self.input_at(j),
                    ) by {
                        assert(self.inputs.model()[j] == before.inputs.model()[j]);
                        assert(old(self).synced_at(j, reads@[j], before.input_at(j)));
                    }
                    assert forall|j: int| i < j < reads@.len() implies #[trigger] self.inputs.model()[j]
                        == old(self).inputs.model()[j] by {
                        assert(self.inputs.model()[j] == before.inputs.model()[j]);
                    }
                    if reads@[i as int] is Contents && old(self).decision_at(
                        i as int,
                        reads@[i as int]->Contents_0@,
                    ) is Upload {
                        assert(now.len() == made.len() + 1);
                        assert(now.last() == uploader.calls().last());
                    } else {
                        assert(now =~= made);
                    }
                }
                match outcome {
                    Ok(uploaded) => {
                        if uploaded {
                            report.uploaded.push(i);
                        }
                    },
                    Err(e) => {
                        proof {
                            assert(old(self).stopped_at(
                                i as int,
                                reads@,
                                uploader.calls().skip(start.len() as int),
                                *self,
                                e,
                            ));
                        }
                        return Err(e);
                    },
                }
            } else {
                report.unrecognized.push(i);
            }
            proof {
                assert forall|k: int| 0 <= k < i + 1 implies old(self).synced_at(
                    k,
                    #[trigger] reads@[k],
                    self.input_at(k),
                ) by {
                    if k < i {
                        assert(self.inputs.model()[k] == before.inputs.model()[k]);
                        assert(old(self).synced_at(k, reads@[k], before.input_at(k)));
                    }
                }
                assert forall|k: int| i + 1 <= k < n implies #[trigger] self.inputs.model()[k]
                    == old(self).inputs.model()[k] by {
                    assert(self.inputs.model()[k] == before.inputs.model()[k]);
                }
                let now = uploader.calls().skip(start.len() as int);
                assert forall|j: int| 0 <= j < report.uploaded@.len() implies {
                    &&& report.uploaded@[j] < reads@.len()
                    &&& old(self).upload_succeeded(
                        report.uploaded@[j] as int,
                        reads@[report.uploaded@[j] as int],
                        #[trigger] now[j],
                        self.input_at(report.uploaded@[j] as int),
                    )
                } by {
                    if j < listed.len() {
                        assert(report.uploaded@[j] == listed[j]);
                        assert(listed[j] < i);
                        if now.len() == made.len() {
                            assert(now =~= made);
                        } else {
                            assert(now[j] == made[j]);
                        }
                        assert(self.inputs.model()[listed[j] as int] == before.inputs.model()[
                            listed[j] as int
                        ]);
                    }
                }
            }
            i += 1;
        }
        Ok(report)
    }

    /// What the sync makes of the input at position `i`, whose file was read
    /// as `read`: an input that is not synced stays as it is, and one that is
    /// synced gets the hash of its contents and an identifier, which is the
    /// one of the previous run where `decision` says so.
    pub open spec fn synced_at(&self, i: int, read: FileRead, after: SyncInputView) -> bool {
        if !self.is_synced(i) {
            after == self.input_at(i)
        } else {
            &&& read matches FileRead::Contents(bytes)
            &&& after.id is Some
            &&& after == settled(self.input_at(i), sha256_hex(bytes@), after.id)
            &&& self.decision_at(i, bytes@) matches Decision::Reuse(id) ==> after.id == Some(id)
        }
    }
}

/// The numbers in `indexes_where(n, keep)` are the numbers below `n` that
/// `keep` holds of.
pub proof fn lemma_indexes_where(n: int, keep: spec_fn(int) -> bool)
    requires
        n <= usize::MAX,
    ensures
        forall|j: int|
            0 <= j < indexes_where(n, keep).len() ==> 0 <= #[trigger] indexes_where(n, keep)[j]
                < n && keep(indexes_where(n, keep)[j] as int),
        forall|i: int|
            0 <= i < n && #[trigger] keep(i) ==> exists|j: int|
                0 <= j < indexes_where(n, keep).len() && #[trigger] indexes_where(n, keep)[j]
                    == i,
    decreases n,
{
    if n > 0 {
        lemma_indexes_where(n - 1, keep);
        let before = indexes_where(n - 1, keep);
        let all = indexes_where(n, keep);
        assert forall|j: int| 0 <= j < all.len() implies 0 <= #[trigger] all[j] < n && keep(
            all[j] as int,
        ) by {
            if j < before.len() {
                assert(all[j] == before[j]);
            }
        }
        assert forall|i: int| 0 <= i < n && #[trigger] keep(i) implies exists|j: int|
            0 <= j < all.len() && #[trigger] all[j] == i by {
            if i < n - 1 {
                let j = choose|j: int| 0 <= j < before.len() && #[trigger] before[j] == i;
                assert(all[j] == before[j]);
            } else {
                assert(all[all.len() - 1] == i);
            }
        }
    }
}

/// Two tests that agree below `n` pick the same numbers below `n`.
pub proof fn lemma_indexes_where_alike(
    n: int,
    one: spec_fn(int) -> bool,
    other: spec_fn(int) -> bool,
)
    requires
        forall|i: int| 0 <= i < n ==> #[trigger] one(i) == other(i),
    ensures
        indexes_where(n, one) == indexes_where(n, other),
    decreases n,
{
    if n > 0 {
        lemma_indexes_where_alike(n - 1, one, other);
    }
}

/// Two sessions say the same: they have the same configs, the same manifest
/// of the previous run and the same inputs.
pub open spec fn alike(one: SyncSession, other: SyncSession) -> bool {
    &&& configs_view(one.configs@) == configs_view(other.configs@)
    &&& one.original_manifest@ == other.original_manifest@
    &&& index_view(one.inputs.model()) == index_view(other.inputs.model())
}

/// The uploads `one` and `other` were answered alike: wherever the same name,
/// contents and hash were handed over, the answer was the same.
pub open spec fn answered_alike(one: Seq<UploadCall>, other: Seq<UploadCall>) -> bool {
    forall|x: int, y: int|
        0 <= x < one.len() && 0 <= y < other.len() && (#[trigger] one[x]).name == (
        #[trigger] other[y]).name && one[x].contents == other[y].contents && one[x].hash
            == other[y].hash ==> one[x].answer == other[y].answer
}

/// Sessions that say the same decide the same for every input.
proof fn lemma_alike_decide_alike(one: SyncSession, other: SyncSession, reads: Seq<FileRead>)
    requires
        alike(one, other),
        reads.len() == one.inputs.model().len(),
    ensures
        forall|i: int|
            0 <= i < reads.len() ==> {
                &&& #[trigger] one.name_at(i) == other.name_at(i)
                &&& one.input_at(i) == other.input_at(i)
                &&& one.is_synced(i) == other.is_synced(i)
                &&& (one.needs_upload(reads))(i) == (other.needs_upload(reads))(i)
                &&& forall|contents: Seq<u8>|
                    #[trigger] one.decision_at(i, contents) == other.decision_at(i, contents)
            },
        indexes_where(reads.len() as int, one.needs_upload(reads)) == indexes_where(
            reads.len() as int,
            other.needs_upload(reads),
        ),
{
    let a = index_view(one.inputs.model());
    let b = index_view(other.inputs.model());
    assert(a.len() == b.len());
    assert forall|i: int| 0 <= i < reads.len() implies {
        &&& #[trigger] one.name_at(i) == other.name_at(i)
        &&& one.input_at(i) == other.input_at(i)
        &&& one.is_synced(i) == other.is_synced(i)
        &&& (one.needs_upload(reads))(i) == (other.needs_upload(reads))(i)
        &&& forall|contents: Seq<u8>|
            #[trigger] one.decision_at(i, contents) == other.decision_at(i, contents)
    } by {
        assert(a[i] == b[i]);
        assert(a[i] == (one.name_at(i), one.input_at(i)));
        assert(b[i] == (other.name_at(i), other.input_at(i)));
    }
    lemma_indexes_where_alike(
        reads.len() as int,
        one.needs_upload(reads),
        other.needs_upload(reads),
    );
}

/// Two equal runs end alike. Where two sessions that say the same are synced
/// with the same files, through strategies that answer alike, and both syncs
/// go through, they upload the same inputs, hand over and get back the same
/// at every upload, and leave every input with the same hash and identifier.
pub proof fn lemma_equal_runs_end_alike(
    one: SyncSession,
    other: SyncSession,
    reads: Seq<FileRead>,
    uploaded_one: Seq<usize>,
    made_one: Seq<UploadCall>,
    after_one: SyncSession,
    uploaded_other: Seq<usize>,
    made_other: Seq<UploadCall>,
    after_other: SyncSession,
)
    requires
        alike(one, other),
        reads.len() == one.inputs.model().len(),
        reads.len() <= usize::MAX,
        one.sync_done(reads, uploaded_one, made_one, after_one),
        other.sync_done(reads, uploaded_other, made_other, after_other),
        answered_alike(made_one, made_other),
    ensures
        uploaded_one == uploaded_other,
        made_one == made_other,
        forall|i: int|
            0 <= i < reads.len() ==> #[trigger] after_one.input_at(i) == after_other.input_at(i),
{
    let n = reads.len() as int;
    lemma_alike_decide_alike(one, other, reads);
    lemma_indexes_where(n, one.needs_upload(reads));
    assert forall|j: int| 0 <= j < made_one.len() implies made_one[j] == made_other[j] by {
        let i = uploaded_one[j] as int;
        assert(one.upload_succeeded(i, reads[i], made_one[j], after_one.input_at(i)));
        assert(other.upload_succeeded(i, reads[i], made_other[j], after_other.input_at(i)));
        assert(one.name_at(i) == other.name_at(i));
    }
    assert(made_one =~= made_other);
    assert forall|i: int| 0 <= i < n implies #[trigger] after_one.input_at(i)
        == after_other.input_at(i) by {
        assert(one.name_at(i) == other.name_at(i));
        assert(one.synced_at(i, reads[i], after_one.input_at(i)));
        assert(other.synced_at(i, reads[i], after_other.input_at(i)));
        if one.is_synced(i) {
            let bytes = reads[i]->Contents_0;
            assert(one.decision_at(i, bytes@) == other.decision_at(i, bytes@));
            if one.decision_at(i, bytes@) is Upload {
                assert((one.needs_upload(reads))(i));
                let j = choose|j: int|
                    0 <= j < uploaded_one.len() && #[trigger] uploaded_one[j] == i;
                assert(one.upload_succeeded(i, reads[i], made_one[j], after_one.input_at(i)));
                assert(other.upload_succeeded(
                    uploaded_other[j] as int,
                    reads[uploaded_other[j] as int],
                    made_other[j],
                    after_other.input_at(uploaded_other[j] as int),
                ));
            }
        }
    }
}

/// Two equal runs go through alike. Where two sessions that say the same are
/// synced with the same files, through strategies that answer alike, the one
/// does not go through where the other stops.
pub proof fn lemma_equal_runs_stop_alike(
    one: SyncSession,
    other: SyncSession,
    reads: Seq<FileRead>,
    uploaded: Seq<usize>,
    made_one: Seq<UploadCall>,
    after_one: SyncSession,
    k: int,
    made_other: Seq<UploadCall>,
    after_other: SyncSession,
    error: Error,
)
    requires
        alike(one, other),
        reads.len() == one.inputs.model().len(),
        reads.len() <= usize::MAX,
        one.sync_done(reads, uploaded, made_one, after_one),
        answered_alike(made_one, made_other),
    ensures
        !other.stopped_at(k, reads, made_other, after_other, error),
{
    let n = reads.len() as int;
    lemma_alike_decide_alike(one, other, reads);
    lemma_indexes_where(n, one.needs_upload(reads));
    if other.stopped_at(k, reads, made_other, after_other, error) {
        assert(one.name_at(k) == other.name_at(k));
        assert(one.synced_at(k, reads[k], after_one.input_at(k)));
        let bytes = reads[k]->Contents_0;
        assert(one.decision_at(k, bytes@) == other.decision_at(k, bytes@));
        assert((one.needs_upload(reads))(k));
        let j = choose|j: int| 0 <= j < uploaded.len() && #[trigger] uploaded[j] == k;
        assert(one.upload_succeeded(k, reads[k], made_one[j], after_one.input_at(k)));
        let last = made_other.len() - 1;
        assert(made_other[last] == made_other.last());
        assert(made_one[j].answer == made_other[last].answer);
    }
}

/// A sync stops for one of two reasons only: a file could not be read, or an
/// upload failed. So it goes through where every file is read and every
/// upload succeeds.
pub proof fn lemma_sync_stops_for_a_reason(
    session: SyncSession,
    k: int,
    reads: Seq<FileRead>,
    made: Seq<UploadCall>,
    after: SyncSession,
    error: Error,
)
    requires
        session.stopped_at(k, reads, made, after, error),
    ensures
        reads[k] is Failed || (made.len() > 0 && made.last().answer
            == Err::<UploadResponse, Error>(error)),
{
}

/// What a record of a manifest says, as a function.
pub open spec fn record_view() -> spec_fn(InputManifest) -> InputManifestView {
    |record: InputManifest| record@
}

} // verus!
