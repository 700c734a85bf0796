//! Uploads: what is handed to the asset store, what it answers, and the
//! record of both.

use crate::asset_name::AssetName;
use crate::data::Error;
use crate::hash::sha256_hex;
use vstd::prelude::*;

verus! {

/// What is handed to the asset store for one upload.
#[derive(Debug, PartialEq, Eq)]
pub struct UploadData {
    /// The name of the asset.
    pub name: AssetName,
    /// The contents of the file.
    pub contents: Vec<u8>,
    /// The hash of the contents.
    pub hash: String,
}

/// What the asset store answers to an upload.
#[derive(Debug, PartialEq, Eq)]
pub struct UploadResponse {
    /// The identifier that the asset now has.
    pub id: u64,
}

/// A way to bring an asset to the asset store.
///
/// Nothing is promised of what an upload answers. What is handed to it is the
/// asset with the hash of its contents.
pub trait UploadStrategy {
    fn upload(&mut self, data: UploadData) -> Result<UploadResponse, Error>
        requires
            data.hash@ == sha256_hex(data.contents@),
    ;
}

/// One upload: what was handed to the strategy, and what it answered.
pub struct UploadCall {
    pub name: Seq<char>,
    pub contents: Seq<u8>,
    pub hash: Seq<char>,
    pub answer: Result<UploadResponse, Error>,
}

/// An upload strategy together with the record of the uploads that went
/// through it. The strategy is reached through `upload` alone, so the record
/// holds every call that was made, and nothing else.
pub struct Uploader<S: UploadStrategy> {
    strategy: S,
    calls: Ghost<Seq<UploadCall>>,
}

impl<S: UploadStrategy> Uploader<S> {
    /// The uploads that went through the strategy so far, first to last.
    pub closed spec fn calls(&self) -> Seq<UploadCall> {
        self.calls@
    }

    /// The strategy that the uploads go through, as it stands.
    pub closed spec fn inner(&self) -> S {
        self.strategy
    }

    /// An uploader over `strategy`, through which nothing has gone yet.
    pub fn new(strategy: S) -> (uploader: Self)
        ensures
            uploader.calls() == Seq::<UploadCall>::empty(),
            uploader.inner() == strategy,
    {
        Uploader { strategy, calls: Ghost(Seq::empty()) }
    }

    /// The strategy that the uploads go through.
    pub fn strategy(&self) -> (strategy: &S)
        ensures
            *strategy == self.inner(),
    {
        &self.strategy
    }

    /// Hands the strategy back.
    pub fn into_strategy(self) -> (strategy: S)
        ensures
            strategy == self.inner(),
    {
        self.strategy
    }

    /// Hands `data` to the strategy, gives back what it answers, and puts the
    /// call on record.
    pub fn upload(&mut self, data: UploadData) -> (answer: Result<UploadResponse, Error>)
        requires
            data.hash@ == sha256_hex(data.contents@),
        ensures
            final(self).calls() == old(self).calls().push(
                UploadCall {
                    name: data.name@,
                    contents: data.contents@,
                    hash: data.hash@,
                    answer,
                },
            ),
    {
        let ghost name = data.name@;
        let ghost contents = data.contents@;
        let ghost hash = data.hash@;
        let answer = self.strategy.upload(data);
        self.calls = Ghost(self.calls@.push(UploadCall { name, contents, hash, answer }));
        answer
    }
}

} // verus!
