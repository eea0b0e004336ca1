//! The messages that go between the client and the daemon.

use vstd::prelude::*;

use crate::text::texts;

verus! {

/// A path and how well it matches. The score is the bit pattern of an IEEE 754
/// double.
#[derive(Debug, Clone)]
pub struct ScoredPath {
    pub path: String,
    pub score: u64,
}

/// The paths with their scores.
pub open spec fn scored(v: Seq<ScoredPath>) -> Seq<(Seq<char>, u64)> {
    Seq::new(v.len(), |i: int| (v[i].path@, v[i].score))
}

/// A copy of scored paths.
pub fn copy_paths(v: &Vec<ScoredPath>) -> (r: Vec<ScoredPath>)
    ensures
        scored(r@) == scored(v@),
{
    let mut r: Vec<ScoredPath> = Vec::new();
    let mut i: usize = 0;
    while i < v.len()
        invariant
            i <= v@.len(),
            r@.len() == i,
            forall|j: int|
                0 <= j < i ==> (#[trigger] r@[j]).path@ == v@[j].path@ && r@[j].score == v@[j].score,
        decreases v@.len() - i,
    {
        r.push(ScoredPath { path: v[i].path.clone(), score: v[i].score });
        i = i + 1;
    }
    assert(scored(r@) =~= scored(v@));
    r
}

/// Client -> daemon requests.
#[derive(Debug)]
pub enum Request {
    Find { query: String },
    Open { query: String },
    Status,
    Reindex,
    ConfigGet { key: String },
    ConfigSet { key: String, value: String },
    FsWrite { path: String, data_b64: String },
    FsRead { path: String },
    FsLs { path: String },
    FsMkdir { path: String },
    FsRm { path: String },
    FsStat { path: String },
    FsInfo,
    FsSnapshot { name: String },
    FsSnapshots,
    FsRollback { name: String },
    FsScrub,
    FsGc,
    Hook { dir: String },
    HookStatus,
    Ai,
    Cache,
    Bench { mb: usize },
}

/// Daemon -> client response.
#[derive(Debug)]
pub struct Response {
    pub results: Option<Vec<ScoredPath>>,
    pub status: Option<String>,
    pub indexed_files: Option<usize>,
    pub last_retrain: Option<String>,
    pub ok: Option<bool>,
    pub message: Option<String>,
    pub opened_path: Option<String>,
    pub error: Option<String>,
    pub lines: Option<Vec<String>>,
    pub data_b64: Option<String>,
}

/// What a [`Response`] says.
#[verifier::ext_equal]
pub struct ResponseModel {
    pub results: Option<Seq<(Seq<char>, u64)>>,
    pub status: Option<Seq<char>>,
    pub indexed_files: Option<usize>,
    pub last_retrain: Option<Seq<char>>,
    pub ok: Option<bool>,
    pub message: Option<Seq<char>>,
    pub opened_path: Option<Seq<char>>,
    pub error: Option<Seq<char>>,
    pub lines: Option<Seq<Seq<char>>>,
    pub data_b64: Option<Seq<char>>,
}

/// What an optional text says.
pub open spec fn optional_text(s: Option<String>) -> Option<Seq<char>> {
    match s {
        Some(s) => Some(s@),
        None => None,
    }
}

impl View for Response {
    type V = ResponseModel;

    open spec fn view(&self) -> ResponseModel {
        ResponseModel {
            results: match self.results {
                Some(v) => Some(scored(v@)),
                None => None,
            },
            status: optional_text(self.status),
            indexed_files: self.indexed_files,
            last_retrain: optional_text(self.last_retrain),
            ok: self.ok,
            message: optional_text(self.message),
            opened_path: optional_text(self.opened_path),
            error: optional_text(self.error),
            lines: match self.lines {
                Some(v) => Some(texts(v@)),
                None => None,
            },
            data_b64: optional_text(self.data_b64),
        }
    }
}

impl ResponseModel {
    /// A response that says nothing.
    pub open spec fn empty() -> ResponseModel {
        ResponseModel {
            results: None,
            status: None,
            indexed_files: None,
            last_retrain: None,
            ok: None,
            message: None,
            opened_path: None,
            error: None,
            lines: None,
            data_b64: None,
        }
    }

    /// A failure.
    pub open spec fn failed(msg: Seq<char>) -> ResponseModel {
        ResponseModel { error: Some(msg), ..ResponseModel::empty() }
    }

    /// A success with a message.
    pub open spec fn done(msg: Seq<char>) -> ResponseModel {
        ResponseModel { ok: Some(true), message: Some(msg), ..ResponseModel::empty() }
    }

    /// Lines of text.
    pub open spec fn listing(lines: Seq<Seq<char>>) -> ResponseModel {
        ResponseModel { lines: Some(lines), ..ResponseModel::empty() }
    }

    /// Ranked results.
    pub open spec fn found(results: Seq<(Seq<char>, u64)>) -> ResponseModel {
        ResponseModel { results: Some(results), ..ResponseModel::empty() }
    }
}

impl Response {
    /// A response that says nothing.
    pub fn empty() -> (r: Response)
        ensures
            r@ == ResponseModel::empty(),
    {
        Response {
            results: None,
            status: None,
            indexed_files: None,
            last_retrain: None,
            ok: None,
            message: None,
            opened_path: None,
            error: None,
            lines: None,
            data_b64: None,
        }
    }

    pub fn error(msg: String) -> (r: Response)
        ensures
            r@ == ResponseModel::failed(msg@),
    {
        let mut r = Response::empty();
        r.error = Some(msg);
        r
    }

    pub fn ok(msg: String) -> (r: Response)
        ensures
            r@ == ResponseModel::done(msg@),
    {
        let mut r = Response::empty();
        r.ok = Some(true);
        r.message = Some(msg);
        r
    }

    pub fn lines(v: Vec<String>) -> (r: Response)
        ensures
            r@ == ResponseModel::listing(texts(v@)),
    {
        let mut r = Response::empty();
        r.lines = Some(v);
        r
    }
}

} // verus!
