//! What the client sends and what it prints.

use vstd::prelude::*;

use crate::ipc::{
    base64_bytes, base64_text, copy_texts, decode_text, encodable, encode_payload,
    fs_write_handled, read_answered, Outcome, MAX_IPC_BYTES,
};
use crate::protocol::{optional_text, Request, Response, ResponseModel};
use crate::text::{decimal, decimal_text, join, joined_by, texts};

verus! {

/// What the user asks the client to do.
pub enum Command {
    Find { query: Vec<String> },
    Open { query: Vec<String> },
    Status,
    Reindex,
    ConfigGet { key: String },
    ConfigSet { key: String, value: String },
    /// Write these bytes under a path of the volume.
    FsWrite { vpath: String, data: Vec<u8> },
    FsRead { vpath: String },
    FsLs { vpath: String },
    FsMkdir { vpath: String },
    FsRm { vpath: String },
    FsStat { vpath: String },
    FsInfo,
    FsSnapshot { name: String },
    FsSnapshots,
    FsRollback { name: String },
    FsScrub,
    FsGc,
    /// Hook a directory, or show those that are hooked.
    Hook { dir: Option<String> },
    Ai,
    Cache,
    Bench { mb: usize },
}

/// `req` is the request for a command.
pub open spec fn is_request(cmd: Command, req: Request) -> bool {
    match cmd {
        Command::Find { query } => req matches Request::Find { query: q } && q@ == joined_by(
            texts(query@),
            ' ',
        ),
        Command::Open { query } => req matches Request::Open { query: q } && q@ == joined_by(
            texts(query@),
            ' ',
        ),
        Command::Status => req is Status,
        Command::Reindex => req is Reindex,
        Command::ConfigGet { key } => req matches Request::ConfigGet { key: k } && k@ == key@,
        Command::ConfigSet { key, value } => req matches Request::ConfigSet { key: k, value: v }
            && k@ == key@ && v@ == value@,
        Command::FsWrite { vpath, data } => req matches Request::FsWrite { path, data_b64 } && path@
            == vpath@ && data_b64@ == base64_text(data@) && base64_bytes(data_b64@) is Ok
            && base64_bytes(data_b64@)->Ok_0 == data@,
        Command::FsRead { vpath } => req matches Request::FsRead { path } && path@ == vpath@,
        Command::FsLs { vpath } => req matches Request::FsLs { path } && path@ == vpath@,
        Command::FsMkdir { vpath } => req matches Request::FsMkdir { path } && path@ == vpath@,
        Command::FsRm { vpath } => req matches Request::FsRm { path } && path@ == vpath@,
        Command::FsStat { vpath } => req matches Request::FsStat { path } && path@ == vpath@,
        Command::FsInfo => req is FsInfo,
        Command::FsSnapshot { name } => req matches Request::FsSnapshot { name: n } && n@ == name@,
        Command::FsSnapshots => req is FsSnapshots,
        Command::FsRollback { name } => req matches Request::FsRollback { name: n } && n@ == name@,
        Command::FsScrub => req is FsScrub,
        Command::FsGc => req is FsGc,
        Command::Hook { dir } => match dir {
            Some(d) => req matches Request::Hook { dir: e } && e@ == d@,
            None => req is HookStatus,
        },
        Command::Ai => req is Ai,
        Command::Cache => req is Cache,
        Command::Bench { mb } => req == (Request::Bench { mb }),
    }
}

/// The request for a command.
pub fn request_for(cmd: Command) -> (req: Request)
    requires
        cmd matches Command::FsWrite { data, .. } ==> encodable(data@.len()),
    ensures
        is_request(cmd, req),
{
    match cmd {
        Command::Find { query } => Request::Find { query: join(&query, ' ') },
        Command::Open { query } => Request::Open { query: join(&query, ' ') },
        Command::Status => Request::Status,
        Command::Reindex => Request::Reindex,
        Command::ConfigGet { key } => Request::ConfigGet { key },
        Command::ConfigSet { key, value } => Request::ConfigSet { key, value },
        Command::FsWrite { vpath, data } => {
            let data_b64 = encode_payload(&data);
            Request::FsWrite { path: vpath, data_b64 }
        },
        Command::FsRead { vpath } => Request::FsRead { path: vpath },
        Command::FsLs { vpath } => Request::FsLs { path: vpath },
        Command::FsMkdir { vpath } => Request::FsMkdir { path: vpath },
        Command::FsRm { vpath } => Request::FsRm { path: vpath },
        Command::FsStat { vpath } => Request::FsStat { path: vpath },
        Command::FsInfo => Request::FsInfo,
        Command::FsSnapshot { name } => Request::FsSnapshot { name },
        Command::FsSnapshots => Request::FsSnapshots,
        Command::FsRollback { name } => Request::FsRollback { name },
        Command::FsScrub => Request::FsScrub,
        Command::FsGc => Request::FsGc,
        Command::Hook { dir } => match dir {
            Some(dir) => Request::Hook { dir },
            None => Request::HookStatus,
        },
        Command::Ai => Request::Ai,
        Command::Cache => Request::Cache,
        Command::Bench { mb } => Request::Bench { mb },
    }
}

/// How many milliseconds to wait after an attempt to connect that failed, the
/// attempts being counted from zero; `None` where no such attempt is made.
pub fn retry_delay(attempt: u64) -> (r: Option<u64>)
    ensures
        r == if attempt < 5 {
            Some((50 * (attempt + 1)) as u64)
        } else {
            None
        },
{
    if attempt < 5 {
        Some(50 * (attempt + 1))
    } else {
        None
    }
}

/// The text, or another one where there is none.
pub open spec fn text_or(s: Option<Seq<char>>, other: Seq<char>) -> Seq<char> {
    match s {
        Some(t) => t,
        None => other,
    }
}

fn or_text(s: &Option<String>, other: &str) -> (r: String)
    ensures
        r@ == text_or(optional_text(*s), other@),
{
    match s {
        Some(t) => t.clone(),
        None => other.to_owned(),
    }
}

/// The message of a response or what went wrong.
pub open spec fn message_text(r: ResponseModel) -> Seq<char> {
    match r.message {
        Some(m) => m,
        None => text_or(r.error, "unknown error"@),
    }
}

/// What is printed for a response with a message.
pub fn message_or_error(resp: &Response) -> (s: String)
    ensures
        s@ == message_text(resp@),
{
    match &resp.message {
        Some(m) => m.clone(),
        None => or_text(&resp.error, "unknown error"),
    }
}

/// What is printed for a response with lines.
pub fn print_lines(resp: &Response) -> (v: Vec<String>)
    ensures
        texts(v@) == match resp@.error {
            Some(e) => seq!["error: "@ + e],
            None => match resp@.lines {
                Some(l) => l,
                None => seq![message_text(resp@)],
            },
        },
{
    let mut v: Vec<String> = Vec::new();
    match &resp.error {
        Some(e) => {
            v.push("error: ".to_owned().concat(e.as_str()));
            assert(texts(v@) =~= seq!["error: "@ + e@]);
            v
        },
        None => match &resp.lines {
            Some(l) => copy_texts(l),
            None => {
                v.push(message_or_error(resp));
                assert(texts(v@) =~= seq![message_text(resp@)]);
                v
            },
        },
    }
}

/// What is printed for the response to a `find` request in place of a table of
/// results; `None` where there are results.
pub fn print_results(resp: &Response) -> (r: Option<String>)
    ensures
        optional_text(r) == match resp@.error {
            Some(e) => Some("error: "@ + e),
            None => if resp@.results is Some && resp@.results.unwrap().len() > 0 {
                None
            } else {
                Some("no matches found"@)
            },
        },
{
    match &resp.error {
        Some(e) => Some("error: ".to_owned().concat(e.as_str())),
        None => match &resp.results {
            Some(v) => {
                assert(resp@.results.unwrap().len() == v@.len());
                if v.len() > 0 {
                    None
                } else {
                    Some("no matches found".to_owned())
                }
            },
            None => Some("no matches found".to_owned()),
        },
    }
}

/// What is printed for the response to an `open` request, and the path that is
/// to be opened.
pub fn print_open(resp: &Response) -> (r: (String, Option<String>))
    ensures
        match resp@.opened_path {
            Some(p) => r.0@ == "opening "@ + p && optional_text(r.1) == Some(p),
            None => r.0@ == text_or(resp@.error, "no match found"@) && r.1 is None,
        },
{
    match &resp.opened_path {
        Some(p) => ("opening ".to_owned().concat(p.as_str()), Some(p.clone())),
        None => (or_text(&resp.error, "no match found"), None),
    }
}

/// What is printed for the response to a `status` request.
pub fn print_status(resp: &Response) -> (v: Vec<String>)
    ensures
        texts(v@) == seq![
            "status: "@ + text_or(resp@.status, "unknown"@),
            "indexed_files: "@ + decimal_text(
                match resp@.indexed_files {
                    Some(n) => n as nat,
                    None => 0,
                },
            ),
            "last_retrain: "@ + text_or(resp@.last_retrain, "never"@),
        ],
{
    let n: usize = match resp.indexed_files {
        Some(n) => n,
        None => 0,
    };
    let status = or_text(&resp.status, "unknown");
    let last = or_text(&resp.last_retrain, "never");
    let count = decimal(n as u64);
    let mut v: Vec<String> = Vec::new();
    v.push("status: ".to_owned().concat(status.as_str()));
    v.push("indexed_files: ".to_owned().concat(count.as_str()));
    v.push("last_retrain: ".to_owned().concat(last.as_str()));
    assert(texts(v@) =~= seq![
        "status: "@ + text_or(resp@.status, "unknown"@),
        "indexed_files: "@ + decimal_text(n as nat),
        "last_retrain: "@ + text_or(resp@.last_retrain, "never"@),
    ]);
    v
}

/// What is printed for the response to a `reindex` request.
pub fn print_reindex(resp: &Response) -> (s: String)
    ensures
        s@ == text_or(resp@.message, "reindex triggered"@),
{
    or_text(&resp.message, "reindex triggered")
}

/// What a response to an `fs read` request holds.
pub enum Download {
    /// The content of the file.
    Content(Vec<u8>),
    /// What is printed in its place.
    Refused(String),
    /// The content cannot be decoded.
    Garbled(String),
}

/// `r` is what a response holds.
pub open spec fn downloaded(resp: ResponseModel, r: Download) -> bool {
    match resp.error {
        Some(e) => r matches Download::Refused(s) && s@ == "error: "@ + e,
        None => match base64_bytes(text_or(resp.data_b64, Seq::empty())) {
            Ok(b) => r matches Download::Content(v) && v@ == b,
            Err(e) => r matches Download::Garbled(s) && s@ == e,
        },
    }
}

/// The content of a file that was read. A response without data is an empty
/// file.
pub fn download(resp: &Response) -> (r: Download)
    ensures
        downloaded(resp@, r),
{
    match &resp.error {
        Some(e) => Download::Refused("error: ".to_owned().concat(e.as_str())),
        None => {
            let text = match &resp.data_b64 {
                Some(t) => t.clone(),
                None => String::new(),
            };
            assert(text@ =~= text_or(resp@.data_b64, Seq::empty()));
            match decode_text(text.as_str()) {
                Ok(v) => Download::Content(v),
                Err(e) => Download::Garbled(e),
            }
        },
    }
}

/// What is printed once a file has been saved.
pub fn saved_text(n: usize, path: &str) -> (s: String)
    ensures
        s@ == "wrote "@ + decimal_text(n as nat) + " bytes to "@ + path@,
{
    let d = decimal(n as u64);
    "wrote ".to_owned().concat(d.as_str()).concat(" bytes to ").concat(path)
}

/// What a user uploads within the limit reaches the volume unchanged.
pub proof fn law_upload_reaches_the_volume(cmd: Command, req: Request, r: Outcome)
    requires
        is_request(cmd, req),
        cmd is FsWrite,
        cmd->data@.len() <= MAX_IPC_BYTES,
        fs_write_handled(req->FsWrite_path@, req->data_b64@, r),
    ensures
        r matches Outcome::WriteFile { path, data } && path@ == cmd->FsWrite_vpath@ && data@
            == cmd->data@,
{
}

/// The user gets the content of a file that the daemon has read, or is told
/// that it is too large.
pub proof fn law_download_gives_the_content(bytes: Seq<u8>, resp: ResponseModel, r: Download)
    requires
        read_answered(bytes, resp),
        downloaded(resp, r),
    ensures
        if bytes.len() <= MAX_IPC_BYTES {
            r matches Download::Content(v) && v@ == bytes
        } else {
            r is Refused
        },
{
}

} // verus!
