//! The decisions of the file-snapshot store behind the History tab: which
//! tool calls are captured and from which file, what a capture records,
//! where its blob goes, how a diff pairs and renders two snapshots, when a
//! restore is refused, and what the content view hands out.

use vstd::prelude::*;
use base64::Engine;
use sha2::Digest;
use crate::json::{Json, JsonValue, as_str, get_field, json_get, json_str, opt_json};
use crate::text::{
    chars_of, contains_seq, ends_in_name, i64_to_string, is_ascii_alnum, is_alnum, occurs_at, owned,
    plain_name, plainly_relative, push_char, push_str, signed_decimal, str_eq, string_of,
};

verus! {

/// Files larger than this (1 MB) are recorded without their bytes.
pub const MAX_SNAPSHOT_BYTES: u64 = 1048576;

/// The file-editing tools whose calls are captured.
pub open spec fn tracked_tools() -> Seq<Seq<char>> {
    seq!["Edit"@, "Write"@, "MultiEdit"@, "NotebookEdit"@]
}

/// Whether calls of `tool_name` are captured.
pub fn is_tracked_tool(tool_name: &str) -> (r: bool)
    ensures
        r == tracked_tools().contains(tool_name@),
{
    let ghost t = tracked_tools();
    if str_eq(tool_name, "Edit") {
        assert(t[0] == tool_name@);
        true
    } else if str_eq(tool_name, "Write") {
        assert(t[1] == tool_name@);
        true
    } else if str_eq(tool_name, "MultiEdit") {
        assert(t[2] == tool_name@);
        true
    } else if str_eq(tool_name, "NotebookEdit") {
        assert(t[3] == tool_name@);
        true
    } else {
        false
    }
}

/// One captured state of a file.
#[derive(Debug, PartialEq)]
pub struct SnapshotRow {
    pub id: i64,
    pub session_id: String,
    pub project_path: String,
    pub file_path: String,
    pub tool_name: String,
    pub phase: String,
    pub paired_id: Option<i64>,
    pub blob_path: String,
    pub size_bytes: i64,
    pub sha256: String,
    pub is_binary: bool,
    pub oversized: bool,
    pub ts: String,
    pub tool_use_id: Option<String>,
}

/// A rendered diff between two snapshots.
#[derive(Debug)]
pub struct DiffResult {
    pub unified: String,
    pub plus: u32,
    pub minus: u32,
    pub is_binary: bool,
    pub pre_oversized: bool,
    pub post_oversized: bool,
    pub pre: Option<SnapshotRow>,
    pub post: Option<SnapshotRow>,
}

/// The bytes of a snapshot as the content view receives them.
#[derive(Debug)]
pub struct SnapshotContent {
    pub size_bytes: i64,
    pub is_binary: bool,
    /// base64 of the blob bytes; empty when oversized or missing.
    pub base64: String,
}

/// What a restore did.
#[derive(Debug)]
pub struct RestoreResult {
    pub ok: bool,
    pub pre_restore_snapshot_id: Option<i64>,
    /// The restored snapshot stood for "no file", so the target was deleted.
    pub deleted_target: bool,
    pub message: String,
}

/// Snapshot settings and disk usage, for the Settings panel.
#[derive(Debug)]
pub struct SnapshotSettings {
    pub enabled: bool,
    pub retention_days: u32,
    pub total_size_bytes: i64,
    pub total_count: i64,
}

// ---------------------------------------------------------------- names

/// The character kept in a directory name: ASCII letters, digits, `-` and
/// `_` stay, anything else becomes `_`.
pub open spec fn safe_char(c: char) -> char {
    if is_ascii_alnum(c) || c == '-' || c == '_' {
        c
    } else {
        '_'
    }
}

/// Each character made safe (see `safe_char`); an empty id becomes `_`, so
/// the name is never empty.
pub open spec fn sanitized(s: Seq<char>) -> Seq<char> {
    if s.len() == 0 {
        seq!['_']
    } else {
        Seq::new(s.len(), |i: int| safe_char(s[i]))
    }
}

/// A session id made safe as a directory name: same length, with path
/// separators and every other unusual character turned into `_`; the empty
/// id becomes `_`, so the name always names a directory inside the store.
pub fn sanitize_id(s: &str) -> (r: String)
    ensures
        r@ == sanitized(s@),
        r@.len() > 0,
{
    let cs = chars_of(s);
    if cs.len() == 0 {
        let mut out: Vec<char> = Vec::new();
        out.push('_');
        assert(out@ =~= seq!['_']);
        return string_of(&out);
    }
    let mut out: Vec<char> = Vec::new();
    let mut i: usize = 0;
    while i < cs.len()
        invariant
            i <= cs.len(),
            cs@ == s@,
            s@.len() > 0,
            out@ == Seq::new(i as nat, |j: int| safe_char(s@[j])),
        decreases cs.len() - i,
    {
        let c = cs[i];
        let d = if is_alnum(c) || c == '-' || c == '_' {
            c
        } else {
            '_'
        };
        out.push(d);
        i += 1;
        assert(out@ =~= Seq::new(i as nat, |j: int| safe_char(s@[j])));
    }
    assert(out@ =~= sanitized(s@));
    string_of(&out)
}

/// The directory of a session's blobs under the store root `root`.
pub fn session_dir(root: &str, session_id: &str) -> (r: String)
    ensures
        r@ == root@ + seq!['/'] + sanitized(session_id@),
{
    let mut out = owned(root);
    push_char(&mut out, '/');
    let name = sanitize_id(session_id);
    push_str(&mut out, name.as_str());
    out
}

/// The blob of row `id` of a session, relative to the store root.
pub fn blob_rel(session_id: &str, id: i64) -> (r: String)
    ensures
        r@ == sanitized(session_id@) + seq!['/'] + signed_decimal(id as int) + ".bin"@,
{
    let mut out = sanitize_id(session_id);
    push_char(&mut out, '/');
    let n = i64_to_string(id);
    push_str(&mut out, n.as_str());
    push_str(&mut out, ".bin");
    out
}

// ---------------------------------------------------------------- bytes

/// Some byte among the first 8 KiB of `b` is zero.
pub open spec fn binary_bytes(b: Seq<u8>) -> bool {
    exists|i: int| 0 <= i < b.len() && i < 8192 && b[i] == 0
}

/// Whether the bytes look binary: a zero byte in the first 8 KiB.
pub fn looks_binary(bytes: &[u8]) -> (r: bool)
    ensures
        r == binary_bytes(bytes@),
{
    let n: usize = if bytes.len() < 8192 {
        bytes.len()
    } else {
        8192
    };
    let mut i: usize = 0;
    while i < n
        invariant
            n <= bytes@.len(),
            n <= 8192,
            i <= n,
            n == bytes@.len() || n == 8192,
            forall|j: int| 0 <= j < i ==> bytes@[j] != 0,
        decreases n - i,
    {
        if bytes[i] == 0 {
            return true;
        }
        i += 1;
    }
    false
}

/// What `sha2::Sha256::digest` computes for `data`.
pub uninterp spec fn sha256_digest(data: Seq<u8>) -> Seq<u8>;

/// SHA-256 of `data` by `sha2::Sha256::digest`: the named digest, which is
/// 32 bytes long (the output size of `Sha256`).
#[verifier::external_body]
fn sha256(data: &[u8]) -> (r: Vec<u8>)
    ensures
        r@ == sha256_digest(data@),
        r@.len() == 32,
{
    sha2::Sha256::digest(data).to_vec()
}

pub open spec fn hex_digit(n: int) -> char {
    if n < 10 {
        (('0' as u32) + n) as char
    } else {
        (('a' as u32) + n - 10) as char
    }
}

/// Lowercase hexadecimal of `b`, two digits per byte, high digit first.
pub open spec fn hex_of(b: Seq<u8>) -> Seq<char>
    decreases b.len(),
{
    if b.len() == 0 {
        Seq::empty()
    } else {
        let x = b.last() as int;
        hex_of(b.drop_last()).push(hex_digit(x / 16)).push(hex_digit(x % 16))
    }
}

fn hex_char(n: u8) -> (r: char)
    requires
        n < 16,
    ensures
        r == hex_digit(n as int),
{
    if n < 10 {
        crate::text::char_from_ascii(48 + n as u32)
    } else {
        crate::text::char_from_ascii(87 + n as u32)
    }
}

/// Lowercase hexadecimal of `b`.
pub fn hex_lower(b: &[u8]) -> (r: String)
    ensures
        r@ == hex_of(b@),
{
    let mut out: Vec<char> = Vec::new();
    let mut i: usize = 0;
    while i < b.len()
        invariant
            i <= b.len(),
            out@ == hex_of(b@.subrange(0, i as int)),
        decreases b.len() - i,
    {
        let x = b[i];
        out.push(hex_char(x / 16));
        out.push(hex_char(x % 16));
        i += 1;
        assert(b@.subrange(0, i as int).drop_last() =~= b@.subrange(0, i - 1));
    }
    assert(b@.subrange(0, b.len() as int) =~= b@);
    string_of(&out)
}

/// The SHA-256 of `bytes` in lowercase hexadecimal (64 characters).
pub fn sha256_hex(bytes: &[u8]) -> (r: String)
    ensures
        r@ == hex_of(sha256_digest(bytes@)),
        r@.len() == 64,
{
    let d = sha256(bytes);
    proof {
        lemma_hex_len(d@);
    }
    hex_lower(d.as_slice())
}

// ---------------------------------------------------------------- target

/// The member of a tool's input that names the edited file.
pub open spec fn target_key(tool: Seq<char>) -> Option<Seq<char>> {
    if tool == "Edit"@ || tool == "Write"@ || tool == "MultiEdit"@ {
        Some("file_path"@)
    } else if tool == "NotebookEdit"@ {
        Some("notebook_path"@)
    } else {
        None
    }
}

/// The path a tracked tool's input names, when it is a string.
pub open spec fn target_field(tool: Seq<char>, input: Json) -> Option<Seq<char>> {
    match target_key(tool) {
        Some(k) => json_str(json_get(input, k)),
        None => None,
    }
}

/// The path named by `tool_input` for a tracked tool: `file_path` for
/// `Edit`, `Write` and `MultiEdit`, `notebook_path` for `NotebookEdit`.
pub fn target_field_of(tool_name: &str, tool_input: &JsonValue) -> (r: Option<String>)
    ensures
        match r {
            Some(p) => target_field(tool_name@, tool_input@) == Some(p@),
            None => target_field(tool_name@, tool_input@) is None,
        },
{
    let key = if str_eq(tool_name, "Edit") || str_eq(tool_name, "Write") || str_eq(
        tool_name,
        "MultiEdit",
    ) {
        "file_path"
    } else if str_eq(tool_name, "NotebookEdit") {
        "notebook_path"
    } else {
        return None;
    };
    match as_str(get_field(tool_input, key)) {
        Some(s) => Some(owned(s)),
        None => None,
    }
}

/// Whether `std::path::Path::is_absolute` holds of `p`. Absolute means
/// starting with the root on Unix, and a prefix (a drive `C:` or a leading
/// `\\`) followed by the root on Windows; so a path that starts with no
/// separator and holds no `:` is relative everywhere. Which other paths are
/// absolute is the platform's rule and is not stated.
#[verifier::external_body]
fn path_is_absolute(p: &str) -> (r: bool)
    ensures
        plainly_relative(p@) ==> !r,
{
    std::path::Path::new(p).is_absolute()
}

/// The path a tracked tool's input names, kept when the caller found it
/// absolute; `None` for other tools, a missing field, or a relative path.
pub fn target_if_absolute(tool_name: &str, tool_input: &JsonValue, absolute: bool) -> (r: Option<
    String,
>)
    ensures
        match r {
            Some(p) => absolute && target_field(tool_name@, tool_input@) == Some(p@),
            None => !absolute || target_field(tool_name@, tool_input@) is None,
        },
{
    if !absolute {
        return None;
    }
    target_field_of(tool_name, tool_input)
}

/// The absolute path a tracked tool's input names; `None` for other tools,
/// a missing field, or a relative path (see `target_if_absolute`, with
/// `Path::is_absolute` deciding which paths are absolute).
pub fn resolve_target_path(tool_name: &str, tool_input: &JsonValue) -> (r: Option<String>)
    ensures
        r matches Some(p) ==> target_field(tool_name@, tool_input@) == Some(p@),
        target_field(tool_name@, tool_input@) is None ==> r is None,
        target_field(tool_name@, tool_input@) matches Some(p) && plainly_relative(p) ==> r is None,
{
    match target_field_of(tool_name, tool_input) {
        Some(p) => {
            let absolute = path_is_absolute(p.as_str());
            target_if_absolute(tool_name, tool_input, absolute)
        },
        None => None,
    }
}

/// The last component of `path` by `std::path::Path::file_name` (as text),
/// if it has one: always a piece of `path`; for a plain name, the name
/// itself; for a plain lead, a `/` and a plain name, that name. Paths of
/// other shapes follow the platform's path rules and are not stated.
#[verifier::external_body]
pub(crate) fn final_component(path: &str) -> (r: Option<String>)
    ensures
        match r {
            Some(n) => {
                &&& contains_seq(path@, n@)
                &&& plain_name(path@) ==> n@ == path@
                &&& forall|k: int| #[trigger] ends_in_name(path@, k) ==> n@ == path@.skip(k + 1)
            },
            None => !plain_name(path@) && forall|k: int| !(#[trigger] ends_in_name(path@, k)),
        },
{
    std::path::Path::new(path).file_name().map(|s| s.to_string_lossy().to_string())
}

/// The file name of `path` for log lines, or `path` itself when it has no
/// final component: always a piece of `path`; a plain name stays as it is,
/// and a path ending in `/` and a plain name (after a plain lead) gives
/// that name.
pub fn short_path(path: &str) -> (r: String)
    ensures
        contains_seq(path@, r@),
        plain_name(path@) ==> r@ == path@,
        forall|k: int| #[trigger] ends_in_name(path@, k) ==> r@ == path@.skip(k + 1),
{
    match final_component(path) {
        Some(n) => n,
        None => {
            proof {
                assert(path@.subrange(0, path@.len() as int) =~= path@);
                assert(occurs_at(path@, path@, 0));
            }
            owned(path)
        },
    }
}

// ---------------------------------------------------------------- capture

/// What the source file looked like, from `symlink_metadata`.
#[derive(Clone, Copy, Debug)]
pub struct FileMeta {
    pub is_symlink: bool,
    pub is_file: bool,
    pub len: u64,
}

/// How a capture gets its bytes.
#[derive(Debug)]
pub enum SourceRead {
    /// Nothing is read; the row records no bytes under this tool name.
    Empty { tool_name: String },
    /// The file is over the limit: its size is recorded, its bytes are not.
    Oversized { size: u64 },
    /// The file is read.
    Read,
}

pub enum SourceView {
    Empty { tool_name: Seq<char> },
    Oversized { size: u64 },
    Read,
}

impl View for SourceRead {
    type V = SourceView;

    open spec fn view(&self) -> SourceView {
        match self {
            SourceRead::Empty { tool_name } => SourceView::Empty { tool_name: tool_name@ },
            SourceRead::Oversized { size } => SourceView::Oversized { size: *size },
            SourceRead::Read => SourceView::Read,
        }
    }
}

/// A symlink is never followed and counts as absent; a missing file gives
/// an empty capture, marked `Write:create` for the `pre` side of a `Write`
/// (restoring it deletes the file); a file over the limit is recorded by
/// size only; anything else is read.
pub open spec fn source_plan(tool: Seq<char>, phase: Seq<char>, meta: Option<FileMeta>) -> SourceView {
    let is_symlink = meta matches Some(m) && m.is_symlink;
    let exists = meta matches Some(m) && m.is_file;
    if is_symlink {
        SourceView::Empty { tool_name: tool }
    } else if !exists {
        SourceView::Empty {
            tool_name: if tool == "Write"@ && phase == "pre"@ {
                "Write:create"@
            } else {
                tool
            },
        }
    } else if meta->Some_0.len > MAX_SNAPSHOT_BYTES {
        SourceView::Oversized { size: meta->Some_0.len }
    } else {
        SourceView::Read
    }
}

/// How to capture `tool_name`'s target at `phase`, given its metadata
/// (`None` when it could not be read).
pub fn capture_source(tool_name: &str, phase: &str, meta: Option<FileMeta>) -> (r: SourceRead)
    ensures
        r@ == source_plan(tool_name@, phase@, meta),
{
    let is_symlink = match meta {
        Some(m) => m.is_symlink,
        None => false,
    };
    let exists = match meta {
        Some(m) => m.is_file,
        None => false,
    };
    if is_symlink {
        SourceRead::Empty { tool_name: owned(tool_name) }
    } else if !exists {
        if str_eq(tool_name, "Write") && str_eq(phase, "pre") {
            SourceRead::Empty { tool_name: owned("Write:create") }
        } else {
            SourceRead::Empty { tool_name: owned(tool_name) }
        }
    } else {
        let size = match meta {
            Some(m) => m.len,
            None => 0,
        };
        if size > MAX_SNAPSHOT_BYTES {
            SourceRead::Oversized { size }
        } else {
            SourceRead::Read
        }
    }
}

/// What a capture records about the file.
#[derive(Debug)]
pub struct Captured {
    pub bytes: Vec<u8>,
    pub size_bytes: i64,
    pub oversized: bool,
    pub tool_name: String,
    pub sha256: String,
    pub is_binary: bool,
}

/// The record of a capture: the bytes read (none for an empty or oversized
/// source, or when reading failed), their size, the tool name to store,
/// their SHA-256, and whether they look binary (never for no bytes).
pub fn captured(tool_name: &str, source: SourceRead, read: Option<Vec<u8>>) -> (r: Captured)
    ensures
        match source@ {
            SourceView::Empty { tool_name: t } => r.bytes@.len() == 0 && r.size_bytes == 0
                && !r.oversized && r.tool_name@ == t,
            SourceView::Oversized { size } => r.bytes@.len() == 0 && r.size_bytes == size as i64
                && r.oversized && r.tool_name@ == tool_name@,
            SourceView::Read => !r.oversized && r.tool_name@ == tool_name@ && match read {
                Some(b) => r.bytes@ == b@ && r.size_bytes == b@.len() as i64,
                None => r.bytes@.len() == 0 && r.size_bytes == 0,
            },
        },
        r.sha256@ == hex_of(sha256_digest(r.bytes@)),
        r.is_binary == (r.bytes@.len() > 0 && binary_bytes(r.bytes@)),
{
    let (bytes, size_bytes, oversized, name): (Vec<u8>, i64, bool, String) = match source {
        SourceRead::Empty { tool_name: t } => (Vec::new(), 0, false, t),
        SourceRead::Oversized { size } => (Vec::new(), size as i64, true, owned(tool_name)),
        SourceRead::Read => match read {
            Some(b) => {
                let len = b.len() as i64;
                (b, len, false, owned(tool_name))
            },
            None => (Vec::new(), 0, false, owned(tool_name)),
        },
    };
    let sha = sha256_hex(bytes.as_slice());
    let is_binary = bytes.len() > 0 && looks_binary(bytes.as_slice());
    Captured { bytes, size_bytes, oversized, tool_name: name, sha256: sha, is_binary }
}

/// What happens to a capture's blob file.
#[derive(Clone, Copy, Debug, PartialEq, Eq, Structural)]
pub enum BlobWrite {
    /// Write the captured bytes.
    Bytes,
    /// Write an empty file, so that every row's blob path names a file.
    Touch,
    /// Oversized: no blob.
    Skip,
}

/// The blob to write for a capture.
pub fn blob_write(c: &Captured) -> (r: BlobWrite)
    ensures
        r == if c.oversized {
            BlobWrite::Skip
        } else if c.bytes@.len() > 0 {
            BlobWrite::Bytes
        } else {
            BlobWrite::Touch
        },
{
    if c.oversized {
        BlobWrite::Skip
    } else if c.bytes.len() > 0 {
        BlobWrite::Bytes
    } else {
        BlobWrite::Touch
    }
}

// ---------------------------------------------------------------- diff

/// The row to fetch as the other side of `row`'s diff: its pair, for the
/// `pre`, `post` and `pre-restore` phases.
pub fn partner_id(row: &SnapshotRow) -> (r: Option<i64>)
    ensures
        r == if row.phase@ == "pre"@ || row.phase@ == "post"@ || row.phase@ == "pre-restore"@ {
            row.paired_id
        } else {
            None
        },
{
    let p = row.phase.as_str();
    if str_eq(p, "pre") || str_eq(p, "post") || str_eq(p, "pre-restore") {
        row.paired_id
    } else {
        None
    }
}

/// The (before, after) sides of a diff around `row`: a `post` row comes
/// after its partner; a `pre` row, or a `pre-restore` row (the file before
/// a restore, paired with the restored snapshot), comes before it; any
/// other row stands alone.
pub fn diff_sides(row: SnapshotRow, partner: Option<SnapshotRow>) -> (r: (
    Option<SnapshotRow>,
    Option<SnapshotRow>,
))
    ensures
        row.phase@ == "post"@ ==> r == (partner, Some(row)),
        (row.phase@ == "pre"@ || row.phase@ == "pre-restore"@) ==> r == (Some(row), partner),
        !(row.phase@ == "post"@ || row.phase@ == "pre"@ || row.phase@ == "pre-restore"@) ==> r == (
            Some(row),
            None::<SnapshotRow>,
        ),
{
    proof {
        reveal_strlit("pre");
        reveal_strlit("post");
        reveal_strlit("pre-restore");
        assert("pre"@.len() == 3 && "post"@.len() == 4 && "pre-restore"@.len() == 11);
    }
    if str_eq(row.phase.as_str(), "post") {
        (partner, Some(row))
    } else if str_eq(row.phase.as_str(), "pre") || str_eq(row.phase.as_str(), "pre-restore") {
        (Some(row), partner)
    } else {
        (Some(row), None)
    }
}

/// The blob to read for one side of a diff: none for a missing or oversized
/// side.
pub fn blob_to_read(side: &Option<SnapshotRow>) -> (r: Option<String>)
    ensures
        match side {
            Some(row) => if row.oversized {
                r is None
            } else {
                r matches Some(p) && p@ == row.blob_path@
            },
            None => r is None,
        },
{
    match side {
        Some(row) => {
            if row.oversized {
                None
            } else {
                Some(owned(row.blob_path.as_str()))
            }
        },
        None => None,
    }
}

/// What `String::from_utf8_lossy` makes of bytes: the text, with each
/// invalid sequence replaced by U+FFFD.
pub uninterp spec fn utf8_lossy(bytes: Seq<u8>) -> Seq<char>;

/// Decodes `bytes` with `String::from_utf8_lossy`; the result is the named
/// decoding.
#[verifier::external_body]
fn decode_lossy(bytes: &[u8]) -> (r: String)
    ensures
        r@ == utf8_lossy(bytes@),
{
    String::from_utf8_lossy(bytes).to_string()
}

/// The line changes that `similar::TextDiff::from_lines(old, new)` lists,
/// each as its tag (0 equal, 1 insert, 2 delete) and its line.
pub uninterp spec fn line_diff(old: Seq<char>, new: Seq<char>) -> Seq<(u8, Seq<char>)>;

pub open spec fn change_views(ch: Seq<(u8, String)>) -> Seq<(u8, Seq<char>)> {
    ch.map_values(|c: (u8, String)| (c.0, c.1@))
}

/// Diffs `old` and `new` by lines with `similar::TextDiff::from_lines` and
/// lists `iter_all_changes`: the named list of changes, each tag being one
/// of the three codes.
#[verifier::external_body]
fn line_changes(old: &str, new: &str) -> (r: Vec<(u8, String)>)
    ensures
        change_views(r@) == line_diff(old@, new@),
        forall|i: int| 0 <= i < r@.len() ==> #[trigger] r@[i].0 < 3,
{
    similar::TextDiff::from_lines(old, new).iter_all_changes().map(|c| {
        (
            match c.tag() {
                similar::ChangeTag::Equal => 0u8,
                similar::ChangeTag::Insert => 1u8,
                similar::ChangeTag::Delete => 2u8,
            },
            c.value().to_string(),
        )
    }).collect()
}

pub open spec fn sigil(tag: u8) -> Seq<char> {
    if tag == 1 {
        "+"@
    } else if tag == 2 {
        "-"@
    } else {
        " "@
    }
}

/// One change as a line of the unified text: its sigil, the line, and a
/// newline where the line has none.
pub open spec fn change_line(c: (u8, Seq<char>)) -> Seq<char> {
    let body = sigil(c.0) + c.1;
    if c.1.len() > 0 && c.1.last() == '\n' {
        body
    } else {
        body.push('\n')
    }
}

pub open spec fn render_changes(ch: Seq<(u8, Seq<char>)>) -> Seq<char>
    decreases ch.len(),
{
    if ch.len() == 0 {
        Seq::empty()
    } else {
        render_changes(ch.drop_last()) + change_line(ch.last())
    }
}

/// How many changes carry `tag`.
pub open spec fn count_tag(ch: Seq<(u8, Seq<char>)>, tag: u8) -> nat
    decreases ch.len(),
{
    if ch.len() == 0 {
        0
    } else {
        count_tag(ch.drop_last(), tag) + if ch.last().0 == tag {
            1nat
        } else {
            0nat
        }
    }
}

proof fn lemma_count_tag_bound(ch: Seq<(u8, Seq<char>)>, tag: u8)
    ensures
        count_tag(ch, tag) <= ch.len(),
    decreases ch.len(),
{
    if ch.len() > 0 {
        lemma_count_tag_bound(ch.drop_last(), tag);
    }
}

/// The unified text of `changes` with the counts of inserted and deleted
/// lines.
pub fn unified_text(changes: &Vec<(u8, String)>) -> (r: (String, u32, u32))
    requires
        changes@.len() <= u32::MAX,
    ensures
        r.0@ == render_changes(change_views(changes@)),
        r.1 == count_tag(change_views(changes@), 1),
        r.2 == count_tag(change_views(changes@), 2),
{
    let ghost cv = change_views(changes@);
    let mut unified = String::new();
    let mut plus: u32 = 0;
    let mut minus: u32 = 0;
    let mut i: usize = 0;
    assert(cv.subrange(0, 0) =~= Seq::<(u8, Seq<char>)>::empty());
    while i < changes.len()
        invariant
            i <= changes.len(),
            changes@.len() <= u32::MAX,
            cv == change_views(changes@),
            cv.len() == changes@.len(),
            unified@ == render_changes(cv.subrange(0, i as int)),
            plus == count_tag(cv.subrange(0, i as int), 1),
            minus == count_tag(cv.subrange(0, i as int), 2),
        decreases changes.len() - i,
    {
        let ghost pre = cv.subrange(0, i as int);
        let ghost next = cv.subrange(0, i + 1);
        proof {
            assert(next.drop_last() =~= pre);
            assert(next.last() == (changes@[i as int].0, changes@[i as int].1@));
            lemma_count_tag_bound(pre, 1);
            lemma_count_tag_bound(pre, 2);
        }
        let tag = changes[i].0;
        let value = changes[i].1.as_str();
        if tag == 1 {
            push_str(&mut unified, "+");
            plus = plus + 1;
        } else if tag == 2 {
            push_str(&mut unified, "-");
            minus = minus + 1;
        } else {
            push_str(&mut unified, " ");
        }
        push_str(&mut unified, value);
        let vc = chars_of(value);
        if !(vc.len() > 0 && vc[vc.len() - 1] == '\n') {
            push_char(&mut unified, '\n');
        }
        i += 1;
        assert(unified@ =~= render_changes(next));
    }
    assert(cv.subrange(0, changes.len() as int) =~= cv);
    (unified, plus, minus)
}

pub open spec fn is_oversized(side: Option<SnapshotRow>) -> bool {
    side matches Some(r) && r.oversized
}

/// The diff of two sides with the bytes read for them. Binary content on
/// either side suppresses the text; otherwise both sides are decoded
/// lossily as UTF-8 and compared by lines. `None` only when the changes
/// are too many to count in a `u32`.
pub fn diff_result(
    pre: Option<SnapshotRow>,
    post: Option<SnapshotRow>,
    pre_bytes: &[u8],
    post_bytes: &[u8],
) -> (r: Option<DiffResult>)
    ensures
        match r {
            Some(d) => {
                &&& d.pre == pre
                &&& d.post == post
                &&& d.pre_oversized == is_oversized(pre)
                &&& d.post_oversized == is_oversized(post)
                &&& if binary_bytes(pre_bytes@) || binary_bytes(post_bytes@) {
                    &&& d.unified@ == "(binary content — diff suppressed)"@
                    &&& d.plus == 0
                    &&& d.minus == 0
                    &&& d.is_binary
                } else {
                    let ch = line_diff(utf8_lossy(pre_bytes@), utf8_lossy(post_bytes@));
                    &&& ch.len() <= u32::MAX
                    &&& d.unified@ == render_changes(ch)
                    &&& d.plus == count_tag(ch, 1)
                    &&& d.minus == count_tag(ch, 2)
                    &&& !d.is_binary
                }
            },
            None => !(binary_bytes(pre_bytes@) || binary_bytes(post_bytes@)) && line_diff(
                utf8_lossy(pre_bytes@),
                utf8_lossy(post_bytes@),
            ).len() > u32::MAX,
        },
{
    let pre_oversized = match &pre {
        Some(r) => r.oversized,
        None => false,
    };
    let post_oversized = match &post {
        Some(r) => r.oversized,
        None => false,
    };
    if looks_binary(pre_bytes) || looks_binary(post_bytes) {
        return Some(
            DiffResult {
                unified: owned("(binary content — diff suppressed)"),
                plus: 0,
                minus: 0,
                is_binary: true,
                pre_oversized,
                post_oversized,
                pre,
                post,
            },
        );
    }
    let pre_text = decode_lossy(pre_bytes);
    let post_text = decode_lossy(post_bytes);
    let changes = line_changes(pre_text.as_str(), post_text.as_str());
    if changes.len() > 4294967295 {
        return None;
    }
    let (unified, plus, minus) = unified_text(&changes);
    Some(
        DiffResult {
            unified,
            plus,
            minus,
            is_binary: false,
            pre_oversized,
            post_oversized,
            pre,
            post,
        },
    )
}

// ---------------------------------------------------------------- restore

/// Why a restore is refused, checked in this order: the target path is not
/// absolute, the target is a symlink, the snapshot has no bytes.
pub open spec fn refusal(absolute: bool, is_symlink: bool, oversized: bool) -> Option<Seq<char>> {
    if !absolute {
        Some("snapshot has non-absolute target path"@)
    } else if is_symlink {
        Some("refusing to overwrite a symlink target"@)
    } else if oversized {
        Some("snapshot is oversized — restore not supported"@)
    } else {
        None
    }
}

/// The refusal for a restore whose target is (or is not) absolute and a
/// symlink, of a snapshot that is (or is not) oversized.
pub fn restore_refusal(absolute: bool, is_symlink: bool, oversized: bool) -> (r: Option<String>)
    ensures
        match r {
            Some(m) => refusal(absolute, is_symlink, oversized) == Some(m@),
            None => refusal(absolute, is_symlink, oversized) is None,
        },
{
    if !absolute {
        Some(owned("snapshot has non-absolute target path"))
    } else if is_symlink {
        Some(owned("refusing to overwrite a symlink target"))
    } else if oversized {
        Some(owned("snapshot is oversized — restore not supported"))
    } else {
        None
    }
}

/// The refusal for restoring `row` over its file, whose symlink status the
/// caller looked up: `refusal` of whether the path is absolute (by
/// `Path::is_absolute`), the symlink status and the oversized flag. A path
/// that starts with no separator and holds no `:` is refused as
/// non-absolute; which other paths are absolute is the platform's rule.
pub fn restore_check(row: &SnapshotRow, target_is_symlink: bool) -> (r: Option<String>)
    ensures
        exists|absolute: bool|
            match r {
                Some(m) => refusal(absolute, target_is_symlink, row.oversized) == Some(m@),
                None => refusal(absolute, target_is_symlink, row.oversized) is None,
            },
        plainly_relative(row.file_path@) ==> (r matches Some(m) && m@
            == "snapshot has non-absolute target path"@),
{
    let absolute = path_is_absolute(row.file_path.as_str());
    restore_refusal(absolute, target_is_symlink, row.oversized)
}

/// What restoring a snapshot does to its file.
#[derive(Clone, Copy, Debug, PartialEq, Eq, Structural)]
pub enum RestoreAction {
    /// The snapshot stood for "no file yet" (`Write:create`, `pre`): delete it.
    DeleteTarget,
    /// Write the snapshot's bytes back.
    WriteBlob,
}

pub fn restore_action(row: &SnapshotRow) -> (r: RestoreAction)
    ensures
        r == if row.tool_name@ == "Write:create"@ && row.phase@ == "pre"@ {
            RestoreAction::DeleteTarget
        } else {
            RestoreAction::WriteBlob
        },
{
    if str_eq(row.tool_name.as_str(), "Write:create") && str_eq(row.phase.as_str(), "pre") {
        RestoreAction::DeleteTarget
    } else {
        RestoreAction::WriteBlob
    }
}

/// Bytes pass the integrity check against a recorded digest: their SHA-256
/// in lowercase hexadecimal is that digest.
pub open spec fn blob_check_ok(bytes: Seq<u8>, expected: Seq<char>) -> bool {
    hex_of(sha256_digest(bytes)) == expected
}

/// Checks a blob read back from disk against the digest stored with its
/// row before it is restored.
pub fn check_blob(bytes: &[u8], expected_sha256: &str) -> (r: Result<(), String>)
    ensures
        match r {
            Ok(_) => blob_check_ok(bytes@, expected_sha256@),
            Err(m) => !blob_check_ok(bytes@, expected_sha256@) && m@
                == "snapshot integrity check failed (sha256 mismatch)"@,
        },
{
    let h = sha256_hex(bytes);
    if str_eq(h.as_str(), expected_sha256) {
        Ok(())
    } else {
        Err(owned("snapshot integrity check failed (sha256 mismatch)"))
    }
}

/// The details line of the log entry of a restore.
pub fn restore_details(snapshot_id: i64, pre_restore_id: i64, deleted: bool) -> (r: String)
    ensures
        r@ == "restored snapshot_id="@ + signed_decimal(snapshot_id as int) + " pre_restore_id="@
            + signed_decimal(pre_restore_id as int) + if deleted {
            " deleted"@
        } else {
            ""@
        },
{
    let mut out = owned("restored snapshot_id=");
    let a = i64_to_string(snapshot_id);
    push_str(&mut out, a.as_str());
    push_str(&mut out, " pre_restore_id=");
    let b = i64_to_string(pre_restore_id);
    push_str(&mut out, b.as_str());
    if deleted {
        push_str(&mut out, " deleted");
    } else {
        push_str(&mut out, "");
    }
    out
}

/// The answer of a successful restore.
pub fn restored(pre_restore_id: i64, deleted_target: bool) -> (r: RestoreResult)
    ensures
        r.ok,
        r.pre_restore_snapshot_id == Some(pre_restore_id),
        r.deleted_target == deleted_target,
        r.message@ == "restored"@,
{
    RestoreResult {
        ok: true,
        pre_restore_snapshot_id: Some(pre_restore_id),
        deleted_target,
        message: owned("restored"),
    }
}

// ---------------------------------------------------------------- content

/// The standard base64 alphabet: `A`-`Z`, `a`-`z`, `0`-`9`, `+`, `/`.
pub open spec fn b64_digit(n: int) -> char {
    if n < 26 {
        (('A' as u32) + n) as char
    } else if n < 52 {
        (('a' as u32) + n - 26) as char
    } else if n < 62 {
        (('0' as u32) + n - 52) as char
    } else if n == 62 {
        '+'
    } else {
        '/'
    }
}

/// Standard base64 with padding (RFC 4648): each group of three bytes
/// becomes four digits of six bits each; a last group of one or two bytes
/// becomes two or three digits and `=` padding to four.
pub open spec fn base64_standard(b: Seq<u8>) -> Seq<char>
    decreases b.len(),
{
    if b.len() == 0 {
        Seq::empty()
    } else {
        let x0 = b[0] as int;
        let x1 = if b.len() > 1 { b[1] as int } else { 0 };
        let x2 = if b.len() > 2 { b[2] as int } else { 0 };
        let d0 = b64_digit(x0 / 4);
        let d1 = b64_digit((x0 % 4) * 16 + x1 / 16);
        let d2 = b64_digit((x1 % 16) * 4 + x2 / 64);
        let d3 = b64_digit(x2 % 64);
        if b.len() == 1 {
            seq![d0, d1, '=', '=']
        } else if b.len() == 2 {
            seq![d0, d1, d2, '=']
        } else {
            seq![d0, d1, d2, d3] + base64_standard(b.skip(3))
        }
    }
}

/// Encodes `bytes` with `base64::engine::general_purpose::STANDARD.encode`:
/// the standard alphabet with padding (see `base64_standard`).
#[verifier::external_body]
fn base64_encode(bytes: &[u8]) -> (r: String)
    ensures
        r@ == base64_standard(bytes@),
{
    base64::engine::general_purpose::STANDARD.encode(bytes)
}

/// The content view of `row` given the bytes read from its blob: empty for
/// an oversized row, else the base64 of at most the first 1 MB.
pub fn snapshot_content(row: &SnapshotRow, bytes: &[u8]) -> (r: SnapshotContent)
    ensures
        r.size_bytes == row.size_bytes,
        r.is_binary == row.is_binary,
        r.base64@ == if row.oversized {
            Seq::<char>::empty()
        } else if bytes@.len() > MAX_SNAPSHOT_BYTES {
            base64_standard(bytes@.subrange(0, MAX_SNAPSHOT_BYTES as int))
        } else {
            base64_standard(bytes@)
        },
{
    if row.oversized {
        return SnapshotContent {
            size_bytes: row.size_bytes,
            is_binary: row.is_binary,
            base64: String::new(),
        };
    }
    let enc = if bytes.len() as u64 > MAX_SNAPSHOT_BYTES {
        let head = vstd::slice::slice_subrange(bytes, 0, 1048576);
        base64_encode(head)
    } else {
        base64_encode(bytes)
    };
    SnapshotContent { size_bytes: row.size_bytes, is_binary: row.is_binary, base64: enc }
}



// ---------------------------------------------------------------- laws

/// Law: a sanitized session id is never empty, has the length of the id
/// (one for the empty id) and holds only ASCII letters, digits, `-` and
/// `_`: no path separator and no `.`, so it names a directory inside the
/// snapshot store.
pub proof fn law_sanitized_id_is_safe(s: Seq<char>)
    ensures
        sanitized(s).len() > 0,
        s.len() > 0 ==> sanitized(s).len() == s.len(),
        forall|i: int|
            0 <= i < sanitized(s).len() ==> {
                let c = #[trigger] sanitized(s)[i];
                &&& is_ascii_alnum(c) || c == '-' || c == '_'
                &&& c != '/' && c != '\\' && c != '.'
            },
{
}

pub proof fn lemma_hex_len(b: Seq<u8>)
    ensures
        hex_of(b).len() == 2 * b.len(),
    decreases b.len(),
{
    if b.len() > 0 {
        lemma_hex_len(b.drop_last());
    }
}

/// Law: a capture followed by a check of its blob read back unchanged
/// passes: `captured` records the digest `check_blob` compares against, so
/// an untouched blob can always be restored.
pub proof fn law_captured_bytes_pass_check(c: Captured, read_back: Seq<u8>)
    requires
        c.sha256@ == hex_of(sha256_digest(c.bytes@)),
        read_back == c.bytes@,
    ensures
        blob_check_ok(read_back, c.sha256@),
{
}


// ---------------------------------------------------------------- history list

pub open spec fn row_sessions(rows: Seq<SnapshotRow>) -> Seq<Seq<char>> {
    rows.map_values(|r: SnapshotRow| r.session_id@)
}

/// The distinct entries of `ids` in the order they are first seen.
pub open spec fn first_seen(ids: Seq<Seq<char>>) -> Seq<Seq<char>>
    decreases ids.len(),
{
    if ids.len() == 0 {
        Seq::empty()
    } else {
        let r = first_seen(ids.drop_last());
        if r.contains(ids.last()) {
            r
        } else {
            r.push(ids.last())
        }
    }
}

/// The sessions of the history list, in the order their first row comes
/// (the rows come newest first).
pub fn session_order(rows: &Vec<SnapshotRow>) -> (r: Vec<String>)
    ensures
        r@.map_values(|s: String| s@) == first_seen(row_sessions(rows@)),
{
    let ghost ids = row_sessions(rows@);
    let mut out: Vec<String> = Vec::new();
    let mut i: usize = 0;
    assert(ids.take(0) =~= Seq::<Seq<char>>::empty());
    assert(out@.map_values(|s: String| s@) =~= Seq::<Seq<char>>::empty());
    while i < rows.len()
        invariant
            i <= rows@.len(),
            ids == row_sessions(rows@),
            out@.map_values(|s: String| s@) == first_seen(ids.take(i as int)),
        decreases rows.len() - i,
    {
        let ghost ov = out@.map_values(|s: String| s@);
        let id = rows[i].session_id.as_str();
        assert(ids.take(i + 1).drop_last() =~= ids.take(i as int));
        assert(ids.take(i + 1).last() == id@);
        let mut j: usize = 0;
        let mut seen = false;
        while j < out.len()
            invariant
                j <= out@.len(),
                ov == out@.map_values(|s: String| s@),
                seen == exists|m: int| 0 <= m < j && ov[m] == id@,
            decreases out.len() - j,
        {
            if str_eq(out[j].as_str(), id) {
                seen = true;
            }
            proof {
                assert(ov[j as int] == out@[j as int]@);
            }
            j += 1;
        }
        if !seen {
            out.push(owned(id));
            assert(out@.map_values(|s: String| s@) =~= ov.push(id@));
        }
        i += 1;
    }
    assert(ids.take(rows@.len() as int) =~= ids);
    out
}

/// The edits of session `id` in the list: its rows of phase `post`.
pub open spec fn session_edits(rows: Seq<SnapshotRow>, id: Seq<char>) -> nat {
    rows.filter(|r: SnapshotRow| r.session_id@ == id && r.phase@ == "post"@).len()
}

/// How many edits of session `id` the history list shows.
pub fn session_edit_count(rows: &Vec<SnapshotRow>, id: &str) -> (r: usize)
    ensures
        r == session_edits(rows@, id@),
{
    let ghost p = |r: SnapshotRow| r.session_id@ == id@ && r.phase@ == "post"@;
    let mut n: usize = 0;
    let mut i: usize = 0;
    assert(rows@.take(0).filter(p) =~= Seq::<SnapshotRow>::empty());
    while i < rows.len()
        invariant
            i <= rows@.len(),
            p == (|r: SnapshotRow| r.session_id@ == id@ && r.phase@ == "post"@),
            n == rows@.take(i as int).filter(p).len(),
            n <= i,
        decreases rows.len() - i,
    {
        proof {
            crate::groups::lemma_filter_step(rows@, p, i as int);
        }
        if str_eq(rows[i].session_id.as_str(), id) && str_eq(rows[i].phase.as_str(), "post") {
            n += 1;
        }
        i += 1;
    }
    assert(rows@.take(rows@.len() as int) =~= rows@);
    n
}

/// The row a history entry's Revert button restores: the paired `pre` row
/// for a `post` row (none while unpaired), the row itself otherwise.
pub fn revert_target(row: &SnapshotRow) -> (r: Option<i64>)
    ensures
        r == if row.phase@ == "post"@ {
            row.paired_id
        } else {
            Some(row.id)
        },
{
    if str_eq(row.phase.as_str(), "post") {
        row.paired_id
    } else {
        Some(row.id)
    }
}

} // verus!
