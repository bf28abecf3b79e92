//! An open tab: a file on disk plus its parsed preview.
//!
//! Reading the file is the caller's part; it reports what it found as a
//! [`Fetched`], and the document decides what that means.

use vstd::prelude::*;

use crate::config::str_eq;
use crate::markdown::{as_code, empty_document, parse, parsed, BlockModel, Document as Body};
use crate::paths::{
    extension, last_index_of, lemma_last_index_of, lowercase, name_of, name_or_path, opt_seq,
    path_extension, rfind, to_lowercase,
};
use crate::text::{append, chars_of, decimal, push_decimal, string_of_range};

verus! {

/// Files above this size are listed rather than rendered. A note that large
/// is not a note, and parsing it would spike memory for no benefit.
pub const MAX_BYTES: u64 = 4194304;

/// How much of a file is sniffed before deciding it is binary.
pub const SNIFF_BYTES: usize = 8192;

#[derive(Debug, Clone, PartialEq, Eq)]
pub enum Status {
    Ready,
    Missing,
    TooLarge(u64),
    Binary,
    Error(String),
}

pub enum StatusModel {
    Ready,
    Missing,
    TooLarge(u64),
    Binary,
    Error(Seq<char>),
}

impl View for Status {
    type V = StatusModel;

    open spec fn view(&self) -> StatusModel {
        match self {
            Status::Ready => StatusModel::Ready,
            Status::Missing => StatusModel::Missing,
            Status::TooLarge(n) => StatusModel::TooLarge(*n),
            Status::Binary => StatusModel::Binary,
            Status::Error(e) => StatusModel::Error(e@),
        }
    }
}

/// What reading a file turned up.
pub enum Fetched {
    /// The file does not exist.
    Missing,
    /// It could not be read; the reason.
    Failed(String),
    /// It is larger than [`MAX_BYTES`]; its length.
    TooLarge(u64),
    /// Its contents.
    Bytes(Vec<u8>),
}

/// Whether a file of `len` bytes is read at all.
pub fn within_limit(len: u64) -> (r: bool)
    ensures
        r == (len <= MAX_BYTES),
{
    len <= MAX_BYTES
}

/// The characters `bytes` decode to, invalid sequences replaced, as
/// `String::from_utf8_lossy` decodes them.
pub uninterp spec fn utf8_lossy(bytes: Seq<u8>) -> Seq<char>;

/// `String::from_utf8_lossy`. Valid UTF-8 decodes to exactly its characters.
#[verifier::external_body]
pub(crate) fn decode_lossy(bytes: &[u8]) -> (r: String)
    ensures
        r@ == utf8_lossy(bytes@),
        vstd::utf8::valid_utf8(bytes@) ==> r@ == vstd::utf8::decode_utf8(bytes@),
{
    String::from_utf8_lossy(bytes).into_owned()
}

/// The title of a file: its name without a `.md` or `.markdown` extension.
pub open spec fn shown_title(path: Seq<char>) -> Seq<char> {
    let name = name_or_path(path);
    match last_index_of(name, '.') {
        Some(d) => {
            let ext = name.skip(d + 1);
            if (ext == "md"@ || ext == "markdown"@) && d > 0 {
                name.take(d)
            } else {
                name
            }
        },
        None => name,
    }
}

/// The title a file is shown by.
pub fn title_of(path: &str) -> (r: String)
    ensures
        r@ == shown_title(path@),
{
    let name = name_of(path);
    let v = chars_of(name.as_str());
    match rfind(&v, '.') {
        Some(d) => {
            proof {
                lemma_last_index_of(v@, '.');
            }
            let ext = string_of_range(&v, d + 1, v.len());
            assert(v@.subrange(d + 1, v.len() as int) =~= v@.skip(d + 1));
            if (str_eq(ext.as_str(), "md") || str_eq(ext.as_str(), "markdown")) && d > 0 {
                assert(v@.subrange(0, d as int) =~= v@.take(d as int));
                string_of_range(&v, 0, d)
            } else {
                name
            }
        },
        None => name,
    }
}

/// The extension of `path`, in lower case.
pub open spec fn lower_extension(path: Seq<char>) -> Option<Seq<char>> {
    match path_extension(path) {
        Some(e) => Some(lowercase(e)),
        None => None,
    }
}

/// Extensions rendered as Markdown.
pub open spec fn markdown_extension(e: Seq<char>) -> bool {
    e == "md"@ || e == "markdown"@ || e == "mdown"@ || e == "mkd"@ || e == "txt"@
}

pub open spec fn spec_is_markdown(path: Seq<char>) -> bool {
    match lower_extension(path) {
        Some(e) => markdown_extension(e),
        None => false,
    }
}

/// The lower-case extension of `path`, if it has one.
pub fn lower_ext(path: &str) -> (r: Option<String>)
    ensures
        opt_seq(r) == lower_extension(path@),
{
    match extension(path) {
        Some(e) => Some(to_lowercase(e.as_str())),
        None => None,
    }
}

/// Whether `path` is rendered as Markdown.
pub fn is_markdown(path: &str) -> (r: bool)
    ensures
        r == spec_is_markdown(path@),
{
    match lower_ext(path) {
        Some(e) => {
            let e = e.as_str();
            str_eq(e, "md") || str_eq(e, "markdown") || str_eq(e, "mdown") || str_eq(e, "mkd")
                || str_eq(e, "txt")
        },
        None => false,
    }
}

/// Whether the first bytes of a file, up to [`SNIFF_BYTES`], hold a NUL.
pub open spec fn looks_binary(bytes: Seq<u8>) -> bool {
    exists|i: int| 0 <= i < bytes.len() && i < SNIFF_BYTES && bytes[i] == 0
}

/// Whether the sniffed prefix of `bytes` holds a NUL.
pub fn has_nul(bytes: &Vec<u8>) -> (r: bool)
    ensures
        r == looks_binary(bytes@),
{
    let limit = if bytes.len() < SNIFF_BYTES {
        bytes.len()
    } else {
        SNIFF_BYTES
    };
    let mut i: usize = 0;
    while i < limit
        invariant
            i <= limit <= bytes.len(),
            limit <= SNIFF_BYTES,
            limit == bytes.len() || limit == SNIFF_BYTES,
            forall|k: int| 0 <= k < i ==> bytes@[k] != 0,
        decreases limit - i,
    {
        if bytes[i] == 0 {
            return true;
        }
        i += 1;
    }
    false
}

/// The status a file read leaves a document in.
pub open spec fn status_after(f: Fetched) -> StatusModel {
    match f {
        Fetched::Missing => StatusModel::Missing,
        Fetched::Failed(e) => StatusModel::Error(e@),
        Fetched::TooLarge(n) => StatusModel::TooLarge(n),
        Fetched::Bytes(b) => if looks_binary(b@) {
            StatusModel::Binary
        } else {
            StatusModel::Ready
        },
    }
}

/// The preview a file read leaves a document with: Markdown is parsed, other
/// text is shown as a code block, and anything unreadable shows nothing.
pub open spec fn body_after(path: Seq<char>, f: Fetched) -> Seq<BlockModel> {
    match f {
        Fetched::Bytes(b) => if looks_binary(b@) {
            Seq::empty()
        } else if spec_is_markdown(path) {
            parsed(utf8_lossy(b@))
        } else {
            seq![
                BlockModel::Code { lang: lower_extension(path), text: utf8_lossy(b@) },
            ]
        },
        _ => Seq::empty(),
    }
}

pub open spec fn next_revision(r: u64) -> u64 {
    if r == u64::MAX {
        0
    } else {
        (r + 1) as u64
    }
}

/// An open file.
pub struct Document {
    pub path: String,
    /// File name without the `.md` extension, shown on the tab.
    pub title: String,
    pub body: Body,
    pub status: Status,
    /// Bumped on every reload so the view can reset its scroll if it wants to.
    pub revision: u64,
}

impl Document {
    /// Opens the file at `path`, whose read turned up `fetched`.
    pub fn open(path: String, fetched: Fetched) -> (r: Document)
        ensures
            r.path@ == path@,
            r.title@ == shown_title(path@),
            r.status@ == status_after(fetched),
            r.body@ == body_after(path@, fetched),
            r.revision == 1,
    {
        let t = title_of(path.as_str());
        let mut doc = Document {
            path,
            title: t,
            body: empty_document(),
            status: Status::Ready,
            revision: 0,
        };
        doc.reload(fetched);
        doc
    }

    /// Takes in a fresh read of the file.
    pub fn reload(&mut self, fetched: Fetched)
        ensures
            final(self).path == old(self).path,
            final(self).title@ == shown_title(old(self).path@),
            final(self).status@ == status_after(fetched),
            final(self).body@ == body_after(old(self).path@, fetched),
            final(self).revision == next_revision(old(self).revision),
    {
        self.revision = if self.revision == u64::MAX {
            0
        } else {
            self.revision + 1
        };
        self.title = title_of(self.path.as_str());
        match fetched {
            Fetched::Missing => {
                self.status = Status::Missing;
                self.body = empty_document();
            },
            Fetched::Failed(e) => {
                self.status = Status::Error(e);
                self.body = empty_document();
            },
            Fetched::TooLarge(n) => {
                self.status = Status::TooLarge(n);
                self.body = empty_document();
            },
            Fetched::Bytes(bytes) => {
                if has_nul(&bytes) {
                    self.status = Status::Binary;
                    self.body = empty_document();
                    return;
                }
                let text = decode_lossy(bytes.as_slice());
                self.status = Status::Ready;
                self.body = if is_markdown(self.path.as_str()) {
                    parse(text.as_str())
                } else {
                    as_code(lower_ext(self.path.as_str()), text)
                };
            },
        }
    }
}


/// The line a status is explained by; nothing for a ready file.
pub open spec fn status_line(status: StatusModel) -> Seq<char> {
    match status {
        StatusModel::Ready => Seq::empty(),
        StatusModel::Missing => "file no longer exists"@,
        StatusModel::TooLarge(bytes) => "file is too large to preview ("@ + decimal(bytes / 1048576) + " MiB)"@,
        StatusModel::Binary => "binary file"@,
        StatusModel::Error(err) => "cannot read file: "@ + err,
    }
}

/// Explains a document's status for the status bar.
pub fn describe(status: &Status) -> (r: String)
    ensures
        r@ == status_line(status@),
{
    match status {
        Status::Ready => String::new(),
        Status::Missing => "file no longer exists".to_owned(),
        Status::TooLarge(bytes) => {
            let mut out = "file is too large to preview (".to_owned();
            push_decimal(&mut out, *bytes >> 20);
            assert((*bytes >> 20) == *bytes / 1048576) by (bit_vector);
            append(&mut out, " MiB)");
            out
        },
        Status::Binary => "binary file".to_owned(),
        Status::Error(err) => {
            let mut out = "cannot read file: ".to_owned();
            append(&mut out, err.as_str());
            out
        },
    }
}

} // verus!
