//! The wire format between the daemon and its clients.
//!
//! One JSON object per line. A frame that declares `bytes` is followed by
//! exactly that many raw bytes, which neither side ever holds whole: the
//! capture client splices them in from the compositor and the daemon splices
//! them out to a blob file. That is what makes an entry's size unbounded in
//! practice and not only on paper.

pub mod code;
pub mod json;

use crate::text;
use vstd::prelude::*;

verus! {

/// Incremented only on an incompatible change to the frames below.
pub const PROTOCOL_VERSION: u32 = 1;

/// A control line longer than this cannot be a frame this daemon defines, and
/// reading it would mean letting a peer choose how much memory to take.
/// Payloads are not affected: they are streamed and counted, never buffered.
pub const MAX_FRAME: usize = 65536;

#[derive(Debug, Clone, Copy, PartialEq, Eq, Structural)]
pub enum Role {
    /// Feeds clipboard events in; receives no broadcasts.
    Capture,
    /// Browses the archive and asks for entries to be served back.
    Ui,
    /// Does both on one connection.
    Both,
}

impl Default for Role {
    fn default() -> (role: Role)
        ensures
            role == Role::Ui,
    {
        Role::Ui
    }
}

impl Role {
    pub fn records(self) -> (answer: bool)
        ensures
            answer == (self == Role::Capture || self == Role::Both),
    {
        matches!(self, Role::Capture | Role::Both)
    }

    pub fn watches(self) -> (answer: bool)
        ensures
            answer == (self == Role::Ui || self == Role::Both),
    {
        matches!(self, Role::Ui | Role::Both)
    }
}

#[allow(inconsistent_fields)]
#[derive(Debug)]
pub enum Request {
    Hello { v: u32, role: Role },
    Begin { req: u64, source: Option<String> },
    Part {
        req: u64,
        draft: u64,
        mime: String,
        /// Absent when the client does not know the length yet: the payload
        /// then arrives as `chunk` frames ending with a zero-length one.
        bytes: Option<u64>,
    },
    /// One piece of a length-less part. Carries no `req` because its position
    /// between a part and its terminator is what says where it belongs.
    Chunk { bytes: u64 },
    Commit { req: u64, draft: u64 },
    Abort { req: u64, draft: u64 },
    List {
        req: u64,
        limit: Option<u32>,
        before: Option<i64>,
        query: Option<String>,
        kind: Option<String>,
    },
    Fetch {
        req: u64,
        entry: i64,
        mime: Option<String>,
        /// Asks the daemon to produce the representation by transcoding when
        /// the entry does not literally hold it. The only pair defined is
        /// `image/*` → `image/bmp`, which the RDP clipboard channel relays.
        /// Anything else still answers `no-such-mime`.
        transcode: bool,
    },
    Thumb { req: u64, entry: i64 },
    Pin { req: u64, entry: i64, pinned: bool },
    Remove { req: u64, entry: i64 },
    Clear { req: u64 },
    Stats { req: u64 },
}

impl Request {
    /// The request id a frame carries, where it carries one.
    pub open spec fn id(self) -> Option<u64> {
        match self {
            Request::Hello { .. } => None,
            Request::Begin { req, .. } => Some(req),
            Request::Part { req, .. } => Some(req),
            Request::Chunk { .. } => None,
            Request::Commit { req, .. } => Some(req),
            Request::Abort { req, .. } => Some(req),
            Request::List { req, .. } => Some(req),
            Request::Fetch { req, .. } => Some(req),
            Request::Thumb { req, .. } => Some(req),
            Request::Pin { req, .. } => Some(req),
            Request::Remove { req, .. } => Some(req),
            Request::Clear { req } => Some(req),
            Request::Stats { req } => Some(req),
        }
    }

    /// The request id to quote in the answer, when the frame carries one.
    ///
    /// `hello` has none because it is answered positionally and can only ever
    /// be the first, and `chunk` has none because its position says what it
    /// belongs to.
    pub fn req(&self) -> (req: Option<u64>)
        ensures
            req == self.id(),
    {
        match self {
            Request::Hello { .. } => None,
            Request::Begin { req, .. } => Some(*req),
            Request::Part { req, .. } => Some(*req),
            Request::Chunk { .. } => None,
            Request::Commit { req, .. } => Some(*req),
            Request::Abort { req, .. } => Some(*req),
            Request::List { req, .. } => Some(*req),
            Request::Fetch { req, .. } => Some(*req),
            Request::Thumb { req, .. } => Some(*req),
            Request::Pin { req, .. } => Some(*req),
            Request::Remove { req, .. } => Some(*req),
            Request::Clear { req } => Some(*req),
            Request::Stats { req } => Some(*req),
        }
    }
}

/// What the UI needs to draw one archive entry without fetching its content.
#[derive(Debug)]
pub struct Summary {
    pub id: i64,
    pub kind: &'static str,
    pub mimes: Vec<String>,
    pub bytes: i64,
    pub preview: Option<String>,
    pub width: Option<u32>,
    pub height: Option<u32>,
    pub thumb: bool,
    pub pinned: bool,
    pub source: Option<String>,
    pub at: i64,
}

/// A summary as the contracts speak of it.
pub struct SummaryView {
    pub id: int,
    pub kind: Seq<char>,
    pub mimes: Seq<Seq<char>>,
    pub bytes: int,
    pub preview: Option<Seq<char>>,
    pub width: Option<u32>,
    pub height: Option<u32>,
    pub thumb: bool,
    pub pinned: bool,
    pub source: Option<Seq<char>>,
    pub at: int,
}

impl View for Summary {
    type V = SummaryView;

    open spec fn view(&self) -> SummaryView {
        SummaryView {
            id: self.id as int,
            kind: self.kind@,
            mimes: text::contents(self.mimes@),
            bytes: self.bytes as int,
            preview: text::optional(self.preview),
            width: self.width,
            height: self.height,
            thumb: self.thumb,
            pinned: self.pinned,
            source: text::optional(self.source),
            at: self.at as int,
        }
    }
}

/// Some summaries as the contracts speak of them.
pub open spec fn summaries(items: Seq<Summary>) -> Seq<SummaryView> {
    Seq::new(items.len(), |i: int| items[i]@)
}

#[allow(inconsistent_fields)]
#[derive(Debug)]
pub enum Response {
    Hello { v: u32, entries: i64, bytes: i64, budget: i64 },
    Okay { req: u64 },
    Begin { req: u64, draft: u64 },
    Commit { req: u64, entry: i64, created: bool },
    List { req: u64, items: Vec<Summary> },
    /// Always followed by `bytes` raw bytes.
    Blob { req: u64, mime: String, bytes: u64 },
    /// A thumbnail, as straight RGBA followed by `bytes` raw bytes.
    ///
    /// Separate from `blob` because it is pixels rather than a file: the only
    /// way a GNOME Shell extension can draw arbitrary image data is to hand
    /// `St.ImageContent` a buffer and its geometry, so the geometry travels
    /// with it rather than having to be decoded out of a container.
    Thumb { req: u64, width: u32, height: u32, stride: u32, bytes: u64 },
    Stats { req: u64, entries: i64, bytes: i64, budget: i64 },
    Added { entry: Summary },
    Updated { entry: Summary },
    Removed { entry: i64 },
    Cleared {},
    Error { req: Option<u64>, code: &'static str, message: String },
}

/// A response as the contracts speak of it.
#[allow(inconsistent_fields)]
pub enum ResponseView {
    Hello { v: u32, entries: int, bytes: int, budget: int },
    Okay { req: u64 },
    Begin { req: u64, draft: u64 },
    Commit { req: u64, entry: int, created: bool },
    List { req: u64, items: Seq<SummaryView> },
    Blob { req: u64, mime: Seq<char>, bytes: nat },
    Thumb { req: u64, width: u32, height: u32, stride: u32, bytes: nat },
    Stats { req: u64, entries: int, bytes: int, budget: int },
    Added { entry: SummaryView },
    Updated { entry: SummaryView },
    Removed { entry: int },
    Cleared,
    Error { req: Option<u64>, code: Seq<char>, message: Seq<char> },
}

impl View for Response {
    type V = ResponseView;

    open spec fn view(&self) -> ResponseView {
        match *self {
            Response::Hello { v, entries, bytes, budget } => ResponseView::Hello {
                v,
                entries: entries as int,
                bytes: bytes as int,
                budget: budget as int,
            },
            Response::Okay { req } => ResponseView::Okay { req },
            Response::Begin { req, draft } => ResponseView::Begin { req, draft },
            Response::Commit { req, entry, created } => ResponseView::Commit {
                req,
                entry: entry as int,
                created,
            },
            Response::List { req, items } => ResponseView::List { req, items: summaries(items@) },
            Response::Blob { req, mime, bytes } => ResponseView::Blob {
                req,
                mime: mime@,
                bytes: bytes as nat,
            },
            Response::Thumb { req, width, height, stride, bytes } => ResponseView::Thumb {
                req,
                width,
                height,
                stride,
                bytes: bytes as nat,
            },
            Response::Stats { req, entries, bytes, budget } => ResponseView::Stats {
                req,
                entries: entries as int,
                bytes: bytes as int,
                budget: budget as int,
            },
            Response::Added { entry } => ResponseView::Added { entry: entry@ },
            Response::Updated { entry } => ResponseView::Updated { entry: entry@ },
            Response::Removed { entry } => ResponseView::Removed { entry: entry as int },
            Response::Cleared {  } => ResponseView::Cleared,
            Response::Error { req, code, message } => ResponseView::Error {
                req,
                code: code@,
                message: message@,
            },
        }
    }
}

/// One summary as JSON.
pub open spec fn summary_text(entry: SummaryView) -> Seq<char> {
    json::object_of(
        seq![
            json::member_of("id"@, text::signed_decimal(entry.id)),
            json::member_of("kind"@, json::quoted(entry.kind)),
            json::member_of("mimes"@, json::array_of(quoted_each(entry.mimes))),
            json::member_of("bytes"@, text::signed_decimal(entry.bytes)),
            json::member_of("preview"@, json::optional_text(entry.preview)),
            json::member_of("width"@, json::optional_number(entry.width)),
            json::member_of("height"@, json::optional_number(entry.height)),
            json::member_of("thumb"@, json::boolean_of(entry.thumb)),
            json::member_of("pinned"@, json::boolean_of(entry.pinned)),
            json::member_of("source"@, json::optional_text(entry.source)),
            json::member_of("at"@, text::signed_decimal(entry.at)),
        ],
    )
}

/// Each text as a JSON string.
pub open spec fn quoted_each(contents: Seq<Seq<char>>) -> Seq<Seq<char>> {
    Seq::new(contents.len(), |i: int| json::quoted(contents[i]))
}

/// Each summary as JSON.
pub open spec fn summary_each(items: Seq<SummaryView>) -> Seq<Seq<char>> {
    Seq::new(items.len(), |i: int| summary_text(items[i]))
}

/// What the archive holds, as the members of a frame.
pub open spec fn shape_members(entries: int, bytes: int, budget: int) -> Seq<Seq<char>> {
    seq![
        json::member_of("entries"@, text::signed_decimal(entries)),
        json::member_of("bytes"@, text::signed_decimal(bytes)),
        json::member_of("budget"@, text::signed_decimal(budget)),
    ]
}

/// The event a response is named by.
pub open spec fn event_member(name: Seq<char>) -> Seq<char> {
    json::member_of("ev"@, json::quoted(name))
}

/// The request a response answers.
pub open spec fn req_member(req: u64) -> Seq<char> {
    json::member_of("req"@, text::decimal(req as nat))
}

/// The members of a frame, in the order they are written.
pub open spec fn members(response: ResponseView) -> Seq<Seq<char>> {
    match response {
        ResponseView::Hello { v, entries, bytes, budget } => seq![
            event_member("hello"@),
            json::member_of("v"@, text::decimal(v as nat)),
        ] + shape_members(entries, bytes, budget),
        ResponseView::Okay { req } => seq![event_member("ok"@), req_member(req)],
        ResponseView::Begin { req, draft } => seq![
            event_member("begin"@),
            req_member(req),
            json::member_of("draft"@, text::decimal(draft as nat)),
        ],
        ResponseView::Commit { req, entry, created } => seq![
            event_member("commit"@),
            req_member(req),
            json::member_of("entry"@, text::signed_decimal(entry)),
            json::member_of("created"@, json::boolean_of(created)),
        ],
        ResponseView::List { req, items } => seq![
            event_member("list"@),
            req_member(req),
            json::member_of("items"@, json::array_of(summary_each(items))),
        ],
        ResponseView::Blob { req, mime, bytes } => seq![
            event_member("blob"@),
            req_member(req),
            json::member_of("mime"@, json::quoted(mime)),
            json::member_of("bytes"@, text::decimal(bytes)),
        ],
        ResponseView::Thumb { req, width, height, stride, bytes } => seq![
            event_member("thumb"@),
            req_member(req),
            json::member_of("width"@, text::decimal(width as nat)),
            json::member_of("height"@, text::decimal(height as nat)),
            json::member_of("stride"@, text::decimal(stride as nat)),
            json::member_of("bytes"@, text::decimal(bytes)),
        ],
        ResponseView::Stats { req, entries, bytes, budget } => seq![
            event_member("stats"@),
            req_member(req),
        ] + shape_members(entries, bytes, budget),
        ResponseView::Added { entry } => seq![
            event_member("added"@),
            json::member_of("entry"@, summary_text(entry)),
        ],
        ResponseView::Updated { entry } => seq![
            event_member("updated"@),
            json::member_of("entry"@, summary_text(entry)),
        ],
        ResponseView::Removed { entry } => seq![
            event_member("removed"@),
            json::member_of("entry"@, text::signed_decimal(entry)),
        ],
        ResponseView::Cleared => seq![event_member("cleared"@)],
        ResponseView::Error { req: Some(req), code, message } => seq![
            event_member("error"@),
            req_member(req),
            json::member_of("code"@, json::quoted(code)),
            json::member_of("message"@, json::quoted(message)),
        ],
        ResponseView::Error { req: None, code, message } => seq![
            event_member("error"@),
            json::member_of("code"@, json::quoted(code)),
            json::member_of("message"@, json::quoted(message)),
        ],
    }
}

/// The bytes of a frame, its terminating newline with them.
pub open spec fn frame(response: ResponseView) -> Seq<u8> {
    vstd::utf8::encode_utf8(json::object_of(members(response)).push('\n'))
}

fn summary_json(entry: &Summary) -> (json: String)
    ensures
        json@ == summary_text(entry@),
{
    let mut mimes: Vec<String> = Vec::new();
    let mut i: usize = 0;
    while i < entry.mimes.len()
        invariant
            i <= entry.mimes.len(),
            text::contents(mimes@) == quoted_each(text::contents(entry.mimes@)).take(i as int),
        decreases entry.mimes.len() - i,
    {
        let ghost before = text::contents(mimes@);
        mimes.push(json::quote(entry.mimes[i].as_str()));
        assert(text::contents(mimes@) =~= before.push(json::quoted(entry.mimes@[i as int]@)));
        assert(text::contents(mimes@) =~= quoted_each(text::contents(entry.mimes@)).take(
            i as int + 1,
        ));
        i += 1;
    }
    assert(text::contents(mimes@) =~= quoted_each(text::contents(entry.mimes@)));

    let mut all: Vec<String> = Vec::new();
    all.push(json::member("id", json::signed(entry.id)));
    all.push(json::member("kind", json::quote(entry.kind)));
    all.push(json::member("mimes", json::array(&mimes)));
    all.push(json::member("bytes", json::signed(entry.bytes)));
    all.push(json::member("preview", json::text_or_null(&entry.preview)));
    all.push(json::member("width", json::number_or_null(entry.width)));
    all.push(json::member("height", json::number_or_null(entry.height)));
    all.push(json::member("thumb", json::boolean(entry.thumb)));
    all.push(json::member("pinned", json::boolean(entry.pinned)));
    all.push(json::member("source", json::text_or_null(&entry.source)));
    all.push(json::member("at", json::signed(entry.at)));
    assert(text::contents(all@) =~= seq![
        json::member_of("id"@, text::signed_decimal(entry@.id)),
        json::member_of("kind"@, json::quoted(entry@.kind)),
        json::member_of("mimes"@, json::array_of(quoted_each(entry@.mimes))),
        json::member_of("bytes"@, text::signed_decimal(entry@.bytes)),
        json::member_of("preview"@, json::optional_text(entry@.preview)),
        json::member_of("width"@, json::optional_number(entry@.width)),
        json::member_of("height"@, json::optional_number(entry@.height)),
        json::member_of("thumb"@, json::boolean_of(entry@.thumb)),
        json::member_of("pinned"@, json::boolean_of(entry@.pinned)),
        json::member_of("source"@, json::optional_text(entry@.source)),
        json::member_of("at"@, text::signed_decimal(entry@.at)),
    ]);
    json::object(&all)
}

fn summaries_json(items: &Vec<Summary>) -> (json: String)
    ensures
        json@ == json::array_of(summary_each(summaries(items@))),
{
    let mut all: Vec<String> = Vec::new();
    let mut i: usize = 0;
    while i < items.len()
        invariant
            i <= items.len(),
            text::contents(all@) == summary_each(summaries(items@)).take(i as int),
        decreases items.len() - i,
    {
        let ghost before = text::contents(all@);
        all.push(summary_json(&items[i]));
        assert(text::contents(all@) =~= before.push(summary_text(items@[i as int]@)));
        assert(text::contents(all@) =~= summary_each(summaries(items@)).take(i as int + 1));
        i += 1;
    }
    assert(text::contents(all@) =~= summary_each(summaries(items@)));
    json::array(&all)
}

fn event(name: &str) -> (member: String)
    ensures
        member@ == event_member(name@),
{
    json::member("ev", json::quote(name))
}

fn answering(req: u64) -> (member: String)
    ensures
        member@ == req_member(req),
{
    json::member("req", json::unsigned(req))
}

impl Response {
    pub fn error(req: Option<u64>, code: &'static str, message: &str) -> (response: Self)
        ensures
            response@ == (ResponseView::Error { req, code: code@, message: message@ }),
    {
        Response::Error { req, code, message: message.to_owned() }
    }

    /// The members of the frame, in the order they are written.
    fn listed(&self) -> (all: Vec<String>)
        ensures
            text::contents(all@) == members(self@),
    {
        let mut all: Vec<String> = Vec::new();
        match self {
            Response::Hello { v, entries, bytes, budget } => {
                all.push(event("hello"));
                all.push(json::member("v", json::unsigned(*v as u64)));
                all.push(json::member("entries", json::signed(*entries)));
                all.push(json::member("bytes", json::signed(*bytes)));
                all.push(json::member("budget", json::signed(*budget)));
            },
            Response::Okay { req } => {
                all.push(event("ok"));
                all.push(answering(*req));
            },
            Response::Begin { req, draft } => {
                all.push(event("begin"));
                all.push(answering(*req));
                all.push(json::member("draft", json::unsigned(*draft)));
            },
            Response::Commit { req, entry, created } => {
                all.push(event("commit"));
                all.push(answering(*req));
                all.push(json::member("entry", json::signed(*entry)));
                all.push(json::member("created", json::boolean(*created)));
            },
            Response::List { req, items } => {
                all.push(event("list"));
                all.push(answering(*req));
                all.push(json::member("items", summaries_json(items)));
            },
            Response::Blob { req, mime, bytes } => {
                all.push(event("blob"));
                all.push(answering(*req));
                all.push(json::member("mime", json::quote(mime.as_str())));
                all.push(json::member("bytes", json::unsigned(*bytes)));
            },
            Response::Thumb { req, width, height, stride, bytes } => {
                all.push(event("thumb"));
                all.push(answering(*req));
                all.push(json::member("width", json::unsigned(*width as u64)));
                all.push(json::member("height", json::unsigned(*height as u64)));
                all.push(json::member("stride", json::unsigned(*stride as u64)));
                all.push(json::member("bytes", json::unsigned(*bytes)));
            },
            Response::Stats { req, entries, bytes, budget } => {
                all.push(event("stats"));
                all.push(answering(*req));
                all.push(json::member("entries", json::signed(*entries)));
                all.push(json::member("bytes", json::signed(*bytes)));
                all.push(json::member("budget", json::signed(*budget)));
            },
            Response::Added { entry } => {
                all.push(event("added"));
                all.push(json::member("entry", summary_json(entry)));
            },
            Response::Updated { entry } => {
                all.push(event("updated"));
                all.push(json::member("entry", summary_json(entry)));
            },
            Response::Removed { entry } => {
                all.push(event("removed"));
                all.push(json::member("entry", json::signed(*entry)));
            },
            Response::Cleared {  } => {
                all.push(event("cleared"));
            },
            Response::Error { req, code, message } => {
                all.push(event("error"));
                if let Some(req) = req {
                    all.push(answering(*req));
                }
                all.push(json::member("code", json::quote(code)));
                all.push(json::member("message", json::quote(message.as_str())));
            },
        }
        assert(text::contents(all@) =~= members(self@));
        all
    }

    /// Renders the frame and its terminating newline into `out`, replacing any
    /// previous contents. The payload, when there is one, is written by the
    /// caller straight after and never passes through here.
    pub fn encode(&self, out: &mut Vec<u8>)
        ensures
            final(out)@ == frame(self@),
    {
        let all = self.listed();
        let mut line = json::object(&all);
        line.push('\n');
        out.clear();
        out.extend_from_slice(line.as_str().as_bytes());
        assert(out@ =~= frame(self@));
    }
}

// ---------------------------------------------------------------------------
// A frame is one line
// ---------------------------------------------------------------------------

proof fn member_is_one_line(name: Seq<char>, value: Seq<char>)
    requires
        json::one_line(name),
        json::one_line(value),
    ensures
        json::one_line(json::member_of(name, value)),
{
}

proof fn names_are_one_line()
    ensures
        json::one_line("ev"@) && json::one_line("req"@) && json::one_line("v"@),
        json::one_line("entries"@) && json::one_line("bytes"@) && json::one_line("budget"@),
        json::one_line("draft"@) && json::one_line("entry"@) && json::one_line("created"@),
        json::one_line("items"@) && json::one_line("mime"@) && json::one_line("width"@),
        json::one_line("height"@) && json::one_line("stride"@) && json::one_line("code"@),
        json::one_line("message"@) && json::one_line("id"@) && json::one_line("kind"@),
        json::one_line("mimes"@) && json::one_line("preview"@) && json::one_line("thumb"@),
        json::one_line("pinned"@) && json::one_line("source"@) && json::one_line("at"@),
{
    reveal_strlit("ev");
    reveal_strlit("req");
    reveal_strlit("v");
    reveal_strlit("entries");
    reveal_strlit("bytes");
    reveal_strlit("budget");
    reveal_strlit("draft");
    reveal_strlit("entry");
    reveal_strlit("created");
    reveal_strlit("items");
    reveal_strlit("mime");
    reveal_strlit("width");
    reveal_strlit("height");
    reveal_strlit("stride");
    reveal_strlit("code");
    reveal_strlit("message");
    reveal_strlit("id");
    reveal_strlit("kind");
    reveal_strlit("mimes");
    reveal_strlit("preview");
    reveal_strlit("thumb");
    reveal_strlit("pinned");
    reveal_strlit("source");
    reveal_strlit("at");
}

proof fn summary_is_one_line(entry: SummaryView)
    ensures
        json::one_line(summary_text(entry)),
{
    names_are_one_line();
    json::signed_is_one_line(entry.id);
    json::signed_is_one_line(entry.bytes);
    json::signed_is_one_line(entry.at);
    json::quoted_is_one_line(entry.kind);
    json::values_are_one_line(entry.thumb, entry.preview, entry.width);
    json::values_are_one_line(entry.pinned, entry.source, entry.height);
    let mimes = quoted_each(entry.mimes);
    assert forall|i: int| 0 <= i < mimes.len() implies json::one_line(#[trigger] mimes[i]) by {
        json::quoted_is_one_line(entry.mimes[i]);
    }
    json::joined_is_one_line(mimes);
    let all = seq![
        json::member_of("id"@, text::signed_decimal(entry.id)),
        json::member_of("kind"@, json::quoted(entry.kind)),
        json::member_of("mimes"@, json::array_of(mimes)),
        json::member_of("bytes"@, text::signed_decimal(entry.bytes)),
        json::member_of("preview"@, json::optional_text(entry.preview)),
        json::member_of("width"@, json::optional_number(entry.width)),
        json::member_of("height"@, json::optional_number(entry.height)),
        json::member_of("thumb"@, json::boolean_of(entry.thumb)),
        json::member_of("pinned"@, json::boolean_of(entry.pinned)),
        json::member_of("source"@, json::optional_text(entry.source)),
        json::member_of("at"@, text::signed_decimal(entry.at)),
    ];
    member_is_one_line("id"@, text::signed_decimal(entry.id));
    member_is_one_line("kind"@, json::quoted(entry.kind));
    member_is_one_line("mimes"@, json::array_of(mimes));
    member_is_one_line("bytes"@, text::signed_decimal(entry.bytes));
    member_is_one_line("preview"@, json::optional_text(entry.preview));
    member_is_one_line("width"@, json::optional_number(entry.width));
    member_is_one_line("height"@, json::optional_number(entry.height));
    member_is_one_line("thumb"@, json::boolean_of(entry.thumb));
    member_is_one_line("pinned"@, json::boolean_of(entry.pinned));
    member_is_one_line("source"@, json::optional_text(entry.source));
    member_is_one_line("at"@, text::signed_decimal(entry.at));
    json::joined_is_one_line(all);
}

proof fn event_is_one_line(name: Seq<char>)
    ensures
        json::one_line(event_member(name)),
{
    names_are_one_line();
    json::quoted_is_one_line(name);
    member_is_one_line("ev"@, json::quoted(name));
}

proof fn number_is_one_line(name: Seq<char>, n: nat)
    requires
        json::one_line(name),
    ensures
        json::one_line(json::member_of(name, text::decimal(n))),
{
    json::decimal_is_one_line(n);
    member_is_one_line(name, text::decimal(n));
}

proof fn signed_number_is_one_line(name: Seq<char>, n: int)
    requires
        json::one_line(name),
    ensures
        json::one_line(json::member_of(name, text::signed_decimal(n))),
{
    json::signed_is_one_line(n);
    member_is_one_line(name, text::signed_decimal(n));
}

proof fn string_is_one_line(name: Seq<char>, content: Seq<char>)
    requires
        json::one_line(name),
    ensures
        json::one_line(json::member_of(name, json::quoted(content))),
{
    json::quoted_is_one_line(content);
    member_is_one_line(name, json::quoted(content));
}

proof fn members_are_one_line(response: ResponseView)
    ensures
        forall|i: int|
            0 <= i < members(response).len() ==> json::one_line(#[trigger] members(response)[i]),
{
    names_are_one_line();
    match response {
        ResponseView::Hello { v, entries, bytes, budget } => {
            event_is_one_line("hello"@);
            number_is_one_line("v"@, v as nat);
            signed_number_is_one_line("entries"@, entries);
            signed_number_is_one_line("bytes"@, bytes);
            signed_number_is_one_line("budget"@, budget);
        },
        ResponseView::Okay { req } => {
            event_is_one_line("ok"@);
            number_is_one_line("req"@, req as nat);
        },
        ResponseView::Begin { req, draft } => {
            event_is_one_line("begin"@);
            number_is_one_line("req"@, req as nat);
            number_is_one_line("draft"@, draft as nat);
        },
        ResponseView::Commit { req, entry, created } => {
            event_is_one_line("commit"@);
            number_is_one_line("req"@, req as nat);
            signed_number_is_one_line("entry"@, entry);
            json::values_are_one_line(created, None, None);
            member_is_one_line("created"@, json::boolean_of(created));
        },
        ResponseView::List { req, items } => {
            event_is_one_line("list"@);
            number_is_one_line("req"@, req as nat);
            let all = summary_each(items);
            assert forall|i: int| 0 <= i < all.len() implies json::one_line(#[trigger] all[i]) by {
                summary_is_one_line(items[i]);
            }
            json::joined_is_one_line(all);
            member_is_one_line("items"@, json::array_of(all));
        },
        ResponseView::Blob { req, mime, bytes } => {
            event_is_one_line("blob"@);
            number_is_one_line("req"@, req as nat);
            string_is_one_line("mime"@, mime);
            number_is_one_line("bytes"@, bytes);
        },
        ResponseView::Thumb { req, width, height, stride, bytes } => {
            event_is_one_line("thumb"@);
            number_is_one_line("req"@, req as nat);
            number_is_one_line("width"@, width as nat);
            number_is_one_line("height"@, height as nat);
            number_is_one_line("stride"@, stride as nat);
            number_is_one_line("bytes"@, bytes);
        },
        ResponseView::Stats { req, entries, bytes, budget } => {
            event_is_one_line("stats"@);
            number_is_one_line("req"@, req as nat);
            signed_number_is_one_line("entries"@, entries);
            signed_number_is_one_line("bytes"@, bytes);
            signed_number_is_one_line("budget"@, budget);
        },
        ResponseView::Added { entry } => {
            event_is_one_line("added"@);
            summary_is_one_line(entry);
            member_is_one_line("entry"@, summary_text(entry));
        },
        ResponseView::Updated { entry } => {
            event_is_one_line("updated"@);
            summary_is_one_line(entry);
            member_is_one_line("entry"@, summary_text(entry));
        },
        ResponseView::Removed { entry } => {
            event_is_one_line("removed"@);
            signed_number_is_one_line("entry"@, entry);
        },
        ResponseView::Cleared => {
            event_is_one_line("cleared"@);
        },
        ResponseView::Error { req, code, message } => {
            event_is_one_line("error"@);
            string_is_one_line("code"@, code);
            string_is_one_line("message"@, message);
            if let Some(req) = req {
                number_is_one_line("req"@, req as nat);
            }
        },
    }
}

/// The bytes of a character hold a newline byte only where it is the newline.
proof fn bytes_of_a_character(c: char)
    requires
        c != '\n',
    ensures
        forall|i: int|
            0 <= i < vstd::utf8::encode_scalar(c as u32).len()
                ==> #[trigger] vstd::utf8::encode_scalar(c as u32)[i] != 0x0a,
{
    let scalar = c as u32;
    assert(scalar != 0x0a);
    assert(scalar <= 0x7f && scalar != 0x0a ==> (scalar & 0x7f) as u8 != 0x0a) by (bit_vector);
    assert(0xc0u8 | ((scalar >> 6) & 0x1f) as u8 != 0x0a) by (bit_vector);
    assert(0xe0u8 | ((scalar >> 12) & 0x0f) as u8 != 0x0a) by (bit_vector);
    assert(0xf0u8 | ((scalar >> 18) & 0x7) as u8 != 0x0a) by (bit_vector);
    assert(0x80u8 | (scalar & 0x3f) as u8 != 0x0a) by (bit_vector);
    assert(0x80u8 | ((scalar >> 6) & 0x3f) as u8 != 0x0a) by (bit_vector);
    assert(0x80u8 | ((scalar >> 12) & 0x3f) as u8 != 0x0a) by (bit_vector);
}

/// The bytes of a line are the bytes of its text, none of which is a newline,
/// and then one newline.
proof fn bytes_of_a_line(content: Seq<char>)
    requires
        json::one_line(content),
    ensures
        ({
            let bytes = vstd::utf8::encode_utf8(content.push('\n'));
            &&& bytes == vstd::utf8::encode_utf8(content).push(0x0a)
            &&& forall|i: int| 0 <= i < bytes.len() - 1 ==> #[trigger] bytes[i] != 0x0a
        }),
    decreases content.len(),
{
    let bytes = vstd::utf8::encode_utf8(content.push('\n'));
    if content.len() == 0 {
        let scalar = '\n' as u32;
        assert(scalar == 0x0a);
        assert((0x0au32 & 0x7f) as u8 == 0x0a) by (bit_vector);
        assert(content.push('\n').drop_first() =~= Seq::empty());
        assert(content.push('\n')[0] == '\n');
        assert(vstd::utf8::encode_utf8(Seq::<char>::empty()) =~= Seq::<u8>::empty());
        assert(vstd::utf8::encode_scalar(scalar) =~= seq![0x0au8]);
        assert(content =~= Seq::<char>::empty());
        assert(bytes =~= seq![0x0au8]);
    } else {
        let rest = content.drop_first();
        assert forall|i: int| 0 <= i < rest.len() implies #[trigger] rest[i] != '\n' by {
            assert(content[i + 1] != '\n');
        }
        bytes_of_a_line(rest);
        assert(content[0] != '\n');
        bytes_of_a_character(content[0]);
        assert(content.push('\n').drop_first() =~= rest.push('\n'));
        let first = vstd::utf8::encode_scalar(content[0] as u32);
        let others = vstd::utf8::encode_utf8(rest.push('\n'));
        assert(bytes == first + others);
        assert(bytes =~= vstd::utf8::encode_utf8(content).push(0x0a));
        assert forall|i: int| 0 <= i < bytes.len() - 1 implies #[trigger] bytes[i] != 0x0a by {
            if i < first.len() {
                assert(bytes[i] == first[i]);
            } else {
                assert(bytes[i] == others[i - first.len()]);
            }
        }
    }
}

/// A frame is one line: it ends with a newline and holds no other, whatever
/// text it carries.
pub proof fn a_frame_is_one_line(response: ResponseView)
    ensures
        frame(response).len() > 0,
        frame(response).last() == 0x0a,
        forall|i: int| 0 <= i < frame(response).len() - 1 ==> #[trigger] frame(response)[i] != 0x0a,
{
    members_are_one_line(response);
    json::joined_is_one_line(members(response));
    bytes_of_a_line(json::object_of(members(response)));
}

// ---------------------------------------------------------------------------
// What a frame tells
// ---------------------------------------------------------------------------

/// A member of a frame: a name in quotes, a colon and a value.
pub open spec fn told(name: Seq<char>, value: Seq<char>) -> Seq<char> {
    seq!['"'] + name + seq!['"', ':'] + value
}

/// A row of the list tells everything there is to draw of an entry: eleven
/// members under these names.
pub proof fn a_summary_tells_all_there_is_to_draw(entry: SummaryView)
    ensures
        summary_text(entry) == seq!['{'] + text::joined(
            seq![
                told("id"@, text::signed_decimal(entry.id)),
                told("kind"@, json::quoted(entry.kind)),
                told("mimes"@, json::array_of(quoted_each(entry.mimes))),
                told("bytes"@, text::signed_decimal(entry.bytes)),
                told("preview"@, json::optional_text(entry.preview)),
                told("width"@, json::optional_number(entry.width)),
                told("height"@, json::optional_number(entry.height)),
                told("thumb"@, json::boolean_of(entry.thumb)),
                told("pinned"@, json::boolean_of(entry.pinned)),
                told("source"@, json::optional_text(entry.source)),
                told("at"@, text::signed_decimal(entry.at)),
            ],
            seq![','],
        ) + seq!['}'],
        quoted_each(entry.mimes).len() == entry.mimes.len(),
        forall|i: int|
            0 <= i < entry.mimes.len() ==> #[trigger] quoted_each(entry.mimes)[i] == json::quoted(
                entry.mimes[i],
            ),
{
}

/// Every answer names its event first and the request it answers second, and
/// then tells what the request asked for.
pub proof fn an_answer_names_its_request(response: ResponseView)
    ensures
        response matches ResponseView::Okay { req } ==> members(response) == seq![
            told("ev"@, json::quoted("ok"@)),
            told("req"@, text::decimal(req as nat)),
        ],
        response matches ResponseView::Begin { req, draft } ==> members(response) == seq![
            told("ev"@, json::quoted("begin"@)),
            told("req"@, text::decimal(req as nat)),
            told("draft"@, text::decimal(draft as nat)),
        ],
        response matches ResponseView::Commit { req, entry, created } ==> members(response) == seq![
            told("ev"@, json::quoted("commit"@)),
            told("req"@, text::decimal(req as nat)),
            told("entry"@, text::signed_decimal(entry)),
            told("created"@, json::boolean_of(created)),
        ],
        response matches ResponseView::List { req, items } ==> members(response) == seq![
            told("ev"@, json::quoted("list"@)),
            told("req"@, text::decimal(req as nat)),
            told("items"@, json::array_of(Seq::new(items.len(), |i: int| summary_text(items[i])))),
        ],
        response matches ResponseView::Blob { req, mime, bytes } ==> members(response) == seq![
            told("ev"@, json::quoted("blob"@)),
            told("req"@, text::decimal(req as nat)),
            told("mime"@, json::quoted(mime)),
            told("bytes"@, text::decimal(bytes)),
        ],
        response matches ResponseView::Thumb { req, width, height, stride, bytes } ==> members(
            response,
        ) == seq![
            told("ev"@, json::quoted("thumb"@)),
            told("req"@, text::decimal(req as nat)),
            told("width"@, text::decimal(width as nat)),
            told("height"@, text::decimal(height as nat)),
            told("stride"@, text::decimal(stride as nat)),
            told("bytes"@, text::decimal(bytes)),
        ],
        response matches ResponseView::Stats { req, entries, bytes, budget } ==> members(response)
            == seq![
            told("ev"@, json::quoted("stats"@)),
            told("req"@, text::decimal(req as nat)),
            told("entries"@, text::signed_decimal(entries)),
            told("bytes"@, text::signed_decimal(bytes)),
            told("budget"@, text::signed_decimal(budget)),
        ],
        response matches ResponseView::Error { req: Some(req), code, message } ==> members(response)
            == seq![
            told("ev"@, json::quoted("error"@)),
            told("req"@, text::decimal(req as nat)),
            told("code"@, json::quoted(code)),
            told("message"@, json::quoted(message)),
        ],
{
    match response {
        ResponseView::Stats { req, entries, bytes, budget } => {
            assert(members(response) =~= seq![
                told("ev"@, json::quoted("stats"@)),
                told("req"@, text::decimal(req as nat)),
                told("entries"@, text::signed_decimal(entries)),
                told("bytes"@, text::signed_decimal(bytes)),
                told("budget"@, text::signed_decimal(budget)),
            ]);
        },
        ResponseView::List { req, items } => {
            assert(summary_each(items) =~= Seq::new(
                items.len(),
                |i: int| summary_text(items[i]),
            ));
        },
        _ => {},
    }
}

/// What answers no request names its event and tells what happened.
pub proof fn an_event_names_what_happened(response: ResponseView)
    ensures
        response matches ResponseView::Hello { v, entries, bytes, budget } ==> members(response)
            == seq![
            told("ev"@, json::quoted("hello"@)),
            told("v"@, text::decimal(v as nat)),
            told("entries"@, text::signed_decimal(entries)),
            told("bytes"@, text::signed_decimal(bytes)),
            told("budget"@, text::signed_decimal(budget)),
        ],
        response matches ResponseView::Added { entry } ==> members(response) == seq![
            told("ev"@, json::quoted("added"@)),
            told("entry"@, summary_text(entry)),
        ],
        response matches ResponseView::Updated { entry } ==> members(response) == seq![
            told("ev"@, json::quoted("updated"@)),
            told("entry"@, summary_text(entry)),
        ],
        response matches ResponseView::Removed { entry } ==> members(response) == seq![
            told("ev"@, json::quoted("removed"@)),
            told("entry"@, text::signed_decimal(entry)),
        ],
        response is Cleared ==> members(response) == seq![told("ev"@, json::quoted("cleared"@))],
        response matches ResponseView::Error { req: None, code, message } ==> members(response)
            == seq![
            told("ev"@, json::quoted("error"@)),
            told("code"@, json::quoted(code)),
            told("message"@, json::quoted(message)),
        ],
        frame(response) == vstd::utf8::encode_utf8(
            seq!['{'] + text::joined(members(response), seq![',']) + seq!['}', '\n'],
        ),
{
    if let ResponseView::Hello { v, entries, bytes, budget } = response {
        assert(members(response) =~= seq![
            told("ev"@, json::quoted("hello"@)),
            told("v"@, text::decimal(v as nat)),
            told("entries"@, text::signed_decimal(entries)),
            told("bytes"@, text::signed_decimal(bytes)),
            told("budget"@, text::signed_decimal(budget)),
        ]);
    }
    let inside = text::joined(members(response), seq![',']);
    assert(json::object_of(members(response)).push('\n') =~= seq!['{'] + inside + seq!['}', '\n']);
}

/// Every request but the opening one and a chunk carries a number, and that
/// number is the one it is answered under.
pub proof fn requests_carry_their_number(request: Request)
    ensures
        request.id() is None <==> request is Hello || request is Chunk,
        request matches Request::Begin { req, .. } ==> request.id() == Some(req),
        request matches Request::Part { req, .. } ==> request.id() == Some(req),
        request matches Request::Commit { req, .. } ==> request.id() == Some(req),
        request matches Request::Abort { req, .. } ==> request.id() == Some(req),
        request matches Request::List { req, .. } ==> request.id() == Some(req),
        request matches Request::Fetch { req, .. } ==> request.id() == Some(req),
        request matches Request::Thumb { req, .. } ==> request.id() == Some(req),
        request matches Request::Pin { req, .. } ==> request.id() == Some(req),
        request matches Request::Remove { req, .. } ==> request.id() == Some(req),
        request matches Request::Clear { req } ==> request.id() == Some(req),
        request matches Request::Stats { req } ==> request.id() == Some(req),
        PROTOCOL_VERSION == 1,
        MAX_FRAME == 65536,
{
}

} // verus!
