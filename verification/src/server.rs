//! The language server's decisions: which document text is current, what a
//! hover points at, where day summaries go.
use vstd::prelude::*;
use crate::document::{
    date_at_or_before, date_token, date_token_chars, find_date_for_line, find_tag_under_cursor,
    is_date_line_chars, is_date_line_spec, opt_view, tag_under_cursor,
};
use crate::report::{byte_len, opt_string};
use crate::text::{append, append_str, chars_of, lines, lines_of, string_of, views};

verus! {

broadcast use vstd::string::group_string_axioms;

// ---------------------------------------------------------------------------
// Open documents
// ---------------------------------------------------------------------------

/// The texts of the open documents, by URI.
pub struct DocumentStore {
    docs: Vec<(String, String)>,
}

/// The map that a list of `(uri, text)` pairs describes.
pub open spec fn doc_map(s: Seq<(String, String)>) -> Map<Seq<char>, Seq<char>>
    decreases s.len(),
{
    if s.len() == 0 {
        Map::empty()
    } else {
        doc_map(s.drop_last()).insert(s.last().0@, s.last().1@)
    }
}

pub open spec fn unique_keys(s: Seq<(String, String)>) -> bool {
    forall|i: int, j: int| 0 <= i < j < s.len() ==> s[i].0@ != s[j].0@
}

proof fn lemma_doc_map_dom(s: Seq<(String, String)>, k: Seq<char>)
    ensures
        doc_map(s).contains_key(k) <==> exists|i: int| 0 <= i < s.len() && #[trigger] s[i].0@ == k,
    decreases s.len(),
{
    if s.len() > 0 {
        lemma_doc_map_dom(s.drop_last(), k);
        if doc_map(s.drop_last()).contains_key(k) {
            let i = choose|i: int| 0 <= i < s.drop_last().len() && #[trigger] s.drop_last()[i].0@ == k;
            assert(s[i].0@ == k);
        }
        if exists|i: int| 0 <= i < s.len() && #[trigger] s[i].0@ == k {
            let i = choose|i: int| 0 <= i < s.len() && #[trigger] s[i].0@ == k;
            if i < s.len() - 1 {
                assert(s.drop_last()[i].0@ == k);
            }
        }
    }
}

proof fn lemma_doc_map_at(s: Seq<(String, String)>, i: int)
    requires
        unique_keys(s),
        0 <= i < s.len(),
    ensures
        doc_map(s).contains_key(s[i].0@),
        doc_map(s)[s[i].0@] == s[i].1@,
    decreases s.len(),
{
    if i < s.len() - 1 {
        lemma_doc_map_at(s.drop_last(), i);
        assert(s.drop_last()[i] == s[i]);
    }
}

proof fn lemma_doc_map_update(s: Seq<(String, String)>, i: int, v: (String, String))
    requires
        unique_keys(s),
        0 <= i < s.len(),
        v.0@ == s[i].0@,
    ensures
        doc_map(s.update(i, v)) == doc_map(s).insert(v.0@, v.1@),
        unique_keys(s.update(i, v)),
    decreases s.len(),
{
    let t = s.update(i, v);
    if i == s.len() - 1 {
        assert(t.drop_last() =~= s.drop_last());
        assert(doc_map(t) =~= doc_map(s).insert(v.0@, v.1@));
    } else {
        lemma_doc_map_update(s.drop_last(), i, v);
        assert(t.drop_last() =~= s.drop_last().update(i, v));
        assert(doc_map(t) =~= doc_map(s).insert(v.0@, v.1@));
    }
}

proof fn lemma_doc_map_remove(s: Seq<(String, String)>, i: int)
    requires
        unique_keys(s),
        0 <= i < s.len(),
    ensures
        doc_map(s.remove(i)) == doc_map(s).remove(s[i].0@),
        unique_keys(s.remove(i)),
    decreases s.len(),
{
    let t = s.remove(i);
    let k = s[i].0@;
    if i == s.len() - 1 {
        assert(t =~= s.drop_last());
        lemma_doc_map_dom(s.drop_last(), k);
        assert(!doc_map(s.drop_last()).contains_key(k)) by {
            if doc_map(s.drop_last()).contains_key(k) {
                let j = choose|j: int| 0 <= j < s.drop_last().len() && #[trigger] s.drop_last()[j].0@ == k;
                assert(s[j].0@ == s[i].0@);
            }
        }
        assert(doc_map(t) =~= doc_map(s).remove(k));
    } else {
        lemma_doc_map_remove(s.drop_last(), i);
        assert(t.drop_last() =~= s.drop_last().remove(i));
        assert(t.last() == s.last());
        assert(s.last().0@ != k);
        assert(doc_map(t) =~= doc_map(s).remove(k));
    }
}

impl DocumentStore {
    #[verifier::type_invariant]
    spec fn keys_unique(self) -> bool {
        unique_keys(self.docs@)
    }

    /// The text of each open document, by URI.
    pub closed spec fn view(&self) -> Map<Seq<char>, Seq<char>> {
        doc_map(self.docs@)
    }

    /// No document is open.
    pub fn new() -> (r: Self)
        ensures
            r.view() == Map::<Seq<char>, Seq<char>>::empty(),
    {
        DocumentStore { docs: Vec::new() }
    }

    fn find(&self, uri: &str) -> (r: Option<usize>)
        ensures
            match r {
                Some(i) => i < self.docs@.len() && self.docs@[i as int].0@ == uri@,
                None => forall|i: int| 0 <= i < self.docs@.len() ==> #[trigger] self.docs@[i].0@ != uri@,
            },
    {
        let key = chars_of(uri);
        let mut i: usize = 0;
        while i < self.docs.len()
            invariant
                i <= self.docs.len(),
                key@ == uri@,
                forall|j: int| 0 <= j < i ==> #[trigger] self.docs@[j].0@ != uri@,
            decreases self.docs.len() - i,
        {
            let k = chars_of(self.docs[i].0.as_str());
            if crate::text::eq_chars(&k, &key) {
                return Some(i);
            }
            i += 1;
        }
        None
    }

    /// Stores `text` as the text of `uri`, replacing any earlier one
    /// (`textDocument/didOpen`).
    pub fn open(&mut self, uri: &str, text: &str)
        ensures
            final(self).view() == old(self).view().insert(uri@, text@),
    {
        proof {
            use_type_invariant(&*self);
        }
        let ghost old_docs = self.docs@;
        let u = String::from_str(uri);
        let t = String::from_str(text);
        match self.find(uri) {
            Some(i) => {
                proof {
                    lemma_doc_map_update(old_docs, i as int, (u, t));
                }
                let mut docs: Vec<(String, String)> = Vec::new();
                std::mem::swap(&mut docs, &mut self.docs);
                docs.set(i, (u, t));
                self.docs = docs;
            },
            None => {
                let mut docs: Vec<(String, String)> = Vec::new();
                std::mem::swap(&mut docs, &mut self.docs);
                docs.push((u, t));
                assert(docs@.drop_last() =~= old_docs);
                self.docs = docs;
            },
        }
    }

    /// Replaces the text of `uri` by the first change's text, when there is
    /// one (`textDocument/didChange` with full-document sync).
    pub fn change(&mut self, uri: &str, changes: &Vec<String>)
        ensures
            changes@.len() > 0 ==> final(self).view() == old(self).view().insert(
                uri@,
                changes@[0]@,
            ),
            changes@.len() == 0 ==> final(self).view() == old(self).view(),
    {
        if changes.len() > 0 {
            self.open(uri, changes[0].as_str());
        }
    }

    /// Forgets `uri` (`textDocument/didClose`).
    pub fn close(&mut self, uri: &str)
        ensures
            final(self).view() == old(self).view().remove(uri@),
    {
        proof {
            use_type_invariant(&*self);
        }
        let ghost old_docs = self.docs@;
        match self.find(uri) {
            Some(i) => {
                proof {
                    lemma_doc_map_remove(old_docs, i as int);
                }
                let mut docs: Vec<(String, String)> = Vec::new();
                std::mem::swap(&mut docs, &mut self.docs);
                docs.remove(i);
                self.docs = docs;
            },
            None => {
                proof {
                    lemma_doc_map_dom(old_docs, uri@);
                    assert(doc_map(old_docs).remove(uri@) =~= doc_map(old_docs));
                }
            },
        }
    }

    /// The current text of `uri`, if it is open.
    pub fn get(&self, uri: &str) -> (r: Option<&String>)
        ensures
            match r {
                Some(t) => self.view().contains_key(uri@) && t@ == self.view()[uri@],
                None => !self.view().contains_key(uri@),
            },
    {
        proof {
            use_type_invariant(self);
            lemma_doc_map_dom(self.docs@, uri@);
        }
        match self.find(uri) {
            Some(i) => {
                proof {
                    lemma_doc_map_at(self.docs@, i as int);
                }
                Some(&self.docs[i].1)
            },
            None => None,
        }
    }
}

/// After a document is opened (or changed) with `text`, reading it gives
/// `text` back: the state `open` leaves is read by `get` as the text sent.
pub proof fn law_read_after_write(
    before: DocumentStore,
    after: DocumentStore,
    uri: Seq<char>,
    text: Seq<char>,
)
    requires
        after.view() == before.view().insert(uri, text),
    ensures
        after.view().contains_key(uri),
        after.view()[uri] == text,
{
}

/// Opening, changing or closing one document leaves every other document
/// as it was.
pub proof fn law_other_documents_unchanged(
    before: DocumentStore,
    after: DocumentStore,
    uri: Seq<char>,
    text: Seq<char>,
    other: Seq<char>,
)
    requires
        other != uri,
        after.view() == before.view().insert(uri, text) || after.view() == before.view().remove(
            uri,
        ),
    ensures
        after.view().contains_key(other) == before.view().contains_key(other),
        before.view().contains_key(other) ==> after.view()[other] == before.view()[other],
{
}

/// A closed document has no text until it is opened again.
pub proof fn law_closed_is_gone(before: DocumentStore, after: DocumentStore, uri: Seq<char>)
    requires
        after.view() == before.view().remove(uri),
    ensures
        !after.view().contains_key(uri),
{
}

} // verus!

verus! {

// ---------------------------------------------------------------------------
// Hover
// ---------------------------------------------------------------------------

/// What a hover position points at.
pub enum HoverTarget {
    /// A tag (without `#`): the tag report is shown.
    Tag(String),
    /// A date header: the day report for `date` is shown, and the project
    /// report too when the header is the first line.
    Date { date: String, first_line: bool },
    Nothing,
}

pub enum HoverTargetView {
    Tag(Seq<char>),
    Date(Seq<char>, bool),
    Nothing,
}

pub open spec fn target_view(t: HoverTarget) -> HoverTargetView {
    match t {
        HoverTarget::Tag(s) => HoverTargetView::Tag(s@),
        HoverTarget::Date { date, first_line } => HoverTargetView::Date(date@, first_line),
        HoverTarget::Nothing => HoverTargetView::Nothing,
    }
}

/// A tag under the cursor wins; otherwise a date header line shows its date.
pub open spec fn hover_target_spec(content: Seq<char>, line: int, character: int) -> HoverTargetView {
    let ls = lines(content);
    if line < 0 || line >= ls.len() {
        HoverTargetView::Nothing
    } else {
        match tag_under_cursor(ls[line], character) {
            Some(t) => HoverTargetView::Tag(t),
            None => if is_date_line_spec(ls[line]) {
                match date_at_or_before(ls, line) {
                    Some(d) => HoverTargetView::Date(d, line == 0),
                    None => HoverTargetView::Nothing,
                }
            } else {
                HoverTargetView::Nothing
            },
        }
    }
}

/// What the hover at (`line`, `character`) of `content` is about.
pub fn hover_target(content: &str, line: usize, character: usize) -> (r: HoverTarget)
    ensures
        target_view(r) == hover_target_spec(content@, line as int, character as int),
{
    let c = chars_of(content);
    let ls = lines_of(&c);
    if line >= ls.len() {
        return HoverTarget::Nothing;
    }
    assert(views(ls@)[line as int] == ls@[line as int]@);
    let l = string_of(&ls[line]);
    if let Some(tag) = find_tag_under_cursor(l.as_str(), character) {
        return HoverTarget::Tag(tag);
    }
    if is_date_line_chars(&ls[line]) {
        if let Some(date) = find_date_for_line(content, line) {
            return HoverTarget::Date { date, first_line: line == 0 };
        }
    }
    HoverTarget::Nothing
}

/// The hover text on a date header: the day report, a rule, and the project
/// report; `None` when there is nothing to show.
pub open spec fn date_hover_spec(day_report: Option<Seq<char>>, project_report: Option<Seq<char>>) -> Option<
    Seq<char>,
> {
    let text = match day_report {
        Some(d) => d + "\n---\n"@,
        None => seq![],
    } + match project_report {
        Some(p) => p,
        None => seq![],
    };
    if text.len() == 0 {
        None
    } else {
        Some(text)
    }
}

pub fn date_hover(day_report: Option<String>, project_report: Option<String>) -> (r: Option<
    String,
>)
    ensures
        opt_string(r) == date_hover_spec(opt_string(day_report), opt_string(project_report)),
{
    let mut v: Vec<char> = Vec::new();
    if let Some(d) = &day_report {
        append_str(&mut v, d.as_str());
        append_str(&mut v, "\n---\n");
    }
    if let Some(p) = &project_report {
        append_str(&mut v, p.as_str());
    }
    assert(v@ =~= match opt_string(day_report) {
        Some(d) => d + "\n---\n"@,
        None => seq![],
    } + match opt_string(project_report) {
        Some(p) => p,
        None => seq![],
    });
    if v.len() == 0 {
        None
    } else {
        Some(string_of(&v))
    }
}

// ---------------------------------------------------------------------------
// Date headers for code lenses and inlay hints
// ---------------------------------------------------------------------------

/// A date header of the document: its line, its date, the line its code
/// lens goes on (the next one, or itself on the last line) and the byte
/// length of the header line (where its inlay hint goes).
pub struct DatedLine {
    pub line: usize,
    pub date: String,
    pub lens_line: usize,
    pub end: u128,
}

pub open spec fn dated_view(d: DatedLine) -> (int, Seq<char>, int, int) {
    (d.line as int, d.date@, d.lens_line as int, d.end as int)
}

/// The headers among lines `0..n`, in order.
pub open spec fn dated_lines_upto(ls: Seq<Seq<char>>, n: int) -> Seq<(int, Seq<char>, int, int)>
    decreases n,
{
    if n <= 0 || n > ls.len() {
        seq![]
    } else {
        let i = n - 1;
        let prev = dated_lines_upto(ls, n - 1);
        let l = ls[i];
        if is_date_line_spec(l) && tokens_nonempty(l) && byte_len(date_token(l)) >= 10 {
            prev.push(
                (
                    i,
                    date_token(l),
                    if i + 1 < ls.len() {
                        i + 1
                    } else {
                        i
                    },
                    byte_len(l) as int,
                ),
            )
        } else {
            prev
        }
    }
}

pub open spec fn tokens_nonempty(l: Seq<char>) -> bool {
    crate::text::tokens(crate::text::trim_start(l)).len() > 0
}

pub open spec fn dated_lines_spec(content: Seq<char>) -> Seq<(int, Seq<char>, int, int)> {
    dated_lines_upto(lines(content), lines(content).len() as int)
}

fn byte_len_exec(v: &Vec<char>) -> (n: u128)
    ensures
        n == byte_len(v@),
{
    let mut total: u128 = 0;
    let mut i: usize = 0;
    while i < v.len()
        invariant
            i <= v.len(),
            total == byte_len(v@.take(i as int)),
            total <= 4 * i,
        decreases v.len() - i,
    {
        assert(v@.take(i + 1).drop_last() =~= v@.take(i as int));
        let u = v[i] as u32;
        let w: u128 = if u < 0x80 {
            1
        } else if u < 0x800 {
            2
        } else if u < 0x10000 {
            3
        } else {
            4
        };
        total = total + w;
        i += 1;
    }
    assert(v@.take(v.len() as int) =~= v@);
    total
}

/// The date headers of a document, for code lenses and inlay hints.
pub fn dated_lines(content: &str) -> (r: Vec<DatedLine>)
    ensures
        r@.map_values(|d: DatedLine| dated_view(d)) == dated_lines_spec(content@),
{
    let c = chars_of(content);
    let ls = lines_of(&c);
    let ghost all = lines(content@);
    let mut r: Vec<DatedLine> = Vec::new();
    let mut i: usize = 0;
    while i < ls.len()
        invariant
            i <= ls.len(),
            views(ls@) == all,
            all == lines(content@),
            r@.map_values(|d: DatedLine| dated_view(d)) == dated_lines_upto(all, i as int),
        decreases ls.len() - i,
    {
        assert(all[i as int] == ls@[i as int]@);
        let l = &ls[i];
        let ghost before = r@.map_values(|d: DatedLine| dated_view(d));
        if is_date_line_chars(l) {
            let t = crate::text::trim_start_chars(l);
            let toks = crate::text::tokens_of(&t);
            if toks.len() > 0 {
                let d = date_token_chars(l);
                let n = byte_len_exec(&d);
                if n >= 10 {
                    let lens_line = if i + 1 < ls.len() {
                        i + 1
                    } else {
                        i
                    };
                    let end = byte_len_exec(l);
                    r.push(DatedLine { line: i, date: string_of(&d), lens_line, end });
                    assert(r@.map_values(|d: DatedLine| dated_view(d)) =~= before.push(
                        (i as int, d@, lens_line as int, end as int),
                    ));
                }
            }
        }
        i += 1;
    }
    r
}

// ---------------------------------------------------------------------------
// The Zed extension's launch command
// ---------------------------------------------------------------------------

/// How the editor starts the language server.
pub struct LaunchCommand {
    pub command: String,
    pub args: Vec<String>,
    pub env: Vec<(String, String)>,
}

/// Launches the `klog-lsp` found on the worktree's path with no arguments
/// and no extra environment; without one, reports how to install it.
pub fn language_server_command(found: Option<String>) -> (r: Result<LaunchCommand, String>)
    ensures
        match (found, r) {
            (Some(p), Ok(c)) => c.command@ == p@ && c.args@.len() == 0 && c.env@.len() == 0,
            (None, Err(e)) => e@
                == "klog-lsp binary not found. Please run `cargo install --path .` in the extension directory."@,
            _ => false,
        },
{
    match found {
        Some(path) => Ok(LaunchCommand { command: path, args: Vec::new(), env: Vec::new() }),
        None => Err(
            String::from_str(
                "klog-lsp binary not found. Please run `cargo install --path .` in the extension directory.",
            ),
        ),
    }
}

} // verus!

verus! {

// ---------------------------------------------------------------------------
// Dispatch
// ---------------------------------------------------------------------------

/// What a request asks the server for.
#[derive(PartialEq, Eq, Structural, Clone, Copy, Debug)]
pub enum RequestKind {
    Initialize,
    Shutdown,
    Hover,
    CodeLens,
    InlayHint,
    Completion,
    /// Answered with the `MethodNotFound` error.
    Unknown,
}

/// What a notification tells the server.
#[derive(PartialEq, Eq, Structural, Clone, Copy, Debug)]
pub enum NotificationKind {
    Exit,
    ChangeConfiguration,
    DidOpen,
    DidChange,
    DidClose,
    /// Ignored.
    Unknown,
}

/// The JSON-RPC error code of a request whose method the server does not
/// handle.
pub const METHOD_NOT_FOUND: i32 = -32601;

pub open spec fn request_kind(method: Seq<char>) -> RequestKind {
    if method == "initialize"@ {
        RequestKind::Initialize
    } else if method == "shutdown"@ {
        RequestKind::Shutdown
    } else if method == "textDocument/hover"@ {
        RequestKind::Hover
    } else if method == "textDocument/codeLens"@ {
        RequestKind::CodeLens
    } else if method == "textDocument/inlayHint"@ {
        RequestKind::InlayHint
    } else if method == "textDocument/completion"@ {
        RequestKind::Completion
    } else {
        RequestKind::Unknown
    }
}

pub open spec fn notification_kind(method: Seq<char>) -> NotificationKind {
    if method == "exit"@ {
        NotificationKind::Exit
    } else if method == "workspace/didChangeConfiguration"@ {
        NotificationKind::ChangeConfiguration
    } else if method == "textDocument/didOpen"@ {
        NotificationKind::DidOpen
    } else if method == "textDocument/didChange"@ {
        NotificationKind::DidChange
    } else if method == "textDocument/didClose"@ {
        NotificationKind::DidClose
    } else {
        NotificationKind::Unknown
    }
}

fn is_method(m: &Vec<char>, name: &str) -> (b: bool)
    ensures
        b == (m@ == name@),
{
    let n = chars_of(name);
    crate::text::eq_chars(m, &n)
}

/// The request a method name stands for.
pub fn classify_request(method: &str) -> (r: RequestKind)
    ensures
        r == request_kind(method@),
{
    let m = chars_of(method);
    if is_method(&m, "initialize") {
        RequestKind::Initialize
    } else if is_method(&m, "shutdown") {
        RequestKind::Shutdown
    } else if is_method(&m, "textDocument/hover") {
        RequestKind::Hover
    } else if is_method(&m, "textDocument/codeLens") {
        RequestKind::CodeLens
    } else if is_method(&m, "textDocument/inlayHint") {
        RequestKind::InlayHint
    } else if is_method(&m, "textDocument/completion") {
        RequestKind::Completion
    } else {
        RequestKind::Unknown
    }
}

/// The notification a method name stands for.
pub fn classify_notification(method: &str) -> (r: NotificationKind)
    ensures
        r == notification_kind(method@),
{
    let m = chars_of(method);
    if is_method(&m, "exit") {
        NotificationKind::Exit
    } else if is_method(&m, "workspace/didChangeConfiguration") {
        NotificationKind::ChangeConfiguration
    } else if is_method(&m, "textDocument/didOpen") {
        NotificationKind::DidOpen
    } else if is_method(&m, "textDocument/didChange") {
        NotificationKind::DidChange
    } else if is_method(&m, "textDocument/didClose") {
        NotificationKind::DidClose
    } else {
        NotificationKind::Unknown
    }
}

} // verus!
