//! Connection details, transfer totals and the per-request decisions of the
//! download and upload endpoints.
use vstd::prelude::*;
use crate::route::Reply;
use crate::text::{chars_of, has_char, decimal, push_char, push_decimal};
use crate::url::{
    is_plain_filename, resolve_within, spec_is_plain_filename, spec_resolve_within, string_views,
};

verus! {

broadcast use vstd::string::group_string_axioms;

/// Details about a running server, handed to the caller once it is bound and
/// listening, so that it can tell the user how to connect.
#[derive(Debug, Clone)]
pub struct ServerInfo {
    /// The shared directory, as the file system names it.
    pub dir: String,
    /// Port the server is listening on.
    pub port: u16,
    /// Best-guess LAN IP address of this host, in text form, if one could be determined.
    pub lan_ip: Option<String>,
}

/// The URL for a server on `port` whose host is reached as `lan_ip`; an
/// address holding `:` (IPv6) is written in brackets.
pub open spec fn spec_server_url(lan_ip: Option<Seq<char>>, port: u16) -> Seq<char> {
    let host = match lan_ip {
        Some(ip) => if ip.contains(':') {
            seq!['['] + ip + seq![']']
        } else {
            ip
        },
        None => "localhost"@,
    };
    "http://"@ + host + ":"@ + decimal(port as nat) + "/"@
}

impl ServerInfo {
    /// The URL another device on the same network should open. Falls back to
    /// `localhost` when no LAN IP could be determined; an IPv6 address is put
    /// in brackets.
    pub fn url(&self) -> (r: String)
        ensures
            r@ == spec_server_url(
                match self.lan_ip {
                    Some(ip) => Some(ip@),
                    None => None,
                },
                self.port,
            ),
    {
        let mut r = "http://".to_owned();
        match &self.lan_ip {
            Some(ip) => {
                if has_char(ip.as_str(), ':') {
                    push_char(&mut r, '[');
                    r.append(ip.as_str());
                    push_char(&mut r, ']');
                } else {
                    r.append(ip.as_str());
                }
            },
            None => r.append("localhost"),
        }
        r.append(":");
        push_decimal(&mut r, self.port as u64);
        r.append("/");
        r
    }
}

/// Running totals for a server.
pub struct Stats {
    bytes: u64,
}

impl View for Stats {
    type V = u64;

    closed spec fn view(&self) -> u64 {
        self.bytes
    }
}

/// `a + b` wrapping around at 2^64, as an atomic counter adds.
pub open spec fn wrapping_sum(a: u64, b: u64) -> u64 {
    if a + b > u64::MAX {
        (a + b - u64::MAX - 1) as u64
    } else {
        (a + b) as u64
    }
}

impl Stats {
    /// No bytes transferred yet.
    pub fn new() -> (r: Stats)
        ensures
            r@ == 0,
    {
        Stats { bytes: 0 }
    }

    /// Counts `n` more bytes transferred (uploads and downloads alike).
    pub fn record(&mut self, n: u64)
        ensures
            final(self)@ == wrapping_sum(old(self)@, n),
    {
        self.bytes = self.bytes.wrapping_add(n);
    }

    /// Total bytes transferred since the server started.
    pub fn bytes_transferred(&self) -> (r: u64)
        ensures
            r == self@,
    {
        self.bytes
    }
}

impl Default for Stats {
    fn default() -> (r: Stats)
        ensures
            r@ == 0,
    {
        Stats::new()
    }
}

// ---------------------------------------------------------------------------
// Downloads
// ---------------------------------------------------------------------------

/// `s` without double quotes.
pub open spec fn without_quotes(s: Seq<char>) -> Seq<char>
    decreases s.len(),
{
    if s.len() == 0 {
        s
    } else if s.last() == '"' {
        without_quotes(s.drop_last())
    } else {
        without_quotes(s.drop_last()).push(s.last())
    }
}

/// The `Content-Disposition` value for a download of a file named `file_name`
/// (`download` when the path has no file name).
pub open spec fn spec_content_disposition(file_name: Option<Seq<char>>) -> Seq<char> {
    let name = match file_name {
        Some(n) => without_quotes(n),
        None => "download"@,
    };
    "attachment; filename=\""@ + name + "\""@
}

/// The `Content-Disposition` value for a download: an attachment named after
/// the file, with any double quotes dropped from the name.
pub fn content_disposition(file_name: Option<&str>) -> (r: String)
    ensures
        r@ == spec_content_disposition(
            match file_name {
                Some(n) => Some(n@),
                None => None,
            },
        ),
{
    let mut r = "attachment; filename=\"".to_owned();
    match file_name {
        Some(n) => {
            let v = chars_of(n);
            let ghost head = r@;
            let mut i: usize = 0;
            while i < v.len()
                invariant
                    v@ == n@,
                    i <= v@.len(),
                    r@ == head + without_quotes(v@.take(i as int)),
                decreases v@.len() - i,
            {
                assert(v@.take(i + 1).drop_last() =~= v@.take(i as int));
                if v[i] != '"' {
                    push_char(&mut r, v[i]);
                    assert(r@ =~= head + without_quotes(v@.take(i + 1)));
                }
                i = i + 1;
            }
            assert(v@.take(i as int) =~= n@);
        },
        None => {
            r.append("download");
        },
    }
    r.append("\"");
    r
}

/// Keeps every character but the double quote.
pub open spec fn not_quote(c: char) -> bool {
    c != '"'
}

proof fn lemma_without_quotes_is_filter(s: Seq<char>)
    ensures
        without_quotes(s) == s.filter(|c: char| not_quote(c)),
    decreases s.len(),
{
    reveal(Seq::filter);
    if s.len() > 0 {
        lemma_without_quotes_is_filter(s.drop_last());
    }
}

proof fn lemma_filter_keeps_all(s: Seq<char>)
    requires
        !s.contains('"'),
    ensures
        s.filter(|c: char| not_quote(c)) == s,
    decreases s.len(),
{
    reveal(Seq::filter);
    if s.len() > 0 {
        assert(!s.drop_last().contains('"')) by {
            if s.drop_last().contains('"') {
                let k = choose|k: int| 0 <= k < s.drop_last().len() && s.drop_last()[k] == '"';
                assert(s[k] == '"');
            }
        }
        lemma_filter_keeps_all(s.drop_last());
        assert(s[s.len() - 1] != '"') by {
            if s[s.len() - 1] == '"' {
                assert(s.contains(s[s.len() - 1]));
            }
        }
        assert(s.drop_last().push(s.last()) =~= s);
    }
}

/// A download is named after the file with only its double quotes dropped: a
/// name without quotes stands unchanged, and a file that opens is sent under
/// that name.
pub proof fn law_disposition_drops_only_quotes(rel: Seq<char>, name: Seq<char>)
    ensures
        spec_content_disposition(Some(name)) == "attachment; filename=\""@ + name.filter(
            |c: char| not_quote(c),
        ) + "\""@,
        !name.contains('"') ==> spec_content_disposition(Some(name)) == "attachment; filename=\""@
            + name + "\""@,
        spec_resolve_within(rel) is Some ==> spec_download_answer(
            rel,
            Some(FileCheck::Ready),
            Some(name),
        ) == (DownloadAnswerView::Send {
            disposition: "attachment; filename=\""@ + name.filter(|c: char| not_quote(c)) + "\""@,
        }),
{
    lemma_without_quotes_is_filter(name);
    if !name.contains('"') {
        lemma_filter_keeps_all(name);
    }
}

/// An upload is accepted exactly when its name is one plain path component
/// (not empty, no `/` or `\`, not `.` or `..`, no drive prefix such as `C:`)
/// and its folder stays inside the root; it then goes, under that very name,
/// into the folder's components. A missing or unfit name is refused first,
/// then a folder that would leave the root.
pub proof fn law_upload_accepts_plain_names(rel_dir: Seq<char>, name: Option<Seq<char>>)
    ensures
        ({
            let fit = match name {
                Some(n) => n.len() > 0 && !n.contains('/') && !n.contains('\\') && n != seq!['.']
                    && n != seq!['.', '.'] && !(n.len() >= 2 && (('a' <= n[0] && n[0] <= 'z') || (
                'A' <= n[0] && n[0] <= 'Z')) && n[1] == ':'),
                None => false,
            };
            let plan = spec_plan_upload(rel_dir, name);
            &&& fit && spec_resolve_within(rel_dir) is Some ==> (plan matches Ok(t) && t == (
                spec_resolve_within(rel_dir)->0,
                name->0,
            ))
            &&& !fit ==> (plan matches Err(e) && e == UploadRefusal::BadName)
            &&& fit && spec_resolve_within(rel_dir) is None ==> (plan matches Err(e) && e
                == UploadRefusal::BadPath)
        }),
{
}

/// What the file system said about the file that a download names, in the
/// order the server looks: whether it is a regular file, then whether it opens.
#[derive(PartialEq, Eq, Structural, Clone, Copy, Debug)]
pub enum FileCheck {
    /// Missing, or not a regular file.
    NotAFile,
    /// A regular file that could not be opened.
    OpenFailed,
    /// A regular file, opened for reading.
    Ready,
}

/// How a download is answered.
#[derive(Debug)]
pub enum DownloadAnswer {
    /// A short plain-text answer with its status.
    Refuse(Reply),
    /// Status 200 with the file as an attachment under this `Content-Disposition`.
    Send { disposition: String },
}

/// What a [`DownloadAnswer`] says.
pub enum DownloadAnswerView {
    Refuse(Reply),
    Send { disposition: Seq<char> },
}

impl View for DownloadAnswer {
    type V = DownloadAnswerView;

    open spec fn view(&self) -> DownloadAnswerView {
        match self {
            DownloadAnswer::Refuse(r) => DownloadAnswerView::Refuse(*r),
            DownloadAnswer::Send { disposition } => DownloadAnswerView::Send {
                disposition: disposition@,
            },
        }
    }
}

/// The answer to a download of `rel`: 400 for a path that would leave the
/// root, 404 when it names no regular file (or was not looked up), 500 when
/// the file does not open, and the file itself otherwise.
pub open spec fn spec_download_answer(
    rel: Seq<char>,
    check: Option<FileCheck>,
    file_name: Option<Seq<char>>,
) -> DownloadAnswerView {
    if spec_resolve_within(rel) is None {
        DownloadAnswerView::Refuse(Reply::BadPath)
    } else {
        match check {
            Some(FileCheck::Ready) => DownloadAnswerView::Send {
                disposition: spec_content_disposition(file_name),
            },
            Some(FileCheck::OpenFailed) => DownloadAnswerView::Refuse(Reply::ReadError),
            _ => DownloadAnswerView::Refuse(Reply::NotFound),
        }
    }
}

/// Decides how to answer a download of `rel`, from what the file system said
/// about the file (`None` when it was not looked up) and the file's name.
pub fn download_answer(rel: &str, check: Option<FileCheck>, file_name: Option<&str>) -> (r:
    DownloadAnswer)
    ensures
        r@ == spec_download_answer(
            rel@,
            check,
            match file_name {
                Some(n) => Some(n@),
                None => None,
            },
        ),
{
    if resolve_within(rel).is_none() {
        return DownloadAnswer::Refuse(Reply::BadPath);
    }
    match check {
        Some(FileCheck::Ready) => DownloadAnswer::Send { disposition: content_disposition(file_name) },
        Some(FileCheck::OpenFailed) => DownloadAnswer::Refuse(Reply::ReadError),
        _ => DownloadAnswer::Refuse(Reply::NotFound),
    }
}

// ---------------------------------------------------------------------------
// Uploads
// ---------------------------------------------------------------------------

/// Why an upload is refused (both are answered with status 400).
#[derive(PartialEq, Eq, Structural, Clone, Copy, Debug)]
pub enum UploadRefusal {
    /// The `name` parameter is missing or is not a plain file name.
    BadName,
    /// The `path` parameter would leave the shared root.
    BadPath,
}

impl UploadRefusal {
    /// The answer to send for this refusal.
    pub fn reply(&self) -> (r: Reply)
        ensures
            r == match self {
                UploadRefusal::BadName => Reply::BadName,
                UploadRefusal::BadPath => Reply::BadPath,
            },
    {
        match self {
            UploadRefusal::BadName => Reply::BadName,
            UploadRefusal::BadPath => Reply::BadPath,
        }
    }
}

/// Where an accepted upload goes: the folder (as components below the shared
/// root) and the file name inside it.
#[derive(Debug)]
pub struct UploadTarget {
    pub folder: Vec<String>,
    pub name: String,
}

/// The decision on an upload of `name` into the folder `rel_dir`: the name is
/// checked first, then the folder.
pub open spec fn spec_plan_upload(rel_dir: Seq<char>, name: Option<Seq<char>>) -> Result<
    (Seq<Seq<char>>, Seq<char>),
    UploadRefusal,
> {
    match name {
        Some(n) => if !spec_is_plain_filename(n) {
            Err(UploadRefusal::BadName)
        } else {
            match spec_resolve_within(rel_dir) {
                Some(folder) => Ok((folder, n)),
                None => Err(UploadRefusal::BadPath),
            }
        },
        None => Err(UploadRefusal::BadName),
    }
}

/// Decides where an upload of `name` into `rel_dir` goes, or why it is refused.
pub fn plan_upload(rel_dir: &str, name: Option<&str>) -> (r: Result<UploadTarget, UploadRefusal>)
    ensures
        match r {
            Ok(t) => spec_plan_upload(
                rel_dir@,
                match name {
                    Some(n) => Some(n@),
                    None => None,
                },
            ) == Ok::<(Seq<Seq<char>>, Seq<char>), UploadRefusal>((string_views(t.folder@), t.name@)),
            Err(e) => spec_plan_upload(
                rel_dir@,
                match name {
                    Some(n) => Some(n@),
                    None => None,
                },
            ) == Err::<(Seq<Seq<char>>, Seq<char>), UploadRefusal>(e),
        },
{
    match name {
        Some(n) => {
            if !is_plain_filename(n) {
                return Err(UploadRefusal::BadName);
            }
            match resolve_within(rel_dir) {
                Some(folder) => Ok(UploadTarget { folder, name: n.to_owned() }),
                None => Err(UploadRefusal::BadPath),
            }
        },
        None => Err(UploadRefusal::BadName),
    }
}

} // verus!
