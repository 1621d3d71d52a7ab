//! The document-store protocol client's decision logic: URL construction,
//! the Basic-auth header, status classification, the listing scrape and the
//! listing projection.
//!
//! The client value is immutable after construction; the network transport
//! that carries its requests lives outside the library and hands statuses
//! and bodies back to the functions here.

use base64::Engine;
use vstd::prelude::*;
use vstd::string::*;
use crate::chars::{
    chars_of, copy_range, extend_str, string_of_chars, trim_bounds, trim_ws,
};
use crate::error::AppError;
use crate::markdown::{ascii_lower, generate_markdown, lower_char, render_spec};
use crate::models::{fix_note_type_spec, metadata_of, Note, NoteMetadata, NoteMetadataV};
use crate::timestamp::{digit_char, is_digit_char};

verus! {

/// Replaces a character a filename cannot hold with an underscore.
pub open spec fn sanitize_char(c: char) -> char {
    if c == '/' || c == '\\' || c == ':' || c == '*' || c == '?' || c == '"' || c == '<' || c
        == '>' || c == '|' {
        '_'
    } else {
        c
    }
}

/// The filename a title maps to: forbidden characters replaced, then the
/// surrounding whitespace dropped.  Save and delete both address the mirror
/// document through this.
pub open spec fn sanitize_spec(title: Seq<char>) -> Seq<char> {
    trim_ws(title.map_values(|c: char| sanitize_char(c)))
}

/// Maps a note title to the filename its mirror document is stored under.
pub fn sanitize_filename(title: &str) -> (r: String)
    ensures
        r@ == sanitize_spec(title@),
{
    let cs = chars_of(title);
    let mut v: Vec<char> = Vec::new();
    let mut i: usize = 0;
    while i < cs.len()
        invariant
            cs@ == title@,
            i <= cs@.len(),
            v@.len() == i,
            forall|k: int| 0 <= k < i ==> #[trigger] v@[k] == sanitize_char(title@[k]),
        decreases cs@.len() - i,
    {
        let c = cs[i];
        if c == '/' || c == '\\' || c == ':' || c == '*' || c == '?' || c == '"' || c == '<' || c
            == '>' || c == '|' {
            v.push('_');
        } else {
            v.push(c);
        }
        i = i + 1;
    }
    proof {
        assert(v@ =~= title@.map_values(|c: char| sanitize_char(c)));
    }
    let tb = trim_bounds(&v, 0, v.len());
    let out = copy_range(&v, tb.0, tb.1);
    proof {
        assert(v@.subrange(0, v@.len() as int) =~= v@);
    }
    string_of_chars(&out)
}

/// The rendering of what a standard base64 encoder returns for the UTF-8
/// bytes of a string.
pub uninterp spec fn base64_std(s: Seq<char>) -> Seq<char>;

/// Relies on `base64::engine::general_purpose::STANDARD.encode`: the
/// standard padded base64 alphabet applied to the string's UTF-8 bytes, a
/// function of the input alone.
#[verifier::external_body]
fn base64_encode(s: &str) -> (r: String)
    ensures
        r@ == base64_std(s@),
{
    base64::engine::general_purpose::STANDARD.encode(s)
}

/// The percent-decoding of a listing body: the decoded text where the body
/// decodes as UTF-8, the body itself where it does not; a function of the
/// input alone.
pub uninterp spec fn percent_decoded(s: Seq<char>) -> Seq<char>;

/// Relies on `urlencoding::decode`: percent-decoding with the input kept
/// as-is when the decoded bytes are not UTF-8.
#[verifier::external_body]
fn percent_decode_or_raw(s: &str) -> (r: String)
    ensures
        r@ == percent_decoded(s@),
{
    match urlencoding::decode(s) {
        Ok(c) => c.into_owned(),
        Err(_) => s.to_string(),
    }
}

/// Drops every trailing slash of a base URL.
pub open spec fn trim_trailing_slashes(s: Seq<char>) -> Seq<char>
    decreases s.len(),
{
    if s.len() > 0 && s.last() == '/' {
        trim_trailing_slashes(s.drop_last())
    } else {
        s
    }
}

proof fn lemma_trim_trailing_slashes(s: Seq<char>, e: int)
    requires
        0 <= e <= s.len(),
        forall|j: int| e <= j < s.len() ==> s[j] == '/',
        e == 0 || s[e - 1] != '/',
    ensures
        trim_trailing_slashes(s) == s.take(e),
    decreases s.len(),
{
    if e == s.len() {
        if s.len() > 0 && s.last() == '/' {
            assert(false);
        }
        assert(s.take(e) =~= s);
    } else {
        assert(s[s.len() - 1] == '/');
        lemma_trim_trailing_slashes(s.drop_last(), e);
        assert(s.drop_last().take(e) =~= s.take(e));
    }
}

/// The configured protocol client: where the store lives and how requests
/// authenticate.  Immutable after construction; safe to share.
#[derive(Debug, Clone)]
pub struct WebDavClient {
    /// The server base URL, trailing slashes stripped.
    pub base_url: String,
    /// The precomputed `Basic` authorization header value.
    pub auth_header: String,
}

impl WebDavClient {
    /// Configures a client for the given server and account.
    pub fn new(url: &str, username: &str, password: &str) -> (r: Self)
        ensures
            r.base_url@ == trim_trailing_slashes(url@),
            r.auth_header@ == "Basic "@ + base64_std(username@ + ":"@ + password@),
    {
        let cs = chars_of(url);
        let mut e: usize = cs.len();
        while e > 0 && cs[e - 1] == '/'
            invariant
                cs@ == url@,
                e <= cs@.len(),
                forall|j: int| e <= j < cs@.len() ==> url@[j] == '/',
            decreases e,
        {
            e = e - 1;
        }
        proof {
            lemma_trim_trailing_slashes(url@, e as int);
        }
        let base = copy_range(&cs, 0, e);
        let base_url = string_of_chars(&base);
        proof {
            assert(url@.subrange(0, e as int) =~= url@.take(e as int));
        }
        let auth = String::from_str(username).concat(":").concat(password);
        let encoded = base64_encode(auth.as_str());
        let auth_header = String::from_str("Basic ").concat(encoded.as_str());
        WebDavClient { base_url, auth_header }
    }

    /// The URL of the canonical-document directory.
    pub fn notes_dir_url(&self) -> (r: String)
        ensures
            r@ == self.base_url@ + "/notes/"@,
    {
        let mut v = chars_of(self.base_url.as_str());
        extend_str(&mut v, "/notes/");
        string_of_chars(&v)
    }

    /// The URL of the mirror-document directory.
    pub fn notes_md_dir_url(&self) -> (r: String)
        ensures
            r@ == self.base_url@ + "/notes-md/"@,
    {
        let mut v = chars_of(self.base_url.as_str());
        extend_str(&mut v, "/notes-md/");
        string_of_chars(&v)
    }

    /// The URL of a note's canonical JSON document.
    pub fn note_json_url(&self, id: &str) -> (r: String)
        ensures
            r@ == self.base_url@ + "/notes/"@ + id@ + ".json"@,
    {
        let mut v = chars_of(self.base_url.as_str());
        extend_str(&mut v, "/notes/");
        extend_str(&mut v, id);
        extend_str(&mut v, ".json");
        string_of_chars(&v)
    }

    /// The URL of a note's mirror document, under its sanitized title.
    pub fn note_md_url(&self, title: &str) -> (r: String)
        ensures
            r@ == self.base_url@ + "/notes-md/"@ + sanitize_spec(title@) + ".md"@,
    {
        let safe = sanitize_filename(title);
        let mut v = chars_of(self.base_url.as_str());
        extend_str(&mut v, "/notes-md/");
        extend_str(&mut v, safe.as_str());
        extend_str(&mut v, ".md");
        string_of_chars(&v)
    }

    /// The mirror document a note saves to: its URL and its rendered text.
    pub fn mirror_document(&self, note: &Note) -> (r: (String, String))
        ensures
            r.0@ == self.base_url@ + "/notes-md/"@ + sanitize_spec(note.title@) + ".md"@,
            r.1@ == render_spec(note@),
    {
        let url = self.note_md_url(note.title.as_str());
        let text = generate_markdown(note);
        (url, text)
    }
}

/// The XML body of the depth-1 listing query: it asks the server for each
/// entry's display name and content type.
pub fn propfind_list_body() -> (r: String)
    ensures
        r@
            == "<?xml version=\"1.0\" encoding=\"utf-8\"?>\n<d:propfind xmlns:d=\"DAV:\">\n  <d:prop>\n    <d:displayname/>\n    <d:getcontenttype/>\n  </d:prop>\n</d:propfind>"@,
{
    String::from_str(
        "<?xml version=\"1.0\" encoding=\"utf-8\"?>\n<d:propfind xmlns:d=\"DAV:\">\n  <d:prop>\n    <d:displayname/>\n    <d:getcontenttype/>\n  </d:prop>\n</d:propfind>",
    )
}

/// The decimal rendering of a nonnegative number.
pub open spec fn dec_digits(n: int) -> Seq<char>
    decreases n,
{
    if n < 10 {
        seq![digit_char(n)]
    } else {
        dec_digits(n / 10).push(digit_char(n % 10))
    }
}

/// Appends the decimal rendering of `n`.
fn push_dec_u16(buf: &mut Vec<char>, n: u16)
    ensures
        final(buf)@ == old(buf)@ + dec_digits(n as int),
    decreases n,
{
    if n < 10 {
        buf.push(crate::timestamp::digit_char_x(n as i64));
        proof {
            assert(final(buf)@ =~= old(buf)@ + dec_digits(n as int));
        }
    } else {
        push_dec_u16(buf, n / 10);
        buf.push(crate::timestamp::digit_char_x((n % 10) as i64));
        proof {
            assert(final(buf)@ =~= old(buf)@ + dec_digits(n as int));
        }
    }
}

/// Builds `prefix` followed by the decimal rendering of `status`.
fn status_message(prefix: &str, status: u16) -> (r: String)
    ensures
        r@ == prefix@ + dec_digits(status as int),
{
    let mut v = chars_of(prefix);
    push_dec_u16(&mut v, status);
    string_of_chars(&v)
}

/// What the connection probe's status decides.
#[derive(Debug)]
pub enum ProbeOutcome {
    /// The notes directory answered: the connection stands.
    Connected,
    /// The directory is missing: create both directories, then report
    /// success (first-run bootstrap).
    NeedsBootstrap,
    /// The server rejected the credentials.
    BadCredentials,
    /// Any other status: the probe failed.
    Failed(AppError),
}

/// Classifies the status of the existence probe against the notes
/// directory.
pub fn classify_probe(status: u16) -> (r: ProbeOutcome)
    ensures
        (status == 200 || status == 207) ==> r is Connected,
        (status == 401 || status == 403) ==> r is BadCredentials,
        status == 404 ==> r is NeedsBootstrap,
        !(status == 200 || status == 207 || status == 401 || status == 403 || status == 404)
            ==> (r matches ProbeOutcome::Failed(e) && (e matches AppError::WebDav(m) && m@
            == "Connection test failed: "@ + dec_digits(status as int))),
{
    if status == 200 || status == 207 {
        ProbeOutcome::Connected
    } else if status == 401 || status == 403 {
        ProbeOutcome::BadCredentials
    } else if status == 404 {
        ProbeOutcome::NeedsBootstrap
    } else {
        ProbeOutcome::Failed(AppError::WebDav(status_message("Connection test failed: ", status)))
    }
}

/// Whether a listing response status lets the listing proceed: success or
/// Multi-Status.
pub fn classify_listing(status: u16) -> (r: Result<(), AppError>)
    ensures
        (200 <= status < 300 || status == 207) <==> r is Ok,
        !(200 <= status < 300 || status == 207) ==> (r matches Err(e) && (e
            matches AppError::WebDav(m) && m@ == "PROPFIND failed: "@ + dec_digits(
            status as int,
        ))),
{
    if (200 <= status && status < 300) || status == 207 {
        Ok(())
    } else {
        Err(AppError::WebDav(status_message("PROPFIND failed: ", status)))
    }
}

/// Settles a fetched note: a found document is parsed elsewhere and handed
/// in, then normalized; a missing one is the note-not-found error; any
/// other status is a protocol error.
pub fn fetch_outcome(status: u16, id: &str, parsed: Option<Note>, parse_detail: &str) -> (r:
    Result<Note, AppError>)
    ensures
        status == 200 ==> (match parsed {
            Some(n0) => r matches Ok(n) && n@ == fix_note_type_spec(n0@),
            None => r matches Err(e) && (e matches AppError::ParseError(d) && d@
                == parse_detail@),
        }),
        status == 404 ==> (r matches Err(e) && (e matches AppError::NoteNotFound(i) && i@
            == id@)),
        !(status == 200 || status == 404) ==> (r matches Err(e) && (e
            matches AppError::WebDav(m) && m@ == "GET failed: "@ + dec_digits(status as int))),
{
    if status == 200 {
        match parsed {
            Some(mut n) => {
                n.fix_note_type();
                Ok(n)
            },
            None => Err(AppError::ParseError(String::from_str(parse_detail))),
        }
    } else if status == 404 {
        Err(AppError::NoteNotFound(String::from_str(id)))
    } else {
        Err(AppError::WebDav(status_message("GET failed: ", status)))
    }
}

/// Settles the canonical JSON write: a non-success status is fatal to the
/// save and carries the status and the response body.
pub fn save_json_outcome(status: u16, error_body: &str) -> (r: Result<(), AppError>)
    ensures
        (200 <= status < 300) <==> r is Ok,
        !(200 <= status < 300) ==> (r matches Err(e) && (e matches AppError::WebDav(m) && m@
            == "PUT JSON failed: "@ + dec_digits(status as int) + " - "@ + error_body@)),
{
    if 200 <= status && status < 300 {
        Ok(())
    } else {
        let mut v = chars_of("PUT JSON failed: ");
        push_dec_u16(&mut v, status);
        extend_str(&mut v, " - ");
        extend_str(&mut v, error_body);
        Err(AppError::WebDav(string_of_chars(&v)))
    }
}

/// Whether `c` is a hexadecimal digit of either case.
pub open spec fn is_hex_char(c: char) -> bool {
    is_digit_char(c) || (97 <= (c as int) && (c as int) <= 102) || (65 <= (c as int) && (c as int)
        <= 70)
}

/// Whether a 8-4-4-4-12 hexadecimal identifier stands at position `i`.
pub open spec fn uuid_at(s: Seq<char>, i: int) -> bool {
    &&& forall|j: int|
        0 <= j < 36 && j != 8 && j != 13 && j != 18 && j != 23 ==> is_hex_char(#[trigger] s[i + j])
    &&& s[i + 8] == '-' && s[i + 13] == '-' && s[i + 18] == '-' && s[i + 23] == '-'
}

/// Whether an identifier immediately followed by the `.json` suffix stands
/// at position `i`.
pub open spec fn uuid_json_at(s: Seq<char>, i: int) -> bool {
    &&& 0 <= i && i + 41 <= s.len()
    &&& uuid_at(s, i)
    &&& s[i + 36] == '.' && s[i + 37] == 'j' && s[i + 38] == 's' && s[i + 39] == 'o' && s[i + 40]
        == 'n'
}

/// The identifiers matched from position `i` on, left to right and without
/// overlap, each lower-cased.
pub open spec fn scan_ids(s: Seq<char>, i: int) -> Seq<Seq<char>>
    decreases s.len() - i,
{
    if i < 0 || i + 41 > s.len() {
        Seq::empty()
    } else if uuid_json_at(s, i) {
        seq![ascii_lower(s.subrange(i, i + 36))] + scan_ids(s, i + 41)
    } else {
        scan_ids(s, i + 1)
    }
}

/// Appends each of `xs` to `acc`, skipping what `acc` already holds.
pub open spec fn dedup_append(acc: Seq<Seq<char>>, xs: Seq<Seq<char>>) -> Seq<Seq<char>>
    decreases xs.len(),
{
    if xs.len() == 0 {
        acc
    } else if acc.contains(xs[0]) {
        dedup_append(acc, xs.drop_first())
    } else {
        dedup_append(acc.push(xs[0]), xs.drop_first())
    }
}

/// The identifiers a listing body yields: the percent-decoded text scanned
/// first, then the raw text, deduplicated in first-seen order.
pub open spec fn list_ids_spec(body: Seq<char>) -> Seq<Seq<char>> {
    dedup_append(
        dedup_append(Seq::empty(), scan_ids(percent_decoded(body), 0)),
        scan_ids(body, 0),
    )
}

/// The views of a vector of strings.
pub open spec fn strs_view(v: Seq<String>) -> Seq<Seq<char>> {
    v.map_values(|s: String| s@)
}

proof fn lemma_dedup_append_cons(acc: Seq<Seq<char>>, x: Seq<char>, xs: Seq<Seq<char>>)
    ensures
        dedup_append(acc, seq![x] + xs) == (if acc.contains(x) {
            dedup_append(acc, xs)
        } else {
            dedup_append(acc.push(x), xs)
        }),
{
    assert((seq![x] + xs)[0] == x);
    assert((seq![x] + xs).drop_first() =~= xs);
}

/// Whether a sequence holds no element twice.
pub open spec fn distinct_seqs(v: Seq<Seq<char>>) -> bool {
    forall|i: int, j: int| 0 <= i < j < v.len() ==> v[i] != v[j]
}

proof fn lemma_dedup_append_distinct(acc: Seq<Seq<char>>, xs: Seq<Seq<char>>)
    requires
        distinct_seqs(acc),
    ensures
        distinct_seqs(dedup_append(acc, xs)),
        forall|x: Seq<char>|
            #[trigger] dedup_append(acc, xs).contains(x) <==> acc.contains(x) || xs.contains(x),
    decreases xs.len(),
{
    if xs.len() == 0 {
        assert forall|x: Seq<char>| #[trigger] dedup_append(acc, xs).contains(x) implies
        acc.contains(x) || xs.contains(x) by {}
        assert forall|x: Seq<char>| acc.contains(x) || xs.contains(x) implies #[trigger]
        dedup_append(acc, xs).contains(x) by {}
    } else {
        let x0 = xs[0];
        let rest = xs.drop_first();
        if acc.contains(x0) {
            lemma_dedup_append_distinct(acc, rest);
            assert forall|x: Seq<char>| acc.contains(x) || xs.contains(x) implies #[trigger]
            dedup_append(acc, xs).contains(x) by {
                if xs.contains(x) {
                    let k = choose|k: int| 0 <= k < xs.len() && xs[k] == x;
                    if k == 0 {
                        assert(acc.contains(x));
                    } else {
                        assert(rest[k - 1] == x);
                        assert(rest.contains(x));
                    }
                }
            }
            assert forall|x: Seq<char>| #[trigger] dedup_append(acc, xs).contains(x) implies
            acc.contains(x) || xs.contains(x) by {
                if rest.contains(x) {
                    let k = choose|k: int| 0 <= k < rest.len() && rest[k] == x;
                    assert(xs[k + 1] == x);
                }
            }
        } else {
            let acc2 = acc.push(x0);
            assert forall|i: int, j: int| 0 <= i < j < acc2.len() implies acc2[i] != acc2[j] by {
                if j == acc2.len() - 1 {
                    assert(acc2[j] == x0);
                    assert(acc2[i] == acc[i]);
                    if acc[i] == x0 {
                        assert(acc.contains(x0));
                    }
                }
            }
            lemma_dedup_append_distinct(acc2, rest);
            assert forall|x: Seq<char>| acc.contains(x) || xs.contains(x) implies #[trigger]
            dedup_append(acc, xs).contains(x) by {
                if acc.contains(x) {
                    assert(acc2.contains(x)) by {
                        let k = choose|k: int| 0 <= k < acc.len() && acc[k] == x;
                        assert(acc2[k] == x);
                    }
                } else if xs.contains(x) {
                    let k = choose|k: int| 0 <= k < xs.len() && xs[k] == x;
                    if k == 0 {
                        assert(acc2.last() == x);
                        assert(acc2.contains(x));
                    } else {
                        assert(rest[k - 1] == x);
                        assert(rest.contains(x));
                    }
                }
            }
            assert forall|x: Seq<char>| #[trigger] dedup_append(acc, xs).contains(x) implies
            acc.contains(x) || xs.contains(x) by {
                if acc2.contains(x) {
                    let k = choose|k: int| 0 <= k < acc2.len() && acc2[k] == x;
                    if k < acc.len() {
                        assert(acc[k] == x);
                    } else {
                        assert(x == x0);
                        assert(xs.contains(x0));
                    }
                } else if rest.contains(x) {
                    let k = choose|k: int| 0 <= k < rest.len() && rest[k] == x;
                    assert(xs[k + 1] == x);
                }
            }
        }
    }
}

/// The listing scrape never returns the same identifier twice: an
/// identifier that a response body holds in both percent-encoded and raw
/// form comes back exactly once.  What comes back is exactly what either
/// scan of the body found.
pub proof fn lemma_list_ids_unique(body: Seq<char>)
    ensures
        distinct_seqs(list_ids_spec(body)),
        forall|x: Seq<char>|
            #[trigger] list_ids_spec(body).contains(x) <==> scan_ids(
                percent_decoded(body),
                0,
            ).contains(x) || scan_ids(body, 0).contains(x),
{
    let first = dedup_append(Seq::empty(), scan_ids(percent_decoded(body), 0));
    lemma_dedup_append_distinct(Seq::empty(), scan_ids(percent_decoded(body), 0));
    lemma_dedup_append_distinct(first, scan_ids(body, 0));
}

/// Whether `c` is a hexadecimal digit of either case.
fn is_hex_x(c: char) -> (b: bool)
    ensures
        b == is_hex_char(c),
{
    let u = c as u32;
    (48 <= u && u <= 57) || (97 <= u && u <= 102) || (65 <= u && u <= 70)
}

/// Whether the range `lo..lo + 36` of `t` is a hyphenated identifier with
/// the `.json` suffix after it.
fn uuid_json_at_x(t: &Vec<char>, lo: usize) -> (b: bool)
    requires
        lo + 41 <= t@.len(),
        t@.len() <= usize::MAX,
    ensures
        b == uuid_json_at(t@, lo as int),
{
    let mut j: usize = 0;
    while j < 36
        invariant
            lo + 41 <= t@.len(),
            t@.len() <= usize::MAX,
            j <= 36,
            forall|q: int|
                0 <= q < j && q != 8 && q != 13 && q != 18 && q != 23 ==> is_hex_char(
                    #[trigger] t@[lo + q],
                ),
            forall|q: int|
                0 <= q < j && (q == 8 || q == 13 || q == 18 || q == 23) ==> #[trigger] t@[lo + q]
                    == '-',
        decreases 36 - j,
    {
        let c = t[lo + j];
        if j == 8 || j == 13 || j == 18 || j == 23 {
            if c != '-' {
                return false;
            }
        } else {
            if !is_hex_x(c) {
                return false;
            }
        }
        j = j + 1;
    }
    t[lo + 36] == '.' && t[lo + 37] == 'j' && t[lo + 38] == 's' && t[lo + 39] == 'o' && t[lo + 40]
        == 'n'
}

/// Whether the listing already holds this identifier.
fn contains_string(v: &Vec<String>, x: &String) -> (b: bool)
    ensures
        b == strs_view(v@).contains(x@),
{
    let mut i: usize = 0;
    while i < v.len()
        invariant
            i <= v@.len(),
            forall|j: int| 0 <= j < i ==> strs_view(v@)[j] != x@,
        decreases v@.len() - i,
    {
        if v[i] == *x {
            proof {
                assert(strs_view(v@)[i as int] == x@);
            }
            return true;
        }
        i = i + 1;
    }
    proof {
        if strs_view(v@).contains(x@) {
            let k = choose|k: int| 0 <= k < strs_view(v@).len() && strs_view(v@)[k] == x@;
        }
    }
    false
}

/// Scans one text for identifiers, appending the new ones to `ids`.
fn scan_into(ids: &mut Vec<String>, t: &Vec<char>)
    ensures
        strs_view(final(ids)@) == dedup_append(strs_view(old(ids)@), scan_ids(t@, 0)),
{
    let n = t.len();
    let mut i: usize = 0;
    let ghost goal = dedup_append(strs_view(old(ids)@), scan_ids(t@, 0));
    while n - i >= 41
        invariant
            i <= n == t@.len(),
            dedup_append(strs_view(ids@), scan_ids(t@, i as int)) == goal,
        decreases n - i,
    {
        if uuid_json_at_x(t, i) {
            let mut low: Vec<char> = Vec::new();
            let mut j: usize = 0;
            while j < 36
                invariant
                    i + 41 <= t@.len(),
                    t@.len() <= usize::MAX,
                    j <= 36,
                    low@.len() == j,
                    forall|q: int| 0 <= q < j ==> #[trigger] low@[q] == lower_char(t@[i + q]),
                decreases 36 - j,
            {
                low.push(crate::markdown::lower_char_x(t[i + j]));
                j = j + 1;
            }
            proof {
                assert(low@ =~= ascii_lower(t@.subrange(i as int, i + 36)));
            }
            let id = string_of_chars(&low);
            let ghost pre = strs_view(ids@);
            if !contains_string(ids, &id) {
                ids.push(id);
                proof {
                    assert(strs_view(ids@) =~= pre.push(low@));
                }
            }
            proof {
                lemma_dedup_append_cons(pre, low@, scan_ids(t@, i + 41));
                assert(scan_ids(t@, i as int) == seq![ascii_lower(t@.subrange(i as int, i + 36))]
                    + scan_ids(t@, i + 41));
            }
            i = i + 41;
        } else {
            i = i + 1;
        }
    }
    proof {
        assert(scan_ids(t@, i as int) == Seq::<Seq<char>>::empty());
        assert(dedup_append(strs_view(ids@), Seq::<Seq<char>>::empty()) == strs_view(ids@));
    }
}

/// Scrapes the note identifiers out of a directory-listing response body:
/// both the percent-decoded and the raw text are scanned for the
/// `identifier.json` pattern, and each identifier is returned lower-cased,
/// once, in first-seen order.
pub fn list_document_ids(body: &str) -> (r: Vec<String>)
    ensures
        strs_view(r@) == list_ids_spec(body@),
{
    let decoded = percent_decode_or_raw(body);
    let mut ids: Vec<String> = Vec::new();
    proof {
        assert(strs_view(ids@) =~= Seq::<Seq<char>>::empty());
    }
    let dv = chars_of(decoded.as_str());
    scan_into(&mut ids, &dv);
    let rv = chars_of(body);
    scan_into(&mut ids, &rv);
    ids
}

/// The views of a vector of listing entries.
pub open spec fn metas_view(v: Seq<NoteMetadata>) -> Seq<NoteMetadataV> {
    v.map_values(|m: NoteMetadata| m@)
}

/// Inserts `x` after every entry at least as recent, so that repeated
/// insertion sorts by descending recency, ties keeping their order.
pub open spec fn insert_by_recency(s: Seq<NoteMetadataV>, x: NoteMetadataV) -> Seq<NoteMetadataV>
    decreases s.len(),
{
    if s.len() == 0 {
        seq![x]
    } else if s.last().updated_at >= x.updated_at {
        s.push(x)
    } else {
        insert_by_recency(s.drop_last(), x).push(s.last())
    }
}

/// Stable sort of listing entries by descending `updated_at`.
pub open spec fn sort_by_recency(s: Seq<NoteMetadataV>) -> Seq<NoteMetadataV>
    decreases s.len(),
{
    if s.len() == 0 {
        Seq::empty()
    } else {
        insert_by_recency(sort_by_recency(s.drop_last()), s.last())
    }
}

proof fn lemma_insert_by_recency_at(s: Seq<NoteMetadataV>, x: NoteMetadataV, j: int)
    requires
        0 <= j <= s.len(),
        forall|k: int| j <= k < s.len() ==> s[k].updated_at < x.updated_at,
        j > 0 ==> s[j - 1].updated_at >= x.updated_at,
    ensures
        insert_by_recency(s, x) == s.subrange(0, j) + seq![x] + s.subrange(j, s.len() as int),
    decreases s.len(),
{
    if j == s.len() {
        if s.len() == 0 {
            assert(insert_by_recency(s, x) =~= s.subrange(0, j) + seq![x] + s.subrange(
                j,
                s.len() as int,
            ));
        } else {
            assert(s.push(x) =~= s.subrange(0, j) + seq![x] + s.subrange(j, s.len() as int));
        }
    } else {
        assert(s[s.len() - 1].updated_at < x.updated_at);
        let d = s.drop_last();
        lemma_insert_by_recency_at(d, x, j);
        assert(insert_by_recency(d, x).push(s.last()) =~= s.subrange(0, j) + seq![x] + s.subrange(
            j,
            s.len() as int,
        ));
    }
}

/// Inserts `x` into the already-sorted listing `r`.
fn insert_meta_sorted(r: &mut Vec<NoteMetadata>, x: NoteMetadata)
    ensures
        metas_view(final(r)@) == insert_by_recency(metas_view(old(r)@), x@),
{
    let ghost s = metas_view(r@);
    let mut j: usize = r.len();
    while j > 0 && r[j - 1].updated_at < x.updated_at
        invariant
            j <= r@.len(),
            r@ == old(r)@,
            s == metas_view(r@),
            forall|k: int| j <= k < s.len() ==> s[k].updated_at < x@.updated_at,
        decreases j,
    {
        j = j - 1;
    }
    proof {
        lemma_insert_by_recency_at(s, x@, j as int);
    }
    r.insert(j, x);
    proof {
        assert(metas_view(r@) =~= s.subrange(0, j as int) + seq![x@] + s.subrange(
            j as int,
            s.len() as int,
        ));
    }
}

/// Projects fetched notes to their listing metadata and sorts them most
/// recently updated first, ties keeping fetch order.
pub fn summarize_notes(notes: &Vec<Note>) -> (r: Vec<NoteMetadata>)
    ensures
        metas_view(r@) == sort_by_recency(notes@.map_values(|n: Note| metadata_of(n@))),
{
    let ghost pv = notes@.map_values(|n: Note| metadata_of(n@));
    let mut r: Vec<NoteMetadata> = Vec::new();
    let mut i: usize = 0;
    proof {
        assert(metas_view(r@) =~= Seq::<NoteMetadataV>::empty());
        assert(pv.subrange(0, 0) =~= Seq::<NoteMetadataV>::empty());
    }
    while i < notes.len()
        invariant
            i <= notes@.len(),
            pv == notes@.map_values(|n: Note| metadata_of(n@)),
            metas_view(r@) == sort_by_recency(pv.subrange(0, i as int)),
        decreases notes@.len() - i,
    {
        let m = NoteMetadata::from_note(&notes[i]);
        insert_meta_sorted(&mut r, m);
        i = i + 1;
        proof {
            let cur = pv.subrange(0, i as int);
            assert(cur.drop_last() =~= pv.subrange(0, i - 1));
            assert(cur.last() == pv[i - 1]);
        }
    }
    proof {
        assert(pv.subrange(0, pv.len() as int) =~= pv);
    }
    r
}

} // verus!
