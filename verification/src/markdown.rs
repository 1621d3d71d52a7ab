//! The text-format codec: a note to and from a frontmatter-annotated
//! plain-text document.
//!
//! Rendering emits a `---` frontmatter block, a `# title` heading and the
//! body; parsing tolerates legacy variants and recovers checklist items from
//! a degraded body when the structured fields are absent.

use vstd::prelude::*;
use vstd::string::*;
use crate::chars::{
    chars_of, copy_range, extend_str, is_ws_char, is_ws_x, lemma_trim_ws_cons, range_eq_str,
    string_of_chars, trim_back, trim_bounds, trim_front, trim_ws,
};
use crate::error::AppError;
use crate::models::{
    checklist_fallback_spec, items_view, sort_by_order, sort_items, ChecklistItem, ChecklistItemV,
    Note, NoteType, NoteV, SyncStatus,
};
use crate::provider::{fresh_uuid, is_uuid_chars};
use crate::timestamp::{
    iso_of_millis, iso_to_timestamp, lemma_iso_of_millis_clean, parse_iso_spec, reconcile_updated,
    reconcile_updated_spec, timestamp_to_iso,
};

verus! {

/// ASCII lowercasing of one character.
pub open spec fn lower_char(c: char) -> char {
    if c == 'A' {
        'a'
    } else if c == 'B' {
        'b'
    } else if c == 'C' {
        'c'
    } else if c == 'D' {
        'd'
    } else if c == 'E' {
        'e'
    } else if c == 'F' {
        'f'
    } else if c == 'G' {
        'g'
    } else if c == 'H' {
        'h'
    } else if c == 'I' {
        'i'
    } else if c == 'J' {
        'j'
    } else if c == 'K' {
        'k'
    } else if c == 'L' {
        'l'
    } else if c == 'M' {
        'm'
    } else if c == 'N' {
        'n'
    } else if c == 'O' {
        'o'
    } else if c == 'P' {
        'p'
    } else if c == 'Q' {
        'q'
    } else if c == 'R' {
        'r'
    } else if c == 'S' {
        's'
    } else if c == 'T' {
        't'
    } else if c == 'U' {
        'u'
    } else if c == 'V' {
        'v'
    } else if c == 'W' {
        'w'
    } else if c == 'X' {
        'x'
    } else if c == 'Y' {
        'y'
    } else if c == 'Z' {
        'z'
    } else {
        c
    }
}

/// ASCII lowercasing of a string.
pub open spec fn ascii_lower(s: Seq<char>) -> Seq<char> {
    s.map_values(|c: char| lower_char(c))
}

/// ASCII uppercasing of one character, with `-` turned into `_`: the
/// recovery of a sort-option token from its rendered form.
pub open spec fn upper_us_char(c: char) -> char {
    if c == 'a' {
        'A'
    } else if c == 'b' {
        'B'
    } else if c == 'c' {
        'C'
    } else if c == 'd' {
        'D'
    } else if c == 'e' {
        'E'
    } else if c == 'f' {
        'F'
    } else if c == 'g' {
        'G'
    } else if c == 'h' {
        'H'
    } else if c == 'i' {
        'I'
    } else if c == 'j' {
        'J'
    } else if c == 'k' {
        'K'
    } else if c == 'l' {
        'L'
    } else if c == 'm' {
        'M'
    } else if c == 'n' {
        'N'
    } else if c == 'o' {
        'O'
    } else if c == 'p' {
        'P'
    } else if c == 'q' {
        'Q'
    } else if c == 'r' {
        'R'
    } else if c == 's' {
        'S'
    } else if c == 't' {
        'T'
    } else if c == 'u' {
        'U'
    } else if c == 'v' {
        'V'
    } else if c == 'w' {
        'W'
    } else if c == 'x' {
        'X'
    } else if c == 'y' {
        'Y'
    } else if c == 'z' {
        'Z'
    } else if c == '-' {
        '_'
    } else {
        c
    }
}

/// ASCII uppercasing with dash-to-underscore, over a whole string.
pub open spec fn ascii_upper_us(s: Seq<char>) -> Seq<char> {
    s.map_values(|c: char| upper_us_char(c))
}

/// ASCII lowercasing of one character.
pub(crate) fn lower_char_x(c: char) -> (r: char)
    ensures
        r == lower_char(c),
{
    match c {
        'A' => 'a',
        'B' => 'b',
        'C' => 'c',
        'D' => 'd',
        'E' => 'e',
        'F' => 'f',
        'G' => 'g',
        'H' => 'h',
        'I' => 'i',
        'J' => 'j',
        'K' => 'k',
        'L' => 'l',
        'M' => 'm',
        'N' => 'n',
        'O' => 'o',
        'P' => 'p',
        'Q' => 'q',
        'R' => 'r',
        'S' => 's',
        'T' => 't',
        'U' => 'u',
        'V' => 'v',
        'W' => 'w',
        'X' => 'x',
        'Y' => 'y',
        'Z' => 'z',
        _ => c,
    }
}

/// ASCII uppercasing of one character, with `-` turned into `_`.
fn upper_us_char_x(c: char) -> (r: char)
    ensures
        r == upper_us_char(c),
{
    match c {
        'a' => 'A',
        'b' => 'B',
        'c' => 'C',
        'd' => 'D',
        'e' => 'E',
        'f' => 'F',
        'g' => 'G',
        'h' => 'H',
        'i' => 'I',
        'j' => 'J',
        'k' => 'K',
        'l' => 'L',
        'm' => 'M',
        'n' => 'N',
        'o' => 'O',
        'p' => 'P',
        'q' => 'Q',
        'r' => 'R',
        's' => 'S',
        't' => 'T',
        'u' => 'U',
        'v' => 'V',
        'w' => 'W',
        'x' => 'X',
        'y' => 'Y',
        'z' => 'Z',
        '-' => '_',
        _ => c,
    }
}

/// Appends the ASCII-lowercased characters of `src` to `dst`.
fn extend_lowered(dst: &mut Vec<char>, src: &str)
    ensures
        final(dst)@ == old(dst)@ + ascii_lower(src@),
{
    let cs = chars_of(src);
    let mut i: usize = 0;
    while i < cs.len()
        invariant
            cs@ == src@,
            i <= cs@.len(),
            dst@.len() == old(dst)@.len() + i,
            forall|k: int| 0 <= k < old(dst)@.len() ==> #[trigger] dst@[k] == old(dst)@[k],
            forall|k: int|
                0 <= k < i ==> #[trigger] dst@[old(dst)@.len() + k] == lower_char(src@[k]),
        decreases cs@.len() - i,
    {
        dst.push(lower_char_x(cs[i]));
        i = i + 1;
    }
    proof {
        assert forall|j: int| 0 <= j < dst@.len() implies dst@[j] == (old(dst)@ + ascii_lower(
            src@,
        ))[j] by {
            if j >= old(dst)@.len() {
                let k = j - old(dst)@.len();
                assert(dst@[old(dst)@.len() + k] == lower_char(src@[k]));
            }
        }
        assert(dst@ =~= old(dst)@ + ascii_lower(src@));
    }
}

/// The frontmatter token of a note type.
pub open spec fn note_type_token(t: NoteType) -> Seq<char> {
    match t {
        NoteType::Text => "text"@,
        NoteType::Checklist => "checklist"@,
    }
}

/// One rendered checklist line: `- [x] text` or `- [ ] text`, newline
/// terminated.
pub open spec fn bullet_line_of(it: ChecklistItemV) -> Seq<char> {
    seq!['-', ' ', '['] + (if it.is_checked {
        seq!['x']
    } else {
        seq![' ']
    }) + seq![']', ' '] + it.text + seq!['\n']
}

/// The rendered checklist body: one bullet line per item, in sequence order.
pub open spec fn checklist_lines(s: Seq<ChecklistItemV>) -> Seq<char>
    decreases s.len(),
{
    if s.len() == 0 {
        Seq::empty()
    } else {
        bullet_line_of(s[0]) + checklist_lines(s.drop_first())
    }
}

/// The rendered body of a note: raw content for text notes, sorted bullet
/// lines for checklist notes.
pub open spec fn render_body(n: NoteV) -> Seq<char> {
    match n.note_type {
        NoteType::Text => n.content,
        NoteType::Checklist => match n.checklist_items {
            Some(items) => checklist_lines(sort_by_order(items)),
            None => Seq::empty(),
        },
    }
}

/// The rendered frontmatter block, without its closing delimiter.
pub open spec fn render_frontmatter(n: NoteV) -> Seq<char> {
    "---\nid: "@ + n.id + "\ncreated: "@ + iso_of_millis(n.created_at) + "\nupdated: "@
        + iso_of_millis(n.updated_at) + "\ndevice: "@ + n.device_id + "\ntype: "@
        + note_type_token(n.note_type) + (match n.checklist_sort_option {
        Some(so) => "\nsort: "@ + ascii_lower(so),
        None => Seq::<char>::empty(),
    })
}

/// The full rendered document of a note.
pub open spec fn render_spec(n: NoteV) -> Seq<char> {
    render_frontmatter(n) + "\n---\n\n# "@ + n.title + "\n\n"@ + render_body(n)
}

proof fn lemma_checklist_lines_push(s: Seq<ChecklistItemV>, x: ChecklistItemV)
    ensures
        checklist_lines(s.push(x)) == checklist_lines(s) + bullet_line_of(x),
    decreases s.len(),
{
    if s.len() == 0 {
        assert(s.push(x)[0] == x);
        assert(s.push(x).drop_first() =~= Seq::<ChecklistItemV>::empty());
        assert(checklist_lines(Seq::<ChecklistItemV>::empty()) == Seq::<char>::empty());
        assert(checklist_lines(s.push(x)) =~= checklist_lines(s) + bullet_line_of(x));
    } else {
        assert(s.push(x)[0] == s[0]);
        assert(s.push(x).drop_first() =~= s.drop_first().push(x));
        lemma_checklist_lines_push(s.drop_first(), x);
        assert(checklist_lines(s.push(x)) == bullet_line_of(s[0]) + (checklist_lines(s.drop_first())
            + bullet_line_of(x)));
        assert(bullet_line_of(s[0]) + (checklist_lines(s.drop_first()) + bullet_line_of(x)) =~= (
        bullet_line_of(s[0]) + checklist_lines(s.drop_first())) + bullet_line_of(x));
    }
}

/// Appends the sorted bullet lines of `items` to `buf`.
fn extend_checklist_lines(buf: &mut Vec<char>, items: &Vec<ChecklistItem>)
    ensures
        final(buf)@ == old(buf)@ + checklist_lines(sort_by_order(items_view(items@))),
{
    let sorted = sort_items(items);
    let ghost sv = items_view(sorted@);
    let mut i: usize = 0;
    proof {
        assert(sv.take(0) =~= Seq::<ChecklistItemV>::empty());
    }
    while i < sorted.len()
        invariant
            sv == items_view(sorted@),
            i <= sv.len(),
            buf@ == old(buf)@ + checklist_lines(sv.take(i as int)),
        decreases sv.len() - i,
    {
        let ghost pre = buf@;
        buf.push('-');
        buf.push(' ');
        buf.push('[');
        if sorted[i].is_checked {
            buf.push('x');
        } else {
            buf.push(' ');
        }
        buf.push(']');
        buf.push(' ');
        extend_str(buf, sorted[i].text.as_str());
        buf.push('\n');
        i = i + 1;
        proof {
            assert(buf@ =~= pre + bullet_line_of(sv[i - 1]));
            assert(sv.take(i as int).drop_last() =~= sv.take(i - 1));
            assert(sv.take(i as int) =~= sv.take(i - 1).push(sv[i - 1]));
            lemma_checklist_lines_push(sv.take(i - 1), sv[i - 1]);
            assert(buf@ =~= old(buf)@ + checklist_lines(sv.take(i as int)));
        }
    }
    proof {
        assert(sv.take(sv.len() as int) =~= sv);
    }
}

/// Renders a note as a frontmatter-annotated text document: the metadata
/// block, the `# title` heading, then the body (checklist items sorted by
/// `order`).
pub fn generate_markdown(note: &Note) -> (r: String)
    ensures
        r@ == render_spec(note@),
{
    let mut buf: Vec<char> = Vec::new();
    extend_str(&mut buf, "---\nid: ");
    extend_str(&mut buf, note.id.as_str());
    extend_str(&mut buf, "\ncreated: ");
    let created_iso = timestamp_to_iso(note.created_at);
    extend_str(&mut buf, created_iso.as_str());
    extend_str(&mut buf, "\nupdated: ");
    let updated_iso = timestamp_to_iso(note.updated_at);
    extend_str(&mut buf, updated_iso.as_str());
    extend_str(&mut buf, "\ndevice: ");
    extend_str(&mut buf, note.device_id.as_str());
    extend_str(&mut buf, "\ntype: ");
    match note.note_type {
        NoteType::Text => extend_str(&mut buf, "text"),
        NoteType::Checklist => extend_str(&mut buf, "checklist"),
    }
    if let Some(so) = &note.checklist_sort_option {
        extend_str(&mut buf, "\nsort: ");
        extend_lowered(&mut buf, so.as_str());
    }
    proof {
        assert(buf@ =~= render_frontmatter(note@));
    }
    extend_str(&mut buf, "\n---\n\n# ");
    extend_str(&mut buf, note.title.as_str());
    extend_str(&mut buf, "\n\n");
    match note.note_type {
        NoteType::Text => extend_str(&mut buf, note.content.as_str()),
        NoteType::Checklist => {
            if let Some(items) = &note.checklist_items {
                extend_checklist_lines(&mut buf, items);
            }
        },
    }
    proof {
        assert(buf@ =~= render_spec(note@));
    }
    string_of_chars(&buf)
}

/// The first position at or after `i` holding `c`; the length when there is
/// none.
pub open spec fn find_char_from(s: Seq<char>, c: char, i: int) -> int
    decreases s.len() - i,
{
    if i < 0 || i >= s.len() {
        s.len() as int
    } else if s[i] == c {
        i
    } else {
        find_char_from(s, c, i + 1)
    }
}

/// Splits a text into its lines at `\n`; the result always holds at least
/// one line, and a trailing newline yields a final empty line.
pub open spec fn split_lines(s: Seq<char>) -> Seq<Seq<char>>
    decreases s.len(),
{
    let k = find_char_from(s, '\n', 0);
    if 0 <= k < s.len() {
        seq![s.take(k)] + split_lines(s.skip(k + 1))
    } else {
        seq![s]
    }
}

/// The position of the first colon of a frontmatter line.
pub open spec fn line_colon(l: Seq<char>) -> int {
    find_char_from(l, ':', 0)
}

/// Whether the frontmatter line binds `key`: it has a colon and the trimmed
/// text before the first colon reads as `key`.
pub open spec fn line_has_key(l: Seq<char>, key: Seq<char>) -> bool {
    line_colon(l) < l.len() && trim_ws(l.take(line_colon(l))) == key
}

/// The trimmed text after the first colon of a frontmatter line.
pub open spec fn line_value(l: Seq<char>) -> Seq<char> {
    trim_ws(l.skip(line_colon(l) + 1))
}

/// The value bound to `key` by the frontmatter lines; the last binding wins.
pub open spec fn fm_lookup(ls: Seq<Seq<char>>, key: Seq<char>) -> Option<Seq<char>>
    decreases ls.len(),
{
    if ls.len() == 0 {
        None
    } else if line_has_key(ls.last(), key) {
        Some(line_value(ls.last()))
    } else {
        fm_lookup(ls.drop_last(), key)
    }
}

/// Whether the line is a `# ` heading.
pub open spec fn is_heading(l: Seq<char>) -> bool {
    l.len() >= 2 && l[0] == '#' && l[1] == ' '
}

/// The title the body declares: the first `# ` heading's trimmed text, or
/// `Untitled` when no line is a heading.
pub open spec fn heading_title(ls: Seq<Seq<char>>) -> Seq<char>
    decreases ls.len(),
{
    if ls.len() == 0 {
        "Untitled"@
    } else if is_heading(ls[0]) {
        trim_ws(ls[0].skip(2))
    } else {
        heading_title(ls.drop_first())
    }
}

/// Whether a `\n# ` heading lead-in stands at position `i` of the body.
pub open spec fn heading_lead_at(s: Seq<char>, i: int) -> bool {
    i + 3 <= s.len() && s[i] == '\n' && s[i + 1] == '#' && s[i + 2] == ' '
}

/// The first position at or after `i` where a `\n# ` lead-in stands; the
/// length when there is none.
pub open spec fn find_heading_lead(s: Seq<char>, i: int) -> int
    decreases s.len() - i,
{
    if i < 0 || i + 3 > s.len() {
        s.len() as int
    } else if heading_lead_at(s, i) {
        i
    } else {
        find_heading_lead(s, i + 1)
    }
}

/// Where the content after the title heading starts in the body.
pub open spec fn content_start(body: Seq<char>) -> int {
    let i = find_heading_lead(body, 0);
    if i == body.len() {
        0
    } else {
        let j = find_char_from(body, '\n', i + 1);
        if j < body.len() {
            j + 1
        } else {
            body.len() as int
        }
    }
}

/// The trimmed body content after the title heading.
pub open spec fn content_of(body: Seq<char>) -> Seq<char> {
    trim_ws(body.skip(content_start(body)))
}

/// The first position at or after `i` that is not whitespace; the length
/// when the rest is all whitespace.
pub open spec fn ws_run_end(l: Seq<char>, i: int) -> int
    decreases l.len() - i,
{
    if 0 <= i < l.len() && is_ws_char(l[i]) {
        ws_run_end(l, i + 1)
    } else {
        i
    }
}

/// Whether `c` marks a checkbox as ticked, unticked, or neither.
pub open spec fn is_check_char(c: char) -> bool {
    c == ' ' || c == 'x' || c == 'X'
}

/// Reads a checkbox whose `[` stands at `p`: `[ ]`, `[x]` or `[X]`, followed
/// by at least one character.  The result is the check state and the trimmed
/// text after the box.
pub open spec fn checkbox_parse(l: Seq<char>, p: int) -> Option<(bool, Seq<char>)> {
    if 0 <= p && p + 4 <= l.len() && l[p] == '[' && is_check_char(l[p + 1]) && l[p + 2] == ']' {
        Some(((l[p + 1] == 'x' || l[p + 1] == 'X'), trim_ws(l.skip(p + 3))))
    } else {
        None
    }
}

/// Reads one line as a checklist entry.  The bulleted form asks for a
/// leading `-`; the recovery form does not.  Whitespace may stand between
/// the lead-in and the checkbox.
pub open spec fn line_match(l: Seq<char>, bullet: bool) -> Option<(bool, Seq<char>)> {
    if bullet {
        if l.len() >= 1 && l[0] == '-' {
            checkbox_parse(l, ws_run_end(l, 1))
        } else {
            None
        }
    } else {
        checkbox_parse(l, ws_run_end(l, 0))
    }
}

/// The check states and texts of the lines that read as checklist entries,
/// in line order.
pub open spec fn checkbox_matches(ls: Seq<Seq<char>>, bullet: bool) -> Seq<(bool, Seq<char>)>
    decreases ls.len(),
{
    if ls.len() == 0 {
        Seq::empty()
    } else {
        match line_match(ls[0], bullet) {
            Some(m) => seq![m] + checkbox_matches(ls.drop_first(), bullet),
            None => checkbox_matches(ls.drop_first(), bullet),
        }
    }
}

/// The check state and text of each item, in sequence order.
pub open spec fn marks_of(its: Seq<ChecklistItemV>) -> Seq<(bool, Seq<char>)> {
    its.map_values(|it: ChecklistItemV| (it.is_checked, it.text))
}

/// What a scan stamps on the items it builds: positional `order` values
/// (as far as the field's width carries them) and fresh identifiers.
pub open spec fn scan_stamped(its: Seq<ChecklistItemV>) -> bool {
    forall|i: int|
        0 <= i < its.len() ==> ((i < 0x7fffffff ==> (#[trigger] its[i]).order == i)
            && is_uuid_chars(its[i].id))
}

/// Whether the document opens with a frontmatter block: the `---` lead and,
/// later, the `\n---\n` closing delimiter.
pub open spec fn delim_at(s: Seq<char>, i: int) -> bool {
    i + 5 <= s.len() && s[i] == '\n' && s[i + 1] == '-' && s[i + 2] == '-' && s[i + 3] == '-'
        && s[i + 4] == '\n'
}

/// The first position at or after `i` where the closing delimiter stands;
/// the length when there is none.
pub open spec fn find_delim(s: Seq<char>, i: int) -> int
    decreases s.len() - i,
{
    if i < 0 || i + 5 > s.len() {
        s.len() as int
    } else if delim_at(s, i) {
        i
    } else {
        find_delim(s, i + 1)
    }
}

/// Whether the document opens with `---` on its own line and closes that
/// block with a `---` line.
pub open spec fn has_frontmatter(md: Seq<char>) -> bool {
    &&& md.len() >= 4
    &&& md[0] == '-'
    &&& md[1] == '-'
    &&& md[2] == '-'
    &&& md[3] == '\n'
    &&& find_delim(md, 4) < md.len()
}

/// The view of an optional epoch-millisecond argument.
pub open spec fn opt_int(o: Option<i64>) -> Option<int> {
    match o {
        Some(v) => Some(v as int),
        None => None,
    }
}

/// The `updated` value the frontmatter declares, falling back to the
/// note's created value when absent or unparsable.
pub open spec fn fm_updated(ls: Seq<Seq<char>>, created: int) -> int {
    match fm_lookup(ls, "updated"@) {
        Some(us) => match parse_iso_spec(us) {
            Some(v) => v,
            None => created,
        },
        None => created,
    }
}

/// What parsing a document may return.  The clock and the identifier
/// generator are outside the library's control, so a missing `created`
/// leaves the creation time unconstrained and a missing `id` asks only for
/// a fresh identifier shape.
pub open spec fn parse_ok(md: Seq<char>, server_mtime: Option<int>, n: NoteV) -> bool {
    &&& has_frontmatter(md)
    &&& ({
        let e = find_delim(md, 4);
        let yaml = md.subrange(4, e);
        let body = md.skip(e + 5);
        let ls = split_lines(yaml);
        let is_checklist = fm_lookup(ls, "type"@) == Some("checklist"@);
        &&& (match fm_lookup(ls, "id"@) {
            Some(v) => n.id == v,
            None => is_uuid_chars(n.id),
        })
        &&& n.title == heading_title(split_lines(body))
        &&& n.device_id == (match fm_lookup(ls, "device"@) {
            Some(v) => v,
            None => "unknown"@,
        })
        &&& n.sync_status == SyncStatus::Synced
        &&& n.note_type == (if is_checklist {
            NoteType::Checklist
        } else {
            NoteType::Text
        })
        &&& (match fm_lookup(ls, "created"@) {
            Some(cs) => match parse_iso_spec(cs) {
                Some(v) => n.created_at == v,
                None => true,
            },
            None => true,
        })
        &&& n.updated_at == reconcile_updated_spec(fm_updated(ls, n.created_at), server_mtime)
        &&& (match fm_lookup(ls, "sort"@) {
            Some(v) => n.checklist_sort_option == Some(ascii_upper_us(v)),
            None => n.checklist_sort_option is None,
        })
        &&& (if is_checklist {
            match n.checklist_items {
                Some(its) => {
                    &&& marks_of(its) == checkbox_matches(split_lines(content_of(body)), true)
                    &&& scan_stamped(its)
                    &&& n.content == checklist_fallback_spec(its)
                },
                None => false,
            }
        } else {
            n.checklist_items is None && n.content == content_of(body)
        })
    })
}

pub proof fn lemma_find_char_from(s: Seq<char>, c: char, i: int, p: int)
    requires
        0 <= i <= p <= s.len(),
        forall|j: int| i <= j < p ==> s[j] != c,
        p == s.len() || s[p] == c,
    ensures
        find_char_from(s, c, i) == p,
    decreases p - i,
{
    if i < p {
        lemma_find_char_from(s, c, i + 1, p);
    }
}

pub proof fn lemma_ws_run_end(l: Seq<char>, i: int, p: int)
    requires
        0 <= i <= p <= l.len(),
        forall|j: int| i <= j < p ==> is_ws_char(#[trigger] l[j]),
        p == l.len() || !is_ws_char(l[p]),
    ensures
        ws_run_end(l, i) == p,
    decreases p - i,
{
    if i < p {
        lemma_ws_run_end(l, i + 1, p);
    }
}

pub proof fn lemma_find_delim(s: Seq<char>, i: int, p: int)
    requires
        0 <= i <= p <= s.len(),
        forall|j: int| i <= j < p ==> !delim_at(s, j),
        p == s.len() || delim_at(s, p),
    ensures
        find_delim(s, i) == p,
    decreases p - i,
{
    if i + 5 > s.len() {
        if p < s.len() {
            assert(!delim_at(s, p));
            assert(false);
        }
    } else if delim_at(s, i) {
        assert(i == p);
    } else {
        lemma_find_delim(s, i + 1, p);
    }
}

pub proof fn lemma_find_heading_lead(s: Seq<char>, i: int, p: int)
    requires
        0 <= i <= p <= s.len(),
        forall|j: int| i <= j < p ==> !heading_lead_at(s, j),
        p == s.len() || heading_lead_at(s, p),
    ensures
        find_heading_lead(s, i) == p,
    decreases p - i,
{
    if i + 3 > s.len() {
        if p < s.len() {
            assert(!heading_lead_at(s, p));
            assert(false);
        }
    } else if heading_lead_at(s, i) {
        assert(i == p);
    } else {
        lemma_find_heading_lead(s, i + 1, p);
    }
}

/// Peeling the first line off a text: when a newline stands at `k`, the
/// lines are the prefix line and then the lines of the rest.
pub proof fn lemma_split_lines_step(s: Seq<char>, k: int)
    requires
        0 <= k <= s.len(),
        forall|j: int| 0 <= j < k ==> s[j] != '\n',
        k == s.len() || s[k] == '\n',
    ensures
        k < s.len() ==> split_lines(s) == seq![s.take(k)] + split_lines(s.skip(k + 1)),
        k == s.len() ==> split_lines(s) == seq![s],
{
    lemma_find_char_from(s, '\n', 0, k);
}

pub proof fn lemma_fm_lookup_push(ls: Seq<Seq<char>>, l: Seq<char>, key: Seq<char>)
    ensures
        fm_lookup(ls.push(l), key) == (if line_has_key(l, key) {
            Some(line_value(l))
        } else {
            fm_lookup(ls, key)
        }),
{
    assert(ls.push(l).last() == l);
    assert(ls.push(l).drop_last() =~= ls);
}

pub proof fn lemma_heading_title_cons(l: Seq<char>, ls: Seq<Seq<char>>)
    ensures
        heading_title(seq![l] + ls) == (if is_heading(l) {
            trim_ws(l.skip(2))
        } else {
            heading_title(ls)
        }),
{
    assert((seq![l] + ls)[0] == l);
    assert((seq![l] + ls).drop_first() =~= ls);
}

pub proof fn lemma_checkbox_matches_cons(l: Seq<char>, ls: Seq<Seq<char>>, bullet: bool)
    ensures
        checkbox_matches(seq![l] + ls, bullet) == (match line_match(l, bullet) {
            Some(m) => seq![m] + checkbox_matches(ls, bullet),
            None => checkbox_matches(ls, bullet),
        }),
{
    assert((seq![l] + ls)[0] == l);
    assert((seq![l] + ls).drop_first() =~= ls);
}

/// Tries to read the line `lo..k` of `t` as a checklist entry.
fn match_line(t: &Vec<char>, lo: usize, k: usize, bullet: bool) -> (r: Option<(bool, String)>)
    requires
        lo <= k <= t@.len(),
    ensures
        match r {
            Some(m) => line_match(t@.subrange(lo as int, k as int), bullet) == Some(
                (m.0, m.1@),
            ),
            None => line_match(t@.subrange(lo as int, k as int), bullet) is None,
        },
{
    let ghost l = t@.subrange(lo as int, k as int);
    let pstart: usize;
    if bullet {
        if k > lo && t[lo] == '-' {
            pstart = lo + 1;
        } else {
            proof {
                if k > lo {
                    assert(l[0] == t@[lo as int]);
                }
            }
            return None;
        }
    } else {
        pstart = lo;
    }
    let mut p: usize = pstart;
    while p < k && is_ws_x(t[p])
        invariant
            lo <= pstart <= p <= k <= t@.len(),
            l == t@.subrange(lo as int, k as int),
            forall|j: int| pstart - lo <= j < p - lo ==> is_ws_char(#[trigger] l[j]),
        decreases k - p,
    {
        proof {
            assert(l[p - lo] == t@[p as int]);
        }
        p = p + 1;
    }
    proof {
        if p < k {
            assert(l[p - lo] == t@[p as int]);
        }
        lemma_ws_run_end(l, pstart - lo, p - lo);
    }
    if k - p > 3 && t[p] == '[' && (t[p + 1] == ' ' || t[p + 1] == 'x' || t[p + 1] == 'X') && t[p
        + 2] == ']' {
        let checked = t[p + 1] == 'x' || t[p + 1] == 'X';
        let tb = trim_bounds(t, p + 3, k);
        let tv = copy_range(t, tb.0, tb.1);
        let text = string_of_chars(&tv);
        proof {
            assert(l[p - lo] == t@[p as int]);
            assert(l[p - lo + 1] == t@[p + 1]);
            assert(l[p - lo + 2] == t@[p + 2]);
            assert(l.skip(p - lo + 3) =~= t@.subrange(p + 3, k as int));
        }
        Some((checked, text))
    } else {
        proof {
            let pr = p - lo;
            if 0 <= pr && pr + 4 <= l.len() {
                assert(l[pr] == t@[p as int]);
                assert(l[pr + 1] == t@[p + 1]);
                assert(l[pr + 2] == t@[p + 2]);
            }
        }
        None
    }
}

/// Scans the lines of `t` for checklist entries, building items in line
/// order with positional `order` values and fresh identifiers.
fn scan_checkbox_chars(t: &Vec<char>, bullet: bool) -> (r: Vec<ChecklistItem>)
    ensures
        marks_of(items_view(r@)) == checkbox_matches(split_lines(t@), bullet),
        scan_stamped(items_view(r@)),
{
    let ghost total = checkbox_matches(split_lines(t@), bullet);
    let mut r: Vec<ChecklistItem> = Vec::new();
    let mut lo: usize = 0;
    let mut done: bool = false;
    proof {
        assert(t@.skip(0) =~= t@);
        assert(marks_of(items_view(r@)) =~= Seq::<(bool, Seq<char>)>::empty());
    }
    while !done
        invariant
            lo <= t@.len(),
            !done ==> marks_of(items_view(r@)) + checkbox_matches(
                split_lines(t@.skip(lo as int)),
                bullet,
            ) == total,
            done ==> marks_of(items_view(r@)) == total,
            scan_stamped(items_view(r@)),
        decreases t@.len() - lo + (if done {
            0int
        } else {
            1int
        }),
    {
        let ghost rem = t@.skip(lo as int);
        let mut k: usize = lo;
        while k < t.len() && t[k] != '\n'
            invariant
                lo <= k <= t@.len(),
                forall|j: int| lo <= j < k ==> t@[j] != '\n',
            decreases t@.len() - k,
        {
            k = k + 1;
        }
        proof {
            assert forall|j: int| 0 <= j < k - lo implies rem[j] != '\n' by {
                assert(rem[j] == t@[j + lo]);
            }
            if k < t.len() {
                assert(rem[k - lo] == t@[k as int]);
            }
            lemma_split_lines_step(rem, k - lo);
            assert(rem.take(k - lo) =~= t@.subrange(lo as int, k as int));
        }
        let m = match_line(t, lo, k, bullet);
        let ghost pre = items_view(r@);
        let ghost pre_marks = marks_of(items_view(r@));
        let ghost mark: Option<(bool, Seq<char>)> = match &m {
            Some(mm) => Some((mm.0, mm.1@)),
            None => None,
        };
        match m {
            Some(mm) => {
                let ord: i32 = if r.len() < 0x7fffffff {
                    r.len() as i32
                } else {
                    0x7fffffff
                };
                let ghost mtext = mm.1@;
                let item = ChecklistItem {
                    id: fresh_uuid(),
                    text: mm.1,
                    is_checked: mm.0,
                    order: ord,
                };
                let ghost itemv = item@;
                r.push(item);
                proof {
                    let iv = items_view(r@);
                    assert(iv.len() == pre.len() + 1);
                    assert forall|j: int| 0 <= j < iv.len() implies #[trigger] iv[j] == (if j
                        < pre.len() {
                        pre[j]
                    } else {
                        itemv
                    }) by {
                        if j < pre.len() {
                            assert(r@[j] == r@.subrange(0, pre.len() as int)[j]);
                        }
                    }
                    assert(marks_of(iv) =~= pre_marks + seq![(itemv.is_checked, itemv.text)]);
                    assert(itemv.is_checked == mm.0 && itemv.text == mtext);
                    assert(scan_stamped(iv));
                }
            },
            None => {},
        }
        let ghost new_marks = marks_of(items_view(r@));
        proof {
            assert(new_marks == (match mark {
                Some(mk) => pre_marks + seq![mk],
                None => pre_marks,
            }));
        }
        proof {
            let line = rem.take(k - lo);
            if k < t.len() {
                lemma_checkbox_matches_cons(line, split_lines(t@.skip(k + 1)), bullet);
                assert(rem.skip(k - lo + 1) =~= t@.skip(k + 1));
                assert(split_lines(rem) == seq![line] + split_lines(t@.skip(k + 1)));
                let rest = checkbox_matches(split_lines(t@.skip(k + 1)), bullet);
                match mark {
                    Some(mk) => {
                        assert(checkbox_matches(split_lines(rem), bullet) == seq![mk] + rest);
                        assert(pre_marks + (seq![mk] + rest) =~= (pre_marks + seq![mk]) + rest);
                    },
                    None => {},
                }
                assert(new_marks + rest == total);
            } else {
                assert(split_lines(rem) == seq![rem]);
                assert(rem.take(k - lo) =~= rem);
                lemma_checkbox_matches_cons(rem, Seq::<Seq<char>>::empty(), bullet);
                assert(seq![rem] =~= seq![rem] + Seq::<Seq<char>>::empty());
                assert(checkbox_matches(Seq::<Seq<char>>::empty(), bullet) == Seq::<(
                    bool,
                    Seq<char>,
                )>::empty());
                match mark {
                    Some(mk) => {
                        assert(checkbox_matches(split_lines(rem), bullet) =~= seq![mk]);
                        assert(pre_marks + seq![mk] == new_marks);
                    },
                    None => {
                        assert(checkbox_matches(split_lines(rem), bullet) =~= Seq::<(
                            bool,
                            Seq<char>,
                        )>::empty());
                        assert(pre_marks + checkbox_matches(split_lines(rem), bullet)
                            =~= pre_marks);
                    },
                }
                assert(new_marks == total);
            }
        }
        if k < t.len() {
            lo = k + 1;
        } else {
            done = true;
        }
    }
    r
}

/// Parses the bulleted checkbox lines of a checklist body into items, in
/// line order.
pub fn parse_checklist_items(content: &str) -> (r: Vec<ChecklistItem>)
    ensures
        marks_of(items_view(r@)) == checkbox_matches(split_lines(content@), true),
        scan_stamped(items_view(r@)),
{
    let t = chars_of(content);
    scan_checkbox_chars(&t, true)
}

/// Recovers checklist items from a degraded body: checkbox lines are
/// accepted without the leading bullet.
pub fn recover_checklist_from_content(content: &str) -> (r: Vec<ChecklistItem>)
    ensures
        marks_of(items_view(r@)) == checkbox_matches(split_lines(content@), false),
        scan_stamped(items_view(r@)),
{
    let t = chars_of(content);
    scan_checkbox_chars(&t, false)
}

/// Renders items as the degraded `[x] text` lines, sorted by `order`.
pub fn generate_checklist_fallback(items: &Vec<ChecklistItem>) -> (r: String)
    ensures
        r@ == checklist_fallback_spec(items_view(items@)),
{
    let buf = crate::models::fallback_chars(items);
    string_of_chars(&buf)
}

/// The view of an optional character buffer.
pub open spec fn osv(o: Option<Vec<char>>) -> Option<Seq<char>> {
    match o {
        Some(v) => Some(v@),
        None => None,
    }
}

proof fn lemma_fm_keys_distinct()
    ensures
        "id"@ != "created"@,
        "id"@ != "updated"@,
        "id"@ != "device"@,
        "id"@ != "type"@,
        "id"@ != "sort"@,
        "created"@ != "updated"@,
        "created"@ != "device"@,
        "created"@ != "type"@,
        "created"@ != "sort"@,
        "updated"@ != "device"@,
        "updated"@ != "type"@,
        "updated"@ != "sort"@,
        "device"@ != "type"@,
        "device"@ != "sort"@,
        "type"@ != "sort"@,
{
    reveal_strlit("id");
    reveal_strlit("created");
    reveal_strlit("updated");
    reveal_strlit("device");
    reveal_strlit("type");
    reveal_strlit("sort");
    assert("id"@.len() == 2);
    assert("created"@.len() == 7);
    assert("updated"@.len() == 7);
    assert("device"@.len() == 6);
    assert("type"@.len() == 4);
    assert("sort"@.len() == 4);
    assert("created"@[0] == 'c' && "updated"@[0] == 'u');
    assert("type"@[0] == 't' && "sort"@[0] == 's');
}

/// The raw values the frontmatter block binds to the keys the codec reads.
struct FmSlots {
    id_v: Option<Vec<char>>,
    created_v: Option<Vec<char>>,
    updated_v: Option<Vec<char>>,
    device_v: Option<Vec<char>>,
    type_v: Option<Vec<char>>,
    sort_v: Option<Vec<char>>,
}

/// Reads the `key: value` lines of the frontmatter block `4..e`, keeping
/// for each known key the last value bound to it.
fn fm_slots(t: &Vec<char>, e: usize) -> (r: FmSlots)
    requires
        4 <= e <= t@.len(),
    ensures
        ({
            let ls = split_lines(t@.subrange(4, e as int));
            &&& osv(r.id_v) == fm_lookup(ls, "id"@)
            &&& osv(r.created_v) == fm_lookup(ls, "created"@)
            &&& osv(r.updated_v) == fm_lookup(ls, "updated"@)
            &&& osv(r.device_v) == fm_lookup(ls, "device"@)
            &&& osv(r.type_v) == fm_lookup(ls, "type"@)
            &&& osv(r.sort_v) == fm_lookup(ls, "sort"@)
        }),
{
    let ghost yaml = t@.subrange(4, e as int);
    let ghost gls = split_lines(yaml);
    let mut slots = FmSlots {
        id_v: None,
        created_v: None,
        updated_v: None,
        device_v: None,
        type_v: None,
        sort_v: None,
    };
    let mut lo: usize = 4;
    let mut done: bool = false;
    let ghost mut cnt: int = 0;
    proof {
        assert(yaml.skip(0) =~= yaml);
        assert(gls.take(0) =~= Seq::<Seq<char>>::empty());
        assert(gls.take(0) + split_lines(yaml.skip(0)) =~= split_lines(yaml.skip(0)));
        assert(fm_lookup(gls.take(0), "id"@) is None);
    }
    while !done
        invariant
            4 <= lo <= e <= t@.len(),
            yaml == t@.subrange(4, e as int),
            gls == split_lines(yaml),
            0 <= cnt,
            !done ==> cnt <= gls.len() && gls =~= gls.take(cnt) + split_lines(
                yaml.skip(lo - 4),
            ),
            done ==> cnt == gls.len(),
            osv(slots.id_v) == fm_lookup(gls.take(cnt), "id"@),
            osv(slots.created_v) == fm_lookup(gls.take(cnt), "created"@),
            osv(slots.updated_v) == fm_lookup(gls.take(cnt), "updated"@),
            osv(slots.device_v) == fm_lookup(gls.take(cnt), "device"@),
            osv(slots.type_v) == fm_lookup(gls.take(cnt), "type"@),
            osv(slots.sort_v) == fm_lookup(gls.take(cnt), "sort"@),
        decreases e - lo + (if done {
            0int
        } else {
            1int
        }),
    {
        proof {
            lemma_fm_keys_distinct();
        }
        let ghost rem = yaml.skip(lo - 4);
        let mut k: usize = lo;
        while k < e && t[k] != '\n'
            invariant
                lo <= k <= e <= t@.len(),
                forall|j: int| lo <= j < k ==> t@[j] != '\n',
            decreases e - k,
        {
            k = k + 1;
        }
        let ghost line = t@.subrange(lo as int, k as int);
        proof {
            assert forall|j: int| 0 <= j < k - lo implies rem[j] != '\n' by {
                assert(rem[j] == t@[j + lo]);
            }
            if k < e {
                assert(rem[k - lo] == t@[k as int]);
            }
            lemma_split_lines_step(rem, k - lo);
            assert(rem.take(k - lo) =~= line);
            if k < e {
                assert(rem.skip(k - lo + 1) =~= yaml.skip(k + 1 - 4));
                assert(split_lines(rem) == seq![line] + split_lines(yaml.skip(k + 1 - 4)));
            } else {
                assert(rem =~= line);
                assert(split_lines(rem) == seq![line]);
            }
            // The processed prefix grows by this line.
            assert(gls.take(cnt + 1) =~= gls.take(cnt).push(line)) by {
                assert(gls =~= gls.take(cnt) + split_lines(rem));
                assert(gls[cnt] == split_lines(rem)[0]);
                assert(split_lines(rem)[0] == line);
            }
        }
        // First colon of the line.
        let mut c: usize = lo;
        while c < k && t[c] != ':'
            invariant
                lo <= c <= k <= t@.len(),
                forall|j: int| lo <= j < c ==> t@[j] != ':',
            decreases k - c,
        {
            c = c + 1;
        }
        proof {
            assert forall|j: int| 0 <= j < c - lo implies line[j] != ':' by {
                assert(line[j] == t@[j + lo]);
            }
            if c < k {
                assert(line[c - lo] == t@[c as int]);
            }
            lemma_find_char_from(line, ':', 0, c - lo);
        }
        if c < k {
            let kb = trim_bounds(t, lo, c);
            let vb = trim_bounds(t, c + 1, k);
            proof {
                assert(line.take(c - lo) =~= t@.subrange(lo as int, c as int));
                assert(line.skip(c - lo + 1) =~= t@.subrange(c + 1, k as int));
            }
            let ghost value = t@.subrange(vb.0 as int, vb.1 as int);
            if range_eq_str(t, kb.0, kb.1, "id") {
                slots.id_v = Some(copy_range(t, vb.0, vb.1));
            } else if range_eq_str(t, kb.0, kb.1, "created") {
                slots.created_v = Some(copy_range(t, vb.0, vb.1));
            } else if range_eq_str(t, kb.0, kb.1, "updated") {
                slots.updated_v = Some(copy_range(t, vb.0, vb.1));
            } else if range_eq_str(t, kb.0, kb.1, "device") {
                slots.device_v = Some(copy_range(t, vb.0, vb.1));
            } else if range_eq_str(t, kb.0, kb.1, "type") {
                slots.type_v = Some(copy_range(t, vb.0, vb.1));
            } else if range_eq_str(t, kb.0, kb.1, "sort") {
                slots.sort_v = Some(copy_range(t, vb.0, vb.1));
            }
        } else {
            proof {
                assert(line_colon(line) == line.len());
            }
        }
        proof {
            lemma_fm_lookup_push(gls.take(cnt), line, "id"@);
            lemma_fm_lookup_push(gls.take(cnt), line, "created"@);
            lemma_fm_lookup_push(gls.take(cnt), line, "updated"@);
            lemma_fm_lookup_push(gls.take(cnt), line, "device"@);
            lemma_fm_lookup_push(gls.take(cnt), line, "type"@);
            lemma_fm_lookup_push(gls.take(cnt), line, "sort"@);
            cnt = cnt + 1;
        }
        if k < e {
            lo = k + 1;
        } else {
            done = true;
            proof {
                assert(gls =~= gls.take(cnt - 1) + seq![line]);
                assert(cnt == gls.len());
                assert(gls.take(cnt) =~= gls);
            }
        }
        proof {
            if !done {
                assert(gls =~= gls.take(cnt) + split_lines(yaml.skip(lo - 4)));
            }
            assert(gls.take(cnt) == gls.take(cnt - 1).push(line));
        }
    }
    proof {
        assert(gls.take(gls.len() as int) =~= gls);
    }
    slots
}

/// The title the body region `blo..` declares.
fn body_title(t: &Vec<char>, blo: usize) -> (r: String)
    requires
        blo <= t@.len(),
    ensures
        r@ == heading_title(split_lines(t@.skip(blo as int))),
{
    let ghost body = t@.skip(blo as int);
    let ghost gbls = split_lines(body);
    let n = t.len();
    let mut lo: usize = blo;
    let mut done: bool = false;
    let mut title: Option<String> = None;
    proof {
        assert(body.skip(0) =~= body);
    }
    while !done
        invariant
            blo <= lo <= n == t@.len(),
            body == t@.skip(blo as int),
            gbls == split_lines(body),
            !done ==> title is None && heading_title(gbls) == heading_title(
                split_lines(body.skip(lo - blo)),
            ),
            done ==> (match title {
                Some(s) => s@ == heading_title(gbls),
                None => heading_title(gbls) == "Untitled"@,
            }),
        decreases n - lo + (if done {
            0int
        } else {
            1int
        }),
    {
        let ghost rem = body.skip(lo - blo);
        let mut k: usize = lo;
        while k < n && t[k] != '\n'
            invariant
                lo <= k <= n == t@.len(),
                forall|j: int| lo <= j < k ==> t@[j] != '\n',
            decreases n - k,
        {
            k = k + 1;
        }
        let ghost line = t@.subrange(lo as int, k as int);
        proof {
            assert forall|j: int| 0 <= j < k - lo implies rem[j] != '\n' by {
                assert(rem[j] == t@[j + lo]);
            }
            if k < n {
                assert(rem[k - lo] == t@[k as int]);
            }
            lemma_split_lines_step(rem, k - lo);
            assert(rem.take(k - lo) =~= line);
            if k < n {
                assert(rem.skip(k - lo + 1) =~= body.skip(k + 1 - blo));
                assert(split_lines(rem) == seq![line] + split_lines(body.skip(k + 1 - blo)));
                lemma_heading_title_cons(line, split_lines(body.skip(k + 1 - blo)));
            } else {
                assert(rem =~= line);
                assert(split_lines(rem) == seq![line]);
                assert(seq![line] =~= seq![line] + Seq::<Seq<char>>::empty());
                lemma_heading_title_cons(line, Seq::<Seq<char>>::empty());
                assert(heading_title(Seq::<Seq<char>>::empty()) == "Untitled"@);
            }
        }
        if k - lo >= 2 && t[lo] == '#' && t[lo + 1] == ' ' {
            proof {
                assert(line[0] == t@[lo as int]);
                assert(line[1] == t@[lo + 1]);
                assert(is_heading(line));
            }
            let tb = trim_bounds(t, lo + 2, k);
            let tv = copy_range(t, tb.0, tb.1);
            proof {
                assert(line.skip(2) =~= t@.subrange(lo + 2, k as int));
            }
            title = Some(string_of_chars(&tv));
            done = true;
        } else {
            proof {
                if k - lo >= 2 {
                    assert(line[0] == t@[lo as int]);
                    assert(line[1] == t@[lo + 1]);
                }
                assert(!is_heading(line));
            }
            if k < n {
                lo = k + 1;
            } else {
                done = true;
            }
        }
    }
    match title {
        Some(s) => s,
        None => String::from_str("Untitled"),
    }
}

/// The bounds of the trimmed body content after the title heading, within
/// the body region `blo..`.
fn body_content_bounds(t: &Vec<char>, blo: usize) -> (r: (usize, usize))
    requires
        blo <= t@.len(),
    ensures
        blo <= r.0 <= r.1 <= t@.len(),
        t@.subrange(r.0 as int, r.1 as int) == content_of(t@.skip(blo as int)),
{
    let ghost body = t@.skip(blo as int);
    let n = t.len();
    // First `\n# ` lead-in.
    let mut i: usize = blo;
    let mut found: bool = false;
    while !found && n - i >= 3
        invariant
            blo <= i <= n == t@.len(),
            body == t@.skip(blo as int),
            forall|j: int| 0 <= j < i - blo ==> !heading_lead_at(body, j),
            found ==> heading_lead_at(body, i - blo),
        decreases n - i + (if found {
            0int
        } else {
            1int
        }),
    {
        if t[i] == '\n' && t[i + 1] == '#' && t[i + 2] == ' ' {
            proof {
                assert(body[i - blo] == t@[i as int]);
                assert(body[i - blo + 1] == t@[i + 1]);
                assert(body[i - blo + 2] == t@[i + 2]);
            }
            found = true;
        } else {
            proof {
                if i - blo + 3 <= body.len() {
                    assert(body[i - blo] == t@[i as int]);
                    assert(body[i - blo + 1] == t@[i + 1]);
                    assert(body[i - blo + 2] == t@[i + 2]);
                }
            }
            i = i + 1;
        }
    }
    let cstart: usize;
    if !found {
        proof {
            assert forall|j: int| 0 <= j < body.len() implies !heading_lead_at(body, j) by {
                if j < i - blo {
                } else {
                    assert(j + 3 > body.len());
                }
            }
            lemma_find_heading_lead(body, 0, body.len() as int);
            assert(content_start(body) == 0);
        }
        cstart = blo;
    } else {
        proof {
            lemma_find_heading_lead(body, 0, i - blo);
        }
        // End of the heading line.
        let mut j: usize = i + 1;
        while j < n && t[j] != '\n'
            invariant
                i + 1 <= j <= n == t@.len(),
                body == t@.skip(blo as int),
                blo <= i,
                forall|q: int| i + 1 <= q < j ==> t@[q] != '\n',
            decreases n - j,
        {
            j = j + 1;
        }
        proof {
            assert forall|q: int| i + 1 - blo <= q < j - blo implies body[q] != '\n' by {
                assert(body[q] == t@[q + blo]);
            }
            if j < n {
                assert(body[j - blo] == t@[j as int]);
            }
            lemma_find_char_from(body, '\n', i + 1 - blo, j - blo);
        }
        if j < n {
            cstart = j + 1;
        } else {
            cstart = n;
        }
        proof {
            assert(content_start(body) == cstart - blo);
        }
    }
    let cb = trim_bounds(t, cstart, n);
    proof {
        assert(body.skip(content_start(body)) =~= t@.subrange(cstart as int, n as int));
    }
    cb
}

/// Turns a raw sort-option value into its stored token: ASCII uppercased,
/// dashes turned into underscores.
fn sort_token_of(v: &Vec<char>) -> (r: String)
    ensures
        r@ == ascii_upper_us(v@),
{
    let mut buf: Vec<char> = Vec::new();
    let mut i: usize = 0;
    while i < v.len()
        invariant
            i <= v@.len(),
            buf@.len() == i,
            forall|k: int| 0 <= k < i ==> #[trigger] buf@[k] == upper_us_char(v@[k]),
        decreases v@.len() - i,
    {
        buf.push(upper_us_char_x(v[i]));
        i = i + 1;
    }
    proof {
        assert(buf@ =~= ascii_upper_us(v@));
    }
    string_of_chars(&buf)
}

/// Parses a frontmatter-annotated document into a note.
///
/// The codec degrades gracefully: a missing `id` gets a fresh one, a
/// missing or unknown `type` means text, an unparsable `created` falls back
/// to the clock and an unparsable `updated` to the created value, and the
/// supplied server modification time overrides `updated` only when strictly
/// greater.  Only a document with no frontmatter block at all is rejected.
#[verifier::rlimit(100)]
pub fn parse_markdown(md: &str, server_mtime: Option<i64>) -> (r: Result<Note, AppError>)
    ensures
        r is Ok <==> has_frontmatter(md@),
        match r {
            Ok(n) => parse_ok(md@, opt_int(server_mtime), n@),
            Err(e) => e matches AppError::ParseError(d) && d@ == "No frontmatter found"@,
        },
{
    let t = chars_of(md);
    let n = t.len();
    if n < 4 || !(t[0] == '-' && t[1] == '-' && t[2] == '-' && t[3] == '\n') {
        return Err(AppError::ParseError(String::from_str("No frontmatter found")));
    }
    // Closing delimiter of the frontmatter block.
    let mut i: usize = 4;
    let mut found: bool = false;
    while !found && n - i >= 5
        invariant
            4 <= i <= n == t@.len(),
            t@ == md@,
            forall|j: int| 4 <= j < i ==> !delim_at(md@, j),
            found ==> delim_at(md@, i as int),
        decreases n - i + (if found {
            0int
        } else {
            1int
        }),
    {
        if t[i] == '\n' && t[i + 1] == '-' && t[i + 2] == '-' && t[i + 3] == '-' && t[i + 4]
            == '\n' {
            found = true;
        } else {
            proof {
                if i + 5 <= n {
                    assert(!delim_at(md@, i as int));
                }
            }
            i = i + 1;
        }
    }
    if !found {
        proof {
            assert forall|j: int| 4 <= j < md@.len() implies !delim_at(md@, j) by {
                if j >= i {
                    assert(j + 5 > md@.len());
                }
            }
            lemma_find_delim(md@, 4, md@.len() as int);
        }
        return Err(AppError::ParseError(String::from_str("No frontmatter found")));
    }
    let e = i;
    proof {
        lemma_find_delim(md@, 4, e as int);
        assert(has_frontmatter(md@));
    }
    let ghost body = md@.skip(e + 5);
    let slots = fm_slots(&t, e);
    let blo = e + 5;
    let title = body_title(&t, blo);
    let cb = body_content_bounds(&t, blo);
    let is_checklist = match &slots.type_v {
        Some(v) => {
            proof {
                assert(v@.subrange(0, v@.len() as int) =~= v@);
            }
            range_eq_str(v, 0, v.len(), "checklist")
        },
        None => false,
    };
    let created_at: i64 = match &slots.created_v {
        Some(cs) => {
            let s = string_of_chars(cs);
            match iso_to_timestamp(s.as_str()) {
                Ok(v) => v,
                Err(_) => crate::provider::now_millis(),
            }
        },
        None => crate::provider::now_millis(),
    };
    let doc_updated: i64 = match &slots.updated_v {
        Some(us) => {
            let s = string_of_chars(us);
            match iso_to_timestamp(s.as_str()) {
                Ok(v) => v,
                Err(_) => created_at,
            }
        },
        None => created_at,
    };
    let updated_at = reconcile_updated(doc_updated, server_mtime);
    let id: String = match &slots.id_v {
        Some(v) => string_of_chars(v),
        None => fresh_uuid(),
    };
    let device_id: String = match &slots.device_v {
        Some(v) => string_of_chars(v),
        None => String::from_str("unknown"),
    };
    let checklist_sort_option: Option<String> = match &slots.sort_v {
        Some(v) => Some(sort_token_of(v)),
        None => None,
    };
    let note_type: NoteType;
    let content: String;
    let checklist_items: Option<Vec<ChecklistItem>>;
    if is_checklist {
        note_type = NoteType::Checklist;
        let cv = copy_range(&t, cb.0, cb.1);
        let cs = string_of_chars(&cv);
        let items = parse_checklist_items(cs.as_str());
        content = generate_checklist_fallback(&items);
        checklist_items = Some(items);
    } else {
        note_type = NoteType::Text;
        content = string_of_chars(&copy_range(&t, cb.0, cb.1));
        checklist_items = None;
    }
    let note = Note {
        id,
        title,
        content,
        created_at,
        updated_at,
        device_id,
        sync_status: SyncStatus::Synced,
        note_type,
        checklist_items,
        checklist_sort_option,
    };
    Ok(note)
}

// ----- The render/parse round trip -----

/// A text that survives the rendered line structure: no newline anywhere,
/// and trimming returns it unchanged.
pub open spec fn line_clean(s: Seq<char>) -> bool {
    (forall|i: int| 0 <= i < s.len() ==> s[i] != '\n') && trim_ws(s) == s
}

/// An item whose rendered bullet line parses back to the same text.
pub open spec fn wf_render_item(it: ChecklistItemV) -> bool {
    it.text.len() > 0 && line_clean(it.text)
}

/// A character of a stored sort-option token: a capital letter or an
/// underscore.
pub open spec fn is_sort_token_char(c: char) -> bool {
    c == 'A' || c == 'B' || c == 'C' || c == 'D' || c == 'E' || c == 'F' || c == 'G' || c == 'H'
        || c == 'I' || c == 'J' || c == 'K' || c == 'L' || c == 'M' || c == 'N' || c == 'O' || c
        == 'P' || c == 'Q' || c == 'R' || c == 'S' || c == 'T' || c == 'U' || c == 'V' || c == 'W'
        || c == 'X' || c == 'Y' || c == 'Z' || c == '_'
}

/// What the round-trip law asks of a note: field values that survive the
/// rendered line structure, and timestamps the text form can carry.
pub open spec fn wf_render_note(n: NoteV) -> bool {
    &&& line_clean(n.id)
    &&& line_clean(n.device_id)
    &&& line_clean(n.title)
    &&& crate::timestamp::ts_in_range(n.created_at) && n.created_at % 1000 == 0
    &&& crate::timestamp::ts_in_range(n.updated_at) && n.updated_at % 1000 == 0
    &&& (match n.checklist_sort_option {
        Some(so) => forall|i: int| 0 <= i < so.len() ==> is_sort_token_char(#[trigger] so[i]),
        None => true,
    })
    &&& (match n.note_type {
        NoteType::Text => n.checklist_items is None && trim_ws(n.content) == n.content,
        NoteType::Checklist => (match n.checklist_items {
            Some(its) => forall|i: int| 0 <= i < its.len() ==> wf_render_item(#[trigger] its[i]),
            None => false,
        }),
    })
}

/// Every newline of `s` is followed by something other than a dash, so no
/// frontmatter delimiter hides in it.
pub open spec fn nl_ok(s: Seq<char>) -> bool {
    forall|k: int| 0 <= k < s.len() && #[trigger] s[k] == '\n' ==> (k + 1 == s.len() || s[k + 1] != '-')
}

proof fn lemma_nl_ok_line(l: Seq<char>, rest: Seq<char>)
    requires
        forall|i: int| 0 <= i < l.len() ==> l[i] != '\n',
        rest.len() > 0 ==> rest[0] != '-',
        nl_ok(rest),
    ensures
        nl_ok(l + seq!['\n'] + rest),
{
    let s = l + seq!['\n'] + rest;
    assert forall|k: int| 0 <= k < s.len() && #[trigger] s[k] == '\n' implies (k + 1 == s.len()
        || s[k + 1] != '-') by {
        if k < l.len() {
            assert(s[k] == l[k]);
        } else if k == l.len() {
            if k + 1 < s.len() {
                assert(s[k + 1] == rest[0]);
            }
        } else {
            assert(s[k] == rest[k - l.len() - 1]);
            if k + 1 < s.len() {
                assert(s[k + 1] == rest[k - l.len()]);
            }
        }
    }
}

proof fn lemma_split_first_line(s: Seq<char>, l: Seq<char>, rest: Seq<char>)
    requires
        s == l + seq!['\n'] + rest,
        forall|i: int| 0 <= i < l.len() ==> l[i] != '\n',
    ensures
        split_lines(s) == seq![l] + split_lines(rest),
{
    assert forall|j: int| 0 <= j < l.len() implies s[j] != '\n' by {
        assert(s[j] == l[j]);
    }
    assert(s[l.len() as int] == '\n');
    lemma_split_lines_step(s, l.len() as int);
    assert(s.take(l.len() as int) =~= l);
    assert(s.skip(l.len() as int + 1) =~= rest);
}

proof fn lemma_split_single_line(l: Seq<char>)
    requires
        forall|i: int| 0 <= i < l.len() ==> l[i] != '\n',
    ensures
        split_lines(l) == seq![l],
{
    lemma_split_lines_step(l, l.len() as int);
}

/// A rendered `key: value` line: where its colon is, which key it binds,
/// and that the bound value reads back exactly.
proof fn lemma_kv_line(pre: Seq<char>, key: Seq<char>, val: Seq<char>)
    requires
        pre == key + seq![':', ' '],
        key.len() > 0,
        forall|i: int| 0 <= i < key.len() ==> key[i] != ':' && key[i] != '\n',
        trim_ws(key) == key,
        forall|i: int| 0 <= i < val.len() ==> val[i] != '\n',
        trim_ws(val) == val,
    ensures
        ({
            let l = pre + val;
            &&& forall|i: int| 0 <= i < l.len() ==> l[i] != '\n'
            &&& line_colon(l) == key.len()
            &&& line_colon(l) < l.len()
            &&& trim_ws(l.take(line_colon(l))) == key
            &&& line_value(l) == val
            &&& forall|k2: Seq<char>| #[trigger] line_has_key(l, k2) <==> k2 == key
        }),
{
    let l = pre + val;
    assert forall|i: int| 0 <= i < l.len() implies l[i] != '\n' by {
        if i < key.len() {
            assert(l[i] == key[i]);
        } else if i < key.len() + 2 {
        } else {
            assert(l[i] == val[i - key.len() - 2]);
        }
    }
    assert forall|j: int| 0 <= j < key.len() implies l[j] != ':' by {
        assert(l[j] == key[j]);
    }
    assert(l[key.len() as int] == ':');
    lemma_find_char_from(l, ':', 0, key.len() as int);
    assert(l.take(key.len() as int) =~= key);
    assert(l.skip(key.len() as int + 1) =~= seq![' '] + val);
    lemma_trim_ws_cons(' ', val);
    assert(line_value(l) == val);
    assert forall|k2: Seq<char>| #[trigger] line_has_key(l, k2) <==> k2 == key by {}
}

proof fn lemma_fm_lookup_push_all(ls: Seq<Seq<char>>, l: Seq<char>)
    ensures
        forall|key: Seq<char>|
            #[trigger] fm_lookup(ls.push(l), key) == (if line_has_key(l, key) {
                Some(line_value(l))
            } else {
                fm_lookup(ls, key)
            }),
{
    assert forall|key: Seq<char>|
        #[trigger] fm_lookup(ls.push(l), key) == (if line_has_key(l, key) {
            Some(line_value(l))
        } else {
            fm_lookup(ls, key)
        }) by {
        lemma_fm_lookup_push(ls, l, key);
    }
}

/// A rendered sort-option token lowers and recovers to itself, and its
/// lowered form holds no whitespace or newline.
proof fn lemma_sort_token_round(so: Seq<char>)
    requires
        forall|i: int| 0 <= i < so.len() ==> is_sort_token_char(#[trigger] so[i]),
    ensures
        ascii_upper_us(ascii_lower(so)) == so,
        forall|i: int|
            0 <= i < so.len() ==> !is_ws_char(#[trigger] ascii_lower(so)[i]) && ascii_lower(so)[i]
                != '\n' && ascii_lower(so)[i] != ':',
{
    assert forall|i: int|
        0 <= i < so.len() implies !is_ws_char(#[trigger] ascii_lower(so)[i]) && ascii_lower(so)[i]
        != '\n' && ascii_lower(so)[i] != ':' && upper_us_char(ascii_lower(so)[i]) == so[i] by {
        assert(ascii_lower(so)[i] == lower_char(so[i]));
        assert(is_sort_token_char(so[i]));
    }
    assert(ascii_upper_us(ascii_lower(so)) =~= so);
}

/// What one rendered bullet line parses back to.
proof fn lemma_bullet_line_match(it: ChecklistItemV)
    requires
        wf_render_item(it),
    ensures
        ({
            let bl = bullet_line_of(it);
            let l = bl.drop_last();
            &&& bl.len() == 7 + it.text.len()
            &&& bl.last() == '\n'
            &&& bl[0] == '-'
            &&& l.len() == 6 + it.text.len()
            &&& forall|i: int| 0 <= i < l.len() ==> l[i] != '\n'
            &&& l[0] == '-'
            &&& !is_ws_char(l.last())
            &&& line_match(l, true) == Some((it.is_checked, it.text))
        }),
{
    let bl = bullet_line_of(it);
    let l = bl.drop_last();
    let mark: char = if it.is_checked { 'x' } else { ' ' };
    assert(bl =~= seq!['-', ' ', '[', mark, ']', ' '] + it.text + seq!['\n']);
    assert(l =~= seq!['-', ' ', '[', mark, ']', ' '] + it.text);
    crate::chars::lemma_clean_edges(it.text);
    assert forall|i: int| 0 <= i < l.len() implies l[i] != '\n' by {
        if i >= 6 {
            assert(l[i] == it.text[i - 6]);
        }
    }
    assert(l.last() == it.text.last());
    lemma_ws_run_end(l, 1, 2);
    assert(l.skip(5) =~= seq![' '] + it.text);
    lemma_trim_ws_cons(' ', it.text);
    assert(checkbox_parse(l, 2) == Some((it.is_checked, it.text)));
}

/// The bullet lines of well-formed items, with the final newline trimmed,
/// split and parse back to exactly those items' marks.
proof fn lemma_checklist_chop_parse(its: Seq<ChecklistItemV>)
    requires
        its.len() > 0,
        forall|i: int| 0 <= i < its.len() ==> wf_render_item(#[trigger] its[i]),
    ensures
        ({
            let ll = checklist_lines(its);
            &&& ll.len() > 0
            &&& ll.last() == '\n'
            &&& ll[0] == '-'
            &&& ll.drop_last().len() > 0
            &&& !is_ws_char(ll.drop_last().last())
            &&& checkbox_matches(split_lines(ll.drop_last()), true) == marks_of(its)
        }),
    decreases its.len(),
{
    let it0 = its[0];
    let rest = its.drop_first();
    let bl0 = bullet_line_of(it0);
    let l0 = bl0.drop_last();
    lemma_bullet_line_match(it0);
    let ll = checklist_lines(its);
    if its.len() == 1 {
        assert(rest =~= Seq::<ChecklistItemV>::empty());
        assert(checklist_lines(rest) == Seq::<char>::empty());
        assert(ll =~= bl0);
        assert(ll.drop_last() =~= l0);
        lemma_split_single_line(l0);
        lemma_checkbox_matches_cons(l0, Seq::<Seq<char>>::empty(), true);
        assert(seq![l0] =~= seq![l0] + Seq::<Seq<char>>::empty());
        assert(checkbox_matches(Seq::<Seq<char>>::empty(), true) == Seq::<(
            bool,
            Seq<char>,
        )>::empty());
        assert(checkbox_matches(split_lines(ll.drop_last()), true) =~= seq![
            (it0.is_checked, it0.text),
        ]);
        assert(marks_of(its) =~= seq![(it0.is_checked, it0.text)]);
    } else {
        assert forall|i: int| 0 <= i < rest.len() implies wf_render_item(#[trigger] rest[i]) by {
            assert(rest[i] == its[i + 1]);
        }
        lemma_checklist_chop_parse(rest);
        let lr = checklist_lines(rest);
        assert(ll == bl0 + lr);
        assert(ll.last() == lr.last());
        assert(ll[0] == bl0[0]);
        assert(ll.drop_last() =~= l0 + seq!['\n'] + lr.drop_last());
        assert(ll.drop_last().last() == lr.drop_last().last());
        lemma_split_first_line(ll.drop_last(), l0, lr.drop_last());
        lemma_checkbox_matches_cons(l0, split_lines(lr.drop_last()), true);
        assert(checkbox_matches(split_lines(ll.drop_last()), true) == seq![
            (it0.is_checked, it0.text),
        ] + marks_of(rest));
        assert(marks_of(its) =~= seq![(it0.is_checked, it0.text)] + marks_of(rest));
    }
}

/// The `id` line of the rendered frontmatter.
pub open spec fn fm_line_id(n: NoteV) -> Seq<char> {
    "id: "@ + n.id
}

/// The `created` line of the rendered frontmatter.
pub open spec fn fm_line_created(n: NoteV) -> Seq<char> {
    "created: "@ + iso_of_millis(n.created_at)
}

/// The `updated` line of the rendered frontmatter.
pub open spec fn fm_line_updated(n: NoteV) -> Seq<char> {
    "updated: "@ + iso_of_millis(n.updated_at)
}

/// The `device` line of the rendered frontmatter.
pub open spec fn fm_line_device(n: NoteV) -> Seq<char> {
    "device: "@ + n.device_id
}

/// The `type` line of the rendered frontmatter.
pub open spec fn fm_line_type(n: NoteV) -> Seq<char> {
    "type: "@ + note_type_token(n.note_type)
}

/// The `sort` line of the rendered frontmatter, when one is emitted.
pub open spec fn fm_line_sort(n: NoteV) -> Seq<char> {
    match n.checklist_sort_option {
        Some(so) => "sort: "@ + ascii_lower(so),
        None => Seq::empty(),
    }
}

/// The lines of the rendered frontmatter block.
pub open spec fn fm_lines(n: NoteV) -> Seq<Seq<char>> {
    let base = seq![
        fm_line_id(n),
        fm_line_created(n),
        fm_line_updated(n),
        fm_line_device(n),
        fm_line_type(n),
    ];
    match n.checklist_sort_option {
        Some(so) => base.push(fm_line_sort(n)),
        None => base,
    }
}

/// How a rendered document decomposes: the frontmatter lead, the closing
/// delimiter found exactly at the end of the frontmatter, the frontmatter
/// lines, and the body after the delimiter.
#[verifier::rlimit(100)]
#[verifier::spinoff_prover]
proof fn lemma_render_structure(n: NoteV)
    requires
        wf_render_note(n),
    ensures
        ({
            let doc = render_spec(n);
            let fm = render_frontmatter(n);
            &&& doc.len() >= 4
            &&& doc[0] == '-' && doc[1] == '-' && doc[2] == '-' && doc[3] == '\n'
            &&& 4 <= fm.len() < doc.len()
            &&& find_delim(doc, 4) == fm.len()
            &&& split_lines(doc.subrange(4, fm.len() as int)) == fm_lines(n)
            &&& doc.skip(fm.len() as int + 5) == "\n# "@ + n.title + "\n\n"@ + render_body(n)
        }),
{
    let doc = render_spec(n);
    let fm = render_frontmatter(n);
    reveal_strlit("---\n");
    reveal_strlit("---\nid: ");
    reveal_strlit("\ncreated: ");
    reveal_strlit("\nupdated: ");
    reveal_strlit("\ndevice: ");
    reveal_strlit("\ntype: ");
    reveal_strlit("\nsort: ");
    reveal_strlit("\n---\n\n# ");
    reveal_strlit("\n---\n");
    reveal_strlit("\n# ");
    reveal_strlit("\n\n");
    reveal_strlit("id: ");
    reveal_strlit("created: ");
    reveal_strlit("updated: ");
    reveal_strlit("device: ");
    reveal_strlit("type: ");
    reveal_strlit("sort: ");
    reveal_strlit("text");
    reveal_strlit("checklist");
    lemma_iso_of_millis_clean(n.created_at);
    lemma_iso_of_millis_clean(n.updated_at);
    let nl = seq!['\n'];
    let l1 = fm_line_id(n);
    let l2 = fm_line_created(n);
    let l3 = fm_line_updated(n);
    let l4 = fm_line_device(n);
    let l5 = fm_line_type(n);
    // Newline-freedom of each line.
    assert forall|i: int| 0 <= i < l1.len() implies l1[i] != '\n' by {
        if i >= 4 {
            assert(l1[i] == n.id[i - 4]);
        }
    }
    assert forall|i: int| 0 <= i < l2.len() implies l2[i] != '\n' by {
        if i >= 9 {
            assert(l2[i] == iso_of_millis(n.created_at)[i - 9]);
            assert(!is_ws_char(iso_of_millis(n.created_at)[i - 9]));
        }
    }
    assert forall|i: int| 0 <= i < l3.len() implies l3[i] != '\n' by {
        if i >= 9 {
            assert(l3[i] == iso_of_millis(n.updated_at)[i - 9]);
            assert(!is_ws_char(iso_of_millis(n.updated_at)[i - 9]));
        }
    }
    assert forall|i: int| 0 <= i < l4.len() implies l4[i] != '\n' by {
        if i >= 8 {
            assert(l4[i] == n.device_id[i - 8]);
        }
    }
    assert forall|i: int| 0 <= i < l5.len() implies l5[i] != '\n' by {
        if i >= 6 {
            assert(l5[i] == note_type_token(n.note_type)[i - 6]);
        }
    }
    // The frontmatter as lead plus newline-separated lines.
    match n.checklist_sort_option {
        Some(so) => {
            lemma_sort_token_round(so);
            let l6 = fm_line_sort(n);
            assert forall|i: int| 0 <= i < l6.len() implies l6[i] != '\n' by {
                if i >= 6 {
                    assert(l6[i] == ascii_lower(so)[i - 6]);
                }
            }
            let r6 = l6;
            let r5 = l5 + nl + r6;
            let r4 = l4 + nl + r5;
            let r3 = l3 + nl + r4;
            let r2 = l2 + nl + r3;
            let ybody = l1 + nl + r2;
            assert(fm =~= "---\n"@ + ybody);
            lemma_render_structure_tail(n, ybody, doc, fm);
            // Lines of the frontmatter body.
            lemma_split_first_line(ybody, l1, r2);
            lemma_split_first_line(r2, l2, r3);
            lemma_split_first_line(r3, l3, r4);
            lemma_split_first_line(r4, l4, r5);
            lemma_split_first_line(r5, l5, r6);
            lemma_split_single_line(l6);
            assert(split_lines(ybody) =~= fm_lines(n));
            // No delimiter inside the frontmatter body.
            assert(nl_ok(r6));
            assert(r6.len() > 0 ==> r6[0] != '-');
            lemma_nl_ok_line(l5, r6);
            assert(r5[0] != '-');
            lemma_nl_ok_line(l4, r5);
            assert(r4[0] != '-');
            lemma_nl_ok_line(l3, r4);
            assert(r3[0] != '-');
            lemma_nl_ok_line(l2, r3);
            assert(r2[0] != '-');
            lemma_nl_ok_line(l1, r2);
            lemma_render_delim(n, ybody, doc, fm);
        },
        None => {
            let r5 = l5;
            let r4 = l4 + nl + r5;
            let r3 = l3 + nl + r4;
            let r2 = l2 + nl + r3;
            let ybody = l1 + nl + r2;
            assert(fm =~= "---\n"@ + ybody);
            lemma_render_structure_tail(n, ybody, doc, fm);
            lemma_split_first_line(ybody, l1, r2);
            lemma_split_first_line(r2, l2, r3);
            lemma_split_first_line(r3, l3, r4);
            lemma_split_first_line(r4, l4, r5);
            lemma_split_single_line(l5);
            assert(split_lines(ybody) =~= fm_lines(n));
            assert(nl_ok(r5));
            assert(r5[0] != '-');
            lemma_nl_ok_line(l4, r5);
            assert(r4[0] != '-');
            lemma_nl_ok_line(l3, r4);
            assert(r3[0] != '-');
            lemma_nl_ok_line(l2, r3);
            assert(r2[0] != '-');
            lemma_nl_ok_line(l1, r2);
            lemma_render_delim(n, ybody, doc, fm);
        },
    }
}

/// The lead of the document and its split into frontmatter and body.
proof fn lemma_render_structure_tail(n: NoteV, ybody: Seq<char>, doc: Seq<char>, fm: Seq<char>)
    requires
        doc == render_spec(n),
        fm == render_frontmatter(n),
        fm =~= "---\n"@ + ybody,
    ensures
        doc.len() >= fm.len() as int + 8,
        fm.len() as int == 4 + ybody.len() as int,
        doc[0] == '-' && doc[1] == '-' && doc[2] == '-' && doc[3] == '\n',
        forall|j: int| 0 <= j < ybody.len() ==> #[trigger] doc[4 + j] == ybody[j],
        doc.subrange(4, fm.len() as int) =~= ybody,
        doc[fm.len() as int] == '\n' && doc[fm.len() as int + 1] == '-' && doc[fm.len() as int + 2] == '-'
            && doc[fm.len() as int + 3] == '-' && doc[fm.len() as int + 4] == '\n',
        doc.skip(fm.len() as int + 5) =~= "\n# "@ + n.title + "\n\n"@ + render_body(n),
{
    reveal_strlit("---\n");
    reveal_strlit("\n---\n\n# ");
    reveal_strlit("\n# ");
    assert(doc == fm + "\n---\n\n# "@ + n.title + "\n\n"@ + render_body(n));
    assert(doc[0] == fm[0]);
    assert(doc[1] == fm[1]);
    assert(doc[2] == fm[2]);
    assert(doc[3] == fm[3]);
    assert forall|j: int| 0 <= j < ybody.len() implies #[trigger] doc[4 + j] == ybody[j] by {
        assert(doc[4 + j] == fm[4 + j]);
    }
    assert(doc.subrange(4, fm.len() as int) =~= ybody);
    assert(doc[fm.len() as int] == "\n---\n\n# "@[0]);
    assert(doc[fm.len() as int + 1] == "\n---\n\n# "@[1]);
    assert(doc[fm.len() as int + 2] == "\n---\n\n# "@[2]);
    assert(doc[fm.len() as int + 3] == "\n---\n\n# "@[3]);
    assert(doc[fm.len() as int + 4] == "\n---\n\n# "@[4]);
    assert(doc.skip(fm.len() as int + 5) =~= "\n# "@ + n.title + "\n\n"@ + render_body(n));
}

/// The closing delimiter is found exactly at the end of the frontmatter.
proof fn lemma_render_delim(n: NoteV, ybody: Seq<char>, doc: Seq<char>, fm: Seq<char>)
    requires
        doc == render_spec(n),
        fm == render_frontmatter(n),
        fm.len() as int == 4 + ybody.len() as int,
        doc.len() >= fm.len() as int + 8,
        forall|j: int| 0 <= j < ybody.len() ==> #[trigger] doc[4 + j] == ybody[j],
        doc[fm.len() as int] == '\n' && doc[fm.len() as int + 1] == '-' && doc[fm.len() as int + 2] == '-'
            && doc[fm.len() as int + 3] == '-' && doc[fm.len() as int + 4] == '\n',
        nl_ok(ybody),
    ensures
        find_delim(doc, 4) == fm.len(),
{
    assert(delim_at(doc, fm.len() as int));
    assert forall|j: int| 4 <= j < fm.len() implies !delim_at(doc, j) by {
        if delim_at(doc, j) {
            assert(doc[4 + (j - 4)] == ybody[j - 4]);
            assert(ybody[j - 4] == '\n');
            if j + 1 < fm.len() {
                assert(doc[4 + (j - 3)] == ybody[j - 3]);
                assert(ybody[j - 3] != '-');
                assert(false);
            } else {
                assert(j + 1 == fm.len());
                assert(doc[j + 1] == '\n');
                assert(false);
            }
        }
    }
    lemma_find_delim(doc, 4, fm.len() as int);
}

/// Every rendered well-formed note carries a frontmatter block, so parsing
/// it cannot fail.
pub proof fn lemma_render_has_frontmatter(n: NoteV)
    requires
        wf_render_note(n),
    ensures
        has_frontmatter(render_spec(n)),
{
    lemma_render_structure(n);
}

/// The render/parse round trip.  Parsing a rendered well-formed note gives
/// back its identity, title, device, type, timestamps (with the supplied
/// server modification time applied by the precedence rule) and sort
/// option.  A checklist note comes back a checklist — an empty item list
/// included — holding exactly the rendered items' texts and check states in
/// ascending `order`, renumbered by position; a text note's content comes
/// back unchanged.
#[verifier::rlimit(100)]
#[verifier::spinoff_prover]
pub proof fn lemma_render_parse_round_trip(n: NoteV, server_mtime: Option<int>, m: NoteV)
    requires
        wf_render_note(n),
        parse_ok(render_spec(n), server_mtime, m),
    ensures
        m.id == n.id,
        m.title == n.title,
        m.device_id == n.device_id,
        m.note_type == n.note_type,
        m.created_at == n.created_at,
        m.updated_at == reconcile_updated_spec(n.updated_at, server_mtime),
        m.checklist_sort_option == n.checklist_sort_option,
        m.sync_status == SyncStatus::Synced,
        n.note_type == NoteType::Text ==> m.checklist_items is None && m.content == n.content,
        n.note_type == NoteType::Checklist ==> (match (n.checklist_items, m.checklist_items) {
            (Some(its), Some(mts)) => marks_of(mts) == marks_of(sort_by_order(its))
                && scan_stamped(mts),
            _ => false,
        }),
{
    lemma_render_structure(n);
    lemma_fm_keys_distinct();
    reveal_strlit("id");
    reveal_strlit("created");
    reveal_strlit("updated");
    reveal_strlit("device");
    reveal_strlit("type");
    reveal_strlit("sort");
    reveal_strlit("id: ");
    reveal_strlit("created: ");
    reveal_strlit("updated: ");
    reveal_strlit("device: ");
    reveal_strlit("type: ");
    reveal_strlit("sort: ");
    reveal_strlit("text");
    reveal_strlit("checklist");
    reveal_strlit("\n# ");
    reveal_strlit("\n\n");
    reveal_strlit("# ");
    let doc = render_spec(n);
    let fm = render_frontmatter(n);
    let e = fm.len() as int;
    let yaml = doc.subrange(4, e);
    let body = doc.skip(e + 5);
    let ls = fm_lines(n);
    assert(split_lines(yaml) == ls);
    let iso_c = iso_of_millis(n.created_at);
    let iso_u = iso_of_millis(n.updated_at);
    lemma_iso_of_millis_clean(n.created_at);
    lemma_iso_of_millis_clean(n.updated_at);
    crate::chars::lemma_trim_noedge(iso_c);
    crate::chars::lemma_trim_noedge(iso_u);
    // Each line binds exactly its key.
    assert("id: "@ =~= "id"@ + seq![':', ' ']);
    assert("created: "@ =~= "created"@ + seq![':', ' ']);
    assert("updated: "@ =~= "updated"@ + seq![':', ' ']);
    assert("device: "@ =~= "device"@ + seq![':', ' ']);
    assert("type: "@ =~= "type"@ + seq![':', ' ']);
    assert("sort: "@ =~= "sort"@ + seq![':', ' ']);
    crate::chars::lemma_trim_noedge("id"@);
    crate::chars::lemma_trim_noedge("created"@);
    crate::chars::lemma_trim_noedge("updated"@);
    crate::chars::lemma_trim_noedge("device"@);
    crate::chars::lemma_trim_noedge("type"@);
    crate::chars::lemma_trim_noedge("sort"@);
    lemma_kv_line("id: "@, "id"@, n.id);
    lemma_kv_line("created: "@, "created"@, iso_c);
    lemma_kv_line("updated: "@, "updated"@, iso_u);
    lemma_kv_line("device: "@, "device"@, n.device_id);
    let token = note_type_token(n.note_type);
    crate::chars::lemma_trim_noedge(token);
    assert(forall|i: int| 0 <= i < token.len() ==> #[trigger] token[i] != '\n');
    lemma_kv_line("type: "@, "type"@, token);
    // The six lookups.
    let l1 = fm_line_id(n);
    let l2 = fm_line_created(n);
    let l3 = fm_line_updated(n);
    let l4 = fm_line_device(n);
    let l5 = fm_line_type(n);
    let pfx0 = Seq::<Seq<char>>::empty();
    let pfx1 = pfx0.push(l1);
    let pfx2 = pfx1.push(l2);
    let pfx3 = pfx2.push(l3);
    let pfx4 = pfx3.push(l4);
    let pfx5 = pfx4.push(l5);
    lemma_fm_lookup_push_all(pfx0, l1);
    lemma_fm_lookup_push_all(pfx1, l2);
    lemma_fm_lookup_push_all(pfx2, l3);
    lemma_fm_lookup_push_all(pfx3, l4);
    lemma_fm_lookup_push_all(pfx4, l5);
    match n.checklist_sort_option {
        Some(so) => {
            lemma_sort_token_round(so);
            crate::chars::lemma_trim_noedge(ascii_lower(so));
            lemma_kv_line("sort: "@, "sort"@, ascii_lower(so));
            let l6 = fm_line_sort(n);
            lemma_fm_lookup_push_all(pfx5, l6);
            assert(ls =~= pfx5.push(l6));
            assert(fm_lookup(ls, "sort"@) == Some(ascii_lower(so)));
        },
        None => {
            assert(ls =~= pfx5);
            assert(fm_lookup(ls, "sort"@) is None);
        },
    }
    assert(fm_lookup(ls, "id"@) == Some(n.id));
    assert(fm_lookup(ls, "created"@) == Some(iso_c));
    assert(fm_lookup(ls, "updated"@) == Some(iso_u));
    assert(fm_lookup(ls, "device"@) == Some(n.device_id));
    assert(fm_lookup(ls, "type"@) == Some(token));
    // Timestamps round-trip.
    crate::timestamp::lemma_iso_round_trip(n.created_at);
    crate::timestamp::lemma_iso_round_trip(n.updated_at);
    assert(m.created_at == n.created_at);
    assert(fm_updated(ls, m.created_at) == n.updated_at);
    // The type token decides the note type.
    assert("text"@.len() == 4 && "checklist"@.len() == 9);
    assert("text"@ != "checklist"@);
    // The body: title line, then content.
    let ht = "# "@ + n.title;
    assert(body == "\n# "@ + n.title + "\n\n"@ + render_body(n));
    let rb = render_body(n);
    let rest0 = ht + seq!['\n'] + (seq!['\n'] + rb);
    assert(body =~= Seq::<char>::empty() + seq!['\n'] + rest0);
    lemma_split_first_line(Seq::<char>::empty() + seq!['\n'] + rest0, Seq::<char>::empty(), rest0);
    assert(split_lines(body) == seq![Seq::<char>::empty()] + split_lines(rest0));
    assert forall|i: int| 0 <= i < ht.len() implies ht[i] != '\n' by {
        if i >= 2 {
            assert(ht[i] == n.title[i - 2]);
        }
    }
    lemma_split_first_line(rest0, ht, seq!['\n'] + rb);
    lemma_heading_title_cons(
        Seq::<char>::empty(),
        seq![ht] + split_lines(seq!['\n'] + rb),
    );
    assert(split_lines(rest0) == seq![ht] + split_lines(seq!['\n'] + rb));
    lemma_heading_title_cons(ht, split_lines(seq!['\n'] + rb));
    assert(is_heading(ht));
    assert(ht.skip(2) =~= n.title);
    assert(heading_title(split_lines(body)) == n.title);
    assert(m.title == n.title);
    // Content bounds.
    let tlen = n.title.len() as int;
    assert(heading_lead_at(body, 0));
    lemma_find_heading_lead(body, 0, 0);
    assert forall|q: int| 1 <= q < 3 + tlen implies body[q] != '\n' by {
        if q >= 3 {
            assert(body[q] == n.title[q - 3]);
        }
    }
    assert(body[3 + tlen] == '\n');
    lemma_find_char_from(body, '\n', 1, 3 + tlen);
    assert(content_start(body) == 4 + tlen);
    assert(body.skip(4 + tlen) =~= seq!['\n'] + rb);
    lemma_trim_ws_cons('\n', rb);
    assert(content_of(body) == trim_ws(rb));
    match n.note_type {
        NoteType::Text => {
            assert(rb == n.content);
            assert(trim_ws(rb) == n.content);
            assert(fm_lookup(ls, "type"@) != Some("checklist"@));
        },
        NoteType::Checklist => {
            assert(fm_lookup(ls, "type"@) == Some("checklist"@));
            let its = n.checklist_items.unwrap();
            let sv = sort_by_order(its);
            assert(rb == checklist_lines(sv));
            broadcast use vstd::seq_lib::group_to_multiset_ensures;
            broadcast use vstd::multiset::group_multiset_axioms;
            crate::models::lemma_sort_by_order_multiset(its);
            assert forall|i: int| 0 <= i < sv.len() implies wf_render_item(#[trigger] sv[i]) by {
                assert(sv.contains(sv[i]));
                assert(sv.to_multiset().count(sv[i]) > 0);
                assert(its.to_multiset().count(sv[i]) > 0);
                assert(its.contains(sv[i]));
                let j = choose|j: int| 0 <= j < its.len() && its[j] == sv[i];
                assert(wf_render_item(its[j]));
            }
            if sv.len() == 0 {
                assert(checklist_lines(sv) == Seq::<char>::empty());
                assert(trim_ws(Seq::<char>::empty()) == Seq::<char>::empty());
                lemma_split_single_line(Seq::<char>::empty());
                lemma_checkbox_matches_cons(Seq::<char>::empty(), Seq::<Seq<char>>::empty(), true);
                assert(seq![Seq::<char>::empty()] =~= seq![Seq::<char>::empty()] + Seq::<
                    Seq<char>,
                >::empty());
                assert(line_match(Seq::<char>::empty(), true) is None);
                assert(checkbox_matches(split_lines(content_of(body)), true) =~= Seq::<(
                    bool,
                    Seq<char>,
                )>::empty());
                assert(marks_of(sv) =~= Seq::<(bool, Seq<char>)>::empty());
            } else {
                lemma_checklist_chop_parse(sv);
                let ll = checklist_lines(sv);
                assert(trim_front(ll) == ll);
                assert(trim_back(ll) == trim_back(ll.drop_last()));
                assert(trim_back(ll.drop_last()) == ll.drop_last());
                assert(content_of(body) == ll.drop_last());
            }
        },
    }
}

} // verus!
