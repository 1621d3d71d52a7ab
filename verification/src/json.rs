//! The canonical JSON rendering of a note: the document the save path puts
//! on the server.  Pretty-printed with two-space indentation, camelCase
//! keys, and the optional checklist fields omitted entirely when absent.

use vstd::prelude::*;
use crate::chars::{extend_str, string_of_chars};
use crate::models::{ChecklistItem, ChecklistItemV, items_view, Note, NoteType, NoteV, SyncStatus};
use crate::timestamp::digit_char;

verus! {

/// The four hex digits of a control character's escape.
pub open spec fn hex_digit(d: int) -> char {
    if d < 10 {
        digit_char(d)
    } else if d == 10 {
        'a'
    } else if d == 11 {
        'b'
    } else if d == 12 {
        'c'
    } else if d == 13 {
        'd'
    } else if d == 14 {
        'e'
    } else {
        'f'
    }
}

/// The JSON escape of one character: quotes and backslashes are escaped,
/// control characters take their short or `\u00XX` form, everything else
/// stands for itself.
pub open spec fn json_escape_char(c: char) -> Seq<char> {
    if c == '"' {
        seq!['\\', '"']
    } else if c == '\\' {
        seq!['\\', '\\']
    } else if c == '\u{8}' {
        seq!['\\', 'b']
    } else if c == '\t' {
        seq!['\\', 't']
    } else if c == '\n' {
        seq!['\\', 'n']
    } else if c == '\u{c}' {
        seq!['\\', 'f']
    } else if c == '\r' {
        seq!['\\', 'r']
    } else if (c as int) < 32 {
        seq!['\\', 'u', '0', '0', hex_digit((c as int) / 16), hex_digit((c as int) % 16)]
    } else {
        seq![c]
    }
}

/// The JSON escape of a whole string, without the surrounding quotes.
pub open spec fn json_escaped(s: Seq<char>) -> Seq<char>
    decreases s.len(),
{
    if s.len() == 0 {
        Seq::empty()
    } else {
        json_escape_char(s[0]) + json_escaped(s.drop_first())
    }
}

/// A quoted JSON string.
pub open spec fn json_string(s: Seq<char>) -> Seq<char> {
    seq!['"'] + json_escaped(s) + seq!['"']
}

/// The decimal rendering of a possibly negative integer.
pub open spec fn json_int(v: int) -> Seq<char> {
    if v < 0 {
        seq!['-'] + crate::webdav::dec_digits(-v)
    } else {
        crate::webdav::dec_digits(v)
    }
}

/// The token of a sync state.
pub open spec fn sync_status_token(s: SyncStatus) -> Seq<char> {
    match s {
        SyncStatus::Synced => "SYNCED"@,
        SyncStatus::Pending => "PENDING"@,
        SyncStatus::LocalOnly => "LOCAL_ONLY"@,
        SyncStatus::Conflict => "CONFLICT"@,
    }
}

/// The stored token of a note type.
pub open spec fn note_type_json_token(t: NoteType) -> Seq<char> {
    match t {
        NoteType::Text => "TEXT"@,
        NoteType::Checklist => "CHECKLIST"@,
    }
}

/// One checklist item as a pretty-printed JSON object at array depth.
pub open spec fn item_json(it: ChecklistItemV) -> Seq<char> {
    "    {\n      \"id\": "@ + json_string(it.id) + ",\n      \"text\": "@ + json_string(it.text)
        + ",\n      \"isChecked\": "@ + (if it.is_checked {
        "true"@
    } else {
        "false"@
    }) + ",\n      \"order\": "@ + json_int(it.order) + "\n    }"@
}

/// The items array body: the rendered items joined by `,\n`.
pub open spec fn items_json(s: Seq<ChecklistItemV>) -> Seq<char>
    decreases s.len(),
{
    if s.len() == 0 {
        Seq::empty()
    } else if s.len() == 1 {
        item_json(s[0])
    } else {
        item_json(s[0]) + ",\n"@ + items_json(s.drop_first())
    }
}

/// The whole checklist-items field value.
pub open spec fn items_array_json(s: Seq<ChecklistItemV>) -> Seq<char> {
    if s.len() == 0 {
        "[]"@
    } else {
        "[\n"@ + items_json(s) + "\n  ]"@
    }
}

/// The canonical pretty-printed JSON document of a note.
pub open spec fn note_json_spec(n: NoteV) -> Seq<char> {
    "{\n  \"id\": "@ + json_string(n.id) + ",\n  \"title\": "@ + json_string(n.title)
        + ",\n  \"content\": "@ + json_string(n.content) + ",\n  \"createdAt\": "@ + json_int(
        n.created_at,
    ) + ",\n  \"updatedAt\": "@ + json_int(n.updated_at) + ",\n  \"deviceId\": "@ + json_string(
        n.device_id,
    ) + ",\n  \"syncStatus\": "@ + json_string(sync_status_token(n.sync_status))
        + ",\n  \"noteType\": "@ + json_string(note_type_json_token(n.note_type)) + (
    match n.checklist_items {
        Some(its) => ",\n  \"checklistItems\": "@ + items_array_json(its),
        None => Seq::empty(),
    }) + (match n.checklist_sort_option {
        Some(so) => ",\n  \"checklistSortOption\": "@ + json_string(so),
        None => Seq::empty(),
    }) + "\n}"@
}

/// The hex digit character for `d`.
fn hex_digit_x(d: i64) -> (c: char)
    requires
        0 <= d <= 15,
    ensures
        c == hex_digit(d as int),
{
    if d < 10 {
        crate::timestamp::digit_char_x(d)
    } else if d == 10 {
        'a'
    } else if d == 11 {
        'b'
    } else if d == 12 {
        'c'
    } else if d == 13 {
        'd'
    } else if d == 14 {
        'e'
    } else {
        'f'
    }
}

/// Appends the escape of one character.
fn push_escape_char(buf: &mut Vec<char>, c: char)
    ensures
        final(buf)@ == old(buf)@ + json_escape_char(c),
{
    if c == '"' {
        buf.push('\\');
        buf.push('"');
    } else if c == '\\' {
        buf.push('\\');
        buf.push('\\');
    } else if c == '\u{8}' {
        buf.push('\\');
        buf.push('b');
    } else if c == '\t' {
        buf.push('\\');
        buf.push('t');
    } else if c == '\n' {
        buf.push('\\');
        buf.push('n');
    } else if c == '\u{c}' {
        buf.push('\\');
        buf.push('f');
    } else if c == '\r' {
        buf.push('\\');
        buf.push('r');
    } else if (c as u32) < 32 {
        let u = (c as u32) as i64;
        buf.push('\\');
        buf.push('u');
        buf.push('0');
        buf.push('0');
        buf.push(hex_digit_x(u / 16));
        buf.push(hex_digit_x(u % 16));
        proof {
            assert(final(buf)@ =~= old(buf)@ + json_escape_char(c));
        }
    } else {
        buf.push(c);
    }
    proof {
        assert(final(buf)@ =~= old(buf)@ + json_escape_char(c));
    }
}

/// Appends the escaped form of `s`, without quotes.
fn push_escaped(buf: &mut Vec<char>, s: &str)
    ensures
        final(buf)@ == old(buf)@ + json_escaped(s@),
{
    let cs = crate::chars::chars_of(s);
    let mut i: usize = 0;
    proof {
        assert(s@.subrange(0, 0) =~= Seq::<char>::empty());
        assert(old(buf)@ + Seq::<char>::empty() =~= old(buf)@);
    }
    while i < cs.len()
        invariant
            cs@ == s@,
            i <= cs@.len(),
            buf@ == old(buf)@ + json_escaped(s@.subrange(0, i as int)),
        decreases cs@.len() - i,
    {
        let ghost pre = buf@;
        push_escape_char(buf, cs[i]);
        i = i + 1;
        proof {
            lemma_json_escaped_push(s@.subrange(0, i - 1), s@[i - 1]);
            assert(s@.subrange(0, i - 1).push(s@[i - 1]) =~= s@.subrange(0, i as int));
            assert(buf@ =~= old(buf)@ + json_escaped(s@.subrange(0, i as int)));
        }
    }
    proof {
        assert(s@.subrange(0, s@.len() as int) =~= s@);
    }
}

proof fn lemma_json_escaped_push(s: Seq<char>, c: char)
    ensures
        json_escaped(s.push(c)) == json_escaped(s) + json_escape_char(c),
    decreases s.len(),
{
    if s.len() == 0 {
        assert(s.push(c)[0] == c);
        assert(s.push(c).drop_first() =~= Seq::<char>::empty());
        assert(json_escaped(Seq::<char>::empty()) == Seq::<char>::empty());
        assert(json_escaped(s.push(c)) =~= json_escaped(s) + json_escape_char(c));
    } else {
        assert(s.push(c)[0] == s[0]);
        assert(s.push(c).drop_first() =~= s.drop_first().push(c));
        lemma_json_escaped_push(s.drop_first(), c);
        assert(json_escape_char(s[0]) + (json_escaped(s.drop_first()) + json_escape_char(c)) =~= (
        json_escape_char(s[0]) + json_escaped(s.drop_first())) + json_escape_char(c));
    }
}

/// Appends a quoted JSON string.
fn push_json_string(buf: &mut Vec<char>, s: &str)
    ensures
        final(buf)@ == old(buf)@ + json_string(s@),
{
    buf.push('"');
    push_escaped(buf, s);
    buf.push('"');
    proof {
        assert(final(buf)@ =~= old(buf)@ + json_string(s@));
    }
}

/// Appends the decimal rendering of `v`.
fn push_json_int(buf: &mut Vec<char>, v: i64)
    ensures
        final(buf)@ == old(buf)@ + json_int(v as int),
{
    if v >= 0 {
        push_dec_wide(buf, v as i128);
    } else {
        buf.push('-');
        let m: i128 = -(v as i128);
        push_dec_wide(buf, m);
        proof {
            assert(final(buf)@ =~= old(buf)@ + json_int(v as int));
        }
    }
}

/// Appends the decimal rendering of a nonnegative wide integer.
fn push_dec_wide(buf: &mut Vec<char>, n: i128)
    requires
        0 <= n,
    ensures
        final(buf)@ == old(buf)@ + crate::webdav::dec_digits(n as int),
    decreases n,
{
    if n < 10 {
        buf.push(crate::timestamp::digit_char_x(n as i64));
        proof {
            assert(final(buf)@ =~= old(buf)@ + crate::webdav::dec_digits(n as int));
        }
    } else {
        push_dec_wide(buf, n / 10);
        buf.push(crate::timestamp::digit_char_x((n % 10) as i64));
        proof {
            assert(final(buf)@ =~= old(buf)@ + crate::webdav::dec_digits(n as int));
        }
    }
}

proof fn lemma_items_json_push(s: Seq<ChecklistItemV>, x: ChecklistItemV)
    ensures
        items_json(s.push(x)) == if s.len() == 0 {
            item_json(x)
        } else {
            items_json(s) + ",\n"@ + item_json(x)
        },
    decreases s.len(),
{
    if s.len() == 0 {
        assert(s.push(x).len() == 1);
        assert(s.push(x)[0] == x);
    } else if s.len() == 1 {
        assert(s.push(x)[0] == s[0]);
        assert(s.push(x).drop_first() =~= seq![x]);
        assert(items_json(seq![x]) == item_json(x));
    } else {
        assert(s.push(x)[0] == s[0]);
        assert(s.push(x).drop_first() =~= s.drop_first().push(x));
        lemma_items_json_push(s.drop_first(), x);
        assert(item_json(s[0]) + ",\n"@ + (items_json(s.drop_first()) + ",\n"@ + item_json(x))
            =~= (item_json(s[0]) + ",\n"@ + items_json(s.drop_first())) + ",\n"@ + item_json(x));
    }
}

/// Appends one rendered item object.
fn push_item_json(buf: &mut Vec<char>, it: &ChecklistItem)
    ensures
        final(buf)@ == old(buf)@ + item_json(it@),
{
    extend_str(buf, "    {\n      \"id\": ");
    push_json_string(buf, it.id.as_str());
    extend_str(buf, ",\n      \"text\": ");
    push_json_string(buf, it.text.as_str());
    extend_str(buf, ",\n      \"isChecked\": ");
    if it.is_checked {
        extend_str(buf, "true");
    } else {
        extend_str(buf, "false");
    }
    extend_str(buf, ",\n      \"order\": ");
    push_json_int(buf, it.order as i64);
    extend_str(buf, "\n    }");
    proof {
        assert(final(buf)@ =~= old(buf)@ + item_json(it@));
    }
}

/// Appends the whole checklist-items array.
fn push_items_array(buf: &mut Vec<char>, items: &Vec<ChecklistItem>)
    ensures
        final(buf)@ == old(buf)@ + items_array_json(items_view(items@)),
{
    let ghost iv = items_view(items@);
    if items.len() == 0 {
        extend_str(buf, "[]");
        return ;
    }
    extend_str(buf, "[\n");
    let mut i: usize = 0;
    proof {
        assert(iv.subrange(0, 0) =~= Seq::<ChecklistItemV>::empty());
    }
    while i < items.len()
        invariant
            iv == items_view(items@),
            i <= iv.len(),
            iv.len() > 0,
            buf@ == old(buf)@ + "[\n"@ + items_json(iv.subrange(0, i as int)),
        decreases iv.len() - i,
    {
        let ghost pre = buf@;
        if i > 0 {
            extend_str(buf, ",\n");
        }
        push_item_json(buf, &items[i]);
        i = i + 1;
        proof {
            let cur = iv.subrange(0, i as int);
            assert(cur.drop_last() =~= iv.subrange(0, i - 1));
            assert(cur.last() == iv[i - 1]);
            assert(iv.subrange(0, i - 1).push(iv[i - 1]) =~= cur);
            lemma_items_json_push(iv.subrange(0, i - 1), iv[i - 1]);
            if i == 1 {
                assert(buf@ =~= old(buf)@ + "[\n"@ + items_json(cur));
            } else {
                assert(buf@ =~= old(buf)@ + "[\n"@ + (items_json(iv.subrange(0, i - 1)) + ",\n"@
                    + item_json(iv[i - 1])));
                assert(buf@ =~= old(buf)@ + "[\n"@ + items_json(cur));
            }
        }
    }
    extend_str(buf, "\n  ]");
    proof {
        assert(iv.subrange(0, iv.len() as int) =~= iv);
        assert(final(buf)@ =~= old(buf)@ + items_array_json(iv));
    }
}

/// Renders the canonical pretty-printed JSON document of a note.
#[verifier::rlimit(100)]
#[verifier::spinoff_prover]
pub fn note_to_json(note: &Note) -> (r: String)
    ensures
        r@ == note_json_spec(note@),
{
    let mut buf: Vec<char> = Vec::new();
    extend_str(&mut buf, "{\n  \"id\": ");
    push_json_string(&mut buf, note.id.as_str());
    extend_str(&mut buf, ",\n  \"title\": ");
    push_json_string(&mut buf, note.title.as_str());
    extend_str(&mut buf, ",\n  \"content\": ");
    push_json_string(&mut buf, note.content.as_str());
    extend_str(&mut buf, ",\n  \"createdAt\": ");
    push_json_int(&mut buf, note.created_at);
    extend_str(&mut buf, ",\n  \"updatedAt\": ");
    push_json_int(&mut buf, note.updated_at);
    extend_str(&mut buf, ",\n  \"deviceId\": ");
    push_json_string(&mut buf, note.device_id.as_str());
    extend_str(&mut buf, ",\n  \"syncStatus\": ");
    match note.sync_status {
        SyncStatus::Synced => push_json_string(&mut buf, "SYNCED"),
        SyncStatus::Pending => push_json_string(&mut buf, "PENDING"),
        SyncStatus::LocalOnly => push_json_string(&mut buf, "LOCAL_ONLY"),
        SyncStatus::Conflict => push_json_string(&mut buf, "CONFLICT"),
    }
    extend_str(&mut buf, ",\n  \"noteType\": ");
    match note.note_type {
        NoteType::Text => push_json_string(&mut buf, "TEXT"),
        NoteType::Checklist => push_json_string(&mut buf, "CHECKLIST"),
    }
    match &note.checklist_items {
        Some(items) => {
            extend_str(&mut buf, ",\n  \"checklistItems\": ");
            push_items_array(&mut buf, items);
        },
        None => {},
    }
    match &note.checklist_sort_option {
        Some(so) => {
            extend_str(&mut buf, ",\n  \"checklistSortOption\": ");
            push_json_string(&mut buf, so.as_str());
        },
        None => {},
    }
    extend_str(&mut buf, "\n}");
    proof {
        assert(buf@ =~= note_json_spec(note@));
    }
    string_of_chars(&buf)
}

} // verus!
