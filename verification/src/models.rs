//! The structured note model: notes, checklist items, and the listing
//! projection, together with the normalization rules that keep a note's type
//! consistent with its contents.

use vstd::prelude::*;
use crate::provider::{fresh_uuid, is_uuid_chars, now_millis};

verus! {

/// Sync state of a note; informational only, the core does not enforce it.
#[derive(Debug, Clone, Copy, PartialEq, Eq, Structural)]
pub enum SyncStatus {
    Synced,
    Pending,
    LocalOnly,
    Conflict,
}

/// Whether a note is plain text or a checklist.
#[derive(Debug, Clone, Copy, PartialEq, Eq, Structural)]
pub enum NoteType {
    Text,
    Checklist,
}

/// One ordered, identifiable entry of a checklist note.
#[derive(Debug)]
pub struct ChecklistItem {
    /// Opaque stable identifier of the entry.
    pub id: String,
    /// The entry's text.
    pub text: String,
    /// Whether the entry is ticked off.
    pub is_checked: bool,
    /// Zero-based display and serialization position; ties keep parse order.
    pub order: i32,
}

/// The mathematical value of a [`ChecklistItem`].
pub ghost struct ChecklistItemV {
    pub id: Seq<char>,
    pub text: Seq<char>,
    pub is_checked: bool,
    pub order: int,
}

impl View for ChecklistItem {
    type V = ChecklistItemV;

    open spec fn view(&self) -> ChecklistItemV {
        ChecklistItemV {
            id: self.id@,
            text: self.text@,
            is_checked: self.is_checked,
            order: self.order as int,
        }
    }
}

impl Clone for ChecklistItem {
    fn clone(&self) -> (r: Self)
        ensures
            r@ == self@,
    {
        ChecklistItem {
            id: self.id.clone(),
            text: self.text.clone(),
            is_checked: self.is_checked,
            order: self.order,
        }
    }
}

/// The values of a sequence of checklist items.
pub open spec fn items_view(v: Seq<ChecklistItem>) -> Seq<ChecklistItemV> {
    v.map_values(|it: ChecklistItem| it@)
}

impl ChecklistItem {
    /// Creates an unchecked item with a fresh identifier.
    pub fn new(text: String, order: i32) -> (r: Self)
        ensures
            is_uuid_chars(r@.id),
            r@.text == text@,
            !r@.is_checked,
            r@.order == order as int,
    {
        ChecklistItem { id: fresh_uuid(), text, is_checked: false, order }
    }
}

/// One note document.
#[derive(Debug)]
pub struct Note {
    /// Opaque stable identifier; also the storage filename stem.
    pub id: String,
    /// The note's title.
    pub title: String,
    /// Plain text, or the generated fallback rendering for checklist notes.
    pub content: String,
    /// Creation instant, milliseconds since the Unix epoch.
    pub created_at: i64,
    /// Last modification instant, milliseconds since the Unix epoch.
    pub updated_at: i64,
    /// Opaque identifier of the writing device.
    pub device_id: String,
    /// Sync state; informational.
    pub sync_status: SyncStatus,
    /// Whether the note is text or a checklist.
    pub note_type: NoteType,
    /// Present exactly for checklist notes after normalization.
    pub checklist_items: Option<Vec<ChecklistItem>>,
    /// Display-ordering preference; persisted, not interpreted by the core.
    pub checklist_sort_option: Option<String>,
}

/// The mathematical value of a [`Note`].
pub ghost struct NoteV {
    pub id: Seq<char>,
    pub title: Seq<char>,
    pub content: Seq<char>,
    pub created_at: int,
    pub updated_at: int,
    pub device_id: Seq<char>,
    pub sync_status: SyncStatus,
    pub note_type: NoteType,
    pub checklist_items: Option<Seq<ChecklistItemV>>,
    pub checklist_sort_option: Option<Seq<char>>,
}

impl View for Note {
    type V = NoteV;

    open spec fn view(&self) -> NoteV {
        NoteV {
            id: self.id@,
            title: self.title@,
            content: self.content@,
            created_at: self.created_at as int,
            updated_at: self.updated_at as int,
            device_id: self.device_id@,
            sync_status: self.sync_status,
            note_type: self.note_type,
            checklist_items: match self.checklist_items {
                Some(v) => Some(items_view(v@)),
                None => None,
            },
            checklist_sort_option: match self.checklist_sort_option {
                Some(s) => Some(s@),
                None => None,
            },
        }
    }
}

/// Copies a vector of checklist items, keeping every value.
pub fn clone_items(v: &Vec<ChecklistItem>) -> (r: Vec<ChecklistItem>)
    ensures
        items_view(r@) == items_view(v@),
{
    let mut r: Vec<ChecklistItem> = Vec::new();
    let mut i: usize = 0;
    while i < v.len()
        invariant
            i <= v@.len(),
            items_view(r@) =~= items_view(v@).subrange(0, i as int),
        decreases v@.len() - i,
    {
        let ghost prev = r@;
        let c = v[i].clone();
        assert(c@ == v@[i as int]@);
        r.push(c);
        i = i + 1;
        proof {
            assert(r@ == prev.push(c));
            assert(items_view(prev).len() == prev.len());
            assert(prev.len() == i - 1);
            assert(r@.len() == i as int);
            assert forall|k: int| 0 <= k < i implies #[trigger] items_view(r@)[k] == items_view(
                v@,
            ).subrange(0, i as int)[k] by {
                assert(items_view(r@)[k] == r@[k]@);
                if k < i - 1 {
                    assert(r@[k] == prev[k]);
                    assert(items_view(prev)[k] == items_view(v@).subrange(0, i - 1)[k]);
                    assert(items_view(prev)[k] == prev[k]@);
                } else {
                    assert(r@[k] == c);
                }
            }
            assert(items_view(r@) =~= items_view(v@).subrange(0, i as int));
        }
    }
    proof {
        assert(items_view(r@) =~= items_view(v@));
    }
    r
}

impl Clone for Note {
    fn clone(&self) -> (r: Self)
        ensures
            r@ == self@,
    {
        Note {
            id: self.id.clone(),
            title: self.title.clone(),
            content: self.content.clone(),
            created_at: self.created_at,
            updated_at: self.updated_at,
            device_id: self.device_id.clone(),
            sync_status: self.sync_status,
            note_type: self.note_type,
            checklist_items: match &self.checklist_items {
                Some(v) => Some(clone_items(v)),
                None => None,
            },
            checklist_sort_option: match &self.checklist_sort_option {
                Some(s) => Some(s.clone()),
                None => None,
            },
        }
    }
}

/// Whether the note carries a non-empty checklist.
pub open spec fn has_nonempty_items(n: NoteV) -> bool {
    match n.checklist_items {
        Some(s) => s.len() > 0,
        None => false,
    }
}

/// The type-normalization rule: non-empty checklist content forces the
/// checklist type, and a checklist note always carries an item list,
/// possibly empty.
pub open spec fn fix_note_type_spec(n: NoteV) -> NoteV {
    if has_nonempty_items(n) {
        NoteV { note_type: NoteType::Checklist, ..n }
    } else if n.note_type == NoteType::Checklist && n.checklist_items is None {
        NoteV { checklist_items: Some(Seq::empty()), ..n }
    } else {
        n
    }
}

impl Note {
    /// Creates an empty text note with a fresh identifier; both timestamps
    /// are set to the current time.
    pub fn new(title: String, device_id: String) -> (r: Self)
        ensures
            is_uuid_chars(r@.id),
            r@.title == title@,
            r@.content == Seq::<char>::empty(),
            r@.created_at == r@.updated_at,
            r@.device_id == device_id@,
            r@.sync_status == SyncStatus::Synced,
            r@.note_type == NoteType::Text,
            r@.checklist_items is None,
            r@.checklist_sort_option is None,
    {
        let now = now_millis();
        Note {
            id: fresh_uuid(),
            title,
            content: String::new(),
            created_at: now,
            updated_at: now,
            device_id,
            sync_status: SyncStatus::Synced,
            note_type: NoteType::Text,
            checklist_items: None,
            checklist_sort_option: None,
        }
    }

    /// Creates an empty checklist note: checklist type, an empty item list,
    /// and the default display-ordering preference.
    pub fn new_checklist(title: String, device_id: String) -> (r: Self)
        ensures
            is_uuid_chars(r@.id),
            r@.title == title@,
            r@.content == Seq::<char>::empty(),
            r@.created_at == r@.updated_at,
            r@.device_id == device_id@,
            r@.sync_status == SyncStatus::Synced,
            r@.note_type == NoteType::Checklist,
            r@.checklist_items == Some(Seq::<ChecklistItemV>::empty()),
            r@.checklist_sort_option == Some("UNCHECKED_FIRST"@),
    {
        let mut note = Self::new(title, device_id);
        note.note_type = NoteType::Checklist;
        note.checklist_items = Some(Vec::new());
        note.checklist_sort_option = Some(String::from_str("UNCHECKED_FIRST"));
        proof {
            assert(items_view(Seq::<ChecklistItem>::empty()) =~= Seq::<ChecklistItemV>::empty());
        }
        note
    }

    /// Stamps the note as modified now; every other field is kept.
    pub fn touch(&mut self)
        ensures
            final(self)@ == (NoteV { updated_at: final(self)@.updated_at, ..old(self)@ }),
    {
        self.updated_at = now_millis();
    }

    /// Applies the type-normalization rule in place.
    pub fn fix_note_type(&mut self)
        ensures
            final(self)@ == fix_note_type_spec(old(self)@),
    {
        if let Some(items) = &self.checklist_items {
            if items.len() > 0 {
                self.note_type = NoteType::Checklist;
                return;
            }
        }
        if self.note_type == NoteType::Checklist && self.checklist_items.is_none() {
            self.checklist_items = Some(Vec::new());
            proof {
                assert(items_view(Seq::<ChecklistItem>::empty()) =~= Seq::<ChecklistItemV>::empty());
            }
        }
    }
}

/// Inserts `x` after every element whose `order` does not exceed `x.order`,
/// so that repeated insertion sorts stably.
pub open spec fn insert_by_order(s: Seq<ChecklistItemV>, x: ChecklistItemV) -> Seq<ChecklistItemV>
    decreases s.len(),
{
    if s.len() == 0 {
        seq![x]
    } else if s.last().order <= x.order {
        s.push(x)
    } else {
        insert_by_order(s.drop_last(), x).push(s.last())
    }
}

/// Stable sort of checklist items by ascending `order`.
pub open spec fn sort_by_order(s: Seq<ChecklistItemV>) -> Seq<ChecklistItemV>
    decreases s.len(),
{
    if s.len() == 0 {
        Seq::empty()
    } else {
        insert_by_order(sort_by_order(s.drop_last()), s.last())
    }
}

/// Whether the items stand in nondecreasing `order`.
pub open spec fn sorted_by_order(s: Seq<ChecklistItemV>) -> bool {
    forall|i: int, j: int| 0 <= i < j < s.len() ==> s[i].order <= s[j].order
}

/// Inserting adds exactly the new item to what the sequence holds.
pub proof fn lemma_insert_by_order_multiset(s: Seq<ChecklistItemV>, x: ChecklistItemV)
    ensures
        insert_by_order(s, x).to_multiset() == s.to_multiset().insert(x),
    decreases s.len(),
{
    broadcast use vstd::seq_lib::group_to_multiset_ensures;
    broadcast use vstd::multiset::group_multiset_axioms;

    if s.len() == 0 {
        assert(seq![x] =~= Seq::<ChecklistItemV>::empty().push(x));
        assert(insert_by_order(s, x).to_multiset() =~= s.to_multiset().insert(x));
    } else if s.last().order <= x.order {
    } else {
        lemma_insert_by_order_multiset(s.drop_last(), x);
        assert(s =~= s.drop_last().push(s.last()));
        assert(s.to_multiset() == s.drop_last().push(s.last()).to_multiset());
        assert(insert_by_order(s, x).to_multiset() == s.drop_last().to_multiset().insert(
            x,
        ).insert(s.last()));
        assert(s.drop_last().to_multiset().insert(x).insert(s.last())
            =~= s.drop_last().to_multiset().insert(s.last()).insert(x));
    }
}

/// Sorting keeps exactly the same items.
pub proof fn lemma_sort_by_order_multiset(s: Seq<ChecklistItemV>)
    ensures
        sort_by_order(s).to_multiset() == s.to_multiset(),
    decreases s.len(),
{
    broadcast use vstd::seq_lib::group_to_multiset_ensures;

    if s.len() > 0 {
        lemma_sort_by_order_multiset(s.drop_last());
        lemma_insert_by_order_multiset(sort_by_order(s.drop_last()), s.last());
        assert(s =~= s.drop_last().push(s.last()));
        assert(s.to_multiset() == s.drop_last().push(s.last()).to_multiset());
    }
}

proof fn lemma_insert_by_order_sorted(s: Seq<ChecklistItemV>, x: ChecklistItemV)
    requires
        sorted_by_order(s),
    ensures
        sorted_by_order(insert_by_order(s, x)),
    decreases s.len(),
{
    broadcast use vstd::seq_lib::group_to_multiset_ensures;
    broadcast use vstd::multiset::group_multiset_axioms;

    if s.len() == 0 {
    } else if s.last().order <= x.order {
        let t = s.push(x);
        assert forall|i: int, j: int| 0 <= i < j < t.len() implies t[i].order <= t[j].order by {
            if j == t.len() - 1 {
                if i < s.len() - 1 {
                    assert(s[i].order <= s[s.len() - 1].order);
                }
            }
        }
    } else {
        assert(sorted_by_order(s.drop_last())) by {
            assert forall|i: int, j: int|
                0 <= i < j < s.drop_last().len() implies s.drop_last()[i].order
                <= s.drop_last()[j].order by {
                assert(s[i].order <= s[j].order);
            }
        }
        lemma_insert_by_order_sorted(s.drop_last(), x);
        lemma_insert_by_order_multiset(s.drop_last(), x);
        let t = insert_by_order(s.drop_last(), x);
        assert forall|k: int| 0 <= k < t.len() implies t[k].order <= s.last().order by {
            assert(t.contains(t[k]));
            assert(t.to_multiset().count(t[k]) > 0);
            if t[k] == x {
            } else {
                assert(s.drop_last().to_multiset().count(t[k]) > 0);
                assert(s.drop_last().contains(t[k]));
                let j = choose|j: int|
                    0 <= j < s.drop_last().len() && s.drop_last()[j] == t[k];
                assert(s[j].order <= s[s.len() - 1].order);
            }
        }
        let u = t.push(s.last());
        assert forall|i: int, j: int| 0 <= i < j < u.len() implies u[i].order <= u[j].order by {
            if j == u.len() - 1 {
                assert(u[i] == t[i]);
            }
        }
    }
}

/// What sorting promises: the result is in nondecreasing `order`.
pub proof fn lemma_sort_by_order_sorted(s: Seq<ChecklistItemV>)
    ensures
        sorted_by_order(sort_by_order(s)),
    decreases s.len(),
{
    if s.len() > 0 {
        lemma_sort_by_order_sorted(s.drop_last());
        lemma_insert_by_order_sorted(sort_by_order(s.drop_last()), s.last());
    }
}

proof fn lemma_insert_by_order_at(s: Seq<ChecklistItemV>, x: ChecklistItemV, j: int)
    requires
        0 <= j <= s.len(),
        forall|k: int| j <= k < s.len() ==> s[k].order > x.order,
        j > 0 ==> s[j - 1].order <= x.order,
    ensures
        insert_by_order(s, x) == s.subrange(0, j) + seq![x] + s.subrange(j, s.len() as int),
    decreases s.len(),
{
    if j == s.len() {
        if s.len() == 0 {
            assert(insert_by_order(s, x) =~= s.subrange(0, j) + seq![x] + s.subrange(
                j,
                s.len() as int,
            ));
        } else {
            assert(s.last().order <= x.order);
            assert(s.push(x) =~= s.subrange(0, j) + seq![x] + s.subrange(j, s.len() as int));
        }
    } else {
        assert(s[s.len() - 1].order > x.order);
        let d = s.drop_last();
        lemma_insert_by_order_at(d, x, j);
        assert(insert_by_order(d, x).push(s.last()) =~= s.subrange(0, j) + seq![x] + s.subrange(
            j,
            s.len() as int,
        ));
    }
}

/// Inserts a clone of `x` into the already-sorted buffer `r`.
fn insert_item_sorted(r: &mut Vec<ChecklistItem>, x: ChecklistItem)
    ensures
        items_view(final(r)@) == insert_by_order(items_view(old(r)@), x@),
{
    let ghost s = items_view(r@);
    let mut j: usize = r.len();
    while j > 0 && r[j - 1].order > x.order
        invariant
            j <= r@.len(),
            r@ == old(r)@,
            s == items_view(r@),
            forall|k: int| j <= k < s.len() ==> s[k].order > x@.order,
        decreases j,
    {
        j = j - 1;
    }
    proof {
        lemma_insert_by_order_at(s, x@, j as int);
    }
    r.insert(j, x);
    proof {
        assert(items_view(r@) =~= s.subrange(0, j as int) + seq![x@] + s.subrange(
            j as int,
            s.len() as int,
        ));
    }
}

/// Returns the items sorted by ascending `order`, ties keeping their
/// original relative position.
pub fn sort_items(items: &Vec<ChecklistItem>) -> (r: Vec<ChecklistItem>)
    ensures
        items_view(r@) == sort_by_order(items_view(items@)),
{
    let ghost iv = items_view(items@);
    let mut r: Vec<ChecklistItem> = Vec::new();
    let mut i: usize = 0;
    proof {
        assert(items_view(r@) =~= Seq::<ChecklistItemV>::empty());
        assert(iv.subrange(0, 0) =~= Seq::<ChecklistItemV>::empty());
    }
    while i < items.len()
        invariant
            i <= iv.len(),
            iv == items_view(items@),
            items_view(r@) == sort_by_order(iv.subrange(0, i as int)),
        decreases iv.len() - i,
    {
        insert_item_sorted(&mut r, items[i].clone());
        i = i + 1;
        proof {
            let pre = iv.subrange(0, i - 1);
            let cur = iv.subrange(0, i as int);
            assert(cur.drop_last() =~= pre);
            assert(cur.last() == iv[i - 1]);
        }
    }
    proof {
        assert(iv.subrange(0, iv.len() as int) =~= iv);
    }
    r
}

/// One line of the degraded checklist rendering: `[x] text` or `[ ] text`.
pub open spec fn fallback_line(it: ChecklistItemV) -> Seq<char> {
    seq!['['] + (if it.is_checked {
        seq!['x']
    } else {
        seq![' ']
    }) + seq![']', ' '] + it.text
}

/// The degraded checklist rendering of a sequence of items, one line each,
/// joined by newlines.
pub open spec fn fallback_join(s: Seq<ChecklistItemV>) -> Seq<char>
    decreases s.len(),
{
    if s.len() == 0 {
        Seq::empty()
    } else if s.len() == 1 {
        fallback_line(s[0])
    } else {
        fallback_line(s[0]) + seq!['\n'] + fallback_join(s.drop_first())
    }
}

/// The degraded rendering of a set of items: sorted by `order`, then joined.
pub open spec fn checklist_fallback_spec(items: Seq<ChecklistItemV>) -> Seq<char> {
    fallback_join(sort_by_order(items))
}

proof fn lemma_fallback_join_push(s: Seq<ChecklistItemV>, x: ChecklistItemV)
    ensures
        fallback_join(s.push(x)) == if s.len() == 0 {
            fallback_line(x)
        } else {
            fallback_join(s) + seq!['\n'] + fallback_join(seq![x])
        },
    decreases s.len(),
{
    if s.len() == 0 {
        assert(s.push(x).len() == 1);
        assert(s.push(x)[0] == x);
    } else if s.len() == 1 {
        assert(s.push(x)[0] == s[0]);
        assert(s.push(x).drop_first() =~= seq![x]);
    } else {
        assert(s.push(x).drop_first() =~= s.drop_first().push(x));
        lemma_fallback_join_push(s.drop_first(), x);
        assert(fallback_join(s.push(x)) == fallback_line(s[0]) + seq!['\n'] + fallback_join(
            s.drop_first().push(x),
        ));
    }
}

/// Renders sorted items as the degraded `[x] text` lines.
pub(crate) fn fallback_chars(items: &Vec<ChecklistItem>) -> (r: Vec<char>)
    ensures
        r@ == checklist_fallback_spec(items_view(items@)),
{
    let sorted = sort_items(items);
    let ghost sv = items_view(sorted@);
    let mut buf: Vec<char> = Vec::new();
    let mut i: usize = 0;
    proof {
        assert(sv.subrange(0, 0) =~= Seq::<ChecklistItemV>::empty());
    }
    while i < sorted.len()
        invariant
            i <= sv.len(),
            sv == items_view(sorted@),
            buf@ == fallback_join(sv.subrange(0, i as int)),
        decreases sv.len() - i,
    {
        let ghost pre = buf@;
        if i > 0 {
            buf.push('\n');
        }
        buf.push('[');
        if sorted[i].is_checked {
            buf.push('x');
        } else {
            buf.push(' ');
        }
        buf.push(']');
        buf.push(' ');
        crate::chars::extend_str(&mut buf, sorted[i].text.as_str());
        i = i + 1;
        proof {
            let cur = sv.subrange(0, i as int);
            assert(cur.drop_last() =~= sv.subrange(0, i - 1));
            assert(cur.last() == sv[i - 1]);
            lemma_fallback_join_push(sv.subrange(0, i - 1), sv[i - 1]);
            assert(fallback_join(seq![sv[i - 1]]) == fallback_line(sv[i - 1]));
            assert(sv.subrange(0, i - 1).push(sv[i - 1]) =~= cur);
            if i - 1 == 0 {
                assert(buf@ =~= fallback_line(sv[0]));
            } else {
                assert(buf@ =~= fallback_join(sv.subrange(0, i - 1)) + seq!['\n'] + fallback_line(
                    sv[i - 1],
                ));
            }
        }
    }
    proof {
        assert(sv.subrange(0, sv.len() as int) =~= sv);
    }
    buf
}

impl Note {
    /// The degraded rendering of this note's checklist, or the empty string
    /// when the note carries no item list.
    pub fn generate_checklist_fallback(&self) -> (r: String)
        ensures
            r@ == match self@.checklist_items {
                Some(items) => checklist_fallback_spec(items),
                None => Seq::<char>::empty(),
            },
    {
        match &self.checklist_items {
            Some(items) => {
                let buf = fallback_chars(items);
                crate::chars::string_of_chars(&buf)
            },
            None => String::new(),
        }
    }
}

/// The listing projection of a note: what a note list needs, without the
/// creation and device bookkeeping.
#[derive(Debug, Clone)]
pub struct NoteMetadata {
    pub id: String,
    pub title: String,
    pub content: String,
    pub updated_at: i64,
    pub note_type: NoteType,
    pub checklist_items: Option<Vec<ChecklistItem>>,
    pub checklist_sort_option: Option<String>,
}

/// The mathematical value of a [`NoteMetadata`].
pub ghost struct NoteMetadataV {
    pub id: Seq<char>,
    pub title: Seq<char>,
    pub content: Seq<char>,
    pub updated_at: int,
    pub note_type: NoteType,
    pub checklist_items: Option<Seq<ChecklistItemV>>,
    pub checklist_sort_option: Option<Seq<char>>,
}

impl View for NoteMetadata {
    type V = NoteMetadataV;

    open spec fn view(&self) -> NoteMetadataV {
        NoteMetadataV {
            id: self.id@,
            title: self.title@,
            content: self.content@,
            updated_at: self.updated_at as int,
            note_type: self.note_type,
            checklist_items: match self.checklist_items {
                Some(v) => Some(items_view(v@)),
                None => None,
            },
            checklist_sort_option: match self.checklist_sort_option {
                Some(s) => Some(s@),
                None => None,
            },
        }
    }
}

/// The projection of a note value to its listing metadata.
pub open spec fn metadata_of(n: NoteV) -> NoteMetadataV {
    NoteMetadataV {
        id: n.id,
        title: n.title,
        content: n.content,
        updated_at: n.updated_at,
        note_type: n.note_type,
        checklist_items: n.checklist_items,
        checklist_sort_option: n.checklist_sort_option,
    }
}

impl NoteMetadata {
    /// Projects a note to its listing metadata.
    pub fn from_note(note: &Note) -> (r: Self)
        ensures
            r@ == metadata_of(note@),
    {
        NoteMetadata {
            id: note.id.clone(),
            title: note.title.clone(),
            content: note.content.clone(),
            updated_at: note.updated_at,
            note_type: note.note_type,
            checklist_items: match &note.checklist_items {
                Some(v) => Some(clone_items(v)),
                None => None,
            },
            checklist_sort_option: match &note.checklist_sort_option {
                Some(s) => Some(s.clone()),
                None => None,
            },
        }
    }
}

} // verus!
