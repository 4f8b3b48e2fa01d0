//! The bidirectional tag / entry registry: a map from each tag to the
//! ordered list of entry ids it labels, and a map from each entry id to its
//! record. Tags whose entry list becomes empty and entries with no tags
//! left are garbage-collected at the end of every mutating operation.

use crate::tag::{Color, Tag, TagView};
use vstd::bytes::{
    lemma_auto_spec_u64_to_from_le_bytes, spec_u64_from_le_bytes, spec_u64_to_le_bytes,
    u64_from_le_bytes, u64_to_le_bytes,
};
use vstd::prelude::*;
use vstd::slice::{slice_subrange, slice_to_vec};
use vstd::utf8::{
    decode_utf8, encode_utf8, encode_utf8_decode_utf8, encode_utf8_valid_utf8, valid_utf8,
};

verus! {

/// Identifier of an entry, unique within one registry: ids are handed out
/// by a counter and never reused for a different path while the old id may
/// still be referenced.
pub type EntryId = usize;

/// A tracked filesystem path. Its mathematical value is the path text.
#[derive(Debug)]
pub struct EntryData {
    path: String,
}

impl View for EntryData {
    type V = Seq<char>;

    closed spec fn view(&self) -> Seq<char> {
        self.path@
    }
}

impl EntryData {
    /// Creates a record for the given path.
    pub fn new(path: &str) -> (r: EntryData)
        ensures
            r@ == path@,
    {
        EntryData { path: path.to_owned() }
    }

    /// The stored path.
    pub fn path(&self) -> (r: &str)
        ensures
            r@ == self@,
    {
        self.path.as_str()
    }
}

impl Clone for EntryData {
    fn clone(&self) -> (r: Self)
        ensures
            r == *self,
    {
        EntryData { path: self.path.clone() }
    }
}

impl PartialEq for EntryData {
    fn eq(&self, other: &EntryData) -> (r: bool) {
        self.path == other.path
    }
}

impl vstd::std_specs::cmp::PartialEqSpecImpl for EntryData {
    open spec fn obeys_eq_spec() -> bool {
        true
    }

    open spec fn eq_spec(&self, other: &EntryData) -> bool {
        self@ == other@
    }
}

/// The mathematical state of a registry: the tag rows in order, the entry
/// records in order, the path the registry is bound to, and the next fresh
/// entry id.
pub ghost struct RegView {
    pub tags: Seq<(TagView, Seq<EntryId>)>,
    pub entries: Seq<(EntryId, Seq<char>)>,
    pub path: Seq<char>,
    pub next_id: EntryId,
}

/// Index of the first tag row with the given name, or -1 if there is none.
pub open spec fn find_tag_at(tags: Seq<(TagView, Seq<EntryId>)>, name: Seq<char>) -> int
    decreases tags.len(),
{
    if tags.len() == 0 {
        -1
    } else if tags[0].0.name == name {
        0
    } else {
        let r = find_tag_at(tags.drop_first(), name);
        if r < 0 {
            -1
        } else {
            r + 1
        }
    }
}

/// What `find_tag_at` returns: -1 when no row matches, else the first
/// matching index.
pub proof fn lemma_find_tag_at(tags: Seq<(TagView, Seq<EntryId>)>, name: Seq<char>)
    ensures
        ({
            let r = find_tag_at(tags, name);
            &&& r == -1 ==> forall|i: int| 0 <= i < tags.len() ==> tags[i].0.name != name
            &&& r != -1 ==> 0 <= r < tags.len() && tags[r].0.name == name && (forall|i: int|
                0 <= i < r ==> tags[i].0.name != name)
        }),
    decreases tags.len(),
{
    if tags.len() == 0 {
    } else if tags[0].0.name == name {
    } else {
        let rest = tags.drop_first();
        lemma_find_tag_at(rest, name);
        let rr = find_tag_at(rest, name);
        if rr == -1 {
            assert forall|i: int| 0 <= i < tags.len() implies tags[i].0.name != name by {
                if i > 0 {
                    assert(rest[i - 1] == tags[i]);
                }
            }
        } else {
            assert(tags[rr + 1] == rest[rr]);
            assert forall|i: int| 0 <= i < rr + 1 implies tags[i].0.name != name by {
                if i > 0 {
                    assert(rest[i - 1] == tags[i]);
                }
            }
        }
    }
}

/// Index of the first entry record with the given id, or -1.
pub open spec fn find_id_at(entries: Seq<(EntryId, Seq<char>)>, id: EntryId) -> int
    decreases entries.len(),
{
    if entries.len() == 0 {
        -1
    } else if entries[0].0 == id {
        0
    } else {
        let r = find_id_at(entries.drop_first(), id);
        if r < 0 {
            -1
        } else {
            r + 1
        }
    }
}

/// What `find_id_at` returns.
pub proof fn lemma_find_id_at(entries: Seq<(EntryId, Seq<char>)>, id: EntryId)
    ensures
        ({
            let r = find_id_at(entries, id);
            &&& r == -1 ==> forall|i: int| 0 <= i < entries.len() ==> entries[i].0 != id
            &&& r != -1 ==> 0 <= r < entries.len() && entries[r].0 == id && (forall|i: int|
                0 <= i < r ==> entries[i].0 != id)
        }),
    decreases entries.len(),
{
    if entries.len() == 0 {
    } else if entries[0].0 == id {
    } else {
        let rest = entries.drop_first();
        lemma_find_id_at(rest, id);
        let rr = find_id_at(rest, id);
        if rr == -1 {
            assert forall|i: int| 0 <= i < entries.len() implies entries[i].0 != id by {
                if i > 0 {
                    assert(rest[i - 1] == entries[i]);
                }
            }
        } else {
            assert(entries[rr + 1] == rest[rr]);
            assert forall|i: int| 0 <= i < rr + 1 implies entries[i].0 != id by {
                if i > 0 {
                    assert(rest[i - 1] == entries[i]);
                }
            }
        }
    }
}

/// Index of the first entry record with the given path, or -1.
pub open spec fn find_path_at(entries: Seq<(EntryId, Seq<char>)>, path: Seq<char>) -> int
    decreases entries.len(),
{
    if entries.len() == 0 {
        -1
    } else if entries[0].1 == path {
        0
    } else {
        let r = find_path_at(entries.drop_first(), path);
        if r < 0 {
            -1
        } else {
            r + 1
        }
    }
}

/// What `find_path_at` returns.
pub proof fn lemma_find_path_at(entries: Seq<(EntryId, Seq<char>)>, path: Seq<char>)
    ensures
        ({
            let r = find_path_at(entries, path);
            &&& r == -1 ==> forall|i: int| 0 <= i < entries.len() ==> entries[i].1 != path
            &&& r != -1 ==> 0 <= r < entries.len() && entries[r].1 == path && (forall|i: int|
                0 <= i < r ==> entries[i].1 != path)
        }),
    decreases entries.len(),
{
    if entries.len() == 0 {
    } else if entries[0].1 == path {
    } else {
        let rest = entries.drop_first();
        lemma_find_path_at(rest, path);
        let rr = find_path_at(rest, path);
        if rr == -1 {
            assert forall|i: int| 0 <= i < entries.len() implies entries[i].1 != path by {
                if i > 0 {
                    assert(rest[i - 1] == entries[i]);
                }
            }
        } else {
            assert(entries[rr + 1] == rest[rr]);
            assert forall|i: int| 0 <= i < rr + 1 implies entries[i].1 != path by {
                if i > 0 {
                    assert(rest[i - 1] == entries[i]);
                }
            }
        }
    }
}

impl RegView {
    /// Index of the tag row named `name`, or -1.
    pub open spec fn tag_idx(self, name: Seq<char>) -> int {
        find_tag_at(self.tags, name)
    }

    /// Whether a tag with this name is present.
    pub open spec fn has_tag(self, name: Seq<char>) -> bool {
        self.tag_idx(name) >= 0
    }

    /// The entry list of the tag named `name`; empty if there is no such
    /// tag.
    pub open spec fn tag_list(self, name: Seq<char>) -> Seq<EntryId> {
        if self.has_tag(name) {
            self.tags[self.tag_idx(name)].1
        } else {
            Seq::empty()
        }
    }

    /// The color stored for the tag named `name`.
    pub open spec fn tag_color(self, name: Seq<char>) -> Color {
        self.tags[self.tag_idx(name)].0.color
    }

    /// Index of the entry record with id `id`, or -1.
    pub open spec fn entry_idx(self, id: EntryId) -> int {
        find_id_at(self.entries, id)
    }

    /// Whether an entry with this id is present.
    pub open spec fn has_entry(self, id: EntryId) -> bool {
        self.entry_idx(id) >= 0
    }

    /// The path recorded for entry `id`.
    pub open spec fn entry_path(self, id: EntryId) -> Seq<char> {
        self.entries[self.entry_idx(id)].1
    }

    /// Index of the entry record with the given path, or -1.
    pub open spec fn path_idx(self, path: Seq<char>) -> int {
        find_path_at(self.entries, path)
    }

    /// Whether some tag's list references entry `id`.
    pub open spec fn entry_tagged(self, id: EntryId) -> bool {
        exists|i: int| 0 <= i < self.tags.len() && self.tags[i].1.contains(id)
    }

    /// The tags whose lists reference entry `id`, in row order.
    pub open spec fn entry_tags(self, id: EntryId) -> Seq<TagView> {
        self.tags.filter(|r: (TagView, Seq<EntryId>)| r.1.contains(id)).map_values(
            |r: (TagView, Seq<EntryId>)| r.0,
        )
    }

    /// All entry ids, in record order.
    pub open spec fn entry_ids(self) -> Seq<EntryId> {
        self.entries.map_values(|r: (EntryId, Seq<char>)| r.0)
    }

    /// Well-formedness: tag names are unique and nonempty, no tag's list is
    /// empty or repeats an id, every listed id has a live record, entry ids
    /// and paths are unique, and every id is below the id counter.
    pub open spec fn wf(self) -> bool {
        &&& forall|i: int, j: int|
            0 <= i < j < self.tags.len() ==> #[trigger] self.tags[i].0.name != #[trigger] self.tags[j].0.name
        &&& forall|i: int| 0 <= i < self.tags.len() ==> (#[trigger] self.tags[i]).0.name.len() > 0
        &&& forall|i: int| 0 <= i < self.tags.len() ==> (#[trigger] self.tags[i]).1.len() > 0
        &&& forall|i: int, a: int, b: int|
            0 <= i < self.tags.len() && 0 <= a < b < self.tags[i].1.len() ==> #[trigger] self.tags[i].1[a]
                != #[trigger] self.tags[i].1[b]
        &&& forall|i: int, a: int|
            0 <= i < self.tags.len() && 0 <= a < self.tags[i].1.len() ==> find_id_at(
                self.entries,
                #[trigger] self.tags[i].1[a],
            ) >= 0
        &&& forall|i: int, j: int|
            0 <= i < j < self.entries.len() ==> (#[trigger] self.entries[i]).0 != (
            #[trigger] self.entries[j]).0
        &&& forall|i: int, j: int|
            0 <= i < j < self.entries.len() ==> (#[trigger] self.entries[i]).1 != (
            #[trigger] self.entries[j]).1
        &&& forall|i: int| 0 <= i < self.entries.len() ==> (#[trigger] self.entries[i]).0 < self.next_id
    }
}

/// The bidirectional index itself.
pub struct TagRegistry {
    tags: Vec<(Tag, Vec<EntryId>)>,
    entries: Vec<(EntryId, EntryData)>,
    path: String,
    next_id: EntryId,
}

impl View for TagRegistry {
    type V = RegView;

    closed spec fn view(&self) -> RegView {
        RegView {
            tags: Seq::new(self.tags@.len(), |i: int| (self.tags@[i].0@, self.tags@[i].1@)),
            entries: Seq::new(self.entries@.len(), |i: int| (self.entries@[i].0, self.entries@[i].1@)),
            path: self.path@,
            next_id: self.next_id,
        }
    }
}

/// View-level equality of two strings, decided executably.
fn str_eq(a: &str, b: &str) -> (r: bool)
    ensures
        r == (a@ == b@),
{
    let sa = a.to_owned();
    let sb = b.to_owned();
    sa == sb
}

/// Whether `ids` contains `id`, decided executably.
#[verifier::loop_isolation(false)]
fn ids_contain(ids: &Vec<EntryId>, id: EntryId) -> (r: bool)
    ensures
        r == ids@.contains(id),
{
    let mut k: usize = 0;
    while k < ids.len()
        invariant
            0 <= k <= ids.len(),
            forall|j: int| 0 <= j < k ==> ids@[j] != id,
        decreases ids.len() - k,
    {
        if ids[k] == id {
            return true;
        }
        k += 1;
    }
    false
}

impl TagRegistry {
    /// Well-formedness of the in-memory state.
    pub open spec fn wf(&self) -> bool {
        self@.wf()
    }

    /// Creates an empty registry bound to `path`, without touching disk.
    pub fn new(path: &str) -> (r: TagRegistry)
        ensures
            r@.tags == Seq::<(TagView, Seq<EntryId>)>::empty(),
            r@.entries == Seq::<(EntryId, Seq<char>)>::empty(),
            r@.path == path@,
            r@.next_id == 0,
            r.wf(),
    {
        let r = TagRegistry {
            tags: Vec::new(),
            entries: Vec::new(),
            path: path.to_owned(),
            next_id: 0,
        };
        proof {
            assert(r@.tags =~= Seq::<(TagView, Seq<EntryId>)>::empty());
            assert(r@.entries =~= Seq::<(EntryId, Seq<char>)>::empty());
        }
        r
    }

    /// Empties both maps; the bound path and the id counter are kept.
    pub fn clear(&mut self)
        ensures
            final(self)@.tags == Seq::<(TagView, Seq<EntryId>)>::empty(),
            final(self)@.entries == Seq::<(EntryId, Seq<char>)>::empty(),
            final(self)@.path == old(self)@.path,
            final(self)@.next_id == old(self)@.next_id,
            final(self).wf(),
    {
        self.tags.clear();
        self.entries.clear();
        proof {
            assert(self@.tags =~= Seq::<(TagView, Seq<EntryId>)>::empty());
            assert(self@.entries =~= Seq::<(EntryId, Seq<char>)>::empty());
        }
    }

    /// Index of the tag row named `name`, matching `tag_idx` on the view.
    #[verifier::loop_isolation(false)]
fn tag_pos(&self, name: &str) -> (r: Option<usize>)
        ensures
            r matches Some(i) ==> i < self.tags@.len() && self@.tag_idx(name@) == i,
            r is None ==> self@.tag_idx(name@) == -1,
    {
        let mut k: usize = 0;
        while k < self.tags.len()
            invariant
                0 <= k <= self.tags.len(),
                forall|j: int| 0 <= j < k ==> self@.tags[j].0.name != name@,
            decreases self.tags.len() - k,
        {
            if str_eq(self.tags[k].0.name(), name) {
                proof {
                    assert(self@.tags[k as int].0.name == name@);
                    lemma_find_tag_at(self@.tags, name@);
                }
                return Some(k);
            }
            proof {
                assert(self@.tags[k as int].0.name != name@);
            }
            k += 1;
        }
        proof {
            lemma_find_tag_at(self@.tags, name@);
        }
        None
    }

    /// Index of the entry record with id `id`.
    #[verifier::loop_isolation(false)]
fn id_pos(&self, id: EntryId) -> (r: Option<usize>)
        ensures
            r matches Some(i) ==> i < self.entries@.len() && self@.entry_idx(id) == i,
            r is None ==> self@.entry_idx(id) == -1,
    {
        let mut k: usize = 0;
        while k < self.entries.len()
            invariant
                0 <= k <= self.entries.len(),
                forall|j: int| 0 <= j < k ==> self@.entries[j].0 != id,
            decreases self.entries.len() - k,
        {
            if self.entries[k].0 == id {
                proof {
                    assert(self@.entries[k as int].0 == id);
                    lemma_find_id_at(self@.entries, id);
                }
                return Some(k);
            }
            proof {
                assert(self@.entries[k as int].0 != id);
            }
            k += 1;
        }
        proof {
            lemma_find_id_at(self@.entries, id);
        }
        None
    }

    /// Index of the entry record with the given path.
    #[verifier::loop_isolation(false)]
fn path_pos(&self, path: &str) -> (r: Option<usize>)
        ensures
            r matches Some(i) ==> i < self.entries@.len() && self@.path_idx(path@) == i,
            r is None ==> self@.path_idx(path@) == -1,
    {
        let mut k: usize = 0;
        while k < self.entries.len()
            invariant
                0 <= k <= self.entries.len(),
                forall|j: int| 0 <= j < k ==> self@.entries[j].1 != path@,
            decreases self.entries.len() - k,
        {
            if str_eq(self.entries[k].1.path(), path) {
                proof {
                    assert(self@.entries[k as int].1 == path@);
                    lemma_find_path_at(self@.entries, path@);
                }
                return Some(k);
            }
            proof {
                assert(self@.entries[k as int].1 != path@);
            }
            k += 1;
        }
        proof {
            lemma_find_path_at(self@.entries, path@);
        }
        None
    }

    /// Finds the entry with the given path, returning its id.
    pub fn find_entry(&self, path: &str) -> (r: Option<EntryId>)
        ensures
            self@.path_idx(path@) >= 0 ==> r == Some(self@.entries[self@.path_idx(path@)].0),
            self@.path_idx(path@) < 0 ==> r is None,
    {
        proof {
            lemma_find_path_at(self@.entries, path@);
        }
        match self.path_pos(path) {
            Some(i) => Some(self.entries[i].0),
            None => None,
        }
    }

    /// Returns the record of entry `id`, if it exists.
    pub fn get_entry(&self, id: EntryId) -> (r: Option<EntryData>)
        ensures
            self@.has_entry(id) ==> (r matches Some(d) && d@ == self@.entry_path(id)),
            !self@.has_entry(id) ==> r is None,
    {
        proof {
            lemma_find_id_at(self@.entries, id);
        }
        match self.id_pos(id) {
            Some(i) => Some(self.entries[i].1.clone()),
            None => None,
        }
    }

    /// Returns the tag with the given name, if it exists, with its stored
    /// color.
    pub fn get_tag(&self, name: &str) -> (r: Option<Tag>)
        ensures
            self@.has_tag(name@) ==> (r matches Some(t) && t@ == self@.tags[self@.tag_idx(name@)].0),
            !self@.has_tag(name@) ==> r is None,
    {
        proof {
            lemma_find_tag_at(self@.tags, name@);
        }
        match self.tag_pos(name) {
            Some(i) => Some(self.tags[i].0.clone()),
            None => None,
        }
    }

    /// The transition of `add_or_update_entry` on the view: an existing
    /// path keeps its id and record; a new path is appended under the next
    /// fresh id.
    pub open spec fn spec_add_entry(v: RegView, p: Seq<char>) -> (RegView, EntryId) {
        let j = v.path_idx(p);
        if j >= 0 {
            (v, v.entries[j].0)
        } else {
            (
                RegView {
                    entries: v.entries.push((v.next_id, p)),
                    next_id: (v.next_id + 1) as EntryId,
                    ..v
                },
                v.next_id,
            )
        }
    }

    /// Updates the entry with an equal path, or inserts it under a fresh
    /// id. Returns the entry's id either way; the id of a path already
    /// present is stable.
    pub fn add_or_update_entry(&mut self, entry: EntryData) -> (r: EntryId)
        requires
            old(self).wf(),
            old(self)@.next_id < usize::MAX,
        ensures
            (final(self)@, r) == Self::spec_add_entry(old(self)@, entry@),
            final(self).wf(),
    {
        proof {
            lemma_find_path_at(self@.entries, entry@);
        }
        match self.path_pos(entry.path()) {
            Some(i) => {
                let id = self.entries[i].0;
                self.entries.remove(i);
                self.entries.insert(i, (id, entry));
                proof {
                    assert(self@.tags =~= old(self)@.tags);
                    assert(self@.entries =~= old(self)@.entries);
                }
                id
            },
            None => {
                let id = self.next_id;
                self.entries.push((id, entry));
                self.next_id = self.next_id + 1;
                proof {
                    assert(self@.tags =~= old(self)@.tags);
                    assert(self@.entries =~= old(self)@.entries.push((id, entry@)));
                    assert forall|a: int, b: int|
                        0 <= a < b < self@.entries.len() implies (#[trigger] self@.entries[a]).1 != (
                    #[trigger] self@.entries[b]).1 by {
                        if b == self@.entries.len() - 1 {
                            assert(old(self)@.entries[a].1 != entry@);
                        }
                    }
                    assert forall|i: int, a: int|
                        0 <= i < self@.tags.len() && 0 <= a < self@.tags[i].1.len() implies find_id_at(
                        self@.entries,
                        #[trigger] self@.tags[i].1[a],
                    ) >= 0 by {
                        let tid = self@.tags[i].1[a];
                        lemma_find_id_at(old(self)@.entries, tid);
                        lemma_find_id_at(self@.entries, tid);
                        let k = find_id_at(old(self)@.entries, tid);
                        if find_id_at(self@.entries, tid) == -1 {
                            assert(self@.entries[k] == old(self)@.entries[k]);
                        }
                    }
                }
                id
            },
        }
    }
}

/// The rows after removing `e` from every tag's list and dropping rows
/// whose list becomes empty.
pub open spec fn rows_clear(rows: Seq<(TagView, Seq<EntryId>)>, e: EntryId) -> Seq<
    (TagView, Seq<EntryId>),
>
    decreases rows.len(),
{
    if rows.len() == 0 {
        rows
    } else {
        let front = rows_clear(rows.drop_last(), e);
        let l2 = rows.last().1.remove_value(e);
        if l2.len() == 0 {
            front
        } else {
            front.push((rows.last().0, l2))
        }
    }
}

/// The tags among `rows` whose list contains `e`, in row order.
pub open spec fn tags_of(rows: Seq<(TagView, Seq<EntryId>)>, e: EntryId) -> Seq<TagView>
    decreases rows.len(),
{
    if rows.len() == 0 {
        Seq::empty()
    } else {
        let front = tags_of(rows.drop_last(), e);
        if rows.last().1.contains(e) {
            front.push(rows.last().0)
        } else {
            front
        }
    }
}

/// `ids` with later repetitions of earlier values dropped: the order of
/// first occurrences is kept.
pub open spec fn dedup_ids(ids: Seq<EntryId>) -> Seq<EntryId>
    decreases ids.len(),
{
    if ids.len() == 0 {
        ids
    } else {
        let front = dedup_ids(ids.drop_last());
        if ids.drop_last().contains(ids.last()) {
            front
        } else {
            front.push(ids.last())
        }
    }
}

/// Deduplication keeps exactly the values of the original sequence.
pub proof fn lemma_dedup_contains(ids: Seq<EntryId>, x: EntryId)
    ensures
        dedup_ids(ids).contains(x) <==> ids.contains(x),
    decreases ids.len(),
{
    if ids.len() == 0 {
    } else {
        let pre = ids.drop_last();
        lemma_dedup_contains(pre, x);
        assert(forall|i: int| 0 <= i < pre.len() ==> pre[i] == ids[i]);
        let d = dedup_ids(ids);
        let dp = dedup_ids(pre);
        if ids.contains(x) {
            let w = choose|w: int| 0 <= w < ids.len() && ids[w] == x;
            if w < ids.len() - 1 {
                assert(pre.contains(x)) by {
                    assert(pre[w] == x);
                }
                let u = choose|u: int| 0 <= u < dp.len() && dp[u] == x;
                assert(d.contains(x)) by {
                    assert(d[u] == x);
                }
            } else {
                if pre.contains(ids.last()) {
                    let u = choose|u: int| 0 <= u < dp.len() && dp[u] == x;
                    assert(d.contains(x)) by {
                        assert(d[u] == x);
                    }
                } else {
                    assert(d.contains(x)) by {
                        assert(d[d.len() - 1] == x);
                    }
                }
            }
        }
        if d.contains(x) {
            let u = choose|u: int| 0 <= u < d.len() && d[u] == x;
            if pre.contains(ids.last()) {
                assert(dp.contains(x)) by {
                    assert(dp[u] == x);
                }
                let w = choose|w: int| 0 <= w < pre.len() && pre[w] == x;
                assert(ids.contains(x)) by {
                    assert(ids[w] == x);
                }
            } else {
                if u < d.len() - 1 {
                    assert(dp.contains(x)) by {
                        assert(dp[u] == x);
                    }
                    let w = choose|w: int| 0 <= w < pre.len() && pre[w] == x;
                    assert(ids.contains(x)) by {
                        assert(ids[w] == x);
                    }
                } else {
                    assert(ids.contains(x)) by {
                        assert(ids[ids.len() - 1] == x);
                    }
                }
            }
        }
    }
}
impl RegView {
    /// The transition of `tag_entry`: an association already present is
    /// reported and nothing changes; otherwise the id is appended to the
    /// tag's list, the row being created first if the tag is new.
    pub open spec fn spec_tag_entry(self, t: TagView, e: EntryId) -> (RegView, Option<EntryId>) {
        let i = self.tag_idx(t.name);
        if i >= 0 {
            if self.tags[i].1.contains(e) {
                (self, Some(e))
            } else {
                (
                    RegView {
                        tags: self.tags.update(i, (self.tags[i].0, self.tags[i].1.push(e))),
                        entries: self.entries,
                        path: self.path,
                        next_id: self.next_id,
                    },
                    None,
                )
            }
        } else {
            (
                RegView {
                    tags: self.tags.push((t, seq![e])),
                    entries: self.entries,
                    path: self.path,
                    next_id: self.next_id,
                },
                None,
            )
        }
    }

    /// The transition of `untag_entry` (and of `untag_by_name`, which
    /// resolves the tag by name first): the id is removed from the tag's
    /// list, the row is dropped if its list becomes empty, and the entry
    /// record is removed and reported if no tag references it any more.
    pub open spec fn spec_untag_entry(self, name: Seq<char>, e: EntryId) -> (
        RegView,
        Option<Seq<char>>,
    ) {
        let i = self.tag_idx(name);
        if i < 0 || !self.tags[i].1.contains(e) {
            (self, None)
        } else {
            let l2 = self.tags[i].1.remove_value(e);
            let tags2 = if l2.len() == 0 {
                self.tags.remove(i)
            } else {
                self.tags.update(i, (self.tags[i].0, l2))
            };
            let mid = RegView {
                tags: tags2,
                entries: self.entries,
                path: self.path,
                next_id: self.next_id,
            };
            if mid.entry_tagged(e) {
                (mid, None)
            } else {
                let j = self.entry_idx(e);
                if j >= 0 {
                    (
                        RegView {
                            tags: tags2,
                            entries: self.entries.remove(j),
                            path: self.path,
                            next_id: self.next_id,
                        },
                        Some(self.entries[j].1),
                    )
                } else {
                    (mid, None)
                }
            }
        }
    }

    /// The transition of `clear_entry`: the id leaves every list, emptied
    /// rows are dropped, and the entry record is removed unconditionally.
    pub open spec fn spec_clear_entry(self, e: EntryId) -> RegView {
        let j = self.entry_idx(e);
        RegView {
            tags: rows_clear(self.tags, e),
            entries: if j >= 0 {
                self.entries.remove(j)
            } else {
                self.entries
            },
            path: self.path,
            next_id: self.next_id,
        }
    }

    /// The transition of `update_tag_color`: a missing tag leaves the state
    /// untouched and reports false; otherwise only the color of the named
    /// row changes.
    pub open spec fn spec_update_tag_color(self, name: Seq<char>, c: Color) -> (RegView, bool) {
        let i = self.tag_idx(name);
        if i < 0 {
            (self, false)
        } else {
            (
                RegView {
                    tags: self.tags.update(
                        i,
                        (TagView { name: self.tags[i].0.name, color: c }, self.tags[i].1),
                    ),
                    entries: self.entries,
                    path: self.path,
                    next_id: self.next_id,
                },
                true,
            )
        }
    }

    /// The concatenation of the entry lists of the named tags, in the
    /// order the names are given; unknown names contribute nothing.
    pub open spec fn lists_for(self, names: Seq<Seq<char>>) -> Seq<EntryId>
        decreases names.len(),
    {
        if names.len() == 0 {
            Seq::empty()
        } else {
            self.lists_for(names.drop_last()) + self.tag_list(names.last())
        }
    }

    /// What `list_entries_with_tags` returns: the union of the named tags'
    /// lists, duplicates dropped, first occurrences first.
    pub open spec fn spec_with_tags(self, names: Seq<Seq<char>>) -> Seq<EntryId> {
        dedup_ids(self.lists_for(names))
    }
}

/// Finds the first position of `id` in `ids`.
#[verifier::loop_isolation(false)]
fn ids_position(ids: &Vec<EntryId>, id: EntryId) -> (r: Option<usize>)
    ensures
        r matches Some(p) ==> p < ids@.len() && ids@.index_of_first(id) == Some(p as int),
        r is None ==> !ids@.contains(id),
{
    let mut k: usize = 0;
    while k < ids.len()
        invariant
            0 <= k <= ids.len(),
            forall|j: int| 0 <= j < k ==> ids@[j] != id,
        decreases ids.len() - k,
    {
        if ids[k] == id {
            proof {
                ids@.index_of_first_ensures(id);
                assert(ids@.contains(id)) by {
                    assert(ids@[k as int] == id);
                }
            }
            return Some(k);
        }
        k += 1;
    }
    proof {
        if ids@.contains(id) {
            let w = choose|w: int| 0 <= w < ids@.len() && ids@[w] == id;
            assert(false);
        }
    }
    None
}

impl TagRegistry {
    /// Whether any tag's list references `id`.
    #[verifier::loop_isolation(false)]
    fn any_list_contains(&self, id: EntryId) -> (r: bool)
        ensures
            r == self@.entry_tagged(id),
    {
        let mut k: usize = 0;
        while k < self.tags.len()
            invariant
                0 <= k <= self.tags.len(),
                forall|j: int| 0 <= j < k ==> !self@.tags[j].1.contains(id),
            decreases self.tags.len() - k,
        {
            if ids_contain(&self.tags[k].1, id) {
                proof {
                    assert(self@.tags[k as int].1.contains(id));
                }
                return true;
            }
            proof {
                assert(!self@.tags[k as int].1.contains(id));
            }
            k += 1;
        }
        false
    }

    /// Adds `tag` to the entry with id `entry`. Returns the id when the
    /// association already existed, nothing when it was newly added.
    pub fn tag_entry(&mut self, tag: &Tag, entry: EntryId) -> (r: Option<EntryId>)
        requires
            old(self).wf(),
            old(self)@.has_entry(entry),
            tag.wf(),
        ensures
            ({
                let (v2, r2) = old(self)@.spec_tag_entry(tag@, entry);
                final(self)@ == v2 && r == r2
            }),
            final(self).wf(),
    {
        let ghost v = self@;
        proof {
            lemma_find_tag_at(v.tags, tag@.name);
        }
        match self.tag_pos(tag.name()) {
            Some(i) => {
                if ids_contain(&self.tags[i].1, entry) {
                    proof {
                        assert(v.tags[i as int].1.contains(entry));
                    }
                    return Some(entry);
                }
                proof {
                    assert(!v.tags[i as int].1.contains(entry));
                }
                let pair = self.tags.remove(i);
                let t = pair.0;
                let mut ids = pair.1;
                ids.push(entry);
                self.tags.insert(i, (t, ids));
                proof {
                    assert(self@.tags =~= v.tags.update(
                        i as int,
                        (v.tags[i as int].0, v.tags[i as int].1.push(entry)),
                    ));
                    assert(self@.entries =~= v.entries);
                    assert forall|a: int, b: int|
                        0 <= a < self@.tags.len() && 0 <= b < self@.tags[a].1.len() implies find_id_at(
                        self@.entries,
                        #[trigger] self@.tags[a].1[b],
                    ) >= 0 by {
                        if a == i as int && b == self@.tags[a].1.len() - 1 {
                            assert(self@.tags[a].1[b] == entry);
                        } else {
                            assert(v.tags[a].1[b] == self@.tags[a].1[b]);
                        }
                    }
                }
                None
            },
            None => {
                let mut ids: Vec<EntryId> = Vec::new();
                ids.push(entry);
                self.tags.push((tag.clone(), ids));
                proof {
                    assert(ids@ =~= seq![entry]);
                    assert(self@.tags =~= v.tags.push((tag@, seq![entry])));
                    assert(self@.entries =~= v.entries);
                    lemma_find_tag_at(v.tags, tag@.name);
                    assert forall|a: int, b: int|
                        0 <= a < self@.tags.len() && 0 <= b < self@.tags[a].1.len() implies find_id_at(
                        self@.entries,
                        #[trigger] self@.tags[a].1[b],
                    ) >= 0 by {
                        if a == self@.tags.len() - 1 {
                            assert(self@.tags[a].1 =~= seq![entry]);
                            assert(self@.tags[a].1[b] == entry);
                        } else {
                            assert(v.tags[a].1[b] == self@.tags[a].1[b]);
                        }
                    }
                }
                None
            },
        }
    }

    /// Removes `tag` from the entry with id `entry`, garbage-collecting an
    /// emptied tag row, and returns the entry record when its last tag was
    /// just removed. A missing tag or association changes nothing.
    pub fn untag_entry(&mut self, tag: &Tag, entry: EntryId) -> (r: Option<EntryData>)
        requires
            old(self).wf(),
        ensures
            ({
                let (v2, r2) = old(self)@.spec_untag_entry(tag@.name, entry);
                final(self)@ == v2 && (match r {
                    Some(d) => r2 == Some(d@),
                    None => r2 is None,
                })
            }),
            final(self).wf(),
    {
        let ghost v = self@;
        proof {
            lemma_find_tag_at(v.tags, tag@.name);
        }
        let i = match self.tag_pos(tag.name()) {
            Some(i) => i,
            None => {
                return None;
            },
        };
        let p = match ids_position(&self.tags[i].1, entry) {
            Some(p) => p,
            None => {
                proof {
                    assert(!v.tags[i as int].1.contains(entry));
                }
                return None;
            },
        };
        proof {
            assert(v.tags[i as int].1.contains(entry)) by {
                v.tags[i as int].1.index_of_first_ensures(entry);
            }
        }
        let pair = self.tags.remove(i);
        let t = pair.0;
        let mut ids = pair.1;
        ids.remove(p);
        proof {
            v.tags[i as int].1.index_of_first_ensures(entry);
            assert(ids@ =~= v.tags[i as int].1.remove_value(entry));
        }
        if ids.len() > 0 {
            self.tags.insert(i, (t, ids));
            proof {
                assert(self@.tags =~= v.tags.update(
                    i as int,
                    (v.tags[i as int].0, v.tags[i as int].1.remove_value(entry)),
                ));
            }
        } else {
            proof {
                assert(self@.tags =~= v.tags.remove(i as int));
            }
        }
        proof {
            assert(self@.entries =~= v.entries);
            assert forall|a: int, b: int|
                0 <= a < self@.tags.len() && 0 <= b < self@.tags[a].1.len() implies find_id_at(
                self@.entries,
                #[trigger] self@.tags[a].1[b],
            ) >= 0 by {
                lemma_untag_rows_live(v, self@.tags, i as int, entry, a, b);
            }
        }
        let ghost mid = self@;
        if self.any_list_contains(entry) {
            return None;
        }
        match self.id_pos(entry) {
            Some(j) => {
                proof {
                    lemma_find_id_at(v.entries, entry);
                }
                let rec = self.entries.remove(j);
                proof {
                    assert(self@.entries =~= v.entries.remove(j as int));
                    assert(self@.tags == mid.tags);
                    assert forall|a: int, b: int|
                        0 <= a < self@.tags.len() && 0 <= b < self@.tags[a].1.len() implies find_id_at(
                        self@.entries,
                        #[trigger] self@.tags[a].1[b],
                    ) >= 0 by {
                        let tid = self@.tags[a].1[b];
                        assert(mid.tags[a].1.contains(tid));
                        assert(tid != entry);
                        lemma_find_id_at(v.entries, tid);
                        lemma_find_id_at(self@.entries, tid);
                        let k = find_id_at(v.entries, tid);
                        if find_id_at(self@.entries, tid) == -1 {
                            if k < j as int {
                                assert(self@.entries[k] == v.entries[k]);
                            } else {
                                assert(self@.entries[k - 1] == v.entries[k]);
                            }
                        }
                    }
                    assert forall|a: int, b: int|
                        0 <= a < b < self@.entries.len() implies (#[trigger] self@.entries[a]).0 != (
                    #[trigger] self@.entries[b]).0 by {
                        lemma_remove_keeps_distinct(v.entries, j as int, a, b);
                    }
                    assert forall|a: int, b: int|
                        0 <= a < b < self@.entries.len() implies (#[trigger] self@.entries[a]).1 != (
                    #[trigger] self@.entries[b]).1 by {
                        lemma_remove_keeps_distinct(v.entries, j as int, a, b);
                    }
                }
                Some(rec.1)
            },
            None => None,
        }
    }

    /// Resolves a tag by name, then behaves as `untag_entry`; a missing
    /// name changes nothing.
    pub fn untag_by_name(&mut self, tag_name: &str, entry: EntryId) -> (r: Option<EntryData>)
        requires
            old(self).wf(),
        ensures
            ({
                let (v2, r2) = old(self)@.spec_untag_entry(tag_name@, entry);
                final(self)@ == v2 && (match r {
                    Some(d) => r2 == Some(d@),
                    None => r2 is None,
                })
            }),
            final(self).wf(),
    {
        proof {
            lemma_find_tag_at(self@.tags, tag_name@);
        }
        let t = match self.get_tag(tag_name) {
            Some(t) => t,
            None => {
                return None;
            },
        };
        self.untag_entry(&t, entry)
    }
}

/// In the rows produced inside `untag_entry` every listed id was listed in
/// the original row set.
proof fn lemma_untag_rows_live(
    v: RegView,
    rows: Seq<(TagView, Seq<EntryId>)>,
    i: int,
    e: EntryId,
    a: int,
    b: int,
)
    requires
        v.wf(),
        0 <= i < v.tags.len(),
        v.tags[i].1.contains(e),
        rows == (if v.tags[i].1.remove_value(e).len() == 0 {
            v.tags.remove(i)
        } else {
            v.tags.update(i, (v.tags[i].0, v.tags[i].1.remove_value(e)))
        }),
        0 <= a < rows.len(),
        0 <= b < rows[a].1.len(),
    ensures
        find_id_at(v.entries, rows[a].1[b]) >= 0,
{
    v.tags[i].1.index_of_first_ensures(e);
    if v.tags[i].1.remove_value(e).len() == 0 {
        if a < i {
            assert(rows[a] == v.tags[a]);
        } else {
            assert(rows[a] == v.tags[a + 1]);
        }
    } else {
        if a != i {
            assert(rows[a] == v.tags[a]);
        } else {
            let l = v.tags[i].1;
            let p = l.index_of_first(e).unwrap();
            if b < p {
                assert(rows[a].1[b] == l[b]);
            } else {
                assert(rows[a].1[b] == l[b + 1]);
            }
        }
    }
}

/// Removing one element of a sequence of pairwise-distinct pairs keeps the
/// remaining components distinct.
proof fn lemma_remove_keeps_distinct(entries: Seq<(EntryId, Seq<char>)>, j: int, a: int, b: int)
    requires
        0 <= j < entries.len(),
        forall|x: int, y: int|
            0 <= x < y < entries.len() ==> (#[trigger] entries[x]).0 != (#[trigger] entries[y]).0
                && entries[x].1 != entries[y].1,
        0 <= a < b < entries.len() - 1,
    ensures
        entries.remove(j)[a].0 != entries.remove(j)[b].0,
        entries.remove(j)[a].1 != entries.remove(j)[b].1,
{
    let r = entries.remove(j);
    if a < j {
        assert(r[a] == entries[a]);
    } else {
        assert(r[a] == entries[a + 1]);
    }
    if b < j {
        assert(r[b] == entries[b]);
    } else {
        assert(r[b] == entries[b + 1]);
    }
}

/// `remove_value` on a duplicate-free list: the result is duplicate-free,
/// no longer holds the removed value, and holds only values of the
/// original list.
proof fn lemma_remove_value_props(l: Seq<EntryId>, e: EntryId)
    requires
        forall|a: int, b: int| 0 <= a < b < l.len() ==> l[a] != l[b],
    ensures
        forall|b: int| 0 <= b < l.remove_value(e).len() ==> (#[trigger] l.remove_value(e)[b]) != e,
        forall|b: int|
            0 <= b < l.remove_value(e).len() ==> l.contains(#[trigger] l.remove_value(e)[b]),
        forall|a: int, b: int|
            0 <= a < b < l.remove_value(e).len() ==> l.remove_value(e)[a] != l.remove_value(e)[b],
        l.contains(e) ==> l.remove_value(e).len() == l.len() - 1,
        !l.contains(e) ==> l.remove_value(e) == l,
{
    l.index_of_first_ensures(e);
    if l.contains(e) {
        let p = l.index_of_first(e).unwrap();
        let r = l.remove_value(e);
        assert forall|b: int| 0 <= b < r.len() implies (#[trigger] r[b]) != e && l.contains(r[b])
            && (forall|a: int| 0 <= a < b ==> r[a] != r[b]) by {
            if b < p {
                assert(r[b] == l[b]);
            } else {
                assert(r[b] == l[b + 1]);
            }
            assert forall|a: int| 0 <= a < b implies r[a] != r[b] by {
                if a < p {
                    assert(r[a] == l[a]);
                } else {
                    assert(r[a] == l[a + 1]);
                }
            }
        }
    }
}

/// What the rows of `rows_clear` are: each surviving row is an original
/// row with the id removed from its list, its list nonempty, and the
/// names stay pairwise distinct.
proof fn lemma_rows_clear_props(rows: Seq<(TagView, Seq<EntryId>)>, e: EntryId)
    requires
        forall|i: int, j: int|
            0 <= i < j < rows.len() ==> (#[trigger] rows[i]).0.name != (#[trigger] rows[j]).0.name,
    ensures
        ({
            let r = rows_clear(rows, e);
            &&& forall|k: int|
                0 <= k < r.len() ==> exists|i: int|
                    0 <= i < rows.len() && #[trigger] r[k] == (
                    rows[i].0,
                    rows[i].1.remove_value(e),
                    )
            &&& forall|k: int| 0 <= k < r.len() ==> (#[trigger] r[k]).1.len() > 0
            &&& forall|k: int, l: int|
                0 <= k < l < r.len() ==> (#[trigger] r[k]).0.name != (#[trigger] r[l]).0.name
        }),
    decreases rows.len(),
{
    if rows.len() == 0 {
    } else {
        let pre = rows.drop_last();
        lemma_rows_clear_props(pre, e);
        assert(forall|i: int| 0 <= i < pre.len() ==> pre[i] == rows[i]);
        let r = rows_clear(rows, e);
        let rp = rows_clear(pre, e);
        let l2 = rows.last().1.remove_value(e);
        assert forall|k: int| 0 <= k < r.len() implies exists|i: int|
            0 <= i < rows.len() && #[trigger] r[k] == (rows[i].0, rows[i].1.remove_value(e)) by {
            if k < rp.len() {
                assert(r[k] == rp[k]);
                let i = choose|i: int|
                    0 <= i < pre.len() && rp[k] == (pre[i].0, pre[i].1.remove_value(e));
                assert(r[k] == (rows[i].0, rows[i].1.remove_value(e)));
            } else {
                assert(r[k] == (rows[rows.len() - 1].0, rows[rows.len() - 1].1.remove_value(e)));
            }
        }
        assert forall|k: int, l: int|
            0 <= k < l < r.len() implies (#[trigger] r[k]).0.name != (#[trigger] r[l]).0.name by {
            if l < rp.len() {
                assert(r[k] == rp[k] && r[l] == rp[l]);
            } else if l2.len() > 0 && l == r.len() - 1 {
                assert(r[k] == rp[k]);
                let i = choose|i: int|
                    0 <= i < pre.len() && rp[k] == (pre[i].0, pre[i].1.remove_value(e));
                assert(rows[i].0.name != rows.last().0.name);
            }
        }
    }
}

impl TagRegistry {
    /// Removes the id from every tag's list, drops tags left with an empty
    /// list, then deletes the entry record itself.
    pub fn clear_entry(&mut self, entry: EntryId)
        requires
            old(self).wf(),
        ensures
            final(self)@ == old(self)@.spec_clear_entry(entry),
            final(self).wf(),
    {
        let ghost v = self@;
        let mut rows: Vec<(Tag, Vec<EntryId>)> = Vec::new();
        let mut k: usize = 0;
        while k < self.tags.len()
            invariant
                0 <= k <= self.tags@.len(),
                self@ == v,
                Seq::new(rows@.len(), |x: int| (rows@[x].0@, rows@[x].1@)) =~= rows_clear(
                    v.tags.take(k as int),
                    entry,
                ),
            decreases self.tags@.len() - k,
        {
            let ghost rows_pre = Seq::new(rows@.len(), |x: int| (rows@[x].0@, rows@[x].1@));
            let t2 = self.tags[k].0.clone();
            let mut ids2: Vec<EntryId> = Vec::new();
            let mut m: usize = 0;
            while m < self.tags[k].1.len()
                invariant
                    0 <= m <= self.tags@[k as int].1@.len(),
                    k < self.tags@.len(),
                    self@ == v,
                    ids2@ =~= self.tags@[k as int].1@.take(m as int),
                decreases self.tags@[k as int].1@.len() - m,
            {
                let idv = self.tags[k].1[m];
                ids2.push(idv);
                m += 1;
            }
            proof {
                assert(ids2@ =~= v.tags[k as int].1);
            }
            match ids_position(&ids2, entry) {
                Some(p) => {
                    proof {
                        v.tags[k as int].1.index_of_first_ensures(entry);
                    }
                    ids2.remove(p);
                    proof {
                        assert(ids2@ =~= v.tags[k as int].1.remove_value(entry));
                    }
                },
                None => {
                    proof {
                        v.tags[k as int].1.index_of_first_ensures(entry);
                        assert(ids2@ =~= v.tags[k as int].1.remove_value(entry));
                    }
                },
            }
            if ids2.len() > 0 {
                rows.push((t2, ids2));
            }
            proof {
                let taken = v.tags.take((k + 1) as int);
                assert(taken.drop_last() =~= v.tags.take(k as int));
                assert(taken.last() == v.tags[k as int]);
                assert(Seq::new(rows@.len(), |x: int| (rows@[x].0@, rows@[x].1@)) =~= rows_clear(
                    taken,
                    entry,
                )) by {
                    if ids2@.len() > 0 {
                        assert(Seq::new(rows@.len(), |x: int| (rows@[x].0@, rows@[x].1@))
                            =~= rows_pre.push((v.tags[k as int].0, v.tags[k as int].1.remove_value(
                            entry,
                        ))));
                    }
                }
            }
            k += 1;
        }
        proof {
            assert(v.tags.take(v.tags.len() as int) =~= v.tags);
        }
        self.tags = rows;
        proof {
            assert(self@.tags =~= rows_clear(v.tags, entry));
            assert(self@.entries =~= v.entries);
        }
        let ghost mid = self@;
        match self.id_pos(entry) {
            Some(j) => {
                proof {
                    lemma_find_id_at(v.entries, entry);
                }
                self.entries.remove(j);
                proof {
                    assert(self@.entries =~= v.entries.remove(j as int));
                    assert(self@.tags == mid.tags);
                }
            },
            None => {
            },
        }
        proof {
            lemma_rows_clear_props(v.tags, entry);
            assert forall|a: int, b: int|
                0 <= a < self@.tags.len() && 0 <= b < self@.tags[a].1.len() implies find_id_at(
                self@.entries,
                #[trigger] self@.tags[a].1[b],
            ) >= 0 by {
                let i = choose|i: int|
                    0 <= i < v.tags.len() && self@.tags[a] == (
                    v.tags[i].0,
                    v.tags[i].1.remove_value(entry),
                    );
                lemma_remove_value_props(v.tags[i].1, entry);
                let tid = self@.tags[a].1[b];
                assert(v.tags[i].1.contains(tid));
                assert(tid != entry);
                let c = choose|c: int| 0 <= c < v.tags[i].1.len() && v.tags[i].1[c] == tid;
                assert(find_id_at(v.entries, tid) >= 0);
                lemma_find_id_at(v.entries, tid);
                lemma_find_id_at(self@.entries, tid);
                let w = find_id_at(v.entries, tid);
                if find_id_at(self@.entries, tid) == -1 {
                    if self@.entries.len() < v.entries.len() {
                        let j = v.entry_idx(entry);
                        lemma_find_id_at(v.entries, entry);
                        if w < j {
                            assert(self@.entries[w] == v.entries[w]);
                        } else {
                            assert(self@.entries[w - 1] == v.entries[w]);
                        }
                    }
                }
            }
            assert forall|a: int|
                0 <= a < self@.tags.len() implies (#[trigger] self@.tags[a]).0.name.len() > 0
                && self@.tags[a].1.len() > 0 by {
                let i = choose|i: int|
                    0 <= i < v.tags.len() && self@.tags[a] == (
                    v.tags[i].0,
                    v.tags[i].1.remove_value(entry),
                    );
            }
            assert forall|a: int, x: int, y: int|
                0 <= a < self@.tags.len() && 0 <= x < y < self@.tags[a].1.len() implies #[trigger] self@.tags[a].1[x]
                != #[trigger] self@.tags[a].1[y] by {
                let i = choose|i: int|
                    0 <= i < v.tags.len() && self@.tags[a] == (
                    v.tags[i].0,
                    v.tags[i].1.remove_value(entry),
                    );
                lemma_remove_value_props(v.tags[i].1, entry);
            }
            if self@.entries.len() < v.entries.len() {
                let j = v.entry_idx(entry);
                lemma_find_id_at(v.entries, entry);
                assert forall|a: int, b: int|
                    0 <= a < b < self@.entries.len() implies (#[trigger] self@.entries[a]).0 != (
                #[trigger] self@.entries[b]).0 && self@.entries[a].1 != self@.entries[b].1 by {
                    lemma_remove_keeps_distinct(v.entries, j, a, b);
                }
            }
        }
    }

    /// Replaces the color on the tag with the given name, keeping its
    /// entry list; reports whether such a tag existed.
    pub fn update_tag_color(&mut self, name: &str, color: Color) -> (r: bool)
        requires
            old(self).wf(),
        ensures
            ({
                let (v2, r2) = old(self)@.spec_update_tag_color(name@, color);
                final(self)@ == v2 && r == r2
            }),
            final(self).wf(),
    {
        let ghost v = self@;
        proof {
            lemma_find_tag_at(v.tags, name@);
        }
        match self.tag_pos(name) {
            Some(i) => {
                let pair = self.tags.remove(i);
                let mut t = pair.0;
                t.set_color(&color);
                self.tags.insert(i, (t, pair.1));
                proof {
                    assert(self@.tags =~= v.tags.update(
                        i as int,
                        (TagView { name: v.tags[i as int].0.name, color }, v.tags[i as int].1),
                    ));
                    assert(self@.entries =~= v.entries);
                    assert(forall|x: int|
                        0 <= x < self@.tags.len() ==> (#[trigger] self@.tags[x]).0.name
                            == v.tags[x].0.name && self@.tags[x].1 == v.tags[x].1);
                    assert forall|a: int, b: int|
                        0 <= a < self@.tags.len() && 0 <= b < self@.tags[a].1.len() implies find_id_at(
                        self@.entries,
                        #[trigger] self@.tags[a].1[b],
                    ) >= 0 by {
                        assert(v.tags[a].1[b] == self@.tags[a].1[b]);
                    }
                }
                true
            },
            None => false,
        }
    }

    /// Lists the ids of all entries, in record order.
    pub fn list_entries_ids(&self) -> (r: Vec<EntryId>)
        ensures
            r@ == self@.entry_ids(),
    {
        let mut out: Vec<EntryId> = Vec::new();
        let mut k: usize = 0;
        while k < self.entries.len()
            invariant
                0 <= k <= self.entries@.len(),
                out@.len() == k,
                forall|j: int| 0 <= j < k ==> out@[j] == self@.entries[j].0,
            decreases self.entries@.len() - k,
        {
            out.push(self.entries[k].0);
            k += 1;
        }
        proof {
            assert(out@ =~= self@.entry_ids());
        }
        out
    }

    /// Lists the records of all entries, in record order.
    pub fn list_entries(&self) -> (r: Vec<EntryData>)
        ensures
            r@.len() == self@.entries.len(),
            forall|j: int| 0 <= j < r@.len() ==> (#[trigger] r@[j])@ == self@.entries[j].1,
    {
        let mut out: Vec<EntryData> = Vec::new();
        let mut k: usize = 0;
        while k < self.entries.len()
            invariant
                0 <= k <= self.entries@.len(),
                out@.len() == k,
                forall|j: int| 0 <= j < k ==> (#[trigger] out@[j])@ == self@.entries[j].1,
            decreases self.entries@.len() - k,
        {
            out.push(self.entries[k].1.clone());
            k += 1;
        }
        out
    }

    /// Lists ids and records of all entries, in record order.
    pub fn list_entries_and_ids(&self) -> (r: Vec<(EntryId, EntryData)>)
        ensures
            r@.len() == self@.entries.len(),
            forall|j: int|
                0 <= j < r@.len() ==> (#[trigger] r@[j]).0 == self@.entries[j].0 && r@[j].1@
                    == self@.entries[j].1,
    {
        let mut out: Vec<(EntryId, EntryData)> = Vec::new();
        let mut k: usize = 0;
        while k < self.entries.len()
            invariant
                0 <= k <= self.entries@.len(),
                out@.len() == k,
                forall|j: int|
                    0 <= j < k ==> (#[trigger] out@[j]).0 == self@.entries[j].0 && out@[j].1@
                        == self@.entries[j].1,
            decreases self.entries@.len() - k,
        {
            out.push((self.entries[k].0, self.entries[k].1.clone()));
            k += 1;
        }
        out
    }

    /// Lists all tags, in row order, with their stored colors.
    pub fn list_tags(&self) -> (r: Vec<Tag>)
        ensures
            r@.len() == self@.tags.len(),
            forall|j: int| 0 <= j < r@.len() ==> (#[trigger] r@[j])@ == self@.tags[j].0,
    {
        let mut out: Vec<Tag> = Vec::new();
        let mut k: usize = 0;
        while k < self.tags.len()
            invariant
                0 <= k <= self.tags@.len(),
                out@.len() == k,
                forall|j: int| 0 <= j < k ==> (#[trigger] out@[j])@ == self@.tags[j].0,
            decreases self.tags@.len() - k,
        {
            out.push(self.tags[k].0.clone());
            k += 1;
        }
        out
    }

    /// Lists the tags of the entry, or nothing if it has none.
    pub fn list_entry_tags(&self, entry: EntryId) -> (r: Option<Vec<Tag>>)
        ensures
            ({
                let ts = tags_of(self@.tags, entry);
                match r {
                    None => ts.len() == 0,
                    Some(out) => out@.len() == ts.len() && (forall|j: int|
                        0 <= j < ts.len() ==> (#[trigger] out@[j])@ == ts[j]),
                }
            }),
    {
        let mut out: Vec<Tag> = Vec::new();
        let mut k: usize = 0;
        while k < self.tags.len()
            invariant
                0 <= k <= self.tags@.len(),
                ({
                    let ts = tags_of(self@.tags.take(k as int), entry);
                    out@.len() == ts.len() && (forall|j: int|
                        0 <= j < ts.len() ==> (#[trigger] out@[j])@ == ts[j])
                }),
            decreases self.tags@.len() - k,
        {
            let ghost taken = self@.tags.take((k + 1) as int);
            proof {
                assert(taken.drop_last() =~= self@.tags.take(k as int));
                assert(taken.last() == self@.tags[k as int]);
            }
            if ids_contain(&self.tags[k].1, entry) {
                proof {
                    assert(self@.tags[k as int].1.contains(entry));
                }
                out.push(self.tags[k].0.clone());
            } else {
                proof {
                    assert(!self@.tags[k as int].1.contains(entry));
                }
            }
            k += 1;
        }
        proof {
            assert(self@.tags.take(self@.tags.len() as int) =~= self@.tags);
        }
        if out.len() == 0 {
            None
        } else {
            Some(out)
        }
    }

    /// Lists the entries labelled by any of the named tags: the union of
    /// the named tags' lists, duplicates dropped, in first-occurrence
    /// order; unknown names contribute nothing.
    pub fn list_entries_with_tags(&self, names: &Vec<String>) -> (r: Vec<EntryId>)
        ensures
            r@ == self@.spec_with_tags(names@.map_values(|s: String| s@)),
    {
        let ghost nv = names@.map_values(|s: String| s@);
        let mut out: Vec<EntryId> = Vec::new();
        let mut k: usize = 0;
        while k < names.len()
            invariant
                0 <= k <= names@.len(),
                nv == names@.map_values(|s: String| s@),
                out@ == dedup_ids(self@.lists_for(nv.take(k as int))),
            decreases names@.len() - k,
        {
            let ghost taken = nv.take((k + 1) as int);
            proof {
                assert(taken.drop_last() =~= nv.take(k as int));
                assert(taken.last() == nv[k as int]);
                lemma_find_tag_at(self@.tags, nv[k as int]);
            }
            let ghost front = self@.lists_for(nv.take(k as int));
            match self.tag_pos(names[k].as_str()) {
                None => {
                    proof {
                        assert(self@.tag_list(nv[k as int]) =~= Seq::<EntryId>::empty());
                        assert(front + self@.tag_list(nv[k as int]) =~= front);
                    }
                },
                Some(i) => {
                    let ghost tl = self@.tags[i as int].1;
                    proof {
                        assert(self@.tag_list(nv[k as int]) == tl);
                    }
                    let mut m: usize = 0;
                    while m < self.tags[i].1.len()
                        invariant
                            0 <= m <= tl.len(),
                            i < self.tags@.len(),
                            tl == self@.tags[i as int].1,
                            out@ == dedup_ids(front + tl.take(m as int)),
                        decreases tl.len() - m,
                    {
                        let idv = self.tags[i].1[m];
                        let ghost s = front + tl.take(m as int);
                        proof {
                            assert((front + tl.take((m + 1) as int)).drop_last() =~= s);
                            assert((front + tl.take((m + 1) as int)).last() == tl[m as int]);
                            lemma_dedup_contains(s, idv);
                        }
                        if !ids_contain(&out, idv) {
                            out.push(idv);
                        }
                        proof {
                            assert(out@ == dedup_ids(front + tl.take((m + 1) as int)));
                        }
                        m += 1;
                    }
                    proof {
                        assert(front + tl.take(tl.len() as int) =~= front + tl);
                    }
                },
            }
            k += 1;
        }
        proof {
            assert(nv.take(names@.len() as int) =~= nv);
        }
        out
    }
}

impl Default for TagRegistry {
    /// An empty registry bound to the empty path.
    fn default() -> (r: Self)
        ensures
            r@.tags == Seq::<(TagView, Seq<EntryId>)>::empty(),
            r@.entries == Seq::<(EntryId, Seq<char>)>::empty(),
            r@.path == Seq::<char>::empty(),
            r@.next_id == 0,
            r.wf(),
    {
        let r = TagRegistry::new("");
        proof {
            reveal_strlit("");
            assert(r@.path =~= Seq::<char>::empty());
        }
        r
    }
}

/// A row that matches, before which nothing matches, is what the search
/// finds.
proof fn lemma_first_match_unique(rows: Seq<(TagView, Seq<EntryId>)>, n: Seq<char>, k: int)
    requires
        0 <= k < rows.len(),
        rows[k].0.name == n,
        forall|x: int| 0 <= x < k ==> (#[trigger] rows[x]).0.name != n,
    ensures
        find_tag_at(rows, n) == k,
{
    lemma_find_tag_at(rows, n);
    let r = find_tag_at(rows, n);
    if r == -1 {
        assert(rows[k].0.name != n);
    } else if r < k {
        assert(rows[r].0.name != n);
    } else if r > k {
        assert(rows[k].0.name != n);
    }
}

/// A row whose list holds the id contributes its tag to `tags_of`.
proof fn lemma_tags_of_contains(rows: Seq<(TagView, Seq<EntryId>)>, e: EntryId, i: int)
    requires
        0 <= i < rows.len(),
        rows[i].1.contains(e),
    ensures
        tags_of(rows, e).contains(rows[i].0),
    decreases rows.len(),
{
    if i == rows.len() - 1 {
        let ts = tags_of(rows, e);
        assert(ts.contains(rows[i].0)) by {
            assert(ts[ts.len() - 1] == rows[i].0);
        }
    } else {
        let pre = rows.drop_last();
        assert(pre[i] == rows[i]);
        lemma_tags_of_contains(pre, e, i);
        let tp = tags_of(pre, e);
        let w = choose|w: int| 0 <= w < tp.len() && tp[w] == pre[i].0;
        assert(tags_of(rows, e).contains(rows[i].0)) by {
            assert(tags_of(rows, e)[w] == rows[i].0);
        }
    }
}

/// Two row sequences with the same names in the same places are searched
/// alike.
proof fn lemma_find_tag_same(
    a: Seq<(TagView, Seq<EntryId>)>,
    b: Seq<(TagView, Seq<EntryId>)>,
    n: Seq<char>,
)
    requires
        a.len() == b.len(),
        forall|i: int| 0 <= i < a.len() ==> (#[trigger] a[i]).0.name == b[i].0.name,
    ensures
        find_tag_at(a, n) == find_tag_at(b, n),
    decreases a.len(),
{
    if a.len() > 0 {
        assert(forall|i: int| 0 <= i < a.len() - 1 ==> a.drop_first()[i] == a[i + 1]);
        assert(forall|i: int| 0 <= i < b.len() - 1 ==> b.drop_first()[i] == b[i + 1]);
        lemma_find_tag_same(a.drop_first(), b.drop_first(), n);
    }
}

/// Two states whose tag lookups agree everywhere produce the same
/// concatenated listing for any name sequence.
proof fn lemma_lists_for_same(a: RegView, b: RegView, names: Seq<Seq<char>>)
    requires
        forall|n: Seq<char>| #[trigger] a.tag_list(n) == b.tag_list(n),
    ensures
        a.lists_for(names) == b.lists_for(names),
    decreases names.len(),
{
    if names.len() > 0 {
        lemma_lists_for_same(a, b, names.drop_last());
    }
}

/// Law: after `tag_entry` reports a fresh association (returns nothing),
/// the tag is among the entry's tags and the entry is in the listing for
/// the tag's name.
pub proof fn lemma_tag_entry_visible(v: RegView, t: TagView, e: EntryId)
    requires
        v.wf(),
        v.has_entry(e),
        t.name.len() > 0,
    ensures
        ({
            let (v2, r) = v.spec_tag_entry(t, e);
            r is None ==> (exists|k: int|
                0 <= k < tags_of(v2.tags, e).len() && (#[trigger] tags_of(v2.tags, e)[k]).name
                    == t.name) && v2.spec_with_tags(seq![t.name]).contains(e)
        }),
{
    lemma_find_tag_at(v.tags, t.name);
    let (v2, r) = v.spec_tag_entry(t, e);
    if r is None {
        let i = v.tag_idx(t.name);
        let ri: int = if i >= 0 {
            i
        } else {
            v.tags.len() as int
        };
        assert(v2.tags[ri].0.name == t.name);
        assert(v2.tags[ri].1.contains(e)) by {
            if i >= 0 {
                assert(v2.tags[ri].1 == v.tags[i].1.push(e));
                assert(v2.tags[ri].1[v2.tags[ri].1.len() - 1] == e);
            } else {
                assert(v2.tags[ri].1 =~= seq![e]);
                assert(v2.tags[ri].1[0] == e);
            }
        }
        lemma_tags_of_contains(v2.tags, e, ri);
        let ts = tags_of(v2.tags, e);
        let w = choose|w: int| 0 <= w < ts.len() && ts[w] == v2.tags[ri].0;
        assert(ts[w].name == t.name);
        assert forall|x: int| 0 <= x < ri implies (#[trigger] v2.tags[x]).0.name != t.name by {
            assert(v2.tags[x].0.name == v.tags[x].0.name);
        }
        lemma_first_match_unique(v2.tags, t.name, ri);
        assert(v2.tag_list(t.name) == v2.tags[ri].1);
        assert(seq![t.name].drop_last() =~= Seq::<Seq<char>>::empty());
        assert(v2.lists_for(Seq::<Seq<char>>::empty()) =~= Seq::<EntryId>::empty());
        assert(v2.lists_for(seq![t.name]) =~= v2.tag_list(t.name));
        lemma_dedup_contains(v2.lists_for(seq![t.name]), e);
    }
}

/// Law: tagging is idempotent. From any state, tagging once and then
/// tagging again gives back the id the second time and leaves the state of
/// the first call untouched; the first call reports nothing when the
/// association was new.
pub proof fn lemma_tag_entry_idempotent(v: RegView, t: TagView, e: EntryId)
    requires
        v.wf(),
        v.has_entry(e),
        t.name.len() > 0,
    ensures
        ({
            let (v1, r1) = v.spec_tag_entry(t, e);
            let (v2, r2) = v1.spec_tag_entry(t, e);
            &&& v2 == v1
            &&& r2 == Some(e)
            &&& (!v.tag_list(t.name).contains(e) ==> r1 is None)
        }),
{
    lemma_find_tag_at(v.tags, t.name);
    let (v1, r1) = v.spec_tag_entry(t, e);
    let i = v.tag_idx(t.name);
    if i >= 0 && v.tags[i].1.contains(e) {
    } else {
        let ri: int = if i >= 0 {
            i
        } else {
            v.tags.len() as int
        };
        assert(v1.tags[ri].0.name == t.name);
        assert forall|x: int| 0 <= x < ri implies (#[trigger] v1.tags[x]).0.name != t.name by {
            assert(v1.tags[x].0.name == v.tags[x].0.name);
        }
        lemma_first_match_unique(v1.tags, t.name, ri);
        assert(v1.tags[ri].1.contains(e)) by {
            if i >= 0 {
                assert(v1.tags[ri].1 == v.tags[i].1.push(e));
                assert(v1.tags[ri].1[v1.tags[ri].1.len() - 1] == e);
            } else {
                assert(v1.tags[ri].1 =~= seq![e]);
                assert(v1.tags[ri].1[0] == e);
            }
        }
    }
}

/// Law: when untagging reports the entry record, the entry is gone: it has
/// no record and appears in no id listing.
pub proof fn lemma_untag_gc_entry(v: RegView, name: Seq<char>, e: EntryId)
    requires
        v.wf(),
    ensures
        ({
            let (v2, r) = v.spec_untag_entry(name, e);
            r is Some ==> !v2.has_entry(e) && !v2.entry_ids().contains(e)
        }),
{
    let (v2, r) = v.spec_untag_entry(name, e);
    if r is Some {
        lemma_find_id_at(v.entries, e);
        let j = v.entry_idx(e);
        lemma_find_id_at(v2.entries, e);
        let k = find_id_at(v2.entries, e);
        if k >= 0 {
            if k < j {
                assert(v2.entries[k] == v.entries[k]);
            } else {
                assert(v2.entries[k] == v.entries[k + 1]);
            }
        }
        if v2.entry_ids().contains(e) {
            let w = choose|w: int| 0 <= w < v2.entry_ids().len() && v2.entry_ids()[w] == e;
            assert(v2.entries[w].0 == e);
            if w < j {
                assert(v2.entries[w] == v.entries[w]);
            } else {
                assert(v2.entries[w] == v.entries[w + 1]);
            }
        }
    }
}

/// Law: clearing an entry always removes its record from the registry and
/// from every id listing.
pub proof fn lemma_clear_gc_entry(v: RegView, e: EntryId)
    requires
        v.wf(),
    ensures
        !v.spec_clear_entry(e).has_entry(e),
        !v.spec_clear_entry(e).entry_ids().contains(e),
{
    let v2 = v.spec_clear_entry(e);
    lemma_find_id_at(v.entries, e);
    let j = v.entry_idx(e);
    lemma_find_id_at(v2.entries, e);
    let k = find_id_at(v2.entries, e);
    if k >= 0 {
        if j >= 0 {
            if k < j {
                assert(v2.entries[k] == v.entries[k]);
            } else {
                assert(v2.entries[k] == v.entries[k + 1]);
            }
        }
    }
    if v2.entry_ids().contains(e) {
        let w = choose|w: int| 0 <= w < v2.entry_ids().len() && v2.entry_ids()[w] == e;
        assert(v2.entries[w].0 == e);
        if j >= 0 {
            if w < j {
                assert(v2.entries[w] == v.entries[w]);
            } else {
                assert(v2.entries[w] == v.entries[w + 1]);
            }
        }
    }
}

/// Law: untagging the only entry of a tag removes the tag itself.
pub proof fn lemma_untag_gc_tag(v: RegView, name: Seq<char>, e: EntryId)
    requires
        v.wf(),
        v.tag_list(name) == seq![e],
    ensures
        !v.spec_untag_entry(name, e).0.has_tag(name),
{
    lemma_find_tag_at(v.tags, name);
    let i = v.tag_idx(name);
    assert(i >= 0) by {
        if i < 0 {
            assert(v.tag_list(name) =~= Seq::<EntryId>::empty());
        }
    }
    assert(v.tags[i].1.contains(e)) by {
        assert(v.tags[i].1[0] == e);
    }
    v.tags[i].1.index_of_first_ensures(e);
    let p = v.tags[i].1.index_of_first(e).unwrap();
    assert(p == 0);
    assert(v.tags[i].1.remove_value(e).len() == 0);
    let (v2, r) = v.spec_untag_entry(name, e);
    assert(v2.tags == v.tags.remove(i));
    lemma_find_tag_at(v2.tags, name);
    let k = find_tag_at(v2.tags, name);
    if k >= 0 {
        if k < i {
            assert(v2.tags[k] == v.tags[k]);
        } else {
            assert(v2.tags[k] == v.tags[k + 1]);
        }
    }
}

/// Law: clearing an entry removes every tag whose only entry it was.
pub proof fn lemma_clear_gc_tag(v: RegView, name: Seq<char>, e: EntryId)
    requires
        v.wf(),
        v.tag_list(name) == seq![e],
    ensures
        !v.spec_clear_entry(e).has_tag(name),
{
    lemma_find_tag_at(v.tags, name);
    let i = v.tag_idx(name);
    assert(i >= 0) by {
        if i < 0 {
            assert(v.tag_list(name) =~= Seq::<EntryId>::empty());
        }
    }
    assert(v.tags[i].1.contains(e)) by {
        assert(v.tags[i].1[0] == e);
    }
    v.tags[i].1.index_of_first_ensures(e);
    assert(v.tags[i].1.remove_value(e).len() == 0);
    let v2 = v.spec_clear_entry(e);
    lemma_rows_clear_props(v.tags, e);
    lemma_find_tag_at(v2.tags, name);
    let k = find_tag_at(v2.tags, name);
    if k >= 0 {
        let w = choose|w: int|
            0 <= w < v.tags.len() && v2.tags[k] == (v.tags[w].0, v.tags[w].1.remove_value(e));
        assert(v.tags[w].0.name == name);
        assert(w == i);
    }
}

/// Law: updating a tag's color only changes that color. The report says
/// whether the tag existed; on success the stored color becomes the given
/// one; every listing by names is unchanged, as are the entries; and a
/// miss leaves the whole state untouched.
pub proof fn lemma_update_color_preserves(
    v: RegView,
    name: Seq<char>,
    c: Color,
    names: Seq<Seq<char>>,
)
    requires
        v.wf(),
    ensures
        ({
            let (v2, r) = v.spec_update_tag_color(name, c);
            &&& r == v.has_tag(name)
            &&& r ==> v2.has_tag(name) && v2.tag_color(name) == c
            &&& v2.spec_with_tags(names) == v.spec_with_tags(names)
            &&& v2.entries == v.entries
            &&& !r ==> v2 == v
        }),
{
    let (v2, r) = v.spec_update_tag_color(name, c);
    lemma_find_tag_at(v.tags, name);
    let i = v.tag_idx(name);
    if i >= 0 {
        assert(forall|x: int|
            0 <= x < v.tags.len() ==> (#[trigger] v2.tags[x]).0.name == v.tags[x].0.name
                && v2.tags[x].1 == v.tags[x].1);
        assert forall|n: Seq<char>| #[trigger] v2.tag_list(n) == v.tag_list(n) by {
            lemma_find_tag_same(v2.tags, v.tags, n);
            let ix = find_tag_at(v.tags, n);
            if ix >= 0 {
                lemma_find_tag_at(v.tags, n);
                assert(v2.tags[ix].1 == v.tags[ix].1);
            }
        }
        assert(v2.tag_idx(name) == i) by {
            lemma_find_tag_same(v2.tags, v.tags, name);
        }
        lemma_lists_for_same(v2, v, names);
    }
}

/// Failures of the persistence lifecycle.
#[derive(Clone, Debug)]
pub enum RegistryError {
    /// The registry file does not exist.
    NotFound,
    /// The stored bytes do not decode to a registry.
    CorruptData,
    /// An underlying read or write failed, with its message.
    IoFailure(String),
}

/// The encoding of one integer: eight little-endian bytes.
pub open spec fn enc_u64(x: u64) -> Seq<u8> {
    spec_u64_to_le_bytes(x)
}

/// The encoding of a string: its UTF-8 length, then its UTF-8 bytes.
pub open spec fn enc_str(s: Seq<char>) -> Seq<u8> {
    enc_u64(encode_utf8(s).len() as u64) + encode_utf8(s)
}

/// A string short enough to be encoded.
pub open spec fn str_encodable(s: Seq<char>) -> bool {
    encode_utf8(s).len() <= usize::MAX
}

/// The encoding of a color: a variant byte, and the three channel bytes
/// for an RGB triple.
pub open spec fn enc_color(c: Color) -> Seq<u8> {
    match c {
        Color::Black => seq![0u8],
        Color::Red => seq![1u8],
        Color::Green => seq![2u8],
        Color::Yellow => seq![3u8],
        Color::Blue => seq![4u8],
        Color::Magenta => seq![5u8],
        Color::Cyan => seq![6u8],
        Color::White => seq![7u8],
        Color::BrightBlack => seq![8u8],
        Color::BrightRed => seq![9u8],
        Color::BrightGreen => seq![10u8],
        Color::BrightYellow => seq![11u8],
        Color::BrightBlue => seq![12u8],
        Color::BrightMagenta => seq![13u8],
        Color::BrightCyan => seq![14u8],
        Color::BrightWhite => seq![15u8],
        Color::Rgb(r, g, b) => seq![16u8, r, g, b],
    }
}

/// The encoding of an id list, front first.
pub open spec fn enc_ids(ids: Seq<EntryId>) -> Seq<u8>
    decreases ids.len(),
{
    if ids.len() == 0 {
        Seq::empty()
    } else {
        enc_u64(ids[0] as u64) + enc_ids(ids.drop_first())
    }
}

/// The encoding of one tag row: name, color, list length, list.
pub open spec fn enc_tag_row(row: (TagView, Seq<EntryId>)) -> Seq<u8> {
    enc_str(row.0.name) + enc_color(row.0.color) + enc_u64(row.1.len() as u64) + enc_ids(row.1)
}

/// The encoding of the tag rows, front first.
pub open spec fn enc_tag_rows(rows: Seq<(TagView, Seq<EntryId>)>) -> Seq<u8>
    decreases rows.len(),
{
    if rows.len() == 0 {
        Seq::empty()
    } else {
        enc_tag_row(rows[0]) + enc_tag_rows(rows.drop_first())
    }
}

/// The encoding of one entry record: id, then path.
pub open spec fn enc_entry_row(row: (EntryId, Seq<char>)) -> Seq<u8> {
    enc_u64(row.0 as u64) + enc_str(row.1)
}

/// The encoding of the entry records, front first.
pub open spec fn enc_entry_rows(rows: Seq<(EntryId, Seq<char>)>) -> Seq<u8>
    decreases rows.len(),
{
    if rows.len() == 0 {
        Seq::empty()
    } else {
        enc_entry_row(rows[0]) + enc_entry_rows(rows.drop_first())
    }
}

/// A state small enough to be encoded: every string fits, and so do the
/// row counts.
pub open spec fn encodable(v: RegView) -> bool {
    &&& str_encodable(v.path)
    &&& v.tags.len() <= usize::MAX
    &&& forall|i: int|
        0 <= i < v.tags.len() ==> str_encodable((#[trigger] v.tags[i]).0.name) && v.tags[i].1.len()
            <= usize::MAX
    &&& v.entries.len() <= usize::MAX
    &&& forall|i: int| 0 <= i < v.entries.len() ==> str_encodable((#[trigger] v.entries[i]).1)
}

/// The full encoding: bound path, id counter, tag rows with their count,
/// entry records with their count.
pub open spec fn spec_encode(v: RegView) -> Seq<u8> {
    enc_str(v.path) + enc_u64(v.next_id as u64) + enc_u64(v.tags.len() as u64) + enc_tag_rows(
        v.tags,
    ) + enc_u64(v.entries.len() as u64) + enc_entry_rows(v.entries)
}

/// Reads one integer at `p`.
pub open spec fn dec_u64(b: Seq<u8>, p: int) -> Option<(u64, int)> {
    if 0 <= p && p + 8 <= b.len() {
        Some((spec_u64_from_le_bytes(b.subrange(p, p + 8)), p + 8))
    } else {
        None
    }
}

/// Reads one integer at `p` that must fit a usize.
pub open spec fn dec_usize(b: Seq<u8>, p: int) -> Option<(usize, int)> {
    match dec_u64(b, p) {
        None => None,
        Some((x, q)) => if x <= usize::MAX as u64 {
            Some((x as usize, q))
        } else {
            None
        },
    }
}

/// Reads one length-prefixed UTF-8 string at `p`.
pub open spec fn dec_str(b: Seq<u8>, p: int) -> Option<(Seq<char>, int)> {
    match dec_usize(b, p) {
        None => None,
        Some((n, q)) => if q + n <= b.len() && valid_utf8(b.subrange(q, q + n)) {
            Some((decode_utf8(b.subrange(q, q + n)), q + n))
        } else {
            None
        },
    }
}

/// Reads one color at `p`.
pub open spec fn dec_color(b: Seq<u8>, p: int) -> Option<(Color, int)> {
    if !(0 <= p && p < b.len()) {
        None
    } else {
        let t = b[p];
        if t == 0 {
            Some((Color::Black, p + 1))
        } else if t == 1 {
            Some((Color::Red, p + 1))
        } else if t == 2 {
            Some((Color::Green, p + 1))
        } else if t == 3 {
            Some((Color::Yellow, p + 1))
        } else if t == 4 {
            Some((Color::Blue, p + 1))
        } else if t == 5 {
            Some((Color::Magenta, p + 1))
        } else if t == 6 {
            Some((Color::Cyan, p + 1))
        } else if t == 7 {
            Some((Color::White, p + 1))
        } else if t == 8 {
            Some((Color::BrightBlack, p + 1))
        } else if t == 9 {
            Some((Color::BrightRed, p + 1))
        } else if t == 10 {
            Some((Color::BrightGreen, p + 1))
        } else if t == 11 {
            Some((Color::BrightYellow, p + 1))
        } else if t == 12 {
            Some((Color::BrightBlue, p + 1))
        } else if t == 13 {
            Some((Color::BrightMagenta, p + 1))
        } else if t == 14 {
            Some((Color::BrightCyan, p + 1))
        } else if t == 15 {
            Some((Color::BrightWhite, p + 1))
        } else if t == 16 {
            if p + 4 <= b.len() {
                Some((Color::Rgb(b[p + 1], b[p + 2], b[p + 3]), p + 4))
            } else {
                None
            }
        } else {
            None
        }
    }
}

/// Reads `cnt` ids at `p`.
pub open spec fn dec_ids(b: Seq<u8>, p: int, cnt: int) -> Option<(Seq<EntryId>, int)>
    decreases cnt,
{
    if cnt <= 0 {
        Some((Seq::empty(), p))
    } else {
        match dec_usize(b, p) {
            None => None,
            Some((x, q)) => match dec_ids(b, q, cnt - 1) {
                None => None,
                Some((rest, q2)) => Some((seq![x] + rest, q2)),
            },
        }
    }
}

/// Reads `cnt` tag rows at `p`.
pub open spec fn dec_tag_rows(b: Seq<u8>, p: int, cnt: int) -> Option<
    (Seq<(TagView, Seq<EntryId>)>, int),
>
    decreases cnt,
{
    if cnt <= 0 {
        Some((Seq::empty(), p))
    } else {
        match dec_str(b, p) {
            None => None,
            Some((name, p1)) => match dec_color(b, p1) {
                None => None,
                Some((col, p2)) => match dec_usize(b, p2) {
                    None => None,
                    Some((n, p3)) => match dec_ids(b, p3, n as int) {
                        None => None,
                        Some((ids, p4)) => match dec_tag_rows(b, p4, cnt - 1) {
                            None => None,
                            Some((rest, p5)) => Some(
                                (seq![(TagView { name, color: col }, ids)] + rest, p5),
                            ),
                        },
                    },
                },
            },
        }
    }
}

/// Reads `cnt` entry records at `p`.
pub open spec fn dec_entry_rows(b: Seq<u8>, p: int, cnt: int) -> Option<
    (Seq<(EntryId, Seq<char>)>, int),
>
    decreases cnt,
{
    if cnt <= 0 {
        Some((Seq::empty(), p))
    } else {
        match dec_usize(b, p) {
            None => None,
            Some((id, p1)) => match dec_str(b, p1) {
                None => None,
                Some((path, p2)) => match dec_entry_rows(b, p2, cnt - 1) {
                    None => None,
                    Some((rest, p3)) => Some((seq![(id, path)] + rest, p3)),
                },
            },
        }
    }
}

/// The full decoding; it must consume the whole input.
pub open spec fn spec_decode(b: Seq<u8>) -> Option<RegView> {
    match dec_str(b, 0) {
        None => None,
        Some((path, p1)) => match dec_usize(b, p1) {
            None => None,
            Some((next, p2)) => match dec_usize(b, p2) {
                None => None,
                Some((ntags, p3)) => match dec_tag_rows(b, p3, ntags as int) {
                    None => None,
                    Some((tags, p4)) => match dec_usize(b, p4) {
                        None => None,
                        Some((nent, p5)) => match dec_entry_rows(b, p5, nent as int) {
                            None => None,
                            Some((entries, p6)) => if p6 == b.len() {
                                Some(RegView { tags, entries, path, next_id: next })
                            } else {
                                None
                            },
                        },
                    },
                },
            },
        },
    }
}

/// Appending one id extends the id encoding at its end.
proof fn lemma_enc_ids_snoc(ids: Seq<EntryId>, x: EntryId)
    ensures
        enc_ids(ids.push(x)) == enc_ids(ids) + enc_u64(x as u64),
    decreases ids.len(),
{
    let s = ids.push(x);
    if ids.len() == 0 {
        assert(s[0] == x);
        assert(s.drop_first() =~= Seq::<EntryId>::empty());
        assert(enc_ids(s) == enc_u64(x as u64) + enc_ids(s.drop_first()));
        assert(enc_ids(Seq::<EntryId>::empty()) =~= Seq::<u8>::empty());
        assert(enc_ids(s) =~= enc_ids(ids) + enc_u64(x as u64));
    } else {
        assert(s[0] == ids[0]);
        assert(s.drop_first() =~= ids.drop_first().push(x));
        lemma_enc_ids_snoc(ids.drop_first(), x);
        assert(enc_ids(s) == enc_u64(ids[0] as u64) + enc_ids(ids.drop_first().push(x)));
        assert(enc_ids(ids) == enc_u64(ids[0] as u64) + enc_ids(ids.drop_first()));
        assert(enc_ids(s) =~= enc_ids(ids) + enc_u64(x as u64));
    }
}

/// Appending one tag row extends the row encoding at its end.
proof fn lemma_enc_tag_rows_snoc(rows: Seq<(TagView, Seq<EntryId>)>, x: (TagView, Seq<EntryId>))
    ensures
        enc_tag_rows(rows.push(x)) == enc_tag_rows(rows) + enc_tag_row(x),
    decreases rows.len(),
{
    let s = rows.push(x);
    if rows.len() == 0 {
        assert(s[0] == x);
        assert(s.drop_first() =~= Seq::<(TagView, Seq<EntryId>)>::empty());
        assert(enc_tag_rows(s) == enc_tag_row(x) + enc_tag_rows(s.drop_first()));
        assert(enc_tag_rows(Seq::<(TagView, Seq<EntryId>)>::empty()) =~= Seq::<u8>::empty());
        assert(enc_tag_rows(s) =~= enc_tag_rows(rows) + enc_tag_row(x));
    } else {
        assert(s[0] == rows[0]);
        assert(s.drop_first() =~= rows.drop_first().push(x));
        lemma_enc_tag_rows_snoc(rows.drop_first(), x);
        assert(enc_tag_rows(s) == enc_tag_row(rows[0]) + enc_tag_rows(rows.drop_first().push(x)));
        assert(enc_tag_rows(rows) == enc_tag_row(rows[0]) + enc_tag_rows(rows.drop_first()));
        assert(enc_tag_rows(s) =~= enc_tag_rows(rows) + enc_tag_row(x));
    }
}

/// Appending one entry record extends the record encoding at its end.
proof fn lemma_enc_entry_rows_snoc(rows: Seq<(EntryId, Seq<char>)>, x: (EntryId, Seq<char>))
    ensures
        enc_entry_rows(rows.push(x)) == enc_entry_rows(rows) + enc_entry_row(x),
    decreases rows.len(),
{
    let s = rows.push(x);
    if rows.len() == 0 {
        assert(s[0] == x);
        assert(s.drop_first() =~= Seq::<(EntryId, Seq<char>)>::empty());
        assert(enc_entry_rows(s) == enc_entry_row(x) + enc_entry_rows(s.drop_first()));
        assert(enc_entry_rows(Seq::<(EntryId, Seq<char>)>::empty()) =~= Seq::<u8>::empty());
        assert(enc_entry_rows(s) =~= enc_entry_rows(rows) + enc_entry_row(x));
    } else {
        assert(s[0] == rows[0]);
        assert(s.drop_first() =~= rows.drop_first().push(x));
        lemma_enc_entry_rows_snoc(rows.drop_first(), x);
        assert(enc_entry_rows(s) == enc_entry_row(rows[0]) + enc_entry_rows(
            rows.drop_first().push(x),
        ));
        assert(enc_entry_rows(rows) == enc_entry_row(rows[0]) + enc_entry_rows(rows.drop_first()));
        assert(enc_entry_rows(s) =~= enc_entry_rows(rows) + enc_entry_row(x));
    }
}

/// An encoded integer reads back.
proof fn lemma_rt_u64(b: Seq<u8>, p: int, x: u64)
    requires
        0 <= p,
        p + 8 <= b.len(),
        b.subrange(p, p + 8) == enc_u64(x),
    ensures
        dec_u64(b, p) == Some((x, p + 8)),
{
    lemma_auto_spec_u64_to_from_le_bytes();
}

/// An encoded usize reads back.
proof fn lemma_rt_usize(b: Seq<u8>, p: int, x: usize)
    requires
        0 <= p,
        p + 8 <= b.len(),
        b.subrange(p, p + 8) == enc_u64(x as u64),
    ensures
        dec_usize(b, p) == Some((x, p + 8)),
{
    lemma_rt_u64(b, p, x as u64);
}

/// A later part of an already-matched block matches on its own.
proof fn lemma_sub_extract(b: Seq<u8>, p: int, e: Seq<u8>, q: int, c: Seq<u8>)
    requires
        0 <= p,
        p + e.len() <= b.len(),
        b.subrange(p, p + e.len()) == e,
        p <= q,
        q - p + c.len() <= e.len(),
        forall|j: int| 0 <= j < c.len() ==> e[q - p + j] == #[trigger] c[j],
    ensures
        b.subrange(q, q + c.len()) == c,
{
    assert forall|j: int| 0 <= j < c.len() implies b.subrange(q, q + c.len() as int)[j] == c[j] by {
        assert(b.subrange(p, p + e.len() as int)[q - p + j] == e[q - p + j]);
    }
    assert(b.subrange(q, q + c.len() as int) =~= c);
}

/// An encoded string reads back.
proof fn lemma_rt_str(b: Seq<u8>, p: int, s: Seq<char>)
    requires
        str_encodable(s),
        0 <= p,
        p + enc_str(s).len() <= b.len(),
        b.subrange(p, p + enc_str(s).len()) == enc_str(s),
    ensures
        dec_str(b, p) == Some((s, p + enc_str(s).len())),
{
    lemma_auto_spec_u64_to_from_le_bytes();
    let u = encode_utf8(s);
    let n = u.len() as int;
    let e = enc_str(s);
    lemma_sub_extract(b, p, e, p, enc_u64(u.len() as u64));
    lemma_rt_usize(b, p, u.len() as usize);
    lemma_sub_extract(b, p, e, p + 8, u);
    encode_utf8_valid_utf8(s);
    encode_utf8_decode_utf8(s);
}

/// An encoded color reads back.
proof fn lemma_rt_color(b: Seq<u8>, p: int, c: Color)
    requires
        0 <= p,
        p + enc_color(c).len() <= b.len(),
        b.subrange(p, p + enc_color(c).len()) == enc_color(c),
    ensures
        dec_color(b, p) == Some((c, p + enc_color(c).len())),
{
    let e = enc_color(c);
    assert(forall|i: int| 0 <= i < e.len() ==> b.subrange(p, p + e.len() as int)[i] == #[trigger] e[i]);
    assert(b[p] == e[0]);
    if e.len() == 4 {
        assert(b[p + 1] == e[1] && b[p + 2] == e[2] && b[p + 3] == e[3]);
    }
}

/// An encoded id list reads back.
proof fn lemma_rt_ids(b: Seq<u8>, p: int, ids: Seq<EntryId>)
    requires
        0 <= p,
        p + enc_ids(ids).len() <= b.len(),
        b.subrange(p, p + enc_ids(ids).len()) == enc_ids(ids),
    ensures
        dec_ids(b, p, ids.len() as int) == Some((ids, p + enc_ids(ids).len())),
    decreases ids.len(),
{
    lemma_auto_spec_u64_to_from_le_bytes();
    if ids.len() == 0 {
        assert(ids =~= Seq::<EntryId>::empty());
    } else {
        let rest = ids.drop_first();
        let e = enc_ids(ids);
        lemma_sub_extract(b, p, e, p, enc_u64(ids[0] as u64));
        lemma_rt_usize(b, p, ids[0]);
        lemma_sub_extract(b, p, e, p + 8, enc_ids(rest));
        lemma_rt_ids(b, p + 8, rest);
        assert(seq![ids[0]] + rest =~= ids);
    }
}

/// Encoded tag rows read back.
proof fn lemma_rt_tag_rows(b: Seq<u8>, p: int, rows: Seq<(TagView, Seq<EntryId>)>)
    requires
        0 <= p,
        forall|k: int|
            0 <= k < rows.len() ==> str_encodable((#[trigger] rows[k]).0.name) && rows[k].1.len()
                <= usize::MAX,
        p + enc_tag_rows(rows).len() <= b.len(),
        b.subrange(p, p + enc_tag_rows(rows).len()) == enc_tag_rows(rows),
    ensures
        dec_tag_rows(b, p, rows.len() as int) == Some((rows, p + enc_tag_rows(rows).len())),
    decreases rows.len(),
{
    lemma_auto_spec_u64_to_from_le_bytes();
    if rows.len() == 0 {
        assert(rows =~= Seq::<(TagView, Seq<EntryId>)>::empty());
    } else {
        let rest = rows.drop_first();
        let row = rows[0];
        let e_name = enc_str(row.0.name);
        let e_col = enc_color(row.0.color);
        let e_ids = enc_ids(row.1);
        let e = enc_tag_rows(rows);
        let p1 = p + e_name.len();
        let p2 = p1 + e_col.len();
        let p3 = p2 + 8;
        let p4 = p3 + e_ids.len();
        lemma_sub_extract(b, p, e, p, e_name);
        lemma_rt_str(b, p, row.0.name);
        lemma_sub_extract(b, p, e, p1, e_col);
        lemma_rt_color(b, p1, row.0.color);
        lemma_sub_extract(b, p, e, p2, enc_u64(row.1.len() as u64));
        lemma_rt_usize(b, p2, row.1.len() as usize);
        lemma_sub_extract(b, p, e, p3, e_ids);
        lemma_rt_ids(b, p3, row.1);
        assert(forall|k: int| 0 <= k < rest.len() ==> rest[k] == rows[k + 1]);
        lemma_sub_extract(b, p, e, p4, enc_tag_rows(rest));
        lemma_rt_tag_rows(b, p4, rest);
        assert(seq![(TagView { name: row.0.name, color: row.0.color }, row.1)] + rest =~= rows);
    }
}

/// Encoded entry records read back.
proof fn lemma_rt_entry_rows(b: Seq<u8>, p: int, rows: Seq<(EntryId, Seq<char>)>)
    requires
        0 <= p,
        forall|k: int| 0 <= k < rows.len() ==> str_encodable((#[trigger] rows[k]).1),
        p + enc_entry_rows(rows).len() <= b.len(),
        b.subrange(p, p + enc_entry_rows(rows).len()) == enc_entry_rows(rows),
    ensures
        dec_entry_rows(b, p, rows.len() as int) == Some((rows, p + enc_entry_rows(rows).len())),
    decreases rows.len(),
{
    lemma_auto_spec_u64_to_from_le_bytes();
    if rows.len() == 0 {
        assert(rows =~= Seq::<(EntryId, Seq<char>)>::empty());
    } else {
        let rest = rows.drop_first();
        let row = rows[0];
        let e_path = enc_str(row.1);
        let e = enc_entry_rows(rows);
        let p1 = p + 8;
        let p2 = p1 + e_path.len();
        lemma_sub_extract(b, p, e, p, enc_u64(row.0 as u64));
        lemma_rt_usize(b, p, row.0);
        lemma_sub_extract(b, p, e, p1, e_path);
        lemma_rt_str(b, p1, row.1);
        assert(forall|k: int| 0 <= k < rest.len() ==> rest[k] == rows[k + 1]);
        lemma_sub_extract(b, p, e, p2, enc_entry_rows(rest));
        lemma_rt_entry_rows(b, p2, rest);
        assert(seq![(row.0, row.1)] + rest =~= rows);
    }
}

/// Law: decoding an encoded state gives back exactly that state — the
/// same entries, the same tags with the same colors, the same
/// associations, the same bound path and id counter.
pub proof fn lemma_codec_round_trip(v: RegView)
    requires
        encodable(v),
    ensures
        spec_decode(spec_encode(v)) == Some(v),
{
    lemma_auto_spec_u64_to_from_le_bytes();
    let b = spec_encode(v);
    let e_path = enc_str(v.path);
    let e_tags = enc_tag_rows(v.tags);
    let e_ents = enc_entry_rows(v.entries);
    let p1 = e_path.len() as int;
    let p2 = p1 + 8;
    let p3 = p2 + 8;
    let p4 = p3 + e_tags.len();
    let p5 = p4 + 8;
    let p6 = p5 + e_ents.len();
    assert(b.len() == p6);
    assert(b.subrange(0, p6) =~= b);
    lemma_sub_extract(b, 0, b, 0, e_path);
    lemma_rt_str(b, 0, v.path);
    lemma_sub_extract(b, 0, b, p1, enc_u64(v.next_id as u64));
    lemma_rt_usize(b, p1, v.next_id);
    lemma_sub_extract(b, 0, b, p2, enc_u64(v.tags.len() as u64));
    lemma_rt_usize(b, p2, v.tags.len() as usize);
    lemma_sub_extract(b, 0, b, p3, e_tags);
    lemma_rt_tag_rows(b, p3, v.tags);
    lemma_sub_extract(b, 0, b, p4, enc_u64(v.entries.len() as u64));
    lemma_rt_usize(b, p4, v.entries.len() as usize);
    lemma_sub_extract(b, 0, b, p5, e_ents);
    lemma_rt_entry_rows(b, p5, v.entries);
}

/// Relies on String::from_utf8: it succeeds exactly on valid UTF-8, and
/// the returned string's bytes are the input bytes.
#[verifier::external_body]
fn string_from_utf8(v: Vec<u8>) -> (r: Option<String>)
    ensures
        r is Some <==> valid_utf8(v@),
        r matches Some(s) ==> encode_utf8(s@) == v@,
{
    String::from_utf8(v).ok()
}

/// Appends one encoded integer.
fn push_u64(buf: &mut Vec<u8>, x: u64)
    ensures
        final(buf)@ == old(buf)@ + enc_u64(x),
{
    let mut bs = u64_to_le_bytes(x);
    buf.append(&mut bs);
}

/// Appends one encoded string.
fn push_str_bytes(buf: &mut Vec<u8>, s: &str)
    ensures
        final(buf)@ == old(buf)@ + enc_str(s@),
        str_encodable(s@),
{
    let mut bs = s.as_bytes_vec();
    let n = bs.len();
    push_u64(buf, n as u64);
    buf.append(&mut bs);
    proof {
        assert(buf@ =~= old(buf)@ + enc_str(s@));
    }
}

/// Appends one encoded color.
fn push_color(buf: &mut Vec<u8>, c: Color)
    ensures
        final(buf)@ == old(buf)@ + enc_color(c),
{
    match c {
        Color::Black => buf.push(0u8),
        Color::Red => buf.push(1u8),
        Color::Green => buf.push(2u8),
        Color::Yellow => buf.push(3u8),
        Color::Blue => buf.push(4u8),
        Color::Magenta => buf.push(5u8),
        Color::Cyan => buf.push(6u8),
        Color::White => buf.push(7u8),
        Color::BrightBlack => buf.push(8u8),
        Color::BrightRed => buf.push(9u8),
        Color::BrightGreen => buf.push(10u8),
        Color::BrightYellow => buf.push(11u8),
        Color::BrightBlue => buf.push(12u8),
        Color::BrightMagenta => buf.push(13u8),
        Color::BrightCyan => buf.push(14u8),
        Color::BrightWhite => buf.push(15u8),
        Color::Rgb(r, g, b) => {
            buf.push(16u8);
            buf.push(r);
            buf.push(g);
            buf.push(b);
        },
    }
    proof {
        assert(buf@ =~= old(buf)@ + enc_color(c));
    }
}

/// Reads one integer.
fn read_u64(bytes: &Vec<u8>, pos: usize) -> (r: Option<(u64, usize)>)
    ensures
        match r {
            Some((x, q)) => dec_u64(bytes@, pos as int) == Some((x, q as int)) && q <= bytes@.len(),
            None => dec_u64(bytes@, pos as int) is None,
        },
{
    if pos > bytes.len() || bytes.len() - pos < 8 {
        return None;
    }
    let sl = slice_subrange(bytes.as_slice(), pos, pos + 8);
    let x = u64_from_le_bytes(sl);
    Some((x, pos + 8))
}

/// Reads one integer that must fit a usize.
fn read_usize(bytes: &Vec<u8>, pos: usize) -> (r: Option<(usize, usize)>)
    ensures
        match r {
            Some((x, q)) => dec_usize(bytes@, pos as int) == Some((x, q as int)) && q
                <= bytes@.len(),
            None => dec_usize(bytes@, pos as int) is None,
        },
{
    match read_u64(bytes, pos) {
        None => None,
        Some((x, q)) => {
            if x <= usize::MAX as u64 {
                Some((x as usize, q))
            } else {
                None
            }
        },
    }
}

/// Reads one length-prefixed UTF-8 string.
fn read_str(bytes: &Vec<u8>, pos: usize) -> (r: Option<(String, usize)>)
    ensures
        match r {
            Some((s, q)) => dec_str(bytes@, pos as int) == Some((s@, q as int)) && q
                <= bytes@.len(),
            None => dec_str(bytes@, pos as int) is None,
        },
{
    match read_usize(bytes, pos) {
        None => None,
        Some((n, q)) => {
            if n > bytes.len() - q {
                return None;
            }
            let sl = slice_subrange(bytes.as_slice(), q, q + n);
            let sub = slice_to_vec(sl);
            match string_from_utf8(sub) {
                None => None,
                Some(s) => {
                    proof {
                        encode_utf8_decode_utf8(s@);
                    }
                    Some((s, q + n))
                },
            }
        },
    }
}

/// Reads one color.
fn read_color(bytes: &Vec<u8>, pos: usize) -> (r: Option<(Color, usize)>)
    ensures
        match r {
            Some((c, q)) => dec_color(bytes@, pos as int) == Some((c, q as int)) && q
                <= bytes@.len(),
            None => dec_color(bytes@, pos as int) is None,
        },
{
    if pos >= bytes.len() {
        return None;
    }
    let t = bytes[pos];
    if t == 16 {
        if bytes.len() - pos < 4 {
            return None;
        }
        return Some((Color::Rgb(bytes[pos + 1], bytes[pos + 2], bytes[pos + 3]), pos + 4));
    }
    let c = if t == 0 {
        Color::Black
    } else if t == 1 {
        Color::Red
    } else if t == 2 {
        Color::Green
    } else if t == 3 {
        Color::Yellow
    } else if t == 4 {
        Color::Blue
    } else if t == 5 {
        Color::Magenta
    } else if t == 6 {
        Color::Cyan
    } else if t == 7 {
        Color::White
    } else if t == 8 {
        Color::BrightBlack
    } else if t == 9 {
        Color::BrightRed
    } else if t == 10 {
        Color::BrightGreen
    } else if t == 11 {
        Color::BrightYellow
    } else if t == 12 {
        Color::BrightBlue
    } else if t == 13 {
        Color::BrightMagenta
    } else if t == 14 {
        Color::BrightCyan
    } else if t == 15 {
        Color::BrightWhite
    } else {
        return None;
    };
    Some((c, pos + 1))
}

/// Reads `cnt` ids.
fn read_ids(bytes: &Vec<u8>, pos: usize, cnt: usize) -> (r: Option<(Vec<EntryId>, usize)>)
    ensures
        match r {
            Some((ids, q)) => dec_ids(bytes@, pos as int, cnt as int) == Some((ids@, q as int))
                && (pos <= bytes@.len() ==> q <= bytes@.len()),
            None => dec_ids(bytes@, pos as int, cnt as int) is None,
        },
    decreases cnt,
{
    if cnt == 0 {
        let out: Vec<EntryId> = Vec::new();
        proof {
            assert(out@ =~= Seq::<EntryId>::empty());
        }
        return Some((out, pos));
    }
    match read_usize(bytes, pos) {
        None => None,
        Some((x, q)) => match read_ids(bytes, q, cnt - 1) {
            None => None,
            Some((mut rest, q2)) => {
                rest.insert(0, x);
                proof {
                    assert(rest@ =~= seq![x] + rest@.drop_first());
                }
                Some((rest, q2))
            },
        },
    }
}

/// Reads `cnt` tag rows.
fn read_tag_rows(bytes: &Vec<u8>, pos: usize, cnt: usize) -> (r: Option<
    (Vec<(Tag, Vec<EntryId>)>, usize)>)
    ensures
        match r {
            Some((rows, q)) => dec_tag_rows(bytes@, pos as int, cnt as int) == Some(
                (Seq::new(rows@.len(), |i: int| (rows@[i].0@, rows@[i].1@)), q as int),
            ) && (pos <= bytes@.len() ==> q <= bytes@.len()),
            None => dec_tag_rows(bytes@, pos as int, cnt as int) is None,
        },
    decreases cnt,
{
    if cnt == 0 {
        let out: Vec<(Tag, Vec<EntryId>)> = Vec::new();
        proof {
            assert(Seq::new(out@.len(), |i: int| (out@[i].0@, out@[i].1@)) =~= Seq::<
                (TagView, Seq<EntryId>),
            >::empty());
        }
        return Some((out, pos));
    }
    match read_str(bytes, pos) {
        None => None,
        Some((name, p1)) => match read_color(bytes, p1) {
            None => None,
            Some((col, p2)) => match read_usize(bytes, p2) {
                None => None,
                Some((n, p3)) => match read_ids(bytes, p3, n) {
                    None => None,
                    Some((ids, p4)) => match read_tag_rows(bytes, p4, cnt - 1) {
                        None => None,
                        Some((mut rows, p5)) => {
                            let ghost restv = Seq::new(
                                rows@.len(),
                                |i: int| (rows@[i].0@, rows@[i].1@),
                            );
                            let t = Tag::from_parts(name, col);
                            rows.insert(0, (t, ids));
                            proof {
                                assert(Seq::new(rows@.len(), |i: int| (rows@[i].0@, rows@[i].1@))
                                    =~= seq![(TagView { name: t@.name, color: col }, ids@)]
                                    + restv);
                            }
                            Some((rows, p5))
                        },
                    },
                },
            },
        },
    }
}

/// Reads `cnt` entry records.
fn read_entry_rows(bytes: &Vec<u8>, pos: usize, cnt: usize) -> (r: Option<
    (Vec<(EntryId, EntryData)>, usize)>)
    ensures
        match r {
            Some((rows, q)) => dec_entry_rows(bytes@, pos as int, cnt as int) == Some(
                (Seq::new(rows@.len(), |i: int| (rows@[i].0, rows@[i].1@)), q as int),
            ) && (pos <= bytes@.len() ==> q <= bytes@.len()),
            None => dec_entry_rows(bytes@, pos as int, cnt as int) is None,
        },
    decreases cnt,
{
    if cnt == 0 {
        let out: Vec<(EntryId, EntryData)> = Vec::new();
        proof {
            assert(Seq::new(out@.len(), |i: int| (out@[i].0, out@[i].1@)) =~= Seq::<
                (EntryId, Seq<char>),
            >::empty());
        }
        return Some((out, pos));
    }
    match read_usize(bytes, pos) {
        None => None,
        Some((id, p1)) => match read_str(bytes, p1) {
            None => None,
            Some((path, p2)) => match read_entry_rows(bytes, p2, cnt - 1) {
                None => None,
                Some((mut rows, p3)) => {
                    let ghost restv = Seq::new(rows@.len(), |i: int| (rows@[i].0, rows@[i].1@));
                    let d = EntryData { path };
                    rows.insert(0, (id, d));
                    proof {
                        assert(Seq::new(rows@.len(), |i: int| (rows@[i].0, rows@[i].1@))
                            =~= seq![(id, rows@[0].1@)] + restv);
                    }
                    Some((rows, p3))
                },
            },
        },
    }
}

impl TagRegistry {
    /// Encodes the full state as one binary blob.
    pub fn to_bytes(&self) -> (r: Vec<u8>)
        ensures
            r@ == spec_encode(self@),
            encodable(self@),
    {
        let mut buf: Vec<u8> = Vec::new();
        push_str_bytes(&mut buf, self.path.as_str());
        push_u64(&mut buf, self.next_id as u64);
        push_u64(&mut buf, self.tags.len() as u64);
        let ghost head = enc_str(self@.path) + enc_u64(self@.next_id as u64) + enc_u64(
            self@.tags.len() as u64,
        );
        proof {
            assert(buf@ =~= head + enc_tag_rows(self@.tags.take(0)));
        }
        let mut k: usize = 0;
        while k < self.tags.len()
            invariant
                0 <= k <= self.tags@.len(),
                buf@ == head + enc_tag_rows(self@.tags.take(k as int)),
                forall|j: int|
                    0 <= j < k ==> str_encodable((#[trigger] self@.tags[j]).0.name)
                        && self@.tags[j].1.len() <= usize::MAX,
            decreases self.tags@.len() - k,
        {
            let ghost row_head = buf@;
            push_str_bytes(&mut buf, self.tags[k].0.name());
            push_color(&mut buf, *self.tags[k].0.color());
            push_u64(&mut buf, self.tags[k].1.len() as u64);
            let ghost list = self@.tags[k as int].1;
            proof {
                assert(buf@ =~= row_head + enc_str(self@.tags[k as int].0.name) + enc_color(
                    self@.tags[k as int].0.color,
                ) + enc_u64(list.len() as u64) + enc_ids(list.take(0)));
            }
            let mut m: usize = 0;
            while m < self.tags[k].1.len()
                invariant
                    0 <= m <= list.len(),
                    k < self.tags@.len(),
                    list == self@.tags[k as int].1,
                    buf@ == row_head + enc_str(self@.tags[k as int].0.name) + enc_color(
                        self@.tags[k as int].0.color,
                    ) + enc_u64(list.len() as u64) + enc_ids(list.take(m as int)),
                decreases list.len() - m,
            {
                push_u64(&mut buf, self.tags[k].1[m] as u64);
                proof {
                    lemma_enc_ids_snoc(list.take(m as int), list[m as int]);
                    assert(list.take((m + 1) as int) =~= list.take(m as int).push(list[m as int]));
                }
                m += 1;
            }
            proof {
                assert(list.take(list.len() as int) =~= list);
                lemma_enc_tag_rows_snoc(self@.tags.take(k as int), self@.tags[k as int]);
                assert(self@.tags.take((k + 1) as int) =~= self@.tags.take(k as int).push(
                    self@.tags[k as int],
                ));
                assert(buf@ =~= head + enc_tag_rows(self@.tags.take((k + 1) as int)));
            }
            k += 1;
        }
        proof {
            assert(self@.tags.take(self.tags@.len() as int) =~= self@.tags);
        }
        push_u64(&mut buf, self.entries.len() as u64);
        let ghost head2 = head + enc_tag_rows(self@.tags) + enc_u64(self@.entries.len() as u64);
        proof {
            assert(buf@ =~= head2 + enc_entry_rows(self@.entries.take(0)));
        }
        let mut k: usize = 0;
        while k < self.entries.len()
            invariant
                0 <= k <= self.entries@.len(),
                buf@ == head2 + enc_entry_rows(self@.entries.take(k as int)),
                forall|j: int| 0 <= j < k ==> str_encodable((#[trigger] self@.entries[j]).1),
            decreases self.entries@.len() - k,
        {
            push_u64(&mut buf, self.entries[k].0 as u64);
            push_str_bytes(&mut buf, self.entries[k].1.path());
            proof {
                lemma_enc_entry_rows_snoc(self@.entries.take(k as int), self@.entries[k as int]);
                assert(self@.entries.take((k + 1) as int) =~= self@.entries.take(k as int).push(
                    self@.entries[k as int],
                ));
                assert(buf@ =~= head2 + enc_entry_rows(self@.entries.take((k + 1) as int)));
            }
            k += 1;
        }
        proof {
            assert(self@.entries.take(self.entries@.len() as int) =~= self@.entries);
            assert(buf@ =~= spec_encode(self@));
        }
        buf
    }

    /// Decodes a registry from one binary blob; any malformed input is
    /// reported as corrupt data.
    pub fn from_bytes(bytes: &Vec<u8>) -> (r: Result<TagRegistry, RegistryError>)
        ensures
            match r {
                Ok(reg) => spec_decode(bytes@) == Some(reg@),
                Err(e) => spec_decode(bytes@) is None && e is CorruptData,
            },
    {
        let (path, p1) = match read_str(bytes, 0) {
            Some(v) => v,
            None => {
                return Err(RegistryError::CorruptData);
            },
        };
        let (next, p2) = match read_usize(bytes, p1) {
            Some(v) => v,
            None => {
                return Err(RegistryError::CorruptData);
            },
        };
        let (ntags, p3) = match read_usize(bytes, p2) {
            Some(v) => v,
            None => {
                return Err(RegistryError::CorruptData);
            },
        };
        let (tags, p4) = match read_tag_rows(bytes, p3, ntags) {
            Some(v) => v,
            None => {
                return Err(RegistryError::CorruptData);
            },
        };
        let (nent, p5) = match read_usize(bytes, p4) {
            Some(v) => v,
            None => {
                return Err(RegistryError::CorruptData);
            },
        };
        let (entries, p6) = match read_entry_rows(bytes, p5, nent) {
            Some(v) => v,
            None => {
                return Err(RegistryError::CorruptData);
            },
        };
        if p6 != bytes.len() {
            return Err(RegistryError::CorruptData);
        }
        let reg = TagRegistry { tags, entries, path, next_id: next };
        proof {
            assert(reg@.tags =~= Seq::new(reg.tags@.len(), |i: int| (reg.tags@[i].0@, reg.tags@[i].1@)));
            assert(reg@.entries =~= Seq::new(
                reg.entries@.len(),
                |i: int| (reg.entries@[i].0, reg.entries@[i].1@),
            ));
        }
        Ok(reg)
    }
}

} // verus!
