//! A key-value store of JSON records, one file per key in a data directory.
//!
//! `Storage` holds the directory's record files: for each file its key part (the
//! sanitized key), its text and the record read from it. The caller moves each
//! change to disk: after `store` it writes `contents_of` to `get_file_path`, after
//! `delete` it removes that file, and it fills a fresh `Storage` with `load_file`.
use vstd::prelude::*;
use serde_json::Value;
use crate::error::AppError;
use crate::json::{pretty_text, quoted, pretty_json, quote_json};
use crate::keys::{
    chars_of, text_of,
    sanitized, file_name_of, join_path, key_less, key_of_file_name_spec, key_lt,
    file_name_for_key, key_of_file_name, sanitize_key, lemma_key_less_irreflexive,
    lemma_key_less_transitive, lemma_key_less_total,
};

verus! {

/// Relies on uuid::Uuid::new_v4: a random identifier, written hyphenated in 36 characters.
#[verifier::external_body]
fn new_record_id() -> (r: String)
    ensures
        r@.len() == 36,
{
    uuid::Uuid::new_v4().to_string()
}

/// Relies on chrono::Utc::now: the current time, as microseconds since the Unix epoch
/// and as RFC 3339 text in UTC.
#[verifier::external_body]
fn now() -> (r: Timestamp) {
    let t = chrono::Utc::now();
    Timestamp {
        micros: t.timestamp_micros(),
        rfc3339: t.to_rfc3339_opts(chrono::SecondsFormat::AutoSi, true),
    }
}

/// A point in time.
pub struct Timestamp {
    /// Microseconds since the Unix epoch.
    pub micros: i64,
    /// The same time as RFC 3339 text.
    pub rfc3339: String,
}

impl Timestamp {
    pub fn duplicate(&self) -> (r: Timestamp)
        ensures
            r == *self,
    {
        Timestamp { micros: self.micros, rfc3339: self.rfc3339.clone() }
    }
}

/// A stored record: a JSON value under a key, with its identity and timestamps.
pub struct StoredItem {
    pub id: String,
    pub key: String,
    pub value: Value,
    pub created_at: Timestamp,
    pub updated_at: Timestamp,
    /// Name-value pairs, names unique.
    pub metadata: Vec<(String, String)>,
}

pub open spec fn pairs_view(m: Seq<(String, String)>) -> Seq<(Seq<char>, Seq<char>)> {
    m.map_values(|p: (String, String)| (p.0@, p.1@))
}

/// Two records that hold the same data.
pub open spec fn same_item(a: StoredItem, b: StoredItem) -> bool {
    &&& a.id == b.id
    &&& a.key == b.key
    &&& a.value == b.value
    &&& a.created_at == b.created_at
    &&& a.updated_at == b.updated_at
    &&& a.metadata@ == b.metadata@
}

fn copy_pairs(m: &Vec<(String, String)>) -> (r: Vec<(String, String)>)
    ensures
        r@ == m@,
{
    let mut r: Vec<(String, String)> = Vec::new();
    let mut i: usize = 0;
    while i < m.len()
        invariant
            i <= m@.len(),
            r@ =~= m@.subrange(0, i as int),
        decreases m@.len() - i,
    {
        let p = (m[i].0.clone(), m[i].1.clone());
        r.push(p);
        i = i + 1;
    }
    assert(r@ =~= m@);
    r
}

impl StoredItem {
    /// A fresh record of `value` under `key`, created at `now` with identifier `id`.
    pub fn new_at(key: String, value: Value, now: Timestamp, id: String) -> (r: StoredItem)
        ensures
            r.id == id,
            r.key == key,
            r.value == value,
            r.created_at == now,
            r.updated_at == now,
            r.metadata@.len() == 0,
    {
        StoredItem { id, key, value, created_at: now.duplicate(), updated_at: now, metadata: Vec::new() }
    }

    /// A fresh record of `value` under `key`, created now with a new random identifier.
    pub fn new(key: String, value: Value) -> (r: StoredItem)
        ensures
            r.id@.len() == 36,
            r.key == key,
            r.value == value,
            r.created_at == r.updated_at,
            r.metadata@.len() == 0,
    {
        let t = now();
        let id = new_record_id();
        StoredItem::new_at(key, value, t, id)
    }

    /// Replaces the value, as of time `now`.
    pub fn update_value_at(&mut self, value: Value, now: Timestamp)
        ensures
            final(self).value == value,
            final(self).updated_at == now,
            final(self).id == old(self).id,
            final(self).key == old(self).key,
            final(self).created_at == old(self).created_at,
            final(self).metadata == old(self).metadata,
    {
        self.value = value;
        self.updated_at = now;
    }

    /// Replaces the value, as of the current time.
    pub fn update_value(&mut self, value: Value)
        ensures
            final(self).value == value,
            final(self).id == old(self).id,
            final(self).key == old(self).key,
            final(self).created_at == old(self).created_at,
            final(self).metadata == old(self).metadata,
    {
        let t = now();
        self.update_value_at(value, t);
    }

    /// A copy of the record.
    pub fn duplicate(&self) -> (r: StoredItem)
        ensures
            same_item(r, *self),
    {
        StoredItem {
            id: self.id.clone(),
            key: self.key.clone(),
            value: self.value.clone(),
            created_at: self.created_at.duplicate(),
            updated_at: self.updated_at.duplicate(),
            metadata: copy_pairs(&self.metadata),
        }
    }
}

/// `t` with two spaces after each line break: a block nested one level deeper.
pub open spec fn indented(t: Seq<char>) -> Seq<char>
    decreases t.len(),
{
    if t.len() == 0 {
        Seq::empty()
    } else if t.last() == '\n' {
        indented(t.drop_last()) + seq!['\n', ' ', ' ']
    } else {
        indented(t.drop_last()) + seq![t.last()]
    }
}

/// The members of a metadata object, each on a line of its own.
pub open spec fn metadata_members(m: Seq<(Seq<char>, Seq<char>)>) -> Seq<char>
    decreases m.len(),
{
    if m.len() == 0 {
        Seq::empty()
    } else {
        let sep = if m.len() > 1 { seq![','] } else { Seq::empty() };
        metadata_members(m.drop_last()) + sep + "\n    "@ + quoted(m.last().0) + ": "@ + quoted(m.last().1)
    }
}

/// The metadata object as it stands in a record file.
pub open spec fn metadata_text(m: Seq<(Seq<char>, Seq<char>)>) -> Seq<char> {
    if m.len() == 0 {
        "{}"@
    } else {
        "{"@ + metadata_members(m) + "\n  }"@
    }
}

/// A record file: one pretty-printed JSON object.
pub open spec fn record_text(
    id: Seq<char>,
    key: Seq<char>,
    value: Value,
    created: Seq<char>,
    updated: Seq<char>,
    metadata: Seq<(Seq<char>, Seq<char>)>,
) -> Seq<char> {
    "{\n  \"id\": "@ + quoted(id) + ",\n  \"key\": "@ + quoted(key) + ",\n  \"value\": "@
        + indented(pretty_text(value)) + ",\n  \"created_at\": "@ + quoted(created)
        + ",\n  \"updated_at\": "@ + quoted(updated) + ",\n  \"metadata\": "@ + metadata_text(
        metadata,
    ) + "\n}"@
}

pub open spec fn item_text(item: StoredItem) -> Seq<char> {
    record_text(
        item.id@,
        item.key@,
        item.value,
        item.created_at.rfc3339@,
        item.updated_at.rfc3339@,
        pairs_view(item.metadata@),
    )
}

/// `text` nested one level deeper.
pub fn indent(text: &str) -> (r: String)
    ensures
        r@ == indented(text@),
{
    let t = chars_of(text);
    let mut out: Vec<char> = Vec::new();
    let mut i: usize = 0;
    while i < t.len()
        invariant
            t@ == text@,
            i <= t@.len(),
            out@ == indented(text@.subrange(0, i as int)),
        decreases t@.len() - i,
    {
        let c = t[i];
        proof {
            assert(text@.subrange(0, i + 1).drop_last() =~= text@.subrange(0, i as int));
        }
        out.push(c);
        if c == '\n' {
            out.push(' ');
            out.push(' ');
        }
        proof {
            assert(out@ =~= indented(text@.subrange(0, i + 1)));
        }
        i = i + 1;
    }
    assert(text@.subrange(0, t@.len() as int) =~= text@);
    text_of(&out)
}

fn metadata_json(m: &Vec<(String, String)>) -> (r: String)
    ensures
        r@ == metadata_text(pairs_view(m@)),
{
    if m.len() == 0 {
        return String::from_str("{}");
    }
    let mut r = String::from_str("{");
    let mut i: usize = 0;
    proof { reveal_strlit("{"); assert(pairs_view(m@.subrange(0, 0)) =~= Seq::empty()); }
    while i < m.len()
        invariant
            i <= m@.len(),
            r@ == "{"@ + metadata_members(pairs_view(m@.subrange(0, i as int))),
        decreases m@.len() - i,
    {
        let ghost pre = pairs_view(m@.subrange(0, i as int));
        let ghost cur = pairs_view(m@.subrange(0, i + 1));
        proof {
            assert(cur.drop_last() =~= pre);
            assert(cur.last() == (m@[i as int].0@, m@[i as int].1@));
        }
        if i > 0 {
            r.append(",");
        }
        r.append("\n    ");
        let k = quote_json(m[i].0.as_str());
        r.append(k.as_str());
        r.append(": ");
        let v = quote_json(m[i].1.as_str());
        r.append(v.as_str());
        proof {
            reveal_strlit(",");
            let sep = if cur.len() > 1 { seq![','] } else { Seq::<char>::empty() };
            assert(i > 0 ==> sep =~= ","@);
            assert(r@ =~= "{"@ + (metadata_members(pre) + sep + "\n    "@ + quoted(cur.last().0) + ": "@
                + quoted(cur.last().1)));
        }
        i = i + 1;
    }
    r.append("\n  }");
    assert(m@.subrange(0, m@.len() as int) =~= m@);
    r
}

/// The text of the record file that holds `item`.
pub fn render_record(item: &StoredItem) -> (r: String)
    ensures
        r@ == item_text(*item),
{
    let mut r = String::from_str("{\n  \"id\": ");
    r.append(quote_json(item.id.as_str()).as_str());
    r.append(",\n  \"key\": ");
    r.append(quote_json(item.key.as_str()).as_str());
    r.append(",\n  \"value\": ");
    r.append(indent(pretty_json(&item.value).as_str()).as_str());
    r.append(",\n  \"created_at\": ");
    r.append(quote_json(item.created_at.rfc3339.as_str()).as_str());
    r.append(",\n  \"updated_at\": ");
    r.append(quote_json(item.updated_at.rfc3339.as_str()).as_str());
    r.append(",\n  \"metadata\": ");
    r.append(metadata_json(&item.metadata).as_str());
    r.append("\n}");
    proof {
        assert(r@ =~= item_text(*item));
    }
    r
}

/// One record file of the data directory.
pub struct StoredFile {
    /// The file name without its extension: the sanitized key.
    pub stem: String,
    /// The file's text.
    pub contents: String,
    /// The record read from the file, or why it could not be read.
    pub record: Result<StoredItem, String>,
}

/// Totals over the record files of a store.
pub struct StorageInfo {
    pub data_dir: String,
    pub file_count: u32,
    pub total_size_bytes: u64,
    pub max_file_size_mb: u64,
}

/// The record store of one data directory.
pub struct Storage {
    data_dir: String,
    max_file_size_mb: u64,
    /// Sorted by `stem`, strictly.
    files: Vec<StoredFile>,
}

/// The number of bytes in the UTF-8 encoding of `t`.
pub open spec fn byte_len(t: Seq<char>) -> nat {
    vstd::utf8::encode_utf8(t).len()
}

/// Whether a text of `t` fits under a limit of `mb` megabytes.
pub open spec fn fits(t: Seq<char>, mb: u64) -> bool {
    byte_len(t) <= mb * 1048576
}

pub open spec fn has_stem(files: Seq<StoredFile>, s: Seq<char>) -> bool {
    exists|i: int| 0 <= i < files.len() && #[trigger] files[i].stem@ == s
}

pub open spec fn files_sorted(files: Seq<StoredFile>) -> bool {
    forall|i: int, j: int| 0 <= i < j < files.len() ==> key_less(#[trigger] files[i].stem@, #[trigger] files[j].stem@)
}

pub open spec fn stem_index(files: Seq<StoredFile>, s: Seq<char>) -> int {
    choose|i: int| 0 <= i < files.len() && #[trigger] files[i].stem@ == s
}

pub open spec fn files_view(files: Seq<StoredFile>) -> Map<Seq<char>, StoredFile> {
    Map::new(|s: Seq<char>| has_stem(files, s), |s: Seq<char>| files[stem_index(files, s)])
}

proof fn lemma_view_at(files: Seq<StoredFile>, i: int)
    requires
        files_sorted(files),
        0 <= i < files.len(),
    ensures
        files_view(files).contains_key(files[i].stem@),
        files_view(files)[files[i].stem@] == files[i],
{
    let s = files[i].stem@;
    assert(has_stem(files, s));
    let j = stem_index(files, s);
    assert(files_view(files)[s] == files[j]);
    if j < i {
        assert(key_less(files[j].stem@, files[i].stem@));
        lemma_key_less_irreflexive(s);
    } else if i < j {
        assert(key_less(files[i].stem@, files[j].stem@));
        lemma_key_less_irreflexive(s);
    }
}

proof fn lemma_distinct_stems(files: Seq<StoredFile>, i: int, j: int)
    requires
        files_sorted(files),
        0 <= i < files.len(),
        0 <= j < files.len(),
        files[i].stem@ == files[j].stem@,
    ensures
        i == j,
{
    if i < j {
        assert(key_less(files[i].stem@, files[j].stem@));
        lemma_key_less_irreflexive(files[i].stem@);
    } else if j < i {
        assert(key_less(files[j].stem@, files[i].stem@));
        lemma_key_less_irreflexive(files[i].stem@);
    }
}

proof fn lemma_dom_len(files: Seq<StoredFile>)
    requires
        files_sorted(files),
    ensures
        files_view(files).dom().len() == files.len(),
{
    let stems = files.map_values(|f: StoredFile| f.stem@);
    assert forall|i: int, j: int| 0 <= i < stems.len() && 0 <= j < stems.len() && i != j implies stems[i] != stems[j] by {
        if stems[i] == stems[j] {
            lemma_distinct_stems(files, i, j);
        }
    }
    stems.unique_seq_to_set();
    assert forall|k: Seq<char>| files_view(files).dom().contains(k) <==> stems.to_set().contains(k) by {
        if has_stem(files, k) {
            let j = choose|j: int| 0 <= j < files.len() && #[trigger] files[j].stem@ == k;
            assert(stems[j] == k);
        }
        if stems.contains(k) {
            let j = choose|j: int| 0 <= j < stems.len() && stems[j] == k;
            assert(files[j].stem@ == k);
        }
    }
    assert(files_view(files).dom() =~= stems.to_set());
}

proof fn lemma_view_insert(files: Seq<StoredFile>, p: int, f: StoredFile)
    requires
        files_sorted(files),
        0 <= p <= files.len(),
        forall|j: int| 0 <= j < p ==> key_less(#[trigger] files[j].stem@, f.stem@),
        forall|j: int| p <= j < files.len() ==> key_less(f.stem@, #[trigger] files[j].stem@),
    ensures
        files_sorted(files.insert(p, f)),
        files_view(files.insert(p, f)) == files_view(files).insert(f.stem@, f),
        !files_view(files).contains_key(f.stem@),
{
    let n = files.insert(p, f);
    assert forall|i: int, j: int| 0 <= i < j < n.len() implies key_less(#[trigger] n[i].stem@, #[trigger] n[j].stem@) by {
        if i < p && j > p {
            if i < j - 1 {
                assert(key_less(files[i].stem@, files[j - 1].stem@));
            }
        }
        if i > p {
            assert(key_less(files[i - 1].stem@, files[j - 1].stem@));
        }
    }
    if has_stem(files, f.stem@) {
        let j = choose|j: int| 0 <= j < files.len() && #[trigger] files[j].stem@ == f.stem@;
        lemma_key_less_irreflexive(f.stem@);
    }
    let a = files_view(n);
    let b = files_view(files).insert(f.stem@, f);
    assert forall|k: Seq<char>| a.contains_key(k) <==> b.contains_key(k) by {
        if has_stem(files, k) {
            let j = choose|j: int| 0 <= j < files.len() && #[trigger] files[j].stem@ == k;
            if j < p {
                assert(n[j].stem@ == k);
            } else {
                assert(n[j + 1].stem@ == k);
            }
        }
        if k == f.stem@ {
            assert(n[p].stem@ == k);
        }
        if has_stem(n, k) {
            let j = choose|j: int| 0 <= j < n.len() && #[trigger] n[j].stem@ == k;
            if j < p {
                assert(files[j].stem@ == k);
            } else if j > p {
                assert(files[j - 1].stem@ == k);
            }
        }
    }
    assert forall|k: Seq<char>| a.contains_key(k) implies a[k] == b[k] by {
        let j = stem_index(n, k);
        lemma_view_at(n, j);
        if j < p {
            lemma_view_at(files, j);
            if k == f.stem@ {
                lemma_distinct_stems(n, j, p);
            }
        } else if j > p {
            lemma_view_at(files, j - 1);
            if k == f.stem@ {
                lemma_distinct_stems(n, j, p);
            }
        }
    }
    assert(a =~= b);
}

proof fn lemma_view_update(files: Seq<StoredFile>, i: int, f: StoredFile)
    requires
        files_sorted(files),
        0 <= i < files.len(),
        files[i].stem@ == f.stem@,
    ensures
        files_sorted(files.update(i, f)),
        files_view(files.update(i, f)) == files_view(files).insert(f.stem@, f),
{
    let n = files.update(i, f);
    assert forall|x: int, y: int| 0 <= x < y < n.len() implies key_less(#[trigger] n[x].stem@, #[trigger] n[y].stem@) by {
        assert(key_less(files[x].stem@, files[y].stem@));
    }
    let a = files_view(n);
    let b = files_view(files).insert(f.stem@, f);
    assert forall|k: Seq<char>| a.contains_key(k) <==> b.contains_key(k) by {
        if has_stem(files, k) {
            let j = choose|j: int| 0 <= j < files.len() && #[trigger] files[j].stem@ == k;
            assert(n[j].stem@ == k);
        }
        if k == f.stem@ {
            assert(n[i].stem@ == k);
        }
        if has_stem(n, k) {
            let j = choose|j: int| 0 <= j < n.len() && #[trigger] n[j].stem@ == k;
            assert(files[j].stem@ == k);
        }
    }
    assert forall|k: Seq<char>| a.contains_key(k) implies a[k] == b[k] by {
        let j = stem_index(n, k);
        lemma_view_at(n, j);
        if j != i {
            lemma_view_at(files, j);
            if k == f.stem@ {
                lemma_distinct_stems(n, j, i);
            }
        }
    }
    assert(a =~= b);
}

proof fn lemma_view_remove(files: Seq<StoredFile>, i: int)
    requires
        files_sorted(files),
        0 <= i < files.len(),
    ensures
        files_sorted(files.remove(i)),
        files_view(files.remove(i)) == files_view(files).remove(files[i].stem@),
{
    let n = files.remove(i);
    let s = files[i].stem@;
    assert forall|x: int, y: int| 0 <= x < y < n.len() implies key_less(#[trigger] n[x].stem@, #[trigger] n[y].stem@) by {
        if x < i && y >= i {
            assert(key_less(files[x].stem@, files[y + 1].stem@));
        } else if x >= i {
            assert(key_less(files[x + 1].stem@, files[y + 1].stem@));
        }
    }
    let a = files_view(n);
    let b = files_view(files).remove(s);
    assert forall|k: Seq<char>| a.contains_key(k) <==> b.contains_key(k) by {
        if has_stem(files, k) && k != s {
            let j = choose|j: int| 0 <= j < files.len() && #[trigger] files[j].stem@ == k;
            if j < i {
                assert(n[j].stem@ == k);
            } else {
                assert(n[j - 1].stem@ == k);
            }
        }
        if has_stem(n, k) {
            let j = choose|j: int| 0 <= j < n.len() && #[trigger] n[j].stem@ == k;
            if j < i {
                assert(files[j].stem@ == k);
                if k == s {
                    lemma_distinct_stems(files, j, i);
                }
            } else {
                assert(files[j + 1].stem@ == k);
                if k == s {
                    lemma_distinct_stems(files, j + 1, i);
                }
            }
        }
    }
    assert forall|k: Seq<char>| a.contains_key(k) implies a[k] == b[k] by {
        let j = stem_index(n, k);
        lemma_view_at(n, j);
        if j < i {
            lemma_view_at(files, j);
        } else {
            lemma_view_at(files, j + 1);
        }
    }
    assert(a =~= b);
}

/// The readable record that the store holds under the sanitized key `s`, if any.
pub open spec fn existing_record(v: Map<Seq<char>, StoredFile>, s: Seq<char>) -> Option<StoredItem> {
    if v.contains_key(s) && v[s].record is Ok {
        Some(v[s].record->Ok_0)
    } else {
        None
    }
}

/// Whether the file under the sanitized key `s` could not be read as a record.
pub open spec fn unreadable(v: Map<Seq<char>, StoredFile>, s: Seq<char>) -> bool {
    v.contains_key(s) && v[s].record is Err
}

/// Whether `item` is the record that storing `value` under `key` writes: the existing
/// record with the new value and time, or else a fresh record with identifier `id`.
pub open spec fn written_record(
    v: Map<Seq<char>, StoredFile>,
    key: Seq<char>,
    value: Value,
    now: Timestamp,
    id: Seq<char>,
    item: StoredItem,
) -> bool {
    &&& item.value == value
    &&& item.updated_at == now
    &&& match existing_record(v, sanitized(key)) {
        Some(old) => {
            &&& item.id == old.id
            &&& item.key == old.key
            &&& item.created_at == old.created_at
            &&& item.metadata@ == old.metadata@
        },
        None => {
            &&& item.id@ == id
            &&& item.key@ == key
            &&& item.created_at == now
            &&& item.metadata@.len() == 0
        },
    }
}

/// The text of the record file that storing `value` under `key` would write.
pub open spec fn candidate_text(
    v: Map<Seq<char>, StoredFile>,
    key: Seq<char>,
    value: Value,
    now: Timestamp,
    id: Seq<char>,
) -> Seq<char> {
    match existing_record(v, sanitized(key)) {
        Some(old) => record_text(
            old.id@,
            old.key@,
            value,
            old.created_at.rfc3339@,
            now.rfc3339@,
            pairs_view(old.metadata@),
        ),
        None => record_text(id, key, value, now.rfc3339@, now.rfc3339@, Seq::empty()),
    }
}

/// What storing `value` under `key` at time `now` does to the files `v`, giving `w`
/// and the result `r`, when a fresh record would get the identifier `id`.
pub open spec fn store_outcome(
    v: Map<Seq<char>, StoredFile>,
    w: Map<Seq<char>, StoredFile>,
    mb: u64,
    key: Seq<char>,
    value: Value,
    now: Timestamp,
    id: Seq<char>,
    r: Result<StoredItem, AppError>,
) -> bool {
    let s = sanitized(key);
    if unreadable(v, s) {
        &&& r == Err::<StoredItem, AppError>(AppError::Json { message: v[s].record->Err_0 })
        &&& w == v
    } else if !fits(candidate_text(v, key, value, now, id), mb) {
        &&& r matches Err(AppError::Validation { .. })
        &&& w == v
    } else {
        &&& r is Ok
        &&& written_record(v, key, value, now, id, r->Ok_0)
        &&& w == v.insert(s, w[s])
        &&& w[s].stem@ == s
        &&& w[s].contents@ == item_text(r->Ok_0)
        &&& w[s].record is Ok
        &&& same_item(w[s].record->Ok_0, r->Ok_0)
    }
}

/// The text of a NotFound error for `key`.
pub open spec fn missing_key_text(key: Seq<char>) -> Seq<char> {
    "key '"@ + key + "'"@
}

fn missing_key(key: &str) -> (r: AppError)
    ensures
        r matches AppError::NotFound { resource } && resource@ == missing_key_text(key@),
{
    let mut t = String::from_str("key '");
    t.append(key);
    t.append("'");
    AppError::NotFound { resource: t }
}

/// Whether a text fits under the limit of `mb` megabytes.
pub fn within_limit(text: &str, mb: u64) -> (r: bool)
    ensures
        r == fits(text@, mb),
{
    let n = text.as_bytes().len();
    if mb >= 17592186044416 {
        assert(mb * 1048576 >= 17592186044416 * 1048576) by (nonlinear_arith)
            requires
                mb >= 17592186044416,
        ;
        true
    } else {
        (n as u64) <= mb * 1048576
    }
}

/// The bytes in the texts of `files` together.
pub open spec fn total_bytes(files: Seq<StoredFile>) -> nat
    decreases files.len(),
{
    if files.len() == 0 {
        0
    } else {
        total_bytes(files.drop_last()) + byte_len(files.last().contents@)
    }
}

impl View for Storage {
    type V = Map<Seq<char>, StoredFile>;

    /// The record files, by sanitized key.
    closed spec fn view(&self) -> Map<Seq<char>, StoredFile> {
        files_view(self.files@)
    }
}

impl Storage {
    /// The store's invariant: the files are sorted strictly by their sanitized keys.
    pub closed spec fn wf(&self) -> bool {
        files_sorted(self.files@)
    }

    /// The keys of the record files, in order.
    pub closed spec fn stems(&self) -> Seq<Seq<char>> {
        self.files@.map_values(|f: StoredFile| f.stem@)
    }

    pub closed spec fn dir(&self) -> Seq<char> {
        self.data_dir@
    }

    pub closed spec fn limit_mb(&self) -> u64 {
        self.max_file_size_mb
    }

    /// An empty store for `data_dir`, whose record files may not exceed `max_file_size_mb`
    /// megabytes.
    pub fn new(data_dir: String, max_file_size_mb: u64) -> (r: Storage)
        ensures
            r.wf(),
            r@ == Map::<Seq<char>, StoredFile>::empty(),
            r.dir() == data_dir@,
            r.limit_mb() == max_file_size_mb,
    {
        let r = Storage { data_dir, max_file_size_mb, files: Vec::new() };
        assert(r@ =~= Map::<Seq<char>, StoredFile>::empty());
        r
    }

    pub fn data_dir(&self) -> (r: &String)
        ensures
            r@ == self.dir(),
    {
        &self.data_dir
    }

    pub fn max_file_size_mb(&self) -> (r: u64)
        ensures
            r == self.limit_mb(),
    {
        self.max_file_size_mb
    }

    /// The path of the file that holds the record of `key`.
    pub fn get_file_path(&self, key: &str) -> (r: String)
        ensures
            r@ == join_path(self.dir(), file_name_of(key@)),
    {
        let name = file_name_for_key(key);
        let n = self.data_dir.unicode_len();
        let mut r = self.data_dir.clone();
        if n == 0 || self.data_dir.get_char(n - 1) == '/' {
            r.append(name.as_str());
        } else {
            r.append("/");
            r.append(name.as_str());
            proof { reveal_strlit("/"); assert(r@ =~= self.data_dir@ + seq!['/'] + name@); }
        }
        r
    }

    /// Where the file with key part `stem` stands, or where it would be inserted.
    fn find(&self, stem: &str) -> (r: Result<usize, usize>)
        requires
            self.wf(),
        ensures
            r matches Ok(i) ==> i < self.files@.len() && self.files@[i as int].stem@ == stem@,
            r matches Err(p) ==> p <= self.files@.len() && (forall|j: int|
                0 <= j < p ==> key_less(#[trigger] self.files@[j].stem@, stem@)) && (forall|j: int|
                p <= j < self.files@.len() ==> key_less(stem@, #[trigger] self.files@[j].stem@)),
    {
        let mut i: usize = 0;
        while i < self.files.len()
            invariant
                self.wf(),
                i <= self.files@.len(),
                forall|j: int| 0 <= j < i ==> key_less(#[trigger] self.files@[j].stem@, stem@),
            decreases self.files@.len() - i,
        {
            let f = &self.files[i];
            if key_lt(f.stem.as_str(), stem) {
                i = i + 1;
            } else {
                if !key_lt(stem, f.stem.as_str()) {
                    proof {
                        lemma_key_less_total(f.stem@, stem@);
                    }
                    return Ok(i);
                }
                proof {
                    assert forall|j: int| i <= j < self.files@.len() implies key_less(stem@, #[trigger] self.files@[j].stem@) by {
                        if j > i {
                            lemma_key_less_transitive(stem@, self.files@[i as int].stem@, self.files@[j].stem@);
                        }
                    }
                }
                return Err(i);
            }
        }
        Err(i)
    }

    /// Stores `value` under `key` as of time `now`; a fresh record gets the identifier `id`.
    pub fn store_at(&mut self, key: String, value: Value, now: Timestamp, id: String) -> (r: Result<
        StoredItem,
        AppError,
    >)
        requires
            old(self).wf(),
        ensures
            final(self).wf(),
            final(self).dir() == old(self).dir(),
            final(self).limit_mb() == old(self).limit_mb(),
            store_outcome(old(self)@, final(self)@, old(self).limit_mb(), key@, value, now, id@, r),
    {
        let ghost v = self@;
        let ghost key_v = key@;
        let ghost val = value;
        let ghost now_v = now;
        let ghost id_v = id@;
        let stem = sanitize_key(key.as_str());
        let found = self.find(stem.as_str());
        let item = match found {
            Ok(i) => {
                proof { lemma_view_at(self.files@, i as int); }
                match &self.files[i].record {
                    Err(m) => {
                        return Err(AppError::Json { message: m.clone() });
                    },
                    Ok(old) => {
                        let mut it = old.duplicate();
                        it.update_value_at(value, now);
                        it
                    },
                }
            },
            Err(p) => {
                proof {
                    if has_stem(self.files@, stem@) {
                        let j = choose|j: int| 0 <= j < self.files@.len() && #[trigger] self.files@[j].stem@ == stem@;
                        lemma_key_less_irreflexive(stem@);
                    }
                }
                StoredItem::new_at(key, value, now, id)
            },
        };
        let text = render_record(&item);
        assert(text@ == candidate_text(v, key_v, val, now_v, id_v));
        if !within_limit(text.as_str(), self.max_file_size_mb) {
            let mut message = String::from_str("Data size exceeds maximum allowed size of ");
            message.append(self.max_file_size_mb.to_string().as_str());
            message.append(" MB");
            return Err(AppError::Validation { message });
        }
        let file = StoredFile { stem, contents: text, record: Ok(item.duplicate()) };
        let ghost f = file;
        match found {
            Ok(i) => {
                proof { lemma_view_update(self.files@, i as int, f); }
                self.files.set(i, file);
            },
            Err(p) => {
                proof { lemma_view_insert(self.files@, p as int, f); }
                self.files.insert(p, file);
            },
        }
        proof {
            assert(self@ == v.insert(stem@, f));
            assert(self@[stem@] == f);
        }
        Ok(item)
    }

    /// Stores `value` under `key`, as of the current time.
    pub fn store(&mut self, key: String, value: Value) -> (r: Result<StoredItem, AppError>)
        requires
            old(self).wf(),
        ensures
            final(self).wf(),
            final(self).dir() == old(self).dir(),
            final(self).limit_mb() == old(self).limit_mb(),
            exists|now: Timestamp, id: Seq<char>|
                id.len() == 36 && store_outcome(
                    old(self)@,
                    final(self)@,
                    old(self).limit_mb(),
                    key@,
                    value,
                    now,
                    id,
                    r,
                ),
    {
        let t = now();
        let id = new_record_id();
        let ghost t_v = t;
        let ghost id_v = id@;
        let r = self.store_at(key, value, t, id);
        assert(id_v.len() == 36);
        r
    }

    /// The record kept under `key`.
    pub fn get(&self, key: &str) -> (r: Result<StoredItem, AppError>)
        requires
            self.wf(),
        ensures
            !self@.contains_key(sanitized(key@)) ==> (r matches Err(AppError::NotFound { resource })
                && resource@ == missing_key_text(key@)),
            unreadable(self@, sanitized(key@)) ==> r == Err::<StoredItem, AppError>(
                AppError::Json { message: self@[sanitized(key@)].record->Err_0 },
            ),
            existing_record(self@, sanitized(key@)) matches Some(item) ==> r is Ok && same_item(
                r->Ok_0,
                item,
            ),
    {
        let stem = sanitize_key(key);
        match self.find(stem.as_str()) {
            Ok(i) => {
                proof { lemma_view_at(self.files@, i as int); }
                match &self.files[i].record {
                    Err(m) => Err(AppError::Json { message: m.clone() }),
                    Ok(item) => Ok(item.duplicate()),
                }
            },
            Err(_) => {
                proof {
                    if has_stem(self.files@, stem@) {
                        let j = choose|j: int| 0 <= j < self.files@.len() && #[trigger] self.files@[j].stem@ == stem@;
                        lemma_key_less_irreflexive(stem@);
                    }
                }
                Err(missing_key(key))
            },
        }
    }

    /// The keys of all record files, in ascending order, each once.
    pub fn list(&self) -> (r: Vec<String>)
        requires
            self.wf(),
        ensures
            forall|i: int, j: int| 0 <= i < j < r@.len() ==> key_less(#[trigger] r@[i]@, #[trigger] r@[j]@),
            forall|i: int, j: int| 0 <= i < j < r@.len() ==> #[trigger] r@[i]@ != #[trigger] r@[j]@,
            r@.len() == self@.dom().len(),
            forall|s: Seq<char>| self@.contains_key(s) <==> exists|i: int| 0 <= i < r@.len() && #[trigger] r@[i]@ == s,
    {
        let mut r: Vec<String> = Vec::new();
        let mut i: usize = 0;
        while i < self.files.len()
            invariant
                self.wf(),
                i <= self.files@.len(),
                r@.len() == i,
                forall|j: int| 0 <= j < i ==> #[trigger] r@[j]@ == self.files@[j].stem@,
            decreases self.files@.len() - i,
        {
            r.push(self.files[i].stem.clone());
            i = i + 1;
        }
        proof {
            lemma_dom_len(self.files@);
            assert forall|i: int, j: int| 0 <= i < j < r@.len() implies #[trigger] r@[i]@ != #[trigger] r@[j]@ by {
                lemma_key_less_irreflexive(r@[i]@);
            }
            assert forall|s: Seq<char>| self@.contains_key(s) implies exists|i: int| 0 <= i < r@.len() && #[trigger] r@[i]@ == s by {
                let j = choose|j: int| 0 <= j < self.files@.len() && #[trigger] self.files@[j].stem@ == s;
                assert(r@[j]@ == s);
            }
            assert forall|s: Seq<char>| (exists|i: int| 0 <= i < r@.len() && #[trigger] r@[i]@ == s) implies self@.contains_key(s) by {
                let j = choose|j: int| 0 <= j < r@.len() && #[trigger] r@[j]@ == s;
                assert(self.files@[j].stem@ == s);
            }
        }
        r
    }

    /// Removes the record of `key`.
    pub fn delete(&mut self, key: &str) -> (r: Result<(), AppError>)
        requires
            old(self).wf(),
        ensures
            final(self).wf(),
            final(self).dir() == old(self).dir(),
            final(self).limit_mb() == old(self).limit_mb(),
            old(self)@.contains_key(sanitized(key@)) ==> r is Ok && final(self)@ == old(self)@.remove(
                sanitized(key@),
            ),
            !old(self)@.contains_key(sanitized(key@)) ==> (r matches Err(
                AppError::NotFound { resource },
            ) && resource@ == missing_key_text(key@)) && final(self)@ == old(self)@,
    {
        let stem = sanitize_key(key);
        match self.find(stem.as_str()) {
            Ok(i) => {
                proof { lemma_view_remove(self.files@, i as int); }
                self.files.remove(i);
                Ok(())
            },
            Err(_) => {
                proof {
                    if has_stem(self.files@, stem@) {
                        let j = choose|j: int| 0 <= j < self.files@.len() && #[trigger] self.files@[j].stem@ == stem@;
                        lemma_key_less_irreflexive(stem@);
                    }
                }
                Err(missing_key(key))
            },
        }
    }

    /// Whether a record file is kept for `key`.
    pub fn has_record(&self, key: &str) -> (r: bool)
        requires
            self.wf(),
        ensures
            r == self@.contains_key(sanitized(key@)),
    {
        let stem = sanitize_key(key);
        match self.find(stem.as_str()) {
            Ok(i) => {
                proof { lemma_view_at(self.files@, i as int); }
                true
            },
            Err(_) => {
                proof {
                    if has_stem(self.files@, stem@) {
                        let j = choose|j: int| 0 <= j < self.files@.len() && #[trigger] self.files@[j].stem@ == stem@;
                        lemma_key_less_irreflexive(stem@);
                    }
                }
                false
            },
        }
    }

    /// The metadata of the record kept under `key`.
    pub fn get_metadata(&self, key: &str) -> (r: Result<Vec<(String, String)>, AppError>)
        requires
            self.wf(),
        ensures
            !self@.contains_key(sanitized(key@)) ==> (r matches Err(AppError::NotFound { resource })
                && resource@ == missing_key_text(key@)),
            unreadable(self@, sanitized(key@)) ==> r == Err::<Vec<(String, String)>, AppError>(
                AppError::Json { message: self@[sanitized(key@)].record->Err_0 },
            ),
            existing_record(self@, sanitized(key@)) matches Some(item) ==> r is Ok && r->Ok_0@
                == item.metadata@,
    {
        let item = self.get(key)?;
        Ok(item.metadata)
    }

    /// The text to write for the record file of `key`, if there is one.
    pub fn contents_of(&self, key: &str) -> (r: Option<String>)
        requires
            self.wf(),
        ensures
            self@.contains_key(sanitized(key@)) ==> r is Some && r->Some_0@ == self@[sanitized(
                key@,
            )].contents@,
            !self@.contains_key(sanitized(key@)) ==> r is None,
    {
        let stem = sanitize_key(key);
        match self.find(stem.as_str()) {
            Ok(i) => {
                proof { lemma_view_at(self.files@, i as int); }
                Some(self.files[i].contents.clone())
            },
            Err(_) => {
                proof {
                    if has_stem(self.files@, stem@) {
                        let j = choose|j: int| 0 <= j < self.files@.len() && #[trigger] self.files@[j].stem@ == stem@;
                        lemma_key_less_irreflexive(stem@);
                    }
                }
                None
            },
        }
    }

    /// Takes in a file found in the data directory: a record file when its name has the
    /// `.json` extension, which replaces any file of the same key part. Other files are
    /// left out, and `false` is returned.
    pub fn load_file(&mut self, file_name: &str, contents: String, record: Result<StoredItem, String>) -> (r: bool)
        requires
            old(self).wf(),
        ensures
            final(self).wf(),
            final(self).dir() == old(self).dir(),
            final(self).limit_mb() == old(self).limit_mb(),
            r == key_of_file_name_spec(file_name@) is Some,
            !r ==> final(self)@ == old(self)@,
            key_of_file_name_spec(file_name@) matches Some(s) ==> {
                &&& final(self)@ == old(self)@.insert(s, final(self)@[s])
                &&& final(self)@[s].stem@ == s
                &&& final(self)@[s].contents == contents
                &&& final(self)@[s].record == record
            },
    {
        let stem = match key_of_file_name(file_name) {
            Some(k) => k,
            None => { return false; },
        };
        let found = self.find(stem.as_str());
        let file = StoredFile { stem, contents, record };
        let ghost f = file;
        let ghost v = self@;
        match found {
            Ok(i) => {
                proof { lemma_view_update(self.files@, i as int, f); }
                self.files.set(i, file);
            },
            Err(p) => {
                proof { lemma_view_insert(self.files@, p as int, f); }
                self.files.insert(p, file);
            },
        }
        proof {
            assert(self@ == v.insert(f.stem@, f));
        }
        true
    }

    /// The bytes in all record files together.
    pub closed spec fn total_size(&self) -> nat {
        total_bytes(self.files@)
    }

    /// Totals over the record files, for reports. A count or a total that does not fit
    /// its field is given as the field's largest value.
    pub fn get_storage_info(&self) -> (r: StorageInfo)
        requires
            self.wf(),
        ensures
            r.data_dir@ == self.dir(),
            r.file_count == if self@.dom().len() <= u32::MAX { self@.dom().len() } else { u32::MAX as nat },
            r.total_size_bytes == if self.total_size() <= u64::MAX { self.total_size() } else { u64::MAX as nat },
            r.max_file_size_mb == self.limit_mb(),
    {
        proof { lemma_dom_len(self.files@); }
        let mut total: u64 = 0;
        let mut count: u32 = 0;
        let mut i: usize = 0;
        while i < self.files.len()
            invariant
                i <= self.files@.len(),
                count == if i <= u32::MAX { i as nat } else { u32::MAX as nat },
                total == if total_bytes(self.files@.subrange(0, i as int)) <= u64::MAX {
                    total_bytes(self.files@.subrange(0, i as int))
                } else {
                    u64::MAX as nat
                },
            decreases self.files@.len() - i,
        {
            let n = self.files[i].contents.as_str().as_bytes().len();
            proof {
                assert(self.files@.subrange(0, i + 1).drop_last() =~= self.files@.subrange(0, i as int));
            }
            total = total.saturating_add(n as u64);
            count = count.saturating_add(1);
            i = i + 1;
        }
        assert(self.files@.subrange(0, i as int) =~= self.files@);
        StorageInfo {
            data_dir: self.data_dir.clone(),
            file_count: count,
            total_size_bytes: total,
            max_file_size_mb: self.max_file_size_mb,
        }
    }
}

/// After a successful store of `value` under `key`, the store holds under that key a
/// readable record whose value is `value`, which `get(key)` returns.
pub proof fn lemma_store_then_get(
    v: Map<Seq<char>, StoredFile>,
    w: Map<Seq<char>, StoredFile>,
    mb: u64,
    key: Seq<char>,
    value: Value,
    now: Timestamp,
    id: Seq<char>,
    r: Result<StoredItem, AppError>,
)
    requires
        store_outcome(v, w, mb, key, value, now, id, r),
        r is Ok,
    ensures
        existing_record(w, sanitized(key)) is Some,
        existing_record(w, sanitized(key))->Some_0.value == value,
        same_item(existing_record(w, sanitized(key))->Some_0, r->Ok_0),
{
}

/// Storing twice under one key keeps the record's identifier, key and creation time;
/// the second value and the second time are what the record then holds, so the update
/// time does not go back when the clock did not.
pub proof fn lemma_store_twice(
    v0: Map<Seq<char>, StoredFile>,
    v1: Map<Seq<char>, StoredFile>,
    v2: Map<Seq<char>, StoredFile>,
    mb: u64,
    key: Seq<char>,
    value1: Value,
    value2: Value,
    now1: Timestamp,
    now2: Timestamp,
    id1: Seq<char>,
    id2: Seq<char>,
    r1: Result<StoredItem, AppError>,
    r2: Result<StoredItem, AppError>,
)
    requires
        store_outcome(v0, v1, mb, key, value1, now1, id1, r1),
        store_outcome(v1, v2, mb, key, value2, now2, id2, r2),
        r1 is Ok,
        r2 is Ok,
    ensures
        r2->Ok_0.id == r1->Ok_0.id,
        r2->Ok_0.key == r1->Ok_0.key,
        r2->Ok_0.created_at == r1->Ok_0.created_at,
        r2->Ok_0.value == value2,
        r2->Ok_0.updated_at == now2,
        now2.micros >= now1.micros ==> r2->Ok_0.updated_at.micros >= r1->Ok_0.updated_at.micros,
{
}

/// After a successful store under `key`, deleting `key` finds its record and removes it:
/// the store then holds nothing under that key, and `get(key)` fails with NotFound.
pub proof fn lemma_store_delete_get(
    v: Map<Seq<char>, StoredFile>,
    w: Map<Seq<char>, StoredFile>,
    mb: u64,
    key: Seq<char>,
    value: Value,
    now: Timestamp,
    id: Seq<char>,
    r: Result<StoredItem, AppError>,
)
    requires
        store_outcome(v, w, mb, key, value, now, id, r),
        r is Ok,
    ensures
        w.contains_key(sanitized(key)),
        !w.remove(sanitized(key)).contains_key(sanitized(key)),
{
}

/// A store that fails with a Validation error leaves every file as it was.
pub proof fn lemma_oversized_store_changes_nothing(
    v: Map<Seq<char>, StoredFile>,
    w: Map<Seq<char>, StoredFile>,
    mb: u64,
    key: Seq<char>,
    value: Value,
    now: Timestamp,
    id: Seq<char>,
    r: Result<StoredItem, AppError>,
)
    requires
        store_outcome(v, w, mb, key, value, now, id, r),
        r matches Err(AppError::Validation { .. }),
    ensures
        w == v,
        !fits(candidate_text(v, key, value, now, id), mb),
{
}

} // verus!
