//! The bounded, ordered, deduplicated clipboard history.
//!
//! Entries are most-recent-first. Mutations keep the store within its
//! capacity by dropping from the tail (oldest), never the head. Text inserts
//! are guarded against adjacent duplicates only; binary inserts are guarded
//! against any entry that already carries the same fingerprint.

use crate::clock::now_epoch_seconds;
use crate::hash::{fingerprint_of, hash_data};
use crate::text::{contains_seq, lower_of, to_lowercase_str, contains_sub, str_eq};
use vstd::prelude::*;
use vstd::string::StringSliceAdditionalSpecFns;
use vstd::string::StrSliceExecFns;

verus! {

/// The reproducible payload of an entry: the literal text, or the path of a
/// vault-stored binary blob.
pub enum ClipboardItem {
    Text(String),
    Image(String),
}

/// Mathematical model of a payload reference.
#[verifier::ext_equal]
pub ghost enum ItemModel {
    Text(Seq<char>),
    Image(Seq<char>),
}

impl View for ClipboardItem {
    type V = ItemModel;

    open spec fn view(&self) -> ItemModel {
        match self {
            ClipboardItem::Text(s) => ItemModel::Text(s@),
            ClipboardItem::Image(p) => ItemModel::Image(p@),
        }
    }
}

/// A recorded history item.
pub struct Entry {
    /// Human-readable preview: the raw text, or the vault path for binaries.
    pub content: String,
    /// Creation time, seconds since the epoch.
    pub timestamp: u64,
    /// The reproducible payload reference.
    pub item: ClipboardItem,
    /// Fingerprint of the payload; `None` only for entries created before
    /// fingerprinting existed, which are treated as never-duplicate.
    pub hash: Option<u64>,
}

/// Mathematical model of an entry.
#[verifier::ext_equal]
pub ghost struct EntryModel {
    pub content: Seq<char>,
    pub timestamp: u64,
    pub item: ItemModel,
    pub hash: Option<u64>,
}

impl View for Entry {
    type V = EntryModel;

    open spec fn view(&self) -> EntryModel {
        EntryModel { content: self.content@, timestamp: self.timestamp, item: self.item@, hash: self.hash }
    }
}

/// Failure of an index-based operation: no entry lives at that index.
pub struct NotFound;

/// Ordered sequence of entries, most-recent-first, with a capacity.
pub struct History {
    pub entries: Vec<Entry>,
    pub limit: usize,
}

/// Mathematical model of a history.
#[verifier::ext_equal]
pub ghost struct HistoryModel {
    pub entries: Seq<EntryModel>,
    pub limit: u64,
}

impl View for History {
    type V = HistoryModel;

    open spec fn view(&self) -> HistoryModel {
        HistoryModel { entries: self.entries@.map_values(|e: Entry| e@), limit: self.limit as u64 }
    }
}

/// Well-formedness: the capacity is positive and respected.
pub open spec fn wf_history(m: HistoryModel) -> bool {
    1 <= m.limit && m.entries.len() <= m.limit
}

/// Some entry carries this exact fingerprint.
pub open spec fn has_fingerprint(entries: Seq<EntryModel>, h: u64) -> bool {
    exists|i: int| 0 <= i < entries.len() && entries[i].hash == Some(h)
}

/// Insert at the front, then truncate to the capacity (dropping from the
/// tail, never the head).
pub open spec fn spec_push_front(m: HistoryModel, e: EntryModel) -> HistoryModel {
    let grown = seq![e] + m.entries;
    HistoryModel {
        entries: if grown.len() <= m.limit {
            grown
        } else {
            grown.take(m.limit as int)
        },
        limit: m.limit,
    }
}

/// The entry `add_text` builds for `text` captured at `ts`.
pub open spec fn text_entry(text: Seq<char>, ts: u64) -> EntryModel {
    EntryModel {
        content: text,
        timestamp: ts,
        item: ItemModel::Text(text),
        hash: Some(fingerprint_of(vstd::utf8::encode_utf8(text))),
    }
}

/// The entry `add_image` builds for a vault path and fingerprint.
pub open spec fn image_entry(path: Seq<char>, hash: u64, ts: u64) -> EntryModel {
    EntryModel { content: path, timestamp: ts, item: ItemModel::Image(path), hash: Some(hash) }
}

/// `add_text`: no-op on an adjacent duplicate, else front insert + truncate.
pub open spec fn spec_add_text(m: HistoryModel, text: Seq<char>, ts: u64) -> HistoryModel {
    if m.entries.len() > 0 && m.entries[0].content == text {
        m
    } else {
        spec_push_front(m, text_entry(text, ts))
    }
}

/// `add_image`: no-op if the fingerprint exists anywhere, else front insert +
/// truncate.
pub open spec fn spec_add_image(m: HistoryModel, path: Seq<char>, hash: u64, ts: u64) -> HistoryModel {
    if has_fingerprint(m.entries, hash) {
        m
    } else {
        spec_push_front(m, image_entry(path, hash, ts))
    }
}

/// `promote`: move the entry at `i` to the front and drop every other entry
/// with identical content.
pub open spec fn spec_promote(m: HistoryModel, i: int) -> HistoryModel {
    let e = m.entries[i];
    HistoryModel {
        entries: seq![e] + m.entries.remove(i).filter(|x: EntryModel| x.content != e.content),
        limit: m.limit,
    }
}

/// The entries whose content contains `keyword`, case-insensitively.
pub open spec fn spec_search(entries: Seq<EntryModel>, keyword: Seq<char>) -> Seq<EntryModel> {
    entries.filter(|e: EntryModel| contains_seq(lower_of(e.content), lower_of(keyword)))
}

impl History {
    /// Well-formedness: the capacity is positive and respected.
    pub open spec fn wf(&self) -> bool {
        wf_history(self@)
    }

    /// An empty history with the given positive capacity.
    pub fn new(limit: usize) -> (h: History)
        requires
            1 <= limit,
        ensures
            h@ == (HistoryModel { entries: Seq::<EntryModel>::empty(), limit: limit as u64 }),
            h.wf(),
    {
        let h = History { entries: Vec::new(), limit };
        proof {
            assert(h@.entries =~= Seq::<EntryModel>::empty());
        }
        h
    }

    /// Truncate to the capacity, dropping from the tail.
    fn cleanup(&mut self)
        ensures
            final(self)@.limit == old(self)@.limit,
            final(self)@.entries == if old(self)@.entries.len() <= old(self)@.limit {
                old(self)@.entries
            } else {
                old(self)@.entries.take(old(self)@.limit as int)
            },
    {
        if self.entries.len() > self.limit {
            self.entries.truncate(self.limit);
            proof {
                assert(self@.entries =~= old(self)@.entries.take(old(self)@.limit as int));
            }
        }
    }

    /// Records a text payload. No-op if `text` equals the front entry's
    /// content (adjacent-duplicate guard: only the immediately preceding
    /// entry is consulted). Otherwise a new entry with the text, its
    /// fingerprint and the capture time is inserted at the front and the
    /// history is truncated to its capacity. The capture time is read from
    /// the clock, so it is existentially quantified here.
    pub fn add_text(&mut self, text: String)
        requires
            old(self).wf(),
        ensures
            final(self).wf(),
            exists|ts: u64| final(self)@ == spec_add_text(old(self)@, text@, ts),
    {
        if self.entries.len() > 0 && str_eq(self.entries[0].content.as_str(), text.as_str()) {
            proof {
                let ts = 0u64;
                assert(self@ == spec_add_text(old(self)@, text@, ts));
            }
            return;
        }
        let hash = hash_data(text.as_str().as_bytes());
        let ts = now_epoch_seconds();
        let entry = Entry {
            content: text.clone(),
            timestamp: ts,
            item: ClipboardItem::Text(text),
            hash: Some(hash),
        };
        self.entries.insert(0, entry);
        self.cleanup();
        proof {
            let grown = seq![text_entry(entry.content@, ts)] + old(self)@.entries;
            assert(self@ == spec_add_text(old(self)@, entry.content@, ts)) by {
                assert(old(self).entries@.insert(0, entry).map_values(|e: Entry| e@) =~= grown);
                if grown.len() > old(self)@.limit {
                    assert(self@.entries =~= grown.take(old(self)@.limit as int));
                } else {
                    assert(self@.entries =~= grown);
                }
            }
        }
    }

    /// Records a binary payload by its vault path and fingerprint. No-op if
    /// any existing entry already carries this exact fingerprint (vault-wide
    /// duplicate guard). Otherwise a new entry is inserted at the front and
    /// the history is truncated to its capacity.
    pub fn add_image(&mut self, image_path: String, image_hash: u64) -> (added: bool)
        requires
            old(self).wf(),
        ensures
            final(self).wf(),
            added == !has_fingerprint(old(self)@.entries, image_hash),
            exists|ts: u64| final(self)@ == spec_add_image(old(self)@, image_path@, image_hash, ts),
    {
        if self.contains_fingerprint(image_hash) {
            proof {
                let ts = 0u64;
                assert(self@ == spec_add_image(old(self)@, image_path@, image_hash, ts));
            }
            return false;
        }
        let ts = now_epoch_seconds();
        let entry = Entry {
            content: image_path.clone(),
            timestamp: ts,
            item: ClipboardItem::Image(image_path),
            hash: Some(image_hash),
        };
        self.entries.insert(0, entry);
        self.cleanup();
        proof {
            let grown = seq![image_entry(entry.content@, image_hash, ts)] + old(self)@.entries;
            assert(self@ == spec_add_image(old(self)@, entry.content@, image_hash, ts)) by {
                assert(old(self).entries@.insert(0, entry).map_values(|e: Entry| e@) =~= grown);
                if grown.len() > old(self)@.limit {
                    assert(self@.entries =~= grown.take(old(self)@.limit as int));
                } else {
                    assert(self@.entries =~= grown);
                }
            }
        }
        true
    }

    /// Does any entry carry this exact fingerprint?
    pub fn contains_fingerprint(&self, hash: u64) -> (r: bool)
        ensures
            r == has_fingerprint(self@.entries, hash),
    {
        let mut i: usize = 0;
        let n = self.entries.len();
        while i < n
            invariant
                i <= n,
                n == self@.entries.len(),
                n == self.entries@.len(),
                self@.entries == self.entries@.map_values(|e: Entry| e@),
                forall|j: int| 0 <= j < i ==> self@.entries[j].hash != Some(hash),
            decreases n - i,
        {
            let matches = match self.entries[i].hash {
                Some(h) => h == hash,
                None => false,
            };
            if matches {
                proof {
                    assert(self@.entries[i as int].hash == Some(hash));
                }
                return true;
            }
            i = i + 1;
        }
        false
    }

    /// Removes the entry at `index` if it is in bounds; returns whether it
    /// was. Out-of-range indices leave the history unmodified (no panic).
    /// For a binary entry the caller releases the corresponding vault file
    /// first; persisting the changed history is also the caller's concern.
    pub fn delete_entry(&mut self, index: usize) -> (r: bool)
        ensures
            r == (index < old(self)@.entries.len()),
            r ==> final(self)@ == (HistoryModel {
                entries: old(self)@.entries.remove(index as int),
                limit: old(self)@.limit,
            }),
            !r ==> final(self)@ == old(self)@,
            old(self).wf() ==> final(self).wf(),
    {
        if index < self.entries.len() {
            self.entries.remove(index);
            proof {
                assert(self@.entries =~= old(self)@.entries.remove(index as int));
            }
            true
        } else {
            false
        }
    }

    /// Moves the entry at `index` to the front, dropping every other entry
    /// with identical content, so re-selecting never creates a second copy.
    /// Fails (leaving the history unmodified) iff `index` is out of range.
    /// Persisting the changed history is the caller's concern.
    pub fn promote(&mut self, index: usize) -> (r: Result<(), NotFound>)
        requires
            old(self).wf(),
        ensures
            final(self).wf(),
            r is Ok <==> index < old(self)@.entries.len(),
            r is Ok ==> final(self)@ == spec_promote(old(self)@, index as int),
            r is Err ==> final(self)@ == old(self)@,
    {
        if index >= self.entries.len() {
            return Err(NotFound);
        }
        let e = self.entries.remove(index);
        let ghost removed = old(self)@.entries.remove(index as int);
        proof {
            assert(self@.entries =~= removed);
        }
        let mut kept: Vec<Entry> = Vec::new();
        let mut i: usize = 0;
        let n = self.entries.len();
        while i < n
            invariant
                i <= n,
                n == self.entries@.len(),
                removed == self.entries@.map_values(|x: Entry| x@),
                kept@.map_values(|x: Entry| x@) == removed.take(i as int).filter(
                    |x: EntryModel| x.content != e@.content,
                ),
            decreases n - i,
        {
            proof {
                reveal(Seq::filter);
                assert(removed.take(i + 1).drop_last() =~= removed.take(i as int));
                assert(removed.take(i + 1).last() == removed[i as int]);
            }
            if !str_eq(self.entries[i].content.as_str(), e.content.as_str()) {
                kept.push(self.entries[i].clone_entry());
                proof {
                    assert(kept@.map_values(|x: Entry| x@) =~= kept@.drop_last().map_values(
                        |x: Entry| x@,
                    ).push(removed[i as int]));
                }
            }
            i = i + 1;
        }
        proof {
            assert(removed.take(n as int) =~= removed);
        }
        let mut rebuilt: Vec<Entry> = Vec::new();
        rebuilt.push(e);
        rebuilt.append(&mut kept);
        self.entries = rebuilt;
        proof {
            assert(self@.entries =~= spec_promote(old(self)@, index as int).entries);
            removed.lemma_filter_len(
                |x: EntryModel| x.content != old(self)@.entries[index as int].content,
            );
        }
        Ok(())
    }

    /// Empties all entries; the capacity is kept. The caller takes care of
    /// vault cleanup for binary entries beforehand, and of persisting.
    pub fn clear(&mut self)
        ensures
            final(self)@ == (HistoryModel { entries: Seq::<EntryModel>::empty(), limit: old(self)@.limit }),
            old(self).wf() ==> final(self).wf(),
    {
        self.entries.clear();
        proof {
            assert(self@.entries =~= Seq::<EntryModel>::empty());
        }
    }

    /// The entries whose content contains `keyword` as a case-insensitive
    /// substring, in history order. Non-mutating.
    pub fn search<'a>(&'a self, keyword: &str) -> (r: Vec<&'a Entry>)
        ensures
            r@.map_values(|e: &Entry| e@) == spec_search(self@.entries, keyword@),
    {
        let needle = to_lowercase_str(keyword);
        let mut r: Vec<&Entry> = Vec::new();
        let mut i: usize = 0;
        let n = self.entries.len();
        while i < n
            invariant
                i <= n,
                n == self.entries@.len(),
                needle@ == lower_of(keyword@),
                self@.entries == self.entries@.map_values(|e: Entry| e@),
                r@.map_values(|e: &Entry| e@) == self@.entries.take(i as int).filter(
                    |e: EntryModel| contains_seq(lower_of(e.content), lower_of(keyword@)),
                ),
            decreases n - i,
        {
            proof {
                reveal(Seq::filter);
                assert(self@.entries.take(i + 1).drop_last() =~= self@.entries.take(i as int));
                assert(self@.entries.take(i + 1).last() == self@.entries[i as int]);
            }
            let hay = to_lowercase_str(self.entries[i].content.as_str());
            if contains_sub(hay.as_str(), needle.as_str()) {
                r.push(&self.entries[i]);
                proof {
                    assert(r@.map_values(|e: &Entry| e@) =~= r@.drop_last().map_values(
                        |e: &Entry| e@,
                    ).push(self@.entries[i as int]));
                }
            }
            i = i + 1;
        }
        proof {
            assert(self@.entries.take(n as int) =~= self@.entries);
        }
        r
    }
}

impl Entry {
    /// A field-by-field copy whose model equals this entry's.
    fn clone_entry(&self) -> (r: Entry)
        ensures
            r@ == self@,
    {
        Entry {
            content: self.content.clone(),
            timestamp: self.timestamp,
            item: match &self.item {
                ClipboardItem::Text(s) => ClipboardItem::Text(s.clone()),
                ClipboardItem::Image(p) => ClipboardItem::Image(p.clone()),
            },
            hash: self.hash,
        }
    }
}

/// Capacity law: adding text to a well-formed history yields a well-formed
/// history, so the bound `len(entries) <= capacity` survives one call.
pub proof fn lemma_add_text_respects_capacity(m: HistoryModel, text: Seq<char>, ts: u64)
    requires
        wf_history(m),
    ensures
        wf_history(spec_add_text(m, text, ts)),
        spec_add_text(m, text, ts).entries.len() <= m.limit,
{
}

/// A whole sequence of `add_text` calls, with the capture time of each.
pub open spec fn spec_add_texts(m: HistoryModel, texts: Seq<Seq<char>>, stamps: Seq<u64>) -> HistoryModel
    decreases texts.len(),
{
    if texts.len() == 0 {
        m
    } else {
        spec_add_texts(spec_add_text(m, texts[0], stamps[0]), texts.skip(1), stamps.skip(1))
    }
}

/// Capacity law over call sequences: for every sequence of `add_text` calls
/// on a well-formed history, `len(entries) <= capacity` holds after each
/// call — every prefix of the sequence ends in a well-formed history.
pub proof fn lemma_add_text_sequence_respects_capacity(
    m: HistoryModel,
    texts: Seq<Seq<char>>,
    stamps: Seq<u64>,
)
    requires
        wf_history(m),
    ensures
        wf_history(spec_add_texts(m, texts, stamps)),
        spec_add_texts(m, texts, stamps).limit == m.limit,
        spec_add_texts(m, texts, stamps).entries.len() <= m.limit,
    decreases texts.len(),
{
    if texts.len() > 0 {
        lemma_add_text_respects_capacity(m, texts[0], stamps[0]);
        lemma_add_text_sequence_respects_capacity(
            spec_add_text(m, texts[0], stamps[0]),
            texts.skip(1),
            stamps.skip(1),
        );
    }
}

/// Adjacent-duplicate law: adding the same text twice in immediate
/// succession yields exactly what one addition yields — the second call is a
/// no-op, whatever capture times the clock produced.
pub proof fn lemma_add_text_adjacent_duplicate(m: HistoryModel, text: Seq<char>, ts1: u64, ts2: u64)
    requires
        wf_history(m),
    ensures
        spec_add_text(spec_add_text(m, text, ts1), text, ts2) == spec_add_text(m, text, ts1),
{
    let m1 = spec_add_text(m, text, ts1);
    if !(m.entries.len() > 0 && m.entries[0].content == text) {
        let grown = seq![text_entry(text, ts1)] + m.entries;
        assert(m1.entries[0] == grown[0]);
    }
}

/// No two entries share a non-`None` fingerprint.
pub open spec fn unique_fingerprints(entries: Seq<EntryModel>) -> bool {
    forall|i: int, j: int|
        0 <= i < j < entries.len() && entries[i].hash is Some ==> entries[i].hash
            != entries[j].hash
}

proof fn lemma_push_front_keeps_unique(m: HistoryModel, e: EntryModel, h: u64)
    requires
        unique_fingerprints(m.entries),
        !has_fingerprint(m.entries, h),
        e.hash == Some(h),
    ensures
        unique_fingerprints(spec_push_front(m, e).entries),
{
    let grown = seq![e] + m.entries;
    assert forall|i: int, j: int|
        0 <= i < j < grown.len() && grown[i].hash is Some implies grown[i].hash
        != grown[j].hash by {
        if i == 0 {
            assert(grown[j] == m.entries[j - 1]);
        } else {
            assert(grown[i] == m.entries[i - 1]);
            assert(grown[j] == m.entries[j - 1]);
        }
    }
    if grown.len() > m.limit {
        let taken = grown.take(m.limit as int);
        assert(forall|i: int| 0 <= i < taken.len() ==> taken[i] == grown[i]);
    }
}

/// Fingerprint-uniqueness invariant: both guarded inserts preserve it.
/// `add_image` guards itself against every fingerprint already present;
/// `add_text` preserves it whenever the text's fingerprint is not already
/// present — which is exactly what the watch engine checks before it commits
/// a text payload.
pub proof fn lemma_guarded_inserts_keep_fingerprints_unique(
    m: HistoryModel,
    text: Seq<char>,
    path: Seq<char>,
    hash: u64,
    ts: u64,
)
    requires
        unique_fingerprints(m.entries),
    ensures
        !has_fingerprint(m.entries, fingerprint_of(vstd::utf8::encode_utf8(text)))
            ==> unique_fingerprints(spec_add_text(m, text, ts).entries),
        unique_fingerprints(spec_add_image(m, path, hash, ts).entries),
{
    if !has_fingerprint(m.entries, fingerprint_of(vstd::utf8::encode_utf8(text))) && !(
    m.entries.len() > 0 && m.entries[0].content == text) {
        lemma_push_front_keeps_unique(
            m,
            text_entry(text, ts),
            fingerprint_of(vstd::utf8::encode_utf8(text)),
        );
    }
    if !has_fingerprint(m.entries, hash) {
        lemma_push_front_keeps_unique(m, image_entry(path, hash, ts), hash);
    }
}

/// How many entries carry this exact fingerprint.
pub open spec fn fingerprint_count(entries: Seq<EntryModel>, h: u64) -> nat {
    entries.filter(|e: EntryModel| e.hash == Some(h)).len()
}

proof fn lemma_fingerprint_count_zero(entries: Seq<EntryModel>, h: u64)
    requires
        !has_fingerprint(entries, h),
    ensures
        fingerprint_count(entries, h) == 0,
    decreases entries.len(),
{
    reveal(Seq::filter);
    if entries.len() > 0 {
        assert(!has_fingerprint(entries.drop_last(), h)) by {
            assert(forall|i: int|
                0 <= i < entries.len() - 1 ==> entries.drop_last()[i] == entries[i]);
        }
        lemma_fingerprint_count_zero(entries.drop_last(), h);
        assert(entries.last().hash != Some(h));
    }
}

/// Vault-wide duplicate law: adding binary content with a fresh fingerprint
/// records exactly one entry carrying it, and adding more binary content
/// with the same fingerprint (at any later point, adjacent or not) is
/// rejected whole — the count stays at one.
pub proof fn lemma_add_image_rejects_duplicate(
    m: HistoryModel,
    p1: Seq<char>,
    p2: Seq<char>,
    hash: u64,
    ts1: u64,
    ts2: u64,
)
    requires
        wf_history(m),
        !has_fingerprint(m.entries, hash),
    ensures
        has_fingerprint(spec_add_image(m, p1, hash, ts1).entries, hash),
        fingerprint_count(spec_add_image(m, p1, hash, ts1).entries, hash) == 1,
        spec_add_image(spec_add_image(m, p1, hash, ts1), p2, hash, ts2) == spec_add_image(
            m,
            p1,
            hash,
            ts1,
        ),
{
    let m1 = spec_add_image(m, p1, hash, ts1);
    let grown = seq![image_entry(p1, hash, ts1)] + m.entries;
    assert(m1.entries[0] == grown[0]);
    assert(has_fingerprint(m1.entries, hash));
    let pred = |e: EntryModel| e.hash == Some(hash);
    let kept = if grown.len() <= m.limit {
        m.entries
    } else {
        m.entries.take(m.limit - 1)
    };
    assert(!has_fingerprint(kept, hash)) by {
        if grown.len() > m.limit {
            assert(forall|i: int|
                0 <= i < kept.len() ==> kept[i] == m.entries[i]);
        }
    }
    lemma_fingerprint_count_zero(kept, hash);
    assert(m1.entries =~= seq![image_entry(p1, hash, ts1)] + kept) by {
        if grown.len() > m.limit {
            assert(m1.entries =~= grown.take(m.limit as int));
        }
    }
    lemma_fingerprint_count_cons(image_entry(p1, hash, ts1), kept, hash);
}

proof fn lemma_fingerprint_count_cons(e: EntryModel, rest: Seq<EntryModel>, h: u64)
    requires
        e.hash == Some(h),
        fingerprint_count(rest, h) == 0,
    ensures
        fingerprint_count(seq![e] + rest, h) == 1,
    decreases rest.len(),
{
    reveal(Seq::filter);
    let s = seq![e] + rest;
    if rest.len() == 0 {
        assert(s =~= seq![e]);
        assert(seq![e].drop_last() =~= Seq::<EntryModel>::empty());
        assert(Seq::<EntryModel>::empty().filter(|x: EntryModel| x.hash == Some(h)).len() == 0);
    } else {
        assert(fingerprint_count(rest.drop_last(), h) == 0) by {
            rest.drop_last().lemma_filter_len(|x: EntryModel| x.hash == Some(h));
            assert(rest =~= rest.drop_last().push(rest.last()));
            assert(rest.drop_last().filter(|x: EntryModel| x.hash == Some(h)).len() <= rest.filter(
                |x: EntryModel| x.hash == Some(h),
            ).len());
        }
        lemma_fingerprint_count_cons(e, rest.drop_last(), h);
        assert(s.drop_last() =~= seq![e] + rest.drop_last());
        assert(s.last() == rest.last());
        assert(rest.last().hash != Some(h)) by {
            assert(rest =~= rest.drop_last().push(rest.last()));
            if rest.last().hash == Some(h) {
                assert(rest.filter(|x: EntryModel| x.hash == Some(h)).len() >= 1);
            }
        }
    }
}

} // verus!
