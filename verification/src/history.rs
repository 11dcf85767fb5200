//! The history store: an append-only log of prompt entries with
//! rotation into day-keyed archives, plus the image bookkeeping and the
//! path rules for reading images back.
//!
//! The store is the in-memory model of the files it owns; reading and
//! writing those files is the caller's part, outside this crate.
use vstd::prelude::*;
use crate::clock::{date_key_view, ClockTime};
use crate::clock::{display_ts_view, id_base_view};
use crate::text::{
    all_digits, dec_pad, dec_val, has_prefix, is_blank, lex_le, str_eq, str_le, trim_str,
    trim_view,
};

verus! {

/// One logged prompt: a sortable time-based id, a display timestamp, the
/// prompt text, and at most one attached image path.
pub struct HistoryEntry {
    pub id: String,
    pub ts: String,
    pub prompt: String,
    pub images: Vec<String>,
}

impl Clone for HistoryEntry {
    fn clone(&self) -> (r: Self)
        ensures
            r.id == self.id,
            r.ts == self.ts,
            r.prompt == self.prompt,
            r.images@ == self.images@,
    {
        let images = self.images.clone();
        proof {
            assert forall|i: int| 0 <= i < self.images@.len() implies images@[i]
                == self.images@[i] by {
                assert(vstd::pervasive::cloned::<String>(self.images@[i], images@[i]));
            }
            assert(images@ =~= self.images@);
        }
        HistoryEntry {
            id: self.id.clone(),
            ts: self.ts.clone(),
            prompt: self.prompt.clone(),
            images,
        }
    }
}

/// A normalized entry: id, timestamp and prompt are trimmed and
/// non-empty, and at most one image is tracked.
pub open spec fn entry_wf(e: HistoryEntry) -> bool {
    trim_view(e.id@) == e.id@ && e.id@.len() > 0 && trim_view(e.ts@) == e.ts@ && e.ts@.len() > 0
        && trim_view(e.prompt@) == e.prompt@ && e.prompt@.len() > 0 && e.images@.len() <= 1
}

pub open spec fn entries_wf(s: Seq<HistoryEntry>) -> bool {
    forall|k: int| 0 <= k < s.len() ==> entry_wf(#[trigger] s[k])
}

/// Some entry of the list carries this id.
pub open spec fn has_id(s: Seq<HistoryEntry>, id: Seq<char>) -> bool {
    exists|k: int| 0 <= k < s.len() && (#[trigger] s[k]).id@ == id
}

/// Strictly below in the lexicographic order.
pub open spec fn lex_lt(a: Seq<char>, b: Seq<char>) -> bool {
    lex_le(a, b) && a != b
}

/// Entries in strictly ascending id order (so ids are unique).
pub open spec fn sorted_by_id(s: Seq<HistoryEntry>) -> bool {
    forall|i: int, j: int| 0 <= i < j < s.len() ==> #[trigger] lex_lt(s[i].id@, s[j].id@)
}

/// One day-keyed archive file: its eight-digit key and its entries.
pub struct Archive {
    pub date_key: String,
    pub entries: Vec<HistoryEntry>,
}

pub open spec fn archive_wf(a: Archive) -> bool {
    a.date_key@.len() == 8 && all_digits(a.date_key@) && entries_wf(a.entries@) && sorted_by_id(
        a.entries@,
    )
}

/// Archives in strictly descending key order (newest first, unique keys).
pub open spec fn archives_sorted(archives: Seq<Archive>) -> bool {
    forall|i: int, j: int|
        0 <= i < j < archives.len() ==> #[trigger] lex_lt(archives[j].date_key@, archives[i].date_key@)
}

pub open spec fn archives_wf(archives: Seq<Archive>) -> bool {
    archives_sorted(archives) && forall|k: int|
        0 <= k < archives.len() ==> archive_wf(#[trigger] archives[k])
}

/// Some archive holds an entry with this id.
pub open spec fn archives_have_id(archives: Seq<Archive>, id: Seq<char>) -> bool {
    exists|k: int| 0 <= k < archives.len() && has_id((#[trigger] archives[k]).entries@, id)
}

/// The append-only history log with its day-keyed archives and the image
/// paths it has issued.
pub struct HistoryStore {
    base_dir: String,
    max_active_entries: usize,
    active: Vec<HistoryEntry>,
    archives: Vec<Archive>,
    image_files: Vec<String>,
}

impl HistoryStore {
    /// The current active-log entries.
    pub closed spec fn active_view(self) -> Seq<HistoryEntry> {
        self.active@
    }

    /// The current archives.
    pub closed spec fn archives_view(self) -> Seq<Archive> {
        self.archives@
    }

    pub closed spec fn base_dir_view(self) -> Seq<char> {
        self.base_dir@
    }

    pub closed spec fn max_entries_view(self) -> int {
        self.max_active_entries as int
    }

    pub closed spec fn image_files_view(self) -> Seq<Seq<char>> {
        self.image_files@.map_values(|p: String| p@)
    }

    pub open spec fn wf(self) -> bool {
        self.max_entries_view() >= 1 && entries_wf(self.active_view()) && archives_wf(
            self.archives_view(),
        )
    }

    /// An id lives somewhere in the store, active log or archive.
    pub open spec fn contains_id(self, id: Seq<char>) -> bool {
        has_id(self.active_view(), id) || archives_have_id(self.archives_view(), id)
    }

    /// Creates an empty store over the given base directory; a zero entry
    /// cap means the default of three hundred.
    pub fn new(base_dir: String, max_active_entries: usize) -> (s: Self)
        ensures
            s.wf(),
            s.base_dir_view() == base_dir@,
            s.max_entries_view() == if max_active_entries == 0 {
                300int
            } else {
                max_active_entries as int
            },
            s.active_view().len() == 0,
            s.archives_view().len() == 0,
            s.image_files_view().len() == 0,
    {
        let resolved_max = if max_active_entries == 0 {
            300
        } else {
            max_active_entries
        };
        let s = HistoryStore {
            base_dir,
            max_active_entries: resolved_max,
            active: Vec::new(),
            archives: Vec::new(),
            image_files: Vec::new(),
        };
        proof {
            assert(s.image_files_view() =~= Seq::<Seq<char>>::empty());
        }
        s
    }

    /// Registers image files already on disk, so freshly issued paths
    /// avoid their names.
    pub fn load_image_files(&mut self, files: Vec<String>)
        requires
            old(self).wf(),
        ensures
            final(self).wf(),
            final(self).base_dir_view() == old(self).base_dir_view(),
            final(self).max_entries_view() == old(self).max_entries_view(),
            final(self).active_view() == old(self).active_view(),
            final(self).archives_view() == old(self).archives_view(),
            final(self).image_files_view() == files@.map_values(|p: String| p@),
    {
        self.image_files = files;
    }

    /// The number of entries the active log may hold before rotation.
    pub fn max_entries(&self) -> (r: usize)
        ensures
            r as int == self.max_entries_view(),
    {
        self.max_active_entries
    }
}

/// A name joined under a base directory with a forward slash.
pub open spec fn joined_path_view(base: Seq<char>, name: Seq<char>) -> Seq<char> {
    if base.len() == 0 {
        name
    } else {
        base + "/"@ + name
    }
}

fn join_path(base: &str, name: &str) -> (r: String)
    ensures
        r@ == joined_path_view(base@, name@),
{
    if base.unicode_len() == 0 {
        String::from_str(name)
    } else {
        let mut out = String::from_str(base);
        out.append("/");
        out.append(name);
        out
    }
}

/// The file name of an archive with the given day-key.
pub open spec fn archive_json_name_view(date_key: Seq<char>) -> Seq<char> {
    "History_"@ + date_key + ".json"@
}

pub open spec fn archive_html_name_view(date_key: Seq<char>) -> Seq<char> {
    "History_"@ + date_key + ".html"@
}

impl HistoryStore {
    /// The path of the active log file.
    pub fn history_json_path(&self) -> (r: String)
        ensures
            r@ == joined_path_view(self.base_dir_view(), "history.json"@),
    {
        join_path(self.base_dir.as_str(), "history.json")
    }

    /// The path of the rendered page for the active log.
    pub fn history_html_path(&self) -> (r: String)
        ensures
            r@ == joined_path_view(self.base_dir_view(), "History.html"@),
    {
        join_path(self.base_dir.as_str(), "History.html")
    }

    /// The path of the archive log file for a day-key.
    pub fn archive_json_path(&self, date_key: &str) -> (r: String)
        ensures
            r@ == joined_path_view(self.base_dir_view(), archive_json_name_view(date_key@)),
    {
        let mut name = String::from_str("History_");
        name.append(date_key);
        name.append(".json");
        join_path(self.base_dir.as_str(), name.as_str())
    }

    /// The path of the rendered page for a day-key.
    pub fn archive_html_path(&self, date_key: &str) -> (r: String)
        ensures
            r@ == joined_path_view(self.base_dir_view(), archive_html_name_view(date_key@)),
    {
        let mut name = String::from_str("History_");
        name.append(date_key);
        name.append(".html");
        join_path(self.base_dir.as_str(), name.as_str())
    }

    /// The day-keys of the archives, newest first.
    pub fn collect_archive_date_keys(&self) -> (r: Vec<String>)
        ensures
            r@.map_values(|k: String| k@) =~= self.archives_view().map_values(
                |a: Archive| a.date_key@,
            ),
    {
        let mut keys: Vec<String> = Vec::new();
        let n = self.archives.len();
        let mut i: usize = 0;
        while i < n
            invariant
                0 <= i <= n,
                n == self.archives@.len(),
                keys@.len() == i,
                forall|k: int| 0 <= k < i ==> #[trigger] keys@[k]@ == self.archives@[k].date_key@,
            decreases n - i,
        {
            keys.push(self.archives[i].date_key.clone());
            i = i + 1;
        }
        keys
    }
}

/// Inserting `e` into a list sorted ascending by id: an entry with the
/// same id is replaced in place, otherwise `e` lands at its sorted
/// position.
pub open spec fn upsert_view(s: Seq<HistoryEntry>, e: HistoryEntry) -> Seq<HistoryEntry>
    decreases s.len(),
{
    if s.len() == 0 {
        seq![e]
    } else if s[0].id@ == e.id@ {
        seq![e] + s.drop_first()
    } else if lex_lt(e.id@, s[0].id@) {
        seq![e] + s
    } else {
        seq![s[0]] + upsert_view(s.drop_first(), e)
    }
}

/// What `upsert_view` does to membership, order and well-formedness.
pub proof fn lemma_upsert(s: Seq<HistoryEntry>, e: HistoryEntry)
    requires
        sorted_by_id(s),
    ensures
        forall|id: Seq<char>|
            #[trigger] has_id(upsert_view(s, e), id) == (has_id(s, id) || id == e.id@),
        entries_wf(s) && entry_wf(e) ==> entries_wf(upsert_view(s, e)),
        sorted_by_id(upsert_view(s, e)),
    decreases s.len(),
{
    let r = upsert_view(s, e);
    if s.len() == 0 {
        assert forall|id: Seq<char>| has_id(r, id) == (has_id(s, id) || id == e.id@) by {
            if has_id(r, id) {
                let k = choose|k: int| 0 <= k < r.len() && (#[trigger] r[k]).id@ == id;
                assert(r[k] == e);
            }
            if id == e.id@ {
                assert(r[0].id@ == id);
            }
        }
    } else if s[0].id@ == e.id@ {
        assert forall|id: Seq<char>| has_id(r, id) == (has_id(s, id) || id == e.id@) by {
            if has_id(r, id) {
                let k = choose|k: int| 0 <= k < r.len() && (#[trigger] r[k]).id@ == id;
                if k == 0 {
                    assert(s[0].id@ == id);
                } else {
                    assert(s[k] == r[k]);
                }
            }
            if has_id(s, id) {
                let k = choose|k: int| 0 <= k < s.len() && (#[trigger] s[k]).id@ == id;
                if k == 0 {
                    assert(r[0].id@ == id);
                } else {
                    assert(r[k] == s[k]);
                    assert(r[k].id@ == id);
                }
            }
            if id == e.id@ {
                assert(r[0].id@ == id);
            }
        }
        assert forall|i: int, j: int| 0 <= i < j < r.len() implies #[trigger] lex_lt(
            r[i].id@,
            r[j].id@,
        ) by {
            if i == 0 {
                assert(lex_lt(s[0].id@, s[j].id@));
            } else {
                assert(lex_lt(s[i].id@, s[j].id@));
            }
        }
    } else if lex_lt(e.id@, s[0].id@) {
        assert forall|id: Seq<char>| has_id(r, id) == (has_id(s, id) || id == e.id@) by {
            if has_id(r, id) {
                let k = choose|k: int| 0 <= k < r.len() && (#[trigger] r[k]).id@ == id;
                if k == 0 {
                    assert(r[0] == e);
                } else {
                    assert(r[k] == s[k - 1]);
                    assert(s[k - 1].id@ == id);
                }
            }
            if has_id(s, id) {
                let k = choose|k: int| 0 <= k < s.len() && (#[trigger] s[k]).id@ == id;
                assert(r[k + 1] == s[k]);
                assert(r[k + 1].id@ == id);
            }
            if id == e.id@ {
                assert(r[0].id@ == id);
            }
        }
        assert forall|i: int, j: int| 0 <= i < j < r.len() implies #[trigger] lex_lt(
            r[i].id@,
            r[j].id@,
        ) by {
            if i == 0 {
                if j == 1 {
                    assert(lex_lt(e.id@, s[0].id@));
                } else {
                    assert(lex_lt(s[0].id@, s[j - 1].id@));
                    crate::text::lemma_lex_le_trans(e.id@, s[0].id@, s[j - 1].id@);
                    crate::text::lemma_lex_le_total(e.id@, s[0].id@);
                    assert(r[j] == s[j - 1]);
                    assert(e.id@ != s[j - 1].id@);
                }
            } else {
                assert(lex_lt(s[i - 1].id@, s[j - 1].id@));
            }
        }
    } else {
        let t = s.drop_first();
        assert(sorted_by_id(t)) by {
            assert forall|i: int, j: int| 0 <= i < j < t.len() implies #[trigger] lex_lt(
                t[i].id@,
                t[j].id@,
            ) by {
                assert(t[i] == s[i + 1] && t[j] == s[j + 1]);
                assert(lex_lt(s[i + 1].id@, s[j + 1].id@));
            }
        }
        lemma_upsert(t, e);
        let rt = upsert_view(t, e);
        // head stays below everything in the tail result
        crate::text::lemma_lex_le_total(e.id@, s[0].id@);
        assert(lex_lt(s[0].id@, e.id@));
        assert forall|id: Seq<char>| has_id(r, id) == (has_id(s, id) || id == e.id@) by {
            if has_id(r, id) {
                let k = choose|k: int| 0 <= k < r.len() && (#[trigger] r[k]).id@ == id;
                if k == 0 {
                    assert(s[0].id@ == id);
                } else {
                    assert(r[k] == rt[k - 1]);
                    assert((rt[k - 1]).id@ == id);
                    assert(has_id(rt, id));
                    if has_id(t, id) {
                        let m = choose|m: int| 0 <= m < t.len() && (#[trigger] t[m]).id@ == id;
                        assert(s[m + 1] == t[m]);
                        assert(s[m + 1].id@ == id);
                    }
                }
            }
            if has_id(s, id) {
                let k = choose|k: int| 0 <= k < s.len() && (#[trigger] s[k]).id@ == id;
                if k == 0 {
                    assert(r[0].id@ == id);
                } else {
                    assert(t[k - 1] == s[k]);
                    assert(has_id(t, id));
                    assert(has_id(rt, id));
                    let m = choose|m: int| 0 <= m < rt.len() && (#[trigger] rt[m]).id@ == id;
                    assert(r[m + 1] == rt[m]);
                    assert(r[m + 1].id@ == id);
                }
            }
            if id == e.id@ {
                assert(has_id(rt, id));
                let m = choose|m: int| 0 <= m < rt.len() && (#[trigger] rt[m]).id@ == id;
                assert(r[m + 1] == rt[m]);
                assert(r[m + 1].id@ == id);
            }
        }
        assert forall|i: int, j: int| 0 <= i < j < r.len() implies #[trigger] lex_lt(
            r[i].id@,
            r[j].id@,
        ) by {
            if i == 0 {
                assert(r[j] == rt[j - 1]);
                assert(has_id(rt, rt[j - 1].id@));
                let id = rt[j - 1].id@;
                if id == e.id@ {
                    assert(lex_lt(s[0].id@, e.id@));
                } else {
                    assert(has_id(t, id));
                    let m = choose|m: int| 0 <= m < t.len() && (#[trigger] t[m]).id@ == id;
                    assert(t[m] == s[m + 1]);
                    assert(lex_lt(s[0].id@, s[m + 1].id@));
                }
            } else {
                assert(r[i] == rt[i - 1] && r[j] == rt[j - 1]);
                assert(lex_lt(rt[i - 1].id@, rt[j - 1].id@));
            }
        }
    }
}

/// Decides `lex_lt` on string slices.
fn str_lt(a: &str, b: &str) -> (r: bool)
    ensures
        r == lex_lt(a@, b@),
{
    str_le(a, b) && !str_eq(a, b)
}

/// Inserts `e` into a vector sorted ascending by id, replacing an entry
/// that already carries the same id.
fn upsert_entry(entries: &mut Vec<HistoryEntry>, e: HistoryEntry)
    requires
        sorted_by_id(old(entries)@),
    ensures
        final(entries)@ == upsert_view(old(entries)@, e),
{
    let n = entries.len();
    proof {
        assert(old(entries)@.subrange(0, 0) =~= Seq::<HistoryEntry>::empty());
        assert(old(entries)@.subrange(0, n as int) =~= old(entries)@);
        assert(Seq::<HistoryEntry>::empty() + upsert_view(old(entries)@, e) =~= upsert_view(
            old(entries)@,
            e,
        ));
    }
    let mut i: usize = 0;
    while i < n && str_lt(entries[i].id.as_str(), e.id.as_str())
        invariant
            0 <= i <= n,
            n == entries@.len(),
            entries@ == old(entries)@,
            sorted_by_id(entries@),
            forall|k: int| 0 <= k < i ==> #[trigger] lex_lt(entries@[k].id@, e.id@),
            upsert_view(old(entries)@, e) == old(entries)@.subrange(0, i as int) + upsert_view(
                old(entries)@.subrange(i as int, n as int),
                e,
            ),
        decreases n - i,
    {
        proof {
            let suf = entries@.subrange(i as int, n as int);
            assert(suf[0] == entries@[i as int]);
            assert(lex_lt(suf[0].id@, e.id@));
            crate::text::lemma_lex_le_total(e.id@, suf[0].id@);
            assert(suf.drop_first() =~= entries@.subrange(i + 1, n as int));
            assert(upsert_view(suf, e) == seq![suf[0]] + upsert_view(suf.drop_first(), e));
            assert(entries@.subrange(0, i as int) + (seq![suf[0]] + upsert_view(
                suf.drop_first(),
                e,
            )) =~= entries@.subrange(0, i + 1) + upsert_view(
                entries@.subrange(i + 1, n as int),
                e,
            ));
        }
        i = i + 1;
    }
    proof {
        let suf = entries@.subrange(i as int, n as int);
        if i < n {
            assert(suf[0] == entries@[i as int]);
        }
    }
    if i == n {
        proof {
            assert(entries@.subrange(i as int, n as int) =~= Seq::<HistoryEntry>::empty());
            assert(entries@.subrange(0, i as int) =~= entries@);
        }
        entries.push(e);
        proof {
            assert(final(entries)@ =~= old(entries)@.subrange(0, n as int) + upsert_view(
                old(entries)@.subrange(n as int, n as int),
                e,
            ));
        }
    } else if str_eq(entries[i].id.as_str(), e.id.as_str()) {
        proof {
            let suf = entries@.subrange(i as int, n as int);
            assert(upsert_view(suf, e) == seq![e] + suf.drop_first());
            assert(suf.drop_first() =~= entries@.subrange(i + 1, n as int));
        }
        entries.set(i, e);
        proof {
            assert(final(entries)@ =~= old(entries)@.subrange(0, i as int) + (seq![e] + old(
                entries,
            )@.subrange(i + 1, n as int)));
        }
    } else {
        proof {
            let suf = entries@.subrange(i as int, n as int);
            crate::text::lemma_lex_le_total(e.id@, suf[0].id@);
            assert(lex_lt(e.id@, suf[0].id@));
            assert(upsert_view(suf, e) == seq![e] + suf);
        }
        entries.insert(i, e);
        proof {
            assert(final(entries)@ =~= old(entries)@.subrange(0, i as int) + (seq![e] + old(
                entries,
            )@.subrange(i as int, n as int)));
        }
    }
}

/// The list with every entry that carries `id` removed.
pub open spec fn without_id(s: Seq<HistoryEntry>, id: Seq<char>) -> Seq<HistoryEntry>
    decreases s.len(),
{
    if s.len() == 0 {
        s
    } else if s[0].id@ == id {
        without_id(s.drop_first(), id)
    } else {
        seq![s[0]] + without_id(s.drop_first(), id)
    }
}

/// What removing an id does to membership, well-formedness and order.
pub proof fn lemma_without_id(s: Seq<HistoryEntry>, id: Seq<char>)
    ensures
        forall|x: Seq<char>|
            #[trigger] has_id(without_id(s, id), x) == (has_id(s, x) && x != id),
        entries_wf(s) ==> entries_wf(without_id(s, id)),
        sorted_by_id(s) ==> sorted_by_id(without_id(s, id)),
        without_id(s, id).len() <= s.len(),
    decreases s.len(),
{
    let r = without_id(s, id);
    if s.len() == 0 {
        assert forall|x: Seq<char>| #[trigger] has_id(r, x) == (has_id(s, x) && x != id) by {
            if has_id(s, x) {
                let k = choose|k: int| 0 <= k < s.len() && (#[trigger] s[k]).id@ == x;
            }
        }
    } else {
        let t = s.drop_first();
        assert(sorted_by_id(s) ==> sorted_by_id(t)) by {
            if sorted_by_id(s) {
                assert forall|i: int, j: int| 0 <= i < j < t.len() implies #[trigger] lex_lt(
                    t[i].id@,
                    t[j].id@,
                ) by {
                    assert(t[i] == s[i + 1] && t[j] == s[j + 1]);
                    assert(lex_lt(s[i + 1].id@, s[j + 1].id@));
                }
            }
        }
        assert(entries_wf(s) ==> entries_wf(t)) by {
            if entries_wf(s) {
                assert forall|k: int| 0 <= k < t.len() implies entry_wf(#[trigger] t[k]) by {
                    assert(t[k] == s[k + 1]);
                    assert(entry_wf(s[k + 1]));
                }
            }
        }
        lemma_without_id(t, id);
        let rt = without_id(t, id);
        assert forall|x: Seq<char>| #[trigger] has_id(r, x) == (has_id(s, x) && x != id) by {
            if s[0].id@ == id {
                if has_id(r, x) {
                    assert(has_id(t, x));
                    let m = choose|m: int| 0 <= m < t.len() && (#[trigger] t[m]).id@ == x;
                    assert(s[m + 1] == t[m]);
                    assert(s[m + 1].id@ == x);
                }
                if has_id(s, x) && x != id {
                    let k = choose|k: int| 0 <= k < s.len() && (#[trigger] s[k]).id@ == x;
                    assert(k > 0);
                    assert(t[k - 1] == s[k]);
                    assert((t[k - 1]).id@ == x);
                    assert(has_id(t, x));
                }
            } else {
                if has_id(r, x) {
                    let k = choose|k: int| 0 <= k < r.len() && (#[trigger] r[k]).id@ == x;
                    if k == 0 {
                        assert(s[0].id@ == x);
                    } else {
                        assert(r[k] == rt[k - 1]);
                        assert((rt[k - 1]).id@ == x);
                        assert(has_id(rt, x));
                        let m = choose|m: int| 0 <= m < t.len() && (#[trigger] t[m]).id@ == x;
                        assert(s[m + 1] == t[m]);
                        assert(s[m + 1].id@ == x);
                    }
                }
                if has_id(s, x) && x != id {
                    let k = choose|k: int| 0 <= k < s.len() && (#[trigger] s[k]).id@ == x;
                    if k == 0 {
                        assert(r[0].id@ == x);
                    } else {
                        assert(t[k - 1] == s[k]);
                        assert((t[k - 1]).id@ == x);
                        assert(has_id(rt, x));
                        let m = choose|m: int| 0 <= m < rt.len() && (#[trigger] rt[m]).id@ == x;
                        assert(r[m + 1] == rt[m]);
                        assert(r[m + 1].id@ == x);
                    }
                }
            }
        }
        if s[0].id@ != id {
            assert(entries_wf(s) ==> entries_wf(r)) by {
                if entries_wf(s) {
                    assert forall|k: int| 0 <= k < r.len() implies entry_wf(#[trigger] r[k]) by {
                        if k == 0 {
                            assert(entry_wf(s[0]));
                        } else {
                            assert(r[k] == rt[k - 1]);
                            assert(entry_wf(rt[k - 1]));
                        }
                    }
                }
            }
            assert(sorted_by_id(s) ==> sorted_by_id(r)) by {
                if sorted_by_id(s) {
                    assert forall|i: int, j: int| 0 <= i < j < r.len() implies #[trigger] lex_lt(
                        r[i].id@,
                        r[j].id@,
                    ) by {
                        if i == 0 {
                            assert(r[j] == rt[j - 1]);
                            assert((rt[j - 1]).id@ == rt[j - 1].id@);
                            assert(has_id(rt, rt[j - 1].id@));
                            assert(has_id(t, rt[j - 1].id@));
                            let m = choose|m: int|
                                0 <= m < t.len() && (#[trigger] t[m]).id@ == rt[j - 1].id@;
                            assert(t[m] == s[m + 1]);
                            assert(lex_lt(s[0].id@, s[m + 1].id@));
                        } else {
                            assert(r[i] == rt[i - 1] && r[j] == rt[j - 1]);
                            assert(lex_lt(rt[i - 1].id@, rt[j - 1].id@));
                        }
                    }
                }
            }
        }
    }
}

/// The first position carrying `id` (the length when none does).
pub open spec fn first_id_index(s: Seq<HistoryEntry>, id: Seq<char>) -> int
    decreases s.len(),
{
    if s.len() == 0 {
        0
    } else if s[0].id@ == id {
        0
    } else {
        1 + first_id_index(s.drop_first(), id)
    }
}

/// The entry stored under `id` (meaningful when `has_id` holds).
pub open spec fn entry_at(s: Seq<HistoryEntry>, id: Seq<char>) -> HistoryEntry {
    s[first_id_index(s, id)]
}

pub proof fn lemma_first_id_index(s: Seq<HistoryEntry>, id: Seq<char>)
    ensures
        0 <= first_id_index(s, id) <= s.len(),
        (first_id_index(s, id) < s.len()) == has_id(s, id),
        first_id_index(s, id) < s.len() ==> s[first_id_index(s, id)].id@ == id,
        forall|k: int| 0 <= k < first_id_index(s, id) ==> (#[trigger] s[k]).id@ != id,
    decreases s.len(),
{
    if s.len() == 0 {
        if has_id(s, id) {
            let k = choose|k: int| 0 <= k < s.len() && (#[trigger] s[k]).id@ == id;
        }
    } else if s[0].id@ == id {
        assert(has_id(s, id));
    } else {
        let t = s.drop_first();
        lemma_first_id_index(t, id);
        let i = first_id_index(s, id);
        assert forall|k: int| 0 <= k < i implies (#[trigger] s[k]).id@ != id by {
            if k > 0 {
                assert(t[k - 1] == s[k]);
                assert((t[k - 1]).id@ != id);
            }
        }
        if has_id(t, id) {
            assert(t[first_id_index(t, id)] == s[i]);
            assert(has_id(s, id));
        }
        if has_id(s, id) {
            let k = choose|k: int| 0 <= k < s.len() && (#[trigger] s[k]).id@ == id;
            assert(k > 0);
            assert(t[k - 1] == s[k]);
            assert((t[k - 1]).id@ == id);
            assert(has_id(t, id));
        }
    }
}

/// What `upsert_view` stores under each id.
pub proof fn lemma_upsert_lookup(s: Seq<HistoryEntry>, e: HistoryEntry)
    requires
        sorted_by_id(s),
    ensures
        entry_at(upsert_view(s, e), e.id@) == e,
        forall|x: Seq<char>|
            x != e.id@ && has_id(s, x) ==> #[trigger] entry_at(upsert_view(s, e), x) == entry_at(
                s,
                x,
            ),
    decreases s.len(),
{
    let r = upsert_view(s, e);
    lemma_upsert(s, e);
    lemma_first_id_index(r, e.id@);
    if s.len() == 0 {
        assert(r[0] == e);
        assert(first_id_index(r, e.id@) == 0);
    } else if s[0].id@ == e.id@ {
        assert(r[0] == e);
        assert(first_id_index(r, e.id@) == 0);
        assert forall|x: Seq<char>|
            x != e.id@ && has_id(s, x) implies #[trigger] entry_at(r, x) == entry_at(s, x) by {
            lemma_first_id_index(s, x);
            lemma_first_id_index(r, x);
            let i = first_id_index(s, x);
            assert(i > 0);
            assert(r[i] == s[i]);
            assert forall|k: int| 0 <= k < i implies (#[trigger] r[k]).id@ != x by {
                if k == 0 {
                    assert(r[0] == e);
                } else {
                    assert(r[k] == s[k]);
                }
            }
            lemma_index_found_is_first(r, x, i);
        }
    } else if lex_lt(e.id@, s[0].id@) {
        assert(r[0] == e);
        assert(first_id_index(r, e.id@) == 0);
        assert forall|x: Seq<char>|
            x != e.id@ && has_id(s, x) implies #[trigger] entry_at(r, x) == entry_at(s, x) by {
            lemma_first_id_index(s, x);
            let i = first_id_index(s, x);
            assert(r[i + 1] == s[i]);
            assert forall|k: int| 0 <= k < i + 1 implies (#[trigger] r[k]).id@ != x by {
                if k == 0 {
                    assert(r[0] == e);
                } else {
                    assert(r[k] == s[k - 1]);
                    assert((s[k - 1]).id@ != x);
                }
            }
            lemma_index_found_is_first(r, x, i + 1);
        }
    } else {
        let t = s.drop_first();
        assert(sorted_by_id(t)) by {
            assert forall|i: int, j: int| 0 <= i < j < t.len() implies #[trigger] lex_lt(
                t[i].id@,
                t[j].id@,
            ) by {
                assert(t[i] == s[i + 1] && t[j] == s[j + 1]);
                assert(lex_lt(s[i + 1].id@, s[j + 1].id@));
            }
        }
        lemma_upsert(t, e);
        lemma_upsert_lookup(t, e);
        let rt = upsert_view(t, e);
        crate::text::lemma_lex_le_total(e.id@, s[0].id@);
        assert(lex_lt(s[0].id@, e.id@));
        // e lands in the tail result
        lemma_first_id_index(rt, e.id@);
        let m = first_id_index(rt, e.id@);
        assert(rt[m] == e);
        assert(r[m + 1] == rt[m]);
        assert forall|k: int| 0 <= k < m + 1 implies (#[trigger] r[k]).id@ != e.id@ by {
            if k == 0 {
                assert(s[0].id@ != e.id@);
            } else {
                assert(r[k] == rt[k - 1]);
                assert((rt[k - 1]).id@ != e.id@);
            }
        }
        lemma_index_found_is_first(r, e.id@, m + 1);
        assert(entry_at(r, e.id@) == e);
        assert forall|x: Seq<char>|
            x != e.id@ && has_id(s, x) implies #[trigger] entry_at(r, x) == entry_at(s, x) by {
            lemma_first_id_index(s, x);
            let i = first_id_index(s, x);
            if i == 0 {
                assert(r[0] == s[0]);
                lemma_index_found_is_first(r, x, 0);
            } else {
                assert(t[i - 1] == s[i]);
                assert((t[i - 1]).id@ == x);
                assert(has_id(t, x));
                lemma_first_id_index(t, x);
                assert forall|k: int| 0 <= k < i - 1 implies (#[trigger] t[k]).id@ != x by {
                    assert(t[k] == s[k + 1]);
                    assert((s[k + 1]).id@ != x);
                }
                lemma_index_found_is_first(t, x, i - 1);
                assert(entry_at(t, x) == t[i - 1]);
                assert(entry_at(rt, x) == entry_at(t, x));
                lemma_first_id_index(rt, x);
                let j = first_id_index(rt, x);
                assert(rt[j] == t[i - 1]);
                assert(r[j + 1] == rt[j]);
                assert forall|k: int| 0 <= k < j + 1 implies (#[trigger] r[k]).id@ != x by {
                    if k == 0 {
                        assert(r[0] == s[0]);
                        assert(s[0].id@ != x);
                    } else {
                        assert(r[k] == rt[k - 1]);
                        assert((rt[k - 1]).id@ != x);
                    }
                }
                lemma_index_found_is_first(r, x, j + 1);
                assert(entry_at(r, x) == rt[j]);
                assert(entry_at(s, x) == s[i]);
            }
        }
    }
}

/// A position whose earlier entries all miss `id` and which carries `id`
/// is the first index of `id`.
proof fn lemma_index_found_is_first(s: Seq<HistoryEntry>, id: Seq<char>, i: int)
    requires
        0 <= i < s.len(),
        s[i].id@ == id,
        forall|k: int| 0 <= k < i ==> (#[trigger] s[k]).id@ != id,
    ensures
        first_id_index(s, id) == i,
{
    lemma_first_id_index(s, id);
    let f = first_id_index(s, id);
    assert(has_id(s, id));
    if f < i {
        assert(s[f].id@ != id);
    }
    if f > i {
        assert(s[i].id@ != id);
    }
}

/// A mutable borrow of one vector element.
fn vec_index_mut<T>(v: &mut Vec<T>, i: usize) -> (element: &mut T)
    requires
        0 <= i < old(v).len(),
    ensures
        *element == old(v)@[i as int],
        final(v)@ == old(v)@.update(i as int, *final(element)),
{
    &mut v[i]
}

/// Removes, in place, every entry that carries `id`.
fn remove_entries_with_id(entries: &mut Vec<HistoryEntry>, id: &str)
    ensures
        final(entries)@ == without_id(old(entries)@, id@),
{
    let n = entries.len();
    let mut i: usize = n;
    while i > 0
        invariant
            0 <= i <= n,
            n == old(entries)@.len(),
            entries@ == old(entries)@.subrange(0, i as int) + without_id(
                old(entries)@.subrange(i as int, n as int),
                id@,
            ),
            entries@.len() >= i,
            forall|k: int| 0 <= k < i ==> #[trigger] entries@[k] == old(entries)@[k],
        decreases i,
    {
        i = i - 1;
        proof {
            let suf = old(entries)@.subrange(i as int, n as int);
            assert(suf[0] == old(entries)@[i as int]);
            assert(suf.drop_first() =~= old(entries)@.subrange(i + 1, n as int));
        }
        if str_eq(entries[i].id.as_str(), id) {
            entries.remove(i);
            proof {
                let suf = old(entries)@.subrange(i as int, n as int);
                assert(entries@ =~= old(entries)@.subrange(0, i as int) + without_id(suf, id@));
            }
        } else {
            proof {
                let suf = old(entries)@.subrange(i as int, n as int);
                assert(entries@ =~= old(entries)@.subrange(0, i as int) + (seq![suf[0]]
                    + without_id(suf.drop_first(), id@)));
            }
        }
    }
    proof {
        assert(old(entries)@.subrange(0, n as int) =~= old(entries)@);
        assert(entries@ =~= without_id(old(entries)@, id@));
    }
}

/// Why a history operation was refused.
#[derive(Debug, Clone, Copy, PartialEq, Eq, Structural)]
pub enum HistoryError {
    EmptyPrompt,
    UnsupportedExtension,
    FileTooLarge,
    IdNotFound,
    EmptyImagePath,
    AbsoluteImagePath,
    InvalidImagePath,
    ImagePathOutOfScope,
}

/// The description of each error, as the callers report it.
pub open spec fn error_message_view(e: HistoryError) -> Seq<char> {
    match e {
        HistoryError::EmptyPrompt => "prompt is empty"@,
        HistoryError::UnsupportedExtension => "unsupported file extension"@,
        HistoryError::FileTooLarge => "file size exceeds 20MB"@,
        HistoryError::IdNotFound => "history id not found"@,
        HistoryError::EmptyImagePath => "image path is empty"@,
        HistoryError::AbsoluteImagePath => "absolute image path is not allowed"@,
        HistoryError::InvalidImagePath => "invalid image path"@,
        HistoryError::ImagePathOutOfScope => "image path is out of scope"@,
    }
}

impl HistoryError {
    /// The human-readable description of this error.
    pub fn message(&self) -> (r: &'static str)
        ensures
            r@ == error_message_view(*self),
    {
        match self {
            HistoryError::EmptyPrompt => "prompt is empty",
            HistoryError::UnsupportedExtension => "unsupported file extension",
            HistoryError::FileTooLarge => "file size exceeds 20MB",
            HistoryError::IdNotFound => "history id not found",
            HistoryError::EmptyImagePath => "image path is empty",
            HistoryError::AbsoluteImagePath => "absolute image path is not allowed",
            HistoryError::InvalidImagePath => "invalid image path",
            HistoryError::ImagePathOutOfScope => "image path is out of scope",
        }
    }
}

/// Finds the first entry carrying `id`.
fn find_in_entries(entries: &Vec<HistoryEntry>, id: &str) -> (r: Option<usize>)
    ensures
        match r {
            Some(i) => has_id(entries@, id@) && i == first_id_index(entries@, id@) && i
                < entries@.len() && entries@[i as int].id@ == id@,
            None => !has_id(entries@, id@),
        },
{
    let n = entries.len();
    let mut i: usize = 0;
    while i < n
        invariant
            0 <= i <= n,
            n == entries@.len(),
            forall|k: int| 0 <= k < i ==> (#[trigger] entries@[k]).id@ != id@,
        decreases n - i,
    {
        if str_eq(entries[i].id.as_str(), id) {
            proof {
                lemma_index_found_is_first(entries@, id@, i as int);
            }
            return Some(i);
        }
        i = i + 1;
    }
    proof {
        if has_id(entries@, id@) {
            let k = choose|k: int| 0 <= k < entries@.len() && (#[trigger] entries@[k]).id@ == id@;
        }
    }
    None
}

/// The first archive, newest first, that holds an entry with `id`.
pub open spec fn first_archive_with(archives: Seq<Archive>, id: Seq<char>) -> int
    decreases archives.len(),
{
    if archives.len() == 0 {
        0
    } else if has_id(archives[0].entries@, id) {
        0
    } else {
        1 + first_archive_with(archives.drop_first(), id)
    }
}

pub proof fn lemma_first_archive_with(archives: Seq<Archive>, id: Seq<char>)
    ensures
        0 <= first_archive_with(archives, id) <= archives.len(),
        (first_archive_with(archives, id) < archives.len()) == archives_have_id(archives, id),
        first_archive_with(archives, id) < archives.len() ==> has_id(
            archives[first_archive_with(archives, id)].entries@,
            id,
        ),
        forall|k: int|
            0 <= k < first_archive_with(archives, id) ==> !has_id(
                (#[trigger] archives[k]).entries@,
                id,
            ),
    decreases archives.len(),
{
    if archives.len() == 0 {
        if archives_have_id(archives, id) {
            let k = choose|k: int| 0 <= k < archives.len() && has_id((#[trigger] archives[k]).entries@, id);
        }
    } else if has_id(archives[0].entries@, id) {
        assert(archives_have_id(archives, id));
    } else {
        let t = archives.drop_first();
        lemma_first_archive_with(t, id);
        let i = first_archive_with(archives, id);
        assert forall|k: int| 0 <= k < i implies !has_id((#[trigger] archives[k]).entries@, id) by {
            if k > 0 {
                assert(t[k - 1] == archives[k]);
                assert(!has_id((t[k - 1]).entries@, id));
            }
        }
        if archives_have_id(t, id) {
            assert(t[first_archive_with(t, id)] == archives[i]);
            assert(archives_have_id(archives, id));
        }
        if archives_have_id(archives, id) {
            let k = choose|k: int|
                0 <= k < archives.len() && has_id((#[trigger] archives[k]).entries@, id);
            assert(k > 0);
            assert(t[k - 1] == archives[k]);
            assert(has_id((t[k - 1]).entries@, id));
            assert(archives_have_id(t, id));
        }
    }
}

impl HistoryStore {
    /// Locates the first occurrence of an id: the active log first, then
    /// the archives newest first. The result pairs a container index
    /// (zero for the active log, one beyond the archive position
    /// otherwise) with the entry index inside it.
    pub fn find_entry_container(&self, history_id: &str) -> (r: Option<(usize, usize)>)
        ensures
            match r {
                None => !self.contains_id(history_id@),
                Some((c, i)) => {
                    if c == 0 {
                        &&& has_id(self.active_view(), history_id@)
                        &&& i == first_id_index(self.active_view(), history_id@)
                        &&& i < self.active_view().len()
                        &&& self.active_view()[i as int].id@ == history_id@
                    } else {
                        &&& !has_id(self.active_view(), history_id@)
                        &&& archives_have_id(self.archives_view(), history_id@)
                        &&& c - 1 == first_archive_with(self.archives_view(), history_id@)
                        &&& c - 1 < self.archives_view().len()
                        &&& i == first_id_index(
                            self.archives_view()[c - 1 as int].entries@,
                            history_id@,
                        )
                        &&& i < self.archives_view()[c - 1 as int].entries@.len()
                        &&& self.archives_view()[c - 1 as int].entries@[i as int].id@ == history_id@
                    }
                },
            },
    {
        if let Some(i) = find_in_entries(&self.active, history_id) {
            return Some((0, i));
        }
        let n = self.archives.len();
        let mut c: usize = 0;
        while c < n
            invariant
                0 <= c <= n,
                n == self.archives@.len(),
                !has_id(self.active@, history_id@),
                forall|k: int|
                    0 <= k < c ==> !has_id((#[trigger] self.archives@[k]).entries@, history_id@),
            decreases n - c,
        {
            if let Some(i) = find_in_entries(&self.archives[c].entries, history_id) {
                proof {
                    lemma_first_archive_found(self.archives@, history_id@, c as int);
                }
                return Some((c + 1, i));
            }
            c = c + 1;
        }
        proof {
            if archives_have_id(self.archives@, history_id@) {
                let k = choose|k: int|
                    0 <= k < self.archives@.len() && has_id(
                        (#[trigger] self.archives@[k]).entries@,
                        history_id@,
                    );
            }
        }
        None
    }

    /// Removes the entry with the given id from wherever it lives, the
    /// active log first, then the archives newest first; tells whether
    /// anything was removed.
    pub fn delete_history(&mut self, history_id: &str) -> (r: bool)
        requires
            old(self).wf(),
        ensures
            final(self).wf(),
            final(self).base_dir_view() == old(self).base_dir_view(),
            final(self).max_entries_view() == old(self).max_entries_view(),
            final(self).image_files_view() == old(self).image_files_view(),
            r == (trim_view(history_id@).len() > 0 && old(self).contains_id(
                trim_view(history_id@),
            )),
            !r ==> final(self).active_view() == old(self).active_view() && final(self).archives_view() == old(self).archives_view(),
            r && has_id(old(self).active_view(), trim_view(history_id@)) ==> {
                &&& final(self).active_view() == without_id(
                    old(self).active_view(),
                    trim_view(history_id@),
                )
                &&& final(self).archives_view() == old(self).archives_view()
            },
            r && !has_id(old(self).active_view(), trim_view(history_id@)) ==> {
                let c = first_archive_with(old(self).archives_view(), trim_view(history_id@));
                &&& final(self).active_view() == old(self).active_view()
                &&& final(self).archives_view().len() == old(self).archives_view().len()
                &&& forall|k: int|
                    0 <= k < final(self).archives_view().len() && k != c
                        ==> #[trigger] final(self).archives_view()[k] == old(self).archives_view()[k]
                &&& final(self).archives_view()[c].date_key == old(self).archives_view()[c].date_key
                &&& final(self).archives_view()[c].entries@ == without_id(
                    old(self).archives_view()[c].entries@,
                    trim_view(history_id@),
                )
            },
    {
        let tid = trim_str(history_id);
        if tid.unicode_len() == 0 {
            return false;
        }
        if let Some(_i) = find_in_entries(&self.active, tid.as_str()) {
            remove_entries_with_id(&mut self.active, tid.as_str());
            proof {
                lemma_without_id(old(self).active@, tid@);
            }
            return true;
        }
        let n = self.archives.len();
        let mut c: usize = 0;
        while c < n
            invariant
                0 <= c <= n,
                n == self.archives@.len(),
                *self == *old(self),
                old(self).wf(),
                tid@ == trim_view(history_id@),
                tid@.len() > 0,
                forall|k: int|
                    0 <= k < c ==> !has_id((#[trigger] self.archives@[k]).entries@, tid@),
                !has_id(self.active@, tid@),
            decreases n - c,
        {
            if let Some(_i) = find_in_entries(&self.archives[c].entries, tid.as_str()) {
                proof {
                    lemma_first_archive_found(self.archives@, tid@, c as int);
                }
                let arch = vec_index_mut(&mut self.archives, c);
                remove_entries_with_id(&mut arch.entries, tid.as_str());
                proof {
                    lemma_without_id(old(self).archives@[c as int].entries@, tid@);
                    assert(archives_wf(self.archives@)) by {
                        assert forall|i: int, j: int|
                            0 <= i < j < self.archives@.len() implies #[trigger] lex_lt(
                            self.archives@[j].date_key@,
                            self.archives@[i].date_key@,
                        ) by {
                            assert(self.archives@[i].date_key == old(self).archives@[i].date_key);
                            assert(self.archives@[j].date_key == old(self).archives@[j].date_key);
                            assert(lex_lt(
                                old(self).archives@[j].date_key@,
                                old(self).archives@[i].date_key@,
                            ));
                        }
                        assert forall|k: int|
                            0 <= k < self.archives@.len() implies archive_wf(
                            #[trigger] self.archives@[k],
                        ) by {
                            if k != c {
                                assert(self.archives@[k] == old(self).archives@[k]);
                            }
                            assert(archive_wf(old(self).archives@[k]));
                        }
                    }
                }
                return true;
            }
            c = c + 1;
        }
        proof {
            if archives_have_id(self.archives@, tid@) {
                let k = choose|k: int|
                    0 <= k < self.archives@.len() && has_id(
                        (#[trigger] self.archives@[k]).entries@,
                        tid@,
                    );
            }
        }
        false
    }

    /// Replaces only the prompt text of the entry with the given id,
    /// leaving its timestamp and image list untouched; `Ok(false)` when
    /// the id is unknown, an error when the new prompt is blank.
    pub fn update_history_prompt(&mut self, history_id: &str, prompt: &str) -> (r: Result<
        bool,
        HistoryError,
    >)
        requires
            old(self).wf(),
        ensures
            final(self).wf(),
            final(self).base_dir_view() == old(self).base_dir_view(),
            final(self).max_entries_view() == old(self).max_entries_view(),
            final(self).image_files_view() == old(self).image_files_view(),
            r is Err <==> is_blank(prompt@),
            r is Err ==> r == Result::<bool, HistoryError>::Err(HistoryError::EmptyPrompt)
                && final(self).active_view() == old(self).active_view() && final(self).archives_view() == old(self).archives_view(),
            r is Ok ==> (r.unwrap() == old(self).contains_id(history_id@)),
            r == Result::<bool, HistoryError>::Ok(false) ==> final(self).active_view() == old(self).active_view() && final(self).archives_view() == old(self).archives_view(),
            r == Result::<bool, HistoryError>::Ok(true) && has_id(
                old(self).active_view(),
                history_id@,
            ) ==> {
                let i = first_id_index(old(self).active_view(), history_id@);
                &&& final(self).archives_view() == old(self).archives_view()
                &&& final(self).active_view().len() == old(self).active_view().len()
                &&& forall|k: int|
                    0 <= k < final(self).active_view().len() && k != i
                        ==> #[trigger] final(self).active_view()[k] == old(self).active_view()[k]
                &&& final(self).active_view()[i].id == old(self).active_view()[i].id
                &&& final(self).active_view()[i].ts == old(self).active_view()[i].ts
                &&& final(self).active_view()[i].images == old(self).active_view()[i].images
                &&& final(self).active_view()[i].prompt@ == trim_view(prompt@)
            },
            r == Result::<bool, HistoryError>::Ok(true) && !has_id(
                old(self).active_view(),
                history_id@,
            ) ==> {
                let c = first_archive_with(old(self).archives_view(), history_id@);
                let i = first_id_index(old(self).archives_view()[c].entries@, history_id@);
                &&& final(self).active_view() == old(self).active_view()
                &&& final(self).archives_view().len() == old(self).archives_view().len()
                &&& forall|k: int|
                    0 <= k < final(self).archives_view().len() && k != c
                        ==> #[trigger] final(self).archives_view()[k] == old(self).archives_view()[k]
                &&& final(self).archives_view()[c].date_key == old(self).archives_view()[c].date_key
                &&& final(self).archives_view()[c].entries@.len() == old(self).archives_view()[c].entries@.len()
                &&& forall|k: int|
                    0 <= k < final(self).archives_view()[c].entries@.len() && k != i
                        ==> #[trigger] final(self).archives_view()[c].entries@[k] == old(self).archives_view()[c].entries@[k]
                &&& final(self).archives_view()[c].entries@[i].id == old(self).archives_view()[c].entries@[i].id
                &&& final(self).archives_view()[c].entries@[i].ts == old(self).archives_view()[c].entries@[i].ts
                &&& final(self).archives_view()[c].entries@[i].images == old(self).archives_view()[c].entries@[i].images
                &&& final(self).archives_view()[c].entries@[i].prompt@ == trim_view(prompt@)
            },
    {
        let cleaned = trim_str(prompt);
        if cleaned.unicode_len() == 0 {
            return Err(HistoryError::EmptyPrompt);
        }
        proof {
            lemma_trim_trimmed_entry(prompt@);
        }
        if let Some(i) = find_in_entries(&self.active, history_id) {
            let e = vec_index_mut(&mut self.active, i);
            e.prompt = cleaned;
            proof {
                assert(entries_wf(self.active@)) by {
                    assert forall|k: int|
                        0 <= k < self.active@.len() implies entry_wf(
                        #[trigger] self.active@[k],
                    ) by {
                        if k != i {
                            assert(self.active@[k] == old(self).active@[k]);
                        }
                        assert(entry_wf(old(self).active@[k]));
                    }
                }
            }
            return Ok(true);
        }
        let n = self.archives.len();
        let mut c: usize = 0;
        while c < n
            invariant
                0 <= c <= n,
                n == self.archives@.len(),
                *self == *old(self),
                old(self).wf(),
                cleaned@ == trim_view(prompt@),
                cleaned@.len() > 0,
                trim_view(cleaned@) == cleaned@,
                forall|k: int|
                    0 <= k < c ==> !has_id((#[trigger] self.archives@[k]).entries@, history_id@),
                !has_id(self.active@, history_id@),
            decreases n - c,
        {
            if let Some(i) = find_in_entries(&self.archives[c].entries, history_id) {
                proof {
                    lemma_first_archive_found(self.archives@, history_id@, c as int);
                }
                let arch = vec_index_mut(&mut self.archives, c);
                let e = vec_index_mut(&mut arch.entries, i);
                e.prompt = cleaned;
                proof {
                    let oldarch = old(self).archives@[c as int];
                    assert(self.archives@[c as int].entries@.len() == oldarch.entries@.len());
                    assert(archives_wf(self.archives@)) by {
                        assert forall|a: int, b: int|
                            0 <= a < b < self.archives@.len() implies #[trigger] lex_lt(
                            self.archives@[b].date_key@,
                            self.archives@[a].date_key@,
                        ) by {
                            assert(self.archives@[a].date_key == old(self).archives@[a].date_key);
                            assert(self.archives@[b].date_key == old(self).archives@[b].date_key);
                            assert(lex_lt(
                                old(self).archives@[b].date_key@,
                                old(self).archives@[a].date_key@,
                            ));
                        }
                        assert forall|k: int|
                            0 <= k < self.archives@.len() implies archive_wf(
                            #[trigger] self.archives@[k],
                        ) by {
                            assert(archive_wf(old(self).archives@[k]));
                            if k != c {
                                assert(self.archives@[k] == old(self).archives@[k]);
                            } else {
                                let ne = self.archives@[k].entries@;
                                let oe = oldarch.entries@;
                                assert forall|m: int| 0 <= m < ne.len() implies entry_wf(
                                    #[trigger] ne[m],
                                ) by {
                                    if m != i {
                                        assert(ne[m] == oe[m]);
                                    }
                                    assert(entry_wf(oe[m]));
                                }
                                assert forall|a: int, b: int|
                                    0 <= a < b < ne.len() implies #[trigger] lex_lt(
                                    ne[a].id@,
                                    ne[b].id@,
                                ) by {
                                    assert(ne[a].id@ == oe[a].id@);
                                    assert(ne[b].id@ == oe[b].id@);
                                    assert(lex_lt(oe[a].id@, oe[b].id@));
                                }
                            }
                        }
                    }
                }
                return Ok(true);
            }
            c = c + 1;
        }
        proof {
            if archives_have_id(self.archives@, history_id@) {
                let k = choose|k: int|
                    0 <= k < self.archives@.len() && has_id(
                        (#[trigger] self.archives@[k]).entries@,
                        history_id@,
                    );
            }
        }
        Ok(false)
    }
}

/// The sequence number an id carries for the given base: the id must be
/// the base, an underscore, and a plain decimal that a 32-bit signed
/// number can hold (longer digit runs do not count as sequence numbers).
pub open spec fn id_seq_of(id: Seq<char>, base: Seq<char>) -> Option<int> {
    let suffix = id.subrange(base.len() as int + 1, id.len() as int);
    if has_prefix(id, base + "_"@) && id.len() > base.len() + 1 && all_digits(suffix) && dec_val(
        suffix,
    ) <= 0x7fff_ffff {
        Some(dec_val(suffix))
    } else {
        None
    }
}

/// Some entry of the list already uses sequence number `n` for `base`.
pub open spec fn seq_used(entries: Seq<HistoryEntry>, base: Seq<char>, n: int) -> bool {
    exists|k: int| 0 <= k < entries.len() && id_seq_of((#[trigger] entries[k]).id@, base) == Some(n)
}

/// The id built from a time reading and a sequence number.
pub open spec fn with_seq(t: ClockTime, n: int) -> Seq<char> {
    id_base_view(t) + "_"@ + dec_pad(n, 4)
}

/// A freshly generated id: base plus the smallest unused sequence number.
pub open spec fn generated_id(entries: Seq<HistoryEntry>, t: ClockTime, id: Seq<char>) -> bool {
    exists|n: int|
        {
            &&& 1 <= n
            &&& id == #[trigger] with_seq(t, n)
            &&& !seq_used(entries, id_base_view(t), n)
            &&& forall|m: int| 1 <= m < n ==> seq_used(entries, id_base_view(t), m)
        }
}

/// The day-key an entry rotates under: the first eight id characters
/// when they are digits, else the first eight digits of its timestamp,
/// else the key of the current day.
pub open spec fn digits_of(s: Seq<char>) -> Seq<char>
    decreases s.len(),
{
    if s.len() == 0 {
        s
    } else {
        let rest = digits_of(s.drop_first());
        if crate::text::is_dec_digit(s[0]) {
            seq![s[0]] + rest
        } else {
            rest
        }
    }
}

pub open spec fn entry_date_key(e: HistoryEntry, now: ClockTime) -> Seq<char> {
    if e.id@.len() >= 8 && all_digits(e.id@.subrange(0, 8)) {
        e.id@.subrange(0, 8)
    } else if digits_of(e.ts@).len() >= 8 {
        digits_of(e.ts@).subrange(0, 8)
    } else {
        date_key_view(now)
    }
}

/// An archive with this key holds an entry with this id.
pub open spec fn archives_key_has_id(archives: Seq<Archive>, key: Seq<char>, id: Seq<char>) -> bool {
    exists|j: int|
        0 <= j < archives.len() && (#[trigger] archives[j]).date_key@ == key && has_id(
            archives[j].entries@,
            id,
        )
}

/// Membership in a list extended at the back.
proof fn lemma_has_id_push(s: Seq<HistoryEntry>, e: HistoryEntry)
    ensures
        forall|x: Seq<char>| #[trigger] has_id(s.push(e), x) == (has_id(s, x) || e.id@ == x),
{
    assert forall|x: Seq<char>| #[trigger] has_id(s.push(e), x) == (has_id(s, x) || e.id@ == x) by {
        if has_id(s.push(e), x) {
            let k = choose|k: int| 0 <= k < s.push(e).len() && (#[trigger] s.push(e)[k]).id@ == x;
            if k < s.len() {
                assert(s[k] == s.push(e)[k]);
                assert((s[k]).id@ == x);
            }
        }
        if has_id(s, x) {
            let k = choose|k: int| 0 <= k < s.len() && (#[trigger] s[k]).id@ == x;
            assert(s.push(e)[k] == s[k]);
            assert((s.push(e)[k]).id@ == x);
        }
        if e.id@ == x {
            assert((s.push(e)[s.len() as int]).id@ == x);
        }
    }
}

/// Membership splits over a cut of the list.
proof fn lemma_has_id_split(s: Seq<HistoryEntry>, at: int)
    requires
        0 <= at <= s.len(),
    ensures
        forall|x: Seq<char>|
            #[trigger] has_id(s, x) == (has_id(s.subrange(0, at), x) || has_id(
                s.subrange(at, s.len() as int),
                x,
            )),
{
    assert forall|x: Seq<char>|
        #[trigger] has_id(s, x) == (has_id(s.subrange(0, at), x) || has_id(
            s.subrange(at, s.len() as int),
            x,
        )) by {
        let a = s.subrange(0, at);
        let b = s.subrange(at, s.len() as int);
        if has_id(s, x) {
            let k = choose|k: int| 0 <= k < s.len() && (#[trigger] s[k]).id@ == x;
            if k < at {
                assert(a[k] == s[k]);
                assert((a[k]).id@ == x);
            } else {
                assert(b[k - at] == s[k]);
                assert((b[k - at]).id@ == x);
            }
        }
        if has_id(a, x) {
            let k = choose|k: int| 0 <= k < a.len() && (#[trigger] a[k]).id@ == x;
            assert(s[k] == a[k]);
            assert((s[k]).id@ == x);
        }
        if has_id(b, x) {
            let k = choose|k: int| 0 <= k < b.len() && (#[trigger] b[k]).id@ == x;
            assert(s[k + at] == b[k]);
            assert((s[k + at]).id@ == x);
        }
    }
}

/// A generated id cannot collide with the ids already in the list.
proof fn lemma_generated_fresh(entries: Seq<HistoryEntry>, t: ClockTime, n: int)
    requires
        1 <= n <= 0x7fff_ffff,
        !seq_used(entries, id_base_view(t), n),
    ensures
        !has_id(entries, with_seq(t, n)),
{
    let base = id_base_view(t);
    let id = with_seq(t, n);
    reveal_strlit("_");
    crate::text::lemma_dec_pad_all_digits(n, 4);
    crate::text::lemma_dec_val_pad(n, 4);
    assert(id.subrange(0, base.len() as int) =~= base);
    assert(id.subrange(0, (base + "_"@).len() as int) =~= base + "_"@);
    assert(id.subrange(base.len() as int + 1, id.len() as int) =~= dec_pad(n, 4));
    crate::text::lemma_dec_pad_len(n, 4);
    crate::text::lemma_dec_str_len(n);
    assert(id_seq_of(id, base) == Some(n));
    if has_id(entries, id) {
        let k = choose|k: int| 0 <= k < entries.len() && (#[trigger] entries[k]).id@ == id;
        assert(id_seq_of(entries[k].id@, base) == Some(n));
        assert(seq_used(entries, base, n));
    }
}

impl HistoryStore {
    /// Whether some entry uses sequence number `n` for this id base.
    fn seq_in_use(entries: &Vec<HistoryEntry>, base: &str, n: u64) -> (r: bool)
        ensures
            r == seq_used(entries@, base@, n as int),
    {
        let mut prefix = String::from_str(base);
        prefix.append("_");
        let plen = prefix.unicode_len();
        proof {
            reveal_strlit("_");
        }
        let m = entries.len();
        let mut k: usize = 0;
        while k < m
            invariant
                0 <= k <= m,
                m == entries@.len(),
                prefix@ == base@ + "_"@,
                plen == prefix@.len(),
                forall|j: int|
                    0 <= j < k ==> id_seq_of((#[trigger] entries@[j]).id@, base@) != Some(
                        n as int,
                    ),
            decreases m - k,
        {
            proof {
                reveal_strlit("_");
            }
            let id = &entries[k].id;
            let idlen = id.as_str().unicode_len();
            if crate::text::starts_with_str(id.as_str(), prefix.as_str()) && idlen > plen {
                let suffix = id.as_str().substring_char(plen, idlen);
                proof {
                    assert(suffix@ =~= entries@[k as int].id@.subrange(
                        base@.len() as int + 1,
                        entries@[k as int].id@.len() as int,
                    ));
                }
                if let Some(v) = crate::text::parse_u64_digits(suffix) {
                    if v <= 0x7fff_ffff && v == n {
                        proof {
                            assert(id_seq_of(entries@[k as int].id@, base@) == Some(n as int));
                        }
                        return true;
                    }
                }
                proof {
                    let idv = entries@[k as int].id@;
                    if id_seq_of(idv, base@) == Some(n as int) {
                        assert(all_digits(idv.subrange(base@.len() as int + 1, idv.len() as int)));
                        assert(dec_val(idv.subrange(base@.len() as int + 1, idv.len() as int)) <= 0x7fff_ffff);
                    }
                }
            } else {
                proof {
                    let idv = entries@[k as int].id@;
                    if id_seq_of(idv, base@) == Some(n as int) {
                        assert(has_prefix(idv, base@ + "_"@));
                    }
                }
            }
            k = k + 1;
        }
        proof {
            if seq_used(entries@, base@, n as int) {
                let j = choose|j: int|
                    0 <= j < entries@.len() && id_seq_of(
                        (#[trigger] entries@[j]).id@,
                        base@,
                    ) == Some(n as int);
            }
        }
        false
    }

    /// Generates the next entry id for a time reading: the id base plus
    /// the smallest positive sequence number no current entry uses.
    fn next_entry_id(entries: &Vec<HistoryEntry>, now: &ClockTime) -> (r: String)
        requires
            now.valid(),
        ensures
            generated_id(entries@, *now, r@),
            entries@.len() + 1 <= 0x7fff_ffff ==> !has_id(entries@, r@),
    {
        let bound = entries.len();
        let base = crate::clock::format_id_base(now);
        let mut n: u64 = 1;
        while Self::seq_in_use(entries, base.as_str(), n)
            invariant
                1 <= n <= bound + 1,
                bound == entries@.len(),
                base@ == id_base_view(*now),
                forall|m: int| 1 <= m < n ==> seq_used(entries@, base@, m),
            decreases bound + 1 - n,
        {
            proof {
                // some number up to one past the entry count is always
                // free, so the search cannot pass that point
                if n == bound + 1 {
                    lemma_some_seq_free(entries@, base@);
                    let m = choose|m: int|
                        1 <= m <= entries@.len() + 1 && !#[trigger] seq_used(entries@, base@, m);
                    assert(seq_used(entries@, base@, m));
                }
            }
            n = n + 1;
        }
        proof {
            assert(!seq_used(entries@, base@, n as int));
            if entries@.len() + 1 <= 0x7fff_ffff {
                lemma_generated_fresh(entries@, *now, n as int);
            }
        }
        let mut id = base;
        id.append("_");
        crate::text::push_dec_pad(&mut id, n, 4);
        proof {
            assert(id@ == with_seq(*now, n as int));
            assert(generated_id(entries@, *now, id@));
        }
        id
    }
}

/// Some number from one to one past the entry count is always free:
/// each entry accounts for at most one sequence number.
proof fn lemma_some_seq_free(entries: Seq<HistoryEntry>, base: Seq<char>)
    ensures
        exists|m: int|
            1 <= m <= entries.len() + 1 && !#[trigger] seq_used(entries, base, m),
{
    let bound = entries.len() as int + 1;
    if forall|m: int| 1 <= m <= bound ==> #[trigger] seq_used(entries, base, m) {
        // map each number in range to the entry using it; the map is
        // injective, so there would be more entries than there are
        let f = |m: int|
            choose|k: int|
                0 <= k < entries.len() && id_seq_of((#[trigger] entries[k]).id@, base) == Some(m);
        let numbers = vstd::set_lib::set_int_range(1, bound + 1);
        vstd::set_lib::lemma_int_range(1, bound + 1);
        assert forall|m1: int, m2: int|
            numbers.contains(m1) && numbers.contains(m2) && #[trigger] f(m1) == #[trigger] f(
                m2,
            ) implies m1 == m2 by {
            assert(seq_used(entries, base, m1));
            assert(seq_used(entries, base, m2));
            let k1 = f(m1);
            let k2 = f(m2);
            assert(id_seq_of(entries[k1].id@, base) == Some(m1));
            assert(id_seq_of(entries[k2].id@, base) == Some(m2));
        }
        let image = numbers.map(f);
        vstd::set_lib::lemma_map_size(numbers, image, f);
        let indexes = vstd::set_lib::set_int_range(0, entries.len() as int);
        vstd::set_lib::lemma_int_range(0, entries.len() as int);
        assert(image.subset_of(indexes)) by {
            assert forall|x: int| image.contains(x) implies indexes.contains(x) by {
                let m = choose|m: int| numbers.contains(m) && #[trigger] f(m) == x;
                assert(seq_used(entries, base, m));
                assert(id_seq_of(entries[f(m)].id@, base) == Some(m));
            }
        }
        vstd::set_lib::lemma_len_subset(image, indexes);
    }
}

/// Every character of a digit filtering is a digit.
proof fn lemma_digits_of_digits(s: Seq<char>)
    ensures
        all_digits(digits_of(s)),
        digits_of(s).len() <= s.len(),
    decreases s.len(),
{
    if s.len() > 0 {
        lemma_digits_of_digits(s.drop_first());
        let r = digits_of(s);
        if crate::text::is_dec_digit(s[0]) {
            assert forall|k: int| 0 <= k < r.len() implies crate::text::is_dec_digit(r[k]) by {
                if k > 0 {
                    assert(r[k] == digits_of(s.drop_first())[k - 1]);
                }
            }
        }
    }
}

/// The position of the archive carrying this key, or the length when
/// none does. Under `archives_sorted` the keys are unique, so this is
/// the one such archive.
pub open spec fn key_archive_index(archives: Seq<Archive>, key: Seq<char>) -> int
    decreases archives.len(),
{
    if archives.len() == 0 {
        0
    } else if archives[0].date_key@ == key {
        0
    } else {
        1 + key_archive_index(archives.drop_first(), key)
    }
}

/// Whether some archive carries this key.
pub open spec fn archives_have_key(archives: Seq<Archive>, key: Seq<char>) -> bool {
    exists|k: int| 0 <= k < archives.len() && (#[trigger] archives[k]).date_key@ == key
}

/// The entry stored in the archive of `key` under `id` (meaningful when
/// `archives_key_has_id` holds).
pub open spec fn stored_entry(archives: Seq<Archive>, key: Seq<char>, id: Seq<char>) -> HistoryEntry {
    entry_at(archives[key_archive_index(archives, key)].entries@, id)
}

pub proof fn lemma_key_archive_index(archives: Seq<Archive>, key: Seq<char>)
    ensures
        0 <= key_archive_index(archives, key) <= archives.len(),
        (key_archive_index(archives, key) < archives.len()) == archives_have_key(archives, key),
        key_archive_index(archives, key) < archives.len()
            ==> archives[key_archive_index(archives, key)].date_key@ == key,
        forall|k: int|
            0 <= k < key_archive_index(archives, key) ==> (#[trigger] archives[k]).date_key@
                != key,
    decreases archives.len(),
{
    if archives.len() == 0 {
        if archives_have_key(archives, key) {
            let k = choose|k: int|
                0 <= k < archives.len() && (#[trigger] archives[k]).date_key@ == key;
        }
    } else if archives[0].date_key@ == key {
        assert(archives_have_key(archives, key));
    } else {
        let t = archives.drop_first();
        lemma_key_archive_index(t, key);
        let i = key_archive_index(archives, key);
        assert forall|k: int| 0 <= k < i implies (#[trigger] archives[k]).date_key@ != key by {
            if k > 0 {
                assert(t[k - 1] == archives[k]);
                assert((t[k - 1]).date_key@ != key);
            }
        }
        if archives_have_key(t, key) {
            assert(t[key_archive_index(t, key)] == archives[i]);
            assert(archives_have_key(archives, key));
        }
        if archives_have_key(archives, key) {
            let k = choose|k: int|
                0 <= k < archives.len() && (#[trigger] archives[k]).date_key@ == key;
            assert(k > 0);
            assert(t[k - 1] == archives[k]);
            assert((t[k - 1]).date_key@ == key);
            assert(archives_have_key(t, key));
        }
    }
}

proof fn lemma_key_archive_found(archives: Seq<Archive>, key: Seq<char>, c: int)
    requires
        0 <= c < archives.len(),
        archives[c].date_key@ == key,
        forall|k: int| 0 <= k < c ==> (#[trigger] archives[k]).date_key@ != key,
    ensures
        key_archive_index(archives, key) == c,
        archives_have_key(archives, key),
{
    lemma_key_archive_index(archives, key);
    let f = key_archive_index(archives, key);
    assert(archives_have_key(archives, key));
    if f < c {
        assert(archives[f].date_key@ != key);
    }
    if f > c {
        assert(archives[c].date_key@ != key);
    }
}

/// Some moved entry carries this key and id pair.
pub open spec fn moved_key_id(
    moved: Seq<HistoryEntry>,
    now: ClockTime,
    key: Seq<char>,
    id: Seq<char>,
) -> bool {
    exists|j: int|
        0 <= j < moved.len() && entry_date_key(#[trigger] moved[j], now) == key && moved[j].id@
            == id
}

impl HistoryStore {
    /// The day-key an entry rotates under.
    fn date_key_of_entry(e: &HistoryEntry, now: &ClockTime) -> (r: String)
        requires
            now.valid(),
        ensures
            r@ == entry_date_key(*e, *now),
            r@.len() == 8,
            all_digits(r@),
    {
        let idlen = e.id.as_str().unicode_len();
        if idlen >= 8 {
            let head = e.id.as_str().substring_char(0, 8);
            if crate::text::all_digits_str(head) {
                return String::from_str(head);
            }
        }
        proof {
            if e.id@.len() >= 8 && all_digits(e.id@.subrange(0, 8)) {
                assert(false);
            }
        }
        // fall back to the digits of the display timestamp
        let tslen = e.ts.as_str().unicode_len();
        let mut ds = String::new();
        let mut j: usize = tslen;
        while j > 0
            invariant
                0 <= j <= tslen,
                tslen == e.ts@.len(),
                ds@ == digits_of(e.ts@.subrange(j as int, tslen as int)),
            decreases j,
        {
            j = j - 1;
            let c = e.ts.as_str().get_char(j);
            proof {
                let suf = e.ts@.subrange(j as int, tslen as int);
                assert(suf[0] == e.ts@[j as int]);
                assert(suf.drop_first() =~= e.ts@.subrange(j + 1, tslen as int));
            }
            if crate::text::is_digit(c) {
                let mut t = String::new();
                crate::text::push_char(&mut t, c);
                t.append(ds.as_str());
                proof {
                    assert(t@ =~= seq![e.ts@[j as int]] + digits_of(
                        e.ts@.subrange(j + 1, tslen as int),
                    ));
                }
                ds = t;
            }
        }
        proof {
            assert(e.ts@.subrange(0, tslen as int) =~= e.ts@);
            lemma_digits_of_digits(e.ts@);
        }
        if ds.as_str().unicode_len() >= 8 {
            let head = ds.as_str().substring_char(0, 8);
            proof {
                assert forall|k: int|
                    0 <= k < 8 implies crate::text::is_dec_digit(#[trigger] ds@.subrange(0, 8)[k]) by {
                    assert(ds@.subrange(0, 8)[k] == ds@[k]);
                }
            }
            return String::from_str(head);
        }
        crate::clock::format_date_key(now)
    }

    /// Merges one entry into the archive carrying `key`, creating that
    /// archive at its ordered position when it is new.
    fn insert_into_archive(&mut self, key: String, e: HistoryEntry)
        requires
            old(self).wf(),
            key@.len() == 8,
            all_digits(key@),
            entry_wf(e),
        ensures
            final(self).wf(),
            final(self).base_dir_view() == old(self).base_dir_view(),
            final(self).max_entries_view() == old(self).max_entries_view(),
            final(self).image_files_view() == old(self).image_files_view(),
            final(self).active_view() == old(self).active_view(),
            forall|k: Seq<char>, i: Seq<char>|
                #[trigger] archives_key_has_id(final(self).archives_view(), k, i) == (
                archives_key_has_id(old(self).archives_view(), k, i) || (k == key@ && i == e.id@)),
            forall|i: Seq<char>|
                #[trigger] archives_have_id(final(self).archives_view(), i) == (archives_have_id(
                    old(self).archives_view(),
                    i,
                ) || i == e.id@),
            stored_entry(final(self).archives_view(), key@, e.id@) == e,
            forall|k: Seq<char>, i: Seq<char>|
                archives_key_has_id(old(self).archives_view(), k, i) && !(k == key@ && i == e.id@)
                    ==> #[trigger] stored_entry(final(self).archives_view(), k, i) == stored_entry(
                    old(self).archives_view(),
                    k,
                    i,
                ),
    {
        let n = self.archives.len();
        let mut c: usize = 0;
        while c < n && str_lt(key.as_str(), &self.archives[c].date_key)
            invariant
                0 <= c <= n,
                n == self.archives@.len(),
                *self == *old(self),
                forall|k: int|
                    0 <= k < c ==> #[trigger] lex_lt(key@, self.archives@[k].date_key@),
            decreases n - c,
        {
            c = c + 1;
        }
        if c < n && str_eq(self.archives[c].date_key.as_str(), key.as_str()) {
            let ghost oldentries = self.archives@[c as int].entries@;
            proof {
                lemma_upsert(oldentries, e);
                lemma_upsert_lookup(oldentries, e);
            }
            let arch = vec_index_mut(&mut self.archives, c);
            upsert_entry(&mut arch.entries, e);
            proof {
                lemma_insert_upsert_post(old(self).archives@, self.archives@, c as int, key@, e);
            }
        } else {
            proof {
                crate::text::lemma_lex_le_total(key@, Seq::<char>::empty());
                if c < n {
                    crate::text::lemma_lex_le_total(key@, self.archives@[c as int].date_key@);
                }
            }
            let arch = Archive { date_key: key, entries: vec_of_one(e) };
            self.archives.insert(c, arch);
            proof {
                lemma_insert_new_post(old(self).archives@, self.archives@, c as int, e);
            }
        }
    }
}

/// Builds a one-element vector.
fn vec_of_one(e: HistoryEntry) -> (r: Vec<HistoryEntry>)
    ensures
        r@ =~= seq![e],
{
    let mut r: Vec<HistoryEntry> = Vec::new();
    r.push(e);
    r
}

/// After upserting into the archive at `c`, the key/id pairs of the
/// archive list are the old pairs plus the new one.
proof fn lemma_insert_upsert_post(
    olda: Seq<Archive>,
    newa: Seq<Archive>,
    c: int,
    key: Seq<char>,
    e: HistoryEntry,
)
    requires
        archives_wf(olda),
        0 <= c < olda.len(),
        olda[c].date_key@ == key,
        newa.len() == olda.len(),
        forall|k: int| 0 <= k < newa.len() && k != c ==> #[trigger] newa[k] == olda[k],
        newa[c].date_key == olda[c].date_key,
        newa[c].entries@ == upsert_view(olda[c].entries@, e),
        entry_wf(e),
    ensures
        archives_wf(newa),
        forall|k: Seq<char>, i: Seq<char>|
            #[trigger] archives_key_has_id(newa, k, i) == (archives_key_has_id(olda, k, i) || (k
                == key && i == e.id@)),
        forall|i: Seq<char>|
            #[trigger] archives_have_id(newa, i) == (archives_have_id(olda, i) || i == e.id@),
        stored_entry(newa, key, e.id@) == e,
        forall|k: Seq<char>, i: Seq<char>|
            archives_key_has_id(olda, k, i) && !(k == key && i == e.id@)
                ==> #[trigger] stored_entry(newa, k, i) == stored_entry(olda, k, i),
{
    lemma_upsert(olda[c].entries@, e);
    assert(archives_wf(newa)) by {
        assert forall|i: int, j: int| 0 <= i < j < newa.len() implies #[trigger] lex_lt(
            newa[j].date_key@,
            newa[i].date_key@,
        ) by {
            assert(newa[i].date_key@ == olda[i].date_key@);
            assert(newa[j].date_key@ == olda[j].date_key@);
            assert(lex_lt(olda[j].date_key@, olda[i].date_key@));
        }
        assert forall|k: int| 0 <= k < newa.len() implies archive_wf(#[trigger] newa[k]) by {
            assert(archive_wf(olda[k]));
            if k != c {
                assert(newa[k] == olda[k]);
            }
        }
    }
    assert forall|k: Seq<char>, i: Seq<char>|
        #[trigger] archives_key_has_id(newa, k, i) == (archives_key_has_id(olda, k, i) || (k == key
            && i == e.id@)) by {
        if archives_key_has_id(newa, k, i) {
            let j = choose|j: int|
                0 <= j < newa.len() && (#[trigger] newa[j]).date_key@ == k && has_id(
                    newa[j].entries@,
                    i,
                );
            if j != c {
                assert(olda[j] == newa[j]);
                assert((olda[j]).date_key@ == k && has_id(olda[j].entries@, i));
            } else {
                if i != e.id@ {
                    assert(has_id(olda[c].entries@, i));
                    assert((olda[c]).date_key@ == k && has_id(olda[c].entries@, i));
                }
            }
        }
        if archives_key_has_id(olda, k, i) {
            let j = choose|j: int|
                0 <= j < olda.len() && (#[trigger] olda[j]).date_key@ == k && has_id(
                    olda[j].entries@,
                    i,
                );
            if j != c {
                assert((newa[j]).date_key@ == k && has_id(newa[j].entries@, i));
            } else {
                assert(has_id(newa[c].entries@, i));
                assert((newa[c]).date_key@ == k && has_id(newa[c].entries@, i));
            }
        }
        if k == key && i == e.id@ {
            assert(has_id(newa[c].entries@, i));
            assert((newa[c]).date_key@ == k && has_id(newa[c].entries@, i));
        }
    }
    assert forall|i: Seq<char>|
        #[trigger] archives_have_id(newa, i) == (archives_have_id(olda, i) || i == e.id@) by {
        if archives_have_id(newa, i) {
            let j = choose|j: int| 0 <= j < newa.len() && has_id((#[trigger] newa[j]).entries@, i);
            if j != c {
                assert(has_id((olda[j]).entries@, i));
            } else if i != e.id@ {
                assert(has_id((olda[c]).entries@, i));
            }
        }
        if archives_have_id(olda, i) {
            let j = choose|j: int| 0 <= j < olda.len() && has_id((#[trigger] olda[j]).entries@, i);
            if j != c {
                assert(has_id((newa[j]).entries@, i));
            } else {
                assert(has_id((newa[c]).entries@, i));
            }
        }
        if i == e.id@ {
            assert(has_id((newa[c]).entries@, i));
        }
    }
    // key positions are unchanged, so per-id lookups move only inside
    // the rewritten archive
    assert forall|k0: int| 0 <= k0 < c implies (#[trigger] olda[k0]).date_key@ != key by {
        assert(lex_lt(olda[c].date_key@, olda[k0].date_key@));
    }
    lemma_key_archive_found(olda, key, c);
    assert forall|k0: int| 0 <= k0 < c implies (#[trigger] newa[k0]).date_key@ != key by {
        assert(newa[k0] == olda[k0]);
        assert(lex_lt(olda[c].date_key@, olda[k0].date_key@));
    }
    lemma_key_archive_found(newa, key, c);
    lemma_upsert_lookup(olda[c].entries@, e);
    assert(stored_entry(newa, key, e.id@) == e);
    assert forall|k: Seq<char>, i: Seq<char>|
        archives_key_has_id(olda, k, i) && !(k == key && i == e.id@) implies #[trigger] stored_entry(
        newa,
        k,
        i,
    ) == stored_entry(olda, k, i) by {
        let j = choose|j: int|
            0 <= j < olda.len() && (#[trigger] olda[j]).date_key@ == k && has_id(
                olda[j].entries@,
                i,
            );
        assert forall|k0: int| 0 <= k0 < j implies (#[trigger] olda[k0]).date_key@ != k by {
            assert(lex_lt(olda[j].date_key@, olda[k0].date_key@));
        }
        lemma_key_archive_found(olda, k, j);
        if k == key {
            // the keys are unique, so this is the rewritten archive with
            // another id, which the upsert leaves alone
            assert(j == c);
            assert(i != e.id@);
            assert(stored_entry(newa, k, i) == entry_at(upsert_view(olda[c].entries@, e), i));
        } else {
            assert(j != c);
            assert forall|k0: int| 0 <= k0 < j implies (#[trigger] newa[k0]).date_key@ != k by {
                if k0 != c {
                    assert(newa[k0] == olda[k0]);
                    assert((olda[k0]).date_key@ != k);
                } else {
                    assert(newa[c].date_key@ == key);
                }
            }
            assert(newa[j] == olda[j]);
            lemma_key_archive_found(newa, k, j);
        }
    }
}

/// After inserting a fresh one-entry archive at `c`, the key/id pairs
/// are the old pairs plus the new one.
proof fn lemma_insert_new_post(olda: Seq<Archive>, newa: Seq<Archive>, c: int, e: HistoryEntry)
    requires
        archives_wf(olda),
        0 <= c <= olda.len(),
        newa == olda.insert(c, newa[c]),
        newa[c].entries@ =~= seq![e],
        newa[c].date_key@.len() == 8,
        all_digits(newa[c].date_key@),
        entry_wf(e),
        forall|k: int| 0 <= k < c ==> #[trigger] lex_lt(newa[c].date_key@, olda[k].date_key@),
        c < olda.len() ==> lex_lt(olda[c].date_key@, newa[c].date_key@),
    ensures
        archives_wf(newa),
        forall|k: Seq<char>, i: Seq<char>|
            #[trigger] archives_key_has_id(newa, k, i) == (archives_key_has_id(olda, k, i) || (k
                == newa[c].date_key@ && i == e.id@)),
        forall|i: Seq<char>|
            #[trigger] archives_have_id(newa, i) == (archives_have_id(olda, i) || i == e.id@),
        stored_entry(newa, newa[c].date_key@, e.id@) == e,
        forall|k: Seq<char>, i: Seq<char>|
            archives_key_has_id(olda, k, i) ==> #[trigger] stored_entry(newa, k, i)
                == stored_entry(olda, k, i),
{
    let a = newa[c];
    assert(newa.len() == olda.len() + 1);
    assert forall|k: int| 0 <= k < newa.len() implies #[trigger] newa[k] == (if k < c {
        olda[k]
    } else if k == c {
        a
    } else {
        olda[k - 1]
    }) by {}
    assert(archives_wf(newa)) by {
        assert forall|i: int, j: int| 0 <= i < j < newa.len() implies #[trigger] lex_lt(
            newa[j].date_key@,
            newa[i].date_key@,
        ) by {
            if i < c && j < c {
                assert(lex_lt(olda[j].date_key@, olda[i].date_key@));
            } else if i < c && j == c {
                assert(lex_lt(a.date_key@, olda[i].date_key@));
            } else if i < c && j > c {
                if j - 1 > i {
                    assert(lex_lt(olda[j - 1].date_key@, olda[i].date_key@));
                } else {
                    // j - 1 == i < c <= j - 1, impossible
                    assert(false);
                }
            } else if i == c && j > c {
                // a > olda[c] >= olda[j-1]
                assert(c < olda.len());
                if j - 1 > c {
                    assert(lex_lt(olda[j - 1].date_key@, olda[c].date_key@));
                    crate::text::lemma_lex_le_trans(
                        olda[j - 1].date_key@,
                        olda[c].date_key@,
                        a.date_key@,
                    );
                    crate::text::lemma_lex_le_total(olda[j - 1].date_key@, a.date_key@);
                    crate::text::lemma_lex_le_total(olda[c].date_key@, a.date_key@);
                    if olda[j - 1].date_key@ == a.date_key@ {
                        crate::text::lemma_lex_le_total(olda[j - 1].date_key@, olda[c].date_key@);
                    }
                } else {
                    assert(lex_lt(olda[c].date_key@, a.date_key@));
                }
            } else {
                assert(i > c || (i == c && j <= c) || i >= c);
                if i > c {
                    assert(lex_lt(olda[j - 1].date_key@, olda[i - 1].date_key@));
                }
            }
        }
        assert forall|k: int| 0 <= k < newa.len() implies archive_wf(#[trigger] newa[k]) by {
            if k < c {
                assert(archive_wf(olda[k]));
            } else if k > c {
                assert(archive_wf(olda[k - 1]));
            } else {
                assert(entries_wf(a.entries@)) by {
                    assert forall|m: int| 0 <= m < a.entries@.len() implies entry_wf(
                        #[trigger] a.entries@[m],
                    ) by {
                        assert(a.entries@[m] == e);
                    }
                }
            }
        }
    }
    assert forall|k: Seq<char>, i: Seq<char>|
        #[trigger] archives_key_has_id(newa, k, i) == (archives_key_has_id(olda, k, i) || (k
            == a.date_key@ && i == e.id@)) by {
        if archives_key_has_id(newa, k, i) {
            let j = choose|j: int|
                0 <= j < newa.len() && (#[trigger] newa[j]).date_key@ == k && has_id(
                    newa[j].entries@,
                    i,
                );
            if j < c {
                assert((olda[j]).date_key@ == k && has_id(olda[j].entries@, i));
            } else if j > c {
                assert((olda[j - 1]).date_key@ == k && has_id(olda[j - 1].entries@, i));
            } else {
                let m = choose|m: int|
                    0 <= m < a.entries@.len() && (#[trigger] a.entries@[m]).id@ == i;
                assert(a.entries@[m] == e);
            }
        }
        if archives_key_has_id(olda, k, i) {
            let j = choose|j: int|
                0 <= j < olda.len() && (#[trigger] olda[j]).date_key@ == k && has_id(
                    olda[j].entries@,
                    i,
                );
            if j < c {
                assert((newa[j]).date_key@ == k && has_id(newa[j].entries@, i));
            } else {
                assert((newa[j + 1]).date_key@ == k && has_id(newa[j + 1].entries@, i));
            }
        }
        if k == a.date_key@ && i == e.id@ {
            assert((a.entries@[0]).id@ == i);
            assert(has_id(a.entries@, i));
            assert((newa[c]).date_key@ == k && has_id(newa[c].entries@, i));
        }
    }
    assert forall|i: Seq<char>|
        #[trigger] archives_have_id(newa, i) == (archives_have_id(olda, i) || i == e.id@) by {
        if archives_have_id(newa, i) {
            let j = choose|j: int| 0 <= j < newa.len() && has_id((#[trigger] newa[j]).entries@, i);
            if j < c {
                assert(has_id((olda[j]).entries@, i));
            } else if j > c {
                assert(has_id((olda[j - 1]).entries@, i));
            } else {
                let m = choose|m: int|
                    0 <= m < a.entries@.len() && (#[trigger] a.entries@[m]).id@ == i;
                assert(a.entries@[m] == e);
            }
        }
        if archives_have_id(olda, i) {
            let j = choose|j: int| 0 <= j < olda.len() && has_id((#[trigger] olda[j]).entries@, i);
            if j < c {
                assert(has_id((newa[j]).entries@, i));
            } else {
                assert(has_id((newa[j + 1]).entries@, i));
            }
        }
        if i == e.id@ {
            assert((a.entries@[0]).id@ == i);
            assert(has_id(a.entries@, i));
            assert(has_id((newa[c]).entries@, i));
        }
    }
    let key = a.date_key@;
    // no old archive carries the new key
    assert forall|k0: int| 0 <= k0 < olda.len() implies (#[trigger] olda[k0]).date_key@ != key by {
        if k0 < c {
            assert(lex_lt(key, olda[k0].date_key@));
        } else if k0 == c {
            assert(c < olda.len());
            assert(lex_lt(olda[c].date_key@, key));
        } else {
            assert(c < olda.len());
            assert(lex_lt(olda[k0].date_key@, olda[c].date_key@));
            if olda[k0].date_key@ == key {
                crate::text::lemma_lex_le_total(olda[c].date_key@, olda[k0].date_key@);
            }
        }
    }
    assert forall|k0: int| 0 <= k0 < c implies (#[trigger] newa[k0]).date_key@ != key by {
        assert(newa[k0] == olda[k0]);
    }
    lemma_key_archive_found(newa, key, c);
    lemma_first_id_index(a.entries@, e.id@);
    assert(a.entries@[0] == e);
    assert(first_id_index(a.entries@, e.id@) == 0) by {
        if first_id_index(a.entries@, e.id@) != 0 {
            assert((a.entries@[0]).id@ == e.id@);
        }
    }
    assert(stored_entry(newa, key, e.id@) == e);
    assert forall|k: Seq<char>, i: Seq<char>|
        archives_key_has_id(olda, k, i) implies #[trigger] stored_entry(newa, k, i)
        == stored_entry(olda, k, i) by {
        let j = choose|j: int|
            0 <= j < olda.len() && (#[trigger] olda[j]).date_key@ == k && has_id(
                olda[j].entries@,
                i,
            );
        assert(k != key);
        assert forall|k0: int| 0 <= k0 < j implies (#[trigger] olda[k0]).date_key@ != k by {
            assert(lex_lt(olda[j].date_key@, olda[k0].date_key@));
        }
        lemma_key_archive_found(olda, k, j);
        let nj = if j < c {
            j
        } else {
            j + 1
        };
        assert(newa[nj] == olda[j]);
        assert forall|k0: int| 0 <= k0 < nj implies (#[trigger] newa[k0]).date_key@ != k by {
            if k0 < c {
                assert(newa[k0] == olda[k0]);
                assert((olda[k0]).date_key@ != k);
            } else if k0 == c {
                assert(newa[c].date_key@ == key);
            } else {
                assert(newa[k0] == olda[k0 - 1]);
                assert((olda[k0 - 1]).date_key@ != k);
            }
        }
        lemma_key_archive_found(newa, k, nj);
    }
}

/// The last position among the moved entries that carries this key and
/// id pair (zero when none does).
pub open spec fn last_pair_index(
    moved: Seq<HistoryEntry>,
    now: ClockTime,
    key: Seq<char>,
    id: Seq<char>,
) -> int
    decreases moved.len(),
{
    if moved.len() == 0 {
        0
    } else if moved_key_id(moved.drop_first(), now, key, id) {
        1 + last_pair_index(moved.drop_first(), now, key, id)
    } else {
        0
    }
}

pub proof fn lemma_last_pair_index(
    moved: Seq<HistoryEntry>,
    now: ClockTime,
    key: Seq<char>,
    id: Seq<char>,
)
    requires
        moved_key_id(moved, now, key, id),
    ensures
        0 <= last_pair_index(moved, now, key, id) < moved.len(),
        entry_date_key(moved[last_pair_index(moved, now, key, id)], now) == key,
        moved[last_pair_index(moved, now, key, id)].id@ == id,
    decreases moved.len(),
{
    let t = moved.drop_first();
    if moved_key_id(t, now, key, id) {
        lemma_last_pair_index(t, now, key, id);
        assert(t[last_pair_index(t, now, key, id)] == moved[1 + last_pair_index(
            t,
            now,
            key,
            id,
        )]);
    } else {
        let j = choose|j: int|
            0 <= j < moved.len() && entry_date_key(#[trigger] moved[j], now) == key
                && moved[j].id@ == id;
        if j > 0 {
            assert(t[j - 1] == moved[j]);
            assert(entry_date_key(t[j - 1], now) == key && (t[j - 1]).id@ == id);
        }
        assert(j == 0);
    }
}

/// Appending one entry to the moved batch: a matching entry becomes the
/// last of its pair, every other pair keeps its last position.
proof fn lemma_last_pair_push(
    s: Seq<HistoryEntry>,
    x: HistoryEntry,
    now: ClockTime,
    key: Seq<char>,
    id: Seq<char>,
)
    ensures
        (entry_date_key(x, now) == key && x.id@ == id) ==> (moved_key_id(s.push(x), now, key, id)
            && last_pair_index(s.push(x), now, key, id) == s.len()),
        !(entry_date_key(x, now) == key && x.id@ == id) ==> (moved_key_id(s.push(x), now, key, id)
            == moved_key_id(s, now, key, id) && (moved_key_id(s, now, key, id)
            ==> last_pair_index(s.push(x), now, key, id) == last_pair_index(s, now, key, id))),
    decreases s.len(),
{
    let p = s.push(x);
    if s.len() == 0 {
        assert(p.drop_first() =~= Seq::<HistoryEntry>::empty());
        if moved_key_id(p.drop_first(), now, key, id) {
            let j = choose|j: int|
                0 <= j < p.drop_first().len() && entry_date_key(
                    #[trigger] p.drop_first()[j],
                    now,
                ) == key && p.drop_first()[j].id@ == id;
        }
        if entry_date_key(x, now) == key && x.id@ == id {
            assert(p[0] == x);
            assert(entry_date_key(p[0], now) == key && p[0].id@ == id);
            assert(moved_key_id(p, now, key, id));
        } else {
            if moved_key_id(p, now, key, id) {
                let j = choose|j: int|
                    0 <= j < p.len() && entry_date_key(#[trigger] p[j], now) == key && p[j].id@
                        == id;
                assert(p[j] == x);
            }
            if moved_key_id(s, now, key, id) {
                let j = choose|j: int|
                    0 <= j < s.len() && entry_date_key(#[trigger] s[j], now) == key && s[j].id@
                        == id;
            }
        }
    } else {
        let t = s.drop_first();
        assert(p.drop_first() =~= t.push(x));
        lemma_last_pair_push(t, x, now, key, id);
        // relate head-level membership on both sides
        if entry_date_key(x, now) == key && x.id@ == id {
            assert(moved_key_id(t.push(x), now, key, id));
            assert(moved_key_id(p.drop_first(), now, key, id));
            assert(last_pair_index(p, now, key, id) == 1 + last_pair_index(
                t.push(x),
                now,
                key,
                id,
            ));
            assert(p[s.len() as int] == x);
            assert(moved_key_id(p, now, key, id));
        } else {
            if moved_key_id(p, now, key, id) {
                let j = choose|j: int|
                    0 <= j < p.len() && entry_date_key(#[trigger] p[j], now) == key && p[j].id@
                        == id;
                if j < s.len() {
                    assert(s[j] == p[j]);
                    assert(entry_date_key(s[j], now) == key && s[j].id@ == id);
                    assert(moved_key_id(s, now, key, id));
                } else {
                    assert(p[j] == x);
                }
            }
            if moved_key_id(s, now, key, id) {
                let j = choose|j: int|
                    0 <= j < s.len() && entry_date_key(#[trigger] s[j], now) == key && s[j].id@
                        == id;
                assert(p[j] == s[j]);
                assert(entry_date_key(p[j], now) == key && p[j].id@ == id);
                assert(moved_key_id(p, now, key, id));
                // the last position of the pair does not move
                if moved_key_id(t, now, key, id) {
                    assert(moved_key_id(t.push(x), now, key, id));
                    assert(moved_key_id(p.drop_first(), now, key, id));
                } else {
                    if j > 0 {
                        assert(t[j - 1] == s[j]);
                        assert(entry_date_key(t[j - 1], now) == key && (t[j - 1]).id@ == id);
                    }
                    assert(j == 0);
                    if moved_key_id(p.drop_first(), now, key, id) {
                        assert(moved_key_id(t.push(x), now, key, id));
                    }
                }
            }
        }
    }
}

/// Extending the moved batch by one entry extends its key/id pairs.
proof fn lemma_moved_extend(moved: Seq<HistoryEntry>, t: int, now: ClockTime)
    requires
        0 <= t < moved.len(),
    ensures
        forall|k: Seq<char>, i: Seq<char>|
            #[trigger] moved_key_id(moved.subrange(0, t + 1), now, k, i) == (moved_key_id(
                moved.subrange(0, t),
                now,
                k,
                i,
            ) || (k == entry_date_key(moved[t], now) && i == moved[t].id@)),
        forall|i: Seq<char>|
            #[trigger] has_id(moved.subrange(0, t + 1), i) == (has_id(moved.subrange(0, t), i) || i
                == moved[t].id@),
{
    let a = moved.subrange(0, t);
    let b = moved.subrange(0, t + 1);
    assert(b =~= a.push(moved[t]));
    lemma_has_id_push(a, moved[t]);
    assert forall|k: Seq<char>, i: Seq<char>|
        #[trigger] moved_key_id(b, now, k, i) == (moved_key_id(a, now, k, i) || (k
            == entry_date_key(moved[t], now) && i == moved[t].id@)) by {
        if moved_key_id(b, now, k, i) {
            let j = choose|j: int|
                0 <= j < b.len() && entry_date_key(#[trigger] b[j], now) == k && b[j].id@ == i;
            if j < t {
                assert(a[j] == b[j]);
                assert(entry_date_key(a[j], now) == k && a[j].id@ == i);
            } else {
                assert(b[j] == moved[t]);
            }
        }
        if moved_key_id(a, now, k, i) {
            let j = choose|j: int|
                0 <= j < a.len() && entry_date_key(#[trigger] a[j], now) == k && a[j].id@ == i;
            assert(b[j] == a[j]);
            assert(entry_date_key(b[j], now) == k && b[j].id@ == i);
        }
        if k == entry_date_key(moved[t], now) && i == moved[t].id@ {
            assert(b[t as int] == moved[t]);
            assert(entry_date_key(b[t as int], now) == k && b[t as int].id@ == i);
        }
    }
}

impl HistoryStore {
    /// Rotates overflow out of the given active entries: when the count
    /// exceeds the cap, the oldest overflow entries are merged into the
    /// day-keyed archives and the rest are kept.
    pub fn rotate_if_needed(&mut self, entries: Vec<HistoryEntry>, now: &ClockTime) -> (kept: Vec<
        HistoryEntry,
    >)
        requires
            old(self).wf(),
            entries_wf(entries@),
            now.valid(),
        ensures
            final(self).wf(),
            final(self).base_dir_view() == old(self).base_dir_view(),
            final(self).max_entries_view() == old(self).max_entries_view(),
            final(self).image_files_view() == old(self).image_files_view(),
            final(self).active_view() == old(self).active_view(),
            entries@.len() <= old(self).max_entries_view() ==> final(self).archives_view() == old(self).archives_view(),
            ({
                let ov = if entries@.len() > old(self).max_entries_view() {
                    entries@.len() - old(self).max_entries_view()
                } else {
                    0
                };
                let moved = entries@.subrange(0, ov);
                &&& kept@ == entries@.subrange(ov, entries@.len() as int)
                &&& forall|i: Seq<char>|
                    #[trigger] archives_have_id(final(self).archives_view(), i) == (
                    archives_have_id(old(self).archives_view(), i) || has_id(moved, i))
                &&& forall|k: Seq<char>, i: Seq<char>|
                    #[trigger] archives_key_has_id(final(self).archives_view(), k, i) == (
                    archives_key_has_id(old(self).archives_view(), k, i) || moved_key_id(
                        moved,
                        *now,
                        k,
                        i,
                    ))
                &&& forall|k: Seq<char>, i: Seq<char>|
                    moved_key_id(moved, *now, k, i) ==> #[trigger] stored_entry(
                        final(self).archives_view(),
                        k,
                        i,
                    ) == moved[last_pair_index(moved, *now, k, i)]
                &&& forall|k: Seq<char>, i: Seq<char>|
                    archives_key_has_id(old(self).archives_view(), k, i) && !moved_key_id(
                        moved,
                        *now,
                        k,
                        i,
                    ) ==> #[trigger] stored_entry(final(self).archives_view(), k, i)
                        == stored_entry(old(self).archives_view(), k, i)
            }),
    {
        let total = entries.len();
        let max = self.max_active_entries;
        if total <= max {
            proof {
                assert(entries@.subrange(0, entries@.len() as int) =~= entries@);
                assert forall|k: Seq<char>, i: Seq<char>|
                    !#[trigger] moved_key_id(entries@.subrange(0, 0), *now, k, i) by {
                    if moved_key_id(entries@.subrange(0, 0), *now, k, i) {
                        let j = choose|j: int|
                            0 <= j < entries@.subrange(0, 0).len() && entry_date_key(
                                #[trigger] entries@.subrange(0, 0)[j],
                                *now,
                            ) == k && entries@.subrange(0, 0)[j].id@ == i;
                    }
                }
                assert forall|i: Seq<char>| !#[trigger] has_id(entries@.subrange(0, 0), i) by {
                    if has_id(entries@.subrange(0, 0), i) {
                        let j = choose|j: int|
                            0 <= j < entries@.subrange(0, 0).len() && (#[trigger] entries@.subrange(
                                0,
                                0,
                            )[j]).id@ == i;
                    }
                }
            }
            return entries;
        }
        let overflow = total - max;
        let mut moving = entries;
        let kept = moving.split_off(overflow);
        let ghost moved = moving@;
        let mut t: usize = 0;
        while t < overflow
            invariant
                0 <= t <= overflow,
                overflow == moved.len(),
                moving@ == moved.subrange(t as int, overflow as int),
                entries_wf(moved),
                now.valid(),
                self.wf(),
                self.base_dir_view() == old(self).base_dir_view(),
                self.max_entries_view() == old(self).max_entries_view(),
                self.image_files_view() == old(self).image_files_view(),
                self.active_view() == old(self).active_view(),
                forall|i: Seq<char>|
                    #[trigger] archives_have_id(self.archives_view(), i) == (archives_have_id(
                        old(self).archives_view(),
                        i,
                    ) || has_id(moved.subrange(0, t as int), i)),
                forall|k: Seq<char>, i: Seq<char>|
                    #[trigger] archives_key_has_id(self.archives_view(), k, i) == (
                    archives_key_has_id(old(self).archives_view(), k, i) || moved_key_id(
                        moved.subrange(0, t as int),
                        *now,
                        k,
                        i,
                    )),
                forall|k: Seq<char>, i: Seq<char>|
                    moved_key_id(moved.subrange(0, t as int), *now, k, i) ==> #[trigger] stored_entry(
                        self.archives_view(),
                        k,
                        i,
                    ) == moved[last_pair_index(moved.subrange(0, t as int), *now, k, i)],
                forall|k: Seq<char>, i: Seq<char>|
                    archives_key_has_id(old(self).archives_view(), k, i) && !moved_key_id(
                        moved.subrange(0, t as int),
                        *now,
                        k,
                        i,
                    ) ==> #[trigger] stored_entry(self.archives_view(), k, i) == stored_entry(
                        old(self).archives_view(),
                        k,
                        i,
                    ),
            decreases overflow - t,
        {
            proof {
                assert(moved.subrange(t as int, overflow as int)[0] == moved[t as int]);
                assert(moving@.drop_first() =~= moved.subrange(t + 1, overflow as int));
                assert(entry_wf(moved[t as int]));
            }
            let ghost em = moved[t as int];
            let e = vec_remove_front(&mut moving);
            let key = Self::date_key_of_entry(&e, now);
            let ghost prearch = self.archives_view();
            self.insert_into_archive(key, e);
            proof {
                lemma_moved_extend(moved, t as int, *now);
                let prefix = moved.subrange(0, t as int);
                let prefix1 = moved.subrange(0, t + 1);
                assert(prefix1 =~= prefix.push(em));
                let kt = entry_date_key(em, *now);
                assert forall|k2: Seq<char>, i2: Seq<char>|
                    moved_key_id(prefix1, *now, k2, i2) implies #[trigger] stored_entry(
                    self.archives_view(),
                    k2,
                    i2,
                ) == moved[last_pair_index(prefix1, *now, k2, i2)] by {
                    lemma_last_pair_push(prefix, em, *now, k2, i2);
                    if k2 == kt && i2 == em.id@ {
                        assert(stored_entry(self.archives_view(), k2, i2) == em);
                        assert(last_pair_index(prefix1, *now, k2, i2) == t);
                    } else {
                        assert(moved_key_id(prefix, *now, k2, i2));
                        assert(archives_key_has_id(prearch, k2, i2));
                        assert(stored_entry(self.archives_view(), k2, i2) == stored_entry(
                            prearch,
                            k2,
                            i2,
                        ));
                        assert(last_pair_index(prefix1, *now, k2, i2) == last_pair_index(
                            prefix,
                            *now,
                            k2,
                            i2,
                        ));
                    }
                }
                assert forall|k2: Seq<char>, i2: Seq<char>|
                    archives_key_has_id(old(self).archives_view(), k2, i2) && !moved_key_id(
                    prefix1,
                    *now,
                    k2,
                    i2,
                ) implies #[trigger] stored_entry(self.archives_view(), k2, i2) == stored_entry(
                    old(self).archives_view(),
                    k2,
                    i2,
                ) by {
                    lemma_last_pair_push(prefix, em, *now, k2, i2);
                    assert(!(k2 == kt && i2 == em.id@));
                    assert(!moved_key_id(prefix, *now, k2, i2));
                    assert(stored_entry(self.archives_view(), k2, i2) == stored_entry(
                        prearch,
                        k2,
                        i2,
                    ));
                }
            }
            t = t + 1;
        }
        proof {
            assert(moved.subrange(0, overflow as int) =~= moved);
            assert(moved =~= entries@.subrange(0, overflow as int));
        }
        kept
    }
}

/// The id and timestamp built for a reading begin and end with digits,
/// so they trim to themselves.
proof fn lemma_generated_parts_trimmed(t: ClockTime, n: int)
    requires
        t.valid(),
        n >= 1,
    ensures
        trim_view(with_seq(t, n)) == with_seq(t, n),
        with_seq(t, n).len() > 0,
        trim_view(display_ts_view(t)) == display_ts_view(t),
        display_ts_view(t).len() > 0,
{
    crate::text::lemma_dec_pad_all_digits(t.year as int, 4);
    crate::text::lemma_dec_pad_all_digits(t.month as int, 2);
    crate::text::lemma_dec_pad_all_digits(t.day as int, 2);
    crate::text::lemma_dec_pad_all_digits(t.hour as int, 2);
    crate::text::lemma_dec_pad_all_digits(t.minute as int, 2);
    crate::text::lemma_dec_pad_all_digits(t.second as int, 2);
    crate::text::lemma_dec_pad_all_digits(n, 4);
    crate::text::lemma_dec_pad_len(t.year as int, 4);
    crate::text::lemma_dec_pad_len(t.second as int, 2);
    crate::text::lemma_dec_pad_len(n, 4);
    crate::text::lemma_dec_str_len(t.year as int);
    crate::text::lemma_dec_str_len(t.second as int);
    crate::text::lemma_dec_str_len(n);
    let id = with_seq(t, n);
    let y = dec_pad(t.year as int, 4);
    let p = dec_pad(n, 4);
    assert(id[0] == y[0]);
    assert(crate::text::is_dec_digit(y[0]));
    assert(id[id.len() - 1] == p[p.len() - 1]);
    assert(crate::text::is_dec_digit(p[p.len() - 1]));
    crate::text::lemma_digit_not_space(y[0]);
    crate::text::lemma_digit_not_space(p[p.len() - 1]);
    crate::text::lemma_trim_noop(id);
    let ts = display_ts_view(t);
    let sec = dec_pad(t.second as int, 2);
    assert(ts[0] == y[0]);
    assert(ts[ts.len() - 1] == sec[sec.len() - 1]);
    assert(crate::text::is_dec_digit(sec[sec.len() - 1]));
    crate::text::lemma_digit_not_space(sec[sec.len() - 1]);
    crate::text::lemma_trim_noop(ts);
}

impl HistoryStore {
    /// Appends a prompt to the active log under a fresh time-based id,
    /// then rotates overflow entries into the day-keyed archives.
    pub fn append_history(&mut self, prompt: &str, now: ClockTime) -> (r: Result<
        HistoryEntry,
        HistoryError,
    >)
        requires
            old(self).wf(),
            now.valid(),
        ensures
            final(self).wf(),
            final(self).base_dir_view() == old(self).base_dir_view(),
            final(self).max_entries_view() == old(self).max_entries_view(),
            final(self).image_files_view() == old(self).image_files_view(),
            r is Err <==> is_blank(prompt@),
            r is Err ==> r == Result::<HistoryEntry, HistoryError>::Err(HistoryError::EmptyPrompt)
                && final(self).active_view() == old(self).active_view()
                && final(self).archives_view() == old(self).archives_view(),
            r is Ok && old(self).active_view().len() + 1 <= old(self).max_entries_view() ==> final(self).archives_view() == old(self).archives_view(),
            r is Ok ==> ({
                let e = r.unwrap();
                let total = old(self).active_view().len() + 1;
                let ov = if total > old(self).max_entries_view() {
                    total - old(self).max_entries_view()
                } else {
                    0
                };
                &&& e.prompt@ == trim_view(prompt@)
                &&& e.ts@ == display_ts_view(now)
                &&& e.images@.len() == 0
                &&& generated_id(old(self).active_view(), now, e.id@)
                &&& entry_wf(e)
                &&& (old(self).active_view().len() + 1 <= 0x7fff_ffff ==> !has_id(
                    old(self).active_view(),
                    e.id@,
                ))
                &&& final(self).active_view().len() == total - ov
                &&& (forall|k: int|
                    0 <= k && k + ov < old(self).active_view().len() ==> #[trigger] final(self).active_view()[k] == old(self).active_view()[k + ov])
                &&& final(self).active_view()[final(self).active_view().len() - 1].id@ == e.id@
                &&& final(self).active_view()[final(self).active_view().len() - 1].ts@ == e.ts@
                &&& final(self).active_view()[final(self).active_view().len() - 1].prompt@
                    == e.prompt@
                &&& final(self).active_view()[final(self).active_view().len() - 1].images@.len()
                    == 0
                &&& (forall|x: Seq<char>|
                    #[trigger] final(self).contains_id(x) == (old(self).contains_id(x) || x
                        == e.id@))
                &&& (forall|k: Seq<char>, x: Seq<char>|
                    moved_key_id(old(self).active_view().subrange(0, ov), now, k, x)
                        ==> #[trigger] stored_entry(final(self).archives_view(), k, x) == old(
                        self,
                    ).active_view().subrange(0, ov)[last_pair_index(
                        old(self).active_view().subrange(0, ov),
                        now,
                        k,
                        x,
                    )])
                &&& (forall|k: Seq<char>, x: Seq<char>|
                    archives_key_has_id(old(self).archives_view(), k, x) && !moved_key_id(
                        old(self).active_view().subrange(0, ov),
                        now,
                        k,
                        x,
                    ) ==> #[trigger] stored_entry(final(self).archives_view(), k, x)
                        == stored_entry(old(self).archives_view(), k, x))
            }),
    {
        let cleaned = trim_str(prompt);
        if cleaned.unicode_len() == 0 {
            return Err(HistoryError::EmptyPrompt);
        }
        let id = Self::next_entry_id(&self.active, &now);
        let ts = crate::clock::format_display_ts(&now);
        proof {
            let n = choose|n: int|
                {
                    &&& 1 <= n
                    &&& id@ == #[trigger] with_seq(now, n)
                    &&& !seq_used(self.active@, id_base_view(now), n)
                    &&& forall|m: int| 1 <= m < n ==> seq_used(self.active@, id_base_view(now), m)
                };
            lemma_generated_parts_trimmed(now, n);
            crate::text::lemma_trim_trimmed(prompt@);
        }
        let stored = HistoryEntry {
            id: id.clone(),
            ts: ts.clone(),
            prompt: cleaned.clone(),
            images: Vec::new(),
        };
        let returned = HistoryEntry { id, ts, prompt: cleaned, images: Vec::new() };
        let ghost pre_active = self.active@;
        self.active.push(stored);
        let mut taken: Vec<HistoryEntry> = Vec::new();
        std::mem::swap(&mut taken, &mut self.active);
        proof {
            assert(entries_wf(taken@)) by {
                assert forall|k: int| 0 <= k < taken@.len() implies entry_wf(
                    #[trigger] taken@[k],
                ) by {
                    if k < pre_active.len() {
                        assert(taken@[k] == pre_active[k]);
                        assert(entry_wf(pre_active[k]));
                    }
                }
            }
        }
        let kept = self.rotate_if_needed(taken, &now);
        self.active = kept;
        proof {
            lemma_has_id_push(pre_active, taken@[pre_active.len() as int]);
            let total = pre_active.len() as int + 1;
            let ov = if total > old(self).max_entries_view() {
                total - old(self).max_entries_view()
            } else {
                0int
            };
            lemma_has_id_split(taken@, ov);
            assert(taken@.subrange(ov, total) == self.active@);
            assert(self.active@[self.active@.len() - 1] == taken@[total - 1]);
            let newid = taken@[pre_active.len() as int].id@;
            assert(taken@.subrange(0, ov) =~= pre_active.subrange(0, ov));
            assert forall|x: Seq<char>|
                #[trigger] self.contains_id(x) == (old(self).contains_id(x) || x == newid) by {
                assert(has_id(taken@, x) == (has_id(taken@.subrange(0, ov), x) || has_id(
                    taken@.subrange(ov, total),
                    x,
                )));
                assert(has_id(taken@, x) == (has_id(pre_active, x) || x == newid));
                assert(archives_have_id(self.archives_view(), x) == (archives_have_id(
                    old(self).archives_view(),
                    x,
                ) || has_id(taken@.subrange(0, ov), x)));
            }
        }
        Ok(returned)
    }
}

/// A path separator: forward slash, or backslash as on Windows.
pub open spec fn sep_char(c: char) -> bool {
    c == '/' || c == '\\'
}

fn is_sep(c: char) -> (r: bool)
    ensures
        r == sep_char(c),
{
    c == '/' || c == '\\'
}

/// The index of the first separator, or the length when there is none.
pub open spec fn first_sep(s: Seq<char>) -> int
    decreases s.len(),
{
    if s.len() == 0 {
        0
    } else if sep_char(s[0]) {
        0
    } else {
        1 + first_sep(s.drop_first())
    }
}

proof fn lemma_first_sep_bounds(s: Seq<char>)
    ensures
        0 <= first_sep(s) <= s.len(),
        forall|k: int| 0 <= k < first_sep(s) ==> !sep_char(s[k]),
        first_sep(s) < s.len() ==> sep_char(s[first_sep(s)]),
    decreases s.len(),
{
    if s.len() > 0 && !sep_char(s[0]) {
        let t = s.drop_first();
        lemma_first_sep_bounds(t);
        assert forall|k: int| 0 <= k < first_sep(s) implies !sep_char(s[k]) by {
            if k > 0 {
                assert(s[k] == t[k - 1]);
                assert(!sep_char(t[k - 1]));
            }
        }
    }
}

#[via_fn]
proof fn segments_view_decreases(s: Seq<char>) {
    lemma_first_sep_bounds(s);
}

/// The non-empty segments of a path, split at separators.
pub open spec fn segments_view(s: Seq<char>) -> Seq<Seq<char>>
    decreases s.len(),
    via segments_view_decreases
{
    if s.len() == 0 {
        Seq::empty()
    } else if sep_char(s[0]) {
        segments_view(s.drop_first())
    } else {
        let i = first_sep(s);
        seq![s.subrange(0, i)] + segments_view(s.subrange(i, s.len() as int))
    }
}

/// Splits a path into its non-empty segments.
fn path_segments(s: &str) -> (r: Vec<String>)
    ensures
        r@.map_values(|p: String| p@) == segments_view(s@),
{
    let n = s.unicode_len();
    let mut out: Vec<String> = Vec::new();
    let mut i: usize = 0;
    proof {
        assert(s@.subrange(0, n as int) =~= s@);
        assert(out@.map_values(|p: String| p@) =~= Seq::<Seq<char>>::empty());
    }
    while i < n
        invariant
            0 <= i <= n,
            n == s@.len(),
            segments_view(s@) == out@.map_values(|p: String| p@) + segments_view(
                s@.subrange(i as int, n as int),
            ),
        decreases n - i,
    {
        let ghost suf = s@.subrange(i as int, n as int);
        proof {
            assert(suf[0] == s@[i as int]);
            assert(suf.drop_first() =~= s@.subrange(i + 1, n as int));
        }
        if is_sep(s.get_char(i)) {
            i = i + 1;
        } else {
            let start = i;
            let mut j = i + 1;
            while j < n && !is_sep(s.get_char(j))
                invariant
                    start < j <= n,
                    n == s@.len(),
                    forall|k: int| start <= k < j ==> !sep_char(s@[k]),
                decreases n - j,
            {
                j = j + 1;
            }
            let part = String::from_str(s.substring_char(start, j));
            proof {
                lemma_first_sep_bounds(suf);
                assert forall|k: int| 0 <= k < j - start implies !sep_char(suf[k]) by {
                    assert(suf[k] == s@[i + k]);
                }
                if j < n {
                    assert(suf[j - start] == s@[j as int]);
                }
                if first_sep(suf) < j - start {
                    assert(!sep_char(suf[first_sep(suf)]));
                }
                if first_sep(suf) > j - start {
                    assert(j < n);
                    assert(!sep_char(suf[j - start]));
                }
                assert(first_sep(suf) == j - start);
                assert(part@ =~= suf.subrange(0, j - start));
                assert(suf.subrange(j - start, suf.len() as int) =~= s@.subrange(
                    j as int,
                    n as int,
                ));
                assert((out@.push(part)).map_values(|p: String| p@) =~= out@.map_values(
                    |p: String| p@,
                ).push(part@));
                assert(out@.map_values(|p: String| p@) + (seq![part@] + segments_view(
                    s@.subrange(j as int, n as int),
                )) =~= out@.map_values(|p: String| p@).push(part@) + segments_view(
                    s@.subrange(j as int, n as int),
                ));
            }
            out.push(part);
            i = j;
        }
    }
    proof {
        assert(s@.subrange(n as int, n as int) =~= Seq::<char>::empty());
        assert(out@.map_values(|p: String| p@) + Seq::<Seq<char>>::empty() =~= out@.map_values(
            |p: String| p@,
        ));
    }
    out
}

/// The index of the last dot, or minus one when there is none.
pub open spec fn last_dot_index(s: Seq<char>) -> int
    decreases s.len(),
{
    if s.len() == 0 {
        -1
    } else if s[s.len() - 1] == '.' {
        s.len() - 1
    } else {
        last_dot_index(s.drop_last())
    }
}

/// The extension of a file name: what follows the last dot of its final
/// path segment, none when there is no dot or the name starts with it.
pub open spec fn ext_of(path: Seq<char>) -> Option<Seq<char>> {
    let segs = segments_view(path);
    if segs.len() == 0 {
        None
    } else {
        let name = segs.last();
        let d = last_dot_index(name);
        if d <= 0 {
            None
        } else {
            Some(name.subrange(d + 1, name.len() as int))
        }
    }
}

proof fn lemma_last_dot_bounds(s: Seq<char>)
    ensures
        -1 <= last_dot_index(s) < s.len(),
        last_dot_index(s) >= 0 ==> s[last_dot_index(s)] == '.',
        forall|k: int| last_dot_index(s) < k < s.len() ==> s[k] != '.',
    decreases s.len(),
{
    if s.len() > 0 && s[s.len() - 1] != '.' {
        let t = s.drop_last();
        lemma_last_dot_bounds(t);
        assert forall|k: int| last_dot_index(s) < k < s.len() implies s[k] != '.' by {
            if k < s.len() - 1 {
                assert(s[k] == t[k]);
            }
        }
    }
}

/// The extension of the final segment of a path, lower-cased and without
/// the dot; none when there is no usable extension.
fn extension_of(path: &str) -> (r: Option<String>)
    ensures
        match r {
            Some(e) => ext_of(path@) is Some && e@ == crate::text::lower_view(
                ext_of(path@).unwrap(),
            ),
            None => ext_of(path@) is None,
        },
{
    let segs = path_segments(path);
    if segs.len() == 0 {
        return None;
    }
    let name: &String = &segs[segs.len() - 1];
    let ghost namev = segments_view(path@).last();
    proof {
        assert(segs@.map_values(|p: String| p@)[segs@.len() - 1] == name@);
    }
    let nlen = name.as_str().unicode_len();
    let mut d: usize = nlen;
    // find one past the last dot
    while d > 0 && name.as_str().get_char(d - 1) != '.'
        invariant
            0 <= d <= nlen,
            nlen == name@.len(),
            forall|k: int| d <= k < nlen ==> name@[k] != '.',
        decreases d,
    {
        d = d - 1;
    }
    proof {
        lemma_last_dot_bounds(name@);
        if d == 0 {
            assert(last_dot_index(name@) == -1) by {
                if last_dot_index(name@) >= 0 {
                    assert(name@[last_dot_index(name@)] != '.');
                }
            }
        } else {
            assert(name@[d - 1] == '.');
            assert(last_dot_index(name@) == d - 1) by {
                if last_dot_index(name@) > d - 1 {
                    assert(name@[last_dot_index(name@)] != '.');
                }
                if last_dot_index(name@) < d - 1 {
                    assert(name@[d - 1] != '.');
                }
            }
        }
    }
    if d <= 1 {
        return None;
    }
    let raw = name.as_str().substring_char(d, nlen);
    proof {
        assert(raw@ =~= name@.subrange(d as int, nlen as int));
    }
    Some(crate::text::lower_ascii(raw))
}

/// The formatted extension of an upload: a dot plus the lower-cased
/// extension of the source name.
pub open spec fn upload_ext_view(source_name: Seq<char>) -> Option<Seq<char>> {
    match ext_of(source_name) {
        Some(e) => Some("."@ + crate::text::lower_view(e)),
        None => None,
    }
}

/// The image extensions the store accepts.
pub open spec fn allowed_ext(e: Seq<char>) -> bool {
    e == ".png"@ || e == ".jpg"@ || e == ".jpeg"@ || e == ".webp"@
}

/// The largest accepted image, in bytes.
pub const MAX_IMAGE_BYTES: usize = 20 * 1024 * 1024;

/// Whether an id starts with the `YYYYMMDD_HHMMSS` shape its date and
/// time can be read from.
pub open spec fn id_time_shape(id: Seq<char>) -> bool {
    id.len() >= 15 && all_digits(id.subrange(0, 8)) && id[8] == '_' && all_digits(
        id.subrange(9, 15),
    )
}

/// The name base of an entry's image files: the date and time read from
/// the entry's id, falling back to the current reading when the id does
/// not carry them.
pub open spec fn image_name_base(id: Seq<char>, now: ClockTime) -> Seq<char> {
    if id_time_shape(id) {
        id.subrange(0, 15)
    } else {
        id_base_view(now)
    }
}

/// The relative path an image is stored under: the month tree of the
/// upload time, then the name base with a two-digit sequence.
pub open spec fn image_rel_path_view(t: ClockTime, base: Seq<char>, n: int, ext: Seq<char>) -> Seq<
    char,
> {
    "images/"@ + dec_pad(t.year as int, 4) + "/"@ + dec_pad(t.month as int, 2) + "/"@ + base
        + "_"@ + dec_pad(n, 2) + ext
}

/// A path is already taken by an issued image file.
pub open spec fn image_path_used(files: Seq<Seq<char>>, p: Seq<char>) -> bool {
    exists|k: int| 0 <= k < files.len() && files[k] == p
}

/// `p` is the image path the store issues next: it carries some
/// positive sequence number and, as long as fewer files were issued than
/// the numbers can count, the smallest free one.
pub open spec fn fresh_image_path(
    files: Seq<Seq<char>>,
    t: ClockTime,
    base: Seq<char>,
    ext: Seq<char>,
    p: Seq<char>,
) -> bool {
    exists|m: int|
        1 <= m && p == #[trigger] image_rel_path_view(t, base, m, ext) && (files.len() + 1
            <= 0x7fff_ffff ==> (!image_path_used(files, p) && forall|m2: int|
                1 <= m2 < m ==> image_path_used(files, image_rel_path_view(t, base, m2, ext))))
}

/// Distinct sequence numbers give distinct image paths.
proof fn lemma_image_path_injective(t: ClockTime, base: Seq<char>, n1: int, n2: int, ext: Seq<char>)
    requires
        n1 >= 0,
        n2 >= 0,
        image_rel_path_view(t, base, n1, ext) == image_rel_path_view(t, base, n2, ext),
    ensures
        n1 == n2,
{
    let p1 = image_rel_path_view(t, base, n1, ext);
    let p2 = image_rel_path_view(t, base, n2, ext);
    let head = "images/"@ + dec_pad(t.year as int, 4) + "/"@ + dec_pad(t.month as int, 2) + "/"@
        + base + "_"@;
    crate::text::lemma_dec_pad_len(n1, 2);
    crate::text::lemma_dec_pad_len(n2, 2);
    crate::text::lemma_dec_str_len(n1);
    crate::text::lemma_dec_str_len(n2);
    assert(p1.len() == head.len() + dec_pad(n1, 2).len() + ext.len());
    assert(p2.len() == head.len() + dec_pad(n2, 2).len() + ext.len());
    assert(dec_pad(n1, 2).len() == dec_pad(n2, 2).len());
    assert(dec_pad(n1, 2) =~= p1.subrange(
        head.len() as int,
        head.len() + dec_pad(n1, 2).len() as int,
    ));
    assert(dec_pad(n2, 2) =~= p2.subrange(
        head.len() as int,
        head.len() + dec_pad(n2, 2).len() as int,
    ));
    crate::text::lemma_dec_val_pad(n1, 2);
    crate::text::lemma_dec_val_pad(n2, 2);
}

/// Some sequence number up to one past the issued-file count is free.
proof fn lemma_some_image_seq_free(
    files: Seq<Seq<char>>,
    t: ClockTime,
    base: Seq<char>,
    ext: Seq<char>,
)
    ensures
        exists|m: int|
            1 <= m <= files.len() + 1 && !#[trigger] image_path_used(
                files,
                image_rel_path_view(t, base, m, ext),
            ),
{
    let bound = files.len() as int + 1;
    if forall|m: int|
        1 <= m <= bound ==> #[trigger] image_path_used(
            files,
            image_rel_path_view(t, base, m, ext),
        ) {
        let f = |m: int|
            choose|k: int|
                0 <= k < files.len() && files[k] == image_rel_path_view(t, base, m, ext);
        let numbers = vstd::set_lib::set_int_range(1, bound + 1);
        vstd::set_lib::lemma_int_range(1, bound + 1);
        assert forall|m1: int, m2: int|
            numbers.contains(m1) && numbers.contains(m2) && #[trigger] f(m1) == #[trigger] f(
                m2,
            ) implies m1 == m2 by {
            assert(image_path_used(files, image_rel_path_view(t, base, m1, ext)));
            assert(image_path_used(files, image_rel_path_view(t, base, m2, ext)));
            let k1 = f(m1);
            let k2 = f(m2);
            assert(files[k1] == image_rel_path_view(t, base, m1, ext));
            assert(files[k2] == image_rel_path_view(t, base, m2, ext));
            lemma_image_path_injective(t, base, m1, m2, ext);
        }
        let image = numbers.map(f);
        vstd::set_lib::lemma_map_size(numbers, image, f);
        let indexes = vstd::set_lib::set_int_range(0, files.len() as int);
        vstd::set_lib::lemma_int_range(0, files.len() as int);
        assert(image.subset_of(indexes)) by {
            assert forall|x: int| image.contains(x) implies indexes.contains(x) by {
                let m = choose|m: int| numbers.contains(m) && #[trigger] f(m) == x;
                assert(image_path_used(files, image_rel_path_view(t, base, m, ext)));
                assert(files[f(m)] == image_rel_path_view(t, base, m, ext));
            }
        }
        vstd::set_lib::lemma_len_subset(image, indexes);
    }
}

/// Reads the image name base from an id, per `image_name_base`.
fn name_base_of(id: &str, now: &ClockTime) -> (r: String)
    requires
        now.valid(),
    ensures
        r@ == image_name_base(id@, *now),
{
    let n = id.unicode_len();
    if n >= 15 {
        let date = id.substring_char(0, 8);
        let time = id.substring_char(9, 15);
        proof {
            assert(date@ =~= id@.subrange(0, 8));
            assert(time@ =~= id@.subrange(9, 15));
        }
        if crate::text::all_digits_str(date) && id.get_char(8) == '_'
            && crate::text::all_digits_str(time) {
            let head = id.substring_char(0, 15);
            proof {
                assert(head@ =~= id@.subrange(0, 15));
            }
            return String::from_str(head);
        }
    }
    proof {
        assert(!id_time_shape(id@));
    }
    crate::clock::format_id_base(now)
}

/// A current- or parent-directory path segment.
pub open spec fn dotted_seg(s: Seq<char>) -> bool {
    s == "."@ || s == ".."@
}

/// The media type inferred from a path's extension; unknown extensions
/// get the generic binary type.
pub open spec fn content_type_view(path: Seq<char>) -> Seq<char> {
    match ext_of(path) {
        Some(e) => {
            let l = crate::text::lower_view(e);
            if l == "png"@ {
                "image/png"@
            } else if l == "jpg"@ || l == "jpeg"@ {
                "image/jpeg"@
            } else if l == "webp"@ {
                "image/webp"@
            } else {
                "application/octet-stream"@
            }
        },
        None => "application/octet-stream"@,
    }
}

/// The media type of an image path, by its extension.
pub fn image_content_type(path: &str) -> (r: &'static str)
    ensures
        r@ == content_type_view(path@),
{
    if let Some(e) = extension_of(path) {
        if str_eq(e.as_str(), "png") {
            "image/png"
        } else if str_eq(e.as_str(), "jpg") || str_eq(e.as_str(), "jpeg") {
            "image/jpeg"
        } else if str_eq(e.as_str(), "webp") {
            "image/webp"
        } else {
            "application/octet-stream"
        }
    } else {
        "application/octet-stream"
    }
}

/// The segments of a path joined with forward slashes.
pub open spec fn posix_view(path: Seq<char>) -> Seq<char> {
    join_segments(segments_view(path))
}

pub open spec fn join_segments(segs: Seq<Seq<char>>) -> Seq<char>
    decreases segs.len(),
{
    if segs.len() == 0 {
        Seq::empty()
    } else if segs.len() == 1 {
        segs[0]
    } else {
        segs[0] + "/"@ + join_segments(segs.drop_first())
    }
}

/// Rewrites a path with forward slashes between its segments.
pub fn path_to_posix(path: &str) -> (r: String)
    ensures
        r@ == posix_view(path@),
{
    let segs = path_segments(path);
    let n = segs.len();
    let mut out = String::new();
    let mut i: usize = n;
    while i > 0
        invariant
            0 <= i <= n,
            n == segs@.len(),
            segs@.map_values(|p: String| p@) == segments_view(path@),
            out@ == join_segments(segments_view(path@).subrange(i as int, n as int)),
        decreases i,
    {
        i = i - 1;
        let ghost suf = segments_view(path@).subrange(i as int, n as int);
        proof {
            assert(suf[0] == segments_view(path@)[i as int]);
            assert(segments_view(path@)[i as int] == segs@[i as int]@);
            assert(suf.drop_first() =~= segments_view(path@).subrange(i + 1, n as int));
        }
        if i == n - 1 {
            out = segs[i].clone();
        } else {
            let mut t = segs[i].clone();
            t.append("/");
            t.append(out.as_str());
            out = t;
        }
    }
    proof {
        assert(segments_view(path@).subrange(0, n as int) =~= segments_view(path@));
    }
    out
}

impl HistoryStore {
    /// Checks an image path against the store's rules: it must be
    /// non-blank, relative, free of current- and parent-directory
    /// segments, and live under the reserved image root. On success the
    /// inferred media type is returned; the caller reads the bytes.
    pub fn read_image_blob(&self, image_path: &str) -> (r: Result<&'static str, HistoryError>)
        ensures
            ({
                let cleaned = trim_view(image_path@);
                let segs = segments_view(cleaned);
                match r {
                    Err(HistoryError::EmptyImagePath) => cleaned.len() == 0,
                    Err(HistoryError::AbsoluteImagePath) => cleaned.len() > 0 && sep_char(
                        cleaned[0],
                    ),
                    Err(HistoryError::InvalidImagePath) => cleaned.len() > 0 && !sep_char(
                        cleaned[0],
                    ) && (exists|k: int| 0 <= k < segs.len() && dotted_seg(#[trigger] segs[k])),
                    Err(HistoryError::ImagePathOutOfScope) => cleaned.len() > 0 && !sep_char(
                        cleaned[0],
                    ) && (forall|k: int|
                        0 <= k < segs.len() ==> !dotted_seg(#[trigger] segs[k])) && !(segs.len()
                        >= 2 && segs[0] == "images"@),
                    Err(_) => false,
                    Ok(ct) => {
                        &&& cleaned.len() > 0
                        &&& !sep_char(cleaned[0])
                        &&& forall|k: int| 0 <= k < segs.len() ==> !dotted_seg(#[trigger] segs[k])
                        &&& segs.len() >= 2
                        &&& segs[0] == "images"@
                        &&& ct@ == content_type_view(cleaned)
                    },
                }
            }),
    {
        let cleaned = trim_str(image_path);
        if cleaned.as_str().unicode_len() == 0 {
            return Err(HistoryError::EmptyImagePath);
        }
        if is_sep(cleaned.as_str().get_char(0)) {
            return Err(HistoryError::AbsoluteImagePath);
        }
        let segs = path_segments(cleaned.as_str());
        let n = segs.len();
        let mut k: usize = 0;
        while k < n
            invariant
                0 <= k <= n,
                n == segs@.len(),
                cleaned@ == trim_view(image_path@),
                cleaned@.len() > 0,
                !sep_char(cleaned@[0]),
                segs@.map_values(|p: String| p@) == segments_view(cleaned@),
                forall|j: int| 0 <= j < k ==> !dotted_seg(#[trigger] segments_view(cleaned@)[j]),
            decreases n - k,
        {
            proof {
                assert(segments_view(cleaned@)[k as int] == segs@[k as int]@);
            }
            if str_eq(segs[k].as_str(), ".") || str_eq(segs[k].as_str(), "..") {
                proof {
                    assert(dotted_seg(segments_view(cleaned@)[k as int]));
                }
                return Err(HistoryError::InvalidImagePath);
            }
            k = k + 1;
        }
        if n < 2 || !str_eq(segs[0].as_str(), "images") {
            proof {
                if n >= 1 {
                    assert(segments_view(cleaned@)[0] == segs@[0]@);
                }
            }
            return Err(HistoryError::ImagePathOutOfScope);
        }
        proof {
            assert(segments_view(cleaned@)[0] == segs@[0]@);
        }
        Ok(image_content_type(cleaned.as_str()))
    }

    /// Attaches an image to the entry with the given id: the extension
    /// must be one of the accepted four, the content must fit the size
    /// cap, and the id must exist. The returned relative path carries a
    /// fresh two-digit sequence number; the entry's image list is
    /// replaced by exactly this path, and earlier files stay on disk.
    #[verifier::rlimit(100)]
    #[verifier::spinoff_prover]
    pub fn append_image(
        &mut self,
        history_id: &str,
        source_name: &str,
        content: &[u8],
        now: ClockTime,
    ) -> (r: Result<String, HistoryError>)
        requires
            old(self).wf(),
            now.valid(),
        ensures
            final(self).wf(),
            final(self).base_dir_view() == old(self).base_dir_view(),
            final(self).max_entries_view() == old(self).max_entries_view(),
            r is Err ==> final(self).active_view() == old(self).active_view() && final(self).archives_view() == old(self).archives_view() && final(self).image_files_view() == old(self).image_files_view(),
            r == Result::<String, HistoryError>::Err(HistoryError::UnsupportedExtension) <==> !(
            upload_ext_view(source_name@) is Some && allowed_ext(upload_ext_view(
                source_name@,
            ).unwrap())),
            r == Result::<String, HistoryError>::Err(HistoryError::FileTooLarge) <==> (
            upload_ext_view(source_name@) is Some && allowed_ext(upload_ext_view(
                source_name@,
            ).unwrap()) && content@.len() > MAX_IMAGE_BYTES),
            r == Result::<String, HistoryError>::Err(HistoryError::IdNotFound) <==> (
            upload_ext_view(source_name@) is Some && allowed_ext(upload_ext_view(
                source_name@,
            ).unwrap()) && content@.len() <= MAX_IMAGE_BYTES && !old(self).contains_id(
                history_id@,
            )),
            (upload_ext_view(source_name@) is Some && allowed_ext(upload_ext_view(
                source_name@,
            ).unwrap()) && content@.len() <= MAX_IMAGE_BYTES && old(self).contains_id(
                history_id@,
            )) ==> r is Ok,
            r is Ok ==> allowed_ext(upload_ext_view(source_name@).unwrap())
                && content@.len() <= MAX_IMAGE_BYTES && old(self).contains_id(history_id@),
            r is Ok ==> fresh_image_path(
                old(self).image_files_view(),
                now,
                image_name_base(history_id@, now),
                upload_ext_view(source_name@).unwrap(),
                r.unwrap()@,
            ),
            r is Ok ==> final(self).image_files_view() == old(self).image_files_view().push(
                r.unwrap()@,
            ),
            r is Ok && has_id(old(self).active_view(), history_id@) ==> ({
                let i = first_id_index(old(self).active_view(), history_id@);
                &&& final(self).archives_view() == old(self).archives_view()
                &&& final(self).active_view().len() == old(self).active_view().len()
                &&& (forall|k: int|
                    0 <= k < final(self).active_view().len() && k != i ==> #[trigger] final(self).active_view()[k] == old(self).active_view()[k])
                &&& final(self).active_view()[i].id == old(self).active_view()[i].id
                &&& final(self).active_view()[i].ts == old(self).active_view()[i].ts
                &&& final(self).active_view()[i].prompt == old(self).active_view()[i].prompt
                &&& final(self).active_view()[i].images@.len() == 1
                &&& final(self).active_view()[i].images@[0]@ == r.unwrap()@
            }),
            r is Ok && !has_id(old(self).active_view(), history_id@) ==> ({
                let c = first_archive_with(old(self).archives_view(), history_id@);
                let i = first_id_index(old(self).archives_view()[c].entries@, history_id@);
                &&& final(self).active_view() == old(self).active_view()
                &&& final(self).archives_view().len() == old(self).archives_view().len()
                &&& (forall|k: int|
                    0 <= k < final(self).archives_view().len() && k != c ==> #[trigger] final(self).archives_view()[k] == old(self).archives_view()[k])
                &&& final(self).archives_view()[c].date_key == old(self).archives_view()[c].date_key
                &&& final(self).archives_view()[c].entries@.len() == old(self).archives_view()[c].entries@.len()
                &&& (forall|k: int|
                    0 <= k < final(self).archives_view()[c].entries@.len() && k != i
                        ==> #[trigger] final(self).archives_view()[c].entries@[k] == old(self).archives_view()[c].entries@[k])
                &&& final(self).archives_view()[c].entries@[i].id == old(self).archives_view()[c].entries@[i].id
                &&& final(self).archives_view()[c].entries@[i].ts == old(self).archives_view()[c].entries@[i].ts
                &&& final(self).archives_view()[c].entries@[i].prompt == old(self).archives_view()[c].entries@[i].prompt
                &&& final(self).archives_view()[c].entries@[i].images@.len() == 1
                &&& final(self).archives_view()[c].entries@[i].images@[0]@ == r.unwrap()@
            }),
    {
        let ext_ok: Option<String> = match extension_of(source_name) {
            Some(e) => {
                let mut dotted = String::from_str(".");
                dotted.append(e.as_str());
                if str_eq(dotted.as_str(), ".png") || str_eq(dotted.as_str(), ".jpg") || str_eq(
                    dotted.as_str(),
                    ".jpeg",
                ) || str_eq(dotted.as_str(), ".webp") {
                    Some(dotted)
                } else {
                    None
                }
            },
            None => None,
        };
        let ext = match ext_ok {
            Some(e) => e,
            None => {
                return Err(HistoryError::UnsupportedExtension);
            },
        };
        if content.len() > MAX_IMAGE_BYTES {
            return Err(HistoryError::FileTooLarge);
        }
        let base = name_base_of(history_id, &now);
        let rel = self.next_image_rel_path(&now, base.as_str(), ext.as_str());
        let location = self.find_entry_container(history_id);
        match location {
            None => Err(HistoryError::IdNotFound),
            Some((c, i)) => {
                let mut images: Vec<String> = Vec::new();
                images.push(rel.clone());
                proof {
                    assert(images@.map_values(|p: String| p@) =~= seq![rel@]);
                }
                if c == 0 {
                    let e = vec_index_mut(&mut self.active, i);
                    e.images = images;
                    proof {
                        assert(entries_wf(self.active@)) by {
                            assert forall|k: int|
                                0 <= k < self.active@.len() implies entry_wf(
                                #[trigger] self.active@[k],
                            ) by {
                                if k != i {
                                    assert(self.active@[k] == old(self).active@[k]);
                                }
                                assert(entry_wf(old(self).active@[k]));
                            }
                        }
                    }
                } else {
                    let arch = vec_index_mut(&mut self.archives, c - 1);
                    let e = vec_index_mut(&mut arch.entries, i);
                    e.images = images;
                    proof {
                        let cc = c - 1;
                        let oldarch = old(self).archives@[cc as int];
                        assert(archives_wf(self.archives@)) by {
                            assert forall|a: int, b: int|
                                0 <= a < b < self.archives@.len() implies #[trigger] lex_lt(
                                self.archives@[b].date_key@,
                                self.archives@[a].date_key@,
                            ) by {
                                assert(self.archives@[a].date_key == old(self).archives@[a].date_key);
                                assert(self.archives@[b].date_key == old(self).archives@[b].date_key);
                                assert(lex_lt(
                                    old(self).archives@[b].date_key@,
                                    old(self).archives@[a].date_key@,
                                ));
                            }
                            assert forall|k: int|
                                0 <= k < self.archives@.len() implies archive_wf(
                                #[trigger] self.archives@[k],
                            ) by {
                                assert(archive_wf(old(self).archives@[k]));
                                if k != cc {
                                    assert(self.archives@[k] == old(self).archives@[k]);
                                } else {
                                    let ne = self.archives@[k].entries@;
                                    let oe = oldarch.entries@;
                                    assert forall|m: int| 0 <= m < ne.len() implies entry_wf(
                                        #[trigger] ne[m],
                                    ) by {
                                        if m != i {
                                            assert(ne[m] == oe[m]);
                                        }
                                        assert(entry_wf(oe[m]));
                                    }
                                    assert forall|a: int, b: int|
                                        0 <= a < b < ne.len() implies #[trigger] lex_lt(
                                        ne[a].id@,
                                        ne[b].id@,
                                    ) by {
                                        assert(ne[a].id@ == oe[a].id@);
                                        assert(ne[b].id@ == oe[b].id@);
                                        assert(lex_lt(oe[a].id@, oe[b].id@));
                                    }
                                }
                            }
                        }
                    }
                }
                self.image_files.push(rel.clone());
                proof {
                    assert(self.image_files@.map_values(|p: String| p@) =~= old(self).image_files@.map_values(|p: String| p@).push(rel@));
                }
                Ok(rel)
            },
        }
    }

    /// Picks the first free relative path for an image of the given
    /// extension at the given time. As long as fewer files were issued
    /// than the sequence numbers can count, the number is the smallest
    /// free one.
    fn next_image_rel_path(&mut self, now: &ClockTime, base: &str, ext: &str) -> (r: String)
        requires
            old(self).wf(),
            now.valid(),
        ensures
            *final(self) == *old(self),
            fresh_image_path(old(self).image_files_view(), *now, base@, ext@, r@),
    {
        let len = self.image_files.len();
        let bound: u64 = if (len as u64) <= 0x7fff_fffe {
            len as u64
        } else {
            0x7fff_fffe
        };
        let mut n: u64 = 1;
        while n <= bound && Self::image_seq_in_use(&self.image_files, now, base, n, ext)
            invariant
                1 <= n <= bound + 1,
                bound == if (self.image_files@.len() as u64) <= 0x7fff_fffe {
                    self.image_files@.len() as u64
                } else {
                    0x7fff_fffe
                },
                *self == *old(self),
                now.valid(),
                forall|m2: int|
                    1 <= m2 < n ==> image_path_used(
                        self.image_files_view(),
                        image_rel_path_view(*now, base@, m2, ext@),
                    ),
            decreases bound + 1 - n,
        {
            n = n + 1;
        }
        proof {
            if self.image_files_view().len() + 1 <= 0x7fff_ffff {
                if n == bound + 1 {
                    lemma_some_image_seq_free(self.image_files_view(), *now, base@, ext@);
                    let m = choose|m: int|
                        1 <= m <= self.image_files_view().len() + 1 && !#[trigger] image_path_used(
                            self.image_files_view(),
                            image_rel_path_view(*now, base@, m, ext@),
                        );
                    assert(m == n);
                }
            }
        }
        self.build_image_rel_path(now, base, n, ext)
    }

    /// Whether the path for this sequence number was already issued.
    fn image_seq_in_use(files: &Vec<String>, now: &ClockTime, base: &str, n: u64, ext: &str) -> (r:
        bool)
        requires
            now.valid(),
        ensures
            r == image_path_used(
                files@.map_values(|p: String| p@),
                image_rel_path_view(*now, base@, n as int, ext@),
            ),
    {
        let mut out = String::from_str("images/");
        crate::text::push_dec_pad(&mut out, now.year as u64, 4);
        out.append("/");
        crate::text::push_dec_pad(&mut out, now.month as u64, 2);
        out.append("/");
        out.append(base);
        out.append("_");
        crate::text::push_dec_pad(&mut out, n, 2);
        out.append(ext);
        let m = files.len();
        let mut k: usize = 0;
        while k < m
            invariant
                0 <= k <= m,
                m == files@.len(),
                out@ == image_rel_path_view(*now, base@, n as int, ext@),
                forall|j: int| 0 <= j < k ==> (#[trigger] files@[j])@ != out@,
            decreases m - k,
        {
            proof {
                assert(files@.map_values(|p: String| p@)[k as int] == files@[k as int]@);
            }
            if str_eq(files[k].as_str(), out.as_str()) {
                proof {
                    assert(files@.map_values(|p: String| p@)[k as int] == out@);
                }
                return true;
            }
            k = k + 1;
        }
        proof {
            let fv = files@.map_values(|p: String| p@);
            if image_path_used(fv, out@) {
                let j = choose|j: int| 0 <= j < fv.len() && fv[j] == out@;
                assert(fv[j] == files@[j]@);
            }
        }
        false
    }

    /// Whether an image path was already issued.
    fn image_path_in_use(&self, p: &str) -> (r: bool)
        ensures
            r == image_path_used(self.image_files_view(), p@),
    {
        let m = self.image_files.len();
        let mut k: usize = 0;
        while k < m
            invariant
                0 <= k <= m,
                m == self.image_files@.len(),
                forall|j: int| 0 <= j < k ==> self.image_files_view()[j] != p@,
            decreases m - k,
        {
            proof {
                assert(self.image_files_view()[k as int] == self.image_files@[k as int]@);
            }
            if str_eq(self.image_files[k].as_str(), p) {
                return true;
            }
            k = k + 1;
        }
        proof {
            if image_path_used(self.image_files_view(), p@) {
                let j = choose|j: int|
                    0 <= j < self.image_files_view().len() && self.image_files_view()[j] == p@;
            }
        }
        false
    }

    /// Formats the relative image path for one sequence number.
    fn build_image_rel_path(&self, now: &ClockTime, base: &str, n: u64, ext: &str) -> (r: String)
        requires
            now.valid(),
        ensures
            r@ == image_rel_path_view(*now, base@, n as int, ext@),
    {
        let mut out = String::from_str("images/");
        crate::text::push_dec_pad(&mut out, now.year as u64, 4);
        out.append("/");
        crate::text::push_dec_pad(&mut out, now.month as u64, 2);
        out.append("/");
        out.append(base);
        out.append("_");
        crate::text::push_dec_pad(&mut out, n, 2);
        out.append(ext);
        out
    }
}

/// Removes and returns the first element.
fn vec_remove_front(v: &mut Vec<HistoryEntry>) -> (e: HistoryEntry)
    requires
        old(v).len() > 0,
    ensures
        e == old(v)@[0],
        final(v)@ == old(v)@.drop_first(),
{
    let e = v.remove(0);
    proof {
        assert(v@ =~= old(v)@.drop_first());
    }
    e
}

/// The trimmed form of a string is itself trimmed and, when the string
/// is non-blank, non-empty.
proof fn lemma_trim_trimmed_entry(s: Seq<char>)
    ensures
        trim_view(trim_view(s)) == trim_view(s),
{
    crate::text::lemma_trim_trimmed(s);
}

/// A position whose earlier archives all miss `id` and which holds `id`
/// is the first archive of `id`.
proof fn lemma_first_archive_found(archives: Seq<Archive>, id: Seq<char>, c: int)
    requires
        0 <= c < archives.len(),
        has_id(archives[c].entries@, id),
        forall|k: int| 0 <= k < c ==> !has_id((#[trigger] archives[k]).entries@, id),
    ensures
        first_archive_with(archives, id) == c,
        archives_have_id(archives, id),
{
    lemma_first_archive_with(archives, id);
    let f = first_archive_with(archives, id);
    assert(archives_have_id(archives, id));
    if f < c {
        assert(!has_id(archives[f].entries@, id));
    }
    if f > c {
        assert(!has_id(archives[c].entries@, id));
    }
}


/// The ghost model of an entry: its field views.
pub struct EntryModel {
    pub id: Seq<char>,
    pub ts: Seq<char>,
    pub prompt: Seq<char>,
    pub images: Seq<Seq<char>>,
}

pub open spec fn entry_model(e: HistoryEntry) -> EntryModel {
    EntryModel {
        id: e.id@,
        ts: e.ts@,
        prompt: e.prompt@,
        images: e.images@.map_values(|p: String| p@),
    }
}

pub open spec fn models_of(s: Seq<HistoryEntry>) -> Seq<EntryModel> {
    s.map_values(|e: HistoryEntry| entry_model(e))
}

/// The image list normalization: paths trimmed, blanks dropped, and a
/// legacy multi-image list collapsed to its most recent entry.
pub open spec fn kept_images(images: Seq<Seq<char>>) -> Seq<Seq<char>>
    decreases images.len(),
{
    if images.len() == 0 {
        images
    } else {
        let rest = kept_images(images.drop_first());
        if trim_view(images[0]).len() > 0 {
            seq![trim_view(images[0])] + rest
        } else {
            rest
        }
    }
}

pub open spec fn norm_images(images: Seq<Seq<char>>) -> Seq<Seq<char>> {
    let kept = kept_images(images);
    if kept.len() > 1 {
        seq![kept.last()]
    } else {
        kept
    }
}

/// An entry survives normalization when id, timestamp and prompt are all
/// non-blank.
pub open spec fn entry_kept(m: EntryModel) -> bool {
    trim_view(m.id).len() > 0 && trim_view(m.ts).len() > 0 && trim_view(m.prompt).len() > 0
}

pub open spec fn norm_entry(m: EntryModel) -> EntryModel {
    EntryModel {
        id: trim_view(m.id),
        ts: trim_view(m.ts),
        prompt: trim_view(m.prompt),
        images: norm_images(m.images),
    }
}

/// Normalizing a raw list: trim the fields, drop entries missing any of
/// them, collapse the image lists.
pub open spec fn norm_entries(s: Seq<EntryModel>) -> Seq<EntryModel>
    decreases s.len(),
{
    if s.len() == 0 {
        s
    } else {
        let rest = norm_entries(s.drop_first());
        if entry_kept(s[0]) {
            seq![norm_entry(s[0])] + rest
        } else {
            rest
        }
    }
}

/// Normalizes raw entries as they come from a parsed log file.
pub fn normalize_entries(raw: Vec<HistoryEntry>) -> (r: Vec<HistoryEntry>)
    ensures
        models_of(r@) == norm_entries(models_of(raw@)),
        entries_wf(r@),
{
    let ghost rm = models_of(raw@);
    let mut out: Vec<HistoryEntry> = Vec::new();
    let n = raw.len();
    let mut src = raw;
    let mut i: usize = 0;
    proof {
        assert(models_of(out@) =~= Seq::<EntryModel>::empty());
        assert(norm_entries(rm.subrange(0, 0)) =~= Seq::<EntryModel>::empty());
        assert(rm.subrange(0, n as int) =~= rm);
    }
    while i < n
        invariant
            0 <= i <= n,
            n == rm.len(),
            src@.len() == n - i,
            models_of(src@) == rm.subrange(i as int, n as int),
            norm_entries(rm) == models_of(out@) + norm_entries(rm.subrange(i as int, n as int)),
            entries_wf(out@),
        decreases n - i,
    {
        let ghost suf = rm.subrange(i as int, n as int);
        proof {
            assert(suf[0] == rm[i as int]);
            assert(suf.drop_first() =~= rm.subrange(i + 1, n as int));
            assert(models_of(src@)[0] == entry_model(src@[0]));
        }
        let ghost srcpre = src@;
        let e = vec_remove_front(&mut src);
        proof {
            assert forall|k: int|
                0 <= k < src@.len() implies models_of(src@)[k] == rm[i + 1 + k] by {
                assert(src@[k] == srcpre[k + 1]);
                assert(models_of(srcpre)[k + 1] == rm.subrange(i as int, n as int)[k + 1]);
            }
            assert(models_of(src@) =~= rm.subrange(i + 1, n as int));
        }
        let id = trim_str(e.id.as_str());
        let ts = trim_str(e.ts.as_str());
        let prompt = trim_str(e.prompt.as_str());
        if id.as_str().unicode_len() > 0 && ts.as_str().unicode_len() > 0
            && prompt.as_str().unicode_len() > 0 {
            let ghost imgs = entry_model(e).images;
            let m = e.images.len();
            let mut kept: Vec<String> = Vec::new();
            let mut j: usize = m;
            proof {
                assert(kept@.map_values(|p: String| p@) =~= Seq::<Seq<char>>::empty());
                assert(kept_images(imgs.subrange(m as int, m as int))
                    =~= Seq::<Seq<char>>::empty());
            }
            while j > 0
                invariant
                    0 <= j <= m,
                    m == e.images@.len(),
                    imgs == entry_model(e).images,
                    imgs.len() == m,
                    kept@.map_values(|p: String| p@) == kept_images(
                        imgs.subrange(j as int, m as int),
                    ),
                decreases j,
            {
                j = j - 1;
                let ghost isuf = imgs.subrange(j as int, m as int);
                proof {
                    assert(isuf[0] == imgs[j as int]);
                    assert(imgs[j as int] == e.images@[j as int]@);
                    assert(isuf.drop_first() =~= imgs.subrange(j + 1, m as int));
                }
                let t = trim_str(e.images[j].as_str());
                if t.as_str().unicode_len() > 0 {
                    let ghost kpre = kept@;
                    kept.insert(0, t);
                    proof {
                        assert(kept@.map_values(|p: String| p@) =~= seq![trim_view(
                            imgs[j as int],
                        )] + kpre.map_values(|p: String| p@));
                    }
                }
            }
            proof {
                assert(imgs.subrange(0, m as int) =~= imgs);
            }
            let images: Vec<String> = if kept.len() > 1 {
                let last = kept[kept.len() - 1].clone();
                let mut single: Vec<String> = Vec::new();
                single.push(last);
                proof {
                    assert(single@.map_values(|p: String| p@) =~= seq![kept_images(imgs).last()]);
                }
                single
            } else {
                kept
            };
            let ne = HistoryEntry { id, ts, prompt, images };
            proof {
                crate::text::lemma_trim_trimmed(srcpre[0].id@);
                crate::text::lemma_trim_trimmed(srcpre[0].ts@);
                crate::text::lemma_trim_trimmed(srcpre[0].prompt@);
                assert(entry_model(ne) == norm_entry(suf[0]));
                assert(entry_wf(ne));
            }
            let ghost outpre = out@;
            out.push(ne);
            proof {
                assert(models_of(out@) =~= models_of(outpre).push(norm_entry(suf[0])));
                assert(models_of(outpre) + (seq![norm_entry(suf[0])] + norm_entries(
                    suf.drop_first(),
                )) =~= models_of(out@) + norm_entries(suf.drop_first()));
            }
        } else {
            proof {
                assert(!entry_kept(suf[0]));
            }
        }
        i = i + 1;
    }
    proof {
        assert(rm.subrange(n as int, n as int) =~= Seq::<EntryModel>::empty());
        assert(norm_entries(Seq::<EntryModel>::empty()) =~= Seq::<EntryModel>::empty());
        assert(models_of(out@) + Seq::<EntryModel>::empty() =~= models_of(out@));
    }
    out
}

impl HistoryStore {
    /// Installs the active log read from disk, normalized.
    pub fn load_active(&mut self, raw: Vec<HistoryEntry>)
        requires
            old(self).wf(),
        ensures
            final(self).wf(),
            final(self).base_dir_view() == old(self).base_dir_view(),
            final(self).max_entries_view() == old(self).max_entries_view(),
            final(self).image_files_view() == old(self).image_files_view(),
            final(self).archives_view() == old(self).archives_view(),
            models_of(final(self).active_view()) == norm_entries(models_of(raw@)),
    {
        let cleaned = normalize_entries(raw);
        self.active = cleaned;
    }

    /// Installs one archive read from disk: entries are normalized and
    /// merged by id, and the archive lands at its ordered position. A
    /// key that is not an eight-digit date is refused.
    pub fn load_archive(&mut self, date_key: &str, raw: Vec<HistoryEntry>) -> (r: bool)
        requires
            old(self).wf(),
        ensures
            final(self).wf(),
            final(self).base_dir_view() == old(self).base_dir_view(),
            final(self).max_entries_view() == old(self).max_entries_view(),
            final(self).image_files_view() == old(self).image_files_view(),
            final(self).active_view() == old(self).active_view(),
            r == (date_key@.len() == 8 && all_digits(date_key@)),
            !r ==> final(self).archives_view() == old(self).archives_view(),
            r ==> ({
                let c = archive_insert_pos(old(self).archives_view(), date_key@);
                let replaced = c < old(self).archives_view().len() && old(
                    self,
                ).archives_view()[c].date_key@ == date_key@;
                &&& final(self).archives_view().len() as int == (if replaced {
                    old(self).archives_view().len() as int
                } else {
                    old(self).archives_view().len() as int + 1
                })
                &&& (forall|k: int|
                    0 <= k < c ==> #[trigger] final(self).archives_view()[k] == old(
                        self,
                    ).archives_view()[k])
                &&& final(self).archives_view()[c].date_key@ == date_key@
                &&& models_of(final(self).archives_view()[c].entries@) == merge_models(
                    norm_entries(models_of(raw@)),
                )
                &&& sorted_by_id(final(self).archives_view()[c].entries@)
                &&& (forall|k: int|
                    c < k < final(self).archives_view().len()
                        ==> #[trigger] final(self).archives_view()[k] == (if replaced {
                        old(self).archives_view()[k]
                    } else {
                        old(self).archives_view()[k - 1]
                    }))
            }),
    {
        let klen = date_key.unicode_len();
        if klen != 8 || !crate::text::all_digits_str(date_key) {
            return false;
        }
        let cleaned = normalize_entries(raw);
        let ghost cm = models_of(cleaned@);
        let mut merged: Vec<HistoryEntry> = Vec::new();
        let n = cleaned.len();
        let mut src = cleaned;
        let mut i: usize = 0;
        proof {
            assert(models_of(merged@) =~= Seq::<EntryModel>::empty());
            assert(cm.subrange(0, 0) =~= Seq::<EntryModel>::empty());
            assert forall|x: Seq<char>|
                #[trigger] has_id(merged@, x) == has_id_model(cm.subrange(0, 0), x) by {
                if has_id(merged@, x) {
                    let k = choose|k: int| 0 <= k < merged@.len() && (#[trigger] merged@[k]).id@ == x;
                }
                if has_id_model(cm.subrange(0, 0), x) {
                    let k = choose|k: int|
                        0 <= k < cm.subrange(0, 0).len() && (#[trigger] cm.subrange(0, 0)[k]).id
                            == x;
                }
            }
        }
        while i < n
            invariant
                0 <= i <= n,
                src@.len() == n - i,
                n == cm.len(),
                models_of(src@) == cm.subrange(i as int, n as int),
                entries_wf(src@),
                entries_wf(merged@),
                sorted_by_id(merged@),
                models_of(merged@) == merge_models_into(
                    Seq::<EntryModel>::empty(),
                    cm.subrange(0, i as int),
                ),
                forall|x: Seq<char>|
                    #[trigger] has_id(merged@, x) == has_id_model(cm.subrange(0, i as int), x),
            decreases n - i,
        {
            let ghost srcpre = src@;
            proof {
                assert(models_of(src@)[0] == entry_model(src@[0]));
                assert(entry_wf(src@[0]));
            }
            let e = vec_remove_front(&mut src);
            proof {
                assert forall|k: int|
                    0 <= k < src@.len() implies models_of(src@)[k] == cm[i + 1 + k] by {
                    assert(src@[k] == srcpre[k + 1]);
                    assert(models_of(srcpre)[k + 1] == cm.subrange(i as int, n as int)[k + 1]);
                }
                assert(models_of(src@) =~= cm.subrange(i + 1, n as int));
                assert forall|k: int| 0 <= k < src@.len() implies entry_wf(
                    #[trigger] src@[k],
                ) by {
                    assert(src@[k] == srcpre[k + 1]);
                }
                lemma_upsert(merged@, e);
            }
            let ghost mpre = merged@;
            let ghost em = entry_model(e);
            upsert_entry(&mut merged, e);
            proof {
                lemma_upsert_models(mpre, e);
                lemma_merge_push(Seq::<EntryModel>::empty(), cm.subrange(0, i as int), em);
                assert(cm.subrange(0, i + 1) =~= cm.subrange(0, i as int).push(em));
                assert(models_of(merged@) == merge_models_into(
                    Seq::<EntryModel>::empty(),
                    cm.subrange(0, i + 1),
                ));
                assert forall|x: Seq<char>|
                    #[trigger] has_id(merged@, x) == has_id_model(
                    cm.subrange(0, i + 1),
                    x,
                ) by {
                    assert(has_id(merged@, x) == (has_id(mpre, x) || x == em.id));
                    lemma_has_id_model_extend(cm, i as int, x);
                    assert(cm[i as int] == em);
                }
            }
            i = i + 1;
        }
        proof {
            assert(cm.subrange(0, n as int) =~= cm);
            assert(models_of(merged@) == merge_models(norm_entries(models_of(raw@))));
        }
        let ghost mergedm = models_of(merged@);
        let arch = Archive { date_key: String::from_str(date_key), entries: merged };
        let ghost archg = arch;
        self.insert_archive_sorted(arch);
        proof {
            assert(archg.date_key@ == date_key@);
            assert(models_of(archg.entries@) == mergedm);
            let c = archive_insert_pos(old(self).archives_view(), date_key@);
            assert(self.archives_view()[c] == archg);
        }
        true
    }

    /// Inserts a well-formed archive at its ordered position, replacing
    /// one that already carries the same key.
    fn insert_archive_sorted(&mut self, arch: Archive)
        requires
            old(self).wf(),
            archive_wf(arch),
        ensures
            final(self).wf(),
            final(self).base_dir_view() == old(self).base_dir_view(),
            final(self).max_entries_view() == old(self).max_entries_view(),
            final(self).image_files_view() == old(self).image_files_view(),
            final(self).active_view() == old(self).active_view(),
            forall|i: Seq<char>|
                #[trigger] archives_have_id(final(self).archives_view(), i) == (exists|j: int|
                    0 <= j < old(self).archives_view().len() && (#[trigger] old(self).archives_view()[j]).date_key@ != arch.date_key@ && has_id(
                        old(self).archives_view()[j].entries@,
                        i,
                    )) || has_id(arch.entries@, i),
            ({
                let c = archive_insert_pos(old(self).archives_view(), arch.date_key@);
                let replaced = c < old(self).archives_view().len() && old(
                    self,
                ).archives_view()[c].date_key@ == arch.date_key@;
                &&& final(self).archives_view().len() as int == (if replaced {
                    old(self).archives_view().len() as int
                } else {
                    old(self).archives_view().len() as int + 1
                })
                &&& (forall|k: int|
                    0 <= k < c ==> #[trigger] final(self).archives_view()[k] == old(
                        self,
                    ).archives_view()[k])
                &&& final(self).archives_view()[c] == arch
                &&& (forall|k: int|
                    c < k < final(self).archives_view().len()
                        ==> #[trigger] final(self).archives_view()[k] == (if replaced {
                        old(self).archives_view()[k]
                    } else {
                        old(self).archives_view()[k - 1]
                    }))
            }),
    {
        let n = self.archives.len();
        let mut c: usize = 0;
        while c < n && str_lt(arch.date_key.as_str(), &self.archives[c].date_key)
            invariant
                0 <= c <= n,
                n == self.archives@.len(),
                *self == *old(self),
                forall|k: int|
                    0 <= k < c ==> #[trigger] lex_lt(arch.date_key@, self.archives@[k].date_key@),
            decreases n - c,
        {
            c = c + 1;
        }
        proof {
            lemma_archive_insert_pos_found(self.archives@, arch.date_key@, c as int);
        }
        if c < n && str_eq(self.archives[c].date_key.as_str(), arch.date_key.as_str()) {
            let _dropped = self.archives.remove(c);
            proof {
                assert(self.archives@ =~= old(self).archives@.remove(c as int));
            }
            self.archives.insert(c, arch);
        } else {
            proof {
                if c < n {
                    crate::text::lemma_lex_le_total(
                        arch.date_key@,
                        self.archives@[c as int].date_key@,
                    );
                }
            }
            self.archives.insert(c, arch);
        }
        proof {
            lemma_insert_sorted_post(old(self).archives@, self.archives@, c as int, arch);
            assert forall|k: int|
                c < k < self.archives@.len() implies #[trigger] self.archives@[k] == (
            if c < old(self).archives@.len() && old(self).archives@[c as int].date_key@
                == arch.date_key@ {
                old(self).archives@[k]
            } else {
                old(self).archives@[k - 1]
            }) by {}
        }
    }
}

/// The ordered position for a key among descending archives: the first
/// archive whose key is at or below it, or the length.
pub open spec fn archive_insert_pos(archives: Seq<Archive>, key: Seq<char>) -> int
    decreases archives.len(),
{
    if archives.len() == 0 {
        0
    } else if !lex_lt(key, archives[0].date_key@) {
        0
    } else {
        1 + archive_insert_pos(archives.drop_first(), key)
    }
}

proof fn lemma_archive_insert_pos_found(archives: Seq<Archive>, key: Seq<char>, c: int)
    requires
        0 <= c <= archives.len(),
        forall|k: int| 0 <= k < c ==> #[trigger] lex_lt(key, archives[k].date_key@),
        c < archives.len() ==> !lex_lt(key, archives[c].date_key@),
    ensures
        archive_insert_pos(archives, key) == c,
    decreases c,
{
    if c == 0 {
        if archives.len() > 0 && lex_lt(key, archives[0].date_key@) {
            lemma_archive_insert_pos_bounds(archives, key);
        }
    } else {
        let t = archives.drop_first();
        assert(lex_lt(key, archives[0].date_key@));
        assert forall|k: int| 0 <= k < c - 1 implies #[trigger] lex_lt(
            key,
            t[k].date_key@,
        ) by {
            assert(t[k] == archives[k + 1]);
            assert(lex_lt(key, archives[k + 1].date_key@));
        }
        lemma_archive_insert_pos_found(t, key, c - 1);
    }
}

proof fn lemma_archive_insert_pos_bounds(archives: Seq<Archive>, key: Seq<char>)
    ensures
        0 <= archive_insert_pos(archives, key) <= archives.len(),
    decreases archives.len(),
{
    if archives.len() > 0 && lex_lt(key, archives[0].date_key@) {
        lemma_archive_insert_pos_bounds(archives.drop_first(), key);
    }
}

/// Entries ordered newest id first (non-strictly).
pub open spec fn sorted_desc(s: Seq<HistoryEntry>) -> bool {
    forall|i: int, j: int|
        0 <= i < j < s.len() ==> lex_le((#[trigger] s[j]).id@, (#[trigger] s[i]).id@)
}

impl HistoryStore {
    /// A borrow of the active entries.
    pub fn active_ref(&self) -> (r: &Vec<HistoryEntry>)
        ensures
            r@ == self.active_view(),
    {
        &self.active
    }

    /// A borrow of the archives.
    pub fn archives_ref(&self) -> (r: &Vec<Archive>)
        ensures
            r@ == self.archives_view(),
    {
        &self.archives
    }

    /// The number of archives.
    pub fn archive_count(&self) -> (r: usize)
        ensures
            r as int == self.archives_view().len(),
    {
        self.archives.len()
    }
}

/// Model-level upsert: the merged list's models, sorted ascending by
/// id, an incoming model replacing one that carries the same id.
pub open spec fn upsert_model(s: Seq<EntryModel>, e: EntryModel) -> Seq<EntryModel>
    decreases s.len(),
{
    if s.len() == 0 {
        seq![e]
    } else if s[0].id == e.id {
        seq![e] + s.drop_first()
    } else if lex_lt(e.id, s[0].id) {
        seq![e] + s
    } else {
        seq![s[0]] + upsert_model(s.drop_first(), e)
    }
}

/// Folding `upsert_model` over incoming models, oldest first.
pub open spec fn merge_models_into(s: Seq<EntryModel>, inc: Seq<EntryModel>) -> Seq<EntryModel>
    decreases inc.len(),
{
    if inc.len() == 0 {
        s
    } else {
        merge_models_into(upsert_model(s, inc[0]), inc.drop_first())
    }
}

/// The merged models of a loaded archive: its normalized entries merged
/// by id, last write winning.
pub open spec fn merge_models(inc: Seq<EntryModel>) -> Seq<EntryModel> {
    merge_models_into(Seq::empty(), inc)
}

/// Merging at the entry level is merging at the model level.
proof fn lemma_upsert_models(s: Seq<HistoryEntry>, e: HistoryEntry)
    ensures
        models_of(upsert_view(s, e)) == upsert_model(models_of(s), entry_model(e)),
    decreases s.len(),
{
    let sm = models_of(s);
    if s.len() == 0 {
        assert(models_of(upsert_view(s, e)) =~= upsert_model(sm, entry_model(e)));
    } else if s[0].id@ == e.id@ {
        assert(sm[0] == entry_model(s[0]));
        assert(models_of(seq![e] + s.drop_first()) =~= seq![entry_model(e)] + sm.drop_first());
        assert(upsert_model(sm, entry_model(e)) =~= seq![entry_model(e)] + sm.drop_first());
    } else if lex_lt(e.id@, s[0].id@) {
        assert(sm[0] == entry_model(s[0]));
        assert(models_of(seq![e] + s) =~= seq![entry_model(e)] + sm);
    } else {
        assert(sm[0] == entry_model(s[0]));
        lemma_upsert_models(s.drop_first(), e);
        assert(models_of(s.drop_first()) =~= sm.drop_first());
        assert(models_of(seq![s[0]] + upsert_view(s.drop_first(), e)) =~= seq![sm[0]]
            + models_of(upsert_view(s.drop_first(), e)));
        assert(upsert_model(sm, entry_model(e)) =~= seq![sm[0]] + upsert_model(
            sm.drop_first(),
            entry_model(e),
        ));
    }
}

/// Folding one more incoming model folds onto the accumulated merge.
proof fn lemma_merge_push(acc: Seq<EntryModel>, inc: Seq<EntryModel>, x: EntryModel)
    ensures
        merge_models_into(acc, inc.push(x)) == upsert_model(merge_models_into(acc, inc), x),
    decreases inc.len(),
{
    if inc.len() == 0 {
        assert(inc.push(x).drop_first() =~= Seq::<EntryModel>::empty());
        assert(inc.push(x)[0] == x);
        assert(merge_models_into(acc, inc.push(x)) == merge_models_into(
            upsert_model(acc, x),
            inc.push(x).drop_first(),
        ));
        assert(merge_models_into(upsert_model(acc, x), Seq::<EntryModel>::empty())
            == upsert_model(acc, x));
        assert(merge_models_into(acc, inc) == acc);
    } else {
        assert(inc.push(x)[0] == inc[0]);
        assert(inc.push(x).drop_first() =~= inc.drop_first().push(x));
        lemma_merge_push(upsert_model(acc, inc[0]), inc.drop_first(), x);
        assert(merge_models_into(acc, inc.push(x)) == merge_models_into(
            upsert_model(acc, inc[0]),
            inc.drop_first().push(x),
        ));
        assert(merge_models_into(acc, inc) == merge_models_into(
            upsert_model(acc, inc[0]),
            inc.drop_first(),
        ));
    }
}

/// Membership among entry models.
pub open spec fn has_id_model(s: Seq<EntryModel>, id: Seq<char>) -> bool {
    exists|k: int| 0 <= k < s.len() && (#[trigger] s[k]).id == id
}

proof fn lemma_has_id_model_extend(s: Seq<EntryModel>, t: int, x: Seq<char>)
    requires
        0 <= t < s.len(),
    ensures
        has_id_model(s.subrange(0, t + 1), x) == (has_id_model(s.subrange(0, t), x) || s[t].id
            == x),
{
    let a = s.subrange(0, t);
    let b = s.subrange(0, t + 1);
    if has_id_model(b, x) {
        let k = choose|k: int| 0 <= k < b.len() && (#[trigger] b[k]).id == x;
        if k < t {
            assert(a[k] == b[k]);
            assert((a[k]).id == x);
        } else {
            assert(b[t] == s[t]);
        }
    }
    if has_id_model(a, x) {
        let k = choose|k: int| 0 <= k < a.len() && (#[trigger] a[k]).id == x;
        assert(b[k] == a[k]);
        assert((b[k]).id == x);
    }
    if s[t].id == x {
        assert((b[t]).id == x);
    }
}

/// After inserting or replacing at the scanned position, the archives
/// stay ordered and their ids are the untouched ids plus the new ones.
proof fn lemma_insert_sorted_post(olda: Seq<Archive>, newa: Seq<Archive>, c: int, arch: Archive)
    requires
        archives_wf(olda),
        archive_wf(arch),
        0 <= c <= olda.len(),
        forall|k: int| 0 <= k < c ==> #[trigger] lex_lt(arch.date_key@, olda[k].date_key@),
        c < olda.len() && olda[c].date_key@ == arch.date_key@ ==> newa == olda.remove(c).insert(
            c,
            arch,
        ),
        c < olda.len() && olda[c].date_key@ != arch.date_key@ ==> lex_lt(
            olda[c].date_key@,
            arch.date_key@,
        ) && newa == olda.insert(c, arch),
        c == olda.len() ==> newa == olda.insert(c, arch),
    ensures
        archives_wf(newa),
        forall|i: Seq<char>|
            #[trigger] archives_have_id(newa, i) == (exists|j: int|
                0 <= j < olda.len() && (#[trigger] olda[j]).date_key@ != arch.date_key@ && has_id(
                    olda[j].entries@,
                    i,
                )) || has_id(arch.entries@, i),
{
    let replaced = c < olda.len() && olda[c].date_key@ == arch.date_key@;
    assert forall|k: int| 0 <= k < newa.len() implies #[trigger] newa[k] == (if k < c {
        olda[k]
    } else if k == c {
        arch
    } else if replaced {
        olda[k]
    } else {
        olda[k - 1]
    }) by {}
    assert(archives_wf(newa)) by {
        assert forall|a: int, b: int| 0 <= a < b < newa.len() implies #[trigger] lex_lt(
            newa[b].date_key@,
            newa[a].date_key@,
        ) by {
            let ka = if a < c {
                a
            } else if a == c {
                a
            } else if replaced {
                a
            } else {
                a - 1
            };
            let kb = if b < c {
                b
            } else if b == c {
                b
            } else if replaced {
                b
            } else {
                b - 1
            };
            if a == c && b > c {
                let ob = if replaced {
                    b
                } else {
                    b - 1
                };
                assert(newa[b] == olda[ob]);
                if replaced {
                    assert(lex_lt(olda[ob].date_key@, olda[c].date_key@));
                } else {
                    if ob > c {
                        assert(lex_lt(olda[ob].date_key@, olda[c].date_key@));
                        crate::text::lemma_lex_le_trans(
                            olda[ob].date_key@,
                            olda[c].date_key@,
                            arch.date_key@,
                        );
                        crate::text::lemma_lex_le_total(olda[ob].date_key@, arch.date_key@);
                        if olda[ob].date_key@ == arch.date_key@ {
                            crate::text::lemma_lex_le_total(
                                olda[ob].date_key@,
                                olda[c].date_key@,
                            );
                        }
                    } else {
                        assert(ob == c);
                        assert(lex_lt(olda[c].date_key@, arch.date_key@));
                    }
                }
            } else if b == c && a < c {
                assert(newa[a] == olda[a]);
                assert(lex_lt(arch.date_key@, olda[a].date_key@));
            } else if a < c && b < c {
                assert(lex_lt(olda[b].date_key@, olda[a].date_key@));
            } else {
                assert(a != c && b != c);
                assert(newa[a] == olda[ka] && newa[b] == olda[kb]);
                assert(ka < kb);
                assert(lex_lt(olda[kb].date_key@, olda[ka].date_key@));
            }
        }
        assert forall|k: int| 0 <= k < newa.len() implies archive_wf(#[trigger] newa[k]) by {
            if k != c {
                let ok = if k < c {
                    k
                } else if replaced {
                    k
                } else {
                    k - 1
                };
                assert(newa[k] == olda[ok]);
                assert(archive_wf(olda[ok]));
            }
        }
    }
    assert forall|i: Seq<char>|
        #[trigger] archives_have_id(newa, i) == ((exists|j: int|
            0 <= j < olda.len() && (#[trigger] olda[j]).date_key@ != arch.date_key@ && has_id(
                olda[j].entries@,
                i,
            )) || has_id(arch.entries@, i)) by {
        if archives_have_id(newa, i) {
            let k = choose|k: int| 0 <= k < newa.len() && has_id((#[trigger] newa[k]).entries@, i);
            if k == c {
            } else {
                let ok = if k < c {
                    k
                } else if replaced {
                    k
                } else {
                    k - 1
                };
                assert(newa[k] == olda[ok]);
                assert(has_id(olda[ok].entries@, i));
                assert(olda[ok].date_key@ != arch.date_key@) by {
                    if k < c {
                        assert(lex_lt(arch.date_key@, olda[k].date_key@));
                    } else if replaced {
                        assert(lex_lt(olda[k].date_key@, olda[c].date_key@));
                    } else if c < olda.len() {
                        if ok > c {
                            assert(lex_lt(olda[ok].date_key@, olda[c].date_key@));
                            crate::text::lemma_lex_le_trans(
                                olda[ok].date_key@,
                                olda[c].date_key@,
                                arch.date_key@,
                            );
                            crate::text::lemma_lex_le_total(olda[ok].date_key@, arch.date_key@);
                            if olda[ok].date_key@ == arch.date_key@ {
                                crate::text::lemma_lex_le_total(
                                    olda[ok].date_key@,
                                    olda[c].date_key@,
                                );
                            }
                        } else {
                            assert(lex_lt(olda[c].date_key@, arch.date_key@));
                        }
                    }
                }
            }
        }
        if exists|j: int|
            0 <= j < olda.len() && (#[trigger] olda[j]).date_key@ != arch.date_key@ && has_id(
                olda[j].entries@,
                i,
            ) {
            let j = choose|j: int|
                0 <= j < olda.len() && (#[trigger] olda[j]).date_key@ != arch.date_key@ && has_id(
                    olda[j].entries@,
                    i,
                );
            let nk = if j < c {
                j
            } else if replaced {
                if j == c {
                    j
                } else {
                    j
                }
            } else {
                j + 1
            };
            if replaced && j == c {
                assert(olda[j].date_key@ == arch.date_key@);
            } else {
                assert(newa[nk] == olda[j]);
                assert(has_id((newa[nk]).entries@, i));
            }
        }
        if has_id(arch.entries@, i) {
            assert(has_id((newa[c]).entries@, i));
        }
    }
}
/// Deleting an id is idempotent: once the only container holding it has
/// every entry with that id removed, the store no longer contains the
/// id, so a second deletion of the same id reports nothing found.
pub proof fn lemma_delete_idempotent(
    active: Seq<HistoryEntry>,
    archives: Seq<Archive>,
    id: Seq<char>,
)
    requires
        !archives_have_id(archives, id),
    ensures
        !has_id(without_id(active, id), id),
        !(has_id(without_id(active, id), id) || archives_have_id(archives, id)),
{
    lemma_without_id(active, id);
}

/// The archive-side of the same law: when the id lives only in the
/// archive at `c`, removing it there leaves a store that no longer
/// contains the id.
pub proof fn lemma_delete_idempotent_archived(
    active: Seq<HistoryEntry>,
    archives: Seq<Archive>,
    archives1: Seq<Archive>,
    id: Seq<char>,
    c: int,
)
    requires
        !has_id(active, id),
        0 <= c < archives.len(),
        forall|j: int|
            0 <= j < archives.len() && j != c ==> !has_id((#[trigger] archives[j]).entries@, id),
        archives1.len() == archives.len(),
        forall|j: int|
            0 <= j < archives1.len() && j != c ==> #[trigger] archives1[j] == archives[j],
        archives1[c].entries@ == without_id(archives[c].entries@, id),
    ensures
        !(has_id(active, id) || archives_have_id(archives1, id)),
{
    lemma_without_id(archives[c].entries@, id);
    if archives_have_id(archives1, id) {
        let j = choose|j: int|
            0 <= j < archives1.len() && has_id((#[trigger] archives1[j]).entries@, id);
        if j != c {
            assert(has_id((archives[j]).entries@, id));
        }
    }
}

} // verus!
