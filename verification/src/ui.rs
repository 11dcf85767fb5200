//! The decision rules of the request layer: item-id parsing, the
//! copy-debounce rule, selection validation, and the snapshot the
//! mutating endpoints hand back.
use vstd::prelude::*;
use crate::config::{item_model, ConfigStore, ItemConfig, ItemModel};
use crate::no_selection;
use crate::no_selection_view;
use crate::renderer::{render_entry_model, render_models, render_prompt, render_view, RenderEntry, RenderModel};
use crate::text::{contains_text_in, str_eq, trim_str, trim_view};

verus! {

/// The index of the first colon, or the length when there is none.
pub open spec fn colon_index(s: Seq<char>) -> int
    decreases s.len(),
{
    if s.len() == 0 {
        0
    } else if s[0] == ':' {
        0
    } else {
        1 + colon_index(s.drop_first())
    }
}

proof fn lemma_colon_index(s: Seq<char>, i: int)
    requires
        0 <= i <= s.len(),
        forall|k: int| 0 <= k < i ==> s[k] != ':',
        i < s.len() ==> s[i] == ':',
    ensures
        colon_index(s) == i,
    decreases i,
{
    if i == 0 {
        if s.len() > 0 && s[0] != ':' {
            lemma_colon_bounds(s);
        }
    } else {
        let t = s.drop_first();
        lemma_colon_index(t, i - 1);
    }
}

proof fn lemma_colon_bounds(s: Seq<char>)
    ensures
        0 <= colon_index(s) <= s.len(),
        colon_index(s) < s.len() ==> s[colon_index(s)] == ':',
    decreases s.len(),
{
    if s.len() > 0 && s[0] != ':' {
        lemma_colon_bounds(s.drop_first());
    }
}

/// The last accepted copy: its text and the time it happened, in
/// milliseconds of a monotonic clock.
pub struct CopyState {
    pub last_prompt: String,
    pub last_copy_at_millis: Option<u64>,
}

impl CopyState {
    /// A fresh state: nothing copied yet.
    pub fn new() -> (s: Self)
        ensures
            s.last_prompt@ == Seq::<char>::empty(),
            s.last_copy_at_millis is None,
    {
        CopyState { last_prompt: String::new(), last_copy_at_millis: None }
    }

    /// The debounce rule for a copy request: a repeat of the identical
    /// prompt within strictly less than the debounce window is skipped;
    /// an accepted copy records the prompt and its time.
    pub fn decide_copy(&mut self, prompt: &str, now_millis: u64, debounce_millis: u64) -> (skip:
        bool)
        ensures
            skip == (old(self).last_prompt@ == prompt@ && match old(self).last_copy_at_millis {
                Some(t) => t <= now_millis && now_millis - t < debounce_millis,
                None => false,
            }),
            skip ==> *final(self) == *old(self),
            !skip ==> final(self).last_prompt@ == prompt@ && final(self).last_copy_at_millis
                == Some(now_millis),
    {
        let same = str_eq(self.last_prompt.as_str(), prompt);
        if same {
            if let Some(t) = self.last_copy_at_millis {
                if t <= now_millis && now_millis - t < debounce_millis {
                    return true;
                }
            }
        }
        self.last_prompt = String::from_str(prompt);
        self.last_copy_at_millis = Some(now_millis);
        false
    }
}

/// Splits a wire item id into its section and key at the first colon;
/// both parts are trimmed and must be non-empty.
pub fn split_item_id(item_id: &str) -> (r: Option<(String, String)>)
    ensures
        match r {
            Some(p) => {
                let i = colon_index(item_id@);
                &&& i < item_id@.len()
                &&& p.0@ == trim_view(item_id@.subrange(0, i))
                &&& p.1@ == trim_view(item_id@.subrange(i + 1, item_id@.len() as int))
                &&& p.0@.len() > 0
                &&& p.1@.len() > 0
            },
            None => {
                let i = colon_index(item_id@);
                i == item_id@.len() || trim_view(item_id@.subrange(0, i)).len() == 0 || trim_view(
                    item_id@.subrange(i + 1, item_id@.len() as int),
                ).len() == 0
            },
        },
{
    let n = item_id.unicode_len();
    let mut i: usize = 0;
    while i < n && item_id.get_char(i) != ':'
        invariant
            0 <= i <= n,
            n == item_id@.len(),
            forall|k: int| 0 <= k < i ==> item_id@[k] != ':',
        decreases n - i,
    {
        i = i + 1;
    }
    proof {
        lemma_colon_index(item_id@, i as int);
    }
    if i == n {
        return None;
    }
    let section = trim_str(item_id.substring_char(0, i));
    let key = trim_str(item_id.substring_char(i + 1, n));
    proof {
        assert(item_id@.subrange(0, i as int) =~= item_id@.subrange(0, i as int));
    }
    if section.as_str().unicode_len() == 0 || key.as_str().unicode_len() == 0 {
        return None;
    }
    Some((section, key))
}

/// The selection a change request resolves to: the trimmed value when it
/// is one of the item's choices, the sentinel otherwise.
pub fn resolve_selection(item: &ItemConfig, selected: &str) -> (r: String)
    ensures
        ({
            let s = trim_view(selected@);
            if s.len() > 0 && item_model(*item).choices.contains(s) {
                r@ == s
            } else {
                r@ == no_selection_view()
            }
        }),
{
    let s = trim_str(selected);
    if s.as_str().unicode_len() > 0 && contains_text_in(&item.choices, s.as_str()) {
        s
    } else {
        String::from_str(no_selection())
    }
}

/// One row of the main surface.
pub struct UiRow {
    pub item_id: String,
    pub label: String,
    pub choices: Vec<String>,
    pub allow_free_text: bool,
    pub selected: String,
    pub free_text: String,
}

/// The snapshot every mutating endpoint returns: the rows, the rendered
/// preview, and the confirm-delete flag.
pub struct UiSnapshot {
    pub rows: Vec<UiRow>,
    pub preview: String,
    pub confirm_delete: bool,
}

/// The ghost model of a row.
pub struct UiRowModel {
    pub item_id: Seq<char>,
    pub label: Seq<char>,
    pub choices: Seq<Seq<char>>,
    pub allow_free_text: bool,
    pub selected: Seq<char>,
    pub free_text: Seq<char>,
}

pub open spec fn row_model(r: UiRow) -> UiRowModel {
    UiRowModel {
        item_id: r.item_id@,
        label: r.label@,
        choices: r.choices@.map_values(|s: String| s@),
        allow_free_text: r.allow_free_text,
        selected: r.selected@,
        free_text: r.free_text@,
    }
}

/// The renderer row an item descriptor yields, given the stored state.
pub open spec fn row_render_model(m: crate::doc::DocModel, item: ItemModel) -> RenderModel {
    let stored = crate::config::selected_of(m, item.section, item.key);
    RenderModel {
        label: item.label,
        selected: if item.choices.contains(stored) {
            stored
        } else {
            no_selection_view()
        },
        free_text: crate::config::free_text_of(m, item.section, item.key),
    }
}

/// The row an item descriptor yields, given the stored state: a stored
/// selection outside the choices falls back to the sentinel.
pub open spec fn row_of_item(m: crate::doc::DocModel, item: ItemModel) -> UiRowModel {
    let stored = crate::config::selected_of(m, item.section, item.key);
    let selected = if item.choices.contains(stored) {
        stored
    } else {
        no_selection_view()
    };
    UiRowModel {
        item_id: item.section + ":"@ + item.key,
        label: item.label,
        choices: item.choices,
        allow_free_text: item.allow_free_text,
        selected: selected,
        free_text: crate::config::free_text_of(m, item.section, item.key),
    }
}

/// Builds the rows and preview of the main section: one row per item
/// descriptor, and the preview rendered from each row's label, selected
/// choice and free text.
pub fn build_ui_snapshot(config: &ConfigStore, section_name: &str) -> (r: UiSnapshot)
    ensures
        ({
            let items = crate::config::items_of(config.model(), section_name@);
            &&& r.rows@.map_values(|x: UiRow| row_model(x)) == items.map_values(
                |it: ItemModel| row_of_item(config.model(), it),
            )
            &&& r.preview@ == render_view(
                items.map_values(|it: ItemModel| row_render_model(config.model(), it)),
            )
            &&& r.confirm_delete == match crate::config::setting_of(
                config.model(),
                "confirm_delete"@,
            ) {
                Some(crate::doc::DocModel::Flag(b)) => b,
                _ => true,
            }
        }),
{
    let items = config.get_items(section_name);
    let ghost itemsm = crate::config::items_of(config.model(), section_name@);
    let mut rows: Vec<UiRow> = Vec::new();
    let mut render_entries: Vec<RenderEntry> = Vec::new();
    let n = items.len();
    let mut i: usize = 0;
    proof {
        assert(rows@.map_values(|x: UiRow| row_model(x)) =~= Seq::<UiRowModel>::empty());
        assert(itemsm.subrange(0, 0).map_values(
            |it: ItemModel| row_of_item(config.model(), it),
        ) =~= Seq::<UiRowModel>::empty());
        assert(render_models(render_entries@) =~= Seq::<RenderModel>::empty());
        assert(itemsm.subrange(0, 0).map_values(
            |it: ItemModel| row_render_model(config.model(), it),
        ) =~= Seq::<RenderModel>::empty());
    }
    while i < n
        invariant
            0 <= i <= n,
            n == items@.len(),
            itemsm == crate::config::items_of(config.model(), section_name@),
            itemsm == items@.map_values(|ic: ItemConfig| item_model(ic)),
            itemsm.len() == n,
            rows@.map_values(|x: UiRow| row_model(x)) == itemsm.subrange(0, i as int).map_values(
                |it: ItemModel| row_of_item(config.model(), it),
            ),
            render_models(render_entries@) == itemsm.subrange(0, i as int).map_values(
                |it: ItemModel| row_render_model(config.model(), it),
            ),
        decreases n - i,
    {
        proof {
            assert(itemsm[i as int] == item_model(items@[i as int]));
        }
        let item = &items[i];
        let (stored, free_text) = config.get_item_state(
            item.section_name.as_str(),
            item.key.as_str(),
        );
        let selected = if contains_text_in(&item.choices, stored.as_str()) {
            stored
        } else {
            String::from_str(no_selection())
        };
        let ghost repre = render_entries@;
        render_entries.push(
            RenderEntry {
                label: item.label.clone(),
                selected: selected.clone(),
                free_text: free_text.clone(),
            },
        );
        proof {
            assert(render_entry_model(render_entries@[render_entries@.len() - 1])
                == row_render_model(config.model(), itemsm[i as int]));
            assert(render_models(render_entries@) =~= render_models(repre).push(
                row_render_model(config.model(), itemsm[i as int]),
            ));
            assert(itemsm.subrange(0, i + 1).map_values(
                |it: ItemModel| row_render_model(config.model(), it),
            ) =~= itemsm.subrange(0, i as int).map_values(
                |it: ItemModel| row_render_model(config.model(), it),
            ).push(row_render_model(config.model(), itemsm[i as int])));
        }
        let row = UiRow {
            item_id: item.item_id(),
            label: item.label.clone(),
            choices: item.choices.clone(),
            allow_free_text: item.allow_free_text,
            selected,
            free_text,
        };
        let ghost rowspre = rows@;
        proof {
            assert(row.choices@.map_values(|s: String| s@) =~= item_model(
                items@[i as int],
            ).choices) by {
                assert forall|k: int|
                    0 <= k < row.choices@.len() implies row.choices@[k]@ == items@[i as int].choices@[k]@ by {
                    assert(vstd::pervasive::cloned::<String>(
                        items@[i as int].choices@[k],
                        row.choices@[k],
                    ));
                }
            }
            assert(row_model(row) == row_of_item(config.model(), itemsm[i as int]));
        }
        rows.push(row);
        proof {
            assert(rows@.map_values(|x: UiRow| row_model(x)) =~= rowspre.map_values(
                |x: UiRow| row_model(x),
            ).push(row_of_item(config.model(), itemsm[i as int])));
            assert(itemsm.subrange(0, i + 1).map_values(
                |it: ItemModel| row_of_item(config.model(), it),
            ) =~= itemsm.subrange(0, i as int).map_values(
                |it: ItemModel| row_of_item(config.model(), it),
            ).push(row_of_item(config.model(), itemsm[i as int])));
        }
        i = i + 1;
    }
    proof {
        assert(itemsm.subrange(0, n as int) =~= itemsm);
    }
    let preview = render_prompt(&render_entries);
    UiSnapshot { rows, preview, confirm_delete: config.confirm_delete() }
}

/// The change counter passive viewers poll: it only ever grows, so a
/// viewer detects that the log changed without re-reading it. The
/// request layer holds it behind its own shared handle.
pub struct RevisionCounter {
    value: u64,
}

impl RevisionCounter {
    pub closed spec fn current_view(self) -> int {
        self.value as int
    }

    /// Starts at zero.
    pub fn new() -> (s: Self)
        ensures
            s.current_view() == 0,
    {
        RevisionCounter { value: 0 }
    }

    /// The current reading.
    pub fn current(&self) -> (r: u64)
        ensures
            r as int == self.current_view(),
    {
        self.value
    }

    /// Steps the counter; the reading only ever grows.
    pub fn increment(&mut self)
        requires
            old(self).current_view() < u64::MAX,
        ensures
            final(self).current_view() == old(self).current_view() + 1,
    {
        self.value = self.value + 1;
    }
}


/// The first position of a key among item descriptors, or the length.
pub open spec fn view_key_index(items: Seq<ItemModel>, key: Seq<char>) -> int
    decreases items.len(),
{
    if items.len() == 0 {
        0
    } else if items[0].key == key {
        0
    } else {
        1 + view_key_index(items.drop_first(), key)
    }
}

pub open spec fn view_has_key(items: Seq<ItemModel>, key: Seq<char>) -> bool {
    exists|j: int| 0 <= j < items.len() && (#[trigger] items[j]).key == key
}

proof fn lemma_view_key_index(items: Seq<ItemModel>, key: Seq<char>)
    ensures
        0 <= view_key_index(items, key) <= items.len(),
        (view_key_index(items, key) < items.len()) == view_has_key(items, key),
        view_key_index(items, key) < items.len() ==> items[view_key_index(items, key)].key == key,
        forall|j: int| 0 <= j < view_key_index(items, key) ==> (#[trigger] items[j]).key != key,
    decreases items.len(),
{
    if items.len() == 0 {
        if view_has_key(items, key) {
            let j = choose|j: int| 0 <= j < items.len() && (#[trigger] items[j]).key == key;
        }
    } else if items[0].key == key {
        assert(view_has_key(items, key));
    } else {
        let t = items.drop_first();
        lemma_view_key_index(t, key);
        let i = view_key_index(items, key);
        assert forall|j: int| 0 <= j < i implies (#[trigger] items[j]).key != key by {
            if j > 0 {
                assert(t[j - 1] == items[j]);
                assert((t[j - 1]).key != key);
            }
        }
        if view_has_key(t, key) {
            assert(t[view_key_index(t, key)] == items[i]);
            assert(view_has_key(items, key));
        }
        if view_has_key(items, key) {
            let j = choose|j: int| 0 <= j < items.len() && (#[trigger] items[j]).key == key;
            assert(j > 0);
            assert(t[j - 1] == items[j]);
            assert((t[j - 1]).key == key);
            assert(view_has_key(t, key));
        }
    }
}

/// Finds the first item descriptor carrying the key.
fn find_item(items: &Vec<ItemConfig>, key: &str) -> (r: Option<usize>)
    requires
        forall|j: int|
            0 <= j < items@.len() ==> (#[trigger] items@[j]).key@ == items@.map_values(
                |ic: ItemConfig| item_model(ic),
            )[j].key,
    ensures
        ({
            let models = items@.map_values(|ic: ItemConfig| item_model(ic));
            match r {
                Some(j) => view_has_key(models, key@) && j == view_key_index(models, key@) && j
                    < items@.len(),
                None => !view_has_key(models, key@),
            }
        }),
{
    let ghost models = items@.map_values(|ic: ItemConfig| item_model(ic));
    proof {
        lemma_view_key_index(models, key@);
    }
    let n = items.len();
    let mut j: usize = 0;
    while j < n
        invariant
            0 <= j <= n,
            n == items@.len(),
            models == items@.map_values(|ic: ItemConfig| item_model(ic)),
            models.len() == n,
            forall|k: int| 0 <= k < n ==> (#[trigger] models[k]).key == items@[k].key@,
            forall|k: int| 0 <= k < j ==> (#[trigger] models[k]).key != key@,
        decreases n - j,
    {
        if str_eq(items[j].key.as_str(), key) {
            proof {
                lemma_view_key_index(models, key@);
                let p = view_key_index(models, key@);
                if p < j {
                    assert(models[p].key != key@);
                }
                if p > j {
                    assert(models[j as int].key != key@);
                }
                assert(view_has_key(models, key@));
            }
            return Some(j);
        }
        j = j + 1;
    }
    proof {
        if view_has_key(models, key@) {
            let k = choose|k: int| 0 <= k < models.len() && (#[trigger] models[k]).key == key@;
        }
    }
    None
}

/// The free-text confirm rule of the request layer: a blank or sentinel
/// value re-resolves the selection and clears the free text; any other
/// value joins the item's choices (unless already there) and becomes
/// both the selection and the confirmed free text. An unknown item is
/// an error, and then nothing changes.
pub fn confirm_free_text(
    config: &mut ConfigStore,
    section_name: &str,
    key: &str,
    selected: &str,
    value: &str,
) -> (r: Result<(), crate::config::ConfigError>)
    ensures
        ({
            let items = crate::config::items_of(old(config).model(), section_name@);
            let secs0 = crate::config::sections_list_of(old(config).model());
            let v = trim_view(value@);
            let blankish = v.len() == 0 || v == no_selection_view();
            &&& (!view_has_key(items, key@) ==> r == Result::<(), crate::config::ConfigError>::Err(
                crate::config::ConfigError::ItemNotFound,
            ) && final(config).model() == old(config).model())
            &&& (view_has_key(items, key@) && blankish ==> ({
                let item = items[view_key_index(items, key@)];
                let s = trim_view(selected@);
                let stored = if s.len() > 0 && item.choices.contains(s) {
                    s
                } else {
                    no_selection_view()
                };
                &&& r is Ok
                &&& crate::doc::tbl_lookup(
                    crate::config::section_state_of(final(config).model(), section_name@),
                    key@ + "_selected"@,
                ) == Some(crate::doc::DocModel::Text(stored))
                &&& crate::doc::tbl_lookup(
                    crate::config::section_state_of(final(config).model(), section_name@),
                    key@ + "_free_text"@,
                ) == Some(crate::doc::DocModel::Text(Seq::<char>::empty()))
                &&& (forall|k2: Seq<char>|
                    k2 != "state"@ ==> #[trigger] crate::doc::tbl_lookup(
                        crate::config::root_of(final(config).model()),
                        k2,
                    ) == crate::doc::tbl_lookup(crate::config::root_of(old(config).model()), k2))
            }))
            &&& (view_has_key(items, key@) && !blankish && !crate::config::has_target(
                secs0,
                section_name@,
                key@,
            ) ==> r == Result::<(), crate::config::ConfigError>::Err(
                crate::config::ConfigError::ItemNotFound,
            ) && final(config).model() == old(config).model())
            &&& (view_has_key(items, key@) && !blankish && crate::config::has_target(
                secs0,
                section_name@,
                key@,
            ) ==> ({
                let ch = crate::config::located_choices(secs0, section_name@, key@);
                &&& r is Ok
                &&& (ch.contains(v) ==> crate::doc::tbl_lookup(
                    crate::config::root_of(final(config).model()),
                    "sections"@,
                ) == crate::doc::tbl_lookup(crate::config::root_of(old(config).model()), "sections"@))
                &&& (!ch.contains(v) ==> crate::config::sections_updated(
                    secs0,
                    crate::config::sections_list_of(final(config).model()),
                    section_name@,
                    key@,
                    ch.push(v),
                ) && crate::doc::tbl_lookup(
                    crate::config::root_of(final(config).model()),
                    "sections"@,
                ) == Some(
                    crate::doc::DocModel::List(
                        crate::config::sections_list_of(final(config).model()),
                    ),
                ))
                &&& crate::doc::tbl_lookup(
                    crate::config::section_state_of(final(config).model(), section_name@),
                    key@ + "_selected"@,
                ) == Some(crate::doc::DocModel::Text(v))
                &&& crate::doc::tbl_lookup(
                    crate::config::section_state_of(final(config).model(), section_name@),
                    key@ + "_free_text"@,
                ) == Some(crate::doc::DocModel::Text(v))
                &&& (forall|k2: Seq<char>|
                    k2 != "state"@ && k2 != "sections"@ ==> #[trigger] crate::doc::tbl_lookup(
                        crate::config::root_of(final(config).model()),
                        k2,
                    ) == crate::doc::tbl_lookup(crate::config::root_of(old(config).model()), k2))
            }))
        }),
{
    let ghost m0 = config.model();
    let ghost itemsv = crate::config::items_of(m0, section_name@);
    let items = config.get_items(section_name);
    let ghost models = items@.map_values(|ic: ItemConfig| item_model(ic));
    let found = find_item(&items, key);
    let idx = match found {
        Some(j) => j,
        None => {
            return Err(crate::config::ConfigError::ItemNotFound);
        },
    };
    proof {
        assert(models == itemsv);
        assert(models[idx as int] == item_model(items@[idx as int]));
        assert(idx as int == view_key_index(itemsv, key@));
    }
    let v = trim_str(value);
    proof {
        crate::text::lemma_trim_trimmed(value@);
        crate::text::lemma_trim_trimmed(selected@);
    }
    if v.as_str().unicode_len() == 0 || str_eq(v.as_str(), no_selection()) {
        let sel = resolve_selection(&items[idx], selected);
        proof {
            crate::config::lemma_sentinel_nonblank();
            let s = trim_view(selected@);
            let item = itemsv[view_key_index(itemsv, key@)];
            if s.len() > 0 && item.choices.contains(s) {
                assert(sel@ == s);
                assert(trim_view(sel@) == s);
            } else {
                assert(sel@ == no_selection_view());
                assert(trim_view(sel@) == sel@);
            }
            assert(!crate::text::is_blank(sel@));
        }
        config.set_item_state(section_name, key, sel.as_str(), "");
        proof {
            reveal_strlit("");
            assert(""@ =~= Seq::<char>::empty());
            crate::text::lemma_trim_trimmed(Seq::<char>::empty());
            assert(trim_view(Seq::<char>::empty()) =~= Seq::<char>::empty());
        }
        Ok(())
    } else {
        let ghost secs0 = crate::config::sections_list_of(m0);
        match config.add_choice(section_name, key, value) {
            Err(e) => Err(e),
            Ok(_) => {
                let ghost mid = config.model();
                config.set_item_state(section_name, key, v.as_str(), v.as_str());
                proof {
                    let vv = trim_view(value@);
                    assert(trim_view(v@) == vv);
                    assert(!crate::text::is_blank(v@));
                    assert("sections"@ != "state"@) by {
                        reveal_strlit("sections");
                        reveal_strlit("state");
                        assert("sections"@.len() == 8);
                        assert("state"@.len() == 5);
                    }
                    if crate::config::has_target(secs0, section_name@, key@) {
                        let ch = crate::config::located_choices(secs0, section_name@, key@);
                        if !ch.contains(vv) {
                            crate::config::lemma_sec_pos(secs0, section_name@, key@);
                            let i = crate::config::sec_pos(secs0, section_name@, key@);
                            let items0 = crate::config::items_of_sec(secs0[i]);
                            let j = crate::config::item_pos(items0, key@);
                            let secs1 = crate::config::sections_list_of(mid);
                            assert(crate::doc::tbl_lookup(
                                crate::config::root_of(config.model()),
                                "sections"@,
                            ) == crate::doc::tbl_lookup(crate::config::root_of(mid), "sections"@));
                            assert(crate::config::sections_list_of(config.model()) == secs1);
                            assert(secs1 =~= secs0.update(
                                i,
                                crate::doc::DocModel::Table(
                                    crate::doc::tbl_set(
                                        crate::doc::table_entries(secs0[i]),
                                        "items"@,
                                        crate::doc::DocModel::List(
                                            items0.update(
                                                j,
                                                crate::config::with_choices(
                                                    items0[j],
                                                    ch.push(vv),
                                                ),
                                            ),
                                        ),
                                    ),
                                ),
                            ));
                        }
                    }
                }
                Ok(())
            },
        }
    }
}

/// The delete-choice rule of the request layer: a non-blank, non-sentinel
/// value that is one of the item's choices is removed, and the selection
/// then resets to the sentinel, clearing the free text exactly when it
/// equaled the removed value; any other value changes nothing. An
/// unknown item is an error.
pub fn delete_choice(
    config: &mut ConfigStore,
    section_name: &str,
    key: &str,
    selected: &str,
) -> (r: Result<bool, crate::config::ConfigError>)
    ensures
        ({
            let secs0 = crate::config::sections_list_of(old(config).model());
            let s = trim_view(selected@);
            let blankish = s.len() == 0 || s == no_selection_view();
            &&& (blankish ==> r == Result::<bool, crate::config::ConfigError>::Ok(false) && final(config).model() == old(config).model())
            &&& (!blankish && !crate::config::has_target(secs0, section_name@, key@) ==> r
                == Result::<bool, crate::config::ConfigError>::Err(
                crate::config::ConfigError::ItemNotFound,
            ) && final(config).model() == old(config).model())
            &&& (!blankish && crate::config::has_target(secs0, section_name@, key@) ==> ({
                let ch = crate::config::located_choices(secs0, section_name@, key@);
                &&& (!ch.contains(s) ==> r == Result::<bool, crate::config::ConfigError>::Ok(false)
                    && final(config).model() == old(config).model())
                &&& (ch.contains(s) ==> ({
                    let kept_free = if crate::config::free_text_of(
                        old(config).model(),
                        section_name@,
                        key@,
                    ) == s {
                        Seq::<char>::empty()
                    } else {
                        crate::config::free_text_of(old(config).model(), section_name@, key@)
                    };
                    &&& r == Result::<bool, crate::config::ConfigError>::Ok(true)
                    &&& crate::config::sections_updated(
                        secs0,
                        crate::config::sections_list_of(final(config).model()),
                        section_name@,
                        key@,
                        crate::config::without_text(ch, s),
                    )
                    &&& crate::doc::tbl_lookup(
                        crate::config::section_state_of(final(config).model(), section_name@),
                        key@ + "_selected"@,
                    ) == Some(crate::doc::DocModel::Text(no_selection_view()))
                    &&& crate::doc::tbl_lookup(
                        crate::config::section_state_of(final(config).model(), section_name@),
                        key@ + "_free_text"@,
                    ) == Some(crate::doc::DocModel::Text(kept_free))
                    &&& (forall|k2: Seq<char>|
                        k2 != "state"@ && k2 != "sections"@ ==> #[trigger] crate::doc::tbl_lookup(
                            crate::config::root_of(final(config).model()),
                            k2,
                        ) == crate::doc::tbl_lookup(
                            crate::config::root_of(old(config).model()),
                            k2,
                        ))
                }))
            }))
        }),
{
    let ghost m0 = config.model();
    let ghost secs0 = crate::config::sections_list_of(m0);
    let s = trim_str(selected);
    if s.as_str().unicode_len() == 0 || str_eq(s.as_str(), no_selection()) {
        return Ok(false);
    }
    match config.remove_choice(section_name, key, selected) {
        Err(e) => Err(e),
        Ok(false) => Ok(false),
        Ok(true) => {
            let ghost mid = config.model();
            proof {
                assert("sections"@ != "state"@) by {
                    reveal_strlit("sections");
                    reveal_strlit("state");
                    assert("sections"@.len() == 8);
                    assert("state"@.len() == 5);
                }
                assert(crate::doc::tbl_lookup(crate::config::root_of(mid), "state"@)
                    == crate::doc::tbl_lookup(crate::config::root_of(m0), "state"@));
                assert(crate::config::state_entries_of(mid) == crate::config::state_entries_of(
                    m0,
                ));
                assert(crate::config::section_state_of(mid, section_name@)
                    == crate::config::section_state_of(m0, section_name@));
                assert(crate::config::free_text_of(mid, section_name@, key@)
                    == crate::config::free_text_of(m0, section_name@, key@));
                crate::config::lemma_free_text_trimmed(m0, section_name@, key@);
                crate::text::lemma_trim_trimmed(selected@);
            }
            let (_current, free_text) = config.get_item_state(section_name, key);
            let next_free: String = if str_eq(free_text.as_str(), s.as_str()) {
                String::new()
            } else {
                free_text
            };
            proof {
                crate::config::lemma_sentinel_nonblank();
                crate::text::lemma_trim_trimmed(Seq::<char>::empty());
                assert(trim_view(Seq::<char>::empty()) =~= Seq::<char>::empty());
                assert(trim_view(next_free@) == next_free@);
            }
            config.set_item_state(section_name, key, no_selection(), next_free.as_str());
            proof {
                let sv = trim_view(selected@);
                let ch = crate::config::located_choices(secs0, section_name@, key@);
                crate::config::lemma_sec_pos(secs0, section_name@, key@);
                let i = crate::config::sec_pos(secs0, section_name@, key@);
                let items0 = crate::config::items_of_sec(secs0[i]);
                let j = crate::config::item_pos(items0, key@);
                let secs1 = crate::config::sections_list_of(mid);
                assert(crate::doc::tbl_lookup(
                    crate::config::root_of(config.model()),
                    "sections"@,
                ) == crate::doc::tbl_lookup(crate::config::root_of(mid), "sections"@));
                assert(crate::config::sections_list_of(config.model()) == secs1);
                assert(secs1 =~= secs0.update(
                    i,
                    crate::doc::DocModel::Table(
                        crate::doc::tbl_set(
                            crate::doc::table_entries(secs0[i]),
                            "items"@,
                            crate::doc::DocModel::List(
                                items0.update(
                                    j,
                                    crate::config::with_choices(
                                        items0[j],
                                        crate::config::without_text(ch, sv),
                                    ),
                                ),
                            ),
                        ),
                    ),
                ));
            }
            Ok(true)
        },
    }
}

impl CopyState {
    /// The whole copy-request rule: a blank prompt is skipped without
    /// touching the state; otherwise the trimmed prompt goes through the
    /// debounce rule.
    pub fn decide_copy_request(&mut self, prompt: &str, now_millis: u64, debounce_millis: u64) -> (
        skip: bool)
        ensures
            crate::text::is_blank(prompt@) ==> skip && *final(self) == *old(self),
            !crate::text::is_blank(prompt@) ==> {
                &&& skip == (old(self).last_prompt@ == trim_view(prompt@) && match old(self).last_copy_at_millis {
                    Some(t) => t <= now_millis && now_millis - t < debounce_millis,
                    None => false,
                })
                &&& (skip ==> *final(self) == *old(self))
                &&& (!skip ==> final(self).last_prompt@ == trim_view(prompt@) && final(self).last_copy_at_millis == Some(now_millis))
            },
    {
        let cleaned = trim_str(prompt);
        if cleaned.as_str().unicode_len() == 0 {
            return true;
        }
        self.decide_copy(cleaned.as_str(), now_millis, debounce_millis)
    }
}
} // verus!
