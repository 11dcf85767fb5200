//! The configuration store: a hierarchical document of global settings,
//! ordered category sections with their choice lists, and per-section
//! selection state. Loading normalizes the document into this shape;
//! every mutation keeps it there.
use vstd::prelude::*;
use crate::doc::{
    entry_models_of, int_of, list_items, millis_of, model_of, models_of_seq, table_entries,
    tbl_get, tbl_has, tbl_lookup, tbl_set, text_of, DocEntry, DocModel, DocValue,
};
use crate::no_selection_view;
use crate::text::{trim_view};

verus! {

/// The default debounce, in thousandths of a second.
pub open spec fn default_debounce_millis() -> int {
    2000
}

/// The sentinel heading every choice list.
pub open spec fn sentinel() -> Seq<char> {
    no_selection_view()
}

/// The normalized debounce: the stored value when it reads as a
/// non-negative thousandths count, the default otherwise.
pub open spec fn debounce_value(v: Option<DocModel>) -> int {
    match v {
        Some(m) => match millis_of(m) {
            Some(d) => if d >= 0 {
                d
            } else {
                default_debounce_millis()
            },
            None => default_debounce_millis(),
        },
        None => default_debounce_millis(),
    }
}

/// The normalized service port: the stored value when it is a number
/// from one to 65535, else 3000.
pub open spec fn port_value(v: Option<DocModel>) -> int {
    match v {
        Some(m) => match int_of(m) {
            Some(p) => if 1 <= p <= 65535 {
                p
            } else {
                3000
            },
            None => 3000,
        },
        None => 3000,
    }
}

/// The normalized archive threshold: the stored value when it is a
/// positive number, else 300.
pub open spec fn max_entries_value(v: Option<DocModel>) -> int {
    match v {
        Some(m) => match int_of(m) {
            Some(p) => if p >= 1 {
                p
            } else {
                300
            },
            None => 300,
        },
        None => 300,
    }
}

pub open spec fn is_text(v: Option<DocModel>) -> bool {
    v matches Some(DocModel::Text(_))
}

pub open spec fn is_flag(v: Option<DocModel>) -> bool {
    v matches Some(DocModel::Flag(_))
}

/// The normalized settings table: every setting present and in range,
/// unrecognized entries kept.
pub open spec fn norm_app(v: Option<DocModel>) -> Seq<(Seq<char>, DocModel)> {
    let e0 = match v {
        Some(m) => table_entries(m),
        None => Seq::empty(),
    };
    let e1 = if is_text(tbl_lookup(e0, "delimiter"@)) {
        e0
    } else {
        tbl_set(e0, "delimiter"@, DocModel::Text(", "@))
    };
    let e2 = if is_flag(tbl_lookup(e1, "confirm_delete"@)) {
        e1
    } else {
        tbl_set(e1, "confirm_delete"@, DocModel::Flag(true))
    };
    let e3 = tbl_set(
        e2,
        "copy_debounce_sec"@,
        DocModel::Milli(debounce_value(tbl_lookup(e2, "copy_debounce_sec"@))),
    );
    let e4 = tbl_set(
        e3,
        "history_server_port"@,
        DocModel::Int(port_value(tbl_lookup(e3, "history_server_port"@))),
    );
    let e5 = if is_flag(tbl_lookup(e4, "history_confirm_delete"@)) {
        e4
    } else {
        tbl_set(e4, "history_confirm_delete"@, DocModel::Flag(true))
    };
    tbl_set(
        e5,
        "history_max_entries"@,
        DocModel::Int(max_entries_value(tbl_lookup(e5, "history_max_entries"@))),
    )
}

/// Collects choice texts: each item's text form trimmed, blanks and
/// repeats dropped, first occurrence order kept.
pub open spec fn collect_choices(items: Seq<DocModel>) -> Seq<Seq<char>>
    decreases items.len(),
{
    if items.len() == 0 {
        Seq::empty()
    } else {
        let pre = collect_choices(items.drop_last());
        let t = trim_view(text_of(items.last()));
        if t.len() > 0 && !pre.contains(t) {
            pre.push(t)
        } else {
            pre
        }
    }
}

/// The list with every occurrence of one text removed.
pub open spec fn without_text(s: Seq<Seq<char>>, v: Seq<char>) -> Seq<Seq<char>>
    decreases s.len(),
{
    if s.len() == 0 {
        s
    } else if s[0] == v {
        without_text(s.drop_first(), v)
    } else {
        seq![s[0]] + without_text(s.drop_first(), v)
    }
}

/// A normalized choice list: the sentinel first, then the collected
/// choices with the sentinel removed.
pub open spec fn norm_choices(v: Option<DocModel>) -> Seq<Seq<char>> {
    let items = match v {
        Some(m) => list_items(m),
        None => Seq::empty(),
    };
    seq![sentinel()] + without_text(collect_choices(items), sentinel())
}

pub open spec fn choice_texts(v: Option<DocModel>) -> Seq<DocModel> {
    norm_choices(v).map_values(|c: Seq<char>| DocModel::Text(c))
}

/// One normalized item: a trimmed key, a label and template defaulted,
/// the free-text flag defaulted on, and a normalized choice list.
pub open spec fn norm_item(m: DocModel) -> DocModel {
    let e = table_entries(m);
    let key = trim_view(
        match tbl_lookup(e, "key"@) {
            Some(k) => text_of(k),
            None => Seq::empty(),
        },
    );
    let e1 = tbl_set(e, "key"@, DocModel::Text(key));
    let label = match tbl_lookup(e1, "label"@) {
        Some(DocModel::Text(t)) => t,
        _ => key,
    };
    let e2 = tbl_set(e1, "label"@, DocModel::Text(label));
    let aft = match tbl_lookup(e2, "allow_free_text"@) {
        Some(DocModel::Flag(b)) => b,
        _ => true,
    };
    let e3 = tbl_set(e2, "allow_free_text"@, DocModel::Flag(aft));
    let tmpl = match tbl_lookup(e3, "template"@) {
        Some(DocModel::Text(t)) => t,
        _ => "{value}"@,
    };
    let e4 = tbl_set(e3, "template"@, DocModel::Text(tmpl));
    DocModel::Table(
        tbl_set(e4, "choices"@, DocModel::List(choice_texts(tbl_lookup(e4, "choices"@)))),
    )
}

/// One normalized section: a non-blank trimmed name (with a fallback),
/// a defaulted label, and normalized items.
pub open spec fn norm_section(m: DocModel) -> DocModel {
    let e = table_entries(m);
    let name = match tbl_lookup(e, "name"@) {
        Some(DocModel::Text(t)) => if trim_view(t).len() > 0 {
            trim_view(t)
        } else {
            "prompt"@
        },
        _ => "prompt"@,
    };
    let e1 = tbl_set(e, "name"@, DocModel::Text(name));
    let label = match tbl_lookup(e1, "label"@) {
        Some(DocModel::Text(t)) => t,
        _ => name,
    };
    let e2 = tbl_set(e1, "label"@, DocModel::Text(label));
    let items = match tbl_lookup(e2, "items"@) {
        Some(DocModel::List(its)) => its,
        _ => Seq::empty(),
    };
    DocModel::Table(
        tbl_set(e2, "items"@, DocModel::List(items.map_values(|i: DocModel| norm_item(i)))),
    )
}

/// The normalized sections array.
pub open spec fn norm_sections(v: Option<DocModel>) -> Seq<DocModel> {
    let items = match v {
        Some(m) => list_items(m),
        None => Seq::empty(),
    };
    items.map_values(|s: DocModel| norm_section(s))
}

/// The state table, coerced to a table.
pub open spec fn norm_state(v: Option<DocModel>) -> Seq<(Seq<char>, DocModel)> {
    match v {
        Some(DocModel::Table(es)) => es,
        _ => Seq::empty(),
    }
}

/// Root entries with the three well-known keys removed.
pub open spec fn other_entries(entries: Seq<(Seq<char>, DocModel)>) -> Seq<(Seq<char>, DocModel)> {
    crate::doc::without_key(
        crate::doc::without_key(crate::doc::without_key(entries, "app"@), "sections"@),
        "state"@,
    )
}

/// The whole document normalized: the settings block, the sections, the
/// state table, then everything unrecognized in its original order.
pub open spec fn normalize_model(m: DocModel) -> DocModel {
    let root = table_entries(m);
    DocModel::Table(
        seq![
            ("app"@, DocModel::Table(norm_app(tbl_lookup(root, "app"@)))),
            ("sections"@, DocModel::List(norm_sections(tbl_lookup(root, "sections"@)))),
            ("state"@, DocModel::Table(norm_state(tbl_lookup(root, "state"@)))),
        ] + other_entries(root),
    )
}


/// The model of an optional value.
pub open spec fn opt_model(v: Option<DocValue>) -> Option<DocModel> {
    match v {
        Some(x) => Some(model_of(x)),
        None => None,
    }
}


/// Collects and dedups the trimmed texts of choice items.
fn collect_choices_exec(items: &Vec<DocValue>) -> (r: Vec<String>)
    ensures
        r@.map_values(|s: String| s@) == collect_choices(models_of_seq(items@)),
{
    let n = items.len();
    let mut out: Vec<String> = Vec::new();
    proof {
        crate::doc::lemma_models_of_seq(items@);
        assert(models_of_seq(items@).subrange(0, 0) =~= Seq::<DocModel>::empty());
        assert(out@.map_values(|s: String| s@) =~= Seq::<Seq<char>>::empty());
    }
    let mut i: usize = 0;
    while i < n
        invariant
            0 <= i <= n,
            n == items@.len(),
            models_of_seq(items@).len() == n,
            forall|k: int|
                0 <= k < n ==> #[trigger] models_of_seq(items@)[k] == model_of(items@[k]),
            out@.map_values(|s: String| s@) == collect_choices(
                models_of_seq(items@).subrange(0, i as int),
            ),
        decreases n - i,
    {
        let t = crate::text::trim_str(crate::doc::doc_text(&items[i]).as_str());
        let ghost pre = models_of_seq(items@).subrange(0, i as int);
        let ghost cur = models_of_seq(items@).subrange(0, i + 1);
        proof {
            assert(cur.drop_last() =~= pre);
            assert(cur.last() == model_of(items@[i as int]));
        }
        if t.as_str().unicode_len() > 0 && !crate::text::contains_text_in(&out, t.as_str()) {
            let ghost oldout = out@;
            out.push(t);
            proof {
                assert(out@.map_values(|s: String| s@) =~= oldout.map_values(
                    |s: String| s@,
                ).push(trim_view(text_of(cur.last()))));
            }
        }
        i = i + 1;
    }
    proof {
        assert(models_of_seq(items@).subrange(0, n as int) =~= models_of_seq(items@));
    }
    out
}

/// Builds a normalized choice list: the sentinel first, blanks, repeats
/// and stray sentinels dropped.
pub fn normalize_choices_from_value(v: Option<&DocValue>) -> (r: Vec<String>)
    ensures
        r@.map_values(|s: String| s@) == norm_choices(
            match v {
                Some(x) => Some(model_of(*x)),
                None => None,
            },
        ),
        r@.len() >= 1,
        r@[0]@ == sentinel(),
{
    let empty_items: Vec<DocValue> = Vec::new();
    let items: &Vec<DocValue> = match v {
        Some(DocValue::List(its)) => its,
        _ => &empty_items,
    };
    proof {
        assert(models_of_seq(Seq::<DocValue>::empty()) =~= Seq::<DocModel>::empty());
        match v {
            Some(x) => {
                if !(*x is List) {
                    assert(list_items(model_of(*x)) =~= Seq::<DocModel>::empty());
                }
            },
            None => {},
        }
    }
    let collected = collect_choices_exec(items);
    let mut out: Vec<String> = Vec::new();
    out.push(String::from_str(crate::no_selection()));
    let ghost cv = collected@.map_values(|s: String| s@);
    let n = collected.len();
    let mut i: usize = 0;
    proof {
        assert(out@.map_values(|s: String| s@) =~= seq![sentinel()]);
        assert(cv.subrange(0, n as int) =~= cv);
    }
    while i < n
        invariant
            0 <= i <= n,
            n == collected@.len(),
            cv == collected@.map_values(|s: String| s@),
            out@.map_values(|s: String| s@).len() >= 1,
            out@.map_values(|s: String| s@)[0] == sentinel(),
            seq![sentinel()] + without_text(cv, sentinel()) == out@.map_values(|s: String| s@)
                + without_text(cv.subrange(i as int, n as int), sentinel()),
        decreases n - i,
    {
        let ghost suf = cv.subrange(i as int, n as int);
        proof {
            assert(suf[0] == cv[i as int]);
            assert(cv[i as int] == collected@[i as int]@);
            assert(suf.drop_first() =~= cv.subrange(i + 1, n as int));
        }
        if !crate::text::str_eq(collected[i].as_str(), crate::no_selection()) {
            let ghost oldout = out@;
            out.push(collected[i].clone());
            proof {
                assert(out@.map_values(|s: String| s@) =~= oldout.map_values(
                    |s: String| s@,
                ).push(cv[i as int]));
                assert(oldout.map_values(|s: String| s@) + (seq![suf[0]] + without_text(
                    suf.drop_first(),
                    sentinel(),
                )) =~= out@.map_values(|s: String| s@) + without_text(
                    suf.drop_first(),
                    sentinel(),
                ));
            }
        }
        i = i + 1;
    }
    proof {
        assert(cv.subrange(n as int, n as int) =~= Seq::<Seq<char>>::empty());
        assert(out@.map_values(|s: String| s@) + Seq::<Seq<char>>::empty() =~= out@.map_values(
            |s: String| s@,
        ));
    }
    out
}

/// Wraps choice texts as document values.
fn choices_to_value(choices: &Vec<String>) -> (r: DocValue)
    ensures
        model_of(r) == DocModel::List(
            choices@.map_values(|s: String| s@).map_values(|c: Seq<char>| DocModel::Text(c)),
        ),
{
    let n = choices.len();
    let mut items: Vec<DocValue> = Vec::new();
    let mut i: usize = 0;
    while i < n
        invariant
            0 <= i <= n,
            n == choices@.len(),
            models_of_seq(items@) == choices@.subrange(0, i as int).map_values(
                |s: String| s@,
            ).map_values(|c: Seq<char>| DocModel::Text(c)),
        decreases n - i,
    {
        let ghost olditems = items@;
        items.push(DocValue::Text(choices[i].clone()));
        proof {
            crate::doc::lemma_models_of_seq(items@);
            crate::doc::lemma_models_of_seq(olditems);
            let target = choices@.subrange(0, i + 1).map_values(|s: String| s@).map_values(
                |c: Seq<char>| DocModel::Text(c),
            );
            assert forall|k: int| 0 <= k < i + 1 implies models_of_seq(items@)[k] == target[k] by {
                if k < i {
                    assert(models_of_seq(olditems)[k] == choices@.subrange(0, i as int).map_values(
                        |s: String| s@,
                    ).map_values(|c: Seq<char>| DocModel::Text(c))[k]);
                    assert(items@[k] == olditems[k]);
                } else {
                    assert(items@[k] == DocValue::Text(choices@[i as int]));
                }
            }
            assert(models_of_seq(items@) =~= target);
        }
        i = i + 1;
    }
    proof {
        assert(choices@.subrange(0, n as int) =~= choices@);
    }
    DocValue::List(items)
}


/// Whether the stored value is text.
fn val_is_text(entries: &Vec<DocEntry>, key: &str) -> (r: bool)
    ensures
        r == is_text(tbl_lookup(entry_models_of(entries@), key@)),
{
    match crate::doc::tbl_get_ref(entries, key) {
        Some(DocValue::Text(_)) => true,
        Some(_) => false,
        None => false,
    }
}

/// Whether the stored value is a flag.
fn val_is_flag(entries: &Vec<DocEntry>, key: &str) -> (r: bool)
    ensures
        r == is_flag(tbl_lookup(entry_models_of(entries@), key@)),
{
    match crate::doc::tbl_get_ref(entries, key) {
        Some(DocValue::Flag(_)) => true,
        Some(_) => false,
        None => false,
    }
}

/// The stored value read as thousandths.
fn val_millis(entries: &Vec<DocEntry>, key: &str) -> (r: Option<i64>)
    ensures
        match r {
            Some(n) => match tbl_lookup(entry_models_of(entries@), key@) {
                Some(m) => millis_of(m) == Some(n as int),
                None => false,
            },
            None => match tbl_lookup(entry_models_of(entries@), key@) {
                Some(m) => millis_of(m) is None,
                None => true,
            },
        },
{
    match crate::doc::tbl_get_ref(entries, key) {
        Some(x) => crate::doc::doc_millis(x),
        None => None,
    }
}

/// The stored value read as an integer.
fn val_int(entries: &Vec<DocEntry>, key: &str) -> (r: Option<i64>)
    ensures
        match r {
            Some(n) => match tbl_lookup(entry_models_of(entries@), key@) {
                Some(m) => int_of(m) == Some(n as int),
                None => false,
            },
            None => match tbl_lookup(entry_models_of(entries@), key@) {
                Some(m) => int_of(m) is None,
                None => true,
            },
        },
{
    match crate::doc::tbl_get_ref(entries, key) {
        Some(x) => crate::doc::doc_int(x),
        None => None,
    }
}

/// Normalizes the settings table.
fn norm_app_exec(v: Option<DocValue>) -> (r: Vec<DocEntry>)
    ensures
        entry_models_of(r@) == norm_app(opt_model(v)),
{
    let ghost vm = opt_model(v);
    let mut e: Vec<DocEntry> = match v {
        Some(DocValue::Table(es)) => es,
        _ => Vec::new(),
    };
    proof {
        let start = match vm {
            Some(m) => table_entries(m),
            None => Seq::<(Seq<char>, DocModel)>::empty(),
        };
        if e@.len() == 0 {
            assert(entry_models_of(e@) =~= Seq::<(Seq<char>, DocModel)>::empty());
        }
        match vm {
            Some(m) => {
                if !(m is Table) {
                    assert(table_entries(m) =~= Seq::<(Seq<char>, DocModel)>::empty());
                }
            },
            None => {},
        }
        assert(entry_models_of(e@) == start);
    }
    if !val_is_text(&e, "delimiter") {
        crate::doc::tbl_put(&mut e, "delimiter", DocValue::Text(String::from_str(", ")));
    }
    if !val_is_flag(&e, "confirm_delete") {
        crate::doc::tbl_put(&mut e, "confirm_delete", DocValue::Flag(true));
    }
    let d = match val_millis(&e, "copy_debounce_sec") {
        Some(x) => if x >= 0 {
            x
        } else {
            2000
        },
        None => 2000,
    };
    crate::doc::tbl_put(&mut e, "copy_debounce_sec", DocValue::Milli(d));
    let p = match val_int(&e, "history_server_port") {
        Some(x) => if 1 <= x && x <= 65535 {
            x
        } else {
            3000
        },
        None => 3000,
    };
    crate::doc::tbl_put(&mut e, "history_server_port", DocValue::Int(p));
    if !val_is_flag(&e, "history_confirm_delete") {
        crate::doc::tbl_put(&mut e, "history_confirm_delete", DocValue::Flag(true));
    }
    let x = match val_int(&e, "history_max_entries") {
        Some(x) => if x >= 1 {
            x
        } else {
            300
        },
        None => 300,
    };
    crate::doc::tbl_put(&mut e, "history_max_entries", DocValue::Int(x));
    e
}

/// Normalizes one item table.
fn norm_item_exec(m: DocValue) -> (r: DocValue)
    ensures
        model_of(r) == norm_item(model_of(m)),
{
    let mut e: Vec<DocEntry> = match m {
        DocValue::Table(es) => es,
        other => {
            proof {
                assert(table_entries(model_of(other)) =~= Seq::<(Seq<char>, DocModel)>::empty());
            }
            Vec::new()
        },
    };
    proof {
        if e@.len() == 0 {
            assert(entry_models_of(e@) =~= Seq::<(Seq<char>, DocModel)>::empty());
        }
    }
    let key = match crate::doc::tbl_get_ref(&e, "key") {
        Some(x) => crate::text::trim_str(crate::doc::doc_text(x).as_str()),
        None => String::new(),
    };
    proof {
        crate::text::lemma_trim_trimmed(Seq::<char>::empty());
        assert(trim_view(Seq::<char>::empty()) =~= Seq::<char>::empty());
    }
    crate::doc::tbl_put(&mut e, "key", DocValue::Text(key.clone()));
    let label = match crate::doc::tbl_get_ref(&e, "label") {
        Some(DocValue::Text(t)) => t.clone(),
        _ => key,
    };
    crate::doc::tbl_put(&mut e, "label", DocValue::Text(label));
    let aft = match crate::doc::tbl_get_ref(&e, "allow_free_text") {
        Some(DocValue::Flag(b)) => *b,
        _ => true,
    };
    crate::doc::tbl_put(&mut e, "allow_free_text", DocValue::Flag(aft));
    let tmpl = match crate::doc::tbl_get_ref(&e, "template") {
        Some(DocValue::Text(t)) => t.clone(),
        _ => String::from_str("{value}"),
    };
    crate::doc::tbl_put(&mut e, "template", DocValue::Text(tmpl));
    let choices = normalize_choices_from_value(crate::doc::tbl_get_ref(&e, "choices"));
    let cv = choices_to_value(&choices);
    crate::doc::tbl_put(&mut e, "choices", cv);
    DocValue::Table(e)
}

/// Normalizes one section table.
fn norm_section_exec(m: DocValue) -> (r: DocValue)
    ensures
        model_of(r) == norm_section(model_of(m)),
{
    let mut e: Vec<DocEntry> = match m {
        DocValue::Table(es) => es,
        other => {
            proof {
                assert(table_entries(model_of(other)) =~= Seq::<(Seq<char>, DocModel)>::empty());
            }
            Vec::new()
        },
    };
    proof {
        if e@.len() == 0 {
            assert(entry_models_of(e@) =~= Seq::<(Seq<char>, DocModel)>::empty());
        }
    }
    let name = match crate::doc::tbl_get_ref(&e, "name") {
        Some(DocValue::Text(t)) => {
            let trimmed = crate::text::trim_str(t.as_str());
            if trimmed.as_str().unicode_len() > 0 {
                trimmed
            } else {
                String::from_str("prompt")
            }
        },
        _ => String::from_str("prompt"),
    };
    crate::doc::tbl_put(&mut e, "name", DocValue::Text(name.clone()));
    let label = match crate::doc::tbl_get_ref(&e, "label") {
        Some(DocValue::Text(t)) => t.clone(),
        _ => name,
    };
    crate::doc::tbl_put(&mut e, "label", DocValue::Text(label));
    let ghost e2m = entry_models_of(e@);
    let taken = crate::doc::tbl_swap_val(&mut e, "items", DocValue::List(Vec::new()));
    let ghost takenm = match &taken {
        Some(x) => Some(model_of(*x)),
        None => None,
    };
    let items: Vec<DocValue> = match taken {
        Some(DocValue::List(its)) => its,
        _ => Vec::new(),
    };
    proof {
        match takenm {
            Some(m) => {
                if !(m is List) {
                    assert(list_items(m) =~= Seq::<DocModel>::empty());
                }
            },
            None => {},
        }
    }
    proof {
        if items@.len() == 0 {
            assert(models_of_seq(items@) =~= Seq::<DocModel>::empty());
        }
    }
    let ghost items0 = models_of_seq(items@);
    let mut out_items: Vec<DocValue> = Vec::new();
    let n = items.len();
    let mut src = items;
    let mut i: usize = 0;
    proof {
        crate::doc::lemma_models_of_seq(src@);
        assert(models_of_seq(out_items@) =~= Seq::<DocModel>::empty());
        assert(items0.subrange(0, 0).map_values(|x: DocModel| norm_item(x))
            =~= Seq::<DocModel>::empty());
    }
    while i < n
        invariant
            0 <= i <= n,
            n == items0.len(),
            src@.len() == n - i,
            models_of_seq(src@) == items0.subrange(i as int, n as int),
            models_of_seq(out_items@) == items0.subrange(0, i as int).map_values(
                |x: DocModel| norm_item(x),
            ),
        decreases n - i,
    {
        proof {
            crate::doc::lemma_models_of_seq(src@);
            assert(model_of(src@[0]) == models_of_seq(src@)[0]);
            assert(models_of_seq(src@)[0] == items0[i as int]);
        }
        let ghost srcpre = src@;
        let item = src.remove(0);
        proof {
            assert(src@ =~= srcpre.drop_first());
            crate::doc::lemma_models_of_seq(srcpre);
            crate::doc::lemma_models_of_seq(src@);
            assert forall|k: int|
                0 <= k < src@.len() implies models_of_seq(src@)[k] == items0[i + 1 + k] by {
                assert(src@[k] == srcpre[k + 1]);
                assert(models_of_seq(srcpre)[k + 1] == items0.subrange(i as int, n as int)[k + 1]);
            }
            assert(models_of_seq(src@) =~= items0.subrange(i + 1, n as int));
        }
        let ni = norm_item_exec(item);
        let ghost outpre = out_items@;
        out_items.push(ni);
        proof {
            crate::doc::lemma_models_of_seq(outpre);
            crate::doc::lemma_models_of_seq(out_items@);
            let target = items0.subrange(0, i + 1).map_values(|x: DocModel| norm_item(x));
            assert forall|k: int|
                0 <= k < i + 1 implies models_of_seq(out_items@)[k] == target[k] by {
                if k < i {
                    assert(models_of_seq(outpre)[k] == items0.subrange(0, i as int).map_values(
                        |x: DocModel| norm_item(x),
                    )[k]);
                    assert(out_items@[k] == outpre[k]);
                }
            }
            assert(models_of_seq(out_items@) =~= target);
        }
        i = i + 1;
    }
    proof {
        assert(items0.subrange(0, n as int) =~= items0);
    }
    crate::doc::tbl_put(&mut e, "items", DocValue::List(out_items));
    proof {
        crate::doc::lemma_tbl_set_twice(
            e2m,
            "items"@,
            DocModel::List(Seq::empty()),
            DocModel::List(items0.map_values(|x: DocModel| norm_item(x))),
        );
        // a displaced non-list (or nothing) leaves no items, like the spec
        assert(models_of_seq(Seq::<DocValue>::empty()) =~= Seq::<DocModel>::empty());
    }
    DocValue::Table(e)
}

/// Normalizes the sections array.
fn norm_sections_exec(v: Option<DocValue>) -> (r: Vec<DocValue>)
    ensures
        models_of_seq(r@) == norm_sections(opt_model(v)),
{
    let ghost vm = opt_model(v);
    let items: Vec<DocValue> = match v {
        Some(DocValue::List(its)) => its,
        _ => Vec::new(),
    };
    proof {
        if items@.len() == 0 {
            assert(models_of_seq(items@) =~= Seq::<DocModel>::empty());
        }
        match vm {
            Some(m) => {
                if !(m is List) {
                    assert(list_items(m) =~= Seq::<DocModel>::empty());
                }
            },
            None => {},
        }
    }
    let ghost items0 = models_of_seq(items@);
    let mut out: Vec<DocValue> = Vec::new();
    let n = items.len();
    let mut src = items;
    let mut i: usize = 0;
    proof {
        crate::doc::lemma_models_of_seq(src@);
        assert(models_of_seq(out@) =~= Seq::<DocModel>::empty());
        assert(items0.subrange(0, 0).map_values(|x: DocModel| norm_section(x))
            =~= Seq::<DocModel>::empty());
        assert(items0.subrange(i as int, n as int) =~= items0);
    }
    while i < n
        invariant
            0 <= i <= n,
            n == items0.len(),
            src@.len() == n - i,
            models_of_seq(src@) == items0.subrange(i as int, n as int),
            models_of_seq(out@) == items0.subrange(0, i as int).map_values(
                |x: DocModel| norm_section(x),
            ),
        decreases n - i,
    {
        proof {
            crate::doc::lemma_models_of_seq(src@);
            assert(model_of(src@[0]) == models_of_seq(src@)[0]);
            assert(models_of_seq(src@)[0] == items0[i as int]);
        }
        let ghost srcpre = src@;
        let item = src.remove(0);
        proof {
            assert(src@ =~= srcpre.drop_first());
            crate::doc::lemma_models_of_seq(srcpre);
            crate::doc::lemma_models_of_seq(src@);
            assert forall|k: int|
                0 <= k < src@.len() implies models_of_seq(src@)[k] == items0[i + 1 + k] by {
                assert(src@[k] == srcpre[k + 1]);
                assert(models_of_seq(srcpre)[k + 1] == items0.subrange(i as int, n as int)[k + 1]);
            }
            assert(models_of_seq(src@) =~= items0.subrange(i + 1, n as int));
        }
        let ns = norm_section_exec(item);
        let ghost outpre = out@;
        out.push(ns);
        proof {
            crate::doc::lemma_models_of_seq(outpre);
            crate::doc::lemma_models_of_seq(out@);
            let target = items0.subrange(0, i + 1).map_values(|x: DocModel| norm_section(x));
            assert forall|k: int| 0 <= k < i + 1 implies models_of_seq(out@)[k] == target[k] by {
                if k < i {
                    assert(models_of_seq(outpre)[k] == items0.subrange(0, i as int).map_values(
                        |x: DocModel| norm_section(x),
                    )[k]);
                    assert(out@[k] == outpre[k]);
                }
            }
            assert(models_of_seq(out@) =~= target);
        }
        i = i + 1;
    }
    proof {
        assert(items0.subrange(0, n as int) =~= items0);
    }
    out
}

/// Normalizes a whole document into the §shape the stores rely on: the
/// settings, sections and state blocks first and well-formed, anything
/// unrecognized kept after them.
pub fn normalize_doc(doc: DocValue) -> (r: DocValue)
    ensures
        model_of(r) == normalize_model(model_of(doc)),
{
    let ghost dm = model_of(doc);
    let mut root: Vec<DocEntry> = match doc {
        DocValue::Table(es) => es,
        _ => Vec::new(),
    };
    proof {
        if root@.len() == 0 {
            assert(entry_models_of(root@) =~= Seq::<(Seq<char>, DocModel)>::empty());
        }
        if !(dm is Table) {
            assert(table_entries(dm) =~= Seq::<(Seq<char>, DocModel)>::empty());
        }
        assert(entry_models_of(root@) == table_entries(dm));
    }
    let ghost root0 = entry_models_of(root@);
    let appv = crate::doc::tbl_take(&mut root, "app");
    let ghost appm = match &appv {
        Some(x) => Some(model_of(*x)),
        None => None,
    };
    let secv = crate::doc::tbl_take(&mut root, "sections");
    let ghost secm = match &secv {
        Some(x) => Some(model_of(*x)),
        None => None,
    };
    let statev = crate::doc::tbl_take(&mut root, "state");
    proof {
        reveal_strlit("app");
        reveal_strlit("sections");
        reveal_strlit("state");
        assert("app"@.len() == 3 && "sections"@.len() == 8 && "state"@.len() == 5);
        assert("app"@ != "sections"@ && "app"@ != "state"@ && "sections"@ != "state"@);
        crate::doc::lemma_without_key(root0, "app"@);
        crate::doc::lemma_without_key(crate::doc::without_key(root0, "app"@), "sections"@);
        crate::doc::lemma_without_key(
            crate::doc::without_key(crate::doc::without_key(root0, "app"@), "sections"@),
            "state"@,
        );
        assert(appm == tbl_lookup(root0, "app"@));
        assert(secm == tbl_lookup(root0, "sections"@));
    }
    let app = DocValue::Table(norm_app_exec(appv));
    let sections = DocValue::List(norm_sections_exec(secv));
    let ghost statem = match &statev {
        Some(x) => Some(model_of(*x)),
        None => None,
    };
    let state = match statev {
        Some(DocValue::Table(es)) => DocValue::Table(es),
        _ => DocValue::Table(Vec::new()),
    };
    proof {
        assert(statem == tbl_lookup(root0, "state"@));
        match statem {
            Some(m) => {
                if !(m is Table) {
                    assert(norm_state(statem) =~= Seq::<(Seq<char>, DocModel)>::empty());
                    assert(entry_models_of(Seq::<DocEntry>::empty())
                        =~= Seq::<(Seq<char>, DocModel)>::empty());
                }
            },
            None => {
                assert(norm_state(statem) =~= Seq::<(Seq<char>, DocModel)>::empty());
                assert(entry_models_of(Seq::<DocEntry>::empty())
                    =~= Seq::<(Seq<char>, DocModel)>::empty());
            },
        }
        assert(model_of(state) == DocModel::Table(norm_state(statem)));
    }
    let mut out: Vec<DocEntry> = Vec::new();
    out.push(DocEntry { key: String::from_str("app"), val: app });
    out.push(DocEntry { key: String::from_str("sections"), val: sections });
    out.push(DocEntry { key: String::from_str("state"), val: state });
    let ghost head = entry_models_of(out@);
    proof {
        crate::doc::lemma_entry_models(out@);
        assert(head =~= seq![
            ("app"@, DocModel::Table(norm_app(tbl_lookup(root0, "app"@)))),
            ("sections"@, DocModel::List(norm_sections(tbl_lookup(root0, "sections"@)))),
            ("state"@, DocModel::Table(norm_state(tbl_lookup(root0, "state"@)))),
        ]);
    }
    let ghost restm = entry_models_of(root@);
    let n = root.len();
    let mut src = root;
    let mut i: usize = 0;
    proof {
        crate::doc::lemma_entry_models(src@);
        assert(entry_models_of(out@) =~= head + restm.subrange(0, 0));
        assert(restm.subrange(i as int, n as int) =~= restm);
    }
    while i < n
        invariant
            0 <= i <= n,
            n == restm.len(),
            src@.len() == n - i,
            entry_models_of(src@) == restm.subrange(i as int, n as int),
            entry_models_of(out@) == head + restm.subrange(0, i as int),
        decreases n - i,
    {
        proof {
            crate::doc::lemma_entry_models(src@);
            assert(entry_models_of(src@)[0] == restm[i as int]);
        }
        let ghost srcpre = src@;
        let entry = src.remove(0);
        proof {
            assert(src@ =~= srcpre.drop_first());
            crate::doc::lemma_entry_models(srcpre);
            crate::doc::lemma_entry_models(src@);
            assert forall|k: int|
                0 <= k < src@.len() implies entry_models_of(src@)[k] == restm[i + 1 + k] by {
                assert(src@[k] == srcpre[k + 1]);
                assert(entry_models_of(srcpre)[k + 1] == restm.subrange(i as int, n as int)[k
                    + 1]);
            }
            assert(entry_models_of(src@) =~= restm.subrange(i + 1, n as int));
        }
        let ghost outpre = out@;
        out.push(entry);
        proof {
            crate::doc::lemma_entry_models_push(outpre, srcpre[0]);
            assert(entry_models_of(out@) =~= head + restm.subrange(0, i + 1));
        }
        i = i + 1;
    }
    proof {
        assert(restm.subrange(0, n as int) =~= restm);
        assert(restm == other_entries(root0));
    }
    DocValue::Table(out)
}

/// The root entries of a document model.
pub open spec fn root_of(m: DocModel) -> Seq<(Seq<char>, DocModel)> {
    table_entries(m)
}

/// A setting read from the settings block.
pub open spec fn setting_of(m: DocModel, key: Seq<char>) -> Option<DocModel> {
    match tbl_lookup(root_of(m), "app"@) {
        Some(a) => tbl_lookup(table_entries(a), key),
        None => None,
    }
}

/// The configuration store: the normalized document and the accessors
/// and mutations the request layer calls. Persisting the document is the
/// caller's part: it serializes `document()` after every mutation.
pub struct ConfigStore {
    doc: DocValue,
}

impl ConfigStore {
    /// The model of the held document.
    pub closed spec fn model(self) -> DocModel {
        model_of(self.doc)
    }

    /// Builds the store from a parsed document, normalizing it; the
    /// caller persists the normalized form at once.
    pub fn new(doc: DocValue) -> (s: Self)
        ensures
            s.model() == normalize_model(model_of(doc)),
    {
        ConfigStore { doc: normalize_doc(doc) }
    }

    /// The held document, for serialization.
    pub fn document(&self) -> (r: &DocValue)
        ensures
            model_of(*r) == self.model(),
    {
        &self.doc
    }

    /// The delimiter setting, defaulted to a comma and space.
    pub fn delimiter(&self) -> (r: String)
        ensures
            r@ == match setting_of(self.model(), "delimiter"@) {
                Some(DocModel::Text(s)) => s,
                _ => ", "@,
            },
    {
        match self.app_value("delimiter") {
            Some(DocValue::Text(s)) => s.clone(),
            _ => String::from_str(", "),
        }
    }

    /// The confirm-before-delete flag, defaulted on.
    pub fn confirm_delete(&self) -> (r: bool)
        ensures
            r == match setting_of(self.model(), "confirm_delete"@) {
                Some(DocModel::Flag(b)) => b,
                _ => true,
            },
    {
        match self.app_value("confirm_delete") {
            Some(DocValue::Flag(b)) => *b,
            _ => true,
        }
    }

    /// The copy debounce in thousandths of a second, clamped to be
    /// non-negative with a two-second default.
    pub fn copy_debounce_millis(&self) -> (r: i64)
        ensures
            r as int == debounce_value(setting_of(self.model(), "copy_debounce_sec"@)),
            r >= 0,
    {
        match self.app_value("copy_debounce_sec") {
            Some(v) => match crate::doc::doc_millis(v) {
                Some(d) => if d >= 0 {
                    d
                } else {
                    2000
                },
                None => 2000,
            },
            None => 2000,
        }
    }

    /// The preferred service port, defaulted to 3000.
    pub fn history_server_port(&self) -> (r: u16)
        ensures
            r as int == port_value(setting_of(self.model(), "history_server_port"@)),
            r >= 1,
    {
        match self.app_value("history_server_port") {
            Some(v) => match crate::doc::doc_int(v) {
                Some(p) => if 1 <= p && p <= 65535 {
                    p as u16
                } else {
                    3000
                },
                None => 3000,
            },
            None => 3000,
        }
    }

    /// The history confirm-delete flag, defaulted on.
    pub fn history_confirm_delete(&self) -> (r: bool)
        ensures
            r == match setting_of(self.model(), "history_confirm_delete"@) {
                Some(DocModel::Flag(b)) => b,
                _ => true,
            },
    {
        match self.app_value("history_confirm_delete") {
            Some(DocValue::Flag(b)) => *b,
            _ => true,
        }
    }

    /// The active-entry cap for the history log, defaulted to 300.
    pub fn history_max_entries(&self) -> (r: usize)
        ensures
            r as int == max_entries_value_usize(setting_of(self.model(), "history_max_entries"@)),
            r >= 1,
    {
        match self.app_value("history_max_entries") {
            Some(v) => match crate::doc::doc_int(v) {
                Some(p) => if 1 <= p && p as u64 <= usize::MAX as u64 {
                    p as usize
                } else {
                    300
                },
                None => 300,
            },
            None => 300,
        }
    }

    /// A reference to a settings value.
    fn app_value(&self, key: &str) -> (r: Option<&DocValue>)
        ensures
            match r {
                Some(v) => setting_of(self.model(), key@) == Some(model_of(*v)),
                None => setting_of(self.model(), key@) is None,
            },
    {
        match &self.doc {
            DocValue::Table(root) => match crate::doc::tbl_get_ref(root, "app") {
                Some(DocValue::Table(app)) => crate::doc::tbl_get_ref(app, key),
                Some(other) => {
                    proof {
                        assert(table_entries(model_of(*other))
                            =~= Seq::<(Seq<char>, DocModel)>::empty());
                        if tbl_has(table_entries(model_of(*other)), key@) {
                            let k = choose|k: int|
                                0 <= k < table_entries(model_of(*other)).len() && (
                                #[trigger] table_entries(model_of(*other))[k]).0 == key@;
                        }
                    }
                    None
                },
                None => None,
            },
            _ => {
                proof {
                    assert(root_of(self.model()) =~= Seq::<(Seq<char>, DocModel)>::empty());
                    if tbl_has(root_of(self.model()), "app"@) {
                        let k = choose|k: int|
                            0 <= k < root_of(self.model()).len() && (#[trigger] root_of(
                                self.model(),
                            )[k]).0 == "app"@;
                    }
                }
                None
            },
        }
    }
}

/// The archive threshold as the history store consumes it: positive and
/// within the machine's word, else the default of 300.
pub open spec fn max_entries_value_usize(v: Option<DocModel>) -> int {
    match v {
        Some(m) => match int_of(m) {
            Some(p) => if 1 <= p <= usize::MAX {
                p
            } else {
                300
            },
            None => 300,
        },
        None => 300,
    }
}

/// One item descriptor handed to the request layer.
pub struct ItemConfig {
    pub section_name: String,
    pub key: String,
    pub label: String,
    pub choices: Vec<String>,
    pub allow_free_text: bool,
    pub template: String,
}

/// The ghost model of an item descriptor.
pub struct ItemModel {
    pub section: Seq<char>,
    pub key: Seq<char>,
    pub label: Seq<char>,
    pub choices: Seq<Seq<char>>,
    pub allow_free_text: bool,
    pub template: Seq<char>,
}

pub open spec fn item_model(ic: ItemConfig) -> ItemModel {
    ItemModel {
        section: ic.section_name@,
        key: ic.key@,
        label: ic.label@,
        choices: ic.choices@.map_values(|s: String| s@),
        allow_free_text: ic.allow_free_text,
        template: ic.template@,
    }
}

impl ItemConfig {
    /// The item identity used over the wire: `section:key`.
    pub fn item_id(&self) -> (r: String)
        ensures
            r@ == self.section_name@ + ":"@ + self.key@,
    {
        let mut out = self.section_name.clone();
        out.append(":");
        out.append(self.key.as_str());
        out
    }
}

/// The descriptor an item table yields, none when the item is not a
/// table or its key is blank.
pub open spec fn item_descriptor(m: DocModel, section: Seq<char>) -> Option<ItemModel> {
    if !(m is Table) {
        None
    } else {
        let e = table_entries(m);
        let key = match tbl_lookup(e, "key"@) {
            Some(DocModel::Text(t)) => trim_view(t),
            _ => Seq::empty(),
        };
        if key.len() == 0 {
            None
        } else {
            Some(
                ItemModel {
                    section: section,
                    key: key,
                    label: match tbl_lookup(e, "label"@) {
                        Some(DocModel::Text(t)) => t,
                        _ => key,
                    },
                    choices: norm_choices(tbl_lookup(e, "choices"@)),
                    allow_free_text: match tbl_lookup(e, "allow_free_text"@) {
                        Some(DocModel::Flag(b)) => b,
                        _ => false,
                    },
                    template: match tbl_lookup(e, "template"@) {
                        Some(DocModel::Text(t)) => t,
                        _ => "{value}"@,
                    },
                },
            )
        }
    }
}

/// The descriptors of a list of item tables.
pub open spec fn items_from_list(items: Seq<DocModel>, section: Seq<char>) -> Seq<ItemModel>
    decreases items.len(),
{
    if items.len() == 0 {
        Seq::empty()
    } else {
        let rest = items_from_list(items.drop_first(), section);
        match item_descriptor(items[0], section) {
            Some(d) => seq![d] + rest,
            None => rest,
        }
    }
}

/// The descriptors one section contributes for a requested name.
pub open spec fn section_items(s: DocModel, section: Seq<char>) -> Seq<ItemModel> {
    let e = table_entries(s);
    if !(s is Table) {
        Seq::empty()
    } else {
        match tbl_lookup(e, "name"@) {
            Some(DocModel::Text(n)) => if n == section {
                match tbl_lookup(e, "items"@) {
                    Some(DocModel::List(its)) => items_from_list(its, section),
                    _ => Seq::empty(),
                }
            } else {
                Seq::empty()
            },
            _ => Seq::empty(),
        }
    }
}

/// All descriptors of the document for a requested section name.
pub open spec fn items_of(m: DocModel, section: Seq<char>) -> Seq<ItemModel> {
    match tbl_lookup(root_of(m), "sections"@) {
        Some(DocModel::List(secs)) => sections_items(secs, section),
        _ => Seq::empty(),
    }
}

pub open spec fn sections_items(secs: Seq<DocModel>, section: Seq<char>) -> Seq<ItemModel>
    decreases secs.len(),
{
    if secs.len() == 0 {
        Seq::empty()
    } else {
        section_items(secs[0], section) + sections_items(secs.drop_first(), section)
    }
}

impl ConfigStore {
    /// The item descriptors of every section carrying the given name,
    /// in order, with blank-keyed items dropped.
    pub fn get_items(&self, section_name: &str) -> (r: Vec<ItemConfig>)
        ensures
            r@.map_values(|ic: ItemConfig| item_model(ic)) == items_of(
                self.model(),
                section_name@,
            ),
    {
        let mut out: Vec<ItemConfig> = Vec::new();
        proof {
            assert(out@.map_values(|ic: ItemConfig| item_model(ic)) =~= Seq::<ItemModel>::empty());
        }
        let secs: &Vec<DocValue> = match &self.doc {
            DocValue::Table(root) => match crate::doc::tbl_get_ref(root, "sections") {
                Some(DocValue::List(its)) => its,
                _ => {
                    return out;
                },
            },
            _ => {
                proof {
                    assert(root_of(self.model()) =~= Seq::<(Seq<char>, DocModel)>::empty());
                    if tbl_has(root_of(self.model()), "sections"@) {
                        let k = choose|k: int|
                            0 <= k < root_of(self.model()).len() && (#[trigger] root_of(
                                self.model(),
                            )[k]).0 == "sections"@;
                    }
                }
                return out;
            },
        };
        let ghost secm = models_of_seq(secs@);
        let n = secs.len();
        let mut i: usize = 0;
        proof {
            crate::doc::lemma_models_of_seq(secs@);
            assert(secm.subrange(0, n as int) =~= secm);
        }
        while i < n
            invariant
                0 <= i <= n,
                n == secs@.len(),
                secm == models_of_seq(secs@),
                secm.len() == n,
                forall|k: int| 0 <= k < n ==> #[trigger] secm[k] == model_of(secs@[k]),
                sections_items(secm, section_name@) == out@.map_values(
                    |ic: ItemConfig| item_model(ic),
                ) + sections_items(secm.subrange(i as int, n as int), section_name@),
            decreases n - i,
        {
            let ghost suf = secm.subrange(i as int, n as int);
            proof {
                assert(suf[0] == secm[i as int]);
                assert(suf.drop_first() =~= secm.subrange(i + 1, n as int));
            }
            self.collect_section_items(&secs[i], section_name, &mut out);
            i = i + 1;
        }
        proof {
            assert(secm.subrange(n as int, n as int) =~= Seq::<DocModel>::empty());
            assert(sections_items(Seq::<DocModel>::empty(), section_name@)
                =~= Seq::<ItemModel>::empty());
            assert(out@.map_values(|ic: ItemConfig| item_model(ic)) + Seq::<ItemModel>::empty()
                =~= out@.map_values(|ic: ItemConfig| item_model(ic)));
        }
        out
    }

    /// Appends the descriptors one section value contributes.
    fn collect_section_items(&self, s: &DocValue, section_name: &str, out: &mut Vec<ItemConfig>)
        ensures
            final(out)@.map_values(|ic: ItemConfig| item_model(ic)) == old(out)@.map_values(
                |ic: ItemConfig| item_model(ic),
            ) + section_items(model_of(*s), section_name@),
    {
        let se: &Vec<DocEntry> = match s {
            DocValue::Table(es) => es,
            _ => {
                proof {
                    assert(old(out)@.map_values(|ic: ItemConfig| item_model(ic)) + section_items(
                        model_of(*s),
                        section_name@,
                    ) =~= old(out)@.map_values(|ic: ItemConfig| item_model(ic)));
                }
                return ;
            },
        };
        let name_ok = match crate::doc::tbl_get_ref(se, "name") {
            Some(DocValue::Text(t)) => crate::text::str_eq(t.as_str(), section_name),
            _ => false,
        };
        if !name_ok {
            proof {
                assert(old(out)@.map_values(|ic: ItemConfig| item_model(ic)) + section_items(
                    model_of(*s),
                    section_name@,
                ) =~= old(out)@.map_values(|ic: ItemConfig| item_model(ic)));
            }
            return ;
        }
        let items: &Vec<DocValue> = match crate::doc::tbl_get_ref(se, "items") {
            Some(DocValue::List(its)) => its,
            _ => {
                proof {
                    assert(old(out)@.map_values(|ic: ItemConfig| item_model(ic)) + section_items(
                        model_of(*s),
                        section_name@,
                    ) =~= old(out)@.map_values(|ic: ItemConfig| item_model(ic)));
                }
                return ;
            },
        };
        let ghost itm = models_of_seq(items@);
        let m = items.len();
        let mut j: usize = 0;
        proof {
            crate::doc::lemma_models_of_seq(items@);
            assert(section_items(model_of(*s), section_name@) == items_from_list(
                itm,
                section_name@,
            ));
            assert(itm.subrange(0, m as int) =~= itm);
            assert(old(out)@.map_values(|ic: ItemConfig| item_model(ic)) + items_from_list(
                itm,
                section_name@,
            ) =~= old(out)@.map_values(|ic: ItemConfig| item_model(ic)) + items_from_list(
                itm.subrange(0, m as int),
                section_name@,
            ));
        }
        while j < m
            invariant
                0 <= j <= m,
                m == items@.len(),
                itm == models_of_seq(items@),
                itm.len() == m,
                forall|k: int| 0 <= k < m ==> #[trigger] itm[k] == model_of(items@[k]),
                old(out)@.map_values(|ic: ItemConfig| item_model(ic)) + items_from_list(
                    itm,
                    section_name@,
                ) == out@.map_values(|ic: ItemConfig| item_model(ic)) + items_from_list(
                    itm.subrange(j as int, m as int),
                    section_name@,
                ),
            decreases m - j,
        {
            let ghost suf = itm.subrange(j as int, m as int);
            proof {
                assert(suf[0] == itm[j as int]);
                assert(suf.drop_first() =~= itm.subrange(j + 1, m as int));
            }
            if let DocValue::Table(ie) = &items[j] {
                let key = match crate::doc::tbl_get_ref(ie, "key") {
                    Some(DocValue::Text(t)) => crate::text::trim_str(t.as_str()),
                    _ => String::new(),
                };
                proof {
                    crate::text::lemma_trim_trimmed(Seq::<char>::empty());
                    assert(trim_view(Seq::<char>::empty()) =~= Seq::<char>::empty());
                }
                if key.as_str().unicode_len() > 0 {
                    let label = match crate::doc::tbl_get_ref(ie, "label") {
                        Some(DocValue::Text(t)) => t.clone(),
                        _ => key.clone(),
                    };
                    let template = match crate::doc::tbl_get_ref(ie, "template") {
                        Some(DocValue::Text(t)) => t.clone(),
                        _ => String::from_str("{value}"),
                    };
                    let allow_free_text = match crate::doc::tbl_get_ref(ie, "allow_free_text") {
                        Some(DocValue::Flag(b)) => *b,
                        _ => false,
                    };
                    let choices = normalize_choices_from_value(
                        crate::doc::tbl_get_ref(ie, "choices"),
                    );
                    let ic = ItemConfig {
                        section_name: String::from_str(section_name),
                        key,
                        label,
                        choices,
                        allow_free_text,
                        template,
                    };
                    let ghost outpre = out@;
                    proof {
                        assert(item_descriptor(suf[0], section_name@) == Some(item_model(ic)));
                    }
                    out.push(ic);
                    proof {
                        assert(out@.map_values(|x: ItemConfig| item_model(x)) =~= outpre.map_values(
                            |x: ItemConfig| item_model(x),
                        ).push(item_model(out@[out@.len() - 1])));
                        assert(outpre.map_values(|x: ItemConfig| item_model(x)) + (seq![
                            item_model(out@[out@.len() - 1]),
                        ] + items_from_list(suf.drop_first(), section_name@)) =~= out@.map_values(
                            |x: ItemConfig| item_model(x),
                        ) + items_from_list(suf.drop_first(), section_name@));
                    }
                } else {
                    proof {
                        assert(item_descriptor(suf[0], section_name@) is None);
                    }
                }
            } else {
                proof {
                    assert(!(model_of(items@[j as int]) is Table));
                    assert(item_descriptor(suf[0], section_name@) is None);
                }
            }
            j = j + 1;
        }
        proof {
            assert(itm.subrange(m as int, m as int) =~= Seq::<DocModel>::empty());
            assert(items_from_list(Seq::<DocModel>::empty(), section_name@)
                =~= Seq::<ItemModel>::empty());
            assert(out@.map_values(|ic: ItemConfig| item_model(ic)) + Seq::<ItemModel>::empty()
                =~= out@.map_values(|ic: ItemConfig| item_model(ic)));
        }
    }
}


/// The entries of the state block.
pub open spec fn state_entries_of(m: DocModel) -> Seq<(Seq<char>, DocModel)> {
    match tbl_lookup(root_of(m), "state"@) {
        Some(DocModel::Table(es)) => es,
        _ => Seq::empty(),
    }
}

/// The entries of one section's state table.
pub open spec fn section_state_of(m: DocModel, section: Seq<char>) -> Seq<(Seq<char>, DocModel)> {
    match tbl_lookup(state_entries_of(m), section) {
        Some(DocModel::Table(es)) => es,
        _ => Seq::empty(),
    }
}

/// The selected choice stored for an item: trimmed, blank readings fall
/// back to the sentinel.
pub open spec fn selected_of(m: DocModel, section: Seq<char>, key: Seq<char>) -> Seq<char> {
    match tbl_lookup(section_state_of(m, section), key + "_selected"@) {
        Some(DocModel::Text(t)) => if trim_view(t).len() > 0 {
            trim_view(t)
        } else {
            sentinel()
        },
        _ => sentinel(),
    }
}

/// The confirmed free text stored for an item, trimmed, defaulting empty.
pub open spec fn free_text_of(m: DocModel, section: Seq<char>, key: Seq<char>) -> Seq<char> {
    match tbl_lookup(section_state_of(m, section), key + "_free_text"@) {
        Some(DocModel::Text(t)) => trim_view(t),
        _ => Seq::empty(),
    }
}

impl ConfigStore {
    /// Reads the normalized selection state of an item: the selected
    /// choice (sentinel when unset or blank) and the free text.
    pub fn get_item_state(&self, section_name: &str, key: &str) -> (r: (String, String))
        ensures
            r.0@ == selected_of(self.model(), section_name@, key@),
            r.1@ == free_text_of(self.model(), section_name@, key@),
    {
        let mut selected_key = String::from_str(key);
        selected_key.append("_selected");
        let mut free_key = String::from_str(key);
        free_key.append("_free_text");
        let selected = match self.state_value(section_name, selected_key.as_str()) {
            Some(DocValue::Text(t)) => {
                let tr = crate::text::trim_str(t.as_str());
                if tr.as_str().unicode_len() > 0 {
                    tr
                } else {
                    String::from_str(crate::no_selection())
                }
            },
            _ => String::from_str(crate::no_selection()),
        };
        let free_text = match self.state_value(section_name, free_key.as_str()) {
            Some(DocValue::Text(t)) => crate::text::trim_str(t.as_str()),
            _ => String::new(),
        };
        (selected, free_text)
    }

    /// A reference into one section's state table.
    fn state_value(&self, section_name: &str, key: &str) -> (r: Option<&DocValue>)
        ensures
            match r {
                Some(v) => tbl_lookup(section_state_of(self.model(), section_name@), key@)
                    == Some(model_of(*v)),
                None => tbl_lookup(section_state_of(self.model(), section_name@), key@) is None,
            },
    {
        match &self.doc {
            DocValue::Table(root) => match crate::doc::tbl_get_ref(root, "state") {
                Some(DocValue::Table(st)) => match crate::doc::tbl_get_ref(st, section_name) {
                    Some(DocValue::Table(sec)) => {
                        return crate::doc::tbl_get_ref(sec, key);
                    },
                    Some(other) => {
                        proof {
                            lemma_empty_table_lookup(table_entries(model_of(*other)), key@);
                        }
                        return None;
                    },
                    None => {
                        proof {
                            lemma_empty_table_lookup(Seq::empty(), key@);
                        }
                        return None;
                    },
                },
                Some(other) => {
                    proof {
                        lemma_empty_table_lookup(table_entries(model_of(*other)), section_name@);
                        lemma_empty_table_lookup(Seq::empty(), key@);
                    }
                    return None;
                },
                None => {
                    proof {
                        lemma_empty_table_lookup(Seq::empty(), section_name@);
                        lemma_empty_table_lookup(Seq::empty(), key@);
                    }
                    return None;
                },
            },
            _ => {
                proof {
                    lemma_empty_table_lookup(root_of(self.model()), "state"@);
                    lemma_empty_table_lookup(Seq::empty(), section_name@);
                    lemma_empty_table_lookup(Seq::empty(), key@);
                }
                return None;
            },
        }
    }

    /// Stores the selection state of an item: a blank selection becomes
    /// the sentinel, both values are trimmed. Only the two state keys of
    /// the item change; every other reading of the document is kept.
    pub fn set_item_state(
        &mut self,
        section_name: &str,
        key: &str,
        selected: &str,
        free_text: &str,
    )
        ensures
            selected_of(final(self).model(), section_name@, key@) == (
            if crate::text::is_blank(selected@) {
                sentinel()
            } else {
                trim_view(selected@)
            }),
            tbl_lookup(section_state_of(final(self).model(), section_name@), key@ + "_selected"@)
                == Some(
                DocModel::Text(
                    if crate::text::is_blank(selected@) {
                        sentinel()
                    } else {
                        trim_view(selected@)
                    },
                ),
            ),
            tbl_lookup(section_state_of(final(self).model(), section_name@), key@ + "_free_text"@)
                == Some(DocModel::Text(trim_view(free_text@))),
            free_text_of(final(self).model(), section_name@, key@) == trim_view(free_text@),
            forall|k2: Seq<char>|
                k2 != key@ + "_selected"@ && k2 != key@ + "_free_text"@
                    ==> #[trigger] tbl_lookup(
                    section_state_of(final(self).model(), section_name@),
                    k2,
                ) == tbl_lookup(section_state_of(old(self).model(), section_name@), k2),
            forall|s2: Seq<char>|
                s2 != section_name@ ==> #[trigger] tbl_lookup(
                    state_entries_of(final(self).model()),
                    s2,
                ) == tbl_lookup(state_entries_of(old(self).model()), s2),
            forall|k2: Seq<char>|
                k2 != "state"@ ==> #[trigger] tbl_lookup(root_of(final(self).model()), k2)
                    == tbl_lookup(root_of(old(self).model()), k2),
    {
        let sel_trim = crate::text::trim_str(selected);
        let sel: String = if sel_trim.as_str().unicode_len() == 0 {
            String::from_str(crate::no_selection())
        } else {
            sel_trim
        };
        let ft = crate::text::trim_str(free_text);
        proof {
            lemma_sentinel_nonblank();
            crate::text::lemma_trim_trimmed(selected@);
            crate::text::lemma_trim_trimmed(free_text@);
        }
        let mut selected_key = String::from_str(key);
        selected_key.append("_selected");
        let mut free_key = String::from_str(key);
        free_key.append("_free_text");
        proof {
            lemma_distinct_suffix(key@);
        }
        let mut doc = DocValue::Table(Vec::new());
        core::mem::swap(&mut doc, &mut self.doc);
        let ghost m0 = model_of(doc);
        let mut root: Vec<DocEntry> = match doc {
            DocValue::Table(es) => es,
            _ => Vec::new(),
        };
        proof {
            if root@.len() == 0 {
                assert(entry_models_of(root@) =~= Seq::<(Seq<char>, DocModel)>::empty());
            }
            if !(m0 is Table) {
                assert(table_entries(m0) =~= Seq::<(Seq<char>, DocModel)>::empty());
                // a non-table root has no state block, like an empty table
                lemma_empty_table_lookup(root_of(m0), "state"@);
            }
        }
        let ghost root0 = entry_models_of(root@);
        let stv = crate::doc::tbl_swap_val(&mut root, "state", DocValue::Table(Vec::new()));
        let ghost stm = match &stv {
            Some(x) => Some(model_of(*x)),
            None => None,
        };
        let mut st: Vec<DocEntry> = match stv {
            Some(DocValue::Table(es)) => es,
            _ => Vec::new(),
        };
        proof {
            if st@.len() == 0 {
                assert(entry_models_of(st@) =~= Seq::<(Seq<char>, DocModel)>::empty());
            }
            assert(entry_models_of(st@) == state_entries_of(m0));
        }
        let ghost st0 = entry_models_of(st@);
        let secv = crate::doc::tbl_swap_val(&mut st, section_name, DocValue::Table(Vec::new()));
        let ghost secm = match &secv {
            Some(x) => Some(model_of(*x)),
            None => None,
        };
        let mut sec: Vec<DocEntry> = match secv {
            Some(DocValue::Table(es)) => es,
            _ => Vec::new(),
        };
        proof {
            if sec@.len() == 0 {
                assert(entry_models_of(sec@) =~= Seq::<(Seq<char>, DocModel)>::empty());
            }
            assert(entry_models_of(sec@) == section_state_of(m0, section_name@));
        }
        let ghost sec0 = entry_models_of(sec@);
        crate::doc::tbl_put(&mut sec, selected_key.as_str(), DocValue::Text(sel));
        crate::doc::tbl_put(&mut sec, free_key.as_str(), DocValue::Text(ft));
        proof {
            crate::doc::lemma_tbl_set(sec0, selected_key@, entry_models_of(sec@)[0].1);
        }
        let ghost sec1 = tbl_set(
            sec0,
            selected_key@,
            DocModel::Text(
                if crate::text::is_blank(selected@) {
                    sentinel()
                } else {
                    trim_view(selected@)
                },
            ),
        );
        proof {
            crate::doc::lemma_tbl_set(
                sec0,
                selected_key@,
                DocModel::Text(
                    if crate::text::is_blank(selected@) {
                        sentinel()
                    } else {
                        trim_view(selected@)
                    },
                ),
            );
            crate::doc::lemma_tbl_set(sec1, free_key@, DocModel::Text(trim_view(free_text@)));
        }
        crate::doc::tbl_put(&mut st, section_name, DocValue::Table(sec));
        proof {
            crate::doc::lemma_tbl_set_twice(
                st0,
                section_name@,
                DocModel::Table(Seq::empty()),
                DocModel::Table(entry_models_of(sec@)),
            );
            crate::doc::lemma_tbl_set(st0, section_name@, DocModel::Table(entry_models_of(sec@)));
        }
        crate::doc::tbl_put(&mut root, "state", DocValue::Table(st));
        proof {
            crate::doc::lemma_tbl_set_twice(
                root0,
                "state"@,
                DocModel::Table(Seq::empty()),
                DocModel::Table(entry_models_of(st@)),
            );
            crate::doc::lemma_tbl_set(root0, "state"@, DocModel::Table(entry_models_of(st@)));
        }
        self.doc = DocValue::Table(root);
    }

    /// Wipes a section's selection state back to defaults.
    pub fn clear_section_state(&mut self, section_name: &str)
        ensures
            tbl_lookup(state_entries_of(final(self).model()), section_name@) == Some(
                DocModel::Table(Seq::empty()),
            ),
            section_state_of(final(self).model(), section_name@) == Seq::<(
                Seq<char>,
                DocModel,
            )>::empty(),
            forall|s2: Seq<char>|
                s2 != section_name@ ==> #[trigger] tbl_lookup(
                    state_entries_of(final(self).model()),
                    s2,
                ) == tbl_lookup(state_entries_of(old(self).model()), s2),
            forall|k2: Seq<char>|
                k2 != "state"@ ==> #[trigger] tbl_lookup(root_of(final(self).model()), k2)
                    == tbl_lookup(root_of(old(self).model()), k2),
    {
        let mut doc = DocValue::Table(Vec::new());
        core::mem::swap(&mut doc, &mut self.doc);
        let ghost m0 = model_of(doc);
        let mut root: Vec<DocEntry> = match doc {
            DocValue::Table(es) => es,
            _ => Vec::new(),
        };
        proof {
            if root@.len() == 0 {
                assert(entry_models_of(root@) =~= Seq::<(Seq<char>, DocModel)>::empty());
            }
            if !(m0 is Table) {
                assert(table_entries(m0) =~= Seq::<(Seq<char>, DocModel)>::empty());
                lemma_empty_table_lookup(root_of(m0), "state"@);
            }
        }
        let ghost root0 = entry_models_of(root@);
        let stv = crate::doc::tbl_swap_val(&mut root, "state", DocValue::Table(Vec::new()));
        let mut st: Vec<DocEntry> = match stv {
            Some(DocValue::Table(es)) => es,
            _ => Vec::new(),
        };
        proof {
            if st@.len() == 0 {
                assert(entry_models_of(st@) =~= Seq::<(Seq<char>, DocModel)>::empty());
            }
            assert(entry_models_of(st@) == state_entries_of(m0));
        }
        let ghost st0 = entry_models_of(st@);
        crate::doc::tbl_put(&mut st, section_name, DocValue::Table(Vec::new()));
        proof {
            assert(entry_models_of(Seq::<DocEntry>::empty())
                =~= Seq::<(Seq<char>, DocModel)>::empty());
            crate::doc::lemma_tbl_set(st0, section_name@, DocModel::Table(Seq::empty()));
        }
        crate::doc::tbl_put(&mut root, "state", DocValue::Table(st));
        proof {
            crate::doc::lemma_tbl_set_twice(
                root0,
                "state"@,
                DocModel::Table(Seq::empty()),
                DocModel::Table(entry_models_of(st@)),
            );
            crate::doc::lemma_tbl_set(root0, "state"@, DocModel::Table(entry_models_of(st@)));
        }
        self.doc = DocValue::Table(root);
    }
}

/// Lookups in an empty table find nothing.
proof fn lemma_empty_table_lookup(entries: Seq<(Seq<char>, DocModel)>, key: Seq<char>)
    requires
        entries.len() == 0,
    ensures
        tbl_lookup(entries, key) is None,
{
    if tbl_has(entries, key) {
        let k = choose|k: int| 0 <= k < entries.len() && (#[trigger] entries[k]).0 == key;
    }
}

/// The sentinel is non-empty and trims to itself.
/// A stored free text is already trimmed.
pub proof fn lemma_free_text_trimmed(m: DocModel, section: Seq<char>, key: Seq<char>)
    ensures
        trim_view(free_text_of(m, section, key)) == free_text_of(m, section, key),
{
    match tbl_lookup(section_state_of(m, section), key + "_free_text"@) {
        Some(DocModel::Text(t)) => {
            crate::text::lemma_trim_trimmed(t);
        },
        _ => {
            crate::text::lemma_trim_trimmed(Seq::<char>::empty());
            assert(trim_view(Seq::<char>::empty()) =~= Seq::<char>::empty());
        },
    }
}

pub proof fn lemma_sentinel_nonblank()
    ensures
        sentinel().len() > 0,
        trim_view(sentinel()) == sentinel(),
{
    reveal_strlit("指定なし");
    assert(sentinel().len() == 4);
    assert(!crate::text::is_space_char(sentinel()[0]));
    assert(!crate::text::is_space_char(sentinel()[3]));
    crate::text::lemma_trim_noop(sentinel());
}

/// The two state keys of one item differ.
proof fn lemma_distinct_suffix(key: Seq<char>)
    ensures
        key + "_selected"@ != key + "_free_text"@,
{
    reveal_strlit("_selected");
    reveal_strlit("_free_text");
    assert((key + "_selected"@).len() == key.len() + 9);
    assert((key + "_free_text"@).len() == key.len() + 10);
}

/// Why a configuration mutation was refused.
#[derive(Debug, Clone, Copy, PartialEq, Eq, Structural)]
pub enum ConfigError {
    ItemNotFound,
}

impl ConfigError {
    /// The human-readable description of this error.
    pub fn message(&self) -> (r: &'static str)
        ensures
            r@ == "item not found"@,
    {
        "item not found"
    }
}

/// The sections list of a document, empty when absent or not a list.
pub open spec fn sections_list_of(m: DocModel) -> Seq<DocModel> {
    match tbl_lookup(root_of(m), "sections"@) {
        Some(DocModel::List(s)) => s,
        _ => Seq::empty(),
    }
}

/// An item table carrying exactly this key.
pub open spec fn item_has_key(m: DocModel, key: Seq<char>) -> bool {
    m is Table && tbl_lookup(table_entries(m), "key"@) == Some(DocModel::Text(key))
}

/// The first item position carrying the key.
pub open spec fn item_pos(items: Seq<DocModel>, key: Seq<char>) -> int
    decreases items.len(),
{
    if items.len() == 0 {
        0
    } else if item_has_key(items[0], key) {
        0
    } else {
        1 + item_pos(items.drop_first(), key)
    }
}

pub open spec fn items_have_key(items: Seq<DocModel>, key: Seq<char>) -> bool {
    exists|j: int| 0 <= j < items.len() && item_has_key(#[trigger] items[j], key)
}

/// A section table that carries the requested name and an item with the
/// requested key.
pub open spec fn sec_matches(m: DocModel, section: Seq<char>, key: Seq<char>) -> bool {
    &&& m is Table
    &&& tbl_lookup(table_entries(m), "name"@) == Some(DocModel::Text(section))
    &&& match tbl_lookup(table_entries(m), "items"@) {
        Some(DocModel::List(its)) => items_have_key(its, key),
        _ => false,
    }
}

pub open spec fn sec_pos(secs: Seq<DocModel>, section: Seq<char>, key: Seq<char>) -> int
    decreases secs.len(),
{
    if secs.len() == 0 {
        0
    } else if sec_matches(secs[0], section, key) {
        0
    } else {
        1 + sec_pos(secs.drop_first(), section, key)
    }
}

pub open spec fn has_target(secs: Seq<DocModel>, section: Seq<char>, key: Seq<char>) -> bool {
    exists|i: int| 0 <= i < secs.len() && sec_matches(#[trigger] secs[i], section, key)
}

/// The items list of a matching section.
pub open spec fn items_of_sec(m: DocModel) -> Seq<DocModel> {
    match tbl_lookup(table_entries(m), "items"@) {
        Some(DocModel::List(its)) => its,
        _ => Seq::empty(),
    }
}

/// The choices a mutation reads from a located item, normalized.
pub open spec fn located_choices(secs: Seq<DocModel>, section: Seq<char>, key: Seq<char>) -> Seq<
    Seq<char>,
> {
    let i = sec_pos(secs, section, key);
    let items = items_of_sec(secs[i]);
    let j = item_pos(items, key);
    norm_choices(tbl_lookup(table_entries(items[j]), "choices"@))
}

/// What the located item's table becomes when its choices are replaced.
pub open spec fn with_choices(m: DocModel, ch: Seq<Seq<char>>) -> DocModel {
    DocModel::Table(
        tbl_set(table_entries(m), "choices"@, DocModel::List(ch.map_values(|c: Seq<char>| DocModel::Text(c)))),
    )
}

/// The document relation after a choice mutation that replaced the
/// located item's choices with `ch`.
pub open spec fn choice_update_post(
    m0: DocModel,
    m1: DocModel,
    section: Seq<char>,
    key: Seq<char>,
    ch: Seq<Seq<char>>,
) -> bool {
    let secs0 = sections_list_of(m0);
    let i = sec_pos(secs0, section, key);
    let items0 = items_of_sec(secs0[i]);
    let j = item_pos(items0, key);
    let secs1 = sections_list_of(m1);
    &&& secs1.len() == secs0.len()
    &&& (forall|k: int| 0 <= k < secs0.len() && k != i ==> #[trigger] secs1[k] == secs0[k])
    &&& secs1[i] == DocModel::Table(
        tbl_set(
            table_entries(secs0[i]),
            "items"@,
            DocModel::List(items0.update(j, with_choices(items0[j], ch))),
        ),
    )
    &&& (forall|k2: Seq<char>|
        k2 != "sections"@ ==> #[trigger] tbl_lookup(root_of(m1), k2) == tbl_lookup(
            root_of(m0),
            k2,
        ))
    &&& tbl_lookup(root_of(m1), "sections"@) == Some(DocModel::List(secs1))
}

/// The document is unchanged up to the coercion that materializes the
/// sections list.
pub open spec fn sections_kept_post(m0: DocModel, m1: DocModel) -> bool {
    &&& tbl_lookup(root_of(m1), "sections"@) == Some(DocModel::List(sections_list_of(m0)))
    &&& (forall|k2: Seq<char>|
        k2 != "sections"@ ==> #[trigger] tbl_lookup(root_of(m1), k2) == tbl_lookup(
            root_of(m0),
            k2,
        ))
}

pub proof fn lemma_sec_pos(secs: Seq<DocModel>, section: Seq<char>, key: Seq<char>)
    ensures
        0 <= sec_pos(secs, section, key) <= secs.len(),
        (sec_pos(secs, section, key) < secs.len()) == has_target(secs, section, key),
        sec_pos(secs, section, key) < secs.len() ==> sec_matches(
            secs[sec_pos(secs, section, key)],
            section,
            key,
        ),
        forall|k: int|
            0 <= k < sec_pos(secs, section, key) ==> !sec_matches(
                #[trigger] secs[k],
                section,
                key,
            ),
    decreases secs.len(),
{
    if secs.len() == 0 {
        if has_target(secs, section, key) {
            let k = choose|k: int| 0 <= k < secs.len() && sec_matches(#[trigger] secs[k], section, key);
        }
    } else if sec_matches(secs[0], section, key) {
        assert(has_target(secs, section, key));
    } else {
        let t = secs.drop_first();
        lemma_sec_pos(t, section, key);
        let i = sec_pos(secs, section, key);
        assert forall|k: int| 0 <= k < i implies !sec_matches(#[trigger] secs[k], section, key) by {
            if k > 0 {
                assert(t[k - 1] == secs[k]);
                assert(!sec_matches(t[k - 1], section, key));
            }
        }
        if has_target(t, section, key) {
            assert(t[sec_pos(t, section, key)] == secs[i]);
            assert(has_target(secs, section, key));
        }
        if has_target(secs, section, key) {
            let k = choose|k: int|
                0 <= k < secs.len() && sec_matches(#[trigger] secs[k], section, key);
            assert(k > 0);
            assert(t[k - 1] == secs[k]);
            assert(sec_matches(t[k - 1], section, key));
            assert(has_target(t, section, key));
        }
    }
}

proof fn lemma_item_pos(items: Seq<DocModel>, key: Seq<char>)
    ensures
        0 <= item_pos(items, key) <= items.len(),
        (item_pos(items, key) < items.len()) == items_have_key(items, key),
        item_pos(items, key) < items.len() ==> item_has_key(items[item_pos(items, key)], key),
        forall|k: int|
            0 <= k < item_pos(items, key) ==> !item_has_key(#[trigger] items[k], key),
    decreases items.len(),
{
    if items.len() == 0 {
        if items_have_key(items, key) {
            let k = choose|k: int| 0 <= k < items.len() && item_has_key(#[trigger] items[k], key);
        }
    } else if item_has_key(items[0], key) {
        assert(items_have_key(items, key));
    } else {
        let t = items.drop_first();
        lemma_item_pos(t, key);
        let i = item_pos(items, key);
        assert forall|k: int| 0 <= k < i implies !item_has_key(#[trigger] items[k], key) by {
            if k > 0 {
                assert(t[k - 1] == items[k]);
                assert(!item_has_key(t[k - 1], key));
            }
        }
        if items_have_key(t, key) {
            assert(t[item_pos(t, key)] == items[i]);
            assert(items_have_key(items, key));
        }
        if items_have_key(items, key) {
            let k = choose|k: int|
                0 <= k < items.len() && item_has_key(#[trigger] items[k], key);
            assert(k > 0);
            assert(t[k - 1] == items[k]);
            assert(item_has_key(t[k - 1], key));
            assert(items_have_key(t, key));
        }
    }
}

/// Finds the first item table carrying the key.
fn find_in_items(items: &Vec<DocValue>, key: &str) -> (r: Option<usize>)
    ensures
        match r {
            Some(j) => items_have_key(models_of_seq(items@), key@) && j == item_pos(
                models_of_seq(items@),
                key@,
            ) && j < items@.len(),
            None => !items_have_key(models_of_seq(items@), key@),
        },
{
    proof {
        crate::doc::lemma_models_of_seq(items@);
        lemma_item_pos(models_of_seq(items@), key@);
    }
    let n = items.len();
    let mut j: usize = 0;
    while j < n
        invariant
            0 <= j <= n,
            n == items@.len(),
            models_of_seq(items@).len() == n,
            forall|k: int|
                0 <= k < n ==> #[trigger] models_of_seq(items@)[k] == model_of(items@[k]),
            forall|k: int|
                0 <= k < j ==> !item_has_key(#[trigger] models_of_seq(items@)[k], key@),
        decreases n - j,
    {
        let hit = match &items[j] {
            DocValue::Table(ie) => match crate::doc::tbl_get_ref(ie, "key") {
                Some(DocValue::Text(t)) => crate::text::str_eq(t.as_str(), key),
                _ => false,
            },
            _ => false,
        };
        proof {
            assert(hit == item_has_key(models_of_seq(items@)[j as int], key@));
        }
        if hit {
            proof {
                lemma_item_pos(models_of_seq(items@), key@);
                let p = item_pos(models_of_seq(items@), key@);
                if p < j {
                    assert(!item_has_key(models_of_seq(items@)[p], key@));
                }
                if p > j {
                    assert(!item_has_key(models_of_seq(items@)[j as int], key@));
                }
            }
            return Some(j);
        }
        j = j + 1;
    }
    proof {
        if items_have_key(models_of_seq(items@), key@) {
            let k = choose|k: int|
                0 <= k < models_of_seq(items@).len() && item_has_key(
                    #[trigger] models_of_seq(items@)[k],
                    key@,
                );
        }
    }
    None
}

impl ConfigStore {
    /// The normalized choice list of the located item, none when no
    /// section of that name holds an item with that key.
    fn item_choices(&self, section_name: &str, key: &str) -> (r: Option<Vec<String>>)
        ensures
            match r {
                Some(ch) => has_target(
                    sections_list_of(self.model()),
                    section_name@,
                    key@,
                ) && ch@.map_values(|s: String| s@) == located_choices(
                    sections_list_of(self.model()),
                    section_name@,
                    key@,
                ),
                None => !has_target(sections_list_of(self.model()), section_name@, key@),
            },
    {
        let ghost secs0 = sections_list_of(self.model());
        proof {
            lemma_sec_pos(secs0, section_name@, key@);
        }
        let secs: &Vec<DocValue> = match &self.doc {
            DocValue::Table(root) => match crate::doc::tbl_get_ref(root, "sections") {
                Some(DocValue::List(its)) => its,
                _ => {
                    proof {
                        lemma_no_target_empty(secs0, section_name@, key@);
                    }
                    return None;
                },
            },
            _ => {
                proof {
                    assert(root_of(self.model()) =~= Seq::<(Seq<char>, DocModel)>::empty());
                    if tbl_has(root_of(self.model()), "sections"@) {
                        let k = choose|k: int|
                            0 <= k < root_of(self.model()).len() && (#[trigger] root_of(
                                self.model(),
                            )[k]).0 == "sections"@;
                    }
                    lemma_no_target_empty(secs0, section_name@, key@);
                }
                return None;
            },
        };
        proof {
            crate::doc::lemma_models_of_seq(secs@);
            assert(models_of_seq(secs@) == secs0);
        }
        let n = secs.len();
        let mut i: usize = 0;
        while i < n
            invariant
                0 <= i <= n,
                n == secs@.len(),
                secs0 == sections_list_of(self.model()),
                secs0 == models_of_seq(secs@),
                secs0.len() == n,
                forall|k: int| 0 <= k < n ==> #[trigger] secs0[k] == model_of(secs@[k]),
                forall|k: int| 0 <= k < i ==> !sec_matches(#[trigger] secs0[k], section_name@, key@),
            decreases n - i,
        {
            let sec_items: Option<&Vec<DocValue>> = match &secs[i] {
                DocValue::Table(se) => {
                    let name_ok = match crate::doc::tbl_get_ref(se, "name") {
                        Some(DocValue::Text(t)) => crate::text::str_eq(t.as_str(), section_name),
                        _ => false,
                    };
                    if name_ok {
                        match crate::doc::tbl_get_ref(se, "items") {
                            Some(DocValue::List(its)) => Some(its),
                            _ => None,
                        }
                    } else {
                        None
                    }
                },
                _ => None,
            };
            match sec_items {
                Some(its) => {
                    match find_in_items(its, key) {
                        Some(j) => {
                            proof {
                                assert(sec_matches(secs0[i as int], section_name@, key@));
                                lemma_sec_pos(secs0, section_name@, key@);
                                let p = sec_pos(secs0, section_name@, key@);
                                if p < i {
                                    assert(!sec_matches(secs0[p], section_name@, key@));
                                }
                                if p > i {
                                    assert(!sec_matches(secs0[i as int], section_name@, key@));
                                }
                                assert(p == i);
                                assert(items_of_sec(secs0[i as int]) == models_of_seq(its@));
                            }
                            let item: &DocValue = &its[j];
                            match item {
                                DocValue::Table(ie) => {
                                    let ch = normalize_choices_from_value(
                                        crate::doc::tbl_get_ref(ie, "choices"),
                                    );
                                    proof {
                                        crate::doc::lemma_models_of_seq(its@);
                                        assert(model_of(its@[j as int]) == items_of_sec(
                                            secs0[i as int],
                                        )[j as int]);
                                        assert(entry_models_of(ie@) == table_entries(
                                            items_of_sec(secs0[i as int])[j as int],
                                        ));
                                        assert(j == item_pos(
                                            items_of_sec(secs0[i as int]),
                                            key@,
                                        ));
                                        assert(ch@.map_values(|s: String| s@) == located_choices(
                                            secs0,
                                            section_name@,
                                            key@,
                                        ));
                                    }
                                    return Some(ch);
                                },
                                _ => {
                                    proof {
                                        crate::doc::lemma_models_of_seq(its@);
                                        lemma_item_pos(models_of_seq(its@), key@);
                                        assert(item_has_key(
                                            models_of_seq(its@)[j as int],
                                            key@,
                                        ));
                                        assert(model_of(its@[j as int]) is Table);
                                        assert(false);
                                    }
                                    return None;
                                },
                            }
                        },
                        None => {
                            proof {
                                assert(!sec_matches(secs0[i as int], section_name@, key@));
                            }
                        },
                    }
                },
                None => {
                    proof {
                        assert(!sec_matches(secs0[i as int], section_name@, key@));
                    }
                },
            }
            i = i + 1;
        }
        proof {
            if has_target(secs0, section_name@, key@) {
                let k = choose|k: int|
                    0 <= k < secs0.len() && sec_matches(#[trigger] secs0[k], section_name@, key@);
            }
        }
        None
    }

    /// Replaces the located item's choice list.
    fn replace_item_choices(&mut self, section_name: &str, key: &str, choices: Vec<String>)
        requires
            has_target(sections_list_of(old(self).model()), section_name@, key@),
        ensures
            choice_update_post(
                old(self).model(),
                final(self).model(),
                section_name@,
                key@,
                choices@.map_values(|s: String| s@),
            ),
    {
        let ghost m0 = self.model();
        let ghost secs0 = sections_list_of(m0);
        proof {
            lemma_sec_pos(secs0, section_name@, key@);
        }
        let mut doc = DocValue::Table(Vec::new());
        core::mem::swap(&mut doc, &mut self.doc);
        let mut root: Vec<DocEntry> = match doc {
            DocValue::Table(es) => es,
            _ => {
                proof {
                    // a non-table root holds no sections, so no target
                    assert(root_of(m0) =~= Seq::<(Seq<char>, DocModel)>::empty());
                    if tbl_has(root_of(m0), "sections"@) {
                        let k = choose|k: int|
                            0 <= k < root_of(m0).len() && (#[trigger] root_of(m0)[k]).0
                                == "sections"@;
                    }
                    lemma_no_target_empty(secs0, section_name@, key@);
                    assert(false);
                }
                Vec::new()
            },
        };
        let ghost root0 = entry_models_of(root@);
        let secsv = crate::doc::tbl_swap_val(&mut root, "sections", DocValue::List(Vec::new()));
        let mut secs: Vec<DocValue> = match secsv {
            Some(DocValue::List(its)) => its,
            _ => {
                proof {
                    lemma_no_target_empty(secs0, section_name@, key@);
                    assert(false);
                }
                Vec::new()
            },
        };
        proof {
            assert(models_of_seq(secs@) == secs0);
            crate::doc::lemma_models_of_seq(secs@);
        }
        let mut i: usize = 0;
        let n = secs.len();
        let mut done = false;
        while i < n && !done
            invariant
                0 <= i <= n,
                n == secs@.len(),
                has_target(secs0, section_name@, key@),
                !done ==> models_of_seq(secs@) == secs0,
                !done ==> forall|k: int|
                    0 <= k < i ==> !sec_matches(#[trigger] secs0[k], section_name@, key@),
                done ==> sections_updated(secs0, models_of_seq(secs@), section_name@, key@, choices@.map_values(|s: String| s@)),
                done ==> i > 0,
            decreases n - i,
        {
            proof {
                crate::doc::lemma_models_of_seq(secs@);
            }
            let is_match = match &secs[i] {
                DocValue::Table(se) => {
                    let name_ok = match crate::doc::tbl_get_ref(se, "name") {
                        Some(DocValue::Text(t)) => crate::text::str_eq(t.as_str(), section_name),
                        _ => false,
                    };
                    if name_ok {
                        match crate::doc::tbl_get_ref(se, "items") {
                            Some(DocValue::List(its)) => matches!(find_in_items(its, key), Some(_)),
                            _ => false,
                        }
                    } else {
                        false
                    }
                },
                _ => false,
            };
            proof {
                assert(is_match == sec_matches(secs0[i as int], section_name@, key@));
            }
            if is_match {
                proof {
                    lemma_sec_pos(secs0, section_name@, key@);
                    let p = sec_pos(secs0, section_name@, key@);
                    if p < i {
                        assert(!sec_matches(secs0[p], section_name@, key@));
                    }
                    if p > i {
                        assert(!sec_matches(secs0[i as int], section_name@, key@));
                    }
                    assert(p == i);
                }
                let ghost secspre = secs@;
                let sec_ref = crate::doc::vec_at_mut(&mut secs, i);
                match sec_ref {
                    DocValue::Table(se) => {
                        let ghost se0 = entry_models_of(se@);
                        let itemsv = crate::doc::tbl_swap_val(se, "items", DocValue::List(Vec::new()));
                        let mut items: Vec<DocValue> = match itemsv {
                            Some(DocValue::List(its)) => its,
                            _ => {
                                proof {
                                    assert(sec_matches(secs0[i as int], section_name@, key@));
                                    assert(false);
                                }
                                Vec::new()
                            },
                        };
                        proof {
                            assert(models_of_seq(items@) == items_of_sec(secs0[i as int]));
                        }
                        let ghost items0 = models_of_seq(items@);
                        let j = match find_in_items(&items, key) {
                            Some(j) => j,
                            None => {
                                proof {
                                    assert(sec_matches(secs0[i as int], section_name@, key@));
                                    assert(false);
                                }
                                0
                            },
                        };
                        let cv = choices_to_value(&choices);
                        let ghost itemspre = items@;
                        let item_ref = crate::doc::vec_at_mut(&mut items, j);
                        match item_ref {
                            DocValue::Table(ie) => {
                                let ghost ie0 = entry_models_of(ie@);
                                crate::doc::tbl_put(ie, "choices", cv);
                            },
                            _ => {
                                proof {
                                    crate::doc::lemma_models_of_seq(itemspre);
                                    lemma_item_pos(items0, key@);
                                    assert(item_has_key(items0[j as int], key@));
                                    assert(false);
                                }
                            },
                        }
                        proof {
                            crate::doc::lemma_models_of_seq(items@);
                            crate::doc::lemma_models_of_seq(itemspre);
                            assert(models_of_seq(items@) =~= items0.update(
                                j as int,
                                with_choices(items0[j as int], choices@.map_values(|s: String| s@)),
                            ));
                        }
                        crate::doc::tbl_put(se, "items", DocValue::List(items));
                        proof {
                            crate::doc::lemma_tbl_set_twice(
                                se0,
                                "items"@,
                                DocModel::List(Seq::empty()),
                                DocModel::List(
                                    items0.update(
                                        j as int,
                                        with_choices(
                                            items0[j as int],
                                            choices@.map_values(|s: String| s@),
                                        ),
                                    ),
                                ),
                            );
                        }
                    },
                    _ => {
                        proof {
                            assert(sec_matches(secs0[i as int], section_name@, key@));
                            assert(false);
                        }
                    },
                }
                done = true;
                proof {
                    crate::doc::lemma_models_of_seq(secs@);
                    crate::doc::lemma_models_of_seq(secspre);
                    assert(models_of_seq(secs@) =~= secs0.update(
                        i as int,
                        DocModel::Table(
                            tbl_set(
                                table_entries(secs0[i as int]),
                                "items"@,
                                DocModel::List(
                                    items_of_sec(secs0[i as int]).update(
                                        item_pos(items_of_sec(secs0[i as int]), key@),
                                        with_choices(
                                            items_of_sec(secs0[i as int])[item_pos(
                                                items_of_sec(secs0[i as int]),
                                                key@,
                                            )],
                                            choices@.map_values(|s: String| s@),
                                        ),
                                    ),
                                ),
                            ),
                        ),
                    ));
                }
            }
            i = i + 1;
        }
        proof {
            if !done {
                lemma_sec_pos(secs0, section_name@, key@);
                let p = sec_pos(secs0, section_name@, key@);
                assert(!sec_matches(secs0[p], section_name@, key@));
            }
        }
        crate::doc::tbl_put(&mut root, "sections", DocValue::List(secs));
        proof {
            crate::doc::lemma_tbl_set_twice(
                root0,
                "sections"@,
                DocModel::List(Seq::empty()),
                DocModel::List(models_of_seq(secs@)),
            );
            crate::doc::lemma_tbl_set(root0, "sections"@, DocModel::List(models_of_seq(secs@)));
        }
        self.doc = DocValue::Table(root);
    }
}

/// The updated sections list after a choice replacement.
pub open spec fn sections_updated(
    secs0: Seq<DocModel>,
    secs1: Seq<DocModel>,
    section: Seq<char>,
    key: Seq<char>,
    ch: Seq<Seq<char>>,
) -> bool {
    let i = sec_pos(secs0, section, key);
    let items0 = items_of_sec(secs0[i]);
    let j = item_pos(items0, key);
    secs1 == secs0.update(
        i,
        DocModel::Table(
            tbl_set(
                table_entries(secs0[i]),
                "items"@,
                DocModel::List(items0.update(j, with_choices(items0[j], ch))),
            ),
        ),
    )
}

/// An empty sections list holds no target.
proof fn lemma_no_target_empty(secs: Seq<DocModel>, section: Seq<char>, key: Seq<char>)
    requires
        secs.len() == 0,
    ensures
        !has_target(secs, section, key),
{
    if has_target(secs, section, key) {
        let k = choose|k: int| 0 <= k < secs.len() && sec_matches(#[trigger] secs[k], section, key);
    }
}

impl ConfigStore {
    /// Appends a choice to the located item: a blank or sentinel value
    /// and a value already present are not added; an unknown item is an
    /// error. The caller persists the document after a true result.
    pub fn add_choice(&mut self, section_name: &str, key: &str, value: &str) -> (r: Result<
        bool,
        ConfigError,
    >)
        ensures
            ({
                let v = trim_view(value@);
                let secs0 = sections_list_of(old(self).model());
                &&& (v.len() == 0 || v == sentinel()) ==> r == Result::<bool, ConfigError>::Ok(
                    false,
                ) && final(self).model() == old(self).model()
                &&& (v.len() > 0 && v != sentinel() && !has_target(secs0, section_name@, key@))
                    ==> r == Result::<bool, ConfigError>::Err(ConfigError::ItemNotFound) && final(self).model() == old(self).model()
                &&& (v.len() > 0 && v != sentinel() && has_target(secs0, section_name@, key@))
                    ==> ({
                    let ch = located_choices(secs0, section_name@, key@);
                    if ch.contains(v) {
                        r == Result::<bool, ConfigError>::Ok(false) && final(self).model() == old(self).model()
                    } else {
                        r == Result::<bool, ConfigError>::Ok(true) && choice_update_post(
                            old(self).model(),
                            final(self).model(),
                            section_name@,
                            key@,
                            ch.push(v),
                        )
                    }
                })
            }),
    {
        let vt = crate::text::trim_str(value);
        if vt.as_str().unicode_len() == 0 || crate::text::str_eq(
            vt.as_str(),
            crate::no_selection(),
        ) {
            return Ok(false);
        }
        let found = self.item_choices(section_name, key);
        match found {
            None => Err(ConfigError::ItemNotFound),
            Some(mut ch) => {
                if crate::text::contains_text_in(&ch, vt.as_str()) {
                    Ok(false)
                } else {
                    let ghost chv = ch@.map_values(|s: String| s@);
                    ch.push(vt);
                    proof {
                        assert(ch@.map_values(|s: String| s@) =~= chv.push(trim_view(value@)));
                    }
                    self.replace_item_choices(section_name, key, ch);
                    Ok(true)
                }
            },
        }
    }

    /// Removes a choice from the located item: a blank or sentinel value
    /// and an absent value are not removed; an unknown item is an error.
    pub fn remove_choice(&mut self, section_name: &str, key: &str, value: &str) -> (r: Result<
        bool,
        ConfigError,
    >)
        ensures
            ({
                let v = trim_view(value@);
                let secs0 = sections_list_of(old(self).model());
                &&& (v.len() == 0 || v == sentinel()) ==> r == Result::<bool, ConfigError>::Ok(
                    false,
                ) && final(self).model() == old(self).model()
                &&& (v.len() > 0 && v != sentinel() && !has_target(secs0, section_name@, key@))
                    ==> r == Result::<bool, ConfigError>::Err(ConfigError::ItemNotFound) && final(self).model() == old(self).model()
                &&& (v.len() > 0 && v != sentinel() && has_target(secs0, section_name@, key@))
                    ==> ({
                    let ch = located_choices(secs0, section_name@, key@);
                    if !ch.contains(v) {
                        r == Result::<bool, ConfigError>::Ok(false) && final(self).model() == old(self).model()
                    } else {
                        r == Result::<bool, ConfigError>::Ok(true) && choice_update_post(
                            old(self).model(),
                            final(self).model(),
                            section_name@,
                            key@,
                            without_text(ch, v),
                        )
                    }
                })
            }),
    {
        let vt = crate::text::trim_str(value);
        if vt.as_str().unicode_len() == 0 || crate::text::str_eq(
            vt.as_str(),
            crate::no_selection(),
        ) {
            return Ok(false);
        }
        let found = self.item_choices(section_name, key);
        match found {
            None => Err(ConfigError::ItemNotFound),
            Some(ch) => {
                if !crate::text::contains_text_in(&ch, vt.as_str()) {
                    Ok(false)
                } else {
                    let ghost chv = ch@.map_values(|s: String| s@);
                    let mut filtered: Vec<String> = Vec::new();
                    let m = ch.len();
                    let mut k: usize = 0;
                    proof {
                        assert(chv.subrange(0, m as int) =~= chv);
                        assert(filtered@.map_values(|s: String| s@)
                            =~= Seq::<Seq<char>>::empty());
                    }
                    while k < m
                        invariant
                            0 <= k <= m,
                            m == ch@.len(),
                            chv == ch@.map_values(|s: String| s@),
                            vt@ == trim_view(value@),
                            without_text(chv, trim_view(value@)) == filtered@.map_values(
                                |s: String| s@,
                            ) + without_text(
                                chv.subrange(k as int, m as int),
                                trim_view(value@),
                            ),
                        decreases m - k,
                    {
                        let ghost suf = chv.subrange(k as int, m as int);
                        proof {
                            assert(suf[0] == chv[k as int]);
                            assert(chv[k as int] == ch@[k as int]@);
                            assert(suf.drop_first() =~= chv.subrange(k + 1, m as int));
                        }
                        if !crate::text::str_eq(ch[k].as_str(), vt.as_str()) {
                            let ghost fpre = filtered@;
                            filtered.push(ch[k].clone());
                            proof {
                                assert(filtered@.map_values(|s: String| s@) =~= fpre.map_values(
                                    |s: String| s@,
                                ).push(chv[k as int]));
                                assert(fpre.map_values(|s: String| s@) + (seq![suf[0]]
                                    + without_text(suf.drop_first(), trim_view(value@)))
                                    =~= filtered@.map_values(|s: String| s@) + without_text(
                                    suf.drop_first(),
                                    trim_view(value@),
                                ));
                            }
                        }
                        k = k + 1;
                    }
                    proof {
                        assert(chv.subrange(m as int, m as int) =~= Seq::<Seq<char>>::empty());
                        assert(filtered@.map_values(|s: String| s@) + Seq::<Seq<char>>::empty()
                            =~= filtered@.map_values(|s: String| s@));
                    }
                    self.replace_item_choices(section_name, key, filtered);
                    Ok(true)
                }
            },
        }
    }
}

/// Every collected choice is trimmed, non-empty and unrepeated.
proof fn lemma_collect_props(items: Seq<DocModel>)
    ensures
        forall|k: int|
            0 <= k < collect_choices(items).len() ==> (#[trigger] collect_choices(items)[k]).len()
                > 0 && trim_view(collect_choices(items)[k]) == collect_choices(items)[k],
        forall|k1: int, k2: int|
            0 <= k1 < k2 < collect_choices(items).len() ==> collect_choices(items)[k1]
                != collect_choices(items)[k2],
    decreases items.len(),
{
    if items.len() > 0 {
        lemma_collect_props(items.drop_last());
        let pre = collect_choices(items.drop_last());
        let t = trim_view(text_of(items.last()));
        crate::text::lemma_trim_trimmed(text_of(items.last()));
        let r = collect_choices(items);
        if t.len() > 0 && !pre.contains(t) {
            assert forall|k1: int, k2: int|
                0 <= k1 < k2 < r.len() implies r[k1] != r[k2] by {
                if k2 == r.len() - 1 {
                    assert(r[k1] == pre[k1]);
                    if pre[k1] == t {
                        assert(pre.contains(t));
                    }
                } else {
                    assert(r[k1] == pre[k1] && r[k2] == pre[k2]);
                }
            }
        }
    }
}

/// Removing a text keeps the others, their order, and their properties.
proof fn lemma_without_text_props(s: Seq<Seq<char>>, v: Seq<char>)
    ensures
        forall|k: int|
            0 <= k < without_text(s, v).len() ==> (#[trigger] without_text(s, v)[k]) != v
                && s.contains(without_text(s, v)[k]),
        (forall|k1: int, k2: int| 0 <= k1 < k2 < s.len() ==> s[k1] != s[k2]) ==> (forall|
            k1: int,
            k2: int,
        |
            0 <= k1 < k2 < without_text(s, v).len() ==> without_text(s, v)[k1] != without_text(
                s,
                v,
            )[k2]),
    decreases s.len(),
{
    let r = without_text(s, v);
    if s.len() == 0 {
    } else {
        let t = s.drop_first();
        lemma_without_text_props(t, v);
        let rt = without_text(t, v);
        assert forall|k: int|
            0 <= k < r.len() implies (#[trigger] r[k]) != v && s.contains(r[k]) by {
            if s[0] == v {
                assert(r[k] == rt[k]);
                assert(t.contains(rt[k]));
                let m = choose|m: int| 0 <= m < t.len() && t[m] == rt[k];
                assert(s[m + 1] == t[m]);
            } else {
                if k == 0 {
                    assert(r[0] == s[0]);
                } else {
                    assert(r[k] == rt[k - 1]);
                    assert(t.contains(rt[k - 1]));
                    let m = choose|m: int| 0 <= m < t.len() && t[m] == rt[k - 1];
                    assert(s[m + 1] == t[m]);
                }
            }
        }
        if forall|k1: int, k2: int| 0 <= k1 < k2 < s.len() ==> s[k1] != s[k2] {
            assert forall|k1: int, k2: int| 0 <= k1 < k2 < t.len() implies t[k1] != t[k2] by {
                assert(t[k1] == s[k1 + 1] && t[k2] == s[k2 + 1]);
            }
            assert forall|k1: int, k2: int|
                0 <= k1 < k2 < r.len() implies r[k1] != r[k2] by {
                if s[0] == v {
                    assert(r[k1] == rt[k1] && r[k2] == rt[k2]);
                } else if k1 == 0 {
                    assert(r[k2] == rt[k2 - 1]);
                    assert(t.contains(rt[k2 - 1]));
                    let m = choose|m: int| 0 <= m < t.len() && t[m] == rt[k2 - 1];
                    assert(s[m + 1] == t[m]);
                    assert(s[0] != s[m + 1]);
                } else {
                    assert(r[k1] == rt[k1 - 1] && r[k2] == rt[k2 - 1]);
                }
            }
        }
    }
}

/// The shape of every normalized choice list: the sentinel heads it, and
/// what follows is non-blank, free of repeats, and never the sentinel.
pub proof fn lemma_choices_shape(v: Option<DocModel>)
    ensures
        norm_choices(v).len() >= 1,
        norm_choices(v)[0] == sentinel(),
        forall|k: int|
            1 <= k < norm_choices(v).len() ==> (#[trigger] norm_choices(v)[k]).len() > 0
                && norm_choices(v)[k] != sentinel(),
        forall|k1: int, k2: int|
            0 <= k1 < k2 < norm_choices(v).len() ==> norm_choices(v)[k1] != norm_choices(v)[k2],
{
    let items = match v {
        Some(m) => list_items(m),
        None => Seq::<DocModel>::empty(),
    };
    let c = collect_choices(items);
    let w = without_text(c, sentinel());
    lemma_collect_props(items);
    lemma_without_text_props(c, sentinel());
    let r = norm_choices(v);
    assert forall|k: int|
        1 <= k < r.len() implies (#[trigger] r[k]).len() > 0 && r[k] != sentinel() by {
        assert(r[k] == w[k - 1]);
        assert(c.contains(w[k - 1]));
        let m = choose|m: int| 0 <= m < c.len() && c[m] == w[k - 1];
    }
    assert forall|k1: int, k2: int|
        0 <= k1 < k2 < r.len() implies r[k1] != r[k2] by {
        if k1 == 0 {
            assert(r[k2] == w[k2 - 1]);
            assert(w[k2 - 1] != sentinel());
        } else {
            assert(r[k1] == w[k1 - 1] && r[k2] == w[k2 - 1]);
        }
    }
}

/// Setting a key to the value it already holds changes nothing.
proof fn lemma_tbl_set_noop(e: Seq<(Seq<char>, DocModel)>, key: Seq<char>, v: DocModel)
    requires
        tbl_lookup(e, key) == Some(v),
        e[crate::doc::key_index(e, key)].0 == key,
    ensures
        tbl_set(e, key, v) == e,
{
    crate::doc::lemma_key_index(e, key);
    assert(tbl_set(e, key, v) =~= e);
}

/// A second normalization of the settings block changes nothing.
proof fn lemma_norm_app_idem(v: Option<DocModel>)
    ensures
        norm_app(Some(DocModel::Table(norm_app(v)))) == norm_app(v),
{
    reveal_strlit("delimiter");
    reveal_strlit("confirm_delete");
    reveal_strlit("copy_debounce_sec");
    reveal_strlit("history_server_port");
    reveal_strlit("history_confirm_delete");
    reveal_strlit("history_max_entries");
    assert("delimiter"@.len() == 9 && "confirm_delete"@.len() == 14 && "copy_debounce_sec"@.len()
        == 17 && "history_server_port"@.len() == 19 && "history_confirm_delete"@.len() == 22
        && "history_max_entries"@.len() == 19);
    assert("history_server_port"@[8] == 's' && "history_max_entries"@[8] == 'm');
    let a = norm_app(v);
    // the lookups a second pass reads
    let e0 = match v {
        Some(m) => table_entries(m),
        None => Seq::<(Seq<char>, DocModel)>::empty(),
    };
    let e1 = if is_text(tbl_lookup(e0, "delimiter"@)) {
        e0
    } else {
        tbl_set(e0, "delimiter"@, DocModel::Text(", "@))
    };
    let e2 = if is_flag(tbl_lookup(e1, "confirm_delete"@)) {
        e1
    } else {
        tbl_set(e1, "confirm_delete"@, DocModel::Flag(true))
    };
    let e3 = tbl_set(
        e2,
        "copy_debounce_sec"@,
        DocModel::Milli(debounce_value(tbl_lookup(e2, "copy_debounce_sec"@))),
    );
    let e4 = tbl_set(
        e3,
        "history_server_port"@,
        DocModel::Int(port_value(tbl_lookup(e3, "history_server_port"@))),
    );
    let e5 = if is_flag(tbl_lookup(e4, "history_confirm_delete"@)) {
        e4
    } else {
        tbl_set(e4, "history_confirm_delete"@, DocModel::Flag(true))
    };
    if !is_text(tbl_lookup(e0, "delimiter"@)) {
        crate::doc::lemma_tbl_set(e0, "delimiter"@, DocModel::Text(", "@));
    }
    if !is_flag(tbl_lookup(e1, "confirm_delete"@)) {
        crate::doc::lemma_tbl_set(e1, "confirm_delete"@, DocModel::Flag(true));
    }
    crate::doc::lemma_tbl_set(
        e2,
        "copy_debounce_sec"@,
        DocModel::Milli(debounce_value(tbl_lookup(e2, "copy_debounce_sec"@))),
    );
    crate::doc::lemma_tbl_set(
        e3,
        "history_server_port"@,
        DocModel::Int(port_value(tbl_lookup(e3, "history_server_port"@))),
    );
    if !is_flag(tbl_lookup(e4, "history_confirm_delete"@)) {
        crate::doc::lemma_tbl_set(e4, "history_confirm_delete"@, DocModel::Flag(true));
    }
    crate::doc::lemma_tbl_set(
        e5,
        "history_max_entries"@,
        DocModel::Int(max_entries_value(tbl_lookup(e5, "history_max_entries"@))),
    );
    // second pass: every lookup already has the right shape and value
    assert(is_text(tbl_lookup(a, "delimiter"@)));
    assert(is_flag(tbl_lookup(a, "confirm_delete"@)));
    assert(tbl_lookup(a, "copy_debounce_sec"@) == Some(
        DocModel::Milli(debounce_value(tbl_lookup(e2, "copy_debounce_sec"@))),
    ));
    assert(debounce_value(tbl_lookup(a, "copy_debounce_sec"@)) == debounce_value(
        tbl_lookup(e2, "copy_debounce_sec"@),
    ));
    crate::doc::lemma_key_index(a, "copy_debounce_sec"@);
    lemma_tbl_set_noop(
        a,
        "copy_debounce_sec"@,
        DocModel::Milli(debounce_value(tbl_lookup(a, "copy_debounce_sec"@))),
    );
    assert(tbl_lookup(a, "history_server_port"@) == Some(
        DocModel::Int(port_value(tbl_lookup(e3, "history_server_port"@))),
    ));
    crate::doc::lemma_key_index(a, "history_server_port"@);
    lemma_tbl_set_noop(
        a,
        "history_server_port"@,
        DocModel::Int(port_value(tbl_lookup(a, "history_server_port"@))),
    );
    assert(is_flag(tbl_lookup(a, "history_confirm_delete"@)));
    assert(tbl_lookup(a, "history_max_entries"@) == Some(
        DocModel::Int(max_entries_value(tbl_lookup(e5, "history_max_entries"@))),
    ));
    crate::doc::lemma_key_index(a, "history_max_entries"@);
    lemma_tbl_set_noop(
        a,
        "history_max_entries"@,
        DocModel::Int(max_entries_value(tbl_lookup(a, "history_max_entries"@))),
    );
}

/// Collecting an already clean list of texts keeps it.
proof fn lemma_collect_clean(c: Seq<Seq<char>>)
    requires
        forall|k: int|
            0 <= k < c.len() ==> (#[trigger] c[k]).len() > 0 && trim_view(c[k]) == c[k],
        forall|k1: int, k2: int| 0 <= k1 < k2 < c.len() ==> c[k1] != c[k2],
    ensures
        collect_choices(c.map_values(|x: Seq<char>| DocModel::Text(x))) == c,
    decreases c.len(),
{
    let items = c.map_values(|x: Seq<char>| DocModel::Text(x));
    if c.len() > 0 {
        assert(items.drop_last() =~= c.drop_last().map_values(|x: Seq<char>| DocModel::Text(x)));
        lemma_collect_clean(c.drop_last());
        assert(text_of(items.last()) == c.last());
        if collect_choices(items.drop_last()).contains(c.last()) {
            let m = choose|m: int|
                0 <= m < c.drop_last().len() && c.drop_last()[m] == c.last();
            assert(c[m] == c[c.len() - 1]);
        }
        assert(collect_choices(items) =~= c);
    } else {
        assert(items.len() == 0);
        assert(collect_choices(items) =~= c);
    }
}

/// A list without the removed text is kept by the removal.
proof fn lemma_without_text_noop(s: Seq<Seq<char>>, v: Seq<char>)
    requires
        forall|k: int| 0 <= k < s.len() ==> (#[trigger] s[k]) != v,
    ensures
        without_text(s, v) == s,
    decreases s.len(),
{
    if s.len() > 0 {
        let t = s.drop_first();
        assert forall|k: int| 0 <= k < t.len() implies (#[trigger] t[k]) != v by {
            assert(t[k] == s[k + 1]);
        }
        lemma_without_text_noop(t, v);
        assert(without_text(s, v) =~= s);
    }
}

/// A second normalization of a choice list changes nothing.
proof fn lemma_norm_choices_idem(v: Option<DocModel>)
    ensures
        norm_choices(Some(DocModel::List(choice_texts(v)))) == norm_choices(v),
{
    let r = norm_choices(v);
    let items = match v {
        Some(m) => list_items(m),
        None => Seq::<DocModel>::empty(),
    };
    let c = collect_choices(items);
    lemma_choices_shape(v);
    lemma_sentinel_nonblank();
    crate::text::lemma_trim_trimmed(sentinel());
    lemma_collect_props(items);
    lemma_without_text_props(c, sentinel());
    assert(choice_texts(v) == r.map_values(|c: Seq<char>| DocModel::Text(c)));
    assert forall|k: int|
        0 <= k < r.len() implies (#[trigger] r[k]).len() > 0 && trim_view(r[k]) == r[k] by {
        if k == 0 {
            assert(r[0] == sentinel());
        } else {
            let w = without_text(c, sentinel());
            assert(r[k] == w[k - 1]);
            assert(c.contains(w[k - 1]));
            let m = choose|m: int| 0 <= m < c.len() && c[m] == w[k - 1];
            assert(trim_view(c[m]) == c[m]);
        }
    }
    lemma_collect_clean(r);
    // removing the sentinel drops exactly the head
    let w = without_text(r, sentinel());
    assert(r[0] == sentinel());
    let tail = r.drop_first();
    assert forall|k: int| 0 <= k < tail.len() implies (#[trigger] tail[k]) != sentinel() by {
        assert(tail[k] == r[k + 1]);
    }
    lemma_without_text_noop(tail, sentinel());
    assert(without_text(r, sentinel()) == without_text(tail, sentinel()));
    assert(norm_choices(Some(DocModel::List(choice_texts(v)))) =~= seq![sentinel()] + tail);
    assert(seq![sentinel()] + tail =~= r);
}

/// A second normalization of an item changes nothing.
proof fn lemma_norm_item_idem(m: DocModel)
    ensures
        norm_item(norm_item(m)) == norm_item(m),
{
    reveal_strlit("key");
    reveal_strlit("label");
    reveal_strlit("allow_free_text");
    reveal_strlit("template");
    reveal_strlit("choices");
    assert("key"@.len() == 3 && "label"@.len() == 5 && "allow_free_text"@.len() == 15
        && "template"@.len() == 8 && "choices"@.len() == 7);
    let e = table_entries(m);
    let key = trim_view(
        match tbl_lookup(e, "key"@) {
            Some(k) => text_of(k),
            None => Seq::<char>::empty(),
        },
    );
    let e1 = tbl_set(e, "key"@, DocModel::Text(key));
    let label = match tbl_lookup(e1, "label"@) {
        Some(DocModel::Text(t)) => t,
        _ => key,
    };
    let e2 = tbl_set(e1, "label"@, DocModel::Text(label));
    let aft = match tbl_lookup(e2, "allow_free_text"@) {
        Some(DocModel::Flag(b)) => b,
        _ => true,
    };
    let e3 = tbl_set(e2, "allow_free_text"@, DocModel::Flag(aft));
    let tmpl = match tbl_lookup(e3, "template"@) {
        Some(DocModel::Text(t)) => t,
        _ => "{value}"@,
    };
    let e4 = tbl_set(e3, "template"@, DocModel::Text(tmpl));
    let a = tbl_set(e4, "choices"@, DocModel::List(choice_texts(tbl_lookup(e4, "choices"@))));
    crate::doc::lemma_tbl_set(e, "key"@, DocModel::Text(key));
    crate::doc::lemma_tbl_set(e1, "label"@, DocModel::Text(label));
    crate::doc::lemma_tbl_set(e2, "allow_free_text"@, DocModel::Flag(aft));
    crate::doc::lemma_tbl_set(e3, "template"@, DocModel::Text(tmpl));
    crate::doc::lemma_tbl_set(
        e4,
        "choices"@,
        DocModel::List(choice_texts(tbl_lookup(e4, "choices"@))),
    );
    // second pass reads back what the first pass wrote
    assert(tbl_lookup(a, "key"@) == Some(DocModel::Text(key)));
    crate::text::lemma_trim_trimmed(
        match tbl_lookup(e, "key"@) {
            Some(k) => text_of(k),
            None => Seq::<char>::empty(),
        },
    );
    crate::doc::lemma_key_index(a, "key"@);
    lemma_tbl_set_noop(a, "key"@, DocModel::Text(key));
    assert(tbl_lookup(a, "label"@) == Some(DocModel::Text(label)));
    crate::doc::lemma_key_index(a, "label"@);
    lemma_tbl_set_noop(a, "label"@, DocModel::Text(label));
    assert(tbl_lookup(a, "allow_free_text"@) == Some(DocModel::Flag(aft)));
    crate::doc::lemma_key_index(a, "allow_free_text"@);
    lemma_tbl_set_noop(a, "allow_free_text"@, DocModel::Flag(aft));
    assert(tbl_lookup(a, "template"@) == Some(DocModel::Text(tmpl)));
    crate::doc::lemma_key_index(a, "template"@);
    lemma_tbl_set_noop(a, "template"@, DocModel::Text(tmpl));
    assert(tbl_lookup(a, "choices"@) == Some(
        DocModel::List(choice_texts(tbl_lookup(e4, "choices"@))),
    ));
    lemma_norm_choices_idem(tbl_lookup(e4, "choices"@));
    crate::doc::lemma_key_index(a, "choices"@);
    lemma_tbl_set_noop(
        a,
        "choices"@,
        DocModel::List(choice_texts(tbl_lookup(a, "choices"@))),
    );
}

/// A second normalization of a section changes nothing.
proof fn lemma_norm_section_idem(m: DocModel)
    ensures
        norm_section(norm_section(m)) == norm_section(m),
{
    reveal_strlit("name");
    reveal_strlit("label");
    reveal_strlit("items");
    reveal_strlit("prompt");
    assert("name"@.len() == 4 && "label"@.len() == 5 && "items"@.len() == 5);
    assert("label"@[0] == 'l' && "items"@[0] == 'i');
    let e = table_entries(m);
    let name = match tbl_lookup(e, "name"@) {
        Some(DocModel::Text(t)) => if trim_view(t).len() > 0 {
            trim_view(t)
        } else {
            "prompt"@
        },
        _ => "prompt"@,
    };
    let e1 = tbl_set(e, "name"@, DocModel::Text(name));
    let label = match tbl_lookup(e1, "label"@) {
        Some(DocModel::Text(t)) => t,
        _ => name,
    };
    let e2 = tbl_set(e1, "label"@, DocModel::Text(label));
    let items = match tbl_lookup(e2, "items"@) {
        Some(DocModel::List(its)) => its,
        _ => Seq::<DocModel>::empty(),
    };
    let normed = items.map_values(|i: DocModel| norm_item(i));
    let a = tbl_set(e2, "items"@, DocModel::List(normed));
    crate::doc::lemma_tbl_set(e, "name"@, DocModel::Text(name));
    crate::doc::lemma_tbl_set(e1, "label"@, DocModel::Text(label));
    crate::doc::lemma_tbl_set(e2, "items"@, DocModel::List(normed));
    // the stored name is non-blank and already trimmed
    assert(tbl_lookup(a, "name"@) == Some(DocModel::Text(name)));
    assert(trim_view(name) == name && name.len() > 0) by {
        match tbl_lookup(e, "name"@) {
            Some(DocModel::Text(t)) => {
                crate::text::lemma_trim_trimmed(t);
                if trim_view(t).len() == 0 {
                    lemma_prompt_literal();
                }
            },
            _ => {
                lemma_prompt_literal();
            },
        }
    }
    crate::doc::lemma_key_index(a, "name"@);
    lemma_tbl_set_noop(a, "name"@, DocModel::Text(name));
    assert(tbl_lookup(a, "label"@) == Some(DocModel::Text(label)));
    crate::doc::lemma_key_index(a, "label"@);
    lemma_tbl_set_noop(a, "label"@, DocModel::Text(label));
    assert(tbl_lookup(a, "items"@) == Some(DocModel::List(normed)));
    let normed2 = normed.map_values(|i: DocModel| norm_item(i));
    assert(normed2 =~= normed) by {
        assert forall|k: int| 0 <= k < normed.len() implies normed2[k] == normed[k] by {
            lemma_norm_item_idem(items[k]);
        }
    }
    crate::doc::lemma_key_index(a, "items"@);
    lemma_tbl_set_noop(a, "items"@, DocModel::List(normed2));
}

/// The fallback section name is non-blank and trimmed.
proof fn lemma_prompt_literal()
    ensures
        "prompt"@.len() > 0,
        trim_view("prompt"@) == "prompt"@,
{
    reveal_strlit("prompt");
    assert(!crate::text::is_space_char("prompt"@[0]));
    assert(!crate::text::is_space_char("prompt"@[5]));
    crate::text::lemma_trim_noop("prompt"@);
}

/// Loading a document twice in a row is idempotent: normalizing an
/// already normalized document reproduces it exactly, so the second load
/// persists a byte-identical form.
pub proof fn lemma_normalize_idempotent(m: DocModel)
    ensures
        normalize_model(normalize_model(m)) == normalize_model(m),
{
    reveal_strlit("app");
    reveal_strlit("sections");
    reveal_strlit("state");
    assert("app"@.len() == 3 && "sections"@.len() == 8 && "state"@.len() == 5);
    let root = table_entries(m);
    let a = normalize_model(m);
    let ra = table_entries(a);
    let appv = DocModel::Table(norm_app(tbl_lookup(root, "app"@)));
    let secv = DocModel::List(norm_sections(tbl_lookup(root, "sections"@)));
    let stv = DocModel::Table(norm_state(tbl_lookup(root, "state"@)));
    let rest = other_entries(root);
    assert(ra == seq![("app"@, appv), ("sections"@, secv), ("state"@, stv)] + rest);
    // lookups in the normalized root find the three blocks at the front
    crate::doc::lemma_key_index(ra, "app"@);
    assert(ra[0].0 == "app"@);
    assert(crate::doc::key_index(ra, "app"@) == 0) by {
        if crate::doc::key_index(ra, "app"@) > 0 {
            assert(ra[0].0 != "app"@);
        }
    }
    assert(tbl_lookup(ra, "app"@) == Some(appv));
    crate::doc::lemma_key_index(ra, "sections"@);
    assert(ra[1].0 == "sections"@ && ra[0].0 != "sections"@);
    assert(crate::doc::key_index(ra, "sections"@) == 1) by {
        crate::doc::lemma_key_index(ra, "sections"@);
        let p = crate::doc::key_index(ra, "sections"@);
        if p > 1 {
            assert(ra[1].0 != "sections"@);
        }
    }
    assert(tbl_lookup(ra, "sections"@) == Some(secv));
    assert(ra[2].0 == "state"@ && ra[0].0 != "state"@ && ra[1].0 != "state"@);
    assert(crate::doc::key_index(ra, "state"@) == 2) by {
        crate::doc::lemma_key_index(ra, "state"@);
        let p = crate::doc::key_index(ra, "state"@);
        if p > 2 {
            assert(ra[2].0 != "state"@);
        }
        if p < 2 {
            assert(ra[p].0 == "state"@);
        }
    }
    crate::doc::lemma_key_index(ra, "state"@);
    assert(tbl_lookup(ra, "state"@) == Some(stv));
    // the three blocks re-normalize to themselves
    lemma_norm_app_idem(tbl_lookup(root, "app"@));
    let secs = norm_sections(tbl_lookup(root, "sections"@));
    assert(norm_sections(Some(secv)) =~= secs) by {
        assert forall|k: int|
            0 <= k < secs.len() implies norm_sections(Some(secv))[k] == secs[k] by {
            let items = match tbl_lookup(root, "sections"@) {
                Some(DocModel::List(its)) => its,
                _ => Seq::<DocModel>::empty(),
            };
            lemma_norm_section_idem(items[k]);
        }
    }
    // the unrecognized tail carries none of the three keys
    crate::doc::lemma_without_key(root, "app"@);
    crate::doc::lemma_without_key(crate::doc::without_key(root, "app"@), "sections"@);
    crate::doc::lemma_without_key(
        crate::doc::without_key(crate::doc::without_key(root, "app"@), "sections"@),
        "state"@,
    );
    let w1 = crate::doc::without_key(root, "app"@);
    let w2 = crate::doc::without_key(w1, "sections"@);
    assert(!crate::doc::tbl_has(rest, "app"@)) by {
        assert(tbl_lookup(w2, "app"@) == tbl_lookup(w1, "app"@));
        assert(tbl_lookup(rest, "app"@) == tbl_lookup(w2, "app"@));
    }
    assert(!crate::doc::tbl_has(rest, "sections"@)) by {
        assert(tbl_lookup(rest, "sections"@) == tbl_lookup(w2, "sections"@));
    }
    lemma_other_entries_skip(ra, rest);
    assert(normalize_model(a) =~= a) by {
        assert(table_entries(normalize_model(a)) =~= ra);
    }
}

/// Filtering the three keys from the normalized root drops exactly the
/// three leading blocks.
proof fn lemma_other_entries_skip(ra: Seq<(Seq<char>, DocModel)>, rest: Seq<(Seq<char>, DocModel)>)
    requires
        ra.len() == 3 + rest.len(),
        ra[0].0 == "app"@,
        ra[1].0 == "sections"@,
        ra[2].0 == "state"@,
        forall|k: int| 0 <= k < rest.len() ==> #[trigger] ra[k + 3] == rest[k],
        !crate::doc::tbl_has(rest, "app"@),
        !crate::doc::tbl_has(rest, "sections"@),
        !crate::doc::tbl_has(rest, "state"@),
        "app"@ != "sections"@,
        "app"@ != "state"@,
        "sections"@ != "state"@,
    ensures
        other_entries(ra) == rest,
{
    let d1 = ra.drop_first();
    let d2 = d1.drop_first();
    let d3 = d2.drop_first();
    assert forall|k: int| 0 <= k < d3.len() implies d3[k] == rest[k] by {
        assert(d3[k] == d2[k + 1]);
        assert(d2[k + 1] == d1[k + 2]);
        assert(d1[k + 2] == ra[k + 3]);
        assert(ra[k + 3] == rest[k]);
    }
    assert(d3 =~= rest);
    assert(!crate::doc::tbl_has(d1, "app"@)) by {
        if crate::doc::tbl_has(d1, "app"@) {
            let k = choose|k: int| 0 <= k < d1.len() && (#[trigger] d1[k]).0 == "app"@;
            if k >= 2 {
                assert(d1[k] == rest[k - 2]);
                assert(crate::doc::tbl_has(rest, "app"@));
            }
        }
    }
    assert(!crate::doc::tbl_has(d2, "sections"@)) by {
        if crate::doc::tbl_has(d2, "sections"@) {
            let k = choose|k: int| 0 <= k < d2.len() && (#[trigger] d2[k]).0 == "sections"@;
            if k >= 1 {
                assert(d2[k] == rest[k - 1]);
                assert(crate::doc::tbl_has(rest, "sections"@));
            }
        }
    }
    let w1 = crate::doc::without_key(ra, "app"@);
    // peel the head then keep the remaining two and the tail
    lemma_without_key_keep_all(d1, "app"@);
    assert(w1 =~= d1);
    let w2 = crate::doc::without_key(w1, "sections"@);
    lemma_without_key_keep_all(d2, "sections"@);
    assert(crate::doc::without_key(d1, "sections"@) =~= crate::doc::without_key(
        d2,
        "sections"@,
    ));
    assert(w2 =~= d2);
    let w3 = crate::doc::without_key(w2, "state"@);
    lemma_without_key_keep_all(d3, "state"@);
    assert(crate::doc::without_key(d2, "state"@) =~= crate::doc::without_key(d3, "state"@));
    assert(w3 =~= rest);
}

/// Filtering a key that no entry carries keeps the table.
proof fn lemma_without_key_keep_all(s: Seq<(Seq<char>, DocModel)>, key: Seq<char>)
    requires
        !crate::doc::tbl_has(s, key),
    ensures
        crate::doc::without_key(s, key) == s,
    decreases s.len(),
{
    if s.len() > 0 {
        assert(s[0].0 != key) by {
            if s[0].0 == key {
                assert(crate::doc::tbl_has(s, key));
            }
        }
        let t = s.drop_first();
        assert(!crate::doc::tbl_has(t, key)) by {
            if crate::doc::tbl_has(t, key) {
                let k = choose|k: int| 0 <= k < t.len() && (#[trigger] t[k]).0 == key;
                assert(s[k + 1] == t[k]);
                assert((s[k + 1]).0 == key);
            }
        }
        lemma_without_key_keep_all(t, key);
        assert(crate::doc::without_key(s, key) =~= s);
    }
}

/// The index of the first newline at or after `from`, or the length.
pub open spec fn next_newline(s: Seq<char>, from: int) -> int
    decreases s.len() - from,
{
    if from < 0 || from >= s.len() {
        s.len() as int
    } else if s[from] == '\n' {
        from
    } else {
        next_newline(s, from + 1)
    }
}

#[via_fn]
proof fn lines_view_decreases(s: Seq<char>) {
    lemma_next_newline(s, 0);
}

/// The lines of a text, split at newlines, empties kept.
pub open spec fn lines_view(s: Seq<char>) -> Seq<Seq<char>>
    decreases s.len(),
    via lines_view_decreases
{
    let i = next_newline(s, 0);
    if i == s.len() {
        seq![s]
    } else {
        seq![s.subrange(0, i)] + lines_view(s.subrange(i + 1, s.len() as int))
    }
}

proof fn lemma_next_newline(s: Seq<char>, from: int)
    requires
        0 <= from <= s.len(),
    ensures
        from <= next_newline(s, from) <= s.len(),
        next_newline(s, from) < s.len() ==> s[next_newline(s, from)] == '\n',
        forall|k: int| from <= k < next_newline(s, from) ==> s[k] != '\n',
    decreases s.len() - from,
{
    if from < s.len() && s[from] != '\n' {
        lemma_next_newline(s, from + 1);
    }
}

/// The lines joined back with newlines.
pub open spec fn unlines(parts: Seq<Seq<char>>) -> Seq<char>
    decreases parts.len(),
{
    if parts.len() == 0 {
        Seq::empty()
    } else if parts.len() == 1 {
        parts[0]
    } else {
        parts[0] + seq!['\n'] + unlines(parts.drop_first())
    }
}

/// A top-level block header line: after trimming it is bracketed and
/// carries no key assignment.
pub open spec fn is_header_line(line: Seq<char>) -> bool {
    let t = trim_view(line);
    t.len() > 0 && t[0] == '[' && t[t.len() - 1] == ']' && !crate::text::has_substring(t, " = "@)
}

/// Whether a line opens the settings block.
pub open spec fn is_app_header(line: Seq<char>) -> bool {
    is_header_line(line) && trim_view(line) == "[app]"@
}

/// Tells the settings-block header line.
fn is_app_header_line(line: &str) -> (r: bool)
    ensures
        r == is_app_header(line@),
{
    if !is_top_level_header_line(line) {
        return false;
    }
    let t = crate::text::trim_str(line);
    crate::text::str_eq(t.as_str(), "[app]")
}

/// Tells a top-level block header line.
pub fn is_top_level_header_line(line: &str) -> (r: bool)
    ensures
        r == is_header_line(line@),
{
    let t = crate::text::trim_str(line);
    let n = t.as_str().unicode_len();
    if n == 0 {
        return false;
    }
    let first = t.as_str().get_char(0);
    let last = t.as_str().get_char(n - 1);
    first == '[' && last == ']' && !crate::text::contains_str(t.as_str(), " = ")
}

/// The first header index at or after `from`, or the length.
pub open spec fn first_header_from(lines: Seq<Seq<char>>, from: int) -> int
    decreases lines.len() - from,
{
    if from < 0 || from >= lines.len() {
        lines.len() as int
    } else if is_header_line(lines[from]) {
        from
    } else {
        first_header_from(lines, from + 1)
    }
}

/// The first settings-header index at or after `from`, or the length.
pub open spec fn first_app_from(lines: Seq<Seq<char>>, from: int) -> int
    decreases lines.len() - from,
{
    if from < 0 || from >= lines.len() {
        lines.len() as int
    } else if is_app_header(lines[from]) {
        from
    } else {
        first_app_from(lines, from + 1)
    }
}

proof fn lemma_first_header_from(lines: Seq<Seq<char>>, from: int)
    requires
        0 <= from <= lines.len(),
    ensures
        from <= first_header_from(lines, from) <= lines.len(),
        first_header_from(lines, from) < lines.len() ==> is_header_line(
            lines[first_header_from(lines, from)],
        ),
        forall|k: int| from <= k < first_header_from(lines, from) ==> !is_header_line(lines[k]),
    decreases lines.len() - from,
{
    if from < lines.len() && !is_header_line(lines[from]) {
        lemma_first_header_from(lines, from + 1);
    }
}

proof fn lemma_first_app_from(lines: Seq<Seq<char>>, from: int)
    requires
        0 <= from <= lines.len(),
    ensures
        from <= first_app_from(lines, from) <= lines.len(),
        first_app_from(lines, from) < lines.len() ==> is_app_header(
            lines[first_app_from(lines, from)],
        ),
        forall|k: int| from <= k < first_app_from(lines, from) ==> !is_app_header(lines[k]),
    decreases lines.len() - from,
{
    if from < lines.len() && !is_app_header(lines[from]) {
        lemma_first_app_from(lines, from + 1);
    }
}

/// The saved text with the settings block moved before every other block:
/// anything before the first header stays, the settings block comes next,
/// then the remaining blocks in their original order.
pub open spec fn move_app_view(s: Seq<char>) -> Seq<char> {
    let lines = lines_view(s);
    let fh = first_header_from(lines, 0);
    let app_start = first_app_from(lines, 0);
    if fh == lines.len() || app_start == lines.len() || app_start == fh {
        s
    } else {
        let app_end = first_header_from(lines, app_start + 1);
        let moved = lines.subrange(0, fh) + lines.subrange(app_start, app_end) + lines.subrange(
            fh,
            app_start,
        ) + lines.subrange(app_end, lines.len() as int);
        unlines(moved) + (if s.len() > 0 && s[s.len() - 1] == '\n' {
            seq!['\n']
        } else {
            Seq::<char>::empty()
        })
    }
}

/// Splits a text into its lines.
fn split_newlines(s: &str) -> (r: Vec<String>)
    ensures
        r@.map_values(|p: String| p@) == lines_view(s@),
{
    let n = s.unicode_len();
    let mut out: Vec<String> = Vec::new();
    let mut pos: usize = 0;
    proof {
        assert(s@.subrange(0, n as int) =~= s@);
        assert(out@.map_values(|p: String| p@) =~= Seq::<Seq<char>>::empty());
    }
    loop
        invariant
            0 <= pos <= n,
            n == s@.len(),
            lines_view(s@) == out@.map_values(|p: String| p@) + lines_view(
                s@.subrange(pos as int, n as int),
            ),
            pos > 0 ==> s@[pos - 1] == '\n',
        decreases n - pos,
    {
        let ghost suf = s@.subrange(pos as int, n as int);
        let mut j = pos;
        while j < n && s.get_char(j) != '\n'
            invariant
                pos <= j <= n,
                n == s@.len(),
                forall|k: int| pos <= k < j ==> s@[k] != '\n',
            decreases n - j,
        {
            j = j + 1;
        }
        proof {
            lemma_next_newline(suf, 0);
            assert forall|k: int| 0 <= k < j - pos implies suf[k] != '\n' by {
                assert(suf[k] == s@[pos + k]);
            }
            let nn = next_newline(suf, 0);
            if nn < j - pos {
                assert(suf[nn] == '\n');
                assert(s@[pos + nn] == '\n');
            }
            if nn > j - pos && j < n {
                assert(suf[j - pos] != '\n');
                assert(suf[j - pos] == s@[j as int]);
            }
            assert(nn == j - pos);
        }
        let part = String::from_str(s.substring_char(pos, j));
        proof {
            assert(part@ =~= suf.subrange(0, j - pos));
        }
        let ghost outpre = out@;
        out.push(part);
        proof {
            assert(out@.map_values(|p: String| p@) =~= outpre.map_values(|p: String| p@).push(
                suf.subrange(0, j - pos),
            ));
        }
        if j == n {
            proof {
                assert(lines_view(suf) =~= seq![suf]);
                assert(suf.subrange(0, j - pos) =~= suf);
                assert(outpre.map_values(|p: String| p@) + seq![suf] =~= out@.map_values(
                    |p: String| p@,
                ));
            }
            return out;
        }
        proof {
            assert(lines_view(suf) =~= seq![suf.subrange(0, j - pos)] + lines_view(
                suf.subrange(j - pos + 1, suf.len() as int),
            ));
            assert(suf.subrange(j - pos + 1, suf.len() as int) =~= s@.subrange(
                j + 1,
                n as int,
            ));
            assert(outpre.map_values(|p: String| p@) + (seq![suf.subrange(0, j - pos)]
                + lines_view(s@.subrange(j + 1, n as int))) =~= out@.map_values(|p: String| p@)
                + lines_view(s@.subrange(j + 1, n as int)));
        }
        pos = j + 1;
    }
}

/// Joins lines with newlines.
fn join_newlines(parts: &Vec<String>) -> (r: String)
    ensures
        r@ == unlines(parts@.map_values(|p: String| p@)),
{
    let n = parts.len();
    let ghost pv = parts@.map_values(|p: String| p@);
    let mut out = String::new();
    let mut i: usize = n;
    proof {
        assert(pv.subrange(n as int, n as int) =~= Seq::<Seq<char>>::empty());
        assert(unlines(Seq::<Seq<char>>::empty()) =~= Seq::<char>::empty());
    }
    while i > 0
        invariant
            0 <= i <= n,
            n == parts@.len(),
            pv == parts@.map_values(|p: String| p@),
            out@ == unlines(pv.subrange(i as int, n as int)),
        decreases i,
    {
        i = i - 1;
        let ghost suf = pv.subrange(i as int, n as int);
        proof {
            assert(suf[0] == pv[i as int]);
            assert(pv[i as int] == parts@[i as int]@);
            assert(suf.drop_first() =~= pv.subrange(i + 1, n as int));
        }
        if i == n - 1 {
            out = parts[i].clone();
        } else {
            let mut t = parts[i].clone();
            t.append("\n");
            proof {
                reveal_strlit("\n");
            }
            t.append(out.as_str());
            out = t;
        }
    }
    proof {
        assert(pv.subrange(0, n as int) =~= pv);
    }
    out
}

/// Rewrites saved text so the settings block comes before every other
/// block; text before the first header and the order of the remaining
/// blocks are kept.
pub fn move_app_table_to_top(serialized: &str) -> (r: String)
    ensures
        r@ == move_app_view(serialized@),
{
    let lines = split_newlines(serialized);
    let ghost lv = lines_view(serialized@);
    let n = lines.len();
    proof {
        lemma_first_header_from(lv, 0);
        lemma_first_app_from(lv, 0);
    }
    // the first header line
    let mut fh: usize = 0;
    while fh < n && !is_top_level_header_line(lines[fh].as_str())
        invariant
            0 <= fh <= n,
            n == lines@.len(),
            lv == lines@.map_values(|p: String| p@),
            forall|k: int| 0 <= k < fh ==> !is_header_line(lv[k]),
        decreases n - fh,
    {
        proof {
            assert(lv[fh as int] == lines@[fh as int]@);
        }
        fh = fh + 1;
    }
    proof {
        if fh < n {
            assert(lv[fh as int] == lines@[fh as int]@);
        }
        lemma_first_pos_eq_header(lv, fh as int);
    }
    if fh == n {
        return String::from_str(serialized);
    }
    // the settings block header
    let mut app_start: usize = 0;
    while app_start < n && !is_app_header_line(lines[app_start].as_str())
        invariant
            0 <= app_start <= n,
            n == lines@.len(),
            lv == lines@.map_values(|p: String| p@),
            forall|k: int| 0 <= k < app_start ==> !is_app_header(lv[k]),
        decreases n - app_start,
    {
        proof {
            assert(lv[app_start as int] == lines@[app_start as int]@);
        }
        app_start = app_start + 1;
    }
    proof {
        if app_start < n {
            assert(lv[app_start as int] == lines@[app_start as int]@);
        }
        lemma_first_pos_eq_app(lv, app_start as int);
    }
    if app_start == n || app_start == fh {
        return String::from_str(serialized);
    }
    // the end of the settings block
    let mut app_end: usize = app_start + 1;
    proof {
        lemma_first_header_from(lv, app_start + 1);
    }
    while app_end < n && !is_top_level_header_line(lines[app_end].as_str())
        invariant
            app_start + 1 <= app_end <= n,
            n == lines@.len(),
            lv == lines@.map_values(|p: String| p@),
            forall|k: int| app_start + 1 <= k < app_end ==> !is_header_line(lv[k]),
        decreases n - app_end,
    {
        proof {
            assert(lv[app_end as int] == lines@[app_end as int]@);
        }
        app_end = app_end + 1;
    }
    proof {
        if app_end < n {
            assert(lv[app_end as int] == lines@[app_end as int]@);
        }
        lemma_from_pos_eq_header(lv, app_start + 1, app_end as int);
    }
    // rebuild: prefix, settings block, earlier blocks, later blocks
    let mut moved: Vec<String> = Vec::new();
    copy_lines(&lines, 0, fh, &mut moved);
    copy_lines(&lines, app_start, app_end, &mut moved);
    copy_lines(&lines, fh, app_start, &mut moved);
    copy_lines(&lines, app_end, n, &mut moved);
    proof {
        assert(moved@.map_values(|p: String| p@) =~= lv.subrange(0, fh as int) + lv.subrange(
            app_start as int,
            app_end as int,
        ) + lv.subrange(fh as int, app_start as int) + lv.subrange(app_end as int, n as int));
    }
    let mut out = join_newlines(&moved);
    let slen = serialized.unicode_len();
    if slen > 0 && serialized.get_char(slen - 1) == '\n' {
        out.append("\n");
        proof {
            reveal_strlit("\n");
        }
    }
    out
}

/// Appends clones of a line range.
fn copy_lines(lines: &Vec<String>, from: usize, to: usize, out: &mut Vec<String>)
    requires
        0 <= from <= to <= lines@.len(),
    ensures
        final(out)@.map_values(|p: String| p@) == old(out)@.map_values(|p: String| p@)
            + lines@.map_values(|p: String| p@).subrange(from as int, to as int),
{
    let mut k = from;
    proof {
        assert(old(out)@.map_values(|p: String| p@) + lines@.map_values(
            |p: String| p@,
        ).subrange(from as int, from as int) =~= old(out)@.map_values(|p: String| p@));
    }
    while k < to
        invariant
            from <= k <= to <= lines@.len(),
            out@.map_values(|p: String| p@) == old(out)@.map_values(|p: String| p@)
                + lines@.map_values(|p: String| p@).subrange(from as int, k as int),
        decreases to - k,
    {
        let ghost outpre = out@;
        out.push(lines[k].clone());
        proof {
            assert(out@.map_values(|p: String| p@) =~= outpre.map_values(|p: String| p@).push(
                lines@[k as int]@,
            ));
            assert(lines@.map_values(|p: String| p@).subrange(from as int, k + 1)
                =~= lines@.map_values(|p: String| p@).subrange(from as int, k as int).push(
                lines@[k as int]@,
            ));
            assert(outpre.map_values(|p: String| p@).push(lines@[k as int]@) =~= old(
                out,
            )@.map_values(|p: String| p@) + lines@.map_values(|p: String| p@).subrange(
                from as int,
                k + 1,
            ));
        }
        k = k + 1;
    }
}

proof fn lemma_first_pos_eq_header(lv: Seq<Seq<char>>, i: int)
    requires
        0 <= i <= lv.len(),
        forall|k: int| 0 <= k < i ==> !is_header_line(lv[k]),
        i < lv.len() ==> is_header_line(lv[i]),
    ensures
        first_header_from(lv, 0) == i,
{
    lemma_first_header_from(lv, 0);
    let p = first_header_from(lv, 0);
    if p < i {
        assert(!is_header_line(lv[p]));
    }
    if p > i && i < lv.len() {
        assert(!is_header_line(lv[i]));
    }
}

proof fn lemma_first_pos_eq_app(lv: Seq<Seq<char>>, i: int)
    requires
        0 <= i <= lv.len(),
        forall|k: int| 0 <= k < i ==> !is_app_header(lv[k]),
        i < lv.len() ==> is_app_header(lv[i]),
    ensures
        first_app_from(lv, 0) == i,
{
    lemma_first_app_from(lv, 0);
    let p = first_app_from(lv, 0);
    if p < i {
        assert(!is_app_header(lv[p]));
    }
    if p > i && i < lv.len() {
        assert(!is_app_header(lv[i]));
    }
}

proof fn lemma_from_pos_eq_header(lv: Seq<Seq<char>>, from: int, i: int)
    requires
        0 <= from <= i <= lv.len(),
        forall|k: int| from <= k < i ==> !is_header_line(lv[k]),
        i < lv.len() ==> is_header_line(lv[i]),
    ensures
        first_header_from(lv, from) == i,
{
    lemma_first_header_from(lv, from);
    let p = first_header_from(lv, from);
    if p < i {
        assert(!is_header_line(lv[p]));
    }
    if p > i && i < lv.len() {
        assert(!is_header_line(lv[i]));
    }
}
} // verus!
