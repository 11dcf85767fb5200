//! The configuration document: a loosely typed tree of tagged values,
//! as the on-disk key/value format parses into. The stores read and
//! rewrite it field by field, normalizing as they go.
//!
//! Contracts speak of the ghost model of a tree, `DocModel`, in which
//! strings are character sequences and numbers are unbounded.
use vstd::prelude::*;
use crate::text::dec_str;

verus! {

/// One value of the document tree. A non-integer number is held in
/// thousandths (`Milli`), which is what the settings read from it.
pub enum DocValue {
    Text(String),
    Int(i64),
    Milli(i64),
    Flag(bool),
    List(Vec<DocValue>),
    Table(Vec<DocEntry>),
}

/// One keyed entry of a table.
pub struct DocEntry {
    pub key: String,
    pub val: DocValue,
}

/// The ghost model of a document value.
pub enum DocModel {
    Text(Seq<char>),
    Int(int),
    Milli(int),
    Flag(bool),
    List(Seq<DocModel>),
    Table(Seq<(Seq<char>, DocModel)>),
}

/// The model of a value.
pub open spec fn model_of(v: DocValue) -> DocModel
    decreases v,
{
    match v {
        DocValue::Text(s) => DocModel::Text(s@),
        DocValue::Int(n) => DocModel::Int(n as int),
        DocValue::Milli(n) => DocModel::Milli(n as int),
        DocValue::Flag(b) => DocModel::Flag(b),
        DocValue::List(items) => DocModel::List(models_of_seq(items@)),
        DocValue::Table(entries) => DocModel::Table(entry_models_of(entries@)),
    }
}

/// The models of a list of values.
pub open spec fn models_of_seq(items: Seq<DocValue>) -> Seq<DocModel>
    decreases items,
{
    if items.len() == 0 {
        Seq::empty()
    } else {
        seq![model_of(items[0])] + models_of_seq(items.drop_first())
    }
}

/// The models of the entries of a table.
pub open spec fn entry_models_of(entries: Seq<DocEntry>) -> Seq<(Seq<char>, DocModel)>
    decreases entries,
{
    if entries.len() == 0 {
        Seq::empty()
    } else {
        seq![(entries[0].key@, model_of(entries[0].val))] + entry_models_of(entries.drop_first())
    }
}

/// The first position of a key in a model table, its length when absent.
pub open spec fn key_index(entries: Seq<(Seq<char>, DocModel)>, key: Seq<char>) -> int
    decreases entries.len(),
{
    if entries.len() == 0 {
        0
    } else if entries[0].0 == key {
        0
    } else {
        1 + key_index(entries.drop_first(), key)
    }
}

pub open spec fn tbl_has(entries: Seq<(Seq<char>, DocModel)>, key: Seq<char>) -> bool {
    exists|k: int| 0 <= k < entries.len() && (#[trigger] entries[k]).0 == key
}

/// The value stored under a key (meaningful when `tbl_has` holds).
pub open spec fn tbl_get(entries: Seq<(Seq<char>, DocModel)>, key: Seq<char>) -> DocModel {
    entries[key_index(entries, key)].1
}

/// The value under a key as an option.
pub open spec fn tbl_lookup(entries: Seq<(Seq<char>, DocModel)>, key: Seq<char>) -> Option<
    DocModel,
> {
    if tbl_has(entries, key) {
        Some(tbl_get(entries, key))
    } else {
        None
    }
}

/// Storing under a key: the first entry with that key is replaced in
/// place, otherwise the pair is appended.
pub open spec fn tbl_set(
    entries: Seq<(Seq<char>, DocModel)>,
    key: Seq<char>,
    v: DocModel,
) -> Seq<(Seq<char>, DocModel)> {
    if tbl_has(entries, key) {
        entries.update(key_index(entries, key), (key, v))
    } else {
        entries.push((key, v))
    }
}

pub proof fn lemma_key_index(entries: Seq<(Seq<char>, DocModel)>, key: Seq<char>)
    ensures
        0 <= key_index(entries, key) <= entries.len(),
        (key_index(entries, key) < entries.len()) == tbl_has(entries, key),
        key_index(entries, key) < entries.len() ==> entries[key_index(entries, key)].0 == key,
        forall|k: int| 0 <= k < key_index(entries, key) ==> (#[trigger] entries[k]).0 != key,
    decreases entries.len(),
{
    if entries.len() == 0 {
        if tbl_has(entries, key) {
            let k = choose|k: int| 0 <= k < entries.len() && (#[trigger] entries[k]).0 == key;
        }
    } else if entries[0].0 == key {
        assert(tbl_has(entries, key));
    } else {
        let t = entries.drop_first();
        lemma_key_index(t, key);
        let i = key_index(entries, key);
        assert forall|k: int| 0 <= k < i implies (#[trigger] entries[k]).0 != key by {
            if k > 0 {
                assert(t[k - 1] == entries[k]);
                assert((t[k - 1]).0 != key);
            }
        }
        if tbl_has(t, key) {
            assert(t[key_index(t, key)] == entries[i]);
            assert(tbl_has(entries, key));
        }
        if tbl_has(entries, key) {
            let k = choose|k: int| 0 <= k < entries.len() && (#[trigger] entries[k]).0 == key;
            assert(k > 0);
            assert(t[k - 1] == entries[k]);
            assert((t[k - 1]).0 == key);
            assert(tbl_has(t, key));
        }
    }
}

/// What `tbl_set` does to lookups.
pub proof fn lemma_tbl_set(entries: Seq<(Seq<char>, DocModel)>, key: Seq<char>, v: DocModel)
    ensures
        tbl_lookup(tbl_set(entries, key, v), key) == Some(v),
        forall|k2: Seq<char>|
            k2 != key ==> #[trigger] tbl_lookup(tbl_set(entries, key, v), k2) == tbl_lookup(
                entries,
                k2,
            ),
{
    lemma_key_index(entries, key);
    let r = tbl_set(entries, key, v);
    let i = key_index(entries, key);
    if tbl_has(entries, key) {
        assert(r[i] == (key, v));
        assert forall|k: int| 0 <= k < i implies (#[trigger] r[k]).0 != key by {
            assert(r[k] == entries[k]);
        }
        lemma_index_found(r, key, i);
        assert forall|k2: Seq<char>|
            k2 != key implies #[trigger] tbl_lookup(r, k2) == tbl_lookup(entries, k2) by {
            lemma_key_index(r, k2);
            lemma_key_index(entries, k2);
            lemma_lookup_same(entries, r, k2, i, key);
        }
    } else {
        assert(r[entries.len() as int] == (key, v));
        assert forall|k: int| 0 <= k < entries.len() implies (#[trigger] r[k]).0 != key by {
            assert(r[k] == entries[k]);
            if entries[k].0 == key {
                assert(tbl_has(entries, key));
            }
        }
        lemma_index_found(r, key, entries.len() as int);
        assert forall|k2: Seq<char>|
            k2 != key implies #[trigger] tbl_lookup(r, k2) == tbl_lookup(entries, k2) by {
            lemma_key_index(r, k2);
            lemma_key_index(entries, k2);
            lemma_lookup_same(entries, r, k2, entries.len() as int, key);
        }
    }
}

/// Two tables that agree everywhere except at one position whose key is
/// `key` have the same lookups at other keys.
proof fn lemma_lookup_same(
    a: Seq<(Seq<char>, DocModel)>,
    b: Seq<(Seq<char>, DocModel)>,
    k2: Seq<char>,
    i: int,
    key: Seq<char>,
)
    requires
        k2 != key,
        a.len() <= b.len() <= a.len() + 1,
        b.len() == a.len() + 1 ==> i == a.len(),
        forall|k: int| 0 <= k < a.len() && k != i ==> #[trigger] b[k] == a[k],
        0 <= i < b.len(),
        b[i].0 == key,
        i < a.len() ==> a[i].0 == key,
    ensures
        tbl_lookup(b, k2) == tbl_lookup(a, k2),
{
    lemma_key_index(a, k2);
    lemma_key_index(b, k2);
    if tbl_has(a, k2) {
        let j = key_index(a, k2);
        assert(j != i);
        assert(b[j] == a[j]);
        assert forall|k: int| 0 <= k < j implies (#[trigger] b[k]).0 != k2 by {
            if k != i {
                assert(b[k] == a[k]);
                assert((a[k]).0 != k2);
            }
        }
        lemma_index_found(b, k2, j);
    } else {
        if tbl_has(b, k2) {
            let j = key_index(b, k2);
            assert(j != i);
            if j < a.len() {
                assert(a[j] == b[j]);
                assert((a[j]).0 == k2);
                assert(tbl_has(a, k2));
            } else {
                // the only extra position carries `key`
                assert(j == a.len() && i == a.len());
            }
        }
    }
}

proof fn lemma_index_found(entries: Seq<(Seq<char>, DocModel)>, key: Seq<char>, i: int)
    requires
        0 <= i < entries.len(),
        entries[i].0 == key,
        forall|k: int| 0 <= k < i ==> (#[trigger] entries[k]).0 != key,
    ensures
        key_index(entries, key) == i,
        tbl_has(entries, key),
{
    lemma_key_index(entries, key);
    let f = key_index(entries, key);
    assert(tbl_has(entries, key));
    if f < i {
        assert(entries[f].0 != key);
    }
    if f > i {
        assert(entries[i].0 != key);
    }
}

/// The model entries of a table value, empty for any other shape.
pub open spec fn table_entries(v: DocModel) -> Seq<(Seq<char>, DocModel)> {
    match v {
        DocModel::Table(es) => es,
        _ => Seq::empty(),
    }
}

/// The model items of a list value, empty for any other shape.
pub open spec fn list_items(v: DocModel) -> Seq<DocModel> {
    match v {
        DocModel::List(items) => items,
        _ => Seq::empty(),
    }
}

/// The text form of a value: strings as they are, numbers and flags
/// printed; composite values have no text form here.
pub open spec fn text_of(v: DocModel) -> Seq<char> {
    match v {
        DocModel::Text(s) => s,
        DocModel::Int(n) => int_text(n),
        DocModel::Milli(n) => milli_text(n),
        DocModel::Flag(b) => if b {
            "true"@
        } else {
            "false"@
        },
        _ => Seq::empty(),
    }
}

/// A signed decimal.
pub open spec fn int_text(n: int) -> Seq<char> {
    if n < 0 {
        seq!['-'] + dec_str(-n)
    } else {
        dec_str(n)
    }
}

/// The decimal form of a thousandths value, with its fraction stripped
/// of trailing zeros but never below one digit.
pub open spec fn milli_text(n: int) -> Seq<char> {
    let mag = if n < 0 {
        -n
    } else {
        n
    };
    let sign: Seq<char> = if n < 0 {
        seq!['-']
    } else {
        Seq::empty()
    };
    sign + dec_str(mag / 1000) + seq!['.'] + frac_text(mag % 1000)
}

/// The fraction digits of a thousandths remainder.
pub open spec fn frac_text(f: int) -> Seq<char> {
    if f == 0 {
        seq!['0']
    } else {
        strip_zeros(crate::text::dec_pad(f, 3))
    }
}

/// Drops trailing zeros, keeping at least one character.
pub open spec fn strip_zeros(s: Seq<char>) -> Seq<char>
    decreases s.len(),
{
    if s.len() <= 1 {
        s
    } else if s[s.len() - 1] == '0' {
        strip_zeros(s.drop_last())
    } else {
        s
    }
}

/// The integer a value stands for: integers as they are, thousandths
/// truncated toward zero, text parsed as a signed decimal that fits a
/// 64-bit number; nothing otherwise.
pub open spec fn int_of(v: DocModel) -> Option<int> {
    match v {
        DocModel::Int(n) => Some(n),
        DocModel::Milli(n) => Some(trunc_div_1000(n)),
        DocModel::Text(s) => int_text_val(s),
        _ => None,
    }
}

/// Division by a thousand truncated toward zero.
pub open spec fn trunc_div_1000(n: int) -> int {
    if n >= 0 {
        n / 1000
    } else {
        -((-n) / 1000)
    }
}

/// The value of signed decimal text, when it is one and fits 64 bits.
pub open spec fn int_text_val(s: Seq<char>) -> Option<int> {
    if s.len() > 0 && s[0] == '-' {
        let d = s.drop_first();
        if d.len() > 0 && crate::text::all_digits(d) && crate::text::dec_val(d) <= 0x8000_0000_0000_0000 {
            Some(-crate::text::dec_val(d))
        } else {
            None
        }
    } else {
        let d = if s.len() > 0 && s[0] == '+' {
            s.drop_first()
        } else {
            s
        };
        if d.len() > 0 && crate::text::all_digits(d) && crate::text::dec_val(d) <= 0x7fff_ffff_ffff_ffff {
            Some(crate::text::dec_val(d))
        } else {
            None
        }
    }
}

/// The thousandths a value stands for: thousandths as they are,
/// integers scaled up when the result fits, text parsed as a plain
/// decimal fraction; nothing otherwise.
pub open spec fn millis_of(v: DocModel) -> Option<int> {
    match v {
        DocModel::Milli(n) => Some(n),
        DocModel::Int(n) => if -0x20c4_9ba5_e353_f7 <= n <= 0x20c4_9ba5_e353_f7 {
            Some(n * 1000)
        } else {
            None
        },
        DocModel::Text(s) => millis_text_val(s),
        _ => None,
    }
}

/// The thousandths value of decimal text such as `2.5`, truncated past
/// the third fraction digit; nothing when the text is not a plain
/// decimal or does not fit.
pub open spec fn millis_text_val(s: Seq<char>) -> Option<int> {
    let neg = s.len() > 0 && s[0] == '-';
    let body = if neg {
        s.drop_first()
    } else {
        s
    };
    let d = dot_index(body);
    let ip = body.subrange(0, d);
    let fp = if d < body.len() {
        body.subrange(d + 1, body.len() as int)
    } else {
        Seq::empty()
    };
    if ip.len() > 0 && crate::text::all_digits(ip) && crate::text::all_digits(fp) && (d
        < body.len() ==> fp.len() > 0) {
        let v = crate::text::dec_val(ip) * 1000 + frac_millis(fp);
        if v <= 0x7fff_ffff_ffff_ffff {
            Some(
                if neg {
                    -v
                } else {
                    v
                },
            )
        } else {
            None
        }
    } else {
        None
    }
}

/// The index of the first dot, or the length when there is none.
pub open spec fn dot_index(s: Seq<char>) -> int
    decreases s.len(),
{
    if s.len() == 0 {
        0
    } else if s[0] == '.' {
        0
    } else {
        1 + dot_index(s.drop_first())
    }
}

/// The thousandths carried by fraction digits: the first three count.
pub open spec fn frac_millis(fp: Seq<char>) -> int {
    let p = if fp.len() >= 3 {
        fp.subrange(0, 3)
    } else {
        fp
    };
    if p.len() == 0 {
        0
    } else if p.len() == 1 {
        crate::text::dec_val(p) * 100
    } else if p.len() == 2 {
        crate::text::dec_val(p) * 10
    } else {
        crate::text::dec_val(p)
    }
}

/// The models of table entries, element by element.
pub proof fn lemma_entry_models(s: Seq<DocEntry>)
    ensures
        entry_models_of(s).len() == s.len(),
        forall|i: int|
            0 <= i < s.len() ==> #[trigger] entry_models_of(s)[i] == (
                s[i].key@,
                model_of(s[i].val),
            ),
    decreases s.len(),
{
    if s.len() > 0 {
        let t = s.drop_first();
        lemma_entry_models(t);
        assert forall|i: int|
            0 <= i < s.len() implies #[trigger] entry_models_of(s)[i] == (
            s[i].key@,
            model_of(s[i].val),
        ) by {
            if i > 0 {
                assert(entry_models_of(s)[i] == entry_models_of(t)[i - 1]);
                assert(t[i - 1] == s[i]);
            }
        }
    }
}

/// The models of list items, element by element.
pub proof fn lemma_models_of_seq(s: Seq<DocValue>)
    ensures
        models_of_seq(s).len() == s.len(),
        forall|i: int| 0 <= i < s.len() ==> #[trigger] models_of_seq(s)[i] == model_of(s[i]),
    decreases s.len(),
{
    if s.len() > 0 {
        let t = s.drop_first();
        lemma_models_of_seq(t);
        assert forall|i: int|
            0 <= i < s.len() implies #[trigger] models_of_seq(s)[i] == model_of(s[i]) by {
            if i > 0 {
                assert(models_of_seq(s)[i] == models_of_seq(t)[i - 1]);
                assert(t[i - 1] == s[i]);
            }
        }
    }
}

/// The table with every entry under `key` removed.
pub open spec fn without_key(
    entries: Seq<(Seq<char>, DocModel)>,
    key: Seq<char>,
) -> Seq<(Seq<char>, DocModel)>
    decreases entries.len(),
{
    if entries.len() == 0 {
        entries
    } else if entries[0].0 == key {
        without_key(entries.drop_first(), key)
    } else {
        seq![entries[0]] + without_key(entries.drop_first(), key)
    }
}

/// Removing a key leaves other lookups alone.
pub proof fn lemma_without_key(entries: Seq<(Seq<char>, DocModel)>, key: Seq<char>)
    ensures
        !tbl_has(without_key(entries, key), key),
        forall|k2: Seq<char>|
            k2 != key ==> #[trigger] tbl_lookup(without_key(entries, key), k2) == tbl_lookup(
                entries,
                k2,
            ),
    decreases entries.len(),
{
    let r = without_key(entries, key);
    if entries.len() == 0 {
        if tbl_has(r, key) {
            let k = choose|k: int| 0 <= k < r.len() && (#[trigger] r[k]).0 == key;
        }
    } else {
        let t = entries.drop_first();
        lemma_without_key(t, key);
        let rt = without_key(t, key);
        if entries[0].0 == key {
            assert forall|k2: Seq<char>|
                k2 != key implies #[trigger] tbl_lookup(r, k2) == tbl_lookup(entries, k2) by {
                lemma_key_index(entries, k2);
                lemma_key_index(t, k2);
                lemma_lookup_drop(entries, k2);
            }
        } else {
            if tbl_has(r, key) {
                let k = choose|k: int| 0 <= k < r.len() && (#[trigger] r[k]).0 == key;
                if k > 0 {
                    assert(r[k] == rt[k - 1]);
                    assert((rt[k - 1]).0 == key);
                    assert(tbl_has(rt, key));
                }
            }
            assert forall|k2: Seq<char>|
                k2 != key implies #[trigger] tbl_lookup(r, k2) == tbl_lookup(entries, k2) by {
                lemma_key_index(entries, k2);
                lemma_key_index(r, k2);
                lemma_key_index(t, k2);
                lemma_key_index(rt, k2);
                if entries[0].0 == k2 {
                    assert(r[0] == entries[0]);
                    lemma_index_found(entries, k2, 0);
                    lemma_index_found(r, k2, 0);
                } else {
                    lemma_lookup_drop(entries, k2);
                    lemma_lookup_drop_front(r, rt, k2);
                }
            }
        }
    }
}

/// Lookup of a key that is not at the head goes through the tail.
proof fn lemma_lookup_drop(entries: Seq<(Seq<char>, DocModel)>, k2: Seq<char>)
    requires
        entries.len() > 0,
        entries[0].0 != k2,
    ensures
        tbl_lookup(entries, k2) == tbl_lookup(entries.drop_first(), k2),
{
    let t = entries.drop_first();
    lemma_key_index(entries, k2);
    lemma_key_index(t, k2);
    if tbl_has(entries, k2) {
        let k = choose|k: int| 0 <= k < entries.len() && (#[trigger] entries[k]).0 == k2;
        assert(k > 0);
        assert(t[k - 1] == entries[k]);
        assert((t[k - 1]).0 == k2);
        assert(tbl_has(t, k2));
        assert(t[key_index(t, k2)] == entries[1 + key_index(t, k2)]);
        assert forall|k: int| 0 <= k < 1 + key_index(t, k2) implies (#[trigger] entries[k]).0
            != k2 by {
            if k > 0 {
                assert(entries[k] == t[k - 1]);
                assert((t[k - 1]).0 != k2);
            }
        }
        lemma_index_found(entries, k2, 1 + key_index(t, k2));
    } else {
        if tbl_has(t, k2) {
            assert(entries[1 + key_index(t, k2)] == t[key_index(t, k2)]);
            assert((entries[1 + key_index(t, k2)]).0 == k2);
        }
    }
}

/// A list headed by an entry of another key looks up like its tail.
proof fn lemma_lookup_drop_front(
    r: Seq<(Seq<char>, DocModel)>,
    rt: Seq<(Seq<char>, DocModel)>,
    k2: Seq<char>,
)
    requires
        r.len() == rt.len() + 1,
        forall|k: int| 0 <= k < rt.len() ==> #[trigger] r[k + 1] == rt[k],
        r[0].0 != k2,
    ensures
        tbl_lookup(r, k2) == tbl_lookup(rt, k2),
{
    assert(r.drop_first() =~= rt);
    lemma_lookup_drop(r, k2);
}

/// A mutable borrow of one vector element.
pub(crate) fn vec_at_mut<'a, T>(v: &'a mut Vec<T>, i: usize) -> (element: &'a mut T)
    requires
        0 <= i < old(v).len(),
    ensures
        *element == old(v)@[i as int],
        final(v)@ == old(v)@.update(i as int, *final(element)),
{
    &mut v[i]
}

/// Looks up the first entry with the given key.
pub fn tbl_get_ref<'a>(entries: &'a Vec<DocEntry>, key: &str) -> (r: Option<&'a DocValue>)
    ensures
        match r {
            Some(v) => tbl_lookup(entry_models_of(entries@), key@) == Some(model_of(*v)),
            None => !tbl_has(entry_models_of(entries@), key@),
        },
{
    proof {
        lemma_entry_models(entries@);
    }
    let n = entries.len();
    let mut i: usize = 0;
    while i < n
        invariant
            0 <= i <= n,
            n == entries@.len(),
            forall|k: int|
                0 <= k < i ==> (#[trigger] entry_models_of(entries@)[k]).0 != key@,
            entry_models_of(entries@).len() == entries@.len(),
            forall|k: int|
                0 <= k < entries@.len() ==> #[trigger] entry_models_of(entries@)[k] == (
                    entries@[k].key@,
                    model_of(entries@[k].val),
                ),
        decreases n - i,
    {
        if crate::text::str_eq(entries[i].key.as_str(), key) {
            proof {
                lemma_index_found(entry_models_of(entries@), key@, i as int);
            }
            return Some(&entries[i].val);
        }
        i = i + 1;
    }
    proof {
        if tbl_has(entry_models_of(entries@), key@) {
            let k = choose|k: int|
                0 <= k < entry_models_of(entries@).len() && (#[trigger] entry_models_of(
                    entries@,
                )[k]).0 == key@;
        }
    }
    None
}

/// Stores a value under a key: the first entry with that key is replaced
/// in place, otherwise the pair is appended.
pub fn tbl_put(entries: &mut Vec<DocEntry>, key: &str, v: DocValue)
    ensures
        entry_models_of(final(entries)@) == tbl_set(
            entry_models_of(old(entries)@),
            key@,
            model_of(v),
        ),
{
    proof {
        lemma_entry_models(entries@);
        lemma_key_index(entry_models_of(entries@), key@);
    }
    let n = entries.len();
    let mut i: usize = 0;
    while i < n
        invariant
            0 <= i <= n,
            n == entries@.len(),
            entries@ == old(entries)@,
            forall|k: int|
                0 <= k < i ==> (#[trigger] entry_models_of(entries@)[k]).0 != key@,
            entry_models_of(entries@).len() == entries@.len(),
            forall|k: int|
                0 <= k < entries@.len() ==> #[trigger] entry_models_of(entries@)[k] == (
                    entries@[k].key@,
                    model_of(entries@[k].val),
                ),
        decreases n - i,
    {
        if crate::text::str_eq(entries[i].key.as_str(), key) {
            proof {
                lemma_index_found(entry_models_of(entries@), key@, i as int);
            }
            let ghost oldm = entry_models_of(entries@);
            entries.set(i, DocEntry { key: String::from_str(key), val: v });
            proof {
                lemma_entry_models(entries@);
                assert(entry_models_of(entries@) =~= oldm.update(i as int, (key@, model_of(v))));
            }
            return ;
        }
        i = i + 1;
    }
    proof {
        if tbl_has(entry_models_of(entries@), key@) {
            let k = choose|k: int|
                0 <= k < entry_models_of(entries@).len() && (#[trigger] entry_models_of(
                    entries@,
                )[k]).0 == key@;
        }
    }
    let ghost oldm = entry_models_of(entries@);
    entries.push(DocEntry { key: String::from_str(key), val: v });
    proof {
        lemma_entry_models(entries@);
        assert(entry_models_of(entries@) =~= oldm.push((key@, model_of(v))));
    }
}

/// Swaps in a new value under a key, keeping the entry's position;
/// appends when the key is absent. Returns the value displaced.
pub fn tbl_swap_val(entries: &mut Vec<DocEntry>, key: &str, v: DocValue) -> (displaced: Option<
    DocValue,
>)
    ensures
        entry_models_of(final(entries)@) == tbl_set(
            entry_models_of(old(entries)@),
            key@,
            model_of(v),
        ),
        match displaced {
            Some(x) => tbl_lookup(entry_models_of(old(entries)@), key@) == Some(model_of(x)),
            None => !tbl_has(entry_models_of(old(entries)@), key@),
        },
{
    proof {
        lemma_entry_models(entries@);
        lemma_key_index(entry_models_of(entries@), key@);
    }
    let n = entries.len();
    let mut i: usize = 0;
    while i < n
        invariant
            0 <= i <= n,
            n == entries@.len(),
            entries@ == old(entries)@,
            forall|k: int| 0 <= k < i ==> (#[trigger] entry_models_of(entries@)[k]).0 != key@,
            entry_models_of(entries@).len() == entries@.len(),
            forall|k: int|
                0 <= k < entries@.len() ==> #[trigger] entry_models_of(entries@)[k] == (
                    entries@[k].key@,
                    model_of(entries@[k].val),
                ),
        decreases n - i,
    {
        if crate::text::str_eq(entries[i].key.as_str(), key) {
            proof {
                lemma_index_found(entry_models_of(entries@), key@, i as int);
            }
            let ghost oldm = entry_models_of(entries@);
            let ent = vec_at_mut(entries, i);
            let mut tmp = v;
            core::mem::swap(&mut tmp, &mut ent.val);
            proof {
                lemma_entry_models(entries@);
                assert(entry_models_of(entries@) =~= oldm.update(
                    i as int,
                    (key@, tbl_set(oldm, key@, entry_models_of(entries@)[i as int].1)[i as int].1),
                ));
                assert(entry_models_of(entries@) =~= tbl_set(oldm, key@, entry_models_of(entries@)[i as int].1));
            }
            return Some(tmp);
        }
        i = i + 1;
    }
    proof {
        if tbl_has(entry_models_of(entries@), key@) {
            let k = choose|k: int|
                0 <= k < entry_models_of(entries@).len() && (#[trigger] entry_models_of(
                    entries@,
                )[k]).0 == key@;
        }
    }
    let ghost oldm = entry_models_of(entries@);
    entries.push(DocEntry { key: String::from_str(key), val: v });
    proof {
        lemma_entry_models(entries@);
        assert(entry_models_of(entries@) =~= oldm.push((key@, model_of(v))));
    }
    None
}

/// Setting the same key twice keeps only the second value.
pub proof fn lemma_tbl_set_twice(
    e: Seq<(Seq<char>, DocModel)>,
    key: Seq<char>,
    a: DocModel,
    b: DocModel,
)
    ensures
        tbl_set(tbl_set(e, key, a), key, b) == tbl_set(e, key, b),
{
    lemma_key_index(e, key);
    let e1 = tbl_set(e, key, a);
    if tbl_has(e, key) {
        let i = key_index(e, key);
        assert(e1[i] == (key, a));
        assert forall|k: int| 0 <= k < i implies (#[trigger] e1[k]).0 != key by {
            assert(e1[k] == e[k]);
        }
        lemma_index_found(e1, key, i);
        assert(tbl_set(e1, key, b) =~= tbl_set(e, key, b));
    } else {
        let i = e.len() as int;
        assert(e1[i] == (key, a));
        assert forall|k: int| 0 <= k < i implies (#[trigger] e1[k]).0 != key by {
            assert(e1[k] == e[k]);
            if e[k].0 == key {
                assert(tbl_has(e, key));
            }
        }
        lemma_index_found(e1, key, i);
        assert(tbl_set(e1, key, b) =~= tbl_set(e, key, b));
    }
}

/// Removes every entry under a key, returning the first removed value.
pub fn tbl_take(entries: &mut Vec<DocEntry>, key: &str) -> (r: Option<DocValue>)
    ensures
        entry_models_of(final(entries)@) == without_key(entry_models_of(old(entries)@), key@),
        match r {
            Some(v) => tbl_lookup(entry_models_of(old(entries)@), key@) == Some(model_of(v)),
            None => !tbl_has(entry_models_of(old(entries)@), key@),
        },
{
    let mut taken: Option<DocValue> = None;
    let n = entries.len();
    let mut i: usize = n;
    proof {
        assert(old(entries)@.subrange(0, n as int) =~= old(entries)@);
        assert(old(entries)@.subrange(n as int, n as int) =~= Seq::<DocEntry>::empty());
        lemma_entry_models(Seq::<DocEntry>::empty());
        assert(entry_models_of(entries@) + without_key(
            entry_models_of(old(entries)@.subrange(n as int, n as int)),
            key@,
        ) =~= entry_models_of(entries@));
        lemma_entry_models(old(entries)@.subrange(n as int, n as int));
        if tbl_has(entry_models_of(old(entries)@.subrange(n as int, n as int)), key@) {
            let k = choose|k: int|
                0 <= k < entry_models_of(old(entries)@.subrange(n as int, n as int)).len() && (
                #[trigger] entry_models_of(old(entries)@.subrange(n as int, n as int))[k]).0
                    == key@;
        }
    }
    while i > 0
        invariant
            0 <= i <= n,
            n == old(entries)@.len(),
            entries@.len() >= i,
            forall|k: int| 0 <= k < i ==> #[trigger] entries@[k] == old(entries)@[k],
            entry_models_of(entries@) == entry_models_of(old(entries)@.subrange(0, i as int))
                + without_key(
                entry_models_of(old(entries)@.subrange(i as int, n as int)),
                key@,
            ),
            match taken {
                Some(v) => tbl_lookup(
                    entry_models_of(old(entries)@.subrange(i as int, n as int)),
                    key@,
                ) == Some(model_of(v)),
                None => !tbl_has(
                    entry_models_of(old(entries)@.subrange(i as int, n as int)),
                    key@,
                ),
            },
        decreases i,
    {
        i = i - 1;
        let ghost pre = old(entries)@.subrange(0, i as int);
        let ghost suf = old(entries)@.subrange(i as int, n as int);
        let ghost sufm = entry_models_of(suf);
        let ghost w = without_key(entry_models_of(old(entries)@.subrange(i + 1, n as int)), key@);
        proof {
            assert(suf[0] == old(entries)@[i as int]);
            assert(suf.drop_first() =~= old(entries)@.subrange(i + 1, n as int));
            lemma_entry_models(suf);
            lemma_entry_models(suf.drop_first());
            lemma_entry_models(pre);
            lemma_entry_models(old(entries)@.subrange(0, i + 1));
            lemma_entry_models(entries@);
            // the models of the suffix unfold at the head
            assert(sufm =~= seq![(suf[0].key@, model_of(suf[0].val))] + entry_models_of(
                suf.drop_first(),
            ));
            assert(old(entries)@.subrange(0, i + 1) =~= pre.push(old(entries)@[i as int]));
            lemma_entry_models_push(pre, old(entries)@[i as int]);
            assert(sufm.drop_first() =~= entry_models_of(
                old(entries)@.subrange(i + 1, n as int),
            ));
        }
        let hit = crate::text::str_eq(entries[i].key.as_str(), key);
        if hit {
            let ghost epre = entries@;
            let e = entries.remove(i);
            taken = Some(e.val);
            proof {
                // removing position i drops exactly the matched pair
                lemma_entry_models_remove(epre, i as int);
                let pair = (suf[0].key@, model_of(suf[0].val));
                assert(entry_models_of(pre).len() == i) by {
                    lemma_entry_models(pre);
                }
                assert(entry_models_of(epre) =~= entry_models_of(pre).push(pair) + w);
                assert((entry_models_of(pre).push(pair) + w).remove(i as int)
                    =~= entry_models_of(pre) + w);
                assert(entry_models_of(entries@) =~= entry_models_of(pre) + w);
                assert(sufm[0].0 == key@);
                lemma_index_found(sufm, key@, 0);
            }
        } else {
            proof {
                assert(sufm[0].0 != key@);
                assert(without_key(sufm, key@) =~= seq![sufm[0]] + w);
                assert(entry_models_of(entries@) =~= entry_models_of(pre) + without_key(
                    sufm,
                    key@,
                )) by {
                    assert(entry_models_of(entries@) =~= (entry_models_of(pre).push(
                        (suf[0].key@, model_of(suf[0].val)),
                    )) + w);
                }
                lemma_lookup_drop(sufm, key@);
            }
        }
    }
    proof {
        assert(old(entries)@.subrange(0, 0) =~= Seq::<DocEntry>::empty());
        assert(old(entries)@.subrange(0, n as int) =~= old(entries)@);
        lemma_entry_models(Seq::<DocEntry>::empty());
        assert(entry_models_of(entries@) =~= without_key(entry_models_of(old(entries)@), key@));
    }
    taken
}

/// Removing an entry removes its model.
pub proof fn lemma_entry_models_remove(s: Seq<DocEntry>, i: int)
    requires
        0 <= i < s.len(),
    ensures
        entry_models_of(s.remove(i)) == entry_models_of(s).remove(i),
{
    lemma_entry_models(s);
    lemma_entry_models(s.remove(i));
    assert(entry_models_of(s.remove(i)) =~= entry_models_of(s).remove(i));
}

/// Appending an entry appends its model.
pub proof fn lemma_entry_models_push(s: Seq<DocEntry>, e: DocEntry)
    ensures
        entry_models_of(s.push(e)) == entry_models_of(s).push((e.key@, model_of(e.val))),
{
    lemma_entry_models(s.push(e));
    lemma_entry_models(s);
    assert(entry_models_of(s.push(e)) =~= entry_models_of(s).push((e.key@, model_of(e.val))));
}

/// Models distribute over concatenation.
pub proof fn lemma_entry_models_concat(a: Seq<DocEntry>, b: Seq<DocEntry>)
    ensures
        entry_models_of(a + b) == entry_models_of(a) + entry_models_of(b),
{
    lemma_entry_models(a + b);
    lemma_entry_models(a);
    lemma_entry_models(b);
    assert(entry_models_of(a + b) =~= entry_models_of(a) + entry_models_of(b));
}


/// The text form of a value, as `text_of` gives it.
pub fn doc_text(v: &DocValue) -> (r: String)
    ensures
        r@ == text_of(model_of(*v)),
{
    match v {
        DocValue::Text(s) => s.clone(),
        DocValue::Int(n) => {
            let mut out = String::new();
            push_dec_i64(&mut out, *n);
            out
        },
        DocValue::Milli(n) => {
            let m = *n;
            let mut out = String::new();
            if m < 0 {
                out.append("-");
                proof {
                    reveal_strlit("-");
                }
            }
            let mag: u64 = if m == i64::MIN {
                0x8000_0000_0000_0000u64
            } else if m < 0 {
                (-m) as u64
            } else {
                m as u64
            };
            crate::text::push_dec(&mut out, mag / 1000);
            out.append(".");
            proof {
                reveal_strlit(".");
            }
            let f = mag % 1000;
            if f == 0 {
                out.append("0");
                proof {
                    reveal_strlit("0");
                }
            } else {
                push_frac(&mut out, f);
            }
            proof {
                let magi = if m < 0 { -(m as int) } else { m as int };
                assert(mag == magi);
                let sign: Seq<char> = if m < 0 { seq!['-'] } else { Seq::<char>::empty() };
                assert(out@ =~= sign + dec_str(magi / 1000) + seq!['.'] + crate::doc::frac_text(
                    magi % 1000,
                ));
            }
            out
        },
        DocValue::Flag(b) => {
            if *b {
                String::from_str("true")
            } else {
                String::from_str("false")
            }
        },
        DocValue::List(_) => String::new(),
        DocValue::Table(_) => String::new(),
    }
}

/// Appends a signed decimal.
pub fn push_dec_i64(out: &mut String, n: i64)
    ensures
        final(out)@ == old(out)@ + int_text(n as int),
{
    if n >= 0 {
        crate::text::push_dec(out, n as u64);
    } else {
        out.append("-");
        proof {
            reveal_strlit("-");
        }
        let mag: u64 = if n == i64::MIN {
            0x8000_0000_0000_0000u64
        } else {
            (-n) as u64
        };
        crate::text::push_dec(out, mag);
        proof {
            assert(final(out)@ =~= old(out)@ + (seq!['-'] + dec_str(-(n as int))));
        }
    }
}

/// Appends the non-zero fraction digits of a thousandths remainder.
fn push_frac(out: &mut String, f: u64)
    requires
        0 < f < 1000,
    ensures
        final(out)@ == old(out)@ + frac_text(f as int),
{
    let a = f / 100;
    let b = (f / 10) % 10;
    let c = f % 10;
    proof {
        lemma_pad3(f as int);
        reveal_with_fuel(strip_zeros, 4);
    }
    let mut tail = String::new();
    crate::text::push_dec_pad(&mut tail, f, 3);
    proof {
        assert(tail@ == crate::text::dec_pad(f as int, 3));
    }
    if c != 0 {
        out.append(tail.as_str());
        proof {
            assert(crate::text::dec_pad(f as int, 3)[2] == crate::text::dec_digit(c as int));
            assert(crate::text::dec_digit(c as int) != '0');
            assert(strip_zeros(crate::text::dec_pad(f as int, 3)) == crate::text::dec_pad(
                f as int,
                3,
            ));
        }
    } else if b != 0 {
        let two = tail.as_str().substring_char(0, 2);
        out.append(two);
        proof {
            let p = crate::text::dec_pad(f as int, 3);
            assert(p[2] == crate::text::dec_digit(c as int) && p[2] == '0');
            assert(p.drop_last() =~= two@);
            assert(p.drop_last()[1] == crate::text::dec_digit(b as int));
            assert(crate::text::dec_digit(b as int) != '0');
            assert(strip_zeros(p) == p.drop_last());
        }
    } else {
        let one = tail.as_str().substring_char(0, 1);
        out.append(one);
        proof {
            let p = crate::text::dec_pad(f as int, 3);
            assert(p[2] == '0');
            assert(p.drop_last()[1] == crate::text::dec_digit(b as int) && p.drop_last()[1]
                == '0');
            assert(p.drop_last().drop_last() =~= one@);
            assert(p.drop_last().drop_last()[0] == crate::text::dec_digit(a as int));
            assert(a != 0);
            assert(crate::text::dec_digit(a as int) != '0');
            assert(strip_zeros(p) == p.drop_last().drop_last());
        }
    }
}

/// A three-digit zero-padded number is its three digits.
proof fn lemma_pad3(f: int)
    requires
        0 <= f < 1000,
    ensures
        crate::text::dec_pad(f, 3) =~= seq![
            crate::text::dec_digit(f / 100),
            crate::text::dec_digit((f / 10) % 10),
            crate::text::dec_digit(f % 10),
        ],
{
    reveal_with_fuel(crate::text::dec_pad, 5);
    reveal_with_fuel(crate::text::dec_str, 5);
    crate::text::lemma_dec_pad_len(f, 3);
    crate::text::lemma_dec_str_len(f);
    if f < 10 {
        assert(f / 100 == 0 && (f / 10) % 10 == 0 && f % 10 == f);
    } else if f < 100 {
        assert(crate::text::dec_str(f) =~= crate::text::dec_str(f / 10).push(
            crate::text::dec_digit(f % 10),
        ));
        assert(f / 100 == 0);
        assert((f / 10) % 10 == f / 10);
    } else {
        assert(crate::text::dec_str(f) =~= crate::text::dec_str(f / 10).push(
            crate::text::dec_digit(f % 10),
        ));
        assert(crate::text::dec_str(f / 10) =~= crate::text::dec_str(f / 100).push(
            crate::text::dec_digit((f / 10) % 10),
        )) by {
            assert((f / 10) / 10 == f / 100) by (nonlinear_arith)
                requires
                    100 <= f < 1000,
            ;
        }
    }
}

/// The integer a value reads as, per `int_of`.
pub fn doc_int(v: &DocValue) -> (r: Option<i64>)
    ensures
        match r {
            Some(n) => int_of(model_of(*v)) == Some(n as int),
            None => int_of(model_of(*v)) is None,
        },
{
    match v {
        DocValue::Int(n) => Some(*n),
        DocValue::Milli(n) => {
            let m = *n;
            if m == i64::MIN {
                proof {
                    assert(trunc_div_1000(m as int) == -9223372036854775int);
                }
                Some(-9223372036854775i64)
            } else if m < 0 {
                Some(-((-m) / 1000))
            } else {
                Some(m / 1000)
            }
        },
        DocValue::Text(s) => parse_i64_text(s.as_str()),
        _ => None,
    }
}

/// Parses signed decimal text, per `int_text_val`.
fn parse_i64_text(s: &str) -> (r: Option<i64>)
    ensures
        match r {
            Some(n) => int_text_val(s@) == Some(n as int),
            None => int_text_val(s@) is None,
        },
{
    let n = s.unicode_len();
    if n == 0 {
        return None;
    }
    let head = s.get_char(0);
    if head == '-' {
        let rest = s.substring_char(1, n);
        proof {
            assert(rest@ =~= s@.drop_first());
        }
        match crate::text::parse_u64_digits(rest) {
            Some(v) => {
                if v <= 0x8000_0000_0000_0000u64 {
                    if v == 0x8000_0000_0000_0000u64 {
                        Some(i64::MIN)
                    } else {
                        Some(-(v as i64))
                    }
                } else {
                    None
                }
            },
            None => None,
        }
    } else {
        let rest = if head == '+' {
            let t = s.substring_char(1, n);
            proof {
                assert(t@ =~= s@.drop_first());
            }
            t
        } else {
            proof {
                assert(s@.subrange(0, n as int) =~= s@);
            }
            s.substring_char(0, n)
        };
        match crate::text::parse_u64_digits(rest) {
            Some(v) => {
                if v <= 0x7fff_ffff_ffff_ffffu64 {
                    Some(v as i64)
                } else {
                    None
                }
            },
            None => None,
        }
    }
}

/// The thousandths a value reads as, per `millis_of`.
pub fn doc_millis(v: &DocValue) -> (r: Option<i64>)
    ensures
        match r {
            Some(n) => millis_of(model_of(*v)) == Some(n as int),
            None => millis_of(model_of(*v)) is None,
        },
{
    match v {
        DocValue::Milli(n) => Some(*n),
        DocValue::Int(n) => {
            let m = *n;
            if -9223372036854775i64 <= m && m <= 9223372036854775i64 {
                Some(m * 1000)
            } else {
                None
            }
        },
        DocValue::Text(s) => parse_millis_text(s.as_str()),
        _ => None,
    }
}

/// Parses decimal text into thousandths, per `millis_text_val`.
fn parse_millis_text(s: &str) -> (r: Option<i64>)
    ensures
        match r {
            Some(n) => millis_text_val(s@) == Some(n as int),
            None => millis_text_val(s@) is None,
        },
{
    let n = s.unicode_len();
    let neg = n > 0 && s.get_char(0) == '-';
    let body = if neg {
        let t = s.substring_char(1, n);
        proof {
            assert(t@ =~= s@.drop_first());
        }
        t
    } else {
        proof {
            assert(s@.subrange(0, n as int) =~= s@);
        }
        s.substring_char(0, n)
    };
    let blen = body.unicode_len();
    // find the first dot
    let mut d: usize = 0;
    while d < blen && body.get_char(d) != '.'
        invariant
            0 <= d <= blen,
            blen == body@.len(),
            forall|k: int| 0 <= k < d ==> body@[k] != '.',
        decreases blen - d,
    {
        d = d + 1;
    }
    proof {
        lemma_dot_index(body@, d as int);
    }
    let ip = body.substring_char(0, d);
    let fp = if d < blen {
        body.substring_char(d + 1, blen)
    } else {
        proof {
            assert(body@.subrange(blen as int, blen as int) =~= Seq::<char>::empty());
        }
        body.substring_char(blen, blen)
    };
    if ip.unicode_len() == 0 || !crate::text::all_digits_str(ip) || !crate::text::all_digits_str(
        fp,
    ) || (d < blen && fp.unicode_len() == 0) {
        return None;
    }
    let ipv = match crate::text::parse_u64_digits(ip) {
        Some(x) => x,
        None => {
            proof {
                crate::text::lemma_dec_val_nonneg(ip@);
                let frac = frac_millis(fp@);
                assert(frac >= 0) by {
                    let p = if fp@.len() >= 3 {
                        fp@.subrange(0, 3)
                    } else {
                        fp@
                    };
                    assert(crate::text::all_digits(p)) by {
                        assert forall|k: int|
                            0 <= k < p.len() implies crate::text::is_dec_digit(p[k]) by {
                            assert(p[k] == fp@[k]);
                        }
                    }
                    crate::text::lemma_dec_val_nonneg(p);
                }
                let dv = crate::text::dec_val(ip@);
                assert(dv * 1000 + frac > 0x7fff_ffff_ffff_ffff) by (nonlinear_arith)
                    requires
                        dv > 0xffff_ffff_ffff_ffff,
                        frac >= 0,
                ;
            }
            return None;
        },
    };
    let fv: u64 = frac_value(fp);
    proof {
        vstd::arithmetic::div_mod::lemma_fundamental_div_mod(
            0x7fff_ffff_ffff_ffff - fv as int,
            1000,
        );
    }
    if ipv > (0x7fff_ffff_ffff_ffffu64 - fv) / 1000 {
        proof {
            crate::text::lemma_dec_val_nonneg(ip@);
            assert(0 <= (0x7fff_ffff_ffff_ffff - fv as int) % 1000 < 1000) by {
                vstd::arithmetic::div_mod::lemma_mod_bound(
                    0x7fff_ffff_ffff_ffff - fv as int,
                    1000,
                );
            }
        }
        return None;
    }
    proof {
        assert(0 <= (0x7fff_ffff_ffff_ffff - fv as int) % 1000 < 1000) by {
            vstd::arithmetic::div_mod::lemma_mod_bound(0x7fff_ffff_ffff_ffff - fv as int, 1000);
        }
    }
    let v = ipv * 1000 + fv;
    if neg {
        Some(-(v as i64))
    } else {
        Some(v as i64)
    }
}

/// The thousandths carried by the fraction digits.
fn frac_value(fp: &str) -> (r: u64)
    requires
        crate::text::all_digits(fp@),
    ensures
        r == frac_millis(fp@),
        r < 1000,
{
    let n = fp.unicode_len();
    let p = if n >= 3 {
        fp.substring_char(0, 3)
    } else {
        proof {
            assert(fp@.subrange(0, n as int) =~= fp@);
        }
        fp.substring_char(0, n)
    };
    proof {
        assert(crate::text::all_digits(p@)) by {
            assert forall|k: int| 0 <= k < p@.len() implies crate::text::is_dec_digit(
                p@[k],
            ) by {
                assert(p@[k] == fp@[k]);
            }
        }
        crate::text::lemma_dec_val_bound(p@);
        reveal_with_fuel(crate::text::pow10, 4);
    }
    let v = match crate::text::parse_u64_digits(p) {
        Some(x) => x,
        None => 0,
    };
    let plen = p.unicode_len();
    if plen == 0 {
        0
    } else if plen == 1 {
        v * 100
    } else if plen == 2 {
        v * 10
    } else {
        v
    }
}

/// Where the dot scan stopped is the first dot.
proof fn lemma_dot_index(s: Seq<char>, d: int)
    requires
        0 <= d <= s.len(),
        forall|k: int| 0 <= k < d ==> s[k] != '.',
        d < s.len() ==> s[d] == '.',
    ensures
        dot_index(s) == d,
    decreases d,
{
    if d == 0 {
        if s.len() > 0 && s[0] != '.' {
            lemma_dot_bounds(s);
        }
    } else {
        let t = s.drop_first();
        lemma_dot_index(t, d - 1);
    }
}

proof fn lemma_dot_bounds(s: Seq<char>)
    ensures
        0 <= dot_index(s) <= s.len(),
        dot_index(s) < s.len() ==> s[dot_index(s)] == '.',
    decreases s.len(),
{
    if s.len() > 0 && s[0] != '.' {
        lemma_dot_bounds(s.drop_first());
    }
}

} // verus!
