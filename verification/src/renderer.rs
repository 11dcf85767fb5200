//! The prompt renderer: turns the labeled selections into the final
//! prompt text, one `[label]：value` line per entry that has a value.
use vstd::prelude::*;
use crate::text::{trim_str, trim_view};
use crate::no_selection_view;
use crate::no_selection;
use crate::text::str_eq;

verus! {

/// One row handed to the renderer: a display label, the selected choice
/// and the confirmed free text.
pub struct RenderEntry {
    pub label: String,
    pub selected: String,
    pub free_text: String,
}

/// The ghost model of a renderer row: its field views.
pub struct RenderModel {
    pub label: Seq<char>,
    pub selected: Seq<char>,
    pub free_text: Seq<char>,
}

pub open spec fn render_entry_model(e: RenderEntry) -> RenderModel {
    RenderModel { label: e.label@, selected: e.selected@, free_text: e.free_text@ }
}

pub open spec fn render_models(entries: Seq<RenderEntry>) -> Seq<RenderModel> {
    entries.map_values(|e: RenderEntry| render_entry_model(e))
}

/// The value a single entry contributes: the trimmed free text when it is
/// present, otherwise the trimmed selected choice.
pub open spec fn entry_value(m: RenderModel) -> Seq<char> {
    if trim_view(m.free_text).len() > 0 {
        trim_view(m.free_text)
    } else {
        trim_view(m.selected)
    }
}

/// An entry is rendered unless its value is empty or the sentinel.
pub open spec fn entry_rendered(m: RenderModel) -> bool {
    entry_value(m).len() > 0 && entry_value(m) != no_selection_view()
}

/// The rendered line for one entry.
pub open spec fn entry_line(m: RenderModel) -> Seq<char> {
    "["@ + m.label + "]："@ + entry_value(m)
}

/// The full prompt: the lines of the rendered entries joined by newlines.
pub open spec fn render_view(entries: Seq<RenderModel>) -> Seq<char>
    decreases entries.len(),
{
    if entries.len() == 0 {
        Seq::empty()
    } else {
        let rest = render_view(entries.drop_first());
        if !entry_rendered(entries[0]) {
            rest
        } else if !exists_rendered(entries.drop_first()) {
            entry_line(entries[0])
        } else {
            entry_line(entries[0]) + "\n"@ + rest
        }
    }
}

/// `exists_rendered` of a non-empty list splits into head and tail.
proof fn lemma_exists_rendered_cons(s: Seq<RenderModel>)
    requires
        s.len() > 0,
    ensures
        exists_rendered(s) == (entry_rendered(s[0]) || exists_rendered(s.drop_first())),
{
    let rest = s.drop_first();
    if entry_rendered(s[0]) {
        assert(exists_rendered(s));
    }
    if exists_rendered(rest) {
        let k = choose|k: int| 0 <= k < rest.len() && #[trigger] entry_rendered(rest[k]);
        assert(s[k + 1] == rest[k]);
        assert(entry_rendered(s[k + 1]));
    }
    if exists_rendered(s) && !entry_rendered(s[0]) {
        let k = choose|k: int| 0 <= k < s.len() && #[trigger] entry_rendered(s[k]);
        assert(rest[k - 1] == s[k]);
        assert(entry_rendered(rest[k - 1]));
    }
}

/// A list without a rendered entry renders to the empty prompt.
proof fn lemma_render_empty(s: Seq<RenderModel>)
    requires
        !exists_rendered(s),
    ensures
        render_view(s).len() == 0,
    decreases s.len(),
{
    if s.len() > 0 {
        lemma_exists_rendered_cons(s);
        lemma_render_empty(s.drop_first());
    }
}

/// Some entry of the list is rendered.
pub open spec fn exists_rendered(entries: Seq<RenderModel>) -> bool {
    exists|k: int| 0 <= k < entries.len() && #[trigger] entry_rendered(entries[k])
}

/// Renders the prompt preview from the given entries: each entry whose
/// value (free text first, else selected choice) is non-blank and not the
/// sentinel contributes a `[label]：value` line.
pub fn render_prompt(entries: &Vec<RenderEntry>) -> (r: String)
    ensures
        r@ == render_view(render_models(entries@)),
{
    let ghost models = render_models(entries@);
    let mut out = String::new();
    let mut first = true;
    let mut i: usize = entries.len();
    proof {
        assert(models.len() == entries@.len());
    }
    // build from the back so each step matches one unfolding of the spec
    while i > 0
        invariant
            0 <= i <= entries@.len(),
            models == render_models(entries@),
            models.len() == entries@.len(),
            first == !exists_rendered(models.subrange(i as int, models.len() as int)),
            out@ == render_view(models.subrange(i as int, models.len() as int)),
        decreases i,
    {
        i = i - 1;
        let e = &entries[i];
        let free_text = trim_str(e.free_text.as_str());
        let selected = trim_str(e.selected.as_str());
        let value = if free_text.unicode_len() > 0 {
            free_text
        } else {
            selected
        };
        proof {
            assert(models[i as int] == render_entry_model(entries@[i as int]));
            assert(value@ == entry_value(models[i as int]));
            let suf = models.subrange(i as int, models.len() as int);
            assert(suf.drop_first() =~= models.subrange(i + 1, models.len() as int));
            assert(suf[0] == models[i as int]);
            lemma_exists_rendered_cons(suf);
            if !exists_rendered(suf.drop_first()) {
                lemma_render_empty(suf.drop_first());
            }
        }
        if value.unicode_len() > 0 && !str_eq(value.as_str(), no_selection()) {
            let mut line = String::from_str("[");
            line.append(e.label.as_str());
            line.append("]：");
            line.append(value.as_str());
            if !first {
                line.append("\n");
                line.append(out.as_str());
            }
            out = line;
            first = false;
        }
    }
    proof {
        assert(models.subrange(0, models.len() as int) =~= models);
    }
    out
}

} // verus!
