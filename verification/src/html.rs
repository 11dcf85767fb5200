//! The rendered, human-browsable pages of the history log: one page for
//! the active log with links to one page per archive day-key. Prompt
//! text and attribute values are escaped through the html_escape crate.
use vstd::prelude::*;
use crate::history::{sorted_desc, Archive, HistoryEntry, HistoryStore};
use crate::text::{has_prefix, lex_le};

verus! {

/// The escaping of one text character: the three markup-significant
/// characters become entities.
pub open spec fn esc_text_char(c: char) -> Seq<char> {
    if c == '&' {
        "&amp;"@
    } else if c == '<' {
        "&lt;"@
    } else if c == '>' {
        "&gt;"@
    } else {
        seq![c]
    }
}

/// Text escaped for element content.
pub open spec fn html_text_view(s: Seq<char>) -> Seq<char>
    decreases s.len(),
{
    if s.len() == 0 {
        Seq::empty()
    } else {
        esc_text_char(s[0]) + html_text_view(s.drop_first())
    }
}

/// The escaping of one double-quoted attribute character.
pub open spec fn esc_attr_char(c: char) -> Seq<char> {
    if c == '"' {
        "&quot;"@
    } else {
        esc_text_char(c)
    }
}

/// Text escaped for a double-quoted attribute value.
pub open spec fn html_attr_view(s: Seq<char>) -> Seq<char>
    decreases s.len(),
{
    if s.len() == 0 {
        Seq::empty()
    } else {
        esc_attr_char(s[0]) + html_attr_view(s.drop_first())
    }
}

/// Relies on html_escape's encode_text: it replaces exactly the
/// ampersand and the two angle brackets with their entities, character
/// by character.
#[verifier::external_body]
pub fn encode_html_text(s: &str) -> (r: String)
    ensures
        r@ == html_text_view(s@),
{
    html_escape::encode_text(s).into_owned()
}

/// Relies on html_escape's encode_double_quoted_attribute: it replaces
/// exactly the ampersand, the two angle brackets and the double quote
/// with their entities, character by character.
#[verifier::external_body]
pub fn encode_html_attr(s: &str) -> (r: String)
    ensures
        r@ == html_attr_view(s@),
{
    html_escape::encode_double_quoted_attribute(s).into_owned()
}

/// Appends text, keeping every substring fact about the target.
fn append_keeping(out: &mut String, part: &str)
    ensures
        final(out)@ == old(out)@ + part@,
        forall|sub: Seq<char>|
            #[trigger] crate::text::has_substring(old(out)@, sub) ==> crate::text::has_substring(
                final(out)@,
                sub,
            ),
{
    let ghost pre = out@;
    out.append(part);
    proof {
        assert forall|sub: Seq<char>|
            #[trigger] crate::text::has_substring(pre, sub) implies crate::text::has_substring(
            out@,
            sub,
        ) by {
            crate::text::lemma_substring_concat(pre, part@, sub);
        }
    }
}

/// An entry with this id, prompt, timestamp and image list is in the
/// list.
pub open spec fn has_entry_like(
    s: Seq<HistoryEntry>,
    id: Seq<char>,
    prompt: Seq<char>,
    ts: Seq<char>,
    imgs: Seq<Seq<char>>,
) -> bool {
    exists|j: int|
        0 <= j < s.len() && (#[trigger] s[j]).id@ == id && s[j].prompt@ == prompt && s[j].ts@
            == ts && s[j].images@.map_values(|p: String| p@) == imgs
}

/// Sorts entries newest id first, keeping every entry.
fn sort_entries_desc(entries: &Vec<HistoryEntry>) -> (r: Vec<HistoryEntry>)
    ensures
        r@.len() == entries@.len(),
        sorted_desc(r@),
        forall|x: Seq<char>|
            #[trigger] crate::history::has_id(r@, x) == crate::history::has_id(entries@, x),
        forall|k: int|
            0 <= k < entries@.len() ==> has_entry_like(
                r@,
                (#[trigger] entries@[k]).id@,
                entries@[k].prompt@,
                entries@[k].ts@,
                entries@[k].images@.map_values(|p: String| p@),
            ),
{
    let n = entries.len();
    let mut out: Vec<HistoryEntry> = Vec::new();
    let mut i: usize = 0;
    proof {
        assert forall|x: Seq<char>| !#[trigger] crate::history::has_id(out@, x) by {
            if crate::history::has_id(out@, x) {
                let k = choose|k: int|
                    0 <= k < out@.len() && (#[trigger] out@[k]).id@ == x;
            }
        }
    }
    while i < n
        invariant
            0 <= i <= n,
            n == entries@.len(),
            out@.len() == i,
            sorted_desc(out@),
            forall|x: Seq<char>|
                #[trigger] crate::history::has_id(out@, x) == crate::history::has_id(
                    entries@.subrange(0, i as int),
                    x,
                ),
            forall|k: int|
                0 <= k < i ==> has_entry_like(
                    out@,
                    (#[trigger] entries@[k]).id@,
                    entries@[k].prompt@,
                    entries@[k].ts@,
                    entries@[k].images@.map_values(|p: String| p@),
                ),
        decreases n - i,
    {
        let e = entries[i].clone();
        let ghost em = e.id@;
        proof {
            assert(e.id@ == entries@[i as int].id@);
        }
        // find the insertion point: past every id at or above this one
        let m = out.len();
        let mut p: usize = 0;
        while p < m && crate::text::str_le(e.id.as_str(), &out[p].id)
            invariant
                0 <= p <= m,
                m == out@.len(),
                em == e.id@,
                forall|k: int| 0 <= k < p ==> lex_le(em, (#[trigger] out@[k]).id@),
            decreases m - p,
        {
            p = p + 1;
        }
        let ghost outpre = out@;
        out.insert(p, e);
        proof {
            assert(sorted_desc(out@)) by {
                assert forall|a: int, b: int|
                    0 <= a < b < out@.len() implies lex_le(
                    (#[trigger] out@[b]).id@,
                    (#[trigger] out@[a]).id@,
                ) by {
                    let oa = if a < p {
                        a
                    } else {
                        a - 1
                    };
                    let ob = if b < p {
                        b
                    } else {
                        b - 1
                    };
                    if a == p && b > p {
                        // everything past the insertion point is at or
                        // below the new id
                        assert(p < m);
                        assert(!lex_le(em, outpre[p as int].id@));
                        crate::text::lemma_lex_le_total(em, outpre[p as int].id@);
                        assert(out@[b] == outpre[ob]);
                        if ob > p {
                            assert(lex_le(outpre[ob].id@, outpre[p as int].id@));
                            crate::text::lemma_lex_le_trans(
                                outpre[ob].id@,
                                outpre[p as int].id@,
                                em,
                            );
                        }
                    } else if b == p {
                        assert(out@[a] == outpre[oa]);
                        assert(lex_le(em, outpre[oa].id@));
                    } else if a != p && b != p {
                        assert(out@[a] == outpre[oa] && out@[b] == outpre[ob]);
                        assert(lex_le(outpre[ob].id@, outpre[oa].id@));
                    }
                }
            }
            assert forall|x: Seq<char>|
                #[trigger] crate::history::has_id(out@, x) == crate::history::has_id(
                entries@.subrange(0, i + 1),
                x,
            ) by {
                if crate::history::has_id(out@, x) {
                    let k = choose|k: int|
                        0 <= k < out@.len() && (#[trigger] out@[k]).id@ == x;
                    if k != p {
                        let ok = if k < p {
                            k
                        } else {
                            k - 1
                        };
                        assert(out@[k] == outpre[ok]);
                        assert((outpre[ok]).id@ == x);
                        assert(crate::history::has_id(outpre, x));
                        let k2 = choose|k2: int|
                            0 <= k2 < i && (#[trigger] entries@.subrange(0, i as int)[k2]).id@
                                == x;
                        assert((entries@.subrange(0, i + 1)[k2]).id@ == x);
                    } else {
                        assert((entries@.subrange(0, i + 1)[i as int]).id@ == x);
                    }
                }
                if crate::history::has_id(entries@.subrange(0, i + 1), x) {
                    let k = choose|k: int|
                        0 <= k < i + 1 && (#[trigger] entries@.subrange(0, i + 1)[k]).id@ == x;
                    if k < i {
                        assert((entries@.subrange(0, i as int)[k]).id@ == x);
                        assert(crate::history::has_id(outpre, x));
                        let k2 = choose|k2: int|
                            0 <= k2 < outpre.len() && (#[trigger] outpre[k2]).id@ == x;
                        let nk = if k2 < p {
                            k2
                        } else {
                            k2 + 1
                        };
                        assert(out@[nk] == outpre[k2]);
                        assert((out@[nk]).id@ == x);
                    } else {
                        assert((out@[p as int]).id@ == x);
                    }
                }
            }
        }
        proof {
            assert forall|k: int|
                0 <= k < i + 1 implies has_entry_like(
                out@,
                (#[trigger] entries@[k]).id@,
                entries@[k].prompt@,
                entries@[k].ts@,
                entries@[k].images@.map_values(|p: String| p@),
            ) by {
                if k < i {
                    let j = choose|j: int|
                        0 <= j < outpre.len() && (#[trigger] outpre[j]).id@ == entries@[k].id@
                            && outpre[j].prompt@ == entries@[k].prompt@ && outpre[j].ts@
                            == entries@[k].ts@ && outpre[j].images@.map_values(|p: String| p@)
                            == entries@[k].images@.map_values(|p: String| p@);
                    let nj = if j < p {
                        j
                    } else {
                        j + 1
                    };
                    assert(out@[nj] == outpre[j]);
                    assert((out@[nj]).id@ == entries@[k].id@ && out@[nj].prompt@
                        == entries@[k].prompt@ && out@[nj].ts@ == entries@[k].ts@
                        && out@[nj].images@.map_values(|p: String| p@)
                        == entries@[k].images@.map_values(|p: String| p@));
                } else {
                    assert(out@[p as int].images@.map_values(|p2: String| p2@)
                        =~= entries@[k].images@.map_values(|p2: String| p2@)) by {
                        assert(e.images@ == entries@[i as int].images@);
                    }
                    assert((out@[p as int]).id@ == entries@[k].id@ && out@[p as int].prompt@
                        == entries@[k].prompt@ && out@[p as int].ts@ == entries@[k].ts@);
                }
            }
        }
        i = i + 1;
    }
    proof {
        assert(entries@.subrange(0, n as int) =~= entries@);
    }
    out
}

impl HistoryStore {
    /// Renders all pages: the active log page first (entries newest
    /// first, with links to every archive page), then one page per
    /// archive. Each result pairs the file path with the page text.
    pub fn regenerate_html(&self, server_port: u16) -> (r: Vec<(String, String)>)
        ensures
            r@.len() == 1 + self.archives_view().len(),
            r@[0].0@ == crate::history::joined_path_view(self.base_dir_view(), "History.html"@),
            forall|k: int|
                1 <= k < r@.len() ==> (#[trigger] r@[k]).0@ == crate::history::joined_path_view(
                    self.base_dir_view(),
                    crate::history::archive_html_name_view(
                        self.archives_view()[k - 1].date_key@,
                    ),
                ),
            forall|k: int|
                0 <= k < r@.len() ==> has_prefix((#[trigger] r@[k]).1@, "<!doctype html>"@),
            forall|k: int|
                0 <= k < self.active_view().len() ==> crate::text::has_substring(
                    r@[0].1@,
                    html_text_view((#[trigger] self.active_view()[k]).prompt@),
                ),
            forall|k: int, j: int|
                1 <= k < r@.len() && 0 <= j < self.archives_view()[k - 1].entries@.len()
                    ==> crate::text::has_substring(
                    (#[trigger] r@[k]).1@,
                    html_text_view((#[trigger] self.archives_view()[k - 1].entries@[j]).prompt@),
                ),
            forall|j: int|
                0 <= j < self.archives_view().len() ==> crate::text::has_substring(
                    r@[0].1@,
                    html_attr_view(
                        "History_"@ + (#[trigger] self.archives_view()[j]).date_key@ + ".html"@,
                    ),
                ),
    {
        let mut pages: Vec<(String, String)> = Vec::new();
        let keys = self.collect_archive_date_keys();
        let active = self.active_entries();
        let content = build_history_html(
            active,
            "Prompt History",
            true,
            true,
            server_port,
            &keys,
        );
        proof {
            assert forall|j: int|
                0 <= j < self.active_view().len() implies crate::text::has_substring(
                content@,
                html_text_view((#[trigger] self.active_view()[j]).prompt@),
            ) by {
                assert(crate::text::has_substring(
                    content@,
                    html_text_view(active@[j].prompt@),
                ));
            }
            assert forall|j: int|
                0 <= j < self.archives_view().len() implies crate::text::has_substring(
                content@,
                html_attr_view(
                    "History_"@ + (#[trigger] self.archives_view()[j]).date_key@ + ".html"@,
                ),
            ) by {
                assert(keys@.map_values(|k: String| k@).len() == self.archives_view().map_values(
                    |a: Archive| a.date_key@,
                ).len());
                assert(keys@.len() == self.archives_view().len());
                assert(keys@.map_values(|k: String| k@)[j] == self.archives_view().map_values(
                    |a: Archive| a.date_key@,
                )[j]);
                assert(keys@.map_values(|k: String| k@)[j] == keys@[j]@);
                assert(self.archives_view().map_values(|a: Archive| a.date_key@)[j]
                    == self.archives_view()[j].date_key@);
                assert(keys@[j]@ == self.archives_view()[j].date_key@);
                assert(crate::text::has_substring(
                    content@,
                    html_attr_view("History_"@ + keys@[j]@ + ".html"@),
                ));
            }
        }
        pages.push((self.history_html_path(), content));
        let n = self.archive_count();
        let mut k: usize = 0;
        while k < n
            invariant
                0 <= k <= n,
                n == self.archives_view().len(),
                pages@.len() == 1 + k,
                pages@[0].0@ == crate::history::joined_path_view(
                    self.base_dir_view(),
                    "History.html"@,
                ),
                forall|j: int|
                    1 <= j < pages@.len() ==> (#[trigger] pages@[j]).0@
                        == crate::history::joined_path_view(
                        self.base_dir_view(),
                        crate::history::archive_html_name_view(
                            self.archives_view()[j - 1].date_key@,
                        ),
                    ),
                forall|j: int|
                    0 <= j < pages@.len() ==> has_prefix(
                        (#[trigger] pages@[j]).1@,
                        "<!doctype html>"@,
                    ),
                forall|j: int|
                    0 <= j < self.active_view().len() ==> crate::text::has_substring(
                        pages@[0].1@,
                        html_text_view((#[trigger] self.active_view()[j]).prompt@),
                    ),
                forall|p: int, j: int|
                    1 <= p < pages@.len() && 0 <= j < self.archives_view()[p - 1].entries@.len()
                        ==> crate::text::has_substring(
                        (#[trigger] pages@[p]).1@,
                        html_text_view(
                            (#[trigger] self.archives_view()[p - 1].entries@[j]).prompt@,
                        ),
                    ),
                forall|j: int|
                    0 <= j < self.archives_view().len() ==> crate::text::has_substring(
                        pages@[0].1@,
                        html_attr_view(
                            "History_"@ + (#[trigger] self.archives_view()[j]).date_key@
                                + ".html"@,
                        ),
                    ),
            decreases n - k,
    {
            let arch_entries = self.archive_entries(k);
            let key = self.archive_key(k);
            let empty_keys: Vec<String> = Vec::new();
            let mut title = String::from_str("Prompt History Archive ");
            title.append(key.as_str());
            let content = build_history_html(
                arch_entries,
                title.as_str(),
                true,
                true,
                server_port,
                &empty_keys,
            );
            proof {
                assert forall|j: int|
                    0 <= j < self.archives_view()[k as int].entries@.len()
                        implies crate::text::has_substring(
                    content@,
                    html_text_view(
                        (#[trigger] self.archives_view()[k as int].entries@[j]).prompt@,
                    ),
                ) by {
                    assert(crate::text::has_substring(
                        content@,
                        html_text_view(arch_entries@[j].prompt@),
                    ));
                }
            }
            pages.push((self.archive_html_path(key.as_str()), content));
            k = k + 1;
        }
        pages
    }

    /// Clones of the active entries, for rendering.
    fn active_entries(&self) -> (r: Vec<HistoryEntry>)
        ensures
            r@.len() == self.active_view().len(),
            forall|k: int|
                0 <= k < r@.len() ==> (#[trigger] r@[k]).id@ == self.active_view()[k].id@
                    && r@[k].prompt@ == self.active_view()[k].prompt@,
    {
        clone_entries(self.active_ref())
    }

    /// Clones of one archive's entries, for rendering.
    fn archive_entries(&self, k: usize) -> (r: Vec<HistoryEntry>)
        requires
            k < self.archives_view().len(),
        ensures
            r@.len() == self.archives_view()[k as int].entries@.len(),
            forall|j: int|
                0 <= j < r@.len() ==> (#[trigger] r@[j]).prompt@
                    == self.archives_view()[k as int].entries@[j].prompt@,
    {
        clone_entries(&self.archives_ref()[k].entries)
    }

    /// One archive's day-key.
    fn archive_key(&self, k: usize) -> (r: String)
        requires
            k < self.archives_view().len(),
        ensures
            r@ == self.archives_view()[k as int].date_key@,
    {
        self.archives_ref()[k].date_key.clone()
    }
}

/// Clones a list of entries.
fn clone_entries(entries: &Vec<HistoryEntry>) -> (r: Vec<HistoryEntry>)
    ensures
        r@.len() == entries@.len(),
        forall|k: int|
            0 <= k < r@.len() ==> (#[trigger] r@[k]).id@ == entries@[k].id@ && r@[k].prompt@
                == entries@[k].prompt@,
{
    let n = entries.len();
    let mut out: Vec<HistoryEntry> = Vec::new();
    let mut i: usize = 0;
    while i < n
        invariant
            0 <= i <= n,
            n == entries@.len(),
            out@.len() == i,
            forall|k: int|
                0 <= k < i ==> (#[trigger] out@[k]).id@ == entries@[k].id@ && out@[k].prompt@
                    == entries@[k].prompt@,
        decreases n - i,
    {
        out.push(entries[i].clone());
        i = i + 1;
    }
    out
}


/// The tracked image path of an entry: the first, or empty when none.
pub open spec fn img_path_of(m: crate::history::EntryModel) -> Seq<char> {
    if m.images.len() > 0 {
        m.images[0]
    } else {
        Seq::empty()
    }
}

/// The image pane of one card.
pub open spec fn image_block_view(m: crate::history::EntryModel) -> Seq<char> {
    if m.images.len() > 0 {
        "<div class=\"image-item is-selected\" data-image-path=\""@ + html_attr_view(
            img_path_of(m),
        ) + "\"><a class=\"thumb-image-link\" href=\""@ + html_attr_view(img_path_of(m))
            + "\" target=\"_blank\" rel=\"noopener noreferrer\"><img class=\"thumb-image\" src=\""@
            + html_attr_view(img_path_of(m))
            + "\" alt=\"history image\" loading=\"lazy\" /></a><a class=\"thumb-path\" href=\""@
            + html_attr_view(img_path_of(m)) + "\" target=\"_blank\" rel=\"noopener noreferrer\">"@
            + html_text_view(img_path_of(m)) + "</a></div>"@
    } else {
        "<span class=\"muted\">画像なし</span>"@
    }
}

/// The upload pane of one card, present only on interactive pages.
pub open spec fn upload_block_view(m: crate::history::EntryModel, interactive: bool) -> Seq<char> {
    if interactive {
        "<section class=\"upload\" data-history-id=\""@ + html_attr_view(m.id)
            + "\"><div class=\"dropzone "@ + (if m.images.len() > 0 {
            "has-image"@
        } else {
            "needs-image"@
        }) + "\">"@ + (if m.images.len() > 0 {
            "画像追加済み（差し替えはD＆Dまたはクリック）"@
        } else {
            "画像追加: ドラッグ&ドロップ または クリック"@
        }) + "</div><input class=\"file-input\" type=\"file\" accept=\".png,.jpg,.jpeg,.webp\" /></section>"@
    } else {
        Seq::empty()
    }
}

/// One full card: the markup the page carries for one entry.
pub open spec fn card_view(
    m: crate::history::EntryModel,
    interactive: bool,
    allow_delete: bool,
) -> Seq<char> {
    "<article class=\"entry\" data-history-id=\""@ + html_attr_view(m.id)
        + "\" data-has-image=\""@ + (if m.images.len() > 0 {
        "true"@
    } else {
        "false"@
    }) + "\" data-selected-image=\""@ + html_attr_view(img_path_of(m))
        + "\"><header class=\"entry-header\"><span class=\"timestamp\">"@ + html_text_view(m.ts)
        + "</span></header><div class=\"entry-body\"><section class=\"prompt-pane\"><div class=\"prompt-toolbar\"><button class=\"btn overwrite-btn\">上書き</button><button class=\"btn copy-btn\">コピー</button>"@
        + (if interactive && allow_delete {
        "<button class=\"btn delete-btn\">削除</button>"@
    } else {
        Seq::empty()
    }) + "</div><textarea class=\"prompt-editor\" spellcheck=\"false\">"@ + html_text_view(
        m.prompt,
    ) + "</textarea></section><section class=\"media-pane\">"@ + upload_block_view(m, interactive)
        + "<section class=\"images\">"@ + image_block_view(m)
        + "</section><button class=\"btn image-copy-btn\""@ + (if m.images.len() > 0 {
        Seq::empty()
    } else {
        " disabled"@
    }) + ">画像をクリップボードにコピー</button></section></div></article>"@
}

/// The cards of a page, newest first, separated by newlines.
pub open spec fn cards_seq(
    ms: Seq<crate::history::EntryModel>,
    interactive: bool,
    allow_delete: bool,
) -> Seq<char>
    decreases ms.len(),
{
    if ms.len() == 0 {
        Seq::empty()
    } else if ms.len() == 1 {
        card_view(ms[0], interactive, allow_delete)
    } else {
        card_view(ms[0], interactive, allow_delete) + "\n"@ + cards_seq(
            ms.drop_first(),
            interactive,
            allow_delete,
        )
    }
}

/// The card region: the cards, or the empty-state paragraph.
pub open spec fn cards_region(
    ms: Seq<crate::history::EntryModel>,
    interactive: bool,
    allow_delete: bool,
) -> Seq<char> {
    if ms.len() == 0 {
        "<p class=\"empty\">履歴はまだありません。</p>"@
    } else {
        cards_seq(ms, interactive, allow_delete)
    }
}

/// One archive link.
pub open spec fn link_view(key: Seq<char>) -> Seq<char> {
    "<a class=\"archive-link\" href=\""@ + html_attr_view("History_"@ + key + ".html"@)
        + "\" target=\"_blank\" rel=\"noopener noreferrer\">"@ + html_text_view(
        "History_"@ + key + ".html"@,
    ) + "</a>"@
}

pub open spec fn links_items(keys: Seq<Seq<char>>) -> Seq<char>
    decreases keys.len(),
{
    if keys.len() == 0 {
        Seq::empty()
    } else {
        link_view(keys[0]) + links_items(keys.drop_first())
    }
}

/// The archive index of the active page, empty when there are no keys.
pub open spec fn links_region(keys: Seq<Seq<char>>) -> Seq<char> {
    if keys.len() == 0 {
        Seq::empty()
    } else {
        "<section class=\"archives\"><h2>Archives</h2><div class=\"archive-list\">"@
            + links_items(keys) + "</div></section>"@
    }
}

/// Everything of the page before the archive index.
pub open spec fn page_head(title: Seq<char>, allow_delete: bool) -> Seq<char> {
    "<!doctype html>\n<html lang=\"ja\">\n<head>\n"@ + "  <meta charset=\"utf-8\" />\n"@
        + "  <meta name=\"viewport\" content=\"width=device-width, initial-scale=1\" />\n"@
        + "  <title>"@ + html_text_view(title) + "</title>\n"@ + history_style_view()
        + "\n</head>\n<body>\n  <main class=\"wrap\">\n    <h1>"@ + html_text_view(title)
        + "</h1>\n"@ + (if allow_delete {
        "<p class=\"runtime-note\">※このページの上書き・削除・画像追加・画像コピー機能は、アプリ起動中のみ使用できます。</p>"@
    } else {
        Seq::empty()
    }) + "\n"@
}

/// The page script, wired to the service origin when interactive.
pub open spec fn page_script(interactive: bool, port: int) -> Seq<char> {
    if interactive {
        interactive_script_head_view() + "http://127.0.0.1:"@ + crate::text::dec_str(port)
            + interactive_script_tail_view()
    } else {
        non_interactive_script_view()
    }
}

/// The page around its two content regions.
pub open spec fn page_glue(
    title: Seq<char>,
    interactive: bool,
    allow_delete: bool,
    port: int,
    links: Seq<char>,
    cards: Seq<char>,
) -> Seq<char> {
    page_head(title, allow_delete) + links + "\n"@ + cards + "\n  </main>\n"@ + page_script(
        interactive,
        port,
    ) + "\n</body>\n</html>\n"@
}

/// The whole rendered page, as a function of the sorted entry models,
/// the title, the two flags, the service port and the archive day-keys.
pub open spec fn history_page_view(
    ms: Seq<crate::history::EntryModel>,
    title: Seq<char>,
    interactive: bool,
    allow_delete: bool,
    port: int,
    keys: Seq<Seq<char>>,
) -> Seq<char> {
    page_glue(
        title,
        interactive,
        allow_delete,
        port,
        links_region(keys),
        cards_region(ms, interactive, allow_delete),
    )
}

/// Builds one card. The result is exactly `card_view` of the entry's
/// model, and it carries the escaped prompt, timestamp, tracked image
/// path, and, when allowed, the delete control.
#[verifier::rlimit(100)]
#[verifier::spinoff_prover]
fn build_card(e: &HistoryEntry, interactive: bool, allow_delete: bool) -> (r: String)
    ensures
        r@ == card_view(crate::history::entry_model(*e), interactive, allow_delete),
        crate::text::has_substring(r@, html_text_view(e.prompt@)),
        crate::text::has_substring(r@, html_text_view(e.ts@)),
        e.images@.len() > 0 ==> crate::text::has_substring(r@, html_attr_view(e.images@[0]@)),
        interactive && allow_delete ==> crate::text::has_substring(
            r@,
            "<button class=\"btn delete-btn\">削除</button>"@,
        ),
{
    let ghost m = crate::history::entry_model(*e);
        let entry_id = encode_html_attr(e.id.as_str());
        let ts = encode_html_text(e.ts.as_str());
        let prompt_html = encode_html_text(e.prompt.as_str());
        let has_image = e.images.len() > 0;
        let image_path: String = if has_image {
            e.images[0].clone()
        } else {
            String::new()
        };
        let image_attr = encode_html_attr(image_path.as_str());
        proof {
            if has_image {
                assert(crate::history::entry_model((*e)).images[0]
                    == (*e).images@[0]@);
                assert(image_path@ == img_path_of(m));
            } else {
                assert(image_path@ =~= img_path_of(m));
            }
        }
        let mut images_block = String::new();
        if has_image {
            let safe_text = encode_html_text(image_path.as_str());
            images_block.append("<div class=\"image-item is-selected\" data-image-path=\"");
            images_block.append(image_attr.as_str());
            images_block.append("\"><a class=\"thumb-image-link\" href=\"");
            images_block.append(image_attr.as_str());
            images_block.append(
                "\" target=\"_blank\" rel=\"noopener noreferrer\"><img class=\"thumb-image\" src=\"",
            );
            images_block.append(image_attr.as_str());
            images_block.append(
                "\" alt=\"history image\" loading=\"lazy\" /></a><a class=\"thumb-path\" href=\"",
            );
            images_block.append(image_attr.as_str());
            images_block.append("\" target=\"_blank\" rel=\"noopener noreferrer\">");
            images_block.append(safe_text.as_str());
            images_block.append("</a></div>");
        } else {
            images_block.append("<span class=\"muted\">画像なし</span>");
        }
        proof {
            assert(images_block@ =~= image_block_view(m));
        }
        let mut card = String::new();
        card.append("<article class=\"entry\" data-history-id=\"");
        card.append(entry_id.as_str());
        card.append("\" data-has-image=\"");
        card.append(if has_image {
            "true"
        } else {
            "false"
        });
        card.append("\" data-selected-image=\"");
        let ghost pre_img = card@;
        card.append(image_attr.as_str());
        proof {
            if has_image {
                crate::text::lemma_substring_here(pre_img, image_attr@);
            }
        }
        append_keeping(
            &mut card,
            "\"><header class=\"entry-header\"><span class=\"timestamp\">",
        );
        let ghost pre_ts = card@;
        append_keeping(&mut card, ts.as_str());
        proof {
            crate::text::lemma_substring_here(pre_ts, ts@);
        }
        append_keeping(
            &mut card,
            "</span></header><div class=\"entry-body\"><section class=\"prompt-pane\"><div class=\"prompt-toolbar\"><button class=\"btn overwrite-btn\">上書き</button><button class=\"btn copy-btn\">コピー</button>",
        );
        if interactive && allow_delete {
            let ghost pre_btn = card@;
            append_keeping(&mut card, "<button class=\"btn delete-btn\">削除</button>");
            proof {
                crate::text::lemma_substring_here(
                    pre_btn,
                    "<button class=\"btn delete-btn\">削除</button>"@,
                );
            }
        }
        append_keeping(
            &mut card,
            "</div><textarea class=\"prompt-editor\" spellcheck=\"false\">",
        );
        let ghost pre_prompt = card@;
        append_keeping(&mut card, prompt_html.as_str());
        proof {
            crate::text::lemma_substring_here(pre_prompt, prompt_html@);
        }
        append_keeping(
            &mut card,
            "</textarea></section><section class=\"media-pane\">",
        );
        if interactive {
            append_keeping(&mut card, "<section class=\"upload\" data-history-id=\"");
            append_keeping(&mut card, entry_id.as_str());
            append_keeping(&mut card, "\"><div class=\"dropzone ");
            append_keeping(&mut card, if has_image {
                "has-image"
            } else {
                "needs-image"
            });
            append_keeping(&mut card, "\">");
            append_keeping(&mut card, if has_image {
                "画像追加済み（差し替えはD＆Dまたはクリック）"
            } else {
                "画像追加: ドラッグ&ドロップ または クリック"
            });
            append_keeping(
                &mut card,
                "</div><input class=\"file-input\" type=\"file\" accept=\".png,.jpg,.jpeg,.webp\" /></section>",
            );
        }
        append_keeping(&mut card, "<section class=\"images\">");
        append_keeping(&mut card, images_block.as_str());
        append_keeping(&mut card, "</section><button class=\"btn image-copy-btn\"");
        if !has_image {
            append_keeping(&mut card, " disabled");
        }
        append_keeping(
            &mut card,
            ">画像をクリップボードにコピー</button></section></div></article>",
        );
        proof {
            assert(card@ =~= card_view(m, interactive, allow_delete));
        }
    proof {
        assert(card@ =~= card_view(m, interactive, allow_delete));
    }
    card
}

/// Builds the card list: one card per entry in the given order, separated
/// by newlines, or the empty-state paragraph when there are none.
#[verifier::rlimit(100)]
#[verifier::spinoff_prover]
fn build_cards(sorted: &Vec<HistoryEntry>, interactive: bool, allow_delete: bool) -> (r: String)
    ensures
        r@ == cards_region(crate::history::models_of(sorted@), interactive, allow_delete),
        forall|k: int|
            0 <= k < sorted@.len() ==> crate::text::has_substring(
                r@,
                html_text_view((#[trigger] sorted@[k]).prompt@),
            ),
        forall|k: int|
            0 <= k < sorted@.len() ==> crate::text::has_substring(
                r@,
                html_text_view((#[trigger] sorted@[k]).ts@),
            ),
        forall|k: int|
            0 <= k < sorted@.len() && (#[trigger] sorted@[k]).images@.len() > 0
                ==> crate::text::has_substring(r@, html_attr_view(sorted@[k].images@[0]@)),
        interactive && allow_delete && sorted@.len() > 0 ==> crate::text::has_substring(
            r@,
            "<button class=\"btn delete-btn\">削除</button>"@,
        ),
        sorted@.len() == 0 ==> crate::text::has_substring(
            r@,
            "<p class=\"empty\">履歴はまだありません。</p>"@,
        ),
{
    let ghost allm = crate::history::models_of(sorted@);
    let mut cards = String::new();
    let n = sorted.len();
    if n == 0 {
        let ghost pre_empty = cards@;
        cards.append("<p class=\"empty\">履歴はまだありません。</p>");
        proof {
            crate::text::lemma_substring_here(
                pre_empty,
                "<p class=\"empty\">履歴はまだありません。</p>"@,
            );
            assert(cards@ =~= "<p class=\"empty\">履歴はまだありません。</p>"@);
        }
    }
    proof {
        assert(allm.len() == n);
        if n > 0 {
            assert(allm.subrange(0, n as int) =~= allm);
            assert(cards@ =~= Seq::<char>::empty());
            assert(Seq::<char>::empty() + cards_seq(allm, interactive, allow_delete)
                =~= cards_seq(allm, interactive, allow_delete));
        }
    }
    let mut i: usize = 0;
    while i < n
        invariant
            0 <= i <= n,
            n == sorted@.len(),
            forall|k: int|
                0 <= k < i ==> crate::text::has_substring(
                    cards@,
                    html_text_view((#[trigger] sorted@[k]).prompt@),
                ),
            forall|k: int|
                0 <= k < i ==> crate::text::has_substring(
                    cards@,
                    html_text_view((#[trigger] sorted@[k]).ts@),
                ),
            forall|k: int|
                0 <= k < i && (#[trigger] sorted@[k]).images@.len() > 0
                    ==> crate::text::has_substring(
                    cards@,
                    html_attr_view(sorted@[k].images@[0]@),
                ),
            interactive && allow_delete && i > 0 ==> crate::text::has_substring(
                cards@,
                "<button class=\"btn delete-btn\">削除</button>"@,
            ),
            n == 0 ==> crate::text::has_substring(
                cards@,
                "<p class=\"empty\">履歴はまだありません。</p>"@,
            ),
            n == 0 ==> cards@ == "<p class=\"empty\">履歴はまだありません。</p>"@,
            allm == crate::history::models_of(sorted@),
            allm.len() == n,
            n > 0 ==> cards_seq(allm, interactive, allow_delete) == cards@ + cards_seq(
                allm.subrange(i as int, n as int),
                interactive,
                allow_delete,
            ),
        decreases n - i,
    {
        let ghost m = allm[i as int];
        proof {
            assert(m == crate::history::entry_model(sorted@[i as int]));
        }
        let card = build_card(&sorted[i], interactive, allow_delete);
        let ghost cards_pre = cards@;
        append_keeping(&mut cards, card.as_str());
        proof {
            crate::text::lemma_substring_concat(
                cards_pre,
                card@,
                html_text_view(sorted@[i as int].prompt@),
            );
            crate::text::lemma_substring_concat(
                cards_pre,
                card@,
                html_text_view(sorted@[i as int].ts@),
            );
            if sorted@[i as int].images@.len() > 0 {
                crate::text::lemma_substring_concat(
                    cards_pre,
                    card@,
                    html_attr_view(sorted@[i as int].images@[0]@),
                );
            }
            crate::text::lemma_substring_concat(
                cards_pre,
                card@,
                "<button class=\"btn delete-btn\">削除</button>"@,
            );
        }
        if i + 1 < n {
            append_keeping(&mut cards, "\n");
        }
        proof {
            let suf = allm.subrange(i as int, n as int);
            assert(suf[0] == m);
            assert(suf.drop_first() =~= allm.subrange(i + 1, n as int));
            if i + 1 < n {
                assert(cards_seq(suf, interactive, allow_delete) == card_view(
                    m,
                    interactive,
                    allow_delete,
                ) + "\n"@ + cards_seq(allm.subrange(i + 1, n as int), interactive, allow_delete));
                assert(cards_seq(allm, interactive, allow_delete) =~= cards@ + cards_seq(
                    allm.subrange(i + 1, n as int),
                    interactive,
                    allow_delete,
                ));
            } else {
                assert(cards_seq(suf, interactive, allow_delete) == card_view(
                    m,
                    interactive,
                    allow_delete,
                ));
                assert(allm.subrange(i + 1, n as int) =~= Seq::<crate::history::EntryModel>::empty());
                assert(cards_seq(allm, interactive, allow_delete) =~= cards@ + cards_seq(
                    allm.subrange(i + 1, n as int),
                    interactive,
                    allow_delete,
                ));
            }
        }
        i = i + 1;
    }
    proof {
        if n > 0 {
            assert(allm.subrange(n as int, n as int) =~= Seq::<crate::history::EntryModel>::empty());
            assert(cards_seq(Seq::<crate::history::EntryModel>::empty(), interactive, allow_delete)
                =~= Seq::<char>::empty());
            assert(cards@ + Seq::<char>::empty() =~= cards@);
            assert(cards@ == cards_seq(allm, interactive, allow_delete));
        }
        assert(cards@ == cards_region(allm, interactive, allow_delete));
    }
    cards
}

/// Builds the archive-link region: one link per day-key, in order, or
/// nothing when there is no archive.
#[verifier::rlimit(100)]
#[verifier::spinoff_prover]
fn build_archive_links(archive_date_keys: &Vec<String>) -> (r: String)
    ensures
        r@ == links_region(archive_date_keys@.map_values(|k: String| k@)),
        forall|j: int|
            0 <= j < archive_date_keys@.len() ==> crate::text::has_substring(
                r@,
                html_attr_view("History_"@ + (#[trigger] archive_date_keys@[j])@ + ".html"@),
            ),
{
    let ghost kv = archive_date_keys@.map_values(|k: String| k@);
    let mut archive_links = String::new();
    let an = archive_date_keys.len();
    proof {
        assert(kv.len() == an);
    }
    if an > 0 {
        archive_links.append("<section class=\"archives\"><h2>Archives</h2><div class=\"archive-list\">");
        proof {
            assert(archive_links@
                =~= "<section class=\"archives\"><h2>Archives</h2><div class=\"archive-list\">"@);
            assert(kv.subrange(0, an as int) =~= kv);
        }
        let mut k: usize = 0;
        while k < an
            invariant
                0 <= k <= an,
                an == archive_date_keys@.len(),
                kv == archive_date_keys@.map_values(|q: String| q@),
                kv.len() == an,
                forall|j: int|
                    0 <= j < k ==> crate::text::has_substring(
                        archive_links@,
                        html_attr_view(
                            "History_"@ + (#[trigger] archive_date_keys@[j])@ + ".html"@,
                        ),
                    ),
                archive_links@ + links_items(kv.subrange(k as int, an as int))
                    == "<section class=\"archives\"><h2>Archives</h2><div class=\"archive-list\">"@
                    + links_items(kv),
            decreases an - k,
        {
            let mut href = String::from_str("History_");
            href.append(archive_date_keys[k].as_str());
            href.append(".html");
            proof {
                assert(kv[k as int] == archive_date_keys@[k as int]@);
                assert(href@ == "History_"@ + kv[k as int] + ".html"@);
            }
            let href_attr = encode_html_attr(href.as_str());
            let href_text = encode_html_text(href.as_str());
            let ghost links_pre = archive_links@;
            append_keeping(&mut archive_links, "<a class=\"archive-link\" href=\"");
            let ghost pre_href = archive_links@;
            append_keeping(&mut archive_links, href_attr.as_str());
            proof {
                crate::text::lemma_substring_here(pre_href, href_attr@);
            }
            append_keeping(
                &mut archive_links,
                "\" target=\"_blank\" rel=\"noopener noreferrer\">",
            );
            append_keeping(&mut archive_links, href_text.as_str());
            append_keeping(&mut archive_links, "</a>");
            proof {
                assert(archive_links@ =~= links_pre + link_view(kv[k as int]));
                let suf = kv.subrange(k as int, an as int);
                assert(suf[0] == kv[k as int]);
                assert(suf.drop_first() =~= kv.subrange(k + 1, an as int));
                assert(links_items(suf) == link_view(kv[k as int]) + links_items(
                    kv.subrange(k + 1, an as int),
                ));
                assert(archive_links@ + links_items(kv.subrange(k + 1, an as int))
                    =~= links_pre + links_items(suf));
            }
            k = k + 1;
        }
        proof {
            assert(kv.subrange(an as int, an as int) =~= Seq::<Seq<char>>::empty());
            assert(archive_links@ + Seq::<char>::empty() =~= archive_links@);
        }
        append_keeping(&mut archive_links, "</div></section>");
        proof {
            assert(archive_links@ =~= links_region(kv));
        }
    } else {
        proof {
            assert(archive_links@ =~= links_region(kv));
        }
    }
    archive_links
}

/// Builds one rendered history page: a card per entry, newest id first,
/// each with its escaped timestamp, prompt text and optional image
/// reference; the active page also links every archive page and wires
/// its controls to the local service at the given port. The contract
/// pins what the page carries: every entry's escaped prompt and
/// timestamp, its tracked image path, one link per given day-key, the
/// empty-state paragraph when there are no entries, and the delete
/// control when deleting is allowed on an interactive page with entries.
/// The newest-first placement comes from the verified sort feeding the
/// sequential build; the flat page text does not state positions.
#[verifier::rlimit(100)]
#[verifier::spinoff_prover]
pub fn build_history_html(
    entries: Vec<HistoryEntry>,
    title: &str,
    interactive: bool,
    allow_delete: bool,
    server_port: u16,
    archive_date_keys: &Vec<String>,
) -> (r: String)
    ensures
        has_prefix(r@, "<!doctype html>"@),
        forall|k: int|
            0 <= k < entries@.len() ==> crate::text::has_substring(
                r@,
                html_text_view((#[trigger] entries@[k]).prompt@),
            ),
        interactive && allow_delete && entries@.len() > 0 ==> crate::text::has_substring(
            r@,
            "<button class=\"btn delete-btn\">削除</button>"@,
        ),
        forall|k: int|
            0 <= k < entries@.len() ==> crate::text::has_substring(
                r@,
                html_text_view((#[trigger] entries@[k]).ts@),
            ),
        forall|k: int|
            0 <= k < entries@.len() && (#[trigger] entries@[k]).images@.len() > 0
                ==> crate::text::has_substring(r@, html_attr_view(entries@[k].images@[0]@)),
        forall|j: int|
            0 <= j < archive_date_keys@.len() ==> crate::text::has_substring(
                r@,
                html_attr_view("History_"@ + (#[trigger] archive_date_keys@[j])@ + ".html"@),
            ),
        entries@.len() == 0 ==> crate::text::has_substring(
            r@,
            "<p class=\"empty\">履歴はまだありません。</p>"@,
        ),
        exists|ordered: Seq<HistoryEntry>|
            {
                &&& ordered.len() == entries@.len()
                &&& sorted_desc(ordered)
                &&& (forall|x: Seq<char>|
                    crate::history::has_id(ordered, x) == crate::history::has_id(entries@, x))
                &&& (forall|k: int|
                    0 <= k < entries@.len() ==> has_entry_like(
                        ordered,
                        (#[trigger] entries@[k]).id@,
                        entries@[k].prompt@,
                        entries@[k].ts@,
                        entries@[k].images@.map_values(|p: String| p@),
                    ))
                &&& r@ == history_page_view(
                    #[trigger] crate::history::models_of(ordered),
                    title@,
                    interactive,
                    allow_delete,
                    server_port as int,
                    archive_date_keys@.map_values(|k: String| k@),
                )
            },
{
    let sorted = sort_entries_desc(&entries);
    let ghost allm = crate::history::models_of(sorted@);
    let ghost kv = archive_date_keys@.map_values(|k: String| k@);
    let cards = build_cards(&sorted, interactive, allow_delete);
    let archive_links = build_archive_links(archive_date_keys);
    let ghost n = sorted@.len();
    let ghost an = archive_date_keys@.len();
    proof {
        assert(cards@ == cards_region(allm, interactive, allow_delete));
        assert(archive_links@ == links_region(kv));
    }
    let mut out = String::from_str("<!doctype html>\n<html lang=\"ja\">\n<head>\n");
    proof {
        reveal_strlit("<!doctype html>");
        reveal_strlit("<!doctype html>\n<html lang=\"ja\">\n<head>\n");
        assert(out@.subrange(0, 15) =~= "<!doctype html>"@);
    }
    append_keeping(&mut out, "  <meta charset=\"utf-8\" />\n");
    append_keeping(
        &mut out,
        "  <meta name=\"viewport\" content=\"width=device-width, initial-scale=1\" />\n",
    );
    append_keeping(&mut out, "  <title>");
    let title_esc = encode_html_text(title);
    append_keeping(&mut out, title_esc.as_str());
    append_keeping(&mut out, "</title>\n");
    append_keeping(&mut out, history_style());
    append_keeping(&mut out, "\n</head>\n<body>\n  <main class=\"wrap\">\n    <h1>");
    append_keeping(&mut out, title_esc.as_str());
    append_keeping(&mut out, "</h1>\n");
    if allow_delete {
        append_keeping(
            &mut out,
            "<p class=\"runtime-note\">※このページの上書き・削除・画像追加・画像コピー機能は、アプリ起動中のみ使用できます。</p>",
        );
    }
    append_keeping(&mut out, "\n");
    let ghost out_pre_links = out@;
    append_keeping(&mut out, archive_links.as_str());
    proof {
        assert forall|j: int|
            0 <= j < an implies crate::text::has_substring(
            out@,
            html_attr_view("History_"@ + (#[trigger] archive_date_keys@[j])@ + ".html"@),
        ) by {
            crate::text::lemma_substring_concat(
                out_pre_links,
                archive_links@,
                html_attr_view("History_"@ + archive_date_keys@[j]@ + ".html"@),
            );
        }
    }
    append_keeping(&mut out, "\n");
    let ghost out_pre = out@;
    append_keeping(&mut out, cards.as_str());
    proof {
        assert forall|k: int|
            0 <= k < n implies crate::text::has_substring(
            out@,
            html_text_view((#[trigger] sorted@[k]).prompt@),
        ) && crate::text::has_substring(out@, html_text_view(sorted@[k].ts@)) && (
        sorted@[k].images@.len() > 0 ==> crate::text::has_substring(
            out@,
            html_attr_view(sorted@[k].images@[0]@),
        )) by {
            crate::text::lemma_substring_concat(
                out_pre,
                cards@,
                html_text_view(sorted@[k].prompt@),
            );
            crate::text::lemma_substring_concat(out_pre, cards@, html_text_view(sorted@[k].ts@));
            if sorted@[k].images@.len() > 0 {
                crate::text::lemma_substring_concat(
                    out_pre,
                    cards@,
                    html_attr_view(sorted@[k].images@[0]@),
                );
            }
        }
        crate::text::lemma_substring_concat(
            out_pre,
            cards@,
            "<button class=\"btn delete-btn\">削除</button>"@,
        );
        if n == 0 {
            crate::text::lemma_substring_concat(
                out_pre,
                cards@,
                "<p class=\"empty\">履歴はまだありません。</p>"@,
            );
        }
    }
    append_keeping(&mut out, "\n  </main>\n");
    if interactive {
        append_keeping(&mut out, interactive_script_head());
        let mut base = String::from_str("http://127.0.0.1:");
        crate::text::push_dec(&mut base, server_port as u64);
        append_keeping(&mut out, base.as_str());
        append_keeping(&mut out, interactive_script_tail());
    } else {
        append_keeping(&mut out, non_interactive_script());
    }
    append_keeping(&mut out, "\n</body>\n</html>\n");
    proof {
        assert(out@ =~= history_page_view(
            allm,
            title@,
            interactive,
            allow_delete,
            server_port as int,
            kv,
        ));
        assert(crate::history::models_of(sorted@) == allm);
        assert(out@ == history_page_view(
            crate::history::models_of(sorted@),
            title@,
            interactive,
            allow_delete,
            server_port as int,
            archive_date_keys@.map_values(|k: String| k@),
        ));
        assert(out@.subrange(0, 15) =~= "<!doctype html>"@);
        assert forall|k: int|
            0 <= k < entries@.len() implies crate::text::has_substring(
            out@,
            html_text_view((#[trigger] entries@[k]).prompt@),
        ) && crate::text::has_substring(out@, html_text_view(entries@[k].ts@)) && (
        entries@[k].images@.len() > 0 ==> crate::text::has_substring(
            out@,
            html_attr_view(entries@[k].images@[0]@),
        )) by {
            assert(has_entry_like(
                sorted@,
                entries@[k].id@,
                entries@[k].prompt@,
                entries@[k].ts@,
                entries@[k].images@.map_values(|p: String| p@),
            ));
            let j = choose|j: int|
                0 <= j < sorted@.len() && (#[trigger] sorted@[j]).id@ == entries@[k].id@
                    && sorted@[j].prompt@ == entries@[k].prompt@ && sorted@[j].ts@
                    == entries@[k].ts@ && sorted@[j].images@.map_values(|p: String| p@)
                    == entries@[k].images@.map_values(|p: String| p@);
            assert(crate::text::has_substring(out@, html_text_view(sorted@[j].prompt@)));
            assert(crate::text::has_substring(out@, html_text_view(sorted@[j].ts@)));
            if entries@[k].images@.len() > 0 {
                assert(sorted@[j].images@.map_values(|p: String| p@).len()
                    == entries@[k].images@.map_values(|p: String| p@).len());
                assert(sorted@[j].images@.len() == entries@[k].images@.len());
                assert(sorted@[j].images@.map_values(|p: String| p@)[0]
                    == entries@[k].images@.map_values(|p: String| p@)[0]);
                assert(sorted@[j].images@.map_values(|p: String| p@)[0]
                    == sorted@[j].images@[0]@);
                assert(entries@[k].images@.map_values(|p: String| p@)[0]
                    == entries@[k].images@[0]@);
                assert(sorted@[j].images@[0]@ == entries@[k].images@[0]@);
                assert(crate::text::has_substring(
                    out@,
                    html_attr_view(sorted@[j].images@[0]@),
                ));
            }
        }
    }
    out
}

/// Writes the service origin the page scripts call.
fn push_port_base(out: &mut String, server_port: u16)
    ensures
        final(out)@ == old(out)@ + "http://127.0.0.1:"@ + crate::text::dec_str(server_port as int),
{
    out.append("http://127.0.0.1:");
    crate::text::push_dec(out, server_port as u64);
}


/// The embedded style block of every rendered page.
const HISTORY_STYLE_TEXT: &'static str = r#"
  <style>
    :root {
      --bg: #f6f6ef;
      --panel: #ffffff;
      --line: #1f2a44;
      --accent: #cb4b16;
      --accent-2: #174c7a;
      --text: #1e1e1e;
      --muted: #666;
    }
    * { box-sizing: border-box; }
    body {
      margin: 0;
      color: var(--text);
      background: radial-gradient(circle at 10% 10%, #fff8d8, transparent 35%), linear-gradient(180deg, #f7f5ec, #ece8d8);
      font-family: "Yu Mincho", "Hiragino Mincho ProN", serif;
    }
    .wrap { max-width: 980px; margin: 32px auto; padding: 0 16px 32px; }
    h1 { margin: 0 0 10px; font-size: 38px; letter-spacing: 0.04em; }
    .runtime-note {
      margin: 0 0 16px;
      border: 1px solid #d8c78d;
      background: #fff7dc;
      color: #5c4a1f;
      padding: 8px 10px;
      font-family: "Yu Gothic UI", sans-serif;
      font-size: 13px;
      line-height: 1.5;
    }
    h2 { margin: 0 0 8px; font-size: 20px; }
    .archives {
      margin: 0 0 16px;
      border: 1px solid var(--line);
      background: #fff;
      padding: 10px;
    }
    .archive-list { display: flex; gap: 8px; flex-wrap: wrap; }
    .archive-link {
      font-family: "Yu Gothic UI", sans-serif;
      border: 1px solid var(--line);
      padding: 4px 8px;
      text-decoration: none;
      color: var(--accent-2);
      background: #f8f8f8;
      font-size: 13px;
    }
    .entry {
      border: 2px solid var(--line);
      background: var(--panel);
      margin-bottom: 16px;
      padding: 12px;
      box-shadow: 6px 6px 0 #d8d2bf;
    }
    .entry-header {
      display: flex;
      align-items: flex-start;
      margin-bottom: 10px;
    }
    .entry-body {
      display: grid;
      grid-template-columns: minmax(0, 1fr) minmax(0, 1fr);
      gap: 14px;
      align-items: start;
    }
    .prompt-pane, .media-pane { min-width: 0; }
    .media-pane {
      display: flex;
      flex-direction: column;
      align-items: stretch;
    }
    .timestamp { font-weight: 700; color: var(--accent-2); }
    .btn {
      border: 2px solid var(--line);
      background: #fff;
      color: var(--line);
      padding: 6px 12px;
      cursor: pointer;
      font-weight: 700;
    }
    .btn:hover { background: #f4ede1; }
    .btn:disabled {
      cursor: not-allowed;
      opacity: 0.55;
      background: #f0eee7;
    }
    .btn.feedback-visible {
      position: relative;
      overflow: visible;
    }
    .btn.feedback-visible::after {
      content: attr(data-feedback);
      position: absolute;
      left: 50%;
      bottom: calc(100% + 10px);
      transform: translateX(-50%);
      background: #1f2a44;
      color: #fff;
      padding: 4px 8px;
      border-radius: 4px;
      font-size: 12px;
      font-family: "Yu Gothic UI", sans-serif;
      white-space: nowrap;
      box-shadow: 0 2px 8px rgba(0, 0, 0, 0.22);
      pointer-events: none;
      z-index: 2;
    }
    .btn.feedback-visible::before {
      content: "";
      position: absolute;
      left: 50%;
      bottom: calc(100% + 4px);
      width: 8px;
      height: 8px;
      transform: translateX(-50%) rotate(45deg);
      background: #1f2a44;
      pointer-events: none;
      z-index: 1;
    }
    .overwrite-btn { border-color: var(--accent-2); color: var(--accent-2); }
    .delete-btn { border-color: var(--accent); color: var(--accent); }
    .prompt-toolbar {
      display: flex;
      gap: 8px;
      margin-bottom: 8px;
      flex-wrap: wrap;
    }
    .prompt-editor {
      width: 100%;
      border-left: 4px solid var(--line);
      padding: 8px 10px;
      background: #fbfaf5;
      font-family: "Yu Gothic UI", sans-serif;
      font-size: 14px;
      line-height: 1.5;
      min-height: 156px;
      resize: vertical;
      white-space: pre-wrap;
      word-break: break-word;
    }
    .upload { margin-top: 0; }
    .dropzone {
      border: 2px dashed var(--line);
      padding: 10px;
      text-align: center;
      cursor: pointer;
      background: #fefcf3;
      font-family: "Yu Gothic UI", sans-serif;
      display: flex;
      align-items: center;
      justify-content: center;
    }
    .dropzone.needs-image { min-height: 96px; }
    .dropzone.has-image { min-height: 0; }
    .dropzone.dragover { background: #fff4d3; }
    .file-input { display: none; }
    .images {
      margin-top: 10px;
      display: flex;
      flex-wrap: wrap;
      gap: 8px;
      font-family: "Yu Gothic UI", sans-serif;
    }
    .image-item {
      width: 100%;
      display: flex;
      flex-direction: column;
      gap: 6px;
    }
    .thumb-image-link {
      display: block;
      border: 1px solid var(--line);
      background: #f8f8f8;
      padding: 6px;
      cursor: pointer;
    }
    .thumb-image {
      display: block;
      width: 100%;
      max-height: 240px;
      object-fit: contain;
      background: #fff;
    }
    .thumb-path {
      border: 1px solid var(--line);
      padding: 4px 8px;
      font-size: 12px;
      text-decoration: none;
      color: var(--accent-2);
      background: #f8f8f8;
      max-width: 100%;
      overflow: hidden;
      text-overflow: ellipsis;
      white-space: nowrap;
    }
    .image-item.is-selected .thumb-image-link,
    .image-item.is-selected .thumb-path {
      border-color: var(--accent-2);
      box-shadow: inset 0 0 0 1px var(--accent-2);
    }
    .image-copy-btn {
      margin-top: 10px;
      align-self: flex-start;
      position: relative;
      overflow: visible;
    }
    .image-copy-btn.copy-feedback::after {
      content: "クリップボードにコピーしました";
      position: absolute;
      left: 50%;
      bottom: calc(100% + 10px);
      transform: translateX(-50%);
      background: #1f2a44;
      color: #fff;
      padding: 4px 8px;
      border-radius: 4px;
      font-size: 12px;
      font-family: "Yu Gothic UI", sans-serif;
      white-space: nowrap;
      box-shadow: 0 2px 8px rgba(0, 0, 0, 0.22);
      pointer-events: none;
      z-index: 2;
    }
    .image-copy-btn.copy-feedback::before {
      content: "";
      position: absolute;
      left: 50%;
      bottom: calc(100% + 4px);
      width: 8px;
      height: 8px;
      transform: translateX(-50%) rotate(45deg);
      background: #1f2a44;
      pointer-events: none;
      z-index: 1;
    }
    .muted { color: var(--muted); }
    .empty { padding: 24px; border: 1px dashed var(--line); background: #fff; }
    @media (max-width: 720px) {
      h1 { font-size: 30px; }
      .entry-body { grid-template-columns: minmax(0, 1fr); }
      .prompt-editor { min-height: 0; }
      .image-copy-btn { align-self: stretch; }
    }
  </style>
"#;

/// The same text, for the page equation.
pub closed spec fn history_style_view() -> Seq<char> {
    HISTORY_STYLE_TEXT@
}

fn history_style() -> (r: &'static str)
    ensures
        r@ == history_style_view(),
{
    HISTORY_STYLE_TEXT
}

/// The page script of an interactive page, up to the service origin.
const INTERACTIVE_SCRIPT_HEAD: &'static str = r#"
  <script>
    const API_BASE = ""#;

/// The same text, for the page equation.
pub closed spec fn interactive_script_head_view() -> Seq<char> {
    INTERACTIVE_SCRIPT_HEAD@
}

fn interactive_script_head() -> (r: &'static str)
    ensures
        r@ == interactive_script_head_view(),
{
    INTERACTIVE_SCRIPT_HEAD
}

/// The page script of an interactive page, after the service origin.
const INTERACTIVE_SCRIPT_TAIL: &'static str = r#"";
    const HISTORY_REVISION_POLL_MS = 1000;
    let lastHistoryRevision = null;
    let historyRevisionPolling = false;
    async function parseApiResponse(res, fallback) {
      let data = {};
      try {
        data = await res.json();
      } catch (_) {
        data = {};
      }
      if (!res.ok || !data.ok) {
        throw new Error(data.error || fallback);
      }
      return data;
    }
    async function fetchHistoryRevision() {
      const res = await fetch(`${API_BASE}/app/history-revision`, {
        method: "GET",
        cache: "no-store"
      });
      const data = await parseApiResponse(res, "history revision failed");
      const revision = Number(data.revision);
      if (!Number.isFinite(revision)) {
        throw new Error("invalid history revision");
      }
      return revision;
    }
    async function pollHistoryRevision() {
      if (historyRevisionPolling) {
        return;
      }
      historyRevisionPolling = true;
      try {
        const revision = await fetchHistoryRevision();
        if (lastHistoryRevision === null) {
          lastHistoryRevision = revision;
          return;
        }
        if (revision !== lastHistoryRevision) {
          location.reload();
          return;
        }
      } catch (_) {
        // Ignore transient errors (e.g. app stopped) and keep current page state.
      } finally {
        historyRevisionPolling = false;
      }
    }
    function getPromptValue(entry) {
      const editor = entry.querySelector(".prompt-editor");
      return editor ? editor.value : "";
    }
    async function copyPrompt(entry) {
      const prompt = getPromptValue(entry);
      await navigator.clipboard.writeText(prompt);
    }
    async function overwritePrompt(historyId, prompt) {
      const res = await fetch(`${API_BASE}/update`, {
        method: "POST",
        headers: { "Content-Type": "application/json" },
        body: JSON.stringify({ history_id: historyId, prompt })
      });
      return parseApiResponse(res, "update failed");
    }
    async function deleteEntry(historyId) {
      if (!confirm("プロンプトを削除しますか？（画像は削除されません）")) {
        return;
      }
      const res = await fetch(`${API_BASE}/delete`, {
        method: "POST",
        headers: { "Content-Type": "application/json" },
        body: JSON.stringify({ history_id: historyId })
      });
      await parseApiResponse(res, "delete failed");
      location.reload();
    }
    async function uploadFile(historyId, file) {
      const form = new FormData();
      form.append("history_id", historyId);
      form.append("file", file);
      const res = await fetch(`${API_BASE}/upload`, {
        method: "POST",
        body: form
      });
      return parseApiResponse(res, "upload failed");
    }
    async function copyImageToClipboard(imagePath) {
      if (
        !navigator.clipboard ||
        typeof navigator.clipboard.write !== "function" ||
        typeof ClipboardItem === "undefined"
      ) {
        throw new Error("このブラウザは画像コピーに対応していません");
      }
      const imageUrl = `${API_BASE}/image?path=${encodeURIComponent(imagePath)}`;
      let res;
      try {
        res = await fetch(imageUrl, { cache: "no-store" });
      } catch (_) {
        throw new Error("アプリが起動していない可能性があります");
      }
      if (!res.ok) {
        let message = "画像を取得できませんでした";
        try {
          const data = await res.json();
          if (data && typeof data.error === "string" && data.error.trim() !== "") {
            message = data.error;
          }
        } catch (_) {}
        throw new Error(message);
      }
      const blob = await res.blob();
      const blobType = blob.type && blob.type.startsWith("image/") ? blob.type : "image/png";
      const copyBlob = blob.type === blobType ? blob : new Blob([blob], { type: blobType });
      await navigator.clipboard.write([new ClipboardItem({ [blobType]: copyBlob })]);
    }
    function showImageCopyFeedback(button) {
      if (!button) return;
      button.classList.remove("copy-feedback");
      if (button._copyFeedbackTimer) {
        clearTimeout(button._copyFeedbackTimer);
      }
      void button.offsetWidth;
      button.classList.add("copy-feedback");
      button._copyFeedbackTimer = setTimeout(() => {
        button.classList.remove("copy-feedback");
        button._copyFeedbackTimer = null;
      }, 1400);
    }
    function showButtonFeedback(button, message) {
      if (!button || !message) return;
      button.dataset.feedback = message;
      button.classList.remove("feedback-visible");
      if (button._buttonFeedbackTimer) {
        clearTimeout(button._buttonFeedbackTimer);
      }
      void button.offsetWidth;
      button.classList.add("feedback-visible");
      button._buttonFeedbackTimer = setTimeout(() => {
        button.classList.remove("feedback-visible");
        button.dataset.feedback = "";
        button._buttonFeedbackTimer = null;
      }, 1400);
    }
    function syncUploadLabel(entry) {
      const upload = entry.querySelector(".upload");
      if (!upload) return;
      const dropzone = upload.querySelector(".dropzone");
      if (!dropzone) return;
      const hasImage = entry.dataset.hasImage === "true";
      dropzone.classList.toggle("has-image", hasImage);
      dropzone.classList.toggle("needs-image", !hasImage);
      dropzone.textContent = hasImage
        ? "画像追加済み（差し替えはD＆Dまたはクリック）"
        : "画像追加: ドラッグ&ドロップ または クリック";
    }
    function setSelectedImage(entry, imagePath) {
      entry.dataset.selectedImage = imagePath || "";
      for (const item of entry.querySelectorAll(".image-item")) {
        item.classList.toggle("is-selected", (item.dataset.imagePath || "") === entry.dataset.selectedImage);
      }
      const imageCopyBtn = entry.querySelector(".image-copy-btn");
      if (imageCopyBtn) {
        imageCopyBtn.disabled = !entry.dataset.selectedImage;
      }
    }
    function buildImageItem(imagePath) {
      const wrapper = document.createElement("div");
      wrapper.className = "image-item";
      wrapper.dataset.imagePath = imagePath;

      const imageLink = document.createElement("a");
      imageLink.className = "thumb-image-link";
      imageLink.href = imagePath;
      imageLink.target = "_blank";
      imageLink.rel = "noopener noreferrer";

      const img = document.createElement("img");
      img.className = "thumb-image";
      img.src = imagePath;
      img.alt = "history image";
      img.loading = "lazy";
      imageLink.appendChild(img);

      const pathLink = document.createElement("a");
      pathLink.className = "thumb-path";
      pathLink.href = imagePath;
      pathLink.target = "_blank";
      pathLink.rel = "noopener noreferrer";
      pathLink.textContent = imagePath;

      wrapper.appendChild(imageLink);
      wrapper.appendChild(pathLink);
      return wrapper;
    }
    function renderUploadedImage(entry, imagePath) {
      const images = entry.querySelector(".images");
      images.innerHTML = "";
      if (imagePath) {
        entry.dataset.hasImage = "true";
        entry.dataset.selectedImage = imagePath;
        images.appendChild(buildImageItem(imagePath));
      } else {
        entry.dataset.hasImage = "false";
        entry.dataset.selectedImage = "";
        const muted = document.createElement("span");
        muted.className = "muted";
        muted.textContent = "画像なし";
        images.appendChild(muted);
      }
      syncUploadLabel(entry);
      setSelectedImage(entry, entry.dataset.selectedImage || "");
    }
    for (const entry of document.querySelectorAll(".entry")) {
      const historyId = entry.dataset.historyId;
      const editor = entry.querySelector(".prompt-editor");
      const overwriteBtn = entry.querySelector(".overwrite-btn");
      const copyBtn = entry.querySelector(".copy-btn");
      const deleteBtn = entry.querySelector(".delete-btn");
      const imageCopyBtn = entry.querySelector(".image-copy-btn");
      const images = entry.querySelector(".images");
      const upload = entry.querySelector(".upload");
      const dropzone = upload ? upload.querySelector(".dropzone") : null;
      const fileInput = upload ? upload.querySelector(".file-input") : null;

      if (overwriteBtn) {
        overwriteBtn.addEventListener("click", async () => {
          const currentPrompt = getPromptValue(entry);
          try {
            const data = await overwritePrompt(historyId, currentPrompt);
            if (editor) {
              editor.value = typeof data.prompt === "string" ? data.prompt : currentPrompt.trim();
            }
            showButtonFeedback(overwriteBtn, "編集した内容で上書きしました");
          } catch (err) {
            alert(`上書き失敗: ${err.message}`);
          }
        });
      }
      if (copyBtn) {
        copyBtn.addEventListener("click", async () => {
          try {
            await copyPrompt(entry);
            showButtonFeedback(copyBtn, "コピーしました");
          } catch (err) {
            alert(`コピー失敗: ${err.message}`);
          }
        });
      }
      if (deleteBtn) {
        deleteBtn.addEventListener("click", async () => {
          try {
            await deleteEntry(historyId);
          } catch (err) {
            alert(`削除失敗: ${err.message}`);
          }
        });
      }
      if (imageCopyBtn) {
        imageCopyBtn.addEventListener("click", async () => {
          const imagePath = entry.dataset.selectedImage || "";
          if (!imagePath) {
            alert("コピー対象の画像がありません。");
            return;
          }
          try {
            await copyImageToClipboard(imagePath);
            showImageCopyFeedback(imageCopyBtn);
          } catch (err) {
            alert(`画像コピー失敗: ${err.message}`);
          }
        });
      }
      if (images) {
        images.addEventListener("click", (event) => {
          const target = event.target;
          if (!(target instanceof Element)) {
            return;
          }
          const thumbLink = target.closest(".thumb-image-link");
          if (!thumbLink || !images.contains(thumbLink)) {
            return;
          }
          event.preventDefault();
          const imageItem = thumbLink.closest(".image-item");
          if (!imageItem) {
            return;
          }
          setSelectedImage(entry, imageItem.dataset.imagePath || "");
        });
      }
      setSelectedImage(entry, entry.dataset.selectedImage || "");
      if (!dropzone || !fileInput) {
        continue;
      }
      syncUploadLabel(entry);
      const handleFile = async (file) => {
        if (!file) return;
        try {
          const data = await uploadFile(historyId, file);
          renderUploadedImage(entry, data.image_path || "");
        } catch (err) {
          alert(`アップロード失敗: ${err.message}`);
        } finally {
          fileInput.value = "";
        }
      };
      dropzone.addEventListener("click", () => fileInput.click());
      fileInput.addEventListener("change", async () => {
        const file = fileInput.files && fileInput.files[0];
        await handleFile(file);
      });
      dropzone.addEventListener("dragover", (event) => {
        event.preventDefault();
        dropzone.classList.add("dragover");
      });
      dropzone.addEventListener("dragleave", () => {
        dropzone.classList.remove("dragover");
      });
      dropzone.addEventListener("drop", async (event) => {
        event.preventDefault();
        dropzone.classList.remove("dragover");
        const file = event.dataTransfer && event.dataTransfer.files && event.dataTransfer.files[0];
        await handleFile(file);
      });
    }
    void pollHistoryRevision();
    setInterval(() => {
      void pollHistoryRevision();
    }, HISTORY_REVISION_POLL_MS);
  </script>
"#;

/// The same text, for the page equation.
pub closed spec fn interactive_script_tail_view() -> Seq<char> {
    INTERACTIVE_SCRIPT_TAIL@
}

fn interactive_script_tail() -> (r: &'static str)
    ensures
        r@ == interactive_script_tail_view(),
{
    INTERACTIVE_SCRIPT_TAIL
}

/// The page script of a static page.
const NON_INTERACTIVE_SCRIPT_TEXT: &'static str = r#"
  <script>
    function getPromptValue(entry) {
      const editor = entry.querySelector(".prompt-editor");
      return editor ? editor.value : "";
    }
    async function copyPrompt(entry) {
      const prompt = getPromptValue(entry);
      await navigator.clipboard.writeText(prompt);
    }
    function showImageCopyFeedback(button) {
      if (!button) return;
      button.classList.remove("copy-feedback");
      if (button._copyFeedbackTimer) {
        clearTimeout(button._copyFeedbackTimer);
      }
      void button.offsetWidth;
      button.classList.add("copy-feedback");
      button._copyFeedbackTimer = setTimeout(() => {
        button.classList.remove("copy-feedback");
        button._copyFeedbackTimer = null;
      }, 1400);
    }
    function showButtonFeedback(button, message) {
      if (!button || !message) return;
      button.dataset.feedback = message;
      button.classList.remove("feedback-visible");
      if (button._buttonFeedbackTimer) {
        clearTimeout(button._buttonFeedbackTimer);
      }
      void button.offsetWidth;
      button.classList.add("feedback-visible");
      button._buttonFeedbackTimer = setTimeout(() => {
        button.classList.remove("feedback-visible");
        button.dataset.feedback = "";
        button._buttonFeedbackTimer = null;
      }, 1400);
    }
    async function imageBlobFromPath(imagePath) {
      return new Promise((resolve, reject) => {
        const image = new Image();
        image.onload = () => {
          const width = image.naturalWidth || image.width;
          const height = image.naturalHeight || image.height;
          if (!width || !height) {
            reject(new Error("画像サイズを取得できませんでした"));
            return;
          }
          const canvas = document.createElement("canvas");
          canvas.width = width;
          canvas.height = height;
          const ctx = canvas.getContext("2d");
          if (!ctx) {
            reject(new Error("画像変換に失敗しました"));
            return;
          }
          ctx.drawImage(image, 0, 0);
          canvas.toBlob((blob) => {
            if (!blob) {
              reject(new Error("画像変換に失敗しました"));
              return;
            }
            resolve(blob);
          }, "image/png");
        };
        image.onerror = () => reject(new Error("画像を取得できませんでした"));
        image.src = imagePath;
      });
    }
    async function copyImageToClipboard(imagePath) {
      if (
        !navigator.clipboard ||
        typeof navigator.clipboard.write !== "function" ||
        typeof ClipboardItem === "undefined"
      ) {
        throw new Error("このブラウザは画像コピーに対応していません");
      }
      const blob = await imageBlobFromPath(imagePath);
      const blobType = blob.type && blob.type.startsWith("image/") ? blob.type : "image/png";
      const copyBlob = blob.type === blobType ? blob : new Blob([blob], { type: blobType });
      await navigator.clipboard.write([new ClipboardItem({ [blobType]: copyBlob })]);
    }
    for (const button of document.querySelectorAll(".copy-btn")) {
      button.addEventListener("click", async () => {
        try {
          const entry = button.closest(".entry");
          if (!entry) return;
          await copyPrompt(entry);
          showButtonFeedback(button, "コピーしました");
        } catch (err) {
          alert(`コピー失敗: ${err.message}`);
        }
      });
    }
    for (const button of document.querySelectorAll(".image-copy-btn")) {
      button.addEventListener("click", async () => {
        const entry = button.closest(".entry");
        if (!entry) return;
        const imagePath = entry.dataset.selectedImage || "";
        if (!imagePath) {
          alert("コピー対象の画像がありません。");
          return;
        }
        try {
          await copyImageToClipboard(imagePath);
          showImageCopyFeedback(button);
        } catch (err) {
          alert(`画像コピー失敗: ${err.message}`);
        }
      });
    }
  </script>
"#;

/// The same text, for the page equation.
pub closed spec fn non_interactive_script_view() -> Seq<char> {
    NON_INTERACTIVE_SCRIPT_TEXT@
}

fn non_interactive_script() -> (r: &'static str)
    ensures
        r@ == non_interactive_script_view(),
{
    NON_INTERACTIVE_SCRIPT_TEXT
}

} // verus!
