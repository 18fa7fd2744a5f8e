//! The clipboard history engine: an ordered list of entries with
//! dedup, pin and eviction rules, together with the one-shot suppression
//! state that keeps this program's own replayed pastes from being
//! ingested as new entries.

use vstd::prelude::*;

use base64::Engine;
use std::collections::hash_map::DefaultHasher;
use std::hash::{Hash, Hasher};

use crate::item::{
    image_hash_of, image_preview, text_preview, ClipboardContent, ClipboardItem, ContentView,
    ItemView,
};
use crate::text::{contains_seq, is_blank, lemma_filter_push, str_contains, str_eq, str_is_blank};

verus! {

/// History entries beyond this count are evicted, pinned entries
/// excepted.
pub const MAX_HISTORY_SIZE: usize = 50;

/// The views of the entries a vector holds, in order.
pub open spec fn views_of(v: Seq<ClipboardItem>) -> Seq<ItemView> {
    v.map_values(|it: ClipboardItem| it@)
}

/// Mathematical image of the whole engine state.
#[verifier::ext_equal]
pub struct ManagerView {
    /// The entries, front first.
    pub history: Seq<ItemView>,
    /// Armed suppression token for replayed text.
    pub last_pasted_text: Option<Seq<char>>,
    /// Armed suppression token for a replayed image's fingerprint.
    pub last_pasted_image_hash: Option<u64>,
    /// Single-slot memo of the last added text's hash, against rapid
    /// repeated copies.
    pub last_added_text_hash: Option<u64>,
}

/// The index of the first entry that is not pinned, if any.
pub open spec fn first_unpinned(h: Seq<ItemView>) -> Option<int>
    decreases h.len(),
{
    if h.len() == 0 {
        None
    } else if !h[0].pinned {
        Some(0)
    } else {
        match first_unpinned(h.drop_first()) {
            Some(i) => Some(i + 1),
            None => None,
        }
    }
}

/// The index of the last entry that is not pinned, if any.
pub open spec fn last_unpinned(h: Seq<ItemView>) -> Option<int>
    decreases h.len(),
{
    if h.len() == 0 {
        None
    } else if !h.last().pinned {
        Some(h.len() - 1)
    } else {
        last_unpinned(h.drop_last())
    }
}

/// The index of the first entry carrying the given id, if any.
pub open spec fn find_id(h: Seq<ItemView>, id: Seq<char>) -> Option<int>
    decreases h.len(),
{
    if h.len() == 0 {
        None
    } else if h[0].id == id {
        Some(0)
    } else {
        match find_id(h.drop_first(), id) {
            Some(i) => Some(i + 1),
            None => None,
        }
    }
}

/// The index of the first non-pinned entry holding exactly the text
/// `t`, if any.
pub open spec fn first_unpinned_text(h: Seq<ItemView>, t: Seq<char>) -> Option<int>
    decreases h.len(),
{
    if h.len() == 0 {
        None
    } else if !h[0].pinned && h[0].content == ContentView::Text(t) {
        Some(0)
    } else {
        match first_unpinned_text(h.drop_first(), t) {
            Some(i) => Some(i + 1),
            None => None,
        }
    }
}

/// Where a new entry is placed: immediately before the first non-pinned
/// entry, or at the front when every entry is pinned or none exists.
pub open spec fn insert_pos(h: Seq<ItemView>) -> int {
    match first_unpinned(h) {
        Some(i) => i,
        None => 0,
    }
}

/// The history after placing `e` by the insertion rule.
pub open spec fn insert_entry(h: Seq<ItemView>, e: ItemView) -> Seq<ItemView> {
    h.insert(insert_pos(h), e)
}

/// The history after eviction: non-pinned entries leave from the back
/// until the size cap is met, or only pinned entries remain (which are
/// never evicted, even above the cap).
pub open spec fn enforce_cap(h: Seq<ItemView>) -> Seq<ItemView>
    decreases h.len(),
    via enforce_cap_decreases
{
    if h.len() <= MAX_HISTORY_SIZE {
        h
    } else {
        match last_unpinned(h) {
            Some(i) => enforce_cap(h.remove(i)),
            None => h,
        }
    }
}

#[via_fn]
proof fn enforce_cap_decreases(h: Seq<ItemView>) {
    lemma_last_unpinned(h);
}

/// The history after dropping the first non-pinned entry that holds the
/// text `t`, if one exists.
pub open spec fn remove_unpinned_text(h: Seq<ItemView>, t: Seq<char>) -> Seq<ItemView> {
    match first_unpinned_text(h, t) {
        Some(i) => h.remove(i),
        None => h,
    }
}

/// Whether the armed text token matches an observation: the observation
/// is the replayed text itself or contains it.
pub open spec fn suppression_hit(lp: Option<Seq<char>>, t: Seq<char>) -> bool {
    match lp {
        Some(p) => p == t || contains_seq(t, p),
        None => false,
    }
}

/// Text the ingest path drops without touching any state: blank text,
/// and the staging-file URIs of the animation paste helper.
pub open spec fn text_input_dropped(t: Seq<char>) -> bool {
    is_blank(t) || is_loopback_uri(t)
}

/// An internal loopback marker: a file URI pointing into this program's
/// own animation staging directory.
pub open spec fn is_loopback_uri(t: Seq<char>) -> bool {
    contains_seq(t, "file://"@) && contains_seq(t, "win11-clipboard-history/gifs/"@)
}

/// The first non-pinned entry already holds exactly the text `t`.
pub open spec fn dup_at_first_unpinned(h: Seq<ItemView>, t: Seq<char>) -> bool {
    match first_unpinned(h) {
        Some(i) => h[i].content == ContentView::Text(t),
        None => false,
    }
}

/// The first non-pinned entry carries the image fingerprint `hash`.
pub open spec fn dup_image_at_first_unpinned(h: Seq<ItemView>, hash: u64) -> bool {
    match first_unpinned(h) {
        Some(i) => image_hash_of(h[i]) == Some(hash),
        None => false,
    }
}

/// Whether `add_text` accepts an observation of the text `t` in state
/// `m`: the text is not dropped outright, does not match the armed
/// token, is not a rapid repeat, and is not already the front
/// non-pinned entry.
pub open spec fn text_accepted(m: ManagerView, t: Seq<char>) -> bool {
    &&& !text_input_dropped(t)
    &&& !suppression_hit(m.last_pasted_text, t)
    &&& m.last_added_text_hash != Some(text_hash_of(t))
    &&& !dup_at_first_unpinned(m.history, t)
}

/// The state `add_text` leaves when it rejects the text `t`: unchanged,
/// except that a matching armed token is consumed, and a front
/// duplicate still refreshes the repeat memo.
pub open spec fn text_rejected_state(m: ManagerView, t: Seq<char>) -> ManagerView {
    if text_input_dropped(t) {
        m
    } else if suppression_hit(m.last_pasted_text, t) {
        ManagerView { last_pasted_text: None, ..m }
    } else if m.last_added_text_hash == Some(text_hash_of(t)) {
        m
    } else {
        ManagerView { last_added_text_hash: Some(text_hash_of(t)), ..m }
    }
}

/// The state `add_text` leaves when it accepts the text `t`, creating
/// the entry `e`: any older non-pinned copy of `t` is removed, `e` is
/// placed by the insertion rule, eviction runs, and the repeat memo is
/// refreshed.
pub open spec fn text_accepted_state(m: ManagerView, t: Seq<char>, e: ItemView) -> ManagerView {
    ManagerView {
        history: enforce_cap(insert_entry(remove_unpinned_text(m.history, t), e)),
        last_added_text_hash: Some(text_hash_of(t)),
        ..m
    }
}

/// `first_unpinned` names exactly the first non-pinned index.
pub proof fn lemma_first_unpinned(h: Seq<ItemView>)
    ensures
        match first_unpinned(h) {
            Some(i) => 0 <= i < h.len() && !h[i].pinned && forall|j: int|
                0 <= j < i ==> h[j].pinned,
            None => forall|j: int| 0 <= j < h.len() ==> h[j].pinned,
        },
    decreases h.len(),
{
    if h.len() > 0 && h[0].pinned {
        lemma_first_unpinned(h.drop_first());
        match first_unpinned(h.drop_first()) {
            Some(i) => {
                assert(h.drop_first()[i] == h[i + 1]);
                assert forall|j: int| 0 <= j < i + 1 implies h[j].pinned by {
                    if j > 0 {
                        assert(h.drop_first()[j - 1].pinned);
                        assert(h.drop_first()[j - 1] == h[j]);
                    }
                }
            },
            None => {
                assert forall|j: int| 0 <= j < h.len() implies h[j].pinned by {
                    if j > 0 {
                        assert(h.drop_first()[j - 1].pinned);
                        assert(h.drop_first()[j - 1] == h[j]);
                    }
                }
            },
        }
    }
}

/// `last_unpinned` names exactly the last non-pinned index.
pub proof fn lemma_last_unpinned(h: Seq<ItemView>)
    ensures
        match last_unpinned(h) {
            Some(i) => 0 <= i < h.len() && !h[i].pinned && forall|j: int|
                i < j < h.len() ==> h[j].pinned,
            None => forall|j: int| 0 <= j < h.len() ==> h[j].pinned,
        },
    decreases h.len(),
{
    if h.len() > 0 && h.last().pinned {
        lemma_last_unpinned(h.drop_last());
        match last_unpinned(h.drop_last()) {
            Some(i) => {
                assert(h.drop_last()[i] == h[i]);
                assert forall|j: int| i < j < h.len() implies h[j].pinned by {
                    if j < h.len() - 1 {
                        assert(h.drop_last()[j].pinned);
                        assert(h.drop_last()[j] == h[j]);
                    }
                }
            },
            None => {
                assert forall|j: int| 0 <= j < h.len() implies h[j].pinned by {
                    if j < h.len() - 1 {
                        assert(h.drop_last()[j].pinned);
                        assert(h.drop_last()[j] == h[j]);
                    }
                }
            },
        }
    }
}

/// `find_id` names exactly the first index carrying `id`.
pub proof fn lemma_find_id(h: Seq<ItemView>, id: Seq<char>)
    ensures
        match find_id(h, id) {
            Some(i) => 0 <= i < h.len() && h[i].id == id && forall|j: int|
                0 <= j < i ==> h[j].id != id,
            None => forall|j: int| 0 <= j < h.len() ==> h[j].id != id,
        },
    decreases h.len(),
{
    if h.len() > 0 && h[0].id != id {
        lemma_find_id(h.drop_first(), id);
        match find_id(h.drop_first(), id) {
            Some(i) => {
                assert(h.drop_first()[i] == h[i + 1]);
                assert forall|j: int| 0 <= j < i + 1 implies h[j].id != id by {
                    if j > 0 {
                        assert(h.drop_first()[j - 1].id != id);
                        assert(h.drop_first()[j - 1] == h[j]);
                    }
                }
            },
            None => {
                assert forall|j: int| 0 <= j < h.len() implies h[j].id != id by {
                    if j > 0 {
                        assert(h.drop_first()[j - 1].id != id);
                        assert(h.drop_first()[j - 1] == h[j]);
                    }
                }
            },
        }
    }
}

/// `first_unpinned_text` names exactly the first non-pinned index whose
/// content is the text `t`.
pub proof fn lemma_first_unpinned_text(h: Seq<ItemView>, t: Seq<char>)
    ensures
        match first_unpinned_text(h, t) {
            Some(i) => 0 <= i < h.len() && !h[i].pinned && h[i].content == ContentView::Text(t)
                && forall|j: int|
                0 <= j < i ==> (h[j].pinned || h[j].content != ContentView::Text(t)),
            None => forall|j: int|
                0 <= j < h.len() ==> (h[j].pinned || h[j].content != ContentView::Text(t)),
        },
    decreases h.len(),
{
    if h.len() > 0 && (h[0].pinned || h[0].content != ContentView::Text(t)) {
        lemma_first_unpinned_text(h.drop_first(), t);
        match first_unpinned_text(h.drop_first(), t) {
            Some(i) => {
                assert(h.drop_first()[i] == h[i + 1]);
                assert forall|j: int|
                    0 <= j < i + 1 implies (h[j].pinned || h[j].content != ContentView::Text(
                    t,
                )) by {
                    if j > 0 {
                        assert(h.drop_first()[j - 1].pinned || h.drop_first()[j - 1].content
                            != ContentView::Text(t));
                        assert(h.drop_first()[j - 1] == h[j]);
                    }
                }
            },
            None => {
                assert forall|j: int|
                    0 <= j < h.len() implies (h[j].pinned || h[j].content != ContentView::Text(
                    t,
                )) by {
                    if j > 0 {
                        assert(h.drop_first()[j - 1].pinned || h.drop_first()[j - 1].content
                            != ContentView::Text(t));
                        assert(h.drop_first()[j - 1] == h[j]);
                    }
                }
            },
        }
    }
}

/// Manages the clipboard history and the replay suppression state.
pub struct ClipboardManager {
    history: Vec<ClipboardItem>,
    /// The last replayed text, armed until the monitor observes it once.
    last_pasted_text: Option<String>,
    /// The last replayed image fingerprint, armed the same way.
    last_pasted_image_hash: Option<u64>,
    /// Hash of the text added last, to drop rapid repeated copies.
    last_added_text_hash: Option<u64>,
}

/// The view of an optional string.
pub open spec fn opt_str_view(o: Option<String>) -> Option<Seq<char>> {
    match o {
        Some(s) => Some(s@),
        None => None,
    }
}

impl View for ClipboardManager {
    type V = ManagerView;

    closed spec fn view(&self) -> ManagerView {
        ManagerView {
            history: views_of(self.history@),
            last_pasted_text: opt_str_view(self.last_pasted_text),
            last_pasted_image_hash: self.last_pasted_image_hash,
            last_added_text_hash: self.last_added_text_hash,
        }
    }
}

impl ClipboardManager {
    /// A fresh engine: no entries, no armed token, no repeat memo.
    pub fn new() -> (r: Self)
        ensures
            r@ == (ManagerView {
                history: Seq::<ItemView>::empty(),
                last_pasted_text: None,
                last_pasted_image_hash: None,
                last_added_text_hash: None,
            }),
    {
        let r = ClipboardManager {
            history: Vec::new(),
            last_pasted_text: None,
            last_pasted_image_hash: None,
            last_added_text_hash: None,
        };
        proof {
            assert(views_of(r.history@) =~= Seq::<ItemView>::empty());
        }
        r
    }

    /// A snapshot of the history, front first.
    pub fn get_history(&self) -> (r: Vec<ClipboardItem>)
        ensures
            views_of(r@) == self@.history,
    {
        let n = self.history.len();
        let mut r: Vec<ClipboardItem> = Vec::new();
        let mut i: usize = 0;
        while i < n
            invariant
                n == self.history@.len(),
                0 <= i <= n,
                r@.len() == i,
                forall|j: int| 0 <= j < i ==> r@[j]@ == self.history@[j]@,
            decreases n - i,
        {
            r.push(self.history[i].clone());
            i += 1;
        }
        proof {
            assert(views_of(r@) =~= views_of(self.history@));
        }
        r
    }

    /// The first entry carrying `id`, if any.
    pub fn get_item(&self, id: &str) -> (r: Option<&ClipboardItem>)
        ensures
            match r {
                Some(it) => {
                    &&& find_id(self@.history, id@) matches Some(i)
                    &&& it@ == self@.history[find_id(self@.history, id@).unwrap()]
                },
                None => find_id(self@.history, id@) is None,
            },
    {
        let n = self.history.len();
        let mut i: usize = 0;
        while i < n
            invariant
                n == self.history@.len(),
                0 <= i <= n,
                forall|j: int| 0 <= j < i ==> views_of(self.history@)[j].id != id@,
            decreases n - i,
        {
            if str_eq(self.history[i].id.as_str(), id) {
                proof {
                    lemma_find_id(self@.history, id@);
                    assert(self@.history[i as int].id == id@);
                    match find_id(self@.history, id@) {
                        Some(k) => {
                            if k < i {
                                assert(self@.history[k].id != id@);
                            }
                            if k > i {
                                assert(self@.history[i as int].id != id@);
                            }
                        },
                        None => {
                            assert(self@.history[i as int].id != id@);
                        },
                    }
                }
                return Some(&self.history[i]);
            }
            i += 1;
        }
        proof {
            lemma_find_id(self@.history, id@);
            if let Some(k) = find_id(self@.history, id@) {
                assert(self@.history[k].id != id@);
            }
        }
        None
    }

    /// Drop every non-pinned entry; pinned entries stay, in order.
    pub fn clear(&mut self)
        ensures
            final(self)@ == (ManagerView {
                history: old(self)@.history.filter(|e: ItemView| e.pinned),
                ..old(self)@
            }),
    {
        let ghost hv = views_of(self.history@);
        let n = self.history.len();
        let mut kept: Vec<ClipboardItem> = Vec::new();
        let mut i: usize = 0;
        while i < n
            invariant
                n == self.history@.len(),
                hv == views_of(self.history@),
                0 <= i <= n,
                views_of(kept@) == hv.take(i as int).filter(|e: ItemView| e.pinned),
            decreases n - i,
        {
            let ghost before = views_of(kept@);
            if self.history[i].pinned {
                kept.push(self.history[i].clone());
                proof {
                    assert(views_of(kept@) =~= before.push(hv[i as int]));
                }
            }
            proof {
                lemma_filter_push(hv.take(i as int), hv[i as int], |e: ItemView| e.pinned);
                assert(hv.take(i + 1).drop_last() =~= hv.take(i as int));
                assert(hv.take(i + 1) =~= hv.take(i as int).push(hv[i as int]));
            }
            i += 1;
        }
        proof {
            assert(hv.take(n as int) =~= hv);
        }
        self.history = kept;
    }

    /// Remove every entry carrying `id`.
    pub fn remove_item(&mut self, id: &str)
        ensures
            final(self)@ == (ManagerView {
                history: old(self)@.history.filter(|e: ItemView| e.id != id@),
                ..old(self)@
            }),
    {
        let ghost hv = views_of(self.history@);
        let n = self.history.len();
        let mut kept: Vec<ClipboardItem> = Vec::new();
        let mut i: usize = 0;
        while i < n
            invariant
                n == self.history@.len(),
                hv == views_of(self.history@),
                0 <= i <= n,
                views_of(kept@) == hv.take(i as int).filter(|e: ItemView| e.id != id@),
            decreases n - i,
        {
            let ghost before = views_of(kept@);
            if !str_eq(self.history[i].id.as_str(), id) {
                kept.push(self.history[i].clone());
                proof {
                    assert(views_of(kept@) =~= before.push(hv[i as int]));
                }
            }
            proof {
                lemma_filter_push(hv.take(i as int), hv[i as int], |e: ItemView| e.id != id@);
                assert(hv.take(i + 1) =~= hv.take(i as int).push(hv[i as int]));
            }
            i += 1;
        }
        proof {
            assert(hv.take(n as int) =~= hv);
        }
        self.history = kept;
    }

    /// Flip the pinned flag of the first entry carrying `id`, in place,
    /// and return the changed entry; order is untouched.
    pub fn toggle_pin(&mut self, id: &str) -> (r: Option<ClipboardItem>)
        ensures
            match find_id(old(self)@.history, id@) {
                Some(i) => {
                    &&& r matches Some(it)
                    &&& it@ == (ItemView {
                        pinned: !old(self)@.history[i].pinned,
                        ..old(self)@.history[i]
                    })
                    &&& final(self)@ == (ManagerView {
                        history: old(self)@.history.update(i, it@),
                        ..old(self)@
                    })
                },
                None => r is None && final(self)@ == old(self)@,
            },
    {
        let ghost hv = views_of(self.history@);
        let n = self.history.len();
        let mut i: usize = 0;
        while i < n
            invariant
                n == self.history@.len(),
                hv == views_of(self.history@),
                self@ == old(self)@,
                0 <= i <= n,
                forall|j: int| 0 <= j < i ==> hv[j].id != id@,
            decreases n - i,
        {
            if str_eq(self.history[i].id.as_str(), id) {
                proof {
                    lemma_find_id(hv, id@);
                    match find_id(hv, id@) {
                        Some(k) => {
                            if k < i {
                                assert(hv[k].id != id@);
                            }
                            if k > i {
                                assert(hv[i as int].id != id@);
                            }
                        },
                        None => {
                            assert(hv[i as int].id != id@);
                        },
                    }
                }
                let mut it = self.history.remove(i);
                it.pinned = !it.pinned;
                let r = it.clone();
                self.history.insert(i, it);
                proof {
                    assert(views_of(self.history@) =~= hv.update(i as int, r@));
                }
                return Some(r);
            }
            i += 1;
        }
        proof {
            lemma_find_id(hv, id@);
            if let Some(k) = find_id(hv, id@) {
                assert(hv[k].id != id@);
            }
        }
        None
    }

    /// Arm the suppression token for a replayed entry: its text, or its
    /// image fingerprint read from the preview. Must run before the
    /// entry's content is written back to the system clipboard.
    pub fn mark_as_pasted(&mut self, item: &ClipboardItem)
        ensures
            item@.content is Text ==> final(self)@ == (ManagerView {
                last_pasted_text: Some(item@.content->Text_0),
                last_pasted_image_hash: None,
                ..old(self)@
            }),
            item@.content is Image ==> final(self)@ == (ManagerView {
                last_pasted_text: None,
                last_pasted_image_hash: match image_hash_of(item@) {
                    Some(h) => Some(h),
                    None => old(self)@.last_pasted_image_hash,
                },
                ..old(self)@
            }),
    {
        match &item.content {
            ClipboardContent::Text(text) => {
                self.last_pasted_text = Some(text.clone());
                self.last_pasted_image_hash = None;
            },
            ClipboardContent::Image { .. } => {
                if let Some(hash) = item.extract_image_hash() {
                    self.last_pasted_image_hash = Some(hash);
                }
                self.last_pasted_text = None;
            },
        }
    }

    /// Arm the text token and the repeat memo for text delivered through
    /// the injector by some other path; it must never enter the history.
    pub fn mark_text_as_pasted(&mut self, text: &str)
        ensures
            final(self)@ == (ManagerView {
                last_pasted_text: Some(text@),
                last_added_text_hash: Some(text_hash_of(text@)),
                ..old(self)@
            }),
    {
        self.last_pasted_text = Some(String::from_str(text));
        self.last_added_text_hash = Some(text_fingerprint(text));
    }
}

impl Default for ClipboardManager {
    fn default() -> (r: Self)
        ensures
            r@ == (ManagerView {
                history: Seq::<ItemView>::empty(),
                last_pasted_text: None,
                last_pasted_image_hash: None,
                last_added_text_hash: None,
            }),
    {
        Self::new()
    }
}

/// Find the first non-pinned entry, as `first_unpinned` names it.
fn find_first_unpinned(v: &Vec<ClipboardItem>) -> (r: Option<usize>)
    ensures
        match r {
            Some(i) => first_unpinned(views_of(v@)) == Some(i as int),
            None => first_unpinned(views_of(v@)) is None,
        },
{
    let ghost hv = views_of(v@);
    let n = v.len();
    let mut i: usize = 0;
    while i < n
        invariant
            n == v@.len(),
            hv == views_of(v@),
            0 <= i <= n,
            forall|j: int| 0 <= j < i ==> hv[j].pinned,
        decreases n - i,
    {
        if !v[i].pinned {
            proof {
                lemma_first_unpinned(hv);
                match first_unpinned(hv) {
                    Some(k) => {
                        if k < i {
                            assert(hv[k].pinned);
                        }
                        if k > i {
                            assert(hv[i as int].pinned);
                        }
                    },
                    None => {
                        assert(hv[i as int].pinned);
                    },
                }
            }
            return Some(i);
        }
        i += 1;
    }
    proof {
        lemma_first_unpinned(hv);
        if let Some(k) = first_unpinned(hv) {
            assert(hv[k].pinned);
        }
    }
    None
}

/// Find the last non-pinned entry, as `last_unpinned` names it.
fn find_last_unpinned(v: &Vec<ClipboardItem>) -> (r: Option<usize>)
    ensures
        match r {
            Some(i) => last_unpinned(views_of(v@)) == Some(i as int),
            None => last_unpinned(views_of(v@)) is None,
        },
{
    let ghost hv = views_of(v@);
    let n = v.len();
    let mut i: usize = n;
    while i > 0
        invariant
            n == v@.len(),
            hv == views_of(v@),
            0 <= i <= n,
            forall|j: int| i <= j < n ==> hv[j].pinned,
        decreases i,
    {
        if !v[i - 1].pinned {
            proof {
                lemma_last_unpinned(hv);
                match last_unpinned(hv) {
                    Some(k) => {
                        if k < i - 1 {
                            assert(hv[i - 1].pinned);
                        }
                        if k > i - 1 {
                            assert(hv[k].pinned);
                        }
                    },
                    None => {
                        assert(hv[i - 1].pinned);
                    },
                }
            }
            return Some(i - 1);
        }
        i -= 1;
    }
    proof {
        lemma_last_unpinned(hv);
        if let Some(k) = last_unpinned(hv) {
            assert(hv[k].pinned);
        }
    }
    None
}

/// Find the first non-pinned entry holding exactly the text `t`, as
/// `first_unpinned_text` names it.
fn find_first_unpinned_text(v: &Vec<ClipboardItem>, t: &str) -> (r: Option<usize>)
    ensures
        match r {
            Some(i) => first_unpinned_text(views_of(v@), t@) == Some(i as int),
            None => first_unpinned_text(views_of(v@), t@) is None,
        },
{
    let ghost hv = views_of(v@);
    let n = v.len();
    let mut i: usize = 0;
    while i < n
        invariant
            n == v@.len(),
            hv == views_of(v@),
            0 <= i <= n,
            forall|j: int|
                0 <= j < i ==> (hv[j].pinned || hv[j].content != ContentView::Text(t@)),
        decreases n - i,
    {
        let here = if v[i].pinned {
            false
        } else {
            match &v[i].content {
                ClipboardContent::Text(s) => str_eq(s.as_str(), t),
                ClipboardContent::Image { .. } => false,
            }
        };
        if here {
            proof {
                lemma_first_unpinned_text(hv, t@);
                assert(!hv[i as int].pinned && hv[i as int].content == ContentView::Text(t@));
                match first_unpinned_text(hv, t@) {
                    Some(k) => {
                        if k < i {
                            assert(hv[k].pinned || hv[k].content != ContentView::Text(t@));
                        }
                        if k > i {
                            assert(hv[i as int].pinned || hv[i as int].content
                                != ContentView::Text(t@));
                        }
                    },
                    None => {
                        assert(hv[i as int].pinned || hv[i as int].content != ContentView::Text(
                            t@,
                        ));
                    },
                }
            }
            return Some(i);
        }
        i += 1;
    }
    proof {
        lemma_first_unpinned_text(hv, t@);
        if let Some(k) = first_unpinned_text(hv, t@) {
            assert(hv[k].pinned || hv[k].content != ContentView::Text(t@));
        }
    }
    None
}

impl ClipboardManager {
    /// Decide whether observed text must not enter the history: blank
    /// text and loopback URIs are dropped silently; an observation that
    /// matches the armed suppression token is dropped and disarms the
    /// token, once.
    fn should_skip_text(&mut self, text: &str) -> (r: bool)
        ensures
            r == (text_input_dropped(text@) || suppression_hit(
                old(self)@.last_pasted_text,
                text@,
            )),
            final(self)@ == if !text_input_dropped(text@) && suppression_hit(
                old(self)@.last_pasted_text,
                text@,
            ) {
                (ManagerView { last_pasted_text: None, ..old(self)@ })
            } else {
                old(self)@
            },
    {
        if str_is_blank(text) {
            return true;
        }
        if str_contains(text, "file://") && str_contains(text, "win11-clipboard-history/gifs/") {
            return true;
        }
        let hit = match &self.last_pasted_text {
            Some(p) => str_eq(p.as_str(), text) || str_contains(text, p.as_str()),
            None => false,
        };
        if hit {
            self.last_pasted_text = None;
            return true;
        }
        false
    }

    /// Whether the first non-pinned entry already holds this text.
    fn is_duplicate_text(&self, text: &str) -> (r: bool)
        ensures
            r == dup_at_first_unpinned(self@.history, text@),
    {
        match find_first_unpinned(&self.history) {
            Some(i) => {
                proof {
                    lemma_first_unpinned(views_of(self.history@));
                }
                match &self.history[i].content {
                    ClipboardContent::Text(s) => str_eq(s.as_str(), text),
                    ClipboardContent::Image { .. } => false,
                }
            },
            None => false,
        }
    }

    /// Drop the first non-pinned entry holding exactly this text, so a
    /// fresh copy can take the front position.
    fn remove_duplicate_text_from_history(&mut self, text: &str)
        ensures
            final(self)@ == (ManagerView {
                history: remove_unpinned_text(old(self)@.history, text@),
                ..old(self)@
            }),
    {
        let ghost hv = views_of(self.history@);
        match find_first_unpinned_text(&self.history, text) {
            Some(i) => {
                proof {
                    lemma_first_unpinned_text(hv, text@);
                }
                self.history.remove(i);
                proof {
                    assert(views_of(self.history@) =~= hv.remove(i as int));
                }
            },
            None => {},
        }
    }

    /// Place a new entry by the insertion rule, then evict.
    fn insert_item(&mut self, item: ClipboardItem)
        ensures
            final(self)@ == (ManagerView {
                history: enforce_cap(insert_entry(old(self)@.history, item@)),
                ..old(self)@
            }),
    {
        let ghost hv = views_of(self.history@);
        let pos = match find_first_unpinned(&self.history) {
            Some(i) => {
                proof {
                    lemma_first_unpinned(hv);
                }
                i
            },
            None => 0,
        };
        let ghost iv = item@;
        self.history.insert(pos, item);
        proof {
            assert(views_of(self.history@) =~= insert_entry(hv, iv));
        }
        self.enforce_history_limit();
    }

    /// Evict non-pinned entries from the back until the cap is met; a
    /// history of pinned entries alone is left whole, even above the
    /// cap.
    fn enforce_history_limit(&mut self)
        ensures
            final(self)@ == (ManagerView {
                history: enforce_cap(old(self)@.history),
                ..old(self)@
            }),
    {
        let mut done = false;
        while !done
            invariant
                enforce_cap(views_of(self.history@)) == enforce_cap(old(self)@.history),
                self@ == (ManagerView { history: views_of(self.history@), ..old(self)@ }),
                done ==> enforce_cap(views_of(self.history@)) == views_of(self.history@),
            decreases self.history@.len(), (if done {
                0int
            } else {
                1int
            }),
        {
            let ghost hv = views_of(self.history@);
            if self.history.len() <= MAX_HISTORY_SIZE {
                done = true;
            } else {
                match find_last_unpinned(&self.history) {
                    None => {
                        done = true;
                    },
                    Some(pos) => {
                        proof {
                            lemma_last_unpinned(hv);
                            assert(enforce_cap(hv) == enforce_cap(hv.remove(pos as int)));
                        }
                        self.history.remove(pos);
                        proof {
                            assert(views_of(self.history@) =~= hv.remove(pos as int));
                        }
                    },
                }
            }
        }
    }

    /// Ingest observed clipboard text. Returns the new entry, or `None`
    /// when the text was dropped: blank or loopback text, a suppressed
    /// replay (disarming the token), a rapid repeat of the last added
    /// text, or text already at the front non-pinned position (which
    /// only refreshes the repeat memo). Otherwise any older non-pinned
    /// copy is removed, the new entry is placed by the insertion rule,
    /// eviction runs, and the repeat memo is updated.
    pub fn add_text(&mut self, text: String) -> (r: Option<ClipboardItem>)
        ensures
            (r is Some) == text_accepted(old(self)@, text@),
            r is None ==> final(self)@ == text_rejected_state(old(self)@, text@),
            r matches Some(it) ==> ({
                &&& it@.content == ContentView::Text(text@)
                &&& it@.pinned == false
                &&& it@.preview == text_preview(text@)
                &&& final(self)@ == text_accepted_state(old(self)@, text@, it@)
            }),
    {
        if self.should_skip_text(text.as_str()) {
            return None;
        }
        let text_hash = text_fingerprint(text.as_str());
        let memo_hit = match self.last_added_text_hash {
            Some(h) => h == text_hash,
            None => false,
        };
        if memo_hit {
            return None;
        }
        if self.is_duplicate_text(text.as_str()) {
            self.last_added_text_hash = Some(text_hash);
            return None;
        }
        self.remove_duplicate_text_from_history(text.as_str());
        let item = ClipboardItem::new_text(text);
        let r = item.clone();
        self.insert_item(item);
        self.last_added_text_hash = Some(text_hash);
        Some(r)
    }

    /// Decide whether an observed image must not enter the history: a
    /// fingerprint matching the armed token is dropped and disarms the
    /// token, once; one matching the front non-pinned entry is dropped.
    fn should_skip_image(&mut self, hash: u64) -> (r: bool)
        ensures
            old(self)@.last_pasted_image_hash == Some(hash) ==> (r && final(self)@
                == (ManagerView { last_pasted_image_hash: None, ..old(self)@ })),
            old(self)@.last_pasted_image_hash != Some(hash) ==> (final(self)@ == old(self)@ && r
                == dup_image_at_first_unpinned(old(self)@.history, hash)),
    {
        let hit = match self.last_pasted_image_hash {
            Some(h) => h == hash,
            None => false,
        };
        if hit {
            self.last_pasted_image_hash = None;
            return true;
        }
        match find_first_unpinned(&self.history) {
            Some(i) => {
                proof {
                    lemma_first_unpinned(views_of(self.history@));
                }
                match self.history[i].extract_image_hash() {
                    Some(h) => h == hash,
                    None => false,
                }
            },
            None => false,
        }
    }

    /// Place an already-encoded image payload as a new entry, with no
    /// duplicate checks; `add_image` runs those first.
    pub fn add_encoded_image(&mut self, base64: String, width: u32, height: u32, hash: u64) -> (r:
        ClipboardItem)
        ensures
            r@.content == (ContentView::Image { base64: base64@, width, height }),
            r@.pinned == false,
            r@.preview == image_preview(width, height, hash),
            final(self)@ == (ManagerView {
                history: enforce_cap(insert_entry(old(self)@.history, r@)),
                ..old(self)@
            }),
    {
        let item = ClipboardItem::new_image(base64, width, height, hash);
        let r = item.clone();
        self.insert_item(item);
        r
    }

    /// Ingest an observed image given its raw RGBA pixels, dimensions
    /// and content fingerprint. A fingerprint matching the armed token
    /// disarms it and is dropped; one matching the front non-pinned
    /// entry is dropped; a buffer that is not four bytes per pixel, or
    /// one the encoder rejects, yields no entry and no error, since the
    /// caller is an unattended poller. Otherwise the pixels are stored
    /// as a base64 PNG and the new entry is placed by the insertion
    /// rule, with eviction.
    pub fn add_image(&mut self, bytes: Vec<u8>, width: u32, height: u32, hash: u64) -> (r: Option<
        ClipboardItem,
    >)
        ensures
            old(self)@.last_pasted_image_hash == Some(hash) ==> (r is None && final(self)@
                == (ManagerView { last_pasted_image_hash: None, ..old(self)@ })),
            (old(self)@.last_pasted_image_hash != Some(hash) && dup_image_at_first_unpinned(
                old(self)@.history,
                hash,
            )) ==> (r is None && final(self)@ == old(self)@),
            (old(self)@.last_pasted_image_hash != Some(hash) && !dup_image_at_first_unpinned(
                old(self)@.history,
                hash,
            ) && bytes@.len() != width as int * height as int * 4) ==> (r is None && final(self)@
                == old(self)@),
            (old(self)@.last_pasted_image_hash != Some(hash) && !dup_image_at_first_unpinned(
                old(self)@.history,
                hash,
            ) && bytes@.len() == width as int * height as int * 4) ==> ({
                &&& (r is Some) == (png_accepts(bytes@, width, height) && png_bytes_of(
                    bytes@,
                    width,
                    height,
                ).len() <= usize::MAX / 2)
                &&& (r is None ==> final(self)@ == old(self)@)
                &&& (r matches Some(it) ==> ({
                    &&& it@.content == (ContentView::Image {
                        base64: base64_of(png_bytes_of(bytes@, width, height)),
                        width,
                        height,
                    })
                    &&& it@.pinned == false
                    &&& it@.preview == image_preview(width, height, hash)
                    &&& final(self)@ == (ManagerView {
                        history: enforce_cap(insert_entry(old(self)@.history, it@)),
                        ..old(self)@
                    })
                }))
            }),
    {
        if self.should_skip_image(hash) {
            return None;
        }
        proof {
            assert((width as u128) * (height as u128) <= 0xFFFF_FFFFu128 * 0xFFFF_FFFFu128)
                by (nonlinear_arith)
                requires
                    (width as u128) <= 0xFFFF_FFFFu128 && (height as u128) <= 0xFFFF_FFFFu128,
            ;
        }
        if (bytes.len() as u128) != (width as u128) * (height as u128) * 4 {
            return None;
        }
        match png_of(&bytes, width, height) {
            None => None,
            Some(png) => {
                if png.len() > usize::MAX / 2 {
                    return None;
                }
                let b64 = base64_encode(png.as_slice());
                Some(self.add_encoded_image(b64, width, height, hash))
            },
        }
    }
}

/// The PNG encoding of a raw RGBA pixel buffer with the given
/// dimensions.
pub uninterp spec fn png_bytes_of(pixels: Seq<u8>, width: u32, height: u32) -> Seq<u8>;

/// Whether the PNG encoder accepts a pixel buffer with the given
/// dimensions; like the encoding itself, a function of the arguments
/// alone.
pub uninterp spec fn png_accepts(pixels: Seq<u8>, width: u32, height: u32) -> bool;

/// Relies on `image::RgbaImage::from_raw` and `DynamicImage::write_to`
/// with the PNG format: for a buffer of exactly four bytes per pixel
/// (the encoder panics on a longer one, so the caller checks first),
/// whether encoding succeeds and what it yields depend on the pixels
/// and dimensions alone.
#[verifier::external_body]
fn png_of(pixels: &Vec<u8>, width: u32, height: u32) -> (r: Option<Vec<u8>>)
    requires
        pixels@.len() == width as int * height as int * 4,
    ensures
        (r is Some) == png_accepts(pixels@, width, height),
        (r matches Some(p) ==> p@ == png_bytes_of(pixels@, width, height)),
{
    let buf = image::RgbaImage::from_raw(width, height, pixels.clone())?;
    let img = image::DynamicImage::ImageRgba8(buf);
    let mut out = std::io::Cursor::new(Vec::new());
    img.write_to(&mut out, image::ImageFormat::Png).ok()?;
    Some(out.into_inner())
}

/// The base64 encoding (standard alphabet, padded) of a byte string.
pub uninterp spec fn base64_of(b: Seq<u8>) -> Seq<char>;

/// Relies on base64's `STANDARD` engine `encode`: deterministic in the
/// input bytes, four output characters for every started group of three
/// input bytes.
#[verifier::external_body]
fn base64_encode(b: &[u8]) -> (r: String)
    requires
        b@.len() <= usize::MAX / 2,
    ensures
        r@ == base64_of(b@),
        r@.len() == 4 * ((b@.len() + 2) / 3),
{
    base64::engine::general_purpose::STANDARD.encode(b)
}

/// No two non-pinned entries hold identical text.
pub open spec fn unpinned_text_unique(h: Seq<ItemView>) -> bool {
    forall|i: int, j: int|
        0 <= i < j < h.len() && !h[i].pinned && !h[j].pinned && h[i].content is Text
            ==> h[i].content != h[j].content
}

/// The number of non-pinned entries.
pub open spec fn unpinned_count(h: Seq<ItemView>) -> nat
    decreases h.len(),
{
    if h.len() == 0 {
        0
    } else {
        unpinned_count(h.drop_last()) + if h.last().pinned {
            0nat
        } else {
            1nat
        }
    }
}

/// The pinned entries, in order.
pub open spec fn pinned_entries(h: Seq<ItemView>) -> Seq<ItemView>
    decreases h.len(),
{
    if h.len() == 0 {
        h
    } else if h.last().pinned {
        pinned_entries(h.drop_last()).push(h.last())
    } else {
        pinned_entries(h.drop_last())
    }
}

proof fn lemma_insert_index_above(h: Seq<ItemView>, pos: int, e: ItemView, l: int)
    requires
        0 <= pos <= h.len(),
        pos < l <= h.len(),
    ensures
        h.insert(pos, e)[l] == h[l - 1],
{
    h.insert_ensures(pos, e);
    assert(h.insert(pos, e)[(l - 1) + 1] == h[l - 1]);
}

proof fn lemma_remove_preserves_unique(h: Seq<ItemView>, i: int)
    requires
        unpinned_text_unique(h),
        0 <= i < h.len(),
    ensures
        unpinned_text_unique(h.remove(i)),
{
    h.remove_ensures(i);
    let r = h.remove(i);
    assert forall|k: int, l: int|
        0 <= k < l < r.len() && !r[k].pinned && !r[l].pinned && r[k].content is Text implies r[k]
        .content != r[l].content by {
        let k2: int = if k < i {
            k
        } else {
            k + 1
        };
        let l2: int = if l < i {
            l
        } else {
            l + 1
        };
        assert(r[k] == h[k2]);
        assert(r[l] == h[l2]);
    }
}

proof fn lemma_enforce_cap_preserves_unique(h: Seq<ItemView>)
    requires
        unpinned_text_unique(h),
    ensures
        unpinned_text_unique(enforce_cap(h)),
    decreases h.len(),
{
    if h.len() > MAX_HISTORY_SIZE {
        lemma_last_unpinned(h);
        match last_unpinned(h) {
            Some(i) => {
                lemma_remove_preserves_unique(h, i);
                lemma_enforce_cap_preserves_unique(h.remove(i));
            },
            None => {},
        }
    }
}

proof fn lemma_remove_unpinned_text_clears(h: Seq<ItemView>, t: Seq<char>)
    requires
        unpinned_text_unique(h),
    ensures
        forall|k: int|
            0 <= k < remove_unpinned_text(h, t).len() ==> (remove_unpinned_text(h, t)[k].pinned
                || remove_unpinned_text(h, t)[k].content != ContentView::Text(t)),
{
    lemma_first_unpinned_text(h, t);
    match first_unpinned_text(h, t) {
        None => {},
        Some(i) => {
            h.remove_ensures(i);
            let r = h.remove(i);
            assert forall|k: int|
                0 <= k < r.len() implies (r[k].pinned || r[k].content != ContentView::Text(
                t,
            )) by {
                if k < i {
                    assert(r[k] == h[k]);
                } else {
                    assert(r[k] == h[k + 1]);
                    if !h[k + 1].pinned && h[k + 1].content == ContentView::Text(t) {
                        assert(!h[i].pinned && h[i].content == ContentView::Text(t));
                        assert(false);
                    }
                }
            }
        },
    }
}

proof fn lemma_insert_unique(h: Seq<ItemView>, e: ItemView, pos: int, t: Seq<char>)
    requires
        unpinned_text_unique(h),
        0 <= pos <= h.len(),
        e.content == ContentView::Text(t),
        forall|k: int|
            0 <= k < h.len() ==> (h[k].pinned || h[k].content != ContentView::Text(t)),
    ensures
        unpinned_text_unique(h.insert(pos, e)),
{
    h.insert_ensures(pos, e);
    let r = h.insert(pos, e);
    assert forall|k: int, l: int|
        0 <= k < l < r.len() && !r[k].pinned && !r[l].pinned && r[k].content is Text implies r[k]
        .content != r[l].content by {
        if l > pos {
            lemma_insert_index_above(h, pos, e, l);
        }
        if k == pos {
            assert(r[k] == e);
            assert(r[l] == h[l - 1]);
        } else if l == pos {
            assert(r[l] == e);
            assert(r[k] == h[k]);
        } else {
            let k2: int = if k < pos {
                k
            } else {
                k - 1
            };
            let l2: int = if l < pos {
                l
            } else {
                l - 1
            };
            assert(r[k] == h[k2]);
            assert(r[l] == h[l2]);
        }
    }
}

/// Ingesting a text preserves the dedup law: if no two non-pinned
/// entries hold identical text, the same is true after the promotion,
/// insertion and eviction that `add_text` performs for a new text
/// entry. Together with the empty starting history this shows the law
/// holds after every sequence of `add_text` calls.
pub proof fn lemma_text_add_keeps_unpinned_unique(h: Seq<ItemView>, t: Seq<char>, e: ItemView)
    requires
        unpinned_text_unique(h),
        e.content == ContentView::Text(t),
    ensures
        unpinned_text_unique(enforce_cap(insert_entry(remove_unpinned_text(h, t), e))),
{
    let h1 = remove_unpinned_text(h, t);
    lemma_first_unpinned_text(h, t);
    match first_unpinned_text(h, t) {
        Some(i) => {
            lemma_remove_preserves_unique(h, i);
        },
        None => {},
    }
    lemma_remove_unpinned_text_clears(h, t);
    lemma_first_unpinned(h1);
    lemma_insert_unique(h1, e, insert_pos(h1), t);
    lemma_enforce_cap_preserves_unique(insert_entry(h1, e));
}

proof fn lemma_unpinned_count_le_len(h: Seq<ItemView>)
    ensures
        unpinned_count(h) <= h.len(),
    decreases h.len(),
{
    if h.len() > 0 {
        lemma_unpinned_count_le_len(h.drop_last());
    }
}

proof fn lemma_all_pinned_count_zero(h: Seq<ItemView>)
    requires
        forall|j: int| 0 <= j < h.len() ==> h[j].pinned,
    ensures
        unpinned_count(h) == 0,
    decreases h.len(),
{
    if h.len() > 0 {
        assert forall|j: int| 0 <= j < h.drop_last().len() implies h.drop_last()[j].pinned by {
            assert(h.drop_last()[j] == h[j]);
        }
        lemma_all_pinned_count_zero(h.drop_last());
    }
}

/// Eviction bounds the non-pinned entries by the cap: whatever history
/// an insertion produced, after eviction at most `MAX_HISTORY_SIZE`
/// non-pinned entries remain (a history of pinned entries alone may
/// exceed the cap, but holds no non-pinned entry at all).
pub proof fn lemma_eviction_caps_unpinned(h: Seq<ItemView>)
    ensures
        unpinned_count(enforce_cap(h)) <= MAX_HISTORY_SIZE,
    decreases h.len(),
{
    if h.len() <= MAX_HISTORY_SIZE {
        lemma_unpinned_count_le_len(h);
    } else {
        lemma_last_unpinned(h);
        match last_unpinned(h) {
            Some(i) => {
                lemma_eviction_caps_unpinned(h.remove(i));
            },
            None => {
                lemma_all_pinned_count_zero(h);
            },
        }
    }
}

proof fn lemma_pinned_entries_remove_unpinned(h: Seq<ItemView>, i: int)
    requires
        0 <= i < h.len(),
        !h[i].pinned,
    ensures
        pinned_entries(h.remove(i)) == pinned_entries(h),
    decreases h.len(),
{
    let r = h.remove(i);
    h.remove_ensures(i);
    if i == h.len() - 1 {
        assert(r =~= h.drop_last());
    } else {
        assert(r.drop_last() =~= h.drop_last().remove(i));
        assert(r.last() == h[h.len() - 1]);
        assert(h.drop_last()[i] == h[i]);
        lemma_pinned_entries_remove_unpinned(h.drop_last(), i);
        assert(h.drop_last().last() == h[h.len() - 2]);
    }
}

proof fn lemma_pinned_entries_insert_unpinned(h: Seq<ItemView>, pos: int, e: ItemView)
    requires
        0 <= pos <= h.len(),
        !e.pinned,
    ensures
        pinned_entries(h.insert(pos, e)) == pinned_entries(h),
    decreases h.len(),
{
    let r = h.insert(pos, e);
    h.insert_ensures(pos, e);
    if pos == h.len() {
        assert(r =~= h.push(e));
        assert(h.push(e).drop_last() =~= h);
    } else {
        assert(r.drop_last() =~= h.drop_last().insert(pos, e));
        lemma_insert_index_above(h, pos, e, h.len() as int);
        assert(r.last() == h[h.len() - 1]);
        lemma_pinned_entries_insert_unpinned(h.drop_last(), pos, e);
    }
}

proof fn lemma_pinned_entries_enforce_cap(h: Seq<ItemView>)
    ensures
        pinned_entries(enforce_cap(h)) == pinned_entries(h),
    decreases h.len(),
{
    if h.len() > MAX_HISTORY_SIZE {
        lemma_last_unpinned(h);
        match last_unpinned(h) {
            Some(i) => {
                lemma_pinned_entries_remove_unpinned(h, i);
                lemma_pinned_entries_enforce_cap(h.remove(i));
            },
            None => {},
        }
    }
}

/// Pinned entries survive insertion untouched: placing a non-pinned
/// entry and evicting leaves exactly the pinned entries that were
/// there, in order and unchanged — however many insertions follow.
pub proof fn lemma_pinned_survive_insert(h: Seq<ItemView>, e: ItemView)
    requires
        !e.pinned,
    ensures
        pinned_entries(enforce_cap(insert_entry(h, e))) == pinned_entries(h),
{
    lemma_first_unpinned(h);
    lemma_pinned_entries_insert_unpinned(h, insert_pos(h), e);
    lemma_pinned_entries_enforce_cap(insert_entry(h, e));
}

/// Pinned entries survive a text ingestion untouched: the duplicate
/// removal only ever removes a non-pinned entry, and insertion and
/// eviction preserve the pinned entries exactly.
pub proof fn lemma_pinned_survive_text_add(h: Seq<ItemView>, t: Seq<char>, e: ItemView)
    requires
        !e.pinned,
    ensures
        pinned_entries(enforce_cap(insert_entry(remove_unpinned_text(h, t), e)))
            == pinned_entries(h),
{
    let h1 = remove_unpinned_text(h, t);
    lemma_first_unpinned_text(h, t);
    match first_unpinned_text(h, t) {
        Some(i) => {
            lemma_pinned_entries_remove_unpinned(h, i);
        },
        None => {},
    }
    lemma_pinned_survive_insert(h1, e);
}

/// A replayed text is suppressed exactly once: with the token armed for
/// `t`, an identical observation is rejected by `add_text` and leaves
/// only the token disarmed; after that, the same observation is
/// accepted again. The rejection requires the observation to be
/// genuine text the store takes at all, not a rapid repeat of the last
/// added text, and not already the front non-pinned entry — on those
/// inputs no later entry is owed either.
pub proof fn lemma_replay_ingest_once(m: ManagerView, t: Seq<char>)
    requires
        m.last_pasted_text == Some(t),
        !text_input_dropped(t),
        m.last_added_text_hash != Some(text_hash_of(t)),
        !dup_at_first_unpinned(m.history, t),
    ensures
        !text_accepted(m, t),
        text_rejected_state(m, t) == (ManagerView { last_pasted_text: None, ..m }),
        text_accepted(text_rejected_state(m, t), t),
{
    assert(suppression_hit(m.last_pasted_text, t));
}

/// The fingerprint std's `DefaultHasher` assigns to a text.
pub uninterp spec fn text_hash_of(s: Seq<char>) -> u64;

/// Relies on `DefaultHasher::new` being identically keyed everywhere,
/// as std documents, so the hash of a text depends on its characters
/// alone.
#[verifier::external_body]
fn text_fingerprint(s: &str) -> (r: u64)
    ensures
        r == text_hash_of(s@),
{
    let mut h = DefaultHasher::new();
    s.hash(&mut h);
    h.finish()
}

/// The fingerprint std's `DefaultHasher` assigns to a byte string.
pub uninterp spec fn bytes_hash_of(b: Seq<u8>) -> u64;

/// Relies on `DefaultHasher::new` being identically keyed everywhere,
/// as std documents, so the hash of a byte string depends on its bytes
/// alone.
#[verifier::external_body]
pub fn bytes_fingerprint(b: &[u8]) -> (r: u64)
    ensures
        r == bytes_hash_of(b@),
{
    let mut h = DefaultHasher::new();
    b.hash(&mut h);
    h.finish()
}

} // verus!
