//! Emoji usage tracking with most-recently-used ordering and a bounded
//! list. Disk persistence lives outside; it loads and stores the plain
//! entry list this module orders.

use vstd::prelude::*;

verus! {

/// At most this many recent emojis are tracked.
pub const MAX_RECENT_EMOJIS: usize = 20;

/// Mathematical image of an `EmojiUsage` value.
#[verifier::ext_equal]
pub struct EmojiView {
    pub char: Seq<char>,
    pub use_count: u32,
    pub last_used: u64,
}

/// A single emoji usage entry.
#[derive(Debug, PartialEq)]
pub struct EmojiUsage {
    /// The emoji character.
    pub char: String,
    /// Number of times used; saturates at the type's maximum.
    pub use_count: u32,
    /// Last used timestamp, in Unix epoch milliseconds.
    pub last_used: u64,
}

impl View for EmojiUsage {
    type V = EmojiView;

    open spec fn view(&self) -> EmojiView {
        EmojiView { char: self.char@, use_count: self.use_count, last_used: self.last_used }
    }
}

impl Clone for EmojiUsage {
    fn clone(&self) -> (r: Self)
        ensures
            r@ == self@,
    {
        EmojiUsage {
            char: self.char.clone(),
            use_count: self.use_count,
            last_used: self.last_used,
        }
    }
}

/// The views of the entries a vector holds, in order.
pub open spec fn emoji_views_of(v: Seq<EmojiUsage>) -> Seq<EmojiView> {
    v.map_values(|e: EmojiUsage| e@)
}

/// The index of the first entry for the emoji `c`, if any.
pub open spec fn find_emoji(h: Seq<EmojiView>, c: Seq<char>) -> Option<int>
    decreases h.len(),
{
    if h.len() == 0 {
        None
    } else if h[0].char == c {
        Some(0)
    } else {
        match find_emoji(h.drop_first(), c) {
            Some(i) => Some(i + 1),
            None => None,
        }
    }
}

/// `find_emoji` names exactly the first entry for the emoji.
pub proof fn lemma_find_emoji(h: Seq<EmojiView>, c: Seq<char>)
    ensures
        match find_emoji(h, c) {
            Some(i) => 0 <= i < h.len() && h[i].char == c && forall|j: int|
                0 <= j < i ==> h[j].char != c,
            None => forall|j: int| 0 <= j < h.len() ==> h[j].char != c,
        },
    decreases h.len(),
{
    if h.len() > 0 && h[0].char != c {
        lemma_find_emoji(h.drop_first(), c);
        match find_emoji(h.drop_first(), c) {
            Some(i) => {
                assert(h.drop_first()[i] == h[i + 1]);
                assert forall|j: int| 0 <= j < i + 1 implies h[j].char != c by {
                    if j > 0 {
                        assert(h.drop_first()[j - 1].char != c);
                        assert(h.drop_first()[j - 1] == h[j]);
                    }
                }
            },
            None => {
                assert forall|j: int| 0 <= j < h.len() implies h[j].char != c by {
                    if j > 0 {
                        assert(h.drop_first()[j - 1].char != c);
                        assert(h.drop_first()[j - 1] == h[j]);
                    }
                }
            },
        }
    }
}

/// The list after recording one use of `c` at time `now`: a known
/// emoji moves to the front with its count raised (saturating) and its
/// timestamp refreshed; a new one enters at the front with count one,
/// and the list is trimmed to the bound.
pub open spec fn record_spec(h: Seq<EmojiView>, c: Seq<char>, now: u64) -> Seq<EmojiView> {
    match find_emoji(h, c) {
        Some(i) => h.remove(i).insert(
            0,
            EmojiView {
                use_count: if h[i].use_count == u32::MAX {
                    u32::MAX
                } else {
                    (h[i].use_count + 1) as u32
                },
                last_used: now,
                ..h[i]
            },
        ),
        None => {
            let grown = h.insert(0, EmojiView { char: c, use_count: 1, last_used: now });
            if grown.len() > MAX_RECENT_EMOJIS {
                grown.take(MAX_RECENT_EMOJIS as int)
            } else {
                grown
            }
        },
    }
}

/// Tracks emoji usage with most-recently-used semantics.
pub struct EmojiManager {
    recent: Vec<EmojiUsage>,
}

impl View for EmojiManager {
    type V = Seq<EmojiView>;

    closed spec fn view(&self) -> Seq<EmojiView> {
        emoji_views_of(self.recent@)
    }
}

fn find_emoji_entry(v: &Vec<EmojiUsage>, c: &str) -> (r: Option<usize>)
    ensures
        match r {
            Some(i) => find_emoji(emoji_views_of(v@), c@) == Some(i as int),
            None => find_emoji(emoji_views_of(v@), c@) is None,
        },
{
    let ghost hv = emoji_views_of(v@);
    let n = v.len();
    let mut i: usize = 0;
    while i < n
        invariant
            n == v@.len(),
            hv == emoji_views_of(v@),
            0 <= i <= n,
            forall|j: int| 0 <= j < i ==> hv[j].char != c@,
        decreases n - i,
    {
        if crate::text::str_eq(v[i].char.as_str(), c) {
            proof {
                lemma_find_emoji(hv, c@);
                match find_emoji(hv, c@) {
                    Some(k) => {
                        if k < i {
                            assert(hv[k].char != c@);
                        }
                        if k > i {
                            assert(hv[i as int].char != c@);
                        }
                    },
                    None => {
                        assert(hv[i as int].char != c@);
                    },
                }
            }
            return Some(i);
        }
        i += 1;
    }
    proof {
        lemma_find_emoji(hv, c@);
        if let Some(k) = find_emoji(hv, c@) {
            assert(hv[k].char != c@);
        }
    }
    None
}

impl EmojiManager {
    /// An empty tracker.
    pub fn new() -> (r: Self)
        ensures
            r@ == Seq::<EmojiView>::empty(),
    {
        let r = EmojiManager { recent: Vec::new() };
        proof {
            assert(emoji_views_of(r.recent@) =~= Seq::<EmojiView>::empty());
        }
        r
    }

    /// A tracker over a list loaded from persistence, most recent
    /// first.
    pub fn from_entries(entries: Vec<EmojiUsage>) -> (r: Self)
        ensures
            r@ == emoji_views_of(entries@),
    {
        EmojiManager { recent: entries }
    }

    /// Record one use of the emoji at the given time, as `record_spec`
    /// describes.
    pub fn record_usage_at(&mut self, emoji_char: &str, now: u64)
        ensures
            final(self)@ == record_spec(old(self)@, emoji_char@, now),
    {
        let ghost hv = emoji_views_of(self.recent@);
        match find_emoji_entry(&self.recent, emoji_char) {
            Some(i) => {
                proof {
                    lemma_find_emoji(hv, emoji_char@);
                }
                let mut e = self.recent.remove(i);
                e.use_count = if e.use_count == u32::MAX {
                    u32::MAX
                } else {
                    e.use_count + 1
                };
                e.last_used = now;
                let ghost ev = e@;
                self.recent.insert(0, e);
                proof {
                    assert(emoji_views_of(self.recent@) =~= hv.remove(i as int).insert(0, ev));
                }
            },
            None => {
                let e = EmojiUsage {
                    char: String::from_str(emoji_char),
                    use_count: 1,
                    last_used: now,
                };
                let ghost ev = e@;
                self.recent.insert(0, e);
                proof {
                    assert(emoji_views_of(self.recent@) =~= hv.insert(0, ev));
                }
                let ghost grown = emoji_views_of(self.recent@);
                if self.recent.len() > MAX_RECENT_EMOJIS {
                    self.recent.truncate(MAX_RECENT_EMOJIS);
                    proof {
                        assert(emoji_views_of(self.recent@) =~= grown.take(
                            MAX_RECENT_EMOJIS as int,
                        ));
                    }
                }
            },
        }
    }

    /// Record one use of the emoji at the current time.
    pub fn record_usage(&mut self, emoji_char: &str)
        ensures
            exists|now: u64| final(self)@ == record_spec(old(self)@, emoji_char@, now),
    {
        let now = now_millis();
        self.record_usage_at(emoji_char, now);
        proof {
            assert(final(self)@ == record_spec(old(self)@, emoji_char@, now));
        }
    }

    /// The tracked entries, most recently used first.
    pub fn get_recent(&self) -> (r: Vec<EmojiUsage>)
        ensures
            emoji_views_of(r@) == self@,
    {
        let n = self.recent.len();
        let mut r: Vec<EmojiUsage> = Vec::new();
        let mut i: usize = 0;
        while i < n
            invariant
                n == self.recent@.len(),
                0 <= i <= n,
                r@.len() == i,
                forall|j: int| 0 <= j < i ==> r@[j]@ == self.recent@[j]@,
            decreases n - i,
        {
            r.push(self.recent[i].clone());
            i += 1;
        }
        proof {
            assert(emoji_views_of(r@) =~= emoji_views_of(self.recent@));
        }
        r
    }
}

/// `e` placed into the sorted list `s`: after every entry whose count
/// is at least as large, before the first strictly smaller one.
pub open spec fn insert_desc(e: EmojiView, s: Seq<EmojiView>) -> Seq<EmojiView>
    decreases s.len(),
{
    if s.len() == 0 {
        seq![e]
    } else if s[0].use_count >= e.use_count {
        seq![s[0]] + insert_desc(e, s.drop_first())
    } else {
        seq![e] + s
    }
}

/// The list sorted by use count, descending, stably: entries of equal
/// count keep their order, since each is placed after its equals.
pub open spec fn sort_desc(s: Seq<EmojiView>) -> Seq<EmojiView>
    decreases s.len(),
{
    if s.len() == 0 {
        s
    } else {
        insert_desc(s.last(), sort_desc(s.drop_last()))
    }
}

proof fn lemma_insert_desc_len(e: EmojiView, s: Seq<EmojiView>)
    ensures
        insert_desc(e, s).len() == s.len() + 1,
    decreases s.len(),
{
    if s.len() > 0 && s[0].use_count >= e.use_count {
        lemma_insert_desc_len(e, s.drop_first());
    }
}

proof fn lemma_sort_desc_len(s: Seq<EmojiView>)
    ensures
        sort_desc(s).len() == s.len(),
    decreases s.len(),
{
    if s.len() > 0 {
        lemma_sort_desc_len(s.drop_last());
        lemma_insert_desc_len(s.last(), sort_desc(s.drop_last()));
    }
}

proof fn lemma_insert_desc_at(e: EmojiView, s: Seq<EmojiView>, j: int)
    requires
        0 <= j <= s.len(),
        forall|k: int| 0 <= k < j ==> s[k].use_count >= e.use_count,
        j < s.len() ==> s[j].use_count < e.use_count,
    ensures
        insert_desc(e, s) == s.insert(j, e),
    decreases j,
{
    if j == 0 {
        assert(insert_desc(e, s) =~= s.insert(0, e));
    } else {
        assert(s[0].use_count >= e.use_count);
        assert forall|k: int| 0 <= k < j - 1 implies s.drop_first()[k].use_count
            >= e.use_count by {
            assert(s.drop_first()[k] == s[k + 1]);
        }
        if j - 1 < s.drop_first().len() {
            assert(s.drop_first()[j - 1] == s[j]);
        }
        lemma_insert_desc_at(e, s.drop_first(), j - 1);
        assert(insert_desc(e, s) == seq![s[0]] + s.drop_first().insert(j - 1, e));
        assert(seq![s[0]] + s.drop_first().insert(j - 1, e) =~= s.insert(j, e));
    }
}

fn place_desc(sorted: &mut Vec<EmojiUsage>, e: EmojiUsage)
    requires
        forall|a: int, b: int|
            0 <= a < b < old(sorted)@.len() ==> emoji_views_of(old(sorted)@)[a].use_count
                >= emoji_views_of(old(sorted)@)[b].use_count,
    ensures
        emoji_views_of(final(sorted)@) == insert_desc(e@, emoji_views_of(old(sorted)@)),
        forall|a: int, b: int|
            0 <= a < b < final(sorted)@.len() ==> emoji_views_of(final(sorted)@)[a].use_count
                >= emoji_views_of(final(sorted)@)[b].use_count,
{
    let ghost sv = emoji_views_of(sorted@);
    let n = sorted.len();
    let mut j: usize = 0;
    let mut scanning = true;
    while scanning
        invariant
            n == sorted@.len(),
            sv == emoji_views_of(sorted@),
            0 <= j <= n,
            forall|k: int| 0 <= k < j ==> sv[k].use_count >= e@.use_count,
            !scanning ==> (j == n || sv[j as int].use_count < e@.use_count),
        decreases n - j, (if scanning {
            1int
        } else {
            0int
        }),
    {
        if j < n {
            if sorted[j].use_count < e.use_count {
                scanning = false;
            } else {
                j += 1;
            }
        } else {
            scanning = false;
        }
    }
    proof {
        lemma_insert_desc_at(e@, sv, j as int);
    }
    let ghost ev = e@;
    sorted.insert(j, e);
    proof {
        old(sorted)@.insert_ensures(j as int, e);
        sv.insert_ensures(j as int, ev);
        assert(emoji_views_of(sorted@) =~= sv.insert(j as int, ev));
        let r = emoji_views_of(sorted@);
        assert forall|a: int, b: int|
            0 <= a < b < r.len() implies r[a].use_count >= r[b].use_count by {
            let a2: int = if a < j {
                a
            } else {
                a - 1
            };
            let b2: int = if b < j {
                b
            } else {
                b - 1
            };
            assert(a != b);
            if a == j {
                assert(r[a] == ev);
                assert(r[b] == sv[b2]);
                assert(b2 >= j);
            } else if b == j {
                assert(r[b] == ev);
                assert(r[a] == sv[a2]);
                assert(a2 < j);
            } else {
                assert(r[a] == sv[a2]);
                assert(r[b] == sv[b2]);
            }
        }
    }
}

impl EmojiManager {
    /// The `n` most used emojis: the list stably sorted by use count,
    /// descending, then cut to `n`.
    pub fn get_top_used(&self, n: usize) -> (r: Vec<EmojiUsage>)
        ensures
            emoji_views_of(r@) == if n <= self@.len() {
                sort_desc(self@).take(n as int)
            } else {
                sort_desc(self@)
            },
    {
        let ghost hv = emoji_views_of(self.recent@);
        let len = self.recent.len();
        let mut sorted: Vec<EmojiUsage> = Vec::new();
        let mut i: usize = 0;
        proof {
            assert(emoji_views_of(sorted@) =~= Seq::<EmojiView>::empty());
            assert(hv.take(0) =~= Seq::<EmojiView>::empty());
            assert(sort_desc(hv.take(0)) =~= Seq::<EmojiView>::empty());
        }
        while i < len
            invariant
                len == self.recent@.len(),
                hv == emoji_views_of(self.recent@),
                0 <= i <= len,
                emoji_views_of(sorted@) == sort_desc(hv.take(i as int)),
                forall|a: int, b: int|
                    0 <= a < b < sorted@.len() ==> emoji_views_of(sorted@)[a].use_count
                        >= emoji_views_of(sorted@)[b].use_count,
            decreases len - i,
        {
            let e = self.recent[i].clone();
            proof {
                assert(hv.take(i + 1).drop_last() =~= hv.take(i as int));
                assert(hv.take(i + 1).last() == hv[i as int]);
                assert(e@ == hv[i as int]);
            }
            place_desc(&mut sorted, e);
            i += 1;
        }
        proof {
            assert(hv.take(len as int) =~= hv);
            lemma_sort_desc_len(hv);
        }
        let ghost full = emoji_views_of(sorted@);
        let mut r = sorted;
        if n < r.len() {
            r.truncate(n);
            proof {
                assert(emoji_views_of(r@) =~= full.take(n as int));
            }
        } else {
            proof {
                if n <= hv.len() {
                    assert(n == hv.len());
                    assert(full.take(n as int) =~= full);
                }
            }
        }
        r
    }
}

/// Relies on `std::time::SystemTime::now` and `duration_since`: the
/// milliseconds since the Unix epoch, or zero when the clock reads
/// before it. The value depends on the clock, so nothing is assumed of
/// it.
#[verifier::external_body]
fn now_millis() -> (r: u64) {
    match std::time::SystemTime::now().duration_since(std::time::UNIX_EPOCH) {
        Ok(d) => d.as_millis() as u64,
        Err(_) => 0,
    }
}

} // verus!
