//! The clipboard history: its items, newest first, and every change made to
//! them (capturing, copying back, favoriting, deleting, clearing, and the
//! item limit).
use vstd::prelude::*;
use crate::hotkeys::HotkeyRegistry;
use crate::settings::{normalize_view, ClipboardHistorySettings, SettingsView};
use crate::text::{chars_eq, chars_of, string_from};

verus! {

broadcast use vstd::seq_lib::group_seq_properties;

/// A content copied again within this many milliseconds of the newest item's
/// last copy is not moved.
pub const SHORT_DUPLICATE_WINDOW_MS: i64 = 2_000;

#[derive(Clone, Copy, Debug, PartialEq, Eq, Structural)]
pub enum ClipboardHistoryItemKind {
    Text,
    Image,
}

/// The stored files and preview of an image item.
#[derive(Debug)]
pub struct ClipboardHistoryImage {
    pub width: usize,
    pub height: usize,
    pub byte_size: u64,
    pub original_path: String,
    pub thumbnail_path: String,
    pub thumbnail_data_url: Option<String>,
}

/// One history entry.
#[derive(Debug)]
pub struct ClipboardHistoryItem {
    pub id: String,
    pub kind: ClipboardHistoryItemKind,
    pub hash: String,
    pub created_at: i64,
    pub copied_at: i64,
    pub favorite: bool,
    pub preview: String,
    pub text: Option<String>,
    pub image: Option<ClipboardHistoryImage>,
}

fn clone_opt_string(s: &Option<String>) -> (r: Option<String>)
    ensures
        r == *s,
{
    match s {
        Some(v) => Some(v.clone()),
        None => None,
    }
}

impl Clone for ClipboardHistoryImage {
    fn clone(&self) -> (r: Self)
        ensures
            r == *self,
    {
        ClipboardHistoryImage {
            width: self.width,
            height: self.height,
            byte_size: self.byte_size,
            original_path: self.original_path.clone(),
            thumbnail_path: self.thumbnail_path.clone(),
            thumbnail_data_url: clone_opt_string(&self.thumbnail_data_url),
        }
    }
}

impl Clone for ClipboardHistoryItem {
    fn clone(&self) -> (r: Self)
        ensures
            r == *self,
    {
        ClipboardHistoryItem {
            id: self.id.clone(),
            kind: self.kind,
            hash: self.hash.clone(),
            created_at: self.created_at,
            copied_at: self.copied_at,
            favorite: self.favorite,
            preview: self.preview.clone(),
            text: clone_opt_string(&self.text),
            image: match &self.image {
                Some(i) => Some(i.clone()),
                None => None,
            },
        }
    }
}

/// Why a history request failed.
#[derive(Debug, PartialEq, Eq, Structural)]
pub enum HistoryError {
    ItemNotFound,
    TextMissing,
    ImageMissing,
}

impl HistoryError {
    pub open spec fn message_spec(&self) -> Seq<char> {
        match self {
            HistoryError::ItemNotFound => "Clipboard history item was not found."@,
            HistoryError::TextMissing => "Clipboard text item has no text."@,
            HistoryError::ImageMissing => "Clipboard image item has no image."@,
        }
    }

    /// The message shown to the user.
    pub fn message(&self) -> (r: String)
        ensures
            r@ == self.message_spec(),
    {
        match self {
            HistoryError::ItemNotFound => string_from("Clipboard history item was not found."),
            HistoryError::TextMissing => string_from("Clipboard text item has no text."),
            HistoryError::ImageMissing => string_from("Clipboard image item has no image."),
        }
    }
}

// ---------------------------------------------------------------------------
// Specifications
// ---------------------------------------------------------------------------

pub open spec fn has_id(items: Seq<ClipboardHistoryItem>, id: Seq<char>) -> bool {
    exists|i: int| 0 <= i < items.len() && (#[trigger] items[i]).id@ == id
}

/// `i` is the first position whose item has the id `id`.
pub open spec fn is_first_id(items: Seq<ClipboardHistoryItem>, id: Seq<char>, i: int) -> bool {
    &&& 0 <= i < items.len()
    &&& items[i].id@ == id
    &&& forall|j: int| 0 <= j < i ==> (#[trigger] items[j]).id@ != id
}

pub open spec fn has_hash(items: Seq<ClipboardHistoryItem>, h: Seq<char>) -> bool {
    exists|i: int| 0 <= i < items.len() && (#[trigger] items[i]).hash@ == h
}

/// `i` is the first position whose item has the hash `h`.
pub open spec fn is_first_hash(items: Seq<ClipboardHistoryItem>, h: Seq<char>, i: int) -> bool {
    &&& 0 <= i < items.len()
    &&& items[i].hash@ == h
    &&& forall|j: int| 0 <= j < i ==> (#[trigger] items[j]).hash@ != h
}

/// No two items hold the same content.
pub open spec fn hashes_distinct(items: Seq<ClipboardHistoryItem>) -> bool {
    forall|i: int, j: int|
        0 <= i < items.len() && 0 <= j < items.len() && i != j ==> (#[trigger] items[i]).hash@
            != (#[trigger] items[j]).hash@
}

pub open spec fn with_copied_at(x: ClipboardHistoryItem, t: i64) -> ClipboardHistoryItem {
    ClipboardHistoryItem { copied_at: t, ..x }
}

pub open spec fn with_favorite(x: ClipboardHistoryItem, f: bool) -> ClipboardHistoryItem {
    ClipboardHistoryItem { favorite: f, ..x }
}

/// The item at `i` moved to the front, stamped as copied at `t`.
pub open spec fn move_to_front(items: Seq<ClipboardHistoryItem>, i: int, t: i64) -> Seq<
    ClipboardHistoryItem,
> {
    seq![with_copied_at(items[i], t)] + items.remove(i)
}

/// The number of items whose favorite flag is `fav`.
pub open spec fn count_favorite(s: Seq<ClipboardHistoryItem>, fav: bool) -> nat
    decreases s.len(),
{
    if s.len() == 0 {
        0
    } else {
        count_favorite(s.drop_last(), fav) + if s.last().favorite == fav {
            1nat
        } else {
            0nat
        }
    }
}

/// Whether the limit `max` keeps the item at `i`: favorites are kept while
/// fewer than `max` favorites come before them; other items are kept while
/// they and all favorites fit into `max`, newest first.
pub open spec fn kept_under_limit(items: Seq<ClipboardHistoryItem>, max: int, i: int) -> bool {
    if items[i].favorite {
        count_favorite(items.take(i), true) < max
    } else {
        count_favorite(items.take(i), false) + count_favorite(items, true) < max
    }
}

/// Among the first `n` items, those the limit keeps (`keep`) or drops (`!keep`).
pub open spec fn limit_prefix(items: Seq<ClipboardHistoryItem>, max: int, n: int, keep: bool) -> Seq<
    ClipboardHistoryItem,
>
    decreases n,
{
    if n <= 0 {
        Seq::empty()
    } else {
        let r = limit_prefix(items, max, n - 1, keep);
        if kept_under_limit(items, max, n - 1) == keep {
            r.push(items[n - 1])
        } else {
            r
        }
    }
}

/// The items that the limit `max` keeps, in order.
pub open spec fn limit_items(items: Seq<ClipboardHistoryItem>, max: int) -> Seq<ClipboardHistoryItem> {
    limit_prefix(items, max, items.len() as int, true)
}

/// The items that the limit `max` drops, in order.
pub open spec fn over_limit_items(items: Seq<ClipboardHistoryItem>, max: int) -> Seq<
    ClipboardHistoryItem,
> {
    limit_prefix(items, max, items.len() as int, false)
}

pub open spec fn is_favorite(x: ClipboardHistoryItem) -> bool {
    x.favorite
}

pub open spec fn not_favorite(x: ClipboardHistoryItem) -> bool {
    !x.favorite
}

/// An item that can be shown and copied back: a text item with non-empty
/// text, or an image item with its image.
pub open spec fn is_loadable(x: ClipboardHistoryItem) -> bool {
    match x.kind {
        ClipboardHistoryItemKind::Text => x.text matches Some(t) && t@.len() > 0,
        ClipboardHistoryItemKind::Image => x.image is Some,
    }
}

/// `a - b` held within the range of `i64`.
pub open spec fn saturating_sub_i64(a: i64, b: i64) -> int {
    let d = a - b;
    if d < i64::MIN {
        i64::MIN as int
    } else if d > i64::MAX {
        i64::MAX as int
    } else {
        d
    }
}

/// What the history does with a content that was just read from the clipboard.
#[derive(Debug, PartialEq, Eq, Structural)]
pub enum CaptureStep {
    /// Nothing to store: it is the content seen last, or the newest item
    /// copied again within the short duplicate window.
    Unchanged,
    /// An item with this content existed and was moved to the front.
    Moved,
    /// The content is new: the caller builds its item and inserts it.
    Insert,
}

/// What copying an item back to the clipboard writes.
#[derive(Debug)]
pub enum CopyPayload {
    Text(String),
    /// The path of the stored original image.
    ImageFile(String),
}

/// What the user is shown: settings, items, and which page shortcuts are
/// registered with the system.
#[derive(Debug)]
pub struct ClipboardHistorySnapshot {
    pub settings: ClipboardHistorySettings,
    pub items: Vec<ClipboardHistoryItem>,
    pub clipboard_shortcut_registered: bool,
    pub agent_shortcut_registered: bool,
    pub todo_shortcut_registered: bool,
    pub music_shortcut_registered: bool,
}

// ---------------------------------------------------------------------------
// Lemmas
// ---------------------------------------------------------------------------

proof fn lemma_count_take_step(s: Seq<ClipboardHistoryItem>, i: int, fav: bool)
    requires
        0 <= i < s.len(),
    ensures
        count_favorite(s.take(i + 1), fav) == count_favorite(s.take(i), fav) + if s[i].favorite
            == fav {
            1nat
        } else {
            0nat
        },
{
    assert(s.take(i + 1).drop_last() =~= s.take(i));
}

proof fn lemma_count_take_le(s: Seq<ClipboardHistoryItem>, i: int, fav: bool)
    requires
        0 <= i <= s.len(),
    ensures
        count_favorite(s.take(i), fav) <= count_favorite(s, fav),
    decreases s.len() - i,
{
    if i == s.len() {
        assert(s.take(i) =~= s);
    } else {
        lemma_count_take_step(s, i, fav);
        lemma_count_take_le(s, i + 1, fav);
    }
}

proof fn lemma_count_split(s: Seq<ClipboardHistoryItem>)
    ensures
        count_favorite(s, true) + count_favorite(s, false) == s.len(),
    decreases s.len(),
{
    if s.len() > 0 {
        lemma_count_split(s.drop_last());
    }
}

/// Sizes of what the limit keeps among the first `n` items.
proof fn lemma_limit_prefix_len(items: Seq<ClipboardHistoryItem>, max: int, n: int)
    requires
        0 <= n <= items.len(),
        max >= 0,
    ensures
        limit_prefix(items, max, n, true).len() == min_int(
            count_favorite(items.take(n), true) as int,
            max,
        ) + min_int(
            count_favorite(items.take(n), false) as int,
            max_int(max - count_favorite(items, true), 0),
        ),
        limit_prefix(items, max, n, true).len() + limit_prefix(items, max, n, false).len() == n,
    decreases n,
{
    if n == 0 {
        assert(items.take(0) =~= Seq::<ClipboardHistoryItem>::empty());
    } else {
        lemma_limit_prefix_len(items, max, n - 1);
        lemma_count_take_step(items, n - 1, true);
        lemma_count_take_step(items, n - 1, false);
    }
}

pub open spec fn min_int(a: int, b: int) -> int {
    if a < b {
        a
    } else {
        b
    }
}

pub open spec fn max_int(a: int, b: int) -> int {
    if a > b {
        a
    } else {
        b
    }
}

/// The limit keeps `min(len, max)` items; under the limit it keeps all of them.
pub proof fn lemma_limit_size(items: Seq<ClipboardHistoryItem>, max: int)
    requires
        max >= 0,
    ensures
        limit_items(items, max).len() == min_int(items.len() as int, max),
        limit_items(items, max).len() + over_limit_items(items, max).len() == items.len(),
        items.len() <= max ==> limit_items(items, max) == items,
{
    lemma_limit_prefix_len(items, max, items.len() as int);
    assert(items.take(items.len() as int) =~= items);
    lemma_count_split(items);
    if items.len() <= max {
        lemma_limit_keeps_all(items, max, items.len() as int);
        assert(items.take(items.len() as int) =~= items);
    }
}

proof fn lemma_limit_keeps_all(items: Seq<ClipboardHistoryItem>, max: int, n: int)
    requires
        0 <= n <= items.len(),
        items.len() <= max,
    ensures
        limit_prefix(items, max, n, true) == items.take(n),
    decreases n,
{
    if n == 0 {
        assert(items.take(0) =~= Seq::<ClipboardHistoryItem>::empty());
    } else {
        lemma_limit_keeps_all(items, max, n - 1);
        lemma_count_split(items);
        lemma_count_take_le(items, n - 1, true);
        lemma_count_take_le(items, n - 1, false);
        lemma_count_split(items.take(n - 1));
        lemma_count_split(items.take(n));
        lemma_count_take_step(items, n - 1, true);
        lemma_count_take_step(items, n - 1, false);
        lemma_count_take_le(items, n, false);
        assert(items.take(n - 1).push(items[n - 1]) =~= items.take(n));
    }
}

/// While the favorites fit into the limit, the limit drops no favorite.
pub proof fn lemma_limit_keeps_favorites(items: Seq<ClipboardHistoryItem>, max: int, i: int)
    requires
        0 <= i < items.len(),
        items[i].favorite,
        count_favorite(items, true) <= max,
    ensures
        kept_under_limit(items, max, i),
{
    lemma_count_take_step(items, i, true);
    lemma_count_take_le(items, i + 1, true);
}

// ---------------------------------------------------------------------------
// Executable code
// ---------------------------------------------------------------------------

fn position_by_id(items: &Vec<ClipboardHistoryItem>, id: &[char]) -> (r: Option<usize>)
    ensures
        match r {
            Some(i) => is_first_id(items@, id@, i as int),
            None => !has_id(items@, id@),
        },
{
    let mut i: usize = 0;
    while i < items.len()
        invariant
            i <= items.len(),
            forall|j: int| 0 <= j < i ==> (#[trigger] items@[j]).id@ != id@,
        decreases items.len() - i,
    {
        let candidate = chars_of(items[i].id.as_str());
        if chars_eq(&candidate, id) {
            return Some(i);
        }
        i += 1;
    }
    None
}

fn position_by_hash(items: &Vec<ClipboardHistoryItem>, hash: &[char]) -> (r: Option<usize>)
    ensures
        match r {
            Some(i) => is_first_hash(items@, hash@, i as int),
            None => !has_hash(items@, hash@),
        },
{
    let mut i: usize = 0;
    while i < items.len()
        invariant
            i <= items.len(),
            forall|j: int| 0 <= j < i ==> (#[trigger] items@[j]).hash@ != hash@,
        decreases items.len() - i,
    {
        let candidate = chars_of(items[i].hash.as_str());
        if chars_eq(&candidate, hash) {
            return Some(i);
        }
        i += 1;
    }
    None
}

/// The items kept and dropped by the limit `max`, both in order.
pub fn split_at_limit(items: Vec<ClipboardHistoryItem>, max: usize) -> (r: (
    Vec<ClipboardHistoryItem>,
    Vec<ClipboardHistoryItem>,
))
    ensures
        r.0@ == limit_items(items@, max as int),
        r.1@ == over_limit_items(items@, max as int),
{
    let ghost all = items@;
    let mut favorites: usize = 0;
    let mut i: usize = 0;
    while i < items.len()
        invariant
            i <= items.len(),
            favorites == count_favorite(items@.take(i as int), true),
            favorites <= i,
        decreases items.len() - i,
    {
        proof {
            lemma_count_take_step(items@, i as int, true);
        }
        if items[i].favorite {
            favorites += 1;
        }
        i += 1;
    }
    assert(items@.take(items.len() as int) =~= items@);
    let mut kept: Vec<ClipboardHistoryItem> = Vec::new();
    let mut dropped: Vec<ClipboardHistoryItem> = Vec::new();
    let mut favorites_seen: usize = 0;
    let mut others_seen: usize = 0;
    let mut rest = items;
    // Walk from the front: hold the remaining items last-first.
    let mut pending: Vec<ClipboardHistoryItem> = Vec::new();
    while rest.len() > 0
        invariant
            all == rest@ + pending@.reverse(),
        decreases rest.len(),
    {
        let ghost before_rest = rest@;
        let ghost before_pending = pending@;
        let x = rest.pop().unwrap();
        pending.push(x);
        assert(before_pending.push(x).reverse() =~= seq![x] + before_pending.reverse());
        assert(before_rest =~= rest@.push(x));
    }
    assert(pending@.reverse() =~= all);
    assert(all.len() == pending.len());
    let mut n: usize = 0;
    while pending.len() > 0
        invariant
            n + pending.len() == all.len(),
            all.len() <= usize::MAX,
            forall|j: int| 0 <= j < pending.len() ==> #[trigger] pending@[j] == all[all.len() - 1 - j],
            favorites == count_favorite(all, true),
            favorites_seen == count_favorite(all.take(n as int), true),
            others_seen == count_favorite(all.take(n as int), false),
            favorites_seen + others_seen == n,
            kept@ == limit_prefix(all, max as int, n as int, true),
            dropped@ == limit_prefix(all, max as int, n as int, false),
        decreases pending.len(),
    {
        let ghost before = pending@;
        let x = pending.pop().unwrap();
        assert(x == all[n as int]);
        proof {
            lemma_count_take_step(all, n as int, true);
            lemma_count_take_step(all, n as int, false);
            assert forall|j: int| 0 <= j < pending.len() implies #[trigger] pending@[j] == all[all.len() - 1 - j] by {
                assert(pending@[j] == before[j]);
            }
        }
        let keep = if x.favorite {
            favorites_seen < max
        } else {
            (others_seen as u128) + (favorites as u128) < (max as u128)
        };
        assert(keep == kept_under_limit(all, max as int, n as int));
        if x.favorite {
            favorites_seen += 1;
        } else {
            others_seen += 1;
        }
        if keep {
            kept.push(x);
        } else {
            dropped.push(x);
        }
        n += 1;
    }
    (kept, dropped)
}

/// The loadable items, in order: what a history read from disk keeps.
pub fn retain_loadable(items: Vec<ClipboardHistoryItem>) -> (r: Vec<ClipboardHistoryItem>)
    ensures
        r@ == items@.filter(|x: ClipboardHistoryItem| is_loadable(x)),
{
    let ghost all = items@;
    let mut pending = items;
    let mut r: Vec<ClipboardHistoryItem> = Vec::new();
    let mut back: Vec<ClipboardHistoryItem> = Vec::new();
    while pending.len() > 0
        invariant
            all == pending@ + back@.reverse(),
        decreases pending.len(),
    {
        let ghost b = back@;
        let ghost p = pending@;
        let x = pending.pop().unwrap();
        back.push(x);
        assert(b.push(x).reverse() =~= seq![x] + b.reverse());
        assert(p =~= pending@.push(x));
    }
    assert(back@.reverse() =~= all);
    assert(all.len() == back.len());
    let mut n: usize = 0;
    while back.len() > 0
        invariant
            n + back.len() == all.len(),
            all.len() <= usize::MAX,
            forall|j: int| 0 <= j < back.len() ==> #[trigger] back@[j] == all[all.len() - 1 - j],
            r@ == all.take(n as int).filter(|x: ClipboardHistoryItem| is_loadable(x)),
        decreases back.len(),
    {
        let ghost before = back@;
        let x = back.pop().unwrap();
        assert(x == all[n as int]);
        assert forall|j: int| 0 <= j < back.len() implies #[trigger] back@[j] == all[all.len() - 1 - j] by {
            assert(back@[j] == before[j]);
        }
        assert(all.take(n + 1) =~= all.take(n as int).push(x));
        proof {
            all.take(n as int).lemma_filter_push(x, |x: ClipboardHistoryItem| is_loadable(x));
        }
        let ok = match x.kind {
            ClipboardHistoryItemKind::Text => match &x.text {
                Some(t) => !t.as_str().is_empty(),
                None => false,
            },
            ClipboardHistoryItemKind::Image => x.image.is_some(),
        };
        if ok {
            r.push(x);
        }
        n += 1;
    }
    assert(all.take(all.len() as int) =~= all);
    r
}

/// What copying `item` back to the clipboard writes: its text, or the path of
/// its stored image.
pub fn copy_payload(item: &ClipboardHistoryItem) -> (r: Result<CopyPayload, HistoryError>)
    ensures
        match item.kind {
            ClipboardHistoryItemKind::Text => match item.text {
                Some(t) => r matches Ok(CopyPayload::Text(s)) && s@ == t@,
                None => r == Err::<CopyPayload, HistoryError>(HistoryError::TextMissing),
            },
            ClipboardHistoryItemKind::Image => match item.image {
                Some(img) => r matches Ok(CopyPayload::ImageFile(p)) && p@ == img.original_path@,
                None => r == Err::<CopyPayload, HistoryError>(HistoryError::ImageMissing),
            },
        },
{
    match item.kind {
        ClipboardHistoryItemKind::Text => match &item.text {
            Some(t) => Ok(CopyPayload::Text(t.clone())),
            None => Err(HistoryError::TextMissing),
        },
        ClipboardHistoryItemKind::Image => match &item.image {
            Some(img) => Ok(CopyPayload::ImageFile(img.original_path.clone())),
            None => Err(HistoryError::ImageMissing),
        },
    }
}

/// The history held in memory: settings, items newest first, and the hash of
/// the content read last.
pub struct ClipboardHistoryState {
    settings: ClipboardHistorySettings,
    items: Vec<ClipboardHistoryItem>,
    last_capture_hash: Option<String>,
}

impl ClipboardHistoryState {
    pub closed spec fn settings_view(&self) -> SettingsView {
        self.settings@
    }

    pub closed spec fn items_view(&self) -> Seq<ClipboardHistoryItem> {
        self.items@
    }

    pub closed spec fn last_hash(&self) -> Option<Seq<char>> {
        match self.last_capture_hash {
            Some(h) => Some(h@),
            None => None,
        }
    }

    pub closed spec fn max_items(&self) -> int {
        self.settings.max_items as int
    }

    /// The limit that the history is held to is the one in its settings.
    pub proof fn lemma_max_items(&self)
        ensures
            self.max_items() == self.settings_view().max_items,
    {
    }

    /// A history with normalized `settings` and the given items.
    pub fn new(settings: ClipboardHistorySettings, items: Vec<ClipboardHistoryItem>) -> (r: Self)
        ensures
            r.settings_view() == normalize_view(settings@),
            r.items_view() == items@,
            r.last_hash() is None,
    {
        ClipboardHistoryState { settings: settings.normalized(), items, last_capture_hash: None }
    }

    pub fn settings(&self) -> (r: &ClipboardHistorySettings)
        ensures
            r@ == self.settings_view(),
    {
        &self.settings
    }

    pub fn items(&self) -> (r: &Vec<ClipboardHistoryItem>)
        ensures
            r@ == self.items_view(),
    {
        &self.items
    }

    /// Drops items beyond the limit (see `limit_items`) and returns them.
    pub fn enforce_limit(&mut self) -> (removed: Vec<ClipboardHistoryItem>)
        ensures
            final(self).settings_view() == old(self).settings_view(),
            final(self).last_hash() == old(self).last_hash(),
            final(self).items_view() == limit_items(
                old(self).items_view(),
                old(self).settings_view().max_items as int,
            ),
            removed@ == over_limit_items(
                old(self).items_view(),
                old(self).settings_view().max_items as int,
            ),
    {
        let mut items: Vec<ClipboardHistoryItem> = Vec::new();
        std::mem::swap(&mut items, &mut self.items);
        let (kept, dropped) = split_at_limit(items, self.settings.max_items);
        self.items = kept;
        dropped
    }

    /// Replaces the settings by their normal form and applies the new limit;
    /// returns the items dropped.
    pub fn set_settings(&mut self, settings: ClipboardHistorySettings) -> (removed: Vec<
        ClipboardHistoryItem,
    >)
        ensures
            final(self).settings_view() == normalize_view(settings@),
            final(self).last_hash() == old(self).last_hash(),
            final(self).items_view() == limit_items(
                old(self).items_view(),
                normalize_view(settings@).max_items as int,
            ),
            removed@ == over_limit_items(
                old(self).items_view(),
                normalize_view(settings@).max_items as int,
            ),
    {
        self.settings = settings.normalized();
        self.enforce_limit()
    }

    /// A copy of the first item with the id `id`.
    pub fn find_item(&self, id: &str) -> (r: Result<ClipboardHistoryItem, HistoryError>)
        ensures
            match r {
                Ok(item) => exists|i: int|
                    is_first_id(self.items_view(), id@, i) && item == self.items_view()[i],
                Err(e) => e == HistoryError::ItemNotFound && !has_id(self.items_view(), id@),
            },
    {
        let wanted = chars_of(id);
        match position_by_id(&self.items, &wanted) {
            Some(i) => {
                let item = self.items[i].clone();
                assert(is_first_id(self.items_view(), id@, i as int) && item == self.items_view()[i as int]);
                Ok(item)
            },
            None => Err(HistoryError::ItemNotFound),
        }
    }

    /// Flips the favorite flag of the first item with the id `id`.
    pub fn toggle_favorite(&mut self, id: &str) -> (r: Result<(), HistoryError>)
        ensures
            final(self).settings_view() == old(self).settings_view(),
            final(self).last_hash() == old(self).last_hash(),
            r is Ok <==> has_id(old(self).items_view(), id@),
            r is Err ==> r == Err::<(), HistoryError>(HistoryError::ItemNotFound)
                && final(self).items_view() == old(self).items_view(),
            r is Ok ==> exists|i: int|
                is_first_id(old(self).items_view(), id@, i) && final(self).items_view()
                    == old(self).items_view().update(
                    i,
                    with_favorite(old(self).items_view()[i], !old(self).items_view()[i].favorite),
                ),
    {
        let wanted = chars_of(id);
        match position_by_id(&self.items, &wanted) {
            Some(i) => {
                let ghost before = self.items@;
                let mut item = self.items.remove(i);
                item.favorite = !item.favorite;
                self.items.insert(i, item);
                assert(self.items@ =~= before.update(
                    i as int,
                    with_favorite(before[i as int], !before[i as int].favorite),
                ));
                assert(is_first_id(old(self).items_view(), id@, i as int));
                assert(self.items_view() == old(self).items_view().update(
                    i as int,
                    with_favorite(old(self).items_view()[i as int], !old(self).items_view()[i as int].favorite),
                ));
                Ok(())
            },
            None => Err(HistoryError::ItemNotFound),
        }
    }

    /// Removes the first item with the id `id` and returns it.
    pub fn delete_item(&mut self, id: &str) -> (r: Option<ClipboardHistoryItem>)
        ensures
            final(self).settings_view() == old(self).settings_view(),
            final(self).last_hash() == old(self).last_hash(),
            r is Some <==> has_id(old(self).items_view(), id@),
            r is None ==> final(self).items_view() == old(self).items_view(),
            r is Some ==> exists|i: int|
                is_first_id(old(self).items_view(), id@, i) && r == Some(
                    old(self).items_view()[i],
                ) && final(self).items_view() == old(self).items_view().remove(i),
    {
        let wanted = chars_of(id);
        match position_by_id(&self.items, &wanted) {
            Some(i) => Some(self.items.remove(i)),
            None => None,
        }
    }

    /// Keeps only the favorites; returns the other items, in order.
    pub fn clear(&mut self) -> (removed: Vec<ClipboardHistoryItem>)
        ensures
            final(self).settings_view() == old(self).settings_view(),
            final(self).last_hash() == old(self).last_hash(),
            final(self).items_view() == old(self).items_view().filter(
                |x: ClipboardHistoryItem| is_favorite(x),
            ),
            removed@ == old(self).items_view().filter(|x: ClipboardHistoryItem| not_favorite(x)),
    {
        let mut items: Vec<ClipboardHistoryItem> = Vec::new();
        std::mem::swap(&mut items, &mut self.items);
        let ghost all = items@;
        let mut pending = items;
        let mut back: Vec<ClipboardHistoryItem> = Vec::new();
        while pending.len() > 0
            invariant
                all == pending@ + back@.reverse(),
            decreases pending.len(),
        {
            let ghost b = back@;
            let ghost p = pending@;
            let x = pending.pop().unwrap();
            back.push(x);
            assert(b.push(x).reverse() =~= seq![x] + b.reverse());
            assert(p =~= pending@.push(x));
        }
        assert(back@.reverse() =~= all);
    assert(all.len() == back.len());
        let mut kept: Vec<ClipboardHistoryItem> = Vec::new();
        let mut removed: Vec<ClipboardHistoryItem> = Vec::new();
        let mut n: usize = 0;
        while back.len() > 0
            invariant
                n + back.len() == all.len(),
                all.len() <= usize::MAX,
                forall|j: int| 0 <= j < back.len() ==> #[trigger] back@[j] == all[all.len() - 1 - j],
                kept@ == all.take(n as int).filter(|x: ClipboardHistoryItem| is_favorite(x)),
                removed@ == all.take(n as int).filter(|x: ClipboardHistoryItem| not_favorite(x)),
            decreases back.len(),
        {
            let ghost before = back@;
            let x = back.pop().unwrap();
            assert(x == all[n as int]);
            assert forall|j: int| 0 <= j < back.len() implies #[trigger] back@[j] == all[all.len() - 1 - j] by {
                assert(back@[j] == before[j]);
            }
            assert(all.take(n + 1) =~= all.take(n as int).push(x));
            proof {
                all.take(n as int).lemma_filter_push(x, |x: ClipboardHistoryItem| is_favorite(x));
                all.take(n as int).lemma_filter_push(x, |x: ClipboardHistoryItem| not_favorite(x));
            }
            if x.favorite {
                kept.push(x);
            } else {
                removed.push(x);
            }
            n += 1;
        }
        assert(all.take(all.len() as int) =~= all);
        self.items = kept;
        removed
    }

    /// Records that the content with hash `hash` was copied back at `now`: it
    /// is the content seen last, and its item (the first with that hash, if
    /// any) moves to the front. Returns whether an item moved.
    pub fn mark_copied(&mut self, hash: &str, now: i64) -> (moved: bool)
        ensures
            final(self).settings_view() == old(self).settings_view(),
            final(self).last_hash() == Some(hash@),
            moved == has_hash(old(self).items_view(), hash@),
            !moved ==> final(self).items_view() == old(self).items_view(),
            moved ==> exists|i: int|
                is_first_hash(old(self).items_view(), hash@, i) && final(self).items_view()
                    == move_to_front(old(self).items_view(), i, now),
    {
        self.last_capture_hash = Some(string_from(hash));
        let wanted = chars_of(hash);
        match position_by_hash(&self.items, &wanted) {
            Some(i) => {
                assert(self.items_view() == old(self).items_view());
                assert(is_first_hash(old(self).items_view(), hash@, i as int));
                self.move_item_to_front(i, now);
                true
            },
            None => false,
        }
    }

    fn move_item_to_front(&mut self, i: usize, now: i64)
        requires
            i < old(self).items_view().len(),
        ensures
            final(self).settings_view() == old(self).settings_view(),
            final(self).last_hash() == old(self).last_hash(),
            final(self).items_view() == move_to_front(old(self).items_view(), i as int, now),
    {
        let ghost before = self.items@;
        let mut item = self.items.remove(i);
        item.copied_at = now;
        self.items.insert(0, item);
        assert(self.items@ =~= move_to_front(before, i as int, now));
    }

    /// Decides what to do with a content with hash `hash` read at `now`; see
    /// `CaptureStep`. The hash becomes the one seen last.
    pub fn begin_capture(&mut self, hash: &str, now: i64) -> (step: CaptureStep)
        ensures
            final(self).settings_view() == old(self).settings_view(),
            old(self).last_hash() == Some(hash@) ==> step == CaptureStep::Unchanged && final(self).items_view() == old(self).items_view() && final(self).last_hash() == old(self).last_hash(),
            old(self).last_hash() != Some(hash@) ==> final(self).last_hash() == Some(hash@) && ({
                let items = old(self).items_view();
                if items.len() > 0 && items[0].hash@ == hash@ && saturating_sub_i64(
                    now,
                    items[0].copied_at,
                ) <= SHORT_DUPLICATE_WINDOW_MS {
                    step == CaptureStep::Unchanged && final(self).items_view() == items
                } else if has_hash(items, hash@) {
                    step == CaptureStep::Moved && exists|i: int|
                        is_first_hash(items, hash@, i) && final(self).items_view()
                            == move_to_front(items, i, now)
                } else {
                    step == CaptureStep::Insert && final(self).items_view() == items
                }
            }),
    {
        let wanted = chars_of(hash);
        if let Some(last) = &self.last_capture_hash {
            let last_chars = chars_of(last.as_str());
            if chars_eq(&last_chars, &wanted) {
                return CaptureStep::Unchanged;
            }
        }
        self.last_capture_hash = Some(string_from(hash));
        if self.items.len() > 0 {
            let first_hash = chars_of(self.items[0].hash.as_str());
            let elapsed: i128 = (now as i128) - (self.items[0].copied_at as i128);
            let elapsed_saturated: i128 = if elapsed < (i64::MIN as i128) {
                i64::MIN as i128
            } else if elapsed > (i64::MAX as i128) {
                i64::MAX as i128
            } else {
                elapsed
            };
            if chars_eq(&first_hash, &wanted) && elapsed_saturated <= (SHORT_DUPLICATE_WINDOW_MS
                as i128) {
                return CaptureStep::Unchanged;
            }
        }
        match position_by_hash(&self.items, &wanted) {
            Some(i) => {
                self.move_item_to_front(i, now);
                CaptureStep::Moved
            },
            None => CaptureStep::Insert,
        }
    }

    /// Puts a new item at the front and applies the limit; returns the items
    /// dropped.
    pub fn insert_item(&mut self, item: ClipboardHistoryItem) -> (removed: Vec<
        ClipboardHistoryItem,
    >)
        ensures
            final(self).settings_view() == old(self).settings_view(),
            final(self).last_hash() == old(self).last_hash(),
            final(self).items_view() == limit_items(
                seq![item] + old(self).items_view(),
                old(self).settings_view().max_items as int,
            ),
            removed@ == over_limit_items(
                seq![item] + old(self).items_view(),
                old(self).settings_view().max_items as int,
            ),
    {
        let ghost before = self.items@;
        self.items.insert(0, item);
        assert(self.items@ =~= seq![item] + before);
        self.enforce_limit()
    }

    /// What the user is shown, with which page shortcuts are registered.
    pub fn snapshot(&self, registry: &HotkeyRegistry) -> (r: ClipboardHistorySnapshot)
        ensures
            r.settings@ == self.settings_view(),
            r.items@ == self.items_view(),
            r.clipboard_shortcut_registered == exists|id: i32|
                registry.map().contains_key(id) && registry.map()[id]
                    == self.settings_view().shortcut,
            r.agent_shortcut_registered == exists|id: i32|
                registry.map().contains_key(id) && registry.map()[id]
                    == self.settings_view().agent_shortcut,
            r.todo_shortcut_registered == exists|id: i32|
                registry.map().contains_key(id) && registry.map()[id]
                    == self.settings_view().todo_shortcut,
            r.music_shortcut_registered == exists|id: i32|
                registry.map().contains_key(id) && registry.map()[id]
                    == self.settings_view().music_shortcut,
    {
        let settings = ClipboardHistorySettings {
            enabled: self.settings.enabled,
            capture_images: self.settings.capture_images,
            max_items: self.settings.max_items,
            shortcut: self.settings.shortcut.clone(),
            agent_shortcut: self.settings.agent_shortcut.clone(),
            todo_shortcut: self.settings.todo_shortcut.clone(),
            music_shortcut: self.settings.music_shortcut.clone(),
        };
        let mut items: Vec<ClipboardHistoryItem> = Vec::new();
        let mut i: usize = 0;
        while i < self.items.len()
            invariant
                i <= self.items.len(),
                items@ == self.items@.take(i as int),
            decreases self.items.len() - i,
        {
            items.push(self.items[i].clone());
            assert(self.items@.take(i as int).push(self.items@[i as int]) =~= self.items@.take(
                i + 1,
            ));
            i += 1;
        }
        assert(self.items@.take(self.items.len() as int) =~= self.items@);
        ClipboardHistorySnapshot {
            clipboard_shortcut_registered: registry.shortcut_is_registered(
                self.settings.shortcut.as_str(),
            ),
            agent_shortcut_registered: registry.shortcut_is_registered(
                self.settings.agent_shortcut.as_str(),
            ),
            todo_shortcut_registered: registry.shortcut_is_registered(
                self.settings.todo_shortcut.as_str(),
            ),
            music_shortcut_registered: registry.shortcut_is_registered(
                self.settings.music_shortcut.as_str(),
            ),
            settings,
            items,
        }
    }
}

// ---------------------------------------------------------------------------
// Laws of the history
// ---------------------------------------------------------------------------

/// Toggling the favorite flag of the same item twice restores the items.
pub proof fn lemma_toggle_favorite_twice(items: Seq<ClipboardHistoryItem>, id: Seq<char>, i: int)
    requires
        is_first_id(items, id, i),
    ensures
        ({
            let once = items.update(i, with_favorite(items[i], !items[i].favorite));
            &&& is_first_id(once, id, i)
            &&& once.update(i, with_favorite(once[i], !once[i].favorite)) == items
        }),
{
    let once = items.update(i, with_favorite(items[i], !items[i].favorite));
    assert forall|j: int| 0 <= j < i implies (#[trigger] once[j]).id@ != id by {
        assert(once[j] == items[j]);
    }
    assert(once.update(i, with_favorite(once[i], !once[i].favorite)) =~= items);
}

proof fn lemma_limit_prefix_from_items(
    items: Seq<ClipboardHistoryItem>,
    max: int,
    n: int,
    keep: bool,
)
    requires
        0 <= n <= items.len(),
        hashes_distinct(items),
    ensures
        hashes_distinct(limit_prefix(items, max, n, keep)),
        forall|k: int|
            0 <= k < limit_prefix(items, max, n, keep).len() ==> exists|j: int|
                0 <= j < n && #[trigger] limit_prefix(items, max, n, keep)[k] == items[j],
    decreases n,
{
    if n > 0 {
        lemma_limit_prefix_from_items(items, max, n - 1, keep);
        let r = limit_prefix(items, max, n - 1, keep);
        let out = limit_prefix(items, max, n, keep);
        if kept_under_limit(items, max, n - 1) == keep {
            assert forall|k: int|
                0 <= k < out.len() implies exists|j: int| 0 <= j < n && #[trigger] out[k] == items[j] by {
                if k < r.len() {
                    assert(out[k] == r[k]);
                    let j = choose|j: int| 0 <= j < n - 1 && #[trigger] r[k] == items[j];
                    assert(out[k] == items[j]);
                } else {
                    assert(out[k] == items[n - 1]);
                }
            }
            assert forall|a: int, b: int|
                0 <= a < out.len() && 0 <= b < out.len() && a != b implies (#[trigger] out[a]).hash@
                    != (#[trigger] out[b]).hash@ by {
                if a < r.len() && b < r.len() {
                    assert(out[a] == r[a] && out[b] == r[b]);
                } else if a < r.len() {
                    assert(out[a] == r[a]);
                    let j = choose|j: int| 0 <= j < n - 1 && #[trigger] r[a] == items[j];
                    assert(items[j].hash@ != items[n - 1].hash@);
                } else {
                    assert(out[b] == r[b]);
                    let j = choose|j: int| 0 <= j < n - 1 && #[trigger] r[b] == items[j];
                    assert(items[j].hash@ != items[n - 1].hash@);
                }
            }
        } else {
            assert forall|k: int|
                0 <= k < out.len() implies exists|j: int| 0 <= j < n && #[trigger] out[k] == items[j] by {
                let j = choose|j: int| 0 <= j < n - 1 && #[trigger] r[k] == items[j];
                assert(out[k] == items[j]);
            }
        }
    }
}

/// The limit keeps no two items with the same content when there were none.
pub proof fn lemma_limit_keeps_hashes_distinct(items: Seq<ClipboardHistoryItem>, max: int)
    requires
        hashes_distinct(items),
    ensures
        hashes_distinct(limit_items(items, max)),
{
    lemma_limit_prefix_from_items(items, max, items.len() as int, true);
}

/// Moving an item to the front keeps the contents distinct.
pub proof fn lemma_move_keeps_hashes_distinct(items: Seq<ClipboardHistoryItem>, i: int, t: i64)
    requires
        hashes_distinct(items),
        0 <= i < items.len(),
    ensures
        hashes_distinct(move_to_front(items, i, t)),
        move_to_front(items, i, t).len() == items.len(),
        move_to_front(items, i, t)[0].hash@ == items[i].hash@,
{
    let m = move_to_front(items, i, t);
    let rest = items.remove(i);
    assert forall|a: int, b: int|
        0 <= a < m.len() && 0 <= b < m.len() && a != b implies (#[trigger] m[a]).hash@
            != (#[trigger] m[b]).hash@ by {
        let ia = if a == 0 { i } else if a - 1 < i { a - 1 } else { a };
        let ib = if b == 0 { i } else if b - 1 < i { b - 1 } else { b };
        assert(m[a].hash@ == items[ia].hash@);
        assert(m[b].hash@ == items[ib].hash@);
    }
}

/// Inserting a content that the history does not hold keeps the contents
/// distinct.
pub proof fn lemma_insert_keeps_hashes_distinct(
    items: Seq<ClipboardHistoryItem>,
    x: ClipboardHistoryItem,
    max: int,
)
    requires
        hashes_distinct(items),
        !has_hash(items, x.hash@),
    ensures
        hashes_distinct(limit_items(seq![x] + items, max)),
{
    let all = seq![x] + items;
    assert forall|a: int, b: int|
        0 <= a < all.len() && 0 <= b < all.len() && a != b implies (#[trigger] all[a]).hash@
            != (#[trigger] all[b]).hash@ by {
        if a == 0 {
            assert(all[b] == items[b - 1]);
        } else if b == 0 {
            assert(all[a] == items[a - 1]);
        } else {
            assert(all[a] == items[a - 1] && all[b] == items[b - 1]);
        }
    }
    lemma_limit_keeps_hashes_distinct(all, max);
}

proof fn lemma_limit_prefix_first(items: Seq<ClipboardHistoryItem>, max: int, n: int)
    requires
        1 <= n <= items.len(),
        kept_under_limit(items, max, 0),
    ensures
        limit_prefix(items, max, n, true).len() >= 1,
        limit_prefix(items, max, n, true)[0] == items[0],
    decreases n,
{
    if n > 1 {
        lemma_limit_prefix_first(items, max, n - 1);
    } else {
        assert(limit_prefix(items, max, 0, true) =~= Seq::<ClipboardHistoryItem>::empty());
    }
}

/// A new non-favorite item ends up first, unless favorites alone fill the limit.
pub proof fn lemma_inserted_item_first(
    items: Seq<ClipboardHistoryItem>,
    x: ClipboardHistoryItem,
    max: int,
)
    requires
        !x.favorite,
        count_favorite(items, true) < max,
    ensures
        limit_items(seq![x] + items, max).len() >= 1,
        limit_items(seq![x] + items, max)[0] == x,
{
    let all = seq![x] + items;
    assert(all.take(0) =~= Seq::<ClipboardHistoryItem>::empty());
    lemma_count_prefix_front(x, items);
    lemma_limit_prefix_first(all, max, all.len() as int);
}

proof fn lemma_count_prefix_front(x: ClipboardHistoryItem, items: Seq<ClipboardHistoryItem>)
    requires
        !x.favorite,
    ensures
        count_favorite(seq![x] + items, true) == count_favorite(items, true),
    decreases items.len(),
{
    if items.len() == 0 {
        assert(seq![x] + items =~= seq![x]);
        assert(seq![x].drop_last() =~= Seq::<ClipboardHistoryItem>::empty());
    } else {
        lemma_count_prefix_front(x, items.drop_last());
        assert((seq![x] + items).drop_last() =~= seq![x] + items.drop_last());
    }
}

} // verus!
