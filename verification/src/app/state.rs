//! The application's state and the operations on it.
//!
//! Every operation is a plain function of the state and its arguments. The
//! clock is read by the caller and handed in as milliseconds; what has to
//! happen outside the state (starting and stopping the background refresh)
//! is handed back as a list of commands.

use vstd::prelude::*;
use vstd::view::View as _;
use std::collections::VecDeque;
use crate::api::models::{product_of, BazaarResponse, Price, Product};
use crate::app::catalog::{
    distinct_keys, entries, inserted, inserted_all, lemma_inserted, lemma_inserted_all, lookup,
    map_get, map_insert, map_key_at, map_len, map_new, Entry, ProductMap,
};
use crate::app::ranking::{
    all_indices, blank, descending_order, is_blank, is_descending_order, lemma_distinct_below,
    lemma_sorted_unique, rank_matches, ranks_before, sorts_before, strictly_sorted,
};
use crate::app::search::{score, MAX_QUERY_LEN, MIN_SCORE};
use crate::util::{normalize, normalized, pretty, pretty_name};

verus! {

/// Number of points that the price history of a detail session holds.
pub const HISTORY_CAPACITY: usize = 256;

/// Seconds between two polls of the background refresh.
pub const REFRESH_PERIOD_SECS: u64 = 3;

/// One point of the price history: the time it was taken, in milliseconds of
/// the caller's clock, then the buy price and the sell price.
pub type HistoryPoint = (u64, Price, Price);

/// How keys are read in the search view.
#[derive(Debug, Clone, Copy, PartialEq, Eq, Structural)]
pub enum SearchMode {
    Insert,
    Navigate,
}

/// Which view is shown.
#[derive(Debug, Clone, Copy, PartialEq, Eq, Structural)]
pub enum View {
    Search,
    Detail,
}

/// One entry of the search index: a product's id, its display name, and the
/// normal form of the display name, which every score is computed from.
#[derive(Debug, Clone)]
pub struct ProductIndexItem {
    pub id: String,
    pub display: String,
    pub norm_display: String,
}

/// The products of the session: the map by id, and the index built from the
/// map's ids when the session began.
#[derive(Debug)]
pub struct BazaarData {
    pub products: ProductMap,
    pub last_updated: i64,
    pub index: Vec<ProductIndexItem>,
}

/// The state of the search view.
#[derive(Debug)]
pub struct SearchState {
    pub input: String,
    pub mode: SearchMode,
    pub filtered_indices: Vec<usize>,
    pub selected_index: usize,
    pub needs_filter: bool,
    pub last_input_change: u64,
    pub sort_by_spread: bool,
}

/// The state of the detail view.
#[derive(Debug)]
pub struct DetailState {
    pub product_id: Option<String>,
    pub history: VecDeque<HistoryPoint>,
    pub show_percent: bool,
    pub show_sma: bool,
    pub show_midline: bool,
    /// The product that the running background refresh polls; `None` while
    /// none runs.
    pub refresh: Option<String>,
}

/// What the caller has to do to the background refresh.
#[derive(Debug, Clone, PartialEq, Eq)]
pub enum RefreshCommand {
    /// Cancel the running poll.
    Stop,
    /// Poll the product with this id every `REFRESH_PERIOD_SECS` seconds.
    Start(String),
    /// Fetch the product with this id once.
    FetchOnce(String),
}

/// The whole state of the application.
#[derive(Debug)]
pub struct App {
    pub view: View,
    pub status: String,
    pub data: BazaarData,
    pub search: SearchState,
    pub detail: DetailState,
}

/// Milliseconds from `since` to `now`; zero where `now` is the earlier.
pub open spec fn elapsed(since: u64, now: u64) -> int {
    if now >= since {
        now - since
    } else {
        0
    }
}

/// The selection for a result list of `count` entries: the previous one
/// where it still fits, else the last entry; zero for an empty list.
pub open spec fn clamped(selected: int, count: int) -> int {
    if count == 0 {
        0
    } else if selected < count {
        selected
    } else {
        count - 1
    }
}

/// The selection after a move by `delta` in a list of `count` entries.
pub open spec fn moved(selected: int, delta: int, count: int) -> int {
    if count == 0 {
        selected
    } else if selected + delta < 0 {
        0
    } else if selected + delta > count - 1 {
        count - 1
    } else {
        selected + delta
    }
}

/// The history after one more point: at capacity the oldest point leaves first.
pub open spec fn pushed(history: Seq<HistoryPoint>, point: HistoryPoint) -> Seq<HistoryPoint> {
    if history.len() >= HISTORY_CAPACITY {
        history.drop_first().push(point)
    } else {
        history.push(point)
    }
}

/// The history after a list of points, one after the other.
pub open spec fn pushed_all(history: Seq<HistoryPoint>, points: Seq<HistoryPoint>) -> Seq<
    HistoryPoint,
>
    decreases points.len(),
{
    if points.len() == 0 {
        history
    } else {
        pushed(pushed_all(history, points.drop_last()), points.last())
    }
}

/// The last `HISTORY_CAPACITY` of a list of points, or all of them where
/// there are no more.
pub open spec fn most_recent(points: Seq<HistoryPoint>) -> Seq<HistoryPoint> {
    if points.len() > HISTORY_CAPACITY {
        points.skip(points.len() - HISTORY_CAPACITY)
    } else {
        points
    }
}

/// A history within its capacity that is fed a list of points holds the most
/// recent points of all, in their order, and stays within its capacity.
pub proof fn lemma_history_keeps_most_recent(history: Seq<HistoryPoint>, points: Seq<HistoryPoint>)
    requires
        history.len() <= HISTORY_CAPACITY,
    ensures
        pushed_all(history, points) == most_recent(history + points),
        pushed_all(history, points).len() <= HISTORY_CAPACITY,
    decreases points.len(),
{
    if points.len() == 0 {
        assert(history + points == history);
    } else {
        let earlier = points.drop_last();
        lemma_history_keeps_most_recent(history, earlier);
        let all = history + points;
        assert(all == (history + earlier).push(points.last()));
        assert(pushed_all(history, points) == most_recent(all));
    }
}

/// The commands that stop the running poll, if one runs.
pub open spec fn stop_commands(refresh: Option<String>) -> Seq<RefreshCommand> {
    if refresh is Some {
        seq![RefreshCommand::Stop]
    } else {
        Seq::empty()
    }
}

/// The status line while the product with the given id is refreshed.
pub open spec fn refresh_status(id: Seq<char>) -> Seq<char> {
    "Detail: "@ + id + " (refreshing every 3s)"@
}

/// How `enter_detail` takes the state from `pre` to `post`.
pub open spec fn entered(pre: App, post: App, now: u64, commands: Seq<RefreshCommand>) -> bool {
    match pre.selected_entry() {
        None => post == pre && commands == Seq::<RefreshCommand>::empty(),
        Some(i) => {
            let id = pre.data.index@[i].id;
            &&& commands == stop_commands(pre.detail.refresh).push(RefreshCommand::Start(id))
            &&& post.status@ == refresh_status(id@)
            &&& post.detail.history@ == match lookup(entries(pre.data.products), id@) {
                Some(p) => seq![(now, p.quick_status.buy_price, p.quick_status.sell_price)],
                None => Seq::<HistoryPoint>::empty(),
            }
            &&& post == (App {
                view: View::Detail,
                status: post.status,
                detail: DetailState {
                    product_id: Some(id),
                    history: post.detail.history,
                    refresh: Some(id),
                    ..pre.detail
                },
                ..pre
            })
        },
    }
}

/// How `update_product` takes the state from `pre` to `post`.
pub open spec fn updated(pre: App, post: App, p: Product, now: u64) -> bool {
    let shown = pre.detail.product_id matches Some(id) && id@ == p.product_id@;
    &&& entries(post.data.products) == inserted(entries(pre.data.products), p.product_id@, p)
    &&& shown ==> post.status@ == "Updated"@ && post.detail.history@ == pushed(
        pre.detail.history@,
        (now, p.quick_status.buy_price, p.quick_status.sell_price),
    )
    &&& !shown ==> post.status == pre.status && post.detail.history == pre.detail.history
    &&& post == (App {
        status: post.status,
        data: BazaarData { products: post.data.products, ..pre.data },
        detail: DetailState { history: post.detail.history, ..pre.detail },
        ..pre
    })
}

/// `out` holds the entries of `list` in the order that `order` gives, and
/// `order` lists the positions of `list` by descending key, equal keys in
/// the order of their positions.
pub open spec fn reordering(out: Seq<usize>, list: Seq<usize>, keys: Seq<i128>, order: Seq<usize>) -> bool {
    &&& is_descending_order(order, keys)
    &&& keys.len() == list.len()
    &&& out.len() == list.len()
    &&& forall|k: int| 0 <= k < out.len() ==> #[trigger] out[k] == list[order[k] as int]
}

/// What the caller's refresh is after it has carried out the commands in
/// order, given the product that it polled before; `None` where a command
/// would start a poll while another one runs.
pub open spec fn carried_out(running: Option<String>, commands: Seq<RefreshCommand>) -> Option<
    Option<String>,
>
    decreases commands.len(),
{
    if commands.len() == 0 {
        Some(running)
    } else {
        match commands[0] {
            RefreshCommand::Stop => carried_out(None, commands.drop_first()),
            RefreshCommand::Start(id) => if running is Some {
                None
            } else {
                carried_out(Some(id), commands.drop_first())
            },
            RefreshCommand::FetchOnce(_) => carried_out(running, commands.drop_first()),
        }
    }
}

/// Stopping what runs leaves nothing running.
pub proof fn lemma_stop_carried_out(running: Option<String>)
    ensures
        carried_out(running, stop_commands(running)) == Some(None::<String>),
{
    reveal_with_fuel(carried_out, 3);
    let commands = stop_commands(running);
    if running is Some {
        assert(commands.drop_first() == Seq::<RefreshCommand>::empty());
    }
}

/// Stopping what runs and then starting a poll leaves that one poll running.
pub proof fn lemma_restart_carried_out(running: Option<String>, id: String)
    ensures
        carried_out(running, stop_commands(running).push(RefreshCommand::Start(id))) == Some(
            Some(id),
        ),
{
    reveal_with_fuel(carried_out, 3);
    let commands = stop_commands(running).push(RefreshCommand::Start(id));
    let started = seq![RefreshCommand::Start(id)];
    assert(started.drop_first() == Seq::<RefreshCommand>::empty());
    assert(carried_out(None, started) == Some(Some(id)));
    if running is Some {
        assert(commands.drop_first() == started);
    } else {
        assert(commands == started);
    }
}

/// The index holds, for each of the map's first entries in order, the id,
/// the display name made from it and that name's normal form.
pub open spec fn index_of_entries(index: Seq<ProductIndexItem>, es: Seq<Entry>) -> bool {
    &&& index.len() <= es.len()
    &&& forall|i: int|
        0 <= i < index.len() ==> {
            &&& (#[trigger] index[i]).id@ == es[i].0
            &&& index[i].display@ == pretty(es[i].0)
            &&& index[i].norm_display@ == normalized(pretty(es[i].0))
        }
}

impl App {
    /// The invariant of the state: the selection lies in the result list,
    /// the result list holds entries of the index, each once, the history
    /// keeps to its capacity, the index matches the map, a product is shown
    /// exactly in the detail view, and a refresh polls the product shown.
    pub open spec fn wf(&self) -> bool {
        &&& self.search.selected_index == clamped(
            self.search.selected_index as int,
            self.search.filtered_indices@.len() as int,
        )
        &&& forall|k: int|
            0 <= k < self.search.filtered_indices@.len() ==> (
            #[trigger] self.search.filtered_indices@[k]) < self.data.index@.len()
        &&& self.search.filtered_indices@.no_duplicates()
        &&& self.detail.history@.len() <= HISTORY_CAPACITY
        &&& index_of_entries(self.data.index@, entries(self.data.products))
        &&& distinct_keys(entries(self.data.products))
        &&& (self.view == View::Detail <==> self.detail.product_id is Some)
        &&& (self.detail.refresh is Some ==> self.detail.refresh == self.detail.product_id)
    }

    /// The query that the results are ranked for.
    pub open spec fn query(&self) -> Seq<char> {
        normalized(self.search.input@)
    }

    /// Whether entry `i` of the index belongs to the results: every entry
    /// does while the input is blank, else those that score above `MIN_SCORE`.
    pub open spec fn matches(&self, i: int) -> bool {
        blank(self.search.input@) || score(self.query(), self.data.index@[i].norm_display@)
            > MIN_SCORE
    }

    /// The order of relevance: index order while the input is blank, else
    /// the higher score first and equal scores in index order.
    pub open spec fn relevance_before(&self, x: int, y: int) -> bool {
        if blank(self.search.input@) {
            x < y
        } else {
            ranks_before(self.query(), self.data.index@, x, y)
        }
    }

    /// The spread of entry `i` of the index: sell price minus buy price of
    /// its product, zero where the map holds no product under its id.
    pub open spec fn spread_at(&self, i: int) -> int {
        if 0 <= i < self.data.index@.len() {
            match lookup(entries(self.data.products), self.data.index@[i].id@) {
                Some(p) => p.quick_status.spread(),
                None => 0,
            }
        } else {
            0
        }
    }

    /// The order of the results: by relevance, or, while sorting by spread
    /// is on, the greater spread first and equal spreads by relevance.
    pub open spec fn shown_before(&self, x: int, y: int) -> bool {
        if self.search.sort_by_spread {
            self.spread_at(x) > self.spread_at(y) || (self.spread_at(x) == self.spread_at(y)
                && self.relevance_before(x, y))
        } else {
            self.relevance_before(x, y)
        }
    }

    /// `out` is the result list of this state: the matching entries of the
    /// index, each once and no other, in the order of the results.
    pub open spec fn is_filter_result(&self, out: Seq<usize>) -> bool {
        &&& out.no_duplicates()
        &&& forall|k: int|
            0 <= k < out.len() ==> (#[trigger] out[k]) < self.data.index@.len() && self.matches(
                out[k] as int,
            )
        &&& forall|i: usize|
            i < self.data.index@.len() && self.matches(i as int) ==> #[trigger] out.contains(i)
        &&& forall|a: int, b: int|
            0 <= a < b < out.len() ==> self.shown_before(
                #[trigger] out[a] as int,
                #[trigger] out[b] as int,
            )
    }

    /// The state after the query was edited to `input` at time `now`: the
    /// results are marked as stale and the time is noted.
    pub open spec fn with_input(self, input: String, now: u64) -> App {
        App {
            search: SearchState {
                input,
                needs_filter: true,
                last_input_change: now,
                ..self.search
            },
            ..self
        }
    }

    /// The state with another result list and selection.
    pub open spec fn with_results(self, filtered_indices: Vec<usize>, selected_index: usize) -> App {
        App { search: SearchState { filtered_indices, selected_index, ..self.search }, ..self }
    }

    /// The state with its results marked as fresh.
    pub open spec fn with_fresh_results(self) -> App {
        App { search: SearchState { needs_filter: false, ..self.search }, ..self }
    }

    /// The spreads of the entries of a list, in the list's order.
    pub open spec fn spread_keys(&self, list: Seq<usize>) -> Seq<i128> {
        Seq::new(list.len(), |k: int| self.spread_at(list[k] as int) as i128)
    }

    /// `list` holds the matching entries of the index, each once and no
    /// other, in the order of relevance.
    pub open spec fn is_relevance_list(&self, list: Seq<usize>) -> bool {
        &&& list.no_duplicates()
        &&& forall|k: int|
            0 <= k < list.len() ==> (#[trigger] list[k]) < self.data.index@.len() && self.matches(
                list[k] as int,
            )
        &&& forall|i: usize|
            i < self.data.index@.len() && self.matches(i as int) ==> #[trigger] list.contains(i)
        &&& forall|a: int, b: int|
            0 <= a < b < list.len() ==> self.relevance_before(
                #[trigger] list[a] as int,
                #[trigger] list[b] as int,
            )
    }

    /// Whether stale results are due for a new ranking: the input has not
    /// changed for `debounce` milliseconds.
    pub open spec fn filter_due(&self, debounce: u64, now: u64) -> bool {
        self.search.needs_filter && elapsed(self.search.last_input_change, now) >= debounce
    }

    /// The entry of the index that the selection stands on, if there is one.
    pub open spec fn selected_entry(&self) -> Option<int> {
        let at = self.search.selected_index as int;
        let list = self.search.filtered_indices@;
        if at < list.len() && list[at] < self.data.index@.len() {
            Some(list[at] as int)
        } else {
            None
        }
    }

    /// Builds the state from the first snapshot: every product under its
    /// id, the index in the order of the map, all of it shown, the search
    /// view in insert mode with an empty query.
    pub fn new(response: BazaarResponse, now: u64) -> (app: App)
        ensures
            app.wf(),
            entries(app.data.products) == inserted_all(Seq::empty(), response.products@),
            forall|id: Seq<char>|
                #[trigger] lookup(entries(app.data.products), id) == product_of(
                    response.products@,
                    id,
                ),
            app.data.index@.len() == entries(app.data.products).len(),
            app.data.last_updated == response.last_updated,
            app.view == View::Search,
            app.status@ == "Loaded"@,
            app.search.input@ == Seq::<char>::empty(),
            app.search.mode == SearchMode::Insert,
            app.search.filtered_indices@.len() == app.data.index@.len(),
            forall|k: int|
                0 <= k < app.data.index@.len() ==> #[trigger] app.search.filtered_indices@[k] == k,
            app.search.selected_index == 0,
            app.search.needs_filter,
            app.search.last_input_change == now,
            !app.search.sort_by_spread,
            app.detail.product_id is None,
            app.detail.history@ == Seq::<HistoryPoint>::empty(),
            !app.detail.show_percent,
            app.detail.show_sma,
            !app.detail.show_midline,
            app.detail.refresh is None,
    {
        let last_updated = response.last_updated;
        let ghost pairs = response.products@;
        let mut products = map_new();
        let mut count: usize = 0;
        for pair in it: response.products
            invariant
                it.seq() == pairs,
                entries(products) == inserted_all(Seq::empty(), pairs.take(it.index())),
                distinct_keys(entries(products)),
        {
            proof {
                let done = pairs.take(it.index());
                assert(pairs.take(it.index() + 1).drop_last() == done);
                assert(pairs.take(it.index() + 1).last() == pair);
                lemma_inserted(entries(products), pair.0@, pair.1);
            }
            let (key, product) = pair;
            map_insert(&mut products, key, product);
        }
        proof {
            assert(pairs.take(pairs.len() as int) == pairs);
            assert forall|id: Seq<char>| #[trigger]
                lookup(entries(products), id) == product_of(pairs, id) by {
                lemma_inserted_all(pairs, id);
            }
        }
        let n = map_len(&products);
        let mut index: Vec<ProductIndexItem> = Vec::new();
        let mut i: usize = 0;
        while i < n
            invariant
                i <= n,
                n == entries(products).len(),
                index@.len() == i,
                index_of_entries(index@, entries(products)),
            decreases n - i,
        {
            match map_key_at(&products, i) {
                Some(key) => {
                    let id = key.clone();
                    let display = pretty_name(id.as_str());
                    let norm_display = normalize(display.as_str());
                    index.push(ProductIndexItem { id, display, norm_display });
                },
                None => {},
            }
            i += 1;
        }
        let filtered_indices = all_indices(n);
        App {
            view: View::Search,
            status: String::from_str("Loaded"),
            data: BazaarData { products, last_updated, index },
            search: SearchState {
                input: String::new(),
                mode: SearchMode::Insert,
                filtered_indices,
                selected_index: 0,
                needs_filter: true,
                last_input_change: now,
                sort_by_spread: false,
            },
            detail: DetailState {
                product_id: None,
                history: VecDeque::with_capacity(HISTORY_CAPACITY),
                show_percent: false,
                show_sma: true,
                show_midline: false,
                refresh: None,
            },
        }
    }

    /// The product shown in the detail view, if the map holds it.
    pub fn current_product(&self) -> (found: Option<&Product>)
        ensures
            match found {
                Some(p) => self.detail.product_id matches Some(id) && lookup(
                    entries(self.data.products),
                    id@,
                ) == Some(*p),
                None => self.detail.product_id matches Some(id) ==> lookup(
                    entries(self.data.products),
                    id@,
                ) is None,
            },
    {
        match &self.detail.product_id {
            Some(id) => map_get(&self.data.products, id.as_str()),
            None => None,
        }
    }

    /// Appends a character to the query.
    pub fn on_input(&mut self, ch: char, now: u64)
        ensures
            final(self).search.input@ == old(self).search.input@.push(ch),
            *final(self) == old(self).with_input(final(self).search.input, now),
            old(self).wf() ==> final(self).wf(),
    {
        self.search.input.push(ch);
        self.mark_input_changed(now);
    }

    /// Takes the last character off the query; an empty query stays empty.
    pub fn on_backspace(&mut self, now: u64)
        ensures
            final(self).search.input@ == if old(self).search.input@.len() > 0 {
                old(self).search.input@.drop_last()
            } else {
                old(self).search.input@
            },
            *final(self) == old(self).with_input(final(self).search.input, now),
            old(self).wf() ==> final(self).wf(),
    {
        self.search.input.pop();
        self.mark_input_changed(now);
    }

    /// Empties the query.
    pub fn on_delete(&mut self, now: u64)
        ensures
            final(self).search.input@ == Seq::<char>::empty(),
            *final(self) == old(self).with_input(final(self).search.input, now),
            old(self).wf() ==> final(self).wf(),
    {
        self.search.input.clear();
        self.mark_input_changed(now);
    }

    /// Marks the results as stale and notes the time of the edit.
    pub fn mark_input_changed(&mut self, now: u64)
        ensures
            *final(self) == old(self).with_input(old(self).search.input, now),
            old(self).wf() ==> final(self).wf(),
    {
        self.search.needs_filter = true;
        self.search.last_input_change = now;
    }

    /// Whether the query is short enough to be ranked for.
    pub fn query_fits(&self) -> (fits: bool)
        ensures
            fits == (self.search.input@.len() <= MAX_QUERY_LEN),
    {
        self.search.input.as_str().unicode_len() <= MAX_QUERY_LEN
    }

    /// Whether stale results are due for a new ranking.
    pub fn is_filter_due(&self, debounce: u64, now: u64) -> (due: bool)
        ensures
            due == self.filter_due(debounce, now),
    {
        let since = self.search.last_input_change;
        let waited = if now >= since {
            now - since
        } else {
            0
        };
        self.search.needs_filter && waited >= debounce
    }

    /// Ranks anew if the results are stale and the input has been left
    /// alone for `debounce` milliseconds; else nothing changes.
    pub fn maybe_apply_filter(&mut self, debounce: u64, now: u64)
        requires
            old(self).filter_due(debounce, now) ==> old(self).search.input@.len() <= MAX_QUERY_LEN,
        ensures
            old(self).filter_due(debounce, now) ==> {
                &&& old(self).is_filter_result(final(self).search.filtered_indices@)
                &&& final(self).search.selected_index == clamped(
                    old(self).search.selected_index as int,
                    final(self).search.filtered_indices@.len() as int,
                )
                &&& *final(self) == old(self).with_results(
                    final(self).search.filtered_indices,
                    final(self).search.selected_index,
                ).with_fresh_results()
            },
            !old(self).filter_due(debounce, now) ==> *final(self) == *old(self),
            old(self).wf() ==> final(self).wf(),
    {
        if self.is_filter_due(debounce, now) {
            self.apply_filter();
            self.search.needs_filter = false;
        }
    }

    /// Ranks anew at once, without regard to the debounce.
    pub fn recompute_filter(&mut self)
        requires
            old(self).search.input@.len() <= MAX_QUERY_LEN,
        ensures
            old(self).is_filter_result(final(self).search.filtered_indices@),
            final(self).search.selected_index == clamped(
                old(self).search.selected_index as int,
                final(self).search.filtered_indices@.len() as int,
            ),
            *final(self) == old(self).with_results(
                final(self).search.filtered_indices,
                final(self).search.selected_index,
            ),
            old(self).wf() ==> final(self).wf(),
    {
        self.apply_filter();
    }

    /// Computes the result list for the input and puts the selection back
    /// into it. A blank input shows the whole index in its order. Any other
    /// input is normalized and the index ranked for it. While sorting by
    /// spread is on, the results are then ordered by spread.
    pub fn apply_filter(&mut self)
        requires
            old(self).search.input@.len() <= MAX_QUERY_LEN,
        ensures
            old(self).is_filter_result(final(self).search.filtered_indices@),
            final(self).search.selected_index == clamped(
                old(self).search.selected_index as int,
                final(self).search.filtered_indices@.len() as int,
            ),
            *final(self) == old(self).with_results(
                final(self).search.filtered_indices,
                final(self).search.selected_index,
            ),
            old(self).wf() ==> final(self).wf(),
    {
        let ghost pre = *self;
        if is_blank(self.search.input.as_str()) {
            self.search.filtered_indices = all_indices(self.data.index.len());
            proof {
                let list = self.search.filtered_indices@;
                assert forall|i: usize| i < pre.data.index@.len() implies #[trigger] list.contains(
                    i,
                ) by {
                    assert(list[i as int] == i);
                }
            }
        } else {
            let query = normalize(self.search.input.as_str());
            self.search.filtered_indices = rank_matches(query.as_str(), &self.data.index);
        }
        let ghost relevant = self.search.filtered_indices@;
        let relevant_count = self.search.filtered_indices.len();
        assert(pre.is_relevance_list(relevant));
        if self.search.sort_by_spread {
            let ghost ranked = *self;
            self.sort_filtered_by_spread();
            proof {
                let out = self.search.filtered_indices@;
                let keys = ranked.spread_keys(relevant);
                let order = choose|order: Seq<usize>| reordering(out, relevant, keys, order);
                assert forall|a: int, b: int| 0 <= a < b < out.len() implies pre.shown_before(
                    #[trigger] out[a] as int,
                    #[trigger] out[b] as int,
                ) && out[a] != out[b] by {
                    assert(sorts_before(keys, order[a] as int, order[b] as int));
                    let x = order[a] as int;
                    let y = order[b] as int;
                    assert(out[a] == relevant[x]);
                    assert(out[b] == relevant[y]);
                    if x < y {
                        assert(pre.relevance_before(relevant[x] as int, relevant[y] as int));
                    } else {
                        assert(pre.relevance_before(relevant[y] as int, relevant[x] as int));
                    }
                }
                assert forall|i: usize|
                    i < pre.data.index@.len() && pre.matches(i as int) implies #[trigger] out.contains(
                    i,
                ) by {
                    assert(relevant.contains(i));
                    let at_relevant = choose|p: int| 0 <= p < relevant.len() && relevant[p] == i;
                    let p = at_relevant as usize;
                    assert(order.contains(p));
                    let at = choose|at: int| 0 <= at < order.len() && order[at] == p;
                    assert(out[at] == relevant[order[at] as int]);
                }
            }
        }
        let count = relevant_count;
        if count == 0 {
            self.search.selected_index = 0;
        } else if self.search.selected_index >= count {
            self.search.selected_index = count - 1;
        }
    }

    /// Orders the result list by spread, the greatest first; results with
    /// equal spreads keep their order.
    pub fn sort_filtered_by_spread(&mut self)
        ensures
            exists|order: Seq<usize>|
                reordering(
                    final(self).search.filtered_indices@,
                    old(self).search.filtered_indices@,
                    old(self).spread_keys(old(self).search.filtered_indices@),
                    order,
                ),
            *final(self) == old(self).with_results(
                final(self).search.filtered_indices,
                old(self).search.selected_index,
            ),
            old(self).wf() ==> final(self).wf(),
    {
        let count = self.search.filtered_indices.len();
        let mut keys: Vec<i128> = Vec::new();
        let mut k: usize = 0;
        while k < count
            invariant
                k <= count,
                count == self.search.filtered_indices@.len(),
                *self == *old(self),
                keys@ == old(self).spread_keys(old(self).search.filtered_indices@.take(k as int)),
            decreases count - k,
        {
            let s = self.get_spread(self.search.filtered_indices[k]);
            keys.push(s);
            proof {
                let list = old(self).search.filtered_indices@;
                assert(list.take(k + 1) == list.take(k as int).push(list[k as int]));
                assert(keys@ == old(self).spread_keys(list.take(k + 1)));
            }
            k += 1;
        }
        proof {
            let list = old(self).search.filtered_indices@;
            assert(list.take(count as int) == list);
        }
        let order = descending_order(&keys);
        let mut sorted: Vec<usize> = Vec::new();
        let mut k: usize = 0;
        while k < count
            invariant
                k <= count,
                count == self.search.filtered_indices@.len(),
                count == order@.len(),
                *self == *old(self),
                is_descending_order(order@, keys@),
                keys@.len() == count,
                sorted@.len() == k,
                forall|t: int|
                    0 <= t < k ==> #[trigger] sorted@[t] == self.search.filtered_indices@[order@[t] as int],
            decreases count - k,
        {
            sorted.push(self.search.filtered_indices[order[k]]);
            k += 1;
        }
        proof {
            assert(reordering(
                sorted@,
                old(self).search.filtered_indices@,
                old(self).spread_keys(old(self).search.filtered_indices@),
                order@,
            ));
            if old(self).wf() {
                assert forall|a: int, b: int|
                    0 <= a < sorted@.len() && 0 <= b < sorted@.len() && a != b implies sorted@[a]
                    != sorted@[b] by {
                    if a < b {
                        assert(sorts_before(keys@, order@[a] as int, order@[b] as int));
                    } else {
                        assert(sorts_before(keys@, order@[b] as int, order@[a] as int));
                    }
                }
            }
        }
        self.search.filtered_indices = sorted;
    }

    /// The spread of an entry of the index: sell price minus buy price of
    /// its product; zero where the index has no such entry or the map no
    /// product under its id.
    pub fn get_spread(&self, index: usize) -> (s: i128)
        ensures
            s == self.spread_at(index as int),
    {
        if index < self.data.index.len() {
            match map_get(&self.data.products, self.data.index[index].id.as_str()) {
                Some(p) => p.quick_status.get_spread(),
                None => 0,
            }
        } else {
            0
        }
    }

    /// Moves the selection by `delta` entries and keeps it inside the
    /// result list; nothing changes while the list is empty.
    pub fn move_selection(&mut self, delta: isize)
        ensures
            final(self).search.selected_index == moved(
                old(self).search.selected_index as int,
                delta as int,
                old(self).search.filtered_indices@.len() as int,
            ),
            *final(self) == old(self).with_results(
                old(self).search.filtered_indices,
                final(self).search.selected_index,
            ),
            old(self).wf() ==> final(self).wf(),
    {
        let count = self.search.filtered_indices.len();
        if count == 0 {
            return ;
        }
        let target: i128 = self.search.selected_index as i128 + delta as i128;
        if target < 0 {
            self.search.selected_index = 0;
        } else if target > (count - 1) as i128 {
            self.search.selected_index = count - 1;
        } else {
            self.search.selected_index = target as usize;
        }
    }

    /// Selects the first result; nothing changes while there is none.
    pub fn jump_to_top(&mut self)
        ensures
            final(self).search.selected_index == if old(self).search.filtered_indices@.len() > 0 {
                0
            } else {
                old(self).search.selected_index
            },
            *final(self) == old(self).with_results(
                old(self).search.filtered_indices,
                final(self).search.selected_index,
            ),
            old(self).wf() ==> final(self).wf(),
    {
        if self.search.filtered_indices.len() > 0 {
            self.search.selected_index = 0;
        }
    }

    /// Selects the last result; nothing changes while there is none.
    pub fn jump_to_bottom(&mut self)
        ensures
            final(self).search.selected_index == if old(self).search.filtered_indices@.len() > 0 {
                (old(self).search.filtered_indices@.len() - 1) as usize
            } else {
                old(self).search.selected_index
            },
            *final(self) == old(self).with_results(
                old(self).search.filtered_indices,
                final(self).search.selected_index,
            ),
            old(self).wf() ==> final(self).wf(),
    {
        let count = self.search.filtered_indices.len();
        if count > 0 {
            self.search.selected_index = count - 1;
        }
    }


    /// Opens the detail view on the selected result: the history starts
    /// anew with the product's current prices, if the map holds the product,
    /// and a refresh of the product is started. Without a selected result
    /// nothing changes and nothing is commanded.
    pub fn enter_detail(&mut self, now: u64) -> (commands: Vec<RefreshCommand>)
        ensures
            entered(*old(self), *final(self), now, commands@),
            carried_out(old(self).detail.refresh, commands@) == Some(final(self).detail.refresh),
            old(self).wf() ==> final(self).wf(),
    {
        proof {
            match self.selected_entry() {
                Some(i) => lemma_restart_carried_out(self.detail.refresh, self.data.index@[i].id),
                None => {},
            }
        }
        let at = self.search.selected_index;
        if at >= self.search.filtered_indices.len() {
            return Vec::new();
        }
        let entry = self.search.filtered_indices[at];
        if entry >= self.data.index.len() {
            return Vec::new();
        }
        let id = self.data.index[entry].id.clone();
        self.detail.product_id = Some(id.clone());
        self.detail.history.clear();
        let quote = match map_get(&self.data.products, id.as_str()) {
            Some(p) => Some((p.quick_status.buy_price, p.quick_status.sell_price)),
            None => None,
        };
        match quote {
            Some((buy, sell)) => {
                self.push_history(buy, sell, now);
                proof {
                    assert(self.detail.history@ == seq![(now, buy, sell)]);
                }
            },
            None => {},
        }
        self.view = View::Detail;
        self.start_refresh(id)
    }

    /// Leaves the detail view: the refresh is stopped, and the product and
    /// its history are forgotten.
    pub fn exit_detail(&mut self) -> (commands: Vec<RefreshCommand>)
        ensures
            commands@ == stop_commands(old(self).detail.refresh),
            carried_out(old(self).detail.refresh, commands@) == Some(final(self).detail.refresh),
            final(self).detail.history@ == Seq::<HistoryPoint>::empty(),
            *final(self) == (App {
                view: View::Search,
                detail: DetailState {
                    product_id: None,
                    history: final(self).detail.history,
                    refresh: None,
                    ..old(self).detail
                },
                ..*old(self)
            }),
            old(self).wf() ==> final(self).wf(),
    {
        proof {
            lemma_stop_carried_out(self.detail.refresh);
        }
        let commands = self.stop_refresh();
        self.view = View::Search;
        self.detail.product_id = None;
        self.detail.history.clear();
        commands
    }

    /// Takes in a product that a fetch has brought: it replaces the one
    /// under its id in the map, or is added to the map. If it is the product
    /// shown in the detail view, its prices are added to the history.
    pub fn update_product(&mut self, p: Product, now: u64)
        ensures
            updated(*old(self), *final(self), p, now),
            old(self).wf() ==> final(self).wf(),
    {
        let id = p.product_id.clone();
        let buy = p.quick_status.buy_price;
        let sell = p.quick_status.sell_price;
        proof {
            lemma_inserted(entries(self.data.products), id@, p);
        }
        map_insert(&mut self.data.products, id.clone(), p);
        let shown = match &self.detail.product_id {
            Some(current) => *current == id,
            None => false,
        };
        if shown {
            self.push_history(buy, sell, now);
            self.status = String::from_str("Updated");
        }
    }

    /// Adds a point to the history; at capacity the oldest point leaves first.
    pub fn push_history(&mut self, buy: Price, sell: Price, now: u64)
        ensures
            final(self).detail.history@ == pushed(old(self).detail.history@, (now, buy, sell)),
            final(self).detail.history@.last() == (now, buy, sell),
            old(self).detail.history@.len() <= HISTORY_CAPACITY ==> final(self).detail.history@.len()
                <= HISTORY_CAPACITY,
            *final(self) == (App {
                detail: DetailState { history: final(self).detail.history, ..old(self).detail },
                ..*old(self)
            }),
            old(self).wf() ==> final(self).wf(),
    {
        if self.detail.history.len() >= HISTORY_CAPACITY {
            self.detail.history.pop_front();
        }
        self.detail.history.push_back((now, buy, sell));
    }

    /// Notes that the refresh now polls the given product, and commands the
    /// caller to stop the poll that ran, if one did, and to start the new one.
    fn start_refresh(&mut self, product_id: String) -> (commands: Vec<RefreshCommand>)
        ensures
            commands@ == stop_commands(old(self).detail.refresh).push(
                RefreshCommand::Start(product_id),
            ),
            final(self).status@ == refresh_status(product_id@),
            *final(self) == (App {
                status: final(self).status,
                detail: DetailState { refresh: Some(product_id), ..old(self).detail },
                ..*old(self)
            }),
    {
        let mut commands = self.stop_refresh();
        let mut status = String::from_str("Detail: ");
        status.append(product_id.as_str());
        status.append(" (refreshing every 3s)");
        self.status = status;
        commands.push(RefreshCommand::Start(product_id.clone()));
        self.detail.refresh = Some(product_id);
        commands
    }

    /// Notes that no refresh runs any more, and commands the caller to stop
    /// the one that ran, if one did.
    pub fn stop_refresh(&mut self) -> (commands: Vec<RefreshCommand>)
        ensures
            commands@ == stop_commands(old(self).detail.refresh),
            carried_out(old(self).detail.refresh, commands@) == Some(final(self).detail.refresh),
            *final(self) == (App {
                detail: DetailState { refresh: None, ..old(self).detail },
                ..*old(self)
            }),
            old(self).wf() ==> final(self).wf(),
    {
        proof {
            lemma_stop_carried_out(self.detail.refresh);
        }
        let mut commands: Vec<RefreshCommand> = Vec::new();
        let running = self.detail.refresh.take();
        if running.is_some() {
            commands.push(RefreshCommand::Stop);
        }
        commands
    }

    /// While a product is shown, commands one fetch of it; else nothing
    /// changes and nothing is commanded.
    pub fn manual_refresh(&mut self) -> (commands: Vec<RefreshCommand>)
        ensures
            match old(self).detail.product_id {
                Some(id) => {
                    &&& commands@ == seq![RefreshCommand::FetchOnce(id)]
                    &&& final(self).status@ == "Refreshing..."@
                    &&& *final(self) == (App { status: final(self).status, ..*old(self) })
                },
                None => commands@ == Seq::<RefreshCommand>::empty() && *final(self) == *old(self),
            },
            carried_out(old(self).detail.refresh, commands@) == Some(final(self).detail.refresh),
            old(self).wf() ==> final(self).wf(),
    {
        proof {
            reveal_with_fuel(carried_out, 3);
            if self.detail.product_id is Some {
                let fetch = seq![RefreshCommand::FetchOnce(self.detail.product_id->0)];
                assert(fetch.drop_first() == Seq::<RefreshCommand>::empty());
            }
        }
        let mut commands: Vec<RefreshCommand> = Vec::new();
        let shown = match &self.detail.product_id {
            Some(id) => Some(id.clone()),
            None => None,
        };
        match shown {
            Some(id) => {
                commands.push(RefreshCommand::FetchOnce(id));
                self.status = String::from_str("Refreshing...");
            },
            None => {},
        }
        commands
    }


    /// A result list is a selection from the index: it holds entries of the
    /// index only, none twice, and so no more than the index has.
    pub proof fn lemma_filter_result_is_selection(&self, out: Seq<usize>)
        requires
            self.is_filter_result(out),
        ensures
            out.no_duplicates(),
            forall|k: int| 0 <= k < out.len() ==> (#[trigger] out[k]) < self.data.index@.len(),
            out.len() <= self.data.index@.len(),
    {
        lemma_distinct_below(out, self.data.index@.len());
    }

    /// While the input is blank and sorting by spread is off, the result
    /// list is the whole index in its order.
    pub proof fn lemma_blank_shows_all(&self, out: Seq<usize>)
        requires
            self.is_filter_result(out),
            blank(self.search.input@),
            !self.search.sort_by_spread,
            self.data.index@.len() <= usize::MAX,
        ensures
            out.len() == self.data.index@.len(),
            forall|k: int| 0 <= k < out.len() ==> #[trigger] out[k] == k,
    {
        let n = self.data.index@.len();
        let all = Seq::new(n, |k: int| k as usize);
        assert(self.is_filter_result(all)) by {
            assert forall|i: usize| i < n implies #[trigger] all.contains(i) by {
                assert(all[i as int] == i);
            }
        }
        self.lemma_filter_result_unique(out, all);
    }

    /// A state has one result list and no other.
    pub proof fn lemma_filter_result_unique(&self, x: Seq<usize>, y: Seq<usize>)
        requires
            self.is_filter_result(x),
            self.is_filter_result(y),
        ensures
            x == y,
    {
        let before = |p: usize, q: usize| self.shown_before(p as int, q as int);
        assert forall|e: usize| #![trigger x.contains(e)] #![trigger y.contains(e)] x.contains(e) <==> y.contains(e) by {
            if x.contains(e) {
                let k = choose|k: int| 0 <= k < x.len() && x[k] == e;
                assert(x[k] < self.data.index@.len());
            }
            if y.contains(e) {
                let k = choose|k: int| 0 <= k < y.len() && y[k] == e;
                assert(y[k] < self.data.index@.len());
            }
        }
        assert(strictly_sorted(x, before)) by {
            assert forall|a: int, b: int| 0 <= a < b < x.len() implies before(
                #[trigger] x[a],
                #[trigger] x[b],
            ) by {
                assert(self.shown_before(x[a] as int, x[b] as int));
            }
        }
        assert(strictly_sorted(y, before)) by {
            assert forall|a: int, b: int| 0 <= a < b < y.len() implies before(
                #[trigger] y[a],
                #[trigger] y[b],
            ) by {
                assert(self.shown_before(y[a] as int, y[b] as int));
            }
        }
        lemma_sorted_unique(x, y, before);
    }

}

} // verus!
