//! One step of the main loop: a tick, a product that a refresh has brought,
//! or a key. The caller waits for the event, reads the clock, and carries
//! out the commands that the step hands back.

use vstd::prelude::*;
use vstd::view::View as _;
use crate::api::models::Product;
use crate::app::search::MAX_QUERY_LEN;
use crate::app::state::{
    carried_out, clamped, entered, moved, stop_commands, updated, App, DetailState, HistoryPoint,
    RefreshCommand, SearchMode, SearchState, View,
};

verus! {

/// Milliseconds between two ticks of the main loop.
pub const TICK_MS: u64 = 60;

/// Milliseconds that the input has to be left alone before it is ranked.
pub const DEBOUNCE_MS: u64 = 120;

/// Milliseconds that the main loop waits for a key.
pub const KEY_POLL_MS: u64 = 16;

/// What the Down key moves the selection by.
pub const LINE_DOWN: isize = 1;

/// What the Up key moves the selection by.
pub const LINE_UP: isize = -1;

/// What the PageDown key moves the selection by.
pub const PAGE_DOWN: isize = 20;

/// What the PageUp key moves the selection by.
pub const PAGE_UP: isize = -20;

/// The keys that the application tells apart.
#[derive(Debug, Clone, Copy, PartialEq, Eq, Structural)]
pub enum KeyCode {
    Esc,
    Up,
    Down,
    PageUp,
    PageDown,
    Home,
    End,
    Backspace,
    Delete,
    Enter,
    Char(char),
    Other,
}

/// A key event: the key, whether Control was held, and whether the event is
/// a press (as opposed to a release or a repeat).
#[derive(Debug, Clone, Copy, PartialEq, Eq, Structural)]
pub struct KeyEvent {
    pub code: KeyCode,
    pub control: bool,
    pub press: bool,
}

/// What a key asks for in the search view.
#[derive(Debug, Clone, Copy, PartialEq, Eq, Structural)]
pub enum SearchAction {
    /// Leave the application.
    Quit,
    /// Empty the query and stay in the mode.
    Clear,
    /// Empty the query and go to insert mode.
    Delete,
    /// Take the last character off the query.
    Backspace,
    /// Append a character to the query.
    Insert(char),
    /// Move the selection by so many entries.
    Move(isize),
    /// Select the first result.
    Top,
    /// Select the last result.
    Bottom,
    /// Switch between the order of relevance and the order of spread.
    ToggleSort,
    /// Open the detail view on the selected result.
    Open,
    /// Nothing.
    Ignore,
}

/// What a key asks for in the detail view.
#[derive(Debug, Clone, Copy, PartialEq, Eq, Structural)]
pub enum DetailAction {
    /// Go back to the search view.
    Back,
    /// Switch the chart between prices and percentages.
    TogglePercent,
    /// Switch the moving average on or off.
    ToggleSma,
    /// Switch the midline on or off.
    ToggleMidline,
    /// Fetch the product once.
    Refresh,
    /// Nothing.
    Ignore,
}

/// What the main loop waits for.
#[derive(Debug)]
pub enum LoopEvent {
    /// The tick of the loop's timer.
    Tick,
    /// A product that a refresh has brought.
    Update(Product),
    /// A key event.
    Key(KeyEvent),
}

/// What the caller has to do after a step.
#[derive(Debug)]
pub struct Outcome {
    /// Whether to leave the main loop.
    pub quit: bool,
    /// What to do to the background refresh, in order.
    pub commands: Vec<RefreshCommand>,
}

/// Control and `c`: leaves the application from any view.
pub open spec fn is_quit_key(key: KeyEvent) -> bool {
    key.code == KeyCode::Char('c') && key.control
}

/// What a key asks for in the search view, given whether the query is empty.
pub open spec fn search_action_of(key: KeyEvent, input_empty: bool) -> SearchAction {
    match key.code {
        KeyCode::Esc => if input_empty {
            SearchAction::Quit
        } else {
            SearchAction::Clear
        },
        KeyCode::Up => if key.control {
            SearchAction::Top
        } else {
            SearchAction::Move(LINE_UP)
        },
        KeyCode::Down => if key.control {
            SearchAction::Bottom
        } else {
            SearchAction::Move(LINE_DOWN)
        },
        KeyCode::PageUp => SearchAction::Move(PAGE_UP),
        KeyCode::PageDown => SearchAction::Move(PAGE_DOWN),
        KeyCode::Home => SearchAction::Top,
        KeyCode::End => SearchAction::Bottom,
        KeyCode::Backspace => SearchAction::Backspace,
        KeyCode::Delete => SearchAction::Delete,
        KeyCode::Char(ch) => if ch == 's' && key.control {
            SearchAction::ToggleSort
        } else {
            SearchAction::Insert(ch)
        },
        KeyCode::Enter => SearchAction::Open,
        KeyCode::Other => SearchAction::Ignore,
    }
}

/// The mode after an action: moving the selection leads to navigate mode,
/// editing the query to insert mode, and the rest leaves the mode alone.
pub open spec fn mode_after(mode: SearchMode, action: SearchAction) -> SearchMode {
    match action {
        SearchAction::Move(_) | SearchAction::Top | SearchAction::Bottom => SearchMode::Navigate,
        SearchAction::Backspace | SearchAction::Delete | SearchAction::Insert(_) => SearchMode::Insert,
        _ => mode,
    }
}

/// What a key asks for in the detail view.
pub open spec fn detail_action_of(key: KeyEvent) -> DetailAction {
    match key.code {
        KeyCode::Esc => DetailAction::Back,
        KeyCode::Char(ch) => if ch == 'b' {
            DetailAction::Back
        } else if ch == 'p' {
            DetailAction::TogglePercent
        } else if ch == 'm' {
            DetailAction::ToggleSma
        } else if ch == 'g' {
            DetailAction::ToggleMidline
        } else if ch == 'r' {
            DetailAction::Refresh
        } else {
            DetailAction::Ignore
        },
        _ => DetailAction::Ignore,
    }
}

/// The state in another search mode.
pub open spec fn in_mode(app: App, mode: SearchMode) -> App {
    App { search: SearchState { mode, ..app.search }, ..app }
}

/// The state with the other order of results chosen.
pub open spec fn with_sort_toggled(app: App) -> App {
    App { search: SearchState { sort_by_spread: !app.search.sort_by_spread, ..app.search }, ..app }
}

/// The status line after the order of results was chosen.
pub open spec fn sort_status(by_spread: bool) -> Seq<char> {
    if by_spread {
        "Sorted by spread"@
    } else {
        "Sorted by relevance"@
    }
}

/// The status line after the chart's unit was chosen.
pub open spec fn percent_status(on: bool) -> Seq<char> {
    if on {
        "Chart: % mode"@
    } else {
        "Chart: absolute mode"@
    }
}

/// The status line after the moving average was switched.
pub open spec fn sma_status(on: bool) -> Seq<char> {
    if on {
        "SMA: on"@
    } else {
        "SMA: off"@
    }
}

/// The status line after the midline was switched.
pub open spec fn midline_status(on: bool) -> Seq<char> {
    if on {
        "Midline: on"@
    } else {
        "Midline: off"@
    }
}

/// Nothing is commanded and the loop goes on.
pub open spec fn goes_on(outcome: Outcome) -> bool {
    !outcome.quit && outcome.commands@ == Seq::<RefreshCommand>::empty()
}

/// How an action of the search view takes the state from `pre` to `post`.
pub open spec fn search_performed(
    pre: App,
    post: App,
    action: SearchAction,
    now: u64,
    outcome: Outcome,
) -> bool {
    let turned = in_mode(pre, mode_after(pre.search.mode, action));
    match action {
        SearchAction::Quit => post == pre && outcome.quit && outcome.commands@ == Seq::<
            RefreshCommand,
        >::empty(),
        SearchAction::Ignore => post == pre && goes_on(outcome),
        SearchAction::Clear | SearchAction::Delete => {
            &&& post.search.input@ == Seq::<char>::empty()
            &&& post == turned.with_input(post.search.input, now)
            &&& goes_on(outcome)
        },
        SearchAction::Backspace => {
            &&& post.search.input@ == if pre.search.input@.len() > 0 {
                pre.search.input@.drop_last()
            } else {
                pre.search.input@
            }
            &&& post == turned.with_input(post.search.input, now)
            &&& goes_on(outcome)
        },
        SearchAction::Insert(ch) => {
            &&& post.search.input@ == pre.search.input@.push(ch)
            &&& post == turned.with_input(post.search.input, now)
            &&& goes_on(outcome)
        },
        SearchAction::Move(delta) => {
            &&& post.search.selected_index == moved(
                pre.search.selected_index as int,
                delta as int,
                pre.search.filtered_indices@.len() as int,
            )
            &&& post == turned.with_results(pre.search.filtered_indices, post.search.selected_index)
            &&& goes_on(outcome)
        },
        SearchAction::Top => {
            &&& post.search.selected_index == if pre.search.filtered_indices@.len() > 0 {
                0
            } else {
                pre.search.selected_index
            }
            &&& post == turned.with_results(pre.search.filtered_indices, post.search.selected_index)
            &&& goes_on(outcome)
        },
        SearchAction::Bottom => {
            &&& post.search.selected_index == if pre.search.filtered_indices@.len() > 0 {
                (pre.search.filtered_indices@.len() - 1) as usize
            } else {
                pre.search.selected_index
            }
            &&& post == turned.with_results(pre.search.filtered_indices, post.search.selected_index)
            &&& goes_on(outcome)
        },
        SearchAction::ToggleSort => {
            let toggled = with_sort_toggled(pre);
            &&& toggled.is_filter_result(post.search.filtered_indices@)
            &&& post.search.selected_index == clamped(
                pre.search.selected_index as int,
                post.search.filtered_indices@.len() as int,
            )
            &&& post.status@ == sort_status(!pre.search.sort_by_spread)
            &&& post == (App {
                status: post.status,
                ..toggled.with_results(post.search.filtered_indices, post.search.selected_index)
            })
            &&& goes_on(outcome)
        },
        SearchAction::Open => entered(pre, post, now, outcome.commands@) && !outcome.quit,
    }
}

/// How an action of the detail view takes the state from `pre` to `post`.
pub open spec fn detail_performed(pre: App, post: App, action: DetailAction, outcome: Outcome) -> bool {
    match action {
        DetailAction::Ignore => post == pre && goes_on(outcome),
        DetailAction::Back => {
            &&& outcome.commands@ == stop_commands(pre.detail.refresh)
            &&& !outcome.quit
            &&& post.detail.history@ == Seq::<HistoryPoint>::empty()
            &&& post == (App {
                view: View::Search,
                detail: DetailState {
                    product_id: None,
                    history: post.detail.history,
                    refresh: None,
                    ..pre.detail
                },
                ..pre
            })
        },
        DetailAction::TogglePercent => {
            &&& post.status@ == percent_status(!pre.detail.show_percent)
            &&& post == (App {
                status: post.status,
                detail: DetailState { show_percent: !pre.detail.show_percent, ..pre.detail },
                ..pre
            })
            &&& goes_on(outcome)
        },
        DetailAction::ToggleSma => {
            &&& post.status@ == sma_status(!pre.detail.show_sma)
            &&& post == (App {
                status: post.status,
                detail: DetailState { show_sma: !pre.detail.show_sma, ..pre.detail },
                ..pre
            })
            &&& goes_on(outcome)
        },
        DetailAction::ToggleMidline => {
            &&& post.status@ == midline_status(!pre.detail.show_midline)
            &&& post == (App {
                status: post.status,
                detail: DetailState { show_midline: !pre.detail.show_midline, ..pre.detail },
                ..pre
            })
            &&& goes_on(outcome)
        },
        DetailAction::Refresh => {
            &&& !outcome.quit
            &&& match pre.detail.product_id {
                Some(id) => {
                    &&& outcome.commands@ == seq![RefreshCommand::FetchOnce(id)]
                    &&& post.status@ == "Refreshing..."@
                    &&& post == (App { status: post.status, ..pre })
                },
                None => outcome.commands@ == Seq::<RefreshCommand>::empty() && post == pre,
            }
        },
    }
}

/// How a key event takes the state from `pre` to `post`: only a press is
/// acted upon, the quit key leaves from any view, and any other key is read
/// by the view that is shown.
pub open spec fn key_handled(pre: App, post: App, key: KeyEvent, now: u64, outcome: Outcome) -> bool {
    if !key.press {
        post == pre && goes_on(outcome)
    } else if is_quit_key(key) {
        post == pre && outcome.quit && outcome.commands@ == Seq::<RefreshCommand>::empty()
    } else {
        match pre.view {
            View::Search => search_performed(
                pre,
                post,
                search_action_of(key, pre.search.input@.len() == 0),
                now,
                outcome,
            ),
            View::Detail => detail_performed(pre, post, detail_action_of(key), outcome),
        }
    }
}

/// Whether a key event leads to a new ranking, which needs a query within
/// the scorer's limit.
pub open spec fn ranks_anew(app: App, key: KeyEvent) -> bool {
    key.press && !is_quit_key(key) && app.view == View::Search && search_action_of(
        key,
        app.search.input@.len() == 0,
    ) == SearchAction::ToggleSort
}

/// What a key asks for in the search view.
pub fn search_action(key: KeyEvent, input_empty: bool) -> (action: SearchAction)
    ensures
        action == search_action_of(key, input_empty),
{
    match key.code {
        KeyCode::Esc => if input_empty {
            SearchAction::Quit
        } else {
            SearchAction::Clear
        },
        KeyCode::Up => if key.control {
            SearchAction::Top
        } else {
            SearchAction::Move(LINE_UP)
        },
        KeyCode::Down => if key.control {
            SearchAction::Bottom
        } else {
            SearchAction::Move(LINE_DOWN)
        },
        KeyCode::PageUp => SearchAction::Move(PAGE_UP),
        KeyCode::PageDown => SearchAction::Move(PAGE_DOWN),
        KeyCode::Home => SearchAction::Top,
        KeyCode::End => SearchAction::Bottom,
        KeyCode::Backspace => SearchAction::Backspace,
        KeyCode::Delete => SearchAction::Delete,
        KeyCode::Char(ch) => if ch == 's' && key.control {
            SearchAction::ToggleSort
        } else {
            SearchAction::Insert(ch)
        },
        KeyCode::Enter => SearchAction::Open,
        KeyCode::Other => SearchAction::Ignore,
    }
}

/// What a key asks for in the detail view.
pub fn detail_action(key: KeyEvent) -> (action: DetailAction)
    ensures
        action == detail_action_of(key),
{
    match key.code {
        KeyCode::Esc => DetailAction::Back,
        KeyCode::Char(ch) => if ch == 'b' {
            DetailAction::Back
        } else if ch == 'p' {
            DetailAction::TogglePercent
        } else if ch == 'm' {
            DetailAction::ToggleSma
        } else if ch == 'g' {
            DetailAction::ToggleMidline
        } else if ch == 'r' {
            DetailAction::Refresh
        } else {
            DetailAction::Ignore
        },
        _ => DetailAction::Ignore,
    }
}

/// An outcome that commands nothing and lets the loop go on.
fn nothing() -> (outcome: Outcome)
    ensures
        goes_on(outcome),
{
    Outcome { quit: false, commands: Vec::new() }
}

/// Reads a key in the search view.
pub fn handle_search_input(app: &mut App, key: KeyEvent, now: u64) -> (outcome: Outcome)
    requires
        search_action_of(key, old(app).search.input@.len() == 0) == SearchAction::ToggleSort
            ==> old(app).search.input@.len() <= MAX_QUERY_LEN,
    ensures
        search_performed(
            *old(app),
            *final(app),
            search_action_of(key, old(app).search.input@.len() == 0),
            now,
            outcome,
        ),
        carried_out(old(app).detail.refresh, outcome.commands@) == Some(final(app).detail.refresh),
        old(app).wf() ==> final(app).wf(),
{
    let action = search_action(key, app.search.input.as_str().is_empty());
    match action {
        SearchAction::Move(_) | SearchAction::Top | SearchAction::Bottom => {
            app.search.mode = SearchMode::Navigate;
        },
        SearchAction::Backspace | SearchAction::Delete | SearchAction::Insert(_) => {
            app.search.mode = SearchMode::Insert;
        },
        _ => {},
    }
    match action {
        SearchAction::Quit => Outcome { quit: true, commands: Vec::new() },
        SearchAction::Ignore => nothing(),
        SearchAction::Clear | SearchAction::Delete => {
            app.on_delete(now);
            nothing()
        },
        SearchAction::Backspace => {
            app.on_backspace(now);
            nothing()
        },
        SearchAction::Insert(ch) => {
            app.on_input(ch, now);
            nothing()
        },
        SearchAction::Move(delta) => {
            app.move_selection(delta);
            nothing()
        },
        SearchAction::Top => {
            app.jump_to_top();
            nothing()
        },
        SearchAction::Bottom => {
            app.jump_to_bottom();
            nothing()
        },
        SearchAction::ToggleSort => {
            app.search.sort_by_spread = !app.search.sort_by_spread;
            app.recompute_filter();
            app.status = if app.search.sort_by_spread {
                String::from_str("Sorted by spread")
            } else {
                String::from_str("Sorted by relevance")
            };
            nothing()
        },
        SearchAction::Open => {
            let commands = app.enter_detail(now);
            Outcome { quit: false, commands }
        },
    }
}

/// Reads a key in the detail view.
pub fn handle_detail_input(app: &mut App, key: KeyEvent) -> (outcome: Outcome)
    ensures
        detail_performed(*old(app), *final(app), detail_action_of(key), outcome),
        carried_out(old(app).detail.refresh, outcome.commands@) == Some(final(app).detail.refresh),
        old(app).wf() ==> final(app).wf(),
{
    match detail_action(key) {
        DetailAction::Ignore => nothing(),
        DetailAction::Back => {
            let commands = app.exit_detail();
            Outcome { quit: false, commands }
        },
        DetailAction::TogglePercent => {
            app.detail.show_percent = !app.detail.show_percent;
            app.status = if app.detail.show_percent {
                String::from_str("Chart: % mode")
            } else {
                String::from_str("Chart: absolute mode")
            };
            nothing()
        },
        DetailAction::ToggleSma => {
            app.detail.show_sma = !app.detail.show_sma;
            app.status = if app.detail.show_sma {
                String::from_str("SMA: on")
            } else {
                String::from_str("SMA: off")
            };
            nothing()
        },
        DetailAction::ToggleMidline => {
            app.detail.show_midline = !app.detail.show_midline;
            app.status = if app.detail.show_midline {
                String::from_str("Midline: on")
            } else {
                String::from_str("Midline: off")
            };
            nothing()
        },
        DetailAction::Refresh => {
            let commands = app.manual_refresh();
            Outcome { quit: false, commands }
        },
    }
}

/// Reads a key event: only a press is acted upon, Control and `c` leaves
/// from any view, and any other key is read by the view that is shown.
pub fn handle_event(app: &mut App, key: KeyEvent, now: u64) -> (outcome: Outcome)
    requires
        ranks_anew(*old(app), key) ==> old(app).search.input@.len() <= MAX_QUERY_LEN,
    ensures
        key_handled(*old(app), *final(app), key, now, outcome),
        carried_out(old(app).detail.refresh, outcome.commands@) == Some(final(app).detail.refresh),
        old(app).wf() ==> final(app).wf(),
{
    if !key.press {
        return nothing();
    }
    let quit_key = match key.code {
        KeyCode::Char(ch) => ch == 'c' && key.control,
        _ => false,
    };
    if quit_key {
        return Outcome { quit: true, commands: Vec::new() };
    }
    match app.view {
        View::Search => handle_search_input(app, key, now),
        View::Detail => handle_detail_input(app, key),
    }
}

/// How one event of the main loop takes the state from `pre` to `post`. A
/// tick ranks stale results in the search view once the debounce has
/// passed; a product is taken in; a key is read.
pub open spec fn stepped(pre: App, post: App, event: LoopEvent, now: u64, outcome: Outcome) -> bool {
    match event {
        LoopEvent::Tick => {
            &&& goes_on(outcome)
            &&& if pre.view == View::Search && pre.filter_due(DEBOUNCE_MS, now) {
                &&& pre.is_filter_result(post.search.filtered_indices@)
                &&& post.search.selected_index == clamped(
                    pre.search.selected_index as int,
                    post.search.filtered_indices@.len() as int,
                )
                &&& post == pre.with_results(
                    post.search.filtered_indices,
                    post.search.selected_index,
                ).with_fresh_results()
            } else {
                post == pre
            }
        },
        LoopEvent::Update(p) => updated(pre, post, p, now) && goes_on(outcome),
        LoopEvent::Key(key) => key_handled(pre, post, key, now, outcome),
    }
}

/// Whether an event leads to a new ranking, which needs a query within the
/// scorer's limit.
pub open spec fn step_ranks(app: App, event: LoopEvent, now: u64) -> bool {
    match event {
        LoopEvent::Tick => app.view == View::Search && app.filter_due(DEBOUNCE_MS, now),
        LoopEvent::Update(_) => false,
        LoopEvent::Key(key) => ranks_anew(app, key),
    }
}

/// Takes one event of the main loop.
pub fn step(app: &mut App, event: LoopEvent, now: u64) -> (outcome: Outcome)
    requires
        step_ranks(*old(app), event, now) ==> old(app).search.input@.len() <= MAX_QUERY_LEN,
    ensures
        stepped(*old(app), *final(app), event, now, outcome),
        carried_out(old(app).detail.refresh, outcome.commands@) == Some(final(app).detail.refresh),
        old(app).wf() ==> final(app).wf(),
{
    match event {
        LoopEvent::Tick => {
            if app.view == View::Search && app.is_filter_due(DEBOUNCE_MS, now) {
                app.maybe_apply_filter(DEBOUNCE_MS, now);
            }
            nothing()
        },
        LoopEvent::Update(p) => {
            app.update_product(p, now);
            nothing()
        },
        LoopEvent::Key(key) => handle_event(app, key, now),
    }
}

/// Whether an event leads to a new ranking.
pub fn ranks(app: &App, event: &LoopEvent, now: u64) -> (b: bool)
    ensures
        b == step_ranks(*app, *event, now),
{
    match event {
        LoopEvent::Tick => app.view == View::Search && app.is_filter_due(DEBOUNCE_MS, now),
        LoopEvent::Update(_) => false,
        LoopEvent::Key(key) => {
            let quit_key = match key.code {
                KeyCode::Char(ch) => ch == 'c' && key.control,
                _ => false,
            };
            key.press && !quit_key && app.view == View::Search && search_action(
                *key,
                app.search.input.as_str().is_empty(),
            ) == SearchAction::ToggleSort
        },
    }
}

/// Takes one event of the main loop, unless the event leads to a new
/// ranking and the query is too long to be ranked for: then nothing changes
/// and `None` is returned.
pub fn try_step(app: &mut App, event: LoopEvent, now: u64) -> (taken: Option<Outcome>)
    ensures
        match taken {
            Some(outcome) => {
                &&& stepped(*old(app), *final(app), event, now, outcome)
                &&& carried_out(old(app).detail.refresh, outcome.commands@) == Some(
                    final(app).detail.refresh,
                )
            },
            None => *final(app) == *old(app),
        },
        taken is None <==> step_ranks(*old(app), event, now) && old(app).search.input@.len()
            > MAX_QUERY_LEN,
        old(app).wf() ==> final(app).wf(),
{
    if ranks(app, &event, now) && !app.query_fits() {
        None
    } else {
        Some(step(app, event, now))
    }
}

} // verus!
