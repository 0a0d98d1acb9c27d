//! The state of the dashboard and the decisions of its refresh/input loop.
//! The loop itself (drawing, waiting for keys, fetching snapshots, reading
//! the clock) is left to the caller, which reports what happened here.
use vstd::prelude::*;
use crate::node::Node;
use crate::scroll::{max_scroll, scroll_step, spec_max_scroll, step_scroll, Key};
use crate::view::{build_rows, display_rows, rows_view, DisplayRow, ViewState};

verus! {

/// Milliseconds between two snapshot fetches.
pub const REFRESH_INTERVAL_MS: u64 = 5000;

/// Whether a new snapshot is due after `elapsed_ms` since the last fetch.
pub fn refresh_due(elapsed_ms: u64) -> (r: bool)
    ensures
        r == (elapsed_ms >= REFRESH_INTERVAL_MS),
{
    elapsed_ms >= REFRESH_INTERVAL_MS
}

/// The number of rows that a snapshot shows under a view.
pub open spec fn row_count(nodes: Seq<Node>, view: ViewState) -> int {
    display_rows(nodes, view).len() as int
}

/// The largest scroll offset for a snapshot, a view and a viewport.
pub open spec fn scroll_limit(nodes: Seq<Node>, view: ViewState, viewport_rows: int) -> int {
    spec_max_scroll(row_count(nodes, view), viewport_rows)
}

/// `offset`, pulled back to `limit` where it lies beyond.
pub open spec fn clamp_offset(offset: usize, limit: int) -> usize {
    if offset <= limit {
        offset
    } else {
        limit as usize
    }
}

/// The current snapshot, the view over it and the viewport height. The
/// scroll offset always lies within `[0, scroll_limit]`.
pub struct Dashboard {
    nodes: Vec<Node>,
    view: ViewState,
    viewport_rows: usize,
}

impl Dashboard {
    pub closed spec fn spec_nodes(&self) -> Seq<Node> {
        self.nodes@
    }

    pub closed spec fn spec_view(&self) -> ViewState {
        self.view
    }

    pub closed spec fn spec_viewport_rows(&self) -> int {
        self.viewport_rows as int
    }

    /// The limit of the scroll offset in the current state.
    pub open spec fn spec_limit(&self) -> int {
        scroll_limit(self.spec_nodes(), self.spec_view(), self.spec_viewport_rows())
    }

    /// The offset lies within `[0, spec_limit()]`.
    pub open spec fn wf(&self) -> bool {
        self.spec_view().scroll <= self.spec_limit()
    }

    /// A dashboard over a first snapshot: no filter, no grouping, GPU-only
    /// mode on, scrolled to the top.
    pub fn new(nodes: Vec<Node>, viewport_rows: usize) -> (r: Self)
        ensures
            r.wf(),
            r.spec_nodes() == nodes@,
            r.spec_viewport_rows() == viewport_rows,
            r.spec_view() == (ViewState {
                hide_full: false,
                gpu_only_mode: true,
                group_by_partition: false,
                scroll: 0,
            }),
    {
        let view = ViewState { hide_full: false, gpu_only_mode: true, group_by_partition: false, scroll: 0 };
        Dashboard { nodes, view, viewport_rows }
    }

    pub fn nodes(&self) -> (r: &Vec<Node>)
        ensures
            r@ == self.spec_nodes(),
    {
        &self.nodes
    }

    pub fn view(&self) -> (r: ViewState)
        ensures
            r == self.spec_view(),
    {
        self.view
    }

    pub fn scroll(&self) -> (r: usize)
        requires
            self.wf(),
        ensures
            r == self.spec_view().scroll,
            r <= self.spec_limit(),
    {
        self.view.scroll
    }

    pub fn viewport_rows(&self) -> (r: usize)
        ensures
            r == self.spec_viewport_rows(),
    {
        self.viewport_rows
    }

    /// All rows of the current snapshot under the current view.
    pub fn rows(&self) -> (r: Vec<DisplayRow>)
        ensures
            rows_view(r@) == display_rows(self.spec_nodes(), self.spec_view()),
    {
        build_rows(&self.nodes, &self.view)
    }

    /// The largest scroll offset in the current state.
    pub fn max_scroll(&self) -> (r: usize)
        ensures
            r == self.spec_limit(),
    {
        let rows = build_rows(&self.nodes, &self.view);
        max_scroll(rows.len(), self.viewport_rows)
    }

    /// The rows shown: indices `[start, end)` of `rows()`, starting at the
    /// scroll offset and at most one viewport long.
    pub fn page(&self) -> (r: (usize, usize))
        requires
            self.wf(),
        ensures
            r.0 == self.spec_view().scroll,
            r.1 == (if r.0 + self.spec_viewport_rows() <= row_count(self.spec_nodes(), self.spec_view()) {
                r.0 + self.spec_viewport_rows()
            } else {
                row_count(self.spec_nodes(), self.spec_view())
            }),
            r.0 <= r.1,
    {
        let total = build_rows(&self.nodes, &self.view).len();
        let start = self.view.scroll;
        let end = if self.viewport_rows <= total - start {
            start + self.viewport_rows
        } else {
            total
        };
        (start, end)
    }

    /// The viewport changed height; the offset is pulled back within the
    /// new limit.
    pub fn resize(&mut self, viewport_rows: usize)
        ensures
            final(self).wf(),
            final(self).spec_nodes() == old(self).spec_nodes(),
            final(self).spec_viewport_rows() == viewport_rows,
            final(self).spec_view() == (ViewState {
                scroll: clamp_offset(old(self).spec_view().scroll, final(self).spec_limit()),
                ..old(self).spec_view()
            }),
    {
        let rows = build_rows(&self.nodes, &self.view);
        let max = max_scroll(rows.len(), viewport_rows);
        let scroll = if self.view.scroll <= max { self.view.scroll } else { max };
        self.viewport_rows = viewport_rows;
        self.view = ViewState { scroll, ..self.view };
    }

    /// Offset after a structural change to `view` (or to the snapshot):
    /// the offset of `view`, pulled back within the limit that it gives.
    fn clamped_view(nodes: &Vec<Node>, view: ViewState, viewport_rows: usize) -> (r: ViewState)
        ensures
            r == (ViewState {
                scroll: clamp_offset(view.scroll, scroll_limit(nodes@, view, viewport_rows as int)),
                ..view
            }),
    {
        let rows = build_rows(nodes, &view);
        let max = max_scroll(rows.len(), viewport_rows);
        let scroll = if view.scroll <= max { view.scroll } else { max };
        ViewState { scroll, ..view }
    }

    /// Handles one key press and says whether the dashboard is to quit.
    /// Toggling the filter or the grouping returns to the top; toggling
    /// the mode keeps the offset within the new limit; navigation keys move
    /// the offset within the current limit.
    pub fn handle_key(&mut self, key: Key) -> (quit: bool)
        requires
            old(self).wf(),
        ensures
            final(self).wf(),
            quit == (key == Key::Quit),
            final(self).spec_nodes() == old(self).spec_nodes(),
            final(self).spec_viewport_rows() == old(self).spec_viewport_rows(),
            key == Key::Quit ==> final(self).spec_view() == old(self).spec_view(),
            key == Key::ToggleHideFull ==> final(self).spec_view() == (ViewState {
                hide_full: !old(self).spec_view().hide_full,
                scroll: 0,
                ..old(self).spec_view()
            }),
            key == Key::ToggleGrouping ==> final(self).spec_view() == (ViewState {
                group_by_partition: !old(self).spec_view().group_by_partition,
                scroll: 0,
                ..old(self).spec_view()
            }),
            key == Key::ToggleGpuOnly ==> final(self).spec_view() == (ViewState {
                gpu_only_mode: !old(self).spec_view().gpu_only_mode,
                scroll: clamp_offset(old(self).spec_view().scroll, final(self).spec_limit()),
                ..old(self).spec_view()
            }),
            key != Key::Quit && key != Key::ToggleHideFull && key != Key::ToggleGrouping && key
                != Key::ToggleGpuOnly ==> final(self).spec_view() == (ViewState {
                scroll: scroll_step(
                    old(self).spec_view().scroll as int,
                    key,
                    old(self).spec_limit(),
                    old(self).spec_viewport_rows(),
                ) as usize,
                ..old(self).spec_view()
            }),
    {
        match key {
            Key::Quit => true,
            Key::ToggleHideFull => {
                self.view = ViewState { hide_full: !self.view.hide_full, scroll: 0, ..self.view };
                false
            },
            Key::ToggleGrouping => {
                self.view = ViewState {
                    group_by_partition: !self.view.group_by_partition,
                    scroll: 0,
                    ..self.view
                };
                false
            },
            Key::ToggleGpuOnly => {
                let toggled = ViewState { gpu_only_mode: !self.view.gpu_only_mode, ..self.view };
                self.view = Self::clamped_view(&self.nodes, toggled, self.viewport_rows);
                false
            },
            _ => {
                let max = self.max_scroll();
                let scroll = step_scroll(self.view.scroll, key, max, self.viewport_rows);
                self.view = ViewState { scroll, ..self.view };
                false
            },
        }
    }

    /// Takes the outcome of a periodic fetch. A new snapshot replaces the
    /// old one whole, and the offset is kept within the new limit; a failed
    /// fetch (`None`) keeps the previous snapshot and changes nothing.
    pub fn refresh(&mut self, fetched: Option<Vec<Node>>)
        requires
            old(self).wf(),
        ensures
            final(self).wf(),
            final(self).spec_viewport_rows() == old(self).spec_viewport_rows(),
            fetched is None ==> final(self).spec_nodes() == old(self).spec_nodes()
                && final(self).spec_view() == old(self).spec_view(),
            fetched is Some ==> final(self).spec_nodes() == fetched->0@ && final(self).spec_view()
                == (ViewState {
                scroll: clamp_offset(old(self).spec_view().scroll, final(self).spec_limit()),
                ..old(self).spec_view()
            }),
    {
        match fetched {
            Some(nodes) => {
                self.view = Self::clamped_view(&nodes, self.view, self.viewport_rows);
                self.nodes = nodes;
            },
            None => {},
        }
    }
}

} // verus!

verus! {

/// In every state that the dashboard's methods reach, the offset lies
/// within `[0, max(0, rows - viewport)]`, the rows counted with any header
/// rows.
pub proof fn lemma_offset_within_rows(d: Dashboard)
    requires
        d.wf(),
    ensures
        0 <= d.spec_view().scroll <= spec_max_scroll(
            row_count(d.spec_nodes(), d.spec_view()),
            d.spec_viewport_rows(),
        ),
{
}

} // verus!
