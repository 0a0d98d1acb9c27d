//! Scroll offsets and the keys that move them.
use vstd::prelude::*;

verus! {

/// The commands that a key press can carry.
#[derive(Clone, Copy, Debug, PartialEq, Eq, Structural)]
pub enum Key {
    Quit,
    ToggleHideFull,
    ToggleGrouping,
    ToggleGpuOnly,
    Up,
    Down,
    PageUp,
    PageDown,
    Home,
    End,
}

/// The largest offset that still fills the viewport: `max(0, rows - viewport)`.
pub open spec fn spec_max_scroll(total_rows: int, viewport_rows: int) -> int {
    if total_rows > viewport_rows {
        total_rows - viewport_rows
    } else {
        0
    }
}

/// The offset after a navigation key; other keys leave it as it is.
pub open spec fn scroll_step(offset: int, key: Key, max: int, viewport_rows: int) -> int {
    match key {
        Key::Up => if offset >= 1 { offset - 1 } else { 0 },
        Key::Down => if offset + 1 <= max { offset + 1 } else { max },
        Key::PageUp => if offset >= viewport_rows { offset - viewport_rows } else { 0 },
        Key::PageDown => if offset + viewport_rows <= max { offset + viewport_rows } else { max },
        Key::Home => 0,
        Key::End => max,
        _ => offset,
    }
}

/// `max(0, total_rows - viewport_rows)`.
pub fn max_scroll(total_rows: usize, viewport_rows: usize) -> (r: usize)
    ensures
        r == spec_max_scroll(total_rows as int, viewport_rows as int),
{
    total_rows.saturating_sub(viewport_rows)
}

/// The offset moved by a navigation key, saturating at 0 and at `max`.
pub fn step_scroll(offset: usize, key: Key, max: usize, viewport_rows: usize) -> (r: usize)
    requires
        offset <= max,
    ensures
        r == scroll_step(offset as int, key, max as int, viewport_rows as int),
        key != Key::Up && key != Key::PageUp && key != Key::Home && key != Key::Down && key
            != Key::PageDown && key != Key::End ==> r == offset,
        r <= max,
{
    match key {
        Key::Up => offset.saturating_sub(1),
        Key::Down => if offset < max { offset + 1 } else { max },
        Key::PageUp => offset.saturating_sub(viewport_rows),
        Key::PageDown => if viewport_rows <= max - offset { offset + viewport_rows } else { max },
        Key::Home => 0,
        Key::End => max,
        _ => offset,
    }
}

/// Offset after `n` presses of "down" from `offset`.
pub open spec fn after_downs(offset: int, n: nat, max: int) -> int
    decreases n,
{
    if n == 0 {
        offset
    } else {
        scroll_step(after_downs(offset, (n - 1) as nat, max), Key::Down, max, 0)
    }
}

/// However often "down" is pressed, the offset never passes the largest
/// offset.
pub proof fn lemma_downs_stay_within_max(offset: int, n: nat, max: int)
    requires
        0 <= offset <= max,
    ensures
        0 <= after_downs(offset, n, max) <= max,
    decreases n,
{
    if n > 0 {
        lemma_downs_stay_within_max(offset, (n - 1) as nat, max);
    }
}

/// Whether the row at absolute index `index` gets the alternate background;
/// striping goes by the absolute index, so it does not shift with scrolling.
pub fn row_striped(index: usize) -> (r: bool)
    ensures
        r == (index % 2 == 1),
{
    index % 2 == 1
}

} // verus!
