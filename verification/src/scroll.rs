use vstd::prelude::*;

verus! {

/// Cursor position and scroll offset of a scrollable list.
#[derive(Debug, Clone, Copy, PartialEq, Eq)]
pub struct ScrollState {
    pub cursor: usize,
    pub offset: usize,
    pub visible_rows: usize,
}

impl ScrollState {
    /// The cursor lies inside the window of rows that starts at `offset`
    /// (when the window has a height at all).
    pub open spec fn cursor_visible(self) -> bool {
        &&& self.offset <= self.cursor
        &&& self.visible_rows > 0 ==> self.cursor < self.offset + self.visible_rows
    }

    /// The cursor points at an item of a list of `item_count` items
    /// (an empty list only has position 0).
    pub open spec fn cursor_in_bounds(self, item_count: nat) -> bool {
        if item_count == 0 {
            self.cursor == 0
        } else {
            self.cursor < item_count
        }
    }

    /// State after moving the cursor up by one.
    pub open spec fn up_spec(self) -> ScrollState {
        if self.cursor == 0 {
            self
        } else {
            let c = (self.cursor - 1) as usize;
            ScrollState {
                cursor: c,
                offset: if c < self.offset { c } else { self.offset },
                visible_rows: self.visible_rows,
            }
        }
    }

    /// Whether moving down in a list of `item_count` items can move the cursor.
    pub open spec fn can_move_down(self, item_count: usize) -> bool {
        item_count != 0 && self.cursor < item_count - 1
    }

    /// Scrolls the window so that it ends at the cursor, when the cursor has
    /// moved past its bottom.
    pub open spec fn follow_down(self) -> ScrollState {
        if self.visible_rows > 0 && self.cursor >= self.offset + self.visible_rows {
            ScrollState { offset: (self.cursor - self.visible_rows + 1) as usize, ..self }
        } else {
            self
        }
    }

    /// State after moving the cursor down by one in a list of `item_count` items.
    pub open spec fn down_spec(self, item_count: usize) -> ScrollState {
        if !self.can_move_down(item_count) {
            self
        } else {
            ScrollState { cursor: (self.cursor + 1) as usize, ..self }.follow_down()
        }
    }

    /// State after jumping to the last of `item_count` items.
    pub open spec fn last_spec(self, item_count: usize) -> ScrollState {
        if item_count == 0 {
            self
        } else {
            let c = (item_count - 1) as usize;
            ScrollState {
                cursor: c,
                offset: if self.visible_rows > 0 && c >= self.visible_rows {
                    (c - self.visible_rows + 1) as usize
                } else {
                    0
                },
                visible_rows: self.visible_rows,
            }
        }
    }

    /// State after moving down by one page in a list of `item_count` items.
    pub open spec fn page_down_spec(self, item_count: usize) -> ScrollState {
        if item_count == 0 {
            self
        } else {
            let target = self.cursor + self.visible_rows;
            let c = if target < item_count - 1 { target } else { item_count - 1 };
            ScrollState { cursor: c as usize, ..self }.follow_down()
        }
    }

    /// State after moving up by one page.
    pub open spec fn page_up_spec(self) -> ScrollState {
        let c = if self.cursor >= self.visible_rows {
            (self.cursor - self.visible_rows) as usize
        } else {
            0usize
        };
        ScrollState {
            cursor: c,
            offset: if c < self.offset { c } else { self.offset },
            visible_rows: self.visible_rows,
        }
    }

    /// State after making cursor and offset valid for `item_count` items.
    pub open spec fn clamp_spec(self, item_count: usize) -> ScrollState {
        if item_count == 0 {
            ScrollState { cursor: 0, offset: 0, ..self }
        } else {
            let c = if self.cursor >= item_count { (item_count - 1) as usize } else { self.cursor };
            ScrollState {
                cursor: c,
                offset: if self.offset > c { c } else { self.offset },
                visible_rows: self.visible_rows,
            }
        }
    }

    /// State with cursor and offset back at the top.
    pub open spec fn reset_spec(self) -> ScrollState {
        ScrollState { cursor: 0, offset: 0, ..self }
    }

    /// Move cursor up by one, adjusting offset if needed.
    /// Returns true if cursor changed.
    pub fn up(&mut self) -> (moved: bool)
        ensures
            moved == (old(self).cursor != 0),
            *final(self) == old(self).up_spec(),
    {
        if self.cursor == 0 {
            return false;
        }
        self.cursor -= 1;
        if self.cursor < self.offset {
            self.offset = self.cursor;
        }
        true
    }

    /// Move cursor down by one, adjusting offset if needed.
    /// Returns true if cursor changed.
    pub fn down(&mut self, item_count: usize) -> (moved: bool)
        requires
            old(self).can_move_down(item_count) && old(self).visible_rows > 0
                ==> old(self).offset + old(self).visible_rows <= usize::MAX,
        ensures
            moved == old(self).can_move_down(item_count),
            *final(self) == old(self).down_spec(item_count),
    {
        if item_count == 0 || self.cursor >= item_count - 1 {
            return false;
        }
        self.cursor += 1;
        if self.visible_rows > 0 && self.cursor >= self.offset + self.visible_rows {
            self.offset = self.cursor - self.visible_rows + 1;
        }
        true
    }

    /// Move cursor to the first item.
    pub fn first(&mut self)
        ensures
            *final(self) == old(self).reset_spec(),
    {
        self.cursor = 0;
        self.offset = 0;
    }

    /// Move cursor to the last item.
    pub fn last(&mut self, item_count: usize)
        ensures
            *final(self) == old(self).last_spec(item_count),
    {
        if item_count == 0 {
            return;
        }
        self.cursor = item_count - 1;
        if self.visible_rows > 0 && self.cursor >= self.visible_rows {
            self.offset = self.cursor - self.visible_rows + 1;
        } else {
            self.offset = 0;
        }
    }

    /// Move cursor down by one page.
    pub fn page_down(&mut self, item_count: usize)
        requires
            item_count > 0 ==> old(self).cursor + old(self).visible_rows <= usize::MAX,
            item_count > 0 && old(self).visible_rows > 0 ==> old(self).offset
                + old(self).visible_rows <= usize::MAX,
        ensures
            *final(self) == old(self).page_down_spec(item_count),
    {
        if item_count == 0 {
            return;
        }
        let target = self.cursor + self.visible_rows;
        self.cursor = if target < item_count - 1 { target } else { item_count - 1 };
        if self.visible_rows > 0 && self.cursor >= self.offset + self.visible_rows {
            self.offset = self.cursor - self.visible_rows + 1;
        }
    }

    /// Move cursor up by one page.
    pub fn page_up(&mut self)
        ensures
            *final(self) == old(self).page_up_spec(),
    {
        self.cursor = self.cursor.saturating_sub(self.visible_rows);
        if self.cursor < self.offset {
            self.offset = self.cursor;
        }
    }

    /// Returns the range of visible item indices (start inclusive, end exclusive).
    pub fn visible_range(&self, item_count: usize) -> (range: (usize, usize))
        requires
            self.offset + self.visible_rows <= usize::MAX,
        ensures
            ({
                let end = if self.offset + self.visible_rows < item_count {
                    self.offset + self.visible_rows
                } else {
                    item_count as int
                };
                range == (if self.offset > end {
                    (end as usize, end as usize)
                } else {
                    (self.offset, end as usize)
                })
            }),
    {
        let start = self.offset;
        let sum = self.offset + self.visible_rows;
        let end = if sum < item_count { sum } else { item_count };
        if start > end {
            (end, end)
        } else {
            (start, end)
        }
    }

    /// Ensure cursor and offset are valid for the given item count.
    pub fn clamp(&mut self, item_count: usize)
        ensures
            *final(self) == old(self).clamp_spec(item_count),
    {
        if item_count == 0 {
            self.cursor = 0;
            self.offset = 0;
            return;
        }
        if self.cursor >= item_count {
            self.cursor = item_count - 1;
        }
        if self.offset > self.cursor {
            self.offset = self.cursor;
        }
    }

    /// Reset cursor and offset to zero.
    pub fn reset(&mut self)
        ensures
            *final(self) == old(self).reset_spec(),
    {
        self.cursor = 0;
        self.offset = 0;
    }
}

/// Every movement keeps the cursor inside the visible window: if the cursor
/// was visible before `up`, `down`, `first`, `page_up`, `clamp` or `reset`,
/// it is visible afterwards; so it is after `page_down` when the cursor was
/// also on an item.
pub proof fn lemma_moves_keep_cursor_visible(s: ScrollState, item_count: usize)
    requires
        s.cursor_visible(),
    ensures
        s.up_spec().cursor_visible(),
        s.down_spec(item_count).cursor_visible(),
        s.reset_spec().cursor_visible(),
        s.cursor_in_bounds(item_count as nat) ==> s.page_down_spec(item_count).cursor_visible(),
        s.page_up_spec().cursor_visible(),
        s.clamp_spec(item_count).cursor_visible(),
{
}

/// Jumping to the last item always leaves the cursor visible, whatever the
/// state before.
pub proof fn lemma_last_makes_cursor_visible(s: ScrollState, item_count: usize)
    requires
        item_count > 0,
    ensures
        s.last_spec(item_count).cursor_visible(),
{
}

/// Every movement keeps the cursor on an item of a list of `item_count`
/// items; `last` and `clamp` bring it there from anywhere.
pub proof fn lemma_moves_keep_cursor_in_bounds(s: ScrollState, item_count: usize)
    ensures
        s.cursor_in_bounds(item_count as nat) ==> s.up_spec().cursor_in_bounds(item_count as nat),
        s.cursor_in_bounds(item_count as nat) ==> s.down_spec(item_count).cursor_in_bounds(
            item_count as nat,
        ),
        s.cursor_in_bounds(item_count as nat) ==> s.page_down_spec(item_count).cursor_in_bounds(
            item_count as nat,
        ),
        s.cursor_in_bounds(item_count as nat) ==> s.page_up_spec().cursor_in_bounds(
            item_count as nat,
        ),
        s.reset_spec().cursor_in_bounds(item_count as nat),
        s.clamp_spec(item_count).cursor_in_bounds(item_count as nat),
        item_count > 0 ==> s.last_spec(item_count).cursor_in_bounds(item_count as nat),
{
}

/// A visible cursor on an item lies inside the range that `visible_range`
/// reports.
pub proof fn lemma_visible_range_contains_cursor(s: ScrollState, item_count: usize)
    requires
        s.cursor_visible(),
        s.visible_rows > 0,
        s.cursor < item_count,
        s.offset + s.visible_rows <= usize::MAX,
    ensures
        ({
            let end = if s.offset + s.visible_rows < item_count {
                s.offset + s.visible_rows
            } else {
                item_count as int
            };
            s.offset <= end && s.offset <= s.cursor < end
        }),
{
}

/// Moving down and then up returns the cursor to where it was, when the
/// move down succeeded.
pub proof fn lemma_down_then_up(s: ScrollState, item_count: usize)
    requires
        s.can_move_down(item_count),
    ensures
        s.down_spec(item_count).up_spec().cursor == s.cursor,
{
}

/// Moving up and then down returns the cursor to where it was, when the
/// move up succeeded.
pub proof fn lemma_up_then_down(s: ScrollState, item_count: usize)
    requires
        s.cursor > 0,
        s.cursor < item_count,
    ensures
        s.up_spec().down_spec(item_count).cursor == s.cursor,
{
}

/// No movement changes the height of the window.
pub proof fn lemma_moves_keep_visible_rows(s: ScrollState, item_count: usize)
    ensures
        s.up_spec().visible_rows == s.visible_rows,
        s.down_spec(item_count).visible_rows == s.visible_rows,
        s.last_spec(item_count).visible_rows == s.visible_rows,
        s.page_down_spec(item_count).visible_rows == s.visible_rows,
        s.page_up_spec().visible_rows == s.visible_rows,
        s.clamp_spec(item_count).visible_rows == s.visible_rows,
        s.reset_spec().visible_rows == s.visible_rows,
{
}

} // verus!
