//! Scroll and selection math for the visible list: how one navigation key
//! moves the window offset and the selection inside it, keeping both within
//! the data. The window shows `height` rows; the selection is relative to
//! the window; `offset + selection` is the absolute position.

use vstd::prelude::*;

verus! {

/// Which pane has focus.
#[derive(Clone, Copy, PartialEq, Eq, Structural, Debug)]
pub enum Pane {
    List,
    Value,
}

impl Pane {
    /// The other pane (focus switching).
    pub fn other(self) -> (r: Pane)
        ensures
            self is List ==> r is Value,
            self is Value ==> r is List,
    {
        match self {
            Pane::List => Pane::Value,
            Pane::Value => Pane::List,
        }
    }
}

/// What the list shows: the keyspace names, or the keys of the selected
/// keyspace.
#[derive(Clone, Copy, PartialEq, Eq, Structural, Debug)]
pub enum ViewMode {
    Trees,
    Keys,
}

/// A navigation key that moves the list selection.
#[derive(Clone, Copy, PartialEq, Eq, Structural, Debug)]
pub enum NavKey {
    Up,
    Down,
    PageUp,
    PageDown,
}

/// The new window offset, the new relative selection, and whether the
/// window's entries must be fetched again, after one navigation key.
pub open spec fn nav_step(
    mode: ViewMode,
    key: NavKey,
    offset: int,
    selected: int,
    height: int,
    count: int,
) -> (int, int, bool) {
    let keys_mode = mode is Keys;
    if keys_mode && count == 0 {
        (offset, selected, false)
    } else {
        match key {
            NavKey::Up => {
                if offset + selected > 0 {
                    if selected > 0 {
                        (offset, selected - 1, false)
                    } else {
                        (if offset > 0 {
                            offset - 1
                        } else {
                            0
                        }, selected, keys_mode)
                    }
                } else {
                    (offset, selected, false)
                }
            },
            NavKey::Down => {
                if offset + selected + 1 < count {
                    if selected + 1 < height {
                        (offset, selected + 1, false)
                    } else {
                        (offset + 1, selected, keys_mode)
                    }
                } else {
                    (offset, selected, false)
                }
            },
            NavKey::PageUp => {
                if offset > 0 {
                    (if offset > height {
                        offset - height
                    } else {
                        0
                    }, 0, keys_mode)
                } else if selected > 0 {
                    (offset, 0, false)
                } else {
                    (offset, selected, false)
                }
            },
            NavKey::PageDown => {
                let max_offset = if count > height {
                    count - height
                } else {
                    0
                };
                if offset < max_offset {
                    (if offset + height < max_offset {
                        offset + height
                    } else {
                        max_offset
                    }, height - 1, keys_mode)
                } else if selected < height - 1 {
                    (offset, height - 1, false)
                } else {
                    (offset, selected, false)
                }
            },
        }
    }
}

/// Moves the list by one navigation key: in `Trees` mode over `trees_len`
/// names, in `Keys` mode over `total_keys` entries. Returns the new offset,
/// the new relative selection, and whether the window must be fetched again
/// (only ever needed in `Keys` mode, where the window is served from the
/// index or the store).
pub fn list_nav(
    mode: ViewMode,
    key: NavKey,
    offset: usize,
    selected: usize,
    height: usize,
    trees_len: usize,
    total_keys: usize,
) -> (r: (usize, usize, bool))
    requires
        height >= 1,
        offset + selected < usize::MAX,
        offset + height <= usize::MAX,
    ensures
        (r.0 as int, r.1 as int, r.2) == nav_step(
            mode,
            key,
            offset as int,
            selected as int,
            height as int,
            (match mode {
                ViewMode::Trees => trees_len,
                ViewMode::Keys => total_keys,
            }) as int,
        ),
{
    let count = match mode {
        ViewMode::Trees => trees_len,
        ViewMode::Keys => total_keys,
    };
    let keys_mode = match mode {
        ViewMode::Trees => false,
        ViewMode::Keys => true,
    };
    if keys_mode && count == 0 {
        return (offset, selected, false);
    }
    match key {
        NavKey::Up => {
            if offset + selected > 0 {
                if selected > 0 {
                    (offset, selected - 1, false)
                } else {
                    (if offset > 0 {
                        offset - 1
                    } else {
                        0
                    }, selected, keys_mode)
                }
            } else {
                (offset, selected, false)
            }
        },
        NavKey::Down => {
            if offset + selected + 1 < count {
                if selected + 1 < height {
                    (offset, selected + 1, false)
                } else {
                    (offset + 1, selected, keys_mode)
                }
            } else {
                (offset, selected, false)
            }
        },
        NavKey::PageUp => {
            if offset > 0 {
                (if offset > height {
                    offset - height
                } else {
                    0
                }, 0, keys_mode)
            } else if selected > 0 {
                (offset, 0, false)
            } else {
                (offset, selected, false)
            }
        },
        NavKey::PageDown => {
            let max_offset = if count > height {
                count - height
            } else {
                0
            };
            if offset < max_offset {
                (if offset + height < max_offset {
                    offset + height
                } else {
                    max_offset
                }, height - 1, keys_mode)
            } else if selected < height - 1 {
                (offset, height - 1, false)
            } else {
                (offset, selected, false)
            }
        },
    }
}

} // verus!
