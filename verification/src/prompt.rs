//! The state of the prompt that asks which archive to install when several
//! match: one list per group of archives, the selection in each list, and
//! how keys move the selection.

use vstd::prelude::*;

use crate::archive::{Archive, ArchiveView};
use crate::catalog::{group_views, index_of};

verus! {

/// The state of one list on screen: the selected row, if any, and the first
/// row shown. A selection past the last row stands until the list is drawn,
/// which moves it to the last row.
#[derive(Debug, Clone, Copy, PartialEq, Eq, Structural)]
pub struct ListSelection {
    pub selected: Option<usize>,
    pub offset: usize,
}

impl ListSelection {
    /// Selects `index`; selecting nothing also scrolls back to the top.
    pub open spec fn after_select(self, index: Option<usize>) -> ListSelection {
        ListSelection {
            selected: index,
            offset: if index is None {
                0
            } else {
                self.offset
            },
        }
    }

    /// Selects the row after the selected one, or the first row when none is
    /// selected; the index saturates at `usize::MAX`.
    pub open spec fn after_next(self) -> ListSelection {
        self.after_select(
            Some(
                match self.selected {
                    Some(i) => if i == usize::MAX {
                        i
                    } else {
                        (i + 1) as usize
                    },
                    None => 0,
                },
            ),
        )
    }

    /// Selects the row before the selected one, staying at the first row, or
    /// the last row (`usize::MAX`) when none is selected.
    pub open spec fn after_previous(self) -> ListSelection {
        self.after_select(
            Some(
                match self.selected {
                    Some(i) => if i == 0 {
                        0
                    } else {
                        (i - 1) as usize
                    },
                    None => usize::MAX,
                },
            ),
        )
    }

    /// Nothing selected, scrolled to the top.
    pub open spec fn new_spec() -> ListSelection {
        ListSelection { selected: None, offset: 0 }
    }

    /// Nothing selected, scrolled to the top.
    pub fn new() -> (s: ListSelection)
        ensures
            s == ListSelection::new_spec(),
    {
        ListSelection { selected: None, offset: 0 }
    }

    /// Selects `index`; selecting nothing also scrolls back to the top.
    pub fn select(&mut self, index: Option<usize>)
        ensures
            *final(self) == old(self).after_select(index),
    {
        self.selected = index;
        if index.is_none() {
            self.offset = 0;
        }
    }

    /// Selects the row after the selected one, or the first row.
    pub fn select_next(&mut self)
        ensures
            *final(self) == old(self).after_next(),
    {
        let next = match self.selected {
            Some(i) => if i == usize::MAX {
                i
            } else {
                i + 1
            },
            None => 0,
        };
        self.select(Some(next));
    }

    /// Selects the row before the selected one, or the last row.
    pub fn select_previous(&mut self)
        ensures
            *final(self) == old(self).after_previous(),
    {
        let previous = match self.selected {
            Some(i) => if i == 0 {
                0
            } else {
                i - 1
            },
            None => usize::MAX,
        };
        self.select(Some(previous));
    }

    /// Selects the first row.
    pub fn select_first(&mut self)
        ensures
            *final(self) == old(self).after_select(Some(0)),
    {
        self.select(Some(0));
    }

    /// Selects the last row, whatever its index.
    pub fn select_last(&mut self)
        ensures
            *final(self) == old(self).after_select(Some(usize::MAX)),
    {
        self.select(Some(usize::MAX));
    }
}

/// The effect of the down key on the list at `idx`, given the lengths of
/// the lists, or `None` where the selected list is empty and its last row
/// cannot be computed: a selection within a list moves down; at the last
/// row of a list that is not the last one it moves to the first row of the
/// next list, which is then looked at in turn.
pub open spec fn next_step(lens: Seq<int>, states: Seq<ListSelection>, idx: int) -> Option<
    Seq<ListSelection>,
> {
    match states[idx].selected {
        None => Some(states),
        Some(offset) => if lens[idx] == 0 {
            None
        } else if offset == lens[idx] - 1 {
            if idx == lens.len() - 1 {
                Some(states)
            } else {
                Some(
                    states.update(idx, states[idx].after_select(None)).update(
                        idx + 1,
                        states[idx + 1].after_select(Some(0)),
                    ),
                )
            }
        } else {
            Some(states.update(idx, states[idx].after_next()))
        },
    }
}

/// The down key applied to the lists from `idx` on, in order.
pub open spec fn next_from(lens: Seq<int>, states: Seq<ListSelection>, idx: int) -> Option<
    Seq<ListSelection>,
>
    decreases lens.len() - idx,
{
    if idx < 0 || idx >= lens.len() {
        Some(states)
    } else {
        match next_step(lens, states, idx) {
            None => None,
            Some(s) => next_from(lens, s, idx + 1),
        }
    }
}

/// The effect of the up key on the list at `idx`: a selection within a
/// list moves up; at the first row of a list that is not the first one it
/// moves to the last row of the list before.
pub open spec fn previous_step(states: Seq<ListSelection>, idx: int) -> Seq<ListSelection> {
    match states[idx].selected {
        None => states,
        Some(offset) => if offset == 0 {
            if idx == 0 {
                states
            } else {
                states.update(idx, states[idx].after_select(None)).update(
                    idx - 1,
                    states[idx - 1].after_select(Some(usize::MAX)),
                )
            }
        } else {
            states.update(idx, states[idx].after_previous())
        },
    }
}

/// The up key applied to the lists from `idx` on, in order.
pub open spec fn previous_from(states: Seq<ListSelection>, idx: int) -> Seq<ListSelection>
    decreases states.len() - idx,
{
    if idx < 0 || idx >= states.len() {
        states
    } else {
        previous_from(previous_step(states, idx), idx + 1)
    }
}

/// Every list with nothing selected.
pub open spec fn none_selected(states: Seq<ListSelection>) -> Seq<ListSelection> {
    states.map_values(|s: ListSelection| s.after_select(None))
}

/// The first list from `idx` on with a selection, and the selected row.
pub open spec fn first_selected_from(states: Seq<ListSelection>, idx: int) -> Option<(int, int)>
    decreases states.len() - idx,
{
    if idx < 0 || idx >= states.len() {
        None
    } else {
        match states[idx].selected {
            Some(offset) => Some((idx, offset as int)),
            None => first_selected_from(states, idx + 1),
        }
    }
}

/// The first list with a selection, and the selected row.
pub open spec fn first_selected(states: Seq<ListSelection>) -> Option<(int, int)> {
    first_selected_from(states, 0)
}

/// At most one list has a selection.
pub open spec fn at_most_one_selected(states: Seq<ListSelection>) -> bool {
    forall|i: int, j: int|
        0 <= i < states.len() && 0 <= j < states.len() && (#[trigger] states[i]).selected is Some
            && (#[trigger] states[j]).selected is Some ==> i == j
}

/// The number of bytes of `s` in UTF-8, as `str::len` gives it.
pub open spec fn byte_len(s: Seq<char>) -> usize {
    vstd::utf8::encode_utf8(s).len() as usize
}

/// The longest base name among the groups, in bytes, or 0.
pub open spec fn is_longest_base_name(groups: Seq<Seq<ArchiveView>>, n: int) -> bool {
    &&& forall|g: int, i: int|
        0 <= g < groups.len() && 0 <= i < groups[g].len() ==> byte_len(
            #[trigger] groups[g][i].base_name,
        ) <= n
    &&& n == 0 || exists|g: int, i: int|
        0 <= g < groups.len() && 0 <= i < groups[g].len() && byte_len(
            #[trigger] groups[g][i].base_name,
        ) == n
}

/// The height of the box of a list of `len` rows.
pub open spec fn box_height(len: int) -> int {
    if len <= 65535 {
        len + 4
    } else {
        5
    }
}

/// The width of the box of a list whose longest row has `longest` bytes.
pub open spec fn content_width_for(longest: int, area_width: u16) -> int {
    if longest + 7 <= 65535 {
        longest + 7
    } else {
        area_width as int
    }
}

/// A key that the prompt reads.
#[derive(Debug, Clone, Copy, PartialEq, Eq, Structural)]
pub enum KeyInput {
    Char(char),
    Up,
    Down,
    Enter,
    Other,
}

/// What a key does.
pub enum KeyAction {
    /// Give up: nothing selected, and stop.
    Quit,
    /// Move the selection down.
    Next,
    /// Move the selection up.
    Previous,
    /// Take the selection, and stop.
    Accept,
    /// Nothing.
    Ignore,
}

/// What `key` does: `q` quits, `j` and down move down, `k` and up move up,
/// enter accepts; other keys are ignored.
pub open spec fn key_action(key: KeyInput) -> KeyAction {
    match key {
        KeyInput::Char(c) => if c == 'q' {
            KeyAction::Quit
        } else if c == 'j' {
            KeyAction::Next
        } else if c == 'k' {
            KeyAction::Previous
        } else {
            KeyAction::Ignore
        },
        KeyInput::Down => KeyAction::Next,
        KeyInput::Up => KeyAction::Previous,
        KeyInput::Enter => KeyAction::Accept,
        KeyInput::Other => KeyAction::Ignore,
    }
}

/// The number of archives of each group.
pub open spec fn group_lens<'a>(groups: Seq<Vec<&'a Archive>>) -> Seq<int> {
    groups.map_values(|g: Vec<&'a Archive>| g.len() as int)
}

/// Applies the down key to the list states `states` of `groups`, and tells
/// whether it is defined there; where it is, `states` ends as the key leaves
/// them.
fn apply_down<'a>(groups: &Vec<Vec<&'a Archive>>, states: &mut Vec<ListSelection>) -> (ok: bool)
    requires
        old(states)@.len() == groups@.len(),
    ensures
        final(states)@.len() == old(states)@.len(),
        ok == next_from(group_lens(groups@), old(states)@, 0) is Some,
        ok ==> final(states)@ == next_from(group_lens(groups@), old(states)@, 0)->0,
{
    let ghost lens = group_lens(groups@);
    let n = states.len();
    let mut idx: usize = 0;
    while idx < n
        invariant
            n == states@.len(),
            n == old(states)@.len(),
            n == lens.len(),
            lens == group_lens(groups@),
            idx <= n,
            next_from(lens, old(states)@, 0) == next_from(lens, states@, index_of(idx)),
        decreases n - idx,
    {
        let mut lst = states[idx];
        match lst.selected {
            Some(offset) => {
                let len = groups[idx].len();
                assert(len == lens[index_of(idx)]);
                if len == 0 {
                    return false;
                }
                if offset == len - 1 {
                    if idx == n - 1 {
                    } else {
                        lst.select(None);
                        states.set(idx, lst);
                        let mut after = states[idx + 1];
                        after.select_first();
                        states.set(idx + 1, after);
                    }
                } else {
                    lst.select_next();
                    states.set(idx, lst);
                }
            },
            None => {},
        }
        idx = idx + 1;
    }
    true
}

/// The prompt: groups of archives of one name each, the selection state of
/// the list of each group, and the length in bytes of the longest base name.
pub struct DisambiguationPrompt<'a> {
    archive_groups: Vec<Vec<&'a Archive>>,
    group_list_states: Vec<ListSelection>,
    longest_base_name: usize,
}

impl<'a> DisambiguationPrompt<'a> {
    /// The groups of archives.
    pub closed spec fn groups(&self) -> Seq<Seq<ArchiveView>> {
        group_views(self.archive_groups@)
    }

    /// The number of archives in each group.
    pub closed spec fn lens(&self) -> Seq<int> {
        group_lens(self.archive_groups@)
    }

    /// The selection state of each group's list.
    pub closed spec fn states(&self) -> Seq<ListSelection> {
        self.group_list_states@
    }

    /// The length in bytes of the longest base name.
    pub closed spec fn longest(&self) -> int {
        self.longest_base_name as int
    }

    /// There is one list state per group.
    pub closed spec fn well_formed(&self) -> bool {
        self.group_list_states@.len() == self.archive_groups@.len()
    }

    /// A prompt over `archive_groups`: the first row of the first group is
    /// selected, nothing else is, and the length in bytes of the longest base
    /// name of all archives is kept (0 when there are none).
    pub fn new(archive_groups: Vec<Vec<&'a Archive>>) -> (p: Self)
        ensures
            p.well_formed(),
            p.groups() == group_views(archive_groups@),
            p.states().len() == archive_groups@.len(),
            forall|i: int|
                0 <= i < p.states().len() ==> #[trigger] p.states()[i] == (ListSelection {
                    selected: if i == 0 {
                        Some(0usize)
                    } else {
                        None
                    },
                    offset: 0,
                }),
            is_longest_base_name(p.groups(), p.longest()),
    {
        let n = archive_groups.len();
        let mut states: Vec<ListSelection> = Vec::new();
        let mut k: usize = 0;
        while k < n
            invariant
                k <= n,
                states@.len() == k,
                forall|i: int| 0 <= i < k ==> #[trigger] states@[i] == ListSelection::new_spec(),
            decreases n - k,
        {
            states.push(ListSelection::new());
            k = k + 1;
        }
        if states.len() > 0 {
            let mut first = states[0];
            first.select_first();
            states.set(0, first);
        }
        let ghost groups = group_views(archive_groups@);
        let mut longest: usize = 0;
        let mut g: usize = 0;
        while g < n
            invariant
                n == archive_groups@.len(),
                groups == group_views(archive_groups@),
                g <= n,
                forall|h: int, i: int|
                    0 <= h < g && 0 <= i < groups[h].len() ==> byte_len(
                        #[trigger] groups[h][i].base_name,
                    ) <= longest,
                longest == 0 || exists|h: int, i: int|
                    0 <= h < g && 0 <= i < groups[h].len() && byte_len(
                        #[trigger] groups[h][i].base_name,
                    ) == longest,
            decreases n - g,
        {
            let group = &archive_groups[g];
            let mut i: usize = 0;
            while i < group.len()
                invariant
                    n == archive_groups@.len(),
                    groups == group_views(archive_groups@),
                    g < n,
                    *group == archive_groups@[index_of(g)],
                    i <= group.len(),
                    forall|h: int, j: int|
                        0 <= h < g && 0 <= j < groups[h].len() ==> byte_len(
                            #[trigger] groups[h][j].base_name,
                        ) <= longest,
                    forall|j: int|
                        0 <= j < i ==> byte_len(#[trigger] groups[index_of(g)][j].base_name)
                            <= longest,
                    longest == 0 || exists|h: int, j: int|
                        ((0 <= h < g && 0 <= j < groups[h].len()) || (h == g && 0 <= j < i))
                            && byte_len(#[trigger] groups[h][j].base_name) == longest,
                decreases group.len() - i,
            {
                let len = group[i].base_name().len();
                assert(groups[index_of(g)][index_of(i)] == group@[index_of(i)]@);
                if len > longest {
                    longest = len;
                }
                i = i + 1;
            }
            g = g + 1;
        }
        DisambiguationPrompt { archive_groups, group_list_states: states, longest_base_name: longest }
    }

    /// Clears the selection of every list.
    pub fn select_none(&mut self)
        requires
            old(self).well_formed(),
        ensures
            final(self).well_formed(),
            final(self).groups() == old(self).groups(),
            final(self).lens() == old(self).lens(),
            final(self).longest() == old(self).longest(),
            final(self).states() == none_selected(old(self).states()),
    {
        let n = self.group_list_states.len();
        let mut idx: usize = 0;
        while idx < n
            invariant
                n == self.group_list_states@.len(),
                n == old(self).states().len(),
                self.well_formed(),
                self.groups() == old(self).groups(),
                self.lens() == old(self).lens(),
                self.longest() == old(self).longest(),
                idx <= n,
                forall|i: int|
                    0 <= i < n ==> #[trigger] self.states()[i] == if i < idx {
                        old(self).states()[i].after_select(None)
                    } else {
                        old(self).states()[i]
                    },
            decreases n - idx,
        {
            let ghost before = self.states();
            let mut lst = self.group_list_states[idx];
            assert(lst == old(self).states()[index_of(idx)]);
            lst.select(None);
            self.group_list_states.set(idx, lst);
            assert(self.states() == before.update(index_of(idx), lst));
            idx = idx + 1;
        }
        assert(self.states() =~= none_selected(old(self).states()));
    }

    /// The down key: within a list the selection moves down; at the last row
    /// of a list other than the last it moves to the first row of the next
    /// list, and the lists after are looked at in turn.
    pub fn select_next(&mut self)
        requires
            old(self).well_formed(),
            next_from(old(self).lens(), old(self).states(), 0) is Some,
        ensures
            final(self).well_formed(),
            final(self).groups() == old(self).groups(),
            final(self).lens() == old(self).lens(),
            final(self).longest() == old(self).longest(),
            final(self).states() == next_from(old(self).lens(), old(self).states(), 0)->0,
    {
        let _ = apply_down(&self.archive_groups, &mut self.group_list_states);
    }

    /// The up key: within a list the selection moves up; at the first row of
    /// a list other than the first it moves to the last row of the list
    /// before.
    pub fn select_prev(&mut self)
        requires
            old(self).well_formed(),
        ensures
            final(self).well_formed(),
            final(self).groups() == old(self).groups(),
            final(self).lens() == old(self).lens(),
            final(self).longest() == old(self).longest(),
            final(self).states() == previous_from(old(self).states(), 0),
    {
        let n = self.group_list_states.len();
        let mut idx: usize = 0;
        while idx < n
            invariant
                n == self.group_list_states@.len(),
                self.well_formed(),
                self.groups() == old(self).groups(),
                self.lens() == old(self).lens(),
                self.longest() == old(self).longest(),
                idx <= n,
                previous_from(old(self).states(), 0) == previous_from(
                    self.states(),
                    index_of(idx),
                ),
            decreases n - idx,
        {
            let mut lst = self.group_list_states[idx];
            match lst.selected {
                Some(offset) => {
                    if offset == 0 {
                        if idx == 0 {
                        } else {
                            lst.select(None);
                            self.group_list_states.set(idx, lst);
                            let mut before = self.group_list_states[idx - 1];
                            before.select_last();
                            self.group_list_states.set(idx - 1, before);
                        }
                    } else {
                        lst.select_previous();
                        self.group_list_states.set(idx, lst);
                    }
                },
                None => {},
            }
            idx = idx + 1;
        }
    }

    /// The archive at the selected row of the first list that has a
    /// selection, if any list has one.
    pub fn selected_archive(&self) -> (r: Option<&'a Archive>)
        requires
            self.well_formed(),
            first_selected(self.states()) matches Some((g, o)) ==> o < self.lens()[g],
        ensures
            match r {
                Some(a) => first_selected(self.states()) matches Some((g, o)) && a@
                    == self.groups()[g][o],
                None => first_selected(self.states()) is None,
            },
    {
        let n = self.group_list_states.len();
        let mut idx: usize = 0;
        while idx < n
            invariant
                n == self.group_list_states@.len(),
                self.well_formed(),
                idx <= n,
                first_selected(self.states()) == first_selected_from(self.states(), index_of(idx)),
                first_selected(self.states()) matches Some((g, o)) ==> o < self.lens()[g],
            decreases n - idx,
        {
            match self.group_list_states[idx].selected {
                Some(offset) => {
                    let a: &'a Archive = self.archive_groups[idx][offset];
                    return Some(a);
                },
                None => {},
            }
            idx = idx + 1;
        }
        None
    }

    /// Acts on `key`: `q` clears the selection and stops, `j` or down moves
    /// the selection down, `k` or up moves it up, enter stops and keeps the
    /// selection, other keys do nothing. Gives whether the prompt is done.
    pub fn handle_input(&mut self, key: &KeyInput) -> (done: bool)
        requires
            old(self).well_formed(),
            key_action(*key) is Next ==> next_from(old(self).lens(), old(self).states(), 0) is Some,
        ensures
            final(self).well_formed(),
            final(self).groups() == old(self).groups(),
            final(self).lens() == old(self).lens(),
            final(self).longest() == old(self).longest(),
            match key_action(*key) {
                KeyAction::Quit => done && final(self).states() == none_selected(old(self).states()),
                KeyAction::Next => !done && final(self).states() == next_from(
                    old(self).lens(),
                    old(self).states(),
                    0,
                )->0,
                KeyAction::Previous => !done && final(self).states() == previous_from(
                    old(self).states(),
                    0,
                ),
                KeyAction::Accept => done && final(self).states() == old(self).states(),
                KeyAction::Ignore => !done && final(self).states() == old(self).states(),
            },
    {
        match *key {
            KeyInput::Char('q') => {
                self.select_none();
                return true;
            },
            KeyInput::Char('j') | KeyInput::Down => self.select_next(),
            KeyInput::Char('k') | KeyInput::Up => self.select_prev(),
            KeyInput::Enter => {
                return true;
            },
            _ => {},
        }
        false
    }

    /// The number of groups.
    pub fn group_count(&self) -> (n: usize)
        ensures
            n == self.groups().len(),
    {
        self.archive_groups.len()
    }

    /// The number of archives in the group at `idx`.
    pub fn group_len(&self, idx: usize) -> (n: usize)
        requires
            idx < self.groups().len(),
        ensures
            n == self.groups()[index_of(idx)].len(),
            n == self.lens()[index_of(idx)],
    {
        self.archive_groups[idx].len()
    }

    /// The selection state of the list of the group at `idx`.
    pub fn list_selection(&self, idx: usize) -> (s: ListSelection)
        requires
            self.well_formed(),
            idx < self.states().len(),
        ensures
            s == self.states()[index_of(idx)],
    {
        self.group_list_states[idx]
    }

    /// Records the state that drawing left the list of the group at `idx`
    /// in.
    pub fn set_list_selection(&mut self, idx: usize, state: ListSelection)
        requires
            old(self).well_formed(),
            idx < old(self).states().len(),
        ensures
            final(self).well_formed(),
            final(self).groups() == old(self).groups(),
            final(self).lens() == old(self).lens(),
            final(self).longest() == old(self).longest(),
            final(self).states() == old(self).states().update(index_of(idx), state),
    {
        self.group_list_states.set(idx, state);
    }

    /// The length in bytes of the longest base name.
    pub fn longest_base_name(&self) -> (n: usize)
        ensures
            n == self.longest(),
    {
        self.longest_base_name
    }

    /// The base names of the archives of the group at `idx`, the rows of its
    /// list.
    pub fn group_items(&self, idx: usize) -> (items: Vec<&'a str>)
        requires
            idx < self.groups().len(),
        ensures
            items@.len() == self.groups()[index_of(idx)].len(),
            forall|i: int|
                0 <= i < items@.len() ==> (#[trigger] items@[i])@ == self.groups()[index_of(
                    idx,
                )][i].base_name,
    {
        let group = &self.archive_groups[idx];
        let mut items: Vec<&'a str> = Vec::new();
        let mut i: usize = 0;
        while i < group.len()
            invariant
                *group == self.archive_groups@[index_of(idx)],
                idx < self.archive_groups@.len(),
                i <= group.len(),
                items@.len() == i,
                forall|j: int|
                    0 <= j < i ==> (#[trigger] items@[j])@ == self.groups()[index_of(idx)][j].base_name,
            decreases group.len() - i,
        {
            let a: &'a Archive = group[i];
            items.push(a.base_name());
            i = i + 1;
        }
        items
    }

    /// The title of the list of the group at `idx`: the name that its
    /// archives share (that of its first archive).
    pub fn group_title(&self, idx: usize) -> (title: &'a str)
        requires
            idx < self.groups().len(),
            self.groups()[index_of(idx)].len() > 0,
        ensures
            title@ == self.groups()[index_of(idx)][0].name,
    {
        let a: &'a Archive = self.archive_groups[idx][0];
        a.name()
    }

    /// The height of the box of each group's list: its rows plus four for the
    /// border and the padding, or five rows where the count does not fit in
    /// a `u16`.
    pub fn group_heights(&self) -> (heights: Vec<u16>)
        requires
            forall|g: int| 0 <= g < self.lens().len() ==> !(65532 <= #[trigger] self.lens()[g] <= 65535),
        ensures
            heights@.len() == self.lens().len(),
            forall|g: int| 0 <= g < heights@.len() ==> #[trigger] heights@[g] == box_height(self.lens()[g]),
    {
        let mut heights: Vec<u16> = Vec::new();
        let mut g: usize = 0;
        while g < self.archive_groups.len()
            invariant
                g <= self.archive_groups@.len(),
                forall|h: int| 0 <= h < self.lens().len() ==> !(65532 <= #[trigger] self.lens()[h] <= 65535),
                heights@.len() == g,
                forall|h: int| 0 <= h < g ==> #[trigger] heights@[h] == box_height(self.lens()[h]),
            decreases self.archive_groups@.len() - g,
        {
            let len = self.archive_groups[g].len();
            assert(len == self.lens()[index_of(g)]);
            let rows: u16 = if len <= 65535 {
                len as u16
            } else {
                1
            };
            heights.push(rows + 4);
            g = g + 1;
        }
        heights
    }

    /// The width of the box of each list: the longest base name plus seven,
    /// or `area_width` where that does not fit in a `u16`.
    pub fn content_width(&self, area_width: u16) -> (w: u16)
        requires
            self.longest() + 7 <= usize::MAX,
        ensures
            w == content_width_for(self.longest(), area_width),
    {
        let wanted = self.longest_base_name + 7;
        if wanted <= 65535 {
            wanted as u16
        } else {
            area_width
        }
    }

    /// Whether the down key is defined in this state: it is not where it
    /// would reach a selection in an empty group, whose last row does not
    /// exist.
    pub fn down_key_defined(&self) -> (b: bool)
        requires
            self.well_formed(),
        ensures
            b == next_from(self.lens(), self.states(), 0) is Some,
    {
        let mut states: Vec<ListSelection> = Vec::new();
        let mut k: usize = 0;
        while k < self.group_list_states.len()
            invariant
                k <= self.group_list_states@.len(),
                states@ == self.states().take(index_of(k)),
            decreases self.group_list_states@.len() - k,
        {
            states.push(self.group_list_states[k]);
            proof {
                assert(self.states().take(index_of(k) + 1) =~= self.states().take(index_of(k)).push(
                    self.states()[index_of(k)],
                ));
            }
            k = k + 1;
        }
        assert(self.states().take(self.states().len() as int) =~= self.states());
        apply_down(&self.archive_groups, &mut states)
    }

    /// Moving down then up within a group, from a row that is not the last
    /// one, comes back to the same state, when no other list has a
    /// selection.
    pub proof fn lemma_down_then_up_restores(&self, g: int, o: usize)
        requires
            self.well_formed(),
            0 <= g < self.states().len(),
            self.states()[g].selected == Some(o),
            forall|i: int| 0 <= i < self.states().len() && i != g ==> (#[trigger] self.states()[i]).selected is None,
            o + 1 < self.lens()[g],
        ensures
            next_from(self.lens(), self.states(), 0) == Some(
                self.states().update(g, self.states()[g].after_next()),
            ),
            previous_from(next_from(self.lens(), self.states(), 0)->0, 0) == self.states(),
    {
        let lens = self.lens();
        let states = self.states();
        assert(lens[g] == self.archive_groups@[g].len());
        let moved = states.update(g, states[g].after_next());
        lemma_next_skips_unselected(lens, states, 0, g);
        lemma_next_skips_unselected(lens, moved, g + 1, lens.len() as int);
        assert(next_step(lens, states, g) == Some(moved));
        lemma_previous_skips_unselected(moved, 0, g);
        lemma_previous_skips_unselected(states, g + 1, states.len() as int);
        assert(previous_step(moved, g) =~= states);
    }

    /// The groups and their sizes agree.
    pub proof fn lemma_lens(&self)
        ensures
            self.lens().len() == self.groups().len(),
            forall|g: int| 0 <= g < self.lens().len() ==> #[trigger] self.lens()[g] == self.groups()[g].len(),
            self.well_formed() ==> self.states().len() == self.lens().len(),
    {
    }
}


/// Lists without a selection are left alone by the down key.
pub proof fn lemma_next_skips_unselected(lens: Seq<int>, states: Seq<ListSelection>, idx: int, k: int)
    requires
        0 <= idx <= k <= lens.len(),
        lens.len() == states.len(),
        forall|i: int| idx <= i < k ==> (#[trigger] states[i]).selected is None,
    ensures
        next_from(lens, states, idx) == next_from(lens, states, k),
    decreases k - idx,
{
    if idx < k {
        lemma_next_skips_unselected(lens, states, idx + 1, k);
    }
}

/// Lists without a selection are left alone by the up key.
pub proof fn lemma_previous_skips_unselected(states: Seq<ListSelection>, idx: int, k: int)
    requires
        0 <= idx <= k <= states.len(),
        forall|i: int| idx <= i < k ==> (#[trigger] states[i]).selected is None,
    ensures
        previous_from(states, idx) == previous_from(states, k),
    decreases k - idx,
{
    if idx < k {
        lemma_previous_skips_unselected(states, idx + 1, k);
    }
}

/// The down key keeps at most one list selected.
pub proof fn lemma_next_keeps_one_selected(lens: Seq<int>, states: Seq<ListSelection>, idx: int)
    requires
        0 <= idx,
        lens.len() == states.len(),
        at_most_one_selected(states),
        next_from(lens, states, idx) is Some,
    ensures
        at_most_one_selected(next_from(lens, states, idx)->0),
        next_from(lens, states, idx)->0.len() == states.len(),
    decreases lens.len() - idx,
{
    if idx < lens.len() {
        let s2 = next_step(lens, states, idx)->0;
        assert(at_most_one_selected(s2)) by {
            if states[idx].selected is Some {
                assert forall|i: int, j: int|
                    0 <= i < s2.len() && 0 <= j < s2.len() && (#[trigger] s2[i]).selected is Some
                        && (#[trigger] s2[j]).selected is Some implies i == j by {
                    if i != idx && i != idx + 1 {
                        assert(s2[i] == states[i]);
                    }
                    if j != idx && j != idx + 1 {
                        assert(s2[j] == states[j]);
                    }
                    if i == idx + 1 && s2[i] != states[i] {
                        assert(s2[idx].selected is None);
                    }
                    if j == idx + 1 && s2[j] != states[j] {
                        assert(s2[idx].selected is None);
                    }
                }
            }
        }
        lemma_next_keeps_one_selected(lens, s2, idx + 1);
    }
}

/// The up key keeps at most one list selected.
pub proof fn lemma_previous_keeps_one_selected(states: Seq<ListSelection>, idx: int)
    requires
        0 <= idx,
        at_most_one_selected(states),
    ensures
        at_most_one_selected(previous_from(states, idx)),
        previous_from(states, idx).len() == states.len(),
    decreases states.len() - idx,
{
    if idx < states.len() {
        let s2 = previous_step(states, idx);
        assert(at_most_one_selected(s2)) by {
            if states[idx].selected is Some {
                assert forall|i: int, j: int|
                    0 <= i < s2.len() && 0 <= j < s2.len() && (#[trigger] s2[i]).selected is Some
                        && (#[trigger] s2[j]).selected is Some implies i == j by {
                    if i != idx && i != idx - 1 {
                        assert(s2[i] == states[i]);
                    }
                    if j != idx && j != idx - 1 {
                        assert(s2[j] == states[j]);
                    }
                    if i == idx - 1 && s2[i] != states[i] {
                        assert(s2[idx].selected is None);
                    }
                    if j == idx - 1 && s2[j] != states[j] {
                        assert(s2[idx].selected is None);
                    }
                }
            }
        }
        lemma_previous_keeps_one_selected(s2, idx + 1);
    }
}

/// After the quit key nothing is selected, so no archive is chosen.
pub proof fn lemma_none_selected_chooses_nothing(states: Seq<ListSelection>, idx: int)
    requires
        0 <= idx,
    ensures
        first_selected_from(none_selected(states), idx) is None,
        at_most_one_selected(none_selected(states)),
    decreases states.len() - idx,
{
    if idx < states.len() {
        lemma_none_selected_chooses_nothing(states, idx + 1);
    }
}


/// Every selection lies within its list.
pub open spec fn selections_in_bounds(lens: Seq<int>, states: Seq<ListSelection>) -> bool {
    forall|i: int|
        0 <= i < states.len() ==> ((#[trigger] states[i]).selected matches Some(o) ==> o < lens[i])
}

/// With no empty list, the down key keeps every selection within its list:
/// unlike the up key, it never needs drawing to pull a selection back.
pub proof fn lemma_next_keeps_selections_in_bounds(lens: Seq<int>, states: Seq<ListSelection>, idx: int)
    requires
        0 <= idx,
        lens.len() == states.len(),
        forall|i: int| 0 <= i < lens.len() ==> #[trigger] lens[i] > 0,
        selections_in_bounds(lens, states),
    ensures
        next_from(lens, states, idx) matches Some(r) && selections_in_bounds(lens, r) && r.len()
            == states.len(),
    decreases lens.len() - idx,
{
    if idx < lens.len() {
        let s2 = next_step(lens, states, idx)->0;
        assert(selections_in_bounds(lens, s2)) by {
            assert forall|i: int| 0 <= i < s2.len() implies ((#[trigger] s2[i]).selected matches Some(o)
                ==> o < lens[i]) by {
                if i != idx && i != idx + 1 {
                    assert(s2[i] == states[i]);
                }
            }
        }
        lemma_next_keeps_selections_in_bounds(lens, s2, idx + 1);
    }
}


/// Exactly one list has a selection.
pub open spec fn exactly_one_selected(states: Seq<ListSelection>) -> bool {
    &&& at_most_one_selected(states)
    &&& exists|i: int| 0 <= i < states.len() && (#[trigger] states[i]).selected is Some
}

/// Every selection lies within its list, or is the "last row" index
/// `usize::MAX` that drawing the list turns into its last row.
pub open spec fn selections_in_bounds_once_drawn(lens: Seq<int>, states: Seq<ListSelection>) -> bool {
    forall|i: int|
        0 <= i < states.len() ==> ((#[trigger] states[i]).selected matches Some(o) ==> (o
            < lens[i] || o == usize::MAX))
}

/// The down key never drops the selection where it is defined.
proof fn lemma_next_keeps_a_selection(lens: Seq<int>, states: Seq<ListSelection>, idx: int, k: int)
    requires
        0 <= idx,
        lens.len() == states.len(),
        0 <= k < states.len(),
        states[k].selected is Some,
        next_from(lens, states, idx) is Some,
    ensures
        exists|i: int|
            0 <= i < states.len() && (#[trigger] next_from(lens, states, idx)->0[i]).selected is Some,
        next_from(lens, states, idx)->0.len() == states.len(),
    decreases lens.len() - idx,
{
    if idx < lens.len() {
        let s2 = next_step(lens, states, idx)->0;
        let k2 = if k == idx && s2[k].selected is None {
            idx + 1
        } else {
            k
        };
        assert(s2[k2].selected is Some);
        lemma_next_keeps_a_selection(lens, s2, idx + 1, k2);
    } else {
        assert(next_from(lens, states, idx)->0[k].selected is Some);
    }
}

/// The up key never drops the selection, and, from selections within
/// their lists, leaves each selection within its list or at the "last row"
/// index.
proof fn lemma_previous_keeps_a_selection(lens: Seq<int>, states: Seq<ListSelection>, idx: int, k: int)
    requires
        0 <= idx,
        lens.len() == states.len(),
        0 <= k < states.len(),
        states[k].selected is Some,
        forall|i: int|
            idx <= i < states.len() ==> ((#[trigger] states[i]).selected matches Some(o) ==> o
                < lens[i]),
        forall|i: int|
            0 <= i < idx && i < states.len() ==> ((#[trigger] states[i]).selected matches Some(o)
                ==> (o < lens[i] || o == usize::MAX)),
    ensures
        exists|i: int|
            0 <= i < states.len() && (#[trigger] previous_from(states, idx)[i]).selected is Some,
        selections_in_bounds_once_drawn(lens, previous_from(states, idx)),
        previous_from(states, idx).len() == states.len(),
    decreases states.len() - idx,
{
    if idx < states.len() {
        let s2 = previous_step(states, idx);
        let k2 = if k == idx && s2[k].selected is None {
            idx - 1
        } else {
            k
        };
        assert(s2[k2].selected is Some);
        assert forall|i: int| idx + 1 <= i < s2.len() implies ((#[trigger] s2[i]).selected matches Some(
            o,
        ) ==> o < lens[i]) by {
            assert(s2[i] == states[i]);
        }
        assert forall|i: int| 0 <= i < idx + 1 && i < s2.len() implies ((#[trigger] s2[i]).selected matches Some(
            o,
        ) ==> (o < lens[i] || o == usize::MAX)) by {
            if i != idx && i != idx - 1 {
                assert(s2[i] == states[i]);
            }
        }
        lemma_previous_keeps_a_selection(lens, s2, idx + 1, k2);
    } else {
        assert(previous_from(states, idx)[k].selected is Some);
    }
}

/// With every group non-empty, one selection within its list, any key keeps
/// exactly one selection except quit, which leaves none: after the down key
/// it lies within its list; after the up key it lies within its list once
/// the list is drawn; enter and other keys change nothing.
pub proof fn lemma_keys_keep_one_selection(lens: Seq<int>, states: Seq<ListSelection>, key: KeyInput)
    requires
        lens.len() == states.len(),
        forall|i: int| 0 <= i < lens.len() ==> #[trigger] lens[i] > 0,
        exactly_one_selected(states),
        selections_in_bounds(lens, states),
    ensures
        match key_action(key) {
            KeyAction::Quit => forall|i: int|
                0 <= i < states.len() ==> (#[trigger] none_selected(states)[i]).selected is None,
            KeyAction::Next => next_from(lens, states, 0) matches Some(r) && exactly_one_selected(r)
                && selections_in_bounds(lens, r),
            KeyAction::Previous => exactly_one_selected(previous_from(states, 0))
                && selections_in_bounds_once_drawn(lens, previous_from(states, 0)),
            KeyAction::Accept => true,
            KeyAction::Ignore => true,
        },
{
    let k = choose|i: int| 0 <= i < states.len() && (#[trigger] states[i]).selected is Some;
    match key_action(key) {
        KeyAction::Next => {
            lemma_next_keeps_selections_in_bounds(lens, states, 0);
            lemma_next_keeps_one_selected(lens, states, 0);
            lemma_next_keeps_a_selection(lens, states, 0, k);
        },
        KeyAction::Previous => {
            lemma_previous_keeps_one_selected(states, 0);
            lemma_previous_keeps_a_selection(lens, states, 0, k);
        },
        _ => {},
    }
}


/// Helper for [`lemma_first_selected_is_first`], from list `idx` on.
proof fn lemma_first_selected_from_is_first(states: Seq<ListSelection>, idx: int)
    requires
        0 <= idx,
    ensures
        match first_selected_from(states, idx) {
            Some((g, o)) => {
                &&& idx <= g < states.len()
                &&& states[g].selected == Some(o as usize)
                &&& 0 <= o
                &&& forall|h: int| idx <= h < g ==> (#[trigger] states[h]).selected is None
            },
            None => forall|h: int| idx <= h < states.len() ==> (#[trigger] states[h]).selected is None,
        },
    decreases states.len() - idx,
{
    if idx < states.len() && states[idx].selected is None {
        lemma_first_selected_from_is_first(states, idx + 1);
    }
}

/// The archive the prompt ends on is at the selected row of the first list
/// that has a selection, no list before it has one, and there is none only
/// when no list has a selection.
pub proof fn lemma_first_selected_is_first(states: Seq<ListSelection>)
    ensures
        match first_selected(states) {
            Some((g, o)) => {
                &&& 0 <= g < states.len()
                &&& states[g].selected == Some(o as usize)
                &&& 0 <= o
                &&& forall|h: int| 0 <= h < g ==> (#[trigger] states[h]).selected is None
            },
            None => forall|h: int| 0 <= h < states.len() ==> (#[trigger] states[h]).selected is None,
        },
{
    lemma_first_selected_from_is_first(states, 0);
}

/// With one selection, at row `o` of list `g`, the up key moves it up a row
/// within the list; at the first row of any list but the first it clears
/// that list and selects the last row (`usize::MAX`, which drawing turns
/// into the last row) of the list just before; at the first row of the
/// first list it does nothing. No other list changes.
pub proof fn lemma_up_key_moves_one_selection(states: Seq<ListSelection>, g: int, o: usize)
    requires
        0 <= g < states.len(),
        states[g].selected == Some(o),
        forall|i: int| 0 <= i < states.len() && i != g ==> (#[trigger] states[i]).selected is None,
    ensures
        ({
            let r = previous_from(states, 0);
            &&& r.len() == states.len()
            &&& o > 0 ==> {
                &&& r[g].selected == Some((o - 1) as usize)
                &&& r[g].offset == states[g].offset
                &&& forall|i: int| 0 <= i < states.len() && i != g ==> #[trigger] r[i] == states[i]
            }
            &&& (o == 0 && g > 0) ==> {
                &&& r[g].selected is None
                &&& r[g - 1].selected == Some(usize::MAX)
                &&& forall|i: int|
                    0 <= i < states.len() && i != g && i != g - 1 ==> #[trigger] r[i] == states[i]
            }
            &&& (o == 0 && g == 0) ==> r == states
        }),
{
    lemma_previous_skips_unselected(states, 0, g);
    let s2 = previous_step(states, g);
    assert forall|i: int| g + 1 <= i < s2.len() implies (#[trigger] s2[i]).selected is None by {
        assert(s2[i] == states[i]);
    }
    lemma_previous_skips_unselected(s2, g + 1, s2.len() as int);
    lemma_previous_keeps_one_selected_len(s2);
}

/// The up key applied from past the end changes nothing.
proof fn lemma_previous_keeps_one_selected_len(states: Seq<ListSelection>)
    ensures
        previous_from(states, states.len() as int) == states,
{
}

/// Helper for [`lemma_down_key_moves_one_selection`]: a selection just put
/// on the first row of list `idx` is moved on by the rest of the down key.
proof fn lemma_next_cascade(lens: Seq<int>, states: Seq<ListSelection>, idx: int)
    requires
        0 <= idx < lens.len(),
        lens.len() == states.len(),
        forall|i: int| 0 <= i < lens.len() ==> #[trigger] lens[i] > 0,
        states[idx].selected == Some(0usize),
        forall|i: int| 0 <= i < states.len() && i != idx ==> (#[trigger] states[i]).selected is None,
    ensures
        next_from(lens, states, idx) matches Some(r) && r.len() == states.len() && exists|h: int|
            #![trigger r[h]]
            idx <= h < lens.len() && (forall|i: int| idx <= i < h ==> #[trigger] lens[i] == 1) && (
            lens[h] >= 2 || h == lens.len() - 1) && r[h].selected == Some(
                if lens[h] >= 2 {
                    1usize
                } else {
                    0usize
                },
            ) && forall|i: int| 0 <= i < r.len() && i != h ==> (#[trigger] r[i]).selected is None,
    decreases lens.len() - idx,
{
    let s2 = next_step(lens, states, idx)->0;
    if lens[idx] >= 2 || idx == lens.len() - 1 {
        assert forall|i: int| idx + 1 <= i < s2.len() implies (#[trigger] s2[i]).selected is None by {
            assert(s2[i] == states[i]);
        }
        lemma_next_skips_unselected(lens, s2, idx + 1, lens.len() as int);
        let r = next_from(lens, states, idx)->0;
        assert(r == s2);
        assert(r[idx].selected == Some(
            if lens[idx] >= 2 {
                1usize
            } else {
                0usize
            },
        ));
        assert forall|i: int| 0 <= i < r.len() && i != idx implies (#[trigger] r[i]).selected is None by {
            assert(s2[i] == states[i]);
        }
    } else {
        assert(s2[idx + 1].selected == Some(0usize));
        assert forall|i: int| 0 <= i < s2.len() && i != idx + 1 implies (#[trigger] s2[i]).selected is None by {
            if i != idx {
                assert(s2[i] == states[i]);
            }
        }
        lemma_next_cascade(lens, s2, idx + 1);
        let r = next_from(lens, states, idx)->0;
        let h = choose|h: int|
            #![trigger r[h]]
            idx + 1 <= h < lens.len() && (forall|i: int| idx + 1 <= i < h ==> #[trigger] lens[i] == 1)
                && (lens[h] >= 2 || h == lens.len() - 1) && r[h].selected == Some(
                if lens[h] >= 2 {
                    1usize
                } else {
                    0usize
                },
            ) && forall|i: int| 0 <= i < r.len() && i != h ==> (#[trigger] r[i]).selected is None;
        assert forall|i: int| idx <= i < h implies #[trigger] lens[i] == 1 by {
        }
    }
}

/// With every list non-empty and one selection, at row `o` of list `g`,
/// the down key moves it down a row within the list; at the last row of the
/// last list it does nothing; at the last row of any other list it clears
/// that list and the selection goes on into a later list `h`: the lists
/// between hold one row each (the selection passes through them), and it
/// lands on the second row of `h`, or on the only row of `h` where `h` is
/// the last list and has one row. Nothing else is selected.
pub proof fn lemma_down_key_moves_one_selection(lens: Seq<int>, states: Seq<ListSelection>, g: int, o: usize)
    requires
        lens.len() == states.len(),
        forall|i: int| 0 <= i < lens.len() ==> 0 < #[trigger] lens[i] <= usize::MAX,
        0 <= g < states.len(),
        states[g].selected == Some(o),
        o < lens[g],
        forall|i: int| 0 <= i < states.len() && i != g ==> (#[trigger] states[i]).selected is None,
    ensures
        next_from(lens, states, 0) matches Some(r) && r.len() == states.len() && {
            &&& o + 1 < lens[g] ==> {
                &&& r[g].selected == Some((o + 1) as usize)
                &&& r[g].offset == states[g].offset
                &&& forall|i: int| 0 <= i < states.len() && i != g ==> #[trigger] r[i] == states[i]
            }
            &&& (o + 1 == lens[g] && g == lens.len() - 1) ==> r == states
            &&& (o + 1 == lens[g] && g < lens.len() - 1) ==> {
                &&& r[g].selected is None
                &&& exists|h: int|
                    #![trigger r[h]]
                    g < h < lens.len() && (forall|i: int| g < i < h ==> #[trigger] lens[i] == 1) && (
                    lens[h] >= 2 || h == lens.len() - 1) && r[h].selected == Some(
                        if lens[h] >= 2 {
                            1usize
                        } else {
                            0usize
                        },
                    ) && forall|i: int| 0 <= i < r.len() && i != h ==> (#[trigger] r[i]).selected is None
            }
        },
{
    lemma_next_skips_unselected(lens, states, 0, g);
    let s2 = next_step(lens, states, g)->0;
    if o + 1 < lens[g] || g == lens.len() - 1 {
        assert forall|i: int| g + 1 <= i < s2.len() implies (#[trigger] s2[i]).selected is None by {
            assert(s2[i] == states[i]);
        }
        lemma_next_skips_unselected(lens, s2, g + 1, lens.len() as int);
        let r = next_from(lens, states, 0)->0;
        assert(r == s2);
        if o + 1 < lens[g] {
            assert(r[g].selected == Some((o + 1) as usize));
            assert forall|i: int| 0 <= i < states.len() && i != g implies #[trigger] r[i] == states[i] by {
            }
        } else {
            assert(r =~= states);
        }
    } else {
        assert(s2[g + 1].selected == Some(0usize));
        assert forall|i: int| 0 <= i < s2.len() && i != g + 1 implies (#[trigger] s2[i]).selected is None by {
            if i != g {
                assert(s2[i] == states[i]);
            }
        }
        lemma_next_cascade(lens, s2, g + 1);
        let r = next_from(lens, states, 0)->0;
        assert(r == next_from(lens, s2, g + 1)->0);
        assert(r[g].selected is None);
    }
}


/// The keys: `q` quits; `j` and down move down; `k` and up move up; enter
/// accepts; every other key, and every other character, does nothing.
pub proof fn lemma_key_bindings(c: char)
    ensures
        key_action(KeyInput::Char('q')) is Quit,
        key_action(KeyInput::Char('j')) is Next,
        key_action(KeyInput::Down) is Next,
        key_action(KeyInput::Char('k')) is Previous,
        key_action(KeyInput::Up) is Previous,
        key_action(KeyInput::Enter) is Accept,
        key_action(KeyInput::Other) is Ignore,
        c != 'q' && c != 'j' && c != 'k' ==> key_action(KeyInput::Char(c)) is Ignore,
{
}

} // verus!
