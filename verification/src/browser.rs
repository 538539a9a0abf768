use vstd::prelude::*;
use crate::lister::EntryInfo;

verus! {

/// One navigation command of the interactive browser.
#[derive(Clone, Copy, PartialEq, Eq, Structural, Debug)]
pub enum Command {
    MoveUp,
    MoveDown,
    Enter,
    Back,
    Open,
    Quit,
}

/// What the caller must do after a transition: re-list the current
/// directory and hand the listing back, open the selected entry through
/// the host, end the session, or nothing.
#[derive(Clone, Copy, PartialEq, Eq, Structural, Debug)]
pub enum Effect {
    Nothing,
    Relist,
    OpenSelected,
    Quit,
}

/// The interactive browser's whole state: the absolute path shown (as
/// segments, of which the first `root_len` are the browsing root), the
/// cached listing for it, and the cursor.
pub struct BrowserState {
    pub current_path: Vec<String>,
    pub root_len: usize,
    pub entries: Vec<EntryInfo>,
    pub selected: usize,
}

impl BrowserState {
    /// The cursor stays inside the listing, and the path never gets
    /// shorter than the browsing root.
    pub open spec fn wf(self) -> bool {
        &&& 1 <= self.root_len <= self.current_path@.len()
        &&& (self.entries@.len() == 0 ==> self.selected == 0)
        &&& (self.entries@.len() > 0 ==> self.selected < self.entries@.len())
    }

    /// Starts a session at the given root with its fresh listing.
    pub fn start(root: Vec<String>, entries: Vec<EntryInfo>) -> (s: BrowserState)
        requires
            root@.len() >= 1,
        ensures
            s.wf(),
            s.current_path@ == root@,
            s.root_len == root@.len(),
            s.entries@ == entries@,
            s.selected == 0,
    {
        let n = root.len();
        BrowserState { current_path: root, root_len: n, entries, selected: 0 }
    }

    /// Installs the listing fetched for the current path and rests the
    /// cursor at the top.
    pub fn set_entries(&mut self, entries: Vec<EntryInfo>)
        ensures
            final(self).wf() == (1 <= old(self).root_len <= old(self).current_path@.len()),
            final(self).current_path@ == old(self).current_path@,
            final(self).root_len == old(self).root_len,
            final(self).entries@ == entries@,
            final(self).selected == 0,
    {
        self.entries = entries;
        self.selected = 0;
    }

    /// One transition of the navigation state machine. The cursor moves
    /// clamp to the listing with no wraparound; descending is possible
    /// only into a directory and ascending never leaves the browsing
    /// root; both clear the listing and ask the caller to re-list.
    pub fn step(&mut self, cmd: Command) -> (eff: Effect)
        requires
            old(self).wf(),
        ensures
            final(self).wf(),
            final(self).root_len == old(self).root_len,
            match cmd {
                Command::MoveUp => {
                    &&& final(self).current_path@ == old(self).current_path@
                    &&& final(self).entries@ == old(self).entries@
                    &&& final(self).selected == (if old(self).selected > 0 {
                        old(self).selected - 1
                    } else {
                        0int
                    })
                    &&& eff == Effect::Nothing
                },
                Command::MoveDown => {
                    &&& final(self).current_path@ == old(self).current_path@
                    &&& final(self).entries@ == old(self).entries@
                    &&& final(self).selected == (if old(self).selected + 1 < old(
                        self,
                    ).entries@.len() {
                        old(self).selected + 1
                    } else {
                        old(self).selected as int
                    })
                    &&& eff == Effect::Nothing
                },
                Command::Enter => {
                    if old(self).selected < old(self).entries@.len() && old(self).entries@[old(
                        self,
                    ).selected as int].is_dir {
                        &&& final(self).current_path@ == old(self).current_path@.push(
                            old(self).entries@[old(self).selected as int].name,
                        )
                        &&& final(self).entries@.len() == 0
                        &&& final(self).selected == 0
                        &&& eff == Effect::Relist
                    } else {
                        &&& final(self).current_path@ == old(self).current_path@
                        &&& final(self).entries@ == old(self).entries@
                        &&& final(self).selected == old(self).selected
                        &&& eff == Effect::Nothing
                    }
                },
                Command::Back => {
                    if old(self).current_path@.len() > old(self).root_len {
                        &&& final(self).current_path@ == old(self).current_path@.drop_last()
                        &&& final(self).entries@.len() == 0
                        &&& final(self).selected == 0
                        &&& eff == Effect::Relist
                    } else {
                        &&& final(self).current_path@ == old(self).current_path@
                        &&& final(self).entries@ == old(self).entries@
                        &&& final(self).selected == old(self).selected
                        &&& eff == Effect::Nothing
                    }
                },
                Command::Open => {
                    &&& *final(self) == *old(self)
                    &&& eff == (if old(self).entries@.len() > 0 {
                        Effect::OpenSelected
                    } else {
                        Effect::Nothing
                    })
                },
                Command::Quit => {
                    &&& *final(self) == *old(self)
                    &&& eff == Effect::Quit
                },
            },
    {
        match cmd {
            Command::MoveUp => {
                if self.selected > 0 {
                    self.selected = self.selected - 1;
                }
                Effect::Nothing
            },
            Command::MoveDown => {
                let len = self.entries.len();
                if self.selected + 1 < len {
                    self.selected = self.selected + 1;
                }
                Effect::Nothing
            },
            Command::Enter => {
                if self.selected < self.entries.len() {
                    let is_dir = self.entries[self.selected].is_dir;
                    if is_dir {
                        let name = self.entries[self.selected].name.clone();
                        self.current_path.push(name);
                        self.entries = Vec::new();
                        self.selected = 0;
                        return Effect::Relist;
                    }
                }
                Effect::Nothing
            },
            Command::Back => {
                if self.current_path.len() > self.root_len {
                    let ghost pre = self.current_path@;
                    let _ = self.current_path.pop();
                    proof {
                        assert(self.current_path@ =~= pre.drop_last());
                    }
                    self.entries = Vec::new();
                    self.selected = 0;
                    return Effect::Relist;
                }
                Effect::Nothing
            },
            Command::Open => {
                if self.entries.len() > 0 {
                    Effect::OpenSelected
                } else {
                    Effect::Nothing
                }
            },
            Command::Quit => Effect::Quit,
        }
    }
}

} // verus!
