//! The menu over the engine: how the keys move through the screens, and
//! which revert a confirmation asks for.

use vstd::prelude::*;
use crate::history::{file_listing, history_at, version_times, Store};
use crate::ingestion::{drains, Engine};
use crate::save_storage::SaveStorage;
use crate::state::State;

verus! {

/// The keys that the menu tells apart.
#[derive(Clone, Copy, Debug, PartialEq, Eq, Structural)]
pub enum Key {
    Up,
    Down,
    Enter,
    Esc,
    /// Any other key.
    Other,
}

/// The place of the cursor one line up; from the first line it wraps around.
pub open spec fn cursor_above(index: usize) -> usize {
    if index == 0 {
        usize::MAX
    } else {
        (index - 1) as usize
    }
}

/// The place of the cursor one line down; from the last place it wraps around.
pub open spec fn cursor_below(index: usize) -> usize {
    if index == usize::MAX {
        0
    } else {
        (index + 1) as usize
    }
}

/// The screen after the cursor moved up: it moves in a list on which nothing
/// waits to be confirmed.
pub open spec fn after_cursor_up(state: State) -> State {
    match state {
        State::MainMenu(index, false) => State::MainMenu(cursor_above(index), false),
        State::SaveFileSelected(index, file, false) => State::SaveFileSelected(
            cursor_above(index),
            file,
            false,
        ),
        _ => state,
    }
}

/// The screen after the cursor moved down: it moves in a list on which
/// nothing waits to be confirmed.
pub open spec fn after_cursor_down(state: State) -> State {
    match state {
        State::MainMenu(index, false) => State::MainMenu(cursor_below(index), false),
        State::SaveFileSelected(index, file, false) => State::SaveFileSelected(
            cursor_below(index),
            file,
            false,
        ),
        _ => state,
    }
}

/// The screen after the escape key: it asks to confirm leaving the program,
/// takes that question back, goes back to the list of files, or takes back
/// the question of a revert.
pub open spec fn after_exit(state: State) -> State {
    match state {
        State::Exit => State::Exit,
        State::MainMenu(index, false) => State::MainMenu(index, true),
        State::MainMenu(index, true) => State::MainMenu(index, false),
        State::SaveFileSelected(_, file, false) => State::MainMenu(file, false),
        State::SaveFileSelected(index, file, true) => State::SaveFileSelected(index, file, false),
    }
}

/// The version that a confirmed revert is for: the version at `version_index`
/// of the versions of the file at `file_index` of the files, as the two are
/// listed. There is none where either place is past the end of its list.
pub open spec fn revert_target(store: Store, file_index: usize, version_index: usize) -> Option<
    (Seq<char>, u128),
> {
    let files = file_listing(store);
    if file_index < files.len() {
        let path = files[file_index as int].0;
        let times = version_times(history_at(store, path));
        if version_index < times.len() {
            Some((path, times[version_index as int]))
        } else {
            None
        }
    } else {
        None
    }
}

/// What the enter key does. It opens the versions of the file under the
/// cursor, ends the program where that was asked, asks to confirm a revert,
/// or performs the revert that was asked: then the path is marked in the
/// ignore set, the question is taken back, and `write` is the path and the
/// bytes to write to it. A revert that has no target changes nothing.
pub open spec fn entered(
    state: State,
    engine: Engine,
    next_state: State,
    next_engine: Engine,
    write: Option<(Seq<char>, Seq<u8>)>,
) -> bool {
    &&& next_engine.store == engine.store
    &&& next_engine.pending == engine.pending
    &&& match state {
        State::Exit => next_state == state && next_engine.ignored == engine.ignored && write
            is None,
        State::MainMenu(index, false) => {
            &&& next_state == State::SaveFileSelected(0, index, false)
            &&& next_engine.ignored == engine.ignored
            &&& write is None
        },
        State::MainMenu(_, true) => {
            &&& next_state == State::Exit
            &&& next_engine.ignored == engine.ignored
            &&& write is None
        },
        State::SaveFileSelected(index, file, false) => {
            &&& next_state == State::SaveFileSelected(index, file, true)
            &&& next_engine.ignored == engine.ignored
            &&& write is None
        },
        State::SaveFileSelected(index, file, true) => match revert_target(
            engine.store,
            file,
            index,
        ) {
            Some((path, time)) => {
                &&& next_state == State::SaveFileSelected(index, file, false)
                &&& next_engine.ignored == engine.ignored.insert(path)
                &&& write == Some((path, history_at(engine.store, path)[time]))
            },
            None => {
                &&& next_state == state
                &&& next_engine.ignored == engine.ignored
                &&& write is None
            },
        },
    }
}

/// What a revert asks to be written: the path and the bytes.
pub open spec fn write_model(write: Option<(String, Vec<u8>)>) -> Option<(Seq<char>, Seq<u8>)> {
    match write {
        Some((path, data)) => Some((path@, data@)),
        None => None,
    }
}

/// The menu and the engine it works on.
pub struct Context {
    pub state: State,
    pub save_storage: SaveStorage,
}

impl Context {
    /// A menu over `save_storage` that shows the list of files, the cursor on the first.
    pub fn new(save_storage: SaveStorage) -> (context: Self)
        ensures
            context.state == State::MainMenu(0, false),
            context.save_storage == save_storage,
    {
        Self { state: State::MainMenu(0, false), save_storage }
    }

    /// Drains the queue of the engine once. Returns whether a capture was
    /// stored, that is whether the store is to be persisted.
    pub fn update(&mut self) -> (stored: bool)
        ensures
            final(self).state == old(self).state,
            exists|count: int|
                #[trigger] drains(
                    old(self).save_storage@,
                    final(self).save_storage@,
                    count,
                    stored,
                ),
    {
        let ghost before = self.save_storage@;
        let stored = self.save_storage.update();
        proof {
            let count = choose|count: int|
                #[trigger] drains(before, self.save_storage@, count, stored);
            assert(drains(before, self.save_storage@, count, stored));
        }
        stored
    }

    /// Whether the program is to end.
    pub fn should_exit(&self) -> (exit: bool)
        ensures
            exit == (self.state == State::Exit),
    {
        self.state == State::Exit
    }

    /// Handles a key that was pressed: the arrows move the cursor, the enter
    /// key and the escape key do what `enter` and `exit` do, and any other
    /// key, or none, does nothing. Returns the write that a revert asks for.
    pub fn handle_input(&mut self, key: Option<Key>) -> (write: Option<(String, Vec<u8>)>)
        ensures
            match key {
                Some(Key::Up) => {
                    &&& final(self).state == after_cursor_up(old(self).state)
                    &&& final(self).save_storage@ == old(self).save_storage@
                    &&& write is None
                },
                Some(Key::Down) => {
                    &&& final(self).state == after_cursor_down(old(self).state)
                    &&& final(self).save_storage@ == old(self).save_storage@
                    &&& write is None
                },
                Some(Key::Enter) => entered(
                    old(self).state,
                    old(self).save_storage@,
                    final(self).state,
                    final(self).save_storage@,
                    write_model(write),
                ),
                Some(Key::Esc) => {
                    &&& final(self).state == after_exit(old(self).state)
                    &&& final(self).save_storage@ == old(self).save_storage@
                    &&& write is None
                },
                _ => {
                    &&& final(self).state == old(self).state
                    &&& final(self).save_storage@ == old(self).save_storage@
                    &&& write is None
                },
            },
    {
        match key {
            Some(Key::Up) => {
                self.cursor_up();
                None
            },
            Some(Key::Down) => {
                self.cursor_down();
                None
            },
            Some(Key::Enter) => self.enter(),
            Some(Key::Esc) => {
                self.exit();
                None
            },
            _ => None,
        }
    }

    /// Moves the cursor one line up.
    pub fn cursor_up(&mut self)
        ensures
            final(self).state == after_cursor_up(old(self).state),
            final(self).save_storage@ == old(self).save_storage@,
    {
        match self.state {
            State::MainMenu(index, false) => {
                self.state = State::MainMenu(index.wrapping_sub(1), false);
            },
            State::SaveFileSelected(index, file, false) => {
                self.state = State::SaveFileSelected(index.wrapping_sub(1), file, false);
            },
            _ => {},
        }
    }

    /// Moves the cursor one line down.
    pub fn cursor_down(&mut self)
        ensures
            final(self).state == after_cursor_down(old(self).state),
            final(self).save_storage@ == old(self).save_storage@,
    {
        match self.state {
            State::MainMenu(index, false) => {
                self.state = State::MainMenu(index.wrapping_add(1), false);
            },
            State::SaveFileSelected(index, file, false) => {
                self.state = State::SaveFileSelected(index.wrapping_add(1), file, false);
            },
            _ => {},
        }
    }

    /// Handles the enter key. Returns the write that a revert asks for: the
    /// path and the bytes to write to it.
    pub fn enter(&mut self) -> (write: Option<(String, Vec<u8>)>)
        ensures
            entered(
                old(self).state,
                old(self).save_storage@,
                final(self).state,
                final(self).save_storage@,
                write_model(write),
            ),
    {
        match self.state {
            State::Exit => None,
            State::MainMenu(index, false) => {
                self.state = State::SaveFileSelected(0, index, false);
                None
            },
            State::MainMenu(_, true) => {
                self.state = State::Exit;
                None
            },
            State::SaveFileSelected(index, main_menu_index, false) => {
                self.state = State::SaveFileSelected(index, main_menu_index, true);
                None
            },
            State::SaveFileSelected(index, main_menu_index, true) => {
                let files = self.save_storage.save_files();
                if main_menu_index >= files.len() {
                    return None;
                }
                let path = files[main_menu_index].path().clone();
                let versions = self.save_storage.save_versions(path.as_str());
                if index >= versions.len() {
                    return None;
                }
                let time = *versions[index].time();
                match self.save_storage.revert(path.as_str(), time) {
                    Some(data) => {
                        self.state = State::SaveFileSelected(index, main_menu_index, false);
                        Some((path, data))
                    },
                    None => None,
                }
            },
        }
    }

    /// Handles the escape key.
    pub fn exit(&mut self)
        ensures
            final(self).state == after_exit(old(self).state),
            final(self).save_storage@ == old(self).save_storage@,
    {
        match self.state {
            State::Exit => {},
            State::MainMenu(index, false) => {
                self.state = State::MainMenu(index, true);
            },
            State::MainMenu(index, true) => {
                self.state = State::MainMenu(index, false);
            },
            State::SaveFileSelected(_, main_menu_index, false) => {
                self.state = State::MainMenu(main_menu_index, false);
            },
            State::SaveFileSelected(index, main_menu_index, true) => {
                self.state = State::SaveFileSelected(index, main_menu_index, false);
            },
        }
    }
}

} // verus!
