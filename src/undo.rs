//! The undo and redo history of a game.

use vstd::prelude::*;

use crate::game::Game;
use crate::model::GameModel;

verus! {

/// The mathematical view of an undo history.
pub struct UndoModel {
    /// Earlier boards, oldest first; `true` marks a board left by an
    /// automatic ("sneak") move.
    pub history: Seq<(bool, GameModel)>,
    /// Undone boards, the next one to redo last.
    pub redo: Seq<GameModel>,
}

/// The boards of `entries`, newest first.
pub open spec fn reversed_boards(entries: Seq<(bool, GameModel)>) -> Seq<GameModel> {
    Seq::new(entries.len(), |j: int| entries[entries.len() - 1 - j].1)
}

/// The position of the newest entry of `history` left by a manual move, or -1.
pub open spec fn last_manual(history: Seq<(bool, GameModel)>) -> int
    decreases history.len(),
{
    if history.len() == 0 {
        -1
    } else if !history.last().0 {
        history.len() - 1
    } else {
        last_manual(history.drop_last())
    }
}

impl UndoModel {
    /// Where a manual move to `new` goes back in history: the older of the
    /// two newest entries that hold `new`.
    pub open spec fn rewind_point(self, new: GameModel) -> Option<int> {
        let len = self.history.len();
        if len >= 2 && self.history[len - 2].1 == new {
            Some(len - 2)
        } else if len >= 1 && self.history[len - 1].1 == new {
            Some(len - 1)
        } else {
            None
        }
    }

    /// The history after a manual move from `old` to `new`.
    pub open spec fn after_update(self, old: GameModel, new: GameModel) -> UndoModel {
        if old == new {
            self
        } else {
            match self.rewind_point(new) {
                Some(n) => UndoModel {
                    history: self.history.subrange(0, n),
                    redo: self.redo + reversed_boards(
                        self.history.subrange(n + 1, self.history.len() as int),
                    ),
                },
                None => {
                    let history = if old.holding() {
                        self.history
                    } else {
                        self.history.push((false, old))
                    };
                    let redo = if self.redo.len() == 0 {
                        self.redo
                    } else if new == self.redo.last() {
                        self.redo.drop_last()
                    } else if !new.holding() {
                        Seq::empty()
                    } else {
                        self.redo
                    };
                    UndoModel { history, redo }
                },
            }
        }
    }

    /// The history after an automatic move from `old` to `new`.
    pub open spec fn after_sneak_update(self, old: GameModel, new: GameModel) -> UndoModel {
        let history = if self.history.len() > 0 && self.history.last().1 == old {
            self.history
        } else {
            self.history.push((true, old))
        };
        let redo = if self.redo.len() == 0 {
            self.redo
        } else if new == self.redo.last() {
            self.redo.drop_last()
        } else {
            Seq::empty()
        };
        UndoModel { history, redo }
    }

    /// The history after an undo from `current`, and the board it returns:
    /// `current` goes on the redo stack, then the newest board left by a
    /// manual move comes back, with the automatic moves after it moved to
    /// the redo stack. With no such board, the last board put on the redo
    /// stack comes back: at the start of history that is `current` itself.
    pub open spec fn after_undo(self, current: GameModel) -> (UndoModel, GameModel) {
        let redo = self.redo.push(current);
        let k = last_manual(self.history);
        if k >= 0 {
            (
                UndoModel {
                    history: self.history.subrange(0, k),
                    redo: redo + reversed_boards(
                        self.history.subrange(k + 1, self.history.len() as int),
                    ),
                },
                self.history[k].1,
            )
        } else {
            let all = redo + reversed_boards(self.history);
            (UndoModel { history: Seq::empty(), redo: all.drop_last() }, all.last())
        }
    }

    /// The history after a redo from `current`, and the board it returns:
    /// `current` goes on the history and the newest undone board comes back.
    pub open spec fn after_redo(self, current: GameModel) -> (UndoModel, GameModel) {
        if self.redo.len() == 0 {
            (self, current)
        } else {
            (
                UndoModel {
                    history: self.history.push((false, current)),
                    redo: self.redo.drop_last(),
                },
                self.redo.last(),
            )
        }
    }
}

/// The undo and redo stacks of a game.
#[derive(Clone, Debug, PartialEq)]
pub struct GameUndoStack {
    history: Vec<(bool, Game)>,
    undo_history: Vec<Game>,
}

pub open spec fn history_view(entries: Seq<(bool, Game)>) -> Seq<(bool, GameModel)> {
    entries.map_values(|e: (bool, Game)| (e.0, e.1.model()))
}

pub open spec fn boards_view(boards: Seq<Game>) -> Seq<GameModel> {
    boards.map_values(|g: Game| g.model())
}

impl View for GameUndoStack {
    type V = UndoModel;

    closed spec fn view(&self) -> UndoModel {
        UndoModel { history: history_view(self.history@), redo: boards_view(self.undo_history@) }
    }
}

impl GameUndoStack {
    pub fn new() -> (r: GameUndoStack)
        ensures
            r@.history == Seq::<(bool, GameModel)>::empty(),
            r@.redo == Seq::<GameModel>::empty(),
    {
        let r = GameUndoStack { history: Vec::new(), undo_history: Vec::new() };
        assert(r@.history =~= Seq::<(bool, GameModel)>::empty());
        assert(r@.redo =~= Seq::<GameModel>::empty());
        r
    }

    /// An undo history with the given entries, oldest first, and undone
    /// boards, the next one to redo last.
    pub fn from_parts(history: Vec<(bool, Game)>, redo: Vec<Game>) -> (r: GameUndoStack)
        ensures
            r@.history == history_view(history@),
            r@.redo == boards_view(redo@),
    {
        GameUndoStack { history, undo_history: redo }
    }

    /// The recorded boards, oldest first; `true` marks a board left by an
    /// automatic move.
    pub fn history(&self) -> (r: &Vec<(bool, Game)>)
        ensures
            history_view(r@) == self@.history,
    {
        &self.history
    }

    /// The undone boards, the next one to redo last.
    pub fn redo_stack(&self) -> (r: &Vec<Game>)
        ensures
            boards_view(r@) == self@.redo,
    {
        &self.undo_history
    }

    /// Records a manual move from `old_state` to `new_state` and returns the
    /// board to show, which is `new_state`. A move that changes nothing is
    /// not recorded; a move back to one of the two newest boards of the
    /// history goes back to it and keeps what it skips for redo.
    #[verifier::loop_isolation(false)]
    pub fn update(&mut self, old_state: Game, new_state: Game) -> (r: Game)
        ensures
            final(self)@ == old(self)@.after_update(old_state.model(), new_state.model()),
            r.model() == new_state.model(),
            old_state.model() == new_state.model() ==> final(self)@ == old(self)@,
    {
        if old_state == new_state {
            return new_state;
        }
        let ghost h0 = self@.history;
        let ghost u0 = self@.redo;
        let len = self.history.len();
        let rewind = if len >= 2 && self.history[len - 2].1 == new_state {
            Some(len - 2)
        } else if len >= 1 && self.history[len - 1].1 == new_state {
            Some(len - 1)
        } else {
            None
        };
        assert(len >= 2 ==> self.history@[len - 2].1.model() == h0[len - 2].1);
        assert(len >= 1 ==> self.history@[len - 1].1.model() == h0[len - 1].1);
        match rewind {
            Some(n) => {
                let mut truncated = self.history.split_off(n);
                assert(history_view(self.history@) =~= h0.subrange(0, n as int));
                let ghost t0 = history_view(truncated@);
                assert(t0 =~= h0.subrange(n as int, len as int));
                while truncated.len() > 0
                    invariant
                        history_view(self.history@) == h0.subrange(0, n as int),
                        truncated@.len() <= len - n,
                        history_view(truncated@) == t0.subrange(0, truncated@.len() as int),
                        boards_view(self.undo_history@) == u0 + reversed_boards(
                            t0.subrange(truncated@.len() as int, t0.len() as int),
                        ),
                        t0.len() == len - n,
                    decreases truncated.len(),
                {
                    let ghost before = truncated@.len() as int;
                    let ghost tv = truncated@;
                    let ghost uv = boards_view(self.undo_history@);
                    let entry = truncated.pop().unwrap();
                    assert(tv[before - 1] == entry);
                    assert(history_view(tv)[before - 1] == t0[before - 1]);
                    assert(entry.1.model() == t0[before - 1].1);
                    self.undo_history.push(entry.1);
                    assert(boards_view(self.undo_history@) =~= uv.push(t0[before - 1].1));
                    assert(history_view(truncated@) =~= t0.subrange(0, truncated@.len() as int));
                    assert(boards_view(self.undo_history@) =~= u0 + reversed_boards(
                        t0.subrange(truncated@.len() as int, t0.len() as int),
                    ));
                }
                assert(t0.subrange(0, t0.len() as int) =~= t0);
                let ghost uv = boards_view(self.undo_history@);
                let ghost ue = self.undo_history@;
                let back = self.undo_history.pop().unwrap();
                proof {
                    let all = u0 + reversed_boards(t0);
                    assert(uv == all);
                    assert(ue.last() == back);
                    assert(uv.last() == back.model());
                    assert(all.last() == t0[0].1);
                    assert(boards_view(self.undo_history@) =~= all.drop_last());
                    assert(all.drop_last() =~= u0 + reversed_boards(
                        h0.subrange(n + 1, len as int),
                    ));
                }
                back
            },
            None => {
                if !old_state.has_floating() {
                    self.history.push((false, old_state));
                    assert(history_view(self.history@) =~= h0.push((false, old_state.model())));
                }
                let redo_len = self.undo_history.len();
                if redo_len > 0 {
                    assert(self.undo_history@[redo_len - 1].model() == u0.last());
                    if new_state == self.undo_history[redo_len - 1] {
                        self.undo_history.pop();
                        assert(boards_view(self.undo_history@) =~= u0.drop_last());
                    } else if !new_state.has_floating() {
                        self.undo_history = Vec::new();
                        assert(boards_view(self.undo_history@) =~= Seq::<GameModel>::empty());
                    }
                }
                new_state
            },
        }
    }

    /// Records an automatic move from `old_state` to `new_state` and returns
    /// `new_state`. An undo passes over the board it records without
    /// stopping there.
    pub fn sneak_update(&mut self, old_state: Game, new_state: Game) -> (r: Game)
        ensures
            final(self)@ == old(self)@.after_sneak_update(old_state.model(), new_state.model()),
            r.model() == new_state.model(),
    {
        let ghost h0 = self@.history;
        let ghost u0 = self@.redo;
        let len = self.history.len();
        if len > 0 {
            assert(self.history@[len - 1].1.model() == h0.last().1);
        }
        if len == 0 || self.history[len - 1].1 != old_state {
            self.history.push((true, old_state));
            assert(history_view(self.history@) =~= h0.push((true, old_state.model())));
        }
        let redo_len = self.undo_history.len();
        if redo_len > 0 {
            assert(self.undo_history@[redo_len - 1].model() == u0.last());
            if new_state == self.undo_history[redo_len - 1] {
                self.undo_history.pop();
                assert(boards_view(self.undo_history@) =~= u0.drop_last());
            } else {
                self.undo_history = Vec::new();
                assert(boards_view(self.undo_history@) =~= Seq::<GameModel>::empty());
            }
        }
        new_state
    }

    /// Puts `state` on the redo stack and goes back to the newest board left
    /// by a manual move, passing over the boards left by automatic moves.
    /// With no such board, returns the oldest board known; on an empty
    /// history that is `state`, and nothing changes.
    #[verifier::loop_isolation(false)]
    pub fn undo(&mut self, state: Game) -> (r: Game)
        ensures
            (final(self)@, r.model()) == old(self)@.after_undo(state.model()),
    {
        let ghost h0 = self@.history;
        let ghost u0 = self@.redo;
        let ghost current = state.model();
        let ghost redo0 = u0.push(current);
        assert(h0.subrange(0, h0.len() as int) =~= h0);
        assert(h0.subrange(h0.len() as int, h0.len() as int) =~= Seq::<(bool, GameModel)>::empty());
        assert(reversed_boards(Seq::<(bool, GameModel)>::empty()) =~= Seq::<GameModel>::empty());
        assert(u0.push(current) + Seq::<GameModel>::empty() =~= u0.push(current));
        self.undo_history.push(state);
        assert(boards_view(self.undo_history@) =~= redo0);
        loop
            invariant
                history_view(self.history@) == h0.subrange(0, self.history@.len() as int),
                self.history@.len() <= h0.len(),
                forall|t: int| self.history@.len() <= t < h0.len() ==> (#[trigger] h0[t]).0,
                last_manual(h0) == last_manual(h0.subrange(0, self.history@.len() as int)),
                boards_view(self.undo_history@) == redo0 + reversed_boards(
                    h0.subrange(self.history@.len() as int, h0.len() as int),
                ),
            decreases self.history@.len(),
        {
            let ghost j = self.history@.len() as int;
            let ghost prefix = h0.subrange(0, j);
            let ghost hv = self.history@;
            let ghost uv = boards_view(self.undo_history@);
            match self.history.pop() {
                Some(entry) => {
                    assert(hv[j - 1] == entry);
                    assert(history_view(hv)[j - 1] == h0[j - 1]);
                    assert(entry.1.model() == h0[j - 1].1 && entry.0 == h0[j - 1].0);
                    assert(history_view(self.history@) =~= h0.subrange(0, j - 1));
                    assert(prefix.drop_last() =~= h0.subrange(0, j - 1));
                    if entry.0 {
                        self.undo_history.push(entry.1);
                        assert(boards_view(self.undo_history@) =~= uv.push(h0[j - 1].1));
                        assert(boards_view(self.undo_history@) =~= redo0 + reversed_boards(
                            h0.subrange(j - 1, h0.len() as int),
                        ));
                    } else {
                        assert(last_manual(h0) == j - 1);
                        return entry.1;
                    }
                },
                None => {
                    break ;
                },
            }
        }
        assert(h0.subrange(0, 0) =~= Seq::<(bool, GameModel)>::empty());
        assert(h0.subrange(0, h0.len() as int) =~= h0);
        assert(history_view(self.history@) =~= Seq::<(bool, GameModel)>::empty());
        let ghost all = redo0 + reversed_boards(h0);
        let back = self.undo_history.pop().unwrap();
        assert(boards_view(self.undo_history@) =~= all.drop_last());
        back
    }

    /// Puts `state` on the history and goes forward to the newest undone
    /// board, or returns `state` when nothing was undone.
    pub fn redo(&mut self, state: Game) -> (r: Game)
        ensures
            (final(self)@, r.model()) == old(self)@.after_redo(state.model()),
    {
        let ghost h0 = self@.history;
        let ghost u0 = self@.redo;
        match self.undo_history.pop() {
            Some(undone) => {
                assert(boards_view(self.undo_history@) =~= u0.drop_last());
                self.history.push((false, state));
                assert(history_view(self.history@) =~= h0.push((false, state.model())));
                undone
            },
            None => {
                assert(boards_view(self.undo_history@) =~= u0);
                state
            },
        }
    }
}

} // verus!
