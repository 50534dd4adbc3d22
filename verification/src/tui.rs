//! The selection state machine: a cursor over the loaded entries plus one
//! synthetic "create new" item, moved by key events until the session ends
//! by quitting (no action) or by confirming (launch or create).

use vstd::prelude::*;

use crate::text::dec_rep;
use crate::text::u32_to_string;
use crate::workspace::{EntryModel, WorkspaceEntry};

verus! {

/// What the user chose in the selection session.
#[derive(Debug, Clone, Copy, PartialEq, Eq, Structural)]
pub enum Action {
    /// Launch the entry at this index of the loaded sequence.
    Launch(usize),
    /// Walk through creating a new script.
    CreateNew,
}

/// A key event, already classified: every other key is `Other`.
#[derive(Debug, Clone, Copy, PartialEq, Eq, Structural)]
pub enum Key {
    /// `q` or `Escape`.
    Quit,
    /// `Down` or `j`.
    MoveDown,
    /// `Up` or `k`.
    MoveUp,
    /// `Enter`.
    Confirm,
    /// Anything else: ignored.
    Other,
}

/// Where one selection session stands: still running with the cursor at
/// some position, or ended with the cursor where it was and the resolved
/// action (`None` after a quit).
pub ghost enum SessionState {
    Running { cursor: int },
    Done { cursor: int, action: Option<Action> },
}

/// One transition of the session over `n` entries (`n + 1` items shown,
/// the last being the synthetic "create new" row).
pub open spec fn step_spec(st: SessionState, n: int, k: Key) -> SessionState {
    match st {
        SessionState::Done { .. } => st,
        SessionState::Running { cursor } => match k {
            Key::Quit => SessionState::Done { cursor, action: None },
            Key::MoveDown => SessionState::Running { cursor: (cursor + 1) % (n + 1) },
            Key::MoveUp => SessionState::Running {
                cursor: if cursor == 0 {
                    n
                } else {
                    cursor - 1
                },
            },
            Key::Confirm => SessionState::Done {
                cursor,
                action: Some(
                    if cursor < n {
                        Action::Launch(cursor as usize)
                    } else {
                        Action::CreateNew
                    },
                ),
            },
            Key::Other => st,
        },
    }
}

/// The session state after a whole sequence of key events; keys arriving
/// after the session has ended change nothing.
pub open spec fn run_spec(st: SessionState, n: int, keys: Seq<Key>) -> SessionState
    decreases keys.len(),
{
    if keys.len() == 0 {
        st
    } else {
        run_spec(step_spec(st, n, keys[0]), n, keys.drop_first())
    }
}

/// An ended session stays ended, whatever keys follow.
pub proof fn lemma_run_done(cursor: int, action: Option<Action>, n: int, keys: Seq<Key>)
    ensures
        run_spec(SessionState::Done { cursor, action }, n, keys) == (SessionState::Done {
            cursor,
            action,
        }),
    decreases keys.len(),
{
    if keys.len() > 0 {
        lemma_run_done(cursor, action, n, keys.drop_first());
    }
}

/// Quitting ends the session at once with no action, from any cursor.
pub proof fn lemma_quit_yields_no_action(cursor: int, n: int)
    ensures
        step_spec(SessionState::Running { cursor }, n, Key::Quit) == (SessionState::Done {
            cursor,
            action: None,
        }),
{
}

/// Confirming on the synthetic last item always resolves to `CreateNew`,
/// whatever the entry count — including zero entries, where the cursor can
/// only stand on that item.
pub proof fn lemma_confirm_on_last_is_create(cursor: int, n: int)
    requires
        cursor == n,
    ensures
        step_spec(SessionState::Running { cursor }, n, Key::Confirm) == (SessionState::Done {
            cursor,
            action: Some(Action::CreateNew),
        }),
{
}

/// Confirming on a real entry resolves to launching exactly that entry.
pub proof fn lemma_confirm_on_entry_is_launch(cursor: int, n: int)
    requires
        0 <= cursor < n,
    ensures
        step_spec(SessionState::Running { cursor }, n, Key::Confirm) == (SessionState::Done {
            cursor,
            action: Some(Action::Launch(cursor as usize)),
        }),
{
}

/// The same key pressed `count` times in a row.
pub open spec fn repeated_key(k: Key, count: nat) -> Seq<Key> {
    Seq::new(count, |i: int| k)
}

/// Moving down `count` times advances the cursor by `count`, modulo the
/// item count: navigation wraps around the end of the list.
pub proof fn lemma_down_advances_mod(cursor: int, n: int, count: nat)
    requires
        0 <= cursor <= n,
    ensures
        run_spec(SessionState::Running { cursor }, n, repeated_key(Key::MoveDown, count))
            == (SessionState::Running { cursor: (cursor + count) % (n + 1) }),
    decreases count,
{
    let keys = repeated_key(Key::MoveDown, count);
    if count == 0 {
        vstd::arithmetic::div_mod::lemma_small_mod(cursor as nat, (n + 1) as nat);
    } else {
        assert(keys[0] == Key::MoveDown);
        assert(keys.drop_first() =~= repeated_key(Key::MoveDown, (count - 1) as nat));
        let c1 = (cursor + 1) % (n + 1);
        lemma_down_advances_mod(c1, n, (count - 1) as nat);
        vstd::arithmetic::div_mod::lemma_add_mod_noop_right(count - 1, cursor + 1, n + 1);
        assert((count - 1 + c1) % (n + 1) == (cursor + count) % (n + 1));
        assert((c1 + (count - 1)) % (n + 1) == (cursor + count) % (n + 1));
    }
}

/// Moving down once per displayed item returns the cursor to where it
/// began.
pub proof fn lemma_down_full_cycle(cursor: int, n: int)
    requires
        0 <= cursor <= n,
    ensures
        run_spec(SessionState::Running { cursor }, n, repeated_key(Key::MoveDown, (n + 1) as nat))
            == (SessionState::Running { cursor }),
{
    lemma_down_advances_mod(cursor, n, (n + 1) as nat);
    vstd::arithmetic::div_mod::lemma_mod_add_multiples_vanish(cursor, n + 1);
    vstd::arithmetic::div_mod::lemma_small_mod(cursor as nat, (n + 1) as nat);
}

/// Moving up from the first item lands on the synthetic last item.
pub proof fn lemma_up_from_top_wraps(n: int)
    requires
        0 <= n,
    ensures
        step_spec(SessionState::Running { cursor: 0 }, n, Key::MoveUp) == (SessionState::Running {
            cursor: n,
        }),
{
}

/// The state of the selection interface.
pub struct App {
    /// The loaded entries, never altered by the session.
    pub workspaces: Vec<WorkspaceEntry>,
    /// Cursor into the `workspaces.len() + 1` displayed items.
    pub selected: usize,
    /// The resolved outcome, set once when the session ends by confirming.
    pub action: Option<Action>,
}

impl App {
    /// A cursor position that exists on screen.
    pub open spec fn well_formed(&self) -> bool {
        self.selected <= self.workspaces@.len() && self.workspaces@.len() < usize::MAX
    }

    /// Begin a session over the given entries: cursor on the first item,
    /// nothing resolved.
    pub fn new(workspaces: Vec<WorkspaceEntry>) -> (r: App)
        ensures
            r.workspaces == workspaces,
            r.selected == 0,
            r.action is None,
    {
        App { workspaces, selected: 0, action: None }
    }

    /// How many items the list shows: every entry plus the synthetic
    /// "create new" row.
    pub fn total_items(&self) -> (r: usize)
        requires
            self.workspaces@.len() < usize::MAX,
        ensures
            r == self.workspaces@.len() + 1,
    {
        self.workspaces.len() + 1
    }

    /// Move the cursor down one item, wrapping from the last to the first.
    pub fn next(&mut self)
        requires
            old(self).well_formed(),
        ensures
            final(self).workspaces == old(self).workspaces,
            final(self).action == old(self).action,
            final(self).selected == (old(self).selected + 1) as int % (old(self).workspaces@.len()
                as int + 1),
            final(self).well_formed(),
    {
        let total = self.total_items();
        self.selected = (self.selected + 1) % total;
    }

    /// Move the cursor up one item, wrapping from the first to the last.
    pub fn previous(&mut self)
        requires
            old(self).well_formed(),
        ensures
            final(self).workspaces == old(self).workspaces,
            final(self).action == old(self).action,
            final(self).selected == if old(self).selected == 0 {
                old(self).workspaces@.len() as int
            } else {
                old(self).selected - 1
            },
            final(self).well_formed(),
    {
        let total = self.total_items();
        if self.selected == 0 {
            self.selected = total - 1;
        } else {
            self.selected = self.selected - 1;
        }
    }

    /// Feed one key event to the running session. Returns whether the
    /// session ended: by quitting (no action) or by confirming (the action
    /// records the cursor's item). The entries themselves never change.
    pub fn handle_key(&mut self, k: Key) -> (done: bool)
        requires
            old(self).well_formed(),
            old(self).action is None,
        ensures
            final(self).workspaces == old(self).workspaces,
            final(self).well_formed(),
            (match step_spec(
                SessionState::Running { cursor: old(self).selected as int },
                old(self).workspaces@.len() as int,
                k,
            ) {
                SessionState::Running { cursor } => !done && final(self).action is None
                    && final(self).selected == cursor,
                SessionState::Done { cursor, action } => done && final(self).selected == cursor
                    && final(self).action == action,
            }),
    {
        match k {
            Key::Quit => {
                self.action = None;
                true
            },
            Key::MoveDown => {
                self.next();
                false
            },
            Key::MoveUp => {
                self.previous();
                false
            },
            Key::Confirm => {
                let ws_len = self.workspaces.len();
                if self.selected < ws_len {
                    self.action = Some(Action::Launch(self.selected));
                } else {
                    self.action = Some(Action::CreateNew);
                }
                true
            },
            Key::Other => false,
        }
    }

    /// Feed a whole scripted sequence of key events to the session,
    /// stopping at the first one that ends it. The final state is exactly
    /// what the session state machine prescribes for that key sequence,
    /// and the entry sequence comes through unchanged.
    pub fn apply_keys(&mut self, keys: &Vec<Key>) -> (done: bool)
        requires
            old(self).well_formed(),
            old(self).action is None,
        ensures
            final(self).workspaces == old(self).workspaces,
            final(self).well_formed(),
            (match run_spec(
                SessionState::Running { cursor: old(self).selected as int },
                old(self).workspaces@.len() as int,
                keys@,
            ) {
                SessionState::Running { cursor } => !done && final(self).action is None
                    && final(self).selected == cursor,
                SessionState::Done { cursor, action } => done && final(self).selected == cursor
                    && final(self).action == action,
            }),
    {
        let ghost n = old(self).workspaces@.len() as int;
        let ghost init = SessionState::Running { cursor: old(self).selected as int };
        let ghost orig_ws = old(self).workspaces;
        let mut i: usize = 0;
        let mut ended = false;
        proof {
            assert(keys@.skip(0) =~= keys@);
        }
        while i < keys.len() && !ended
            invariant
                0 <= i <= keys.len(),
                self.workspaces == orig_ws,
                self.well_formed(),
                n == self.workspaces@.len() as int,
                !ended ==> self.action is None && run_spec(init, n, keys@) == run_spec(
                    SessionState::Running { cursor: self.selected as int },
                    n,
                    keys@.skip(i as int),
                ),
                ended ==> run_spec(init, n, keys@) == (SessionState::Done {
                    cursor: self.selected as int,
                    action: self.action,
                }),
            decreases keys.len() - i,
        {
            let ghost pre = SessionState::Running { cursor: self.selected as int };
            let k = keys[i];
            let done = self.handle_key(k);
            proof {
                assert(keys@.skip(i as int)[0] == keys@[i as int]);
                assert(keys@.skip(i as int).drop_first() =~= keys@.skip(i + 1));
                assert(run_spec(pre, n, keys@.skip(i as int)) == run_spec(
                    step_spec(pre, n, keys@[i as int]),
                    n,
                    keys@.skip(i + 1),
                ));
            }
            if done {
                ended = true;
                proof {
                    let st = step_spec(pre, n, keys@[i as int]);
                    assert(st is Done);
                    assert(st == (SessionState::Done {
                        cursor: st->Done_cursor,
                        action: st->Done_action,
                    }));
                    lemma_run_done(st->Done_cursor, st->Done_action, n, keys@.skip(i + 1));
                    assert(run_spec(init, n, keys@) == st);
                }
            }
            i = i + 1;
        }
        proof {
            if !ended {
                assert(i == keys@.len());
                assert(keys@.skip(keys@.len() as int) =~= Seq::<Key>::empty());
            }
        }
        ended
    }
}

/// The `[ws N]` or `[ws ?]` marker a row shows for the entry's declared
/// workspace number.
pub open spec fn ws_info_text(num: Option<u32>) -> Seq<char> {
    match num {
        Some(n) => "[ws "@ + dec_rep(n as nat) + "]"@,
        None => "[ws ?]"@,
    }
}

/// The full text of one real entry's row: its 1-based position, the
/// workspace marker, the short name, and the filename in parentheses.
pub open spec fn row_text(pos: nat, e: EntryModel) -> Seq<char> {
    dec_rep(pos) + ". "@ + ws_info_text(e.workspace_num) + " "@ + e.name_short + " ("@
        + e.base_name + ")"@
}

/// Render the row for the entry at 0-based index `idx` of the list.
pub fn render_row(idx: usize, e: &WorkspaceEntry) -> (r: String)
    requires
        idx < u32::MAX,
    ensures
        r@ == row_text((idx + 1) as nat, e@),
{
    let mut s = u32_to_string((idx as u32) + 1);
    s.append(". ");
    match e.workspace_num {
        Some(n) => {
            let ns = u32_to_string(n);
            s.append("[ws ");
            s.append(ns.as_str());
            s.append("]");
            proof {
                assert("[ws "@ + dec_rep(n as nat) + "]"@ =~= ("[ws "@ + dec_rep(n as nat))
                    + "]"@);
            }
        },
        None => {
            s.append("[ws ?]");
        },
    }
    s.append(" ");
    s.append(e.name_short.as_str());
    s.append(" (");
    s.append(e.base_name.as_str());
    s.append(")");
    proof {
        assert(s@ =~= row_text((idx + 1) as nat, e@));
    }
    s
}

} // verus!
