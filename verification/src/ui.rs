//! The dashboard's decisions: what each key does to the state of the
//! dashboard, what is done with the answers of the process controller, how
//! the selection follows a locked process across refreshes and stays on
//! screen, and the texts of the header, the bottom bar and the help line.
//!
//! The program around it reads the keys, runs the commands that these
//! functions hand out (checking for conflicts, suspending, resuming,
//! killing), hands the answers back, and keeps the time at which a status
//! message stops being shown.
use vstd::prelude::*;
use crate::metrics::SortKey;
use crate::parsers::string_of_range;
use crate::process_controller::{process_error_text, ProcessError};
use crate::tree::ProcLink;
use crate::metrics::cpu_core_columns;
use crate::metrics::core_columns;
use crate::text::{
    chars_of, chars_contain, contains_seq, dec, dec_int, extend_str, push_char, push_dec,
    push_dec_i64, string_from_chars, trim, trim_range, usize_of, parse_usize,
};

verus! {

// ---------------------------------------------------------------------------
// State
// ---------------------------------------------------------------------------
/// A key as the dashboard reads it.
#[derive(Clone, Copy, PartialEq, Eq, Debug, Structural)]
pub enum Key {
    Char(char),
    Enter,
    Esc,
    Backspace,
    Up,
    Down,
    PageUp,
    PageDown,
    Home,
    End,
    Other,
}

/// A key press with the modifiers that matter to the search input.
#[derive(Clone, Copy, PartialEq, Eq, Debug, Structural)]
pub struct KeyPress {
    pub key: Key,
    pub ctrl: bool,
    pub alt: bool,
}

/// An action on a process that waits for the user to confirm it.
pub enum PendingAction {
    Suspend { pid: i32, msg: String },
    Resume { pid: i32, msg: String },
    Kill { pid: i32, msg: String },
}

/// A pending action with its message taken as characters.
pub enum PendingView {
    Suspend(i32, Seq<char>),
    Resume(i32, Seq<char>),
    Kill(i32, Seq<char>),
}

impl View for PendingAction {
    type V = PendingView;

    open spec fn view(&self) -> PendingView {
        match self {
            PendingAction::Suspend { pid, msg } => PendingView::Suspend(*pid, msg@),
            PendingAction::Resume { pid, msg } => PendingView::Resume(*pid, msg@),
            PendingAction::Kill { pid, msg } => PendingView::Kill(*pid, msg@),
        }
    }
}

/// What the program is to do after a key or an answer.
#[derive(Clone, Copy, PartialEq, Eq, Debug, Structural)]
pub enum Command {
    Nothing,
    Quit,
    CheckSuspend(i32),
    CheckResume(i32),
    Suspend(i32),
    Resume(i32),
    Kill(i32),
}

/// The outcome of a step: the command to run, and for how many milliseconds
/// the status message (where the step set one) is shown.
#[derive(Clone, Copy, PartialEq, Eq, Debug, Structural)]
pub struct Step {
    pub command: Command,
    pub status_ms: Option<u64>,
}

/// The state of the dashboard.
pub struct AppState {
    pub sort_key: SortKey,
    pub scroll_offset: usize,
    pub selected_index: usize,
    pub locked_pid: Option<i32>,
    pub tree_view: bool,
    pub search_mode: bool,
    pub search_query: String,
    pub search_input: String,
    pub status_message: String,
    pub force_refresh: bool,
    pub pending_action: Option<PendingAction>,
}

/// The state of the dashboard with its texts taken as characters.
#[verifier::ext_equal]
pub struct AppView {
    pub sort_key: SortKey,
    pub scroll: usize,
    pub selected: usize,
    pub locked: Option<i32>,
    pub tree_view: bool,
    pub search_mode: bool,
    pub query: Seq<char>,
    pub input: Seq<char>,
    pub status: Seq<char>,
    pub force_refresh: bool,
    pub pending: Option<PendingView>,
}

/// A pending action taken by its view.
pub open spec fn pending_view(p: Option<PendingAction>) -> Option<PendingView> {
    match p {
        Some(a) => Some(a@),
        None => None,
    }
}

impl View for AppState {
    type V = AppView;

    open spec fn view(&self) -> AppView {
        AppView {
            sort_key: self.sort_key,
            scroll: self.scroll_offset,
            selected: self.selected_index,
            locked: self.locked_pid,
            tree_view: self.tree_view,
            search_mode: self.search_mode,
            query: self.search_query@,
            input: self.search_input@,
            status: self.status_message@,
            force_refresh: self.force_refresh,
            pending: pending_view(self.pending_action),
        }
    }
}

impl Default for AppState {
    /// The dashboard at start: sorted by CPU, flat, nothing selected, locked,
    /// searched or pending, and a refresh due.
    fn default() -> (r: AppState)
        ensures
            r@ == (AppView {
                sort_key: SortKey::Cpu,
                scroll: 0,
                selected: 0,
                locked: None,
                tree_view: false,
                search_mode: false,
                query: seq![],
                input: seq![],
                status: seq![],
                force_refresh: true,
                pending: None,
            }),
    {
        AppState {
            sort_key: SortKey::Cpu,
            scroll_offset: 0,
            selected_index: 0,
            locked_pid: None,
            tree_view: false,
            search_mode: false,
            search_query: String::new(),
            search_input: String::new(),
            status_message: String::new(),
            force_refresh: true,
            pending_action: None,
        }
    }
}

// ---------------------------------------------------------------------------
// Texts
// ---------------------------------------------------------------------------
/// The text `a`, the pid, then `b`.
fn pid_text(a: &str, pid: i32, b: &str) -> (r: String)
    ensures
        r@ == a@ + dec_int(pid as int) + b@,
{
    let mut out: Vec<char> = Vec::new();
    extend_str(&mut out, a);
    push_dec_i64(&mut out, pid as i64);
    extend_str(&mut out, b);
    string_from_chars(&out)
}

/// A process with a parent: its row names a parent pid above zero.
pub open spec fn is_child(row: ProcLink) -> bool {
    row.parent_pid matches Some(pp) && pp > 0
}

/// The warning shown before a process tree is killed; a child process gets
/// a warning of its own.
pub open spec fn kill_warning(pid: i32, child: bool) -> Seq<char> {
    "This will terminate PID "@ + dec_int(pid as int) + if child {
        " and its children using SIGKILL; this is a child process do u want to kill it. Press Enter to confirm, Esc to cancel"@
    } else {
        " and its children using SIGKILL. Press Enter to confirm, Esc to cancel"@
    }
}

/// The status shown while a suspend or resume waits for confirmation.
pub open spec fn confirm_text(msg: Seq<char>) -> Seq<char> {
    "Confirm: "@ + msg + ". Press Enter to proceed, Esc to cancel"@
}

// ---------------------------------------------------------------------------
// Keys
// ---------------------------------------------------------------------------
/// `n + 1`, saturated.
pub open spec fn inc(n: usize, by: usize) -> usize {
    if n + by > usize::MAX {
        usize::MAX
    } else {
        (n + by) as usize
    }
}

/// `n - by`, or zero.
pub open spec fn dec_by(n: usize, by: usize) -> usize {
    if n >= by {
        (n - by) as usize
    } else {
        0
    }
}

/// The selection clamped to the last of `n > 0` rows.
pub open spec fn clamp_sel(sel: usize, n: nat) -> usize {
    if sel < n {
        sel
    } else {
        (n - 1) as usize
    }
}

/// What a key does in search mode.
pub open spec fn search_step(s: AppView, k: KeyPress) -> AppView {
    match k.key {
        Key::Esc => AppView { search_mode: false, input: seq![], ..s },
        Key::Enter => AppView {
            query: trim(s.input),
            search_mode: false,
            input: seq![],
            selected: 0,
            scroll: 0,
            force_refresh: true,
            ..s
        },
        Key::Backspace => AppView {
            input: if s.input.len() > 0 {
                s.input.drop_last()
            } else {
                s.input
            },
            ..s
        },
        Key::Char(c) => if c == 'u' && k.ctrl {
            AppView { input: seq![], ..s }
        } else if !k.ctrl && !k.alt {
            AppView { input: s.input.push(c), ..s }
        } else {
            s
        },
        _ => s,
    }
}

/// The command that confirming a pending action runs.
pub open spec fn pending_command(p: PendingView) -> Command {
    match p {
        PendingView::Suspend(pid, _) => Command::Suspend(pid),
        PendingView::Resume(pid, _) => Command::Resume(pid),
        PendingView::Kill(pid, _) => Command::Kill(pid),
    }
}

/// What a key does while an action waits for confirmation: Enter runs it,
/// Esc cancels it, other keys do nothing.
pub open spec fn pending_step(s: AppView, k: KeyPress) -> (AppView, Command, Option<u64>) {
    match k.key {
        Key::Enter => (AppView { pending: None, ..s }, pending_command(s.pending.unwrap()), None),
        Key::Esc => (
            AppView { pending: None, status: "Action cancelled"@, ..s },
            Command::Nothing,
            Some(1000),
        ),
        _ => (s, Command::Nothing, None),
    }
}

/// Which key of the normal mode a key press is.
pub enum Action {
    Quit,
    Search,
    Tree,
    Sort(SortKey),
    Refresh,
    Lock,
    Down(usize),
    Up(usize),
    Top,
    Bottom,
    Kill,
    Suspend,
    Resume,
    Ignore,
}

/// The action of a key in the normal mode; moving keys do nothing while the
/// selection is locked.
pub open spec fn key_action(key: Key, locked: bool) -> Action {
    match key {
        Key::Char(c) => if c == 'q' || c == 'Q' {
            Action::Quit
        } else if c == '/' {
            Action::Search
        } else if c == 't' || c == 'T' {
            Action::Tree
        } else if c == 'c' || c == 'C' {
            Action::Sort(SortKey::Cpu)
        } else if c == 'm' || c == 'M' {
            Action::Sort(SortKey::Mem)
        } else if c == 'p' || c == 'P' {
            Action::Sort(SortKey::Power)
        } else if c == 'r' || c == 'R' {
            Action::Refresh
        } else if (c == 'j' || c == 'J') && !locked {
            Action::Down(1)
        } else if (c == 'k' || c == 'K') && !locked {
            Action::Up(1)
        } else if c == 'X' || c == 'x' {
            Action::Kill
        } else if c == 'S' || c == 's' {
            Action::Suspend
        } else if c == 'W' || c == 'w' {
            Action::Resume
        } else {
            Action::Ignore
        },
        Key::Enter => Action::Lock,
        Key::Down => if locked {
            Action::Ignore
        } else {
            Action::Down(1)
        },
        Key::Up => if locked {
            Action::Ignore
        } else {
            Action::Up(1)
        },
        Key::PageDown => if locked {
            Action::Ignore
        } else {
            Action::Down(20)
        },
        Key::PageUp => if locked {
            Action::Ignore
        } else {
            Action::Up(20)
        },
        Key::Home => if locked {
            Action::Ignore
        } else {
            Action::Top
        },
        Key::End => if locked {
            Action::Ignore
        } else {
            Action::Bottom
        },
        _ => Action::Ignore,
    }
}

/// What a key does in the normal mode, with the rows shown.
pub open spec fn normal_step(s: AppView, k: KeyPress, rows: Seq<ProcLink>) -> (AppView, Command, Option<u64>) {
    let n = rows.len();
    match key_action(k.key, s.locked is Some) {
        Action::Quit => (s, Command::Quit, None),
        Action::Search => (AppView { search_mode: true, input: s.query, ..s }, Command::Nothing, None),
        Action::Tree => (
            AppView { tree_view: !s.tree_view, selected: 0, scroll: 0, force_refresh: true, ..s },
            Command::Nothing,
            None,
        ),
        Action::Sort(key) => (
            AppView { sort_key: key, scroll: 0, force_refresh: true, ..s },
            Command::Nothing,
            None,
        ),
        Action::Refresh => (AppView { force_refresh: true, ..s }, Command::Nothing, None),
        Action::Lock => if n == 0 {
            (AppView { status: "No process to lock"@, ..s }, Command::Nothing, Some(2000))
        } else {
            let sel = clamp_sel(s.selected, n);
            let pid = rows[sel as int].pid;
            if s.locked == Some(pid) {
                (
                    AppView { selected: sel, locked: None, status: "Selection unlocked"@, ..s },
                    Command::Nothing,
                    Some(2000),
                )
            } else {
                (
                    AppView {
                        selected: sel,
                        locked: Some(pid),
                        status: "Locked on PID "@ + dec_int(pid as int),
                        ..s
                    },
                    Command::Nothing,
                    Some(2000),
                )
            }
        },
        Action::Down(by) => (AppView { selected: inc(s.selected, by), ..s }, Command::Nothing, None),
        Action::Up(by) => (AppView { selected: dec_by(s.selected, by), ..s }, Command::Nothing, None),
        Action::Top => (AppView { selected: 0, ..s }, Command::Nothing, None),
        Action::Bottom => (AppView { selected: (usize::MAX / 2) as usize, ..s }, Command::Nothing, None),
        Action::Kill => if n == 0 {
            (AppView { status: "No process selected"@, ..s }, Command::Nothing, Some(2000))
        } else {
            let sel = clamp_sel(s.selected, n);
            let pid = rows[sel as int].pid;
            let warning = kill_warning(pid, is_child(rows[sel as int]));
            (
                AppView {
                    selected: sel,
                    pending: Some(PendingView::Kill(pid, warning)),
                    status: "Confirm: "@ + warning,
                    ..s
                },
                Command::Nothing,
                Some(8000),
            )
        },
        Action::Suspend => if n == 0 {
            (AppView { status: "No process selected"@, ..s }, Command::Nothing, Some(2000))
        } else {
            let sel = clamp_sel(s.selected, n);
            (AppView { selected: sel, ..s }, Command::CheckSuspend(rows[sel as int].pid), None)
        },
        Action::Resume => if n == 0 {
            (AppView { status: "No process selected"@, ..s }, Command::Nothing, Some(2000))
        } else {
            let sel = clamp_sel(s.selected, n);
            (AppView { selected: sel, ..s }, Command::CheckResume(rows[sel as int].pid), None)
        },
        Action::Ignore => (s, Command::Nothing, None),
    }
}

/// What a key press does to the dashboard that shows `rows`: the new state, the command to run, and how long a status message
/// that the key set is shown.
pub open spec fn key_step(s: AppView, k: KeyPress, rows: Seq<ProcLink>) -> (AppView, Command, Option<u64>) {
    if s.search_mode {
        (search_step(s, k), Command::Nothing, None)
    } else if s.pending is Some {
        pending_step(s, k)
    } else {
        normal_step(s, k, rows)
    }
}

/// Carries out a key in search mode.
fn search_key(state: &mut AppState, k: KeyPress)
    ensures
        final(state)@ == search_step(old(state)@, k),
{
    let ghost s0 = state@;
    match k.key {
        Key::Esc => {
            state.search_mode = false;
            state.search_input = String::new();
        },
        Key::Enter => {
            let chars = chars_of(state.search_input.as_str());
            let (a, b) = trim_range(&chars, 0, chars.len());
            assert(chars@.subrange(0, chars.len() as int) =~= chars@);
            state.search_query = string_of_range(&chars, a, b);
            state.search_mode = false;
            state.search_input = String::new();
            state.selected_index = 0;
            state.scroll_offset = 0;
            state.force_refresh = true;
        },
        Key::Backspace => {
            let chars = chars_of(state.search_input.as_str());
            if chars.len() > 0 {
                state.search_input = string_of_range(&chars, 0, chars.len() - 1);
                assert(chars@.subrange(0, chars.len() - 1) =~= s0.input.drop_last());
            }
        },
        Key::Char(c) => {
            if c == 'u' && k.ctrl {
                state.search_input = String::new();
            } else if !k.ctrl && !k.alt {
                push_char(&mut state.search_input, c);
            }
        },
        _ => {},
    }
    assert(state@ =~= search_step(s0, k));
}

/// Carries out a key while an action waits for confirmation.
fn pending_key(state: &mut AppState, k: KeyPress) -> (r: Step)
    requires
        old(state).pending_action is Some,
    ensures
        (final(state)@, r.command, r.status_ms) == pending_step(old(state)@, k),
{
    let ghost s0 = state@;
    match k.key {
        Key::Enter => {
            let command = match &state.pending_action {
                Some(PendingAction::Suspend { pid, .. }) => Command::Suspend(*pid),
                Some(PendingAction::Resume { pid, .. }) => Command::Resume(*pid),
                Some(PendingAction::Kill { pid, .. }) => Command::Kill(*pid),
                None => Command::Nothing,
            };
            state.pending_action = None;
            assert(state@ =~= pending_step(s0, k).0);
            Step { command, status_ms: None }
        },
        Key::Esc => {
            state.pending_action = None;
            state.status_message = "Action cancelled".to_owned();
            assert(state@ =~= pending_step(s0, k).0);
            Step { command: Command::Nothing, status_ms: Some(1000) }
        },
        _ => Step { command: Command::Nothing, status_ms: None },
    }
}

/// The action of a key in the normal mode.
fn action_of(key: Key, locked: bool) -> (a: Action)
    ensures
        a == key_action(key, locked),
{
    match key {
        Key::Char(c) => if c == 'q' || c == 'Q' {
            Action::Quit
        } else if c == '/' {
            Action::Search
        } else if c == 't' || c == 'T' {
            Action::Tree
        } else if c == 'c' || c == 'C' {
            Action::Sort(SortKey::Cpu)
        } else if c == 'm' || c == 'M' {
            Action::Sort(SortKey::Mem)
        } else if c == 'p' || c == 'P' {
            Action::Sort(SortKey::Power)
        } else if c == 'r' || c == 'R' {
            Action::Refresh
        } else if (c == 'j' || c == 'J') && !locked {
            Action::Down(1)
        } else if (c == 'k' || c == 'K') && !locked {
            Action::Up(1)
        } else if c == 'X' || c == 'x' {
            Action::Kill
        } else if c == 'S' || c == 's' {
            Action::Suspend
        } else if c == 'W' || c == 'w' {
            Action::Resume
        } else {
            Action::Ignore
        },
        Key::Enter => Action::Lock,
        Key::Down => if locked {
            Action::Ignore
        } else {
            Action::Down(1)
        },
        Key::Up => if locked {
            Action::Ignore
        } else {
            Action::Up(1)
        },
        Key::PageDown => if locked {
            Action::Ignore
        } else {
            Action::Down(20)
        },
        Key::PageUp => if locked {
            Action::Ignore
        } else {
            Action::Up(20)
        },
        Key::Home => if locked {
            Action::Ignore
        } else {
            Action::Top
        },
        Key::End => if locked {
            Action::Ignore
        } else {
            Action::Bottom
        },
        _ => Action::Ignore,
    }
}

/// The selection clamped to the last of `n > 0` rows.
fn clamp_selection(sel: usize, n: usize) -> (r: usize)
    requires
        n > 0,
    ensures
        r == clamp_sel(sel, n as nat),
{
    if sel < n {
        sel
    } else {
        n - 1
    }
}

/// Carries out a key in the normal mode.
fn normal_key(state: &mut AppState, k: KeyPress, rows: &Vec<ProcLink>) -> (r: Step)
    ensures
        (final(state)@, r.command, r.status_ms) == normal_step(old(state)@, k, rows@),
{
    let ghost s0 = state@;
    let n = rows.len();
    let action = action_of(k.key, state.locked_pid.is_some());
    match action {
        Action::Quit => Step { command: Command::Quit, status_ms: None },
        Action::Search => {
            state.search_mode = true;
            state.search_input = state.search_query.clone();
            assert(state@ =~= normal_step(s0, k, rows@).0);
            Step { command: Command::Nothing, status_ms: None }
        },
        Action::Tree => {
            state.tree_view = !state.tree_view;
            state.selected_index = 0;
            state.scroll_offset = 0;
            state.force_refresh = true;
            assert(state@ =~= normal_step(s0, k, rows@).0);
            Step { command: Command::Nothing, status_ms: None }
        },
        Action::Sort(key) => {
            state.sort_key = key;
            state.scroll_offset = 0;
            state.force_refresh = true;
            assert(state@ =~= normal_step(s0, k, rows@).0);
            Step { command: Command::Nothing, status_ms: None }
        },
        Action::Refresh => {
            state.force_refresh = true;
            assert(state@ =~= normal_step(s0, k, rows@).0);
            Step { command: Command::Nothing, status_ms: None }
        },
        Action::Lock => {
            if n == 0 {
                state.status_message = "No process to lock".to_owned();
            } else {
                let sel = clamp_selection(state.selected_index, n);
                state.selected_index = sel;
                let pid = rows[sel].pid;
                if state.locked_pid == Some(pid) {
                    state.locked_pid = None;
                    state.status_message = "Selection unlocked".to_owned();
                } else {
                    state.locked_pid = Some(pid);
                    state.status_message = pid_text("Locked on PID ", pid, "");
                    assert("Locked on PID "@ + dec_int(pid as int) + ""@ =~= "Locked on PID "@
                        + dec_int(pid as int)) by {
                        reveal_strlit("");
                    }
                }
            }
            assert(state@ =~= normal_step(s0, k, rows@).0);
            Step { command: Command::Nothing, status_ms: Some(2000) }
        },
        Action::Down(by) => {
            state.selected_index = match state.selected_index.checked_add(by) {
                Some(v) => v,
                None => usize::MAX,
            };
            assert(state@ =~= normal_step(s0, k, rows@).0);
            Step { command: Command::Nothing, status_ms: None }
        },
        Action::Up(by) => {
            state.selected_index = if state.selected_index >= by {
                state.selected_index - by
            } else {
                0
            };
            assert(state@ =~= normal_step(s0, k, rows@).0);
            Step { command: Command::Nothing, status_ms: None }
        },
        Action::Top => {
            state.selected_index = 0;
            assert(state@ =~= normal_step(s0, k, rows@).0);
            Step { command: Command::Nothing, status_ms: None }
        },
        Action::Bottom => {
            state.selected_index = usize::MAX / 2;
            assert(state@ =~= normal_step(s0, k, rows@).0);
            Step { command: Command::Nothing, status_ms: None }
        },
        Action::Kill => {
            if n == 0 {
                state.status_message = "No process selected".to_owned();
                assert(state@ =~= normal_step(s0, k, rows@).0);
                Step { command: Command::Nothing, status_ms: Some(2000) }
            } else {
                let sel = clamp_selection(state.selected_index, n);
                state.selected_index = sel;
                let pid = rows[sel].pid;
                let child = match rows[sel].parent_pid {
                    Some(pp) => pp > 0,
                    None => false,
                };
                let warning = if child {
                    pid_text(
                        "This will terminate PID ",
                        pid,
                        " and its children using SIGKILL; this is a child process do u want to kill it. Press Enter to confirm, Esc to cancel",
                    )
                } else {
                    pid_text(
                        "This will terminate PID ",
                        pid,
                        " and its children using SIGKILL. Press Enter to confirm, Esc to cancel",
                    )
                };
                let mut status: Vec<char> = Vec::new();
                extend_str(&mut status, "Confirm: ");
                extend_str(&mut status, warning.as_str());
                state.status_message = string_from_chars(&status);
                state.pending_action = Some(PendingAction::Kill { pid, msg: warning });
                assert(state@ =~= normal_step(s0, k, rows@).0);
                Step { command: Command::Nothing, status_ms: Some(8000) }
            }
        },
        Action::Suspend => {
            if n == 0 {
                state.status_message = "No process selected".to_owned();
                assert(state@ =~= normal_step(s0, k, rows@).0);
                Step { command: Command::Nothing, status_ms: Some(2000) }
            } else {
                let sel = clamp_selection(state.selected_index, n);
                state.selected_index = sel;
                assert(state@ =~= normal_step(s0, k, rows@).0);
                Step { command: Command::CheckSuspend(rows[sel].pid), status_ms: None }
            }
        },
        Action::Resume => {
            if n == 0 {
                state.status_message = "No process selected".to_owned();
                assert(state@ =~= normal_step(s0, k, rows@).0);
                Step { command: Command::Nothing, status_ms: Some(2000) }
            } else {
                let sel = clamp_selection(state.selected_index, n);
                state.selected_index = sel;
                assert(state@ =~= normal_step(s0, k, rows@).0);
                Step { command: Command::CheckResume(rows[sel].pid), status_ms: None }
            }
        },
        Action::Ignore => Step { command: Command::Nothing, status_ms: None },
    }
}

/// Carries out a key press on the dashboard that shows `rows`.
pub fn handle_key(state: &mut AppState, k: KeyPress, rows: &Vec<ProcLink>) -> (r: Step)
    ensures
        (final(state)@, r.command, r.status_ms) == key_step(old(state)@, k, rows@),
{
    if state.search_mode {
        search_key(state, k);
        Step { command: Command::Nothing, status_ms: None }
    } else if state.pending_action.is_some() {
        pending_key(state, k)
    } else {
        normal_key(state, k, rows)
    }
}

// ---------------------------------------------------------------------------
// Answers of the process controller
// ---------------------------------------------------------------------------
/// What the dashboard does with the warning (if any) found before
/// suspending `pid`: ask for confirmation, or go ahead.
pub open spec fn suspend_check_step(s: AppView, pid: i32, conflict: Option<Seq<char>>) -> (
    AppView,
    Command,
    Option<u64>,
) {
    match conflict {
        Some(msg) => (
            AppView { pending: Some(PendingView::Suspend(pid, msg)), status: confirm_text(msg), ..s },
            Command::Nothing,
            Some(8000),
        ),
        None => (s, Command::Suspend(pid), None),
    }
}

/// What the dashboard does with the warning (if any) found before resuming
/// `pid`.
pub open spec fn resume_check_step(s: AppView, pid: i32, conflict: Option<Seq<char>>) -> (
    AppView,
    Command,
    Option<u64>,
) {
    match conflict {
        Some(msg) => (
            AppView { pending: Some(PendingView::Resume(pid, msg)), status: confirm_text(msg), ..s },
            Command::Nothing,
            Some(8000),
        ),
        None => (s, Command::Resume(pid), None),
    }
}

/// A text taken by its view, if there is one.
pub open spec fn opt_view(t: Option<String>) -> Option<Seq<char>> {
    match t {
        Some(m) => Some(m@),
        None => None,
    }
}

/// The status shown while an action waits for confirmation.
fn confirm_string(msg: &String) -> (r: String)
    ensures
        r@ == confirm_text(msg@),
{
    let mut out: Vec<char> = Vec::new();
    extend_str(&mut out, "Confirm: ");
    extend_str(&mut out, msg.as_str());
    extend_str(&mut out, ". Press Enter to proceed, Esc to cancel");
    string_from_chars(&out)
}

/// Takes in the warning found before suspending `pid`.
pub fn on_suspend_check(state: &mut AppState, pid: i32, conflict: Option<String>) -> (r: Step)
    ensures
        (final(state)@, r.command, r.status_ms) == suspend_check_step(old(state)@, pid, opt_view(conflict)),
{
    let ghost s0 = state@;
    match conflict {
        Some(msg) => {
            state.status_message = confirm_string(&msg);
            state.pending_action = Some(PendingAction::Suspend { pid, msg });
            assert(state@ =~= suspend_check_step(s0, pid, opt_view(conflict)).0);
            Step { command: Command::Nothing, status_ms: Some(8000) }
        },
        None => Step { command: Command::Suspend(pid), status_ms: None },
    }
}

/// Takes in the warning found before resuming `pid`.
pub fn on_resume_check(state: &mut AppState, pid: i32, conflict: Option<String>) -> (r: Step)
    ensures
        (final(state)@, r.command, r.status_ms) == resume_check_step(old(state)@, pid, opt_view(conflict)),
{
    let ghost s0 = state@;
    match conflict {
        Some(msg) => {
            state.status_message = confirm_string(&msg);
            state.pending_action = Some(PendingAction::Resume { pid, msg });
            assert(state@ =~= resume_check_step(s0, pid, opt_view(conflict)).0);
            Step { command: Command::Nothing, status_ms: Some(8000) }
        },
        None => Step { command: Command::Resume(pid), status_ms: None },
    }
}

/// The status after a suspend (`resume` false) or a resume (`resume` true)
/// of `pid`, and how long it is shown; a success also asks for a refresh.
pub open spec fn signal_done_step(
    s: AppView,
    resume: bool,
    pid: i32,
    r: Result<(), crate::process_controller::ProcFailure>,
) -> (AppView, u64) {
    match r {
        Ok(()) => (
            AppView {
                status: (if resume {
                    "Resumed PID "@
                } else {
                    "Suspended PID "@
                }) + dec_int(pid as int),
                force_refresh: true,
                ..s
            },
            2000,
        ),
        Err(e) => (
            AppView {
                status: (if resume {
                    "Failed to resume: "@
                } else {
                    "Failed to suspend: "@
                }) + process_error_text(e),
                ..s
            },
            2800,
        ),
    }
}

/// Takes in the answer of a suspend (`resume` false) or resume (`resume`
/// true) of `pid`; gives how long the status is shown, in milliseconds.
pub fn on_signal_done(
    state: &mut AppState,
    resume: bool,
    pid: i32,
    r: &Result<(), ProcessError>,
) -> (ms: u64)
    ensures
        (final(state)@, ms) == signal_done_step(
            old(state)@,
            resume,
            pid,
            crate::process_controller::proc_res(*r),
        ),
{
    let ghost s0 = state@;
    let mut out: Vec<char> = Vec::new();
    match r {
        Ok(()) => {
            if resume {
                extend_str(&mut out, "Resumed PID ");
            } else {
                extend_str(&mut out, "Suspended PID ");
            }
            push_dec_i64(&mut out, pid as i64);
            state.status_message = string_from_chars(&out);
            state.force_refresh = true;
            assert(state@ =~= signal_done_step(s0, resume, pid, crate::process_controller::proc_res(*r)).0);
            2000
        },
        Err(e) => {
            if resume {
                extend_str(&mut out, "Failed to resume: ");
            } else {
                extend_str(&mut out, "Failed to suspend: ");
            }
            let m = e.message();
            extend_str(&mut out, m.as_str());
            state.status_message = string_from_chars(&out);
            assert(state@ =~= signal_done_step(s0, resume, pid, crate::process_controller::proc_res(*r)).0);
            2800
        },
    }
}

/// Takes in the outcome of killing a process tree: its message becomes the
/// status, shown for two seconds on success and 2.8 seconds otherwise, and a
/// refresh is due.
pub fn on_kill_done(state: &mut AppState, ok: bool, msg: String) -> (ms: u64)
    ensures
        final(state)@ == (AppView { status: msg@, force_refresh: true, ..old(state)@ }),
        ms == if ok {
            2000u64
        } else {
            2800u64
        },
{
    let ghost s0 = state@;
    state.status_message = msg;
    state.force_refresh = true;
    assert(state@ =~= AppView { status: msg@, force_refresh: true, ..s0 });
    if ok {
        2000
    } else {
        2800
    }
}

// ---------------------------------------------------------------------------
// Refreshes and the visible window
// ---------------------------------------------------------------------------
/// The first position of `pid` in `pids`.
pub open spec fn position_of(pids: Seq<i32>, pid: i32) -> Option<int> {
    if exists|i: int| 0 <= i < pids.len() && pids[i] == pid {
        Some(
            choose|i: int|
                0 <= i < pids.len() && pids[i] == pid && forall|j: int| 0 <= j < i ==> pids[j] != pid,
        )
    } else {
        None
    }
}

/// After new rows are sampled: a locked selection moves to where its process
/// now is, or is released, with a status, when the process is gone; the
/// refresh is no longer due.
pub open spec fn refresh_step(s: AppView, pids: Seq<i32>) -> (AppView, Option<u64>) {
    match s.locked {
        None => (AppView { force_refresh: false, ..s }, None),
        Some(pid) => match position_of(pids, pid) {
            Some(i) => (AppView { selected: i as usize, force_refresh: false, ..s }, None),
            None => (
                AppView {
                    locked: None,
                    status: "Locked PID "@ + dec_int(pid as int) + " exited"@,
                    force_refresh: false,
                    ..s
                },
                Some(2000),
            ),
        },
    }
}

/// Takes in the pids of newly sampled rows.
pub fn on_refresh(state: &mut AppState, pids: &Vec<i32>) -> (r: Option<u64>)
    ensures
        (final(state)@, r) == refresh_step(old(state)@, pids@),
{
    let ghost s0 = state@;
    state.force_refresh = false;
    match state.locked_pid {
        None => {
            assert(state@ =~= refresh_step(s0, pids@).0);
            None
        },
        Some(pid) => {
            let mut i: usize = 0;
            while i < pids.len()
                invariant
                    i <= pids.len(),
                    forall|j: int| 0 <= j < i ==> pids@[j] != pid,
                    state@ == (AppView { force_refresh: false, ..s0 }),
                    s0 == old(state)@,
                    s0.locked == Some(pid),
                decreases pids.len() - i,
            {
                if pids[i] == pid {
                    assert(position_of(pids@, pid) == Some(i as int)) by {
                        let c = choose|c: int|
                            0 <= c < pids@.len() && pids@[c] == pid && forall|j: int|
                                0 <= j < c ==> pids@[j] != pid;
                        assert(pids@[i as int] == pid);
                        if c < i {
                        } else if c > i {
                            assert(pids@[i as int] != pid);
                        }
                    }
                    state.selected_index = i;
                    assert(state@ =~= refresh_step(s0, pids@).0);
                    return None;
                }
                i = i + 1;
            }
            state.locked_pid = None;
            state.status_message = pid_text("Locked PID ", pid, " exited");
            assert(state@ =~= refresh_step(s0, pids@).0);
            Some(2000)
        },
    }
}

/// The selection and the first visible row after clamping to `len` rows of
/// which `visible` fit: the selection moves to the last row if past it, the
/// window scrolls just enough to show it, and never past the end.
pub open spec fn clamp_window(sel: usize, scroll: usize, len: nat, visible: nat) -> (usize, usize) {
    let sel1: usize = if len == 0 {
        0
    } else if sel < len {
        sel
    } else {
        (len - 1) as usize
    };
    let scroll1: usize = if sel1 < scroll {
        sel1
    } else if sel1 >= scroll + visible {
        (sel1 - (visible - 1)) as usize
    } else {
        scroll
    };
    let limit: int = if len >= visible {
        len - visible
    } else {
        0
    };
    (sel1, if scroll1 <= limit {
        scroll1
    } else {
        limit as usize
    })
}

/// Clamps the selection and the scroll position to `len` rows of which
/// `visible` fit on screen. When there are rows, the selected row is one of
/// them and lies in the visible window.
pub fn clamp_view(state: &mut AppState, len: usize, visible: usize)
    requires
        visible >= 1,
    ensures
        (final(state)@.selected, final(state)@.scroll) == clamp_window(
            old(state)@.selected,
            old(state)@.scroll,
            len as nat,
            visible as nat,
        ),
        final(state)@ == (AppView {
            selected: final(state)@.selected,
            scroll: final(state)@.scroll,
            ..old(state)@
        }),
        len > 0 ==> final(state).selected_index < len,
        len > 0 ==> final(state).scroll_offset <= final(state).selected_index,
        len > 0 ==> final(state).selected_index < final(state).scroll_offset + visible,
        final(state).scroll_offset + visible <= len || final(state).scroll_offset == 0,
{
    let ghost s0 = state@;
    let sel = if len == 0 {
        0
    } else if state.selected_index < len {
        state.selected_index
    } else {
        len - 1
    };
    let scroll = state.scroll_offset;
    let below = scroll <= usize::MAX - visible && sel >= scroll + visible;
    let scroll1 = if sel < scroll {
        sel
    } else if below {
        sel - (visible - 1)
    } else {
        scroll
    };
    let limit = if len >= visible {
        len - visible
    } else {
        0
    };
    state.selected_index = sel;
    state.scroll_offset = if scroll1 <= limit {
        scroll1
    } else {
        limit
    };
    assert(state@ =~= AppView { selected: state@.selected, scroll: state@.scroll, ..s0 });
}

// ---------------------------------------------------------------------------
// Texts of the dashboard
// ---------------------------------------------------------------------------
/// The name of a sort key in the process panel's title.
pub open spec fn sort_label(k: SortKey) -> Seq<char> {
    match k {
        SortKey::Cpu => "CPU"@,
        SortKey::Mem => "MEM"@,
        SortKey::Power => "PWR*"@,
    }
}

/// The state of the selected process as the title shows it.
pub open spec fn run_state_label(stopped: Option<bool>) -> Seq<char> {
    match stopped {
        Some(true) => "STOPPED"@,
        Some(false) => "RUNNING"@,
        None => "?"@,
    }
}

/// The title of the process panel: counts, sort key and view, then the
/// filter, the locked pid and the selected process with its state, where
/// there are any.
pub open spec fn header_line(
    s: AppView,
    total: nat,
    shown: nat,
    selected: Option<(i32, Option<bool>)>,
) -> Seq<char> {
    "Processes: "@ + dec(total) + " total | Showing "@ + dec(shown) + " by "@ + sort_label(
        s.sort_key,
    ) + " | "@ + (if s.tree_view {
        "TREE"@
    } else {
        "FLAT"@
    }) + (if s.query.len() > 0 {
        " | /"@ + s.query
    } else {
        seq![]
    }) + (match s.locked {
        Some(p) => " | LOCK PID "@ + dec_int(p as int),
        None => seq![],
    }) + (match selected {
        Some((pid, st)) => " | SELECTED: "@ + dec_int(pid as int) + " ("@ + run_state_label(st)
            + ")"@,
        None => seq![],
    })
}

/// The pid of the selected row, where the selection is on a row.
pub fn selected_pid(state: &AppState, pids: &Vec<i32>) -> (r: Option<i32>)
    ensures
        r == if state.selected_index < pids.len() {
            Some(pids@[state.selected_index as int])
        } else {
            None::<i32>
        },
{
    if state.selected_index < pids.len() {
        Some(pids[state.selected_index])
    } else {
        None
    }
}

/// The counts, the sort key and the view that open the process panel's title.
pub open spec fn header_head(s: AppView, total: nat, shown: nat) -> Seq<char> {
    "Processes: "@ + dec(total) + " total | Showing "@ + dec(shown) + " by "@ + sort_label(
        s.sort_key,
    ) + " | "@ + (if s.tree_view {
        "TREE"@
    } else {
        "FLAT"@
    })
}

fn push_header_head(out: &mut Vec<char>, state: &AppState, total: usize, shown: usize)
    ensures
        final(out)@ == old(out)@ + header_head(state@, total as nat, shown as nat),
{
    let mut h: Vec<char> = Vec::new();
    extend_str(&mut h, "Processes: ");
    push_dec(&mut h, total as u64);
    extend_str(&mut h, " total | Showing ");
    push_dec(&mut h, shown as u64);
    extend_str(&mut h, " by ");
    match state.sort_key {
        SortKey::Cpu => extend_str(&mut h, "CPU"),
        SortKey::Mem => extend_str(&mut h, "MEM"),
        SortKey::Power => extend_str(&mut h, "PWR*"),
    }
    extend_str(&mut h, " | ");
    if state.tree_view {
        extend_str(&mut h, "TREE");
    } else {
        extend_str(&mut h, "FLAT");
    }
    assert(h@ =~= header_head(state@, total as nat, shown as nat));
    crate::text::extend_chars(out, &h);
}

/// The part of the title that names the selected process and its state.
pub open spec fn header_selected(selected: Option<(i32, Option<bool>)>) -> Seq<char> {
    match selected {
        Some((pid, st)) => " | SELECTED: "@ + dec_int(pid as int) + " ("@ + run_state_label(st)
            + ")"@,
        None => seq![],
    }
}

fn push_header_selected(out: &mut Vec<char>, selected: Option<(i32, Option<bool>)>)
    ensures
        final(out)@ == old(out)@ + header_selected(selected),
{
    let mut h: Vec<char> = Vec::new();
    match selected {
        Some((pid, st)) => {
            extend_str(&mut h, " | SELECTED: ");
            push_dec_i64(&mut h, pid as i64);
            extend_str(&mut h, " (");
            match st {
                Some(true) => extend_str(&mut h, "STOPPED"),
                Some(false) => extend_str(&mut h, "RUNNING"),
                None => extend_str(&mut h, "?"),
            }
            extend_str(&mut h, ")");
        },
        None => {},
    }
    assert(h@ =~= header_selected(selected));
    crate::text::extend_chars(out, &h);
}

/// The title of the process panel for `total` sampled processes of which
/// `shown` are listed; `selected` is the selected process and whether it is
/// stopped (unknown where its state could not be read).
pub fn process_header(
    state: &AppState,
    total: usize,
    shown: usize,
    selected: Option<(i32, Option<bool>)>,
) -> (r: String)
    ensures
        r@ == header_line(state@, total as nat, shown as nat, selected),
{
    let mut out: Vec<char> = Vec::new();
    push_header_head(&mut out, state, total, shown);
    let ghost base = out@;
    let q = chars_of(state.search_query.as_str());
    if q.len() > 0 {
        extend_str(&mut out, " | /");
        extend_str(&mut out, state.search_query.as_str());
    }
    let ghost with_query = out@;
    match state.locked_pid {
        Some(p) => {
            extend_str(&mut out, " | LOCK PID ");
            push_dec_i64(&mut out, p as i64);
        },
        None => {},
    }
    let ghost with_lock = out@;
    push_header_selected(&mut out, selected);
    assert(out@ =~= header_line(state@, total as nat, shown as nat, selected));
    string_from_chars(&out)
}

/// The bottom bar: the search input while searching, else the active filter,
/// else the status message while it is shown, else nothing.
pub open spec fn bottom_line(s: AppView, status_visible: bool) -> Seq<char> {
    if s.search_mode {
        "Search   : "@ + s.input
    } else if s.query.len() > 0 {
        "Filter   : "@ + s.query + "  (press '/' to edit, Enter on empty to clear)"@
    } else if s.status.len() > 0 && status_visible {
        "Status   : "@ + s.status
    } else {
        seq![]
    }
}

/// The text of the bottom bar; `status_visible` tells whether the status
/// message is still within its time.
pub fn bottom_text(state: &AppState, status_visible: bool) -> (r: String)
    ensures
        r@ == bottom_line(state@, status_visible),
{
    let mut out: Vec<char> = Vec::new();
    let q = chars_of(state.search_query.as_str());
    let st = chars_of(state.status_message.as_str());
    if state.search_mode {
        extend_str(&mut out, "Search   : ");
        extend_str(&mut out, state.search_input.as_str());
    } else if q.len() > 0 {
        extend_str(&mut out, "Filter   : ");
        extend_str(&mut out, state.search_query.as_str());
        extend_str(&mut out, "  (press '/' to edit, Enter on empty to clear)");
    } else if st.len() > 0 && status_visible {
        extend_str(&mut out, "Status   : ");
        extend_str(&mut out, state.status_message.as_str());
    }
    assert(out@ =~= bottom_line(state@, status_visible));
    string_from_chars(&out)
}

/// The keys listed on the help line.
pub open spec fn help_keys() -> Seq<char> {
    "q:quit  /:search  t:tree  s:sleep  w:wake  Enter:lock/unlock  ↑/↓ or j/k:move  PgUp/PgDn:page  Home/End  x:kill  c/m/p:sort  r:refresh"@
}

/// The smaller of two numbers.
pub open spec fn min_nat(a: nat, b: nat) -> nat {
    if a <= b {
        a
    } else {
        b
    }
}

/// The help line: the keys, then, where the list does not fit, the range of
/// rows shown (`[first-last/count]`, counted from one).
pub open spec fn help_line(len: nat, scroll: nat, visible: nat) -> Seq<char> {
    if len > visible {
        help_keys() + "  ["@ + dec(min_nat(len, scroll + 1)) + "-"@ + dec(
            min_nat(len, scroll + visible),
        ) + "/"@ + dec(len) + "]"@
    } else {
        help_keys()
    }
}

/// The help line for `len` rows, `visible` of them on screen from `scroll`.
pub fn help_text(len: usize, scroll: usize, visible: usize) -> (r: String)
    ensures
        r@ == help_line(len as nat, scroll as nat, visible as nat),
{
    let mut out: Vec<char> = Vec::new();
    extend_str(
        &mut out,
        "q:quit  /:search  t:tree  s:sleep  w:wake  Enter:lock/unlock  ↑/↓ or j/k:move  PgUp/PgDn:page  Home/End  x:kill  c/m/p:sort  r:refresh",
    );
    if len > visible {
        let pos = if scroll >= len {
            len
        } else {
            scroll + 1
        };
        let end = if scroll >= len || visible >= len - scroll {
            len
        } else {
            scroll + visible
        };
        extend_str(&mut out, "  [");
        push_dec(&mut out, pos as u64);
        extend_str(&mut out, "-");
        push_dec(&mut out, end as u64);
        extend_str(&mut out, "/");
        push_dec(&mut out, len as u64);
        extend_str(&mut out, "]");
    }
    assert(out@ =~= help_line(len as nat, scroll as nat, visible as nat));
    string_from_chars(&out)
}

/// The title and the message of the confirmation box of a pending action.
pub open spec fn pending_box(p: PendingView) -> (Seq<char>, Seq<char>) {
    match p {
        PendingView::Suspend(pid, msg) => ("Confirm suspend PID "@ + dec_int(pid as int), msg),
        PendingView::Resume(pid, msg) => ("Confirm resume PID "@ + dec_int(pid as int), msg),
        PendingView::Kill(pid, msg) => ("Confirm kill PID "@ + dec_int(pid as int), msg),
    }
}

/// The title and the message of the confirmation box, while an action waits.
pub fn pending_lines(state: &AppState) -> (r: Option<(String, String)>)
    ensures
        match r {
            Some((t, m)) => state@.pending is Some && pending_box(state@.pending.unwrap()) == (
                t@,
                m@,
            ),
            None => state@.pending is None,
        },
{
    match &state.pending_action {
        Some(PendingAction::Suspend { pid, msg }) => {
            let t = pid_text("Confirm suspend PID ", *pid, "");
            assert("Confirm suspend PID "@ + dec_int(*pid as int) + ""@ =~= "Confirm suspend PID "@
                + dec_int(*pid as int)) by {
                reveal_strlit("");
            }
            Some((t, msg.clone()))
        },
        Some(PendingAction::Resume { pid, msg }) => {
            let t = pid_text("Confirm resume PID ", *pid, "");
            assert("Confirm resume PID "@ + dec_int(*pid as int) + ""@ =~= "Confirm resume PID "@
                + dec_int(*pid as int)) by {
                reveal_strlit("");
            }
            Some((t, msg.clone()))
        },
        Some(PendingAction::Kill { pid, msg }) => {
            let t = pid_text("Confirm kill PID ", *pid, "");
            assert("Confirm kill PID "@ + dec_int(*pid as int) + ""@ =~= "Confirm kill PID "@
                + dec_int(*pid as int)) by {
                reveal_strlit("");
            }
            Some((t, msg.clone()))
        },
        None => None,
    }
}

// ---------------------------------------------------------------------------
// Layout
// ---------------------------------------------------------------------------
/// Whether the terminal is too small for the dashboard: under the minimum
/// of 40 columns by 8 rows.
pub fn too_small(width: u16, height: u16) -> (r: bool)
    ensures
        r == (height < 8 || width < 40),
{
    height < 8 || width < 40
}

/// The height of the top panels for a terminal `width` columns wide and
/// `cores` CPU cores: the rows of the core grid (laid out in 60% of the
/// width) plus four, at least eight.
pub open spec fn top_height(width: nat, cores: nat) -> nat {
    let est = (if width >= 1 {
        (width - 1) as nat
    } else {
        0
    }) * 60 / 100;
    let cols = core_columns(est, cores);
    let rows = (cores + cols - 1) as nat / cols;
    if rows + 4 >= 8 {
        rows + 4
    } else {
        8
    }
}

/// The height of the top panels.
pub fn top_panel_height(width: u16, cores: usize) -> (r: u16)
    requires
        cores <= usize::MAX - 8,
    ensures
        r == top_height(width as nat, cores as nat) as u16,
{
    let w: usize = if width >= 1 {
        (width - 1) as usize
    } else {
        0
    };
    let est = w * 60 / 100;
    let cols = cpu_core_columns(est, cores);
    let rows = (cores + cols - 1) / cols;
    let h = if rows + 4 >= 8 {
        rows + 4
    } else {
        8
    };
    h as u16
}

/// Where the confirmation box goes in an area at `(x, y)` of `w` by `h`:
/// half the width (saturated), seven rows high, centred.
pub open spec fn popup_area(x: u16, y: u16, w: u16, h: u16) -> (u16, u16, u16, u16) {
    let pw: u16 = (if w * 50 > u16::MAX {
        u16::MAX
    } else {
        (w * 50) as u16
    }) / 100;
    let dx: int = if w >= pw {
        (w - pw) / 2
    } else {
        0
    };
    let dy: int = if h >= 7 {
        (h - 7) / 2
    } else {
        0
    };
    ((x + dx) as u16, (y + dy) as u16, pw, 7)
}

/// The position and size of the confirmation box.
pub fn popup_rect(x: u16, y: u16, w: u16, h: u16) -> (r: (u16, u16, u16, u16))
    requires
        x + w <= u16::MAX,
        y + h <= u16::MAX,
    ensures
        r == popup_area(x, y, w, h),
{
    let scaled: u16 = match w.checked_mul(50) {
        Some(v) => v,
        None => u16::MAX,
    };
    let pw = scaled / 100;
    let dx = if w >= pw {
        (w - pw) / 2
    } else {
        0
    };
    let dy = if h >= 7 {
        (h - 7) / 2
    } else {
        0
    };
    (x + dx, y + dy, pw, 7)
}

// ---------------------------------------------------------------------------
// Command line
// ---------------------------------------------------------------------------
/// The options found on a command line: the refresh values given, in order
/// (the program keeps the last that is a number), and the number of rows to
/// show (`0` for all).
pub struct ArgScan {
    pub refresh: Vec<String>,
    pub top: usize,
}

/// Scans the arguments from position `i` on, with the refresh values and the
/// row count found so far: `-r`/`--refresh` and `-n`/`--top` take the next
/// argument (a row count that is not a number is passed over), other
/// arguments are passed over.
pub open spec fn scan_from(args: Seq<Seq<char>>, i: int, refresh: Seq<Seq<char>>, top: usize) -> (
    Seq<Seq<char>>,
    usize,
)
    decreases args.len() - i,
{
    if i < 0 || i >= args.len() {
        (refresh, top)
    } else if args[i] == "-r"@ || args[i] == "--refresh"@ {
        if i + 1 < args.len() {
            scan_from(args, i + 2, refresh.push(args[i + 1]), top)
        } else {
            scan_from(args, i + 1, refresh, top)
        }
    } else if args[i] == "-n"@ || args[i] == "--top"@ {
        if i + 1 < args.len() {
            scan_from(
                args,
                i + 2,
                refresh,
                match usize_of(args[i + 1]) {
                    Some(v) => v,
                    None => top,
                },
            )
        } else {
            scan_from(args, i + 1, refresh, top)
        }
    } else {
        scan_from(args, i + 1, refresh, top)
    }
}

/// Arguments taken by their characters.
pub open spec fn args_view(v: Seq<String>) -> Seq<Seq<char>> {
    v.map_values(|s: String| s@)
}

/// Whether `s` is exactly `lit`.
fn is_text(s: &str, lit: &str) -> (r: bool)
    ensures
        r == (s@ == lit@),
{
    let a = chars_of(s);
    let b = chars_of(lit);
    if a.len() != b.len() {
        assert(a@.len() != b@.len());
        return false;
    }
    let mut i: usize = 0;
    while i < a.len()
        invariant
            i <= a.len(),
            a.len() == b.len(),
            a@ == s@,
            b@ == lit@,
            a@.take(i as int) == b@.take(i as int),
        decreases a.len() - i,
    {
        if a[i] != b[i] {
            assert(a@[i as int] != b@[i as int]);
            return false;
        }
        assert(a@.take(i + 1) =~= a@.take(i as int).push(a@[i as int]));
        assert(b@.take(i + 1) =~= b@.take(i as int).push(b@[i as int]));
        i = i + 1;
    }
    assert(a@.take(a.len() as int) =~= a@);
    assert(b@.take(b.len() as int) =~= b@);
    true
}

/// The options of a command line (`args[0]` is the program).
pub fn scan_args(args: &Vec<String>) -> (r: ArgScan)
    ensures
        (args_view(r.refresh@), r.top) == scan_from(args_view(args@), 1, seq![], 0),
{
    let ghost av = args_view(args@);
    let mut refresh: Vec<String> = Vec::new();
    let mut top: usize = 0;
    let mut i: usize = 1;
    assert(args_view(refresh@) =~= seq![]);
    while i < args.len()
        invariant
            av == args_view(args@),
            av.len() == args.len(),
            1 <= i,
            scan_from(av, i as int, args_view(refresh@), top) == scan_from(av, 1, seq![], 0),
        decreases args.len() - i,
    {
        let a = args[i].as_str();
        assert(av[i as int] == a@);
        if is_text(a, "-r") || is_text(a, "--refresh") {
            if i + 1 < args.len() {
                let ghost before = refresh@;
                refresh.push(args[i + 1].clone());
                assert(args_view(refresh@) =~= args_view(before).push(av[i + 1]));
                i = i + 1;
            }
        } else if is_text(a, "-n") || is_text(a, "--top") {
            if i + 1 < args.len() {
                let chars = chars_of(args[i + 1].as_str());
                assert(chars@.subrange(0, chars.len() as int) =~= chars@);
                match parse_usize(&chars, 0, chars.len()) {
                    Some(v) => {
                        top = v;
                    },
                    None => {},
                }
                i = i + 1;
            }
        }
        i = i + 1;
    }
    assert(args_view(refresh@).len() >= 0);
    ArgScan { refresh, top }
}

// ---------------------------------------------------------------------------
// Search filter
// ---------------------------------------------------------------------------
/// What `str::to_lowercase` gives for a text (the Unicode lower case of each
/// character).
pub uninterp spec fn lowercase(s: Seq<char>) -> Seq<char>;

/// The lower case of a text, with `str::to_lowercase`. The contract claims
/// only that the result is `lowercase` of the text's characters: it depends
/// on them alone; what the lower case of each character is stays unstated.
#[verifier::external_body]
fn to_lowercase(s: &str) -> (r: String)
    ensures
        r@ == lowercase(s@),
{
    s.to_lowercase()
}

/// The text searched for: the query trimmed and in lower case.
pub open spec fn search_text(query: Seq<char>) -> Seq<char> {
    lowercase(trim(query))
}

/// Whether a process matches a non-empty search text `q`: its pid or its
/// name in lower case (`lname`) contains it.
pub open spec fn row_matches(pid: i32, lname: Seq<char>, q: Seq<char>) -> bool {
    contains_seq(dec_int(pid as int), q) || contains_seq(lname, q)
}

/// The names in lower case.
pub open spec fn lowered(names: Seq<Seq<char>>) -> Seq<Seq<char>> {
    names.map_values(|n: Seq<char>| lowercase(n))
}

/// The rows among the first `k` that match `q`, by their pids and their
/// names in lower case, in order.
pub open spec fn matching_below(pids: Seq<i32>, lnames: Seq<Seq<char>>, q: Seq<char>, k: int) -> Seq<
    usize,
>
    decreases k,
{
    if k <= 0 {
        seq![]
    } else if row_matches(pids[k - 1], lnames[k - 1], q) {
        matching_below(pids, lnames, q, k - 1).push((k - 1) as usize)
    } else {
        matching_below(pids, lnames, q, k - 1)
    }
}

/// The rows that a search text `q` keeps, given the pids and the names in
/// lower case: all where `q` is empty, else the matching ones, in order.
pub open spec fn rows_matching(pids: Seq<i32>, lnames: Seq<Seq<char>>, q: Seq<char>) -> Seq<usize> {
    if q.len() == 0 {
        Seq::new(pids.len(), |i: int| i as usize)
    } else {
        matching_below(pids, lnames, q, pids.len() as int)
    }
}

/// The rows that the search for `query` keeps.
pub open spec fn kept_rows(pids: Seq<i32>, names: Seq<Seq<char>>, query: Seq<char>) -> Seq<usize> {
    rows_matching(pids, lowered(names), search_text(query))
}

/// The rows (with pids `pids` and names in lower case `lnames`) that the
/// search text `q` keeps, by position.
pub fn match_rows(pids: &Vec<i32>, lnames: &Vec<String>, q: &str) -> (r: Vec<usize>)
    requires
        pids.len() == lnames.len(),
    ensures
        r@ == rows_matching(pids@, args_view(lnames@), q@),
{
    let qc = chars_of(q);
    let ghost nv = args_view(lnames@);
    let mut out: Vec<usize> = Vec::new();
    let mut i: usize = 0;
    if qc.len() == 0 {
        while i < pids.len()
            invariant
                i <= pids.len(),
                out@ == Seq::new(i as nat, |j: int| j as usize),
            decreases pids.len() - i,
        {
            out.push(i);
            assert(out@ =~= Seq::new((i + 1) as nat, |j: int| j as usize));
            i = i + 1;
        }
        return out;
    }
    while i < pids.len()
        invariant
            i <= pids.len(),
            pids.len() == lnames.len(),
            nv == args_view(lnames@),
            qc@ == q@,
            out@ == matching_below(pids@, nv, q@, i as int),
        decreases pids.len() - i,
    {
        let mut d: Vec<char> = Vec::new();
        push_dec_i64(&mut d, pids[i] as i64);
        let by_pid = chars_contain(&d, &qc);
        let n = chars_of(lnames[i].as_str());
        let by_name = chars_contain(&n, &qc);
        assert(nv[i as int] == lnames@[i as int]@);
        if by_pid || by_name {
            out.push(i);
        }
        i = i + 1;
    }
    out
}

/// The rows of the process list (with pids `pids` and names `names`) that a
/// search for `query` keeps, by position.
pub fn filter_processes(pids: &Vec<i32>, names: &Vec<String>, query: &str) -> (r: Vec<usize>)
    requires
        pids.len() == names.len(),
    ensures
        r@ == kept_rows(pids@, args_view(names@), query@),
{
    let chars = chars_of(query);
    let (a, b) = trim_range(&chars, 0, chars.len());
    assert(chars@.subrange(0, chars.len() as int) =~= chars@);
    let trimmed = string_of_range(&chars, a, b);
    let q = to_lowercase(trimmed.as_str());
    let mut lnames: Vec<String> = Vec::new();
    let mut i: usize = 0;
    while i < names.len()
        invariant
            i <= names.len(),
            args_view(lnames@) == lowered(args_view(names@)).take(i as int),
        decreases names.len() - i,
    {
        let l = to_lowercase(names[i].as_str());
        let ghost before = lnames@;
        lnames.push(l);
        assert(args_view(lnames@) =~= args_view(before).push(l@));
        assert(lowered(args_view(names@)).take(i + 1) =~= lowered(args_view(names@)).take(
            i as int,
        ).push(lowercase(names@[i as int]@)));
        i = i + 1;
    }
    assert(lowered(args_view(names@)).take(names.len() as int) =~= lowered(args_view(names@)));
    match_rows(pids, &lnames, q.as_str())
}

/// How many rows are shown of `len`: the first `top`, where `top` is set and
/// smaller, else all.
pub fn limit_rows(len: usize, top: usize) -> (r: usize)
    ensures
        r == if top > 0 && top < len {
            top
        } else {
            len
        },
{
    if top > 0 && top < len {
        top
    } else {
        len
    }
}

// ---------------------------------------------------------------------------
// Laws of the dashboard
// ---------------------------------------------------------------------------
/// No key suspends, resumes or kills a process unless it confirms an action
/// on that process that was waiting: the key is Enter, outside search mode,
/// with that action pending.
pub proof fn lemma_actions_need_confirmation(s: AppView, k: KeyPress, rows: Seq<ProcLink>)
    ensures
        key_step(s, k, rows).1 matches Command::Kill(pid) ==> (!s.search_mode && k.key == Key::Enter
            && (s.pending matches Some(PendingView::Kill(p, _)) && p == pid)),
        key_step(s, k, rows).1 matches Command::Suspend(pid) ==> (!s.search_mode && k.key == Key::Enter
            && (s.pending matches Some(PendingView::Suspend(p, _)) && p == pid)),
        key_step(s, k, rows).1 matches Command::Resume(pid) ==> (!s.search_mode && k.key == Key::Enter
            && (s.pending matches Some(PendingView::Resume(p, _)) && p == pid)),
{
}

/// While the selection is locked, the moving keys leave it where it is.
pub proof fn lemma_locked_selection_stays(s: AppView, k: KeyPress, rows: Seq<ProcLink>)
    requires
        !s.search_mode,
        s.pending is None,
        s.locked is Some,
        k.key == Key::Up || k.key == Key::Down || k.key == Key::PageUp || k.key == Key::PageDown
            || k.key == Key::Home || k.key == Key::End || k.key == Key::Char('j') || k.key
            == Key::Char('k') || k.key == Key::Char('J') || k.key == Key::Char('K'),
    ensures
        key_step(s, k, rows).0.selected == s.selected,
        key_step(s, k, rows).0.locked == s.locked,
{
}

/// A locked selection follows its process across a refresh: while the
/// process is listed, the lock holds and the selected row is that process.
pub proof fn lemma_lock_follows_process(s: AppView, pids: Seq<i32>, pid: i32)
    requires
        s.locked == Some(pid),
        pids.contains(pid),
        pids.len() <= usize::MAX,
    ensures
        refresh_step(s, pids).0.locked == Some(pid),
        refresh_step(s, pids).0.selected < pids.len(),
        pids[refresh_step(s, pids).0.selected as int] == pid,
{
    let w = choose|i: int| 0 <= i < pids.len() && pids[i] == pid;
    lemma_first_position(pids, pid, w);
}

/// Where `pid` occurs, its first position exists and holds it.
proof fn lemma_first_position(pids: Seq<i32>, pid: i32, w: int)
    requires
        0 <= w < pids.len(),
        pids[w] == pid,
    ensures
        position_of(pids, pid) is Some,
        0 <= position_of(pids, pid).unwrap() < pids.len(),
        pids[position_of(pids, pid).unwrap()] == pid,
    decreases w,
{
    if exists|j: int| 0 <= j < w && pids[j] == pid {
        let j = choose|j: int| 0 <= j < w && pids[j] == pid;
        lemma_first_position(pids, pid, j);
    } else {
        assert(0 <= w < pids.len() && pids[w] == pid && forall|j: int| 0 <= j < w ==> pids[j] != pid);
    }
}

/// Esc leaves search mode with the filter as it was and the input cleared;
/// Enter makes the trimmed input the filter and starts the list from the top.
pub proof fn lemma_search_keys(s: AppView, k: KeyPress, rows: Seq<ProcLink>)
    requires
        s.search_mode,
    ensures
        k.key == Key::Esc ==> !key_step(s, k, rows).0.search_mode && key_step(s, k, rows).0.query
            == s.query && key_step(s, k, rows).0.input.len() == 0,
        k.key == Key::Enter ==> !key_step(s, k, rows).0.search_mode && key_step(s, k, rows).0.query
            == trim(s.input) && key_step(s, k, rows).0.selected == 0 && key_step(s, k, rows).0.scroll
            == 0,
        key_step(s, k, rows).1 == Command::Nothing,
{
}

/// The rows that a search keeps are rows of the list, in their order, and
/// where the search text is not blank each of them matches it.
pub proof fn lemma_filter_keeps_matching_rows(pids: Seq<i32>, names: Seq<Seq<char>>, query: Seq<char>)
    requires
        pids.len() <= usize::MAX,
        names.len() == pids.len(),
    ensures
        forall|t: int|
            0 <= t < kept_rows(pids, names, query).len() ==> (#[trigger] kept_rows(pids, names, query)[t])
                < pids.len(),
        forall|a: int, b: int|
            0 <= a < b < kept_rows(pids, names, query).len() ==> kept_rows(pids, names, query)[a]
                < kept_rows(pids, names, query)[b],
        search_text(query).len() > 0 ==> forall|t: int|
            0 <= t < kept_rows(pids, names, query).len() ==> row_matches(
                pids[#[trigger] kept_rows(pids, names, query)[t] as int],
                lowercase(names[kept_rows(pids, names, query)[t] as int]),
                search_text(query),
            ),
{
    let q = search_text(query);
    if q.len() > 0 {
        lemma_matching_below(pids, lowered(names), q, pids.len() as int);
        let ln = lowered(names);
        let kr = kept_rows(pids, names, query);
        assert forall|t: int| 0 <= t < kr.len() implies row_matches(
            pids[#[trigger] kr[t] as int],
            lowercase(names[kr[t] as int]),
            q,
        ) by {
            assert(ln[kr[t] as int] == lowercase(names[kr[t] as int]));
        }
    }
}

proof fn lemma_matching_below(pids: Seq<i32>, names: Seq<Seq<char>>, q: Seq<char>, k: int)
    requires
        0 <= k <= pids.len() <= usize::MAX,
    ensures
        forall|t: int|
            0 <= t < matching_below(pids, names, q, k).len() ==> (#[trigger] matching_below(
                pids,
                names,
                q,
                k,
            )[t]) < k,
        forall|a: int, b: int|
            0 <= a < b < matching_below(pids, names, q, k).len() ==> matching_below(pids, names, q, k)[a]
                < matching_below(pids, names, q, k)[b],
        forall|t: int|
            0 <= t < matching_below(pids, names, q, k).len() ==> row_matches(
                pids[#[trigger] matching_below(pids, names, q, k)[t] as int],
                names[matching_below(pids, names, q, k)[t] as int],
                q,
            ),
    decreases k,
{
    if k > 0 {
        lemma_matching_below(pids, names, q, k - 1);
        let prev = matching_below(pids, names, q, k - 1);
        let cur = matching_below(pids, names, q, k);
        if row_matches(pids[k - 1], names[k - 1], q) {
            assert(cur == prev.push((k - 1) as usize));
            assert forall|t: int| 0 <= t < cur.len() implies (#[trigger] cur[t]) < k by {
                if t < prev.len() {
                    assert(cur[t] == prev[t]);
                }
            }
            assert forall|a: int, b: int| 0 <= a < b < cur.len() implies cur[a] < cur[b] by {
                assert(cur[a] == prev[a]);
                if b < prev.len() {
                    assert(cur[b] == prev[b]);
                }
            }
            assert forall|t: int| 0 <= t < cur.len() implies row_matches(
                pids[#[trigger] cur[t] as int],
                names[cur[t] as int],
                q,
            ) by {
                if t < prev.len() {
                    assert(cur[t] == prev[t]);
                }
            }
        }
    }
}

} // verus!
