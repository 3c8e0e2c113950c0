//! Key bindings: the actions that keys trigger, the maps between keys and actions, the
//! default bindings, and the configuration file that overrides them.

use vstd::prelude::*;
use vstd::string::*;
use crate::keys::Key;
use crate::keys::KeyEx;
use crate::keys::ModKeys;
use crate::keys::parse_key_ex;
use crate::keys::digits_value;
use crate::keys::str_eq;
use crate::text_scan::trim_start;
use crate::text_scan::trim;
use crate::text_scan::find_char;
use crate::text_scan::digits_end;
use crate::text_scan::str_trim_start;
use crate::text_scan::str_trim;
use crate::text_scan::str_find;
use crate::text_scan::str_digits_end;
use crate::text_scan::lemma_find_char;
use crate::text_scan::lemma_digits_end;
use crate::text_scan::lines;
use crate::text_scan::strip_cr;
use crate::text_scan::skip_ws;
use crate::text_scan::trim_end_at;
use crate::text_scan::str_lines;
use crate::utf8_text::utf8;

verus! {

/// What a key can do. The names (as `name` gives them) are used in the configuration file.
#[allow(non_camel_case_types)]
#[derive(Debug, Eq, PartialEq, Structural, Ord, PartialOrd, Hash, Clone, Copy)]
pub enum KeyAction {
    Quit,

    Run,
    Continue,
    Suspend,
    Kill,
    SendSigint,

    StepIntoLine,
    StepIntoInstruction,
    StepOverLine,
    StepOverColumn,
    StepOverInstruction,
    StepOut,
    StepOutNoInline,
    StepToCursor,

    WindowUp,
    WindowDown,
    WindowLeft,
    WindowRight,
    Window0,
    Window1,
    Window2,
    Window3,
    Window4,
    Window5,
    Window6,
    Window7,
    Window8,
    Window9,

    /// Arrow keys.
    CursorUp,
    CursorDown,
    CursorLeft,
    CursorRight,
    /// Usually return.
    Enter,
    /// Usually del.
    DeleteRow,
    /// Usually escape.
    Cancel,
    PageUp,
    PageDown,
    Home,
    End,
    Tooltip,

    NextTab,
    PreviousTab,
    CloseTab,
    NextStackFrame,
    PreviousStackFrame,
    NextThread,
    PreviousThread,
    NextLocation,
    PreviousLocation,
    NextMatch,
    PreviousMatch,
    ToggleSort,

    Open,
    FindType,
    Find,
    GoToLine,

    EditCondition,
    DataWriteBreakpoint,
    DataReadWriteBreakpoint,
    ConditionalDataWriteBreakpoint,
    ConditionalDataReadWriteBreakpoint,

    DuplicateRow,
    AddValueRefWatch,
    ReorderRowUp,
    ReorderRowDown,

    Help,
    DropCaches,
    ToggleProfiler,

    /// Text input.
    Undo,
    Redo,
    Copy,
    CopyValue,
    Paste,
    Cut,
    NewLine,
    /// Not an action: the number of actions.
    END_OF_ENUM,
}

/// Every action, in order.
pub open spec fn all_actions() -> Seq<KeyAction> {
    seq![
        KeyAction::Quit,
        KeyAction::Run,
        KeyAction::Continue,
        KeyAction::Suspend,
        KeyAction::Kill,
        KeyAction::SendSigint,
        KeyAction::StepIntoLine,
        KeyAction::StepIntoInstruction,
        KeyAction::StepOverLine,
        KeyAction::StepOverColumn,
        KeyAction::StepOverInstruction,
        KeyAction::StepOut,
        KeyAction::StepOutNoInline,
        KeyAction::StepToCursor,
        KeyAction::WindowUp,
        KeyAction::WindowDown,
        KeyAction::WindowLeft,
        KeyAction::WindowRight,
        KeyAction::Window0,
        KeyAction::Window1,
        KeyAction::Window2,
        KeyAction::Window3,
        KeyAction::Window4,
        KeyAction::Window5,
        KeyAction::Window6,
        KeyAction::Window7,
        KeyAction::Window8,
        KeyAction::Window9,
        KeyAction::CursorUp,
        KeyAction::CursorDown,
        KeyAction::CursorLeft,
        KeyAction::CursorRight,
        KeyAction::Enter,
        KeyAction::DeleteRow,
        KeyAction::Cancel,
        KeyAction::PageUp,
        KeyAction::PageDown,
        KeyAction::Home,
        KeyAction::End,
        KeyAction::Tooltip,
        KeyAction::NextTab,
        KeyAction::PreviousTab,
        KeyAction::CloseTab,
        KeyAction::NextStackFrame,
        KeyAction::PreviousStackFrame,
        KeyAction::NextThread,
        KeyAction::PreviousThread,
        KeyAction::NextLocation,
        KeyAction::PreviousLocation,
        KeyAction::NextMatch,
        KeyAction::PreviousMatch,
        KeyAction::ToggleSort,
        KeyAction::Open,
        KeyAction::FindType,
        KeyAction::Find,
        KeyAction::GoToLine,
        KeyAction::EditCondition,
        KeyAction::DataWriteBreakpoint,
        KeyAction::DataReadWriteBreakpoint,
        KeyAction::ConditionalDataWriteBreakpoint,
        KeyAction::ConditionalDataReadWriteBreakpoint,
        KeyAction::DuplicateRow,
        KeyAction::AddValueRefWatch,
        KeyAction::ReorderRowUp,
        KeyAction::ReorderRowDown,
        KeyAction::Help,
        KeyAction::DropCaches,
        KeyAction::ToggleProfiler,
        KeyAction::Undo,
        KeyAction::Redo,
        KeyAction::Copy,
        KeyAction::CopyValue,
        KeyAction::Paste,
        KeyAction::Cut,
        KeyAction::NewLine,
    ]
}

/// The number of actions.
pub open spec fn num_actions() -> nat {
    75
}

/// The name of an action in the configuration file.
pub open spec fn action_name(a: KeyAction) -> Seq<char> {
    match a {
        KeyAction::Quit => "Quit"@,
        KeyAction::Run => "Run"@,
        KeyAction::Continue => "Continue"@,
        KeyAction::Suspend => "Suspend"@,
        KeyAction::Kill => "Kill"@,
        KeyAction::SendSigint => "SendSigint"@,
        KeyAction::StepIntoLine => "StepIntoLine"@,
        KeyAction::StepIntoInstruction => "StepIntoInstruction"@,
        KeyAction::StepOverLine => "StepOverLine"@,
        KeyAction::StepOverColumn => "StepOverColumn"@,
        KeyAction::StepOverInstruction => "StepOverInstruction"@,
        KeyAction::StepOut => "StepOut"@,
        KeyAction::StepOutNoInline => "StepOutNoInline"@,
        KeyAction::StepToCursor => "StepToCursor"@,
        KeyAction::WindowUp => "WindowUp"@,
        KeyAction::WindowDown => "WindowDown"@,
        KeyAction::WindowLeft => "WindowLeft"@,
        KeyAction::WindowRight => "WindowRight"@,
        KeyAction::Window0 => "Window0"@,
        KeyAction::Window1 => "Window1"@,
        KeyAction::Window2 => "Window2"@,
        KeyAction::Window3 => "Window3"@,
        KeyAction::Window4 => "Window4"@,
        KeyAction::Window5 => "Window5"@,
        KeyAction::Window6 => "Window6"@,
        KeyAction::Window7 => "Window7"@,
        KeyAction::Window8 => "Window8"@,
        KeyAction::Window9 => "Window9"@,
        KeyAction::CursorUp => "CursorUp"@,
        KeyAction::CursorDown => "CursorDown"@,
        KeyAction::CursorLeft => "CursorLeft"@,
        KeyAction::CursorRight => "CursorRight"@,
        KeyAction::Enter => "Enter"@,
        KeyAction::DeleteRow => "DeleteRow"@,
        KeyAction::Cancel => "Cancel"@,
        KeyAction::PageUp => "PageUp"@,
        KeyAction::PageDown => "PageDown"@,
        KeyAction::Home => "Home"@,
        KeyAction::End => "End"@,
        KeyAction::Tooltip => "Tooltip"@,
        KeyAction::NextTab => "NextTab"@,
        KeyAction::PreviousTab => "PreviousTab"@,
        KeyAction::CloseTab => "CloseTab"@,
        KeyAction::NextStackFrame => "NextStackFrame"@,
        KeyAction::PreviousStackFrame => "PreviousStackFrame"@,
        KeyAction::NextThread => "NextThread"@,
        KeyAction::PreviousThread => "PreviousThread"@,
        KeyAction::NextLocation => "NextLocation"@,
        KeyAction::PreviousLocation => "PreviousLocation"@,
        KeyAction::NextMatch => "NextMatch"@,
        KeyAction::PreviousMatch => "PreviousMatch"@,
        KeyAction::ToggleSort => "ToggleSort"@,
        KeyAction::Open => "Open"@,
        KeyAction::FindType => "FindType"@,
        KeyAction::Find => "Find"@,
        KeyAction::GoToLine => "GoToLine"@,
        KeyAction::EditCondition => "EditCondition"@,
        KeyAction::DataWriteBreakpoint => "DataWriteBreakpoint"@,
        KeyAction::DataReadWriteBreakpoint => "DataReadWriteBreakpoint"@,
        KeyAction::ConditionalDataWriteBreakpoint => "ConditionalDataWriteBreakpoint"@,
        KeyAction::ConditionalDataReadWriteBreakpoint => "ConditionalDataReadWriteBreakpoint"@,
        KeyAction::DuplicateRow => "DuplicateRow"@,
        KeyAction::AddValueRefWatch => "AddValueRefWatch"@,
        KeyAction::ReorderRowUp => "ReorderRowUp"@,
        KeyAction::ReorderRowDown => "ReorderRowDown"@,
        KeyAction::Help => "Help"@,
        KeyAction::DropCaches => "DropCaches"@,
        KeyAction::ToggleProfiler => "ToggleProfiler"@,
        KeyAction::Undo => "Undo"@,
        KeyAction::Redo => "Redo"@,
        KeyAction::Copy => "Copy"@,
        KeyAction::CopyValue => "CopyValue"@,
        KeyAction::Paste => "Paste"@,
        KeyAction::Cut => "Cut"@,
        KeyAction::NewLine => "NewLine"@,
        KeyAction::END_OF_ENUM => "END_OF_ENUM"@,
    }
}

impl KeyAction {
    /// The action at position `i` of `all_actions`.
    pub fn from_index(i: usize) -> (r: KeyAction)
        requires
            i < num_actions(),
        ensures
            r == all_actions()[i as int],
    {
        match i {
            0 => KeyAction::Quit,
            1 => KeyAction::Run,
            2 => KeyAction::Continue,
            3 => KeyAction::Suspend,
            4 => KeyAction::Kill,
            5 => KeyAction::SendSigint,
            6 => KeyAction::StepIntoLine,
            7 => KeyAction::StepIntoInstruction,
            8 => KeyAction::StepOverLine,
            9 => KeyAction::StepOverColumn,
            10 => KeyAction::StepOverInstruction,
            11 => KeyAction::StepOut,
            12 => KeyAction::StepOutNoInline,
            13 => KeyAction::StepToCursor,
            14 => KeyAction::WindowUp,
            15 => KeyAction::WindowDown,
            16 => KeyAction::WindowLeft,
            17 => KeyAction::WindowRight,
            18 => KeyAction::Window0,
            19 => KeyAction::Window1,
            20 => KeyAction::Window2,
            21 => KeyAction::Window3,
            22 => KeyAction::Window4,
            23 => KeyAction::Window5,
            24 => KeyAction::Window6,
            25 => KeyAction::Window7,
            26 => KeyAction::Window8,
            27 => KeyAction::Window9,
            28 => KeyAction::CursorUp,
            29 => KeyAction::CursorDown,
            30 => KeyAction::CursorLeft,
            31 => KeyAction::CursorRight,
            32 => KeyAction::Enter,
            33 => KeyAction::DeleteRow,
            34 => KeyAction::Cancel,
            35 => KeyAction::PageUp,
            36 => KeyAction::PageDown,
            37 => KeyAction::Home,
            38 => KeyAction::End,
            39 => KeyAction::Tooltip,
            40 => KeyAction::NextTab,
            41 => KeyAction::PreviousTab,
            42 => KeyAction::CloseTab,
            43 => KeyAction::NextStackFrame,
            44 => KeyAction::PreviousStackFrame,
            45 => KeyAction::NextThread,
            46 => KeyAction::PreviousThread,
            47 => KeyAction::NextLocation,
            48 => KeyAction::PreviousLocation,
            49 => KeyAction::NextMatch,
            50 => KeyAction::PreviousMatch,
            51 => KeyAction::ToggleSort,
            52 => KeyAction::Open,
            53 => KeyAction::FindType,
            54 => KeyAction::Find,
            55 => KeyAction::GoToLine,
            56 => KeyAction::EditCondition,
            57 => KeyAction::DataWriteBreakpoint,
            58 => KeyAction::DataReadWriteBreakpoint,
            59 => KeyAction::ConditionalDataWriteBreakpoint,
            60 => KeyAction::ConditionalDataReadWriteBreakpoint,
            61 => KeyAction::DuplicateRow,
            62 => KeyAction::AddValueRefWatch,
            63 => KeyAction::ReorderRowUp,
            64 => KeyAction::ReorderRowDown,
            65 => KeyAction::Help,
            66 => KeyAction::DropCaches,
            67 => KeyAction::ToggleProfiler,
            68 => KeyAction::Undo,
            69 => KeyAction::Redo,
            70 => KeyAction::Copy,
            71 => KeyAction::CopyValue,
            72 => KeyAction::Paste,
            73 => KeyAction::Cut,
            _ => KeyAction::NewLine,
        }
    }

    /// The name of the action in the configuration file.
    pub fn name(&self) -> (r: &'static str)
        ensures
            r@ == action_name(*self),
    {
        match self {
            KeyAction::Quit => "Quit",
            KeyAction::Run => "Run",
            KeyAction::Continue => "Continue",
            KeyAction::Suspend => "Suspend",
            KeyAction::Kill => "Kill",
            KeyAction::SendSigint => "SendSigint",
            KeyAction::StepIntoLine => "StepIntoLine",
            KeyAction::StepIntoInstruction => "StepIntoInstruction",
            KeyAction::StepOverLine => "StepOverLine",
            KeyAction::StepOverColumn => "StepOverColumn",
            KeyAction::StepOverInstruction => "StepOverInstruction",
            KeyAction::StepOut => "StepOut",
            KeyAction::StepOutNoInline => "StepOutNoInline",
            KeyAction::StepToCursor => "StepToCursor",
            KeyAction::WindowUp => "WindowUp",
            KeyAction::WindowDown => "WindowDown",
            KeyAction::WindowLeft => "WindowLeft",
            KeyAction::WindowRight => "WindowRight",
            KeyAction::Window0 => "Window0",
            KeyAction::Window1 => "Window1",
            KeyAction::Window2 => "Window2",
            KeyAction::Window3 => "Window3",
            KeyAction::Window4 => "Window4",
            KeyAction::Window5 => "Window5",
            KeyAction::Window6 => "Window6",
            KeyAction::Window7 => "Window7",
            KeyAction::Window8 => "Window8",
            KeyAction::Window9 => "Window9",
            KeyAction::CursorUp => "CursorUp",
            KeyAction::CursorDown => "CursorDown",
            KeyAction::CursorLeft => "CursorLeft",
            KeyAction::CursorRight => "CursorRight",
            KeyAction::Enter => "Enter",
            KeyAction::DeleteRow => "DeleteRow",
            KeyAction::Cancel => "Cancel",
            KeyAction::PageUp => "PageUp",
            KeyAction::PageDown => "PageDown",
            KeyAction::Home => "Home",
            KeyAction::End => "End",
            KeyAction::Tooltip => "Tooltip",
            KeyAction::NextTab => "NextTab",
            KeyAction::PreviousTab => "PreviousTab",
            KeyAction::CloseTab => "CloseTab",
            KeyAction::NextStackFrame => "NextStackFrame",
            KeyAction::PreviousStackFrame => "PreviousStackFrame",
            KeyAction::NextThread => "NextThread",
            KeyAction::PreviousThread => "PreviousThread",
            KeyAction::NextLocation => "NextLocation",
            KeyAction::PreviousLocation => "PreviousLocation",
            KeyAction::NextMatch => "NextMatch",
            KeyAction::PreviousMatch => "PreviousMatch",
            KeyAction::ToggleSort => "ToggleSort",
            KeyAction::Open => "Open",
            KeyAction::FindType => "FindType",
            KeyAction::Find => "Find",
            KeyAction::GoToLine => "GoToLine",
            KeyAction::EditCondition => "EditCondition",
            KeyAction::DataWriteBreakpoint => "DataWriteBreakpoint",
            KeyAction::DataReadWriteBreakpoint => "DataReadWriteBreakpoint",
            KeyAction::ConditionalDataWriteBreakpoint => "ConditionalDataWriteBreakpoint",
            KeyAction::ConditionalDataReadWriteBreakpoint => "ConditionalDataReadWriteBreakpoint",
            KeyAction::DuplicateRow => "DuplicateRow",
            KeyAction::AddValueRefWatch => "AddValueRefWatch",
            KeyAction::ReorderRowUp => "ReorderRowUp",
            KeyAction::ReorderRowDown => "ReorderRowDown",
            KeyAction::Help => "Help",
            KeyAction::DropCaches => "DropCaches",
            KeyAction::ToggleProfiler => "ToggleProfiler",
            KeyAction::Undo => "Undo",
            KeyAction::Redo => "Redo",
            KeyAction::Copy => "Copy",
            KeyAction::CopyValue => "CopyValue",
            KeyAction::Paste => "Paste",
            KeyAction::Cut => "Cut",
            KeyAction::NewLine => "NewLine",
            KeyAction::END_OF_ENUM => "END_OF_ENUM",
        }
    }
}

// ---------------------------------------------------------------------------------------------
// Maps between keys and actions, as lists of pairs in the order the pairs were added.

/// Index of the last pair of `s` whose first part is `k`; -1 if there is none.
pub open spec fn last_index_of<K, V>(s: Seq<(K, V)>, k: K) -> int
    decreases s.len(),
{
    if s.len() == 0 {
        -1
    } else if s.last().0 == k {
        s.len() - 1
    } else {
        last_index_of(s.drop_last(), k)
    }
}

/// The value paired with `k` in `s`.
pub open spec fn lookup<K, V>(s: Seq<(K, V)>, k: K) -> Option<V> {
    let i = last_index_of(s, k);
    if i >= 0 {
        Some(s[i].1)
    } else {
        None
    }
}

/// `s` with `k` paired with `v`: the existing pair for `k` changed, or a new pair at the end.
pub open spec fn assoc_set<K, V>(s: Seq<(K, V)>, k: K, v: V) -> Seq<(K, V)> {
    let i = last_index_of(s, k);
    if i >= 0 {
        s.update(i, (k, v))
    } else {
        s.push((k, v))
    }
}

/// `s` with key `k` appended to the keys of action `a` (a new entry at the end if `a` has
/// none).
pub open spec fn append_key(s: Seq<(KeyAction, Seq<KeyEx>)>, a: KeyAction, k: KeyEx) -> Seq<(KeyAction, Seq<KeyEx>)> {
    let i = last_index_of(s, a);
    if i >= 0 {
        s.update(i, (a, s[i].1.push(k)))
    } else {
        s.push((a, seq![k]))
    }
}

/// `s` with an entry for action `a` (an empty one at the end if it had none).
pub open spec fn with_entry(s: Seq<(KeyAction, Seq<KeyEx>)>, a: KeyAction) -> Seq<(KeyAction, Seq<KeyEx>)> {
    if last_index_of(s, a) >= 0 {
        s
    } else {
        s.push((a, Seq::empty()))
    }
}

/// The two maps built from a list of (key, action) pairs: a later pair for the same key
/// replaces an earlier one; every action's keys are in the order they were listed.
pub open spec fn keymap_from(pairs: Seq<(KeyEx, KeyAction)>) -> (Seq<(KeyEx, KeyAction)>, Seq<(KeyAction, Seq<KeyEx>)>)
    decreases pairs.len(),
{
    if pairs.len() == 0 {
        (Seq::empty(), Seq::empty())
    } else {
        let (k2a, a2k) = keymap_from(pairs.drop_last());
        let p = pairs.last();
        (assoc_set(k2a, p.0, p.1), append_key(a2k, p.1, p.0))
    }
}

/// No two pairs of `s` have the same first part.
pub open spec fn distinct_firsts<K, V>(s: Seq<(K, V)>) -> bool {
    forall|i: int, j: int| 0 <= i < j < s.len() ==> s[i].0 != s[j].0
}

/// Which key triggers which action, and the keys of each action.
#[derive(Debug)]
pub struct KeyMap {
    pub key_to_action: Vec<(KeyEx, KeyAction)>,
    pub action_to_keys: Vec<(KeyAction, Vec<KeyEx>)>,
}

impl KeyMap {
    /// The (key, action) pairs.
    pub open spec fn key_pairs(&self) -> Seq<(KeyEx, KeyAction)> {
        self.key_to_action@
    }

    /// The (action, keys) entries.
    pub open spec fn action_entries(&self) -> Seq<(KeyAction, Seq<KeyEx>)> {
        self.action_to_keys@.map_values(|e: (KeyAction, Vec<KeyEx>)| (e.0, e.1@))
    }

    /// Each key and each action occurs once.
    pub open spec fn wf(&self) -> bool {
        &&& distinct_firsts(self.key_pairs())
        &&& distinct_firsts(self.action_entries())
    }

    pub fn empty() -> (r: KeyMap)
        ensures
            r.wf(),
            r.key_pairs() == Seq::<(KeyEx, KeyAction)>::empty(),
            r.action_entries() == Seq::<(KeyAction, Seq<KeyEx>)>::empty(),
    {
        let r = KeyMap { key_to_action: Vec::new(), action_to_keys: Vec::new() };
        proof {
            assert(r.action_entries() =~= Seq::<(KeyAction, Seq<KeyEx>)>::empty());
        }
        r
    }

    /// The action of key `k`, if any.
    pub fn key_action(&self, k: KeyEx) -> (r: Option<KeyAction>)
        ensures
            r == lookup(self.key_pairs(), k),
    {
        let mut i = self.key_to_action.len();
        proof {
            assert(self.key_pairs().subrange(0, i as int) =~= self.key_pairs());
        }
        while i > 0
            invariant
                i <= self.key_to_action@.len(),
                last_index_of(self.key_pairs(), k) == last_index_of(self.key_pairs().subrange(0, i as int), k),
            decreases i,
        {
            proof {
                assert(self.key_pairs().subrange(0, i as int).drop_last() =~= self.key_pairs().subrange(0, i - 1));
            }
            if self.key_to_action[i - 1].0 == k {
                return Some(self.key_to_action[i - 1].1);
            }
            i = i - 1;
        }
        None
    }

    /// Where the entry of action `a` is, if it has one.
    fn action_index(&self, a: KeyAction) -> (r: Option<usize>)
        ensures
            r matches Some(i) ==> i == last_index_of(self.action_entries(), a) && i < self.action_to_keys@.len(),
            r is None ==> last_index_of(self.action_entries(), a) == -1,
    {
        let ghost s = self.action_entries();
        let mut i = self.action_to_keys.len();
        proof {
            assert(s.subrange(0, i as int) =~= s);
        }
        while i > 0
            invariant
                i <= self.action_to_keys@.len(),
                s == self.action_entries(),
                last_index_of(s, a) == last_index_of(s.subrange(0, i as int), a),
            decreases i,
        {
            proof {
                assert(s.subrange(0, i as int).drop_last() =~= s.subrange(0, i - 1));
            }
            if self.action_to_keys[i - 1].0 == a {
                return Some(i - 1);
            }
            i = i - 1;
        }
        None
    }

    /// The keys of action `a`, if it has an entry.
    pub fn action_keys(&self, a: KeyAction) -> (r: Option<&Vec<KeyEx>>)
        ensures
            match r {
                Some(v) => lookup(self.action_entries(), a) == Some(v@),
                None => lookup(self.action_entries(), a) is None,
            },
    {
        match self.action_index(a) {
            Some(i) => Some(&self.action_to_keys[i].1),
            None => None,
        }
    }

    /// Pairs key `k` with action `a`, replacing the key's earlier action.
    pub fn set_key(&mut self, k: KeyEx, a: KeyAction)
        requires
            old(self).wf(),
        ensures
            final(self).wf(),
            final(self).key_pairs() == assoc_set(old(self).key_pairs(), k, a),
            final(self).action_entries() == old(self).action_entries(),
    {
        let ghost s = self.key_pairs();
        let mut i = self.key_to_action.len();
        proof {
            assert(s.subrange(0, i as int) =~= s);
        }
        while i > 0
            invariant
                i <= self.key_to_action@.len(),
                s == self.key_pairs(),
                s == old(self).key_pairs(),
                self.action_to_keys == old(self).action_to_keys,
                old(self).wf(),
                last_index_of(s, k) == last_index_of(s.subrange(0, i as int), k),
            decreases i,
        {
            proof {
                assert(s.subrange(0, i as int).drop_last() =~= s.subrange(0, i - 1));
            }
            if self.key_to_action[i - 1].0 == k {
                self.key_to_action.set(i - 1, (k, a));
                proof {
                    lemma_assoc_set_distinct(s, k, a);
                }
                return;
            }
            i = i - 1;
        }
        self.key_to_action.push((k, a));
        proof {
            lemma_assoc_set_distinct(s, k, a);
        }
    }

    /// Appends key `k` to the keys of action `a`.
    pub fn add_key(&mut self, a: KeyAction, k: KeyEx)
        requires
            old(self).wf(),
        ensures
            final(self).wf(),
            final(self).action_entries() == append_key(old(self).action_entries(), a, k),
            final(self).key_pairs() == old(self).key_pairs(),
    {
        let ghost s = self.action_entries();
        proof {
            lemma_append_key_distinct(s, a, k);
        }
        match self.action_index(a) {
            Some(i) => {
                let mut keys = self.action_to_keys[i].1.clone();
                proof {
                    assert(keys@ =~= self.action_to_keys@[i as int].1@) by {
                        assert forall|j: int| 0 <= j < keys@.len() implies keys@[j] == self.action_to_keys@[i as int].1@[j] by {
                        }
                    }
                }
                keys.push(k);
                self.action_to_keys.set(i, (a, keys));
                proof {
                    assert(self.action_entries() =~= append_key(s, a, k));
                }
            },
            None => {
                let mut keys: Vec<KeyEx> = Vec::new();
                keys.push(k);
                self.action_to_keys.push((a, keys));
                proof {
                    assert(keys@ =~= seq![k]);
                    assert(self.action_entries() =~= append_key(s, a, k));
                }
            },
        }
    }

    /// Gives action `a` an entry, empty if it had none.
    pub fn add_entry(&mut self, a: KeyAction)
        requires
            old(self).wf(),
        ensures
            final(self).wf(),
            final(self).action_entries() == with_entry(old(self).action_entries(), a),
            final(self).key_pairs() == old(self).key_pairs(),
    {
        let ghost s = self.action_entries();
        match self.action_index(a) {
            Some(_) => {},
            None => {
                self.action_to_keys.push((a, Vec::new()));
                proof {
                    assert(self.action_entries() =~= with_entry(s, a));
                    lemma_last_index_absent(s, a);
                }
            },
        }
    }

    /// The map of the (key, action) pairs `key_to_action` (see `keymap_from`).
    pub fn new(key_to_action: &[(KeyEx, KeyAction)]) -> (r: KeyMap)
        ensures
            r.wf(),
            (r.key_pairs(), r.action_entries()) == keymap_from(key_to_action@),
    {
        let mut r = KeyMap::empty();
        let mut i: usize = 0;
        while i < key_to_action.len()
            invariant
                i <= key_to_action@.len(),
                r.wf(),
                (r.key_pairs(), r.action_entries()) == keymap_from(key_to_action@.subrange(0, i as int)),
            decreases key_to_action@.len() - i,
        {
            let (k, a) = key_to_action[i];
            r.set_key(k, a);
            // Keys are added in the order of the input, so that the first key listed for an
            // action comes first.
            r.add_key(a, k);
            proof {
                assert(key_to_action@.subrange(0, i + 1).drop_last() =~= key_to_action@.subrange(0, i as int));
            }
            i = i + 1;
        }
        proof {
            assert(key_to_action@.subrange(0, i as int) =~= key_to_action@);
        }
        r
    }
}

proof fn lemma_last_index_of<K, V>(s: Seq<(K, V)>, k: K)
    ensures
        -1 <= last_index_of(s, k) < s.len(),
        last_index_of(s, k) >= 0 ==> s[last_index_of(s, k)].0 == k,
        last_index_of(s, k) == -1 ==> forall|j: int| 0 <= j < s.len() ==> s[j].0 != k,
    decreases s.len(),
{
    if s.len() > 0 && s.last().0 != k {
        lemma_last_index_of(s.drop_last(), k);
        if last_index_of(s, k) == -1 {
            assert forall|j: int| 0 <= j < s.len() implies s[j].0 != k by {
                if j < s.len() - 1 {
                    assert(s[j] == s.drop_last()[j]);
                }
            }
        }
    }
}

proof fn lemma_last_index_absent<K, V>(s: Seq<(K, V)>, k: K)
    requires
        last_index_of(s, k) == -1,
    ensures
        forall|j: int| 0 <= j < s.len() ==> s[j].0 != k,
{
    lemma_last_index_of(s, k);
}

proof fn lemma_assoc_set_distinct<K, V>(s: Seq<(K, V)>, k: K, v: V)
    requires
        distinct_firsts(s),
    ensures
        distinct_firsts(assoc_set(s, k, v)),
{
    lemma_last_index_of(s, k);
}

proof fn lemma_append_key_distinct(s: Seq<(KeyAction, Seq<KeyEx>)>, a: KeyAction, k: KeyEx)
    requires
        distinct_firsts(s),
    ensures
        distinct_firsts(append_key(s, a, k)),
        distinct_firsts(with_entry(s, a)),
{
    lemma_last_index_of(s, a);
}

proof fn lemma_same_keys<K, V>(a: Seq<(K, V)>, b: Seq<(K, V)>, k: K)
    requires
        a.len() == b.len(),
        forall|j: int| 0 <= j < a.len() ==> #[trigger] a[j].0 == b[j].0,
    ensures
        last_index_of(a, k) == last_index_of(b, k),
    decreases a.len(),
{
    if a.len() > 0 {
        assert(a.last().0 == b.last().0);
        lemma_same_keys(a.drop_last(), b.drop_last(), k);
    }
}

/// After a key is paired with an action (`KeyMap::set_key`), looking the key up
/// (`KeyMap::key_action`) gives that action, and every other key keeps the action it had.
pub proof fn lemma_set_key_then_lookup(s: Seq<(KeyEx, KeyAction)>, k: KeyEx, a: KeyAction, other: KeyEx)
    ensures
        lookup(assoc_set(s, k, a), k) == Some(a),
        other != k ==> lookup(assoc_set(s, k, a), other) == lookup(s, other),
{
    lemma_last_index_of(s, k);
    lemma_last_index_of(s, other);
    let i = last_index_of(s, k);
    if i >= 0 {
        let t = s.update(i, (k, a));
        assert forall|j: int| 0 <= j < s.len() implies #[trigger] t[j].0 == s[j].0 by {}
        lemma_same_keys(t, s, k);
        lemma_same_keys(t, s, other);
    } else {
        let t = s.push((k, a));
        assert(t.drop_last() =~= s);
    }
}

/// After a key is added to an action (`KeyMap::add_key`), the action's keys are the keys it
/// had with the new one at the end, and every other action keeps its keys.
pub proof fn lemma_add_key_then_lookup(
    s: Seq<(KeyAction, Seq<KeyEx>)>,
    a: KeyAction,
    k: KeyEx,
    other: KeyAction,
)
    ensures
        lookup(append_key(s, a, k), a) == Some(
            match lookup(s, a) {
                Some(keys) => keys.push(k),
                None => seq![k],
            },
        ),
        other != a ==> lookup(append_key(s, a, k), other) == lookup(s, other),
{
    lemma_last_index_of(s, a);
    lemma_last_index_of(s, other);
    let i = last_index_of(s, a);
    if i >= 0 {
        let t = s.update(i, (a, s[i].1.push(k)));
        assert forall|j: int| 0 <= j < s.len() implies #[trigger] t[j].0 == s[j].0 by {}
        lemma_same_keys(t, s, a);
        lemma_same_keys(t, s, other);
    } else {
        let t = s.push((a, seq![k]));
        assert(t.drop_last() =~= s);
    }
}

impl KeyMap {
    /// The keys of the given actions, one action after another (none for an action without an
    /// entry).
    pub fn actions_to_keys(&self, actions: &[KeyAction]) -> (r: Vec<KeyEx>)
        ensures
            r@ == keys_of_actions(self.action_entries(), actions@),
    {
        let mut r: Vec<KeyEx> = Vec::new();
        let mut i: usize = 0;
        while i < actions.len()
            invariant
                i <= actions@.len(),
                r@ == keys_of_actions(self.action_entries(), actions@.subrange(0, i as int)),
            decreases actions@.len() - i,
        {
            let ghost r0 = r@;
            match self.action_keys(actions[i]) {
                Some(keys) => {
                    let mut j: usize = 0;
                    while j < keys.len()
                        invariant
                            j <= keys@.len(),
                            r@ == r0 + keys@.subrange(0, j as int),
                        decreases keys@.len() - j,
                    {
                        r.push(keys[j]);
                        j = j + 1;
                        proof {
                            assert(r@ =~= r0 + keys@.subrange(0, j as int));
                        }
                    }
                    proof {
                        assert(keys@.subrange(0, j as int) =~= keys@);
                    }
                },
                None => {},
            }
            proof {
                assert(actions@.subrange(0, i + 1).drop_last() =~= actions@.subrange(0, i as int));
                assert(r@ =~= keys_of_actions(self.action_entries(), actions@.subrange(0, i + 1)));
            }
            i = i + 1;
        }
        proof {
            assert(actions@.subrange(0, i as int) =~= actions@);
        }
        r
    }

    /// The name of the first key of `action`, or `<unbound>` if it has none.
    pub fn action_to_key_name(&self, action: KeyAction) -> (r: String)
        ensures
            r@ == key_name_of_action(self.action_entries(), action),
    {
        match self.action_keys(action) {
            Some(v) => {
                if v.len() == 0 {
                    "<unbound>".to_owned()
                } else {
                    v[0].name()
                }
            },
            None => "<unbound>".to_owned(),
        }
    }
}

/// The keys of `actions`, one action after another.
pub open spec fn keys_of_actions(entries: Seq<(KeyAction, Seq<KeyEx>)>, actions: Seq<KeyAction>) -> Seq<KeyEx>
    decreases actions.len(),
{
    if actions.len() == 0 {
        Seq::empty()
    } else {
        keys_of_actions(entries, actions.drop_last()) + match lookup(entries, actions.last()) {
            Some(keys) => keys,
            None => Seq::empty(),
        }
    }
}

/// The name of the first key of action `a`; `<unbound>` if it has no key.
pub open spec fn key_name_of_action(entries: Seq<(KeyAction, Seq<KeyEx>)>, a: KeyAction) -> Seq<char> {
    match lookup(entries, a) {
        Some(keys) => if keys.len() > 0 {
            crate::keys::key_ex_name(keys[0])
        } else {
            "<unbound>"@
        },
        None => "<unbound>"@,
    }
}

/// The default bindings outside text input.
pub open spec fn default_normal_pairs() -> Seq<(KeyEx, KeyAction)> {
    seq![
        (KeyEx { key: Key::Char('q'), mods: ModKeys { bits: 4 } }, KeyAction::Quit),
        (KeyEx { key: Key::Char('r'), mods: ModKeys { bits: 0 } }, KeyAction::Run),
        (KeyEx { key: Key::Char('c'), mods: ModKeys { bits: 0 } }, KeyAction::Continue),
        (KeyEx { key: Key::Char('p'), mods: ModKeys { bits: 0 } }, KeyAction::Suspend),
        (KeyEx { key: Key::Char('c'), mods: ModKeys { bits: 4 } }, KeyAction::Suspend),
        (KeyEx { key: Key::Char('k'), mods: ModKeys { bits: 4 } }, KeyAction::Kill),
        (KeyEx { key: Key::Char('k'), mods: ModKeys { bits: 2 } }, KeyAction::SendSigint),
        (KeyEx { key: Key::Up, mods: ModKeys { bits: 2 } }, KeyAction::WindowUp),
        (KeyEx { key: Key::Down, mods: ModKeys { bits: 2 } }, KeyAction::WindowDown),
        (KeyEx { key: Key::Left, mods: ModKeys { bits: 2 } }, KeyAction::WindowLeft),
        (KeyEx { key: Key::Right, mods: ModKeys { bits: 2 } }, KeyAction::WindowRight),
        (KeyEx { key: Key::Char('0'), mods: ModKeys { bits: 0 } }, KeyAction::Window0),
        (KeyEx { key: Key::Char('1'), mods: ModKeys { bits: 0 } }, KeyAction::Window1),
        (KeyEx { key: Key::Char('2'), mods: ModKeys { bits: 0 } }, KeyAction::Window2),
        (KeyEx { key: Key::Char('3'), mods: ModKeys { bits: 0 } }, KeyAction::Window3),
        (KeyEx { key: Key::Char('4'), mods: ModKeys { bits: 0 } }, KeyAction::Window4),
        (KeyEx { key: Key::Char('5'), mods: ModKeys { bits: 0 } }, KeyAction::Window5),
        (KeyEx { key: Key::Char('6'), mods: ModKeys { bits: 0 } }, KeyAction::Window6),
        (KeyEx { key: Key::Char('7'), mods: ModKeys { bits: 0 } }, KeyAction::Window7),
        (KeyEx { key: Key::Char('8'), mods: ModKeys { bits: 0 } }, KeyAction::Window8),
        (KeyEx { key: Key::Char('9'), mods: ModKeys { bits: 0 } }, KeyAction::Window9),
        (KeyEx { key: Key::Up, mods: ModKeys { bits: 0 } }, KeyAction::CursorUp),
        (KeyEx { key: Key::Down, mods: ModKeys { bits: 0 } }, KeyAction::CursorDown),
        (KeyEx { key: Key::Left, mods: ModKeys { bits: 0 } }, KeyAction::CursorLeft),
        (KeyEx { key: Key::Right, mods: ModKeys { bits: 0 } }, KeyAction::CursorRight),
        (KeyEx { key: Key::Char('\n'), mods: ModKeys { bits: 0 } }, KeyAction::Enter),
        (KeyEx { key: Key::Delete, mods: ModKeys { bits: 0 } }, KeyAction::DeleteRow),
        (KeyEx { key: Key::Backspace, mods: ModKeys { bits: 0 } }, KeyAction::DeleteRow),
        (KeyEx { key: Key::Escape, mods: ModKeys { bits: 0 } }, KeyAction::Cancel),
        (KeyEx { key: Key::Char('g'), mods: ModKeys { bits: 4 } }, KeyAction::Cancel),
        (KeyEx { key: Key::PageUp, mods: ModKeys { bits: 0 } }, KeyAction::PageUp),
        (KeyEx { key: Key::Char('v'), mods: ModKeys { bits: 2 } }, KeyAction::PageUp),
        (KeyEx { key: Key::PageDown, mods: ModKeys { bits: 0 } }, KeyAction::PageDown),
        (KeyEx { key: Key::Char('v'), mods: ModKeys { bits: 4 } }, KeyAction::PageDown),
        (KeyEx { key: Key::Home, mods: ModKeys { bits: 0 } }, KeyAction::Home),
        (KeyEx { key: Key::End, mods: ModKeys { bits: 0 } }, KeyAction::End),
        (KeyEx { key: Key::Char('i'), mods: ModKeys { bits: 4 } }, KeyAction::Tooltip),
        (KeyEx { key: Key::Char('s'), mods: ModKeys { bits: 0 } }, KeyAction::StepIntoLine),
        (KeyEx { key: Key::Char('S'), mods: ModKeys { bits: 0 } }, KeyAction::StepIntoInstruction),
        (KeyEx { key: Key::Char('n'), mods: ModKeys { bits: 0 } }, KeyAction::StepOverLine),
        (KeyEx { key: Key::Char('m'), mods: ModKeys { bits: 0 } }, KeyAction::StepOverColumn),
        (KeyEx { key: Key::Char('N'), mods: ModKeys { bits: 0 } }, KeyAction::StepOverInstruction),
        (KeyEx { key: Key::Char('f'), mods: ModKeys { bits: 0 } }, KeyAction::StepOut),
        (KeyEx { key: Key::Char('F'), mods: ModKeys { bits: 0 } }, KeyAction::StepOutNoInline),
        (KeyEx { key: Key::Char('C'), mods: ModKeys { bits: 0 } }, KeyAction::StepToCursor),
        (KeyEx { key: Key::Char('t'), mods: ModKeys { bits: 4 } }, KeyAction::NextTab),
        (KeyEx { key: Key::Char('t'), mods: ModKeys { bits: 2 } }, KeyAction::PreviousTab),
        (KeyEx { key: Key::Char('b'), mods: ModKeys { bits: 4 } }, KeyAction::PreviousTab),
        (KeyEx { key: Key::Char('w'), mods: ModKeys { bits: 4 } }, KeyAction::CloseTab),
        (KeyEx { key: Key::Char(']'), mods: ModKeys { bits: 0 } }, KeyAction::NextStackFrame),
        (KeyEx { key: Key::Char('['), mods: ModKeys { bits: 0 } }, KeyAction::PreviousStackFrame),
        (KeyEx { key: Key::Char('}'), mods: ModKeys { bits: 0 } }, KeyAction::NextThread),
        (KeyEx { key: Key::Char('{'), mods: ModKeys { bits: 0 } }, KeyAction::PreviousThread),
        (KeyEx { key: Key::Char('.'), mods: ModKeys { bits: 0 } }, KeyAction::NextLocation),
        (KeyEx { key: Key::Char(','), mods: ModKeys { bits: 0 } }, KeyAction::PreviousLocation),
        (KeyEx { key: Key::Char('g'), mods: ModKeys { bits: 2 } }, KeyAction::NextMatch),
        (KeyEx { key: Key::Char('G'), mods: ModKeys { bits: 2 } }, KeyAction::PreviousMatch),
        (KeyEx { key: Key::F(3), mods: ModKeys { bits: 0 } }, KeyAction::NextMatch),
        (KeyEx { key: Key::F(3), mods: ModKeys { bits: 1 } }, KeyAction::PreviousMatch),
        (KeyEx { key: Key::Char('+'), mods: ModKeys { bits: 0 } }, KeyAction::ToggleSort),
        (KeyEx { key: Key::Char('o'), mods: ModKeys { bits: 0 } }, KeyAction::Open),
        (KeyEx { key: Key::Char('t'), mods: ModKeys { bits: 0 } }, KeyAction::FindType),
        (KeyEx { key: Key::Char('/'), mods: ModKeys { bits: 0 } }, KeyAction::Find),
        (KeyEx { key: Key::Char('g'), mods: ModKeys { bits: 0 } }, KeyAction::GoToLine),
        (KeyEx { key: Key::Char('d'), mods: ModKeys { bits: 0 } }, KeyAction::DuplicateRow),
        (KeyEx { key: Key::Char('y'), mods: ModKeys { bits: 0 } }, KeyAction::CopyValue),
        (KeyEx { key: Key::Char('D'), mods: ModKeys { bits: 0 } }, KeyAction::AddValueRefWatch),
        (KeyEx { key: Key::PageUp, mods: ModKeys { bits: 4 } }, KeyAction::ReorderRowUp),
        (KeyEx { key: Key::PageDown, mods: ModKeys { bits: 4 } }, KeyAction::ReorderRowDown),
        (KeyEx { key: Key::Char('?'), mods: ModKeys { bits: 0 } }, KeyAction::Help),
        (KeyEx { key: Key::Char('h'), mods: ModKeys { bits: 0 } }, KeyAction::Help),
        (KeyEx { key: Key::Char('l'), mods: ModKeys { bits: 4 } }, KeyAction::DropCaches),
        (KeyEx { key: Key::Char('p'), mods: ModKeys { bits: 4 } }, KeyAction::ToggleProfiler),
        (KeyEx { key: Key::Char('\n'), mods: ModKeys { bits: 2 } }, KeyAction::EditCondition),
        (KeyEx { key: Key::Char('b'), mods: ModKeys { bits: 0 } }, KeyAction::DataWriteBreakpoint),
        (KeyEx { key: Key::Char('B'), mods: ModKeys { bits: 0 } }, KeyAction::DataReadWriteBreakpoint),
        (KeyEx { key: Key::Char('b'), mods: ModKeys { bits: 2 } }, KeyAction::ConditionalDataWriteBreakpoint),
        (KeyEx { key: Key::Char('B'), mods: ModKeys { bits: 2 } }, KeyAction::ConditionalDataReadWriteBreakpoint),
    ]
}

/// The default bindings during text input.
pub open spec fn default_text_pairs() -> Seq<(KeyEx, KeyAction)> {
    seq![
        (KeyEx { key: Key::Char('7'), mods: ModKeys { bits: 4 } }, KeyAction::Undo),
        (KeyEx { key: Key::Char('_'), mods: ModKeys { bits: 2 } }, KeyAction::Redo),
        (KeyEx { key: Key::Char('y'), mods: ModKeys { bits: 4 } }, KeyAction::Paste),
        (KeyEx { key: Key::Char('c'), mods: ModKeys { bits: 4 } }, KeyAction::Copy),
        (KeyEx { key: Key::Char('x'), mods: ModKeys { bits: 4 } }, KeyAction::Cut),
        (KeyEx { key: Key::Char('v'), mods: ModKeys { bits: 4 } }, KeyAction::Paste),
        (KeyEx { key: Key::Char('\n'), mods: ModKeys { bits: 2 } }, KeyAction::NewLine),
    ]
}

/// The key bindings outside and inside text input, and two settings that ride along in the
/// same configuration file.
#[derive(Eq, PartialEq, Debug)]
pub struct KeyBinds {
    pub normal: KeyMap,
    pub text_input: KeyMap,
    pub vscroll_sensitivity: isize,
    pub hscroll_sensitivity: isize,
}

impl Default for KeyBinds {
    fn default() -> (r: Self)
        ensures
            r.normal.wf(),
            r.text_input.wf(),
            (r.normal.key_pairs(), r.normal.action_entries()) == keymap_from(default_normal_pairs()),
            (r.text_input.key_pairs(), r.text_input.action_entries()) == keymap_from(default_text_pairs()),
            r.vscroll_sensitivity == 4,
            r.hscroll_sensitivity == 20,
    {
        let normal = KeyMap::new(&[
            (Key::Char('q').ctrl(), KeyAction::Quit),
            (Key::Char('r').plain(), KeyAction::Run),
            (Key::Char('c').plain(), KeyAction::Continue),
            (Key::Char('p').plain(), KeyAction::Suspend),
            (Key::Char('c').ctrl(), KeyAction::Suspend),
            (Key::Char('k').ctrl(), KeyAction::Kill),
            (Key::Char('k').alt(), KeyAction::SendSigint),
            (Key::Up.alt(), KeyAction::WindowUp),
            (Key::Down.alt(), KeyAction::WindowDown),
            (Key::Left.alt(), KeyAction::WindowLeft),
            (Key::Right.alt(), KeyAction::WindowRight),
            (Key::Char('0').plain(), KeyAction::Window0),
            (Key::Char('1').plain(), KeyAction::Window1),
            (Key::Char('2').plain(), KeyAction::Window2),
            (Key::Char('3').plain(), KeyAction::Window3),
            (Key::Char('4').plain(), KeyAction::Window4),
            (Key::Char('5').plain(), KeyAction::Window5),
            (Key::Char('6').plain(), KeyAction::Window6),
            (Key::Char('7').plain(), KeyAction::Window7),
            (Key::Char('8').plain(), KeyAction::Window8),
            (Key::Char('9').plain(), KeyAction::Window9),
            (Key::Up.plain(), KeyAction::CursorUp),
            (Key::Down.plain(), KeyAction::CursorDown),
            (Key::Left.plain(), KeyAction::CursorLeft),
            (Key::Right.plain(), KeyAction::CursorRight),
            (Key::Char('\n').plain(), KeyAction::Enter),
            (Key::Delete.plain(), KeyAction::DeleteRow),
            (Key::Backspace.plain(), KeyAction::DeleteRow),
            (Key::Escape.plain(), KeyAction::Cancel),
            (Key::Char('g').ctrl(), KeyAction::Cancel),
            (Key::PageUp.plain(), KeyAction::PageUp),
            (Key::Char('v').alt(), KeyAction::PageUp),
            (Key::PageDown.plain(), KeyAction::PageDown),
            (Key::Char('v').ctrl(), KeyAction::PageDown),
            (Key::Home.plain(), KeyAction::Home),
            (Key::End.plain(), KeyAction::End),
            (Key::Char('i').ctrl(), KeyAction::Tooltip),
            (Key::Char('s').plain(), KeyAction::StepIntoLine),
            (Key::Char('S').plain(), KeyAction::StepIntoInstruction),
            (Key::Char('n').plain(), KeyAction::StepOverLine),
            (Key::Char('m').plain(), KeyAction::StepOverColumn),
            (Key::Char('N').plain(), KeyAction::StepOverInstruction),
            (Key::Char('f').plain(), KeyAction::StepOut),
            (Key::Char('F').plain(), KeyAction::StepOutNoInline),
            (Key::Char('C').plain(), KeyAction::StepToCursor),
            (Key::Char('t').ctrl(), KeyAction::NextTab),
            (Key::Char('t').alt(), KeyAction::PreviousTab),
            (Key::Char('b').ctrl(), KeyAction::PreviousTab),
            (Key::Char('w').ctrl(), KeyAction::CloseTab),
            (Key::Char(']').plain(), KeyAction::NextStackFrame),
            (Key::Char('[').plain(), KeyAction::PreviousStackFrame),
            (Key::Char('}').plain(), KeyAction::NextThread),
            (Key::Char('{').plain(), KeyAction::PreviousThread),
            (Key::Char('.').plain(), KeyAction::NextLocation),
            (Key::Char(',').plain(), KeyAction::PreviousLocation),
            (Key::Char('g').alt(), KeyAction::NextMatch),
            (Key::Char('G').alt(), KeyAction::PreviousMatch),
            (Key::F(3).plain(), KeyAction::NextMatch),
            (Key::F(3).shift(), KeyAction::PreviousMatch),
            (Key::Char('+').plain(), KeyAction::ToggleSort),
            (Key::Char('o').plain(), KeyAction::Open),
            (Key::Char('t').plain(), KeyAction::FindType),
            (Key::Char('/').plain(), KeyAction::Find),
            (Key::Char('g').plain(), KeyAction::GoToLine),
            (Key::Char('d').plain(), KeyAction::DuplicateRow),
            (Key::Char('y').plain(), KeyAction::CopyValue),
            (Key::Char('D').plain(), KeyAction::AddValueRefWatch),
            (Key::PageUp.ctrl(), KeyAction::ReorderRowUp),
            (Key::PageDown.ctrl(), KeyAction::ReorderRowDown),
            (Key::Char('?').plain(), KeyAction::Help),
            (Key::Char('h').plain(), KeyAction::Help),
            (Key::Char('l').ctrl(), KeyAction::DropCaches),
            (Key::Char('p').ctrl(), KeyAction::ToggleProfiler),
            (Key::Char('\n').alt(), KeyAction::EditCondition),
            (Key::Char('b').plain(), KeyAction::DataWriteBreakpoint),
            (Key::Char('B').plain(), KeyAction::DataReadWriteBreakpoint),
            (Key::Char('b').alt(), KeyAction::ConditionalDataWriteBreakpoint),
            (Key::Char('B').alt(), KeyAction::ConditionalDataReadWriteBreakpoint),
        ]);
        let text_input = KeyMap::new(&[
            (Key::Char('7').ctrl(), KeyAction::Undo),
            (Key::Char('_').alt(), KeyAction::Redo),
            (Key::Char('y').ctrl(), KeyAction::Paste),
            (Key::Char('c').ctrl(), KeyAction::Copy),
            (Key::Char('x').ctrl(), KeyAction::Cut),
            (Key::Char('v').ctrl(), KeyAction::Paste),
            (Key::Char('\n').alt(), KeyAction::NewLine),
        ]);
        proof {
            assert(normal.key_pairs() == keymap_from(default_normal_pairs()).0);
        }
        KeyBinds { normal, text_input, vscroll_sensitivity: 4, hscroll_sensitivity: 20 }
    }
}

// ---------------------------------------------------------------------------------------------
// The configuration file.
//
// Lines are `action: key` under a section header `[keys]` (the default) or `[text]`, and
// `setting: number` under `[settings]`. `#` starts a comment; `unbind` as the key removes
// the action's default keys.

/// A section of the configuration file.
#[derive(Clone, Copy, PartialEq, Eq, Structural, Debug)]
pub enum ConfigSection {
    Keys,
    Text,
    Settings,
}

/// What a line of the configuration file says.
#[derive(Clone, Copy, PartialEq, Eq, Structural, Debug)]
pub enum ConfigLine {
    /// Empty or a comment.
    Skip,
    Section(ConfigSection),
    VerticalScroll(isize),
    HorizontalScroll(isize),
    /// An action and its key; no key for `unbind`.
    Bind(KeyAction, Option<KeyEx>),
}

/// Why the configuration file was refused.
#[derive(Clone, PartialEq, Eq, Debug)]
pub enum ConfigError {
    /// A `[` without `]`.
    UnclosedBracket,
    UnknownSection(String),
    /// A line without `:`.
    NoColon,
    /// No digits where a number is expected.
    EmptyNumber,
    /// A number too large for `isize`.
    NumberTooLarge,
    UnknownSetting(String),
    UnknownAction(String),
    BadKeyName(String),
    /// Something other than a comment after the line's content, at this column (counted in
    /// bytes from 1).
    ExtraTokens(usize),
    /// A key assigned to two actions: the key, the first action, the second.
    KeyAssignedTwice(KeyEx, KeyAction, KeyAction),
    /// A key assigned to an action that is also a default key of another action whose keys
    /// were not reassigned: the key, the action, the other action.
    ConflictsWithDefault(KeyEx, KeyAction, KeyAction),
}

/// `ConfigError` with the strings as character sequences.
pub enum ConfigErrorSpec {
    UnclosedBracket,
    UnknownSection(Seq<char>),
    NoColon,
    EmptyNumber,
    NumberTooLarge,
    UnknownSetting(Seq<char>),
    UnknownAction(Seq<char>),
    BadKeyName(Seq<char>),
    ExtraTokens(int),
    KeyAssignedTwice(KeyEx, KeyAction, KeyAction),
    ConflictsWithDefault(KeyEx, KeyAction, KeyAction),
}

impl View for ConfigError {
    type V = ConfigErrorSpec;

    open spec fn view(&self) -> ConfigErrorSpec {
        match self {
            ConfigError::UnclosedBracket => ConfigErrorSpec::UnclosedBracket,
            ConfigError::UnknownSection(s) => ConfigErrorSpec::UnknownSection(s@),
            ConfigError::NoColon => ConfigErrorSpec::NoColon,
            ConfigError::EmptyNumber => ConfigErrorSpec::EmptyNumber,
            ConfigError::NumberTooLarge => ConfigErrorSpec::NumberTooLarge,
            ConfigError::UnknownSetting(s) => ConfigErrorSpec::UnknownSetting(s@),
            ConfigError::UnknownAction(s) => ConfigErrorSpec::UnknownAction(s@),
            ConfigError::BadKeyName(s) => ConfigErrorSpec::BadKeyName(s@),
            ConfigError::ExtraTokens(c) => ConfigErrorSpec::ExtraTokens(*c as int),
            ConfigError::KeyAssignedTwice(k, a, b) => ConfigErrorSpec::KeyAssignedTwice(*k, *a, *b),
            ConfigError::ConflictsWithDefault(k, a, b) => ConfigErrorSpec::ConflictsWithDefault(*k, *a, *b),
        }
    }
}

/// The message that describes a configuration error.
pub open spec fn config_error_text(e: ConfigErrorSpec) -> Seq<char> {
    match e {
        ConfigErrorSpec::UnclosedBracket => "unclosed '['"@,
        ConfigErrorSpec::UnknownSection(name) => "unknown section name: "@ + name,
        ConfigErrorSpec::NoColon => "no ':'"@,
        ConfigErrorSpec::EmptyNumber => "bad number: cannot parse integer from empty string"@,
        ConfigErrorSpec::NumberTooLarge => "bad number: number too large to fit in target type"@,
        ConfigErrorSpec::UnknownSetting(name) => "unknown setting: '"@ + name + "'"@,
        ConfigErrorSpec::UnknownAction(name) => "unknown action: '"@ + name + "'"@,
        ConfigErrorSpec::BadKeyName(name) => "bad key name: '"@ + name
            + "' (use nnd --echo-input to find the exact key name to use)"@,
        ConfigErrorSpec::ExtraTokens(column) => "unexpected extra tokens starting at column "@
            + crate::keys::dec_chars(column as nat),
        ConfigErrorSpec::KeyAssignedTwice(k, a, b) => "key "@ + crate::keys::key_ex_name(k)
            + " is assigned to multiple actions: "@ + action_name(a) + " and "@ + action_name(b),
        ConfigErrorSpec::ConflictsWithDefault(k, a, b) => "key "@ + crate::keys::key_ex_name(k)
            + " assigned to action "@ + action_name(a) + " conflicts with default key binding for "@
            + action_name(b),
    }
}

impl ConfigError {
    /// The message that describes the error (see `config_error_text`).
    pub fn message(&self) -> (r: String)
        ensures
            r@ == config_error_text(self@),
    {
        match self {
            ConfigError::UnclosedBracket => "unclosed '['".to_owned(),
            ConfigError::UnknownSection(name) => {
                let mut r = "unknown section name: ".to_owned();
                r.append(name.as_str());
                r
            },
            ConfigError::NoColon => "no ':'".to_owned(),
            ConfigError::EmptyNumber => "bad number: cannot parse integer from empty string".to_owned(),
            ConfigError::NumberTooLarge => "bad number: number too large to fit in target type".to_owned(),
            ConfigError::UnknownSetting(name) => {
                let mut r = "unknown setting: '".to_owned();
                r.append(name.as_str());
                r.append("'");
                r
            },
            ConfigError::UnknownAction(name) => {
                let mut r = "unknown action: '".to_owned();
                r.append(name.as_str());
                r.append("'");
                r
            },
            ConfigError::BadKeyName(name) => {
                let mut r = "bad key name: '".to_owned();
                r.append(name.as_str());
                r.append("' (use nnd --echo-input to find the exact key name to use)");
                r
            },
            ConfigError::ExtraTokens(column) => {
                let mut r = "unexpected extra tokens starting at column ".to_owned();
                crate::keys::push_dec_chars_u64(&mut r, *column as u64);
                r
            },
            ConfigError::KeyAssignedTwice(k, a, b) => {
                let mut r = "key ".to_owned();
                r.append(k.name().as_str());
                r.append(" is assigned to multiple actions: ");
                r.append(a.name());
                r.append(" and ");
                r.append(b.name());
                r
            },
            ConfigError::ConflictsWithDefault(k, a, b) => {
                let mut r = "key ".to_owned();
                r.append(k.name().as_str());
                r.append(" assigned to action ");
                r.append(a.name());
                r.append(" conflicts with default key binding for ");
                r.append(b.name());
                r
            },
        }
    }
}

/// The action named `name`, looking from position `i` of `all_actions` on.
pub open spec fn action_by_name_from(name: Seq<char>, i: int) -> Option<KeyAction>
    decreases num_actions() - i,
{
    if i < 0 || i >= num_actions() {
        None
    } else if action_name(all_actions()[i]) == name {
        Some(all_actions()[i])
    } else {
        action_by_name_from(name, i + 1)
    }
}

/// The action named `name`, if any.
pub open spec fn action_by_name(name: Seq<char>) -> Option<KeyAction> {
    action_by_name_from(name, 0)
}

/// The section named `name`.
pub open spec fn section_by_name(name: Seq<char>) -> Option<ConfigSection> {
    if name == "keys"@ {
        Some(ConfigSection::Keys)
    } else if name == "text"@ {
        Some(ConfigSection::Text)
    } else if name == "settings"@ {
        Some(ConfigSection::Settings)
    } else {
        None
    }
}

/// The content of a line of the configuration file, read in `section`, and the text left
/// after it (which only a comment may follow).
#[verifier::opaque]
pub open spec fn line_body(line: Seq<char>, section: ConfigSection) -> Result<(ConfigLine, Seq<char>), ConfigErrorSpec> {
    let sl = trim_start(line);
    if sl.len() == 0 || sl[0] == '#' {
        Ok((ConfigLine::Skip, sl))
    } else if sl[0] == '[' {
        let n = find_char(sl, ']', 0);
        if n < 0 {
            Err(ConfigErrorSpec::UnclosedBracket)
        } else {
            let name = trim(sl.subrange(1, n));
            match section_by_name(name) {
                Some(sec) => Ok((ConfigLine::Section(sec), trim_start(sl.subrange(n + 1, sl.len() as int)))),
                None => Err(ConfigErrorSpec::UnknownSection(name)),
            }
        }
    } else {
        let n = find_char(sl, ':', 0);
        if n < 0 {
            Err(ConfigErrorSpec::NoColon)
        } else {
            let action = trim(sl.subrange(0, n));
            let rest = trim_start(sl.subrange(n + 1, sl.len() as int));
            if section == ConfigSection::Settings {
                let d = digits_end(rest, 0);
                let digits = rest.subrange(0, d);
                if d == 0 {
                    Err(ConfigErrorSpec::EmptyNumber)
                } else if digits_value(digits, 10).unwrap() > isize::MAX {
                    Err(ConfigErrorSpec::NumberTooLarge)
                } else {
                    let val = digits_value(digits, 10).unwrap() as isize;
                    let after = trim_start(rest.subrange(d, rest.len() as int));
                    if action == "vertical_scroll_sensitivity"@ {
                        Ok((ConfigLine::VerticalScroll(val), after))
                    } else if action == "horizontal_scroll_sensitivity"@ {
                        Ok((ConfigLine::HorizontalScroll(val), after))
                    } else {
                        Err(ConfigErrorSpec::UnknownSetting(action))
                    }
                }
            } else {
                match action_by_name(action) {
                    None => Err(ConfigErrorSpec::UnknownAction(action)),
                    Some(a) => {
                        // A comment after the key must be separated from it by a space.
                        let sp = find_char(rest, ' ', 0);
                        let n3 = if sp < 0 { rest.len() as int } else { sp };
                        let key_name = rest.subrange(0, n3);
                        let after = trim_start(rest.subrange(n3, rest.len() as int));
                        if key_name == "unbind"@ {
                            Ok((ConfigLine::Bind(a, None), after))
                        } else {
                            match parse_key_ex(key_name) {
                                Some(k) => Ok((ConfigLine::Bind(a, Some(k)), after)),
                                None => Err(ConfigErrorSpec::BadKeyName(key_name)),
                            }
                        }
                    },
                }
            }
        }
    }
}

/// What a line of the configuration file says, read in `section`.
#[verifier::opaque]
pub open spec fn parse_line(line: Seq<char>, section: ConfigSection) -> Result<ConfigLine, ConfigErrorSpec> {
    match line_body(line, section) {
        Err(e) => Err(e),
        Ok((cl, rest)) => if rest.len() > 0 && rest[0] != '#' {
            Err(ConfigErrorSpec::ExtraTokens(utf8(line).len() - utf8(rest).len() + 1))
        } else {
            Ok(cl)
        },
    }
}

/// The action named `name`, if any.
fn find_action(name: &str) -> (r: Option<KeyAction>)
    ensures
        r == action_by_name(name@),
{
    let mut i: usize = 0;
    while i < 75
        invariant
            i <= num_actions(),
            action_by_name(name@) == action_by_name_from(name@, i as int),
        decreases 75 - i,
    {
        let a = KeyAction::from_index(i);
        if str_eq(a.name(), name) {
            return Some(a);
        }
        i = i + 1;
    }
    None
}

/// The value of a string of ASCII digits, as `isize`.
fn parse_digits(s: &str) -> (r: Result<isize, ConfigError>)
    requires
        forall|j: int| 0 <= j < s@.len() ==> '0' <= #[trigger] s@[j] <= '9',
    ensures
        s@.len() == 0 ==> r == Err::<isize, ConfigError>(ConfigError::EmptyNumber),
        s@.len() > 0 && digits_value(s@, 10).unwrap() > isize::MAX ==> r == Err::<isize, ConfigError>(
            ConfigError::NumberTooLarge,
        ),
        s@.len() > 0 && digits_value(s@, 10).unwrap() <= isize::MAX ==> r == Ok::<isize, ConfigError>(
            digits_value(s@, 10).unwrap() as isize,
        ),
        digits_value(s@, 10) is Some,
{
    let n = s.unicode_len();
    proof {
        lemma_digits_some(s@);
    }
    if n == 0 {
        return Err(ConfigError::EmptyNumber);
    }
    let mut v: i128 = 0;
    let mut i: usize = 0;
    while i < n
        invariant
            n == s@.len(),
            i <= n,
            forall|j: int| 0 <= j < s@.len() ==> '0' <= #[trigger] s@[j] <= '9',
            digits_value(s@.subrange(0, i as int), 10) == Some(v as nat),
            0 <= v <= isize::MAX,
        decreases n - i,
    {
        let c = s.get_char(i);
        let d = (c as u32 - 48) as i128;
        proof {
            let t = s@.subrange(0, i + 1);
            assert(t.drop_last() =~= s@.subrange(0, i as int));
            assert(t.last() == c);
        }
        let nv = v * 10 + d;
        if nv > isize::MAX as i128 {
            proof {
                lemma_digits_prefix_le(s@, i + 1);
            }
            return Err(ConfigError::NumberTooLarge);
        }
        v = nv;
        i = i + 1;
    }
    proof {
        assert(s@.subrange(0, n as int) =~= s@);
    }
    Ok(v as isize)
}

proof fn lemma_digits_some(s: Seq<char>)
    requires
        forall|j: int| 0 <= j < s.len() ==> '0' <= #[trigger] s[j] <= '9',
    ensures
        digits_value(s, 10) is Some,
    decreases s.len(),
{
    if s.len() > 0 {
        lemma_digits_some(s.drop_last());
        assert(s.last() == s[s.len() - 1]);
    }
}

proof fn lemma_digits_prefix_le(s: Seq<char>, i: int)
    requires
        0 <= i <= s.len(),
        forall|j: int| 0 <= j < s.len() ==> '0' <= #[trigger] s[j] <= '9',
    ensures
        digits_value(s.subrange(0, i), 10) is Some,
        digits_value(s, 10) is Some,
        digits_value(s.subrange(0, i), 10).unwrap() <= digits_value(s, 10).unwrap(),
    decreases s.len() - i,
{
    lemma_digits_some(s);
    lemma_digits_some(s.subrange(0, i));
    if i < s.len() {
        lemma_digits_prefix_le(s.drop_last(), i);
        assert(s.drop_last().subrange(0, i) =~= s.subrange(0, i));
        assert(s.drop_last() =~= s.subrange(0, s.len() - 1));
        let p = digits_value(s.drop_last(), 10).unwrap();
        assert(p <= p * 10 + 9) by (nonlinear_arith);
    } else {
        assert(s.subrange(0, i) =~= s);
    }
}

/// `b` is a suffix of `a`.
pub open spec fn is_suffix(a: Seq<char>, b: Seq<char>) -> bool {
    b.len() <= a.len() && a.subrange(a.len() - b.len(), a.len() as int) == b
}

proof fn lemma_suffix_trans(a: Seq<char>, b: Seq<char>, c: Seq<char>)
    requires
        is_suffix(a, b),
        is_suffix(b, c),
    ensures
        is_suffix(a, c),
{
    assert(a.subrange(a.len() - c.len(), a.len() as int) =~= c);
}

proof fn lemma_trim_start_suffix(a: Seq<char>)
    ensures
        is_suffix(a, trim_start(a)),
{
    crate::text_scan::lemma_skip_ws_bound(a);
    assert(a.subrange(a.len() - trim_start(a).len(), a.len() as int) =~= trim_start(a));
}

proof fn lemma_tail_suffix(a: Seq<char>, i: int)
    requires
        0 <= i <= a.len(),
    ensures
        is_suffix(a, a.subrange(i, a.len() as int)),
{
    assert(a.subrange(a.len() - a.subrange(i, a.len() as int).len(), a.len() as int) =~= a.subrange(i, a.len() as int));
}

proof fn lemma_suffix_bytes(a: Seq<char>, b: Seq<char>)
    requires
        is_suffix(a, b),
    ensures
        utf8(b).len() <= utf8(a).len(),
{
    let p = a.subrange(0, a.len() - b.len());
    assert(a =~= p + b);
    crate::utf8_text::lemma_utf8_concat(p, b);
}

/// Reads a line of the configuration file in `section` (see `parse_line`).
pub fn parse_config_line(line: &str, section: ConfigSection) -> (r: Result<ConfigLine, ConfigError>)
    requires
        line.spec_bytes().len() <= usize::MAX,
    ensures
        match r {
            Ok(cl) => parse_line(line@, section) == Ok::<ConfigLine, ConfigErrorSpec>(cl),
            Err(e) => parse_line(line@, section) == Err::<ConfigLine, ConfigErrorSpec>(e@),
        },
{
    proof {
        reveal(parse_line);
        reveal(line_body);
    }
    let sl = str_trim_start(line);
    let n = sl.unicode_len();
    proof {
        lemma_trim_start_suffix(line@);
    }
    if n == 0 || sl.get_char(0) == '#' {
        return Ok(ConfigLine::Skip);
    }
    let cl: ConfigLine;
    let rest: &str;
    if sl.get_char(0) == '[' {
        let k = match str_find(sl, ']') {
            None => {
                return Err(ConfigError::UnclosedBracket);
            },
            Some(k) => k,
        };
        let name = str_trim(sl.substring_char(1, k));
        let sec = if str_eq(name, "keys") {
            ConfigSection::Keys
        } else if str_eq(name, "text") {
            ConfigSection::Text
        } else if str_eq(name, "settings") {
            ConfigSection::Settings
        } else {
            return Err(ConfigError::UnknownSection(name.to_owned()));
        };
        cl = ConfigLine::Section(sec);
        let tail = sl.substring_char(k + 1, n);
        rest = str_trim_start(tail);
        proof {
            lemma_tail_suffix(sl@, k + 1);
            lemma_trim_start_suffix(tail@);
            lemma_suffix_trans(line@, sl@, tail@);
            lemma_suffix_trans(line@, tail@, rest@);
        }
    } else {
        let k = match str_find(sl, ':') {
            None => {
                return Err(ConfigError::NoColon);
            },
            Some(k) => k,
        };
        let action = str_trim(sl.substring_char(0, k));
        let tail = sl.substring_char(k + 1, n);
        let after_colon = str_trim_start(tail);
        let m = after_colon.unicode_len();
        proof {
            lemma_tail_suffix(sl@, k + 1);
            lemma_trim_start_suffix(tail@);
            lemma_suffix_trans(line@, sl@, tail@);
            lemma_suffix_trans(line@, tail@, after_colon@);
        }
        if section == ConfigSection::Settings {
            let d = str_digits_end(after_colon);
            proof {
                lemma_digits_end(after_colon@, 0);
            }
            let digits = after_colon.substring_char(0, d);
            let val = match parse_digits(digits) {
                Ok(v) => v,
                Err(e) => {
                    return Err(e);
                },
            };
            let tail2 = after_colon.substring_char(d, m);
            rest = str_trim_start(tail2);
            proof {
                lemma_tail_suffix(after_colon@, d as int);
                lemma_trim_start_suffix(tail2@);
                lemma_suffix_trans(line@, after_colon@, tail2@);
                lemma_suffix_trans(line@, tail2@, rest@);
            }
            if str_eq(action, "vertical_scroll_sensitivity") {
                cl = ConfigLine::VerticalScroll(val);
            } else if str_eq(action, "horizontal_scroll_sensitivity") {
                cl = ConfigLine::HorizontalScroll(val);
            } else {
                return Err(ConfigError::UnknownSetting(action.to_owned()));
            }
        } else {
            let a = match find_action(action) {
                None => {
                    return Err(ConfigError::UnknownAction(action.to_owned()));
                },
                Some(a) => a,
            };
            // A comment after the key must be separated from it by a space.
            let n3 = match str_find(after_colon, ' ') {
                Some(i) => i,
                None => m,
            };
            let key_name = after_colon.substring_char(0, n3);
            let key = if str_eq(key_name, "unbind") {
                None
            } else {
                match KeyEx::from_name(key_name) {
                    Ok(k) => Some(k),
                    Err(()) => {
                        return Err(ConfigError::BadKeyName(key_name.to_owned()));
                    },
                }
            };
            cl = ConfigLine::Bind(a, key);
            let tail2 = after_colon.substring_char(n3, m);
            rest = str_trim_start(tail2);
            proof {
                lemma_tail_suffix(after_colon@, n3 as int);
                lemma_trim_start_suffix(tail2@);
                lemma_suffix_trans(line@, after_colon@, tail2@);
                lemma_suffix_trans(line@, tail2@, rest@);
            }
        }
    }
    if rest.unicode_len() > 0 && rest.get_char(0) != '#' {
        proof {
            lemma_suffix_bytes(line@, rest@);
            assert(line.spec_bytes() == utf8(line@));
            assert(rest.spec_bytes() == utf8(rest@));
        }
        return Err(ConfigError::ExtraTokens(line.len() - rest.len() + 1));
    }
    Ok(cl)
}

/// What the lines read so far say: the current section, the (key, action) bindings of each
/// section in order (no key for `unbind`), and the two settings.
pub struct ConfigScan {
    pub section: ConfigSection,
    pub keys: Seq<(Option<KeyEx>, KeyAction)>,
    pub text: Seq<(Option<KeyEx>, KeyAction)>,
    pub vscroll: isize,
    pub hscroll: isize,
}

pub open spec fn apply_line(st: ConfigScan, cl: ConfigLine) -> ConfigScan {
    match cl {
        ConfigLine::Skip => st,
        ConfigLine::Section(sec) => ConfigScan { section: sec, ..st },
        ConfigLine::VerticalScroll(v) => ConfigScan { vscroll: v, ..st },
        ConfigLine::HorizontalScroll(h) => ConfigScan { hscroll: h, ..st },
        ConfigLine::Bind(a, k) => if st.section == ConfigSection::Keys {
            ConfigScan { keys: st.keys.push((k, a)), ..st }
        } else {
            ConfigScan { text: st.text.push((k, a)), ..st }
        },
    }
}

/// Reading lines `ls` from state `st`: the final state, or the index of the first line that
/// is refused and why.
pub open spec fn scan_config(ls: Seq<Seq<char>>, st: ConfigScan) -> Result<ConfigScan, (int, ConfigErrorSpec)>
    decreases ls.len(),
{
    if ls.len() == 0 {
        Ok(st)
    } else {
        match parse_line(ls[0], st.section) {
            Err(e) => Err((0, e)),
            Ok(cl) => match scan_config(ls.drop_first(), apply_line(st, cl)) {
                Ok(x) => Ok(x),
                Err((i, e)) => Err((i + 1, e)),
            },
        }
    }
}

/// The state before the first line: section `[keys]`, no bindings, default settings.
pub open spec fn config_start() -> ConfigScan {
    ConfigScan { section: ConfigSection::Keys, keys: Seq::empty(), text: Seq::empty(), vscroll: 4, hscroll: 20 }
}

/// The maps of a section's bindings: a key may be bound once; `unbind` gives the action an
/// entry without keys.
pub open spec fn merge_user(parsed: Seq<(Option<KeyEx>, KeyAction)>) -> Result<(Seq<(KeyEx, KeyAction)>, Seq<(KeyAction, Seq<KeyEx>)>), ConfigErrorSpec>
    decreases parsed.len(),
{
    if parsed.len() == 0 {
        Ok((Seq::empty(), Seq::empty()))
    } else {
        match merge_user(parsed.drop_last()) {
            Err(e) => Err(e),
            Ok((k2a, a2k)) => {
                let (key, a) = parsed.last();
                match key {
                    Some(k) => match lookup(k2a, k) {
                        Some(a0) => Err(ConfigErrorSpec::KeyAssignedTwice(k, a0, a)),
                        None => Ok((assoc_set(k2a, k, a), append_key(a2k, a, k))),
                    },
                    None => Ok((k2a, with_entry(a2k, a))),
                }
            },
        }
    }
}

/// Adds the default keys `keys` of action `a`; a key bound already is a conflict.
pub open spec fn add_default_keys(
    a: KeyAction,
    keys: Seq<KeyEx>,
    k2a: Seq<(KeyEx, KeyAction)>,
    a2k: Seq<(KeyAction, Seq<KeyEx>)>,
) -> Result<(Seq<(KeyEx, KeyAction)>, Seq<(KeyAction, Seq<KeyEx>)>), ConfigErrorSpec>
    decreases keys.len(),
{
    if keys.len() == 0 {
        Ok((k2a, a2k))
    } else {
        match add_default_keys(a, keys.drop_last(), k2a, a2k) {
            Err(e) => Err(e),
            Ok((k1, a1)) => {
                let k = keys.last();
                match lookup(k1, k) {
                    Some(a0) => Err(ConfigErrorSpec::ConflictsWithDefault(k, a0, a)),
                    None => Ok((assoc_set(k1, k, a), append_key(a1, a, k))),
                }
            },
        }
    }
}

/// Adds the default keys of every action in `defs` that has no entry yet.
pub open spec fn merge_defaults(
    defs: Seq<(KeyAction, Seq<KeyEx>)>,
    k2a: Seq<(KeyEx, KeyAction)>,
    a2k: Seq<(KeyAction, Seq<KeyEx>)>,
) -> Result<(Seq<(KeyEx, KeyAction)>, Seq<(KeyAction, Seq<KeyEx>)>), ConfigErrorSpec>
    decreases defs.len(),
{
    if defs.len() == 0 {
        Ok((k2a, a2k))
    } else {
        match merge_defaults(defs.drop_last(), k2a, a2k) {
            Err(e) => Err(e),
            Ok((k1, a1)) => {
                let (a, keys) = defs.last();
                if lookup(a1, a) is None {
                    add_default_keys(a, keys, k1, a1)
                } else {
                    Ok((k1, a1))
                }
            },
        }
    }
}

/// The maps of a section: its bindings, then the default keys of the actions it did not bind.
pub open spec fn merge_section(
    parsed: Seq<(Option<KeyEx>, KeyAction)>,
    defs: Seq<(KeyAction, Seq<KeyEx>)>,
) -> Result<(Seq<(KeyEx, KeyAction)>, Seq<(KeyAction, Seq<KeyEx>)>), ConfigErrorSpec> {
    match merge_user(parsed) {
        Err(e) => Err(e),
        Ok((k2a, a2k)) => merge_defaults(defs, k2a, a2k),
    }
}

/// The key bindings of a configuration file, as maps for the two sections and the two
/// settings; or why it is refused.
pub open spec fn parse_config_spec(text: Seq<char>) -> Result<
    ((Seq<(KeyEx, KeyAction)>, Seq<(KeyAction, Seq<KeyEx>)>), (Seq<(KeyEx, KeyAction)>, Seq<(KeyAction, Seq<KeyEx>)>), isize, isize),
    ConfigErrorSpec,
> {
    match scan_config(lines(text), config_start()) {
        Err((_, e)) => Err(e),
        Ok(st) => match merge_section(st.keys, keymap_from(default_normal_pairs()).1) {
            Err(e) => Err(e),
            Ok(normal) => match merge_section(st.text, keymap_from(default_text_pairs()).1) {
                Err(e) => Err(e),
                Ok(text_input) => Ok((normal, text_input, st.vscroll, st.hscroll)),
            },
        },
    }
}

/// The line number (from 1) that `parse_config` reports: the refused line, else the last
/// line; unchanged for a text without lines.
pub open spec fn config_line_number(text: Seq<char>, before: int) -> int {
    match scan_config(lines(text), config_start()) {
        Err((i, _)) => i + 1,
        Ok(_) => if lines(text).len() == 0 { before } else { lines(text).len() as int },
    }
}

/// Whether some line of `parsed` names action `a`.
pub open spec fn mentions(parsed: Seq<(Option<KeyEx>, KeyAction)>, a: KeyAction) -> bool
    decreases parsed.len(),
{
    parsed.len() > 0 && (parsed.last().1 == a || mentions(parsed.drop_last(), a))
}

/// The keys that lines `parsed` bind to action `a`, in order (`unbind` lines give none).
pub open spec fn user_keys(parsed: Seq<(Option<KeyEx>, KeyAction)>, a: KeyAction) -> Seq<KeyEx>
    decreases parsed.len(),
{
    if parsed.len() == 0 {
        Seq::empty()
    } else {
        let rest = user_keys(parsed.drop_last(), a);
        match parsed.last() {
            (Some(k), b) => if b == a { rest.push(k) } else { rest },
            (None, _) => rest,
        }
    }
}

/// Whether some line of `parsed` binds key `k`.
pub open spec fn binds_key(parsed: Seq<(Option<KeyEx>, KeyAction)>, k: KeyEx) -> bool {
    exists|i: int| 0 <= i < parsed.len() && parsed[i].0 == Some(k)
}

proof fn lemma_lookup_push_other<K, V>(s: Seq<(K, V)>, k: K, v: V, other: K)
    requires
        other != k,
    ensures
        lookup(s.push((k, v)), other) == lookup(s, other),
{
    lemma_last_index_of(s, other);
    assert(s.push((k, v)).drop_last() =~= s);
}

proof fn lemma_with_entry_lookup(s: Seq<(KeyAction, Seq<KeyEx>)>, a: KeyAction, other: KeyAction)
    ensures
        lookup(with_entry(s, a), a) == Some(
            match lookup(s, a) {
                Some(keys) => keys,
                None => Seq::<KeyEx>::empty(),
            },
        ),
        other != a ==> lookup(with_entry(s, a), other) == lookup(s, other),
{
    lemma_last_index_of(s, a);
    if last_index_of(s, a) < 0 {
        assert(s.push((a, Seq::<KeyEx>::empty())).drop_last() =~= s);
        if other != a {
            lemma_lookup_push_other(s, a, Seq::<KeyEx>::empty(), other);
        }
    }
}

proof fn lemma_unmentioned_no_keys(parsed: Seq<(Option<KeyEx>, KeyAction)>, a: KeyAction)
    requires
        !mentions(parsed, a),
    ensures
        user_keys(parsed, a) == Seq::<KeyEx>::empty(),
    decreases parsed.len(),
{
    if parsed.len() > 0 {
        lemma_unmentioned_no_keys(parsed.drop_last(), a);
    }
}

proof fn lemma_merge_user_entries(parsed: Seq<(Option<KeyEx>, KeyAction)>, a: KeyAction)
    requires
        merge_user(parsed) is Ok,
    ensures
        lookup(merge_user(parsed)->Ok_0.1, a) == (if mentions(parsed, a) {
            Some(user_keys(parsed, a))
        } else {
            None::<Seq<KeyEx>>
        }),
    decreases parsed.len(),
{
    if parsed.len() > 0 {
        let rest = parsed.drop_last();
        lemma_merge_user_entries(rest, a);
        let (k2a, a2k) = merge_user(rest)->Ok_0;
        let (key, b) = parsed.last();
        if !mentions(rest, a) {
            lemma_unmentioned_no_keys(rest, a);
        }
        match key {
            Some(k) => {
                lemma_add_key_then_lookup(a2k, b, k, a);
                if a == b {
                    assert(Seq::<KeyEx>::empty().push(k) =~= seq![k]);
                }
            },
            None => {
                lemma_with_entry_lookup(a2k, b, a);
            },
        }
    }
}

proof fn lemma_merge_user_keys(parsed: Seq<(Option<KeyEx>, KeyAction)>, k: KeyEx)
    requires
        merge_user(parsed) is Ok,
        binds_key(parsed, k),
    ensures
        lookup(merge_user(parsed)->Ok_0.0, k) is Some,
    decreases parsed.len(),
{
    let rest = parsed.drop_last();
    let (k2a, a2k) = merge_user(rest)->Ok_0;
    let (key, b) = parsed.last();
    let i = choose|i: int| 0 <= i < parsed.len() && parsed[i].0 == Some(k);
    if i < parsed.len() - 1 {
        assert(rest[i] == parsed[i]);
        lemma_merge_user_keys(rest, k);
        match key {
            Some(k2) => {
                lemma_set_key_then_lookup(k2a, k2, b, k);
            },
            None => {},
        }
    } else {
        lemma_set_key_then_lookup(k2a, k, b, k);
    }
}

/// A key bound by two lines of a section makes the section refused.
pub proof fn lemma_key_bound_twice_is_refused(
    parsed: Seq<(Option<KeyEx>, KeyAction)>,
    defs: Seq<(KeyAction, Seq<KeyEx>)>,
    i: int,
    j: int,
    k: KeyEx,
)
    requires
        0 <= i < j < parsed.len(),
        parsed[i].0 == Some(k),
        parsed[j].0 == Some(k),
    ensures
        merge_user(parsed) is Err,
        merge_section(parsed, defs) is Err,
{
    let pre = parsed.subrange(0, j);
    let upto = parsed.subrange(0, j + 1);
    assert(upto.drop_last() =~= pre);
    if merge_user(pre) is Ok {
        assert(pre[i] == parsed[i]);
        lemma_merge_user_keys(pre, k);
    }
    assert(merge_user(upto) is Err);
    lemma_merge_user_err_prefix(parsed, j + 1);
}

proof fn lemma_lookup_drop_last_other<K, V>(s: Seq<(K, V)>, other: K)
    requires
        s.len() > 0,
        s.last().0 != other,
    ensures
        lookup(s, other) == lookup(s.drop_last(), other),
{
    lemma_last_index_of(s.drop_last(), other);
}

proof fn lemma_add_default_keys_entries(
    a: KeyAction,
    keys: Seq<KeyEx>,
    k2a: Seq<(KeyEx, KeyAction)>,
    a2k: Seq<(KeyAction, Seq<KeyEx>)>,
    other: KeyAction,
)
    requires
        add_default_keys(a, keys, k2a, a2k) is Ok,
        lookup(a2k, a) is None,
    ensures
        lookup(add_default_keys(a, keys, k2a, a2k)->Ok_0.1, a) == (if keys.len() == 0 {
            None::<Seq<KeyEx>>
        } else {
            Some(keys)
        }),
        other != a ==> lookup(add_default_keys(a, keys, k2a, a2k)->Ok_0.1, other) == lookup(a2k, other),
    decreases keys.len(),
{
    if keys.len() > 0 {
        let rest = keys.drop_last();
        lemma_add_default_keys_entries(a, rest, k2a, a2k, other);
        let (k1, a1) = add_default_keys(a, rest, k2a, a2k)->Ok_0;
        let k = keys.last();
        lemma_add_key_then_lookup(a1, a, k, other);
        if rest.len() == 0 {
            assert(keys =~= seq![k]);
        } else {
            assert(rest.push(k) =~= keys);
        }
    }
}

proof fn lemma_distinct_drop_last<V>(defs: Seq<(KeyAction, V)>)
    requires
        defs.len() > 0,
        distinct_firsts(defs),
    ensures
        distinct_firsts(defs.drop_last()),
        lookup(defs.drop_last(), defs.last().0) is None,
{
    let d = defs.drop_last();
    lemma_last_index_of(d, defs.last().0);
    if last_index_of(d, defs.last().0) >= 0 {
        let i = last_index_of(d, defs.last().0);
        assert(defs[i].0 == defs[defs.len() - 1].0);
    }
}

proof fn lemma_merge_defaults_entries(
    defs: Seq<(KeyAction, Seq<KeyEx>)>,
    k2a: Seq<(KeyEx, KeyAction)>,
    a2k: Seq<(KeyAction, Seq<KeyEx>)>,
    a: KeyAction,
)
    requires
        merge_defaults(defs, k2a, a2k) is Ok,
        distinct_firsts(defs),
        forall|i: int| 0 <= i < defs.len() ==> (#[trigger] defs[i]).1.len() > 0,
    ensures
        lookup(merge_defaults(defs, k2a, a2k)->Ok_0.1, a) == (if lookup(a2k, a) is Some {
            lookup(a2k, a)
        } else {
            lookup(defs, a)
        }),
    decreases defs.len(),
{
    if defs.len() > 0 {
        let rest = defs.drop_last();
        lemma_distinct_drop_last(defs);
        assert forall|i: int| 0 <= i < rest.len() implies (#[trigger] rest[i]).1.len() > 0 by {
            assert(rest[i] == defs[i]);
        }
        let (b, keys) = defs.last();
        lemma_merge_defaults_entries(rest, k2a, a2k, a);
        lemma_merge_defaults_entries(rest, k2a, a2k, b);
        let (k1, a1) = merge_defaults(rest, k2a, a2k)->Ok_0;
        assert(defs[defs.len() - 1].1.len() > 0);
        if a != b {
            lemma_lookup_drop_last_other(defs, a);
        }
        if lookup(a1, b) is None {
            lemma_add_default_keys_entries(b, keys, k1, a1, a);
        }
    }
}

proof fn lemma_keymap_from_entries(pairs: Seq<(KeyEx, KeyAction)>)
    ensures
        distinct_firsts(keymap_from(pairs).1),
        forall|i: int| 0 <= i < keymap_from(pairs).1.len() ==> (#[trigger] keymap_from(pairs).1[i]).1.len() > 0,
    decreases pairs.len(),
{
    if pairs.len() > 0 {
        lemma_keymap_from_entries(pairs.drop_last());
        let a2k = keymap_from(pairs.drop_last()).1;
        let p = pairs.last();
        lemma_append_key_distinct(a2k, p.1, p.0);
        lemma_last_index_of(a2k, p.1);
    }
}

/// In a section of the configuration (`[keys]` or `[text]`), an action that some line names
/// gets exactly the keys that its lines give, in their order, and none of its default keys
/// (none at all after `unbind`); an action that no line names keeps its default keys.
pub proof fn lemma_section_keys(parsed: Seq<(Option<KeyEx>, KeyAction)>, defaults: Seq<(KeyEx, KeyAction)>, a: KeyAction)
    requires
        merge_section(parsed, keymap_from(defaults).1) is Ok,
    ensures
        lookup(merge_section(parsed, keymap_from(defaults).1)->Ok_0.1, a) == (if mentions(parsed, a) {
            Some(user_keys(parsed, a))
        } else {
            lookup(keymap_from(defaults).1, a)
        }),
{
    let defs = keymap_from(defaults).1;
    lemma_keymap_from_entries(defaults);
    lemma_merge_user_entries(parsed, a);
    let (k2a, a2k) = merge_user(parsed)->Ok_0;
    lemma_merge_defaults_entries(defs, k2a, a2k, a);
}

/// What a configuration file that is accepted does to the keys of an action, in each of the
/// two sections: an action named in the section gets the keys given there, in their order (none
/// after `unbind`), in place of its default keys; an action not named keeps its default keys.
pub proof fn lemma_config_keys(text: Seq<char>, a: KeyAction)
    requires
        parse_config_spec(text) is Ok,
    ensures
        ({
            let st = scan_config(lines(text), config_start())->Ok_0;
            let r = parse_config_spec(text)->Ok_0;
            &&& lookup(r.0.1, a) == (if mentions(st.keys, a) {
                Some(user_keys(st.keys, a))
            } else {
                lookup(keymap_from(default_normal_pairs()).1, a)
            })
            &&& lookup(r.1.1, a) == (if mentions(st.text, a) {
                Some(user_keys(st.text, a))
            } else {
                lookup(keymap_from(default_text_pairs()).1, a)
            })
        }),
{
    let st = scan_config(lines(text), config_start())->Ok_0;
    lemma_section_keys(st.keys, default_normal_pairs(), a);
    lemma_section_keys(st.text, default_text_pairs(), a);
}

impl KeyBinds {
    /// Reads the key binding configuration `text` (see `parse_config_spec`). On return
    /// `error_line_number` is the number of the line read last (see `config_line_number`).
    pub fn parse_config(text: &str, error_line_number: &mut usize) -> (r: Result<KeyBinds, ConfigError>)
        requires
            text.spec_bytes().len() <= usize::MAX,
        ensures
            *final(error_line_number) == config_line_number(text@, *old(error_line_number) as int),
            match r {
                Ok(b) => parse_config_spec(text@) == Ok::<_, ConfigErrorSpec>((
                    (b.normal.key_pairs(), b.normal.action_entries()),
                    (b.text_input.key_pairs(), b.text_input.action_entries()),
                    b.vscroll_sensitivity,
                    b.hscroll_sensitivity,
                )) && b.normal.wf() && b.text_input.wf(),
                Err(e) => parse_config_spec(text@) == Err::<(
                    (Seq<(KeyEx, KeyAction)>, Seq<(KeyAction, Seq<KeyEx>)>),
                    (Seq<(KeyEx, KeyAction)>, Seq<(KeyAction, Seq<KeyEx>)>),
                    isize,
                    isize,
                ), ConfigErrorSpec>(e@),
            },
    {
        let res = KeyBinds::default();
        let ls = str_lines(text);
        let ghost lv = ls@.map_values(|l: &str| l@);
        let mut section = ConfigSection::Keys;
        let mut keys: Vec<(Option<KeyEx>, KeyAction)> = Vec::new();
        let mut text_keys: Vec<(Option<KeyEx>, KeyAction)> = Vec::new();
        let mut vscroll: isize = res.vscroll_sensitivity;
        let mut hscroll: isize = res.hscroll_sensitivity;
        let mut i: usize = 0;
        proof {
            assert(lv.subrange(0, lv.len() as int) =~= lv);
        }
        while i < ls.len()
            invariant
                lv == ls@.map_values(|l: &str| l@),
                lv == lines(text@),
                i <= ls@.len(),
                text.spec_bytes().len() <= usize::MAX,
                forall|j: int| 0 <= j < ls@.len() ==> (#[trigger] ls@[j]).spec_bytes().len() <= usize::MAX,
                scan_config(lv, config_start()) == match scan_config(
                    lv.subrange(i as int, lv.len() as int),
                    ConfigScan { section, keys: keys@, text: text_keys@, vscroll, hscroll },
                ) {
                    Ok(x) => Ok(x),
                    Err((j, e)) => Err((j + i, e)),
                },
                i > 0 ==> *error_line_number == i,
                i == 0 ==> *error_line_number == *old(error_line_number),
            decreases ls@.len() - i,
        {
            *error_line_number = i + 1;
            let ghost rest = lv.subrange(i as int, lv.len() as int);
            proof {
                assert(rest[0] == ls@[i as int]@);
                assert(rest.drop_first() =~= lv.subrange(i + 1, lv.len() as int));
            }
            let cl = match parse_config_line(ls[i], section) {
                Ok(cl) => cl,
                Err(e) => {
                    return Err(e);
                },
            };
            match cl {
                ConfigLine::Skip => {},
                ConfigLine::Section(sec) => {
                    section = sec;
                },
                ConfigLine::VerticalScroll(v) => {
                    vscroll = v;
                },
                ConfigLine::HorizontalScroll(h) => {
                    hscroll = h;
                },
                ConfigLine::Bind(a, k) => {
                    if section == ConfigSection::Keys {
                        keys.push((k, a));
                    } else {
                        text_keys.push((k, a));
                    }
                },
            }
            i = i + 1;
        }
        proof {
            assert(lv.subrange(i as int, lv.len() as int) =~= Seq::<Seq<char>>::empty());
        }
        let normal = match merge_section_maps(&keys, &res.normal) {
            Ok(m) => m,
            Err(e) => {
                return Err(e);
            },
        };
        let text_input = match merge_section_maps(&text_keys, &res.text_input) {
            Ok(m) => m,
            Err(e) => {
                return Err(e);
            },
        };
        Ok(KeyBinds { normal, text_input, vscroll_sensitivity: vscroll, hscroll_sensitivity: hscroll })
    }
}

/// The maps of a section from its bindings and the default map (see `merge_section`).
fn merge_section_maps(parsed: &Vec<(Option<KeyEx>, KeyAction)>, defaults: &KeyMap) -> (r: Result<KeyMap, ConfigError>)
    ensures
        match r {
            Ok(m) => m.wf() && merge_section(parsed@, defaults.action_entries()) == Ok::<_, ConfigErrorSpec>((m.key_pairs(), m.action_entries())),
            Err(e) => merge_section(parsed@, defaults.action_entries()) == Err::<(Seq<(KeyEx, KeyAction)>, Seq<(KeyAction, Seq<KeyEx>)>), ConfigErrorSpec>(e@),
        },
{
    let mut m = KeyMap::empty();
    let mut i: usize = 0;
    while i < parsed.len()
        invariant
            i <= parsed@.len(),
            m.wf(),
            merge_user(parsed@.subrange(0, i as int)) == Ok::<_, ConfigErrorSpec>((m.key_pairs(), m.action_entries())),
        decreases parsed@.len() - i,
    {
        let (key, a) = parsed[i];
        proof {
            assert(parsed@.subrange(0, i + 1).drop_last() =~= parsed@.subrange(0, i as int));
        }
        match key {
            Some(k) => {
                match m.key_action(k) {
                    Some(a0) => {
                        proof {
                            assert(merge_user(parsed@.subrange(0, i + 1)) == Err::<(Seq<(KeyEx, KeyAction)>, Seq<(KeyAction, Seq<KeyEx>)>), ConfigErrorSpec>(ConfigErrorSpec::KeyAssignedTwice(k, a0, a)));
                            lemma_merge_user_err_prefix(parsed@, i + 1);
                        }
                        return Err(ConfigError::KeyAssignedTwice(k, a0, a));
                    },
                    None => {
                        m.set_key(k, a);
                        m.add_key(a, k);
                    },
                }
            },
            None => {
                // `unbind`: an entry without keys keeps the default keys out.
                m.add_entry(a);
            },
        }
        i = i + 1;
    }
    proof {
        assert(parsed@.subrange(0, i as int) =~= parsed@);
    }
    let ghost user = (m.key_pairs(), m.action_entries());
    let ghost defs = defaults.action_entries();
    let mut d: usize = 0;
    while d < defaults.action_to_keys.len()
        invariant
            d <= defaults.action_to_keys@.len(),
            defs == defaults.action_entries(),
            m.wf(),
            merge_user(parsed@) == Ok::<_, ConfigErrorSpec>(user),
            merge_defaults(defs.subrange(0, d as int), user.0, user.1) == Ok::<_, ConfigErrorSpec>((m.key_pairs(), m.action_entries())),
        decreases defaults.action_to_keys@.len() - d,
    {
        let a = defaults.action_to_keys[d].0;
        let dkeys = &defaults.action_to_keys[d].1;
        proof {
            assert(defs.subrange(0, d + 1).drop_last() =~= defs.subrange(0, d as int));
            assert(defs[d as int] == (a, dkeys@));
        }
        if m.action_keys(a).is_none() {
            let ghost start = (m.key_pairs(), m.action_entries());
            let mut j: usize = 0;
            while j < dkeys.len()
                invariant
                    j <= dkeys@.len(),
                    m.wf(),
                    d < defaults.action_to_keys@.len(),
                    defs == defaults.action_entries(),
                    defs[d as int] == (a, dkeys@),
                    merge_user(parsed@) == Ok::<_, ConfigErrorSpec>(user),
                    merge_defaults(defs.subrange(0, d as int), user.0, user.1) == Ok::<_, ConfigErrorSpec>(start),
                    lookup(start.1, a) is None,
                    add_default_keys(a, dkeys@.subrange(0, j as int), start.0, start.1) == Ok::<_, ConfigErrorSpec>((m.key_pairs(), m.action_entries())),
                decreases dkeys@.len() - j,
            {
                let k = dkeys[j];
                proof {
                    assert(dkeys@.subrange(0, j + 1).drop_last() =~= dkeys@.subrange(0, j as int));
                }
                match m.key_action(k) {
                    Some(a0) => {
                        proof {
                            let e = ConfigErrorSpec::ConflictsWithDefault(k, a0, a);
                            assert(add_default_keys(a, dkeys@.subrange(0, j + 1), start.0, start.1) == Err::<(Seq<(KeyEx, KeyAction)>, Seq<(KeyAction, Seq<KeyEx>)>), ConfigErrorSpec>(e));
                            lemma_add_default_keys_err_prefix(a, dkeys@, j + 1, start.0, start.1);
                            assert(d < defs.len());
                            assert(defs.subrange(0, d + 1).drop_last() =~= defs.subrange(0, d as int));
                            assert(defs.subrange(0, d + 1).last() == (a, dkeys@));
                            assert(merge_defaults(defs.subrange(0, d + 1), user.0, user.1) == Err::<(Seq<(KeyEx, KeyAction)>, Seq<(KeyAction, Seq<KeyEx>)>), ConfigErrorSpec>(e));
                            lemma_merge_defaults_err_prefix(defs, d + 1, user.0, user.1);
                        }
                        return Err(ConfigError::ConflictsWithDefault(k, a0, a));
                    },
                    None => {
                        m.set_key(k, a);
                        m.add_key(a, k);
                    },
                }
                j = j + 1;
            }
            proof {
                assert(dkeys@.subrange(0, j as int) =~= dkeys@);
            }
        }
        d = d + 1;
    }
    proof {
        assert(defs.subrange(0, d as int) =~= defs);
    }
    Ok(m)
}

proof fn lemma_merge_user_err_prefix(parsed: Seq<(Option<KeyEx>, KeyAction)>, i: int)
    requires
        0 <= i <= parsed.len(),
        merge_user(parsed.subrange(0, i)) is Err,
    ensures
        merge_user(parsed) == merge_user(parsed.subrange(0, i)),
    decreases parsed.len() - i,
{
    if i < parsed.len() {
        assert(parsed.drop_last().subrange(0, i) =~= parsed.subrange(0, i));
        lemma_merge_user_err_prefix(parsed.drop_last(), i);
    } else {
        assert(parsed.subrange(0, i) =~= parsed);
    }
}

proof fn lemma_add_default_keys_err_prefix(
    a: KeyAction,
    keys: Seq<KeyEx>,
    j: int,
    k2a: Seq<(KeyEx, KeyAction)>,
    a2k: Seq<(KeyAction, Seq<KeyEx>)>,
)
    requires
        0 <= j <= keys.len(),
        add_default_keys(a, keys.subrange(0, j), k2a, a2k) is Err,
    ensures
        add_default_keys(a, keys, k2a, a2k) == add_default_keys(a, keys.subrange(0, j), k2a, a2k),
    decreases keys.len() - j,
{
    if j < keys.len() {
        assert(keys.drop_last().subrange(0, j) =~= keys.subrange(0, j));
        lemma_add_default_keys_err_prefix(a, keys.drop_last(), j, k2a, a2k);
    } else {
        assert(keys.subrange(0, j) =~= keys);
    }
}

proof fn lemma_merge_defaults_err_prefix(
    defs: Seq<(KeyAction, Seq<KeyEx>)>,
    d: int,
    k2a: Seq<(KeyEx, KeyAction)>,
    a2k: Seq<(KeyAction, Seq<KeyEx>)>,
)
    requires
        0 <= d <= defs.len(),
        merge_defaults(defs.subrange(0, d), k2a, a2k) is Err,
    ensures
        merge_defaults(defs, k2a, a2k) == merge_defaults(defs.subrange(0, d), k2a, a2k),
    decreases defs.len() - d,
{
    if d < defs.len() {
        assert(defs.drop_last().subrange(0, d) =~= defs.subrange(0, d));
        lemma_merge_defaults_err_prefix(defs.drop_last(), d, k2a, a2k);
    } else {
        assert(defs.subrange(0, d) =~= defs);
    }
}

// ---------------------------------------------------------------------------------------------
// The example configuration file.

/// The header of the example configuration, naming the real configuration file, the example
/// and the file that receives error messages; it ends with the `[keys]` section header.
pub open spec fn example_header(config_file: Seq<char>, example: Seq<char>, error_file: Seq<char>) -> Seq<char> {
    "# Example key bindings configuration.\n\n# This file is autogenerated and overwritten on debugger startup. Don't edit it.\n# The real config file should be placed at: "@ + config_file + "\n# You may `cp "@ + example + " "@ + config_file + "` and edit "@ + config_file + "\n#\n# If the debugger fails to parse the config file, a file with error message will be created at: "@ + error_file + "\n# The config is reloaded on the fly, no restart needed, just save the file.\n#\n# The basic syntax is: \"action: key\", e.g. \"Find: C-f\"\n# All action names can be found in this config.\n#\n# Key names can be discovered using `nnd --echo-input`. It's highly recommended to use it to check every key combination beforehand; if you use incorrect name, it may silently fail to work.\n# Many key combinations are unavailable or indistinguishable in terminal (e.g. tab, ctrl+tab, and ctrl+i all send the same control sequence).\n# Prefixes: C- - ctrl, M- - alt.\n# For shift+key combination, use capital letter, e.g. \"X\" for shift+x. Prefix S- can be used for some keys that don't have capital-letter versions, e.g. \"S-F3\" is shift+F3.\n#\n# To have multiple keys for the same action, use multiple lines with the same \"action: \" part.\n# If an action is not listed, default key(s) for it are used. Assigning key(s) to an action overrides all default keys for that action.\n# To remove default keys for an action without assigning a new key, use \"unbind\" as the key, e.g. \"Find: unbind\".\n# Assigning the same key to multiple actions within the same section ([keys] or [text]) is not allowed.\n#\n# All lines here are commented out ('#') (except section names). Uncomment them in the real config to apply.\n\n[keys]\n"@
}

/// The lines binding each of `keys` to action `a`.
pub open spec fn binding_lines(prefix: Seq<char>, a: KeyAction, keys: Seq<KeyEx>) -> Seq<char>
    decreases keys.len(),
{
    if keys.len() == 0 {
        Seq::empty()
    } else {
        binding_lines(prefix, a, keys.drop_last()) + prefix + action_name(a) + ": "@ + crate::keys::key_ex_name(keys.last()) + "\n"@
    }
}

/// The `[keys]` lines for the first `n` actions: the default keys of each action that is not
/// a text input action, or `unbind` for one without default keys.
pub open spec fn normal_lines(
    prefix: Seq<char>,
    normal: Seq<(KeyAction, Seq<KeyEx>)>,
    text: Seq<(KeyAction, Seq<KeyEx>)>,
    n: int,
) -> Seq<char>
    decreases n,
{
    if n <= 0 {
        Seq::empty()
    } else {
        let a = all_actions()[n - 1];
        normal_lines(prefix, normal, text, n - 1) + if lookup(text, a) is Some {
            Seq::empty()
        } else {
            match lookup(normal, a) {
                None => prefix + action_name(a) + ": unbind\n"@,
                Some(keys) => binding_lines(prefix, a, keys),
            }
        }
    }
}

/// The `[text]` lines for the first `n` actions: the default keys of each text input action.
pub open spec fn text_lines(prefix: Seq<char>, text: Seq<(KeyAction, Seq<KeyEx>)>, n: int) -> Seq<char>
    decreases n,
{
    if n <= 0 {
        Seq::empty()
    } else {
        let a = all_actions()[n - 1];
        text_lines(prefix, text, n - 1) + match lookup(text, a) {
            None => Seq::empty(),
            Some(keys) => binding_lines(prefix, a, keys),
        }
    }
}

/// Decimal representation of `v`, with a `-` if it is negative.
pub open spec fn isize_chars(v: isize) -> Seq<char> {
    if v < 0 {
        seq!['-'] + crate::keys::dec_chars((-v) as nat)
    } else {
        crate::keys::dec_chars(v as nat)
    }
}

/// The example configuration: the default key bindings and settings, every line but the
/// section headers commented out if `comment_out`.
pub open spec fn example_config(config_file: Seq<char>, example: Seq<char>, error_file: Seq<char>, comment_out: bool) -> Seq<char> {
    let prefix = if comment_out { "# "@ } else { ""@ };
    let normal = keymap_from(default_normal_pairs()).1;
    let text = keymap_from(default_text_pairs()).1;
    example_header(config_file, example, error_file) + normal_lines(prefix, normal, text, num_actions() as int)
        + "\n\n# These keys apply during text editing.\n[text]\n"@ + text_lines(prefix, text, num_actions() as int)
        + "\n\n# Some settings that are not actually key binds.\n[settings]\n"@ + prefix + "vertical_scroll_sensitivity: "@
        + isize_chars(4) + "\n"@ + prefix + "horizontal_scroll_sensitivity: "@ + isize_chars(20) + "\n"@
}

/// Appends the lines binding each of `keys` to action `a`.
fn write_bindings(out: &mut String, prefix: &str, a: KeyAction, keys: &Vec<KeyEx>)
    ensures
        final(out)@ == old(out)@ + binding_lines(prefix@, a, keys@),
{
    let mut j: usize = 0;
    while j < keys.len()
        invariant
            j <= keys@.len(),
            out@ == old(out)@ + binding_lines(prefix@, a, keys@.subrange(0, j as int)),
        decreases keys@.len() - j,
    {
        let ghost before = out@;
        out.append(prefix);
        out.append(a.name());
        out.append(": ");
        let name = keys[j].name();
        out.append(name.as_str());
        out.append("\n");
        proof {
            assert(keys@.subrange(0, j + 1).drop_last() =~= keys@.subrange(0, j as int));
            assert(out@ =~= old(out)@ + binding_lines(prefix@, a, keys@.subrange(0, j + 1)));
        }
        j = j + 1;
    }
    proof {
        assert(keys@.subrange(0, j as int) =~= keys@);
    }
}

/// Appends the decimal representation of `v`.
fn write_isize(out: &mut String, v: isize)
    ensures
        final(out)@ == old(out)@ + isize_chars(v),
{
    if v < 0 {
        out.append("-");
        proof {
            reveal_strlit("-");
            assert("-"@ =~= seq!['-']);
        }
        let m: u64 = if v == isize::MIN { (isize::MAX as u64) + 1 } else { (-v) as u64 };
        proof {
            assert(m as nat == (-v) as nat);
        }
        crate::keys::push_dec_chars_u64(out, m);
        proof {
            assert(out@ =~= old(out)@ + isize_chars(v));
        }
    } else {
        crate::keys::push_dec_chars_u64(out, v as u64);
    }
}

/// Appends the header of the example configuration (see `example_header`).
fn write_example_header(out: &mut String, real_config_path: &str, example_path: &str, error_file_path: &str)
    ensures
        final(out)@ == old(out)@ + example_header(real_config_path@, example_path@, error_file_path@),
{
        out.append("# Example key bindings configuration.\n\n# This file is autogenerated and overwritten on debugger startup. Don't edit it.\n# The real config file should be placed at: ");
        out.append(real_config_path);
        out.append("\n# You may `cp ");
        out.append(example_path);
        out.append(" ");
        out.append(real_config_path);
        out.append("` and edit ");
        out.append(real_config_path);
        out.append("\n#\n# If the debugger fails to parse the config file, a file with error message will be created at: ");
        out.append(error_file_path);
        out.append("\n# The config is reloaded on the fly, no restart needed, just save the file.\n#\n# The basic syntax is: \"action: key\", e.g. \"Find: C-f\"\n# All action names can be found in this config.\n#\n# Key names can be discovered using `nnd --echo-input`. It's highly recommended to use it to check every key combination beforehand; if you use incorrect name, it may silently fail to work.\n# Many key combinations are unavailable or indistinguishable in terminal (e.g. tab, ctrl+tab, and ctrl+i all send the same control sequence).\n# Prefixes: C- - ctrl, M- - alt.\n# For shift+key combination, use capital letter, e.g. \"X\" for shift+x. Prefix S- can be used for some keys that don't have capital-letter versions, e.g. \"S-F3\" is shift+F3.\n#\n# To have multiple keys for the same action, use multiple lines with the same \"action: \" part.\n# If an action is not listed, default key(s) for it are used. Assigning key(s) to an action overrides all default keys for that action.\n# To remove default keys for an action without assigning a new key, use \"unbind\" as the key, e.g. \"Find: unbind\".\n# Assigning the same key to multiple actions within the same section ([keys] or [text]) is not allowed.\n#\n# All lines here are commented out ('#') (except section names). Uncomment them in the real config to apply.\n\n[keys]\n");
    proof {
        assert(out@ =~= old(out)@ + example_header(real_config_path@, example_path@, error_file_path@));
    }
}

/// Appends the `[keys]` lines (see `normal_lines`).
fn write_normal_lines(out: &mut String, prefix: &str, binds: &KeyBinds)
    ensures
        final(out)@ == old(out)@ + normal_lines(prefix@, binds.normal.action_entries(), binds.text_input.action_entries(), num_actions() as int),
{
    let ghost normal = binds.normal.action_entries();
    let ghost text = binds.text_input.action_entries();
    let ghost start = out@;
    let mut i: usize = 0;
    while i < 75
        invariant
            i <= num_actions(),
            normal == binds.normal.action_entries(),
            text == binds.text_input.action_entries(),
            out@ == start + normal_lines(prefix@, normal, text, i as int),
        decreases 75 - i,
    {
        let a = KeyAction::from_index(i);
        if binds.text_input.action_keys(a).is_none() {
            match binds.normal.action_keys(a) {
                None => {
                    out.append(prefix);
                    out.append(a.name());
                    out.append(": unbind\n");
                },
                Some(keys) => {
                    write_bindings(out, prefix, a, keys);
                },
            }
        }
        proof {
            assert(out@ =~= start + normal_lines(prefix@, normal, text, i + 1));
        }
        i = i + 1;
    }
}

/// Appends the `[text]` lines (see `text_lines`).
fn write_text_lines(out: &mut String, prefix: &str, binds: &KeyBinds)
    ensures
        final(out)@ == old(out)@ + text_lines(prefix@, binds.text_input.action_entries(), num_actions() as int),
{
    let ghost text = binds.text_input.action_entries();
    let ghost start = out@;
    let mut i: usize = 0;
    while i < 75
        invariant
            i <= num_actions(),
            text == binds.text_input.action_entries(),
            out@ == start + text_lines(prefix@, text, i as int),
        decreases 75 - i,
    {
        let a = KeyAction::from_index(i);
        match binds.text_input.action_keys(a) {
            None => {},
            Some(keys) => {
                write_bindings(out, prefix, a, keys);
            },
        }
        proof {
            assert(out@ =~= start + text_lines(prefix@, text, i + 1));
        }
        i = i + 1;
    }
}

impl KeyBinds {
    /// Appends the example configuration (see `example_config`), naming the real
    /// configuration file, the example itself and the file for error messages.
    pub fn write_config_example(out: &mut String, real_config_path: &str, example_path: &str, error_file_path: &str, comment_out: bool)
        ensures
            final(out)@ == old(out)@ + example_config(real_config_path@, example_path@, error_file_path@, comment_out),
    {
        write_example_header(out, real_config_path, example_path, error_file_path);
        let ghost after_header = out@;
        let prefix = if comment_out { "# " } else { "" };
        let binds = KeyBinds::default();
        write_normal_lines(out, prefix, &binds);
        out.append("\n\n# These keys apply during text editing.\n[text]\n");
        let ghost after_normal = out@;
        write_text_lines(out, prefix, &binds);
        let ghost after_text = out@;
        out.append("\n\n# Some settings that are not actually key binds.\n[settings]\n");
        out.append(prefix);
        out.append("vertical_scroll_sensitivity: ");
        write_isize(out, binds.vscroll_sensitivity);
        out.append("\n");
        out.append(prefix);
        out.append("horizontal_scroll_sensitivity: ");
        write_isize(out, binds.hscroll_sensitivity);
        out.append("\n");
        proof {
            assert(out@ =~= old(out)@ + example_config(real_config_path@, example_path@, error_file_path@, comment_out));
        }
    }
}

/// Two maps are equal when they give every key the same action and every action the same
/// keys, whatever the order of their entries.
pub open spec fn same_keymap(a: KeyMap, b: KeyMap) -> bool {
    &&& forall|k: KeyEx| #[trigger] lookup(a.key_pairs(), k) == lookup(b.key_pairs(), k)
    &&& forall|x: KeyAction| #[trigger] lookup(a.action_entries(), x) == lookup(b.action_entries(), x)
}

/// Whether every key of `a` has the same action in `b`.
fn keys_agree(a: &KeyMap, b: &KeyMap) -> (r: bool)
    ensures
        r == forall|i: int| 0 <= i < a.key_pairs().len() ==> lookup(a.key_pairs(), #[trigger] a.key_pairs()[i].0) == lookup(b.key_pairs(), a.key_pairs()[i].0),
{
    let mut i: usize = 0;
    while i < a.key_to_action.len()
        invariant
            i <= a.key_pairs().len(),
            forall|j: int| 0 <= j < i ==> lookup(a.key_pairs(), #[trigger] a.key_pairs()[j].0) == lookup(b.key_pairs(), a.key_pairs()[j].0),
        decreases a.key_pairs().len() - i,
    {
        let k = a.key_to_action[i].0;
        if a.key_action(k) != b.key_action(k) {
            return false;
        }
        i = i + 1;
    }
    true
}

/// Whether every action with an entry in `a` has the same keys in `b`.
fn actions_agree(a: &KeyMap, b: &KeyMap) -> (r: bool)
    ensures
        r == forall|i: int| 0 <= i < a.action_entries().len() ==> lookup(a.action_entries(), #[trigger] a.action_entries()[i].0) == lookup(b.action_entries(), a.action_entries()[i].0),
{
    let mut i: usize = 0;
    while i < a.action_to_keys.len()
        invariant
            i <= a.action_entries().len(),
            forall|j: int| 0 <= j < i ==> lookup(a.action_entries(), #[trigger] a.action_entries()[j].0) == lookup(b.action_entries(), a.action_entries()[j].0),
        decreases a.action_entries().len() - i,
    {
        let x = a.action_to_keys[i].0;
        proof {
            assert(a.action_entries()[i as int].0 == x);
        }
        let ka = a.action_keys(x);
        let kb = b.action_keys(x);
        let same = match (ka, kb) {
            (None, None) => true,
            (Some(u), Some(v)) => keys_eq(u, v),
            _ => false,
        };
        if !same {
            return false;
        }
        i = i + 1;
    }
    true
}

/// Whether two key lists are equal.
fn keys_eq(u: &Vec<KeyEx>, v: &Vec<KeyEx>) -> (r: bool)
    ensures
        r == (u@ == v@),
{
    if u.len() != v.len() {
        return false;
    }
    let mut i: usize = 0;
    while i < u.len()
        invariant
            u@.len() == v@.len(),
            i <= u@.len(),
            forall|j: int| 0 <= j < i ==> u@[j] == v@[j],
        decreases u@.len() - i,
    {
        if u[i] != v[i] {
            return false;
        }
        i = i + 1;
    }
    proof {
        assert(u@ =~= v@);
    }
    true
}

proof fn lemma_lookup_absent<K, V>(s: Seq<(K, V)>, k: K)
    requires
        forall|i: int| 0 <= i < s.len() ==> s[i].0 != k,
    ensures
        lookup(s, k) is None,
    decreases s.len(),
{
    if s.len() > 0 {
        assert(s.last() == s[s.len() - 1]);
        assert forall|i: int| 0 <= i < s.drop_last().len() implies s.drop_last()[i].0 != k by {
            assert(s.drop_last()[i] == s[i]);
        }
        lemma_lookup_absent(s.drop_last(), k);
    }
}

/// The keys that `a2k` gives action `a` (none if it has no entry).
pub open spec fn keys_of(a2k: Seq<(KeyAction, Seq<KeyEx>)>, a: KeyAction) -> Seq<KeyEx> {
    match lookup(a2k, a) {
        Some(ks) => ks,
        None => Seq::empty(),
    }
}

/// The action of the last entry of `defs` whose keys contain `x`.
pub open spec fn owner(defs: Seq<(KeyAction, Seq<KeyEx>)>, x: KeyEx) -> Option<KeyAction>
    decreases defs.len(),
{
    if defs.len() == 0 {
        None
    } else if defs.last().1.contains(x) {
        Some(defs.last().0)
    } else {
        owner(defs.drop_last(), x)
    }
}

/// No key is in the lists of two entries of `defs`, and no list holds a key twice.
pub open spec fn disjoint_keys(defs: Seq<(KeyAction, Seq<KeyEx>)>) -> bool {
    &&& forall|i: int, j: int, x: KeyEx|
        0 <= i < j < defs.len() && #[trigger] defs[i].1.contains(x) ==> !#[trigger] defs[j].1.contains(x)
    &&& forall|i: int| 0 <= i < defs.len() ==> (#[trigger] defs[i]).1.no_duplicates()
}

proof fn lemma_lookup_distinct<V>(s: Seq<(KeyAction, V)>, i: int)
    requires
        distinct_firsts(s),
        0 <= i < s.len(),
    ensures
        lookup(s, s[i].0) == Some(s[i].1),
{
    lemma_last_index_of(s, s[i].0);
}

/// The two maps built from pairs with distinct keys: a key is looked up to the action it was
/// paired with, an action's keys are those paired with it, each once.
proof fn lemma_keymap_from_binds(pairs: Seq<(KeyEx, KeyAction)>)
    requires
        distinct_firsts(pairs),
    ensures
        forall|x: KeyEx| #[trigger] lookup(keymap_from(pairs).0, x) is Some ==> pairs.contains(
            (x, lookup(keymap_from(pairs).0, x)->0),
        ),
        forall|x: KeyEx, a: KeyAction| #[trigger] pairs.contains((x, a)) ==> lookup(keymap_from(pairs).0, x) == Some(a),
        forall|x: KeyEx, a: KeyAction|
            #![trigger keys_of(keymap_from(pairs).1, a).contains(x)]
            #![trigger pairs.contains((x, a))]
            keys_of(keymap_from(pairs).1, a).contains(x) <==> pairs.contains((x, a)),
        forall|a: KeyAction| #[trigger] keys_of(keymap_from(pairs).1, a).no_duplicates(),
    decreases pairs.len(),
{
    if pairs.len() > 0 {
        let rest = pairs.drop_last();
        assert(distinct_firsts(rest)) by {
            assert forall|i: int, j: int| 0 <= i < j < rest.len() implies rest[i].0 != rest[j].0 by {
                assert(rest[i] == pairs[i] && rest[j] == pairs[j]);
            }
        }
        lemma_keymap_from_binds(rest);
        let (k2a, a2k) = keymap_from(rest);
        let (k, b) = pairs.last();
        assert(pairs[pairs.len() - 1] == (k, b));
        assert(forall|x: KeyEx, a: KeyAction| #[trigger] rest.contains((x, a)) ==> x != k) by {
            assert forall|x: KeyEx, a: KeyAction| #[trigger] rest.contains((x, a)) implies x != k by {
                let i = choose|i: int| 0 <= i < rest.len() && rest[i] == (x, a);
                assert(pairs[i] == rest[i]);
            }
        }
        assert forall|x: KeyEx, a: KeyAction| #[trigger] pairs.contains((x, a)) <==> (rest.contains((x, a)) || (x, a) == (k, b)) by {
            if pairs.contains((x, a)) {
                let i = choose|i: int| 0 <= i < pairs.len() && pairs[i] == (x, a);
                if i < pairs.len() - 1 {
                    assert(rest[i] == pairs[i]);
                }
            }
            if rest.contains((x, a)) {
                let i = choose|i: int| 0 <= i < rest.len() && rest[i] == (x, a);
                assert(pairs[i] == rest[i]);
            }
        }
        assert forall|x: KeyEx| #[trigger] lookup(keymap_from(pairs).0, x) is Some implies pairs.contains(
            (x, lookup(keymap_from(pairs).0, x)->0),
        ) by {
            lemma_set_key_then_lookup(k2a, k, b, x);
        }
        assert forall|x: KeyEx, a: KeyAction| #[trigger] pairs.contains((x, a)) implies lookup(keymap_from(pairs).0, x) == Some(a) by {
            lemma_set_key_then_lookup(k2a, k, b, x);
        }
        assert forall|x: KeyEx, a: KeyAction|
            #![trigger keys_of(keymap_from(pairs).1, a).contains(x)]
            #![trigger pairs.contains((x, a))]
            keys_of(keymap_from(pairs).1, a).contains(x) <==> pairs.contains((x, a)) by {
            lemma_add_key_then_lookup(a2k, b, k, a);
            if a == b {
                let old = keys_of(a2k, b);
                assert(keys_of(keymap_from(pairs).1, a) =~= old.push(k));
                assert(old.push(k).contains(x) <==> (old.contains(x) || x == k)) by {
                    if old.push(k).contains(x) {
                        let i = choose|i: int| 0 <= i < old.push(k).len() && old.push(k)[i] == x;
                        if i < old.len() {
                            assert(old[i] == x);
                        }
                    }
                    if old.contains(x) {
                        let i = choose|i: int| 0 <= i < old.len() && old[i] == x;
                        assert(old.push(k)[i] == x);
                    }
                    assert(old.push(k)[old.len() as int] == k);
                }
            }
        }
        assert forall|a: KeyAction| #[trigger] keys_of(keymap_from(pairs).1, a).no_duplicates() by {
            lemma_add_key_then_lookup(a2k, b, k, a);
            if a == b {
                let old = keys_of(a2k, b);
                assert(keys_of(keymap_from(pairs).1, a) =~= old.push(k));
                assert(!old.contains(k));
                assert(old.no_duplicates());
                assert forall|i: int, j: int| 0 <= i < old.push(k).len() && 0 <= j < old.push(k).len() && i != j
                    implies old.push(k)[i] != old.push(k)[j] by {
                    if i < old.len() && j < old.len() {
                        assert(old[i] == old.push(k)[i] && old[j] == old.push(k)[j]);
                    }
                    if i < old.len() && j == old.len() {
                        assert(old[i] == old.push(k)[i]);
                    }
                    if j < old.len() && i == old.len() {
                        assert(old[j] == old.push(k)[j]);
                    }
                }
                assert(old.push(k).no_duplicates());
            } else {
                assert(keys_of(keymap_from(pairs).1, a) == keys_of(a2k, a));
            }
        }
    }
}

proof fn lemma_add_default_keys_ok(
    a: KeyAction,
    keys: Seq<KeyEx>,
    k1: Seq<(KeyEx, KeyAction)>,
    a1: Seq<(KeyAction, Seq<KeyEx>)>,
)
    requires
        keys.no_duplicates(),
        forall|j: int| 0 <= j < keys.len() ==> lookup(k1, #[trigger] keys[j]) is None,
    ensures
        add_default_keys(a, keys, k1, a1) is Ok,
        forall|x: KeyEx| #[trigger] lookup(add_default_keys(a, keys, k1, a1)->Ok_0.0, x) == (if keys.contains(x) {
            Some(a)
        } else {
            lookup(k1, x)
        }),
    decreases keys.len(),
{
    if keys.len() > 0 {
        let rest = keys.drop_last();
        let k = keys.last();
        assert(keys[keys.len() - 1] == k);
        assert forall|j: int| 0 <= j < rest.len() implies lookup(k1, #[trigger] rest[j]) is None by {
            assert(rest[j] == keys[j]);
        }
        assert(rest.no_duplicates()) by {
            assert forall|i: int, j: int| 0 <= i < rest.len() && 0 <= j < rest.len() && i != j implies rest[i] != rest[j] by {
                assert(rest[i] == keys[i] && rest[j] == keys[j]);
            }
        }
        lemma_add_default_keys_ok(a, rest, k1, a1);
        let (k2, a2) = add_default_keys(a, rest, k1, a1)->Ok_0;
        assert(!rest.contains(k)) by {
            if rest.contains(k) {
                let i = choose|i: int| 0 <= i < rest.len() && rest[i] == k;
                assert(keys[i] == k);
            }
        }
        assert forall|x: KeyEx| #[trigger] lookup(add_default_keys(a, keys, k1, a1)->Ok_0.0, x) == (if keys.contains(x) {
            Some(a)
        } else {
            lookup(k1, x)
        }) by {
            lemma_set_key_then_lookup(k2, k, a, x);
            assert(keys.contains(x) <==> (rest.contains(x) || x == k)) by {
                if keys.contains(x) {
                    let i = choose|i: int| 0 <= i < keys.len() && keys[i] == x;
                    if i < rest.len() {
                        assert(rest[i] == x);
                    }
                }
                if rest.contains(x) {
                    let i = choose|i: int| 0 <= i < rest.len() && rest[i] == x;
                    assert(keys[i] == x);
                }
            }
        }
    }
}

proof fn lemma_owner_none(defs: Seq<(KeyAction, Seq<KeyEx>)>, x: KeyEx)
    requires
        forall|i: int| 0 <= i < defs.len() ==> !(#[trigger] defs[i]).1.contains(x),
    ensures
        owner(defs, x) is None,
    decreases defs.len(),
{
    if defs.len() > 0 {
        assert(defs[defs.len() - 1] == defs.last());
        assert forall|i: int| 0 <= i < defs.drop_last().len() implies !(#[trigger] defs.drop_last()[i]).1.contains(x) by {
            assert(defs.drop_last()[i] == defs[i]);
        }
        lemma_owner_none(defs.drop_last(), x);
    }
}

proof fn lemma_owner_some(defs: Seq<(KeyAction, Seq<KeyEx>)>, i: int, x: KeyEx)
    requires
        disjoint_keys(defs),
        0 <= i < defs.len(),
        defs[i].1.contains(x),
    ensures
        owner(defs, x) == Some(defs[i].0),
    decreases defs.len(),
{
    let n = defs.len() - 1;
    assert(defs[n] == defs.last());
    if i < n {
        assert(!defs[n].1.contains(x));
        let d = defs.drop_last();
        assert(disjoint_keys(d)) by {
            assert forall|a: int, b: int, y: KeyEx|
                0 <= a < b < d.len() && #[trigger] d[a].1.contains(y) implies !#[trigger] d[b].1.contains(y) by {
                assert(d[a] == defs[a] && d[b] == defs[b]);
            }
            assert forall|a: int| 0 <= a < d.len() implies (#[trigger] d[a]).1.no_duplicates() by {
                assert(d[a] == defs[a]);
            }
        }
        assert(d[i] == defs[i]);
        lemma_owner_some(d, i, x);
    }
}

/// Merging the default entries `defs` into empty maps succeeds when no key is in two lists,
/// and looks each key up to the action whose list holds it.
proof fn lemma_merge_defaults_ok(defs: Seq<(KeyAction, Seq<KeyEx>)>)
    requires
        distinct_firsts(defs),
        disjoint_keys(defs),
        forall|i: int| 0 <= i < defs.len() ==> (#[trigger] defs[i]).1.len() > 0,
    ensures
        merge_defaults(defs, Seq::empty(), Seq::empty()) is Ok,
        forall|x: KeyEx| #[trigger] lookup(merge_defaults(defs, Seq::empty(), Seq::empty())->Ok_0.0, x) == owner(defs, x),
    decreases defs.len(),
{
    if defs.len() > 0 {
        let rest = defs.drop_last();
        let n = defs.len() - 1;
        assert(defs[n] == defs.last());
        lemma_distinct_drop_last(defs);
        assert(disjoint_keys(rest)) by {
            assert forall|a: int, b: int, y: KeyEx|
                0 <= a < b < rest.len() && #[trigger] rest[a].1.contains(y) implies !#[trigger] rest[b].1.contains(y) by {
                assert(rest[a] == defs[a] && rest[b] == defs[b]);
            }
            assert forall|a: int| 0 <= a < rest.len() implies (#[trigger] rest[a]).1.no_duplicates() by {
                assert(rest[a] == defs[a]);
            }
        }
        assert forall|i: int| 0 <= i < rest.len() implies (#[trigger] rest[i]).1.len() > 0 by {
            assert(rest[i] == defs[i]);
        }
        lemma_merge_defaults_ok(rest);
        let (a, keys) = defs.last();
        lemma_merge_defaults_entries(rest, Seq::empty(), Seq::empty(), a);
        let (k1, a1) = merge_defaults(rest, Seq::empty(), Seq::empty())->Ok_0;
        assert(lookup(Seq::<(KeyAction, Seq<KeyEx>)>::empty(), a) is None);
        assert forall|j: int| 0 <= j < keys.len() implies lookup(k1, #[trigger] keys[j]) is None by {
            assert(keys.contains(keys[j]));
            assert forall|i: int| 0 <= i < rest.len() implies !(#[trigger] rest[i]).1.contains(keys[j]) by {
                assert(rest[i] == defs[i]);
            }
            lemma_owner_none(rest, keys[j]);
        }
        lemma_add_default_keys_ok(a, keys, k1, a1);
    }
}

/// The section maps built from no bindings are the default maps, key for key and action for
/// action, when the default pairs have distinct keys.
proof fn lemma_defaults_only(pairs: Seq<(KeyEx, KeyAction)>)
    requires
        distinct_firsts(pairs),
    ensures
        merge_section(Seq::empty(), keymap_from(pairs).1) is Ok,
        forall|x: KeyEx| #[trigger] lookup(merge_section(Seq::empty(), keymap_from(pairs).1)->Ok_0.0, x)
            == lookup(keymap_from(pairs).0, x),
        forall|a: KeyAction| #[trigger] lookup(merge_section(Seq::empty(), keymap_from(pairs).1)->Ok_0.1, a)
            == lookup(keymap_from(pairs).1, a),
{
    let defs = keymap_from(pairs).1;
    lemma_keymap_from_binds(pairs);
    lemma_keymap_from_entries(pairs);
    assert(disjoint_keys(defs)) by {
        assert forall|i: int, j: int, x: KeyEx|
            0 <= i < j < defs.len() && #[trigger] defs[i].1.contains(x) implies !#[trigger] defs[j].1.contains(x) by {
            lemma_lookup_distinct(defs, i);
            lemma_lookup_distinct(defs, j);
            assert(keys_of(defs, defs[i].0) == defs[i].1);
            assert(pairs.contains((x, defs[i].0)));
            if defs[j].1.contains(x) {
                assert(keys_of(defs, defs[j].0) == defs[j].1);
                assert(pairs.contains((x, defs[j].0)));
                assert(lookup(keymap_from(pairs).0, x) == Some(defs[i].0));
                assert(lookup(keymap_from(pairs).0, x) == Some(defs[j].0));
            }
        }
        assert forall|i: int| 0 <= i < defs.len() implies (#[trigger] defs[i]).1.no_duplicates() by {
            lemma_lookup_distinct(defs, i);
            assert(keys_of(defs, defs[i].0) == defs[i].1);
        }
    }
    lemma_merge_defaults_ok(defs);
    assert(merge_user(Seq::empty()) == Ok::<(Seq<(KeyEx, KeyAction)>, Seq<(KeyAction, Seq<KeyEx>)>), ConfigErrorSpec>((Seq::empty(), Seq::empty())));
    let r = merge_defaults(defs, Seq::empty(), Seq::empty())->Ok_0;
    assert forall|x: KeyEx| #[trigger] lookup(merge_section(Seq::empty(), keymap_from(pairs).1)->Ok_0.0, x)
        == lookup(keymap_from(pairs).0, x) by {
        let km0 = keymap_from(pairs).0;
        if lookup(km0, x) is Some {
            let a = lookup(km0, x)->0;
            assert(pairs.contains((x, a)));
            assert(keys_of(defs, a).contains(x));
            lemma_last_index_of(defs, a);
            let i = last_index_of(defs, a);
            assert(defs[i].1 == keys_of(defs, a));
            lemma_owner_some(defs, i, x);
        } else {
            assert forall|i: int| 0 <= i < defs.len() implies !(#[trigger] defs[i]).1.contains(x) by {
                lemma_lookup_distinct(defs, i);
                assert(keys_of(defs, defs[i].0) == defs[i].1);
                if defs[i].1.contains(x) {
                    assert(pairs.contains((x, defs[i].0)));
                }
            }
            lemma_owner_none(defs, x);
        }
    }
    assert forall|a: KeyAction| #[trigger] lookup(merge_section(Seq::empty(), keymap_from(pairs).1)->Ok_0.1, a)
        == lookup(keymap_from(pairs).1, a) by {
        lemma_merge_defaults_entries(defs, Seq::empty(), Seq::empty(), a);
    }
}

proof fn lemma_find_char_prefix(a: Seq<char>, b: Seq<char>, c: char, i: int)
    requires
        0 <= i,
        find_char(a, c, i) >= 0,
    ensures
        find_char(a + b, c, i) == find_char(a, c, i),
    decreases a.len() - i,
{
    if i < a.len() && a[i] != c {
        assert((a + b)[i] == a[i]);
        lemma_find_char_prefix(a, b, c, i + 1);
    } else if i < a.len() {
        assert((a + b)[i] == a[i]);
    }
}

/// The lines of `a + b`, where `a` is empty or ends with a line break, are those of `a` then
/// those of `b`.
proof fn lemma_lines_concat(a: Seq<char>, b: Seq<char>)
    requires
        a.len() == 0 || a.last() == '\n',
    ensures
        lines(a + b) == lines(a) + lines(b),
    decreases a.len(),
{
    if a.len() == 0 {
        assert(a + b =~= b);
        assert(lines(a) =~= Seq::<Seq<char>>::empty());
        assert(lines(a) + lines(b) =~= lines(b));
    } else {
        assert(a[a.len() - 1] == '\n');
        lemma_find_char(a, '\n', 0);
        if find_char(a, '\n', 0) < 0 {
            lemma_find_none(a, '\n', 0);
            assert(false);
        }
        let n = find_char(a, '\n', 0);
        lemma_find_char_prefix(a, b, '\n', 0);
        let ab = a + b;
        assert(ab.subrange(0, n) =~= a.subrange(0, n));
        let ra = a.subrange(n + 1, a.len() as int);
        assert(ab.subrange(n + 1, ab.len() as int) =~= ra + b);
        if ra.len() > 0 {
            assert(ra.last() == a.last());
        }
        lemma_lines_concat(ra, b);
        assert(lines(a) == seq![strip_cr(a.subrange(0, n))] + lines(ra));
        assert(lines(ab) == seq![strip_cr(a.subrange(0, n))] + lines(ra + b));
        assert(lines(ab) =~= lines(a) + lines(b));
    }
}

proof fn lemma_find_none(s: Seq<char>, c: char, i: int)
    requires
        0 <= i,
        find_char(s, c, i) < 0,
    ensures
        forall|j: int| i <= j < s.len() ==> s[j] != c,
    decreases s.len() - i,
{
    if i < s.len() {
        lemma_find_none(s, c, i + 1);
    }
}

/// Reading the lines `ls1 + ls2` reads `ls1` and then, from where it ended, `ls2`.
proof fn lemma_scan_concat(ls1: Seq<Seq<char>>, ls2: Seq<Seq<char>>, st: ConfigScan, st1: ConfigScan, st2: ConfigScan)
    requires
        scan_config(ls1, st) == Ok::<ConfigScan, (int, ConfigErrorSpec)>(st1),
        scan_config(ls2, st1) == Ok::<ConfigScan, (int, ConfigErrorSpec)>(st2),
    ensures
        scan_config(ls1 + ls2, st) == Ok::<ConfigScan, (int, ConfigErrorSpec)>(st2),
    decreases ls1.len(),
{
    if ls1.len() == 0 {
        assert(ls1 + ls2 =~= ls2);
    } else {
        let cl = parse_line(ls1[0], st.section)->Ok_0;
        assert((ls1 + ls2)[0] == ls1[0]);
        assert((ls1 + ls2).drop_first() =~= ls1.drop_first() + ls2);
        lemma_scan_concat(ls1.drop_first(), ls2, apply_line(st, cl), st1, st2);
    }
}

/// A line that is empty or starts with `#` is skipped.
proof fn lemma_comment_line(l: Seq<char>, section: ConfigSection)
    requires
        l.len() == 0 || l[0] == '#',
    ensures
        parse_line(l, section) == Ok::<ConfigLine, ConfigErrorSpec>(ConfigLine::Skip),
{
    reveal(parse_line);
    reveal(line_body);
    assert(skip_ws(l, 0) == 0);
    assert(trim_start(l) =~= l);
}

/// Every line of `t` that starts in it (at its start if `at_start`, or after a line break)
/// starts with `#` or is empty.
pub open spec fn comment_lines(t: Seq<char>, at_start: bool) -> bool {
    forall|i: int|
        0 <= i < t.len() && ((i == 0 && at_start) || (i > 0 && t[i - 1] == '\n')) ==> #[trigger] t[i] == '#'
            || t[i] == '\n'
}

/// Whether a line starts after `t`, read from a line start if `at_start`.
pub open spec fn ends_line(t: Seq<char>, at_start: bool) -> bool {
    if t.len() == 0 {
        at_start
    } else {
        t.last() == '\n'
    }
}

proof fn lemma_comment_concat(a: Seq<char>, b: Seq<char>, s: bool)
    requires
        comment_lines(a, s),
        comment_lines(b, ends_line(a, s)),
    ensures
        comment_lines(a + b, s),
        ends_line(a + b, s) == ends_line(b, ends_line(a, s)),
{
    let ab = a + b;
    assert forall|i: int|
        0 <= i < ab.len() && ((i == 0 && s) || (i > 0 && ab[i - 1] == '\n')) implies #[trigger] ab[i] == '#' || ab[i] == '\n' by {
        if i < a.len() {
            assert(ab[i] == a[i]);
            if i > 0 {
                assert(ab[i - 1] == a[i - 1]);
            }
        } else {
            let j = i - a.len();
            assert(ab[i] == b[j]);
            if j > 0 {
                assert(ab[i - 1] == b[j - 1]);
            } else if a.len() > 0 {
                assert(ab[i - 1] == a.last());
            }
        }
    }
    if b.len() > 0 {
        assert(ab.last() == b.last());
    } else {
        assert(ab =~= a);
    }
}

/// Text without line breaks starts no line.
proof fn lemma_one_line_comment(t: Seq<char>)
    requires
        forall|i: int| 0 <= i < t.len() ==> #[trigger] t[i] != '\n',
    ensures
        comment_lines(t, false),
        !ends_line(t, false),
{
    if t.len() > 0 {
        assert(t[t.len() - 1] != '\n');
    }
}

/// Reading text whose lines are all comments or empty changes nothing.
#[verifier::rlimit(50)]
proof fn lemma_scan_comments(t: Seq<char>, st: ConfigScan)
    requires
        comment_lines(t, true),
        ends_line(t, true),
    ensures
        scan_config(lines(t), st) == Ok::<ConfigScan, (int, ConfigErrorSpec)>(st),
    decreases t.len(),
{
    if t.len() > 0 {
        assert(t[t.len() - 1] == '\n');
        lemma_find_char(t, '\n', 0);
        if find_char(t, '\n', 0) < 0 {
            lemma_find_none(t, '\n', 0);
            assert(false);
        }
        let n = find_char(t, '\n', 0);
        let l = strip_cr(t.subrange(0, n));
        assert(t[0] == '#' || t[0] == '\n');
        if n > 0 {
            assert(t[0] != '\n');
            assert(t.subrange(0, n)[0] == '#');
            assert(l[0] == '#');
        } else {
            assert(l.len() == 0);
        }
        lemma_comment_line(l, st.section);
        let rest = t.subrange(n + 1, t.len() as int);
        assert(comment_lines(rest, true)) by {
            assert forall|i: int|
                0 <= i < rest.len() && ((i == 0 && true) || (i > 0 && rest[i - 1] == '\n')) implies #[trigger] rest[i] == '#'
                    || rest[i] == '\n' by {
                assert(rest[i] == t[n + 1 + i]);
                if i > 0 {
                    assert(rest[i - 1] == t[n + i]);
                }
            }
        }
        if rest.len() > 0 {
            assert(rest.last() == t.last());
        }
        lemma_scan_comments(rest, st);
        let ls = lines(t);
        assert(ls == seq![l] + lines(rest));
        assert(ls[0] == l);
        assert(ls.drop_first() =~= lines(rest));
        assert(apply_line(st, ConfigLine::Skip) == st);
        assert(scan_config(ls, st) == Ok::<ConfigScan, (int, ConfigErrorSpec)>(st));
    }
}

/// An action's name holds no line break.
proof fn lemma_action_name_one_line(a: KeyAction)
    ensures
        forall|i: int| 0 <= i < action_name(a).len() ==> #[trigger] action_name(a)[i] != '\n',
{
    match a {
        KeyAction::Quit => {
            reveal_strlit("Quit");
        },
        KeyAction::Run => {
            reveal_strlit("Run");
        },
        KeyAction::Continue => {
            reveal_strlit("Continue");
        },
        KeyAction::Suspend => {
            reveal_strlit("Suspend");
        },
        KeyAction::Kill => {
            reveal_strlit("Kill");
        },
        KeyAction::SendSigint => {
            reveal_strlit("SendSigint");
        },
        KeyAction::StepIntoLine => {
            reveal_strlit("StepIntoLine");
        },
        KeyAction::StepIntoInstruction => {
            reveal_strlit("StepIntoInstruction");
        },
        KeyAction::StepOverLine => {
            reveal_strlit("StepOverLine");
        },
        KeyAction::StepOverColumn => {
            reveal_strlit("StepOverColumn");
        },
        KeyAction::StepOverInstruction => {
            reveal_strlit("StepOverInstruction");
        },
        KeyAction::StepOut => {
            reveal_strlit("StepOut");
        },
        KeyAction::StepOutNoInline => {
            reveal_strlit("StepOutNoInline");
        },
        KeyAction::StepToCursor => {
            reveal_strlit("StepToCursor");
        },
        KeyAction::WindowUp => {
            reveal_strlit("WindowUp");
        },
        KeyAction::WindowDown => {
            reveal_strlit("WindowDown");
        },
        KeyAction::WindowLeft => {
            reveal_strlit("WindowLeft");
        },
        KeyAction::WindowRight => {
            reveal_strlit("WindowRight");
        },
        KeyAction::Window0 => {
            reveal_strlit("Window0");
        },
        KeyAction::Window1 => {
            reveal_strlit("Window1");
        },
        KeyAction::Window2 => {
            reveal_strlit("Window2");
        },
        KeyAction::Window3 => {
            reveal_strlit("Window3");
        },
        KeyAction::Window4 => {
            reveal_strlit("Window4");
        },
        KeyAction::Window5 => {
            reveal_strlit("Window5");
        },
        KeyAction::Window6 => {
            reveal_strlit("Window6");
        },
        KeyAction::Window7 => {
            reveal_strlit("Window7");
        },
        KeyAction::Window8 => {
            reveal_strlit("Window8");
        },
        KeyAction::Window9 => {
            reveal_strlit("Window9");
        },
        KeyAction::CursorUp => {
            reveal_strlit("CursorUp");
        },
        KeyAction::CursorDown => {
            reveal_strlit("CursorDown");
        },
        KeyAction::CursorLeft => {
            reveal_strlit("CursorLeft");
        },
        KeyAction::CursorRight => {
            reveal_strlit("CursorRight");
        },
        KeyAction::Enter => {
            reveal_strlit("Enter");
        },
        KeyAction::DeleteRow => {
            reveal_strlit("DeleteRow");
        },
        KeyAction::Cancel => {
            reveal_strlit("Cancel");
        },
        KeyAction::PageUp => {
            reveal_strlit("PageUp");
        },
        KeyAction::PageDown => {
            reveal_strlit("PageDown");
        },
        KeyAction::Home => {
            reveal_strlit("Home");
        },
        KeyAction::End => {
            reveal_strlit("End");
        },
        KeyAction::Tooltip => {
            reveal_strlit("Tooltip");
        },
        KeyAction::NextTab => {
            reveal_strlit("NextTab");
        },
        KeyAction::PreviousTab => {
            reveal_strlit("PreviousTab");
        },
        KeyAction::CloseTab => {
            reveal_strlit("CloseTab");
        },
        KeyAction::NextStackFrame => {
            reveal_strlit("NextStackFrame");
        },
        KeyAction::PreviousStackFrame => {
            reveal_strlit("PreviousStackFrame");
        },
        KeyAction::NextThread => {
            reveal_strlit("NextThread");
        },
        KeyAction::PreviousThread => {
            reveal_strlit("PreviousThread");
        },
        KeyAction::NextLocation => {
            reveal_strlit("NextLocation");
        },
        KeyAction::PreviousLocation => {
            reveal_strlit("PreviousLocation");
        },
        KeyAction::NextMatch => {
            reveal_strlit("NextMatch");
        },
        KeyAction::PreviousMatch => {
            reveal_strlit("PreviousMatch");
        },
        KeyAction::ToggleSort => {
            reveal_strlit("ToggleSort");
        },
        KeyAction::Open => {
            reveal_strlit("Open");
        },
        KeyAction::FindType => {
            reveal_strlit("FindType");
        },
        KeyAction::Find => {
            reveal_strlit("Find");
        },
        KeyAction::GoToLine => {
            reveal_strlit("GoToLine");
        },
        KeyAction::EditCondition => {
            reveal_strlit("EditCondition");
        },
        KeyAction::DataWriteBreakpoint => {
            reveal_strlit("DataWriteBreakpoint");
        },
        KeyAction::DataReadWriteBreakpoint => {
            reveal_strlit("DataReadWriteBreakpoint");
        },
        KeyAction::ConditionalDataWriteBreakpoint => {
            reveal_strlit("ConditionalDataWriteBreakpoint");
        },
        KeyAction::ConditionalDataReadWriteBreakpoint => {
            reveal_strlit("ConditionalDataReadWriteBreakpoint");
        },
        KeyAction::DuplicateRow => {
            reveal_strlit("DuplicateRow");
        },
        KeyAction::AddValueRefWatch => {
            reveal_strlit("AddValueRefWatch");
        },
        KeyAction::ReorderRowUp => {
            reveal_strlit("ReorderRowUp");
        },
        KeyAction::ReorderRowDown => {
            reveal_strlit("ReorderRowDown");
        },
        KeyAction::Help => {
            reveal_strlit("Help");
        },
        KeyAction::DropCaches => {
            reveal_strlit("DropCaches");
        },
        KeyAction::ToggleProfiler => {
            reveal_strlit("ToggleProfiler");
        },
        KeyAction::Undo => {
            reveal_strlit("Undo");
        },
        KeyAction::Redo => {
            reveal_strlit("Redo");
        },
        KeyAction::Copy => {
            reveal_strlit("Copy");
        },
        KeyAction::CopyValue => {
            reveal_strlit("CopyValue");
        },
        KeyAction::Paste => {
            reveal_strlit("Paste");
        },
        KeyAction::Cut => {
            reveal_strlit("Cut");
        },
        KeyAction::NewLine => {
            reveal_strlit("NewLine");
        },
        KeyAction::END_OF_ENUM => {
            reveal_strlit("END_OF_ENUM");
        },
    }
}

/// `s` holds no line break.
pub open spec fn one_line(s: Seq<char>) -> bool {
    forall|i: int| 0 <= i < s.len() ==> #[trigger] s[i] != '\n'
}

proof fn lemma_one_line_concat(a: Seq<char>, b: Seq<char>)
    requires
        one_line(a),
        one_line(b),
    ensures
        one_line(a + b),
{
    assert forall|i: int| 0 <= i < (a + b).len() implies #[trigger] (a + b)[i] != '\n' by {
        if i < a.len() {
            assert((a + b)[i] == a[i]);
        } else {
            assert((a + b)[i] == b[i - a.len()]);
        }
    }
}

/// A commented-out line `# x` followed by `t`, the rest of the line and its line break.
proof fn lemma_commented_line_with(x: Seq<char>, t: Seq<char>)
    requires
        one_line(x),
        t.len() > 0,
        t.last() == '\n',
        forall|j: int| 0 <= j < t.len() - 1 ==> #[trigger] t[j] != '\n',
    ensures
        comment_lines("# "@ + x + t, true),
        ends_line("# "@ + x + t, true),
{
    reveal_strlit("# ");
    let l = "# "@ + x + t;
    assert forall|i: int|
        0 <= i < l.len() && ((i == 0 && true) || (i > 0 && l[i - 1] == '\n')) implies #[trigger] l[i] == '#' || l[i] == '\n' by {
        if i > 0 {
            let j = i - 1;
            if j < 2 {
                assert(l[j] == "# "@[j]);
            } else if j < 2 + x.len() {
                assert(l[j] == x[j - 2]);
            } else {
                assert(l[j] == t[j - 2 - x.len()]);
            }
        }
    }
    assert(l.last() == t.last());
}

/// A commented-out line `# x`, with `x` on one line.
proof fn lemma_commented_line(x: Seq<char>)
    requires
        one_line(x),
    ensures
        comment_lines("# "@ + x + "\n"@, true),
        ends_line("# "@ + x + "\n"@, true),
{
    reveal_strlit("\n");
    lemma_commented_line_with(x, "\n"@);
}

/// The commented-out lines binding `keys` to `a` are comments.
proof fn lemma_binding_lines_comments(a: KeyAction, keys: Seq<KeyEx>)
    ensures
        comment_lines(binding_lines("# "@, a, keys), true),
        ends_line(binding_lines("# "@, a, keys), true),
    decreases keys.len(),
{
    if keys.len() > 0 {
        lemma_binding_lines_comments(a, keys.drop_last());
        let prev = binding_lines("# "@, a, keys.drop_last());
        let name = action_name(a);
        let kn = crate::keys::key_ex_name(keys.last());
        lemma_action_name_one_line(a);
        crate::keys::lemma_key_ex_name_one_line(keys.last());
        reveal_strlit("# ");
        reveal_strlit(": ");
        reveal_strlit("\n");
        assert(comment_lines("# "@, true) && !ends_line("# "@, true));
        assert(comment_lines(": "@, false) && !ends_line(": "@, false));
        assert(comment_lines("\n"@, false) && ends_line("\n"@, false));
        lemma_one_line_comment(name);
        lemma_one_line_comment(kn);
        lemma_comment_concat(prev, "# "@, true);
        lemma_comment_concat(prev + "# "@, name, true);
        lemma_comment_concat(prev + "# "@ + name, ": "@, true);
        lemma_comment_concat(prev + "# "@ + name + ": "@, kn, true);
        lemma_comment_concat(prev + "# "@ + name + ": "@ + kn, "\n"@, true);
    }
}

proof fn lemma_unbind_line_comment(name: Seq<char>)
    requires
        one_line(name),
    ensures
        comment_lines("# "@ + name + ": unbind\n"@, true),
        ends_line("# "@ + name + ": unbind\n"@, true),
{
    reveal_strlit(": unbind\n");
    lemma_commented_line_with(name, ": unbind\n"@);
}

proof fn lemma_normal_part_comments(
    normal: Seq<(KeyAction, Seq<KeyEx>)>,
    text: Seq<(KeyAction, Seq<KeyEx>)>,
    a: KeyAction,
)
    ensures
        ({
            let part = if lookup(text, a) is Some {
                Seq::empty()
            } else {
                match lookup(normal, a) {
                    None => "# "@ + action_name(a) + ": unbind\n"@,
                    Some(keys) => binding_lines("# "@, a, keys),
                }
            };
            comment_lines(part, true) && ends_line(part, true)
        }),
{
    if lookup(text, a) is None {
        match lookup(normal, a) {
            None => {
                lemma_action_name_one_line(a);
                lemma_unbind_line_comment(action_name(a));
            },
            Some(keys) => {
                lemma_binding_lines_comments(a, keys);
            },
        }
    }
}

/// The commented-out `[keys]` lines are comments.
proof fn lemma_normal_lines_comments(
    normal: Seq<(KeyAction, Seq<KeyEx>)>,
    text: Seq<(KeyAction, Seq<KeyEx>)>,
    n: int,
)
    ensures
        comment_lines(normal_lines("# "@, normal, text, n), true),
        ends_line(normal_lines("# "@, normal, text, n), true),
    decreases n,
{
    if n > 0 {
        lemma_normal_lines_comments(normal, text, n - 1);
        let a = all_actions()[n - 1];
        let prev = normal_lines("# "@, normal, text, n - 1);
        let part = if lookup(text, a) is Some {
            Seq::empty()
        } else {
            match lookup(normal, a) {
                None => "# "@ + action_name(a) + ": unbind\n"@,
                Some(keys) => binding_lines("# "@, a, keys),
            }
        };
        lemma_normal_part_comments(normal, text, a);
        lemma_comment_concat(prev, part, true);
        assert(normal_lines("# "@, normal, text, n) == prev + part);
    }
}

/// The commented-out `[text]` lines are comments.
proof fn lemma_text_lines_comments(text: Seq<(KeyAction, Seq<KeyEx>)>, n: int)
    ensures
        comment_lines(text_lines("# "@, text, n), true),
        ends_line(text_lines("# "@, text, n), true),
    decreases n,
{
    if n > 0 {
        lemma_text_lines_comments(text, n - 1);
        let a = all_actions()[n - 1];
        let prev = text_lines("# "@, text, n - 1);
        let part = match lookup(text, a) {
            None => Seq::empty(),
            Some(keys) => binding_lines("# "@, a, keys),
        };
        match lookup(text, a) {
            None => {},
            Some(keys) => {
                lemma_binding_lines_comments(a, keys);
            },
        }
        lemma_comment_concat(prev, part, true);
        assert(text_lines("# "@, text, n) == prev + part);
    }
}

/// The example header without its last line, `[keys]`.
spec fn header_comments(config_file: Seq<char>, example: Seq<char>, error_file: Seq<char>) -> Seq<char> {
    "# Example key bindings configuration.\n\n# This file is autogenerated and overwritten on debugger startup. Don't edit it.\n# The real config file should be placed at: "@ + config_file + "\n# You may `cp "@ + example + " "@ + config_file + "` and edit "@ + config_file
        + "\n#\n# If the debugger fails to parse the config file, a file with error message will be created at: "@ + error_file + "\n# The config is reloaded on the fly, no restart needed, just save the file.\n#\n# The basic syntax is: \"action: key\", e.g. \"Find: C-f\"\n# All action names can be found in this config.\n#\n# Key names can be discovered using `nnd --echo-input`. It's highly recommended to use it to check every key combination beforehand; if you use incorrect name, it may silently fail to work.\n# Many key combinations are unavailable or indistinguishable in terminal (e.g. tab, ctrl+tab, and ctrl+i all send the same control sequence).\n# Prefixes: C- - ctrl, M- - alt.\n# For shift+key combination, use capital letter, e.g. \"X\" for shift+x. Prefix S- can be used for some keys that don't have capital-letter versions, e.g. \"S-F3\" is shift+F3.\n#\n# To have multiple keys for the same action, use multiple lines with the same \"action: \" part.\n# If an action is not listed, default key(s) for it are used. Assigning key(s) to an action overrides all default keys for that action.\n# To remove default keys for an action without assigning a new key, use \"unbind\" as the key, e.g. \"Find: unbind\".\n# Assigning the same key to multiple actions within the same section ([keys] or [text]) is not allowed.\n#\n# All lines here are commented out ('#') (except section names). Uncomment them in the real config to apply.\n\n"@
}

proof fn lemma_header_comments(config_file: Seq<char>, example: Seq<char>, error_file: Seq<char>)
    requires
        one_line(config_file),
        one_line(example),
        one_line(error_file),
    ensures
        example_header(config_file, example, error_file) == header_comments(config_file, example, error_file) + "[keys]\n"@,
        comment_lines(header_comments(config_file, example, error_file), true),
        ends_line(header_comments(config_file, example, error_file), true),
{
    reveal_strlit("# Example key bindings configuration.\n\n# This file is autogenerated and overwritten on debugger startup. Don't edit it.\n# The real config file should be placed at: ");
    reveal_strlit("\n# You may `cp ");
    reveal_strlit(" ");
    reveal_strlit("` and edit ");
    reveal_strlit("\n#\n# If the debugger fails to parse the config file, a file with error message will be created at: ");
    reveal_strlit("\n# The config is reloaded on the fly, no restart needed, just save the file.\n#\n# The basic syntax is: \"action: key\", e.g. \"Find: C-f\"\n# All action names can be found in this config.\n#\n# Key names can be discovered using `nnd --echo-input`. It's highly recommended to use it to check every key combination beforehand; if you use incorrect name, it may silently fail to work.\n# Many key combinations are unavailable or indistinguishable in terminal (e.g. tab, ctrl+tab, and ctrl+i all send the same control sequence).\n# Prefixes: C- - ctrl, M- - alt.\n# For shift+key combination, use capital letter, e.g. \"X\" for shift+x. Prefix S- can be used for some keys that don't have capital-letter versions, e.g. \"S-F3\" is shift+F3.\n#\n# To have multiple keys for the same action, use multiple lines with the same \"action: \" part.\n# If an action is not listed, default key(s) for it are used. Assigning key(s) to an action overrides all default keys for that action.\n# To remove default keys for an action without assigning a new key, use \"unbind\" as the key, e.g. \"Find: unbind\".\n# Assigning the same key to multiple actions within the same section ([keys] or [text]) is not allowed.\n#\n# All lines here are commented out ('#') (except section names). Uncomment them in the real config to apply.\n\n");
    reveal_strlit("\n# The config is reloaded on the fly, no restart needed, just save the file.\n#\n# The basic syntax is: \"action: key\", e.g. \"Find: C-f\"\n# All action names can be found in this config.\n#\n# Key names can be discovered using `nnd --echo-input`. It's highly recommended to use it to check every key combination beforehand; if you use incorrect name, it may silently fail to work.\n# Many key combinations are unavailable or indistinguishable in terminal (e.g. tab, ctrl+tab, and ctrl+i all send the same control sequence).\n# Prefixes: C- - ctrl, M- - alt.\n# For shift+key combination, use capital letter, e.g. \"X\" for shift+x. Prefix S- can be used for some keys that don't have capital-letter versions, e.g. \"S-F3\" is shift+F3.\n#\n# To have multiple keys for the same action, use multiple lines with the same \"action: \" part.\n# If an action is not listed, default key(s) for it are used. Assigning key(s) to an action overrides all default keys for that action.\n# To remove default keys for an action without assigning a new key, use \"unbind\" as the key, e.g. \"Find: unbind\".\n# Assigning the same key to multiple actions within the same section ([keys] or [text]) is not allowed.\n#\n# All lines here are commented out ('#') (except section names). Uncomment them in the real config to apply.\n\n[keys]\n");
    reveal_strlit("[keys]\n");
    assert("\n# The config is reloaded on the fly, no restart needed, just save the file.\n#\n# The basic syntax is: \"action: key\", e.g. \"Find: C-f\"\n# All action names can be found in this config.\n#\n# Key names can be discovered using `nnd --echo-input`. It's highly recommended to use it to check every key combination beforehand; if you use incorrect name, it may silently fail to work.\n# Many key combinations are unavailable or indistinguishable in terminal (e.g. tab, ctrl+tab, and ctrl+i all send the same control sequence).\n# Prefixes: C- - ctrl, M- - alt.\n# For shift+key combination, use capital letter, e.g. \"X\" for shift+x. Prefix S- can be used for some keys that don't have capital-letter versions, e.g. \"S-F3\" is shift+F3.\n#\n# To have multiple keys for the same action, use multiple lines with the same \"action: \" part.\n# If an action is not listed, default key(s) for it are used. Assigning key(s) to an action overrides all default keys for that action.\n# To remove default keys for an action without assigning a new key, use \"unbind\" as the key, e.g. \"Find: unbind\".\n# Assigning the same key to multiple actions within the same section ([keys] or [text]) is not allowed.\n#\n# All lines here are commented out ('#') (except section names). Uncomment them in the real config to apply.\n\n[keys]\n"@ =~= "\n# The config is reloaded on the fly, no restart needed, just save the file.\n#\n# The basic syntax is: \"action: key\", e.g. \"Find: C-f\"\n# All action names can be found in this config.\n#\n# Key names can be discovered using `nnd --echo-input`. It's highly recommended to use it to check every key combination beforehand; if you use incorrect name, it may silently fail to work.\n# Many key combinations are unavailable or indistinguishable in terminal (e.g. tab, ctrl+tab, and ctrl+i all send the same control sequence).\n# Prefixes: C- - ctrl, M- - alt.\n# For shift+key combination, use capital letter, e.g. \"X\" for shift+x. Prefix S- can be used for some keys that don't have capital-letter versions, e.g. \"S-F3\" is shift+F3.\n#\n# To have multiple keys for the same action, use multiple lines with the same \"action: \" part.\n# If an action is not listed, default key(s) for it are used. Assigning key(s) to an action overrides all default keys for that action.\n# To remove default keys for an action without assigning a new key, use \"unbind\" as the key, e.g. \"Find: unbind\".\n# Assigning the same key to multiple actions within the same section ([keys] or [text]) is not allowed.\n#\n# All lines here are commented out ('#') (except section names). Uncomment them in the real config to apply.\n\n"@ + "[keys]\n"@);
    assert(example_header(config_file, example, error_file) =~= header_comments(config_file, example, error_file) + "[keys]\n"@);
    let l1 = "# Example key bindings configuration.\n\n# This file is autogenerated and overwritten on debugger startup. Don't edit it.\n# The real config file should be placed at: "@;
    let l2 = "\n# You may `cp "@;
    let l3 = " "@;
    let l4 = "` and edit "@;
    let l5 = "\n#\n# If the debugger fails to parse the config file, a file with error message will be created at: "@;
    let l6 = "\n# The config is reloaded on the fly, no restart needed, just save the file.\n#\n# The basic syntax is: \"action: key\", e.g. \"Find: C-f\"\n# All action names can be found in this config.\n#\n# Key names can be discovered using `nnd --echo-input`. It's highly recommended to use it to check every key combination beforehand; if you use incorrect name, it may silently fail to work.\n# Many key combinations are unavailable or indistinguishable in terminal (e.g. tab, ctrl+tab, and ctrl+i all send the same control sequence).\n# Prefixes: C- - ctrl, M- - alt.\n# For shift+key combination, use capital letter, e.g. \"X\" for shift+x. Prefix S- can be used for some keys that don't have capital-letter versions, e.g. \"S-F3\" is shift+F3.\n#\n# To have multiple keys for the same action, use multiple lines with the same \"action: \" part.\n# If an action is not listed, default key(s) for it are used. Assigning key(s) to an action overrides all default keys for that action.\n# To remove default keys for an action without assigning a new key, use \"unbind\" as the key, e.g. \"Find: unbind\".\n# Assigning the same key to multiple actions within the same section ([keys] or [text]) is not allowed.\n#\n# All lines here are commented out ('#') (except section names). Uncomment them in the real config to apply.\n\n"@;
    assert(comment_lines(l1, true) && !ends_line(l1, true));
    assert(comment_lines(l2, false) && !ends_line(l2, false));
    assert(comment_lines(l3, false) && !ends_line(l3, false));
    assert(comment_lines(l4, false) && !ends_line(l4, false));
    assert(comment_lines(l5, false) && !ends_line(l5, false));
    assert(comment_lines(l6, false) && ends_line(l6, false));
    lemma_one_line_comment(config_file);
    lemma_one_line_comment(example);
    lemma_one_line_comment(error_file);
    lemma_comment_concat(l1, config_file, true);
    let t = l1 + config_file;
    lemma_comment_concat(t, l2, true);
    let t = t + l2;
    lemma_comment_concat(t, example, true);
    let t = t + example;
    lemma_comment_concat(t, l3, true);
    let t = t + l3;
    lemma_comment_concat(t, config_file, true);
    let t = t + config_file;
    lemma_comment_concat(t, l4, true);
    let t = t + l4;
    lemma_comment_concat(t, config_file, true);
    let t = t + config_file;
    lemma_comment_concat(t, l5, true);
    let t = t + l5;
    lemma_comment_concat(t, error_file, true);
    let t = t + error_file;
    lemma_comment_concat(t, l6, true);
    assert(t + l6 == header_comments(config_file, example, error_file));
}

proof fn lemma_find_at(s: Seq<char>, c: char, i: int, k: int)
    requires
        0 <= i <= k < s.len(),
        s[k] == c,
        forall|j: int| i <= j < k ==> s[j] != c,
    ensures
        find_char(s, c, i) == k,
    decreases k - i,
{
    if i < k {
        lemma_find_at(s, c, i + 1, k);
    }
}

/// The single line `l` (which does not end with a carriage return), with its line break.
proof fn lemma_single_line(l: Seq<char>)
    requires
        one_line(l),
        l.len() > 0,
        l.last() != '\r',
    ensures
        lines(l + "\n"@) == seq![l],
{
    reveal_strlit("\n");
    let t = l + "\n"@;
    assert forall|j: int| 0 <= j < l.len() implies t[j] != '\n' by {
        assert(t[j] == l[j]);
    }
    lemma_find_at(t, '\n', 0, l.len() as int);
    assert(t.subrange(0, l.len() as int) =~= l);
    assert(t.subrange(l.len() as int + 1, t.len() as int) =~= Seq::<char>::empty());
    assert(lines(Seq::<char>::empty()) =~= Seq::<Seq<char>>::empty());
    assert(lines(t) =~= seq![l]);
}

/// The header line of section `sec`.
spec fn section_header(sec: ConfigSection) -> Seq<char> {
    match sec {
        ConfigSection::Keys => "[keys]"@,
        ConfigSection::Text => "[text]"@,
        ConfigSection::Settings => "[settings]"@,
    }
}

/// Reading a section's header line enters the section.
proof fn lemma_section_header(sec: ConfigSection, st: ConfigScan)
    ensures
        scan_config(lines(section_header(sec) + "\n"@), st) == Ok::<ConfigScan, (int, ConfigErrorSpec)>(
            ConfigScan { section: sec, ..st },
        ),
{
    reveal(parse_line);
    reveal(line_body);
    let l = section_header(sec);
    let name = match sec {
        ConfigSection::Keys => "keys"@,
        ConfigSection::Text => "text"@,
        ConfigSection::Settings => "settings"@,
    };
    reveal_strlit("keys");
    reveal_strlit("text");
    reveal_strlit("settings");
    reveal_strlit("[keys]");
    reveal_strlit("[text]");
    reveal_strlit("[settings]");
    assert(l.len() == name.len() + 2);
    assert(forall|j: int| 0 <= j < name.len() ==> l[j + 1] == #[trigger] name[j]);
    assert(l[0] == '[' && l[l.len() - 1] == ']');
    assert(one_line(l));
    lemma_single_line(l);
    assert(skip_ws(l, 0) == 0);
    assert(trim_start(l) =~= l);
    assert forall|j: int| 0 <= j < l.len() - 1 implies l[j] != ']' by {
        if j > 0 {
            assert(l[j] == name[j - 1]);
        }
    }
    lemma_find_at(l, ']', 0, l.len() - 1);
    assert(l.subrange(1, l.len() - 1) =~= name);
    assert(skip_ws(name, 0) == 0);
    assert(trim_start(name) =~= name);
    assert(trim_end_at(name, name.len() as int) == name.len());
    assert(trim(name) =~= name);
    assert(section_by_name(name) == Some(sec));
    assert(l.subrange(l.len() as int, l.len() as int) =~= Seq::<char>::empty());
    assert(trim_start(Seq::<char>::empty()) =~= Seq::<char>::empty());
    assert(parse_line(l, st.section) == Ok::<ConfigLine, ConfigErrorSpec>(ConfigLine::Section(sec)));
    let ls = seq![l];
    assert(ls.drop_first() =~= Seq::<Seq<char>>::empty());
    assert(ls[0] == l);
    let st1 = ConfigScan { section: sec, ..st };
    assert(apply_line(st, ConfigLine::Section(sec)) == st1);
    assert(scan_config(ls.drop_first(), st1) == Ok::<ConfigScan, (int, ConfigErrorSpec)>(st1));
    assert(scan_config(ls, st) == Ok::<ConfigScan, (int, ConfigErrorSpec)>(st1));
}

/// The comment lines before the `[text]` header of the example.
spec fn text_intro() -> Seq<char> {
    "\n\n# These keys apply during text editing.\n"@
}

/// The comment lines before the `[settings]` header of the example.
spec fn settings_intro() -> Seq<char> {
    "\n\n# Some settings that are not actually key binds.\n"@
}

/// The two commented-out settings lines of the example.
spec fn settings_comments() -> Seq<char> {
    "# "@ + ("vertical_scroll_sensitivity: "@ + isize_chars(4)) + "\n"@ + ("# "@ + (
    "horizontal_scroll_sensitivity: "@ + isize_chars(20)) + "\n"@)
}

proof fn lemma_intros_are_comments()
    ensures
        comment_lines(text_intro(), true),
        ends_line(text_intro(), true),
        comment_lines(settings_intro(), true),
        ends_line(settings_intro(), true),
        comment_lines(settings_comments(), true),
        ends_line(settings_comments(), true),
{
    reveal_strlit("\n\n# These keys apply during text editing.\n");
    reveal_strlit("\n\n# Some settings that are not actually key binds.\n");
    reveal_strlit("vertical_scroll_sensitivity: ");
    reveal_strlit("horizontal_scroll_sensitivity: ");
    assert(isize_chars(4) =~= seq!['4']);
    assert(isize_chars(20) =~= seq!['2', '0']) by {
        reveal_with_fuel(crate::keys::dec_chars, 2);
    }
    let x1 = "vertical_scroll_sensitivity: "@ + isize_chars(4);
    let x2 = "horizontal_scroll_sensitivity: "@ + isize_chars(20);
    assert(one_line(x1));
    assert(one_line(x2));
    lemma_commented_line(x1);
    lemma_commented_line(x2);
    lemma_comment_concat("# "@ + x1 + "\n"@, "# "@ + x2 + "\n"@, true);
}

/// The example with its lines commented out, as comment blocks and section headers.
proof fn lemma_example_pieces(config_file: Seq<char>, example: Seq<char>, error_file: Seq<char>)
    requires
        one_line(config_file),
        one_line(example),
        one_line(error_file),
    ensures
        ({
            let normal = keymap_from(default_normal_pairs()).1;
            let text = keymap_from(default_text_pairs()).1;
            let nl = normal_lines("# "@, normal, text, num_actions() as int);
            let tl = text_lines("# "@, text, num_actions() as int);
            example_config(config_file, example, error_file, true) == header_comments(config_file, example, error_file) + (
            (section_header(ConfigSection::Keys) + "\n"@) + ((nl + text_intro()) + ((section_header(ConfigSection::Text)
                + "\n"@) + ((tl + settings_intro()) + ((section_header(ConfigSection::Settings) + "\n"@)
                + settings_comments())))))
        }),
{
    let normal = keymap_from(default_normal_pairs()).1;
    let text = keymap_from(default_text_pairs()).1;
    let nl = normal_lines("# "@, normal, text, num_actions() as int);
    let tl = text_lines("# "@, text, num_actions() as int);
    lemma_header_comments(config_file, example, error_file);
    reveal_strlit("\n\n# These keys apply during text editing.\n[text]\n");
    reveal_strlit("\n\n# These keys apply during text editing.\n");
    reveal_strlit("\n\n# Some settings that are not actually key binds.\n[settings]\n");
    reveal_strlit("\n\n# Some settings that are not actually key binds.\n");
    reveal_strlit("[keys]\n");
    reveal_strlit("[keys]");
    reveal_strlit("[text]");
    reveal_strlit("[settings]");
    reveal_strlit("\n");
    let kh = section_header(ConfigSection::Keys) + "\n"@;
    let th = section_header(ConfigSection::Text) + "\n"@;
    let sh = section_header(ConfigSection::Settings) + "\n"@;
    assert("[keys]\n"@ =~= kh);
    assert("\n\n# These keys apply during text editing.\n[text]\n"@ =~= text_intro() + th);
    assert("\n\n# Some settings that are not actually key binds.\n[settings]\n"@ =~= settings_intro() + sh);
    let h = example_header(config_file, example, error_file);
    let p1 = header_comments(config_file, example, error_file);
    let v = "vertical_scroll_sensitivity: "@ + isize_chars(4);
    let z = "horizontal_scroll_sensitivity: "@ + isize_chars(20);
    let tail = "# "@ + v + "\n"@ + ("# "@ + z + "\n"@);
    assert(settings_comments() =~= tail);
    let a = h + nl + "\n\n# These keys apply during text editing.\n[text]\n"@ + tl
        + "\n\n# Some settings that are not actually key binds.\n[settings]\n"@;
    assert(example_config(config_file, example, error_file, true) =~= a + tail);
    assert(a =~= p1 + (kh + ((nl + text_intro()) + (th + ((tl + settings_intro()) + sh)))));
    assert(a + tail =~= p1 + (kh + ((nl + text_intro()) + (th + ((tl + settings_intro()) + (sh + tail))))));
}

proof fn lemma_default_pairs_distinct()
    ensures
        distinct_firsts(default_normal_pairs()),
        distinct_firsts(default_text_pairs()),
{
}

/// Reading the example configuration back, as it is written for the user to copy (every
/// binding and setting commented out), gives the default key bindings: in both sections every
/// key has its default action and every action its default keys, and the settings have their
/// default values. The file paths named in its header are each on one line.
pub proof fn lemma_example_parses_to_defaults(config_file: Seq<char>, example: Seq<char>, error_file: Seq<char>)
    requires
        one_line(config_file),
        one_line(example),
        one_line(error_file),
    ensures
        parse_config_spec(example_config(config_file, example, error_file, true)) is Ok,
        ({
            let r = parse_config_spec(example_config(config_file, example, error_file, true))->Ok_0;
            let normal = keymap_from(default_normal_pairs());
            let text = keymap_from(default_text_pairs());
            &&& forall|k: KeyEx| #[trigger] lookup(r.0.0, k) == lookup(normal.0, k)
            &&& forall|a: KeyAction| #[trigger] lookup(r.0.1, a) == lookup(normal.1, a)
            &&& forall|k: KeyEx| #[trigger] lookup(r.1.0, k) == lookup(text.0, k)
            &&& forall|a: KeyAction| #[trigger] lookup(r.1.1, a) == lookup(text.1, a)
            &&& r.2 == 4
            &&& r.3 == 20
        }),
{
    let normal = keymap_from(default_normal_pairs()).1;
    let text = keymap_from(default_text_pairs()).1;
    let p1 = header_comments(config_file, example, error_file);
    let nl = normal_lines("# "@, normal, text, num_actions() as int);
    let tl = text_lines("# "@, text, num_actions() as int);
    lemma_header_comments(config_file, example, error_file);
    lemma_normal_lines_comments(normal, text, num_actions() as int);
    lemma_text_lines_comments(text, num_actions() as int);
    lemma_intros_are_comments();
    lemma_example_pieces(config_file, example, error_file);
    let p2 = nl + text_intro();
    let p3 = tl + settings_intro();
    let p4 = settings_comments();
    lemma_comment_concat(nl, text_intro(), true);
    lemma_comment_concat(tl, settings_intro(), true);
    let kh = section_header(ConfigSection::Keys) + "\n"@;
    let th = section_header(ConfigSection::Text) + "\n"@;
    let sh = section_header(ConfigSection::Settings) + "\n"@;
    let r6 = sh + p4;
    let r5 = p3 + r6;
    let r4 = th + r5;
    let r3 = p2 + r4;
    let r2 = kh + r3;
    let t = example_config(config_file, example, error_file, true);
    assert(t == p1 + r2);
    reveal_strlit("\n");
    assert(kh.last() == '\n' && th.last() == '\n' && sh.last() == '\n');
    lemma_lines_concat(p1, r2);
    lemma_lines_concat(kh, r3);
    lemma_lines_concat(p2, r4);
    lemma_lines_concat(th, r5);
    lemma_lines_concat(p3, r6);
    lemma_lines_concat(sh, p4);
    let st0 = config_start();
    let st1 = ConfigScan { section: ConfigSection::Text, ..st0 };
    let st2 = ConfigScan { section: ConfigSection::Settings, ..st0 };
    lemma_scan_comments(p1, st0);
    lemma_section_header(ConfigSection::Keys, st0);
    assert(ConfigScan { section: ConfigSection::Keys, ..st0 } == st0);
    lemma_scan_comments(p2, st0);
    lemma_section_header(ConfigSection::Text, st0);
    lemma_scan_comments(p3, st1);
    lemma_section_header(ConfigSection::Settings, st1);
    assert(ConfigScan { section: ConfigSection::Settings, ..st1 } == st2);
    lemma_scan_comments(p4, st2);
    lemma_scan_concat(lines(sh), lines(p4), st1, st2, st2);
    lemma_scan_concat(lines(p3), lines(r6), st1, st1, st2);
    lemma_scan_concat(lines(th), lines(r5), st0, st1, st2);
    lemma_scan_concat(lines(p2), lines(r4), st0, st0, st2);
    lemma_scan_concat(lines(kh), lines(r3), st0, st0, st2);
    lemma_scan_concat(lines(p1), lines(r2), st0, st0, st2);
    assert(scan_config(lines(t), st0) == Ok::<ConfigScan, (int, ConfigErrorSpec)>(st2));
    lemma_default_pairs_distinct();
    lemma_defaults_only(default_normal_pairs());
    lemma_defaults_only(default_text_pairs());
}

/// The two maps of a section agree: a key is looked up to an action exactly when it is among
/// that action's keys.
pub open spec fn maps_agree(k2a: Seq<(KeyEx, KeyAction)>, a2k: Seq<(KeyAction, Seq<KeyEx>)>) -> bool {
    &&& forall|k: KeyEx| #[trigger] lookup(k2a, k) is Some ==> keys_of(a2k, lookup(k2a, k)->0).contains(k)
    &&& forall|a: KeyAction, k: KeyEx| #[trigger] keys_of(a2k, a).contains(k) ==> lookup(k2a, k) == Some(a)
}

proof fn lemma_push_contains(s: Seq<KeyEx>, k: KeyEx, x: KeyEx)
    ensures
        s.push(k).contains(x) <==> (s.contains(x) || x == k),
{
    if s.push(k).contains(x) {
        let i = choose|i: int| 0 <= i < s.push(k).len() && s.push(k)[i] == x;
        if i < s.len() {
            assert(s[i] == x);
        }
    }
    if s.contains(x) {
        let i = choose|i: int| 0 <= i < s.len() && s[i] == x;
        assert(s.push(k)[i] == x);
    }
    assert(s.push(k)[s.len() as int] == k);
}

proof fn lemma_agree_bind(k2a: Seq<(KeyEx, KeyAction)>, a2k: Seq<(KeyAction, Seq<KeyEx>)>, k: KeyEx, a: KeyAction)
    requires
        maps_agree(k2a, a2k),
        lookup(k2a, k) is None,
    ensures
        maps_agree(assoc_set(k2a, k, a), append_key(a2k, a, k)),
{
    let k2 = assoc_set(k2a, k, a);
    let a2 = append_key(a2k, a, k);
    assert(!keys_of(a2k, a).contains(k));
    assert forall|x: KeyEx| #[trigger] lookup(k2, x) is Some implies keys_of(a2, lookup(k2, x)->0).contains(x) by {
        lemma_set_key_then_lookup(k2a, k, a, x);
        let b = lookup(k2, x)->0;
        lemma_add_key_then_lookup(a2k, a, k, b);
        if b == a {
            assert(keys_of(a2, a) == keys_of(a2k, a).push(k));
            lemma_push_contains(keys_of(a2k, a), k, x);
        }
    }
    assert forall|b: KeyAction, x: KeyEx| #[trigger] keys_of(a2, b).contains(x) implies lookup(k2, x) == Some(b) by {
        lemma_set_key_then_lookup(k2a, k, a, x);
        lemma_add_key_then_lookup(a2k, a, k, b);
        if b == a {
            assert(keys_of(a2, a) == keys_of(a2k, a).push(k));
            lemma_push_contains(keys_of(a2k, a), k, x);
        } else {
            assert(keys_of(a2, b) == keys_of(a2k, b));
            assert(keys_of(a2k, b).contains(x));
        }
    }
}

proof fn lemma_agree_unbind(k2a: Seq<(KeyEx, KeyAction)>, a2k: Seq<(KeyAction, Seq<KeyEx>)>, a: KeyAction)
    requires
        maps_agree(k2a, a2k),
    ensures
        maps_agree(k2a, with_entry(a2k, a)),
{
    let a2 = with_entry(a2k, a);
    assert forall|b: KeyAction| #[trigger] keys_of(a2, b) == keys_of(a2k, b) by {
        lemma_with_entry_lookup(a2k, a, b);
    }
    assert forall|x: KeyEx| #[trigger] lookup(k2a, x) is Some implies keys_of(a2, lookup(k2a, x)->0).contains(x) by {
        assert(keys_of(a2, lookup(k2a, x)->0) == keys_of(a2k, lookup(k2a, x)->0));
    }
    assert forall|b: KeyAction, x: KeyEx| #[trigger] keys_of(a2, b).contains(x) implies lookup(k2a, x) == Some(b) by {
        assert(keys_of(a2, b) == keys_of(a2k, b));
    }
}

proof fn lemma_merge_user_agree(parsed: Seq<(Option<KeyEx>, KeyAction)>)
    requires
        merge_user(parsed) is Ok,
    ensures
        maps_agree(merge_user(parsed)->Ok_0.0, merge_user(parsed)->Ok_0.1),
    decreases parsed.len(),
{
    if parsed.len() == 0 {
        assert forall|a: KeyAction| #[trigger] keys_of(Seq::<(KeyAction, Seq<KeyEx>)>::empty(), a) == Seq::<KeyEx>::empty() by {}
    } else {
        let rest = parsed.drop_last();
        lemma_merge_user_agree(rest);
        let (k2a, a2k) = merge_user(rest)->Ok_0;
        let (key, a) = parsed.last();
        match key {
            Some(k) => lemma_agree_bind(k2a, a2k, k, a),
            None => lemma_agree_unbind(k2a, a2k, a),
        }
    }
}

proof fn lemma_add_default_keys_agree(
    a: KeyAction,
    keys: Seq<KeyEx>,
    k2a: Seq<(KeyEx, KeyAction)>,
    a2k: Seq<(KeyAction, Seq<KeyEx>)>,
)
    requires
        maps_agree(k2a, a2k),
        add_default_keys(a, keys, k2a, a2k) is Ok,
    ensures
        maps_agree(add_default_keys(a, keys, k2a, a2k)->Ok_0.0, add_default_keys(a, keys, k2a, a2k)->Ok_0.1),
    decreases keys.len(),
{
    if keys.len() > 0 {
        lemma_add_default_keys_agree(a, keys.drop_last(), k2a, a2k);
        let (k1, a1) = add_default_keys(a, keys.drop_last(), k2a, a2k)->Ok_0;
        lemma_agree_bind(k1, a1, keys.last(), a);
    }
}

proof fn lemma_merge_defaults_agree(
    defs: Seq<(KeyAction, Seq<KeyEx>)>,
    k2a: Seq<(KeyEx, KeyAction)>,
    a2k: Seq<(KeyAction, Seq<KeyEx>)>,
)
    requires
        maps_agree(k2a, a2k),
        merge_defaults(defs, k2a, a2k) is Ok,
    ensures
        maps_agree(merge_defaults(defs, k2a, a2k)->Ok_0.0, merge_defaults(defs, k2a, a2k)->Ok_0.1),
    decreases defs.len(),
{
    if defs.len() > 0 {
        lemma_merge_defaults_agree(defs.drop_last(), k2a, a2k);
        let (k1, a1) = merge_defaults(defs.drop_last(), k2a, a2k)->Ok_0;
        let (a, keys) = defs.last();
        if lookup(a1, a) is None {
            lemma_add_default_keys_agree(a, keys, k1, a1);
        }
    }
}

/// In each section of an accepted configuration the two maps agree: a key is bound to an
/// action exactly when it is among that action's keys.
pub proof fn lemma_config_maps_agree(text: Seq<char>)
    requires
        parse_config_spec(text) is Ok,
    ensures
        maps_agree(parse_config_spec(text)->Ok_0.0.0, parse_config_spec(text)->Ok_0.0.1),
        maps_agree(parse_config_spec(text)->Ok_0.1.0, parse_config_spec(text)->Ok_0.1.1),
{
    let st = scan_config(lines(text), config_start())->Ok_0;
    lemma_merge_user_agree(st.keys);
    let (k1, a1) = merge_user(st.keys)->Ok_0;
    lemma_merge_defaults_agree(keymap_from(default_normal_pairs()).1, k1, a1);
    lemma_merge_user_agree(st.text);
    let (k2, a2) = merge_user(st.text)->Ok_0;
    lemma_merge_defaults_agree(keymap_from(default_text_pairs()).1, k2, a2);
}

impl PartialEq for KeyMap {
    fn eq(&self, other: &Self) -> (r: bool) {
        let r = keys_agree(self, other) && keys_agree(other, self) && actions_agree(self, other) && actions_agree(other, self);
        proof {
            if r {
                assert forall|k: KeyEx| #[trigger] lookup(self.key_pairs(), k) == lookup(other.key_pairs(), k) by {
                    if exists|i: int| 0 <= i < self.key_pairs().len() && self.key_pairs()[i].0 == k {
                        let i = choose|i: int| 0 <= i < self.key_pairs().len() && self.key_pairs()[i].0 == k;
                        assert(lookup(self.key_pairs(), self.key_pairs()[i].0) == lookup(other.key_pairs(), self.key_pairs()[i].0));
                    } else if exists|i: int| 0 <= i < other.key_pairs().len() && other.key_pairs()[i].0 == k {
                        let i = choose|i: int| 0 <= i < other.key_pairs().len() && other.key_pairs()[i].0 == k;
                        assert(lookup(other.key_pairs(), other.key_pairs()[i].0) == lookup(self.key_pairs(), other.key_pairs()[i].0));
                    } else {
                        lemma_lookup_absent(self.key_pairs(), k);
                        lemma_lookup_absent(other.key_pairs(), k);
                    }
                }
                assert forall|x: KeyAction| #[trigger] lookup(self.action_entries(), x) == lookup(other.action_entries(), x) by {
                    if exists|i: int| 0 <= i < self.action_entries().len() && self.action_entries()[i].0 == x {
                        let i = choose|i: int| 0 <= i < self.action_entries().len() && self.action_entries()[i].0 == x;
                        assert(lookup(self.action_entries(), self.action_entries()[i].0) == lookup(other.action_entries(), self.action_entries()[i].0));
                    } else if exists|i: int| 0 <= i < other.action_entries().len() && other.action_entries()[i].0 == x {
                        let i = choose|i: int| 0 <= i < other.action_entries().len() && other.action_entries()[i].0 == x;
                        assert(lookup(other.action_entries(), other.action_entries()[i].0) == lookup(self.action_entries(), other.action_entries()[i].0));
                    } else {
                        lemma_lookup_absent(self.action_entries(), x);
                        lemma_lookup_absent(other.action_entries(), x);
                    }
                }
            }
        }
        r
    }
}

impl vstd::std_specs::cmp::PartialEqSpecImpl for KeyMap {
    open spec fn obeys_eq_spec() -> bool {
        true
    }

    open spec fn eq_spec(&self, other: &Self) -> bool {
        same_keymap(*self, *other)
    }
}

impl Eq for KeyMap {}

} // verus!
