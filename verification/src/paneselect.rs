//! The pane selector: pick a pane by typing its label.
//!
//! Every pane on screen is shown with a short label over an alphabet. The
//! keys typed so far form the selection; as soon as the selection is the
//! label of a pane, that pane is chosen. This module holds the selector's
//! state and what each key does to it. Laying the labels out on screen is
//! the caller's part.

use vstd::prelude::*;

verus! {

/// `String::push` appends the given character to the end of the string.
pub assume_specification[ String::push ](s: &mut String, ch: char)
    ensures
        final(s)@ == old(s)@.push(ch),
;

/// `String::pop` removes the last character of the string and returns it, or
/// returns `None` and leaves the string as it is when the string is empty.
pub assume_specification[ String::pop ](s: &mut String) -> (ch: Option<char>)
    ensures
        match ch {
            Some(c) => old(s)@.len() > 0 && c == old(s)@.last() && final(s)@ == old(
                s,
            )@.drop_last(),
            None => old(s)@.len() == 0 && final(s)@ == old(s)@,
        },
;

/// `String::clear` removes all contents of the string.
pub assume_specification[ String::clear ](s: &mut String)
    ensures
        final(s)@ == Seq::<char>::empty(),
;

/// The keys that the selector tells apart.
#[derive(Clone, Copy, Debug, PartialEq, Eq, Structural)]
pub enum SelectorKey {
    Escape,
    Backspace,
    Char(char),
    /// Any other key.
    Other,
}

/// The modifier state that the selector tells apart.
#[derive(Clone, Copy, Debug, PartialEq, Eq, Structural)]
pub enum SelectorMods {
    /// No modifier.
    Plain,
    Shift,
    Ctrl,
    /// Any other modifier or combination of modifiers.
    Other,
}

/// What the caller has to do after a key.
#[derive(Clone, Copy, Debug, PartialEq, Eq, Structural)]
pub enum SelectorAction {
    /// Nothing; the selector stays open.
    Stay,
    /// Close the selector.
    Cancel,
    /// The selection is the label of the pane with this index: the pane is
    /// to be made the active one and the selector closed, as far as the
    /// window allows; see [`follow_up`].
    Activate(usize),
}

/// What is to be done once a key has been handled and the window has been
/// looked at.
#[derive(Clone, Copy, Debug, PartialEq, Eq, Structural)]
pub struct SelectorStep {
    /// The pane to make the active one, if any.
    pub activate: Option<usize>,
    /// Whether the selector is closed.
    pub close: bool,
}

/// What follows from `action` in a window: `active_tab` says whether the
/// window has an active tab, `overlay` whether that tab is covered by an
/// overlay, and `pane_exists` whether the tab has a pane with the index that
/// the action names.
///
/// A cancel closes the selector. A match in a window without an active tab
/// does nothing and leaves the selector open. Otherwise a match closes the
/// selector, and activates the pane only if no overlay covers the tab and
/// the pane exists.
pub open spec fn step_for(
    action: SelectorAction,
    active_tab: bool,
    overlay: bool,
    pane_exists: bool,
) -> SelectorStep {
    match action {
        SelectorAction::Stay => SelectorStep { activate: None, close: false },
        SelectorAction::Cancel => SelectorStep { activate: None, close: true },
        SelectorAction::Activate(index) => if !active_tab {
            SelectorStep { activate: None, close: false }
        } else if !overlay && pane_exists {
            SelectorStep { activate: Some(index), close: true }
        } else {
            SelectorStep { activate: None, close: true }
        },
    }
}

/// What follows from `action` in a window; see [`step_for`].
pub fn follow_up(action: SelectorAction, active_tab: bool, overlay: bool, pane_exists: bool) -> (step:
    SelectorStep)
    ensures
        step == step_for(action, active_tab, overlay, pane_exists),
{
    match action {
        SelectorAction::Stay => SelectorStep { activate: None, close: false },
        SelectorAction::Cancel => SelectorStep { activate: None, close: true },
        SelectorAction::Activate(index) => {
            if !active_tab {
                SelectorStep { activate: None, close: false }
            } else if !overlay && pane_exists {
                SelectorStep { activate: Some(index), close: true }
            } else {
                SelectorStep { activate: None, close: true }
            }
        },
    }
}

/// The labels of `labels` as sequences of characters.
pub open spec fn label_texts(labels: Seq<String>) -> Seq<Seq<char>> {
    Seq::new(labels.len(), |i: int| labels[i]@)
}

/// Whether `index` is the first label that equals `selection`.
pub open spec fn first_match(labels: Seq<Seq<char>>, selection: Seq<char>, index: int) -> bool {
    &&& 0 <= index < labels.len()
    &&& labels[index] == selection
    &&& forall|j: int| 0 <= j < index ==> labels[j] != selection
}

/// Whether no label equals `selection`.
pub open spec fn no_match(labels: Seq<Seq<char>>, selection: Seq<char>) -> bool {
    forall|j: int| 0 <= j < labels.len() ==> labels[j] != selection
}

/// The selection after a key.
pub open spec fn selection_after(selection: Seq<char>, key: SelectorKey, mods: SelectorMods) -> Seq<
    char,
> {
    match (key, mods) {
        (SelectorKey::Char(c), SelectorMods::Plain) => selection.push(c),
        (SelectorKey::Char(c), SelectorMods::Shift) => selection.push(c),
        (SelectorKey::Backspace, SelectorMods::Plain) => if selection.len() > 0 {
            selection.drop_last()
        } else {
            selection
        },
        (SelectorKey::Char(c), SelectorMods::Ctrl) => if c == 'u' {
            Seq::empty()
        } else {
            selection
        },
        _ => selection,
    }
}

/// Whether a key adds a character to the selection.
pub open spec fn types(key: SelectorKey, mods: SelectorMods) -> bool {
    key is Char && (mods == SelectorMods::Plain || mods == SelectorMods::Shift)
}

/// The state of the pane selector.
pub struct PaneSelector {
    computed: bool,
    labels: Vec<String>,
    selection: String,
    alphabet: String,
}

impl PaneSelector {
    /// The alphabet that labels are made of.
    pub closed spec fn alphabet(&self) -> Seq<char> {
        self.alphabet@
    }

    /// The labels of the panes, by pane index.
    pub closed spec fn labels(&self) -> Seq<Seq<char>> {
        label_texts(self.labels@)
    }

    /// The characters typed so far.
    pub closed spec fn selection(&self) -> Seq<char> {
        self.selection@
    }

    /// Whether the labels are laid out for the current configuration.
    pub closed spec fn computed(&self) -> bool {
        self.computed
    }

    /// A selector over `alphabet`, or over `default_alphabet` when
    /// `alphabet` is empty. It has no labels and no selection yet.
    pub fn new(alphabet: String, default_alphabet: String) -> (selector: PaneSelector)
        ensures
            selector.alphabet() == if alphabet@.len() == 0 {
                default_alphabet@
            } else {
                alphabet@
            },
            selector.labels() == Seq::<Seq<char>>::empty(),
            selector.selection() == Seq::<char>::empty(),
            !selector.computed(),
    {
        let chosen = if alphabet.as_str().is_empty() {
            default_alphabet
        } else {
            alphabet
        };
        let selector = PaneSelector {
            computed: false,
            labels: Vec::new(),
            selection: String::new(),
            alphabet: chosen,
        };
        assert(selector.labels() =~= Seq::<Seq<char>>::empty());
        selector
    }

    /// The alphabet that labels are made of.
    pub fn alphabet_str(&self) -> (alphabet: &str)
        ensures
            alphabet@ == self.alphabet(),
    {
        self.alphabet.as_str()
    }

    /// The characters typed so far.
    pub fn selection_str(&self) -> (selection: &str)
        ensures
            selection@ == self.selection(),
    {
        self.selection.as_str()
    }

    /// The number of labels.
    pub fn label_count(&self) -> (count: usize)
        ensures
            count == self.labels().len(),
    {
        self.labels.len()
    }

    /// Whether the labels have to be laid out before they can be shown:
    /// after creation and after every reconfiguration.
    pub fn needs_layout(&self) -> (needed: bool)
        ensures
            needed == !self.computed(),
    {
        !self.computed
    }

    /// Stores the labels that were laid out, one per pane, by pane index.
    pub fn set_labels(&mut self, labels: Vec<String>)
        ensures
            final(self).labels() == label_texts(labels@),
            final(self).computed(),
            final(self).selection() == old(self).selection(),
            final(self).alphabet() == old(self).alphabet(),
    {
        self.labels = labels;
        self.computed = true;
    }

    /// Drops the layout after a change of configuration. Labels and
    /// selection stay.
    pub fn reconfigure(&mut self)
        ensures
            !final(self).computed(),
            final(self).labels() == old(self).labels(),
            final(self).selection() == old(self).selection(),
            final(self).alphabet() == old(self).alphabet(),
    {
        self.computed = false;
    }

    /// Whether the selector handles key assignments itself. It never does.
    pub fn perform_assignment(&self) -> (handled: bool)
        ensures
            !handled,
    {
        false
    }

    /// The index of the first label that equals the selection.
    fn matching_label(&self) -> (found: Option<usize>)
        ensures
            match found {
                Some(index) => first_match(self.labels(), self.selection(), index as int),
                None => no_match(self.labels(), self.selection()),
            },
    {
        let mut i: usize = 0;
        while i < self.labels.len()
            invariant
                i <= self.labels.len(),
                forall|j: int| 0 <= j < i ==> self.labels()[j] != self.selection(),
            decreases self.labels.len() - i,
        {
            if self.labels[i] == self.selection {
                assert(self.labels()[i as int] == self.selection());
                return Some(i);
            }
            assert(self.labels()[i as int] != self.selection());
            i += 1;
        }
        None
    }

    /// Handles one key.
    ///
    /// Escape closes the selector. A character, plain or shifted, is added
    /// to the selection; if the selection then is a pane's label, the first
    /// such pane is to be activated. Backspace removes the last character
    /// and Ctrl-u all of them. Every other key does nothing. Labels,
    /// alphabet and layout are never changed.
    pub fn key_down(&mut self, key: SelectorKey, mods: SelectorMods) -> (action: SelectorAction)
        ensures
            final(self).selection() == selection_after(old(self).selection(), key, mods),
            final(self).labels() == old(self).labels(),
            final(self).alphabet() == old(self).alphabet(),
            final(self).computed() == old(self).computed(),
            match action {
                SelectorAction::Cancel => key == SelectorKey::Escape && mods == SelectorMods::Plain,
                SelectorAction::Activate(index) => types(key, mods) && first_match(
                    final(self).labels(),
                    final(self).selection(),
                    index as int,
                ),
                SelectorAction::Stay => !(key == SelectorKey::Escape && mods == SelectorMods::Plain)
                    && (types(key, mods) ==> no_match(
                    final(self).labels(),
                    final(self).selection(),
                )),
            },
    {
        match (key, mods) {
            (SelectorKey::Escape, SelectorMods::Plain) => SelectorAction::Cancel,
            (SelectorKey::Char(c), SelectorMods::Plain) | (
                SelectorKey::Char(c),
                SelectorMods::Shift,
            ) => {
                self.selection.push(c);
                match self.matching_label() {
                    Some(index) => SelectorAction::Activate(index),
                    None => SelectorAction::Stay,
                }
            },
            (SelectorKey::Backspace, SelectorMods::Plain) => {
                let _ = self.selection.pop();
                SelectorAction::Stay
            },
            (SelectorKey::Char(c), SelectorMods::Ctrl) => {
                if c == 'u' {
                    self.selection.clear();
                }
                SelectorAction::Stay
            },
            _ => SelectorAction::Stay,
        }
    }
}

} // verus!
