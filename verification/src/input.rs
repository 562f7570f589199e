//! Keyboard input: keys, the prefix-key state machine, key bindings, and the
//! bytes a key sends to a terminal.
use vstd::prelude::*;
use vstd::utf8::encode_scalar;

use crate::config::Config;
use crate::event::AppEvent;
use crate::text::str_eq;
use vstd::string::StringExecFns;

verus! {

/// A key on the keyboard.
#[derive(Debug, Clone, Copy, PartialEq, Eq, Structural)]
pub enum KeyCode {
    Backspace,
    Enter,
    Left,
    Right,
    Up,
    Down,
    Home,
    End,
    PageUp,
    PageDown,
    Tab,
    BackTab,
    Delete,
    Insert,
    F(u8),
    Char(char),
    Null,
    Esc,
    /// Any other key (lock keys, media keys, lone modifier keys, ...).
    Other,
}

/// A set of modifier keys, one bit each.
#[derive(Debug, Clone, Copy, PartialEq, Eq, Structural)]
pub struct KeyModifiers {
    pub bits: u8,
}

impl KeyModifiers {
    /// No modifier.
    pub fn none() -> (r: KeyModifiers)
        ensures
            r.bits == 0,
    {
        KeyModifiers { bits: 0 }
    }

    /// Shift.
    pub fn shift() -> (r: KeyModifiers)
        ensures
            r.bits == 1,
    {
        KeyModifiers { bits: 1 }
    }

    /// Control.
    pub fn control() -> (r: KeyModifiers)
        ensures
            r.bits == 2,
    {
        KeyModifiers { bits: 2 }
    }

    /// Alt (also Meta on most terminals).
    pub fn alt() -> (r: KeyModifiers)
        ensures
            r.bits == 4,
    {
        KeyModifiers { bits: 4 }
    }

    /// Whether every modifier of `other` is held in `self`.
    pub open spec fn spec_contains(self, other: KeyModifiers) -> bool {
        self.bits & other.bits == other.bits
    }

    /// Whether every modifier of `other` is held in `self`.
    pub fn contains(&self, other: KeyModifiers) -> (r: bool)
        ensures
            r == self.spec_contains(other),
    {
        self.bits & other.bits == other.bits
    }

    /// The modifiers of `self` together with those of `other`.
    pub fn union(&self, other: KeyModifiers) -> (r: KeyModifiers)
        ensures
            r.bits == self.bits | other.bits,
    {
        KeyModifiers { bits: self.bits | other.bits }
    }
}

/// A key press: the key and the modifiers held with it.
#[derive(Debug, Clone, Copy, PartialEq, Eq, Structural)]
pub struct KeyEvent {
    pub code: KeyCode,
    pub modifiers: KeyModifiers,
}

/// Whether the prefix key has just been pressed.
#[derive(Debug, Clone, Copy, PartialEq, Eq, Structural)]
pub enum InputMode {
    Normal,
    Prefix,
}

/// What a key press asks the application to do.
#[derive(Debug)]
pub enum Action {
    ForwardToPty(Vec<u8>),
    SplitVertical,
    SplitHorizontal,
    FocusUp,
    FocusDown,
    FocusLeft,
    FocusRight,
    ClosePane,
    ToggleSidebar,
    ResizeUp,
    ResizeDown,
    ResizeLeft,
    ResizeRight,
    ToggleZoom,
    NewWindow,
    SwitchWindow(usize),
    Quit,
    NoOp,
}

/// The action a binding names; unknown names do nothing.
pub open spec fn spec_action_from_name(name: Seq<char>) -> Action {
    if name == "split_vertical"@ {
        Action::SplitVertical
    } else if name == "split_horizontal"@ {
        Action::SplitHorizontal
    } else if name == "close_pane"@ {
        Action::ClosePane
    } else if name == "toggle_sidebar"@ {
        Action::ToggleSidebar
    } else if name == "new_window"@ {
        Action::NewWindow
    } else if name == "quit"@ {
        Action::Quit
    } else if name == "focus_up"@ {
        Action::FocusUp
    } else if name == "focus_down"@ {
        Action::FocusDown
    } else if name == "focus_left"@ {
        Action::FocusLeft
    } else if name == "focus_right"@ {
        Action::FocusRight
    } else if name == "resize_up"@ {
        Action::ResizeUp
    } else if name == "resize_down"@ {
        Action::ResizeDown
    } else if name == "resize_left"@ {
        Action::ResizeLeft
    } else if name == "resize_right"@ {
        Action::ResizeRight
    } else if name == "toggle_zoom"@ {
        Action::ToggleZoom
    } else {
        Action::NoOp
    }
}

/// The action that the binding name `name` stands for.
pub fn action_from_name(name: &str) -> (r: Action)
    ensures
        r == spec_action_from_name(name@),
{
    if str_eq(name, "split_vertical") {
        Action::SplitVertical
    } else if str_eq(name, "split_horizontal") {
        Action::SplitHorizontal
    } else if str_eq(name, "close_pane") {
        Action::ClosePane
    } else if str_eq(name, "toggle_sidebar") {
        Action::ToggleSidebar
    } else if str_eq(name, "new_window") {
        Action::NewWindow
    } else if str_eq(name, "quit") {
        Action::Quit
    } else if str_eq(name, "focus_up") {
        Action::FocusUp
    } else if str_eq(name, "focus_down") {
        Action::FocusDown
    } else if str_eq(name, "focus_left") {
        Action::FocusLeft
    } else if str_eq(name, "focus_right") {
        Action::FocusRight
    } else if str_eq(name, "resize_up") {
        Action::ResizeUp
    } else if str_eq(name, "resize_down") {
        Action::ResizeDown
    } else if str_eq(name, "resize_left") {
        Action::ResizeLeft
    } else if str_eq(name, "resize_right") {
        Action::ResizeRight
    } else if str_eq(name, "toggle_zoom") {
        Action::ToggleZoom
    } else {
        Action::NoOp
    }
}

/// The UTF-8 encoding of `c`.
pub fn encode_char(c: char) -> (r: Vec<u8>)
    ensures
        r@ == encode_scalar(c as u32),
{
    let u = c as u32;
    proof {
        vstd::utf8::char_is_scalar(c);
    }
    let mut v: Vec<u8> = Vec::new();
    if u <= 0x7F {
        v.push((u & 0x7F) as u8);
    } else if u <= 0x7FF {
        v.push(0xC0u8 | ((u >> 6) & 0x1F) as u8);
        v.push(0x80u8 | (u & 0x3F) as u8);
    } else if u <= 0xFFFF {
        v.push(0xE0u8 | ((u >> 12) & 0x0F) as u8);
        v.push(0x80u8 | ((u >> 6) & 0x3F) as u8);
        v.push(0x80u8 | (u & 0x3F) as u8);
    } else {
        v.push(0xF0u8 | ((u >> 18) & 0x7) as u8);
        v.push(0x80u8 | ((u >> 12) & 0x3F) as u8);
        v.push(0x80u8 | ((u >> 6) & 0x3F) as u8);
        v.push(0x80u8 | (u & 0x3F) as u8);
    }
    proof {
        assert(v@ =~= encode_scalar(u));
    }
    v
}

/// The control byte sent for Ctrl plus `c`: the low byte of the character,
/// shifted so that `a` gives 1 (wrapping around 256).
pub open spec fn ctrl_byte(c: char) -> u8 {
    (((c as u32 % 256) + 256 - 97 + 1) % 256) as u8
}

/// The bytes that a terminal program receives for `key`.
pub open spec fn spec_key_bytes(key: KeyEvent) -> Seq<u8> {
    match key.code {
        KeyCode::Char(c) => if key.modifiers.spec_contains(KeyModifiers { bits: 2 }) {
            seq![ctrl_byte(c)]
        } else {
            encode_scalar(c as u32)
        },
        KeyCode::Enter => seq![13u8],
        KeyCode::Backspace => seq![127u8],
        KeyCode::Tab => seq![9u8],
        KeyCode::Esc => seq![0x1bu8],
        KeyCode::Up => seq![0x1bu8, 91u8, 65u8],
        KeyCode::Down => seq![0x1bu8, 91u8, 66u8],
        KeyCode::Right => seq![0x1bu8, 91u8, 67u8],
        KeyCode::Left => seq![0x1bu8, 91u8, 68u8],
        KeyCode::Home => seq![0x1bu8, 91u8, 72u8],
        KeyCode::End => seq![0x1bu8, 91u8, 70u8],
        KeyCode::Delete => seq![0x1bu8, 91u8, 51u8, 126u8],
        _ => seq![],
    }
}

/// The bytes that a terminal program receives for `key`: control bytes for
/// Ctrl-letters, UTF-8 for characters, escape sequences for cursor keys, and
/// nothing for keys it has no encoding for.
pub fn key_to_bytes(key: KeyEvent) -> (r: Vec<u8>)
    ensures
        r@ == spec_key_bytes(key),
{
    let mut v: Vec<u8> = Vec::new();
    match key.code {
        KeyCode::Char(c) => {
            if key.modifiers.contains(KeyModifiers::control()) {
                let low: u32 = (c as u32) % 256;
                let byte: u8 = ((low + 256 - 97 + 1) % 256) as u8;
                v.push(byte);
            } else {
                v = encode_char(c);
            }
        },
        KeyCode::Enter => v.push(13u8),
        KeyCode::Backspace => v.push(127u8),
        KeyCode::Tab => v.push(9u8),
        KeyCode::Esc => v.push(0x1bu8),
        KeyCode::Up => {
            v.push(0x1bu8);
            v.push(91u8);
            v.push(65u8);
        },
        KeyCode::Down => {
            v.push(0x1bu8);
            v.push(91u8);
            v.push(66u8);
        },
        KeyCode::Right => {
            v.push(0x1bu8);
            v.push(91u8);
            v.push(67u8);
        },
        KeyCode::Left => {
            v.push(0x1bu8);
            v.push(91u8);
            v.push(68u8);
        },
        KeyCode::Home => {
            v.push(0x1bu8);
            v.push(91u8);
            v.push(72u8);
        },
        KeyCode::End => {
            v.push(0x1bu8);
            v.push(91u8);
            v.push(70u8);
        },
        KeyCode::Delete => {
            v.push(0x1bu8);
            v.push(91u8);
            v.push(51u8);
            v.push(126u8);
        },
        _ => {},
    }
    proof {
        assert(v@ =~= spec_key_bytes(key));
    }
    v
}


/// A key together with its modifiers, as looked up among the bindings.
pub type KeyCombo = (KeyModifiers, KeyCode);

/// One key binding: the key pressed after the prefix and the action name.
#[derive(Debug)]
pub struct Binding {
    pub modifiers: KeyModifiers,
    pub code: KeyCode,
    pub action: String,
}

/// The bindings as (key, action name) entries, in order.
pub open spec fn binding_entries(bs: Seq<Binding>) -> Seq<(KeyCombo, Seq<char>)> {
    bs.map_values(|b: Binding| ((b.modifiers, b.code), b.action@))
}

/// The map from keys to action names that a list of entries describes; a
/// later entry for the same key wins.
pub open spec fn entries_map(es: Seq<(KeyCombo, Seq<char>)>) -> Map<KeyCombo, Seq<char>>
    decreases es.len(),
{
    if es.len() == 0 {
        Map::empty()
    } else {
        entries_map(es.drop_last()).insert(es.last().0, es.last().1)
    }
}

/// No key occurs twice among the entries.
pub open spec fn keys_unique(es: Seq<(KeyCombo, Seq<char>)>) -> bool {
    forall|i: int, j: int| 0 <= i < j < es.len() ==> es[i].0 != es[j].0
}

/// `m` without the keys bound to the action `name`.
pub open spec fn without_action(m: Map<KeyCombo, Seq<char>>, name: Seq<char>) -> Map<
    KeyCombo,
    Seq<char>,
> {
    Map::new(|k: KeyCombo| m.contains_key(k) && m[k] != name, |k: KeyCombo| m[k])
}

/// `m` with the action `name` moved to the key `key` (replacing whatever
/// `key` was bound to).
pub open spec fn rebind(m: Map<KeyCombo, Seq<char>>, name: Seq<char>, key: KeyCombo) -> Map<
    KeyCombo,
    Seq<char>,
> {
    without_action(m, name).insert(key, name)
}

/// Rebinding an action moves it: its new key asks for it, no other key
/// does, and every other key keeps the action it had.
pub proof fn lemma_rebind_moves_action(m: Map<KeyCombo, Seq<char>>, name: Seq<char>, key: KeyCombo)
    ensures
        rebind(m, name, key).contains_key(key),
        rebind(m, name, key)[key] == name,
        forall|k: KeyCombo| k != key && #[trigger] rebind(m, name, key).contains_key(k) ==> rebind(m, name, key)[k] != name,
        forall|k: KeyCombo|
            k != key && m.contains_key(k) && m[k] != name ==> #[trigger] rebind(m, name, key).contains_key(k)
                && rebind(m, name, key)[k] == m[k],
{
}

/// `m` after rebinding each (action name, key) of `bs`, in order.
pub open spec fn apply_bindings(
    m: Map<KeyCombo, Seq<char>>,
    bs: Seq<(Seq<char>, KeyCombo)>,
) -> Map<KeyCombo, Seq<char>>
    decreases bs.len(),
{
    if bs.len() == 0 {
        m
    } else {
        apply_bindings(rebind(m, bs[0].0, bs[0].1), bs.drop_first())
    }
}

/// The built-in bindings, in tmux style.
pub open spec fn default_entries() -> Seq<(KeyCombo, Seq<char>)> {
    let none = KeyModifiers { bits: 0 };
    let ctrl = KeyModifiers { bits: 2 };
    seq![
        ((none, KeyCode::Char('%')), "split_vertical"@),
        ((none, KeyCode::Char('"')), "split_horizontal"@),
        ((none, KeyCode::Char('x')), "close_pane"@),
        ((none, KeyCode::Char('z')), "toggle_sidebar"@),
        ((none, KeyCode::Char('c')), "new_window"@),
        ((none, KeyCode::Char('f')), "toggle_zoom"@),
        ((none, KeyCode::Char('q')), "quit"@),
        ((none, KeyCode::Up), "focus_up"@),
        ((none, KeyCode::Down), "focus_down"@),
        ((none, KeyCode::Left), "focus_left"@),
        ((none, KeyCode::Right), "focus_right"@),
        ((ctrl, KeyCode::Up), "resize_up"@),
        ((ctrl, KeyCode::Down), "resize_down"@),
        ((ctrl, KeyCode::Left), "resize_left"@),
        ((ctrl, KeyCode::Right), "resize_right"@),
    ]
}

/// The built-in bindings as a map.
pub open spec fn default_binding_map() -> Map<KeyCombo, Seq<char>> {
    entries_map(default_entries())
}

proof fn lemma_entries_map_absent(es: Seq<(KeyCombo, Seq<char>)>, k: KeyCombo)
    requires
        forall|i: int| 0 <= i < es.len() ==> es[i].0 != k,
    ensures
        !entries_map(es).contains_key(k),
    decreases es.len(),
{
    if es.len() > 0 {
        lemma_entries_map_absent(es.drop_last(), k);
    }
}

proof fn lemma_entries_map_update(es: Seq<(KeyCombo, Seq<char>)>, i: int, name: Seq<char>)
    requires
        keys_unique(es),
        0 <= i < es.len(),
    ensures
        entries_map(es.update(i, (es[i].0, name))) == entries_map(es).insert(es[i].0, name),
    decreases es.len(),
{
    let u = es.update(i, (es[i].0, name));
    if i == es.len() - 1 {
        assert(u.drop_last() =~= es.drop_last());
        assert(entries_map(u) =~= entries_map(es).insert(es[i].0, name));
    } else {
        assert(u.drop_last() =~= es.drop_last().update(i, (es[i].0, name)));
        lemma_entries_map_update(es.drop_last(), i, name);
        assert(es[i].0 != es.last().0);
        assert(entries_map(u) =~= entries_map(es).insert(es[i].0, name));
    }
}

fn key_eq(a: &KeyCombo, b: &KeyCombo) -> (r: bool)
    ensures
        r == (*a == *b),
{
    a.0 == b.0 && a.1 == b.1
}

fn copy_binding(b: &Binding) -> (r: Binding)
    ensures
        r.modifiers == b.modifiers,
        r.code == b.code,
        r.action@ == b.action@,
{
    Binding { modifiers: b.modifiers, code: b.code, action: b.action.clone() }
}

/// The bindings without those of the action `name`.
fn remove_action(bs: &Vec<Binding>, name: &String) -> (r: Vec<Binding>)
    requires
        keys_unique(binding_entries(bs@)),
    ensures
        keys_unique(binding_entries(r@)),
        entries_map(binding_entries(r@)) == without_action(entries_map(binding_entries(bs@)), name@),
{
    let ghost es = binding_entries(bs@);
    let mut out: Vec<Binding> = Vec::new();
    let mut i: usize = 0;
    while i < bs.len()
        invariant
            es == binding_entries(bs@),
            keys_unique(es),
            i <= bs@.len(),
            keys_unique(binding_entries(out@)),
            forall|j: int| 0 <= j < out@.len() ==> exists|p: int| 0 <= p < i && #[trigger] binding_entries(out@)[j].0 == es[p].0,
            entries_map(binding_entries(out@)) == without_action(entries_map(es.take(i as int)), name@),
        decreases bs.len() - i,
    {
        let ghost prev = binding_entries(out@);
        let ghost e = es[i as int];
        proof {
            assert(es.take(i + 1).drop_last() =~= es.take(i as int));
            assert(es.take(i + 1).last() == e);
        }
        if bs[i].action != *name {
            let b = copy_binding(&bs[i]);
            out.push(b);
            proof {
                assert(binding_entries(out@).drop_last() =~= prev);
                assert(binding_entries(out@).last() == e);
                assert forall|p: int, q: int| 0 <= p < q < binding_entries(out@).len() implies binding_entries(out@)[p].0
                    != binding_entries(out@)[q].0 by {
                    if q == prev.len() {
                        assert(binding_entries(out@)[p] == prev[p]);
                        let w = choose|w: int| 0 <= w < i && #[trigger] prev[p].0 == es[w].0;
                    } else {
                        assert(binding_entries(out@)[p] == prev[p]);
                        assert(binding_entries(out@)[q] == prev[q]);
                    }
                }
                assert forall|j: int| 0 <= j < out@.len() implies exists|p: int| 0 <= p < i + 1 && #[trigger] binding_entries(out@)[j].0 == es[p].0 by {
                    if j < prev.len() {
                        assert(binding_entries(out@)[j] == prev[j]);
                        let w = choose|w: int| 0 <= w < i && #[trigger] prev[j].0 == es[w].0;
                        assert(binding_entries(out@)[j].0 == es[w].0);
                    } else {
                        assert(binding_entries(out@)[j].0 == es[i as int].0);
                    }
                }
                assert(entries_map(binding_entries(out@)) =~= without_action(entries_map(es.take(i + 1)), name@));
            }
        } else {
            proof {
                assert forall|p: int| 0 <= p < es.take(i as int).len() implies es.take(i as int)[p].0 != e.0 by {
                    assert(es.take(i as int)[p] == es[p]);
                }
                lemma_entries_map_absent(es.take(i as int), e.0);
                assert(entries_map(binding_entries(out@)) =~= without_action(entries_map(es.take(i + 1)), name@));
            }
        }
        i = i + 1;
    }
    proof {
        assert(es.take(bs@.len() as int) =~= es);
    }
    out
}

/// Binds `name` to the key (`modifiers`, `code`), replacing what it was bound to.
fn bind_key(bs: &mut Vec<Binding>, modifiers: KeyModifiers, code: KeyCode, name: String)
    requires
        keys_unique(binding_entries(old(bs)@)),
    ensures
        keys_unique(binding_entries(final(bs)@)),
        entries_map(binding_entries(final(bs)@)) == entries_map(binding_entries(old(bs)@)).insert(
            (modifiers, code),
            name@,
        ),
{
    let key = (modifiers, code);
    let mut i: usize = 0;
    while i < bs.len()
        invariant
            bs@ == old(bs)@,
            keys_unique(binding_entries(old(bs)@)),
            key == (modifiers, code),
            i <= bs@.len(),
            forall|j: int| 0 <= j < i ==> binding_entries(bs@)[j].0 != key,
        decreases bs.len() - i,
    {
        let k = (bs[i].modifiers, bs[i].code);
        if key_eq(&k, &key) {
            let ghost es = binding_entries(bs@);
            let ghost idx = i as int;
            assert(es[idx].0 == key);
            bs.set(i, Binding { modifiers, code, action: name });
            proof {
                assert(binding_entries(bs@) =~= es.update(idx, (es[idx].0, name@)));
                lemma_entries_map_update(es, idx, name@);
                assert forall|p: int, q: int| 0 <= p < q < binding_entries(bs@).len() implies binding_entries(bs@)[p].0
                    != binding_entries(bs@)[q].0 by {
                    assert(binding_entries(bs@)[p].0 == es[p].0);
                    assert(binding_entries(bs@)[q].0 == es[q].0);
                }
            }
            return;
        }
        i = i + 1;
    }
    let ghost es = binding_entries(bs@);
    bs.push(Binding { modifiers, code, action: name });
    proof {
        assert(binding_entries(bs@).drop_last() =~= es);
        assert(binding_entries(bs@).last() == (key, name@));
        assert forall|p: int, q: int| 0 <= p < q < binding_entries(bs@).len() implies binding_entries(bs@)[p].0
            != binding_entries(bs@)[q].0 by {
            assert(binding_entries(bs@)[p].0 == es[p].0);
            if q < es.len() {
                assert(binding_entries(bs@)[q].0 == es[q].0);
            } else {
                assert(binding_entries(bs@)[q].0 == key);
            }
        }
    }
}

fn binding(bits: u8, code: KeyCode, name: &str) -> (r: Binding)
    ensures
        r.modifiers == (KeyModifiers { bits }),
        r.code == code,
        r.action@ == name@,
{
    Binding { modifiers: KeyModifiers { bits }, code, action: String::from_str(name) }
}

/// The built-in bindings.
pub fn default_bindings() -> (r: Vec<Binding>)
    ensures
        binding_entries(r@) == default_entries(),
        keys_unique(binding_entries(r@)),
{
    let mut m: Vec<Binding> = Vec::new();
    m.push(binding(0, KeyCode::Char('%'), "split_vertical"));
    m.push(binding(0, KeyCode::Char('"'), "split_horizontal"));
    m.push(binding(0, KeyCode::Char('x'), "close_pane"));
    m.push(binding(0, KeyCode::Char('z'), "toggle_sidebar"));
    m.push(binding(0, KeyCode::Char('c'), "new_window"));
    m.push(binding(0, KeyCode::Char('f'), "toggle_zoom"));
    m.push(binding(0, KeyCode::Char('q'), "quit"));
    m.push(binding(0, KeyCode::Up, "focus_up"));
    m.push(binding(0, KeyCode::Down, "focus_down"));
    m.push(binding(0, KeyCode::Left, "focus_left"));
    m.push(binding(0, KeyCode::Right, "focus_right"));
    m.push(binding(2, KeyCode::Up, "resize_up"));
    m.push(binding(2, KeyCode::Down, "resize_down"));
    m.push(binding(2, KeyCode::Left, "resize_left"));
    m.push(binding(2, KeyCode::Right, "resize_right"));
    proof {
        assert(binding_entries(m@) =~= default_entries());
    }
    m
}


proof fn lemma_entries_map_at(es: Seq<(KeyCombo, Seq<char>)>, i: int)
    requires
        keys_unique(es),
        0 <= i < es.len(),
    ensures
        entries_map(es).contains_key(es[i].0),
        entries_map(es)[es[i].0] == es[i].1,
    decreases es.len(),
{
    if i < es.len() - 1 {
        lemma_entries_map_at(es.drop_last(), i);
        assert(es[i].0 != es.last().0);
    }
}

/// The key bindings: at most one action name per key.
pub struct BindingTable {
    entries: Vec<Binding>,
}

impl BindingTable {
    #[verifier::type_invariant]
    spec fn inv(self) -> bool {
        keys_unique(binding_entries(self.entries@))
    }

    /// The action name bound to each key.
    pub closed spec fn view_map(self) -> Map<KeyCombo, Seq<char>> {
        entries_map(binding_entries(self.entries@))
    }

    /// The built-in bindings.
    pub fn defaults() -> (r: Self)
        ensures
            r.view_map() == default_binding_map(),
    {
        BindingTable { entries: default_bindings() }
    }

    /// Moves the action `name` to `key`: other keys bound to `name` lose
    /// their binding, and `key` is bound to `name` whatever it was bound to.
    pub fn rebind(&mut self, name: &String, key: KeyCombo)
        ensures
            final(self).view_map() == rebind(old(self).view_map(), name@, key),
    {
        proof {
            use_type_invariant(&*self);
        }
        let mut kept = remove_action(&self.entries, name);
        bind_key(&mut kept, key.0, key.1, name.clone());
        self.entries = kept;
    }

    /// The action name bound to `key`, if any.
    pub fn lookup(&self, key: KeyCombo) -> (r: Option<&String>)
        ensures
            r is Some <==> self.view_map().contains_key(key),
            r matches Some(s) ==> s@ == self.view_map()[key],
    {
        proof {
            use_type_invariant(self);
        }
        let ghost es = binding_entries(self.entries@);
        let mut i: usize = 0;
        while i < self.entries.len()
            invariant
                es == binding_entries(self.entries@),
                keys_unique(es),
                i <= self.entries@.len(),
                forall|j: int| 0 <= j < i ==> es[j].0 != key,
            decreases self.entries.len() - i,
        {
            let k = (self.entries[i].modifiers, self.entries[i].code);
            if key_eq(&k, &key) {
                proof {
                    lemma_entries_map_at(es, i as int);
                }
                return Some(&self.entries[i].action);
            }
            i = i + 1;
        }
        proof {
            lemma_entries_map_absent(es, key);
        }
        None
    }
}

/// Reads key presses: a press of the prefix key arms the prefix mode, and
/// the next key is then looked up among the bindings.
pub struct InputHandler {
    pub mode: InputMode,
    pub prefix_key: KeyCode,
    pub prefix_modifiers: KeyModifiers,
    pub bindings: BindingTable,
}

/// What a key pressed after the prefix asks for: a digit 1 to 9 without
/// modifiers switches to that window (counting from 0); otherwise the bound
/// action, if any.
pub open spec fn spec_prefix_action(bindings: Map<KeyCombo, Seq<char>>, key: KeyEvent) -> Action {
    let bound = if bindings.contains_key((key.modifiers, key.code)) {
        spec_action_from_name(bindings[(key.modifiers, key.code)])
    } else {
        Action::NoOp
    };
    match key.code {
        KeyCode::Char(c) => if '1' <= c <= '9' && key.modifiers.bits == 0 {
            Action::SwitchWindow((c as u32 - '1' as u32) as usize)
        } else {
            bound
        },
        _ => bound,
    }
}

/// One step of the prefix state machine on `key`, from `pre` to `post`,
/// answering `action`. In normal mode the prefix key arms the prefix mode
/// and asks for nothing, and any other key is forwarded to the pane. In
/// prefix mode, the key asks for its bound action and the mode returns
/// to normal.
pub open spec fn key_step(pre: InputHandler, post: InputHandler, key: KeyEvent, action: Action) -> bool {
    &&& post.spec_prefix() == pre.spec_prefix()
    &&& post.spec_bindings() == pre.spec_bindings()
    &&& match pre.mode {
        InputMode::Normal => if (key.modifiers, key.code) == pre.spec_prefix() {
            post.mode == InputMode::Prefix && action == Action::NoOp
        } else {
            post.mode == InputMode::Normal && (action matches Action::ForwardToPty(data)
                && data@ == spec_key_bytes(key))
        },
        InputMode::Prefix => post.mode == InputMode::Normal && action == spec_prefix_action(
            pre.spec_bindings(),
            key,
        ),
    }
}

impl InputHandler {
    /// The prefix key.
    pub open spec fn spec_prefix(self) -> KeyCombo {
        (self.prefix_modifiers, self.prefix_key)
    }

    /// The action name bound to each key.
    pub open spec fn spec_bindings(self) -> Map<KeyCombo, Seq<char>> {
        self.bindings.view_map()
    }

    /// A handler in normal mode with the prefix key of `config`, and the
    /// built-in bindings overridden by those of `config`, in order: each
    /// moves its action to its key.
    pub fn new(config: &Config) -> (r: Self)
        ensures
            r.mode == InputMode::Normal,
            r.spec_prefix() == (config.prefix_modifiers, config.prefix_key),
            r.spec_bindings() == apply_bindings(default_binding_map(), config.binding_list()),
    {
        let mut bindings = BindingTable::defaults();
        let ghost list = config.binding_list();
        let mut i: usize = 0;
        proof {
            assert(list.skip(0) =~= list);
        }
        while i < config.bindings.len()
            invariant
                list == config.binding_list(),
                i <= config.bindings@.len(),
                apply_bindings(default_binding_map(), list) == apply_bindings(
                    bindings.view_map(),
                    list.skip(i as int),
                ),
            decreases config.bindings.len() - i,
        {
            let entry = &config.bindings[i];
            proof {
                assert(list.skip(i as int).drop_first() =~= list.skip(i + 1));
                assert(list.skip(i as int)[0] == (entry.0@, entry.1));
            }
            bindings.rebind(&entry.0, entry.1);
            i = i + 1;
        }
        proof {
            assert(list.skip(i as int) =~= Seq::<(Seq<char>, KeyCombo)>::empty());
        }
        InputHandler {
            mode: InputMode::Normal,
            prefix_key: config.prefix_key,
            prefix_modifiers: config.prefix_modifiers,
            bindings,
        }
    }

    /// Handles an event: key presses go through the prefix state machine,
    /// every other event asks for nothing.
    pub fn handle(&mut self, event: &AppEvent) -> (r: Action)
        ensures
            match event {
                AppEvent::KeyInput(key) => key_step(*old(self), *final(self), *key, r),
                _ => r == Action::NoOp && *final(self) == *old(self),
            },
    {
        match event {
            AppEvent::KeyInput(key) => self.handle_key(*key),
            _ => Action::NoOp,
        }
    }

    /// The action that `key`, pressed after the prefix, asks for.
    pub fn prefix_action(&self, key: KeyEvent) -> (r: Action)
        ensures
            r == spec_prefix_action(self.spec_bindings(), key),
    {
        if let KeyCode::Char(c) = key.code {
            if '1' <= c && c <= '9' && key.modifiers.bits == 0 {
                return Action::SwitchWindow(((c as u32) - ('1' as u32)) as usize);
            }
        }
        match self.bindings.lookup((key.modifiers, key.code)) {
            Some(name) => action_from_name(name.as_str()),
            None => Action::NoOp,
        }
    }

    /// One step of the prefix state machine on `key` (see `key_step`).
    pub fn handle_key_event(&mut self, key: KeyEvent) -> (r: Action)
        ensures
            key_step(*old(self), *final(self), key, r),
    {
        self.handle_key(key)
    }

    fn handle_key(&mut self, key: KeyEvent) -> (r: Action)
        ensures
            key_step(*old(self), *final(self), key, r),
    {
        match self.mode {
            InputMode::Normal => {
                if key.modifiers == self.prefix_modifiers && key.code == self.prefix_key {
                    self.mode = InputMode::Prefix;
                    return Action::NoOp;
                }
                Action::ForwardToPty(key_to_bytes(key))
            },
            InputMode::Prefix => {
                self.mode = InputMode::Normal;
                self.prefix_action(key)
            },
        }
    }
}

} // verus!
