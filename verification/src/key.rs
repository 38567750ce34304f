//! Keys, as the engine sees them.
use vstd::prelude::*;
use vstd::string::*;
use crate::text::{char_text, lemma_take_next};

verus! {

/// One key.
#[derive(Clone, Debug, PartialEq)]
pub enum Key {
    /// A character.
    Char(char),
    /// A control character; C-a is 1.
    Ctrl(u8),
    Enter,
    Backspace,
    Tab,
    ShiftTab,
    Esc,
    /// A sequence that is not taken apart.
    Raw(Vec<u8>),
    /// What was pasted, without the brackets around it.
    Paste(Vec<u8>),
}

/// What a key is.
pub enum KeyText {
    Char(char),
    Ctrl(u8),
    Enter,
    Backspace,
    Tab,
    ShiftTab,
    Esc,
    Raw(Seq<u8>),
    Paste(Seq<u8>),
}

impl View for Key {
    type V = KeyText;

    open spec fn view(&self) -> KeyText {
        match self {
            Key::Char(c) => KeyText::Char(*c),
            Key::Ctrl(b) => KeyText::Ctrl(*b),
            Key::Enter => KeyText::Enter,
            Key::Backspace => KeyText::Backspace,
            Key::Tab => KeyText::Tab,
            Key::ShiftTab => KeyText::ShiftTab,
            Key::Esc => KeyText::Esc,
            Key::Raw(v) => KeyText::Raw(v@),
            Key::Paste(v) => KeyText::Paste(v@),
        }
    }
}

/// What the keys of a list are.
pub open spec fn key_texts(v: Seq<Key>) -> Seq<KeyText> {
    v.map_values(|k: Key| k@)
}

/// Whether `key` is one of a list.
#[verifier::opaque]
pub open spec fn held(v: Seq<KeyText>, key: KeyText) -> bool {
    v.contains(key)
}

/// Whether `key` is bound by a list. Enter cannot be given another use: it is never bound,
/// whatever a list holds.
#[verifier::opaque]
pub open spec fn has(v: Seq<KeyText>, key: KeyText) -> bool {
    !(key is Enter) && held(v, key)
}

/// Enter is never bound.
pub proof fn law_enter_is_never_bound(v: Seq<KeyText>)
    ensures
        has(v, KeyText::Enter) == false,
{
    reveal(has);
}

/// What the terminal sends before and after what is pasted.
pub const PASTE_START: [u8; 6] = [0x1b, 0x5b, 0x32, 0x30, 0x30, 0x7e];

pub const PASTE_END: [u8; 6] = [0x1b, 0x5b, 0x32, 0x30, 0x31, 0x7e];

/// What the terminal sends for Shift and Tab.
pub const SHIFT_TAB: [u8; 3] = [0x1b, 0x5b, 0x5a];

/// The bytes that the terminal sends for a key.
pub open spec fn key_bytes(k: KeyText) -> Seq<u8> {
    match k {
        KeyText::Char(c) => vstd::utf8::encode_utf8(seq![c]),
        KeyText::Ctrl(b) => seq![b],
        KeyText::Enter => seq![0x0du8],
        KeyText::Backspace => seq![0x7fu8],
        KeyText::Tab => seq![0x09u8],
        KeyText::ShiftTab => SHIFT_TAB@,
        KeyText::Esc => seq![0x1bu8],
        KeyText::Raw(v) => v,
        KeyText::Paste(v) => PASTE_START@ + v + PASTE_END@,
    }
}

/// Whether two strings of bytes are the same.
pub fn same_bytes(a: &Vec<u8>, b: &Vec<u8>) -> (r: bool)
    ensures
        r == (a@ == b@),
{
    if a.len() != b.len() {
        return false;
    }
    let mut i: usize = 0;
    while i < a.len()
        invariant
            i <= a@.len(),
            a@.len() == b@.len(),
            forall|j: int| 0 <= j < i ==> a@[j] == b@[j],
        decreases a.len() - i,
    {
        if a[i] != b[i] {
            return false;
        }
        i = i + 1;
    }
    assert(a@ =~= b@);
    true
}

/// A copy of a string of bytes.
pub fn copy_bytes(a: &Vec<u8>) -> (r: Vec<u8>)
    ensures
        r@ == a@,
{
    let mut out: Vec<u8> = Vec::new();
    for i in 0..a.len()
        invariant
            out@ == a@.take(i as int),
    {
        out.push(a[i]);
        proof {
            lemma_take_next(a@, i as int);
        }
    }
    assert(a@.take(a@.len() as int) =~= a@);
    out
}

/// Adds the bytes of `more` to `out`.
pub fn push_bytes(out: &mut Vec<u8>, more: &[u8])
    ensures
        final(out)@ == old(out)@ + more@,
{
    let ghost first = out@;
    let mut i: usize = 0;
    assert(out@ =~= first + more@.take(0));
    while i < more.len()
        invariant
            i <= more@.len(),
            out@ == first + more@.take(i as int),
        decreases more.len() - i,
    {
        out.push(more[i]);
        i = i + 1;
        proof {
            lemma_take_next(more@, i - 1);
            assert(out@ =~= first + more@.take(i as int));
        }
    }
    assert(more@.take(i as int) =~= more@);
}

impl Key {
    /// Whether two keys are the same.
    pub fn same(&self, other: &Key) -> (r: bool)
        ensures
            r == (self@ == other@),
    {
        match (self, other) {
            (Key::Char(a), Key::Char(b)) => *a == *b,
            (Key::Ctrl(a), Key::Ctrl(b)) => *a == *b,
            (Key::Enter, Key::Enter) => true,
            (Key::Backspace, Key::Backspace) => true,
            (Key::Tab, Key::Tab) => true,
            (Key::ShiftTab, Key::ShiftTab) => true,
            (Key::Esc, Key::Esc) => true,
            (Key::Raw(a), Key::Raw(b)) => same_bytes(a, b),
            (Key::Paste(a), Key::Paste(b)) => same_bytes(a, b),
            _ => false,
        }
    }

    /// A copy.
    pub fn copied(&self) -> (r: Key)
        ensures
            r@ == self@,
    {
        match self {
            Key::Char(c) => Key::Char(*c),
            Key::Ctrl(b) => Key::Ctrl(*b),
            Key::Enter => Key::Enter,
            Key::Backspace => Key::Backspace,
            Key::Tab => Key::Tab,
            Key::ShiftTab => Key::ShiftTab,
            Key::Esc => Key::Esc,
            Key::Raw(v) => Key::Raw(copy_bytes(v)),
            Key::Paste(v) => Key::Paste(copy_bytes(v)),
        }
    }
}

/// Whether `key` is bound by a list.
pub fn is_bound(v: &Vec<Key>, key: &Key) -> (r: bool)
    ensures
        r == has(key_texts(v@), key@),
{
    proof {
        reveal(has);
    }
    match key {
        Key::Enter => false,
        _ => is_held(v, key),
    }
}

/// Whether `key` is one of a list.
pub fn is_held(v: &Vec<Key>, key: &Key) -> (r: bool)
    ensures
        r == held(key_texts(v@), key@),
{
    proof {
        reveal(held);
    }
    let mut i: usize = 0;
    while i < v.len()
        invariant
            i <= v@.len(),
            forall|j: int| 0 <= j < i ==> key_texts(v@)[j] != key@,
        decreases v.len() - i,
    {
        if v[i].same(key) {
            proof {
                reveal(held);
                assert(key_texts(v@)[i as int] == key@);
            }
            return true;
        }
        i = i + 1;
    }
    false
}

/// Turns a key back into the bytes that the terminal sends for it.
pub fn raw_bytes(k: &Key) -> (r: Vec<u8>)
    ensures
        r@ == key_bytes(k@),
{
    let mut out: Vec<u8> = Vec::new();
    match k {
        Key::Char(c) => {
            let s = char_text(*c);
            push_bytes(&mut out, s.as_str().as_bytes());
            assert(out@ =~= key_bytes(k@));
        },
        Key::Ctrl(b) => {
            out.push(*b);
        },
        Key::Enter => {
            out.push(0x0d);
        },
        Key::Backspace => {
            out.push(0x7f);
        },
        Key::Tab => {
            out.push(0x09);
        },
        Key::ShiftTab => {
            push_bytes(&mut out, &SHIFT_TAB);
        },
        Key::Esc => {
            out.push(0x1b);
        },
        Key::Raw(v) => {
            push_bytes(&mut out, v.as_slice());
        },
        Key::Paste(v) => {
            push_bytes(&mut out, &PASTE_START);
            push_bytes(&mut out, v.as_slice());
            push_bytes(&mut out, &PASTE_END);
        },
    }
    assert(out@ =~= key_bytes(k@));
    out
}

} // verus!
