//! One key, however it is named or sent.
use vstd::prelude::*;
use vstd::string::*;
use crate::config::{after_ctrl, key_read, named_keys, word_key};
use crate::desktop::{bit, key_of_sym, modifies};
use crate::input::{first_key, plain_form};
use crate::key::{key_bytes, KeyText};
use crate::text::{lower, trim, whitespace};

verus! {

/// The control character of a small letter: its place in the alphabet.
pub open spec fn control_of(c: char) -> u8 {
    (c as u32 - 'a' as u32 + 1) as u8
}

proof fn lemma_short_words(w: Seq<char>)
    requires
        w.len() == 1,
    ensures
        word_key(w) is None,
        named_keys(w) is None,
        after_ctrl(w) is None,
{
    reveal_strlit("space");
    reveal_strlit("spc");
    reveal_strlit("enter");
    reveal_strlit("return");
    reveal_strlit("ret");
    reveal_strlit("tab");
    reveal_strlit("esc");
    reveal_strlit("escape");
    reveal_strlit("bs");
    reveal_strlit("backspace");
    reveal_strlit("del");
    reveal_strlit("s-tab");
    reveal_strlit("shift-tab");
    reveal_strlit("btab");
    reveal_strlit("left");
    reveal_strlit("right");
    reveal_strlit("up");
    reveal_strlit("down");
    reveal_strlit("home");
    reveal_strlit("end");
    reveal_strlit("c-");
    reveal_strlit("ctrl-");
    reveal_strlit("ctrl+");
    reveal_strlit("control-");
    lemma_not_prefix("c-"@, w);
    lemma_not_prefix("ctrl-"@, w);
    lemma_not_prefix("ctrl+"@, w);
    lemma_not_prefix("control-"@, w);
}

proof fn lemma_not_prefix(p: Seq<char>, w: Seq<char>)
    requires
        p.len() > w.len(),
    ensures
        !p.is_prefix_of(w),
{
}

proof fn lemma_trim_short(s: Seq<char>)
    requires
        s.len() > 0,
        !whitespace(s[0]),
        !whitespace(s.last()),
    ensures
        trim(s) == s,
{
}

/// A character that is no white space is the way to write its own key.
pub proof fn law_a_character_names_its_key(c: char)
    requires
        !whitespace(c),
    ensures
        key_read(seq![c]) == Ok::<Seq<KeyText>, Seq<char>>(seq![KeyText::Char(c)]),
{
    let s = seq![c];
    lemma_trim_short(s);
    let w = s.map_values(|c: char| lower(c));
    lemma_short_words(w);
}

proof fn lemma_ctrl_words(w: Seq<char>)
    requires
        w.len() == 3,
        w[0] == 'c',
        w[1] == '-',
    ensures
        word_key(w) is None,
        named_keys(w) is None,
        after_ctrl(w) == Some(w.skip(2)),
{
    reveal_strlit("space");
    reveal_strlit("spc");
    reveal_strlit("enter");
    reveal_strlit("return");
    reveal_strlit("ret");
    reveal_strlit("tab");
    reveal_strlit("esc");
    reveal_strlit("escape");
    reveal_strlit("bs");
    reveal_strlit("backspace");
    reveal_strlit("del");
    reveal_strlit("s-tab");
    reveal_strlit("shift-tab");
    reveal_strlit("btab");
    reveal_strlit("left");
    reveal_strlit("right");
    reveal_strlit("up");
    reveal_strlit("down");
    reveal_strlit("home");
    reveal_strlit("end");
    reveal_strlit("c-");
    assert("spc"@[0] == 's' && "ret"@[0] == 'r' && "tab"@[0] == 't' && "esc"@[0] == 'e' && "del"@[0]
        == 'd' && "end"@[0] == 'e');
    assert("c-"@ =~= w.subrange(0, 2));
    assert("c-"@.is_prefix_of(w));
}

/// A letter with the control key is one key, whether it is written in the setup, in either
/// case, sent by a terminal as a byte or by an extended protocol, or pressed on a desktop;
/// and it is sent on as that byte.
pub proof fn law_a_control_key_is_one_key(c: char)
    requires
        'a' <= c <= 'z',
    ensures
        ({
            let k = KeyText::Ctrl(control_of(c));
            let big = (c as u32 - 32) as char;
            &&& key_read(seq!['C', '-', c]) == Ok::<Seq<KeyText>, Seq<char>>(seq![k])
            &&& key_read(seq!['c', '-', big]) == Ok::<Seq<KeyText>, Seq<char>>(seq![k])
            &&& plain_form(c as nat, 5) == Some(k)
            &&& key_of_sym(c as u32, 4) == Some(k)
            &&& key_of_sym(big as u32, 5) == Some(k)
            &&& key_bytes(k) == seq![control_of(c)]
            &&& control_of(c) != 0x09 && control_of(c) != 0x0d ==> first_key(
                seq![control_of(c)],
                seq![],
            ) == Some((1int, k))
        }),
{
    let big = (c as u32 - 32) as char;
    assert('A' <= big <= 'Z');
    let a = seq!['C', '-', c];
    let b = seq!['c', '-', big];
    lemma_trim_short(a);
    lemma_trim_short(b);
    let wa = a.map_values(|c: char| lower(c));
    let wb = b.map_values(|c: char| lower(c));
    assert(wa =~= seq!['c', '-', c]);
    assert(wb =~= seq!['c', '-', c]);
    lemma_ctrl_words(wa);
    assert(wa.skip(2) =~= seq![c]);
    reveal_strlit("space");
    reveal_strlit("spc");
    assert(seq![c].len() == 1);
    assert((4nat / 4) % 2 == 1);
    assert(bit(4, 4) && !bit(4, 1) && !bit(4, 8) && !bit(4, 64));
    assert(bit(5, 4) && bit(5, 1) && !bit(5, 8) && !bit(5, 64));
    assert(seq![control_of(c)][0] == control_of(c));
}

/// On a desktop a key with a character is that character, and the keys with names are those
/// keys; with Alt or Super, or without a character, a key is not for the engine.
pub proof fn law_keys_of_a_desktop(keysym: u32, modifiers: u32)
    ensures
        !bit(modifiers, 8) && !bit(modifiers, 64) && !bit(modifiers, 4) && 0x20 <= keysym <= 0x7e
            ==> key_of_sym(keysym, modifiers) == Some(KeyText::Char(keysym as char)),
        bit(modifiers, 8) || bit(modifiers, 64) ==> key_of_sym(keysym, modifiers) is None,
        !bit(modifiers, 8) && !bit(modifiers, 64) ==> key_of_sym(0xff0d, modifiers) == Some(
            KeyText::Enter,
        ) && key_of_sym(0xff8d, modifiers) == Some(KeyText::Enter) && key_of_sym(0xff08, modifiers)
            == Some(KeyText::Backspace) && key_of_sym(0xff1b, modifiers) == Some(KeyText::Esc)
            && key_of_sym(0xfe20, modifiers) == Some(KeyText::ShiftTab),
        !bit(modifiers, 8) && !bit(modifiers, 64) && !bit(modifiers, 4) && !bit(modifiers, 1)
            ==> key_of_sym(0xff09, modifiers) == Some(KeyText::Tab),
        0xff51 <= keysym <= 0xff54 ==> key_of_sym(keysym, modifiers) is None,
        0xffbe <= keysym <= 0xffc9 ==> key_of_sym(keysym, modifiers) is None,
        modifies(keysym) && keysym != 0xfe20 ==> key_of_sym(keysym, modifiers) is None,
{
}

} // verus!
