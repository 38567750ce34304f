//! What comes from a terminal is the key that was pressed.
use vstd::prelude::*;
use crate::input::{
    all_digits, byte_at, csi_end, ends_csi, extended, extended_key, first_key, lead_width, number,
    part, read_number,
};
use crate::key::{key_bytes, KeyText, SHIFT_TAB};

verus! {

proof fn lemma_low_byte(b: u8)
    requires
        b <= 0x7f,
    ensures
        (b & 0x7f) == b,
{
    assert((b & 0x7f) == b) by (bit_vector)
        requires
            b <= 0x7f,
    ;
}

/// The bytes of one character are as many as the first of them says.
pub proof fn lemma_character_bytes(c: char)
    ensures
        ({
            let b = vstd::utf8::encode_utf8(seq![c]);
            &&& b.len() == lead_width(b[0])
            &&& 1 <= b.len() <= 4
            &&& vstd::utf8::valid_utf8(b)
            &&& vstd::utf8::decode_utf8(b) == seq![c]
            &&& (c as u32) < 0x80 ==> b[0] == c as u32
            &&& (c as u32) >= 0x80 ==> b[0] >= 0x80
        }),
{
    let t = seq![c];
    let b = vstd::utf8::encode_utf8(t);
    vstd::utf8::encode_utf8_valid_utf8(t);
    vstd::utf8::encode_utf8_decode_utf8(t);
    vstd::utf8::encode_utf8_first_scalar(t);
    let none: Seq<char> = seq![];
    assert(t.drop_first() =~= none);
    assert(vstd::utf8::encode_utf8(none) =~= seq![]);
    assert(b =~= vstd::utf8::encode_scalar(c as u32));
    if b[0] <= 0x7f {
        lemma_low_byte(b[0]);
    }
}

/// A character is the key of that character; the keys that have one byte of their own are
/// those keys; and what comes behind them is not looked at.
pub proof fn law_a_key_arrives_as_itself(k: KeyText, later: Seq<u8>, bound: Seq<KeyText>)
    requires
        match k {
            KeyText::Char(c) => c >= ' ' && c != '\x7f',
            KeyText::Ctrl(b) => b < 0x20 && b != 0x09 && b != 0x0d && b != 0x1b,
            KeyText::Enter | KeyText::Backspace | KeyText::Tab | KeyText::ShiftTab => true,
            _ => false,
        },
    ensures
        first_key(key_bytes(k) + later, bound) == Some((key_bytes(k).len() as int, k)),
{
    let a = key_bytes(k);
    let b = a + later;
    match k {
        KeyText::Char(c) => {
            lemma_character_bytes(c);
            assert(b[0] == a[0]);
            assert(b.take(a.len() as int) =~= a);
        },
        KeyText::ShiftTab => {
            assert(b[0] == 0x1b && b[1] == 0x5b && b[2] == 0x5a);
            assert(csi_end(b, 2) == 2);
            assert(b.take(3) =~= SHIFT_TAB@);
        },
        _ => {
            assert(b[0] == a[0]);
        },
    }
}

/// An escape that comes alone is the key.
pub proof fn law_an_escape_alone_is_the_key(bound: Seq<KeyText>)
    ensures
        first_key(key_bytes(KeyText::Esc), bound) == Some((1int, KeyText::Esc)),
{
}

proof fn lemma_csi_end(b: Seq<u8>, i: int, end: int)
    requires
        0 <= i <= end < b.len(),
        ends_csi(b[end]),
        forall|j: int| i <= j < end ==> !ends_csi(#[trigger] b[j]),
    ensures
        csi_end(b, i) == end,
    decreases end - i,
{
    if i < end {
        assert(!ends_csi(b[i]));
        lemma_csi_end(b, i + 1, end);
    }
}

/// A sequence is one key, from its escape to the byte that ends it.
pub proof fn law_a_sequence_is_one_key(args: Seq<u8>, last: u8, later: Seq<u8>, bound: Seq<KeyText>)
    requires
        ends_csi(last),
        forall|j: int| 0 <= j < args.len() ==> !ends_csi(#[trigger] args[j]),
    ensures
        ({
            let s = seq![0x1bu8, 0x5bu8] + args + seq![last];
            let r = first_key(s + later, bound);
            &&& r is Some
            &&& (r->0).0 == s.len()
            &&& (r->0).1 == KeyText::Raw(s) || (r->0).1 == KeyText::ShiftTab || extended_key(
                s,
                bound,
            ) == Some((r->0).1)
            &&& last != 0x75 && last != 0x7e && s != SHIFT_TAB@ ==> (r->0).1 == KeyText::Raw(s)
        }),
{
    let s = seq![0x1bu8, 0x5bu8] + args + seq![last];
    let b = s + later;
    let end = (2 + args.len()) as int;
    assert(b[0] == 0x1b && b[1] == 0x5b && b[end] == last);
    assert forall|j: int| 2 <= j < end implies !ends_csi(#[trigger] b[j]) by {
        assert(b[j] == args[j - 2]);
    }
    lemma_csi_end(b, 2, end);
    assert(b.take(end + 1) =~= s);
    assert(s.last() == last);
}

proof fn lemma_byte_at(b: Seq<u8>, x: u8, i: int, at: int)
    requires
        0 <= i <= at <= b.len(),
        forall|j: int| i <= j < at ==> #[trigger] b[j] != x,
        at < b.len() ==> b[at] == x,
    ensures
        byte_at(b, x, i) == at,
    decreases at - i,
{
    if i < at {
        assert(b[i] != x);
        lemma_byte_at(b, x, i + 1, at);
    }
}

/// Whether bytes are a number that fits into 32 bits.
pub open spec fn small_number(b: Seq<u8>) -> bool {
    b.len() > 0 && all_digits(b) && number(b) <= u32::MAX
}

proof fn lemma_reads(p: Seq<u8>)
    requires
        small_number(p),
    ensures
        read_number(p.take(byte_at(p, 0x3a, 0))) == Some(number(p)),
{
    assert forall|j: int| 0 <= j < p.len() implies #[trigger] p[j] != 0x3a by {
        assert(0x30 <= p[j] <= 0x39);
    }
    lemma_byte_at(p, 0x3a, 0, p.len() as int);
    assert(p.take(p.len() as int) =~= p);
    assert(0x30 <= p[0] <= 0x39);
}

proof fn lemma_parts(a: Seq<u8>, rest: Seq<u8>)
    requires
        all_digits(a),
    ensures
        part(a + seq![0x3bu8] + rest, 0x3b, 0) == Some(a),
        forall|n: nat|
            n > 0 ==> #[trigger] part(a + seq![0x3bu8] + rest, 0x3b, n) == part(
                rest,
                0x3b,
                (n - 1) as nat,
            ),
        part(a, 0x3b, 0) == Some(a),
        forall|n: nat| n > 0 ==> #[trigger] part(a, 0x3b, n) is None,
{
    let b = a + seq![0x3bu8] + rest;
    let n = a.len() as int;
    assert forall|j: int| 0 <= j < n implies #[trigger] b[j] != 0x3b by {
        assert(b[j] == a[j]);
        assert(0x30 <= a[j] <= 0x39);
    }
    assert forall|j: int| 0 <= j < n implies #[trigger] a[j] != 0x3b by {
        assert(0x30 <= a[j] <= 0x39);
    }
    assert(b[n] == 0x3b);
    lemma_byte_at(b, 0x3b, 0, n);
    lemma_byte_at(a, 0x3b, 0, n);
    assert(b.take(n) =~= a);
    assert(a.take(n) =~= a);
    assert(b.skip(n + 1) =~= rest);
}

/// A key that comes by an extended protocol says its symbol and its modifiers; without
/// modifiers none are held.
pub proof fn law_an_extended_key_says_what_it_is(code: Seq<u8>, mods: Seq<u8>)
    requires
        small_number(code),
        small_number(mods),
    ensures
        extended(seq![0x1bu8, 0x5bu8] + code + seq![0x3bu8] + mods + seq![0x75u8]) == Some(
            (number(code), number(mods)),
        ),
        extended(seq![0x1bu8, 0x5bu8] + code + seq![0x75u8]) == Some((number(code), 1nat)),
        extended(
            seq![0x1bu8, 0x5bu8, 0x32u8, 0x37u8, 0x3bu8] + mods + seq![0x3bu8] + code + seq![
                0x7eu8,
            ],
        ) == Some((number(code), number(mods))),
{
    lemma_reads(code);
    lemma_reads(mods);
    let none: Seq<u8> = seq![];
    let s = seq![0x1bu8, 0x5bu8] + code + seq![0x3bu8] + mods + seq![0x75u8];
    assert(s.subrange(2, s.len() - 1) =~= code + seq![0x3bu8] + mods);
    lemma_parts(code, mods);
    lemma_parts(mods, none);
    assert(s.last() == 0x75);
    let u = seq![0x1bu8, 0x5bu8] + code + seq![0x75u8];
    assert(u.subrange(2, u.len() - 1) =~= code);
    lemma_parts(code, none);
    assert(u.last() == 0x75);
    let t = seq![0x1bu8, 0x5bu8, 0x32u8, 0x37u8, 0x3bu8] + mods + seq![0x3bu8] + code + seq![0x7eu8];
    let n = seq![0x32u8, 0x37u8];
    let rest = mods + seq![0x3bu8] + code;
    assert(t.subrange(2, t.len() - 1) =~= n + seq![0x3bu8] + rest);
    assert(n.drop_last() =~= seq![0x32u8]);
    assert(seq![0x32u8].drop_last() =~= none);
    assert(number(none) == 0);
    assert(number(seq![0x32u8]) == 2);
    assert(number(n) == 27);
    lemma_reads(n);
    lemma_parts(n, rest);
    lemma_parts(mods, code);
    let args = n + seq![0x3bu8] + rest;
    assert(part(args, 0x3b, 0) == Some(n));
    assert(part(args, 0x3b, 1) == part(rest, 0x3b, 0));
    assert(part(args, 0x3b, 2) == part(rest, 0x3b, 1));
    assert(part(rest, 0x3b, 1) == part(code, 0x3b, 0));
    assert(t.last() == 0x7e);
}

} // verus!
