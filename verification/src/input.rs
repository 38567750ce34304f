//! Cuts what the terminal sends into keys.
//!
//! Sequences are not interpreted: what an arrow key means is up to the program that
//! receives it. Only keys that are bound to the engine are brought back from the extended
//! keyboard protocols to their plain form.
use vstd::prelude::*;
use crate::config::{key_lists, lists_joined, Config};
use crate::dict::utf8_text;
use crate::key::{
    copy_bytes, held, is_held, key_bytes, key_texts, push_bytes, Key, KeyText, PASTE_END,
    PASTE_START, SHIFT_TAB,
};
use crate::text::{chars_of, lemma_take_next};

verus! {

/// How much of a paste is gathered at most before it is passed on as it is.
pub const MAX_PASTE: usize = 1048576;

/// How much of an unfinished sequence is remembered at most.
pub const MAX_TAIL: usize = 4096;

/// Whether `pat` stands in `b` at the place `i`.
pub open spec fn stands_at(b: Seq<u8>, pat: Seq<u8>, i: int) -> bool {
    0 <= i && i + pat.len() <= b.len() && b.subrange(i, i + pat.len()) == pat
}

/// The first place from `i` on where `pat` stands.
pub open spec fn found_from(b: Seq<u8>, pat: Seq<u8>, i: int) -> Option<int>
    decreases b.len() - i + 1,
{
    if i + pat.len() > b.len() {
        None
    } else if stands_at(b, pat, i) {
        Some(i)
    } else {
        found_from(b, pat, i + 1)
    }
}

/// Whether `b` ends with the first `n` bytes of `pat`.
pub open spec fn ends_with_start(b: Seq<u8>, pat: Seq<u8>, n: int) -> bool {
    0 <= n <= b.len() && n <= pat.len() && b.skip(b.len() - n) == pat.take(n)
}

/// The longest start of `pat`, of at most `n` bytes, with which `b` ends.
pub open spec fn kept_of(b: Seq<u8>, pat: Seq<u8>, n: int) -> int
    decreases n,
{
    if n <= 0 {
        0
    } else if ends_with_start(b, pat, n) {
        n
    } else {
        kept_of(b, pat, n - 1)
    }
}

/// How many bytes at the end of `b` may be the start of a `pat` that is cut short.
pub open spec fn cut_short(b: Seq<u8>, pat: Seq<u8>) -> int {
    kept_of(b, pat, pat.len() - 1)
}

/// How many bytes a character takes, by its first byte.
pub open spec fn lead_width(b: u8) -> int {
    if 0xc0 <= b <= 0xdf {
        2
    } else if 0xe0 <= b <= 0xef {
        3
    } else if 0xf0 <= b <= 0xf7 {
        4
    } else {
        1
    }
}

/// Whether a byte ends a control sequence.
pub open spec fn ends_csi(b: u8) -> bool {
    0x40 <= b <= 0x7e
}

/// The first place from `i` on with a byte that ends a control sequence.
pub open spec fn csi_end(b: Seq<u8>, i: int) -> int
    decreases b.len() - i,
{
    if i >= b.len() || ends_csi(b[i]) {
        i
    } else {
        csi_end(b, i + 1)
    }
}

/// Where a command to the terminal ends that goes on from `i`: after a bell or a string
/// terminator.
pub open spec fn osc_end(b: Seq<u8>, i: int) -> Option<int>
    decreases b.len() - i,
{
    if i >= b.len() {
        None
    } else if b[i] == 0x07 {
        Some(i + 1)
    } else if b[i] == 0x1b && i + 1 < b.len() && b[i + 1] == 0x5c {
        Some(i + 2)
    } else {
        osc_end(b, i + 1)
    }
}

/// The first place from `i` on with the byte `x`, or the end.
pub open spec fn byte_at(b: Seq<u8>, x: u8, i: int) -> int
    decreases b.len() - i,
{
    if i >= b.len() || b[i] == x {
        i
    } else {
        byte_at(b, x, i + 1)
    }
}

/// The `n`th of the parts of `b` that `x` separates.
pub open spec fn part(b: Seq<u8>, x: u8, n: nat) -> Option<Seq<u8>>
    decreases n,
{
    let at = byte_at(b, x, 0);
    if n == 0 {
        Some(b.take(at))
    } else if at < b.len() {
        part(b.skip(at + 1), x, (n - 1) as nat)
    } else {
        None
    }
}

/// Whether all bytes are digits.
pub open spec fn all_digits(b: Seq<u8>) -> bool {
    forall|i: int| 0 <= i < b.len() ==> 0x30 <= #[trigger] b[i] <= 0x39
}

/// The number that digits write.
pub open spec fn number(b: Seq<u8>) -> nat
    decreases b.len(),
{
    if b.len() == 0 {
        0
    } else {
        number(b.drop_last()) * 10 + (b.last() - 0x30) as nat
    }
}

/// The number that a part writes, if it is one: it may have a plus sign before it, and has
/// to fit into 32 bits.
pub open spec fn read_number(b: Seq<u8>) -> Option<nat> {
    let digits = if b.len() > 0 && b[0] == 0x2b {
        b.skip(1)
    } else {
        b
    };
    if digits.len() > 0 && all_digits(digits) && number(digits) <= u32::MAX {
        Some(number(digits))
    } else {
        None
    }
}

/// The `n`th argument of a control sequence: what comes after a colon is left aside.
pub open spec fn argument(b: Seq<u8>, n: nat) -> Option<nat> {
    match part(b, 0x3b, n) {
        Some(p) => read_number(p.take(byte_at(p, 0x3a, 0))),
        None => None,
    }
}

/// The plain form of a key that is given by a symbol and the modifiers held with it. The
/// modifiers are bits counted from one: one is Shift, four is Control.
pub open spec fn plain_form(code: nat, mods: nat) -> Option<KeyText> {
    let m = if mods > 0 {
        (mods - 1) as nat
    } else {
        0
    };
    let shift = m % 2 == 1;
    let ctrl = (m / 4) % 2 == 1;
    if ctrl && code == 0x20 {
        Some(KeyText::Ctrl(0))
    } else if ctrl && 0x61 <= code <= 0x7a {
        Some(KeyText::Ctrl((code - 0x60) as u8))
    } else if ctrl && (code == 0x40 || 0x5c <= code <= 0x5f) {
        Some(KeyText::Ctrl((code - 0x40) as u8))
    } else if code == 0x09 && shift && !ctrl {
        Some(KeyText::ShiftTab)
    } else {
        None
    }
}

/// The symbol and the modifiers of a key that came by an extended keyboard protocol.
pub open spec fn extended(s: Seq<u8>) -> Option<(nat, nat)> {
    let args = s.subrange(2, s.len() - 1);
    let mods = match argument(args, 1) {
        Some(m) => m,
        None => 1,
    };
    if s.last() == 0x75 {
        match argument(args, 0) {
            Some(c) => Some((c, mods)),
            None => None,
        }
    } else if s.last() == 0x7e && argument(args, 0) == Some(27nat) {
        match argument(args, 2) {
            Some(c) => Some((c, mods)),
            None => None,
        }
    } else {
        None
    }
}

/// The bound key that came by an extended keyboard protocol, if it is one.
pub open spec fn extended_key(s: Seq<u8>, bound: Seq<KeyText>) -> Option<KeyText> {
    match extended(s) {
        Some((code, mods)) => match plain_form(code, mods) {
            Some(k) => if held(bound, k) {
                Some(k)
            } else {
                None
            },
            None => None,
        },
        None => None,
    }
}

/// The key that a whole control sequence stands for.
pub open spec fn csi_key(s: Seq<u8>, bound: Seq<KeyText>) -> KeyText {
    if s == SHIFT_TAB@ {
        KeyText::ShiftTab
    } else {
        match extended_key(s, bound) {
            Some(k) => k,
            None => KeyText::Raw(s),
        }
    }
}

/// The key at the start of `b`, which starts with an escape, and its length. Nothing where
/// the rest of the sequence has yet to come; an escape alone is taken for the key.
pub open spec fn escape_key(b: Seq<u8>, bound: Seq<KeyText>) -> Option<(int, KeyText)> {
    if b.len() <= 1 {
        Some((1, KeyText::Esc))
    } else if b[1] == 0x5b {
        let end = csi_end(b, 2);
        if end >= b.len() {
            None
        } else {
            Some((end + 1, csi_key(b.take(end + 1), bound)))
        }
    } else if b[1] == 0x4f {
        if b.len() < 3 {
            None
        } else {
            Some((3, KeyText::Raw(b.take(3))))
        }
    } else if b[1] == 0x5d {
        match osc_end(b, 2) {
            Some(end) => Some((end, KeyText::Raw(b.take(end)))),
            None => None,
        }
    } else {
        let n = 1 + lead_width(b[1]);
        if n > b.len() {
            None
        } else {
            Some((n, KeyText::Raw(b.take(n))))
        }
    }
}

/// The key at the start of `b`, which starts with no escape, and its length. Nothing where
/// the rest of a character has yet to come.
pub open spec fn plain_key(b: Seq<u8>) -> Option<(int, KeyText)> {
    if b[0] == 0x7f {
        Some((1, KeyText::Backspace))
    } else if b[0] == 0x0d {
        Some((1, KeyText::Enter))
    } else if b[0] == 0x09 {
        Some((1, KeyText::Tab))
    } else if b[0] < 0x20 {
        Some((1, KeyText::Ctrl(b[0])))
    } else {
        let n = lead_width(b[0]);
        if n > b.len() {
            None
        } else if vstd::utf8::valid_utf8(b.take(n)) {
            Some((n, KeyText::Char(vstd::utf8::decode_utf8(b.take(n))[0])))
        } else {
            Some((n, KeyText::Raw(b.take(n))))
        }
    }
}

/// The key at the start of `b`, and its length.
pub open spec fn first_key(b: Seq<u8>, bound: Seq<KeyText>) -> Option<(int, KeyText)> {
    if b[0] == 0x1b {
        escape_key(b, bound)
    } else {
        plain_key(b)
    }
}

/// What comes of bytes.
pub struct Decoded {
    pub keys: Seq<KeyText>,
    /// What has to wait for more.
    pub partial: Seq<u8>,
    /// What has come of a paste that is still going on.
    pub pasting: Option<Seq<u8>>,
    /// Nothing was decided for want of more: no escape at the very end was taken for the
    /// key, and no paste was given up.
    pub sure: bool,
}

/// The same after other keys.
pub open spec fn after(keys: Seq<KeyText>, d: Decoded) -> Decoded {
    Decoded { keys: keys + d.keys, ..d }
}

/// The same keys, and the same state after them.
pub open spec fn alike(a: Decoded, b: Decoded) -> bool {
    a.keys == b.keys && a.partial == b.partial && a.pasting == b.pasting
}

/// What comes of a paste whose end is not there yet.
pub open spec fn unended(acc: Seq<u8>, b: Seq<u8>) -> Decoded {
    let end = b.len() - cut_short(b, PASTE_END@);
    let all = acc + b.take(end);
    if all.len() > MAX_PASTE {
        Decoded {
            keys: seq![KeyText::Raw(PASTE_START@ + all)],
            partial: b.skip(end),
            pasting: None,
            sure: false,
        }
    } else {
        Decoded { keys: seq![], partial: b.skip(end), pasting: Some(all), sure: true }
    }
}

/// What comes of the bytes `b`: the keys, and what waits. Within a paste nothing is
/// interpreted until its end.
pub open spec fn decoded(bound: Seq<KeyText>, pasting: Option<Seq<u8>>, b: Seq<u8>) -> Decoded
    decreases b.len(),
    via decoded_decreases
{
    if b.len() == 0 {
        Decoded { keys: seq![], partial: seq![], pasting, sure: true }
    } else {
        match pasting {
            Some(acc) => match found_from(b, PASTE_END@, 0) {
                Some(at) => after(
                    seq![KeyText::Paste(acc + b.take(at))],
                    decoded(bound, None, b.skip(at + 6)),
                ),
                None => unended(acc, b),
            },
            None => match first_key(b, bound) {
                None => Decoded { keys: seq![], partial: b, pasting: None, sure: true },
                Some((n, k)) => if k == KeyText::Raw(PASTE_START@) {
                    decoded(bound, Some(seq![]), b.skip(n))
                } else if b.len() == 1 && b[0] == 0x1b {
                    Decoded { keys: seq![k], partial: seq![], pasting: None, sure: false }
                } else {
                    after(seq![k], decoded(bound, None, b.skip(n)))
                },
            },
        }
    }
}

#[via_fn]
proof fn decoded_decreases(bound: Seq<KeyText>, pasting: Option<Seq<u8>>, b: Seq<u8>) {
    if b.len() > 0 {
        lemma_first_key_range(b, bound);
        lemma_found_range(b, PASTE_END@, 0);
    }
}

proof fn lemma_csi_end_range(b: Seq<u8>, i: int)
    requires
        0 <= i <= b.len(),
    ensures
        i <= csi_end(b, i) <= b.len(),
        csi_end(b, i) < b.len() ==> ends_csi(b[csi_end(b, i)]),
        forall|j: int| i <= j < csi_end(b, i) ==> !ends_csi(#[trigger] b[j]),
    decreases b.len() - i,
{
    if i < b.len() && !ends_csi(b[i]) {
        lemma_csi_end_range(b, i + 1);
    }
}

proof fn lemma_osc_end_range(b: Seq<u8>, i: int)
    requires
        0 <= i <= b.len(),
    ensures
        osc_end(b, i) is Some ==> i < osc_end(b, i)->0 <= b.len(),
    decreases b.len() - i,
{
    if i < b.len() {
        lemma_osc_end_range(b, i + 1);
    }
}

proof fn lemma_first_key_range(b: Seq<u8>, bound: Seq<KeyText>)
    requires
        b.len() > 0,
    ensures
        match first_key(b, bound) {
            Some((n, _)) => 1 <= n <= b.len(),
            None => true,
        },
{
    if b.len() > 1 {
        lemma_csi_end_range(b, 2);
        lemma_osc_end_range(b, 2);
    }
}

proof fn lemma_found_range(b: Seq<u8>, pat: Seq<u8>, i: int)
    requires
        0 <= i,
    ensures
        match found_from(b, pat, i) {
            Some(at) => i <= at && stands_at(b, pat, at) && (forall|j: int|
                i <= j < at ==> !#[trigger] stands_at(b, pat, j)),
            None => forall|j: int| i <= j ==> !#[trigger] stands_at(b, pat, j),
        },
    decreases b.len() - i + 1,
{
    if i + pat.len() <= b.len() && !stands_at(b, pat, i) {
        lemma_found_range(b, pat, i + 1);
    }
}

proof fn lemma_kept_range(b: Seq<u8>, pat: Seq<u8>, n: int)
    requires
        n < pat.len(),
    ensures
        0 <= kept_of(b, pat, n),
        kept_of(b, pat, n) <= n || n < 0,
        kept_of(b, pat, n) <= b.len(),
        ends_with_start(b, pat, kept_of(b, pat, n)),
        forall|m: int| kept_of(b, pat, n) < m <= n ==> !#[trigger] ends_with_start(b, pat, m),
    decreases n,
{
    if n <= 0 {
        assert(b.skip(b.len() as int) =~= pat.take(0));
    } else if !ends_with_start(b, pat, n) {
        lemma_kept_range(b, pat, n - 1);
    }
}

/// Whether `pat` stands in `b` at the place `i`.
fn bytes_at(b: &Vec<u8>, pat: &[u8], i: usize) -> (r: bool)
    ensures
        r == stands_at(b@, pat@, i as int),
{
    let n: usize = b.len();
    if i > n || pat.len() > n - i {
        return false;
    }
    let mut j: usize = 0;
    while j < pat.len()
        invariant
            n == b@.len(),
            i <= n,
            j <= pat@.len() <= n - i,
            forall|k: int| 0 <= k < j ==> b@[i + k] == #[trigger] pat@[k],
        decreases pat.len() - j,
    {
        if b[i + j] != pat[j] {
            assert(b@.subrange(i as int, i + pat@.len())[j as int] != pat@[j as int]);
            return false;
        }
        j = j + 1;
    }
    assert(b@.subrange(i as int, i + pat@.len()) =~= pat@);
    true
}

proof fn lemma_stands_in_suffix(b: Seq<u8>, pat: Seq<u8>, from: int, i: int)
    requires
        0 <= from <= b.len(),
        0 <= i,
    ensures
        stands_at(b.skip(from), pat, i) == stands_at(b, pat, from + i),
{
    if from + i + pat.len() <= b.len() {
        assert(b.skip(from).subrange(i, i + pat.len()) =~= b.subrange(
            from + i,
            from + i + pat.len(),
        ));
    }
}

proof fn lemma_is_found(b: Seq<u8>, pat: Seq<u8>, i: int, at: int)
    requires
        0 <= i <= at,
        stands_at(b, pat, at),
        forall|j: int| i <= j < at ==> !#[trigger] stands_at(b, pat, j),
    ensures
        found_from(b, pat, i) == Some(at),
    decreases at - i,
{
    if i < at {
        assert(!stands_at(b, pat, i));
        lemma_is_found(b, pat, i + 1, at);
    }
}

proof fn lemma_is_not_found(b: Seq<u8>, pat: Seq<u8>, i: int)
    requires
        0 <= i,
        forall|j: int| i <= j ==> !#[trigger] stands_at(b, pat, j),
    ensures
        found_from(b, pat, i) is None,
    decreases b.len() - i + 1,
{
    if i + pat.len() <= b.len() {
        assert(!stands_at(b, pat, i));
        lemma_is_not_found(b, pat, i + 1);
    }
}

/// The first place of `pat` after the first `from` bytes, counted from there.
fn find(b: &Vec<u8>, from: usize, pat: &[u8]) -> (r: Option<usize>)
    requires
        from <= b@.len(),
        pat@.len() > 0,
    ensures
        match r {
            Some(at) => {
                &&& found_from(b@.skip(from as int), pat@, 0) == Some(at as int)
                &&& from + at + pat@.len() <= b@.len()
            },
            None => found_from(b@.skip(from as int), pat@, 0) is None,
        },
{
    let ghost rest = b@.skip(from as int);
    let mut i: usize = from;
    while i < b.len()
        invariant
            from <= i <= b@.len(),
            pat@.len() > 0,
            rest == b@.skip(from as int),
            forall|j: int| 0 <= j < i - from ==> !#[trigger] stands_at(rest, pat@, j),
        decreases b.len() - i,
    {
        proof {
            lemma_stands_in_suffix(b@, pat@, from as int, i - from);
        }
        if bytes_at(b, pat, i) {
            proof {
                lemma_is_found(rest, pat@, 0, i - from);
            }
            return Some(i - from);
        }
        i = i + 1;
    }
    proof {
        lemma_is_not_found(rest, pat@, 0);
    }
    None
}

/// How many bytes at the end of those after `from` may be the start of `pat`.
fn trailing_prefix(b: &Vec<u8>, from: usize, pat: &[u8]) -> (r: usize)
    requires
        from <= b@.len(),
        pat@.len() > 0,
    ensures
        r == cut_short(b@.skip(from as int), pat@),
        from + r <= b@.len(),
{
    let ghost rest = b@.skip(from as int);
    let mut n: usize = pat.len() - 1;
    while n > 0
        invariant
            from <= b@.len(),
            rest == b@.skip(from as int),
            n < pat@.len(),
            cut_short(rest, pat@) == kept_of(rest, pat@, n as int),
        decreases n,
    {
        if n <= b.len() - from {
            let mut same = true;
            let len: usize = b.len();
            let at: usize = len - n;
            let mut j: usize = 0;
            while j < n
                invariant
                    n < pat@.len(),
                    from <= at,
                    at + n == len,
                    len == b@.len(),
                    rest == b@.skip(from as int),
                    j <= n,
                    same == (forall|k: int| 0 <= k < j ==> b@[at + k] == #[trigger] pat@[k]),
                decreases n - j,
            {
                if b[at + j] != pat[j] {
                    same = false;
                }
                j = j + 1;
            }
            let ghost tail = rest.skip(rest.len() - n);
            if same {
                assert(tail =~= pat@.take(n as int));
                return n;
            }
            proof {
                if tail == pat@.take(n as int) {
                    assert forall|k: int| 0 <= k < n implies b@[at + k] == #[trigger] pat@[k] by {
                        assert(tail[k] == pat@.take(n as int)[k]);
                    }
                }
            }
        }
        n = n - 1;
    }
    0
}

/// How many bytes a character takes, by its first byte.
fn utf8_len(b: u8) -> (r: usize)
    ensures
        r == lead_width(b),
        1 <= r <= 4,
{
    if 0xc0 <= b && b <= 0xdf {
        2
    } else if 0xe0 <= b && b <= 0xef {
        3
    } else if 0xf0 <= b && b <= 0xf7 {
        4
    } else {
        1
    }
}

/// The bytes of `b` from `from` up to `to`.
fn cut(b: &Vec<u8>, from: usize, to: usize) -> (r: Vec<u8>)
    requires
        from <= to <= b@.len(),
    ensures
        r@ == b@.subrange(from as int, to as int),
{
    let mut out: Vec<u8> = Vec::new();
    push_bytes(&mut out, vstd::slice::slice_subrange(b.as_slice(), from, to));
    assert(out@ =~= b@.subrange(from as int, to as int));
    out
}

/// The first place from `i` on with the byte `x`, or the end.
fn find_byte(b: &Vec<u8>, x: u8, i: usize) -> (r: usize)
    requires
        i <= b@.len(),
    ensures
        r == byte_at(b@, x, i as int),
        i <= r <= b@.len(),
{
    let mut j: usize = i;
    while j < b.len() && b[j] != x
        invariant
            i <= j <= b@.len(),
            byte_at(b@, x, i as int) == byte_at(b@, x, j as int),
        decreases b.len() - j,
    {
        j = j + 1;
    }
    j
}

/// The number that a part writes, if it is one.
fn parse_number(b: &Vec<u8>) -> (r: Option<u32>)
    ensures
        match r {
            Some(n) => read_number(b@) == Some(n as nat),
            None => read_number(b@) is None,
        },
{
    let start: usize = if b.len() > 0 && b[0] == 0x2b {
        1
    } else {
        0
    };
    let ghost digits = b@.skip(start as int);
    assert(start == 0 ==> digits =~= b@);
    if start >= b.len() {
        return None;
    }
    let mut n: u64 = 0;
    let mut over = false;
    let mut i: usize = start;
    while i < b.len()
        invariant
            start <= i <= b@.len(),
            start <= 1,
            start == 1 <==> b@.len() > 0 && b@[0] == 0x2b,
            digits == b@.skip(start as int),
            start == 0 ==> digits == b@,
            all_digits(digits.take(i - start)),
            over == (number(digits.take(i - start)) > u32::MAX),
            !over ==> n == number(digits.take(i - start)),
            n <= u32::MAX,
        decreases b.len() - i,
    {
        let ghost so_far = digits.take(i - start);
        let d = b[i];
        proof {
            lemma_take_next(digits, i - start);
            assert(digits.take(i - start + 1).drop_last() =~= so_far);
            assert(digits[i - start] == d);
        }
        if d < 0x30 || d > 0x39 {
            return None;
        }
        if !over {
            n = n * 10 + (d - 0x30) as u64;
            if n > 0xffff_ffff {
                over = true;
                n = 0;
            }
        }
        i = i + 1;
        proof {
            assert(digits.take(i - start) == so_far.push(d));
            assert(number(digits.take(i - start)) == number(so_far) * 10 + (d - 0x30));
        }
    }
    assert(digits.take(i - start) =~= digits);
    if over {
        None
    } else {
        Some(n as u32)
    }
}

/// The `n`th argument of a control sequence.
fn nth_argument(b: &Vec<u8>, n: usize) -> (r: Option<u32>)
    ensures
        match r {
            Some(v) => argument(b@, n as nat) == Some(v as nat),
            None => argument(b@, n as nat) is None,
        },
{
    let mut from: usize = 0;
    let mut left: usize = n;
    assert(b@.skip(0) =~= b@);
    loop
        invariant
            from <= b@.len(),
            part(b@, 0x3b, n as nat) == part(b@.skip(from as int), 0x3b, left as nat),
        decreases left,
    {
        let rest = cut(b, from, b.len());
        assert(rest@ =~= b@.skip(from as int));
        let at = find_byte(&rest, 0x3b, 0);
        if left == 0 {
            let p = cut(&rest, 0, at);
            assert(p@ =~= rest@.take(at as int));
            let head = cut(&p, 0, find_byte(&p, 0x3a, 0));
            assert(head@ =~= p@.take(byte_at(p@, 0x3a, 0)));
            return parse_number(&head);
        }
        if at >= rest.len() {
            return None;
        }
        proof {
            assert(b@.skip(from as int).skip(at + 1) =~= b@.skip(from + at + 1));
        }
        from = from + at + 1;
        left = left - 1;
    }
}

/// The plain form of a key that is given by a symbol and the modifiers held with it.
fn named_key(code: u32, mods: u32) -> (r: Option<Key>)
    ensures
        match r {
            Some(k) => plain_form(code as nat, mods as nat) == Some(k@),
            None => plain_form(code as nat, mods as nat) is None,
        },
{
    let m: u32 = if mods > 0 {
        mods - 1
    } else {
        0
    };
    let shift = m % 2 == 1;
    let ctrl = (m / 4) % 2 == 1;
    if ctrl && code == 0x20 {
        Some(Key::Ctrl(0))
    } else if ctrl && 0x61 <= code && code <= 0x7a {
        Some(Key::Ctrl((code - 0x60) as u8))
    } else if ctrl && (code == 0x40 || (0x5c <= code && code <= 0x5f)) {
        Some(Key::Ctrl((code - 0x40) as u8))
    } else if code == 0x09 && shift && !ctrl {
        Some(Key::ShiftTab)
    } else {
        None
    }
}

/// Brings a key that came by an extended keyboard protocol back to its plain form.
///
/// Only bound keys are: any other goes on in the form that the program asked for.
fn decode_extended_key(s: &Vec<u8>, bound: &Vec<Key>) -> (r: Option<Key>)
    requires
        s@.len() >= 3,
    ensures
        match r {
            Some(k) => extended_key(s@, key_texts(bound@)) == Some(k@),
            None => extended_key(s@, key_texts(bound@)) is None,
        },
{
    let last = s[s.len() - 1];
    if last != 0x75 && last != 0x7e {
        return None;
    }
    let args = cut(s, 2, s.len() - 1);
    let code: u32 = if last == 0x75 {
        match nth_argument(&args, 0) {
            Some(c) => c,
            None => {
                return None;
            },
        }
    } else {
        match nth_argument(&args, 0) {
            Some(27) => {},
            _ => {
                return None;
            },
        }
        match nth_argument(&args, 2) {
            Some(c) => c,
            None => {
                return None;
            },
        }
    };
    let mods: u32 = match nth_argument(&args, 1) {
        Some(m) => m,
        None => 1,
    };
    match named_key(code, mods) {
        Some(k) => if is_held(bound, &k) {
            Some(k)
        } else {
            None
        },
        None => None,
    }
}

/// Cuts off the sequence at the start of `b`, which starts with an escape.
fn parse_escape(b: &Vec<u8>, bound: &Vec<Key>) -> (r: Option<(usize, Key)>)
    requires
        b@.len() > 0,
        b@[0] == 0x1b,
    ensures
        match r {
            Some(p) => escape_key(b@, key_texts(bound@)) == Some((p.0 as int, p.1@)),
            None => escape_key(b@, key_texts(bound@)) is None,
        },
{
    if b.len() == 1 {
        return Some((1, Key::Esc));
    }
    let lead = b[1];
    if lead == 0x5b {
        let mut i: usize = 2;
        while i < b.len() && !(0x40 <= b[i] && b[i] <= 0x7e)
            invariant
                2 <= i <= b@.len(),
                csi_end(b@, 2) == csi_end(b@, i as int),
            decreases b.len() - i,
        {
            i = i + 1;
        }
        if i >= b.len() {
            return None;
        }
        let s = cut(b, 0, i + 1);
        assert(s@ =~= b@.take(i + 1));
        if s.len() == 3 && bytes_at(&s, &SHIFT_TAB, 0) {
            assert(s@.subrange(0, 3) =~= s@);
            return Some((i + 1, Key::ShiftTab));
        }
        proof {
            if s@ == SHIFT_TAB@ {
                assert(s@.subrange(0, 3) =~= SHIFT_TAB@);
            }
        }
        match decode_extended_key(&s, bound) {
            Some(k) => Some((i + 1, k)),
            None => Some((i + 1, Key::Raw(s))),
        }
    } else if lead == 0x4f {
        if b.len() < 3 {
            return None;
        }
        let s = cut(b, 0, 3);
        assert(s@ =~= b@.take(3));
        Some((3, Key::Raw(s)))
    } else if lead == 0x5d {
        let mut i: usize = 2;
        while i < b.len()
            invariant
                2 <= i <= b@.len(),
                b@[0] == 0x1b,
                b@[1] == 0x5d,
                osc_end(b@, 2) == osc_end(b@, i as int),
            decreases b.len() - i,
        {
            if b[i] == 0x07 {
                let s = cut(b, 0, i + 1);
                assert(s@ =~= b@.take(i + 1));
                return Some((i + 1, Key::Raw(s)));
            }
            if b[i] == 0x1b && i + 1 < b.len() && b[i + 1] == 0x5c {
                let s = cut(b, 0, i + 2);
                assert(s@ =~= b@.take(i + 2));
                return Some((i + 2, Key::Raw(s)));
            }
            i = i + 1;
        }
        None
    } else {
        let n: usize = 1 + utf8_len(lead);
        if n > b.len() {
            return None;
        }
        let s = cut(b, 0, n);
        assert(s@ =~= b@.take(n as int));
        Some((n, Key::Raw(s)))
    }
}

/// Cuts off the character or control key at the start of `b`.
fn parse_plain(b: &Vec<u8>) -> (r: Option<(usize, Key)>)
    requires
        b@.len() > 0,
        b@[0] != 0x1b,
    ensures
        match r {
            Some(p) => plain_key(b@) == Some((p.0 as int, p.1@)),
            None => plain_key(b@) is None,
        },
{
    let x = b[0];
    if x == 0x7f {
        Some((1, Key::Backspace))
    } else if x == 0x0d {
        Some((1, Key::Enter))
    } else if x == 0x09 {
        Some((1, Key::Tab))
    } else if x < 0x20 {
        Some((1, Key::Ctrl(x)))
    } else {
        let n = utf8_len(x);
        if n > b.len() {
            return None;
        }
        let s = cut(b, 0, n);
        assert(s@ =~= b@.take(n as int));
        match utf8_text(&s) {
            Some(t) => {
                let cs = chars_of(t.as_str());
                assert(cs@.len() > 0);
                Some((n, Key::Char(cs[0])))
            },
            None => Some((n, Key::Raw(s))),
        }
    }
}

/// Cuts off the key at the start of `b`.
fn next_key(b: &Vec<u8>, bound: &Vec<Key>) -> (r: Option<(usize, Key)>)
    requires
        b@.len() > 0,
    ensures
        match r {
            Some(p) => {
                &&& first_key(b@, key_texts(bound@)) == Some((p.0 as int, p.1@))
                &&& 1 <= p.0 <= b@.len()
            },
            None => first_key(b@, key_texts(bound@)) is None,
        },
{
    proof {
        lemma_first_key_range(b@, key_texts(bound@));
    }
    if b[0] == 0x1b {
        parse_escape(b, bound)
    } else {
        parse_plain(b)
    }
}

/// Cuts what the terminal sends into keys.
pub struct Decoder {
    /// What has to wait for more.
    partial: Vec<u8>,
    /// The keys that are bound to the engine.
    bound: Vec<Key>,
    /// What has come of a paste that is still going on.
    pasting: Option<Vec<u8>>,
}

/// What a decoder holds.
pub struct DecoderText {
    pub partial: Seq<u8>,
    pub bound: Seq<KeyText>,
    pub pasting: Option<Seq<u8>>,
}

/// What gathered bytes are.
pub open spec fn opt_bytes(v: Option<Vec<u8>>) -> Option<Seq<u8>> {
    match v {
        Some(b) => Some(b@),
        None => None,
    }
}

impl View for Decoder {
    type V = DecoderText;

    closed spec fn view(&self) -> DecoderText {
        DecoderText {
            partial: self.partial@,
            bound: key_texts(self.bound@),
            pasting: opt_bytes(self.pasting),
        }
    }
}

/// The keys that a setup binds to the engine.
pub open spec fn bound_by(cfg: crate::config::ConfigText) -> Seq<KeyText> {
    lists_joined(key_lists(cfg), key_lists(cfg).len() as int)
}

impl Decoder {
    /// A decoder that waits for nothing.
    pub fn new(cfg: &Config) -> (r: Decoder)
        ensures
            r@ == (DecoderText { partial: seq![], bound: bound_by(cfg@), pasting: None }),
    {
        let r = Decoder { partial: Vec::new(), bound: cfg.bound_keys(), pasting: None };
        assert(r.partial@ =~= seq![]);
        r
    }

    /// Follows a change of the setup.
    pub fn set_config(&mut self, cfg: &Config)
        ensures
            final(self)@ == (DecoderText { bound: bound_by(cfg@), ..old(self)@ }),
    {
        self.bound = cfg.bound_keys();
    }

    /// Takes bytes and gives the keys that they complete.
    pub fn feed(&mut self, data: &[u8]) -> (r: Vec<Key>)
        ensures
            ({
                let d = decoded(old(self)@.bound, old(self)@.pasting, old(self)@.partial + data@);
                &&& key_texts(r@) == d.keys
                &&& final(self)@ == (DecoderText {
                    partial: d.partial,
                    bound: old(self)@.bound,
                    pasting: d.pasting,
                })
            }),
    {
        let mut buf = copy_bytes(&self.partial);
        push_bytes(&mut buf, data);
        self.partial = Vec::new();
        let ghost bound = self@.bound;
        let ghost all = decoded(bound, self@.pasting, buf@);
        let mut keys: Vec<Key> = Vec::new();
        let mut i: usize = 0;
        proof {
            assert(buf@.skip(0) =~= buf@);
            assert(key_texts(keys@) =~= seq![]);
            assert(after(seq![], all).keys =~= all.keys);
        }
        while i < buf.len()
            invariant
                i <= buf@.len(),
                self@.bound == bound,
                bound == old(self)@.bound,
                self@.partial.len() == 0,
                all == decoded(bound, old(self)@.pasting, old(self)@.partial + data@),
                alike(
                    all,
                    after(key_texts(keys@), decoded(bound, self@.pasting, buf@.skip(i as int))),
                ),
            decreases buf.len() - i,
        {
            let ghost rest = buf@.skip(i as int);
            let ghost had = key_texts(keys@);
            let len: usize = buf.len();
            match &self.pasting {
                Some(acc) => {
                    let mut gathered = copy_bytes(acc);
                    let ghost so_far = gathered@;
                    match find(&buf, i, &PASTE_END) {
                        Some(at) => {
                            let more = cut(&buf, i, i + at);
                            push_bytes(&mut gathered, more.as_slice());
                            assert(more@ =~= rest.take(at as int));
                            self.pasting = None;
                            let key = Key::Paste(gathered);
                            keys.push(key);
                            i = i + at + 6;
                            proof {
                                assert(rest.skip(at + 6) =~= buf@.skip(i as int));
                                let d = decoded(bound, None, buf@.skip(i as int));
                                assert(key_texts(keys@) =~= had.push(key@));
                                assert(had + (seq![key@] + d.keys) =~= key_texts(keys@) + d.keys);
                            }
                        },
                        None => {
                            let keep = trailing_prefix(&buf, i, &PASTE_END);
                            let end: usize = len - keep;
                            let more = cut(&buf, i, end);
                            push_bytes(&mut gathered, more.as_slice());
                            assert(more@ =~= rest.take(rest.len() - keep));
                            let waits = cut(&buf, end, len);
                            assert(waits@ =~= rest.skip(rest.len() - keep));
                            if gathered.len() > MAX_PASTE {
                                let mut raw: Vec<u8> = Vec::new();
                                push_bytes(&mut raw, &PASTE_START);
                                push_bytes(&mut raw, gathered.as_slice());
                                assert(raw@ =~= PASTE_START@ + gathered@);
                                let key = Key::Raw(raw);
                                keys.push(key);
                                self.pasting = None;
                                assert(key_texts(keys@) =~= had + seq![key@]);
                            } else {
                                self.pasting = Some(gathered);
                                assert(had + seq![] =~= had);
                            }
                            self.partial = waits;
                            return keys;
                        },
                    }
                },
                None => {
                    let tail = cut(&buf, i, len);
                    assert(tail@ =~= rest);
                    match next_key(&tail, &self.bound) {
                        None => {
                            self.partial = tail;
                            assert(had + seq![] =~= had);
                            return keys;
                        },
                        Some((n, key)) => {
                            let mut start = false;
                            if let Key::Raw(s) = &key {
                                start = s.len() == 6 && bytes_at(s, &PASTE_START, 0);
                                proof {
                                    if s@.len() == 6 {
                                        assert(s@.subrange(0, 6) =~= s@);
                                    }
                                }
                            }
                            assert(start == (key@ == KeyText::Raw(PASTE_START@)));
                            assert(rest.skip(n as int) =~= buf@.skip(i + n));
                            i = i + n;
                            if start {
                                let none: Vec<u8> = Vec::new();
                                assert(none@ =~= seq![]);
                                self.pasting = Some(none);
                            } else {
                                let ghost d = decoded(bound, None, buf@.skip(i as int));
                                keys.push(key);
                                proof {
                                    assert(key_texts(keys@) =~= had.push(key@));
                                    assert(had + (seq![key@] + d.keys) =~= key_texts(keys@)
                                        + d.keys);
                                }
                            }
                        },
                    }
                },
            }
        }
        proof {
            let d = decoded(bound, self@.pasting, buf@.skip(i as int));
            assert(key_texts(keys@) + d.keys =~= key_texts(keys@));
            assert(self@.partial =~= seq![]);
        }
        keys
    }
}

proof fn lemma_csi_end_longer(a: Seq<u8>, b: Seq<u8>, i: int)
    requires
        0 <= i <= a.len(),
        csi_end(a, i) < a.len(),
    ensures
        csi_end(a + b, i) == csi_end(a, i),
    decreases a.len() - i,
{
    assert(i < a.len() ==> (a + b)[i] == a[i]);
    if i < a.len() && !ends_csi(a[i]) {
        lemma_csi_end_longer(a, b, i + 1);
    }
}

proof fn lemma_osc_end_longer(a: Seq<u8>, b: Seq<u8>, i: int)
    requires
        0 <= i <= a.len(),
        osc_end(a, i) is Some,
    ensures
        osc_end(a + b, i) == osc_end(a, i),
    decreases a.len() - i,
{
    if i < a.len() {
        assert((a + b)[i] == a[i]);
        if i + 1 < a.len() {
            assert((a + b)[i + 1] == a[i + 1]);
        }
        if a[i] == 0x07 {
        } else if a[i] == 0x1b && i + 1 < a.len() && a[i + 1] == 0x5c {
        } else {
            if i + 1 >= a.len() {
                assert(osc_end(a, i + 1) is None);
            }
            lemma_osc_end_longer(a, b, i + 1);
        }
    }
}

/// A key that is complete is the same whatever follows it; only an escape at the very end
/// may turn out to start something longer.
pub proof fn law_a_complete_key_stays(a: Seq<u8>, b: Seq<u8>, bound: Seq<KeyText>)
    requires
        a.len() > 0,
        first_key(a, bound) is Some,
        a.len() > 1 || a[0] != 0x1b,
    ensures
        first_key(a + b, bound) == first_key(a, bound),
{
    let ab = a + b;
    assert(ab[0] == a[0]);
    lemma_first_key_range(a, bound);
    let n = (first_key(a, bound)->0).0;
    assert(ab.take(n) =~= a.take(n));
    if a[0] == 0x1b {
        assert(ab[1] == a[1]);
        if a[1] == 0x5b {
            lemma_csi_end_range(a, 2);
            lemma_csi_end_longer(a, b, 2);
        } else if a[1] == 0x5d {
            lemma_osc_end_longer(a, b, 2);
        }
    }
}

proof fn lemma_stands_longer(a: Seq<u8>, b: Seq<u8>, pat: Seq<u8>, i: int)
    requires
        0 <= i,
        i + pat.len() <= a.len(),
    ensures
        stands_at(a + b, pat, i) == stands_at(a, pat, i),
{
    assert((a + b).subrange(i, i + pat.len()) =~= a.subrange(i, i + pat.len()));
}

proof fn lemma_found_longer(a: Seq<u8>, b: Seq<u8>, pat: Seq<u8>)
    requires
        found_from(a, pat, 0) is Some,
    ensures
        found_from(a + b, pat, 0) == found_from(a, pat, 0),
{
    lemma_found_range(a, pat, 0);
    let at = found_from(a, pat, 0)->0;
    assert forall|j: int| 0 <= j <= at implies stands_at(a + b, pat, j) == #[trigger] stands_at(
        a,
        pat,
        j,
    ) by {
        lemma_stands_longer(a, b, pat, j);
    }
    assert(stands_at(a + b, pat, at) == stands_at(a, pat, at));
    assert forall|j: int| 0 <= j < at implies !#[trigger] stands_at(a + b, pat, j) by {
        assert(!stands_at(a, pat, j));
    }
    lemma_is_found(a + b, pat, 0, at);
}

/// Where `a` does not hold `pat`, only what may be a start of it at the end matters for
/// whether it turns up later.
proof fn lemma_only_the_end_matters(a: Seq<u8>, b: Seq<u8>, pat: Seq<u8>, j: int)
    requires
        pat.len() > 0,
        found_from(a, pat, 0) is None,
        0 <= j,
        stands_at(a + b, pat, j),
    ensures
        j >= a.len() - cut_short(a, pat),
{
    lemma_found_range(a, pat, 0);
    lemma_kept_range(a, pat, pat.len() - 1);
    if j < a.len() - cut_short(a, pat) {
        if j + pat.len() <= a.len() {
            lemma_stands_longer(a, b, pat, j);
        } else {
            let m = a.len() - j;
            let whole = (a + b).subrange(j, j + pat.len());
            assert(a.skip(j) =~= pat.take(m)) by {
                assert forall|k: int| 0 <= k < m implies a.skip(j)[k] == pat.take(m)[k] by {
                    assert(whole[k] == a[j + k]);
                }
            }
            assert(ends_with_start(a, pat, m));
        }
    }
}

/// The same for a start of `pat` at the very end.
proof fn lemma_only_the_end_is_kept(a: Seq<u8>, b: Seq<u8>, pat: Seq<u8>)
    requires
        pat.len() > 0,
    ensures
        cut_short(a + b, pat) == cut_short(a.skip(a.len() - cut_short(a, pat)) + b, pat),
{
    let keep = cut_short(a, pat);
    let top = pat.len() - 1;
    lemma_kept_range(a, pat, top);
    let rest = a.skip(a.len() - keep) + b;
    let ab = a + b;
    lemma_kept_range(ab, pat, top);
    lemma_kept_range(rest, pat, top);
    assert forall|n: int| 0 <= n <= top implies ends_with_start(ab, pat, n)
        == #[trigger] ends_with_start(rest, pat, n) by {
        if n <= rest.len() {
            assert(ab.skip(ab.len() - n) =~= rest.skip(rest.len() - n));
        } else if ends_with_start(ab, pat, n) {
            let m = n - b.len();
            let tail = ab.skip(ab.len() - n);
            assert(a.skip(a.len() - m) =~= pat.take(m)) by {
                assert forall|k: int| 0 <= k < m implies a.skip(a.len() - m)[k] == pat.take(
                    m,
                )[k] by {
                    assert(tail[k] == pat.take(n)[k]);
                    assert(tail[k] == a[a.len() - m + k]);
                }
            }
            assert(ends_with_start(a, pat, m));
        }
    }
    let x = cut_short(ab, pat);
    let y = cut_short(rest, pat);
    assert(ends_with_start(rest, pat, x));
    assert(ends_with_start(ab, pat, y));
}

proof fn lemma_unended_goes_on(
    bound: Seq<KeyText>,
    acc: Seq<u8>,
    a: Seq<u8>,
    b: Seq<u8>,
)
    requires
        a.len() > 0,
        found_from(a, PASTE_END@, 0) is None,
        unended(acc, a).sure,
    ensures
        decoded(bound, Some(acc), a + b) == decoded(
            bound,
            unended(acc, a).pasting,
            unended(acc, a).partial + b,
        ),
{
    let pat = PASTE_END@;
    let keep = cut_short(a, pat);
    lemma_kept_range(a, pat, pat.len() - 1);
    let end = a.len() - keep;
    let ab = a + b;
    let rest = a.skip(end) + b;
    let all = acc + a.take(end);
    assert(rest =~= ab.skip(end));
    assert(unended(acc, a).partial + b == rest);
    lemma_found_range(ab, pat, 0);
    lemma_found_range(rest, pat, 0);
    match found_from(ab, pat, 0) {
        Some(at) => {
            lemma_only_the_end_matters(a, b, pat, at);
            lemma_stands_in_suffix(ab, pat, end, at - end);
            assert forall|j: int| 0 <= j < at - end implies !#[trigger] stands_at(rest, pat, j) by {
                lemma_stands_in_suffix(ab, pat, end, j);
                assert(!stands_at(ab, pat, end + j));
            }
            lemma_is_found(rest, pat, 0, at - end);
            assert(acc + ab.take(at) =~= all + rest.take(at - end));
            assert(ab.skip(at + 6) =~= rest.skip(at - end + 6));
        },
        None => {
            assert forall|j: int| 0 <= j implies !#[trigger] stands_at(rest, pat, j) by {
                lemma_stands_in_suffix(ab, pat, end, j);
                assert(!stands_at(ab, pat, end + j));
            }
            lemma_is_not_found(rest, pat, 0);
            lemma_only_the_end_is_kept(a, b, pat);
            lemma_kept_range(rest, pat, pat.len() - 1);
            let more = rest.len() - cut_short(rest, pat);
            assert(ab.len() - cut_short(ab, pat) == end + more);
            assert(acc + ab.take(end + more) =~= all + rest.take(more));
            assert(ab.skip(end + more) =~= rest.skip(more));
            if rest.len() == 0 {
                assert(ab =~= a);
                assert(acc + ab.take(end + more) =~= all);
                assert(ab.skip(end + more) =~= seq![]);
                assert(keep == 0);
            }
        },
    }
}

/// Where what the terminal sends is cut into readings does not matter: unless something was
/// decided for want of more, feeding the rest afterwards gives the keys and the state that
/// feeding all at once gives.
pub proof fn law_input_may_be_cut_anywhere(
    bound: Seq<KeyText>,
    pasting: Option<Seq<u8>>,
    a: Seq<u8>,
    b: Seq<u8>,
)
    requires
        decoded(bound, pasting, a).sure,
    ensures
        ({
            let one = decoded(bound, pasting, a);
            alike(
                decoded(bound, pasting, a + b),
                after(one.keys, decoded(bound, one.pasting, one.partial + b)),
            )
        }),
    decreases a.len(),
{
    let one = decoded(bound, pasting, a);
    let ab = a + b;
    let two = decoded(bound, one.pasting, one.partial + b);
    if a.len() == 0 {
        assert(ab =~= b);
        assert(one.partial + b =~= b);
        assert(one.keys + two.keys =~= two.keys);
    } else {
        match pasting {
            Some(acc) => {
                match found_from(a, PASTE_END@, 0) {
                    Some(at) => {
                        lemma_found_range(a, PASTE_END@, 0);
                        lemma_found_longer(a, b, PASTE_END@);
                        let rest = a.skip(at + 6);
                        assert(ab.skip(at + 6) =~= rest + b);
                        assert(ab.take(at) =~= a.take(at));
                        law_input_may_be_cut_anywhere(bound, None, rest, b);
                        let k = seq![KeyText::Paste(acc + a.take(at))];
                        let later = decoded(bound, None, rest);
                        assert(k + (later.keys + two.keys) =~= (k + later.keys) + two.keys);
                    },
                    None => {
                        lemma_unended_goes_on(bound, acc, a, b);
                        assert(one.keys + two.keys =~= two.keys);
                    },
                }
            },
            None => {
                match first_key(a, bound) {
                    None => {
                        assert(one.keys + two.keys =~= two.keys);
                    },
                    Some((n, k)) => {
                        lemma_first_key_range(a, bound);
                        if a.len() == 1 && a[0] == 0x1b {
                            assert(k == KeyText::Esc);
                        } else {
                            law_a_complete_key_stays(a, b, bound);
                            let rest = a.skip(n);
                            assert(ab.skip(n) =~= rest + b);
                            assert(ab.len() > 1 || ab[0] != 0x1b);
                            if k == KeyText::Raw(PASTE_START@) {
                                law_input_may_be_cut_anywhere(bound, Some(seq![]), rest, b);
                            } else {
                                law_input_may_be_cut_anywhere(bound, None, rest, b);
                                let later = decoded(bound, None, rest);
                                assert(seq![k] + (later.keys + two.keys) =~= (seq![k]
                                    + later.keys) + two.keys);
                            }
                        }
                    },
                }
            },
        }
    }
}

proof fn lemma_paste_starts(bound: Seq<KeyText>, b: Seq<u8>)
    ensures
        first_key(PASTE_START@ + b, bound) == Some((6int, KeyText::Raw(PASTE_START@))),
{
    let s = PASTE_START@;
    let all = s + b;
    assert(all[0] == 0x1b && all[1] == 0x5b && all[2] == 0x32 && all[3] == 0x30 && all[4] == 0x30
        && all[5] == 0x7e);
    reveal_with_fuel(csi_end, 5);
    assert(csi_end(all, 2) == 5);
    assert(all.take(6) =~= s);
    let args = s.subrange(2, 5);
    assert(args =~= seq![0x32u8, 0x30u8, 0x30u8]);
    reveal_with_fuel(byte_at, 4);
    assert(byte_at(args, 0x3b, 0) == 3);
    assert(args.take(3) =~= args);
    assert(byte_at(args, 0x3a, 0) == 3);
    assert(part(args, 0x3b, 0) == Some(args));
    reveal_with_fuel(number, 4);
    assert(args.drop_last() =~= seq![0x32u8, 0x30u8]);
    assert(args.drop_last().drop_last() =~= seq![0x32u8]);
    assert(args.drop_last().drop_last().drop_last() =~= seq![]);
    assert(number(args) == 200);
    assert(argument(args, 0) != Some(27nat));
    assert(s.last() == 0x7e);
    assert(extended_key(s, bound) is None);
    assert(s.len() == 6 && SHIFT_TAB@.len() == 3);
}

/// Whether `body` can be told from what ends a paste.
pub open spec fn pasteable(body: Seq<u8>) -> bool {
    found_from(body + PASTE_END@, PASTE_END@, 0) == Some(body.len() as int)
}

proof fn lemma_whole_paste(bound: Seq<KeyText>, body: Seq<u8>)
    requires
        pasteable(body),
    ensures
        decoded(bound, None, PASTE_START@ + body + PASTE_END@) == (Decoded {
            keys: seq![KeyText::Paste(body)],
            partial: seq![],
            pasting: None,
            sure: true,
        }),
{
    let rest = body + PASTE_END@;
    let all = PASTE_START@ + body + PASTE_END@;
    assert(all =~= PASTE_START@ + rest);
    lemma_paste_starts(bound, rest);
    assert(all.skip(6) =~= rest);
    assert(rest.skip((body.len() + 6) as int) =~= seq![]);
    assert(seq![] + rest.take(body.len() as int) =~= body);
    let nothing: Seq<u8> = seq![];
    let none = decoded(bound, None, nothing);
    assert(seq![KeyText::Paste(body)] + none.keys =~= seq![KeyText::Paste(body)]);
    let some = decoded(bound, Some(nothing), rest);
    assert(some == after(seq![KeyText::Paste(nothing + rest.take(body.len() as int))], none));
}

proof fn lemma_part_of_paste(bound: Seq<KeyText>, body: Seq<u8>, at: int)
    requires
        pasteable(body),
        body.len() <= MAX_PASTE,
        0 <= at <= body.len() + 12,
        at != 1,
    ensures
        decoded(bound, None, (PASTE_START@ + body + PASTE_END@).take(at)).sure,
{
    let start = PASTE_START@;
    let rest = body + PASTE_END@;
    let all = start + body + PASTE_END@;
    assert(all =~= start + rest);
    let a = all.take(at);
    if at == 0 {
    } else if at < 6 {
        assert(a =~= start.take(at));
        assert(a[0] == 0x1b && a[1] == 0x5b);
        reveal_with_fuel(csi_end, 5);
        assert(at > 2 ==> a[2] == 0x32);
        assert(at > 3 ==> a[3] == 0x30);
        assert(at > 4 ==> a[4] == 0x30);
        assert(csi_end(a, 2) == at);
    } else {
        let some = rest.take(at - 6);
        assert(a =~= start + some);
        lemma_paste_starts(bound, some);
        assert(a.skip(6) =~= some);
        let nothing: Seq<u8> = seq![];
        assert(decoded(bound, None, a) == decoded(bound, Some(nothing), some));
        let pat = PASTE_END@;
        lemma_found_range(rest, pat, 0);
        lemma_found_range(some, pat, 0);
        if at == all.len() {
            lemma_whole_paste(bound, body);
            assert(a =~= all);
        } else if some.len() > 0 {
            assert(some + rest.skip(at - 6) =~= rest);
            if found_from(some, pat, 0) is Some {
                lemma_found_longer(some, rest.skip(at - 6), pat);
            }
            assert(found_from(some, pat, 0) is None);
            lemma_kept_range(some, pat, 5);
            if some.len() > body.len() {
                let m = some.len() - body.len();
                assert(some.skip(some.len() - m) =~= pat.take(m));
                assert(ends_with_start(some, pat, m));
            }
            assert((nothing + some.take(some.len() - cut_short(some, pat))).len() <= MAX_PASTE);
            assert(unended(nothing, some).sure);
        }
    }
}

/// The first `n` pieces of what came, one after the other.
pub open spec fn joined_upto(pieces: Seq<Seq<u8>>, n: int) -> Seq<u8>
    decreases n,
{
    if n <= 0 {
        seq![]
    } else {
        joined_upto(pieces, n - 1) + pieces[n - 1]
    }
}

/// What comes of the first `n` pieces, read one after the other.
pub open spec fn read_in_turn(bound: Seq<KeyText>, pieces: Seq<Seq<u8>>, n: int) -> Decoded
    decreases n,
{
    if n <= 0 {
        decoded(bound, None, seq![])
    } else {
        let had = read_in_turn(bound, pieces, n - 1);
        after(had.keys, decoded(bound, had.pasting, had.partial + pieces[n - 1]))
    }
}

/// Input may be cut as often as one likes: reading it piece by piece gives what reading it at
/// once gives, unless an escape was taken for a key or a paste was given up where it was cut.
pub proof fn law_input_may_be_cut_often(bound: Seq<KeyText>, pieces: Seq<Seq<u8>>, n: int)
    requires
        0 <= n <= pieces.len(),
        forall|i: int| 0 <= i < n ==> decoded(bound, None, #[trigger] joined_upto(pieces, i)).sure,
    ensures
        alike(read_in_turn(bound, pieces, n), decoded(bound, None, joined_upto(pieces, n))),
    decreases n,
{
    if n > 0 {
        law_input_may_be_cut_often(bound, pieces, n - 1);
        let a = joined_upto(pieces, n - 1);
        assert(decoded(bound, None, a).sure);
        law_input_may_be_cut_anywhere(bound, None, a, pieces[n - 1]);
    }
}

/// A paste comes out as one key with every byte of it, however often and wherever the reading
/// was cut: only right after the first byte of all an escape alone has come.
pub proof fn law_a_paste_is_one_key(bound: Seq<KeyText>, body: Seq<u8>, pieces: Seq<Seq<u8>>)
    requires
        pasteable(body),
        body.len() <= MAX_PASTE,
        joined_upto(pieces, pieces.len() as int) == key_bytes(KeyText::Paste(body)),
        forall|i: int| 0 <= i < pieces.len() ==> (#[trigger] joined_upto(pieces, i)).len() != 1,
    ensures
        ({
            let r = read_in_turn(bound, pieces, pieces.len() as int);
            &&& r.keys == seq![KeyText::Paste(body)]
            &&& r.partial.len() == 0
            &&& r.pasting is None
        }),
{
    let n = pieces.len() as int;
    let sent = PASTE_START@ + body + PASTE_END@;
    lemma_whole_paste(bound, body);
    assert forall|i: int| 0 <= i < n implies decoded(
        bound,
        None,
        #[trigger] joined_upto(pieces, i),
    ).sure by {
        lemma_joined_grows(pieces, i, n);
        let a = joined_upto(pieces, i);
        lemma_part_of_paste(bound, body, a.len() as int);
        assert(a =~= sent.take(a.len() as int));
    }
    law_input_may_be_cut_often(bound, pieces, n);
}

proof fn lemma_joined_grows(pieces: Seq<Seq<u8>>, i: int, n: int)
    requires
        0 <= i <= n <= pieces.len(),
    ensures
        joined_upto(pieces, i).is_prefix_of(joined_upto(pieces, n)),
    decreases n - i,
{
    let a = joined_upto(pieces, i);
    if i < n {
        lemma_joined_grows(pieces, i, n - 1);
        let b = joined_upto(pieces, n - 1);
        let c = joined_upto(pieces, n);
        assert(a =~= c.subrange(0, a.len() as int)) by {
            assert(a =~= b.subrange(0, a.len() as int));
        }
    } else {
        assert(a =~= a.subrange(0, a.len() as int));
    }
}

proof fn lemma_one_character(b: Seq<u8>)
    requires
        b.len() > 0,
        b.len() == lead_width(b[0]),
        vstd::utf8::valid_utf8(b),
    ensures
        vstd::utf8::decode_utf8(b).len() == 1,
        vstd::utf8::encode_utf8(seq![vstd::utf8::decode_utf8(b)[0]]) == b,
{
    broadcast use vstd::utf8::utf8_byte_ranges_bitwise;

    let rest = vstd::utf8::pop_first_scalar(b);
    assert(vstd::utf8::length_of_first_scalar(b) == b.len());
    assert(rest =~= seq![]);
    assert(vstd::utf8::decode_utf8(rest) =~= seq![]);
    assert(vstd::utf8::decode_utf8(b) =~= seq![vstd::utf8::decode_utf8(b)[0]]);
    vstd::utf8::decode_utf8_encode_utf8(b);
}

/// A key stands for the bytes that it came as, unless it is bound to the engine and came by
/// an extended keyboard protocol.
pub proof fn law_only_bound_keys_change(b: Seq<u8>, bound: Seq<KeyText>)
    requires
        b.len() > 0,
    ensures
        match first_key(b, bound) {
            Some((n, k)) => key_bytes(k) == b.take(n) || (held(bound, k) && !(k is Raw)),
            None => true,
        },
{
    lemma_first_key_range(b, bound);
    match first_key(b, bound) {
        None => {},
        Some((n, k)) => {
            if b[0] == 0x1b {
                if b.len() == 1 {
                    assert(b.take(1) =~= seq![0x1bu8]);
                }
            } else {
                assert(n == 1 ==> b.take(1) =~= seq![b[0]]);
                if k is Char {
                    lemma_one_character(b.take(n));
                }
            }
        },
    }
}

/// The bytes of keys one after the other.
pub open spec fn all_bytes(keys: Seq<KeyText>) -> Seq<u8>
    decreases keys.len(),
{
    if keys.len() == 0 {
        seq![]
    } else {
        key_bytes(keys[0]) + all_bytes(keys.skip(1))
    }
}

/// What has come of a paste, with what was before it.
pub open spec fn paste_so_far(pasting: Option<Seq<u8>>) -> Seq<u8> {
    match pasting {
        Some(acc) => PASTE_START@ + acc,
        None => seq![],
    }
}

proof fn lemma_bytes_after(k: KeyText, later: Seq<KeyText>)
    ensures
        all_bytes(seq![k] + later) == key_bytes(k) + all_bytes(later),
{
    assert((seq![k] + later).skip(1) =~= later);
    assert((seq![k] + later)[0] == k);
}

proof fn lemma_rejoined(
    whole: Seq<u8>,
    first: Seq<u8>,
    rest: Seq<u8>,
    later: Seq<u8>,
    going: Seq<u8>,
    waits: Seq<u8>,
)
    requires
        whole == first + rest,
        rest == later + going + waits,
    ensures
        whole == (first + later) + going + waits,
{
    assert(whole =~= (first + later) + going + waits);
}

proof fn lemma_unended_is_kept(acc: Seq<u8>, b: Seq<u8>)
    ensures
        ({
            let d = unended(acc, b);
            paste_so_far(Some(acc)) + b == all_bytes(d.keys) + paste_so_far(d.pasting) + d.partial
        }),
{
    let d = unended(acc, b);
    let end = b.len() - cut_short(b, PASTE_END@);
    lemma_kept_range(b, PASTE_END@, 5);
    let all = acc + b.take(end);
    assert(b =~= b.take(end) + b.skip(end));
    if all.len() > MAX_PASTE {
        let k = KeyText::Raw(PASTE_START@ + all);
        lemma_bytes_after(k, seq![]);
        assert(seq![k] + seq![] =~= d.keys);
        assert(all_bytes(d.keys) =~= PASTE_START@ + all);
    } else {
        assert(all_bytes(d.keys) =~= seq![]);
    }
    assert(paste_so_far(Some(acc)) + b =~= all_bytes(d.keys) + paste_so_far(d.pasting) + d.partial);
}

proof fn lemma_nothing_before(pasting: Option<Seq<u8>>, b: Seq<u8>)
    ensures
        paste_so_far(None) + b == b,
        all_bytes(seq![]) + paste_so_far(pasting) + b == paste_so_far(pasting) + b,
{
    assert(paste_so_far(None) + b =~= b);
    assert(all_bytes(seq![]) + paste_so_far(pasting) + b =~= paste_so_far(pasting) + b);
}

/// Whether bytes are a sequence of an extended keyboard protocol that names a bound key.
pub open spec fn names_bound(s: Seq<u8>, bound: Seq<KeyText>) -> bool {
    s.len() > 2 && s[0] == 0x1b && s[1] == 0x5b && s != SHIFT_TAB@ && extended_key(s, bound) is Some
}

/// Whether a bound key comes by an extended keyboard protocol. What is pasted is no key.
pub open spec fn bound_came(bound: Seq<KeyText>, pasting: Option<Seq<u8>>, b: Seq<u8>) -> bool
    decreases b.len(),
    via bound_came_decreases
{
    if b.len() == 0 {
        false
    } else {
        match pasting {
            Some(acc) => match found_from(b, PASTE_END@, 0) {
                Some(at) => bound_came(bound, None, b.skip(at + 6)),
                None => false,
            },
            None => match first_key(b, bound) {
                None => false,
                Some((n, k)) => names_bound(b.take(n), bound) || bound_came(
                    bound,
                    if k == KeyText::Raw(PASTE_START@) {
                        Some(seq![])
                    } else {
                        None
                    },
                    b.skip(n),
                ),
            },
        }
    }
}

#[via_fn]
proof fn bound_came_decreases(bound: Seq<KeyText>, pasting: Option<Seq<u8>>, b: Seq<u8>) {
    if b.len() > 0 {
        lemma_first_key_range(b, bound);
        lemma_found_range(b, PASTE_END@, 0);
    }
}

/// A key that does not come by an extended protocol stands for the bytes that it came as.
proof fn lemma_plain_key_is_kept(b: Seq<u8>, bound: Seq<KeyText>)
    requires
        b.len() > 0,
        first_key(b, bound) matches Some((n, k)) ==> !names_bound(b.take(n), bound),
    ensures
        first_key(b, bound) matches Some((n, k)) ==> key_bytes(k) == b.take(n),
{
    lemma_first_key_range(b, bound);
    if let Some((n, k)) = first_key(b, bound) {
        let s = b.take(n);
        if b[0] == 0x1b {
            if b.len() == 1 {
                assert(s =~= seq![0x1bu8]);
            } else if b[1] == 0x5b {
                lemma_csi_end_range(b, 2);
                assert(s.len() > 2 && s[0] == b[0] && s[1] == b[1]);
            }
        } else {
            law_only_bound_keys_change(b, bound);
            if held(bound, k) {
                assert(n == 1 ==> s =~= seq![b[0]]);
                if k is Char {
                    lemma_one_character(s);
                }
            }
        }
    }
}

/// Where no bound key comes by an extended protocol, no byte is lost, added or changed: the
/// keys and what still waits give back all that came. A bound key in its plain form is no
/// exception.
pub proof fn law_unbound_input_is_kept(bound: Seq<KeyText>, pasting: Option<Seq<u8>>, b: Seq<u8>)
    requires
        !bound_came(bound, pasting, b),
    ensures
        ({
            let d = decoded(bound, pasting, b);
            paste_so_far(pasting) + b == all_bytes(d.keys) + paste_so_far(d.pasting) + d.partial
        }),
    decreases b.len(), 1int,
{
    let d = decoded(bound, pasting, b);
    if b.len() == 0 {
        assert(b =~= seq![]);
        lemma_nothing_before(pasting, b);
    } else {
        match pasting {
            Some(acc) => match found_from(b, PASTE_END@, 0) {
                Some(at) => {
                    lemma_found_range(b, PASTE_END@, 0);
                    let rest = b.skip(at + 6);
                    let k = KeyText::Paste(acc + b.take(at));
                    let later = decoded(bound, None, rest);
                    law_unbound_input_is_kept(bound, None, rest);
                    lemma_bytes_after(k, later.keys);
                    lemma_nothing_before(None, rest);
                    assert(b =~= b.take(at) + PASTE_END@ + rest);
                    assert(paste_so_far(pasting) + b =~= key_bytes(k) + rest);
                    lemma_rejoined(
                        paste_so_far(pasting) + b,
                        key_bytes(k),
                        rest,
                        all_bytes(later.keys),
                        paste_so_far(later.pasting),
                        later.partial,
                    );
                },
                None => {
                    lemma_unended_is_kept(acc, b);
                },
            },
            None => {
                lemma_nothing_before(None, b);
                lemma_unbound_key_is_kept(bound, b);
            },
        }
    }
}

proof fn lemma_unbound_key_is_kept(bound: Seq<KeyText>, b: Seq<u8>)
    requires
        b.len() > 0,
        !bound_came(bound, None, b),
    ensures
        ({
            let d = decoded(bound, None, b);
            b == all_bytes(d.keys) + paste_so_far(d.pasting) + d.partial
        }),
    decreases b.len(), 0int,
{
    let d = decoded(bound, None, b);
    match first_key(b, bound) {
        None => {
            lemma_nothing_before(None, b);
        },
        Some((n, k)) => {
            lemma_first_key_range(b, bound);
            lemma_plain_key_is_kept(b, bound);
            let rest = b.skip(n);
            assert(b =~= b.take(n) + rest);
            if k == KeyText::Raw(PASTE_START@) {
                let nothing: Seq<u8> = seq![];
                law_unbound_input_is_kept(bound, Some(nothing), rest);
                assert(PASTE_START@ + nothing =~= PASTE_START@);
            } else if b.len() == 1 && b[0] == 0x1b {
                assert(d.keys[0] == k);
                lemma_bytes_after(k, seq![]);
                assert(seq![k] + seq![] =~= d.keys);
                assert(b =~= all_bytes(d.keys) + paste_so_far(d.pasting) + d.partial);
            } else {
                let later = decoded(bound, None, rest);
                law_unbound_input_is_kept(bound, None, rest);
                lemma_nothing_before(None, rest);
                lemma_bytes_after(k, later.keys);
                lemma_rejoined(
                    b,
                    key_bytes(k),
                    rest,
                    all_bytes(later.keys),
                    paste_so_far(later.pasting),
                    later.partial,
                );
            }
        },
    }
}

/// Where the digits end that go on from `i`.
pub open spec fn digits_end(b: Seq<u8>, i: int) -> int
    decreases b.len() - i,
{
    if i >= b.len() || !(0x30 <= b[i] <= 0x39) {
        i
    } else {
        digits_end(b, i + 1)
    }
}

/// A row or a column that is counted from one, counted from nought. One that is too large
/// for the machine is taken for the largest.
pub open spec fn from_nought(b: Seq<u8>) -> int {
    let n = number(b);
    if n == 0 {
        0
    } else if n > usize::MAX {
        usize::MAX - 1
    } else {
        n - 1
    }
}

/// The report of a cursor that starts at `i`: the row and the column, and where it ends.
pub open spec fn report_at(b: Seq<u8>, i: int) -> Option<((int, int), int)> {
    if i + 1 >= b.len() || b[i] != 0x1b || b[i + 1] != 0x5b {
        None
    } else {
        let row = if i + 2 < b.len() && b[i + 2] == 0x3f {
            i + 3
        } else {
            i + 2
        };
        let semi = digits_end(b, row);
        let col = semi + 1;
        let end = digits_end(b, col);
        if semi > row && semi < b.len() && b[semi] == 0x3b && end > col && end < b.len() && b[end]
            == 0x52 {
            Some(
                (
                    (from_nought(b.subrange(row, semi)), from_nought(b.subrange(col, end))),
                    end + 1,
                ),
            )
        } else {
            None
        }
    }
}

/// The first place from `i` on where the report of a cursor starts.
pub open spec fn report_from(b: Seq<u8>, i: int) -> Option<int>
    decreases b.len() - i,
{
    if i >= b.len() {
        None
    } else if report_at(b, i) is Some {
        Some(i)
    } else {
        report_from(b, i + 1)
    }
}

/// The number that digits write, as far as the machine can hold it.
fn read_digits(b: &Vec<u8>, from: usize) -> (r: (usize, usize))
    requires
        from <= b@.len(),
    ensures
        from <= r.0 <= b@.len(),
        r.0 == digits_end(b@, from as int),
        r.1 == ({
            let n = number(b@.subrange(from as int, r.0 as int));
            if n > usize::MAX {
                usize::MAX as nat
            } else {
                n
            }
        }),
{
    let mut i: usize = from;
    let mut n: usize = 0;
    assert(b@.subrange(from as int, from as int) =~= seq![]);
    while i < b.len() && 0x30 <= b[i] && b[i] <= 0x39
        invariant
            from <= i <= b@.len(),
            digits_end(b@, from as int) == digits_end(b@, i as int),
            n == ({
                let n = number(b@.subrange(from as int, i as int));
                if n > usize::MAX {
                    usize::MAX as nat
                } else {
                    n
                }
            }),
        decreases b.len() - i,
    {
        let d: usize = (b[i] - 0x30) as usize;
        let ghost so_far = b@.subrange(from as int, i as int);
        proof {
            let next = b@.subrange(from as int, i + 1);
            assert(next.drop_last() =~= so_far);
            assert(next.last() == b@[i as int]);
        }
        n = if n > (usize::MAX - d) / 10 {
            usize::MAX
        } else {
            n * 10 + d
        };
        i = i + 1;
    }
    (i, n)
}

fn less_one(n: usize) -> (r: usize)
    ensures
        r == if n > 0 {
            n - 1
        } else {
            0
        },
{
    if n > 0 {
        n - 1
    } else {
        0
    }
}

/// Reads the report of a cursor that starts at `at`: the row and the column, counted from
/// nought, and where it ends.
fn parse_cursor_report(b: &Vec<u8>, at: usize) -> (r: Option<((usize, usize), usize)>)
    requires
        at < b@.len(),
    ensures
        match r {
            Some(p) => {
                &&& report_at(b@, at as int) == Some(
                    (((p.0).0 as int, (p.0).1 as int), p.1 as int),
                )
                &&& at < p.1 <= b@.len()
            },
            None => report_at(b@, at as int) is None,
        },
{
    let len: usize = b.len();
    if len - at < 2 || b[at] != 0x1b || b[at + 1] != 0x5b {
        return None;
    }
    let start: usize = if len - at > 2 && b[at + 2] == 0x3f {
        at + 3
    } else {
        at + 2
    };
    let (semi, row) = read_digits(b, start);
    if semi == start || semi >= len || b[semi] != 0x3b {
        return None;
    }
    let (end, col) = read_digits(b, semi + 1);
    if end == semi + 1 || end >= len || b[end] != 0x52 {
        return None;
    }
    Some(((less_one(row), less_one(col)), end + 1))
}

/// Takes the report of a cursor out of what came in.
///
/// Gives the row and the column, counted from nought, and the bytes round the report: what
/// the user typed ahead is not lost.
pub fn take_cursor_report(buf: &[u8]) -> (r: Option<((usize, usize), Vec<u8>)>)
    ensures
        match report_from(buf@, 0) {
            Some(i) => {
                &&& r is Some
                &&& report_at(buf@, i) == Some(
                    (
                        (((r->0).0).0 as int, ((r->0).0).1 as int),
                        (report_at(buf@, i)->0).1,
                    ),
                )
                &&& (r->0).1@ == buf@.take(i) + buf@.skip((report_at(buf@, i)->0).1)
            },
            None => r is None,
        },
{
    let mut b: Vec<u8> = Vec::new();
    push_bytes(&mut b, buf);
    assert(b@ =~= buf@);
    let mut i: usize = 0;
    while i < b.len()
        invariant
            i <= b@.len(),
            b@ == buf@,
            report_from(b@, 0) == report_from(b@, i as int),
        decreases b.len() - i,
    {
        if let Some((pos, end)) = parse_cursor_report(&b, i) {
            let mut rest = cut(&b, 0, i);
            let more = cut(&b, end, b.len());
            push_bytes(&mut rest, more.as_slice());
            assert(rest@ =~= buf@.take(i as int) + buf@.skip(end as int));
            return Some((pos, rest));
        }
        i = i + 1;
    }
    None
}

proof fn lemma_digits_end(b: Seq<u8>, i: int, end: int)
    requires
        0 <= i <= end < b.len(),
        all_digits(b.subrange(i, end)),
        !(0x30 <= b[end] <= 0x39),
    ensures
        digits_end(b, i) == end,
    decreases end - i,
{
    if i < end {
        assert(b.subrange(i, end)[0] == b[i]);
        assert(b.subrange(i + 1, end) =~= b.subrange(i, end).skip(1));
        lemma_digits_end(b, i + 1, end);
    }
}

proof fn lemma_report_from(b: Seq<u8>, i: int, at: int)
    requires
        0 <= i <= at < b.len(),
        report_at(b, at) is Some,
        forall|j: int| i <= j < at ==> b[j] != 0x1b,
    ensures
        report_from(b, i) == Some(at),
    decreases at - i,
{
    if i < at {
        assert(b[i] != 0x1b);
        lemma_report_from(b, i + 1, at);
    }
}

/// The bytes by which a terminal reports where its cursor is.
pub open spec fn cursor_report(row: Seq<u8>, col: Seq<u8>) -> Seq<u8> {
    seq![0x1bu8, 0x5bu8] + row + seq![0x3bu8] + col + seq![0x52u8]
}

/// A report that comes between other bytes is taken out whole, and what is round it stays.
pub proof fn law_a_report_is_taken_out(before: Seq<u8>, row: Seq<u8>, col: Seq<u8>, later: Seq<u8>)
    requires
        forall|j: int| 0 <= j < before.len() ==> #[trigger] before[j] != 0x1b,
        row.len() > 0 && all_digits(row),
        col.len() > 0 && all_digits(col),
    ensures
        ({
            let b = before + cursor_report(row, col) + later;
            let at = before.len() as int;
            &&& report_from(b, 0) == Some(at)
            &&& (report_at(b, at)->0).0 == (from_nought(row), from_nought(col))
            &&& b.take(at) + b.skip((report_at(b, at)->0).1) == before + later
        }),
{
    let rep = cursor_report(row, col);
    let b = before + rep + later;
    let at = before.len() as int;
    let semi = at + 2 + row.len();
    let end = semi + 1 + col.len();
    assert(b[at] == 0x1b && b[at + 1] == 0x5b);
    assert(b.subrange(at + 2, semi) =~= row);
    assert(b[semi] == rep[2 + row.len() as int]);
    assert(b[semi] == 0x3b);
    assert(b.subrange(semi + 1, end) =~= col);
    assert(b[end] == rep[(3 + row.len() + col.len()) as int]);
    assert(b[end] == 0x52);
    assert(b[at + 2] == row[0]);
    lemma_digits_end(b, at + 2, semi);
    lemma_digits_end(b, semi + 1, end);
    assert(report_at(b, at) is Some);
    assert forall|j: int| 0 <= j < at implies b[j] != 0x1b by {
        assert(b[j] == before[j]);
    }
    lemma_report_from(b, 0, at);
    assert(b.take(at) =~= before);
    assert(b.skip(end + 1) =~= later);
}

/// The last place before `i` with the byte `x`.
pub open spec fn last_byte(b: Seq<u8>, x: u8, i: int) -> Option<int>
    decreases i,
{
    if i <= 0 {
        None
    } else if b[i - 1] == x {
        Some(i - 1)
    } else {
        last_byte(b, x, i - 1)
    }
}

/// Whether a sequence that starts with an escape is there to its end.
pub open spec fn complete(s: Seq<u8>) -> bool {
    if s.len() < 2 {
        false
    } else if s[1] == 0x5b {
        exists|i: int| 2 <= i < s.len() && ends_csi(#[trigger] s[i])
    } else if s[1] == 0x5d || s[1] == 0x50 || s[1] == 0x58 || s[1] == 0x5e || s[1] == 0x5f {
        (exists|i: int| 2 <= i < s.len() && #[trigger] s[i] == 0x07) || (exists|i: int|
            2 <= i < s.len() - 1 && #[trigger] s[i] == 0x1b && s[i + 1] == 0x5c)
    } else if s[1] == 0x23 || s[1] == 0x28 || s[1] == 0x29 || s[1] == 0x2a || s[1] == 0x2b || s[1]
        == 0x25 || s[1] == 0x20 {
        s.len() >= 3
    } else {
        true
    }
}

/// How many bytes at the end are a character that is cut short, looking back from `back`.
pub open spec fn cut_character(b: Seq<u8>, back: int) -> int
    decreases 5 - back,
{
    if back < 1 || back > 4 || back > b.len() {
        0
    } else {
        let x = b[b.len() - back];
        if x < 0x80 {
            0
        } else if x >= 0xc0 {
            if lead_width(x) > back {
                back
            } else {
                0
            }
        } else {
            cut_character(b, back + 1)
        }
    }
}

/// The end of `b` that a sequence or a character needs more for; empty if nothing does.
pub open spec fn unfinished(b: Seq<u8>) -> Seq<u8> {
    match last_byte(b, 0x1b, b.len() as int) {
        Some(i) if !complete(b.skip(i)) => b.skip(i),
        _ => b.skip(b.len() - cut_character(b, 1)),
    }
}

/// The last bytes of `b`, as many as are remembered at most.
pub open spec fn remembered(b: Seq<u8>) -> Seq<u8> {
    if b.len() > MAX_TAIL {
        b.skip(b.len() - MAX_TAIL)
    } else {
        b
    }
}

/// Whether a sequence that starts with an escape is there to its end.
fn sequence_complete(s: &Vec<u8>) -> (r: bool)
    ensures
        r == complete(s@),
{
    if s.len() < 2 {
        return false;
    }
    let lead = s[1];
    if lead == 0x5b {
        let mut i: usize = 2;
        while i < s.len()
            invariant
                2 <= i <= s@.len(),
                s@[1] == 0x5b,
                forall|j: int| 2 <= j < i ==> !ends_csi(#[trigger] s@[j]),
            decreases s.len() - i,
        {
            if 0x40 <= s[i] && s[i] <= 0x7e {
                assert(ends_csi(s@[i as int]));
                return true;
            }
            i = i + 1;
        }
        false
    } else if lead == 0x5d || lead == 0x50 || lead == 0x58 || lead == 0x5e || lead == 0x5f {
        let mut i: usize = 2;
        while i < s.len()
            invariant
                2 <= i <= s@.len(),
                s@[1] == 0x5d || s@[1] == 0x50 || s@[1] == 0x58 || s@[1] == 0x5e || s@[1] == 0x5f,
                forall|j: int| 2 <= j < i ==> #[trigger] s@[j] != 0x07,
                forall|j: int|
                    2 <= j < i && j < s@.len() - 1 ==> !(#[trigger] s@[j] == 0x1b && s@[j + 1]
                        == 0x5c),
            decreases s.len() - i,
        {
            if s[i] == 0x07 {
                return true;
            }
            if s[i] == 0x1b && s.len() - i > 1 && s[i + 1] == 0x5c {
                assert(s@[i as int] == 0x1b);
                return true;
            }
            i = i + 1;
        }
        false
    } else if lead == 0x23 || lead == 0x28 || lead == 0x29 || lead == 0x2a || lead == 0x2b || lead
        == 0x25 || lead == 0x20 {
        s.len() >= 3
    } else {
        true
    }
}

/// How many bytes at the end are a character that is cut short.
fn incomplete_utf8_tail(b: &Vec<u8>) -> (r: usize)
    ensures
        r == cut_character(b@, 1),
        r <= b@.len(),
{
    let mut back: usize = 1;
    while back <= 4 && back <= b.len()
        invariant
            1 <= back <= 5,
            cut_character(b@, 1) == cut_character(b@, back as int),
        decreases 5 - back,
    {
        let x = b[b.len() - back];
        if x < 0x80 {
            return 0;
        }
        if x >= 0xc0 {
            return if utf8_len(x) > back {
                back
            } else {
                0
            };
        }
        back = back + 1;
    }
    0
}

/// The place of the last escape.
fn last_escape(b: &Vec<u8>) -> (r: Option<usize>)
    ensures
        match r {
            Some(i) => last_byte(b@, 0x1b, b@.len() as int) == Some(i as int) && i < b@.len(),
            None => last_byte(b@, 0x1b, b@.len() as int) is None,
        },
{
    let mut i: usize = b.len();
    while i > 0
        invariant
            i <= b@.len(),
            last_byte(b@, 0x1b, b@.len() as int) == last_byte(b@, 0x1b, i as int),
        decreases i,
    {
        i = i - 1;
        if b[i] == 0x1b {
            return Some(i);
        }
    }
    None
}

/// Follows whether what a program writes stops in the middle of a sequence or a character.
///
/// What is drawn over the screen goes between the bytes of the program, and in the middle of
/// a sequence it would break it.
pub struct SeqTracker {
    /// What is unfinished.
    tail: Vec<u8>,
}

impl View for SeqTracker {
    type V = Seq<u8>;

    closed spec fn view(&self) -> Seq<u8> {
        self.tail@
    }
}

impl Default for SeqTracker {
    fn default() -> (r: Self)
        ensures
            r@ == Seq::<u8>::empty(),
    {
        let r = SeqTracker { tail: Vec::new() };
        assert(r.tail@ =~= Seq::<u8>::empty());
        r
    }
}

impl SeqTracker {
    /// A tracker at the start of the output.
    pub fn new() -> (r: SeqTracker)
        ensures
            r@ == Seq::<u8>::empty(),
    {
        SeqTracker::default()
    }

    /// Takes output, and tells whether it stops in the middle of something.
    pub fn feed(&mut self, data: &[u8]) -> (r: bool)
        ensures
            final(self)@ == unfinished(remembered(old(self)@ + data@)),
            r == (final(self)@.len() > 0),
    {
        let mut all = copy_bytes(&self.tail);
        push_bytes(&mut all, data);
        self.tail = Vec::new();
        let from: usize = if all.len() > MAX_TAIL {
            all.len() - MAX_TAIL
        } else {
            0
        };
        let buf = cut(&all, from, all.len());
        assert(buf@ =~= remembered(all@));
        let len: usize = buf.len();
        if let Some(i) = last_escape(&buf) {
            let s = cut(&buf, i, len);
            assert(s@ =~= buf@.skip(i as int));
            if !sequence_complete(&s) {
                self.tail = s;
                return true;
            }
        }
        let n = incomplete_utf8_tail(&buf);
        self.tail = cut(&buf, len - n, len);
        assert(self.tail@ =~= buf@.skip(len - n));
        n > 0
    }
}

proof fn lemma_last_byte(b: Seq<u8>, x: u8, i: int)
    requires
        0 <= i <= b.len(),
    ensures
        match last_byte(b, x, i) {
            Some(at) => 0 <= at < i && b[at] == x && (forall|j: int| at < j < i ==> b[j] != x),
            None => forall|j: int| 0 <= j < i ==> b[j] != x,
        },
    decreases i,
{
    if i > 0 && b[i - 1] != x {
        lemma_last_byte(b, x, i - 1);
    }
}

proof fn lemma_is_last_byte(b: Seq<u8>, x: u8, i: int, at: int)
    requires
        0 <= at < i <= b.len(),
        b[at] == x,
        forall|j: int| at < j < i ==> b[j] != x,
    ensures
        last_byte(b, x, i) == Some(at),
    decreases i,
{
    if at < i - 1 {
        lemma_is_last_byte(b, x, i - 1, at);
    }
}

proof fn lemma_no_last_byte(b: Seq<u8>, x: u8, i: int)
    requires
        0 <= i <= b.len(),
        forall|j: int| 0 <= j < i ==> b[j] != x,
    ensures
        last_byte(b, x, i) is None,
    decreases i,
{
    if i > 0 {
        lemma_no_last_byte(b, x, i - 1);
    }
}

/// A sequence that is there to its end stays so whatever follows.
proof fn lemma_complete_longer(a: Seq<u8>, b: Seq<u8>)
    requires
        complete(a),
    ensures
        complete(a + b),
{
    let ab = a + b;
    assert(ab[1] == a[1]);
    if a[1] == 0x5b {
        let i = choose|i: int| 2 <= i < a.len() && ends_csi(#[trigger] a[i]);
        assert(ends_csi(ab[i]));
    } else if a[1] == 0x5d || a[1] == 0x50 || a[1] == 0x58 || a[1] == 0x5e || a[1] == 0x5f {
        if exists|i: int| 2 <= i < a.len() && #[trigger] a[i] == 0x07 {
            let i = choose|i: int| 2 <= i < a.len() && #[trigger] a[i] == 0x07;
            assert(ab[i] == 0x07);
        } else {
            let i = choose|i: int|
                2 <= i < a.len() - 1 && #[trigger] a[i] == 0x1b && a[i + 1] == 0x5c;
            assert(ab[i] == 0x1b && ab[i + 1] == 0x5c);
        }
    }
}

/// Whether all bytes go on a character.
spec fn all_go_on(b: Seq<u8>) -> bool {
    forall|i: int| 0 <= i < b.len() ==> 0x80 <= #[trigger] b[i] < 0xc0
}

/// How much of a character is there after `m` more bytes.
spec fn grown(x: u8, n: int, m: int) -> int {
    if n + m <= 4 && lead_width(x) > n + m {
        n + m
    } else {
        0
    }
}

proof fn lemma_character_grows(a: Seq<u8>, b: Seq<u8>, k: int)
    requires
        1 <= k <= 5,
        all_go_on(b),
    ensures
        ({
            let n = cut_character(a, k);
            &&& n == 0 || k <= n <= 4 && n <= a.len() && a[a.len() - n] >= 0xc0
            &&& cut_character(a + b, b.len() + k) == if n == 0 {
                0
            } else {
                grown(a[a.len() - n], n, b.len() as int)
            }
        }),
    decreases 5 - k,
{
    let ab = a + b;
    if k > 4 || k > a.len() {
    } else {
        let x = a[a.len() - k];
        assert(ab[ab.len() - (b.len() + k)] == x);
        if 0x80 <= x < 0xc0 {
            lemma_character_grows(a, b, k + 1);
        }
    }
}

proof fn lemma_same_end(p: Seq<u8>, q: Seq<u8>, b: Seq<u8>, k: int)
    requires
        1 <= k <= b.len() + 1,
    ensures
        cut_character(p + b, k) == cut_character(q + b, k) || {
            &&& all_go_on(b.take(b.len() - k + 1))
            &&& cut_character(p + b, k) == cut_character(p + b, b.len() as int + 1)
            &&& cut_character(q + b, k) == cut_character(q + b, b.len() as int + 1)
        },
    decreases b.len() - k + 1,
{
    if k <= b.len() && k <= 4 {
        let x = b[b.len() - k];
        assert((p + b)[p.len() + b.len() - k] == x);
        assert((q + b)[q.len() + b.len() - k] == x);
        if 0x80 <= x < 0xc0 {
            lemma_same_end(p, q, b, k + 1);
            let less = b.take(b.len() - k);
            if all_go_on(less) {
                let more = b.take(b.len() - k + 1);
                assert forall|i: int| 0 <= i < more.len() implies 0x80 <= #[trigger] more[i]
                    < 0xc0 by {
                    if i < less.len() {
                        assert(less[i] == more[i]);
                    }
                }
            }
        }
    }
}

proof fn lemma_cut_is_enough(a: Seq<u8>, b: Seq<u8>)
    ensures
        ({
            let u = a.skip(a.len() - cut_character(a, 1));
            cut_character(a + b, 1) == cut_character(u + b, 1)
        }),
{
    let none: Seq<u8> = seq![];
    lemma_character_grows(a, none, 1);
    let n = cut_character(a, 1);
    let u = a.skip(a.len() - n);
    lemma_same_end(a, u, b, 1);
    assert(b.take(b.len() as int) =~= b);
    if all_go_on(b) {
        lemma_character_grows(a, b, 1);
        lemma_character_grows(u, b, 1);
        lemma_suffix_cut(a, n, 1);
    }
}

/// What is cut short shows in the bytes that are kept of it.
proof fn lemma_suffix_cut(a: Seq<u8>, n: int, k: int)
    requires
        n == cut_character(a, 1),
        0 <= n <= a.len(),
        1 <= k,
        k <= n || n == 0,
        n == cut_character(a, k),
    ensures
        n > 0 ==> cut_character(a.skip(a.len() - n), k) == n,
        n == 0 ==> cut_character(a.skip(a.len() - n), k) == 0,
    decreases n - k,
{
    let u = a.skip(a.len() - n);
    if n > 0 {
        assert(u[u.len() - k] == a[a.len() - k]);
        let none: Seq<u8> = seq![];
        lemma_character_grows(a, none, 1);
        lemma_character_grows(a, none, n + 1);
        if k < n {
            lemma_suffix_cut(a, n, k + 1);
        }
    }
}

/// An escape ends the search for a character that is cut short.
proof fn lemma_cut_stops(p: Seq<u8>, b: Seq<u8>, at: int, k: int)
    requires
        0 <= at < b.len(),
        b[at] == 0x1b,
        1 <= k <= b.len() - at,
    ensures
        cut_character(p + b, k) == cut_character(b, k),
    decreases b.len() - k,
{
    assert((p + b)[p.len() + b.len() - k] == b[b.len() - k]);
    if k < b.len() - at {
        lemma_cut_stops(p, b, at, k + 1);
    }
}

/// Bytes with an escape in them say themselves what is unfinished.
proof fn lemma_before_an_escape(p: Seq<u8>, b: Seq<u8>)
    requires
        exists|j: int| 0 <= j < b.len() && b[j] == 0x1b,
    ensures
        unfinished(p + b) == unfinished(b),
{
    let pb = p + b;
    lemma_last_byte(b, 0x1b, b.len() as int);
    let at = last_byte(b, 0x1b, b.len() as int)->0;
    assert(pb[p.len() + at] == 0x1b);
    assert forall|j: int| p.len() + at < j < pb.len() implies pb[j] != 0x1b by {
        assert(pb[j] == b[j - p.len()]);
    }
    lemma_is_last_byte(pb, 0x1b, pb.len() as int, p.len() + at);
    assert(pb.skip(p.len() + at) =~= b.skip(at));
    lemma_cut_stops(p, b, at, 1);
    let n = cut_character(b, 1);
    let none: Seq<u8> = seq![];
    lemma_character_grows(b, none, 1);
    assert(pb.skip(pb.len() - n) =~= b.skip(b.len() - n));
}

/// Where output is cut into readings does not matter: what is unfinished after two readings
/// is what is unfinished after one that holds both, as long as all of it is remembered.
pub proof fn law_output_may_be_cut_anywhere(a: Seq<u8>, b: Seq<u8>)
    requires
        a.len() + b.len() <= MAX_TAIL,
    ensures
        unfinished(remembered(unfinished(remembered(a)) + b)) == unfinished(remembered(a + b)),
{
    let u = unfinished(a);
    let ab = a + b;
    let none: Seq<u8> = seq![];
    lemma_character_grows(a, none, 1);
    lemma_last_byte(a, 0x1b, a.len() as int);
    assert(u.len() <= a.len());
    if exists|j: int| 0 <= j < b.len() && b[j] == 0x1b {
        lemma_before_an_escape(a, b);
        lemma_before_an_escape(u, b);
    } else {
        match last_byte(a, 0x1b, a.len() as int) {
            Some(i) if !complete(a.skip(i)) => {
                assert(ab =~= a.take(i) + (u + b));
                assert((u + b)[0] == 0x1b);
                lemma_before_an_escape(a.take(i), u + b);
            },
            _ => {
                lemma_cut_is_enough(a, b);
                let ub = u + b;
                let n = cut_character(a, 1);
                match last_byte(a, 0x1b, a.len() as int) {
                    Some(i) => {
                        assert forall|j: int| i < j < ab.len() implies ab[j] != 0x1b by {
                            if j >= a.len() {
                                assert(ab[j] == b[j - a.len()]);
                            }
                        }
                        lemma_is_last_byte(ab, 0x1b, ab.len() as int, i);
                        assert(ab.skip(i) =~= a.skip(i) + b);
                        lemma_complete_longer(a.skip(i), b);
                    },
                    None => {
                        lemma_no_last_byte(ab, 0x1b, ab.len() as int);
                    },
                }
                lemma_no_escape_kept(a, 1);
                assert forall|j: int| 0 <= j < ub.len() implies ub[j] != 0x1b by {
                    if j < u.len() {
                        assert(ub[j] == a[a.len() - n + j]);
                    } else {
                        assert(ub[j] == b[j - u.len()]);
                    }
                }
                lemma_no_last_byte(ub, 0x1b, ub.len() as int);
                let m = cut_character(ab, 1);
                lemma_character_grows(ab, none, 1);
                lemma_character_grows(ub, none, 1);
                assert(ab.skip(ab.len() - m) =~= ub.skip(ub.len() - m));
            },
        }
    }
}

/// A character that is cut short holds no escape.
proof fn lemma_no_escape_kept(a: Seq<u8>, k: int)
    requires
        1 <= k,
    ensures
        forall|j: int|
            a.len() - cut_character(a, k) <= j <= a.len() - k ==> #[trigger] a[j] >= 0x80,
    decreases 5 - k,
{
    if k <= 4 && k <= a.len() {
        let x = a[a.len() - k];
        if 0x80 <= x < 0xc0 {
            lemma_no_escape_kept(a, k + 1);
        }
    }
}

} // verus!
