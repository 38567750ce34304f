//! How characters look on the screen, and the sequences that say so.
use vstd::prelude::*;
use vstd::string::*;
use crate::text::{decimal, number_text};

verus! {

/// A colour.
#[derive(Clone, Copy, PartialEq, Eq, Debug, Structural)]
pub enum Color {
    /// The one that the terminal uses by itself.
    Default,
    Indexed(u8),
    Rgb(u8, u8, u8),
}

impl Default for Color {
    fn default() -> (r: Self)
        ensures
            r == Color::Default,
    {
        Color::Default
    }
}

pub const BOLD: u8 = 0x01;

pub const DIM: u8 = 0x02;

pub const ITALIC: u8 = 0x04;

pub const UNDERLINE: u8 = 0x08;

pub const BLINK: u8 = 0x10;

pub const REVERSE: u8 = 0x20;

pub const HIDDEN: u8 = 0x40;

pub const STRIKE: u8 = 0x80;

/// How a character looks.
#[derive(Clone, Copy, PartialEq, Eq, Debug, Structural)]
pub struct Attr {
    pub fg: Color,
    pub bg: Color,
    pub flags: u8,
}

/// How a character looks of which nothing is said.
pub open spec fn plain() -> Attr {
    Attr { fg: Color::Default, bg: Color::Default, flags: 0 }
}

impl Default for Attr {
    fn default() -> (r: Self)
        ensures
            r == plain(),
    {
        Attr { fg: Color::Default, bg: Color::Default, flags: 0 }
    }
}

/// The arguments that set a colour; `base` is 30 for the characters and 40 for what is
/// behind them.
pub open spec fn color_args(c: Color, base: nat) -> Seq<nat> {
    match c {
        Color::Default => seq![],
        Color::Indexed(i) => if i < 8 {
            seq![base + i as nat]
        } else if i < 16 {
            seq![(base + 60 + i - 8) as nat]
        } else {
            seq![base + 8, 5nat, i as nat]
        },
        Color::Rgb(r, g, b) => seq![base + 8, 2nat, r as nat, g as nat, b as nat],
    }
}

/// The argument that sets a flag, if the flag is set.
pub open spec fn flag_arg(flags: u8, flag: u8, code: nat) -> Seq<nat> {
    if flags & flag != 0 {
        seq![code]
    } else {
        seq![]
    }
}

/// The arguments that set the flags.
pub open spec fn flag_args(flags: u8) -> Seq<nat> {
    flag_arg(flags, BOLD, 1) + flag_arg(flags, DIM, 2) + flag_arg(flags, ITALIC, 3) + flag_arg(
        flags,
        UNDERLINE,
        4,
    ) + flag_arg(flags, BLINK, 5) + flag_arg(flags, REVERSE, 7) + flag_arg(flags, HIDDEN, 8)
        + flag_arg(flags, STRIKE, 9)
}

/// The arguments of the sequence that sets a look, whatever was set before: the first takes
/// everything back.
pub open spec fn sgr_args(a: Attr) -> Seq<nat> {
    seq![0nat] + flag_args(a.flags) + color_args(a.fg, 30) + color_args(a.bg, 40)
}

/// Arguments as they are written after another.
pub open spec fn args_text(args: Seq<nat>) -> Seq<char>
    decreases args.len(),
{
    if args.len() == 0 {
        seq![]
    } else {
        args_text(args.drop_last()) + seq![';'] + decimal(args.last())
    }
}

/// The sequence that sets a look.
pub open spec fn sgr_text(a: Attr) -> Seq<char> {
    "\x1b[0"@ + args_text(sgr_args(a).skip(1)) + "m"@
}

/// The sequence that moves the cursor to a row and a column, counted from nought.
pub open spec fn move_text(row: int, col: int) -> Seq<char> {
    "\x1b["@ + decimal((row + 1) as nat) + seq![';'] + decimal((col + 1) as nat) + seq!['H']
}

proof fn lemma_args_push(args: Seq<nat>, n: nat)
    ensures
        args_text(args.push(n)) == args_text(args) + seq![';'] + decimal(n),
{
    assert(args.push(n).drop_last() =~= args);
}

/// Writes one more argument.
fn push_arg(s: &mut String, n: u64, Ghost(args): Ghost<Seq<nat>>)
    requires
        old(s)@ == "\x1b[0"@ + args_text(args),
    ensures
        final(s)@ == "\x1b[0"@ + args_text(args.push(n as nat)),
{
    proof {
        lemma_args_push(args, n as nat);
    }
    let text = number_text(n);
    s.push(';');
    s.append(text.as_str());
    assert(s@ =~= "\x1b[0"@ + args_text(args.push(n as nat)));
}

/// Writes the argument of a flag that is set.
fn push_flag(s: &mut String, flags: u8, flag: u8, code: u64, Ghost(args): Ghost<Seq<nat>>)
    requires
        old(s)@ == "\x1b[0"@ + args_text(args),
    ensures
        final(s)@ == "\x1b[0"@ + args_text(args + flag_arg(flags, flag, code as nat)),
{
    if flags & flag != 0 {
        push_arg(s, code, Ghost(args));
        assert(args + flag_arg(flags, flag, code as nat) =~= args.push(code as nat));
    } else {
        assert(args + flag_arg(flags, flag, code as nat) =~= args);
    }
}

/// Writes the arguments of a colour.
fn push_color(s: &mut String, c: Color, base: u64, Ghost(args): Ghost<Seq<nat>>)
    requires
        old(s)@ == "\x1b[0"@ + args_text(args),
        base == 30 || base == 40,
    ensures
        final(s)@ == "\x1b[0"@ + args_text(args + color_args(c, base as nat)),
{
    let ghost all = args + color_args(c, base as nat);
    match c {
        Color::Default => {
            assert(all =~= args);
        },
        Color::Indexed(i) => {
            if i < 8 {
                push_arg(s, base + i as u64, Ghost(args));
                assert(all =~= args.push((base + i) as nat));
            } else if i < 16 {
                push_arg(s, base + 60 + i as u64 - 8, Ghost(args));
                assert(all =~= args.push((base + 60 + i - 8) as nat));
            } else {
                push_arg(s, base + 8, Ghost(args));
                push_arg(s, 5, Ghost(args.push((base + 8) as nat)));
                push_arg(s, i as u64, Ghost(args.push((base + 8) as nat).push(5)));
                assert(all =~= args.push((base + 8) as nat).push(5).push(i as nat));
            }
        },
        Color::Rgb(r, g, b) => {
            push_arg(s, base + 8, Ghost(args));
            let ghost a1 = args.push((base + 8) as nat);
            push_arg(s, 2, Ghost(a1));
            let ghost a2 = a1.push(2);
            push_arg(s, r as u64, Ghost(a2));
            let ghost a3 = a2.push(r as nat);
            push_arg(s, g as u64, Ghost(a3));
            let ghost a4 = a3.push(g as nat);
            push_arg(s, b as u64, Ghost(a4));
            assert(all =~= a4.push(b as nat));
        },
    }
}

impl Attr {
    /// The sequence that sets this look, whatever was set before.
    pub fn sgr(&self) -> (r: String)
        ensures
            r@ == sgr_text(*self),
    {
        let mut s = "\x1b[0".to_owned();
        let f = self.flags;
        let ghost a0: Seq<nat> = seq![];
        assert(s@ =~= "\x1b[0"@ + args_text(a0));
        push_flag(&mut s, f, BOLD, 1, Ghost(a0));
        let ghost a1 = a0 + flag_arg(f, BOLD, 1);
        push_flag(&mut s, f, DIM, 2, Ghost(a1));
        let ghost a2 = a1 + flag_arg(f, DIM, 2);
        push_flag(&mut s, f, ITALIC, 3, Ghost(a2));
        let ghost a3 = a2 + flag_arg(f, ITALIC, 3);
        push_flag(&mut s, f, UNDERLINE, 4, Ghost(a3));
        let ghost a4 = a3 + flag_arg(f, UNDERLINE, 4);
        push_flag(&mut s, f, BLINK, 5, Ghost(a4));
        let ghost a5 = a4 + flag_arg(f, BLINK, 5);
        push_flag(&mut s, f, REVERSE, 7, Ghost(a5));
        let ghost a6 = a5 + flag_arg(f, REVERSE, 7);
        push_flag(&mut s, f, HIDDEN, 8, Ghost(a6));
        let ghost a7 = a6 + flag_arg(f, HIDDEN, 8);
        push_flag(&mut s, f, STRIKE, 9, Ghost(a7));
        let ghost a8 = a7 + flag_arg(f, STRIKE, 9);
        assert(a8 =~= flag_args(f));
        push_color(&mut s, self.fg, 30, Ghost(a8));
        push_color(&mut s, self.bg, 40, Ghost(a8 + color_args(self.fg, 30)));
        s.push('m');
        proof {
            let args = a8 + color_args(self.fg, 30) + color_args(self.bg, 40);
            assert(sgr_args(*self).skip(1) =~= args);
            reveal_strlit("m");
            assert("m"@ =~= seq!['m']);
            assert(s@ =~= sgr_text(*self));
        }
        s
    }
}

/// The sequence that moves the cursor to a row and a column, counted from nought.
pub fn move_to(row: usize, col: usize) -> (r: String)
    requires
        row < usize::MAX,
        col < usize::MAX,
    ensures
        r@ == move_text(row as int, col as int),
{
    let mut s = "\x1b[".to_owned();
    let row_text = number_text((row + 1) as u64);
    let col_text = number_text((col + 1) as u64);
    s.append(row_text.as_str());
    s.push(';');
    s.append(col_text.as_str());
    s.push('H');
    assert(s@ =~= move_text(row as int, col as int));
    s
}

/// The colour that numbers after a 38 or a 48 give. Where they are parts of one argument, there
/// may be the number of a colour space in between.
pub open spec fn extended_color(v: Seq<u16>) -> Option<Color> {
    if v.len() >= 2 && v[0] == 5 {
        Some(Color::Indexed(v[1] as u8))
    } else if v.len() >= 1 && v[0] == 2 {
        let base: int = if v.len() >= 5 {
            2
        } else {
            1
        };
        if base + 2 < v.len() {
            Some(Color::Rgb(v[base] as u8, v[base + 1] as u8, v[base + 2] as u8))
        } else {
            None
        }
    } else {
        None
    }
}

/// The first numbers of the arguments from `i` on.
pub open spec fn first_numbers(items: Seq<Seq<u16>>, i: int) -> Seq<u16>
    decreases items.len() - i,
{
    if i >= items.len() {
        seq![]
    } else if items[i].len() > 0 {
        seq![items[i][0]] + first_numbers(items, i + 1)
    } else {
        first_numbers(items, i + 1)
    }
}

/// The look with a colour set.
pub open spec fn colored(pen: Attr, back: bool, c: Option<Color>) -> Attr {
    match c {
        Some(c) => if back {
            Attr { bg: c, ..pen }
        } else {
            Attr { fg: c, ..pen }
        },
        None => pen,
    }
}

/// The look after one argument that needs no other.
pub open spec fn sgr_one(pen: Attr, p: u16) -> Attr {
    if p == 0 {
        plain()
    } else if p == 1 {
        Attr { flags: pen.flags | BOLD, ..pen }
    } else if p == 2 {
        Attr { flags: pen.flags | DIM, ..pen }
    } else if p == 3 {
        Attr { flags: pen.flags | ITALIC, ..pen }
    } else if p == 4 {
        Attr { flags: pen.flags | UNDERLINE, ..pen }
    } else if p == 5 {
        Attr { flags: pen.flags | BLINK, ..pen }
    } else if p == 7 {
        Attr { flags: pen.flags | REVERSE, ..pen }
    } else if p == 8 {
        Attr { flags: pen.flags | HIDDEN, ..pen }
    } else if p == 9 {
        Attr { flags: pen.flags | STRIKE, ..pen }
    } else if p == 21 || p == 22 {
        Attr { flags: pen.flags & !(BOLD | DIM), ..pen }
    } else if p == 23 {
        Attr { flags: pen.flags & !ITALIC, ..pen }
    } else if p == 24 {
        Attr { flags: pen.flags & !UNDERLINE, ..pen }
    } else if p == 25 {
        Attr { flags: pen.flags & !BLINK, ..pen }
    } else if p == 27 {
        Attr { flags: pen.flags & !REVERSE, ..pen }
    } else if p == 28 {
        Attr { flags: pen.flags & !HIDDEN, ..pen }
    } else if p == 29 {
        Attr { flags: pen.flags & !STRIKE, ..pen }
    } else if 30 <= p <= 37 {
        Attr { fg: Color::Indexed((p - 30) as u8), ..pen }
    } else if p == 39 {
        Attr { fg: Color::Default, ..pen }
    } else if 40 <= p <= 47 {
        Attr { bg: Color::Indexed((p - 40) as u8), ..pen }
    } else if p == 49 {
        Attr { bg: Color::Default, ..pen }
    } else if 90 <= p <= 97 {
        Attr { fg: Color::Indexed((p - 82) as u8), ..pen }
    } else if 100 <= p <= 107 {
        Attr { bg: Color::Indexed((p - 92) as u8), ..pen }
    } else {
        pen
    }
}

/// The first number of an argument; one that is left out is nought.
pub open spec fn first_number(item: Seq<u16>) -> u16 {
    if item.len() > 0 {
        item[0]
    } else {
        0
    }
}

/// How many arguments a colour takes after the 38 or the 48, where they are not parts of
/// one argument.
pub open spec fn color_takes(rest: Seq<u16>) -> int {
    if rest.len() > 0 && rest[0] == 5 {
        2
    } else if rest.len() > 0 && rest[0] == 2 {
        4
    } else {
        0
    }
}

/// The numbers that a colour can take after the 38 or the 48, where they are not parts of one
/// argument: at most four.
pub open spec fn color_numbers(items: Seq<Seq<u16>>, i: int) -> Seq<u16> {
    let rest = first_numbers(items, i);
    if rest.len() > 4 {
        rest.take(4)
    } else {
        rest
    }
}

/// The look after the arguments from `i` on.
pub open spec fn sgr_from(pen: Attr, items: Seq<Seq<u16>>, i: int) -> Attr
    decreases
            (if i < items.len() {
                items.len() - i
            } else {
                0
            }),
{
    if i < 0 || i >= items.len() {
        pen
    } else {
        let p = first_number(items[i]);
        if p == 38 || p == 48 {
            if items[i].len() > 1 {
                let c = extended_color(items[i].skip(1));
                sgr_from(colored(pen, p == 48, c), items, i + 1)
            } else {
                let rest = color_numbers(items, i + 1);
                let c = extended_color(rest);
                sgr_from(colored(pen, p == 48, c), items, i + 1 + color_takes(rest))
            }
        } else {
            sgr_from(sgr_one(pen, p), items, i + 1)
        }
    }
}

/// The look after all arguments; none at all takes everything back.
pub open spec fn sgr_applied(pen: Attr, items: Seq<Seq<u16>>) -> Attr {
    if items.len() == 0 {
        plain()
    } else {
        sgr_from(pen, items, 0)
    }
}

/// What arguments hold.
pub open spec fn param_numbers(v: Seq<Vec<u16>>) -> Seq<Seq<u16>> {
    v.map_values(|p: Vec<u16>| p@)
}

/// The colour that arguments after a 38 or a 48 give.
fn parse_ext_color(v: &Vec<u16>, from: usize) -> (r: Option<Color>)
    requires
        from <= v@.len(),
    ensures
        r == extended_color(v@.skip(from as int)),
{
    let ghost rest = v@.skip(from as int);
    let n: usize = v.len() - from;
    if n >= 2 && v[from] == 5 {
        assert(rest[0] == 5 && rest[1] == v@[from + 1]);
        #[verifier::truncate]
        let i = v[from + 1] as u8;
        Some(Color::Indexed(i))
    } else if n >= 1 && v[from] == 2 {
        assert(rest[0] == 2);
        let base: usize = if n >= 5 {
            2
        } else {
            1
        };
        if base + 2 < n {
            assert(rest[base as int] == v@[from + base]);
            assert(rest[base + 1] == v@[from + base + 1]);
            assert(rest[base + 2] == v@[from + base + 2]);
            #[verifier::truncate]
            let r = v[from + base] as u8;
            #[verifier::truncate]
            let g = v[from + base + 1] as u8;
            #[verifier::truncate]
            let b = v[from + base + 2] as u8;
            Some(Color::Rgb(r, g, b))
        } else {
            None
        }
    } else {
        proof {
            if rest.len() > 0 {
                assert(rest[0] == v@[from as int]);
            }
        }
        None
    }
}

proof fn lemma_first_numbers_end(items: Seq<Seq<u16>>, i: int, v: Seq<u16>, from: int)
    requires
        0 <= from <= i < items.len(),
        first_numbers(items, from) == v + first_numbers(items, i),
    ensures
        first_numbers(items, from) == if items[i].len() > 0 {
            v.push(items[i][0]) + first_numbers(items, i + 1)
        } else {
            v + first_numbers(items, i + 1)
        },
{
    if items[i].len() > 0 {
        let rest = first_numbers(items, i + 1);
        assert(v + (seq![items[i][0]] + rest) =~= v.push(items[i][0]) + rest);
    }
}

/// The first numbers of the arguments from `from` on.
fn numbers_from(items: &Vec<Vec<u16>>, from: usize) -> (r: Vec<u16>)
    requires
        from <= items@.len(),
    ensures
        r@ == first_numbers(param_numbers(items@), from as int),
{
    let ghost all = param_numbers(items@);
    let mut out: Vec<u16> = Vec::new();
    let mut i: usize = from;
    assert(out@ + first_numbers(all, from as int) =~= first_numbers(all, from as int));
    while i < items.len()
        invariant
            from <= i <= items@.len(),
            all == param_numbers(items@),
            first_numbers(all, from as int) == out@ + first_numbers(all, i as int),
        decreases items.len() - i,
    {
        proof {
            assert(all[i as int] == items@[i as int]@);
            lemma_first_numbers_end(all, i as int, out@, from as int);
        }
        if items[i].len() > 0 {
            out.push(items[i][0]);
        }
        i = i + 1;
    }
    assert(out@ + first_numbers(all, i as int) =~= out@);
    out
}

/// The look after one argument that needs no other.
fn set_one(pen: Attr, p: u16) -> (r: Attr)
    ensures
        r == sgr_one(pen, p),
{
    if p == 0 {
        Attr::default()
    } else if p == 1 {
        Attr { flags: pen.flags | BOLD, ..pen }
    } else if p == 2 {
        Attr { flags: pen.flags | DIM, ..pen }
    } else if p == 3 {
        Attr { flags: pen.flags | ITALIC, ..pen }
    } else if p == 4 {
        Attr { flags: pen.flags | UNDERLINE, ..pen }
    } else if p == 5 {
        Attr { flags: pen.flags | BLINK, ..pen }
    } else if p == 7 {
        Attr { flags: pen.flags | REVERSE, ..pen }
    } else if p == 8 {
        Attr { flags: pen.flags | HIDDEN, ..pen }
    } else if p == 9 {
        Attr { flags: pen.flags | STRIKE, ..pen }
    } else if p == 21 || p == 22 {
        Attr { flags: pen.flags & !(BOLD | DIM), ..pen }
    } else if p == 23 {
        Attr { flags: pen.flags & !ITALIC, ..pen }
    } else if p == 24 {
        Attr { flags: pen.flags & !UNDERLINE, ..pen }
    } else if p == 25 {
        Attr { flags: pen.flags & !BLINK, ..pen }
    } else if p == 27 {
        Attr { flags: pen.flags & !REVERSE, ..pen }
    } else if p == 28 {
        Attr { flags: pen.flags & !HIDDEN, ..pen }
    } else if p == 29 {
        Attr { flags: pen.flags & !STRIKE, ..pen }
    } else if 30 <= p && p <= 37 {
        Attr { fg: Color::Indexed((p - 30) as u8), ..pen }
    } else if p == 39 {
        Attr { fg: Color::Default, ..pen }
    } else if 40 <= p && p <= 47 {
        Attr { bg: Color::Indexed((p - 40) as u8), ..pen }
    } else if p == 49 {
        Attr { bg: Color::Default, ..pen }
    } else if 90 <= p && p <= 97 {
        Attr { fg: Color::Indexed((p - 82) as u8), ..pen }
    } else if 100 <= p && p <= 107 {
        Attr { bg: Color::Indexed((p - 92) as u8), ..pen }
    } else {
        pen
    }
}

/// Sets the look by the arguments of a sequence.
pub fn set_sgr(pen: Attr, items: &Vec<Vec<u16>>) -> (r: Attr)
    ensures
        r == sgr_applied(pen, param_numbers(items@)),
{
    if items.len() == 0 {
        return Attr::default();
    }
    let ghost all = param_numbers(items@);
    let mut now = pen;
    let mut i: usize = 0;
    while i < items.len()
        invariant
            i <= items@.len(),
            all == param_numbers(items@),
            sgr_from(pen, all, 0) == sgr_from(now, all, i as int),
        decreases items.len() - i,
    {
        assert(all[i as int] == items@[i as int]@);
        let ghost was = now;
        let ghost at = i as int;
        let p: u16 = if items[i].len() > 0 {
            items[i][0]
        } else {
            0
        };
        if p == 38 || p == 48 {
            let mut taken: usize = 0;
            let color = if items[i].len() > 1 {
                parse_ext_color(&items[i], 1)
            } else {
                let mut rest = numbers_from(items, i + 1);
                if rest.len() > 4 {
                    rest.truncate(4);
                    assert(rest@ =~= color_numbers(all, at + 1));
                }
                if rest.len() > 0 && rest[0] == 5 {
                    taken = 2;
                } else if rest.len() > 0 && rest[0] == 2 {
                    taken = 4;
                }
                assert(rest@.skip(0) =~= rest@);
                parse_ext_color(&rest, 0)
            };
            if let Some(c) = color {
                if p == 48 {
                    now = Attr { bg: c, ..now };
                } else {
                    now = Attr { fg: c, ..now };
                }
            }
            assert(now == colored(was, p == 48, color));
            i = if taken < items.len() - i {
                i + taken + 1
            } else {
                items.len()
            };
            assert(sgr_from(was, all, at) == sgr_from(now, all, at + 1 + taken));
            assert(sgr_from(now, all, at + 1 + taken) == sgr_from(now, all, i as int));
        } else {
            now = set_one(now, p);
            i = i + 1;
        }
    }
    now
}

/// Arguments as a terminal takes them: one number each.
pub open spec fn as_params(args: Seq<nat>) -> Seq<Seq<u16>> {
    args.map_values(|n: nat| seq![n as u16])
}

proof fn lemma_numbers_of(args: Seq<nat>, i: int)
    requires
        0 <= i <= args.len(),
    ensures
        first_numbers(as_params(args), i).len() == args.len() - i,
        forall|k: int|
            0 <= k < args.len() - i ==> #[trigger] first_numbers(as_params(args), i)[k] == args[i
                + k] as u16,
    decreases args.len() - i,
{
    if i < args.len() {
        lemma_numbers_of(args, i + 1);
        let all = as_params(args);
        let rest = first_numbers(all, i + 1);
        assert(all[i] == seq![args[i] as u16]);
        assert forall|k: int| 0 <= k < args.len() - i implies #[trigger] first_numbers(all, i)[k]
            == args[i + k] as u16 by {
            if k > 0 {
                assert(rest[k - 1] == args[i + 1 + (k - 1)] as u16);
            }
        }
    }
}

proof fn lemma_one_step(args: Seq<nat>, i: int, pen: Attr)
    requires
        0 <= i < args.len(),
        args[i] != 38 && args[i] != 48,
        args[i] <= u16::MAX,
    ensures
        sgr_from(pen, as_params(args), i) == sgr_from(
            sgr_one(pen, args[i] as u16),
            as_params(args),
            i + 1,
        ),
{
    assert(as_params(args)[i] == seq![args[i] as u16]);
}

/// A flag that is set adds its bit, and one argument.
proof fn lemma_flag_step(args: Seq<nat>, i: int, pen: Attr, flags: u8, flag: u8, code: nat)
    requires
        0 <= i,
        i + flag_arg(flags, flag, code).len() <= args.len(),
        args.subrange(i, i + flag_arg(flags, flag, code).len()) == flag_arg(flags, flag, code),
        code < 10,
        sgr_one(pen, code as u16) == (Attr { flags: pen.flags | flag, ..pen }),
        pen.flags & flag == 0,
        flag == 1 || flag == 2 || flag == 4 || flag == 8 || flag == 16 || flag == 32 || flag == 64
            || flag == 128,
    ensures
        sgr_from(pen, as_params(args), i) == sgr_from(
            Attr { flags: pen.flags | (flags & flag), ..pen },
            as_params(args),
            i + flag_arg(flags, flag, code).len(),
        ),
{
    let f = pen.flags;
    if flags & flag != 0 {
        assert(args.subrange(i, i + 1)[0] == args[i]);
        lemma_one_step(args, i, pen);
        assert(flags & flag == flag) by (bit_vector)
            requires
                flags & flag != 0,
                flag == 1 || flag == 2 || flag == 4 || flag == 8 || flag == 16 || flag == 32
                    || flag == 64 || flag == 128,
        ;
    } else {
        assert(f | 0 == f) by (bit_vector);
    }
}

/// A piece of arguments, from its place among them.
proof fn lemma_piece(args: Seq<nat>, i: int, before: Seq<nat>, piece: Seq<nat>, later: Seq<nat>)
    requires
        0 <= i,
        i + (before + piece + later).len() <= args.len(),
        args.subrange(i, i + (before + piece + later).len()) == before + piece + later,
    ensures
        args.subrange(i + before.len(), i + before.len() + piece.len()) == piece,
{
    let all = before + piece + later;
    let part = args.subrange(i, i + all.len());
    assert(args.subrange(i + before.len(), i + before.len() + piece.len()) =~= part.subrange(
        before.len() as int,
        (before.len() + piece.len()) as int,
    ));
    assert(all.subrange(before.len() as int, (before.len() + piece.len()) as int) =~= piece);
}

spec fn low_args(flags: u8) -> Seq<nat> {
    flag_arg(flags, BOLD, 1) + flag_arg(flags, DIM, 2) + flag_arg(flags, ITALIC, 3) + flag_arg(
        flags,
        UNDERLINE,
        4,
    )
}

spec fn high_args(flags: u8) -> Seq<nat> {
    flag_arg(flags, BLINK, 5) + flag_arg(flags, REVERSE, 7) + flag_arg(flags, HIDDEN, 8) + flag_arg(
        flags,
        STRIKE,
        9,
    )
}

proof fn lemma_low_flags(args: Seq<nat>, i: int, flags: u8)
    requires
        0 <= i,
        i + low_args(flags).len() <= args.len(),
        args.subrange(i, i + low_args(flags).len()) == low_args(flags),
    ensures
        sgr_from(plain(), as_params(args), i) == sgr_from(
            Attr { flags: flags & 15, ..plain() },
            as_params(args),
            i + low_args(flags).len(),
        ),
{
    let x1 = flag_arg(flags, BOLD, 1);
    let x2 = flag_arg(flags, DIM, 2);
    let x3 = flag_arg(flags, ITALIC, 3);
    let x4 = flag_arg(flags, UNDERLINE, 4);
    let none: Seq<nat> = seq![];
    let all = low_args(flags);
    assert(all =~= none + x1 + (x2 + x3 + x4));
    lemma_piece(args, i, none, x1, x2 + x3 + x4);
    assert(all =~= x1 + x2 + (x3 + x4));
    lemma_piece(args, i, x1, x2, x3 + x4);
    assert(all =~= (x1 + x2) + x3 + x4);
    lemma_piece(args, i, x1 + x2, x3, x4);
    assert(all =~= (x1 + x2 + x3) + x4 + none);
    lemma_piece(args, i, x1 + x2 + x3, x4, none);
    let f0 = 0u8;
    let f1 = f0 | (flags & 1);
    let f2 = f1 | (flags & 2);
    let f3 = f2 | (flags & 4);
    let f4 = f3 | (flags & 8);
    assert(f0 & 1 == 0 && f1 & 2 == 0 && f2 & 4 == 0 && f3 & 8 == 0 && f4 == flags & 15)
        by (bit_vector)
        requires
            f0 == 0,
            f1 == f0 | (flags & 1),
            f2 == f1 | (flags & 2),
            f3 == f2 | (flags & 4),
            f4 == f3 | (flags & 8),
    ;
    let p = plain();
    lemma_flag_step(args, i, Attr { flags: f0, ..p }, flags, BOLD, 1);
    let i2 = i + x1.len();
    lemma_flag_step(args, i2, Attr { flags: f1, ..p }, flags, DIM, 2);
    let i3 = i2 + x2.len();
    lemma_flag_step(args, i3, Attr { flags: f2, ..p }, flags, ITALIC, 3);
    let i4 = i3 + x3.len();
    lemma_flag_step(args, i4, Attr { flags: f3, ..p }, flags, UNDERLINE, 4);
}

proof fn lemma_high_flags(args: Seq<nat>, i: int, flags: u8)
    requires
        0 <= i,
        i + high_args(flags).len() <= args.len(),
        args.subrange(i, i + high_args(flags).len()) == high_args(flags),
    ensures
        sgr_from(Attr { flags: flags & 15, ..plain() }, as_params(args), i) == sgr_from(
            Attr { flags, ..plain() },
            as_params(args),
            i + high_args(flags).len(),
        ),
{
    let x1 = flag_arg(flags, BLINK, 5);
    let x2 = flag_arg(flags, REVERSE, 7);
    let x3 = flag_arg(flags, HIDDEN, 8);
    let x4 = flag_arg(flags, STRIKE, 9);
    let none: Seq<nat> = seq![];
    let all = high_args(flags);
    assert(all =~= none + x1 + (x2 + x3 + x4));
    lemma_piece(args, i, none, x1, x2 + x3 + x4);
    assert(all =~= x1 + x2 + (x3 + x4));
    lemma_piece(args, i, x1, x2, x3 + x4);
    assert(all =~= (x1 + x2) + x3 + x4);
    lemma_piece(args, i, x1 + x2, x3, x4);
    assert(all =~= (x1 + x2 + x3) + x4 + none);
    lemma_piece(args, i, x1 + x2 + x3, x4, none);
    let f0 = flags & 15;
    let f1 = f0 | (flags & 16);
    let f2 = f1 | (flags & 32);
    let f3 = f2 | (flags & 64);
    let f4 = f3 | (flags & 128);
    assert(f0 & 16 == 0 && f1 & 32 == 0 && f2 & 64 == 0 && f3 & 128 == 0 && f4 == flags)
        by (bit_vector)
        requires
            f0 == flags & 15,
            f1 == f0 | (flags & 16),
            f2 == f1 | (flags & 32),
            f3 == f2 | (flags & 64),
            f4 == f3 | (flags & 128),
    ;
    let p = plain();
    lemma_flag_step(args, i, Attr { flags: f0, ..p }, flags, BLINK, 5);
    let i2 = i + x1.len();
    lemma_flag_step(args, i2, Attr { flags: f1, ..p }, flags, REVERSE, 7);
    let i3 = i2 + x2.len();
    lemma_flag_step(args, i3, Attr { flags: f2, ..p }, flags, HIDDEN, 8);
    let i4 = i3 + x3.len();
    lemma_flag_step(args, i4, Attr { flags: f3, ..p }, flags, STRIKE, 9);
}

proof fn lemma_flags_come_back(args: Seq<nat>, flags: u8, pen: Attr)
    requires
        args.len() >= 1 + flag_args(flags).len(),
        args[0] == 0,
        args.subrange(1, 1 + flag_args(flags).len() as int) == flag_args(flags),
    ensures
        sgr_from(pen, as_params(args), 0) == sgr_from(
            Attr { flags, ..plain() },
            as_params(args),
            1 + flag_args(flags).len() as int,
        ),
{
    let low = low_args(flags);
    let high = high_args(flags);
    let none: Seq<nat> = seq![];
    assert(flag_args(flags) =~= none + low + high);
    lemma_piece(args, 1, none, low, high);
    assert(flag_args(flags) =~= low + high + none);
    lemma_piece(args, 1, low, high, none);
    lemma_one_step(args, 0, pen);
    lemma_low_flags(args, 1, flags);
    lemma_high_flags(args, 1 + low.len() as int, flags);
}

/// A colour is read back, whatever follows it.
proof fn lemma_color_step(args: Seq<nat>, i: int, pen: Attr, c: Color, back: bool)
    requires
        0 <= i,
        ({
            let base: nat = if back {
                40
            } else {
                30
            };
            let mine = color_args(c, base);
            &&& i + mine.len() <= args.len()
            &&& args.subrange(i, i + mine.len()) == mine
        }),
        if back {
            pen.bg is Default
        } else {
            pen.fg is Default
        },
    ensures
        sgr_from(pen, as_params(args), i) == sgr_from(
            if back {
                Attr { bg: c, ..pen }
            } else {
                Attr { fg: c, ..pen }
            },
            as_params(args),
            i + color_args(
                c,
                if back {
                    40
                } else {
                    30
                },
            ).len(),
        ),
{
    let base: nat = if back {
        40
    } else {
        30
    };
    let mine = color_args(c, base);
    let all = as_params(args);
    assert forall|k: int| 0 <= k < mine.len() implies args[i + k] == mine[k] by {
        assert(args.subrange(i, i + mine.len())[k] == args[i + k]);
    }
    match c {
        Color::Default => {},
        Color::Indexed(n) => {
            assert(args[i + 0] == mine[0]);
            if n < 16 {
                lemma_one_step(args, i, pen);
            } else {
                assert(args[i + 1] == mine[1]);
                assert(args[i + 2] == mine[2]);
                assert(all[i] == seq![args[i] as u16]);
                lemma_numbers_of(args, i + 1);
                let rest = color_numbers(all, i + 1);
                assert(rest[0] == args[i + 1 + 0] as u16);
                assert(rest[1] == args[i + 1 + 1] as u16);
                assert(extended_color(rest) == Some(c));
            }
        },
        Color::Rgb(r, g, b) => {
            assert(args[i + 0] == mine[0]);
            assert(args[i + 1] == mine[1]);
            assert(args[i + 2] == mine[2]);
            assert(args[i + 3] == mine[3]);
            assert(args[i + 4] == mine[4]);
            assert(all[i] == seq![args[i] as u16]);
            lemma_numbers_of(args, i + 1);
            let rest = color_numbers(all, i + 1);
            assert(rest[0] == args[i + 1 + 0] as u16);
            assert(rest[1] == args[i + 1 + 1] as u16);
            assert(rest[2] == args[i + 1 + 2] as u16);
            assert(rest[3] == args[i + 1 + 3] as u16);
            assert(rest.len() == 4);
            assert(extended_color(rest) == Some(c));
        },
    }
}

/// The sequence that sets a look sets that look, whatever was set before.
pub proof fn law_a_look_comes_back(a: Attr, pen: Attr)
    ensures
        sgr_applied(pen, as_params(sgr_args(a))) == a,
{
    let args = sgr_args(a);
    let all = as_params(args);
    let n = flag_args(a.flags).len() as int;
    let fg = color_args(a.fg, 30);
    let bg = color_args(a.bg, 40);
    assert(args.subrange(1, 1 + n) =~= flag_args(a.flags));
    lemma_flags_come_back(args, a.flags, pen);
    assert(sgr_applied(pen, all) == sgr_from(pen, all, 0));
    let p1 = Attr { fg: Color::Default, bg: Color::Default, flags: a.flags };
    assert(args.subrange(1 + n, 1 + n + fg.len()) =~= fg);
    lemma_color_step(args, 1 + n, p1, a.fg, false);
    let p2 = Attr { fg: a.fg, ..p1 };
    let i = 1 + n + fg.len();
    assert(args.subrange(i, i + bg.len()) =~= bg);
    lemma_color_step(args, i, p2, a.bg, true);
    assert(i + bg.len() == args.len());
}

} // verus!
