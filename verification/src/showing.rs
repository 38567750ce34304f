//! What is shown of what is being typed.
use vstd::prelude::*;
use vstd::string::*;
use crate::config::{Layout, Marker};
use crate::display::{
    candidate_segs, label, list_segs, list_upto, phase_segs, preedit_of, reading_segs, reading_tail,
    reg_segs, repeated, seg, seg_if, Seg,
};
use crate::machine::{
    candidate_committed, current, fill_of, list_shown, opened, page_end, page_start, shown,
    shown_reading, Phase, State,
};
use crate::skk::Style;
use crate::text::decimal;
use crate::typing::law_kana_are_shaped_piece_by_piece;

verus! {

/// The texts of parts one after the other.
pub open spec fn whole_text(v: Seq<Seg>) -> Seq<char>
    decreases v.len(),
{
    if v.len() == 0 {
        seq![]
    } else {
        whole_text(v.drop_last()) + v.last().text
    }
}

proof fn lemma_whole_add(a: Seq<Seg>, b: Seq<Seg>)
    ensures
        whole_text(a + b) == whole_text(a) + whole_text(b),
    decreases b.len(),
{
    if b.len() == 0 {
        assert(a + b =~= a);
        assert(whole_text(a) + whole_text(b) =~= whole_text(a));
    } else {
        assert((a + b).drop_last() =~= a + b.drop_last());
        lemma_whole_add(a, b.drop_last());
        assert(whole_text(a + b) =~= whole_text(a) + whole_text(b));
    }
}

proof fn lemma_whole_seg(style: Style, t: Seq<char>)
    ensures
        whole_text(seg(style, t)) == t,
        whole_text(seg_if(style, t)) == t,
{
    let v = seg(style, t);
    assert(v.drop_last() =~= seq![]);
    assert(whole_text(v.drop_last()) =~= seq![]);
    assert(whole_text(v) =~= t);
    if t.len() == 0 {
        assert(t =~= seq![]);
    }
}

/// A reading may be shown piece by piece.
proof fn lemma_shown_add(s: State, a: Seq<char>, b: Seq<char>)
    ensures
        shown_reading(s, a + b) == shown_reading(s, a) + shown_reading(s, b),
{
    if !s.abbrev {
        law_kana_are_shaped_piece_by_piece(s.mode, a, b);
    }
}

/// A reading is shown whole behind its mark, with the letters that wait where the cursor is
/// and the okurigana behind it: no character of it is left out or shown twice.
pub proof fn law_a_reading_is_shown_whole(s: State)
    requires
        0 <= s.cursor <= s.reading.len(),
    ensures
        whole_text(reading_segs(s)) == "▽"@ + shown_reading(s, s.reading.take(s.cursor)) + (
        if s.cursor == s.reading.len() {
            reading_tail(s) + s.waiting
        } else {
            s.waiting + shown_reading(s, s.reading.skip(s.cursor)) + reading_tail(s)
        }),
        !s.sticky ==> reading_tail(s) == (if s.okuri_head is Some {
            "*"@ + s.okuri_kana
        } else {
            seq![]
        }),
{
    let before = s.reading.take(s.cursor);
    let after = s.reading.skip(s.cursor);
    let head = "▽"@ + shown_reading(s, before);
    let tail = reading_tail(s);
    if after.len() == 0 {
        lemma_at_end(head, tail, s.waiting);
    } else {
        let x = shown_reading(s, seq![after[0]]);
        let y = shown_reading(s, after.skip(1));
        assert(after =~= seq![after[0]] + after.skip(1));
        lemma_shown_add(s, seq![after[0]], after.skip(1));
        lemma_inside(head, s.waiting, x, y, tail);
    }
}

proof fn lemma_at_end(head: Seq<char>, tail: Seq<char>, w: Seq<char>)
    ensures
        whole_text(seg(Style::Reading, head + tail) + seg_if(Style::Romaji, w)) == head + (tail
            + w),
{
    let a = seg(Style::Reading, head + tail);
    let b = seg_if(Style::Romaji, w);
    lemma_whole_add(a, b);
    lemma_whole_seg(Style::Reading, head + tail);
    lemma_whole_seg(Style::Romaji, w);
    assert(head + tail + w =~= head + (tail + w));
}

proof fn lemma_inside(
    head: Seq<char>,
    w: Seq<char>,
    x: Seq<char>,
    y: Seq<char>,
    tail: Seq<char>,
)
    ensures
        whole_text(
            seg(Style::Reading, head) + seg_if(Style::Romaji, w) + seg(Style::ReadingCursor, x)
                + seg_if(Style::Reading, y + tail),
        ) == head + (w + (x + y) + tail),
{
    let a = seg(Style::Reading, head);
    let b = seg_if(Style::Romaji, w);
    let c = seg(Style::ReadingCursor, x);
    let d = seg_if(Style::Reading, y + tail);
    lemma_whole_add(a, b);
    lemma_whole_add(a + b, c);
    lemma_whole_add(a + b + c, d);
    lemma_whole_seg(Style::Reading, head);
    lemma_whole_seg(Style::Romaji, w);
    lemma_whole_seg(Style::ReadingCursor, x);
    lemma_whole_seg(Style::Reading, y + tail);
    assert(head + w + x + (y + tail) =~= head + (w + (x + y) + tail));
}

/// While nothing is registered or filled in, the reading stands first of what is shown at the
/// cursor, and so does the candidate in hand; the list of candidates follows it, or has a
/// line of its own, as the setup asks.
pub proof fn law_where_things_are_shown(s: State)
    requires
        s.filling is None,
        s.regs.len() == 0,
    ensures
        ({
            let p = preedit_of(s);
            &&& s.phase == Phase::Composing ==> reading_segs(s).is_prefix_of(p.at_cursor)
            &&& s.phase == Phase::Selecting ==> candidate_segs(s).is_prefix_of(p.at_cursor)
            &&& s.phase == Phase::Selecting && list_shown(s) && s.cfg.layout == Layout::Float
                ==> p.floating == list_segs(s)
            &&& s.phase == Phase::Selecting && list_shown(s) && s.cfg.layout == Layout::Inline
                && s.cfg.mode_marker != Marker::Letter ==> p.at_cursor == candidate_segs(s) + seg(
                Style::ListItem,
                " "@,
            ) + list_segs(s)
            &&& s.phase == Phase::Selecting && !list_shown(s) ==> p.floating.len() == 0
            &&& s.phase == Phase::Direct && !s.sticky && s.cfg.mode_marker != Marker::Letter
                ==> whole_text(p.at_cursor) == s.waiting
        }),
{
    let none: Seq<Seg> = seq![];
    let p = preedit_of(s);
    assert(reg_segs(s) =~= none);
    assert(none + phase_segs(s) =~= phase_segs(s));
    match s.phase {
        Phase::Direct => {
            lemma_whole_seg(Style::Romaji, s.waiting);
            assert(p.at_cursor =~= seg_if(Style::Romaji, s.waiting) || s.cfg.mode_marker
                == Marker::Letter || s.sticky);
        },
        Phase::Composing => {
            let r = reading_segs(s);
            assert(r =~= p.at_cursor.subrange(0, r.len() as int));
        },
        Phase::Selecting => {
            let r = candidate_segs(s);
            assert(r =~= p.at_cursor.subrange(0, r.len() as int));
            if list_shown(s) && s.cfg.layout == Layout::Inline && s.cfg.mode_marker
                != Marker::Letter {
                assert(p.at_cursor =~= r + seg(Style::ListItem, " "@) + list_segs(s));
            }
        },
    }
}

/// What is shown of a candidate is what is handed out when it is confirmed, behind its mark.
/// Only a snippet with places to fill in hands out nothing yet.
pub proof fn law_what_is_seen_is_what_comes(s: State)
    requires
        current(s) is Some,
        !(crate::dict::from_snippet(s.dict, (current(s)->0).key, (current(s)->0).cand.text)
            && fill_of(opened(s, current(s)->0)) is Some),
    ensures
        candidate_segs(s).len() > 0,
        candidate_segs(s)[0].text == "▼"@ + candidate_committed(s).1,
{
    reveal(candidate_committed);
    let c = current(s)->0;
    let v = candidate_segs(s);
    assert(v[0].text == "▼"@ + shown(s, c) + s.okuri_kana + s.auto_suffix);
    assert(v[0].text =~= "▼"@ + (shown(s, c) + (s.okuri_kana + s.auto_suffix)));
}

proof fn lemma_list_has(s: State, i: int, j: int)
    requires
        page_start(s) <= j < i,
    ensures
        exists|k: int|
            0 <= k < list_upto(s, i).len() && (#[trigger] list_upto(s, i)[k]).text == seq![
                s.cfg.select[j - page_start(s)],
            ] + ":"@ + shown(s, s.candidates[j]) && list_upto(s, i)[k].style == (if j
                == s.cand_index {
                Style::ListSelected
            } else {
                Style::ListItem
            }),
    decreases i - page_start(s),
{
    let all = list_upto(s, i);
    let had = list_upto(s, i - 1);
    if j < i - 1 {
        lemma_list_has(s, i - 1, j);
        let k = choose|k: int|
            0 <= k < had.len() && (#[trigger] had[k]).text == seq![
                s.cfg.select[j - page_start(s)],
            ] + ":"@ + shown(s, s.candidates[j]) && had[k].style == (if j == s.cand_index {
                Style::ListSelected
            } else {
                Style::ListItem
            });
        assert(all[k] == had[k]);
    } else {
        let k = had.len() as int;
        assert(all[k].text == seq![s.cfg.select[j - page_start(s)]] + ":"@ + shown(
            s,
            s.candidates[j],
        ));
    }
}

/// On a page of the list every candidate of the page stands behind the key that chooses it,
/// the one in hand in another look; and as many as come after the page are counted.
pub proof fn law_the_list_shows_its_page(s: State, j: int)
    requires
        page_start(s) <= j < page_end(s),
    ensures
        exists|k: int|
            0 <= k < list_segs(s).len() && (#[trigger] list_segs(s)[k]).text == seq![
                s.cfg.select[j - page_start(s)],
            ] + ":"@ + shown(s, s.candidates[j]) && list_segs(s)[k].style == (if j
                == s.cand_index {
                Style::ListSelected
            } else {
                Style::ListItem
            }),
        page_end(s) < s.candidates.len() ==> list_segs(s).last().text == "  [残り "@ + decimal(
            (s.candidates.len() - page_end(s)) as nat,
        ) + "]"@,
{
    let all = list_segs(s);
    let had = list_upto(s, page_end(s));
    lemma_list_has(s, page_end(s), j);
    let k = choose|k: int|
        0 <= k < had.len() && (#[trigger] had[k]).text == seq![s.cfg.select[j - page_start(s)]]
            + ":"@ + shown(s, s.candidates[j]) && had[k].style == (if j == s.cand_index {
            Style::ListSelected
        } else {
            Style::ListItem
        });
    assert(all[k] == had[k]);
}

/// A word that is registered is shown with as many brackets as registrations are open, its
/// reading and its okurigana, and then what has been typed of it.
pub proof fn law_a_registration_is_shown(s: State)
    requires
        s.regs.len() > 0,
    ensures
        ({
            let r = s.regs.last();
            whole_text(reg_segs(s)) == Seq::new(s.regs.len(), |i: int| '[') + "登録:"@ + r.reading + (
            if r.okuri_head is Some {
                "*"@ + r.okuri_kana
            } else {
                seq![]
            }) + Seq::new(s.regs.len(), |i: int| ']') + r.buffer
        }),
{
    let r = s.regs.last();
    let n = s.regs.len();
    let t = repeated('[', n) + "登録:"@ + label(r) + repeated(']', n);
    lemma_whole_seg(Style::ListItem, t);
    lemma_whole_seg(Style::Reading, r.buffer);
    lemma_whole_add(seg(Style::ListItem, t), seg_if(Style::Reading, r.buffer));
    assert(whole_text(reg_segs(s)) == t + r.buffer);
    let more = if r.okuri_head is Some {
        "*"@ + r.okuri_kana
    } else {
        seq![]
    };
    assert(label(r) =~= r.reading + more);
    let a = Seq::new(n, |i: int| '[');
    let b = Seq::new(n, |i: int| ']');
    assert(a =~= repeated('[', n));
    assert(b =~= repeated(']', n));
    assert(t + r.buffer =~= a + "登録:"@ + r.reading + more + b + r.buffer);
}

} // verus!
