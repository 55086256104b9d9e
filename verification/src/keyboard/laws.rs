//! What the keys do to the line, key by key.

use crate::keyboard::{
    blank, key_char, ActionView, Keyboard, SCANCODE_BACKSPACE, SCANCODE_DOWN,
    SCANCODE_EXTENDED_PREFIX, SCANCODE_LEFT, SCANCODE_LSHIFT, SCANCODE_RIGHT, SCANCODE_RSHIFT,
    SCANCODE_UP,
};
use vstd::prelude::*;

verus! {

/// A key behind the prefix goes down.
pub open spec fn arrow_pressed(k: Keyboard, code: u8) -> Keyboard {
    k.step(SCANCODE_EXTENDED_PREFIX).0.step(code).0
}

/// A key behind the prefix goes down and up.
pub open spec fn arrow_hit(k: Keyboard, code: u8) -> Keyboard {
    arrow_pressed(arrow_pressed(k, code), (code + 0x80) as u8)
}

/// A key goes down and up.
pub open spec fn hit(k: Keyboard, code: u8) -> Keyboard {
    k.step(code).0.step((code + 0x80) as u8).0
}

/// A code that comes when a key goes down that is not one of the two Shift keys.
pub open spec fn plain_press(code: u8) -> bool {
    code < 0x80 && code != SCANCODE_LSHIFT && code != SCANCODE_RSHIFT
}

/// Left, if it was not down already, takes the cursor one to the left, unless it is in front of
/// the line already, and changes nothing else of what is typed.
pub proof fn left_moves_one(k: Keyboard)
    requires
        k.wf(),
        k.last != SCANCODE_LEFT,
    ensures
        ({
            let to = arrow_pressed(k, SCANCODE_LEFT);
            &&& to.cursor == (if k.cursor > 0 {
                k.cursor - 1
            } else {
                0
            })
            &&& to.line == k.line
            &&& to.history == k.history
            &&& to.browsing == k.browsing
            &&& to.shift() == k.shift()
        }),
{
}

/// Right, if it was not down already, takes the cursor one to the right, unless it is behind the
/// line already, and changes nothing else of what is typed.
pub proof fn right_moves_one(k: Keyboard)
    requires
        k.wf(),
        k.last != SCANCODE_RIGHT,
    ensures
        ({
            let to = arrow_pressed(k, SCANCODE_RIGHT);
            &&& to.cursor == (if k.cursor < k.line.len() {
                k.cursor + 1
            } else {
                k.cursor
            })
            &&& to.line == k.line
            &&& to.history == k.history
            &&& to.browsing == k.browsing
            &&& to.shift() == k.shift()
        }),
{
}

/// Left and then Right give back the line and the cursor, unless the cursor was in front of the
/// line; Right and then Left do, unless it was behind the line.
pub proof fn left_and_right_undo_each_other(k: Keyboard)
    requires
        k.wf(),
        k.last != SCANCODE_LEFT,
        k.last != SCANCODE_RIGHT,
    ensures
        ({
            let there = arrow_hit(arrow_hit(k, SCANCODE_LEFT), SCANCODE_RIGHT);
            k.cursor > 0 ==> there.cursor == k.cursor && there.line == k.line && there.history
                == k.history && there.browsing == k.browsing
        }),
        ({
            let there = arrow_hit(arrow_hit(k, SCANCODE_RIGHT), SCANCODE_LEFT);
            k.cursor < k.line.len() ==> there.cursor == k.cursor && there.line == k.line
                && there.history == k.history && there.browsing == k.browsing
        }),
{
}

/// Left so many times.
pub open spec fn lefts(k: Keyboard, n: nat) -> Keyboard
    decreases n,
{
    if n == 0 {
        k
    } else {
        arrow_hit(lefts(k, (n - 1) as nat), SCANCODE_LEFT)
    }
}

/// Left so many times takes the cursor so far to the left, but not beyond the line.
pub proof fn lefts_add_up(k: Keyboard, n: nat)
    requires
        k.wf(),
        k.last != SCANCODE_LEFT,
    ensures
        lefts(k, n).cursor == (if n <= k.cursor {
            k.cursor - n
        } else {
            0
        }),
        lefts(k, n).line == k.line,
        lefts(k, n).last != SCANCODE_LEFT,
        lefts(k, n).wf(),
    decreases n,
{
    if n > 0 {
        lefts_add_up(k, (n - 1) as nat);
    }
}

/// A key with a character, if it was not down already, puts the character in at the cursor,
/// with what was behind the cursor behind it. What is shown is then no line of the history any
/// more.
pub proof fn keys_type_at_cursor(k: Keyboard, code: u8, c: char)
    requires
        k.wf(),
        plain_press(code),
        code != k.last,
        code != SCANCODE_BACKSPACE,
        !k.extended,
        key_char(code, k.shift()) == Some(c),
        c != '\n',
    ensures
        ({
            let to = k.step(code).0;
            &&& to.line == k.line.take(k.cursor) + seq![c] + k.line.skip(k.cursor)
            &&& to.cursor == k.cursor + 1
            &&& to.history == k.history
            &&& to.browsing is None
            &&& to.shift() == k.shift()
        }),
{
    assert(k.line.insert(k.cursor, c) =~= k.line.take(k.cursor) + seq![c] + k.line.skip(k.cursor));
}

/// Some keys hit one after the other.
pub open spec fn hits(k: Keyboard, codes: Seq<u8>) -> Keyboard
    decreases codes.len(),
{
    if codes.len() == 0 {
        k
    } else {
        hit(hits(k, codes.drop_last()), codes.last())
    }
}

/// The keys of a text are the keys of its characters.
pub open spec fn spells(codes: Seq<u8>, text: Seq<char>, shift: bool) -> bool {
    &&& codes.len() == text.len()
    &&& forall|i: int|
        0 <= i < codes.len() ==> plain_press(#[trigger] codes[i]) && codes[i] != SCANCODE_BACKSPACE
            && text[i] != '\n' && key_char(codes[i], shift) == Some(text[i])
}

/// The keys of a text, hit one after the other, put the text in at the cursor, the same key twice
/// in a row also.
pub proof fn text_is_typed(k: Keyboard, codes: Seq<u8>, text: Seq<char>)
    requires
        k.wf(),
        !k.extended,
        k.last >= 0x80 || k.last == 0,
        spells(codes, text, k.shift()),
    ensures
        ({
            let to = hits(k, codes);
            &&& to.wf()
            &&& !to.extended
            &&& to.last >= 0x80 || to.last == 0
            &&& to.line == k.line.take(k.cursor) + text + k.line.skip(k.cursor)
            &&& to.cursor == k.cursor + text.len()
            &&& to.history == k.history
            &&& to.shift() == k.shift()
        }),
    decreases codes.len(),
{
    if codes.len() == 0 {
        assert(k.line =~= k.line.take(k.cursor) + text + k.line.skip(k.cursor));
    } else {
        let front = codes.drop_last();
        let before = text.drop_last();
        assert forall|i: int| 0 <= i < front.len() implies plain_press(#[trigger] front[i])
            && front[i] != SCANCODE_BACKSPACE && before[i] != '\n' && key_char(
            front[i],
            k.shift(),
        ) == Some(before[i]) by {
            assert(front[i] == codes[i]);
        }
        text_is_typed(k, front, before);
        let mid = hits(k, front);
        let code = codes.last();
        let c = text.last();
        assert(codes[codes.len() - 1] == code);
        assert(code != 0) by {
            assert(key_char(0, k.shift()) is None);
        }
        keys_type_at_cursor(mid, code, c);
        crate::keyboard::step_keeps_wf(mid, code);
        crate::keyboard::step_keeps_wf(mid.step(code).0, (code + 0x80) as u8);
        let to = hits(k, codes);
        assert(code + 0x80 != SCANCODE_EXTENDED_PREFIX) by {
            assert(key_char(0x60, k.shift()) is None);
        }
        assert(to.line =~= k.line.take(k.cursor) + text + k.line.skip(k.cursor));
    }
}

/// Backspace, if it was not down already, takes out the character in front of the cursor, and
/// that one only.
pub proof fn backspace_takes_one(k: Keyboard)
    requires
        k.wf(),
        k.last != SCANCODE_BACKSPACE,
        !k.extended,
    ensures
        ({
            let to = k.step(SCANCODE_BACKSPACE).0;
            &&& k.cursor > 0 ==> to.line == k.line.take(k.cursor - 1) + k.line.skip(k.cursor)
                && to.cursor == k.cursor - 1
            &&& k.cursor == 0 ==> to.line == k.line && to.cursor == 0
            &&& to.history == k.history
            &&& to.browsing is None
        }),
{
    if k.cursor > 0 {
        assert(k.line.remove(k.cursor - 1) =~= k.line.take(k.cursor - 1) + k.line.skip(k.cursor));
    }
}

/// A key that types and Backspace after it leave the line and the cursor as they were.
pub proof fn backspace_takes_back(k: Keyboard, code: u8, c: char)
    requires
        k.wf(),
        plain_press(code),
        code != k.last,
        code != SCANCODE_BACKSPACE,
        !k.extended,
        key_char(code, k.shift()) == Some(c),
        c != '\n',
    ensures
        k.step(code).0.step(SCANCODE_BACKSPACE).0.line == k.line,
        k.step(code).0.step(SCANCODE_BACKSPACE).0.cursor == k.cursor,
{
    assert(k.line.insert(k.cursor, c).remove(k.cursor) =~= k.line);
}

/// Enter hands over the whole line, wherever the cursor is, and starts a fresh one. The line is
/// then the last one of the history, if there is anything but spaces in it.
pub proof fn enter_submits_the_line(k: Keyboard)
    requires
        k.wf(),
        k.last != 0x1C,
        !k.extended,
    ensures
        ({
            let (to, action) = k.step(0x1C);
            &&& action == ActionView::Submit(k.line)
            &&& to.line.len() == 0
            &&& to.cursor == 0
            &&& to.browsing is None
            &&& (exists|i: int| 0 <= i < k.line.len() && #[trigger] k.line[i] != ' ')
                ==> to.history == k.history.push(k.line)
            &&& (forall|i: int| 0 <= i < k.line.len() ==> #[trigger] k.line[i] == ' ')
                ==> to.history == k.history
        }),
{
    assert(key_char(0x1C, k.shift()) == Some('\n'));
}

/// Up, if it was not down already, goes from a fresh line to the last one of the history, and from
/// any other to the one before it; at the first one it stays. The cursor is behind the line.
pub proof fn up_goes_back(k: Keyboard)
    requires
        k.wf(),
        k.last != SCANCODE_UP,
    ensures
        ({
            let to = arrow_pressed(k, SCANCODE_UP);
            let n = k.history.len() as int;
            &&& to.history == k.history
            &&& k.browsing is None && n > 0 ==> to.browsing == Some(n - 1) && to.line
                == k.history[n - 1] && to.cursor == to.line.len()
            &&& k.browsing matches Some(i) ==> if i > 0 {
                to.browsing == Some(i - 1) && to.line == k.history[i - 1] && to.cursor
                    == to.line.len()
            } else {
                to.browsing == k.browsing && to.line == k.line && to.cursor == k.cursor
            }
            &&& n == 0 ==> to.line == k.line && to.cursor == k.cursor && to.browsing == k.browsing
        }),
{
}

/// Down, if it was not down already, goes from a line of the history to the one after it, and from
/// the last one to a fresh line; on a fresh line it does nothing. The cursor is behind the line.
pub proof fn down_goes_forth(k: Keyboard)
    requires
        k.wf(),
        k.last != SCANCODE_DOWN,
    ensures
        ({
            let to = arrow_pressed(k, SCANCODE_DOWN);
            let n = k.history.len() as int;
            &&& to.history == k.history
            &&& k.browsing is None ==> to.browsing is None && to.line == k.line && to.cursor
                == k.cursor
            &&& k.browsing matches Some(i) ==> if i + 1 < n {
                to.browsing == Some(i + 1) && to.line == k.history[i + 1] && to.cursor
                    == to.line.len()
            } else {
                to.browsing is None && to.line.len() == 0 && to.cursor == 0
            }
        }),
{
}

/// A line that was entered comes back with Up, with the cursor behind it.
pub proof fn entered_line_comes_back(k: Keyboard)
    requires
        k.wf(),
        k.last != 0x1C,
        !k.extended,
        !blank(k.line),
    ensures
        ({
            let to = arrow_pressed(hit(k, 0x1C), SCANCODE_UP);
            to.line == k.line && to.cursor == k.line.len()
        }),
{
    assert(key_char(0x1C, k.shift()) == Some('\n'));
}

/// Behind the prefix no key but the arrows does anything to the line, and the prefix counts for
/// one code only.
pub proof fn prefix_is_for_arrows(k: Keyboard, code: u8)
    requires
        code != SCANCODE_EXTENDED_PREFIX,
    ensures
        !arrow_pressed(k, code).extended,
        code != SCANCODE_UP && code != SCANCODE_DOWN && code != SCANCODE_LEFT && code
            != SCANCODE_RIGHT ==> ({
            let to = arrow_pressed(k, code);
            to.line == k.line && to.cursor == k.cursor && to.history == k.history && to.browsing
                == k.browsing
        }),
{
}

/// Without the prefix the codes of the arrows do nothing.
pub proof fn arrows_need_prefix(k: Keyboard, code: u8)
    requires
        !k.extended,
        code == SCANCODE_UP || code == SCANCODE_DOWN || code == SCANCODE_LEFT || code
            == SCANCODE_RIGHT,
    ensures
        k.step(code).0.line == k.line,
        k.step(code).0.cursor == k.cursor,
        k.step(code).0.browsing == k.browsing,
        k.step(code).1 == ActionView::Nothing,
{
}

/// Shift holds while either of its keys is down: it begins when one goes down and ends when the
/// last one goes up.
pub proof fn shift_holds_while_down(k: Keyboard)
    ensures
        k.step(SCANCODE_LSHIFT).0.shift(),
        k.step(SCANCODE_RSHIFT).0.shift(),
        k.step(SCANCODE_LSHIFT).0.step((SCANCODE_LSHIFT + 0x80) as u8).0.shift() == k.right_shift,
        k.step(SCANCODE_RSHIFT).0.step((SCANCODE_RSHIFT + 0x80) as u8).0.shift() == k.left_shift,
        k.step(SCANCODE_LSHIFT).0.line == k.line,
        k.step(SCANCODE_RSHIFT).0.line == k.line,
{
}

/// The rows of keys, from left to right, and the space bar.
pub proof fn keys_are_in_rows(i: int)
    ensures
        0 <= i < 11 ==> key_char((0x02 + i) as u8, false) == Some("1234567890-"@[i]),
        0 <= i < 10 ==> key_char((0x10 + i) as u8, false) == Some("qwertyuiop"@[i]),
        0 <= i < 9 ==> key_char((0x1E + i) as u8, false) == Some("asdfghjkl"@[i]),
        0 <= i < 10 ==> key_char((0x2C + i) as u8, false) == Some("zxcvbnm,./"@[i]),
        key_char(0x29, false) == Some('`'),
        key_char(0x39, false) == Some(' '),
        key_char(0x1C, false) == Some('\n'),
{
    reveal_strlit("1234567890-");
    reveal_strlit("qwertyuiop");
    reveal_strlit("asdfghjkl");
    reveal_strlit("zxcvbnm,./");
}

/// With Shift a key types the capital letter, and with five others another character; all other
/// keys type what they type without it.
pub proof fn shift_makes_capitals(code: u8, c: char)
    requires
        key_char(code, false) == Some(c),
    ensures
        'a' <= c <= 'z' ==> (key_char(code, true) matches Some(d) && d as int == c as int - 32
            && 'A' <= d <= 'Z'),
        c == '-' ==> key_char(code, true) == Some('_'),
        c == '`' ==> key_char(code, true) == Some('~'),
        c == ',' ==> key_char(code, true) == Some('<'),
        c == '.' ==> key_char(code, true) == Some('>'),
        c == '/' ==> key_char(code, true) == Some('?'),
        '0' <= c <= '9' || c == ' ' || c == '\n' ==> key_char(code, true) == Some(c),
{
}

/// The keys that type nothing have the codes that keyboards send.
pub proof fn keys_have_their_codes()
    ensures
        SCANCODE_EXTENDED_PREFIX == 0xE0,
        SCANCODE_UP == 0x48,
        SCANCODE_DOWN == 0x50,
        SCANCODE_LEFT == 0x4B,
        SCANCODE_RIGHT == 0x4D,
        SCANCODE_BACKSPACE == 0x0E,
        SCANCODE_LSHIFT == 0x2A,
        SCANCODE_RSHIFT == 0x36,
{
}

} // verus!
