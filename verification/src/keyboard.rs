//! The keyboard: scancodes become an edited command line with history.
//!
//! A scancode changes the driver's state and may call for something on the screen.
//! What to draw is handed back as a list of steps, so that the state alone decides.

use crate::text::text_of;
use vstd::prelude::*;

pub mod laws;

verus! {

/// The code of the Backspace key.
pub const SCANCODE_BACKSPACE: u8 = 0x0E;

/// Comes before the code of some keys, the arrows among them.
pub const SCANCODE_EXTENDED_PREFIX: u8 = 0xE0;

pub const SCANCODE_UP: u8 = 0x48;

pub const SCANCODE_DOWN: u8 = 0x50;

pub const SCANCODE_LEFT: u8 = 0x4B;

pub const SCANCODE_RIGHT: u8 = 0x4D;

pub const SCANCODE_LSHIFT: u8 = 0x2A;

pub const SCANCODE_RSHIFT: u8 = 0x36;

/// The codes that come when a Shift key is let go: the key's own with the top bit set.
pub const SCANCODE_LSHIFT_BREAK: u8 = 0xAA;

pub const SCANCODE_RSHIFT_BREAK: u8 = 0xB6;

/// A step on the screen.
#[derive(Debug, Clone, Copy, PartialEq, Eq, Structural)]
pub enum ScreenStep {
    /// The cursor goes one cell to the left.
    Left,
    /// The cursor goes one cell to the right.
    Right,
    /// The cursor goes one cell to the left, and the cell is blanked.
    Erase,
    /// The character is written to the cell, and the cursor goes to the right.
    Print(char),
}

/// What a scancode calls for.
#[derive(Debug)]
pub enum KeyAction {
    Nothing,
    /// The steps are done on the screen.
    Draw(Vec<ScreenStep>),
    /// The line is handed to the shell.
    Submit(String),
}

/// `KeyAction` over sequences.
pub enum ActionView {
    Nothing,
    Draw(Seq<ScreenStep>),
    Submit(Seq<char>),
}

impl View for KeyAction {
    type V = ActionView;

    open spec fn view(&self) -> ActionView {
        match self {
            KeyAction::Nothing => ActionView::Nothing,
            KeyAction::Draw(steps) => ActionView::Draw(steps@),
            KeyAction::Submit(line) => ActionView::Submit(line@),
        }
    }
}

/// The state of the keyboard and of the line that is being typed.
pub struct KeyboardDriver {
    last_scancode: u8,
    pending_extended: bool,
    left_shift_held: bool,
    right_shift_held: bool,
    line_buffer: Vec<char>,
    cursor_pos: usize,
    history: Vec<Vec<char>>,
    history_index: Option<usize>,
}

/// `KeyboardDriver` over sequences.
#[verifier::ext_equal]
pub struct Keyboard {
    /// The last code that was not the prefix.
    pub last: u8,
    /// The prefix came just now.
    pub extended: bool,
    /// The left Shift key is held down.
    pub left_shift: bool,
    /// The right Shift key is held down.
    pub right_shift: bool,
    pub line: Seq<char>,
    /// Where in the line the next character goes.
    pub cursor: int,
    /// The lines that were entered, the oldest first.
    pub history: Seq<Seq<char>>,
    /// The line of the history that is shown; none if the line is a fresh one.
    pub browsing: Option<int>,
}

/// A character that can stand in a line.
pub open spec fn typed(c: char) -> bool {
    ' ' <= c <= '~'
}

pub open spec fn all_typed(line: Seq<char>) -> bool {
    forall|i: int| 0 <= i < line.len() ==> typed(#[trigger] line[i])
}

/// A line without anything but spaces.
pub open spec fn blank(line: Seq<char>) -> bool {
    forall|i: int| 0 <= i < line.len() ==> #[trigger] line[i] == ' '
}

impl Keyboard {
    /// The cursor is in the line, no line of the history is blank, and what is shown of the
    /// history is there and is what the line holds.
    pub open spec fn wf(self) -> bool {
        &&& 0 <= self.cursor <= self.line.len()
        &&& all_typed(self.line)
        &&& forall|i: int|
            0 <= i < self.history.len() ==> all_typed(#[trigger] self.history[i]) && !blank(
                self.history[i],
            )
        &&& self.browsing matches Some(i) ==> 0 <= i < self.history.len() && self.line
            == self.history[i]
    }

    /// Shift counts as long as one of the two keys is held down.
    pub open spec fn shift(self) -> bool {
        self.left_shift || self.right_shift
    }

    /// The line is replaced, with the cursor behind it.
    pub open spec fn showing(self, line: Seq<char>, browsing: Option<int>) -> Keyboard {
        Keyboard { line, cursor: line.len() as int, browsing, ..self }
    }

    /// There is an older line to go to.
    pub open spec fn has_older(self) -> bool {
        self.history.len() > 0 && self.browsing != Some(0int)
    }

    /// The line before the one that is shown, or the last one.
    pub open spec fn older(self) -> Keyboard {
        if self.has_older() {
            let i = match self.browsing {
                None => self.history.len() - 1,
                Some(i) => i - 1,
            };
            self.showing(self.history[i], Some(i))
        } else {
            self
        }
    }

    /// The line after the one that is shown, or a fresh line after the last one.
    pub open spec fn newer(self) -> Keyboard {
        match self.browsing {
            None => self,
            Some(i) => if i < self.history.len() - 1 {
                self.showing(self.history[i + 1], Some(i + 1))
            } else {
                self.showing(Seq::empty(), None)
            },
        }
    }

    /// A character is put in at the cursor.
    pub open spec fn inserted(self, c: char) -> Keyboard {
        Keyboard {
            line: self.line.insert(self.cursor, c),
            cursor: self.cursor + 1,
            browsing: None,
            ..self
        }
    }

    /// The character before the cursor, if there is one, is taken out.
    pub open spec fn backspaced(self) -> Keyboard {
        if self.cursor == 0 {
            Keyboard { browsing: None, ..self }
        } else {
            Keyboard {
                line: self.line.remove(self.cursor - 1),
                cursor: self.cursor - 1,
                browsing: None,
                ..self
            }
        }
    }

    /// The line is entered: a fresh one begins, and the history has one more, unless the
    /// line was blank.
    pub open spec fn entered(self) -> Keyboard {
        Keyboard {
            line: Seq::empty(),
            cursor: 0,
            browsing: None,
            history: if blank(self.line) {
                self.history
            } else {
                self.history.push(self.line)
            },
            ..self
        }
    }

    /// The steps that bring a screen that shows this line to show the other one.
    pub open spec fn redraw(self, to: Keyboard) -> ActionView {
        ActionView::Draw(
            redraw_steps(self.line.len() as int, self.cursor, to.line, to.cursor),
        )
    }

    /// What a key behind the prefix does.
    pub open spec fn arrow(self, scancode: u8) -> (Keyboard, ActionView) {
        if scancode == SCANCODE_UP && self.has_older() {
            (self.older(), self.redraw(self.older()))
        } else if scancode == SCANCODE_DOWN && self.browsing is Some {
            (self.newer(), self.redraw(self.newer()))
        } else if scancode == SCANCODE_LEFT && self.cursor > 0 {
            (
                Keyboard { cursor: self.cursor - 1, ..self },
                ActionView::Draw(seq![ScreenStep::Left]),
            )
        } else if scancode == SCANCODE_RIGHT && self.cursor < self.line.len() {
            (
                Keyboard { cursor: self.cursor + 1, ..self },
                ActionView::Draw(seq![ScreenStep::Right]),
            )
        } else {
            (self, ActionView::Nothing)
        }
    }

    /// What a key does that was not held down before.
    pub open spec fn key(self, scancode: u8) -> (Keyboard, ActionView) {
        if scancode == SCANCODE_BACKSPACE {
            (
                self.backspaced(),
                if self.cursor == 0 {
                    ActionView::Nothing
                } else {
                    self.redraw(self.backspaced())
                },
            )
        } else {
            match key_char(scancode, self.shift()) {
                None => (self, ActionView::Nothing),
                Some(c) => if c == '\n' {
                    (self.entered(), ActionView::Submit(self.line))
                } else {
                    (self.inserted(c), self.redraw(self.inserted(c)))
                },
            }
        }
    }

    /// What a scancode does. The prefix is remembered for the next code; the two
    /// Shift keys are followed down and up, each for itself; of every other key only the moment counts when it goes
    /// down.
    pub open spec fn step(self, scancode: u8) -> (Keyboard, ActionView) {
        let after = Keyboard { last: scancode, extended: false, ..self };
        if scancode == SCANCODE_EXTENDED_PREFIX {
            (Keyboard { extended: true, ..self }, ActionView::Nothing)
        } else if scancode == SCANCODE_LSHIFT {
            (Keyboard { left_shift: true, ..after }, ActionView::Nothing)
        } else if scancode == SCANCODE_RSHIFT {
            (Keyboard { right_shift: true, ..after }, ActionView::Nothing)
        } else if scancode == SCANCODE_LSHIFT_BREAK {
            (Keyboard { left_shift: false, ..after }, ActionView::Nothing)
        } else if scancode == SCANCODE_RSHIFT_BREAK {
            (Keyboard { right_shift: false, ..after }, ActionView::Nothing)
        } else if scancode == self.last || scancode >= 0x80 {
            (after, ActionView::Nothing)
        } else if self.extended {
            after.arrow(scancode)
        } else {
            after.key(scancode)
        }
    }
}

/// The same step so many times.
pub open spec fn repeated(step: ScreenStep, n: int) -> Seq<ScreenStep> {
    Seq::new(n as nat, |i: int| step)
}

/// Character `i` of a line, printed.
pub open spec fn print_at(line: Seq<char>, i: int) -> ScreenStep {
    ScreenStep::Print(line[i])
}

/// The characters of a line, each printed.
pub open spec fn printed(line: Seq<char>) -> Seq<ScreenStep> {
    Seq::new(line.len(), |i: int| print_at(line, i))
}

/// To the end of the old line, back over all of it, the new line, and back to the new
/// cursor.
pub open spec fn redraw_steps(
    old_len: int,
    old_cursor: int,
    line: Seq<char>,
    cursor: int,
) -> Seq<ScreenStep> {
    repeated(ScreenStep::Right, old_len - old_cursor) + repeated(ScreenStep::Erase, old_len)
        + printed(line) + repeated(ScreenStep::Left, line.len() - cursor)
}

/// The character on a key without Shift.
pub open spec fn plain_char(scancode: u8) -> Option<char> {
    let s = scancode as int;
    if 0x02 <= s <= 0x0C {
        Some(seq!['1', '2', '3', '4', '5', '6', '7', '8', '9', '0', '-'][s - 0x02])
    } else if 0x10 <= s <= 0x19 {
        Some(seq!['q', 'w', 'e', 'r', 't', 'y', 'u', 'i', 'o', 'p'][s - 0x10])
    } else if 0x1E <= s <= 0x26 {
        Some(seq!['a', 's', 'd', 'f', 'g', 'h', 'j', 'k', 'l'][s - 0x1E])
    } else if 0x2C <= s <= 0x35 {
        Some(seq!['z', 'x', 'c', 'v', 'b', 'n', 'm', ',', '.', '/'][s - 0x2C])
    } else if s == 0x29 {
        Some('`')
    } else if s == 0x39 {
        Some(' ')
    } else if s == 0x1C {
        Some('\n')
    } else {
        None
    }
}

/// What Shift makes of a character.
pub open spec fn shifted(c: char) -> char {
    if 'a' <= c <= 'z' {
        (c as int - 32) as char
    } else if c == '-' {
        '_'
    } else if c == '`' {
        '~'
    } else if c == ',' {
        '<'
    } else if c == '.' {
        '>'
    } else if c == '/' {
        '?'
    } else {
        c
    }
}

/// The character that a key types.
pub open spec fn key_char(scancode: u8, shift: bool) -> Option<char> {
    match plain_char(scancode) {
        Some(c) => Some(
            if shift {
                shifted(c)
            } else {
                c
            },
        ),
        None => None,
    }
}

fn with_shift(c: char, shift: bool) -> (r: char)
    ensures
        r == if shift {
            shifted(c)
        } else {
            c
        },
{
    if !shift {
        c
    } else if 'a' <= c && c <= 'z' {
        (c as u8 - 32) as char
    } else if c == '-' {
        '_'
    } else if c == '`' {
        '~'
    } else if c == ',' {
        '<'
    } else if c == '.' {
        '>'
    } else if c == '/' {
        '?'
    } else {
        c
    }
}

fn plain_key(scancode: u8) -> (r: Option<char>)
    ensures
        r == plain_char(scancode),
{
    match scancode {
        0x02 => Some('1'),
        0x03 => Some('2'),
        0x04 => Some('3'),
        0x05 => Some('4'),
        0x06 => Some('5'),
        0x07 => Some('6'),
        0x08 => Some('7'),
        0x09 => Some('8'),
        0x0A => Some('9'),
        0x0B => Some('0'),
        0x0C => Some('-'),
        0x10 => Some('q'),
        0x11 => Some('w'),
        0x12 => Some('e'),
        0x13 => Some('r'),
        0x14 => Some('t'),
        0x15 => Some('y'),
        0x16 => Some('u'),
        0x17 => Some('i'),
        0x18 => Some('o'),
        0x19 => Some('p'),
        0x1C => Some('\n'),
        0x1E => Some('a'),
        0x1F => Some('s'),
        0x20 => Some('d'),
        0x21 => Some('f'),
        0x22 => Some('g'),
        0x23 => Some('h'),
        0x24 => Some('j'),
        0x25 => Some('k'),
        0x26 => Some('l'),
        0x29 => Some('`'),
        0x2C => Some('z'),
        0x2D => Some('x'),
        0x2E => Some('c'),
        0x2F => Some('v'),
        0x30 => Some('b'),
        0x31 => Some('n'),
        0x32 => Some('m'),
        0x33 => Some(','),
        0x34 => Some('.'),
        0x35 => Some('/'),
        0x39 => Some(' '),
        _ => None,
    }
}

/// Every key types a character that can stand in a line, or ends it.
proof fn keys_are_typed(scancode: u8, shift: bool)
    ensures
        key_char(scancode, shift) matches Some(c) ==> c == '\n' || typed(c),
{
}

fn copy_line(line: &Vec<char>) -> (r: Vec<char>)
    ensures
        r@ == line@,
{
    let mut r: Vec<char> = Vec::new();
    let mut i: usize = 0;
    while i < line.len()
        invariant
            i <= line.len(),
            r@ == line@.take(i as int),
        decreases line.len() - i,
    {
        r.push(line[i]);
        assert(r@ =~= line@.take(i + 1));
        i = i + 1;
    }
    assert(line@.take(line@.len() as int) =~= line@);
    r
}

fn is_blank(line: &Vec<char>) -> (r: bool)
    ensures
        r == blank(line@),
{
    let mut i: usize = 0;
    while i < line.len()
        invariant
            i <= line.len(),
            blank(line@.take(i as int)),
        decreases line.len() - i,
    {
        if line[i] != ' ' {
            return false;
        }
        assert(line@.take(i + 1) =~= line@.take(i as int).push(' '));
        i = i + 1;
    }
    assert(line@.take(line@.len() as int) =~= line@);
    true
}

fn push_repeated(steps: &mut Vec<ScreenStep>, step: ScreenStep, n: usize)
    ensures
        final(steps)@ == old(steps)@ + repeated(step, n as int),
{
    let mut i: usize = 0;
    assert(steps@ =~= old(steps)@ + repeated(step, 0));
    while i < n
        invariant
            i <= n,
            steps@ == old(steps)@ + repeated(step, i as int),
        decreases n - i,
    {
        steps.push(step);
        i = i + 1;
        assert(steps@ =~= old(steps)@ + repeated(step, i as int));
    }
}

impl View for KeyboardDriver {
    type V = Keyboard;

    closed spec fn view(&self) -> Keyboard {
        Keyboard {
            last: self.last_scancode,
            extended: self.pending_extended,
            left_shift: self.left_shift_held,
            right_shift: self.right_shift_held,
            line: self.line_buffer@,
            cursor: self.cursor_pos as int,
            history: Seq::new(self.history@.len(), |i: int| self.history@[i]@),
            browsing: match self.history_index {
                None => None,
                Some(i) => Some(i as int),
            },
        }
    }
}

impl KeyboardDriver {
    /// A keyboard with nothing typed yet.
    pub fn new() -> (kb: KeyboardDriver)
        ensures
            kb@ == (Keyboard {
                last: 0,
                extended: false,
                left_shift: false,
                right_shift: false,
                line: Seq::empty(),
                cursor: 0,
                history: Seq::empty(),
                browsing: None,
            }),
            kb@.wf(),
    {
        let kb = KeyboardDriver {
            last_scancode: 0,
            pending_extended: false,
            left_shift_held: false,
            right_shift_held: false,
            line_buffer: Vec::new(),
            cursor_pos: 0,
            history: Vec::new(),
            history_index: None,
        };
        assert(kb@.history =~= Seq::empty());
        kb
    }

    /// The character that a key types while Shift is as it is.
    pub fn scancode_to_char(&self, scancode: u8) -> (r: Option<char>)
        ensures
            r == key_char(scancode, self@.shift()),
    {
        match plain_key(scancode) {
            Some(c) => Some(with_shift(c, self.left_shift_held || self.right_shift_held)),
            None => None,
        }
    }

    /// The line as it is.
    pub fn line(&self) -> (s: String)
        ensures
            s@ == self@.line,
    {
        text_of(&self.line_buffer)
    }

    /// Shows the line before the one that is shown. Whether there was one.
    fn recall_older(&mut self) -> (changed: bool)
        requires
            old(self)@.wf(),
        ensures
            changed == old(self)@.has_older(),
            final(self)@ == old(self)@.older(),
    {
        if self.history.len() == 0 {
            return false;
        }
        let new_index: usize = match self.history_index {
            None => self.history.len() - 1,
            Some(i) => {
                if i == 0 {
                    return false;
                }
                i - 1
            },
        };
        let line = copy_line(&self.history[new_index]);
        self.history_index = Some(new_index);
        self.cursor_pos = line.len();
        self.line_buffer = line;
        assert(self@ =~= old(self)@.older());
        true
    }

    /// Shows the line after the one that is shown, or a fresh one. Whether one was shown.
    fn recall_newer(&mut self) -> (changed: bool)
        requires
            old(self)@.wf(),
        ensures
            changed == (old(self)@.browsing is Some),
            final(self)@ == old(self)@.newer(),
    {
        match self.history_index {
            None => false,
            Some(i) => {
                if i < self.history.len() - 1 {
                    let line = copy_line(&self.history[i + 1]);
                    self.history_index = Some(i + 1);
                    self.cursor_pos = line.len();
                    self.line_buffer = line;
                } else {
                    self.history_index = None;
                    self.line_buffer = Vec::new();
                    self.cursor_pos = 0;
                }
                assert(self@ =~= old(self)@.newer());
                true
            },
        }
    }

    /// Puts a character in at the cursor.
    fn insert_char(&mut self, ch: char) -> (action: KeyAction)
        requires
            old(self)@.wf(),
            old(self)@.line.len() < usize::MAX,
        ensures
            final(self)@ == old(self)@.inserted(ch),
            action@ == old(self)@.redraw(old(self)@.inserted(ch)),
    {
        let old_len: usize = self.line_buffer.len();
        let old_cursor: usize = self.cursor_pos;
        self.history_index = None;
        self.line_buffer.insert(old_cursor, ch);
        self.cursor_pos = old_cursor + 1;
        assert(self@ =~= old(self)@.inserted(ch));
        KeyAction::Draw(self.redraw_line(old_len, old_cursor))
    }

    /// Takes out the character before the cursor.
    fn backspace_char(&mut self) -> (action: KeyAction)
        requires
            old(self)@.wf(),
        ensures
            final(self)@ == old(self)@.backspaced(),
            action@ == (if old(self)@.cursor == 0 {
                ActionView::Nothing
            } else {
                old(self)@.redraw(old(self)@.backspaced())
            }),
    {
        self.history_index = None;
        if self.cursor_pos == 0 {
            assert(self@ =~= old(self)@.backspaced());
            return KeyAction::Nothing;
        }
        let old_len: usize = self.line_buffer.len();
        let old_cursor: usize = self.cursor_pos;
        self.line_buffer.remove(old_cursor - 1);
        self.cursor_pos = old_cursor - 1;
        assert(self@ =~= old(self)@.backspaced());
        KeyAction::Draw(self.redraw_line(old_len, old_cursor))
    }

    /// The steps that bring the screen from the old line to this one.
    fn redraw_line(&self, old_len: usize, old_cursor: usize) -> (steps: Vec<ScreenStep>)
        requires
            old_cursor <= old_len,
            self@.cursor <= self@.line.len(),
        ensures
            steps@ == redraw_steps(
                old_len as int,
                old_cursor as int,
                self@.line,
                self@.cursor,
            ),
    {
        let mut steps: Vec<ScreenStep> = Vec::new();
        push_repeated(&mut steps, ScreenStep::Right, old_len - old_cursor);
        push_repeated(&mut steps, ScreenStep::Erase, old_len);
        let ghost before = steps@;
        let mut i: usize = 0;
        assert(before =~= before + printed(self.line_buffer@.take(0)));
        while i < self.line_buffer.len()
            invariant
                i <= self.line_buffer.len(),
                steps@ == before + printed(self.line_buffer@.take(i as int)),
            decreases self.line_buffer.len() - i,
        {
            steps.push(ScreenStep::Print(self.line_buffer[i]));
            assert(printed(self.line_buffer@.take(i + 1)) =~= printed(
                self.line_buffer@.take(i as int),
            ).push(print_at(self.line_buffer@, i as int)));
            i = i + 1;
            assert(steps@ =~= before + printed(self.line_buffer@.take(i as int)));
        }
        assert(self.line_buffer@.take(i as int) =~= self.line_buffer@);
        push_repeated(&mut steps, ScreenStep::Left, self.line_buffer.len() - self.cursor_pos);
        assert(steps@ =~= redraw_steps(
            old_len as int,
            old_cursor as int,
            self@.line,
            self@.cursor,
        ));
        steps
    }

    /// Ends the line.
    fn enter_line(&mut self) -> (action: KeyAction)
        requires
            old(self)@.wf(),
        ensures
            final(self)@ == old(self)@.entered(),
            action@ == ActionView::Submit(old(self)@.line),
    {
        let line = copy_line(&self.line_buffer);
        let submitted = text_of(&line);
        self.line_buffer = Vec::new();
        self.cursor_pos = 0;
        self.history_index = None;
        if !is_blank(&line) {
            self.history.push(line);
        }
        assert(self@.history =~= old(self)@.entered().history);
        KeyAction::Submit(submitted)
    }
}

/// Takes in a scancode: the new state, and what it calls for.
pub fn handle_scancode(kb: &mut KeyboardDriver, scancode: u8) -> (action: KeyAction)
    requires
        old(kb)@.wf(),
        old(kb)@.line.len() < usize::MAX,
    ensures
        (final(kb)@, action@) == old(kb)@.step(scancode),
        final(kb)@.wf(),
{
    proof {
        step_keeps_wf(kb@, scancode);
    }
    if scancode == SCANCODE_EXTENDED_PREFIX {
        kb.pending_extended = true;
        return KeyAction::Nothing;
    }
    let is_extended: bool = kb.pending_extended;
    let is_new_press: bool = scancode != kb.last_scancode && scancode < 0x80;
    kb.pending_extended = false;
    kb.last_scancode = scancode;
    match scancode {
        SCANCODE_LSHIFT => {
            kb.left_shift_held = true;
            return KeyAction::Nothing;
        },
        SCANCODE_RSHIFT => {
            kb.right_shift_held = true;
            return KeyAction::Nothing;
        },
        SCANCODE_LSHIFT_BREAK => {
            kb.left_shift_held = false;
            return KeyAction::Nothing;
        },
        SCANCODE_RSHIFT_BREAK => {
            kb.right_shift_held = false;
            return KeyAction::Nothing;
        },
        _ => {},
    }
    if !is_new_press {
        return KeyAction::Nothing;
    }
    if is_extended {
        let old_len: usize = kb.line_buffer.len();
        let old_cursor: usize = kb.cursor_pos;
        if scancode == SCANCODE_UP {
            if kb.recall_older() {
                return KeyAction::Draw(kb.redraw_line(old_len, old_cursor));
            }
        } else if scancode == SCANCODE_DOWN {
            if kb.recall_newer() {
                return KeyAction::Draw(kb.redraw_line(old_len, old_cursor));
            }
        } else if scancode == SCANCODE_LEFT && kb.cursor_pos > 0 {
            kb.cursor_pos = kb.cursor_pos - 1;
            let steps = vec![ScreenStep::Left];
            assert(steps@ =~= seq![ScreenStep::Left]);
            return KeyAction::Draw(steps);
        } else if scancode == SCANCODE_RIGHT && kb.cursor_pos < kb.line_buffer.len() {
            kb.cursor_pos = kb.cursor_pos + 1;
            let steps = vec![ScreenStep::Right];
            assert(steps@ =~= seq![ScreenStep::Right]);
            return KeyAction::Draw(steps);
        }
        return KeyAction::Nothing;
    }
    if scancode == SCANCODE_BACKSPACE {
        return kb.backspace_char();
    }
    match kb.scancode_to_char(scancode) {
        Some(ch) => {
            if ch == '\n' {
                kb.enter_line()
            } else {
                kb.insert_char(ch)
            }
        },
        None => KeyAction::Nothing,
    }
}

/// Whatever is typed, the cursor stays in the line, the line holds nothing but characters
/// of the keys, no blank line comes into the history, and while a line of the history is
/// shown, the line is that one.
pub proof fn step_keeps_wf(k: Keyboard, scancode: u8)
    requires
        k.wf(),
    ensures
        k.step(scancode).0.wf(),
{
    keys_are_typed(scancode, k.shift());
}

/// Letting one Shift key go leaves the other one in force, letting both go ends Shift, and
/// no other code changes whether Shift is in force.
pub proof fn other_shift_stays(k: Keyboard, scancode: u8)
    ensures
        k.right_shift ==> k.step(SCANCODE_LSHIFT_BREAK).0.shift(),
        k.left_shift ==> k.step(SCANCODE_RSHIFT_BREAK).0.shift(),
        !k.step(SCANCODE_LSHIFT_BREAK).0.step(SCANCODE_RSHIFT_BREAK).0.shift(),
        k.step(scancode).0.shift() != k.shift() ==> scancode == SCANCODE_LSHIFT || scancode
            == SCANCODE_RSHIFT || scancode == SCANCODE_LSHIFT_BREAK || scancode
            == SCANCODE_RSHIFT_BREAK,
{
}

/// Backspace takes back what a key typed: the line and the cursor are as they were.
pub proof fn backspace_undoes_insert(k: Keyboard, c: char)
    requires
        k.wf(),
    ensures
        k.inserted(c).backspaced().line == k.line,
        k.inserted(c).backspaced().cursor == k.cursor,
{
    assert(k.line.insert(k.cursor, c).remove(k.cursor) =~= k.line);
}

/// A key that is held down is not typed again: the same code once more changes nothing.
pub proof fn repeats_are_ignored(k: Keyboard, scancode: u8)
    ensures
        ({
            let once = k.step(scancode).0;
            once.step(scancode) == (once, ActionView::Nothing)
        }),
{
    let once = k.step(scancode).0;
    assert(once.step(scancode).0 =~= once);
}

/// Letting a key go changes nothing on the line.
pub proof fn releases_change_nothing(k: Keyboard, scancode: u8)
    requires
        scancode >= 0x80,
    ensures
        k.step(scancode).0.line == k.line,
        k.step(scancode).0.cursor == k.cursor,
        k.step(scancode).0.history == k.history,
        k.step(scancode).1 == ActionView::Nothing,
{
}

/// Going to a newer line takes back going to an older one.
pub proof fn newer_undoes_older(k: Keyboard)
    requires
        k.wf(),
        k.has_older(),
    ensures
        k.browsing matches Some(i) ==> k.older().newer() == k.showing(k.history[i], Some(i)),
        k.browsing is None ==> k.older().newer() == k.showing(Seq::empty(), None),
{
}

/// A line that was entered, unless it was blank, is the first that comes back.
pub proof fn entered_line_is_recalled(k: Keyboard)
    requires
        !blank(k.line),
    ensures
        k.entered().older().line == k.line,
        k.entered().older().cursor == k.line.len(),
{
}

/// A row of the screen, and the cell that the cursor is at.
pub struct Row {
    pub cells: spec_fn(int) -> char,
    pub pos: int,
}

impl Row {
    pub open spec fn done(self, step: ScreenStep) -> Row {
        match step {
            ScreenStep::Left => Row { pos: self.pos - 1, ..self },
            ScreenStep::Right => Row { pos: self.pos + 1, ..self },
            ScreenStep::Erase => Row {
                cells: |i: int|
                    if i == self.pos - 1 {
                        ' '
                    } else {
                        (self.cells)(i)
                    },
                pos: self.pos - 1,
            },
            ScreenStep::Print(c) => Row {
                cells: |i: int|
                    if i == self.pos {
                        c
                    } else {
                        (self.cells)(i)
                    },
                pos: self.pos + 1,
            },
        }
    }

    pub open spec fn all_done(self, steps: Seq<ScreenStep>) -> Row
        decreases steps.len(),
    {
        if steps.len() == 0 {
            self
        } else {
            self.all_done(steps.drop_last()).done(steps.last())
        }
    }

    /// The row shows the line from cell `start` on, with blank cells behind it, and the
    /// cursor in its place.
    pub open spec fn shows(self, start: int, line: Seq<char>, cursor: int) -> bool {
        &&& self.pos == start + cursor
        &&& forall|i: int|
            start <= i ==> #[trigger] (self.cells)(i) == (if i - start < line.len() {
                line[i - start]
            } else {
                ' '
            })
    }
}

proof fn done_in_two_parts(row: Row, a: Seq<ScreenStep>, b: Seq<ScreenStep>)
    ensures
        row.all_done(a + b) == row.all_done(a).all_done(b),
    decreases b.len(),
{
    if b.len() == 0 {
        assert(a + b =~= a);
    } else {
        assert((a + b).drop_last() =~= a + b.drop_last());
        assert((a + b).last() == b.last());
        done_in_two_parts(row, a, b.drop_last());
    }
}

proof fn moves_right(row: Row, n: int)
    requires
        n >= 0,
    ensures
        row.all_done(repeated(ScreenStep::Right, n)) == (Row { pos: row.pos + n, ..row }),
    decreases n,
{
    let steps = repeated(ScreenStep::Right, n);
    if n > 0 {
        assert(steps.drop_last() =~= repeated(ScreenStep::Right, n - 1));
        moves_right(row, n - 1);
    }
}

proof fn moves_left(row: Row, n: int)
    requires
        n >= 0,
    ensures
        row.all_done(repeated(ScreenStep::Left, n)) == (Row { pos: row.pos - n, ..row }),
    decreases n,
{
    let steps = repeated(ScreenStep::Left, n);
    if n > 0 {
        assert(steps.drop_last() =~= repeated(ScreenStep::Left, n - 1));
        moves_left(row, n - 1);
    }
}

proof fn erases(row: Row, n: int, i: int)
    requires
        n >= 0,
    ensures
        row.all_done(repeated(ScreenStep::Erase, n)).pos == row.pos - n,
        (row.all_done(repeated(ScreenStep::Erase, n)).cells)(i) == (if row.pos - n <= i < row.pos {
            ' '
        } else {
            (row.cells)(i)
        }),
    decreases n,
{
    let steps = repeated(ScreenStep::Erase, n);
    if n > 0 {
        assert(steps.drop_last() =~= repeated(ScreenStep::Erase, n - 1));
        erases(row, n - 1, i);
    }
}

proof fn prints(row: Row, line: Seq<char>, i: int)
    ensures
        row.all_done(printed(line)).pos == row.pos + line.len(),
        (row.all_done(printed(line)).cells)(i) == (if row.pos <= i < row.pos + line.len() {
            line[i - row.pos]
        } else {
            (row.cells)(i)
        }),
    decreases line.len(),
{
    if line.len() > 0 {
        assert(printed(line).drop_last() =~= printed(line.drop_last()));
        prints(row, line.drop_last(), i);
    }
}

/// A row that shows the old line shows the new one after the redraw, whatever the two
/// are, and the cursor is in its place.
pub proof fn redraw_keeps_in_step(
    row: Row,
    start: int,
    old_line: Seq<char>,
    old_cursor: int,
    line: Seq<char>,
    cursor: int,
)
    requires
        row.shows(start, old_line, old_cursor),
        0 <= old_cursor <= old_line.len(),
        0 <= cursor <= line.len(),
    ensures
        row.all_done(redraw_steps(old_line.len() as int, old_cursor, line, cursor)).shows(
            start,
            line,
            cursor,
        ),
{
    let old_len = old_line.len() as int;
    let a = repeated(ScreenStep::Right, old_len - old_cursor);
    let b = repeated(ScreenStep::Erase, old_len);
    let c = printed(line);
    let d = repeated(ScreenStep::Left, line.len() - cursor);
    done_in_two_parts(row, a + b + c, d);
    done_in_two_parts(row, a + b, c);
    done_in_two_parts(row, a, b);
    moves_right(row, old_len - old_cursor);
    let at_end = row.all_done(a);
    let blanked = at_end.all_done(b);
    let written = blanked.all_done(c);
    moves_left(written, line.len() - cursor);
    let end = written.all_done(d);
    erases(at_end, old_len, 0);
    prints(blanked, line, 0);
    assert forall|i: int| start <= i implies #[trigger] (end.cells)(i) == (if i - start < line.len() {
        line[i - start]
    } else {
        ' '
    }) by {
        erases(at_end, old_len, i);
        prints(blanked, line, i);
        assert((row.cells)(i) == (row.cells)(i));
    }
}

/// Whatever is typed, a row that shows the line shows it again after the steps that were
/// called for.
pub proof fn screen_follows_line(k: Keyboard, scancode: u8, row: Row, start: int)
    requires
        k.wf(),
        row.shows(start, k.line, k.cursor),
    ensures
        k.step(scancode).1 matches ActionView::Draw(steps) ==> row.all_done(steps).shows(
            start,
            k.step(scancode).0.line,
            k.step(scancode).0.cursor,
        ),
        k.step(scancode).1 is Nothing ==> row.shows(
            start,
            k.step(scancode).0.line,
            k.step(scancode).0.cursor,
        ),
{
    let (to, action) = k.step(scancode);
    step_keeps_wf(k, scancode);
    redraw_keeps_in_step(row, start, k.line, k.cursor, to.line, to.cursor);
    let left = seq![ScreenStep::Left];
    let right = seq![ScreenStep::Right];
    assert(left.drop_last() =~= Seq::empty());
    assert(right.drop_last() =~= Seq::empty());
    assert(row.all_done(left.drop_last()) == row);
    assert(row.all_done(right.drop_last()) == row);
    assert(row.all_done(left) == row.done(ScreenStep::Left));
    assert(row.all_done(right) == row.done(ScreenStep::Right));
}

} // verus!
