use agentos_kernel::keyboard::{handle_scancode, KeyAction, KeyboardDriver, ScreenStep};

/// A row of a screen that does what the steps say.
struct Row {
    cells: Vec<char>,
    pos: usize,
}

impl Row {
    fn new() -> Row {
        Row { cells: vec![' '; 200], pos: 50 }
    }

    fn draw(&mut self, steps: &[ScreenStep]) {
        for step in steps {
            match step {
                ScreenStep::Left => self.pos -= 1,
                ScreenStep::Right => self.pos += 1,
                ScreenStep::Erase => {
                    self.pos -= 1;
                    self.cells[self.pos] = ' ';
                }
                ScreenStep::Print(c) => {
                    self.cells[self.pos] = *c;
                    self.pos += 1;
                }
            }
        }
    }

    fn text(&self) -> String {
        let s: String = self.cells[50..].iter().collect();
        s.trim_end().to_string()
    }
}

/// Types the codes. The lines that were entered.
fn type_codes(kb: &mut KeyboardDriver, codes: &[u8]) -> Vec<String> {
    let mut lines = Vec::new();
    let mut row = Row::new();
    for &code in codes {
        match handle_scancode(kb, code) {
            KeyAction::Nothing => {}
            KeyAction::Draw(steps) => row.draw(&steps),
            KeyAction::Submit(line) => {
                assert_eq!(row.text(), line.trim_end());
                row = Row::new();
                lines.push(line);
            }
        }
        assert_eq!(row.text(), kb.line().trim_end());
    }
    lines
}

#[test]
fn backspace_takes_back() {
    let mut kb = KeyboardDriver::new();
    let codes = [0x19, 0x99, 0x1F, 0x9F, 0x1F, 0x9F, 0x0E, 0x8E, 0x1C, 0x9C];
    assert_eq!(type_codes(&mut kb, &codes), vec!["ps"]);
    assert_eq!(kb.line(), "");
}

#[test]
fn history_is_recalled() {
    let mut kb = KeyboardDriver::new();
    let codes = [
        0x2D, 0xAD, 0x2D, 0xAD, 0x1C, 0x9C, 0x15, 0x95, 0x15, 0x95, 0x1C, 0x9C, 0xE0, 0x48, 0xE0,
        0xC8, 0xE0, 0x48, 0xE0, 0xC8, 0x1C, 0x9C,
    ];
    assert_eq!(type_codes(&mut kb, &codes), vec!["xx", "yy", "xx"]);
}

#[test]
fn history_goes_both_ways() {
    let mut kb = KeyboardDriver::new();
    type_codes(&mut kb, &[0x2D, 0xAD, 0x1C, 0x9C, 0x15, 0x95, 0x1C, 0x9C]);
    let up = [0xE0, 0x48, 0xE0, 0xC8];
    let down = [0xE0, 0x50, 0xE0, 0xD0];
    handle_all(&mut kb, &up);
    assert_eq!(kb.line(), "y");
    handle_all(&mut kb, &up);
    assert_eq!(kb.line(), "x");
    handle_all(&mut kb, &up);
    assert_eq!(kb.line(), "x");
    handle_all(&mut kb, &down);
    assert_eq!(kb.line(), "y");
    handle_all(&mut kb, &down);
    assert_eq!(kb.line(), "");
    handle_all(&mut kb, &down);
    assert_eq!(kb.line(), "");
}

fn handle_all(kb: &mut KeyboardDriver, codes: &[u8]) {
    for &code in codes {
        handle_scancode(kb, code);
    }
}

#[test]
fn blank_lines_are_not_kept() {
    let mut kb = KeyboardDriver::new();
    let codes = [0x1C, 0x9C, 0x39, 0xB9, 0x1C, 0x9C, 0xE0, 0x48, 0xE0, 0xC8];
    assert_eq!(type_codes(&mut kb, &codes), vec!["", " "]);
    assert_eq!(kb.line(), "");
}

#[test]
fn the_cursor_moves() {
    let mut kb = KeyboardDriver::new();
    let codes = [
        0x23, 0xA3, 0x12, 0x92, 0x19, 0x99, 0xE0, 0x4B, 0xE0, 0xCB, 0x26, 0xA6, 0x1C, 0x9C,
    ];
    assert_eq!(type_codes(&mut kb, &codes), vec!["help"]);
}

#[test]
fn the_cursor_stays_in_the_line() {
    let mut kb = KeyboardDriver::new();
    let left = [0xE0, 0x4B, 0xE0, 0xCB];
    let right = [0xE0, 0x4D, 0xE0, 0xCD];
    type_codes(&mut kb, &left);
    type_codes(&mut kb, &[0x1E, 0x9E]);
    for codes in [left, left, left, right, right, right] {
        for code in codes {
            handle_scancode(&mut kb, code);
        }
    }
    handle_all(&mut kb, &[0x30, 0xB0]);
    assert_eq!(kb.line(), "ab");
    handle_all(&mut kb, &left);
    handle_all(&mut kb, &left);
    handle_all(&mut kb, &[0x0E, 0x8E]);
    assert_eq!(kb.line(), "ab");
}

#[test]
fn one_shift_key_is_enough() {
    let mut kb = KeyboardDriver::new();
    type_codes(&mut kb, &[0x2A, 0x36, 0xB6, 0x1E, 0x9E]);
    assert_eq!(kb.line(), "A");
    handle_all(&mut kb, &[0xAA, 0x30, 0xB0]);
    assert_eq!(kb.line(), "Ab");
    let mut kb = KeyboardDriver::new();
    type_codes(&mut kb, &[0x36, 0x2A, 0xAA, 0x1E, 0x9E]);
    assert_eq!(kb.line(), "A");
    handle_all(&mut kb, &[0x2A, 0xB6, 0xAA, 0x30, 0xB0]);
    assert_eq!(kb.line(), "Ab");
}

#[test]
fn shift_is_held() {
    let mut kb = KeyboardDriver::new();
    let codes = [
        0x2E, 0xAE, 0x1E, 0x9E, 0x14, 0x94, 0x39, 0xB9, 0x2A, 0x25, 0xA5, 0x12, 0x92, 0x13, 0x93,
        0x31, 0xB1, 0x12, 0x92, 0x26, 0xA6, 0x29, 0xA9, 0xAA, 0x02, 0x82, 0x1C, 0x9C,
    ];
    assert_eq!(type_codes(&mut kb, &codes), vec!["cat KERNEL~1"]);
}

#[test]
fn a_held_key_is_typed_once() {
    let mut kb = KeyboardDriver::new();
    handle_all(&mut kb, &[0x1E, 0x1E, 0x1E, 0x9E, 0x1E]);
    assert_eq!(kb.line(), "aa");
}

#[test]
fn every_key() {
    let kb = KeyboardDriver::new();
    let mut shifted = KeyboardDriver::new();
    handle_scancode(&mut shifted, 0x36);
    let keys: [(u8, char, char); 45] = [
        (0x02, '1', '1'),
        (0x03, '2', '2'),
        (0x04, '3', '3'),
        (0x05, '4', '4'),
        (0x06, '5', '5'),
        (0x07, '6', '6'),
        (0x08, '7', '7'),
        (0x09, '8', '8'),
        (0x0A, '9', '9'),
        (0x0B, '0', '0'),
        (0x0C, '-', '_'),
        (0x10, 'q', 'Q'),
        (0x11, 'w', 'W'),
        (0x12, 'e', 'E'),
        (0x13, 'r', 'R'),
        (0x14, 't', 'T'),
        (0x15, 'y', 'Y'),
        (0x16, 'u', 'U'),
        (0x17, 'i', 'I'),
        (0x18, 'o', 'O'),
        (0x19, 'p', 'P'),
        (0x1C, '\n', '\n'),
        (0x1E, 'a', 'A'),
        (0x1F, 's', 'S'),
        (0x20, 'd', 'D'),
        (0x21, 'f', 'F'),
        (0x22, 'g', 'G'),
        (0x23, 'h', 'H'),
        (0x24, 'j', 'J'),
        (0x25, 'k', 'K'),
        (0x26, 'l', 'L'),
        (0x29, '`', '~'),
        (0x2C, 'z', 'Z'),
        (0x2D, 'x', 'X'),
        (0x2E, 'c', 'C'),
        (0x2F, 'v', 'V'),
        (0x30, 'b', 'B'),
        (0x31, 'n', 'N'),
        (0x32, 'm', 'M'),
        (0x33, ',', '<'),
        (0x34, '.', '>'),
        (0x35, '/', '?'),
        (0x39, ' ', ' '),
        (0x3A, '\0', '\0'),
        (0x01, '\0', '\0'),
    ];
    for (code, plain, with_shift) in keys {
        let none = plain == '\0';
        assert_eq!(kb.scancode_to_char(code), if none { None } else { Some(plain) });
        assert_eq!(shifted.scancode_to_char(code), if none { None } else { Some(with_shift) });
    }
    handle_scancode(&mut shifted, 0xB6);
    assert_eq!(shifted.scancode_to_char(0x10), Some('q'));
}
