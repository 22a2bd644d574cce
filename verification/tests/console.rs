use scos::vga_buffer::Writer;
use scos::vga_buffer::Colour;
use scos::vga_buffer::DisplayCode;
use scos::vga_buffer::BUFFER_HEIGHT;
use scos::vga_buffer::BUFFER_WIDTH;
use scos::vga_buffer::set_colour;
use scos::vga_buffer::reset_colour;
use scos::vga_buffer::divider;
use scos::interrupts::InterruptIndex;
use scos::interrupts::PIC_1_OFFSET;
use scos::interrupts::PIC_2_OFFSET;
use scos::QemuExitCode;

#[test]
fn display_code_packs_colours() {
    assert_eq!(DisplayCode::new(Colour::White, Colour::Black).0, 0x0f);
    assert_eq!(DisplayCode::new(Colour::Yellow, Colour::Blue).0, 0x1e);
    assert_eq!(DisplayCode::new(Colour::Black, Colour::White).0, 0xf0);
    assert_eq!(DisplayCode::new_blink(Colour::White, Colour::Black).0, 0x8f);
    assert_eq!(DisplayCode::new_blink(Colour::Green, Colour::Red).0, 0x80 | 0x40 | 0x02);
}

#[test]
fn bytes_land_on_the_bottom_row() {
    let mut w = Writer::new();
    w.write_byte(b'H');
    w.write_byte(b'i');
    assert_eq!(w.column(), 2);
    assert_eq!(w.char_at(BUFFER_HEIGHT - 1, 0).ascii_char, b'H');
    assert_eq!(w.char_at(BUFFER_HEIGHT - 1, 1).ascii_char, b'i');
    assert_eq!(w.char_at(BUFFER_HEIGHT - 1, 2).ascii_char, b' ');
}

#[test]
fn newline_scrolls_the_screen() {
    let mut w = Writer::new();
    w.write_string(&b"abc\n".to_vec());
    assert_eq!(w.column(), 0);
    // The line moved up one row; the bottom row is blank again.
    assert_eq!(w.char_at(BUFFER_HEIGHT - 2, 0).ascii_char, b'a');
    assert_eq!(w.char_at(BUFFER_HEIGHT - 2, 1).ascii_char, b'b');
    assert_eq!(w.char_at(BUFFER_HEIGHT - 2, 2).ascii_char, b'c');
    assert_eq!(w.char_at(BUFFER_HEIGHT - 1, 0).ascii_char, b' ');
}

#[test]
fn full_row_wraps_before_writing() {
    let mut w = Writer::new();
    let mut long: Vec<u8> = Vec::new();
    for _ in 0..BUFFER_WIDTH {
        long.push(b'x');
    }
    long.push(b'y');
    w.write_string(&long);
    // The row of x moved up; y starts the new bottom row.
    assert_eq!(w.column(), 1);
    assert_eq!(w.char_at(BUFFER_HEIGHT - 2, BUFFER_WIDTH - 1).ascii_char, b'x');
    assert_eq!(w.char_at(BUFFER_HEIGHT - 1, 0).ascii_char, b'y');
}

#[test]
fn unprintable_bytes_become_placeholder() {
    let mut w = Writer::new();
    w.write_string(&vec![0x01, 0x9c, b'a']);
    assert_eq!(w.char_at(BUFFER_HEIGHT - 1, 0).ascii_char, 0xfe);
    assert_eq!(w.char_at(BUFFER_HEIGHT - 1, 1).ascii_char, 0xfe);
    assert_eq!(w.char_at(BUFFER_HEIGHT - 1, 2).ascii_char, b'a');
}

#[test]
fn colours_apply_until_reset() {
    let mut w = Writer::new();
    set_colour(&mut w, Colour::Yellow, Colour::Blue);
    w.write_byte(b'c');
    assert_eq!(w.char_at(BUFFER_HEIGHT - 1, 0).display_code.0, 0x1e);
    reset_colour(&mut w);
    w.write_byte(b'd');
    assert_eq!(w.char_at(BUFFER_HEIGHT - 1, 1).display_code.0, 0x0f);
}

#[test]
fn divider_fills_a_whole_row() {
    let mut w = Writer::new();
    divider(&mut w, b'-');
    // The divider line ends with a newline, so the full row of dashes
    // stands one above the bottom.
    assert_eq!(w.column(), 0);
    for c in 0..BUFFER_WIDTH {
        assert_eq!(w.char_at(BUFFER_HEIGHT - 2, c).ascii_char, b'-');
    }
    assert_eq!(w.char_at(BUFFER_HEIGHT - 1, 0).ascii_char, b' ');
}

#[test]
fn interrupt_lines_follow_the_pic_offsets() {
    assert_eq!(PIC_1_OFFSET, 32);
    assert_eq!(PIC_2_OFFSET, 40);
    assert_eq!(InterruptIndex::Timer.as_u8(), 32);
    assert_eq!(InterruptIndex::Keyboard.as_u8(), 33);
    assert_eq!(InterruptIndex::Timer.as_usize(), 32);
    assert_eq!(InterruptIndex::Keyboard.as_usize(), 33);
}

#[test]
fn qemu_exit_codes() {
    assert_eq!(QemuExitCode::Success.code(), 0x10);
    assert_eq!(QemuExitCode::Failed.code(), 0x11);
}
