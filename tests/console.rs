use fat32_slab::{Color, TextWriter, resolve_path, vga_clear, vga_set_color, vga_set_colors};

#[test]
fn color_attribute_bytes() {
    let mut w = TextWriter::new();
    assert_eq!(w.attr(), 0x0F);
    vga_set_color(&mut w, 0x12, 0x34);
    assert_eq!(w.attr(), 0x42);
    vga_set_colors(&mut w, Color::White, Color::Blue);
    assert_eq!(w.attr(), 0x1F);
    vga_set_colors(&mut w, Color::Yellow, Color::Red);
    assert_eq!(w.attr(), 0x4E);
    assert_eq!(Color::LightGray.code(), 7);
}

#[test]
fn text_goes_to_cells_and_wraps() {
    let mut w = TextWriter::new();
    w.write_str("AB\nC");
    assert_eq!(w.cursor(), (1, 1));
    assert_eq!(&w.cells()[0..4], &[b'A', 0x0F, b'B', 0x0F]);
    assert_eq!(&w.cells()[160..162], &[b'C', 0x0F]);
    let line = "x".repeat(80);
    w.write_str(&line);
    assert_eq!(w.cursor(), (2, 1));
}

#[test]
fn last_row_scrolls_up() {
    let mut w = TextWriter::new();
    w.write_str("top\n");
    for _ in 0..24 {
        w.newline();
    }
    assert_eq!(w.cursor(), (24, 0));
    assert_eq!(w.cells()[0], 0);
    w.write_str("Z");
    w.newline();
    assert_eq!(w.cells()[23 * 160], b'Z');
    assert_eq!(&w.cells()[24 * 160..24 * 160 + 2], &[b' ', 0x0F]);
}

#[test]
fn clear_blanks_screen() {
    let mut w = TextWriter::new();
    vga_set_colors(&mut w, Color::Green, Color::Black);
    w.write_str("hello\nworld");
    vga_clear(&mut w);
    assert_eq!(w.cursor(), (0, 0));
    assert!(w.cells().chunks(2).all(|c| c[0] == b' ' && c[1] == 0x02));
}

#[test]
fn resolve_relative_paths() {
    assert_eq!(resolve_path("/", ".."), "/");
    assert_eq!(resolve_path("/X", "A/B/../C"), "/X/A/C");
    assert_eq!(resolve_path("/X/Y", "../../.."), "/");
    assert_eq!(resolve_path("/X", "//A//"), "/A");
    assert_eq!(resolve_path("/X", ""), "/X");
}
