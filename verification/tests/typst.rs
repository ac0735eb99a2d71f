use rat_widgets::typst::color::{color_to_rgb, indexed_color_to_rgb, typst_color, RgbColor, TermColor};
use rat_widgets::typst::export::{
    display_symbol, effective_cell_style, escape_typst_string, font_family_is_blank,
    is_trimmable_cell, render_typst_document, sanitize_symbol, symbol_width, visible_row_end,
    CellExportOptions, CellGrid, ExportCell, TypstPrelude, BOLD, HIDDEN, REVERSED, UNDERLINED,
};

fn blank() -> ExportCell {
    ExportCell { symbol: " ".to_string(), fg: TermColor::Reset, bg: TermColor::Reset, modifier: 0 }
}

fn grid(width: u16, height: u16) -> CellGrid {
    CellGrid { width, height, cells: (0..(width as usize * height as usize)).map(|_| blank()).collect() }
}

fn prelude() -> TypstPrelude {
    TypstPrelude {
        font_family: "DejaVu Sans Mono".to_string(),
        page_margin: "0pt".to_string(),
        font_size: "10pt".to_string(),
        leading: "0pt".to_string(),
        cell_width: "0.62em".to_string(),
        cell_height: "1.15em".to_string(),
    }
}

fn rgb(red: u8, green: u8, blue: u8) -> RgbColor {
    RgbColor { red, green, blue }
}

#[test]
fn exports_buffer_as_standalone_typst_document() {
    let mut g = grid(8, 3);
    for (i, sym) in ["H", "i"].iter().enumerate() {
        g.cells[i] = ExportCell {
            symbol: sym.to_string(),
            fg: TermColor::Cyan,
            bg: TermColor::Indexed(17),
            modifier: BOLD | UNDERLINED,
        };
    }
    let document = render_typst_document(&g, &prelude(), &CellExportOptions::default());
    assert!(document.contains("#set page"));
    assert!(document.contains("DejaVu Sans Mono"));
    assert!(document.contains("#raw(\"H\")"));
    assert!(document.contains("#raw(\"i\")"));
    assert!(document.contains("rgb(\"#008080\")"));
    assert!(document.contains("rgb(\"#00005f\")"));
    assert!(document.contains("weight: \"bold\""));
    assert!(document.contains("#underline"));
}

#[test]
fn skips_overwritten_cells_for_wide_symbols() {
    let mut g = grid(2, 1);
    g.cells[0].symbol = "界".to_string();
    g.cells[1].symbol = "x".to_string();
    let document = render_typst_document(&g, &prelude(), &CellExportOptions::default());
    assert!(document.contains("#raw(\"界\")"));
    assert!(!document.contains("#raw(\"x\")"));
}

#[test]
fn escapes_typst_string_content() {
    let mut g = grid(8, 3);
    g.cells[0].symbol = "\\".to_string();
    g.cells[1].symbol = "\"".to_string();
    let document = render_typst_document(&g, &prelude(), &CellExportOptions::default());
    assert!(document.contains("#raw(\"\\\\\")"));
    assert!(document.contains("#raw(\"\\\"\")"));
}

#[test]
fn blank_font_family_is_detected() {
    assert!(font_family_is_blank(" "));
    assert!(font_family_is_blank(""));
    assert!(font_family_is_blank("\t \n"));
    assert!(!font_family_is_blank(" Mono "));
}

#[test]
fn indexed_palette_values() {
    assert_eq!(indexed_color_to_rgb(1), rgb(128, 0, 0));
    assert_eq!(indexed_color_to_rgb(7), rgb(192, 192, 192));
    assert_eq!(indexed_color_to_rgb(16), rgb(0, 0, 0));
    assert_eq!(indexed_color_to_rgb(17), rgb(0, 0, 95));
    assert_eq!(indexed_color_to_rgb(196), rgb(255, 0, 0));
    assert_eq!(indexed_color_to_rgb(231), rgb(255, 255, 255));
    assert_eq!(indexed_color_to_rgb(232), rgb(8, 8, 8));
    assert_eq!(indexed_color_to_rgb(255), rgb(238, 238, 238));
}

#[test]
fn named_and_reset_colors() {
    assert_eq!(color_to_rgb(TermColor::Reset), None);
    assert_eq!(color_to_rgb(TermColor::Cyan), Some(rgb(0, 128, 128)));
    assert_eq!(color_to_rgb(TermColor::LightYellow), Some(rgb(255, 255, 0)));
    assert_eq!(color_to_rgb(TermColor::Rgb(1, 2, 3)), Some(rgb(1, 2, 3)));
}

#[test]
fn typst_color_is_lowercase_hex() {
    assert_eq!(typst_color(rgb(0, 0, 95)), "rgb(\"#00005f\")");
    assert_eq!(typst_color(rgb(255, 171, 16)), "rgb(\"#ffab10\")");
}

#[test]
fn escape_covers_quotes_backslashes_and_controls() {
    assert_eq!(escape_typst_string("a\"b\\c\nd\re\tf"), "a\\\"b\\\\c\\nd\\re\\tf");
    assert_eq!(escape_typst_string("plain"), "plain");
}

#[test]
fn reversed_cell_swaps_colors() {
    let cell = ExportCell {
        symbol: "R".to_string(),
        fg: TermColor::Red,
        bg: TermColor::Reset,
        modifier: REVERSED,
    };
    let style = effective_cell_style(&cell, &CellExportOptions::default());
    // The reset background has no color, so the text takes the default color.
    assert_eq!(style.fg, rgb(220, 220, 220));
    assert_eq!(style.bg, Some(rgb(128, 0, 0)));
}

#[test]
fn default_foreground_replaces_reset() {
    let cell = ExportCell { symbol: "A".to_string(), fg: TermColor::Reset, bg: TermColor::Blue, modifier: 0 };
    let style = effective_cell_style(&cell, &CellExportOptions::default());
    assert_eq!(style.fg, rgb(220, 220, 220));
    assert_eq!(style.bg, Some(rgb(0, 0, 128)));
    assert!(!style.bold);
}

#[test]
fn hidden_and_control_symbols_show_spaces() {
    let hidden = ExportCell { symbol: "X".to_string(), fg: TermColor::Reset, bg: TermColor::Reset, modifier: HIDDEN };
    assert_eq!(display_symbol(&hidden), " ");
    assert_eq!(sanitize_symbol("a\u{7}b\u{9f}"), "a b ");
}

#[test]
fn symbol_width_is_at_least_one() {
    assert_eq!(symbol_width(""), 1);
    assert_eq!(symbol_width("a"), 1);
    assert_eq!(symbol_width("界"), 2);
}

#[test]
fn trailing_blank_cells_are_trimmed() {
    let mut cells = vec![blank(), blank(), blank(), blank()];
    cells[1].symbol = "x".to_string();
    assert!(is_trimmable_cell(&cells[0]));
    assert!(!is_trimmable_cell(&cells[1]));
    assert_eq!(visible_row_end(&cells, 0, 4, true), 2);
    assert_eq!(visible_row_end(&cells, 0, 4, false), 4);
    assert_eq!(visible_row_end(&cells, 2, 4, true), 0);
}

#[test]
fn exact_document_of_one_cell() {
    let mut g = grid(2, 1);
    g.cells[0].symbol = "a".to_string();
    let document = render_typst_document(&g, &prelude(), &CellExportOptions::default());
    let expected = "// Typst document of a terminal buffer.\n\
#set page(margin: 0pt)\n\
#set text(font: \"DejaVu Sans Mono\", size: 10pt)\n\
#set par(leading: 0pt)\n\
#let rat-cell-width = 0.62em\n\
#let rat-cell-height = 1.15em\n\
\n\
#box(width: rat-cell-width, height: rat-cell-height)[#text(fill: rgb(\"#dcdcdc\"))[#raw(\"a\")]]#linebreak()\n";
    assert_eq!(document, expected);
}

#[test]
fn empty_grid_has_only_prelude() {
    let g = grid(0, 3);
    let document = render_typst_document(&g, &prelude(), &CellExportOptions::default());
    assert!(document.ends_with("#let rat-cell-height = 1.15em\n\n"));
    assert!(!document.contains("#linebreak()"));
}
