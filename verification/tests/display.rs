use diskard::app::Modal;
use diskard::display::{
    centered_area, columns, confirm_message, confirm_title, count_text, dialog_width, dir_heading, display_name,
    files_text, fit_to_width, footer_hint, right_aligned, row_shade, shown_name, types_heading, RowShade,
};

/// A name fitted to a column, as the listing used to format it.
fn fitted_by_format(name: &str, width: usize) -> String {
    if width == 0 {
        String::new()
    } else if name.chars().count() > width {
        format!("{}…", name.chars().take(width.saturating_sub(1)).collect::<String>())
    } else {
        format!("{:<width$}", name, width = width)
    }
}

#[test]
fn columns_grow_with_the_width() {
    let c = columns(0);
    assert_eq!((c.size, c.percent, c.count, c.bar, c.name), (0, 0, 0, 0, 0));
    let c = columns(19);
    assert_eq!((c.size, c.percent, c.count, c.bar, c.name), (0, 0, 0, 0, 19));
    let c = columns(20);
    assert_eq!((c.size, c.percent, c.count, c.bar, c.name), (10, 0, 0, 0, 10));
    let c = columns(33);
    assert_eq!((c.size, c.percent, c.count, c.bar, c.name), (10, 7, 0, 0, 16));
    let c = columns(52);
    assert_eq!((c.size, c.percent, c.count, c.bar, c.name), (10, 7, 12, 0, 23));
    let c = columns(76);
    assert_eq!((c.size, c.percent, c.count, c.bar, c.name), (10, 7, 12, 15, 31));
    let c = columns(120);
    assert_eq!((c.size, c.percent, c.count, c.bar, c.name), (10, 7, 12, 24, 66));
}

#[test]
fn names_fit_their_column() {
    assert_eq!(fit_to_width("hello", 0), "");
    assert_eq!(fit_to_width("hello", 1), "…");
    assert_eq!(fit_to_width("hello", 3), "he…");
    assert_eq!(fit_to_width("hello", 5), "hello");
    assert_eq!(fit_to_width("hello", 8), "hello   ");
    assert_eq!(fit_to_width("ÉTÉ.txt", 4), "ÉTÉ…");
    for name in ["", "a", "report.pdf", "ÄÖÜ-日本語.txt", "x y z"] {
        for width in 0..16 {
            assert_eq!(fit_to_width(name, width), fitted_by_format(name, width), "{:?} {}", name, width);
        }
    }
}

#[test]
fn cells_are_right_aligned() {
    assert_eq!(right_aligned("1.5 KB", 10), "   1.5 KB ");
    assert_eq!(right_aligned("12.5%", 7), " 12.5% ");
    assert_eq!(right_aligned("a long text", 4), "a long text ");
    for text in ["", "7", "100.0%", "12345 files", "日本"] {
        for width in 1..14 {
            assert_eq!(right_aligned(text, width), format!("{:>w$} ", text, w = width - 1));
        }
    }
}

#[test]
fn file_counts_and_headings() {
    assert_eq!(files_text(0), "0 files");
    assert_eq!(files_text(1234), "1234 files");
    assert_eq!(files_text(u64::MAX), format!("{} files", u64::MAX));
    assert_eq!(count_text(true, 7), "7 files");
    assert_eq!(count_text(false, 7), "");
    assert_eq!(dir_heading("/home/u", 42), "/home/u (42 files)");
    assert_eq!(types_heading("/home/u", 42), "File types: /home/u (42 files)");
}

#[test]
fn footer_hints_follow_the_state() {
    assert_eq!(footer_hint(true, &Modal::Closed), " Refreshing...");
    assert_eq!(footer_hint(true, &Modal::Error("x".to_string())), " Refreshing...");
    assert_eq!(
        footer_hint(false, &Modal::Closed),
        " ↑/k: up  ↓/j: down  ->/l/Enter: open  <-/h/Backspace: back  t: types  r: refresh  d: trash  D: delete  q: quit"
    );
    assert_eq!(footer_hint(false, &Modal::ConfirmTrash(1)), " y/Enter: confirm  n/Esc: cancel");
    assert_eq!(footer_hint(false, &Modal::ConfirmDelete(1)), " y/Enter: confirm  n/Esc: cancel");
    assert_eq!(footer_hint(false, &Modal::Error("x".to_string())), " Enter/Esc: dismiss");
}

#[test]
fn removal_dialogs() {
    assert_eq!(confirm_message(true, "a.txt"), " Move to trash \"a.txt\"? ");
    assert_eq!(confirm_message(false, "dir"), " Permanently delete \"dir\"? ");
    assert_eq!(confirm_title(true), " Trash ");
    assert_eq!(confirm_title(false), " Delete ");
}

#[test]
fn dialog_widths() {
    // (len + 4), at least the minimum, at most the screen less four.
    assert_eq!(dialog_width("short", 36, 100), 36);
    let long = "x".repeat(50);
    assert_eq!(dialog_width(&long, 36, 100), 54);
    assert_eq!(dialog_width(&long, 36, 40), 36);
    assert_eq!(dialog_width("short", 40, 30), 26);
    // Bytes, not characters, are counted.
    assert_eq!(dialog_width(&"é".repeat(20), 36, 100), 44);
    for len in [0usize, 10, 32, 33, 60, 200] {
        let text = "y".repeat(len);
        for screen in [4u16, 20, 40, 80, 300] {
            let expected = (text.len() as u16 + 4).max(36).min(screen - 4);
            assert_eq!(dialog_width(&text, 36, screen), expected);
        }
    }
}

#[test]
fn boxes_are_centred() {
    assert_eq!(centered_area(36, 5, 0, 0, 100, 40), (32, 17, 36, 5));
    assert_eq!(centered_area(36, 5, 10, 2, 20, 3), (10, 2, 20, 3));
    assert_eq!(centered_area(10, 4, 3, 1, 21, 9), (8, 3, 10, 4));
}

#[test]
fn shown_names() {
    assert_eq!(display_name("/home/u/report.pdf"), "report.pdf");
    assert_eq!(display_name("/home/u/dir/"), "dir");
    assert_eq!(display_name("/"), "?");
    assert_eq!(display_name("a/.."), "?");
    assert_eq!(shown_name(Some("x".to_string())), "x");
    assert_eq!(shown_name(None), "?");
}

#[test]
fn row_shades() {
    assert_eq!(row_shade(true, true), RowShade::Unreadable);
    assert_eq!(row_shade(true, false), RowShade::Unreadable);
    assert_eq!(row_shade(false, true), RowShade::Directory);
    assert_eq!(row_shade(false, false), RowShade::File);
}
