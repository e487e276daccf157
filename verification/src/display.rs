//! What the browser's screens show: the widths of the listing's columns, the
//! text of its cells, headings, hints and dialogs.
use vstd::prelude::*;

use crate::app::{Modal, ModalView};
use crate::filetype::{file_name_of, path_file_name};
use crate::size_text::{decimal, push_decimal};

verus! {

/// The widths of the listing's columns, in characters.
pub struct Columns {
    pub size: usize,
    pub percent: usize,
    pub count: usize,
    pub bar: usize,
    pub name: usize,
}

/// The room the columns other than the name take, with the space before the
/// bar.
pub open spec fn fixed_width(c: Columns) -> int {
    c.size + c.percent + c.count + c.bar + if c.bar > 0 {
        1int
    } else {
        0
    }
}

/// The columns of a list `width` characters wide: the size from 20, the
/// share from 33, the file count from 52, and from 76 a bar a fifth of the
/// width; the name takes what is left.
pub fn columns(width: usize) -> (c: Columns)
    ensures
        c.size == (if width >= 20 { 10usize } else { 0usize }),
        c.percent == (if width >= 33 { 7usize } else { 0usize }),
        c.count == (if width >= 52 { 12usize } else { 0usize }),
        c.bar == (if width >= 76 { width / 5 } else { 0usize }),
        c.name == (if fixed_width(c) <= width { width - fixed_width(c) } else { 0 }),
{
    let size: usize = if width >= 20 { 10 } else { 0 };
    let percent: usize = if width >= 33 { 7 } else { 0 };
    let count: usize = if width >= 52 { 12 } else { 0 };
    let bar: usize = if width >= 76 { width / 5 } else { 0 };
    let gap: usize = if bar > 0 { 1 } else { 0 };
    let used = size + percent + count + bar + gap;
    let name = width.saturating_sub(used);
    Columns { size, percent, count, bar, name }
}

/// `n` spaces.
pub open spec fn spaces(n: nat) -> Seq<char> {
    Seq::new(n, |i: int| ' ')
}

/// `text` fitted to `width` characters: cut to one less and ended with an
/// ellipsis when it is longer, padded with spaces on the right otherwise;
/// nothing when the width is 0.
pub open spec fn fitted(text: Seq<char>, width: nat) -> Seq<char> {
    if width == 0 {
        Seq::empty()
    } else if text.len() > width {
        text.take(width - 1).push('…')
    } else {
        text + spaces((width - text.len()) as nat)
    }
}

/// `text` right-aligned in a cell of `width` characters whose last character
/// is a space: padded with spaces on the left to `width - 1`.
pub open spec fn right_cell(text: Seq<char>, width: nat) -> Seq<char> {
    let inner = width - 1;
    if text.len() < inner {
        spaces((inner - text.len()) as nat) + text + seq![' ']
    } else {
        text + seq![' ']
    }
}

/// Appends `n` spaces.
fn push_spaces(s: &mut String, n: usize)
    ensures
        final(s)@ == old(s)@ + spaces(n as nat),
{
    let ghost start = s@;
    let mut k: usize = 0;
    while k < n
        invariant
            k <= n,
            s@ == start + spaces(k as nat),
        decreases n - k,
    {
        s.append(" ");
        proof {
            reveal_strlit(" ");
            assert(start + spaces((k + 1) as nat) =~= start + spaces(k as nat) + " "@);
        }
        k += 1;
    }
}

/// `text` fitted to a column `width` characters wide.
pub fn fit_to_width(text: &str, width: usize) -> (r: String)
    ensures
        r@ == fitted(text@, width as nat),
{
    if width == 0 {
        return String::new();
    }
    let n = text.unicode_len();
    if n > width {
        let mut r = String::from_str(text.substring_char(0, width - 1));
        r.append("…");
        proof {
            reveal_strlit("…");
            assert(r@ =~= text@.take(width - 1).push('…'));
        }
        r
    } else {
        let mut r = String::from_str(text);
        push_spaces(&mut r, width - n);
        r
    }
}

/// `text` right-aligned in a cell of `width` characters.
pub fn right_aligned(text: &str, width: usize) -> (r: String)
    requires
        width > 0,
    ensures
        r@ == right_cell(text@, width as nat),
{
    let n = text.unicode_len();
    let mut r = String::new();
    if n < width - 1 {
        push_spaces(&mut r, width - 1 - n);
    }
    r.append(text);
    r.append(" ");
    proof {
        reveal_strlit(" ");
        if n < width - 1 {
            assert(r@ =~= spaces((width - 1 - n) as nat) + text@ + seq![' ']);
        } else {
            assert(r@ =~= text@ + seq![' ']);
        }
    }
    r
}

/// "`count` files".
pub open spec fn files_spec(count: u64) -> Seq<char> {
    decimal(count as nat) + " files"@
}

/// The number of files, as the listing shows it.
pub fn files_text(count: u64) -> (r: String)
    ensures
        r@ == files_spec(count),
{
    let mut r = String::new();
    push_decimal(&mut r, count as u128);
    r.append(" files");
    r
}

/// The file count a row shows: a directory's number of files, nothing for a
/// file.
pub fn count_text(is_dir: bool, count: u64) -> (r: String)
    ensures
        r@ == (if is_dir { files_spec(count) } else { Seq::empty() }),
{
    if is_dir {
        files_text(count)
    } else {
        String::new()
    }
}

/// The heading of the listing: the directory's path and its number of
/// files.
pub fn dir_heading(path: &str, count: u64) -> (r: String)
    ensures
        r@ == path@ + " ("@ + files_spec(count) + ")"@,
{
    let mut r = String::from_str(path);
    r.append(" (");
    let files = files_text(count);
    r.append(files.as_str());
    r.append(")");
    r
}

/// The heading of the file types view.
pub fn types_heading(path: &str, count: u64) -> (r: String)
    ensures
        r@ == "File types: "@ + path@ + " ("@ + files_spec(count) + ")"@,
{
    let mut r = String::from_str("File types: ");
    let rest = dir_heading(path, count);
    r.append(rest.as_str());
    proof {
        assert(r@ =~= "File types: "@ + path@ + " ("@ + files_spec(count) + ")"@);
    }
    r
}

/// The hint under the listing: what the keys do in the state shown.
pub open spec fn footer_spec(refreshing: bool, modal: ModalView) -> Seq<char> {
    if refreshing {
        " Refreshing..."@
    } else {
        match modal {
            ModalView::Closed => " ↑/k: up  ↓/j: down  ->/l/Enter: open  <-/h/Backspace: back  t: types  r: refresh  d: trash  D: delete  q: quit"@,
            ModalView::ConfirmTrash(_) | ModalView::ConfirmDelete(_) => " y/Enter: confirm  n/Esc: cancel"@,
            ModalView::Error(_) => " Enter/Esc: dismiss"@,
        }
    }
}

/// The hint under the listing.
pub fn footer_hint(refreshing: bool, modal: &Modal) -> (r: &'static str)
    ensures
        r@ == footer_spec(refreshing, modal@),
{
    if refreshing {
        " Refreshing..."
    } else {
        match modal {
            Modal::Closed => " ↑/k: up  ↓/j: down  ->/l/Enter: open  <-/h/Backspace: back  t: types  r: refresh  d: trash  D: delete  q: quit",
            Modal::ConfirmTrash(_) | Modal::ConfirmDelete(_) => " y/Enter: confirm  n/Esc: cancel",
            Modal::Error(_) => " Enter/Esc: dismiss",
        }
    }
}

/// The question a removal dialog asks about the item `name`.
pub fn confirm_message(is_trash: bool, name: &str) -> (r: String)
    ensures
        r@ == " "@ + (if is_trash { "Move to trash"@ } else { "Permanently delete"@ }) + " \""@ + name@
            + "\"? "@,
{
    let mut r = String::from_str(" ");
    r.append(if is_trash { "Move to trash" } else { "Permanently delete" });
    r.append(" \"");
    r.append(name);
    r.append("\"? ");
    r
}

/// The title of a removal dialog.
pub fn confirm_title(is_trash: bool) -> (r: &'static str)
    ensures
        r@ == (if is_trash { " Trash "@ } else { " Delete "@ }),
{
    if is_trash {
        " Trash "
    } else {
        " Delete "
    }
}

/// The width of a dialog showing `text`: four more than the text's length
/// in bytes (as a `u16`), at least `least`, and at most the screen's width
/// less four.
pub fn dialog_width(text: &str, least: u16, screen_width: u16) -> (w: u16)
    requires
        screen_width >= 4,
        text.len() % 0x10000 + 4 <= u16::MAX,
    ensures
        ({
            let base = text.len() % 0x10000 + 4;
            let wide = if base >= least { base } else { least as int };
            w == if wide <= screen_width - 4 { wide } else { screen_width - 4 }
        }),
{
    let len = (text.len() % 0x10000) as u16;
    let base = len + 4;
    let wide = if base >= least { base } else { least };
    let limit = screen_width - 4;
    if wide <= limit {
        wide
    } else {
        limit
    }
}

/// The area of a `width` by `height` box centred in the area at `x`, `y`
/// of `area_width` by `area_height`, cut to fit it.
pub fn centered_area(width: u16, height: u16, x: u16, y: u16, area_width: u16, area_height: u16) -> (r: (
    u16,
    u16,
    u16,
    u16,
))
    requires
        x + (if area_width >= width { (area_width - width) as int } else { 0 }) / 2 <= u16::MAX,
        y + (if area_height >= height { (area_height - height) as int } else { 0 }) / 2 <= u16::MAX,
    ensures
        r.0 == x + (if area_width >= width { (area_width - width) as int } else { 0 }) / 2,
        r.1 == y + (if area_height >= height { (area_height - height) as int } else { 0 }) / 2,
        r.2 == (if width <= area_width { width } else { area_width }),
        r.3 == (if height <= area_height { height } else { area_height }),
{
    let left = x + area_width.saturating_sub(width) / 2;
    let top = y + area_height.saturating_sub(height) / 2;
    let w = if width <= area_width { width } else { area_width };
    let h = if height <= area_height { height } else { area_height };
    (left, top, w, h)
}

/// The name a row shows for an item whose file name is `file_name`: the name,
/// or "?" when the path has none.
pub fn shown_name(file_name: Option<String>) -> (r: String)
    ensures
        r@ == match file_name {
            Some(n) => n@,
            None => "?"@,
        },
{
    match file_name {
        Some(n) => n,
        None => String::from_str("?"),
    }
}

/// The name a row shows for the item at `path`.
pub fn display_name(path: &str) -> (r: String)
    ensures
        r@ == match path_file_name(path@) {
            Some(n) => n,
            None => "?"@,
        },
{
    shown_name(file_name_of(path))
}

/// How a row is marked: an unreadable directory, another directory, or a
/// file.
#[derive(Clone, Copy, Debug, PartialEq, Eq, Structural)]
pub enum RowShade {
    Unreadable,
    Directory,
    File,
}

/// How the row of an item is marked.
pub fn row_shade(unable_to_read: bool, is_dir: bool) -> (r: RowShade)
    ensures
        r == (if unable_to_read {
            RowShade::Unreadable
        } else if is_dir {
            RowShade::Directory
        } else {
            RowShade::File
        }),
{
    if unable_to_read {
        RowShade::Unreadable
    } else if is_dir {
        RowShade::Directory
    } else {
        RowShade::File
    }
}

} // verus!
