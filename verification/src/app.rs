//! The state of the interactive browser and how keys change it.
use vstd::prelude::*;

use crate::arena::ARENA_LIMIT;
use crate::filetype::{breakdown, counted_size, counted_size_total, is_breakdown, FileTypeTotal};
use crate::listing::{visible_children, visible_order};
use crate::tree::{in_removal, is_ancestor, removal_result, tree_wf, DirTree, Node, NodeView};
use crate::trav::{is_error_message, DeleteMode, DiskardError};

verus! {

/// The dialog shown over the listing, if any.
pub enum Modal {
    Closed,
    ConfirmTrash(usize),
    ConfirmDelete(usize),
    Error(String),
}

/// The mathematical value of a dialog.
pub enum ModalView {
    Closed,
    ConfirmTrash(usize),
    ConfirmDelete(usize),
    Error(Seq<char>),
}

impl View for Modal {
    type V = ModalView;

    open spec fn view(&self) -> ModalView {
        match self {
            Modal::Closed => ModalView::Closed,
            Modal::ConfirmTrash(i) => ModalView::ConfirmTrash(*i),
            Modal::ConfirmDelete(i) => ModalView::ConfirmDelete(*i),
            Modal::Error(s) => ModalView::Error(s@),
        }
    }
}

/// A key press, as the browser tells keys apart.
#[derive(Clone, Copy, Debug, PartialEq, Eq, Structural)]
pub enum Key {
    Char(char),
    Up,
    Down,
    Left,
    Right,
    Enter,
    Esc,
    Backspace,
    Other,
}

/// What the caller does after a key press.
#[derive(Clone, Copy, Debug, PartialEq, Eq, Structural)]
pub enum Command {
    /// Draw the browser again and wait for the next key.
    Continue,
    /// Leave the browser.
    Quit,
    /// Scan the tree's root again and hand the result to `apply_refresh`.
    Refresh,
    /// Carry out `pending_removal` and hand the outcome to `finish_removal`.
    Confirm,
    /// The file type totals of the directory do not fit in 64 bits.
    SizeOverflow,
}

/// An item to remove from disk, as the confirmed dialog asks.
pub struct Removal {
    pub idx: usize,
    pub path: String,
    pub mode: DeleteMode,
    pub is_dir: bool,
}

/// The browser: the tree, the way down to the directory shown, the dialog,
/// and the file types view.
pub struct App {
    tree: DirTree,
    nav_stack: Vec<(usize, usize)>,
    list_selected: Option<usize>,
    modal: Modal,
    show_types: bool,
    type_rows: Vec<FileTypeTotal>,
    type_selected: Option<usize>,
    refreshing: bool,
}

/// The mathematical value of the browser's state.
pub struct AppView {
    pub tree: Seq<NodeView>,
    /// The directories entered, from the root, each with its selected row.
    pub nav: Seq<(usize, usize)>,
    /// The row the listing highlights.
    pub list_selected: Option<usize>,
    pub modal: ModalView,
    pub show_types: bool,
    pub type_rows: Seq<FileTypeTotal>,
    pub type_selected: Option<usize>,
    pub refreshing: bool,
}

impl View for App {
    type V = AppView;

    closed spec fn view(&self) -> AppView {
        AppView {
            tree: self.tree@,
            nav: self.nav_stack@,
            list_selected: self.list_selected,
            modal: self.modal@,
            show_types: self.show_types,
            type_rows: self.type_rows@,
            type_selected: self.type_selected,
            refreshing: self.refreshing,
        }
    }
}

// ---------------------------------------------------------------------------
// The state machine, over views.
// ---------------------------------------------------------------------------

/// A browser state that its operations can work on: a well-formed tree, at
/// least the root entered, every entered directory and dialog item within the
/// tree, and a file types selection within its rows.
pub open spec fn app_wf(a: AppView) -> bool {
    &&& tree_wf(a.tree)
    &&& a.nav.len() >= 1
    &&& forall|i: int| 0 <= i < a.nav.len() ==> (#[trigger] a.nav[i]).0 < a.tree.len() && a.nav[i].1 < usize::MAX
    &&& a.type_selected is Some ==> a.type_selected->0 < a.type_rows.len()
    &&& a.modal is ConfirmTrash ==> a.modal->ConfirmTrash_0 < a.tree.len()
    &&& a.modal is ConfirmDelete ==> a.modal->ConfirmDelete_0 < a.tree.len()
}

/// The directory shown.
pub open spec fn current_dir(a: AppView) -> int {
    a.nav.last().0 as int
}

/// The selected row of the directory shown.
pub open spec fn selected_row(a: AppView) -> int {
    a.nav.last().1 as int
}

/// The rows of the directory shown.
pub open spec fn listing(a: AppView) -> Seq<usize> {
    visible_order(a.tree, current_dir(a))
}

/// `a` with `row` selected in the directory shown.
pub open spec fn select_row(a: AppView, row: usize) -> AppView {
    AppView {
        nav: a.nav.update(a.nav.len() - 1, (a.nav.last().0, row)),
        list_selected: Some(row),
        ..a
    }
}

/// Selecting the row above, stopping at the first.
pub open spec fn move_up_spec(a: AppView) -> AppView {
    select_row(a, if selected_row(a) == 0 { 0 } else { (selected_row(a) - 1) as usize })
}

/// Selecting the row below, stopping at the last; nothing for an empty
/// listing.
pub open spec fn move_down_spec(a: AppView) -> AppView {
    let n = listing(a).len();
    if n == 0 {
        a
    } else {
        select_row(a, if selected_row(a) + 1 < n { (selected_row(a) + 1) as usize } else { (n - 1) as usize })
    }
}

/// Entering the selected row when it is a directory, with its first row
/// selected.
pub open spec fn enter_spec(a: AppView) -> AppView {
    let ch = listing(a);
    let s = selected_row(a);
    if s < ch.len() && a.tree[ch[s] as int].is_dir {
        AppView { nav: a.nav.push((ch[s], 0usize)), list_selected: Some(0usize), ..a }
    } else {
        a
    }
}

/// Leaving the directory shown for its parent, below the root, with the
/// parent's row selected again.
pub open spec fn go_back_spec(a: AppView) -> AppView {
    if a.nav.len() > 1 {
        AppView { nav: a.nav.drop_last(), list_selected: Some(a.nav.drop_last().last().1), ..a }
    } else {
        a
    }
}

/// Asking to confirm removing the selected row, to the trash or for good.
pub open spec fn prompt_spec(a: AppView, trash: bool) -> AppView {
    let ch = listing(a);
    let s = selected_row(a);
    if s < ch.len() {
        AppView {
            modal: if trash {
                ModalView::ConfirmTrash(ch[s])
            } else {
                ModalView::ConfirmDelete(ch[s])
            },
            ..a
        }
    } else {
        a
    }
}

/// Closing the dialog.
pub open spec fn cancel_spec(a: AppView) -> AppView {
    AppView { modal: ModalView::Closed, ..a }
}

/// Keeping the selection within the listing: the last row when it points
/// past the end, row 0 for an empty listing.
pub open spec fn adjust_spec(a: AppView) -> AppView {
    let n = listing(a).len();
    if n == 0 {
        select_row(a, 0)
    } else {
        select_row(a, if selected_row(a) < n { selected_row(a) as usize } else { (n - 1) as usize })
    }
}

/// Opening the file types view: `b` holds the breakdown of the directory shown.
pub open spec fn opened_types(a: AppView, b: AppView) -> bool {
    &&& is_breakdown(a.tree, current_dir(a), b.type_rows)
    &&& b == AppView {
        type_rows: b.type_rows,
        type_selected: if b.type_rows.len() > 0 { Some(0usize) } else { None },
        show_types: true,
        ..a
    }
}

/// Selecting the file type row above, stopping at the first.
pub open spec fn type_up_spec(a: AppView) -> AppView {
    match a.type_selected {
        Some(s) => AppView { type_selected: Some(if s == 0 { 0 } else { (s - 1) as usize }), ..a },
        None => a,
    }
}

/// Selecting the file type row below, stopping at the last.
pub open spec fn type_down_spec(a: AppView) -> AppView {
    match a.type_selected {
        Some(s) => AppView {
            type_selected: Some(
                if s + 1 < a.type_rows.len() { (s + 1) as usize } else { (a.type_rows.len() - 1) as usize },
            ),
            ..a
        },
        None => a,
    }
}

/// The key is the character `c`.
pub open spec fn is_char(key: Key, c: char) -> bool {
    key == Key::Char(c)
}

/// What a key press does: `a` becomes `b`, and the caller is told `cmd`.
pub open spec fn key_step(a: AppView, key: Key, b: AppView, cmd: Command) -> bool {
    if a.show_types {
        if is_char(key, 'q') {
            b == a && cmd == Command::Quit
        } else if is_char(key, 't') || key == Key::Esc {
            b == (AppView { show_types: false, ..a }) && cmd == Command::Continue
        } else if key == Key::Up || is_char(key, 'k') {
            b == type_up_spec(a) && cmd == Command::Continue
        } else if key == Key::Down || is_char(key, 'j') {
            b == type_down_spec(a) && cmd == Command::Continue
        } else {
            b == a && cmd == Command::Continue
        }
    } else {
        match a.modal {
            ModalView::Closed => {
                if is_char(key, 'q') || key == Key::Esc {
                    b == a && cmd == Command::Quit
                } else if key == Key::Up || is_char(key, 'k') {
                    b == move_up_spec(a) && cmd == Command::Continue
                } else if key == Key::Down || is_char(key, 'j') {
                    b == move_down_spec(a) && cmd == Command::Continue
                } else if key == Key::Right || key == Key::Enter || is_char(key, 'l') {
                    b == enter_spec(a) && cmd == Command::Continue
                } else if key == Key::Left || key == Key::Backspace || is_char(key, 'h') {
                    b == go_back_spec(a) && cmd == Command::Continue
                } else if is_char(key, 't') {
                    if counted_size(a.tree, current_dir(a), a.tree.len() as int) <= u64::MAX {
                        opened_types(a, b) && cmd == Command::Continue
                    } else {
                        b == a && cmd == Command::SizeOverflow
                    }
                } else if is_char(key, 'd') {
                    b == prompt_spec(a, true) && cmd == Command::Continue
                } else if is_char(key, 'D') {
                    b == prompt_spec(a, false) && cmd == Command::Continue
                } else if is_char(key, 'r') {
                    b == a && cmd == Command::Refresh
                } else {
                    b == a && cmd == Command::Continue
                }
            },
            ModalView::ConfirmTrash(_) | ModalView::ConfirmDelete(_) => {
                if is_char(key, 'y') || key == Key::Enter {
                    b == a && cmd == Command::Confirm
                } else if is_char(key, 'n') || key == Key::Esc {
                    b == cancel_spec(a) && cmd == Command::Continue
                } else {
                    b == a && cmd == Command::Continue
                }
            },
            ModalView::Error(_) => {
                if is_char(key, 'q') || key == Key::Esc || key == Key::Enter {
                    b == cancel_spec(a) && cmd == Command::Continue
                } else {
                    b == a && cmd == Command::Continue
                }
            },
        }
    }
}

impl App {
    /// The browser's state is one its operations can work on.
    pub closed spec fn wf(&self) -> bool {
        &&& self.tree.wf()
        &&& app_wf(self@)
    }

    /// A browser in a state its operations can work on has a well-formed
    /// state view.
    pub proof fn lemma_wf(&self)
        requires
            self.wf(),
        ensures
            app_wf(self@),
    {
    }

    /// A browser at the root of `tree`, on its first row.
    pub fn new(tree: DirTree) -> (app: App)
        requires
            tree.wf(),
        ensures
            app.wf(),
            app@ == (AppView {
                tree: tree@,
                nav: seq![(0usize, 0usize)],
                list_selected: Some(0usize),
                modal: ModalView::Closed,
                show_types: false,
                type_rows: Seq::empty(),
                type_selected: None,
                refreshing: false,
            }),
    {
        let root = tree.root();
        proof {
            tree.lemma_wf_shape();
        }
        let app = App {
            tree,
            nav_stack: vec![(root, 0)],
            list_selected: Some(0),
            modal: Modal::Closed,
            show_types: false,
            type_rows: Vec::new(),
            type_selected: None,
            refreshing: false,
        };
        assert(app@.nav =~= seq![(0usize, 0usize)]);
        app
    }

    /// The directory shown.
    pub fn current_node_idx(&self) -> (r: usize)
        requires
            self.wf(),
        ensures
            r == current_dir(self@),
    {
        self.nav_stack[self.nav_stack.len() - 1].0
    }

    /// The selected row of the directory shown.
    pub fn selected_idx(&self) -> (r: usize)
        requires
            self.wf(),
        ensures
            r == selected_row(self@),
    {
        self.nav_stack[self.nav_stack.len() - 1].1
    }

    /// The rows of the directory shown.
    pub fn children(&self) -> (r: Vec<usize>)
        requires
            self.wf(),
        ensures
            r@ == listing(self@),
            forall|i: int| 0 <= i < r@.len() ==> #[trigger] r@[i] < self@.tree.len(),
    {
        let cur = self.current_node_idx();
        visible_children(&self.tree, cur)
    }

    /// Selects `row` of the directory shown.
    fn set_selected(&mut self, row: usize)
        requires
            old(self).wf(),
            row < usize::MAX,
        ensures
            final(self).wf(),
            final(self)@ == select_row(old(self)@, row),
    {
        let last = self.nav_stack.len() - 1;
        let dir = self.nav_stack[last].0;
        self.nav_stack.set(last, (dir, row));
        self.list_selected = Some(row);
        proof {
            assert(self@.nav =~= old(self)@.nav.update(last as int, (dir, row)));
            assert(self@ == select_row(old(self)@, row));
        }
    }

    /// Selects the row above, stopping at the first.
    pub fn move_up(&mut self)
        requires
            old(self).wf(),
        ensures
            final(self).wf(),
            final(self)@ == move_up_spec(old(self)@),
    {
        let selected = self.selected_idx();
        let new_selected = selected.saturating_sub(1);
        self.set_selected(new_selected);
    }

    /// Selects the row below, stopping at the last.
    pub fn move_down(&mut self)
        requires
            old(self).wf(),
        ensures
            final(self).wf(),
            final(self)@ == move_down_spec(old(self)@),
    {
        let children_len = self.children().len();
        if children_len == 0 {
            return;
        }
        let selected = self.selected_idx();
        let next = selected + 1;
        let new_selected = if next < children_len { next } else { children_len - 1 };
        self.set_selected(new_selected);
    }

    /// Enters the selected row when it is a directory.
    pub fn enter(&mut self)
        requires
            old(self).wf(),
        ensures
            final(self).wf(),
            final(self)@ == enter_spec(old(self)@),
    {
        let children = self.children();
        if children.len() == 0 {
            return;
        }
        let selected = self.selected_idx();
        if selected >= children.len() {
            return;
        }
        let child_idx = children[selected];
        let node = self.tree.get_node(child_idx);
        if node.is_dir {
            self.nav_stack.push((child_idx, 0));
            self.list_selected = Some(0);
            proof {
                assert forall|i: int| 0 <= i < self@.nav.len() implies (#[trigger] self@.nav[i]).0
                    < self@.tree.len() && self@.nav[i].1 < usize::MAX by {
                    if i < old(self)@.nav.len() {
                        assert(self@.nav[i] == old(self)@.nav[i]);
                    }
                }
            }
        }
    }

    /// Goes back to the parent directory, unless at the root.
    pub fn go_back(&mut self)
        requires
            old(self).wf(),
        ensures
            final(self).wf(),
            final(self)@ == go_back_spec(old(self)@),
    {
        if self.nav_stack.len() > 1 {
            self.nav_stack.pop();
            let selected = self.selected_idx();
            self.list_selected = Some(selected);
            proof {
                assert(self@.nav =~= old(self)@.nav.drop_last());
                assert forall|i: int| 0 <= i < self@.nav.len() implies (#[trigger] self@.nav[i]).0
                    < self@.tree.len() && self@.nav[i].1 < usize::MAX by {
                    assert(self@.nav[i] == old(self)@.nav[i]);
                }
            }
        }
    }

    /// Asks to confirm moving the selected row to the trash.
    pub fn prompt_trash(&mut self)
        requires
            old(self).wf(),
        ensures
            final(self).wf(),
            final(self)@ == prompt_spec(old(self)@, true),
    {
        let children = self.children();
        if children.len() == 0 {
            return;
        }
        let selected = self.selected_idx();
        if selected >= children.len() {
            return;
        }
        self.modal = Modal::ConfirmTrash(children[selected]);
    }

    /// Asks to confirm deleting the selected row for good.
    pub fn prompt_delete(&mut self)
        requires
            old(self).wf(),
        ensures
            final(self).wf(),
            final(self)@ == prompt_spec(old(self)@, false),
    {
        let children = self.children();
        if children.len() == 0 {
            return;
        }
        let selected = self.selected_idx();
        if selected >= children.len() {
            return;
        }
        self.modal = Modal::ConfirmDelete(children[selected]);
    }

    /// Closes the dialog.
    pub fn cancel_modal(&mut self)
        requires
            old(self).wf(),
        ensures
            final(self).wf(),
            final(self)@ == cancel_spec(old(self)@),
    {
        self.modal = Modal::Closed;
    }

    /// Keeps the selection on a row of the directory shown.
    pub fn adjust_selection(&mut self)
        requires
            old(self).wf(),
        ensures
            final(self).wf(),
            final(self)@ == adjust_spec(old(self)@),
    {
        let new_len = self.children().len();
        let selected = self.selected_idx();
        if new_len == 0 {
            self.set_selected(0);
        } else {
            let new_selected = if selected < new_len { selected } else { new_len - 1 };
            self.set_selected(new_selected);
        }
    }

    /// Shows the file types view of the directory shown.
    pub fn open_types(&mut self)
        requires
            old(self).wf(),
            counted_size(old(self)@.tree, current_dir(old(self)@), old(self)@.tree.len() as int)
                <= u64::MAX,
        ensures
            final(self).wf(),
            opened_types(old(self)@, final(self)@),
    {
        let cur = self.current_node_idx();
        self.type_rows = breakdown(&self.tree, cur);
        self.type_selected = if self.type_rows.len() > 0 { Some(0) } else { None };
        self.show_types = true;
    }

    /// Selects the file type row above, stopping at the first.
    pub fn type_up(&mut self)
        requires
            old(self).wf(),
        ensures
            final(self).wf(),
            final(self)@ == type_up_spec(old(self)@),
    {
        match self.type_selected {
            Some(selected) => self.type_selected = Some(selected.saturating_sub(1)),
            None => {},
        }
    }

    /// Selects the file type row below, stopping at the last.
    pub fn type_down(&mut self)
        requires
            old(self).wf(),
        ensures
            final(self).wf(),
            final(self)@ == type_down_spec(old(self)@),
    {
        match self.type_selected {
            Some(selected) => {
                let last = self.type_rows.len() - 1;
                let next = selected + 1;
                self.type_selected = Some(if next < last { next } else { last });
            },
            None => {},
        }
    }

    /// Reacts to a key press as the browser does: moves, opens, prompts,
    /// dismisses, or tells the caller to quit, refresh or carry out a removal.
    pub fn handle_key(&mut self, key: Key) -> (cmd: Command)
        requires
            old(self).wf(),
        ensures
            final(self).wf(),
            key_step(old(self)@, key, final(self)@, cmd),
    {
        if self.show_types {
            if key == Key::Char('q') {
                return Command::Quit;
            } else if key == Key::Char('t') || key == Key::Esc {
                self.show_types = false;
            } else if key == Key::Up || key == Key::Char('k') {
                self.type_up();
            } else if key == Key::Down || key == Key::Char('j') {
                self.type_down();
            }
            return Command::Continue;
        }
        match &self.modal {
            Modal::Closed => {
                if key == Key::Char('q') || key == Key::Esc {
                    Command::Quit
                } else if key == Key::Up || key == Key::Char('k') {
                    self.move_up();
                    Command::Continue
                } else if key == Key::Down || key == Key::Char('j') {
                    self.move_down();
                    Command::Continue
                } else if key == Key::Right || key == Key::Enter || key == Key::Char('l') {
                    self.enter();
                    Command::Continue
                } else if key == Key::Left || key == Key::Backspace || key == Key::Char('h') {
                    self.go_back();
                    Command::Continue
                } else if key == Key::Char('t') {
                    let cur = self.current_node_idx();
                    match counted_size_total(&self.tree, cur) {
                        Some(_) => {
                            self.open_types();
                            Command::Continue
                        },
                        None => Command::SizeOverflow,
                    }
                } else if key == Key::Char('d') {
                    self.prompt_trash();
                    Command::Continue
                } else if key == Key::Char('D') {
                    self.prompt_delete();
                    Command::Continue
                } else if key == Key::Char('r') {
                    Command::Refresh
                } else {
                    Command::Continue
                }
            },
            Modal::ConfirmTrash(_) | Modal::ConfirmDelete(_) => {
                if key == Key::Char('y') || key == Key::Enter {
                    Command::Confirm
                } else if key == Key::Char('n') || key == Key::Esc {
                    self.cancel_modal();
                    Command::Continue
                } else {
                    Command::Continue
                }
            },
            Modal::Error(_) => {
                if key == Key::Char('q') || key == Key::Esc || key == Key::Enter {
                    self.cancel_modal();
                }
                Command::Continue
            },
        }
    }

    /// The removal that the open dialog asks to confirm.
    pub fn pending_removal(&self) -> (r: Option<Removal>)
        requires
            self.wf(),
        ensures
            match self@.modal {
                ModalView::ConfirmTrash(i) => r matches Some(rm) && rm.idx == i && rm.path@
                    == self@.tree[i as int].path && rm.mode == DeleteMode::Trash && rm.is_dir
                    == self@.tree[i as int].is_dir,
                ModalView::ConfirmDelete(i) => r matches Some(rm) && rm.idx == i && rm.path@
                    == self@.tree[i as int].path && rm.mode == DeleteMode::Permanent && rm.is_dir
                    == self@.tree[i as int].is_dir,
                _ => r is None,
            },
    {
        match &self.modal {
            Modal::ConfirmTrash(idx) => {
                let node = self.tree.get_node(*idx);
                Some(Removal { idx: *idx, path: node.path.clone(), mode: DeleteMode::Trash, is_dir: node.is_dir })
            },
            Modal::ConfirmDelete(idx) => {
                let node = self.tree.get_node(*idx);
                Some(Removal { idx: *idx, path: node.path.clone(), mode: DeleteMode::Permanent, is_dir: node.is_dir })
            },
            _ => None,
        }
    }

    /// Takes in the outcome of the confirmed removal: on success the item
    /// leaves the tree, its size leaves its ancestors, the selection is kept
    /// in range and the dialog closes; on failure an error dialog says why.
    pub fn finish_removal(&mut self, outcome: Result<(), String>)
        requires
            old(self).wf(),
        ensures
            final(self).wf(),
            match old(self)@.modal {
                ModalView::ConfirmTrash(i) => match outcome {
                    Ok(_) => final(self)@ == removed_spec(old(self)@, i),
                    Err(e) => final(self)@ == (AppView {
                        modal: ModalView::Error("Trash failed: "@ + e@),
                        ..old(self)@
                    }),
                },
                ModalView::ConfirmDelete(i) => match outcome {
                    Ok(_) => final(self)@ == removed_spec(old(self)@, i),
                    Err(e) => final(self)@ == (AppView {
                        modal: ModalView::Error("Delete failed: "@ + e@),
                        ..old(self)@
                    }),
                },
                _ => final(self)@ == old(self)@,
            },
    {
        let (idx, trash) = match &self.modal {
            Modal::ConfirmTrash(idx) => (*idx, true),
            Modal::ConfirmDelete(idx) => (*idx, false),
            _ => return,
        };
        match outcome {
            Ok(_) => {
                self.tree.delete_node(idx, true);
                proof {
                    self.tree.lemma_wf_shape();
                }
                self.adjust_selection();
                self.modal = Modal::Closed;
            },
            Err(e) => {
                let mut msg = if trash {
                    String::from_str("Trash failed: ")
                } else {
                    String::from_str("Delete failed: ")
                };
                msg.append(e.as_str());
                self.modal = Modal::Error(msg);
            },
        }
    }

    /// The tree browsed.
    pub fn tree(&self) -> (r: &DirTree)
        requires
            self.wf(),
        ensures
            r.wf(),
            r@ == self@.tree,
    {
        &self.tree
    }

    /// The directories entered, from the root, each with its selected row.
    pub fn nav_stack(&self) -> (r: &Vec<(usize, usize)>)
        ensures
            r@ == self@.nav,
    {
        &self.nav_stack
    }

    /// The row the listing highlights.
    pub fn list_selected(&self) -> (r: Option<usize>)
        ensures
            r == self@.list_selected,
    {
        self.list_selected
    }

    /// The dialog shown.
    pub fn modal(&self) -> (r: &Modal)
        ensures
            r@ == self@.modal,
    {
        &self.modal
    }

    /// Whether the file types view is shown.
    pub fn show_types(&self) -> (r: bool)
        ensures
            r == self@.show_types,
    {
        self.show_types
    }

    /// The rows of the file types view.
    pub fn type_rows(&self) -> (r: &Vec<FileTypeTotal>)
        ensures
            r@ == self@.type_rows,
    {
        &self.type_rows
    }

    /// The file type row highlighted.
    pub fn type_selected(&self) -> (r: Option<usize>)
        ensures
            r == self@.type_selected,
    {
        self.type_selected
    }

    /// Whether a rescan is under way.
    pub fn refreshing(&self) -> (r: bool)
        ensures
            r == self@.refreshing,
    {
        self.refreshing
    }

    /// Marks the state as waiting for a rescan, or done with it.
    pub fn set_refreshing(&mut self, refreshing: bool)
        requires
            old(self).wf(),
        ensures
            final(self).wf(),
            final(self)@ == (AppView { refreshing, ..old(self)@ }),
    {
        self.refreshing = refreshing;
    }
}

/// The state after the item `i` was removed from disk.
pub open spec fn removed_spec(a: AppView, i: usize) -> AppView {
    AppView {
        modal: ModalView::Closed,
        ..adjust_spec(AppView { tree: removal_result(a.tree, i as int, true), ..a })
    }
}

// ---------------------------------------------------------------------------
// Refreshing: the directories entered are found again in the new tree.
// ---------------------------------------------------------------------------

/// What is remembered of one entered directory across a rescan: its path,
/// the path of its selected row (if that row exists), and the row.
pub type SavedLevel = (PathId, Option<PathId>, usize);

/// A path as text and as the bytes recorded for it; two nodes have the same
/// path when both agree.
pub type PathId = (Seq<char>, Seq<u8>);

/// The path of a node, by its text and its recorded bytes.
pub open spec fn path_id(n: NodeView) -> PathId {
    (n.path, n.raw_path)
}

/// What is remembered of the `i`-th entered directory.
pub open spec fn saved_level(a: AppView, i: int) -> SavedLevel {
    let d = a.nav[i].0;
    let row = a.nav[i].1;
    let ch = visible_order(a.tree, d as int);
    (
        path_id(a.tree[d as int]),
        if row < ch.len() {
            Some(path_id(a.tree[ch[row as int] as int]))
        } else {
            None
        },
        row,
    )
}

/// What is remembered of every entered directory.
pub open spec fn saved_levels(a: AppView) -> Seq<SavedLevel> {
    Seq::new(a.nav.len(), |i: int| saved_level(a, i))
}

/// The first row, from `k` on, whose node has path `w`.
pub open spec fn row_with_path(t: Seq<NodeView>, ch: Seq<usize>, w: PathId, k: int) -> Option<int>
    decreases ch.len() - k,
{
    if k < 0 || k >= ch.len() {
        None
    } else if path_id(t[ch[k] as int]) == w {
        Some(k)
    } else {
        row_with_path(t, ch, w, k + 1)
    }
}

/// The first row, from `k` on, that is a directory with path `w`.
pub open spec fn dir_with_path(t: Seq<NodeView>, ch: Seq<usize>, w: PathId, k: int) -> Option<int>
    decreases ch.len() - k,
{
    if k < 0 || k >= ch.len() {
        None
    } else if t[ch[k] as int].is_dir && path_id(t[ch[k] as int]) == w {
        Some(k)
    } else {
        dir_with_path(t, ch, w, k + 1)
    }
}

/// The row to select again: the one with the remembered path, or else the
/// remembered row kept within the listing.
pub open spec fn restored_row(t: Seq<NodeView>, ch: Seq<usize>, wanted: Option<PathId>, old_row: usize) -> usize {
    let fallback = if old_row < ch.len() {
        old_row
    } else if ch.len() == 0 {
        0usize
    } else {
        (ch.len() - 1) as usize
    };
    match wanted {
        Some(w) => match row_with_path(t, ch, w, 0) {
            Some(k) => k as usize,
            None => fallback,
        },
        None => fallback,
    }
}

/// The entered directories found again in `t`, from `level` on, starting at
/// node `current`: each level keeps its path, and the walk stops where a
/// path is no longer there.
pub open spec fn restored_nav(t: Seq<NodeView>, saved: Seq<SavedLevel>, level: int, current: int) -> Seq<(usize, usize)>
    decreases saved.len() - level,
{
    if level < 0 || level >= saved.len() || path_id(t[current]) != saved[level].0 {
        Seq::empty()
    } else {
        let ch = visible_order(t, current);
        let entry = (current as usize, restored_row(t, ch, saved[level].1, saved[level].2));
        if level + 1 < saved.len() {
            match dir_with_path(t, ch, saved[level + 1].0, 0) {
                Some(k) => seq![entry] + restored_nav(t, saved, level + 1, ch[k] as int),
                None => seq![entry],
            }
        } else {
            seq![entry]
        }
    }
}

/// The state after a rescan produced the tree `t`.
pub open spec fn refreshed_spec(a: AppView, t: Seq<NodeView>) -> AppView {
    let found = restored_nav(t, saved_levels(a), 0, 0);
    let nav = if found.len() == 0 {
        seq![(0usize, 0usize)]
    } else {
        found
    };
    let b = AppView { tree: t, nav, ..a };
    AppView {
        list_selected: if listing(b).len() == 0 {
            None
        } else {
            Some(selected_row(b) as usize)
        },
        type_rows: Seq::empty(),
        type_selected: None,
        modal: ModalView::Closed,
        ..b
    }
}

/// The remembered levels that executable values hold.
pub open spec fn saved_view(s: Seq<((String, Vec<u8>), Option<(String, Vec<u8>)>, usize)>) -> Seq<SavedLevel> {
    s.map_values(
        |x: ((String, Vec<u8>), Option<(String, Vec<u8>)>, usize)|
            (
                (x.0.0@, x.0.1@),
                match x.1 {
                    Some(p) => Some((p.0@, p.1@)),
                    None => None,
                },
                x.2,
            ),
    )
}

/// The path a pair of text and bytes holds.
pub open spec fn id_view(w: (String, Vec<u8>)) -> PathId {
    (w.0@, w.1@)
}

/// A copy of `b`.
fn copy_bytes(b: &Vec<u8>) -> (r: Vec<u8>)
    ensures
        r@ == b@,
{
    let mut r: Vec<u8> = Vec::new();
    let mut k: usize = 0;
    while k < b.len()
        invariant
            k <= b@.len(),
            r@ == b@.take(k as int),
        decreases b@.len() - k,
    {
        r.push(b[k]);
        proof {
            assert(b@.take(k + 1) =~= b@.take(k as int).push(b@[k as int]));
        }
        k += 1;
    }
    assert(b@.take(b@.len() as int) =~= b@);
    r
}

/// Whether `a` and `b` hold the same bytes.
fn same_bytes(a: &Vec<u8>, b: &Vec<u8>) -> (r: bool)
    ensures
        r == (a@ == b@),
{
    if a.len() != b.len() {
        return false;
    }
    let mut k: usize = 0;
    while k < a.len()
        invariant
            a@.len() == b@.len(),
            k <= a@.len(),
            forall|i: int| 0 <= i < k ==> a@[i] == b@[i],
        decreases a@.len() - k,
    {
        if a[k] != b[k] {
            return false;
        }
        k += 1;
    }
    assert(a@ =~= b@);
    true
}

/// The path of a node, as text and bytes.
fn path_of(node: &Node) -> (p: (String, Vec<u8>))
    ensures
        id_view(p) == path_id(node@),
{
    (node.path.clone(), copy_bytes(&node.raw_path))
}

/// Whether a node has the path `w`.
fn has_path(node: &Node, w: &(String, Vec<u8>)) -> (r: bool)
    ensures
        r == (path_id(node@) == id_view(*w)),
{
    node.path == w.0 && same_bytes(&node.raw_path, &w.1)
}

/// The first row whose node has path `w`.
fn first_row_with_path(tree: &DirTree, ch: &Vec<usize>, w: &(String, Vec<u8>)) -> (r: Option<usize>)
    requires
        forall|i: int| 0 <= i < ch@.len() ==> #[trigger] ch@[i] < tree@.len(),
    ensures
        r matches Some(k) ==> row_with_path(tree@, ch@, id_view(*w), 0) == Some(k as int) && k < ch@.len(),
        r is None ==> row_with_path(tree@, ch@, id_view(*w), 0) is None,
{
    let mut k: usize = 0;
    while k < ch.len()
        invariant
            forall|i: int| 0 <= i < ch@.len() ==> #[trigger] ch@[i] < tree@.len(),
            k <= ch@.len(),
            row_with_path(tree@, ch@, id_view(*w), 0) == row_with_path(tree@, ch@, id_view(*w), k as int),
        decreases ch@.len() - k,
    {
        if has_path(tree.get_node(ch[k]), w) {
            return Some(k);
        }
        k += 1;
    }
    None
}

/// The first row that is a directory with path `w`.
fn first_dir_with_path(tree: &DirTree, ch: &Vec<usize>, w: &(String, Vec<u8>)) -> (r: Option<usize>)
    requires
        forall|i: int| 0 <= i < ch@.len() ==> #[trigger] ch@[i] < tree@.len(),
    ensures
        r matches Some(k) ==> dir_with_path(tree@, ch@, id_view(*w), 0) == Some(k as int) && k < ch@.len(),
        r is None ==> dir_with_path(tree@, ch@, id_view(*w), 0) is None,
{
    let mut k: usize = 0;
    while k < ch.len()
        invariant
            forall|i: int| 0 <= i < ch@.len() ==> #[trigger] ch@[i] < tree@.len(),
            k <= ch@.len(),
            dir_with_path(tree@, ch@, id_view(*w), 0) == dir_with_path(tree@, ch@, id_view(*w), k as int),
        decreases ch@.len() - k,
    {
        let node = tree.get_node(ch[k]);
        if node.is_dir && has_path(node, w) {
            return Some(k);
        }
        k += 1;
    }
    None
}

impl App {
    /// The path of the tree's root, to scan again.
    pub fn root_path(&self) -> (p: String)
        requires
            self.wf(),
        ensures
            p@ == self@.tree[0].path,
    {
        let root = self.tree.root();
        self.tree.get_node(root).path.clone()
    }

    /// Remembers every entered directory by path, before a rescan.
    fn saved_levels(&self) -> (s: Vec<((String, Vec<u8>), Option<(String, Vec<u8>)>, usize)>)
        requires
            self.wf(),
        ensures
            saved_view(s@) == saved_levels(self@),
    {
        let ghost a = self@;
        let mut s: Vec<((String, Vec<u8>), Option<(String, Vec<u8>)>, usize)> = Vec::new();
        let mut i: usize = 0;
        while i < self.nav_stack.len()
            invariant
                self.wf(),
                a == self@,
                i <= a.nav.len(),
                saved_view(s@) == saved_levels(a).take(i as int),
            decreases a.nav.len() - i,
        {
            let (dir_idx, row) = self.nav_stack[i];
            assert(a.nav[i as int] == (dir_idx, row));
            let directory_path = path_of(self.tree.get_node(dir_idx));
            let children = visible_children(&self.tree, dir_idx);
            let selected_path = if row < children.len() {
                Some(path_of(self.tree.get_node(children[row])))
            } else {
                None
            };
            let ghost before = s@;
            s.push((directory_path, selected_path, row));
            proof {
                assert(saved_view(s@) =~= saved_view(before).push(saved_level(a, i as int)));
                assert(saved_levels(a).take(i + 1) =~= saved_levels(a).take(i as int).push(saved_level(a, i as int)));
            }
            i += 1;
        }
        assert(saved_levels(a).take(a.nav.len() as int) =~= saved_levels(a));
        s
    }

    /// Takes in a rescan of the tree: on success the new tree replaces the
    /// old one, the entered directories are found again by path (as deep as
    /// they still exist), each keeps its selected item (by path, or else by
    /// row), the type rows are dropped and dialogs close; on failure an
    /// error dialog says why.
    pub fn apply_refresh(&mut self, outcome: Result<DirTree, DiskardError>)
        requires
            old(self).wf(),
            outcome matches Ok(t) ==> t.wf(),
        ensures
            final(self).wf(),
            match outcome {
                Ok(t) => final(self)@ == refreshed_spec(old(self)@, t@),
                Err(e) => exists|m: Seq<char>|
                    is_error_message(e, m) && final(self)@ == (AppView {
                        modal: ModalView::Error("Refresh failed: "@ + m),
                        ..old(self)@
                    }),
            },
    {
        let saved = self.saved_levels();
        let new_tree = match outcome {
            Ok(tree) => tree,
            Err(error) => {
                let mut msg = String::from_str("Refresh failed: ");
                let text = error.message();
                msg.append(text.as_str());
                self.modal = Modal::Error(msg);
                return;
            },
        };
        proof {
            new_tree.lemma_wf_shape();
        }
        let ghost t = new_tree@;
        let ghost sv = saved_view(saved@);
        let mut new_stack: Vec<(usize, usize)> = Vec::new();
        let mut current = new_tree.root();
        let mut level: usize = 0;
        let mut done = false;
        while !done
            invariant
                new_tree.wf(),
                t == new_tree@,
                tree_wf(t),
                sv == saved_view(saved@),
                sv.len() == saved@.len(),
                sv.len() >= 1,
                level < sv.len(),
                current < t.len(),
                forall|i: int| 0 <= i < new_stack@.len() ==> (#[trigger] new_stack@[i]).0 < t.len()
                    && new_stack@[i].1 < usize::MAX,
                done ==> new_stack@ == restored_nav(t, sv, 0, 0),
                !done ==> new_stack@ + restored_nav(t, sv, level as int, current as int) == restored_nav(t, sv, 0, 0),
            decreases sv.len() - level + if done { 0int } else { 1int },
        {
            let ghost before = new_stack@;
            let (directory_path, selected_path, old_row) = &saved[level];
            assert(sv[level as int].0 == id_view(*directory_path));
            if !has_path(new_tree.get_node(current), directory_path) {
                proof {
                    assert(before + Seq::<(usize, usize)>::empty() =~= before);
                }
                done = true;
            } else {
                let children = visible_children(&new_tree, current);
                let fallback = if *old_row < children.len() {
                    *old_row
                } else if children.len() == 0 {
                    0
                } else {
                    children.len() - 1
                };
                let selected_row = match selected_path {
                    Some(wanted) => match first_row_with_path(&new_tree, &children, wanted) {
                        Some(k) => k,
                        None => fallback,
                    },
                    None => fallback,
                };
                proof {
                    assert(selected_row == restored_row(t, children@, sv[level as int].1, sv[level as int].2));
                }
                new_stack.push((current, selected_row));
                assert(level < saved.len());
                if level + 1 >= saved.len() {
                    proof {
                        assert(new_stack@ =~= before + restored_nav(t, sv, level as int, current as int));
                    }
                    done = true;
                } else {
                    let (next_path, _, _) = &saved[level + 1];
                    assert(sv[level + 1].0 == id_view(*next_path));
                    match first_dir_with_path(&new_tree, &children, next_path) {
                        Some(k) => {
                            proof {
                                let rest = restored_nav(t, sv, level + 1, children@[k as int] as int);
                                assert(restored_nav(t, sv, level as int, current as int) == seq![
                                    (current, selected_row),
                                ] + rest);
                                assert(before + (seq![(current, selected_row)] + rest) =~= new_stack@ + rest);
                            }
                            current = children[k];
                            level = level + 1;
                        },
                        None => {
                            proof {
                                assert(new_stack@ =~= before + restored_nav(t, sv, level as int, current as int));
                            }
                            done = true;
                        },
                    }
                }
            }
        }
        if new_stack.len() == 0 {
            new_stack.push((0, 0));
            assert(new_stack@ =~= seq![(0usize, 0usize)]);
        }
        self.tree = new_tree;
        self.nav_stack = new_stack;
        self.type_rows = Vec::new();
        self.type_selected = None;
        self.modal = Modal::Closed;
        let selection = if self.children().len() == 0 {
            None
        } else {
            Some(self.selected_idx())
        };
        self.list_selected = selection;
        proof {
            assert(saved_levels(old(self)@) == sv);
            assert(self@ == refreshed_spec(old(self)@, t));
        }
    }
}

// ---------------------------------------------------------------------------
// Laws of the browser.
// ---------------------------------------------------------------------------

/// Entering a directory and going back returns to the same directories, with
/// the same rows selected.
pub proof fn lemma_enter_then_back(a: AppView)
    requires
        app_wf(a),
        enter_spec(a).nav.len() > a.nav.len(),
    ensures
        go_back_spec(enter_spec(a)).nav == a.nav,
        go_back_spec(enter_spec(a)).list_selected == Some(selected_row(a) as usize),
{
    let b = enter_spec(a);
    assert(b.nav.drop_last() =~= a.nav);
}

/// Moving down a non-empty listing always lands on one of its rows, and so
/// does moving up from one of its rows.
pub proof fn lemma_moves_stay_in_listing(a: AppView)
    requires
        app_wf(a),
        listing(a).len() > 0,
    ensures
        listing(move_down_spec(a)) == listing(a),
        selected_row(move_down_spec(a)) < listing(a).len(),
        listing(move_up_spec(a)) == listing(a),
        selected_row(a) < listing(a).len() ==> selected_row(move_up_spec(a)) < listing(a).len(),
{
}

/// A removal prompt that is cancelled leaves the browser as it was.
pub proof fn lemma_prompt_then_cancel(a: AppView, trash: bool)
    requires
        a.modal == ModalView::Closed,
    ensures
        cancel_spec(prompt_spec(a, trash)) == a,
{
}

/// Every directory found again after a rescan has the path that the
/// directory at its depth had before, and each one below the first is a
/// directory listed in the one above it.
#[verifier::spinoff_prover]
#[verifier::rlimit(40)]
pub proof fn lemma_refresh_keeps_paths(t: Seq<NodeView>, saved: Seq<SavedLevel>, level: int, current: int)
    requires
        0 <= level,
        0 <= current <= usize::MAX,
    ensures
        forall|i: int|
            0 <= i < restored_nav(t, saved, level, current).len() ==> path_id(t[(#[trigger] restored_nav(t, saved, level, current)[i]).0 as int])
                == saved[level + i].0,
        forall|i: int|
            0 < i < restored_nav(t, saved, level, current).len() ==> {
                &&& visible_order(t, restored_nav(t, saved, level, current)[i - 1].0 as int).contains(
                    #[trigger] restored_nav(t, saved, level, current)[i].0,
                )
                &&& t[restored_nav(t, saved, level, current)[i].0 as int].is_dir
            },
    decreases saved.len() - level,
{
    let r = restored_nav(t, saved, level, current);
    if level < saved.len() && path_id(t[current]) == saved[level].0 && level + 1 < saved.len() {
        let ch = visible_order(t, current);
        match dir_with_path(t, ch, saved[level + 1].0, 0) {
            Some(k) => {
                lemma_dir_with_path_found(t, ch, saved[level + 1].0, 0);
                lemma_refresh_keeps_paths(t, saved, level + 1, ch[k] as int);
                let rest = restored_nav(t, saved, level + 1, ch[k] as int);
                assert forall|i: int| 0 <= i < r.len() implies path_id(t[(#[trigger] r[i]).0 as int]) == saved[level + i].0 by {
                    if i > 0 {
                        assert(r[i] == rest[i - 1]);
                    }
                }
                assert forall|i: int| 0 < i < r.len() implies {
                    &&& visible_order(t, r[i - 1].0 as int).contains(#[trigger] r[i].0)
                    &&& t[r[i].0 as int].is_dir
                } by {
                    if i == 1 {
                        if rest.len() > 0 {
                            assert(r[1] == rest[0]);
                            assert(ch[k] == r[1].0);
                            assert(r[0].0 == current);
                        }
                    } else {
                        assert(r[i] == rest[i - 1]);
                        assert(r[i - 1] == rest[i - 2]);
                    }
                }
            },
            None => {},
        }
    }
}

/// The row found by path has that path.
proof fn lemma_row_with_path_found(t: Seq<NodeView>, ch: Seq<usize>, w: PathId, k: int)
    requires
        row_with_path(t, ch, w, k) is Some,
    ensures
        0 <= row_with_path(t, ch, w, k)->0 < ch.len(),
        path_id(t[ch[row_with_path(t, ch, w, k)->0] as int]) == w,
    decreases ch.len() - k,
{
    if path_id(t[ch[k] as int]) != w {
        lemma_row_with_path_found(t, ch, w, k + 1);
    }
}

/// A rescan keeps the longest prefix of the entered directories that can
/// still be followed by path: the walk stops only where no directory listed
/// in the last one found has the next path; and at every level found, the
/// selected row is the one found by the remembered path of the selected
/// item, which is kept wherever a row has that path.
#[verifier::spinoff_prover]
#[verifier::rlimit(40)]
pub proof fn lemma_refresh_keeps_longest_prefix(t: Seq<NodeView>, saved: Seq<SavedLevel>, level: int, current: int)
    requires
        tree_wf(t),
        0 <= level,
        0 <= current < t.len(),
    ensures
        level < saved.len() && path_id(t[current]) == saved[level].0 ==> restored_nav(t, saved, level, current).len() >= 1
            && restored_nav(t, saved, level, current)[0].0 == current,
        0 < restored_nav(t, saved, level, current).len() < saved.len() - level ==> dir_with_path(
            t,
            visible_order(t, restored_nav(t, saved, level, current).last().0 as int),
            saved[level + restored_nav(t, saved, level, current).len()].0,
            0,
        ) is None,
        forall|i: int|
            0 <= i < restored_nav(t, saved, level, current).len() ==> {
                let e = #[trigger] restored_nav(t, saved, level, current)[i];
                let ch = visible_order(t, e.0 as int);
                &&& e.1 == restored_row(t, ch, saved[level + i].1, saved[level + i].2)
                &&& (saved[level + i].1 matches Some(w) ==> (row_with_path(t, ch, w, 0) is Some
                    ==> path_id(t[ch[e.1 as int] as int]) == w))
            },
    decreases saved.len() - level,
{
    let r = restored_nav(t, saved, level, current);
    if level < saved.len() && path_id(t[current]) == saved[level].0 {
        let ch = visible_order(t, current);
        crate::listing::lemma_visible_order_is_listing(t, current);
        let entry = (current as usize, restored_row(t, ch, saved[level].1, saved[level].2));
        if let Some(w) = saved[level].1 {
            if row_with_path(t, ch, w, 0) is Some {
                lemma_row_with_path_found(t, ch, w, 0);
            }
        }
        if level + 1 < saved.len() {
            match dir_with_path(t, ch, saved[level + 1].0, 0) {
                Some(k) => {
                    lemma_dir_with_path_found(t, ch, saved[level + 1].0, 0);
                    let next = ch[k] as int;
                    lemma_refresh_keeps_longest_prefix(t, saved, level + 1, next);
                    let rest = restored_nav(t, saved, level + 1, next);
                    assert(r == seq![entry] + rest);
                    assert(rest.len() >= 1);
                    assert forall|i: int| 0 <= i < r.len() implies {
                        let e = #[trigger] r[i];
                        let chi = visible_order(t, e.0 as int);
                        &&& e.1 == restored_row(t, chi, saved[level + i].1, saved[level + i].2)
                        &&& (saved[level + i].1 matches Some(w) ==> (row_with_path(t, chi, w, 0) is Some
                            ==> path_id(t[chi[e.1 as int] as int]) == w))
                    } by {
                        if i > 0 {
                            assert(r[i] == rest[i - 1]);
                            assert(level + 1 + (i - 1) == level + i);
                        }
                    }
                    if r.len() < saved.len() - level {
                        assert(r.last() == rest.last());
                        assert(level + r.len() == level + 1 + rest.len());
                    }
                },
                None => {
                    assert(r == seq![entry]);
                },
            }
        } else {
            assert(r == seq![entry]);
        }
    }
}

/// Every node of `t` has a path of its own, as the entries of a file system
/// do.
pub open spec fn paths_distinct(t: Seq<NodeView>) -> bool {
    forall|i: int, j: int| 0 <= i < j < t.len() ==> path_id((#[trigger] t[i])) != path_id((#[trigger] t[j]))
}

/// The directories entered were reached from the root, each from the
/// selected row of the one above it, and the selected row of the directory
/// shown is one of its rows (or row 0 of an empty listing).
pub open spec fn nav_followed(a: AppView) -> bool {
    &&& a.nav[0].0 == 0
    &&& forall|i: int|
        #![trigger a.nav[i]]
        0 <= i < a.nav.len() - 1 ==> {
            let ch = visible_order(a.tree, a.nav[i].0 as int);
            &&& (a.nav[i].1 as int) < ch.len()
            &&& ch[a.nav[i].1 as int] == a.nav[i + 1].0
            &&& a.tree[a.nav[i + 1].0 as int].is_dir
        }
    &&& (selected_row(a) < listing(a).len() || (listing(a).len() == 0 && selected_row(a) == 0))
}

/// The only row with path `w` from `m` on is found.
proof fn lemma_row_with_path_unique(t: Seq<NodeView>, ch: Seq<usize>, w: PathId, m: int, row: int)
    requires
        0 <= m <= row < ch.len(),
        path_id(t[ch[row] as int]) == w,
        forall|x: int| m <= x < ch.len() && x != row ==> path_id(t[ch[x] as int]) != w,
    ensures
        row_with_path(t, ch, w, m) == Some(row),
    decreases row - m,
{
    if m < row {
        lemma_row_with_path_unique(t, ch, w, m + 1, row);
    }
}

/// The only directory row with path `w` from `m` on is found.
proof fn lemma_dir_with_path_unique(t: Seq<NodeView>, ch: Seq<usize>, w: PathId, m: int, row: int)
    requires
        0 <= m <= row < ch.len(),
        path_id(t[ch[row] as int]) == w,
        t[ch[row] as int].is_dir,
        forall|x: int| m <= x < ch.len() && x != row ==> path_id(t[ch[x] as int]) != w,
    ensures
        dir_with_path(t, ch, w, m) == Some(row),
    decreases row - m,
{
    if m < row {
        lemma_dir_with_path_unique(t, ch, w, m + 1, row);
    }
}

/// On an unchanged tree, the walk of a rescan from level `i` on finds the
/// entered directories from level `i` on, with their rows.
proof fn lemma_restored_unchanged(a: AppView, i: int)
    requires
        app_wf(a),
        paths_distinct(a.tree),
        nav_followed(a),
        0 <= i < a.nav.len(),
    ensures
        restored_nav(a.tree, saved_levels(a), i, a.nav[i].0 as int) == a.nav.subrange(i, a.nav.len() as int),
    decreases a.nav.len() - i,
{
    let t = a.tree;
    let sv = saved_levels(a);
    let cur = a.nav[i].0 as int;
    let row = a.nav[i].1 as int;
    let ch = visible_order(t, cur);
    crate::listing::lemma_visible_order_is_listing(t, cur);
    assert(sv[i] == saved_level(a, i));
    assert forall|x: int| 0 <= x < ch.len() && 0 <= row < ch.len() && x != row implies path_id(t[ch[x] as int])
        != path_id(t[ch[row] as int]) by {
        let (u, v) = (ch[x] as int, ch[row] as int);
        assert(u != v);
        if u < v {
            assert(t[u] == t[u] && t[v] == t[v]);
        } else {
            assert(t[v] == t[v] && t[u] == t[u]);
        }
    }
    if i < a.nav.len() - 1 {
        assert(a.nav[i] == a.nav[i]);
    }
    if row < ch.len() {
        lemma_row_with_path_unique(t, ch, path_id(t[ch[row] as int]), 0, row);
    }
    let entry = (cur as usize, restored_row(t, ch, sv[i].1, sv[i].2));
    assert(entry == a.nav[i]);
    let r = restored_nav(t, sv, i, cur);
    if i + 1 < a.nav.len() {
        assert(a.nav[i] == a.nav[i]);
        let next = a.nav[i + 1].0 as int;
        assert(sv[i + 1] == saved_level(a, i + 1));
        lemma_dir_with_path_unique(t, ch, path_id(t[next]), 0, row);
        lemma_restored_unchanged(a, i + 1);
        assert(r == seq![entry] + a.nav.subrange(i + 1, a.nav.len() as int));
        assert(r =~= a.nav.subrange(i, a.nav.len() as int));
    } else {
        assert(r =~= a.nav.subrange(i, a.nav.len() as int));
    }
}

/// Rescanning a file system that has not changed, where every entry has a
/// path of its own, keeps the tree and finds every entered directory again
/// with the same row selected.
pub proof fn lemma_refresh_unchanged(a: AppView)
    requires
        app_wf(a),
        paths_distinct(a.tree),
        nav_followed(a),
    ensures
        refreshed_spec(a, a.tree).tree == a.tree,
        refreshed_spec(a, a.tree).nav == a.nav,
{
    lemma_restored_unchanged(a, 0);
    assert(a.nav.subrange(0, a.nav.len() as int) =~= a.nav);
}

/// The entered directories, remembered as `sv`, can be followed in `t`
/// through the nodes `m`: each has the remembered path, each below the first
/// is a directory listed in the one above, and each remembered selected item
/// is still listed, by path.
pub open spec fn follows_paths(t: Seq<NodeView>, sv: Seq<SavedLevel>, m: Seq<usize>) -> bool {
    &&& m.len() == sv.len()
    &&& forall|j: int| 0 <= j < m.len() ==> (#[trigger] m[j]) < t.len() && path_id(t[m[j] as int]) == sv[j].0
    &&& forall|j: int|
        #![trigger m[j]]
        0 <= j < m.len() - 1 ==> visible_order(t, m[j] as int).contains(m[j + 1]) && t[m[j + 1] as int].is_dir
    &&& forall|j: int|
        #![trigger sv[j]]
        0 <= j < sv.len() ==> (sv[j].1 matches Some(w) ==> exists|k: int|
            0 <= k < visible_order(t, m[j] as int).len() && path_id(t[visible_order(t, m[j] as int)[k] as int]) == w)
}

/// The walk of a rescan from level `i` on finds the nodes `m` from `i` on,
/// selecting at each the row of the remembered item.
proof fn lemma_restored_follows(t: Seq<NodeView>, sv: Seq<SavedLevel>, m: Seq<usize>, i: int)
    requires
        tree_wf(t),
        paths_distinct(t),
        follows_paths(t, sv, m),
        0 <= i < sv.len(),
    ensures
        restored_nav(t, sv, i, m[i] as int).len() == sv.len() - i,
        forall|j: int|
            0 <= j < sv.len() - i ==> {
                let e = #[trigger] restored_nav(t, sv, i, m[i] as int)[j];
                &&& e.0 == m[i + j]
                &&& (sv[i + j].1 matches Some(w) ==> path_id(t[visible_order(t, m[i + j] as int)[e.1 as int] as int]) == w)
            },
    decreases sv.len() - i,
{
    let cur = m[i] as int;
    let ch = visible_order(t, cur);
    assert(m[i] < t.len() && path_id(t[cur]) == sv[i].0);
    crate::listing::lemma_visible_order_is_listing(t, cur);
    assert forall|x: int, y: int| 0 <= x < ch.len() && 0 <= y < ch.len() && x != y implies path_id(t[ch[x] as int])
        != path_id(t[ch[y] as int]) by {
        let (u, v) = (ch[x] as int, ch[y] as int);
        assert(u != v);
        if u < v {
            assert(t[u] == t[u] && t[v] == t[v]);
        } else {
            assert(t[v] == t[v] && t[u] == t[u]);
        }
    }
    assert(sv[i] == sv[i]);
    if let Some(w) = sv[i].1 {
        let k = choose|k: int| 0 <= k < ch.len() && path_id(t[ch[k] as int]) == w;
        lemma_row_with_path_unique(t, ch, w, 0, k);
    }
    let entry = (cur as usize, restored_row(t, ch, sv[i].1, sv[i].2));
    let r = restored_nav(t, sv, i, cur);
    if i + 1 < sv.len() {
        assert(m[i] == m[i]);
        let next = m[i + 1];
        assert(ch.contains(next) && t[next as int].is_dir);
        let q = ch.index_of(next);
        assert(m[i + 1] < t.len() && path_id(t[next as int]) == sv[i + 1].0);
        lemma_dir_with_path_unique(t, ch, sv[i + 1].0, 0, q);
        lemma_restored_follows(t, sv, m, i + 1);
        let rest = restored_nav(t, sv, i + 1, next as int);
        assert(r == seq![entry] + rest);
        assert forall|j: int| 0 <= j < sv.len() - i implies {
            let e = #[trigger] r[j];
            &&& e.0 == m[i + j]
            &&& (sv[i + j].1 matches Some(w) ==> path_id(t[visible_order(t, m[i + j] as int)[e.1 as int] as int]) == w)
        } by {
            if j > 0 {
                assert(r[j] == rest[j - 1]);
                assert(i + 1 + (j - 1) == i + j);
            }
        }
    } else {
        assert(r == seq![entry]);
    }
}

/// A rescan finds the entered directories again wherever their paths can be
/// followed in the new tree, however its nodes are numbered: when every node
/// of the new tree has a path of its own and the nodes `m` follow the
/// remembered paths from the root, the directories found are `m`, and at
/// every level the selected item is the one with the remembered path.
pub proof fn lemma_refresh_follows_paths(a: AppView, t: Seq<NodeView>, m: Seq<usize>)
    requires
        tree_wf(t),
        paths_distinct(t),
        m.len() >= 1,
        m[0] == 0,
        follows_paths(t, saved_levels(a), m),
    ensures
        refreshed_spec(a, t).tree == t,
        refreshed_spec(a, t).nav.len() == m.len(),
        forall|i: int|
            0 <= i < m.len() ==> {
                let e = #[trigger] refreshed_spec(a, t).nav[i];
                &&& e.0 == m[i]
                &&& path_id(t[e.0 as int]) == saved_levels(a)[i].0
                &&& (saved_levels(a)[i].1 matches Some(w) ==> path_id(t[visible_order(t, m[i] as int)[e.1 as int] as int])
                    == w)
            },
{
    let sv = saved_levels(a);
    lemma_restored_follows(t, sv, m, 0);
    assert(m[0] < t.len());
    assert forall|i: int| 0 <= i < m.len() implies {
        let e = #[trigger] refreshed_spec(a, t).nav[i];
        &&& e.0 == m[i]
        &&& path_id(t[e.0 as int]) == sv[i].0
        &&& (sv[i].1 matches Some(w) ==> path_id(t[visible_order(t, m[i] as int)[e.1 as int] as int]) == w)
    } by {
        assert(restored_nav(t, sv, 0, m[0] as int)[i] == refreshed_spec(a, t).nav[i]);
        assert(0 + i == i);
    }
}

/// A directory found by path is a directory row with that path.
proof fn lemma_dir_with_path_found(t: Seq<NodeView>, ch: Seq<usize>, w: PathId, k: int)
    requires
        dir_with_path(t, ch, w, k) is Some,
    ensures
        0 <= dir_with_path(t, ch, w, k)->0 < ch.len(),
        t[ch[dir_with_path(t, ch, w, k)->0] as int].is_dir,
        path_id(t[ch[dir_with_path(t, ch, w, k)->0] as int]) == w,
    decreases ch.len() - k,
{
    if !(t[ch[k] as int].is_dir && path_id(t[ch[k] as int]) == w) {
        lemma_dir_with_path_found(t, ch, w, k + 1);
    }
}

/// With the listing shown and no dialog open, Right, Enter and `l` all do
/// the same: when the selected row is a directory it is opened, pushed on
/// the way down with its first row selected, and nothing else changes;
/// otherwise nothing changes. The caller is told to go on.
pub proof fn lemma_open_keys(a: AppView, key: Key, b: AppView, c: Command)
    requires
        app_wf(a),
        !a.show_types,
        a.modal == ModalView::Closed,
        key == Key::Right || key == Key::Enter || key == Key::Char('l'),
        key_step(a, key, b, c),
    ensures
        c == Command::Continue,
        ({
            let ch = visible_order(a.tree, a.nav.last().0 as int);
            let s = a.nav.last().1 as int;
            if s < ch.len() && a.tree[ch[s] as int].is_dir {
                b == AppView { nav: a.nav.push((ch[s], 0usize)), list_selected: Some(0usize), ..a }
            } else {
                b == a
            }
        }),
{
}

/// Right and Enter lead, with the listing shown and no dialog open, to the
/// same browser and the same command.
pub proof fn lemma_right_is_enter(a: AppView, b1: AppView, c1: Command, b2: AppView, c2: Command)
    requires
        app_wf(a),
        !a.show_types,
        a.modal == ModalView::Closed,
        key_step(a, Key::Right, b1, c1),
        key_step(a, Key::Enter, b2, c2),
    ensures
        b1 == b2,
        c1 == c2,
{
    lemma_open_keys(a, Key::Right, b1, c1);
    lemma_open_keys(a, Key::Enter, b2, c2);
}

/// A confirmed removal of item `i` that succeeded takes `i`'s size off every
/// ancestor of `i` (wrapping, as the size counters do), whatever kind of
/// item `i` is; it leaves every other size as it was, marks `i` and all that
/// goes with it deleted, keeps every other node's deleted flag, and closes
/// the dialog.
pub proof fn lemma_removal_takes_size_off_ancestors(a: AppView, i: usize, j: int)
    requires
        app_wf(a),
        i < a.tree.len(),
        0 <= j < a.tree.len(),
    ensures
        removed_spec(a, i).tree.len() == a.tree.len(),
        is_ancestor(a.tree, j, i as int) ==> removed_spec(a, i).tree[j].size
            == vstd::wrapping::u64_specs::wrapping_sub(a.tree[j].size, a.tree[i as int].size),
        !is_ancestor(a.tree, j, i as int) ==> removed_spec(a, i).tree[j].size == a.tree[j].size,
        removed_spec(a, i).tree[j].deleted == (a.tree[j].deleted || in_removal(a.tree, i as int, j)),
        removed_spec(a, i).tree[i as int].deleted,
        removed_spec(a, i).modal == ModalView::Closed,
{
    assert(in_removal(a.tree, i as int, i as int));
}

/// A confirmed removal of a live item whose ancestors are all live
/// directories keeps every live directory's size the sum of its live
/// children's sizes, whatever kind of item was removed.
pub proof fn lemma_removal_keeps_sizes(a: AppView, i: usize)
    requires
        app_wf(a),
        i < a.tree.len(),
        !a.tree[i as int].deleted,
        forall|d: int| 0 <= d < a.tree.len() ==> #[trigger] crate::consistency::dir_consistent(a.tree, d),
        forall|x: int| is_ancestor(a.tree, x, i as int) ==> #[trigger] a.tree[x].is_dir && !a.tree[x].deleted,
    ensures
        forall|d: int|
            0 <= d < a.tree.len() ==> #[trigger] crate::consistency::dir_consistent(removed_spec(a, i).tree, d),
{
    crate::consistency::lemma_delete_keeps_dir_sizes(a.tree, i as int);
}

/// No row with path `w` means none is found.
proof fn lemma_row_with_path_absent(t: Seq<NodeView>, ch: Seq<usize>, w: PathId, k: int)
    requires
        forall|x: int| 0 <= x < ch.len() ==> path_id(t[ch[x] as int]) != w,
    ensures
        row_with_path(t, ch, w, k) is None,
    decreases ch.len() - k,
{
    if 0 <= k < ch.len() {
        lemma_row_with_path_absent(t, ch, w, k + 1);
    }
}

/// The walk of a rescan keeps, at every level found again where no listed
/// row has the remembered item's path, the remembered row kept within the
/// listing: the last row when it was past the end, row 0 only when the
/// listing is empty.
proof fn lemma_restored_fallback(t: Seq<NodeView>, saved: Seq<SavedLevel>, level: int, current: int)
    requires
        tree_wf(t),
        0 <= level <= saved.len(),
        0 <= current < t.len(),
    ensures
        restored_nav(t, saved, level, current).len() <= saved.len() - level,
        forall|i: int|
            0 <= i < restored_nav(t, saved, level, current).len() ==> {
                let e = #[trigger] restored_nav(t, saved, level, current)[i];
                let ch = visible_order(t, e.0 as int);
                &&& e.0 < t.len()
                &&& (forall|k: int| 0 <= k < ch.len() ==> saved[level + i].1 != Some(path_id(t[ch[k] as int])))
                    ==> e.1 == (if ch.len() == 0 {
                    0
                } else if saved[level + i].2 < ch.len() {
                    saved[level + i].2 as int
                } else {
                    ch.len() - 1
                })
            },
    decreases saved.len() - level,
{
    let r = restored_nav(t, saved, level, current);
    if level < saved.len() && path_id(t[current]) == saved[level].0 {
        let ch = visible_order(t, current);
        crate::listing::lemma_visible_order_is_listing(t, current);
        if let Some(w) = saved[level].1 {
            if forall|k: int| 0 <= k < ch.len() ==> saved[level].1 != Some(path_id(t[ch[k] as int])) {
                assert forall|x: int| 0 <= x < ch.len() implies path_id(t[ch[x] as int]) != w by {
                    assert(saved[level].1 != Some(path_id(t[ch[x] as int])));
                }
                lemma_row_with_path_absent(t, ch, w, 0);
            }
        }
        let entry = (current as usize, restored_row(t, ch, saved[level].1, saved[level].2));
        if level + 1 < saved.len() {
            match dir_with_path(t, ch, saved[level + 1].0, 0) {
                Some(k) => {
                    lemma_dir_with_path_found(t, ch, saved[level + 1].0, 0);
                    let next = ch[k] as int;
                    lemma_restored_fallback(t, saved, level + 1, next);
                    let rest = restored_nav(t, saved, level + 1, next);
                    assert(r == seq![entry] + rest);
                    assert forall|i: int| 0 <= i < r.len() implies {
                        let e = #[trigger] r[i];
                        let chi = visible_order(t, e.0 as int);
                        &&& e.0 < t.len()
                        &&& (forall|k: int| 0 <= k < chi.len() ==> saved[level + i].1 != Some(path_id(t[chi[k] as int])))
                            ==> e.1 == (if chi.len() == 0 {
                            0
                        } else if saved[level + i].2 < chi.len() {
                            saved[level + i].2 as int
                        } else {
                            chi.len() - 1
                        })
                    } by {
                        if i > 0 {
                            assert(r[i] == rest[i - 1]);
                            assert(level + 1 + (i - 1) == level + i);
                        }
                    }
                },
                None => {
                    assert(r == seq![entry]);
                },
            }
        } else {
            assert(r == seq![entry]);
        }
    }
}

/// After a rescan, every directory found again where no listed row has the
/// path of the item that was selected keeps the row that was selected, kept
/// within the new listing: `min(row, len - 1)`, and 0 only for an empty
/// listing.
pub proof fn lemma_refresh_keeps_row_without_item(a: AppView, t: Seq<NodeView>, i: int)
    requires
        app_wf(a),
        tree_wf(t),
        restored_nav(t, saved_levels(a), 0, 0).len() > 0,
        0 <= i < refreshed_spec(a, t).nav.len(),
        forall|k: int|
            0 <= k < visible_order(t, refreshed_spec(a, t).nav[i].0 as int).len() ==> saved_levels(a)[i].1 != Some(
                path_id(t[visible_order(t, refreshed_spec(a, t).nav[i].0 as int)[k] as int]),
            ),
    ensures
        i < a.nav.len(),
        ({
            let len = visible_order(t, refreshed_spec(a, t).nav[i].0 as int).len();
            let old_row = a.nav[i].1;
            refreshed_spec(a, t).nav[i].1 == if len == 0 {
                0
            } else if old_row < len {
                old_row as int
            } else {
                len - 1
            }
        }),
{
    lemma_restored_fallback(t, saved_levels(a), 0, 0);
    let r = restored_nav(t, saved_levels(a), 0, 0);
    assert(refreshed_spec(a, t).nav == r);
    assert(r[i] == r[i]);
    assert(0 + i == i);
    assert(saved_levels(a)[i] == saved_level(a, i));
}

} // verus!
