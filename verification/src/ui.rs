//! What the battle screen shows of the menu and of the latest messages, as
//! plain values; drawing them is left to the caller.
use vstd::prelude::*;
use crate::action::Action;
use crate::menu::{node_views, tree_wf, Menu, NodeHandle, NodeView};
use crate::text::same_text;

verus! {

/// Which choice the player is making.
#[derive(Clone, Copy, Debug, PartialEq, Eq, Structural)]
pub enum MenuState {
    ChooseActor,
    ChooseActionType,
    ChooseAbility,
    ChooseTarget,
}

/// One line of the menu on screen: a label, and whether it is the selected one.
#[derive(Debug)]
pub struct MenuEntry {
    pub label: String,
    pub selected: bool,
}

pub struct Ui {
    pub text_boxes: Vec<MenuEntry>,
    pub menu: Menu,
    pub menu_state: MenuState,
    pub curr_node: NodeHandle,
    pub curr_action: Option<Action>,
    pub selected_box: i32,
}

/// Whether the lines on screen are the children of node `current`, the one at
/// position `selected` marked.
pub open spec fn shows_children(boxes: Seq<MenuEntry>, nodes: Seq<NodeView>, current: NodeHandle, selected: i32) -> bool {
    let kids = nodes[current as int].children;
    &&& boxes.len() == kids.len()
    &&& forall|i: int| 0 <= i < boxes.len() ==> {
        &&& (#[trigger] boxes[i]).label@ == nodes[kids[i] as int].data
        &&& boxes[i].selected == (i as i32 == selected)
    }
}

/// The selection after moving by `diff`: past the top it wraps to the last
/// line, past the last line to the top.
pub open spec fn moved_selection(selected: i32, diff: i32, lines: int) -> i32 {
    let s1 = selected + diff;
    let s2 = if s1 < 0 { lines - 1 } else { s1 };
    (if s2 > lines - 1 { 0 } else { s2 }) as i32
}

/// Whether a child of a node is kept when nodes labelled `label` go.
pub open spec fn kept_child(nodes: Seq<NodeView>, label: Seq<char>, child: NodeHandle) -> bool {
    nodes[child as int].data != label
}

/// The nodes after every link to a node labelled `label` is dropped.
pub open spec fn without_label(nodes: Seq<NodeView>, label: Seq<char>) -> Seq<NodeView> {
    Seq::new(
        nodes.len(),
        |i: int| NodeView {
            children: nodes[i].children.filter(|c: NodeHandle| kept_child(nodes, label, c)),
            ..nodes[i]
        },
    )
}

/// Whether the lines on screen are `n` empty, unselected ones.
pub open spec fn blank_lines(boxes: Seq<MenuEntry>, n: nat) -> bool {
    &&& boxes.len() == n
    &&& forall|i: int| 0 <= i < n ==> (#[trigger] boxes[i]).label@ == Seq::<char>::empty() && !boxes[i].selected
}

/// A line with nothing on it.
fn blank_line() -> (e: MenuEntry)
    ensures
        e.label@ == Seq::<char>::empty(),
        !e.selected,
{
    MenuEntry { label: String::new(), selected: false }
}

impl Ui {
    pub open spec fn wf(&self) -> bool {
        &&& self.menu.wf()
        &&& self.curr_node < self.menu@.len()
    }

    /// A fresh screen on `menu`: four empty lines until the menu is loaded.
    pub fn new(menu: Menu) -> (ui: Self)
        ensures
            blank_lines(ui.text_boxes@, 4),
            ui.menu == menu,
            ui.menu_state == MenuState::ChooseActor,
            ui.curr_node == 0,
            ui.curr_action is None,
            ui.selected_box == 0,
    {
        let text_boxes = vec![blank_line(), blank_line(), blank_line(), blank_line()];
        Ui {
            text_boxes,
            menu,
            menu_state: MenuState::ChooseActor,
            curr_node: 0,
            curr_action: None,
            selected_box: 0,
        }
    }

    /// Fills the lines on screen with the children of the current node.
    pub fn load_menu(&mut self)
        requires
            old(self).wf(),
        ensures
            shows_children(final(self).text_boxes@, old(self).menu@, old(self).curr_node, old(self).selected_box),
            final(self).menu == old(self).menu,
            final(self).menu_state == old(self).menu_state,
            final(self).curr_node == old(self).curr_node,
            final(self).curr_action == old(self).curr_action,
            final(self).selected_box == old(self).selected_box,
    {
        let mut new_boxes: Vec<MenuEntry> = Vec::new();
        let kids = &self.menu.nodes[self.curr_node].children;
        let ghost nodes = self.menu@;
        assert(kids@ == nodes[self.curr_node as int].children);
        let mut i: usize = 0;
        while i < kids.len()
            invariant
                self.wf(),
                nodes == self.menu@,
                kids@ == nodes[self.curr_node as int].children,
                i <= kids.len(),
                new_boxes@.len() == i,
                forall|j: int| 0 <= j < i ==> {
                    &&& (#[trigger] new_boxes@[j]).label@ == nodes[kids@[j] as int].data
                    &&& new_boxes@[j].selected == (j as i32 == self.selected_box)
                },
            decreases kids.len() - i,
        {
            let child = kids[i];
            assert(child < nodes.len());
            assert(self.menu.nodes@[child as int]@ == nodes[child as int]);
            let label = self.menu.nodes[child].data.clone();
            let selected = i as i32 == self.selected_box;
            new_boxes.push(MenuEntry { label, selected });
            i = i + 1;
        }
        self.text_boxes = new_boxes;
    }

    /// Moves down to the selected child, selecting its first line; false when
    /// no child is selected.
    pub fn select(&mut self) -> (moved: bool)
        requires
            old(self).wf(),
        ensures
            final(self).wf(),
            moved == (0 <= old(self).selected_box < old(self).menu@[old(self).curr_node as int].children.len()),
            moved ==> final(self).curr_node == old(self).menu@[old(self).curr_node as int].children[old(self).selected_box as int]
                && final(self).selected_box == 0,
            !moved ==> final(self).curr_node == old(self).curr_node && final(self).selected_box == old(self).selected_box,
            final(self).menu == old(self).menu,
            final(self).menu_state == old(self).menu_state,
            final(self).text_boxes == old(self).text_boxes,
            final(self).curr_action == old(self).curr_action,
    {
        let kids = &self.menu.nodes[self.curr_node].children;
        assert(kids@ == self.menu@[self.curr_node as int].children);
        if self.selected_box >= 0 && (self.selected_box as usize) < kids.len() {
            let next = kids[self.selected_box as usize];
            self.curr_node = next;
            self.selected_box = 0;
            true
        } else {
            false
        }
    }

    /// Moves up to the parent of the current node.
    pub fn go_back(&mut self)
        requires
            old(self).wf(),
        ensures
            final(self).wf(),
            final(self).curr_node == old(self).menu@[old(self).curr_node as int].parent,
            final(self).menu == old(self).menu,
            final(self).menu_state == old(self).menu_state,
            final(self).text_boxes == old(self).text_boxes,
            final(self).curr_action == old(self).curr_action,
            final(self).selected_box == old(self).selected_box,
    {
        assert(self.menu.nodes@[self.curr_node as int]@ == self.menu@[self.curr_node as int]);
        self.curr_node = self.menu.nodes[self.curr_node].parent;
    }

    /// Moves back to the root of the menu.
    pub fn reset(&mut self)
        requires
            old(self).wf(),
        ensures
            final(self).wf(),
            final(self).curr_node == old(self).menu.root,
            final(self).menu == old(self).menu,
            final(self).menu_state == old(self).menu_state,
            final(self).text_boxes == old(self).text_boxes,
            final(self).curr_action == old(self).curr_action,
            final(self).selected_box == old(self).selected_box,
    {
        self.curr_node = self.menu.root;
    }

    /// Moves the selection by `diff` lines, wrapping around at either end.
    pub fn change_selection(&mut self, diff: i32)
        requires
            i32::MIN <= old(self).selected_box + diff <= i32::MAX,
            old(self).text_boxes@.len() <= i32::MAX,
        ensures
            final(self).selected_box == moved_selection(old(self).selected_box, diff, old(self).text_boxes@.len() as int),
            final(self).menu == old(self).menu,
            final(self).menu_state == old(self).menu_state,
            final(self).curr_node == old(self).curr_node,
            final(self).text_boxes == old(self).text_boxes,
            final(self).curr_action == old(self).curr_action,
    {
        self.selected_box = self.selected_box + diff;
        let lines = self.text_boxes.len() as i32;
        if self.selected_box < 0 {
            self.selected_box = lines - 1;
        }
        if self.selected_box > lines - 1 {
            self.selected_box = 0;
        }
    }

    /// The label of the current node.
    pub fn get_curr_data(&self) -> (s: String)
        requires
            self.wf(),
        ensures
            s@ == self.menu@[self.curr_node as int].data,
    {
        assert(self.menu.nodes@[self.curr_node as int]@ == self.menu@[self.curr_node as int]);
        self.menu.nodes[self.curr_node].data.clone()
    }

    /// Drops every link to a node labelled `to_remove`, so that no menu shows it.
    pub fn remove_nodes_with_data(&mut self, to_remove: String)
        requires
            old(self).wf(),
        ensures
            final(self).wf(),
            final(self).menu@ == without_label(old(self).menu@, to_remove@),
            final(self).menu.root == old(self).menu.root,
            final(self).menu_state == old(self).menu_state,
            final(self).curr_node == old(self).curr_node,
            final(self).text_boxes == old(self).text_boxes,
            final(self).curr_action == old(self).curr_action,
            final(self).selected_box == old(self).selected_box,
    {
        let ghost nodes = self.menu@;
        let ghost goal = without_label(nodes, to_remove@);
        let n = self.menu.nodes.len();
        let mut i: usize = 0;
        while i < n
            invariant
                n == nodes.len(),
                n == self.menu.nodes@.len(),
                i <= n,
                goal == without_label(nodes, to_remove@),
                tree_wf(nodes),
                forall|j: int| 0 <= j < i ==> #[trigger] self.menu@[j] == goal[j],
                forall|j: int| i <= j < n ==> #[trigger] self.menu@[j] == nodes[j],
                self.menu.root == old(self).menu.root,
                self.menu.root < n,
                self.menu_state == old(self).menu_state,
                self.curr_node == old(self).curr_node,
                self.curr_node < n,
                self.text_boxes == old(self).text_boxes,
                self.curr_action == old(self).curr_action,
                self.selected_box == old(self).selected_box,
            decreases n - i,
        {
            proof {
                assert forall|j: int| 0 <= j < nodes.len() implies (#[trigger] self.menu@[j]).data == nodes[j].data by {
                    if j < i {
                        assert(self.menu@[j] == goal[j]);
                    } else {
                        assert(self.menu@[j] == nodes[j]);
                    }
                }
                assert(self.menu@[i as int] == nodes[i as int]);
            }
            let kept = self.kept_children(i, &to_remove, Ghost(nodes));
            let ghost mid = self.menu.nodes@;
            let mut node = self.menu.nodes.remove(i);
            node.children = kept;
            let ghost changed = node;
            self.menu.nodes.insert(i, node);
            proof {
                assert(self.menu.nodes@ =~= mid.update(i as int, changed));
                assert(node_views(mid)[i as int] == mid[i as int]@);
                assert(changed@ == goal[i as int]);
                assert forall|j: int| 0 <= j < n implies #[trigger] self.menu@[j] == (if j <= i { goal[j] } else { nodes[j] }) by {
                    assert(self.menu@[j] == self.menu.nodes@[j]@);
                    if j != i {
                        assert(self.menu.nodes@[j] == mid[j]);
                        assert(node_views(mid)[j] == mid[j]@);
                    }
                }
            }
            i = i + 1;
        }
        proof {
            assert(self.menu@ =~= goal);
            lemma_without_label_wf(nodes, to_remove@);
        }
    }

    /// The children of node `i` that are not labelled `label`, in order.
    fn kept_children(&self, i: usize, label: &String, Ghost(nodes): Ghost<Seq<NodeView>>) -> (kept: Vec<NodeHandle>)
        requires
            i < self.menu@.len(),
            tree_wf(nodes),
            self.menu@.len() == nodes.len(),
            self.menu@[i as int].children == nodes[i as int].children,
            forall|j: int| 0 <= j < nodes.len() ==> (#[trigger] self.menu@[j]).data == nodes[j].data,
        ensures
            kept@ == nodes[i as int].children.filter(|c: NodeHandle| kept_child(nodes, label@, c)),
    {
        let ghost p = |c: NodeHandle| kept_child(nodes, label@, c);
        let ghost kids = nodes[i as int].children;
        assert(self.menu.nodes@[i as int]@ == self.menu@[i as int]);
        let children = &self.menu.nodes[i].children;
        let mut kept: Vec<NodeHandle> = Vec::new();
        let mut k: usize = 0;
        while k < children.len()
            invariant
                children@ == kids,
                kids == nodes[i as int].children,
                i < nodes.len(),
                k <= kids.len(),
                tree_wf(nodes),
                self.menu@.len() == nodes.len(),
                forall|j: int| 0 <= j < nodes.len() ==> (#[trigger] self.menu@[j]).data == nodes[j].data,
                p == (|c: NodeHandle| kept_child(nodes, label@, c)),
                kept@ == kids.take(k as int).filter(p),
            decreases kids.len() - k,
        {
            let c = children[k];
            assert(c < nodes.len());
            assert(self.menu.nodes@[c as int]@ == self.menu@[c as int]);
            proof {
                reveal(Seq::filter);
                assert(kids.take(k + 1).drop_last() == kids.take(k as int));
                assert(kids.take(k + 1).last() == c);
            }
            if !(self.menu.nodes[c].data == *label) {
                kept.push(c);
            }
            k = k + 1;
        }
        assert(kids.take(kids.len() as int) == kids);
        kept
    }
}

/// Dropping links keeps every child and parent a node.
pub proof fn lemma_without_label_wf(nodes: Seq<NodeView>, label: Seq<char>)
    requires
        tree_wf(nodes),
    ensures
        tree_wf(without_label(nodes, label)),
{
    let t = without_label(nodes, label);
    assert forall|i: int, k: int| 0 <= i < t.len() && 0 <= k < t[i].children.len() implies #[trigger] t[i].children[k] < t.len() by {
        let p = |c: NodeHandle| kept_child(nodes, label, c);
        nodes[i].children.lemma_filter_contains_rev(p, t[i].children[k]);
        broadcast use vstd::seq_lib::group_filter_ensures;
        assert(t[i].children.contains(t[i].children[k]));
    }
    assert forall|i: int| 0 <= i < t.len() implies (#[trigger] t[i]).parent < t.len() by {
        assert(t[i].parent == nodes[i].parent);
    }
}

/// The latest messages of the battle, newest first.
pub struct DialogueBox {
    pub text_lines: Vec<String>,
}

impl View for DialogueBox {
    type V = Seq<Seq<char>>;

    open spec fn view(&self) -> Seq<Seq<char>> {
        self.text_lines@.map_values(|l: String| l@)
    }
}

/// The lines after `message` arrives: it goes first, and the oldest line goes.
pub open spec fn notified(lines: Seq<Seq<char>>, message: Seq<char>) -> Seq<Seq<char>> {
    if lines.len() == 0 {
        lines
    } else {
        seq![message] + lines.take(lines.len() - 1)
    }
}

/// A message never changes how many lines the box shows.
pub proof fn lemma_notified_keeps_lines(lines: Seq<Seq<char>>, message: Seq<char>)
    ensures
        notified(lines, message).len() == lines.len(),
        lines.len() > 0 ==> notified(lines, message)[0] == message,
{
}

/// Where there are lines on screen, moving the selection by one line either
/// way leaves it on one of them.
pub proof fn lemma_selection_stays_on_screen(selected: i32, diff: i32, lines: int)
    requires
        1 <= lines <= i32::MAX,
        -1 <= diff <= 1,
        -1 <= selected <= lines,
    ensures
        0 <= moved_selection(selected, diff, lines) < lines,
{
}

impl DialogueBox {
    /// Two empty lines.
    pub fn new() -> (d: Self)
        ensures
            d@ == seq![Seq::<char>::empty(), Seq::<char>::empty()],
    {
        let mut text_lines: Vec<String> = Vec::new();
        text_lines.push(String::new());
        text_lines.push(String::new());
        let d = DialogueBox { text_lines };
        assert(d@ =~= seq![Seq::<char>::empty(), Seq::<char>::empty()]);
        d
    }

    /// Shows `message` first; the other lines move down one and the last goes.
    pub fn notify(&mut self, message: &str)
        ensures
            final(self)@ == notified(old(self)@, message@),
    {
        if self.text_lines.len() > 0 {
            let _ = self.text_lines.pop();
            self.text_lines.insert(0, String::from_str(message));
            assert(self@ =~= notified(old(self)@, message@));
        }
    }
}

} // verus!
