//! Categories: their attribute (a colour), how that colour is written as
//! text, and the decisions of the category editor (committing an edit,
//! dropping a dragged row, deleting a node).

use vstd::prelude::*;
use crate::color::{spec_from_hex, spec_to_hex, Color};
use crate::ids::Id;
use crate::text::{blank, concat_str, is_blank, starts_with, str_eq};

verus! {

/// What the app stores on each category: its colour, if it has one.
#[derive(Debug, Clone, Copy, PartialEq, Eq, Structural)]
pub struct CategoryAttribute {
    pub color: Option<Color>,
}

impl Default for CategoryAttribute {
    fn default() -> (r: Self)
        ensures
            r.color is None,
    {
        CategoryAttribute { color: None }
    }
}

/// The colour given to a new axis, and shown for a category without one.
pub fn category_default_color() -> (c: Color)
    ensures
        c == (Color { r: 0x88, g: 0x99, b: 0xaa, a: 255 }),
{
    Color::rgb(0x88, 0x99, 0xaa)
}

/// How a colour is written as text: its hex form, or the empty text when
/// there is none.
pub open spec fn spec_color_text(c: Option<Color>) -> Seq<char> {
    match c {
        Some(c) => spec_to_hex(c),
        None => Seq::empty(),
    }
}

/// How text is read as a colour: the empty text is no colour, any other is
/// read as hex (and is no colour when it is not hex).
pub open spec fn spec_color_of_text(s: Seq<char>) -> Option<Color> {
    if s.len() == 0 {
        None
    } else {
        spec_from_hex(s)
    }
}

/// The colour as text (see `spec_color_text`).
pub fn color_text(c: Option<Color>) -> (r: String)
    ensures
        r@ == spec_color_text(c),
{
    match c {
        Some(c) => c.to_hex(),
        None => String::new(),
    }
}

/// The colour written in `s` (see `spec_color_of_text`).
pub fn color_of_text(s: &str) -> (r: Option<Color>)
    ensures
        r == spec_color_of_text(s@),
{
    if s.unicode_len() == 0 {
        None
    } else {
        Color::from_hex(s)
    }
}

/// Reading back the text of a colour gives the colour, and no colour stays
/// no colour.
pub proof fn lemma_color_text_round_trip(c: Option<Color>)
    ensures
        spec_color_of_text(spec_color_text(c)) == c,
{
    if let Some(x) = c {
        crate::color::lemma_hex_round_trip(x);
        assert(spec_to_hex(x)[0] == '#');
    }
}

/// The swatch colour of a category: its own, else the default colour.
pub fn swatch_color(c: Option<Color>) -> (r: String)
    ensures
        r@ == spec_to_hex(
            match c {
                Some(x) => x,
                None => Color { r: 0x88, g: 0x99, b: 0xaa, a: 255 },
            },
        ),
{
    match c {
        Some(x) => x.to_hex(),
        None => category_default_color().to_hex(),
    }
}

/// The label shown for a node: its label, or its identifier when the label
/// is empty.
pub open spec fn spec_display_label(label: Seq<char>, id: Seq<char>) -> Seq<char> {
    if label.len() == 0 {
        id
    } else {
        label
    }
}

/// The label shown for a node (see `spec_display_label`).
pub fn display_label(label: &str, id: &Id) -> (r: String)
    ensures
        r@ == spec_display_label(label@, id@),
{
    if label.unicode_len() == 0 {
        id.to_string()
    } else {
        String::from_str(label)
    }
}

/// The inline style of a coloured chip: a border in the colour over a faint
/// fill of it; nothing when there is no colour.
pub open spec fn spec_chip_style(color: Seq<char>) -> Seq<char> {
    if color.len() == 0 {
        Seq::empty()
    } else {
        "border-color:"@ + color + ";background:"@ + color + "1a"@
    }
}

/// The inline style of a coloured chip (see `spec_chip_style`).
pub fn chip_style(color: &str) -> (r: String)
    ensures
        r@ == spec_chip_style(color@),
{
    if color.unicode_len() == 0 {
        return String::new();
    }
    let a = concat_str("border-color:", color);
    let b = concat_str(a.as_str(), ";background:");
    let c = concat_str(b.as_str(), color);
    let d = concat_str(c.as_str(), "1a");
    d
}

/// The colour shown on a taxonomy row: while the row is being edited and a
/// colour is being previewed, the preview; otherwise the node's own colour.
pub fn row_color(editing: &Option<Id>, node: &Id, preview: &str, node_color: &str) -> (r: String)
    ensures
        r@ == (if (editing matches Some(e) && e@ == node@) && preview@.len() > 0 {
            preview@
        } else {
            node_color@
        }),
{
    let previewing = match editing {
        Some(e) => e.same(node),
        None => false,
    };
    if previewing && preview.unicode_len() > 0 {
        String::from_str(preview)
    } else {
        String::from_str(node_color)
    }
}

/// A pending change of a category's identifier, label and attribute.
#[derive(Debug, Clone)]
pub struct CategoryRename {
    pub old_id: Id,
    pub new_id: Id,
    pub label: String,
    pub attribute: CategoryAttribute,
}

/// What committing the node editor leads to.
#[derive(Debug)]
pub enum NodeEditOutcome {
    /// No node was being edited; nothing to do.
    NotEditing,
    /// The identifier field is blank; nothing is committed and editing goes on.
    BlankId,
    /// The new identifier is another category's: the user is told, and
    /// editing goes on.
    IdTaken,
    /// Resources are tagged with the old identifier: the rename waits for
    /// the user to confirm it.
    Confirm(CategoryRename),
    /// The rename is applied at once.
    Apply(CategoryRename),
}

/// The rename that the editor's fields describe.
pub open spec fn rename_fields(r: CategoryRename, old_id: Seq<char>, id_text: Seq<char>, label: Seq<char>, color: Seq<char>) -> bool {
    &&& r.old_id@ == old_id
    &&& r.new_id@ == id_text
    &&& r.label@ == label
    &&& r.attribute.color == spec_from_hex(color)
}

/// Decides what committing the node editor does. `editing` is the node being
/// edited; `id_text`, `label` and `color` are the editor's fields;
/// `id_exists` tells whether a category already has identifier `id_text`,
/// and `affected` how many resources are tagged with the old identifier.
/// The last two only matter when the identifier changes.
pub fn decide_node_edit(
    editing: Option<Id>,
    id_text: String,
    label: String,
    color: &str,
    id_exists: bool,
    affected: usize,
) -> (r: NodeEditOutcome)
    ensures
        editing is None ==> r is NotEditing,
        editing matches Some(old) ==> {
            let changed = id_text@ != old@;
            if blank(id_text@) {
                r is BlankId
            } else if changed && id_exists {
                r is IdTaken
            } else if changed && affected > 0 {
                r matches NodeEditOutcome::Confirm(p) && rename_fields(p, old@, id_text@, label@, color@)
            } else {
                r matches NodeEditOutcome::Apply(p) && rename_fields(p, old@, id_text@, label@, color@)
            }
        },
{
    let old_id = match editing {
        None => return NodeEditOutcome::NotEditing,
        Some(old) => old,
    };
    if is_blank(id_text.as_str()) {
        return NodeEditOutcome::BlankId;
    }
    let changed = !str_eq(id_text.as_str(), old_id.as_str());
    let ghost text = id_text@;
    let new_id = match Id::from_string(id_text) {
        Some(id) => id,
        None => {
            // a blank text was handled above, so the text is not empty
            assert(blank(text));
            return NodeEditOutcome::BlankId;
        },
    };
    if changed && id_exists {
        return NodeEditOutcome::IdTaken;
    }
    let rename = CategoryRename {
        old_id,
        new_id,
        label,
        attribute: CategoryAttribute { color: Color::from_hex(color) },
    };
    if changed && affected > 0 {
        NodeEditOutcome::Confirm(rename)
    } else {
        NodeEditOutcome::Apply(rename)
    }
}

/// Whether a click on node `clicked` must first commit the node being edited:
/// another node is being edited.
pub fn commit_before_switch(current: &Option<Id>, clicked: &Id) -> (r: bool)
    ensures
        r == (current matches Some(c) && c@ != clicked@),
{
    match current {
        Some(c) => !c.same(clicked),
        None => false,
    }
}

/// Whether cancelling the editor discards the node: a freshly added node
/// that was never named (empty label, generated identifier).
pub fn is_abandoned_draft(label: &str, id: &Id) -> (r: bool)
    ensures
        r == (label@.len() == 0 && id@.len() >= 4 && id@.subrange(0, 4) == "node"@),
{
    proof {
        reveal_strlit("node");
    }
    label.unicode_len() == 0 && starts_with(id.as_str(), "node")
}

/// Where a dragged taxonomy row lands relative to the row it is dropped on.
#[derive(Debug, Clone, Copy, PartialEq, Eq, Structural)]
pub enum DropAction {
    /// Just before the target, as its sibling.
    Before,
    /// Under the target, as its child.
    Inside,
    /// Just after the target, as its sibling.
    After,
}

/// The drop action of a zone of the target row: its top part (0) puts the
/// row before, its bottom part (2) after, anything else inside.
pub fn drop_action(zone: u8) -> (r: DropAction)
    ensures
        r == (if zone == 0 {
            DropAction::Before
        } else if zone == 2 {
            DropAction::After
        } else {
            DropAction::Inside
        }),
{
    if zone == 0 {
        DropAction::Before
    } else if zone == 2 {
        DropAction::After
    } else {
        DropAction::Inside
    }
}

/// How many names a confirmation lists before summing up the rest.
pub const PREVIEW_CAP: usize = 8;

/// The names a confirmation lists: the first `PREVIEW_CAP` of them, and how
/// many are left out.
pub fn preview_names(names: Vec<String>) -> (r: (Vec<String>, usize))
    ensures
        r.0@.len() == (if names@.len() <= PREVIEW_CAP { names@.len() } else { PREVIEW_CAP as nat }),
        forall|i: int| 0 <= i < r.0@.len() ==> #[trigger] r.0@[i]@ == names@[i]@,
        r.0@.len() + r.1 == names@.len(),
{
    let total = names.len();
    let mut shown: Vec<String> = Vec::new();
    let mut i: usize = 0;
    while i < total && i < PREVIEW_CAP
        invariant
            total == names@.len(),
            i <= total,
            i <= PREVIEW_CAP,
            shown@.len() == i,
            forall|j: int| 0 <= j < i ==> #[trigger] shown@[j]@ == names@[j]@,
        decreases total - i,
    {
        shown.push(names[i].clone());
        i = i + 1;
    }
    let n = shown.len();
    (shown, total - n)
}

/// What deleting a category does to the resources tagged under it, as the
/// confirmation explains it.
#[derive(Debug, PartialEq, Eq)]
pub enum DeleteImpact {
    /// The node's children move up to its parent; `promote` resources move
    /// with them, out of `total` affected.
    PromoteToParent { promote: usize, parent: String, total: usize },
    /// The node's `total` resources are re-tagged with its parent.
    ReparentToParent { parent: String, total: usize },
    /// The node's children become axes; `promote` resources move with them,
    /// out of `total` affected.
    PromoteToRoot { promote: usize, total: usize },
    /// The node's `total` resources lose the tag.
    Untag { total: usize },
}

/// The impact of deleting a node with parent label `parent` (`None` for an
/// axis) and children or not.
pub fn delete_impact(parent: Option<String>, has_children: bool, promote: usize, total: usize) -> (r: DeleteImpact)
    ensures
        match parent {
            Some(p) => if has_children {
                r matches DeleteImpact::PromoteToParent { promote: a, parent: q, total: t } && a == promote && q@ == p@
                    && t == total
            } else {
                r matches DeleteImpact::ReparentToParent { parent: q, total: t } && q@ == p@ && t == total
            },
            None => if has_children {
                r matches DeleteImpact::PromoteToRoot { promote: a, total: t } && a == promote && t == total
            } else {
                r matches DeleteImpact::Untag { total: t } && t == total
            },
        },
{
    match parent {
        Some(p) => if has_children {
            DeleteImpact::PromoteToParent { promote, parent: p, total }
        } else {
            DeleteImpact::ReparentToParent { parent: p, total }
        },
        None => if has_children {
            DeleteImpact::PromoteToRoot { promote, total }
        } else {
            DeleteImpact::Untag { total }
        },
    }
}

} // verus!
