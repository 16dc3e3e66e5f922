use crate::text::{escape_html, escaped};
use std::collections::hash_map::DefaultHasher;
use std::fmt::Debug;
use std::hash::{Hash, Hasher};
use vstd::prelude::*;
use vstd::std_specs::cmp::PartialEqSpec;
use vstd::string::StringExecFns;
use vstd::std_specs::hash::DefaultHasherAdditionalSpecFns;

verus! {

/// The lowercase hexadecimal digit for `d`, for `0 <= d < 16`.
pub open spec fn digit(d: int) -> char {
    if d == 0 {
        '0'
    } else if d == 1 {
        '1'
    } else if d == 2 {
        '2'
    } else if d == 3 {
        '3'
    } else if d == 4 {
        '4'
    } else if d == 5 {
        '5'
    } else if d == 6 {
        '6'
    } else if d == 7 {
        '7'
    } else if d == 8 {
        '8'
    } else if d == 9 {
        '9'
    } else if d == 10 {
        'a'
    } else if d == 11 {
        'b'
    } else if d == 12 {
        'c'
    } else if d == 13 {
        'd'
    } else if d == 14 {
        'e'
    } else {
        'f'
    }
}

/// Executable form of [`digit`].
fn digit_char(d: u8) -> (c: char)
    requires
        d < 16,
    ensures
        c == digit(d as int),
{
    match d {
        0 => '0',
        1 => '1',
        2 => '2',
        3 => '3',
        4 => '4',
        5 => '5',
        6 => '6',
        7 => '7',
        8 => '8',
        9 => '9',
        10 => 'a',
        11 => 'b',
        12 => 'c',
        13 => 'd',
        14 => 'e',
        _ => 'f',
    }
}

/// The decimal numeral of `n`, without leading zeros.
pub open spec fn decimal(n: nat) -> Seq<char>
    decreases n,
{
    if n < 10 {
        seq![digit(n as int)]
    } else {
        decimal(n / 10).push(digit((n % 10) as int))
    }
}

/// The last `count` hexadecimal digits of `n`, with leading zeros.
pub open spec fn hex_digits(n: nat, count: nat) -> Seq<char>
    decreases count,
{
    if count == 0 {
        Seq::empty()
    } else {
        hex_digits(n / 16, (count - 1) as nat).push(digit((n % 16) as int))
    }
}

/// Appends the decimal numeral of `n` to `out`.
pub fn push_decimal(out: &mut String, n: u128)
    ensures
        final(out)@ == old(out)@ + decimal(n as nat),
    decreases n,
{
    if n >= 10 {
        push_decimal(out, n / 10);
    }
    out.push(digit_char((n % 10) as u8));
}

/// Appends the last `count` hexadecimal digits of `n` to `out`, with
/// leading zeros.
pub fn push_hex(out: &mut String, n: u64, count: u32)
    ensures
        final(out)@ == old(out)@ + hex_digits(n as nat, count as nat),
    decreases count,
{
    if count > 0 {
        push_hex(out, n / 16, count - 1);
        out.push(digit_char((n % 16) as u8));
    }
}

/// The title of a node: its kind, its number, its fingerprint in sixteen
/// hexadecimal digits, and a description of its state, on three lines.
pub open spec fn title_text(kind: Seq<char>, index: nat, fingerprint: u64, value: Seq<char>) -> Seq<
    char,
> {
    kind + " state #"@ + decimal(index) + "\nfingerprint=0x"@ + hex_digits(fingerprint as nat, 16)
        + "\n"@ + value
}

/// Executable form of [`title_text`].
pub fn build_title(kind: &str, index: usize, fingerprint: u64, value: &str) -> (title: String)
    ensures
        title@ == title_text(kind@, index as nat, fingerprint, value@),
{
    let mut title = String::from_str(kind);
    title.append(" state #");
    push_decimal(&mut title, index as u128);
    title.append("\nfingerprint=0x");
    push_hex(&mut title, fingerprint, 16);
    title.append("\n");
    title.append(value);
    title
}

/// A node of the drawing: the text inside its circle and its tooltip.
pub struct NodeMeta {
    pub label: String,
    pub title: String,
}

/// The left edge of the drawing, before the first column.
pub open spec fn left_padding() -> nat {
    140
}

/// The distance between columns.
pub open spec fn horizontal_gap() -> nat {
    150
}

/// The radius of a node's circle.
pub open spec fn radius() -> nat {
    22
}

/// The row of the abstract layer.
pub open spec fn abstract_y() -> nat {
    80
}

/// The row of the concrete-plus-auxiliary layer.
pub open spec fn middle_y() -> nat {
    200
}

/// The row of the concrete layer.
pub open spec fn concrete_y() -> nat {
    320
}

/// The horizontal position of column `slot`.
pub open spec fn column_x(slot: nat) -> nat {
    left_padding() + horizontal_gap() * slot
}

/// An arrow along a layer, from column position `x1` to `x2` at height `y`.
pub open spec fn edge(x1: nat, y: nat, x2: nat, class: Seq<char>) -> Seq<char> {
    "<line x1='"@ + decimal(x1) + "' y1='"@ + decimal(y) + "' x2='"@ + decimal(x2) + "' y2='"@
        + decimal(y) + "' class='"@ + class + "' marker-end='url(#refinement-arrow)'/>"@
}

/// The cross that marks an arrow as invalid: two diagonals of the square
/// from `(x1, y1)` to `(x2, y2)`.
pub open spec fn cross(x1: nat, x2: nat, y1: nat, y2: nat) -> Seq<char> {
    "<line x1='"@ + decimal(x1) + "' y1='"@ + decimal(y1) + "' x2='"@ + decimal(x2) + "' y2='"@
        + decimal(y2) + "' class='svg-ref-invalid-cross'/>"@ + "<line x1='"@ + decimal(x1)
        + "' y1='"@ + decimal(y2) + "' x2='"@ + decimal(x2) + "' y2='"@ + decimal(y1)
        + "' class='svg-ref-invalid-cross'/>"@
}

/// A line between layers, from a node to the node it maps to.
pub open spec fn mapping_line(x1: nat, y1: nat, x2: nat, y2: nat) -> Seq<char> {
    "<line x1='"@ + decimal(x1) + "' y1='"@ + decimal(y1) + "' x2='"@ + decimal(x2) + "' y2='"@
        + decimal(y2) + "' class='svg-ref-mapping-line'/>"@
}

/// A node: a circle with a tooltip, and its label.
pub open spec fn node_group(x: nat, y: nat, title: Seq<char>, label: Seq<char>) -> Seq<char> {
    "<g class='svg-ref-node'><circle class='svg-ref-state-circle' cx='"@ + decimal(x) + "' cy='"@
        + decimal(y) + "' r='"@ + decimal(radius()) + "'><title>"@ + escaped(title)
        + "</title></circle><text class='svg-ref-state-text' x='"@ + decimal(x) + "' y='"@
        + decimal(y) + "'>"@ + escaped(label) + "</text></g>"@
}


/// The horizontal position of column `slot`.
fn column(slot: usize) -> (x: u128)
    ensures
        x == column_x(slot as nat),
{
    140 + 150 * (slot as u128)
}

/// Appends an [`edge`].
fn push_edge(out: &mut String, x1: u128, y: u128, x2: u128, class: &str)
    ensures
        final(out)@ == old(out)@ + edge(x1 as nat, y as nat, x2 as nat, class@),
{
    out.append("<line x1='");
    push_decimal(out, x1);
    out.append("' y1='");
    push_decimal(out, y);
    out.append("' x2='");
    push_decimal(out, x2);
    out.append("' y2='");
    push_decimal(out, y);
    out.append("' class='");
    out.append(class);
    out.append("' marker-end='url(#refinement-arrow)'/>");
}

/// Appends a [`cross`].
fn push_cross(out: &mut String, x1: u128, x2: u128, y1: u128, y2: u128)
    ensures
        final(out)@ == old(out)@ + cross(x1 as nat, x2 as nat, y1 as nat, y2 as nat),
{
    out.append("<line x1='");
    push_decimal(out, x1);
    out.append("' y1='");
    push_decimal(out, y1);
    out.append("' x2='");
    push_decimal(out, x2);
    out.append("' y2='");
    push_decimal(out, y2);
    out.append("' class='svg-ref-invalid-cross'/>");
    out.append("<line x1='");
    push_decimal(out, x1);
    out.append("' y1='");
    push_decimal(out, y2);
    out.append("' x2='");
    push_decimal(out, x2);
    out.append("' y2='");
    push_decimal(out, y1);
    out.append("' class='svg-ref-invalid-cross'/>");
}

/// Appends a [`mapping_line`].
fn push_mapping_line(out: &mut String, x1: u128, y1: u128, x2: u128, y2: u128)
    ensures
        final(out)@ == old(out)@ + mapping_line(x1 as nat, y1 as nat, x2 as nat, y2 as nat),
{
    out.append("<line x1='");
    push_decimal(out, x1);
    out.append("' y1='");
    push_decimal(out, y1);
    out.append("' x2='");
    push_decimal(out, x2);
    out.append("' y2='");
    push_decimal(out, y2);
    out.append("' class='svg-ref-mapping-line'/>");
}

/// Appends a [`node_group`].
fn push_node_group(out: &mut String, x: u128, y: u128, node: &NodeMeta)
    ensures
        final(out)@ == old(out)@ + node_group(x as nat, y as nat, node.title@, node.label@),
{
    out.append("<g class='svg-ref-node'><circle class='svg-ref-state-circle' cx='");
    push_decimal(out, x);
    out.append("' cy='");
    push_decimal(out, y);
    out.append("' r='");
    push_decimal(out, 22);
    out.append("'><title>");
    let title = escape_html(node.title.as_str());
    out.append(title.as_str());
    out.append("</title></circle><text class='svg-ref-state-text' x='");
    push_decimal(out, x);
    out.append("' y='");
    push_decimal(out, y);
    out.append("'>");
    let label = escape_html(node.label.as_str());
    out.append(label.as_str());
    out.append("</text></g>");
}

/// What the drawing of a run shows: the nodes of its three layers, the
/// abstract and concrete node that each step stands on (a step stands on
/// middle node number step), and whether its last step passed the check.
pub struct SvgLayout {
    pub abstract_nodes: Vec<NodeMeta>,
    pub middle_nodes: Vec<NodeMeta>,
    pub concrete_nodes: Vec<NodeMeta>,
    pub abstract_path_slots: Vec<usize>,
    pub concrete_path_slots: Vec<usize>,
    pub last_is_valid: bool,
}

/// `n - 1`, or `0` for `0`.
pub open spec fn less_one(n: nat) -> nat {
    if n == 0 {
        0
    } else {
        (n - 1) as nat
    }
}

/// The larger of two numbers.
pub open spec fn larger(a: nat, b: nat) -> nat {
    if a >= b {
        a
    } else {
        b
    }
}

impl SvgLayout {
    /// The path slots name existing nodes.
    pub open spec fn wf(&self) -> bool {
        &&& forall|i: int|
            0 <= i < self.abstract_path_slots@.len() ==> #[trigger] self.abstract_path_slots@[i]
                < self.abstract_nodes@.len()
        &&& forall|i: int|
            0 <= i < self.concrete_path_slots@.len() ==> #[trigger] self.concrete_path_slots@[i]
                < self.concrete_nodes@.len()
    }

    /// The number of columns after the first.
    pub open spec fn span(&self) -> nat {
        larger(
            larger(less_one(self.abstract_nodes@.len()), less_one(self.concrete_nodes@.len())),
            less_one(self.middle_nodes@.len()),
        )
    }

    /// The width of the drawing.
    pub open spec fn width(&self) -> nat {
        left_padding() + 120 + horizontal_gap() * self.span()
    }
}

/// The height of the drawing: three rows.
pub open spec fn drawing_height() -> nat {
    80 * 3 + 120 * 2
}

/// The opening tag of the drawing.
pub open spec fn header(width: nat, height: nat) -> Seq<char> {
    "<svg version='1.1' baseProfile='full' width='"@ + decimal(width) + "' height='"@ + decimal(
        height,
    ) + "' viewBox='0 0 "@ + decimal(width) + " "@ + decimal(height)
        + "' xmlns='http://www.w3.org/2000/svg'>"@
}

/// The arrowhead that the arrows along a layer end in.
pub open spec fn defs() -> Seq<char> {
    "<defs><marker id='refinement-arrow' markerWidth='12' markerHeight='10' refX='12' refY='5' orient='auto'><polygon points='0 0, 12 5, 0 10' class='svg-ref-edge-head'/></marker></defs>"@
}

/// The names of the three layers.
pub open spec fn layer_labels() -> Seq<char> {
    "<text class='svg-ref-label' x='20' y='"@ + decimal(abstract_y())
        + "'>Abstract</text><text class='svg-ref-label' x='12' y='"@ + decimal(middle_y())
        + "'>Concrete+Aux</text><text class='svg-ref-label' x='20' y='"@ + decimal(concrete_y())
        + "'>Concrete</text>"@
}

/// The arrows between the concrete nodes of steps `i - 1` and `i`, for
/// `1 <= i < n`.
pub open spec fn concrete_edges(slots: Seq<usize>, n: int) -> Seq<char>
    decreases n,
{
    if n <= 1 {
        Seq::empty()
    } else {
        concrete_edges(slots, n - 1) + edge(
            column_x(slots[n - 2] as nat),
            concrete_y(),
            column_x(slots[n - 1] as nat),
            "svg-ref-edge"@,
        )
    }
}

/// The arrows between the middle nodes `i - 1` and `i`, for `1 <= i < n`.
pub open spec fn middle_edges(n: int) -> Seq<char>
    decreases n,
{
    if n <= 1 {
        Seq::empty()
    } else {
        middle_edges(n - 1) + edge(
            column_x((n - 2) as nat),
            middle_y(),
            column_x((n - 1) as nat),
            "svg-ref-edge"@,
        )
    }
}

/// The arrow between the abstract nodes of steps `i - 1` and `i`; the
/// arrow into the last step is dashed and crossed out where that step
/// failed the check.
pub open spec fn abstract_edge(slots: Seq<usize>, i: int, last_is_valid: bool) -> Seq<char> {
    let x1 = column_x(slots[i - 1] as nat);
    let x2 = column_x(slots[i] as nat);
    if i == slots.len() - 1 && !last_is_valid {
        let mid = (x1 + x2) / 2;
        edge(x1, abstract_y(), x2, "svg-ref-edge svg-ref-edge-invalid"@) + cross(
            (mid - 10) as nat,
            mid + 10,
            (abstract_y() - 10) as nat,
            abstract_y() + 10,
        )
    } else {
        edge(x1, abstract_y(), x2, "svg-ref-edge"@)
    }
}

/// The arrows between the abstract nodes of consecutive steps, for the
/// steps `i` with `1 <= i < n`.
pub open spec fn abstract_edges(slots: Seq<usize>, n: int, last_is_valid: bool) -> Seq<char>
    decreases n,
{
    if n <= 1 {
        Seq::empty()
    } else {
        abstract_edges(slots, n - 1, last_is_valid) + abstract_edge(slots, n - 1, last_is_valid)
    }
}

/// Every arrow of the abstract layer but the last is a plain arrow from the
/// node of the step before to the node of its step, whatever the verdict
/// on the last step.
pub proof fn lemma_abstract_edges_before_last_are_plain(slots: Seq<usize>, i: int, last_is_valid: bool)
    requires
        1 <= i < slots.len() - 1,
    ensures
        abstract_edge(slots, i, last_is_valid) == edge(
            column_x(slots[i - 1] as nat),
            abstract_y(),
            column_x(slots[i] as nat),
            "svg-ref-edge"@,
        ),
{
}

/// The arrow into the last step goes from the node of the step before to
/// the node of the last step; it is plain where the last step passed the
/// check, and otherwise marked invalid and crossed out halfway between the
/// two nodes, on the abstract row.
pub proof fn lemma_last_abstract_edge(slots: Seq<usize>, last_is_valid: bool)
    requires
        slots.len() >= 2,
    ensures
        ({
            let x1 = column_x(slots[slots.len() - 2] as nat);
            let x2 = column_x(slots[slots.len() - 1] as nat);
            let mid = (x1 + x2) / 2;
            abstract_edge(slots, slots.len() - 1, last_is_valid) == if last_is_valid {
                edge(x1, abstract_y(), x2, "svg-ref-edge"@)
            } else {
                edge(x1, abstract_y(), x2, "svg-ref-edge svg-ref-edge-invalid"@) + cross(
                    (mid - 10) as nat,
                    mid + 10,
                    70,
                    90,
                )
            }
        }),
{
}

/// The verdict on the last step changes no arrow of the abstract layer but
/// the one into the last step.
pub proof fn lemma_verdict_marks_only_the_last_arrow(slots: Seq<usize>, n: int)
    requires
        n <= slots.len() - 1,
    ensures
        abstract_edges(slots, n, true) == abstract_edges(slots, n, false),
    decreases n,
{
    if n > 1 {
        lemma_verdict_marks_only_the_last_arrow(slots, n - 1);
        lemma_abstract_edges_before_last_are_plain(slots, n - 1, true);
        lemma_abstract_edges_before_last_are_plain(slots, n - 1, false);
    }
}

/// The lines from the concrete node of each step `s < n` to its middle node.
pub open spec fn concrete_mappings(slots: Seq<usize>, n: int) -> Seq<char>
    decreases n,
{
    if n <= 0 {
        Seq::empty()
    } else {
        concrete_mappings(slots, n - 1) + mapping_line(
            column_x(slots[n - 1] as nat),
            (concrete_y() - radius()) as nat,
            column_x((n - 1) as nat),
            middle_y() + radius(),
        )
    }
}

/// The lines from the middle node of each step `s < n` to its abstract node.
pub open spec fn abstract_mappings(slots: Seq<usize>, n: int) -> Seq<char>
    decreases n,
{
    if n <= 0 {
        Seq::empty()
    } else {
        abstract_mappings(slots, n - 1) + mapping_line(
            column_x((n - 1) as nat),
            (middle_y() - radius()) as nat,
            column_x(slots[n - 1] as nat),
            abstract_y() + radius(),
        )
    }
}

/// The line of step `s` from the middle to the abstract layer runs from the
/// step's middle node, in column `s`, to the abstract node the step stands
/// on, in column `slots[s]`; the lines of the earlier steps come before it.
pub proof fn lemma_abstract_mapping_of_step(slots: Seq<usize>, n: int, s: int)
    requires
        0 <= s < n <= slots.len(),
    ensures
        (abstract_mappings(slots, s) + mapping_line(
            column_x(s as nat),
            (middle_y() - radius()) as nat,
            column_x(slots[s] as nat),
            abstract_y() + radius(),
        )).is_prefix_of(abstract_mappings(slots, n)),
    decreases n,
{
    if n > s + 1 {
        lemma_abstract_mapping_of_step(slots, n - 1, s);
    }
}

/// The line of step `s` from the concrete to the middle layer runs from the
/// concrete node the step stands on, in column `slots[s]`, to the step's
/// middle node, in column `s`; the lines of the earlier steps come before it.
pub proof fn lemma_concrete_mapping_of_step(slots: Seq<usize>, n: int, s: int)
    requires
        0 <= s < n <= slots.len(),
    ensures
        (concrete_mappings(slots, s) + mapping_line(
            column_x(slots[s] as nat),
            (concrete_y() - radius()) as nat,
            column_x(s as nat),
            middle_y() + radius(),
        )).is_prefix_of(concrete_mappings(slots, n)),
    decreases n,
{
    if n > s + 1 {
        lemma_concrete_mapping_of_step(slots, n - 1, s);
    }
}

/// The arrow of step `i` along the concrete layer runs from the concrete
/// node of step `i - 1` to that of step `i`; the arrows of the earlier steps
/// come before it.
pub proof fn lemma_concrete_edge_of_step(slots: Seq<usize>, n: int, i: int)
    requires
        1 <= i < n <= slots.len(),
    ensures
        (concrete_edges(slots, i) + edge(
            column_x(slots[i - 1] as nat),
            concrete_y(),
            column_x(slots[i] as nat),
            "svg-ref-edge"@,
        )).is_prefix_of(concrete_edges(slots, n)),
    decreases n,
{
    if n > i + 1 {
        lemma_concrete_edge_of_step(slots, n - 1, i);
    }
}

/// The arrow of step `i` along the middle layer runs from column `i - 1` to
/// column `i`; the arrows of the earlier steps come before it.
pub proof fn lemma_middle_edge_of_step(n: int, i: int)
    requires
        1 <= i < n,
    ensures
        (middle_edges(i) + edge(
            column_x((i - 1) as nat),
            middle_y(),
            column_x(i as nat),
            "svg-ref-edge"@,
        )).is_prefix_of(middle_edges(n)),
    decreases n,
{
    if n > i + 1 {
        lemma_middle_edge_of_step(n - 1, i);
    }
}

/// The arrow of step `i` along the abstract layer comes after the arrows of
/// the earlier steps.
pub proof fn lemma_abstract_edge_of_step(slots: Seq<usize>, n: int, i: int, last_is_valid: bool)
    requires
        1 <= i < n <= slots.len(),
    ensures
        (abstract_edges(slots, i, last_is_valid) + abstract_edge(slots, i, last_is_valid)).is_prefix_of(
            abstract_edges(slots, n, last_is_valid),
        ),
    decreases n,
{
    if n > i + 1 {
        lemma_abstract_edge_of_step(slots, n - 1, i, last_is_valid);
    }
}

/// Node `k` of a layer is drawn in column `k` at the layer's height, after
/// the nodes before it.
pub proof fn lemma_node_in_its_column(nodes: Seq<NodeMeta>, y: nat, n: int, k: int)
    requires
        0 <= k < n,
    ensures
        (node_groups(nodes, y, k) + node_group(
            column_x(k as nat),
            y,
            nodes[k].title@,
            nodes[k].label@,
        )).is_prefix_of(node_groups(nodes, y, n)),
    decreases n,
{
    if n > k + 1 {
        lemma_node_in_its_column(nodes, y, n - 1, k);
    }
}

/// The first `n` nodes of a layer at height `y`, one per column.
pub open spec fn node_groups(nodes: Seq<NodeMeta>, y: nat, n: int) -> Seq<char>
    decreases n,
{
    if n <= 0 {
        Seq::empty()
    } else {
        node_groups(nodes, y, n - 1) + node_group(
            column_x((n - 1) as nat),
            y,
            nodes[n - 1].title@,
            nodes[n - 1].label@,
        )
    }
}

impl SvgLayout {
    /// The drawing: the three layers, the arrows along them, the lines
    /// between them, and the nodes, drawn over the lines.
    pub open spec fn rendering(&self) -> Seq<char> {
        let a = self.abstract_path_slots@;
        let c = self.concrete_path_slots@;
        header(self.width(), drawing_height()) + defs() + layer_labels() + concrete_edges(c, c.len() as int)
            + middle_edges(self.middle_nodes@.len() as int) + abstract_edges(
            a,
            a.len() as int,
            self.last_is_valid,
        ) + concrete_mappings(c, c.len() as int) + abstract_mappings(a, a.len() as int)
            + node_groups(self.abstract_nodes@, abstract_y(), self.abstract_nodes@.len() as int)
            + node_groups(self.middle_nodes@, middle_y(), self.middle_nodes@.len() as int)
            + node_groups(self.concrete_nodes@, concrete_y(), self.concrete_nodes@.len() as int)
            + "</svg>"@
    }
}

/// Appends the first `n` nodes of `nodes` at height `y`.
fn push_node_groups(out: &mut String, nodes: &Vec<NodeMeta>, y: u128)
    ensures
        final(out)@ == old(out)@ + node_groups(nodes@, y as nat, nodes@.len() as int),
{
    let ghost start = out@;
    for i in 0..nodes.len()
        invariant
            out@ == start + node_groups(nodes@, y as nat, i as int),
    {
        push_node_group(out, column(i), y, &nodes[i]);
    }
}

/// Appends the opening tag, the arrowhead and the names of the layers.
fn push_opening(out: &mut String, width: u128, height: u128)
    ensures
        final(out)@ == old(out)@ + header(width as nat, height as nat) + defs() + layer_labels(),
{
    out.append("<svg version='1.1' baseProfile='full' width='");
    push_decimal(out, width);
    out.append("' height='");
    push_decimal(out, height);
    out.append("' viewBox='0 0 ");
    push_decimal(out, width);
    out.append(" ");
    push_decimal(out, height);
    out.append("' xmlns='http://www.w3.org/2000/svg'>");
    out.append(
        "<defs><marker id='refinement-arrow' markerWidth='12' markerHeight='10' refX='12' refY='5' orient='auto'><polygon points='0 0, 12 5, 0 10' class='svg-ref-edge-head'/></marker></defs>",
    );
    out.append("<text class='svg-ref-label' x='20' y='");
    push_decimal(out, 80);
    out.append("'>Abstract</text><text class='svg-ref-label' x='12' y='");
    push_decimal(out, 200);
    out.append("'>Concrete+Aux</text><text class='svg-ref-label' x='20' y='");
    push_decimal(out, 320);
    out.append("'>Concrete</text>");
}

/// Appends the [`concrete_edges`] of the whole path.
fn push_concrete_edges(out: &mut String, c: &Vec<usize>)
    ensures
        final(out)@ == old(out)@ + concrete_edges(c@, c@.len() as int),
{
    let ghost start = out@;
    let mut i: usize = 1;
    while i < c.len()
        invariant
            1 <= i,
            i <= c@.len() || i == 1,
            out@ == start + concrete_edges(c@, i as int),
        decreases c.len() - i,
    {
        push_edge(out, column(c[i - 1]), 320, column(c[i]), "svg-ref-edge");
        i = i + 1;
    }
}

/// Appends the [`middle_edges`] of `n` middle nodes.
fn push_middle_edges(out: &mut String, n: usize)
    ensures
        final(out)@ == old(out)@ + middle_edges(n as int),
{
    let ghost start = out@;
    let mut i: usize = 1;
    while i < n
        invariant
            1 <= i,
            i <= n || i == 1,
            out@ == start + middle_edges(i as int),
        decreases n - i,
    {
        push_edge(out, column(i - 1), 200, column(i), "svg-ref-edge");
        i = i + 1;
    }
}

/// Appends the [`abstract_edges`] of the whole path.
fn push_abstract_edges(out: &mut String, a: &Vec<usize>, last_is_valid: bool)
    ensures
        final(out)@ == old(out)@ + abstract_edges(a@, a@.len() as int, last_is_valid),
{
    let ghost start = out@;
    let mut i: usize = 1;
    while i < a.len()
        invariant
            1 <= i,
            i <= a@.len() || i == 1,
            out@ == start + abstract_edges(a@, i as int, last_is_valid),
        decreases a.len() - i,
    {
        let x1 = column(a[i - 1]);
        let x2 = column(a[i]);
        if i == a.len() - 1 && !last_is_valid {
            push_edge(out, x1, 80, x2, "svg-ref-edge svg-ref-edge-invalid");
            let mid_x = (x1 + x2) / 2;
            push_cross(out, mid_x - 10, mid_x + 10, 80 - 10, 80 + 10);
        } else {
            push_edge(out, x1, 80, x2, "svg-ref-edge");
        }
        i = i + 1;
    }
}

/// Appends the [`concrete_mappings`] of the whole path.
fn push_concrete_mappings(out: &mut String, c: &Vec<usize>)
    ensures
        final(out)@ == old(out)@ + concrete_mappings(c@, c@.len() as int),
{
    let ghost start = out@;
    for i in 0..c.len()
        invariant
            out@ == start + concrete_mappings(c@, i as int),
    {
        push_mapping_line(out, column(c[i]), 320 - 22, column(i), 200 + 22);
    }
}

/// Appends the [`abstract_mappings`] of the whole path.
fn push_abstract_mappings(out: &mut String, a: &Vec<usize>)
    ensures
        final(out)@ == old(out)@ + abstract_mappings(a@, a@.len() as int),
{
    let ghost start = out@;
    for i in 0..a.len()
        invariant
            out@ == start + abstract_mappings(a@, i as int),
    {
        push_mapping_line(out, column(i), 200 - 22, column(a[i]), 80 + 22);
    }
}

/// The number of columns after the first that `n` nodes take.
fn columns_after_first(n: usize) -> (span: usize)
    ensures
        span == less_one(n as nat),
{
    if n > 0 {
        n - 1
    } else {
        0
    }
}

/// Draws the layout as an SVG document.
pub fn render_svg(layout: &SvgLayout) -> (svg: String)
    ensures
        svg@ == layout.rendering(),
{
    let span_a = columns_after_first(layout.abstract_nodes.len());
    let span_c = columns_after_first(layout.concrete_nodes.len());
    let span_m = columns_after_first(layout.middle_nodes.len());
    let span_ac = if span_a >= span_c {
        span_a
    } else {
        span_c
    };
    let span = if span_ac >= span_m {
        span_ac
    } else {
        span_m
    };
    let width: u128 = 140 + 120 + 150 * (span as u128);
    let mut svg = String::new();
    push_opening(&mut svg, width, 80 * 3 + 120 * 2);
    // Concrete transitions (deduplicated path)
    push_concrete_edges(&mut svg, &layout.concrete_path_slots);
    // Middle transitions (one per step)
    push_middle_edges(&mut svg, layout.middle_nodes.len());
    // Abstract transitions (deduplicated path, the last one crossed out if invalid)
    push_abstract_edges(&mut svg, &layout.abstract_path_slots, layout.last_is_valid);
    // Concrete -> middle mappings (one per step)
    push_concrete_mappings(&mut svg, &layout.concrete_path_slots);
    // Middle -> abstract mappings (one per step)
    push_abstract_mappings(&mut svg, &layout.abstract_path_slots);
    // Nodes, drawn over the lines
    push_node_groups(&mut svg, &layout.abstract_nodes, 80);
    push_node_groups(&mut svg, &layout.middle_nodes, 200);
    push_node_groups(&mut svg, &layout.concrete_nodes, 320);
    svg.append("</svg>");
    svg
}

/// Calls `Hash::hash` to feed `value` to `hasher`, and hands the hasher
/// back. What it writes is up to the `Hash` impl of `T`; nothing is claimed
/// of it.
#[verifier::external_body]
fn feed<T: Hash>(value: &T, hasher: DefaultHasher) -> (fed: DefaultHasher) {
    let mut hasher = hasher;
    value.hash(&mut hasher);
    hasher
}

/// Calls `format!` with `{:#?}`: the pretty-printed `Debug` text of
/// `value`. What it holds is up to the `Debug` impl of `T`; nothing is
/// claimed of it.
#[verifier::external_body]
fn debug_text<T: Debug>(value: &T) -> String {
    format!("{:#?}", value)
}

/// Whether `digest` is a value that [`fingerprint`] may return for `value`.
pub open spec fn digest_of<T: Hash>(value: T, digest: u64) -> bool {
    call_ensures(fingerprint::<T>, (&value,), digest)
}

/// Whether `text` is a text that the pretty-printed `Debug` formatting of
/// `value` may give ([`describe`]).
pub closed spec fn described<T: Debug>(value: T, text: Seq<char>) -> bool {
    exists|s: String| #[trigger] call_ensures(debug_text::<T>, (&value,), s) && s@ == text
}

/// The pretty-printed `Debug` text of `value`.
pub fn describe<T: Debug>(value: &T) -> (text: String)
    ensures
        described(*value, text@),
{
    debug_text(value)
}

/// A 64-bit digest of `value`: what its `Hash` impl feeds a fresh
/// `DefaultHasher`, finished. Which bytes the `Hash` impl writes is up to
/// that impl, so the digest is stated as the finish value of the byte
/// chunks that were written, whatever they are.
pub fn fingerprint<T: Hash>(value: &T) -> (digest: u64)
    ensures
        exists|written: Seq<Seq<u8>>| #[trigger] DefaultHasher::spec_finish(written) == digest,
        hashed_digest(*value, digest),
{
    let fresh = DefaultHasher::new();
    let hasher = feed(value, fresh);
    proof {
        assert(call_ensures(feed::<T>, (value, fresh), hasher));
    }
    hasher.finish()
}

/// Whether `digest` is what a fresh `DefaultHasher`, after `value`'s `Hash`
/// impl has fed it ([`feed`]), finishes with: the 64-bit finish of exactly
/// the bytes that the impl writes, with nothing added or cut.
pub closed spec fn hashed_digest<T: Hash>(value: T, digest: u64) -> bool {
    exists|fresh: DefaultHasher, fed: DefaultHasher|
        #[trigger] call_ensures(feed::<T>, (&value, fresh), fed) && fresh@ == Seq::<Seq<u8>>::empty()
            && digest == DefaultHasher::spec_finish(fed@)
}

/// Whether step `j` is the first of `slots` to stand on node `k`.
pub open spec fn opens(slots: Seq<usize>, j: int, k: int) -> bool {
    &&& 0 <= j < slots.len()
    &&& slots[j] == k
    &&& forall|i: int| 0 <= i < j ==> slots[i] != k
}

/// The position of the first of `reps`, at or after `from`, that `same`
/// relates to `key`; `reps.len()` where there is none.
pub open spec fn first_match<K>(reps: Seq<K>, key: K, same: spec_fn(K, K) -> bool, from: nat) -> nat
    decreases reps.len() - from,
{
    if from >= reps.len() {
        reps.len()
    } else if same(reps[from as int], key) {
        from
    } else {
        first_match(reps, key, same, from + 1)
    }
}

/// A first match lies at or after `from` and at most at the end.
pub proof fn lemma_first_match_bound<K>(reps: Seq<K>, key: K, same: spec_fn(K, K) -> bool, from: nat)
    ensures
        first_match(reps, key, same, from) <= reps.len(),
        from <= reps.len() ==> from <= first_match(reps, key, same, from),
        first_match(reps, key, same, from) < reps.len() ==> same(
            reps[first_match(reps, key, same, from) as int],
            key,
        ),
    decreases reps.len() - from,
{
    if from < reps.len() && !same(reps[from as int], key) {
        lemma_first_match_bound(reps, key, same, from + 1);
    }
}

/// The first match at or after `from` is at `k` where nothing between
/// matches and `k` does, or `k` is the end.
pub proof fn lemma_first_match_at<K>(reps: Seq<K>, key: K, same: spec_fn(K, K) -> bool, from: nat, k: nat)
    requires
        from <= k <= reps.len(),
        forall|i: int| from <= i < k ==> !same(#[trigger] reps[i], key),
        k < reps.len() ==> same(reps[k as int], key),
    ensures
        first_match(reps, key, same, from) == k,
    decreases k - from,
{
    if from < k {
        lemma_first_match_at(reps, key, same, from + 1, k);
    }
}

/// Where the first match at or after `from` is the end, nothing from
/// `from` on matches.
pub proof fn lemma_first_match_none<K>(reps: Seq<K>, key: K, same: spec_fn(K, K) -> bool, from: nat)
    requires
        first_match(reps, key, same, from) == reps.len(),
    ensures
        forall|i: int| from <= i < reps.len() ==> !same(#[trigger] reps[i], key),
    decreases reps.len() - from,
{
    if from < reps.len() {
        lemma_first_match_none(reps, key, same, from + 1);
    }
}

/// Whether `same` is an equivalence relation.
pub open spec fn is_equivalence<K>(same: spec_fn(K, K) -> bool) -> bool {
    &&& forall|x: K| #[trigger] same(x, x)
    &&& forall|x: K, y: K| #[trigger] same(x, y) ==> same(y, x)
    &&& forall|x: K, y: K, z: K| #[trigger] same(x, y) && #[trigger] same(y, z) ==> same(x, z)
}

/// Where `same` is an equivalence, a layer has one node per class of keys:
/// no two nodes' keys are related, each key is related to its node's key,
/// and two keys stand on the same node exactly when they are related.
pub proof fn lemma_layer_classes<K>(keys: Seq<K>, same: spec_fn(K, K) -> bool)
    requires
        is_equivalence(same),
    ensures
        layer_slots(keys, same).len() == keys.len(),
        forall|a: int, b: int|
            0 <= a < b < layer_reps(keys, same).len() ==> !same(
                #[trigger] layer_reps(keys, same)[a],
                #[trigger] layer_reps(keys, same)[b],
            ),
        forall|j: int|
            0 <= j < keys.len() ==> #[trigger] layer_slots(keys, same)[j] < layer_reps(keys, same).len()
                && same(layer_reps(keys, same)[layer_slots(keys, same)[j] as int], keys[j]),
        forall|i: int, j: int|
            0 <= i < keys.len() && 0 <= j < keys.len() ==> (#[trigger] layer_slots(keys, same)[i]
                == #[trigger] layer_slots(keys, same)[j] <==> same(keys[i], keys[j])),
    decreases keys.len(),
{
    if keys.len() > 0 {
        let shorter = keys.drop_last();
        let key = keys.last();
        lemma_layer_classes(shorter, same);
        lemma_layer_push(shorter, key, same);
        assert(shorter.push(key) =~= keys);
        let reps0 = layer_reps(shorter, same);
        let slots0 = layer_slots(shorter, same);
        let reps = layer_reps(keys, same);
        let slots = layer_slots(keys, same);
        let fm = first_match(reps0, key, same, 0);
        lemma_first_match_bound(reps0, key, same, 0);
        if fm == reps0.len() {
            lemma_first_match_none(reps0, key, same, 0);
        }
        let n = shorter.len() as int;
        assert(slots[n] == fm);
        assert(same(reps[fm as int], key)) by {
            if fm == reps0.len() {
                assert(reps[fm as int] == key);
            }
        }
        assert forall|j: int| 0 <= j < n implies #[trigger] slots[j] == slots0[j] && keys[j] == shorter[j]
            && reps[slots0[j] as int] == reps0[slots0[j] as int] by {}
        assert forall|a: int, b: int| 0 <= a < b < reps.len() implies !same(
            #[trigger] reps[a],
            #[trigger] reps[b],
        ) by {
            if b >= reps0.len() {
                assert(reps[b] == key);
                assert(reps[a] == reps0[a]);
            } else {
                assert(reps[a] == reps0[a] && reps[b] == reps0[b]);
            }
        }
        assert forall|j: int| 0 <= j < keys.len() implies #[trigger] slots[j] < reps.len() && same(
            reps[slots[j] as int],
            keys[j],
        ) by {
            if j < n {
                assert(same(reps0[slots0[j] as int], shorter[j]));
            }
        }
        assert forall|i: int, j: int| 0 <= i < keys.len() && 0 <= j < keys.len() implies (#[trigger] slots[i]
            == #[trigger] slots[j] <==> same(keys[i], keys[j])) by {
            if i < n && j < n {
                assert(slots0[i] == slots0[j] <==> same(shorter[i], shorter[j]));
            } else {
                if i != n || j != n {
                    let m = if i == n {
                        j
                    } else {
                        i
                    };
                    let sm = slots[m];
                    assert(same(reps[sm as int], keys[m]));
                    if slots[m] == slots[n] {
                        assert(same(reps[fm as int], key));
                        assert(same(key, reps[fm as int]));
                        assert(same(key, keys[m]));
                        assert(same(keys[m], key));
                    }
                    if same(keys[m], key) || same(key, keys[m]) {
                        assert(same(keys[m], key));
                        assert(same(reps[sm as int], key));
                        if fm == reps0.len() {
                            assert(sm < reps0.len());
                            assert(reps[sm as int] == reps0[sm as int]);
                        } else if sm != fm {
                            assert(same(key, reps[fm as int]));
                            assert(same(reps[sm as int], reps[fm as int]));
                            assert(same(reps[fm as int], reps[sm as int]));
                        }
                    }
                }
            }
        }
    }
}

/// The keys that open a node of a layer, in order: each key that `same`
/// relates no earlier such key to.
pub open spec fn layer_reps<K>(keys: Seq<K>, same: spec_fn(K, K) -> bool) -> Seq<K>
    decreases keys.len(),
{
    if keys.len() == 0 {
        Seq::empty()
    } else {
        let reps = layer_reps(keys.drop_last(), same);
        if first_match(reps, keys.last(), same, 0) < reps.len() {
            reps
        } else {
            reps.push(keys.last())
        }
    }
}

/// The node of the layer that each key stands on: the first earlier node
/// whose key `same` relates to it, or else a new node.
pub open spec fn layer_slots<K>(keys: Seq<K>, same: spec_fn(K, K) -> bool) -> Seq<nat>
    decreases keys.len(),
{
    if keys.len() == 0 {
        Seq::empty()
    } else {
        layer_slots(keys.drop_last(), same).push(
            first_match(layer_reps(keys.drop_last(), same), keys.last(), same, 0),
        )
    }
}

/// One more key extends the layer by its slot, and opens a node where no
/// earlier node matches it.
pub proof fn lemma_layer_push<K>(keys: Seq<K>, key: K, same: spec_fn(K, K) -> bool)
    ensures
        layer_slots(keys, same).len() == keys.len(),
        layer_slots(keys.push(key), same) == layer_slots(keys, same).push(
            first_match(layer_reps(keys, same), key, same, 0),
        ),
        layer_reps(keys.push(key), same) == if first_match(layer_reps(keys, same), key, same, 0)
            < layer_reps(keys, same).len() {
            layer_reps(keys, same)
        } else {
            layer_reps(keys, same).push(key)
        },
    decreases keys.len(),
{
    assert(keys.push(key).drop_last() == keys);
    if keys.len() > 0 {
        lemma_layer_push(keys.drop_last(), keys.last(), same);
        assert(keys.drop_last().push(keys.last()) == keys);
    }
}

/// The title of a node begins with its kind, number and fingerprint, and
/// with the start of its description.
pub proof fn lemma_title_prefix(
    kind: Seq<char>,
    index: nat,
    fingerprint: u64,
    head: Seq<char>,
    tail: Seq<char>,
)
    ensures
        title_text(kind, index, fingerprint, head).is_prefix_of(
            title_text(kind, index, fingerprint, head + tail),
        ),
{
    let whole = title_text(kind, index, fingerprint, head + tail);
    let start = title_text(kind, index, fingerprint, head);
    assert(whole == start + tail);
    assert(whole.subrange(0, start.len() as int) == start);
}

/// Equality of fingerprints.
pub open spec fn same_fingerprint() -> spec_fn(u64, u64) -> bool {
    |a: u64, b: u64| a == b
}

/// A layer's text for a number: `prefix` followed by the decimal numeral.
pub fn numbered(prefix: &str, n: usize) -> (text: String)
    ensures
        text@ == prefix@ + decimal(n as nat),
{
    let mut text = String::from_str(prefix);
    push_decimal(&mut text, n as u128);
    text
}

/// Whether `nodes` and `slots` are the layer that keys `fingerprints`
/// give, under labels `prefix` followed by the node's number and titles of
/// `kind` with the node's number and fingerprint.
pub open spec fn fingerprint_layer(
    kind: Seq<char>,
    prefix: Seq<char>,
    fingerprints: Seq<u64>,
    nodes: Seq<NodeMeta>,
    slots: Seq<usize>,
) -> bool {
    let reps = layer_reps(fingerprints, same_fingerprint());
    &&& nodes.len() == reps.len()
    &&& slots.len() == fingerprints.len()
    &&& forall|i: int|
        0 <= i < slots.len() ==> #[trigger] slots[i] as nat == layer_slots(
            fingerprints,
            same_fingerprint(),
        )[i]
    &&& forall|k: int|
        0 <= k < nodes.len() ==> (#[trigger] nodes[k]).label@ == prefix + decimal(k as nat)
            && title_text(kind, k as nat, reps[k], Seq::empty()).is_prefix_of(nodes[k].title@)
}

/// Equality of observations, as `PartialEq` specifies it.
pub open spec fn same_observation<O: PartialEq>() -> spec_fn(O, O) -> bool {
    |a: O, b: O| a.eq_spec(&b)
}

/// Whether `nodes` and `slots` are the abstract layer that `observations`
/// give, where the node opened by an observation carries fingerprint
/// `fingerprints[k]`.
pub open spec fn observation_layer<O: PartialEq>(
    observations: Seq<O>,
    fingerprints: Seq<u64>,
    nodes: Seq<NodeMeta>,
    slots: Seq<usize>,
) -> bool {
    let reps = layer_reps(observations, same_observation());
    &&& nodes.len() == reps.len()
    &&& fingerprints.len() == reps.len()
    &&& slots.len() == observations.len()
    &&& forall|i: int|
        0 <= i < slots.len() ==> #[trigger] slots[i] as nat == layer_slots(
            observations,
            same_observation(),
        )[i]
    &&& forall|k: int|
        0 <= k < nodes.len() ==> (#[trigger] nodes[k]).label@ == "A"@ + decimal(k as nat)
            && title_text("Abstract"@, k as nat, fingerprints[k], "Observable: "@).is_prefix_of(
            nodes[k].title@,
        )
}

} // verus!
