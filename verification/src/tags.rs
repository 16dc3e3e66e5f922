use crate::svg::{
    abstract_edge, abstract_edges, abstract_mappings, concrete_edges, concrete_mappings, cross,
    decimal, defs, digit, edge, header, layer_labels, mapping_line, middle_edges, node_group,
    node_groups, SvgLayout,
};
use crate::text::{escaped, lemma_escaped_has_no_markup};
use vstd::prelude::*;

verus! {

/// The opening tag of a node of the drawing.
pub open spec fn node_tag() -> Seq<char> {
    "<g class='svg-ref-node'>"@
}

/// The number of positions of `text` at which `pattern` starts.
pub open spec fn occurrences(text: Seq<char>, pattern: Seq<char>) -> nat
    decreases text.len(),
{
    if text.len() == 0 {
        0
    } else {
        (if pattern.is_prefix_of(text) {
            1nat
        } else {
            0nat
        }) + occurrences(text.skip(1), pattern)
    }
}

/// Whether every `<` of `text` at or after position `from` is followed,
/// inside `text`, by a character other than `g`: no node tag starts there.
pub open spec fn no_group_from(text: Seq<char>, from: int) -> bool {
    forall|i: int|
        from <= i < text.len() && #[trigger] text[i] == '<' ==> i + 1 < text.len() && text[i + 1]
            != 'g'
}

/// Two pieces without a node tag make a text without one.
pub broadcast proof fn lemma_no_group_concat(a: Seq<char>, b: Seq<char>, from: int)
    ensures
        0 <= from <= a.len() && no_group_from(a, from) && no_group_from(b, 0) ==> #[trigger] no_group_from(
            a + b,
            from,
        ),
{
    if 0 <= from <= a.len() && no_group_from(a, from) && no_group_from(b, 0) {
        let t = a + b;
        assert forall|i: int| from <= i < t.len() && #[trigger] t[i] == '<' implies i + 1 < t.len()
            && t[i + 1] != 'g' by {
            if i < a.len() {
                assert(a[i] == '<');
                assert(t[i + 1] == a[i + 1]);
            } else {
                assert(b[i - a.len()] == '<');
                assert(t[i + 1] == b[i + 1 - a.len()]);
            }
        }
    }
}

/// A decimal numeral holds no `<`.
proof fn lemma_decimal_no_group(n: nat)
    ensures
        no_group_from(decimal(n), 0),
        forall|i: int| 0 <= i < decimal(n).len() ==> #[trigger] decimal(n)[i] != '<',
    decreases n,
{
    if n >= 10 {
        lemma_decimal_no_group(n / 10);
    }
    assert forall|i: int| 0 <= i < decimal(n).len() implies #[trigger] decimal(n)[i] != '<' by {
        if n < 10 {
            assert(decimal(n)[i] == digit(n as int));
        } else if i < decimal(n / 10).len() {
            assert(decimal(n)[i] == decimal(n / 10)[i]);
        } else {
            assert(decimal(n)[i] == digit((n % 10) as int));
        }
    }
}

/// Escaped text holds no `<`.
proof fn lemma_escaped_no_group(text: Seq<char>)
    ensures
        no_group_from(escaped(text), 0),
{
    lemma_escaped_has_no_markup(text);
}

/// A text in which no node tag starts holds none.
proof fn lemma_no_group_no_tags(text: Seq<char>)
    requires
        no_group_from(text, 0),
    ensures
        occurrences(text, node_tag()) == 0,
    decreases text.len(),
{
    reveal_strlit("<g class='svg-ref-node'>");
    if text.len() > 0 {
        if node_tag().is_prefix_of(text) {
            assert(text[0] == node_tag()[0]);
            assert(text[1] == node_tag()[1]);
        }
        assert forall|i: int| 0 <= i < text.skip(1).len() && #[trigger] text.skip(1)[i] == '<' implies i + 1
            < text.skip(1).len() && text.skip(1)[i + 1] != 'g' by {
            assert(text[i + 1] == '<');
        }
        lemma_no_group_no_tags(text.skip(1));
    }
}

/// Counting node tags is additive where the second text is empty or starts
/// with `<`: no tag runs across the seam.
proof fn lemma_tags_concat(a: Seq<char>, b: Seq<char>)
    requires
        b.len() == 0 || b[0] == '<',
    ensures
        occurrences(a + b, node_tag()) == occurrences(a, node_tag()) + occurrences(b, node_tag()),
    decreases a.len(),
{
    reveal_strlit("<g class='svg-ref-node'>");
    let tag = node_tag();
    if a.len() == 0 {
        assert(a + b =~= b);
    } else {
        let t = a + b;
        assert(t.skip(1) =~= a.skip(1) + b);
        lemma_tags_concat(a.skip(1), b);
        if tag.len() <= a.len() {
            assert(t.subrange(0, tag.len() as int) =~= a.subrange(0, tag.len() as int));
        } else if tag.is_prefix_of(t) {
            assert(b.len() > 0);
            assert(t[a.len() as int] == b[0]);
            assert(tag[a.len() as int] == t[a.len() as int]);
        }
    }
}

/// No node tag starts in an arrow along a layer.
proof fn lemma_edge_no_group(x1: nat, y: nat, x2: nat, class: Seq<char>)
    requires
        forall|i: int| 0 <= i < class.len() ==> #[trigger] class[i] != '<',
    ensures
        no_group_from(edge(x1, y, x2, class), 0),
{
    broadcast use lemma_no_group_concat;
    reveal_strlit("<line x1='");
    reveal_strlit("' y1='");
    reveal_strlit("' x2='");
    reveal_strlit("' y2='");
    reveal_strlit("' class='");
    reveal_strlit("' marker-end='url(#refinement-arrow)'/>");
    lemma_decimal_no_group(x1);
    lemma_decimal_no_group(y);
    lemma_decimal_no_group(x2);
    assert(no_group_from(class, 0));
    assert(no_group_from("<line x1='"@, 0));
    assert(no_group_from("' y1='"@, 0));
    assert(no_group_from("' x2='"@, 0));
    assert(no_group_from("' y2='"@, 0));
    assert(no_group_from("' class='"@, 0));
    assert(no_group_from("' marker-end='url(#refinement-arrow)'/>"@, 0));
    assert(no_group_from(edge(x1, y, x2, class), 0));
}

/// No node tag starts in a crossing-out.
proof fn lemma_cross_no_group(x1: nat, x2: nat, y1: nat, y2: nat)
    ensures
        no_group_from(cross(x1, x2, y1, y2), 0),
{
    broadcast use lemma_no_group_concat;
    reveal_strlit("<line x1='");
    reveal_strlit("' y1='");
    reveal_strlit("' x2='");
    reveal_strlit("' y2='");
    reveal_strlit("' class='svg-ref-invalid-cross'/>");
    lemma_decimal_no_group(x1);
    lemma_decimal_no_group(x2);
    lemma_decimal_no_group(y1);
    lemma_decimal_no_group(y2);
    assert(no_group_from("<line x1='"@, 0));
    assert(no_group_from("' y1='"@, 0));
    assert(no_group_from("' x2='"@, 0));
    assert(no_group_from("' y2='"@, 0));
    assert(no_group_from("' class='svg-ref-invalid-cross'/>"@, 0));
    assert(no_group_from(cross(x1, x2, y1, y2), 0));
}

/// No node tag starts in a line between layers.
proof fn lemma_mapping_line_no_group(x1: nat, y1: nat, x2: nat, y2: nat)
    ensures
        no_group_from(mapping_line(x1, y1, x2, y2), 0),
{
    broadcast use lemma_no_group_concat;
    reveal_strlit("<line x1='");
    reveal_strlit("' y1='");
    reveal_strlit("' x2='");
    reveal_strlit("' y2='");
    reveal_strlit("' class='svg-ref-mapping-line'/>");
    lemma_decimal_no_group(x1);
    lemma_decimal_no_group(x2);
    lemma_decimal_no_group(y1);
    lemma_decimal_no_group(y2);
    assert(no_group_from("<line x1='"@, 0));
    assert(no_group_from("' y1='"@, 0));
    assert(no_group_from("' x2='"@, 0));
    assert(no_group_from("' y2='"@, 0));
    assert(no_group_from("' class='svg-ref-mapping-line'/>"@, 0));
    assert(no_group_from(mapping_line(x1, y1, x2, y2), 0));
}

/// No node tag starts in the opening tag, the arrowhead or the layer names.
proof fn lemma_frame_no_group(width: nat, height: nat)
    ensures
        no_group_from(header(width, height) + defs() + layer_labels(), 0),
{
    broadcast use lemma_no_group_concat;
    reveal_strlit("<svg version='1.1' baseProfile='full' width='");
    reveal_strlit("' height='");
    reveal_strlit("' viewBox='0 0 ");
    reveal_strlit(" ");
    reveal_strlit("' xmlns='http://www.w3.org/2000/svg'>");
    reveal_strlit("<defs><marker id='refinement-arrow' markerWidth='12' markerHeight='10' refX='12' refY='5' orient='auto'><polygon points='0 0, 12 5, 0 10' class='svg-ref-edge-head'/></marker></defs>");
    reveal_strlit("<text class='svg-ref-label' x='20' y='");
    reveal_strlit("'>Abstract</text><text class='svg-ref-label' x='12' y='");
    reveal_strlit("'>Concrete+Aux</text><text class='svg-ref-label' x='20' y='");
    reveal_strlit("'>Concrete</text>");
    lemma_decimal_no_group(width);
    lemma_decimal_no_group(height);
    lemma_decimal_no_group(80);
    lemma_decimal_no_group(200);
    lemma_decimal_no_group(320);
    assert(no_group_from("<svg version='1.1' baseProfile='full' width='"@, 0));
    assert(no_group_from("' height='"@, 0));
    assert(no_group_from("' viewBox='0 0 "@, 0));
    assert(no_group_from(" "@, 0));
    assert(no_group_from("' xmlns='http://www.w3.org/2000/svg'>"@, 0));
    assert(no_group_from(header(width, height), 0));
    assert(no_group_from(defs(), 0));
    assert(no_group_from("<text class='svg-ref-label' x='20' y='"@, 0));
    assert(no_group_from("'>Abstract</text><text class='svg-ref-label' x='12' y='"@, 0));
    assert(no_group_from("'>Concrete+Aux</text><text class='svg-ref-label' x='20' y='"@, 0));
    assert(no_group_from("'>Concrete</text>"@, 0));
    assert(no_group_from(layer_labels(), 0));
}

/// A text that starts with a node tag and in which no other starts holds
/// exactly one.
proof fn lemma_one_tag(text: Seq<char>)
    requires
        node_tag().is_prefix_of(text),
        no_group_from(text, 1),
    ensures
        occurrences(text, node_tag()) == 1,
{
    reveal_strlit("<g class='svg-ref-node'>");
    assert(text.len() > 0);
    let rest = text.skip(1);
    assert forall|i: int| 0 <= i < rest.len() && #[trigger] rest[i] == '<' implies i + 1 < rest.len()
        && rest[i + 1] != 'g' by {
        assert(text[i + 1] == '<');
    }
    lemma_no_group_no_tags(rest);
}

/// A node of the drawing holds exactly one node tag, at its start.
proof fn lemma_node_group_one_tag(x: nat, y: nat, title: Seq<char>, label: Seq<char>)
    ensures
        occurrences(node_group(x, y, title, label), node_tag()) == 1,
        node_group(x, y, title, label)[0] == '<',
{
    broadcast use lemma_no_group_concat;
    reveal_strlit("<g class='svg-ref-node'>");
    reveal_strlit("<g class='svg-ref-node'><circle class='svg-ref-state-circle' cx='");
    reveal_strlit("' cy='");
    reveal_strlit("' r='");
    reveal_strlit("'><title>");
    reveal_strlit("</title></circle><text class='svg-ref-state-text' x='");
    reveal_strlit("' y='");
    reveal_strlit("'>");
    reveal_strlit("</text></g>");
    lemma_decimal_no_group(x);
    lemma_decimal_no_group(y);
    lemma_decimal_no_group(22);
    lemma_escaped_no_group(title);
    lemma_escaped_no_group(label);
    let first = "<g class='svg-ref-node'><circle class='svg-ref-state-circle' cx='"@;
    assert(no_group_from(first, 1));
    assert(no_group_from("' cy='"@, 0));
    assert(no_group_from("' r='"@, 0));
    assert(no_group_from("'><title>"@, 0));
    assert(no_group_from("</title></circle><text class='svg-ref-state-text' x='"@, 0));
    assert(no_group_from("' y='"@, 0));
    assert(no_group_from("'>"@, 0));
    assert(no_group_from("</text></g>"@, 0));
    let group = node_group(x, y, title, label);
    assert(no_group_from(group, 1));
    assert(group[0] == first[0]);
    assert(group.subrange(0, node_tag().len() as int) =~= node_tag()) by {
        assert forall|k: int| 0 <= k < node_tag().len() implies group[k] == node_tag()[k] by {
            assert(group[k] == first[k]);
        }
    }
    lemma_one_tag(group);
}

/// No node tag starts in the arrows along the concrete layer.
proof fn lemma_concrete_edges_no_group(slots: Seq<usize>, n: int)
    ensures
        no_group_from(concrete_edges(slots, n), 0),
    decreases n,
{
    broadcast use lemma_no_group_concat;
    reveal_strlit("svg-ref-edge");
    if n > 1 {
        lemma_concrete_edges_no_group(slots, n - 1);
        lemma_edge_no_group(
            crate::svg::column_x(slots[n - 2] as nat),
            crate::svg::concrete_y(),
            crate::svg::column_x(slots[n - 1] as nat),
            "svg-ref-edge"@,
        );
    }
}

/// No node tag starts in the arrows along the middle layer.
proof fn lemma_middle_edges_no_group(n: int)
    ensures
        no_group_from(middle_edges(n), 0),
    decreases n,
{
    broadcast use lemma_no_group_concat;
    reveal_strlit("svg-ref-edge");
    if n > 1 {
        lemma_middle_edges_no_group(n - 1);
        lemma_edge_no_group(
            crate::svg::column_x((n - 2) as nat),
            crate::svg::middle_y(),
            crate::svg::column_x((n - 1) as nat),
            "svg-ref-edge"@,
        );
    }
}

/// No node tag starts in the arrows along the abstract layer.
proof fn lemma_abstract_edges_no_group(slots: Seq<usize>, n: int, last_is_valid: bool)
    ensures
        no_group_from(abstract_edges(slots, n, last_is_valid), 0),
    decreases n,
{
    broadcast use lemma_no_group_concat;
    reveal_strlit("svg-ref-edge");
    reveal_strlit("svg-ref-edge svg-ref-edge-invalid");
    if n > 1 {
        lemma_abstract_edges_no_group(slots, n - 1, last_is_valid);
        let i = n - 1;
        let x1 = crate::svg::column_x(slots[i - 1] as nat);
        let x2 = crate::svg::column_x(slots[i] as nat);
        let y = crate::svg::abstract_y();
        if i == slots.len() - 1 && !last_is_valid {
            let mid = (x1 + x2) / 2;
            lemma_edge_no_group(x1, y, x2, "svg-ref-edge svg-ref-edge-invalid"@);
            lemma_cross_no_group((mid - 10) as nat, mid + 10, (y - 10) as nat, y + 10);
        } else {
            lemma_edge_no_group(x1, y, x2, "svg-ref-edge"@);
        }
        assert(no_group_from(abstract_edge(slots, i, last_is_valid), 0));
    }
}

/// No node tag starts in the lines from the concrete to the middle layer.
proof fn lemma_concrete_mappings_no_group(slots: Seq<usize>, n: int)
    ensures
        no_group_from(concrete_mappings(slots, n), 0),
    decreases n,
{
    broadcast use lemma_no_group_concat;
    if n > 0 {
        lemma_concrete_mappings_no_group(slots, n - 1);
        lemma_mapping_line_no_group(
            crate::svg::column_x(slots[n - 1] as nat),
            (crate::svg::concrete_y() - crate::svg::radius()) as nat,
            crate::svg::column_x((n - 1) as nat),
            crate::svg::middle_y() + crate::svg::radius(),
        );
    }
}

/// No node tag starts in the lines from the middle to the abstract layer.
proof fn lemma_abstract_mappings_no_group(slots: Seq<usize>, n: int)
    ensures
        no_group_from(abstract_mappings(slots, n), 0),
    decreases n,
{
    broadcast use lemma_no_group_concat;
    if n > 0 {
        lemma_abstract_mappings_no_group(slots, n - 1);
        lemma_mapping_line_no_group(
            crate::svg::column_x((n - 1) as nat),
            (crate::svg::middle_y() - crate::svg::radius()) as nat,
            crate::svg::column_x(slots[n - 1] as nat),
            crate::svg::abstract_y() + crate::svg::radius(),
        );
    }
}

/// The first `n` nodes of a layer hold one node tag each, and start with
/// `<` where there is one.
proof fn lemma_node_groups_tags(nodes: Seq<crate::svg::NodeMeta>, y: nat, n: int)
    ensures
        occurrences(node_groups(nodes, y, n), node_tag()) == if n > 0 {
            n as nat
        } else {
            0nat
        },
        n > 0 ==> node_groups(nodes, y, n)[0] == '<',
    decreases n,
{
    if n > 0 {
        lemma_node_groups_tags(nodes, y, n - 1);
        let group = node_group(
            crate::svg::column_x((n - 1) as nat),
            y,
            nodes[n - 1].title@,
            nodes[n - 1].label@,
        );
        lemma_node_group_one_tag(
            crate::svg::column_x((n - 1) as nat),
            y,
            nodes[n - 1].title@,
            nodes[n - 1].label@,
        );
        lemma_tags_concat(node_groups(nodes, y, n - 1), group);
        if n == 1 {
            assert(node_groups(nodes, y, n - 1) + group =~= group);
        } else {
            assert(node_groups(nodes, y, n)[0] == node_groups(nodes, y, n - 1)[0]);
        }
    }
}

/// The drawing holds one node tag per node of its three layers, and no
/// other: the escaped titles and labels cannot hold one.
pub proof fn lemma_rendering_node_count(layout: SvgLayout)
    ensures
        occurrences(layout.rendering(), node_tag()) == layout.abstract_nodes@.len()
            + layout.middle_nodes@.len() + layout.concrete_nodes@.len(),
{
    broadcast use lemma_no_group_concat;
    let a = layout.abstract_path_slots@;
    let c = layout.concrete_path_slots@;
    lemma_frame_no_group(layout.width(), crate::svg::drawing_height());
    lemma_concrete_edges_no_group(c, c.len() as int);
    lemma_middle_edges_no_group(layout.middle_nodes@.len() as int);
    lemma_abstract_edges_no_group(a, a.len() as int, layout.last_is_valid);
    lemma_concrete_mappings_no_group(c, c.len() as int);
    lemma_abstract_mappings_no_group(a, a.len() as int);
    let frame = header(layout.width(), crate::svg::drawing_height()) + defs() + layer_labels()
        + concrete_edges(c, c.len() as int) + middle_edges(layout.middle_nodes@.len() as int)
        + abstract_edges(a, a.len() as int, layout.last_is_valid) + concrete_mappings(
        c,
        c.len() as int,
    ) + abstract_mappings(a, a.len() as int);
    assert(no_group_from(frame, 0));
    lemma_no_group_no_tags(frame);
    let na = node_groups(layout.abstract_nodes@, crate::svg::abstract_y(), layout.abstract_nodes@.len() as int);
    let nm = node_groups(layout.middle_nodes@, crate::svg::middle_y(), layout.middle_nodes@.len() as int);
    let nc = node_groups(layout.concrete_nodes@, crate::svg::concrete_y(), layout.concrete_nodes@.len() as int);
    lemma_node_groups_tags(layout.abstract_nodes@, crate::svg::abstract_y(), layout.abstract_nodes@.len() as int);
    lemma_node_groups_tags(layout.middle_nodes@, crate::svg::middle_y(), layout.middle_nodes@.len() as int);
    lemma_node_groups_tags(layout.concrete_nodes@, crate::svg::concrete_y(), layout.concrete_nodes@.len() as int);
    lemma_tags_concat(frame, na);
    lemma_tags_concat(frame + na, nm);
    lemma_tags_concat(frame + na + nm, nc);
    reveal_strlit("</svg>");
    assert(no_group_from("</svg>"@, 0));
    lemma_no_group_no_tags("</svg>"@);
    lemma_tags_concat(frame + na + nm + nc, "</svg>"@);
    assert(layout.rendering() == frame + na + nm + nc + "</svg>"@);
}

} // verus!
