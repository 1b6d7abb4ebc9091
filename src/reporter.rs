use vstd::prelude::*;

use crate::call_node::{
    lemma_models_of, lemma_preorder_all_child, lemma_preorder_all_prefix, lemma_preorder_all_push,
    models_of, node_count, preorder, preorder_all, CallNode, NodeModel, is_slowest_at,
    slowest_of,
};
use crate::text::{
    basename, decimal, duration_text, escaped, format_duration, html_escape, push_char,
    push_decimal, short_path,
};

verus! {

/// The document's opening, up to the title.
pub const PAGE_START: &'static str = r#"<!DOCTYPE html>
<html lang="en">
<head>
<meta charset="UTF-8">
<meta name="viewport" content="width=device-width, initial-scale=1.0">
<title>callprofiler: "#;

/// From the end of the title to the main heading: the inline style sheet.
pub const PAGE_STYLE: &'static str = r#"</title>
<style>
* { margin: 0; padding: 0; box-sizing: border-box; }
body { font-family: 'Segoe UI', -apple-system, BlinkMacSystemFont, sans-serif; margin: 24px; background: #f8f9fa; color: #212529; }
h1 { font-size: 1.5rem; color: #1a1a2e; margin-bottom: 16px; padding-bottom: 10px; border-bottom: 3px solid #4361ee; }
.summary { background: #e9ecef; padding: 14px 20px; border-radius: 8px; margin-bottom: 20px; display: flex; gap: 32px; flex-wrap: wrap; font-size: 0.9rem; }
.summary .item { display: flex; align-items: center; gap: 6px; }
.summary .label { font-weight: 600; color: #495057; }
.summary .value { color: #212529; }
.summary .slowest-name { color: #e63946; font-weight: 700; }
.tree { font-size: 0.88rem; }
.tree ul { list-style: none; padding-left: 28px; border-left: 2px solid #dee2e6; margin: 0; }
.tree > ul { border-left: none; padding-left: 0; }
.tree li { position: relative; padding: 3px 0; }
.node { display: inline-flex; align-items: center; gap: 8px; padding: 5px 12px; border-radius: 6px; border: 1px solid #dee2e6; background: #fff; cursor: default; transition: all 0.15s; flex-wrap: wrap; }
.node:hover { box-shadow: 0 2px 8px rgba(0,0,0,0.08); }
.node.external { background: #f1f3f5; border-color: #ced4da; }
.node.external .func-name { color: #868e96; font-style: italic; }
.node.slowest { background: #e63946; border-color: #c1121f; }
.node.slowest .func-name { color: #fff; }
.node.slowest .location,
.node.slowest .duration,
.node.slowest .times { color: rgba(255,255,255,0.85); }
.func-name { font-weight: 600; color: #1a1a2e; font-family: 'SF Mono', 'Fira Code', 'Cascadia Code', monospace; }
.location { font-size: 0.82em; color: #6c757d; font-family: 'SF Mono', 'Fira Code', monospace; }
.duration { font-size: 0.82em; color: #4361ee; font-weight: 600; }
.times { font-size: 0.78em; color: #adb5bd; }
.lib-badge { font-size: 0.72em; background: #dee2e6; color: #495057; padding: 1px 8px; border-radius: 10px; font-weight: 500; }
.node.slowest .lib-badge { background: rgba(255,255,255,0.25); color: #fff; }
.toggle { display: inline-block; width: 18px; font-size: 0.75em; text-align: center; cursor: pointer; user-select: none; color: #868e96; font-weight: bold; flex-shrink: 0; }
.toggle:hover { color: #4361ee; }
.hidden { display: none; }
</style>
</head>
<body>
<h1>Call Profile: "#;

/// The end of the main heading.
pub const HEADING_END: &'static str = r#"</h1>
"#;

/// The client-side logic that collapses and expands a node's children, and
/// the document's close.
pub const PAGE_SCRIPT: &'static str = r#"<script>
function toggle(el) {
    var li = el.closest('li');
    var ul = li.querySelector(':scope > ul');
    if (!ul) return;
    if (ul.classList.contains('hidden')) {
        ul.classList.remove('hidden');
        el.textContent = '\u25BC';
    } else {
        ul.classList.add('hidden');
        el.textContent = '\u25B6';
    }
}
</script>
</body>
</html>"#;

/// The expand/collapse control of a node with children.
pub const TOGGLE: &'static str = "<span class=\"toggle\" onclick=\"toggle(this)\">\u{25BC}</span>";

/// The one line of markup that shows a node, up to its children.
pub open spec fn node_line(m: NodeModel, slowest: bool) -> Seq<char> {
    let s0 = "<li><div class=\"node"@;
    let s1 = if m.is_external {
        s0 + " external"@
    } else {
        s0
    };
    let s2 = if slowest {
        s1 + " slowest"@
    } else {
        s1
    };
    let s3 = s2 + "\">"@;
    let s4 = if m.children.len() > 0 {
        s3 + TOGGLE@
    } else {
        s3
    };
    let s5 = s4 + "<span class=\"func-name\">"@ + escaped(m.func_name) + "</span>"@;
    let s6 = if m.file_path.len() > 0 {
        s5 + "<span class=\"location\">"@ + escaped(basename(m.file_path)) + seq![':'] + decimal(
            m.line_number as nat,
        ) + "</span>"@
    } else {
        s5
    };
    let s7 = s6 + "<span class=\"duration\">"@ + duration_text(m.duration_ns) + "</span>"@;
    let s8 = s7 + "<span class=\"times\">[start: "@ + duration_text(m.start_time_ns) + " | end: "@
        + duration_text(m.end_time_ns) + "]</span>"@;
    let s9 = if m.is_external && m.library_name.len() > 0 {
        s8 + "<span class=\"lib-badge\">"@ + escaped(m.library_name) + "</span>"@
    } else {
        s8
    };
    s9 + "</div>"@
}

/// The node at pre-order index `idx` is the one marked slowest.
pub open spec fn is_marked(slowest: Option<usize>, idx: int) -> bool {
    match slowest {
        Some(k) => k as int == idx,
        None => false,
    }
}

/// The markup of a subtree whose root has pre-order index `idx`.
pub open spec fn render_tree(m: NodeModel, slowest: Option<usize>, idx: int) -> Seq<char>
    decreases m,
{
    let line = node_line(m, is_marked(slowest, idx));
    if m.children.len() > 0 {
        line + "<ul>"@ + render_forest(m.children, slowest, idx + 1) + "</ul>"@ + "</li>\n"@
    } else {
        line + "</li>\n"@
    }
}

/// The markup of sibling subtrees, the first of which starts at index `idx`.
pub open spec fn render_forest(s: Seq<NodeModel>, slowest: Option<usize>, idx: int) -> Seq<char>
    decreases s,
{
    if s.len() == 0 {
        Seq::empty()
    } else {
        render_forest(s.drop_last(), slowest, idx) + render_tree(
            s[s.len() - 1],
            slowest,
            idx + preorder_all(s.drop_last()).len(),
        )
    }
}

/// The pre-order index of the slowest eligible node, if there is one.
pub open spec fn slowest_index(nodes: Seq<NodeModel>) -> Option<usize> {
    if exists|k: usize| is_slowest_at(nodes, k as int) {
        Some(choose|k: usize| is_slowest_at(nodes, k as int))
    } else {
        None
    }
}

/// The summary's opening: the total duration, and the slowest function if
/// there is one.
pub open spec fn summary_head(root: NodeModel) -> Seq<char> {
    let pre = preorder(root);
    let s0 = "<div class=\"summary\">"@
        + "<div class=\"item\"><span class=\"label\">Total Duration:</span><span class=\"value\">"@
        + duration_text(root.duration_ns) + "</span></div>"@;
    match slowest_index(pre) {
        Some(k) => s0
            + "<div class=\"item\"><span class=\"label\">Slowest Function:</span><span class=\"slowest-name\">"@
            + escaped(pre[k as int].func_name) + " ("@ + duration_text(pre[k as int].duration_ns)
            + ")</span></div>"@,
        None => s0,
    }
}

/// The summary item that gives the number of functions.
pub open spec fn function_count_text(n: nat) -> Seq<char> {
    "<div class=\"item\"><span class=\"label\">Functions:</span><span class=\"value\">"@ + decimal(n)
        + "</span></div>"@
}

/// The summary block: total duration, the slowest function if any, and the
/// number of nodes below the root.
pub open spec fn summary(root: NodeModel) -> Seq<char> {
    summary_head(root) + function_count_text((preorder(root).len() - 1) as nat) + "</div>\n"@
}

/// The whole report of a tree under a title.
#[verifier::opaque]
pub open spec fn document(root: NodeModel, title: Seq<char>) -> Seq<char> {
    PAGE_START@ + escaped(title) + PAGE_STYLE@ + escaped(title) + HEADING_END@ + summary(root)
        + "<div class=\"tree\"><ul>"@ + render_tree(root, slowest_index(preorder(root)), 0)
        + "</ul></div>\n"@ + PAGE_SCRIPT@
}

/// At most one index satisfies `is_slowest_at`.
pub proof fn lemma_slowest_unique(nodes: Seq<NodeModel>, a: int, b: int)
    requires
        is_slowest_at(nodes, a),
        is_slowest_at(nodes, b),
    ensures
        a == b,
{
    if a < b {
        assert(crate::call_node::eligible(nodes, a));
    } else if b < a {
        assert(crate::call_node::eligible(nodes, b));
    }
}

/// What the search reports is the slowest index.
pub proof fn lemma_slowest_index(nodes: Seq<NodeModel>, r: Option<usize>)
    requires
        slowest_of(nodes, r),
    ensures
        r == slowest_index(nodes),
{
    match r {
        Some(k) => {
            assert(is_slowest_at(nodes, k as int));
            let c = choose|c: usize| is_slowest_at(nodes, c as int);
            lemma_slowest_unique(nodes, k as int, c as int);
        },
        None => {
            if exists|k: usize| is_slowest_at(nodes, k as int) {
                let k = choose|k: usize| is_slowest_at(nodes, k as int);
                assert(!crate::call_node::eligible(nodes, k as int));
            }
        },
    }
}

fn node_line_text(node: &CallNode, is_slowest: bool) -> (r: String)
    ensures
        r@ == node_line(node@, is_slowest),
{
    proof {
        lemma_models_of(node.children@);
    }
    let mut r = String::from_str("<li><div class=\"node");
    if node.is_external {
        r.append(" external");
    }
    if is_slowest {
        r.append(" slowest");
    }
    r.append("\">");
    if node.children.len() > 0 {
        r.append(TOGGLE);
    }
    r.append("<span class=\"func-name\">");
    r.append(html_escape(node.func_name.as_str()).as_str());
    r.append("</span>");
    if node.file_path.as_str().unicode_len() > 0 {
        r.append("<span class=\"location\">");
        r.append(html_escape(short_path(node.file_path.as_str())).as_str());
        push_char(&mut r, ':');
        push_decimal(&mut r, node.line_number as u64);
        r.append("</span>");
    }
    r.append("<span class=\"duration\">");
    r.append(format_duration(node.duration_ns).as_str());
    r.append("</span>");
    r.append("<span class=\"times\">[start: ");
    r.append(format_duration(node.start_time_ns).as_str());
    r.append(" | end: ");
    r.append(format_duration(node.end_time_ns).as_str());
    r.append("]</span>");
    if node.is_external && node.library_name.as_str().unicode_len() > 0 {
        r.append("<span class=\"lib-badge\">");
        r.append(html_escape(node.library_name.as_str()).as_str());
        r.append("</span>");
    }
    r.append("</div>");
    r
}

fn count_nodes(node: &CallNode) -> (r: usize)
    requires
        node_count(node@) <= usize::MAX,
    ensures
        r == node_count(node@),
    decreases node,
{
    let ghost kids = models_of(node.children@);
    proof {
        lemma_models_of(node.children@);
        assert(kids.take(0) =~= Seq::<NodeModel>::empty());
    }
    let mut total: usize = 1;
    let n = node.children.len();
    let mut k: usize = 0;
    while k < n
        invariant
            n == node.children@.len(),
            kids == models_of(node.children@),
            kids.len() == n,
            forall|j: int| 0 <= j < n ==> #[trigger] kids[j] == node.children@[j]@,
            k <= n,
            node_count(node@) == 1 + preorder_all(kids).len(),
            node_count(node@) <= usize::MAX,
            total == 1 + preorder_all(kids.take(k as int)).len(),
        decreases n - k,
    {
        proof {
            lemma_preorder_all_push(kids, k as int);
            lemma_preorder_all_prefix(kids, k + 1);
        }
        total = total + count_nodes(&node.children[k]);
        k += 1;
    }
    assert(kids.take(n as int) =~= kids);
    total
}

/// The node at pre-order index `target_id`, if the tree has that many nodes.
fn find_node_by_id(node: &CallNode, target_id: usize) -> (r: Option<&CallNode>)
    requires
        node_count(node@) <= usize::MAX,
    ensures
        target_id < node_count(node@) ==> r is Some && r->0@ == preorder(node@)[target_id as int],
        target_id >= node_count(node@) ==> r is None,
{
    let mut counter: usize = 0;
    find_node_recursive(node, target_id, &mut counter)
}

fn find_node_recursive<'a>(node: &'a CallNode, target_id: usize, counter: &mut usize) -> (r: Option<
    &'a CallNode,
>)
    requires
        *old(counter) + node_count(node@) <= usize::MAX,
    ensures
        *old(counter) <= target_id < *old(counter) + node_count(node@) ==> r is Some && r->0@
            == preorder(node@)[target_id - *old(counter)],
        !(*old(counter) <= target_id < *old(counter) + node_count(node@)) ==> r is None
            && *final(counter) == *old(counter) + node_count(node@),
    decreases node,
{
    let my_id = *counter;
    *counter += 1;
    if my_id == target_id {
        return Some(node);
    }
    let ghost kids = models_of(node.children@);
    proof {
        lemma_models_of(node.children@);
        assert(kids.take(0) =~= Seq::<NodeModel>::empty());
    }
    let n = node.children.len();
    let mut k: usize = 0;
    while k < n
        invariant
            n == node.children@.len(),
            kids == models_of(node.children@),
            kids.len() == n,
            forall|j: int| 0 <= j < n ==> #[trigger] kids[j] == node.children@[j]@,
            k <= n,
            my_id != target_id,
            my_id == *old(counter),
            preorder(node@) == seq![node@] + preorder_all(kids),
            my_id + node_count(node@) <= usize::MAX,
            *counter == my_id + 1 + preorder_all(kids.take(k as int)).len(),
            !(my_id <= target_id < *counter),
        decreases n - k,
    {
        let ghost before = *counter;
        proof {
            lemma_preorder_all_push(kids, k as int);
            lemma_preorder_all_prefix(kids, k + 1);
        }
        let found = find_node_recursive(&node.children[k], target_id, counter);
        if found.is_some() {
            proof {
                let child = kids[k as int];
                assert(node.children@[k as int]@ == child);
                assert(before <= target_id < before + node_count(child));
                let j = target_id - before;
                let pk = preorder_all(kids.take(k as int)).len();
                assert(preorder_all(kids.take(k + 1)) == preorder_all(kids.take(k as int))
                    + preorder(child));
                assert(preorder_all(kids.take(k + 1))[pk + j] == preorder(child)[j]);
                assert(preorder_all(kids.take(k + 1))[pk + j] == preorder_all(kids)[pk + j]);
                assert(target_id - my_id == 1 + pk + j);
                assert(preorder(node@)[1 + pk + j] == preorder_all(kids)[pk + j]);
                assert(preorder_all(kids.take(k + 1)).len() <= preorder_all(kids).len());
                assert(target_id < my_id + node_count(node@));
                assert(found->0@ == preorder(node@)[target_id - my_id]);
            }
            return found;
        }
        k += 1;
    }
    assert(kids.take(n as int) =~= kids);
    None
}

fn render_node(html: &mut String, node: &CallNode, slowest_id: &Option<usize>, counter: &mut usize)
    requires
        *old(counter) + node_count(node@) <= usize::MAX,
    ensures
        final(html)@ == old(html)@ + render_tree(node@, *slowest_id, *old(counter) as int),
        *final(counter) == *old(counter) + node_count(node@),
    decreases node,
{
    let my_id = *counter;
    *counter += 1;
    let is_slowest = match slowest_id {
        Some(id) => *id == my_id,
        None => false,
    };
    let line = node_line_text(node, is_slowest);
    html.append(line.as_str());
    let ghost kids = models_of(node.children@);
    proof {
        lemma_models_of(node.children@);
    }
    if node.children.len() > 0 {
        html.append("<ul>");
        let ghost base = html@;
        proof {
            assert(kids.take(0) =~= Seq::<NodeModel>::empty());
            assert(base + render_forest(kids.take(0), *slowest_id, my_id + 1) =~= base);
        }
        let n = node.children.len();
        let mut k: usize = 0;
        while k < n
            invariant
                n == node.children@.len(),
                kids == models_of(node.children@),
                kids.len() == n,
                forall|j: int| 0 <= j < n ==> #[trigger] kids[j] == node.children@[j]@,
                k <= n,
                node_count(node@) == 1 + preorder_all(kids).len(),
                my_id + node_count(node@) <= usize::MAX,
                *counter == my_id + 1 + preorder_all(kids.take(k as int)).len(),
                html@ == base + render_forest(kids.take(k as int), *slowest_id, my_id + 1),
            decreases n - k,
        {
            let ghost before = html@;
            proof {
                lemma_preorder_all_push(kids, k as int);
                lemma_preorder_all_prefix(kids, k + 1);
                assert(kids.take(k + 1).drop_last() =~= kids.take(k as int));
            }
            render_node(html, &node.children[k], slowest_id, counter);
            proof {
                vstd::seq_lib::lemma_concat_associative(
                    base,
                    render_forest(kids.take(k as int), *slowest_id, my_id + 1),
                    render_tree(
                        kids[k as int],
                        *slowest_id,
                        my_id + 1 + preorder_all(kids.take(k as int)).len(),
                    ),
                );
            }
            k += 1;
        }
        html.append("</ul>");
        assert(kids.take(n as int) =~= kids);
    }
    html.append("</li>\n");
    assert(html@ =~= old(html)@ + render_tree(node@, *slowest_id, my_id as int));
}

/// Renders the report of a call tree: a summary (total duration, slowest
/// function, number of functions) and the nested tree, with every piece of
/// text from the profiled program escaped.
pub fn generate_html(root: &CallNode, api_name: &str) -> (html: String)
    requires
        node_count(root@) <= usize::MAX,
    ensures
        html@ == document(root@, api_name@),
{
    let slowest_id = root.find_slowest_id();
    proof {
        lemma_slowest_index(preorder(root@), slowest_id);
    }
    let title = html_escape(api_name);
    let mut html = String::from_str(PAGE_START);
    html.append(title.as_str());
    html.append(PAGE_STYLE);
    html.append(title.as_str());
    html.append(HEADING_END);

    let mut summary_text = String::from_str("<div class=\"summary\">");
    summary_text.append(
        "<div class=\"item\"><span class=\"label\">Total Duration:</span><span class=\"value\">",
    );
    summary_text.append(format_duration(root.duration_ns).as_str());
    summary_text.append("</span></div>");
    if let Some(sid) = slowest_id {
        if let Some(node) = find_node_by_id(root, sid) {
            summary_text.append(
                "<div class=\"item\"><span class=\"label\">Slowest Function:</span><span class=\"slowest-name\">",
            );
            summary_text.append(html_escape(node.func_name.as_str()).as_str());
            summary_text.append(" (");
            summary_text.append(format_duration(node.duration_ns).as_str());
            summary_text.append(")</span></div>");
        }
    }
    let child_count = count_nodes(root) - 1;
    summary_text.append(
        "<div class=\"item\"><span class=\"label\">Functions:</span><span class=\"value\">",
    );
    push_decimal(&mut summary_text, child_count as u64);
    summary_text.append("</span></div>");
    summary_text.append("</div>\n");
    assert(summary_text@ =~= summary(root@));
    html.append(summary_text.as_str());

    let mut counter: usize = 0;
    html.append("<div class=\"tree\"><ul>");
    render_node(&mut html, root, &slowest_id, &mut counter);
    html.append("</ul></div>\n");
    html.append(PAGE_SCRIPT);
    proof {
        reveal(document);
    }
    html
}

/// The report gives as the number of functions the number of nodes at any
/// depth, external ones included, less the root.
pub proof fn lemma_report_counts_functions(root: NodeModel, title: Seq<char>)
    ensures
        exists|i: int|
            0 <= i && i + function_count_text((node_count(root) - 1) as nat).len() <= document(
                root,
                title,
            ).len() && #[trigger] document(root, title).subrange(
                i,
                i + function_count_text((node_count(root) - 1) as nat).len(),
            ) == function_count_text((node_count(root) - 1) as nat),
{
    reveal(document);
    let t = function_count_text((node_count(root) - 1) as nat);
    let x = PAGE_START@ + escaped(title) + PAGE_STYLE@ + escaped(title) + HEADING_END@ + summary_head(
        root,
    );
    let y = "</div>\n"@ + "<div class=\"tree\"><ul>"@ + render_tree(root, slowest_index(preorder(root)), 0)
        + "</ul></div>\n"@ + PAGE_SCRIPT@;
    assert(document(root, title) =~= x + t + y);
    assert((x + t + y).subrange(x.len() as int, (x.len() + t.len()) as int) =~= t);
}

} // verus!
