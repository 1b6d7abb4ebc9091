use vstd::prelude::*;

use crate::call_node::{
    adopt, call_tree, close_all, close_top, closed, fallback_root, finalized, is_call_kind,
    is_return_kind, lemma_normalized_all, node_count, normalized, normalized_all, opened,
    preorder, preorder_all, raw_root, replay, sat_sub, step, NodeModel, RawEvent,
};
use crate::text::{escape_char, escaped};

verus! {

/// No event kind both opens and closes a frame.
pub proof fn lemma_kinds_disjoint(k: Seq<char>)
    ensures
        is_return_kind(k) ==> !is_call_kind(k),
{
    reveal_strlit("call");
    reveal_strlit("c_call");
    reveal_strlit("return");
    reveal_strlit("c_return");
    assert("call"@.len() != "return"@.len() && "call"@.len() != "c_return"@.len());
    assert("c_call"@[0] != "return"@[0] && "c_call"@.len() != "c_return"@.len());
}

/// With no events at all, the tree is a single placeholder root that bears
/// the fallback name and spans the whole window.
pub proof fn lemma_empty_stream(name: Seq<char>, start: u64, end: u64)
    ensures
        call_tree(Seq::empty(), name, start, end).func_name == name,
        call_tree(Seq::empty(), name, start, end).children.len() == 0,
        call_tree(Seq::empty(), name, start, end).duration_ns == sat_sub(end, start),
        call_tree(Seq::empty(), name, start, end).start_time_ns == 0,
        call_tree(Seq::empty(), name, start, end).end_time_ns == sat_sub(end, start),
        !call_tree(Seq::empty(), name, start, end).is_external,
        node_count(call_tree(Seq::empty(), name, start, end)) == 1,
{
    let t = call_tree(Seq::empty(), name, start, end);
    assert(close_all(replay(Seq::empty()), end) =~= Seq::empty());
    assert(normalized_all(Seq::<NodeModel>::empty(), start) =~= Seq::empty());
    assert(preorder(t) =~= seq![t] + preorder_all(Seq::empty()));
}

/// An external call that is not the outermost frame keeps none of what was
/// called inside it: after `call(A, external)`, `call(B)`, `return(B)`,
/// `return(A)`, the enclosing frame gains A as its last child, finalized at
/// A's return and without children.
pub proof fn lemma_external_discards_children(
    prefix: Seq<RawEvent>,
    a: RawEvent,
    b: RawEvent,
    rb: RawEvent,
    ra: RawEvent,
)
    requires
        replay(prefix).len() >= 1,
        is_call_kind(a.event@),
        a.is_external,
        is_call_kind(b.event@),
        is_return_kind(rb.event@),
        is_return_kind(ra.event@),
    ensures
        ({
            let s = replay(prefix);
            replay(prefix + seq![a, b, rb, ra]) == s.update(
                s.len() - 1,
                adopt(s[s.len() - 1], closed(opened(a), ra.timestamp_ns)),
            )
        }),
        closed(opened(a), ra.timestamp_ns).children.len() == 0,
        closed(opened(a), ra.timestamp_ns).duration_ns == sat_sub(ra.timestamp_ns, a.timestamp_ns),
{
    let s = replay(prefix);
    let e1 = prefix.push(a);
    let e2 = e1.push(b);
    let e3 = e2.push(rb);
    let e4 = e3.push(ra);
    assert(e1.drop_last() =~= prefix);
    assert(e2.drop_last() =~= e1);
    assert(e3.drop_last() =~= e2);
    assert(e4.drop_last() =~= e3);
    assert(prefix + seq![a, b, rb, ra] =~= e4);
    let s1 = s.push(opened(a));
    let s2 = s1.push(opened(b));
    lemma_kinds_disjoint(rb.event@);
    lemma_kinds_disjoint(ra.event@);
    assert(e1[e1.len() - 1] == a);
    assert(e2[e2.len() - 1] == b);
    assert(e3[e3.len() - 1] == rb);
    assert(e4[e4.len() - 1] == ra);
    assert(replay(e1) == s1);
    assert(replay(e2) == s2);
    let s3 = close_top(s2, rb.timestamp_ns);
    assert(s3.len() == s.len() + 1);
    assert(replay(e3) == s3);
    assert(s3.drop_last() =~= s);
    assert(replay(e4) =~= s.update(s.len() - 1, adopt(s[s.len() - 1], closed(s3[s.len() as int], ra.timestamp_ns))));
}

/// An external outermost call keeps none of what was called inside it:
/// `call(A, external)`, `call(B)`, `return(B)`, `return(A)` give a tree of the
/// single node A, without children, that lasts from A's call to A's return.
pub proof fn lemma_external_root_discards_children(
    a: RawEvent,
    b: RawEvent,
    rb: RawEvent,
    ra: RawEvent,
    name: Seq<char>,
    start: u64,
    end: u64,
)
    requires
        is_call_kind(a.event@),
        a.is_external,
        is_call_kind(b.event@),
        is_return_kind(rb.event@),
        is_return_kind(ra.event@),
        ra.timestamp_ns != 0,
    ensures
        call_tree(seq![a, b, rb, ra], name, start, end).children.len() == 0,
        call_tree(seq![a, b, rb, ra], name, start, end).func_name == a.func_name@,
        call_tree(seq![a, b, rb, ra], name, start, end).is_external,
        call_tree(seq![a, b, rb, ra], name, start, end).duration_ns == sat_sub(
            ra.timestamp_ns,
            a.timestamp_ns,
        ),
        node_count(call_tree(seq![a, b, rb, ra], name, start, end)) == 1,
{
    let e0 = Seq::<RawEvent>::empty();
    let e1 = e0.push(a);
    let e2 = e1.push(b);
    let e3 = e2.push(rb);
    let e4 = e3.push(ra);
    assert(e1.drop_last() =~= e0);
    assert(e2.drop_last() =~= e1);
    assert(e3.drop_last() =~= e2);
    assert(e4.drop_last() =~= e3);
    assert(seq![a, b, rb, ra] =~= e4);
    lemma_kinds_disjoint(rb.event@);
    lemma_kinds_disjoint(ra.event@);
    assert(e1[e1.len() - 1] == a);
    assert(e2[e2.len() - 1] == b);
    assert(e3[e3.len() - 1] == rb);
    assert(e4[e4.len() - 1] == ra);
    let s1 = seq![opened(a)];
    assert(replay(e0) =~= Seq::<NodeModel>::empty());
    assert(replay(e1) =~= s1);
    let s2 = s1.push(opened(b));
    assert(replay(e2) == s2);
    let s3 = close_top(s2, rb.timestamp_ns);
    assert(replay(e3) == s3);
    assert(s3.len() == 1);
    let s4 = seq![finalized(s3[0], ra.timestamp_ns)];
    assert(replay(e4) == s4);
    assert(close_all(s4, end) == s4);
    let t = call_tree(e4, name, start, end);
    assert(normalized_all(Seq::<NodeModel>::empty(), start) =~= Seq::empty());
    assert(preorder(t) =~= seq![t] + preorder_all(Seq::empty()));
}

/// A call left open at the end of the stream is closed at the window's end:
/// after normalization its end time is `end - start`. With nothing open
/// before it, it is the root; with only a root that is not external open, it
/// is the root's last child.
pub proof fn lemma_truncated_call(prefix: Seq<RawEvent>, c: RawEvent, name: Seq<char>, start: u64, end: u64)
    requires
        replay(prefix).len() <= 1,
        replay(prefix).len() == 1 ==> !replay(prefix)[0].is_external,
        is_call_kind(c.event@),
    ensures
        replay(prefix).len() == 0 ==> call_tree(prefix.push(c), name, start, end).func_name == c.func_name@
            && call_tree(prefix.push(c), name, start, end).end_time_ns == sat_sub(end, start),
        replay(prefix).len() == 1 ==> ({
            let kids = call_tree(prefix.push(c), name, start, end).children;
            &&& kids.len() > 0
            &&& kids[kids.len() - 1] == normalized(closed(opened(c), end), start)
            &&& kids[kids.len() - 1].func_name == c.func_name@
            &&& kids[kids.len() - 1].end_time_ns == sat_sub(end, start)
        }),
{
    let e = prefix.push(c);
    assert(e.drop_last() =~= prefix);
    let s = replay(prefix);
    assert(replay(e) == s.push(opened(c)));
    if s.len() == 1 {
        let st = s.push(opened(c));
        let top = close_top(st, end);
        assert(top.len() == 1);
        assert(close_all(st, end) == close_all(top, end));
        let r = raw_root(e, name, start, end);
        assert(r.children == adopt(s[0], closed(opened(c), end)).children);
        lemma_normalized_all(r.children, start);
    }
}

/// Escaping leaves no raw `<`, `>` or `"` in the text.
pub proof fn lemma_escaped_has_no_markup(s: Seq<char>)
    ensures
        forall|i: int|
            0 <= i < escaped(s).len() ==> #[trigger] escaped(s)[i] != '<' && escaped(s)[i] != '>'
                && escaped(s)[i] != '"',
    decreases s.len(),
{
    reveal_strlit("&amp;");
    reveal_strlit("&lt;");
    reveal_strlit("&gt;");
    reveal_strlit("&quot;");
    if s.len() > 0 {
        lemma_escaped_has_no_markup(s.drop_last());
        let p = escaped(s.drop_last());
        let q = escape_char(s[s.len() - 1]);
        assert forall|i: int| 0 <= i < q.len() implies q[i] != '<' && q[i] != '>' && q[i] != '"' by {}
        assert forall|i: int| 0 <= i < escaped(s).len() implies #[trigger] escaped(s)[i] != '<'
            && escaped(s)[i] != '>' && escaped(s)[i] != '"' by {
            if i >= p.len() {
                assert(escaped(s)[i] == q[i - p.len()]);
            } else {
                assert(escaped(s)[i] == p[i]);
            }
        }
    }
}

/// The number of call events of a stream.
pub open spec fn call_count(events: Seq<RawEvent>) -> nat
    decreases events.len(),
{
    if events.len() == 0 {
        0
    } else {
        call_count(events.drop_last()) + if is_call_kind(events[events.len() - 1].event@) {
            1nat
        } else {
            0nat
        }
    }
}

/// No call event of the stream is external.
pub open spec fn no_external_calls(events: Seq<RawEvent>) -> bool {
    forall|i: int|
        0 <= i < events.len() && is_call_kind(#[trigger] events[i].event@) ==> !events[i].is_external
}

/// The number of nodes held by a stack of open frames, subtrees included.
pub open spec fn stack_size(s: Seq<NodeModel>) -> nat
    decreases s.len(),
{
    if s.len() == 0 {
        0
    } else {
        stack_size(s.drop_last()) + node_count(s[s.len() - 1])
    }
}

/// No frame of the stack is external.
pub open spec fn all_internal(s: Seq<NodeModel>) -> bool {
    forall|i: int| 0 <= i < s.len() ==> !(#[trigger] s[i]).is_external
}

/// Adopting a child adds its nodes to the parent's.
pub proof fn lemma_count_adopt(p: NodeModel, c: NodeModel)
    ensures
        node_count(adopt(p, c)) == node_count(p) + node_count(c),
{
    assert(p.children.push(c).drop_last() =~= p.children);
}

/// Normalization keeps the number of nodes.
pub proof fn lemma_count_normalized(m: NodeModel, base: u64)
    ensures
        node_count(normalized(m, base)) == node_count(m),
    decreases m,
{
    lemma_count_normalized_all(m.children, base);
}

/// Normalization keeps the number of nodes of sibling subtrees.
pub proof fn lemma_count_normalized_all(s: Seq<NodeModel>, base: u64)
    ensures
        preorder_all(normalized_all(s, base)).len() == preorder_all(s).len(),
    decreases s,
{
    if s.len() > 0 {
        lemma_count_normalized_all(s.drop_last(), base);
        lemma_count_normalized(s[s.len() - 1], base);
        assert(normalized_all(s, base).drop_last() =~= normalized_all(s.drop_last(), base));
    }
}

/// Replacing the innermost frame replaces its share of the stack's nodes.
pub proof fn lemma_stack_size_update_last(s: Seq<NodeModel>, x: NodeModel)
    requires
        s.len() > 0,
    ensures
        stack_size(s.update(s.len() - 1, x)) == stack_size(s.drop_last()) + node_count(x),
{
    assert(s.update(s.len() - 1, x).drop_last() =~= s.drop_last());
}

/// Closing the innermost frame loses nodes only when that frame is external.
pub proof fn lemma_close_top_size(s: Seq<NodeModel>, end: u64)
    requires
        s.len() > 1,
    ensures
        stack_size(close_top(s, end)) <= stack_size(s),
        all_internal(s) ==> stack_size(close_top(s, end)) == stack_size(s) && all_internal(
            close_top(s, end),
        ),
        close_top(s, end).len() == s.len() - 1,
{
    let rest = s.drop_last();
    let top = s[s.len() - 1];
    let c = closed(top, end);
    let p = rest[rest.len() - 1];
    lemma_count_adopt(p, c);
    lemma_stack_size_update_last(rest, adopt(p, c));
    assert(rest.drop_last() =~= s.drop_last().drop_last());
    assert(stack_size(s) == stack_size(rest) + node_count(top));
    assert(stack_size(rest) == stack_size(rest.drop_last()) + node_count(p));
    assert(node_count(finalized(top, end)) == node_count(top));
    if top.is_external {
        assert(preorder(c) =~= seq![c]);
        assert(node_count(c) == 1);
        assert(node_count(top) >= 1);
    } else {
        assert(c == finalized(top, end));
    }
    if all_internal(s) {
        assert(!top.is_external);
        assert(!p.is_external);
        assert forall|i: int| 0 <= i < close_top(s, end).len() implies !(
        #[trigger] close_top(s, end)[i]).is_external by {
            assert(!s[i].is_external);
        }
    }
}

/// The cleanup leaves at most one frame and loses nodes only under external frames.
pub proof fn lemma_close_all_size(s: Seq<NodeModel>, end: u64)
    ensures
        stack_size(close_all(s, end)) <= stack_size(s),
        all_internal(s) ==> stack_size(close_all(s, end)) == stack_size(s) && all_internal(
            close_all(s, end),
        ),
        close_all(s, end).len() <= 1,
        s.len() > 0 ==> close_all(s, end).len() == 1,
    decreases s.len(),
{
    if s.len() > 1 {
        lemma_close_top_size(s, end);
        lemma_close_all_size(close_top(s, end), end);
    }
}

/// The open frames never hold more nodes than there were calls, and exactly
/// as many when no call is external.
pub proof fn lemma_replay_size(events: Seq<RawEvent>)
    ensures
        stack_size(replay(events)) <= call_count(events),
        no_external_calls(events) ==> stack_size(replay(events)) == call_count(events) && all_internal(
            replay(events),
        ),
        call_count(events) > 0 ==> replay(events).len() > 0,
    decreases events.len(),
{
    if events.len() > 0 {
        let pre = events.drop_last();
        let ev = events[events.len() - 1];
        let s = replay(pre);
        lemma_replay_size(pre);
        if no_external_calls(events) {
            assert forall|i: int| 0 <= i < pre.len() && is_call_kind(#[trigger] pre[i].event@) implies !pre[i].is_external by {
                assert(events[i] == pre[i]);
            }
        }
        lemma_kinds_disjoint(ev.event@);
        if is_call_kind(ev.event@) {
            let o = opened(ev);
            assert(s.push(o).drop_last() =~= s);
            assert(preorder(o) =~= seq![o]);
            if no_external_calls(events) {
                assert(!events[events.len() - 1].is_external);
                assert forall|i: int| 0 <= i < s.push(o).len() implies !(#[trigger] s.push(o)[i]).is_external by {
                    if i < s.len() {
                        assert(s.push(o)[i] == s[i]);
                    }
                }
            }
        } else if is_return_kind(ev.event@) && s.len() > 1 {
            lemma_close_top_size(s, ev.timestamp_ns);
        } else if is_return_kind(ev.event@) && s.len() == 1 {
            let f = finalized(s[0], ev.timestamp_ns);
            assert(node_count(f) == node_count(s[0]));
            assert(seq![f].drop_last() =~= Seq::<NodeModel>::empty());
            assert(s.drop_last() =~= Seq::<NodeModel>::empty());
        }
    }
}

/// Every call event of a stream without external calls becomes exactly one
/// node of the tree: a properly nested stream of N call/return pairs gives a
/// tree of N nodes, its root being the outermost call.
pub proof fn lemma_calls_become_nodes(events: Seq<RawEvent>, name: Seq<char>, start: u64, end: u64)
    requires
        no_external_calls(events),
        call_count(events) > 0,
    ensures
        node_count(call_tree(events, name, start, end)) == call_count(events),
{
    lemma_replay_size(events);
    let s = replay(events);
    lemma_close_all_size(s, end);
    let rest = close_all(s, end);
    assert(rest.drop_last() =~= Seq::<NodeModel>::empty());
    let r0 = rest[0];
    assert(!r0.is_external);
    assert(stack_size(rest) == stack_size(rest.drop_last()) + node_count(r0));
    assert(node_count(finalized(r0, end)) == node_count(r0));
    lemma_count_normalized(raw_root(events, name, start, end), start);
}

/// The tree never has more nodes than the stream has call events, or one
/// node, the placeholder root, where it has none.
pub proof fn lemma_tree_size_bound(events: Seq<RawEvent>, name: Seq<char>, start: u64, end: u64)
    ensures
        node_count(call_tree(events, name, start, end)) <= call_count(events) || node_count(
            call_tree(events, name, start, end),
        ) == 1,
        call_count(events) <= events.len(),
    decreases events.len(),
{
    if events.len() > 0 {
        lemma_tree_size_bound(events.drop_last(), name, start, end);
    }
    lemma_replay_size(events);
    let s = replay(events);
    lemma_close_all_size(s, end);
    let rest = close_all(s, end);
    lemma_count_normalized(raw_root(events, name, start, end), start);
    if rest.len() == 0 {
        let f = fallback_root(name, start);
        assert(preorder(f) =~= seq![f]);
        assert(preorder(finalized(f, end)) =~= seq![finalized(f, end)]);
    } else {
        assert(rest.drop_last() =~= Seq::<NodeModel>::empty());
        let r0 = rest[0];
        assert(stack_size(rest) == stack_size(rest.drop_last()) + node_count(r0));
        assert(node_count(finalized(r0, end)) == node_count(r0));
        let r1 = if r0.end_time_ns == 0 {
            finalized(r0, end)
        } else {
            r0
        };
        if r1.is_external {
            let r2 = NodeModel { children: Seq::empty(), ..r1 };
            assert(preorder(r2) =~= seq![r2]);
        }
    }
}

/// No external node of the tree has children.
pub open spec fn externals_are_leaves(m: NodeModel) -> bool
    decreases m,
{
    (m.is_external ==> m.children.len() == 0) && all_externals_are_leaves(m.children)
}

/// No external node of any of the subtrees has children.
pub open spec fn all_externals_are_leaves(s: Seq<NodeModel>) -> bool
    decreases s,
{
    s.len() == 0 || (all_externals_are_leaves(s.drop_last()) && externals_are_leaves(s[s.len() - 1]))
}

/// No open frame has an external node with children below it.
pub open spec fn stack_below_ok(s: Seq<NodeModel>) -> bool {
    forall|i: int| 0 <= i < s.len() ==> all_externals_are_leaves(#[trigger] s[i].children)
}

/// Normalization keeps the property.
pub proof fn lemma_leaves_normalized(m: NodeModel, base: u64)
    ensures
        externals_are_leaves(normalized(m, base)) == externals_are_leaves(m),
    decreases m,
{
    lemma_leaves_normalized_all(m.children, base);
    lemma_normalized_all(m.children, base);
}

/// Normalization keeps the property of sibling subtrees.
pub proof fn lemma_leaves_normalized_all(s: Seq<NodeModel>, base: u64)
    ensures
        all_externals_are_leaves(normalized_all(s, base)) == all_externals_are_leaves(s),
    decreases s,
{
    if s.len() > 0 {
        lemma_leaves_normalized_all(s.drop_last(), base);
        lemma_leaves_normalized(s[s.len() - 1], base);
        assert(normalized_all(s, base).drop_last() =~= normalized_all(s.drop_last(), base));
    }
}

/// One more event keeps every open frame's descendants in order.
pub proof fn lemma_step_below_ok(s: Seq<NodeModel>, ev: RawEvent)
    requires
        stack_below_ok(s),
    ensures
        stack_below_ok(step(s, ev)),
{
    if is_call_kind(ev.event@) {
        assert(stack_below_ok(s.push(opened(ev)))) by {
            assert forall|i: int| 0 <= i < s.len() + 1 implies all_externals_are_leaves(
                #[trigger] s.push(opened(ev))[i].children,
            ) by {
                if i < s.len() {
                    assert(s.push(opened(ev))[i] == s[i]);
                }
            }
        }
    } else if is_return_kind(ev.event@) && s.len() > 1 {
        lemma_close_top_below_ok(s, ev.timestamp_ns);
    } else if is_return_kind(ev.event@) && s.len() == 1 {
        assert(all_externals_are_leaves(s[0].children));
    }
}

/// Closing the innermost frame keeps every open frame's descendants in order.
pub proof fn lemma_close_top_below_ok(s: Seq<NodeModel>, end: u64)
    requires
        s.len() > 1,
        stack_below_ok(s),
    ensures
        stack_below_ok(close_top(s, end)),
{
    let rest = s.drop_last();
    let top = s[s.len() - 1];
    let c = closed(top, end);
    let p = rest[rest.len() - 1];
    assert(all_externals_are_leaves(top.children));
    assert(all_externals_are_leaves(p.children));
    if top.is_external {
        assert(c.children =~= Seq::<NodeModel>::empty());
    }
    assert(externals_are_leaves(c));
    assert(p.children.push(c).drop_last() =~= p.children);
    assert(all_externals_are_leaves(adopt(p, c).children));
    assert forall|i: int| 0 <= i < close_top(s, end).len() implies all_externals_are_leaves(
        #[trigger] close_top(s, end)[i].children,
    ) by {
        if i < rest.len() - 1 {
            assert(close_top(s, end)[i] == s[i]);
        }
    }
}

/// Every stack reached from the empty one keeps its frames' descendants in order.
pub proof fn lemma_replay_below_ok(events: Seq<RawEvent>)
    ensures
        stack_below_ok(replay(events)),
    decreases events.len(),
{
    if events.len() > 0 {
        lemma_replay_below_ok(events.drop_last());
        lemma_step_below_ok(replay(events.drop_last()), events[events.len() - 1]);
    }
}

/// The cleanup keeps every open frame's descendants in order.
pub proof fn lemma_close_all_below_ok(s: Seq<NodeModel>, end: u64)
    requires
        stack_below_ok(s),
    ensures
        stack_below_ok(close_all(s, end)),
    decreases s.len(),
{
    if s.len() > 1 {
        lemma_close_top_below_ok(s, end);
        lemma_close_all_below_ok(close_top(s, end), end);
    }
}

/// Whatever the stream, no external node of the tree keeps children: what was
/// called inside an external call, whether it returned or the stream ended
/// first, and whether or not that call is the outermost, is discarded.
pub proof fn lemma_externals_are_leaves(events: Seq<RawEvent>, name: Seq<char>, start: u64, end: u64)
    ensures
        externals_are_leaves(call_tree(events, name, start, end)),
{
    lemma_replay_below_ok(events);
    lemma_close_all_below_ok(replay(events), end);
    let rest = close_all(replay(events), end);
    let r = raw_root(events, name, start, end);
    if rest.len() == 0 {
        assert(fallback_root(name, start).children =~= Seq::<NodeModel>::empty());
    } else {
        assert(all_externals_are_leaves(rest[0].children));
    }
    if r.is_external {
        assert(r.children =~= Seq::<NodeModel>::empty());
    }
    assert(externals_are_leaves(r));
    lemma_leaves_normalized(r, start);
}

} // verus!
