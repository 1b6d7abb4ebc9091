use vstd::prelude::*;

verus! {

/// One observed instrumentation point, in stream order.
pub struct RawEvent {
    pub event: String,
    pub func_name: String,
    pub module: String,
    pub filename: String,
    pub lineno: u32,
    pub timestamp_ns: u64,
    pub is_external: bool,
    pub library_name: String,
}

/// One call-frame instance of the reconstructed tree; a node owns its children.
pub struct CallNode {
    pub func_name: String,
    pub module_name: String,
    pub file_path: String,
    pub line_number: u32,
    pub start_time_ns: u64,
    pub end_time_ns: u64,
    pub duration_ns: u64,
    pub is_external: bool,
    pub library_name: String,
    pub children: Vec<CallNode>,
}

/// The mathematical value of a call node: its attributes, with text as
/// character sequences, and the values of its children in call order.
pub struct NodeModel {
    pub func_name: Seq<char>,
    pub module_name: Seq<char>,
    pub file_path: Seq<char>,
    pub line_number: u32,
    pub start_time_ns: u64,
    pub end_time_ns: u64,
    pub duration_ns: u64,
    pub is_external: bool,
    pub library_name: Seq<char>,
    pub children: Seq<NodeModel>,
}

/// `a - b`, or zero where `b` exceeds `a`.
pub open spec fn sat_sub(a: u64, b: u64) -> u64 {
    if a >= b {
        (a - b) as u64
    } else {
        0
    }
}

/// The value of a node and, recursively, of its children.
pub open spec fn model_of(n: CallNode) -> NodeModel
    decreases n,
{
    NodeModel {
        func_name: n.func_name@,
        module_name: n.module_name@,
        file_path: n.file_path@,
        line_number: n.line_number,
        start_time_ns: n.start_time_ns,
        end_time_ns: n.end_time_ns,
        duration_ns: n.duration_ns,
        is_external: n.is_external,
        library_name: n.library_name@,
        children: models_of(n.children@),
    }
}

/// The values of a sequence of nodes, one for one.
pub open spec fn models_of(s: Seq<CallNode>) -> Seq<NodeModel>
    decreases s,
{
    if s.len() == 0 {
        Seq::empty()
    } else {
        models_of(s.drop_last()).push(model_of(s[s.len() - 1]))
    }
}

impl View for CallNode {
    type V = NodeModel;

    open spec fn view(&self) -> NodeModel {
        model_of(*self)
    }
}

/// The nodes of a tree in depth-first pre-order: the node itself, then each
/// child's subtree in call order.
pub open spec fn preorder(m: NodeModel) -> Seq<NodeModel>
    decreases m,
{
    seq![m] + preorder_all(m.children)
}

/// The pre-order sequences of a list of sibling subtrees, one after the other.
pub open spec fn preorder_all(s: Seq<NodeModel>) -> Seq<NodeModel>
    decreases s,
{
    if s.len() == 0 {
        Seq::empty()
    } else {
        preorder_all(s.drop_last()) + preorder(s[s.len() - 1])
    }
}

/// The number of nodes of a tree, root included.
pub open spec fn node_count(m: NodeModel) -> nat {
    preorder(m).len()
}

/// An event kind that opens a frame.
pub open spec fn is_call_kind(k: Seq<char>) -> bool {
    k == "call"@ || k == "c_call"@
}

/// An event kind that closes the innermost open frame.
pub open spec fn is_return_kind(k: Seq<char>) -> bool {
    k == "return"@ || k == "c_return"@
}

/// The frame that a call event opens: not yet finalized, no children.
pub open spec fn opened(ev: RawEvent) -> NodeModel {
    NodeModel {
        func_name: ev.func_name@,
        module_name: ev.module@,
        file_path: ev.filename@,
        line_number: ev.lineno,
        start_time_ns: ev.timestamp_ns,
        end_time_ns: 0,
        duration_ns: 0,
        is_external: ev.is_external,
        library_name: ev.library_name@,
        children: Seq::empty(),
    }
}

/// A frame with its end time set and its duration computed from its own
/// start and end.
pub open spec fn finalized(m: NodeModel, end: u64) -> NodeModel {
    NodeModel { end_time_ns: end, duration_ns: sat_sub(end, m.start_time_ns), ..m }
}

/// A frame finalized on leaving the stack: an external frame loses its children.
pub open spec fn closed(m: NodeModel, end: u64) -> NodeModel {
    if m.is_external {
        NodeModel { children: Seq::empty(), ..finalized(m, end) }
    } else {
        finalized(m, end)
    }
}

/// `child` appended as the last child of `parent`.
pub open spec fn adopt(parent: NodeModel, child: NodeModel) -> NodeModel {
    NodeModel { children: parent.children.push(child), ..parent }
}

/// The stack after its innermost frame is closed at `end` and handed to its
/// parent (for a stack of at least two frames).
pub open spec fn close_top(stack: Seq<NodeModel>, end: u64) -> Seq<NodeModel>
    recommends
        stack.len() > 1,
{
    let rest = stack.drop_last();
    rest.update(rest.len() - 1, adopt(rest[rest.len() - 1], closed(stack[stack.len() - 1], end)))
}

/// The stack of open frames after one more event.
pub open spec fn step(stack: Seq<NodeModel>, ev: RawEvent) -> Seq<NodeModel> {
    if is_call_kind(ev.event@) {
        stack.push(opened(ev))
    } else if is_return_kind(ev.event@) && stack.len() > 1 {
        close_top(stack, ev.timestamp_ns)
    } else if is_return_kind(ev.event@) && stack.len() == 1 {
        seq![finalized(stack[0], ev.timestamp_ns)]
    } else {
        stack
    }
}

/// The stack of open frames after a sequence of events, from an empty stack.
pub open spec fn replay(events: Seq<RawEvent>) -> Seq<NodeModel>
    decreases events.len(),
{
    if events.len() == 0 {
        Seq::empty()
    } else {
        step(replay(events.drop_last()), events[events.len() - 1])
    }
}

/// The stack once every frame but the outermost is closed at `end`.
pub open spec fn close_all(stack: Seq<NodeModel>, end: u64) -> Seq<NodeModel>
    decreases stack.len(),
{
    if stack.len() > 1 {
        close_all(close_top(stack, end), end)
    } else {
        stack
    }
}

/// The root made up when no frame was ever opened.
pub open spec fn fallback_root(name: Seq<char>, start: u64) -> NodeModel {
    NodeModel {
        func_name: name,
        module_name: Seq::empty(),
        file_path: Seq::empty(),
        line_number: 0,
        start_time_ns: start,
        end_time_ns: 0,
        duration_ns: 0,
        is_external: false,
        library_name: Seq::empty(),
        children: Seq::empty(),
    }
}

/// A tree with every start and end time made relative to `base`.
pub open spec fn normalized(m: NodeModel, base: u64) -> NodeModel
    decreases m,
{
    NodeModel {
        start_time_ns: sat_sub(m.start_time_ns, base),
        end_time_ns: sat_sub(m.end_time_ns, base),
        children: normalized_all(m.children, base),
        ..m
    }
}

/// Sibling subtrees, each made relative to `base`.
pub open spec fn normalized_all(s: Seq<NodeModel>, base: u64) -> Seq<NodeModel>
    decreases s,
{
    if s.len() == 0 {
        Seq::empty()
    } else {
        normalized_all(s.drop_last(), base).push(normalized(s[s.len() - 1], base))
    }
}

/// The root left on the stack after the stream and the cleanup, finalized at
/// `end` if it never was, without children if it is external, before
/// normalization.
pub open spec fn raw_root(events: Seq<RawEvent>, name: Seq<char>, start: u64, end: u64) -> NodeModel {
    let rest = close_all(replay(events), end);
    let root = if rest.len() == 0 {
        fallback_root(name, start)
    } else {
        rest[0]
    };
    let root = if root.end_time_ns == 0 {
        finalized(root, end)
    } else {
        root
    };
    if root.is_external {
        NodeModel { children: Seq::empty(), ..root }
    } else {
        root
    }
}

/// The call tree of an event stream, timed relative to `start`.
pub open spec fn call_tree(events: Seq<RawEvent>, name: Seq<char>, start: u64, end: u64) -> NodeModel {
    normalized(raw_root(events, name, start, end), start)
}

/// `models_of` maps each node to its value.
pub proof fn lemma_models_of(s: Seq<CallNode>)
    ensures
        models_of(s).len() == s.len(),
        forall|i: int| 0 <= i < s.len() ==> #[trigger] models_of(s)[i] == s[i]@,
    decreases s.len(),
{
    if s.len() > 0 {
        lemma_models_of(s.drop_last());
    }
}

/// `normalized_all` normalizes each sibling.
pub proof fn lemma_normalized_all(s: Seq<NodeModel>, base: u64)
    ensures
        normalized_all(s, base).len() == s.len(),
        forall|i: int| 0 <= i < s.len() ==> #[trigger] normalized_all(s, base)[i] == normalized(s[i], base),
    decreases s.len(),
{
    if s.len() > 0 {
        lemma_normalized_all(s.drop_last(), base);
    }
}

/// The subtrees of a prefix of siblings come first among those of all of them.
pub proof fn lemma_preorder_all_prefix(s: Seq<NodeModel>, k: int)
    requires
        0 <= k <= s.len(),
    ensures
        preorder_all(s.take(k)).len() <= preorder_all(s).len(),
        forall|i: int|
            0 <= i < preorder_all(s.take(k)).len() ==> #[trigger] preorder_all(s.take(k))[i]
                == preorder_all(s)[i],
    decreases s.len(),
{
    if k < s.len() {
        assert(s.drop_last().take(k) =~= s.take(k));
        lemma_preorder_all_prefix(s.drop_last(), k);
    } else {
        assert(s.take(k) =~= s);
    }
}

/// Each subtree among siblings is no larger than all of them together.
pub proof fn lemma_preorder_all_child(s: Seq<NodeModel>, i: int)
    requires
        0 <= i < s.len(),
    ensures
        preorder(s[i]).len() <= preorder_all(s).len(),
    decreases s.len(),
{
    if i < s.len() - 1 {
        lemma_preorder_all_child(s.drop_last(), i);
    }
}

/// A node that may be reported as the slowest: not external, and not at
/// index 0 of the walk (the root).
pub open spec fn eligible(nodes: Seq<NodeModel>, j: int) -> bool {
    1 <= j < nodes.len() && !nodes[j].is_external
}

/// `k` is the pre-order index of the slowest eligible node: no eligible node
/// lasts longer, and every eligible node before it is strictly shorter.
pub open spec fn is_slowest_at(nodes: Seq<NodeModel>, k: int) -> bool {
    &&& eligible(nodes, k)
    &&& forall|j: int| #[trigger] eligible(nodes, j) ==> nodes[j].duration_ns <= nodes[k].duration_ns
    &&& forall|j: int| #[trigger] eligible(nodes, j) && j < k ==> nodes[j].duration_ns < nodes[k].duration_ns
}

/// No node is eligible.
pub open spec fn has_no_slowest(nodes: Seq<NodeModel>) -> bool {
    forall|j: int| !#[trigger] eligible(nodes, j)
}

/// What the slowest-node search reports on a pre-order sequence.
pub open spec fn slowest_of(nodes: Seq<NodeModel>, r: Option<usize>) -> bool {
    match r {
        Some(k) => is_slowest_at(nodes, k as int),
        None => has_no_slowest(nodes),
    }
}

/// A node takes the place of the best so far: it is not external, and there
/// is no best yet or it lasts strictly longer.
pub open spec fn improves(m: NodeModel, best: Option<usize>, best_dur: u64) -> bool {
    !m.is_external && (best is None || m.duration_ns > best_dur)
}

/// Node `j` of a walk (the first one left out when `skip_first`) would take
/// the place of the given best.
pub open spec fn candidate(
    nodes: Seq<NodeModel>,
    skip_first: bool,
    best: Option<usize>,
    best_dur: u64,
    j: int,
) -> bool {
    0 <= j < nodes.len() && !(skip_first && j == 0) && improves(nodes[j], best, best_dur)
}

/// The best after a walk whose first node has index `base`, starting from a
/// given best: unchanged without candidates; otherwise the first candidate of
/// maximal duration.
pub open spec fn search_outcome(
    nodes: Seq<NodeModel>,
    skip_first: bool,
    base: int,
    best: Option<usize>,
    best_dur: u64,
    r: Option<usize>,
    r_dur: u64,
) -> bool {
    if exists|j: int| #[trigger] candidate(nodes, skip_first, best, best_dur, j) {
        exists|k: int|
            #[trigger] candidate(nodes, skip_first, best, best_dur, k) && r == Some((base + k) as usize)
                && r_dur == nodes[k].duration_ns && (forall|j: int|
                #[trigger] candidate(nodes, skip_first, best, best_dur, j) ==> nodes[j].duration_ns
                    <= nodes[k].duration_ns) && (forall|j: int|
                #[trigger] candidate(nodes, skip_first, best, best_dur, j) && j < k
                    ==> nodes[j].duration_ns < nodes[k].duration_ns)
    } else {
        r == best && r_dur == best_dur
    }
}

/// The search as a walk, node by node.
pub open spec fn scan(
    nodes: Seq<NodeModel>,
    skip_first: bool,
    base: int,
    best: Option<usize>,
    best_dur: u64,
) -> (Option<usize>, u64)
    decreases nodes.len(),
{
    if nodes.len() == 0 {
        (best, best_dur)
    } else {
        let prev = scan(nodes.drop_last(), skip_first, base, best, best_dur);
        let j = nodes.len() - 1;
        if !(skip_first && j == 0) && improves(nodes[j], prev.0, prev.1) {
            (Some((base + j) as usize), nodes[j].duration_ns)
        } else {
            prev
        }
    }
}

/// Walking `a` then `b` is walking `b` from where `a` left the best.
pub proof fn lemma_scan_append(
    a: Seq<NodeModel>,
    b: Seq<NodeModel>,
    skip_first: bool,
    base: int,
    best: Option<usize>,
    best_dur: u64,
)
    requires
        a.len() > 0,
    ensures
        scan(a + b, skip_first, base, best, best_dur) == scan(
            b,
            false,
            base + a.len(),
            scan(a, skip_first, base, best, best_dur).0,
            scan(a, skip_first, base, best, best_dur).1,
        ),
    decreases b.len(),
{
    if b.len() == 0 {
        assert(a + b =~= a);
    } else {
        lemma_scan_append(a, b.drop_last(), skip_first, base, best, best_dur);
        assert((a + b).drop_last() =~= a + b.drop_last());
        assert((a + b)[a.len() + b.len() - 1] == b[b.len() - 1]);
    }
}

/// The walk finds what `search_outcome` describes.
pub proof fn lemma_scan_outcome(
    nodes: Seq<NodeModel>,
    skip_first: bool,
    base: int,
    best: Option<usize>,
    best_dur: u64,
)
    requires
        0 <= base,
        base + nodes.len() <= usize::MAX,
    ensures
        search_outcome(
            nodes,
            skip_first,
            base,
            best,
            best_dur,
            scan(nodes, skip_first, base, best, best_dur).0,
            scan(nodes, skip_first, base, best, best_dur).1,
        ),
    decreases nodes.len(),
{
    if nodes.len() > 0 {
        let pre = nodes.drop_last();
        let j = nodes.len() - 1;
        lemma_scan_outcome(pre, skip_first, base, best, best_dur);
        let prev = scan(pre, skip_first, base, best, best_dur);
        let r = scan(nodes, skip_first, base, best, best_dur);
        assert forall|i: int| 0 <= i < j implies #[trigger] candidate(nodes, skip_first, best, best_dur, i)
            == candidate(pre, skip_first, best, best_dur, i) by {
            assert(nodes[i] == pre[i]);
        }
        let takes = !(skip_first && j == 0) && improves(nodes[j], prev.0, prev.1);
        if exists|i: int| #[trigger] candidate(pre, skip_first, best, best_dur, i) {
            let k = choose|k: int|
                #[trigger] candidate(pre, skip_first, best, best_dur, k) && prev.0 == Some((base + k) as usize)
                    && prev.1 == pre[k].duration_ns && (forall|i: int|
                    #[trigger] candidate(pre, skip_first, best, best_dur, i) ==> pre[i].duration_ns
                        <= pre[k].duration_ns) && (forall|i: int|
                    #[trigger] candidate(pre, skip_first, best, best_dur, i) && i < k
                        ==> pre[i].duration_ns < pre[k].duration_ns);
            assert(candidate(nodes, skip_first, best, best_dur, k));
            if takes {
                assert(candidate(nodes, skip_first, best, best_dur, j));
                assert forall|i: int| #[trigger] candidate(nodes, skip_first, best, best_dur, i)
                    implies nodes[i].duration_ns <= nodes[j].duration_ns by {
                    if i < j {
                        assert(candidate(pre, skip_first, best, best_dur, i));
                    }
                }
                assert forall|i: int| #[trigger] candidate(nodes, skip_first, best, best_dur, i) && i < j
                    implies nodes[i].duration_ns < nodes[j].duration_ns by {
                    assert(candidate(pre, skip_first, best, best_dur, i));
                }
            } else {
                assert forall|i: int| #[trigger] candidate(nodes, skip_first, best, best_dur, i)
                    implies nodes[i].duration_ns <= nodes[k].duration_ns by {
                    if i < j {
                        assert(candidate(pre, skip_first, best, best_dur, i));
                    }
                }
                assert forall|i: int| #[trigger] candidate(nodes, skip_first, best, best_dur, i) && i < k
                    implies nodes[i].duration_ns < nodes[k].duration_ns by {
                    assert(candidate(pre, skip_first, best, best_dur, i));
                }
            }
        } else {
            if takes {
                assert(candidate(nodes, skip_first, best, best_dur, j));
                assert forall|i: int| #[trigger] candidate(nodes, skip_first, best, best_dur, i)
                    implies i == j by {
                    if i < j {
                        assert(candidate(pre, skip_first, best, best_dur, i));
                    }
                }
            } else {
                assert forall|i: int| !#[trigger] candidate(nodes, skip_first, best, best_dur, i) by {
                    if 0 <= i < j {
                        assert(!candidate(pre, skip_first, best, best_dur, i));
                    }
                }
            }
        }
    }
}

/// The subtrees of the first `k + 1` siblings are those of the first `k`,
/// then that of sibling `k`.
pub proof fn lemma_preorder_all_push(s: Seq<NodeModel>, k: int)
    requires
        0 <= k < s.len(),
    ensures
        preorder_all(s.take(k + 1)) == preorder_all(s.take(k)) + preorder(s[k]),
{
    assert(s.take(k + 1).drop_last() =~= s.take(k));
}

impl CallNode {
    fn new(
        func_name: String,
        module_name: String,
        file_path: String,
        line_number: u32,
        start_time_ns: u64,
        is_external: bool,
        library_name: String,
    ) -> (r: CallNode)
        ensures
            r@ == (NodeModel {
                func_name: func_name@,
                module_name: module_name@,
                file_path: file_path@,
                line_number,
                start_time_ns,
                end_time_ns: 0,
                duration_ns: 0,
                is_external,
                library_name: library_name@,
                children: Seq::empty(),
            }),
    {
        let r = CallNode {
            func_name,
            module_name,
            file_path,
            line_number,
            start_time_ns,
            end_time_ns: 0,
            duration_ns: 0,
            is_external,
            library_name,
            children: Vec::new(),
        };
        assert(models_of(r.children@) =~= Seq::empty());
        r
    }

    fn finalize(&mut self, end_time_ns: u64)
        ensures
            final(self)@ == finalized(old(self)@, end_time_ns),
            final(self).children@ == old(self).children@,
    {
        self.end_time_ns = end_time_ns;
        self.duration_ns = if end_time_ns >= self.start_time_ns {
            end_time_ns - self.start_time_ns
        } else {
            0
        };
    }

    /// The pre-order index of the slowest node other than the root and the
    /// external nodes; a later node of equal duration does not replace an
    /// earlier one. `None` only when no node qualifies.
    pub fn find_slowest_id(&self) -> (r: Option<usize>)
        requires
            node_count(self@) <= usize::MAX,
        ensures
            slowest_of(preorder(self@), r),
    {
        let mut slowest_id: Option<usize> = None;
        let mut slowest_dur: u64 = 0;
        let mut counter: usize = 0;
        self.find_slowest_recursive(&mut slowest_id, &mut slowest_dur, &mut counter, true);
        proof {
            let nodes = preorder(self@);
            assert forall|j: int| #[trigger] candidate(nodes, true, None, 0, j) == eligible(nodes, j) by {}
            if exists|j: int| #[trigger] candidate(nodes, true, None, 0, j) {
                let k = choose|k: int|
                    #[trigger] candidate(nodes, true, None, 0, k) && slowest_id == Some((0 + k) as usize)
                        && slowest_dur == nodes[k].duration_ns && (forall|j: int|
                        #[trigger] candidate(nodes, true, None, 0, j) ==> nodes[j].duration_ns
                            <= nodes[k].duration_ns) && (forall|j: int|
                        #[trigger] candidate(nodes, true, None, 0, j) && j < k ==> nodes[j].duration_ns
                            < nodes[k].duration_ns);
                assert forall|j: int| #[trigger] eligible(nodes, j) implies nodes[j].duration_ns
                    <= nodes[k].duration_ns by {
                    assert(candidate(nodes, true, None, 0, j));
                }
                assert forall|j: int| #[trigger] eligible(nodes, j) && j < k implies nodes[j].duration_ns
                    < nodes[k].duration_ns by {
                    assert(candidate(nodes, true, None, 0, j));
                }
                assert(is_slowest_at(nodes, k));
            } else {
                assert forall|j: int| !#[trigger] eligible(nodes, j) by {
                    assert(!candidate(nodes, true, None, 0, j));
                }
            }
        }
        slowest_id
    }

    /// Walks the subtree in pre-order, numbering its nodes from `*counter` on,
    /// and keeps in `slowest_id` and `slowest_dur` the first node of maximal
    /// duration among those that take the place of the given best (the
    /// subtree's root left out when `is_root`).
    fn find_slowest_recursive(
        &self,
        slowest_id: &mut Option<usize>,
        slowest_dur: &mut u64,
        counter: &mut usize,
        is_root: bool,
    )
        requires
            *old(counter) + node_count(self@) <= usize::MAX,
        ensures
            *final(counter) == *old(counter) + node_count(self@),
            (*final(slowest_id), *final(slowest_dur)) == scan(
                preorder(self@),
                is_root,
                *old(counter) as int,
                *old(slowest_id),
                *old(slowest_dur),
            ),
            search_outcome(
                preorder(self@),
                is_root,
                *old(counter) as int,
                *old(slowest_id),
                *old(slowest_dur),
                *final(slowest_id),
                *final(slowest_dur),
            ),
        decreases self,
    {
        let ghost c0 = *counter as int;
        let ghost id0 = *slowest_id;
        let ghost d0 = *slowest_dur;
        let my_id = *counter;
        *counter += 1;
        if !is_root && !self.is_external && (slowest_id.is_none() || self.duration_ns > *slowest_dur) {
            *slowest_dur = self.duration_ns;
            *slowest_id = Some(my_id);
        }
        let ghost kids = models_of(self.children@);
        proof {
            lemma_models_of(self.children@);
            assert(seq![self@].drop_last() =~= Seq::<NodeModel>::empty());
            assert(scan(Seq::<NodeModel>::empty(), is_root, c0, id0, d0) == (id0, d0));
            assert(scan(seq![self@], is_root, c0, id0, d0) == (*slowest_id, *slowest_dur));
            assert(kids.take(0) =~= Seq::<NodeModel>::empty());
            assert(seq![self@] + preorder_all(kids.take(0)) =~= seq![self@]);
        }
        let n = self.children.len();
        let mut k: usize = 0;
        while k < n
            invariant
                n == self.children@.len(),
                kids == models_of(self.children@),
                kids.len() == n,
                forall|j: int| 0 <= j < n ==> #[trigger] kids[j] == self.children@[j]@,
                k <= n,
                c0 == *old(counter),
                id0 == *old(slowest_id),
                d0 == *old(slowest_dur),
                preorder(self@) == seq![self@] + preorder_all(kids),
                c0 + node_count(self@) <= usize::MAX,
                *counter == c0 + 1 + preorder_all(kids.take(k as int)).len(),
                (*slowest_id, *slowest_dur) == scan(
                    seq![self@] + preorder_all(kids.take(k as int)),
                    is_root,
                    c0,
                    id0,
                    d0,
                ),
            decreases n - k,
        {
            let child = &self.children[k];
            let ghost walked = seq![self@] + preorder_all(kids.take(k as int));
            proof {
                lemma_preorder_all_push(kids, k as int);
                lemma_preorder_all_prefix(kids, k + 1);
                assert(walked + preorder(kids[k as int]) =~= seq![self@] + preorder_all(kids.take(k + 1)));
            }
            child.find_slowest_recursive(slowest_id, slowest_dur, counter, false);
            proof {
                lemma_scan_append(walked, preorder(kids[k as int]), is_root, c0, id0, d0);
            }
            k += 1;
        }
        proof {
            assert(kids.take(n as int) =~= kids);
            lemma_scan_outcome(preorder(self@), is_root, c0, id0, d0);
        }
    }

    /// Makes every start and end time of the tree relative to `base_ns`
    /// (saturating at zero); durations are left as they are.
    pub fn normalize_times(&mut self, base_ns: u64)
        ensures
            final(self)@ == normalized(old(self)@, base_ns),
        decreases node_count(self@),
    {
        self.start_time_ns = if self.start_time_ns >= base_ns {
            self.start_time_ns - base_ns
        } else {
            0
        };
        self.end_time_ns = if self.end_time_ns >= base_ns {
            self.end_time_ns - base_ns
        } else {
            0
        };
        let ghost kids = old(self).children@;
        proof {
            lemma_models_of(kids);
        }
        let n = self.children.len();
        let mut i: usize = 0;
        while i < n
            invariant
                n == kids.len(),
                n == self.children@.len(),
                i <= n,
                self.children@.len() == n,
                self.start_time_ns == sat_sub(old(self).start_time_ns, base_ns),
                self.end_time_ns == sat_sub(old(self).end_time_ns, base_ns),
                self.func_name == old(self).func_name,
                self.module_name == old(self).module_name,
                self.file_path == old(self).file_path,
                self.line_number == old(self).line_number,
                self.duration_ns == old(self).duration_ns,
                self.is_external == old(self).is_external,
                self.library_name == old(self).library_name,
                forall|j: int| 0 <= j < i ==> #[trigger] self.children@[j]@ == normalized(kids[j]@, base_ns),
                forall|j: int| i <= j < n ==> #[trigger] self.children@[j] == kids[j],
                models_of(kids).len() == n,
                forall|j: int| 0 <= j < n ==> #[trigger] models_of(kids)[j] == kids[j]@,
                node_count(old(self)@) == 1 + preorder_all(models_of(kids)).len(),
            decreases n - i,
        {
            proof {
                lemma_preorder_all_child(models_of(kids), i as int);
                assert(node_count(self.children@[i as int]@) < node_count(old(self)@));
            }
            self.children[i].normalize_times(base_ns);
            i += 1;
        }
        proof {
            lemma_models_of(self.children@);
            lemma_normalized_all(models_of(kids), base_ns);
            assert(models_of(self.children@) =~= normalized_all(models_of(kids), base_ns));
        }
    }
}

/// What an event's kind asks of the builder.
pub enum EventKind {
    Call,
    Return,
    Ignored,
}

/// Classifies an event kind: `call` and `c_call` open a frame, `return` and
/// `c_return` close one, anything else is ignored.
pub fn event_kind(kind: &String) -> (r: EventKind)
    ensures
        r is Call <==> is_call_kind(kind@),
        r is Return <==> is_return_kind(kind@),
{
    proof {
        reveal_strlit("call");
        reveal_strlit("c_call");
        reveal_strlit("return");
        reveal_strlit("c_return");
        assert("call"@.len() != "return"@.len() && "call"@.len() != "c_return"@.len());
        assert("c_call"@[0] != "return"@[0] && "c_call"@.len() != "c_return"@.len());
    }
    if *kind == String::from_str("call") || *kind == String::from_str("c_call") {
        EventKind::Call
    } else if *kind == String::from_str("return") || *kind == String::from_str("c_return") {
        EventKind::Return
    } else {
        EventKind::Ignored
    }
}

/// Closes the innermost frame at `end_ns` and appends it to its parent.
fn close_innermost(stack: &mut Vec<CallNode>, end_ns: u64)
    requires
        old(stack)@.len() > 1,
    ensures
        models_of(final(stack)@) == close_top(models_of(old(stack)@), end_ns),
{
    proof {
        lemma_models_of(stack@);
    }
    let ghost s0 = stack@;
    let mut finished = stack.pop().unwrap();
    finished.finalize(end_ns);
    if finished.is_external {
        finished.children.clear();
        assert(models_of(finished.children@) =~= Seq::empty());
    }
    assert(finished@ == closed(s0[s0.len() - 1]@, end_ns));
    let mut parent = stack.pop().unwrap();
    let ghost p0 = parent;
    parent.children.push(finished);
    proof {
        lemma_models_of(p0.children@);
        lemma_models_of(parent.children@);
        assert(models_of(parent.children@) =~= p0@.children.push(finished@));
    }
    stack.push(parent);
    proof {
        lemma_models_of(stack@);
        assert(models_of(stack@) =~= close_top(models_of(s0), end_ns));
    }
}

/// Rebuilds the call tree of an ordered event stream. Frames still open at
/// the end of the stream are closed at `end_ns`; with no frame at all the
/// root is a placeholder named `api_name` that starts at `start_ns`. All
/// times of the result are relative to `start_ns`.
pub fn build_call_tree(events: Vec<RawEvent>, api_name: &str, start_ns: u64, end_ns: u64) -> (root:
    CallNode)
    ensures
        root@ == call_tree(events@, api_name@, start_ns, end_ns),
        node_count(root@) == 1 || node_count(root@) <= events@.len(),
{
    proof {
        crate::laws::lemma_tree_size_bound(events@, api_name@, start_ns, end_ns);
    }
    let mut stack: Vec<CallNode> = Vec::new();
    let n = events.len();
    let mut i: usize = 0;
    proof {
        assert(events@.take(0) =~= Seq::<RawEvent>::empty());
        lemma_models_of(stack@);
        assert(models_of(stack@) =~= Seq::<NodeModel>::empty());
    }
    while i < n
        invariant
            n == events@.len(),
            i <= n,
            models_of(stack@) == replay(events@.take(i as int)),
        decreases n - i,
    {
        let ev = &events[i];
        let ghost before = stack@;
        proof {
            lemma_models_of(before);
            assert(events@.take(i + 1).drop_last() =~= events@.take(i as int));
        }
        match event_kind(&ev.event) {
            EventKind::Call => {
                let node = CallNode::new(
                    ev.func_name.clone(),
                    ev.module.clone(),
                    ev.filename.clone(),
                    ev.lineno,
                    ev.timestamp_ns,
                    ev.is_external,
                    ev.library_name.clone(),
                );
                stack.push(node);
                proof {
                    lemma_models_of(stack@);
                    assert(models_of(stack@) =~= models_of(before).push(opened(*ev)));
                }
            },
            EventKind::Return => {
                if stack.len() > 1 {
                    close_innermost(&mut stack, ev.timestamp_ns);
                } else if stack.len() == 1 {
                    let mut root = stack.pop().unwrap();
                    root.finalize(ev.timestamp_ns);
                    stack.push(root);
                    proof {
                        lemma_models_of(stack@);
                        assert(models_of(stack@) =~= seq![
                            finalized(models_of(before)[0], ev.timestamp_ns),
                        ]);
                    }
                }
            },
            EventKind::Ignored => {},
        }
        i += 1;
    }
    assert(events@.take(n as int) =~= events@);
    while stack.len() > 1
        invariant
            close_all(models_of(stack@), end_ns) == close_all(replay(events@), end_ns),
        decreases stack.len(),
    {
        proof {
            lemma_models_of(stack@);
        }
        close_innermost(&mut stack, end_ns);
        proof {
            lemma_models_of(stack@);
        }
    }
    proof {
        lemma_models_of(stack@);
    }
    let mut root = match stack.pop() {
        Some(r) => r,
        None => CallNode::new(
            String::from_str(api_name),
            String::new(),
            String::new(),
            0,
            start_ns,
            false,
            String::new(),
        ),
    };
    assert(root@ == if close_all(replay(events@), end_ns).len() == 0 {
        fallback_root(api_name@, start_ns)
    } else {
        close_all(replay(events@), end_ns)[0]
    });
    if root.end_time_ns == 0 {
        root.finalize(end_ns);
    }
    if root.is_external {
        root.children.clear();
        assert(models_of(root.children@) =~= Seq::empty());
    }
    root.normalize_times(start_ns);
    root
}

} // verus!
