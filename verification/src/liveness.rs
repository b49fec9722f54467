//! Reachability between blocks and the liveness analysis of SSA variables
//! (Domaine, Brandner, Boissinot, Darte, Dinechin, Rastello: Computing Liveness
//! Sets for SSA-Form Programs, 2011), one variable at a time.

use vstd::prelude::*;

use crate::cfg::{names_view, succ_targets, targets_of, use_block, BasicBlock, LineInstruction, Use, CFG};
use crate::collections::{copy_items, ItemSet, Ranked};
use crate::text::{lemma_text_lt_irrefl, lemma_text_lt_trans, push_text, text_lt};

verus! {

broadcast use vstd::string::group_string_axioms;

// ---------------------------------------------------------------------------
// Reachability
// ---------------------------------------------------------------------------

/// Control can go from block `a` to block `b` in one step.
pub open spec fn edge(blocks: Seq<BasicBlock>, a: usize, b: usize) -> bool {
    &&& a < blocks.len()
    &&& succ_targets(blocks[a as int].successors).contains(b)
}

/// `p` is a path of blocks along edges.
pub open spec fn is_path(blocks: Seq<BasicBlock>, p: Seq<usize>) -> bool {
    &&& p.len() >= 1
    &&& forall|i: int| 0 <= i < p.len() - 1 ==> #[trigger] edge(blocks, p[i], p[i + 1])
}

/// Block `to` can be reached from block `from` (in zero or more steps).
pub open spec fn reachable(blocks: Seq<BasicBlock>, from: usize, to: usize) -> bool {
    exists|p: Seq<usize>| #[trigger] is_path(blocks, p) && p[0] == from && p.last() == to
}

/// Every block that some block mentions exists.
pub open spec fn links_ok(blocks: Seq<BasicBlock>) -> bool {
    forall|i: int| 0 <= i < blocks.len() ==> #[trigger] blocks[i].links_below(blocks.len())
}

pub proof fn lemma_extend_path(blocks: Seq<BasicBlock>, from: usize, x: usize, t: usize)
    requires
        reachable(blocks, from, x),
        edge(blocks, x, t),
    ensures
        reachable(blocks, from, t),
{
    let p = choose|p: Seq<usize>| #[trigger] is_path(blocks, p) && p[0] == from && p.last() == x;
    let q = p.push(t);
    assert forall|i: int| 0 <= i < q.len() - 1 implies #[trigger] edge(blocks, q[i], q[i + 1]) by {
        if i < p.len() - 1 {
            assert(q[i] == p[i] && q[i + 1] == p[i + 1]);
        } else {
            assert(q[i] == x);
        }
    }
    assert(is_path(blocks, q));
}

proof fn lemma_closed_contains_path(blocks: Seq<BasicBlock>, marked: Seq<bool>, p: Seq<usize>, k: int)
    requires
        is_path(blocks, p),
        marked.len() == blocks.len(),
        p[0] < marked.len(),
        marked[p[0] as int],
        forall|x: usize, t: usize| x < marked.len() && marked[x as int] && #[trigger] edge(blocks, x, t) ==> t < marked.len() && marked[t as int],
        0 <= k < p.len(),
    ensures
        p[k] < marked.len() && marked[p[k] as int],
    decreases k,
{
    if k > 0 {
        lemma_closed_contains_path(blocks, marked, p, k - 1);
        let i = k - 1;
        assert(edge(blocks, p[i], p[i + 1]));
        assert(i + 1 == k);
    }
}

pub proof fn lemma_reachable_refl(blocks: Seq<BasicBlock>, a: usize)
    ensures
        reachable(blocks, a, a),
{
    let p = seq![a];
    assert(is_path(blocks, p));
}

/// A block reachable from an existing block exists.
pub proof fn lemma_reachable_below(blocks: Seq<BasicBlock>, from: usize, to: usize)
    requires
        links_ok(blocks),
        from < blocks.len(),
        reachable(blocks, from, to),
    ensures
        to < blocks.len(),
{
    let p = choose|p: Seq<usize>| #[trigger] is_path(blocks, p) && p[0] == from && p.last() == to;
    if p.len() > 1 {
        let i = p.len() - 2;
        assert(edge(blocks, p[i], p[i + 1]));
        let a = p[i];
        assert(blocks[a as int].links_below(blocks.len()));
        let j = choose|j: int| 0 <= j < succ_targets(blocks[a as int].successors).len()
            && succ_targets(blocks[a as int].successors)[j] == p[i + 1];
        assert(succ_targets(blocks[a as int].successors)[j] < blocks.len());
    }
}

pub open spec fn count_false(s: Seq<bool>) -> nat
    decreases s.len(),
{
    if s.len() == 0 {
        0
    } else {
        (if s.last() { 0nat } else { 1nat }) + count_false(s.drop_last())
    }
}

pub proof fn lemma_count_false_set(s: Seq<bool>, i: int)
    requires
        0 <= i < s.len(),
        !s[i],
    ensures
        count_false(s.update(i, true)) + 1 == count_false(s),
    decreases s.len(),
{
    if i == s.len() - 1 {
        assert(s.update(i, true).drop_last() =~= s.drop_last());
    } else {
        lemma_count_false_set(s.drop_last(), i);
        assert(s.update(i, true).drop_last() =~= s.drop_last().update(i, true));
    }
}

pub proof fn lemma_count_false_bound(s: Seq<bool>)
    ensures
        count_false(s) <= s.len(),
    decreases s.len(),
{
    if s.len() > 0 {
        lemma_count_false_bound(s.drop_last());
    }
}

///Returns a set with all the blocks that the origin_block can reach through a bfs
pub fn on_path_from_def(blocks: &Vec<BasicBlock>, origin_block: usize) -> (r: ItemSet<usize>)
    requires
        links_ok(blocks@),
        origin_block < blocks@.len(),
    ensures
        r.wf(),
        forall|b: usize| #[trigger] r@.contains(b) <==> reachable(blocks@, origin_block, b),
{
    let n = blocks.len();
    let mut reached: Vec<bool> = Vec::new();
    let mut i: usize = 0;
    while i < n
        invariant
            n == blocks@.len(),
            i <= n,
            reached@.len() == i,
            forall|j: int| 0 <= j < i ==> !reached@[j],
        decreases n - i,
    {
        reached.push(false);
        i = i + 1;
    }
    let mut queue: Vec<usize> = Vec::new();
    let mut head: usize = 0;
    queue.push(origin_block);
    reached.set(origin_block, true);
    proof {
        let p = seq![origin_block];
        assert(is_path(blocks@, p));
        assert forall|x: int| 0 <= x < n && reached@[x] implies exists|j: int| 0 <= j < queue@.len() && #[trigger] queue@[j] == x by {
            assert(queue@[0] == x);
        }
    }
    while head < queue.len()
        invariant
            n == blocks@.len(),
            links_ok(blocks@),
            origin_block < n,
            reached@.len() == n,
            reached@[origin_block as int],
            head <= queue@.len(),
            forall|j: int| 0 <= j < queue@.len() ==> #[trigger] queue@[j] < n && reached@[queue@[j] as int],
            forall|x: int| 0 <= x < n && reached@[x] ==> reachable(blocks@, origin_block, x as usize),
            forall|x: int| 0 <= x < n && reached@[x] ==> exists|j: int| 0 <= j < queue@.len() && #[trigger] queue@[j] == x,
            forall|j: int, t: usize| 0 <= j < head && #[trigger] edge(blocks@, queue@[j], t) ==> t < n && reached@[t as int],
        decreases count_false(reached@), queue@.len() - head,
    {
        let current = queue[head];
        head = head + 1;
        let ghost before = reached@;
        let ghost qlen0 = queue@.len();
        let targets = targets_of(&blocks[current].successors);
        proof {
            assert(blocks@[current as int].links_below(n as nat));
        }
        let mut k: usize = 0;
        while k < targets.len()
            invariant
                n == blocks@.len(),
                links_ok(blocks@),
                origin_block < n,
                current < n,
                current == queue@[head - 1],
                0 < head <= qlen0,
                qlen0 <= queue@.len(),
                reached@[current as int],
                targets@ == succ_targets(blocks@[current as int].successors),
                forall|j: int| 0 <= j < targets@.len() ==> #[trigger] targets@[j] < n,
                reached@.len() == n,
                reached@[origin_block as int],
                k <= targets@.len(),
                forall|j: int| 0 <= j < queue@.len() ==> #[trigger] queue@[j] < n && reached@[queue@[j] as int],
                forall|j: int| 0 <= j < qlen0 ==> #[trigger] queue@[j] == queue@[j],
                forall|x: int| 0 <= x < n && reached@[x] ==> reachable(blocks@, origin_block, x as usize),
                forall|x: int| 0 <= x < n && reached@[x] ==> exists|j: int| 0 <= j < queue@.len() && #[trigger] queue@[j] == x,
                forall|x: int| 0 <= x < n && before[x] ==> reached@[x],
                forall|j: int| 0 <= j < k ==> reached@[#[trigger] targets@[j] as int],
                forall|j: int, t: usize| 0 <= j < head - 1 && #[trigger] edge(blocks@, queue@[j], t) ==> t < n && reached@[t as int],
                count_false(reached@) + queue@.len() == count_false(before) + qlen0,
            decreases targets@.len() - k,
        {
            let t = targets[k];
            if !reached[t] {
                proof {
                    assert(edge(blocks@, current, t)) by {
                        assert(succ_targets(blocks@[current as int].successors)[k as int] == t);
                    }
                    lemma_extend_path(blocks@, origin_block, current, t);
                    lemma_count_false_set(reached@, t as int);
                }
                let ghost q0 = queue@;
                reached.set(t, true);
                queue.push(t);
                proof {
                    assert forall|x: int| 0 <= x < n && reached@[x] implies exists|j: int| 0 <= j < queue@.len() && #[trigger] queue@[j] == x by {
                        if x == t {
                            assert(queue@[q0.len() as int] == x);
                        } else {
                            let j = choose|j: int| 0 <= j < q0.len() && #[trigger] q0[j] == x;
                            assert(queue@[j] == x);
                        }
                    }
                }
            }
            k = k + 1;
        }
        proof {
            assert forall|j: int, t: usize| 0 <= j < head && #[trigger] edge(blocks@, queue@[j], t) implies t < n && reached@[t as int] by {
                if j == head - 1 {
                    let m = choose|m: int| 0 <= m < targets@.len() && targets@[m] == t;
                    assert(reached@[targets@[m] as int]);
                }
            }
            lemma_count_false_bound(reached@);
        }
    }
    proof {
        assert forall|x: usize, t: usize| x < n && reached@[x as int] && #[trigger] edge(blocks@, x, t) implies t < n && reached@[t as int] by {
            let j = choose|j: int| 0 <= j < queue@.len() && #[trigger] queue@[j] == x as int;
            assert(edge(blocks@, queue@[j], t));
        }
    }
    let mut result: ItemSet<usize> = ItemSet::new();
    let mut b: usize = 0;
    while b < n
        invariant
            n == blocks@.len(),
            reached@.len() == n,
            b <= n,
            result.wf(),
            forall|x: usize| #[trigger] result@.contains(x) <==> (x < b && reached@[x as int]),
        decreases n - b,
    {
        if reached[b] {
            result.insert(b);
        }
        b = b + 1;
    }
    proof {
        assert forall|x: usize| #[trigger] reachable(blocks@, origin_block, x) implies x < n && reached@[x as int] by {
            let p = choose|p: Seq<usize>| #[trigger] is_path(blocks@, p) && p[0] == origin_block && p.last() == x;
            lemma_closed_contains_path(blocks@, reached@, p, p.len() - 1);
        }
    }
    result
}

// ---------------------------------------------------------------------------
// Liveness
// ---------------------------------------------------------------------------

/// `var` is on top of the live-in stack of `b`.
pub open spec fn marked(b: BasicBlock, var: Seq<char>) -> bool {
    b.live_in@.len() > 0 && b.live_in@.last()@ == var
}

pub open spec fn count_unmarked(blocks: Seq<BasicBlock>, var: Seq<char>) -> nat
    decreases blocks.len(),
{
    if blocks.len() == 0 {
        0
    } else {
        (if marked(blocks.last(), var) { 0nat } else { 1nat }) + count_unmarked(blocks.drop_last(), var)
    }
}

proof fn lemma_count_unmarked_mono(a: Seq<BasicBlock>, b: Seq<BasicBlock>, var: Seq<char>, i: int)
    requires
        a.len() == b.len(),
        forall|j: int| 0 <= j < a.len() && marked(a[j], var) ==> marked(b[j], var),
    ensures
        count_unmarked(b, var) <= count_unmarked(a, var),
        0 <= i < a.len() && !marked(a[i], var) && marked(b[i], var) ==> count_unmarked(b, var) < count_unmarked(a, var),
    decreases a.len(),
{
    if a.len() > 0 {
        assert(a.last() == a[a.len() - 1]);
        assert(b.last() == b[b.len() - 1]);
        lemma_count_unmarked_mono(a.drop_last(), b.drop_last(), var, i);
    }
}

/// Only the live sets of the blocks change, and every block keeps `var` marked.
pub open spec fn only_live_sets_change(before: Seq<BasicBlock>, after: Seq<BasicBlock>) -> bool {
    &&& after.len() == before.len()
    &&& forall|i: int| 0 <= i < before.len() ==> {
        &&& (#[trigger] after[i]).id == before[i].id
        &&& after[i].phi_functions@ == before[i].phi_functions@
        &&& after[i].statements@ == before[i].statements@
        &&& after[i].predecessors@ == before[i].predecessors@
        &&& after[i].successors == before[i].successors
        &&& after[i].declarations == before[i].declarations
        &&& after[i].phi_uses == before[i].phi_uses
    }
}

proof fn lemma_links_kept(before: Seq<BasicBlock>, after: Seq<BasicBlock>)
    requires
        links_ok(before),
        only_live_sets_change(before, after),
    ensures
        links_ok(after),
{
    assert forall|i: int| 0 <= i < after.len() implies #[trigger] after[i].links_below(after.len()) by {
        assert(before[i].links_below(before.len()));
    }
}

/// `var` was the last name added to the live-out list of `b`.
pub open spec fn out_marked(b: BasicBlock, var: Seq<char>) -> bool {
    b.live_out@.len() > 0 && b.live_out@.last()@ == var
}

/// A list of names that is unchanged, or has `v` added at its end where it did
/// not already end with `v`.
pub open spec fn grows_by(before: Seq<Seq<char>>, after: Seq<Seq<char>>, v: Seq<char>) -> bool {
    ||| after == before
    ||| after == before.push(v) && !(before.len() > 0 && before.last() == v)
}

/// Every live-in and live-out list of the blocks grows at most by `v`.
pub open spec fn live_sets_grow_by(before: Seq<BasicBlock>, after: Seq<BasicBlock>, v: Seq<char>) -> bool {
    &&& after.len() == before.len()
    &&& forall|i: int| 0 <= i < before.len() ==> {
        &&& grows_by(names_view(before[i].live_in@), names_view((#[trigger] after[i]).live_in@), v)
        &&& grows_by(names_view(before[i].live_out@), names_view(after[i].live_out@), v)
    }
}

proof fn lemma_grow_trans(a: Seq<BasicBlock>, b: Seq<BasicBlock>, c: Seq<BasicBlock>, v: Seq<char>)
    requires
        live_sets_grow_by(a, b, v),
        live_sets_grow_by(b, c, v),
    ensures
        live_sets_grow_by(a, c, v),
{
    assert forall|i: int| 0 <= i < a.len() implies {
        &&& grows_by(names_view(a[i].live_in@), names_view((#[trigger] c[i]).live_in@), v)
        &&& grows_by(names_view(a[i].live_out@), names_view(c[i].live_out@), v)
    } by {
        let (ai, bi, ci) = (names_view(a[i].live_in@), names_view(b[i].live_in@), names_view(c[i].live_in@));
        let (ao, bo, co) = (names_view(a[i].live_out@), names_view(b[i].live_out@), names_view(c[i].live_out@));
        assert(grows_by(ai, bi, v) && grows_by(ao, bo, v));
        assert(grows_by(bi, ci, v) && grows_by(bo, co, v));
        if bi != ai {
            assert(bi.last() == v);
        }
        if bo != ao {
            assert(bo.last() == v);
        }
    }
}

proof fn lemma_grow_keeps_marks(a: Seq<BasicBlock>, b: Seq<BasicBlock>, v: Seq<char>, i: int)
    requires
        live_sets_grow_by(a, b, v),
        0 <= i < a.len(),
    ensures
        marked(a[i], v) ==> marked(b[i], v),
        out_marked(a[i], v) ==> out_marked(b[i], v),
{
    let (ai, bi) = (names_view(a[i].live_in@), names_view(b[i].live_in@));
    let (ao, bo) = (names_view(a[i].live_out@), names_view(b[i].live_out@));
    assert(grows_by(ai, bi, v) && grows_by(ao, bo, v));
    if marked(a[i], v) {
        assert(ai.last() == a[i].live_in@.last()@);
        assert(bi == ai);
        assert(bi.len() == b[i].live_in@.len());
        assert(bi.last() == b[i].live_in@.last()@);
    }
    if out_marked(a[i], v) {
        assert(ao.last() == a[i].live_out@.last()@);
        assert(bo == ao);
        assert(bo.len() == b[i].live_out@.len());
        assert(bo.last() == b[i].live_out@.last()@);
    }
}

/// Every block marked with `var`, but those of `pending` and block `d`, has each
/// predecessor that `on` holds marked too, but `d` where an instruction (not a
/// φ-function, `phi_def`) defines `var`.
pub open spec fn marks_closed(blocks: Seq<BasicBlock>, var: Seq<char>, d: usize, phi_def: bool, on: Set<usize>, pending: Set<usize>) -> bool {
    forall|x: int, j: int|
        0 <= x < blocks.len() && marked(blocks[x], var) && !pending.contains(x as usize) && x != d && 0 <= j
            < blocks[x].predecessors@.len() && on.contains(blocks[x].predecessors@[j]) && !(blocks[x].predecessors@[j] == d
            && !phi_def) ==> #[trigger] marked(blocks[blocks[x].predecessors@[j] as int], var)
}

/// Closure survives new marks on blocks that become pending.
proof fn lemma_closed_grow(
    a: Seq<BasicBlock>,
    b: Seq<BasicBlock>,
    var: Seq<char>,
    d: usize,
    phi_def: bool,
    on: Set<usize>,
    pending: Set<usize>,
    pending2: Set<usize>,
)
    requires
        links_ok(a),
        marks_closed(a, var, d, phi_def, on, pending),
        pending.subset_of(pending2),
        only_live_sets_change(a, b),
        forall|i: int| 0 <= i < a.len() && marked(a[i], var) ==> #[trigger] marked(b[i], var),
        forall|i: int| 0 <= i < a.len() && #[trigger] marked(b[i], var) && !marked(a[i], var) ==> pending2.contains(i as usize),
    ensures
        marks_closed(b, var, d, phi_def, on, pending2),
{
    assert forall|x: int, j: int|
        0 <= x < b.len() && marked(b[x], var) && !pending2.contains(x as usize) && x != d && 0 <= j < b[x].predecessors@.len()
            && on.contains(b[x].predecessors@[j]) && !(b[x].predecessors@[j] == d && !phi_def) implies #[trigger] marked(
        b[b[x].predecessors@[j] as int],
        var,
    ) by {
        assert(a[x].predecessors@ == b[x].predecessors@);
        assert(marked(a[x], var));
        assert(a[x].links_below(a.len()));
        assert(marked(a[a[x].predecessors@[j] as int], var));
    }
}

/// A pending block whose predecessors are all marked leaves the pending set.
proof fn lemma_closed_release(
    b: Seq<BasicBlock>,
    var: Seq<char>,
    d: usize,
    phi_def: bool,
    on: Set<usize>,
    pending: Set<usize>,
    block: usize,
)
    requires
        block < b.len(),
        b.len() <= usize::MAX,
        marks_closed(b, var, d, phi_def, on, pending.insert(block)),
        block == d || forall|j: int|
            0 <= j < b[block as int].predecessors@.len() && on.contains(b[block as int].predecessors@[j]) && !(
            b[block as int].predecessors@[j] == d && !phi_def) ==> #[trigger] marked(b[b[block as int].predecessors@[j] as int], var),
    ensures
        marks_closed(b, var, d, phi_def, on, pending),
{
    assert forall|x: int, j: int|
        0 <= x < b.len() && marked(b[x], var) && !pending.contains(x as usize) && x != d && 0 <= j < b[x].predecessors@.len()
            && on.contains(b[x].predecessors@[j]) && !(b[x].predecessors@[j] == d && !phi_def) implies #[trigger] marked(
        b[b[x].predecessors@[j] as int],
        var,
    ) by {
        if x != block {
            assert((x as usize) as int == x);
            assert(x as usize != block);
            assert(!pending.insert(block).contains(x as usize));
        }
    }
}

///Propagates the liveness of `var` upwards from `block` until its definition:
///`var` becomes live-in at every block on the way and live-out at their predecessors.
pub fn up_and_mark(blocks: &mut Vec<BasicBlock>, block: usize, var: &str, def_v: &(usize, LineInstruction), on_path: &ItemSet<usize>)
    requires
        links_ok(old(blocks)@),
        block < old(blocks)@.len(),
    ensures
        links_ok(final(blocks)@),
        only_live_sets_change(old(blocks)@, final(blocks)@),
        forall|i: int| 0 <= i < old(blocks)@.len() && marked(old(blocks)@[i], var@) ==> #[trigger] marked(final(blocks)@[i], var@),
        live_sets_grow_by(old(blocks)@, final(blocks)@, var@),
        def_v.0 == block && !def_v.1.is_phi ==> final(blocks)@ == old(blocks)@,
        !(def_v.0 == block && !def_v.1.is_phi) ==> marked(final(blocks)@[block as int], var@),
        def_v.0 != block && !marked(old(blocks)@[block as int], var@) ==> forall|j: int|
            0 <= j < old(blocks)@[block as int].predecessors@.len() && on_path@.contains(
                #[trigger] old(blocks)@[block as int].predecessors@[j],
            ) ==> out_marked(final(blocks)@[old(blocks)@[block as int].predecessors@[j] as int], var@),
        (forall|x: usize| #[trigger] on_path@.contains(x) ==> reachable(old(blocks)@, def_v.0, x)) && reachable(
            old(blocks)@,
            def_v.0,
            block,
        ) ==> forall|i: int| 0 <= i < old(blocks)@.len() && #[trigger] live_in_grown(old(blocks)@, final(blocks)@, i) ==> {
            &&& !(i == def_v.0 && !def_v.1.is_phi)
            &&& exists|p: Seq<usize>| #[trigger] live_chain(old(blocks)@, def_v.0, p) && p[0] == i && p.last() == block
        },
        marks_closed(old(blocks)@, var@, def_v.0, def_v.1.is_phi, on_path@, Set::empty()) ==> marks_closed(
            final(blocks)@,
            var@,
            def_v.0,
            def_v.1.is_phi,
            on_path@,
            Set::empty(),
        ),
{
    mark_up(blocks, block, var, def_v, on_path, Ghost(Set::empty()))
}

/// Marks `var` live at the entry of `block` and, where `block` does not define it, of
/// the predecessors that `on_path` holds, recursively; `pending` are the blocks
/// whose predecessors are being marked.
fn mark_up(
    blocks: &mut Vec<BasicBlock>,
    block: usize,
    var: &str,
    def_v: &(usize, LineInstruction),
    on_path: &ItemSet<usize>,
    Ghost(pending): Ghost<Set<usize>>,
)
    requires
        links_ok(old(blocks)@),
        block < old(blocks)@.len(),
    ensures
        links_ok(final(blocks)@),
        only_live_sets_change(old(blocks)@, final(blocks)@),
        forall|i: int| 0 <= i < old(blocks)@.len() && marked(old(blocks)@[i], var@) ==> #[trigger] marked(final(blocks)@[i], var@),
        live_sets_grow_by(old(blocks)@, final(blocks)@, var@),
        def_v.0 == block && !def_v.1.is_phi ==> final(blocks)@ == old(blocks)@,
        !(def_v.0 == block && !def_v.1.is_phi) ==> marked(final(blocks)@[block as int], var@),
        def_v.0 != block && !marked(old(blocks)@[block as int], var@) ==> forall|j: int|
            0 <= j < old(blocks)@[block as int].predecessors@.len() && on_path@.contains(
                #[trigger] old(blocks)@[block as int].predecessors@[j],
            ) ==> out_marked(final(blocks)@[old(blocks)@[block as int].predecessors@[j] as int], var@),
        (forall|x: usize| #[trigger] on_path@.contains(x) ==> reachable(old(blocks)@, def_v.0, x)) && reachable(
            old(blocks)@,
            def_v.0,
            block,
        ) ==> forall|i: int| 0 <= i < old(blocks)@.len() && #[trigger] live_in_grown(old(blocks)@, final(blocks)@, i) ==> {
            &&& !(i == def_v.0 && !def_v.1.is_phi)
            &&& exists|p: Seq<usize>| #[trigger] live_chain(old(blocks)@, def_v.0, p) && p[0] == i && p.last() == block
        },
        (forall|y: usize| #[trigger] pending.contains(y) ==> y < old(blocks)@.len() && marked(old(blocks)@[y as int], var@)) && marks_closed(
            old(blocks)@,
            var@,
            def_v.0,
            def_v.1.is_phi,
            on_path@,
            pending,
        ) ==> marks_closed(final(blocks)@, var@, def_v.0, def_v.1.is_phi, on_path@, pending),
    decreases count_unmarked(old(blocks)@, var@),
{
    let ghost cond = (forall|x: usize| #[trigger] on_path@.contains(x) ==> reachable(old(blocks)@, def_v.0, x)) && reachable(
        old(blocks)@,
        def_v.0,
        block,
    );
    let ghost closed0 = (forall|y: usize| #[trigger] pending.contains(y) ==> y < old(blocks)@.len() && marked(old(blocks)@[y as int], var@))
        && marks_closed(old(blocks)@, var@, def_v.0, def_v.1.is_phi, on_path@, pending);
    let ghost pend2 = pending.insert(block);
    //Defined in the block (not phi) or propagation already done -> Stop
    if def_v.0 == block && !def_v.1.is_phi {
        return;
    }
    proof {
        lemma_grow_refl(blocks@, var@);
    }
    //We have gone though this block in a previous dfs
    if let Some(top_live_in) = blocks[block].top_live_in() {
        if crate::text::same_text(top_live_in, var) {
            return;
        }
    }
    let ghost start = blocks@;
    blocks[block].add_to_live_in(var);
    proof {
        assert(names_view(blocks@[block as int].live_in@).last() == var@);
        assert(blocks@[block as int].live_in@.last()@ == names_view(blocks@[block as int].live_in@).last());
        assert(!marked(start[block as int], var@));
        assert forall|i: int| 0 <= i < start.len() && marked(start[i], var@) implies #[trigger] marked(blocks@[i], var@) by {
            if i == block {
                assert(false);
            }
        }
        lemma_count_unmarked_mono(start, blocks@, var@, block as int);
        assert(only_live_sets_change(start, blocks@));
        lemma_links_kept(start, blocks@);
        let sb = names_view(start[block as int].live_in@);
        if sb.len() > 0 {
            assert(sb.last() == start[block as int].live_in@.last()@);
        }
        assert forall|i: int| 0 <= i < start.len() implies {
            &&& grows_by(names_view(start[i].live_in@), names_view((#[trigger] blocks@[i]).live_in@), var@)
            &&& grows_by(names_view(start[i].live_out@), names_view(blocks@[i].live_out@), var@)
        } by {
            if i != block {
                assert(blocks@[i] == start[i]);
            }
        }
        if closed0 {
            assert forall|i: int| 0 <= i < start.len() && #[trigger] marked(blocks@[i], var@) && !marked(start[i], var@)
                implies pend2.contains(i as usize) by {
                if i != block {
                    assert(blocks@[i] == start[i]);
                }
            }
            assert forall|i: int| 0 <= i < start.len() && marked(start[i], var@) implies #[trigger] marked(blocks@[i], var@) by {
                if i == block {
                    assert(false);
                }
            }
            lemma_closed_grow(start, blocks@, var@, def_v.0, def_v.1.is_phi, on_path@, pending, pend2);
        }
        if cond {
            let c = seq![block];
            assert(live_chain(start, def_v.0, c));
            assert forall|i: int| 0 <= i < start.len() && #[trigger] live_in_grown(start, blocks@, i) implies {
                &&& !(i == def_v.0 && !def_v.1.is_phi)
                &&& exists|p: Seq<usize>| #[trigger] live_chain(start, def_v.0, p) && p[0] == i && p.last() == block
            } by {
                if i != block {
                    assert(blocks@[i] == start[i]);
                }
                assert(live_chain(start, def_v.0, c) && c[0] == i && c.last() == block);
            }
        }
    }
    if def_v.0 == block {
        let count = blocks.len();
        proof {
            if closed0 {
                assert(blocks@.len() == count);
                lemma_closed_release(blocks@, var@, def_v.0, def_v.1.is_phi, on_path@, pending, block);
            }
        }
        return;
    }
    let preds = copy_items(&blocks[block].predecessors);
    proof {
        assert(blocks@[block as int].links_below(blocks@.len()));
        assert(preds@ == old(blocks)@[block as int].predecessors@);
    }
    let mut k: usize = 0;
    while k < preds.len()
        invariant
            links_ok(blocks@),
            only_live_sets_change(old(blocks)@, blocks@),
            forall|i: int| 0 <= i < old(blocks)@.len() && marked(old(blocks)@[i], var@) ==> #[trigger] marked(blocks@[i], var@),
            count_unmarked(blocks@, var@) < count_unmarked(old(blocks)@, var@),
            forall|j: int| 0 <= j < preds@.len() ==> #[trigger] preds@[j] < blocks@.len(),
            k <= preds@.len(),
            block < blocks@.len(),
            preds@ == old(blocks)@[block as int].predecessors@,
            live_sets_grow_by(old(blocks)@, blocks@, var@),
            marked(blocks@[block as int], var@),
            forall|j: int| 0 <= j < k && on_path@.contains(#[trigger] preds@[j]) ==> out_marked(blocks@[preds@[j] as int], var@),
            def_v.0 != block,
            cond == ((forall|x: usize| #[trigger] on_path@.contains(x) ==> reachable(old(blocks)@, def_v.0, x)) && reachable(
                old(blocks)@,
                def_v.0,
                block,
            )),
            cond ==> forall|i: int| 0 <= i < old(blocks)@.len() && #[trigger] live_in_grown(old(blocks)@, blocks@, i) ==> {
                &&& !(i == def_v.0 && !def_v.1.is_phi)
                &&& exists|p: Seq<usize>| #[trigger] live_chain(old(blocks)@, def_v.0, p) && p[0] == i && p.last() == block
            },
            pend2 == pending.insert(block),
            closed0 ==> !pending.contains(block),
            closed0 == ((forall|y: usize| #[trigger] pending.contains(y) ==> y < old(blocks)@.len() && marked(old(blocks)@[y as int], var@))
                && marks_closed(old(blocks)@, var@, def_v.0, def_v.1.is_phi, on_path@, pending)),
            closed0 ==> marks_closed(blocks@, var@, def_v.0, def_v.1.is_phi, on_path@, pend2),
            closed0 ==> forall|y: usize| #[trigger] pend2.contains(y) ==> y < blocks@.len() && marked(blocks@[y as int], var@),
            forall|j: int| 0 <= j < k && on_path@.contains(#[trigger] preds@[j]) && !(preds@[j] == def_v.0 && !def_v.1.is_phi)
                ==> marked(blocks@[preds@[j] as int], var@),
        decreases preds@.len() - k,
    {
        let pred = preds[k];
        k = k + 1;
        if !on_path.contains(&pred) {
            //The predecessor does not reach the definition → not live
            continue;
        }
        let ghost b0 = blocks@;
        let needs_push = match blocks[pred].top_live_out() {
            Some(top_v) => !crate::text::same_text(top_v, var),
            None => true,
        };
        if needs_push {
            blocks[pred].add_to_live_out(var);
        }
        proof {
            assert(only_live_sets_change(b0, blocks@));
            lemma_links_kept(b0, blocks@);
            assert forall|i: int| 0 <= i < b0.len() && marked(b0[i], var@) implies #[trigger] marked(blocks@[i], var@) by {
                assert(b0[i].live_in@ == blocks@[i].live_in@);
            }
            lemma_count_unmarked_mono(b0, blocks@, var@, 0);
            let so = names_view(b0[pred as int].live_out@);
            if so.len() > 0 {
                assert(so.last() == b0[pred as int].live_out@.last()@);
            }
            assert forall|i: int| 0 <= i < b0.len() implies {
                &&& grows_by(names_view(b0[i].live_in@), names_view((#[trigger] blocks@[i]).live_in@), var@)
                &&& grows_by(names_view(b0[i].live_out@), names_view(blocks@[i].live_out@), var@)
            } by {
                if i != pred {
                    assert(blocks@[i] == b0[i]);
                } else {
                    assert(blocks@[i].live_in@ == b0[i].live_in@);
                }
            }
            lemma_grow_trans(old(blocks)@, b0, blocks@, var@);
            if needs_push {
                let no = names_view(blocks@[pred as int].live_out@);
                assert(no.last() == var@);
                assert(blocks@[pred as int].live_out@.last()@ == no.last());
            }
            assert(out_marked(blocks@[pred as int], var@));
            assert forall|j: int| 0 <= j < k && on_path@.contains(#[trigger] preds@[j]) implies out_marked(blocks@[preds@[j] as int], var@) by {
                if j < k - 1 {
                    lemma_grow_keeps_marks(b0, blocks@, var@, preds@[j] as int);
                }
            }
            lemma_grow_keeps_marks(b0, blocks@, var@, block as int);
        }
        let ghost b1 = blocks@;
        proof {
            assert forall|i: int| 0 <= i < b0.len() implies (#[trigger] b1[i]).live_in@ == b0[i].live_in@ by {}
            if cond {
                assert forall|x: usize| #[trigger] on_path@.contains(x) implies reachable(b1, def_v.0, x) by {
                    lemma_reachable_kept(old(blocks)@, b1, def_v.0, x);
                }
                assert(reachable(old(blocks)@, def_v.0, pred));
                lemma_reachable_kept(old(blocks)@, b1, def_v.0, pred);
            }
        }
        proof {
            if closed0 {
                lemma_closed_grow(b0, b1, var@, def_v.0, def_v.1.is_phi, on_path@, pend2, pend2);
            }
        }
        mark_up(blocks, pred, var, def_v, on_path, Ghost(pend2));
        proof {
            if cond {
                assert(only_live_sets_change(b1, old(blocks)@));
                assert(old(blocks)@[block as int].predecessors@.contains(pred)) by {
                    assert(old(blocks)@[block as int].predecessors@[k - 1] == pred);
                }
                assert forall|i: int| 0 <= i < old(blocks)@.len() && #[trigger] live_in_grown(old(blocks)@, blocks@, i) implies {
                    &&& !(i == def_v.0 && !def_v.1.is_phi)
                    &&& exists|p: Seq<usize>| #[trigger] live_chain(old(blocks)@, def_v.0, p) && p[0] == i && p.last() == block
                } by {
                    if !live_in_grown(old(blocks)@, b0, i) {
                        assert(names_view(b1[i].live_in@) == names_view(b0[i].live_in@));
                        assert(live_in_grown(b1, blocks@, i));
                        let p = choose|p: Seq<usize>| #[trigger] live_chain(b1, def_v.0, p) && p[0] == i && p.last() == pred;
                        lemma_chain_kept(b1, old(blocks)@, def_v.0, p);
                        lemma_chain_push(old(blocks)@, def_v.0, p, block);
                        let q = p.push(block);
                        assert(live_chain(old(blocks)@, def_v.0, q) && q[0] == i && q.last() == block);
                    }
                }
            }
            lemma_count_unmarked_mono(b1, blocks@, var@, 0);
            lemma_grow_trans(old(blocks)@, b1, blocks@, var@);
            lemma_grow_keeps_marks(b1, blocks@, var@, block as int);
            assert forall|j: int| 0 <= j < k && on_path@.contains(#[trigger] preds@[j]) implies out_marked(blocks@[preds@[j] as int], var@) by {
                lemma_grow_keeps_marks(b1, blocks@, var@, preds@[j] as int);
            }
        }
    }
    let count = blocks.len();
    proof {
        if closed0 {
            assert(blocks@.len() == count);
            assert(blocks@[block as int].predecessors@ == preds@);
            assert forall|j: int|
                0 <= j < blocks@[block as int].predecessors@.len() && on_path@.contains(blocks@[block as int].predecessors@[j]) && !(
                blocks@[block as int].predecessors@[j] == def_v.0 && !def_v.1.is_phi) implies #[trigger] marked(
                blocks@[blocks@[block as int].predecessors@[j] as int],
                var@,
            ) by {
                assert(on_path@.contains(preds@[j]));
            }
            lemma_closed_release(blocks@, var@, def_v.0, def_v.1.is_phi, on_path@, pending, block);
        }
    }
}

/// No live-in list of the blocks has lost a name from `before` to `after`.
pub open spec fn live_in_kept(before: Seq<BasicBlock>, after: Seq<BasicBlock>) -> bool {
    &&& after.len() == before.len()
    &&& forall|i: int, x: Seq<char>|
        0 <= i < before.len() && #[trigger] names_view(before[i].live_in@).contains(x) ==> names_view(after[i].live_in@).contains(x)
}

/// `var` is live at the entry of the block of every use of it that lies after its
/// definition: in the block, or in another block.
pub open spec fn uses_live_in(blocks: Seq<BasicBlock>, var: Seq<char>, def: (usize, LineInstruction), uses: Set<Use>) -> bool {
    forall|u: Use| #[trigger] uses.contains(u) ==> (def.0 == use_block(u) && !def.1.is_phi) || names_view(
        blocks[use_block(u) as int].live_in@,
    ).contains(var)
}

proof fn lemma_grow_keeps_names(a: Seq<BasicBlock>, b: Seq<BasicBlock>, v: Seq<char>)
    requires
        live_sets_grow_by(a, b, v),
    ensures
        live_in_kept(a, b),
{
    assert forall|i: int, x: Seq<char>| 0 <= i < a.len() && #[trigger] names_view(a[i].live_in@).contains(x) implies names_view(
        b[i].live_in@,
    ).contains(x) by {
        let ai = names_view(a[i].live_in@);
        let bi = names_view(b[i].live_in@);
        assert(grows_by(ai, bi, v));
        let j = choose|j: int| 0 <= j < ai.len() && ai[j] == x;
        assert(bi[j] == x);
    }
}

proof fn lemma_uses_live_in_kept(a: Seq<BasicBlock>, b: Seq<BasicBlock>, var: Seq<char>, def: (usize, LineInstruction), uses: Set<Use>)
    requires
        uses_live_in(a, var, def, uses),
        live_in_kept(a, b),
        forall|u: Use| #[trigger] uses.contains(u) ==> use_block(u) < a.len(),
    ensures
        uses_live_in(b, var, def, uses),
{
    assert forall|u: Use| #[trigger] uses.contains(u) implies (def.0 == use_block(u) && !def.1.is_phi) || names_view(
        b[use_block(u) as int].live_in@,
    ).contains(var) by {
        if !(def.0 == use_block(u) && !def.1.is_phi) {
            assert(names_view(a[use_block(u) as int].live_in@).contains(var));
        }
    }
}

proof fn lemma_grow_refl(a: Seq<BasicBlock>, v: Seq<char>)
    ensures
        live_sets_grow_by(a, a, v),
{
}

proof fn lemma_reachable_kept(a: Seq<BasicBlock>, b: Seq<BasicBlock>, x: usize, y: usize)
    requires
        only_live_sets_change(a, b),
    ensures
        reachable(a, x, y) == reachable(b, x, y),
{
    assert forall|u: usize, v: usize| edge(a, u, v) == edge(b, u, v) by {
        if u < a.len() {
            assert(a[u as int].successors == b[u as int].successors);
        }
    }
    assert forall|p: Seq<usize>| is_path(a, p) == is_path(b, p) by {
        if is_path(a, p) {
            assert forall|i: int| 0 <= i < p.len() - 1 implies #[trigger] edge(b, p[i], p[i + 1]) by {
                assert(edge(a, p[i], p[i + 1]));
            }
        }
        if is_path(b, p) {
            assert forall|i: int| 0 <= i < p.len() - 1 implies #[trigger] edge(a, p[i], p[i + 1]) by {
                assert(edge(b, p[i], p[i + 1]));
            }
        }
    }
    if reachable(a, x, y) {
        let p = choose|p: Seq<usize>| #[trigger] is_path(a, p) && p[0] == x && p.last() == y;
        assert(is_path(b, p));
    }
    if reachable(b, x, y) {
        let p = choose|p: Seq<usize>| #[trigger] is_path(b, p) && p[0] == x && p.last() == y;
        assert(is_path(a, p));
    }
}

/// `p` leads from `p[0]` to its last block, each block a predecessor of the next,
/// every block reached from block `d`, and no block but the first `d`.
pub open spec fn live_chain(blocks: Seq<BasicBlock>, d: usize, p: Seq<usize>) -> bool {
    &&& p.len() >= 1
    &&& forall|i: int| 0 <= i < p.len() - 1 ==> #[trigger] blocks[p[i + 1] as int].predecessors@.contains(p[i])
    &&& forall|i: int| 0 <= i < p.len() ==> #[trigger] reachable(blocks, d, p[i]) && p[i] < blocks.len()
    &&& forall|i: int| #![trigger p[i]] 1 <= i < p.len() ==> p[i] != d
}

/// The block `b` is not where an instruction (rather than a φ-function) defines the
/// variable defined at `def`, and a chain leads from `b` to the block of one of the
/// `uses`: the variable is live at the entry of `b`.
pub open spec fn live_by_chain(blocks: Seq<BasicBlock>, def: (usize, LineInstruction), uses: Set<Use>, b: usize) -> bool {
    &&& !(b == def.0 && !def.1.is_phi)
    &&& exists|p: Seq<usize>, u: Use|
        #![trigger live_chain(blocks, def.0, p), uses.contains(u)]
        live_chain(blocks, def.0, p) && p[0] == b && uses.contains(u) && use_block(u) == p.last()
}

/// The live-in list of block `i` is not what it was.
pub open spec fn live_in_grown(before: Seq<BasicBlock>, after: Seq<BasicBlock>, i: int) -> bool {
    names_view(after[i].live_in@) != names_view(before[i].live_in@)
}

proof fn lemma_chain_kept(a: Seq<BasicBlock>, b: Seq<BasicBlock>, d: usize, p: Seq<usize>)
    requires
        only_live_sets_change(a, b),
        live_chain(a, d, p),
    ensures
        live_chain(b, d, p),
{
    assert forall|i: int| 0 <= i < p.len() - 1 implies #[trigger] b[p[i + 1] as int].predecessors@.contains(p[i]) by {
        assert(reachable(a, d, p[i + 1]));
        assert(p[i + 1] < a.len());
        assert(a[p[i + 1] as int].predecessors@.contains(p[i]));
        let x = p[i + 1] as int;
        assert(b[x].predecessors@ == a[x].predecessors@);
    }
    assert forall|i: int| 0 <= i < p.len() implies #[trigger] reachable(b, d, p[i]) && p[i] < b.len() by {
        assert(reachable(a, d, p[i]));
        assert(p[i] < a.len());
        lemma_reachable_kept(a, b, d, p[i]);
    }
}

proof fn lemma_chain_push(blocks: Seq<BasicBlock>, d: usize, p: Seq<usize>, c: usize)
    requires
        live_chain(blocks, d, p),
        blocks[c as int].predecessors@.contains(p.last()),
        c != d,
        reachable(blocks, d, c),
        c < blocks.len(),
    ensures
        live_chain(blocks, d, p.push(c)),
{
    let q = p.push(c);
    assert forall|i: int| 0 <= i < q.len() - 1 implies #[trigger] blocks[q[i + 1] as int].predecessors@.contains(q[i]) by {
        if i < p.len() - 1 {
            assert(q[i] == p[i] && q[i + 1] == p[i + 1]);
            assert(blocks[p[i + 1] as int].predecessors@.contains(p[i]));
        } else {
            assert(q[i] == p.last());
        }
    }
    assert forall|i: int| 0 <= i < q.len() implies #[trigger] reachable(blocks, d, q[i]) && q[i] < blocks.len() by {
        if i < p.len() {
            assert(q[i] == p[i]);
            assert(reachable(blocks, d, p[i]));
        }
    }
    assert forall|i: int| #![trigger q[i]] 1 <= i < q.len() implies q[i] != d by {
        if i < p.len() {
            assert(q[i] == p[i]);
        }
    }
}

/// Every name in the live-in list of a block of `after` was there in `before`, or is
/// a variable of `before` that is live at the entry of the block as `live_by_chain`
/// says.
pub open spec fn only_live_names(before: CFG, after: Seq<BasicBlock>) -> bool {
    &&& after.len() == before.blocks@.len()
    &&& forall|b: int, x: Seq<char>|
        0 <= b < after.len() && #[trigger] names_view(after[b].live_in@).contains(x) ==> names_view(
            before.blocks@[b].live_in@,
        ).contains(x) || (before.definitions@.contains_key(x) && before.def_use@.contains_key(x) && live_by_chain(
            before.blocks@,
            before.definitions@[x],
            before.def_use@[x]@,
            b as usize,
        ))
}

pub(crate) proof fn lemma_change_sym(a: Seq<BasicBlock>, b: Seq<BasicBlock>)
    requires
        only_live_sets_change(a, b),
    ensures
        only_live_sets_change(b, a),
{
    assert forall|i: int| 0 <= i < b.len() implies {
        &&& (#[trigger] a[i]).id == b[i].id
        &&& a[i].phi_functions@ == b[i].phi_functions@
        &&& a[i].statements@ == b[i].statements@
        &&& a[i].predecessors@ == b[i].predecessors@
        &&& a[i].successors == b[i].successors
        &&& a[i].declarations == b[i].declarations
        &&& a[i].phi_uses == b[i].phi_uses
    } by {
        assert(b[i].id == a[i].id);
    }
}

/// Live-in lists that did not change keep only live names.
proof fn lemma_live_names_same_in(before: CFG, a: Seq<BasicBlock>, b: Seq<BasicBlock>)
    requires
        only_live_names(before, a),
        b.len() == a.len(),
        forall|i: int| 0 <= i < a.len() ==> (#[trigger] b[i]).live_in@ == a[i].live_in@,
    ensures
        only_live_names(before, b),
{
    assert forall|bb: int, x: Seq<char>| 0 <= bb < b.len() && #[trigger] names_view(b[bb].live_in@).contains(x) implies names_view(
        before.blocks@[bb].live_in@,
    ).contains(x) || (before.definitions@.contains_key(x) && before.def_use@.contains_key(x) && live_by_chain(
        before.blocks@,
        before.definitions@[x],
        before.def_use@[x]@,
        bb as usize,
    )) by {
        assert(b[bb].live_in@ == a[bb].live_in@);
        assert(names_view(a[bb].live_in@).contains(x));
    }
}

/// Marking `var` from the block of its use `u` keeps only live names.
proof fn lemma_live_names_step(before: CFG, bu: Seq<BasicBlock>, after: Seq<BasicBlock>, var: Seq<char>, u: Use)
    requires
        only_live_names(before, bu),
        only_live_sets_change(before.blocks@, bu),
        live_sets_grow_by(bu, after, var),
        before.definitions@.contains_key(var),
        before.def_use@.contains_key(var),
        before.def_use@[var]@.contains(u),
        forall|i: int| 0 <= i < bu.len() && #[trigger] live_in_grown(bu, after, i) ==> {
            &&& !(i == before.definitions@[var].0 && !before.definitions@[var].1.is_phi)
            &&& exists|p: Seq<usize>| #[trigger] live_chain(bu, before.definitions@[var].0, p) && p[0] == i && p.last() == use_block(u)
        },
    ensures
        only_live_names(before, after),
{
    let d = before.definitions@[var];
    lemma_change_sym(before.blocks@, bu);
    assert forall|b: int, x: Seq<char>| 0 <= b < after.len() && #[trigger] names_view(after[b].live_in@).contains(x) implies names_view(
        before.blocks@[b].live_in@,
    ).contains(x) || (before.definitions@.contains_key(x) && before.def_use@.contains_key(x) && live_by_chain(
        before.blocks@,
        before.definitions@[x],
        before.def_use@[x]@,
        b as usize,
    )) by {
        let sb = names_view(bu[b].live_in@);
        let sa = names_view(after[b].live_in@);
        assert(grows_by(sb, sa, var));
        if sa != sb {
            assert(sa == sb.push(var));
            let j = choose|j: int| 0 <= j < sa.len() && sa[j] == x;
            if j < sb.len() {
                assert(sb[j] == x);
                assert(sb.contains(x));
            } else {
                assert(x == var);
                assert(live_in_grown(bu, after, b));
                let p = choose|p: Seq<usize>| #[trigger] live_chain(bu, d.0, p) && p[0] == b && p.last() == use_block(u);
                lemma_chain_kept(bu, before.blocks@, d.0, p);
                assert(live_chain(before.blocks@, d.0, p) && before.def_use@[var]@.contains(u));
                assert(live_by_chain(before.blocks@, d, before.def_use@[var]@, b as usize));
            }
        }
    }
}

/// Growing by `v` adds no name but `v`.
proof fn lemma_names_grow(a: Seq<BasicBlock>, b: Seq<BasicBlock>, v: Seq<char>)
    requires
        live_sets_grow_by(a, b, v),
    ensures
        forall|i: int, x: Seq<char>| 0 <= i < b.len() && #[trigger] names_view(b[i].live_in@).contains(x) ==> names_view(
            a[i].live_in@,
        ).contains(x) || x == v,
{
    assert forall|i: int, x: Seq<char>| 0 <= i < b.len() && #[trigger] names_view(b[i].live_in@).contains(x) implies names_view(
        a[i].live_in@,
    ).contains(x) || x == v by {
        let sa = names_view(a[i].live_in@);
        let sb = names_view(b[i].live_in@);
        assert(grows_by(sa, sb, v));
        if sb != sa {
            let j = choose|j: int| 0 <= j < sb.len() && sb[j] == x;
            if j < sa.len() {
                assert(sa[j] == x);
            }
        }
    }
}

/// Where no block holds `var` in its live-in list, no block is marked with it.
proof fn lemma_unmarked_closed(blocks: Seq<BasicBlock>, var: Seq<char>, d: usize, phi_def: bool, on: Set<usize>)
    requires
        forall|b: int| 0 <= b < blocks.len() ==> !(#[trigger] names_view(blocks[b].live_in@).contains(var)),
    ensures
        marks_closed(blocks, var, d, phi_def, on, Set::empty()),
{
    assert forall|b: int| 0 <= b < blocks.len() implies !marked(#[trigger] blocks[b], var) by {
        if marked(blocks[b], var) {
            let l = blocks[b].live_in@;
            assert(names_view(l)[l.len() - 1] == var);
            assert(names_view(blocks[b].live_in@).contains(var));
        }
    }
}

/// Along a chain to a marked block, closed marks reach the first block.
proof fn lemma_chain_marked(blocks: Seq<BasicBlock>, var: Seq<char>, d: usize, phi_def: bool, on: Set<usize>, p: Seq<usize>, k: int)
    requires
        marks_closed(blocks, var, d, phi_def, on, Set::empty()),
        live_chain(blocks, d, p),
        forall|i: int| 0 <= i < p.len() ==> on.contains(#[trigger] p[i]),
        marked(blocks[p.last() as int], var),
        !(p[0] == d && !phi_def),
        0 <= k < p.len(),
    ensures
        marked(blocks[p[k] as int], var),
    decreases p.len() - k,
{
    if k < p.len() - 1 {
        lemma_chain_marked(blocks, var, d, phi_def, on, p, k + 1);
        let x = p[k + 1] as int;
        assert(blocks[x].predecessors@.contains(p[k]));
        let j = choose|j: int| 0 <= j < blocks[x].predecessors@.len() && blocks[x].predecessors@[j] == p[k];
        assert(reachable(blocks, d, p[k + 1]));
        assert(p[k + 1] < blocks.len());
        assert(on.contains(p[k]));
        assert(p[k + 1] != d);
        if k >= 1 {
            assert(p[k] != d);
        }
        assert(!Set::<usize>::empty().contains(x as usize));
        assert(marked(blocks[blocks[x].predecessors@[j] as int], var));
    }
}

/// The live-in lists of the blocks are all empty.
pub open spec fn live_in_empty(blocks: Seq<BasicBlock>) -> bool {
    forall|b: int| 0 <= b < blocks.len() ==> (#[trigger] blocks[b]).live_in@.len() == 0
}

/// Every name in a live-in list of `blocks` is one of the first `i` variables that
/// `g` reads.
pub open spec fn names_processed(g: CFG, blocks: Seq<BasicBlock>, i: int) -> bool {
    forall|b: int, x: Seq<char>| 0 <= b < blocks.len() && #[trigger] names_view(blocks[b].live_in@).contains(x) ==> exists|j: int|
        0 <= j < i && #[trigger] g.def_use.entries@[j].0@ == x
}

/// Each of the first `i` variables that `g` reads is in the live-in list of every
/// block where `live_by_chain` says it is live.
pub open spec fn chains_marked(g: CFG, blocks: Seq<BasicBlock>, i: int) -> bool {
    forall|j: int, b: usize|
        0 <= j < i && #[trigger] live_by_chain(
            g.blocks@,
            g.definitions@[g.def_use.entries@[j].0@],
            g.def_use@[g.def_use.entries@[j].0@]@,
            b,
        ) ==> names_view(blocks[b as int].live_in@).contains(g.def_use.entries@[j].0@)
}

proof fn lemma_marked_contains(b: BasicBlock, v: Seq<char>)
    requires
        marked(b, v),
    ensures
        names_view(b.live_in@).contains(v),
{
    let l = b.live_in@;
    assert(names_view(l)[l.len() - 1] == v);
}

/// The live-in list of each block of `g` holds exactly the variables of `g` that are
/// live at the entry of the block as `live_by_chain` says.
pub open spec fn live_in_exact(g: CFG) -> bool {
    forall|b: int, x: Seq<char>|
        0 <= b < g.blocks@.len() ==> (#[trigger] names_view(g.blocks@[b].live_in@).contains(x) <==> (g.definitions@.contains_key(x)
            && g.def_use@.contains_key(x) && live_by_chain(g.blocks@, g.definitions@[x], g.def_use@[x]@, b as usize)))
}

/// Liveness by chains depends on no live set.
pub(crate) proof fn lemma_live_by_chain_kept(a: Seq<BasicBlock>, b: Seq<BasicBlock>, def: (usize, LineInstruction), uses: Set<Use>, x: usize)
    requires
        only_live_sets_change(a, b),
        live_by_chain(a, def, uses, x),
    ensures
        live_by_chain(b, def, uses, x),
{
    let (p, u) = choose|p: Seq<usize>, u: Use|
        #![trigger live_chain(a, def.0, p), uses.contains(u)]
        live_chain(a, def.0, p) && p[0] == x && uses.contains(u) && use_block(u) == p.last();
    lemma_chain_kept(a, b, def.0, p);
    assert(live_chain(b, def.0, p) && uses.contains(u));
}

pub open spec fn not_defined_message(var: Seq<char>) -> Seq<char> {
    "Variable "@ + var + " was used, but not defined!"@
}

pub open spec fn not_dominated_message(var: Seq<char>) -> Seq<char> {
    "Variable "@ + var + " was used without being dominated by its definition"@
}

fn message(a: &str, b: &str, c: &str) -> (r: String)
    ensures
        r@ == a@ + b@ + c@,
{
    let mut s = String::new();
    push_text(&mut s, a);
    push_text(&mut s, b);
    push_text(&mut s, c);
    proof {
        assert(Seq::<char>::empty() + a@ + b@ + c@ =~= a@ + b@ + c@);
    }
    s
}

impl CFG {
    pub proof fn lemma_wf_live_sets(&self, before: CFG)
        requires
            before.wf(),
            only_live_sets_change(before.blocks@, self.blocks@),
            self.entry == before.entry,
            self.definitions == before.definitions,
            self.def_use == before.def_use,
        ensures
            self.wf(),
            before.ssa_ok() ==> self.ssa_ok(),
    {
        if before.ssa_ok() {
            assert forall|i: int| 0 <= i < before.blocks@.len() implies
                crate::cfg::same_outputs(#[trigger] self.blocks@[i], before.blocks@[i]) by {}
            self.lemma_ssa_kept(before);
        }
        assert forall|j: int| 0 <= j < self.blocks@.len() implies #[trigger] self.block_ok(j) by {
            assert(before.block_ok(j));
        }
        assert forall|i: int|
            0 <= i < before.blocks@.len() implies succ_targets((#[trigger] self.blocks@[i]).successors) == succ_targets(
                before.blocks@[i].successors,
            ) && self.blocks@[i].predecessors@ == before.blocks@[i].predecessors@ by {}
        self.lemma_links_kept(before);
        assert forall|kk: Seq<char>| #[trigger] self.def_use@.contains_key(kk) implies self.uses_ok(kk) by {
            assert(before.uses_ok(kk));
        }
    }

    /// The variable `k` is defined, and every block that reads it can be reached from its definition.
    pub open spec fn use_is_covered(&self, k: Seq<char>) -> bool {
        &&& self.definitions@.contains_key(k)
        &&& forall|u: Use| #[trigger] self.def_use@[k]@.contains(u) ==> reachable(self.blocks@, self.definitions@[k].0, use_block(u))
    }

    ///Liveness analysis
    ///Taken from Domaine, & Brandner, Florian & Boissinot, Benoit & Darte, Alain & Dinechin, Benoît & Rastello, Fabrice. (2011). Computing Liveness Sets for SSA-Form Programs.
    ///Fails on the first variable (in the order of names) that is read but not
    ///defined, or read in a block that its definition does not reach.
    ///A name enters the live-in list of a block only where it is live there by a
    ///chain of predecessors to one of its uses; on success, and where the lists were
    ///empty, every such block gets it.
    pub fn compute_livesets_ssa_by_var(&mut self) -> (r: Result<(), String>)
        requires
            old(self).wf(),
        ensures
            final(self).wf(),
            only_live_sets_change(old(self).blocks@, final(self).blocks@),
            final(self).entry == old(self).entry,
            final(self).non_ssa_variables == old(self).non_ssa_variables,
            final(self).definitions == old(self).definitions,
            final(self).def_use == old(self).def_use,
            old(self).ssa_ok() ==> final(self).ssa_ok(),
            r.is_ok() <==> forall|k: Seq<char>| #[trigger] old(self).def_use@.contains_key(k) ==> old(self).use_is_covered(k),
            r.is_ok() ==> forall|k: Seq<char>| #[trigger] final(self).def_use@.contains_key(k) ==> final(self).use_is_covered(k),
            r matches Err(msg) ==> exists|k: Seq<char>| #[trigger] old(self).def_use@.contains_key(k) && {
                ||| !old(self).definitions@.contains_key(k) && msg@ == not_defined_message(k)
                ||| old(self).definitions@.contains_key(k) && !old(self).use_is_covered(k) && msg@ == not_dominated_message(k)
            } && forall|k2: Seq<char>| #[trigger] old(self).def_use@.contains_key(k2) && text_lt(k2, k) ==> old(self).use_is_covered(k2),
            only_live_names(*old(self), final(self).blocks@),
            r.is_ok() && live_in_empty(old(self).blocks@) ==> forall|k: Seq<char>, b: usize|
                #![trigger live_by_chain(old(self).blocks@, old(self).definitions@[k], old(self).def_use@[k]@, b)]
                old(self).def_use@.contains_key(k) && live_by_chain(old(self).blocks@, old(self).definitions@[k], old(self).def_use@[k]@, b)
                    ==> names_view(final(self).blocks@[b as int].live_in@).contains(k),
            r.is_ok() ==> forall|k: Seq<char>| #[trigger] old(self).def_use@.contains_key(k) ==> uses_live_in(
                final(self).blocks@,
                k,
                old(self).definitions@[k],
                old(self).def_use@[k]@,
            ),
    {
        let n = self.def_use.len();
        let mut i: usize = 0;
        proof {
            assert(only_live_names(*old(self), self.blocks@));
            if live_in_empty(old(self).blocks@) {
                assert forall|b: int, x: Seq<char>| 0 <= b < self.blocks@.len() && #[trigger] names_view(self.blocks@[b].live_in@).contains(x)
                    implies exists|j: int| 0 <= j < 0 && #[trigger] old(self).def_use.entries@[j].0@ == x by {
                    assert(self.blocks@[b].live_in@.len() == 0);
                }
            }
            assert(links_ok(self.blocks@)) by {
                assert forall|j: int| 0 <= j < self.blocks@.len() implies #[trigger] self.blocks@[j].links_below(self.blocks@.len()) by {
                    assert(self.block_ok(j));
                }
            }
        }
        while i < n
            invariant
                old(self).wf(),
                n == old(self).def_use.entries@.len(),
                i <= n,
                links_ok(self.blocks@),
                only_live_sets_change(old(self).blocks@, self.blocks@),
                self.entry == old(self).entry,
                self.non_ssa_variables == old(self).non_ssa_variables,
                self.definitions == old(self).definitions,
                self.def_use == old(self).def_use,
                forall|j: int| 0 <= j < i ==> old(self).use_is_covered(#[trigger] old(self).def_use.entries@[j].0@),
                forall|j: int| 0 <= j < i ==> uses_live_in(
                    self.blocks@,
                    #[trigger] old(self).def_use.entries@[j].0@,
                    old(self).definitions@[old(self).def_use.entries@[j].0@],
                    old(self).def_use@[old(self).def_use.entries@[j].0@]@,
                ),
                only_live_names(*old(self), self.blocks@),
                live_in_empty(old(self).blocks@) ==> names_processed(*old(self), self.blocks@, i as int),
                live_in_empty(old(self).blocks@) ==> chains_marked(*old(self), self.blocks@, i as int),
            decreases n - i,
        {
            let var = self.def_use.entries[i].0.clone();
            let uses = copy_items(&self.def_use.entries[i].1.items);
            proof {
                crate::collections::lemma_seq_map_entry(self.def_use.entries@, i as int);
                assert(old(self).uses_ok(var@));
            }
            //Compute which blocks are dominated by the definition
            let def_v = match self.definitions.get(var.as_str()) {
                Some(def) => *def,
                None => {
                    proof {
                        self.lemma_wf_live_sets(*old(self));
                    }
                    proof {
                        assert forall|k2: Seq<char>| #[trigger] old(self).def_use@.contains_key(k2) && text_lt(k2, var@) implies old(self).use_is_covered(k2) by {
                            crate::collections::lemma_sorted_earlier(old(self).def_use.entries@, i as int, k2);
                            let j = crate::collections::seq_index(old(self).def_use.entries@, k2);
                            assert(old(self).use_is_covered(old(self).def_use.entries@[j].0@));
                        }
                    }
                    return Err(message("Variable ", var.as_str(), " was used, but not defined!"));
                },
            };
            proof {
                assert(old(self).definitions@[var@].0 < old(self).blocks@.len());
            }
            let on_path = on_path_from_def(&self.blocks, def_v.0);
            let ghost blocks_at_var = self.blocks@;
            let ghost empty0 = live_in_empty(old(self).blocks@);
            proof {
                if empty0 {
                    assert forall|b: int| 0 <= b < self.blocks@.len() implies !(#[trigger] names_view(self.blocks@[b].live_in@).contains(var@)) by {
                        if names_view(self.blocks@[b].live_in@).contains(var@) {
                            let j = choose|j: int| 0 <= j < i && #[trigger] old(self).def_use.entries@[j].0@ == var@;
                            assert(old(self).def_use.wf());
                            assert(old(self).def_use.entries@[j].0@ != old(self).def_use.entries@[i as int].0@);
                        }
                    }
                    lemma_unmarked_closed(self.blocks@, var@, def_v.0, def_v.1.is_phi, on_path@);
                }
            }
            let mut m: usize = 0;
            while m < uses.len()
                invariant
                    old(self).wf(),
                    links_ok(self.blocks@),
                    only_live_sets_change(old(self).blocks@, self.blocks@),
                    only_live_sets_change(blocks_at_var, self.blocks@),
                    only_live_sets_change(old(self).blocks@, blocks_at_var),
                    self.entry == old(self).entry,
                    self.non_ssa_variables == old(self).non_ssa_variables,
                    self.definitions == old(self).definitions,
                    self.def_use == old(self).def_use,
                    uses@ == old(self).def_use@[var@].items@,
                    old(self).definitions@.contains_key(var@),
                    old(self).def_use@.contains_key(var@),
                    def_v == old(self).definitions@[var@],
                    forall|x: usize| #[trigger] on_path@.contains(x) <==> reachable(blocks_at_var, def_v.0, x),
                    forall|u: Use| #[trigger] old(self).def_use@[var@]@.contains(u) ==> use_block(u) < self.blocks@.len(),
                    m <= uses@.len(),
                    forall|j: int| 0 <= j < m ==> reachable(old(self).blocks@, def_v.0, use_block(#[trigger] uses@[j])),
                    live_in_kept(blocks_at_var, self.blocks@),
                    forall|j: int| 0 <= j < m ==> (def_v.0 == use_block(#[trigger] uses@[j]) && !def_v.1.is_phi) || names_view(
                        self.blocks@[use_block(uses@[j]) as int].live_in@,
                    ).contains(var@),
                    i < n,
                    n == old(self).def_use.entries@.len(),
                    var@ == old(self).def_use.entries@[i as int].0@,
                    forall|j: int| 0 <= j < i ==> old(self).use_is_covered(#[trigger] old(self).def_use.entries@[j].0@),
                    only_live_names(*old(self), self.blocks@),
                    empty0 == live_in_empty(old(self).blocks@),
                    empty0 ==> names_processed(*old(self), blocks_at_var, i as int),
                    empty0 ==> forall|b: int, x: Seq<char>| 0 <= b < self.blocks@.len() && #[trigger] names_view(self.blocks@[b].live_in@).contains(x)
                        ==> names_view(blocks_at_var[b].live_in@).contains(x) || x == var@,
                    empty0 ==> marks_closed(self.blocks@, var@, def_v.0, def_v.1.is_phi, on_path@, Set::empty()),
                    forall|j: int| 0 <= j < m && !(def_v.0 == use_block(uses@[j]) && !def_v.1.is_phi) ==> marked(
                        self.blocks@[use_block(#[trigger] uses@[j]) as int],
                        var@,
                    ),
                    empty0 ==> chains_marked(*old(self), blocks_at_var, i as int),
                decreases uses@.len() - m,
            {
                let u = uses[m];
                let block = match u {
                    Use::InCondition(b) => b,
                    Use::InInstruction(b, _) => b,
                };
                proof {
                    assert(old(self).def_use@[var@]@.contains(u));
                    assert(self.blocks@[block as int].wf()) by {
                        assert(old(self).block_ok(block as int));
                    }
                }
                let ghost bm = self.blocks@;
                if self.blocks[block].check_phi_use(var.as_str()) {
                    let ghost b0 = self.blocks@;
                    self.blocks[block].add_to_live_out(var.as_str());
                    proof {
                        assert(only_live_sets_change(b0, self.blocks@));
                        lemma_links_kept(b0, self.blocks@);
                    }
                }
                proof {
                    assert forall|ii: int, x: Seq<char>| 0 <= ii < bm.len() && #[trigger] names_view(bm[ii].live_in@).contains(x) implies names_view(
                        self.blocks@[ii].live_in@,
                    ).contains(x) by {
                        assert(self.blocks@[ii].live_in@ == bm[ii].live_in@);
                    }
                    assert(live_in_kept(bm, self.blocks@));
                    lemma_live_names_same_in(*old(self), bm, self.blocks@);
                    assert forall|ii: int| 0 <= ii < bm.len() implies (#[trigger] self.blocks@[ii]).live_in@ == bm[ii].live_in@ by {}
                    assert(only_live_sets_change(bm, self.blocks@));
                    if empty0 {
                        assert forall|ii: int| 0 <= ii < bm.len() && marked(bm[ii], var@) implies #[trigger] marked(self.blocks@[ii], var@) by {
                            assert(self.blocks@[ii].live_in@ == bm[ii].live_in@);
                        }
                        assert forall|ii: int| 0 <= ii < bm.len() && #[trigger] marked(self.blocks@[ii], var@) && !marked(bm[ii], var@) implies
                            Set::<usize>::empty().contains(ii as usize) by {
                            assert(self.blocks@[ii].live_in@ == bm[ii].live_in@);
                        }
                        lemma_closed_grow(bm, self.blocks@, var@, def_v.0, def_v.1.is_phi, on_path@, Set::empty(), Set::empty());
                    }
                }
                if !on_path.contains(&block) {
                    proof {
                        lemma_reachable_kept(old(self).blocks@, blocks_at_var, def_v.0, block);
                        assert(use_block(u) == block);
                        assert(!reachable(old(self).blocks@, def_v.0, block));
                        assert(old(self).def_use@[var@]@.contains(u));
                        assert(!old(self).use_is_covered(var@));
                        assert(old(self).def_use@.contains_key(var@));
                        self.lemma_wf_live_sets(*old(self));
                    }
                    proof {
                        assert forall|k2: Seq<char>| #[trigger] old(self).def_use@.contains_key(k2) && text_lt(k2, var@) implies old(self).use_is_covered(k2) by {
                            crate::collections::lemma_sorted_earlier(old(self).def_use.entries@, i as int, k2);
                            let j = crate::collections::seq_index(old(self).def_use.entries@, k2);
                            assert(old(self).use_is_covered(old(self).def_use.entries@[j].0@));
                        }
                    }
                    return Err(message("Variable ", var.as_str(), " was used without being dominated by its definition"));
                }
                proof {
                    lemma_reachable_kept(old(self).blocks@, blocks_at_var, def_v.0, block);
                }
                let ghost bu = self.blocks@;
                proof {
                    assert forall|x: usize| #[trigger] on_path@.contains(x) implies reachable(bu, def_v.0, x) by {
                        lemma_reachable_kept(blocks_at_var, bu, def_v.0, x);
                    }
                    assert(on_path@.contains(block));
                }
                up_and_mark(&mut self.blocks, block, var.as_str(), &def_v, &on_path);
                proof {
                    assert(use_block(u) == block);
                    lemma_names_grow(bu, self.blocks@, var@);
                    lemma_live_names_step(*old(self), bu, self.blocks@, var@, u);
                    lemma_grow_keeps_names(bu, self.blocks@, var@);
                    assert forall|ii: int, x: Seq<char>| 0 <= ii < blocks_at_var.len() && #[trigger] names_view(blocks_at_var[ii].live_in@).contains(x) implies names_view(
                        self.blocks@[ii].live_in@,
                    ).contains(x) by {
                        assert(names_view(bm[ii].live_in@).contains(x));
                        assert(names_view(bu[ii].live_in@).contains(x));
                    }
                    if !(def_v.0 == block && !def_v.1.is_phi) {
                        let li = self.blocks@[block as int].live_in@;
                        assert(marked(self.blocks@[block as int], var@));
                        assert(names_view(li)[li.len() - 1] == var@);
                    }
                    assert forall|j: int| 0 <= j < m + 1 implies (def_v.0 == use_block(#[trigger] uses@[j]) && !def_v.1.is_phi) || names_view(
                        self.blocks@[use_block(uses@[j]) as int].live_in@,
                    ).contains(var@) by {
                        assert(old(self).def_use@[var@]@.contains(uses@[j]));
                        if j < m && !(def_v.0 == use_block(uses@[j]) && !def_v.1.is_phi) {
                            let bj = use_block(uses@[j]) as int;
                            assert(0 <= bj < bm.len());
                            assert(names_view(bm[bj].live_in@).contains(var@));
                            assert(names_view(bu[bj].live_in@).contains(var@));
                        }
                    }
                    assert forall|j: int| 0 <= j < m + 1 && !(def_v.0 == use_block(uses@[j]) && !def_v.1.is_phi) implies marked(
                        self.blocks@[use_block(#[trigger] uses@[j]) as int],
                        var@,
                    ) by {
                        assert(old(self).def_use@[var@]@.contains(uses@[j]));
                        if j < m {
                            let bj = use_block(uses@[j]) as int;
                            assert(marked(bm[bj], var@));
                            assert(marked(bu[bj], var@));
                        }
                    }
                }
                m = m + 1;
            }
            proof {
                if empty0 {
                    let ents = old(self).def_use.entries@;
                    assert forall|b: int, x: Seq<char>| 0 <= b < self.blocks@.len() && #[trigger] names_view(self.blocks@[b].live_in@).contains(x)
                        implies exists|j: int| 0 <= j < i + 1 && #[trigger] ents[j].0@ == x by {
                        if x != var@ {
                            assert(names_view(blocks_at_var[b].live_in@).contains(x));
                        } else {
                            assert(ents[i as int].0@ == x);
                        }
                    }
                    assert forall|j: int, b: usize|
                        0 <= j < i + 1 && #[trigger] live_by_chain(
                            old(self).blocks@,
                            old(self).definitions@[ents[j].0@],
                            old(self).def_use@[ents[j].0@]@,
                            b,
                        ) implies names_view(self.blocks@[b as int].live_in@).contains(ents[j].0@) by {
                        let (p, uu) = choose|p: Seq<usize>, uu: Use|
                            #![trigger live_chain(old(self).blocks@, old(self).definitions@[ents[j].0@].0, p), old(self).def_use@[ents[j].0@]@.contains(uu)]
                            live_chain(old(self).blocks@, old(self).definitions@[ents[j].0@].0, p) && p[0] == b
                                && old(self).def_use@[ents[j].0@]@.contains(uu) && use_block(uu) == p.last();
                        assert(b < old(self).blocks@.len()) by {
                            assert(reachable(old(self).blocks@, old(self).definitions@[ents[j].0@].0, p[0]));
                        }
                        if j < i {
                            assert(names_view(blocks_at_var[b as int].live_in@).contains(ents[j].0@));
                        } else {
                            lemma_chain_kept(old(self).blocks@, self.blocks@, def_v.0, p);
                            assert forall|ii: int| 0 <= ii < p.len() implies on_path@.contains(#[trigger] p[ii]) by {
                                assert(reachable(self.blocks@, def_v.0, p[ii]));
                                lemma_change_sym(blocks_at_var, self.blocks@);
                                lemma_reachable_kept(self.blocks@, blocks_at_var, def_v.0, p[ii]);
                            }
                            let jj = choose|jj: int| 0 <= jj < uses@.len() && uses@[jj] == uu;
                            assert(uses@[jj] == uu);
                            if p.len() > 1 {
                                assert(p[p.len() - 1] != def_v.0);
                            }
                            assert(marked(self.blocks@[use_block(uses@[jj]) as int], var@));
                            lemma_chain_marked(self.blocks@, var@, def_v.0, def_v.1.is_phi, on_path@, p, 0);
                            lemma_marked_contains(self.blocks@[b as int], var@);
                        }
                    }
                }
                assert(uses_live_in(self.blocks@, var@, def_v, old(self).def_use@[var@]@)) by {
                    assert forall|u: Use| #[trigger] old(self).def_use@[var@]@.contains(u) implies (def_v.0 == use_block(u) && !def_v.1.is_phi)
                        || names_view(self.blocks@[use_block(u) as int].live_in@).contains(var@) by {
                        let j = choose|j: int| 0 <= j < uses@.len() && uses@[j] == u;
                        assert(uses@[j] == u);
                    }
                }
                assert forall|j: int| 0 <= j < i + 1 implies uses_live_in(
                    self.blocks@,
                    #[trigger] old(self).def_use.entries@[j].0@,
                    old(self).definitions@[old(self).def_use.entries@[j].0@],
                    old(self).def_use@[old(self).def_use.entries@[j].0@]@,
                ) by {
                    if j < i {
                        let kj = old(self).def_use.entries@[j].0@;
                        crate::collections::lemma_seq_map_entry(old(self).def_use.entries@, j);
                        assert(old(self).uses_ok(kj));
                        assert(uses_live_in(blocks_at_var, kj, old(self).definitions@[kj], old(self).def_use@[kj]@));
                        lemma_uses_live_in_kept(blocks_at_var, self.blocks@, kj, old(self).definitions@[kj], old(self).def_use@[kj]@);
                    }
                }
                assert forall|u: Use| #[trigger] old(self).def_use@[var@]@.contains(u) implies reachable(old(self).blocks@, old(self).definitions@[var@].0, use_block(u)) by {
                    let j = choose|j: int| 0 <= j < uses@.len() && uses@[j] == u;
                    assert(reachable(old(self).blocks@, def_v.0, use_block(uses@[j])));
                }
                assert(old(self).use_is_covered(var@));
            }
            i = i + 1;
        }
        proof {
            assert forall|k: Seq<char>| #[trigger] old(self).def_use@.contains_key(k) implies old(self).use_is_covered(k) by {
                let j = crate::collections::seq_index(old(self).def_use.entries@, k);
                assert(old(self).use_is_covered(old(self).def_use.entries@[j].0@));
            }
            assert forall|k: Seq<char>| #[trigger] self.def_use@.contains_key(k) implies self.use_is_covered(k) by {
                assert(old(self).use_is_covered(k));
                assert forall|u: Use| #[trigger] self.def_use@[k]@.contains(u) implies
                    reachable(self.blocks@, self.definitions@[k].0, use_block(u)) by {
                    lemma_reachable_kept(old(self).blocks@, self.blocks@, self.definitions@[k].0, use_block(u));
                }
            }
            self.lemma_wf_live_sets(*old(self));
            if live_in_empty(old(self).blocks@) {
                assert forall|k: Seq<char>, b: usize|
                    #![trigger live_by_chain(old(self).blocks@, old(self).definitions@[k], old(self).def_use@[k]@, b)]
                    old(self).def_use@.contains_key(k) && live_by_chain(old(self).blocks@, old(self).definitions@[k], old(self).def_use@[k]@, b)
                        implies names_view(self.blocks@[b as int].live_in@).contains(k) by {
                    let j = crate::collections::seq_index(old(self).def_use.entries@, k);
                    assert(old(self).def_use.entries@[j].0@ == k);
                }
            }
        }
        Ok(())
    }
}

} // verus!
