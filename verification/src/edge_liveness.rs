//! Liveness with live-on-edge semantics on the current blocks of a graph: the
//! variables live into and out of each block, as the least solution of the
//! backward dataflow equations, where a φ-function's operand is live on the edge
//! from its predecessor only.

use vstd::prelude::*;
use vstd::set_lib::lemma_len_subset;

use crate::cfg::{succ_targets, targets_of, BasicBlock, PhiFunction, PhiPossibility, Statement, Successor};
use crate::collections::{lemma_seq_map_entry, lemma_seq_map_finite, NameMap};
use crate::liveness::links_ok;
use crate::types::{expr_vars, get_variable_names, Expression};

verus! {

broadcast use vstd::string::group_string_axioms;

/// A set of names.
pub type NameSet = NameMap<()>;

/// The names of each set of a sequence.
pub open spec fn views_of(v: Seq<NameSet>) -> Seq<Set<Seq<char>>> {
    v.map_values(|s: NameSet| s@.dom())
}

/// Adds `x` to a set of names.
pub fn add_name(set: &mut NameSet, x: &String)
    requires
        old(set).wf(),
    ensures
        final(set).wf(),
        final(set)@.dom() == old(set)@.dom().insert(x@),
{
    set.insert(x.clone(), ());
    proof {
        assert(set@.dom() =~= old(set)@.dom().insert(x@));
    }
}

/// Whether two sets of names hold the same names.
fn same_names(a: &NameSet, b: &NameSet) -> (r: bool)
    requires
        a.wf(),
        b.wf(),
    ensures
        r == (a@.dom() == b@.dom()),
{
    let mut i: usize = 0;
    while i < a.entries.len()
        invariant
            a.wf(),
            b.wf(),
            i <= a.entries@.len(),
            forall|k: int| 0 <= k < i ==> b@.contains_key(#[trigger] a.entries@[k].0@),
        decreases a.entries@.len() - i,
    {
        if !b.contains(a.entries[i].0.as_str()) {
            proof {
                lemma_seq_map_entry(a.entries@, i as int);
                assert(a@.dom().contains(a.entries@[i as int].0@));
            }
            return false;
        }
        i = i + 1;
    }
    let mut j: usize = 0;
    while j < b.entries.len()
        invariant
            a.wf(),
            b.wf(),
            j <= b.entries@.len(),
            forall|k: int| 0 <= k < a.entries@.len() ==> b@.contains_key(#[trigger] a.entries@[k].0@),
            forall|k: int| 0 <= k < j ==> a@.contains_key(#[trigger] b.entries@[k].0@),
        decreases b.entries@.len() - j,
    {
        if !a.contains(b.entries[j].0.as_str()) {
            proof {
                lemma_seq_map_entry(b.entries@, j as int);
                assert(b@.dom().contains(b.entries@[j as int].0@));
            }
            return false;
        }
        j = j + 1;
    }
    proof {
        assert forall|x: Seq<char>| a@.dom().contains(x) <==> b@.dom().contains(x) by {
            if a@.contains_key(x) {
                let k = crate::collections::seq_index(a.entries@, x);
                lemma_seq_map_entry(a.entries@, k);
            }
            if b@.contains_key(x) {
                let k = crate::collections::seq_index(b.entries@, x);
                lemma_seq_map_entry(b.entries@, k);
            }
        }
        assert(a@.dom() =~= b@.dom());
    }
    true
}

/// The names of the first `i` entries.
pub open spec fn first_keys(entries: Seq<(String, ())>, i: int) -> Set<Seq<char>> {
    Set::new(|k: Seq<char>| exists|j: int| 0 <= j < i && #[trigger] entries[j].0@ == k)
}

pub proof fn lemma_first_keys_step(entries: Seq<(String, ())>, i: int)
    requires
        0 <= i < entries.len(),
    ensures
        first_keys(entries, i + 1) == first_keys(entries, i).insert(entries[i].0@),
{
    assert forall|k: Seq<char>| #[trigger] first_keys(entries, i + 1).contains(k) == first_keys(entries, i).insert(
        entries[i].0@,
    ).contains(k) by {
        if first_keys(entries, i + 1).contains(k) {
            let j = choose|j: int| 0 <= j < i + 1 && #[trigger] entries[j].0@ == k;
            if j < i {
                assert(first_keys(entries, i).contains(k));
            }
        }
        if first_keys(entries, i).contains(k) {
            let j = choose|j: int| 0 <= j < i && #[trigger] entries[j].0@ == k;
            assert(entries[j].0@ == k);
        }
        if k == entries[i].0@ {
            assert(entries[i].0@ == k);
        }
    }
    assert(first_keys(entries, i + 1) =~= first_keys(entries, i).insert(entries[i].0@));
}

pub proof fn lemma_first_keys_all(m: NameSet)
    requires
        m.wf(),
    ensures
        first_keys(m.entries@, m.entries@.len() as int) == m@.dom(),
{
    let e = m.entries@;
    assert forall|k: Seq<char>| #[trigger] m@.dom().contains(k) implies first_keys(e, e.len() as int).contains(k) by {
        let j = crate::collections::seq_index(e, k);
        assert(e[j].0@ == k);
    }
    assert forall|k: Seq<char>| #[trigger] first_keys(e, e.len() as int).contains(k) implies m@.dom().contains(k) by {
        let j = choose|j: int| 0 <= j < e.len() && #[trigger] e[j].0@ == k;
        lemma_seq_map_entry(e, j);
    }
    assert(first_keys(e, e.len() as int) =~= m@.dom());
}

/// The first `i` names of a sequence.
pub open spec fn first_names(vs: Seq<Seq<char>>, i: int) -> Set<Seq<char>> {
    Set::new(|k: Seq<char>| exists|j: int| 0 <= j < i && #[trigger] vs[j] == k)
}

pub proof fn lemma_first_names_step(vs: Seq<Seq<char>>, i: int)
    requires
        0 <= i < vs.len(),
    ensures
        first_names(vs, i + 1) == first_names(vs, i).insert(vs[i]),
{
    assert forall|k: Seq<char>| #[trigger] first_names(vs, i + 1).contains(k) == first_names(vs, i).insert(vs[i]).contains(k) by {
        if first_names(vs, i + 1).contains(k) {
            let j = choose|j: int| 0 <= j < i + 1 && #[trigger] vs[j] == k;
            if j < i {
                assert(first_names(vs, i).contains(k));
            }
        }
        if first_names(vs, i).contains(k) {
            let j = choose|j: int| 0 <= j < i && #[trigger] vs[j] == k;
            assert(vs[j] == k);
        }
        if k == vs[i] {
            assert(vs[i] == k);
        }
    }
    assert(first_names(vs, i + 1) =~= first_names(vs, i).insert(vs[i]));
}

pub proof fn lemma_first_names_all(vs: Seq<Seq<char>>)
    ensures
        first_names(vs, vs.len() as int) == vs.to_set(),
{
    assert forall|k: Seq<char>| #[trigger] vs.to_set().contains(k) implies first_names(vs, vs.len() as int).contains(k) by {
        let j = choose|j: int| 0 <= j < vs.len() && vs[j] == k;
        assert(vs[j] == k);
    }
    assert forall|k: Seq<char>| #[trigger] first_names(vs, vs.len() as int).contains(k) implies vs.to_set().contains(k) by {
        let j = choose|j: int| 0 <= j < vs.len() && #[trigger] vs[j] == k;
        assert(vs.contains(k));
    }
    assert(first_names(vs, vs.len() as int) =~= vs.to_set());
}

/// Adds the names of `from` that `except` does not hold.
fn add_all_except(set: &mut NameSet, from: &NameSet, except: &NameSet)
    requires
        old(set).wf(),
        from.wf(),
        except.wf(),
    ensures
        final(set).wf(),
        final(set)@.dom() == old(set)@.dom().union(from@.dom().difference(except@.dom())),
{
    let ghost start = set@.dom();
    let mut i: usize = 0;
    proof {
        assert(first_keys(from.entries@, 0) =~= Set::<Seq<char>>::empty());
        assert(set@.dom() =~= start.union(first_keys(from.entries@, 0).difference(except@.dom())));
    }
    while i < from.entries.len()
        invariant
            set.wf(),
            from.wf(),
            except.wf(),
            i <= from.entries@.len(),
            set@.dom() == start.union(first_keys(from.entries@, i as int).difference(except@.dom())),
        decreases from.entries@.len() - i,
    {
        if !except.contains(from.entries[i].0.as_str()) {
            add_name(set, &from.entries[i].0);
        }
        proof {
            lemma_first_keys_step(from.entries@, i as int);
            assert(set@.dom() =~= start.union(first_keys(from.entries@, i + 1).difference(except@.dom())));
        }
        i = i + 1;
    }
    proof {
        lemma_first_keys_all(*from);
    }
}

/// Adds the names of `from`.
fn add_all(set: &mut NameSet, from: &NameSet)
    requires
        old(set).wf(),
        from.wf(),
    ensures
        final(set).wf(),
        final(set)@.dom() == old(set)@.dom().union(from@.dom()),
{
    let none: NameSet = NameMap::new();
    add_all_except(set, from, &none);
    proof {
        assert(from@.dom().difference(none@.dom()) =~= from@.dom());
    }
}

// ---------------------------------------------------------------------------
// The dataflow equations
// ---------------------------------------------------------------------------

/// The outputs of φ-functions.
pub open spec fn phi_outputs(phis: Seq<PhiFunction>) -> Set<Seq<char>>
    decreases phis.len(),
{
    if phis.len() == 0 {
        Set::empty()
    } else {
        phi_outputs(phis.drop_last()).insert(phis.last().output@)
    }
}

/// The variables that operands read.
pub open spec fn reads_of(es: Seq<Expression>) -> Set<Seq<char>>
    decreases es.len(),
{
    if es.len() == 0 {
        Set::empty()
    } else {
        reads_of(es.drop_last()).union(expr_vars(es.last()@).to_set())
    }
}

/// The variables read before being defined (gen) and the variables defined
/// (kill) by statements run in order, with `kill0` defined before them.
pub open spec fn gen_kill_after(ss: Seq<Statement>, kill0: Set<Seq<char>>) -> (Set<Seq<char>>, Set<Seq<char>>)
    decreases ss.len(),
{
    if ss.len() == 0 {
        (Set::empty(), kill0)
    } else {
        let (g, k) = gen_kill_after(ss.drop_last(), kill0);
        let st = ss.last();
        (
            g.union(reads_of(st.value.operands@).difference(k)),
            match st.output {
                Some(o) => k.insert(o@),
                None => k,
            },
        )
    }
}

/// The variables that the branch condition of a block reads.
pub open spec fn cond_reads(b: BasicBlock) -> Set<Seq<char>> {
    match b.successors {
        Some(Successor::Conditional { condition, .. }) => expr_vars(condition@).to_set(),
        _ => Set::empty(),
    }
}

/// The variables that a block reads before defining them, its branch condition included.
pub open spec fn block_gen(b: BasicBlock) -> Set<Seq<char>> {
    let (g, k) = gen_kill_after(b.statements@, phi_outputs(b.phi_functions@));
    g.union(cond_reads(b).difference(k))
}

/// The variables that a block defines, by its φ-functions and its statements.
pub open spec fn block_kill(b: BasicBlock) -> Set<Seq<char>> {
    gen_kill_after(b.statements@, phi_outputs(b.phi_functions@)).1
}

/// The operands that possibilities take from block `pred`.
pub open spec fn poss_from(ps: Seq<PhiPossibility>, pred: usize) -> Set<Seq<char>>
    decreases ps.len(),
{
    if ps.len() == 0 {
        Set::empty()
    } else if ps.last().block == pred {
        poss_from(ps.drop_last(), pred).insert(ps.last().variable@)
    } else {
        poss_from(ps.drop_last(), pred)
    }
}

/// The operands that φ-functions take from block `pred`.
pub open spec fn args_from(phis: Seq<PhiFunction>, pred: usize) -> Set<Seq<char>>
    decreases phis.len(),
{
    if phis.len() == 0 {
        Set::empty()
    } else {
        args_from(phis.drop_last(), pred).union(poss_from(phis.last().possibilities@, pred))
    }
}

/// What is live out of block `b` through the successors `succs`, given what is
/// live into each block: what is live into a successor and not defined by its
/// φ-functions, and the operands that its φ-functions take from `b`.
pub open spec fn out_through(blocks: Seq<BasicBlock>, li: Seq<Set<Seq<char>>>, b: usize, succs: Seq<usize>) -> Set<Seq<char>>
    decreases succs.len(),
{
    if succs.len() == 0 {
        Set::empty()
    } else {
        let s = succs.last() as int;
        out_through(blocks, li, b, succs.drop_last()).union(
            li[s].difference(phi_outputs(blocks[s].phi_functions@)),
        ).union(args_from(blocks[s].phi_functions@, b))
    }
}

/// What is live out of block `b`, given what is live into each block.
pub open spec fn out_step(blocks: Seq<BasicBlock>, li: Seq<Set<Seq<char>>>, b: usize) -> Set<Seq<char>> {
    out_through(blocks, li, b, succ_targets(blocks[b as int].successors))
}

/// What is live into block `b`, given what is live out of it.
pub open spec fn in_step(blocks: Seq<BasicBlock>, lob: Set<Seq<char>>, b: usize) -> Set<Seq<char>> {
    block_gen(blocks[b as int]).union(lob.difference(block_kill(blocks[b as int])))
}

/// The live sets solve the dataflow equations of the blocks.
pub open spec fn live_solution(blocks: Seq<BasicBlock>, li: Seq<Set<Seq<char>>>, lo: Seq<Set<Seq<char>>>) -> bool {
    &&& li.len() == blocks.len()
    &&& lo.len() == blocks.len()
    &&& forall|b: int|
        0 <= b < blocks.len() ==> #[trigger] lo[b] == out_step(blocks, li, b as usize) && li[b] == in_step(
            blocks,
            lo[b],
            b as usize,
        )
}

/// Each set of `a` is a subset of the set at the same position in `b`.
pub open spec fn below(a: Seq<Set<Seq<char>>>, b: Seq<Set<Seq<char>>>) -> bool {
    &&& a.len() == b.len()
    &&& forall|x: int| 0 <= x < a.len() ==> (#[trigger] a[x]).subset_of(b[x])
}

proof fn lemma_out_through_mono(
    blocks: Seq<BasicBlock>,
    li: Seq<Set<Seq<char>>>,
    li2: Seq<Set<Seq<char>>>,
    b: usize,
    succs: Seq<usize>,
)
    requires
        below(li, li2),
        forall|j: int| 0 <= j < succs.len() ==> #[trigger] succs[j] < li.len(),
    ensures
        out_through(blocks, li, b, succs).subset_of(out_through(blocks, li2, b, succs)),
    decreases succs.len(),
{
    if succs.len() > 0 {
        lemma_out_through_mono(blocks, li, li2, b, succs.drop_last());
        let s = succs.last() as int;
        assert(succs[succs.len() - 1] == succs.last());
        assert(li[s].subset_of(li2[s]));
    }
}

proof fn lemma_out_through_within(
    blocks: Seq<BasicBlock>,
    li: Seq<Set<Seq<char>>>,
    b: usize,
    succs: Seq<usize>,
    u: Set<Seq<char>>,
)
    requires
        forall|j: int| 0 <= j < succs.len() ==> #[trigger] succs[j] < li.len(),
        forall|j: int| 0 <= j < succs.len() ==> #[trigger] succs[j] < blocks.len(),
        forall|x: int| 0 <= x < li.len() ==> (#[trigger] li[x]).subset_of(u),
        forall|x: int| 0 <= x < blocks.len() ==> args_from((#[trigger] blocks[x]).phi_functions@, b).subset_of(u),
    ensures
        out_through(blocks, li, b, succs).subset_of(u),
    decreases succs.len(),
{
    if succs.len() > 0 {
        lemma_out_through_within(blocks, li, b, succs.drop_last(), u);
        let s = succs.last() as int;
        assert(succs[succs.len() - 1] == succs.last());
        assert(li[s].subset_of(u));
        assert(args_from(blocks[s].phi_functions@, b).subset_of(u));
    }
}

// ---------------------------------------------------------------------------
// Sizes
// ---------------------------------------------------------------------------

/// The sum of the sizes of the sets.
pub open spec fn total_size(v: Seq<Set<Seq<char>>>) -> nat
    decreases v.len(),
{
    if v.len() == 0 {
        0
    } else {
        total_size(v.drop_last()) + v.last().len()
    }
}

proof fn lemma_total_update(v: Seq<Set<Seq<char>>>, x: int, t: Set<Seq<char>>)
    requires
        0 <= x < v.len(),
    ensures
        total_size(v.update(x, t)) + v[x].len() == total_size(v) + t.len(),
    decreases v.len(),
{
    let w = v.update(x, t);
    if x == v.len() - 1 {
        assert(w.drop_last() =~= v.drop_last());
    } else {
        lemma_total_update(v.drop_last(), x, t);
        assert(w.drop_last() =~= v.drop_last().update(x, t));
    }
}

proof fn lemma_total_bound(v: Seq<Set<Seq<char>>>, u: Set<Seq<char>>)
    requires
        u.finite(),
        forall|x: int| 0 <= x < v.len() ==> (#[trigger] v[x]).subset_of(u),
    ensures
        total_size(v) <= v.len() * u.len(),
    decreases v.len(),
{
    if v.len() > 0 {
        lemma_total_bound(v.drop_last(), u);
        assert(v.last() == v[v.len() - 1]);
        lemma_len_subset(v.last(), u);
        assert((v.len() - 1) * u.len() + u.len() == v.len() * u.len()) by (nonlinear_arith);
    }
}

proof fn lemma_len_strict_subset(s: Set<Seq<char>>, t: Set<Seq<char>>)
    requires
        t.finite(),
        s.subset_of(t),
        s != t,
    ensures
        s.len() < t.len(),
{
    let e = choose|e: Seq<char>| t.contains(e) && !s.contains(e);
    assert(exists|e: Seq<char>| t.contains(e) && !s.contains(e)) by {
        if forall|e: Seq<char>| t.contains(e) ==> s.contains(e) {
            assert(s =~= t);
        }
    }
    lemma_len_subset(s, t.remove(e));
}

// ---------------------------------------------------------------------------
// Gen, kill, φ-definitions and φ-operands of a block
// ---------------------------------------------------------------------------

/// The variables that an expression reads, added to `set` unless `except` has them.
fn add_variables(set: &mut NameSet, e: &Expression, except: &NameSet)
    requires
        old(set).wf(),
        except.wf(),
    ensures
        final(set).wf(),
        final(set)@.dom() == old(set)@.dom().union(expr_vars(e@).to_set().difference(except@.dom())),
{
    let vars = get_variable_names(e);
    let ghost vs = expr_vars(e@);
    let ghost start = set@.dom();
    let mut i: usize = 0;
    proof {
        assert(first_names(vs, 0) =~= Set::<Seq<char>>::empty());
        assert(set@.dom() =~= start.union(first_names(vs, 0).difference(except@.dom())));
    }
    while i < vars.len()
        invariant
            set.wf(),
            except.wf(),
            i <= vars@.len(),
            vars@.map_values(|s: String| s@) == vs,
            set@.dom() == start.union(first_names(vs, i as int).difference(except@.dom())),
        decreases vars@.len() - i,
    {
        proof {
            assert(vars@.map_values(|s: String| s@)[i as int] == vars@[i as int]@);
        }
        if !except.contains(vars[i].as_str()) {
            add_name(set, &vars[i]);
        }
        proof {
            lemma_first_names_step(vs, i as int);
            assert(set@.dom() =~= start.union(first_names(vs, i + 1).difference(except@.dom())));
        }
        i = i + 1;
    }
    proof {
        lemma_first_names_all(vs);
    }
}

/// The variables used in a block before being defined there (gen), and the
/// variables defined in it (kill).
fn gen_kill(block: &BasicBlock) -> (r: (NameSet, NameSet))
    ensures
        r.0.wf(),
        r.1.wf(),
        r.0@.dom() == block_gen(*block),
        r.1@.dom() == block_kill(*block),
{
    let mut gen: NameSet = NameMap::new();
    let mut kill: NameSet = NameMap::new();
    let ghost phis = block.phi_functions@;
    let mut k: usize = 0;
    proof {
        assert(phis.take(0) =~= Seq::<PhiFunction>::empty());
        assert(kill@.dom() =~= Set::<Seq<char>>::empty());
    }
    while k < block.phi_functions.len()
        invariant
            kill.wf(),
            phis == block.phi_functions@,
            k <= phis.len(),
            kill@.dom() == phi_outputs(phis.take(k as int)),
        decreases phis.len() - k,
    {
        add_name(&mut kill, &block.phi_functions[k].output);
        proof {
            let t = phis.take(k + 1);
            assert(t.drop_last() =~= phis.take(k as int));
            assert(t.last() == phis[k as int]);
        }
        k = k + 1;
    }
    proof {
        assert(phis.take(phis.len() as int) =~= phis);
    }
    let ghost kill0 = phi_outputs(phis);
    let ghost ss = block.statements@;
    let mut k: usize = 0;
    proof {
        assert(ss.take(0) =~= Seq::<Statement>::empty());
        assert(gen@.dom() =~= Set::<Seq<char>>::empty());
    }
    while k < block.statements.len()
        invariant
            gen.wf(),
            kill.wf(),
            ss == block.statements@,
            k <= ss.len(),
            (gen@.dom(), kill@.dom()) == gen_kill_after(ss.take(k as int), kill0),
        decreases ss.len() - k,
    {
        let stmt = &block.statements[k];
        let ghost g0 = gen@.dom();
        let ghost ops = stmt.value.operands@;
        let mut o: usize = 0;
        proof {
            assert(ops.take(0) =~= Seq::<Expression>::empty());
            assert(gen@.dom() =~= g0.union(reads_of(ops.take(0)).difference(kill@.dom())));
        }
        while o < stmt.value.operands.len()
            invariant
                gen.wf(),
                kill.wf(),
                ops == stmt.value.operands@,
                o <= ops.len(),
                gen@.dom() == g0.union(reads_of(ops.take(o as int)).difference(kill@.dom())),
            decreases ops.len() - o,
        {
            let ghost before = gen@.dom();
            add_variables(&mut gen, &stmt.value.operands[o], &kill);
            proof {
                let t = ops.take(o + 1);
                assert(t.drop_last() =~= ops.take(o as int));
                assert(t.last() == ops[o as int]);
                assert(gen@.dom() =~= g0.union(reads_of(t).difference(kill@.dom())));
            }
            o = o + 1;
        }
        proof {
            assert(ops.take(ops.len() as int) =~= ops);
        }
        if let Some(output) = &stmt.output {
            add_name(&mut kill, output);
        }
        proof {
            let t = ss.take(k + 1);
            assert(t.drop_last() =~= ss.take(k as int));
            assert(t.last() == ss[k as int]);
        }
        k = k + 1;
    }
    proof {
        assert(ss.take(ss.len() as int) =~= ss);
    }
    if let Some(Successor::Conditional { condition, .. }) = &block.successors {
        add_variables(&mut gen, condition, &kill);
    } else {
        proof {
            assert(cond_reads(*block) =~= Set::<Seq<char>>::empty());
            assert(gen@.dom() =~= gen@.dom().union(cond_reads(*block).difference(kill@.dom())));
        }
    }
    (gen, kill)
}

/// The outputs of a block's φ-functions.
fn phi_defs(block: &BasicBlock) -> (defs: NameSet)
    ensures
        defs.wf(),
        defs@.dom() == phi_outputs(block.phi_functions@),
{
    let mut defs: NameSet = NameMap::new();
    let ghost phis = block.phi_functions@;
    let mut k: usize = 0;
    proof {
        assert(phis.take(0) =~= Seq::<PhiFunction>::empty());
        assert(defs@.dom() =~= Set::<Seq<char>>::empty());
    }
    while k < block.phi_functions.len()
        invariant
            defs.wf(),
            phis == block.phi_functions@,
            k <= phis.len(),
            defs@.dom() == phi_outputs(phis.take(k as int)),
        decreases phis.len() - k,
    {
        add_name(&mut defs, &block.phi_functions[k].output);
        proof {
            let t = phis.take(k + 1);
            assert(t.drop_last() =~= phis.take(k as int));
            assert(t.last() == phis[k as int]);
        }
        k = k + 1;
    }
    proof {
        assert(phis.take(phis.len() as int) =~= phis);
    }
    defs
}

/// The operands of a block's φ-functions that come from block `pred`.
fn phi_args_from(block: &BasicBlock, pred: usize) -> (args: NameSet)
    ensures
        args.wf(),
        args@.dom() == args_from(block.phi_functions@, pred),
{
    let mut args: NameSet = NameMap::new();
    let ghost phis = block.phi_functions@;
    let mut k: usize = 0;
    proof {
        assert(phis.take(0) =~= Seq::<PhiFunction>::empty());
        assert(args@.dom() =~= Set::<Seq<char>>::empty());
    }
    while k < block.phi_functions.len()
        invariant
            args.wf(),
            phis == block.phi_functions@,
            k <= phis.len(),
            args@.dom() == args_from(phis.take(k as int), pred),
        decreases phis.len() - k,
    {
        let phi = &block.phi_functions[k];
        let ghost a0 = args@.dom();
        let ghost ps = phi.possibilities@;
        let mut q: usize = 0;
        proof {
            assert(ps.take(0) =~= Seq::<PhiPossibility>::empty());
            assert(args@.dom() =~= a0.union(poss_from(ps.take(0), pred)));
        }
        while q < phi.possibilities.len()
            invariant
                args.wf(),
                ps == phi.possibilities@,
                q <= ps.len(),
                args@.dom() == a0.union(poss_from(ps.take(q as int), pred)),
            decreases ps.len() - q,
        {
            if phi.possibilities[q].block == pred {
                add_name(&mut args, &phi.possibilities[q].variable);
            }
            proof {
                let t = ps.take(q + 1);
                assert(t.drop_last() =~= ps.take(q as int));
                assert(t.last() == ps[q as int]);
                assert(args@.dom() =~= a0.union(poss_from(t, pred)));
            }
            q = q + 1;
        }
        proof {
            assert(ps.take(ps.len() as int) =~= ps);
            let t = phis.take(k + 1);
            assert(t.drop_last() =~= phis.take(k as int));
            assert(t.last() == phis[k as int]);
        }
        k = k + 1;
    }
    proof {
        assert(phis.take(phis.len() as int) =~= phis);
    }
    args
}

// ---------------------------------------------------------------------------
// The names that can be live
// ---------------------------------------------------------------------------

/// The variables of possibilities.
pub open spec fn poss_vars(ps: Seq<PhiPossibility>) -> Set<Seq<char>>
    decreases ps.len(),
{
    if ps.len() == 0 {
        Set::empty()
    } else {
        poss_vars(ps.drop_last()).insert(ps.last().variable@)
    }
}

/// The operands of φ-functions, from whichever block.
pub open spec fn phi_vars(phis: Seq<PhiFunction>) -> Set<Seq<char>>
    decreases phis.len(),
{
    if phis.len() == 0 {
        Set::empty()
    } else {
        phi_vars(phis.drop_last()).union(poss_vars(phis.last().possibilities@))
    }
}

/// The variables that the blocks read before defining them, or take as φ-operands.
pub open spec fn names_of_blocks(blocks: Seq<BasicBlock>) -> Set<Seq<char>>
    decreases blocks.len(),
{
    if blocks.len() == 0 {
        Set::empty()
    } else {
        names_of_blocks(blocks.drop_last()).union(block_gen(blocks.last())).union(
            phi_vars(blocks.last().phi_functions@),
        )
    }
}

/// `u` is a finite set that holds every name that the equations can make live.
pub open spec fn names_bounded(blocks: Seq<BasicBlock>, u: Set<Seq<char>>) -> bool {
    &&& u.finite()
    &&& forall|x: int| 0 <= x < blocks.len() ==> #[trigger] block_gen(blocks[x]).subset_of(u)
    &&& forall|x: int, p: usize|
        0 <= x < blocks.len() ==> #[trigger] args_from(blocks[x].phi_functions@, p).subset_of(u)
}

proof fn lemma_poss_vars(ps: Seq<PhiPossibility>, pred: usize)
    ensures
        poss_vars(ps).finite(),
        poss_from(ps, pred).subset_of(poss_vars(ps)),
    decreases ps.len(),
{
    if ps.len() > 0 {
        lemma_poss_vars(ps.drop_last(), pred);
    }
}

proof fn lemma_phi_vars(phis: Seq<PhiFunction>, pred: usize)
    ensures
        phi_vars(phis).finite(),
        args_from(phis, pred).subset_of(phi_vars(phis)),
    decreases phis.len(),
{
    if phis.len() > 0 {
        lemma_phi_vars(phis.drop_last(), pred);
        lemma_poss_vars(phis.last().possibilities@, pred);
    }
}

proof fn lemma_names_of_blocks(blocks: Seq<BasicBlock>)
    requires
        forall|x: int| 0 <= x < blocks.len() ==> #[trigger] block_gen(blocks[x]).finite(),
    ensures
        names_bounded(blocks, names_of_blocks(blocks)),
    decreases blocks.len(),
{
    if blocks.len() > 0 {
        let d = blocks.drop_last();
        assert forall|x: int| 0 <= x < d.len() implies #[trigger] block_gen(d[x]).finite() by {
            assert(d[x] == blocks[x]);
        }
        lemma_names_of_blocks(d);
        let u = names_of_blocks(blocks);
        let l = blocks.last();
        assert(block_gen(blocks[blocks.len() - 1]).finite());
        lemma_phi_vars(l.phi_functions@, 0);
        assert forall|x: int| 0 <= x < blocks.len() implies #[trigger] block_gen(blocks[x]).subset_of(u) by {
            if x < d.len() {
                assert(d[x] == blocks[x]);
                assert(block_gen(d[x]).subset_of(names_of_blocks(d)));
            }
        }
        assert forall|x: int, p: usize| 0 <= x < blocks.len() implies #[trigger] args_from(
            blocks[x].phi_functions@,
            p,
        ).subset_of(u) by {
            if x < d.len() {
                assert(d[x] == blocks[x]);
                assert(args_from(d[x].phi_functions@, p).subset_of(names_of_blocks(d)));
            } else {
                lemma_phi_vars(l.phi_functions@, p);
            }
        }
    }
}

// ---------------------------------------------------------------------------
// The iteration
// ---------------------------------------------------------------------------

/// Every set of `v` is a subset of `u`.
pub open spec fn within(v: Seq<Set<Seq<char>>>, u: Set<Seq<char>>) -> bool {
    forall|x: int| 0 <= x < v.len() ==> (#[trigger] v[x]).subset_of(u)
}

/// The sets are no larger than one step of the equations makes them.
pub open spec fn below_step(blocks: Seq<BasicBlock>, li: Seq<Set<Seq<char>>>, lo: Seq<Set<Seq<char>>>) -> bool {
    &&& li.len() == blocks.len()
    &&& lo.len() == blocks.len()
    &&& forall|x: int|
        0 <= x < blocks.len() ==> (#[trigger] lo[x]).subset_of(out_step(blocks, li, x as usize))
            && li[x].subset_of(in_step(blocks, lo[x], x as usize))
}

/// The sets are below every solution of the equations.
pub open spec fn below_solutions(blocks: Seq<BasicBlock>, li: Seq<Set<Seq<char>>>, lo: Seq<Set<Seq<char>>>) -> bool {
    forall|xi: Seq<Set<Seq<char>>>, xo: Seq<Set<Seq<char>>>|
        #[trigger] live_solution(blocks, xi, xo) ==> below(li, xi) && below(lo, xo)
}

/// Sets of names, one for each of `n` blocks.
pub open spec fn sets_ok(v: Seq<NameSet>, n: nat) -> bool {
    &&& v.len() == n
    &&& forall|x: int| 0 <= x < n ==> (#[trigger] v[x]).wf()
}

/// The gen, kill and φ-definition sets of the blocks.
pub open spec fn tables_ok(blocks: Seq<BasicBlock>, gen: Seq<NameSet>, kill: Seq<NameSet>, defs: Seq<NameSet>) -> bool {
    &&& sets_ok(gen, blocks.len())
    &&& sets_ok(kill, blocks.len())
    &&& sets_ok(defs, blocks.len())
    &&& forall|x: int| 0 <= x < blocks.len() ==> (#[trigger] gen[x])@.dom() == block_gen(blocks[x])
    &&& forall|x: int| 0 <= x < blocks.len() ==> (#[trigger] kill[x])@.dom() == block_kill(blocks[x])
    &&& forall|x: int| 0 <= x < blocks.len() ==> (#[trigger] defs[x])@.dom() == phi_outputs(blocks[x].phi_functions@)
}

proof fn lemma_views_update(v: Seq<NameSet>, x: int, s: NameSet)
    requires
        0 <= x < v.len(),
    ensures
        views_of(v.update(x, s)) == views_of(v).update(x, s@.dom()),
{
    assert(views_of(v.update(x, s)) =~= views_of(v).update(x, s@.dom()));
}

/// One update of block `b` keeps the sets within `u`, below one step of the
/// equations and below every solution, and does not shrink them; where it
/// changes them, they grow.
proof fn lemma_step(
    blocks: Seq<BasicBlock>,
    li: Seq<Set<Seq<char>>>,
    lo: Seq<Set<Seq<char>>>,
    b: usize,
    u: Set<Seq<char>>,
)
    requires
        links_ok(blocks),
        b < blocks.len(),
        blocks.len() <= usize::MAX,
        names_bounded(blocks, u),
        within(li, u),
        within(lo, u),
        below_step(blocks, li, lo),
        below_solutions(blocks, li, lo),
    ensures
        ({
            let o = out_step(blocks, li, b);
            let li2 = li.update(b as int, in_step(blocks, o, b));
            let lo2 = lo.update(b as int, o);
            &&& within(li2, u)
            &&& within(lo2, u)
            &&& below_step(blocks, li2, lo2)
            &&& below_solutions(blocks, li2, lo2)
            &&& total_size(li) + total_size(lo) <= total_size(li2) + total_size(lo2)
            &&& (li2 != li || lo2 != lo) ==> total_size(li) + total_size(lo) < total_size(li2) + total_size(lo2)
        }),
{
    let n = blocks.len();
    let succs = succ_targets(blocks[b as int].successors);
    assert(blocks[b as int].links_below(n));
    let o = out_step(blocks, li, b);
    let i = in_step(blocks, o, b);
    let li2 = li.update(b as int, i);
    let lo2 = lo.update(b as int, o);
    assert forall|x: int| 0 <= x < blocks.len() implies args_from((#[trigger] blocks[x]).phi_functions@, b).subset_of(u) by {
        assert(args_from(blocks[x].phi_functions@, b).subset_of(u));
    }
    lemma_out_through_within(blocks, li, b, succs, u);
    assert(block_gen(blocks[b as int]).subset_of(u));
    assert(i.subset_of(u));
    lemma_len_subset(o, u);
    lemma_len_subset(i, u);
    // the sets grow
    assert(lo[b as int].subset_of(o));
    assert(li[b as int].subset_of(in_step(blocks, lo[b as int], b)));
    assert(li[b as int].subset_of(i));
    assert(below(li, li2));
    assert(within(li2, u));
    assert(within(lo2, u));
    // below one step
    assert forall|x: int| 0 <= x < blocks.len() implies (#[trigger] lo2[x]).subset_of(out_step(blocks, li2, x as usize))
        && li2[x].subset_of(in_step(blocks, lo2[x], x as usize)) by {
        assert(blocks[x].links_below(n));
        lemma_out_through_mono(blocks, li, li2, x as usize, succ_targets(blocks[x].successors));
        if x != b {
            assert(lo2[x] == lo[x]);
            assert(li2[x] == li[x]);
        }
    }
    // below every solution
    assert forall|xi: Seq<Set<Seq<char>>>, xo: Seq<Set<Seq<char>>>|
        #[trigger] live_solution(blocks, xi, xo) implies below(li2, xi) && below(lo2, xo) by {
        assert(below(li, xi) && below(lo, xo));
        lemma_out_through_mono(blocks, li, xi, b, succs);
        assert(xo[b as int] == out_step(blocks, xi, b));
        assert(o.subset_of(xo[b as int]));
        assert(xi[b as int] == in_step(blocks, xo[b as int], b));
        assert(i.subset_of(xi[b as int]));
        assert forall|x: int| 0 <= x < li2.len() implies (#[trigger] li2[x]).subset_of(xi[x]) by {
            if x != b {
                assert(li[x].subset_of(xi[x]));
            }
        }
        assert forall|x: int| 0 <= x < lo2.len() implies (#[trigger] lo2[x]).subset_of(xo[x]) by {
            if x != b {
                assert(lo[x].subset_of(xo[x]));
            }
        }
    }
    // sizes
    lemma_total_update(lo, b as int, o);
    lemma_total_update(li, b as int, i);
    lemma_len_subset(lo[b as int], o);
    lemma_len_subset(li[b as int], i);
    if lo[b as int] == o {
        assert(lo2 =~= lo);
    } else {
        lemma_len_strict_subset(lo[b as int], o);
    }
    if li[b as int] == i {
        assert(li2 =~= li);
    } else {
        lemma_len_strict_subset(li[b as int], i);
    }
}

/// Recomputes what is live out of and into block `b` from what is live into its
/// successors, and says whether either set changed.
fn update_block(
    blocks: &Vec<BasicBlock>,
    gen: &Vec<NameSet>,
    kill: &Vec<NameSet>,
    defs: &Vec<NameSet>,
    live_in: &mut Vec<NameSet>,
    live_out: &mut Vec<NameSet>,
    b: usize,
) -> (changed: bool)
    requires
        links_ok(blocks@),
        b < blocks@.len(),
        tables_ok(blocks@, gen@, kill@, defs@),
        sets_ok(old(live_in)@, blocks@.len()),
        sets_ok(old(live_out)@, blocks@.len()),
    ensures
        sets_ok(final(live_in)@, blocks@.len()),
        sets_ok(final(live_out)@, blocks@.len()),
        views_of(final(live_out)@) == views_of(old(live_out)@).update(
            b as int,
            out_step(blocks@, views_of(old(live_in)@), b),
        ),
        views_of(final(live_in)@) == views_of(old(live_in)@).update(
            b as int,
            in_step(blocks@, out_step(blocks@, views_of(old(live_in)@), b), b),
        ),
        changed == (views_of(final(live_in)@) != views_of(old(live_in)@) || views_of(final(live_out)@) != views_of(
            old(live_out)@,
        )),
{
    let n = blocks.len();
    let successors = targets_of(&blocks[b].successors);
    let ghost li = views_of(live_in@);
    let ghost lo = views_of(live_out@);
    proof {
        assert(blocks@[b as int].links_below(n as nat));
        assert(successors@.take(0) =~= Seq::<usize>::empty());
    }
    let mut new_out: NameSet = NameMap::new();
    proof {
        assert(new_out@.dom() =~= Set::<Seq<char>>::empty());
    }
    let mut j: usize = 0;
    while j < successors.len()
        invariant
            n == blocks@.len(),
            b < n,
            successors@ == succ_targets(blocks@[b as int].successors),
            blocks@[b as int].links_below(n as nat),
            j <= successors@.len(),
            new_out.wf(),
            tables_ok(blocks@, gen@, kill@, defs@),
            sets_ok(live_in@, n as nat),
            li == views_of(live_in@),
            new_out@.dom() == out_through(blocks@, li, b, successors@.take(j as int)),
        decreases successors@.len() - j,
    {
        let s = successors[j];
        proof {
            assert(succ_targets(blocks@[b as int].successors)[j as int] < n);
        }
        add_all_except(&mut new_out, &live_in[s], &defs[s]);
        let args = phi_args_from(&blocks[s], b);
        add_all(&mut new_out, &args);
        proof {
            let t = successors@.take(j + 1);
            assert(t.drop_last() =~= successors@.take(j as int));
            assert(t.last() == s);
            assert(li[s as int] == live_in@[s as int]@.dom());
            assert(defs@[s as int]@.dom() == phi_outputs(blocks@[s as int].phi_functions@));
            assert(new_out@.dom() =~= out_through(blocks@, li, b, t));
        }
        j = j + 1;
    }
    proof {
        assert(successors@.take(successors@.len() as int) =~= successors@);
    }
    let ghost o = new_out@.dom();
    let mut new_in: NameSet = NameMap::new();
    add_all(&mut new_in, &gen[b]);
    add_all_except(&mut new_in, &new_out, &kill[b]);
    proof {
        assert(gen@[b as int]@.dom() == block_gen(blocks@[b as int]));
        assert(kill@[b as int]@.dom() == block_kill(blocks@[b as int]));
        assert(new_in@.dom() =~= in_step(blocks@, o, b));
    }
    let ghost i = new_in@.dom();
    let same_out = same_names(&new_out, &live_out[b]);
    if !same_out {
        proof {
            lemma_views_update(live_out@, b as int, new_out);
        }
        live_out.set(b, new_out);
    } else {
        proof {
            assert(lo[b as int] == o);
            assert(lo.update(b as int, o) =~= lo);
        }
    }
    let same_in = same_names(&new_in, &live_in[b]);
    if !same_in {
        proof {
            lemma_views_update(live_in@, b as int, new_in);
        }
        live_in.set(b, new_in);
    } else {
        proof {
            assert(li[b as int] == i);
            assert(li.update(b as int, i) =~= li);
        }
    }
    proof {
        if !same_out {
            assert(views_of(live_out@)[b as int] == o);
            assert(lo[b as int] != o);
        }
        if !same_in {
            assert(views_of(live_in@)[b as int] == i);
            assert(li[b as int] != i);
        }
    }
    !same_out || !same_in
}

/// The variables live into and out of each block: the least solution of the
/// equations `live_out(B) = ∪ over successors S of (live_in(S) − φ-defs(S)) ∪
/// φ-operands of S taken from B` and `live_in(B) = gen(B) ∪ (live_out(B) − kill(B))`.
///
/// The blocks are visited from the last to the first, each pass using what the
/// previous blocks of the pass computed, until a pass changes nothing.
pub fn compute_fresh_live_out(blocks: &Vec<BasicBlock>) -> (r: (Vec<NameSet>, Vec<NameSet>))
    requires
        links_ok(blocks@),
    ensures
        sets_ok(r.0@, blocks@.len()),
        sets_ok(r.1@, blocks@.len()),
        live_solution(blocks@, views_of(r.0@), views_of(r.1@)),
        forall|xi: Seq<Set<Seq<char>>>, xo: Seq<Set<Seq<char>>>|
            #[trigger] live_solution(blocks@, xi, xo) ==> below(views_of(r.0@), xi) && below(views_of(r.1@), xo),
{
    let n = blocks.len();
    let mut gen: Vec<NameSet> = Vec::new();
    let mut kill: Vec<NameSet> = Vec::new();
    let mut defs: Vec<NameSet> = Vec::new();
    let mut live_in: Vec<NameSet> = Vec::new();
    let mut live_out: Vec<NameSet> = Vec::new();
    let mut b: usize = 0;
    while b < n
        invariant
            n == blocks@.len(),
            b <= n,
            sets_ok(gen@, b as nat),
            sets_ok(kill@, b as nat),
            sets_ok(defs@, b as nat),
            sets_ok(live_in@, b as nat),
            sets_ok(live_out@, b as nat),
            forall|x: int| 0 <= x < b ==> (#[trigger] gen@[x])@.dom() == block_gen(blocks@[x]),
            forall|x: int| 0 <= x < b ==> (#[trigger] kill@[x])@.dom() == block_kill(blocks@[x]),
            forall|x: int| 0 <= x < b ==> (#[trigger] defs@[x])@.dom() == phi_outputs(blocks@[x].phi_functions@),
            forall|x: int| 0 <= x < b ==> (#[trigger] live_in@[x])@.dom() == Set::<Seq<char>>::empty(),
            forall|x: int| 0 <= x < b ==> (#[trigger] live_out@[x])@.dom() == Set::<Seq<char>>::empty(),
        decreases n - b,
    {
        let (g, k) = gen_kill(&blocks[b]);
        gen.push(g);
        kill.push(k);
        defs.push(phi_defs(&blocks[b]));
        let e_in: NameSet = NameMap::new();
        let e_out: NameSet = NameMap::new();
        proof {
            assert(e_in@.dom() =~= Set::<Seq<char>>::empty());
            assert(e_out@.dom() =~= Set::<Seq<char>>::empty());
        }
        live_in.push(e_in);
        live_out.push(e_out);
        b = b + 1;
    }
    let ghost u = names_of_blocks(blocks@);
    proof {
        assert forall|x: int| 0 <= x < blocks@.len() implies #[trigger] block_gen(blocks@[x]).finite() by {
            lemma_seq_map_finite(gen@[x].entries@);
        }
        lemma_names_of_blocks(blocks@);
        let li = views_of(live_in@);
        let lo = views_of(live_out@);
        assert forall|x: int| 0 <= x < n implies (#[trigger] li[x]) == Set::<Seq<char>>::empty() && lo[x] == Set::<
            Seq<char>,
        >::empty() by {
            assert(li[x] == live_in@[x]@.dom());
            assert(lo[x] == live_out@[x]@.dom());
        }
        assert(below_step(blocks@, li, lo));
        assert(within(li, u));
        assert(within(lo, u));
        assert forall|xi: Seq<Set<Seq<char>>>, xo: Seq<Set<Seq<char>>>|
            #[trigger] live_solution(blocks@, xi, xo) implies below(li, xi) && below(lo, xo) by {
            assert forall|x: int| 0 <= x < li.len() implies (#[trigger] li[x]).subset_of(xi[x]) by {
                assert(li[x] == Set::<Seq<char>>::empty());
            }
            assert forall|x: int| 0 <= x < lo.len() implies (#[trigger] lo[x]).subset_of(xo[x]) by {
                assert(lo[x] == Set::<Seq<char>>::empty());
            }
        }
    }
    let mut changed = true;
    while changed
        invariant
            n == blocks@.len(),
            links_ok(blocks@),
            tables_ok(blocks@, gen@, kill@, defs@),
            sets_ok(live_in@, n as nat),
            sets_ok(live_out@, n as nat),
            names_bounded(blocks@, u),
            within(views_of(live_in@), u),
            within(views_of(live_out@), u),
            below_step(blocks@, views_of(live_in@), views_of(live_out@)),
            below_solutions(blocks@, views_of(live_in@), views_of(live_out@)),
            !changed ==> live_solution(blocks@, views_of(live_in@), views_of(live_out@)),
        decreases 2 * (n * u.len() + n * u.len() - total_size(views_of(live_in@)) - total_size(views_of(live_out@))) + (if changed {
            1int
        } else {
            0int
        }),
    {
        let ghost li0 = views_of(live_in@);
        let ghost lo0 = views_of(live_out@);
        let ghost t0 = total_size(li0) + total_size(lo0);
        changed = false;
        let mut i: usize = n;
        while i > 0
            invariant
                n == blocks@.len(),
                links_ok(blocks@),
                i <= n,
                tables_ok(blocks@, gen@, kill@, defs@),
                sets_ok(live_in@, n as nat),
                sets_ok(live_out@, n as nat),
                names_bounded(blocks@, u),
                within(views_of(live_in@), u),
                within(views_of(live_out@), u),
                below_step(blocks@, views_of(live_in@), views_of(live_out@)),
                below_solutions(blocks@, views_of(live_in@), views_of(live_out@)),
                t0 <= total_size(views_of(live_in@)) + total_size(views_of(live_out@)),
                changed ==> t0 < total_size(views_of(live_in@)) + total_size(views_of(live_out@)),
                !changed ==> views_of(live_in@) == li0 && views_of(live_out@) == lo0,
                !changed ==> forall|x: int|
                    i <= x < n ==> #[trigger] views_of(live_out@)[x] == out_step(blocks@, views_of(live_in@), x as usize)
                        && views_of(live_in@)[x] == in_step(blocks@, views_of(live_out@)[x], x as usize),
            decreases i,
        {
            i = i - 1;
            let ghost li1 = views_of(live_in@);
            let ghost lo1 = views_of(live_out@);
            let step = update_block(blocks, &gen, &kill, &defs, &mut live_in, &mut live_out, i);
            proof {
                lemma_step(blocks@, li1, lo1, i, u);
            }
            changed = changed || step;
        }
        proof {
            lemma_total_bound(views_of(live_in@), u);
            lemma_total_bound(views_of(live_out@), u);
        }
    }
    (live_in, live_out)
}

} // verus!
