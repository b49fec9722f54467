//! Out-of-SSA translation: φ-isolation into conventional SSA, and the
//! replacement of φ-functions by sequentialized parallel copies.

use vstd::prelude::*;

use crate::cfg::{
    exprs_view, phis_view, poss_view, stmts_view, succ_targets, BasicBlock, PhiFunction, PhiPossibility, Statement,
    Value, CFG,
};
use crate::collections::{copy_items, lemma_seq_map_entry, lemma_seq_map_finite, NameMap};
use crate::text::{decimal, digit_char, push_padded_decimal, push_text, zero_padded};
use crate::tree_scan::{graph_typing, renamed_block, type_preserving};
use crate::types::{Atomic, Expression, NumericType, SpecAtomic, SpecExpression};

verus! {

broadcast use vstd::string::group_string_axioms;

// ---------------------------------------------------------------------------
// Names of temporaries
// ---------------------------------------------------------------------------

/// The name of the `k`-th temporary that breaks a cycle of copies.
#[verifier::opaque]
pub open spec fn seq_temp_name(k: nat) -> Seq<char> {
    "_seq_"@ + zero_padded(decimal(k), 3)
}

/// Whether a name is one of the temporaries that break cycles of copies.
pub open spec fn is_seq_temp(x: Seq<char>) -> bool {
    exists|k: nat| #[trigger] seq_temp_name(k) == x
}

pub open spec fn digit_value(c: char) -> nat {
    if c == '1' {
        1
    } else if c == '2' {
        2
    } else if c == '3' {
        3
    } else if c == '4' {
        4
    } else if c == '5' {
        5
    } else if c == '6' {
        6
    } else if c == '7' {
        7
    } else if c == '8' {
        8
    } else if c == '9' {
        9
    } else {
        0
    }
}

/// The number that a sequence of decimal digits stands for.
pub open spec fn decimal_value(s: Seq<char>) -> nat
    decreases s.len(),
{
    if s.len() == 0 {
        0
    } else {
        decimal_value(s.drop_last()) * 10 + digit_value(s.last())
    }
}

proof fn lemma_digit_value(d: nat)
    requires
        d < 10,
    ensures
        digit_value(digit_char(d)) == d,
{
    if d == 0 {} else if d == 1 {} else if d == 2 {} else if d == 3 {} else if d == 4 {}
    else if d == 5 {} else if d == 6 {} else if d == 7 {} else if d == 8 {} else {}
}

proof fn lemma_decimal_value_of_decimal(n: nat)
    ensures
        decimal_value(decimal(n)) == n,
    decreases n,
{
    let s = decimal(n);
    if n < 10 {
        assert(s =~= seq![digit_char(n)]);
        assert(s.drop_last() =~= Seq::<char>::empty());
        lemma_digit_value(n);
        assert(decimal_value(s) == decimal_value(s.drop_last()) * 10 + digit_value(s.last()));
    } else {
        lemma_decimal_value_of_decimal(n / 10);
        assert(s.drop_last() =~= decimal(n / 10));
        assert(s.last() == digit_char(n % 10));
        lemma_digit_value(n % 10);
        assert(decimal_value(s) == decimal_value(s.drop_last()) * 10 + digit_value(s.last()));
    }
}

proof fn lemma_decimal_value_zero_prefix(s: Seq<char>)
    ensures
        decimal_value(seq!['0'] + s) == decimal_value(s),
    decreases s.len(),
{
    let z = seq!['0'] + s;
    if s.len() == 0 {
        assert(z.drop_last() =~= Seq::<char>::empty());
        assert(z.last() == '0');
        assert(decimal_value(z) == decimal_value(z.drop_last()) * 10 + digit_value(z.last()));
    } else {
        lemma_decimal_value_zero_prefix(s.drop_last());
        assert(z.drop_last() =~= seq!['0'] + s.drop_last());
        assert(z.last() == s.last());
        assert(decimal_value(z) == decimal_value(z.drop_last()) * 10 + digit_value(z.last()));
        assert(decimal_value(s) == decimal_value(s.drop_last()) * 10 + digit_value(s.last()));
    }
}

proof fn lemma_decimal_value_padded(s: Seq<char>, w: nat)
    ensures
        decimal_value(zero_padded(s, w)) == decimal_value(s),
    decreases w - s.len(),
{
    if s.len() < w {
        lemma_decimal_value_padded(seq!['0'] + s, w);
        lemma_decimal_value_zero_prefix(s);
    }
}

/// Different temporaries have different names.
pub proof fn lemma_seq_temp_name_injective(a: nat, b: nat)
    requires
        seq_temp_name(a) == seq_temp_name(b),
    ensures
        a == b,
{
    reveal(seq_temp_name);
    reveal_strlit("_seq_");
    let pa = zero_padded(decimal(a), 3);
    let pb = zero_padded(decimal(b), 3);
    assert(seq_temp_name(a).skip(5) =~= pa);
    assert(seq_temp_name(b).skip(5) =~= pb);
    lemma_decimal_value_padded(decimal(a), 3);
    lemma_decimal_value_padded(decimal(b), 3);
    lemma_decimal_value_of_decimal(a);
    lemma_decimal_value_of_decimal(b);
}

/// The name of the `k`-th temporary that breaks a cycle of copies.
fn seq_temp(k: usize) -> (r: String)
    ensures
        r@ == seq_temp_name(k as nat),
{
    let mut s = String::new();
    push_text(&mut s, "_seq_");
    push_padded_decimal(&mut s, k, 3);
    proof {
        reveal(seq_temp_name);
        assert(Seq::<char>::empty() + "_seq_"@ + zero_padded(decimal(k as nat), 3) =~= seq_temp_name(k as nat));
    }
    s
}

// ---------------------------------------------------------------------------
// Semantics of copies
// ---------------------------------------------------------------------------

/// The state after the copy `d <- s`.
pub open spec fn assign(env: spec_fn(Seq<char>) -> int, d: Seq<char>, s: Seq<char>) -> spec_fn(Seq<char>) -> int {
    |x: Seq<char>| if x == d { env(s) } else { env(x) }
}

/// The state after running the copies `(destination, source)` one after the other.
pub open spec fn run_copies(c: Seq<(Seq<char>, Seq<char>)>, env: spec_fn(Seq<char>) -> int) -> spec_fn(Seq<char>) -> int
    decreases c.len(),
{
    if c.len() == 0 {
        env
    } else {
        assign(run_copies(c.drop_last(), env), c.last().0, c.last().1)
    }
}

pub open spec fn is_dest(c: Seq<(Seq<char>, Seq<char>)>, x: Seq<char>) -> bool {
    exists|i: int| 0 <= i < c.len() && #[trigger] c[i].0 == x
}

/// The value of `x` after running the copies `c` all at once.
pub open spec fn parallel_value(c: Seq<(Seq<char>, Seq<char>)>, env: spec_fn(Seq<char>) -> int, x: Seq<char>) -> int {
    if is_dest(c, x) {
        env(c[choose|i: int| 0 <= i < c.len() && #[trigger] c[i].0 == x].1)
    } else {
        env(x)
    }
}

pub open spec fn copies_view(v: Seq<(String, String)>) -> Seq<(Seq<char>, Seq<char>)> {
    v.map_values(|p: (String, String)| (p.0@, p.1@))
}

/// No variable is the destination of two copies.
pub open spec fn dests_distinct(c: Seq<(Seq<char>, Seq<char>)>) -> bool {
    forall|i: int, j: int| 0 <= i < c.len() && 0 <= j < c.len() && i != j ==> #[trigger] c[i].0 != #[trigger] c[j].0
}

/// No copy names a variable that could be taken for a temporary.
pub open spec fn no_temp_names(c: Seq<(Seq<char>, Seq<char>)>) -> bool {
    forall|i: int| 0 <= i < c.len() ==> !is_seq_temp(#[trigger] c[i].0) && !is_seq_temp(c[i].1)
}

/// Whether some pending copy reads `x`.
pub open spec fn is_read(p: Map<Seq<char>, String>, x: Seq<char>) -> bool {
    exists|y: Seq<char>| #[trigger] p.contains_key(y) && p[y]@ == x
}

/// The pending copies that read the destination of a pending copy.
pub open spec fn linked(p: Map<Seq<char>, String>) -> Set<Seq<char>> {
    p.dom().filter(|y: Seq<char>| p.contains_key(p[y]@))
}

/// The values held so far agree with the parallel copies `orig`: every pending
/// copy's source holds the value its destination must get, and every other
/// variable that is not a temporary already holds its final value.
pub open spec fn copies_agree(
    orig: Seq<(Seq<char>, Seq<char>)>,
    res: Seq<(Seq<char>, Seq<char>)>,
    p: Map<Seq<char>, String>,
    env: spec_fn(Seq<char>) -> int,
) -> bool {
    &&& forall|d: Seq<char>| #[trigger] p.contains_key(d) ==> run_copies(res, env)(p[d]@) == parallel_value(orig, env, d)
    &&& forall|x: Seq<char>| !is_seq_temp(x) && !p.contains_key(x) ==> #[trigger] run_copies(res, env)(x) == parallel_value(orig, env, x)
}

/// Running a pending copy whose destination no pending copy reads keeps the agreement.
proof fn lemma_agree_after_copy(
    orig: Seq<(Seq<char>, Seq<char>)>,
    res: Seq<(Seq<char>, Seq<char>)>,
    p: Map<Seq<char>, String>,
    d: Seq<char>,
    env: spec_fn(Seq<char>) -> int,
)
    requires
        copies_agree(orig, res, p, env),
        p.contains_key(d),
        forall|y: Seq<char>| #[trigger] p.contains_key(y) ==> p[y]@ != d,
    ensures
        copies_agree(orig, res.push((d, p[d]@)), p.remove(d), env),
{
    let res2 = res.push((d, p[d]@));
    assert(res2.drop_last() =~= res);
    let cur = run_copies(res, env);
    let cur2 = run_copies(res2, env);
    assert forall|x: Seq<char>| #[trigger] cur2(x) == (if x == d { cur(p[d]@) } else { cur(x) }) by {}
    assert forall|y: Seq<char>| #[trigger] p.remove(d).contains_key(y) implies cur2(p.remove(d)[y]@) == parallel_value(orig, env, y) by {
        assert(p.contains_key(y));
        assert(p[y]@ != d);
    }
    assert forall|x: Seq<char>| !is_seq_temp(x) && !p.remove(d).contains_key(x) implies #[trigger] cur2(x) == parallel_value(orig, env, x) by {
        if x != d {
            assert(!p.contains_key(x));
        }
    }
}

/// Copying the source of a pending copy into a fresh temporary and letting the copy
/// read the temporary keeps the agreement.
proof fn lemma_agree_after_break(
    orig: Seq<(Seq<char>, Seq<char>)>,
    res: Seq<(Seq<char>, Seq<char>)>,
    p: Map<Seq<char>, String>,
    d: Seq<char>,
    t: String,
    env: spec_fn(Seq<char>) -> int,
)
    requires
        copies_agree(orig, res, p, env),
        p.contains_key(d),
        is_seq_temp(t@),
        forall|y: Seq<char>| #[trigger] p.contains_key(y) ==> p[y]@ != t@,
    ensures
        copies_agree(orig, res.push((t@, p[d]@)), p.insert(d, t), env),
{
    let res2 = res.push((t@, p[d]@));
    assert(res2.drop_last() =~= res);
    let cur = run_copies(res, env);
    let cur2 = run_copies(res2, env);
    let p2 = p.insert(d, t);
    assert forall|x: Seq<char>| #[trigger] cur2(x) == (if x == t@ { cur(p[d]@) } else { cur(x) }) by {}
    assert forall|y: Seq<char>| #[trigger] p2.contains_key(y) implies cur2(p2[y]@) == parallel_value(orig, env, y) by {
        if y != d {
            assert(p[y]@ != t@);
        }
    }
    assert forall|x: Seq<char>| !is_seq_temp(x) && !p2.contains_key(x) implies #[trigger] cur2(x) == parallel_value(orig, env, x) by {
        assert(x != t@);
    }
}

proof fn lemma_linked_remove(p: Map<Seq<char>, String>, d: Seq<char>)
    requires
        p.dom().finite(),
    ensures
        linked(p.remove(d)).len() <= linked(p).len(),
        linked(p).len() <= p.dom().len(),
{
    assert(linked(p.remove(d)).subset_of(linked(p)));
    p.dom().lemma_len_filter(|y: Seq<char>| p.contains_key(p[y]@));
    vstd::set_lib::lemma_len_subset(linked(p.remove(d)), linked(p));
}

proof fn lemma_linked_break(p: Map<Seq<char>, String>, d: Seq<char>, t: String)
    requires
        p.dom().finite(),
        p.contains_key(d),
        p.contains_key(p[d]@),
        !p.contains_key(t@),
    ensures
        linked(p.insert(d, t)).len() + 1 == linked(p).len(),
{
    let p2 = p.insert(d, t);
    assert(p2.dom() =~= p.dom());
    assert(linked(p2) =~= linked(p).remove(d));
    p.dom().lemma_len_filter(|y: Seq<char>| p.contains_key(p[y]@));
    assert(linked(p).contains(d));
}

/// The state of the sequentialization agrees with the parallel copies `orig`, and
/// the pending copies name no temporary but those already made.
#[verifier::opaque]
pub open spec fn sequencing_ok(
    orig: Seq<(Seq<char>, Seq<char>)>,
    res: Seq<(Seq<char>, Seq<char>)>,
    p: Map<Seq<char>, String>,
    next: nat,
) -> bool {
    &&& forall|env: spec_fn(Seq<char>) -> int| #[trigger] copies_agree(orig, res, p, env)
    &&& forall|d: Seq<char>| #[trigger] p.contains_key(d) ==> !is_seq_temp(d)
    &&& forall|d: Seq<char>| #[trigger] p.contains_key(d) ==> !is_seq_temp(p[d]@)
        || exists|k: nat| k < next && #[trigger] seq_temp_name(k) == p[d]@
}

/// The queue of copies that may run: no pending copy reads a queued destination, and
/// every pending destination that no pending copy reads is queued.
#[verifier::opaque]
pub open spec fn queue_ok(q: Seq<String>, head: int, p: Map<Seq<char>, String>) -> bool {
    &&& 0 <= head <= q.len()
    &&& forall|j: int| head <= j < q.len() && p.contains_key(#[trigger] q[j]@) ==> !is_read(p, q[j]@)
    &&& forall|d: Seq<char>| #[trigger] p.contains_key(d) && !is_read(p, d)
        ==> exists|j: int| head <= j < q.len() && #[trigger] q[j]@ == d
}

/// Whether some pending copy reads `x`.
fn reads(src_of: &NameMap<String>, x: &String) -> (r: bool)
    requires
        src_of.wf(),
    ensures
        r == is_read(src_of.view(), x@),
{
    let mut i: usize = 0;
    while i < src_of.entries.len()
        invariant
            src_of.wf(),
            i <= src_of.entries@.len(),
            forall|j: int| 0 <= j < i ==> src_of.entries@[j].1@ != x@,
        decreases src_of.entries@.len() - i,
    {
        if src_of.entries[i].1 == *x {
            proof {
                lemma_seq_map_entry(src_of.entries@, i as int);
            }
            return true;
        }
        i = i + 1;
    }
    proof {
        if is_read(src_of.view(), x@) {
            let y = choose|y: Seq<char>| #[trigger] src_of.view().contains_key(y) && src_of.view()[y]@ == x@;
            let j = crate::collections::seq_index(src_of.entries@, y);
            lemma_seq_map_entry(src_of.entries@, j);
        }
    }
    false
}

/// The position of the first pending copy that reads the destination of a pending
/// copy. One exists when every pending destination is read.
fn first_linked(src_of: &NameMap<String>) -> (i: usize)
    requires
        src_of.wf(),
        src_of.entries@.len() > 0,
        forall|d: Seq<char>| #[trigger] src_of.view().contains_key(d) ==> is_read(src_of.view(), d),
    ensures
        i < src_of.entries@.len(),
        src_of.view().contains_key(src_of.entries@[i as int].0@),
        src_of.view()[src_of.entries@[i as int].0@] == src_of.entries@[i as int].1,
        src_of.view().contains_key(src_of.entries@[i as int].1@),
{
    let mut i: usize = 0;
    while i < src_of.entries.len()
        invariant
            src_of.wf(),
            i <= src_of.entries@.len(),
            forall|j: int| 0 <= j < i ==> !src_of.view().contains_key(#[trigger] src_of.entries@[j].1@),
        decreases src_of.entries@.len() - i,
    {
        if src_of.contains(&src_of.entries[i].1) {
            proof {
                lemma_seq_map_entry(src_of.entries@, i as int);
            }
            return i;
        }
        i = i + 1;
    }
    proof {
        let d = src_of.entries@[0].0@;
        lemma_seq_map_entry(src_of.entries@, 0);
        let y = choose|y: Seq<char>| #[trigger] src_of.view().contains_key(y) && src_of.view()[y]@ == d;
        let j = crate::collections::seq_index(src_of.entries@, y);
        lemma_seq_map_entry(src_of.entries@, j);
        assert(!src_of.view().contains_key(src_of.entries@[j].1@));
    }
    0
}

proof fn lemma_bind_step(
    cv: Seq<(Seq<char>, Seq<char>)>,
    before: Map<Seq<char>, String>,
    after: Map<Seq<char>, String>,
    i: int,
    val: String,
)
    requires
        dests_distinct(cv),
        0 <= i < cv.len(),
        after == before.insert(cv[i].0, val),
        val@ == cv[i].1,
        forall|j: int| 0 <= j < i && cv[j].0 != cv[j].1 ==> #[trigger] before.contains_key(cv[j].0) && before[cv[j].0]@ == cv[j].1,
    ensures
        forall|j: int| 0 <= j < i + 1 && cv[j].0 != cv[j].1 ==> #[trigger] after.contains_key(cv[j].0) && after[cv[j].0]@ == cv[j].1,
{
    assert forall|j: int| 0 <= j < i + 1 && cv[j].0 != cv[j].1 implies #[trigger] after.contains_key(cv[j].0) && after[cv[j].0]@ == cv[j].1 by {
        if j < i {
            assert(cv[j].0 != cv[i].0);
            assert(before.contains_key(cv[j].0));
        }
    }
}

/// Binds the destination of each copy to its source, leaving out copies of a
/// variable into itself.
fn sources_by_destination(copies: &Vec<(String, String)>) -> (src_of: NameMap<String>)
    ensures
        src_of.wf(),
        src_of.view().dom().finite(),
        src_of.view().dom().len() == src_of.entries@.len(),
        src_of.entries@.len() <= copies@.len(),
        forall|d: Seq<char>| #[trigger] src_of.view().contains_key(d) ==> exists|j: int|
            0 <= j < copies@.len() && #[trigger] copies_view(copies@)[j].0 == d && copies_view(copies@)[j].0
                != copies_view(copies@)[j].1,
        dests_distinct(copies_view(copies@)) ==> forall|j: int|
            0 <= j < copies@.len() && copies_view(copies@)[j].0 != copies_view(copies@)[j].1
                ==> #[trigger] src_of.view().contains_key(copies_view(copies@)[j].0)
                && src_of.view()[copies_view(copies@)[j].0]@ == copies_view(copies@)[j].1,
{
    let ghost cv = copies_view(copies@);
    let mut src_of: NameMap<String> = NameMap::new();
    let mut i: usize = 0;
    while i < copies.len()
        invariant
            i <= copies@.len(),
            cv == copies_view(copies@),
            src_of.wf(),
            src_of.entries@.len() <= i,
            forall|d: Seq<char>| #[trigger] src_of.view().contains_key(d) ==> exists|j: int|
                0 <= j < i && #[trigger] cv[j].0 == d && cv[j].0 != cv[j].1,
            dests_distinct(cv) ==> forall|j: int|
                0 <= j < i && cv[j].0 != cv[j].1 ==> #[trigger] src_of.view().contains_key(cv[j].0)
                    && src_of.view()[cv[j].0]@ == cv[j].1,
        decreases copies@.len() - i,
    {
        let ghost before = src_of.view();
        assert(cv[i as int] == (copies@[i as int].0@, copies@[i as int].1@));
        let same = crate::text::same_text(&copies[i].0, copies[i].1.as_str());
        if same {
            proof {
                assert(cv[i as int].0 == cv[i as int].1);
                if dests_distinct(cv) {
                    assert forall|j: int|
                        0 <= j < i + 1 && cv[j].0 != cv[j].1 implies #[trigger] src_of.view().contains_key(cv[j].0)
                        && src_of.view()[cv[j].0]@ == cv[j].1 by {
                        assert(j < i);
                    }
                }
            }
        } else {
            let key = copies[i].0.clone();
            let val = copies[i].1.clone();
            assert(key@ == cv[i as int].0 && val@ == cv[i as int].1);
            src_of.insert(key, val);
            proof {
                assert(src_of.view() == before.insert(cv[i as int].0, val));
                assert forall|d: Seq<char>| #[trigger] src_of.view().contains_key(d) implies exists|j: int|
                    0 <= j < i + 1 && #[trigger] cv[j].0 == d && cv[j].0 != cv[j].1 by {
                    if d != cv[i as int].0 {
                        assert(before.contains_key(d));
                    }
                }
                if dests_distinct(cv) {
                    lemma_bind_step(cv, before, src_of.view(), i as int, val);
                    assert(forall|j: int|
                        0 <= j < i + 1 && cv[j].0 != cv[j].1 ==> #[trigger] src_of.view().contains_key(cv[j].0)
                            && src_of.view()[cv[j].0]@ == cv[j].1);
                }
            }
        }
        proof {
            if dests_distinct(cv) {
                assert(forall|j: int|
                    0 <= j < i + 1 && cv[j].0 != cv[j].1 ==> #[trigger] src_of.view().contains_key(cv[j].0)
                        && src_of.view()[cv[j].0]@ == cv[j].1);
            }
        }
        i = i + 1;
    }
    proof {
        lemma_seq_map_finite(src_of.entries@);
    }
    src_of
}

/// The destinations that no copy reads, in the order of the entries.
fn unread_destinations(src_of: &NameMap<String>) -> (ready: Vec<String>)
    requires
        src_of.wf(),
    ensures
        queue_ok(ready@, 0, src_of.view()),
{
    reveal(queue_ok);
    let mut ready: Vec<String> = Vec::new();
    let mut k: usize = 0;
    while k < src_of.entries.len()
        invariant
            src_of.wf(),
            k <= src_of.entries@.len(),
            forall|j: int| 0 <= j < ready@.len() ==> src_of.view().contains_key(#[trigger] ready@[j]@)
                && !is_read(src_of.view(), ready@[j]@),
            forall|j: int| 0 <= j < k && !is_read(src_of.view(), #[trigger] src_of.entries@[j].0@)
                ==> exists|r: int| 0 <= r < ready@.len() && #[trigger] ready@[r]@ == src_of.entries@[j].0@,
        decreases src_of.entries@.len() - k,
    {
        let ghost before = ready@;
        proof {
            lemma_seq_map_entry(src_of.entries@, k as int);
        }
        if !reads(src_of, &src_of.entries[k].0) {
            ready.push(src_of.entries[k].0.clone());
            proof {
                assert(ready@[ready@.len() - 1]@ == src_of.entries@[k as int].0@);
                assert forall|j: int| 0 <= j < k + 1 && !is_read(src_of.view(), #[trigger] src_of.entries@[j].0@)
                    implies exists|r: int| 0 <= r < ready@.len() && #[trigger] ready@[r]@ == src_of.entries@[j].0@ by {
                    if j < k {
                        let r = choose|r: int| 0 <= r < before.len() && #[trigger] before[r]@ == src_of.entries@[j].0@;
                        assert(ready@[r] == before[r]);
                    }
                }
            }
        }
        k = k + 1;
    }
    proof {
        assert forall|d: Seq<char>| #[trigger] src_of.view().contains_key(d) && !is_read(src_of.view(), d)
            implies exists|j: int| 0 <= j < ready@.len() && #[trigger] ready@[j]@ == d by {
            let j = crate::collections::seq_index(src_of.entries@, d);
            lemma_seq_map_entry(src_of.entries@, j);
            assert(!is_read(src_of.view(), src_of.entries@[j].0@));
        }
    }
    ready
}

/// No copy copies a variable into itself.
pub open spec fn no_self_copy(c: Seq<(Seq<char>, Seq<char>)>) -> bool {
    forall|j: int| 0 <= j < c.len() ==> (#[trigger] c[j]).0 != c[j].1
}

/// No pending copy copies a variable into itself.
spec fn pending_not_self(p: Map<Seq<char>, String>) -> bool {
    forall|d: Seq<char>| #[trigger] p.contains_key(d) ==> p[d]@ != d
}

/// `x` is the destination of a copy of `orig` of one variable into another.
pub open spec fn moving_dest(orig: Seq<(Seq<char>, Seq<char>)>, x: Seq<char>) -> bool {
    exists|j: int| 0 <= j < orig.len() && #[trigger] orig[j].0 == x && orig[j].0 != orig[j].1
}

/// Some copy of `res` writes `x`.
pub open spec fn written(res: Seq<(Seq<char>, Seq<char>)>, x: Seq<char>) -> bool {
    exists|i: int| 0 <= i < res.len() && #[trigger] res[i].0 == x
}

/// The copies `res` write each variable once: each destination of a copy of `orig`
/// of one variable into another, and the temporaries numbered from 0 below `n`,
/// and nothing else.
pub open spec fn writes_each_once(orig: Seq<(Seq<char>, Seq<char>)>, res: Seq<(Seq<char>, Seq<char>)>, n: nat) -> bool {
    &&& dests_distinct(res)
    &&& forall|i: int| 0 <= i < res.len() ==> moving_dest(orig, #[trigger] res[i].0) || exists|k: nat|
        k < n && #[trigger] seq_temp_name(k) == res[i].0
    &&& forall|k: nat| k < n ==> #[trigger] written(res, seq_temp_name(k))
    &&& forall|j: int| 0 <= j < orig.len() && orig[j].0 != orig[j].1 ==> #[trigger] written(res, orig[j].0)
}

/// What has been written so far: each destination once; the pending destinations are
/// destinations of `orig` not yet written, and every other destination of `orig` is
/// written.
spec fn writes_so_far(orig: Seq<(Seq<char>, Seq<char>)>, res: Seq<(Seq<char>, Seq<char>)>, p: Map<Seq<char>, String>, n: nat) -> bool {
    &&& dests_distinct(res)
    &&& forall|i: int| 0 <= i < res.len() ==> (moving_dest(orig, #[trigger] res[i].0) && !p.contains_key(res[i].0))
        || exists|k: nat| k < n && #[trigger] seq_temp_name(k) == res[i].0
    &&& forall|k: nat| k < n ==> #[trigger] written(res, seq_temp_name(k))
    &&& forall|x: Seq<char>| #[trigger] p.contains_key(x) ==> moving_dest(orig, x) && !is_seq_temp(x)
    &&& forall|j: int| 0 <= j < orig.len() && orig[j].0 != orig[j].1 ==> p.contains_key(#[trigger] orig[j].0) || written(res, orig[j].0)
}

proof fn lemma_writes_after_copy(
    orig: Seq<(Seq<char>, Seq<char>)>,
    res: Seq<(Seq<char>, Seq<char>)>,
    p: Map<Seq<char>, String>,
    n: nat,
    d: Seq<char>,
    s: Seq<char>,
)
    requires
        writes_so_far(orig, res, p, n),
        p.contains_key(d),
    ensures
        writes_so_far(orig, res.push((d, s)), p.remove(d), n),
{
    let r2 = res.push((d, s));
    let p2 = p.remove(d);
    assert forall|i: int, j: int| 0 <= i < r2.len() && 0 <= j < r2.len() && i != j implies #[trigger] r2[i].0 != #[trigger] r2[j].0 by {
        if i < res.len() && j < res.len() {
            assert(res[i].0 != res[j].0);
        } else {
            let o = if i < res.len() { i } else { j };
            assert(r2[o] == res[o]);
            if exists|k: nat| k < n && #[trigger] seq_temp_name(k) == res[o].0 {
                let k = choose|k: nat| k < n && #[trigger] seq_temp_name(k) == res[o].0;
                assert(is_seq_temp(seq_temp_name(k)));
            }
        }
    }
    assert forall|i: int| 0 <= i < r2.len() implies (moving_dest(orig, #[trigger] r2[i].0) && !p2.contains_key(r2[i].0))
        || exists|k: nat| k < n && #[trigger] seq_temp_name(k) == r2[i].0 by {
        if i < res.len() {
            assert(r2[i] == res[i]);
        }
    }
    assert forall|x: Seq<char>| #[trigger] written(res, x) implies written(r2, x) by {
        let i = choose|i: int| 0 <= i < res.len() && #[trigger] res[i].0 == x;
        assert(r2[i] == res[i]);
    }
    assert forall|k: nat| k < n implies #[trigger] written(r2, seq_temp_name(k)) by {
        assert(written(res, seq_temp_name(k)));
    }
    assert forall|j: int| 0 <= j < orig.len() && orig[j].0 != orig[j].1 implies p2.contains_key(#[trigger] orig[j].0) || written(r2, orig[j].0) by {
        if orig[j].0 == d {
            assert(r2[res.len() as int].0 == orig[j].0);
        } else if !p.contains_key(orig[j].0) {
            assert(written(res, orig[j].0));
        }
    }
}

proof fn lemma_writes_after_break(
    orig: Seq<(Seq<char>, Seq<char>)>,
    res: Seq<(Seq<char>, Seq<char>)>,
    p: Map<Seq<char>, String>,
    n: nat,
    d: Seq<char>,
    t: String,
)
    requires
        writes_so_far(orig, res, p, n),
        p.contains_key(d),
        t@ == seq_temp_name(n),
        no_temp_names(orig),
    ensures
        writes_so_far(orig, res.push((t@, p[d]@)), p.insert(d, t), n + 1),
{
    let r2 = res.push((t@, p[d]@));
    let p2 = p.insert(d, t);
    assert(p2.dom() =~= p.dom());
    assert forall|i: int, j: int| 0 <= i < r2.len() && 0 <= j < r2.len() && i != j implies #[trigger] r2[i].0 != #[trigger] r2[j].0 by {
        if i < res.len() && j < res.len() {
            assert(res[i].0 != res[j].0);
        } else {
            let o = if i < res.len() { i } else { j };
            assert(r2[o] == res[o]);
            if exists|k: nat| k < n && #[trigger] seq_temp_name(k) == res[o].0 {
                let k = choose|k: nat| k < n && #[trigger] seq_temp_name(k) == res[o].0;
                if res[o].0 == t@ {
                    lemma_seq_temp_name_injective(k, n);
                }
            } else {
                let jj = choose|jj: int| 0 <= jj < orig.len() && #[trigger] orig[jj].0 == res[o].0 && orig[jj].0 != orig[jj].1;
                assert(!is_seq_temp(orig[jj].0));
                assert(is_seq_temp(seq_temp_name(n)));
            }
        }
    }
    assert forall|i: int| 0 <= i < r2.len() implies (moving_dest(orig, #[trigger] r2[i].0) && !p2.contains_key(r2[i].0))
        || exists|k: nat| k < n + 1 && #[trigger] seq_temp_name(k) == r2[i].0 by {
        if i < res.len() {
            assert(r2[i] == res[i]);
        } else {
            assert(seq_temp_name(n) == r2[i].0);
        }
    }
    assert forall|x: Seq<char>| #[trigger] written(res, x) implies written(r2, x) by {
        let i = choose|i: int| 0 <= i < res.len() && #[trigger] res[i].0 == x;
        assert(r2[i] == res[i]);
    }
    assert forall|k: nat| k < n + 1 implies #[trigger] written(r2, seq_temp_name(k)) by {
        if k < n {
            assert(written(res, seq_temp_name(k)));
        } else {
            assert(r2[res.len() as int].0 == seq_temp_name(k));
        }
    }
    assert forall|j: int| 0 <= j < orig.len() && orig[j].0 != orig[j].1 implies p2.contains_key(#[trigger] orig[j].0) || written(r2, orig[j].0) by {
        if !p.contains_key(orig[j].0) {
            assert(written(res, orig[j].0));
        }
    }
}

/// The state of a sequentialization: the pending copies (destination to source),
/// the queue of destinations that may be written, the copies emitted so far and the
/// number of temporaries made.
struct CopySchedule {
    src_of: NameMap<String>,
    ready: Vec<String>,
    head: usize,
    result: Vec<(String, String)>,
    next: usize,
}

impl CopySchedule {
    spec fn pending(&self) -> Map<Seq<char>, String> {
        self.src_of.view()
    }

    spec fn inv(&self, orig: Seq<(Seq<char>, Seq<char>)>, lawful: bool, n0: nat) -> bool {
        &&& self.src_of.wf()
        &&& self.pending().dom().finite()
        &&& self.pending().dom().len() == self.src_of.entries@.len()
        &&& self.head <= self.ready@.len()
        &&& queue_ok(self.ready@, self.head as int, self.pending())
        &&& self.next + linked(self.pending()).len() <= n0
        &&& linked(self.pending()).len() <= self.src_of.entries@.len()
        &&& n0 <= usize::MAX
        &&& lawful ==> sequencing_ok(orig, copies_view(self.result@), self.pending(), self.next as nat)
        &&& lawful ==> no_self_copy(copies_view(self.result@)) && pending_not_self(self.pending())
        &&& lawful ==> writes_so_far(orig, copies_view(self.result@), self.pending(), self.next as nat)
        &&& lawful ==> no_temp_names(orig)
    }

    spec fn measure(&self) -> nat {
        self.src_of.entries@.len() + linked(self.pending()).len()
    }

    /// Takes the next queued destination and, if its copy is pending, emits it.
    fn run_one(&mut self, Ghost(orig): Ghost<Seq<(Seq<char>, Seq<char>)>>, Ghost(lawful): Ghost<bool>, Ghost(n0): Ghost<nat>)
        requires
            old(self).inv(orig, lawful, n0),
            old(self).head < old(self).ready@.len(),
        ensures
            final(self).inv(orig, lawful, n0),
            final(self).measure() <= old(self).measure(),
            final(self).src_of.entries@.len() < old(self).src_of.entries@.len() || (final(self).src_of.entries@.len()
                == old(self).src_of.entries@.len() && final(self).ready@.len() - final(self).head < old(self).ready@.len()
                - old(self).head),
    {
        reveal(queue_ok);
        reveal(sequencing_ok);
        let len = self.ready.len();
        let d = self.ready[self.head].clone();
        let ghost p = self.pending();
        let ghost q = self.ready@;
        let ghost h = self.head as int;
        let ghost res0 = copies_view(self.result@);
        self.head = self.head + 1;
        match self.src_of.remove(&d) {
            Some(s) => {
                let ghost p2 = self.pending();
                proof {
                    lemma_seq_map_finite(self.src_of.entries@);
                    lemma_linked_remove(p, d@);
                    lemma_linked_remove(p2, d@);
                }
                self.result.push((d, s.clone()));
                proof {
                    assert(copies_view(self.result@) =~= res0.push((d@, s@)));
                    if lawful {
                        lemma_writes_after_copy(orig, res0, p, self.next as nat, d@, s@);
                        assert(p[d@]@ != d@);
                        assert(no_self_copy(copies_view(self.result@)));
                        assert(pending_not_self(p2));
                        assert(!is_read(p, d@));
                        assert forall|env: spec_fn(Seq<char>) -> int| #[trigger] copies_agree(
                            orig,
                            copies_view(self.result@),
                            p2,
                            env,
                        ) by {
                            lemma_agree_after_copy(orig, res0, p, d@, env);
                        }
                        assert forall|y: Seq<char>| #[trigger] p2.contains_key(y) implies !is_seq_temp(p2[y]@)
                            || exists|k: nat| k < self.next && #[trigger] seq_temp_name(k) == p2[y]@ by {
                            assert(p.contains_key(y));
                        }
                    }
                }
                if !reads(&self.src_of, &s) && self.src_of.contains(&s) {
                    self.ready.push(s);
                }
                proof {
                    let q2 = self.ready@;
                    assert forall|j: int| self.head <= j < q2.len() && p2.contains_key(#[trigger] q2[j]@) implies !is_read(
                        p2,
                        q2[j]@,
                    ) by {
                        if j < q.len() {
                            assert(q2[j] == q[j]);
                            assert(!is_read(p, q[j]@));
                        }
                    }
                    assert forall|x: Seq<char>| #[trigger] p2.contains_key(x) && !is_read(p2, x) implies exists|j: int|
                        self.head <= j < q2.len() && #[trigger] q2[j]@ == x by {
                        if x == s@ {
                            assert(q2[q2.len() - 1]@ == x);
                        } else {
                            if is_read(p, x) {
                                let y = choose|y: Seq<char>| #[trigger] p.contains_key(y) && p[y]@ == x;
                                assert(p2.contains_key(y));
                            }
                            let j = choose|j: int| h <= j < q.len() && #[trigger] q[j]@ == x;
                            assert(q2[j] == q[j]);
                        }
                    }
                }
            },
            None => {
                proof {
                    assert(self.pending() =~= p);
                    let q2 = self.ready@;
                    assert forall|x: Seq<char>| #[trigger] p.contains_key(x) && !is_read(p, x) implies exists|j: int|
                        self.head <= j < q2.len() && #[trigger] q2[j]@ == x by {
                        let j = choose|j: int| h <= j < q.len() && #[trigger] q[j]@ == x;
                        assert(j != h);
                    }
                }
            },
        }
    }

    /// Emits queued copies until the queue is empty.
    fn run_ready(&mut self, Ghost(orig): Ghost<Seq<(Seq<char>, Seq<char>)>>, Ghost(lawful): Ghost<bool>, Ghost(n0): Ghost<nat>)
        requires
            old(self).inv(orig, lawful, n0),
        ensures
            final(self).inv(orig, lawful, n0),
            final(self).measure() <= old(self).measure(),
            final(self).head == final(self).ready@.len(),
    {
        let ghost m0 = self.measure();
        while self.head < self.ready.len()
            invariant
                self.inv(orig, lawful, n0),
                self.measure() <= m0,
            decreases self.src_of.entries@.len(), self.ready@.len() - self.head,
        {
            self.run_one(Ghost(orig), Ghost(lawful), Ghost(n0));
        }
    }

    /// Emits a copy of the source of entry `i` into `t`, and lets the copy of entry
    /// `i` read `t`.
    fn save_source(&mut self, i: usize, t: String)
        requires
            old(self).src_of.wf(),
            i < old(self).src_of.entries@.len(),
        ensures
            final(self).src_of.wf(),
            final(self).pending() == old(self).pending().insert(old(self).src_of.entries@[i as int].0@, t),
            final(self).src_of.entries@.len() == old(self).src_of.entries@.len(),
            copies_view(final(self).result@) == copies_view(old(self).result@).push(
                (t@, old(self).src_of.entries@[i as int].1@),
            ),
            final(self).ready == old(self).ready,
            final(self).head == old(self).head,
            final(self).next == old(self).next,
    {
        proof {
            lemma_seq_map_entry(self.src_of.entries@, i as int);
        }
        let d = self.src_of.entries[i].0.clone();
        let s = self.src_of.entries[i].1.clone();
        let ghost res0 = self.result@;
        self.result.push((t.clone(), s));
        proof {
            assert(copies_view(self.result@) =~= copies_view(res0).push((t@, old(self).src_of.entries@[i as int].1@)));
        }
        self.src_of.insert(d, t);
    }

    /// Saves the source of entry `i` in the temporary `t`, lets the copy of entry `i`
    /// read `t`, and queues the old source where nothing reads it any more.
    #[verifier::spinoff_prover]
    fn cut(&mut self, i: usize, t: String, Ghost(orig): Ghost<Seq<(Seq<char>, Seq<char>)>>, Ghost(lawful): Ghost<bool>, Ghost(n0): Ghost<nat>)
        requires
            old(self).inv(orig, lawful, n0),
            old(self).head == old(self).ready@.len(),
            i < old(self).src_of.entries@.len(),
            old(self).pending().contains_key(old(self).src_of.entries@[i as int].0@),
            old(self).pending()[old(self).src_of.entries@[i as int].0@] == old(self).src_of.entries@[i as int].1,
            old(self).pending().contains_key(old(self).src_of.entries@[i as int].1@),
            !old(self).pending().contains_key(t@),
            t@ == seq_temp_name(old(self).next as nat),
        ensures
            final(self).inv(orig, lawful, n0),
            final(self).measure() < old(self).measure(),
    {
        let ghost p = self.pending();
        let ghost q = self.ready@;
        let ghost res0 = copies_view(self.result@);
        let ghost next0 = self.next as nat;
        let ghost d = self.src_of.entries@[i as int].0@;
        let ghost tv = t;
        let s = self.src_of.entries[i].1.clone();
        self.save_source(i, t);
        proof {
            lemma_seq_map_finite(self.src_of.entries@);
            lemma_linked_break(p, d, tv);
            assert(linked(p).contains(d));
            assert(self.pending().dom() =~= p.dom());
            if lawful {
                assert(tv@ == seq_temp_name(next0));
                lemma_break_sequencing(orig, res0, p, d, tv, next0);
                lemma_writes_after_break(orig, res0, p, next0, d, tv);
                reveal(sequencing_ok);
                let sv0 = p[d]@;
                assert(is_seq_temp(tv@));
                assert(!is_seq_temp(sv0));
                assert(!is_seq_temp(d));
                assert(copies_view(self.result@) == res0.push((tv@, sv0)));
                assert(no_self_copy(copies_view(self.result@)));
                assert(pending_not_self(self.pending()));
            }
        }
        self.next = self.next + 1;
        let ghost sv = s;
        let pushed = enqueue_if_free(&mut self.ready, &self.src_of, s);
        proof {
            lemma_break_queue(q, self.ready@, self.head as int, p, d, tv, sv, pushed);
        }
    }

    /// When every pending destination is still read, saves the source of the first
    /// copy that reads a pending destination in a fresh temporary and lets that copy
    /// read the temporary. Returns `false`, changing nothing, where the temporary's
    /// name is already a pending destination.
    fn break_cycle(&mut self, Ghost(orig): Ghost<Seq<(Seq<char>, Seq<char>)>>, Ghost(lawful): Ghost<bool>, Ghost(n0): Ghost<nat>) -> (ok: bool)
        requires
            old(self).inv(orig, lawful, n0),
            old(self).head == old(self).ready@.len(),
            old(self).src_of.entries@.len() > 0,
        ensures
            ok ==> final(self).inv(orig, lawful, n0),
            ok ==> final(self).measure() < old(self).measure(),
            !ok ==> !lawful && *final(self) == *old(self),
    {
        proof {
            lemma_drained_all_read(self.ready@, self.head as int, self.pending());
        }
        let i = first_linked(&self.src_of);
        let t = seq_temp(self.next);
        if self.src_of.contains(&t) {
            proof {
                if lawful {
                    assert(is_seq_temp(t@)) by {
                        assert(seq_temp_name(self.next as nat) == t@);
                    }
                    lemma_pending_not_temp(orig, copies_view(self.result@), self.pending(), self.next as nat, t@);
                }
            }
            return false;
        }
        self.cut(i, t, Ghost(orig), Ghost(lawful), Ghost(n0));
        true
    }
}

/// No pending destination is a temporary.
proof fn lemma_pending_not_temp(
    orig: Seq<(Seq<char>, Seq<char>)>,
    res: Seq<(Seq<char>, Seq<char>)>,
    p: Map<Seq<char>, String>,
    next: nat,
    x: Seq<char>,
)
    requires
        sequencing_ok(orig, res, p, next),
        is_seq_temp(x),
    ensures
        !p.contains_key(x),
{
    reveal(sequencing_ok);
}

/// Queues `s` where it is a pending destination that no pending copy reads.
fn enqueue_if_free(ready: &mut Vec<String>, src_of: &NameMap<String>, s: String) -> (pushed: bool)
    requires
        src_of.wf(),
    ensures
        pushed == (!is_read(src_of.view(), s@) && src_of.view().contains_key(s@)),
        pushed ==> final(ready)@ == old(ready)@.push(s),
        !pushed ==> final(ready)@ == old(ready)@,
{
    if !reads(src_of, &s) && src_of.contains(&s) {
        ready.push(s);
        true
    } else {
        false
    }
}

/// Once the queue is drained, every pending destination is read by a pending copy.
proof fn lemma_drained_all_read(q: Seq<String>, head: int, p: Map<Seq<char>, String>)
    requires
        queue_ok(q, head, p),
        head == q.len(),
    ensures
        forall|d: Seq<char>| #[trigger] p.contains_key(d) ==> is_read(p, d),
{
    reveal(queue_ok);
    assert forall|d: Seq<char>| #[trigger] p.contains_key(d) implies is_read(p, d) by {
        if !is_read(p, d) {
            let j = choose|j: int| head <= j < q.len() && #[trigger] q[j]@ == d;
        }
    }
}

/// Saving the source of a pending copy in the next temporary keeps the state in
/// agreement with the parallel copies.
proof fn lemma_break_sequencing(
    orig: Seq<(Seq<char>, Seq<char>)>,
    res: Seq<(Seq<char>, Seq<char>)>,
    p: Map<Seq<char>, String>,
    d: Seq<char>,
    t: String,
    next: nat,
)
    requires
        sequencing_ok(orig, res, p, next),
        p.contains_key(d),
        t@ == seq_temp_name(next),
    ensures
        sequencing_ok(orig, res.push((t@, p[d]@)), p.insert(d, t), next + 1),
{
    reveal(sequencing_ok);
    let p2 = p.insert(d, t);
    assert(is_seq_temp(t@));
    assert forall|y: Seq<char>| #[trigger] p.contains_key(y) implies p[y]@ != t@ by {
        if is_seq_temp(p[y]@) {
            let k = choose|k: nat| k < next && #[trigger] seq_temp_name(k) == p[y]@;
            if p[y]@ == t@ {
                lemma_seq_temp_name_injective(k, next);
            }
        }
    }
    assert forall|env: spec_fn(Seq<char>) -> int| #[trigger] copies_agree(orig, res.push((t@, p[d]@)), p2, env) by {
        lemma_agree_after_break(orig, res, p, d, t, env);
    }
    assert forall|y: Seq<char>| #[trigger] p2.contains_key(y) implies !is_seq_temp(p2[y]@)
        || exists|k: nat| k < next + 1 && #[trigger] seq_temp_name(k) == p2[y]@ by {
        if y == d {
            assert(seq_temp_name(next) == p2[y]@);
        } else {
            assert(p.contains_key(y));
            if is_seq_temp(p[y]@) {
                let k = choose|k: nat| k < next && #[trigger] seq_temp_name(k) == p[y]@;
                assert(seq_temp_name(k) == p2[y]@);
            }
        }
    }
    assert forall|y: Seq<char>| #[trigger] p2.contains_key(y) implies !is_seq_temp(y) by {
        assert(p.contains_key(y));
    }
}

/// After a cycle is broken, the queue, extended by the old source of the copy where
/// nothing reads it any more and it is pending, is still complete and safe.
proof fn lemma_break_queue(
    q: Seq<String>,
    q2: Seq<String>,
    head: int,
    p: Map<Seq<char>, String>,
    d: Seq<char>,
    t: String,
    x: String,
    pushed: bool,
)
    requires
        queue_ok(q, head, p),
        head == q.len(),
        p.contains_key(d),
        !p.contains_key(t@),
        x@ == p[d]@,
        pushed == (!is_read(p.insert(d, t), x@) && p.insert(d, t).contains_key(x@)),
        pushed ==> q2 == q.push(x),
        !pushed ==> q2 == q,
    ensures
        queue_ok(q2, head, p.insert(d, t)),
{
    reveal(queue_ok);
    let p2 = p.insert(d, t);
    let s = p[d]@;
    assert forall|x: Seq<char>| #[trigger] p2.contains_key(x) && !is_read(p2, x) implies exists|j: int|
        head <= j < q2.len() && #[trigger] q2[j]@ == x by {
        if x == s {
            assert(q2[q.len() as int]@ == x);
        } else {
            assert(p.contains_key(x));
            let y = choose|y: Seq<char>| #[trigger] p.contains_key(y) && p[y]@ == x;
            assert(y != d);
            assert(p2.contains_key(y) && p2[y]@ == x);
        }
    }
    assert forall|j: int| head <= j < q2.len() && p2.contains_key(#[trigger] q2[j]@) implies !is_read(p2, q2[j]@) by {
        assert(j == q.len());
    }
}

/// Orders a set of parallel copies `(destination, source)` into sequential copies
/// with the same effect, breaking cycles with fresh temporaries `_seq_NNN`.
///
/// Copies of a variable into itself are dropped. A copy runs once no pending copy
/// reads its destination; when every pending destination is still read, the source
/// of the first copy that reads a pending destination is saved in a temporary.
/// Where the copies have distinct destinations and name no such temporary, running
/// the result one copy after the other leaves every variable but the temporaries
/// with the value that the parallel copies give it, and writes each destination of a
/// copy of one variable into another once, and each temporary, numbered from
/// `_seq_000` on, once. Copies that all copy a variable into itself give no copy.
/// Where a temporary's name is already a pending destination, the copies emitted so
/// far are returned.
pub fn sequentialize_parallel_copies(copies: Vec<(String, String)>) -> (result: Vec<(String, String)>)
    ensures
        dests_distinct(copies_view(copies@)) && no_temp_names(copies_view(copies@)) ==> forall|
            env: spec_fn(Seq<char>) -> int,
            x: Seq<char>,
        |
            !is_seq_temp(x) ==> #[trigger] run_copies(copies_view(result@), env)(x) == parallel_value(
                copies_view(copies@),
                env,
                x,
            ),
        dests_distinct(copies_view(copies@)) && no_temp_names(copies_view(copies@)) ==> no_self_copy(copies_view(result@)),
        dests_distinct(copies_view(copies@)) && no_temp_names(copies_view(copies@)) ==> exists|n: nat|
            writes_each_once(copies_view(copies@), copies_view(result@), n),
        (forall|j: int| 0 <= j < copies@.len() ==> copies@[j].0@ == copies@[j].1@) ==> result@.len() == 0,
{
    reveal(sequencing_ok);
    reveal(queue_ok);
    let ghost cv = copies_view(copies@);
    let ghost lawful = dests_distinct(cv) && no_temp_names(cv);
    let count = copies.len();
    let src_of = sources_by_destination(&copies);
    let ready = unread_destinations(&src_of);
    let ghost n0: nat = linked(src_of.view()).len();
    proof {
        lemma_linked_remove(src_of.view(), Seq::empty());
        if lawful {
            let p = src_of.view();
            assert forall|env: spec_fn(Seq<char>) -> int| #[trigger] copies_agree(cv, Seq::empty(), p, env) by {
                assert forall|d: Seq<char>| #[trigger] p.contains_key(d) implies run_copies(Seq::empty(), env)(p[d]@)
                    == parallel_value(cv, env, d) by {
                    let j = choose|j: int| 0 <= j < copies@.len() && #[trigger] cv[j].0 == d && cv[j].0 != cv[j].1;
                    assert(is_dest(cv, d));
                    let c = choose|c: int| 0 <= c < cv.len() && #[trigger] cv[c].0 == d;
                    assert(c == j);
                }
                assert forall|x: Seq<char>| !is_seq_temp(x) && !p.contains_key(x) implies #[trigger] run_copies(
                    Seq::empty(),
                    env,
                )(x) == parallel_value(cv, env, x) by {
                    if is_dest(cv, x) {
                        let c = choose|c: int| 0 <= c < cv.len() && #[trigger] cv[c].0 == x;
                        assert(cv[c].0 == cv[c].1);
                    }
                }
            }
            assert forall|d: Seq<char>| #[trigger] p.contains_key(d) implies !is_seq_temp(d) && !is_seq_temp(p[d]@) by {
                let j = choose|j: int| 0 <= j < copies@.len() && #[trigger] cv[j].0 == d && cv[j].0 != cv[j].1;
                assert(!is_seq_temp(cv[j].0) && !is_seq_temp(cv[j].1));
            }
            assert forall|d: Seq<char>| #[trigger] p.contains_key(d) implies p[d]@ != d by {
                let j = choose|j: int| 0 <= j < copies@.len() && #[trigger] cv[j].0 == d && cv[j].0 != cv[j].1;
            }
        }
    }
    let ghost moving = exists|j: int| 0 <= j < copies@.len() && copies@[j].0@ != copies@[j].1@;
    proof {
        if !moving {
            assert forall|d: Seq<char>| !(#[trigger] src_of.view().contains_key(d)) by {
                if src_of.view().contains_key(d) {
                    let j = choose|j: int| 0 <= j < copies@.len() && #[trigger] cv[j].0 == d && cv[j].0 != cv[j].1;
                    assert(cv[j] == (copies@[j].0@, copies@[j].1@));
                }
            }
            assert(src_of.view().dom() =~= Set::<Seq<char>>::empty());
        }
    }
    let mut st = CopySchedule { src_of, ready, head: 0, result: Vec::new(), next: 0 };
    proof {
        assert(copies_view(st.result@) =~= Seq::<(Seq<char>, Seq<char>)>::empty());
        if lawful {
            let p = st.pending();
            let res = copies_view(st.result@);
            assert forall|x: Seq<char>| #[trigger] p.contains_key(x) implies moving_dest(cv, x) && !is_seq_temp(x) by {
                let j = choose|j: int| 0 <= j < copies@.len() && #[trigger] cv[j].0 == x && cv[j].0 != cv[j].1;
            }
            assert(writes_so_far(cv, res, p, 0));
        }
    }
    if st.src_of.len() == 0 {
        proof {
            if lawful {
                let p = st.pending();
                assert forall|env: spec_fn(Seq<char>) -> int, x: Seq<char>| !is_seq_temp(x) implies #[trigger] run_copies(
                    copies_view(st.result@),
                    env,
                )(x) == parallel_value(cv, env, x) by {
                    assert(copies_agree(cv, copies_view(st.result@), p, env));
                    if p.contains_key(x) {
                        assert(p.dom().contains(x));
                    }
                }
                assert(writes_each_once(cv, copies_view(st.result@), 0)) by {
                    assert forall|j: int| 0 <= j < cv.len() && cv[j].0 != cv[j].1 implies #[trigger] written(copies_view(st.result@), cv[j].0) by {
                        assert(!p.dom().contains(cv[j].0));
                    }
                }
            }
        }
        return st.result;
    }
    proof {
        assert(moving);
    }
    while st.src_of.len() > 0
        invariant
            cv == copies_view(copies@),
            lawful == (dests_distinct(cv) && no_temp_names(cv)),
            st.inv(cv, lawful, n0),
            exists|j: int| 0 <= j < copies@.len() && copies@[j].0@ != copies@[j].1@,
        decreases st.measure(),
    {
        st.run_ready(Ghost(cv), Ghost(lawful), Ghost(n0));
        if st.src_of.len() > 0 {
            if !st.break_cycle(Ghost(cv), Ghost(lawful), Ghost(n0)) {
                proof {
                    let j = choose|j: int| 0 <= j < copies@.len() && copies@[j].0@ != copies@[j].1@;
                    assert(copies@[j].0@ != copies@[j].1@);
                }
                return st.result;
            }
        }
    }
    proof {
        if lawful {
            let p = st.pending();
            assert forall|env: spec_fn(Seq<char>) -> int, x: Seq<char>| !is_seq_temp(x) implies #[trigger] run_copies(
                copies_view(st.result@),
                env,
            )(x) == parallel_value(cv, env, x) by {
                assert(copies_agree(cv, copies_view(st.result@), p, env));
                if p.contains_key(x) {
                    assert(p.dom().contains(x));
                }
            }
            let res = copies_view(st.result@);
            let nt = st.next as nat;
            assert(writes_so_far(cv, res, p, nt));
            assert(dests_distinct(res));
            assert forall|i: int| 0 <= i < res.len() implies moving_dest(cv, #[trigger] res[i].0) || exists|k: nat|
                k < nt && #[trigger] seq_temp_name(k) == res[i].0 by {}
            assert forall|j: int| 0 <= j < cv.len() && cv[j].0 != cv[j].1 implies #[trigger] written(res, cv[j].0) by {
                assert(!p.dom().contains(cv[j].0));
            }
            assert(writes_each_once(cv, res, nt));
        }
    }
    st.result
}

// ---------------------------------------------------------------------------
// Copies and temporaries in the graph
// ---------------------------------------------------------------------------

/// The name of the `k`-th temporary that isolates a φ-function.
#[verifier::opaque]
pub open spec fn tmp_name(k: nat) -> Seq<char> {
    "tmp_"@ + zero_padded(decimal(k), 3)
}

/// Different temporaries that isolate φ-functions have different names.
pub proof fn lemma_tmp_name_injective(a: nat, b: nat)
    requires
        tmp_name(a) == tmp_name(b),
    ensures
        a == b,
{
    reveal(tmp_name);
    reveal_strlit("tmp_");
    let pa = zero_padded(decimal(a), 3);
    let pb = zero_padded(decimal(b), 3);
    assert(tmp_name(a).skip(4) =~= pa);
    assert(tmp_name(b).skip(4) =~= pb);
    lemma_decimal_value_padded(decimal(a), 3);
    lemma_decimal_value_padded(decimal(b), 3);
    lemma_decimal_value_of_decimal(a);
    lemma_decimal_value_of_decimal(b);
}

/// The number of temporaries that isolating the φ-functions of `b` takes: one for
/// each φ-function, and one for each φ-function and predecessor.
pub open spec fn temps_of(b: BasicBlock) -> nat {
    b.phi_functions@.len() + b.phi_functions@.len() * b.predecessors@.len()
}

/// The number of temporaries that isolating the φ-functions of `blocks` takes.
pub open spec fn isolation_temps(blocks: Seq<BasicBlock>) -> nat
    decreases blocks.len(),
{
    if blocks.len() == 0 {
        0
    } else {
        isolation_temps(blocks.drop_last()) + temps_of(blocks.last())
    }
}

/// Operand `q` of φ-function `k` of `ob` is the first that comes from some
/// predecessor of `ob`: isolation gives it a temporary.
pub open spec fn reads_temp_at(ob: BasicBlock, k: int, q: int) -> bool {
    &&& 0 <= k < ob.phi_functions@.len()
    &&& 0 <= q < ob.phi_functions@[k].possibilities@.len()
    &&& ob.predecessors@.contains(ob.phi_functions@[k].possibilities@[q].block)
    &&& forall|q2: int| 0 <= q2 < q ==> (#[trigger] ob.phi_functions@[k].possibilities@[q2]).block
        != ob.phi_functions@[k].possibilities@[q].block
}

/// The temporaries that isolate the φ-functions of `ob` in `nb` are numbered: the
/// output of φ-function `k` is temporary `s + k`, and each operand that reads a
/// temporary reads its own, numbered by `ix` from `s` plus the number of φ-functions
/// up to `e`.
pub open spec fn temps_indexed(nb: BasicBlock, ob: BasicBlock, s: nat, e: nat, ix: spec_fn(int, int) -> nat) -> bool {
    let n = ob.phi_functions@.len();
    &&& s + n <= e
    &&& forall|k: int| 0 <= k < n ==> (#[trigger] nb.phi_functions@[k]).output@ == tmp_name((s + k) as nat)
    &&& forall|k: int, q: int| #[trigger] reads_temp_at(ob, k, q) ==> s + n <= ix(k, q) < e
        && nb.phi_functions@[k].possibilities@[q].variable@ == tmp_name(ix(k, q))
    &&& forall|k1: int, q1: int, k2: int, q2: int|
        #[trigger] reads_temp_at(ob, k1, q1) && #[trigger] reads_temp_at(ob, k2, q2) && (k1 != k2 || q1 != q2)
            ==> ix(k1, q1) != ix(k2, q2)
}

/// The name at a place that isolation gives a temporary: the output of φ-function
/// `k` of block `i` where `q` is negative, else its operand `q`.
pub open spec fn temp_at(g: CFG, i: int, k: int, q: int) -> Seq<char> {
    if q < 0 {
        g.blocks@[i].phi_functions@[k].output@
    } else {
        g.blocks@[i].phi_functions@[k].possibilities@[q].variable@
    }
}

/// A place of block `i` of `orig` that isolation gives a temporary: the output of a
/// φ-function (`q == -1`), or an operand that `reads_temp_at` names.
pub open spec fn temp_place(orig: CFG, i: int, k: int, q: int) -> bool {
    &&& 0 <= i < orig.blocks@.len()
    &&& 0 <= k < orig.blocks@[i].phi_functions@.len()
    &&& (q == -1 || reads_temp_at(orig.blocks@[i], k, q))
}

proof fn lemma_temps_indexed_same(nb: BasicBlock, ob1: BasicBlock, ob2: BasicBlock, s: nat, e: nat, ix: spec_fn(int, int) -> nat)
    requires
        temps_indexed(nb, ob1, s, e, ix),
        ob1.phi_functions@ == ob2.phi_functions@,
        ob1.predecessors@ == ob2.predecessors@,
    ensures
        temps_indexed(nb, ob2, s, e, ix),
{
    assert forall|k: int, q: int| reads_temp_at(ob2, k, q) == reads_temp_at(ob1, k, q) by {}
}

proof fn lemma_isolation_step(blocks: Seq<BasicBlock>, b: int)
    requires
        0 <= b < blocks.len(),
    ensures
        isolation_temps(blocks.take(b + 1)) == isolation_temps(blocks.take(b)) + temps_of(blocks[b]),
{
    assert(blocks.take(b + 1).drop_last() =~= blocks.take(b));
}

proof fn lemma_isolation_mono(blocks: Seq<BasicBlock>, i: int, j: int)
    requires
        0 <= i <= j <= blocks.len(),
    ensures
        isolation_temps(blocks.take(i)) <= isolation_temps(blocks.take(j)),
    decreases j - i,
{
    if i < j {
        lemma_isolation_mono(blocks, i, j - 1);
        lemma_isolation_step(blocks, j - 1);
    }
}

/// Places that isolation gives temporaries, numbered block after block, hold
/// different names.
proof fn lemma_temps_distinct(
    g: CFG,
    orig: CFG,
    ixs: Seq<spec_fn(int, int) -> nat>,
    i1: int,
    k1: int,
    q1: int,
    i2: int,
    k2: int,
    q2: int,
)
    requires
        ixs.len() == orig.blocks@.len(),
        g.blocks@.len() == orig.blocks@.len(),
        forall|i: int| 0 <= i < orig.blocks@.len() && orig.blocks@[i].phi_functions@.len() > 0 ==> #[trigger] temps_indexed(
            g.blocks@[i],
            orig.blocks@[i],
            isolation_temps(orig.blocks@.take(i)),
            isolation_temps(orig.blocks@.take(i + 1)),
            ixs[i],
        ),
        temp_place(orig, i1, k1, q1),
        temp_place(orig, i2, k2, q2),
        i1 != i2 || k1 != k2 || q1 != q2,
    ensures
        temp_at(g, i1, k1, q1) != temp_at(g, i2, k2, q2),
{
    let bl = orig.blocks@;
    let idx = |i: int, k: int, q: int| -> nat {
        if q < 0 {
            (isolation_temps(bl.take(i)) + k) as nat
        } else {
            ixs[i](k, q)
        }
    };
    assert forall|i: int, k: int, q: int| #[trigger] temp_place(orig, i, k, q) implies temp_at(g, i, k, q) == tmp_name(idx(i, k, q))
        && isolation_temps(bl.take(i)) <= idx(i, k, q) < isolation_temps(bl.take(i + 1))
        && (q < 0 <==> idx(i, k, q) < isolation_temps(bl.take(i)) + bl[i].phi_functions@.len()) by {
        assert(temps_indexed(g.blocks@[i], bl[i], isolation_temps(bl.take(i)), isolation_temps(bl.take(i + 1)), ixs[i]));
        if q < 0 {
            assert(g.blocks@[i].phi_functions@[k].output@ == tmp_name((isolation_temps(bl.take(i)) + k) as nat));
        }
    }
    if temp_at(g, i1, k1, q1) == temp_at(g, i2, k2, q2) {
        lemma_tmp_name_injective(idx(i1, k1, q1), idx(i2, k2, q2));
        if i1 < i2 {
            lemma_isolation_mono(bl, i1 + 1, i2);
        } else if i2 < i1 {
            lemma_isolation_mono(bl, i2 + 1, i1);
        } else {
            assert(temps_indexed(g.blocks@[i1], bl[i1], isolation_temps(bl.take(i1)), isolation_temps(bl.take(i1 + 1)), ixs[i1]));
            if q1 >= 0 && q2 >= 0 {
                assert(reads_temp_at(bl[i1], k1, q1) && reads_temp_at(bl[i1], k2, q2));
            }
        }
    }
}

/// Whether a name is one of the temporaries that isolate φ-functions.
pub open spec fn is_tmp_name(x: Seq<char>) -> bool {
    exists|k: nat| #[trigger] tmp_name(k) == x
}

/// Whether `stmt` is the copy `output = input`.
pub open spec fn is_copy(stmt: Statement, output: Seq<char>, input: Seq<char>) -> bool {
    &&& stmt@.output == Some(output)
    &&& stmt@.num_type.is_none()
    &&& stmt@.operator.is_none()
    &&& stmt@.operands == seq![SpecExpression::Atomic(SpecAtomic::Variable(input))]
}

impl CFG {
    /// Builds a copy statement: output <- input
    pub fn make_copy(output: String, input: String) -> (stmt: Statement)
        ensures
            is_copy(stmt, output@, input@),
            stmt.spec_copy_source() == Some(input@),
    {
        let mut operands = Vec::new();
        operands.push(Expression::Atomic(Atomic::Variable(input)));
        let stmt = Statement { num_type: None, output: Some(output), value: Value { operator: None, operands } };
        proof {
            assert(stmt@.operands =~= seq![SpecExpression::Atomic(SpecAtomic::Variable(input@))]);
        }
        stmt
    }

    /// Builds a fresh temporary variable name `tmp_NNN` and advances the counter.
    pub fn fresh_tmp(next_tmp: &mut usize) -> (name: String)
        ensures
            name@ == tmp_name(*old(next_tmp) as nat),
            *final(next_tmp) == (*old(next_tmp)).wrapping_add(1),
    {
        let mut name = String::new();
        push_text(&mut name, "tmp_");
        push_padded_decimal(&mut name, *next_tmp, 3);
        proof {
            reveal(tmp_name);
            assert(Seq::<char>::empty() + "tmp_"@ + zero_padded(decimal(*old(next_tmp) as nat), 3) =~= tmp_name(
                *old(next_tmp) as nat,
            ));
        }
        *next_tmp = (*next_tmp).wrapping_add(1);
        name
    }
}

/// Two blocks agree on their id, predecessors, successors' targets, φ-uses and
/// live sets.
pub open spec fn same_frame(a: BasicBlock, b: BasicBlock) -> bool {
    &&& a.id == b.id
    &&& a.predecessors@ == b.predecessors@
    &&& succ_targets(a.successors) == succ_targets(b.successors)
    &&& a.phi_uses == b.phi_uses
    &&& a.live_in@ == b.live_in@
    &&& a.live_out@ == b.live_out@
}

/// Two lists of φ-functions agree in length and in the blocks of their operands.
pub open spec fn same_phi_shape(a: Seq<PhiFunction>, b: Seq<PhiFunction>) -> bool {
    &&& a.len() == b.len()
    &&& forall|k: int| 0 <= k < a.len() ==> (#[trigger] a[k]).possibilities@.len() == b[k].possibilities@.len()
    &&& forall|k: int, q: int|
        0 <= k < a.len() && 0 <= q < a[k].possibilities@.len() ==> (#[trigger] a[k].possibilities@[q]).block
            == b[k].possibilities@[q].block
}

/// Whether a φ-function has an operand that comes from block `p`.
pub open spec fn has_operand_from(phi: PhiFunction, p: usize) -> bool {
    exists|q: int| 0 <= q < phi.possibilities@.len() && (#[trigger] phi.possibilities@[q]).block == p
}

impl CFG {
    /// Every φ-function has an operand for each predecessor of its block.
    pub open spec fn phis_complete(&self) -> bool {
        forall|b: int, k: int, j: int|
            0 <= b < self.blocks@.len() && 0 <= k < self.blocks@[b].phi_functions@.len() && 0 <= j
                < self.blocks@[b].predecessors@.len() ==> #[trigger] has_operand_from(
                self.blocks@[b].phi_functions@[k],
                self.blocks@[b].predecessors@[j],
            )
    }

    /// The blocks of `self` are those of `before` with other instructions: the frame
    /// of every block and the shape of its φ-functions are kept.
    pub open spec fn reshaped_from(&self, before: CFG) -> bool {
        &&& self.blocks@.len() == before.blocks@.len()
        &&& self.entry == before.entry
        &&& self.non_ssa_variables == before.non_ssa_variables
        &&& self.definitions == before.definitions
        &&& self.def_use == before.def_use
        &&& forall|i: int| 0 <= i < self.blocks@.len() ==> {
            &&& same_frame(#[trigger] self.blocks@[i], before.blocks@[i])
            &&& same_phi_shape(self.blocks@[i].phi_functions@, before.blocks@[i].phi_functions@)
            &&& self.blocks@[i].wf()
        }
    }

    pub proof fn lemma_reshaped_refl(&self)
        requires
            self.wf(),
        ensures
            self.reshaped_from(*self),
    {
        assert forall|i: int| 0 <= i < self.blocks@.len() implies {
            &&& same_frame(#[trigger] self.blocks@[i], self.blocks@[i])
            &&& same_phi_shape(self.blocks@[i].phi_functions@, self.blocks@[i].phi_functions@)
            &&& self.blocks@[i].wf()
        } by {
            assert(self.block_ok(i));
        }
    }

    pub proof fn lemma_extends_refl(&self)
        ensures
            forall|i: int| 0 <= i < self.blocks@.len() ==> extends(
                self.blocks@[i].statements@,
                (#[trigger] self.blocks@[i]).statements@,
            ),
    {
        assert forall|i: int| 0 <= i < self.blocks@.len() implies extends(
            self.blocks@[i].statements@,
            (#[trigger] self.blocks@[i]).statements@,
        ) by {
            assert(self.blocks@[i].statements@.take(self.blocks@[i].statements@.len() as int) =~= self.blocks@[i].statements@);
        }
    }

    /// Keeping the frame and φ-shape of every block keeps the graph well formed and
    /// every φ-function's operands complete.
    pub proof fn lemma_reshaped(&self, before: CFG)
        requires
            before.wf(),
            self.reshaped_from(before),
        ensures
            self.wf(),
            before.phis_complete() ==> self.phis_complete(),
    {
        let n = self.blocks@.len();
        assert forall|i: int|
            0 <= i < before.blocks@.len() implies succ_targets((#[trigger] self.blocks@[i]).successors) == succ_targets(
                before.blocks@[i].successors,
            ) && self.blocks@[i].predecessors@ == before.blocks@[i].predecessors@ by {
            assert(same_frame(self.blocks@[i], before.blocks@[i]));
        }
        self.lemma_links_kept(before);
        assert forall|i: int| 0 <= i < n implies #[trigger] self.block_ok(i) by {
            assert(before.block_ok(i));
            let b = self.blocks@[i];
            let ob = before.blocks@[i];
            assert(same_frame(b, ob));
            assert(same_phi_shape(b.phi_functions@, ob.phi_functions@));
            assert forall|j: int| 0 <= j < b.predecessors@.len() implies #[trigger] b.predecessors@[j] < n by {
                assert(b.predecessors@[j] == ob.predecessors@[j]);
            }
            assert forall|j: int| 0 <= j < succ_targets(b.successors).len() implies #[trigger] succ_targets(
                b.successors,
            )[j] < n by {
                assert(succ_targets(b.successors)[j] == succ_targets(ob.successors)[j]);
            }
            assert forall|p: int, q: int|
                0 <= p < b.phi_functions@.len() && 0 <= q < b.phi_functions@[p].possibilities@.len() implies
                #[trigger] b.phi_functions@[p].possibilities@[q].block < n by {
                assert(b.phi_functions@[p].possibilities@.len() == ob.phi_functions@[p].possibilities@.len());
                assert(b.phi_functions@[p].possibilities@[q].block == ob.phi_functions@[p].possibilities@[q].block);
            }
        }
        assert forall|k: Seq<char>| #[trigger] self.def_use@.contains_key(k) implies self.uses_ok(k) by {
            assert(before.uses_ok(k));
        }
        if before.phis_complete() {
            assert forall|b: int, k: int, j: int|
                0 <= b < self.blocks@.len() && 0 <= k < self.blocks@[b].phi_functions@.len() && 0 <= j
                    < self.blocks@[b].predecessors@.len() implies #[trigger] has_operand_from(
                    self.blocks@[b].phi_functions@[k],
                    self.blocks@[b].predecessors@[j],
                ) by {
                let nb = self.blocks@[b];
                let ob = before.blocks@[b];
                assert(same_frame(nb, ob));
                assert(same_phi_shape(nb.phi_functions@, ob.phi_functions@));
                assert(has_operand_from(ob.phi_functions@[k], ob.predecessors@[j]));
                let q = choose|q: int|
                    0 <= q < ob.phi_functions@[k].possibilities@.len() && (#[trigger] ob.phi_functions@[k].possibilities@[q]).block
                        == ob.predecessors@[j];
                assert(nb.phi_functions@[k].possibilities@[q].block == ob.phi_functions@[k].possibilities@[q].block);
            }
        }
    }
}

/// The position of the first operand of `phi` that comes from block `pred`.
pub fn operand_position(phi: &PhiFunction, pred: usize) -> (r: Option<usize>)
    ensures
        match r {
            Some(q) => q < phi.possibilities@.len() && phi.possibilities@[q as int].block == pred
                && forall|q2: int| 0 <= q2 < q ==> (#[trigger] phi.possibilities@[q2]).block != pred,
            None => !has_operand_from(*phi, pred),
        },
{
    let mut q: usize = 0;
    while q < phi.possibilities.len()
        invariant
            q <= phi.possibilities@.len(),
            forall|q2: int| 0 <= q2 < q ==> (#[trigger] phi.possibilities@[q2]).block != pred,
        decreases phi.possibilities@.len() - q,
    {
        if phi.possibilities[q].block == pred {
            return Some(q);
        }
        q = q + 1;
    }
    None
}

impl BasicBlock {
    /// Renames the output of the `k`-th φ-function.
    pub fn set_phi_output(&mut self, k: usize, name: String)
        requires
            k < old(self).phi_functions@.len(),
        ensures
            final(self).phi_functions@ == old(self).phi_functions@.update(
                k as int,
                PhiFunction { output: name, possibilities: old(self).phi_functions@[k as int].possibilities },
            ),
            final(self).statements == old(self).statements,
            final(self).declarations == old(self).declarations,
            same_frame(*final(self), *old(self)),
            final(self).successors == old(self).successors,
    {
        let mut phi = self.phi_functions.remove(k);
        phi.output = name;
        self.phi_functions.insert(k, phi);
        proof {
            assert(self.phi_functions@ =~= old(self).phi_functions@.update(
                k as int,
                PhiFunction { output: name, possibilities: old(self).phi_functions@[k as int].possibilities },
            ));
        }
    }

    /// Renames the `q`-th operand of the `k`-th φ-function.
    pub fn set_operand_variable(&mut self, k: usize, q: usize, name: String)
        requires
            k < old(self).phi_functions@.len(),
            q < old(self).phi_functions@[k as int].possibilities@.len(),
        ensures
            final(self).phi_functions@.len() == old(self).phi_functions@.len(),
            forall|k2: int| 0 <= k2 < old(self).phi_functions@.len() && k2 != k ==> #[trigger] final(self).phi_functions@[k2]
                == old(self).phi_functions@[k2],
            final(self).phi_functions@[k as int].output == old(self).phi_functions@[k as int].output,
            final(self).phi_functions@[k as int].possibilities@ == old(self).phi_functions@[k as int].possibilities@.update(
                q as int,
                PhiPossibility { variable: name, block: old(self).phi_functions@[k as int].possibilities@[q as int].block },
            ),
            final(self).statements == old(self).statements,
            final(self).declarations == old(self).declarations,
            same_frame(*final(self), *old(self)),
            final(self).successors == old(self).successors,
    {
        let mut phi = self.phi_functions.remove(k);
        let b = phi.possibilities[q].block;
        phi.possibilities.set(q, PhiPossibility { variable: name, block: b });
        self.phi_functions.insert(k, phi);
        proof {
            assert(self.phi_functions@ =~= old(self).phi_functions@.update(k as int, phi));
            assert(phi.possibilities@ =~= old(self).phi_functions@[k as int].possibilities@.update(
                q as int,
                PhiPossibility { variable: name, block: old(self).phi_functions@[k as int].possibilities@[q as int].block },
            ));
        }
    }
}

impl BasicBlock {
    /// Puts `front` before the block's statements.
    pub fn prepend_statements(&mut self, front: Vec<Statement>)
        ensures
            final(self).statements@ == front@ + old(self).statements@,
            final(self).phi_functions == old(self).phi_functions,
            final(self).declarations == old(self).declarations,
            same_frame(*final(self), *old(self)),
            final(self).successors == old(self).successors,
    {
        let mut all = front;
        all.append(&mut self.statements);
        self.statements = all;
    }
}

/// The block `nb` is the block `ob` with its φ-functions isolated: each φ-function
/// defines a temporary, copied into the φ-function's old output by the block's first
/// statements, and reads, from each predecessor, a temporary.
pub open spec fn isolated(nb: BasicBlock, ob: BasicBlock) -> bool {
    &&& nb.statements@.len() >= ob.phi_functions@.len()
    &&& forall|k: int| 0 <= k < ob.phi_functions@.len() ==> is_tmp_name((#[trigger] nb.phi_functions@[k]).output@)
    &&& forall|k: int| 0 <= k < ob.phi_functions@.len() ==> is_copy(
        #[trigger] nb.statements@[k],
        ob.phi_functions@[k].output@,
        nb.phi_functions@[k].output@,
    )
    &&& forall|k: int, j: int|
        0 <= k < ob.phi_functions@.len() && 0 <= j < ob.predecessors@.len() ==> #[trigger] has_tmp_operand_from(
            nb.phi_functions@[k],
            ob.predecessors@[j],
        )
}

/// Whether a φ-function reads a temporary coming from block `p`.
pub open spec fn has_tmp_operand_from(phi: PhiFunction, p: usize) -> bool {
    exists|q: int|
        0 <= q < phi.possibilities@.len() && (#[trigger] phi.possibilities@[q]).block == p && is_tmp_name(
            phi.possibilities@[q].variable@,
        )
}

/// Some planned renaming of an operand of the `m`-th φ-function is for an operand
/// that comes from block `p`.
pub open spec fn covered(ups: Seq<(usize, usize, String)>, phis: Seq<PhiFunction>, m: int, p: usize) -> bool {
    exists|u: int|
        0 <= u < ups.len() && (#[trigger] ups[u]).0 == m && phis[m].possibilities@[ups[u].1 as int].block == p
}

/// `after` comes from `before` through `iso`, which is `before` with its
/// φ-functions isolated, and `col`, which is `iso` with its variables renamed by a
/// renaming that keeps types: each predecessor of a block with φ-functions, on an
/// edge that is the only one into any block from that predecessor, ends with copies
/// that do what the edge asks of the φ-functions of `col`.
pub open spec fn destroyed_through(before: CFG, iso: CFG, col: CFG, after: CFG) -> bool {
    &&& iso.reshaped_from(before)
    &&& forall|i: int| 0 <= i < before.blocks@.len() && before.blocks@[i].phi_functions@.len() > 0 ==> {
        &&& isolated(#[trigger] iso.blocks@[i], before.blocks@[i])
        &&& keeps_statements(iso.blocks@[i], before.blocks@[i])
        &&& phis_fed(iso, before, i)
    }
    &&& col.reshaped_from(iso)
    &&& exists|f: Map<Seq<char>, Seq<char>>, types: Map<Seq<char>, NumericType>|
        #![trigger type_preserving(f, types)]
        graph_typing(iso.blocks@, types) && type_preserving(f, types) && forall|i: int|
            0 <= i < col.blocks@.len() ==> renamed_block(#[trigger] col.blocks@[i], iso.blocks@[i], f)
    &&& forall|b: int, jp: int| #[trigger] sole_edge(col.blocks@, b, jp) && col.blocks@[b].phi_functions@.len() > 0
        ==> edge_done(after.blocks@, col.blocks@, b, jp)
}

/// `after` is `before` taken out of SSA form: well formed, with the same blocks,
/// entry, definitions and uses, every block keeping its frame, no φ-function left
/// and no copy of a variable into itself, and obtained as `destroyed_through` says.
pub open spec fn ssa_destroyed(before: CFG, after: CFG) -> bool {
    &&& after.wf()
    &&& after.blocks@.len() == before.blocks@.len()
    &&& after.entry == before.entry
    &&& after.definitions == before.definitions
    &&& after.def_use == before.def_use
    &&& forall|i: int| 0 <= i < after.blocks@.len() ==> same_frame(#[trigger] after.blocks@[i], before.blocks@[i])
    &&& forall|i: int| 0 <= i < after.blocks@.len() ==> (#[trigger] after.blocks@[i]).phi_functions@.len() == 0
    &&& forall|i: int, k: int|
        0 <= i < after.blocks@.len() && 0 <= k < after.blocks@[i].statements@.len()
            ==> !(#[trigger] after.blocks@[i].statements@[k]).spec_is_identity_copy()
    &&& exists|iso: CFG, col: CFG| #[trigger] destroyed_through(before, iso, col, after)
}

/// Some statement of `stmts` copies `input` into `output`.
pub open spec fn has_copy(stmts: Seq<Statement>, output: Seq<char>, input: Seq<char>) -> bool {
    exists|i: int| 0 <= i < stmts.len() && is_copy(#[trigger] stmts[i], output, input)
}

/// The φ-function `nphi`, once `ophi`, reads from block `p` a temporary that one of
/// the statements `pstmts` of `p` sets to the operand that `ophi` read from `p`.
pub open spec fn fed_by(nphi: PhiFunction, ophi: PhiFunction, p: usize, pstmts: Seq<Statement>) -> bool {
    exists|q: int|
        0 <= q < nphi.possibilities@.len() && q < ophi.possibilities@.len() && (#[trigger] nphi.possibilities@[q]).block == p
            && is_tmp_name(nphi.possibilities@[q].variable@) && has_copy(
            pstmts,
            nphi.possibilities@[q].variable@,
            ophi.possibilities@[q].variable@,
        )
}

/// Every φ-function of block `i` of `g` is fed, from each predecessor that block
/// `i` has in `orig`, as `fed_by` says.
pub open spec fn phis_fed(g: CFG, orig: CFG, i: int) -> bool {
    forall|k: int, j: int|
        0 <= k < orig.blocks@[i].phi_functions@.len() && 0 <= j < orig.blocks@[i].predecessors@.len() ==> #[trigger] fed_by(
            g.blocks@[i].phi_functions@[k],
            orig.blocks@[i].phi_functions@[k],
            orig.blocks@[i].predecessors@[j],
            g.blocks@[orig.blocks@[i].predecessors@[j] as int].statements@,
        )
}

/// The statements of `ob` follow, in `nb`, the copies of its φ-outputs.
pub open spec fn keeps_statements(nb: BasicBlock, ob: BasicBlock) -> bool {
    let m = ob.phi_functions@.len();
    &&& nb.statements@.len() >= m + ob.statements@.len()
    &&& nb.statements@.subrange(m as int, (m + ob.statements@.len()) as int) == ob.statements@
}

/// A copy found in `a` is found in `b` when `b` holds `a` from position `off`.
proof fn lemma_has_copy_moved(a: Seq<Statement>, b: Seq<Statement>, off: int, output: Seq<char>, input: Seq<char>)
    requires
        has_copy(a, output, input),
        0 <= off,
        off + a.len() <= b.len(),
        b.subrange(off, off + a.len()) == a,
    ensures
        has_copy(b, output, input),
{
    let i = choose|i: int| 0 <= i < a.len() && is_copy(#[trigger] a[i], output, input);
    assert(b.subrange(off, off + a.len())[i] == b[off + i]);
    assert(is_copy(b[off + i], output, input));
}

/// A copy found in `a` is found in every extension of `a`.
proof fn lemma_has_copy_extends(a: Seq<Statement>, b: Seq<Statement>, output: Seq<char>, input: Seq<char>)
    requires
        has_copy(a, output, input),
        extends(a, b),
    ensures
        has_copy(b, output, input),
{
    assert(b.subrange(0, a.len() as int) == b.take(a.len() as int));
    lemma_has_copy_moved(a, b, 0, output, input);
}

/// Feeding survives a change of the statements of `p` that keeps every copy.
proof fn lemma_fed_kept(nphi: PhiFunction, ophi: PhiFunction, p: usize, s1: Seq<Statement>, s2: Seq<Statement>)
    requires
        fed_by(nphi, ophi, p, s1),
        forall|o: Seq<char>, i: Seq<char>| #[trigger] has_copy(s1, o, i) ==> has_copy(s2, o, i),
    ensures
        fed_by(nphi, ophi, p, s2),
{
    let q = choose|q: int|
        0 <= q < nphi.possibilities@.len() && q < ophi.possibilities@.len() && (#[trigger] nphi.possibilities@[q]).block == p
            && is_tmp_name(nphi.possibilities@[q].variable@) && has_copy(
            s1,
            nphi.possibilities@[q].variable@,
            ophi.possibilities@[q].variable@,
        );
    assert(has_copy(s2, nphi.possibilities@[q].variable@, ophi.possibilities@[q].variable@));
}

/// The statements kept after the φ-output copies stay so when more statements
/// are appended, or when `ob`'s statements were themselves extended before.
proof fn lemma_keeps_kept(nb: BasicBlock, nb2: BasicBlock, ob: BasicBlock, ob0: BasicBlock)
    requires
        keeps_statements(nb, ob),
        extends(nb.statements@, nb2.statements@),
        extends(ob0.statements@, ob.statements@),
        ob0.phi_functions@.len() == ob.phi_functions@.len(),
    ensures
        keeps_statements(nb2, ob0),
{
    let m = ob.phi_functions@.len() as int;
    assert forall|i: int| 0 <= i < ob0.statements@.len() implies nb2.statements@.subrange(m, m + ob0.statements@.len())[i]
        == ob0.statements@[i] by {
        assert(nb2.statements@.take(nb.statements@.len() as int)[m + i] == nb.statements@[m + i]);
        assert(nb.statements@.subrange(m, m + ob.statements@.len())[i] == nb.statements@[m + i]);
        assert(ob.statements@.take(ob0.statements@.len() as int)[i] == ob.statements@[i]);
    }
    assert(nb2.statements@.subrange(m, m + ob0.statements@.len()) =~= ob0.statements@);
}

/// The planned renaming `ups[uu]` is in place in `phis`: its operand holds the
/// temporary of a planned renaming among the first `upto` of the same operand.
pub open spec fn renamed_by(phis: Seq<PhiFunction>, ups: Seq<(usize, usize, String)>, upto: int, uu: int) -> bool {
    exists|uu2: int|
        0 <= uu2 < upto && (#[trigger] ups[uu2]).0 == ups[uu].0 && ups[uu2].1 == ups[uu].1
            && phis[ups[uu].0 as int].possibilities@[ups[uu].1 as int].variable@ == ups[uu2].2@
}

/// The statements of `b` begin with those of `a`.
pub open spec fn extends(a: Seq<Statement>, b: Seq<Statement>) -> bool {
    a.len() <= b.len() && b.take(a.len() as int) == a
}

impl CFG {
    /// Isolates the φ-functions of one block (see `isolate_phis`).
    fn isolate_block(&mut self, block_id: usize, next_tmp: &mut usize)
        requires
            old(self).wf(),
            old(self).phis_complete(),
            block_id < old(self).blocks@.len(),
            *old(next_tmp) + temps_of(old(self).blocks@[block_id as int]) <= usize::MAX,
        ensures
            *final(next_tmp) == *old(next_tmp) + temps_of(old(self).blocks@[block_id as int]),
            old(self).blocks@[block_id as int].phi_functions@.len() > 0 ==> exists|ix: spec_fn(int, int) -> nat| #[trigger] temps_indexed(
                final(self).blocks@[block_id as int],
                old(self).blocks@[block_id as int],
                *old(next_tmp) as nat,
                *final(next_tmp) as nat,
                ix,
            ),
            final(self).reshaped_from(*old(self)),
            final(self).wf(),
            final(self).phis_complete(),
            forall|i: int| 0 <= i < old(self).blocks@.len() && i != block_id ==> (#[trigger] final(self).blocks@[i]).phi_functions@
                == old(self).blocks@[i].phi_functions@,
            forall|i: int| 0 <= i < old(self).blocks@.len() && i != block_id ==> extends(
                old(self).blocks@[i].statements@,
                (#[trigger] final(self).blocks@[i]).statements@,
            ),
            old(self).blocks@[block_id as int].phi_functions@.len() == 0 ==> final(self).blocks@[block_id as int]
                == old(self).blocks@[block_id as int],
            old(self).blocks@[block_id as int].phi_functions@.len() > 0 ==> isolated(
                final(self).blocks@[block_id as int],
                old(self).blocks@[block_id as int],
            ),
            old(self).blocks@[block_id as int].phi_functions@.len() > 0 ==> keeps_statements(
                final(self).blocks@[block_id as int],
                old(self).blocks@[block_id as int],
            ),
            old(self).blocks@[block_id as int].phi_functions@.len() > 0 ==> phis_fed(*final(self), *old(self), block_id as int),
    {
        let ghost s: nat = *next_tmp as nat;
        let nphis = self.blocks[block_id].phi_functions.len();
        if nphis == 0 {
            proof {
                assert(nphis * self.blocks@[block_id as int].predecessors@.len() == 0) by (nonlinear_arith)
                    requires
                        nphis == 0,
                ;
                self.lemma_reshaped_refl();
                self.lemma_extends_refl();
            }
            return;
        }
        let ghost orig = *self;
        let ghost ob = self.blocks@[block_id as int];
        let preds = copy_items(&self.blocks[block_id].predecessors);
        proof {
            assert(orig.block_ok(block_id as int));
        }
        // For each phi, a fresh temporary for the output, and the copy
        // original_output <- temporary that goes first in the block.
        let mut join_tmps: Vec<String> = Vec::new();
        let mut join_stmts: Vec<Statement> = Vec::new();
        let mut k: usize = 0;
        while k < nphis
            invariant
                *self == orig,
                ob == orig.blocks@[block_id as int],
                orig.wf(),
                orig.phis_complete(),
                block_id < orig.blocks@.len(),
                nphis == ob.phi_functions@.len(),
                k <= nphis,
                join_tmps@.len() == k,
                join_stmts@.len() == k,
                forall|m: int| 0 <= m < k ==> is_tmp_name(#[trigger] join_tmps@[m]@),
                forall|m: int| 0 <= m < k ==> is_copy(#[trigger] join_stmts@[m], ob.phi_functions@[m].output@, join_tmps@[m]@),
                *next_tmp == s + k,
                s + temps_of(ob) <= usize::MAX,
                forall|m: int| 0 <= m < k ==> (#[trigger] join_tmps@[m])@ == tmp_name((s + m) as nat),
            decreases nphis - k,
        {
            let t = Self::fresh_tmp(next_tmp);
            let out = self.blocks[block_id].phi_functions[k].output.clone();
            join_stmts.push(Self::make_copy(out, t.clone()));
            join_tmps.push(t);
            k = k + 1;
        }
        // For each predecessor and each phi, a copy temporary <- operand at the end
        // of the predecessor; the operand is renamed afterwards.
        let mut updates: Vec<(usize, usize, String)> = Vec::new();
        let mut j: usize = 0;
        proof {
            self.lemma_reshaped_refl();
            self.lemma_extends_refl();
        }
        while j < preds.len()
            invariant
                self.wf(),
                self.phis_complete(),
                self.reshaped_from(orig),
                ob == orig.blocks@[block_id as int],
                orig.wf(),
                orig.phis_complete(),
                block_id < orig.blocks@.len(),
                preds@ == ob.predecessors@,
                nphis == ob.phi_functions@.len(),
                j <= preds@.len(),
                forall|i: int| 0 <= i < orig.blocks@.len() ==> (#[trigger] self.blocks@[i]).phi_functions@
                    == orig.blocks@[i].phi_functions@,
                forall|i: int| 0 <= i < orig.blocks@.len() ==> extends(
                    orig.blocks@[i].statements@,
                    (#[trigger] self.blocks@[i]).statements@,
                ),
                forall|u: int| 0 <= u < updates@.len() ==> {
                    &&& (#[trigger] updates@[u]).0 < nphis
                    &&& updates@[u].1 < ob.phi_functions@[updates@[u].0 as int].possibilities@.len()
                    &&& is_tmp_name(updates@[u].2@)
                    &&& updates@[u].2@ == tmp_name((s + nphis + u) as nat)
                    &&& forall|q2: int| 0 <= q2 < updates@[u].1 ==> (#[trigger] ob.phi_functions@[updates@[u].0 as int].possibilities@[q2]).block
                        != ob.phi_functions@[updates@[u].0 as int].possibilities@[updates@[u].1 as int].block
                },
                *next_tmp == s + nphis + updates@.len(),
                updates@.len() == j * nphis,
                s + temps_of(ob) <= usize::MAX,
                forall|jj: int, m: int| 0 <= jj < j && 0 <= m < nphis ==> #[trigger] covered(
                    updates@,
                    ob.phi_functions@,
                    m,
                    preds@[jj],
                ),
                forall|u: int| 0 <= u < updates@.len() ==> has_copy(
                    self.blocks@[ob.phi_functions@[(#[trigger] updates@[u]).0 as int].possibilities@[updates@[u].1 as int].block as int].statements@,
                    updates@[u].2@,
                    ob.phi_functions@[updates@[u].0 as int].possibilities@[updates@[u].1 as int].variable@,
                ),
            decreases preds@.len() - j,
        {
            let pred = preds[j];
            let mut m: usize = 0;
            while m < nphis
                invariant
                    self.wf(),
                    self.phis_complete(),
                    self.reshaped_from(orig),
                    ob == orig.blocks@[block_id as int],
                    orig.wf(),
                    orig.phis_complete(),
                    block_id < orig.blocks@.len(),
                    preds@ == ob.predecessors@,
                    nphis == ob.phi_functions@.len(),
                    j < preds@.len(),
                    pred == preds@[j as int],
                    m <= nphis,
                    forall|i: int| 0 <= i < orig.blocks@.len() ==> (#[trigger] self.blocks@[i]).phi_functions@
                        == orig.blocks@[i].phi_functions@,
                    forall|i: int| 0 <= i < orig.blocks@.len() ==> extends(
                        orig.blocks@[i].statements@,
                        (#[trigger] self.blocks@[i]).statements@,
                    ),
                    forall|u: int| 0 <= u < updates@.len() ==> {
                        &&& (#[trigger] updates@[u]).0 < nphis
                        &&& updates@[u].1 < ob.phi_functions@[updates@[u].0 as int].possibilities@.len()
                        &&& is_tmp_name(updates@[u].2@)
                        &&& updates@[u].2@ == tmp_name((s + nphis + u) as nat)
                        &&& forall|q2: int| 0 <= q2 < updates@[u].1 ==> (#[trigger] ob.phi_functions@[updates@[u].0 as int].possibilities@[q2]).block
                            != ob.phi_functions@[updates@[u].0 as int].possibilities@[updates@[u].1 as int].block
                    },
                    *next_tmp == s + nphis + updates@.len(),
                    updates@.len() == j * nphis + m,
                    s + temps_of(ob) <= usize::MAX,
                    forall|jj: int, mm: int| 0 <= jj < j && 0 <= mm < nphis ==> #[trigger] covered(
                        updates@,
                        ob.phi_functions@,
                        mm,
                        preds@[jj],
                    ),
                    forall|mm: int| 0 <= mm < m ==> #[trigger] covered(updates@, ob.phi_functions@, mm, pred),
                    forall|u: int| 0 <= u < updates@.len() ==> has_copy(
                    self.blocks@[ob.phi_functions@[(#[trigger] updates@[u]).0 as int].possibilities@[updates@[u].1 as int].block as int].statements@,
                    updates@[u].2@,
                    ob.phi_functions@[updates@[u].0 as int].possibilities@[updates@[u].1 as int].variable@,
                ),
                decreases nphis - m,
            {
                proof {
                    assert(has_operand_from(self.blocks@[block_id as int].phi_functions@[m as int], self.blocks@[block_id as int].predecessors@[j as int]));
                    assert(orig.block_ok(block_id as int));
                }
                let found = operand_position(&self.blocks[block_id].phi_functions[m], pred);
                let q = found.unwrap();
                proof {
                    assert(j * nphis + m + 1 <= preds@.len() * nphis) by (nonlinear_arith)
                        requires
                            j < preds@.len(),
                            m < nphis,
                    ;
                    assert(preds@.len() * nphis == nphis * preds@.len()) by (nonlinear_arith);
                }
                let t = Self::fresh_tmp(next_tmp);
                let operand = self.blocks[block_id].phi_functions[m].possibilities[q].variable.clone();
                let stmt = Self::make_copy(t.clone(), operand);
                let ghost before = *self;
                let ghost ups = updates@;
                proof {
                    assert(before.block_ok(pred as int));
                }
                self.blocks[pred].add_instruction(stmt);
                proof {
                    assert forall|i: int| 0 <= i < self.blocks@.len() implies {
                        &&& same_frame(#[trigger] self.blocks@[i], orig.blocks@[i])
                        &&& same_phi_shape(self.blocks@[i].phi_functions@, orig.blocks@[i].phi_functions@)
                        &&& self.blocks@[i].wf()
                    } by {
                        assert(before.reshaped_from(orig));
                        assert(same_frame(before.blocks@[i], orig.blocks@[i]));
                    }
                    self.lemma_reshaped(orig);
                    assert forall|i: int| 0 <= i < orig.blocks@.len() implies extends(
                        orig.blocks@[i].statements@,
                        (#[trigger] self.blocks@[i]).statements@,
                    ) by {
                        assert(extends(orig.blocks@[i].statements@, before.blocks@[i].statements@));
                        if i == pred {
                            assert(self.blocks@[i].statements@.take(orig.blocks@[i].statements@.len() as int)
                                =~= before.blocks@[i].statements@.take(orig.blocks@[i].statements@.len() as int));
                        }
                    }
                }
                proof {
                    assert(ob.phi_functions@[m as int].possibilities@[q as int].block == pred);
                    assert(is_copy(self.blocks@[pred as int].statements@[self.blocks@[pred as int].statements@.len() - 1], t@, operand@));
                    assert(has_copy(self.blocks@[pred as int].statements@, t@, ob.phi_functions@[m as int].possibilities@[q as int].variable@));
                    assert forall|u: int| 0 <= u < ups.len() implies has_copy(
                        self.blocks@[ob.phi_functions@[(#[trigger] ups[u]).0 as int].possibilities@[ups[u].1 as int].block as int].statements@,
                        ups[u].2@,
                        ob.phi_functions@[ups[u].0 as int].possibilities@[ups[u].1 as int].variable@,
                    ) by {
                        let bu = ob.phi_functions@[ups[u].0 as int].possibilities@[ups[u].1 as int].block as int;
                        assert(orig.block_ok(block_id as int));
                        if bu == pred {
                            assert(extends(before.blocks@[bu].statements@, self.blocks@[bu].statements@)) by {
                                assert(self.blocks@[bu].statements@.take(before.blocks@[bu].statements@.len() as int) =~= before.blocks@[bu].statements@);
                            }
                            lemma_has_copy_extends(before.blocks@[bu].statements@, self.blocks@[bu].statements@, ups[u].2@, ob.phi_functions@[ups[u].0 as int].possibilities@[ups[u].1 as int].variable@);
                        } else {
                            assert(self.blocks@[bu] == before.blocks@[bu]);
                        }
                    }
                }
                updates.push((m, q, t));
                proof {
                    assert(updates@[ups.len() as int].0 == m);
                    assert forall|u: int| 0 <= u < updates@.len() implies {
                        &&& (#[trigger] updates@[u]).0 < nphis
                        &&& updates@[u].1 < ob.phi_functions@[updates@[u].0 as int].possibilities@.len()
                        &&& is_tmp_name(updates@[u].2@)
                        &&& updates@[u].2@ == tmp_name((s + nphis + u) as nat)
                        &&& forall|q2: int| 0 <= q2 < updates@[u].1 ==> (#[trigger] ob.phi_functions@[updates@[u].0 as int].possibilities@[q2]).block
                            != ob.phi_functions@[updates@[u].0 as int].possibilities@[updates@[u].1 as int].block
                    } by {
                        if u < ups.len() {
                            assert(updates@[u] == ups[u]);
                        } else {
                            assert(updates@[u] == (m, q, t));
                            assert(ob.phi_functions@[m as int] == self.blocks@[block_id as int].phi_functions@[m as int]);
                        }
                    }
                    assert forall|u: int| 0 <= u < updates@.len() implies has_copy(
                        self.blocks@[ob.phi_functions@[(#[trigger] updates@[u]).0 as int].possibilities@[updates@[u].1 as int].block as int].statements@,
                        updates@[u].2@,
                        ob.phi_functions@[updates@[u].0 as int].possibilities@[updates@[u].1 as int].variable@,
                    ) by {
                        if u < ups.len() {
                            assert(updates@[u] == ups[u]);
                        }
                    }
                    assert forall|jj: int, mm: int| 0 <= jj < j && 0 <= mm < nphis implies #[trigger] covered(
                        updates@,
                        ob.phi_functions@,
                        mm,
                        preds@[jj],
                    ) by {
                        assert(covered(ups, ob.phi_functions@, mm, preds@[jj]));
                        let u = choose|u: int|
                            0 <= u < ups.len() && (#[trigger] ups[u]).0 == mm
                                && ob.phi_functions@[mm].possibilities@[ups[u].1 as int].block == preds@[jj];
                        assert(updates@[u] == ups[u]);
                    }
                    assert forall|mm: int| 0 <= mm < m + 1 implies #[trigger] covered(updates@, ob.phi_functions@, mm, pred) by {
                        if mm < m {
                            assert(covered(ups, ob.phi_functions@, mm, pred));
                            let u = choose|u: int|
                                0 <= u < ups.len() && (#[trigger] ups[u]).0 == mm
                                    && ob.phi_functions@[mm].possibilities@[ups[u].1 as int].block == pred;
                            assert(updates@[u] == ups[u]);
                        } else {
                            assert(updates@[ups.len() as int].0 == mm);
                        }
                    }
                }
                m = m + 1;
            }
            proof {
                assert forall|jj: int, mm: int| 0 <= jj < j + 1 && 0 <= mm < nphis implies #[trigger] covered(
                    updates@,
                    ob.phi_functions@,
                    mm,
                    preds@[jj],
                ) by {
                    if jj == j {
                        assert(covered(updates@, ob.phi_functions@, mm, pred));
                    }
                }
                assert(j * nphis + nphis == (j + 1) * nphis) by (nonlinear_arith);
            }
            j = j + 1;
        }
        proof {
            assert(preds@.len() * nphis == nphis * preds@.len()) by (nonlinear_arith);
        }
        let ghost mid = *self;
        // Rename the operands.
        let mut u: usize = 0;
        while u < updates.len()
            invariant
                self.wf(),
                self.reshaped_from(orig),
                mid.reshaped_from(orig),
                ob == orig.blocks@[block_id as int],
                orig.wf(),
                orig.phis_complete(),
                block_id < orig.blocks@.len(),
                nphis == ob.phi_functions@.len(),
                u <= updates@.len(),
                forall|i: int| 0 <= i < orig.blocks@.len() && i != block_id ==> (#[trigger] self.blocks@[i]) == mid.blocks@[i],
                self.blocks@[block_id as int].statements == mid.blocks@[block_id as int].statements,
                forall|kk: int| 0 <= kk < nphis ==> (#[trigger] self.blocks@[block_id as int].phi_functions@[kk]).output
                    == ob.phi_functions@[kk].output,
                forall|uu: int| 0 <= uu < updates@.len() ==> {
                    &&& (#[trigger] updates@[uu]).0 < nphis
                    &&& updates@[uu].1 < ob.phi_functions@[updates@[uu].0 as int].possibilities@.len()
                    &&& is_tmp_name(updates@[uu].2@)
                },
                forall|uu: int| 0 <= uu < u ==> is_tmp_name(
                    self.blocks@[block_id as int].phi_functions@[(#[trigger] updates@[uu]).0 as int].possibilities@[updates@[uu].1 as int].variable@,
                ),
                forall|uu: int| 0 <= uu < u ==> #[trigger] renamed_by(self.blocks@[block_id as int].phi_functions@, updates@, u as int, uu),
                forall|uu: int| 0 <= uu < updates@.len() ==> has_copy(
                    mid.blocks@[ob.phi_functions@[(#[trigger] updates@[uu]).0 as int].possibilities@[updates@[uu].1 as int].block as int].statements@,
                    updates@[uu].2@,
                    ob.phi_functions@[updates@[uu].0 as int].possibilities@[updates@[uu].1 as int].variable@,
                ),
                forall|jj: int, mm: int| 0 <= jj < ob.predecessors@.len() && 0 <= mm < nphis ==> #[trigger] covered(
                    updates@,
                    ob.phi_functions@,
                    mm,
                    ob.predecessors@[jj],
                ),
                extends(ob.statements@, mid.blocks@[block_id as int].statements@),
            decreases updates@.len() - u,
        {
            let kk = updates[u].0;
            let qq = updates[u].1;
            let name = updates[u].2.clone();
            let ghost before = *self;
            proof {
                assert(same_phi_shape(before.blocks@[block_id as int].phi_functions@, ob.phi_functions@));
                assert(before.blocks@[block_id as int].phi_functions@[kk as int].possibilities@.len()
                    == ob.phi_functions@[kk as int].possibilities@.len());
            }
            self.blocks[block_id].set_operand_variable(kk, qq, name);
            proof {
                let nb = self.blocks@[block_id as int];
                let bb = before.blocks@[block_id as int];
                assert(same_phi_shape(nb.phi_functions@, ob.phi_functions@)) by {
                    assert forall|k2: int| 0 <= k2 < nb.phi_functions@.len() implies (#[trigger] nb.phi_functions@[k2]).possibilities@.len()
                        == ob.phi_functions@[k2].possibilities@.len() by {
                        assert(bb.phi_functions@[k2].possibilities@.len() == ob.phi_functions@[k2].possibilities@.len());
                    }
                    assert forall|k2: int, q2: int|
                        0 <= k2 < nb.phi_functions@.len() && 0 <= q2 < nb.phi_functions@[k2].possibilities@.len() implies
                        (#[trigger] nb.phi_functions@[k2].possibilities@[q2]).block == ob.phi_functions@[k2].possibilities@[q2].block by {
                        assert(bb.phi_functions@[k2].possibilities@.len() == ob.phi_functions@[k2].possibilities@.len());
                        assert(bb.phi_functions@[k2].possibilities@[q2].block == ob.phi_functions@[k2].possibilities@[q2].block);
                    }
                }
                assert forall|i: int| 0 <= i < self.blocks@.len() implies {
                    &&& same_frame(#[trigger] self.blocks@[i], orig.blocks@[i])
                    &&& same_phi_shape(self.blocks@[i].phi_functions@, orig.blocks@[i].phi_functions@)
                    &&& self.blocks@[i].wf()
                } by {
                    assert(same_frame(before.blocks@[i], orig.blocks@[i]));
                }
                self.lemma_reshaped(orig);
                assert forall|uu: int| 0 <= uu < u + 1 implies is_tmp_name(
                    self.blocks@[block_id as int].phi_functions@[(#[trigger] updates@[uu]).0 as int].possibilities@[updates@[uu].1 as int].variable@,
                ) by {
                    let k2 = updates@[uu].0 as int;
                    let q2 = updates@[uu].1 as int;
                    if uu < u && !(k2 == kk && q2 == qq) {
                        assert(bb.phi_functions@[k2].possibilities@.len() == ob.phi_functions@[k2].possibilities@.len());
                        if k2 == kk {
                            assert(nb.phi_functions@[k2].possibilities@[q2] == bb.phi_functions@[k2].possibilities@[q2]);
                        }
                    }
                }
                assert forall|uu: int| 0 <= uu < u + 1 implies #[trigger] renamed_by(nb.phi_functions@, updates@, u + 1, uu) by {
                    let k2 = updates@[uu].0 as int;
                    let q2 = updates@[uu].1 as int;
                    if k2 == kk && q2 == qq {
                        assert(updates@[u as int].0 == updates@[uu].0 && updates@[u as int].1 == updates@[uu].1);
                        assert(nb.phi_functions@[k2].possibilities@[q2].variable@ == updates@[u as int].2@);
                    } else {
                        assert(renamed_by(bb.phi_functions@, updates@, u as int, uu));
                        let uu2 = choose|uu2: int|
                            0 <= uu2 < u && (#[trigger] updates@[uu2]).0 == updates@[uu].0 && updates@[uu2].1 == updates@[uu].1
                                && bb.phi_functions@[k2].possibilities@[q2].variable@ == updates@[uu2].2@;
                        assert(bb.phi_functions@[k2].possibilities@.len() == ob.phi_functions@[k2].possibilities@.len());
                        if k2 == kk {
                            assert(nb.phi_functions@[k2].possibilities@[q2] == bb.phi_functions@[k2].possibilities@[q2]);
                        }
                    }
                }
            }
            u = u + 1;
        }
        // Rename the outputs.
        let mut k: usize = 0;
        while k < nphis
            invariant
                self.wf(),
                self.reshaped_from(orig),
                mid.reshaped_from(orig),
                ob == orig.blocks@[block_id as int],
                orig.wf(),
                orig.phis_complete(),
                block_id < orig.blocks@.len(),
                nphis == ob.phi_functions@.len(),
                k <= nphis,
                join_tmps@.len() == nphis,
                forall|m: int| 0 <= m < nphis ==> is_tmp_name(#[trigger] join_tmps@[m]@),
                forall|i: int| 0 <= i < orig.blocks@.len() && i != block_id ==> (#[trigger] self.blocks@[i]) == mid.blocks@[i],
                self.blocks@[block_id as int].statements == mid.blocks@[block_id as int].statements,
                forall|m: int| 0 <= m < k ==> (#[trigger] self.blocks@[block_id as int].phi_functions@[m]).output@
                    == join_tmps@[m]@,
                forall|uu: int| 0 <= uu < updates@.len() ==> {
                    &&& (#[trigger] updates@[uu]).0 < nphis
                    &&& updates@[uu].1 < ob.phi_functions@[updates@[uu].0 as int].possibilities@.len()
                },
                forall|uu: int| 0 <= uu < updates@.len() ==> is_tmp_name(
                    self.blocks@[block_id as int].phi_functions@[(#[trigger] updates@[uu]).0 as int].possibilities@[updates@[uu].1 as int].variable@,
                ),
                forall|uu: int| 0 <= uu < updates@.len() ==> #[trigger] renamed_by(self.blocks@[block_id as int].phi_functions@, updates@, updates@.len() as int, uu),
                forall|uu: int| 0 <= uu < updates@.len() ==> has_copy(
                    mid.blocks@[ob.phi_functions@[(#[trigger] updates@[uu]).0 as int].possibilities@[updates@[uu].1 as int].block as int].statements@,
                    updates@[uu].2@,
                    ob.phi_functions@[updates@[uu].0 as int].possibilities@[updates@[uu].1 as int].variable@,
                ),
                forall|jj: int, mm: int| 0 <= jj < ob.predecessors@.len() && 0 <= mm < nphis ==> #[trigger] covered(
                    updates@,
                    ob.phi_functions@,
                    mm,
                    ob.predecessors@[jj],
                ),
                extends(ob.statements@, mid.blocks@[block_id as int].statements@),
            decreases nphis - k,
        {
            let ghost before = *self;
            self.blocks[block_id].set_phi_output(k, join_tmps[k].clone());
            proof {
                let nb = self.blocks@[block_id as int];
                let bb = before.blocks@[block_id as int];
                assert forall|k2: int| 0 <= k2 < nb.phi_functions@.len() implies (#[trigger] nb.phi_functions@[k2]).possibilities
                    == bb.phi_functions@[k2].possibilities by {}
                assert forall|uu: int| 0 <= uu < updates@.len() implies #[trigger] renamed_by(nb.phi_functions@, updates@, updates@.len() as int, uu) by {
                    assert(renamed_by(bb.phi_functions@, updates@, updates@.len() as int, uu));
                    let k2 = updates@[uu].0 as int;
                    assert(nb.phi_functions@[k2].possibilities == bb.phi_functions@[k2].possibilities);
                }
                assert forall|i: int| 0 <= i < self.blocks@.len() implies {
                    &&& same_frame(#[trigger] self.blocks@[i], orig.blocks@[i])
                    &&& same_phi_shape(self.blocks@[i].phi_functions@, orig.blocks@[i].phi_functions@)
                    &&& self.blocks@[i].wf()
                } by {
                    assert(same_frame(before.blocks@[i], orig.blocks@[i]));
                    assert(same_phi_shape(before.blocks@[i].phi_functions@, orig.blocks@[i].phi_functions@));
                }
                self.lemma_reshaped(orig);
            }
            k = k + 1;
        }
        // Put the join copies first.
        let ghost before = *self;
        self.blocks[block_id].prepend_statements(join_stmts);
        proof {
            assert forall|i: int| 0 <= i < self.blocks@.len() implies {
                &&& same_frame(#[trigger] self.blocks@[i], orig.blocks@[i])
                &&& same_phi_shape(self.blocks@[i].phi_functions@, orig.blocks@[i].phi_functions@)
                &&& self.blocks@[i].wf()
            } by {
                assert(same_frame(before.blocks@[i], orig.blocks@[i]));
                assert(same_phi_shape(before.blocks@[i].phi_functions@, orig.blocks@[i].phi_functions@));
            }
            self.lemma_reshaped(orig);
            let nb = self.blocks@[block_id as int];
            assert forall|kk: int, jj: int|
                0 <= kk < ob.phi_functions@.len() && 0 <= jj < ob.predecessors@.len() implies #[trigger] has_tmp_operand_from(
                    nb.phi_functions@[kk],
                    ob.predecessors@[jj],
                ) by {
                assert(covered(updates@, ob.phi_functions@, kk, preds@[jj]));
                let uu = choose|uu: int|
                    0 <= uu < updates@.len() && (#[trigger] updates@[uu]).0 == kk
                        && ob.phi_functions@[kk].possibilities@[updates@[uu].1 as int].block == preds@[jj];
                let q2 = updates@[uu].1 as int;
                assert(same_phi_shape(nb.phi_functions@, ob.phi_functions@));
                assert(nb.phi_functions@[kk].possibilities@[q2].block == ob.phi_functions@[kk].possibilities@[q2].block);
            }
            assert forall|kk: int| 0 <= kk < ob.phi_functions@.len() implies is_copy(
                #[trigger] nb.statements@[kk],
                ob.phi_functions@[kk].output@,
                nb.phi_functions@[kk].output@,
            ) by {
                assert(nb.statements@[kk] == join_stmts@[kk]);
            }
            assert forall|i: int| 0 <= i < orig.blocks@.len() && i != block_id implies extends(
                orig.blocks@[i].statements@,
                (#[trigger] self.blocks@[i]).statements@,
            ) by {
                assert(extends(orig.blocks@[i].statements@, mid.blocks@[i].statements@));
            }
            let ms = mid.blocks@[block_id as int].statements@;
            assert(nb.statements@ == join_stmts@ + ms);
            assert(nb.statements@.subrange(nphis as int, (nphis + ob.statements@.len()) as int) =~= ms.take(ob.statements@.len() as int));
            assert(keeps_statements(nb, ob));
            assert forall|kk: int, jj: int| 0 <= kk < ob.phi_functions@.len() && 0 <= jj < ob.predecessors@.len() implies #[trigger] fed_by(
                self.blocks@[block_id as int].phi_functions@[kk],
                orig.blocks@[block_id as int].phi_functions@[kk],
                orig.blocks@[block_id as int].predecessors@[jj],
                self.blocks@[orig.blocks@[block_id as int].predecessors@[jj] as int].statements@,
            ) by {
                let p = ob.predecessors@[jj];
                assert(covered(updates@, ob.phi_functions@, kk, p));
                let uu = choose|uu: int|
                    0 <= uu < updates@.len() && (#[trigger] updates@[uu]).0 == kk
                        && ob.phi_functions@[kk].possibilities@[updates@[uu].1 as int].block == p;
                let q2 = updates@[uu].1 as int;
                assert(renamed_by(nb.phi_functions@, updates@, updates@.len() as int, uu));
                let uu2 = choose|uu2: int|
                    0 <= uu2 < updates@.len() && (#[trigger] updates@[uu2]).0 == updates@[uu].0 && updates@[uu2].1 == updates@[uu].1
                        && nb.phi_functions@[kk].possibilities@[q2].variable@ == updates@[uu2].2@;
                let v = nb.phi_functions@[kk].possibilities@[q2].variable@;
                let ov = ob.phi_functions@[kk].possibilities@[q2].variable@;
                assert(has_copy(mid.blocks@[p as int].statements@, updates@[uu2].2@, ov));
                assert(orig.block_ok(block_id as int));
                assert(p < orig.blocks@.len());
                if p == block_id {
                    assert(nb.statements@.subrange(nphis as int, nphis + ms.len()) =~= ms);
                    lemma_has_copy_moved(ms, nb.statements@, nphis as int, v, ov);
                } else {
                    assert(self.blocks@[p as int] == mid.blocks@[p as int]);
                }
                assert(same_phi_shape(nb.phi_functions@, ob.phi_functions@));
                assert(nb.phi_functions@[kk].possibilities@[q2].block == ob.phi_functions@[kk].possibilities@[q2].block);
                assert(is_tmp_name(v));
            }
            // The numbering of the temporaries.
            let e: nat = *next_tmp as nat;
            let ups = updates@;
            let at = |k: int, q: int| -> int {
                choose|u: int| 0 <= u < ups.len() && ups[u].0 == k && ups[u].1 == q
                    && nb.phi_functions@[k].possibilities@[q].variable@ == ups[u].2@
            };
            let ix = |k: int, q: int| -> nat { (s + nphis + at(k, q)) as nat };
            assert forall|k: int, q: int| #[trigger] reads_temp_at(ob, k, q) implies {
                &&& 0 <= at(k, q) < ups.len()
                &&& ups[at(k, q)].0 == k && ups[at(k, q)].1 == q
                &&& nb.phi_functions@[k].possibilities@[q].variable@ == ups[at(k, q)].2@
            } by {
                let p = ob.phi_functions@[k].possibilities@[q].block;
                let jj = choose|jj: int| 0 <= jj < ob.predecessors@.len() && ob.predecessors@[jj] == p;
                assert(covered(ups, ob.phi_functions@, k, preds@[jj]));
                let uu = choose|uu: int|
                    0 <= uu < ups.len() && (#[trigger] ups[uu]).0 == k
                        && ob.phi_functions@[k].possibilities@[ups[uu].1 as int].block == preds@[jj];
                let q1 = ups[uu].1 as int;
                if q1 < q {
                    assert(ob.phi_functions@[k].possibilities@[q1].block != ob.phi_functions@[k].possibilities@[q].block);
                }
                if q < q1 {
                    assert(ob.phi_functions@[k].possibilities@[q].block != ob.phi_functions@[k].possibilities@[q1].block);
                }
                assert(renamed_by(nb.phi_functions@, ups, ups.len() as int, uu));
                let uu2 = choose|uu2: int|
                    0 <= uu2 < ups.len() && (#[trigger] ups[uu2]).0 == ups[uu].0 && ups[uu2].1 == ups[uu].1
                        && nb.phi_functions@[k].possibilities@[q].variable@ == ups[uu2].2@;
            }
            assert forall|k: int| 0 <= k < nphis implies (#[trigger] nb.phi_functions@[k]).output@ == tmp_name((s + k) as nat) by {
                assert(join_tmps@[k]@ == tmp_name((s + k) as nat));
            }
            assert forall|k: int, q: int| #[trigger] reads_temp_at(ob, k, q) implies s + nphis <= ix(k, q) < e
                && nb.phi_functions@[k].possibilities@[q].variable@ == tmp_name(ix(k, q)) by {
                let u = at(k, q);
                assert(ups[u].2@ == tmp_name((s + nphis + u) as nat));
            }
            assert(temps_indexed(nb, ob, s, e, ix));
        }
    }
}

proof fn lemma_extends_refl_seq(a: Seq<Statement>)
    ensures
        extends(a, a),
{
    assert(a.take(a.len() as int) =~= a);
}

proof fn lemma_isolated_kept(nb: BasicBlock, nb2: BasicBlock, ob: BasicBlock)
    requires
        isolated(nb, ob),
        nb2.phi_functions@ == nb.phi_functions@,
        extends(nb.statements@, nb2.statements@),
    ensures
        isolated(nb2, ob),
{
    assert forall|k: int| 0 <= k < ob.phi_functions@.len() implies is_copy(
        #[trigger] nb2.statements@[k],
        ob.phi_functions@[k].output@,
        nb2.phi_functions@[k].output@,
    ) by {
        assert(nb2.statements@.take(nb.statements@.len() as int)[k] == nb2.statements@[k]);
    }
    assert forall|k: int, j: int|
        0 <= k < ob.phi_functions@.len() && 0 <= j < ob.predecessors@.len() implies #[trigger] has_tmp_operand_from(
            nb2.phi_functions@[k],
            ob.predecessors@[j],
        ) by {
        assert(has_tmp_operand_from(nb.phi_functions@[k], ob.predecessors@[j]));
    }
}

proof fn lemma_extends_trans(a: Seq<Statement>, b: Seq<Statement>, c: Seq<Statement>)
    requires
        extends(a, b),
        extends(b, c),
    ensures
        extends(a, c),
{
    assert(c.take(a.len() as int) =~= c.take(b.len() as int).take(a.len() as int));
}

impl CFG {
    pub proof fn lemma_reshaped_trans(&self, mid: CFG, before: CFG)
        requires
            self.reshaped_from(mid),
            mid.reshaped_from(before),
        ensures
            self.reshaped_from(before),
    {
        assert forall|i: int| 0 <= i < self.blocks@.len() implies {
            &&& same_frame(#[trigger] self.blocks@[i], before.blocks@[i])
            &&& same_phi_shape(self.blocks@[i].phi_functions@, before.blocks@[i].phi_functions@)
            &&& self.blocks@[i].wf()
        } by {
            let a = self.blocks@[i].phi_functions@;
            let b = mid.blocks@[i].phi_functions@;
            let c = before.blocks@[i].phi_functions@;
            assert(same_frame(mid.blocks@[i], before.blocks@[i]));
            assert(same_phi_shape(a, b));
            assert(same_phi_shape(b, c));
            assert forall|k: int| 0 <= k < a.len() implies (#[trigger] a[k]).possibilities@.len() == c[k].possibilities@.len() by {
                assert(b[k].possibilities@.len() == c[k].possibilities@.len());
            }
            assert forall|k: int, q: int| 0 <= k < a.len() && 0 <= q < a[k].possibilities@.len() implies
                (#[trigger] a[k].possibilities@[q]).block == c[k].possibilities@[q].block by {
                assert(b[k].possibilities@.len() == c[k].possibilities@.len());
                assert(b[k].possibilities@[q].block == c[k].possibilities@[q].block);
            }
        }
    }

    /// Phase 1: Isolate phi-functions by inserting copies to fresh temporaries.
    /// After this, the CFG is in Conventional SSA (C-SSA): phi-webs are interference-free.
    /// Phi-functions remain present but with all-fresh variables.
    ///
    /// For each block with φ-functions, each φ-function gets a fresh temporary
    /// `tmp_NNN` as output, copied into its old output by a statement put first in
    /// the block; and, for each predecessor, a copy of the operand that comes from it
    /// into a fresh temporary is appended to the predecessor, and the operand is
    /// renamed to that temporary. The temporaries are numbered from `tmp_000` on, block
    /// after block, so that no two places get the same one; the counter must not
    /// overflow.
    pub fn isolate_phis(&mut self)
        requires
            old(self).wf(),
            old(self).phis_complete(),
            isolation_temps(old(self).blocks@) <= usize::MAX,
        ensures
            forall|i: int, k: int| 0 <= i < old(self).blocks@.len() && 0 <= k < old(self).blocks@[i].phi_functions@.len()
                ==> (#[trigger] final(self).blocks@[i].phi_functions@[k]).output@ == tmp_name(
                (isolation_temps(old(self).blocks@.take(i)) + k) as nat),
            forall|i1: int, k1: int, q1: int, i2: int, k2: int, q2: int|
                #[trigger] temp_place(*old(self), i1, k1, q1) && #[trigger] temp_place(*old(self), i2, k2, q2) && (i1 != i2 || k1
                    != k2 || q1 != q2) ==> temp_at(*final(self), i1, k1, q1) != temp_at(*final(self), i2, k2, q2),
            final(self).reshaped_from(*old(self)),
            final(self).wf(),
            final(self).phis_complete(),
            forall|i: int| 0 <= i < old(self).blocks@.len() && old(self).blocks@[i].phi_functions@.len() > 0 ==> isolated(
                #[trigger] final(self).blocks@[i],
                old(self).blocks@[i],
            ),
            forall|i: int| 0 <= i < old(self).blocks@.len() && old(self).blocks@[i].phi_functions@.len() == 0 ==> {
                &&& (#[trigger] final(self).blocks@[i]).phi_functions@.len() == 0
                &&& extends(old(self).blocks@[i].statements@, final(self).blocks@[i].statements@)
            },
            forall|i: int| 0 <= i < old(self).blocks@.len() && old(self).blocks@[i].phi_functions@.len() > 0 ==> {
                &&& keeps_statements(#[trigger] final(self).blocks@[i], old(self).blocks@[i])
                &&& phis_fed(*final(self), *old(self), i)
            },
    {
        let ghost orig = *self;
        let mut next_tmp: usize = 0;
        let n = self.blocks.len();
        let mut b: usize = 0;
        let ghost mut ixs: Seq<spec_fn(int, int) -> nat> = Seq::empty();
        proof {
            self.lemma_reshaped_refl();
            self.lemma_extends_refl();
            assert(orig.blocks@.take(0) =~= Seq::<BasicBlock>::empty());
            assert(orig.blocks@.take(n as int) =~= orig.blocks@);
        }
        while b < n
            invariant
                orig.wf(),
                self.wf(),
                self.phis_complete(),
                self.reshaped_from(orig),
                n == orig.blocks@.len(),
                b <= n,
                forall|i: int| 0 <= i < b && orig.blocks@[i].phi_functions@.len() > 0 ==> isolated(
                    #[trigger] self.blocks@[i],
                    orig.blocks@[i],
                ),
                forall|i: int| 0 <= i < n && (i >= b || orig.blocks@[i].phi_functions@.len() == 0) ==> (#[trigger] self.blocks@[i]).phi_functions@
                    == orig.blocks@[i].phi_functions@,
                forall|i: int| 0 <= i < n && (i >= b || orig.blocks@[i].phi_functions@.len() == 0) ==> extends(
                    orig.blocks@[i].statements@,
                    (#[trigger] self.blocks@[i]).statements@,
                ),
                forall|i: int| 0 <= i < b && orig.blocks@[i].phi_functions@.len() > 0 ==> {
                    &&& keeps_statements(#[trigger] self.blocks@[i], orig.blocks@[i])
                    &&& phis_fed(*self, orig, i)
                },
                next_tmp == isolation_temps(orig.blocks@.take(b as int)),
                isolation_temps(orig.blocks@) <= usize::MAX,
                orig.blocks@.take(n as int) == orig.blocks@,
                ixs.len() == b,
                forall|i: int| 0 <= i < b && orig.blocks@[i].phi_functions@.len() > 0 ==> #[trigger] temps_indexed(
                    self.blocks@[i],
                    orig.blocks@[i],
                    isolation_temps(orig.blocks@.take(i)),
                    isolation_temps(orig.blocks@.take(i + 1)),
                    ixs[i],
                ),
            decreases n - b,
        {
            let ghost before = *self;
            proof {
                lemma_isolation_step(orig.blocks@, b as int);
                lemma_isolation_mono(orig.blocks@, b + 1, n as int);
                assert(same_frame(self.blocks@[b as int], orig.blocks@[b as int]));
                assert(temps_of(self.blocks@[b as int]) == temps_of(orig.blocks@[b as int]));
            }
            self.isolate_block(b, &mut next_tmp);
            proof {
                let ghost ixb: spec_fn(int, int) -> nat = if orig.blocks@[b as int].phi_functions@.len() > 0 {
                    choose|ix: spec_fn(int, int) -> nat| #[trigger] temps_indexed(
                        self.blocks@[b as int],
                        before.blocks@[b as int],
                        isolation_temps(orig.blocks@.take(b as int)),
                        isolation_temps(orig.blocks@.take(b + 1)),
                        ix,
                    )
                } else {
                    |k: int, q: int| 0nat
                };
                let ixs0 = ixs;
                ixs = ixs.push(ixb);
                assert forall|i: int| 0 <= i < b + 1 && orig.blocks@[i].phi_functions@.len() > 0 implies #[trigger] temps_indexed(
                    self.blocks@[i],
                    orig.blocks@[i],
                    isolation_temps(orig.blocks@.take(i)),
                    isolation_temps(orig.blocks@.take(i + 1)),
                    ixs[i],
                ) by {
                    if i < b {
                        assert(ixs[i] == ixs0[i]);
                        assert(temps_indexed(before.blocks@[i], orig.blocks@[i], isolation_temps(orig.blocks@.take(i)),
                            isolation_temps(orig.blocks@.take(i + 1)), ixs0[i]));
                        assert(self.blocks@[i].phi_functions@ == before.blocks@[i].phi_functions@);
                    } else {
                        assert(before.blocks@[i].phi_functions@ == orig.blocks@[i].phi_functions@);
                        assert(same_frame(before.blocks@[i], orig.blocks@[i]));
                        assert(ixs[i] == ixb);
                        lemma_temps_indexed_same(
                            self.blocks@[i],
                            before.blocks@[i],
                            orig.blocks@[i],
                            isolation_temps(orig.blocks@.take(i)),
                            isolation_temps(orig.blocks@.take(i + 1)),
                            ixb,
                        );
                    }
                }
            }
            proof {
                self.lemma_reshaped_trans(before, orig);
                assert forall|i: int| 0 <= i < b + 1 && orig.blocks@[i].phi_functions@.len() > 0 implies isolated(
                    #[trigger] self.blocks@[i],
                    orig.blocks@[i],
                ) by {
                    if i == b {
                        assert(same_frame(before.blocks@[i], orig.blocks@[i]));
                        assert(isolated(self.blocks@[i], before.blocks@[i]));
                    } else {
                        lemma_isolated_kept(before.blocks@[i], self.blocks@[i], orig.blocks@[i]);
                    }
                }
                assert forall|i: int| 0 <= i < n && (i >= b + 1 || orig.blocks@[i].phi_functions@.len() == 0) implies extends(
                    orig.blocks@[i].statements@,
                    (#[trigger] self.blocks@[i]).statements@,
                ) by {
                    if i != b {
                        lemma_extends_trans(orig.blocks@[i].statements@, before.blocks@[i].statements@, self.blocks@[i].statements@);
                    }
                }
                // Every copy in a block's statements survives this step.
                assert forall|p: int, o: Seq<char>, inp: Seq<char>|
                    0 <= p < n && #[trigger] has_copy(before.blocks@[p].statements@, o, inp) implies has_copy(self.blocks@[p].statements@, o, inp) by {
                    if p == b && before.blocks@[p].phi_functions@.len() > 0 {
                        let nb = self.blocks@[p];
                        let bb = before.blocks@[p];
                        let m = bb.phi_functions@.len() as int;
                        assert(keeps_statements(nb, bb));
                        lemma_has_copy_moved(bb.statements@, nb.statements@, m, o, inp);
                    } else if p == b {
                        assert(self.blocks@[p] == before.blocks@[p]);
                    } else {
                        lemma_has_copy_extends(before.blocks@[p].statements@, self.blocks@[p].statements@, o, inp);
                    }
                }
                assert forall|i: int| 0 <= i < b + 1 && orig.blocks@[i].phi_functions@.len() > 0 implies {
                    &&& keeps_statements(#[trigger] self.blocks@[i], orig.blocks@[i])
                    &&& phis_fed(*self, orig, i)
                } by {
                    assert(orig.block_ok(i));
                    assert(same_frame(before.blocks@[i], orig.blocks@[i]));
                    if i == b {
                        assert(extends(orig.blocks@[i].statements@, before.blocks@[i].statements@));
                        lemma_extends_refl_seq(self.blocks@[i].statements@);
                        lemma_keeps_kept(self.blocks@[i], self.blocks@[i], before.blocks@[i], orig.blocks@[i]);
                        assert(phis_fed(*self, before, i));
                    } else {
                        lemma_extends_refl_seq(orig.blocks@[i].statements@);
                        lemma_keeps_kept(before.blocks@[i], self.blocks@[i], orig.blocks@[i], orig.blocks@[i]);
                    }
                    assert forall|k: int, j: int|
                        0 <= k < orig.blocks@[i].phi_functions@.len() && 0 <= j < orig.blocks@[i].predecessors@.len() implies #[trigger] fed_by(
                            self.blocks@[i].phi_functions@[k],
                            orig.blocks@[i].phi_functions@[k],
                            orig.blocks@[i].predecessors@[j],
                            self.blocks@[orig.blocks@[i].predecessors@[j] as int].statements@,
                        ) by {
                        let p = orig.blocks@[i].predecessors@[j];
                        if i == b {
                            assert(before.blocks@[i].predecessors@ == orig.blocks@[i].predecessors@);
                            assert(fed_by(
                                self.blocks@[i].phi_functions@[k],
                                before.blocks@[i].phi_functions@[k],
                                before.blocks@[i].predecessors@[j],
                                self.blocks@[before.blocks@[i].predecessors@[j] as int].statements@,
                            ));
                        } else {
                            assert(phis_fed(before, orig, i));
                            assert(fed_by(
                                before.blocks@[i].phi_functions@[k],
                                orig.blocks@[i].phi_functions@[k],
                                p,
                                before.blocks@[p as int].statements@,
                            ));
                            assert(p < n);
                            lemma_fed_kept(
                                before.blocks@[i].phi_functions@[k],
                                orig.blocks@[i].phi_functions@[k],
                                p,
                                before.blocks@[p as int].statements@,
                                self.blocks@[p as int].statements@,
                            );
                        }
                    }
                }
            }
            b = b + 1;
        }
        proof {
            assert forall|i: int, k: int| 0 <= i < orig.blocks@.len() && 0 <= k < orig.blocks@[i].phi_functions@.len()
                implies (#[trigger] self.blocks@[i].phi_functions@[k]).output@ == tmp_name((isolation_temps(orig.blocks@.take(i)) + k) as nat) by {
                assert(temps_indexed(self.blocks@[i], orig.blocks@[i], isolation_temps(orig.blocks@.take(i)),
                    isolation_temps(orig.blocks@.take(i + 1)), ixs[i]));
            }
            assert forall|i1: int, k1: int, q1: int, i2: int, k2: int, q2: int|
                #[trigger] temp_place(orig, i1, k1, q1) && #[trigger] temp_place(orig, i2, k2, q2) && (i1 != i2 || k1 != k2
                    || q1 != q2) implies temp_at(*self, i1, k1, q1) != temp_at(*self, i2, k2, q2) by {
                lemma_temps_distinct(*self, orig, ixs, i1, k1, q1, i2, k2, q2);
            }
        }
    }
}

/// The position of the last statement that defines `name`.
pub fn last_definition(stmts: &Vec<Statement>, name: &String) -> (r: Option<usize>)
    ensures
        match r {
            Some(i) => i < stmts@.len() && stmts@[i as int]@.output == Some(name@) && forall|k: int|
                i < k < stmts@.len() ==> (#[trigger] stmts@[k])@.output != Some(name@),
            None => forall|k: int| 0 <= k < stmts@.len() ==> (#[trigger] stmts@[k])@.output != Some(name@),
        },
{
    let mut i: usize = stmts.len();
    while i > 0
        invariant
            i <= stmts@.len(),
            forall|k: int| i <= k < stmts@.len() ==> (#[trigger] stmts@[k])@.output != Some(name@),
        decreases i,
    {
        i = i - 1;
        match &stmts[i].output {
            Some(o) => {
                if *o == *name {
                    return Some(i);
                }
            },
            None => {},
        }
    }
    None
}

/// The statements that are not copies of a variable into itself.
pub open spec fn not_identity_copy() -> spec_fn(Statement) -> bool {
    |st: Statement| !st.spec_is_identity_copy()
}

impl BasicBlock {
    /// Appends a statement without recording a declaration.
    pub fn append_statement(&mut self, stmt: Statement)
        ensures
            final(self).statements@ == old(self).statements@.push(stmt),
            final(self).phi_functions == old(self).phi_functions,
            final(self).declarations == old(self).declarations,
            same_frame(*final(self), *old(self)),
            final(self).successors == old(self).successors,
    {
        self.statements.push(stmt);
    }

    /// Removes the statement at `idx`, if there is one.
    pub fn remove_statement(&mut self, idx: usize)
        ensures
            idx < old(self).statements@.len() ==> final(self).statements@ == old(self).statements@.remove(idx as int),
            idx >= old(self).statements@.len() ==> final(self).statements@ == old(self).statements@,
            final(self).phi_functions == old(self).phi_functions,
            final(self).declarations == old(self).declarations,
            same_frame(*final(self), *old(self)),
            final(self).successors == old(self).successors,
    {
        if idx < self.statements.len() {
            self.statements.remove(idx);
        }
    }

    /// Removes every φ-function.
    pub fn clear_phis(&mut self)
        ensures
            final(self).phi_functions@.len() == 0,
            final(self).statements == old(self).statements,
            final(self).declarations == old(self).declarations,
            same_frame(*final(self), *old(self)),
            final(self).successors == old(self).successors,
    {
        self.phi_functions.clear();
    }

    /// Removes the copies of a variable into itself.
    pub fn drop_identity_copies(&mut self)
        ensures
            final(self).statements@ == old(self).statements@.filter(not_identity_copy()),
            final(self).phi_functions == old(self).phi_functions,
            final(self).declarations == old(self).declarations,
            same_frame(*final(self), *old(self)),
            final(self).successors == old(self).successors,
    {
        let mut kept: Vec<Statement> = Vec::new();
        let mut rest: Vec<Statement> = Vec::new();
        rest.append(&mut self.statements);
        let ghost all = rest@;
        let total = rest.len();
        let mut i: usize = 0;
        while rest.len() > 0
            invariant
                total == all.len(),
                i + rest@.len() == all.len(),
                rest@ == all.skip(i as int),
                kept@ == all.take(i as int).filter(not_identity_copy()),
            decreases rest@.len(),
        {
            let st = rest.remove(0);
            let ghost kept0 = kept@;
            proof {
                reveal(Seq::filter);
                assert(all.take(i + 1).drop_last() =~= all.take(i as int));
                assert(all.take(i + 1).last() == st);
                assert(not_identity_copy()(st) == !st.spec_is_identity_copy());
                assert(all.take(i + 1).filter(not_identity_copy()) == if !st.spec_is_identity_copy() {
                    kept0.push(st)
                } else {
                    kept0
                });
            }
            if !st.is_identity_copy() {
                kept.push(st);
            }
            i = i + 1;
            proof {
                assert(rest@ =~= all.skip(i as int));
            }
        }
        proof {
            assert(all.take(i as int) =~= all);
        }
        self.statements = kept;
    }
}

/// Position of the first operand of `phi` that comes from block `pred`.
pub open spec fn first_from(phi: PhiFunction, pred: usize) -> int {
    choose|q: int|
        0 <= q < phi.possibilities@.len() && phi.possibilities@[q].block == pred && forall|q2: int|
            0 <= q2 < q ==> (#[trigger] phi.possibilities@[q2]).block != pred
}

/// Some statement of `stmts` defines `x`.
pub open spec fn defines(stmts: Seq<Statement>, x: Seq<char>) -> bool {
    exists|i: int| 0 <= i < stmts.len() && #[trigger] stmts[i]@.output == Some(x)
}

/// Position of the last statement of `stmts` that defines `x`.
pub open spec fn last_def_at(stmts: Seq<Statement>, x: Seq<char>) -> int {
    choose|i: int|
        0 <= i < stmts.len() && stmts[i]@.output == Some(x) && forall|k: int|
            i < k < stmts.len() ==> (#[trigger] stmts[k])@.output != Some(x)
}

/// The copy that the edge from `pred` asks of the φ-function `phi`, where `stmts`
/// are the statements of `pred`: the output of `phi` takes the operand from `pred`,
/// or the source of the copy that last defined that operand; no copy where the
/// operand is the output itself.
pub open spec fn edge_copy(phi: PhiFunction, pred: usize, stmts: Seq<Statement>) -> Option<(Seq<char>, Seq<char>)> {
    let target = phi.output@;
    let arg = phi.possibilities@[first_from(phi, pred)].variable@;
    if target == arg {
        None
    } else if defines(stmts, arg) && stmts[last_def_at(stmts, arg)].spec_copy_source() is Some {
        Some((target, stmts[last_def_at(stmts, arg)].spec_copy_source().unwrap()))
    } else {
        Some((target, arg))
    }
}

/// The parallel copies that the edge from `pred` asks of the φ-functions `phis`, in
/// their order.
pub open spec fn edge_copies(phis: Seq<PhiFunction>, pred: usize, stmts: Seq<Statement>) -> Seq<(Seq<char>, Seq<char>)>
    decreases phis.len(),
{
    if phis.len() == 0 {
        Seq::empty()
    } else {
        let rest = edge_copies(phis.drop_last(), pred, stmts);
        match edge_copy(phis.last(), pred, stmts) {
            Some(c) => rest.push(c),
            None => rest,
        }
    }
}

/// `after` keeps the first `m` places for statements taken from `before`, and holds
/// after them one copy statement for each pair of `tail`, in order.
pub open spec fn ends_with_copies(before: Seq<Statement>, after: Seq<Statement>, m: int, tail: Seq<(Seq<char>, Seq<char>)>) -> bool {
    &&& 0 <= m <= before.len()
    &&& after.len() == m + tail.len()
    &&& forall|s: int| 0 <= s < m ==> before.contains(#[trigger] after[s])
    &&& forall|t: int| m <= t < after.len() ==> is_copy(#[trigger] after[t], tail[t - m].0, tail[t - m].1)
}

/// Run one after the other, the copies `tail` leave every variable that is no
/// temporary as the copies `par` run at once would, where `par` is free of clashes.
pub open spec fn same_effect(tail: Seq<(Seq<char>, Seq<char>)>, par: Seq<(Seq<char>, Seq<char>)>) -> bool {
    dests_distinct(par) && no_temp_names(par) ==> forall|env: spec_fn(Seq<char>) -> int, x: Seq<char>|
        !is_seq_temp(x) ==> #[trigger] run_copies(tail, env)(x) == parallel_value(par, env, x)
}

/// The block that `b` lists as its `jp`-th predecessor exists, is listed there once,
/// and by no other block.
pub open spec fn sole_edge(blocks: Seq<BasicBlock>, b: int, jp: int) -> bool {
    &&& 0 <= b < blocks.len()
    &&& 0 <= jp < blocks[b].predecessors@.len()
    &&& blocks[b].predecessors@[jp] < blocks.len()
    &&& forall|b2: int, j2: int|
        0 <= b2 < blocks.len() && 0 <= j2 < blocks[b2].predecessors@.len() && #[trigger] blocks[b2].predecessors@[j2]
            == blocks[b].predecessors@[jp] ==> b2 == b && j2 == jp
}

/// The statements `after` of block `p` are its statements `before` followed by copies
/// that, run in order, do what the copies asked of the edge from `p` by the
/// φ-functions `phis` do at once.
pub open spec fn edge_resolved(before: Seq<Statement>, after: Seq<Statement>, phis: Seq<PhiFunction>, p: usize) -> bool {
    exists|m: int, tail: Seq<(Seq<char>, Seq<char>)>| {
        &&& #[trigger] ends_with_copies(before, after, m, tail)
        &&& same_effect(tail, edge_copies(phis, p, before))
    }
}

/// The edge into block `b` from its `jp`-th predecessor is resolved in `now`, with
/// respect to the blocks `orig`.
pub open spec fn edge_done(now: Seq<BasicBlock>, orig: Seq<BasicBlock>, b: int, jp: int) -> bool {
    let p = orig[b].predecessors@[jp];
    edge_resolved(orig[p as int].statements@, now[p as int].statements@, orig[b].phi_functions@, p)
}

/// The copies of one variable into another.
pub open spec fn moving_copy() -> spec_fn((Seq<char>, Seq<char>)) -> bool {
    |c: (Seq<char>, Seq<char>)| c.0 != c.1
}

proof fn lemma_copy_identity(st: Statement, o: Seq<char>, i: Seq<char>)
    requires
        is_copy(st, o, i),
    ensures
        st.spec_is_identity_copy() <==> o == i,
{
    assert(exprs_view(st.value.operands@).len() == 1);
    assert(exprs_view(st.value.operands@)[0] == st.value.operands@[0]@);
    assert(st.spec_copy_source() == Some(i));
}

/// Dropping the copies of a variable into itself from statements that are the copies
/// `tail` leaves the copies of `tail` that move a value, with the same effect.
proof fn lemma_filter_copies(stmts: Seq<Statement>, tail: Seq<(Seq<char>, Seq<char>)>)
    requires
        stmts.len() == tail.len(),
        forall|t: int| 0 <= t < stmts.len() ==> is_copy(#[trigger] stmts[t], tail[t].0, tail[t].1),
    ensures
        stmts.filter(not_identity_copy()).len() == tail.filter(moving_copy()).len(),
        forall|t: int| 0 <= t < stmts.filter(not_identity_copy()).len() ==> is_copy(
            #[trigger] stmts.filter(not_identity_copy())[t],
            tail.filter(moving_copy())[t].0,
            tail.filter(moving_copy())[t].1,
        ),
        forall|env: spec_fn(Seq<char>) -> int, x: Seq<char>| #[trigger] run_copies(tail.filter(moving_copy()), env)(x)
            == run_copies(tail, env)(x),
    decreases stmts.len(),
{
    reveal(Seq::filter);
    if stmts.len() > 0 {
        let s2 = stmts.drop_last();
        let t2 = tail.drop_last();
        assert forall|t: int| 0 <= t < s2.len() implies is_copy(#[trigger] s2[t], t2[t].0, t2[t].1) by {
            assert(s2[t] == stmts[t]);
        }
        lemma_filter_copies(s2, t2);
        let st = stmts.last();
        let c = tail.last();
        assert(is_copy(stmts[stmts.len() - 1], tail[tail.len() - 1].0, tail[tail.len() - 1].1));
        lemma_copy_identity(st, c.0, c.1);
        let sf = s2.filter(not_identity_copy());
        let tf = t2.filter(moving_copy());
        assert(not_identity_copy()(st) == !st.spec_is_identity_copy());
        assert(moving_copy()(c) == (c.0 != c.1));
        if c.0 == c.1 {
            assert(stmts.filter(not_identity_copy()) == sf);
            assert(tail.filter(moving_copy()) == tf);
            assert forall|env: spec_fn(Seq<char>) -> int, x: Seq<char>| #[trigger] run_copies(tail.filter(moving_copy()), env)(x)
                == run_copies(tail, env)(x) by {
                assert(run_copies(tf, env)(x) == run_copies(t2, env)(x));
            }
        } else {
            assert(stmts.filter(not_identity_copy()) == sf.push(st));
            assert(tail.filter(moving_copy()) == tf.push(c));
            assert forall|t: int| 0 <= t < stmts.filter(not_identity_copy()).len() implies is_copy(
                #[trigger] stmts.filter(not_identity_copy())[t],
                tail.filter(moving_copy())[t].0,
                tail.filter(moving_copy())[t].1,
            ) by {
                if t < sf.len() {
                    assert(stmts.filter(not_identity_copy())[t] == sf[t]);
                    assert(tail.filter(moving_copy())[t] == tf[t]);
                }
            }
            assert forall|env: spec_fn(Seq<char>) -> int, x: Seq<char>| #[trigger] run_copies(tail.filter(moving_copy()), env)(x)
                == run_copies(tail, env)(x) by {
                assert(tf.push(c).drop_last() =~= tf);
                assert(run_copies(tf, env)(x) == run_copies(t2, env)(x));
                assert(run_copies(tf, env)(c.1) == run_copies(t2, env)(c.1));
            }
        }
    }
}

/// The statements kept out of `a` by dropping copies of a variable into itself are
/// among `before` when those of `a` are.
proof fn lemma_filter_within(a: Seq<Statement>, before: Seq<Statement>)
    requires
        forall|s: int| 0 <= s < a.len() ==> before.contains(#[trigger] a[s]),
    ensures
        forall|k: int| 0 <= k < a.filter(not_identity_copy()).len() ==> before.contains(
            #[trigger] a.filter(not_identity_copy())[k],
        ),
    decreases a.len(),
{
    reveal(Seq::filter);
    if a.len() > 0 {
        let a2 = a.drop_last();
        assert forall|s: int| 0 <= s < a2.len() implies before.contains(#[trigger] a2[s]) by {
            assert(a2[s] == a[s]);
        }
        lemma_filter_within(a2, before);
        assert(before.contains(a[a.len() - 1]));
        let f2 = a2.filter(not_identity_copy());
        assert forall|k: int| 0 <= k < a.filter(not_identity_copy()).len() implies before.contains(
            #[trigger] a.filter(not_identity_copy())[k],
        ) by {
            if k < f2.len() {
                assert(a.filter(not_identity_copy())[k] == f2[k]);
            }
        }
    }
}

/// A resolved edge stays resolved when the copies of a variable into itself are
/// dropped from the statements of its predecessor.
proof fn lemma_resolved_filtered(before: Seq<Statement>, after: Seq<Statement>, phis: Seq<PhiFunction>, p: usize)
    requires
        edge_resolved(before, after, phis, p),
    ensures
        edge_resolved(before, after.filter(not_identity_copy()), phis, p),
{
    let (m, tail) = choose|m: int, tail: Seq<(Seq<char>, Seq<char>)>| #[trigger] ends_with_copies(before, after, m, tail)
        && same_effect(tail, edge_copies(phis, p, before));
    let par = edge_copies(phis, p, before);
    let a = after.subrange(0, m);
    let t = after.subrange(m, after.len() as int);
    assert(after =~= a + t);
    Seq::filter_distributes_over_add(a, t, not_identity_copy());
    let af = a.filter(not_identity_copy());
    let tf = t.filter(not_identity_copy());
    assert forall|s: int| 0 <= s < a.len() implies before.contains(#[trigger] a[s]) by {
        assert(a[s] == after[s]);
    }
    lemma_filter_within(a, before);
    a.lemma_filter_len(not_identity_copy());
    assert forall|s: int| 0 <= s < t.len() implies is_copy(#[trigger] t[s], tail[s].0, tail[s].1) by {
        assert(t[s] == after[m + s]);
    }
    lemma_filter_copies(t, tail);
    let tail2 = tail.filter(moving_copy());
    let after2 = after.filter(not_identity_copy());
    assert(after2 == af + tf);
    assert forall|s: int| 0 <= s < af.len() implies before.contains(#[trigger] after2[s]) by {
        assert(after2[s] == af[s]);
    }
    assert forall|x: int| af.len() <= x < after2.len() implies is_copy(
        #[trigger] after2[x],
        tail2[x - af.len()].0,
        tail2[x - af.len()].1,
    ) by {
        assert(after2[x] == tf[x - af.len()]);
    }
    assert(ends_with_copies(before, after2, af.len() as int, tail2));
    if dests_distinct(par) && no_temp_names(par) {
        assert forall|env: spec_fn(Seq<char>) -> int, x: Seq<char>| !is_seq_temp(x) implies #[trigger] run_copies(tail2, env)(x)
            == parallel_value(par, env, x) by {
            assert(run_copies(tail2, env)(x) == run_copies(tail, env)(x));
            assert(run_copies(tail, env)(x) == parallel_value(par, env, x));
        }
    }
    assert(same_effect(tail2, par));
}

impl CFG {
    /// The blocks of `self` are those of `orig` with other statements and with their
    /// φ-functions kept or removed.
    pub open spec fn cleared_from(&self, orig: CFG) -> bool {
        &&& self.blocks@.len() == orig.blocks@.len()
        &&& self.entry == orig.entry
        &&& self.non_ssa_variables == orig.non_ssa_variables
        &&& self.definitions == orig.definitions
        &&& self.def_use == orig.def_use
        &&& forall|i: int| 0 <= i < self.blocks@.len() ==> {
            &&& same_frame(#[trigger] self.blocks@[i], orig.blocks@[i])
            &&& self.blocks@[i].wf()
            &&& (self.blocks@[i].phi_functions@ == orig.blocks@[i].phi_functions@ || self.blocks@[i].phi_functions@.len()
                == 0)
        }
    }

    pub proof fn lemma_cleared(&self, orig: CFG)
        requires
            orig.wf(),
            orig.phis_complete(),
            self.cleared_from(orig),
        ensures
            self.wf(),
            self.phis_complete(),
    {
        let n = self.blocks@.len();
        assert forall|i: int|
            0 <= i < orig.blocks@.len() implies succ_targets((#[trigger] self.blocks@[i]).successors) == succ_targets(
                orig.blocks@[i].successors,
            ) && self.blocks@[i].predecessors@ == orig.blocks@[i].predecessors@ by {
            assert(same_frame(self.blocks@[i], orig.blocks@[i]));
        }
        self.lemma_links_kept(orig);
        assert forall|i: int| 0 <= i < n implies #[trigger] self.block_ok(i) by {
            assert(orig.block_ok(i));
            let b = self.blocks@[i];
            let ob = orig.blocks@[i];
            assert(same_frame(b, ob));
            assert forall|j: int| 0 <= j < b.predecessors@.len() implies #[trigger] b.predecessors@[j] < n by {
                assert(b.predecessors@[j] == ob.predecessors@[j]);
            }
            assert forall|j: int| 0 <= j < succ_targets(b.successors).len() implies #[trigger] succ_targets(
                b.successors,
            )[j] < n by {
                assert(succ_targets(b.successors)[j] == succ_targets(ob.successors)[j]);
            }
        }
        assert forall|k: Seq<char>| #[trigger] self.def_use@.contains_key(k) implies self.uses_ok(k) by {
            assert(orig.uses_ok(k));
        }
        assert forall|b: int, k: int, j: int|
            0 <= b < self.blocks@.len() && 0 <= k < self.blocks@[b].phi_functions@.len() && 0 <= j
                < self.blocks@[b].predecessors@.len() implies #[trigger] has_operand_from(
                self.blocks@[b].phi_functions@[k],
                self.blocks@[b].predecessors@[j],
            ) by {
            assert(same_frame(self.blocks@[b], orig.blocks@[b]));
            assert(has_operand_from(orig.blocks@[b].phi_functions@[k], orig.blocks@[b].predecessors@[j]));
        }
    }

    /// Replaces, at the end of `pred`, the copies that feed the φ-functions of
    /// `block_id` by the sequentialized parallel copies of the φ-functions.
    fn resolve_edge(&mut self, block_id: usize, pred: usize, Ghost(orig): Ghost<CFG>)
        requires
            orig.wf(),
            orig.phis_complete(),
            old(self).cleared_from(orig),
            block_id < orig.blocks@.len(),
            orig.blocks@[block_id as int].predecessors@.contains(pred),
            old(self).blocks@[block_id as int].phi_functions@ == orig.blocks@[block_id as int].phi_functions@,
        ensures
            final(self).cleared_from(orig),
            forall|i: int| 0 <= i < orig.blocks@.len() ==> (#[trigger] final(self).blocks@[i]).phi_functions@
                == old(self).blocks@[i].phi_functions@,
            forall|i: int| 0 <= i < old(self).blocks@.len() && i != pred ==> #[trigger] final(self).blocks@[i] == old(self).blocks@[i],
            exists|m: int, tail: Seq<(Seq<char>, Seq<char>)>| {
                &&& #[trigger] ends_with_copies(old(self).blocks@[pred as int].statements@, final(self).blocks@[pred as int].statements@, m, tail)
                &&& same_effect(tail, edge_copies(
                    old(self).blocks@[block_id as int].phi_functions@,
                    pred,
                    old(self).blocks@[pred as int].statements@,
                ))
            },
    {
        proof {
            self.lemma_cleared(orig);
            assert(orig.block_ok(block_id as int));
            assert(same_frame(self.blocks@[block_id as int], orig.blocks@[block_id as int]));
        }
        let ghost start = self.blocks@;
        let ghost phis = self.blocks@[block_id as int].phi_functions@;
        let ghost stmts0 = self.blocks@[pred as int].statements@;
        let ghost jp = choose|jp: int| 0 <= jp < orig.blocks@[block_id as int].predecessors@.len()
            && orig.blocks@[block_id as int].predecessors@[jp] == pred;
        let nphis = self.blocks[block_id].phi_functions.len();
        let mut parallel: Vec<(String, String)> = Vec::new();
        let mut to_remove: crate::collections::ItemSet<usize> = crate::collections::ItemSet::new();
        let mut k: usize = 0;
        proof {
            assert(phis.take(0) =~= Seq::<PhiFunction>::empty());
            assert(copies_view(parallel@) =~= Seq::<(Seq<char>, Seq<char>)>::empty());
        }
        while k < nphis
            invariant
                orig.wf(),
                orig.phis_complete(),
                self.wf(),
                self.phis_complete(),
                block_id < self.blocks@.len(),
                pred < self.blocks@.len(),
                0 <= jp < self.blocks@[block_id as int].predecessors@.len(),
                self.blocks@[block_id as int].predecessors@[jp] == pred,
                nphis == self.blocks@[block_id as int].phi_functions@.len(),
                to_remove.wf(),
                k <= nphis,
                self.blocks@ == start,
                phis == start[block_id as int].phi_functions@,
                stmts0 == start[pred as int].statements@,
                copies_view(parallel@) == edge_copies(phis.take(k as int), pred, stmts0),
            decreases nphis - k,
        {
            proof {
                assert(has_operand_from(self.blocks@[block_id as int].phi_functions@[k as int], self.blocks@[block_id as int].predecessors@[jp]));
            }
            let ghost phi = phis[k as int];
            let ghost before_par = copies_view(parallel@);
            let target = self.blocks[block_id].phi_functions[k].output.clone();
            let q = operand_position(&self.blocks[block_id].phi_functions[k], pred).unwrap();
            proof {
                let f = first_from(phi, pred);
                assert(0 <= f < phi.possibilities@.len() && phi.possibilities@[f].block == pred && forall|q2: int|
                    0 <= q2 < f ==> (#[trigger] phi.possibilities@[q2]).block != pred);
                if f < q {
                    assert(phi.possibilities@[f].block != pred);
                }
                if q < f {
                    assert(phi.possibilities@[q as int].block != pred);
                }
                assert(f == q);
            }
            let arg = self.blocks[block_id].phi_functions[k].possibilities[q].variable.clone();
            if !(target == arg) {
                match last_definition(&self.blocks[pred].statements, &arg) {
                    Some(idx) => {
                        proof {
                            let l = last_def_at(stmts0, arg@);
                            assert(defines(stmts0, arg@));
                            assert(0 <= l < stmts0.len() && stmts0[l]@.output == Some(arg@) && forall|kk: int|
                                l < kk < stmts0.len() ==> (#[trigger] stmts0[kk])@.output != Some(arg@));
                            if l < idx {
                                assert(stmts0[idx as int]@.output != Some(arg@));
                            }
                            if idx < l {
                                assert(stmts0[l]@.output != Some(arg@));
                            }
                            assert(l == idx);
                        }
                        match self.blocks[pred].statements[idx].copy_source() {
                            Some(src) => {
                                parallel.push((target, src.clone()));
                                to_remove.insert(idx);
                            },
                            None => {
                                parallel.push((target, arg));
                            },
                        }
                    },
                    None => {
                        proof {
                            assert(!defines(stmts0, arg@));
                        }
                        parallel.push((target, arg));
                    },
                }
            }
            proof {
                assert(phis.take(k + 1).drop_last() =~= phis.take(k as int));
                assert(phis.take(k + 1).last() == phi);
                assert(copies_view(parallel@) =~= edge_copies(phis.take(k + 1), pred, stmts0));
            }
            k = k + 1;
        }
        proof {
            assert(phis.take(nphis as int) =~= phis);
        }
        let ghost par = copies_view(parallel@);
        // Remove the old copies, from the last to the first.
        let mut r: usize = to_remove.items.len();
        while r > 0
            invariant
                orig.wf(),
                orig.phis_complete(),
                self.cleared_from(orig),
                r <= to_remove.items@.len(),
                pred < orig.blocks@.len(),
                forall|i: int| 0 <= i < orig.blocks@.len() ==> (#[trigger] self.blocks@[i]).phi_functions@
                    == old(self).blocks@[i].phi_functions@,
                start == old(self).blocks@,
                stmts0 == start[pred as int].statements@,
                forall|i: int| 0 <= i < start.len() && i != pred ==> #[trigger] self.blocks@[i] == start[i],
                self.blocks@.len() == start.len(),
                self.blocks@[pred as int].statements@.len() <= stmts0.len(),
                forall|s: int| 0 <= s < self.blocks@[pred as int].statements@.len() ==> stmts0.contains(
                    #[trigger] self.blocks@[pred as int].statements@[s],
                ),
            decreases r,
        {
            r = r - 1;
            let idx = to_remove.items[r];
            let ghost before = *self;
            self.blocks[pred].remove_statement(idx);
            proof {
                assert forall|i: int| 0 <= i < self.blocks@.len() implies {
                    &&& same_frame(#[trigger] self.blocks@[i], orig.blocks@[i])
                    &&& self.blocks@[i].wf()
                    &&& (self.blocks@[i].phi_functions@ == orig.blocks@[i].phi_functions@ || self.blocks@[i].phi_functions@.len() == 0)
                } by {
                    assert(same_frame(before.blocks@[i], orig.blocks@[i]));
                }
                assert forall|i: int| 0 <= i < start.len() && i != pred implies #[trigger] self.blocks@[i] == start[i] by {
                    assert(self.blocks@[i] == before.blocks@[i]);
                }
                let bs = before.blocks@[pred as int].statements@;
                assert forall|s: int| 0 <= s < self.blocks@[pred as int].statements@.len() implies stmts0.contains(
                    #[trigger] self.blocks@[pred as int].statements@[s],
                ) by {
                    if idx < bs.len() {
                        if s < idx {
                            assert(self.blocks@[pred as int].statements@[s] == bs[s]);
                        } else {
                            assert(self.blocks@[pred as int].statements@[s] == bs[s + 1]);
                        }
                    }
                }
            }
        }
        let ghost m = self.blocks@[pred as int].statements@.len() as int;
        // Append the sequentialized copies.
        let sequential = sequentialize_parallel_copies(parallel);
        let ghost tail = copies_view(sequential@);
        let mut c: usize = 0;
        while c < sequential.len()
            invariant
                orig.wf(),
                orig.phis_complete(),
                self.cleared_from(orig),
                c <= sequential@.len(),
                pred < orig.blocks@.len(),
                forall|i: int| 0 <= i < orig.blocks@.len() ==> (#[trigger] self.blocks@[i]).phi_functions@
                    == old(self).blocks@[i].phi_functions@,
                start == old(self).blocks@,
                stmts0 == start[pred as int].statements@,
                forall|i: int| 0 <= i < start.len() && i != pred ==> #[trigger] self.blocks@[i] == start[i],
                self.blocks@.len() == start.len(),
                tail == copies_view(sequential@),
                0 <= m <= stmts0.len(),
                self.blocks@[pred as int].statements@.len() == m + c,
                forall|s: int| 0 <= s < m ==> stmts0.contains(#[trigger] self.blocks@[pred as int].statements@[s]),
                forall|t: int| m <= t < m + c ==> is_copy(#[trigger] self.blocks@[pred as int].statements@[t], tail[t - m].0, tail[t - m].1),
            decreases sequential@.len() - c,
        {
            let stmt = Self::make_copy(sequential[c].0.clone(), sequential[c].1.clone());
            let ghost before = *self;
            self.blocks[pred].append_statement(stmt);
            proof {
                assert forall|i: int| 0 <= i < self.blocks@.len() implies {
                    &&& same_frame(#[trigger] self.blocks@[i], orig.blocks@[i])
                    &&& self.blocks@[i].wf()
                    &&& (self.blocks@[i].phi_functions@ == orig.blocks@[i].phi_functions@ || self.blocks@[i].phi_functions@.len() == 0)
                } by {
                    assert(same_frame(before.blocks@[i], orig.blocks@[i]));
                }
                assert forall|i: int| 0 <= i < start.len() && i != pred implies #[trigger] self.blocks@[i] == start[i] by {
                    assert(self.blocks@[i] == before.blocks@[i]);
                }
                let bs = before.blocks@[pred as int].statements@;
                assert(tail[c as int] == (sequential@[c as int].0@, sequential@[c as int].1@));
                assert forall|s: int| 0 <= s < m implies stmts0.contains(#[trigger] self.blocks@[pred as int].statements@[s]) by {
                    assert(self.blocks@[pred as int].statements@[s] == bs[s]);
                }
                assert forall|t: int| m <= t < m + c + 1 implies is_copy(#[trigger] self.blocks@[pred as int].statements@[t], tail[t - m].0, tail[t - m].1) by {
                    if t < m + c {
                        assert(self.blocks@[pred as int].statements@[t] == bs[t]);
                    }
                }
            }
            c = c + 1;
        }
        proof {
            assert(ends_with_copies(stmts0, self.blocks@[pred as int].statements@, m, tail));
            assert(same_effect(tail, par));
        }
    }

    /// Phase 2: Destroy Conventional SSA by replacing phi-resolution copies with
    /// correctly sequentialized parallel copies, then removing phi functions.
    ///
    /// For each join block with phis, for each predecessor:
    ///   1. Collect the parallel copies (phi_target <- copy_source) for each phi
    ///   2. Remove the old copy statements from the predecessor
    ///   3. Sequentialize the parallel copies (topological sort + cycle-breaking)
    ///   4. Append the correctly-ordered copies
    ///
    /// Copies of a variable into itself are removed from every block at the end.
    pub fn destroy_cssa(&mut self)
        requires
            old(self).wf(),
            old(self).phis_complete(),
        ensures
            final(self).cleared_from(*old(self)),
            final(self).wf(),
            forall|i: int| 0 <= i < final(self).blocks@.len() ==> (#[trigger] final(self).blocks@[i]).phi_functions@.len() == 0,
            forall|i: int, k: int|
                0 <= i < final(self).blocks@.len() && 0 <= k < final(self).blocks@[i].statements@.len()
                    ==> !(#[trigger] final(self).blocks@[i].statements@[k]).spec_is_identity_copy(),
            forall|b: int, jp: int| #[trigger] sole_edge(old(self).blocks@, b, jp) && old(self).blocks@[b].phi_functions@.len() > 0
                ==> edge_done(final(self).blocks@, old(self).blocks@, b, jp),
    {
        let ghost orig = *self;
        let n = self.blocks.len();
        let mut b: usize = 0;
        proof {
            assert forall|i: int| 0 <= i < self.blocks@.len() implies {
                &&& same_frame(#[trigger] self.blocks@[i], orig.blocks@[i])
                &&& self.blocks@[i].wf()
                &&& (self.blocks@[i].phi_functions@ == orig.blocks@[i].phi_functions@ || self.blocks@[i].phi_functions@.len() == 0)
            } by {
                assert(orig.block_ok(i));
            }
        }
        while b < n
            invariant
                orig.wf(),
                orig.phis_complete(),
                self.cleared_from(orig),
                n == orig.blocks@.len(),
                b <= n,
                forall|i: int| 0 <= i < b ==> (#[trigger] self.blocks@[i]).phi_functions@.len() == 0,
                forall|i: int| b <= i < n ==> (#[trigger] self.blocks@[i]).phi_functions@ == orig.blocks@[i].phi_functions@,
                forall|b2: int, jp: int| #[trigger] sole_edge(orig.blocks@, b2, jp) && b2 < b && orig.blocks@[b2].phi_functions@.len() > 0
                    ==> edge_done(self.blocks@, orig.blocks@, b2, jp),
                forall|b2: int, jp: int| #[trigger] sole_edge(orig.blocks@, b2, jp) && b2 >= b
                    ==> self.blocks@[orig.blocks@[b2].predecessors@[jp] as int].statements@
                    == orig.blocks@[orig.blocks@[b2].predecessors@[jp] as int].statements@,
            decreases n - b,
        {
            if self.blocks[b].phi_functions.len() > 0 {
                let preds = copy_items(&self.blocks[b].predecessors);
                proof {
                    assert(same_frame(self.blocks@[b as int], orig.blocks@[b as int]));
                }
                let mut j: usize = 0;
                while j < preds.len()
                    invariant
                        orig.wf(),
                        orig.phis_complete(),
                        self.cleared_from(orig),
                        n == orig.blocks@.len(),
                        b < n,
                        preds@ == orig.blocks@[b as int].predecessors@,
                        j <= preds@.len(),
                        forall|i: int| 0 <= i < b ==> (#[trigger] self.blocks@[i]).phi_functions@.len() == 0,
                        forall|i: int| b <= i < n ==> (#[trigger] self.blocks@[i]).phi_functions@ == orig.blocks@[i].phi_functions@,
                        forall|b2: int, jp: int| #[trigger] sole_edge(orig.blocks@, b2, jp) && (b2 < b || (b2 == b && jp < j))
                            && orig.blocks@[b2].phi_functions@.len() > 0 ==> edge_done(self.blocks@, orig.blocks@, b2, jp),
                        forall|b2: int, jp: int| #[trigger] sole_edge(orig.blocks@, b2, jp) && (b2 > b || (b2 == b && jp >= j))
                            ==> self.blocks@[orig.blocks@[b2].predecessors@[jp] as int].statements@
                            == orig.blocks@[orig.blocks@[b2].predecessors@[jp] as int].statements@,
                    decreases preds@.len() - j,
                {
                    proof {
                        assert(preds@[j as int] == orig.blocks@[b as int].predecessors@[j as int]);
                    }
                    let ghost before = *self;
                    self.resolve_edge(b, preds[j], Ghost(orig));
                    proof {
                        let pj = preds@[j as int];
                        assert forall|b2: int, jp2: int| #[trigger] sole_edge(orig.blocks@, b2, jp2) && !(b2 == b && jp2 == j) implies
                            self.blocks@[orig.blocks@[b2].predecessors@[jp2] as int] == before.blocks@[orig.blocks@[b2].predecessors@[jp2] as int] by {
                            let p2 = orig.blocks@[b2].predecessors@[jp2];
                            if p2 == pj {
                                assert(orig.blocks@[b as int].predecessors@[j as int] == p2);
                            }
                        }
                        if sole_edge(orig.blocks@, b as int, j as int) {
                            let (m, tail) = choose|m: int, tail: Seq<(Seq<char>, Seq<char>)>| {
                                &&& #[trigger] ends_with_copies(before.blocks@[pj as int].statements@, self.blocks@[pj as int].statements@, m, tail)
                                &&& same_effect(tail, edge_copies(before.blocks@[b as int].phi_functions@, pj, before.blocks@[pj as int].statements@))
                            };
                            assert(ends_with_copies(orig.blocks@[pj as int].statements@, self.blocks@[pj as int].statements@, m, tail));
                            assert(edge_done(self.blocks@, orig.blocks@, b as int, j as int));
                        }
                    }
                    j = j + 1;
                }
            }
            proof {
                assert forall|b2: int, jp: int| #[trigger] sole_edge(orig.blocks@, b2, jp) && b2 <= b && orig.blocks@[b2].phi_functions@.len() > 0
                    implies edge_done(self.blocks@, orig.blocks@, b2, jp) by {
                    if b2 == b {
                        assert(jp < orig.blocks@[b as int].predecessors@.len());
                    }
                }
            }
            let ghost before = *self;
            self.blocks[b].clear_phis();
            proof {
                assert forall|i: int| 0 <= i < self.blocks@.len() implies {
                    &&& same_frame(#[trigger] self.blocks@[i], orig.blocks@[i])
                    &&& self.blocks@[i].wf()
                    &&& (self.blocks@[i].phi_functions@ == orig.blocks@[i].phi_functions@ || self.blocks@[i].phi_functions@.len() == 0)
                } by {
                    assert(same_frame(before.blocks@[i], orig.blocks@[i]));
                }
                assert forall|b2: int, jp: int| #[trigger] sole_edge(orig.blocks@, b2, jp) && b2 < b + 1 && orig.blocks@[b2].phi_functions@.len() > 0
                    implies edge_done(self.blocks@, orig.blocks@, b2, jp) by {
                    let p2 = orig.blocks@[b2].predecessors@[jp] as int;
                    assert(self.blocks@[p2].statements@ == before.blocks@[p2].statements@);
                }
                assert forall|b2: int, jp: int| #[trigger] sole_edge(orig.blocks@, b2, jp) && b2 >= b + 1
                    implies self.blocks@[orig.blocks@[b2].predecessors@[jp] as int].statements@
                    == orig.blocks@[orig.blocks@[b2].predecessors@[jp] as int].statements@ by {
                    let p2 = orig.blocks@[b2].predecessors@[jp] as int;
                    assert(self.blocks@[p2].statements@ == before.blocks@[p2].statements@);
                }
            }
            b = b + 1;
        }
        // Remove identity copies (may remain from tree_scan_coloring or trivial phis)
        let mut i: usize = 0;
        while i < n
            invariant
                orig.wf(),
                orig.phis_complete(),
                self.cleared_from(orig),
                n == orig.blocks@.len(),
                i <= n,
                forall|x: int| 0 <= x < n ==> (#[trigger] self.blocks@[x]).phi_functions@.len() == 0,
                forall|x: int, k: int|
                    0 <= x < i && 0 <= k < self.blocks@[x].statements@.len()
                        ==> !(#[trigger] self.blocks@[x].statements@[k]).spec_is_identity_copy(),
                forall|b2: int, jp: int| #[trigger] sole_edge(orig.blocks@, b2, jp) && orig.blocks@[b2].phi_functions@.len() > 0
                    ==> edge_done(self.blocks@, orig.blocks@, b2, jp),
            decreases n - i,
        {
            let ghost before = *self;
            self.blocks[i].drop_identity_copies();
            proof {
                assert forall|b2: int, jp: int| #[trigger] sole_edge(orig.blocks@, b2, jp) && orig.blocks@[b2].phi_functions@.len() > 0
                    implies edge_done(self.blocks@, orig.blocks@, b2, jp) by {
                    let p2 = orig.blocks@[b2].predecessors@[jp];
                    assert(edge_done(before.blocks@, orig.blocks@, b2, jp));
                    if p2 == i {
                        lemma_resolved_filtered(
                            orig.blocks@[p2 as int].statements@,
                            before.blocks@[p2 as int].statements@,
                            orig.blocks@[b2].phi_functions@,
                            p2,
                        );
                    } else {
                        assert(self.blocks@[p2 as int] == before.blocks@[p2 as int]);
                    }
                }
                assert forall|x: int| 0 <= x < self.blocks@.len() implies {
                    &&& same_frame(#[trigger] self.blocks@[x], orig.blocks@[x])
                    &&& self.blocks@[x].wf()
                    &&& (self.blocks@[x].phi_functions@ == orig.blocks@[x].phi_functions@ || self.blocks@[x].phi_functions@.len() == 0)
                } by {
                    assert(same_frame(before.blocks@[x], orig.blocks@[x]));
                }
                let st = before.blocks@[i as int].statements@;
                assert forall|k: int| 0 <= k < self.blocks@[i as int].statements@.len() implies
                    !(#[trigger] self.blocks@[i as int].statements@[k]).spec_is_identity_copy() by {
                    st.lemma_filter_pred(not_identity_copy(), k);
                }
            }
            i = i + 1;
        }
        proof {
            self.lemma_cleared(orig);
        }
    }
}

/// The error of a φ-function without an operand for a predecessor of its block.
pub open spec fn missing_operand_message() -> Seq<char> {
    "Missing phi operand for predecessor"@
}

impl CFG {
    /// Whether every φ-function has an operand for each predecessor of its block.
    pub fn phis_cover_predecessors(&self) -> (r: bool)
        ensures
            r == self.phis_complete(),
    {
        let mut b: usize = 0;
        while b < self.blocks.len()
            invariant
                b <= self.blocks@.len(),
                forall|bb: int, k: int, j: int|
                    0 <= bb < b && 0 <= k < self.blocks@[bb].phi_functions@.len() && 0 <= j
                        < self.blocks@[bb].predecessors@.len() ==> #[trigger] has_operand_from(
                        self.blocks@[bb].phi_functions@[k],
                        self.blocks@[bb].predecessors@[j],
                    ),
            decreases self.blocks@.len() - b,
        {
            let block = &self.blocks[b];
            let mut k: usize = 0;
            while k < block.phi_functions.len()
                invariant
                    b < self.blocks@.len(),
                    *block == self.blocks@[b as int],
                    k <= block.phi_functions@.len(),
                    forall|bb: int, kk: int, j: int|
                        0 <= bb < b && 0 <= kk < self.blocks@[bb].phi_functions@.len() && 0 <= j
                            < self.blocks@[bb].predecessors@.len() ==> #[trigger] has_operand_from(
                            self.blocks@[bb].phi_functions@[kk],
                            self.blocks@[bb].predecessors@[j],
                        ),
                    forall|kk: int, j: int|
                        0 <= kk < k && 0 <= j < block.predecessors@.len() ==> #[trigger] has_operand_from(
                            block.phi_functions@[kk],
                            block.predecessors@[j],
                        ),
                decreases block.phi_functions@.len() - k,
            {
                let mut j: usize = 0;
                while j < block.predecessors.len()
                    invariant
                        b < self.blocks@.len(),
                        *block == self.blocks@[b as int],
                        k < block.phi_functions@.len(),
                        j <= block.predecessors@.len(),
                        forall|jj: int| 0 <= jj < j ==> #[trigger] has_operand_from(
                            block.phi_functions@[k as int],
                            block.predecessors@[jj],
                        ),
                    decreases block.predecessors@.len() - j,
                {
                    if operand_position(&block.phi_functions[k], block.predecessors[j]).is_none() {
                        proof {
                            assert(!has_operand_from(self.blocks@[b as int].phi_functions@[k as int], self.blocks@[b as int].predecessors@[j as int]));
                        }
                        return false;
                    }
                    j = j + 1;
                }
                k = k + 1;
            }
            b = b + 1;
        }
        true
    }

    /// Translates the graph out of SSA form: isolates the φ-functions (conventional
    /// SSA), colors and renames the variables, and replaces the φ-functions by
    /// sequentialized copies at the ends of the predecessors.
    ///
    /// A φ-function without an operand for some predecessor of its block is an error,
    /// and the graph is left unchanged. The temporaries that isolation makes must
    /// be countable in a `usize`.
    pub fn destroy_ssa(&mut self) -> (r: Result<(), String>)
        requires
            old(self).wf(),
            isolation_temps(old(self).blocks@) <= usize::MAX,
        ensures
            r.is_ok() <==> old(self).phis_complete(),
            r matches Err(msg) ==> msg@ == missing_operand_message() && *final(self) == *old(self),
            r.is_ok() ==> ssa_destroyed(*old(self), *final(self)),
    {
        if !self.phis_cover_predecessors() {
            let mut msg = String::new();
            push_text(&mut msg, "Missing phi operand for predecessor");
            proof {
                assert(Seq::<char>::empty() + "Missing phi operand for predecessor"@ =~= missing_operand_message());
            }
            return Err(msg);
        }
        let ghost orig = *self;
        self.isolate_phis();
        let ghost isolated = *self;
        self.tree_scan_coloring();
        let ghost colored = *self;
        self.destroy_cssa();
        proof {
            assert forall|i: int| 0 <= i < self.blocks@.len() implies same_frame(#[trigger] self.blocks@[i], orig.blocks@[i]) by {
                assert(same_frame(self.blocks@[i], colored.blocks@[i]));
                assert(same_frame(colored.blocks@[i], isolated.blocks@[i]));
                assert(same_frame(isolated.blocks@[i], orig.blocks@[i]));
            }
            assert(destroyed_through(orig, isolated, colored, *self));
        }
        Ok(())
    }
}

} // verus!
