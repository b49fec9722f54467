//! The control flow graphs of a whole program: one per function, then one per
//! template, with the graph of the main template as the entry.

use vstd::prelude::*;

use crate::ast::{jumps_ok, Function, Template, AST};
use crate::cfg::{BasicBlock, CFG};
use crate::cfg_construction::{construction_error, liveness_error};
use crate::dot::{dot_destruction_text, dot_text};
use crate::ssa_destruction::{isolation_temps, missing_operand_message, ssa_destroyed};
use crate::text::same_text;

verus! {

/// The position of the last template named `name`, if any.
pub open spec fn last_named(ts: Seq<Template>, name: Seq<char>) -> Option<int>
    decreases ts.len(),
{
    if ts.len() == 0 {
        None
    } else if ts.last().name@ == name {
        Some(ts.len() - 1)
    } else {
        last_named(ts.drop_last(), name)
    }
}

/// A graph as construction leaves it: well formed, starting at block 0, in SSA
/// form, with every read variable defined and read only where its definition reaches,
/// and with exactly the live variables in the live-in list of each block.
pub open spec fn built(cfg: CFG) -> bool {
    &&& cfg.wf()
    &&& cfg.entry == 0
    &&& cfg.ssa_ok()
    &&& forall|k: Seq<char>| #[trigger] cfg.def_use@.contains_key(k) ==> cfg.use_is_covered(k)
    &&& crate::liveness::live_in_exact(cfg)
}

/// A graph out of SSA form: well formed, without φ-functions and without copies
/// of a variable to itself.
pub open spec fn out_of_ssa(cfg: CFG) -> bool {
    &&& cfg.wf()
    &&& forall|i: int| 0 <= i < cfg.blocks@.len() ==> (#[trigger] cfg.blocks@[i]).phi_functions@.len() == 0
    &&& forall|i: int, k: int|
        0 <= i < cfg.blocks@.len() && 0 <= k < cfg.blocks@[i].statements@.len()
            ==> !(#[trigger] cfg.blocks@[i].statements@[k]).spec_is_identity_copy()
}


/// `n`, or the largest `usize` when `n` exceeds it.
pub open spec fn saturated(n: nat) -> nat {
    if n > usize::MAX {
        usize::MAX as nat
    } else {
        n
    }
}

/// The number of blocks of all the graphs.
pub open spec fn blocks_total(cfgs: Seq<CFG>) -> nat
    decreases cfgs.len(),
{
    if cfgs.len() == 0 {
        0
    } else {
        blocks_total(cfgs.drop_last()) + cfgs.last().blocks@.len()
    }
}

/// The number of original variables of all the graphs.
pub open spec fn original_variables_total(cfgs: Seq<CFG>) -> nat
    decreases cfgs.len(),
{
    if cfgs.len() == 0 {
        0
    } else {
        original_variables_total(cfgs.drop_last()) + cfgs.last().non_ssa_variables as nat
    }
}

/// The number of SSA variables defined in all the graphs.
pub open spec fn ssa_variables_total(cfgs: Seq<CFG>) -> nat
    decreases cfgs.len(),
{
    if cfgs.len() == 0 {
        0
    } else {
        ssa_variables_total(cfgs.drop_last()) + cfgs.last().definitions.entries@.len()
    }
}

/// The number of φ-functions and statements of some blocks.
pub open spec fn instructions_in(bs: Seq<BasicBlock>) -> nat
    decreases bs.len(),
{
    if bs.len() == 0 {
        0
    } else {
        instructions_in(bs.drop_last()) + bs.last().phi_functions@.len() + bs.last().statements@.len()
    }
}

/// The number of φ-functions and statements of all the graphs.
pub open spec fn instructions_total(cfgs: Seq<CFG>) -> nat
    decreases cfgs.len(),
{
    if cfgs.len() == 0 {
        0
    } else {
        instructions_total(cfgs.drop_last()) + instructions_in(cfgs.last().blocks@)
    }
}

pub struct CFGList {
    pub entry: usize,
    pub cfgs: Vec<CFG>,
}

impl Default for CFGList {
    /// The empty list, with entry 0.
    fn default() -> (list: CFGList)
        ensures
            list.entry == 0,
            list.cfgs@.len() == 0,
            list.wf(),
    {
        CFGList { entry: 0, cfgs: Vec::new() }
    }
}

impl CFGList {
    /// Every graph is well formed.
    pub open spec fn wf(&self) -> bool {
        forall|i: int| 0 <= i < self.cfgs@.len() ==> (#[trigger] self.cfgs@[i]).wf()
    }

    /// Builds the graphs of the functions of `ast`, then of its templates, in
    /// order, and stops at the first that fails. The entry is the position of the
    /// graph of the last template named as the main template, or 0 when there is none.
    pub fn new(ast: AST) -> (r: Result<CFGList, String>)
        requires
            forall|i: int| 0 <= i < ast.functions@.len() ==> jumps_ok((#[trigger] ast.functions@[i]).body@, false),
            forall|i: int| 0 <= i < ast.templates@.len() ==> jumps_ok((#[trigger] ast.templates@[i]).body@, false),
        ensures
            match r {
                Ok(list) => {
                    &&& list.wf()
                    &&& list.cfgs@.len() == ast.functions@.len() + ast.templates@.len()
                    &&& forall|i: int| 0 <= i < list.cfgs@.len() ==> built(#[trigger] list.cfgs@[i])
                    &&& list.entry == match last_named(ast.templates@, ast.main_template@) {
                        Some(i) => ast.functions@.len() + i,
                        None => 0,
                    }
                },
                Err(m) => construction_error(m@) || liveness_error(m@),
            },
    {
        let AST { main_template, templates, functions, .. } = ast;
        let ghost fs = functions@;
        let ghost ts = templates@;
        let mut functions = functions;
        let mut templates = templates;
        let mut cfgs: Vec<CFG> = Vec::new();
        let mut entry: usize = 0;
        //CFGs for functions
        proof {
            assert(fs.skip(0) =~= fs);
        }
        while functions.len() > 0
            invariant
                cfgs@.len() + functions@.len() == fs.len(),
                functions@ == fs.skip(cfgs@.len() as int),
                forall|i: int| 0 <= i < fs.len() ==> jumps_ok((#[trigger] fs[i]).body@, false),
                forall|i: int| 0 <= i < cfgs@.len() ==> built(#[trigger] cfgs@[i]),
                entry == 0,
            decreases functions@.len(),
        {
            let ghost done = cfgs@.len();
            let f = functions.remove(0);
            proof {
                assert(f == fs[done as int]);
                assert(functions@ =~= fs.skip(done as int + 1));
            }
            match CFG::new_from_fun(f) {
                Ok(cfg) => {
                    cfgs.push(cfg);
                },
                Err(e) => {
                    return Err(e);
                },
            }
        }
        //CFGs for templates
        let ghost nf = cfgs@.len();
        proof {
            assert(ts.skip(0) =~= ts);
            assert(ts.take(0) =~= Seq::<Template>::empty());
        }
        while templates.len() > 0
            invariant
                nf == fs.len(),
                cfgs@.len() == nf + (ts.len() - templates@.len()),
                templates@.len() <= ts.len(),
                templates@ == ts.skip(ts.len() - templates@.len()),
                forall|i: int| 0 <= i < ts.len() ==> jumps_ok((#[trigger] ts[i]).body@, false),
                forall|i: int| 0 <= i < cfgs@.len() ==> built(#[trigger] cfgs@[i]),
                entry == match last_named(ts.take(ts.len() - templates@.len()), main_template@) {
                    Some(i) => nf + i,
                    None => 0,
                },
            decreases templates@.len(),
        {
            let ghost done: int = ts.len() - templates@.len();
            let t = templates.remove(0);
            proof {
                assert(t == ts[done]);
                assert(templates@ =~= ts.skip(done + 1));
                let pre = ts.take(done + 1);
                assert(pre.drop_last() =~= ts.take(done));
                assert(pre.last() == t);
            }
            if same_text(&t.name, main_template.as_str()) {
                entry = cfgs.len();
            }
            match CFG::new_from_template(t) {
                Ok(cfg) => {
                    cfgs.push(cfg);
                },
                Err(e) => {
                    return Err(e);
                },
            }
        }
        proof {
            assert(ts.take(ts.len() as int) =~= ts);
        }
        Ok(CFGList { entry, cfgs })
    }

    /// Translates every graph out of SSA form, in order. A graph with a φ-function
    /// that lacks an operand for a predecessor of its block stops the translation:
    /// the graphs before it are translated, it and those after it are left as they are.
    pub fn destroy_ssa_all(&mut self) -> (r: Result<(), String>)
        requires
            old(self).wf(),
            forall|i: int| 0 <= i < old(self).cfgs@.len() ==> isolation_temps((#[trigger] old(self).cfgs@[i]).blocks@) <= usize::MAX,
        ensures
            final(self).wf(),
            final(self).entry == old(self).entry,
            final(self).cfgs@.len() == old(self).cfgs@.len(),
            r.is_ok() <==> forall|i: int| 0 <= i < old(self).cfgs@.len() ==> (#[trigger] old(self).cfgs@[i]).phis_complete(),
            r matches Err(m) ==> m@ == missing_operand_message(),
            r.is_ok() ==> forall|i: int| 0 <= i < final(self).cfgs@.len() ==> out_of_ssa(#[trigger] final(self).cfgs@[i]),
            r.is_ok() ==> forall|i: int| 0 <= i < final(self).cfgs@.len() ==> ssa_destroyed(old(self).cfgs@[i], #[trigger] final(self).cfgs@[i]),
            r.is_err() ==> exists|f: int| {
                &&& 0 <= f < old(self).cfgs@.len()
                &&& !(#[trigger] old(self).cfgs@[f]).phis_complete()
                &&& forall|j: int| 0 <= j < f ==> ssa_destroyed(old(self).cfgs@[j], #[trigger] final(self).cfgs@[j])
                &&& forall|j: int| f <= j < old(self).cfgs@.len() ==> #[trigger] final(self).cfgs@[j] == old(self).cfgs@[j]
            },
    {
        let mut i: usize = 0;
        while i < self.cfgs.len()
            invariant
                self.wf(),
                self.entry == old(self).entry,
                self.cfgs@.len() == old(self).cfgs@.len(),
                i <= self.cfgs@.len(),
                forall|j: int| 0 <= j < i ==> (#[trigger] old(self).cfgs@[j]).phis_complete(),
                forall|j: int| 0 <= j < i ==> out_of_ssa(#[trigger] self.cfgs@[j]),
                forall|j: int| 0 <= j < i ==> ssa_destroyed(old(self).cfgs@[j], #[trigger] self.cfgs@[j]),
                forall|j: int| i <= j < self.cfgs@.len() ==> #[trigger] self.cfgs@[j] == old(self).cfgs@[j],
                forall|j: int| 0 <= j < old(self).cfgs@.len() ==> isolation_temps((#[trigger] old(self).cfgs@[j]).blocks@) <= usize::MAX,
            decreases self.cfgs@.len() - i,
        {
            proof {
                assert(self.cfgs@[i as int].wf());
            }
            let ghost before = self.cfgs@;
            let res = self.cfgs[i].destroy_ssa();
            match res {
                Ok(()) => {},
                Err(e) => {
                    proof {
                        assert(self.cfgs@ =~= before);
                        assert(!old(self).cfgs@[i as int].phis_complete());
                    }
                    return Err(e);
                },
            }
            proof {
                assert forall|j: int| 0 <= j < self.cfgs@.len() implies (#[trigger] self.cfgs@[j]).wf() by {
                    if j != i {
                        assert(self.cfgs@[j] == before[j]);
                    }
                }
                assert forall|j: int| 0 <= j < i + 1 implies out_of_ssa(#[trigger] self.cfgs@[j]) by {
                    if j != i {
                        assert(self.cfgs@[j] == before[j]);
                    }
                }
                assert forall|j: int| 0 <= j < i + 1 implies ssa_destroyed(old(self).cfgs@[j], #[trigger] self.cfgs@[j]) by {
                    if j != i {
                        assert(self.cfgs@[j] == before[j]);
                    }
                }
            }
            i = i + 1;
        }
        Ok(())
    }

    /// The counts that the program's metrics are made of: the number of graphs, and
    /// the totals over all graphs of blocks, original variables, SSA variables and
    /// instructions (φ-functions and statements); a total too large for a `usize`
    /// is given as the largest `usize`.
    pub fn metric_counts(&self) -> (r: (usize, usize, usize, usize, usize))
        ensures
            r.0 == self.cfgs@.len(),
            r.1 == saturated(blocks_total(self.cfgs@)),
            r.2 == saturated(original_variables_total(self.cfgs@)),
            r.3 == saturated(ssa_variables_total(self.cfgs@)),
            r.4 == saturated(instructions_total(self.cfgs@)),
    {
        let mut num_blocks: usize = 0;
        let mut num_non_ssa_variables: usize = 0;
        let mut num_ssa_variables: usize = 0;
        let mut total_stmts: usize = 0;
        let mut i: usize = 0;
        while i < self.cfgs.len()
            invariant
                i <= self.cfgs@.len(),
                num_blocks == saturated(blocks_total(self.cfgs@.take(i as int))),
                num_non_ssa_variables == saturated(original_variables_total(self.cfgs@.take(i as int))),
                num_ssa_variables == saturated(ssa_variables_total(self.cfgs@.take(i as int))),
                total_stmts == saturated(instructions_total(self.cfgs@.take(i as int))),
            decreases self.cfgs@.len() - i,
        {
            let cfg = &self.cfgs[i];
            let ghost t = self.cfgs@.take(i + 1);
            proof {
                assert(t.drop_last() =~= self.cfgs@.take(i as int));
                assert(t.last() == *cfg);
            }
            num_blocks = num_blocks.saturating_add(cfg.blocks.len());
            num_ssa_variables = num_ssa_variables.saturating_add(cfg.definitions.len());
            num_non_ssa_variables = num_non_ssa_variables.saturating_add(cfg.non_ssa_variables);
            let ghost before_block_stmts = total_stmts;
            let mut j: usize = 0;
            proof {
                assert(cfg.blocks@.take(0) =~= Seq::<BasicBlock>::empty());
            }
            while j < cfg.blocks.len()
                invariant
                    j <= cfg.blocks@.len(),
                    before_block_stmts == saturated(instructions_total(self.cfgs@.take(i as int))),
                    total_stmts == saturated(instructions_total(self.cfgs@.take(i as int)) + instructions_in(cfg.blocks@.take(j as int))),
                decreases cfg.blocks@.len() - j,
            {
                let b = &cfg.blocks[j];
                proof {
                    let u = cfg.blocks@.take(j + 1);
                    assert(u.drop_last() =~= cfg.blocks@.take(j as int));
                    assert(u.last() == *b);
                }
                total_stmts = total_stmts.saturating_add(b.phi_functions.len());
                total_stmts = total_stmts.saturating_add(b.statements.len());
                j = j + 1;
            }
            proof {
                assert(cfg.blocks@.take(cfg.blocks@.len() as int) =~= cfg.blocks@);
            }
            i = i + 1;
        }
        proof {
            assert(self.cfgs@.take(self.cfgs@.len() as int) =~= self.cfgs@);
        }
        (self.cfgs.len(), num_blocks, num_non_ssa_variables, num_ssa_variables, total_stmts)
    }

    /// The Graphviz text of every graph, numbered by position.
    pub fn to_dot(&self) -> (r: Vec<String>)
        requires
            self.wf(),
        ensures
            r@.len() == self.cfgs@.len(),
            forall|i: int| 0 <= i < r@.len() ==> (#[trigger] r@[i])@ == dot_text(self.cfgs@[i], i as usize),
    {
        let mut r: Vec<String> = Vec::new();
        let mut i: usize = 0;
        while i < self.cfgs.len()
            invariant
                self.wf(),
                i <= self.cfgs@.len(),
                r@.len() == i,
                forall|j: int| 0 <= j < i ==> (#[trigger] r@[j])@ == dot_text(self.cfgs@[j], j as usize),
            decreases self.cfgs@.len() - i,
        {
            proof {
                assert(self.cfgs@[i as int].wf());
            }
            r.push(self.cfgs[i].to_dot(i));
            i = i + 1;
        }
        r
    }

    /// The Graphviz text of every graph, numbered by position, with its instructions only.
    pub fn to_dot_destruction(&self) -> (r: Vec<String>)
        ensures
            r@.len() == self.cfgs@.len(),
            forall|i: int| 0 <= i < r@.len() ==> (#[trigger] r@[i])@ == dot_destruction_text(self.cfgs@[i], i as usize),
    {
        let mut r: Vec<String> = Vec::new();
        let mut i: usize = 0;
        while i < self.cfgs.len()
            invariant
                i <= self.cfgs@.len(),
                r@.len() == i,
                forall|j: int| 0 <= j < i ==> (#[trigger] r@[j])@ == dot_destruction_text(self.cfgs@[j], j as usize),
            decreases self.cfgs@.len() - i,
        {
            r.push(self.cfgs[i].to_dot_destruction(i));
            i = i + 1;
        }
        r
    }
}

} // verus!
