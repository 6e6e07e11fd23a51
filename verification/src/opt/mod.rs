//! IR optimizer. Passes run, function by function, until a round changes
//! nothing:
//!
//! 1. constant folding and propagation of temps (a temp is written once,
//!    so a temp known to be constant is constant everywhere);
//! 2. algebraic simplification (`x+0`, `x*1`, `x*0`, `x-0`, `x/1`);
//! 3. store-to-load forwarding within a block (locals have no aliases);
//! 4. dead temp elimination (loads, nots and comparisons whose result is
//!    unused; anything that may trap stays);
//! 5. dead store elimination (slots never loaded anywhere in the function);
//! 6. branch folding (`br const`), jump threading through empty blocks,
//!    merging a block into its unique predecessor, unreachable block removal.
//!
//! Folding uses the interpreter's `eval`, and an operation that would trap
//! is left in place to trap at run time. Every pass keeps the function well
//! formed; what passes keep of a program's runs is proved in `meaning`,
//! and what they keep of its shape in `shape`.

use vstd::prelude::*;

mod meaning;
mod shape;

pub use meaning::{
    all_live, block_reads_live, block_threaded, chains_disjoint, branches_folded, folded_term, program_branches_folded, blocks_kept, blocks_merged, chain_merged, dead_dropped, droppable,
    edges_from, edges_into, empty_jump, ends_alike, entry_source, flat, follow, instr_reads_live, is_comparison,
    jump_chain, jumps_threaded, kept_instrs, lemma_block_merging_keeps_meaning, lemma_block_removal_keeps_meaning,
    lemma_branch_folding_keeps_meaning, lemma_dead_code_removal_keeps_meaning, lemma_jump_threading_keeps_meaning, lemma_unentered_programs_thread_safely,
    marks_grow, no_later, occurrences, only_entry_enters, operand_live, program_blocks_kept,
    program_blocks_merged, program_dead_dropped, program_jumps_threaded, reach_closed, renumbered_term, runs_out,
    skips_to, swaps_entry, term_reads_live, term_threaded, threading_safe,
};
pub use shape::{drawn_from, same_targets, sub_writes};
use shape::{
    lemma_blocks_kept_entry, lemma_blocks_merged_entry, lemma_branches_folded_entry, lemma_dead_dropped_entry,
    lemma_jumps_threaded_entry, lemma_same_targets_entry, lemma_blocks_kept_writes, lemma_blocks_merged_writes, lemma_same_kind_writes, lemma_writes_subseq, lemma_branches_folded_writes, lemma_dead_dropped_writes, lemma_jumps_threaded_writes};
use meaning::{
    lemma_edges_one, lemma_edges_two, lemma_edges_update, lemma_flat_concat, lemma_flat_one, lemma_follow_step,
    lemma_instr_reads_live_grow, lemma_keep_where_kept, lemma_occurrences_terms, lemma_occurrences_zero,
    lemma_reads_live_grow,
};

use crate::ir::{
    BasicBlock, Func, Instr, Op, Operand, Program, Term, Trap, arities, block_ok, entry_never_entered, eval, func_ok, instr_ok,
    instrs_ok, ir_wf, operand_ok, spec_eval, step_simple, succs, term_ok, val, writes, writes_once,
};

verus! {

/// What the optimizer did.
#[derive(Debug, Clone, Copy, PartialEq, Eq, Structural)]
pub struct Stats {
    pub folded: usize,
    pub forwarded: usize,
    pub dead_temps: usize,
    pub dead_stores: usize,
    pub branches_folded: usize,
    pub blocks_removed: usize,
    pub jumps_threaded: usize,
}

impl Stats {
    /// Nothing done.
    pub open spec fn default_value() -> Stats {
        Stats {
            folded: 0,
            forwarded: 0,
            dead_temps: 0,
            dead_stores: 0,
            branches_folded: 0,
            blocks_removed: 0,
            jumps_threaded: 0,
        }
    }
}

impl Default for Stats {
    fn default() -> (s: Stats)
        ensures
            s == Stats::default_value(),
    {
        Stats {
            folded: 0,
            forwarded: 0,
            dead_temps: 0,
            dead_stores: 0,
            branches_folded: 0,
            blocks_removed: 0,
            jumps_threaded: 0,
        }
    }
}

/// The sum of the counters.
pub open spec fn stats_total(s: Stats) -> int {
    s.folded + s.forwarded + s.dead_temps + s.dead_stores + s.branches_folded + s.blocks_removed
        + s.jumps_threaded
}

/// No counter went down.
pub open spec fn stats_grew(a: Stats, b: Stats) -> bool {
    &&& a.folded <= b.folded
    &&& a.forwarded <= b.forwarded
    &&& a.dead_temps <= b.dead_temps
    &&& a.dead_stores <= b.dead_stores
    &&& a.branches_folded <= b.branches_folded
    &&& a.blocks_removed <= b.blocks_removed
    &&& a.jumps_threaded <= b.jumps_threaded
}

/// Counts one more event; a counter stops at its maximum.
fn inc(c: usize) -> (r: usize)
    ensures
        r == if c < usize::MAX { c + 1 } else { c as int },
{
    if c < usize::MAX {
        c + 1
    } else {
        c
    }
}

/// Adds `n` events; a counter stops at its maximum.
fn add_sat(c: usize, n: usize) -> (r: usize)
    ensures
        c <= r,
        r == if c + n <= usize::MAX { c + n } else { usize::MAX as int },
{
    if n <= usize::MAX - c {
        c + n
    } else {
        usize::MAX
    }
}

// ------------------------------------------------------- well-formedness --

/// A block that is well formed in a function with the given temps, slots
/// and number of blocks.
pub open spec fn block_wf(b: BasicBlock, temps: int, slots: int, ar: Seq<int>, nstr: int, nblocks: int) -> bool {
    &&& instrs_ok(b.instrs@, temps, slots, ar, nstr)
    &&& term_ok(b.term, temps, nblocks)
}

pub open spec fn blocks_wf(bs: Seq<BasicBlock>, temps: int, slots: int, ar: Seq<int>, nstr: int) -> bool {
    forall|b: int| 0 <= b < bs.len() ==> block_wf(#[trigger] bs[b], temps, slots, ar, nstr, bs.len() as int)
}

/// The header of a function: what the passes never change.
pub open spec fn same_header(f: Func, g: Func) -> bool {
    &&& f.name == g.name
    &&& f.params == g.params
    &&& f.slots == g.slots
    &&& f.temps == g.temps
    &&& f.returns_value == g.returns_value
}

/// A function is well formed exactly when its header is and its blocks are.
proof fn lemma_func_ok_blocks(f: Func, ar: Seq<int>, nstr: int)
    ensures
        func_ok(f, ar, nstr) <==> {
            &&& f.params <= f.slots
            &&& 1 <= f.blocks@.len() <= u32::MAX
            &&& blocks_wf(f.blocks@, f.temps as int, f.slots as int, ar, nstr)
        },
{
    if func_ok(f, ar, nstr) {
        assert forall|b: int| 0 <= b < f.blocks@.len() implies block_wf(#[trigger] f.blocks@[b], f.temps as int, f.slots as int, ar, nstr, f.blocks@.len() as int) by {
            assert(block_ok(f.blocks@[b], f, ar, nstr));
        }
    }
    if f.params <= f.slots && 1 <= f.blocks@.len() <= u32::MAX && blocks_wf(f.blocks@, f.temps as int, f.slots as int, ar, nstr) {
        assert forall|b: int| 0 <= b < f.blocks@.len() implies block_ok(#[trigger] f.blocks@[b], f, ar, nstr) by {
            assert(block_wf(f.blocks@[b], f.temps as int, f.slots as int, ar, nstr, f.blocks@.len() as int));
        }
    }
}

/// Replacing a block by a well-formed one keeps the blocks well formed.
proof fn lemma_blocks_wf_update(bs: Seq<BasicBlock>, i: int, x: BasicBlock, t: int, s: int, ar: Seq<int>, n: int)
    requires
        blocks_wf(bs, t, s, ar, n),
        0 <= i < bs.len(),
        block_wf(x, t, s, ar, n, bs.len() as int),
    ensures
        blocks_wf(bs.update(i, x), t, s, ar, n),
{
    assert forall|b: int| 0 <= b < bs.len() implies block_wf(#[trigger] bs.update(i, x)[b], t, s, ar, n, bs.len() as int) by {
        if b != i {
            assert(bs.update(i, x)[b] == bs[b]);
        }
    }
}

/// A subsequence of well-formed instructions is well formed.
proof fn lemma_instrs_ok_push(v: Seq<Instr>, x: Instr, t: int, s: int, ar: Seq<int>, n: int)
    requires
        instrs_ok(v, t, s, ar, n),
        instr_ok(x, t, s, ar, n),
    ensures
        instrs_ok(v.push(x), t, s, ar, n),
{
    assert forall|k: int| 0 <= k < v.len() + 1 implies instr_ok(#[trigger] v.push(x)[k], t, s, ar, n) by {
        if k < v.len() {
            assert(v.push(x)[k] == v[k]);
        }
    }
}

/// Takes block `i` out of `f`, leaving an empty placeholder in its place.
fn take_block(f: &mut Func, i: usize) -> (b: BasicBlock)
    requires
        i < old(f).blocks@.len(),
    ensures
        b == old(f).blocks@[i as int],
        final(f).blocks@.len() == old(f).blocks@.len(),
        forall|j: int| 0 <= j < old(f).blocks@.len() && j != i ==> final(f).blocks@[j] == old(f).blocks@[j],
        same_header(*final(f), *old(f)),
{
    let mut b = BasicBlock { instrs: Vec::new(), term: Term::Unset, line: 0 };
    std::mem::swap(&mut b, &mut f.blocks[i]);
    b
}

// ------------------------------------------------------------- aliases --

/// A map from temps to the operands that replace them; the operands are
/// well formed.
pub open spec fn alias_ok(alias: Seq<Option<Operand>>, temps: int) -> bool {
    &&& alias.len() == temps
    &&& forall|t: int| 0 <= t < alias.len() && (#[trigger] alias[t]) is Some ==> operand_ok(alias[t]->0, temps)
}

/// A temp replaced by its alias, once.
pub open spec fn alias_once(alias: Seq<Option<Operand>>, o: Operand) -> Operand {
    match o {
        Operand::Temp(t) => match alias[t as int] {
            Some(v) => v,
            None => o,
        },
        Operand::Const(_) => o,
    }
}

/// A temp replaced by its alias, and that by its own, for at most `hops`
/// replacements.
pub open spec fn chase(alias: Seq<Option<Operand>>, o: Operand, hops: nat) -> Operand
    decreases hops,
{
    if hops == 0 {
        o
    } else {
        match o {
            Operand::Temp(t) => match alias[t as int] {
                Some(v) => chase(alias, v, (hops - 1) as nat),
                None => o,
            },
            Operand::Const(_) => o,
        }
    }
}

/// What an operand becomes: its alias once, or the alias chain followed for
/// as many hops as there are temps, which reaches its end wherever it has
/// one (`lemma_chase_reaches_end`).
pub open spec fn subst_op(alias: Seq<Option<Operand>>, o: Operand, chain: bool) -> Operand {
    if chain {
        chase(alias, o, alias.len())
    } else {
        alias_once(alias, o)
    }
}

/// `b` is `a` with every operand it reads replaced as `subst_op` says.
pub open spec fn instr_substituted(a: Instr, b: Instr, alias: Seq<Option<Operand>>, chain: bool) -> bool {
    match a {
        Instr::Load { .. } => b == a,
        Instr::Store { slot, src } => b == Instr::Store { slot, src: subst_op(alias, src, chain) },
        Instr::Bin { dst, op, a: x, b: y } => b == Instr::Bin { dst, op, a: subst_op(alias, x, chain), b: subst_op(alias, y, chain) },
        Instr::Neg { dst, a: x } => b == Instr::Neg { dst, a: subst_op(alias, x, chain) },
        Instr::Not { dst, a: x } => b == Instr::Not { dst, a: subst_op(alias, x, chain) },
        Instr::Call { dst, func, args } => {
            &&& b is Call
            &&& b->Call_dst == dst
            &&& b->Call_func == func
            &&& b->Call_args@ == args@.map_values(|o: Operand| subst_op(alias, o, chain))
        },
        Instr::PrintInt(v) => b == Instr::PrintInt(subst_op(alias, v, chain)),
        Instr::PrintBool(v) => b == Instr::PrintBool(subst_op(alias, v, chain)),
        Instr::PrintStr(_) => b == a,
    }
}

/// `b` is terminator `a` with the operand it reads replaced.
pub open spec fn term_substituted(a: Term, b: Term, alias: Seq<Option<Operand>>, chain: bool) -> bool {
    match a {
        Term::Br { cond, t, f } => b == Term::Br { cond: subst_op(alias, cond, chain), t, f },
        Term::Ret(Some(v)) => b == Term::Ret(Some(subst_op(alias, v, chain))),
        _ => b == a,
    }
}

/// Block `b` is block `a` with every operand replaced along alias chains.
pub open spec fn block_rewritten(a: BasicBlock, b: BasicBlock, alias: Seq<Option<Operand>>) -> bool {
    &&& b.instrs@.len() == a.instrs@.len()
    &&& forall|k: int| 0 <= k < a.instrs@.len() ==> instr_substituted(a.instrs@[k], #[trigger] b.instrs@[k], alias, true)
    &&& term_substituted(a.term, b.term, alias, true)
    &&& b.line == a.line
}

/// An operand at the end of its alias chain: a constant, or a temp with no
/// alias.
pub open spec fn settled(alias: Seq<Option<Operand>>, o: Operand) -> bool {
    match o {
        Operand::Temp(t) => alias[t as int] is None,
        Operand::Const(_) => true,
    }
}

proof fn lemma_chase_settled(alias: Seq<Option<Operand>>, o: Operand, k: nat)
    requires
        settled(alias, o),
    ensures
        chase(alias, o, k) == o,
    decreases k,
{
    if k > 0 {
        lemma_chase_settled(alias, o, (k - 1) as nat);
    }
}

proof fn lemma_chase_add(alias: Seq<Option<Operand>>, o: Operand, a: nat, b: nat)
    ensures
        chase(alias, o, a + b) == chase(alias, chase(alias, o, a), b),
    decreases a,
{
    if a > 0 {
        if settled(alias, o) {
            lemma_chase_settled(alias, o, a + b);
            lemma_chase_settled(alias, o, a);
            lemma_chase_settled(alias, o, b);
        } else {
            let v = alias[o->Temp_0 as int]->0;
            lemma_chase_add(alias, v, (a - 1) as nat, b);
            assert((a + b - 1) as nat == ((a - 1) as nat + b) as nat);
        }
    }
}

proof fn lemma_chase_ok(alias: Seq<Option<Operand>>, o: Operand, k: nat)
    requires
        alias_ok(alias, alias.len() as int),
        operand_ok(o, alias.len() as int),
    ensures
        operand_ok(chase(alias, o, k), alias.len() as int),
    decreases k,
{
    if k > 0 && !settled(alias, o) {
        lemma_chase_ok(alias, alias[o->Temp_0 as int]->0, (k - 1) as nat);
    }
}

proof fn lemma_first_settled(alias: Seq<Option<Operand>>, o: Operand, i: nat, h: nat) -> (m: nat)
    requires
        i <= h,
        settled(alias, chase(alias, o, h)),
        forall|j: nat| j < i ==> !settled(alias, #[trigger] chase(alias, o, j)),
    ensures
        m <= h,
        settled(alias, chase(alias, o, m)),
        forall|j: nat| j < m ==> !settled(alias, #[trigger] chase(alias, o, j)),
    decreases h - i,
{
    if settled(alias, chase(alias, o, i)) {
        i
    } else {
        lemma_first_settled(alias, o, i + 1, h)
    }
}

/// An alias chain that ends at all ends within as many hops as there are
/// temps: a chain longer than that repeats a temp, and then never ends.
pub proof fn lemma_chase_reaches_end(alias: Seq<Option<Operand>>, o: Operand, h: nat)
    requires
        alias_ok(alias, alias.len() as int),
        operand_ok(o, alias.len() as int),
        settled(alias, chase(alias, o, h)),
    ensures
        settled(alias, chase(alias, o, alias.len())),
        chase(alias, o, alias.len()) == chase(alias, o, h),
{
    let n = alias.len();
    let m = lemma_first_settled(alias, o, 0, h);
    // the temps met before the end are all different
    let ts = Seq::new(m, |i: int| chase(alias, o, i as nat)->Temp_0 as int);
    assert forall|i: int| 0 <= i < m implies 0 <= #[trigger] ts[i] < n by {
        lemma_chase_ok(alias, o, i as nat);
        assert(!settled(alias, chase(alias, o, i as nat)));
    }
    assert forall|i: int, j: int| 0 <= i < j < m implies #[trigger] ts[i] != #[trigger] ts[j] by {
        assert(!settled(alias, chase(alias, o, i as nat)));
        assert(!settled(alias, chase(alias, o, j as nat)));
        if ts[i] == ts[j] {
            assert(chase(alias, o, i as nat) == chase(alias, o, j as nat));
            lemma_chase_add(alias, o, j as nat, (m - j) as nat);
            lemma_chase_add(alias, o, i as nat, (m - j) as nat);
            assert((j + (m - j)) as nat == m);
            assert(!settled(alias, chase(alias, o, (i + (m - j)) as nat)));
        }
    }
    assert(ts.no_duplicates());
    ts.unique_seq_to_set();
    vstd::set_lib::lemma_int_range(0, n as int);
    assert(ts.to_set().subset_of(vstd::set_lib::set_int_range(0, n as int)));
    vstd::set_lib::lemma_len_subset(ts.to_set(), vstd::set_lib::set_int_range(0, n as int));
    assert(m <= n);
    let c = chase(alias, o, m);
    lemma_chase_add(alias, o, m, (n - m) as nat);
    lemma_chase_settled(alias, c, (n - m) as nat);
    lemma_chase_add(alias, o, m, (h - m) as nat);
    lemma_chase_settled(alias, c, (h - m) as nat);
}

/// Replaces a temp by its alias, once.
fn subst(o: Operand, alias: &Vec<Option<Operand>>) -> (r: Operand)
    requires
        alias_ok(alias@, alias@.len() as int),
        operand_ok(o, alias@.len() as int),
    ensures
        operand_ok(r, alias@.len() as int),
        r == match o {
            Operand::Temp(t) => match alias@[t as int] {
                Some(v) => v,
                None => o,
            },
            Operand::Const(_) => o,
        },
{
    match o {
        Operand::Temp(t) => match alias[t as usize] {
            Some(v) => v,
            None => o,
        },
        Operand::Const(_) => o,
    }
}

/// Follows aliases (which can chain, `t1 -> t0 -> 5`) for as many hops as
/// there are temps: to the end of the chain, wherever it has one.
fn subst_chain(o: Operand, alias: &Vec<Option<Operand>>) -> (r: Operand)
    requires
        alias_ok(alias@, alias@.len() as int),
        operand_ok(o, alias@.len() as int),
    ensures
        operand_ok(r, alias@.len() as int),
        o is Const ==> r == o,
        r == chase(alias@, o, alias@.len()),
{
    let ghost o0 = o;
    let mut o = o;
    let n = alias.len();
    let mut hops: usize = 0;
    while hops < n
        invariant
            alias_ok(alias@, alias@.len() as int),
            operand_ok(o, alias@.len() as int),
            o0 is Const ==> o == o0,
            n == alias@.len(),
            hops <= n,
            chase(alias@, o0, n as nat) == chase(alias@, o, (n - hops) as nat),
        ensures
            alias_ok(alias@, alias@.len() as int),
            operand_ok(o, alias@.len() as int),
            o0 is Const ==> o == o0,
            o == chase(alias@, o0, alias@.len()),
        decreases n - hops,
    {
        match o {
            Operand::Temp(t) => match alias[t as usize] {
                Some(v) => {
                    o = v;
                },
                None => {
                    assert(chase(alias@, o, (n - hops) as nat) == o);
                    break;
                },
            },
            Operand::Const(_) => {
                assert(chase(alias@, o, (n - hops) as nat) == o);
                break;
            },
        }
        hops = hops + 1;
    }
    o
}

fn fix(o: Operand, alias: &Vec<Option<Operand>>, chain: bool) -> (r: Operand)
    requires
        alias_ok(alias@, alias@.len() as int),
        operand_ok(o, alias@.len() as int),
    ensures
        operand_ok(r, alias@.len() as int),
        o is Const ==> r == o,
        r == subst_op(alias@, o, chain),
        !chain ==> r == match o {
            Operand::Temp(t) => match alias@[t as int] {
                Some(v) => v,
                None => o,
            },
            Operand::Const(_) => o,
        },
{
    if chain {
        subst_chain(o, alias)
    } else {
        subst(o, alias)
    }
}

/// Applies `subst` (or `subst_chain`) to every operand an instruction reads.
fn subst_instr(ins: &Instr, alias: &Vec<Option<Operand>>, chain: bool) -> (r: Instr)
    requires
        alias_ok(alias@, alias@.len() as int),
        exists|s: int, ar: Seq<int>, n: int| instr_ok(*ins, alias@.len() as int, s, ar, n),
    ensures
        forall|s: int, ar: Seq<int>, n: int| instr_ok(*ins, alias@.len() as int, s, ar, n) ==> instr_ok(r, alias@.len() as int, s, ar, n),
        same_kind(*ins, r),
        consts_kept(*ins, r),
        instr_substituted(*ins, r, alias@, chain),
{
    let ghost temps = alias@.len() as int;
    match ins {
        Instr::Load { dst, slot } => Instr::Load { dst: *dst, slot: *slot },
        Instr::Store { slot, src } => Instr::Store { slot: *slot, src: fix(*src, alias, chain) },
        Instr::Bin { dst, op, a, b } => Instr::Bin { dst: *dst, op: *op, a: fix(*a, alias, chain), b: fix(*b, alias, chain) },
        Instr::Neg { dst, a } => Instr::Neg { dst: *dst, a: fix(*a, alias, chain) },
        Instr::Not { dst, a } => Instr::Not { dst: *dst, a: fix(*a, alias, chain) },
        Instr::Call { dst, func, args } => {
            let mut v: Vec<Operand> = Vec::new();
            let mut k: usize = 0;
            while k < args.len()
                invariant
                    k <= args@.len(),
                    v@.len() == k,
                    alias_ok(alias@, temps),
                    temps == alias@.len(),
                    forall|j: int| 0 <= j < args@.len() ==> operand_ok(#[trigger] args@[j], temps),
                    forall|j: int| 0 <= j < v@.len() ==> operand_ok(#[trigger] v@[j], temps),
                    forall|j: int| 0 <= j < v@.len() ==> #[trigger] v@[j] == subst_op(alias@, args@[j], chain),
                decreases args@.len() - k,
            {
                v.push(fix(args[k], alias, chain));
                k = k + 1;
            }
            assert(v@ =~= args@.map_values(|o: Operand| subst_op(alias@, o, chain)));
            Instr::Call { dst: *dst, func: *func, args: v }
        },
        Instr::PrintInt(o) => Instr::PrintInt(fix(*o, alias, chain)),
        Instr::PrintBool(o) => Instr::PrintBool(fix(*o, alias, chain)),
        Instr::PrintStr(i) => Instr::PrintStr(*i),
    }
}

/// Two instructions of the same kind, writing the same temp, slot or
/// string: only their operands may differ.
pub open spec fn same_kind(a: Instr, b: Instr) -> bool {
    match (a, b) {
        (Instr::Load { dst: d1, slot: s1 }, Instr::Load { dst: d2, slot: s2 }) => d1 == d2 && s1 == s2,
        (Instr::Store { slot: s1, .. }, Instr::Store { slot: s2, .. }) => s1 == s2,
        (Instr::Bin { dst: d1, op: o1, .. }, Instr::Bin { dst: d2, op: o2, .. }) => d1 == d2 && o1 == o2,
        (Instr::Neg { dst: d1, .. }, Instr::Neg { dst: d2, .. }) => d1 == d2,
        (Instr::Not { dst: d1, .. }, Instr::Not { dst: d2, .. }) => d1 == d2,
        (Instr::Call { dst: d1, func: f1, args: a1 }, Instr::Call { dst: d2, func: f2, args: a2 }) => d1 == d2 && f1 == f2 && a1@.len() == a2@.len(),
        (Instr::PrintInt(_), Instr::PrintInt(_)) => true,
        (Instr::PrintBool(_), Instr::PrintBool(_)) => true,
        (Instr::PrintStr(i), Instr::PrintStr(j)) => i == j,
        _ => false,
    }
}

/// Applies `subst` (or `subst_chain`) to the operand a terminator reads.
fn subst_term(t: Term, alias: &Vec<Option<Operand>>, chain: bool) -> (r: Term)
    requires
        alias_ok(alias@, alias@.len() as int),
        exists|n: int| term_ok(t, alias@.len() as int, n),
    ensures
        forall|n: int| term_ok(t, alias@.len() as int, n) ==> term_ok(r, alias@.len() as int, n),
        succs(r) == succs(t),
        term_substituted(t, r, alias@, chain),
{
    match t {
        Term::Br { cond, t, f } => Term::Br {
            cond: if chain { subst_chain(cond, alias) } else { subst(cond, alias) },
            t,
            f,
        },
        Term::Ret(Some(v)) => Term::Ret(Some(if chain { subst_chain(v, alias) } else { subst(v, alias) })),
        _ => t,
    }
}

// ------------------------------------------------------------- folding --

/// The operand an arithmetic instruction folds to, when its operands decide
/// it: both constant (unless the operation traps), or an identity
/// (`x+0`, `0+x`, `x-0`, `x*1`, `1*x`, `x/1`) or `x*0`.
pub open spec fn fold_bin(op: Op, a: Operand, b: Operand) -> Option<Operand> {
    if a is Const && b is Const {
        match spec_eval(op, a->Const_0, b->Const_0) {
            Ok(v) => Some(Operand::Const(v)),
            Err(_) => None,
        }
    } else if op == Op::Add && b == Operand::Const(0) {
        Some(a)
    } else if op == Op::Add && a == Operand::Const(0) {
        Some(b)
    } else if op == Op::Sub && b == Operand::Const(0) {
        Some(a)
    } else if op == Op::Mul && b == Operand::Const(1) {
        Some(a)
    } else if op == Op::Mul && a == Operand::Const(1) {
        Some(b)
    } else if op == Op::Div && b == Operand::Const(1) {
        Some(a)
    } else if op == Op::Mul && (b == Operand::Const(0) || a == Operand::Const(0)) {
        Some(Operand::Const(0))
    } else {
        None
    }
}

/// The operand an instruction folds to, if any.
pub open spec fn folds_to(ins: Instr) -> Option<Operand> {
    match ins {
        Instr::Bin { op, a, b, .. } => fold_bin(op, a, b),
        Instr::Neg { a, .. } => match a {
            Operand::Const(x) => if x == i64::MIN {
                None
            } else {
                Some(Operand::Const((-x) as i64))
            },
            _ => None,
        },
        Instr::Not { a, .. } => match a {
            Operand::Const(x) => Some(Operand::Const(if x == 0 { 1 } else { 0 })),
            _ => None,
        },
        _ => None,
    }
}

/// Folding agrees with execution: an instruction that folds to an operand
/// runs without trapping, and writes that operand's value to its temp.
pub proof fn lemma_fold_agrees_with_execution(p: Program, ins: Instr, slots: Seq<i64>, temps: Seq<i64>, out: Seq<u8>)
    requires
        folds_to(ins) is Some,
    ensures
        step_simple(p, ins, slots, temps, out) == Ok::<(Seq<i64>, Seq<i64>, Seq<u8>), crate::ir::Trap>(
            (slots, temps.update(dst_spec(ins) as int, val(folds_to(ins)->0, temps)), out),
        ),
{
    match ins {
        Instr::Bin { op, a, b, .. } => {
            let x = val(a, temps);
            let y = val(b, temps);
            if !(a is Const && b is Const) {
                if op == Op::Mul && (b == Operand::Const(0) || a == Operand::Const(0)) {
                    assert(x * y == 0) by (nonlinear_arith)
                        requires x == 0 || y == 0;
                }
                if op == Op::Mul && b == Operand::Const(1) {
                    assert(x * y == x) by (nonlinear_arith)
                        requires y == 1;
                }
                if op == Op::Mul && a == Operand::Const(1) {
                    assert(x * y == y) by (nonlinear_arith)
                        requires x == 1;
                }
                if op == Op::Div && b == Operand::Const(1) {
                    assert(crate::ir::trunc_div(x as int, 1) == x);
                }
            }
        },
        _ => {},
    }
}

/// The temp an arithmetic instruction writes.
pub open spec fn dst_spec(ins: Instr) -> u32 {
    match ins {
        Instr::Bin { dst, .. } => dst,
        Instr::Neg { dst, .. } => dst,
        Instr::Not { dst, .. } => dst,
        _ => 0,
    }
}

fn fold(ins: &Instr) -> (r: Option<Operand>)
    ensures
        r == folds_to(*ins),
{
    match ins {
        Instr::Bin { op, a, b, .. } => {
            let (op, a, b) = (*op, *a, *b);
            match (a, b) {
                (Operand::Const(x), Operand::Const(y)) => {
                    return match eval(op, x, y) {
                        Ok(v) => Some(Operand::Const(v)),
                        Err(_) => None,
                    };
                },
                _ => {},
            }
            if op == Op::Add && b == Operand::Const(0) {
                Some(a)
            } else if op == Op::Add && a == Operand::Const(0) {
                Some(b)
            } else if op == Op::Sub && b == Operand::Const(0) {
                Some(a)
            } else if op == Op::Mul && b == Operand::Const(1) {
                Some(a)
            } else if op == Op::Mul && a == Operand::Const(1) {
                Some(b)
            } else if op == Op::Div && b == Operand::Const(1) {
                Some(a)
            } else if op == Op::Mul && (b == Operand::Const(0) || a == Operand::Const(0)) {
                Some(Operand::Const(0))
            } else {
                None
            }
        },
        Instr::Neg { a: Operand::Const(x), .. } => {
            if *x == i64::MIN {
                None
            } else {
                Some(Operand::Const(-*x))
            }
        },
        Instr::Not { a: Operand::Const(x), .. } => Some(Operand::Const(if *x == 0 { 1 } else { 0 })),
        _ => None,
    }
}

/// The temp an arithmetic instruction writes.
fn dst_of(ins: &Instr) -> (d: u32)
    requires
        ins is Bin || ins is Neg || ins is Not,
    ensures
        d == match *ins {
            Instr::Bin { dst, .. } => dst,
            Instr::Neg { dst, .. } => dst,
            Instr::Not { dst, .. } => dst,
            _ => 0,
        },
{
    match ins {
        Instr::Bin { dst, .. } => *dst,
        Instr::Neg { dst, .. } => *dst,
        Instr::Not { dst, .. } => *dst,
        _ => 0,
    }
}

/// No aliases: every temp stands for itself.
fn no_aliases(n: u32) -> (alias: Vec<Option<Operand>>)
    ensures
        alias@.len() == n,
        forall|t: int| 0 <= t < n ==> (#[trigger] alias@[t]) is None,
{
    let mut alias: Vec<Option<Operand>> = Vec::new();
    let mut i: u32 = 0;
    while i < n
        invariant
            i <= n,
            alias@.len() == i,
            forall|t: int| 0 <= t < i ==> (#[trigger] alias@[t]) is None,
        decreases n - i,
    {
        alias.push(None);
        i = i + 1;
    }
    alias
}

/// Replaces every use of an aliased temp, in every block, following chains.
fn rewrite_all(f: &mut Func, alias: &Vec<Option<Operand>>, ar: Ghost<Seq<int>>, nstr: Ghost<int>)
    requires
        func_ok(*old(f), ar@, nstr@),
        alias_ok(alias@, old(f).temps as int),
    ensures
        func_ok(*final(f), ar@, nstr@),
        same_header(*final(f), *old(f)),
        final(f).blocks@.len() == old(f).blocks@.len(),
        forall|b: int| 0 <= b < final(f).blocks@.len() ==> drawn_from(#[trigger] final(f).blocks@[b].instrs@, old(f).blocks@[b].instrs@),
        same_targets(*old(f), *final(f)),
        forall|b: int| 0 <= b < final(f).blocks@.len() ==> block_rewritten(old(f).blocks@[b], #[trigger] final(f).blocks@[b], alias@),
        forall|b: int| 0 <= b < final(f).blocks@.len() ==> same_kinds(old(f).blocks@[b].instrs@, #[trigger] final(f).blocks@[b].instrs@),
{
    proof {
        lemma_func_ok_blocks(*f, ar@, nstr@);
    }
    let n = f.blocks.len();
    let mut i: usize = 0;
    while i < n
        invariant
            n == f.blocks@.len(),
            n == old(f).blocks@.len(),
            i <= n,
            same_header(*f, *old(f)),
            old(f).params <= old(f).slots,
            1 <= n <= u32::MAX,
            alias_ok(alias@, f.temps as int),
            blocks_wf(f.blocks@, f.temps as int, f.slots as int, ar@, nstr@),
            forall|b: int| i <= b < n ==> #[trigger] f.blocks@[b] == old(f).blocks@[b],
            forall|b: int| 0 <= b < i ==> drawn_from(#[trigger] f.blocks@[b].instrs@, old(f).blocks@[b].instrs@),
            forall|b: int| 0 <= b < i ==> succs((#[trigger] f.blocks@[b]).term) == succs(old(f).blocks@[b].term),
            forall|b: int| 0 <= b < i ==> same_kinds(old(f).blocks@[b].instrs@, #[trigger] f.blocks@[b].instrs@),
            forall|b: int| 0 <= b < i ==> block_rewritten(old(f).blocks@[b], #[trigger] f.blocks@[b], alias@),
        decreases n - i,
    {
        let ghost before = f.blocks@;
        let blk = take_block(f, i);
        assert(block_wf(before[i as int], f.temps as int, f.slots as int, ar@, nstr@, n as int));
        let mut instrs: Vec<Instr> = Vec::new();
        let mut k: usize = 0;
        while k < blk.instrs.len()
            invariant
                k <= blk.instrs@.len(),
                alias_ok(alias@, f.temps as int),
                instrs_ok(blk.instrs@, f.temps as int, f.slots as int, ar@, nstr@),
                instrs_ok(instrs@, f.temps as int, f.slots as int, ar@, nstr@),
                instrs@.len() == k,
                forall|j: int| 0 <= j < k ==> same_kind(blk.instrs@[j], #[trigger] instrs@[j]),
                forall|j: int| 0 <= j < k ==> instr_substituted(blk.instrs@[j], #[trigger] instrs@[j], alias@, true),
            decreases blk.instrs@.len() - k,
        {
            assert(instr_ok(blk.instrs@[k as int], f.temps as int, f.slots as int, ar@, nstr@));
            let ins = subst_instr(&blk.instrs[k], alias, true);
            proof {
                lemma_instrs_ok_push(instrs@, ins, f.temps as int, f.slots as int, ar@, nstr@);
            }
            instrs.push(ins);
            k = k + 1;
        }
        let term = subst_term(blk.term, alias, true);
        proof {
            let idx = Seq::new(instrs@.len(), |j: int| j);
            assert forall|j: int| 0 <= j < idx.len() implies writes(#[trigger] instrs@[j]) == writes(blk.instrs@[idx[j]]) by {
                lemma_same_kind_writes(blk.instrs@[j], instrs@[j]);
            }
            assert(sub_writes(instrs@, blk.instrs@, idx));
        }
        let nb = BasicBlock { instrs, term, line: blk.line };
        proof {
            lemma_blocks_wf_update(before, i as int, nb, f.temps as int, f.slots as int, ar@, nstr@);
            assert(f.blocks@.update(i as int, nb) =~= before.update(i as int, nb));
        }
        f.blocks.set(i, nb);
        proof {
            assert forall|b: int| 0 <= b < i + 1 implies drawn_from(#[trigger] f.blocks@[b].instrs@, old(f).blocks@[b].instrs@) by {
                if b < i {
                    assert(f.blocks@[b] == before[b]);
                }
            }
            assert forall|b: int| 0 <= b < i + 1 implies succs((#[trigger] f.blocks@[b]).term) == succs(old(f).blocks@[b].term) by {
                if b < i {
                    assert(f.blocks@[b] == before[b]);
                }
            }
            assert forall|b: int| 0 <= b < i + 1 implies same_kinds(old(f).blocks@[b].instrs@, #[trigger] f.blocks@[b].instrs@) by {
                if b < i {
                    assert(f.blocks@[b] == before[b]);
                }
            }
            assert forall|b: int| 0 <= b < i + 1 implies block_rewritten(old(f).blocks@[b], #[trigger] f.blocks@[b], alias@) by {
                if b < i {
                    assert(f.blocks@[b] == before[b]);
                }
            }
        }
        i = i + 1;
    }
    proof {
        lemma_func_ok_blocks(*f, ar@, nstr@);
    }
}

/// Folds constant and identity arithmetic, replacing the folded temp by its
/// value everywhere. Every instruction that folds as written goes, the
/// others stay in order as instructions of the same kind, and `folded`
/// counts the instructions that went.
fn fold_and_propagate(f: &mut Func, stats: &mut Stats, ar: Ghost<Seq<int>>, nstr: Ghost<int>)
    requires
        func_ok(*old(f), ar@, nstr@),
    ensures
        func_ok(*final(f), ar@, nstr@),
        same_header(*final(f), *old(f)),
        final(f).blocks@.len() == old(f).blocks@.len(),
        stats_grew(*old(stats), *final(stats)),
        writes_once(old(f).blocks@) ==> writes_once(final(f).blocks@),
        entry_never_entered(*old(f)) ==> entry_never_entered(*final(f)),
        same_targets(*old(f), *final(f)),
        instr_count(final(f).blocks@) <= instr_count(old(f).blocks@),
        forall|b: int| 0 <= b < final(f).blocks@.len() ==> folds_dropped(#[trigger] final(f).blocks@[b].instrs@, old(f).blocks@[b].instrs@),
        *final(stats) == (Stats { folded: final(stats).folded, ..*old(stats) }),
        final(stats).folded == sat_add(old(stats).folded as int, instr_count(old(f).blocks@) - instr_count(final(f).blocks@)),
        final(stats).folded == old(stats).folded && old(stats).folded < usize::MAX ==> code_eqv(*old(f), *final(f)) && nothing_folds(
            *old(f),
        ),
        nothing_folds(*old(f)) && old(stats).folded < usize::MAX ==> final(stats).folded == old(stats).folded,
{
    proof {
        lemma_func_ok_blocks(*f, ar@, nstr@);
    }
    let mut alias = no_aliases(f.temps);
    let n = f.blocks.len();
    let mut i: usize = 0;
    while i < n
        invariant
            n == f.blocks@.len(),
            n == old(f).blocks@.len(),
            i <= n,
            same_header(*f, *old(f)),
            old(f).params <= old(f).slots,
            1 <= n <= u32::MAX,
            alias_ok(alias@, f.temps as int),
            blocks_wf(f.blocks@, f.temps as int, f.slots as int, ar@, nstr@),
            stats_grew(*old(stats), *stats),
            forall|b: int| i <= b < n ==> #[trigger] f.blocks@[b] == old(f).blocks@[b],
            forall|b: int| 0 <= b < i ==> drawn_from(#[trigger] f.blocks@[b].instrs@, old(f).blocks@[b].instrs@),
            forall|b: int| 0 <= b < i ==> succs((#[trigger] f.blocks@[b]).term) == succs(old(f).blocks@[b].term),
            forall|b: int| 0 <= b < i ==> folds_dropped(#[trigger] f.blocks@[b].instrs@, old(f).blocks@[b].instrs@),
            *stats == (Stats { folded: stats.folded, ..*old(stats) }),
            stats.folded == sat_add(old(stats).folded as int, instr_count(old(f).blocks@.take(i as int)) - instr_count(f.blocks@.take(i as int))),
            alias@.len() == f.temps,
            nothing_folds(*old(f)) && old(stats).folded < usize::MAX ==> stats.folded == old(stats).folded,
            stats.folded == old(stats).folded && old(stats).folded < usize::MAX ==> {
                &&& no_alias(alias@)
                &&& forall|b: int| 0 <= b < i ==> block_code_eqv(old(f).blocks@[b], #[trigger] f.blocks@[b])
                &&& forall|b: int, k: int|
                    0 <= b < i && 0 <= k < old(f).blocks@[b].instrs@.len() ==> (#[trigger] folds_to(old(f).blocks@[b].instrs@[k])) is None
            },
        decreases n - i,
    {
        let ghost before = f.blocks@;
        let blk = take_block(f, i);
        assert(block_wf(before[i as int], f.temps as int, f.slots as int, ar@, nstr@, n as int));
        let mut keep: Vec<Instr> = Vec::new();
        let ghost mut idx: Seq<int> = Seq::empty();
        let ghost s_i = *stats;
        let mut k: usize = 0;
        while k < blk.instrs.len()
            invariant
                k <= blk.instrs@.len(),
                alias_ok(alias@, f.temps as int),
                instrs_ok(blk.instrs@, f.temps as int, f.slots as int, ar@, nstr@),
                instrs_ok(keep@, f.temps as int, f.slots as int, ar@, nstr@),
                stats_grew(*old(stats), *stats),
                sub_writes(keep@, blk.instrs@, idx),
                forall|j: int| 0 <= j < idx.len() ==> #[trigger] idx[j] < k,
                forall|j: int| 0 <= j < idx.len() ==> same_kind(blk.instrs@[idx[j]], #[trigger] keep@[j]),
                forall|j: int| 0 <= j < k && (#[trigger] folds_to(blk.instrs@[j])) is Some ==> !idx.contains(j),
                *stats == (Stats { folded: stats.folded, ..*old(stats) }),
                stats.folded == sat_add(s_i.folded as int, k - keep@.len()),
                keep@.len() <= k,
                alias@.len() == f.temps,
                old(stats).folded <= stats.folded,
                blk == old(f).blocks@[i as int],
                i < old(f).blocks@.len(),
                nothing_folds(*old(f)) && old(stats).folded < usize::MAX ==> stats.folded == old(stats).folded,
                stats.folded == old(stats).folded && old(stats).folded < usize::MAX ==> {
                    &&& no_alias(alias@)
                    &&& keep@.len() == k
                    &&& forall|j: int| 0 <= j < k ==> instr_eqv(blk.instrs@[j], #[trigger] keep@[j])
                    &&& forall|j: int| 0 <= j < k ==> (#[trigger] folds_to(blk.instrs@[j])) is None
                },
            decreases blk.instrs@.len() - k,
        {
            assert(instr_ok(blk.instrs@[k as int], f.temps as int, f.slots as int, ar@, nstr@));
            let ins = subst_instr(&blk.instrs[k], &alias, false);
            let ghost idx0 = idx;
            proof {
                if folds_to(blk.instrs@[k as int]) is Some {
                    lemma_folds_after_subst(blk.instrs@[k as int], ins);
                }
                if stats.folded == old(stats).folded && old(stats).folded < usize::MAX {
                    lemma_no_alias_instr(alias@, blk.instrs@[k as int], ins, false, f.slots as int, ar@, nstr@);
                }
            }
            match fold(&ins) {
                Some(v) => {
                    proof {
                        if nothing_folds(*old(f)) && old(stats).folded < usize::MAX {
                            assert(instr_eqv(blk.instrs@[k as int], ins));
                            assert(folds_to(old(f).blocks@[i as int].instrs@[k as int]) is None);
                            assert(false);
                        }
                    }
                    let d = dst_of(&ins);
                    alias.set(d as usize, Some(v));
                    stats.folded = inc(stats.folded);
                },
                None => {
                    proof {
                        lemma_instrs_ok_push(keep@, ins, f.temps as int, f.slots as int, ar@, nstr@);
                        lemma_same_kind_writes(blk.instrs@[k as int], ins);
                        idx = idx.push(k as int);
                    }
                    keep.push(ins);
                },
            }
            proof {
                assert forall|j: int| 0 <= j < k + 1 && (#[trigger] folds_to(blk.instrs@[j])) is Some implies !idx.contains(j) by {
                    if idx.contains(j) {
                        let q = choose|q: int| 0 <= q < idx.len() && idx[q] == j;
                        if q < idx0.len() {
                            assert(idx0[q] == j);
                            assert(idx0.contains(j));
                        }
                    }
                }
            }
            k = k + 1;
        }
        proof {
            assert(kept_in_order(keep@, blk.instrs@, idx));
            assert(folds_dropped(keep@, blk.instrs@));
        }
        let term = subst_term(blk.term, &alias, false);
        proof {
            if stats.folded == old(stats).folded && old(stats).folded < usize::MAX {
                lemma_no_alias_term(alias@, blk.term, term, false, n as int);
            }
        }
        let nb = BasicBlock { instrs: keep, term, line: blk.line };
        proof {
            lemma_blocks_wf_update(before, i as int, nb, f.temps as int, f.slots as int, ar@, nstr@);
            assert(f.blocks@.update(i as int, nb) =~= before.update(i as int, nb));
        }
        f.blocks.set(i, nb);
        proof {
            lemma_instr_count_take(old(f).blocks@, i as int);
            lemma_instr_count_take(f.blocks@, i as int);
            assert(f.blocks@.take(i as int) =~= before.take(i as int));
            assert(old(f).blocks@[i as int] == before[i as int]);
            assert forall|b: int| 0 <= b < i + 1 implies drawn_from(#[trigger] f.blocks@[b].instrs@, old(f).blocks@[b].instrs@) by {
                if b < i {
                    assert(f.blocks@[b] == before[b]);
                }
            }
            assert forall|b: int| 0 <= b < i + 1 implies succs((#[trigger] f.blocks@[b]).term) == succs(old(f).blocks@[b].term) by {
                if b < i {
                    assert(f.blocks@[b] == before[b]);
                }
            }
            assert forall|b: int| 0 <= b < i + 1 implies folds_dropped(#[trigger] f.blocks@[b].instrs@, old(f).blocks@[b].instrs@) by {
                if b < i {
                    assert(f.blocks@[b] == before[b]);
                }
            }
            if stats.folded == old(stats).folded && old(stats).folded < usize::MAX {
                assert forall|b: int| 0 <= b < i + 1 implies block_code_eqv(old(f).blocks@[b], #[trigger] f.blocks@[b]) by {
                    if b < i {
                        assert(f.blocks@[b] == before[b]);
                    }
                }
            }
        }
        i = i + 1;
    }
    proof {
        lemma_func_ok_blocks(*f, ar@, nstr@);
        if writes_once(old(f).blocks@) {
            lemma_writes_subseq(f.blocks@, old(f).blocks@);
        }
    }
    let ghost mid = *f;
    proof {
        assert(old(f).blocks@.take(n as int) =~= old(f).blocks@);
        assert(f.blocks@.take(n as int) =~= f.blocks@);
        if entry_never_entered(*old(f)) {
            lemma_same_targets_entry(*old(f), mid);
        }
    }
    rewrite_all(f, &alias, ar, nstr);
    proof {
        if entry_never_entered(*old(f)) {
            lemma_same_targets_entry(mid, *f);
        }
        if writes_once(old(f).blocks@) {
            lemma_writes_subseq(f.blocks@, mid.blocks@);
        }
        assert forall|b: int| 0 <= b < f.blocks@.len() implies folds_dropped(#[trigger] f.blocks@[b].instrs@, old(f).blocks@[b].instrs@) by {
            let s0 = old(f).blocks@[b].instrs@;
            let s1 = mid.blocks@[b].instrs@;
            let s2 = f.blocks@[b].instrs@;
            assert(folds_dropped(s1, s0));
            assert(same_kinds(s1, s2));
            let idx = choose|idx: Seq<int>|
                kept_in_order(s1, s0, idx) && forall|j: int| 0 <= j < s0.len() && (#[trigger] folds_to(s0[j])) is Some ==> !idx.contains(j);
            assert forall|j: int| 0 <= j < idx.len() implies same_kind(s0[idx[j]], #[trigger] s2[j]) by {
                lemma_same_kind_trans(s0[idx[j]], s1[j], s2[j]);
            }
            assert(kept_in_order(s2, s0, idx));
        }
        assert(same_targets(*old(f), *f));
        lemma_instr_count_same(mid.blocks@, f.blocks@);
        assert forall|b: int| 0 <= b < n implies (#[trigger] f.blocks@[b]).instrs@.len() <= old(f).blocks@[b].instrs@.len() by {
            let s0 = old(f).blocks@[b].instrs@;
            assert(folds_dropped(f.blocks@[b].instrs@, s0));
            let idx = choose|idx: Seq<int>|
                kept_in_order(f.blocks@[b].instrs@, s0, idx) && forall|j: int| 0 <= j < s0.len() && (#[trigger] folds_to(s0[j])) is Some ==> !idx.contains(j);
            lemma_kept_in_order_len(f.blocks@[b].instrs@, s0, idx);
        }
        lemma_blocks_no_longer(old(f).blocks@, f.blocks@);
        if stats.folded == old(stats).folded && old(stats).folded < usize::MAX {
            assert forall|b: int| 0 <= b < n implies block_code_eqv(old(f).blocks@[b], #[trigger] f.blocks@[b]) by {
                let m = mid.blocks@[b];
                let g = f.blocks@[b];
                assert(block_code_eqv(old(f).blocks@[b], m));
                assert(block_rewritten(m, g, alias@));
                assert(block_wf(m, f.temps as int, f.slots as int, ar@, nstr@, n as int));
                lemma_no_alias_term(alias@, m.term, g.term, true, n as int);
                assert forall|k: int| 0 <= k < old(f).blocks@[b].instrs@.len() implies instr_eqv(old(f).blocks@[b].instrs@[k], #[trigger] g.instrs@[k]) by {
                    assert(instr_ok(m.instrs@[k], f.temps as int, f.slots as int, ar@, nstr@));
                    lemma_no_alias_instr(alias@, m.instrs@[k], g.instrs@[k], true, f.slots as int, ar@, nstr@);
                }
            }
        }
    }
}

/// The same instruction, or calls of the same function with the same
/// operands into the same temp.
pub open spec fn instr_eqv(a: Instr, b: Instr) -> bool {
    ||| a == b
    ||| (a is Call && b is Call && a->Call_dst == b->Call_dst && a->Call_func == b->Call_func && a->Call_args@ == b->Call_args@)
}

/// Blocks with equivalent instructions and the same terminator.
pub open spec fn block_code_eqv(a: BasicBlock, b: BasicBlock) -> bool {
    &&& b.instrs@.len() == a.instrs@.len()
    &&& forall|k: int| 0 <= k < a.instrs@.len() ==> instr_eqv(a.instrs@[k], #[trigger] b.instrs@[k])
    &&& b.term == a.term
}

/// `g` has the code of `f`, up to calls that are equal but for their
/// argument vectors.
pub open spec fn code_eqv(f: Func, g: Func) -> bool {
    &&& g.blocks@.len() == f.blocks@.len()
    &&& g.temps == f.temps
    &&& g.slots == f.slots
    &&& forall|b: int| 0 <= b < f.blocks@.len() ==> block_code_eqv(f.blocks@[b], #[trigger] g.blocks@[b])
}

/// No instruction of `f` folds.
pub open spec fn nothing_folds(f: Func) -> bool {
    forall|b: int, k: int|
        0 <= b < f.blocks@.len() && 0 <= k < f.blocks@[b].instrs@.len() ==> (#[trigger] folds_to(f.blocks@[b].instrs@[k])) is None
}

/// No load of `f` reads a slot its block already stored to or loaded.
pub open spec fn nothing_forwards(f: Func) -> bool {
    forall|b: int, k: int| 0 <= b < f.blocks@.len() && 0 <= k < f.blocks@[b].instrs@.len() ==> !#[trigger] forwarded_load(f.blocks@[b].instrs@, k)
}

/// No temp has an alias.
pub open spec fn no_alias(alias: Seq<Option<Operand>>) -> bool {
    forall|t: int| 0 <= t < alias.len() ==> (#[trigger] alias[t]) is None
}

proof fn lemma_no_alias_op(alias: Seq<Option<Operand>>, o: Operand, chain: bool)
    requires
        no_alias(alias),
        operand_ok(o, alias.len() as int),
    ensures
        subst_op(alias, o, chain) == o,
{
    assert(settled(alias, o));
    lemma_chase_settled(alias, o, alias.len());
}

/// With no aliases, replacing operands changes nothing.
proof fn lemma_no_alias_instr(alias: Seq<Option<Operand>>, a: Instr, b: Instr, chain: bool, s: int, ar: Seq<int>, n: int)
    requires
        no_alias(alias),
        instr_ok(a, alias.len() as int, s, ar, n),
        instr_substituted(a, b, alias, chain),
    ensures
        instr_eqv(a, b),
{
    match a {
        Instr::Store { src, .. } => lemma_no_alias_op(alias, src, chain),
        Instr::Bin { a: x, b: y, .. } => {
            lemma_no_alias_op(alias, x, chain);
            lemma_no_alias_op(alias, y, chain);
        },
        Instr::Neg { a: x, .. } => lemma_no_alias_op(alias, x, chain),
        Instr::Not { a: x, .. } => lemma_no_alias_op(alias, x, chain),
        Instr::PrintInt(v) => lemma_no_alias_op(alias, v, chain),
        Instr::PrintBool(v) => lemma_no_alias_op(alias, v, chain),
        Instr::Call { args, .. } => {
            assert forall|j: int| 0 <= j < args@.len() implies #[trigger] subst_op(alias, args@[j], chain) == args@[j] by {
                assert(operand_ok(args@[j], alias.len() as int));
                lemma_no_alias_op(alias, args@[j], chain);
            }
            assert(args@.map_values(|o: Operand| subst_op(alias, o, chain)) =~= args@);
        },
        _ => {},
    }
}

proof fn lemma_no_alias_term(alias: Seq<Option<Operand>>, a: Term, b: Term, chain: bool, nb: int)
    requires
        no_alias(alias),
        term_ok(a, alias.len() as int, nb),
        term_substituted(a, b, alias, chain),
    ensures
        b == a,
{
    match a {
        Term::Br { cond, .. } => lemma_no_alias_op(alias, cond, chain),
        Term::Ret(Some(v)) => lemma_no_alias_op(alias, v, chain),
        _ => {},
    }
}

/// Instructions of the same kinds, position by position.
pub open spec fn same_kinds(s: Seq<Instr>, s2: Seq<Instr>) -> bool {
    &&& s2.len() == s.len()
    &&& forall|k: int| 0 <= k < s.len() ==> same_kind(s[k], #[trigger] s2[k])
}

/// `s2` keeps, in order, the instructions of `s` at the positions `idx`
/// names, each as an instruction of the same kind.
pub open spec fn kept_in_order(s2: Seq<Instr>, s: Seq<Instr>, idx: Seq<int>) -> bool {
    &&& idx.len() == s2.len()
    &&& forall|j: int| 0 <= j < idx.len() ==> 0 <= #[trigger] idx[j] < s.len()
    &&& forall|j1: int, j2: int| 0 <= j1 < j2 < idx.len() ==> #[trigger] idx[j1] < #[trigger] idx[j2]
    &&& forall|j: int| 0 <= j < idx.len() ==> same_kind(s[idx[j]], #[trigger] s2[j])
}

/// Whether an instruction stores to or loads from `slot`.
pub open spec fn touches_slot(ins: Instr, slot: u32) -> bool {
    match ins {
        Instr::Store { slot: x, .. } => x == slot,
        Instr::Load { slot: x, .. } => x == slot,
        _ => false,
    }
}

/// Some instruction before position `k` of `s` stores to or loads from `slot`.
pub open spec fn slot_seen(s: Seq<Instr>, k: int, slot: u32) -> bool {
    exists|j: int| 0 <= j < k && touches_slot(#[trigger] s[j], slot)
}

/// Instruction `k` of `s` loads a slot that an earlier instruction of the
/// block stored to or loaded: its value is known without the load.
pub open spec fn forwarded_load(s: Seq<Instr>, k: int) -> bool {
    s[k] is Load && slot_seen(s, k, s[k]->Load_slot)
}

/// The operand slot `x` holds just before position `k` of block `s`: the
/// source of the last store to it, or, before any store, the temp that the
/// first load of it wrote; none when nothing before `k` stores to or loads
/// it.
pub open spec fn slot_value(s: Seq<Instr>, k: int, x: u32) -> Option<Operand>
    decreases k,
{
    if k <= 0 {
        None
    } else {
        let prev = slot_value(s, k - 1, x);
        match s[k - 1] {
            Instr::Store { slot, src } => if slot == x {
                Some(src)
            } else {
                prev
            },
            Instr::Load { dst, slot } => if slot == x && prev is None {
                Some(Operand::Temp(dst))
            } else {
                prev
            },
            _ => prev,
        }
    }
}

/// `s2` keeps, in order and unchanged, exactly the instructions of `s` that
/// are not forwarded loads.
pub open spec fn loads_removed(s2: Seq<Instr>, s: Seq<Instr>) -> bool {
    exists|idx: Seq<int>|
        {
            &&& idx.len() == s2.len()
            &&& forall|j: int| 0 <= j < idx.len() ==> 0 <= #[trigger] idx[j] < s.len() && s2[j] == s[idx[j]]
            &&& forall|j1: int, j2: int| 0 <= j1 < j2 < idx.len() ==> #[trigger] idx[j1] < #[trigger] idx[j2]
            &&& forall|j: int| 0 <= j < s.len() ==> (idx.contains(j) <==> !forwarded_load(s, j))
        }
}

/// `out` is `f` with its forwarded loads taken out (which gives `mid`) and
/// every operand then replaced along the chains of `alias`, where the temp
/// of each forwarded load has as its alias the operand its slot holds at
/// that load.
pub open spec fn forwarded_as(f: Func, mid: Seq<BasicBlock>, alias: Seq<Option<Operand>>, out: Seq<BasicBlock>) -> bool {
    &&& mid.len() == f.blocks@.len()
    &&& out.len() == mid.len()
    &&& forall|b: int|
        0 <= b < mid.len() ==> loads_removed(#[trigger] mid[b].instrs@, f.blocks@[b].instrs@) && block_rewritten(mid[b], out[b], alias)
    &&& forall|b: int, k: int|
        0 <= b < f.blocks@.len() && 0 <= k < f.blocks@[b].instrs@.len() && #[trigger] forwarded_load(f.blocks@[b].instrs@, k)
            ==> alias[f.blocks@[b].instrs@[k]->Load_dst as int] == slot_value(
            f.blocks@[b].instrs@,
            k,
            f.blocks@[b].instrs@[k]->Load_slot,
        )
}

/// A slot holds an operand just before `k` exactly when an instruction
/// before `k` stores to or loads from it.
pub proof fn lemma_slot_value_seen(s: Seq<Instr>, k: int, x: u32)
    requires
        0 <= k <= s.len(),
    ensures
        slot_value(s, k, x) is Some <==> slot_seen(s, k, x),
    decreases k,
{
    if k > 0 {
        lemma_slot_value_seen(s, k - 1, x);
        lemma_slot_seen_step(s, k - 1, x);
    }
}

/// Instruction `i` reads temp `t`.
pub open spec fn reads_temp(i: Instr, t: u32) -> bool {
    match i {
        Instr::Store { src, .. } => src == Operand::Temp(t),
        Instr::Bin { a, b, .. } => a == Operand::Temp(t) || b == Operand::Temp(t),
        Instr::Neg { a, .. } => a == Operand::Temp(t),
        Instr::Not { a, .. } => a == Operand::Temp(t),
        Instr::PrintInt(v) => v == Operand::Temp(t),
        Instr::PrintBool(v) => v == Operand::Temp(t),
        Instr::Call { args, .. } => args@.contains(Operand::Temp(t)),
        _ => false,
    }
}

/// No instruction of `s` writes a temp that an earlier one of `s` wrote or
/// read.
pub open spec fn fresh_writes(s: Seq<Instr>) -> bool {
    forall|j1: int, j2: int|
        #![trigger s[j1], s[j2]]
        0 <= j1 < j2 < s.len() && writes(s[j2]) is Some ==> writes(s[j1]) != writes(s[j2]) && !reads_temp(s[j1], writes(s[j2])->0)
}

/// Slots and temps after running the first `k` instructions of `s` from
/// `slots` and `temps`, where the call at position `j` returns `rets[j]`
/// (a call leaves the caller's slots alone); or the trap of the first
/// instruction that traps.
pub open spec fn run_prefix(p: Program, s: Seq<Instr>, k: int, slots: Seq<i64>, temps: Seq<i64>, rets: Seq<i64>) -> Result<(Seq<i64>, Seq<i64>), Trap>
    decreases k,
{
    if k <= 0 {
        Ok((slots, temps))
    } else {
        match run_prefix(p, s, k - 1, slots, temps, rets) {
            Err(t) => Err(t),
            Ok((sl, tm)) => match s[k - 1] {
                Instr::Call { dst, .. } => Ok((
                    sl,
                    match dst {
                        Some(d) => tm.update(d as int, rets[k - 1]),
                        None => tm,
                    },
                )),
                ins => match step_simple(p, ins, sl, tm, Seq::empty()) {
                    Ok(r) => Ok((r.0, r.1)),
                    Err(t) => Err(t),
                },
            },
        }
    }
}

/// A temp that a slot holds before `k` was read or written by an
/// instruction before `k`.
proof fn lemma_slot_value_origin(s: Seq<Instr>, k: int, x: u32, t: u32)
    requires
        0 <= k <= s.len(),
        slot_value(s, k, x) == Some(Operand::Temp(t)),
    ensures
        exists|j: int|
            0 <= j < k && ((#[trigger] s[j]) == Instr::Store { slot: x, src: Operand::Temp(t) } || s[j] == Instr::Load { dst: t, slot: x }),
    decreases k,
{
    if slot_value(s, k - 1, x) == Some(Operand::Temp(t)) {
        lemma_slot_value_origin(s, k - 1, x, t);
        let j = choose|j: int|
            0 <= j < k - 1 && ((#[trigger] s[j]) == Instr::Store { slot: x, src: Operand::Temp(t) } || s[j] == Instr::Load { dst: t, slot: x });
        assert(0 <= j < k);
    } else {
        assert(s[k - 1] == Instr::Store { slot: x, src: Operand::Temp(t) } || s[k - 1] == Instr::Load { dst: t, slot: x });
    }
}

/// Store-to-load forwarding reads what the slot holds: running a block
/// whose instructions write fresh temps, where slot `x` has a known operand
/// just before position `k` (the source of the last store to it, or the
/// temp of its first load when nothing stored to it since), the slot holds
/// at that point exactly the value of that operand.
pub proof fn lemma_slot_value_is_held(p: Program, s: Seq<Instr>, k: int, x: u32, slots: Seq<i64>, temps: Seq<i64>, rets: Seq<i64>)
    requires
        0 <= k <= s.len(),
        x < slots.len(),
        fresh_writes(s),
        forall|j: int| 0 <= j < s.len() && (#[trigger] writes(s[j])) is Some ==> writes(s[j])->0 < temps.len(),
        forall|j: int|
            0 <= j < s.len() && (#[trigger] s[j]) is Store ==> s[j]->Store_slot < slots.len() && operand_ok(s[j]->Store_src, temps.len() as int),
        run_prefix(p, s, k, slots, temps, rets) is Ok,
        slot_value(s, k, x) is Some,
    ensures
        run_prefix(p, s, k, slots, temps, rets)->Ok_0.0[x as int] == val(
            slot_value(s, k, x)->0,
            run_prefix(p, s, k, slots, temps, rets)->Ok_0.1,
        ),
    decreases k,
{
    lemma_run_prefix_lens(p, s, k, slots, temps, rets);
    let prev = slot_value(s, k - 1, x);
    let r0 = run_prefix(p, s, k - 1, slots, temps, rets);
    let r1 = run_prefix(p, s, k, slots, temps, rets);
    assert(r0 is Ok);
    lemma_run_prefix_lens(p, s, k - 1, slots, temps, rets);
    let sl = r0->Ok_0.0;
    let tm = r0->Ok_0.1;
    if prev is Some {
        lemma_slot_value_is_held(p, s, k - 1, x, slots, temps, rets);
        let o = prev->0;
        if let Operand::Temp(t) = o {
            lemma_slot_value_origin(s, k - 1, x, t);
            let j = choose|j: int|
                0 <= j < k - 1 && ((#[trigger] s[j]) == Instr::Store { slot: x, src: Operand::Temp(t) } || s[j] == Instr::Load { dst: t, slot: x });
            assert(reads_temp(s[j], t) || writes(s[j]) == Some(t));
            assert(t < temps.len());
            if writes(s[k - 1]) is Some {
                assert(writes(s[j]) != writes(s[k - 1]) && !reads_temp(s[j], writes(s[k - 1])->0));
                assert(writes(s[k - 1]) != Some(t));
            }
        }
    }
    let v = slot_value(s, k, x)->0;
    match s[k - 1] {
        Instr::Load { dst, slot } => {
            assert(writes(s[k - 1]) == Some(dst));
            assert(r1->Ok_0.0 == sl);
            assert(r1->Ok_0.1 == tm.update(dst as int, sl[slot as int]));
            if slot == x && prev is None {
                assert(v == Operand::Temp(dst));
            } else {
                assert(v == prev->0);
                assert(val(v, r1->Ok_0.1) == val(v, tm));
            }
        },
        Instr::Store { slot, src } => {
            assert(r1->Ok_0.1 == tm);
            assert(r1->Ok_0.0 == sl.update(slot as int, val(src, tm)));
        },
        Instr::Bin { dst, op, a, b } => {
            assert(writes(s[k - 1]) == Some(dst));
            assert(r1->Ok_0.0 == sl);
            assert(r1->Ok_0.1 == tm.update(dst as int, spec_eval(op, val(a, tm), val(b, tm))->Ok_0));
            assert(val(v, r1->Ok_0.1) == val(v, tm));
        },
        Instr::Neg { dst, a } => {
            assert(writes(s[k - 1]) == Some(dst));
            assert(r1->Ok_0.0 == sl);
            assert(val(v, r1->Ok_0.1) == val(v, tm));
        },
        Instr::Not { dst, a } => {
            assert(writes(s[k - 1]) == Some(dst));
            assert(r1->Ok_0.0 == sl);
            assert(val(v, r1->Ok_0.1) == val(v, tm));
        },
        Instr::Call { dst, .. } => {
            assert(writes(s[k - 1]) == dst);
            assert(r1->Ok_0.0 == sl);
            assert(val(v, r1->Ok_0.1) == val(v, tm));
        },
        _ => {
            assert(r1->Ok_0.0 == sl);
            assert(r1->Ok_0.1 == tm);
        },
    }
}

/// What forwarding puts in place of a load is what the load would read:
/// where `out` forwards the loads of `f` by `alias`, running block `b` up
/// to a forwarded load, the slot it loads holds the value of the operand
/// that its temp is aliased to.
pub proof fn lemma_forwarded_load_reads_alias(
    f: Func,
    mid: Seq<BasicBlock>,
    alias: Seq<Option<Operand>>,
    out: Seq<BasicBlock>,
    p: Program,
    b: int,
    k: int,
    slots: Seq<i64>,
    temps: Seq<i64>,
    rets: Seq<i64>,
)
    requires
        forwarded_as(f, mid, alias, out),
        0 <= b < f.blocks@.len(),
        0 <= k < f.blocks@[b].instrs@.len(),
        forwarded_load(f.blocks@[b].instrs@, k),
        slots.len() == f.slots,
        temps.len() == f.temps,
        block_ok(f.blocks@[b], f, arities(p), p.strings@.len() as int),
        fresh_writes(f.blocks@[b].instrs@),
        run_prefix(p, f.blocks@[b].instrs@, k, slots, temps, rets) is Ok,
    ensures
        alias[f.blocks@[b].instrs@[k]->Load_dst as int] is Some,
        run_prefix(p, f.blocks@[b].instrs@, k, slots, temps, rets)->Ok_0.0[f.blocks@[b].instrs@[k]->Load_slot as int] == val(
            alias[f.blocks@[b].instrs@[k]->Load_dst as int]->0,
            run_prefix(p, f.blocks@[b].instrs@, k, slots, temps, rets)->Ok_0.1,
        ),
{
    let s = f.blocks@[b].instrs@;
    let x = s[k]->Load_slot;
    lemma_slot_value_seen(s, k, x);
    assert(instr_ok(s[k], f.temps as int, f.slots as int, arities(p), p.strings@.len() as int));
    assert forall|j: int| 0 <= j < s.len() && (#[trigger] writes(s[j])) is Some implies writes(s[j])->0 < temps.len() by {
        assert(instr_ok(s[j], f.temps as int, f.slots as int, arities(p), p.strings@.len() as int));
    }
    assert forall|j: int| 0 <= j < s.len() && (#[trigger] s[j]) is Store implies s[j]->Store_slot < slots.len() && operand_ok(
        s[j]->Store_src,
        temps.len() as int,
    ) by {
        assert(instr_ok(s[j], f.temps as int, f.slots as int, arities(p), p.strings@.len() as int));
    }
    lemma_slot_value_is_held(p, s, k, x, slots, temps, rets);
}

/// Running a prefix keeps the number of slots and of temps.
proof fn lemma_run_prefix_lens(p: Program, s: Seq<Instr>, k: int, slots: Seq<i64>, temps: Seq<i64>, rets: Seq<i64>)
    requires
        0 <= k <= s.len(),
        forall|j: int| 0 <= j < s.len() && (#[trigger] writes(s[j])) is Some ==> writes(s[j])->0 < temps.len(),
        forall|j: int| 0 <= j < s.len() && (#[trigger] s[j]) is Store ==> s[j]->Store_slot < slots.len(),
        run_prefix(p, s, k, slots, temps, rets) is Ok,
    ensures
        run_prefix(p, s, k, slots, temps, rets)->Ok_0.0.len() == slots.len(),
        run_prefix(p, s, k, slots, temps, rets)->Ok_0.1.len() == temps.len(),
    decreases k,
{
    if k > 0 {
        let r0 = run_prefix(p, s, k - 1, slots, temps, rets);
        assert(r0 is Ok);
        lemma_run_prefix_lens(p, s, k - 1, slots, temps, rets);
        let sl = r0->Ok_0.0;
        let tm = r0->Ok_0.1;
        match s[k - 1] {
            Instr::Store { .. } => {},
            _ => {
                assert(writes(s[k - 1]) is Some ==> writes(s[k - 1])->0 < temps.len());
            },
        }
    }
}

/// `s2` is `s` without its forwarded loads, every other instruction kept in
/// order as one of the same kind.
pub open spec fn loads_forwarded(s2: Seq<Instr>, s: Seq<Instr>) -> bool {
    exists|idx: Seq<int>|
        kept_in_order(s2, s, idx) && forall|j: int| 0 <= j < s.len() ==> (idx.contains(j) <==> !forwarded_load(s, j))
}

proof fn lemma_slot_seen_step(s: Seq<Instr>, k: int, slot: u32)
    requires
        0 <= k < s.len(),
    ensures
        slot_seen(s, k + 1, slot) == (slot_seen(s, k, slot) || touches_slot(s[k], slot)),
{
    if slot_seen(s, k + 1, slot) && !touches_slot(s[k], slot) {
        let j = choose|j: int| 0 <= j < k + 1 && touches_slot(#[trigger] s[j], slot);
        assert(j < k);
    }
}

proof fn lemma_same_kind_trans(a: Instr, b: Instr, c: Instr)
    requires
        same_kind(a, b),
        same_kind(b, c),
    ensures
        same_kind(a, c),
{
}

proof fn lemma_same_kind_refl(a: Instr)
    ensures
        same_kind(a, a),
{
}

/// Constant operands of an arithmetic instruction stay as they were.
pub open spec fn consts_kept(a: Instr, b: Instr) -> bool {
    match (a, b) {
        (Instr::Bin { a: a1, b: b1, .. }, Instr::Bin { a: a2, b: b2, .. }) => (a1 is Const ==> a2 == a1) && (b1 is Const
            ==> b2 == b1),
        (Instr::Neg { a: a1, .. }, Instr::Neg { a: a2, .. }) => a1 is Const ==> a2 == a1,
        (Instr::Not { a: a1, .. }, Instr::Not { a: a2, .. }) => a1 is Const ==> a2 == a1,
        _ => true,
    }
}

/// `s2` keeps, in order, some of the instructions of `s`, each as one of the
/// same kind; none of them is one that folds as it stands in `s`.
pub open spec fn folds_dropped(s2: Seq<Instr>, s: Seq<Instr>) -> bool {
    exists|idx: Seq<int>|
        kept_in_order(s2, s, idx) && forall|j: int| 0 <= j < s.len() && (#[trigger] folds_to(s[j])) is Some ==> !idx.contains(j)
}

/// An instruction that folds still folds once its temps are replaced,
/// since its constants stay.
proof fn lemma_folds_after_subst(a: Instr, b: Instr)
    requires
        folds_to(a) is Some,
        same_kind(a, b),
        consts_kept(a, b),
    ensures
        folds_to(b) is Some,
{
    match (a, b) {
        (Instr::Bin { op, a: a1, b: b1, .. }, Instr::Bin { a: a2, b: b2, .. }) => {
            if a2 is Const && b2 is Const {
                let x = a2->Const_0;
                let y = b2->Const_0;
                if !(a1 is Const && b1 is Const) {
                    if op == Op::Mul {
                        assert(x * 1 == x && 1 * y == y && x * 0 == 0 && 0 * y == 0) by (nonlinear_arith);
                    }
                    if op == Op::Div && b1 == Operand::Const(1) {
                        assert(crate::ir::trunc_div(x as int, 1) == x);
                    }
                }
            }
        },
        _ => {},
    }
}

/// The number of instructions in these blocks.
pub open spec fn instr_count(bs: Seq<BasicBlock>) -> int
    decreases bs.len(),
{
    if bs.len() == 0 {
        0
    } else {
        instr_count(bs.drop_last()) + bs.last().instrs@.len()
    }
}

/// `c + n`, stopping at the largest counter.
pub open spec fn sat_add(c: int, n: int) -> int {
    if c + n <= usize::MAX {
        c + n
    } else {
        usize::MAX as int
    }
}

/// Blocks with instruction lists of the same lengths hold as many
/// instructions.
proof fn lemma_instr_count_same(bs: Seq<BasicBlock>, bs2: Seq<BasicBlock>)
    requires
        bs2.len() == bs.len(),
        forall|b: int| 0 <= b < bs.len() ==> (#[trigger] bs2[b]).instrs@.len() == bs[b].instrs@.len(),
    ensures
        instr_count(bs2) == instr_count(bs),
    decreases bs.len(),
{
    if bs.len() > 0 {
        lemma_instr_count_same(bs.drop_last(), bs2.drop_last());
    }
}

/// Counting the blocks one more at a time.
proof fn lemma_instr_count_take(bs: Seq<BasicBlock>, i: int)
    requires
        0 <= i < bs.len(),
    ensures
        instr_count(bs.take(i + 1)) == instr_count(bs.take(i)) + bs[i].instrs@.len(),
{
    assert(bs.take(i + 1).drop_last() =~= bs.take(i));
}

/// Moves instruction `k` out of `v`, leaving a placeholder.
fn take_instr(v: &mut Vec<Instr>, k: usize) -> (ins: Instr)
    requires
        k < old(v)@.len(),
    ensures
        ins == old(v)@[k as int],
        final(v)@.len() == old(v)@.len(),
        forall|j: int| 0 <= j < old(v)@.len() && j != k ==> final(v)@[j] == old(v)@[j],
{
    let mut ins = Instr::PrintStr(0);
    std::mem::swap(&mut ins, &mut v[k]);
    ins
}

/// Within a block, a load of a slot that was just stored (with no store to
/// that slot in between) reads the stored operand instead, and a second
/// load of an unchanged slot reuses the first. Exactly the loads of a slot
/// that the block stored to or loaded before go, and `forwarded` counts
/// them.
fn forward_stores(f: &mut Func, stats: &mut Stats, ar: Ghost<Seq<int>>, nstr: Ghost<int>)
    requires
        func_ok(*old(f), ar@, nstr@),
    ensures
        func_ok(*final(f), ar@, nstr@),
        same_header(*final(f), *old(f)),
        final(f).blocks@.len() == old(f).blocks@.len(),
        stats_grew(*old(stats), *final(stats)),
        writes_once(old(f).blocks@) ==> writes_once(final(f).blocks@),
        entry_never_entered(*old(f)) ==> entry_never_entered(*final(f)),
        same_targets(*old(f), *final(f)),
        instr_count(final(f).blocks@) <= instr_count(old(f).blocks@),
        forall|b: int| 0 <= b < final(f).blocks@.len() ==> loads_forwarded(#[trigger] final(f).blocks@[b].instrs@, old(f).blocks@[b].instrs@),
        *final(stats) == (Stats { forwarded: final(stats).forwarded, ..*old(stats) }),
        final(stats).forwarded == sat_add(old(stats).forwarded as int, instr_count(old(f).blocks@) - instr_count(final(f).blocks@)),
        final(stats).forwarded == old(stats).forwarded && old(stats).forwarded < usize::MAX ==> code_eqv(*old(f), *final(f))
            && nothing_forwards(*old(f)),
        nothing_forwards(*old(f)) && old(stats).forwarded < usize::MAX ==> final(stats).forwarded == old(stats).forwarded,
        writes_once(old(f).blocks@) ==> exists|alias: Seq<Option<Operand>>, mid: Seq<BasicBlock>|
            forwarded_as(*old(f), mid, alias, final(f).blocks@),
{
    proof {
        lemma_func_ok_blocks(*f, ar@, nstr@);
    }
    let mut alias = no_aliases(f.temps);
    let n = f.blocks.len();
    let mut i: usize = 0;
    while i < n
        invariant
            n == f.blocks@.len(),
            n == old(f).blocks@.len(),
            i <= n,
            func_ok(*old(f), ar@, nstr@),
            same_header(*f, *old(f)),
            old(f).params <= old(f).slots,
            1 <= n <= u32::MAX,
            alias_ok(alias@, f.temps as int),
            blocks_wf(f.blocks@, f.temps as int, f.slots as int, ar@, nstr@),
            stats_grew(*old(stats), *stats),
            forall|b: int| i <= b < n ==> #[trigger] f.blocks@[b] == old(f).blocks@[b],
            forall|b: int| 0 <= b < i ==> drawn_from(#[trigger] f.blocks@[b].instrs@, old(f).blocks@[b].instrs@),
            forall|b: int| 0 <= b < i ==> succs((#[trigger] f.blocks@[b]).term) == succs(old(f).blocks@[b].term),
            forall|b: int| 0 <= b < i ==> loads_forwarded(#[trigger] f.blocks@[b].instrs@, old(f).blocks@[b].instrs@),
            *stats == (Stats { forwarded: stats.forwarded, ..*old(stats) }),
            stats.forwarded == sat_add(old(stats).forwarded as int, instr_count(old(f).blocks@.take(i as int)) - instr_count(f.blocks@.take(i as int))),
            alias@.len() == f.temps,
            forall|b: int| 0 <= b < i ==> loads_removed(#[trigger] f.blocks@[b].instrs@, old(f).blocks@[b].instrs@),
            writes_once(old(f).blocks@) ==> forall|b: int, j: int|
                0 <= b < n && 0 <= j < old(f).blocks@[b].instrs@.len() && b < i && #[trigger] forwarded_load(
                    old(f).blocks@[b].instrs@,
                    j,
                ) ==> alias@[old(f).blocks@[b].instrs@[j]->Load_dst as int] == slot_value(
                    old(f).blocks@[b].instrs@,
                    j,
                    old(f).blocks@[b].instrs@[j]->Load_slot,
                ),
            nothing_forwards(*old(f)) && old(stats).forwarded < usize::MAX ==> stats.forwarded == old(stats).forwarded,
            stats.forwarded == old(stats).forwarded && old(stats).forwarded < usize::MAX ==> {
                &&& no_alias(alias@)
                &&& forall|b: int| 0 <= b < i ==> block_code_eqv(old(f).blocks@[b], #[trigger] f.blocks@[b])
                &&& forall|b: int, k: int|
                    0 <= b < i && 0 <= k < old(f).blocks@[b].instrs@.len() ==> !#[trigger] forwarded_load(old(f).blocks@[b].instrs@, k)
            },
        decreases n - i,
    {
        let ghost before = f.blocks@;
        let mut blk = take_block(f, i);
        assert(block_wf(before[i as int], f.temps as int, f.slots as int, ar@, nstr@, n as int));
        let mut known = no_aliases(f.slots);
        let mut keep: Vec<Instr> = Vec::new();
        let len = blk.instrs.len();
        let ghost orig = blk.instrs@;
        let ghost mut idx: Seq<int> = Seq::empty();
        let ghost s_i = *stats;
        let mut k: usize = 0;
        while k < len
            invariant
                len == orig.len(),
                blk.instrs@.len() == len,
                blk.term == before[i as int].term,
                k <= len,
                forall|j: int| k <= j < len ==> blk.instrs@[j] == orig[j],
                alias_ok(alias@, f.temps as int),
                known@.len() == f.slots,
                forall|s: int| 0 <= s < known@.len() && (#[trigger] known@[s]) is Some ==> operand_ok(known@[s]->0, f.temps as int),
                instrs_ok(orig, f.temps as int, f.slots as int, ar@, nstr@),
                instrs_ok(keep@, f.temps as int, f.slots as int, ar@, nstr@),
                stats_grew(*old(stats), *stats),
                sub_writes(keep@, orig, idx),
                forall|j: int| 0 <= j < idx.len() ==> #[trigger] idx[j] < k,
                forall|j: int| 0 <= j < idx.len() ==> #[trigger] keep@[j] == orig[idx[j]],
                forall|sl: int| 0 <= sl < known@.len() ==> ((#[trigger] known@[sl]) is Some <==> slot_seen(orig, k as int, sl as u32)),
                forall|j: int| 0 <= j < k ==> (idx.contains(j) <==> !forwarded_load(orig, j)),
                f.slots == known@.len(),
                forall|sl: int| 0 <= sl < known@.len() ==> #[trigger] known@[sl] == slot_value(orig, k as int, sl as u32),
                n == old(f).blocks@.len(),
                writes_once(old(f).blocks@) ==> forall|b: int, j: int|
                        0 <= b < n && 0 <= j < old(f).blocks@[b].instrs@.len() && (b < i || (b == i && j < k)) && #[trigger] forwarded_load(
                            old(f).blocks@[b].instrs@,
                            j,
                        ) ==> alias@[old(f).blocks@[b].instrs@[j]->Load_dst as int] == slot_value(
                            old(f).blocks@[b].instrs@,
                            j,
                            old(f).blocks@[b].instrs@[j]->Load_slot,
                        ),
                *stats == (Stats { forwarded: stats.forwarded, ..*old(stats) }),
                stats.forwarded == sat_add(s_i.forwarded as int, k - keep@.len()),
                keep@.len() <= k,
                alias@.len() == f.temps,
                old(stats).forwarded <= stats.forwarded,
                orig == old(f).blocks@[i as int].instrs@,
                i < old(f).blocks@.len(),
                func_ok(*old(f), ar@, nstr@),
                f.temps == old(f).temps,
                nothing_forwards(*old(f)) && old(stats).forwarded < usize::MAX ==> stats.forwarded == old(stats).forwarded,
                stats.forwarded == old(stats).forwarded && old(stats).forwarded < usize::MAX ==> {
                    &&& no_alias(alias@)
                    &&& keep@ == orig.take(k as int)
                    &&& forall|j: int| 0 <= j < k ==> !#[trigger] forwarded_load(orig, j)
                },
            decreases len - k,
        {
            let ins = take_instr(&mut blk.instrs, k);
            assert(instr_ok(orig[k as int], f.temps as int, f.slots as int, ar@, nstr@));
            let ghost known0 = known@;
            let ghost idx0 = idx;
            let mut drop = false;
            match &ins {
                Instr::Store { slot, src } => {
                    known.set(*slot as usize, Some(*src));
                },
                Instr::Load { dst, slot } => {
                    match known[*slot as usize] {
                        Some(v) => {
                            proof {
                                if nothing_forwards(*old(f)) && old(stats).forwarded < usize::MAX {
                                    assert(known0[*slot as int] is Some);
                                    assert(slot_seen(orig, k as int, *slot));
                                    assert(forwarded_load(orig, k as int));
                                    assert(!forwarded_load(old(f).blocks@[i as int].instrs@, k as int));
                                    assert(false);
                                }
                            }
                            let ghost a0 = alias@;
                            alias.set(*dst as usize, Some(v));
                            proof {
                                if writes_once(old(f).blocks@) {
                                    let ob = old(f).blocks@;
                                    assert(forwarded_load(orig, k as int)) by {
                                        lemma_slot_value_seen(orig, k as int, *slot);
                                    }
                                    assert forall|b: int, j: int|
                                        0 <= b < n && 0 <= j < ob[b].instrs@.len() && (b < i || (b == i && j < k)) && #[trigger] forwarded_load(
                                            ob[b].instrs@,
                                            j,
                                        ) implies alias@[ob[b].instrs@[j]->Load_dst as int] == slot_value(
                                        ob[b].instrs@,
                                        j,
                                        ob[b].instrs@[j]->Load_slot,
                                    ) by {
                                        if b == i && j == k {
                                            assert(ob[b].instrs@ == orig);
                                            assert(known0[*slot as int] == Some(v));
                                            assert(known0[*slot as int] == slot_value(orig, k as int, *slot));
                                            assert(alias@[*dst as int] == Some(v));
                                            assert(ob[b].instrs@[j] == ins);
                                            assert(alias@[ob[b].instrs@[j]->Load_dst as int] == slot_value(ob[b].instrs@, j, ob[b].instrs@[j]->Load_slot));
                                        } else {
                                            assert(writes(ob[b].instrs@[j]) is Some);
                                            assert(writes(ob[i as int].instrs@[k as int]) == Some(*dst));
                                            if ob[b].instrs@[j]->Load_dst == *dst {
                                                assert(writes(ob[b].instrs@[j]) == writes(ob[i as int].instrs@[k as int]));
                                                assert(false);
                                            }
                                            assert(block_ok(ob[b], *old(f), ar@, nstr@));
                                            assert(instr_ok(ob[b].instrs@[j], old(f).temps as int, old(f).slots as int, ar@, nstr@));
                                            assert(alias@ == a0.update(*dst as int, Some(v)));
                                            assert(a0[ob[b].instrs@[j]->Load_dst as int] == slot_value(ob[b].instrs@, j, ob[b].instrs@[j]->Load_slot));
                                            assert(alias@[ob[b].instrs@[j]->Load_dst as int] == slot_value(ob[b].instrs@, j, ob[b].instrs@[j]->Load_slot));
                                        }
                                    }
                                }
                            }
                            stats.forwarded = inc(stats.forwarded);
                            drop = true;
                        },
                        None => {
                            known.set(*slot as usize, Some(Operand::Temp(*dst)));
                        },
                    }
                },
                _ => {},
            }
            if !drop {
                proof {
                    lemma_instrs_ok_push(keep@, ins, f.temps as int, f.slots as int, ar@, nstr@);
                    idx = idx.push(k as int);
                }
                keep.push(ins);
            }
            proof {
                assert(drop == forwarded_load(orig, k as int)) by {
                    if orig[k as int] is Load {
                        let sl = orig[k as int]->Load_slot;
                        assert(known0[sl as int] is Some == slot_seen(orig, k as int, sl));
                    }
                }
                assert forall|j: int| 0 <= j < k + 1 implies (idx.contains(j) <==> !forwarded_load(orig, j)) by {
                    if j < k {
                        if idx.contains(j) && !idx0.contains(j) {
                            let q = choose|q: int| 0 <= q < idx.len() && idx[q] == j;
                            assert(q == idx0.len());
                        }
                        if idx0.contains(j) {
                            let q = choose|q: int| 0 <= q < idx0.len() && idx0[q] == j;
                            assert(idx[q] == j);
                        }
                    } else {
                        if !drop {
                            assert(idx[idx.len() - 1] == j);
                        } else {
                            if idx.contains(j) {
                                let q = choose|q: int| 0 <= q < idx.len() && idx[q] == j;
                                assert(idx[q] < k);
                            }
                        }
                    }
                }
                assert forall|sl: int| 0 <= sl < known@.len() implies #[trigger] known@[sl] == slot_value(orig, k + 1, sl as u32) by {
                    assert(known0[sl] == slot_value(orig, k as int, sl as u32));
                }
                if writes_once(old(f).blocks@) && !drop {
                    let ob = old(f).blocks@;
                    assert forall|b: int, j: int|
                        0 <= b < n && 0 <= j < ob[b].instrs@.len() && (b < i || (b == i && j < k + 1)) && #[trigger] forwarded_load(
                            ob[b].instrs@,
                            j,
                        ) implies alias@[ob[b].instrs@[j]->Load_dst as int] == slot_value(
                        ob[b].instrs@,
                        j,
                        ob[b].instrs@[j]->Load_slot,
                    ) by {
                        if b == i && j == k {
                            assert(!forwarded_load(orig, k as int));
                        }
                    }
                }
                assert forall|sl: int| 0 <= sl < known@.len() implies ((#[trigger] known@[sl]) is Some <==> slot_seen(orig, k + 1, sl as u32)) by {
                    lemma_slot_seen_step(orig, k as int, sl as u32);
                    assert(known0[sl] is Some == slot_seen(orig, k as int, sl as u32));
                }
            }
            k = k + 1;
        }
        proof {
            if stats.forwarded == old(stats).forwarded && old(stats).forwarded < usize::MAX {
                assert(orig.take(len as int) =~= orig);
            }
            assert forall|j: int| 0 <= j < idx.len() implies same_kind(orig[idx[j]], #[trigger] keep@[j]) by {
                lemma_same_kind_refl(keep@[j]);
            }
            assert(kept_in_order(keep@, orig, idx));
            assert(loads_forwarded(keep@, orig));
            assert(loads_removed(keep@, orig));
        }
        let nb = BasicBlock { instrs: keep, term: blk.term, line: blk.line };
        proof {
            lemma_blocks_wf_update(before, i as int, nb, f.temps as int, f.slots as int, ar@, nstr@);
            assert(f.blocks@.update(i as int, nb) =~= before.update(i as int, nb));
        }
        f.blocks.set(i, nb);
        proof {
            lemma_instr_count_take(old(f).blocks@, i as int);
            lemma_instr_count_take(f.blocks@, i as int);
            assert(f.blocks@.take(i as int) =~= before.take(i as int));
            assert(old(f).blocks@[i as int] == before[i as int]);
            assert forall|b: int| 0 <= b < i + 1 implies drawn_from(#[trigger] f.blocks@[b].instrs@, old(f).blocks@[b].instrs@) by {
                if b < i {
                    assert(f.blocks@[b] == before[b]);
                }
            }
            assert forall|b: int| 0 <= b < i + 1 implies succs((#[trigger] f.blocks@[b]).term) == succs(old(f).blocks@[b].term) by {
                if b < i {
                    assert(f.blocks@[b] == before[b]);
                }
            }
            assert forall|b: int| 0 <= b < i + 1 implies loads_forwarded(#[trigger] f.blocks@[b].instrs@, old(f).blocks@[b].instrs@) by {
                if b < i {
                    assert(f.blocks@[b] == before[b]);
                }
            }
            assert forall|b: int| 0 <= b < i + 1 implies loads_removed(#[trigger] f.blocks@[b].instrs@, old(f).blocks@[b].instrs@) by {
                if b < i {
                    assert(f.blocks@[b] == before[b]);
                }
            }
            if stats.forwarded == old(stats).forwarded && old(stats).forwarded < usize::MAX {
                assert forall|b: int| 0 <= b < i + 1 implies block_code_eqv(old(f).blocks@[b], #[trigger] f.blocks@[b]) by {
                    if b < i {
                        assert(f.blocks@[b] == before[b]);
                    }
                }
            }
        }
        i = i + 1;
    }
    proof {
        lemma_func_ok_blocks(*f, ar@, nstr@);
        if writes_once(old(f).blocks@) {
            lemma_writes_subseq(f.blocks@, old(f).blocks@);
        }
    }
    let ghost mid = *f;
    proof {
        assert(old(f).blocks@.take(n as int) =~= old(f).blocks@);
        assert(f.blocks@.take(n as int) =~= f.blocks@);
        if entry_never_entered(*old(f)) {
            lemma_same_targets_entry(*old(f), mid);
        }
    }
    rewrite_all(f, &alias, ar, nstr);
    proof {
        if entry_never_entered(*old(f)) {
            lemma_same_targets_entry(mid, *f);
        }
        if writes_once(old(f).blocks@) {
            lemma_writes_subseq(f.blocks@, mid.blocks@);
        }
        assert forall|b: int| 0 <= b < f.blocks@.len() implies loads_forwarded(#[trigger] f.blocks@[b].instrs@, old(f).blocks@[b].instrs@) by {
            let s0 = old(f).blocks@[b].instrs@;
            let s1 = mid.blocks@[b].instrs@;
            let s2 = f.blocks@[b].instrs@;
            assert(loads_forwarded(s1, s0));
            assert(same_kinds(s1, s2));
            let idx = choose|idx: Seq<int>|
                kept_in_order(s1, s0, idx) && forall|j: int| 0 <= j < s0.len() ==> (idx.contains(j) <==> !forwarded_load(s0, j));
            assert forall|j: int| 0 <= j < idx.len() implies same_kind(s0[idx[j]], #[trigger] s2[j]) by {
                lemma_same_kind_trans(s0[idx[j]], s1[j], s2[j]);
            }
            assert(kept_in_order(s2, s0, idx));
        }
        assert(same_targets(*old(f), *f));
        lemma_instr_count_same(mid.blocks@, f.blocks@);
        assert forall|b: int| 0 <= b < n implies (#[trigger] f.blocks@[b]).instrs@.len() <= old(f).blocks@[b].instrs@.len() by {
            let s0 = old(f).blocks@[b].instrs@;
            assert(loads_forwarded(f.blocks@[b].instrs@, s0));
            let idx = choose|idx: Seq<int>|
                kept_in_order(f.blocks@[b].instrs@, s0, idx) && forall|j: int| 0 <= j < s0.len() ==> (idx.contains(j) <==> !forwarded_load(s0, j));
            lemma_kept_in_order_len(f.blocks@[b].instrs@, s0, idx);
        }
        lemma_blocks_no_longer(old(f).blocks@, f.blocks@);
        if stats.forwarded == old(stats).forwarded && old(stats).forwarded < usize::MAX {
            assert forall|b: int| 0 <= b < n implies block_code_eqv(old(f).blocks@[b], #[trigger] f.blocks@[b]) by {
                let m = mid.blocks@[b];
                let g = f.blocks@[b];
                assert(block_code_eqv(old(f).blocks@[b], m));
                assert(block_rewritten(m, g, alias@));
                assert(block_wf(m, f.temps as int, f.slots as int, ar@, nstr@, n as int));
                lemma_no_alias_term(alias@, m.term, g.term, true, n as int);
                assert forall|k: int| 0 <= k < old(f).blocks@[b].instrs@.len() implies instr_eqv(old(f).blocks@[b].instrs@[k], #[trigger] g.instrs@[k]) by {
                    assert(instr_ok(m.instrs@[k], f.temps as int, f.slots as int, ar@, nstr@));
                    lemma_no_alias_instr(alias@, m.instrs@[k], g.instrs@[k], true, f.slots as int, ar@, nstr@);
                }
            }
        }
        if writes_once(old(f).blocks@) {
            assert(forwarded_as(*old(f), mid.blocks@, alias@, f.blocks@));
        }
    }
}

/// Operand `o` is temp `t`.
pub open spec fn is_temp(o: Operand, t: int) -> bool {
    o is Temp && o->Temp_0 == t
}

/// One of the first `j` operands is temp `t`.
pub open spec fn args_read_before(args: Seq<Operand>, t: int, j: int) -> bool {
    exists|q: int| 0 <= q < j && is_temp(#[trigger] args[q], t)
}

/// Instruction `ins` reads temp `t`.
pub open spec fn instr_reads(ins: Instr, t: int) -> bool {
    match ins {
        Instr::Store { src, .. } => is_temp(src, t),
        Instr::Bin { a, b, .. } => is_temp(a, t) || is_temp(b, t),
        Instr::Neg { a, .. } => is_temp(a, t),
        Instr::Not { a, .. } => is_temp(a, t),
        Instr::Call { args, .. } => args_read_before(args@, t, args@.len() as int),
        Instr::PrintInt(v) => is_temp(v, t),
        Instr::PrintBool(v) => is_temp(v, t),
        _ => false,
    }
}

/// Terminator `term` reads temp `t`.
pub open spec fn term_reads(term: Term, t: int) -> bool {
    match term {
        Term::Br { cond, .. } => is_temp(cond, t),
        Term::Ret(Some(v)) => is_temp(v, t),
        _ => false,
    }
}

/// One of the first `k` instructions of `s` reads temp `t`.
pub open spec fn instrs_read_before(s: Seq<Instr>, t: int, k: int) -> bool {
    exists|q: int| 0 <= q < k && instr_reads(#[trigger] s[q], t)
}

/// An instruction or the terminator of block `b` reads temp `t`.
pub open spec fn block_reads(b: BasicBlock, t: int) -> bool {
    instrs_read_before(b.instrs@, t, b.instrs@.len() as int) || term_reads(b.term, t)
}

/// One of the first `i` blocks reads temp `t`.
pub open spec fn blocks_read_before(bs: Seq<BasicBlock>, t: int, i: int) -> bool {
    exists|q: int| 0 <= q < i && block_reads(#[trigger] bs[q], t)
}

/// Which temps some instruction or terminator of `f` reads.
pub open spec fn read_temps(f: Func) -> Seq<bool> {
    Seq::new(f.temps as nat, |t: int| blocks_read_before(f.blocks@, t, f.blocks@.len() as int))
}

/// One of the first `k` instructions of `s` loads slot `x`.
pub open spec fn loads_before(s: Seq<Instr>, x: int, k: int) -> bool {
    exists|q: int| 0 <= q < k && (#[trigger] s[q]) is Load && s[q]->Load_slot == x
}

/// One of the first `i` blocks loads slot `x`.
pub open spec fn blocks_load_before(bs: Seq<BasicBlock>, x: int, i: int) -> bool {
    exists|q: int| 0 <= q < i && loads_before((#[trigger] bs[q]).instrs@, x, bs[q].instrs@.len() as int)
}

/// Which slots some instruction of `f` loads.
pub open spec fn loaded_slots(f: Func) -> Seq<bool> {
    Seq::new(f.slots as nat, |x: int| blocks_load_before(f.blocks@, x, f.blocks@.len() as int))
}

proof fn lemma_args_read_step(args: Seq<Operand>, t: int, j: int)
    requires
        0 <= j < args.len(),
    ensures
        args_read_before(args, t, j + 1) == (args_read_before(args, t, j) || is_temp(args[j], t)),
{
    if args_read_before(args, t, j + 1) && !is_temp(args[j], t) {
        let q = choose|q: int| 0 <= q < j + 1 && is_temp(#[trigger] args[q], t);
        assert(q < j);
    }
}

proof fn lemma_instrs_read_step(s: Seq<Instr>, t: int, k: int)
    requires
        0 <= k < s.len(),
    ensures
        instrs_read_before(s, t, k + 1) == (instrs_read_before(s, t, k) || instr_reads(s[k], t)),
{
    if instrs_read_before(s, t, k + 1) && !instr_reads(s[k], t) {
        let q = choose|q: int| 0 <= q < k + 1 && instr_reads(#[trigger] s[q], t);
        assert(q < k);
    }
}

proof fn lemma_blocks_read_step(bs: Seq<BasicBlock>, t: int, i: int)
    requires
        0 <= i < bs.len(),
    ensures
        blocks_read_before(bs, t, i + 1) == (blocks_read_before(bs, t, i) || block_reads(bs[i], t)),
{
    if blocks_read_before(bs, t, i + 1) && !block_reads(bs[i], t) {
        let q = choose|q: int| 0 <= q < i + 1 && block_reads(#[trigger] bs[q], t);
        assert(q < i);
    }
}

proof fn lemma_loads_step(s: Seq<Instr>, x: int, k: int)
    requires
        0 <= k < s.len(),
    ensures
        loads_before(s, x, k + 1) == (loads_before(s, x, k) || (s[k] is Load && s[k]->Load_slot == x)),
{
    if loads_before(s, x, k + 1) && !(s[k] is Load && s[k]->Load_slot == x) {
        let q = choose|q: int| 0 <= q < k + 1 && (#[trigger] s[q]) is Load && s[q]->Load_slot == x;
        assert(q < k);
    }
}

proof fn lemma_blocks_load_step(bs: Seq<BasicBlock>, x: int, i: int)
    requires
        0 <= i < bs.len(),
    ensures
        blocks_load_before(bs, x, i + 1) == (blocks_load_before(bs, x, i) || loads_before(bs[i].instrs@, x, bs[i].instrs@.len() as int)),
{
    if blocks_load_before(bs, x, i + 1) && !loads_before(bs[i].instrs@, x, bs[i].instrs@.len() as int) {
        let q = choose|q: int| 0 <= q < i + 1 && loads_before((#[trigger] bs[q]).instrs@, x, bs[q].instrs@.len() as int);
        assert(q < i);
    }
}

/// Marks temp `o` as read.
fn note(used: &mut Vec<bool>, o: Operand)
    requires
        operand_ok(o, old(used)@.len() as int),
    ensures
        final(used)@ == match o {
            Operand::Temp(t) => old(used)@.update(t as int, true),
            Operand::Const(_) => old(used)@,
        },
{
    match o {
        Operand::Temp(t) => used.set(t as usize, true),
        Operand::Const(_) => {},
    }
}

/// The temps that some instruction or terminator reads.
fn used_temps(f: &Func, ar: Ghost<Seq<int>>, nstr: Ghost<int>) -> (used: Vec<bool>)
    requires
        func_ok(*f, ar@, nstr@),
    ensures
        used@.len() == f.temps,
        forall|b: int| 0 <= b < f.blocks@.len() ==> block_reads_live(#[trigger] f.blocks@[b], used@, all_live(f.slots as nat)),
        used@ == read_temps(*f),
{
    proof {
        lemma_func_ok_blocks(*f, ar@, nstr@);
    }
    let ghost ones = all_live(f.slots as nat);
    let ghost nb = f.blocks@.len() as int;
    let mut used: Vec<bool> = Vec::new();
    let mut t: u32 = 0;
    while t < f.temps
        invariant
            t <= f.temps,
            used@.len() == t,
            forall|x: int| 0 <= x < t ==> !(#[trigger] used@[x]),
        decreases f.temps - t,
    {
        used.push(false);
        t = t + 1;
    }
    let mut i: usize = 0;
    while i < f.blocks.len()
        invariant
            i <= f.blocks@.len(),
            nb == f.blocks@.len(),
            ones == all_live(f.slots as nat),
            used@.len() == f.temps,
            blocks_wf(f.blocks@, f.temps as int, f.slots as int, ar@, nstr@),
            forall|c: int| 0 <= c < i ==> block_reads_live(#[trigger] f.blocks@[c], used@, ones),
            forall|x: int| 0 <= x < used@.len() ==> #[trigger] used@[x] == blocks_read_before(f.blocks@, x, i as int),
        decreases f.blocks@.len() - i,
    {
        let b = &f.blocks[i];
        assert(block_wf(f.blocks@[i as int], f.temps as int, f.slots as int, ar@, nstr@, f.blocks@.len() as int));
        let ghost u_start = used@;
        let mut k: usize = 0;
        while k < b.instrs.len()
            invariant
                k <= b.instrs@.len(),
                *b == f.blocks@[i as int],
                i < f.blocks@.len(),
                nb == f.blocks@.len(),
                ones == all_live(f.slots as nat),
                used@.len() == f.temps,
                u_start.len() == f.temps,
                marks_grow(u_start, used@),
                instrs_ok(b.instrs@, f.temps as int, f.slots as int, ar@, nstr@),
                forall|kk: int| 0 <= kk < k ==> instr_reads_live(#[trigger] b.instrs@[kk], used@, ones),
                forall|x: int|
                    0 <= x < used@.len() ==> #[trigger] used@[x] == (blocks_read_before(f.blocks@, x, i as int) || instrs_read_before(
                        b.instrs@,
                        x,
                        k as int,
                    )),
            decreases b.instrs@.len() - k,
        {
            let ins = &b.instrs[k];
            assert(instr_ok(*ins, f.temps as int, f.slots as int, ar@, nstr@));
            let ghost u0 = used@;
            match ins {
                Instr::Store { src, .. } => note(&mut used, *src),
                Instr::Bin { a, b, .. } => {
                    note(&mut used, *a);
                    note(&mut used, *b);
                },
                Instr::Neg { a, .. } => note(&mut used, *a),
                Instr::Not { a, .. } => note(&mut used, *a),
                Instr::Call { args, .. } => {
                    let mut j: usize = 0;
                    while j < args.len()
                        invariant
                            j <= args@.len(),
                            used@.len() == f.temps,
                            marks_grow(u0, used@),
                            forall|q: int| 0 <= q < args@.len() ==> operand_ok(#[trigger] args@[q], f.temps as int),
                            forall|q: int| 0 <= q < j ==> operand_live(#[trigger] args@[q], used@),
                            forall|x: int| 0 <= x < used@.len() ==> #[trigger] used@[x] == (u0[x] || args_read_before(args@, x, j as int)),
                            u0.len() == used@.len(),
                        decreases args@.len() - j,
                    {
                        proof {
                            assert forall|x: int| 0 <= x < used@.len() implies args_read_before(args@, x, j + 1) == (args_read_before(args@, x, j as int) || is_temp(args@[j as int], x)) by {
                                lemma_args_read_step(args@, x, j as int);
                            }
                        }
                        note(&mut used, args[j]);
                        j = j + 1;
                    }
                },
                Instr::PrintInt(v) => note(&mut used, *v),
                Instr::PrintBool(v) => note(&mut used, *v),
                _ => {},
            }
            proof {
                assert forall|x: int| 0 <= x < used@.len() implies #[trigger] used@[x] == (blocks_read_before(f.blocks@, x, i as int) || instrs_read_before(b.instrs@, x, k + 1)) by {
                    lemma_instrs_read_step(b.instrs@, x, k as int);
                    assert(used@[x] == (u0[x] || instr_reads(b.instrs@[k as int], x)));
                }
                assert(marks_grow(u0, used@));
                assert forall|kk: int| 0 <= kk < k + 1 implies instr_reads_live(#[trigger] b.instrs@[kk], used@, ones) by {
                    assert(instr_ok(b.instrs@[kk], f.temps as int, f.slots as int, ar@, nstr@));
                    if kk < k {
                        lemma_instr_reads_live_grow(b.instrs@[kk], u0, used@, ones, ones, f.temps as int, f.slots as int, ar@, nstr@);
                    }
                }
            }
            k = k + 1;
        }
        let ghost u1 = used@;
        match b.term {
            Term::Br { cond, .. } => note(&mut used, cond),
            Term::Ret(Some(v)) => note(&mut used, v),
            _ => {},
        }
        proof {
            assert forall|x: int| 0 <= x < used@.len() implies #[trigger] used@[x] == blocks_read_before(f.blocks@, x, i + 1) by {
                lemma_blocks_read_step(f.blocks@, x, i as int);
                assert(used@[x] == (u1[x] || term_reads(b.term, x)));
            }
            assert(marks_grow(u1, used@));
            assert(marks_grow(u_start, used@));
            assert forall|c: int| 0 <= c < i + 1 implies block_reads_live(#[trigger] f.blocks@[c], used@, ones) by {
                assert(block_wf(f.blocks@[c], f.temps as int, f.slots as int, ar@, nstr@, nb));
                if c < i {
                    lemma_reads_live_grow(f.blocks@[c], u_start, used@, ones, ones, f.temps as int, f.slots as int, ar@, nstr@, nb);
                } else {
                    assert forall|kk: int| 0 <= kk < b.instrs@.len() implies instr_reads_live(#[trigger] b.instrs@[kk], used@, ones) by {
                        assert(instr_ok(b.instrs@[kk], f.temps as int, f.slots as int, ar@, nstr@));
                        lemma_instr_reads_live_grow(b.instrs@[kk], u1, used@, ones, ones, f.temps as int, f.slots as int, ar@, nstr@);
                    }
                }
            }
        }
        i = i + 1;
    }
    assert(used@ =~= read_temps(*f));
    used
}

/// Whether dead-temp elimination keeps an instruction: calls, prints,
/// stores and every instruction that may trap (arithmetic and negation)
/// always stay; loads, nots and comparisons stay when their result is read.
pub open spec fn keeps_instr(ins: Instr, used: Seq<bool>) -> bool {
    match ins {
        Instr::Bin { dst, op, .. } => !is_comparison(op) || used[dst as int],
        Instr::Load { dst, .. } => used[dst as int],
        Instr::Not { dst, .. } => used[dst as int],
        _ => true,
    }
}

fn is_comparison_op(op: Op) -> (r: bool)
    ensures
        r == is_comparison(op),
{
    match op {
        Op::Lt | Op::Le | Op::Gt | Op::Ge | Op::Eq | Op::Ne => true,
        _ => false,
    }
}

fn keeps(ins: &Instr, used: &Vec<bool>) -> (r: bool)
    requires
        exists|s: int, ar: Seq<int>, n: int| instr_ok(*ins, used@.len() as int, s, ar, n),
    ensures
        r == keeps_instr(*ins, used@),
{
    match ins {
        Instr::Bin { dst, op, .. } => !is_comparison_op(*op) || used[*dst as usize],
        Instr::Load { dst, .. } => used[*dst as usize],
        Instr::Not { dst, .. } => used[*dst as usize],
        _ => true,
    }
}

/// The elements of `s` whose flag is set, in order.
pub open spec fn keep_where<T>(s: Seq<T>, flags: Seq<bool>) -> Seq<T>
    decreases s.len(),
{
    if s.len() == 0 {
        Seq::empty()
    } else {
        let r = keep_where(s.drop_last(), flags.take(s.len() - 1));
        if flags[s.len() - 1] {
            r.push(s.last())
        } else {
            r
        }
    }
}

/// Keeps the instructions of `v` whose flag is set, in order; returns how
/// many were dropped.
fn retain_instrs(v: &mut Vec<Instr>, flags: &Vec<bool>) -> (dropped: usize)
    requires
        flags@.len() == old(v)@.len(),
    ensures
        final(v)@ == keep_where(old(v)@, flags@),
        dropped == old(v)@.len() - final(v)@.len(),
        forall|j: int| 0 <= j < final(v)@.len() ==> old(v)@.contains(#[trigger] final(v)@[j]),
{
    let ghost orig = v@;
    let mut src: Vec<Instr> = Vec::new();
    std::mem::swap(&mut src, v);
    let len = src.len();
    let mut k: usize = 0;
    assert(orig.take(0) =~= Seq::<Instr>::empty());
    while k < len
        invariant
            len == orig.len(),
            src@.len() == len,
            flags@.len() == len,
            k <= len,
            forall|j: int| k <= j < len ==> src@[j] == orig[j],
            v@ == keep_where(orig.take(k as int), flags@.take(k as int)),
            v@.len() <= k,
            forall|j: int| 0 <= j < v@.len() ==> orig.contains(#[trigger] v@[j]),
        decreases len - k,
    {
        let ins = take_instr(&mut src, k);
        proof {
            assert(orig.take(k + 1).drop_last() =~= orig.take(k as int));
            assert(flags@.take(k + 1).take(k as int) =~= flags@.take(k as int));
            assert(orig.take(k + 1).last() == orig[k as int]);
        }
        let ghost prev = v@;
        if flags[k] {
            v.push(ins);
            proof {
                assert forall|j: int| 0 <= j < v@.len() implies orig.contains(#[trigger] v@[j]) by {
                    if j < prev.len() {
                        assert(v@[j] == prev[j]);
                    } else {
                        assert(orig[k as int] == v@[j]);
                    }
                }
            }
        }
        k = k + 1;
    }
    proof {
        assert(orig.take(len as int) =~= orig);
        assert(flags@.take(len as int) =~= flags@);
    }
    len - v.len()
}

/// Instructions taken from well-formed ones are well formed.
proof fn lemma_instrs_ok_sub(old_v: Seq<Instr>, new_v: Seq<Instr>, t: int, s: int, ar: Seq<int>, n: int)
    requires
        instrs_ok(old_v, t, s, ar, n),
        forall|j: int| 0 <= j < new_v.len() ==> old_v.contains(#[trigger] new_v[j]),
    ensures
        instrs_ok(new_v, t, s, ar, n),
{
    assert forall|j: int| 0 <= j < new_v.len() implies instr_ok(#[trigger] new_v[j], t, s, ar, n) by {
        assert(old_v.contains(new_v[j]));
        let i = choose|i: int| 0 <= i < old_v.len() && old_v[i] == new_v[j];
        assert(instr_ok(old_v[i], t, s, ar, n));
    }
}

/// Taking out droppable instructions never adds any, and takes out none
/// exactly when none is droppable.
proof fn lemma_kept_len(s: Seq<Instr>, lt: Seq<bool>, ls: Seq<bool>)
    ensures
        kept_instrs(s, lt, ls).len() <= s.len(),
        kept_instrs(s, lt, ls).len() == s.len() ==> kept_instrs(s, lt, ls) == s && forall|k: int|
            0 <= k < s.len() ==> !droppable(#[trigger] s[k], lt, ls),
    decreases s.len(),
{
    if s.len() > 0 {
        lemma_kept_len(s.skip(1), lt, ls);
        let rest = kept_instrs(s.skip(1), lt, ls);
        if kept_instrs(s, lt, ls).len() == s.len() {
            assert(!droppable(s[0], lt, ls));
            assert(rest == s.skip(1));
            assert(seq![s[0]] + s.skip(1) =~= s);
            assert forall|k: int| 0 <= k < s.len() implies !droppable(#[trigger] s[k], lt, ls) by {
                if k > 0 {
                    assert(s[k] == s.skip(1)[k - 1]);
                }
            }
        }
    }
}

/// With nothing droppable, nothing is taken out.
proof fn lemma_kept_none(s: Seq<Instr>, lt: Seq<bool>, ls: Seq<bool>)
    requires
        forall|k: int| 0 <= k < s.len() ==> !droppable(#[trigger] s[k], lt, ls),
    ensures
        kept_instrs(s, lt, ls) == s,
    decreases s.len(),
{
    if s.len() > 0 {
        assert forall|k: int| 0 <= k < s.skip(1).len() implies !droppable(#[trigger] s.skip(1)[k], lt, ls) by {
            assert(s.skip(1)[k] == s[k + 1]);
        }
        lemma_kept_none(s.skip(1), lt, ls);
        assert(seq![s[0]] + s.skip(1) =~= s);
    }
}

/// Blocks that each hold no more instructions, and as many in all, each
/// hold as many.
proof fn lemma_counts_equal(bs: Seq<BasicBlock>, bs2: Seq<BasicBlock>)
    requires
        bs2.len() == bs.len(),
        forall|b: int| 0 <= b < bs.len() ==> (#[trigger] bs2[b]).instrs@.len() <= bs[b].instrs@.len(),
        instr_count(bs2) == instr_count(bs),
    ensures
        forall|b: int| 0 <= b < bs.len() ==> (#[trigger] bs2[b]).instrs@.len() == bs[b].instrs@.len(),
    decreases bs.len(),
{
    if bs.len() > 0 {
        lemma_instr_count_le(bs.drop_last(), bs2.drop_last());
        assert(bs2.last().instrs@.len() <= bs.last().instrs@.len()) by {
            assert(bs2[bs.len() - 1] == bs2.last());
        }
        lemma_counts_equal(bs.drop_last(), bs2.drop_last());
        assert forall|b: int| 0 <= b < bs.len() implies (#[trigger] bs2[b]).instrs@.len() == bs[b].instrs@.len() by {
            if b < bs.len() - 1 {
                assert(bs2[b] == bs2.drop_last()[b]);
                assert(bs[b] == bs.drop_last()[b]);
            }
        }
    }
}

proof fn lemma_instr_count_le(bs: Seq<BasicBlock>, bs2: Seq<BasicBlock>)
    requires
        bs2.len() == bs.len(),
        forall|b: int| 0 <= b < bs.len() ==> (#[trigger] bs2[b]).instrs@.len() <= bs[b].instrs@.len(),
    ensures
        instr_count(bs2) <= instr_count(bs),
    decreases bs.len(),
{
    if bs.len() > 0 {
        assert forall|b: int| 0 <= b < bs.len() - 1 implies (#[trigger] bs2.drop_last()[b]).instrs@.len() <= bs.drop_last()[b].instrs@.len() by {
            assert(bs2.drop_last()[b] == bs2[b]);
        }
        lemma_instr_count_le(bs.drop_last(), bs2.drop_last());
        assert(bs2[bs.len() - 1] == bs2.last());
    }
}

/// `g` has the code of `f`: the same instructions and terminators.
pub open spec fn same_code(f: Func, g: Func) -> bool {
    &&& g.blocks@.len() == f.blocks@.len()
    &&& g.temps == f.temps
    &&& g.slots == f.slots
    &&& forall|b: int|
        0 <= b < f.blocks@.len() ==> (#[trigger] g.blocks@[b]).instrs@ == f.blocks@[b].instrs@ && g.blocks@[b].term
            == f.blocks@[b].term
}

/// Dead-code removal finds nothing to take out of `f`: no instruction only
/// writes a temp that nothing reads, or stores to a slot nothing loads.
pub open spec fn no_dead_code(f: Func) -> bool {
    forall|b: int, k: int|
        0 <= b < f.blocks@.len() && 0 <= k < f.blocks@[b].instrs@.len() ==> {
            &&& !droppable(#[trigger] f.blocks@[b].instrs@[k], read_temps(f), all_live(f.slots as nat))
            &&& !droppable(f.blocks@[b].instrs@[k], all_live(f.temps as nat), loaded_slots(f))
        }
}

/// Dead-code removal that took nothing out left the code as it was.
proof fn lemma_dead_nothing(f: Func, g: Func, lt: Seq<bool>, ls: Seq<bool>)
    requires
        dead_dropped(f, g, lt, ls),
        instr_count(g.blocks@) == instr_count(f.blocks@),
    ensures
        same_code(f, g),
        forall|b: int, k: int|
            0 <= b < f.blocks@.len() && 0 <= k < f.blocks@[b].instrs@.len() ==> !droppable(#[trigger] f.blocks@[b].instrs@[k], lt, ls),
{
    assert forall|b: int| 0 <= b < f.blocks@.len() implies (#[trigger] g.blocks@[b]).instrs@.len() <= f.blocks@[b].instrs@.len() by {
        assert(f.blocks@[b] == f.blocks@[b]);
        lemma_kept_len(f.blocks@[b].instrs@, lt, ls);
    }
    lemma_counts_equal(f.blocks@, g.blocks@);
    assert forall|b: int, k: int|
        0 <= b < f.blocks@.len() && 0 <= k < f.blocks@[b].instrs@.len() implies !droppable(#[trigger] f.blocks@[b].instrs@[k], lt, ls) by {
        assert(f.blocks@[b] == f.blocks@[b]);
        assert(g.blocks@[b].instrs@.len() == f.blocks@[b].instrs@.len());
        lemma_kept_len(f.blocks@[b].instrs@, lt, ls);
    }
    assert forall|b: int| 0 <= b < f.blocks@.len() implies (#[trigger] g.blocks@[b]).instrs@ == f.blocks@[b].instrs@ && g.blocks@[b].term
        == f.blocks@[b].term by {
        assert(f.blocks@[b] == f.blocks@[b]);
        assert(g.blocks@[b].instrs@.len() == f.blocks@[b].instrs@.len());
        lemma_kept_len(f.blocks@[b].instrs@, lt, ls);
    }
}

proof fn lemma_idx_at_least(idx: Seq<int>, j: int)
    requires
        0 <= j < idx.len(),
        forall|i: int| 0 <= i < idx.len() ==> 0 <= #[trigger] idx[i],
        forall|j1: int, j2: int| 0 <= j1 < j2 < idx.len() ==> #[trigger] idx[j1] < #[trigger] idx[j2],
    ensures
        idx[j] >= j,
    decreases j,
{
    if j > 0 {
        lemma_idx_at_least(idx, j - 1);
        assert(idx[j - 1] < idx[j]);
    }
}

/// Keeping instructions in order keeps no more than there were.
proof fn lemma_kept_in_order_len(s2: Seq<Instr>, s: Seq<Instr>, idx: Seq<int>)
    requires
        kept_in_order(s2, s, idx),
    ensures
        s2.len() <= s.len(),
{
    if idx.len() > 0 {
        lemma_idx_at_least(idx, idx.len() - 1);
    }
}

/// Blocks whose instruction lists each got no longer hold no more.
proof fn lemma_blocks_no_longer(bs: Seq<BasicBlock>, bs2: Seq<BasicBlock>)
    requires
        bs2.len() == bs.len(),
        forall|b: int| 0 <= b < bs.len() ==> (#[trigger] bs2[b]).instrs@.len() <= bs[b].instrs@.len(),
    ensures
        instr_count(bs2) <= instr_count(bs),
{
    lemma_instr_count_le(bs, bs2);
}

/// Changing one block changes the count by the difference in its length.
proof fn lemma_instr_count_update(bs: Seq<BasicBlock>, i: int, x: BasicBlock)
    requires
        0 <= i < bs.len(),
    ensures
        instr_count(bs.update(i, x)) == instr_count(bs) - bs[i].instrs@.len() + x.instrs@.len(),
    decreases bs.len(),
{
    if i < bs.len() - 1 {
        assert(bs.update(i, x).drop_last() =~= bs.drop_last().update(i, x));
        lemma_instr_count_update(bs.drop_last(), i, x);
    } else {
        assert(bs.update(i, x).drop_last() =~= bs.drop_last());
    }
}

/// Removes pure instructions whose result is never read.
fn dead_temps(f: &mut Func, stats: &mut Stats, ar: Ghost<Seq<int>>, nstr: Ghost<int>)
    requires
        func_ok(*old(f), ar@, nstr@),
    ensures
        func_ok(*final(f), ar@, nstr@),
        same_header(*final(f), *old(f)),
        final(f).blocks@.len() == old(f).blocks@.len(),
        stats_grew(*old(stats), *final(stats)),
        exists|lt: Seq<bool>, ls: Seq<bool>| dead_dropped(*old(f), *final(f), lt, ls),
        instr_count(final(f).blocks@) <= instr_count(old(f).blocks@),
        (forall|b: int, k: int|
            0 <= b < old(f).blocks@.len() && 0 <= k < old(f).blocks@[b].instrs@.len() ==> !droppable(
                #[trigger] old(f).blocks@[b].instrs@[k],
                read_temps(*old(f)),
                all_live(old(f).slots as nat),
            )) ==> final(stats).dead_temps == old(stats).dead_temps && same_code(*old(f), *final(f)),
        dead_dropped(*old(f), *final(f), read_temps(*old(f)), all_live(old(f).slots as nat)),
        *final(stats) == (Stats { dead_temps: final(stats).dead_temps, ..*old(stats) }),
        final(stats).dead_temps == sat_add(old(stats).dead_temps as int, instr_count(old(f).blocks@) - instr_count(final(f).blocks@)),
        final(stats).dead_temps == old(stats).dead_temps && old(stats).dead_temps < usize::MAX ==> {
            &&& same_code(*old(f), *final(f))
            &&& forall|b: int, k: int|
                0 <= b < old(f).blocks@.len() && 0 <= k < old(f).blocks@[b].instrs@.len() ==> !droppable(
                    #[trigger] old(f).blocks@[b].instrs@[k],
                    read_temps(*old(f)),
                    all_live(old(f).slots as nat),
                )
        },
        writes_once(old(f).blocks@) ==> writes_once(final(f).blocks@),
        entry_never_entered(*old(f)) ==> entry_never_entered(*final(f)),
{
    let used = used_temps(f, ar, nstr);
    let ghost ones = all_live(f.slots as nat);
    proof {
        lemma_func_ok_blocks(*f, ar@, nstr@);
    }
    let n = f.blocks.len();
    let mut i: usize = 0;
    while i < n
        invariant
            n == f.blocks@.len(),
            n == old(f).blocks@.len(),
            i <= n,
            same_header(*f, *old(f)),
            old(f).params <= old(f).slots,
            1 <= n <= u32::MAX,
            used@.len() == f.temps,
            blocks_wf(f.blocks@, f.temps as int, f.slots as int, ar@, nstr@),
            stats_grew(*old(stats), *stats),
            *stats == (Stats { dead_temps: stats.dead_temps, ..*old(stats) }),
            stats.dead_temps == sat_add(old(stats).dead_temps as int, instr_count(old(f).blocks@.take(i as int)) - instr_count(f.blocks@.take(i as int))),
            ones == all_live(f.slots as nat),
            forall|b: int| 0 <= b < n ==> block_reads_live(#[trigger] old(f).blocks@[b], used@, ones),
            forall|b: int| i <= b < n ==> #[trigger] f.blocks@[b] == old(f).blocks@[b],
            forall|b: int|
                0 <= b < i ==> {
                    &&& (#[trigger] f.blocks@[b]).term == old(f).blocks@[b].term
                    &&& f.blocks@[b].instrs@ == kept_instrs(old(f).blocks@[b].instrs@, used@, ones)
                },
        decreases n - i,
    {
        let ghost before = f.blocks@;
        let mut blk = take_block(f, i);
        assert(block_wf(before[i as int], f.temps as int, f.slots as int, ar@, nstr@, n as int));
        let mut flags: Vec<bool> = Vec::new();
        let mut k: usize = 0;
        while k < blk.instrs.len()
            invariant
                k <= blk.instrs@.len(),
                flags@.len() == k,
                used@.len() == f.temps,
                ones == all_live(f.slots as nat),
                instrs_ok(blk.instrs@, f.temps as int, f.slots as int, ar@, nstr@),
                forall|kk: int| 0 <= kk < k ==> flags@[kk] == !droppable(#[trigger] blk.instrs@[kk], used@, ones),
            decreases blk.instrs@.len() - k,
        {
            assert(instr_ok(blk.instrs@[k as int], f.temps as int, f.slots as int, ar@, nstr@));
            flags.push(keeps(&blk.instrs[k], &used));
            k = k + 1;
        }
        let ghost old_instrs = blk.instrs@;
        let dropped = retain_instrs(&mut blk.instrs, &flags);
        stats.dead_temps = add_sat(stats.dead_temps, dropped);
        proof {
            lemma_keep_where_kept(old_instrs, flags@, used@, ones);
            lemma_instrs_ok_sub(old_instrs, blk.instrs@, f.temps as int, f.slots as int, ar@, nstr@);
            lemma_blocks_wf_update(before, i as int, blk, f.temps as int, f.slots as int, ar@, nstr@);
            assert(f.blocks@.update(i as int, blk) =~= before.update(i as int, blk));
        }
        f.blocks.set(i, blk);
        proof {
            lemma_instr_count_take(old(f).blocks@, i as int);
            lemma_instr_count_take(f.blocks@, i as int);
            assert(f.blocks@.take(i as int) =~= before.take(i as int));
            assert(old(f).blocks@[i as int] == before[i as int]);
        }
        i = i + 1;
    }
    proof {
        lemma_func_ok_blocks(*f, ar@, nstr@);
        assert(dead_dropped(*old(f), *f, used@, ones));
        assert(old(f).blocks@.take(n as int) =~= old(f).blocks@);
        assert(f.blocks@.take(n as int) =~= f.blocks@);
        assert forall|b: int| 0 <= b < old(f).blocks@.len() implies (#[trigger] f.blocks@[b]).instrs@.len() <= old(f).blocks@[b].instrs@.len() by {
            assert(old(f).blocks@[b] == old(f).blocks@[b]);
            lemma_kept_len(old(f).blocks@[b].instrs@, read_temps(*old(f)), all_live(old(f).slots as nat));
        }
        lemma_blocks_no_longer(old(f).blocks@, f.blocks@);
        if forall|b: int, k: int|
            0 <= b < old(f).blocks@.len() && 0 <= k < old(f).blocks@[b].instrs@.len() ==> !droppable(
                #[trigger] old(f).blocks@[b].instrs@[k],
                read_temps(*old(f)),
                all_live(old(f).slots as nat),
            ) {
            assert forall|b: int| 0 <= b < old(f).blocks@.len() implies (#[trigger] f.blocks@[b]).instrs@ == old(f).blocks@[b].instrs@ by {
                assert(old(f).blocks@[b] == old(f).blocks@[b]);
                lemma_kept_none(old(f).blocks@[b].instrs@, read_temps(*old(f)), all_live(old(f).slots as nat));
            }
            lemma_instr_count_same(old(f).blocks@, f.blocks@);
        }
        if stats.dead_temps == old(stats).dead_temps && old(stats).dead_temps < usize::MAX {
            assert(instr_count(f.blocks@) <= instr_count(old(f).blocks@)) by {
                assert forall|b: int| 0 <= b < old(f).blocks@.len() implies (#[trigger] f.blocks@[b]).instrs@.len() <= old(f).blocks@[b].instrs@.len() by {
                    assert(old(f).blocks@[b] == old(f).blocks@[b]);
                    lemma_kept_len(old(f).blocks@[b].instrs@, read_temps(*old(f)), all_live(old(f).slots as nat));
                }
                lemma_instr_count_le(old(f).blocks@, f.blocks@);
            }
            lemma_dead_nothing(*old(f), *f, read_temps(*old(f)), all_live(old(f).slots as nat));
        }
        if writes_once(old(f).blocks@) {
            lemma_dead_dropped_writes(*old(f), *f, used@, ones);
        }
        if entry_never_entered(*old(f)) {
            lemma_dead_dropped_entry(*old(f), *f, used@, ones);
        }
    }
}

/// Removes stores to slots that no instruction of the function loads.
fn dead_stores(f: &mut Func, stats: &mut Stats, ar: Ghost<Seq<int>>, nstr: Ghost<int>)
    requires
        func_ok(*old(f), ar@, nstr@),
    ensures
        func_ok(*final(f), ar@, nstr@),
        same_header(*final(f), *old(f)),
        final(f).blocks@.len() == old(f).blocks@.len(),
        stats_grew(*old(stats), *final(stats)),
        exists|lt: Seq<bool>, ls: Seq<bool>| dead_dropped(*old(f), *final(f), lt, ls),
        instr_count(final(f).blocks@) <= instr_count(old(f).blocks@),
        (forall|b: int, k: int|
            0 <= b < old(f).blocks@.len() && 0 <= k < old(f).blocks@[b].instrs@.len() ==> !droppable(
                #[trigger] old(f).blocks@[b].instrs@[k],
                all_live(old(f).temps as nat),
                loaded_slots(*old(f)),
            )) ==> final(stats).dead_stores == old(stats).dead_stores && same_code(*old(f), *final(f)),
        dead_dropped(*old(f), *final(f), all_live(old(f).temps as nat), loaded_slots(*old(f))),
        *final(stats) == (Stats { dead_stores: final(stats).dead_stores, ..*old(stats) }),
        final(stats).dead_stores == sat_add(old(stats).dead_stores as int, instr_count(old(f).blocks@) - instr_count(final(f).blocks@)),
        final(stats).dead_stores == old(stats).dead_stores && old(stats).dead_stores < usize::MAX ==> {
            &&& same_code(*old(f), *final(f))
            &&& forall|b: int, k: int|
                0 <= b < old(f).blocks@.len() && 0 <= k < old(f).blocks@[b].instrs@.len() ==> !droppable(
                    #[trigger] old(f).blocks@[b].instrs@[k],
                    all_live(old(f).temps as nat),
                    loaded_slots(*old(f)),
                )
        },
        writes_once(old(f).blocks@) ==> writes_once(final(f).blocks@),
        entry_never_entered(*old(f)) ==> entry_never_entered(*final(f)),
{
    let ghost ones = all_live(f.temps as nat);
    proof {
        lemma_func_ok_blocks(*f, ar@, nstr@);
    }
    let mut loaded: Vec<bool> = Vec::new();
    let mut s: u32 = 0;
    while s < f.slots
        invariant
            s <= f.slots,
            loaded@.len() == s,
            forall|x: int| 0 <= x < s ==> !(#[trigger] loaded@[x]),
        decreases f.slots - s,
    {
        loaded.push(false);
        s = s + 1;
    }
    let n = f.blocks.len();
    let mut i: usize = 0;
    while i < n
        invariant
            n == f.blocks@.len(),
            i <= n,
            loaded@.len() == f.slots,
            blocks_wf(f.blocks@, f.temps as int, f.slots as int, ar@, nstr@),
            ones == all_live(f.temps as nat),
            *f == *old(f),
            forall|c: int| 0 <= c < i ==> block_reads_live(#[trigger] f.blocks@[c], ones, loaded@),
            forall|x: int| 0 <= x < loaded@.len() ==> #[trigger] loaded@[x] == blocks_load_before(f.blocks@, x, i as int),
        decreases n - i,
    {
        let b = &f.blocks[i];
        assert(block_wf(f.blocks@[i as int], f.temps as int, f.slots as int, ar@, nstr@, n as int));
        let ghost l_start = loaded@;
        let mut k: usize = 0;
        while k < b.instrs.len()
            invariant
                k <= b.instrs@.len(),
                loaded@.len() == f.slots,
                l_start.len() == f.slots,
                marks_grow(l_start, loaded@),
                ones == all_live(f.temps as nat),
                instrs_ok(b.instrs@, f.temps as int, f.slots as int, ar@, nstr@),
                forall|kk: int| 0 <= kk < k ==> instr_reads_live(#[trigger] b.instrs@[kk], ones, loaded@),
                forall|x: int|
                    0 <= x < loaded@.len() ==> #[trigger] loaded@[x] == (blocks_load_before(f.blocks@, x, i as int) || loads_before(
                        b.instrs@,
                        x,
                        k as int,
                    )),
            decreases b.instrs@.len() - k,
        {
            assert(instr_ok(b.instrs@[k as int], f.temps as int, f.slots as int, ar@, nstr@));
            let ghost l0 = loaded@;
            match &b.instrs[k] {
                Instr::Load { slot, .. } => loaded.set(*slot as usize, true),
                _ => {},
            }
            proof {
                assert forall|x: int| 0 <= x < loaded@.len() implies #[trigger] loaded@[x] == (blocks_load_before(f.blocks@, x, i as int) || loads_before(b.instrs@, x, k + 1)) by {
                    lemma_loads_step(b.instrs@, x, k as int);
                }
                assert(marks_grow(l0, loaded@));
                assert forall|kk: int| 0 <= kk < k + 1 implies instr_reads_live(#[trigger] b.instrs@[kk], ones, loaded@) by {
                    let x = b.instrs@[kk];
                    assert(instr_ok(x, f.temps as int, f.slots as int, ar@, nstr@));
                    if kk < k {
                        lemma_instr_reads_live_grow(x, ones, ones, l0, loaded@, f.temps as int, f.slots as int, ar@, nstr@);
                    } else {
                        match x {
                            Instr::Call { args, .. } => {
                                assert forall|j: int| 0 <= j < args@.len() implies operand_live(#[trigger] args@[j], ones) by {
                                    assert(operand_ok(args@[j], f.temps as int));
                                }
                            },
                            _ => {},
                        }
                    }
                }
            }
            k = k + 1;
        }
        proof {
            assert forall|x: int| 0 <= x < loaded@.len() implies #[trigger] loaded@[x] == blocks_load_before(f.blocks@, x, i + 1) by {
                lemma_blocks_load_step(f.blocks@, x, i as int);
            }
            assert forall|c: int| 0 <= c < i + 1 implies block_reads_live(#[trigger] f.blocks@[c], ones, loaded@) by {
                assert(block_wf(f.blocks@[c], f.temps as int, f.slots as int, ar@, nstr@, n as int));
                if c < i {
                    lemma_reads_live_grow(f.blocks@[c], ones, ones, l_start, loaded@, f.temps as int, f.slots as int, ar@, nstr@, n as int);
                }
            }
        }
        i = i + 1;
    }
    let mut i: usize = 0;
    while i < n
        invariant
            n == f.blocks@.len(),
            n == old(f).blocks@.len(),
            i <= n,
            same_header(*f, *old(f)),
            old(f).params <= old(f).slots,
            1 <= n <= u32::MAX,
            loaded@.len() == f.slots,
            blocks_wf(f.blocks@, f.temps as int, f.slots as int, ar@, nstr@),
            stats_grew(*old(stats), *stats),
            *stats == (Stats { dead_stores: stats.dead_stores, ..*old(stats) }),
            stats.dead_stores == sat_add(old(stats).dead_stores as int, instr_count(old(f).blocks@.take(i as int)) - instr_count(f.blocks@.take(i as int))),
            ones == all_live(f.temps as nat),
            forall|b: int| 0 <= b < n ==> block_reads_live(#[trigger] old(f).blocks@[b], ones, loaded@),
            forall|b: int| i <= b < n ==> #[trigger] f.blocks@[b] == old(f).blocks@[b],
            forall|b: int|
                0 <= b < i ==> {
                    &&& (#[trigger] f.blocks@[b]).term == old(f).blocks@[b].term
                    &&& f.blocks@[b].instrs@ == kept_instrs(old(f).blocks@[b].instrs@, ones, loaded@)
                },
        decreases n - i,
    {
        let ghost before = f.blocks@;
        let mut blk = take_block(f, i);
        assert(block_wf(before[i as int], f.temps as int, f.slots as int, ar@, nstr@, n as int));
        let mut flags: Vec<bool> = Vec::new();
        let mut k: usize = 0;
        while k < blk.instrs.len()
            invariant
                k <= blk.instrs@.len(),
                flags@.len() == k,
                loaded@.len() == f.slots,
                ones == all_live(f.temps as nat),
                instrs_ok(blk.instrs@, f.temps as int, f.slots as int, ar@, nstr@),
                forall|kk: int| 0 <= kk < k ==> flags@[kk] == !droppable(#[trigger] blk.instrs@[kk], ones, loaded@),
            decreases blk.instrs@.len() - k,
        {
            assert(instr_ok(blk.instrs@[k as int], f.temps as int, f.slots as int, ar@, nstr@));
            let keep = match &blk.instrs[k] {
                Instr::Store { slot, .. } => loaded[*slot as usize],
                _ => true,
            };
            flags.push(keep);
            k = k + 1;
        }
        let ghost old_instrs = blk.instrs@;
        let dropped = retain_instrs(&mut blk.instrs, &flags);
        stats.dead_stores = add_sat(stats.dead_stores, dropped);
        proof {
            lemma_keep_where_kept(old_instrs, flags@, ones, loaded@);
            lemma_instrs_ok_sub(old_instrs, blk.instrs@, f.temps as int, f.slots as int, ar@, nstr@);
            lemma_blocks_wf_update(before, i as int, blk, f.temps as int, f.slots as int, ar@, nstr@);
            assert(f.blocks@.update(i as int, blk) =~= before.update(i as int, blk));
        }
        f.blocks.set(i, blk);
        proof {
            lemma_instr_count_take(old(f).blocks@, i as int);
            lemma_instr_count_take(f.blocks@, i as int);
            assert(f.blocks@.take(i as int) =~= before.take(i as int));
            assert(old(f).blocks@[i as int] == before[i as int]);
        }
        i = i + 1;
    }
    proof {
        lemma_func_ok_blocks(*f, ar@, nstr@);
        assert(dead_dropped(*old(f), *f, ones, loaded@));
        assert(loaded@ =~= loaded_slots(*old(f)));
        assert(old(f).blocks@.take(n as int) =~= old(f).blocks@);
        assert(f.blocks@.take(n as int) =~= f.blocks@);
        assert forall|b: int| 0 <= b < old(f).blocks@.len() implies (#[trigger] f.blocks@[b]).instrs@.len() <= old(f).blocks@[b].instrs@.len() by {
            assert(old(f).blocks@[b] == old(f).blocks@[b]);
            lemma_kept_len(old(f).blocks@[b].instrs@, all_live(old(f).temps as nat), loaded_slots(*old(f)));
        }
        lemma_blocks_no_longer(old(f).blocks@, f.blocks@);
        if forall|b: int, k: int|
            0 <= b < old(f).blocks@.len() && 0 <= k < old(f).blocks@[b].instrs@.len() ==> !droppable(
                #[trigger] old(f).blocks@[b].instrs@[k],
                all_live(old(f).temps as nat),
                loaded_slots(*old(f)),
            ) {
            assert forall|b: int| 0 <= b < old(f).blocks@.len() implies (#[trigger] f.blocks@[b]).instrs@ == old(f).blocks@[b].instrs@ by {
                assert(old(f).blocks@[b] == old(f).blocks@[b]);
                lemma_kept_none(old(f).blocks@[b].instrs@, all_live(old(f).temps as nat), loaded_slots(*old(f)));
            }
            lemma_instr_count_same(old(f).blocks@, f.blocks@);
        }
        if stats.dead_stores == old(stats).dead_stores && old(stats).dead_stores < usize::MAX {
            assert(instr_count(f.blocks@) <= instr_count(old(f).blocks@)) by {
                assert forall|b: int| 0 <= b < old(f).blocks@.len() implies (#[trigger] f.blocks@[b]).instrs@.len() <= old(f).blocks@[b].instrs@.len() by {
                    assert(old(f).blocks@[b] == old(f).blocks@[b]);
                    lemma_kept_len(old(f).blocks@[b].instrs@, all_live(old(f).temps as nat), loaded_slots(*old(f)));
                }
                lemma_instr_count_le(old(f).blocks@, f.blocks@);
            }
            lemma_dead_nothing(*old(f), *f, all_live(old(f).temps as nat), loaded_slots(*old(f)));
        }
        if writes_once(old(f).blocks@) {
            lemma_dead_dropped_writes(*old(f), *f, ones, loaded@);
        }
        if entry_never_entered(*old(f)) {
            lemma_dead_dropped_entry(*old(f), *f, ones, loaded@);
        }
    }
}

/// A branch on a constant becomes a jump.
fn fold_branches(f: &mut Func, stats: &mut Stats, ar: Ghost<Seq<int>>, nstr: Ghost<int>)
    requires
        func_ok(*old(f), ar@, nstr@),
    ensures
        func_ok(*final(f), ar@, nstr@),
        same_header(*final(f), *old(f)),
        final(f).blocks@.len() == old(f).blocks@.len(),
        stats_grew(*old(stats), *final(stats)),
        branches_folded(*old(f), *final(f)),
        *final(stats) == (Stats { branches_folded: final(stats).branches_folded, ..*old(stats) }),
        instr_count(final(f).blocks@) <= instr_count(old(f).blocks@),
        no_const_branches(*old(f)) ==> final(stats).branches_folded == old(stats).branches_folded && final(f).blocks@ == old(f).blocks@,
        final(stats).branches_folded == old(stats).branches_folded && old(stats).branches_folded < usize::MAX ==> no_const_branches(*old(f)),
        final(stats).branches_folded == old(stats).branches_folded && old(stats).branches_folded < usize::MAX ==> final(f).blocks@
            == old(f).blocks@,
        writes_once(old(f).blocks@) ==> writes_once(final(f).blocks@),
        entry_never_entered(*old(f)) ==> entry_never_entered(*final(f)),
{
    proof {
        lemma_func_ok_blocks(*f, ar@, nstr@);
    }
    let n = f.blocks.len();
    let mut i: usize = 0;
    while i < n
        invariant
            n == f.blocks@.len(),
            n == old(f).blocks@.len(),
            i <= n,
            same_header(*f, *old(f)),
            old(f).params <= old(f).slots,
            1 <= n <= u32::MAX,
            blocks_wf(f.blocks@, f.temps as int, f.slots as int, ar@, nstr@),
            stats_grew(*old(stats), *stats),
            stats.branches_folded == old(stats).branches_folded && old(stats).branches_folded < usize::MAX ==> f.blocks@ == old(
                f,
            ).blocks@,
            forall|b: int| i <= b < n ==> #[trigger] f.blocks@[b] == old(f).blocks@[b],
            no_const_branches(*old(f)) ==> stats.branches_folded == old(stats).branches_folded && f.blocks@ == old(f).blocks@,
            old(stats).branches_folded <= stats.branches_folded,
            *stats == (Stats { branches_folded: stats.branches_folded, ..*old(stats) }),
            stats.branches_folded == old(stats).branches_folded && old(stats).branches_folded < usize::MAX ==> forall|b: int|
                0 <= b < i ==> folded_term(#[trigger] old(f).blocks@[b].term) == old(f).blocks@[b].term,
            forall|b: int| 0 <= b < i ==> {
                &&& (#[trigger] f.blocks@[b]).instrs == old(f).blocks@[b].instrs
                &&& f.blocks@[b].term == folded_term(old(f).blocks@[b].term)
            },
        decreases n - i,
    {
        match f.blocks[i].term {
            Term::Br { cond: Operand::Const(c), t, f: fb } => {
                let ghost before = f.blocks@;
                let mut blk = take_block(f, i);
                assert(block_wf(before[i as int], f.temps as int, f.slots as int, ar@, nstr@, n as int));
                blk.term = Term::Jmp(if c != 0 { t } else { fb });
                stats.branches_folded = inc(stats.branches_folded);
                proof {
                    lemma_blocks_wf_update(before, i as int, blk, f.temps as int, f.slots as int, ar@, nstr@);
                    assert(f.blocks@.update(i as int, blk) =~= before.update(i as int, blk));
                }
                f.blocks.set(i, blk);
            },
            _ => {},
        }
        i = i + 1;
    }
    proof {
        lemma_func_ok_blocks(*f, ar@, nstr@);
        if writes_once(old(f).blocks@) {
            lemma_branches_folded_writes(*old(f), *f);
        }
        assert forall|b: int| 0 <= b < old(f).blocks@.len() implies (#[trigger] f.blocks@[b]).instrs@.len() == old(f).blocks@[b].instrs@.len() by {
            assert(f.blocks@[b].instrs == old(f).blocks@[b].instrs);
        }
        lemma_instr_count_same(old(f).blocks@, f.blocks@);
        if entry_never_entered(*old(f)) {
            lemma_branches_folded_entry(*old(f), *f);
        }
    }
}

/// `r` is where the empty jumps from block `x` end: a block that is not
/// an empty jump, one that jumps to itself, or the block reached after 65
/// of them.
pub open spec fn chain_end(f: Func, x: int, r: int) -> bool {
    exists|h: nat|
        {
            &&& h <= 65
            &&& forall|j: nat| j < h ==> (#[trigger] empty_jump(f, follow(f, x, j))) is Some
            &&& follow(f, x, h) == r
            &&& (h == 65 || empty_jump(f, r) is None || empty_jump(f, r) == Some(r as u32))
        }
}

/// Jump threading finds nothing to do in `f`: the entry is not swapped and
/// every jump and branch already goes to the end of its chain.
pub open spec fn nothing_to_thread(f: Func) -> bool {
    &&& !swaps_entry(f)
    &&& forall|b: int, k: int|
        0 <= b < f.blocks@.len() && 0 <= k < succs(f.blocks@[b].term).len() ==> chain_end(
            f,
            #[trigger] succs(f.blocks@[b].term)[k] as int,
            succs(f.blocks@[b].term)[k] as int,
        )
}

proof fn lemma_follow_add(f: Func, x: int, a: nat, b: nat)
    requires
        0 <= x <= u32::MAX,
    ensures
        follow(f, x, a + b) == follow(f, follow(f, x, a), b),
    decreases a,
{
    if a > 0 {
        match empty_jump(f, x) {
            Some(y) => {
                lemma_follow_add(f, y as int, (a - 1) as nat, b);
                assert((a + b - 1) as nat == ((a - 1) as nat + b) as nat);
            },
            None => {
                lemma_follow_stays(f, x, b);
                lemma_follow_stays(f, x, a + b);
            },
        }
    }
}

proof fn lemma_follow_stays(f: Func, x: int, d: nat)
    requires
        0 <= x <= u32::MAX,
        empty_jump(f, x) is None || empty_jump(f, x) == Some(x as u32),
    ensures
        follow(f, x, d) == x,
    decreases d,
{
    if d > 0 {
        match empty_jump(f, x) {
            Some(y) => {
                lemma_follow_stays(f, x, (d - 1) as nat);
            },
            None => {},
        }
    }
}

proof fn lemma_follow_u32(f: Func, x: int, h: nat)
    requires
        0 <= x <= u32::MAX,
    ensures
        0 <= follow(f, x, h) <= u32::MAX,
    decreases h,
{
    if h > 0 {
        if let Some(y) = empty_jump(f, x) {
            lemma_follow_u32(f, y as int, (h - 1) as nat);
        }
    }
}

/// The end of a chain of empty jumps is unique.
proof fn lemma_chain_end_unique(f: Func, x: int, r1: int, r2: int)
    requires
        0 <= x < f.blocks@.len() <= u32::MAX,
        chain_end(f, x, r1),
        chain_end(f, x, r2),
    ensures
        r1 == r2,
{
    let h1 = choose|h: nat|
        {
            &&& h <= 65
            &&& forall|j: nat| j < h ==> (#[trigger] empty_jump(f, follow(f, x, j))) is Some
            &&& follow(f, x, h) == r1
            &&& (h == 65 || empty_jump(f, r1) is None || empty_jump(f, r1) == Some(r1 as u32))
        };
    let h2 = choose|h: nat|
        {
            &&& h <= 65
            &&& forall|j: nat| j < h ==> (#[trigger] empty_jump(f, follow(f, x, j))) is Some
            &&& follow(f, x, h) == r2
            &&& (h == 65 || empty_jump(f, r2) is None || empty_jump(f, r2) == Some(r2 as u32))
        };
    lemma_follow_u32(f, x, h1);
    lemma_follow_u32(f, x, h2);
    if h1 <= h2 {
        if h1 < 65 {
            lemma_follow_add(f, x, h1, (h2 - h1) as nat);
            lemma_follow_stays(f, r1, (h2 - h1) as nat);
            assert((h1 + (h2 - h1)) as nat == h2);
        }
    } else {
        if h2 < 65 {
            lemma_follow_add(f, x, h2, (h1 - h2) as nat);
            lemma_follow_stays(f, r2, (h1 - h2) as nat);
            assert((h2 + (h1 - h2)) as nat == h1);
        }
    }
}

/// Terminator `b` is `a` with each target moved to the end of its chain of
/// empty jumps in `f`.
pub open spec fn term_ends_chains(f: Func, a: Term, b: Term) -> bool {
    match a {
        Term::Jmp(e) => b is Jmp && chain_end(f, e as int, b->Jmp_0 as int),
        Term::Br { cond, t, f: fb } => b is Br && chain_end(f, t as int, b->Br_t as int) && chain_end(f, fb as int, b->Br_f as int),
        _ => true,
    }
}

/// The terminator block `y` held before threading, once the entry has taken
/// the place of the block it jumps to.
pub open spec fn term_before_threading(f: Func, y: int) -> Term {
    if swaps_entry(f) && y == entry_source(f) {
        Term::Jmp(0)
    } else if y == 0 {
        f.blocks@[entry_source(f)].term
    } else {
        f.blocks@[y].term
    }
}

/// How many targets of the terminator changed.
pub open spec fn targets_changed(a: Term, b: Term) -> nat {
    match (a, b) {
        (Term::Jmp(x), Term::Jmp(y)) => if x != y { 1nat } else { 0nat },
        (Term::Br { t: x1, f: y1, .. }, Term::Br { t: x2, f: y2, .. }) => (if x1 != x2 { 1nat } else { 0nat }) + (if y1 != y2 {
            1nat
        } else {
            0nat
        }),
        _ => 0nat,
    }
}

/// How many targets of the first `n` blocks threading changed.
pub open spec fn threaded_count(f: Func, bs: Seq<BasicBlock>, n: int) -> nat
    decreases n,
{
    if n <= 0 {
        0
    } else {
        threaded_count(f, bs, n - 1) + targets_changed(term_before_threading(f, n - 1), bs[n - 1].term)
    }
}

proof fn lemma_threaded_count_same(f: Func, bs: Seq<BasicBlock>, bs2: Seq<BasicBlock>, n: int)
    requires
        0 <= n <= bs.len(),
        n <= bs2.len(),
        forall|y: int| 0 <= y < n ==> bs2[y].term == bs[y].term,
    ensures
        threaded_count(f, bs2, n) == threaded_count(f, bs, n),
    decreases n,
{
    if n > 0 {
        lemma_threaded_count_same(f, bs, bs2, n - 1);
    }
}

/// Where jump threading sends an edge to block `x`: along empty blocks that
/// just jump, for at most 65 hops, stopping at a block that jumps to itself.
fn resolve(targets: &Vec<Option<u32>>, x: u32, f: Ghost<Func>) -> (r: u32)
    requires
        x < targets@.len(),
        targets@.len() == f@.blocks@.len(),
        forall|b: int| 0 <= b < targets@.len() ==> #[trigger] targets@[b] == empty_jump(f@, b),
        forall|b: int| 0 <= b < targets@.len() && (#[trigger] targets@[b]) is Some ==> targets@[b]->0 < targets@.len(),
    ensures
        r < targets@.len(),
        skips_to(f@, x as int, r as int),
        targets@[x as int] is Some && targets@[x as int]->0 != x ==> skips_to(f@, targets@[x as int]->0 as int, r as int),
        chain_end(f@, x as int, r as int),
{
    let ghost x0 = x as int;
    let ghost mut h: nat = 0;
    let mut x = x;
    let mut hops: u32 = 0;
    while hops <= 64
        invariant
            x < targets@.len(),
            targets@.len() == f@.blocks@.len(),
            forall|b: int| 0 <= b < targets@.len() ==> #[trigger] targets@[b] == empty_jump(f@, b),
            forall|b: int| 0 <= b < targets@.len() && (#[trigger] targets@[b]) is Some ==> targets@[b]->0 < targets@.len(),
            follow(f@, x0, h) == x,
            forall|j: nat| j < h ==> (#[trigger] empty_jump(f@, follow(f@, x0, j))) is Some,
            h == hops,
            hops <= 65,
        ensures
            x < targets@.len(),
            follow(f@, x0, h) == x,
            forall|j: nat| j < h ==> (#[trigger] empty_jump(f@, follow(f@, x0, j))) is Some,
            targets@[x0] is Some && targets@[x0]->0 != x0 ==> h >= 1,
            h <= 65,
            h == 65 || empty_jump(f@, x as int) is None || empty_jump(f@, x as int) == Some(x),
        decreases 65 - hops,
    {
        match targets[x as usize] {
            Some(t) => {
                if t == x {
                    break;
                }
                proof {
                    lemma_follow_step(f@, x0, h);
                    h = h + 1;
                }
                x = t;
            },
            None => {
                break;
            },
        }
        hops = hops + 1;
    }
    proof {
        if let Some(t) = targets@[x0] {
            if t != x0 {
                let y = t as int;
                assert(empty_jump(f@, x0) == Some(t));
                assert forall|j: nat| j < (h - 1) as nat implies (#[trigger] empty_jump(f@, follow(f@, y, j))) is Some by {
                    assert(follow(f@, x0, j + 1) == follow(f@, y, j));
                    assert(empty_jump(f@, follow(f@, x0, (j + 1) as nat)) is Some);
                }
                assert(follow(f@, x0, h) == follow(f@, y, (h - 1) as nat));
            }
        }
    }
    x
}

/// Whether block `b` of `f` branches or jumps to `t`.
fn jumps_to(b: &BasicBlock, t: u32) -> (r: bool)
    ensures
        r == match b.term {
            Term::Jmp(x) => x == t,
            Term::Br { t: a, f: c, .. } => a == t || c == t,
            _ => false,
        },
{
    match b.term {
        Term::Jmp(x) => x == t,
        Term::Br { t: a, f: c, .. } => a == t || c == t,
        _ => false,
    }
}

/// An empty block that just jumps somewhere is skipped by its predecessors;
/// an empty entry block that jumps to a block no other block jumps to takes
/// that block's place.
#[verifier::rlimit(100)]
fn thread_jumps(f: &mut Func, stats: &mut Stats, ar: Ghost<Seq<int>>, nstr: Ghost<int>)
    requires
        func_ok(*old(f), ar@, nstr@),
    ensures
        func_ok(*final(f), ar@, nstr@),
        same_header(*final(f), *old(f)),
        final(f).blocks@.len() == old(f).blocks@.len(),
        stats_grew(*old(stats), *final(stats)),
        jumps_threaded(*old(f), *final(f)),
        nothing_to_thread(*old(f)) ==> final(stats).jumps_threaded == old(stats).jumps_threaded && final(f).blocks@ == old(
            f,
        ).blocks@,
        final(stats).jumps_threaded == old(stats).jumps_threaded && old(stats).jumps_threaded < usize::MAX ==> nothing_to_thread(
            *old(f),
        ),
        instr_count(final(f).blocks@) == instr_count(old(f).blocks@),
        forall|y: int|
            0 <= y < final(f).blocks@.len() ==> term_ends_chains(*old(f), term_before_threading(*old(f), y), #[trigger] final(f).blocks@[y].term),
        *final(stats) == (Stats { jumps_threaded: final(stats).jumps_threaded, ..*old(stats) }),
        final(stats).jumps_threaded == sat_add(
            old(stats).jumps_threaded as int,
            (if swaps_entry(*old(f)) { 1int } else { 0int }) + threaded_count(*old(f), final(f).blocks@, final(f).blocks@.len() as int) as int,
        ),
        final(stats).jumps_threaded == old(stats).jumps_threaded && old(stats).jumps_threaded < usize::MAX ==> final(f).blocks@ == old(f).blocks@,
        writes_once(old(f).blocks@) ==> writes_once(final(f).blocks@),
        entry_never_entered(*old(f)) ==> entry_never_entered(*final(f)),
{
    proof {
        lemma_func_ok_blocks(*f, ar@, nstr@);
    }
    let n = f.blocks.len();
    let mut targets: Vec<Option<u32>> = Vec::new();
    let mut i: usize = 0;
    while i < n
        invariant
            n == f.blocks@.len(),
            i <= n,
            targets@.len() == i,
            blocks_wf(f.blocks@, f.temps as int, f.slots as int, ar@, nstr@),
            forall|b: int| 0 <= b < targets@.len() && (#[trigger] targets@[b]) is Some ==> targets@[b]->0 < n,
            forall|b: int| 0 <= b < targets@.len() ==> #[trigger] targets@[b] == empty_jump(*old(f), b),
        decreases n - i,
    {
        assert(block_wf(f.blocks@[i as int], f.temps as int, f.slots as int, ar@, nstr@, n as int));
        let t = match f.blocks[i].term {
            Term::Jmp(t) => if f.blocks[i].instrs.len() == 0 { Some(t) } else { None },
            _ => None,
        };
        targets.push(t);
        i = i + 1;
    }
    assert(block_wf(f.blocks@[0], f.temps as int, f.slots as int, ar@, nstr@, n as int));
    match f.blocks[0].term {
        Term::Jmp(t) => {
            if f.blocks[0].instrs.len() == 0 && t != 0 {
                let mut preds: usize = 0;
                let mut j: usize = 1;
                while j < n
                    invariant
                        n == f.blocks@.len(),
                        *f == *old(f),
                        1 <= j <= n,
                        preds <= j,
                        preds == 0 <==> forall|c: int, k: int|
                            1 <= c < j && 0 <= k < succs(f.blocks@[c].term).len() ==> #[trigger] succs(f.blocks@[c].term)[k] != t,
                    decreases n - j,
                {
                    proof {
                        let tj = f.blocks@[j as int].term;
                        match tj {
                            Term::Jmp(x) => {
                                assert(succs(tj)[0] == x);
                            },
                            Term::Br { t: x, f: y, .. } => {
                                assert(succs(tj)[0] == x);
                                assert(succs(tj)[1] == y);
                            },
                            _ => {},
                        }
                    }
                    if jumps_to(&f.blocks[j], t) {
                        preds = preds + 1;
                    }
                    j = j + 1;
                }
                if preds == 0 {
                    let ghost before = f.blocks@;
                    let moved = take_block(f, t as usize);
                    assert(block_wf(before[t as int], f.temps as int, f.slots as int, ar@, nstr@, n as int));
                    let stub = BasicBlock { instrs: Vec::new(), term: Term::Jmp(0), line: 0 };
                    proof {
                        lemma_blocks_wf_update(before, t as int, stub, f.temps as int, f.slots as int, ar@, nstr@);
                        lemma_blocks_wf_update(before.update(t as int, stub), 0, moved, f.temps as int, f.slots as int, ar@, nstr@);
                    }
                    f.blocks.set(t as usize, stub);
                    f.blocks.set(0, moved);
                    proof {
                        assert(f.blocks@ =~= before.update(t as int, stub).update(0, moved));
                        lemma_instr_count_update(before, t as int, stub);
                        lemma_instr_count_update(before.update(t as int, stub), 0, moved);
                    }
                    stats.jumps_threaded = inc(stats.jumps_threaded);
                }
            }
        },
        _ => {},
    }
    assert(stats.jumps_threaded == old(stats).jumps_threaded && old(stats).jumps_threaded < usize::MAX ==> f.blocks@ == old(f).blocks@);
    let ghost mid = f.blocks@;
    assert(instr_count(f.blocks@) == instr_count(old(f).blocks@));
    assert(mid[0] == old(f).blocks@[entry_source(*old(f))]);
    assert(forall|y: int| 1 <= y < n && y != entry_source(*old(f)) ==> mid[y] == old(f).blocks@[y]);
    assert(stats.jumps_threaded == sat_add(old(stats).jumps_threaded as int, if swaps_entry(*old(f)) { 1int } else { 0int }));
    assert(*stats == (Stats { jumps_threaded: stats.jumps_threaded, ..*old(stats) }));
    let ghost jt0 = stats.jumps_threaded;
    proof {
        if !swaps_entry(*old(f)) {
            assert(mid =~= old(f).blocks@);
        }
    }
    assert forall|y: int| 0 <= y < n implies #[trigger] mid[y].term == term_before_threading(*old(f), y) by {
        if swaps_entry(*old(f)) {
            assert(0 < entry_source(*old(f)) < n) by {
                assert(block_wf(old(f).blocks@[0], f.temps as int, f.slots as int, ar@, nstr@, n as int));
            }
        }
    }
    let mut i: usize = 0;
    while i < n
        invariant
            n == f.blocks@.len(),
            n == old(f).blocks@.len(),
            i <= n,
            same_header(*f, *old(f)),
            old(f).params <= old(f).slots,
            1 <= n <= u32::MAX,
            targets@.len() == n,
            forall|b: int| 0 <= b < targets@.len() && (#[trigger] targets@[b]) is Some ==> targets@[b]->0 < n,
            blocks_wf(f.blocks@, f.temps as int, f.slots as int, ar@, nstr@),
            stats_grew(*old(stats), *stats),
            forall|b: int| 0 <= b < targets@.len() ==> #[trigger] targets@[b] == empty_jump(*old(f), b),
            n == mid.len(),
            forall|b: int| i <= b < n ==> #[trigger] f.blocks@[b] == mid[b],
            stats.jumps_threaded == old(stats).jumps_threaded && old(stats).jumps_threaded < usize::MAX ==> f.blocks@ == old(f).blocks@,
            old(stats).jumps_threaded <= stats.jumps_threaded,
            forall|b: int|
                0 <= b < i ==> {
                    &&& (#[trigger] f.blocks@[b]).instrs@ == mid[b].instrs@
                    &&& term_threaded(*old(f), mid[b].term, f.blocks@[b].term)
                },
            swaps_entry(*old(f)) ==> mid[entry_source(*old(f))].term == Term::Jmp(0),
            !swaps_entry(*old(f)) ==> mid == old(f).blocks@,
            forall|y: int| 0 <= y < n ==> #[trigger] mid[y].term == term_before_threading(*old(f), y),
            forall|b: int| 0 <= b < i ==> term_ends_chains(*old(f), mid[b].term, #[trigger] f.blocks@[b].term),
            *stats == (Stats { jumps_threaded: stats.jumps_threaded, ..*old(stats) }),
            jt0 <= usize::MAX,
            nothing_to_thread(*old(f)) ==> stats.jumps_threaded == old(stats).jumps_threaded && f.blocks@ == old(f).blocks@,
            stats.jumps_threaded == old(stats).jumps_threaded && old(stats).jumps_threaded < usize::MAX ==> forall|b: int, k: int|
                0 <= b < i && 0 <= k < succs(old(f).blocks@[b].term).len() ==> chain_end(
                    *old(f),
                    #[trigger] succs(old(f).blocks@[b].term)[k] as int,
                    succs(old(f).blocks@[b].term)[k] as int,
                ),
            instr_count(f.blocks@) == instr_count(old(f).blocks@),
            stats.jumps_threaded == sat_add(jt0 as int, threaded_count(*old(f), f.blocks@, i as int) as int),
            swaps_entry(*old(f)) && entry_source(*old(f)) < i ==> {
                &&& f.blocks@[entry_source(*old(f))].term is Jmp
                &&& skips_to(*old(f), entry_source(*old(f)), f.blocks@[entry_source(*old(f))].term->Jmp_0 as int)
            },
        decreases n - i,
    {
        let ghost before = f.blocks@;
        let ghost jt_before = stats.jumps_threaded;
        assert(block_wf(before[i as int], f.temps as int, f.slots as int, ar@, nstr@, n as int));
        match f.blocks[i].term {
            Term::Jmp(t) => {
                let r = resolve(&targets, t, Ghost(*old(f)));
                proof {
                    if nothing_to_thread(*old(f)) {
                        assert(succs(mid[i as int].term)[0] == t);
                        lemma_chain_end_unique(*old(f), t as int, r as int, t as int);
                    }
                }
                if r != t {
                    let mut blk = take_block(f, i);
                    blk.term = Term::Jmp(r);
                    stats.jumps_threaded = inc(stats.jumps_threaded);
                    proof {
                        lemma_blocks_wf_update(before, i as int, blk, f.temps as int, f.slots as int, ar@, nstr@);
                        assert(f.blocks@.update(i as int, blk) =~= before.update(i as int, blk));
                    }
                    f.blocks.set(i, blk);
                }
                proof {
                    assert(term_threaded(*old(f), mid[i as int].term, f.blocks@[i as int].term));
                }
            },
            Term::Br { cond, t, f: fb } => {
                let rt = resolve(&targets, t, Ghost(*old(f)));
                let rf = resolve(&targets, fb, Ghost(*old(f)));
                proof {
                    if nothing_to_thread(*old(f)) {
                        assert(succs(mid[i as int].term)[0] == t);
                        assert(succs(mid[i as int].term)[1] == fb);
                        lemma_chain_end_unique(*old(f), t as int, rt as int, t as int);
                        lemma_chain_end_unique(*old(f), fb as int, rf as int, fb as int);
                    }
                }
                if rt != t || rf != fb {
                    let mut blk = take_block(f, i);
                    blk.term = Term::Br { cond, t: rt, f: rf };
                    if rt != t {
                        stats.jumps_threaded = inc(stats.jumps_threaded);
                    }
                    if rf != fb {
                        stats.jumps_threaded = inc(stats.jumps_threaded);
                    }
                    proof {
                        lemma_blocks_wf_update(before, i as int, blk, f.temps as int, f.slots as int, ar@, nstr@);
                        assert(f.blocks@.update(i as int, blk) =~= before.update(i as int, blk));
                    }
                    f.blocks.set(i, blk);
                }
                proof {
                    assert(term_threaded(*old(f), mid[i as int].term, f.blocks@[i as int].term));
                }
            },
            _ => {},
        }
        proof {
            if nothing_to_thread(*old(f)) {
                let tb = old(f).blocks@[i as int].term;
                match tb {
                    Term::Jmp(x) => {
                        assert(succs(tb)[0] == x);
                    },
                    Term::Br { t: x, f: y, .. } => {
                        assert(succs(tb)[0] == x);
                        assert(succs(tb)[1] == y);
                    },
                    _ => {},
                }
            }
            assert(f.blocks@ =~= before.update(i as int, f.blocks@[i as int]));
            lemma_instr_count_update(before, i as int, f.blocks@[i as int]);
            assert(forall|y: int| 0 <= y < n && y != i ==> f.blocks@[y] == before[y]);
            lemma_threaded_count_same(*old(f), before, f.blocks@, i as int);
            assert(stats.jumps_threaded == sat_add(jt_before as int, targets_changed(mid[i as int].term, f.blocks@[i as int].term) as int));
            assert(term_ends_chains(*old(f), mid[i as int].term, f.blocks@[i as int].term));
        }
        i = i + 1;
    }
    proof {
        lemma_func_ok_blocks(*f, ar@, nstr@);
        assert(block_threaded(*old(f), old(f).blocks@[entry_source(*old(f))], f.blocks@[0]));
        assert forall|y: int| 1 <= y < n && y != entry_source(*old(f)) implies block_threaded(*old(f), #[trigger] old(f).blocks@[y], f.blocks@[y]) by {
            assert(mid[y] == old(f).blocks@[y]);
        }
        if swaps_entry(*old(f)) {
            assert(f.blocks@[entry_source(*old(f))].instrs@ == mid[entry_source(*old(f))].instrs@);
        }
        if writes_once(old(f).blocks@) {
            lemma_jumps_threaded_writes(*old(f), *f, ar@, nstr@);
        }
        if entry_never_entered(*old(f)) {
            lemma_jumps_threaded_entry(*old(f), *f, ar@, nstr@);
        }
        assert forall|y: int|
            0 <= y < f.blocks@.len() implies term_ends_chains(*old(f), term_before_threading(*old(f), y), #[trigger] f.blocks@[y].term) by {
            assert(mid[y].term == term_before_threading(*old(f), y));
        }
    }
}

/// Number of entries equal to 1 among the first `k`.
pub open spec fn count_ones(s: Seq<usize>, k: int) -> nat
    decreases k,
{
    if k <= 0 {
        0
    } else {
        count_ones(s, k - 1) + if s[k - 1] == 1 { 1nat } else { 0nat }
    }
}

proof fn lemma_count_ones_clear(s: Seq<usize>, t: int, k: int)
    requires
        0 <= t < s.len(),
        s[t] == 1,
        0 <= k <= s.len(),
    ensures
        count_ones(s.update(t, 0), k) + (if t < k { 1nat } else { 0nat }) == count_ones(s, k),
    decreases k,
{
    if k > 0 {
        lemma_count_ones_clear(s, t, k - 1);
    }
}


/// `n`, stopping at the largest counter.
pub open spec fn min_max(n: nat) -> int {
    if n < usize::MAX {
        n as int
    } else {
        usize::MAX as int
    }
}

/// Every block its own chain.
pub open spec fn singleton_chains(n: nat) -> Seq<Option<Seq<int>>> {
    Seq::new(n, |y: int| Some(seq![y]))
}

/// The number of jumps and branches into block `t` of `f`.
pub open spec fn in_edges(f: Func, t: int) -> nat {
    edges_into(f.blocks@, singleton_chains(f.blocks@.len()), t, f.blocks@.len() as int)
}

/// Block merging finds nothing to do at block `a` of `f`: it does not end
/// in a jump to another block than itself and the entry that only it enters.
pub open spec fn no_merge_at(f: Func, a: int) -> bool {
    f.blocks@[a].term is Jmp ==> {
        let t = f.blocks@[a].term->Jmp_0 as int;
        t == a || t == 0 || in_edges(f, t) != 1
    }
}

/// Block merging finds nothing to do in `f`.
pub open spec fn nothing_to_merge(f: Func) -> bool {
    forall|a: int| 0 <= a < f.blocks@.len() ==> #[trigger] no_merge_at(f, a)
}

/// A block that ends in `jmp B`, where no other block jumps to `B`, absorbs
/// `B`; `B` becomes a block that jumps to itself, removed later.
#[verifier::rlimit(80)]
fn merge_blocks(f: &mut Func, stats: &mut Stats, ar: Ghost<Seq<int>>, nstr: Ghost<int>)
    requires
        func_ok(*old(f), ar@, nstr@),
    ensures
        func_ok(*final(f), ar@, nstr@),
        same_header(*final(f), *old(f)),
        final(f).blocks@.len() == old(f).blocks@.len(),
        stats_grew(*old(stats), *final(stats)),
        exists|chains: Seq<Option<Seq<int>>>| blocks_merged(*old(f), *final(f), chains),
        instr_count(final(f).blocks@) == instr_count(old(f).blocks@),
        *final(stats) == (Stats { jumps_threaded: final(stats).jumps_threaded, ..*old(stats) }),
        final(stats).jumps_threaded == old(stats).jumps_threaded && old(stats).jumps_threaded < usize::MAX ==> final(f).blocks@ == old(f).blocks@,
        nothing_to_merge(*old(f)) ==> final(stats).jumps_threaded == old(stats).jumps_threaded && final(f).blocks@ == old(f).blocks@,
        final(stats).jumps_threaded == old(stats).jumps_threaded && old(stats).jumps_threaded < usize::MAX ==> nothing_to_merge(*old(f)),
        writes_once(old(f).blocks@) ==> writes_once(final(f).blocks@),
        entry_never_entered(*old(f)) ==> entry_never_entered(*final(f)),
{
    proof {
        lemma_func_ok_blocks(*f, ar@, nstr@);
    }
    let n = f.blocks.len();
    let ghost mut chains: Seq<Option<Seq<int>>> = Seq::new(n as nat, |y: int| Some(seq![y]));
    let mut preds: Vec<usize> = Vec::new();
    let mut i: usize = 0;
    while i < n
        invariant
            i <= n,
            preds@.len() == i,
            forall|z: int| 0 <= z < i ==> #[trigger] preds@[z] == 0,
        decreases n - i,
    {
        preds.push(0);
        i = i + 1;
    }
    let mut i: usize = 0;
    while i < n
        invariant
            n == f.blocks@.len(),
            *f == *old(f),
            i <= n,
            preds@.len() == n,
            chains.len() == n,
            forall|y: int| 0 <= y < n ==> #[trigger] chains[y] == Some(seq![y]),
            blocks_wf(f.blocks@, f.temps as int, f.slots as int, ar@, nstr@),
            forall|z: int| 0 <= z < n ==> #[trigger] preds@[z] == min_max(edges_into(f.blocks@, chains, z, i as int)),
        decreases n - i,
    {
        assert(block_wf(f.blocks@[i as int], f.temps as int, f.slots as int, ar@, nstr@, n as int));
        let ghost p0 = preds@;
        match f.blocks[i].term {
            Term::Jmp(t) => {
                let c = inc(preds[t as usize]);
                preds.set(t as usize, c);
            },
            Term::Br { t, f: fb, .. } => {
                let c = inc(preds[t as usize]);
                preds.set(t as usize, c);
                let c = inc(preds[fb as usize]);
                preds.set(fb as usize, c);
            },
            _ => {},
        }
        proof {
            assert forall|z: int| 0 <= z < n implies #[trigger] preds@[z] == min_max(edges_into(f.blocks@, chains, z, i + 1)) by {
                lemma_occurrences_terms(f.blocks@[i as int].term, z);
                assert(chains[i as int] is Some);
                assert(p0[z] == min_max(edges_into(f.blocks@, chains, z, i as int)));
            }
        }
        i = i + 1;
    }
    proof {
        assert forall|y1: int, i1: int, y2: int, i2: int|
            0 <= y1 < chains.len() && 0 <= y2 < chains.len() && chains[y1] is Some && chains[y2] is Some && 0 <= i1
                < chains[y1]->0.len() && 0 <= i2 < chains[y2]->0.len() && #[trigger] chains[y1]->0[i1]
                == #[trigger] chains[y2]->0[i2] implies y1 == y2 && i1 == i2 by {
            assert(chains[y1]->0 == seq![y1]);
            assert(chains[y2]->0 == seq![y2]);
        }
        assert forall|y: int| 0 <= y < n && (#[trigger] chains[y]) is Some implies chain_merged(*old(f), *f, y, chains[y]->0) by {
            lemma_flat_one(*f, y);
            assert(seq![y].last() == y);
        }
        assert forall|y: int, k: int|
            0 <= y < n && chains[y] is Some && 0 <= k < succs(f.blocks@[y].term).len() implies {
                &&& 0 <= #[trigger] succs(f.blocks@[y].term)[k] < n
                &&& chains[succs(f.blocks@[y].term)[k] as int] is Some
            } by {
            assert(block_wf(f.blocks@[y], f.temps as int, f.slots as int, ar@, nstr@, n as int));
        }
    }
    let ghost chains0 = chains;
    let ghost preds0 = preds@;
    let ghost mut merged = false;
    proof {
        assert(chains0 =~= singleton_chains(n as nat));
        assert forall|z: int| 0 <= z < n implies #[trigger] preds0[z] == min_max(in_edges(*old(f), z)) by {
            assert(preds@[z] == min_max(edges_into(f.blocks@, chains, z, n as int)));
        }
    }
    let mut a: usize = 0;
    while a < n
        invariant
            n == f.blocks@.len(),
            n == old(f).blocks@.len(),
            a <= n,
            same_header(*f, *old(f)),
            old(f).params <= old(f).slots,
            1 <= n <= u32::MAX,
            preds@.len() == n,
            blocks_wf(f.blocks@, f.temps as int, f.slots as int, ar@, nstr@),
            stats_grew(*old(stats), *stats),
            instr_count(f.blocks@) == instr_count(old(f).blocks@),
            *stats == (Stats { jumps_threaded: stats.jumps_threaded, ..*old(stats) }),
            stats.jumps_threaded == old(stats).jumps_threaded && old(stats).jumps_threaded < usize::MAX ==> f.blocks@ == old(f).blocks@,
            chains.len() == n,
            chains[0] is Some,
            forall|y: int| 0 <= y < n && (#[trigger] chains[y]) is Some ==> chain_merged(*old(f), *f, y, chains[y]->0),
            forall|y: int| 0 <= y < n && (#[trigger] chains[y]) is None ==> y != 0 && f.blocks@[y].term == Term::Jmp(y as u32) && f.blocks@[y].instrs@.len() == 0,
            chains_disjoint(chains),
            forall|y: int, k: int|
                0 <= y < n && chains[y] is Some && 0 <= k < succs(f.blocks@[y].term).len() ==> {
                    &&& 0 <= #[trigger] succs(f.blocks@[y].term)[k] < n
                    &&& chains[succs(f.blocks@[y].term)[k] as int] is Some
                },
            forall|z: int| 0 <= z < n ==> #[trigger] preds@[z] == usize::MAX || edges_into(f.blocks@, chains, z, n as int) <= preds@[z],
            !merged ==> f.blocks@ == old(f).blocks@ && chains == chains0 && preds@ == preds0 && stats.jumps_threaded
                == old(stats).jumps_threaded,
            merged && old(stats).jumps_threaded < usize::MAX ==> stats.jumps_threaded != old(stats).jumps_threaded,
            nothing_to_merge(*old(f)) ==> !merged,
            chains0 == singleton_chains(n as nat),
            forall|z: int| 0 <= z < n ==> #[trigger] preds0[z] == min_max(in_edges(*old(f), z)),
            !merged ==> forall|x: int| 0 <= x < a ==> #[trigger] no_merge_at(*old(f), x),
        decreases n - a,
    {
        loop
            invariant
                n == f.blocks@.len(),
                n == old(f).blocks@.len(),
                a < n,
                same_header(*f, *old(f)),
                old(f).params <= old(f).slots,
                1 <= n <= u32::MAX,
                preds@.len() == n,
                blocks_wf(f.blocks@, f.temps as int, f.slots as int, ar@, nstr@),
                stats_grew(*old(stats), *stats),
                instr_count(f.blocks@) == instr_count(old(f).blocks@),
                *stats == (Stats { jumps_threaded: stats.jumps_threaded, ..*old(stats) }),
                stats.jumps_threaded == old(stats).jumps_threaded && old(stats).jumps_threaded < usize::MAX ==> f.blocks@ == old(f).blocks@,
                chains.len() == n,
                chains[0] is Some,
                forall|y: int| 0 <= y < n && (#[trigger] chains[y]) is Some ==> chain_merged(*old(f), *f, y, chains[y]->0),
                forall|y: int| 0 <= y < n && (#[trigger] chains[y]) is None ==> y != 0 && f.blocks@[y].term == Term::Jmp(y as u32) && f.blocks@[y].instrs@.len() == 0,
                chains_disjoint(chains),
                forall|y: int, k: int|
                    0 <= y < n && chains[y] is Some && 0 <= k < succs(f.blocks@[y].term).len() ==> {
                        &&& 0 <= #[trigger] succs(f.blocks@[y].term)[k] < n
                        &&& chains[succs(f.blocks@[y].term)[k] as int] is Some
                    },
                forall|z: int| 0 <= z < n ==> #[trigger] preds@[z] == usize::MAX || edges_into(f.blocks@, chains, z, n as int) <= preds@[z],
                    !merged ==> f.blocks@ == old(f).blocks@ && chains == chains0 && preds@ == preds0 && stats.jumps_threaded
                    == old(stats).jumps_threaded,
                merged && old(stats).jumps_threaded < usize::MAX ==> stats.jumps_threaded != old(stats).jumps_threaded,
                nothing_to_merge(*old(f)) ==> !merged,
                chains0 == singleton_chains(n as nat),
                forall|z: int| 0 <= z < n ==> #[trigger] preds0[z] == min_max(in_edges(*old(f), z)),
                !merged ==> forall|x: int| 0 <= x < a ==> #[trigger] no_merge_at(*old(f), x),
            ensures
                !merged ==> no_merge_at(*old(f), a as int),
            decreases count_ones(preds@, n as int),
        {
            let ghost before = f.blocks@;
            let ghost f_before = *f;
            assert(block_wf(before[a as int], f.temps as int, f.slots as int, ar@, nstr@, n as int));
            let t = match f.blocks[a].term {
                Term::Jmp(t) => t as usize,
                _ => {
                    break;
                },
            };
            if t == a || t == 0 || preds[t] != 1 {
                break;
            }
            proof {
                if !merged {
                    assert(preds0[t as int] == min_max(in_edges(*old(f), t as int)));
                    assert(in_edges(*old(f), t as int) == 1);
                    assert(!no_merge_at(*old(f), a as int));
                }
                merged = true;
            }
            assert(block_wf(before[t as int], f.temps as int, f.slots as int, ar@, nstr@, n as int));
            let ghost ca = chains[a as int]->0;
            let ghost ct = chains[t as int]->0;
            proof {
                assert(chains[a as int] is Some);
                assert(succs(before[a as int].term)[0] == t);
                assert(chains[t as int] is Some);
                lemma_occurrences_terms(before[a as int].term, t as int);
                lemma_edges_two(before, chains, a as int, t as int, t as int, n as int);
            }
            let mut absorbed = take_block(f, t);
            let stub = BasicBlock { instrs: Vec::new(), term: Term::Jmp(t as u32), line: 0 };
            f.blocks.set(t, stub);
            let mut blk = take_block(f, a);
            let ghost ai = blk.instrs@;
            let ghost bi = absorbed.instrs@;
            blk.instrs.append(&mut absorbed.instrs);
            blk.term = absorbed.term;
            proof {
                assert forall|k: int| 0 <= k < blk.instrs@.len() implies instr_ok(#[trigger] blk.instrs@[k], f.temps as int, f.slots as int, ar@, nstr@) by {
                    if k < ai.len() {
                        assert(blk.instrs@[k] == ai[k]);
                    } else {
                        assert(blk.instrs@[k] == bi[k - ai.len()]);
                    }
                }
                let mid = before.update(t as int, stub);
                lemma_blocks_wf_update(before, t as int, stub, f.temps as int, f.slots as int, ar@, nstr@);
                lemma_blocks_wf_update(mid, a as int, blk, f.temps as int, f.slots as int, ar@, nstr@);
                assert(f.blocks@.update(a as int, blk) =~= mid.update(a as int, blk));
                lemma_instr_count_update(before, t as int, stub);
                lemma_instr_count_update(mid, a as int, blk);
                assert(blk.instrs@.len() == ai.len() + bi.len());
                lemma_count_ones_clear(preds@, t as int, n as int);
            }
            f.blocks.set(a, blk);
            preds.set(t, 0);
            stats.jumps_threaded = inc(stats.jumps_threaded);
            proof {
                let old_chains = chains;
                let mid = before.update(t as int, stub);
                let mid_c = chains.update(t as int, None);
                chains = mid_c.update(a as int, Some(ca + ct));
                assert(f.blocks@ =~= mid.update(a as int, blk));
                // the merged block
                lemma_flat_concat(*old(f), ca, ct);
                assert(chain_merged(*old(f), f_before, a as int, ca));
                assert(chain_merged(*old(f), f_before, t as int, ct));
                assert(ai == flat(*old(f), ca));
                assert(bi == flat(*old(f), ct));
                assert forall|y: int| 0 <= y < n && (#[trigger] chains[y]) is Some implies chain_merged(*old(f), *f, y, chains[y]->0) by {
                    if y == a {
                        assert(chain_merged(*old(f), *f, a as int, ca + ct)) by {
                            let c = ca + ct;
                            assert(jump_chain(*old(f), c)) by {
                                assert forall|i: int| 0 <= i < c.len() - 1 implies old(f).blocks@[#[trigger] c[i]].term == Term::Jmp(c[i + 1] as u32) by {
                                    if i < ca.len() - 1 {
                                        assert(c[i] == ca[i]);
                                        assert(c[i + 1] == ca[i + 1]);
                                    } else if i == ca.len() - 1 {
                                        assert(c[i] == ca.last());
                                        assert(c[i + 1] == ct[0]);
                                    } else {
                                        assert(c[i] == ct[i - ca.len()]);
                                        assert(c[i + 1] == ct[i - ca.len() + 1]);
                                    }
                                }
                                assert forall|i: int| 0 <= i < c.len() implies 0 <= #[trigger] c[i] < old(f).blocks@.len() by {
                                    if i < ca.len() {
                                        assert(c[i] == ca[i]);
                                    } else {
                                        assert(c[i] == ct[i - ca.len()]);
                                    }
                                }
                            }
                            assert(c.last() == ct.last());
                            assert(c[0] == ca[0]);
                        }
                    } else {
                        assert(y != t);
                        assert(old_chains[y] == chains[y]);
                        assert(f.blocks@[y] == before[y]);
                    }
                }
                assert forall|y: int| 0 <= y < n && (#[trigger] chains[y]) is None implies y != 0 && f.blocks@[y].term == Term::Jmp(y as u32) && f.blocks@[y].instrs@.len() == 0 by {
                    if y != t {
                        assert(old_chains[y] == chains[y]);
                        assert(f.blocks@[y] == before[y]);
                    }
                }
                // the chains stay disjoint
                assert forall|y1: int, i1: int, y2: int, i2: int|
                    0 <= y1 < chains.len() && 0 <= y2 < chains.len() && chains[y1] is Some && chains[y2] is Some && 0 <= i1
                        < chains[y1]->0.len() && 0 <= i2 < chains[y2]->0.len() && #[trigger] chains[y1]->0[i1]
                        == #[trigger] chains[y2]->0[i2] implies y1 == y2 && i1 == i2 by {
                    let o1 = if y1 == a { if i1 < ca.len() { a as int } else { t as int } } else { y1 };
                    let p1 = if y1 == a && i1 >= ca.len() { i1 - ca.len() } else { i1 };
                    let o2 = if y2 == a { if i2 < ca.len() { a as int } else { t as int } } else { y2 };
                    let p2 = if y2 == a && i2 >= ca.len() { i2 - ca.len() } else { i2 };
                    assert(old_chains[o1] is Some);
                    assert(old_chains[o2] is Some);
                    assert(chains[y1]->0[i1] == old_chains[o1]->0[p1]);
                    assert(chains[y2]->0[i2] == old_chains[o2]->0[p2]);
                    assert(o1 == o2 && p1 == p2);
                }
                // edges into each block
                assert forall|z: int| 0 <= z < n implies #[trigger] preds@[z] == usize::MAX || edges_into(f.blocks@, chains, z, n as int) <= preds@[z] by {
                    lemma_edges_update(before, old_chains, t as int, stub, None, z, n as int);
                    lemma_edges_update(mid, mid_c, a as int, blk, Some(ca + ct), z, n as int);
                    lemma_occurrences_terms(before[a as int].term, z);
                    assert(mid[a as int] == before[a as int]);
                    assert(mid_c[a as int] == old_chains[a as int]);
                    assert(blk.term == before[t as int].term);
                    if z == t {
                        lemma_edges_two(before, old_chains, a as int, t as int, z, n as int);
                    }
                }
                // jumps and branches stay among merged blocks
                assert forall|y: int, k: int|
                    0 <= y < n && chains[y] is Some && 0 <= k < succs(f.blocks@[y].term).len() implies {
                        &&& 0 <= #[trigger] succs(f.blocks@[y].term)[k] < n
                        &&& chains[succs(f.blocks@[y].term)[k] as int] is Some
                    } by {
                    let src = if y == a { t as int } else { y };
                    assert(f.blocks@[y].term == before[src].term);
                    assert(old_chains[src] is Some);
                    let z = succs(f.blocks@[y].term)[k] as int;
                    assert(succs(before[src].term)[k] == z);
                    if z == t {
                        lemma_edges_update(before, old_chains, t as int, stub, None, z, n as int);
                        lemma_edges_update(mid, mid_c, a as int, blk, Some(ca + ct), z, n as int);
                        lemma_occurrences_terms(before[a as int].term, z);
                        lemma_edges_two(before, old_chains, a as int, t as int, z, n as int);
                        lemma_edges_one(f.blocks@, chains, y, z, n as int);
                        lemma_occurrences_zero(succs(f.blocks@[y].term), z);
                    }
                }
            }
        }
        a = a + 1;
    }
    proof {
        lemma_func_ok_blocks(*f, ar@, nstr@);
        assert(blocks_merged(*old(f), *f, chains));
        if writes_once(old(f).blocks@) {
            lemma_blocks_merged_writes(*old(f), *f, chains);
        }
        if entry_never_entered(*old(f)) {
            lemma_blocks_merged_entry(*old(f), *f, chains, ar@, nstr@);
        }
    }
}

/// Number of set entries among the first `k`.
pub open spec fn count_set(s: Seq<bool>, k: int) -> nat
    decreases k,
{
    if k <= 0 {
        0
    } else {
        count_set(s, k - 1) + if s[k - 1] { 1nat } else { 0nat }
    }
}

proof fn lemma_count_set_mark(s: Seq<bool>, t: int, k: int)
    requires
        0 <= t < s.len(),
        !s[t],
        0 <= k <= s.len(),
    ensures
        count_set(s.update(t, true), k) == count_set(s, k) + (if t < k { 1nat } else { 0nat }),
    decreases k,
{
    if k > 0 {
        lemma_count_set_mark(s, t, k - 1);
    }
}

pub(crate) proof fn lemma_count_set_le(s: Seq<bool>, k: int)
    requires
        0 <= k,
    ensures
        count_set(s, k) <= k,
    decreases k,
{
    if k > 0 {
        lemma_count_set_le(s, k - 1);
    }
}

pub(crate) proof fn lemma_count_set_mono(s: Seq<bool>, j: int, k: int)
    requires
        0 <= j <= k,
    ensures
        count_set(s, j) <= count_set(s, k),
        j < k && s[j] ==> count_set(s, j) < count_set(s, k),
    decreases k,
{
    if j < k {
        lemma_count_set_mono(s, j, k - 1);
    }
}

/// Marks the blocks reachable from the entry.
fn reachable(f: &Func, ar: Ghost<Seq<int>>, nstr: Ghost<int>) -> (reach: Vec<bool>)
    requires
        func_ok(*f, ar@, nstr@),
    ensures
        reach@.len() == f.blocks@.len(),
        reach@[0],
        forall|b: int, k: int|
            0 <= b < reach@.len() && reach@[b] && 0 <= k < succs(f.blocks@[b].term).len() ==> reach@[#[trigger] succs(f.blocks@[b].term)[k] as int],
        forall|r: Seq<bool>| #[trigger] reach_closed(*f, r) ==> forall|c: int| 0 <= c < reach@.len() && reach@[c] ==> r[c],
{
    proof {
        lemma_func_ok_blocks(*f, ar@, nstr@);
    }
    let n = f.blocks.len();
    let mut reach: Vec<bool> = Vec::new();
    let mut i: usize = 0;
    while i < n
        invariant
            i <= n,
            reach@.len() == i,
            forall|b: int| 0 <= b < i ==> !(#[trigger] reach@[b]),
        decreases n - i,
    {
        reach.push(false);
        i = i + 1;
    }
    proof {
        assert(count_set(reach@, n as int) == 0) by {
            lemma_count_set_zero(reach@, n as int);
        }
    }
    let mut stack: Vec<usize> = Vec::new();
    stack.push(0);
    while stack.len() > 0
        invariant
            n == f.blocks@.len(),
            1 <= n <= u32::MAX,
            reach@.len() == n,
            blocks_wf(f.blocks@, f.temps as int, f.slots as int, ar@, nstr@),
            forall|j: int| 0 <= j < stack@.len() ==> (#[trigger] stack@[j]) < n,
            reach@[0] || (stack@.len() > 0 && stack@[0] == 0),
            forall|b: int, k: int|
                0 <= b < n && reach@[b] && 0 <= k < succs(f.blocks@[b].term).len() ==> {
                    ||| reach@[#[trigger] succs(f.blocks@[b].term)[k] as int]
                    ||| stack@.contains(succs(f.blocks@[b].term)[k] as usize)
                },
            forall|r: Seq<bool>|
                #[trigger] reach_closed(*f, r) ==> (forall|c: int| 0 <= c < n && reach@[c] ==> r[c]) && (forall|j: int|
                    0 <= j < stack@.len() ==> r[stack@[j] as int]),
        decreases n - count_set(reach@, n as int), stack@.len(),
    {
        proof {
            lemma_count_set_le(reach@, n as int);
        }
        let ghost st = stack@;
        let b = stack.pop().unwrap();
        assert(stack@ == st.drop_last());
        proof {
            assert forall|r: Seq<bool>| #[trigger] reach_closed(*f, r) implies r[b as int] && (forall|j: int|
                0 <= j < stack@.len() ==> r[stack@[j] as int]) by {
                assert(r[st[st.len() - 1] as int]);
                assert forall|j: int| 0 <= j < stack@.len() implies r[stack@[j] as int] by {
                    assert(stack@[j] == st[j]);
                }
            }
        }
        if reach[b] {
            proof {
                assert forall|c: int, k: int|
                    0 <= c < n && reach@[c] && 0 <= k < succs(f.blocks@[c].term).len() implies {
                        ||| reach@[#[trigger] succs(f.blocks@[c].term)[k] as int]
                        ||| stack@.contains(succs(f.blocks@[c].term)[k] as usize)
                    } by {
                    let x = succs(f.blocks@[c].term)[k] as usize;
                    if !reach@[x as int] {
                        let q = choose|q: int| 0 <= q < st.len() && st[q] == x;
                        if q == st.len() - 1 {
                            assert(x == b);
                        } else {
                            assert(stack@[q] == x);
                        }
                    }
                }
            }
            continue;
        }
        let ghost r0 = reach@;
        reach.set(b, true);
        proof {
            lemma_count_set_mark(r0, b as int, n as int);
            lemma_count_set_le(reach@, n as int);
        }
        assert(block_wf(f.blocks@[b as int], f.temps as int, f.slots as int, ar@, nstr@, n as int));
        let ghost st2 = stack@;
        let ghost r1 = reach@;
        match f.blocks[b].term {
            Term::Jmp(t) => {
                stack.push(t as usize);
            },
            Term::Br { t, f: fb, .. } => {
                stack.push(t as usize);
                stack.push(fb as usize);
            },
            _ => {},
        }
        proof {
            assert forall|r: Seq<bool>| #[trigger] reach_closed(*f, r) implies (forall|c: int| 0 <= c < n && reach@[c] ==> r[c]) && (forall|j: int|
                0 <= j < stack@.len() ==> r[stack@[j] as int]) by {
                assert(r[b as int]);
                assert forall|j: int| 0 <= j < stack@.len() implies r[stack@[j] as int] by {
                    if j < st2.len() {
                        assert(stack@[j] == st2[j]);
                    } else {
                        let tb = f.blocks@[b as int].term;
                        match tb {
                            Term::Jmp(t) => {
                                assert(succs(tb)[0] == t);
                                assert(stack@[j] == t);
                            },
                            Term::Br { t, f: fb, .. } => {
                                assert(succs(tb)[0] == t);
                                assert(succs(tb)[1] == fb);
                            },
                            _ => {},
                        }
                    }
                }
                assert forall|c: int| 0 <= c < n && reach@[c] implies r[c] by {
                    if c != b {
                        assert(r1[c]);
                    }
                }
            }
            assert forall|c: int, k: int|
                0 <= c < n && reach@[c] && 0 <= k < succs(f.blocks@[c].term).len() implies {
                    ||| reach@[#[trigger] succs(f.blocks@[c].term)[k] as int]
                    ||| stack@.contains(succs(f.blocks@[c].term)[k] as usize)
                } by {
                let x = succs(f.blocks@[c].term)[k] as usize;
                if c == b {
                    match f.blocks@[b as int].term {
                        Term::Jmp(t) => {
                            assert(stack@[stack@.len() - 1] == x);
                        },
                        Term::Br { t, f: fb, .. } => {
                            if k == 0 {
                                assert(stack@[stack@.len() - 2] == x);
                            } else {
                                assert(stack@[stack@.len() - 1] == x);
                            }
                        },
                        _ => {},
                    }
                } else if !reach@[x as int] {
                    assert(r0[c]);
                    assert(!r0[x as int]);
                    let q = choose|q: int| 0 <= q < st.len() && st[q] == x;
                    if q == st.len() - 1 {
                        assert(x == b);
                    } else {
                        assert(st2[q] == x);
                        assert(stack@[q] == x);
                    }
                }
            }
        }
    }
    reach
}

proof fn lemma_count_set_full(s: Seq<bool>, k: int)
    requires
        0 <= k <= s.len(),
        forall|j: int| 0 <= j < k ==> s[j],
    ensures
        count_set(s, k) == k,
    decreases k,
{
    if k > 0 {
        lemma_count_set_full(s, k - 1);
    }
}

proof fn lemma_count_set_zero(s: Seq<bool>, k: int)
    requires
        0 <= k <= s.len(),
        forall|b: int| 0 <= b < k ==> !(#[trigger] s[b]),
    ensures
        count_set(s, k) == 0,
    decreases k,
{
    if k > 0 {
        lemma_count_set_zero(s, k - 1);
    }
}

/// Removes the blocks that the entry cannot reach, renumbering the rest in
/// order.
fn remove_unreachable(f: &mut Func, stats: &mut Stats, ar: Ghost<Seq<int>>, nstr: Ghost<int>)
    requires
        func_ok(*old(f), ar@, nstr@),
    ensures
        func_ok(*final(f), ar@, nstr@),
        same_header(*final(f), *old(f)),
        final(f).blocks@.len() <= old(f).blocks@.len(),
        stats_grew(*old(stats), *final(stats)),
        exists|reach: Seq<bool>| blocks_kept(*old(f), *final(f), reach),
        instr_count(final(f).blocks@) <= instr_count(old(f).blocks@),
        *final(stats) == (Stats { blocks_removed: final(stats).blocks_removed, ..*old(stats) }),
        all_reachable(*old(f)) ==> final(stats).blocks_removed == old(stats).blocks_removed && final(f).blocks@ == old(f).blocks@,
        writes_once(old(f).blocks@) ==> writes_once(final(f).blocks@),
        entry_never_entered(*old(f)) ==> entry_never_entered(*final(f)),
        final(stats).blocks_removed == old(stats).blocks_removed && old(stats).blocks_removed < usize::MAX ==> {
            &&& final(f).blocks@ == old(f).blocks@
            &&& all_reachable(*final(f))
        },
{
    let reach = reachable(f, ar, nstr);
    proof {
        lemma_func_ok_blocks(*f, ar@, nstr@);
    }
    let n = f.blocks.len();
    let mut all = true;
    let mut i: usize = 0;
    while i < n
        invariant
            i <= n,
            reach@.len() == n,
            all ==> forall|j: int| 0 <= j < i ==> reach@[j],
            !all ==> exists|j: int| 0 <= j < i && !reach@[j],
        decreases n - i,
    {
        if !reach[i] {
            all = false;
        }
        i = i + 1;
    }
    proof {
        if all_reachable(*old(f)) {
            assert(reach_closed(*old(f), reach@));
            assert forall|j: int| 0 <= j < n implies reach@[j] by {}
        }
    }
    if all {
        proof {
            lemma_count_set_full(reach@, n as int);
            assert forall|b: int| 0 <= b < n && reach@[b] implies {
                &&& f.blocks@[count_set(reach@, b) as int].instrs == (#[trigger] f.blocks@[b]).instrs
                &&& f.blocks@[count_set(reach@, b) as int].term == renumbered_term(f.blocks@[b].term, reach@)
            } by {
                lemma_count_set_full(reach@, b);
                assert(block_wf(f.blocks@[b], f.temps as int, f.slots as int, ar@, nstr@, n as int));
                match f.blocks@[b].term {
                    Term::Jmp(t) => {
                        lemma_count_set_full(reach@, t as int);
                    },
                    Term::Br { t, f: fb, .. } => {
                        lemma_count_set_full(reach@, t as int);
                        lemma_count_set_full(reach@, fb as int);
                    },
                    _ => {},
                }
            }
            assert(blocks_kept(*old(f), *f, reach@));
            assert(all_reachable(*f)) by {
                assert(forall|b: int| 0 <= b < reach@.len() ==> #[trigger] reach@[b]);
            }
            if writes_once(old(f).blocks@) {
                lemma_blocks_kept_writes(*old(f), *f, reach@);
            }
            if entry_never_entered(*old(f)) {
                lemma_blocks_kept_entry(*old(f), *f, reach@, ar@, nstr@);
            }
        }
        return;
    }
    let mut remap: Vec<u32> = Vec::new();
    let mut next: u32 = 0;
    let mut i: usize = 0;
    while i < n
        invariant
            n == f.blocks@.len(),
            n <= u32::MAX,
            i <= n,
            reach@.len() == n,
            remap@.len() == i,
            next == count_set(reach@, i as int),
            forall|j: int| 0 <= j < i && reach@[j] ==> (#[trigger] remap@[j]) == count_set(reach@, j),
        decreases n - i,
    {
        proof {
            lemma_count_set_le(reach@, i as int);
        }
        if reach[i] {
            remap.push(next);
            next = next + 1;
        } else {
            remap.push(0);
        }
        i = i + 1;
    }
    let ghost total = count_set(reach@, n as int);
    proof {
        lemma_count_set_mono(reach@, 0, n as int);
        lemma_count_set_le(reach@, n as int);
    }
    let ghost ob = f.blocks@;
    let mut old_blocks: Vec<BasicBlock> = Vec::new();
    std::mem::swap(&mut old_blocks, &mut f.blocks);
    let mut i: usize = 0;
    while i < n
        invariant
            n == old_blocks@.len(),
            ob.len() == n,
            i <= n,
            1 <= total <= n <= u32::MAX,
            total == count_set(reach@, n as int),
            reach@.len() == n,
            remap@.len() == n,
            forall|j: int| 0 <= j < n && reach@[j] ==> (#[trigger] remap@[j]) == count_set(reach@, j),
            forall|j: int| i <= j < n ==> old_blocks@[j] == ob[j],
            blocks_wf(ob, f.temps as int, f.slots as int, ar@, nstr@),
            forall|b: int, k: int|
                0 <= b < n && reach@[b] && 0 <= k < succs(ob[b].term).len() ==> reach@[#[trigger] succs(ob[b].term)[k] as int],
            f.blocks@.len() == count_set(reach@, i as int),
            instr_count(f.blocks@) <= instr_count(ob.take(i as int)),
            *stats == (Stats { blocks_removed: stats.blocks_removed, ..*old(stats) }),
            ob == old(f).blocks@,
            (exists|j: int| 0 <= j < i && !reach@[j]) && old(stats).blocks_removed < usize::MAX ==> stats.blocks_removed
                != old(stats).blocks_removed,
            forall|b: int| 0 <= b < f.blocks@.len() ==> block_wf(#[trigger] f.blocks@[b], f.temps as int, f.slots as int, ar@, nstr@, total as int),
            same_header(*f, *old(f)),
            stats_grew(*old(stats), *stats),
            forall|c: int|
                0 <= c < i && reach@[c] ==> {
                    &&& f.blocks@[count_set(reach@, c) as int].instrs == (#[trigger] ob[c]).instrs
                    &&& f.blocks@[count_set(reach@, c) as int].term == renumbered_term(ob[c].term, reach@)
                },
        decreases n - i,
    {
        let mut b = BasicBlock { instrs: Vec::new(), term: Term::Unset, line: 0 };
        std::mem::swap(&mut b, &mut old_blocks[i]);
        proof {
            lemma_count_set_mono(reach@, i as int, n as int);
            lemma_instr_count_take(ob, i as int);
        }
        if !reach[i] {
            stats.blocks_removed = inc(stats.blocks_removed);
        } else {
            assert(block_wf(ob[i as int], f.temps as int, f.slots as int, ar@, nstr@, n as int));
            match b.term {
                Term::Jmp(t) => {
                    proof {
                        assert(succs(ob[i as int].term)[0] == t);
                        lemma_count_set_mono(reach@, t as int, n as int);
                    }
                    b.term = Term::Jmp(remap[t as usize]);
                },
                Term::Br { cond, t, f: fb } => {
                    proof {
                        assert(succs(ob[i as int].term)[0] == t);
                        assert(succs(ob[i as int].term)[1] == fb);
                        lemma_count_set_mono(reach@, t as int, n as int);
                        lemma_count_set_mono(reach@, fb as int, n as int);
                    }
                    b.term = Term::Br { cond, t: remap[t as usize], f: remap[fb as usize] };
                },
                _ => {},
            }
            let ghost prev = f.blocks@;
            f.blocks.push(b);
            proof {
                assert(f.blocks@.drop_last() =~= prev);
                assert(b.instrs == ob[i as int].instrs);
                assert forall|c: int| 0 <= c < f.blocks@.len() implies block_wf(#[trigger] f.blocks@[c], f.temps as int, f.slots as int, ar@, nstr@, total as int) by {
                    if c < prev.len() {
                        assert(f.blocks@[c] == prev[c]);
                    }
                }
                assert forall|c: int|
                    0 <= c < i + 1 && reach@[c] implies {
                        &&& f.blocks@[count_set(reach@, c) as int].instrs == (#[trigger] ob[c]).instrs
                        &&& f.blocks@[count_set(reach@, c) as int].term == renumbered_term(ob[c].term, reach@)
                    } by {
                    if c < i {
                        lemma_count_set_mono(reach@, c, i as int);
                        assert(f.blocks@[count_set(reach@, c) as int] == prev[count_set(reach@, c) as int]);
                    }
                }
            }
        }
        i = i + 1;
    }
    proof {
        assert(blocks_wf(f.blocks@, f.temps as int, f.slots as int, ar@, nstr@));
        lemma_func_ok_blocks(*old(f), ar@, nstr@);
        lemma_func_ok_blocks(*f, ar@, nstr@);
        assert(blocks_kept(*old(f), *f, reach@));
        if writes_once(old(f).blocks@) {
            lemma_blocks_kept_writes(*old(f), *f, reach@);
        }
        if entry_never_entered(*old(f)) {
            lemma_blocks_kept_entry(*old(f), *f, reach@, ar@, nstr@);
        }
        assert(ob.take(n as int) =~= ob);
    }
}

/// No block of `f` branches on a constant.
pub open spec fn no_const_branches(f: Func) -> bool {
    forall|b: int| 0 <= b < f.blocks@.len() ==> folded_term(#[trigger] f.blocks@[b].term) == f.blocks@[b].term
}

/// Every block of `f` can be reached from the entry.
pub open spec fn all_reachable(f: Func) -> bool {
    forall|reach: Seq<bool>| #[trigger] reach_closed(f, reach) ==> forall|b: int| 0 <= b < reach.len() ==> reach[b]
}

/// Functions with the same code read the same temps and load the same
/// slots.
proof fn lemma_same_code_reads(f: Func, g: Func)
    requires
        same_code(f, g),
    ensures
        read_temps(g) == read_temps(f),
        loaded_slots(g) == loaded_slots(f),
{
    let n = f.blocks@.len() as int;
    assert forall|t: int| 0 <= t < f.temps implies blocks_read_before(g.blocks@, t, n) == blocks_read_before(f.blocks@, t, n) by {
        if blocks_read_before(g.blocks@, t, n) {
            let q = choose|q: int| 0 <= q < n && block_reads(#[trigger] g.blocks@[q], t);
            assert(g.blocks@[q].instrs@ == f.blocks@[q].instrs@);
            assert(block_reads(f.blocks@[q], t));
        }
        if blocks_read_before(f.blocks@, t, n) {
            let q = choose|q: int| 0 <= q < n && block_reads(#[trigger] f.blocks@[q], t);
            assert(g.blocks@[q].instrs@ == f.blocks@[q].instrs@);
            assert(block_reads(g.blocks@[q], t));
        }
    }
    assert(read_temps(g) =~= read_temps(f));
    assert forall|x: int| 0 <= x < f.slots implies blocks_load_before(g.blocks@, x, n) == blocks_load_before(f.blocks@, x, n) by {
        if blocks_load_before(g.blocks@, x, n) {
            let q = choose|q: int| 0 <= q < n && loads_before((#[trigger] g.blocks@[q]).instrs@, x, g.blocks@[q].instrs@.len() as int);
            assert(g.blocks@[q].instrs@ == f.blocks@[q].instrs@);
            assert(loads_before(f.blocks@[q].instrs@, x, f.blocks@[q].instrs@.len() as int));
        }
        if blocks_load_before(f.blocks@, x, n) {
            let q = choose|q: int| 0 <= q < n && loads_before((#[trigger] f.blocks@[q]).instrs@, x, f.blocks@[q].instrs@.len() as int);
            assert(g.blocks@[q].instrs@ == f.blocks@[q].instrs@);
            assert(loads_before(g.blocks@[q].instrs@, x, g.blocks@[q].instrs@.len() as int));
        }
    }
    assert(loaded_slots(g) =~= loaded_slots(f));
}

/// The counters that decide when a round of passes stops have not reached
/// their maximum.
pub open spec fn counters_below_max(s: Stats) -> bool {
    &&& s.folded < usize::MAX
    &&& s.forwarded < usize::MAX
    &&& s.dead_temps < usize::MAX
    &&& s.dead_stores < usize::MAX
    &&& s.branches_folded < usize::MAX
    &&& s.jumps_threaded < usize::MAX
    &&& s.blocks_removed < usize::MAX
}

/// Equivalent instructions touch the same slots and fold alike, so loads
/// are forwarded alike.
proof fn lemma_eqv_forwarded(s: Seq<Instr>, s2: Seq<Instr>, k: int)
    requires
        s2.len() == s.len(),
        forall|j: int| 0 <= j < s.len() ==> instr_eqv(s[j], #[trigger] s2[j]),
        0 <= k < s.len(),
    ensures
        forwarded_load(s2, k) == forwarded_load(s, k),
{
    assert(instr_eqv(s[k], s2[k]));
    if s[k] is Load {
        let x = s[k]->Load_slot;
        if slot_seen(s, k, x) {
            let j = choose|j: int| 0 <= j < k && touches_slot(#[trigger] s[j], x);
            assert(instr_eqv(s[j], s2[j]));
            assert(touches_slot(s2[j], x));
        }
        if slot_seen(s2, k, x) {
            let j = choose|j: int| 0 <= j < k && touches_slot(#[trigger] s2[j], x);
            assert(instr_eqv(s[j], s2[j]));
            assert(touches_slot(s[j], x));
        }
    }
}

proof fn lemma_code_eqv_symm(f: Func, g: Func)
    requires
        code_eqv(f, g),
    ensures
        code_eqv(g, f),
{
    assert forall|b: int| 0 <= b < g.blocks@.len() implies block_code_eqv(g.blocks@[b], #[trigger] f.blocks@[b]) by {
        assert(block_code_eqv(f.blocks@[b], g.blocks@[b]));
        assert forall|k: int| 0 <= k < g.blocks@[b].instrs@.len() implies instr_eqv(g.blocks@[b].instrs@[k], #[trigger] f.blocks@[b].instrs@[k]) by {
            assert(instr_eqv(f.blocks@[b].instrs@[k], g.blocks@[b].instrs@[k]));
        }
    }
}

/// Every pass finds nothing to do in `f`: it is what optimizing leaves.
pub open spec fn optimized(f: Func) -> bool {
    &&& nothing_folds(f)
    &&& nothing_forwards(f)
    &&& no_dead_code(f)
    &&& no_const_branches(f)
    &&& nothing_to_thread(f)
    &&& nothing_to_merge(f)
    &&& all_reachable(f)
}

proof fn lemma_code_eqv_trans(f: Func, g: Func, h: Func)
    requires
        code_eqv(f, g),
        code_eqv(g, h),
    ensures
        code_eqv(f, h),
{
    assert forall|b: int| 0 <= b < f.blocks@.len() implies block_code_eqv(f.blocks@[b], #[trigger] h.blocks@[b]) by {
        assert(block_code_eqv(f.blocks@[b], g.blocks@[b]));
        assert(block_code_eqv(g.blocks@[b], h.blocks@[b]));
        assert forall|k: int| 0 <= k < f.blocks@[b].instrs@.len() implies instr_eqv(f.blocks@[b].instrs@[k], #[trigger] h.blocks@[b].instrs@[k]) by {
            assert(instr_eqv(f.blocks@[b].instrs@[k], g.blocks@[b].instrs@[k]));
            assert(instr_eqv(g.blocks@[b].instrs@[k], h.blocks@[b].instrs@[k]));
        }
    }
}

proof fn lemma_same_code_eqv(f: Func, g: Func)
    requires
        same_code(f, g),
    ensures
        code_eqv(f, g),
{
    assert forall|b: int| 0 <= b < f.blocks@.len() implies block_code_eqv(f.blocks@[b], #[trigger] g.blocks@[b]) by {
        assert(g.blocks@[b].instrs@ == f.blocks@[b].instrs@);
    }
}

proof fn lemma_blocks_eq_eqv(f: Func, g: Func)
    requires
        g.blocks@ == f.blocks@,
        g.temps == f.temps,
        g.slots == f.slots,
    ensures
        code_eqv(f, g),
{
    assert forall|b: int| 0 <= b < f.blocks@.len() implies block_code_eqv(f.blocks@[b], #[trigger] g.blocks@[b]) by {
        assert(g.blocks@[b] == f.blocks@[b]);
    }
}

proof fn lemma_follow_same(f: Func, g: Func, x: int, h: nat, ar: Seq<int>, nstr: int)
    requires
        func_ok(f, ar, nstr),
        0 <= x < f.blocks@.len(),
        g.blocks@.len() == f.blocks@.len(),
        forall|y: int| 0 <= y < f.blocks@.len() ==> #[trigger] empty_jump(f, y) == empty_jump(g, y),
    ensures
        follow(f, x, h) == follow(g, x, h),
        0 <= follow(f, x, h) < f.blocks@.len(),
    decreases h,
{
    if h > 0 {
        if let Some(y) = empty_jump(f, x) {
            assert(block_ok(f.blocks@[x], f, ar, nstr));
            lemma_follow_same(f, g, y as int, (h - 1) as nat, ar, nstr);
        }
    }
}

proof fn lemma_chain_end_same(f: Func, g: Func, x: int, r: int, ar: Seq<int>, nstr: int)
    requires
        func_ok(f, ar, nstr),
        0 <= x < f.blocks@.len(),
        g.blocks@.len() == f.blocks@.len(),
        forall|y: int| 0 <= y < f.blocks@.len() ==> #[trigger] empty_jump(f, y) == empty_jump(g, y),
        chain_end(f, x, r),
    ensures
        chain_end(g, x, r),
{
    let h = choose|h: nat|
        {
            &&& h <= 65
            &&& forall|j: nat| j < h ==> (#[trigger] empty_jump(f, follow(f, x, j))) is Some
            &&& follow(f, x, h) == r
            &&& (h == 65 || empty_jump(f, r) is None || empty_jump(f, r) == Some(r as u32))
        };
    lemma_follow_same(f, g, x, h, ar, nstr);
    assert forall|j: nat| j < h implies (#[trigger] empty_jump(g, follow(g, x, j))) is Some by {
        lemma_follow_same(f, g, x, j, ar, nstr);
        assert(empty_jump(f, follow(f, x, j)) is Some);
    }
}

proof fn lemma_edges_terms(bs: Seq<BasicBlock>, bs2: Seq<BasicBlock>, ch: Seq<Option<Seq<int>>>, z: int, n: int)
    requires
        0 <= n <= bs.len(),
        bs2.len() == bs.len(),
        forall|b: int| 0 <= b < bs.len() ==> (#[trigger] bs2[b]).term == bs[b].term,
    ensures
        edges_into(bs2, ch, z, n) == edges_into(bs, ch, z, n),
    decreases n,
{
    if n > 0 {
        lemma_edges_terms(bs, bs2, ch, z, n - 1);
        assert(bs2[n - 1].term == bs[n - 1].term);
    }
}

/// Equivalent code folds, forwards and holds dead code alike.
proof fn lemma_eqv_instr_facts(f: Func, g: Func, ar: Seq<int>, nstr: int)
    requires
        code_eqv(f, g),
        func_ok(f, ar, nstr),
        nothing_folds(f) && nothing_forwards(f) && no_dead_code(f),
    ensures
        nothing_folds(g) && nothing_forwards(g) && no_dead_code(g),
{
    let n = f.blocks@.len() as int;
    // instructions
    assert forall|b: int, k: int|
        0 <= b < g.blocks@.len() && 0 <= k < g.blocks@[b].instrs@.len() implies (#[trigger] folds_to(g.blocks@[b].instrs@[k])) is None by {
        assert(block_code_eqv(f.blocks@[b], g.blocks@[b]));
        assert(instr_eqv(f.blocks@[b].instrs@[k], g.blocks@[b].instrs@[k]));
        assert(folds_to(f.blocks@[b].instrs@[k]) is None);
    }
    assert forall|b: int, k: int| 0 <= b < g.blocks@.len() && 0 <= k < g.blocks@[b].instrs@.len() implies !#[trigger] forwarded_load(g.blocks@[b].instrs@, k) by {
        assert(block_code_eqv(f.blocks@[b], g.blocks@[b]));
        lemma_eqv_forwarded(f.blocks@[b].instrs@, g.blocks@[b].instrs@, k);
        assert(!forwarded_load(f.blocks@[b].instrs@, k));
    }
    // reads and loads
    assert forall|t: int| 0 <= t < f.temps implies blocks_read_before(g.blocks@, t, n) == blocks_read_before(f.blocks@, t, n) by {
        assert forall|q: int| 0 <= q < n implies block_reads(#[trigger] g.blocks@[q], t) == block_reads(f.blocks@[q], t) by {
            let a = f.blocks@[q].instrs@;
            let c = g.blocks@[q].instrs@;
            assert(block_code_eqv(f.blocks@[q], g.blocks@[q]));
            assert forall|j: int| 0 <= j < a.len() implies instr_reads(#[trigger] c[j], t) == instr_reads(a[j], t) by {
                assert(instr_eqv(a[j], c[j]));
            }
            if instrs_read_before(c, t, c.len() as int) {
                let j = choose|j: int| 0 <= j < c.len() && instr_reads(#[trigger] c[j], t);
                assert(instr_reads(a[j], t));
            }
            if instrs_read_before(a, t, a.len() as int) {
                let j = choose|j: int| 0 <= j < a.len() && instr_reads(#[trigger] a[j], t);
                assert(instr_reads(c[j], t));
            }
        }
        if blocks_read_before(g.blocks@, t, n) {
            let q = choose|q: int| 0 <= q < n && block_reads(#[trigger] g.blocks@[q], t);
            assert(block_reads(f.blocks@[q], t));
        }
        if blocks_read_before(f.blocks@, t, n) {
            let q = choose|q: int| 0 <= q < n && block_reads(#[trigger] f.blocks@[q], t);
            assert(block_reads(g.blocks@[q], t));
        }
    }
    assert(read_temps(g) =~= read_temps(f));
    assert forall|x: int| 0 <= x < f.slots implies blocks_load_before(g.blocks@, x, n) == blocks_load_before(f.blocks@, x, n) by {
        assert forall|q: int| 0 <= q < n implies loads_before((#[trigger] g.blocks@[q]).instrs@, x, g.blocks@[q].instrs@.len() as int)
            == loads_before(f.blocks@[q].instrs@, x, f.blocks@[q].instrs@.len() as int) by {
            let a = f.blocks@[q].instrs@;
            let c = g.blocks@[q].instrs@;
            assert(block_code_eqv(f.blocks@[q], g.blocks@[q]));
            if loads_before(c, x, c.len() as int) {
                let j = choose|j: int| 0 <= j < c.len() && (#[trigger] c[j]) is Load && c[j]->Load_slot == x;
                assert(instr_eqv(a[j], c[j]));
            }
            if loads_before(a, x, a.len() as int) {
                let j = choose|j: int| 0 <= j < a.len() && (#[trigger] a[j]) is Load && a[j]->Load_slot == x;
                assert(instr_eqv(a[j], c[j]));
            }
        }
        if blocks_load_before(g.blocks@, x, n) {
            let q = choose|q: int| 0 <= q < n && loads_before((#[trigger] g.blocks@[q]).instrs@, x, g.blocks@[q].instrs@.len() as int);
            assert(loads_before(f.blocks@[q].instrs@, x, f.blocks@[q].instrs@.len() as int));
        }
        if blocks_load_before(f.blocks@, x, n) {
            let q = choose|q: int| 0 <= q < n && loads_before((#[trigger] f.blocks@[q]).instrs@, x, f.blocks@[q].instrs@.len() as int);
            assert(loads_before(g.blocks@[q].instrs@, x, g.blocks@[q].instrs@.len() as int));
        }
    }
    assert(loaded_slots(g) =~= loaded_slots(f));
    assert forall|b: int, k: int|
        0 <= b < g.blocks@.len() && 0 <= k < g.blocks@[b].instrs@.len() implies {
            &&& !droppable(#[trigger] g.blocks@[b].instrs@[k], read_temps(g), all_live(g.slots as nat))
            &&& !droppable(g.blocks@[b].instrs@[k], all_live(g.temps as nat), loaded_slots(g))
        } by {
        assert(block_code_eqv(f.blocks@[b], g.blocks@[b]));
        assert(instr_eqv(f.blocks@[b].instrs@[k], g.blocks@[b].instrs@[k]));
        assert(!droppable(f.blocks@[b].instrs@[k], read_temps(f), all_live(f.slots as nat)));
        assert(!droppable(f.blocks@[b].instrs@[k], all_live(f.temps as nat), loaded_slots(f)));
    }
}

/// Equivalent code branches on constants alike.
proof fn lemma_eqv_branches(f: Func, g: Func, ar: Seq<int>, nstr: int)
    requires
        code_eqv(f, g),
        func_ok(f, ar, nstr),
        no_const_branches(f),
    ensures
        no_const_branches(g),
{
    let n = f.blocks@.len() as int;
    // terminators
    assert forall|b: int| 0 <= b < n implies (#[trigger] g.blocks@[b]).term == f.blocks@[b].term by {
        assert(block_code_eqv(f.blocks@[b], g.blocks@[b]));
    }
    assert forall|b: int| 0 <= b < g.blocks@.len() implies folded_term(#[trigger] g.blocks@[b].term) == g.blocks@[b].term by {
        assert(folded_term(f.blocks@[b].term) == f.blocks@[b].term);
    }
}

/// Equivalent code threads alike.
proof fn lemma_eqv_thread(f: Func, g: Func, ar: Seq<int>, nstr: int)
    requires
        code_eqv(f, g),
        func_ok(f, ar, nstr),
        nothing_to_thread(f),
    ensures
        nothing_to_thread(g),
{
    let n = f.blocks@.len() as int;
    // terminators
    assert forall|b: int| 0 <= b < n implies (#[trigger] g.blocks@[b]).term == f.blocks@[b].term by {
        assert(block_code_eqv(f.blocks@[b], g.blocks@[b]));
    }
    assert forall|y: int| 0 <= y < n implies #[trigger] empty_jump(f, y) == empty_jump(g, y) by {
        assert(block_code_eqv(f.blocks@[y], g.blocks@[y]));
    }
    assert(!swaps_entry(g)) by {
        assert(empty_jump(f, 0) == empty_jump(g, 0));
        if swaps_entry(g) {
            let t = empty_jump(g, 0)->0 as int;
            assert forall|j: int, k: int| 1 <= j < n && 0 <= k < succs(f.blocks@[j].term).len() implies #[trigger] succs(
                f.blocks@[j].term,
            )[k] != t by {
                assert(g.blocks@[j].term == f.blocks@[j].term);
            }
            assert(swaps_entry(f));
        }
    }
    assert forall|b: int, k: int|
        0 <= b < g.blocks@.len() && 0 <= k < succs(g.blocks@[b].term).len() implies chain_end(
            g,
            #[trigger] succs(g.blocks@[b].term)[k] as int,
            succs(g.blocks@[b].term)[k] as int,
        ) by {
        assert(g.blocks@[b].term == f.blocks@[b].term);
        let e = succs(f.blocks@[b].term)[k] as int;
        assert(chain_end(f, e, e));
        assert(block_ok(f.blocks@[b], f, ar, nstr));
        let tb = f.blocks@[b].term;
        match tb {
            Term::Jmp(x) => {
                assert(succs(tb)[0] == x);
            },
            Term::Br { t: x, f: y, .. } => {
                assert(succs(tb)[0] == x);
                assert(succs(tb)[1] == y);
            },
            _ => {},
        }
        lemma_chain_end_same(f, g, e, e, ar, nstr);
    }
}

/// Equivalent code merges alike.
proof fn lemma_eqv_merge(f: Func, g: Func, ar: Seq<int>, nstr: int)
    requires
        code_eqv(f, g),
        func_ok(f, ar, nstr),
        nothing_to_merge(f),
    ensures
        nothing_to_merge(g),
{
    let n = f.blocks@.len() as int;
    // terminators
    assert forall|b: int| 0 <= b < n implies (#[trigger] g.blocks@[b]).term == f.blocks@[b].term by {
        assert(block_code_eqv(f.blocks@[b], g.blocks@[b]));
    }
    assert forall|a: int| 0 <= a < g.blocks@.len() implies #[trigger] no_merge_at(g, a) by {
        assert(no_merge_at(f, a));
        if g.blocks@[a].term is Jmp {
            let t = g.blocks@[a].term->Jmp_0 as int;
            lemma_edges_terms(f.blocks@, g.blocks@, singleton_chains(f.blocks@.len()), t, n);
        }
    }
}

/// Equivalent code reaches alike.
proof fn lemma_eqv_reach(f: Func, g: Func, ar: Seq<int>, nstr: int)
    requires
        code_eqv(f, g),
        func_ok(f, ar, nstr),
        all_reachable(f),
    ensures
        all_reachable(g),
{
    let n = f.blocks@.len() as int;
    // terminators
    assert forall|b: int| 0 <= b < n implies (#[trigger] g.blocks@[b]).term == f.blocks@[b].term by {
        assert(block_code_eqv(f.blocks@[b], g.blocks@[b]));
    }
    assert forall|r: Seq<bool>| #[trigger] reach_closed(g, r) implies forall|b: int| 0 <= b < r.len() ==> r[b] by {
        assert forall|b: int, k: int| 0 <= b < r.len() && r[b] && 0 <= k < succs(f.blocks@[b].term).len() implies r[
            #[trigger] succs(f.blocks@[b].term)[k] as int] by {
            assert(g.blocks@[b].term == f.blocks@[b].term);
        }
        assert(reach_closed(f, r));
    }
}

/// Functions with equivalent code are optimized alike.
pub proof fn lemma_code_eqv_optimized(f: Func, g: Func, ar: Seq<int>, nstr: int)
    requires
        code_eqv(f, g),
        optimized(f),
        func_ok(f, ar, nstr),
    ensures
        optimized(g),
{
    lemma_eqv_instr_facts(f, g, ar, nstr);
    lemma_eqv_branches(f, g, ar, nstr);
    lemma_eqv_thread(f, g, ar, nstr);
    lemma_eqv_merge(f, g, ar, nstr);
    lemma_eqv_reach(f, g, ar, nstr);
}

/// One round of all passes, in order. A round that leaves the counters as
/// they were, none at its maximum, leaves equivalent code in which every
/// pass finds nothing to do; a function in which every pass finds nothing
/// to do goes through a round with the counters unchanged.
fn round(f: &mut Func, stats: &mut Stats, ar: Ghost<Seq<int>>, nstr: Ghost<int>)
    requires
        func_ok(*old(f), ar@, nstr@),
    ensures
        func_ok(*final(f), ar@, nstr@),
        same_header(*final(f), *old(f)),
        writes_once(old(f).blocks@) ==> writes_once(final(f).blocks@),
        entry_never_entered(*old(f)) ==> entry_never_entered(*final(f)),
        stats_grew(*old(stats), *final(stats)),
        final(f).blocks@.len() <= old(f).blocks@.len(),
        instr_count(final(f).blocks@) <= instr_count(old(f).blocks@),
        *final(stats) == *old(stats) && counters_below_max(*old(stats)) ==> optimized(*final(f)) && code_eqv(*old(f), *final(f)),
        optimized(*old(f)) && counters_below_max(*old(stats)) ==> *final(stats) == *old(stats),
{
    let ghost fst = *f;
    fold_and_propagate(f, stats, ar, nstr);
    let ghost fa = *f;
    let ghost sa = *stats;
    forward_stores(f, stats, ar, nstr);
    let ghost fb = *f;
    let ghost sb = *stats;
    dead_temps(f, stats, ar, nstr);
    let ghost fc = *f;
    let ghost sc = *stats;
    dead_stores(f, stats, ar, nstr);
    let ghost f4 = *f;
    let ghost s4 = *stats;
    fold_branches(f, stats, ar, nstr);
    let ghost f5 = *f;
    let ghost s5 = *stats;
    thread_jumps(f, stats, ar, nstr);
    let ghost f6 = *f;
    let ghost s6 = *stats;
    merge_blocks(f, stats, ar, nstr);
    let ghost f7 = *f;
    let ghost s7 = *stats;
    remove_unreachable(f, stats, ar, nstr);
    proof {
        // an optimized function goes through a round unchanged
        if optimized(*old(f)) && counters_below_max(*old(stats)) {
            assert(sa.folded == old(stats).folded);
            assert(code_eqv(fst, fa));
            lemma_code_eqv_optimized(fst, fa, ar@, nstr@);
            assert(sb.forwarded == sa.forwarded);
            assert(code_eqv(fa, fb));
            lemma_code_eqv_optimized(fa, fb, ar@, nstr@);
            assert(sc.dead_temps == sb.dead_temps);
            assert(same_code(fb, fc));
            lemma_same_code_eqv(fb, fc);
            lemma_code_eqv_optimized(fb, fc, ar@, nstr@);
            assert(s4.dead_stores == sc.dead_stores);
            assert(same_code(fc, f4));
            lemma_same_code_eqv(fc, f4);
            lemma_code_eqv_optimized(fc, f4, ar@, nstr@);
            assert(s5.branches_folded == s4.branches_folded);
            lemma_blocks_eq_eqv(f4, f5);
            lemma_code_eqv_optimized(f4, f5, ar@, nstr@);
            assert(s6.jumps_threaded == s5.jumps_threaded);
            lemma_blocks_eq_eqv(f5, f6);
            lemma_code_eqv_optimized(f5, f6, ar@, nstr@);
            assert(s7.jumps_threaded == s6.jumps_threaded);
            lemma_blocks_eq_eqv(f6, f7);
            lemma_code_eqv_optimized(f6, f7, ar@, nstr@);
            assert(stats.blocks_removed == s7.blocks_removed);
            assert(*stats == *old(stats));
        }
    }
    proof {
        if *stats == *old(stats) {
            if counters_below_max(*stats) {
                assert(s5.jumps_threaded == s6.jumps_threaded);
                assert(s6.jumps_threaded == s7.jumps_threaded);
                assert(s7.blocks_removed == stats.blocks_removed);
                assert(f7.blocks@ == f6.blocks@);
                assert(f6.blocks@ == f5.blocks@);
                assert(f.blocks@ == f7.blocks@);
                assert(branches_folded(f4, f5));
                assert forall|b: int| 0 <= b < f.blocks@.len() implies folded_term(#[trigger] f.blocks@[b].term) == f.blocks@[b].term by {
                    assert(f.blocks@[b] == f5.blocks@[b]);
                    assert(f5.blocks@[b].term == folded_term(f4.blocks@[b].term));
                }
                // dead-code removal found nothing, and nothing after it changed the code
                assert(sb.dead_temps == sc.dead_temps);
                assert(sc.dead_stores == s4.dead_stores);
                assert(s4.branches_folded == s5.branches_folded);
                assert(f5.blocks@ == f4.blocks@);
                assert(same_code(fb, fc));
                assert(same_code(fc, f4));
                assert(same_code(fc, *f)) by {
                    assert forall|b: int| 0 <= b < fc.blocks@.len() implies (#[trigger] f.blocks@[b]).instrs@ == fc.blocks@[b].instrs@ && f.blocks@[b].term == fc.blocks@[b].term by {
                        assert(f.blocks@[b] == f4.blocks@[b]);
                    }
                }
                assert(same_code(fb, *f)) by {
                    assert forall|b: int| 0 <= b < fb.blocks@.len() implies (#[trigger] f.blocks@[b]).instrs@ == fb.blocks@[b].instrs@ && f.blocks@[b].term == fb.blocks@[b].term by {
                        assert(f.blocks@[b] == f4.blocks@[b]);
                        assert(fc.blocks@[b].instrs@ == fb.blocks@[b].instrs@);
                    }
                }
                lemma_same_code_reads(fb, *f);
                lemma_same_code_reads(fc, *f);
                // folding and forwarding found nothing either
                assert(old(stats).folded == sa.folded);
                assert(sa.forwarded == sb.forwarded);
                assert(code_eqv(fst, fa));
                assert(code_eqv(fa, fb));
                assert(nothing_folds(fst));
                assert(nothing_forwards(fa));
                assert forall|b: int, k: int|
                    0 <= b < f.blocks@.len() && 0 <= k < f.blocks@[b].instrs@.len() implies (#[trigger] folds_to(f.blocks@[b].instrs@[k])) is None by {
                    assert(block_code_eqv(fst.blocks@[b], fa.blocks@[b]));
                    assert(block_code_eqv(fa.blocks@[b], fb.blocks@[b]));
                    assert(f.blocks@[b].instrs@ == fb.blocks@[b].instrs@);
                    assert(instr_eqv(fst.blocks@[b].instrs@[k], fa.blocks@[b].instrs@[k]));
                    assert(instr_eqv(fa.blocks@[b].instrs@[k], fb.blocks@[b].instrs@[k]));
                    assert(folds_to(fst.blocks@[b].instrs@[k]) is None);
                }
                assert forall|b: int, k: int|
                    0 <= b < f.blocks@.len() && 0 <= k < f.blocks@[b].instrs@.len() implies !#[trigger] forwarded_load(f.blocks@[b].instrs@, k) by {
                    assert(block_code_eqv(fa.blocks@[b], fb.blocks@[b]));
                    assert(f.blocks@[b].instrs@ == fb.blocks@[b].instrs@);
                    lemma_eqv_forwarded(fa.blocks@[b].instrs@, fb.blocks@[b].instrs@, k);
                    assert(!forwarded_load(fa.blocks@[b].instrs@, k));
                }
                assert forall|b: int, k: int|
                    0 <= b < f.blocks@.len() && 0 <= k < f.blocks@[b].instrs@.len() implies {
                        &&& !droppable(#[trigger] f.blocks@[b].instrs@[k], read_temps(*f), all_live(f.slots as nat))
                        &&& !droppable(f.blocks@[b].instrs@[k], all_live(f.temps as nat), loaded_slots(*f))
                    } by {
                    assert(f.blocks@[b].instrs@ == fb.blocks@[b].instrs@);
                    assert(f.blocks@[b].instrs@ == fc.blocks@[b].instrs@);
                    assert(!droppable(fb.blocks@[b].instrs@[k], read_temps(fb), all_live(fb.slots as nat)));
                    assert(!droppable(fc.blocks@[b].instrs@[k], all_live(fc.temps as nat), loaded_slots(fc)));
                }
                lemma_blocks_eq_eqv(f5, *f);
                lemma_eqv_thread(f5, *f, ar@, nstr@);
                lemma_blocks_eq_eqv(f6, *f);
                lemma_eqv_merge(f6, *f, ar@, nstr@);
                assert(optimized(*f));
                // the code of the round's start is the code at its end
                lemma_same_code_eqv(fb, *f);
                lemma_code_eqv_trans(fst, fa, fb);
                lemma_code_eqv_trans(fst, fb, *f);
            }
        }
    }
}

/// Optimizes every function, each until a round of all passes changes
/// nothing; returns what was done. The program stays well formed; each
/// function keeps its name, parameters, slots, temps and return kind, and
/// no function gains blocks or instructions; a function whose temps are
/// each written by at most one instruction keeps them so, as does a
/// function none of whose blocks jumps back to its entry. Unless a counter
/// has reached its maximum, every pass finds nothing left to do in the
/// result. The counters stay zero exactly when every pass already found
/// nothing to do in the program given, which is then left as it was.
#[verifier::rlimit(100)]
pub fn optimize(p: &mut Program) -> (stats: Stats)
    requires
        ir_wf(*old(p)),
    ensures
        ir_wf(*final(p)),
        final(p).funcs@.len() == old(p).funcs@.len(),
        final(p).main == old(p).main,
        final(p).strings@ == old(p).strings@,
        forall|i: int| 0 <= i < final(p).funcs@.len() ==> same_header(#[trigger] final(p).funcs@[i], old(p).funcs@[i]),
        forall|i: int| 0 <= i < final(p).funcs@.len() ==> (#[trigger] final(p).funcs@[i]).blocks@.len() <= old(p).funcs@[i].blocks@.len(),
        forall|i: int|
            0 <= i < final(p).funcs@.len() ==> instr_count((#[trigger] final(p).funcs@[i]).blocks@) <= instr_count(old(p).funcs@[i].blocks@),
        forall|i: int|
            0 <= i < final(p).funcs@.len() && writes_once(old(p).funcs@[i].blocks@) ==> writes_once(
                #[trigger] final(p).funcs@[i].blocks@,
            ),
        forall|i: int|
            0 <= i < final(p).funcs@.len() && entry_never_entered(old(p).funcs@[i]) ==> entry_never_entered(
                #[trigger] final(p).funcs@[i],
            ),
        counters_below_max(stats) ==> forall|i: int| 0 <= i < final(p).funcs@.len() ==> optimized(#[trigger] final(p).funcs@[i]),
        (forall|j: int| 0 <= j < old(p).funcs@.len() ==> optimized(#[trigger] old(p).funcs@[j])) ==> stats == Stats::default_value() && forall|i: int|
            0 <= i < final(p).funcs@.len() ==> code_eqv(old(p).funcs@[i], #[trigger] final(p).funcs@[i]),
        stats == Stats::default_value() ==> forall|i: int| 0 <= i < final(p).funcs@.len() ==> optimized(#[trigger] old(p).funcs@[i]),
        stats == Stats::default_value() ==> forall|i: int|
            0 <= i < final(p).funcs@.len() ==> code_eqv(old(p).funcs@[i], #[trigger] final(p).funcs@[i]),
{
    let mut stats = Stats::default();
    let ghost ar = arities(*p);
    let ghost nstr = p.strings@.len() as int;
    let n = p.funcs.len();
    let mut i: usize = 0;
    while i < n
        invariant
            n == p.funcs@.len(),
            n == old(p).funcs@.len(),
            i <= n,
            p.main == old(p).main,
            p.main < n,
            p.strings@ == old(p).strings@,
            nstr == p.strings@.len(),
            ar == arities(*old(p)),
            ir_wf(*old(p)),
            forall|j: int| 0 <= j < n ==> same_header(#[trigger] p.funcs@[j], old(p).funcs@[j]),
            forall|j: int| 0 <= j < n ==> (#[trigger] p.funcs@[j]).blocks@.len() <= old(p).funcs@[j].blocks@.len(),
            forall|j: int| 0 <= j < n ==> instr_count((#[trigger] p.funcs@[j]).blocks@) <= instr_count(old(p).funcs@[j].blocks@),
            forall|j: int| 0 <= j < n ==> func_ok(#[trigger] p.funcs@[j], ar, nstr),
            forall|j: int| i <= j < n ==> #[trigger] p.funcs@[j] == old(p).funcs@[j],
            forall|j: int| 0 <= j < i && writes_once(old(p).funcs@[j].blocks@) ==> writes_once(#[trigger] p.funcs@[j].blocks@),
            forall|j: int| 0 <= j < i && entry_never_entered(old(p).funcs@[j]) ==> entry_never_entered(#[trigger] p.funcs@[j]),
            counters_below_max(stats) ==> forall|j: int| 0 <= j < i ==> optimized(#[trigger] p.funcs@[j]),
            (forall|j: int| 0 <= j < old(p).funcs@.len() ==> optimized(#[trigger] old(p).funcs@[j])) ==> stats == Stats::default_value() && forall|j: int|
                0 <= j < i ==> code_eqv(old(p).funcs@[j], #[trigger] p.funcs@[j]),
            stats == Stats::default_value() ==> forall|j: int| 0 <= j < i ==> optimized(#[trigger] old(p).funcs@[j]),
            stats == Stats::default_value() ==> forall|j: int| 0 <= j < i ==> code_eqv(old(p).funcs@[j], #[trigger] p.funcs@[j]),
        decreases n - i,
    {
        let mut f = Func { name: String::new(), params: 0, slots: 0, temps: 0, blocks: Vec::new(), returns_value: false };
        std::mem::swap(&mut f, &mut p.funcs[i]);
        let ghost f0 = f;
        let ghost s0 = stats;
        assert(f0 == old(p).funcs@[i as int]);
        assert(func_ok(f0, ar, nstr));
        loop
            invariant_except_break
                stats == s0 ==> f == f0,
            invariant
                func_ok(f, ar, nstr),
                same_header(f, f0),
                writes_once(f0.blocks@) ==> writes_once(f.blocks@),
                entry_never_entered(f0) ==> entry_never_entered(f),
                stats_grew(s0, stats),
                f.blocks@.len() <= f0.blocks@.len(),
                instr_count(f.blocks@) <= instr_count(f0.blocks@),
                optimized(f0) && s0 == Stats::default_value() ==> stats == s0,
            ensures
                func_ok(f, ar, nstr),
                same_header(f, f0),
                writes_once(f0.blocks@) ==> writes_once(f.blocks@),
                entry_never_entered(f0) ==> entry_never_entered(f),
                stats_grew(s0, stats),
                f.blocks@.len() <= f0.blocks@.len(),
                instr_count(f.blocks@) <= instr_count(f0.blocks@),
                counters_below_max(stats) ==> optimized(f),
                optimized(f0) && s0 == Stats::default_value() ==> stats == s0 && code_eqv(f0, f),
                stats == Stats::default_value() ==> optimized(f0) && code_eqv(f0, f),
            decreases 7 * usize::MAX - stats_total(stats),
        {
            let before = stats;
            let ghost fst = f;
            round(&mut f, &mut stats, Ghost(ar), Ghost(nstr));
            if stats == before {
                proof {
                    if stats == Stats::default_value() {
                        assert(s0 == Stats::default_value());
                        assert(fst == f0);
                        lemma_code_eqv_symm(f0, f);
                        lemma_code_eqv_optimized(f, f0, ar, nstr);
                    }
                    if optimized(f0) && s0 == Stats::default_value() {
                        assert(fst == f0);
                    }
                }
                break;
            }
        }
        let ghost prev = p.funcs@;
        p.funcs.set(i, f);
        proof {
            assert(counters_below_max(stats) ==> forall|j: int| 0 <= j < i + 1 ==> optimized(#[trigger] p.funcs@[j])) by {
                if counters_below_max(stats) {
                    assert(counters_below_max(s0));
                    assert forall|j: int| 0 <= j < i + 1 implies optimized(#[trigger] p.funcs@[j]) by {
                        if j != i {
                            assert(p.funcs@[j] == prev[j]);
                        }
                    }
                }
            }
            if (forall|j: int| 0 <= j < old(p).funcs@.len() ==> optimized(#[trigger] old(p).funcs@[j])) {
                assert(optimized(old(p).funcs@[i as int]));
                assert forall|j: int| 0 <= j < i + 1 implies code_eqv(old(p).funcs@[j], #[trigger] p.funcs@[j]) by {
                    if j != i {
                        assert(p.funcs@[j] == prev[j]);
                    }
                }
            }
            if stats == Stats::default_value() {
                assert(s0 == Stats::default_value());
                assert(optimized(f0));
                assert(code_eqv(f0, f));
                assert forall|j: int| 0 <= j < i + 1 implies optimized(#[trigger] old(p).funcs@[j]) by {}
                assert forall|j: int| 0 <= j < i + 1 implies code_eqv(old(p).funcs@[j], #[trigger] p.funcs@[j]) by {
                    if j != i {
                        assert(p.funcs@[j] == prev[j]);
                    }
                }
            }
            assert forall|j: int| 0 <= j < n implies same_header(#[trigger] p.funcs@[j], old(p).funcs@[j]) by {
                if j != i {
                    assert(p.funcs@[j] == prev[j]);
                }
            }
            assert forall|j: int| 0 <= j < n implies func_ok(#[trigger] p.funcs@[j], ar, nstr) by {
                if j != i {
                    assert(p.funcs@[j] == prev[j]);
                }
            }
            assert forall|j: int| 0 <= j < n implies (#[trigger] p.funcs@[j]).blocks@.len() <= old(p).funcs@[j].blocks@.len() by {
                if j != i {
                    assert(p.funcs@[j] == prev[j]);
                }
            }
            assert forall|j: int| 0 <= j < n implies instr_count((#[trigger] p.funcs@[j]).blocks@) <= instr_count(old(p).funcs@[j].blocks@) by {
                if j != i {
                    assert(p.funcs@[j] == prev[j]);
                }
            }
            assert forall|j: int| i + 1 <= j < n implies #[trigger] p.funcs@[j] == old(p).funcs@[j] by {
                assert(p.funcs@[j] == prev[j]);
            }
            assert forall|j: int| 0 <= j < i + 1 && writes_once(old(p).funcs@[j].blocks@) implies writes_once(#[trigger] p.funcs@[j].blocks@) by {
                if j != i {
                    assert(p.funcs@[j] == prev[j]);
                }
            }
            assert forall|j: int| 0 <= j < i + 1 && entry_never_entered(old(p).funcs@[j]) implies entry_never_entered(#[trigger] p.funcs@[j]) by {
                if j != i {
                    assert(p.funcs@[j] == prev[j]);
                }
            }
        }
        i = i + 1;
    }
    proof {
        assert(arities(*p) =~= ar);
    }
    stats
}

} // verus!
