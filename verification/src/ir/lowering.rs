//! Lowering of a checked AST to IR: one function at a time, expressions
//! into temps, variables into slots, control flow into basic blocks.

use vstd::prelude::*;

use crate::ir::{
    BasicBlock, Func, Instr, Op, Operand, Program, Term, arities, entry_never_entered, func_ok, instr_ok, instrs_ok,
    ir_wf, lemma_instr_ok_mono, operand_ok, succs, term_ok, writes, writes_once, written_below,
};
use crate::parser::{
    BinOp, Block as AstBlock, Expr, ExprKind, ExprKindV, FnDecl, FnDeclV, Program as Ast, Stmt,
    StmtKind, Ty, UnOp, block_cost, block_ids_lt, expr_cost, expr_ids_lt, exprs_cost,
    exprs_ids_lt, exprs_v, fn_cost, lemma_exprs_v, lemma_stmts_v, program_ids_ok, stmt_cost,
    stmt_ids_lt, stmts_cost, stmts_v, expr_v, stmt_v,
};
use crate::sema::{
    Typed, block_calls_ok, expr_calls_ok, exprs_calls_ok, find_fn, fn_index_view, fn_table,
    lemma_exprs_calls_index, lemma_exprs_ids_index, lemma_find_fn_prefix, lemma_find_fn_range,
    lemma_stmts_calls_index, lemma_stmts_ids_index, program_calls_ok, stmt_calls_ok,
};
use crate::text::str_eq;

verus! {

/// The number of parameters of each function of the AST.
pub open spec fn ast_arities(funcs: Seq<FnDeclV>) -> Seq<int> {
    funcs.map_values(|f: FnDeclV| f.params.len() as int)
}

/// A terminator that never goes to the entry block.
pub open spec fn avoids_entry(t: Term) -> bool {
    match t {
        Term::Jmp(x) => x != 0,
        Term::Br { t, f, .. } => t != 0 && f != 0,
        _ => true,
    }
}

/// A block under construction: well-formed instructions, and a
/// terminator that is either still unset or well formed; it never goes to
/// the entry block.
pub open spec fn partial_ok(b: BasicBlock, temps: int, slots: int, ar: Seq<int>, nstr: int, nblocks: int) -> bool {
    &&& instrs_ok(b.instrs@, temps, slots, ar, nstr)
    &&& (b.term == Term::Unset || term_ok(b.term, temps, nblocks))
    &&& avoids_entry(b.term)
}

pub open spec fn blocks_ok(bs: Seq<BasicBlock>, temps: int, slots: int, ar: Seq<int>, nstr: int) -> bool {
    forall|b: int| 0 <= b < bs.len() ==> partial_ok(#[trigger] bs[b], temps, slots, ar, nstr, bs.len() as int)
}

proof fn lemma_partial_mono(
    b: BasicBlock,
    t: int,
    s: int,
    ar: Seq<int>,
    n: int,
    nb: int,
    t2: int,
    s2: int,
    n2: int,
    nb2: int,
)
    requires
        partial_ok(b, t, s, ar, n, nb),
        t <= t2,
        s <= s2,
        n <= n2,
        nb <= nb2,
    ensures
        partial_ok(b, t2, s2, ar, n2, nb2),
{
    assert forall|k: int| 0 <= k < b.instrs@.len() implies instr_ok(#[trigger] b.instrs@[k], t2, s2, ar, n2) by {
        lemma_instr_ok_mono(b.instrs@[k], t, s, ar, n, t2, s2, n2);
    }
}

/// More temps, slots and strings keep the blocks well formed.
proof fn lemma_blocks_mono(bs: Seq<BasicBlock>, t: int, s: int, ar: Seq<int>, n: int, t2: int, s2: int, n2: int)
    requires
        blocks_ok(bs, t, s, ar, n),
        t <= t2,
        s <= s2,
        n <= n2,
    ensures
        blocks_ok(bs, t2, s2, ar, n2),
{
    assert forall|b: int| 0 <= b < bs.len() implies partial_ok(#[trigger] bs[b], t2, s2, ar, n2, bs.len() as int) by {
        lemma_partial_mono(bs[b], t, s, ar, n, bs.len() as int, t2, s2, n2, bs.len() as int);
    }
}

/// Replacing a block by a well-formed one keeps the blocks well formed.
proof fn lemma_blocks_update(bs: Seq<BasicBlock>, i: int, x: BasicBlock, t: int, s: int, ar: Seq<int>, n: int)
    requires
        blocks_ok(bs, t, s, ar, n),
        0 <= i < bs.len(),
        partial_ok(x, t, s, ar, n, bs.len() as int),
    ensures
        blocks_ok(bs.update(i, x), t, s, ar, n),
{
    assert forall|b: int| 0 <= b < bs.len() implies partial_ok(#[trigger] bs.update(i, x)[b], t, s, ar, n, bs.len() as int) by {
        if b != i {
            assert(bs.update(i, x)[b] == bs[b]);
        }
    }
}

/// Appending a well-formed block keeps the blocks well formed.
proof fn lemma_blocks_push(bs: Seq<BasicBlock>, x: BasicBlock, t: int, s: int, ar: Seq<int>, n: int)
    requires
        blocks_ok(bs, t, s, ar, n),
        partial_ok(x, t, s, ar, n, (bs.len() + 1) as int),
    ensures
        blocks_ok(bs.push(x), t, s, ar, n),
{
    assert forall|b: int| 0 <= b < bs.len() + 1 implies partial_ok(#[trigger] bs.push(x)[b], t, s, ar, n, (bs.len() + 1) as int) by {
        if b < bs.len() {
            assert(bs.push(x)[b] == bs[b]);
            lemma_partial_mono(bs[b], t, s, ar, n, bs.len() as int, t, s, n, (bs.len() + 1) as int);
        }
    }
}

/// Appending an instruction that writes a fresh temp, or none, keeps every
/// temp written once.
proof fn lemma_writes_once_push(bs: Seq<BasicBlock>, c: int, blk: BasicBlock, ins: Instr)
    requires
        writes_once(bs),
        0 <= c < bs.len(),
        blk.instrs@ == bs[c].instrs@.push(ins),
        writes(ins) matches Some(d) ==> written_below(bs, d as int),
    ensures
        writes_once(bs.update(c, blk)),
{
    let nb = bs.update(c, blk);
    let n = bs[c].instrs@.len();
    assert forall|b1: int, k1: int, b2: int, k2: int|
        0 <= b1 < nb.len() && 0 <= k1 < nb[b1].instrs@.len() && 0 <= b2 < nb.len() && 0 <= k2 < nb[b2].instrs@.len()
            && (#[trigger] writes(nb[b1].instrs@[k1])) is Some && #[trigger] writes(nb[b2].instrs@[k2]) == writes(
            nb[b1].instrs@[k1],
        ) implies b1 == b2 && k1 == k2 by {
        let new1 = b1 == c && k1 == n;
        let new2 = b2 == c && k2 == n;
        if !new1 {
            assert(nb[b1].instrs@[k1] == bs[b1].instrs@[k1]);
        }
        if !new2 {
            assert(nb[b2].instrs@[k2] == bs[b2].instrs@[k2]);
        }
        if new1 && !new2 {
            assert(nb[b1].instrs@[k1] == ins);
            assert(writes(bs[b2].instrs@[k2]) is Some);
        } else if new2 && !new1 {
            assert(nb[b2].instrs@[k2] == ins);
            assert(writes(bs[b1].instrs@[k1]) is Some);
        }
    }
}

/// Blocks with the same instructions write the same temps.
proof fn lemma_writes_once_same(bs: Seq<BasicBlock>, bs2: Seq<BasicBlock>)
    requires
        writes_once(bs),
        bs2.len() == bs.len(),
        forall|b: int| 0 <= b < bs.len() ==> (#[trigger] bs2[b]).instrs@ == bs[b].instrs@,
    ensures
        writes_once(bs2),
{
    assert forall|b1: int, k1: int, b2: int, k2: int|
        0 <= b1 < bs2.len() && 0 <= k1 < bs2[b1].instrs@.len() && 0 <= b2 < bs2.len() && 0 <= k2 < bs2[b2].instrs@.len()
            && (#[trigger] writes(bs2[b1].instrs@[k1])) is Some && #[trigger] writes(bs2[b2].instrs@[k2]) == writes(
            bs2[b1].instrs@[k1],
        ) implies b1 == b2 && k1 == k2 by {
        assert(bs2[b1].instrs@ == bs[b1].instrs@);
        assert(bs2[b2].instrs@ == bs[b2].instrs@);
        assert(writes(bs[b1].instrs@[k1]) is Some);
    }
}

/// An empty block writes nothing.
proof fn lemma_writes_once_new(bs: Seq<BasicBlock>, x: BasicBlock)
    requires
        writes_once(bs),
        x.instrs@.len() == 0,
    ensures
        writes_once(bs.push(x)),
{
    let nb = bs.push(x);
    assert forall|b1: int, k1: int, b2: int, k2: int|
        0 <= b1 < nb.len() && 0 <= k1 < nb[b1].instrs@.len() && 0 <= b2 < nb.len() && 0 <= k2 < nb[b2].instrs@.len()
            && (#[trigger] writes(nb[b1].instrs@[k1])) is Some && #[trigger] writes(nb[b2].instrs@[k2]) == writes(
            nb[b1].instrs@[k1],
        ) implies b1 == b2 && k1 == k2 by {
        assert(nb[b1] == bs[b1]);
        assert(nb[b2] == bs[b2]);
        assert(writes(bs[b1].instrs@[k1]) is Some);
    }
}

/// The slot of the last binding of `name` in a scope.
pub open spec fn find_in_scope(sc: Seq<(String, u32)>, name: Seq<char>) -> Option<u32>
    decreases sc.len(),
{
    if sc.len() == 0 {
        None
    } else if sc.last().0@ == name {
        Some(sc.last().1)
    } else {
        find_in_scope(sc.drop_last(), name)
    }
}

/// The slot of the innermost binding of `name`, searching the scopes from
/// the innermost out.
pub open spec fn find_in_scopes(ss: Seq<Vec<(String, u32)>>, name: Seq<char>) -> Option<u32>
    decreases ss.len(),
{
    if ss.len() == 0 {
        None
    } else {
        match find_in_scope(ss.last()@, name) {
            Some(s) => Some(s),
            None => find_in_scopes(ss.drop_last(), name),
        }
    }
}

/// Blocks `bs`, lowered on from `obs`: the blocks that were there, but for
/// the current one, are as they were; the current one only gained
/// instructions; the new current block is the old one or a new one.
pub open spec fn kept_blocks(bs: Seq<BasicBlock>, cur: int, obs: Seq<BasicBlock>, ocur: int) -> bool {
    &&& obs.len() <= bs.len()
    &&& (cur == ocur || cur >= obs.len())
    &&& forall|b: int| 0 <= b < obs.len() && b != ocur ==> #[trigger] bs[b] == obs[b]
    &&& obs[ocur].instrs@.is_prefix_of(bs[ocur].instrs@)
}

proof fn lemma_kept_blocks_trans(b0: Seq<BasicBlock>, c0: int, b1: Seq<BasicBlock>, c1: int, b2: Seq<BasicBlock>, c2: int)
    requires
        0 <= c0 < b0.len(),
        kept_blocks(b1, c1, b0, c0),
        kept_blocks(b2, c2, b1, c1),
    ensures
        kept_blocks(b2, c2, b0, c0),
{
    if c1 == c0 {
        let x = b0[c0].instrs@;
        let y = b1[c0].instrs@;
        let z = b2[c0].instrs@;
        assert(x =~= z.subrange(0, x.len() as int)) by {
            assert forall|i: int| 0 <= i < x.len() implies x[i] == z[i] by {
                assert(x[i] == y.subrange(0, x.len() as int)[i]);
                assert(y[i] == z.subrange(0, y.len() as int)[i]);
            }
        }
    } else {
        assert(b2[c0] == b1[c0]);
    }
}

/// Some instruction of these blocks writes temp `t`.
pub open spec fn written_somewhere(bs: Seq<BasicBlock>, t: int) -> bool {
    exists|b: int, k: int| 0 <= b < bs.len() && 0 <= k < bs[b].instrs@.len() && writes(#[trigger] bs[b].instrs@[k]) == Some(t as u32)
}

/// Every temp below `n` is written by some instruction of these blocks.
pub open spec fn all_written(bs: Seq<BasicBlock>, n: int) -> bool {
    forall|t: int| 0 <= t < n ==> #[trigger] written_somewhere(bs, t)
}

/// Lowering on keeps every write that was there.
proof fn lemma_written_kept(bs: Seq<BasicBlock>, cur: int, obs: Seq<BasicBlock>, ocur: int, n: int)
    requires
        kept_blocks(bs, cur, obs, ocur),
        0 <= ocur < obs.len(),
        all_written(obs, n),
    ensures
        all_written(bs, n),
{
    assert forall|t: int| 0 <= t < n implies #[trigger] written_somewhere(bs, t) by {
        assert(written_somewhere(obs, t));
        let (b, k) = choose|b: int, k: int| 0 <= b < obs.len() && 0 <= k < obs[b].instrs@.len() && writes(#[trigger] obs[b].instrs@[k]) == Some(t as u32);
        if b == ocur {
            assert(obs[b].instrs@[k] == bs[b].instrs@.subrange(0, obs[b].instrs@.len() as int)[k]);
            assert(bs[b].instrs@[k] == obs[b].instrs@[k]);
        } else {
            assert(bs[b] == obs[b]);
        }
        assert(writes(bs[b].instrs@[k]) == Some(t as u32));
    }
}

/// Blocks with the same instructions write the same temps.
proof fn lemma_written_same(bs: Seq<BasicBlock>, bs2: Seq<BasicBlock>, n: int)
    requires
        all_written(bs, n),
        bs2.len() == bs.len(),
        forall|b: int| 0 <= b < bs.len() ==> (#[trigger] bs2[b]).instrs@ == bs[b].instrs@,
    ensures
        all_written(bs2, n),
{
    assert forall|t: int| 0 <= t < n implies #[trigger] written_somewhere(bs2, t) by {
        assert(written_somewhere(bs, t));
        let (b, k) = choose|b: int, k: int| 0 <= b < bs.len() && 0 <= k < bs[b].instrs@.len() && writes(#[trigger] bs[b].instrs@[k]) == Some(t as u32);
        assert(bs2[b].instrs@ == bs[b].instrs@);
        assert(writes(bs2[b].instrs@[k]) == Some(t as u32));
    }
}

/// Lowering state for one function.
struct Lower<'a, F: Fn(usize) -> u32> {
    typed: &'a Typed,
    funcs: Ghost<Seq<FnDeclV>>,
    blocks: Vec<BasicBlock>,
    temps: u32,
    slots: u32,
    cur: u32,
    scopes: Vec<Vec<(String, u32)>>,
    strings: Vec<String>,
    line_of: &'a F,
}

impl<'a, F: Fn(usize) -> u32> Lower<'a, F> {
    spec fn ar(&self) -> Seq<int> {
        ast_arities(self.funcs@)
    }

    spec fn inv(&self) -> bool {
        &&& (self.cur as int) < self.blocks@.len() <= u32::MAX
        &&& blocks_ok(self.blocks@, self.temps as int, self.slots as int, self.ar(), self.strings@.len() as int)
        &&& writes_once(self.blocks@)
        &&& self.scopes@.len() >= 1
        &&& forall|i: int, j: int|
            0 <= i < self.scopes@.len() && 0 <= j < self.scopes@[i]@.len() ==> (#[trigger] self.scopes@[i]@[j]).1 < self.slots
        &&& fn_index_view(self.typed.fn_index@) == fn_table(self.funcs@)
        &&& forall|x: usize| call_requires(*self.line_of, (x,))
    }

    /// The same context; counters and tables only grew.
    spec fn grew(&self, old: &Self) -> bool {
        &&& self.typed == old.typed
        &&& self.funcs == old.funcs
        &&& self.line_of == old.line_of
        &&& old.temps <= self.temps
        &&& old.slots <= self.slots
        &&& old.blocks@.len() <= self.blocks@.len()
        &&& old.strings@.len() <= self.strings@.len()
        &&& self.scopes@.len() == old.scopes@.len()
    }

    /// Room for `c` more nodes: each adds at most one temp, one slot and
    /// three blocks.
    spec fn room(&self, c: int) -> bool {
        &&& self.temps + c <= u32::MAX
        &&& self.slots + c <= u32::MAX
        &&& self.blocks@.len() + 3 * c <= u32::MAX
    }

    /// The blocks that were there before, but for the current one, are as
    /// they were; the current block is the one before or a new one.
    spec fn kept_from(&self, old: &Self) -> bool {
        kept_blocks(self.blocks@, self.cur as int, old.blocks@, old.cur as int)
    }

    /// Nothing was emitted, allocated or moved.
    spec fn unchanged(&self, old: &Self) -> bool {
        &&& self.blocks@ == old.blocks@
        &&& self.temps == old.temps
        &&& self.slots == old.slots
        &&& self.cur == old.cur
        &&& self.scopes@ == old.scopes@
    }

    /// The terminator of the current block.
    spec fn cur_term(&self) -> Term {
        self.blocks@[self.cur as int].term
    }

    /// The instructions of the current block.
    spec fn cur_instrs(&self) -> Seq<Instr> {
        self.blocks@[self.cur as int].instrs@
    }

    spec fn within(&self, old: &Self, c: int) -> bool {
        &&& self.temps <= old.temps + c
        &&& self.slots <= old.slots + c
        &&& self.blocks@.len() <= old.blocks@.len() + 3 * c
    }

    fn new_block(&mut self) -> (b: u32)
        requires
            old(self).inv(),
            old(self).blocks@.len() < u32::MAX,
        ensures
            all_written(old(self).blocks@, old(self).temps as int) ==> all_written(final(self).blocks@, final(self).temps as int),
            final(self).inv(),
            final(self).grew(old(self)),
            b == old(self).blocks@.len(),
            b >= 1,
            final(self).blocks@.len() == old(self).blocks@.len() + 1,
            final(self).blocks@[b as int].instrs@.len() == 0,
            final(self).blocks@[b as int].term == Term::Unset,
            forall|i: int| 0 <= i < old(self).blocks@.len() ==> #[trigger] final(self).blocks@[i] == old(self).blocks@[i],
            final(self).scopes@ == old(self).scopes@,
            final(self).kept_from(old(self)),
            final(self).temps == old(self).temps,
            final(self).slots == old(self).slots,
            final(self).cur == old(self).cur,
    {
        let blk = BasicBlock { instrs: Vec::new(), term: Term::Unset, line: 0 };
        proof {
            lemma_blocks_push(self.blocks@, blk, self.temps as int, self.slots as int, self.ar(), self.strings@.len() as int);
        }
        self.blocks.push(blk);
                proof {
            if all_written(old(self).blocks@, old(self).temps as int) {
                lemma_written_kept(self.blocks@, self.cur as int, old(self).blocks@, old(self).cur as int, old(self).temps as int);
            }
        }
        (self.blocks.len() - 1) as u32
    }

    fn temp(&mut self) -> (t: u32)
        requires
            old(self).inv(),
            old(self).temps < u32::MAX,
        ensures
            all_written(old(self).blocks@, old(self).temps as int) ==> all_written(final(self).blocks@, t as int),
            final(self).inv(),
            final(self).grew(old(self)),
            t == old(self).temps,
            written_below(final(self).blocks@, t as int),
            final(self).blocks@ == old(self).blocks@,
            final(self).scopes@ == old(self).scopes@,
            final(self).kept_from(old(self)),
            final(self).temps == old(self).temps + 1,
            final(self).slots == old(self).slots,
            final(self).blocks@.len() == old(self).blocks@.len(),
            final(self).cur == old(self).cur,
    {
        let t = self.temps;
        proof {
            assert forall|b: int, k: int|
                0 <= b < self.blocks@.len() && 0 <= k < self.blocks@[b].instrs@.len() && (#[trigger] writes(self.blocks@[b].instrs@[k])) is Some implies writes(
                    self.blocks@[b].instrs@[k],
                )->0 < t by {
                assert(partial_ok(self.blocks@[b], t as int, self.slots as int, self.ar(), self.strings@.len() as int, self.blocks@.len() as int));
                assert(instr_ok(self.blocks@[b].instrs@[k], t as int, self.slots as int, self.ar(), self.strings@.len() as int));
            }
            lemma_blocks_mono(self.blocks@, t as int, self.slots as int, self.ar(), self.strings@.len() as int, t + 1, self.slots as int, self.strings@.len() as int);
        }
        self.temps = t + 1;
        t
    }

    /// A new slot for `name`, declared in the innermost scope.
    fn slot(&mut self, name: &str) -> (s: u32)
        requires
            old(self).inv(),
            old(self).slots < u32::MAX,
        ensures
            all_written(old(self).blocks@, old(self).temps as int) ==> all_written(final(self).blocks@, final(self).temps as int),
            final(self).inv(),
            final(self).grew(old(self)),
            s == old(self).slots,
            final(self).slots == old(self).slots + 1,
            final(self).temps == old(self).temps,
            final(self).blocks@ == old(self).blocks@,
            final(self).cur == old(self).cur,
            final(self).scopes@.last()@.last().0@ == name@,
            final(self).scopes@.last()@.last().1 == s,
            find_in_scopes(final(self).scopes@, name@) == Some(s),
            final(self).kept_from(old(self)),
    {
        let s = self.slots;
        proof {
            lemma_blocks_mono(self.blocks@, self.temps as int, s as int, self.ar(), self.strings@.len() as int, self.temps as int, s + 1, self.strings@.len() as int);
        }
        self.slots = s + 1;
        let last = self.scopes.len() - 1;
        let mut top: Vec<(String, u32)> = Vec::new();
        std::mem::swap(&mut top, &mut self.scopes[last]);
        top.push((name.to_owned(), s));
        self.scopes.set(last, top);
        proof {
            assert forall|i: int, j: int|
                0 <= i < self.scopes@.len() && 0 <= j < self.scopes@[i]@.len() implies (#[trigger] self.scopes@[i]@[j]).1 < self.slots by {
                if i != last {
                    assert(self.scopes@[i] == old(self).scopes@[i]);
                } else if j < old(self).scopes@[i]@.len() {
                    assert(self.scopes@[i]@[j] == old(self).scopes@[i]@[j]);
                }
            }
        }
        s
    }

    /// The innermost slot of `name`.
    fn lookup(&self, name: &str) -> (r: Option<u32>)
        requires
            self.inv(),
        ensures
            r matches Some(s) ==> s < self.slots,
            r == find_in_scopes(self.scopes@, name@),
    {
        let mut i = self.scopes.len();
        assert(self.scopes@.take(i as int) =~= self.scopes@);
        while i > 0
            invariant
                self.inv(),
                i <= self.scopes@.len(),
                find_in_scopes(self.scopes@, name@) == find_in_scopes(self.scopes@.take(i as int), name@),
            decreases i,
        {
            let sc = &self.scopes[i - 1];
            let ghost ss = self.scopes@.take(i as int);
            assert(ss.drop_last() =~= self.scopes@.take(i - 1));
            assert(ss.last() == *sc);
            let mut j = sc.len();
            assert(sc@.take(j as int) =~= sc@);
            while j > 0
                invariant
                    self.inv(),
                    0 < i <= self.scopes@.len(),
                    sc == self.scopes@[i - 1],
                    j <= sc@.len(),
                    find_in_scope(sc@, name@) == find_in_scope(sc@.take(j as int), name@),
                    ss.len() > 0,
                    ss.last() == *sc,
                    find_in_scopes(self.scopes@, name@) == find_in_scopes(ss, name@),
                decreases j,
            {
                let ghost t = sc@.take(j as int);
                assert(t.drop_last() =~= sc@.take(j - 1));
                if str_eq(sc[j - 1].0.as_str(), name) {
                    proof {
                        assert(t.last() == sc@[j - 1]);
                        assert(find_in_scope(t, name@) == Some(sc@[j - 1].1));
                        assert(find_in_scope(ss.last()@, name@) == Some(sc@[j - 1].1));
                    }
                    return Some(sc[j - 1].1);
                }
                j = j - 1;
            }
            assert(sc@.take(0) =~= Seq::<(String, u32)>::empty());
            i = i - 1;
        }
        assert(self.scopes@.take(0) =~= Seq::<Vec<(String, u32)>>::empty());
        None
    }

    fn emit(&mut self, ins: Instr)
        requires
            old(self).inv(),
            instr_ok(ins, old(self).temps as int, old(self).slots as int, old(self).ar(), old(self).strings@.len() as int),
            writes(ins) matches Some(d) ==> written_below(old(self).blocks@, d as int),
        ensures
            all_written(old(self).blocks@, old(self).temps as int) ==> all_written(final(self).blocks@, final(self).temps as int),
            writes(ins) == Some((old(self).temps - 1) as u32) && old(self).temps >= 1 && all_written(old(self).blocks@, old(self).temps - 1) ==> all_written(final(self).blocks@, final(self).temps as int),
            final(self).inv(),
            final(self).grew(old(self)),
            final(self).kept_from(old(self)),
            final(self).temps == old(self).temps,
            final(self).slots == old(self).slots,
            final(self).blocks@.len() == old(self).blocks@.len(),
            final(self).cur == old(self).cur,
            final(self).scopes@ == old(self).scopes@,
            final(self).cur_instrs() == old(self).cur_instrs().push(ins),
            final(self).blocks@[final(self).cur as int].term == old(self).blocks@[old(self).cur as int].term,
            final(self).blocks@[final(self).cur as int].line == old(self).blocks@[old(self).cur as int].line,
    {
        let c = self.cur as usize;
        let mut blk = BasicBlock { instrs: Vec::new(), term: Term::Unset, line: 0 };
        std::mem::swap(&mut blk, &mut self.blocks[c]);
        let ghost before = blk;
        blk.instrs.push(ins);
        proof {
            assert(partial_ok(before, self.temps as int, self.slots as int, self.ar(), self.strings@.len() as int, self.blocks@.len() as int));
            assert forall|k: int| 0 <= k < blk.instrs@.len() implies instr_ok(#[trigger] blk.instrs@[k], self.temps as int, self.slots as int, self.ar(), self.strings@.len() as int) by {
                if k < before.instrs@.len() {
                    assert(blk.instrs@[k] == before.instrs@[k]);
                }
            }
            lemma_blocks_update(old(self).blocks@, c as int, blk, self.temps as int, self.slots as int, self.ar(), self.strings@.len() as int);
            lemma_writes_once_push(old(self).blocks@, c as int, blk, ins);
        }
        self.blocks.set(c, blk);
        proof {
            if all_written(old(self).blocks@, old(self).temps as int) {
                lemma_written_kept(self.blocks@, self.cur as int, old(self).blocks@, old(self).cur as int, old(self).temps as int);
            }
            if writes(ins) == Some((old(self).temps - 1) as u32) && old(self).temps >= 1 && all_written(old(self).blocks@, old(self).temps - 1) {
                lemma_written_kept(self.blocks@, self.cur as int, old(self).blocks@, old(self).cur as int, old(self).temps - 1);
                let c = self.cur as int;
                let k = self.blocks@[c].instrs@.len() - 1;
                assert(self.blocks@[c].instrs@[k] == ins);
                assert(written_somewhere(self.blocks@, old(self).temps - 1));
                assert forall|t: int| 0 <= t < self.temps implies #[trigger] written_somewhere(self.blocks@, t) by {
                    if t < old(self).temps - 1 {
                        assert(written_somewhere(self.blocks@, t));
                    }
                }
            }
        }
    }

    fn terminated(&self) -> (r: bool)
        requires
            self.inv(),
        ensures
            r == (self.blocks@[self.cur as int].term != Term::Unset),
    {
        self.blocks[self.cur as usize].term != Term::Unset
    }

    /// Terminates the current block, unless it already is.
    fn term(&mut self, t: Term)
        requires
            old(self).inv(),
            term_ok(t, old(self).temps as int, old(self).blocks@.len() as int),
            avoids_entry(t),
        ensures
            all_written(old(self).blocks@, old(self).temps as int) ==> all_written(final(self).blocks@, final(self).temps as int),
            final(self).inv(),
            final(self).grew(old(self)),
            final(self).temps == old(self).temps,
            final(self).slots == old(self).slots,
            final(self).blocks@.len() == old(self).blocks@.len(),
            final(self).cur == old(self).cur,
            final(self).blocks@[final(self).cur as int].term != Term::Unset,
            final(self).kept_from(old(self)),
            final(self).scopes@ == old(self).scopes@,
            old(self).blocks@[old(self).cur as int].term == Term::Unset ==> final(self).blocks@[final(self).cur as int].term == t,
            old(self).blocks@[old(self).cur as int].term != Term::Unset ==> final(self).blocks@ == old(self).blocks@,
            final(self).cur_instrs() == old(self).cur_instrs(),
    {
        let c = self.cur as usize;
        if self.blocks[c].term == Term::Unset {
            let mut blk = BasicBlock { instrs: Vec::new(), term: Term::Unset, line: 0 };
            std::mem::swap(&mut blk, &mut self.blocks[c]);
            blk.term = t;
            proof {
                lemma_blocks_update(old(self).blocks@, c as int, blk, self.temps as int, self.slots as int, self.ar(), self.strings@.len() as int);
            }
            self.blocks.set(c, blk);
        }
        proof {
            if all_written(old(self).blocks@, old(self).temps as int) {
                lemma_written_kept(self.blocks@, self.cur as int, old(self).blocks@, old(self).cur as int, old(self).temps as int);
            }
        }
    }

    /// Sets the source line of block `b`.
    fn set_line(&mut self, b: u32, line: u32)
        requires
            old(self).inv(),
            b < old(self).blocks@.len(),
        ensures
            all_written(old(self).blocks@, old(self).temps as int) ==> all_written(final(self).blocks@, final(self).temps as int),
            final(self).inv(),
            final(self).grew(old(self)),
            final(self).temps == old(self).temps,
            final(self).slots == old(self).slots,
            final(self).blocks@.len() == old(self).blocks@.len(),
            final(self).cur == old(self).cur,
            final(self).scopes@ == old(self).scopes@,
            final(self).blocks@[b as int].line == line,
            final(self).blocks@[b as int].instrs == old(self).blocks@[b as int].instrs,
            final(self).blocks@[b as int].term == old(self).blocks@[b as int].term,
            forall|i: int| 0 <= i < old(self).blocks@.len() && i != b ==> #[trigger] final(self).blocks@[i] == old(self).blocks@[i],
    {
        let mut blk = BasicBlock { instrs: Vec::new(), term: Term::Unset, line: 0 };
        std::mem::swap(&mut blk, &mut self.blocks[b as usize]);
        blk.line = line;
        proof {
            lemma_blocks_update(old(self).blocks@, b as int, blk, self.temps as int, self.slots as int, self.ar(), self.strings@.len() as int);
        }
        self.blocks.set(b as usize, blk);
        proof {
            if all_written(old(self).blocks@, old(self).temps as int) {
                lemma_written_same(old(self).blocks@, self.blocks@, old(self).temps as int);
            }
        }
    }

    /// Adds a string literal to the table; returns its index.
    fn push_string(&mut self, s: String) -> (k: usize)
        requires
            old(self).inv(),
        ensures
            all_written(old(self).blocks@, old(self).temps as int) ==> all_written(final(self).blocks@, final(self).temps as int),
            final(self).inv(),
            final(self).grew(old(self)),
            k < final(self).strings@.len(),
            k == old(self).strings@.len(),
            final(self).strings@ == old(self).strings@.push(s),
            final(self).temps == old(self).temps,
            final(self).slots == old(self).slots,
            final(self).blocks@ == old(self).blocks@,
            final(self).cur == old(self).cur,
            final(self).scopes@ == old(self).scopes@,
            final(self).kept_from(old(self)),
    {
        proof {
            lemma_blocks_mono(self.blocks@, self.temps as int, self.slots as int, self.ar(), self.strings@.len() as int, self.temps as int, self.slots as int, (self.strings@.len() + 1) as int);
        }
        self.strings.push(s);
        self.strings.len() - 1
    }

    /// The index of function `name` in the function table.
    fn func_index(&self, name: &str) -> (k: usize)
        requires
            self.inv(),
            find_fn(self.funcs@, name@) is Some,
        ensures
            k == find_fn(self.funcs@, name@)->0,
    {
        index_of(&self.typed.fn_index, name, self.funcs)
    }

    /// Lowers call arguments, left to right.
    fn call_args(&mut self, args: &Vec<Expr>) -> (vals: Vec<Operand>)
        requires
            old(self).inv(),
            old(self).room(exprs_cost(exprs_v(args@)) as int),
            exprs_calls_ok(old(self).funcs@, exprs_v(args@)),
            exprs_ids_lt(exprs_v(args@), old(self).typed.expr_types@.len() as int),
        ensures
            all_written(old(self).blocks@, old(self).temps as int) ==> all_written(final(self).blocks@, final(self).temps as int),
            final(self).inv(),
            final(self).grew(old(self)),
            final(self).within(old(self), exprs_cost(exprs_v(args@)) as int),
            final(self).kept_from(old(self)),
            vals@.len() == args@.len(),
            forall|j: int| 0 <= j < vals@.len() ==> operand_ok(#[trigger] vals@[j], final(self).temps as int),
        decreases args,
    {
        let ghost av = exprs_v(args@);
        proof {
            lemma_exprs_v(args@);
            lemma_exprs_calls_index(self.funcs@, av);
            lemma_exprs_ids_index(av, self.typed.expr_types@.len() as int);
        }
        let mut vals: Vec<Operand> = Vec::new();
        let mut k: usize = 0;
        assert(av.skip(0) =~= av);
        while k < args.len()
            invariant
                self.inv(),
                self.grew(old(self)),
                self.kept_from(old(self)),
                (old(self).cur as int) < old(self).blocks@.len(),
                all_written(old(self).blocks@, old(self).temps as int) ==> all_written(self.blocks@, self.temps as int),
                k <= args@.len(),
                vals@.len() == k,
                av == exprs_v(args@),
                av.len() == args@.len(),
                forall|j: int| 0 <= j < args@.len() ==> #[trigger] av[j] == expr_v(args@[j]),
                forall|j: int| 0 <= j < av.len() ==> expr_calls_ok(self.funcs@, #[trigger] av[j]),
                forall|j: int| 0 <= j < av.len() ==> expr_ids_lt(#[trigger] av[j], self.typed.expr_types@.len() as int),
                forall|j: int| 0 <= j < vals@.len() ==> operand_ok(#[trigger] vals@[j], self.temps as int),
                self.temps + exprs_cost(av.skip(k as int)) <= old(self).temps + exprs_cost(av),
                self.slots + exprs_cost(av.skip(k as int)) <= old(self).slots + exprs_cost(av),
                self.blocks@.len() + 3 * exprs_cost(av.skip(k as int)) <= old(self).blocks@.len() + 3 * exprs_cost(av),
                old(self).room(exprs_cost(av) as int),
            decreases args@.len() - k,
        {
            assert(av.skip(k as int)[0] == av[k as int]);
            assert(av.skip(k as int).drop_first() =~= av.skip(k + 1));
            let ghost pb = self.blocks@;
            let ghost pc = self.cur as int;
            let v = self.expr(&args[k]);
            proof {
                lemma_kept_blocks_trans(old(self).blocks@, old(self).cur as int, pb, pc, self.blocks@, self.cur as int);
            }
            vals.push(v);
            k = k + 1;
        }
        vals
    }

    #[verifier::rlimit(100)]
    fn stmt(&mut self, s: &Stmt)
        requires
            old(self).inv(),
            old(self).room(stmt_cost(s@) as int),
            stmt_calls_ok(old(self).funcs@, s@),
            stmt_ids_lt(s@, old(self).typed.expr_types@.len() as int),
        ensures
            all_written(old(self).blocks@, old(self).temps as int) ==> all_written(final(self).blocks@, final(self).temps as int),
            final(self).inv(),
            final(self).grew(old(self)),
            final(self).within(old(self), stmt_cost(s@) as int),
            final(self).kept_from(old(self)),
            match s.kind {
                StmtKind::Let { name, .. } => {
                    &&& final(self).cur_instrs().len() > 0
                    &&& final(self).cur_instrs().last() is Store
                    &&& final(self).cur_instrs().last()->Store_slot == final(self).slots - 1
                    &&& final(self).scopes@.last()@.last().0@ == name@
                    &&& final(self).scopes@.last()@.last().1 == final(self).slots - 1
                },
                StmtKind::Assign { name, .. } => {
                    &&& final(self).cur_instrs().len() > 0
                    &&& final(self).cur_instrs().last() is Store
                    &&& find_in_scopes(final(self).scopes@, name@) == Some(final(self).cur_instrs().last()->Store_slot)
                },
                StmtKind::Return(_) => final(self).blocks@[final(self).cur as int].term != Term::Unset,
                StmtKind::Print(_) => {
                    &&& final(self).cur_instrs().len() > 0
                    &&& {
                        let last = final(self).cur_instrs().last();
                        last is PrintInt || last is PrintBool || last is PrintStr
                    }
                },
                StmtKind::If { .. } | StmtKind::While { .. } => {
                    &&& final(self).cur >= old(self).blocks@.len()
                    &&& final(self).cur_instrs().len() == 0
                    &&& final(self).blocks@[final(self).cur as int].term == Term::Unset
                },
                StmtKind::Expr(e) => match e.kind {
                    ExprKind::Call(name, args) => {
                        &&& final(self).cur_instrs().len() > 0
                        &&& final(self).cur_instrs().last() is Call
                        &&& final(self).cur_instrs().last()->Call_func == find_fn(old(self).funcs@, name@)->0
                        &&& final(self).cur_instrs().last()->Call_args@.len() == args@.len()
                    },
                    _ => true,
                },
            },
        decreases s,
    {
        let line = (self.line_of)(s.span.start);
        if self.blocks[self.cur as usize].line == 0 {
            self.set_line(self.cur, line);
        }
        match &s.kind {
            StmtKind::Let { name, init, .. } => {
                let v = self.expr(init);
                let slot = self.slot(name.as_str());
                self.emit(Instr::Store { slot, src: v });
            },
            StmtKind::Assign { name, value, .. } => {
                let v = self.expr(value);
                let slot = match self.lookup(name.as_str()) {
                    Some(k) => k,
                    None => self.slot(name.as_str()),
                };
                self.emit(Instr::Store { slot, src: v });
            },
            StmtKind::Expr(e) => {
                let _v = self.expr(e);
            },
            StmtKind::Return(v) => {
                let v = match v {
                    Some(e) => Some(self.expr(e)),
                    None => None,
                };
                self.term(Term::Ret(v));
            },
            StmtKind::Print(e) => {
                let t = self.typed.expr_types[e.id];
                if t == Ty::Str {
                    match &e.kind {
                        ExprKind::Str(text) => {
                            let k = self.push_string(text.clone());
                            self.emit(Instr::PrintStr(k));
                        },
                        _ => {
                            let v = self.expr(e);
                            self.emit(Instr::PrintInt(v));
                        },
                    }
                } else if t == Ty::Bool {
                    let v = self.expr(e);
                    self.emit(Instr::PrintBool(v));
                } else {
                    let v = self.expr(e);
                    self.emit(Instr::PrintInt(v));
                }
            },
            StmtKind::If { cond, then, els } => {
                let c = self.expr(cond);
                let t = self.new_block();
                let f = self.new_block();
                let join = self.new_block();
                self.term(Term::Br { cond: c, t, f });
                self.cur = t;
                self.block(then);
                self.term(Term::Jmp(join));
                self.cur = f;
                match els {
                    Some(eb) => self.block(eb),
                    None => {},
                }
                self.term(Term::Jmp(join));
                self.cur = join;
            },
            StmtKind::While { cond, body } => {
                let head = self.new_block();
                let b = self.new_block();
                let exit = self.new_block();
                self.term(Term::Jmp(head));
                self.cur = head;
                self.set_line(head, line);
                let c = self.expr(cond);
                self.term(Term::Br { cond: c, t: b, f: exit });
                self.cur = b;
                self.block(body);
                self.term(Term::Jmp(head));
                self.cur = exit;
            },
        }
    }

    /// Lowers the statements of a block in a new scope, stopping at the
    /// first one that terminates the current block.
    fn block(&mut self, b: &AstBlock)
        requires
            old(self).inv(),
            old(self).room(block_cost(b@) as int),
            block_calls_ok(old(self).funcs@, b@),
            block_ids_lt(b@, old(self).typed.expr_types@.len() as int),
        ensures
            all_written(old(self).blocks@, old(self).temps as int) ==> all_written(final(self).blocks@, final(self).temps as int),
            final(self).inv(),
            final(self).grew(old(self)),
            final(self).within(old(self), block_cost(b@) as int),
            final(self).kept_from(old(self)),
            old(self).blocks@[old(self).cur as int].term != Term::Unset ==> {
                &&& final(self).blocks@ == old(self).blocks@
                &&& final(self).cur == old(self).cur
                &&& final(self).temps == old(self).temps
                &&& final(self).slots == old(self).slots
            },
            (exists|j: int| 0 <= j < b.stmts@.len() && (#[trigger] b.stmts@[j]).kind is Return) ==> final(self).cur_term() != Term::Unset,
        decreases b,
    {
        let ghost sv = stmts_v(b.stmts@);
        proof {
            lemma_stmts_v(b.stmts@);
            lemma_stmts_calls_index(self.funcs@, sv);
            lemma_stmts_ids_index(sv, self.typed.expr_types@.len() as int);
        }
        self.scopes.push(Vec::new());
        let mut k: usize = 0;
        assert(sv.skip(0) =~= sv);
        while k < b.stmts.len()
            invariant
                self.inv(),
                self.typed == old(self).typed,
                self.funcs == old(self).funcs,
                self.line_of == old(self).line_of,
                old(self).temps <= self.temps,
                old(self).slots <= self.slots,
                old(self).blocks@.len() <= self.blocks@.len(),
                old(self).strings@.len() <= self.strings@.len(),
                self.scopes@.len() == old(self).scopes@.len() + 1,
                k <= b.stmts@.len(),
                sv == stmts_v(b.stmts@),
                sv.len() == b.stmts@.len(),
                forall|j: int| 0 <= j < b.stmts@.len() ==> #[trigger] sv[j] == stmt_v(b.stmts@[j]),
                forall|j: int| 0 <= j < sv.len() ==> stmt_calls_ok(self.funcs@, #[trigger] sv[j]),
                forall|j: int| 0 <= j < sv.len() ==> stmt_ids_lt(#[trigger] sv[j], self.typed.expr_types@.len() as int),
                self.temps + stmts_cost(sv.skip(k as int)) <= old(self).temps + stmts_cost(sv),
                self.slots + stmts_cost(sv.skip(k as int)) <= old(self).slots + stmts_cost(sv),
                self.blocks@.len() + 3 * stmts_cost(sv.skip(k as int)) <= old(self).blocks@.len() + 3 * stmts_cost(sv),
                old(self).room(1 + stmts_cost(sv) as int),
                self.kept_from(old(self)),
                (old(self).cur as int) < old(self).blocks@.len(),
                all_written(old(self).blocks@, old(self).temps as int) ==> all_written(self.blocks@, self.temps as int),
                old(self).blocks@[old(self).cur as int].term != Term::Unset ==> {
                    &&& k == 0
                    &&& self.blocks@ == old(self).blocks@
                    &&& self.cur == old(self).cur
                    &&& self.temps == old(self).temps
                    &&& self.slots == old(self).slots
                },
                (exists|j: int| 0 <= j < k && (#[trigger] b.stmts@[j]).kind is Return) ==> self.blocks@[self.cur as int].term
                    != Term::Unset,
            ensures
                (exists|j: int| 0 <= j < b.stmts@.len() && (#[trigger] b.stmts@[j]).kind is Return) ==> self.cur_term() != Term::Unset,
            decreases b.stmts@.len() - k,
        {
            if self.terminated() {
                break;
            }
            assert(sv.skip(k as int)[0] == sv[k as int]);
            assert(sv.skip(k as int).drop_first() =~= sv.skip(k + 1));
            let ghost pb = self.blocks@;
            let ghost pc = self.cur as int;
            self.stmt(&b.stmts[k]);
            proof {
                lemma_kept_blocks_trans(old(self).blocks@, old(self).cur as int, pb, pc, self.blocks@, self.cur as int);
            }
            k = k + 1;
        }
        self.scopes.pop();
        proof {
            assert forall|i: int, j: int|
                0 <= i < self.scopes@.len() && 0 <= j < self.scopes@[i]@.len() implies (#[trigger] self.scopes@[i]@[j]).1 < self.slots by {
            }
        }
    }

    #[verifier::rlimit(100)]
    fn expr(&mut self, e: &Expr) -> (r: Operand)
        requires
            old(self).inv(),
            old(self).room(expr_cost(e@) as int),
            expr_calls_ok(old(self).funcs@, e@),
            expr_ids_lt(e@, old(self).typed.expr_types@.len() as int),
        ensures
            all_written(old(self).blocks@, old(self).temps as int) ==> all_written(final(self).blocks@, final(self).temps as int),
            final(self).inv(),
            final(self).grew(old(self)),
            final(self).within(old(self), expr_cost(e@) as int),
            final(self).kept_from(old(self)),
            operand_ok(r, final(self).temps as int),
            match e.kind {
                ExprKind::Int(n) => r == Operand::Const(n) && final(self).unchanged(old(self)),
                ExprKind::Bool(b) => r == Operand::Const(if b { 1 } else { 0 }) && final(self).unchanged(old(self)),
                ExprKind::Str(_) => r == Operand::Const(0) && final(self).unchanged(old(self)),
                ExprKind::Var(name) => {
                    &&& r == Operand::Temp(old(self).temps)
                    &&& final(self).temps == old(self).temps + 1
                    &&& final(self).cur == old(self).cur
                    &&& final(self).cur_instrs() == old(self).cur_instrs().push(
                        Instr::Load {
                            dst: old(self).temps,
                            slot: match find_in_scopes(old(self).scopes@, name@) {
                                Some(x) => x,
                                None => old(self).slots,
                            },
                        },
                    )
                },
                ExprKind::Unary(op, _) => {
                    &&& r == Operand::Temp((final(self).temps - 1) as u32)
                    &&& final(self).cur_instrs().len() > 0
                    &&& match op {
                        UnOp::Neg => final(self).cur_instrs().last() is Neg,
                        UnOp::Not => final(self).cur_instrs().last() is Not,
                    }
                    &&& writes(final(self).cur_instrs().last()) == Some((final(self).temps - 1) as u32)
                },
                ExprKind::Binary(op, _, _) => {
                    &&& r == Operand::Temp((final(self).temps - 1) as u32)
                    &&& final(self).cur_instrs().len() > 0
                    &&& writes(final(self).cur_instrs().last()) == Some((final(self).temps - 1) as u32)
                    &&& if op == BinOp::And || op == BinOp::Or {
                        &&& final(self).cur >= old(self).blocks@.len()
                        &&& final(self).cur_instrs().len() == 1
                        &&& final(self).cur_instrs().last() is Load
                    } else {
                        &&& final(self).cur_instrs().last() is Bin
                        &&& final(self).cur_instrs().last()->Bin_op == ir_op_of(op)
                    }
                },
                ExprKind::Call(name, args) => {
                    &&& final(self).cur_instrs().len() > 0
                    &&& final(self).cur_instrs().last() is Call
                    &&& final(self).cur_instrs().last()->Call_func == find_fn(old(self).funcs@, name@)->0
                    &&& final(self).cur_instrs().last()->Call_args@.len() == args@.len()
                    &&& if old(self).typed.expr_types@[e.id as int] == Ty::Unit {
                        &&& final(self).cur_instrs().last()->Call_dst == None::<u32>
                        &&& r == Operand::Const(0)
                    } else {
                        &&& final(self).cur_instrs().last()->Call_dst == Some((final(self).temps - 1) as u32)
                        &&& r == Operand::Temp((final(self).temps - 1) as u32)
                    }
                },
            },
        decreases e,
    {
        match &e.kind {
            ExprKind::Int(n) => Operand::Const(*n),
            ExprKind::Bool(b) => Operand::Const(if *b { 1 } else { 0 }),
            ExprKind::Str(_) => Operand::Const(0),
            ExprKind::Var(name) => {
                let slot = match self.lookup(name.as_str()) {
                    Some(s) => s,
                    None => self.slot(name.as_str()),
                };
                let dst = self.temp();
                self.emit(Instr::Load { dst, slot });
                Operand::Temp(dst)
            },
            ExprKind::Unary(op, x) => {
                let a = self.expr(x);
                let dst = self.temp();
                match op {
                    UnOp::Neg => self.emit(Instr::Neg { dst, a }),
                    UnOp::Not => self.emit(Instr::Not { dst, a }),
                }
                Operand::Temp(dst)
            },
            ExprKind::Binary(op, a, b) => {
                if *op == BinOp::And || *op == BinOp::Or {
                    // Short-circuit through a slot: the result is `a`, replaced by `b`
                    // only when `a` does not decide.
                    let av = self.expr(a);
                    let slot = self.slot("$sc");
                    self.emit(Instr::Store { slot, src: av });
                    let rhs = self.new_block();
                    let join = self.new_block();
                    if *op == BinOp::And {
                        self.term(Term::Br { cond: av, t: rhs, f: join });
                    } else {
                        self.term(Term::Br { cond: av, t: join, f: rhs });
                    }
                    self.cur = rhs;
                    let bv = self.expr(b);
                    self.emit(Instr::Store { slot, src: bv });
                    self.term(Term::Jmp(join));
                    self.cur = join;
                    let dst = self.temp();
                    self.emit(Instr::Load { dst, slot });
                    Operand::Temp(dst)
                } else {
                    let av = self.expr(a);
                    let bv = self.expr(b);
                    let dst = self.temp();
                    let op = ir_op(*op);
                    self.emit(Instr::Bin { dst, op, a: av, b: bv });
                    Operand::Temp(dst)
                }
            },
            ExprKind::Call(name, args) => {
                let vals = self.call_args(args);
                let func = self.func_index(name.as_str());
                proof {
                    lemma_find_fn_range(self.funcs@, name@);
                    assert(self.ar()[func as int] == self.funcs@[func as int].params.len());
                }
                let dst = if self.typed.expr_types[e.id] == Ty::Unit {
                    None
                } else {
                    Some(self.temp())
                };
                proof {
                    lemma_exprs_v(args@);
                    assert(self.ar().len() == self.funcs@.len());
                    assert(vals@.len() == self.ar()[func as int]);
                    assert forall|j: int| 0 <= j < vals@.len() implies operand_ok(#[trigger] vals@[j], self.temps as int) by {
                        assert(operand_ok(vals@[j], self.temps as int) || operand_ok(vals@[j], self.temps - 1));
                    }
                }
                self.emit(Instr::Call { dst, func, args: vals });
                match dst {
                    Some(d) => Operand::Temp(d),
                    None => Operand::Const(0),
                }
            },
        }
    }
}

/// Lowers a checked program to IR. The result is well formed, has one
/// function per declaration, in order, with the same names and parameter
/// counts, and starts at `main`. In each function every temp is written by
/// exactly one instruction, and no block jumps back to the entry.
pub fn lower<F: Fn(usize) -> u32>(ast: &Ast, typed: &Typed, line_of: &F) -> (p: Program)
    requires
        program_ids_ok(ast@),
        program_calls_ok(ast@),
        typed.expr_types@.len() == ast.expr_count,
        fn_index_view(typed.fn_index@) == fn_table(ast@.funcs),
        find_fn(ast@.funcs, "main"@) is Some,
        forall|i: int| 0 <= i < ast@.funcs.len() ==> fn_cost(#[trigger] ast@.funcs[i]) <= 0x3fff_ffff,
        forall|x: usize| call_requires(*line_of, (x,)),
    ensures
        ir_wf(p),
        forall|i: int| 0 <= i < p.funcs@.len() ==> entry_never_entered(#[trigger] p.funcs@[i]),
        forall|i: int| 0 <= i < p.funcs@.len() ==> writes_once(#[trigger] p.funcs@[i].blocks@),
        forall|i: int| 0 <= i < p.funcs@.len() ==> all_written(#[trigger] p.funcs@[i].blocks@, p.funcs@[i].temps as int),
        p.funcs@.len() == ast.funcs@.len(),
        p.main == find_fn(ast@.funcs, "main"@)->0,
        forall|i: int|
            0 <= i < p.funcs@.len() ==> {
                &&& (#[trigger] p.funcs@[i]).name@ == ast@.funcs[i].name
                &&& p.funcs@[i].params == ast@.funcs[i].params.len()
                &&& p.funcs@[i].returns_value == (ast@.funcs[i].ret != Ty::Unit)
            },
{
    let ghost fs = ast@.funcs;
    let ghost ar = ast_arities(fs);
    let mut strings: Vec<String> = Vec::new();
    let mut funcs: Vec<Func> = Vec::new();
    let mut i: usize = 0;
    while i < ast.funcs.len()
        invariant
            fs == ast@.funcs,
            ar == ast_arities(fs),
            ar.len() == fs.len(),
            i <= ast.funcs@.len(),
            funcs@.len() == i,
            program_ids_ok(ast@),
            program_calls_ok(ast@),
            typed.expr_types@.len() == ast.expr_count,
            fn_index_view(typed.fn_index@) == fn_table(fs),
            forall|j: int| 0 <= j < fs.len() ==> fn_cost(#[trigger] fs[j]) <= 0x3fff_ffff,
            forall|x: usize| call_requires(*line_of, (x,)),
            forall|j: int| 0 <= j < i ==> func_ok(#[trigger] funcs@[j], ar, strings@.len() as int),
            forall|j: int| 0 <= j < i ==> entry_never_entered(#[trigger] funcs@[j]),
            forall|j: int| 0 <= j < i ==> writes_once(#[trigger] funcs@[j].blocks@),
            forall|j: int| 0 <= j < i ==> all_written(#[trigger] funcs@[j].blocks@, funcs@[j].temps as int),
            forall|j: int|
                0 <= j < i ==> {
                    &&& (#[trigger] funcs@[j]).name@ == fs[j].name
                    &&& funcs@[j].params == fs[j].params.len()
                    &&& funcs@[j].returns_value == (fs[j].ret != Ty::Unit)
                },
        decreases ast.funcs@.len() - i,
    {
        let f = &ast.funcs[i];
        assert(fs[i as int] == f@);
        assert(block_ids_lt(f@.body, ast@.expr_count));
        assert(block_calls_ok(fs, f@.body));
        assert(fn_cost(fs[i as int]) <= 0x3fff_ffff);
        let mut first: Vec<BasicBlock> = Vec::new();
        first.push(BasicBlock { instrs: Vec::new(), term: Term::Unset, line: 0 });
        let mut scopes: Vec<Vec<(String, u32)>> = Vec::new();
        scopes.push(Vec::new());
        let ghost nstr0 = strings@.len();
        let mut l = Lower {
            typed,
            funcs: Ghost(fs),
            blocks: first,
            temps: 0,
            slots: 0,
            cur: 0,
            scopes,
            strings,
            line_of,
        };
        proof {
            assert(instrs_ok(l.blocks@[0].instrs@, 0, 0, ar, nstr0 as int));
            assert(blocks_ok(l.blocks@, 0, 0, ar, nstr0 as int));
        }
        let mut k: usize = 0;
        while k < f.params.len()
            invariant
                l.inv(),
                l.typed == typed,
                l.funcs@ == fs,
                l.line_of == line_of,
                k <= f.params@.len(),
                f.params@.len() == fs[i as int].params.len(),
                fn_cost(fs[i as int]) <= 0x3fff_ffff,
                l.slots == k,
                l.temps == 0,
                l.blocks@.len() == 1,
                l.strings@.len() >= nstr0,
            decreases f.params@.len() - k,
        {
            l.slot(f.params[k].name.as_str());
            k = k + 1;
        }
        l.block(&f.body);
        let ghost nstr = l.strings@.len();
        let ghost nb = l.blocks@.len();
        let ghost lb = l.blocks@;
        let mut blocks = l.blocks;
        let temps = l.temps;
        let slots = l.slots;
        strings = l.strings;
        let mut b: usize = 0;
        while b < blocks.len()
            invariant
                nb == blocks@.len(),
                1 <= nb <= u32::MAX,
                b <= nb,
                blocks_ok(blocks@, temps as int, slots as int, ar, nstr as int),
                forall|j: int| 0 <= j < b ==> #[trigger] blocks@[j].term != Term::Unset,
                forall|j: int| 0 <= j < nb ==> (#[trigger] blocks@[j]).instrs@ == lb[j].instrs@,
            decreases nb - b,
        {
            if blocks[b].term == Term::Unset {
                let mut blk = BasicBlock { instrs: Vec::new(), term: Term::Unset, line: 0 };
                std::mem::swap(&mut blk, &mut blocks[b]);
                blk.term = Term::Ret(None);
                proof {
                    lemma_blocks_update(blocks@.update(b as int, blk), b as int, blk, temps as int, slots as int, ar, nstr as int);
                }
                let ghost prev = blocks@;
                blocks.set(b, blk);
                proof {
                    assert forall|j: int| 0 <= j < b + 1 implies #[trigger] blocks@[j].term != Term::Unset by {
                        if j < b {
                            assert(blocks@[j] == prev[j]);
                        }
                    }
                }
            }
            b = b + 1;
        }
        let func = Func {
            name: f.name.clone(),
            params: f.params.len() as u32,
            slots,
            temps,
            blocks,
            returns_value: f.ret != Ty::Unit,
        };
        proof {
            assert forall|j: int| 0 <= j < func.blocks@.len() implies crate::ir::block_ok(#[trigger] func.blocks@[j], func, ar, nstr as int) by {
                assert(partial_ok(func.blocks@[j], temps as int, slots as int, ar, nstr as int, nb as int));
            }
            assert(func_ok(func, ar, nstr as int));
            assert forall|j: int, k: int|
                0 <= j < func.blocks@.len() && 0 <= k < succs(func.blocks@[j].term).len() implies #[trigger] succs(func.blocks@[j].term)[k] != 0 by {
                assert(partial_ok(func.blocks@[j], temps as int, slots as int, ar, nstr as int, nb as int));
            }
            assert(entry_never_entered(func));
            lemma_writes_once_same(lb, func.blocks@);
            lemma_written_same(lb, func.blocks@, temps as int);
        }
        let ghost prevf = funcs@;
        funcs.push(func);
        proof {
            assert forall|j: int| 0 <= j < i + 1 implies func_ok(#[trigger] funcs@[j], ar, strings@.len() as int) by {
                if j < i {
                    assert(funcs@[j] == prevf[j]);
                    lemma_func_mono(prevf[j], ar, nstr0 as int, nstr as int);
                }
            }
            assert forall|j: int| 0 <= j < i + 1 implies entry_never_entered(#[trigger] funcs@[j]) by {
                if j < i {
                    assert(funcs@[j] == prevf[j]);
                }
            }
            assert forall|j: int| 0 <= j < i + 1 implies writes_once(#[trigger] funcs@[j].blocks@) by {
                if j < i {
                    assert(funcs@[j] == prevf[j]);
                }
            }
            assert forall|j: int| 0 <= j < i + 1 implies all_written(#[trigger] funcs@[j].blocks@, funcs@[j].temps as int) by {
                if j < i {
                    assert(funcs@[j] == prevf[j]);
                }
            }
        }
        i = i + 1;
    }
    let main = index_of(&typed.fn_index, "main", Ghost(fs));
    let p = Program { funcs, strings, main };
    proof {
        lemma_find_fn_range(fs, "main"@);
        assert(arities(p) =~= ar);
    }
    p
}

/// More strings keep a function well formed.
proof fn lemma_func_mono(f: Func, ar: Seq<int>, n: int, n2: int)
    requires
        func_ok(f, ar, n),
        n <= n2,
    ensures
        func_ok(f, ar, n2),
{
    assert forall|b: int| 0 <= b < f.blocks@.len() implies crate::ir::block_ok(#[trigger] f.blocks@[b], f, ar, n2) by {
        let blk = f.blocks@[b];
        assert forall|k: int| 0 <= k < blk.instrs@.len() implies instr_ok(#[trigger] blk.instrs@[k], f.temps as int, f.slots as int, ar, n2) by {
            lemma_instr_ok_mono(blk.instrs@[k], f.temps as int, f.slots as int, ar, n, f.temps as int, f.slots as int, n2);
        }
    }
}

/// The IR operation of an arithmetic or comparison operator.
pub open spec fn ir_op_of(op: BinOp) -> Op {
    match op {
        BinOp::Add => Op::Add,
        BinOp::Sub => Op::Sub,
        BinOp::Mul => Op::Mul,
        BinOp::Div => Op::Div,
        BinOp::Rem => Op::Rem,
        BinOp::Lt => Op::Lt,
        BinOp::Le => Op::Le,
        BinOp::Gt => Op::Gt,
        BinOp::Ge => Op::Ge,
        BinOp::Eq => Op::Eq,
        _ => Op::Ne,
    }
}

/// The IR operation of an arithmetic or comparison operator (`&&` and `||`
/// are lowered to branches instead).
fn ir_op(op: BinOp) -> (r: Op)
    requires
        op != BinOp::And,
        op != BinOp::Or,
    ensures
        r == ir_op_of(op),
{
    match op {
        BinOp::Add => Op::Add,
        BinOp::Sub => Op::Sub,
        BinOp::Mul => Op::Mul,
        BinOp::Div => Op::Div,
        BinOp::Rem => Op::Rem,
        BinOp::Lt => Op::Lt,
        BinOp::Le => Op::Le,
        BinOp::Gt => Op::Gt,
        BinOp::Ge => Op::Ge,
        BinOp::Eq => Op::Eq,
        _ => Op::Ne,
    }
}

/// The index recorded for `name` in a function table.
fn index_of(table: &Vec<(String, usize)>, name: &str, funcs: Ghost<Seq<FnDeclV>>) -> (k: usize)
    requires
        fn_index_view(table@) == fn_table(funcs@),
        find_fn(funcs@, name@) is Some,
    ensures
        k == find_fn(funcs@, name@)->0,
{
    let mut k: usize = 0;
    proof {
        lemma_find_fn_range(funcs@, name@);
        assert(fn_index_view(table@).len() == table@.len());
        assert(fn_table(funcs@).len() == funcs@.len());
    }
    while k < table.len()
        invariant
            fn_index_view(table@) == fn_table(funcs@),
            table@.len() == funcs@.len(),
            find_fn(funcs@, name@) is Some,
            k <= table@.len(),
            find_fn(funcs@.take(k as int), name@) is None,
        decreases table@.len() - k,
    {
        assert(fn_index_view(table@)[k as int] == (table@[k as int].0@, table@[k as int].1 as int));
        assert(funcs@.take(k + 1).drop_last() =~= funcs@.take(k as int));
        if str_eq(table[k].0.as_str(), name) {
            proof {
                lemma_find_fn_prefix(funcs@, k + 1, name@);
            }
            return table[k].1;
        }
        k = k + 1;
    }
    assert(funcs@.take(k as int) =~= funcs@);
    0
}

} // verus!
