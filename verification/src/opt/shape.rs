//! What every pass keeps of a function's shape: each temp written by at
//! most one instruction (the instructions a pass leaves each come from an
//! instruction of their own that writes the same temp), and no jump or
//! branch back to the entry block.

use vstd::prelude::*;

use crate::ir::{BasicBlock, Func, Instr, Term, block_ok, entry_never_entered, func_ok, succs, writes, writes_once};
use crate::opt::{
    blocks_kept, blocks_merged, block_threaded, branches_folded, chain_merged, flat, folded_term, follow, lemma_count_set_le, lemma_count_set_mono,
    renumbered_term, skips_to, count_set, dead_dropped, droppable, empty_jump, entry_source, jumps_threaded,
    kept_instrs, same_kind, swaps_entry,
};

verus! {

/// `idx` places each instruction of `s2` at an instruction of `s` that
/// writes the same temp, in increasing order.
pub open spec fn sub_writes(s2: Seq<Instr>, s: Seq<Instr>, idx: Seq<int>) -> bool {
    &&& idx.len() == s2.len()
    &&& forall|j: int| 0 <= j < idx.len() ==> 0 <= #[trigger] idx[j] < s.len()
    &&& forall|j: int| 0 <= j < idx.len() ==> writes(#[trigger] s2[j]) == writes(s[idx[j]])
    &&& forall|j1: int, j2: int| 0 <= j1 < j2 < idx.len() ==> #[trigger] idx[j1] < #[trigger] idx[j2]
}

/// Some `idx` places the instructions of `s2` in `s`.
pub open spec fn drawn_from(s2: Seq<Instr>, s: Seq<Instr>) -> bool {
    exists|idx: Seq<int>| sub_writes(s2, s, idx)
}

/// Each block of `g` draws its instructions, in order, from the same block
/// of `f`: no temp is then written twice in `g` that was written once in `f`.
pub(crate) proof fn lemma_writes_subseq(g: Seq<BasicBlock>, f: Seq<BasicBlock>)
    requires
        writes_once(f),
        g.len() == f.len(),
        forall|y: int| 0 <= y < g.len() ==> drawn_from(#[trigger] g[y].instrs@, f[y].instrs@),
    ensures
        writes_once(g),
{
    assert forall|b1: int, k1: int, b2: int, k2: int|
        0 <= b1 < g.len() && 0 <= k1 < g[b1].instrs@.len() && 0 <= b2 < g.len() && 0 <= k2 < g[b2].instrs@.len()
            && (#[trigger] writes(g[b1].instrs@[k1])) is Some && #[trigger] writes(g[b2].instrs@[k2]) == writes(
            g[b1].instrs@[k1],
        ) implies b1 == b2 && k1 == k2 by {
        let i1 = choose|idx: Seq<int>| sub_writes(g[b1].instrs@, f[b1].instrs@, idx);
        let i2 = choose|idx: Seq<int>| sub_writes(g[b2].instrs@, f[b2].instrs@, idx);
        assert(writes(g[b1].instrs@[k1]) == writes(f[b1].instrs@[i1[k1]]));
        assert(writes(g[b2].instrs@[k2]) == writes(f[b2].instrs@[i2[k2]]));
        assert(0 <= i1[k1] < f[b1].instrs@.len());
        assert(0 <= i2[k2] < f[b2].instrs@.len());
        assert(b1 == b2 && i1[k1] == i2[k2]);
        if k1 < k2 {
            assert(i1[k1] < i1[k2]);
        } else if k2 < k1 {
            assert(i1[k2] < i1[k1]);
        }
    }
}

/// Each block of `g` is empty or holds the instructions of the block of `f`
/// that `sel` names, no block of `f` being named twice.
pub(crate) proof fn lemma_writes_select(g: Seq<BasicBlock>, f: Seq<BasicBlock>, sel: Seq<int>)
    requires
        writes_once(f),
        sel.len() == g.len(),
        forall|y: int|
            0 <= y < g.len() ==> (#[trigger] g[y]).instrs@.len() == 0 || (0 <= sel[y] < f.len() && g[y].instrs@
                == f[sel[y]].instrs@),
        forall|y1: int, y2: int|
            0 <= y1 < g.len() && 0 <= y2 < g.len() && y1 != y2 && g[y1].instrs@.len() > 0 && g[y2].instrs@.len() > 0
                ==> #[trigger] sel[y1] != #[trigger] sel[y2],
    ensures
        writes_once(g),
{
    assert forall|b1: int, k1: int, b2: int, k2: int|
        0 <= b1 < g.len() && 0 <= k1 < g[b1].instrs@.len() && 0 <= b2 < g.len() && 0 <= k2 < g[b2].instrs@.len()
            && (#[trigger] writes(g[b1].instrs@[k1])) is Some && #[trigger] writes(g[b2].instrs@[k2]) == writes(
            g[b1].instrs@[k1],
        ) implies b1 == b2 && k1 == k2 by {
        assert(g[b1].instrs@.len() > 0);
        assert(g[b2].instrs@.len() > 0);
        assert(g[b1].instrs@ == f[sel[b1]].instrs@);
        assert(g[b2].instrs@ == f[sel[b2]].instrs@);
        assert(writes(f[sel[b1]].instrs@[k1]) is Some);
        if b1 != b2 {
            assert(sel[b1] != sel[b2]);
        }
    }
}

/// Taking out droppable instructions leaves a part of the block, in order.
pub(crate) proof fn lemma_kept_sub(s: Seq<Instr>, lt: Seq<bool>, ls: Seq<bool>) -> (idx: Seq<int>)
    ensures
        sub_writes(kept_instrs(s, lt, ls), s, idx),
    decreases s.len(),
{
    if s.len() == 0 {
        Seq::empty()
    } else {
        let rest = lemma_kept_sub(s.skip(1), lt, ls);
        let shifted = rest.map_values(|i: int| i + 1);
        let k2 = kept_instrs(s.skip(1), lt, ls);
        assert forall|j: int| 0 <= j < shifted.len() implies writes(#[trigger] k2[j]) == writes(s[shifted[j]]) by {
            assert(s.skip(1)[rest[j]] == s[rest[j] + 1]);
        }
        if droppable(s[0], lt, ls) {
            shifted
        } else {
            let idx = seq![0int] + shifted;
            let k = kept_instrs(s, lt, ls);
            assert(k == seq![s[0]] + k2);
            assert forall|j: int| 0 <= j < idx.len() implies writes(#[trigger] k[j]) == writes(s[idx[j]]) by {
                if j > 0 {
                    assert(k[j] == k2[j - 1]);
                    assert(idx[j] == shifted[j - 1]);
                }
            }
            assert forall|j1: int, j2: int| 0 <= j1 < j2 < idx.len() implies #[trigger] idx[j1] < #[trigger] idx[j2] by {
                if j1 > 0 {
                    assert(idx[j1] == shifted[j1 - 1]);
                }
                assert(idx[j2] == shifted[j2 - 1]);
            }
            assert forall|j: int| 0 <= j < idx.len() implies 0 <= #[trigger] idx[j] < s.len() by {
                if j > 0 {
                    assert(idx[j] == shifted[j - 1]);
                }
            }
            idx
        }
    }
}

/// The identity places a block's instructions in themselves.
proof fn lemma_sub_same(s: Seq<Instr>)
    ensures
        sub_writes(s, s, Seq::new(s.len(), |j: int| j)),
{
}

/// Dead-code removal keeps each temp written at most once.
pub(crate) proof fn lemma_dead_dropped_writes(f: Func, g: Func, lt: Seq<bool>, ls: Seq<bool>)
    requires
        dead_dropped(f, g, lt, ls),
        writes_once(f.blocks@),
    ensures
        writes_once(g.blocks@),
{
    assert forall|y: int| 0 <= y < g.blocks@.len() implies drawn_from(#[trigger] g.blocks@[y].instrs@, f.blocks@[y].instrs@) by {
        assert(f.blocks@[y] == f.blocks@[y]);
        let idx = lemma_kept_sub(f.blocks@[y].instrs@, lt, ls);
    }
    lemma_writes_subseq(g.blocks@, f.blocks@);
}

/// Branch folding keeps each temp written at most once.
pub(crate) proof fn lemma_branches_folded_writes(f: Func, g: Func)
    requires
        branches_folded(f, g),
        writes_once(f.blocks@),
    ensures
        writes_once(g.blocks@),
{
    assert forall|y: int| 0 <= y < g.blocks@.len() implies drawn_from(#[trigger] g.blocks@[y].instrs@, f.blocks@[y].instrs@) by {
        assert(g.blocks@[y].instrs == f.blocks@[y].instrs);
        lemma_sub_same(f.blocks@[y].instrs@);
        let idx = Seq::new(f.blocks@[y].instrs@.len(), |j: int| j);
        assert(sub_writes(g.blocks@[y].instrs@, f.blocks@[y].instrs@, idx));
    }
    assert(g.blocks@.len() == f.blocks@.len());
    lemma_writes_subseq(g.blocks@, f.blocks@);
}

/// Jump threading keeps each temp written at most once.
pub(crate) proof fn lemma_jumps_threaded_writes(f: Func, g: Func, ar: Seq<int>, nstr: int)
    requires
        jumps_threaded(f, g),
        func_ok(f, ar, nstr),
        writes_once(f.blocks@),
    ensures
        writes_once(g.blocks@),
{
    let e0 = entry_source(f);
    let n = f.blocks@.len();
    let sel = Seq::new(n, |y: int| if y == 0 { e0 } else { y });
    if swaps_entry(f) {
        assert(0 <= e0 < n) by {
            assert(empty_jump(f, 0) is Some);
            assert(block_ok(f.blocks@[0], f, ar, nstr));
        }
    }
    assert forall|y: int|
        0 <= y < g.blocks@.len() implies (#[trigger] g.blocks@[y]).instrs@.len() == 0 || (0 <= sel[y] < f.blocks@.len()
            && g.blocks@[y].instrs@ == f.blocks@[sel[y]].instrs@) by {
        if y != 0 && y != e0 {
            assert(block_threaded(f, f.blocks@[y], g.blocks@[y]));
        }
    }
    lemma_writes_select(g.blocks@, f.blocks@, sel);
}

/// Some reachable block takes each place after renumbering.
proof fn lemma_count_set_onto(reach: Seq<bool>, n: int, y: int) -> (b: int)
    requires
        0 <= n <= reach.len(),
        0 <= y < count_set(reach, n),
    ensures
        0 <= b < n,
        reach[b],
        count_set(reach, b) == y,
    decreases n,
{
    if y < count_set(reach, n - 1) {
        lemma_count_set_onto(reach, n - 1, y)
    } else {
        n - 1
    }
}

/// Unreachable-block removal keeps each temp written at most once.
pub(crate) proof fn lemma_blocks_kept_writes(f: Func, g: Func, reach: Seq<bool>)
    requires
        blocks_kept(f, g, reach),
        writes_once(f.blocks@),
    ensures
        writes_once(g.blocks@),
{
    let n = reach.len() as int;
    let sel = Seq::new(g.blocks@.len(), |y: int| choose|b: int| 0 <= b < n && reach[b] && count_set(reach, b) == y);
    assert forall|y: int| 0 <= y < g.blocks@.len() implies 0 <= sel[y] < n && reach[sel[y]] && count_set(reach, sel[y]) == y by {
        let b = lemma_count_set_onto(reach, n, y);
    }
    assert forall|y: int|
        0 <= y < g.blocks@.len() implies (#[trigger] g.blocks@[y]).instrs@.len() == 0 || (0 <= sel[y] < f.blocks@.len()
            && g.blocks@[y].instrs@ == f.blocks@[sel[y]].instrs@) by {
        let b = sel[y];
        assert(f.blocks@[b] == f.blocks@[b]);
    }
    lemma_writes_select(g.blocks@, f.blocks@, sel);
}

/// Where position `k` of the merged instructions of chain `c` comes from:
/// instruction `j` of block `c[i]`, after the blocks before it.
proof fn lemma_flat_index(f: Func, c: Seq<int>, k: int) -> (r: (int, int))
    requires
        0 <= k < flat(f, c).len(),
    ensures
        0 <= r.0 < c.len(),
        0 <= r.1 < f.blocks@[c[r.0]].instrs@.len(),
        flat(f, c)[k] == f.blocks@[c[r.0]].instrs@[r.1],
        k == flat(f, c.take(r.0)).len() + r.1,
    decreases c.len(),
{
    let b0 = f.blocks@[c[0]].instrs@;
    assert(flat(f, c.take(0)) == Seq::<Instr>::empty()) by {
        assert(c.take(0).len() == 0);
    }
    if k < b0.len() {
        (0, k)
    } else {
        let (i, j) = lemma_flat_index(f, c.skip(1), k - b0.len());
        assert(c.take(i + 1).skip(1) =~= c.skip(1).take(i));
        assert(c.take(i + 1)[0] == c[0]);
        assert(flat(f, c.take(i + 1)) == b0 + flat(f, c.take(i + 1).skip(1)));
        assert(c.skip(1)[i] == c[i + 1]);
        (i + 1, j)
    }
}

/// Block merging keeps each temp written at most once.
pub(crate) proof fn lemma_blocks_merged_writes(f: Func, g: Func, chains: Seq<Option<Seq<int>>>)
    requires
        blocks_merged(f, g, chains),
        writes_once(f.blocks@),
    ensures
        writes_once(g.blocks@),
{
    let bs = g.blocks@;
    assert forall|y1: int, k1: int, y2: int, k2: int|
        0 <= y1 < bs.len() && 0 <= k1 < bs[y1].instrs@.len() && 0 <= y2 < bs.len() && 0 <= k2 < bs[y2].instrs@.len()
            && (#[trigger] writes(bs[y1].instrs@[k1])) is Some && #[trigger] writes(bs[y2].instrs@[k2]) == writes(
            bs[y1].instrs@[k1],
        ) implies y1 == y2 && k1 == k2 by {
        assert(chains[y1] is Some);
        assert(chains[y2] is Some);
        let c1 = chains[y1]->0;
        let c2 = chains[y2]->0;
        assert(chain_merged(f, g, y1, c1));
        assert(chain_merged(f, g, y2, c2));
        let (i1, j1) = lemma_flat_index(f, c1, k1);
        let (i2, j2) = lemma_flat_index(f, c2, k2);
        assert(0 <= c1[i1] < f.blocks@.len());
        assert(0 <= c2[i2] < f.blocks@.len());
        assert(writes(f.blocks@[c1[i1]].instrs@[j1]) is Some);
        assert(c1[i1] == c2[i2] && j1 == j2);
        assert(chains[y1]->0[i1] == chains[y2]->0[i2]);
    }
}

/// Instructions of the same kind write the same temp.
pub(crate) proof fn lemma_same_kind_writes(a: Instr, b: Instr)
    requires
        same_kind(a, b),
    ensures
        writes(a) == writes(b),
{
}

/// `g` has the blocks of `f`, each going to the same blocks.
pub open spec fn same_targets(f: Func, g: Func) -> bool {
    &&& g.blocks@.len() == f.blocks@.len()
    &&& forall|b: int| 0 <= b < f.blocks@.len() ==> succs((#[trigger] g.blocks@[b]).term) == succs(f.blocks@[b].term)
}

/// Keeping every block's targets keeps the entry unentered.
pub(crate) proof fn lemma_same_targets_entry(f: Func, g: Func)
    requires
        same_targets(f, g),
        entry_never_entered(f),
    ensures
        entry_never_entered(g),
{
    assert forall|j: int, k: int| 0 <= j < g.blocks@.len() && 0 <= k < succs(g.blocks@[j].term).len() implies #[trigger] succs(
        g.blocks@[j].term,
    )[k] != 0 by {
        assert(succs(g.blocks@[j].term) == succs(f.blocks@[j].term));
    }
}

/// Dead-code removal keeps the entry unentered.
pub(crate) proof fn lemma_dead_dropped_entry(f: Func, g: Func, lt: Seq<bool>, ls: Seq<bool>)
    requires
        dead_dropped(f, g, lt, ls),
        entry_never_entered(f),
    ensures
        entry_never_entered(g),
{
    assert forall|b: int| 0 <= b < f.blocks@.len() implies succs((#[trigger] g.blocks@[b]).term) == succs(f.blocks@[b].term) by {
        assert(f.blocks@[b] == f.blocks@[b]);
    }
    lemma_same_targets_entry(f, g);
}

/// Branch folding keeps the entry unentered.
pub(crate) proof fn lemma_branches_folded_entry(f: Func, g: Func)
    requires
        branches_folded(f, g),
        entry_never_entered(f),
    ensures
        entry_never_entered(g),
{
    assert forall|j: int, k: int| 0 <= j < g.blocks@.len() && 0 <= k < succs(g.blocks@[j].term).len() implies #[trigger] succs(
        g.blocks@[j].term,
    )[k] != 0 by {
        let t = f.blocks@[j].term;
        assert(g.blocks@[j].term == folded_term(t));
        match t {
            Term::Br { cond, t: x, f: y } => {
                assert(succs(t)[0] == x);
                assert(succs(t)[1] == y);
            },
            Term::Jmp(x) => {
                assert(succs(t)[0] == x);
            },
            _ => {},
        }
    }
}

/// Following empty jumps from a block other than the entry, where no block
/// enters the entry, never reaches it.
proof fn lemma_follow_not_entry(f: Func, x: int, h: nat, ar: Seq<int>, nstr: int)
    requires
        func_ok(f, ar, nstr),
        1 <= x < f.blocks@.len(),
        entry_never_entered(f),
    ensures
        1 <= follow(f, x, h) < f.blocks@.len(),
    decreases h,
{
    if h > 0 {
        if let Some(y) = empty_jump(f, x) {
            assert(block_ok(f.blocks@[x], f, ar, nstr));
            assert(succs(f.blocks@[x].term)[0] == y);
            lemma_follow_not_entry(f, y as int, (h - 1) as nat, ar, nstr);
        }
    }
}

proof fn lemma_skips_not_entry(f: Func, x: int, r: int, ar: Seq<int>, nstr: int)
    requires
        func_ok(f, ar, nstr),
        1 <= x < f.blocks@.len(),
        entry_never_entered(f),
        skips_to(f, x, r),
    ensures
        r != 0,
{
    let h = choose|h: nat|
        {
            &&& forall|j: nat| j < h ==> (#[trigger] empty_jump(f, follow(f, x, j))) is Some
            &&& follow(f, x, h) == r
        };
    lemma_follow_not_entry(f, x, h, ar, nstr);
}

/// Jump threading keeps the entry unentered.
pub(crate) proof fn lemma_jumps_threaded_entry(f: Func, g: Func, ar: Seq<int>, nstr: int)
    requires
        jumps_threaded(f, g),
        func_ok(f, ar, nstr),
        entry_never_entered(f),
    ensures
        entry_never_entered(g),
{
    let e0 = entry_source(f);
    if swaps_entry(f) {
        assert(0 <= e0 < f.blocks@.len()) by {
            assert(block_ok(f.blocks@[0], f, ar, nstr));
        }
    }
    assert forall|j: int, k: int| 0 <= j < g.blocks@.len() && 0 <= k < succs(g.blocks@[j].term).len() implies #[trigger] succs(
        g.blocks@[j].term,
    )[k] != 0 by {
        let src = if j == 0 { e0 } else { j };
        if swaps_entry(f) && j == e0 {
            let r = g.blocks@[j].term->Jmp_0;
            assert(succs(g.blocks@[j].term)[0] == r);
            lemma_skips_not_entry(f, e0, r as int, ar, nstr);
        } else {
            assert(block_threaded(f, f.blocks@[src], g.blocks@[j]));
            let t = f.blocks@[src].term;
            assert(block_ok(f.blocks@[src], f, ar, nstr));
            match t {
                Term::Jmp(x) => {
                    assert(succs(t)[0] == x);
                    let r = g.blocks@[j].term->Jmp_0;
                    assert(succs(g.blocks@[j].term)[0] == r);
                    lemma_skips_not_entry(f, x as int, r as int, ar, nstr);
                },
                Term::Br { t: x, f: y, .. } => {
                    assert(succs(t)[0] == x);
                    assert(succs(t)[1] == y);
                    let rx = g.blocks@[j].term->Br_t;
                    let ry = g.blocks@[j].term->Br_f;
                    assert(succs(g.blocks@[j].term)[0] == rx);
                    assert(succs(g.blocks@[j].term)[1] == ry);
                    lemma_skips_not_entry(f, x as int, rx as int, ar, nstr);
                    lemma_skips_not_entry(f, y as int, ry as int, ar, nstr);
                },
                _ => {},
            }
        }
    }
}

/// Block merging keeps the entry unentered.
pub(crate) proof fn lemma_blocks_merged_entry(f: Func, g: Func, chains: Seq<Option<Seq<int>>>, ar: Seq<int>, nstr: int)
    requires
        blocks_merged(f, g, chains),
        func_ok(f, ar, nstr),
        entry_never_entered(f),
    ensures
        entry_never_entered(g),
{
    assert forall|j: int, k: int| 0 <= j < g.blocks@.len() && 0 <= k < succs(g.blocks@[j].term).len() implies #[trigger] succs(
        g.blocks@[j].term,
    )[k] != 0 by {
        if chains[j] is Some {
            let c = chains[j]->0;
            assert(chain_merged(f, g, j, c));
            assert(0 <= c.last() < f.blocks@.len());
            assert(succs(f.blocks@[c.last()].term)[k] != 0);
        } else {
            assert(succs(g.blocks@[j].term)[0] == j);
        }
    }
}

/// Unreachable-block removal keeps the entry unentered.
pub(crate) proof fn lemma_blocks_kept_entry(f: Func, g: Func, reach: Seq<bool>, ar: Seq<int>, nstr: int)
    requires
        blocks_kept(f, g, reach),
        func_ok(f, ar, nstr),
        entry_never_entered(f),
    ensures
        entry_never_entered(g),
{
    let n = reach.len() as int;
    assert forall|j: int, k: int| 0 <= j < g.blocks@.len() && 0 <= k < succs(g.blocks@[j].term).len() implies #[trigger] succs(
        g.blocks@[j].term,
    )[k] != 0 by {
        let b = lemma_count_set_onto(reach, n, j);
        assert(f.blocks@[b] == f.blocks@[b]);
        assert(block_ok(f.blocks@[b], f, ar, nstr));
        let t = f.blocks@[b].term;
        assert(g.blocks@[j].term == renumbered_term(t, reach));
        match t {
            Term::Jmp(x) => {
                assert(succs(t)[0] == x);
                lemma_count_set_mono(reach, 1, x as int);
                lemma_count_set_le(reach, x as int);
                assert(count_set(reach, 1) == 1) by {
                    assert(count_set(reach, 0) == 0);
                }
            },
            Term::Br { t: x, f: y, .. } => {
                assert(succs(t)[0] == x);
                assert(succs(t)[1] == y);
                lemma_count_set_mono(reach, 1, x as int);
                lemma_count_set_mono(reach, 1, y as int);
                lemma_count_set_le(reach, x as int);
                lemma_count_set_le(reach, y as int);
                assert(count_set(reach, 1) == 1) by {
                    assert(count_set(reach, 0) == 0);
                }
            },
            _ => {},
        }
    }
}

} // verus!
