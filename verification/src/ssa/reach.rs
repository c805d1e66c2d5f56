//! Which SSA value reaches a register at a return.

use vstd::prelude::*;
use std::collections::{HashMap, HashSet};
use pcode_ir::PcodeOp;
use crate::pcode::PcodeView;
use crate::ssa::{BlockView, FunctionView, KindView, Location, OpView, SsaBlock, SsaFunction, SsaOp, SsaOpKind, SsaVar};

verus! {

broadcast use vstd::std_specs::hash::group_hash_axioms;

/// Position of the first block from `i` on with this id.
pub open spec fn block_with(f: FunctionView, id: u32, i: int) -> Option<int>
    decreases f.blocks.len() - i,
{
    if i < 0 || i >= f.blocks.len() {
        None
    } else if f.blocks[i].id == id {
        Some(i)
    } else {
        block_with(f, id, i + 1)
    }
}

/// The operation is a return.
pub open spec fn is_return(op: OpView) -> bool {
    op.kind matches KindView::Pcode(PcodeView::Plain(PcodeOp::Return { .. }))
}

/// Position of the first return from `i` on.
pub open spec fn return_from(ops: Seq<OpView>, i: int) -> Option<int>
    decreases ops.len() - i,
{
    if i < 0 || i >= ops.len() {
        None
    } else if is_return(ops[i]) {
        Some(i)
    } else {
        return_from(ops, i + 1)
    }
}

/// `v` lives in the register container at `reg`.
pub open spec fn in_container(v: SsaVar, reg: u64) -> bool {
    v.location == Location::Register { base_offset: reg }
}

/// The first of `uses` from `i` on that lives in the container.
pub open spec fn used_from(uses: Seq<SsaVar>, reg: u64, i: int) -> Option<SsaVar>
    decreases uses.len() - i,
{
    if i < 0 || i >= uses.len() {
        None
    } else if in_container(uses[i], reg) {
        Some(uses[i])
    } else {
        used_from(uses, reg, i + 1)
    }
}

/// The last of the first `n` definitions that lives in the container.
pub open spec fn defined_before(ops: Seq<OpView>, reg: u64, n: int) -> Option<SsaVar>
    decreases n,
{
    if n <= 0 {
        None
    } else {
        match ops[n - 1].def {
            Some(v) => if in_container(v, reg) {
                Some(v)
            } else {
                defined_before(ops, reg, n - 1)
            },
            None => defined_before(ops, reg, n - 1),
        }
    }
}

/// What the block itself says: the value that its return uses, else the last
/// definition before the return, or in the whole block if it has none.
pub open spec fn local_value(b: BlockView, reg: u64) -> Option<SsaVar> {
    match return_from(b.ops, 0) {
        Some(i) => match used_from(b.ops[i].uses, reg, 0) {
            Some(v) => Some(v),
            None => defined_before(b.ops, reg, i),
        },
        None => defined_before(b.ops, reg, b.ops.len() as int),
    }
}

// ─── The value that reaches a block ─────────────────────────────────────────

/// Block `id` exists and says nothing itself: what it holds comes from its predecessors.
pub open spec fn passes(f: FunctionView, id: u32, reg: u64) -> bool {
    block_with(f, id, 0) matches Some(k) && local_value(f.blocks[k], reg) is None
}

/// The predecessors of block `id`.
pub open spec fn preds_of(f: FunctionView, id: u32) -> Seq<u32> {
    match block_with(f, id, 0) {
        Some(k) => f.blocks[k].preds,
        None => Seq::empty(),
    }
}

/// Step `i` of `q` goes from a block that passes to one of its predecessors.
pub open spec fn back_step(f: FunctionView, reg: u64, q: Seq<u32>, i: int) -> bool {
    passes(f, q[i], reg) && preds_of(f, q[i]).contains(q[i + 1])
}

/// `q` goes back from block `id` over blocks that pass.
pub open spec fn goes_back(f: FunctionView, id: u32, reg: u64, q: Seq<u32>) -> bool {
    &&& q.len() > 0
    &&& q[0] == id
    &&& forall|i: int| 0 <= i < q.len() - 1 ==> #[trigger] back_step(f, reg, q, i)
}

/// Block `id` says `v`, or passes and has predecessors.
pub open spec fn allows(f: FunctionView, id: u32, reg: u64, v: SsaVar) -> bool {
    match block_with(f, id, 0) {
        Some(k) => match local_value(f.blocks[k], reg) {
            Some(w) => w == v,
            None => f.blocks[k].preds.len() > 0,
        },
        None => false,
    }
}

/// Every path back from block `id` comes to `v`: none runs in a circle, and none ends in
/// another value, in a block that does not exist, or in one without predecessors.
pub open spec fn all_come_to(f: FunctionView, id: u32, reg: u64, v: SsaVar) -> bool {
    forall|q: Seq<u32>| #[trigger]
        goes_back(f, id, reg, q) ==> q.no_duplicates() && allows(f, q.last(), reg, v)
}

/// The value of the register at the return of block `id`, if the block has one: the
/// value that every path back comes to.
pub open spec fn reaching(f: FunctionView, id: u32, reg: u64) -> Option<SsaVar> {
    match block_with(f, id, 0) {
        Some(k) => if return_from(f.blocks[k].ops, 0) is Some && exists|v: SsaVar| #[trigger]
            all_come_to(f, id, reg, v) {
            Some(choose|v: SsaVar| #[trigger] all_come_to(f, id, reg, v))
        } else {
            None
        },
        None => None,
    }
}

// ─── The search ─────────────────────────────────────────────────────────────

/// How many of the first `n` blocks are not being visited.
spec fn unvisited(f: FunctionView, visiting: Set<u32>, n: int) -> nat
    decreases n,
{
    if n <= 0 {
        0
    } else if visiting.contains(f.blocks[n - 1].id) {
        unvisited(f, visiting, n - 1)
    } else {
        unvisited(f, visiting, n - 1) + 1
    }
}

proof fn lemma_block_with(f: FunctionView, id: u32, i: int)
    requires
        0 <= i,
    ensures
        match block_with(f, id, i) {
            Some(k) => i <= k < f.blocks.len() && f.blocks[k].id == id,
            None => true,
        },
    decreases f.blocks.len() - i,
{
    if i < f.blocks.len() && f.blocks[i].id != id {
        lemma_block_with(f, id, i + 1);
    }
}

proof fn lemma_visit(f: FunctionView, visiting: Set<u32>, id: u32, n: int)
    requires
        0 <= n <= f.blocks.len(),
        !visiting.contains(id),
    ensures
        unvisited(f, visiting.insert(id), n) <= unvisited(f, visiting, n),
        (exists|k: int| 0 <= k < n && (#[trigger] f.blocks[k]).id == id) ==> unvisited(
            f,
            visiting.insert(id),
            n,
        ) < unvisited(f, visiting, n),
    decreases n,
{
    if n > 0 {
        lemma_visit(f, visiting, id, n - 1);
    }
}

/// Visiting one more block leaves fewer.
proof fn lemma_fewer(f: FunctionView, visiting: Set<u32>, id: u32)
    requires
        block_with(f, id, 0) is Some,
        !visiting.contains(id),
    ensures
        unvisited(f, visiting.insert(id), f.blocks.len() as int) < unvisited(
            f,
            visiting,
            f.blocks.len() as int,
        ),
{
    lemma_block_with(f, id, 0);
    lemma_visit(f, visiting, id, f.blocks.len() as int);
}

/// The value that reaches the end of a block, with what has been found out on the
/// way. A block that is being visited has none, and neither has one whose
/// predecessors do not agree.
spec fn value_at(f: FunctionView, id: u32, reg: u64, memo: Map<u32, Option<SsaVar>>, visiting: Set<u32>) -> (Option<SsaVar>, Map<u32, Option<SsaVar>>)
    decreases unvisited(f, visiting, f.blocks.len() as int), 0int,
    via value_at_ends
{
    if memo.dom().contains(id) {
        (memo[id], memo)
    } else if visiting.contains(id) {
        (None, memo)
    } else {
        match block_with(f, id, 0) {
            Some(k) => match local_value(f.blocks[k], reg) {
                Some(v) => (Some(v), memo.insert(id, Some(v))),
                None => {
                    let (found, after) = agreed_at(
                        f,
                        f.blocks[k].preds,
                        0,
                        None,
                        reg,
                        memo,
                        visiting.insert(id),
                    );
                    (found, after.insert(id, found))
                },
            },
            None => (None, memo.insert(id, None)),
        }
    }
}

/// The value on which the predecessors from `i` on agree with `common`.
spec fn agreed_at(f: FunctionView, preds: Seq<u32>, i: int, common: Option<SsaVar>, reg: u64, memo: Map<u32, Option<SsaVar>>, visiting: Set<u32>) -> (Option<SsaVar>, Map<u32, Option<SsaVar>>)
    decreases unvisited(f, visiting, f.blocks.len() as int), preds.len() - i + 1,
{
    if i < 0 || i >= preds.len() {
        (common, memo)
    } else {
        let (incoming, after) = value_at(f, preds[i], reg, memo, visiting);
        match incoming {
            None => (None, after),
            Some(v) => match common {
                Some(w) => if w != v {
                    (None, after)
                } else {
                    agreed_at(f, preds, i + 1, common, reg, after, visiting)
                },
                None => agreed_at(f, preds, i + 1, Some(v), reg, after, visiting),
            },
        }
    }
}

#[via_fn]
proof fn value_at_ends(f: FunctionView, id: u32, reg: u64, memo: Map<u32, Option<SsaVar>>, visiting: Set<u32>) {
    if !memo.dom().contains(id) && !visiting.contains(id) && block_with(f, id, 0) is Some {
        lemma_fewer(f, visiting, id);
    }
}

fn find_block(ssa: &SsaFunction, id: u32) -> (r: Option<usize>)
    ensures
        match r {
            Some(k) => k < ssa.blocks@.len() && block_with(ssa@, id, 0) == Some(k as int),
            None => block_with(ssa@, id, 0) is None,
        },
{
    let mut i: usize = 0;
    while i < ssa.blocks.len()
        invariant
            i <= ssa.blocks@.len(),
            block_with(ssa@, id, i as int) == block_with(ssa@, id, 0),
        decreases ssa.blocks@.len() - i,
    {
        assert(ssa@.blocks[i as int] == ssa.blocks@[i as int]@);
        if ssa.blocks[i].id == id {
            return Some(i);
        }
        i += 1;
    }
    None
}

fn find_return(block: &SsaBlock) -> (r: Option<usize>)
    ensures
        match r {
            Some(k) => k < block.ops@.len() && return_from(block@.ops, 0) == Some(k as int),
            None => return_from(block@.ops, 0) is None,
        },
{
    let mut i: usize = 0;
    while i < block.ops.len()
        invariant
            i <= block.ops@.len(),
            return_from(block@.ops, i as int) == return_from(block@.ops, 0),
        decreases block.ops@.len() - i,
    {
        assert(block@.ops[i as int] == block.ops@[i as int]@);
        if matches!(block.ops[i].kind, SsaOpKind::Pcode(PcodeOp::Return { .. })) {
            return Some(i);
        }
        i += 1;
    }
    None
}

fn find_local(block: &SsaBlock, reg: u64) -> (r: Option<SsaVar>)
    ensures
        r == local_value(block@, reg),
{
    let at = find_return(block);
    let mut end: usize = block.ops.len();
    if let Some(k) = at {
        end = k;
        let op = &block.ops[k];
        assert(block@.ops[k as int] == op@);
        let mut i: usize = 0;
        while i < op.uses.len()
            invariant
                i <= op.uses@.len(),
                used_from(op.uses@, reg, i as int) == used_from(op.uses@, reg, 0),
                k < block.ops@.len(),
                return_from(block@.ops, 0) == Some(k as int),
                block@.ops[k as int] == op@,
            decreases op.uses@.len() - i,
        {
            let v = op.uses[i];
            if v.location == (Location::Register { base_offset: reg }) {
                return Some(v);
            }
            i += 1;
        }
    }
    let ghost whole = defined_before(block@.ops, reg, end as int);
    assert(local_value(block@, reg) == whole);
    let mut n: usize = end;
    while n > 0
        invariant
            n <= block.ops@.len(),
            defined_before(block@.ops, reg, n as int) == whole,
            local_value(block@, reg) == whole,
        decreases n,
    {
        n -= 1;
        assert(block@.ops[n as int] == block.ops@[n as int]@);
        if let Some(v) = block.ops[n].def {
            if v.location == (Location::Register { base_offset: reg }) {
                return Some(v);
            }
        }
    }
    None
}

fn resolve(ssa: &SsaFunction, id: u32, reg: u64, memo: &mut HashMap<u32, Option<SsaVar>>, visiting: &mut HashSet<u32>) -> (r: Option<SsaVar>)
    ensures
        (r, final(memo)@) == value_at(ssa@, id, reg, old(memo)@, old(visiting)@),
        final(visiting)@ == old(visiting)@,
    decreases unvisited(ssa@, old(visiting)@, ssa@.blocks.len() as int),
{
    let ghost seen = visiting@;
    let ghost known = memo@;
    if let Some(v) = memo.get(&id) {
        return *v;
    }
    if visiting.contains(&id) {
        return None;
    }
    match find_block(ssa, id) {
        None => {
            memo.insert(id, None);
            None
        },
        Some(k) => {
            let block = &ssa.blocks[k];
            assert(ssa@.blocks[k as int] == block@);
            let local = find_local(block, reg);
            if local.is_some() {
                memo.insert(id, local);
                return local;
            }
            proof {
                lemma_fewer(ssa@, seen, id);
            }
            visiting.insert(id);
            let ghost inside = visiting@;
            let ghost preds = block@.preds;
            let ghost want = agreed_at(ssa@, preds, 0, None, reg, known, inside);
            let mut common: Option<SsaVar> = None;
            let mut failed: bool = false;
            let mut i: usize = 0;
            while i < block.predecessor_ids.len() && !failed
                invariant
                    i <= block.predecessor_ids@.len(),
                    preds == block.predecessor_ids@,
                    visiting@ == inside,
                    inside == seen.insert(id),
                    unvisited(ssa@, inside, ssa@.blocks.len() as int) < unvisited(
                        ssa@,
                        seen,
                        ssa@.blocks.len() as int,
                    ),
                    seen == old(visiting)@,
                    !failed ==> agreed_at(ssa@, preds, i as int, common, reg, memo@, inside) == want,
                    failed ==> want == (None::<SsaVar>, memo@),
                decreases block.predecessor_ids@.len() - i + (if failed { 0int } else { 1int }),
            {
                let incoming = resolve(ssa, block.predecessor_ids[i], reg, memo, visiting);
                match incoming {
                    None => {
                        failed = true;
                    },
                    Some(v) => match common {
                        Some(w) => {
                            if w != v {
                                failed = true;
                            } else {
                                i += 1;
                            }
                        },
                        None => {
                            common = Some(v);
                            i += 1;
                        },
                    },
                }
            }
            let resolved: Option<SsaVar> = if failed {
                None
            } else {
                common
            };
            visiting.remove(&id);
            assert(visiting@ =~= seen);
            memo.insert(id, resolved);
            resolved
        },
    }
}

/// Resolve the SSA value reaching one architectural register at a return block.
///
/// An explicit use on the return comes first, then the last definition in the
/// block, then what every path back comes to. Cycles and disagreement give
/// nothing.
pub fn reaching_register_at_return(ssa: &SsaFunction, block_id: u32, base_offset: u64) -> (r: Option<SsaVar>)
    ensures
        r == reaching(ssa@, block_id, base_offset),
{
    match find_block(ssa, block_id) {
        None => None,
        Some(k) => {
            assert(ssa@.blocks[k as int] == ssa.blocks@[k as int]@);
            if find_return(&ssa.blocks[k]).is_none() {
                return None;
            }
            let mut memo: HashMap<u32, Option<SsaVar>> = HashMap::new();
            let mut visiting: HashSet<u32> = HashSet::new();
            proof {
                assert(memo@ =~= Map::empty());
                assert(visiting@ =~= Set::empty());
                lemma_search(ssa@, block_id, base_offset);
            }
            resolve(ssa, block_id, base_offset, &mut memo, &mut visiting)
        },
    }
}

/// One of the paths back from block `id` ends in a block that says `v`.
spec fn one_ends_in(f: FunctionView, id: u32, reg: u64, v: SsaVar) -> bool {
    exists|q: Seq<u32>| #[trigger]
        goes_back(f, id, reg, q) && block_with(f, q.last(), 0) is Some && local_value(
            f.blocks[block_with(f, q.last(), 0)->0],
            reg,
        ) == Some(v)
}

/// Some path back from block `id` runs in a circle or into a block in `visiting`, or
/// does not come to `v`.
spec fn strays(f: FunctionView, id: u32, reg: u64, visiting: Set<u32>, v: SsaVar) -> bool {
    exists|q: Seq<u32>| #[trigger]
        goes_back(f, id, reg, q) && (!q.no_duplicates() || visiting.contains(q.last()) || !allows(
            f,
            q.last(),
            reg,
            v,
        ))
}

/// One of the blocks strays.
spec fn one_strays(f: FunctionView, ids: Seq<u32>, reg: u64, visiting: Set<u32>, v: SsaVar) -> bool {
    exists|j: int| 0 <= j < ids.len() && #[trigger] strays(f, ids[j], reg, visiting, v)
}

/// What is remembered of a block is right, and so is what is remembered of the blocks
/// that its value comes from; none of them is being visited.
spec fn clean(f: FunctionView, reg: u64, memo: Map<u32, Option<SsaVar>>, visiting: Set<u32>) -> bool {
    forall|b: u32| #[trigger]
        memo.dom().contains(b) ==> memo[b] is Some && !visiting.contains(b) && all_come_to(f, b, reg, memo[b]->0)
            && one_ends_in(f, b, reg, memo[b]->0) && (passes(f, b, reg) ==> forall|x: u32| #[trigger]
            preds_of(f, b).contains(x) ==> memo.dom().contains(x))
}

/// `less` is part of `more`.
spec fn within(less: Map<u32, Option<SsaVar>>, more: Map<u32, Option<SsaVar>>) -> bool {
    forall|b: u32| #[trigger] less.dom().contains(b) ==> more.dom().contains(b) && more[b] == less[b]
}

/// A path back from a remembered block stays among them.
proof fn lemma_stays(f: FunctionView, id: u32, reg: u64, memo: Map<u32, Option<SsaVar>>, visiting: Set<u32>, q: Seq<u32>, i: int)
    requires
        clean(f, reg, memo, visiting),
        memo.dom().contains(id),
        goes_back(f, id, reg, q),
        0 <= i < q.len(),
    ensures
        memo.dom().contains(q[i]),
    decreases i,
{
    if i > 0 {
        lemma_stays(f, id, reg, memo, visiting, q, i - 1);
        assert(back_step(f, reg, q, i - 1));
    }
}

/// A path back over `id` goes on with a path back from one of its predecessors.
proof fn lemma_tail(f: FunctionView, id: u32, reg: u64, q: Seq<u32>)
    requires
        goes_back(f, id, reg, q),
        q.len() > 1,
    ensures
        passes(f, id, reg),
        preds_of(f, id).contains(q[1]),
        goes_back(f, q[1], reg, q.drop_first()),
        q.drop_first().last() == q.last(),
{
    assert(back_step(f, reg, q, 0));
    let t = q.drop_first();
    assert forall|i: int| 0 <= i < t.len() - 1 implies #[trigger] back_step(f, reg, t, i) by {
        assert(back_step(f, reg, q, i + 1));
    }
}

/// A path back from a predecessor of `id` can start at `id`.
proof fn lemma_front(f: FunctionView, id: u32, reg: u64, x: u32, t: Seq<u32>)
    requires
        passes(f, id, reg),
        preds_of(f, id).contains(x),
        goes_back(f, x, reg, t),
    ensures
        goes_back(f, id, reg, seq![id] + t),
        (seq![id] + t).last() == t.last(),
{
    let q = seq![id] + t;
    assert forall|i: int| 0 <= i < q.len() - 1 implies #[trigger] back_step(f, reg, q, i) by {
        if i > 0 {
            assert(back_step(f, reg, t, i - 1));
            assert(q[i] == t[i - 1] && q[i + 1] == t[i]);
        } else {
            assert(q[1] == t[0]);
        }
    }
}

/// A block that says `v` is the only one on its paths.
proof fn lemma_says(f: FunctionView, id: u32, reg: u64, v: SsaVar)
    requires
        block_with(f, id, 0) is Some,
        local_value(f.blocks[block_with(f, id, 0)->0], reg) == Some(v),
    ensures
        all_come_to(f, id, reg, v),
        one_ends_in(f, id, reg, v),
{
    assert forall|q: Seq<u32>| #[trigger] goes_back(f, id, reg, q) implies q.no_duplicates() && allows(
        f,
        q.last(),
        reg,
        v,
    ) by {
        if q.len() > 1 {
            assert(back_step(f, reg, q, 0));
        }
    }
    let q = seq![id];
    assert(goes_back(f, id, reg, q));
    assert(q.last() == id);
}

/// A block comes to what all its predecessors come to.
proof fn lemma_joins(f: FunctionView, id: u32, reg: u64, memo: Map<u32, Option<SsaVar>>, visiting: Set<u32>, v: SsaVar)
    requires
        clean(f, reg, memo, visiting),
        visiting.contains(id),
        passes(f, id, reg),
        preds_of(f, id).len() > 0,
        forall|x: u32| #[trigger] preds_of(f, id).contains(x) ==> memo.dom().contains(x) && memo[x] == Some(v),
    ensures
        all_come_to(f, id, reg, v),
        one_ends_in(f, id, reg, v),
{
    assert forall|q: Seq<u32>| #[trigger] goes_back(f, id, reg, q) implies q.no_duplicates() && allows(
        f,
        q.last(),
        reg,
        v,
    ) by {
        if q.len() > 1 {
            lemma_tail(f, id, reg, q);
            let t = q.drop_first();
            assert(memo.dom().contains(q[1]));
            assert(all_come_to(f, q[1], reg, v));
            assert(t.no_duplicates());
            assert forall|i: int, j: int| 0 <= i < q.len() && 0 <= j < q.len() && i != j implies q[i] != q[j] by {
                if i == 0 {
                    lemma_stays(f, q[1], reg, memo, visiting, t, j - 1);
                    assert(t[j - 1] == q[j]);
                } else if j == 0 {
                    lemma_stays(f, q[1], reg, memo, visiting, t, i - 1);
                    assert(t[i - 1] == q[i]);
                } else {
                    assert(t[i - 1] == q[i] && t[j - 1] == q[j]);
                }
            }
        } else {
            assert(q.last() == id);
        }
    }
    let x = preds_of(f, id)[0];
    assert(preds_of(f, id).contains(x));
    assert(memo.dom().contains(x));
    assert(one_ends_in(f, x, reg, v));
    let t = choose|t: Seq<u32>| #[trigger]
        goes_back(f, x, reg, t) && block_with(f, t.last(), 0) is Some && local_value(
            f.blocks[block_with(f, t.last(), 0)->0],
            reg,
        ) == Some(v);
    lemma_front(f, id, reg, x, t);
}

/// A block strays where one of its predecessors does.
proof fn lemma_strays(f: FunctionView, id: u32, reg: u64, x: u32, visiting: Set<u32>, v: SsaVar)
    requires
        passes(f, id, reg),
        preds_of(f, id).contains(x),
        strays(f, x, reg, visiting.insert(id), v),
    ensures
        strays(f, id, reg, visiting, v),
{
    let t = choose|t: Seq<u32>| #[trigger]
        goes_back(f, x, reg, t) && (!t.no_duplicates() || visiting.insert(id).contains(t.last()) || !allows(
            f,
            t.last(),
            reg,
            v,
        ));
    lemma_front(f, id, reg, x, t);
    let q = seq![id] + t;
    if !t.no_duplicates() {
        let (i, j) = choose|i: int, j: int| 0 <= i < t.len() && 0 <= j < t.len() && i != j && t[i] == t[j];
        assert(q[i + 1] == t[i] && q[j + 1] == t[j]);
    } else if t.last() == id {
        assert(q[0] == q[q.len() - 1]);
    }
    assert(goes_back(f, id, reg, q));
}

/// The search finds what every path back comes to, or a path that strays.
proof fn lemma_value_found(f: FunctionView, id: u32, reg: u64, memo: Map<u32, Option<SsaVar>>, visiting: Set<u32>)
    requires
        clean(f, reg, memo, visiting),
    ensures
        ({
            let (r, m) = value_at(f, id, reg, memo, visiting);
            match r {
                Some(v) => clean(f, reg, m, visiting) && within(memo, m) && m.dom().contains(id) && m[id] == Some(v),
                None => forall|v: SsaVar| #[trigger] strays(f, id, reg, visiting, v),
            }
        }),
    decreases unvisited(f, visiting, f.blocks.len() as int), 0int,
{
    let (r, m) = value_at(f, id, reg, memo, visiting);
    let alone = seq![id];
    assert(goes_back(f, id, reg, alone));
    assert(alone.last() == id);
    if memo.dom().contains(id) {
    } else if visiting.contains(id) {
        assert forall|v: SsaVar| #[trigger] strays(f, id, reg, visiting, v) by {
            assert(goes_back(f, id, reg, alone));
        }
    } else if block_with(f, id, 0) is None {
        assert forall|v: SsaVar| #[trigger] strays(f, id, reg, visiting, v) by {
            assert(goes_back(f, id, reg, alone));
        }
    } else {
        let k = block_with(f, id, 0)->0;
        if let Some(v) = local_value(f.blocks[k], reg) {
            lemma_says(f, id, reg, v);
            assert forall|b: u32| #[trigger] m.dom().contains(b) implies m[b] is Some && !visiting.contains(b)
                && all_come_to(f, b, reg, m[b]->0) && one_ends_in(f, b, reg, m[b]->0) && (passes(f, b, reg)
                ==> forall|x: u32| #[trigger] preds_of(f, b).contains(x) ==> m.dom().contains(x)) by {
                if b != id {
                    assert(memo.dom().contains(b));
                }
            }
        } else {
            lemma_fewer(f, visiting, id);
            let inner = visiting.insert(id);
            let preds = f.blocks[k].preds;
            assert(clean(f, reg, memo, inner));
            lemma_agreed_found(f, preds, 0, None, reg, memo, inner);
            let (found, after) = agreed_at(f, preds, 0, None, reg, memo, inner);
            if let Some(v) = found {
                assert forall|x: u32| #[trigger] preds_of(f, id).contains(x) implies after.dom().contains(x)
                    && after[x] == Some(v) by {
                    let j = choose|j: int| 0 <= j < preds.len() && preds[j] == x;
                    assert(after.dom().contains(preds[j]));
                }
                lemma_joins(f, id, reg, after, inner, v);
                assert forall|b: u32| #[trigger] m.dom().contains(b) implies m[b] is Some && !visiting.contains(b)
                    && all_come_to(f, b, reg, m[b]->0) && one_ends_in(f, b, reg, m[b]->0) && (passes(f, b, reg)
                    ==> forall|x: u32| #[trigger] preds_of(f, b).contains(x) ==> m.dom().contains(x)) by {
                    if b != id {
                        assert(after.dom().contains(b));
                    }
                }
                assert forall|b: u32| #[trigger] memo.dom().contains(b) implies m.dom().contains(b) && m[b] == memo[b] by {
                    assert(after.dom().contains(b));
                }
            } else {
                assert forall|v: SsaVar| #[trigger] strays(f, id, reg, visiting, v) by {
                    if preds.len() == 0 {
                        assert(goes_back(f, id, reg, alone));
                    } else {
                        assert(one_strays(f, preds, reg, inner, v));
                        let j = choose|j: int| 0 <= j < preds.len() && #[trigger] strays(f, preds[j], reg, inner, v);
                        assert(preds.contains(preds[j]));
                        lemma_strays(f, id, reg, preds[j], visiting, v);
                    }
                }
            }
        }
    }
}

proof fn lemma_agreed_found(f: FunctionView, preds: Seq<u32>, i: int, common: Option<SsaVar>, reg: u64, memo: Map<u32, Option<SsaVar>>, visiting: Set<u32>)
    requires
        clean(f, reg, memo, visiting),
        0 <= i <= preds.len(),
        common is None <==> i == 0,
        forall|j: int| 0 <= j < i ==> memo.dom().contains(#[trigger] preds[j]) && memo[preds[j]] == common,
    ensures
        ({
            let (r, m) = agreed_at(f, preds, i, common, reg, memo, visiting);
            match r {
                Some(v) => clean(f, reg, m, visiting) && within(memo, m) && forall|j: int|
                    0 <= j < preds.len() ==> m.dom().contains(#[trigger] preds[j]) && m[preds[j]] == Some(v),
                None => preds.len() == 0 || forall|v: SsaVar| #[trigger] one_strays(f, preds, reg, visiting, v),
            }
        }),
    decreases unvisited(f, visiting, f.blocks.len() as int), preds.len() - i + 1,
{
    if i < preds.len() {
        lemma_value_found(f, preds[i], reg, memo, visiting);
        let (incoming, after) = value_at(f, preds[i], reg, memo, visiting);
        match incoming {
            None => {
                assert forall|v: SsaVar| #[trigger] one_strays(f, preds, reg, visiting, v) by {
                    assert(strays(f, preds[i], reg, visiting, v));
                }
            },
            Some(w) => {
                assert forall|j: int| 0 <= j < i implies after.dom().contains(#[trigger] preds[j])
                    && after[preds[j]] == common by {
                    assert(memo.dom().contains(preds[j]));
                }
                if common is Some && common != Some(w) {
                    assert forall|v: SsaVar| #[trigger] one_strays(f, preds, reg, visiting, v) by {
                        if v != w {
                            lemma_other(f, preds[i], reg, visiting, w, v);
                        } else {
                            assert(memo.dom().contains(preds[0]));
                            lemma_other(f, preds[0], reg, visiting, common->0, v);
                        }
                    }
                } else {
                    lemma_agreed_found(f, preds, i + 1, Some(w), reg, after, visiting);
                    let (r, m) = agreed_at(f, preds, i, common, reg, memo, visiting);
                    if r is Some {
                        assert forall|b: u32| #[trigger] memo.dom().contains(b) implies m.dom().contains(b)
                            && m[b] == memo[b] by {
                            assert(after.dom().contains(b));
                        }
                    }
                }
            },
        }
    }
}

/// A block that comes to `w` does not come to another value.
proof fn lemma_other(f: FunctionView, id: u32, reg: u64, visiting: Set<u32>, w: SsaVar, v: SsaVar)
    requires
        one_ends_in(f, id, reg, w),
        v != w,
    ensures
        strays(f, id, reg, visiting, v),
{
    let q = choose|q: Seq<u32>| #[trigger]
        goes_back(f, id, reg, q) && block_with(f, q.last(), 0) is Some && local_value(
            f.blocks[block_with(f, q.last(), 0)->0],
            reg,
        ) == Some(w);
    assert(!allows(f, q.last(), reg, v));
}

/// The search from nothing finds the value that every path back comes to.
proof fn lemma_search(f: FunctionView, id: u32, reg: u64)
    ensures
        block_with(f, id, 0) is Some && return_from(f.blocks[block_with(f, id, 0)->0].ops, 0) is Some ==> reaching(
            f,
            id,
            reg,
        ) == value_at(f, id, reg, Map::empty(), Set::empty()).0,
{
    let none = Set::<u32>::empty();
    lemma_value_found(f, id, reg, Map::empty(), none);
    let (r, m) = value_at(f, id, reg, Map::empty(), none);
    match r {
        Some(w) => {
            assert(m.dom().contains(id));
            assert(all_come_to(f, id, reg, w));
            let v = choose|v: SsaVar| #[trigger] all_come_to(f, id, reg, v);
            if v != w {
                lemma_other(f, id, reg, none, w, v);
                let q = choose|q: Seq<u32>| #[trigger]
                    goes_back(f, id, reg, q) && (!q.no_duplicates() || none.contains(q.last()) || !allows(
                        f,
                        q.last(),
                        reg,
                        v,
                    ));
                assert(goes_back(f, id, reg, q));
            }
        },
        None => {
            assert forall|v: SsaVar| !#[trigger] all_come_to(f, id, reg, v) by {
                assert(strays(f, id, reg, none, v));
                let q = choose|q: Seq<u32>| #[trigger]
                    goes_back(f, id, reg, q) && (!q.no_duplicates() || none.contains(q.last()) || !allows(
                        f,
                        q.last(),
                        reg,
                        v,
                    ));
                assert(goes_back(f, id, reg, q));
            }
        },
    }
}

/// A value that reaches a return lives in the register that was asked for.
pub proof fn law_reaching_register(f: FunctionView, id: u32, reg: u64)
    ensures
        reaching(f, id, reg) matches Some(v) ==> in_container(v, reg),
{
    lemma_search(f, id, reg);
    lemma_value_at(f, id, reg, Map::empty(), Set::empty());
}

/// Every remembered value lives in the container.
spec fn all_in(memo: Map<u32, Option<SsaVar>>, reg: u64) -> bool {
    forall|b: u32| #[trigger] memo.dom().contains(b) ==> (memo[b] matches Some(v) ==> in_container(v, reg))
}

proof fn lemma_used_from(uses: Seq<SsaVar>, reg: u64, i: int)
    ensures
        used_from(uses, reg, i) matches Some(v) ==> in_container(v, reg),
    decreases uses.len() - i,
{
    if 0 <= i < uses.len() {
        lemma_used_from(uses, reg, i + 1);
    }
}

proof fn lemma_defined_before(ops: Seq<OpView>, reg: u64, n: int)
    ensures
        defined_before(ops, reg, n) matches Some(v) ==> in_container(v, reg),
    decreases n,
{
    if n > 0 {
        lemma_defined_before(ops, reg, n - 1);
    }
}

proof fn lemma_value_at(f: FunctionView, id: u32, reg: u64, memo: Map<u32, Option<SsaVar>>, visiting: Set<u32>)
    requires
        all_in(memo, reg),
    ensures
        value_at(f, id, reg, memo, visiting).0 matches Some(v) ==> in_container(v, reg),
        all_in(value_at(f, id, reg, memo, visiting).1, reg),
    decreases unvisited(f, visiting, f.blocks.len() as int), 0int,
{
    if !memo.dom().contains(id) && !visiting.contains(id) && block_with(f, id, 0) is Some {
        let b = f.blocks[block_with(f, id, 0)->0];
        lemma_fewer(f, visiting, id);
        match return_from(b.ops, 0) {
            Some(i) => {
                lemma_used_from(b.ops[i].uses, reg, 0);
                lemma_defined_before(b.ops, reg, i);
            },
            None => lemma_defined_before(b.ops, reg, b.ops.len() as int),
        }
        lemma_agreed_at(f, b.preds, 0, None, reg, memo, visiting.insert(id));
    }
}

proof fn lemma_agreed_at(f: FunctionView, preds: Seq<u32>, i: int, common: Option<SsaVar>, reg: u64, memo: Map<u32, Option<SsaVar>>, visiting: Set<u32>)
    requires
        all_in(memo, reg),
        common matches Some(v) ==> in_container(v, reg),
    ensures
        agreed_at(f, preds, i, common, reg, memo, visiting).0 matches Some(v) ==> in_container(v, reg),
        all_in(agreed_at(f, preds, i, common, reg, memo, visiting).1, reg),
    decreases unvisited(f, visiting, f.blocks.len() as int), preds.len() - i + 1,
{
    if 0 <= i < preds.len() {
        lemma_value_at(f, preds[i], reg, memo, visiting);
        let (incoming, after) = value_at(f, preds[i], reg, memo, visiting);
        if let Some(v) = incoming {
            if common is None {
                lemma_agreed_at(f, preds, i + 1, Some(v), reg, after, visiting);
            } else {
                lemma_agreed_at(f, preds, i + 1, common, reg, after, visiting);
            }
        }
    }
}

/// `v` is a value of `l`.
pub open spec fn located(v: Option<SsaVar>, l: Location) -> bool {
    v matches Some(x) && x.location == l
}

/// `l` is named by the operation: a phi by its result and arguments, another by
/// its definition and uses.
pub open spec fn names_location(op: OpView, l: Location) -> bool {
    match op.kind {
        KindView::Phi(p) => p.out.location == l || exists|i: int|
            0 <= i < p.args.len() && #[trigger] located(p.args[i], l),
        KindView::Pcode(_) => located(op.def, l) || exists|i: int|
            0 <= i < op.uses.len() && (#[trigger] op.uses[i]).location == l,
    }
}

fn put(out: &mut Vec<Location>, l: Location)
    requires
        old(out)@.no_duplicates(),
    ensures
        final(out)@.no_duplicates(),
        forall|x: Location| #[trigger] final(out)@.contains(x) <==> old(out)@.contains(x) || x == l,
{
    let mut i: usize = 0;
    while i < out.len()
        invariant
            i <= out@.len(),
            out@ == old(out)@,
            out@.no_duplicates(),
            forall|j: int| 0 <= j < i ==> out@[j] != l,
        decreases out@.len() - i,
    {
        if out[i] == l {
            assert(out@.contains(l));
            return;
        }
        i += 1;
    }
    let ghost before = out@;
    out.push(l);
    proof {
        assert(out@[before.len() as int] == l);
        assert forall|x: Location| #[trigger] out@.contains(x) <==> before.contains(x) || x == l by {
            if before.contains(x) {
                let j = choose|j: int| 0 <= j < before.len() && before[j] == x;
                assert(out@[j] == x);
            }
        }
    }
}

fn put_op(out: &mut Vec<Location>, op: &SsaOp)
    requires
        old(out)@.no_duplicates(),
    ensures
        final(out)@.no_duplicates(),
        forall|x: Location|
            #[trigger] final(out)@.contains(x) <==> old(out)@.contains(x) || names_location(op@, x),
{
    match &op.kind {
        SsaOpKind::Phi(p) => {
            put(out, p.out.location);
            let mut i: usize = 0;
            while i < p.args.len()
                invariant
                    i <= p.args@.len(),
                    out@.no_duplicates(),
                    forall|x: Location|
                        #[trigger] out@.contains(x) <==> old(out)@.contains(x) || x == p.out.location
                            || exists|j: int|
                            0 <= j < i && #[trigger] located(p.args@[j], x),
                decreases p.args@.len() - i,
            {
                let ghost before = out@;
                if let Some(v) = p.args[i] {
                    put(out, v.location);
                }
                proof {
                    assert forall|x: Location| #[trigger] out@.contains(x) <==> old(out)@.contains(x) || x
                        == p.out.location || exists|j: int|
                        0 <= j < i + 1 && #[trigger] located(p.args@[j], x) by {
                        if exists|j: int|
                            0 <= j < i + 1 && #[trigger] located(p.args@[j], x) {
                            let j = choose|j: int|
                                0 <= j < i + 1 && #[trigger] located(p.args@[j], x);
                            assert(j < i ==> before.contains(x));
                        }
                        if before.contains(x) {
                        } else if out@.contains(x) {
                            assert(located(p.args@[i as int], x));
                        }
                    }
                }
                i += 1;
            }
            assert(op@.kind == KindView::Phi(p@));
            let ghost args = p@.args;
            assert(args == p.args@);
            assert forall|x: Location| #[trigger] out@.contains(x) <==> old(out)@.contains(x)
                || names_location(op@, x) by {
                if names_location(op@, x) && x != p.out.location {
                    let j = choose|j: int| 0 <= j < args.len() && #[trigger] located(args[j], x);
                    assert(located(p.args@[j], x));
                }
                if out@.contains(x) && !old(out)@.contains(x) && x != p.out.location {
                    let j = choose|j: int| 0 <= j < i && #[trigger] located(p.args@[j], x);
                    assert(located(args[j], x));
                }
            }
        },
        SsaOpKind::Pcode(_) => {
            if let Some(d) = op.def {
                put(out, d.location);
            }
            let ghost start = out@;
            assert(op@.kind is Pcode);
            assert(forall|x: Location| #[trigger]
                start.contains(x) <==> old(out)@.contains(x) || located(op.def, x));
            let mut i: usize = 0;
            while i < op.uses.len()
                invariant
                    i <= op.uses@.len(),
                    out@.no_duplicates(),
                    forall|x: Location|
                        #[trigger] out@.contains(x) <==> start.contains(x) || exists|j: int|
                            0 <= j < i && (#[trigger] op.uses@[j]).location == x,
                decreases op.uses@.len() - i,
            {
                let ghost before = out@;
                put(out, op.uses[i].location);
                proof {
                    assert forall|x: Location| #[trigger] out@.contains(x) <==> start.contains(x)
                        || exists|j: int| 0 <= j < i + 1 && (#[trigger] op.uses@[j]).location == x by {
                        if exists|j: int| 0 <= j < i + 1 && (#[trigger] op.uses@[j]).location == x {
                            let j = choose|j: int|
                                0 <= j < i + 1 && (#[trigger] op.uses@[j]).location == x;
                            assert(j < i ==> before.contains(x));
                        }
                        if before.contains(x) {
                        } else if out@.contains(x) {
                            assert(op.uses@[i as int].location == x);
                        }
                    }
                }
                i += 1;
            }
        },
    }
}

/// All locations appearing anywhere in `ssa`, each once.
pub fn all_locations(ssa: &SsaFunction) -> (r: Vec<Location>)
    ensures
        r@.no_duplicates(),
        forall|l: Location|
            #[trigger] r@.contains(l) <==> exists|b: int, i: int|
                0 <= b < ssa@.blocks.len() && 0 <= i < ssa@.blocks[b].ops.len()
                    && #[trigger] names_location(ssa@.blocks[b].ops[i], l),
{
    let mut r: Vec<Location> = Vec::new();
    let mut b: usize = 0;
    while b < ssa.blocks.len()
        invariant
            b <= ssa.blocks@.len(),
            r@.no_duplicates(),
            forall|l: Location|
                #[trigger] r@.contains(l) <==> exists|x: int, i: int|
                    0 <= x < b && 0 <= i < ssa@.blocks[x].ops.len() && #[trigger] names_location(
                        ssa@.blocks[x].ops[i],
                        l,
                    ),
        decreases ssa.blocks@.len() - b,
    {
        let block = &ssa.blocks[b];
        assert(ssa@.blocks[b as int] == block@);
        let ghost start = r@;
        let mut i: usize = 0;
        while i < block.ops.len()
            invariant
                i <= block.ops@.len(),
                r@.no_duplicates(),
                forall|l: Location|
                    #[trigger] r@.contains(l) <==> start.contains(l) || exists|j: int|
                        0 <= j < i && #[trigger] names_location(block@.ops[j], l),
            decreases block.ops@.len() - i,
        {
            let ghost before = r@;
            assert(block@.ops[i as int] == block.ops@[i as int]@);
            put_op(&mut r, &block.ops[i]);
            proof {
                assert forall|l: Location| #[trigger] r@.contains(l) <==> start.contains(l) || exists|j: int|
                    0 <= j < i + 1 && #[trigger] names_location(block@.ops[j], l) by {
                    if exists|j: int| 0 <= j < i + 1 && #[trigger] names_location(block@.ops[j], l) {
                        let j = choose|j: int|
                            0 <= j < i + 1 && #[trigger] names_location(block@.ops[j], l);
                        assert(j < i ==> before.contains(l));
                    }
                    if before.contains(l) {
                    } else if r@.contains(l) {
                        assert(names_location(block@.ops[i as int], l));
                    }
                }
            }
            i += 1;
        }
        proof {
            assert forall|l: Location| #[trigger] r@.contains(l) <==> exists|x: int, i: int|
                0 <= x < b + 1 && 0 <= i < ssa@.blocks[x].ops.len() && #[trigger] names_location(
                    ssa@.blocks[x].ops[i],
                    l,
                ) by {
                if exists|x: int, i: int|
                    0 <= x < b + 1 && 0 <= i < ssa@.blocks[x].ops.len() && #[trigger] names_location(
                        ssa@.blocks[x].ops[i],
                        l,
                    ) {
                    let (x, i) = choose|x: int, i: int|
                        0 <= x < b + 1 && 0 <= i < ssa@.blocks[x].ops.len()
                            && #[trigger] names_location(ssa@.blocks[x].ops[i], l);
                    if x < b {
                        assert(start.contains(l));
                    } else {
                        assert(names_location(block@.ops[i], l));
                    }
                }
                if r@.contains(l) && !start.contains(l) {
                    let j = choose|j: int|
                        0 <= j < block@.ops.len() && #[trigger] names_location(block@.ops[j], l);
                    assert(names_location(ssa@.blocks[b as int].ops[j], l));
                }
            }
        }
        b += 1;
    }
    r
}

} // verus!
