//! What cleaning up jumps and labels leaves in place.

use vstd::prelude::*;
use crate::structure::gotos::{falls_through, filled_from, goto_of, label_of, labels, last_label, loose_goto_of, returned_at, targeted, uncommented_jump, with_returns, without_idle_labels, without_redundant};
use crate::numbers::{hex, law_numbers_read_back};
use crate::structure::cfg_norm::resolve;
use crate::structure::emit_region::{edge_keyword, goto_line, keyword_among, label_line, LoopFrame};
use crate::structure::polarity::{comes_to, law_resolve_passes_nothing};
use crate::structure::rd_model::ResidualReason;
use crate::structure::statements::{pad, Scene};
use crate::text::{cut_prefix, cut_suffix, indent, starts, trim};
use crate::wording::{law_strip_and_cut, occurs};

verus! {

/// `r` holds the lines of `v` at the positions `at`, in order.
pub open spec fn picked(v: Seq<Seq<char>>, n: int, r: Seq<Seq<char>>, at: Seq<int>) -> bool {
    &&& at.len() == r.len()
    &&& forall|k: int| 0 <= k < at.len() ==> 0 <= #[trigger] at[k] < n && r[k] == v[at[k]]
    &&& forall|j: int, k: int| 0 <= j < k < at.len() ==> #[trigger] at[j] < #[trigger] at[k]
}

/// The line is a label, and nothing jumps to it.
pub open spec fn idle(v: Seq<Seq<char>>, i: int, loose: bool) -> bool {
    label_of(trim(v[i])) matches Some(l) && !targeted(v, l, loose)
}

/// What is dropped is exactly the labels that nothing jumps to: every other line stays, and in
/// its order.
pub open spec fn only_idle_gone(v: Seq<Seq<char>>, loose: bool, n: int, r: Seq<Seq<char>>, at: Seq<int>) -> bool {
    picked(v, n, r, at) && forall|i: int| 0 <= i < n ==> (#[trigger] at.contains(i) <==> !idle(v, i, loose))
}

proof fn lemma_push(at: Seq<int>, x: int)
    ensures
        forall|i: int| #[trigger] at.push(x).contains(i) <==> at.contains(i) || i == x,
{
    let r = at.push(x);
    assert forall|i: int| #[trigger] r.contains(i) <==> at.contains(i) || i == x by {
        if at.contains(i) {
            let k = choose|k: int| 0 <= k < at.len() && at[k] == i;
            assert(r[k] == i);
        }
        if i == x {
            assert(r[at.len() as int] == x);
        }
        if r.contains(i) && i != x {
            let k = choose|k: int| 0 <= k < r.len() && r[k] == i;
            assert(at[k] == i);
        }
    }
}

proof fn lemma_idle(v: Seq<Seq<char>>, loose: bool, n: int) -> (at: Seq<int>)
    requires
        0 <= n <= v.len(),
    ensures
        only_idle_gone(v, loose, n, without_idle_labels(v, loose, n), at),
    decreases n,
{
    if n <= 0 {
        Seq::empty()
    } else {
        let less = lemma_idle(v, loose, n - 1);
        assert(!less.contains(n - 1)) by {
            if less.contains(n - 1) {
                let k = choose|k: int| 0 <= k < less.len() && less[k] == n - 1;
                assert(less[k] < n - 1);
            }
        }
        lemma_push(less, n - 1);
        if idle(v, n - 1, loose) {
            less
        } else {
            less.push(n - 1)
        }
    }
}

/// Dropping idle labels drops them and nothing else.
pub proof fn law_labels_in_use_stay(v: Seq<Seq<char>>, loose: bool)
    ensures
        exists|at: Seq<int>| #[trigger]
            only_idle_gone(v, loose, v.len() as int, without_idle_labels(v, loose, v.len() as int), at),
{
    let at = lemma_idle(v, loose, v.len() as int);
    assert(only_idle_gone(v, loose, v.len() as int, without_idle_labels(v, loose, v.len() as int), at));
}

/// The line jumps to a label, and there is nothing but blank lines between the two.
pub open spec fn goes_nowhere(v: Seq<Seq<char>>, i: int) -> bool {
    goto_of(trim(v[i])) matches Some(l) && exists|j: int|
        i < j < v.len() && #[trigger] labels(v, j, l) && trim(v[j]).len() > 0 && forall|k: int|
            i < k < j ==> trim(#[trigger] v[k]).len() == 0
}

/// What is dropped is exactly the jumps that go nowhere.
pub open spec fn only_nowhere_gone(v: Seq<Seq<char>>, n: int, r: Seq<Seq<char>>, at: Seq<int>) -> bool {
    picked(v, n, r, at) && forall|i: int| 0 <= i < n ==> (#[trigger] at.contains(i) <==> !goes_nowhere(v, i))
}

proof fn lemma_filled(v: Seq<Seq<char>>, i: int)
    requires
        0 <= i <= v.len(),
    ensures
        i <= filled_from(v, i) <= v.len(),
        filled_from(v, i) < v.len() ==> trim(v[filled_from(v, i)]).len() > 0,
        forall|k: int| i <= k < filled_from(v, i) ==> trim(#[trigger] v[k]).len() == 0,
    decreases v.len() - i,
{
    if i < v.len() && trim(v[i]).len() == 0 {
        lemma_filled(v, i + 1);
    }
}

proof fn lemma_nowhere(v: Seq<Seq<char>>, i: int)
    requires
        0 <= i < v.len(),
    ensures
        falls_through(v, i) == goes_nowhere(v, i),
{
    lemma_filled(v, i + 1);
    let j = filled_from(v, i + 1);
    if falls_through(v, i) {
        let l = goto_of(trim(v[i]))->0;
        assert(labels(v, j, l));
    }
    if goes_nowhere(v, i) {
        let l = goto_of(trim(v[i]))->0;
        let k = choose|k: int|
            i < k < v.len() && #[trigger] labels(v, k, l) && trim(v[k]).len() > 0 && forall|m: int|
                i < m < k ==> trim(#[trigger] v[m]).len() == 0;
        if j < k {
            assert(trim(v[j]).len() == 0);
        } else if k < j {
            assert(trim(v[k]).len() == 0);
        }
    }
}

proof fn lemma_redundant(v: Seq<Seq<char>>, n: int) -> (at: Seq<int>)
    requires
        0 <= n <= v.len(),
    ensures
        only_nowhere_gone(v, n, without_redundant(v, n), at),
    decreases n,
{
    if n <= 0 {
        Seq::empty()
    } else {
        let less = lemma_redundant(v, n - 1);
        lemma_nowhere(v, n - 1);
        assert(!less.contains(n - 1)) by {
            if less.contains(n - 1) {
                let k = choose|k: int| 0 <= k < less.len() && less[k] == n - 1;
                assert(less[k] < n - 1);
            }
        }
        lemma_push(less, n - 1);
        if falls_through(v, n - 1) {
            less
        } else {
            less.push(n - 1)
        }
    }
}

/// A jump is dropped only if control comes to its label anyway, and every other line stays.
pub proof fn law_jumps_that_matter_stay(v: Seq<Seq<char>>)
    ensures
        exists|at: Seq<int>| #[trigger]
            only_nowhere_gone(v, v.len() as int, without_redundant(v, v.len() as int), at),
{
    let at = lemma_redundant(v, v.len() as int);
    assert(only_nowhere_gone(v, v.len() as int, without_redundant(v, v.len() as int), at));
}

/// The jump on line `i` leads to a return on line `j`: the label stands last before it, with
/// only blank lines between.
pub open spec fn leads_to_return(v: Seq<Seq<char>>, i: int, k: int, j: int) -> bool {
    &&& loose_goto_of(trim(v[i])) matches Some(l) && 0 <= k < j < v.len() && labels(v, k, l)
    &&& occurs(trim(v[j]), "return"@, 0)
    &&& forall|m: int| k < m < j ==> trim(#[trigger] v[m]).len() == 0
}

proof fn lemma_last_label(v: Seq<Seq<char>>, l: Seq<char>, n: int)
    requires
        0 <= n <= v.len(),
    ensures
        last_label(v, l, n) matches Some(k) ==> 0 <= k < n && labels(v, k, l),
    decreases n,
{
    if n > 0 {
        lemma_last_label(v, l, n - 1);
    }
}

/// Folding returns keeps the number of lines. A line becomes a return only if it jumps to one,
/// and then it is that return, as far in as the jump was.
pub proof fn law_folded_returns(v: Seq<Seq<char>>, n: int, i: int)
    requires
        0 <= i < n <= v.len(),
    ensures
        with_returns(v, n).len() == n,
        with_returns(v, n)[i] == uncommented_jump(v[i]) || exists|k: int, j: int| #[trigger]
            leads_to_return(v, i, k, j) && with_returns(v, n)[i] == indent(v[i]) + trim(v[j]),
    decreases n,
{
    lemma_len(v, n);
    if i < n - 1 {
        lemma_len(v, n - 1);
        law_folded_returns(v, n - 1, i);
        assert(with_returns(v, n)[i] == with_returns(v, n - 1)[i]);
    } else {
        lemma_len(v, n - 1);
        if returned_at(v, i) is Some {
            let l = loose_goto_of(trim(v[i]))->0;
            lemma_last_label(v, l, v.len() as int);
            let k = last_label(v, l, v.len() as int)->0;
            let j = filled_from(v, k + 1);
            lemma_filled(v, k + 1);
            assert(occurs(trim(v[j]), "return"@, 0)) by {
                let t = trim(v[j]);
                assert(starts(t, "return"@));
                assert forall|m: int| 0 <= m < "return"@.len() implies t[0 + m] == #[trigger] "return"@[m] by {
                    assert(t.subrange(0, "return"@.len() as int)[m] == "return"@[m]);
                }
            }
            assert(leads_to_return(v, i, k, j));
        }
    }
}

proof fn lemma_len(v: Seq<Seq<char>>, n: int)
    requires
        0 <= n,
    ensures
        with_returns(v, n).len() == n,
    decreases n,
{
    if n > 0 {
        lemma_len(v, n - 1);
    }
}

/// A jump line names the label that it jumps to, and a label line the label that stands there.
pub proof fn law_jumps_and_labels_meet(l: Seq<char>)
    requires
        l.len() > 0,
        l[0] == 'L',
        trim(l) == l,
    ensures
        goto_of("goto "@ + (l + ";"@)) == Some(l),
        label_of(l + ":"@) == Some(l),
{
    reveal_strlit("L");
    let t = "goto "@ + (l + ";"@);
    law_strip_and_cut(t, Seq::empty(), "goto "@);
    assert(occurs(t, "goto "@, 0));
    let rest = cut_prefix(t, "goto "@)->0;
    assert(t.skip("goto "@.len() as int) =~= l + ";"@);
    assert(("goto "@ + rest).skip("goto "@.len() as int) =~= rest);
    lemma_suffix(l, ";"@);
    lemma_suffix(l, ":"@);
    assert(l.subrange(0, 1) =~= "L"@);
}

proof fn lemma_suffix(l: Seq<char>, x: Seq<char>)
    ensures
        cut_suffix(l + x, x) == Some(l),
{
    let t = l + x;
    law_strip_and_cut(t, Seq::empty(), x);
    assert(occurs(t, x, t.len() - x.len())) by {
        assert forall|k: int| 0 <= k < x.len() implies t[t.len() - x.len() + k] == #[trigger] x[k] by {}
    }
    let r = cut_suffix(t, x)->0;
    assert((r + x).take(l.len() as int) =~= r);
    assert(t.take(l.len() as int) =~= l);
}

// ─── Emitted jumps ──────────────────────────────────────────────────────────

/// The loop frame that an edge keyword speaks of: control that goes to `target` comes to its
/// header, or to its exit.
pub open spec fn speaks_of(sc: Scene, loops: Seq<LoopFrame>, target: u32, j: int, header: bool) -> bool {
    &&& 0 <= j < loops.len()
    &&& comes_to(sc.ssa, target, if header {
        loops[j].header
    } else {
        loops[j].exit
    })
}

proof fn lemma_keyword(loops: Seq<LoopFrame>, t: u32, n: int)
    requires
        0 <= n <= loops.len(),
    ensures
        match keyword_among(loops, t, n) {
            Some(k) => (k == "continue"@ && exists|j: int| 0 <= j < n && (#[trigger] loops[j]).header == t) || (k
                == "break"@ && exists|j: int| 0 <= j < n && (#[trigger] loops[j]).exit == t),
            None => forall|j: int| 0 <= j < n ==> (#[trigger] loops[j]).header != t && loops[j].exit != t,
        },
    decreases n,
{
    if n > 0 {
        lemma_keyword(loops, t, n - 1);
        if t == loops[n - 1].header {
            assert(loops[n - 1].header == t);
        } else if t == loops[n - 1].exit {
            assert(loops[n - 1].exit == t);
        } else if let Some(k) = keyword_among(loops, t, n) {
            if k == "continue"@ && exists|j: int| 0 <= j < n - 1 && (#[trigger] loops[j]).header == t {
                let j = choose|j: int| 0 <= j < n - 1 && (#[trigger] loops[j]).header == t;
                assert(loops[j].header == t);
            } else {
                let j = choose|j: int| 0 <= j < n - 1 && (#[trigger] loops[j]).exit == t;
                assert(loops[j].exit == t);
            }
        }
    }
}

/// An edge is written as `continue` only if it comes to the header of a loop around it, and as
/// `break` only if it comes to an exit.
pub proof fn law_edge_keywords(sc: Scene, loops: Seq<LoopFrame>, target: u32)
    ensures
        match edge_keyword(sc, loops, target) {
            Some(k) => {
                ||| k == "continue"@ && exists|j: int| #[trigger] speaks_of(sc, loops, target, j, true)
                ||| k == "break"@ && exists|j: int| #[trigger] speaks_of(sc, loops, target, j, false)
            },
            None => true,
        },
{
    let t = resolve(sc.ssa, target, 16);
    law_resolve_passes_nothing(sc.ssa, target, 16);
    lemma_keyword(loops, t, loops.len() as int);
    if let Some(k) = edge_keyword(sc, loops, target) {
        if k == "continue"@ && exists|j: int| 0 <= j < loops.len() && (#[trigger] loops[j]).header == t {
            let j = choose|j: int| 0 <= j < loops.len() && (#[trigger] loops[j]).header == t;
            assert(speaks_of(sc, loops, target, j, true));
        } else {
            let j = choose|j: int| 0 <= j < loops.len() && (#[trigger] loops[j]).exit == t;
            assert(speaks_of(sc, loops, target, j, false));
        }
    }
}

/// A line with a label, and `rest` behind it.
pub open spec fn labeled_line(t: Seq<char>, indent: int, word: Seq<char>, l: Seq<char>, rest: Seq<char>) -> bool {
    t == pad(indent) + word + l + rest
}

/// The label of the block at `va`.
pub open spec fn block_label(va: u64) -> Seq<char> {
    "L_0x"@ + hex(va as nat)
}

/// A jump that is written names the label of the block that it goes to, a label that is written
/// is that of its block, and blocks at different addresses have different labels.
pub proof fn law_emitted_jumps_meet_labels(sc: Scene, target: u32, reason: Seq<char>, b: u32, indent: int, depth: int, loops: Seq<LoopFrame>)
    requires
        target < sc.ssa.blocks@.len(),
        b < sc.ssa.blocks@.len(),
    ensures
        exists|rest: Seq<char>| #[trigger]
            labeled_line(
                goto_line(sc, target, reason, indent),
                indent,
                "goto "@,
                block_label(sc.ssa.blocks@[target as int].entry_va),
                rest,
            ),
        label_line(sc, b, depth, loops).len() > 0 ==> labeled_line(
            label_line(sc, b, depth, loops),
            depth,
            Seq::empty(),
            block_label(sc.ssa.blocks@[b as int].entry_va),
            ":\n"@,
        ),
        block_label(sc.ssa.blocks@[target as int].entry_va) == block_label(sc.ssa.blocks@[b as int].entry_va)
            ==> sc.ssa.blocks@[target as int].entry_va == sc.ssa.blocks@[b as int].entry_va,
{
    reveal_strlit("goto L_");
    reveal_strlit("goto ");
    reveal_strlit("L_");
    reveal_strlit("0x");
    reveal_strlit("L_0x");
    let x = sc.ssa.blocks@[target as int].entry_va;
    let y = sc.ssa.blocks@[b as int].entry_va;
    let rest = "; /* "@ + ResidualReason::of_tag(reason).tag() + " */\n"@;
    assert(goto_line(sc, target, reason, indent) =~= pad(indent) + "goto "@ + block_label(x) + rest);
    assert(labeled_line(goto_line(sc, target, reason, indent), indent, "goto "@, block_label(x), rest));
    if label_line(sc, b, depth, loops).len() > 0 {
        assert(label_line(sc, b, depth, loops) =~= pad(depth) + Seq::<char>::empty() + block_label(y) + ":\n"@);
    }
    law_numbers_read_back(x as nat, 0);
    law_numbers_read_back(y as nat, 0);
    if block_label(x) == block_label(y) {
        assert(block_label(x).skip(4) =~= hex(x as nat));
        assert(block_label(y).skip(4) =~= hex(y as nat));
    }
}

} // verus!
