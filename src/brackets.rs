//! Bracket resolution: every `LoopStart` is patched to jump just past its
//! matching `LoopEnd`, and every `LoopEnd` just past its matching `LoopStart`.
use vstd::prelude::*;
use crate::instruction::{Instruction, LoadError};

verus! {

/// Change in nesting depth caused by one instruction.
pub open spec fn depth_change(ins: Instruction) -> int {
    match ins {
        Instruction::LoopStart(_) => 1,
        Instruction::LoopEnd(_) => -1,
        _ => 0,
    }
}

/// Nesting depth just before index `i`: opened loops minus closed loops in `p[0..i]`.
pub open spec fn depth(p: Seq<Instruction>, i: int) -> int
    decreases i,
{
    if i <= 0 {
        0
    } else {
        depth(p, i - 1) + depth_change(p[i - 1])
    }
}

/// Properly nested brackets: the depth never drops below zero and ends at zero.
pub open spec fn balanced(p: Seq<Instruction>) -> bool {
    &&& forall|i: int| 0 <= i <= p.len() ==> #[trigger] depth(p, i) >= 0
    &&& depth(p, p.len() as int) == 0
}

/// `p[e]` is the `LoopEnd` that closes the `LoopStart` at `p[s]`.
pub open spec fn matched(p: Seq<Instruction>, s: int, e: int) -> bool {
    &&& 0 <= s < e < p.len()
    &&& p[s] is LoopStart
    &&& p[e] is LoopEnd
    &&& depth(p, e + 1) == depth(p, s)
    &&& forall|j: int| s < j < e ==> #[trigger] depth(p, j + 1) > depth(p, s)
}

/// The instruction with its jump target, if any, forgotten.
pub open spec fn strip(ins: Instruction) -> Instruction {
    match ins {
        Instruction::LoopStart(_) => Instruction::LoopStart(0),
        Instruction::LoopEnd(_) => Instruction::LoopEnd(0),
        _ => ins,
    }
}

/// `r` and `p` agree everywhere except possibly on jump targets.
pub open spec fn same_shape(p: Seq<Instruction>, r: Seq<Instruction>) -> bool {
    &&& r.len() == p.len()
    &&& forall|i: int| 0 <= i < p.len() ==> #[trigger] strip(r[i]) == strip(p[i])
}

/// `r` is `p` with every bracket pair patched: a `LoopStart` at `s` matched by
/// a `LoopEnd` at `e` becomes `LoopStart(e + 1)`, the `LoopEnd` becomes
/// `LoopEnd(s + 1)`, and every bracket has a partner.
pub open spec fn resolution_of(p: Seq<Instruction>, r: Seq<Instruction>) -> bool {
    &&& same_shape(p, r)
    &&& forall|s: int, e: int|
        #[trigger] matched(p, s, e) ==> r[s] == Instruction::LoopStart((e + 1) as usize) && r[e]
            == Instruction::LoopEnd((s + 1) as usize)
    &&& forall|s: int| 0 <= s < p.len() && #[trigger] p[s] is LoopStart ==> exists|e: int| matched(p, s, e)
    &&& forall|e: int| 0 <= e < p.len() && #[trigger] p[e] is LoopEnd ==> exists|s: int| matched(p, s, e)
}

/// Depth depends on the shape of the program only.
pub proof fn lemma_depth_same_shape(p: Seq<Instruction>, r: Seq<Instruction>, i: int)
    requires
        same_shape(p, r),
        0 <= i <= p.len(),
    ensures
        depth(p, i) == depth(r, i),
    decreases i,
{
    if i > 0 {
        lemma_depth_same_shape(p, r, i - 1);
        assert(strip(r[i - 1]) == strip(p[i - 1]));
    }
}

/// Bracket pairs depend on the shape of the program only.
pub proof fn lemma_matched_same_shape(p: Seq<Instruction>, r: Seq<Instruction>, s: int, e: int)
    requires
        same_shape(p, r),
    ensures
        matched(p, s, e) == matched(r, s, e),
{
    if 0 <= s < e < p.len() {
        assert(strip(r[s]) == strip(p[s]));
        assert(strip(r[e]) == strip(p[e]));
        assert((p[s] is LoopStart) == (r[s] is LoopStart));
        assert((p[e] is LoopEnd) == (r[e] is LoopEnd));
        lemma_depth_same_shape(p, r, s);
        lemma_depth_same_shape(p, r, e + 1);
        assert forall|j: int| #![trigger depth(p, j + 1)] #![trigger depth(r, j + 1)]
            s < j < e implies depth(p, j + 1) == depth(r, j + 1) by {
            lemma_depth_same_shape(p, r, j + 1);
        }
    }
}

/// A `LoopStart` has at most one partner.
pub proof fn lemma_end_unique(p: Seq<Instruction>, s: int, e1: int, e2: int)
    requires
        matched(p, s, e1),
        matched(p, s, e2),
    ensures
        e1 == e2,
{
    if e1 < e2 {
        assert(depth(p, e1 + 1) > depth(p, s));
    } else if e2 < e1 {
        assert(depth(p, e2 + 1) > depth(p, s));
    }
}

/// A `LoopEnd` has at most one partner.
pub proof fn lemma_start_unique(p: Seq<Instruction>, s1: int, s2: int, e: int)
    requires
        matched(p, s1, e),
        matched(p, s2, e),
    ensures
        s1 == s2,
{
    if s1 < s2 {
        if s2 > s1 + 1 {
            assert(depth(p, (s2 - 1) + 1) > depth(p, s1));
        }
    } else if s2 < s1 {
        if s1 > s2 + 1 {
            assert(depth(p, (s1 - 1) + 1) > depth(p, s2));
        }
    }
}

proof fn lemma_open_before(p: Seq<Instruction>, e: int, j: int)
    requires
        balanced(p),
        0 <= e < p.len(),
        p[e] is LoopEnd,
        0 <= j <= e,
        depth(p, j) > depth(p, e + 1),
        forall|k: int| j <= k < e ==> #[trigger] depth(p, k + 1) > depth(p, e + 1),
    ensures
        exists|s: int| matched(p, s, e),
    decreases j,
{
    let d = depth(p, e + 1);
    assert(d >= 0);
    if j > 0 {
        if depth(p, j - 1) == d {
            assert forall|k: int| j - 1 < k < e implies #[trigger] depth(p, k + 1) > depth(p, j - 1) by {
                assert(depth(p, k + 1) > d);
            }
            assert(matched(p, j - 1, e));
        } else {
            assert forall|k: int| j - 1 <= k < e implies #[trigger] depth(p, k + 1) > d by {
                if k > j - 1 {
                    assert(depth(p, k + 1) > d);
                }
            }
            lemma_open_before(p, e, j - 1);
        }
    }
}

/// In a balanced program every `LoopEnd` closes some `LoopStart`.
pub proof fn lemma_end_has_start(p: Seq<Instruction>, e: int)
    requires
        balanced(p),
        0 <= e < p.len(),
        p[e] is LoopEnd,
    ensures
        exists|s: int| matched(p, s, e),
{
    lemma_open_before(p, e, e);
}

/// Resolution is idempotent: the resolution `r` of a balanced program is
/// balanced, is its own resolution (resolving it again succeeds and changes no
/// jump target), and no other program is a resolution of it.
pub proof fn lemma_resolution_idempotent(p: Seq<Instruction>, r: Seq<Instruction>)
    requires
        balanced(p),
        resolution_of(p, r),
    ensures
        balanced(r),
        resolution_of(r, r),
        forall|r2: Seq<Instruction>| #[trigger] resolution_of(r, r2) ==> r2 == r,
{
    assert forall|i: int| 0 <= i <= r.len() implies #[trigger] depth(r, i) >= 0 by {
        lemma_depth_same_shape(p, r, i);
    }
    lemma_depth_same_shape(p, r, r.len() as int);
    assert forall|i: int| 0 <= i < r.len() implies #[trigger] strip(r[i]) == strip(r[i]) by {}
    assert forall|s: int, e: int| #[trigger] matched(r, s, e) implies r[s] == Instruction::LoopStart(
        (e + 1) as usize,
    ) && r[e] == Instruction::LoopEnd((s + 1) as usize) by {
        lemma_matched_same_shape(p, r, s, e);
    }
    assert forall|s: int| 0 <= s < r.len() && #[trigger] r[s] is LoopStart implies exists|e: int|
        matched(r, s, e) by {
        assert(strip(r[s]) == strip(p[s]));
        let e = choose|e: int| matched(p, s, e);
        lemma_matched_same_shape(p, r, s, e);
    }
    assert forall|e: int| 0 <= e < r.len() && #[trigger] r[e] is LoopEnd implies exists|s: int|
        matched(r, s, e) by {
        assert(strip(r[e]) == strip(p[e]));
        let s = choose|s: int| matched(p, s, e);
        lemma_matched_same_shape(p, r, s, e);
    }
    assert forall|r2: Seq<Instruction>| #[trigger] resolution_of(r, r2) implies r2 == r by {
        assert forall|i: int| 0 <= i < r.len() implies r2[i] == r[i] by {
            assert(strip(r2[i]) == strip(r[i]));
            if r[i] is LoopStart {
                let e = choose|e: int| matched(r, i, e);
                assert(matched(r, i, e));
            } else if r[i] is LoopEnd {
                let s = choose|s: int| matched(r, s, i);
                assert(matched(r, s, i));
            }
        }
        assert(r2 =~= r);
    }
}

/// Whether the brackets of `program` are properly nested.
pub fn is_balanced(program: &Vec<Instruction>) -> (r: bool)
    ensures
        r == balanced(program@),
{
    let ghost p = program@;
    let mut d: usize = 0;
    let mut i: usize = 0;
    while i < program.len()
        invariant
            i <= p.len(),
            p == program@,
            d as int == depth(p, i as int),
            d <= i,
            forall|j: int| 0 <= j <= i ==> #[trigger] depth(p, j) >= 0,
        decreases p.len() - i,
    {
        match program[i] {
            Instruction::LoopStart(_) => {
                d = d + 1;
            },
            Instruction::LoopEnd(_) => {
                if d == 0 {
                    assert(depth(p, i + 1) < 0);
                    return false;
                }
                d = d - 1;
            },
            _ => {},
        }
        i = i + 1;
    }
    d == 0
}

/// Scans forward from the `LoopStart` at `start` for the `LoopEnd` that closes
/// it, counting the loops opened on the way.
pub fn find_loop_end(program: &Vec<Instruction>, start: usize) -> (r: Option<usize>)
    requires
        start < program@.len(),
        program@[start as int] is LoopStart,
    ensures
        match r {
            Some(e) => matched(program@, start as int, e as int),
            None => depth(program@, program@.len() as int) > depth(program@, start as int),
        },
{
    let ghost p = program@;
    let ghost d0 = depth(p, start as int);
    let n = program.len();
    let mut end: usize = start + 1;
    let mut skips: usize = 0;
    assert(depth(p, start + 1) == d0 + 1);
    while end < program.len()
        invariant
            p == program@,
            start < end <= p.len(),
            p[start as int] is LoopStart,
            d0 == depth(p, start as int),
            skips as int == depth(p, end as int) - d0 - 1,
            skips < end,
            forall|j: int| start < j < end ==> #[trigger] depth(p, j + 1) > d0,
        decreases p.len() - end,
    {
        match program[end] {
            Instruction::LoopStart(_) => {
                skips = skips + 1;
            },
            Instruction::LoopEnd(_) => {
                if skips == 0 {
                    return Some(end);
                }
                skips = skips - 1;
            },
            _ => {},
        }
        end = end + 1;
    }
    None
}

/// Patches the jump target of every bracket in place, or reports
/// `UnbalancedLoops` (leaving the program untouched) when brackets do not nest.
pub fn process_loops(program: &mut Vec<Instruction>) -> (r: Result<(), LoadError>)
    ensures
        r is Ok <==> balanced(old(program)@),
        r is Ok ==> resolution_of(old(program)@, final(program)@),
        r is Err ==> r == Err::<(), LoadError>(LoadError::UnbalancedLoops) && final(program)@
            == old(program)@,
{
    if !is_balanced(program) {
        return Err(LoadError::UnbalancedLoops);
    }
    let ghost p = program@;
    let mut idx: usize = 0;
    while idx < program.len()
        invariant
            balanced(p),
            idx <= p.len(),
            same_shape(p, program@),
            forall|s: int, e: int|
                #[trigger] matched(p, s, e) && s < idx ==> program@[s] == Instruction::LoopStart(
                    (e + 1) as usize,
                ) && program@[e] == Instruction::LoopEnd((s + 1) as usize),
            forall|s: int|
                0 <= s < idx && #[trigger] p[s] is LoopStart ==> exists|e: int| matched(p, s, e),
        decreases p.len() - idx,
    {
        let ghost before = program@;
        assert(strip(program@[idx as int]) == strip(p[idx as int]));
        if let Instruction::LoopStart(_) = program[idx] {
            let found = find_loop_end(program, idx);
            proof {
                lemma_depth_same_shape(p, program@, idx as int);
                lemma_depth_same_shape(p, program@, p.len() as int);
            }
            match found {
                Some(e) => {
                    proof {
                        lemma_matched_same_shape(p, program@, idx as int, e as int);
                    }
                    program.set(idx, Instruction::LoopStart(e + 1));
                    program.set(e, Instruction::LoopEnd(idx + 1));
                    proof {
                        assert forall|i: int| 0 <= i < p.len() implies #[trigger] strip(program@[i])
                            == strip(p[i]) by {
                            assert(strip(before[i]) == strip(p[i]));
                        }
                        assert forall|s: int, e2: int|
                            #[trigger] matched(p, s, e2) && s < idx + 1 implies program@[s]
                            == Instruction::LoopStart((e2 + 1) as usize) && program@[e2]
                            == Instruction::LoopEnd((s + 1) as usize) by {
                            if s == idx {
                                lemma_end_unique(p, s, e as int, e2);
                            } else {
                                if e2 == e {
                                    lemma_start_unique(p, s, idx as int, e2);
                                }
                            }
                        }
                    }
                },
                None => {
                    assert(false);
                    return Err(LoadError::UnbalancedLoops);
                },
            }
        }
        idx = idx + 1;
    }
    proof {
        assert forall|e: int| 0 <= e < p.len() && #[trigger] p[e] is LoopEnd implies exists|s: int|
            matched(p, s, e) by {
            lemma_end_has_start(p, e);
        }
    }
    Ok(())
}

} // verus!
