//! Properties of the instruction semantics, stated over `next_config` and
//! `run_trace`.
use vstd::prelude::*;
use vstd::arithmetic::div_mod::{lemma_add_mod_noop_right, lemma_sub_mod_noop_right};
use crate::instruction::{Instruction, is_run_token, run_instruction, token_instruction};
use crate::brackets::{balanced, depth, depth_change};
use crate::loader::{encode_optimised, encode_plain, leading, lemma_leading_bound};
use crate::machine::{Config, Trace, ended, next_config, run_trace};

verus! {

/// Tape motion wraps: one `MoveRight` from the last cell lands on cell 0, and
/// one `MoveLeft` from cell 0 lands on the last cell, whatever the tape length.
pub proof fn lemma_motion_wraps(p: Seq<Instruction>, c: Config, input: u8)
    requires
        0 <= c.ip < p.len(),
        c.tape.len() >= 1,
    ensures
        p[c.ip] == Instruction::MoveRight(1) && c.dp == c.tape.len() - 1 ==> next_config(
            p,
            c,
            input,
        ).dp == 0,
        p[c.ip] == Instruction::MoveLeft(1) && c.dp == 0 ==> next_config(p, c, input).dp == c.tape.len()
            - 1,
{
    let n = c.tape.len() as int;
    assert((n - 1 + 1) % n == 0) by {
        vstd::arithmetic::div_mod::lemma_mod_self_0(n);
    }
    assert((0 - 1) % n == n - 1) by {
        vstd::arithmetic::div_mod::lemma_mod_sub_multiples_vanish(n - 1, n);
        vstd::arithmetic::div_mod::lemma_small_mod((n - 1) as nat, n as nat);
    }
}

/// Cell arithmetic wraps modulo 256: `Increment(1)` on 255 gives 0 and
/// `Decrement(1)` on 0 gives 255, leaving the other cells alone.
pub proof fn lemma_cell_wraps(p: Seq<Instruction>, c: Config, input: u8)
    requires
        0 <= c.ip < p.len(),
        0 <= c.dp < c.tape.len(),
    ensures
        p[c.ip] == Instruction::Increment(1) && c.tape[c.dp] == 255 ==> next_config(
            p,
            c,
            input,
        ).tape == c.tape.update(c.dp, 0),
        p[c.ip] == Instruction::Decrement(1) && c.tape[c.dp] == 0 ==> next_config(
            p,
            c,
            input,
        ).tape == c.tape.update(c.dp, 255),
{
}

/// The loop `[-]` as the resolver patches it.
pub open spec fn clear_loop() -> Seq<Instruction> {
    seq![Instruction::LoopStart(3), Instruction::Decrement(1), Instruction::LoopEnd(1)]
}

proof fn lemma_clear_loop_body(c: Config, input: Seq<u8>, w: nat)
    requires
        c.ip == 1,
        0 <= c.dp < c.tape.len(),
        c.tape[c.dp] == w,
        0 < w,
    ensures
        run_trace(clear_loop(), c, input, 2 * w) == (Trace {
            config: Config { tape: c.tape.update(c.dp, 0), ip: 3, dp: c.dp },
            output: seq![],
            error: None,
        }),
    decreases w,
{
    let p = clear_loop();
    let c1 = next_config(p, c, 0);
    assert(c1 == Config { tape: c.tape.update(c.dp, (w - 1) as u8), ip: 2, dp: c.dp });
    let c2 = next_config(p, c1, 0);
    let rest = run_trace(p, c2, input, (2 * w - 2) as nat);
    assert(run_trace(p, c1, input, (2 * w - 1) as nat).config == rest.config);
    assert(run_trace(p, c1, input, (2 * w - 1) as nat).output =~= rest.output);
    assert(run_trace(p, c, input, 2 * w).output =~= rest.output);
    if w == 1 {
        assert(c2.tape =~= c.tape.update(c.dp, 0));
        assert(rest.output =~= Seq::<u8>::empty());
    } else {
        assert(c2 == Config { ip: 1, ..c1 });
        lemma_clear_loop_body(c2, input, (w - 1) as nat);
        assert(c1.tape.update(c.dp, 0) =~= c.tape.update(c.dp, 0));
    }
    assert(run_trace(p, c, input, 2 * w).output =~= seq![]);
}

/// `Clear` behaves as the loop `[-]`: from any cell value `v`, running `Clear`
/// for one step and running the patched loop for `2 * v + 1` steps both end the
/// program with the current cell zeroed, the rest of the tape and the data
/// pointer unchanged, no output and no error.
pub proof fn lemma_clear_matches_loop(c: Config, input: Seq<u8>)
    requires
        c.ip == 0,
        0 <= c.dp < c.tape.len(),
    ensures
        ({
            let by_clear = run_trace(seq![Instruction::Clear], c, input, 1);
            let by_loop = run_trace(clear_loop(), c, input, (2 * c.tape[c.dp] + 1) as nat);
            &&& by_clear == by_loop.with_ip(1)
            &&& by_clear.config.tape == c.tape.update(c.dp, 0)
            &&& by_clear.config.dp == c.dp
            &&& by_clear.output.len() == 0
            &&& by_clear.error is None
            &&& ended(seq![Instruction::Clear], by_clear.config)
            &&& ended(clear_loop(), by_loop.config)
        }),
{
    let p = clear_loop();
    let q = seq![Instruction::Clear];
    let v = c.tape[c.dp];
    let c1 = next_config(q, c, 0);
    assert(run_trace(q, c1, input, 0).output =~= Seq::<u8>::empty());
    assert(run_trace(q, c, input, 1).output =~= Seq::<u8>::empty());
    if v == 0 {
        assert(c.tape.update(c.dp, 0) =~= c.tape);
        let d1 = next_config(p, c, 0);
        assert(run_trace(p, d1, input, 0).output =~= Seq::<u8>::empty());
        assert(run_trace(p, c, input, 1).output =~= Seq::<u8>::empty());
    } else {
        let d1 = next_config(p, c, 0);
        lemma_clear_loop_body(d1, input, v as nat);
        assert(run_trace(p, c, input, (2 * v + 1) as nat).output =~= Seq::<u8>::empty());
    }
}

/// `k` one-token instructions for the run token `t`, as loading without
/// coalescing produces them.
pub open spec fn single_run(t: char, k: nat) -> Seq<Instruction> {
    Seq::new(k, |i: int| token_instruction(t))
}

/// Tape and data pointer after `m` single applications of the run token `t`.
spec fn after_run(t: char, m: int, c: Config) -> Config {
    let n = c.tape.len() as int;
    let v = c.tape[c.dp] as int;
    if t == '>' {
        Config { dp: (c.dp + m) % n, ..c }
    } else if t == '<' {
        Config { dp: (c.dp - m) % n, ..c }
    } else if t == '+' {
        Config { tape: c.tape.update(c.dp, ((v + m) % 256) as u8), ..c }
    } else {
        Config { tape: c.tape.update(c.dp, ((v - m) % 256) as u8), ..c }
    }
}

proof fn lemma_single_run_from(t: char, k: nat, c0: Config, j: nat, input: Seq<u8>)
    requires
        is_run_token(t),
        j <= k,
        0 <= c0.dp < c0.tape.len(),
    ensures
        run_trace(single_run(t, k), Config { ip: j as int, ..after_run(t, j as int, c0) }, input, (k - j) as nat)
            == (Trace { config: Config { ip: k as int, ..after_run(t, k as int, c0) }, output: seq![], error: None }),
    decreases k - j,
{
    let p = single_run(t, k);
    let cj = Config { ip: j as int, ..after_run(t, j as int, c0) };
    if j < k {
        let n = c0.tape.len() as int;
        let v = c0.tape[c0.dp] as int;
        let next = Config { ip: j + 1 as int, ..after_run(t, j + 1 as int, c0) };
        assert(p[j as int] == token_instruction(t));
        if t == '>' {
            lemma_add_mod_noop_right(1, c0.dp + j, n);
        } else if t == '<' {
            lemma_add_mod_noop_right(-1, c0.dp - j, n);
        } else if t == '+' {
            lemma_add_mod_noop_right(1, v + j, 256);
            assert(c0.tape.update(c0.dp, ((v + j) % 256) as u8).update(c0.dp, ((v + j + 1) % 256) as u8)
                =~= c0.tape.update(c0.dp, ((v + j + 1) % 256) as u8));
        } else {
            lemma_add_mod_noop_right(-1, v - j, 256);
            assert(c0.tape.update(c0.dp, ((v - j) % 256) as u8).update(c0.dp, ((v - j - 1) % 256) as u8)
                =~= c0.tape.update(c0.dp, ((v - j - 1) % 256) as u8));
        }
        assert(next_config(p, cj, 0) == next);
        lemma_single_run_from(t, k, c0, (j + 1) as nat, input);
        assert(run_trace(p, cj, input, (k - j) as nat).output =~= seq![]);
    }
}

/// Run-coalescing keeps behaviour, one run at a time: executing `k`
/// one-token instructions for the run token `t` ends in the same tape, data
/// pointer, output and error as executing the single coalesced instruction
/// `run_instruction(t, k)`; only the instruction pointers differ, each being
/// the end of its own program.
pub proof fn lemma_run_coalesces(t: char, k: nat, c: Config, input: Seq<u8>)
    requires
        is_run_token(t),
        1 <= k <= usize::MAX,
        c.ip == 0,
        0 <= c.dp < c.tape.len(),
    ensures
        run_trace(single_run(t, k), c, input, k) == run_trace(
            seq![run_instruction(t, k)],
            c,
            input,
            1,
        ).with_ip(k as int),
        ended(single_run(t, k), run_trace(single_run(t, k), c, input, k).config),
{
    let q = seq![run_instruction(t, k)];
    let n = c.tape.len() as int;
    let v = c.tape[c.dp] as int;
    lemma_single_run_from(t, k, c, 0, input);
    if t == '>' {
        assert((c.dp + 0) % n == c.dp) by {
            vstd::arithmetic::div_mod::lemma_small_mod(c.dp as nat, n as nat);
        }
    } else if t == '<' {
        assert((c.dp - 0) % n == c.dp) by {
            vstd::arithmetic::div_mod::lemma_small_mod(c.dp as nat, n as nat);
        }
    } else if t == '+' {
        lemma_add_mod_noop_right(v, k as int, 256);
        assert(c.tape.update(c.dp, ((v + 0) % 256) as u8) =~= c.tape);
    } else {
        lemma_sub_mod_noop_right(v, k as int, 256);
        assert(c.tape.update(c.dp, ((v - 0) % 256) as u8) =~= c.tape);
    }
    assert(Config { ip: 0, ..after_run(t, 0, c) } == c);
    let c1 = next_config(q, c, 0);
    assert(c1 == Config { ip: 1, ..after_run(t, k as int, c) });
    assert(run_trace(q, c1, input, 0).output =~= Seq::<u8>::empty());
    assert(run_trace(q, c, input, 1).output =~= Seq::<u8>::empty());
}

/// Every prefix depth of `p`, offset by `base`, is non-negative.
pub open spec fn nonneg_from(p: Seq<Instruction>, base: int) -> bool {
    forall|i: int| 0 <= i <= p.len() ==> base + #[trigger] depth(p, i) >= 0
}

proof fn lemma_depth_concat(a: Seq<Instruction>, b: Seq<Instruction>, i: int)
    requires
        0 <= i <= a.len() + b.len(),
    ensures
        i <= a.len() ==> depth(a + b, i) == depth(a, i),
        i >= a.len() ==> depth(a + b, i) == depth(a, a.len() as int) + depth(b, i - a.len()),
    decreases i,
{
    if i > 0 {
        lemma_depth_concat(a, b, i - 1);
        if i - 1 < a.len() {
            assert((a + b)[i - 1] == a[i - 1]);
        } else {
            assert((a + b)[i - 1] == b[i - 1 - a.len()]);
        }
    }
}

proof fn lemma_nonneg_concat(a: Seq<Instruction>, b: Seq<Instruction>, base: int)
    ensures
        depth(a + b, (a + b).len() as int) == depth(a, a.len() as int) + depth(b, b.len() as int),
        nonneg_from(a + b, base) == (nonneg_from(a, base) && nonneg_from(
            b,
            base + depth(a, a.len() as int),
        )),
{
    let ab = a + b;
    lemma_depth_concat(a, b, ab.len() as int);
    if nonneg_from(ab, base) {
        assert forall|i: int| 0 <= i <= a.len() implies base + #[trigger] depth(a, i) >= 0 by {
            lemma_depth_concat(a, b, i);
            assert(base + depth(ab, i) >= 0);
        }
        assert forall|i: int| 0 <= i <= b.len() implies base + depth(a, a.len() as int)
            + #[trigger] depth(b, i) >= 0 by {
            lemma_depth_concat(a, b, i + a.len());
            assert(base + depth(ab, i + a.len()) >= 0);
        }
    }
    if nonneg_from(a, base) && nonneg_from(b, base + depth(a, a.len() as int)) {
        assert forall|i: int| 0 <= i <= ab.len() implies base + #[trigger] depth(ab, i) >= 0 by {
            lemma_depth_concat(a, b, i);
            if i <= a.len() {
                assert(base + depth(a, i) >= 0);
            } else {
                assert(base + depth(a, a.len() as int) + depth(b, i - a.len()) >= 0);
            }
        }
    }
}

/// A program without brackets stays at depth zero.
proof fn lemma_flat_depth(p: Seq<Instruction>, i: int)
    requires
        0 <= i <= p.len(),
        forall|j: int| 0 <= j < p.len() ==> depth_change(#[trigger] p[j]) == 0,
    ensures
        depth(p, i) == 0,
    decreases i,
{
    if i > 0 {
        lemma_flat_depth(p, i - 1);
        assert(depth_change(p[i - 1]) == 0);
    }
}

/// A flat program is non-negative from `base` exactly when `base` is.
proof fn lemma_flat_nonneg(p: Seq<Instruction>, base: int)
    requires
        forall|j: int| 0 <= j < p.len() ==> depth_change(#[trigger] p[j]) == 0,
    ensures
        depth(p, p.len() as int) == 0,
        nonneg_from(p, base) == (base >= 0),
{
    lemma_flat_depth(p, p.len() as int);
    lemma_flat_depth(p, 0);
    assert forall|i: int| 0 <= i <= p.len() implies #[trigger] depth(p, i) == 0 by {
        lemma_flat_depth(p, i);
    }
}

proof fn lemma_leading_prefix(s: Seq<char>, c: char, i: int)
    requires
        0 <= i < leading(s, c),
    ensures
        s[i] == c,
    decreases i,
{
    lemma_leading_bound(s, c);
    assert(s.len() > 0 && s[0] == c);
    if i > 0 {
        lemma_leading_prefix(s.drop_first(), c, i - 1);
        assert(s.drop_first()[i - 1] == s[i]);
    }
}

/// Number of source characters the coalescing encoder consumes for its first
/// instruction.
spec fn first_len(s: Seq<char>) -> int {
    if is_run_token(s[0]) {
        leading(s, s[0]) as int
    } else if s[0] == '[' && s.len() >= 3 && s[1] == '-' && s[2] == ']' {
        3
    } else {
        1
    }
}

proof fn lemma_optimised_unfold(s: Seq<char>)
    requires
        s.len() > 0,
    ensures
        1 <= first_len(s) <= s.len(),
        encode_optimised(s) == encode_optimised(s).take(1) + encode_optimised(
            s.skip(first_len(s)),
        ),
        encode_optimised(s).len() >= 1,
{
    if is_run_token(s[0]) {
        lemma_leading_bound(s.drop_first(), s[0]);
    }
    let opt = encode_optimised(s);
    assert(opt =~= opt.take(1) + encode_optimised(s.skip(first_len(s))));
}

/// The plain encoding of the first segment and the first coalesced
/// instruction have the same depth profile as far as balance is concerned.
proof fn lemma_first_segment(s: Seq<char>, base: int)
    requires
        s.len() > 0,
    ensures
        depth(encode_plain(s.take(first_len(s))), first_len(s)) == depth(
            encode_optimised(s).take(1),
            1,
        ),
        nonneg_from(encode_plain(s.take(first_len(s))), base) == nonneg_from(
            encode_optimised(s).take(1),
            base,
        ),
{
    lemma_optimised_unfold(s);
    let k = first_len(s);
    let seg = encode_plain(s.take(k));
    let head = encode_optimised(s).take(1);
    if is_run_token(s[0]) {
        assert forall|j: int| 0 <= j < seg.len() implies depth_change(#[trigger] seg[j]) == 0 by {
            lemma_leading_prefix(s, s[0], j);
        }
        assert(depth_change(head[0]) == 0);
        lemma_flat_nonneg(seg, base);
        lemma_flat_nonneg(head, base);
    } else if k == 3 {
        assert(s[0] == '[' && s[1] == '-' && s[2] == ']');
        assert(seg[0] == Instruction::LoopStart(0));
        assert(seg[1] == Instruction::Decrement(1));
        assert(seg[2] == Instruction::LoopEnd(0));
        assert(depth(seg, 0) == 0);
        assert(depth(seg, 1) == 1);
        assert(depth(seg, 2) == 1);
        assert(depth(seg, 3) == 0);
        if base >= 0 {
            assert forall|i: int| 0 <= i <= seg.len() implies base + #[trigger] depth(seg, i) >= 0 by {
                if i == 0 {
                } else if i == 1 {
                } else if i == 2 {
                }
            }
        } else {
            assert(base + depth(seg, 0) < 0);
        }
        assert(depth_change(head[0]) == 0);
        lemma_flat_nonneg(head, base);
    } else {
        assert(seg =~= head);
    }
}

proof fn lemma_balance_same_encodings(s: Seq<char>, base: int)
    ensures
        depth(encode_plain(s), s.len() as int) == depth(
            encode_optimised(s),
            encode_optimised(s).len() as int,
        ),
        nonneg_from(encode_plain(s), base) == nonneg_from(encode_optimised(s), base),
    decreases s.len(),
{
    let plain = encode_plain(s);
    let opt = encode_optimised(s);
    if s.len() == 0 {
        lemma_flat_nonneg(plain, base);
        lemma_flat_nonneg(opt, base);
    } else {
        lemma_optimised_unfold(s);
        let k = first_len(s);
        let rest = s.skip(k);
        let head = opt.take(1);
        assert(plain =~= encode_plain(s.take(k)) + encode_plain(rest));
        lemma_nonneg_concat(encode_plain(s.take(k)), encode_plain(rest), base);
        lemma_nonneg_concat(head, encode_optimised(rest), base);
        lemma_first_segment(s, base);
        lemma_balance_same_encodings(rest, base);
        lemma_balance_same_encodings(rest, base + depth(head, 1));
    }
}

/// Coalescing keeps bracket structure: a source's coalesced encoding is
/// balanced exactly when its one-token-per-instruction encoding is, so a
/// source loads with coalescing on exactly when it loads with it off.
pub proof fn lemma_coalescing_keeps_balance(s: Seq<char>)
    ensures
        balanced(encode_plain(s)) == balanced(encode_optimised(s)),
{
    lemma_balance_same_encodings(s, 0);
    let plain = encode_plain(s);
    let opt = encode_optimised(s);
    assert(nonneg_from(plain, 0) == (forall|i: int| 0 <= i <= plain.len() ==> #[trigger] depth(plain, i) >= 0));
    assert(nonneg_from(opt, 0) == (forall|i: int| 0 <= i <= opt.len() ==> #[trigger] depth(opt, i) >= 0));
}

} // verus!
