use crate::error::ParserError;
use crate::instruction::{
    is_instruction_byte, is_token, linked, linked_at, simple_instruction, Instruction,
    TOKEN_CLOSE, TOKEN_DOT, TOKEN_LEFT, TOKEN_MINUS, TOKEN_OPEN, TOKEN_PLUS, TOKEN_RIGHT,
};
use vstd::prelude::*;
use vstd::string::StringSliceAdditionalSpecFns;

verus! {

/// The meaningful bytes of a source text, in order; every other byte is noise.
pub open spec fn tokens(src: Seq<u8>) -> Seq<u8>
    decreases src.len(),
{
    if src.len() == 0 {
        Seq::empty()
    } else if is_token(src.last()) {
        tokens(src.drop_last()).push(src.last())
    } else {
        tokens(src.drop_last())
    }
}

/// The number of `[` less the number of `]` among the first `n` tokens.
pub open spec fn depth(t: Seq<u8>, n: int) -> int
    decreases n,
{
    if n <= 0 {
        0
    } else if t[n - 1] == TOKEN_OPEN {
        depth(t, n - 1) + 1
    } else if t[n - 1] == TOKEN_CLOSE {
        depth(t, n - 1) - 1
    } else {
        depth(t, n - 1)
    }
}

/// Some `]` stands where no `[` is open.
pub open spec fn closes_unopened(t: Seq<u8>) -> bool {
    exists|n: int| 0 <= n <= t.len() && #[trigger] depth(t, n) < 0
}

/// No `]` comes too early and no `[` is left open.
pub open spec fn balanced(t: Seq<u8>) -> bool {
    !closes_unopened(t) && depth(t, t.len() as int) == 0
}

/// The `]` at `close` is the one that closes the `[` at `open`: it is the
/// first place after `open` where the depth is back to what it was there.
pub open spec fn paired(t: Seq<u8>, open: int, close: int) -> bool {
    &&& 0 <= open < close < t.len()
    &&& t[open] == TOKEN_OPEN
    &&& t[close] == TOKEN_CLOSE
    &&& depth(t, close + 1) == depth(t, open)
    &&& forall|k: int| open < k <= close ==> #[trigger] depth(t, k) > depth(t, open)
}

/// The instruction at `i` is the one that token `i` stands for, a loop
/// delimiter carrying the index of its partner.
pub open spec fn resolved_at(t: Seq<u8>, p: Seq<Instruction>, i: int) -> bool {
    if t[i] == TOKEN_OPEN {
        p[i] matches Instruction::LoopStart(j) && paired(t, i, j as int)
    } else if t[i] == TOKEN_CLOSE {
        p[i] matches Instruction::LoopEnd(j) && paired(t, j as int, i)
    } else {
        p[i] == simple_instruction(t[i])
    }
}

/// `p` is the instruction sequence of the balanced token sequence `t`.
pub open spec fn resolves(t: Seq<u8>, p: Seq<Instruction>) -> bool {
    &&& p.len() == t.len()
    &&& forall|i: int| 0 <= i < t.len() ==> #[trigger] resolved_at(t, p, i)
}

/// What validation owes for the source bytes `src`: the resolved program
/// when the delimiters balance, `UnexpectedToken` when a `]` comes too
/// early, `IncompleteLoop` when only closing delimiters are missing.
pub open spec fn parses_to(src: Seq<u8>, r: Result<Seq<Instruction>, ParserError>) -> bool {
    let t = tokens(src);
    match r {
        Ok(p) => balanced(t) && resolves(t, p),
        Err(ParserError::UnexpectedToken) => closes_unopened(t),
        Err(ParserError::IncompleteLoop) => !closes_unopened(t) && depth(t, t.len() as int) > 0,
    }
}

/// The program that a source text with balanced delimiters stands for.
pub open spec fn program_of(src: Seq<u8>) -> Seq<Instruction> {
    choose|p: Seq<Instruction>| resolves(tokens(src), p)
}

/// A validated instruction sequence. It can only be made by `parse` and
/// `parse_bytes`, so its loop instructions are always linked.
#[derive(Debug)]
pub struct Program {
    instructions: Vec<Instruction>,
}

impl View for Program {
    type V = Seq<Instruction>;

    closed spec fn view(&self) -> Seq<Instruction> {
        self.instructions@
    }
}

/// The view of a validation result.
pub open spec fn outcome(r: Result<Program, ParserError>) -> Result<Seq<Instruction>, ParserError> {
    match r {
        Ok(p) => Ok(p@),
        Err(e) => Err(e),
    }
}

impl Program {
    #[verifier::type_invariant]
    pub open spec fn well_formed(self) -> bool {
        linked(self@)
    }

    /// The number of instructions.
    pub fn len(&self) -> (n: usize)
        ensures
            n == self@.len(),
    {
        self.instructions.len()
    }

    /// The instruction at `index`, if there is one.
    pub fn get(&self, index: usize) -> (r: Option<Instruction>)
        ensures
            r == (if index < self@.len() {
                Some(self@[index as int])
            } else {
                None
            }),
            self@.len() <= usize::MAX,
    {
        if index < self.instructions.len() {
            Some(self.instructions[index])
        } else {
            None
        }
    }

    /// The instructions in order.
    pub fn instructions(&self) -> (r: &Vec<Instruction>)
        ensures
            r@ == self@,
            linked(r@),
    {
        proof {
            use_type_invariant(self);
        }
        &self.instructions
    }
}

spec fn prefix_of(a: Seq<u8>, b: Seq<u8>) -> bool {
    a.len() <= b.len() && forall|i: int| 0 <= i < a.len() ==> a[i] == b[i]
}

proof fn lemma_depth_prefix(a: Seq<u8>, b: Seq<u8>, n: int)
    requires
        prefix_of(a, b),
        0 <= n <= a.len(),
    ensures
        depth(a, n) == depth(b, n),
    decreases n,
{
    if n > 0 {
        lemma_depth_prefix(a, b, n - 1);
    }
}

proof fn lemma_depth_push(t: Seq<u8>, c: u8)
    ensures
        forall|n: int| 0 <= n <= t.len() ==> #[trigger] depth(t.push(c), n) == depth(t, n),
        depth(t.push(c), t.len() as int + 1) == depth(t, t.len() as int) + (if c == TOKEN_OPEN {
            1int
        } else if c == TOKEN_CLOSE {
            -1int
        } else {
            0int
        }),
{
    let u = t.push(c);
    assert(prefix_of(t, u));
    assert forall|n: int| 0 <= n <= t.len() implies #[trigger] depth(u, n) == depth(t, n) by {
        lemma_depth_prefix(t, u, n);
    }
    assert(u[t.len() as int] == c);
    assert(depth(u, t.len() as int) == depth(t, t.len() as int));
}

proof fn lemma_tokens_prefix(src: Seq<u8>, k: int)
    requires
        0 <= k <= src.len(),
    ensures
        prefix_of(tokens(src.take(k)), tokens(src)),
    decreases src.len(),
{
    if k == src.len() {
        assert(src.take(k) =~= src);
    } else {
        let front = src.drop_last();
        assert(front.take(k) =~= src.take(k));
        lemma_tokens_prefix(front, k);
    }
}

proof fn lemma_tokens_step(src: Seq<u8>, k: int)
    requires
        0 <= k < src.len(),
    ensures
        tokens(src.take(k + 1)) == (if is_token(src[k]) {
            tokens(src.take(k)).push(src[k])
        } else {
            tokens(src.take(k))
        }),
{
    let s = src.take(k + 1);
    assert(s.drop_last() =~= src.take(k));
    assert(s.last() == src[k]);
}

/// The `[` at `open` is still open after all of `t`, at nesting level `level`.
spec fn pending(t: Seq<u8>, open: int, level: int) -> bool {
    &&& 0 <= open < t.len()
    &&& t[open] == TOKEN_OPEN
    &&& depth(t, open) == level
    &&& forall|k: int| open < k <= t.len() ==> #[trigger] depth(t, k) > level
}

/// Instruction `i` is final, or it is a `[` that waits on the stack.
spec fn scanned_at(t: Seq<u8>, p: Seq<Instruction>, stack: Seq<usize>, i: int) -> bool {
    if t[i] == TOKEN_OPEN {
        p[i] matches Instruction::LoopStart(j) && (paired(t, i, j as int) || (0 <= depth(t, i)
            < stack.len() && stack[depth(t, i)] == i))
    } else {
        resolved_at(t, p, i)
    }
}

/// What the scan has established once it has read the tokens `t`.
spec fn scan_state(t: Seq<u8>, p: Seq<Instruction>, stack: Seq<usize>) -> bool {
    &&& p.len() == t.len()
    &&& forall|n: int| 0 <= n <= t.len() ==> #[trigger] depth(t, n) >= 0
    &&& stack.len() == depth(t, t.len() as int)
    &&& forall|s: int| 0 <= s < stack.len() ==> #[trigger] pending(t, stack[s] as int, s)
    &&& forall|i: int| 0 <= i < t.len() ==> #[trigger] scanned_at(t, p, stack, i)
}

proof fn lemma_paired_push(t: Seq<u8>, c: u8, open: int, close: int)
    requires
        paired(t, open, close),
    ensures
        paired(t.push(c), open, close),
{
    lemma_depth_push(t, c);
    let u = t.push(c);
    assert(depth(u, close + 1) == depth(t, close + 1));
    assert(depth(u, open) == depth(t, open));
    assert forall|k: int| open < k <= close implies #[trigger] depth(u, k) > depth(u, open) by {
        assert(depth(u, k) == depth(t, k));
    }
}

proof fn lemma_scan_simple(t: Seq<u8>, p: Seq<Instruction>, stack: Seq<usize>, c: u8)
    requires
        scan_state(t, p, stack),
        c != TOKEN_OPEN,
        c != TOKEN_CLOSE,
    ensures
        scan_state(t.push(c), p.push(simple_instruction(c)), stack),
{
    let u = t.push(c);
    let q = p.push(simple_instruction(c));
    lemma_depth_push(t, c);
    assert forall|n: int| 0 <= n <= u.len() implies #[trigger] depth(u, n) >= 0 by {
        if n <= t.len() {
            assert(depth(u, n) == depth(t, n));
        }
    }
    assert forall|s: int| 0 <= s < stack.len() implies #[trigger] pending(u, stack[s] as int, s) by {
        assert(pending(t, stack[s] as int, s));
        let open = stack[s] as int;
        assert(depth(u, open) == depth(t, open));
        assert forall|k: int| open < k <= u.len() implies #[trigger] depth(u, k) > s by {
            if k <= t.len() {
                assert(depth(u, k) == depth(t, k));
            }
        }
    }
    assert forall|i: int| 0 <= i < u.len() implies #[trigger] scanned_at(u, q, stack, i) by {
        if i < t.len() {
            assert(scanned_at(t, p, stack, i));
            assert(depth(u, i) == depth(t, i));
            match p[i] {
                Instruction::LoopStart(j) => {
                    if paired(t, i, j as int) {
                        lemma_paired_push(t, c, i, j as int);
                    }
                },
                Instruction::LoopEnd(j) => {
                    if paired(t, j as int, i) {
                        lemma_paired_push(t, c, j as int, i);
                    }
                },
                _ => {},
            }
        }
    }
}

proof fn lemma_scan_open(t: Seq<u8>, p: Seq<Instruction>, stack: Seq<usize>, j: usize)
    requires
        scan_state(t, p, stack),
        t.len() <= usize::MAX,
    ensures
        scan_state(
            t.push(TOKEN_OPEN),
            p.push(Instruction::LoopStart(j)),
            stack.push(t.len() as usize),
        ),
{
    let u = t.push(TOKEN_OPEN);
    let q = p.push(Instruction::LoopStart(j));
    let st = stack.push(t.len() as usize);
    lemma_depth_push(t, TOKEN_OPEN);
    assert forall|n: int| 0 <= n <= u.len() implies #[trigger] depth(u, n) >= 0 by {
        if n <= t.len() {
            assert(depth(u, n) == depth(t, n));
        }
    }
    assert forall|s: int| 0 <= s < st.len() implies #[trigger] pending(u, st[s] as int, s) by {
        let open = st[s] as int;
        if s < stack.len() {
            assert(pending(t, stack[s] as int, s));
        }
        assert(depth(u, open) == depth(t, open));
        assert forall|k: int| open < k <= u.len() implies #[trigger] depth(u, k) > s by {
            if k <= t.len() {
                assert(depth(u, k) == depth(t, k));
            }
        }
    }
    assert forall|i: int| 0 <= i < u.len() implies #[trigger] scanned_at(u, q, st, i) by {
        assert(depth(u, i) == depth(t, i));
        if i < t.len() {
            assert(scanned_at(t, p, stack, i));
            match p[i] {
                Instruction::LoopStart(j) => {
                    if paired(t, i, j as int) {
                        lemma_paired_push(t, TOKEN_OPEN, i, j as int);
                    }
                },
                Instruction::LoopEnd(j) => {
                    if paired(t, j as int, i) {
                        lemma_paired_push(t, TOKEN_OPEN, j as int, i);
                    }
                },
                _ => {},
            }
        }
    }
}

proof fn lemma_scan_close(t: Seq<u8>, p: Seq<Instruction>, stack: Seq<usize>)
    requires
        scan_state(t, p, stack),
        stack.len() > 0,
        t.len() <= usize::MAX,
    ensures
        stack.last() < t.len(),
        scan_state(
            t.push(TOKEN_CLOSE),
            p.update(stack.last() as int, Instruction::LoopStart(t.len() as usize)).push(
                Instruction::LoopEnd(stack.last()),
            ),
            stack.drop_last(),
        ),
{
    let open = stack.last() as int;
    let close = t.len() as int;
    let level = stack.len() - 1;
    let u = t.push(TOKEN_CLOSE);
    let q = p.update(open, Instruction::LoopStart(close as usize)).push(
        Instruction::LoopEnd(open as usize),
    );
    let st = stack.drop_last();
    lemma_depth_push(t, TOKEN_CLOSE);
    assert(pending(t, stack[level] as int, level));
    assert(depth(u, open) == depth(t, open));
    assert(paired(u, open, close)) by {
        assert forall|k: int| open < k <= close implies #[trigger] depth(u, k) > depth(u, open) by {
            assert(depth(u, k) == depth(t, k));
        }
    }
    assert forall|n: int| 0 <= n <= u.len() implies #[trigger] depth(u, n) >= 0 by {
        if n <= t.len() {
            assert(depth(u, n) == depth(t, n));
        }
    }
    assert forall|s: int| 0 <= s < st.len() implies #[trigger] pending(u, st[s] as int, s) by {
        assert(pending(t, stack[s] as int, s));
        let o = st[s] as int;
        assert(depth(u, o) == depth(t, o));
        assert forall|k: int| o < k <= u.len() implies #[trigger] depth(u, k) > s by {
            if k <= t.len() {
                assert(depth(u, k) == depth(t, k));
            }
        }
    }
    assert forall|i: int| 0 <= i < u.len() implies #[trigger] scanned_at(u, q, st, i) by {
        assert(depth(u, i) == depth(t, i));
        if i < t.len() && i != open {
            assert(scanned_at(t, p, stack, i));
            match p[i] {
                Instruction::LoopStart(j) => {
                    if paired(t, i, j as int) {
                        lemma_paired_push(t, TOKEN_CLOSE, i, j as int);
                    } else {
                        assert(pending(t, stack[level] as int, level));
                        assert(depth(t, i) != level);
                    }
                },
                Instruction::LoopEnd(j) => {
                    if paired(t, j as int, i) {
                        lemma_paired_push(t, TOKEN_CLOSE, j as int, i);
                    }
                },
                _ => {},
            }
        }
    }
}

proof fn lemma_scan_done(t: Seq<u8>, p: Seq<Instruction>, stack: Seq<usize>)
    requires
        scan_state(t, p, stack),
    ensures
        !closes_unopened(t),
        stack.len() == 0 ==> balanced(t) && resolves(t, p),
        stack.len() > 0 ==> depth(t, t.len() as int) > 0,
{
    if stack.len() == 0 {
        assert forall|i: int| 0 <= i < t.len() implies #[trigger] resolved_at(t, p, i) by {
            assert(scanned_at(t, p, stack, i));
        }
    }
}

proof fn lemma_closes_unopened_prefix(a: Seq<u8>, b: Seq<u8>)
    requires
        prefix_of(a, b),
        closes_unopened(a),
    ensures
        closes_unopened(b),
{
    let n = choose|n: int| 0 <= n <= a.len() && #[trigger] depth(a, n) < 0;
    lemma_depth_prefix(a, b, n);
}

/// A `[` has one partner only.
proof fn lemma_partner_of_open(t: Seq<u8>, open: int, a: int, b: int)
    requires
        paired(t, open, a),
        paired(t, open, b),
    ensures
        a == b,
{
    if a < b {
        assert(depth(t, a + 1) > depth(t, open));
    } else if b < a {
        assert(depth(t, b + 1) > depth(t, open));
    }
}

/// A `]` has one partner only.
proof fn lemma_partner_of_close(t: Seq<u8>, a: int, b: int, close: int)
    requires
        paired(t, a, close),
        paired(t, b, close),
    ensures
        a == b,
{
    if a < b {
        assert(depth(t, b) > depth(t, a));
    } else if b < a {
        assert(depth(t, a) > depth(t, b));
    }
}

/// The resolved program of a token sequence has every loop instruction
/// linked with its partner in both directions.
pub proof fn lemma_resolved_is_linked(t: Seq<u8>, p: Seq<Instruction>)
    requires
        resolves(t, p),
    ensures
        linked(p),
{
    assert forall|i: int| 0 <= i < p.len() implies #[trigger] linked_at(p, i) by {
        assert(resolved_at(t, p, i));
        if t[i] == TOKEN_OPEN {
            let j = p[i]->LoopStart_0;
            assert(resolved_at(t, p, j as int));
            let k = p[j as int]->LoopEnd_0;
            lemma_partner_of_close(t, i, k as int, j as int);
        } else if t[i] == TOKEN_CLOSE {
            let j = p[i]->LoopEnd_0;
            assert(resolved_at(t, p, j as int));
            let k = p[j as int]->LoopStart_0;
            lemma_partner_of_open(t, j as int, i, k as int);
        }
    }
}

/// Validation is a function of the source text: two results that it may
/// give for one text are the same, loop targets included.
pub proof fn lemma_validation_is_deterministic(
    src: Seq<u8>,
    a: Result<Seq<Instruction>, ParserError>,
    b: Result<Seq<Instruction>, ParserError>,
)
    requires
        parses_to(src, a),
        parses_to(src, b),
    ensures
        a == b,
{
    let t = tokens(src);
    match (a, b) {
        (Ok(p), Ok(q)) => {
            assert forall|i: int| 0 <= i < p.len() implies p[i] == q[i] by {
                assert(resolved_at(t, p, i));
                assert(resolved_at(t, q, i));
                if t[i] == TOKEN_OPEN {
                    lemma_partner_of_open(
                        t,
                        i,
                        p[i]->LoopStart_0 as int,
                        q[i]->LoopStart_0 as int,
                    );
                } else if t[i] == TOKEN_CLOSE {
                    lemma_partner_of_close(t, p[i]->LoopEnd_0 as int, q[i]->LoopEnd_0 as int, i);
                }
            }
            assert(p =~= q);
        },
        _ => {},
    }
}

/// A program that validation accepts for a text is the program of that text.
pub proof fn lemma_program_of(src: Seq<u8>, p: Seq<Instruction>)
    requires
        parses_to(src, Ok(p)),
    ensures
        p == program_of(src),
        linked(program_of(src)),
{
    let q = program_of(src);
    lemma_validation_is_deterministic(src, Ok(p), Ok(q));
    lemma_resolved_is_linked(tokens(src), p);
}

/// `n` closing delimiters.
pub open spec fn closers(n: nat) -> Seq<u8> {
    Seq::new(n, |i: int| TOKEN_CLOSE)
}

proof fn lemma_tokens_concat(a: Seq<u8>, b: Seq<u8>)
    ensures
        tokens(a + b) == tokens(a) + tokens(b),
    decreases b.len(),
{
    if b.len() == 0 {
        assert(a + b =~= a);
        assert(tokens(a) + tokens(b) =~= tokens(a));
    } else {
        let front = b.drop_last();
        assert((a + b).drop_last() =~= a + front);
        assert((a + b).last() == b.last());
        lemma_tokens_concat(a, front);
        assert(tokens(a + b) =~= tokens(a) + tokens(b));
    }
}

proof fn lemma_tokens_of_closers(n: nat)
    ensures
        tokens(closers(n)) == closers(n),
    decreases n,
{
    if n > 0 {
        assert(closers(n).drop_last() =~= closers((n - 1) as nat));
        lemma_tokens_of_closers((n - 1) as nat);
        assert(closers(n) =~= closers((n - 1) as nat).push(TOKEN_CLOSE));
    } else {
        assert(tokens(closers(n)) =~= closers(n));
    }
}

proof fn lemma_depth_of_closed(t: Seq<u8>, n: nat, k: int)
    requires
        0 <= k <= n,
    ensures
        depth(t + closers(n), t.len() + k) == depth(t, t.len() as int) - k,
    decreases k,
{
    let u = t + closers(n);
    if k == 0 {
        assert(prefix_of(t, u));
        lemma_depth_prefix(t, u, t.len() as int);
    } else {
        lemma_depth_of_closed(t, n, k - 1);
        assert(u[t.len() + k - 1] == TOKEN_CLOSE);
    }
}

/// An early `]` cannot be mended: whatever text is appended, validation
/// still answers `UnexpectedToken`.
pub proof fn lemma_unexpected_token_is_final(src: Seq<u8>, more: Seq<u8>)
    requires
        parses_to(src, Err(ParserError::UnexpectedToken)),
    ensures
        parses_to(src + more, Err(ParserError::UnexpectedToken)),
{
    lemma_tokens_concat(src, more);
    assert(prefix_of(tokens(src), tokens(src) + tokens(more)));
    lemma_closes_unopened_prefix(tokens(src), tokens(src + more));
}

/// An incomplete loop can be completed: with as many `]` appended as
/// loops are open, the text validates.
pub proof fn lemma_incomplete_loop_can_be_completed(src: Seq<u8>)
    requires
        parses_to(src, Err(ParserError::IncompleteLoop)),
    ensures
        balanced(tokens(src + closers(depth(tokens(src), tokens(src).len() as int) as nat))),
{
    let t = tokens(src);
    let d = depth(t, t.len() as int) as nat;
    let u = t + closers(d);
    lemma_tokens_concat(src, closers(d));
    lemma_tokens_of_closers(d);
    assert(prefix_of(t, u));
    assert forall|n: int| 0 <= n <= u.len() implies #[trigger] depth(u, n) >= 0 by {
        if n <= t.len() {
            lemma_depth_prefix(t, u, n);
            assert(depth(t, n) >= 0);
        } else {
            lemma_depth_of_closed(t, d, n - t.len());
        }
    }
    lemma_depth_of_closed(t, d, d as int);
}

/// The instructions of `q` with every loop target moved up by `by`.
pub open spec fn shifted(q: Seq<Instruction>, by: int) -> Seq<Instruction> {
    Seq::new(
        q.len(),
        |i: int|
            match q[i] {
                Instruction::LoopStart(j) => Instruction::LoopStart((j + by) as usize),
                Instruction::LoopEnd(j) => Instruction::LoopEnd((j + by) as usize),
                other => other,
            },
    )
}

/// The program that does `pa`, then `pb`.
pub open spec fn joined(pa: Seq<Instruction>, pb: Seq<Instruction>) -> Seq<Instruction> {
    pa + shifted(pb, pa.len() as int)
}

proof fn lemma_depth_after_balanced(ta: Seq<u8>, tb: Seq<u8>, n: int)
    requires
        depth(ta, ta.len() as int) == 0,
        0 <= n <= tb.len(),
    ensures
        depth(ta + tb, ta.len() + n) == depth(tb, n),
    decreases n,
{
    if n == 0 {
        assert(prefix_of(ta, ta + tb));
        lemma_depth_prefix(ta, ta + tb, ta.len() as int);
    } else {
        lemma_depth_after_balanced(ta, tb, n - 1);
        assert((ta + tb)[ta.len() + n - 1] == tb[n - 1]);
    }
}

proof fn lemma_paired_in_front(ta: Seq<u8>, tb: Seq<u8>, open: int, close: int)
    requires
        paired(ta, open, close),
    ensures
        paired(ta + tb, open, close),
{
    let t = ta + tb;
    assert(prefix_of(ta, t));
    lemma_depth_prefix(ta, t, open);
    lemma_depth_prefix(ta, t, close + 1);
    assert forall|k: int| open < k <= close implies #[trigger] depth(t, k) > depth(t, open) by {
        lemma_depth_prefix(ta, t, k);
    }
}

proof fn lemma_paired_behind(ta: Seq<u8>, tb: Seq<u8>, open: int, close: int)
    requires
        depth(ta, ta.len() as int) == 0,
        paired(tb, open, close),
    ensures
        paired(ta + tb, ta.len() + open, ta.len() + close),
{
    let t = ta + tb;
    let by = ta.len() as int;
    lemma_depth_after_balanced(ta, tb, open);
    lemma_depth_after_balanced(ta, tb, close + 1);
    assert(t[by + open] == tb[open]);
    assert(t[by + close] == tb[close]);
    assert forall|k: int| by + open < k <= by + close implies #[trigger] depth(t, k) > depth(
        t,
        by + open,
    ) by {
        lemma_depth_after_balanced(ta, tb, k - by);
        assert(depth(tb, k - by) > depth(tb, open));
    }
}

/// Two texts that validate, written one after the other, validate as the
/// program that does the first, then the second.
pub proof fn lemma_texts_join(
    a: Seq<u8>,
    b: Seq<u8>,
    pa: Seq<Instruction>,
    pb: Seq<Instruction>,
)
    requires
        parses_to(a, Ok(pa)),
        parses_to(b, Ok(pb)),
        pa.len() + pb.len() <= usize::MAX,
    ensures
        parses_to(a + b, Ok(joined(pa, pb))),
{
    let ta = tokens(a);
    let tb = tokens(b);
    let t = ta + tb;
    let p = joined(pa, pb);
    let by = ta.len() as int;
    lemma_tokens_concat(a, b);
    assert(prefix_of(ta, t));
    assert forall|n: int| 0 <= n <= t.len() implies #[trigger] depth(t, n) >= 0 by {
        if n <= by {
            lemma_depth_prefix(ta, t, n);
            assert(depth(ta, n) >= 0);
        } else {
            lemma_depth_after_balanced(ta, tb, n - by);
            assert(depth(tb, n - by) >= 0);
        }
    }
    lemma_depth_after_balanced(ta, tb, tb.len() as int);
    assert forall|i: int| 0 <= i < t.len() implies #[trigger] resolved_at(t, p, i) by {
        if i < by {
            assert(resolved_at(ta, pa, i));
            assert(t[i] == ta[i] && p[i] == pa[i]);
            match pa[i] {
                Instruction::LoopStart(j) => {
                    if ta[i] == TOKEN_OPEN {
                        lemma_paired_in_front(ta, tb, i, j as int);
                    }
                },
                Instruction::LoopEnd(j) => {
                    if ta[i] == TOKEN_CLOSE {
                        lemma_paired_in_front(ta, tb, j as int, i);
                    }
                },
                _ => {},
            }
        } else {
            let k = i - by;
            assert(resolved_at(tb, pb, k));
            assert(t[i] == tb[k] && p[i] == shifted(pb, by)[k]);
            match pb[k] {
                Instruction::LoopStart(j) => {
                    if tb[k] == TOKEN_OPEN {
                        lemma_paired_behind(ta, tb, k, j as int);
                    }
                },
                Instruction::LoopEnd(j) => {
                    if tb[k] == TOKEN_CLOSE {
                        lemma_paired_behind(ta, tb, j as int, k);
                    }
                },
                _ => {},
            }
        }
    }
}

/// Every source text has an outcome: its delimiters balance, or a `]` comes
/// too early, or a `[` is left open.
pub proof fn lemma_validation_is_total(src: Seq<u8>)
    ensures
        balanced(tokens(src)) || closes_unopened(tokens(src)) || depth(
            tokens(src),
            tokens(src).len() as int,
        ) > 0,
{
    let t = tokens(src);
    if !closes_unopened(t) {
        assert(depth(t, t.len() as int) >= 0);
    }
}

fn instruction_for(b: u8) -> (r: Instruction)
    requires
        is_token(b),
        b != TOKEN_OPEN,
        b != TOKEN_CLOSE,
    ensures
        r == simple_instruction(b),
{
    if b == TOKEN_RIGHT {
        Instruction::MoveRight
    } else if b == TOKEN_LEFT {
        Instruction::MoveLeft
    } else if b == TOKEN_PLUS {
        Instruction::Increment
    } else if b == TOKEN_MINUS {
        Instruction::Decrement
    } else if b == TOKEN_DOT {
        Instruction::Output
    } else {
        Instruction::Input
    }
}

/// Validates source bytes in one scan from left to right, keeping a stack
/// of the `[` that are still open and linking each `]` with the innermost.
pub fn parse_bytes(source: &[u8]) -> (r: Result<Program, ParserError>)
    ensures
        parses_to(source@, outcome(r)),
{
    let mut instructions: Vec<Instruction> = Vec::new();
    let mut stack: Vec<usize> = Vec::new();
    let mut pos: usize = 0;
    assert(source@.take(0) =~= Seq::<u8>::empty());
    while pos < source.len()
        invariant
            pos <= source.len(),
            scan_state(tokens(source@.take(pos as int)), instructions@, stack@),
        decreases source.len() - pos,
    {
        let b = source[pos];
        let ghost t = tokens(source@.take(pos as int));
        proof {
            lemma_tokens_step(source@, pos as int);
            lemma_tokens_prefix(source@, pos as int);
            lemma_tokens_prefix(source@, pos as int + 1);
            assert(tokens(source@).len() <= source@.len()) by {
                lemma_tokens_len(source@);
            }
        }
        if b == TOKEN_OPEN {
            proof {
                lemma_scan_open(t, instructions@, stack@, 0);
            }
            stack.push(instructions.len());
            instructions.push(Instruction::LoopStart(0));
        } else if b == TOKEN_CLOSE {
            proof {
                if stack@.len() > 0 {
                    lemma_scan_close(t, instructions@, stack@);
                    assert(stack@.drop_last() =~= stack@.subrange(0, stack@.len() - 1));
                }
            }
            match stack.pop() {
                None => {
                    proof {
                        lemma_depth_push(t, TOKEN_CLOSE);
                        let u = t.push(TOKEN_CLOSE);
                        assert(depth(u, u.len() as int) < 0);
                        lemma_closes_unopened_prefix(u, tokens(source@));
                    }
                    return Err(ParserError::UnexpectedToken);
                },
                Some(open) => {
                    let close = instructions.len();
                    instructions.set(open, Instruction::LoopStart(close));
                    instructions.push(Instruction::LoopEnd(open));
                },
            }
        } else if is_instruction_byte(b) {
            proof {
                lemma_scan_simple(t, instructions@, stack@, b);
            }
            instructions.push(instruction_for(b));
        }
        pos += 1;
    }
    proof {
        assert(source@.take(pos as int) =~= source@);
        lemma_scan_done(tokens(source@), instructions@, stack@);
    }
    if stack.len() > 0 {
        Err(ParserError::IncompleteLoop)
    } else {
        proof {
            lemma_resolved_is_linked(tokens(source@), instructions@);
        }
        Ok(Program { instructions })
    }
}

/// Validates a source text; see `parse_bytes`.
pub fn parse(source: &str) -> (r: Result<Program, ParserError>)
    ensures
        parses_to(source.spec_bytes(), outcome(r)),
{
    parse_bytes(source.as_bytes())
}

proof fn lemma_tokens_len(src: Seq<u8>)
    ensures
        tokens(src).len() <= src.len(),
    decreases src.len(),
{
    if src.len() > 0 {
        lemma_tokens_len(src.drop_last());
    }
}

} // verus!
