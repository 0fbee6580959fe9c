//! The stack evaluator. Operands carry opaque 32-bit patterns; the evaluator
//! owns the operand stack and all of the control flow, and hands each
//! operator application (two popped operands and the operator) back to its
//! caller, who pushes the computed result. Every error — an operator with
//! fewer than two stacked values, or a final stack that does not hold
//! exactly one value — is decided here.

use vstd::prelude::*;

use crate::token::EvalError;
use crate::token::Op;
use crate::token::Token;

verus! {

pub open spec fn is_operand(t: Token) -> bool {
    t matches Token::Operand(_)
}

/// The bits an operand token carries (meaningful when `is_operand`).
pub open spec fn operand_bits(t: Token) -> u32 {
    match t {
        Token::Operand(b) => b,
        Token::Operator(_) => 0,
    }
}

/// The operator a token carries (meaningful when `!is_operand`).
pub open spec fn tok_op(t: Token) -> Op {
    match t {
        Token::Operator(op) => op,
        Token::Operand(_) => Op::Addition,
    }
}

/// The bit patterns of a run of operand tokens, in order.
pub open spec fn bits_of(toks: Seq<Token>) -> Seq<u32> {
    toks.map_values(|t: Token| operand_bits(t))
}

/// The stack height after processing `toks`, counting each operand as a push
/// and each operator as two pops and a push: operands minus operators.
pub open spec fn depth_after(toks: Seq<Token>) -> int
    decreases toks.len(),
{
    if toks.len() == 0 {
        0
    } else {
        depth_after(toks.drop_last()) + (if is_operand(toks.last()) {
            1int
        } else {
            -1int
        })
    }
}

/// How many operand tokens a sequence holds.
pub open spec fn num_operands(toks: Seq<Token>) -> int
    decreases toks.len(),
{
    if toks.len() == 0 {
        0
    } else {
        num_operands(toks.drop_last()) + (if is_operand(toks.last()) {
            1int
        } else {
            0int
        })
    }
}

/// How many operator tokens a sequence holds.
pub open spec fn num_operators(toks: Seq<Token>) -> int
    decreases toks.len(),
{
    if toks.len() == 0 {
        0
    } else {
        num_operators(toks.drop_last()) + (if is_operand(toks.last()) {
            0int
        } else {
            1int
        })
    }
}

/// The stack height a sequence dictates is its operand count minus its
/// operator count; in particular a sequence of N operands and N-1 operators
/// dictates a final height of exactly one.
pub proof fn lemma_depth_counts(toks: Seq<Token>)
    ensures
        depth_after(toks) == num_operands(toks) - num_operators(toks),
    decreases toks.len(),
{
    if toks.len() > 0 {
        lemma_depth_counts(toks.drop_last());
    }
}

/// A well-formed postfix token sequence: one more operand than operators in
/// all, and at least two values on the stack whenever an operator arrives.
pub open spec fn valid_postfix(toks: Seq<Token>) -> bool {
    depth_after(toks) == 1 && forall|i: int|
        0 <= i < toks.len() && !is_operand(#[trigger] toks[i]) ==> depth_after(toks.take(i)) >= 2
}

/// Some operator arrives while fewer than two values are stacked.
pub open spec fn has_bad_operator(toks: Seq<Token>) -> bool {
    exists|i: int|
        0 <= i < toks.len() && !is_operand(#[trigger] toks[i]) && depth_after(toks.take(i)) < 2
}

/// The first position at or after `i` holding an operator, or the end.
pub open spec fn scan_end(toks: Seq<Token>, i: int) -> int
    decreases toks.len() - i,
{
    if i < 0 || i >= toks.len() {
        toks.len() as int
    } else if is_operand(toks[i]) {
        scan_end(toks, i + 1)
    } else {
        i
    }
}

pub proof fn lemma_scan_end(toks: Seq<Token>, i: int)
    requires
        0 <= i <= toks.len(),
    ensures
        i <= scan_end(toks, i) <= toks.len(),
        forall|k: int| i <= k < scan_end(toks, i) ==> is_operand(#[trigger] toks[k]),
        scan_end(toks, i) < toks.len() ==> !is_operand(toks[scan_end(toks, i)]),
    decreases toks.len() - i,
{
    if i < toks.len() && is_operand(toks[i]) {
        lemma_scan_end(toks, i + 1);
    }
}

/// Consuming one more token moves the depth by one.
pub proof fn lemma_depth_step(toks: Seq<Token>, i: int)
    requires
        0 <= i < toks.len(),
    ensures
        depth_after(toks.take(i + 1)) == depth_after(toks.take(i)) + (if is_operand(toks[i]) {
            1int
        } else {
            -1int
        }),
{
    assert(toks.take(i + 1).drop_last() =~= toks.take(i));
    assert(toks.take(i + 1).last() == toks[i]);
}

/// Consuming a run of operands raises the depth by its length.
pub proof fn lemma_depth_operand_run(toks: Seq<Token>, i: int, j: int)
    requires
        0 <= i <= j <= toks.len(),
        forall|k: int| i <= k < j ==> is_operand(#[trigger] toks[k]),
    ensures
        depth_after(toks.take(j)) == depth_after(toks.take(i)) + (j - i),
    decreases j - i,
{
    if i < j {
        lemma_depth_operand_run(toks, i, j - 1);
        lemma_depth_step(toks, j - 1);
    }
}

/// What one `advance` call reports, given the tokens, the current position
/// and the current stack: all operands up to the next operator are pushed
/// first, then either the expression ends (one stacked value is the result;
/// any other count is unbalanced) or the operator needs its two topmost
/// operands applied — if they are there.
pub open spec fn advance_outcome(t: Seq<Token>, p: int, st: Seq<u32>) -> StepOutcome {
    let j = scan_end(t, p);
    let s = st + bits_of(t.subrange(p, j));
    if j == t.len() {
        if s.len() == 1 {
            (StepOutcome::Finished { result: s[0] })
        } else {
            (StepOutcome::Failed { error: EvalError::UnbalancedExpression })
        }
    } else if s.len() < 2 {
        (StepOutcome::Failed { error: EvalError::InsufficientOperands })
    } else {
        (StepOutcome::Apply { op: tok_op(t[j]), lhs: s[s.len() - 2], rhs: s[s.len() - 1] })
    }
}

/// The position after one `advance` call: past the consumed operand run,
/// and past the operator as well once its application is under way.
pub open spec fn advance_pos(t: Seq<Token>, p: int, st: Seq<u32>) -> int {
    let j = scan_end(t, p);
    if advance_outcome(t, p, st) matches StepOutcome::Apply { .. } {
        j + 1
    } else {
        j
    }
}

/// The stack after one `advance` call: the consumed operands pushed, and the
/// operator's two arguments popped once its application is under way.
pub open spec fn advance_stack(t: Seq<Token>, p: int, st: Seq<u32>) -> Seq<u32> {
    let j = scan_end(t, p);
    let s = st + bits_of(t.subrange(p, j));
    if advance_outcome(t, p, st) matches StepOutcome::Apply { .. } {
        s.take(s.len() - 2)
    } else {
        s
    }
}

/// Checks, without performing any arithmetic, whether a token sequence has
/// the shape evaluation needs, reporting exactly the error evaluation would
/// report: `InsufficientOperands` as soon as an operator outruns the stack,
/// else `UnbalancedExpression` unless exactly one value would remain.
pub fn check_shape(tokens: &Vec<Token>) -> (r: Result<(), EvalError>)
    ensures
        (r matches Ok(_)) <==> valid_postfix(tokens@),
        r == Err::<(), EvalError>(EvalError::InsufficientOperands) <==> has_bad_operator(
            tokens@,
        ),
        r == Err::<(), EvalError>(EvalError::UnbalancedExpression) <==> (!has_bad_operator(
            tokens@,
        ) && depth_after(tokens@) != 1),
{
    let ghost t = tokens@;
    let n: usize = tokens.len();
    let mut depth: usize = 0;
    let mut i: usize = 0;
    while i < n
        invariant
            t == tokens@,
            n == t.len(),
            i <= n,
            depth <= i,
            depth as int == depth_after(t.take(i as int)),
            forall|k: int| 0 <= k < i && !is_operand(#[trigger] t[k]) ==> depth_after(t.take(k))
                >= 2,
        decreases n - i,
    {
        let tk = tokens[i];
        proof {
            lemma_depth_step(t, i as int);
        }
        match tk {
            Token::Operand(_) => {
                depth = depth + 1;
            },
            Token::Operator(_) => {
                if depth < 2 {
                    assert(has_bad_operator(t));
                    return Err(EvalError::InsufficientOperands);
                }
                depth = depth - 1;
            },
        }
        i = i + 1;
    }
    proof {
        assert(t.take(n as int) =~= t);
    }
    if depth != 1 {
        return Err(EvalError::UnbalancedExpression);
    }
    Ok(())
}

/// Law: a well-formed postfix sequence — one more operand than operators,
/// and two stacked values in front of every operator — never fails. From
/// any machine state consistent with its consumed prefix (as every state
/// the machine reaches is, by `wf`), the next report is an application or
/// the final result, never `Failed`.
pub proof fn lemma_valid_postfix_never_fails(t: Seq<Token>, p: int, st: Seq<u32>)
    requires
        valid_postfix(t),
        0 <= p <= t.len(),
        st.len() == depth_after(t.take(p)),
    ensures
        !(advance_outcome(t, p, st) matches StepOutcome::Failed { .. }),
{
    let j = scan_end(t, p);
    lemma_scan_end(t, p);
    lemma_depth_operand_run(t, p, j);
    let s = st + bits_of(t.subrange(p, j));
    assert(s.len() == depth_after(t.take(j)));
    if j == t.len() {
        assert(t.take(j) =~= t);
    } else {
        assert(!is_operand(t[j]));
    }
}

/// Law: with no tokens at all, the stack ends empty rather than holding one
/// value, so evaluation reports an unbalanced expression.
pub proof fn lemma_no_tokens_unbalanced()
    ensures
        !valid_postfix(Seq::<Token>::empty()),
        advance_outcome(Seq::<Token>::empty(), 0, Seq::<u32>::empty()) == (StepOutcome::Failed {
            error: EvalError::UnbalancedExpression,
        }),
{
    let t = Seq::<Token>::empty();
    assert(scan_end(t, 0) == 0);
    assert(Seq::<u32>::empty() + bits_of(t.subrange(0, 0)) =~= Seq::<u32>::empty());
}

/// What the evaluator asks of its caller next.
#[derive(Clone, PartialEq, Eq, Debug)]
pub enum StepOutcome {
    /// Apply `op` to the two topmost stacked values (`lhs` was pushed before
    /// `rhs`) and hand the result to `provide`.
    Apply { op: Op, lhs: u32, rhs: u32 },
    /// All tokens are consumed and exactly one value remained.
    Finished { result: u32 },
    /// Evaluation failed; the machine will keep reporting the same failure.
    Failed { error: EvalError },
}

/// The evaluation machine: the token sequence, a cursor, and the operand
/// stack. `advance` runs until an operator needs arithmetic, the caller
/// computes it and answers through `provide`, and the loop repeats until
/// `advance` reports the result or an error.
pub struct Evaluator {
    tokens: Vec<Token>,
    pos: usize,
    stack: Vec<u32>,
    pending: bool,
}

impl Evaluator {
    /// The tokens under evaluation.
    pub closed spec fn toks(&self) -> Seq<Token> {
        self.tokens@
    }

    /// How many tokens are consumed so far.
    pub closed spec fn cursor(&self) -> int {
        self.pos as int
    }

    /// The operand stack, bottom first.
    pub closed spec fn stack_model(&self) -> Seq<u32> {
        self.stack@
    }

    /// Whether an operator application is in the caller's hands.
    pub closed spec fn awaiting(&self) -> bool {
        self.pending
    }

    /// The machine's invariant: the cursor is inside the tokens, and the
    /// stack is exactly as tall as the consumed prefix dictates — operands
    /// minus operators, one less while an application is outstanding.
    pub open spec fn wf(&self) -> bool {
        &&& 0 <= self.cursor() <= self.toks().len()
        &&& self.stack_model().len() == depth_after(self.toks().take(self.cursor())) - (
        if self.awaiting() {
            1int
        } else {
            0int
        })
    }

    /// Starts evaluating `tokens` with an empty stack.
    pub fn new(tokens: Vec<Token>) -> (r: Evaluator)
        ensures
            r.wf(),
            r.toks() == tokens@,
            r.cursor() == 0,
            r.stack_model() == Seq::<u32>::empty(),
            !r.awaiting(),
    {
        let r = Evaluator { tokens, pos: 0, stack: Vec::new(), pending: false };
        assert(r.toks().take(0) =~= Seq::<Token>::empty());
        r
    }

    /// Pushes operands until the next operator, then reports what comes
    /// next: the operator application the caller owes, the final result, or
    /// why evaluation failed. On failure nothing further is consumed.
    #[verifier::loop_isolation(false)]
    pub fn advance(&mut self) -> (r: StepOutcome)
        requires
            old(self).wf(),
            !old(self).awaiting(),
        ensures
            final(self).wf(),
            final(self).toks() == old(self).toks(),
            r == advance_outcome(old(self).toks(), old(self).cursor(), old(self).stack_model()),
            final(self).cursor() == advance_pos(
                old(self).toks(),
                old(self).cursor(),
                old(self).stack_model(),
            ),
            final(self).stack_model() == advance_stack(
                old(self).toks(),
                old(self).cursor(),
                old(self).stack_model(),
            ),
            final(self).awaiting() == (r matches StepOutcome::Apply { .. }),
    {
        let ghost t = self.tokens@;
        let ghost p0 = self.pos as int;
        let ghost st0 = self.stack@;
        loop
            invariant
                self.tokens@ == t,
                self.pending == false,
                0 <= p0 <= self.pos as int <= t.len(),
                scan_end(t, p0) == scan_end(t, self.pos as int),
                self.stack@ == st0 + bits_of(t.subrange(p0, self.pos as int)),
            decreases t.len() - self.pos,
        {
            if self.pos == self.tokens.len() {
                proof {
                    assert(scan_end(t, p0) == t.len());
                    lemma_scan_end(t, p0);
                    lemma_depth_operand_run(t, p0, t.len() as int);
                    assert(t.take(t.len() as int) =~= t);
                }
                if self.stack.len() == 1 {
                    let result = self.stack[0];
                    return StepOutcome::Finished { result };
                }
                return StepOutcome::Failed { error: EvalError::UnbalancedExpression };
            }
            let tk = self.tokens[self.pos];
            match tk {
                Token::Operand(b) => {
                    self.stack.push(b);
                    self.pos = self.pos + 1;
                    proof {
                        assert(t.subrange(p0, self.pos as int).drop_last() =~= t.subrange(
                            p0,
                            self.pos as int - 1,
                        ));
                        assert(bits_of(t.subrange(p0, self.pos as int)) =~= bits_of(
                            t.subrange(p0, self.pos as int - 1),
                        ).push(b));
                    }
                },
                Token::Operator(op) => {
                    let ghost j = self.pos as int;
                    proof {
                        assert(scan_end(t, j) == j);
                        lemma_scan_end(t, p0);
                        lemma_depth_operand_run(t, p0, j);
                    }
                    if self.stack.len() < 2 {
                        return StepOutcome::Failed { error: EvalError::InsufficientOperands };
                    }
                    let rhs = self.stack.pop().unwrap();
                    let lhs = self.stack.pop().unwrap();
                    self.pos = self.pos + 1;
                    self.pending = true;
                    proof {
                        let s = st0 + bits_of(t.subrange(p0, j));
                        assert(self.stack@ =~= s.take(s.len() - 2));
                        lemma_depth_step(t, j);
                    }
                    return StepOutcome::Apply { op, lhs, rhs };
                },
            }
        }
    }

    /// Accepts the result of the outstanding operator application and pushes
    /// it, completing the operator's pop-pop-push.
    pub fn provide(&mut self, bits: u32)
        requires
            old(self).wf(),
            old(self).awaiting(),
        ensures
            final(self).wf(),
            final(self).toks() == old(self).toks(),
            final(self).cursor() == old(self).cursor(),
            final(self).stack_model() == old(self).stack_model().push(bits),
            !final(self).awaiting(),
    {
        self.stack.push(bits);
        self.pending = false;
    }
}

} // verus!
