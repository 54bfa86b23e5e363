use vstd::prelude::*;

verus! {

/// One token of an expression in reverse Polish notation. An unmatched
/// opening parenthesis survives conversion as a token of its own.
#[derive(Debug, PartialEq)]
pub enum Token {
    Number(i32),
    Operator(char),
    OpenParen,
}

/// True of the five operator characters the evaluator knows.
pub open spec fn is_known_operator(c: char) -> bool {
    c == '-' || c == '+' || c == '*' || c == '/' || c == '^'
}

/// The binding strength of an operator; larger binds tighter.
pub open spec fn spec_precedence(c: char) -> int {
    if c == '-' {
        1
    } else if c == '+' {
        2
    } else if c == '*' {
        3
    } else if c == '/' {
        4
    } else {
        5
    }
}

/// True of a decimal digit character.
pub open spec fn is_digit(c: char) -> bool {
    48 <= c as u32 <= 57
}

/// True of the whitespace characters the tokenizer skips.
pub open spec fn is_space(c: char) -> bool {
    c == ' ' || c == '\t' || c == '\n' || c == '\r'
}

/// The running state of the conversion: the holding stack, the output so
/// far, and a number being accumulated digit by digit.
pub type RpnState = (Seq<Token>, Seq<Token>, int, bool);

/// Moves operators of precedence at least that of `c` from the holding stack
/// to the output.
pub open spec fn spec_pop_ops(holding: Seq<Token>, output: Seq<Token>, c: char) -> (
    Seq<Token>,
    Seq<Token>,
)
    decreases holding.len(),
{
    if holding.len() == 0 {
        (holding, output)
    } else {
        match holding.last() {
            Token::Operator(op) => {
                if spec_precedence(c) > spec_precedence(op) {
                    (holding, output)
                } else {
                    spec_pop_ops(holding.drop_last(), output.push(Token::Operator(op)), c)
                }
            },
            _ => (holding, output),
        }
    }
}

/// Moves everything above the nearest opening parenthesis to the output and
/// drops that parenthesis.
pub open spec fn spec_pop_paren(holding: Seq<Token>, output: Seq<Token>) -> (Seq<Token>, Seq<Token>)
    decreases holding.len(),
{
    if holding.len() == 0 {
        (holding, output)
    } else if holding.last() is OpenParen {
        (holding.drop_last(), output)
    } else {
        spec_pop_paren(holding.drop_last(), output.push(holding.last()))
    }
}

/// The number token for an accumulated value: the accumulator wraps modulo
/// the machine word and is reinterpreted as the signed numeric type the
/// tokens carry.
pub open spec fn number_token(number: int) -> Token {
    Token::Number((number as u32) as i32)
}

/// Appends the accumulated number to the output when one is being built.
pub open spec fn spec_flush(st: RpnState) -> RpnState {
    if st.3 {
        (st.0, st.1.push(number_token(st.2)), 0, false)
    } else {
        st
    }
}

/// One character of the conversion; `None` when the character is not part of
/// the accepted alphabet or a number grows past the accumulator.
pub open spec fn spec_rpn_step(st: RpnState, c: char) -> Option<RpnState> {
    if is_digit(c) {
        let grown = st.2 * 10 + (c as u32 - 48);
        if grown > 0xffff_ffff {
            None
        } else {
            Some((st.0, st.1, grown, true))
        }
    } else {
        let f = spec_flush(st);
        if is_space(c) {
            Some(f)
        } else if c == '(' {
            Some((f.0.push(Token::OpenParen), f.1, f.2, f.3))
        } else if c == ')' {
            let (h, o) = spec_pop_paren(f.0, f.1);
            Some((h, o, f.2, f.3))
        } else if is_known_operator(c) {
            let (h, o) = spec_pop_ops(f.0, f.1, c);
            Some((h.push(Token::Operator(c)), o, f.2, f.3))
        } else {
            None
        }
    }
}

/// The conversion state after the first `i` characters.
pub open spec fn spec_rpn_fold(s: Seq<char>, i: int) -> Option<RpnState>
    decreases i,
{
    if i <= 0 {
        Some((Seq::empty(), Seq::empty(), 0, false))
    } else {
        match spec_rpn_fold(s, i - 1) {
            Option::None => None,
            Option::Some(st) => spec_rpn_step(st, s[i - 1]),
        }
    }
}

/// The reverse-Polish form of the input: the output after all characters,
/// the pending number, and the drained holding stack; `None` when the input
/// holds a character the tokenizer does not accept or a number overflows.
pub open spec fn rpn_tokens(s: Seq<char>) -> Option<Seq<Token>> {
    match spec_rpn_fold(s, s.len() as int) {
        Option::None => None,
        Option::Some(st) => {
            let f = spec_flush(st);
            Some(f.1 + f.0.reverse())
        },
    }
}

/// Every operator on a reachable holding stack is known.
spec fn holding_ops_known(holding: Seq<Token>) -> bool {
    forall|j: int|
        0 <= j < holding.len() ==> match #[trigger] holding[j] {
            Token::Operator(op) => is_known_operator(op),
            Token::Number(_) => false,
            Token::OpenParen => true,
        }
}

/// Returns the binding strength of one of the five known operators.
fn get_precedence(operator: char) -> (r: i32)
    requires
        is_known_operator(operator),
    ensures
        r == spec_precedence(operator),
{
    match operator {
        '-' => 1,
        '+' => 2,
        '*' => 3,
        '/' => 4,
        _ => 5,
    }
}

/// Converts an infix expression into reverse Polish notation by the
/// shunting-yard procedure: numbers pass through, operators wait on a stack
/// until one of no higher precedence arrives, and parentheses fence the
/// stack.
pub fn convert_to_rpn(input: &str) -> (r: Vec<Token>)
    requires
        rpn_tokens(input@) is Some,
    ensures
        Some(r@) == rpn_tokens(input@),
{
    let s = input;
    let n = s.unicode_len();
    let mut holding_stack: Vec<Token> = Vec::new();
    let mut output_stack: Vec<Token> = Vec::new();
    let mut number: u32 = 0;
    let mut is_number = false;
    let mut i: usize = 0;
    proof {
        lemma_fold_prefix_some(input@, input@.len() as int, 0);
    }
    while i < n
        invariant
            i <= n,
            n == input@.len(),
            s@ == input@,
            rpn_tokens(input@) is Some,
            spec_rpn_fold(input@, i as int) == Some(
                (holding_stack@, output_stack@, number as int, is_number),
            ),
            holding_ops_known(holding_stack@),
        decreases n - i,
    {
        proof {
            lemma_fold_prefix_some(input@, input@.len() as int, i + 1);
        }
        let c = s.get_char(i);
        let code = c as u32;
        let ghost st: RpnState = (holding_stack@, output_stack@, number as int, is_number);
        if 48 <= code && code <= 57 {
            proof {
                assert(spec_rpn_step(st, c) is Some);
                assert((number as int) * 10 + (code - 48) <= 0xffff_ffff);
            }
            number = number * 10 + (code - 48);
            is_number = true;
        } else {
            if is_number {
                proof {
                    assert(number_token(number as int) == Token::Number(
                        #[verifier::truncate] (number as i32),
                    ));
                }
                output_stack.push(Token::Number(#[verifier::truncate] (number as i32)));
                number = 0;
                is_number = false;
            }
            let ghost f = spec_flush(st);
            proof {
                assert(f == (holding_stack@, output_stack@, number as int, is_number));
            }
            if c == ' ' || c == '\t' || c == '\n' || c == '\r' {
            } else if c == '(' {
                holding_stack.push(Token::OpenParen);
            } else if c == ')' {
                while holding_stack.len() > 0 && !matches!(
                    holding_stack[holding_stack.len() - 1],
                    Token::OpenParen,
                )
                    invariant
                        holding_ops_known(holding_stack@),
                        spec_pop_paren(f.0, f.1) == spec_pop_paren(holding_stack@, output_stack@),
                    decreases holding_stack@.len(),
                {
                    let t = holding_stack.pop().unwrap();
                    output_stack.push(t);
                }
                if holding_stack.len() > 0 {
                    holding_stack.pop();
                } else {
                    proof {
                        assert(spec_pop_paren(holding_stack@, output_stack@) == (
                            holding_stack@,
                            output_stack@,
                        ));
                    }
                }
            } else {
                proof {
                    assert(spec_rpn_step(st, c) is Some);
                    assert(is_known_operator(c));
                }
                while holding_stack.len() > 0 && matches!(
                    holding_stack[holding_stack.len() - 1],
                    Token::Operator(_),
                )
                    invariant_except_break
                        is_known_operator(c),
                        holding_ops_known(holding_stack@),
                        spec_pop_ops(f.0, f.1, c) == spec_pop_ops(holding_stack@, output_stack@, c),
                    ensures
                        is_known_operator(c),
                        holding_ops_known(holding_stack@),
                        spec_pop_ops(f.0, f.1, c) == (holding_stack@, output_stack@),
                    decreases holding_stack@.len(),
                {
                    let top = holding_stack.len() - 1;
                    let top_op = match &holding_stack[top] {
                        Token::Operator(op) => *op,
                        _ => ' ',
                    };
                    if get_precedence(c) > get_precedence(top_op) {
                        break ;
                    }
                    let t = holding_stack.pop().unwrap();
                    output_stack.push(t);
                }
                holding_stack.push(Token::Operator(c));
            }
        }
        i += 1;
    }
    if is_number {
        proof {
            assert(number_token(number as int) == Token::Number(
                #[verifier::truncate] (number as i32),
            ));
        }
        output_stack.push(Token::Number(#[verifier::truncate] (number as i32)));
    }
    while holding_stack.len() > 0
        invariant
            rpn_tokens(input@) matches Some(toks) && toks == output_stack@
                + holding_stack@.reverse(),
        decreases holding_stack@.len(),
    {
        let t = holding_stack.pop().unwrap();
        let ghost hpre = holding_stack@.push(t);
        output_stack.push(t);
        proof {
            assert(hpre.reverse() =~= seq![t] + holding_stack@.reverse());
            assert((output_stack@ + holding_stack@.reverse()).len() == output_stack@.len()
                + holding_stack@.len());
            assert(output_stack@.drop_last() + hpre.reverse() =~= output_stack@
                + holding_stack@.reverse());
        }
    }
    proof {
        assert(holding_stack@.reverse() =~= Seq::<Token>::empty());
        assert(output_stack@ + holding_stack@.reverse() =~= output_stack@);
    }
    output_stack
}

/// Mathematical exponentiation.
pub open spec fn pow_int(base: int, e: nat) -> int
    decreases e,
{
    if e == 0 {
        1
    } else {
        base * pow_int(base, (e - 1) as nat)
    }
}

/// Division rounding towards zero, as machine division does.
pub open spec fn div_trunc(l: int, r: int) -> int {
    if l >= 0 && r > 0 {
        l / r
    } else if l < 0 && r < 0 {
        (-l) / (-r)
    } else if l < 0 {
        -((-l) / r)
    } else {
        -(l / (-r))
    }
}

/// The value when it fits the signed machine word, `None` otherwise.
pub open spec fn in_i32_range(v: int) -> Option<int> {
    if -0x8000_0000 <= v <= 0x7fff_ffff {
        Some(v)
    } else {
        None
    }
}

/// One operator applied to two operands; `None` when machine evaluation
/// would fail: an out-of-range result, division by zero, or a negative
/// exponent.
pub open spec fn spec_apply(op: char, l: int, r: int) -> Option<int> {
    if op == '-' {
        in_i32_range(l - r)
    } else if op == '+' {
        in_i32_range(l + r)
    } else if op == '*' {
        in_i32_range(l * r)
    } else if op == '/' {
        if r == 0 {
            None
        } else {
            in_i32_range(div_trunc(l, r))
        }
    } else {
        if r < 0 {
            None
        } else {
            in_i32_range(pow_int(l, r as nat))
        }
    }
}

/// One token applied to the evaluation stack; `None` when operands are
/// missing, a parenthesis was left over, or the operator fails.
pub open spec fn spec_eval_step(stack: Seq<int>, t: Token) -> Option<Seq<int>> {
    match t {
        Token::Number(num) => Some(stack.push(num as int)),
        Token::Operator(op) => {
            if stack.len() < 2 {
                None
            } else {
                match spec_apply(op, stack[stack.len() - 2], stack.last()) {
                    Option::None => None,
                    Option::Some(v) => Some(stack.drop_last().drop_last().push(v)),
                }
            }
        },
        Token::OpenParen => None,
    }
}

/// The evaluation stack after the first `i` tokens.
pub open spec fn spec_eval_fold(toks: Seq<Token>, i: int) -> Option<Seq<int>>
    decreases i,
{
    if i <= 0 {
        Some(Seq::empty())
    } else {
        match spec_eval_fold(toks, i - 1) {
            Option::None => None,
            Option::Some(stack) => spec_eval_step(stack, toks[i - 1]),
        }
    }
}

/// What a reverse-Polish token list evaluates to: the top of the final
/// stack; `None` when some step fails or nothing is left on the stack.
pub open spec fn rpn_value(toks: Seq<Token>) -> Option<int> {
    match spec_eval_fold(toks, toks.len() as int) {
        Option::None => None,
        Option::Some(stack) => {
            if stack.len() == 0 {
                None
            } else {
                Some(stack.last())
            }
        },
    }
}

/// What an infix expression evaluates to, by conversion to reverse Polish
/// notation and machine evaluation; `None` when either stage fails.
pub open spec fn eval_expr(s: Seq<char>) -> Option<int> {
    match rpn_tokens(s) {
        Option::None => None,
        Option::Some(toks) => rpn_value(toks),
    }
}

/// Every partial power is small whenever the full power fits the machine
/// word.
proof fn lemma_pow_partial_bound(b: int, k: nat, e: nat)
    requires
        k <= e,
        -0x8000_0000 <= pow_int(b, e) <= 0x7fff_ffff,
    ensures
        -0x8000_0000 <= pow_int(b, k) <= 0x8000_0000,
    decreases e - k,
{
    if -1 <= b <= 1 {
        lemma_pow_small(b, k);
    } else if k < e {
        lemma_pow_partial_bound(b, (k + 1) as nat, e);
        let p = pow_int(b, k);
        assert(pow_int(b, (k + 1) as nat) == b * p);
        assert(-0x8000_0000 <= p <= 0x8000_0000) by (nonlinear_arith)
            requires
                (b <= -2 || b >= 2),
                -0x8000_0000 <= b * p <= 0x8000_0000,
        ;
    }
}

/// Powers of -1, 0 and 1 stay between -1 and 1.
proof fn lemma_pow_small(b: int, k: nat)
    requires
        -1 <= b <= 1,
    ensures
        -1 <= pow_int(b, k) <= 1,
    decreases k,
{
    if k > 0 {
        lemma_pow_small(b, (k - 1) as nat);
        let p = pow_int(b, (k - 1) as nat);
        assert(-1 <= b * p <= 1) by (nonlinear_arith)
            requires -1 <= b <= 1 && -1 <= p <= 1;
    }
}

/// Machine division truncating towards zero.
fn div_trunc_i32(l: i32, r: i32) -> (q: i32)
    requires
        r != 0,
        in_i32_range(div_trunc(l as int, r as int)) is Some,
    ensures
        q as int == div_trunc(l as int, r as int),
{
    let neg = (l < 0) != (r < 0);
    let la: u64 = if l < 0 {
        (-(l as i64)) as u64
    } else {
        l as u64
    };
    let ra: u64 = if r < 0 {
        (-(r as i64)) as u64
    } else {
        r as u64
    };
    let qa = la / ra;
    proof {
        assert(la == if l >= 0 { l as int } else { -(l as int) });
        assert(ra == if r >= 0 { r as int } else { -(r as int) });
        assert(qa <= la) by (nonlinear_arith)
            requires ra >= 1 && qa == la as int / ra as int && la >= 0;
    }
    if neg {
        (-(qa as i64)) as i32
    } else {
        qa as i32
    }
}

/// Machine exponentiation by repeated multiplication.
fn pow_by_mul(base: i32, e: i32) -> (p: i32)
    requires
        e >= 0,
        in_i32_range(pow_int(base as int, e as nat)) is Some,
    ensures
        p as int == pow_int(base as int, e as nat),
{
    let mut acc: i64 = 1;
    let mut k: i32 = 0;
    while k < e
        invariant
            0 <= k <= e,
            in_i32_range(pow_int(base as int, e as nat)) is Some,
            acc == pow_int(base as int, k as nat),
            -0x8000_0000 <= acc <= 0x8000_0000,
        decreases e - k,
    {
        proof {
            lemma_pow_partial_bound(base as int, (k + 1) as nat, e as nat);
            assert(pow_int(base as int, (k + 1) as nat) == (base as int) * pow_int(
                base as int,
                k as nat,
            ));
            assert((base as int) * acc == (base as int) * pow_int(base as int, k as nat));
        }
        acc = (base as i64) * acc;
        k = k + 1;
    }
    proof {
        assert(-0x8000_0000 <= acc <= 0x7fff_ffff);
    }
    acc as i32
}

/// Evaluates an arbitrary infix expression with the five known operators and
/// parentheses, respecting precedence: the input is converted to reverse
/// Polish notation and folded over a value stack. The caller owes an input
/// whose conversion and machine evaluation go through.
pub fn shunting_yard(input: &str) -> (r: i32)
    requires
        eval_expr(input@) is Some,
    ensures
        Some(r as int) == eval_expr(input@),
{
    let tokens = convert_to_rpn(input);
    let ghost toks = tokens@;
    let n = tokens.len();
    let mut stack: Vec<i32> = Vec::new();
    let mut i: usize = 0;
    proof {
        lemma_eval_prefix_some(toks, toks.len() as int, 0);
        assert(stack@.map_values(|v: i32| v as int) =~= Seq::<int>::empty());
    }
    while i < n
        invariant
            i <= n,
            n == toks.len(),
            tokens@ == toks,
            rpn_value(toks) is Some,
            spec_eval_fold(toks, toks.len() as int) is Some,
            spec_eval_fold(toks, i as int) == Some(stack@.map_values(|v: i32| v as int)),
        decreases n - i,
    {
        proof {
            lemma_eval_prefix_some(toks, toks.len() as int, i + 1);
        }
        let ghost pre = stack@.map_values(|v: i32| v as int);
        match &tokens[i] {
            Token::Number(num) => {
                stack.push(*num);
                proof {
                    assert(stack@.map_values(|v: i32| v as int) =~= pre.push(toks[i as int]->Number_0 as int));
                }
            },
            Token::Operator(operator) => {
                proof {
                    assert(spec_eval_step(pre, toks[i as int]) is Some);
                    assert(pre.len() >= 2);
                }
                let right_operand = stack.pop().unwrap();
                let left_operand = stack.pop().unwrap();
                proof {
                    assert(right_operand as int == pre.last());
                    assert(left_operand as int == pre[pre.len() - 2]);
                    assert(spec_apply(
                        toks[i as int]->Operator_0,
                        left_operand as int,
                        right_operand as int,
                    ) is Some);
                }
                let op = *operator;
                let v: i32 = if op == '-' {
                    left_operand - right_operand
                } else if op == '+' {
                    left_operand + right_operand
                } else if op == '*' {
                    left_operand * right_operand
                } else if op == '/' {
                    div_trunc_i32(left_operand, right_operand)
                } else {
                    proof {
                        if right_operand < 0 {
                            assert(false);
                        }
                    }
                    pow_by_mul(left_operand, right_operand)
                };
                stack.push(v);
                proof {
                    assert(stack@.map_values(|x: i32| x as int) =~= pre.drop_last().drop_last().push(
                        v as int,
                    ));
                }
            },
            Token::OpenParen => {
                proof {
                    assert(spec_eval_step(pre, toks[i as int]) is Some);
                    assert(false);
                }
            },
        }
        i += 1;
    }
    proof {
        assert(stack@.map_values(|v: i32| v as int).len() > 0);
        assert(stack@.len() > 0);
        assert(stack@.last() as int == stack@.map_values(|v: i32| v as int).last());
    }
    let r = stack.pop().unwrap();
    r
}

/// If the evaluation of the whole token list goes through, so does that of
/// every prefix.
proof fn lemma_eval_prefix_some(toks: Seq<Token>, i: int, j: int)
    requires
        0 <= j <= i,
        spec_eval_fold(toks, i) is Some,
    ensures
        spec_eval_fold(toks, j) is Some,
    decreases i - j,
{
    if j < i {
        assert(spec_eval_fold(toks, i - 1) is Some);
        lemma_eval_prefix_some(toks, i - 1, j);
    }
}

/// If the conversion of the whole string goes through, so does that of every
/// prefix.
proof fn lemma_fold_prefix_some(s: Seq<char>, i: int, j: int)
    requires
        0 <= j <= i,
        spec_rpn_fold(s, i) is Some,
    ensures
        spec_rpn_fold(s, j) is Some,
    decreases i - j,
{
    if j < i {
        assert(spec_rpn_fold(s, i - 1) is Some);
        lemma_fold_prefix_some(s, i - 1, j);
    }
}

} // verus!
