use vstd::prelude::*;

use crate::exceptions::Exception;

verus! {

/// The closed vocabulary of structural symbols an expression may contain:
/// the four arithmetic operators, exponentiation, the two brackets, and the
/// explicit unary-minus marker.
#[derive(PartialEq, Eq, Structural, Clone, Copy, Debug, Hash)]
pub enum Sign {
    Add,
    Sub,
    Mul,
    Div,
    Pow,
    /// open bracket
    OBr,
    /// close bracket
    CBr,
    /// unary minus
    Umn,
}

/// Mathematical model of a lexeme: a numeral is its character sequence, a
/// sign is itself. Contracts throughout the crate speak of this model.
pub enum LexemView {
    Number(Seq<char>),
    Sign(Sign),
}

/// One lexical unit of an expression. A numeric literal is kept as the run
/// of digit / decimal-point characters it was written with; the transformer
/// only moves numbers around and never reads their value, so the text is the
/// faithful representation and leaves evaluation to a later consumer.
#[derive(Debug)]
pub enum Lexem {
    Number(Vec<char>),
    Sign(Sign),
}

impl View for Lexem {
    type V = LexemView;

    open spec fn view(&self) -> LexemView {
        match self {
            Lexem::Number(cs) => LexemView::Number(cs@),
            Lexem::Sign(s) => LexemView::Sign(*s),
        }
    }
}

/// An expression is an ordered sequence of lexemes: reading order before the
/// postfix transformation, evaluation order after it.
pub type Expression = Vec<Lexem>;

/// The model of a whole expression: the sequence of its lexemes' models.
pub open spec fn expr_view(e: Seq<Lexem>) -> Seq<LexemView> {
    e.map_values(|lx: Lexem| lx@)
}

fn chars_eq(a: &Vec<char>, b: &Vec<char>) -> (r: bool)
    ensures
        r == (a@ == b@),
{
    if a.len() != b.len() {
        return false;
    }
    let mut i: usize = 0;
    while i < a.len()
        invariant
            i <= a.len(),
            a@.len() == b@.len(),
            forall|j: int| 0 <= j < i ==> a@[j] == b@[j],
        decreases a.len() - i,
    {
        if a[i] != b[i] {
            return false;
        }
        i += 1;
    }
    proof {
        assert(a@ =~= b@);
    }
    true
}

impl PartialEq for Lexem {
    /// Two lexemes are equal when they are the same variant with equal
    /// payload; a number and a sign are never equal.
    fn eq(&self, other: &Self) -> (r: bool) {
        match (self, other) {
            (Lexem::Sign(a), Lexem::Sign(b)) => a == b,
            (Lexem::Number(a), Lexem::Number(b)) => chars_eq(a, b),
            _ => false,
        }
    }
}

impl vstd::std_specs::cmp::PartialEqSpecImpl for Lexem {
    open spec fn obeys_eq_spec() -> bool {
        true
    }

    open spec fn eq_spec(&self, other: &Lexem) -> bool {
        self@ == other@
    }
}

/// The last element of an ordered sequence, if any: the top of a stack that
/// grows by `push`.
pub trait TopElement<T> {
    fn top(&self) -> Option<&T>;
}

impl<T> TopElement<T> for Vec<T> {
    fn top(&self) -> (r: Option<&T>)
        ensures
            match r {
                None => self@.len() == 0,
                Some(x) => self@.len() > 0 && *x == self@.last(),
            },
    {
        match self.len() {
            0 => None,
            n => Some(&self[n - 1]),
        }
    }
}

/// Whether a character is part of a numeric literal: a decimal digit or the
/// decimal point.
pub open spec fn is_numeral_char(c: char) -> bool {
    ||| c == '.'
    ||| c == '0'
    ||| c == '1'
    ||| c == '2'
    ||| c == '3'
    ||| c == '4'
    ||| c == '5'
    ||| c == '6'
    ||| c == '7'
    ||| c == '8'
    ||| c == '9'
}

/// The sign a character denotes, if it denotes one.
pub open spec fn sign_of_char(c: char) -> Option<Sign> {
    if c == '+' {
        Some(Sign::Add)
    } else if c == '-' {
        Some(Sign::Sub)
    } else if c == '*' {
        Some(Sign::Mul)
    } else if c == '/' {
        Some(Sign::Div)
    } else if c == '^' {
        Some(Sign::Pow)
    } else if c == '(' {
        Some(Sign::OBr)
    } else if c == ')' {
        Some(Sign::CBr)
    } else if c == '~' {
        Some(Sign::Umn)
    } else {
        None
    }
}

/// How the lexer classifies one character: `Ok(Some(sign))` for a sign
/// character, `Ok(None)` for a digit or decimal point, and
/// `Err(InvalidCharacter)` for anything else.
pub open spec fn char_class(c: char) -> Result<Option<Sign>, Exception> {
    match sign_of_char(c) {
        Some(s) => Ok(Some(s)),
        None => if is_numeral_char(c) {
            Ok(None)
        } else {
            Err(Exception::InvalidCharacter)
        },
    }
}

/// Classification of a single character of the input text.
pub trait ToSign {
    fn to_sign(&self) -> Result<Option<Sign>, Exception>;
}

impl ToSign for char {
    fn to_sign(&self) -> (r: Result<Option<Sign>, Exception>)
        ensures
            r == char_class(*self),
    {
        match *self {
            '+' => Ok(Some(Sign::Add)),
            '-' => Ok(Some(Sign::Sub)),
            '*' => Ok(Some(Sign::Mul)),
            '/' => Ok(Some(Sign::Div)),
            '^' => Ok(Some(Sign::Pow)),
            '(' => Ok(Some(Sign::OBr)),
            ')' => Ok(Some(Sign::CBr)),
            '~' => Ok(Some(Sign::Umn)),
            '.' | '0' | '1' | '2' | '3' | '4' | '5' | '6' | '7' | '8' | '9' => Ok(None),
            _ => Err(Exception::InvalidCharacter),
        }
    }
}

/// The rank of every sign, fixed at construction. Brackets carry the highest
/// rank so the precedence-comparison loop never pops them implicitly.
pub struct PriorityTable {
    pub add: u8,
    pub sub: u8,
    pub mul: u8,
    pub div: u8,
    pub pow: u8,
    pub obr: u8,
    pub cbr: u8,
    pub umn: u8,
}

impl PriorityTable {
    /// The rank the table assigns to a sign.
    pub open spec fn spec_get(self, s: Sign) -> u8 {
        match s {
            Sign::Add => self.add,
            Sign::Sub => self.sub,
            Sign::Mul => self.mul,
            Sign::Div => self.div,
            Sign::Pow => self.pow,
            Sign::OBr => self.obr,
            Sign::CBr => self.cbr,
            Sign::Umn => self.umn,
        }
    }

    pub fn get(&self, s: Sign) -> (p: u8)
        ensures
            p == self.spec_get(s),
    {
        match s {
            Sign::Add => self.add,
            Sign::Sub => self.sub,
            Sign::Mul => self.mul,
            Sign::Div => self.div,
            Sign::Pow => self.pow,
            Sign::OBr => self.obr,
            Sign::CBr => self.cbr,
            Sign::Umn => self.umn,
        }
    }
}

/// The standard ranking: brackets 5, unary minus 4, exponentiation 3,
/// multiplication and division 2, addition and subtraction 1.
pub open spec fn standard_priority() -> PriorityTable {
    PriorityTable { add: 1, sub: 1, mul: 2, div: 2, pow: 3, obr: 5, cbr: 5, umn: 4 }
}

/// Turns an infix expression into its postfix (Reverse Polish) form with one
/// explicit operator stack, guided by `priority`.
pub struct ExpressionToPolishTransformer {
    pub priority: PriorityTable,
    pub expression: Option<Expression>,
}

impl Default for ExpressionToPolishTransformer {
    fn default() -> (r: ExpressionToPolishTransformer)
        ensures
            r.priority == standard_priority(),
            r.expression is None,
    {
        ExpressionToPolishTransformer {
            priority: PriorityTable {
                add: 1,
                sub: 1,
                mul: 2,
                div: 2,
                pow: 3,
                obr: 5,
                cbr: 5,
                umn: 4,
            },
            expression: None,
        }
    }
}

/// Stage of the shunting-yard pass for one `CloseBracket`: signs are popped
/// off the stack onto the output until the matching `OpenBracket` is popped
/// and discarded; an exhausted stack means the bracket had no match.
pub open spec fn pop_for_close(stack: Seq<Sign>, out: Seq<LexemView>) -> Option<
    (Seq<Sign>, Seq<LexemView>),
>
    decreases stack.len(),
{
    if stack.len() == 0 {
        None
    } else if stack.last() == Sign::OBr {
        Some((stack.drop_last(), out))
    } else {
        pop_for_close(stack.drop_last(), out.push(LexemView::Sign(stack.last())))
    }
}

/// Stage of the shunting-yard pass before an operator `s` is pushed: the
/// stack is popped onto the output while its top is an operator whose rank
/// is not lower than the rank of `s`. Popping on equal rank is what makes
/// every operator of this table group to the left.
pub open spec fn pop_for_operator(
    pt: PriorityTable,
    s: Sign,
    stack: Seq<Sign>,
    out: Seq<LexemView>,
) -> (Seq<Sign>, Seq<LexemView>)
    decreases stack.len(),
{
    if stack.len() == 0 || stack.last() == Sign::OBr || pt.spec_get(stack.last()) < pt.spec_get(
        s,
    ) {
        (stack, out)
    } else {
        pop_for_operator(pt, s, stack.drop_last(), out.push(LexemView::Sign(stack.last())))
    }
}

/// Final stage of the shunting-yard pass: once the input is exhausted the
/// stack is drained onto the output in pop order. An `OpenBracket` still on
/// the stack never found its closing bracket, so the whole conversion is
/// rejected as unbalanced; a stray `CloseBracket` (which the main pass never
/// leaves behind) would be discarded.
pub open spec fn drain_stack(stack: Seq<Sign>, out: Seq<LexemView>) -> Result<
    Seq<LexemView>,
    Exception,
>
    decreases stack.len(),
{
    if stack.len() == 0 {
        Ok(out)
    } else if stack.last() == Sign::OBr {
        Err(Exception::UnbalancedParentheses)
    } else if stack.last() == Sign::CBr {
        drain_stack(stack.drop_last(), out)
    } else {
        drain_stack(stack.drop_last(), out.push(LexemView::Sign(stack.last())))
    }
}

/// One left-to-right pass of the shunting-yard algorithm over the remaining
/// `input`, with `stack` the current operator stack and `out` the postfix
/// output emitted so far.
pub open spec fn convert_from(
    pt: PriorityTable,
    input: Seq<LexemView>,
    stack: Seq<Sign>,
    out: Seq<LexemView>,
) -> Result<Seq<LexemView>, Exception>
    decreases input.len(),
{
    if input.len() == 0 {
        drain_stack(stack, out)
    } else {
        let rest = input.drop_first();
        match input.first() {
            LexemView::Number(cs) => convert_from(pt, rest, stack, out.push(LexemView::Number(cs))),
            LexemView::Sign(s) => {
                if s == Sign::OBr {
                    convert_from(pt, rest, stack.push(Sign::OBr), out)
                } else if s == Sign::CBr {
                    match pop_for_close(stack, out) {
                        None => Err(Exception::UnbalancedParentheses),
                        Some(popped) => convert_from(pt, rest, popped.0, popped.1),
                    }
                } else {
                    let popped = pop_for_operator(pt, s, stack, out);
                    convert_from(pt, rest, popped.0.push(s), popped.1)
                }
            },
        }
    }
}

/// What converting an expression to postfix form yields: the result of the
/// shunting-yard pass started with an empty stack and an empty output.
pub open spec fn convert_spec(pt: PriorityTable, input: Seq<LexemView>) -> Result<
    Seq<LexemView>,
    Exception,
> {
    convert_from(pt, input, Seq::empty(), Seq::empty())
}

pub(crate) proof fn lemma_expr_view_push(s: Seq<Lexem>, lx: Lexem)
    ensures
        expr_view(s.push(lx)) == expr_view(s).push(lx@),
{
    assert(expr_view(s.push(lx)) =~= expr_view(s).push(lx@));
}

pub(crate) proof fn lemma_skip_step<A>(s: Seq<A>, i: int)
    requires
        0 <= i < s.len(),
    ensures
        s.skip(i).len() == s.len() - i,
        s.skip(i).first() == s[i],
        s.skip(i).drop_first() == s.skip(i + 1),
{
    assert(s.skip(i).drop_first() =~= s.skip(i + 1));
}

fn clone_chars(cs: &Vec<char>) -> (r: Vec<char>)
    ensures
        r@ == cs@,
{
    let mut r: Vec<char> = Vec::new();
    let mut i: usize = 0;
    while i < cs.len()
        invariant
            i <= cs@.len(),
            r@ == cs@.take(i as int),
        decreases cs@.len() - i,
    {
        r.push(cs[i]);
        proof {
            assert(cs@.take(i as int).push(cs@[i as int]) =~= cs@.take(i as int + 1));
        }
        i += 1;
    }
    proof {
        assert(cs@.take(cs@.len() as int) =~= cs@);
    }
    r
}

impl ExpressionToPolishTransformer {
    /// Reorders the configured infix expression into postfix order.
    ///
    /// With no expression configured the call fails with `EmptyInput`
    /// (distinct from an expression of zero lexemes, which converts to an
    /// empty postfix sequence). Otherwise the result — output sequence or
    /// error — is exactly what the shunting-yard pass `convert_spec`
    /// prescribes for the expression under the configured priority table.
    /// In particular a `CloseBracket` with no matching `OpenBracket`, and
    /// equally an `OpenBracket` still unmatched when the input ends, fail
    /// with `UnbalancedParentheses`: a bracket mismatch is never flushed
    /// into the output.
    #[verifier::loop_isolation(false)]
    pub fn convert(&self) -> (r: Result<Expression, Exception>)
        ensures
            match self.expression {
                None => r == Err::<Expression, Exception>(Exception::EmptyInput),
                Some(e) => match r {
                    Ok(res) => convert_spec(self.priority, expr_view(e@)) == Ok::<
                        Seq<LexemView>,
                        Exception,
                    >(expr_view(res@)),
                    Err(ex) => convert_spec(self.priority, expr_view(e@)) == Err::<
                        Seq<LexemView>,
                        Exception,
                    >(ex),
                },
            },
    {
        let expr = match &self.expression {
            None => {
                return Err(Exception::EmptyInput);
            },
            Some(e) => e,
        };
        let ghost input = expr_view(expr@);
        let ghost goal = convert_spec(self.priority, input);
        let mut res: Vec<Lexem> = Vec::new();
        let mut stack: Vec<Sign> = Vec::new();
        let mut i: usize = 0;
        proof {
            assert(input.skip(0) =~= input);
            assert(expr_view(Seq::<Lexem>::empty()) =~= Seq::<LexemView>::empty());
        }
        while i < expr.len()
            invariant
                i <= expr@.len(),
                convert_from(self.priority, input.skip(i as int), stack@, expr_view(res@))
                    == goal,
            decreases expr@.len() - i,
        {
            proof {
                lemma_skip_step(input, i as int);
            }
            match &expr[i] {
                Lexem::Number(cs) => {
                    let copy = clone_chars(cs);
                    let ghost res0 = res@;
                    res.push(Lexem::Number(copy));
                    proof {
                        lemma_expr_view_push(res0, Lexem::Number(copy));
                    }
                },
                Lexem::Sign(s) => {
                    let sv = *s;
                    if sv == Sign::OBr {
                        stack.push(sv);
                    } else if sv == Sign::CBr {
                        let ghost st0 = stack@;
                        let ghost out0 = expr_view(res@);
                        let mut found_open: bool = false;
                        while !found_open
                            invariant
                                !found_open ==> pop_for_close(stack@, expr_view(res@))
                                    == pop_for_close(st0, out0),
                                found_open ==> pop_for_close(st0, out0) == Some(
                                    (stack@, expr_view(res@)),
                                ),
                            decreases stack@.len(),
                        {
                            let popped = stack.pop();
                            match popped {
                                None => {
                                    return Err(Exception::UnbalancedParentheses);
                                },
                                Some(Sign::OBr) => {
                                    found_open = true;
                                },
                                Some(t) => {
                                    let ghost res0 = res@;
                                    res.push(Lexem::Sign(t));
                                    proof {
                                        lemma_expr_view_push(res0, Lexem::Sign(t));
                                    }
                                },
                            }
                        }
                    } else {
                        let ghost st0 = stack@;
                        let ghost out0 = expr_view(res@);
                        let mut popping: bool = true;
                        while popping
                            invariant
                                popping ==> pop_for_operator(self.priority, sv, stack@, expr_view(res@))
                                    == pop_for_operator(self.priority, sv, st0, out0),
                                !popping ==> pop_for_operator(self.priority, sv, st0, out0) == (
                                    stack@,
                                    expr_view(res@),
                                ),
                            decreases stack@.len(), (if popping { 1int } else { 0int }),
                        {
                            let do_pop: bool = match stack.top() {
                                None => false,
                                Some(t) => *t != Sign::OBr && self.priority.get(*t)
                                    >= self.priority.get(sv),
                            };
                            if do_pop {
                                let t = stack.pop().unwrap();
                                let ghost res0 = res@;
                                res.push(Lexem::Sign(t));
                                proof {
                                    lemma_expr_view_push(res0, Lexem::Sign(t));
                                }
                            } else {
                                popping = false;
                            }
                        }
                        stack.push(sv);
                    }
                },
            }
            i += 1;
        }
        proof {
            assert(input.skip(input.len() as int) =~= Seq::<LexemView>::empty());
        }
        let ghost st1 = stack@;
        let ghost out1 = expr_view(res@);
        while stack.len() > 0
            invariant
                drain_stack(stack@, expr_view(res@)) == drain_stack(st1, out1),
            decreases stack@.len(),
        {
            let popped = stack.pop();
            match popped {
                None => {
                },
                Some(Sign::OBr) => {
                    return Err(Exception::UnbalancedParentheses);
                },
                Some(Sign::CBr) => {
                },
                Some(t) => {
                    let ghost res0 = res@;
                    res.push(Lexem::Sign(t));
                    proof {
                        lemma_expr_view_push(res0, Lexem::Sign(t));
                    }
                },
            }
        }
        Ok(res)
    }
}

} // verus!
