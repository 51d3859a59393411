use vstd::multiset::Multiset;
use vstd::prelude::*;

use crate::exceptions::Exception;
use crate::maths::{
    convert_from, convert_spec, drain_stack, pop_for_close, pop_for_operator, LexemView,
    PriorityTable, Sign,
};

verus! {

/// A sign that takes part in the precedence comparison: every sign except
/// the two brackets.
pub open spec fn is_operator(s: Sign) -> bool {
    s != Sign::OBr && s != Sign::CBr
}

/// A lexeme that may appear in postfix output: a number or an operator,
/// never a bracket.
pub open spec fn not_bracket(lv: LexemView) -> bool {
    match lv {
        LexemView::Number(_) => true,
        LexemView::Sign(h) => is_operator(h),
    }
}

/// Whether a sequence of lexemes is free of bracket signs.
pub open spec fn bracket_free(s: Seq<LexemView>) -> bool {
    forall|i: int| 0 <= i < s.len() ==> not_bracket(#[trigger] s[i])
}

/// What one lexeme contributes to the count of numbers.
pub open spec fn number_weight(lv: LexemView) -> nat {
    match lv {
        LexemView::Number(_) => 1nat,
        LexemView::Sign(_) => 0nat,
    }
}

/// What one lexeme contributes to the count of occurrences of the sign `g`.
pub open spec fn sign_weight(lv: LexemView, g: Sign) -> nat {
    if lv == LexemView::Sign(g) {
        1nat
    } else {
        0nat
    }
}

/// What one lexeme adds to a multiset of operators: itself when it is an
/// operator sign, nothing otherwise.
pub open spec fn with_operator(m: Multiset<Sign>, lv: LexemView) -> Multiset<Sign> {
    match lv {
        LexemView::Sign(h) => if is_operator(h) {
            m.insert(h)
        } else {
            m
        },
        LexemView::Number(_) => m,
    }
}

/// How many `Number` lexemes a sequence contains.
pub open spec fn number_count(s: Seq<LexemView>) -> nat
    decreases s.len(),
{
    if s.len() == 0 {
        0
    } else {
        number_count(s.drop_last()) + number_weight(s.last())
    }
}

/// How many times the sign `g` occurs as a lexeme of the sequence.
pub open spec fn sign_count(s: Seq<LexemView>, g: Sign) -> nat
    decreases s.len(),
{
    if s.len() == 0 {
        0
    } else {
        sign_count(s.drop_last(), g) + sign_weight(s.last(), g)
    }
}

/// The multiset of operator signs a lexeme sequence contains.
pub open spec fn operator_multiset(s: Seq<LexemView>) -> Multiset<Sign>
    decreases s.len(),
{
    if s.len() == 0 {
        Multiset::empty()
    } else {
        with_operator(operator_multiset(s.drop_last()), s.last())
    }
}

/// How many times the sign `g` occurs on an operator stack.
pub open spec fn stack_count(st: Seq<Sign>, g: Sign) -> nat
    decreases st.len(),
{
    if st.len() == 0 {
        0
    } else {
        stack_count(st.drop_last(), g) + if st.last() == g {
            1nat
        } else {
            0nat
        }
    }
}

/// The multiset of operator signs an operator stack holds.
pub open spec fn stack_operators(st: Seq<Sign>) -> Multiset<Sign>
    decreases st.len(),
{
    if st.len() == 0 {
        Multiset::empty()
    } else if is_operator(st.last()) {
        stack_operators(st.drop_last()).insert(st.last())
    } else {
        stack_operators(st.drop_last())
    }
}

proof fn lemma_lexeme_push(s: Seq<LexemView>, lv: LexemView)
    ensures
        number_count(s.push(lv)) == number_count(s) + number_weight(lv),
        operator_multiset(s.push(lv)) == with_operator(operator_multiset(s), lv),
        forall|g: Sign| #[trigger] sign_count(s.push(lv), g) == sign_count(s, g) + sign_weight(
            lv,
            g,
        ),
        bracket_free(s) && not_bracket(lv) ==> bracket_free(s.push(lv)),
{
    assert(s.push(lv).drop_last() =~= s);
    assert(s.push(lv).last() == lv);
    if bracket_free(s) && not_bracket(lv) {
        assert forall|i: int| 0 <= i < s.push(lv).len() implies not_bracket(
            #[trigger] s.push(lv)[i],
        ) by {
            if i < s.len() {
                assert(s.push(lv)[i] == s[i]);
            } else {
                assert(s.push(lv)[i] == lv);
            }
        }
    }
}

proof fn lemma_stack_push(st: Seq<Sign>, g: Sign)
    ensures
        forall|h: Sign| #[trigger] stack_count(st.push(g), h) == stack_count(st, h) + (if g == h {
            1nat
        } else {
            0nat
        }),
        stack_operators(st.push(g)) == (if is_operator(g) {
            stack_operators(st).insert(g)
        } else {
            stack_operators(st)
        }),
{
    assert(st.push(g).drop_last() =~= st);
    assert(st.push(g).last() == g);
}

proof fn lemma_with_operator_comm(m: Multiset<Sign>, a: LexemView, b: LexemView)
    ensures
        with_operator(with_operator(m, a), b) == with_operator(with_operator(m, b), a),
{
    match (a, b) {
        (LexemView::Sign(x), LexemView::Sign(y)) => {
            if is_operator(x) && is_operator(y) {
                assert(m.insert(x).insert(y) =~= m.insert(y).insert(x));
            }
        },
        _ => {
        },
    }
}

proof fn lemma_lexeme_first(s: Seq<LexemView>, g: Sign)
    requires
        s.len() > 0,
    ensures
        number_count(s) == number_weight(s.first()) + number_count(s.drop_first()),
        sign_count(s, g) == sign_weight(s.first(), g) + sign_count(s.drop_first(), g),
        operator_multiset(s) == with_operator(operator_multiset(s.drop_first()), s.first()),
    decreases s.len(),
{
    if s.len() == 1 {
        assert(s.drop_first() =~= Seq::<LexemView>::empty());
        assert(s.drop_last() =~= Seq::<LexemView>::empty());
        assert(s.last() == s.first());
    } else {
        lemma_lexeme_first(s.drop_last(), g);
        assert(s.drop_last().first() == s.first());
        assert(s.drop_last().drop_first() =~= s.drop_first().drop_last());
        assert(s.drop_first().last() == s.last());
        lemma_with_operator_comm(
            operator_multiset(s.drop_first().drop_last()),
            s.first(),
            s.last(),
        );
    }
}

proof fn lemma_pop_for_close_props(stack: Seq<Sign>, out: Seq<LexemView>)
    requires
        stack_count(stack, Sign::CBr) == 0,
    ensures
        match pop_for_close(stack, out) {
            Some(p) => {
                &&& stack_count(p.0, Sign::CBr) == 0
                &&& stack_count(p.0, Sign::OBr) + 1 == stack_count(stack, Sign::OBr)
                &&& number_count(p.1) == number_count(out)
                &&& operator_multiset(p.1).add(stack_operators(p.0)) == operator_multiset(
                    out,
                ).add(stack_operators(stack))
                &&& (bracket_free(out) ==> bracket_free(p.1))
            },
            None => stack_count(stack, Sign::OBr) == 0,
        },
    decreases stack.len(),
{
    if stack.len() == 0 {
    } else {
        let t = stack.last();
        if t == Sign::OBr {
        } else {
            lemma_lexeme_push(out, LexemView::Sign(t));
            lemma_pop_for_close_props(stack.drop_last(), out.push(LexemView::Sign(t)));
            if pop_for_close(stack, out) is Some {
                let p = pop_for_close(stack, out)->Some_0;
                assert(operator_multiset(out).insert(t).add(stack_operators(stack.drop_last()))
                    =~= operator_multiset(out).add(stack_operators(stack.drop_last()).insert(t)));
            }
        }
    }
}

proof fn lemma_pop_for_operator_props(
    pt: PriorityTable,
    s: Sign,
    stack: Seq<Sign>,
    out: Seq<LexemView>,
)
    requires
        stack_count(stack, Sign::CBr) == 0,
    ensures
        ({
            let p = pop_for_operator(pt, s, stack, out);
            &&& stack_count(p.0, Sign::CBr) == 0
            &&& stack_count(p.0, Sign::OBr) == stack_count(stack, Sign::OBr)
            &&& number_count(p.1) == number_count(out)
            &&& operator_multiset(p.1).add(stack_operators(p.0)) == operator_multiset(out).add(
                stack_operators(stack),
            )
            &&& (bracket_free(out) ==> bracket_free(p.1))
        }),
    decreases stack.len(),
{
    if stack.len() == 0 || stack.last() == Sign::OBr || pt.spec_get(stack.last()) < pt.spec_get(
        s,
    ) {
    } else {
        let t = stack.last();
        lemma_lexeme_push(out, LexemView::Sign(t));
        lemma_pop_for_operator_props(pt, s, stack.drop_last(), out.push(LexemView::Sign(t)));
        assert(operator_multiset(out).insert(t).add(stack_operators(stack.drop_last()))
            =~= operator_multiset(out).add(stack_operators(stack.drop_last()).insert(t)));
    }
}

proof fn lemma_drain_stack_props(stack: Seq<Sign>, out: Seq<LexemView>)
    ensures
        match drain_stack(stack, out) {
            Ok(res) => {
                &&& stack_count(stack, Sign::OBr) == 0
                &&& number_count(res) == number_count(out)
                &&& operator_multiset(res) == operator_multiset(out).add(stack_operators(stack))
                &&& (bracket_free(out) ==> bracket_free(res))
            },
            Err(e) => e == Exception::UnbalancedParentheses,
        },
    decreases stack.len(),
{
    if stack.len() == 0 {
        assert(operator_multiset(out).add(stack_operators(stack)) =~= operator_multiset(out));
    } else {
        let t = stack.last();
        if t == Sign::OBr {
        } else if t == Sign::CBr {
            lemma_drain_stack_props(stack.drop_last(), out);
        } else {
            lemma_lexeme_push(out, LexemView::Sign(t));
            lemma_drain_stack_props(stack.drop_last(), out.push(LexemView::Sign(t)));
            if drain_stack(stack, out) is Ok {
                assert(operator_multiset(out).insert(t).add(stack_operators(stack.drop_last()))
                    =~= operator_multiset(out).add(stack_operators(stack.drop_last()).insert(t)));
            }
        }
    }
}

proof fn lemma_convert_from_props(
    pt: PriorityTable,
    input: Seq<LexemView>,
    stack: Seq<Sign>,
    out: Seq<LexemView>,
)
    requires
        stack_count(stack, Sign::CBr) == 0,
    ensures
        match convert_from(pt, input, stack, out) {
            Ok(res) => {
                &&& number_count(res) == number_count(input) + number_count(out)
                &&& operator_multiset(res) == operator_multiset(input).add(
                    operator_multiset(out),
                ).add(stack_operators(stack))
                &&& (bracket_free(out) ==> bracket_free(res))
                &&& sign_count(input, Sign::OBr) + stack_count(stack, Sign::OBr) == sign_count(
                    input,
                    Sign::CBr,
                )
            },
            Err(e) => e == Exception::UnbalancedParentheses,
        },
    decreases input.len(),
{
    if input.len() == 0 {
        lemma_drain_stack_props(stack, out);
        if convert_from(pt, input, stack, out) is Ok {
            assert(operator_multiset(input).add(operator_multiset(out)).add(
                stack_operators(stack),
            ) =~= operator_multiset(out).add(stack_operators(stack)));
        }
    } else {
        let rest = input.drop_first();
        lemma_lexeme_first(input, Sign::OBr);
        lemma_lexeme_first(input, Sign::CBr);
        match input.first() {
            LexemView::Number(cs) => {
                lemma_lexeme_push(out, LexemView::Number(cs));
                lemma_convert_from_props(pt, rest, stack, out.push(LexemView::Number(cs)));
            },
            LexemView::Sign(s) => {
                if s == Sign::OBr {
                    lemma_stack_push(stack, Sign::OBr);
                    lemma_convert_from_props(pt, rest, stack.push(Sign::OBr), out);
                } else if s == Sign::CBr {
                    lemma_pop_for_close_props(stack, out);
                    match pop_for_close(stack, out) {
                        None => {
                        },
                        Some(p) => {
                            lemma_convert_from_props(pt, rest, p.0, p.1);
                            if convert_from(pt, rest, p.0, p.1) is Ok {
                                assert(operator_multiset(rest).add(operator_multiset(p.1)).add(
                                    stack_operators(p.0),
                                ) =~= operator_multiset(rest).add(
                                    operator_multiset(p.1).add(stack_operators(p.0)),
                                ));
                                assert(operator_multiset(rest).add(
                                    operator_multiset(out).add(stack_operators(stack)),
                                ) =~= operator_multiset(input).add(operator_multiset(out)).add(
                                    stack_operators(stack),
                                ));
                            }
                        },
                    }
                } else {
                    assert(is_operator(s));
                    lemma_pop_for_operator_props(pt, s, stack, out);
                    let p = pop_for_operator(pt, s, stack, out);
                    lemma_stack_push(p.0, s);
                    lemma_convert_from_props(pt, rest, p.0.push(s), p.1);
                    if convert_from(pt, rest, p.0.push(s), p.1) is Ok {
                        assert(operator_multiset(rest).add(operator_multiset(p.1)).add(
                            stack_operators(p.0).insert(s),
                        ) =~= operator_multiset(rest).insert(s).add(
                            operator_multiset(p.1).add(stack_operators(p.0)),
                        ));
                        assert(operator_multiset(rest).insert(s).add(
                            operator_multiset(out).add(stack_operators(stack)),
                        ) =~= operator_multiset(input).add(operator_multiset(out)).add(
                            stack_operators(stack),
                        ));
                    }
                }
            },
        }
    }
}

/// Law: a successful conversion is a pure reordering. The postfix output
/// holds exactly as many numbers as the input, the same multiset of operator
/// signs, and no bracket at all: brackets are consumed, and no lexeme is
/// dropped or invented.
pub proof fn lemma_conversion_preserves_tokens(pt: PriorityTable, input: Seq<LexemView>)
    requires
        convert_spec(pt, input) is Ok,
    ensures
        ({
            let res = convert_spec(pt, input)->Ok_0;
            &&& number_count(res) == number_count(input)
            &&& operator_multiset(res) == operator_multiset(input)
            &&& bracket_free(res)
        }),
{
    lemma_convert_from_props(pt, input, Seq::empty(), Seq::empty());
    assert(operator_multiset(input).add(operator_multiset(Seq::<LexemView>::empty())).add(
        stack_operators(Seq::<Sign>::empty()),
    ) =~= operator_multiset(input));
}

/// Law: brackets balance. A conversion succeeds only when the input holds as
/// many `OpenBracket` as `CloseBracket` lexemes, and on any mismatch it
/// fails with `UnbalancedParentheses` — never with a silently wrong output.
pub proof fn lemma_balanced_brackets(pt: PriorityTable, input: Seq<LexemView>)
    ensures
        convert_spec(pt, input) is Ok ==> sign_count(input, Sign::OBr) == sign_count(
            input,
            Sign::CBr,
        ),
        sign_count(input, Sign::OBr) != sign_count(input, Sign::CBr) ==> convert_spec(pt, input)
            == Err::<Seq<LexemView>, Exception>(Exception::UnbalancedParentheses),
{
    lemma_convert_from_props(pt, input, Seq::empty(), Seq::empty());
}

proof fn lemma_convert_numbers_only_from(
    pt: PriorityTable,
    input: Seq<LexemView>,
    out: Seq<LexemView>,
)
    requires
        forall|i: int| 0 <= i < input.len() ==> (#[trigger] input[i]) is Number,
    ensures
        convert_from(pt, input, Seq::empty(), out) == Ok::<Seq<LexemView>, Exception>(out + input),
    decreases input.len(),
{
    if input.len() == 0 {
        assert(out + input =~= out);
    } else {
        let rest = input.drop_first();
        assert forall|i: int| 0 <= i < rest.len() implies (#[trigger] rest[i]) is Number by {
            assert(rest[i] == input[i + 1]);
        }
        lemma_convert_numbers_only_from(pt, rest, out.push(input.first()));
        assert(out.push(input.first()) + rest =~= out + input);
    }
}

/// Law: a sequence with no signs at all — such as a postfix sequence reduced
/// to its operand run, with nothing left to reorder — converts to itself.
/// Re-running the transformer on it is a no-op.
pub proof fn lemma_convert_numbers_identity(pt: PriorityTable, input: Seq<LexemView>)
    requires
        forall|i: int| 0 <= i < input.len() ==> (#[trigger] input[i]) is Number,
    ensures
        convert_spec(pt, input) == Ok::<Seq<LexemView>, Exception>(input),
{
    lemma_convert_numbers_only_from(pt, input, Seq::empty());
    assert(Seq::<LexemView>::empty() + input =~= input);
}

/// Law: operators of equal rank group to the left, and so does a pair whose
/// second operator ranks no higher than the first. In particular `a - b - c`
/// becomes `a b - c -`, and — by the deliberate departure of this table from
/// convention — `a ^ b ^ c` becomes `a b ^ c ^`.
pub proof fn lemma_left_associativity(
    pt: PriorityTable,
    a: Seq<char>,
    b: Seq<char>,
    c: Seq<char>,
    g1: Sign,
    g2: Sign,
)
    requires
        is_operator(g1),
        is_operator(g2),
        pt.spec_get(g2) <= pt.spec_get(g1),
    ensures
        convert_spec(
            pt,
            seq![
                LexemView::Number(a),
                LexemView::Sign(g1),
                LexemView::Number(b),
                LexemView::Sign(g2),
                LexemView::Number(c),
            ],
        ) == Ok::<Seq<LexemView>, Exception>(
            seq![
                LexemView::Number(a),
                LexemView::Number(b),
                LexemView::Sign(g1),
                LexemView::Number(c),
                LexemView::Sign(g2),
            ],
        ),
{
    let na = LexemView::Number(a);
    let nb = LexemView::Number(b);
    let nc = LexemView::Number(c);
    let s1 = LexemView::Sign(g1);
    let s2 = LexemView::Sign(g2);
    let in0 = seq![na, s1, nb, s2, nc];
    let in1 = seq![s1, nb, s2, nc];
    let in2 = seq![nb, s2, nc];
    let in3 = seq![s2, nc];
    let in4 = seq![nc];
    let e = Seq::<LexemView>::empty();
    let es = Seq::<Sign>::empty();
    let out1 = e.push(na);
    let out2 = out1.push(nb);
    let out3 = out2.push(s1);
    let out4 = out3.push(nc);
    let out5 = out4.push(s2);
    let st1 = es.push(g1);
    let st2 = es.push(g2);

    assert(in0.first() == na);
    assert(in0.drop_first() =~= in1);
    assert(convert_from(pt, in0, es, e) == convert_from(pt, in1, es, out1));

    assert(in1.first() == s1);
    assert(in1.drop_first() =~= in2);
    assert(pop_for_operator(pt, g1, es, out1) == (es, out1));
    assert(convert_from(pt, in1, es, out1) == convert_from(pt, in2, st1, out1));

    assert(in2.first() == nb);
    assert(in2.drop_first() =~= in3);
    assert(convert_from(pt, in2, st1, out1) == convert_from(pt, in3, st1, out2));

    assert(in3.first() == s2);
    assert(in3.drop_first() =~= in4);
    assert(st1.last() == g1);
    assert(st1.drop_last() =~= es);
    assert(pop_for_operator(pt, g2, st1, out2) == pop_for_operator(pt, g2, es, out3));
    assert(pop_for_operator(pt, g2, es, out3) == (es, out3));
    assert(convert_from(pt, in3, st1, out2) == convert_from(pt, in4, st2, out3));

    assert(in4.first() == nc);
    assert(in4.drop_first() =~= Seq::<LexemView>::empty());
    assert(convert_from(pt, in4, st2, out3) == convert_from(
        pt,
        Seq::<LexemView>::empty(),
        st2,
        out4,
    ));

    assert(st2.last() == g2);
    assert(st2.drop_last() =~= es);
    assert(drain_stack(st2, out4) == drain_stack(es, out5));
    assert(drain_stack(es, out5) == Ok::<Seq<LexemView>, Exception>(out5));
    assert(out5 =~= seq![na, nb, s1, nc, s2]);
}

} // verus!
