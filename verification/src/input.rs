use vstd::prelude::*;

use crate::exceptions::Exception;
use crate::maths::{
    char_class, expr_view, is_numeral_char, lemma_expr_view_push, lemma_skip_step, sign_of_char,
    Expression, Lexem, LexemView, ToSign,
};

verus! {

/// Whether a character is a decimal digit.
pub open spec fn is_digit_char(c: char) -> bool {
    ||| c == '0'
    ||| c == '1'
    ||| c == '2'
    ||| c == '3'
    ||| c == '4'
    ||| c == '5'
    ||| c == '6'
    ||| c == '7'
    ||| c == '8'
    ||| c == '9'
}

/// How many decimal digits a character sequence contains.
pub open spec fn digit_count(cs: Seq<char>) -> nat
    decreases cs.len(),
{
    if cs.len() == 0 {
        0
    } else {
        digit_count(cs.drop_last()) + if is_digit_char(cs.last()) {
            1nat
        } else {
            0nat
        }
    }
}

/// How many decimal points a character sequence contains.
pub open spec fn dot_count(cs: Seq<char>) -> nat
    decreases cs.len(),
{
    if cs.len() == 0 {
        0
    } else {
        dot_count(cs.drop_last()) + if cs.last() == '.' {
            1nat
        } else {
            0nat
        }
    }
}

/// A well-formed numeral: only digits and decimal points, at least one
/// digit, and at most one decimal point. Exactly these character runs read
/// as a decimal floating-point literal.
pub open spec fn valid_numeral(cs: Seq<char>) -> bool {
    &&& digit_count(cs) >= 1
    &&& dot_count(cs) <= 1
    &&& digit_count(cs) + dot_count(cs) == cs.len()
}

fn is_digit(c: char) -> (r: bool)
    ensures
        r == is_digit_char(c),
{
    match c {
        '0' | '1' | '2' | '3' | '4' | '5' | '6' | '7' | '8' | '9' => true,
        _ => false,
    }
}

fn check_numeral(cs: &Vec<char>) -> (r: bool)
    ensures
        r == valid_numeral(cs@),
{
    let mut digits: usize = 0;
    let mut dots: usize = 0;
    let mut i: usize = 0;
    proof {
        assert(cs@.take(0) =~= Seq::<char>::empty());
    }
    while i < cs.len()
        invariant
            i <= cs@.len(),
            digits == digit_count(cs@.take(i as int)),
            dots == dot_count(cs@.take(i as int)),
            digits + dots <= i,
        decreases cs@.len() - i,
    {
        proof {
            assert(cs@.take(i as int + 1).drop_last() =~= cs@.take(i as int));
            assert(cs@.take(i as int + 1).last() == cs@[i as int]);
        }
        let c = cs[i];
        if is_digit(c) {
            digits += 1;
        } else if c == '.' {
            dots += 1;
        }
        i += 1;
    }
    proof {
        assert(cs@.take(cs@.len() as int) =~= cs@);
    }
    digits >= 1 && dots <= 1 && digits + dots == cs.len()
}

/// The lexer's scan over the remaining characters `cs`, with `acc` the
/// digits and decimal points of the numeral in progress and `out` the
/// lexemes emitted so far. A sign character terminates the pending numeral;
/// a character that is neither a sign nor part of a numeral aborts the scan,
/// as does a pending numeral that is not well formed.
pub open spec fn lex_from(cs: Seq<char>, acc: Seq<char>, out: Seq<LexemView>) -> Result<
    Seq<LexemView>,
    Exception,
>
    decreases cs.len(),
{
    if cs.len() == 0 {
        if acc.len() == 0 {
            Ok(out)
        } else if valid_numeral(acc) {
            Ok(out.push(LexemView::Number(acc)))
        } else {
            Err(Exception::MalformedNumber)
        }
    } else {
        let c = cs.first();
        let rest = cs.drop_first();
        match sign_of_char(c) {
            Some(s) => {
                if acc.len() == 0 {
                    lex_from(rest, acc, out.push(LexemView::Sign(s)))
                } else if valid_numeral(acc) {
                    lex_from(
                        rest,
                        Seq::empty(),
                        out.push(LexemView::Number(acc)).push(LexemView::Sign(s)),
                    )
                } else {
                    Err(Exception::MalformedNumber)
                }
            },
            None => {
                if is_numeral_char(c) {
                    lex_from(rest, acc.push(c), out)
                } else {
                    Err(Exception::InvalidCharacter)
                }
            },
        }
    }
}

/// What lexing a whole character sequence yields: the scan started with an
/// empty accumulator and no lexemes emitted.
pub open spec fn lex_spec(cs: Seq<char>) -> Result<Seq<LexemView>, Exception> {
    lex_from(cs, Seq::empty(), Seq::empty())
}

/// Splitting a piece of text into the lexeme sequence it spells.
///
/// The text must already be free of whitespace. Sign placement is not
/// validated: consecutive signs such as `+*` lex cleanly, and judging them
/// is left to whatever consumes the postfix sequence. A minus is always the
/// binary `Sub`; unary minus must be written `~` in the text.
pub trait SplitToLexem {
    fn split_to_lexem(&self) -> Result<Expression, Exception>;
}

impl SplitToLexem for String {
    /// Scans the text left to right, accumulating numeral characters and
    /// emitting a `Number` lexeme whenever a sign character or the end of
    /// the text terminates a non-empty accumulator. The result — lexeme
    /// sequence or error — is exactly what `lex_spec` prescribes for the
    /// text; in particular no partial result survives an invalid character
    /// or a malformed numeral.
    #[verifier::loop_isolation(false)]
    fn split_to_lexem(&self) -> (r: Result<Expression, Exception>)
        ensures
            match r {
                Ok(e) => lex_spec(self@) == Ok::<Seq<LexemView>, Exception>(expr_view(e@)),
                Err(ex) => lex_spec(self@) == Err::<Seq<LexemView>, Exception>(ex),
            },
    {
        let s: &str = self.as_str();
        let n: usize = s.unicode_len();
        let mut res: Vec<Lexem> = Vec::new();
        let mut acc: Vec<char> = Vec::new();
        let mut i: usize = 0;
        proof {
            assert(self@.skip(0) =~= self@);
            assert(expr_view(Seq::<Lexem>::empty()) =~= Seq::<LexemView>::empty());
        }
        while i < n
            invariant
                i <= n,
                lex_from(self@.skip(i as int), acc@, expr_view(res@)) == lex_spec(self@),
            decreases n - i,
        {
            proof {
                lemma_skip_step(self@, i as int);
            }
            let c = s.get_char(i);
            match c.to_sign() {
                Err(e) => {
                    return Err(e);
                },
                Ok(None) => {
                    acc.push(c);
                },
                Ok(Some(sign)) => {
                    if acc.len() == 0 {
                        let ghost res0 = res@;
                        res.push(Lexem::Sign(sign));
                        proof {
                            lemma_expr_view_push(res0, Lexem::Sign(sign));
                        }
                    } else {
                        if !check_numeral(&acc) {
                            return Err(Exception::MalformedNumber);
                        }
                        let num = acc;
                        acc = Vec::new();
                        let ghost res0 = res@;
                        res.push(Lexem::Number(num));
                        let ghost res1 = res@;
                        res.push(Lexem::Sign(sign));
                        proof {
                            lemma_expr_view_push(res0, Lexem::Number(num));
                            lemma_expr_view_push(res1, Lexem::Sign(sign));
                        }
                    }
                },
            }
            i += 1;
        }
        proof {
            assert(self@.skip(n as int) =~= Seq::<char>::empty());
        }
        if acc.len() > 0 {
            if !check_numeral(&acc) {
                return Err(Exception::MalformedNumber);
            }
            let ghost res0 = res@;
            let ghost nv = acc@;
            res.push(Lexem::Number(acc));
            proof {
                assert(expr_view(res@) =~= expr_view(res0).push(LexemView::Number(nv)));
            }
        }
        Ok(res)
    }
}

} // verus!
