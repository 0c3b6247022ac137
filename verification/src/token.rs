//! The lexical front end: turns the textual machine description into a
//! token stream of identifiers and punctuation.
use vstd::prelude::*;
use crate::value::{push_char, str_to_chars};

verus! {

broadcast use vstd::seq::group_seq_axioms, vstd::std_specs::vec::group_vec_axioms;

/// A lexical token of the machine description.
#[derive(Debug)]
pub enum Token {
    Ident(String),
    Colon,
    Comma,
    LBrace,
    RBrace,
    FatArrow,
}

/// The mathematical model of a token.
pub ghost enum TokenV {
    Ident(Seq<char>),
    Colon,
    Comma,
    LBrace,
    RBrace,
    FatArrow,
}

impl View for Token {
    type V = TokenV;

    open spec fn view(&self) -> TokenV {
        match self {
            Token::Ident(s) => TokenV::Ident(s@),
            Token::Colon => TokenV::Colon,
            Token::Comma => TokenV::Comma,
            Token::LBrace => TokenV::LBrace,
            Token::RBrace => TokenV::RBrace,
            Token::FatArrow => TokenV::FatArrow,
        }
    }
}

impl DeepView for Token {
    type V = TokenV;

    open spec fn deep_view(&self) -> TokenV {
        self.view()
    }
}

/// Whether a character can start an identifier.
pub open spec fn is_ident_start(c: char) -> bool {
    (97 <= c as int && c as int <= 122) || (65 <= c as int && c as int <= 90) || c == '_'
}

/// Whether a character can continue an identifier.
pub open spec fn is_ident_char(c: char) -> bool {
    is_ident_start(c) || (48 <= c as int && c as int <= 57)
}

/// Whether a character is insignificant whitespace.
pub open spec fn is_space(c: char) -> bool {
    c == ' ' || c == '\n' || c == '\t' || c == '\r'
}

/// Length of the maximal identifier prefix.
pub open spec fn ident_len(s: Seq<char>) -> int
    decreases s.len(),
{
    if s.len() == 0 || !is_ident_char(s[0]) {
        0
    } else {
        1 + ident_len(s.drop_first())
    }
}

/// The maximal identifier prefix is no longer than the string.
pub proof fn lemma_ident_len_bounds(s: Seq<char>)
    ensures
        0 <= ident_len(s) <= s.len(),
    decreases s.len(),
{
    if s.len() > 0 && is_ident_char(s[0]) {
        lemma_ident_len_bounds(s.drop_first());
    }
}

/// Tokenization: whitespace separates tokens and is dropped; identifiers
/// are maximal runs of identifier characters; the punctuation is `:`, `,`,
/// `{`, `}` and `=>`. Any other character refuses the whole input.
pub open spec fn lex(s: Seq<char>) -> Option<Seq<TokenV>>
    decreases s.len(),
    via lex_dec
{
    if s.len() == 0 {
        Some(Seq::empty())
    } else if is_space(s[0]) {
        lex(s.drop_first())
    } else if is_ident_start(s[0]) {
        let n = ident_len(s);
        match lex(s.skip(n)) {
            Some(ts) => Some(seq![TokenV::Ident(s.take(n))] + ts),
            None => None,
        }
    } else if s[0] == ':' {
        match lex(s.drop_first()) {
            Some(ts) => Some(seq![TokenV::Colon] + ts),
            None => None,
        }
    } else if s[0] == ',' {
        match lex(s.drop_first()) {
            Some(ts) => Some(seq![TokenV::Comma] + ts),
            None => None,
        }
    } else if s[0] == '{' {
        match lex(s.drop_first()) {
            Some(ts) => Some(seq![TokenV::LBrace] + ts),
            None => None,
        }
    } else if s[0] == '}' {
        match lex(s.drop_first()) {
            Some(ts) => Some(seq![TokenV::RBrace] + ts),
            None => None,
        }
    } else if s[0] == '=' {
        if s.len() >= 2 && s[1] == '>' {
            match lex(s.skip(2)) {
                Some(ts) => Some(seq![TokenV::FatArrow] + ts),
                None => None,
            }
        } else {
            None
        }
    } else {
        None
    }
}

#[via_fn]
proof fn lex_dec(s: Seq<char>) {
    if s.len() > 0 && !is_space(s[0]) && is_ident_start(s[0]) {
        lemma_ident_len_bounds(s);
        lemma_ident_len_bounds(s.drop_first());
        assert(ident_len(s) >= 1);
    }
}

/// Whether a character can start an identifier.
fn is_ident_start_c(c: char) -> (b: bool)
    ensures
        b == is_ident_start(c),
{
    let u = c as u32;
    (97 <= u && u <= 122) || (65 <= u && u <= 90) || c == '_'
}

/// Whether a character can continue an identifier.
fn is_ident_char_c(c: char) -> (b: bool)
    ensures
        b == is_ident_char(c),
{
    let u = c as u32;
    is_ident_start_c(c) || (48 <= u && u <= 57)
}

/// Whether a character is insignificant whitespace.
fn is_space_c(c: char) -> (b: bool)
    ensures
        b == is_space(c),
{
    c == ' ' || c == '\n' || c == '\t' || c == '\r'
}

/// Tokenizes the machine description; `None` on a character that the
/// grammar has no use for.
pub fn tokenize(input: &str) -> (r: Option<Vec<Token>>)
    ensures
        match r {
            Some(ts) => lex(input@) == Some(ts.deep_view()),
            None => lex(input@) is None,
        },
{
    let cs = str_to_chars(input);
    let mut out: Vec<Token> = Vec::new();
    let mut i: usize = 0;
    proof {
        assert(cs@.skip(0) =~= input@);
        assert(out.deep_view() =~= Seq::<TokenV>::empty());
        match lex(input@) {
            Some(ts2) => {
                assert(out.deep_view() + ts2 =~= ts2);
            },
            None => {},
        }
    }
    loop
        invariant
            i <= cs@.len(),
            cs@ == input@,
            match lex(cs@.skip(i as int)) {
                Some(ts2) => lex(input@) == Some(out.deep_view() + ts2),
                None => lex(input@) is None,
            },
        decreases cs@.len() - i,
    {
        if i == cs.len() {
            proof {
                assert(cs@.skip(i as int).len() == 0);
                assert(lex(cs@.skip(i as int)) == Some(Seq::<TokenV>::empty()));
                assert(out.deep_view() + Seq::<TokenV>::empty() =~= out.deep_view());
            }
            return Some(out);
        }
        let c = cs[i];
        let ghost si = cs@.skip(i as int);
        proof {
            assert(si[0] == cs@[i as int]);
            assert(si.drop_first() =~= cs@.skip(i as int + 1));
        }
        if is_space_c(c) {
            i = i + 1;
        } else if is_ident_start_c(c) {
            let start = i;
            let mut k = i;
            let mut txt = String::new();
            while k < cs.len() && is_ident_char_c(cs[k])
                invariant
                    start <= k <= cs@.len(),
                    k < cs@.len() ==> cs@.skip(k as int)[0] == cs@[k as int],
                    ident_len(cs@.skip(start as int)) == ident_len(cs@.skip(k as int)) + (k
                        - start),
                    txt@ == cs@.subrange(start as int, k as int),
                decreases cs@.len() - k,
            {
                proof {
                    assert(cs@.skip(k as int)[0] == cs@[k as int]);
                    assert(cs@.skip(k as int).drop_first() =~= cs@.skip(k as int + 1));
                    assert(ident_len(cs@.skip(k as int)) == 1 + ident_len(cs@.skip(k as int + 1)));
                    assert(txt@.push(cs@[k as int]) =~= cs@.subrange(start as int, k as int + 1));
                }
                push_char(&mut txt, cs[k]);
                k = k + 1;
            }
            proof {
                if k < cs@.len() {
                    assert(cs@.skip(k as int)[0] == cs@[k as int]);
                    assert(!is_ident_char(cs@.skip(k as int)[0]));
                }
                assert(ident_len(cs@.skip(k as int)) == 0);
                let n = ident_len(si);
                assert(n == k - start);
                assert(si.take(n) =~= cs@.subrange(start as int, k as int));
                assert(si.skip(n) =~= cs@.skip(k as int));
                match lex(cs@.skip(k as int)) {
                    Some(ts2) => {
                        assert(lex(si) == Some(seq![TokenV::Ident(txt@)] + ts2));
                    },
                    None => {},
                }
            }
            let ghost prev_dv = out.deep_view();
            out.push(Token::Ident(txt));
            proof {
                assert(out.deep_view() =~= prev_dv.push(out@[out@.len() - 1].deep_view()));
                match lex(cs@.skip(k as int)) {
                    Some(ts2) => {
                        assert(prev_dv + (seq![TokenV::Ident(txt@)] + ts2) =~= out.deep_view()
                            + ts2);
                    },
                    None => {},
                }
            }
            i = k;
        } else if c == ':' || c == ',' || c == '{' || c == '}' {
            let tok = if c == ':' {
                Token::Colon
            } else if c == ',' {
                Token::Comma
            } else if c == '{' {
                Token::LBrace
            } else {
                Token::RBrace
            };
            let ghost prev_dv = out.deep_view();
            let ghost tv = tok.deep_view();
            out.push(tok);
            proof {
                assert(out.deep_view() =~= prev_dv.push(tv));
                match lex(cs@.skip(i as int + 1)) {
                    Some(ts2) => {
                        assert(lex(si) == Some(seq![tv] + ts2));
                        assert(prev_dv + (seq![tv] + ts2) =~= out.deep_view() + ts2);
                    },
                    None => {},
                }
            }
            i = i + 1;
        } else if c == '=' {
            if i + 1 < cs.len() && cs[i + 1] == '>' {
                proof {
                    assert(si.len() >= 2);
                    assert(si[1] == cs@[i as int + 1]);
                    assert(si.skip(2) =~= cs@.skip(i as int + 2));
                }
                let ghost prev_dv = out.deep_view();
                out.push(Token::FatArrow);
                proof {
                    assert(out.deep_view() =~= prev_dv.push(TokenV::FatArrow));
                    match lex(cs@.skip(i as int + 2)) {
                        Some(ts2) => {
                            assert(lex(si) == Some(seq![TokenV::FatArrow] + ts2));
                            assert(prev_dv + (seq![TokenV::FatArrow] + ts2) =~= out.deep_view()
                                + ts2);
                        },
                        None => {},
                    }
                }
                i = i + 2;
            } else {
                proof {
                    if si.len() >= 2 {
                        assert(si[1] == cs@[i as int + 1]);
                    }
                    assert(lex(si) is None);
                }
                return None;
            }
        } else {
            proof {
                assert(lex(si) is None);
            }
            return None;
        }
    }
}

} // verus!
