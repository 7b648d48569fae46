use vstd::prelude::*;
use crate::tokenizer::{
    chars_of, lexemes, push_char, LexMode, Lexeme, Token, char_at, lex, lex_at, number_char, pair_token, single_char_token,
    white_space, word_char, word_lexeme, word_start,
};

verus! {

/// The text of a token without a payload; empty for the others.
pub open spec fn symbol_text(t: Token) -> Seq<char> {
    match t {
        Token::Plus => seq!['+'],
        Token::Minus => seq!['-'],
        Token::Mul => seq!['*'],
        Token::Div => seq!['/'],
        Token::Mod => seq!['%'],
        Token::LParen => seq!['('],
        Token::RParen => seq![')'],
        Token::LBrace => seq!['{'],
        Token::RBrace => seq!['}'],
        Token::LBracket => seq!['['],
        Token::RBracket => seq![']'],
        Token::Equal => seq!['='],
        Token::EqualEqual => seq!['=', '='],
        Token::Greater => seq!['>'],
        Token::GreaterEqual => seq!['>', '='],
        Token::Less => seq!['<'],
        Token::LessEqual => seq!['<', '='],
        Token::SemiColon => seq![';'],
        Token::Comma => seq![','],
        Token::Ampersand => seq!['&'],
        Token::Arrow => seq!['-', '>'],
        Token::Function => seq!['f', 'n'],
        Token::While => seq!['w', 'h', 'i', 'l', 'e'],
        _ => Seq::empty(),
    }
}

pub open spec fn lexeme_text(l: Lexeme) -> Seq<char> {
    match l {
        Lexeme::Symbol(t) => symbol_text(t),
        Lexeme::Number(w) => w,
        Lexeme::Identifier(w) => w,
    }
}

/// The canonical text of a lexeme sequence: each lexeme followed by a space.
pub open spec fn render(ls: Seq<Lexeme>) -> Seq<char>
    decreases ls.len(),
{
    if ls.len() == 0 {
        Seq::empty()
    } else {
        lexeme_text(ls[0]) + seq![' '] + render(ls.drop_first())
    }
}

/// At most one dot.
pub open spec fn one_dot_at_most(w: Seq<char>) -> bool {
    forall|i: int, j: int| 0 <= i < j < w.len() ==> !(w[i] == '.' && w[j] == '.')
}

/// What the scanner can produce.
pub open spec fn well_formed(l: Lexeme) -> bool {
    match l {
        Lexeme::Symbol(t) => symbol_text(t).len() > 0,
        Lexeme::Number(w) => w.len() > 0 && (forall|i: int| 0 <= i < w.len() ==> number_char(#[trigger] w[i]))
            && one_dot_at_most(w) && w != seq!['.'],
        Lexeme::Identifier(w) => w.len() > 0 && word_start(w[0]) && !white_space(w[0]) && (forall|i: int|
            0 <= i < w.len() ==> word_char(#[trigger] w[i])) && w != "fn"@ && w != "while"@,
    }
}

pub open spec fn all_well_formed(ls: Seq<Lexeme>) -> bool {
    forall|i: int| 0 <= i < ls.len() ==> well_formed(#[trigger] ls[i])
}

/// What holds of the machine's mode while it scans.
pub open spec fn mode_ok(s: Seq<char>, p: int, m: LexMode) -> bool {
    match m {
        LexMode::InNumber { start, dot } => 0 <= start < p && (forall|i: int|
            start <= i < p ==> number_char(#[trigger] s[i])) && one_dot_at_most(s.subrange(start, p))
            && dot == (exists|i: int| start <= i < p && s[i] == '.'),
        LexMode::InWord { start } => 0 <= start < p && word_start(s[start]) && !white_space(s[start])
            && (forall|i: int| start <= i < p ==> word_char(#[trigger] s[i])),
        _ => true,
    }
}

proof fn lemma_keyword_lexemes()
    ensures
        word_lexeme("fn"@) == Lexeme::Symbol(Token::Function),
        word_lexeme("while"@) == Lexeme::Symbol(Token::While),
        "fn"@ == seq!['f', 'n'],
        "while"@ == seq!['w', 'h', 'i', 'l', 'e'],
{
    reveal_strlit("fn");
    reveal_strlit("while");
    assert("fn"@ =~= seq!['f', 'n']);
    assert("while"@ =~= seq!['w', 'h', 'i', 'l', 'e']);
}

/// Everything the scanner produces is well formed.
proof fn lemma_scan_well_formed(s: Seq<char>, p: int, m: LexMode, acc: Seq<Lexeme>)
    requires
        0 <= p <= s.len(),
        all_well_formed(acc),
        mode_ok(s, p, m),
        lex_at(s, p, m, acc) is Ok,
    ensures
        all_well_formed(lex_at(s, p, m, acc)->Ok_0),
    decreases s.len() - p, crate::tokenizer::mode_rank(m),
{
    lemma_keyword_lexemes();
    let c = char_at(s, p);
    match m {
        LexMode::Start => {
            if p < s.len() {
                lemma_scan_well_formed(s, p, LexMode::Scan, acc);
            }
        },
        LexMode::Scan => {
            if p == s.len() {
            } else if white_space(c) {
                lemma_scan_well_formed(s, p + 1, LexMode::Scan, acc);
            } else if single_char_token(c) is Some {
                let l = Lexeme::Symbol(single_char_token(c)->0);
                assert(all_well_formed(acc.push(l)));
                lemma_scan_well_formed(s, p + 1, LexMode::Start, acc.push(l));
            } else if pair_token(c) is Some {
                let (second, one, two) = pair_token(c)->0;
                if char_at(s, p + 1) == second {
                    assert(all_well_formed(acc.push(Lexeme::Symbol(two))));
                    lemma_scan_well_formed(s, p + 2, LexMode::Start, acc.push(Lexeme::Symbol(two)));
                } else {
                    assert(all_well_formed(acc.push(Lexeme::Symbol(one))));
                    lemma_scan_well_formed(s, p + 1, LexMode::Start, acc.push(Lexeme::Symbol(one)));
                }
            } else if number_char(c) {
                let m2 = LexMode::InNumber { start: p, dot: c == '.' };
                assert(mode_ok(s, p + 1, m2)) by {
                    assert(s.subrange(p, p + 1).len() == 1);
                    if c == '.' {
                        assert(s[p] == '.');
                    }
                }
                lemma_scan_well_formed(s, p + 1, m2, acc);
            } else if word_start(c) {
                lemma_scan_well_formed(s, p + 1, LexMode::InWord { start: p }, acc);
            } else {
                lemma_scan_well_formed(s, p + 1, LexMode::Start, acc);
            }
        },
        LexMode::InNumber { start, dot } => {
            if number_char(c) {
                if !(c == '.' && dot) {
                    let m2 = LexMode::InNumber { start, dot: dot || c == '.' };
                    assert(mode_ok(s, p + 1, m2)) by {
                        let w = s.subrange(start, p + 1);
                        assert forall|i: int, j: int| 0 <= i < j < w.len() implies !(w[i] == '.' && w[j] == '.') by {
                            if j < w.len() - 1 {
                                assert(w[i] == s.subrange(start, p)[i] && w[j] == s.subrange(start, p)[j]);
                            } else if w[i] == '.' && w[j] == '.' {
                                assert(s[start + i] == '.');
                            }
                        }
                        if c == '.' {
                            assert(s[p] == '.');
                        }
                    }
                    lemma_scan_well_formed(s, p + 1, m2, acc);
                }
            } else if s.subrange(start, p) != seq!['.'] {
                let w = s.subrange(start, p);
                assert(well_formed(Lexeme::Number(w)));
                assert(all_well_formed(acc.push(Lexeme::Number(w))));
                lemma_scan_well_formed(s, p, LexMode::Start, acc.push(Lexeme::Number(w)));
            }
        },
        LexMode::InWord { start } => {
            if p < s.len() && word_char(c) {
                lemma_scan_well_formed(s, p + 1, LexMode::InWord { start }, acc);
            } else {
                let w = s.subrange(start, p);
                assert(w[0] == s[start]);
                assert(well_formed(word_lexeme(w)));
                assert(all_well_formed(acc.push(word_lexeme(w))));
                lemma_scan_well_formed(s, p, LexMode::Start, acc.push(word_lexeme(w)));
            }
        },
    }
}

/// A space between tokens is skipped.
proof fn lemma_space(s: Seq<char>, q: int, acc: Seq<Lexeme>)
    requires
        0 <= q < s.len(),
        s[q] == ' ',
    ensures
        lex_at(s, q, LexMode::Start, acc) == lex_at(s, q + 1, LexMode::Scan, acc),
{
    assert(lex_at(s, q, LexMode::Start, acc) == lex_at(s, q, LexMode::Scan, acc));
}

/// The rest of a word is read up to the first character that cannot be in one.
proof fn lemma_word_run(s: Seq<char>, start: int, p: int, end: int, acc: Seq<Lexeme>)
    requires
        0 <= start < p <= end < s.len(),
        forall|i: int| start <= i < end ==> word_char(#[trigger] s[i]),
        !word_char(s[end]),
    ensures
        lex_at(s, p, LexMode::InWord { start }, acc) == lex_at(
            s,
            end,
            LexMode::Start,
            acc.push(word_lexeme(s.subrange(start, end))),
        ),
    decreases end - p,
{
    if p < end {
        lemma_word_run(s, start, p + 1, end, acc);
    }
}

/// The rest of a number is read up to the first character that cannot be in one.
proof fn lemma_number_run(s: Seq<char>, start: int, p: int, end: int, dot: bool, acc: Seq<Lexeme>)
    requires
        0 <= start < p <= end < s.len(),
        forall|i: int| start <= i < end ==> number_char(#[trigger] s[i]),
        one_dot_at_most(s.subrange(start, end)),
        dot == (exists|i: int| start <= i < p && s[i] == '.'),
        !number_char(s[end]),
        s.subrange(start, end) != seq!['.'],
    ensures
        lex_at(s, p, LexMode::InNumber { start, dot }, acc) == lex_at(
            s,
            end,
            LexMode::Start,
            acc.push(Lexeme::Number(s.subrange(start, end))),
        ),
    decreases end - p,
{
    if p < end {
        let w = s.subrange(start, end);
        if s[p] == '.' && dot {
            let i = choose|i: int| start <= i < p && s[i] == '.';
            assert(w[i - start] == '.' && w[p - start] == '.');
        }
        let dot2 = dot || s[p] == '.';
        assert(dot2 == (exists|i: int| start <= i < p + 1 && s[i] == '.')) by {
            if s[p] == '.' {
                assert(start <= p < p + 1 && s[p] == '.');
            }
        }
        lemma_number_run(s, start, p + 1, end, dot2, acc);
    }
}

/// One well-formed lexeme and the space after it are read back as that lexeme.
proof fn lemma_read_one(s: Seq<char>, p: int, l: Lexeme, acc: Seq<Lexeme>)
    requires
        well_formed(l),
        0 <= p,
        p + lexeme_text(l).len() < s.len(),
        forall|i: int| 0 <= i < lexeme_text(l).len() ==> s[p + i] == #[trigger] lexeme_text(l)[i],
        s[p + lexeme_text(l).len()] == ' ',
    ensures
        lex_at(s, p, LexMode::Scan, acc) == lex_at(s, p + lexeme_text(l).len() + 1, LexMode::Scan, acc.push(l)),
{
    lemma_keyword_lexemes();
    let t = lexeme_text(l);
    let n = t.len() as int;
    let end = p + n;
    assert(s[p] == t[0]);
    lemma_space(s, end, acc.push(l));
    match l {
        Lexeme::Number(w) => {
            assert(s.subrange(p, end) =~= w);
            assert forall|i: int| p <= i < end implies number_char(#[trigger] s[i]) by {
                assert(s[p + (i - p)] == t[i - p]);
            }
            let dot = s[p] == '.';
            assert(dot == (exists|i: int| p <= i < p + 1 && s[i] == '.'));
            assert(lex_at(s, p, LexMode::Scan, acc) == lex_at(s, p + 1, LexMode::InNumber { start: p, dot }, acc));
            lemma_number_run(s, p, p + 1, end, dot, acc);
        },
        Lexeme::Identifier(w) => {
            assert(s.subrange(p, end) =~= w);
            assert forall|i: int| p <= i < end implies word_char(#[trigger] s[i]) by {
                assert(s[p + (i - p)] == t[i - p]);
            }
            assert(lex_at(s, p, LexMode::Scan, acc) == lex_at(s, p + 1, LexMode::InWord { start: p }, acc));
            lemma_word_run(s, p, p + 1, end, acc);
        },
        Lexeme::Symbol(tok) => {
            if tok is Function || tok is While {
                assert(s.subrange(p, end) =~= t);
                assert forall|i: int| p <= i < end implies word_char(#[trigger] s[i]) by {
                    assert(s[p + (i - p)] == t[i - p]);
                }
                assert(lex_at(s, p, LexMode::Scan, acc) == lex_at(s, p + 1, LexMode::InWord { start: p }, acc));
                lemma_word_run(s, p, p + 1, end, acc);
            } else {
                if n == 2 {
                    assert(s[p + 1] == t[1]);
                }
                assert(lex_at(s, p, LexMode::Scan, acc) == lex_at(s, end, LexMode::Start, acc.push(l)));
            }
        },
    }
}

/// Reading the canonical text of well-formed lexemes gives them back.
proof fn lemma_read_rendering(s: Seq<char>, p: int, ls: Seq<Lexeme>, acc: Seq<Lexeme>)
    requires
        0 <= p <= s.len(),
        s.subrange(p, s.len() as int) == render(ls),
        all_well_formed(ls),
    ensures
        lex_at(s, p, LexMode::Scan, acc) == Ok::<Seq<Lexeme>, crate::tokenizer::LexError>(acc + ls),
    decreases ls.len(),
{
    if ls.len() == 0 {
        assert(s.subrange(p, s.len() as int).len() == 0);
        assert(acc + ls =~= acc);
    } else {
        let l = ls[0];
        let t = lexeme_text(l);
        let n = t.len() as int;
        let rest = ls.drop_first();
        let r = s.subrange(p, s.len() as int);
        assert(well_formed(l));
        assert(r == t + seq![' '] + render(rest));
        assert forall|i: int| 0 <= i < n implies s[p + i] == #[trigger] t[i] by {
            assert(r[i] == s[p + i]);
            assert(r[i] == t[i]);
        }
        assert(r[n] == ' ');
        assert(s.subrange(p + n + 1, s.len() as int) =~= render(rest)) by {
            assert(r.subrange(n + 1, r.len() as int) =~= render(rest));
        }
        lemma_read_one(s, p, l, acc);
        assert(all_well_formed(rest)) by {
            assert forall|i: int| 0 <= i < rest.len() implies well_formed(#[trigger] rest[i]) by {
                assert(rest[i] == ls[i + 1]);
            }
        }
        lemma_read_rendering(s, p + n + 1, rest, acc.push(l));
        assert(acc.push(l) + rest =~= acc + ls);
    }
}

/// Scanning is deterministic on its own output: the canonical text of what a
/// source scans to scans back to the same lexemes.
pub proof fn rescan_rendering(s: Seq<char>)
    requires
        lex(s) is Ok,
    ensures
        lex(render(lex(s)->Ok_0)) == lex(s),
{
    let ls = lex(s)->Ok_0;
    lemma_scan_well_formed(s, 0, LexMode::Start, Seq::empty());
    let r = render(ls);
    assert(r.subrange(0, r.len() as int) =~= r);
    lemma_read_rendering(r, 0, ls, Seq::empty());
    assert(Seq::<Lexeme>::empty() + ls =~= ls);
    assert(lex_at(r, 0, LexMode::Start, Seq::empty()) == lex_at(r, 0, LexMode::Scan, Seq::empty()));
}

/// Appending a lexeme renders it after the others.
proof fn lemma_render_push(ls: Seq<Lexeme>, l: Lexeme)
    ensures
        render(ls.push(l)) == render(ls) + lexeme_text(l) + seq![' '],
    decreases ls.len(),
{
    if ls.len() == 0 {
        assert(ls.push(l).drop_first() =~= Seq::<Lexeme>::empty());
        assert(render(ls.push(l).drop_first()) == Seq::<char>::empty());
        assert(ls.push(l)[0] == l);
        assert(render(ls) == Seq::<char>::empty());
        assert(render(ls.push(l)) =~= render(ls) + lexeme_text(l) + seq![' ']);
    } else {
        let h = lexeme_text(ls[0]) + seq![' '];
        assert(ls.push(l).drop_first() =~= ls.drop_first().push(l));
        assert(ls.push(l)[0] == ls[0]);
        lemma_render_push(ls.drop_first(), l);
        assert(render(ls.push(l)) == h + render(ls.drop_first().push(l)));
        assert(render(ls) == h + render(ls.drop_first()));
        assert(render(ls.push(l)) =~= render(ls) + lexeme_text(l) + seq![' ']);
    }
}

fn push_str(out: &mut String, text: &String)
    ensures
        final(out)@ == old(out)@ + text@,
{
    let cs = chars_of(text.as_str());
    let mut i: usize = 0;
    while i < cs.len()
        invariant
            i <= cs@.len(),
            cs@ == text@,
            out@ == old(out)@ + cs@.subrange(0, i as int),
        decreases cs@.len() - i,
    {
        push_char(out, cs[i]);
        i = i + 1;
        assert(out@ =~= old(out)@ + cs@.subrange(0, i as int));
    }
    assert(cs@.subrange(0, cs@.len() as int) =~= cs@);
}

fn push_token(out: &mut String, t: &Token)
    ensures
        final(out)@ == old(out)@ + lexeme_text(t.lexeme()),
{
    let ghost before = out@;
    match t {
        Token::Plus => {
            push_char(out, '+');
        },
        Token::Minus => {
            push_char(out, '-');
        },
        Token::Mul => {
            push_char(out, '*');
        },
        Token::Div => {
            push_char(out, '/');
        },
        Token::Mod => {
            push_char(out, '%');
        },
        Token::LParen => {
            push_char(out, '(');
        },
        Token::RParen => {
            push_char(out, ')');
        },
        Token::LBrace => {
            push_char(out, '{');
        },
        Token::RBrace => {
            push_char(out, '}');
        },
        Token::LBracket => {
            push_char(out, '[');
        },
        Token::RBracket => {
            push_char(out, ']');
        },
        Token::Equal => {
            push_char(out, '=');
        },
        Token::EqualEqual => {
            push_char(out, '='); push_char(out, '=');
        },
        Token::Greater => {
            push_char(out, '>');
        },
        Token::GreaterEqual => {
            push_char(out, '>'); push_char(out, '=');
        },
        Token::Less => {
            push_char(out, '<');
        },
        Token::LessEqual => {
            push_char(out, '<'); push_char(out, '=');
        },
        Token::SemiColon => {
            push_char(out, ';');
        },
        Token::Comma => {
            push_char(out, ',');
        },
        Token::Ampersand => {
            push_char(out, '&');
        },
        Token::Arrow => {
            push_char(out, '-'); push_char(out, '>');
        },
        Token::Function => {
            push_char(out, 'f'); push_char(out, 'n');
        },
        Token::While => {
            push_char(out, 'w'); push_char(out, 'h'); push_char(out, 'i'); push_char(out, 'l'); push_char(out, 'e');
        },
        Token::Number(text) => {
            push_str(out, text);
        },
        Token::Identifier(name) => {
            push_str(out, name);
        },
        Token::Invalid => {},
    }
    assert(out@ =~= before + lexeme_text(t.lexeme()));
}

/// The canonical text of a token sequence: each token's text followed by a
/// space.
pub fn render_tokens(ts: &Vec<Token>) -> (r: String)
    ensures
        r@ == render(lexemes(ts@)),
{
    let mut out = String::new();
    let mut i: usize = 0;
    while i < ts.len()
        invariant
            i <= ts@.len(),
            out@ == render(lexemes(ts@.subrange(0, i as int))),
        decreases ts@.len() - i,
    {
        let ghost prefix = lexemes(ts@.subrange(0, i as int));
        push_token(&mut out, &ts[i]);
        push_char(&mut out, ' ');
        proof {
            assert(lexemes(ts@.subrange(0, i + 1)) =~= prefix.push(ts@[i as int].lexeme()));
            lemma_render_push(prefix, ts@[i as int].lexeme());
        }
        i = i + 1;
    }
    assert(ts@.subrange(0, ts@.len() as int) =~= ts@);
    out
}

} // verus!
