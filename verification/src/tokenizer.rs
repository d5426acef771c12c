//! The tokenizer: scans a character sequence left to right, with one
//! character of lookahead, and produces a sequence of delimiter and text
//! tokens. Adjacent literal characters are coalesced into a single text
//! token, so the output never holds two text tokens in a row.

use vstd::prelude::*;

verus! {

/// A unit of the token stream: a zero-width delimiter marker, or a run of
/// literal characters.
#[derive(Eq, PartialEq, Debug)]
pub enum Token {
    Bold,
    Italic,
    BoldOrItalic,
    Strikethrough,
    Spoiler,
    Text(String),
}

/// The mathematical counterpart of `Token`: the text run is a sequence of
/// characters.
pub enum SpecToken {
    Bold,
    Italic,
    BoldOrItalic,
    Strikethrough,
    Spoiler,
    Text(Seq<char>),
}

impl View for Token {
    type V = SpecToken;

    open spec fn view(&self) -> SpecToken {
        match self {
            Token::Bold => SpecToken::Bold,
            Token::Italic => SpecToken::Italic,
            Token::BoldOrItalic => SpecToken::BoldOrItalic,
            Token::Strikethrough => SpecToken::Strikethrough,
            Token::Spoiler => SpecToken::Spoiler,
            Token::Text(text) => SpecToken::Text(text@),
        }
    }
}

/// The view of a token sequence, element by element.
pub open spec fn view_tokens(tokens: Seq<Token>) -> Seq<SpecToken> {
    tokens.map_values(|t: Token| t@)
}

/// Appending one literal character to a token sequence: it extends a text
/// token that is open at the end, and otherwise starts a new one.
pub open spec fn spec_add_text(acc: Seq<SpecToken>, c: char) -> Seq<SpecToken> {
    if acc.len() > 0 && acc.last() is Text {
        acc.update(acc.len() - 1, SpecToken::Text(acc.last()->Text_0.push(c)))
    } else {
        acc.push(SpecToken::Text(seq![c]))
    }
}

/// One step of tokenization per call, from the front of `s`: a `*` opens an
/// italic, bold, or bold-or-italic delimiter depending on how many `*` follow;
/// `~~` and `||` are delimiters while a lone `~` or `|` is literal text; any
/// other character is literal text.
pub open spec fn spec_tokenize_from(s: Seq<char>, acc: Seq<SpecToken>) -> Seq<SpecToken>
    decreases s.len(),
{
    if s.len() == 0 {
        acc
    } else if s[0] == '*' {
        if s.len() >= 2 && s[1] == '*' {
            if s.len() >= 3 && s[2] == '*' {
                spec_tokenize_from(s.skip(3), acc.push(SpecToken::BoldOrItalic))
            } else {
                spec_tokenize_from(s.skip(2), acc.push(SpecToken::Bold))
            }
        } else {
            spec_tokenize_from(s.skip(1), acc.push(SpecToken::Italic))
        }
    } else if s[0] == '~' {
        if s.len() >= 2 && s[1] == '~' {
            spec_tokenize_from(s.skip(2), acc.push(SpecToken::Strikethrough))
        } else {
            spec_tokenize_from(s.skip(1), spec_add_text(acc, '~'))
        }
    } else if s[0] == '|' {
        if s.len() >= 2 && s[1] == '|' {
            spec_tokenize_from(s.skip(2), acc.push(SpecToken::Spoiler))
        } else {
            spec_tokenize_from(s.skip(1), spec_add_text(acc, '|'))
        }
    } else {
        spec_tokenize_from(s.skip(1), spec_add_text(acc, s[0]))
    }
}

/// The tokenization of a whole character sequence.
pub open spec fn spec_tokenize(s: Seq<char>) -> Seq<SpecToken> {
    spec_tokenize_from(s, Seq::empty())
}

proof fn lemma_view_tokens_push(tokens: Seq<Token>, t: Token)
    ensures
        view_tokens(tokens.push(t)) == view_tokens(tokens).push(t@),
{
    assert(view_tokens(tokens.push(t)) =~= view_tokens(tokens).push(t@));
}

/// Relies on String::push: appends the given character to the end of the
/// string.
#[verifier::external_body]
fn push_char(s: &mut String, c: char)
    ensures
        final(s)@ == old(s)@.push(c),
{
    s.push(c)
}

/// Appends one literal character to the token stream, coalescing it with a
/// trailing text token when there is one.
pub fn add_to_text(tokens: &mut Vec<Token>, ch: char)
    ensures
        view_tokens(final(tokens)@) == spec_add_text(view_tokens(old(tokens)@), ch),
{
    match tokens.pop() {
        Some(Token::Text(mut text)) => {
            push_char(&mut text, ch);
            tokens.push(Token::Text(text));
            proof {
                assert(view_tokens(final(tokens)@) =~~= spec_add_text(
                    view_tokens(old(tokens)@),
                    ch,
                ));
            }
        }
        Some(other) => {
            tokens.push(other);
            let mut text = String::new();
            push_char(&mut text, ch);
            tokens.push(Token::Text(text));
            proof {
                assert(view_tokens(final(tokens)@) =~~= spec_add_text(
                    view_tokens(old(tokens)@),
                    ch,
                ));
            }
        }
        None => {
            let mut text = String::new();
            push_char(&mut text, ch);
            tokens.push(Token::Text(text));
            proof {
                assert(view_tokens(final(tokens)@) =~~= spec_add_text(
                    view_tokens(old(tokens)@),
                    ch,
                ));
            }
        }
    }
}

/// Scans the characters left to right, with one character of lookahead, and
/// returns the token sequence: every character either becomes part of a text
/// run or is consumed by a delimiter marker.
pub fn tokenize(chars: &Vec<char>) -> (tokens: Vec<Token>)
    ensures
        view_tokens(tokens@) == spec_tokenize(chars@),
{
    let mut tokens: Vec<Token> = Vec::new();
    let mut i: usize = 0;
    proof {
        assert(chars@.skip(0) =~= chars@);
        assert(view_tokens(tokens@) =~= Seq::<SpecToken>::empty());
    }
    while i < chars.len()
        invariant
            i <= chars@.len(),
            spec_tokenize(chars@) == spec_tokenize_from(
                chars@.skip(i as int),
                view_tokens(tokens@),
            ),
        decreases chars@.len() - i,
    {
        let ghost s = chars@.skip(i as int);
        let ghost acc = view_tokens(tokens@);
        let ghost pre = tokens@;
        let c = chars[i];
        proof {
            assert(s[0] == c);
        }
        if c == '*' {
            if i + 1 < chars.len() && chars[i + 1] == '*' {
                if i + 2 < chars.len() && chars[i + 2] == '*' {
                    tokens.push(Token::BoldOrItalic);
                    i = i + 3;
                    proof {
                        lemma_view_tokens_push(pre, Token::BoldOrItalic);
                        assert(chars@.skip(i as int) =~= s.skip(3));
                        assert(spec_tokenize_from(s, acc) == spec_tokenize_from(
                            s.skip(3),
                            acc.push(SpecToken::BoldOrItalic),
                        ));
                    }
                } else {
                    tokens.push(Token::Bold);
                    i = i + 2;
                    proof {
                        lemma_view_tokens_push(pre, Token::Bold);
                        assert(chars@.skip(i as int) =~= s.skip(2));
                        assert(spec_tokenize_from(s, acc) == spec_tokenize_from(
                            s.skip(2),
                            acc.push(SpecToken::Bold),
                        ));
                    }
                }
            } else {
                tokens.push(Token::Italic);
                i = i + 1;
                proof {
                    lemma_view_tokens_push(pre, Token::Italic);
                    assert(chars@.skip(i as int) =~= s.skip(1));
                    assert(spec_tokenize_from(s, acc) == spec_tokenize_from(
                        s.skip(1),
                        acc.push(SpecToken::Italic),
                    ));
                }
            }
        } else if c == '~' {
            if i + 1 < chars.len() && chars[i + 1] == '~' {
                tokens.push(Token::Strikethrough);
                i = i + 2;
                proof {
                    lemma_view_tokens_push(pre, Token::Strikethrough);
                    assert(chars@.skip(i as int) =~= s.skip(2));
                    assert(spec_tokenize_from(s, acc) == spec_tokenize_from(
                        s.skip(2),
                        acc.push(SpecToken::Strikethrough),
                    ));
                }
            } else {
                add_to_text(&mut tokens, '~');
                i = i + 1;
                proof {
                    assert(chars@.skip(i as int) =~= s.skip(1));
                    assert(spec_tokenize_from(s, acc) == spec_tokenize_from(
                        s.skip(1),
                        spec_add_text(acc, '~'),
                    ));
                }
            }
        } else if c == '|' {
            if i + 1 < chars.len() && chars[i + 1] == '|' {
                tokens.push(Token::Spoiler);
                i = i + 2;
                proof {
                    lemma_view_tokens_push(pre, Token::Spoiler);
                    assert(chars@.skip(i as int) =~= s.skip(2));
                    assert(spec_tokenize_from(s, acc) == spec_tokenize_from(
                        s.skip(2),
                        acc.push(SpecToken::Spoiler),
                    ));
                }
            } else {
                add_to_text(&mut tokens, '|');
                i = i + 1;
                proof {
                    assert(chars@.skip(i as int) =~= s.skip(1));
                    assert(spec_tokenize_from(s, acc) == spec_tokenize_from(
                        s.skip(1),
                        spec_add_text(acc, '|'),
                    ));
                }
            }
        } else {
            add_to_text(&mut tokens, c);
            i = i + 1;
            proof {
                assert(chars@.skip(i as int) =~= s.skip(1));
                assert(spec_tokenize_from(s, acc) == spec_tokenize_from(
                    s.skip(1),
                    spec_add_text(acc, c),
                ));
            }
        }
    }
    proof {
        assert(chars@.skip(i as int) =~= Seq::<char>::empty());
    }
    tokens
}

/// No two adjacent text tokens anywhere in the sequence.
pub open spec fn no_adjacent_text(ts: Seq<SpecToken>) -> bool {
    forall|i: int| 0 <= i < ts.len() - 1 ==> !((#[trigger] ts[i]) is Text && ts[i + 1] is Text)
}

proof fn lemma_push_nontext_coalesced(acc: Seq<SpecToken>, t: SpecToken)
    requires
        no_adjacent_text(acc),
        !(t is Text),
    ensures
        no_adjacent_text(acc.push(t)),
{
    let r = acc.push(t);
    assert forall|i: int| 0 <= i < r.len() - 1 implies !((#[trigger] r[i]) is Text && r[i + 1] is Text) by {
        if i + 1 < acc.len() {
            assert(r[i] == acc[i] && r[i + 1] == acc[i + 1]);
        } else {
            assert(r[i + 1] == t);
        }
    }
}

proof fn lemma_add_text_coalesced(acc: Seq<SpecToken>, c: char)
    requires
        no_adjacent_text(acc),
    ensures
        no_adjacent_text(spec_add_text(acc, c)),
{
    let r = spec_add_text(acc, c);
    if acc.len() > 0 && acc.last() is Text {
        assert forall|i: int| 0 <= i < r.len() - 1 implies !((#[trigger] r[i]) is Text && r[i + 1] is Text) by {
            assert(r[i] == acc[i]);
            if i + 1 < r.len() - 1 {
                assert(r[i + 1] == acc[i + 1]);
            } else {
                assert(!(acc[i] is Text && acc[i + 1] is Text));
            }
        }
    } else {
        assert forall|i: int| 0 <= i < r.len() - 1 implies !((#[trigger] r[i]) is Text && r[i + 1] is Text) by {
            assert(r[i] == acc[i]);
            if i + 1 < acc.len() {
                assert(r[i + 1] == acc[i + 1]);
            } else {
                assert(!(acc.last() is Text));
            }
        }
    }
}

proof fn lemma_tokenize_from_coalesced(s: Seq<char>, acc: Seq<SpecToken>)
    requires
        no_adjacent_text(acc),
    ensures
        no_adjacent_text(spec_tokenize_from(s, acc)),
    decreases s.len(),
{
    if s.len() == 0 {
    } else if s[0] == '*' {
        if s.len() >= 2 && s[1] == '*' {
            if s.len() >= 3 && s[2] == '*' {
                lemma_push_nontext_coalesced(acc, SpecToken::BoldOrItalic);
                lemma_tokenize_from_coalesced(s.skip(3), acc.push(SpecToken::BoldOrItalic));
            } else {
                lemma_push_nontext_coalesced(acc, SpecToken::Bold);
                lemma_tokenize_from_coalesced(s.skip(2), acc.push(SpecToken::Bold));
            }
        } else {
            lemma_push_nontext_coalesced(acc, SpecToken::Italic);
            lemma_tokenize_from_coalesced(s.skip(1), acc.push(SpecToken::Italic));
        }
    } else if s[0] == '~' {
        if s.len() >= 2 && s[1] == '~' {
            lemma_push_nontext_coalesced(acc, SpecToken::Strikethrough);
            lemma_tokenize_from_coalesced(s.skip(2), acc.push(SpecToken::Strikethrough));
        } else {
            lemma_add_text_coalesced(acc, '~');
            lemma_tokenize_from_coalesced(s.skip(1), spec_add_text(acc, '~'));
        }
    } else if s[0] == '|' {
        if s.len() >= 2 && s[1] == '|' {
            lemma_push_nontext_coalesced(acc, SpecToken::Spoiler);
            lemma_tokenize_from_coalesced(s.skip(2), acc.push(SpecToken::Spoiler));
        } else {
            lemma_add_text_coalesced(acc, '|');
            lemma_tokenize_from_coalesced(s.skip(1), spec_add_text(acc, '|'));
        }
    } else {
        lemma_add_text_coalesced(acc, s[0]);
        lemma_tokenize_from_coalesced(s.skip(1), spec_add_text(acc, s[0]));
    }
}

/// Coalescing invariant: for every input, the tokenizer's output never holds
/// two adjacent text tokens.
pub proof fn lemma_tokenize_coalesced(s: Seq<char>)
    ensures
        no_adjacent_text(spec_tokenize(s)),
{
    lemma_tokenize_from_coalesced(s, Seq::empty());
}

/// The characters that a token stands for in the raw input.
pub open spec fn token_chars(t: SpecToken) -> Seq<char> {
    match t {
        SpecToken::Bold => seq!['*', '*'],
        SpecToken::Italic => seq!['*'],
        SpecToken::BoldOrItalic => seq!['*', '*', '*'],
        SpecToken::Strikethrough => seq!['~', '~'],
        SpecToken::Spoiler => seq!['|', '|'],
        SpecToken::Text(text) => text,
    }
}

/// The concatenated characters of a whole token sequence.
pub open spec fn tokens_chars(ts: Seq<SpecToken>) -> Seq<char>
    decreases ts.len(),
{
    if ts.len() == 0 {
        Seq::empty()
    } else {
        tokens_chars(ts.drop_last()) + token_chars(ts.last())
    }
}

proof fn lemma_tokens_chars_push(ts: Seq<SpecToken>, t: SpecToken)
    ensures
        tokens_chars(ts.push(t)) == tokens_chars(ts) + token_chars(t),
{
    assert(ts.push(t).drop_last() =~= ts);
    assert(ts.push(t).last() == t);
}

proof fn lemma_tokens_chars_add_text(acc: Seq<SpecToken>, c: char)
    ensures
        tokens_chars(spec_add_text(acc, c)) == tokens_chars(acc).push(c),
{
    if acc.len() > 0 && acc.last() is Text {
        let r = acc.update(acc.len() - 1, SpecToken::Text(acc.last()->Text_0.push(c)));
        assert(r.drop_last() =~= acc.drop_last());
        assert(r.last() == SpecToken::Text(acc.last()->Text_0.push(c)));
        assert(tokens_chars(acc.drop_last()) + acc.last()->Text_0.push(c) =~= (tokens_chars(
            acc.drop_last(),
        ) + acc.last()->Text_0).push(c));
    } else {
        lemma_tokens_chars_push(acc, SpecToken::Text(seq![c]));
        assert(tokens_chars(acc) + seq![c] =~= tokens_chars(acc).push(c));
    }
}

proof fn lemma_tokenize_from_chars(s: Seq<char>, acc: Seq<SpecToken>)
    ensures
        tokens_chars(spec_tokenize_from(s, acc)) == tokens_chars(acc) + s,
    decreases s.len(),
{
    if s.len() == 0 {
        assert(tokens_chars(acc) + s =~= tokens_chars(acc));
    } else if s[0] == '*' {
        if s.len() >= 2 && s[1] == '*' {
            if s.len() >= 3 && s[2] == '*' {
                lemma_tokens_chars_push(acc, SpecToken::BoldOrItalic);
                lemma_tokenize_from_chars(s.skip(3), acc.push(SpecToken::BoldOrItalic));
                assert(tokens_chars(acc) + seq!['*', '*', '*'] + s.skip(3) =~= tokens_chars(acc)
                    + s);
            } else {
                lemma_tokens_chars_push(acc, SpecToken::Bold);
                lemma_tokenize_from_chars(s.skip(2), acc.push(SpecToken::Bold));
                assert(tokens_chars(acc) + seq!['*', '*'] + s.skip(2) =~= tokens_chars(acc) + s);
            }
        } else {
            lemma_tokens_chars_push(acc, SpecToken::Italic);
            lemma_tokenize_from_chars(s.skip(1), acc.push(SpecToken::Italic));
            assert(tokens_chars(acc) + seq!['*'] + s.skip(1) =~= tokens_chars(acc) + s);
        }
    } else if s[0] == '~' && s.len() >= 2 && s[1] == '~' {
        lemma_tokens_chars_push(acc, SpecToken::Strikethrough);
        lemma_tokenize_from_chars(s.skip(2), acc.push(SpecToken::Strikethrough));
        assert(tokens_chars(acc) + seq!['~', '~'] + s.skip(2) =~= tokens_chars(acc) + s);
    } else if s[0] == '|' && s.len() >= 2 && s[1] == '|' {
        lemma_tokens_chars_push(acc, SpecToken::Spoiler);
        lemma_tokenize_from_chars(s.skip(2), acc.push(SpecToken::Spoiler));
        assert(tokens_chars(acc) + seq!['|', '|'] + s.skip(2) =~= tokens_chars(acc) + s);
    } else {
        lemma_tokens_chars_add_text(acc, s[0]);
        lemma_tokenize_from_chars(s.skip(1), spec_add_text(acc, s[0]));
        assert(tokens_chars(acc).push(s[0]) + s.skip(1) =~= tokens_chars(acc) + s);
    }
}

/// Total tokenization round trip: every character sequence tokenizes, and the
/// concatenated literal content and delimiter markers of the tokens
/// reconstruct the original input.
pub proof fn lemma_tokenize_round_trip(s: Seq<char>)
    ensures
        tokens_chars(spec_tokenize(s)) == s,
{
    lemma_tokenize_from_chars(s, Seq::empty());
    assert(tokens_chars(Seq::<SpecToken>::empty()) + s =~= s);
}

/// No two adjacent occurrences of the character anywhere in the input: every
/// occurrence is a lone one.
pub open spec fn no_double_char(s: Seq<char>, c: char) -> bool {
    forall|i: int| 0 <= i < s.len() - 1 ==> !(#[trigger] s[i] == c && s[i + 1] == c)
}

/// No occurrence of the token anywhere in the sequence.
pub open spec fn no_token(ts: Seq<SpecToken>, t: SpecToken) -> bool {
    forall|i: int| 0 <= i < ts.len() ==> #[trigger] ts[i] != t
}

proof fn lemma_add_text_no_token(acc: Seq<SpecToken>, c: char, t: SpecToken)
    requires
        no_token(acc, t),
        !(t is Text),
    ensures
        no_token(spec_add_text(acc, c), t),
{
    let r = spec_add_text(acc, c);
    assert forall|i: int| 0 <= i < r.len() implies r[i] != t by {
        if i < acc.len() - 1 {
            assert(r[i] == acc[i]);
        }
    }
}

proof fn lemma_lone_from(s: Seq<char>, acc: Seq<SpecToken>, c: char, t: SpecToken)
    requires
        (c == '~' && t == SpecToken::Strikethrough) || (c == '|' && t == SpecToken::Spoiler),
        no_double_char(s, c),
        no_token(acc, t),
    ensures
        no_token(spec_tokenize_from(s, acc), t),
    decreases s.len(),
{
    if s.len() == 0 {
    } else {
        let k: int = if s[0] == '*' {
            if s.len() >= 2 && s[1] == '*' {
                if s.len() >= 3 && s[2] == '*' {
                    3
                } else {
                    2
                }
            } else {
                1
            }
        } else if s[0] == '~' && s.len() >= 2 && s[1] == '~' {
            2
        } else if s[0] == '|' && s.len() >= 2 && s[1] == '|' {
            2
        } else {
            1
        };
        assert(!(s[0] == c && s.len() >= 2 && s[1] == c));
        let acc2 = if s[0] == '*' {
            if s.len() >= 2 && s[1] == '*' {
                if s.len() >= 3 && s[2] == '*' {
                    acc.push(SpecToken::BoldOrItalic)
                } else {
                    acc.push(SpecToken::Bold)
                }
            } else {
                acc.push(SpecToken::Italic)
            }
        } else if s[0] == '~' && s.len() >= 2 && s[1] == '~' {
            acc.push(SpecToken::Strikethrough)
        } else if s[0] == '|' && s.len() >= 2 && s[1] == '|' {
            acc.push(SpecToken::Spoiler)
        } else {
            spec_add_text(acc, s[0])
        };
        if s[0] == '*' || (s[0] == '~' && s.len() >= 2 && s[1] == '~') || (s[0] == '|' && s.len()
            >= 2 && s[1] == '|') {
            let pushed = acc2.last();
            assert(pushed != t);
            assert forall|i: int| 0 <= i < acc2.len() implies acc2[i] != t by {
                if i < acc.len() {
                    assert(acc2[i] == acc[i]);
                }
            }
        } else {
            lemma_add_text_no_token(acc, s[0], t);
        }
        assert forall|i: int| 0 <= i < s.skip(k).len() - 1 implies !(#[trigger] s.skip(k)[i] == c
            && s.skip(k)[i + 1] == c) by {
            assert(s.skip(k)[i] == s[i + k]);
            assert(s.skip(k)[i + 1] == s[i + k + 1]);
        }
        lemma_lone_from(s.skip(k), acc2, c, t);
    }
}

/// A lone tilde never yields a strikethrough delimiter token: where no two
/// tildes stand side by side, the token stream holds no strikethrough token.
pub proof fn lemma_lone_tilde(s: Seq<char>)
    requires
        no_double_char(s, '~'),
    ensures
        no_token(spec_tokenize(s), SpecToken::Strikethrough),
{
    lemma_lone_from(s, Seq::empty(), '~', SpecToken::Strikethrough);
}

/// A lone pipe never yields a spoiler delimiter token: where no two pipes
/// stand side by side, the token stream holds no spoiler token.
pub proof fn lemma_lone_pipe(s: Seq<char>)
    requires
        no_double_char(s, '|'),
    ensures
        no_token(spec_tokenize(s), SpecToken::Spoiler),
{
    lemma_lone_from(s, Seq::empty(), '|', SpecToken::Spoiler);
}

} // verus!
