//! Laws of the token grammar: what holds of the tokens of every source text.

use vstd::prelude::*;

use crate::chars::{is_name_char, CharClass};
use crate::scan::{
    classified, command_len, head_token, lemma_first_token_bound,
    lemma_run_len_bound, lemma_run_len_is, lemma_tokens_unfold, run_len, tokens_of, };
use crate::token::{classification, CommandName, Token};

verus! {

/// The classification of a command depends on its text alone: whatever
/// commands are declared, a command token is classified by the name that
/// follows its backslash.
pub proof fn law_classification_by_name(s: Seq<char>, names: Set<Seq<char>>)
    requires
        s.len() > 0,
    ensures
        head_token(s, names).0 is CommandName ==> head_token(s, names).0 == Token::CommandName(
            classification(head_token(s, names).1.skip(1)),
        ),
{
}

/// The token with the text `\begin` is always the start of an environment,
/// whatever commands are declared.
pub proof fn law_begin_is_stable(s: Seq<char>, names: Set<Seq<char>>)
    requires
        s.len() > 0,
        head_token(s, names).1 == "\\begin"@,
    ensures
        head_token(s, names).0 == Token::CommandName(CommandName::BeginEnvironment),
{
    reveal_strlit("\\begin");
    reveal_strlit("begin");
    let text = head_token(s, names).1;
    lemma_first_token_bound(s, names);
    assert(text[0] == s[0]);
    assert(text[1] == s[1]);
    assert(text.skip(1) =~= "begin"@);
}

/// A text that starts with `\begin`, with neither a letter, an `@` nor a star
/// after it, starts with the token `\begin`.
pub proof fn law_begin_is_lexed(s: Seq<char>, names: Set<Seq<char>>)
    requires
        s.len() >= 6,
        s.take(6) == "\\begin"@,
        s.len() == 6 || (!is_name_char(s[6]) && s[6] != '*'),
    ensures
        head_token(s, names) == (
            Token::CommandName(CommandName::BeginEnvironment),
            "\\begin"@,
        ),
{
    reveal_strlit("\\begin");
    reveal_strlit("begin");
    let lit = "\\begin"@;
    assert forall|i: int| 0 <= i < 6 implies s[i] == lit[i] by {
        assert(s.take(6)[i] == s[i]);
    }
    let tail = s.skip(2);
    assert forall|j: int| 0 <= j < 4 implies CharClass::Name.spec_has(#[trigger] tail[j]) by {
        assert(tail[j] == s[j + 2]);
    }
    lemma_run_len_is(tail, CharClass::Name, 4);
    assert(command_len(s, names) == 6);
    assert(s.take(6).skip(1) =~= "begin"@);
}

/// Two backslashes are one token, a new line, and never two commands.
pub proof fn law_double_backslash(s: Seq<char>, names: Set<Seq<char>>)
    requires
        s.len() >= 2,
        s[0] == '\\',
        s[1] == '\\',
    ensures
        head_token(s, names) == (Token::NewLine, s.take(2)),
        tokens_of(s, names) == seq![(Token::NewLine, s.take(2))] + tokens_of(s.skip(2), names),
{
    lemma_tokens_unfold(s, names);
}

/// A backslash before a space is a command with an empty name, and the
/// space starts a token of white space.
pub proof fn law_backslash_space(s: Seq<char>, names: Set<Seq<char>>)
    requires
        s.len() >= 2,
        s[0] == '\\',
        s[1] == ' ',
    ensures
        tokens_of(s, names).len() >= 2,
        tokens_of(s, names)[0] == (Token::CommandName(CommandName::Generic), s.take(1)),
        tokens_of(s, names)[1] == (
            Token::Whitespace,
            s.subrange(1, 2 + run_len(s.skip(2), CharClass::Blank) as int),
        ),
        classification(Seq::<char>::empty()) == CommandName::Generic,
{
    reveal_strlit("begin");
    reveal_strlit("end");
    reveal_strlit("iffalse");
    reveal_strlit("fi");
    reveal_strlit("left");
    reveal_strlit("right");
    lemma_tokens_unfold(s, names);
    let rest = s.skip(1);
    lemma_tokens_unfold(rest, names);
    lemma_run_len_bound(rest.skip(1), CharClass::Blank);
    assert(s.take(1).skip(1) =~= Seq::<char>::empty());
    assert(rest.skip(1) =~= s.skip(2));
    let n: int = 1 + run_len(s.skip(2), CharClass::Blank) as int;
    assert(rest.take(n) =~= s.subrange(1, 1 + n));
}

/// A star directly after a command name belongs to the command exactly if
/// the name with the star is declared. Otherwise the command ends before the
/// star, and the star starts a word.
pub proof fn law_star_suffix(s: Seq<char>, names: Set<Seq<char>>, e: int)
    requires
        2 <= e < s.len(),
        s[0] == '\\',
        forall|i: int| 1 <= i < e ==> is_name_char(#[trigger] s[i]),
        s[e] == '*',
    ensures
        names.contains(s.subrange(1, e + 1)) ==> head_token(s, names).1 == s.take(e + 1),
        !names.contains(s.subrange(1, e + 1)) ==> head_token(s, names).1 == s.take(e)
            && head_token(s.skip(e), names).0 == Token::Word,
{
    let tail = s.skip(2);
    assert forall|j: int| 0 <= j < e - 2 implies CharClass::Name.spec_has(#[trigger] tail[j]) by {
        assert(tail[j] == s[j + 2]);
    }
    assert(tail[e - 2] == s[e]);
    lemma_run_len_is(tail, CharClass::Name, e - 2);
    assert(is_name_char(s[1]));
    assert(s.skip(e)[0] == '*');
}

} // verus!
