//! Refusals: constructs that are recognised and deliberately declined.
use crate::text::{join, join_texts, lines, lines_of, same_text, texts};
use vstd::prelude::*;

verus! {

/// A token of a model's source, as far as the checks here read it.
#[derive(Clone, Debug, PartialEq, Eq)]
pub enum Token {
    /// `@`.
    At,
    /// `(`.
    LParen,
    /// A reserved word.
    Keyword(String),
    /// Any other name.
    Ident(String),
    /// Everything else.
    Other,
}

/// What is declined, why, and what to do about it.
#[derive(Clone, Debug, PartialEq, Eq)]
pub struct Refusal {
    pub what: String,
    pub why: String,
    pub instead: String,
    pub tracking: String,
}

/// The reserved word stands somewhere among the tokens.
pub open spec fn has_keyword(tokens: Seq<Token>, word: Seq<char>) -> bool {
    exists|i: int| 0 <= i < tokens.len() && is_keyword(#[trigger] tokens[i], word)
}

/// The token is this reserved word.
pub open spec fn is_keyword(token: Token, word: Seq<char>) -> bool {
    token matches Token::Keyword(k) && k@ == word
}

/// The token is this word, reserved or not.
pub open spec fn is_word(token: Token, word: Seq<char>) -> bool {
    match token {
        Token::Keyword(k) => k@ == word,
        Token::Ident(k) => k@ == word,
        _ => false,
    }
}

/// `@(word` stands somewhere among the tokens.
pub open spec fn has_trigger(tokens: Seq<Token>, word: Seq<char>) -> bool {
    exists|i: int|
        {
            &&& 0 <= i
            &&& i + 2 < tokens.len()
            &&& #[trigger] tokens[i] is At
            &&& tokens[i + 1] is LParen
            &&& is_word(tokens[i + 2], word)
        }
}

/// The operators among the tokens that a transient run only approximates.
pub open spec fn approximated(tokens: Seq<Token>) -> Seq<Seq<char>> {
    if has_keyword(tokens, "absdelay"@) {
        seq!["absdelay"@]
    } else {
        Seq::empty()
    }
}

/// The triggers among the tokens whose body would run at every timepoint, in the
/// order of the table: `initial_instance`, `initial_model`.
pub open spec fn step_triggers(tokens: Seq<Token>) -> Seq<Seq<char>> {
    let first = if has_trigger(tokens, "initial_instance"@) {
        seq!["initial_instance"@]
    } else {
        Seq::empty()
    };
    if has_trigger(tokens, "initial_model"@) {
        first.push("initial_model"@)
    } else {
        first
    }
}

fn keyword_at(token: &Token, word: &str) -> (r: bool)
    ensures
        r == is_keyword(*token, word@),
{
    match token {
        Token::Keyword(k) => same_text(k.as_str(), word),
        _ => false,
    }
}

fn word_at(token: &Token, word: &str) -> (r: bool)
    ensures
        r == is_word(*token, word@),
{
    match token {
        Token::Keyword(k) => same_text(k.as_str(), word),
        Token::Ident(k) => same_text(k.as_str(), word),
        _ => false,
    }
}

fn is_at(token: &Token) -> (r: bool)
    ensures
        r == (token is At),
{
    match token {
        Token::At => true,
        _ => false,
    }
}

fn is_paren(token: &Token) -> (r: bool)
    ensures
        r == (token is LParen),
{
    match token {
        Token::LParen => true,
        _ => false,
    }
}

fn find_trigger(tokens: &Vec<Token>, word: &str) -> (r: bool)
    ensures
        r == has_trigger(tokens@, word@),
{
    let mut i: usize = 0;
    while i < tokens.len() && tokens.len() - i > 2
        invariant
            i <= tokens@.len(),
            forall|j: int|
                0 <= j < i ==> !(#[trigger] tokens@[j] is At && tokens@[j + 1] is LParen && is_word(
                    tokens@[j + 2],
                    word@,
                )),
        decreases tokens@.len() - i,
    {
        if is_at(&tokens[i]) && is_paren(&tokens[i + 1]) && word_at(&tokens[i + 2], word) {
            return true;
        }
        i += 1;
    }
    false
}

/// The operators of a model's source that a transient run only approximates, in
/// the order of the table, each named once.
pub fn approximations_in(tokens: &Vec<Token>) -> (r: Vec<String>)
    ensures
        texts(r@) == approximated(tokens@),
{
    let mut r: Vec<String> = Vec::new();
    let mut i: usize = 0;
    while i < tokens.len()
        invariant
            i <= tokens@.len(),
            r@.len() == 0,
            forall|j: int| 0 <= j < i ==> !is_keyword(#[trigger] tokens@[j], "absdelay"@),
        decreases tokens@.len() - i,
    {
        if keyword_at(&tokens[i], "absdelay") {
            r.push("absdelay".to_owned());
            assert(has_keyword(tokens@, "absdelay"@));
            assert(texts(r@) =~= approximated(tokens@));
            return r;
        }
        i += 1;
    }
    assert(texts(r@) =~= approximated(tokens@));
    r
}

/// The triggers of a model's source whose body would run at every timepoint, in the
/// order of the table, each named once.
pub fn step_triggers_in(tokens: &Vec<Token>) -> (r: Vec<String>)
    ensures
        texts(r@) == step_triggers(tokens@),
{
    let mut r: Vec<String> = Vec::new();
    if find_trigger(tokens, "initial_instance") {
        r.push("initial_instance".to_owned());
    }
    if find_trigger(tokens, "initial_model") {
        r.push("initial_model".to_owned());
    }
    assert(texts(r@) =~= step_triggers(tokens@));
    r
}

/// What a source's use of an approximated operator reads like.
pub open spec fn approximation_line(path: Seq<char>, name: Seq<char>) -> Seq<char> {
    path + " uses `"@ + name + "`, which "@ + "folds to its undelayed input (a true delay needs an interpolated history buffer)"@
}

/// What a source's use of a discarded trigger reads like.
pub open spec fn trigger_line(path: Seq<char>, name: Seq<char>) -> Seq<char> {
    path + " uses `@("@ + name + ")`, whose body this engine runs at every timepoint                  instead of only when the event fires"@
}

/// What speaks against a transient run with this source.
pub open spec fn offences(path: Seq<char>, tokens: Seq<Token>) -> Seq<Seq<char>> {
    approximated(tokens).map_values(|n: Seq<char>| approximation_line(path, n)) + step_triggers(
        tokens,
    ).map_values(|n: Seq<char>| trigger_line(path, n))
}

/// What speaks against a transient run with these sources.
pub open spec fn all_offences(models: Seq<(String, Vec<Token>)>) -> Seq<Seq<char>>
    decreases models.len(),
{
    if models.len() == 0 {
        Seq::empty()
    } else {
        all_offences(models.drop_last()) + offences(models.last().0@, models.last().1@)
    }
}

/// `r` refuses a transient run with these sources where anything speaks against it, and
/// names all of it.
pub open spec fn is_answer(models: Seq<(String, Vec<Token>)>, r: Result<(), Refusal>) -> bool {
    match r {
        Ok(_) => all_offences(models).len() == 0,
        Err(e) => {
            &&& all_offences(models).len() > 0
            &&& e.what@ == join(all_offences(models), "\n"@)
            &&& e.why@ == "a `.tran` result would be a plausible waveform that is simply wrong, so it is refused rather than printed"@
            &&& e.instead@ == "run this model as DC (`.op`/`.dc`), AC (`--ac`) or noise (`--noise`), which are unaffected: these constructs are correct in a static solve - an operator settles to exactly this value, and a single solve point is both the first and the last step"@
            &&& e.tracking@ == "docs/proposals/absdelay.md stage 2"@
        },
    }
}

/// Refuses a transient run with sources that it would get wrong, naming every
/// offender. Each source is given with its path and its tokens.
pub fn refuse_transient_approximations(models: &Vec<(String, Vec<Token>)>) -> (r: Result<
    (),
    Refusal,
>)
    ensures
        is_answer(models@, r),
{
    let mut found: Vec<String> = Vec::new();
    let mut i: usize = 0;
    assert(models@.subrange(0, 0) =~= Seq::empty());
    assert(texts(found@) =~= Seq::empty());
    while i < models.len()
        invariant
            i <= models@.len(),
            texts(found@) == all_offences(models@.subrange(0, i as int)),
        decreases models@.len() - i,
    {
        let path = &models[i].0;
        let ghost start = texts(found@);
        let names = approximations_in(&models[i].1);
        let ghost first = texts(names@).map_values(|n: Seq<char>| approximation_line(path@, n));
        let mut k: usize = 0;
        while k < names.len()
            invariant
                k <= names@.len(),
                first == texts(names@).map_values(
                    |n: Seq<char>| approximation_line(path@, n),
                ),
                texts(found@) =~= start + first.subrange(0, k as int),
            decreases names@.len() - k,
        {
            let mut line = path.clone();
            line.append(" uses `");
            line.append(names[k].as_str());
            line.append("`, which ");
            line.append("folds to its undelayed input (a true delay needs an interpolated history buffer)");
            let ghost before = texts(found@);
            assert(first[k as int] == line@);
            found.push(line);
            assert(texts(found@) =~= before.push(line@));
            k += 1;
        }
        let ghost middle = texts(found@);
        let triggers = step_triggers_in(&models[i].1);
        let ghost second = texts(triggers@).map_values(|n: Seq<char>| trigger_line(path@, n));
        let mut k: usize = 0;
        while k < triggers.len()
            invariant
                k <= triggers@.len(),
                second == texts(triggers@).map_values(|n: Seq<char>| trigger_line(path@, n)),
                texts(found@) =~= middle + second.subrange(0, k as int),
            decreases triggers@.len() - k,
        {
            let mut line = path.clone();
            line.append(" uses `@(");
            line.append(triggers[k].as_str());
            line.append(")`, whose body this engine runs at every timepoint                  instead of only when the event fires");
            let ghost before = texts(found@);
            assert(second[k as int] == line@);
            found.push(line);
            assert(texts(found@) =~= before.push(line@));
            k += 1;
        }
        i += 1;
        proof {
            let upto = models@.subrange(0, i as int);
            assert(upto.drop_last() =~= models@.subrange(0, i - 1));
            assert(upto.last() == models@[i - 1]);
            assert(texts(found@) =~= all_offences(upto));
        }
    }
    assert(models@.subrange(0, i as int) =~= models@);
    if found.len() == 0 {
        assert(texts(found@).len() == 0);
        return Ok(());
    }
    assert(texts(found@).len() > 0);
    Err(
        Refusal {
            what: join_texts(&found, "\n"),
            why: "a `.tran` result would be a plausible waveform that is simply wrong, so it is refused rather than printed".to_owned(),
            instead: "run this model as DC (`.op`/`.dc`), AC (`--ac`) or noise (`--noise`), which are unaffected: these constructs are correct in a static solve - an operator settles to exactly this value, and a single solve point is both the first and the last step".to_owned(),
            tracking: "docs/proposals/absdelay.md stage 2".to_owned(),
        },
    )
}

// ---- refusals in an error -------------------------------------------------

/// One link in the chain of causes of an error.
#[derive(Clone, Debug, PartialEq, Eq)]
pub enum Cause {
    /// A refusal, with its text.
    Refused(String),
    /// A construct that no model instance can be generated for, with the reason.
    Unsupported(String),
    /// Anything else.
    Other,
}

/// The text of a refusal by the model generator.
pub open spec fn unsupported_text(reason: Seq<char>) -> Seq<char> {
    "refused: "@ + reason + "\n  why:      stated above - `va-codegen` recognises this construct but cannot lower it into a differentiable model instance, and an instance with a wrong Jacobian would converge to a wrong answer rather than fail\n  tracking: docs/roadmap.md, and `docs/token-reference.md` for this construct's status"@
}

/// The text of the first refusal among the causes.
pub open spec fn first_refusal(causes: Seq<Cause>) -> Option<Seq<char>>
    decreases causes.len(),
{
    if causes.len() == 0 {
        None
    } else {
        match causes[0] {
            Cause::Refused(text) => Some(text@),
            Cause::Unsupported(reason) => Some(unsupported_text(reason@)),
            Cause::Other => first_refusal(causes.drop_first()),
        }
    }
}

/// The text of the first refusal in an error's chain of causes, or nothing for an
/// ordinary error.
pub fn refusal_block(causes: &Vec<Cause>) -> (r: Option<String>)
    ensures
        match r {
            Some(block) => first_refusal(causes@) == Some(block@),
            None => first_refusal(causes@) is None,
        },
{
    let mut i: usize = 0;
    assert(causes@.subrange(0, causes@.len() as int) =~= causes@);
    while i < causes.len()
        invariant
            i <= causes@.len(),
            first_refusal(causes@) == first_refusal(
                causes@.subrange(i as int, causes@.len() as int),
            ),
        decreases causes@.len() - i,
    {
        assert(causes@.subrange(i as int, causes@.len() as int).drop_first() =~= causes@.subrange(
            i + 1,
            causes@.len() as int,
        ));
        match &causes[i] {
            Cause::Refused(text) => {
                return Some(text.clone());
            },
            Cause::Unsupported(reason) => {
                let mut block = "refused: ".to_owned();
                block.append(reason.as_str());
                block.append("\n  why:      stated above - `va-codegen` recognises this construct but cannot lower it into a differentiable model instance, and an instance with a wrong Jacobian would converge to a wrong answer rather than fail\n  tracking: docs/roadmap.md, and `docs/token-reference.md` for this construct's status");
                return Some(block);
            },
            Cause::Other => {},
        }
        i += 1;
    }
    None
}

/// The lines with `prefix` before each, without the first `skip` of them.
pub open spec fn prefixed(prefix: Seq<char>, block: Seq<Seq<char>>, skip: int) -> Seq<Seq<char>> {
    if block.len() <= skip {
        Seq::empty()
    } else {
        block.subrange(skip, block.len() as int).map_values(|l: Seq<char>| prefix + l)
    }
}

fn prefix_lines(prefix: &str, block: &str, skip: usize) -> (r: Vec<String>)
    ensures
        texts(r@) == prefixed(prefix@, lines(block@), skip as int),
{
    let all = lines_of(block);
    let mut r: Vec<String> = Vec::new();
    let mut i: usize = skip;
    let ghost goal = prefixed(prefix@, lines(block@), skip as int);
    assert(texts(all@).len() == all@.len());
    while i < all.len()
        invariant
            texts(all@) == lines(block@),
            goal == prefixed(prefix@, lines(block@), skip as int),
            skip <= all@.len() ==> skip <= i <= all@.len(),
            skip > all@.len() ==> i == skip,
            skip < all@.len() ==> texts(r@) =~= goal.subrange(0, i - skip),
            skip >= all@.len() ==> r@.len() == 0,
        decreases all@.len() - i,
    {
        let mut line = prefix.to_owned();
        line.append(all[i].as_str());
        assert(lines(block@)[i as int] == all@[i as int]@);
        assert(goal[i - skip] == line@);
        let ghost before = texts(r@);
        r.push(line);
        assert(texts(r@) =~= before.push(line@));
        i += 1;
    }
    assert(texts(r@) =~= goal);
    r
}

/// The lines that explain a refusal on their own.
pub fn refusal_report(block: &str) -> (r: Vec<String>)
    ensures
        texts(r@) == prefixed("[va-cli] "@, lines(block@), 0),
{
    prefix_lines("[va-cli] ", block, 0)
}

/// The lines that explain a refusal under a verdict that already names it.
pub fn refusal_detail(block: &str) -> (r: Vec<String>)
    ensures
        texts(r@) == prefixed("        "@, lines(block@), 1),
{
    prefix_lines("        ", block, 1)
}

/// An error of the model frontend.
#[derive(Clone, Debug, PartialEq, Eq)]
pub enum FrontendFault {
    /// A refusal of this construct.
    Refused(String),
    /// Any other error, with its text.
    Other(String),
}

/// The verdict about an error in one line: a refusal by what it refuses, any other
/// error by its text.
pub fn refusal_headline(fault: &FrontendFault) -> (r: String)
    ensures
        r@ == (match *fault {
            FrontendFault::Refused(what) => "refused: "@ + what@,
            FrontendFault::Other(text) => text@,
        }),
{
    match fault {
        FrontendFault::Refused(what) => {
            let mut r = "refused: ".to_owned();
            r.append(what.as_str());
            r
        },
        FrontendFault::Other(text) => text.clone(),
    }
}

} // verus!
