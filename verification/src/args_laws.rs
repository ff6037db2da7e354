//! What the arguments of a command mean.
use crate::args::{
    argument_index, cmd_check, cmd_sim, command, flag_value, has_argument, is_word, parse_flag,
    plain_arguments, ArgError, CheckArgs, Command, Integration, SimArgs,
};
use crate::search::lemma_first_where_holds;
use crate::text::{begins_with, join, texts};
use crate::text_laws::lemma_split;
use vstd::prelude::*;

verus! {

/// Some argument is this word.
pub open spec fn is_given(args: Seq<String>, word: Seq<char>) -> bool {
    exists|i: int| 0 <= i < args.len() && (#[trigger] args[i])@ == word
}

/// The word stands first at this place among the arguments.
pub open spec fn is_first_given(args: Seq<String>, word: Seq<char>, i: int) -> bool {
    &&& 0 <= i < args.len()
    &&& args[i]@ == word
    &&& forall|j: int| 0 <= j < i ==> (#[trigger] args[j])@ != word
}

/// `value` is the argument after the first one that is this flag, if there are both.
pub open spec fn is_value_of(args: Seq<String>, flag: Seq<char>, value: Option<String>) -> bool {
    match value {
        Some(v) => exists|i: int| #[trigger]
            is_first_given(args, flag, i) && i + 1 < args.len() && args[i + 1] == v,
        None => forall|i: int| #[trigger] is_first_given(args, flag, i) ==> i + 1 >= args.len(),
    }
}

proof fn lemma_given(args: Seq<String>, word: Seq<char>)
    ensures
        has_argument(args, word) == is_given(args, word),
        is_value_of(args, word, flag_value(args, word)),
{
    let holds = is_word(word);
    let k = argument_index(args, word);
    lemma_first_where_holds(args, holds);
    assert forall|j: int| 0 <= j < k implies (#[trigger] args[j])@ != word by {
        assert(!holds(args[j]));
    }
    if k < args.len() {
        assert(holds(args[k]));
        assert(args[k]@ == word);
        assert(is_first_given(args, word, k));
    }
    assert forall|i: int| #[trigger] is_first_given(args, word, i) implies i == k by {
        assert(holds(args[i]));
        if k < i {
            assert(args[k]@ != word);
        }
    }
}

/// The value of a flag is the argument that follows its first occurrence.
pub proof fn a_flag_takes_the_next_argument(args: &Vec<String>, flag: &str, r: Option<String>)
    requires
        call_ensures(parse_flag, (args, flag), r),
    ensures
        is_value_of(args@, flag@, r),
{
    lemma_given(args@, flag@);
}

/// The word names the method: `be`, `backward-euler` and `backward_euler` the backward
/// Euler one, `trap` and `trapezoidal` the trapezoidal one, `gear` and `bdf2` Gear's.
pub open spec fn names_method(word: Seq<char>, method: Integration) -> bool {
    match method {
        Integration::BackwardEuler => word == "be"@ || word == "backward-euler"@ || word
            == "backward_euler"@,
        Integration::Trapezoidal => word == "trap"@ || word == "trapezoidal"@,
        Integration::Gear => word == "gear"@ || word == "bdf2"@,
    }
}

/// A run takes its netlist from the first argument, its model, its plot and its method
/// from their flags, the trapezoidal method where none is named, and its analysis from the
/// flag that is given, a transient run before an AC one and that before a noise one. The
/// quantities to report are those between the commas of their flag.
pub proof fn a_run_follows_its_arguments(args: &Vec<String>, r: Result<SimArgs, ArgError>)
    requires
        call_ensures(cmd_sim, (args,), r),
    ensures
        args@.len() == 0 ==> r == Err::<SimArgs, ArgError>(ArgError::NoNetlist),
        r matches Ok(s) ==> {
            &&& s.netlist == args@[0]
            &&& is_value_of(args@, "--model"@, s.model)
            &&& is_value_of(args@, "--plot"@, s.plot)
            &&& s.analysis is Transient <==> is_given(args@, "--tran"@)
            &&& s.analysis is Ac <==> is_given(args@, "--ac"@) && !is_given(args@, "--tran"@)
            &&& s.analysis is Noise <==> is_given(args@, "--noise"@) && !is_given(args@, "--ac"@)
                && !is_given(args@, "--tran"@)
            &&& exists|word: Option<String>| #[trigger]
                is_value_of(args@, "--integration"@, word) && match word {
                    Some(w) => names_method(w@, s.integration),
                    None => s.integration is Trapezoidal,
                }
            &&& exists|list: Option<String>| #[trigger]
                is_value_of(args@, "--report"@, list) && match list {
                    Some(l) => join(texts(s.report@), seq![',']) == l@ && forall|i: int|
                        0 <= i < s.report@.len() ==> !(#[trigger] s.report@[i])@.contains(','),
                    None => s.report@.len() == 0,
                }
        },
        r matches Err(e) ==> args@.len() > 0 ==> (e matches ArgError::UnknownIntegration(word)
            && is_value_of(args@, "--integration"@, Some(word)) && forall|method: Integration|
            !#[trigger] names_method(word@, method)),
{
    lemma_given(args@, "--model"@);
    lemma_given(args@, "--plot"@);
    lemma_given(args@, "--tran"@);
    lemma_given(args@, "--ac"@);
    lemma_given(args@, "--noise"@);
    lemma_given(args@, "--integration"@);
    lemma_given(args@, "--report"@);
    if r is Ok {
        assert(is_value_of(args@, "--integration"@, flag_value(args@, "--integration"@)));
        let s = r->Ok_0;
        let list = flag_value(args@, "--report"@);
        assert(is_value_of(args@, "--report"@, list));
        assert(texts(s.report@).len() == s.report@.len());
        if let Some(l) = list {
            lemma_split(l@, ',');
            assert forall|i: int| 0 <= i < s.report@.len() implies !(
            #[trigger] s.report@[i])@.contains(',') by {
                assert(texts(s.report@)[i] == s.report@[i]@);
            }
        }
    }
}

/// A check takes every argument that does not begin with two dashes as a path, in order,
/// and generates instances exactly if that is asked for; it is refused exactly if there is
/// no path.
pub proof fn a_check_follows_its_arguments(args: &Vec<String>, r: Result<CheckArgs, ArgError>)
    requires
        call_ensures(cmd_check, (args,), r),
    ensures
        ({
            let paths = args@.filter(|a: String| !has_dashes(a@));
            &&& r is Ok <==> paths.len() > 0
            &&& r matches Ok(c) ==> c.paths@ == paths && (c.codegen <==> is_given(
                args@,
                "--codegen"@,
            ))
            &&& r matches Err(e) ==> e == ArgError::NoModels
        }),
{
    lemma_given(args@, "--codegen"@);
    lemma_plain(args@);
}

/// The text begins with two dashes.
pub open spec fn has_dashes(s: Seq<char>) -> bool {
    s.len() >= 2 && s[0] == '-' && s[1] == '-'
}

proof fn lemma_plain(args: Seq<String>)
    ensures
        plain_arguments(args) == args.filter(|a: String| !has_dashes(a@)),
    decreases args.len(),
{
    reveal(Seq::filter);
    if args.len() > 0 {
        lemma_plain(args.drop_last());
        let s = args.last()@;
        reveal_strlit("--");
        assert("--"@.len() == 2 && "--"@[0] == '-' && "--"@[1] == '-');
        if has_dashes(s) {
            assert(s.subrange(0, 2) =~= "--"@);
        }
        if begins_with(s, "--"@) {
            assert(s.subrange(0, 2)[0] == s[0] && s.subrange(0, 2)[1] == s[1]);
        }
    }
}

/// The first argument names the command; without one, or with a plea for it, there is
/// help.
pub proof fn the_first_argument_is_the_command(args: &Vec<String>, r: Command)
    requires
        call_ensures(command, (args,), r),
    ensures
        r is Help <==> args@.len() == 0 || args@[0]@ == "--help"@ || args@[0]@ == "-h"@,
        r is Sim <==> args@.len() > 0 && args@[0]@ == "sim"@,
        r is Check <==> args@.len() > 0 && args@[0]@ == "check"@,
        r matches Command::Unknown(word) ==> args@.len() > 0 && word == args@[0],
{
    reveal_strlit("--help");
    reveal_strlit("-h");
    reveal_strlit("sim");
    reveal_strlit("check");
    assert("--help"@.len() == 6 && "-h"@.len() == 2 && "sim"@.len() == 3 && "check"@.len() == 5);
}

} // verus!
