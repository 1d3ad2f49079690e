//! The command line: the keyword and the options.

use crate::text;
use crate::text::same_text;
use vstd::prelude::*;

verus! {

/// One option of the command line.
#[derive(Debug, PartialEq, Eq, Clone, Copy, Structural)]
pub enum CmdOption {
    Hidden,
    Excluded,
    All,
    CaseSensitive,
}

/// The options of the command line.
pub struct CmdOptions {
    pub options: Vec<CmdOption>,
}

/// Whether a list of options grants one: it holds the option itself, or it holds `All` and the
/// option is one of those that `All` stands for.
pub open spec fn granted(options: Seq<CmdOption>, option: CmdOption) -> bool {
    ||| options.contains(option)
    ||| (option is Hidden || option is Excluded) && options.contains(CmdOption::All)
}

impl CmdOptions {
    /// Whether an option is granted. `All` grants `Hidden` and `Excluded`, but not
    /// `CaseSensitive`.
    pub fn has(&self, option: CmdOption) -> (r: bool)
        ensures
            r == granted(self.options@, option),
    {
        let all_applies: bool = matches!(option, CmdOption::Hidden | CmdOption::Excluded);
        let mut i: usize = 0;
        while i < self.options.len()
            invariant
                i <= self.options@.len(),
                all_applies == (option is Hidden || option is Excluded),
                forall|j: int|
                    0 <= j < i ==> self.options@[j] != option && !(all_applies
                        && self.options@[j] == CmdOption::All),
            decreases self.options@.len() - i,
        {
            let o: CmdOption = self.options[i];
            if o == option || (all_applies && o == CmdOption::All) {
                assert(self.options@.contains(self.options@[i as int]));
                return true;
            }
            i = i + 1;
        }
        false
    }
}

/// The option that an argument stands for, if any.
pub open spec fn option_of(arg: Seq<char>) -> Option<CmdOption> {
    if arg == "-h"@ || arg == "--hidden"@ {
        Some(CmdOption::Hidden)
    } else if arg == "-e"@ || arg == "--excluded"@ {
        Some(CmdOption::Excluded)
    } else if arg == "-a"@ || arg == "--all"@ {
        Some(CmdOption::All)
    } else if arg == "-c"@ || arg == "--case-sensitive"@ {
        Some(CmdOption::CaseSensitive)
    } else {
        None
    }
}

/// The options that a list of arguments stands for, in order.
pub open spec fn options_of(args: Seq<Seq<char>>) -> Seq<CmdOption>
    decreases args.len(),
{
    if args.len() == 0 {
        seq![]
    } else {
        match option_of(args.last()) {
            Some(option) => options_of(args.drop_last()).push(option),
            None => options_of(args.drop_last()),
        }
    }
}

/// Reads one argument as an option.
pub fn parse_option(arg: &str) -> (r: Option<CmdOption>)
    ensures
        r == option_of(arg@),
{
    if same_text(arg, "-h") || same_text(arg, "--hidden") {
        Some(CmdOption::Hidden)
    } else if same_text(arg, "-e") || same_text(arg, "--excluded") {
        Some(CmdOption::Excluded)
    } else if same_text(arg, "-a") || same_text(arg, "--all") {
        Some(CmdOption::All)
    } else if same_text(arg, "-c") || same_text(arg, "--case-sensitive") {
        Some(CmdOption::CaseSensitive)
    } else {
        None
    }
}

/// Reads the command line: the name of the program, the keyword, and then the options. An argument
/// behind the keyword that is no option is passed over.
pub fn handle_args(args: &Vec<String>) -> (r: Option<(String, CmdOptions)>)
    ensures
        r is None <==> args@.len() < 2,
        r matches Some((pattern, options)) ==> pattern@ == args@[1]@ && options.options@
            == options_of(text::texts(args@).skip(2)),
{
    if args.len() < 2 {
        return None;
    }
    let ghost all = text::texts(args@).skip(2);
    let mut options: Vec<CmdOption> = Vec::new();
    let mut i: usize = 2;
    assert(all.take(0) =~= Seq::<Seq<char>>::empty());
    while i < args.len()
        invariant
            all == text::texts(args@).skip(2),
            2 <= i <= args@.len(),
            options@ == options_of(all.take(i - 2)),
        decreases args@.len() - i,
    {
        proof {
            assert(all.take(i - 1).drop_last() =~= all.take(i - 2));
            assert(all.take(i - 1).last() == args@[i as int]@);
        }
        if let Some(option) = parse_option(args[i].as_str()) {
            options.push(option);
        }
        i = i + 1;
    }
    assert(all.take(i - 2) =~= all);
    Some((args[1].clone(), CmdOptions { options }))
}

/// An option is read exactly where an argument stands for it.
pub proof fn lemma_options_of(args: Seq<Seq<char>>, option: CmdOption)
    ensures
        options_of(args).contains(option) <==> exists|i: int|
            0 <= i < args.len() && #[trigger] option_of(args[i]) == Some(option),
    decreases args.len(),
{
    if args.len() > 0 {
        let init = args.drop_last();
        let before = options_of(init);
        let now = options_of(args);
        lemma_options_of(init, option);
        if now.contains(option) {
            let k = choose|k: int| 0 <= k < now.len() && now[k] == option;
            if k < before.len() {
                assert(before[k] == option);
                let i = choose|i: int|
                    0 <= i < init.len() && #[trigger] option_of(init[i]) == Some(option);
                assert(option_of(args[i]) == Some(option));
            } else {
                assert(option_of(args[args.len() - 1]) == Some(option));
            }
        }
        if exists|i: int| 0 <= i < args.len() && #[trigger] option_of(args[i]) == Some(option) {
            let i = choose|i: int|
                0 <= i < args.len() && #[trigger] option_of(args[i]) == Some(option);
            if i < init.len() {
                assert(option_of(init[i]) == Some(option));
                let k = choose|k: int| 0 <= k < before.len() && before[k] == option;
                assert(now[k] == option);
            } else {
                assert(now[before.len() as int] == option);
            }
        }
    }
}

/// The search disregards case unless it is told otherwise: `CaseSensitive` is granted exactly
/// where an argument is `-c` or `--case-sensitive`.
pub proof fn lemma_case_counts_on_request(args: Seq<Seq<char>>)
    ensures
        granted(options_of(args), CmdOption::CaseSensitive) <==> exists|i: int|
            0 <= i < args.len() && #[trigger] option_of(args[i]) == Some(CmdOption::CaseSensitive),
        granted(options_of(args), CmdOption::CaseSensitive) <==> args.contains("-c"@)
            || args.contains("--case-sensitive"@),
{
    lemma_options_of(args, CmdOption::CaseSensitive);
    assert forall|i: int| 0 <= i < args.len() implies (#[trigger] option_of(args[i]) == Some(
        CmdOption::CaseSensitive,
    )) == (args[i] == "-c"@ || args[i] == "--case-sensitive"@) by {
        lemma_option_names(args[i]);
        let names = seq!["-c"@, "--case-sensitive"@];
        assert(names[0] == "-c"@ && names[1] == "--case-sensitive"@);
    }
    if args.contains("-c"@) {
        let i = choose|i: int| 0 <= i < args.len() && args[i] == "-c"@;
        assert(option_of(args[i]) == Some(CmdOption::CaseSensitive));
    }
    if args.contains("--case-sensitive"@) {
        let i = choose|i: int| 0 <= i < args.len() && args[i] == "--case-sensitive"@;
        assert(option_of(args[i]) == Some(CmdOption::CaseSensitive));
    }
}

/// `All` is short for `Hidden` and `Excluded` and for nothing else: added to any options it grants
/// the same of the other three as those two do.
pub proof fn lemma_all_is_shorthand(options: Seq<CmdOption>, option: CmdOption)
    requires
        !(option is All),
    ensures
        granted(options.push(CmdOption::All), option) == granted(
            options.push(CmdOption::Hidden).push(CmdOption::Excluded),
            option,
        ),
        granted(options.push(CmdOption::All), CmdOption::Hidden),
        granted(options.push(CmdOption::All), CmdOption::Excluded),
        granted(options.push(CmdOption::All), CmdOption::CaseSensitive) == granted(
            options,
            CmdOption::CaseSensitive,
        ),
{
    let short = options.push(CmdOption::All);
    let long = options.push(CmdOption::Hidden).push(CmdOption::Excluded);
    let n = options.len() as int;
    assert(short[n] == CmdOption::All);
    assert(long[n] == CmdOption::Hidden);
    assert(long[n + 1] == CmdOption::Excluded);
    assert forall|o: CmdOption| options.contains(o) implies short.contains(o) && long.contains(
        o,
    ) by {
        let k = choose|k: int| 0 <= k < options.len() && options[k] == o;
        assert(short[k] == o);
        assert(long[k] == o);
    }
    assert forall|o: CmdOption| short.contains(o) && !(o is All) implies options.contains(o) by {
        let k = choose|k: int| 0 <= k < short.len() && short[k] == o;
        assert(options[k] == o);
    }
    assert forall|o: CmdOption|
        long.contains(o) && !(o is Hidden) && !(o is Excluded) implies options.contains(o) by {
        let k = choose|k: int| 0 <= k < long.len() && long[k] == o;
        assert(options[k] == o);
    }
}

/// Every option has two names, and no other argument is an option.
pub proof fn lemma_option_names(arg: Seq<char>)
    ensures
        option_of(arg) == Some(CmdOption::Hidden) <==> seq!["-h"@, "--hidden"@].contains(arg),
        option_of(arg) == Some(CmdOption::Excluded) <==> seq!["-e"@, "--excluded"@].contains(arg),
        option_of(arg) == Some(CmdOption::All) <==> seq!["-a"@, "--all"@].contains(arg),
        option_of(arg) == Some(CmdOption::CaseSensitive) <==> seq![
            "-c"@,
            "--case-sensitive"@,
        ].contains(arg),
{
    reveal_strlit("-h");
    reveal_strlit("-e");
    reveal_strlit("-a");
    reveal_strlit("-c");
    reveal_strlit("--hidden");
    reveal_strlit("--excluded");
    reveal_strlit("--all");
    reveal_strlit("--case-sensitive");
    assert("-h"@[1] == 'h' && "-e"@[1] == 'e' && "-a"@[1] == 'a' && "-c"@[1] == 'c');
    assert("--hidden"@[2] == 'h' && "--excluded"@[2] == 'e' && "--all"@[2] == 'a');
    assert("--case-sensitive"@[2] == 'c');
    let hidden = seq!["-h"@, "--hidden"@];
    let excluded = seq!["-e"@, "--excluded"@];
    let all = seq!["-a"@, "--all"@];
    let case = seq!["-c"@, "--case-sensitive"@];
    assert(hidden[0] == "-h"@ && hidden[1] == "--hidden"@);
    assert(excluded[0] == "-e"@ && excluded[1] == "--excluded"@);
    assert(all[0] == "-a"@ && all[1] == "--all"@);
    assert(case[0] == "-c"@ && case[1] == "--case-sensitive"@);
}

/// The arguments are read one by one, in order: two lists of them, one behind the other, give the
/// options of the first and then those of the second, and an argument alone gives its option.
pub proof fn lemma_options_in_order(first: Seq<Seq<char>>, second: Seq<Seq<char>>, arg: Seq<char>)
    ensures
        options_of(first + second) == options_of(first) + options_of(second),
        options_of(seq![arg]) == match option_of(arg) {
            Some(option) => seq![option],
            None => seq![],
        },
    decreases second.len(),
{
    reveal_with_fuel(options_of, 2);
    assert(seq![arg].drop_last() =~= Seq::<Seq<char>>::empty());
    if second.len() == 0 {
        assert(first + second =~= first);
        assert(options_of(first) + options_of(second) =~= options_of(first));
    } else {
        let init = second.drop_last();
        lemma_options_in_order(first, init, arg);
        assert((first + second).drop_last() =~= first + init);
        assert(options_of(first + second) =~= options_of(first) + options_of(second));
    }
}

/// What is granted: every option that was given, and with `All` the two that it is short for.
pub proof fn lemma_granted(options: Seq<CmdOption>)
    ensures
        granted(options, CmdOption::Hidden) <==> options.contains(CmdOption::Hidden)
            || options.contains(CmdOption::All),
        granted(options, CmdOption::Excluded) <==> options.contains(CmdOption::Excluded)
            || options.contains(CmdOption::All),
        granted(options, CmdOption::All) <==> options.contains(CmdOption::All),
        granted(options, CmdOption::CaseSensitive) <==> options.contains(CmdOption::CaseSensitive),
{
}

} // verus!
