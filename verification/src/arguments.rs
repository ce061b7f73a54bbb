//! The command line.
use vstd::prelude::*;

use crate::consolidated::DEFAULT_ALLOWED_CROSSINGS;
use crate::source::Mode;
use crate::text::{chars_of, decimal, law_decimal, law_decimal_digits, same_text};

verus! {

/// What the command line asks for.
pub enum Command {
    /// Print the usage.
    Help,
    /// Process a file.
    Run { mode: Mode, allowed_crossings: u32, input: String },
    /// Nothing that makes sense.
    Invalid(UsageError),
}

/// What is wrong with a command line.
pub enum UsageError {
    /// `-c` is the last argument.
    MissingNumber,
    /// `-c` is not followed by a positive number.
    BadNumber,
    /// An argument begins with a hyphen and is no option.
    UnknownOption(String),
    /// There is more than one input.
    MultipleInputs,
    /// There is no input.
    NoInput,
}

/// The mathematical content of a command.
pub enum Order {
    Help,
    Run { mode: Mode, allowed_crossings: u32, input: Seq<char> },
    MissingNumber,
    BadNumber,
    UnknownOption(Seq<char>),
    MultipleInputs,
    NoInput,
}

impl View for Command {
    type V = Order;

    open spec fn view(&self) -> Order {
        match self {
            Command::Help => Order::Help,
            Command::Run { mode, allowed_crossings, input } => Order::Run {
                mode: *mode,
                allowed_crossings: *allowed_crossings,
                input: input@,
            },
            Command::Invalid(e) => match e {
                UsageError::MissingNumber => Order::MissingNumber,
                UsageError::BadNumber => Order::BadNumber,
                UsageError::UnknownOption(s) => Order::UnknownOption(s@),
                UsageError::MultipleInputs => Order::MultipleInputs,
                UsageError::NoInput => Order::NoInput,
            },
        }
    }
}

/// Whether every character is a decimal digit.
pub open spec fn all_digits(s: Seq<char>) -> bool {
    forall|i: int| 0 <= i < s.len() ==> '0' <= #[trigger] s[i] <= '9'
}

/// The number that decimal digits stand for.
pub open spec fn digits_value(s: Seq<char>) -> nat
    decreases s.len(),
{
    if s.len() == 0 {
        0
    } else {
        10 * digits_value(s.drop_last()) + (s.last() as int - '0' as int) as nat
    }
}

/// The positive 32-bit number that a text stands for: decimal digits, with a plus
/// sign before them or not.
pub open spec fn positive_number(s: Seq<char>) -> Option<u32> {
    let digits = if s.len() > 0 && s[0] == '+' {
        s.skip(1)
    } else {
        s
    };
    if digits.len() > 0 && all_digits(digits) && 1 <= digits_value(digits) <= u32::MAX {
        Some(digits_value(digits) as u32)
    } else {
        None
    }
}

/// More digits make no smaller number.
proof fn lemma_digits_grow(s: Seq<char>, n: int)
    requires
        0 <= n <= s.len(),
    ensures
        digits_value(s.take(n)) <= digits_value(s),
    decreases s.len() - n,
{
    if n < s.len() {
        assert(s.take(n + 1).drop_last() =~= s.take(n));
        lemma_digits_grow(s, n + 1);
    } else {
        assert(s.take(n) =~= s);
    }
}

/// The positive 32-bit number that a text stands for.
pub fn parse_positive(text: &str) -> (r: Option<u32>)
    ensures
        r == positive_number(text@),
{
    let chars: Vec<char> = chars_of(text);
    let start: usize = if chars.len() > 0 && chars[0] == '+' {
        1
    } else {
        0
    };
    let ghost digits = chars@.skip(start as int);
    assert(chars@.skip(0) =~= chars@);
    if start == chars.len() {
        return None;
    }
    let mut value: u64 = 0;
    let mut i: usize = start;
    assert(digits.take(0) =~= Seq::<char>::empty());
    while i < chars.len()
        invariant
            start <= i <= chars@.len(),
            start < chars@.len(),
            digits == chars@.skip(start as int),
            all_digits(digits.take(i - start)),
            value == digits_value(digits.take(i - start)),
            value <= u32::MAX,
            positive_number(text@) == if all_digits(digits) && 1 <= digits_value(digits)
                <= u32::MAX {
                Some(digits_value(digits) as u32)
            } else {
                None
            },
        decreases chars@.len() - i,
    {
        let c: char = chars[i];
        assert(digits[i - start] == c);
        if c < '0' || c > '9' {
            return None;
        }
        value = value * 10 + (c as u64 - '0' as u64);
        i = i + 1;
        proof {
            let now = digits.take(i - start);
            assert(now.drop_last() =~= digits.take(i - 1 - start));
            assert(now.last() == c);
            assert forall|j: int| 0 <= j < now.len() implies '0' <= #[trigger] now[j] <= '9' by {
                if j < now.len() - 1 {
                    assert(now[j] == now.drop_last()[j]);
                }
            }
            lemma_digits_grow(digits, i - start);
        }
        if value > 0xffff_ffff {
            return None;
        }
    }
    assert(digits.take(i - start) =~= digits);
    if value == 0 {
        return None;
    }
    Some(value as u32)
}

/// What is known after some arguments.
#[verifier::ext_equal]
pub struct Settings {
    pub mode: Mode,
    pub allowed_crossings: u32,
    pub input: Option<Seq<char>>,
}

/// What holds before the first argument.
pub open spec fn defaults() -> Settings {
    Settings {
        mode: Mode::Consolidate,
        allowed_crossings: DEFAULT_ALLOWED_CROSSINGS,
        input: None,
    }
}

/// Arguments are taken one after the other; the first one that asks for help or is
/// wrong decides. Of several modes or numbers the last one counts.
pub open spec fn interpret(args: Seq<Seq<char>>, s: Settings) -> Order
    decreases args.len(),
{
    if args.len() == 0 {
        match s.input {
            Some(input) => Order::Run {
                mode: s.mode,
                allowed_crossings: s.allowed_crossings,
                input,
            },
            None => Order::NoInput,
        }
    } else if args[0] == "-h"@ || args[0] == "--help"@ {
        Order::Help
    } else if args[0] == "-plain"@ {
        interpret(args.skip(1), Settings { mode: Mode::Plain, ..s })
    } else if args[0] == "-ome"@ {
        interpret(args.skip(1), Settings { mode: Mode::Ome, ..s })
    } else if args[0] == "-c"@ {
        if args.len() == 1 {
            Order::MissingNumber
        } else {
            match positive_number(args[1]) {
                Some(n) => interpret(args.skip(2), Settings { allowed_crossings: n, ..s }),
                None => Order::BadNumber,
            }
        }
    } else if args[0].len() > 0 && args[0][0] == '-' {
        Order::UnknownOption(args[0])
    } else if s.input is Some {
        Order::MultipleInputs
    } else {
        interpret(args.skip(1), Settings { input: Some(args[0]), ..s })
    }
}

/// The texts of arguments.
pub open spec fn texts(args: Seq<String>) -> Seq<Seq<char>> {
    args.map_values(|a: String| a@)
}

/// Whether a text begins with a hyphen.
fn begins_with_hyphen(text: &str) -> (r: bool)
    ensures
        r == (text@.len() > 0 && text@[0] == '-'),
{
    let chars: Vec<char> = chars_of(text);
    chars.len() > 0 && chars[0] == '-'
}

/// What the arguments that follow the name of the program ask for.
pub fn parse_args(args: &[String]) -> (r: Command)
    ensures
        r@ == interpret(texts(args@), defaults()),
{
    let ghost all = texts(args@);
    let mut mode: Mode = Mode::Consolidate;
    let mut allowed_crossings: u32 = DEFAULT_ALLOWED_CROSSINGS;
    let mut input: Option<usize> = None;
    let mut i: usize = 0;
    assert(all.skip(0) =~= all);
    while i < args.len()
        invariant
            i <= args.len(),
            all == texts(args@),
            input matches Some(k) ==> k < args.len(),
            interpret(all, defaults()) == interpret(
                all.skip(i as int),
                Settings {
                    mode,
                    allowed_crossings,
                    input: match input {
                        Some(k) => Some(all[k as int]),
                        None => None,
                    },
                },
            ),
        decreases args.len() - i,
    {
        let ghost rest = all.skip(i as int);
        let arg: &str = args[i].as_str();
        proof {
            assert(rest[0] == arg@);
            assert(rest.skip(1) =~= all.skip(i + 1));
        }
        if same_text(arg, "-h") || same_text(arg, "--help") {
            return Command::Help;
        } else if same_text(arg, "-plain") {
            mode = Mode::Plain;
        } else if same_text(arg, "-ome") {
            mode = Mode::Ome;
        } else if same_text(arg, "-c") {
            i = i + 1;
            if i >= args.len() {
                return Command::Invalid(UsageError::MissingNumber);
            }
            proof {
                assert(rest[1] == args@[i as int]@);
                assert(rest.skip(2) =~= all.skip(i + 1));
            }
            allowed_crossings = match parse_positive(args[i].as_str()) {
                Some(n) => n,
                None => {
                    return Command::Invalid(UsageError::BadNumber);
                },
            };
        } else if begins_with_hyphen(arg) {
            return Command::Invalid(UsageError::UnknownOption(arg.to_owned()));
        } else {
            if input.is_some() {
                return Command::Invalid(UsageError::MultipleInputs);
            }
            input = Some(i);
        }
        i = i + 1;
    }
    assert(all.skip(i as int) =~= Seq::<Seq<char>>::empty());
    match input {
        Some(k) => Command::Run {
            mode,
            allowed_crossings,
            input: args[k].as_str().to_owned(),
        },
        None => Command::Invalid(UsageError::NoInput),
    }
}

/// A text that is neither an option nor looks like one.
pub open spec fn is_operand(x: Seq<char>) -> bool {
    x.len() == 0 || x[0] != '-'
}

/// What is known after arguments none of which stops the run.
spec fn after(args: Seq<Seq<char>>, s: Settings) -> Option<Settings>
    decreases args.len(),
{
    if args.len() == 0 {
        Some(s)
    } else if args[0] == "-h"@ || args[0] == "--help"@ {
        None
    } else if args[0] == "-plain"@ {
        after(args.skip(1), Settings { mode: Mode::Plain, ..s })
    } else if args[0] == "-ome"@ {
        after(args.skip(1), Settings { mode: Mode::Ome, ..s })
    } else if args[0] == "-c"@ {
        if args.len() == 1 {
            None
        } else {
            match positive_number(args[1]) {
                Some(n) => after(args.skip(2), Settings { allowed_crossings: n, ..s }),
                None => None,
            }
        }
    } else if args[0].len() > 0 && args[0][0] == '-' {
        None
    } else if s.input is Some {
        None
    } else {
        after(args.skip(1), Settings { input: Some(args[0]), ..s })
    }
}

/// Arguments that stop nothing leave the decision to those that follow them; any
/// others have decided, except that a number may follow a last `-c`.
proof fn lemma_after(a: Seq<Seq<char>>, b: Seq<Seq<char>>, s: Settings)
    ensures
        after(a, s) matches Some(t) ==> interpret(a + b, s) == interpret(b, t) && interpret(a, s)
            == interpret(Seq::empty(), t),
        after(a, s) is None ==> interpret(a, s) !is Run && interpret(a, s) !is NoInput,
        after(a, s) is None && interpret(a, s) !is MissingNumber ==> interpret(a + b, s)
            == interpret(a, s),
    decreases a.len(),
{
    let both = a + b;
    if a.len() == 0 {
        assert(both =~= b);
        assert(a =~= Seq::<Seq<char>>::empty());
    } else {
        assert(both[0] == a[0]);
        assert(both.skip(1) =~= a.skip(1) + b);
        if a[0] == "-h"@ || a[0] == "--help"@ {
        } else if a[0] == "-plain"@ {
            lemma_after(a.skip(1), b, Settings { mode: Mode::Plain, ..s });
        } else if a[0] == "-ome"@ {
            lemma_after(a.skip(1), b, Settings { mode: Mode::Ome, ..s });
        } else if a[0] == "-c"@ {
            if a.len() > 1 {
                assert(both[1] == a[1]);
                assert(both.skip(2) =~= a.skip(2) + b);
                if let Some(n) = positive_number(a[1]) {
                    lemma_after(a.skip(2), b, Settings { allowed_crossings: n, ..s });
                }
            }
        } else if a[0].len() > 0 && a[0][0] == '-' {
        } else if s.input is Some {
        } else {
            lemma_after(a.skip(1), b, Settings { input: Some(a[0]), ..s });
        }
    }
}

/// The options are different from one another and begin with a hyphen.
proof fn lemma_options()
    ensures
        "-h"@ != "-plain"@ && "-h"@ != "-ome"@ && "-h"@ != "-c"@,
        "--help"@ != "-plain"@ && "--help"@ != "-ome"@ && "--help"@ != "-c"@,
        "-plain"@ != "-ome"@ && "-plain"@ != "-c"@ && "-ome"@ != "-c"@,
        "-h"@.len() > 0 && "-h"@[0] == '-',
        "--help"@.len() > 0 && "--help"@[0] == '-',
        "-plain"@.len() > 0 && "-plain"@[0] == '-',
        "-ome"@.len() > 0 && "-ome"@[0] == '-',
        "-c"@.len() > 0 && "-c"@[0] == '-',
{
    reveal_strlit("-h");
    reveal_strlit("--help");
    reveal_strlit("-plain");
    reveal_strlit("-ome");
    reveal_strlit("-c");
    assert("-h"@[1] == 'h' && "-c"@[1] == 'c' && "-plain"@[1] == 'p' && "-ome"@[1] == 'o'
        && "--help"@[1] == '-');
}

/// What single arguments do.
proof fn lemma_singles(x: Seq<char>, t: Seq<char>, s: Settings)
    ensures
        interpret(seq!["-h"@], s) == Order::Help,
        interpret(seq!["--help"@], s) == Order::Help,
        after(seq!["-plain"@], s) == Some(Settings { mode: Mode::Plain, ..s }),
        after(seq!["-ome"@], s) == Some(Settings { mode: Mode::Ome, ..s }),
        interpret(seq!["-c"@], s) == Order::MissingNumber,
        positive_number(t) matches Some(n) ==> after(seq!["-c"@, t], s) == Some(
            Settings { allowed_crossings: n, ..s },
        ),
        positive_number(t) is None ==> interpret(seq!["-c"@, t], s) == Order::BadNumber,
        is_operand(x) && s.input is None ==> after(seq![x], s) == Some(
            Settings { input: Some(x), ..s },
        ),
        is_operand(x) && s.input is Some ==> interpret(seq![x], s) == Order::MultipleInputs,
        !is_operand(x) && x != "-h"@ && x != "--help"@ && x != "-plain"@ && x != "-ome"@ && x
            != "-c"@ ==> interpret(seq![x], s) == Order::UnknownOption(x),
{
    lemma_options();
    let none = Seq::<Seq<char>>::empty();
    assert(seq!["-plain"@].skip(1) =~= none);
    assert(seq!["-ome"@].skip(1) =~= none);
    assert(seq!["-c"@, t].skip(2) =~= none);
    assert(seq![x].skip(1) =~= none);
    reveal_with_fuel(after, 2);
}

/// Without arguments there is no input. A lone input is consolidated with ten
/// crossings allowed.
pub proof fn law_lone_input(x: Seq<char>)
    requires
        is_operand(x),
    ensures
        interpret(Seq::empty(), defaults()) == Order::NoInput,
        interpret(seq![x], defaults()) == (Order::Run {
            mode: Mode::Consolidate,
            allowed_crossings: 10,
            input: x,
        }),
{
    lemma_singles(x, x, defaults());
    lemma_after(seq![x], Seq::empty(), defaults());
}

/// What one more argument changes about a run: a mode or a number replaces the
/// earlier one and nothing else; another input, an unknown option, or `-c` without
/// a positive number is refused; help is given.
pub proof fn law_one_more_argument(
    args: Seq<Seq<char>>,
    x: Seq<char>,
    t: Seq<char>,
    mode: Mode,
    allowed: u32,
    input: Seq<char>,
)
    requires
        interpret(args, defaults()) == (Order::Run { mode, allowed_crossings: allowed, input }),
    ensures
        interpret(args + seq!["-plain"@], defaults()) == (Order::Run {
            mode: Mode::Plain,
            allowed_crossings: allowed,
            input,
        }),
        interpret(args + seq!["-ome"@], defaults()) == (Order::Run {
            mode: Mode::Ome,
            allowed_crossings: allowed,
            input,
        }),
        positive_number(t) matches Some(n) ==> interpret(args + seq!["-c"@, t], defaults()) == (
        Order::Run { mode, allowed_crossings: n, input }),
        positive_number(t) is None ==> interpret(args + seq!["-c"@, t], defaults())
            == Order::BadNumber,
        interpret(args + seq!["-c"@], defaults()) == Order::MissingNumber,
        interpret(args + seq!["-h"@], defaults()) == Order::Help,
        interpret(args + seq!["--help"@], defaults()) == Order::Help,
        is_operand(x) ==> interpret(args + seq![x], defaults()) == Order::MultipleInputs,
        !is_operand(x) && x != "-h"@ && x != "--help"@ && x != "-plain"@ && x != "-ome"@ && x
            != "-c"@ ==> interpret(args + seq![x], defaults()) == Order::UnknownOption(x),
{
    lemma_more(args, x, t);
    let s = after(args, defaults())->0;
    lemma_after(seq!["-plain"@], Seq::empty(), s);
    lemma_after(seq!["-ome"@], Seq::empty(), s);
    lemma_after(seq!["-c"@, t], Seq::empty(), s);
}

/// Where arguments stop nothing, what follows is taken from what is known by then.
proof fn lemma_more(args: Seq<Seq<char>>, x: Seq<char>, t: Seq<char>)
    requires
        interpret(args, defaults()) is Run || interpret(args, defaults()) is NoInput,
    ensures
        after(args, defaults()) matches Some(s) && interpret(args, defaults()) == interpret(
            Seq::empty(),
            s,
        ) && forall|b: Seq<Seq<char>>| #[trigger]
            interpret(args + b, defaults()) == interpret(b, s),
        ({
            let s = after(args, defaults())->0;
            &&& interpret(seq!["-h"@], s) == Order::Help
            &&& interpret(seq!["--help"@], s) == Order::Help
            &&& after(seq!["-plain"@], s) == Some(Settings { mode: Mode::Plain, ..s })
            &&& after(seq!["-ome"@], s) == Some(Settings { mode: Mode::Ome, ..s })
            &&& interpret(seq!["-c"@], s) == Order::MissingNumber
            &&& positive_number(t) matches Some(n) ==> after(seq!["-c"@, t], s) == Some(
                Settings { allowed_crossings: n, ..s },
            )
            &&& positive_number(t) is None ==> interpret(seq!["-c"@, t], s) == Order::BadNumber
            &&& is_operand(x) && s.input is None ==> after(seq![x], s) == Some(
                Settings { input: Some(x), ..s },
            )
            &&& is_operand(x) && s.input is Some ==> interpret(seq![x], s)
                == Order::MultipleInputs
            &&& !is_operand(x) && x != "-h"@ && x != "--help"@ && x != "-plain"@ && x != "-ome"@
                && x != "-c"@ ==> interpret(seq![x], s) == Order::UnknownOption(x)
        }),
{
    lemma_after(args, Seq::empty(), defaults());
    let s = after(args, defaults())->0;
    assert forall|b: Seq<Seq<char>>| #[trigger]
        interpret(args + b, defaults()) == interpret(b, s) by {
        lemma_after(args, b, defaults());
    }
    lemma_singles(x, t, s);
}

/// As long as there is no input, an input makes a run, options may follow as well
/// as precede it, and what is wrong before it is wrong as it is after it.
pub proof fn law_options_before_input(
    args: Seq<Seq<char>>,
    x: Seq<char>,
    y: Seq<char>,
    t: Seq<char>,
)
    requires
        interpret(args, defaults()) == Order::NoInput,
        is_operand(x),
    ensures
        interpret(args + seq![x], defaults()) matches Order::Run { mode, allowed_crossings, input }
            && input == x,
        interpret(args + seq!["-plain"@], defaults()) == Order::NoInput,
        interpret(args + seq!["-ome"@], defaults()) == Order::NoInput,
        interpret(args + seq!["-plain"@] + seq![x], defaults()) == interpret(
            args + seq![x] + seq!["-plain"@],
            defaults(),
        ),
        interpret(args + seq!["-ome"@] + seq![x], defaults()) == interpret(
            args + seq![x] + seq!["-ome"@],
            defaults(),
        ),
        positive_number(t) is Some ==> interpret(args + seq!["-c"@, t], defaults())
            == Order::NoInput && interpret(args + seq!["-c"@, t] + seq![x], defaults())
            == interpret(args + seq![x] + seq!["-c"@, t], defaults()),
        positive_number(t) is None ==> interpret(args + seq!["-c"@, t], defaults())
            == Order::BadNumber,
        interpret(args + seq!["-c"@], defaults()) == Order::MissingNumber,
        interpret(args + seq!["-h"@], defaults()) == Order::Help,
        interpret(args + seq!["--help"@], defaults()) == Order::Help,
        !is_operand(y) && y != "-h"@ && y != "--help"@ && y != "-plain"@ && y != "-ome"@ && y
            != "-c"@ ==> interpret(args + seq![y], defaults()) == Order::UnknownOption(y),
{
    lemma_more(args, x, t);
    lemma_more(args, y, t);
    let s = after(args, defaults())->0;
    let with_input = Settings { input: Some(x), ..s };
    let none = Seq::<Seq<char>>::empty();
    lemma_singles(x, t, with_input);
    lemma_swap(args, seq!["-plain"@], x, s, Settings { mode: Mode::Plain, ..s });
    lemma_swap(args, seq!["-ome"@], x, s, Settings { mode: Mode::Ome, ..s });
    lemma_after(seq![x], none, s);
    if let Some(n) = positive_number(t) {
        lemma_swap(args, seq!["-c"@, t], x, s, Settings { allowed_crossings: n, ..s });
    }
}

/// An option and an input may change places.
proof fn lemma_swap(
    args: Seq<Seq<char>>,
    option: Seq<Seq<char>>,
    x: Seq<char>,
    s: Settings,
    u: Settings,
)
    requires
        after(args, defaults()) == Some(s),
        after(option, s) == Some(u),
        after(option, Settings { input: Some(x), ..s }) == Some(Settings { input: Some(x), ..u }),
        s.input is None,
        u.input is None,
        is_operand(x),
    ensures
        interpret(args + option, defaults()) == Order::NoInput,
        interpret(args + option + seq![x], defaults()) == interpret(
            args + seq![x] + option,
            defaults(),
        ),
{
    let none = Seq::<Seq<char>>::empty();
    lemma_after(args, option, defaults());
    lemma_after(option, none, s);
    assert(option + none =~= option);
    assert(args + option + seq![x] =~= args + (option + seq![x]));
    assert(args + seq![x] + option =~= args + (seq![x] + option));
    lemma_after(args, option + seq![x], defaults());
    lemma_after(args, seq![x] + option, defaults());
    lemma_after(option, seq![x], s);
    lemma_singles(x, x, s);
    lemma_singles(x, x, u);
    lemma_after(seq![x], none, u);
    lemma_after(seq![x], option, s);
    lemma_after(option, none, Settings { input: Some(x), ..s });
}

/// The first argument that asks for help or is wrong decides, whatever follows.
pub proof fn law_first_fault_decides(args: Seq<Seq<char>>, more: Seq<Seq<char>>)
    requires
        interpret(args, defaults()) !is Run,
        interpret(args, defaults()) !is NoInput,
        interpret(args, defaults()) !is MissingNumber,
    ensures
        interpret(args + more, defaults()) == interpret(args, defaults()),
{
    lemma_after(args, more, defaults());
}

/// Arguments without `-c` do not touch the tolerance, and those without a mode do
/// not touch the mode.
proof fn lemma_untouched(args: Seq<Seq<char>>, s: Settings)
    ensures
        !args.contains("-c"@) ==> (interpret(args, s) matches Order::Run {
            mode,
            allowed_crossings,
            input,
        } ==> allowed_crossings == s.allowed_crossings),
        !args.contains("-plain"@) && !args.contains("-ome"@) ==> (interpret(
            args,
            s,
        ) matches Order::Run { mode, allowed_crossings, input } ==> mode == s.mode),
    decreases args.len(),
{
    if args.len() > 0 {
        let one = args.skip(1);
        let two = args.skip(2);
        assert(args.contains(args[0]));
        assert forall|x: Seq<char>| #[trigger] one.contains(x) implies args.contains(x) by {
            let k = choose|k: int| 0 <= k < one.len() && one[k] == x;
            assert(args[k + 1] == x);
        }
        lemma_untouched(one, Settings { mode: Mode::Plain, ..s });
        lemma_untouched(one, Settings { mode: Mode::Ome, ..s });
        lemma_untouched(one, Settings { input: Some(args[0]), ..s });
        if args.len() > 1 {
            assert forall|x: Seq<char>| #[trigger] two.contains(x) implies args.contains(x) by {
                let k = choose|k: int| 0 <= k < two.len() && two[k] == x;
                assert(args[k + 2] == x);
            }
            if let Some(n) = positive_number(args[1]) {
                lemma_untouched(two, Settings { allowed_crossings: n, ..s });
            }
        }
    }
}

/// The tolerance of a run is the number after the last `-c`, whatever stands
/// before it and after it; without `-c` it is ten.
pub proof fn law_tolerance(
    before: Seq<Seq<char>>,
    t: Seq<char>,
    rest: Seq<Seq<char>>,
    mode: Mode,
    allowed: u32,
    input: Seq<char>,
)
    requires
        !rest.contains("-c"@),
    ensures
        (interpret(before, defaults()) is Run || interpret(before, defaults()) is NoInput)
            && interpret(before + seq!["-c"@, t] + rest, defaults()) == (Order::Run {
            mode,
            allowed_crossings: allowed,
            input,
        }) ==> positive_number(t) == Some(allowed),
        interpret(rest, defaults()) == (Order::Run { mode, allowed_crossings: allowed, input })
            ==> allowed == 10,
{
    lemma_untouched(rest, defaults());
    if interpret(before, defaults()) is Run || interpret(before, defaults()) is NoInput {
        lemma_more(before, t, t);
        let s = after(before, defaults())->0;
        assert(before + seq!["-c"@, t] + rest =~= before + (seq!["-c"@, t] + rest));
        lemma_after(before, seq!["-c"@, t] + rest, defaults());
        lemma_after(seq!["-c"@, t], rest, s);
        if let Some(n) = positive_number(t) {
            lemma_untouched(rest, Settings { allowed_crossings: n, ..s });
        }
    }
}

/// The mode of a run is the last one given; without any the file is consolidated.
pub proof fn law_mode(
    before: Seq<Seq<char>>,
    rest: Seq<Seq<char>>,
    mode: Mode,
    allowed: u32,
    input: Seq<char>,
)
    requires
        !rest.contains("-plain"@),
        !rest.contains("-ome"@),
    ensures
        ({
            let run = Order::Run { mode, allowed_crossings: allowed, input };
            let open = interpret(before, defaults()) is Run || interpret(before, defaults())
                is NoInput;
            &&& open && interpret(before + seq!["-plain"@] + rest, defaults()) == run ==> mode
                == Mode::Plain
            &&& open && interpret(before + seq!["-ome"@] + rest, defaults()) == run ==> mode
                == Mode::Ome
            &&& interpret(rest, defaults()) == run ==> mode == Mode::Consolidate
        }),
{
    lemma_untouched(rest, defaults());
    if interpret(before, defaults()) is Run || interpret(before, defaults()) is NoInput {
        lemma_more(before, Seq::empty(), Seq::empty());
        let s = after(before, defaults())->0;
        assert(before + seq!["-plain"@] + rest =~= before + (seq!["-plain"@] + rest));
        assert(before + seq!["-ome"@] + rest =~= before + (seq!["-ome"@] + rest));
        lemma_after(before, seq!["-plain"@] + rest, defaults());
        lemma_after(before, seq!["-ome"@] + rest, defaults());
        lemma_after(seq!["-plain"@], rest, s);
        lemma_after(seq!["-ome"@], rest, s);
        lemma_untouched(rest, Settings { mode: Mode::Plain, ..s });
        lemma_untouched(rest, Settings { mode: Mode::Ome, ..s });
    }
}

/// The digits of a number have its value.
proof fn lemma_digits_of_decimal(v: nat)
    ensures
        digits_value(decimal(v)) == v,
    decreases v,
{
    law_decimal(v);
    if v >= 10 {
        lemma_digits_of_decimal(v / 10);
    } else {
        assert(decimal(v).drop_last() =~= Seq::<char>::empty());
        reveal_with_fuel(digits_value, 2);
    }
}

/// A zero before digits does not change their value.
proof fn lemma_leading_zero(s: Seq<char>)
    ensures
        digits_value(seq!['0'] + s) == digits_value(s),
    decreases s.len(),
{
    let more = seq!['0'] + s;
    if s.len() > 0 {
        assert(more.drop_last() =~= seq!['0'] + s.drop_last());
        lemma_leading_zero(s.drop_last());
    } else {
        assert(more.drop_last() =~= Seq::<char>::empty());
        reveal_with_fuel(digits_value, 2);
    }
}

/// Numbers are read in decimal: of a positive 32-bit number its digits, with zeros
/// before them or not and a plus sign before them or not, and nothing else.
pub proof fn law_positive_number(v: nat, s: Seq<char>, i: int)
    ensures
        positive_number(decimal(v)) == if 1 <= v <= u32::MAX {
            Some(v as u32)
        } else {
            None
        },
        s.len() > 0 && s[0] != '+' ==> positive_number(seq!['+'] + s) == positive_number(s)
            && positive_number(seq!['0'] + s) == positive_number(s),
        0 <= i < s.len() && !('0' <= s[i] <= '9') && !(i == 0 && s[i] == '+')
            ==> positive_number(s) is None,
        s.len() == 0 ==> positive_number(s) is None && positive_number(seq!['+'] + s) is None,
{
    law_decimal(v);
    law_decimal_digits(v);
    lemma_digits_of_decimal(v);
    let plus = seq!['+'] + s;
    let zero = seq!['0'] + s;
    assert(plus.skip(1) =~= s);
    assert(zero.skip(1) =~= s);
    if s.len() > 0 && s[0] != '+' {
        lemma_leading_zero(s);
        if all_digits(s) {
            assert(all_digits(zero));
        }
        if all_digits(zero) {
            assert forall|k: int| 0 <= k < s.len() implies '0' <= #[trigger] s[k] <= '9' by {
                assert(zero[k + 1] == s[k]);
            }
        }
    }
    if 0 <= i < s.len() && !('0' <= s[i] <= '9') && !(i == 0 && s[i] == '+') {
        if s[0] == '+' {
            assert(s.skip(1)[i - 1] == s[i]);
        }
    }
}

} // verus!
