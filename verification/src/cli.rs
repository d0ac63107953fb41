//! Scanning of the command line into settings.
//!
//! The scanner decides which word is a flag, which word is the value of the
//! flag before it, and where scanning stops (on `--help`, on a flag whose
//! value is missing, or on an unknown word). Turning the value words into
//! numbers and paths is left to the caller, in the order the items come.
use vstd::prelude::*;

verus! {

/// A setting that takes a value word after its flag.
#[derive(Debug, Clone, Copy, PartialEq, Eq, Structural)]
pub enum Setting {
    /// `--input <FILE>`: initial conditions JSON.
    Input,
    /// `--output <FILE>`: trajectory CSV.
    Output,
    /// `--dt <YEARS>`: time step.
    Dt,
    /// `--years <YEARS>`: total duration.
    Years,
    /// `--softening <AU>`: softening length.
    Softening,
    /// `--integrator <NAME>`: `rk4` or `euler`.
    Integrator,
    /// `--snapshot-every <N>`: write every N-th step.
    SnapshotEvery,
}

/// The flag that names each setting.
pub open spec fn spec_flag(s: Setting) -> Seq<char> {
    match s {
        Setting::Input => "--input"@,
        Setting::Output => "--output"@,
        Setting::Dt => "--dt"@,
        Setting::Years => "--years"@,
        Setting::Softening => "--softening"@,
        Setting::Integrator => "--integrator"@,
        Setting::SnapshotEvery => "--snapshot-every"@,
    }
}

impl Setting {
    /// The flag that names this setting, such as `--dt`.
    pub fn flag(&self) -> (r: &'static str)
        ensures
            r@ == spec_flag(*self),
    {
        match self {
            Setting::Input => "--input",
            Setting::Output => "--output",
            Setting::Dt => "--dt",
            Setting::Years => "--years",
            Setting::Softening => "--softening",
            Setting::Integrator => "--integrator",
            Setting::SnapshotEvery => "--snapshot-every",
        }
    }
}

/// What a word in flag position is.
#[derive(Debug, Clone, Copy, PartialEq, Eq, Structural)]
pub enum FlagClass {
    /// A flag that takes the next word as its value.
    Takes(Setting),
    /// `--plot`.
    Plot,
    /// `--help` or `-h`.
    Help,
    /// Anything else.
    Unknown,
}

/// The class of a word in flag position.
pub open spec fn spec_classify(a: Seq<char>) -> FlagClass {
    if a == "--input"@ {
        FlagClass::Takes(Setting::Input)
    } else if a == "--output"@ {
        FlagClass::Takes(Setting::Output)
    } else if a == "--dt"@ {
        FlagClass::Takes(Setting::Dt)
    } else if a == "--years"@ {
        FlagClass::Takes(Setting::Years)
    } else if a == "--softening"@ {
        FlagClass::Takes(Setting::Softening)
    } else if a == "--integrator"@ {
        FlagClass::Takes(Setting::Integrator)
    } else if a == "--snapshot-every"@ {
        FlagClass::Takes(Setting::SnapshotEvery)
    } else if a == "--plot"@ {
        FlagClass::Plot
    } else if a == "--help"@ || a == "-h"@ {
        FlagClass::Help
    } else {
        FlagClass::Unknown
    }
}

/// The flag of every setting is classified as that setting.
pub proof fn lemma_flag_classifies_back(s: Setting)
    ensures
        spec_classify(spec_flag(s)) == FlagClass::Takes(s),
{
    reveal_strlit("--input");
    reveal_strlit("--output");
    reveal_strlit("--dt");
    reveal_strlit("--years");
    reveal_strlit("--softening");
    reveal_strlit("--integrator");
    reveal_strlit("--snapshot-every");
    match s {
        Setting::Input => {
            assert(spec_classify("--input"@) == FlagClass::Takes(Setting::Input));
        },
        Setting::Output => {
            assert("--output"@.len() != "--input"@.len());
        },
        Setting::Dt => {
            assert("--dt"@.len() != "--input"@.len());
            assert("--dt"@.len() != "--output"@.len());
        },
        Setting::Years => {
            assert("--years"@[2] != "--input"@[2]);
            assert("--years"@.len() != "--output"@.len());
            assert("--years"@.len() != "--dt"@.len());
        },
        Setting::Softening => {
            assert("--softening"@.len() != "--input"@.len());
        },
        Setting::Integrator => {
            assert("--integrator"@.len() != "--input"@.len());
        },
        Setting::SnapshotEvery => {
            assert("--snapshot-every"@.len() != "--input"@.len());
        },
    }
}

/// One scanned item of the command line.
#[derive(Debug, PartialEq, Eq)]
pub enum ArgItem {
    /// A setting flag followed by its value word.
    Value(Setting, String),
    /// `--plot`.
    Plot,
    /// `--help` or `-h`; scanning stops here.
    Help,
    /// A setting flag that is the last word; scanning stops here.
    MissingValue(Setting),
    /// A word that is no flag; scanning stops here.
    Unknown(String),
}

/// The mathematical form of an [`ArgItem`].
pub enum ArgItemView {
    Value(Setting, Seq<char>),
    Plot,
    Help,
    MissingValue(Setting),
    Unknown(Seq<char>),
}

impl View for ArgItem {
    type V = ArgItemView;

    open spec fn view(&self) -> ArgItemView {
        match self {
            ArgItem::Value(s, v) => ArgItemView::Value(*s, v@),
            ArgItem::Plot => ArgItemView::Plot,
            ArgItem::Help => ArgItemView::Help,
            ArgItem::MissingValue(s) => ArgItemView::MissingValue(*s),
            ArgItem::Unknown(a) => ArgItemView::Unknown(a@),
        }
    }
}

/// The items that scanning the words `args` yields, in order.
pub open spec fn spec_scan(args: Seq<Seq<char>>) -> Seq<ArgItemView>
    decreases args.len(),
{
    if args.len() == 0 {
        Seq::empty()
    } else {
        match spec_classify(args[0]) {
            FlagClass::Takes(k) => if args.len() >= 2 {
                seq![ArgItemView::Value(k, args[1])] + spec_scan(args.subrange(2, args.len() as int))
            } else {
                seq![ArgItemView::MissingValue(k)]
            },
            FlagClass::Plot => seq![ArgItemView::Plot] + spec_scan(args.subrange(1, args.len() as int)),
            FlagClass::Help => seq![ArgItemView::Help],
            FlagClass::Unknown => seq![ArgItemView::Unknown(args[0])],
        }
    }
}

/// Whether an item ends scanning.
pub open spec fn is_terminal(x: ArgItemView) -> bool {
    x is Help || x is MissingValue || x is Unknown
}

/// Scanning yields at most one item per word, and only its last item can be
/// one that ends scanning (help, a missing value, an unknown word).
pub proof fn lemma_scan_shape(args: Seq<Seq<char>>)
    ensures
        spec_scan(args).len() <= args.len(),
        forall|i: int| 0 <= i < spec_scan(args).len() - 1 ==> !is_terminal(#[trigger] spec_scan(args)[i]),
    decreases args.len(),
{
    if args.len() > 0 {
        let out = spec_scan(args);
        match spec_classify(args[0]) {
            FlagClass::Takes(k) => if args.len() >= 2 {
                let rest = args.subrange(2, args.len() as int);
                lemma_scan_shape(rest);
                let tail = spec_scan(rest);
                assert forall|i: int| 0 <= i < out.len() - 1 implies !is_terminal(#[trigger] out[i]) by {
                    if i > 0 {
                        assert(out[i] == tail[i - 1]);
                    }
                }
            },
            FlagClass::Plot => {
                let rest = args.subrange(1, args.len() as int);
                lemma_scan_shape(rest);
                let tail = spec_scan(rest);
                assert forall|i: int| 0 <= i < out.len() - 1 implies !is_terminal(#[trigger] out[i]) by {
                    if i > 0 {
                        assert(out[i] == tail[i - 1]);
                    }
                }
            },
            _ => {},
        }
    }
}

/// Which words are flags: each setting is named by its own flag word and no
/// other, `--plot` and `--help`/`-h` are the only switch words, and every
/// other word is unknown.
pub proof fn lemma_classify_words(a: Seq<char>)
    ensures
        (spec_classify(a) == FlagClass::Takes(Setting::Input)) <==> a == "--input"@,
        (spec_classify(a) == FlagClass::Takes(Setting::Output)) <==> a == "--output"@,
        (spec_classify(a) == FlagClass::Takes(Setting::Dt)) <==> a == "--dt"@,
        (spec_classify(a) == FlagClass::Takes(Setting::Years)) <==> a == "--years"@,
        (spec_classify(a) == FlagClass::Takes(Setting::Softening)) <==> a == "--softening"@,
        (spec_classify(a) == FlagClass::Takes(Setting::Integrator)) <==> a == "--integrator"@,
        (spec_classify(a) == FlagClass::Takes(Setting::SnapshotEvery)) <==> a == "--snapshot-every"@,
        (spec_classify(a) == FlagClass::Plot) <==> a == "--plot"@,
        (spec_classify(a) == FlagClass::Help) <==> (a == "--help"@ || a == "-h"@),
        (spec_classify(a) == FlagClass::Unknown) <==> !(a == "--input"@ || a == "--output"@ || a == "--dt"@
            || a == "--years"@ || a == "--softening"@ || a == "--integrator"@ || a == "--snapshot-every"@
            || a == "--plot"@ || a == "--help"@ || a == "-h"@),
{
    reveal_strlit("--input");
    reveal_strlit("--output");
    reveal_strlit("--dt");
    reveal_strlit("--years");
    reveal_strlit("--softening");
    reveal_strlit("--integrator");
    reveal_strlit("--snapshot-every");
    reveal_strlit("--plot");
    reveal_strlit("--help");
    reveal_strlit("-h");
    assert("--years"@[2] != "--input"@[2]);
    assert("--help"@[2] != "--plot"@[2]);
    assert("--input"@.len() == 7 && "--output"@.len() == 8 && "--dt"@.len() == 4);
    assert("--years"@.len() == 7 && "--softening"@.len() == 11 && "--integrator"@.len() == 12);
    assert("--snapshot-every"@.len() == 16 && "--plot"@.len() == 6 && "--help"@.len() == 6);
    assert("-h"@.len() == 2);
}

/// A setting flag followed by a word scans to one value item that carries
/// that flag's setting and that word, and scanning goes on after the two
/// words.
pub proof fn lemma_scan_setting_pair(a: Seq<char>, v: Seq<char>, rest: Seq<Seq<char>>, k: Setting)
    requires
        spec_classify(a) == FlagClass::Takes(k),
    ensures
        spec_scan(seq![a, v] + rest) == seq![ArgItemView::Value(k, v)] + spec_scan(rest),
{
    let args = seq![a, v] + rest;
    assert(args[0] == a && args[1] == v);
    assert(args.subrange(2, args.len() as int) =~= rest);
}

/// The flag word of each setting, followed by any word `v`, scans to the
/// value item of that very setting with `v`: `--snapshot-every v` sets the
/// snapshot interval, `--softening v` the softening length, and so on.
pub proof fn lemma_scan_flag_words(v: Seq<char>, rest: Seq<Seq<char>>)
    ensures
        spec_scan(seq!["--input"@, v] + rest) == seq![ArgItemView::Value(Setting::Input, v)] + spec_scan(rest),
        spec_scan(seq!["--output"@, v] + rest) == seq![ArgItemView::Value(Setting::Output, v)] + spec_scan(rest),
        spec_scan(seq!["--dt"@, v] + rest) == seq![ArgItemView::Value(Setting::Dt, v)] + spec_scan(rest),
        spec_scan(seq!["--years"@, v] + rest) == seq![ArgItemView::Value(Setting::Years, v)] + spec_scan(rest),
        spec_scan(seq!["--softening"@, v] + rest) == seq![ArgItemView::Value(Setting::Softening, v)]
            + spec_scan(rest),
        spec_scan(seq!["--integrator"@, v] + rest) == seq![ArgItemView::Value(Setting::Integrator, v)]
            + spec_scan(rest),
        spec_scan(seq!["--snapshot-every"@, v] + rest) == seq![ArgItemView::Value(Setting::SnapshotEvery, v)]
            + spec_scan(rest),
{
    lemma_classify_words("--input"@);
    lemma_classify_words("--output"@);
    lemma_classify_words("--dt"@);
    lemma_classify_words("--years"@);
    lemma_classify_words("--softening"@);
    lemma_classify_words("--integrator"@);
    lemma_classify_words("--snapshot-every"@);
    lemma_scan_setting_pair("--input"@, v, rest, Setting::Input);
    lemma_scan_setting_pair("--output"@, v, rest, Setting::Output);
    lemma_scan_setting_pair("--dt"@, v, rest, Setting::Dt);
    lemma_scan_setting_pair("--years"@, v, rest, Setting::Years);
    lemma_scan_setting_pair("--softening"@, v, rest, Setting::Softening);
    lemma_scan_setting_pair("--integrator"@, v, rest, Setting::Integrator);
    lemma_scan_setting_pair("--snapshot-every"@, v, rest, Setting::SnapshotEvery);
}

/// Every value item comes from the command line: some word there is
/// classified as a flag of that item's setting, and the word right after it
/// is the item's value.
pub proof fn lemma_scan_values_come_from_flags(args: Seq<Seq<char>>)
    ensures
        forall|i: int|
            0 <= i < spec_scan(args).len() ==> (#[trigger] spec_scan(args)[i] matches ArgItemView::Value(k, v)
                ==> exists|j: int| 0 <= j < args.len() - 1 && spec_classify(#[trigger] args[j]) == FlagClass::Takes(k)
                    && args[j + 1] == v),
    decreases args.len(),
{
    if args.len() > 0 {
        let out = spec_scan(args);
        match spec_classify(args[0]) {
            FlagClass::Takes(k0) => if args.len() >= 2 {
                let rest = args.subrange(2, args.len() as int);
                lemma_scan_values_come_from_flags(rest);
                let tail = spec_scan(rest);
                assert forall|i: int| 0 <= i < out.len() implies (#[trigger] out[i] matches ArgItemView::Value(k, v)
                    ==> exists|j: int| 0 <= j < args.len() - 1 && spec_classify(#[trigger] args[j]) == FlagClass::Takes(k)
                        && args[j + 1] == v) by {
                    if let ArgItemView::Value(k, v) = out[i] {
                        if i == 0 {
                            assert(spec_classify(args[0]) == FlagClass::Takes(k) && args[1] == v);
                        } else {
                            assert(out[i] == tail[i - 1]);
                            let j = choose|j: int| 0 <= j < rest.len() - 1 && spec_classify(#[trigger] rest[j])
                                == FlagClass::Takes(k) && rest[j + 1] == v;
                            assert(args[j + 2] == rest[j] && args[j + 3] == rest[j + 1]);
                        }
                    }
                }
            },
            FlagClass::Plot => {
                let rest = args.subrange(1, args.len() as int);
                lemma_scan_values_come_from_flags(rest);
                let tail = spec_scan(rest);
                assert forall|i: int| 0 <= i < out.len() implies (#[trigger] out[i] matches ArgItemView::Value(k, v)
                    ==> exists|j: int| 0 <= j < args.len() - 1 && spec_classify(#[trigger] args[j]) == FlagClass::Takes(k)
                        && args[j + 1] == v) by {
                    if let ArgItemView::Value(k, v) = out[i] {
                        assert(i > 0);
                        assert(out[i] == tail[i - 1]);
                        let j = choose|j: int| 0 <= j < rest.len() - 1 && spec_classify(#[trigger] rest[j])
                            == FlagClass::Takes(k) && rest[j + 1] == v;
                        assert(args[j + 1] == rest[j] && args[j + 2] == rest[j + 1]);
                    }
                }
            },
            _ => {},
        }
    }
}

/// The views of a sequence of strings.
pub open spec fn string_views(args: Seq<String>) -> Seq<Seq<char>> {
    args.map_values(|a: String| a@)
}

/// The views of a sequence of scanned items.
pub open spec fn item_views(items: Seq<ArgItem>) -> Seq<ArgItemView> {
    items.map_values(|x: ArgItem| x@)
}

/// Whether the word `w` is the word `lit`.
fn is_word(w: &String, lit: &str) -> (r: bool)
    ensures
        r == (w@ == lit@),
{
    *w == String::from_str(lit)
}

/// Classifies a word in flag position.
pub fn classify(a: &str) -> (c: FlagClass)
    ensures
        c == spec_classify(a@),
{
    let w = String::from_str(a);
    if is_word(&w, "--input") {
        FlagClass::Takes(Setting::Input)
    } else if is_word(&w, "--output") {
        FlagClass::Takes(Setting::Output)
    } else if is_word(&w, "--dt") {
        FlagClass::Takes(Setting::Dt)
    } else if is_word(&w, "--years") {
        FlagClass::Takes(Setting::Years)
    } else if is_word(&w, "--softening") {
        FlagClass::Takes(Setting::Softening)
    } else if is_word(&w, "--integrator") {
        FlagClass::Takes(Setting::Integrator)
    } else if is_word(&w, "--snapshot-every") {
        FlagClass::Takes(Setting::SnapshotEvery)
    } else if is_word(&w, "--plot") {
        FlagClass::Plot
    } else if is_word(&w, "--help") || is_word(&w, "-h") {
        FlagClass::Help
    } else {
        FlagClass::Unknown
    }
}

/// Scans the command-line words (without the program name) into items.
pub fn scan_args(args: &Vec<String>) -> (items: Vec<ArgItem>)
    ensures
        item_views(items@) == spec_scan(string_views(args@)),
{
    let ghost all = string_views(args@);
    let n = args.len();
    let mut items: Vec<ArgItem> = Vec::new();
    let mut i: usize = 0;
    proof {
        assert(all.subrange(0, n as int) =~= all);
        assert(item_views(items@) + spec_scan(all) =~= spec_scan(all));
    }
    while i < n
        invariant
            n == args.len(),
            all == string_views(args@),
            i <= n,
            item_views(items@) + spec_scan(all.subrange(i as int, n as int)) == spec_scan(all),
        decreases n - i,
    {
        let ghost rest = all.subrange(i as int, n as int);
        assert(rest[0] == args@[i as int]@);
        let class = classify(args[i].as_str());
        match class {
            FlagClass::Takes(k) => {
                if i + 1 < n {
                    let v = args[i + 1].clone();
                    let ghost before = items@;
                    items.push(ArgItem::Value(k, v));
                    proof {
                        assert(rest[1] == args@[i + 1]@);
                        assert(rest.subrange(2, rest.len() as int) =~= all.subrange(i + 2, n as int));
                        assert(item_views(items@) =~= item_views(before).push(ArgItemView::Value(k, rest[1])));
                        assert(item_views(items@) + spec_scan(all.subrange(i + 2, n as int)) =~=
                            item_views(before) + spec_scan(rest));
                    }
                    i = i + 2;
                } else {
                    let ghost before = items@;
                    items.push(ArgItem::MissingValue(k));
                    proof {
                        assert(item_views(items@) =~= item_views(before) + spec_scan(rest));
                    }
                    return items;
                }
            },
            FlagClass::Plot => {
                let ghost before = items@;
                items.push(ArgItem::Plot);
                proof {
                    assert(rest.subrange(1, rest.len() as int) =~= all.subrange(i + 1, n as int));
                    assert(item_views(items@) + spec_scan(all.subrange(i + 1, n as int)) =~=
                        item_views(before) + spec_scan(rest));
                }
                i = i + 1;
            },
            FlagClass::Help => {
                let ghost before = items@;
                items.push(ArgItem::Help);
                proof {
                    assert(item_views(items@) =~= item_views(before) + spec_scan(rest));
                }
                return items;
            },
            FlagClass::Unknown => {
                let a = args[i].clone();
                let ghost before = items@;
                items.push(ArgItem::Unknown(a));
                proof {
                    assert(item_views(items@) =~= item_views(before) + spec_scan(rest));
                }
                return items;
            },
        }
    }
    proof {
        assert(all.subrange(n as int, n as int) =~= Seq::<Seq<char>>::empty());
        assert(item_views(items@) + Seq::<ArgItemView>::empty() =~= item_views(items@));
    }
    items
}

/// An ASCII decimal digit.
pub open spec fn is_ascii_digit(c: char) -> bool {
    '0' <= c && c <= '9'
}

/// The value of a string of decimal digits, most significant first.
pub open spec fn digits_value(d: Seq<char>) -> nat
    decreases d.len(),
{
    if d.len() == 0 {
        0
    } else {
        digits_value(d.drop_last()) * 10 + ((d.last() as int) - ('0' as int)) as nat
    }
}

/// A count written as an optional `+` sign followed by the digits; this is
/// the part after the sign.
pub open spec fn unsigned_digits(s: Seq<char>) -> Seq<char> {
    if s.len() > 0 && s[0] == '+' {
        s.drop_first()
    } else {
        s
    }
}

/// Whether `s` is an optional `+` followed by at least one decimal digit and
/// nothing else.
pub open spec fn is_count_literal(s: Seq<char>) -> bool {
    let d = unsigned_digits(s);
    &&& d.len() > 0
    &&& forall|i: int| 0 <= i < d.len() ==> is_ascii_digit(#[trigger] d[i])
}

/// Why a count word is refused.
#[derive(Debug, Clone, Copy, PartialEq, Eq, Structural)]
pub enum CountError {
    /// The word is empty.
    Empty,
    /// The word holds a character that is no decimal digit where a digit is
    /// due (a sign alone, a `-`, or any other character).
    InvalidDigit,
    /// The digits denote a number larger than `usize::MAX`.
    TooLarge,
}

impl CountError {
    /// The message shown for this error.
    pub fn message(&self) -> (r: &'static str)
        ensures
            r@ == spec_count_error_message(*self),
    {
        match self {
            CountError::Empty => "cannot parse integer from empty string",
            CountError::InvalidDigit => "invalid digit found in string",
            CountError::TooLarge => "number too large to fit in target type",
        }
    }
}

/// The message of each count error.
pub open spec fn spec_count_error_message(e: CountError) -> Seq<char> {
    match e {
        CountError::Empty => "cannot parse integer from empty string"@,
        CountError::InvalidDigit => "invalid digit found in string"@,
        CountError::TooLarge => "number too large to fit in target type"@,
    }
}

/// The value of one decimal digit.
pub open spec fn digit_of(c: char) -> int {
    (c as int) - ('0' as int)
}

/// Reads the digits `d` from left to right into a `usize`: the first
/// character that is no decimal digit fails with `InvalidDigit`, and the
/// first digit at which the value read so far passes `usize::MAX` fails with
/// `TooLarge`; whichever comes first decides.
pub open spec fn scan_digits(d: Seq<char>) -> Result<nat, CountError>
    decreases d.len(),
{
    if d.len() == 0 {
        Ok(0)
    } else {
        match scan_digits(d.drop_last()) {
            Err(e) => Err(e),
            Ok(v) => if !is_ascii_digit(d.last()) {
                Err(CountError::InvalidDigit)
            } else if v * 10 + digit_of(d.last()) > usize::MAX {
                Err(CountError::TooLarge)
            } else {
                Ok((v * 10 + digit_of(d.last())) as nat)
            },
        }
    }
}

/// What parsing a count word gives: an empty word is `Empty`, a sign alone
/// is `InvalidDigit`, and otherwise the digits after an optional `+` are read
/// by [`scan_digits`].
pub open spec fn spec_parse_count(s: Seq<char>) -> Result<nat, CountError> {
    if s.len() == 0 {
        Err(CountError::Empty)
    } else if s.len() == 1 && (s[0] == '+' || s[0] == '-') {
        Err(CountError::InvalidDigit)
    } else {
        scan_digits(unsigned_digits(s))
    }
}

/// Once reading a prefix of the digits has failed, reading all of them fails
/// the same way.
proof fn lemma_scan_error_stays(d: Seq<char>, k: int)
    requires
        0 <= k <= d.len(),
        scan_digits(d.take(k)) is Err,
    ensures
        scan_digits(d) == scan_digits(d.take(k)),
    decreases d.len() - k,
{
    if k < d.len() {
        assert(d.take(k + 1).drop_last() =~= d.take(k));
        lemma_scan_error_stays(d, k + 1);
    } else {
        assert(d.take(k) =~= d);
    }
}

/// Reading digits succeeds exactly when all are decimal digits and their
/// value fits in `usize`, and then gives that value.
proof fn lemma_scan_digits_value(d: Seq<char>)
    ensures
        scan_digits(d) is Ok <==> ((forall|i: int| 0 <= i < d.len() ==> is_ascii_digit(#[trigger] d[i]))
            && digits_value(d) <= usize::MAX),
        scan_digits(d) is Ok ==> scan_digits(d) == Ok::<nat, CountError>(digits_value(d)),
    decreases d.len(),
{
    if d.len() > 0 {
        let p = d.drop_last();
        lemma_scan_digits_value(p);
        assert forall|i: int| 0 <= i < p.len() implies p[i] == d[i] by {}
        if (forall|i: int| 0 <= i < d.len() ==> is_ascii_digit(#[trigger] d[i])) {
            assert(is_ascii_digit(d[d.len() - 1]));
            assert(forall|i: int| 0 <= i < p.len() ==> is_ascii_digit(#[trigger] p[i])) by {
                assert forall|i: int| 0 <= i < p.len() implies is_ascii_digit(#[trigger] p[i]) by {
                    assert(is_ascii_digit(d[i]));
                }
            }
            let dv = digits_value(p);
            assert(dv * 10 + digit_of(d.last()) >= dv) by (nonlinear_arith)
                requires
                    dv >= 0,
                    digit_of(d.last()) >= 0,
            ;
        } else {
            let j = choose|j: int| 0 <= j < d.len() && !is_ascii_digit(#[trigger] d[j]);
            if j < p.len() {
                assert(!is_ascii_digit(p[j]));
            }
        }
    }
}

/// A count word is accepted exactly when it is an optional `+` followed by
/// decimal digits only, whose value fits in `usize`; the result is that value.
pub proof fn lemma_count_accepts_exactly_literals(s: Seq<char>)
    ensures
        spec_parse_count(s) is Ok <==> (is_count_literal(s) && digits_value(unsigned_digits(s)) <= usize::MAX),
        spec_parse_count(s) is Ok ==> spec_parse_count(s) == Ok::<nat, CountError>(
            digits_value(unsigned_digits(s)),
        ),
{
    lemma_scan_digits_value(unsigned_digits(s));
    if s.len() == 1 && (s[0] == '+' || s[0] == '-') {
        if s[0] == '-' {
            assert(!is_ascii_digit(unsigned_digits(s)[0]));
        }
    }
}

proof fn lemma_room_for_digit(value: int, digit: int, max: int)
    requires
        0 <= value,
        0 <= digit <= 9,
        max >= 9,
    ensures
        (value * 10 + digit > max) <==> (value > (max - digit) / 10),
{
    assert((value * 10 + digit > max) <==> (value > (max - digit) / 10)) by (nonlinear_arith)
        requires
            0 <= value,
            0 <= digit <= 9,
            max >= 9,
    ;
}

/// Parses the value word of a count setting such as `--snapshot-every`, as a
/// decimal `usize` with an optional `+` sign.
pub fn parse_step_count(s: &str) -> (r: Result<usize, CountError>)
    ensures
        match r {
            Ok(n) => spec_parse_count(s@) == Ok::<nat, CountError>(n as nat),
            Err(e) => spec_parse_count(s@) == Err::<nat, CountError>(e),
        },
{
    let n = s.unicode_len();
    if n == 0 {
        return Err(CountError::Empty);
    }
    let first = s.get_char(0);
    if n == 1 && (first == '+' || first == '-') {
        return Err(CountError::InvalidDigit);
    }
    let start: usize = if first == '+' { 1 } else { 0 };
    let ghost d = unsigned_digits(s@);
    assert(d =~= s@.subrange(start as int, n as int));
    assert(d.take(0) =~= Seq::<char>::empty());
    assert(spec_parse_count(s@) == scan_digits(d));
    let mut value: usize = 0;
    let mut i: usize = start;
    while i < n
        invariant
            start <= i <= n,
            n == s@.len(),
            start <= 1,
            d == s@.subrange(start as int, n as int),
            spec_parse_count(s@) == scan_digits(d),
            scan_digits(d.take(i - start)) == Ok::<nat, CountError>(value as nat),
        decreases n - i,
    {
        let c = s.get_char(i);
        let ghost k: int = i - start;
        assert(d.take(k + 1).drop_last() =~= d.take(k));
        assert(d.take(k + 1).last() == c);
        if !('0' <= c && c <= '9') {
            proof {
                lemma_scan_error_stays(d, k + 1);
            }
            return Err(CountError::InvalidDigit);
        }
        let digit: usize = ((c as u32) - 48) as usize;
        assert(digit == digit_of(c));
        proof {
            lemma_room_for_digit(value as int, digit as int, usize::MAX as int);
        }
        if value > (usize::MAX - digit) / 10 {
            proof {
                lemma_scan_error_stays(d, k + 1);
            }
            return Err(CountError::TooLarge);
        }
        value = value * 10 + digit;
        i = i + 1;
    }
    assert(d.take(n - start) =~= d);
    Ok(value)
}

} // verus!
