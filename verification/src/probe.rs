//! The closeness probe: its command line, and the figures that it reports.

use crate::address::SocketAddr;
use crate::keys::LookupKey;
use crate::text::{digit_value, encode_hex, hex, is_digit, number};
use vstd::prelude::*;
use vstd::string::*;

verus! {

/// Number of lookups where none is given.
pub const DEFAULT_ITERATIONS: usize = 30;

/// Number of peers to look for where none is given.
pub const DEFAULT_COUNT: usize = 16;

/// Seconds before the first lookup where none are given.
pub const DEFAULT_WARMUP_SECS: u64 = 30;

/// Seconds between lookups where none are given.
pub const DEFAULT_SLEEP_SECS: u64 = 1;

/// Why a text is not a number.
#[derive(Debug, Clone, Copy, PartialEq, Eq, Structural)]
pub enum NumberFault {
    /// The text is empty.
    Empty,
    /// A character is no digit.
    InvalidDigit,
    /// The number is too large.
    TooLarge,
}

impl NumberFault {
    /// The fault in words.
    pub open spec fn text(self) -> Seq<char> {
        match self {
            NumberFault::Empty => "cannot parse integer from empty string"@,
            NumberFault::InvalidDigit => "invalid digit found in string"@,
            NumberFault::TooLarge => "number too large to fit in target type"@,
        }
    }

    /// The fault in words.
    pub fn message(&self) -> (message: String)
        ensures
            message@ == self.text(),
    {
        match self {
            NumberFault::Empty => "cannot parse integer from empty string".to_owned(),
            NumberFault::InvalidDigit => "invalid digit found in string".to_owned(),
            NumberFault::TooLarge => "number too large to fit in target type".to_owned(),
        }
    }
}

/// The number that digits spell, as long as it is within a bound. The first
/// character that is no digit, or that takes the number over the bound, decides.
pub open spec fn bounded_number(text: Seq<char>, bound: nat) -> Result<nat, NumberFault>
    decreases text.len(),
{
    if text.len() == 0 {
        Ok(0)
    } else {
        match bounded_number(text.drop_last(), bound) {
            Err(fault) => Err(fault),
            Ok(value) => if !is_digit(text.last()) {
                Err(NumberFault::InvalidDigit)
            } else if value * 10 + digit_value(text.last()) > bound {
                Err(NumberFault::TooLarge)
            } else {
                Ok(value * 10 + digit_value(text.last()))
            },
        }
    }
}

/// The number that a text spells: digits, with a plus sign before them or
/// without.
pub open spec fn unsigned(text: Seq<char>, bound: nat) -> Result<nat, NumberFault> {
    if text.len() == 0 {
        Err(NumberFault::Empty)
    } else if text.len() > 1 && text[0] == '+' {
        bounded_number(text.skip(1), bound)
    } else {
        bounded_number(text, bound)
    }
}

proof fn lemma_faults_stay(text: Seq<char>, bound: nat, count: int)
    requires
        0 <= count <= text.len(),
        bounded_number(text.take(count), bound) is Err,
    ensures
        bounded_number(text, bound) == bounded_number(text.take(count), bound),
    decreases text.len() - count,
{
    if count < text.len() {
        assert(text.take(count + 1).drop_last() =~= text.take(count));
        lemma_faults_stay(text, bound, count + 1);
    } else {
        assert(text.take(count) =~= text);
    }
}

fn parse_unsigned(text: &str, bound: u64) -> (parsed: Result<u64, NumberFault>)
    ensures
        match parsed {
            Ok(value) => unsigned(text@, bound as nat) == Ok::<nat, NumberFault>(value as nat),
            Err(fault) => unsigned(text@, bound as nat) == Err::<nat, NumberFault>(fault),
        },
{
    let count: usize = text.unicode_len();
    if count == 0 {
        return Err(NumberFault::Empty);
    }
    let start: usize = if count > 1 && text.get_char(0) == '+' {
        1
    } else {
        0
    };
    let ghost digits = text@.skip(start as int);
    proof {
        assert(text@.skip(0) =~= text@);
    }
    let mut value: u64 = 0;
    let mut index: usize = start;
    while index < count
        invariant
            start <= index <= count,
            count == text@.len(),
            digits == text@.skip(start as int),
            unsigned(text@, bound as nat) == bounded_number(digits, bound as nat),
            value <= bound,
            bounded_number(digits.take(index - start), bound as nat) == Ok::<nat, NumberFault>(
                value as nat,
            ),
        decreases count - index,
    {
        let character = text.get_char(index);
        proof {
            let at = index - start;
            assert(digits[at] == character);
            assert(digits.take(at + 1).drop_last() =~= digits.take(at));
            assert(digits.take(at + 1).last() == character);
        }
        if (character as u32) < ('0' as u32) || (character as u32) > ('9' as u32) {
            proof {
                lemma_faults_stay(digits, bound as nat, index - start + 1);
            }
            return Err(NumberFault::InvalidDigit);
        }
        let digit: u64 = (character as u32 - '0' as u32) as u64;
        if value > (bound - if digit <= bound { digit } else { bound }) / 10 || digit > bound {
            proof {
                assert(value * 10 + digit > bound);
                lemma_faults_stay(digits, bound as nat, index - start + 1);
            }
            return Err(NumberFault::TooLarge);
        }
        value = value * 10 + digit;
        index += 1;
    }
    assert(digits.take(digits.len() as int) =~= digits);
    Ok(value)
}

/// What the probe was asked to do.
#[derive(Debug)]
pub struct Args {
    /// Where to join the network.
    pub bootstraps: Vec<SocketAddr>,
    /// Number of lookups.
    pub iterations: usize,
    /// Number of peers to look for.
    pub count: usize,
    /// Seconds before the first lookup.
    pub warmup_secs: u64,
    /// Seconds between lookups.
    pub sleep_secs: u64,
}

/// What the probe was asked to do.
#[verifier::ext_equal]
pub struct ArgsView {
    /// Where to join the network.
    pub bootstraps: Seq<SocketAddr>,
    /// Number of lookups.
    pub iterations: nat,
    /// Number of peers to look for.
    pub count: nat,
    /// Seconds before the first lookup.
    pub warmup_secs: nat,
    /// Seconds between lookups.
    pub sleep_secs: nat,
}

impl View for Args {
    type V = ArgsView;

    open spec fn view(&self) -> ArgsView {
        ArgsView {
            bootstraps: self.bootstraps@,
            iterations: self.iterations as nat,
            count: self.count as nat,
            warmup_secs: self.warmup_secs as nat,
            sleep_secs: self.sleep_secs as nat,
        }
    }
}

/// The options of the probe that take a number.
#[derive(Debug, Clone, Copy, PartialEq, Eq, Structural)]
pub enum NumberOption {
    /// Number of lookups.
    Iterations,
    /// Number of peers to look for.
    Count,
    /// Seconds before the first lookup.
    WarmupSecs,
    /// Seconds between lookups.
    SleepSecs,
}

impl NumberOption {
    /// How the option is written.
    pub open spec fn flag(self) -> Seq<char> {
        match self {
            NumberOption::Iterations => "--iterations"@,
            NumberOption::Count => "--count"@,
            NumberOption::WarmupSecs => "--warmup-secs"@,
            NumberOption::SleepSecs => "--sleep-secs"@,
        }
    }

    /// The largest number that the option takes.
    pub open spec fn bound(self) -> nat {
        match self {
            NumberOption::Iterations | NumberOption::Count => usize::MAX as nat,
            NumberOption::WarmupSecs | NumberOption::SleepSecs => u64::MAX as nat,
        }
    }

    fn name(&self) -> (flag: &'static str)
        ensures
            flag@ == self.flag(),
    {
        match self {
            NumberOption::Iterations => "--iterations",
            NumberOption::Count => "--count",
            NumberOption::WarmupSecs => "--warmup-secs",
            NumberOption::SleepSecs => "--sleep-secs",
        }
    }
}

/// Why a command line is not understood.
#[derive(Debug, Clone, PartialEq, Eq)]
pub enum ArgsFault {
    /// The last argument asks for an address that is not given.
    NoAddress,
    /// An address is not understood, for the reason given.
    BadAddress(String, String),
    /// The last argument asks for a number that is not given.
    NoNumber(NumberOption),
    /// A number is not understood.
    BadNumber(NumberOption, NumberFault),
    /// Help was asked for.
    Help,
    /// An argument is not known.
    Unknown(String),
    /// No address was given.
    NoBootstrap,
}

impl ArgsFault {
    /// The fault in words.
    pub open spec fn text(self) -> Seq<char> {
        match self {
            ArgsFault::NoAddress => "--bootstrap needs a host:port"@,
            ArgsFault::BadAddress(address, cause) => "--bootstrap "@ + address@ + ": "@ + cause@,
            ArgsFault::NoNumber(option) => option.flag() + " needs a number"@,
            ArgsFault::BadNumber(option, fault) => option.flag() + ": "@ + fault.text(),
            ArgsFault::Help => "see header comment"@,
            ArgsFault::Unknown(argument) => "unknown arg: "@ + argument@,
            ArgsFault::NoBootstrap => "at least one --bootstrap is required"@,
        }
    }

    /// The fault in words.
    pub fn message(&self) -> (message: String)
        ensures
            message@ == self.text(),
    {
        match self {
            ArgsFault::NoAddress => "--bootstrap needs a host:port".to_owned(),
            ArgsFault::BadAddress(address, cause) => {
                let mut message = "--bootstrap ".to_owned();
                message.append(address.as_str());
                message.append(": ");
                message.append(cause.as_str());
                message
            },
            ArgsFault::NoNumber(option) => {
                let mut message = option.name().to_owned();
                message.append(" needs a number");
                message
            },
            ArgsFault::BadNumber(option, fault) => {
                let mut message = option.name().to_owned();
                message.append(": ");
                message.append(fault.message().as_str());
                message
            },
            ArgsFault::Help => "see header comment".to_owned(),
            ArgsFault::Unknown(argument) => {
                let mut message = "unknown arg: ".to_owned();
                message.append(argument.as_str());
                message
            },
            ArgsFault::NoBootstrap => "at least one --bootstrap is required".to_owned(),
        }
    }
}

/// What an argument is, apart from what follows it.
pub enum Argument {
    /// An address follows.
    Bootstrap,
    /// A number follows.
    Number(NumberOption),
    /// Help is asked for.
    Help,
    /// It is not known.
    Unknown,
}

/// What an argument is, apart from what follows it.
pub open spec fn argument(text: Seq<char>) -> Argument {
    if text == "--bootstrap"@ {
        Argument::Bootstrap
    } else if text == "--iterations"@ {
        Argument::Number(NumberOption::Iterations)
    } else if text == "--count"@ {
        Argument::Number(NumberOption::Count)
    } else if text == "--warmup-secs"@ {
        Argument::Number(NumberOption::WarmupSecs)
    } else if text == "--sleep-secs"@ {
        Argument::Number(NumberOption::SleepSecs)
    } else if text == "-h"@ || text == "--help"@ {
        Argument::Help
    } else {
        Argument::Unknown
    }
}

fn read_argument(text: &String) -> (read: Argument)
    ensures
        read == argument(text@),
{
    if *text == "--bootstrap".to_owned() {
        Argument::Bootstrap
    } else if *text == "--iterations".to_owned() {
        Argument::Number(NumberOption::Iterations)
    } else if *text == "--count".to_owned() {
        Argument::Number(NumberOption::Count)
    } else if *text == "--warmup-secs".to_owned() {
        Argument::Number(NumberOption::WarmupSecs)
    } else if *text == "--sleep-secs".to_owned() {
        Argument::Number(NumberOption::SleepSecs)
    } else if *text == "-h".to_owned() || *text == "--help".to_owned() {
        Argument::Help
    } else {
        Argument::Unknown
    }
}

impl ArgsView {
    /// What the probe does where nothing is asked.
    pub open spec fn defaults() -> ArgsView {
        ArgsView {
            bootstraps: Seq::empty(),
            iterations: DEFAULT_ITERATIONS as nat,
            count: DEFAULT_COUNT as nat,
            warmup_secs: DEFAULT_WARMUP_SECS as nat,
            sleep_secs: DEFAULT_SLEEP_SECS as nat,
        }
    }

    /// The same, with one number changed.
    pub open spec fn with(self, option: NumberOption, value: nat) -> ArgsView {
        match option {
            NumberOption::Iterations => ArgsView { iterations: value, ..self },
            NumberOption::Count => ArgsView { count: value, ..self },
            NumberOption::WarmupSecs => ArgsView { warmup_secs: value, ..self },
            NumberOption::SleepSecs => ArgsView { sleep_secs: value, ..self },
        }
    }
}

/// What a command line asks for, from a position on. `sockets` says of each
/// argument which socket address it spells, or why none.
pub open spec fn asked(
    argv: Seq<String>,
    sockets: Seq<Result<SocketAddr, String>>,
    from: int,
    args: ArgsView,
) -> Result<ArgsView, ArgsFault>
    decreases argv.len() - from,
{
    if from < 0 || from >= argv.len() {
        if args.bootstraps.len() == 0 {
            Err(ArgsFault::NoBootstrap)
        } else {
            Ok(args)
        }
    } else {
        match argument(argv[from]@) {
            Argument::Bootstrap => if from + 1 >= argv.len() {
                Err(ArgsFault::NoAddress)
            } else {
                match sockets[from + 1] {
                    Ok(socket) => asked(
                        argv,
                        sockets,
                        from + 2,
                        ArgsView { bootstraps: args.bootstraps.push(socket), ..args },
                    ),
                    Err(cause) => Err(ArgsFault::BadAddress(argv[from + 1], cause)),
                }
            },
            Argument::Number(option) => if from + 1 >= argv.len() {
                Err(ArgsFault::NoNumber(option))
            } else {
                match unsigned(argv[from + 1]@, option.bound()) {
                    Ok(value) => asked(argv, sockets, from + 2, args.with(option, value)),
                    Err(fault) => Err(ArgsFault::BadNumber(option, fault)),
                }
            },
            Argument::Help => Err(ArgsFault::Help),
            Argument::Unknown => Err(ArgsFault::Unknown(argv[from])),
        }
    }
}

/// Read the command line of the probe, without the name of the program.
/// `sockets` says of each argument which socket address it spells, or why none.
pub fn parse_args(
    argv: &Vec<String>,
    sockets: &Vec<Result<SocketAddr, String>>,
) -> (parsed: Result<Args, ArgsFault>)
    requires
        sockets@.len() == argv@.len(),
    ensures
        match parsed {
            Ok(args) => asked(argv@, sockets@, 0, ArgsView::defaults()) == Ok::<
                ArgsView,
                ArgsFault,
            >(args@),
            Err(fault) => asked(argv@, sockets@, 0, ArgsView::defaults()) == Err::<
                ArgsView,
                ArgsFault,
            >(fault),
        },
{
    let mut args = Args {
        bootstraps: Vec::new(),
        iterations: DEFAULT_ITERATIONS,
        count: DEFAULT_COUNT,
        warmup_secs: DEFAULT_WARMUP_SECS,
        sleep_secs: DEFAULT_SLEEP_SECS,
    };
    let mut index: usize = 0;
    proof {
        assert(args@ =~= ArgsView::defaults());
    }
    while index < argv.len()
        invariant
            index <= argv@.len(),
            sockets@.len() == argv@.len(),
            asked(argv@, sockets@, 0, ArgsView::defaults()) == asked(
                argv@,
                sockets@,
                index as int,
                args@,
            ),
        decreases argv@.len() - index,
    {
        match read_argument(&argv[index]) {
            Argument::Bootstrap => {
                if index + 1 >= argv.len() {
                    return Err(ArgsFault::NoAddress);
                }
                match &sockets[index + 1] {
                    Ok(socket) => {
                        args.bootstraps.push(*socket);
                    },
                    Err(cause) => {
                        return Err(ArgsFault::BadAddress(argv[index + 1].clone(), cause.clone()));
                    },
                }
            },
            Argument::Number(option) => {
                if index + 1 >= argv.len() {
                    return Err(ArgsFault::NoNumber(option));
                }
                let text = argv[index + 1].as_str();
                let bound: u64 = match option {
                    NumberOption::Iterations | NumberOption::Count => usize::MAX as u64,
                    NumberOption::WarmupSecs | NumberOption::SleepSecs => u64::MAX,
                };
                let value: u64 = match parse_unsigned(text, bound) {
                    Ok(value) => value,
                    Err(fault) => {
                        return Err(ArgsFault::BadNumber(option, fault));
                    },
                };
                match option {
                    NumberOption::Iterations => {
                        args.iterations = value as usize;
                    },
                    NumberOption::Count => {
                        args.count = value as usize;
                    },
                    NumberOption::WarmupSecs => {
                        args.warmup_secs = value;
                    },
                    NumberOption::SleepSecs => {
                        args.sleep_secs = value;
                    },
                }
            },
            Argument::Help => {
                return Err(ArgsFault::Help);
            },
            Argument::Unknown => {
                return Err(ArgsFault::Unknown(argv[index].clone()));
            },
        }
        index += 2;
    }
    if args.bootstraps.len() == 0 {
        return Err(ArgsFault::NoBootstrap);
    }
    Ok(args)
}

/// The first four bytes of a key as hexadecimal text, and an ellipsis.
pub fn hex_short(target: &LookupKey) -> (text: String)
    ensures
        text@ == hex(target@.take(4)).push('…'),
{
    let mut first: Vec<u8> = Vec::new();
    first.push(target[0]);
    first.push(target[1]);
    first.push(target[2]);
    first.push(target[3]);
    assert(first@ =~= target@.take(4));
    let mut text = encode_hex(&first);
    text.push('…');
    text
}

/// Whether numbers stand in ascending order.
pub open spec fn ascending(values: Seq<u128>) -> bool {
    forall|i: int, j: int| 0 <= i <= j < values.len() ==> values[i] <= values[j]
}

/// The sum of numbers.
pub open spec fn sum(values: Seq<u128>) -> nat
    decreases values.len(),
{
    if values.len() == 0 {
        0
    } else {
        sum(values.drop_last()) + values.last() as nat
    }
}

/// The position of a percentile among so many numbers in ascending order.
pub open spec fn percentile_at(count: nat, percent: nat) -> int {
    if count * percent / 100 < count {
        (count * percent / 100) as int
    } else {
        count - 1
    }
}

/// How long the lookups took, in milliseconds.
#[derive(Debug, Clone, Copy, PartialEq, Eq, Structural)]
pub struct LatencySummary {
    /// The shortest.
    pub min: u128,
    /// Half of them took less.
    pub p50: u128,
    /// The mean, rounded down.
    pub mean: u128,
    /// Nine tenths of them took less.
    pub p90: u128,
    /// All but five in a hundred took less.
    pub p95: u128,
    /// All but one in a hundred took less.
    pub p99: u128,
    /// The longest.
    pub max: u128,
}

/// The figures of latencies that are given in ascending order, with their sum.
pub open spec fn figures(sorted: Seq<u128>, total: nat) -> LatencySummary {
    LatencySummary {
        min: sorted[0],
        p50: sorted[percentile_at(sorted.len(), 50)],
        mean: (total / sorted.len()) as u128,
        p90: sorted[percentile_at(sorted.len(), 90)],
        p95: sorted[percentile_at(sorted.len(), 95)],
        p99: sorted[percentile_at(sorted.len(), 99)],
        max: sorted[sorted.len() - 1],
    }
}

/// Whether figures are those of latencies in whatever order.
pub open spec fn summarizes(latencies: Seq<u128>, summary: LatencySummary) -> bool {
    exists|sorted: Seq<u128>| #[trigger]
        ascending(sorted) && sorted.to_multiset() == latencies.to_multiset() && summary == figures(
            sorted,
            sum(latencies),
        )
}

fn sorted_copy(values: &Vec<u128>) -> (sorted: Vec<u128>)
    ensures
        ascending(sorted@),
        sorted@.to_multiset() == values@.to_multiset(),
        sorted@.len() == values@.len(),
{
    let mut sorted: Vec<u128> = Vec::new();
    let mut index: usize = 0;
    assert(values@.take(0) =~= sorted@);
    while index < values.len()
        invariant
            index <= values@.len(),
            sorted@.len() == index,
            ascending(sorted@),
            sorted@.to_multiset() == values@.take(index as int).to_multiset(),
        decreases values@.len() - index,
    {
        let value = values[index];
        let mut at: usize = sorted.len();
        while at > 0 && sorted[at - 1] > value
            invariant
                at <= sorted@.len(),
                ascending(sorted@),
                forall|i: int| at <= i < sorted@.len() ==> sorted@[i] > value,
            decreases at,
        {
            at -= 1;
        }
        let ghost held = sorted@;
        sorted.insert(at, value);
        proof {
            assert(values@.take(index as int + 1) =~= values@.take(index as int).push(value));
            vstd::seq_lib::to_multiset_insert(held, at as int, value);
            values@.take(index as int).to_multiset_ensures();
            assert forall|i: int, j: int| 0 <= i <= j < sorted@.len() implies sorted@[i]
                <= sorted@[j] by {
                if i < at && j > at {
                    assert(held[i] <= held[j - 1]);
                } else if i < at && j == at {
                    assert(held[i] <= held[at - 1]);
                } else if i > at {
                    assert(held[i - 1] <= held[j - 1]);
                }
            }
        }
        index += 1;
    }
    assert(values@.take(values@.len() as int) =~= values@);
    sorted
}

fn percentile(sorted: &Vec<u128>, percent: usize) -> (value: u128)
    requires
        sorted@.len() > 0,
        percent <= 100,
        sorted@.len() * 100 <= usize::MAX,
    ensures
        value == sorted@[percentile_at(sorted@.len(), percent as nat)],
{
    let count: usize = sorted.len();
    assert(count * percent <= count * 100) by (nonlinear_arith)
        requires
            percent <= 100,
    ;
    let position: usize = count * percent / 100;
    if position < count {
        sorted[position]
    } else {
        sorted[count - 1]
    }
}

fn total_of(values: &Vec<u128>) -> (total: u128)
    requires
        sum(values@) <= u128::MAX,
    ensures
        total == sum(values@),
{
    let mut total: u128 = 0;
    let mut index: usize = 0;
    while index < values.len()
        invariant
            index <= values@.len(),
            sum(values@) <= u128::MAX,
            total == sum(values@.take(index as int)),
        decreases values@.len() - index,
    {
        proof {
            assert(values@.take(index as int + 1).drop_last() =~= values@.take(index as int));
            lemma_sum_grows(values@, index as int + 1);
        }
        total = total + values[index];
        index += 1;
    }
    assert(values@.take(values@.len() as int) =~= values@);
    total
}

proof fn lemma_sum_grows(values: Seq<u128>, count: int)
    requires
        0 <= count <= values.len(),
    ensures
        sum(values.take(count)) <= sum(values),
    decreases values.len() - count,
{
    if count < values.len() {
        assert(values.take(count + 1).drop_last() =~= values.take(count));
        lemma_sum_grows(values, count + 1);
    } else {
        assert(values.take(count) =~= values);
    }
}

/// Sum up how long the lookups took. None comes where no lookup succeeded.
pub fn summarize_latencies(latencies: &Vec<u128>) -> (summary: Option<LatencySummary>)
    requires
        sum(latencies@) <= u128::MAX,
        latencies@.len() * 100 <= usize::MAX,
    ensures
        match summary {
            Some(found) => latencies@.len() > 0 && summarizes(latencies@, found),
            None => latencies@.len() == 0,
        },
{
    if latencies.len() == 0 {
        return None;
    }
    let sorted = sorted_copy(latencies);
    let total: u128 = total_of(latencies);
    let count: usize = latencies.len();
    let summary = LatencySummary {
        min: sorted[0],
        p50: percentile(&sorted, 50),
        mean: total / (count as u128),
        p90: percentile(&sorted, 90),
        p95: percentile(&sorted, 95),
        p99: percentile(&sorted, 99),
        max: sorted[sorted.len() - 1],
    };
    proof {
        assert(summary == figures(sorted@, sum(latencies@)));
        assert(summarizes(latencies@, summary));
    }
    Some(summary)
}

/// How many results fell short of the number of peers that was asked for.
pub open spec fn short_count(returned: Seq<usize>, wanted: usize) -> nat
    decreases returned.len(),
{
    if returned.len() == 0 {
        0
    } else {
        short_count(returned.drop_last(), wanted) + if returned.last() < wanted {
            1nat
        } else {
            0nat
        }
    }
}

/// Count the results that fell short of the number of peers that was asked for.
pub fn short_results(returned: &Vec<usize>, wanted: usize) -> (count: usize)
    ensures
        count == short_count(returned@, wanted),
{
    let mut count: usize = 0;
    let mut index: usize = 0;
    while index < returned.len()
        invariant
            index <= returned@.len(),
            count <= index,
            count == short_count(returned@.take(index as int), wanted),
        decreases returned@.len() - index,
    {
        proof {
            assert(returned@.take(index as int + 1).drop_last() =~= returned@.take(index as int));
        }
        if returned[index] < wanted {
            count += 1;
        }
        index += 1;
    }
    assert(returned@.take(returned@.len() as int) =~= returned@);
    count
}

/// A text of digits spells its number wherever that is within the bound, and is
/// too large else; a plus sign before the digits changes nothing.
pub proof fn law_digits_spell_their_number(text: Seq<char>, bound: nat)
    requires
        text.len() > 0,
        forall|i: int| 0 <= i < text.len() ==> is_digit(#[trigger] text[i]),
    ensures
        number(text) <= bound ==> unsigned(text, bound) == Ok::<nat, NumberFault>(number(text)),
        number(text) > bound ==> unsigned(text, bound) == Err::<nat, NumberFault>(
            NumberFault::TooLarge,
        ),
        unsigned(seq!['+'] + text, bound) == unsigned(text, bound),
{
    assert(is_digit(text[0]));
    assert((seq!['+'] + text).skip(1) =~= text);
    lemma_digits_are_bounded(text, bound);
}

proof fn lemma_digits_are_bounded(text: Seq<char>, bound: nat)
    requires
        forall|i: int| 0 <= i < text.len() ==> is_digit(#[trigger] text[i]),
    ensures
        number(text) <= bound ==> bounded_number(text, bound) == Ok::<nat, NumberFault>(
            number(text),
        ),
        number(text) > bound ==> bounded_number(text, bound) == Err::<nat, NumberFault>(
            NumberFault::TooLarge,
        ),
    decreases text.len(),
{
    if text.len() > 0 {
        let rest = text.drop_last();
        assert forall|i: int| 0 <= i < rest.len() implies is_digit(#[trigger] rest[i]) by {
            assert(rest[i] == text[i]);
        }
        assert(is_digit(text[text.len() - 1]));
        lemma_digits_are_bounded(rest, bound);
        assert(number(text) == number(rest) * 10 + digit_value(text.last()));
    }
}

/// An empty text is no number, and a lone sign and a text with a character that is
/// no digit are none either.
pub proof fn law_other_texts_are_no_numbers(text: Seq<char>, bound: nat, index: int)
    requires
        0 <= index < text.len(),
        !is_digit(text[index]),
        index > 0 || text.len() == 1 || text[0] != '+',
    ensures
        unsigned(text, bound) is Err,
        unsigned(Seq::empty(), bound) == Err::<nat, NumberFault>(NumberFault::Empty),
{
    if text.len() > 1 && text[0] == '+' {
        let rest = text.skip(1);
        assert(rest[index - 1] == text[index]);
        lemma_stray_character(rest, bound, index - 1);
    } else {
        lemma_stray_character(text, bound, index);
    }
}

proof fn lemma_stray_character(text: Seq<char>, bound: nat, index: int)
    requires
        0 <= index < text.len(),
        !is_digit(text[index]),
    ensures
        bounded_number(text, bound) is Err,
    decreases text.len(),
{
    if index < text.len() - 1 {
        assert(text.drop_last()[index] == text[index]);
        lemma_stray_character(text.drop_last(), bound, index);
    }
}

/// A command line that names nothing but where to join the network asks for the
/// defaults there, in the order given; one that names nothing is refused.
pub proof fn law_bootstraps_are_joined_in_order(
    argv: Seq<String>,
    sockets: Seq<Result<SocketAddr, String>>,
    from: int,
    args: ArgsView,
)
    requires
        0 <= from <= argv.len(),
        sockets.len() == argv.len(),
    ensures
        from == argv.len() ==> asked(argv, sockets, from, args) == if args.bootstraps.len() == 0 {
            Err::<ArgsView, ArgsFault>(ArgsFault::NoBootstrap)
        } else {
            Ok(args)
        },
        from + 1 < argv.len() && argv[from]@ == "--bootstrap"@ ==> {
            &&& sockets[from + 1] matches Ok(socket) ==> asked(argv, sockets, from, args) == asked(
                argv,
                sockets,
                from + 2,
                ArgsView { bootstraps: args.bootstraps.push(socket), ..args },
            )
            &&& sockets[from + 1] matches Err(cause) ==> asked(argv, sockets, from, args) == Err::<
                ArgsView,
                ArgsFault,
            >(ArgsFault::BadAddress(argv[from + 1], cause))
        },
        from + 1 == argv.len() && argv[from]@ == "--bootstrap"@ ==> asked(
            argv,
            sockets,
            from,
            args,
        ) == Err::<ArgsView, ArgsFault>(ArgsFault::NoAddress),
{
}

/// An option that takes a number takes the one behind it, which changes that
/// option alone.
pub proof fn law_options_change_one_number(args: ArgsView, option: NumberOption, value: nat)
    ensures
        ({
            let after = args.with(option, value);
            &&& after.bootstraps == args.bootstraps
            &&& after.iterations == (if option is Iterations {
                value
            } else {
                args.iterations
            })
            &&& after.count == (if option is Count {
                value
            } else {
                args.count
            })
            &&& after.warmup_secs == (if option is WarmupSecs {
                value
            } else {
                args.warmup_secs
            })
            &&& after.sleep_secs == (if option is SleepSecs {
                value
            } else {
                args.sleep_secs
            })
        }),
{
}

/// A percentile stands within the list, no earlier than a lower one, and leaves
/// at most its share of the numbers before it.
pub proof fn law_percentiles_are_in_place(count: nat, percent: nat, higher: nat)
    requires
        count > 0,
        percent <= higher <= 100,
    ensures
        0 <= percentile_at(count, percent) < count,
        percentile_at(count, percent) <= percentile_at(count, higher),
        100 * percentile_at(count, percent) <= count * percent,
        count * percent < 100 * (percentile_at(count, percent) + 1) || percent == 100,
        percentile_at(count, 0) == 0,
        percentile_at(count, 100) == count - 1,
{
    assert(count * percent <= count * higher) by (nonlinear_arith)
        requires
            percent <= higher,
    ;
    assert(count * higher <= count * 100) by (nonlinear_arith)
        requires
            higher <= 100,
    ;
    if percent < 100 {
        assert(count * percent < count * 100) by (nonlinear_arith)
            requires
                percent < 100,
                count > 0,
        ;
    }
    assert(count * 0 == 0);
}

/// The figures lie within the shortest and the longest latency and in the order of
/// their percentiles; both ends are latencies that occurred, and the mean is the
/// sum shared out, rounded down.
pub proof fn law_figures_are_in_order(latencies: Seq<u128>, summary: LatencySummary)
    requires
        latencies.len() > 0,
        sum(latencies) <= u128::MAX,
        summarizes(latencies, summary),
    ensures
        summary.min <= summary.p50 <= summary.p90 <= summary.p95 <= summary.p99 <= summary.max,
        latencies.contains(summary.min),
        latencies.contains(summary.max),
        latencies.contains(summary.p50),
        forall|i: int|
            0 <= i < latencies.len() ==> summary.min <= #[trigger] latencies[i] <= summary.max,
        summary.mean * latencies.len() <= sum(latencies) < (summary.mean + 1) * latencies.len(),
{
    broadcast use vstd::seq_lib::group_to_multiset_ensures;

    let sorted = choose|sorted: Seq<u128>| #[trigger]
        ascending(sorted) && sorted.to_multiset() == latencies.to_multiset() && summary == figures(
            sorted,
            sum(latencies),
        );
    assert(sorted.to_multiset().len() == sorted.len());
    assert(latencies.to_multiset().len() == latencies.len());
    let n = sorted.len();
    law_percentiles_are_in_place(n, 50, 90);
    law_percentiles_are_in_place(n, 90, 95);
    law_percentiles_are_in_place(n, 95, 99);
    law_percentiles_are_in_place(n, 99, 99);
    assert(latencies.contains(sorted[0])) by {
        assert(sorted.contains(sorted[0]));
        assert(sorted.to_multiset().count(sorted[0]) > 0);
    }
    assert(latencies.contains(sorted[n - 1])) by {
        assert(sorted.contains(sorted[n - 1]));
        assert(sorted.to_multiset().count(sorted[n - 1]) > 0);
    }
    let half = percentile_at(n, 50);
    assert(latencies.contains(sorted[half])) by {
        assert(sorted.contains(sorted[half]));
        assert(sorted.to_multiset().count(sorted[half]) > 0);
    }
    assert forall|i: int| 0 <= i < latencies.len() implies summary.min <= #[trigger] latencies[i]
        <= summary.max by {
        assert(latencies.contains(latencies[i]));
        assert(latencies.to_multiset().count(latencies[i]) > 0);
        assert(sorted.contains(latencies[i]));
        let k = sorted.index_of(latencies[i]);
        assert(sorted[0] <= sorted[k] <= sorted[n - 1]);
    }
    let total = sum(latencies);
    let mean = total / n;
    vstd::arithmetic::div_mod::lemma_fundamental_div_mod(total as int, n as int);
    assert(mean <= total) by (nonlinear_arith)
        requires
            mean == total / n,
            n > 0,
    ;
    assert(mean * n <= total < (mean + 1) * n) by (nonlinear_arith)
        requires
            total == n * mean + total % n,
            0 <= total % n < n,
    ;
}

/// A result falls short where it has fewer peers than were asked for, and each
/// such result counts once.
pub proof fn law_short_results_are_those_below(returned: Seq<usize>, wanted: usize)
    ensures
        short_count(returned, wanted) == returned.filter(|found: usize| found < wanted).len(),
        short_count(returned, 0) == 0,
    decreases returned.len(),
{
    reveal(Seq::filter);
    if returned.len() > 0 {
        law_short_results_are_those_below(returned.drop_last(), wanted);
    }
}

/// The figures are those at their share of the way through the latencies in
/// ascending order.
pub proof fn law_figures_stand_at_their_share(sorted: Seq<u128>, total: nat)
    requires
        sorted.len() > 0,
    ensures
        figures(sorted, total).min == sorted.first(),
        figures(sorted, total).p50 == sorted[(sorted.len() * 50 / 100) as int],
        figures(sorted, total).p90 == sorted[(sorted.len() * 90 / 100) as int],
        figures(sorted, total).p95 == sorted[(sorted.len() * 95 / 100) as int],
        figures(sorted, total).p99 == sorted[(sorted.len() * 99 / 100) as int],
        figures(sorted, total).max == sorted.last(),
{
}

/// Each option that takes a number is known by its name, and the number behind it
/// is taken where it is one within the bound.
pub proof fn law_options_are_known_by_name(
    option: NumberOption,
    argv: Seq<String>,
    sockets: Seq<Result<SocketAddr, String>>,
    from: int,
    args: ArgsView,
    value: nat,
)
    requires
        0 <= from < argv.len(),
        argv[from]@ == option.flag(),
    ensures
        from + 1 == argv.len() ==> asked(argv, sockets, from, args) == Err::<ArgsView, ArgsFault>(
            ArgsFault::NoNumber(option),
        ),
        from + 1 < argv.len() && unsigned(argv[from + 1]@, option.bound()) == Ok::<
            nat,
            NumberFault,
        >(value) ==> asked(argv, sockets, from, args) == asked(
            argv,
            sockets,
            from + 2,
            args.with(option, value),
        ),
        from + 1 < argv.len() && unsigned(argv[from + 1]@, option.bound()) is Err ==> asked(
            argv,
            sockets,
            from,
            args,
        ) is Err,
{
    reveal_strlit("--bootstrap");
    reveal_strlit("--iterations");
    reveal_strlit("--count");
    reveal_strlit("--warmup-secs");
    reveal_strlit("--sleep-secs");
    reveal_strlit("-h");
    reveal_strlit("--help");
    assert("--bootstrap"@.len() == 11 && "--iterations"@.len() == 12 && "--count"@.len() == 7
        && "--warmup-secs"@.len() == 13 && "--sleep-secs"@.len() == 12);
    assert("--iterations"@[2] == 'i' && "--sleep-secs"@[2] == 's');
    assert(argument(option.flag()) == Argument::Number(option));
}

} // verus!
