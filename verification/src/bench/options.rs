//! Command-line options of the benchmark programs.

use vstd::prelude::*;

use crate::bench::config::BenchmarkConfig;
use crate::text;
use crate::text::NumberError;
use crate::threshold::Threshold;

verus! {

/// What is wrong with a list of arguments. Arguments are named by position.
#[derive(Debug, Clone, Copy, PartialEq, Eq, Structural)]
pub enum OptionError {
    /// The argument is no option.
    Unknown {
        /// The argument.
        argument: usize,
    },
    /// No value follows the option.
    MissingValue {
        /// The option.
        flag: usize,
    },
    /// The value of the option is no number.
    InvalidNumber {
        /// The option.
        flag: usize,
        /// What is wrong with its value.
        error: NumberError,
    },
    /// The value of the option is no decimal fraction.
    InvalidFraction {
        /// The option.
        flag: usize,
    },
    /// There are fewer arguments than the command needs.
    TooFew,
}

/// The texts of arguments.
pub open spec fn texts(arguments: Seq<String>) -> Seq<Seq<char>> {
    Seq::new(arguments.len(), |i: int| arguments[i]@)
}

/// What the options of a benchmark say.
#[verifier::ext_equal]
pub struct OptionState {
    pub items: usize,
    pub queries: usize,
    pub set_size: usize,
    pub overlap: usize,
    pub threshold: Threshold,
    pub num_perm: usize,
    pub seed: u64,
    pub dataset: Option<Seq<char>>,
    pub threads: Option<usize>,
    pub output: Seq<char>,
}

/// The configuration and the place of the report that options ask for.
#[derive(Debug, PartialEq, Eq)]
pub struct BenchmarkOptions {
    /// The configuration.
    pub config: BenchmarkConfig,
    /// The path of the report.
    pub output: String,
}

impl View for BenchmarkOptions {
    type V = OptionState;

    open spec fn view(&self) -> OptionState {
        OptionState {
            items: self.config.items,
            queries: self.config.queries,
            set_size: self.config.set_size,
            overlap: self.config.overlap,
            threshold: self.config.threshold,
            num_perm: self.config.num_perm,
            seed: self.config.seed,
            dataset: match self.config.dataset {
                Some(path) => Some(path@),
                None => None,
            },
            threads: self.config.threads,
            output: self.output@,
        }
    }
}

/// The number that an argument spells.
pub open spec fn number_of(argument: Seq<char>, flag: int, limit: u64) -> Result<u64, OptionError> {
    match text::parsed(argument, limit) {
        Ok(value) => Ok(value as u64),
        Err(error) => Err(OptionError::InvalidNumber { flag: flag as usize, error }),
    }
}

/// The options with the value of the option at position `at` taken in.
pub open spec fn step(
    arguments: Seq<Seq<char>>,
    fractions: Seq<Option<u64>>,
    at: int,
    options: OptionState,
) -> Result<OptionState, OptionError> {
    let flag = arguments[at];
    let value = arguments[at + 1];
    let count = number_of(value, at, usize::MAX as u64);
    let known = flag == "--items"@ || flag == "--queries"@ || flag == "--set-size"@ || flag
        == "--overlap"@ || flag == "--threshold"@ || flag == "--num-perm"@ || flag == "--seed"@
        || flag == "--dataset"@ || flag == "--output"@;
    if !known {
        Err(OptionError::Unknown { argument: at as usize })
    } else if at + 1 >= arguments.len() {
        Err(OptionError::MissingValue { flag: at as usize })
    } else if flag == "--dataset"@ {
        Ok(OptionState { dataset: Some(value), ..options })
    } else if flag == "--output"@ {
        Ok(OptionState { output: value, ..options })
    } else if flag == "--threshold"@ {
        match fractions[at + 1] {
            Some(bits) => Ok(OptionState { threshold: Threshold { bits }, ..options }),
            None => Err(OptionError::InvalidFraction { flag: at as usize }),
        }
    } else if flag == "--seed"@ {
        match number_of(value, at, u64::MAX) {
            Ok(seed) => Ok(OptionState { seed, ..options }),
            Err(error) => Err(error),
        }
    } else {
        match count {
            Err(error) => Err(error),
            Ok(number) => if flag == "--items"@ {
                Ok(OptionState { items: number as usize, ..options })
            } else if flag == "--queries"@ {
                Ok(OptionState { queries: number as usize, ..options })
            } else if flag == "--set-size"@ {
                Ok(OptionState { set_size: number as usize, ..options })
            } else if flag == "--overlap"@ {
                Ok(OptionState { overlap: number as usize, ..options })
            } else {
                Ok(OptionState { num_perm: number as usize, ..options })
            },
        }
    }
}

/// What the arguments from position `at` on say, after options that were read
/// before them. The first argument that is wrong is the error.
pub open spec fn read(
    arguments: Seq<Seq<char>>,
    fractions: Seq<Option<u64>>,
    at: int,
    options: OptionState,
) -> Result<OptionState, OptionError>
    decreases arguments.len() - at,
{
    if at >= arguments.len() {
        Ok(options)
    } else {
        match step(arguments, fractions, at, options) {
            Err(error) => Err(error),
            Ok(next) => read(arguments, fractions, at + 2, next),
        }
    }
}

/// The options of a benchmark that runs where nothing is asked for.
pub open spec fn standard(threshold: Threshold, output: Seq<char>) -> OptionState {
    OptionState {
        items: 5_000,
        queries: 100,
        set_size: 100,
        overlap: 90,
        threshold,
        num_perm: 128,
        seed: 7,
        dataset: None,
        threads: None,
        output,
    }
}

fn parse_number_argument(argument: &str, flag: usize, limit: u64) -> (result: Result<
    u64,
    OptionError,
>)
    ensures
        result == number_of(argument@, flag as int, limit),
{
    match text::parse_number(&text::chars_of(argument), limit) {
        Ok(value) => Ok(value),
        Err(error) => Err(OptionError::InvalidNumber { flag, error }),
    }
}

fn take_step(
    arguments: &Vec<String>,
    fractions: &Vec<Option<u64>>,
    at: usize,
    options: BenchmarkOptions,
) -> (result: Result<BenchmarkOptions, OptionError>)
    requires
        at < arguments@.len(),
        fractions@.len() == arguments@.len(),
    ensures
        match step(texts(arguments@), fractions@, at as int, options@) {
            Err(error) => result == Err::<BenchmarkOptions, OptionError>(error),
            Ok(next) => result matches Ok(taken) && taken@ == next,
        },
{
    let ghost list = texts(arguments@);
    assert(list[at as int] == arguments@[at as int]@);
    let flag = text::chars_of(arguments[at].as_str());
    let fraction = text::spells(&flag, "--threshold");
    let seed = text::spells(&flag, "--seed");
    let dataset = text::spells(&flag, "--dataset");
    let output = text::spells(&flag, "--output");
    let items = text::spells(&flag, "--items");
    let queries = text::spells(&flag, "--queries");
    let set_size = text::spells(&flag, "--set-size");
    let overlap = text::spells(&flag, "--overlap");
    let num_perm = text::spells(&flag, "--num-perm");
    if !(fraction || seed || dataset || output || items || queries || set_size || overlap
        || num_perm) {
        return Err(OptionError::Unknown { argument: at });
    }
    if arguments.len() - at < 2 {
        return Err(OptionError::MissingValue { flag: at });
    }
    let mut options = options;
    let value = arguments[at + 1].as_str();
    assert(list[at + 1] == value@);
    if dataset {
        options.config.dataset = Some(value.to_owned());
        return Ok(options);
    }
    if output {
        options.output = value.to_owned();
        return Ok(options);
    }
    if fraction {
        return match fractions[at + 1] {
            Some(bits) => {
                options.config.threshold = Threshold::from_bits(bits);
                Ok(options)
            },
            None => Err(OptionError::InvalidFraction { flag: at }),
        };
    }
    if seed {
        return match parse_number_argument(value, at, u64::MAX) {
            Ok(number) => {
                options.config.seed = number;
                Ok(options)
            },
            Err(error) => Err(error),
        };
    }
    match parse_number_argument(value, at, usize::MAX as u64) {
        Err(error) => Err(error),
        Ok(number) => {
            proof {
                lemma_number_fits(value@, at as int);
            }
            let number: usize = number as usize;
            if items {
                options.config.items = number;
            } else if queries {
                options.config.queries = number;
            } else if set_size {
                options.config.set_size = number;
            } else if overlap {
                options.config.overlap = number;
            } else {
                options.config.num_perm = number;
            }
            Ok(options)
        },
    }
}

proof fn lemma_digits_fit(digits: Seq<char>, limit: u64)
    ensures
        digits_fit(digits, limit),
    decreases digits.len(),
{
    if digits.len() > 0 {
        lemma_digits_fit(digits.drop_last(), limit);
    }
}

spec fn digits_fit(digits: Seq<char>, limit: u64) -> bool {
    text::digits_value(digits, limit) matches Ok(value) ==> value <= limit
}

proof fn lemma_number_fits(argument: Seq<char>, flag: int)
    ensures
        number_of(argument, flag, usize::MAX as u64) matches Ok(number) ==> number <= usize::MAX,
{
    lemma_digits_fit(argument, usize::MAX as u64);
    lemma_digits_fit(argument.skip(1), usize::MAX as u64);
}

/// Read the options of a benchmark, given the double that each argument spells
/// where it spells one.
pub fn parse_benchmark_options(
    arguments: &Vec<String>,
    fractions: &Vec<Option<u64>>,
    threshold: Threshold,
    default_output: &str,
) -> (result: Result<BenchmarkOptions, OptionError>)
    requires
        fractions@.len() == arguments@.len(),
    ensures
        match read(texts(arguments@), fractions@, 0, standard(threshold, default_output@)) {
            Err(error) => result == Err::<BenchmarkOptions, OptionError>(error),
            Ok(options) => result matches Ok(found) && found@ == options,
        },
{
    let mut options = BenchmarkOptions {
        config: BenchmarkConfig::standard(threshold),
        output: default_output.to_owned(),
    };
    let ghost goal = read(
        texts(arguments@),
        fractions@,
        0,
        standard(threshold, default_output@),
    );
    assert(options@ =~= standard(threshold, default_output@));
    let mut index: usize = 0;
    let size: usize = arguments.len();
    while index < size
        invariant
            index <= size == arguments@.len(),
            fractions@.len() == arguments@.len(),
            goal == read(
                texts(arguments@),
                fractions@,
                0,
                standard(threshold, default_output@),
            ),
            goal == read(texts(arguments@), fractions@, index as int, options@),
        decreases size - index,
    {
        options = match take_step(arguments, fractions, index, options) {
            Ok(next) => next,
            Err(error) => {
                return Err(error);
            },
        };
        assert(index + 2 <= size);
        index = index + 2;
    }
    Ok(options)
}

/// Whether some argument asks for help.
pub fn has_help(arguments: &Vec<String>) -> (help: bool)
    ensures
        help == exists|i: int|
            0 <= i < arguments@.len() && ((#[trigger] arguments@[i])@ == "--help"@
                || arguments@[i]@ == "-h"@),
{
    let mut index: usize = 0;
    while index < arguments.len()
        invariant
            index <= arguments@.len(),
            forall|i: int|
                0 <= i < index ==> (#[trigger] arguments@[i])@ != "--help"@ && arguments@[i]@
                    != "-h"@,
        decreases arguments@.len() - index,
    {
        let chars = text::chars_of(arguments[index].as_str());
        if text::spells(&chars, "--help") || text::spells(&chars, "-h") {
            assert(arguments@[index as int]@ == "--help"@ || arguments@[index as int]@ == "-h"@);
            return true;
        }
        index = index + 1;
    }
    false
}

/// What a comparison of reports asks for.
#[derive(Debug, PartialEq, Eq)]
pub enum CompareRequest {
    /// Help.
    Help,
    /// The comparison of the first two arguments.
    Compare {
        /// The path of the comparison.
        output: String,
    },
}

/// What the arguments of a comparison from position `at` on ask for: its
/// output, or nothing where they ask for help.
pub open spec fn read_compare(arguments: Seq<Seq<char>>, at: int, output: Seq<char>) -> Result<
    Option<Seq<char>>,
    OptionError,
>
    decreases arguments.len() - at,
{
    if at >= arguments.len() {
        Ok(Some(output))
    } else if arguments[at] == "--output"@ {
        if at + 1 >= arguments.len() {
            Err(OptionError::MissingValue { flag: at as usize })
        } else {
            read_compare(arguments, at + 2, arguments[at + 1])
        }
    } else if arguments[at] == "--help"@ || arguments[at] == "-h"@ {
        Ok(None)
    } else {
        Err(OptionError::Unknown { argument: at as usize })
    }
}

/// Read the options of a comparison of reports, which follow two paths.
pub fn parse_compare_options(arguments: &Vec<String>) -> (result: Result<
    CompareRequest,
    OptionError,
>)
    ensures
        if arguments@.len() < 2 {
            result == Err::<CompareRequest, OptionError>(OptionError::TooFew)
        } else {
            match read_compare(texts(arguments@), 2, "pari-benchmark-comparison.json"@) {
                Err(error) => result == Err::<CompareRequest, OptionError>(error),
                Ok(None) => result == Ok::<CompareRequest, OptionError>(CompareRequest::Help),
                Ok(Some(path)) => result matches Ok(CompareRequest::Compare { output }) && output@
                    == path,
            }
        },
{
    if arguments.len() < 2 {
        return Err(OptionError::TooFew);
    }
    let mut output = "pari-benchmark-comparison.json".to_owned();
    let ghost list = texts(arguments@);
    let ghost goal = read_compare(list, 2, output@);
    let mut index: usize = 2;
    let size: usize = arguments.len();
    while index < size
        invariant
            2 <= index <= size == arguments@.len(),
            list == texts(arguments@),
            goal == read_compare(list, 2, "pari-benchmark-comparison.json"@),
            goal == read_compare(list, index as int, output@),
        decreases size - index,
    {
        assert(list[index as int] == arguments@[index as int]@);
        let flag = text::chars_of(arguments[index].as_str());
        if text::spells(&flag, "--output") {
            if size - index < 2 {
                return Err(OptionError::MissingValue { flag: index });
            }
            assert(list[index + 1] == arguments@[index + 1]@);
            output = arguments[index + 1].as_str().to_owned();
            index = index + 2;
        } else if text::spells(&flag, "--help") || text::spells(&flag, "-h") {
            return Ok(CompareRequest::Help);
        } else {
            return Err(OptionError::Unknown { argument: index });
        }
    }
    Ok(CompareRequest::Compare { output })
}

/// What a comparison of storage layouts asks for.
#[verifier::ext_equal]
pub struct LayoutState {
    pub items: usize,
    pub queries: usize,
    pub output: Seq<char>,
}

/// The size of a comparison of storage layouts and the place of its report.
#[derive(Debug, PartialEq, Eq)]
pub struct LayoutOptions {
    /// Stored items.
    pub items: usize,
    /// Queries.
    pub queries: usize,
    /// The path of the report.
    pub output: String,
}

impl View for LayoutOptions {
    type V = LayoutState;

    open spec fn view(&self) -> LayoutState {
        LayoutState { items: self.items, queries: self.queries, output: self.output@ }
    }
}

/// What the arguments of a comparison of storage layouts from position `at` on
/// ask for, or nothing where they ask for help.
pub open spec fn read_layout(arguments: Seq<Seq<char>>, at: int, options: LayoutState) -> Result<
    Option<LayoutState>,
    OptionError,
>
    decreases arguments.len() - at,
{
    if at >= arguments.len() {
        Ok(Some(options))
    } else {
        let flag = arguments[at];
        let value = arguments[at + 1];
        if flag == "--help"@ || flag == "-h"@ {
            Ok(None)
        } else if flag != "--items"@ && flag != "--queries"@ && flag != "--output"@ {
            Err(OptionError::Unknown { argument: at as usize })
        } else if at + 1 >= arguments.len() {
            Err(OptionError::MissingValue { flag: at as usize })
        } else if flag == "--output"@ {
            read_layout(arguments, at + 2, LayoutState { output: value, ..options })
        } else {
            match number_of(value, at, usize::MAX as u64) {
                Err(error) => Err(error),
                Ok(number) => if flag == "--items"@ {
                    read_layout(
                        arguments,
                        at + 2,
                        LayoutState { items: number as usize, ..options },
                    )
                } else {
                    read_layout(
                        arguments,
                        at + 2,
                        LayoutState { queries: number as usize, ..options },
                    )
                },
            }
        }
    }
}

/// Read the options of a comparison of storage layouts; nothing comes back
/// where they ask for help.
pub fn parse_layout_options(arguments: &Vec<String>) -> (result: Result<
    Option<LayoutOptions>,
    OptionError,
>)
    ensures
        match read_layout(
            texts(arguments@),
            0,
            LayoutState { items: 5_000, queries: 200, output: "storage-layout-results.json"@ },
        ) {
            Err(error) => result == Err::<Option<LayoutOptions>, OptionError>(error),
            Ok(None) => result == Ok::<Option<LayoutOptions>, OptionError>(None),
            Ok(Some(options)) => result matches Ok(Some(found)) && found@ == options,
        },
{
    let mut options = LayoutOptions {
        items: 5_000,
        queries: 200,
        output: "storage-layout-results.json".to_owned(),
    };
    let ghost list = texts(arguments@);
    let ghost start = LayoutState {
        items: 5_000,
        queries: 200,
        output: "storage-layout-results.json"@,
    };
    let ghost goal = read_layout(list, 0, start);
    assert(options@ =~= start);
    let mut index: usize = 0;
    let size: usize = arguments.len();
    while index < size
        invariant
            index <= size == arguments@.len(),
            list == texts(arguments@),
            goal == read_layout(
                list,
                0,
                LayoutState { items: 5_000, queries: 200, output: "storage-layout-results.json"@ },
            ),
            goal == read_layout(list, index as int, options@),
        decreases size - index,
    {
        assert(list[index as int] == arguments@[index as int]@);
        let flag = text::chars_of(arguments[index].as_str());
        if text::spells(&flag, "--help") || text::spells(&flag, "-h") {
            return Ok(None);
        }
        let items = text::spells(&flag, "--items");
        let queries = text::spells(&flag, "--queries");
        let output = text::spells(&flag, "--output");
        if !items && !queries && !output {
            return Err(OptionError::Unknown { argument: index });
        }
        if size - index < 2 {
            return Err(OptionError::MissingValue { flag: index });
        }
        let value = arguments[index + 1].as_str();
        assert(list[index + 1] == value@);
        if output {
            options.output = value.to_owned();
        } else {
            match parse_number_argument(value, index, usize::MAX as u64) {
                Err(error) => {
                    return Err(error);
                },
                Ok(number) => {
                    proof {
                        lemma_number_fits(value@, index as int);
                    }
                    if items {
                        options.items = number as usize;
                    } else {
                        options.queries = number as usize;
                    }
                },
            }
        }
        index = index + 2;
    }
    Ok(Some(options))
}

/// An option that is given sets its own field, and the rest is read after it.
pub proof fn law_options_set_their_fields(
    arguments: Seq<Seq<char>>,
    fractions: Seq<Option<u64>>,
    at: int,
    options: OptionState,
)
    requires
        0 <= at,
        at + 1 < arguments.len(),
        text::parsed(arguments[at + 1], usize::MAX as u64) is Ok,
    ensures
        ({
            let number = text::parsed(arguments[at + 1], usize::MAX as u64)->Ok_0 as usize;
            let flag = arguments[at];
            &&& flag == "--items"@ ==> read(arguments, fractions, at, options) == read(
                arguments,
                fractions,
                at + 2,
                OptionState { items: number, ..options },
            )
            &&& flag == "--queries"@ ==> read(arguments, fractions, at, options) == read(
                arguments,
                fractions,
                at + 2,
                OptionState { queries: number, ..options },
            )
            &&& flag == "--set-size"@ ==> read(arguments, fractions, at, options) == read(
                arguments,
                fractions,
                at + 2,
                OptionState { set_size: number, ..options },
            )
            &&& flag == "--overlap"@ ==> read(arguments, fractions, at, options) == read(
                arguments,
                fractions,
                at + 2,
                OptionState { overlap: number, ..options },
            )
            &&& flag == "--num-perm"@ ==> read(arguments, fractions, at, options) == read(
                arguments,
                fractions,
                at + 2,
                OptionState { num_perm: number, ..options },
            )
        }),
{
    lemma_number_fits(arguments[at + 1], at);
    reveal_strlit("--items");
    reveal_strlit("--queries");
    reveal_strlit("--set-size");
    reveal_strlit("--overlap");
    reveal_strlit("--num-perm");
    reveal_strlit("--seed");
    reveal_strlit("--threshold");
    reveal_strlit("--dataset");
    reveal_strlit("--output");
    assert("--items"@[2] == 'i' && "--queries"@[2] == 'q' && "--set-size"@[2] == 's'
        && "--overlap"@[2] == 'o' && "--num-perm"@[2] == 'n' && "--dataset"@[2] == 'd'
        && "--threshold"@[2] == 't');
    assert("--seed"@.len() == 6 && "--set-size"@.len() == 10 && "--overlap"@.len() == 9
        && "--output"@.len() == 8);
    let number = text::parsed(arguments[at + 1], usize::MAX as u64)->Ok_0;
    assert(number <= usize::MAX);
    assert((number as u64) as usize == number as usize);
    let flag = arguments[at];
    if flag == "--items"@ {
        assert(step(arguments, fractions, at, options) == Ok::<OptionState, OptionError>(
            OptionState { items: number as usize, ..options },
        ));
    }
    if flag == "--queries"@ {
        assert(step(arguments, fractions, at, options) == Ok::<OptionState, OptionError>(
            OptionState { queries: number as usize, ..options },
        ));
    }
    if flag == "--set-size"@ {
        assert(step(arguments, fractions, at, options) == Ok::<OptionState, OptionError>(
            OptionState { set_size: number as usize, ..options },
        ));
    }
    if flag == "--overlap"@ {
        assert(step(arguments, fractions, at, options) == Ok::<OptionState, OptionError>(
            OptionState { overlap: number as usize, ..options },
        ));
    }
    if flag == "--num-perm"@ {
        assert(step(arguments, fractions, at, options) == Ok::<OptionState, OptionError>(
            OptionState { num_perm: number as usize, ..options },
        ));
    }
}

/// Nothing to read leaves the options as they are.
pub proof fn law_no_more_options(
    arguments: Seq<Seq<char>>,
    fractions: Seq<Option<u64>>,
    options: OptionState,
)
    ensures
        read(arguments, fractions, arguments.len() as int, options) == Ok::<
            OptionState,
            OptionError,
        >(options),
{
}

/// Every argument is read, in its place.
pub proof fn law_every_argument_is_read(arguments: Seq<String>)
    ensures
        texts(arguments).len() == arguments.len(),
        forall|i: int| 0 <= i < arguments.len() ==> #[trigger] texts(arguments)[i] == arguments[i]@,
{
}

} // verus!
