use vstd::prelude::*;
use crate::decimal::{parse_usize, parsed_usize};
use crate::text::same_text;

verus! {

/// The texts of a list of command-line arguments.
pub open spec fn arg_texts(args: Seq<String>) -> Seq<Seq<char>> {
    args.map_values(|a: String| a@)
}

/// Index of the first occurrence of `key` in `s`.
pub open spec fn first_position(s: Seq<Seq<char>>, key: Seq<char>) -> Option<int>
    decreases s.len(),
{
    if s.len() == 0 {
        None
    } else if s[0] == key {
        Some(0)
    } else {
        match first_position(s.drop_first(), key) {
            Some(i) => Some(i + 1),
            None => None,
        }
    }
}

/// The argument that follows the first occurrence of `key`, if both exist.
pub open spec fn arg_value(args: Seq<Seq<char>>, key: Seq<char>) -> Option<Seq<char>> {
    match first_position(args, key) {
        Some(i) => if i + 1 < args.len() {
            Some(args[i + 1])
        } else {
            None
        },
        None => None,
    }
}

/// The dataset path chosen by the arguments: the value of `--dataset`, else
/// that of `--datasets`, else `default`.
pub open spec fn chosen_dataset(args: Seq<Seq<char>>, default: Seq<char>) -> Seq<char> {
    match arg_value(args, "--dataset"@) {
        Some(d) => d,
        None => match arg_value(args, "--datasets"@) {
            Some(d) => d,
            None => default,
        },
    }
}

/// The number of trials chosen by the arguments: the value of `--trials`
/// when it is present and reads as a number, else 50.
pub open spec fn chosen_trials(args: Seq<Seq<char>>) -> usize {
    match arg_value(args, "--trials"@) {
        Some(t) => match parsed_usize(t) {
            Some(n) => n,
            None => 50,
        },
        None => 50,
    }
}

proof fn lemma_first_position_found(s: Seq<Seq<char>>, key: Seq<char>, i: int)
    requires
        0 <= i < s.len(),
        s[i] == key,
        forall|j: int| 0 <= j < i ==> s[j] != key,
    ensures
        first_position(s, key) == Some(i),
    decreases i,
{
    if i > 0 {
        let t = s.drop_first();
        assert forall|j: int| 0 <= j < i - 1 implies t[j] != key by {
            assert(t[j] == s[j + 1]);
        }
        assert(s[0] != key);
        lemma_first_position_found(t, key, i - 1);
    }
}

proof fn lemma_first_position_absent(s: Seq<Seq<char>>, key: Seq<char>)
    requires
        forall|j: int| 0 <= j < s.len() ==> s[j] != key,
    ensures
        first_position(s, key) is None,
    decreases s.len(),
{
    if s.len() > 0 {
        let t = s.drop_first();
        assert forall|j: int| 0 <= j < t.len() implies t[j] != key by {
            assert(t[j] == s[j + 1]);
        }
        assert(s[0] != key);
        lemma_first_position_absent(t, key);
    }
}

/// `arg_value` is the argument after the first occurrence of `key`: when the
/// first `key` is at `i`, it is `args[i + 1]` if that exists and nothing
/// otherwise, and it is nothing when `key` does not occur.
pub proof fn lemma_arg_value_first_occurrence(args: Seq<Seq<char>>, key: Seq<char>, i: int)
    requires
        0 <= i < args.len(),
        args[i] == key,
        forall|j: int| 0 <= j < i ==> args[j] != key,
    ensures
        i + 1 < args.len() ==> arg_value(args, key) == Some(args[i + 1]),
        i + 1 == args.len() ==> arg_value(args, key) is None,
{
    lemma_first_position_found(args, key, i);
}

/// Without `key` among the arguments there is no value for it.
pub proof fn lemma_arg_value_absent(args: Seq<Seq<char>>, key: Seq<char>)
    requires
        forall|j: int| 0 <= j < args.len() ==> args[j] != key,
    ensures
        arg_value(args, key) is None,
{
    lemma_first_position_absent(args, key);
}

/// `--dataset v` (its first occurrence) chooses `v`, whatever else is given.
pub proof fn lemma_dataset_option_chosen(args: Seq<Seq<char>>, default: Seq<char>, i: int)
    requires
        0 <= i,
        i + 1 < args.len(),
        args[i] == "--dataset"@,
        forall|j: int| 0 <= j < i ==> args[j] != "--dataset"@,
    ensures
        chosen_dataset(args, default) == args[i + 1],
{
    lemma_first_position_found(args, "--dataset"@, i);
}

/// Without `--dataset`, `--datasets v` (its first occurrence) chooses `v`.
pub proof fn lemma_datasets_option_chosen(args: Seq<Seq<char>>, default: Seq<char>, i: int)
    requires
        forall|j: int| 0 <= j < args.len() ==> args[j] != "--dataset"@,
        0 <= i,
        i + 1 < args.len(),
        args[i] == "--datasets"@,
        forall|j: int| 0 <= j < i ==> args[j] != "--datasets"@,
    ensures
        chosen_dataset(args, default) == args[i + 1],
{
    lemma_first_position_absent(args, "--dataset"@);
    lemma_first_position_found(args, "--datasets"@, i);
}

/// With neither `--dataset` nor `--datasets`, the default is chosen.
pub proof fn lemma_dataset_default_chosen(args: Seq<Seq<char>>, default: Seq<char>)
    requires
        forall|j: int| 0 <= j < args.len() ==> args[j] != "--dataset"@ && args[j] != "--datasets"@,
    ensures
        chosen_dataset(args, default) == default,
{
    lemma_first_position_absent(args, "--dataset"@);
    lemma_first_position_absent(args, "--datasets"@);
}

/// `--trials t` (its first occurrence) gives the number that `t` reads as,
/// and 50 when `t` is not a number; without `--trials` there are 50 trials.
pub proof fn lemma_trials_chosen(args: Seq<Seq<char>>, i: int)
    requires
        0 <= i,
        i + 1 < args.len(),
        args[i] == "--trials"@,
        forall|j: int| 0 <= j < i ==> args[j] != "--trials"@,
    ensures
        parsed_usize(args[i + 1]) matches Some(n) ==> chosen_trials(args) == n,
        parsed_usize(args[i + 1]) is None ==> chosen_trials(args) == 50,
{
    lemma_first_position_found(args, "--trials"@, i);
}

/// Without `--trials` there are 50 trials.
pub proof fn lemma_trials_default(args: Seq<Seq<char>>)
    requires
        forall|j: int| 0 <= j < args.len() ==> args[j] != "--trials"@,
    ensures
        chosen_trials(args) == 50,
{
    lemma_first_position_absent(args, "--trials"@);
}

/// The argument that follows the first occurrence of `key` in `args`;
/// `None` when `key` does not occur or is the last argument.
pub fn get_arg_value(args: &[String], key: &str) -> (r: Option<String>)
    ensures
        match r {
            Some(v) => arg_value(arg_texts(args@), key@) == Some(v@),
            None => arg_value(arg_texts(args@), key@) is None,
        },
{
    let ghost texts = arg_texts(args@);
    let mut i: usize = 0;
    while i < args.len()
        invariant
            i <= args.len(),
            texts == arg_texts(args@),
            texts.len() == args.len(),
            forall|j: int| 0 <= j < i ==> texts[j] != key@,
        decreases args.len() - i,
    {
        assert(texts[i as int] == args@[i as int]@);
        if same_text(args[i].as_str(), key) {
            proof {
                lemma_first_position_found(texts, key@, i as int);
            }
            if i + 1 < args.len() {
                assert(texts[i + 1] == args@[i + 1]@);
                return Some(args[i + 1].clone());
            } else {
                return None;
            }
        }
        i = i + 1;
    }
    proof {
        lemma_first_position_absent(texts, key@);
    }
    None
}

/// Run settings of a kernel benchmark.
#[derive(Clone, Debug)]
pub struct Args {
    pub dataset: String,
    pub trials: usize,
}

/// Reads the settings of a kernel benchmark from its arguments: the dataset
/// from `--dataset` (or `--datasets`, or `default_dataset`), and the number
/// of trials from `--trials` (50 when it is absent or not a number).
pub fn parse_args(args: &[String], default_dataset: &str) -> (r: Args)
    ensures
        r.dataset@ == chosen_dataset(arg_texts(args@), default_dataset@),
        r.trials == chosen_trials(arg_texts(args@)),
{
    let dataset = match get_arg_value(args, "--dataset") {
        Some(d) => d,
        None => match get_arg_value(args, "--datasets") {
            Some(d) => d,
            None => default_dataset.to_owned(),
        },
    };
    let trials: usize = match get_arg_value(args, "--trials") {
        Some(t) => match parse_usize(t.as_str()) {
            Some(n) => n,
            None => 50,
        },
        None => 50,
    };
    Args { dataset, trials }
}

} // verus!
