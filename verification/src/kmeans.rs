use vstd::prelude::*;
use crate::metrics::{agree_count, class_count, correct_count, occurrences};
use crate::decimal::{parse_usize, parsed_usize};
use crate::polybench::arg_texts;
use crate::text::same_text;

verus! {

/// Why the k-means arguments were refused.
#[derive(Debug, Clone, Copy, PartialEq, Eq)]
pub enum ArgError {
    /// An option is the last argument, with no value after it.
    MissingValue,
    /// The value of `--k`, `--max-iters` or `--trials` is not an unsigned number.
    InvalidNumber,
}

/// The settings that scanning the arguments from index `i` on gives, starting
/// from `(dataset, k, max_iters, trials)`: each of `--dataset`, `--k`,
/// `--max-iters` and `--trials` sets its setting to the next argument and
/// skips it; any other argument is skipped; a later option overrides an
/// earlier one.
pub open spec fn kmeans_options(
    args: Seq<Seq<char>>,
    i: int,
    dataset: Seq<char>,
    k: usize,
    max_iters: usize,
    trials: usize,
) -> Result<(Seq<char>, usize, usize, usize), ArgError>
    decreases args.len() - i,
{
    if i >= args.len() {
        Ok((dataset, k, max_iters, trials))
    } else if args[i] == "--dataset"@ {
        if i + 1 < args.len() {
            kmeans_options(args, i + 2, args[i + 1], k, max_iters, trials)
        } else {
            Err(ArgError::MissingValue)
        }
    } else if args[i] == "--k"@ {
        if i + 1 < args.len() {
            match parsed_usize(args[i + 1]) {
                Some(v) => kmeans_options(args, i + 2, dataset, v, max_iters, trials),
                None => Err(ArgError::InvalidNumber),
            }
        } else {
            Err(ArgError::MissingValue)
        }
    } else if args[i] == "--max-iters"@ {
        if i + 1 < args.len() {
            match parsed_usize(args[i + 1]) {
                Some(v) => kmeans_options(args, i + 2, dataset, k, v, trials),
                None => Err(ArgError::InvalidNumber),
            }
        } else {
            Err(ArgError::MissingValue)
        }
    } else if args[i] == "--trials"@ {
        if i + 1 < args.len() {
            match parsed_usize(args[i + 1]) {
                Some(v) => kmeans_options(args, i + 2, dataset, k, max_iters, v),
                None => Err(ArgError::InvalidNumber),
            }
        } else {
            Err(ArgError::MissingValue)
        }
    } else {
        kmeans_options(args, i + 1, dataset, k, max_iters, trials)
    }
}

/// The k-means settings `(dataset, k, max_iters, trials)` that the arguments
/// give; the first argument is the program's name, and the defaults are an
/// empty dataset path, 3 clusters, 20 iterations and 10 trials.
pub open spec fn kmeans_settings(args: Seq<Seq<char>>) -> Result<(Seq<char>, usize, usize, usize), ArgError> {
    kmeans_options(args, 1, Seq::<char>::empty(), 3, 20, 10)
}

proof fn lemma_option_names_distinct()
    ensures
        "--dataset"@ != "--k"@,
        "--dataset"@ != "--max-iters"@,
        "--dataset"@ != "--trials"@,
        "--k"@ != "--max-iters"@,
        "--k"@ != "--trials"@,
        "--max-iters"@ != "--trials"@,
{
    reveal_strlit("--dataset");
    reveal_strlit("--k");
    reveal_strlit("--max-iters");
    reveal_strlit("--trials");
    assert("--dataset"@.len() == 9);
    assert("--k"@.len() == 3);
    assert("--max-iters"@.len() == 11);
    assert("--trials"@.len() == 8);
}

/// A successful scan of `args` from `i` reads `args + tail` the same way up
/// to the end of `args`, then goes on into `tail`.
proof fn lemma_kmeans_options_extend(
    args: Seq<Seq<char>>,
    tail: Seq<Seq<char>>,
    i: int,
    dataset: Seq<char>,
    k: usize,
    max_iters: usize,
    trials: usize,
)
    requires
        0 <= i <= args.len(),
        kmeans_options(args, i, dataset, k, max_iters, trials) is Ok,
    ensures
        ({
            let r = kmeans_options(args, i, dataset, k, max_iters, trials)->Ok_0;
            kmeans_options(args + tail, i, dataset, k, max_iters, trials) == kmeans_options(
                args + tail,
                args.len() as int,
                r.0,
                r.1,
                r.2,
                r.3,
            )
        }),
    decreases args.len() - i,
{
    let all = args + tail;
    if i < args.len() {
        assert(all[i] == args[i]);
        if i + 1 < args.len() {
            assert(all[i + 1] == args[i + 1]);
        }
        if args[i] == "--dataset"@ || args[i] == "--k"@ || args[i] == "--max-iters"@ || args[i] == "--trials"@ {
            if i + 1 < args.len() {
                if args[i] == "--dataset"@ {
                    lemma_kmeans_options_extend(args, tail, i + 2, args[i + 1], k, max_iters, trials);
                } else if args[i] == "--k"@ {
                    lemma_kmeans_options_extend(args, tail, i + 2, dataset, parsed_usize(args[i + 1])->0, max_iters, trials);
                } else if args[i] == "--max-iters"@ {
                    lemma_kmeans_options_extend(args, tail, i + 2, dataset, k, parsed_usize(args[i + 1])->0, trials);
                } else {
                    lemma_kmeans_options_extend(args, tail, i + 2, dataset, k, max_iters, parsed_usize(args[i + 1])->0);
                }
            }
        } else {
            lemma_kmeans_options_extend(args, tail, i + 1, dataset, k, max_iters, trials);
        }
    }
}

/// Each option sets only its own setting: a setting whose option does not
/// occur among the arguments (after the program's name) keeps its default,
/// an empty dataset path, 3 clusters, 20 iterations or 10 trials.
pub proof fn lemma_kmeans_untouched_defaults(args: Seq<Seq<char>>)
    ensures
        kmeans_settings(args) matches Ok(r) ==> {
            &&& (forall|j: int| 1 <= j < args.len() ==> args[j] != "--dataset"@) ==> r.0 == Seq::<char>::empty()
            &&& (forall|j: int| 1 <= j < args.len() ==> args[j] != "--k"@) ==> r.1 == 3
            &&& (forall|j: int| 1 <= j < args.len() ==> args[j] != "--max-iters"@) ==> r.2 == 20
            &&& (forall|j: int| 1 <= j < args.len() ==> args[j] != "--trials"@) ==> r.3 == 10
        },
{
    lemma_kmeans_options_untouched(args, 1, Seq::<char>::empty(), 3, 20, 10);
}

proof fn lemma_kmeans_options_untouched(
    args: Seq<Seq<char>>,
    i: int,
    dataset: Seq<char>,
    k: usize,
    max_iters: usize,
    trials: usize,
)
    requires
        1 <= i,
    ensures
        kmeans_options(args, i, dataset, k, max_iters, trials) matches Ok(r) ==> {
            &&& (forall|j: int| i <= j < args.len() ==> args[j] != "--dataset"@) ==> r.0 == dataset
            &&& (forall|j: int| i <= j < args.len() ==> args[j] != "--k"@) ==> r.1 == k
            &&& (forall|j: int| i <= j < args.len() ==> args[j] != "--max-iters"@) ==> r.2 == max_iters
            &&& (forall|j: int| i <= j < args.len() ==> args[j] != "--trials"@) ==> r.3 == trials
        },
    decreases args.len() - i,
{
    if i < args.len() {
        if args[i] == "--dataset"@ || args[i] == "--k"@ || args[i] == "--max-iters"@ || args[i] == "--trials"@ {
            if i + 1 < args.len() {
                if args[i] == "--dataset"@ {
                    lemma_kmeans_options_untouched(args, i + 2, args[i + 1], k, max_iters, trials);
                } else if args[i] == "--k"@ {
                    lemma_kmeans_options_untouched(args, i + 2, dataset, parsed_usize(args[i + 1])->0, max_iters, trials);
                } else if args[i] == "--max-iters"@ {
                    lemma_kmeans_options_untouched(args, i + 2, dataset, k, parsed_usize(args[i + 1])->0, trials);
                } else {
                    lemma_kmeans_options_untouched(args, i + 2, dataset, k, max_iters, parsed_usize(args[i + 1])->0);
                }
            }
        } else {
            lemma_kmeans_options_untouched(args, i + 1, dataset, k, max_iters, trials);
        }
    }
}

/// Appending an option with its value to arguments that read well changes
/// that one setting and nothing else: `--dataset v` sets the dataset to `v`,
/// and `--k`, `--max-iters`, `--trials` followed by the decimal text of `n`
/// set their setting to `n`. An option appended without a value is refused
/// as missing its value, and one followed by a text that is not a number as
/// an invalid number.
pub proof fn lemma_kmeans_append_option(args: Seq<Seq<char>>, v: Seq<char>)
    requires
        args.len() >= 1,
        kmeans_settings(args) is Ok,
    ensures
        ({
            let r = kmeans_settings(args)->Ok_0;
            &&& kmeans_settings(args + seq!["--dataset"@, v]) == Ok::<(Seq<char>, usize, usize, usize), ArgError>(
                (v, r.1, r.2, r.3),
            )
            &&& parsed_usize(v) matches Some(n) ==> kmeans_settings(args + seq!["--k"@, v]) == Ok::<
                (Seq<char>, usize, usize, usize),
                ArgError,
            >((r.0, n, r.2, r.3))
            &&& parsed_usize(v) matches Some(n) ==> kmeans_settings(args + seq!["--max-iters"@, v]) == Ok::<
                (Seq<char>, usize, usize, usize),
                ArgError,
            >((r.0, r.1, n, r.3))
            &&& parsed_usize(v) matches Some(n) ==> kmeans_settings(args + seq!["--trials"@, v]) == Ok::<
                (Seq<char>, usize, usize, usize),
                ArgError,
            >((r.0, r.1, r.2, n))
            &&& parsed_usize(v) is None ==> kmeans_settings(args + seq!["--trials"@, v]) == Err::<
                (Seq<char>, usize, usize, usize),
                ArgError,
            >(ArgError::InvalidNumber)
            &&& kmeans_settings(args + seq!["--trials"@]) == Err::<(Seq<char>, usize, usize, usize), ArgError>(
                ArgError::MissingValue,
            )
        }),
{
    lemma_option_names_distinct();
    let r = kmeans_settings(args)->Ok_0;
    let n = args.len() as int;
    let d = Seq::<char>::empty();
    let t1 = seq!["--dataset"@, v];
    lemma_kmeans_options_extend(args, t1, 1, d, 3, 20, 10);
    assert((args + t1)[n] == "--dataset"@ && (args + t1)[n + 1] == v);
    assert((args + t1).len() == n + 2);
    assert(kmeans_options(args + t1, n + 2, v, r.1, r.2, r.3) == Ok::<(Seq<char>, usize, usize, usize), ArgError>((v, r.1, r.2, r.3)));
    assert(kmeans_options(args + t1, n, r.0, r.1, r.2, r.3) == kmeans_options(args + t1, n + 2, v, r.1, r.2, r.3));
    let t2 = seq!["--k"@, v];
    lemma_kmeans_options_extend(args, t2, 1, d, 3, 20, 10);
    assert((args + t2)[n] == "--k"@ && (args + t2)[n + 1] == v);
    assert((args + t2).len() == n + 2);
    if let Some(m) = parsed_usize(v) {
        assert(kmeans_options(args + t2, n + 2, r.0, m, r.2, r.3) == Ok::<(Seq<char>, usize, usize, usize), ArgError>((r.0, m, r.2, r.3)));
        assert(kmeans_options(args + t2, n, r.0, r.1, r.2, r.3) == kmeans_options(args + t2, n + 2, r.0, m, r.2, r.3));
    }
    let t3 = seq!["--max-iters"@, v];
    lemma_kmeans_options_extend(args, t3, 1, d, 3, 20, 10);
    assert((args + t3)[n] == "--max-iters"@ && (args + t3)[n + 1] == v);
    assert((args + t3).len() == n + 2);
    if let Some(m) = parsed_usize(v) {
        assert(kmeans_options(args + t3, n + 2, r.0, r.1, m, r.3) == Ok::<(Seq<char>, usize, usize, usize), ArgError>((r.0, r.1, m, r.3)));
        assert(kmeans_options(args + t3, n, r.0, r.1, r.2, r.3) == kmeans_options(args + t3, n + 2, r.0, r.1, m, r.3));
    }
    let t4 = seq!["--trials"@, v];
    lemma_kmeans_options_extend(args, t4, 1, d, 3, 20, 10);
    assert((args + t4)[n] == "--trials"@ && (args + t4)[n + 1] == v);
    assert((args + t4).len() == n + 2);
    if let Some(m) = parsed_usize(v) {
        assert(kmeans_options(args + t4, n + 2, r.0, r.1, r.2, m) == Ok::<(Seq<char>, usize, usize, usize), ArgError>((r.0, r.1, r.2, m)));
        assert(kmeans_options(args + t4, n, r.0, r.1, r.2, r.3) == kmeans_options(args + t4, n + 2, r.0, r.1, r.2, m));
    } else {
        assert(kmeans_options(args + t4, n, r.0, r.1, r.2, r.3) == Err::<(Seq<char>, usize, usize, usize), ArgError>(ArgError::InvalidNumber));
    }
    let t5 = seq!["--trials"@];
    lemma_kmeans_options_extend(args, t5, 1, d, 3, 20, 10);
    assert((args + t5)[n] == "--trials"@);
    assert((args + t5).len() == n + 1);
    assert(kmeans_options(args + t5, n, r.0, r.1, r.2, r.3) == Err::<(Seq<char>, usize, usize, usize), ArgError>(ArgError::MissingValue));
}

/// Reads `(dataset, k, max_iters, trials)` from the arguments of the k-means
/// benchmark (`--dataset`, `--k`, `--max-iters`, `--trials`).
pub fn parse_args(args: &[String]) -> (r: Result<(String, usize, usize, usize), ArgError>)
    ensures
        match (r, kmeans_settings(arg_texts(args@))) {
            (Ok(t), Ok(u)) => t.0@ == u.0 && t.1 == u.1 && t.2 == u.2 && t.3 == u.3,
            (Err(e), Err(f)) => e == f,
            _ => false,
        },
{
    let ghost texts = arg_texts(args@);
    let mut dataset = String::new();
    let mut k: usize = 3;
    let mut max_iters: usize = 20;
    let mut trials: usize = 10;
    let mut i: usize = 1;
    while i < args.len()
        invariant
            1 <= i,
            texts == arg_texts(args@),
            texts.len() == args.len(),
            kmeans_options(texts, i as int, dataset@, k, max_iters, trials) == kmeans_settings(texts),
        decreases args.len() - i,
    {
        let arg = args[i].as_str();
        assert(texts[i as int] == arg@);
        let has_value = i + 1 < args.len();
        if same_text(arg, "--dataset") {
            if !has_value {
                return Err(ArgError::MissingValue);
            }
            assert(texts[i + 1] == args@[i + 1]@);
            dataset = args[i + 1].clone();
            i = i + 2;
        } else if same_text(arg, "--k") {
            if !has_value {
                return Err(ArgError::MissingValue);
            }
            assert(texts[i + 1] == args@[i + 1]@);
            match parse_usize(args[i + 1].as_str()) {
                Some(v) => {
                    k = v;
                },
                None => {
                    return Err(ArgError::InvalidNumber);
                },
            }
            i = i + 2;
        } else if same_text(arg, "--max-iters") {
            if !has_value {
                return Err(ArgError::MissingValue);
            }
            assert(texts[i + 1] == args@[i + 1]@);
            match parse_usize(args[i + 1].as_str()) {
                Some(v) => {
                    max_iters = v;
                },
                None => {
                    return Err(ArgError::InvalidNumber);
                },
            }
            i = i + 2;
        } else if same_text(arg, "--trials") {
            if !has_value {
                return Err(ArgError::MissingValue);
            }
            assert(texts[i + 1] == args@[i + 1]@);
            match parse_usize(args[i + 1].as_str()) {
                Some(v) => {
                    trials = v;
                },
                None => {
                    return Err(ArgError::InvalidNumber);
                },
            }
            i = i + 2;
        } else {
            i = i + 1;
        }
    }
    Ok((dataset, k, max_iters, trials))
}

/// The largest label in `s`, or 0 when `s` is empty.
pub open spec fn max_label(s: Seq<usize>) -> usize
    decreases s.len(),
{
    if s.len() == 0 {
        0
    } else {
        let m = max_label(s.drop_last());
        if s.last() > m {
            s.last()
        } else {
            m
        }
    }
}

/// Number of positions that two sequences walked side by side share
/// (the length of their zip).
pub open spec fn paired_len(a: Seq<usize>, b: Seq<usize>) -> int {
    if a.len() < b.len() {
        a.len() as int
    } else {
        b.len() as int
    }
}

/// Among the first `n` positions, how many put a point of cluster `c`
/// together with the true label `y`.
pub open spec fn pair_count(clusters: Seq<usize>, labels: Seq<usize>, c: usize, y: usize, n: int) -> nat
    decreases n,
{
    if n <= 0 {
        0
    } else {
        pair_count(clusters, labels, c, y, n - 1) + if clusters[n - 1] == c && labels[n - 1] == y {
            1nat
        } else {
            0nat
        }
    }
}

/// How many points of cluster `c` carry label `y`, over the zipped positions.
pub open spec fn cluster_label_count(clusters: Seq<usize>, labels: Seq<usize>, c: usize, y: usize) -> nat {
    pair_count(clusters, labels, c, y, paired_len(clusters, labels))
}

/// `label` is the majority label of cluster `c`: no label in
/// `0..=max_label(labels)` is carried by more points of `c`, and every
/// smaller label is carried by fewer (so an empty cluster gets label 0).
pub open spec fn is_majority_label(clusters: Seq<usize>, labels: Seq<usize>, c: usize, label: usize) -> bool {
    &&& label <= max_label(labels)
    &&& forall|y: usize|
        y <= max_label(labels) ==> #[trigger] cluster_label_count(clusters, labels, c, y)
            <= cluster_label_count(clusters, labels, c, label)
    &&& forall|y: usize|
        y < label ==> #[trigger] cluster_label_count(clusters, labels, c, y)
            < cluster_label_count(clusters, labels, c, label)
}

/// `mapping` sends every cluster `c < k` to its majority label.
pub open spec fn is_majority_mapping(clusters: Seq<usize>, labels: Seq<usize>, k: usize, mapping: Seq<usize>) -> bool {
    &&& mapping.len() == k
    &&& forall|c: usize| c < k ==> is_majority_label(clusters, labels, c, #[trigger] mapping[c as int])
}

/// `relabeled(clusters, mapping)[i] == mapping[clusters[i]]`.
pub open spec fn relabeled(clusters: Seq<usize>, mapping: Seq<usize>) -> Seq<usize> {
    Seq::new(clusters.len(), |i: int| mapping[clusters[i] as int])
}

/// Every element of `s` is at most `max_label(s)`.
pub proof fn lemma_max_label_bound(s: Seq<usize>)
    ensures
        forall|i: int| 0 <= i < s.len() ==> s[i] <= max_label(s),
    decreases s.len(),
{
    if s.len() > 0 {
        lemma_max_label_bound(s.drop_last());
        assert forall|i: int| 0 <= i < s.len() implies s[i] <= max_label(s) by {
            if i < s.len() - 1 {
                assert(s[i] == s.drop_last()[i]);
            }
        }
    }
}

/// A sequence whose elements are all at most `m` has its largest label at most `m`.
pub proof fn lemma_max_label_at_most(s: Seq<usize>, m: usize)
    requires
        forall|i: int| 0 <= i < s.len() ==> s[i] <= m,
    ensures
        max_label(s) <= m,
    decreases s.len(),
{
    if s.len() > 0 {
        lemma_max_label_at_most(s.drop_last(), m);
    }
}

proof fn lemma_pair_count_bound(clusters: Seq<usize>, labels: Seq<usize>, c: usize, y: usize, n: int)
    requires
        0 <= n,
    ensures
        pair_count(clusters, labels, c, y, n) <= n,
    decreases n,
{
    if n > 0 {
        lemma_pair_count_bound(clusters, labels, c, y, n - 1);
    }
}

/// The largest value in `s`, or 0 for an empty slice.
pub fn max_or_zero(s: &[usize]) -> (m: usize)
    ensures
        m == max_label(s@),
        forall|i: int| 0 <= i < s.len() ==> s[i] <= m,
        m == 0 || exists|i: int| 0 <= i < s.len() && s[i] == m,
{
    let mut m: usize = 0;
    let mut i: usize = 0;
    while i < s.len()
        invariant
            i <= s.len(),
            m == max_label(s@.take(i as int)),
            forall|j: int| 0 <= j < i ==> s[j] <= m,
            m == 0 || exists|j: int| 0 <= j < i && s[j] == m,
        decreases s.len() - i,
    {
        assert(s@.take(i + 1).drop_last() =~= s@.take(i as int));
        if s[i] > m {
            m = s[i];
        }
        i = i + 1;
    }
    assert(s@.take(s.len() as int) =~= s@);
    m
}

fn zeros(n: usize) -> (v: Vec<usize>)
    ensures
        v.len() == n,
        forall|i: int| 0 <= i < n ==> v[i] == 0,
{
    let mut v: Vec<usize> = Vec::new();
    while v.len() < n
        invariant
            v.len() <= n,
            forall|i: int| 0 <= i < v.len() ==> v[i] == 0,
        decreases n - v.len(),
    {
        v.push(0);
    }
    v
}

/// Maps each of the `k` clusters to the label that most of its points carry
/// (ties go to the smallest label, an empty cluster gets label 0), counting
/// the points where `pred_clusters` and `labels` are walked side by side.
pub fn majority_map(pred_clusters: &[usize], labels: &[usize], k: usize) -> (mapping: Vec<usize>)
    requires
        forall|i: int| 0 <= i < paired_len(pred_clusters@, labels@) ==> pred_clusters[i] < k,
        forall|i: int| 0 <= i < labels.len() ==> labels[i] < usize::MAX,
    ensures
        is_majority_mapping(pred_clusters@, labels@, k, mapping@),
{
    let ghost pc = pred_clusters@;
    let ghost ls = labels@;
    let top_label = max_or_zero(labels);
    let width: usize = top_label + 1;
    let n: usize = if pred_clusters.len() < labels.len() { pred_clusters.len() } else { labels.len() };

    let mut table: Vec<Vec<usize>> = Vec::new();
    while table.len() < k
        invariant
            table.len() <= k,
            forall|c: int| 0 <= c < table.len() ==> (#[trigger] table[c]).len() == width,
            forall|c: int, y: int| 0 <= c < table.len() && 0 <= y < width ==> (#[trigger] table[c]@[y]) == 0,
        decreases k - table.len(),
    {
        table.push(zeros(width));
    }

    let mut i: usize = 0;
    while i < n
        invariant
            i <= n,
            n == paired_len(pc, ls),
            pc == pred_clusters@,
            ls == labels@,
            width == top_label + 1,
            forall|j: int| 0 <= j < labels.len() ==> labels[j] <= top_label,
            forall|j: int| 0 <= j < n ==> pred_clusters[j] < k,
            table.len() == k,
            forall|c: int| 0 <= c < k ==> (#[trigger] table[c]).len() == width,
            forall|c: int, y: int|
                0 <= c < k && 0 <= y < width ==> (#[trigger] table[c]@[y]) == pair_count(
                    pc,
                    ls,
                    c as usize,
                    y as usize,
                    i as int,
                ),
        decreases n - i,
    {
        let c = pred_clusters[i];
        let y = labels[i];
        proof {
            lemma_pair_count_bound(pc, ls, c, y, i as int);
        }
        let bumped = table[c][y] + 1;
        table[c][y] = bumped;
        i = i + 1;
    }

    let mut mapping: Vec<usize> = Vec::new();
    let mut c: usize = 0;
    while c < k
        invariant
            c <= k,
            mapping.len() == c,
            n == paired_len(pc, ls),
            pc == pred_clusters@,
            ls == labels@,
            width == top_label + 1,
            top_label == max_label(ls),
            table.len() == k,
            forall|c: int| 0 <= c < k ==> (#[trigger] table[c]).len() == width,
            forall|c: int, y: int|
                0 <= c < k && 0 <= y < width ==> (#[trigger] table[c]@[y]) == pair_count(
                    pc,
                    ls,
                    c as usize,
                    y as usize,
                    n as int,
                ),
            forall|cc: usize| cc < c ==> is_majority_label(pc, ls, cc, #[trigger] mapping@[cc as int]),
        decreases k - c,
    {
        let mut best_label: usize = 0;
        let mut best_count: usize = 0;
        let mut y: usize = 0;
        while y < width
            invariant
                y <= width,
                c < k,
                table.len() == k,
                table[c as int].len() == width,
                width == top_label + 1,
                forall|z: int|
                    0 <= z < width ==> (#[trigger] table[c as int]@[z]) == cluster_label_count(
                        pc,
                        ls,
                        c,
                        z as usize,
                    ),
                best_label < width,
                y == 0 ==> best_label == 0 && best_count == 0,
                y > 0 ==> best_label < y && cluster_label_count(pc, ls, c, best_label) == best_count,
                forall|z: usize| z < y ==> #[trigger] cluster_label_count(pc, ls, c, z) <= best_count,
                forall|z: usize| z < best_label ==> #[trigger] cluster_label_count(pc, ls, c, z) < best_count,
            decreases width - y,
        {
            if table[c][y] > best_count {
                best_count = table[c][y];
                best_label = y;
            }
            y = y + 1;
        }
        mapping.push(best_label);
        c = c + 1;
    }
    mapping
}

/// Replaces each cluster index by the label that `mapping` gives it.
pub fn relabel(pred_clusters: &[usize], mapping: &[usize]) -> (out: Vec<usize>)
    requires
        forall|i: int| 0 <= i < pred_clusters.len() ==> pred_clusters[i] < mapping.len(),
    ensures
        out@ == relabeled(pred_clusters@, mapping@),
{
    let mut out: Vec<usize> = Vec::new();
    let mut i: usize = 0;
    while i < pred_clusters.len()
        invariant
            i <= pred_clusters.len(),
            forall|j: int| 0 <= j < pred_clusters.len() ==> pred_clusters[j] < mapping.len(),
            out@ =~= relabeled(pred_clusters@, mapping@).take(i as int),
        decreases pred_clusters.len() - i,
    {
        out.push(mapping[pred_clusters[i]]);
        i = i + 1;
    }
    out
}


/// Number of points assigned to each of the `k` clusters; the `counts`
/// that a k-means update step divides the coordinate sums by.
pub fn cluster_counts(assign: &[usize], k: usize) -> (counts: Vec<usize>)
    requires
        forall|i: int| 0 <= i < assign.len() ==> assign[i] < k,
    ensures
        counts.len() == k,
        forall|c: int| 0 <= c < k ==> #[trigger] counts[c] == occurrences(assign@, c as usize, assign.len() as int),
{
    let mut counts = zeros(k);
    let mut i: usize = 0;
    while i < assign.len()
        invariant
            i <= assign.len(),
            counts.len() == k,
            forall|j: int| 0 <= j < assign.len() ==> assign[j] < k,
            forall|c: int| 0 <= c < k ==> #[trigger] counts[c] == occurrences(assign@, c as usize, i as int),
        decreases assign.len() - i,
    {
        let c = assign[i];
        proof {
            lemma_occurrences_bound(assign@, c, i as int);
        }
        let bumped = counts[c] + 1;
        counts.set(c, bumped);
        i = i + 1;
    }
    counts
}

proof fn lemma_occurrences_bound(s: Seq<usize>, v: usize, n: int)
    requires
        0 <= n,
    ensures
        occurrences(s, v, n) <= n,
    decreases n,
{
    if n > 0 {
        lemma_occurrences_bound(s, v, n - 1);
    }
}

/// Sum over the clusters `0..k` of the number of the first `n` points in each.
pub open spec fn occurrence_sum(s: Seq<usize>, k: int, n: int) -> nat
    decreases k,
{
    if k <= 0 {
        0
    } else {
        occurrence_sum(s, k - 1, n) + occurrences(s, (k - 1) as usize, n)
    }
}

proof fn lemma_occurrence_sum_step(s: Seq<usize>, k: int, n: int)
    requires
        0 <= n,
        0 <= k <= usize::MAX + 1,
    ensures
        occurrence_sum(s, k, n + 1) == occurrence_sum(s, k, n) + if s[n] < k {
            1nat
        } else {
            0nat
        },
    decreases k,
{
    if k > 0 {
        lemma_occurrence_sum_step(s, k - 1, n);
        let c = (k - 1) as usize;
        assert(occurrences(s, c, n + 1) == occurrences(s, c, n) + if s[n] == c {
            1nat
        } else {
            0nat
        });
    }
}

proof fn lemma_occurrence_sum_zero(s: Seq<usize>, k: int)
    ensures
        occurrence_sum(s, k, 0) == 0,
    decreases k,
{
    if k > 0 {
        lemma_occurrence_sum_zero(s, k - 1);
    }
}

proof fn lemma_occurrence_sum_prefix(s: Seq<usize>, k: usize, n: int)
    requires
        0 <= n <= s.len(),
        forall|i: int| 0 <= i < n ==> s[i] < k,
    ensures
        occurrence_sum(s, k as int, n) == n,
    decreases n,
{
    if n > 0 {
        lemma_occurrence_sum_prefix(s, k, n - 1);
        lemma_occurrence_sum_step(s, k as int, n - 1);
    } else {
        lemma_occurrence_sum_zero(s, k as int);
    }
}

/// When every point is assigned to one of the clusters `0..k`, the cluster
/// sizes add up to the number of points: the clusters partition the data.
pub proof fn lemma_cluster_counts_partition(assign: Seq<usize>, k: usize)
    requires
        forall|i: int| 0 <= i < assign.len() ==> assign[i] < k,
    ensures
        occurrence_sum(assign, k as int, assign.len() as int) == assign.len(),
{
    lemma_occurrence_sum_prefix(assign, k, assign.len() as int);
}

/// Sum over the clusters `0..kk` of how many of the first `n` points of each
/// carry the label that `mapping` gives that cluster.
pub open spec fn mapped_pair_sum(clusters: Seq<usize>, labels: Seq<usize>, mapping: Seq<usize>, kk: int, n: int) -> nat
    decreases kk,
{
    if kk <= 0 {
        0
    } else {
        mapped_pair_sum(clusters, labels, mapping, kk - 1, n) + pair_count(
            clusters,
            labels,
            (kk - 1) as usize,
            mapping[kk - 1],
            n,
        )
    }
}

proof fn lemma_mapped_pair_sum_step(clusters: Seq<usize>, labels: Seq<usize>, mapping: Seq<usize>, kk: int, n: int)
    requires
        0 <= n,
        0 <= kk <= usize::MAX + 1,
    ensures
        mapped_pair_sum(clusters, labels, mapping, kk, n + 1) == mapped_pair_sum(clusters, labels, mapping, kk, n)
            + if clusters[n] < kk && labels[n] == mapping[clusters[n] as int] {
            1nat
        } else {
            0nat
        },
    decreases kk,
{
    if kk > 0 {
        lemma_mapped_pair_sum_step(clusters, labels, mapping, kk - 1, n);
        let c = (kk - 1) as usize;
        assert(pair_count(clusters, labels, c, mapping[kk - 1], n + 1) == pair_count(clusters, labels, c, mapping[kk - 1], n)
            + if clusters[n] == c && labels[n] == mapping[kk - 1] {
            1nat
        } else {
            0nat
        });
    }
}

proof fn lemma_mapped_pair_sum_zero(clusters: Seq<usize>, labels: Seq<usize>, mapping: Seq<usize>, kk: int)
    ensures
        mapped_pair_sum(clusters, labels, mapping, kk, 0) == 0,
    decreases kk,
{
    if kk > 0 {
        lemma_mapped_pair_sum_zero(clusters, labels, mapping, kk - 1);
    }
}

proof fn lemma_mapped_pair_sum_agree(clusters: Seq<usize>, labels: Seq<usize>, mapping: Seq<usize>, k: usize, n: int)
    requires
        0 <= n <= paired_len(clusters, labels),
        forall|i: int| 0 <= i < clusters.len() ==> clusters[i] < k,
        mapping.len() == k,
    ensures
        mapped_pair_sum(clusters, labels, mapping, k as int, n) == agree_count(
            labels,
            relabeled(clusters, mapping),
            n,
        ),
    decreases n,
{
    if n > 0 {
        lemma_mapped_pair_sum_agree(clusters, labels, mapping, k, n - 1);
        lemma_mapped_pair_sum_step(clusters, labels, mapping, k as int, n - 1);
    } else {
        lemma_mapped_pair_sum_zero(clusters, labels, mapping, k as int);
    }
}

proof fn lemma_pair_count_beyond_labels(clusters: Seq<usize>, labels: Seq<usize>, c: usize, y: usize, n: int)
    requires
        0 <= n <= labels.len(),
        forall|i: int| 0 <= i < labels.len() ==> labels[i] < y,
    ensures
        pair_count(clusters, labels, c, y, n) == 0,
    decreases n,
{
    if n > 0 {
        lemma_pair_count_beyond_labels(clusters, labels, c, y, n - 1);
    }
}

proof fn lemma_mapped_pair_sum_dominated(
    clusters: Seq<usize>,
    labels: Seq<usize>,
    k: usize,
    best: Seq<usize>,
    mapping: Seq<usize>,
    kk: int,
)
    requires
        0 <= kk <= k,
        is_majority_mapping(clusters, labels, k, best),
        mapping.len() == k,
    ensures
        mapped_pair_sum(clusters, labels, mapping, kk, paired_len(clusters, labels)) <= mapped_pair_sum(
            clusters,
            labels,
            best,
            kk,
            paired_len(clusters, labels),
        ),
    decreases kk,
{
    if kk > 0 {
        lemma_mapped_pair_sum_dominated(clusters, labels, k, best, mapping, kk - 1);
        let c = (kk - 1) as usize;
        let y = mapping[kk - 1];
        let n = paired_len(clusters, labels);
        assert(is_majority_label(clusters, labels, c, best[c as int]));
        if y > max_label(labels) {
            lemma_max_label_bound(labels);
            lemma_pair_count_beyond_labels(clusters, labels, c, y, n);
        } else {
            assert(cluster_label_count(clusters, labels, c, y) <= cluster_label_count(
                clusters,
                labels,
                c,
                best[c as int],
            ));
        }
    }
}

/// No mapping from clusters to labels gets more points right than the
/// majority mapping: relabelling by it maximizes the correct count that the
/// accuracy is computed from.
pub proof fn lemma_majority_mapping_maximizes_correct(
    clusters: Seq<usize>,
    labels: Seq<usize>,
    k: usize,
    best: Seq<usize>,
    mapping: Seq<usize>,
)
    requires
        is_majority_mapping(clusters, labels, k, best),
        mapping.len() == k,
        forall|i: int| 0 <= i < clusters.len() ==> clusters[i] < k,
    ensures
        correct_count(labels, relabeled(clusters, mapping)) <= correct_count(labels, relabeled(clusters, best)),
{
    let n = paired_len(clusters, labels);
    assert(paired_len(labels, relabeled(clusters, mapping)) == n);
    assert(paired_len(labels, relabeled(clusters, best)) == n);
    lemma_mapped_pair_sum_agree(clusters, labels, mapping, k, n);
    lemma_mapped_pair_sum_agree(clusters, labels, best, k, n);
    lemma_mapped_pair_sum_dominated(clusters, labels, k, best, mapping, k as int);
}


proof fn lemma_pair_count_empty_cluster(clusters: Seq<usize>, labels: Seq<usize>, c: usize, y: usize, n: int)
    requires
        forall|i: int| 0 <= i < n ==> clusters[i] != c,
    ensures
        pair_count(clusters, labels, c, y, n) == 0,
    decreases n,
{
    if n > 0 {
        lemma_pair_count_empty_cluster(clusters, labels, c, y, n - 1);
    }
}

/// Among labels that equally many points of a cluster carry, the majority
/// mapping takes the smallest: no label of the range is carried by more
/// points of `c` than `mapping[c]`, and one carried by as many is not smaller.
/// A cluster without points is mapped to label 0.
pub proof fn lemma_majority_mapping_ties(
    clusters: Seq<usize>,
    labels: Seq<usize>,
    k: usize,
    mapping: Seq<usize>,
    c: usize,
    y: usize,
)
    requires
        is_majority_mapping(clusters, labels, k, mapping),
        c < k,
        y <= max_label(labels),
    ensures
        pair_count(clusters, labels, c, y, paired_len(clusters, labels)) <= pair_count(
            clusters,
            labels,
            c,
            mapping[c as int],
            paired_len(clusters, labels),
        ),
        pair_count(clusters, labels, c, y, paired_len(clusters, labels)) == pair_count(
            clusters,
            labels,
            c,
            mapping[c as int],
            paired_len(clusters, labels),
        ) ==> mapping[c as int] <= y,
        (forall|i: int| 0 <= i < paired_len(clusters, labels) ==> clusters[i] != c) ==> mapping[c as int] == 0,
{
    let n = paired_len(clusters, labels);
    assert(is_majority_label(clusters, labels, c, mapping[c as int]));
    assert(cluster_label_count(clusters, labels, c, y) <= cluster_label_count(clusters, labels, c, mapping[c as int]));
    if (forall|i: int| 0 <= i < n ==> clusters[i] != c) {
        lemma_pair_count_empty_cluster(clusters, labels, c, 0, n);
        lemma_pair_count_empty_cluster(clusters, labels, c, mapping[c as int], n);
        if mapping[c as int] > 0 {
            assert(cluster_label_count(clusters, labels, c, 0) < cluster_label_count(clusters, labels, c, mapping[c as int]));
        }
    }
    if pair_count(clusters, labels, c, y, n) == pair_count(clusters, labels, c, mapping[c as int], n) {
        if y < mapping[c as int] {
            assert(cluster_label_count(clusters, labels, c, y) < cluster_label_count(clusters, labels, c, mapping[c as int]));
        }
    }
}

/// Relabelling by the majority mapping only produces labels that occur among
/// the true labels' range, so the macro averages over the relabelled
/// predictions run over exactly the classes `0..=max_label(labels)`.
pub proof fn lemma_majority_relabel_within_labels(clusters: Seq<usize>, labels: Seq<usize>, k: usize, best: Seq<usize>)
    requires
        is_majority_mapping(clusters, labels, k, best),
        forall|i: int| 0 <= i < clusters.len() ==> clusters[i] < k,
    ensures
        forall|i: int|
            0 <= i < clusters.len() ==> #[trigger] relabeled(clusters, best)[i] <= max_label(labels),
        class_count(labels, relabeled(clusters, best)) == max_label(labels) + 1,
{
    let r = relabeled(clusters, best);
    assert forall|i: int| 0 <= i < clusters.len() implies #[trigger] r[i] <= max_label(labels) by {
        assert(r[i] == best[clusters[i] as int]);
        assert(is_majority_label(clusters, labels, clusters[i], best[clusters[i] as int]));
    }
    lemma_max_label_at_most(r, max_label(labels));
}

} // verus!
