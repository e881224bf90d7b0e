use vstd::prelude::*;
use crate::kmeans::{lemma_max_label_bound, max_label, max_or_zero, paired_len};

verus! {

/// Among the first `n` positions, how many hold equal values in `a` and `b`.
pub open spec fn agree_count(a: Seq<usize>, b: Seq<usize>, n: int) -> nat
    decreases n,
{
    if n <= 0 {
        0
    } else {
        agree_count(a, b, n - 1) + if a[n - 1] == b[n - 1] {
            1nat
        } else {
            0nat
        }
    }
}

/// Number of zipped positions where the prediction equals the true label.
pub open spec fn correct_count(y_true: Seq<usize>, y_pred: Seq<usize>) -> nat {
    agree_count(y_true, y_pred, paired_len(y_true, y_pred))
}

/// Among the first `n` positions, how many hold the value `v`.
pub open spec fn occurrences(s: Seq<usize>, v: usize, n: int) -> nat
    decreases n,
{
    if n <= 0 {
        0
    } else {
        occurrences(s, v, n - 1) + if s[n - 1] == v {
            1nat
        } else {
            0nat
        }
    }
}

/// Among the first `n` positions, how many predict class `c` and are of class `c`.
pub open spec fn true_positives(y_true: Seq<usize>, y_pred: Seq<usize>, c: usize, n: int) -> nat
    decreases n,
{
    if n <= 0 {
        0
    } else {
        true_positives(y_true, y_pred, c, n - 1) + if y_pred[n - 1] == c && y_true[n - 1] == c {
            1nat
        } else {
            0nat
        }
    }
}

/// Among the first `n` positions, how many predict class `c` but are of another class.
pub open spec fn false_positives(y_true: Seq<usize>, y_pred: Seq<usize>, c: usize, n: int) -> nat
    decreases n,
{
    if n <= 0 {
        0
    } else {
        false_positives(y_true, y_pred, c, n - 1) + if y_pred[n - 1] == c && y_true[n - 1] != c {
            1nat
        } else {
            0nat
        }
    }
}

/// Among the first `n` positions, how many are of class `c` but predict another class.
pub open spec fn false_negatives(y_true: Seq<usize>, y_pred: Seq<usize>, c: usize, n: int) -> nat
    decreases n,
{
    if n <= 0 {
        0
    } else {
        false_negatives(y_true, y_pred, c, n - 1) + if y_pred[n - 1] != c && y_true[n - 1] == c {
            1nat
        } else {
            0nat
        }
    }
}

/// The classes that the macro averages run over: `0..=` the largest label
/// found in either sequence (0 when both are empty).
pub open spec fn class_count(y_true: Seq<usize>, y_pred: Seq<usize>) -> int {
    let m = if max_label(y_true) > max_label(y_pred) {
        max_label(y_true)
    } else {
        max_label(y_pred)
    };
    m + 1
}

/// Confusion counts of one class.
#[derive(Debug, Clone, Copy, PartialEq, Eq)]
pub struct ClassCounts {
    pub tp: usize,
    pub fp: usize,
    pub fn_: usize,
}

proof fn lemma_agree_count_bound(a: Seq<usize>, b: Seq<usize>, n: int)
    requires
        0 <= n,
    ensures
        agree_count(a, b, n) <= n,
    decreases n,
{
    if n > 0 {
        lemma_agree_count_bound(a, b, n - 1);
    }
}

/// Number of zipped positions at which `y_pred` equals `y_true`; the
/// numerator of the accuracy.
pub fn count_correct(y_true: &[usize], y_pred: &[usize]) -> (r: usize)
    ensures
        r == correct_count(y_true@, y_pred@),
{
    let n: usize = if y_true.len() < y_pred.len() { y_true.len() } else { y_pred.len() };
    let mut r: usize = 0;
    let mut i: usize = 0;
    while i < n
        invariant
            i <= n,
            n == paired_len(y_true@, y_pred@),
            r == agree_count(y_true@, y_pred@, i as int),
        decreases n - i,
    {
        proof {
            lemma_agree_count_bound(y_true@, y_pred@, i as int);
        }
        if y_true[i] == y_pred[i] {
            r = r + 1;
        }
        i = i + 1;
    }
    r
}


proof fn lemma_confusion_bound(y_true: Seq<usize>, y_pred: Seq<usize>, c: usize, n: int)
    requires
        0 <= n,
    ensures
        true_positives(y_true, y_pred, c, n) + false_positives(y_true, y_pred, c, n)
            + false_negatives(y_true, y_pred, c, n) <= n,
    decreases n,
{
    if n > 0 {
        lemma_confusion_bound(y_true, y_pred, c, n - 1);
    }
}

/// For every class `c` in `0..=` the largest label of either sequence, the
/// true positives, false positives and false negatives of `c` over the zipped
/// positions.
pub fn class_counts(y_true: &[usize], y_pred: &[usize]) -> (r: Vec<ClassCounts>)
    requires
        forall|i: int| 0 <= i < y_true.len() ==> y_true[i] < usize::MAX,
        forall|i: int| 0 <= i < y_pred.len() ==> y_pred[i] < usize::MAX,
    ensures
        r.len() == class_count(y_true@, y_pred@),
        forall|c: int|
            #![trigger r[c]]
            0 <= c < r.len() ==> {
                let n = paired_len(y_true@, y_pred@);
                &&& r[c].tp == true_positives(y_true@, y_pred@, c as usize, n)
                &&& r[c].fp == false_positives(y_true@, y_pred@, c as usize, n)
                &&& r[c].fn_ == false_negatives(y_true@, y_pred@, c as usize, n)
            },
{
    let max_true = max_or_zero(y_true);
    let max_pred = max_or_zero(y_pred);
    let max_class: usize = if max_true > max_pred { max_true } else { max_pred };
    let classes: usize = max_class + 1;
    let n: usize = if y_true.len() < y_pred.len() { y_true.len() } else { y_pred.len() };
    let ghost yt = y_true@;
    let ghost yp = y_pred@;
    let mut r: Vec<ClassCounts> = Vec::new();
    let mut c: usize = 0;
    while c < classes
        invariant
            c <= classes,
            classes == class_count(yt, yp),
            n == paired_len(yt, yp),
            yt == y_true@,
            yp == y_pred@,
            r.len() == c,
            forall|cc: int|
                #![trigger r[cc]]
                0 <= cc < c ==> {
                    &&& r[cc].tp == true_positives(yt, yp, cc as usize, n as int)
                    &&& r[cc].fp == false_positives(yt, yp, cc as usize, n as int)
                    &&& r[cc].fn_ == false_negatives(yt, yp, cc as usize, n as int)
                },
        decreases classes - c,
    {
        let mut tp: usize = 0;
        let mut fp: usize = 0;
        let mut fn_: usize = 0;
        let mut i: usize = 0;
        while i < n
            invariant
                i <= n,
                n == paired_len(yt, yp),
                yt == y_true@,
                yp == y_pred@,
                tp == true_positives(yt, yp, c, i as int),
                fp == false_positives(yt, yp, c, i as int),
                fn_ == false_negatives(yt, yp, c, i as int),
            decreases n - i,
        {
            proof {
                lemma_confusion_bound(yt, yp, c, i as int);
            }
            let t = y_true[i];
            let p = y_pred[i];
            if p == c && t == c {
                tp = tp + 1;
            } else if p == c && t != c {
                fp = fp + 1;
            } else if p != c && t == c {
                fn_ = fn_ + 1;
            }
            i = i + 1;
        }
        r.push(ClassCounts { tp, fp, fn_ });
        c = c + 1;
    }
    r
}

proof fn lemma_agree_count_self(a: Seq<usize>, n: int)
    requires
        0 <= n <= a.len(),
    ensures
        agree_count(a, a, n) == n,
    decreases n,
{
    if n > 0 {
        lemma_agree_count_self(a, n - 1);
    }
}

/// The correct count is at most the number of zipped positions, and
/// predictions equal to the truth are all correct.
pub proof fn lemma_correct_count_bounds(y_true: Seq<usize>, y_pred: Seq<usize>)
    ensures
        correct_count(y_true, y_pred) <= paired_len(y_true, y_pred),
        correct_count(y_true, y_true) == y_true.len(),
{
    lemma_agree_count_bound(y_true, y_pred, paired_len(y_true, y_pred));
    lemma_agree_count_self(y_true, y_true.len() as int);
}

/// Sum of the true positives of classes `0..classes` over the first `n` positions.
pub open spec fn true_positive_sum(y_true: Seq<usize>, y_pred: Seq<usize>, classes: int, n: int) -> nat
    decreases classes,
{
    if classes <= 0 {
        0
    } else {
        true_positive_sum(y_true, y_pred, classes - 1, n) + true_positives(
            y_true,
            y_pred,
            (classes - 1) as usize,
            n,
        )
    }
}

/// The predictions of class `c` are its true positives plus its false
/// positives, and the points of class `c` are its true positives plus its
/// false negatives.
pub proof fn lemma_confusion_marginals(y_true: Seq<usize>, y_pred: Seq<usize>, c: usize, n: int)
    requires
        0 <= n,
    ensures
        true_positives(y_true, y_pred, c, n) + false_positives(y_true, y_pred, c, n)
            == occurrences(y_pred, c, n),
        true_positives(y_true, y_pred, c, n) + false_negatives(y_true, y_pred, c, n)
            == occurrences(y_true, c, n),
    decreases n,
{
    if n > 0 {
        lemma_confusion_marginals(y_true, y_pred, c, n - 1);
    }
}

proof fn lemma_true_positive_sum_step(y_true: Seq<usize>, y_pred: Seq<usize>, classes: int, n: int)
    requires
        0 <= n,
        0 <= classes <= usize::MAX + 1,
    ensures
        true_positive_sum(y_true, y_pred, classes, n + 1) == true_positive_sum(y_true, y_pred, classes, n)
            + if y_true[n] == y_pred[n] && y_true[n] < classes {
            1nat
        } else {
            0nat
        },
    decreases classes,
{
    if classes > 0 {
        lemma_true_positive_sum_step(y_true, y_pred, classes - 1, n);
        let c = (classes - 1) as usize;
        assert(true_positives(y_true, y_pred, c, n + 1) == true_positives(y_true, y_pred, c, n) + if y_pred[n] == c && y_true[n] == c {
            1nat
        } else {
            0nat
        });
    }
}

proof fn lemma_true_positive_sum_prefix(y_true: Seq<usize>, y_pred: Seq<usize>, classes: int, n: int)
    requires
        0 <= n <= paired_len(y_true, y_pred),
        0 <= classes <= usize::MAX + 1,
        forall|i: int| 0 <= i < n ==> y_true[i] < classes,
    ensures
        true_positive_sum(y_true, y_pred, classes, n) == agree_count(y_true, y_pred, n),
    decreases n,
{
    if n > 0 {
        lemma_true_positive_sum_prefix(y_true, y_pred, classes, n - 1);
        lemma_true_positive_sum_step(y_true, y_pred, classes, n - 1);
    } else {
        lemma_true_positive_sum_zero(y_true, y_pred, classes);
    }
}

proof fn lemma_true_positive_sum_zero(y_true: Seq<usize>, y_pred: Seq<usize>, classes: int)
    ensures
        true_positive_sum(y_true, y_pred, classes, 0) == 0,
    decreases classes,
{
    if classes > 0 {
        lemma_true_positive_sum_zero(y_true, y_pred, classes - 1);
    }
}

/// Summed over all the classes that `class_counts` reports, the true
/// positives are exactly the correct predictions that the accuracy counts.
pub proof fn lemma_true_positives_total_correct(y_true: Seq<usize>, y_pred: Seq<usize>)
    ensures
        true_positive_sum(y_true, y_pred, class_count(y_true, y_pred), paired_len(y_true, y_pred))
            == correct_count(y_true, y_pred),
{
    lemma_max_label_bound(y_true);
    lemma_true_positive_sum_prefix(
        y_true,
        y_pred,
        class_count(y_true, y_pred),
        paired_len(y_true, y_pred),
    );
}

} // verus!
