use vstd::prelude::*;

verus! {

/// The samples `i` and `i + 1` lie on different sides of zero.
pub open spec fn changes_at(negative: Seq<bool>, i: int) -> bool {
    0 <= i && i + 1 < negative.len() && negative[i] != negative[i + 1]
}

/// `i` is the first place where the samples change sign.
pub open spec fn is_first_change(negative: Seq<bool>, i: int) -> bool {
    changes_at(negative, i) && forall|j: int| 0 <= j < i ==> !#[trigger] changes_at(negative, j)
}

/// Once the samples change sign they never change back.
pub open spec fn monotone(negative: Seq<bool>) -> bool {
    (forall|i: int, j: int|
        #![trigger negative[i], negative[j]]
        0 <= i <= j < negative.len() && negative[i] ==> negative[j]) || (forall|i: int, j: int|
        #![trigger negative[i], negative[j]]
        0 <= i <= j < negative.len() && negative[j] ==> negative[i])
}

/// Given, for each of a row of evenly spaced samples, whether the function
/// was negative there, the first interval between neighbouring samples
/// across which the sign changes, if any.
pub fn first_sign_change(negative: &Vec<bool>) -> (r: Option<usize>)
    ensures
        match r {
            Some(i) => is_first_change(negative@, i as int),
            None => forall|j: int| !#[trigger] changes_at(negative@, j),
        },
{
    let mut i: usize = 0;
    while i < negative.len()
        invariant
            i <= negative.len(),
            forall|j: int| 0 <= j < i ==> !#[trigger] changes_at(negative@, j),
        decreases negative.len() - i,
    {
        if i + 1 < negative.len() && negative[i] != negative[i + 1] {
            return Some(i);
        }
        i += 1;
    }
    assert forall|j: int| !#[trigger] changes_at(negative@, j) by {
        if j >= i {
            assert(!changes_at(negative@, j));
        }
    }
    None
}

/// For samples of a monotone function that differ in sign at the two ends,
/// there is a sign change.
pub proof fn lemma_monotone_change_found(negative: Seq<bool>)
    requires
        monotone(negative),
        negative.len() >= 2,
        negative[0] != negative[negative.len() - 1],
    ensures
        exists|j: int| #[trigger] changes_at(negative, j),
    decreases negative.len(),
{
    let n = negative.len();
    if negative[n - 2] != negative[n - 1] {
        assert(changes_at(negative, n - 2));
    } else {
        let front = negative.drop_last();
        assert(monotone(front));
        lemma_monotone_change_found(front);
        let j = choose|j: int| #[trigger] changes_at(front, j);
        assert(changes_at(negative, j));
    }
}

/// For samples of a monotone function, the first sign change separates the
/// samples that share the sign of the first from those that share the sign
/// of the last: the root lies in that interval and nowhere else.
pub proof fn lemma_monotone_bracket(negative: Seq<bool>, i: int)
    requires
        monotone(negative),
        is_first_change(negative, i),
    ensures
        forall|j: int| 0 <= j <= i ==> #[trigger] negative[j] == negative[0],
        forall|j: int| i < j < negative.len() ==> #[trigger] negative[j] == negative[negative.len() - 1],
{
    lemma_same_before(negative, i);
    let n = negative.len();
    assert(negative[i] != negative[i + 1]);
    assert(negative[n - 1] == negative[n - 1]);
    assert(negative[i + 1] == negative[i + 1]);
}

proof fn lemma_same_before(negative: Seq<bool>, i: int)
    requires
        0 <= i < negative.len(),
        forall|j: int| 0 <= j < i ==> !#[trigger] changes_at(negative, j),
    ensures
        forall|j: int| 0 <= j <= i ==> #[trigger] negative[j] == negative[0],
    decreases i,
{
    if i > 0 {
        lemma_same_before(negative, i - 1);
        assert(!changes_at(negative, i - 1));
    }
}

} // verus!
