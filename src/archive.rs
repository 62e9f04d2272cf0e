use vstd::prelude::*;

verus! {

/// The sum of `sizes`.
pub open spec fn sum_of(sizes: Seq<u64>) -> int
    decreases sizes.len(),
{
    if sizes.len() == 0 {
        0
    } else {
        sum_of(sizes.drop_last()) + sizes.last()
    }
}

proof fn lemma_sum_of_prefix_grows(sizes: Seq<u64>, i: int)
    requires
        0 <= i <= sizes.len(),
    ensures
        0 <= sum_of(sizes.subrange(0, i)) <= sum_of(sizes),
    decreases sizes.len(),
{
    if sizes.len() > 0 {
        if i == sizes.len() {
            assert(sizes.subrange(0, i) =~= sizes);
            lemma_sum_of_prefix_grows(sizes.drop_last(), i - 1);
        } else {
            assert(sizes.drop_last().subrange(0, i) =~= sizes.subrange(0, i));
            lemma_sum_of_prefix_grows(sizes.drop_last(), i);
        }
    }
}

/// The byte total that progress is measured against: the sum of the file
/// sizes, `None` where it does not fit in 64 bits.
pub fn total_size(sizes: &Vec<u64>) -> (r: Option<u64>)
    ensures
        sum_of(sizes@) <= u64::MAX ==> r == Some(sum_of(sizes@) as u64),
        sum_of(sizes@) > u64::MAX ==> r is None,
{
    let mut total: u64 = 0;
    let mut i: usize = 0;
    while i < sizes.len()
        invariant
            0 <= i <= sizes@.len(),
            total == sum_of(sizes@.subrange(0, i as int)),
        decreases sizes@.len() - i,
    {
        assert(sizes@.subrange(0, i + 1).drop_last() =~= sizes@.subrange(0, i as int));
        match total.checked_add(sizes[i]) {
            Some(t) => {
                total = t;
            },
            None => {
                proof {
                    lemma_sum_of_prefix_grows(sizes@, i + 1);
                }
                return None;
            },
        }
        i = i + 1;
    }
    assert(sizes@.subrange(0, i as int) =~= sizes@);
    Some(total)
}

} // verus!
