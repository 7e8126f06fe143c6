//! Run lengths and the pixels that they stand for.
//!
//! The pixels of a mask are taken in column-major order: the first column from
//! top to bottom, then the second, and so on. Run lengths count the pixels
//! until the value changes. The first run counts background, so it is empty
//! where the mask begins with the object.
use vstd::prelude::*;

verus! {

/// The run lengths as whole numbers.
pub open spec fn as_ints(counts: Seq<u32>) -> Seq<int> {
    counts.map_values(|c: u32| c as int)
}

/// The whole numbers as run lengths.
pub open spec fn as_counts(runs: Seq<int>) -> Seq<u32> {
    runs.map_values(|c: int| c as u32)
}

/// The value of the pixels of run `i`: background for the first run, then
/// object and background in turn.
pub open spec fn run_value(i: int) -> u8 {
    if i % 2 == 0 {
        0
    } else {
        1
    }
}

/// The pixels that the runs stand for.
pub open spec fn expand(runs: Seq<int>) -> Seq<u8>
    decreases runs.len(),
{
    if runs.len() == 0 {
        Seq::empty()
    } else {
        expand(runs.drop_last()) + Seq::new(runs.last() as nat, |k: int| run_value(runs.len() - 1))
    }
}

/// The pixels that the runs stand for, in an image of `n` pixels: what the
/// runs do not reach is background.
pub open spec fn expand_to(runs: Seq<int>, n: nat) -> Seq<u8> {
    expand(runs) + Seq::new((n - expand(runs).len()) as nat, |k: int| 0u8)
}

/// The run lengths of pixels: a run ends where a pixel differs from the one
/// before it, and the first pixel is held against background.
pub open spec fn runs(cells: Seq<u8>) -> Seq<int>
    decreases cells.len(),
{
    if cells.len() == 0 {
        seq![0int]
    } else {
        let before = runs(cells.drop_last());
        let previous = if cells.len() == 1 {
            0u8
        } else {
            cells[cells.len() - 2]
        };
        if cells.last() != previous {
            before.push(1)
        } else {
            before.update(before.len() - 1, before.last() + 1)
        }
    }
}

/// Every pixel is background or object.
pub open spec fn binary(cells: Seq<u8>) -> bool {
    forall|k: int| 0 <= k < cells.len() ==> #[trigger] cells[k] <= 1
}

/// Every run length is a whole number from 0 up.
pub open spec fn non_negative(runs: Seq<int>) -> bool {
    forall|i: int| 0 <= i < runs.len() ==> 0 <= #[trigger] runs[i]
}

/// The sum of the first `n` run lengths.
pub open spec fn prefix_sum(counts: Seq<int>, n: int) -> int
    decreases n,
{
    if n <= 0 {
        0
    } else {
        prefix_sum(counts, n - 1) + counts[n - 1]
    }
}

/// The number of pixels that the runs cover.
pub open spec fn total(counts: Seq<int>) -> int {
    prefix_sum(counts, counts.len() as int)
}

/// The sums of the runs grow with their number.
pub proof fn lemma_prefix_sum_grows(counts: Seq<int>, m: int, n: int)
    requires
        non_negative(counts),
        0 <= m <= n <= counts.len(),
    ensures
        0 <= prefix_sum(counts, m) <= prefix_sum(counts, n),
    decreases n,
{
    if n > 0 {
        if m < n {
            lemma_prefix_sum_grows(counts, m, n - 1);
        } else {
            lemma_prefix_sum_grows(counts, m - 1, n - 1);
        }
    }
}

/// The sum of the first runs does not depend on the runs after them.
pub proof fn lemma_prefix_sum_take(counts: Seq<int>, n: int, m: int)
    requires
        0 <= n <= m <= counts.len(),
    ensures
        prefix_sum(counts.take(m), n) == prefix_sum(counts, n),
    decreases n,
{
    if n > 0 {
        lemma_prefix_sum_take(counts, n - 1, m);
    }
}

/// The runs stand for as many pixels as they count.
pub proof fn lemma_expand_len(runs: Seq<int>)
    requires
        non_negative(runs),
    ensures
        expand(runs).len() == total(runs),
    decreases runs.len(),
{
    if runs.len() > 0 {
        lemma_expand_len(runs.drop_last());
        lemma_prefix_sum_take(runs, runs.len() - 1, runs.len() - 1);
        assert(runs.take(runs.len() - 1) =~= runs.drop_last());
    }
}

/// The run lengths of pixels: there is at least one run, no run but the
/// first is empty, and the runs count every pixel.
pub proof fn lemma_runs_count(cells: Seq<u8>)
    ensures
        runs(cells).len() >= 1,
        non_negative(runs(cells)),
        forall|i: int| 1 <= i < runs(cells).len() ==> #[trigger] runs(cells)[i] >= 1,
        total(runs(cells)) == cells.len(),
        forall|i: int| 0 <= i < runs(cells).len() ==> #[trigger] runs(cells)[i] <= cells.len(),
    decreases cells.len(),
{
    let after = runs(cells);
    if cells.len() > 0 {
        let before = runs(cells.drop_last());
        lemma_runs_count(cells.drop_last());
        let previous = if cells.len() == 1 {
            0u8
        } else {
            cells[cells.len() - 2]
        };
        if cells.last() != previous {
            assert(after.drop_last() =~= before);
            lemma_prefix_sum_take(after, after.len() - 1, after.len() - 1);
            assert(after.take(after.len() - 1) =~= before);
        } else {
            lemma_prefix_sum_take(after, after.len() - 1, after.len() - 1);
            lemma_prefix_sum_take(before, before.len() - 1, before.len() - 1);
            assert(after.take(after.len() - 1) =~= before.take(before.len() - 1));
            assert(prefix_sum(after, after.len() - 1) == prefix_sum(before, before.len() - 1));
            assert(total(before) == prefix_sum(before, before.len() - 1) + before.last());
            assert(total(after) == prefix_sum(after, after.len() - 1) + after.last());
        }
        assert forall|i: int| 0 <= i < after.len() implies #[trigger] after[i] <= cells.len() by {
            if i < before.len() {
                assert(before[i] <= cells.len() - 1);
            }
        }
    } else {
        assert(prefix_sum(after, 0) == 0);
    }
}

/// The run lengths of a mask of background and object stand for the mask,
/// and the last run holds the value of the last pixel.
pub proof fn lemma_runs(cells: Seq<u8>)
    requires
        binary(cells),
    ensures
        run_value(runs(cells).len() - 1) == if cells.len() == 0 {
            0u8
        } else {
            cells.last()
        },
        expand(runs(cells)) == cells,
    decreases cells.len(),
{
    lemma_runs_count(cells);
    if cells.len() > 0 {
        let shorter = cells.drop_last();
        let before = runs(shorter);
        let after = runs(cells);
        lemma_runs(shorter);
        lemma_runs_count(shorter);
        lemma_expand_len(before);
        let previous = if cells.len() == 1 {
            0u8
        } else {
            cells[cells.len() - 2]
        };
        assert(previous == if shorter.len() == 0 {
            0u8
        } else {
            shorter.last()
        });
        if cells.last() != previous {
            assert(after.drop_last() =~= before);
            assert(Seq::new(1, |k: int| run_value(after.len() - 1)) =~= seq![cells.last()]);
            assert(expand(after) =~= cells);
        } else {
            assert(after.drop_last() =~= before.drop_last());
            assert(Seq::new(after.last() as nat, |k: int| run_value(after.len() - 1)) =~= Seq::new(
                before.last() as nat,
                |k: int| run_value(before.len() - 1),
            ) + seq![cells.last()]);
            let head = expand(before.drop_last());
            let run = Seq::new(before.last() as nat, |k: int| run_value(before.len() - 1));
            assert(expand(before) == head + run);
            assert(expand(after) == head + (run + seq![cells.last()]));
            assert(head + (run + seq![cells.last()]) =~= (head + run) + seq![cells.last()]);
            assert(shorter + seq![cells.last()] =~= cells);
        }
    } else {
        let only = runs(cells);
        assert(expand(only.drop_last()) =~= Seq::<u8>::empty());
        assert(expand(only) =~= cells);
    }
}

/// An image of background only has one run.
pub proof fn lemma_runs_of_background(cells: Seq<u8>)
    requires
        forall|k: int| 0 <= k < cells.len() ==> cells[k] == 0,
    ensures
        runs(cells) == seq![cells.len() as int],
    decreases cells.len(),
{
    if cells.len() > 0 {
        lemma_runs_of_background(cells.drop_last());
        assert(runs(cells) =~= seq![cells.len() as int]);
    }
}

/// The run lengths of the pixels.
pub fn runs_of_cells(cells: &Vec<u8>) -> (counts: Vec<u32>)
    requires
        cells.len() <= u32::MAX,
    ensures
        as_ints(counts@) == runs(cells@),
{
    let mut previous_value: u8 = 0;
    let mut count: u32 = 0;
    let mut counts: Vec<u32> = Vec::new();
    let mut k: usize = 0;
    assert(cells@.take(0) =~= Seq::<u8>::empty());
    assert(as_ints(counts@).push(count as int) =~= seq![0int]);
    while k < cells.len()
        invariant
            k <= cells.len() <= u32::MAX,
            count <= k,
            previous_value == (if k == 0 {
                0u8
            } else {
                cells[k - 1]
            }),
            as_ints(counts@).push(count as int) == runs(cells@.take(k as int)),
        decreases cells.len() - k,
    {
        let value = cells[k];
        proof {
            let now = cells@.take(k + 1);
            assert(now.drop_last() =~= cells@.take(k as int));
            assert(now.last() == value);
            if k > 0 {
                assert(now[now.len() - 2] == cells[k - 1]);
            }
        }
        let ghost closed = as_ints(counts@);
        let ghost open = count as int;
        if value != previous_value {
            counts.push(count);
            assert(as_ints(counts@) =~= closed.push(open));
            previous_value = value;
            count = 0;
        }
        count = count + 1;
        proof {
            let before = runs(cells@.take(k as int));
            if value != (if k == 0 {
                0u8
            } else {
                cells[k - 1]
            }) {
                assert(as_ints(counts@).push(count as int) =~= before.push(1));
            } else {
                assert(as_ints(counts@).push(count as int) =~= before.update(
                    before.len() - 1,
                    before.last() + 1,
                ));
            }
        }
        k = k + 1;
    }
    assert(cells@.take(k as int) =~= cells@);
    proof {
        assert(as_ints(counts@.push(count)) =~= as_ints(counts@).push(count as int));
    }
    counts.push(count);
    counts
}

/// The pixels that the runs stand for, in an image of `n` pixels.
pub fn cells_of_runs(counts: &Vec<u32>, n: usize) -> (cells: Vec<u8>)
    requires
        total(as_ints(counts@)) <= n,
    ensures
        cells@ == expand_to(as_ints(counts@), n as nat),
        cells.len() == n,
{
    let ghost runs = as_ints(counts@);
    let mut cells: Vec<u8> = Vec::new();
    let mut current_value: u8 = 0;
    let mut i: usize = 0;
    proof {
        assert(runs.take(0) =~= Seq::<int>::empty());
        assert(non_negative(runs));
    }
    while i < counts.len()
        invariant
            i <= counts.len(),
            runs == as_ints(counts@),
            non_negative(runs),
            total(runs) <= n,
            current_value == run_value(i as int),
            cells@ == expand(runs.take(i as int)),
        decreases counts.len() - i,
    {
        let nb_pixels = counts[i];
        let ghost before = cells@;
        proof {
            assert(runs.take(i + 1).drop_last() =~= runs.take(i as int));
            assert(non_negative(runs.take(i + 1)));
            lemma_expand_len(runs.take(i + 1));
            lemma_prefix_sum_take(runs, i + 1, i + 1);
            lemma_prefix_sum_grows(runs, i + 1, runs.len() as int);
        }
        let mut j: u32 = 0;
        while j < nb_pixels
            invariant
                j <= nb_pixels,
                before.len() + nb_pixels <= n,
                cells@ == before + Seq::new(j as nat, |k: int| current_value),
            decreases nb_pixels - j,
        {
            cells.push(current_value);
            j = j + 1;
            assert(cells@ =~= before + Seq::new(j as nat, |k: int| current_value));
        }
        current_value = if current_value == 0 {
            1
        } else {
            0
        };
        i = i + 1;
        assert(cells@ =~= expand(runs.take(i as int)));
    }
    proof {
        assert(runs.take(i as int) =~= runs);
        lemma_expand_len(runs);
    }
    let ghost covered = cells@;
    while cells.len() < n
        invariant
            cells.len() <= n,
            covered.len() <= n,
            cells@ == covered + Seq::new((cells.len() - covered.len()) as nat, |k: int| 0u8),
        decreases n - cells.len(),
    {
        cells.push(0);
        assert(cells@ =~= covered + Seq::new((cells.len() - covered.len()) as nat, |k: int| 0u8));
    }
    cells
}

} // verus!
