use vstd::prelude::*;

use crate::error::RenderError;
use crate::highlight::{line_count, newline_count};
use vstd::string::StringSliceAdditionalSpecFns;

verus! {

/// Counts the lines of `text`: the `\n`-terminated ones and a trailing
/// unterminated one, as `str::lines` yields them.
pub fn count_lines(text: &str) -> (r: usize)
    ensures
        r as int == line_count(text.spec_bytes()),
{
    let bytes = text.as_bytes();
    let n = bytes.len();
    let mut count: usize = 0;
    let mut i: usize = 0;
    while i < n
        invariant
            n == bytes@.len(),
            bytes@ == text.spec_bytes(),
            0 <= i <= n,
            count == newline_count(bytes@.take(i as int)),
            count + (if i > 0 && bytes@[i - 1] != 10u8 { 1int } else { 0int }) <= i,
        decreases n - i,
    {
        assert(bytes@.take(i as int + 1).drop_last() =~= bytes@.take(i as int));
        if bytes[i] == 10u8 {
            count = count + 1;
        }
        i = i + 1;
    }
    assert(bytes@.take(n as int) =~= bytes@);
    if n > 0 && bytes[n - 1] != 10u8 {
        count + 1
    } else {
        count
    }
}

/// Whether file `i` takes part in the render.
pub open spec fn keeps(has_syntax: Seq<bool>, skip_unsyntaxed: bool, i: int) -> bool {
    !skip_unsyntaxed || has_syntax[i]
}

/// Indices of the first `n` files that take part, in input order.
pub open spec fn kept_prefix(has_syntax: Seq<bool>, skip_unsyntaxed: bool, n: int) -> Seq<int>
    decreases n,
{
    if n <= 0 {
        Seq::empty()
    } else if keeps(has_syntax, skip_unsyntaxed, n - 1) {
        kept_prefix(has_syntax, skip_unsyntaxed, n - 1).push(n - 1)
    } else {
        kept_prefix(has_syntax, skip_unsyntaxed, n - 1)
    }
}

/// Total line count of the files at `indices`.
pub open spec fn sum_lines(counts: Seq<usize>, indices: Seq<int>) -> int
    decreases indices.len(),
{
    if indices.len() == 0 {
        0
    } else {
        sum_lines(counts, indices.drop_last()) + counts[indices.last()]
    }
}

/// Which files are rendered, where each one starts, and how many lines there are.
#[derive(Clone, Debug)]
pub struct Plan {
    /// Input positions of the rendered files, in input order.
    pub kept: Vec<usize>,
    /// Global index of the first line of each rendered file.
    pub offsets: Vec<u32>,
    pub total_line_count: u32,
    pub num_ignored: usize,
}

/// The plan is the one for these inputs.
pub open spec fn plan_of(plan: Plan, counts: Seq<usize>, has_syntax: Seq<bool>, skip_unsyntaxed: bool) -> bool {
    let kept = kept_prefix(has_syntax, skip_unsyntaxed, counts.len() as int);
    &&& plan.kept@.len() == kept.len()
    &&& forall|k: int| 0 <= k < kept.len() ==> plan.kept@[k] as int == kept[k]
    &&& plan.offsets@.len() == kept.len()
    &&& forall|k: int| 0 <= k < kept.len() ==> plan.offsets@[k] as int == sum_lines(counts, kept.take(k))
    &&& plan.total_line_count as int == sum_lines(counts, kept)
    &&& plan.num_ignored as int == counts.len() - kept.len()
}

pub(crate) proof fn lemma_kept_bounded(has_syntax: Seq<bool>, skip_unsyntaxed: bool, n: int)
    requires
        n >= 0,
    ensures
        kept_prefix(has_syntax, skip_unsyntaxed, n).len() <= n,
        forall|k: int| 0 <= k < kept_prefix(has_syntax, skip_unsyntaxed, n).len()
            ==> 0 <= #[trigger] kept_prefix(has_syntax, skip_unsyntaxed, n)[k] < n,
    decreases n,
{
    if n > 0 {
        lemma_kept_bounded(has_syntax, skip_unsyntaxed, n - 1);
    }
}

/// Picks the files to render (all of them, or with `skip_unsyntaxed` only
/// those with a syntax), lays their lines out one after the other, and
/// counts the files left out.
pub fn plan_files(line_counts: &Vec<usize>, has_syntax: &Vec<bool>, skip_unsyntaxed: bool) -> (r: Result<Plan, RenderError>)
    requires
        line_counts@.len() == has_syntax@.len(),
    ensures
        ({
            let kept = kept_prefix(has_syntax@, skip_unsyntaxed, line_counts@.len() as int);
            let total = sum_lines(line_counts@, kept);
            &&& total > u32::MAX ==> r == Err::<Plan, RenderError>(RenderError::DimensionsTooLarge)
            &&& total == 0 ==> r == Err::<Plan, RenderError>(RenderError::NoRenderableLines { num_files: kept.len() as usize })
            &&& 0 < total <= u32::MAX ==> r is Ok && plan_of(r->Ok_0, line_counts@, has_syntax@, skip_unsyntaxed)
        }),
{
    let n = line_counts.len();
    let mut kept: Vec<usize> = Vec::new();
    let mut offsets: Vec<u32> = Vec::new();
    let mut total: u64 = 0;
    let mut too_many = false;
    let mut i: usize = 0;
    while i < n
        invariant
            n == line_counts@.len(),
            n == has_syntax@.len(),
            0 <= i <= n,
            ({
                let kp = kept_prefix(has_syntax@, skip_unsyntaxed, i as int);
                &&& kept@.len() == kp.len()
                &&& forall|k: int| 0 <= k < kp.len() ==> kept@[k] as int == kp[k]
                &&& too_many <==> sum_lines(line_counts@, kp) > u32::MAX
                &&& !too_many ==> total as int == sum_lines(line_counts@, kp)
                &&& total <= u32::MAX
                &&& !too_many ==> offsets@.len() == kp.len()
                &&& !too_many ==> forall|k: int| 0 <= k < kp.len() ==> offsets@[k] as int == sum_lines(line_counts@, kp.take(k))
            }),
        decreases n - i,
    {
        let ghost kp = kept_prefix(has_syntax@, skip_unsyntaxed, i as int);
        if !skip_unsyntaxed || has_syntax[i] {
            let ghost kp2 = kp.push(i as int);
            assert(kp2.drop_last() =~= kp);
            assert forall|k: int| 0 <= k < kp.len() implies kp2.take(k) =~= kp.take(k) by {}
            assert(kp2.take(kp.len() as int) =~= kp);
            kept.push(i);
            if !too_many {
                offsets.push(total as u32);
                let c = line_counts[i] as u64;
                if c > u32::MAX as u64 - total {
                    too_many = true;
                } else {
                    total = total + c;
                }
            } else {
                proof {
                    assert(sum_lines(line_counts@, kp2) >= sum_lines(line_counts@, kp));
                }
            }
        }
        i = i + 1;
    }
    let ghost kp = kept_prefix(has_syntax@, skip_unsyntaxed, n as int);
    if too_many {
        return Err(RenderError::DimensionsTooLarge);
    }
    if total == 0 {
        return Err(RenderError::NoRenderableLines { num_files: kept.len() });
    }
    proof {
        lemma_kept_bounded(has_syntax@, skip_unsyntaxed, n as int);
    }
    let num_ignored = n - kept.len();
    Ok(Plan { kept, offsets, total_line_count: total as u32, num_ignored })
}

} // verus!
