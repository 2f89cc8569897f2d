//! Keeping the output of a tool within a budget of tokens.

use vstd::prelude::*;

use crate::text::number::{decimal, usize_text};
use crate::text::search::{join, join_between, starts_with};

verus! {

/// How many tokens a text has, about: one for every four characters.
pub open spec fn tokens(s: Seq<char>) -> nat {
    s.len() / 4
}

/// How many tokens a text has, about.
pub fn estimate_tokens(text: &str) -> (r: usize)
    ensures
        r == tokens(text@),
{
    text.unicode_len() / 4
}

/// The budget of a tool's output where nothing else is said.
pub const DEFAULT_TOKEN_BUDGET: usize = 2000;

/// The first `k` lines, one below the other.
pub open spec fn first_lines(lines: Seq<Seq<char>>, k: nat) -> Seq<char> {
    join(lines.take(k as int), "\n"@)
}

/// Whether the first `k` lines fit the budget.
pub open spec fn fits(lines: Seq<Seq<char>>, k: nat, max_tokens: nat) -> bool {
    tokens(first_lines(lines, k)) <= max_tokens
}

/// Whether `k` is how many lines are kept: as many as fit, and the first one in any case.
pub open spec fn is_kept(lines: Seq<Seq<char>>, k: nat, max_tokens: nat) -> bool {
    &&& 1 <= k <= lines.len()
    &&& k > 1 ==> fits(lines, k, max_tokens)
    &&& forall|j: nat| k < j <= lines.len() ==> !#[trigger] fits(lines, j, max_tokens)
}

/// The note about lines that were left out.
pub open spec fn omitted_note(n: nat) -> Seq<char> {
    "\n… "@ + decimal(n) + " more result(s) omitted to stay within the token budget"@
}

/// What is shown where `k` lines are kept: those lines, and a note where others were left out.
pub open spec fn packed(lines: Seq<Seq<char>>, k: nat) -> Seq<char> {
    if k < lines.len() {
        first_lines(lines, k) + omitted_note((lines.len() - k) as nat)
    } else {
        first_lines(lines, k)
    }
}

/// More lines are longer.
proof fn lemma_first_lines_grow(lines: Seq<Seq<char>>, j: nat, k: nat)
    requires
        j <= k <= lines.len(),
    ensures
        first_lines(lines, j).len() <= first_lines(lines, k).len(),
    decreases k - j,
{
    if j < k {
        lemma_first_lines_grow(lines, j, (k - 1) as nat);
        assert(lines.take(k as int).drop_last() =~= lines.take(k - 1));
    }
}

/// What fits with more lines fits with fewer.
pub proof fn lemma_fewer_fit(lines: Seq<Seq<char>>, j: nat, k: nat, max_tokens: nat)
    requires
        j <= k <= lines.len(),
        fits(lines, k, max_tokens),
    ensures
        fits(lines, j, max_tokens),
{
    lemma_first_lines_grow(lines, j, k);
}

/// Joins as many of the lines, from the first on, as fit the budget, and says how many were
/// left out. The first line is there in any case.
pub fn join_within_budget(lines: &[String], max_tokens: usize) -> (r: String)
    ensures
        lines@.len() == 0 ==> r@.len() == 0,
        lines@.len() > 0 ==> exists|k: nat|
            #[trigger] is_kept(lines.deep_view(), k, max_tokens as nat) && r@ == packed(
                lines.deep_view(),
                k,
            ),
{
    let n: usize = lines.len();
    let ghost all = lines.deep_view();
    if n == 0 {
        return String::new();
    }
    let mut best: String = join_between(lines, 0, 1, "\n");
    assert(all.subrange(0, 1) =~= all.take(1));
    let mut lo: usize = 1;
    let mut hi: usize = n;
    if estimate_tokens(&best) > max_tokens {
        proof {
            assert forall|j: nat| 1 < j <= all.len() implies !#[trigger] fits(
                all,
                j,
                max_tokens as nat,
            ) by {
                lemma_first_lines_grow(all, 1, j);
            }
        }
        hi = 1;
    }
    while lo < hi
        invariant
            1 <= lo <= hi <= n,
            n == lines@.len(),
            all == lines.deep_view(),
            best@ == first_lines(all, lo as nat),
            lo > 1 ==> fits(all, lo as nat, max_tokens as nat),
            forall|j: nat| hi < j <= n ==> !#[trigger] fits(all, j, max_tokens as nat),
        decreases hi - lo,
    {
        let gap: usize = hi - lo;
        let mid: usize = lo + gap / 2 + gap % 2;
        let candidate: String = join_between(lines, 0, mid, "\n");
        assert(all.subrange(0, mid as int) =~= all.take(mid as int));
        if estimate_tokens(&candidate) <= max_tokens {
            lo = mid;
            best = candidate;
        } else {
            proof {
                assert forall|j: nat| mid - 1 < j <= n implies !#[trigger] fits(
                    all,
                    j,
                    max_tokens as nat,
                ) by {
                    lemma_first_lines_grow(all, mid as nat, j);
                }
            }
            hi = mid - 1;
        }
    }
    proof {
        assert(is_kept(all, lo as nat, max_tokens as nat));
    }
    if lo < n {
        let ghost kept = best@;
        best.append("\n… ");
        best.append(&usize_text(n - lo));
        best.append(" more result(s) omitted to stay within the token budget");
        assert(best@ =~= kept + omitted_note((n - lo) as nat));
    }
    best
}

/// How many lines are kept is settled by the lines and the budget.
pub proof fn lemma_kept_unique(lines: Seq<Seq<char>>, j: nat, k: nat, max_tokens: nat)
    requires
        is_kept(lines, j, max_tokens),
        is_kept(lines, k, max_tokens),
    ensures
        j == k,
{
    if j < k {
        assert(!fits(lines, k, max_tokens));
    } else if k < j {
        assert(!fits(lines, j, max_tokens));
    }
}

/// Lines that fit altogether are all kept, without a note.
pub proof fn lemma_everything_fits(lines: Seq<Seq<char>>, k: nat, max_tokens: nat)
    requires
        lines.len() > 0,
        fits(lines, lines.len(), max_tokens),
        is_kept(lines, k, max_tokens),
    ensures
        k == lines.len(),
        packed(lines, k) == join(lines, "\n"@),
{
    if k < lines.len() {
        assert(!fits(lines, lines.len(), max_tokens));
    }
    assert(lines.take(k as int) =~= lines);
}

/// Nothing is left out in silence: where lines are missing, a note at the end says how many, and
/// the first line is there in any case.
pub proof fn lemma_drop_is_noted(lines: Seq<Seq<char>>, k: nat, max_tokens: nat)
    requires
        is_kept(lines, k, max_tokens),
        k < lines.len(),
    ensures
        packed(lines, k) == first_lines(lines, k) + omitted_note((lines.len() - k) as nat),
        starts_with(packed(lines, k), lines[0]),
{
    lemma_starts_with_first(lines, k);
    assert(packed(lines, k).take(lines[0].len() as int) =~= first_lines(lines, k).take(
        lines[0].len() as int,
    ));
}

proof fn lemma_starts_with_first(lines: Seq<Seq<char>>, k: nat)
    requires
        1 <= k <= lines.len(),
    ensures
        starts_with(first_lines(lines, k), lines[0]),
    decreases k,
{
    let all = lines.take(k as int);
    if k > 1 {
        lemma_starts_with_first(lines, (k - 1) as nat);
        assert(all.drop_last() =~= lines.take(k - 1));
        assert(first_lines(lines, k).take(lines[0].len() as int) =~= first_lines(
            lines,
            (k - 1) as nat,
        ).take(lines[0].len() as int));
    } else {
        assert(all.drop_last() =~= Seq::<Seq<char>>::empty());
        assert(first_lines(lines, k) =~= lines[0]);
        assert(lines[0].take(lines[0].len() as int) =~= lines[0]);
    }
}

/// How tokens are counted, and what the note about lines that were left out says.
pub proof fn lemma_tokens(s: Seq<char>, n: nat)
    ensures
        4 * tokens(s) <= s.len() < 4 * tokens(s) + 4,
        omitted_note(n) == "\n… "@ + decimal(n)
            + " more result(s) omitted to stay within the token budget"@,
        DEFAULT_TOKEN_BUDGET == 2000,
{
}

/// As many lines are kept as fit: those that are kept fit, but for the first alone, and one more
/// would not.
pub proof fn lemma_kept_is_most(lines: Seq<Seq<char>>, k: nat, max_tokens: nat)
    requires
        is_kept(lines, k, max_tokens),
    ensures
        1 <= k <= lines.len(),
        k > 1 ==> join(lines.take(k as int), "\n"@).len() / 4 <= max_tokens,
        k < lines.len() ==> join(lines.take(k as int + 1), "\n"@).len() / 4 > max_tokens,
{
    if k < lines.len() {
        assert(!fits(lines, k + 1, max_tokens));
    }
}

} // verus!
