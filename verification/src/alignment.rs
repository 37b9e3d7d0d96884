//! Alignment of a hypothesis with a reference: characters by edit distance,
//! turns by the cost of their texts.
use crate::text::{occurs_at, occurs_here};
use vstd::prelude::*;

verus! {

// ---------------------------------------------------------------------------
// Edit distance
// ---------------------------------------------------------------------------

pub open spec fn least(a: nat, b: nat) -> nat {
    if a <= b {
        a
    } else {
        b
    }
}

/// The least number of insertions, deletions and substitutions of single
/// characters that turn the first `i` characters of `a` into the first `j`
/// characters of `b`.
pub open spec fn prefix_distance(a: Seq<char>, b: Seq<char>, i: nat, j: nat) -> nat
    decreases i + j,
{
    if i == 0 {
        j
    } else if j == 0 {
        i
    } else {
        let i1 = (i - 1) as nat;
        let j1 = (j - 1) as nat;
        let changed: nat = if a[i - 1] == b[j - 1] { 0 } else { 1 };
        least(
            least(
                prefix_distance(a, b, i1, j1) + changed,
                prefix_distance(a, b, i1, j) + 1,
            ),
            prefix_distance(a, b, i, j1) + 1,
        )
    }
}

/// The least number of insertions, deletions and substitutions of single
/// characters that turn `a` into `b`.
pub open spec fn edit_distance(a: Seq<char>, b: Seq<char>) -> nat {
    prefix_distance(a, b, a.len(), b.len())
}

proof fn lemma_prefix_distance_bounds(a: Seq<char>, b: Seq<char>, i: nat, j: nat)
    ensures
        prefix_distance(a, b, i, j) <= if i >= j { i } else { j },
        i <= prefix_distance(a, b, i, j) + j,
        j <= prefix_distance(a, b, i, j) + i,
    decreases i + j,
{
    if i > 0 && j > 0 {
        lemma_prefix_distance_bounds(a, b, (i - 1) as nat, (j - 1) as nat);
        lemma_prefix_distance_bounds(a, b, (i - 1) as nat, j);
        lemma_prefix_distance_bounds(a, b, i, (j - 1) as nat);
    }
}

/// The distance is at least the difference of the lengths and at most the
/// greater of them.
pub proof fn lemma_edit_distance_bounds(a: Seq<char>, b: Seq<char>)
    ensures
        edit_distance(a, b) <= if a.len() >= b.len() { a.len() } else { b.len() },
        a.len() <= edit_distance(a, b) + b.len(),
        b.len() <= edit_distance(a, b) + a.len(),
{
    lemma_prefix_distance_bounds(a, b, a.len(), b.len());
}

proof fn lemma_prefix_distance_symmetric(a: Seq<char>, b: Seq<char>, i: nat, j: nat)
    ensures
        prefix_distance(a, b, i, j) == prefix_distance(b, a, j, i),
    decreases i + j,
{
    if i > 0 && j > 0 {
        lemma_prefix_distance_symmetric(a, b, (i - 1) as nat, (j - 1) as nat);
        lemma_prefix_distance_symmetric(a, b, (i - 1) as nat, j);
        lemma_prefix_distance_symmetric(a, b, i, (j - 1) as nat);
    }
}

/// The distance between two texts is the same in both directions.
pub proof fn lemma_edit_distance_symmetric(a: Seq<char>, b: Seq<char>)
    ensures
        edit_distance(a, b) == edit_distance(b, a),
{
    lemma_prefix_distance_symmetric(a, b, a.len(), b.len());
}

proof fn lemma_prefix_distance_zero(a: Seq<char>, b: Seq<char>, i: nat, j: nat)
    requires
        i <= a.len(),
        j <= b.len(),
    ensures
        prefix_distance(a, b, i, j) == 0 <==> a.take(i as int) == b.take(j as int),
    decreases i + j,
{
    if i == 0 || j == 0 {
        if a.take(i as int) == b.take(j as int) {
            assert(a.take(i as int).len() == i && b.take(j as int).len() == j);
        } else if i == 0 && j == 0 {
            assert(a.take(0) =~= b.take(0));
        }
    } else {
        lemma_prefix_distance_zero(a, b, (i - 1) as nat, (j - 1) as nat);
        assert(a.take(i as int) == a.take(i - 1).push(a[i - 1]));
        assert(b.take(j as int) == b.take(j - 1).push(b[j - 1]));
        if a.take(i as int) == b.take(j as int) {
            assert(a.take(i as int).drop_last() == a.take(i - 1));
            assert(b.take(j as int).drop_last() == b.take(j - 1));
            assert(a.take(i as int).last() == a[i - 1]);
            assert(b.take(j as int).last() == b[j - 1]);
        }
    }
}

/// The distance is zero exactly between equal texts.
pub proof fn lemma_edit_distance_zero(a: Seq<char>, b: Seq<char>)
    ensures
        edit_distance(a, b) == 0 <==> a == b,
{
    lemma_prefix_distance_zero(a, b, a.len(), b.len());
    assert(a.take(a.len() as int) == a);
    assert(b.take(b.len() as int) == b);
}

fn min3(a: usize, b: usize, c: usize) -> (m: usize)
    ensures
        m as nat == least(least(a as nat, b as nat), c as nat),
{
    let ab: usize = if a <= b {
        a
    } else {
        b
    };
    if ab <= c {
        ab
    } else {
        c
    }
}

/// The edit distance between two sequences of characters.
pub fn levenshtein(reference: &[char], hypothesis: &[char]) -> (distance: usize)
    ensures
        distance == edit_distance(reference@, hypothesis@),
{
    let n: usize = reference.len();
    let m: usize = hypothesis.len();
    if n == 0 {
        return m;
    }
    if m == 0 {
        return n;
    }
    let ghost a = reference@;
    let ghost b = hypothesis@;
    // The row of distances for `i` characters of the reference, from one
    // character of the hypothesis on.
    let mut previous: Vec<u128> = Vec::new();
    let mut j: usize = 0;
    while j < m
        invariant
            j <= m,
            previous@.len() == j,
            forall|k: int| 0 <= k < j ==> #[trigger] previous@[k] == k + 1,
        decreases m - j,
    {
        previous.push(j as u128 + 1);
        j += 1;
    }
    let mut i: usize = 0;
    while i < n
        invariant
            i <= n,
            n == reference@.len(),
            m == hypothesis@.len(),
            a == reference@,
            b == hypothesis@,
            previous@.len() == m,
            forall|k: int|
                0 <= k < m ==> #[trigger] previous@[k] == prefix_distance(
                    a,
                    b,
                    i as nat,
                    (k + 1) as nat,
                ),
        decreases n - i,
    {
        let mut current: Vec<u128> = Vec::new();
        let mut diagonal: u128 = i as u128;
        let mut left: u128 = i as u128 + 1;
        let mut j: usize = 0;
        while j < m
            invariant
                i < n,
                j <= m,
                n == reference@.len(),
                m == hypothesis@.len(),
                a == reference@,
                b == hypothesis@,
                previous@.len() == m,
                forall|k: int|
                    0 <= k < m ==> #[trigger] previous@[k] == prefix_distance(
                        a,
                        b,
                        i as nat,
                        (k + 1) as nat,
                    ),
                diagonal == prefix_distance(a, b, i as nat, j as nat),
                left == prefix_distance(a, b, (i + 1) as nat, j as nat),
                current@.len() == j,
                forall|k: int|
                    0 <= k < j ==> #[trigger] current@[k] == prefix_distance(
                        a,
                        b,
                        (i + 1) as nat,
                        (k + 1) as nat,
                    ),
            decreases m - j,
        {
            proof {
                lemma_prefix_distance_bounds(a, b, i as nat, j as nat);
                lemma_prefix_distance_bounds(a, b, i as nat, (j + 1) as nat);
                lemma_prefix_distance_bounds(a, b, (i + 1) as nat, j as nat);
            }
            let above: u128 = previous[j];
            let changed: u128 = if reference[i] == hypothesis[j] {
                0
            } else {
                1
            };
            let mut best: u128 = diagonal + changed;
            if above + 1 < best {
                best = above + 1;
            }
            if left + 1 < best {
                best = left + 1;
            }
            current.push(best);
            diagonal = above;
            left = best;
            j += 1;
        }
        previous = current;
        i += 1;
    }
    proof {
        lemma_edit_distance_bounds(a, b);
    }
    previous[m - 1] as usize
}

/// What it costs to pair two turns with the given texts in normal form: the
/// share of characters that differ, in millionths of millionths and rounded
/// down, where it is at most three fifths.
pub open spec fn text_pair_cost(reference: Seq<char>, hypothesis: Seq<char>) -> u128 {
    let longer = if reference.len() >= hypothesis.len() {
        reference.len()
    } else {
        hypothesis.len()
    };
    let errors = edit_distance(reference, hypothesis);
    if longer == 0 || 5 * errors > 3 * longer {
        UNRELATED_TURN_COST
    } else {
        (errors * TURN_COST_UNIT as nat / longer) as u128
    }
}

/// What it costs to pair two turns with the given texts in normal form.
pub fn pair_cost(reference: &[char], hypothesis: &[char]) -> (cost: u128)
    ensures
        cost == text_pair_cost(reference@, hypothesis@),
        cost <= UNRELATED_TURN_COST,
{
    let longer: usize = if reference.len() >= hypothesis.len() {
        reference.len()
    } else {
        hypothesis.len()
    };
    if longer == 0 {
        return UNRELATED_TURN_COST;
    }
    let errors: usize = levenshtein(reference, hypothesis);
    if 5 * errors as u128 > 3 * longer as u128 {
        return UNRELATED_TURN_COST;
    }
    proof {
        lemma_edit_distance_bounds(reference@, hypothesis@);
        assert(errors * TURN_COST_UNIT <= u128::MAX && 0 <= errors * TURN_COST_UNIT / (
        longer as int) <= TURN_COST_UNIT) by (nonlinear_arith)
            requires
                errors <= longer,
                longer <= 0xffff_ffff_ffff_ffff,
                longer > 0,
        ;
    }
    errors as u128 * TURN_COST_UNIT / longer as u128
}

// ---------------------------------------------------------------------------
// Alignment of characters
// ---------------------------------------------------------------------------

#[derive(Clone, Copy, Debug, PartialEq, Eq, Structural)]
pub enum CharacterAlignmentOp {
    Diagonal,
    DeleteReference,
    InsertHypothesis,
}

/// The step that leads to the pair of prefixes of lengths `i` and `j`: equal
/// characters are matched where that is cheapest; otherwise an insertion is
/// preferred to a deletion, and a deletion to a substitution.
pub open spec fn character_step(
    a: Seq<char>,
    b: Seq<char>,
    i: nat,
    j: nat,
) -> CharacterAlignmentOp {
    if i == 0 {
        CharacterAlignmentOp::InsertHypothesis
    } else if j == 0 {
        CharacterAlignmentOp::DeleteReference
    } else {
        let i1 = (i - 1) as nat;
        let j1 = (j - 1) as nat;
        let cheapest = prefix_distance(a, b, i, j);
        if a[i - 1] == b[j - 1] && prefix_distance(a, b, i1, j1) == cheapest {
            CharacterAlignmentOp::Diagonal
        } else if prefix_distance(a, b, i, j1) + 1 == cheapest {
            CharacterAlignmentOp::InsertHypothesis
        } else if prefix_distance(a, b, i1, j) + 1 == cheapest {
            CharacterAlignmentOp::DeleteReference
        } else {
            CharacterAlignmentOp::Diagonal
        }
    }
}

/// The greatest position in `b` that the alignment of the prefixes of lengths
/// `i` and `j` pairs with the boundary after `boundary` characters of `a`.
pub open spec fn gap_end(a: Seq<char>, b: Seq<char>, i: nat, j: nat, boundary: nat) -> nat
    decreases i + j,
{
    if i <= boundary || (i == 0 && j == 0) {
        j
    } else {
        match character_step(a, b, i, j) {
            CharacterAlignmentOp::InsertHypothesis => gap_end(a, b, i, (j - 1) as nat, boundary),
            CharacterAlignmentOp::DeleteReference => gap_end(a, b, (i - 1) as nat, j, boundary),
            CharacterAlignmentOp::Diagonal => gap_end(
                a,
                b,
                (i - 1) as nat,
                (j - 1) as nat,
                boundary,
            ),
        }
    }
}

/// The least position in `b` that the alignment of the prefixes of lengths
/// `i` and `j` pairs with the boundary after `boundary` characters of `a`.
pub open spec fn gap_start(a: Seq<char>, b: Seq<char>, i: nat, j: nat, boundary: nat) -> nat
    decreases i + j,
{
    if i == 0 && j == 0 {
        0
    } else {
        match character_step(a, b, i, j) {
            CharacterAlignmentOp::InsertHypothesis => gap_start(
                a,
                b,
                i,
                (j - 1) as nat,
                boundary,
            ),
            CharacterAlignmentOp::DeleteReference => if i <= boundary {
                j
            } else {
                gap_start(a, b, (i - 1) as nat, j, boundary)
            },
            CharacterAlignmentOp::Diagonal => if i <= boundary {
                j
            } else {
                gap_start(a, b, (i - 1) as nat, (j - 1) as nat, boundary)
            },
        }
    }
}

/// The gap of a boundary lies in `b`, and its start is not after its end.
proof fn lemma_gap_bounds(a: Seq<char>, b: Seq<char>, i: nat, j: nat, boundary: nat)
    requires
        boundary <= i,
    ensures
        gap_start(a, b, i, j, boundary) <= gap_end(a, b, i, j, boundary) <= j,
    decreases i + j,
{
    if i == 0 && j == 0 {
    } else if i == boundary {
        lemma_gap_start_bound(a, b, i, j, boundary);
    } else {
        match character_step(a, b, i, j) {
            CharacterAlignmentOp::InsertHypothesis => {
                if j > 0 {
                    lemma_gap_bounds(a, b, i, (j - 1) as nat, boundary);
                }
            },
            CharacterAlignmentOp::DeleteReference => {
                lemma_gap_bounds(a, b, (i - 1) as nat, j, boundary);
            },
            CharacterAlignmentOp::Diagonal => {
                lemma_gap_bounds(a, b, (i - 1) as nat, (j - 1) as nat, boundary);
            },
        }
    }
}

proof fn lemma_gap_start_bound(a: Seq<char>, b: Seq<char>, i: nat, j: nat, boundary: nat)
    requires
        boundary == i,
    ensures
        gap_start(a, b, i, j, boundary) <= j,
    decreases j,
{
    if j > 0 && character_step(a, b, i, j) == CharacterAlignmentOp::InsertHypothesis {
        lemma_gap_start_bound(a, b, i, (j - 1) as nat, boundary);
    }
}

/// The steps of the alignment, by the lengths of the two prefixes.
fn character_steps(reference: &[char], hypothesis: &[char]) -> (steps: Vec<
    Vec<CharacterAlignmentOp>,
>)
    requires
        reference@.len() < usize::MAX,
        hypothesis@.len() < usize::MAX,
    ensures
        steps@.len() == reference@.len() + 1,
        forall|i: int|
            0 <= i <= reference@.len() ==> (#[trigger] steps@[i])@.len() == hypothesis@.len() + 1,
        forall|i: int, j: int|
            0 <= i <= reference@.len() && 0 <= j <= hypothesis@.len()
                ==> #[trigger] steps@[i]@[j] == character_step(
                reference@,
                hypothesis@,
                i as nat,
                j as nat,
            ),
{
    let n: usize = reference.len();
    let m: usize = hypothesis.len();
    let ghost a = reference@;
    let ghost b = hypothesis@;
    let mut steps: Vec<Vec<CharacterAlignmentOp>> = Vec::new();
    let mut previous: Vec<usize> = Vec::new();
    let mut i: usize = 0;
    while i <= n
        invariant
            i <= n + 1,
            n == reference@.len(),
            m == hypothesis@.len(),
            n < usize::MAX,
            m < usize::MAX,
            a == reference@,
            b == hypothesis@,
            i > 0 ==> previous@.len() == m + 1,
            i > 0 ==> forall|k: int|
                0 <= k <= m ==> #[trigger] previous@[k] == prefix_distance(
                    a,
                    b,
                    (i - 1) as nat,
                    k as nat,
                ),
            steps@.len() == i,
            forall|x: int| 0 <= x < i ==> (#[trigger] steps@[x])@.len() == m + 1,
            forall|x: int, y: int|
                0 <= x < i && 0 <= y <= m ==> #[trigger] steps@[x]@[y] == character_step(
                    a,
                    b,
                    x as nat,
                    y as nat,
                ),
        decreases n + 1 - i,
    {
        let mut current: Vec<usize> = Vec::new();
        let mut row: Vec<CharacterAlignmentOp> = Vec::new();
        let mut j: usize = 0;
        while j <= m
            invariant
                i <= n,
                j <= m + 1,
                n == reference@.len(),
                m == hypothesis@.len(),
                n < usize::MAX,
                m < usize::MAX,
                a == reference@,
                b == hypothesis@,
                i > 0 ==> previous@.len() == m + 1,
                i > 0 ==> forall|k: int|
                    0 <= k <= m ==> #[trigger] previous@[k] == prefix_distance(
                        a,
                        b,
                        (i - 1) as nat,
                        k as nat,
                    ),
                current@.len() == j,
                row@.len() == j,
                forall|k: int|
                    0 <= k < j ==> #[trigger] current@[k] == prefix_distance(
                        a,
                        b,
                        i as nat,
                        k as nat,
                    ),
                forall|k: int|
                    0 <= k < j ==> #[trigger] row@[k] == character_step(a, b, i as nat, k as nat),
            decreases m + 1 - j,
        {
            if i == 0 {
                current.push(j);
                row.push(CharacterAlignmentOp::InsertHypothesis);
            } else if j == 0 {
                current.push(i);
                row.push(CharacterAlignmentOp::DeleteReference);
            } else {
                proof {
                    lemma_prefix_distance_bounds(a, b, (i - 1) as nat, (j - 1) as nat);
                    lemma_prefix_distance_bounds(a, b, (i - 1) as nat, j as nat);
                    lemma_prefix_distance_bounds(a, b, i as nat, (j - 1) as nat);
                    assert(previous@[j - 1] == prefix_distance(
                        a,
                        b,
                        (i - 1) as nat,
                        (j - 1) as nat,
                    ));
                    assert(previous@[j as int] == prefix_distance(a, b, (i - 1) as nat, j as nat));
                    assert(current@[j - 1] == prefix_distance(a, b, i as nat, (j - 1) as nat));
                }
                let same: bool = reference[i - 1] == hypothesis[j - 1];
                let changed: usize = if same {
                    0
                } else {
                    1
                };
                let diagonal: usize = previous[j - 1] + changed;
                let delete: usize = previous[j] + 1;
                let insert: usize = current[j - 1] + 1;
                let minimum: usize = min3(diagonal, delete, insert);
                current.push(minimum);
                row.push(
                    if same && diagonal == minimum {
                        CharacterAlignmentOp::Diagonal
                    } else if insert == minimum {
                        CharacterAlignmentOp::InsertHypothesis
                    } else if delete == minimum {
                        CharacterAlignmentOp::DeleteReference
                    } else {
                        CharacterAlignmentOp::Diagonal
                    },
                );
            }
            j += 1;
        }
        previous = current;
        steps.push(row);
        i += 1;
    }
    steps
}

/// Where the gaps of the boundaries of `a` in `b` start.
pub open spec fn gap_starts(a: Seq<char>, b: Seq<char>) -> Seq<usize> {
    Seq::new(a.len() + 1, |k: int| gap_start(a, b, a.len(), b.len(), k as nat) as usize)
}

/// Where the gaps of the boundaries of `a` in `b` end.
pub open spec fn gap_ends(a: Seq<char>, b: Seq<char>) -> Seq<usize> {
    Seq::new(a.len() + 1, |k: int| gap_end(a, b, a.len(), b.len(), k as nat) as usize)
}

/// The gaps of all boundaries of `a` in `b`.
spec fn are_alignment_gaps(
    a: Seq<char>,
    b: Seq<char>,
    starts: Seq<usize>,
    ends: Seq<usize>,
) -> bool {
    &&& starts.len() == a.len() + 1
    &&& ends.len() == a.len() + 1
    &&& forall|k: int|
        0 <= k <= a.len() ==> #[trigger] starts[k] == gap_start(a, b, a.len(), b.len(), k as nat)
    &&& forall|k: int|
        0 <= k <= a.len() ==> #[trigger] ends[k] == gap_end(a, b, a.len(), b.len(), k as nat)
}

/// The gaps of all boundaries of the reference in the hypothesis: from which
/// and up to which position the hypothesis is aligned with each boundary. The
/// alignment is a cheapest one: what the gaps cost is the edit distance.
pub fn character_alignment_gaps(reference: &[char], hypothesis: &[char]) -> (gaps: (
    Vec<usize>,
    Vec<usize>,
))
    requires
        reference@.len() < usize::MAX,
        hypothesis@.len() < usize::MAX,
    ensures
        gaps.0@ == gap_starts(reference@, hypothesis@),
        gaps.1@ == gap_ends(reference@, hypothesis@),
        forall|k: int|
            0 <= k <= reference@.len() ==> gaps.0@[k] <= #[trigger] gaps.1@[k]
                <= hypothesis@.len(),
        are_gaps(reference@, hypothesis@, positions_of(gaps.0@), positions_of(gaps.1@)),
        gaps_cost(
            reference@,
            hypothesis@,
            positions_of(gaps.0@),
            positions_of(gaps.1@),
            reference@.len(),
        ) == edit_distance(reference@, hypothesis@),
{
    let steps = character_steps(reference, hypothesis);
    let ghost a = reference@;
    let ghost b = hypothesis@;
    let n: usize = reference.len();
    let m: usize = hypothesis.len();
    let mut starts: Vec<usize> = vec![0; n + 1];
    let mut ends: Vec<usize> = vec![0; n + 1];
    let mut i: usize = n;
    let mut j: usize = m;
    ends.set(n, m);
    while i > 0 || j > 0
        invariant
            i <= n,
            j <= m,
            n == reference@.len(),
            m == hypothesis@.len(),
            a == reference@,
            b == hypothesis@,
            steps@.len() == n + 1,
            forall|x: int| 0 <= x <= n ==> (#[trigger] steps@[x])@.len() == m + 1,
            forall|x: int, y: int|
                0 <= x <= n && 0 <= y <= m ==> #[trigger] steps@[x]@[y] == character_step(
                    a,
                    b,
                    x as nat,
                    y as nat,
                ),
            starts@.len() == n + 1,
            ends@.len() == n + 1,
            starts@[0] == 0,
            forall|k: int|
                i < k <= n ==> #[trigger] starts@[k] == gap_start(a, b, n as nat, m as nat, k as nat),
            forall|k: int|
                i <= k <= n ==> #[trigger] ends@[k] == gap_end(a, b, n as nat, m as nat, k as nat),
            forall|k: nat|
                k <= i ==> gap_start(a, b, i as nat, j as nat, k) == #[trigger] gap_start(
                    a,
                    b,
                    n as nat,
                    m as nat,
                    k,
                ),
            forall|k: nat|
                k < i ==> gap_end(a, b, i as nat, j as nat, k) == #[trigger] gap_end(
                    a,
                    b,
                    n as nat,
                    m as nat,
                    k,
                ),
        decreases i + j,
    {
        let step = steps[i][j];
        assert(step == character_step(a, b, i as nat, j as nat));
        match step {
            CharacterAlignmentOp::InsertHypothesis => {
                assert forall|k: nat| k <= i implies gap_start(
                    a,
                    b,
                    i as nat,
                    (j - 1) as nat,
                    k,
                ) == #[trigger] gap_start(a, b, n as nat, m as nat, k) by {
                    assert(gap_start(a, b, i as nat, j as nat, k) == gap_start(
                        a,
                        b,
                        n as nat,
                        m as nat,
                        k,
                    ));
                }
                assert forall|k: nat| k < i implies gap_end(
                    a,
                    b,
                    i as nat,
                    (j - 1) as nat,
                    k,
                ) == #[trigger] gap_end(a, b, n as nat, m as nat, k) by {
                    assert(gap_end(a, b, i as nat, j as nat, k) == gap_end(
                        a,
                        b,
                        n as nat,
                        m as nat,
                        k,
                    ));
                }
                j -= 1;
            },
            _ => {
                starts.set(i, j);
                assert(gap_start(a, b, i as nat, j as nat, i as nat) == gap_start(
                    a,
                    b,
                    n as nat,
                    m as nat,
                    i as nat,
                ));
                let j_next: usize = match step {
                    CharacterAlignmentOp::Diagonal => j - 1,
                    _ => j,
                };
                proof {
                    let i1 = (i - 1) as nat;
                    assert forall|k: nat| k <= i1 implies gap_start(
                        a,
                        b,
                        i1,
                        j_next as nat,
                        k,
                    ) == #[trigger] gap_start(a, b, n as nat, m as nat, k) by {
                        assert(gap_start(a, b, i as nat, j as nat, k) == gap_start(
                            a,
                            b,
                            n as nat,
                            m as nat,
                            k,
                        ));
                    }
                    assert forall|k: nat| k <= i1 implies gap_end(
                        a,
                        b,
                        i1,
                        j_next as nat,
                        k,
                    ) == #[trigger] gap_end(a, b, n as nat, m as nat, k) by {
                        assert(gap_end(a, b, i as nat, j as nat, k) == gap_end(
                            a,
                            b,
                            n as nat,
                            m as nat,
                            k,
                        ));
                    }
                    assert(gap_end(a, b, i1, j_next as nat, i1) == j_next);
                }
                ends.set(i - 1, j_next);
                i -= 1;
                j = j_next;
            },
        }
    }
    proof {
        assert(gap_start(a, b, 0, 0, 0) == gap_start(a, b, n as nat, m as nat, 0));
        assert forall|k: int| 0 <= k <= n implies starts@[k] <= #[trigger] ends@[k] <= m by {
            lemma_gap_bounds(a, b, n as nat, m as nat, k as nat);
            assert(starts@[k] == gap_start(a, b, n as nat, m as nat, k as nat));
        }
        assert(are_alignment_gaps(a, b, starts@, ends@));
        assert(starts@ =~= gap_starts(a, b));
        assert(ends@ =~= gap_ends(a, b));
        lemma_gaps_are_cheapest(a, b);
        assert(positions_of(starts@) =~= starts_at(a, b, a.len(), b.len()));
        assert(positions_of(ends@) =~= ends_at(a, b, a.len(), b.len()));
    }
    (starts, ends)
}

/// What it costs that the character of `a` at a place stands between two gaps:
/// it is deleted where they touch, and else paired with the character of `b`
/// between them.
pub open spec fn between_cost(
    a: Seq<char>,
    b: Seq<char>,
    starts: Seq<int>,
    ends: Seq<int>,
    place: int,
) -> int {
    if starts[place + 1] == ends[place] || a[place] != b[ends[place]] {
        1
    } else {
        0
    }
}

/// What the gaps of the first boundaries up to `n` cost, with the characters
/// between them: every character of `b` in a gap is inserted.
pub open spec fn gaps_cost(
    a: Seq<char>,
    b: Seq<char>,
    starts: Seq<int>,
    ends: Seq<int>,
    n: nat,
) -> int
    decreases n,
{
    if n == 0 {
        ends[0] - starts[0]
    } else {
        gaps_cost(a, b, starts, ends, (n - 1) as nat) + between_cost(a, b, starts, ends, n - 1) + (
        ends[n as int] - starts[n as int])
    }
}

/// Gaps of all boundaries of `a` in `b`: they follow one another from the start
/// of `b` to its end, with at most one character between two of them.
pub open spec fn are_gaps(a: Seq<char>, b: Seq<char>, starts: Seq<int>, ends: Seq<int>) -> bool {
    &&& starts.len() == a.len() + 1
    &&& ends.len() == a.len() + 1
    &&& starts[0] == 0
    &&& ends[a.len() as int] == b.len()
    &&& forall|k: int| 0 <= k <= a.len() ==> #[trigger] starts[k] <= ends[k]
    &&& forall|k: int|
        0 <= k < a.len() ==> #[trigger] ends[k] <= starts[k + 1] <= ends[k] + 1
}

/// Where the gaps of the boundaries of the first `i` characters of `a` in the
/// first `j` of `b` start.
pub open spec fn starts_at(a: Seq<char>, b: Seq<char>, i: nat, j: nat) -> Seq<int> {
    Seq::new(i + 1, |k: int| gap_start(a, b, i, j, k as nat) as int)
}

/// Where the gaps of the boundaries of the first `i` characters of `a` in the
/// first `j` of `b` end.
pub open spec fn ends_at(a: Seq<char>, b: Seq<char>, i: nat, j: nat) -> Seq<int> {
    Seq::new(i + 1, |k: int| gap_end(a, b, i, j, k as nat) as int)
}

proof fn lemma_gaps_cost_same(
    a: Seq<char>,
    b: Seq<char>,
    starts: Seq<int>,
    ends: Seq<int>,
    other_starts: Seq<int>,
    other_ends: Seq<int>,
    n: nat,
)
    requires
        forall|k: int| 0 <= k <= n ==> #[trigger] starts[k] == other_starts[k],
        forall|k: int| 0 <= k <= n ==> #[trigger] ends[k] == other_ends[k],
    ensures
        gaps_cost(a, b, starts, ends, n) == gaps_cost(a, b, other_starts, other_ends, n),
    decreases n,
{
    assert(starts[n as int] == other_starts[n as int]);
    assert(ends[n as int] == other_ends[n as int]);
    if n > 0 {
        lemma_gaps_cost_same(a, b, starts, ends, other_starts, other_ends, (n - 1) as nat);
        assert(ends[n - 1] == other_ends[n - 1]);
    }
}

proof fn lemma_gaps_of_prefixes(a: Seq<char>, b: Seq<char>, i: nat, j: nat)
    requires
        i <= a.len(),
        j <= b.len(),
    ensures
        ({
            let starts = starts_at(a, b, i, j);
            let ends = ends_at(a, b, i, j);
            &&& starts[0] == 0
            &&& ends[i as int] == j
            &&& forall|k: int| 0 <= k <= i ==> #[trigger] starts[k] <= ends[k]
            &&& forall|k: int| 0 <= k < i ==> #[trigger] ends[k] <= starts[k + 1] <= ends[k] + 1
            &&& gaps_cost(a, b, starts, ends, i) == prefix_distance(a, b, i, j)
        }),
    decreases i + j,
{
    let starts = starts_at(a, b, i, j);
    let ends = ends_at(a, b, i, j);
    if i == 0 && j == 0 {
        assert(starts[0] == 0 && ends[0] == 0);
    } else {
        let step = character_step(a, b, i, j);
        let (i1, j1): (nat, nat) = match step {
            CharacterAlignmentOp::InsertHypothesis => (i, (j - 1) as nat),
            CharacterAlignmentOp::DeleteReference => ((i - 1) as nat, j),
            CharacterAlignmentOp::Diagonal => ((i - 1) as nat, (j - 1) as nat),
        };
        lemma_gaps_of_prefixes(a, b, i1, j1);
        let before_starts = starts_at(a, b, i1, j1);
        let before_ends = ends_at(a, b, i1, j1);
        if step == CharacterAlignmentOp::InsertHypothesis {
            assert forall|k: int| 0 <= k <= i implies #[trigger] starts[k] == before_starts[k] by {}
            assert forall|k: int| 0 <= k < i implies #[trigger] ends[k] == before_ends[k] by {}
            if i > 0 {
                lemma_gaps_cost_same(
                    a,
                    b,
                    starts,
                    ends,
                    before_starts,
                    before_ends,
                    (i - 1) as nat,
                );
                assert(starts[i as int] == before_starts[i as int]);
                assert(ends[i - 1] == before_ends[i - 1]);
            }
            assert(ends[i as int] == j && before_ends[i as int] == j - 1);
            assert(starts[0] == before_starts[0]);
            assert(prefix_distance(a, b, i, j) == prefix_distance(a, b, i, j1) + 1);
        } else {
            assert forall|k: int| 0 <= k <= i1 implies #[trigger] starts[k]
                == before_starts[k] by {}
            assert forall|k: int| 0 <= k <= i1 implies #[trigger] ends[k] == before_ends[k] by {}
            lemma_gaps_cost_same(a, b, starts, ends, before_starts, before_ends, i1);
            assert(starts[i as int] == j && ends[i as int] == j);
            assert(ends[i1 as int] == j1);
            assert(starts[0] == before_starts[0]);
        }
        assert forall|k: int| 0 <= k <= i implies #[trigger] starts[k] <= ends[k] by {
            if k <= i1 {
                assert(before_starts[k] <= before_ends[k]);
            }
        }
        assert forall|k: int| 0 <= k < i implies #[trigger] ends[k] <= starts[k + 1] <= ends[k]
            + 1 by {
            if k < i1 {
                assert(before_ends[k] <= before_starts[k + 1] <= before_ends[k] + 1);
            }
        }
    }
}

/// Positions as numbers.
pub open spec fn positions_of(list: Seq<usize>) -> Seq<int> {
    list.map_values(|position: usize| position as int)
}

/// The gaps are those of a cheapest alignment: what they cost is the edit
/// distance.
pub proof fn lemma_gaps_are_cheapest(a: Seq<char>, b: Seq<char>)
    ensures
        are_gaps(a, b, starts_at(a, b, a.len(), b.len()), ends_at(a, b, a.len(), b.len())),
        gaps_cost(
            a,
            b,
            starts_at(a, b, a.len(), b.len()),
            ends_at(a, b, a.len(), b.len()),
            a.len(),
        ) == edit_distance(a, b),
{
    lemma_gaps_of_prefixes(a, b, a.len(), b.len());
}

/// The positions at which a text stands in another one, from the first to the
/// last; an empty text stands nowhere.
pub fn find_occurrences(haystack: &[char], needle: &[char]) -> (positions: Vec<usize>)
    ensures
        forall|k: int|
            0 <= k < positions@.len() ==> needle@.len() > 0 && occurs_at(
                haystack@,
                (#[trigger] positions@[k]) as int,
                needle@,
            ),
        forall|at: int| #[trigger]
            occurs_at(haystack@, at, needle@) && needle@.len() > 0 ==> positions@.contains(
                at as usize,
            ),
        forall|k: int, l: int|
            0 <= k < l < positions@.len() ==> #[trigger] positions@[k] < #[trigger] positions@[l],
{
    let mut positions: Vec<usize> = Vec::new();
    if needle.len() == 0 || needle.len() > haystack.len() {
        return positions;
    }
    let last: usize = haystack.len() - needle.len();
    let mut at: usize = 0;
    while at <= last
        invariant
            at <= last + 1,
            needle@.len() > 0,
            last == haystack@.len() - needle@.len(),
            haystack@.len() <= usize::MAX,
            forall|k: int|
                0 <= k < positions@.len() ==> #[trigger] positions@[k] < at && occurs_at(
                    haystack@,
                    positions@[k] as int,
                    needle@,
                ),
            forall|p: int|
                p < at && #[trigger] occurs_at(haystack@, p, needle@) ==> positions@.contains(
                    p as usize,
                ),
            forall|k: int, l: int|
                0 <= k < l < positions@.len() ==> #[trigger] positions@[k]
                    < #[trigger] positions@[l],
        decreases last + 1 - at,
    {
        let ghost before = positions@;
        if occurs_here(haystack, at, needle) {
            positions.push(at);
            assert(positions@[before.len() as int] == at);
        }
        assert forall|p: int|
            p < at + 1 && #[trigger] occurs_at(
                haystack@,
                p,
                needle@,
            ) implies positions@.contains(p as usize) by {
            if p < at {
                let k = before.index_of(p as usize);
                assert(before.contains(p as usize));
                assert(positions@[k] == p as usize);
            }
        }
        at += 1;
    }
    positions
}

// ---------------------------------------------------------------------------
// Alignment of turns
// ---------------------------------------------------------------------------

/// The cost of leaving out one turn.
pub const TURN_COST_UNIT: u128 = 1_000_000_000_000;

/// The cost of pairing two turns whose texts are too different: more than
/// that of leaving both out.
pub const UNRELATED_TURN_COST: u128 = 2_000_001_000_000;

/// The least cost of aligning the first `i` reference turns with the first
/// `j` hypothesis turns, where pairing turns `r` and `h` costs `costs[r][h]`.
pub open spec fn turn_alignment_cost(costs: Seq<Seq<u128>>, i: nat, j: nat) -> nat
    decreases i + j,
{
    if i == 0 {
        j * TURN_COST_UNIT as nat
    } else if j == 0 {
        i * TURN_COST_UNIT as nat
    } else {
        let pair = turn_alignment_cost(costs, (i - 1) as nat, (j - 1) as nat) + costs[i - 1][j - 1]
            as nat;
        let delete = turn_alignment_cost(costs, (i - 1) as nat, j) + TURN_COST_UNIT as nat;
        let insert = turn_alignment_cost(costs, i, (j - 1) as nat) + TURN_COST_UNIT as nat;
        least(least(pair, delete), insert)
    }
}

#[derive(Clone, Copy, Debug, PartialEq, Eq, Structural)]
pub enum AlignmentOp {
    Match,
    DeleteReference,
    InsertHypothesis,
}

/// The step that leads to the pair of prefixes of lengths `i` and `j`: a
/// pairing is preferred to a deletion, and a deletion to an insertion.
pub open spec fn turn_step(costs: Seq<Seq<u128>>, i: nat, j: nat) -> AlignmentOp {
    if i == 0 {
        AlignmentOp::InsertHypothesis
    } else if j == 0 {
        AlignmentOp::DeleteReference
    } else {
        let pair = turn_alignment_cost(costs, (i - 1) as nat, (j - 1) as nat) + costs[i - 1][j - 1]
            as nat;
        let delete = turn_alignment_cost(costs, (i - 1) as nat, j) + TURN_COST_UNIT as nat;
        let insert = turn_alignment_cost(costs, i, (j - 1) as nat) + TURN_COST_UNIT as nat;
        if pair <= delete && pair <= insert {
            AlignmentOp::Match
        } else if delete <= insert {
            AlignmentOp::DeleteReference
        } else {
            AlignmentOp::InsertHypothesis
        }
    }
}

/// The pairs of turns in the alignment of the first `i` with the first `j`
/// turns.
pub open spec fn aligned_pairs(costs: Seq<Seq<u128>>, i: nat, j: nat) -> Seq<(int, int)>
    decreases i + j,
{
    if i == 0 && j == 0 {
        Seq::empty()
    } else {
        match turn_step(costs, i, j) {
            AlignmentOp::Match => aligned_pairs(costs, (i - 1) as nat, (j - 1) as nat).push(
                (i - 1, j - 1),
            ),
            AlignmentOp::DeleteReference => aligned_pairs(costs, (i - 1) as nat, j),
            AlignmentOp::InsertHypothesis => aligned_pairs(costs, i, (j - 1) as nat),
        }
    }
}

/// The pairs rise in both members and lie within the two lengths, so there
/// are at most as many as the shorter side has turns.
pub proof fn lemma_aligned_pairs(costs: Seq<Seq<u128>>, i: nat, j: nat)
    ensures
        aligned_pairs(costs, i, j).len() <= i,
        aligned_pairs(costs, i, j).len() <= j,
        forall|k: int|
            0 <= k < aligned_pairs(costs, i, j).len() ==> 0 <= (#[trigger] aligned_pairs(
                costs,
                i,
                j,
            )[k]).0 < i && 0 <= aligned_pairs(costs, i, j)[k].1 < j,
        forall|k: int, l: int|
            0 <= k < l < aligned_pairs(costs, i, j).len() ==> (#[trigger] aligned_pairs(
                costs,
                i,
                j,
            )[k]).0 < (#[trigger] aligned_pairs(costs, i, j)[l]).0 && aligned_pairs(
                costs,
                i,
                j,
            )[k].1 < aligned_pairs(costs, i, j)[l].1,
    decreases i + j,
{
    if i == 0 && j == 0 {
    } else {
        match turn_step(costs, i, j) {
            AlignmentOp::Match => {
                lemma_aligned_pairs(costs, (i - 1) as nat, (j - 1) as nat);
            },
            AlignmentOp::DeleteReference => {
                lemma_aligned_pairs(costs, (i - 1) as nat, j);
            },
            AlignmentOp::InsertHypothesis => {
                lemma_aligned_pairs(costs, i, (j - 1) as nat);
            },
        }
    }
}

pub open spec fn cost_table(costs: Seq<Vec<u128>>) -> Seq<Seq<u128>> {
    Seq::new(costs.len(), |i: int| costs[i]@)
}

proof fn lemma_turn_cost_bound(costs: Seq<Seq<u128>>, i: nat, j: nat)
    ensures
        turn_alignment_cost(costs, i, j) <= (i + j) * TURN_COST_UNIT as nat,
    decreases i + j,
{
    assert((i + j) * TURN_COST_UNIT as nat >= 0) by (nonlinear_arith);
    if i > 0 && j > 0 {
        lemma_turn_cost_bound(costs, (i - 1) as nat, j);
        assert((i + j) * TURN_COST_UNIT as nat == ((i - 1) as nat + j) * TURN_COST_UNIT as nat
            + TURN_COST_UNIT as nat) by (nonlinear_arith)
            requires
                i > 0,
        ;
    }
}

/// The pairs of the cheapest alignment of two sequences of turns, given what
/// it costs to pair each two of them.
pub fn align_by_costs(costs: &Vec<Vec<u128>>, hypothesis_len: usize) -> (pairs: Vec<(usize, usize)>)
    requires
        costs@.len() < 0x1_0000_0000_0000_0000,
        costs@.len() < usize::MAX,
        hypothesis_len < usize::MAX,
        forall|i: int| 0 <= i < costs@.len() ==> (#[trigger] costs@[i])@.len() == hypothesis_len,
        forall|i: int, j: int|
            0 <= i < costs@.len() && 0 <= j < hypothesis_len ==> #[trigger] costs@[i]@[j]
                <= UNRELATED_TURN_COST,
    ensures
        pairs@.len() == aligned_pairs(
            cost_table(costs@),
            costs@.len(),
            hypothesis_len as nat,
        ).len(),
        forall|k: int|
            0 <= k < pairs@.len() ==> (#[trigger] pairs@[k]).0 == aligned_pairs(
                cost_table(costs@),
                costs@.len(),
                hypothesis_len as nat,
            )[k].0 && pairs@[k].1 == aligned_pairs(
                cost_table(costs@),
                costs@.len(),
                hypothesis_len as nat,
            )[k].1,
{
    let n: usize = costs.len();
    let m: usize = hypothesis_len;
    let ghost table = cost_table(costs@);
    let mut steps: Vec<Vec<AlignmentOp>> = Vec::new();
    let mut previous: Vec<u128> = Vec::new();
    let mut i: usize = 0;
    while i <= n
        invariant
            i <= n + 1,
            n == costs@.len(),
            m == hypothesis_len,
            n < usize::MAX,
            m < usize::MAX,
            table == cost_table(costs@),
            forall|x: int| 0 <= x < n ==> (#[trigger] costs@[x])@.len() == m,
            forall|x: int, y: int|
                0 <= x < n && 0 <= y < m ==> #[trigger] costs@[x]@[y] <= UNRELATED_TURN_COST,
            i > 0 ==> previous@.len() == m + 1,
            i > 0 ==> forall|k: int|
                0 <= k <= m ==> #[trigger] previous@[k] == turn_alignment_cost(
                    table,
                    (i - 1) as nat,
                    k as nat,
                ),
            steps@.len() == i,
            forall|x: int| 0 <= x < i ==> (#[trigger] steps@[x])@.len() == m + 1,
            forall|x: int, y: int|
                0 <= x < i && 0 <= y <= m ==> #[trigger] steps@[x]@[y] == turn_step(
                    table,
                    x as nat,
                    y as nat,
                ),
        decreases n + 1 - i,
    {
        let mut current: Vec<u128> = Vec::new();
        let mut row: Vec<AlignmentOp> = Vec::new();
        let mut j: usize = 0;
        while j <= m
            invariant
                i <= n,
                j <= m + 1,
                n == costs@.len(),
                m == hypothesis_len,
                n < usize::MAX,
                m < usize::MAX,
                table == cost_table(costs@),
                forall|x: int| 0 <= x < n ==> (#[trigger] costs@[x])@.len() == m,
                forall|x: int, y: int|
                    0 <= x < n && 0 <= y < m ==> #[trigger] costs@[x]@[y] <= UNRELATED_TURN_COST,
                i > 0 ==> previous@.len() == m + 1,
                i > 0 ==> forall|k: int|
                    0 <= k <= m ==> #[trigger] previous@[k] == turn_alignment_cost(
                        table,
                        (i - 1) as nat,
                        k as nat,
                    ),
                current@.len() == j,
                row@.len() == j,
                forall|k: int|
                    0 <= k < j ==> #[trigger] current@[k] == turn_alignment_cost(
                        table,
                        i as nat,
                        k as nat,
                    ),
                forall|k: int|
                    0 <= k < j ==> #[trigger] row@[k] == turn_step(table, i as nat, k as nat),
            decreases m + 1 - j,
        {
            if i == 0 {
                assert(j * TURN_COST_UNIT <= u128::MAX) by (nonlinear_arith)
                    requires
                        j <= 0xffff_ffff_ffff_ffff,
                ;
                current.push(j as u128 * TURN_COST_UNIT);
                row.push(AlignmentOp::InsertHypothesis);
            } else if j == 0 {
                assert(i * TURN_COST_UNIT <= u128::MAX) by (nonlinear_arith)
                    requires
                        i <= 0xffff_ffff_ffff_ffff,
                ;
                current.push(i as u128 * TURN_COST_UNIT);
                row.push(AlignmentOp::DeleteReference);
            } else {
                proof {
                    lemma_turn_cost_bound(table, (i - 1) as nat, (j - 1) as nat);
                    lemma_turn_cost_bound(table, (i - 1) as nat, j as nat);
                    lemma_turn_cost_bound(table, i as nat, (j - 1) as nat);
                    assert((i - 1 + (j - 1)) * TURN_COST_UNIT <= 0x1_0000_0000_0000_0000_0000_0000_0000
                        && (i - 1 + j) * TURN_COST_UNIT
                        <= 0x1_0000_0000_0000_0000_0000_0000_0000 && (i + (j - 1)) * TURN_COST_UNIT
                        <= 0x1_0000_0000_0000_0000_0000_0000_0000) by (nonlinear_arith)
                        requires
                            1 <= i <= 0xffff_ffff_ffff_ffff,
                            1 <= j <= 0xffff_ffff_ffff_ffff,
                    ;
                    assert(previous@[j - 1] == turn_alignment_cost(
                        table,
                        (i - 1) as nat,
                        (j - 1) as nat,
                    ));
                    assert(previous@[j as int] == turn_alignment_cost(
                        table,
                        (i - 1) as nat,
                        j as nat,
                    ));
                    assert(current@[j - 1] == turn_alignment_cost(
                        table,
                        i as nat,
                        (j - 1) as nat,
                    ));
                    assert(costs@[i - 1]@[j - 1] <= UNRELATED_TURN_COST);
                    assert(table[i - 1][j - 1] == costs@[i - 1]@[j - 1]);
                }
                let pair: u128 = previous[j - 1] + costs[i - 1][j - 1];
                let delete: u128 = previous[j] + TURN_COST_UNIT;
                let insert: u128 = current[j - 1] + TURN_COST_UNIT;
                if pair <= delete && pair <= insert {
                    current.push(pair);
                    row.push(AlignmentOp::Match);
                } else if delete <= insert {
                    current.push(delete);
                    row.push(AlignmentOp::DeleteReference);
                } else {
                    current.push(insert);
                    row.push(AlignmentOp::InsertHypothesis);
                }
            }
            j += 1;
        }
        previous = current;
        steps.push(row);
        i += 1;
    }
    let mut reversed: Vec<(usize, usize)> = Vec::new();
    let mut i: usize = n;
    let mut j: usize = m;
    let ghost all = aligned_pairs(table, n as nat, m as nat);
    while i > 0 || j > 0
        invariant
            i <= n,
            j <= m,
            steps@.len() == n + 1,
            forall|x: int| 0 <= x <= n ==> (#[trigger] steps@[x])@.len() == m + 1,
            forall|x: int, y: int|
                0 <= x <= n && 0 <= y <= m ==> #[trigger] steps@[x]@[y] == turn_step(
                    table,
                    x as nat,
                    y as nat,
                ),
            all.len() == aligned_pairs(table, i as nat, j as nat).len() + reversed@.len(),
            all.take(all.len() - reversed@.len()) == aligned_pairs(table, i as nat, j as nat),
            forall|k: int|
                0 <= k < reversed@.len() ==> (#[trigger] reversed@[k]).0 == all[all.len() - 1 - k].0
                    && reversed@[k].1 == all[all.len() - 1 - k].1,
        decreases i + j,
    {
        let step = steps[i][j];
        assert(step == turn_step(table, i as nat, j as nat));
        let ghost here = aligned_pairs(table, i as nat, j as nat);
        match step {
            AlignmentOp::Match => {
                proof {
                    assert(here.last() == all[all.len() - reversed@.len() - 1]);
                    assert(here.drop_last() == aligned_pairs(
                        table,
                        (i - 1) as nat,
                        (j - 1) as nat,
                    ));
                    assert(all.take(all.len() - reversed@.len() - 1) == here.drop_last());
                }
                reversed.push((i - 1, j - 1));
                i -= 1;
                j -= 1;
            },
            AlignmentOp::DeleteReference => {
                i -= 1;
            },
            AlignmentOp::InsertHypothesis => {
                j -= 1;
            },
        }
    }
    let mut pairs: Vec<(usize, usize)> = Vec::new();
    let mut k: usize = reversed.len();
    while k > 0
        invariant
            k <= reversed@.len(),
            all.len() == reversed@.len(),
            forall|x: int|
                0 <= x < reversed@.len() ==> (#[trigger] reversed@[x]).0 == all[all.len() - 1 - x].0
                    && reversed@[x].1 == all[all.len() - 1 - x].1,
            pairs@.len() == reversed@.len() - k,
            forall|x: int|
                0 <= x < pairs@.len() ==> (#[trigger] pairs@[x]).0 == all[x].0 && pairs@[x].1
                    == all[x].1,
        decreases k,
    {
        k -= 1;
        assert(reversed@[k as int].0 == all[all.len() - 1 - k].0);
        pairs.push(reversed[k]);
    }
    pairs
}

} // verus!
