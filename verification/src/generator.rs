use crate::arc4::{init_state, Arc4Model};
use crate::bingo::{Bingo, Mode};
use crate::error::BingoError;
use crate::seed_random::{random_index, spec_next, spec_random_index, SeedRandom};
use crate::template::{catalog_wf, Goal, GoalModel, Template, MAX_TYPES};
use vstd::arithmetic::power2::{lemma2_to64, lemma2_to64_rest, pow2};
use vstd::prelude::*;

verus! {

/// The permutation of {0,...,4} built from a three-digit group `g` by
/// successive insertion: start from [0], then insert 1 at (g%8)%2, 2 at g%3,
/// 3 at (g%8)/2 and 4 at g%5, each insertion shifting later elements right.
/// The four remainders are mathematically independent, so every one of the
/// 120 orderings arises uniformly.
pub open spec fn table_perm(g: int) -> Seq<i64> {
    let r8 = g % 8;
    seq![0i64].insert(r8 % 2, 1i64).insert(g % 3, 2i64).insert(r8 / 2, 3i64).insert(g % 5, 4i64)
}

/// The rotation that selects which diagonal of the magic square aligns with
/// index order, accumulated from both three-digit groups of the seed.
pub open spec fn spec_shift(seed: u32) -> int {
    let ga = (seed as int) % 1000;
    let gb = ((seed as int) / 1000) % 1000;
    ((ga / 120) * 8 + gb / 120) % 5
}

/// One cell of the magic square over two tables and a rotation: grid
/// coordinates x (rotated) and y select one entry of each table through the
/// two index formulas, the first table driving the fives part.
pub open spec fn raw_cell(ta: Seq<i64>, tb: Seq<i64>, shift: int, c: int) -> int {
    let x = (c + shift) % 5;
    let y = c / 5;
    5 * ta[(x + 3 * y) % 5] + tb[(3 * x + y) % 5]
}

/// The raw, pre-mode-scaling difficulty of zero-based cell `c`: a classical
/// order-5 magic-square construction. The low-digit table drives the fives
/// part and the high-digit table the ones part.
pub open spec fn spec_raw(seed: u32, c: int) -> int {
    raw_cell(
        table_perm((seed as int) % 1000),
        table_perm(((seed as int) / 1000) % 1000),
        spec_shift(seed),
        c,
    )
}

/// The difficulty tier of one-based cell `i`, after mode scaling: Short
/// halves the raw value, Long and Special shift it into the upper half, and
/// Normal leaves it unchanged.
#[verifier::opaque]
pub open spec fn spec_difficulty(seed: u32, i: int, mode: Mode) -> int {
    let v = spec_raw(seed, i - 1);
    match mode {
        Mode::Short => v / 2,
        Mode::Long => (v + 25) / 2,
        Mode::Special => (v + 25) / 2,
        Mode::Normal => v,
    }
}

/// Every seed table is a five-entry sequence of values 0 through 4 whose
/// total is 10.
pub proof fn lemma_table_perm_props(g: int)
    ensures
        table_perm(g).len() == 5,
        forall|i: int| 0 <= i < 5 ==> 0 <= #[trigger] table_perm(g)[i] <= 4,
        table_perm(g)[0] + table_perm(g)[1] + table_perm(g)[2] + table_perm(g)[3] + table_perm(
            g,
        )[4] == 10,
{
    let r8 = g % 8;
    let s0 = seq![0i64];
    let s1 = s0.insert(r8 % 2, 1i64);
    let s2 = s1.insert(g % 3, 2i64);
    let s3 = s2.insert(r8 / 2, 3i64);
    let s4 = s3.insert(g % 5, 4i64);
    assert(0 <= r8 % 2 <= 1);
    assert(0 <= g % 3 <= 2);
    assert(0 <= r8 / 2 <= 3);
    assert(0 <= g % 5 <= 4);
    s0.insert_ensures(r8 % 2, 1i64);
    s1.insert_ensures(g % 3, 2i64);
    s2.insert_ensures(r8 / 2, 3i64);
    s3.insert_ensures(g % 5, 4i64);
    assert(s1[0] + s1[1] == 1 && forall|i: int| 0 <= i < 2 ==> 0 <= #[trigger] s1[i] <= 1);
    assert(s2[0] + s2[1] + s2[2] == 3 && forall|i: int| 0 <= i < 3 ==> 0 <= #[trigger] s2[i] <= 2);
    assert(s3[0] + s3[1] + s3[2] + s3[3] == 6 && forall|i: int|
        0 <= i < 4 ==> 0 <= #[trigger] s3[i] <= 3);
    assert(s4[0] + s4[1] + s4[2] + s4[3] + s4[4] == 10 && forall|i: int|
        0 <= i < 5 ==> 0 <= #[trigger] s4[i] <= 4);
    assert(table_perm(g) == s4);
}

/// The raw difficulty of every cell lies in 0..=24, and the scaled tier too.
pub proof fn lemma_difficulty_range(seed: u32, i: int, mode: Mode)
    requires
        1 <= i <= 25,
    ensures
        0 <= spec_raw(seed, i - 1) <= 24,
        0 <= spec_difficulty(seed, i, mode) <= 24,
{
    reveal(spec_difficulty);
    lemma_table_perm_props((seed as int) % 1000);
    lemma_table_perm_props(((seed as int) / 1000) % 1000);
}

/// The cells of one winning line of the 5x5 grid, row major: lines 0-4 are
/// the rows, 5-9 the columns, 10 the main diagonal, 11 the anti-diagonal.
pub open spec fn spec_line_cells(l: int) -> Seq<int> {
    if l < 5 {
        seq![5 * l, 5 * l + 1, 5 * l + 2, 5 * l + 3, 5 * l + 4]
    } else if l < 10 {
        seq![l - 5, l, l + 5, l + 10, l + 15]
    } else if l == 10 {
        seq![0, 6, 12, 18, 24]
    } else {
        seq![4, 8, 12, 16, 20]
    }
}

/// The total raw difficulty along one line.
pub open spec fn spec_line_sum(seed: u32, l: int) -> int {
    let cs = spec_line_cells(l);
    spec_raw(seed, cs[0]) + spec_raw(seed, cs[1]) + spec_raw(seed, cs[2]) + spec_raw(seed, cs[3])
        + spec_raw(seed, cs[4])
}

/// One line's raw total, generalized over any two five-entry tables with
/// total 10 and any rotation: the line's ten table lookups hit each table
/// entry exactly once, so the line totals 5*10 + 10.
#[verifier::rlimit(100)]
proof fn lemma_line_sum_generic(ta: Seq<i64>, tb: Seq<i64>, shift: int, l: int)
    requires
        0 <= l < 12,
        0 <= shift < 5,
        ta.len() == 5,
        tb.len() == 5,
        ta[0] + ta[1] + ta[2] + ta[3] + ta[4] == 10,
        tb[0] + tb[1] + tb[2] + tb[3] + tb[4] == 10,
    ensures
        raw_cell(ta, tb, shift, spec_line_cells(l)[0]) + raw_cell(
            ta,
            tb,
            shift,
            spec_line_cells(l)[1],
        ) + raw_cell(ta, tb, shift, spec_line_cells(l)[2]) + raw_cell(
            ta,
            tb,
            shift,
            spec_line_cells(l)[3],
        ) + raw_cell(ta, tb, shift, spec_line_cells(l)[4]) == 60,
{
    let cs = spec_line_cells(l);
    if l < 5 {
        assert(raw_cell(ta, tb, shift, cs[0]) + raw_cell(ta, tb, shift, cs[1]) + raw_cell(
            ta,
            tb,
            shift,
            cs[2],
        ) + raw_cell(ta, tb, shift, cs[3]) + raw_cell(ta, tb, shift, cs[4]) == 60);
    } else if l < 10 {
        assert(raw_cell(ta, tb, shift, cs[0]) + raw_cell(ta, tb, shift, cs[1]) + raw_cell(
            ta,
            tb,
            shift,
            cs[2],
        ) + raw_cell(ta, tb, shift, cs[3]) + raw_cell(ta, tb, shift, cs[4]) == 60);
    } else if l == 10 {
        assert(raw_cell(ta, tb, shift, cs[0]) + raw_cell(ta, tb, shift, cs[1]) + raw_cell(
            ta,
            tb,
            shift,
            cs[2],
        ) + raw_cell(ta, tb, shift, cs[3]) + raw_cell(ta, tb, shift, cs[4]) == 60);
    } else {
        assert(raw_cell(ta, tb, shift, cs[0]) + raw_cell(ta, tb, shift, cs[1]) + raw_cell(
            ta,
            tb,
            shift,
            cs[2],
        ) + raw_cell(ta, tb, shift, cs[3]) + raw_cell(ta, tb, shift, cs[4]) == 60);
    }
}

/// Magic-square balance: for every seed, every row, every column and both
/// main diagonals of the raw difficulty grid total the same constant, 60.
pub proof fn lemma_magic_square_balance(seed: u32, l: int)
    requires
        0 <= l < 12,
    ensures
        spec_line_sum(seed, l) == 60,
{
    let ga = (seed as int) % 1000;
    let gb = ((seed as int) / 1000) % 1000;
    lemma_table_perm_props(ga);
    lemma_table_perm_props(gb);
    let shift = spec_shift(seed);
    assert(0 <= shift < 5);
    lemma_line_sum_generic(table_perm(ga), table_perm(gb), shift, l);
}

/// The difficulty tier for one-based cell `i`: two tables of five are built
/// from the seed's two low three-digit groups by successive insertion, the
/// magic-square index formulas pick one entry of each, and the mode scales
/// the combined value.
pub fn difficulty(seed: u32, i: usize, mode: Mode) -> (r: i64)
    requires
        1 <= i <= 25,
    ensures
        r == spec_difficulty(seed, i as int, mode),
        0 <= r <= 24,
{
    proof {
        reveal(spec_difficulty);
        lemma_table_perm_props((seed as int) % 1000);
        lemma_table_perm_props(((seed as int) / 1000) % 1000);
        lemma_difficulty_range(seed, i as int, mode);
    }
    // Table5 uses the ones, tens and hundreds digits.
    let num3 = seed % 1000;

    let rem8 = num3 % 8;
    let rem4 = rem8 / 2;
    let rem2 = rem8 % 2;
    let rem5 = num3 % 5;
    let rem3 = num3 % 3;
    let rem_t = num3 / 120;

    let mut table5: Vec<i64> = Vec::new();
    table5.push(0);
    table5.insert(rem2 as usize, 1);
    table5.insert(rem3 as usize, 2);
    table5.insert(rem4 as usize, 3);
    table5.insert(rem5 as usize, 4);
    proof {
        assert(table5@ == table_perm((seed as int) % 1000));
    }

    // Table1 uses the next three digits.
    let num3 = (seed / 1000) % 1000;

    let rem8 = num3 % 8;
    let rem4 = rem8 / 2;
    let rem2 = rem8 % 2;
    let rem5 = num3 % 5;
    let rem3 = num3 % 3;
    let rem_t = rem_t * 8 + num3 / 120;

    let mut table1: Vec<i64> = Vec::new();
    table1.push(0);
    table1.insert(rem2 as usize, 1);
    table1.insert(rem3 as usize, 2);
    table1.insert(rem4 as usize, 3);
    table1.insert(rem5 as usize, 4);
    proof {
        assert(table1@ == table_perm(((seed as int) / 1000) % 1000));
    }

    let c = i - 1;
    // The rotation puts one chosen diagonal on the main diagonal.
    let shift = (rem_t % 5) as usize;
    proof {
        assert(shift == spec_shift(seed));
    }
    let x = (c + shift) % 5;
    let y = c / 5;

    let e5 = table5[(x + 3 * y) % 5];
    let e1 = table1[(3 * x + y) % 5];

    // Table5 controls the fives part and Table1 the ones part.
    let value = 5 * e5 + e1;
    proof {
        assert(value == spec_raw(seed, c as int));
    }

    match mode {
        Mode::Short => value / 2,
        Mode::Long | Mode::Special => (value + 25) / 2,
        Mode::Normal => value,
    }
}

/// The cells sharing a winning line with zero-based cell `c`: its row, its
/// column, and each main diagonal it lies on. Pure static data.
pub open spec fn line_list(c: int) -> Seq<usize> {
    if c == 0 {
        seq![1usize, 2, 3, 4, 5, 10, 15, 20, 6, 12, 18, 24]
    } else if c == 1 {
        seq![0usize, 2, 3, 4, 6, 11, 16, 21]
    } else if c == 2 {
        seq![0usize, 1, 3, 4, 7, 12, 17, 22]
    } else if c == 3 {
        seq![0usize, 1, 2, 4, 8, 13, 18, 23]
    } else if c == 4 {
        seq![0usize, 1, 2, 3, 8, 12, 16, 20, 9, 14, 19, 24]
    } else if c == 5 {
        seq![0usize, 10, 15, 20, 6, 7, 8, 9]
    } else if c == 6 {
        seq![0usize, 12, 18, 24, 5, 7, 8, 9, 1, 11, 16, 21]
    } else if c == 7 {
        seq![5usize, 6, 8, 9, 2, 12, 17, 22]
    } else if c == 8 {
        seq![4usize, 12, 16, 20, 9, 7, 6, 5, 3, 13, 18, 23]
    } else if c == 9 {
        seq![4usize, 14, 19, 24, 8, 7, 6, 5]
    } else if c == 10 {
        seq![0usize, 5, 15, 20, 11, 12, 13, 14]
    } else if c == 11 {
        seq![1usize, 6, 16, 21, 10, 12, 13, 14]
    } else if c == 12 {
        seq![0usize, 6, 12, 18, 24, 20, 16, 8, 4, 2, 7, 17, 22, 10, 11, 13, 14]
    } else if c == 13 {
        seq![3usize, 8, 18, 23, 10, 11, 12, 14]
    } else if c == 14 {
        seq![4usize, 9, 19, 24, 10, 11, 12, 13]
    } else if c == 15 {
        seq![0usize, 5, 10, 20, 16, 17, 18, 19]
    } else if c == 16 {
        seq![15usize, 17, 18, 19, 1, 6, 11, 21, 20, 12, 8, 4]
    } else if c == 17 {
        seq![15usize, 16, 18, 19, 2, 7, 12, 22]
    } else if c == 18 {
        seq![15usize, 16, 17, 19, 23, 13, 8, 3, 24, 12, 6, 0]
    } else if c == 19 {
        seq![4usize, 9, 14, 24, 15, 16, 17, 18]
    } else if c == 20 {
        seq![0usize, 5, 10, 15, 16, 12, 8, 4, 21, 22, 23, 24]
    } else if c == 21 {
        seq![20usize, 22, 23, 24, 1, 6, 11, 16]
    } else if c == 22 {
        seq![2usize, 7, 12, 17, 20, 21, 23, 24]
    } else if c == 23 {
        seq![20usize, 21, 22, 24, 3, 8, 13, 18]
    } else {
        seq![0usize, 6, 12, 18, 20, 21, 22, 23, 19, 14, 9, 4]
    }
}

/// The shared-line neighbor cells of zero-based cell `c`, as a vector.
pub fn line_neighbors(c: usize) -> (r: Vec<usize>)
    requires
        c < 25,
    ensures
        r@ == line_list(c as int),
{
    let r = match c {
        0 => vec![1usize, 2, 3, 4, 5, 10, 15, 20, 6, 12, 18, 24],
        1 => vec![0usize, 2, 3, 4, 6, 11, 16, 21],
        2 => vec![0usize, 1, 3, 4, 7, 12, 17, 22],
        3 => vec![0usize, 1, 2, 4, 8, 13, 18, 23],
        4 => vec![0usize, 1, 2, 3, 8, 12, 16, 20, 9, 14, 19, 24],
        5 => vec![0usize, 10, 15, 20, 6, 7, 8, 9],
        6 => vec![0usize, 12, 18, 24, 5, 7, 8, 9, 1, 11, 16, 21],
        7 => vec![5usize, 6, 8, 9, 2, 12, 17, 22],
        8 => vec![4usize, 12, 16, 20, 9, 7, 6, 5, 3, 13, 18, 23],
        9 => vec![4usize, 14, 19, 24, 8, 7, 6, 5],
        10 => vec![0usize, 5, 15, 20, 11, 12, 13, 14],
        11 => vec![1usize, 6, 16, 21, 10, 12, 13, 14],
        12 => vec![0usize, 6, 12, 18, 24, 20, 16, 8, 4, 2, 7, 17, 22, 10, 11, 13, 14],
        13 => vec![3usize, 8, 18, 23, 10, 11, 12, 14],
        14 => vec![4usize, 9, 19, 24, 10, 11, 12, 13],
        15 => vec![0usize, 5, 10, 20, 16, 17, 18, 19],
        16 => vec![15usize, 17, 18, 19, 1, 6, 11, 21, 20, 12, 8, 4],
        17 => vec![15usize, 16, 18, 19, 2, 7, 12, 22],
        18 => vec![15usize, 16, 17, 19, 23, 13, 8, 3, 24, 12, 6, 0],
        19 => vec![4usize, 9, 14, 24, 15, 16, 17, 18],
        20 => vec![0usize, 5, 10, 15, 16, 12, 8, 4, 21, 22, 23, 24],
        21 => vec![20usize, 22, 23, 24, 1, 6, 11, 16],
        22 => vec![2usize, 7, 12, 17, 20, 21, 23, 24],
        23 => vec![20usize, 21, 22, 24, 3, 8, 13, 18],
        _ => vec![0usize, 6, 12, 18, 20, 21, 22, 23, 19, 14, 9, 4],
    };
    proof {
        assert(r@ =~= line_list(c as int));
    }
    r
}

/// The synergy contribution of one pair of tags: 1 for an equal pair, plus
/// 1 more if the candidate's tag is its main (first) tag, plus 1 more if the
/// placed goal's tag is its main tag.
pub open spec fn pair_score(a: Seq<Seq<char>>, k: int, b: Seq<Seq<char>>, l: int) -> nat {
    if a[k] == b[l] {
        (1 + (if k == 0 {
            1int
        } else {
            0int
        }) + (if l == 0 {
            1int
        } else {
            0int
        })) as nat
    } else {
        0
    }
}

/// Candidate tag `k` scored against the first `lb` tags of a placed goal.
pub open spec fn tag_score_upto(a: Seq<Seq<char>>, k: int, b: Seq<Seq<char>>, lb: int) -> nat
    decreases lb,
{
    if lb <= 0 {
        0
    } else {
        tag_score_upto(a, k, b, lb - 1) + pair_score(a, k, b, lb - 1)
    }
}

/// The first `kb` candidate tags scored against all of a placed goal's tags.
pub open spec fn goal_score_upto(a: Seq<Seq<char>>, b: Seq<Seq<char>>, kb: int) -> nat
    decreases kb,
{
    if kb <= 0 {
        0
    } else {
        goal_score_upto(a, b, kb - 1) + tag_score_upto(a, kb - 1, b, b.len() as int)
    }
}

/// The full synergy between a candidate's tag list and one placed goal's.
pub open spec fn goal_pair_synergy(a: Seq<Seq<char>>, b: Seq<Seq<char>>) -> nat {
    goal_score_upto(a, b, a.len() as int)
}

/// The candidate scored against the first `jb` line neighbors of `cell`,
/// counting only neighbors already placed.
pub open spec fn cell_synergy_upto(
    types: Seq<Seq<char>>,
    cell: int,
    placed: Seq<GoalModel>,
    jb: int,
) -> nat
    decreases jb,
{
    if jb <= 0 {
        0
    } else {
        cell_synergy_upto(types, cell, placed, jb - 1) + (
        if (line_list(cell)[jb - 1] as int) < placed.len() {
            goal_pair_synergy(types, placed[line_list(cell)[jb - 1] as int].types)
        } else {
            0
        })
    }
}

/// The synergy of a candidate with every already-placed goal that shares a
/// winning line with `cell`. Lower is better; zero means no thematic overlap.
#[verifier::opaque]
pub open spec fn spec_check_line(cell: int, types: Seq<Seq<char>>, placed: Seq<GoalModel>) -> nat {
    cell_synergy_upto(types, cell, placed, line_list(cell).len() as int)
}

/// One tag scores at most 3 against each of `lb` tags.
proof fn lemma_tag_score_bound(a: Seq<Seq<char>>, k: int, b: Seq<Seq<char>>, lb: int)
    ensures
        tag_score_upto(a, k, b, lb) <= 3 * (if lb <= 0 {
            0int
        } else {
            lb
        }),
    decreases lb,
{
    if lb > 0 {
        lemma_tag_score_bound(a, k, b, lb - 1);
    }
}

/// A goal pair scores at most 3 per tag pair.
proof fn lemma_goal_score_bound(a: Seq<Seq<char>>, b: Seq<Seq<char>>, kb: int)
    requires
        b.len() <= MAX_TYPES,
    ensures
        goal_score_upto(a, b, kb) <= (if kb <= 0 {
            0int
        } else {
            kb
        }) * 3 * (MAX_TYPES as int),
    decreases kb,
{
    if kb > 0 {
        lemma_goal_score_bound(a, b, kb - 1);
        lemma_tag_score_bound(a, kb - 1, b, b.len() as int);
    }
}

/// A cell's synergy stays far below any machine bound for a valid catalog:
/// at most 17 neighbors, each scoring at most 3 per tag pair.
proof fn lemma_cell_synergy_bound(
    types: Seq<Seq<char>>,
    cell: int,
    placed: Seq<GoalModel>,
    jb: int,
)
    requires
        types.len() <= MAX_TYPES,
        forall|p: int| 0 <= p < placed.len() ==> (#[trigger] placed[p]).types.len() <= MAX_TYPES,
    ensures
        cell_synergy_upto(types, cell, placed, jb) <= (if jb <= 0 {
            0int
        } else {
            jb
        }) * 0x3000000,
    decreases jb,
{
    if jb > 0 {
        lemma_cell_synergy_bound(types, cell, placed, jb - 1);
        let idx = line_list(cell)[jb - 1] as int;
        if idx < placed.len() {
            lemma_goal_score_bound(types, placed[idx].types, types.len() as int);
            assert(goal_pair_synergy(types, placed[idx].types) <= (MAX_TYPES as int) * 3 * (
            MAX_TYPES as int));
        }
    }
}

/// The synergy of a candidate tag list for `i` against every already-placed
/// goal on a line shared with `i`: for every equal tag pair add 1, plus 1
/// when the candidate's tag is its main tag, plus 1 when the placed goal's
/// is. The score is never negative; it is zero when no tags overlap.
pub fn check_line(i: usize, types_a: &Vec<String>, placed: &Vec<Goal>) -> (r: usize)
    requires
        i < 25,
        types_a@.len() <= MAX_TYPES,
        forall|p: int|
            0 <= p < placed@.len() ==> (#[trigger] placed@[p]@).types.len() <= MAX_TYPES,
    ensures
        r == spec_check_line(i as int, types_a.deep_view(), placed.deep_view()),
{
    let ghost ta = types_a.deep_view();
    let ghost pl = placed.deep_view();
    proof {
        reveal(spec_check_line);
        assert(forall|p: int| 0 <= p < pl.len() ==> (#[trigger] pl[p]).types.len() <= MAX_TYPES);
    }
    let neighbors = line_neighbors(i);
    let mut synergy: usize = 0;
    let mut j: usize = 0;
    while j < neighbors.len()
        invariant
            i < 25,
            neighbors@ == line_list(i as int),
            j <= neighbors@.len(),
            ta == types_a.deep_view(),
            pl == placed.deep_view(),
            ta.len() <= MAX_TYPES,
            forall|p: int| 0 <= p < pl.len() ==> (#[trigger] pl[p]).types.len() <= MAX_TYPES,
            synergy == cell_synergy_upto(ta, i as int, pl, j as int),
        decreases neighbors@.len() - j,
    {
        proof {
            lemma_cell_synergy_bound(ta, i as int, pl, j as int);
        }
        let nb = neighbors[j];
        if nb < placed.len() {
            let types_b = &placed[nb].types;
            let ghost tb = pl[nb as int].types;
            proof {
                assert(types_b.deep_view() == tb);
                assert(tb.len() <= MAX_TYPES);
            }
            let mut k: usize = 0;
            while k < types_a.len()
                invariant
                    k <= ta.len(),
                    ta == types_a.deep_view(),
                    tb == types_b.deep_view(),
                    ta.len() <= MAX_TYPES,
                    tb.len() <= MAX_TYPES,
                    synergy == cell_synergy_upto(ta, i as int, pl, j as int) + goal_score_upto(
                        ta,
                        tb,
                        k as int,
                    ),
                    cell_synergy_upto(ta, i as int, pl, j as int) <= 17 * 0x3000000,
                decreases ta.len() - k,
            {
                proof {
                    lemma_goal_score_bound(ta, tb, k as int);
                }
                let mut l: usize = 0;
                while l < types_b.len()
                    invariant
                        k < ta.len(),
                        l <= tb.len(),
                        ta == types_a.deep_view(),
                        tb == types_b.deep_view(),
                        ta.len() <= MAX_TYPES,
                        tb.len() <= MAX_TYPES,
                        synergy == cell_synergy_upto(ta, i as int, pl, j as int) + goal_score_upto(
                            ta,
                            tb,
                            k as int,
                        ) + tag_score_upto(ta, k as int, tb, l as int),
                        cell_synergy_upto(ta, i as int, pl, j as int) <= 17 * 0x3000000,
                        goal_score_upto(ta, tb, k as int) <= (MAX_TYPES as int) * 3 * (
                        MAX_TYPES as int),
                    decreases tb.len() - l,
                {
                    proof {
                        lemma_tag_score_bound(ta, k as int, tb, l as int);
                        assert(ta[k as int] == types_a@[k as int]@);
                        assert(tb[l as int] == types_b@[l as int]@);
                    }
                    if types_a[k] == types_b[l] {
                        synergy += 1;  // a match
                        if k == 0 {
                            synergy += 1;  // the candidate's main tag
                        }
                        if l == 0 {
                            synergy += 1;  // the placed goal's main tag
                        }
                    }
                    l += 1;
                }
                k += 1;
            }
            proof {
                assert(cell_synergy_upto(ta, i as int, pl, (j + 1) as int) == cell_synergy_upto(
                    ta,
                    i as int,
                    pl,
                    j as int,
                ) + goal_pair_synergy(ta, tb));
            }
        } else {
            proof {
                assert(cell_synergy_upto(ta, i as int, pl, (j + 1) as int) == cell_synergy_upto(
                    ta,
                    i as int,
                    pl,
                    j as int,
                ));
            }
        }
        j += 1;
    }
    proof {
        reveal(spec_check_line);
    }
    synergy
}

/// The wrap-around scan from scan position `j` with incumbent index `bi` and
/// incumbent synergy `bs`: each position's candidate replaces the incumbent
/// only when its synergy is strictly lower (ties keep the earliest seen),
/// and the scan stops at a zero-synergy incumbent or at the pool's end.
pub open spec fn spec_scan(
    cell: int,
    pool: Seq<GoalModel>,
    rng: int,
    placed: Seq<GoalModel>,
    j: int,
    bi: int,
    bs: nat,
) -> (int, nat)
    decreases pool.len() - j,
{
    if bs == 0 || j >= pool.len() {
        (bi, bs)
    } else {
        let idx = (j + rng) % (pool.len() as int);
        let syn = spec_check_line(cell, pool[idx].types, placed);
        let nbi = if syn < bs {
            idx
        } else {
            bi
        };
        let nbs = if syn < bs {
            syn
        } else {
            bs
        };
        spec_scan(cell, pool, rng, placed, j + 1, nbi, nbs)
    }
}

/// The candidate the selector picks for `cell` from `pool`, scanning from
/// offset `rng` and wrapping: the index of the winning candidate and the
/// synergy score that won. The first candidate always becomes the incumbent.
#[verifier::opaque]
pub open spec fn spec_select(cell: int, pool: Seq<GoalModel>, rng: int, placed: Seq<GoalModel>) -> (
    int,
    nat,
) {
    let idx0 = rng % (pool.len() as int);
    let syn0 = spec_check_line(cell, pool[idx0].types, placed);
    spec_scan(cell, pool, rng, placed, 1, idx0, syn0)
}

/// Synergy is a count of weighted tag matches: it is never negative, for
/// any candidate, cell and placement.
pub proof fn lemma_synergy_nonnegative(cell: int, types: Seq<Seq<char>>, placed: Seq<GoalModel>)
    ensures
        spec_check_line(cell, types, placed) >= 0,
{
}

/// A scan that reaches the first zero-synergy position stops right there.
proof fn lemma_scan_stops_at_zero(
    cell: int,
    pool: Seq<GoalModel>,
    rng: int,
    placed: Seq<GoalModel>,
    j: int,
    bi: int,
    bs: nat,
    p: int,
)
    requires
        pool.len() >= 1,
        0 <= j <= p < pool.len(),
        bs != 0,
        spec_check_line(cell, pool[(p + rng) % (pool.len() as int)].types, placed) == 0,
        forall|q: int|
            j <= q < p ==> spec_check_line(
                cell,
                (#[trigger] pool[((q + rng) % (pool.len() as int)) as int]).types,
                placed,
            ) != 0,
    ensures
        spec_scan(cell, pool, rng, placed, j, bi, bs) == (
            (p + rng) % (pool.len() as int),
            0nat,
        ),
    decreases p - j,
{
    let len = pool.len() as int;
    let idx = (j + rng) % len;
    let syn = spec_check_line(cell, pool[idx].types, placed);
    if j == p {
        assert(syn == 0);
        assert(spec_scan(cell, pool, rng, placed, j + 1, idx, 0nat) == (idx, 0nat));
    } else {
        assert(syn != 0) by {
            assert(spec_check_line(cell, pool[((j + rng) % len) as int].types, placed) != 0);
        }
        let nbi = if syn < bs {
            idx
        } else {
            bi
        };
        let nbs = if syn < bs {
            syn
        } else {
            bs
        };
        lemma_scan_stops_at_zero(cell, pool, rng, placed, j + 1, nbi, nbs, p);
    }
}

/// Monotonic early exit: the selector never scans past the first
/// zero-synergy candidate. If scan position `p` is the first with synergy
/// zero, the selection is exactly that candidate, whatever lies beyond.
pub proof fn lemma_selector_early_exit(
    cell: int,
    pool: Seq<GoalModel>,
    rng: int,
    placed: Seq<GoalModel>,
    p: int,
)
    requires
        pool.len() >= 1,
        0 <= rng,
        0 <= p < pool.len(),
        spec_check_line(cell, pool[(p + rng) % (pool.len() as int)].types, placed) == 0,
        forall|q: int|
            0 <= q < p ==> spec_check_line(
                cell,
                (#[trigger] pool[((q + rng) % (pool.len() as int)) as int]).types,
                placed,
            ) != 0,
    ensures
        spec_select(cell, pool, rng, placed) == ((p + rng) % (pool.len() as int), 0nat),
{
    reveal(spec_select);
    let len = pool.len() as int;
    let idx0 = rng % len;
    let syn0 = spec_check_line(cell, pool[idx0].types, placed);
    if p == 0 {
        assert(idx0 == (0 + rng) % len);
        assert(syn0 == 0);
        assert(spec_scan(cell, pool, rng, placed, 1, idx0, 0nat) == (idx0, 0nat));
    } else {
        assert(syn0 != 0) by {
            assert(idx0 == (0 + rng) % len);
            assert(spec_check_line(cell, pool[((0 + rng) % len) as int].types, placed) != 0);
        }
        lemma_scan_stops_at_zero(cell, pool, rng, placed, 1, idx0, syn0, p);
    }
}

/// Pick the candidate for `cell` from `pool`: scan from the drawn offset
/// `rng`, wrapping around, and keep the first candidate seen with the lowest
/// synergy so far; a strictly lower score replaces the incumbent, a tie
/// keeps it. The scan stops as soon as a zero-synergy candidate appears, or
/// once every candidate has been tried. Returns the winning index and score.
pub fn select_goal(cell: usize, pool: &Vec<Goal>, rng: usize, placed: &Vec<Goal>) -> (r: (
    usize,
    usize,
))
    requires
        cell < 25,
        pool@.len() >= 1,
        rng <= pool@.len(),
        pool@.len() <= 0x10_0000_0000_0000,
        forall|p: int| 0 <= p < pool@.len() ==> (#[trigger] pool@[p]@).types.len() <= MAX_TYPES,
        forall|p: int|
            0 <= p < placed@.len() ==> (#[trigger] placed@[p]@).types.len() <= MAX_TYPES,
    ensures
        (r.0 as int, r.1 as nat) == spec_select(
            cell as int,
            pool.deep_view(),
            rng as int,
            placed.deep_view(),
        ),
        r.0 < pool@.len(),
{
    let ghost pl = pool.deep_view();
    let ghost pv = placed.deep_view();
    let len = pool.len();
    let idx0 = rng % len;
    proof {
        assert(pool@[idx0 as int]@.types == pl[idx0 as int].types);
        assert(pool@[idx0 as int]@.types.len() == pool@[idx0 as int].types@.len());
    }
    let best0 = check_line(cell, &pool[idx0].types, placed);
    proof {
        reveal(spec_select);
    }
    let mut best_i = idx0;
    let mut best_s = best0;
    let mut j: usize = 1;
    while best_s != 0 && j < len
        invariant
            cell < 25,
            1 <= j <= len,
            len == pool@.len(),
            len <= 0x10_0000_0000_0000,
            best_i < len,
            rng <= len,
            pl == pool.deep_view(),
            pv == placed.deep_view(),
            forall|p: int| 0 <= p < pool@.len() ==> (#[trigger] pool@[p]@).types.len() <= MAX_TYPES,
            forall|p: int|
                0 <= p < placed@.len() ==> (#[trigger] placed@[p]@).types.len() <= MAX_TYPES,
            spec_scan(cell as int, pl, rng as int, pv, j as int, best_i as int, best_s as nat)
                == spec_select(cell as int, pl, rng as int, pv),
        decreases len - j,
    {
        let idx = (((j as u64) + (rng as u64)) % (len as u64)) as usize;
        proof {
            assert(idx as int == ((j + rng) as int) % (len as int));
        }
        proof {
            assert(pool@[idx as int]@.types == pl[idx as int].types);
            assert(pool@[idx as int]@.types.len() == pool@[idx as int].types@.len());
        }
        let s = check_line(cell, &pool[idx].types, placed);
        if s < best_s {
            best_i = idx;
            best_s = s;
        }
        j += 1;
    }
    (best_i, best_s)
}

/// The ASCII decimal digits of `n`, most significant first: the canonical
/// base-10 string of the seed, which keys the float source.
pub open spec fn dec_digits(n: nat) -> Seq<u8>
    decreases n,
{
    if n < 10 {
        seq![(48 + n) as u8]
    } else {
        dec_digits(n / 10).push((48 + n % 10) as u8)
    }
}

/// Append the decimal digits of `n` to `out`.
fn push_digits(n: u32, out: &mut Vec<u8>)
    ensures
        final(out)@ == old(out)@ + dec_digits(n as nat),
    decreases n,
{
    if n < 10 {
        out.push(48 + n as u8);
        proof {
            assert(final(out)@ =~= old(out)@ + dec_digits(n as nat));
        }
    } else {
        push_digits(n / 10, out);
        out.push(48 + (n % 10) as u8);
        proof {
            assert(final(out)@ =~= old(out)@ + dec_digits(n as nat));
        }
    }
}

/// Resolve cells `k+1` through 25, threading the engine state and the
/// already-placed goals: each cell takes its tier's pool, draws a starting
/// offset from the float source, and places the selector's winner. A tier
/// outside the catalog or with an empty pool is a hard error; substituting
/// another tier would break seed reproducibility.
pub open spec fn place_cells(
    seed: u32,
    mode: Mode,
    cat: Seq<Seq<GoalModel>>,
    m: Arc4Model,
    k: int,
    placed: Seq<GoalModel>,
) -> Result<Seq<GoalModel>, BingoError>
    decreases 25 - k,
{
    if k >= 25 {
        Ok(placed)
    } else {
        let tier = spec_difficulty(seed, k + 1, mode);
        if tier < 0 || tier >= cat.len() || cat[tier].len() == 0 {
            Err(BingoError::CatalogTierMissing)
        } else {
            match spec_next(m) {
                None => Err(BingoError::RandomnessStalled),
                Some(res) => {
                    let pool = cat[tier];
                    let rng = spec_random_index(pool.len(), res.1, res.2);
                    let sel = spec_select(k, pool, rng as int, placed);
                    place_cells(seed, mode, cat, res.0, k + 1, placed.push(pool[sel.0]))
                },
            }
        }
    }
}

/// The full generation pipeline as a pure function of (seed, mode, catalog):
/// an invalid catalog is rejected up front; otherwise the float source is
/// keyed by the seed's decimal digits and all 25 cells are resolved in row
/// major order.
pub open spec fn spec_generate(seed: u32, mode: Mode, cat: Seq<Seq<GoalModel>>) -> Result<
    Seq<GoalModel>,
    BingoError,
> {
    if !catalog_wf(cat) {
        Err(BingoError::MalformedCatalog)
    } else {
        place_cells(seed, mode, cat, init_state(dec_digits(seed as nat)), 0, Seq::empty())
    }
}

/// The 25 placed goals' names arranged as the 5x5 board, row major.
pub open spec fn board_rows(placed: Seq<GoalModel>) -> Seq<Seq<Seq<char>>> {
    Seq::new(5, |r: int| Seq::new(5, |c: int| placed[5 * r + c].name))
}

/// Determinism: generation is a pure function of seed, mode and catalog, so
/// two runs on the same inputs yield the same outcome, bit for bit.
pub proof fn lemma_generate_deterministic(seed: u32, mode: Mode, cat: Seq<Seq<GoalModel>>)
    ensures
        spec_generate(seed, mode, cat) == spec_generate(seed, mode, cat),
{
}

impl Template {
    /// Generate the board for `seed` under `mode` from this catalog.
    pub fn generate(&self, seed: u32, mode: Mode) -> (r: Result<Bingo, BingoError>)
        ensures
            match r {
                Ok(b) => {
                    &&& spec_generate(seed, mode, self@) matches Ok(placed) && b@ == board_rows(
                        placed,
                    )
                    &&& b.wf()
                },
                Err(e) => spec_generate(seed, mode, self@) == Err::<Seq<GoalModel>, BingoError>(e),
            },
    {
        generate(seed, mode, self)
    }
}

/// Generate the board for `seed` under `mode` from `template`: validate the
/// catalog, key the float source with the seed's decimal digits, and resolve
/// the 25 cells in row-major order. Returns the finished board, or the error
/// for a missing tier, a malformed catalog, or a stalled digit stream.
#[verifier::rlimit(100)]
pub fn generate(seed: u32, mode: Mode, template: &Template) -> (r: Result<Bingo, BingoError>)
    ensures
        match r {
            Ok(b) => {
                &&& spec_generate(seed, mode, template@) matches Ok(placed) && b@ == board_rows(
                    placed,
                )
                &&& b.wf()
            },
            Err(e) => spec_generate(seed, mode, template@) == Err::<Seq<GoalModel>, BingoError>(e),
        },
{
    proof {
        lemma2_to64();
        lemma2_to64_rest();
    }
    if !template.validate() {
        return Err(BingoError::MalformedCatalog);
    }
    let ghost cat = template@;

    let mut digits: Vec<u8> = Vec::new();
    push_digits(seed, &mut digits);
    proof {
        assert(digits@ =~= dec_digits(seed as nat));
    }
    let mut random = SeedRandom::new(digits);
    let ghost m_init = random@;

    let mut placed: Vec<Goal> = Vec::new();
    proof {
        assert(placed.deep_view() =~= Seq::<GoalModel>::empty());
    }
    let mut i: usize = 1;
    while i <= 25
        invariant
            1 <= i <= 26,
            random.wf(),
            cat == template@,
            catalog_wf(cat),
            m_init == init_state(dec_digits(seed as nat)),
            placed@.len() == i - 1,
            forall|p: int|
                0 <= p < placed@.len() ==> (#[trigger] placed@[p]@).types.len() <= MAX_TYPES,
            forall|p: int| 0 <= p < placed@.len() ==> (#[trigger] placed@[p]@).name.len() > 0,
            place_cells(seed, mode, cat, m_init, 0, Seq::empty()) == place_cells(
                seed,
                mode,
                cat,
                random@,
                (i - 1) as int,
                placed.deep_view(),
            ),
        decreases 26 - i,
    {
        proof {
            lemma2_to64();
            lemma2_to64_rest();
        }
        let ghost pv = placed.deep_view();
        let tier_i = difficulty(seed, i, mode);
        let tier = tier_i as usize;
        if tier >= template.0.len() {
            return Err(BingoError::CatalogTierMissing);
        }
        let pool = &template.0[tier];
        proof {
            assert(pool.deep_view() == cat[tier as int]);
        }
        if pool.len() == 0 {
            return Err(BingoError::CatalogTierMissing);
        }
        proof {
            assert forall|p: int| 0 <= p < pool@.len() implies (#[trigger] pool@[p]@).types.len()
                <= MAX_TYPES by {
                assert(pool@[p]@ == pool.deep_view()[p]);
                assert(pool.deep_view()[p] == cat[tier as int][p]);
            }
        }
        let ghost m_pre = random@;
        let u = match random.next() {
            Ok(u) => u,
            Err(e) => {
                return Err(e);
            },
        };
        let rng = random_index(pool.len(), &u);
        let (bi, _best) = select_goal(i - 1, pool, rng, &placed);
        proof {
            assert(pool@[bi as int]@ == cat[tier as int][bi as int]);
            assert(cat[tier as int][bi as int].name.len() > 0);
            assert(cat[tier as int][bi as int].types.len() <= MAX_TYPES);
        }
        placed.push(pool[bi].clone());
        proof {
            assert(placed.deep_view() =~= pv.push(cat[tier as int][bi as int]));
            assert(place_cells(seed, mode, cat, m_pre, (i - 1) as int, pv) == place_cells(
                seed,
                mode,
                cat,
                random@,
                i as int,
                placed.deep_view(),
            ));
        }
        i += 1;
    }
    let ghost pv = placed.deep_view();
    proof {
        assert(place_cells(seed, mode, cat, random@, 25, pv) == Ok::<Seq<GoalModel>, BingoError>(
            pv,
        ));
        assert(spec_generate(seed, mode, cat) == Ok::<Seq<GoalModel>, BingoError>(pv));
    }

    // Write each winner's display name into its row-major grid position.
    let mut cells: Vec<Vec<String>> = Vec::new();
    let mut row_i: usize = 0;
    while row_i < 5
        invariant
            row_i <= 5,
            placed@.len() == 25,
            pv == placed.deep_view(),
            forall|p: int| 0 <= p < placed@.len() ==> (#[trigger] placed@[p]@).name.len() > 0,
            cells@.len() == row_i,
            forall|a: int| 0 <= a < row_i ==> (#[trigger] cells@[a])@.len() == 5,
            forall|a: int, b: int|
                0 <= a < row_i && 0 <= b < 5 ==> (#[trigger] cells@[a]@[b])@ == pv[5 * a + b].name,
        decreases 5 - row_i,
    {
        let mut row: Vec<String> = Vec::new();
        let mut col: usize = 0;
        while col < 5
            invariant
                row_i < 5,
                col <= 5,
                placed@.len() == 25,
                pv == placed.deep_view(),
                forall|p: int| 0 <= p < placed@.len() ==> (#[trigger] placed@[p]@).name.len() > 0,
                row@.len() == col,
                forall|b: int|
                    0 <= b < col ==> (#[trigger] row@[b])@ == pv[5 * (row_i as int) + b].name,
            decreases 5 - col,
        {
            row.push(placed[5 * row_i + col].name.clone());
            col += 1;
        }
        cells.push(row);
        row_i += 1;
    }
    let board = Bingo { cells };
    proof {
        assert(board@ =~~= board_rows(pv));
        assert(board.wf());
    }
    Ok(board)
}

} // verus!
