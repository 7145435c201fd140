//! Duration quantization: maps exact tick durations to encodable MML length
//! tokens, possibly as a chain of tied lengths, under an octave-dependent
//! policy.

use vstd::prelude::*;
use vstd::string::StringExecFns;

verus! {

/// Length table with dotted lengths, used in accuracy mode.
pub open spec fn accuracy_table() -> Seq<(u32, Seq<char>)> {
    seq![
        (2304u32, "1."@),
        (1536u32, "1"@),
        (1152u32, "2."@),
        (768u32, "2"@),
        (576u32, "4."@),
        (384u32, "4"@),
        (288u32, "8."@),
        (192u32, "8"@),
        (144u32, "16."@),
        (96u32, "16"@),
        (72u32, "32."@),
        (48u32, "32"@),
        (36u32, "64."@),
        (24u32, "64"@),
    ]
}

/// Length table without dotted lengths, used in compress mode.
pub open spec fn compress_table() -> Seq<(u32, Seq<char>)> {
    seq![
        (1536u32, "1"@),
        (768u32, "2"@),
        (384u32, "4"@),
        (192u32, "8"@),
        (96u32, "16"@),
        (48u32, "32"@),
        (24u32, "64"@),
    ]
}

/// The table selected by the mode flag: dotted lengths only in accuracy mode.
pub open spec fn length_table(compress_mode: bool) -> Seq<(u32, Seq<char>)> {
    if compress_mode {
        compress_table()
    } else {
        accuracy_table()
    }
}

/// Abstract view of an executable length table.
pub open spec fn view_table(t: Seq<(u32, String)>) -> Seq<(u32, Seq<char>)> {
    t.map_values(|p: (u32, String)| (p.0, p.1@))
}

/// Abstract view of an executable token list.
pub open spec fn tokens_view(r: Seq<(String, u32)>) -> Seq<(Seq<char>, u32)> {
    r.map_values(|p: (String, u32)| (p.0@, p.1))
}

/// All entries of a length table carry a positive tick count.
pub open spec fn table_positive(t: Seq<(u32, Seq<char>)>) -> bool {
    forall|j: int| 0 <= j < t.len() ==> (#[trigger] t[j]).0 > 0
}

/// Total tick count of a token list.
pub open spec fn tokens_ticks_sum(s: Seq<(Seq<char>, u32)>) -> int
    decreases s.len(),
{
    if s.len() == 0 {
        0
    } else {
        s[0].1 + tokens_ticks_sum(s.drop_first())
    }
}

/// The symbol mapped to an exact tick count, scanning the table in order.
pub open spec fn table_lookup(t: Seq<(u32, Seq<char>)>, ticks: u32) -> Option<Seq<char>>
    decreases t.len(),
{
    if t.len() == 0 {
        None
    } else if t[0].0 == ticks {
        Some(t[0].1)
    } else {
        table_lookup(t.drop_first(), ticks)
    }
}

/// Builds the table of encodable lengths: tick count to length symbol,
/// longest first. Compress mode leaves the dotted lengths out.
pub fn get_exact_lengths(compress_mode: bool) -> (r: Vec<(u32, String)>)
    ensures
        view_table(r@) == length_table(compress_mode),
{
    let mut v: Vec<(u32, String)> = Vec::new();
    if compress_mode {
        v.push((1536, String::from_str("1")));
        v.push((768, String::from_str("2")));
        v.push((384, String::from_str("4")));
        v.push((192, String::from_str("8")));
        v.push((96, String::from_str("16")));
        v.push((48, String::from_str("32")));
        v.push((24, String::from_str("64")));
        proof {
            assert(view_table(v@) =~= compress_table());
        }
    } else {
        v.push((2304, String::from_str("1.")));
        v.push((1536, String::from_str("1")));
        v.push((1152, String::from_str("2.")));
        v.push((768, String::from_str("2")));
        v.push((576, String::from_str("4.")));
        v.push((384, String::from_str("4")));
        v.push((288, String::from_str("8.")));
        v.push((192, String::from_str("8")));
        v.push((144, String::from_str("16.")));
        v.push((96, String::from_str("16")));
        v.push((72, String::from_str("32.")));
        v.push((48, String::from_str("32")));
        v.push((36, String::from_str("64.")));
        v.push((24, String::from_str("64")));
        proof {
            assert(view_table(v@) =~= accuracy_table());
        }
    }
    v
}

/// Nearest multiple of the grid unit.
pub open spec fn spec_snap_to_grid(tick: int) -> int {
    ((tick + 12) / 24) * 24
}

/// Snaps a tick to the nearest multiple of the grid unit.
pub fn snap_to_grid(tick: u32) -> (r: u32)
    requires
        tick <= u32::MAX - 12,
    ensures
        r == spec_snap_to_grid(tick as int),
        r <= tick + 12,
        r % 24 == 0,
{
    let shifted = tick + 12;
    let r = (shifted / 24) * 24;
    proof {
        assert(r <= shifted && r % 24 == 0) by (nonlinear_arith)
            requires
                r == (shifted / 24) * 24,
                shifted >= 0,
        ;
    }
    r
}

/// The token list for a duration that matches a table entry exactly.
pub fn find_exact_match(ticks: u32, exact_lengths: &Vec<(u32, String)>) -> (r: Option<
    Vec<(String, u32)>,
>)
    ensures
        match r {
            Some(v) => {
                &&& table_lookup(view_table(exact_lengths@), ticks) is Some
                &&& tokens_view(v@) == seq![
                    (table_lookup(view_table(exact_lengths@), ticks)->0, ticks),
                ]
            },
            None => table_lookup(view_table(exact_lengths@), ticks) is None,
        },
{
    let ghost t = view_table(exact_lengths@);
    proof {
        assert(t.skip(0) =~= t);
    }
    let mut i: usize = 0;
    while i < exact_lengths.len()
        invariant
            i <= exact_lengths@.len(),
            t == view_table(exact_lengths@),
            table_lookup(t, ticks) == table_lookup(t.skip(i as int), ticks),
        decreases exact_lengths@.len() - i,
    {
        if exact_lengths[i].0 == ticks {
            let sym = exact_lengths[i].1.clone();
            let out: Vec<(String, u32)> = vec![(sym, ticks)];
            proof {
                assert(t.skip(i as int)[0] == t[i as int]);
                assert(tokens_view(out@) =~= seq![(table_lookup(t, ticks)->0, ticks)]);
            }
            return Some(out);
        }
        proof {
            assert(t.skip(i as int).drop_first() =~= t.skip(i as int + 1));
            assert(t.skip(i as int)[0] == t[i as int]);
        }
        i = i + 1;
    }
    proof {
        assert(t.skip(i as int) =~= Seq::<(u32, Seq<char>)>::empty());
    }
    None
}

/// Lowers an optional tie budget by `c` segments.
pub open spec fn budget_dec(b: Option<int>, c: int) -> Option<int> {
    match b {
        None => None,
        Some(x) => Some(x - c),
    }
}

/// How many segments of a given length greedy decomposition takes here.
pub open spec fn count_at(len0: int, rem: int, b: Option<int>) -> int {
    let mc = rem / len0;
    match b {
        None => mc,
        Some(x) => if mc <= x {
            mc
        } else {
            x
        },
    }
}

/// Greedy tie decomposition over the table entries from `t`, with `rem`
/// ticks left to cover and an optional remaining segment budget.
pub open spec fn spec_ties_at(t: Seq<(u32, Seq<char>)>, rem: int, b: Option<int>) -> Seq<
    (Seq<char>, u32),
>
    decreases t.len(),
{
    if t.len() == 0 {
        Seq::empty()
    } else {
        let len0 = t[0].0 as int;
        let c = count_at(len0, rem, b);
        Seq::new(c as nat, |j: int| (t[0].1, t[0].0)) + spec_ties_at(
            t.drop_first(),
            rem - c * len0,
            budget_dec(b, c),
        )
    }
}

/// Ticks left uncovered by the unbounded greedy decomposition.
pub open spec fn spec_ties_rem(t: Seq<(u32, Seq<char>)>, rem: int) -> int
    decreases t.len(),
{
    if t.len() == 0 {
        rem
    } else {
        let c = rem / (t[0].0 as int);
        spec_ties_rem(t.drop_first(), rem - c * (t[0].0 as int))
    }
}

/// The greedy tie decomposition, with a single short default token when
/// nothing at all fits.
pub open spec fn spec_tie_combination(t: Seq<(u32, Seq<char>)>, ticks: int, b: Option<int>) -> Seq<
    (Seq<char>, u32),
> {
    let body = spec_ties_at(t, ticks, b);
    if body.len() == 0 {
        seq![("16"@, 96u32)]
    } else {
        body
    }
}

/// The tie budget as an optional mathematical integer.
pub open spec fn spec_budget(m: Option<usize>) -> Option<int> {
    match m {
        None => None,
        Some(x) => Some(x as int),
    }
}

proof fn lemma_ties_take_one(t: Seq<(u32, Seq<char>)>, rem: int, b: Option<int>)
    requires
        t.len() > 0,
        t[0].0 > 0,
        rem >= t[0].0,
        b is Some ==> b->0 >= 1,
    ensures
        spec_ties_at(t, rem, b) =~= seq![(t[0].1, t[0].0)] + spec_ties_at(
            t,
            rem - t[0].0,
            budget_dec(b, 1),
        ),
{
    let len0 = t[0].0 as int;
    let q = rem / len0;
    let r = rem % len0;
    vstd::arithmetic::div_mod::lemma_fundamental_div_mod(rem, len0);
    assert(rem == len0 * q + r);
    assert(rem - len0 == (q - 1) * len0 + r) by (nonlinear_arith)
        requires
            rem == len0 * q + r,
    ;
    assert(q >= 1) by (nonlinear_arith)
        requires
            rem == len0 * q + r,
            0 <= r < len0,
            rem >= len0,
            len0 > 0,
    ;
    vstd::arithmetic::div_mod::lemma_fundamental_div_mod_converse(rem - len0, len0, q - 1, r);
    assert((rem - len0) / len0 == q - 1);
    let c = count_at(len0, rem, b);
    let c2 = count_at(len0, rem - len0, budget_dec(b, 1));
    assert(c >= 1);
    assert(c2 == c - 1);
    assert(rem - c * len0 == (rem - len0) - c2 * len0) by (nonlinear_arith)
        requires
            c2 == c - 1,
    ;
    assert(budget_dec(b, c) == budget_dec(budget_dec(b, 1), c2));
    let f = |j: int| (t[0].1, t[0].0);
    assert(Seq::new(c as nat, f) =~= seq![(t[0].1, t[0].0)] + Seq::new(c2 as nat, f));
}

/// Greedy tie decomposition of `ticks`, longest table entries first, with an
/// optional cap on the number of tied segments; a single sixteenth-length
/// token when nothing in the table fits.
pub fn find_tie_combination(ticks: u32, max_ties: Option<usize>, exact_lengths: &Vec<
    (u32, String),
>) -> (r: Vec<(String, u32)>)
    requires
        table_positive(view_table(exact_lengths@)),
    ensures
        tokens_view(r@) == spec_tie_combination(
            view_table(exact_lengths@),
            ticks as int,
            spec_budget(max_ties),
        ),
{
    let ghost t = view_table(exact_lengths@);
    let ghost b0 = spec_budget(max_ties);
    let cap: usize = match max_ties {
        None => usize::MAX,
        Some(m) => m,
    };
    let mut result: Vec<(String, u32)> = Vec::new();
    let mut remaining: u32 = ticks;
    let mut tie_count: usize = 0;
    let mut i: usize = 0;
    proof {
        assert(t.skip(0) =~= t);
        assert(tokens_view(result@) + spec_ties_at(t, ticks as int, b0) =~= spec_ties_at(
            t,
            ticks as int,
            b0,
        ));
    }
    while i < exact_lengths.len()
        invariant
            i <= exact_lengths@.len(),
            t == view_table(exact_lengths@),
            b0 == spec_budget(max_ties),
            cap == (match max_ties {
                None => usize::MAX,
                Some(m) => m,
            }),
            table_positive(t),
            tie_count <= cap,
            tie_count as int <= ticks as int - remaining as int,
            spec_ties_at(t, ticks as int, b0) =~= tokens_view(result@) + spec_ties_at(
                t.skip(i as int),
                remaining as int,
                budget_dec(b0, tie_count as int),
            ),
        decreases exact_lengths@.len() - i,
    {
        let len_ticks: u32 = exact_lengths[i].0;
        proof {
            assert(t[i as int].0 == len_ticks && t[i as int].1 == exact_lengths@[i as int].1@);
        }
        while remaining >= len_ticks && tie_count < cap
            invariant
                i < exact_lengths@.len(),
                t == view_table(exact_lengths@),
                b0 == spec_budget(max_ties),
                cap == (match max_ties {
                    None => usize::MAX,
                    Some(m) => m,
                }),
                table_positive(t),
                len_ticks == t[i as int].0,
                tie_count <= cap,
                tie_count as int <= ticks as int - remaining as int,
                spec_ties_at(t, ticks as int, b0) =~= tokens_view(result@) + spec_ties_at(
                    t.skip(i as int),
                    remaining as int,
                    budget_dec(b0, tie_count as int),
                ),
            decreases remaining,
        {
            let sym = exact_lengths[i].1.clone();
            proof {
                assert(t.skip(i as int)[0] == t[i as int]);
                lemma_ties_take_one(
                    t.skip(i as int),
                    remaining as int,
                    budget_dec(b0, tie_count as int),
                );
            }
            let ghost old_result = result@;
            result.push((sym, len_ticks));
            remaining = remaining - len_ticks;
            tie_count = tie_count + 1;
            proof {
                assert(tokens_view(result@) =~= tokens_view(old_result) + seq![
                    (t[i as int].1, len_ticks),
                ]);
                assert(spec_ties_at(t, ticks as int, b0) =~= tokens_view(result@) + spec_ties_at(
                    t.skip(i as int),
                    remaining as int,
                    budget_dec(b0, tie_count as int),
                ));
            }
        }
        proof {
            let s = t.skip(i as int);
            let bl = budget_dec(b0, tie_count as int);
            if remaining < len_ticks {
                vstd::arithmetic::div_mod::lemma_basic_div(remaining as int, len_ticks as int);
                assert(count_at(s[0].0 as int, remaining as int, bl) == 0);
            } else {
                // the segment budget is exhausted
                if max_ties is None {
                    assert(remaining as int <= ticks as int - tie_count as int);
                    assert(remaining == 0);
                    vstd::arithmetic::div_mod::lemma_basic_div(0, len_ticks as int);
                    assert(count_at(s[0].0 as int, remaining as int, bl) == 0);
                } else {
                    assert(bl == Some(0int));
                    assert(count_at(s[0].0 as int, remaining as int, bl) == 0);
                }
            }
            assert(Seq::new(0nat, |j: int| (s[0].1, s[0].0)) =~= Seq::<(Seq<char>, u32)>::empty());
            assert(spec_ties_at(s, remaining as int, bl) =~= spec_ties_at(
                s.drop_first(),
                remaining as int,
                bl,
            ));
            assert(s.drop_first() =~= t.skip(i as int + 1));
        }
        i = i + 1;
    }
    proof {
        assert(t.skip(i as int) =~= Seq::<(u32, Seq<char>)>::empty());
        assert(tokens_view(result@) + Seq::<(Seq<char>, u32)>::empty() =~= tokens_view(result@));
    }
    if result.len() == 0 {
        let fallback: Vec<(String, u32)> = vec![(String::from_str("16"), 96u32)];
        proof {
            assert(tokens_view(result@).len() == 0);
            assert(tokens_view(fallback@) =~= seq![("16"@, 96u32)]);
        }
        return fallback;
    }
    proof {
        assert(tokens_view(result@).len() > 0);
    }
    result
}

/// Absolute difference.
pub open spec fn dist(a: int, b: int) -> int {
    if a >= b {
        a - b
    } else {
        b - a
    }
}

/// The first table entry among `t[..i]` whose tick count is nearest to
/// `ticks` (earlier entries win ties).
pub open spec fn closest_upto(t: Seq<(u32, Seq<char>)>, ticks: int, i: int) -> (u32, Seq<char>)
    recommends
        1 <= i <= t.len(),
    decreases i,
{
    if i <= 1 {
        t[0]
    } else {
        let prev = closest_upto(t, ticks, i - 1);
        let cand = t[i - 1];
        if dist(cand.0 as int, ticks) < dist(prev.0 as int, ticks) {
            cand
        } else {
            prev
        }
    }
}

/// The single length nearest to `ticks`; a sixteenth when the table is empty.
pub open spec fn spec_safe_approximation(t: Seq<(u32, Seq<char>)>, ticks: int) -> Seq<
    (Seq<char>, u32),
> {
    if t.len() == 0 {
        seq![("16"@, 96u32)]
    } else {
        let e = closest_upto(t, ticks, t.len() as int);
        seq![(e.1, e.0)]
    }
}

/// Picks the single table length closest to `ticks` (no ties emitted);
/// among equally near lengths the longer one wins.
pub fn find_safe_approximation(ticks: u32, exact_lengths: &Vec<(u32, String)>) -> (r: Vec<
    (String, u32),
>)
    ensures
        tokens_view(r@) == spec_safe_approximation(view_table(exact_lengths@), ticks as int),
{
    let ghost t = view_table(exact_lengths@);
    if exact_lengths.len() == 0 {
        let fallback: Vec<(String, u32)> = vec![(String::from_str("16"), 96u32)];
        proof {
            assert(tokens_view(fallback@) =~= seq![("16"@, 96u32)]);
        }
        return fallback;
    }
    let mut best_idx: usize = 0;
    let mut best_ticks: u32 = exact_lengths[0].0;
    let mut i: usize = 1;
    while i < exact_lengths.len()
        invariant
            1 <= i <= exact_lengths@.len(),
            t == view_table(exact_lengths@),
            t.len() == exact_lengths@.len(),
            best_idx < exact_lengths@.len(),
            closest_upto(t, ticks as int, i as int) == t[best_idx as int],
            best_ticks == t[best_idx as int].0,
        decreases exact_lengths@.len() - i,
    {
        let cand = exact_lengths[i].0;
        let cand_dist: u32 = if cand >= ticks {
            cand - ticks
        } else {
            ticks - cand
        };
        let best_dist: u32 = if best_ticks >= ticks {
            best_ticks - ticks
        } else {
            ticks - best_ticks
        };
        if cand_dist < best_dist {
            best_idx = i;
            best_ticks = cand;
        }
        i = i + 1;
    }
    let sym = exact_lengths[best_idx].1.clone();
    let out: Vec<(String, u32)> = vec![(sym, best_ticks)];
    proof {
        assert(tokens_view(out@) =~= seq![
            (t[best_idx as int].1, t[best_idx as int].0),
        ]);
    }
    out
}

/// The token list chosen for a duration at a given octave: an exact table
/// match when one exists; otherwise the closest single length in compress
/// mode; otherwise unlimited greedy ties up to octave 4; at octave 5 a
/// decomposition needing more than two tied segments is discarded in favour
/// of the closest single length, and above octave 5 only the closest single
/// length is used.
pub open spec fn spec_best_length(
    t: Seq<(u32, Seq<char>)>,
    ticks: u32,
    octave: int,
    compress_mode: bool,
) -> Seq<(Seq<char>, u32)> {
    match table_lookup(t, ticks) {
        Some(sym) => seq![(sym, ticks)],
        None => if compress_mode {
            spec_safe_approximation(t, ticks as int)
        } else if octave <= 4 {
            spec_tie_combination(t, ticks as int, None)
        } else if octave == 5 {
            let full = spec_tie_combination(t, ticks as int, None);
            if full.len() <= 2 {
                full
            } else {
                spec_safe_approximation(t, ticks as int)
            }
        } else {
            spec_safe_approximation(t, ticks as int)
        },
    }
}

/// Chooses the token list for a duration at a given octave, trading tie
/// precision for smoothness as the octave rises.
pub fn find_best_length(
    ticks: u32,
    octave: i32,
    exact_lengths: &Vec<(u32, String)>,
    compress_mode: bool,
) -> (r: Vec<(String, u32)>)
    requires
        table_positive(view_table(exact_lengths@)),
    ensures
        tokens_view(r@) == spec_best_length(
            view_table(exact_lengths@),
            ticks,
            octave as int,
            compress_mode,
        ),
{
    if let Some(exact) = find_exact_match(ticks, exact_lengths) {
        return exact;
    }
    if compress_mode {
        return find_safe_approximation(ticks, exact_lengths);
    }
    if octave <= 4 {
        find_tie_combination(ticks, None, exact_lengths)
    } else if octave == 5 {
        let ties = find_tie_combination(ticks, None, exact_lengths);
        if ties.len() <= 2 {
            ties
        } else {
            find_safe_approximation(ticks, exact_lengths)
        }
    } else {
        find_safe_approximation(ticks, exact_lengths)
    }
}

proof fn lemma_sum_concat(a: Seq<(Seq<char>, u32)>, b: Seq<(Seq<char>, u32)>)
    ensures
        tokens_ticks_sum(a + b) == tokens_ticks_sum(a) + tokens_ticks_sum(b),
    decreases a.len(),
{
    if a.len() == 0 {
        assert(a + b =~= b);
    } else {
        assert((a + b).drop_first() =~= a.drop_first() + b);
        lemma_sum_concat(a.drop_first(), b);
    }
}

proof fn lemma_const_sum(c: nat, sym: Seq<char>, e: u32)
    ensures
        tokens_ticks_sum(Seq::new(c, |j: int| (sym, e))) == c * e,
    decreases c,
{
    let s = Seq::new(c, |j: int| (sym, e));
    if c == 0 {
        assert(s.len() == 0);
    } else {
        let s2 = Seq::new((c - 1) as nat, |j: int| (sym, e));
        assert(s.drop_first() =~= s2);
        lemma_const_sum((c - 1) as nat, sym, e);
        assert(c * e == e + (c - 1) * e) by (nonlinear_arith)
            requires
                c >= 1,
        ;
    }
}

proof fn lemma_ties_at_sum(t: Seq<(u32, Seq<char>)>, rem: int)
    requires
        table_positive(t),
        rem >= 0,
    ensures
        0 <= spec_ties_rem(t, rem) <= rem,
        tokens_ticks_sum(spec_ties_at(t, rem, None)) == rem - spec_ties_rem(t, rem),
    decreases t.len(),
{
    if t.len() == 0 {
    } else {
        let len0 = t[0].0 as int;
        let c = rem / len0;
        vstd::arithmetic::div_mod::lemma_fundamental_div_mod(rem, len0);
        assert(0 <= rem - c * len0 < len0) by (nonlinear_arith)
            requires
                rem == len0 * c + rem % len0,
                0 <= rem % len0 < len0,
    ;
        assert(count_at(len0, rem, None) == c);
        lemma_ties_at_sum(t.drop_first(), rem - c * len0);
        lemma_const_sum(c as nat, t[0].1, t[0].0);
        lemma_sum_concat(
            Seq::new(c as nat, |j: int| (t[0].1, t[0].0)),
            spec_ties_at(t.drop_first(), rem - c * len0, None),
        );
    }
}

proof fn lemma_rem_concat(a: Seq<(u32, Seq<char>)>, b: Seq<(u32, Seq<char>)>, rem: int)
    ensures
        spec_ties_rem(a + b, rem) == spec_ties_rem(b, spec_ties_rem(a, rem)),
    decreases a.len(),
{
    if a.len() == 0 {
        assert(a + b =~= b);
    } else {
        assert((a + b).drop_first() =~= a.drop_first() + b);
        let len0 = a[0].0 as int;
        let c = rem / len0;
        lemma_rem_concat(a.drop_first(), b, rem - c * len0);
    }
}

proof fn lemma_rem_mult24(t: Seq<(u32, Seq<char>)>, rem: int)
    requires
        table_positive(t),
        forall|j: int| 0 <= j < t.len() ==> (#[trigger] t[j]).0 % 24 == 0,
        rem >= 0,
        rem % 24 == 0,
    ensures
        0 <= spec_ties_rem(t, rem) <= rem,
        spec_ties_rem(t, rem) % 24 == 0,
    decreases t.len(),
{
    if t.len() == 0 {
    } else {
        let len0 = t[0].0 as int;
        let c = rem / len0;
        vstd::arithmetic::div_mod::lemma_fundamental_div_mod(rem, len0);
        assert(0 <= rem - c * len0 < len0) by (nonlinear_arith)
            requires
                rem == len0 * c + rem % len0,
                0 <= rem % len0 < len0,
        ;
        let rem2 = rem - c * len0;
        assert(t[0].0 % 24 == 0);
        let k = len0 / 24;
        assert(len0 == 24 * k);
        let ck = c * k;
        assert(c * len0 == 24 * ck) by (nonlinear_arith)
            requires
                len0 == 24 * k,
                ck == c * k,
        ;
        vstd::arithmetic::div_mod::lemma_mod_multiples_vanish(-ck, rem, 24);
        assert(rem2 % 24 == 0);
        lemma_rem_mult24(t.drop_first(), rem2);
    }
}

proof fn lemma_rem_below_last(t: Seq<(u32, Seq<char>)>, rem: int)
    requires
        table_positive(t),
        t.len() > 0,
        rem >= 0,
    ensures
        spec_ties_rem(t, rem) < t.last().0,
        spec_ties_rem(t, rem) >= 0,
    decreases t.len(),
{
    let len0 = t[0].0 as int;
    let c = rem / len0;
    vstd::arithmetic::div_mod::lemma_fundamental_div_mod(rem, len0);
    assert(0 <= rem - c * len0 < len0) by (nonlinear_arith)
        requires
            rem == len0 * c + rem % len0,
            0 <= rem % len0 < len0,
    ;
    let rem2 = rem - c * len0;
    if t.len() == 1 {
        assert(t.last() == t[0]);
        assert(spec_ties_rem(t.drop_first(), rem2) == rem2);
    } else {
        assert(t.drop_first().last() == t.last());
        lemma_rem_below_last(t.drop_first(), rem2);
    }
}

proof fn lemma_single_sum(sym: Seq<char>, e: u32)
    ensures
        tokens_ticks_sum(seq![(sym, e)]) == e,
{
    assert(seq![(sym, e)].drop_first() =~= Seq::<(Seq<char>, u32)>::empty());
    assert(tokens_ticks_sum(Seq::<(Seq<char>, u32)>::empty()) == 0);
}

proof fn lemma_closest_in(t: Seq<(u32, Seq<char>)>, ticks: int, i: int)
    requires
        1 <= i <= t.len(),
    ensures
        exists|k: int| 0 <= k < i && closest_upto(t, ticks, i) == t[k],
    decreases i,
{
    if i <= 1 {
        assert(closest_upto(t, ticks, i) == t[0]);
    } else {
        lemma_closest_in(t, ticks, i - 1);
        if closest_upto(t, ticks, i) == t[i - 1] {
        } else {
            assert(closest_upto(t, ticks, i) == closest_upto(t, ticks, i - 1));
        }
    }
}

/// Both length tables hold only positive entries, none longer than the
/// dotted whole length.
pub proof fn lemma_table_facts(compress_mode: bool)
    ensures
        table_positive(length_table(compress_mode)),
        forall|j: int|
            0 <= j < length_table(compress_mode).len() ==> (#[trigger] length_table(
                compress_mode,
            )[j]).0 <= 2304,
{
}

/// The token list the quantizer picks is never empty, and its total tick
/// count lies between zero and the requested duration plus one dotted
/// whole length.
pub proof fn lemma_best_length_bounds(ticks: u32, octave: int, compress_mode: bool)
    ensures
        spec_best_length(length_table(compress_mode), ticks, octave, compress_mode).len() >= 1,
        0 <= tokens_ticks_sum(
            spec_best_length(length_table(compress_mode), ticks, octave, compress_mode),
        ) <= ticks + 2304,
{
    let t = length_table(compress_mode);
    lemma_table_facts(compress_mode);
    match table_lookup(t, ticks) {
        Some(sym) => {
            lemma_single_sum(sym, ticks);
        },
        None => {
            let approx = spec_safe_approximation(t, ticks as int);
            assert(t.len() > 0);
            lemma_closest_in(t, ticks as int, t.len() as int);
            let e = closest_upto(t, ticks as int, t.len() as int);
            assert(e.0 <= 2304 && e.0 > 0);
            lemma_single_sum(e.1, e.0);
            assert(tokens_ticks_sum(approx) == e.0);
            let body = spec_ties_at(t, ticks as int, None);
            lemma_ties_at_sum(t, ticks as int);
            if body.len() == 0 {
                lemma_single_sum("16"@, 96);
            }
        },
    }
}

/// Tie-chain round trip: up to octave 4 in accuracy mode, the tokens the
/// quantizer returns for a grid-aligned duration of at least one grid unit
/// sum to exactly that duration.
pub proof fn lemma_tie_chain_round_trip(d: u32, octave: int)
    requires
        octave <= 4,
        d >= 24,
        d % 24 == 0,
    ensures
        tokens_ticks_sum(spec_best_length(accuracy_table(), d, octave, false)) == d,
{
    let t = accuracy_table();
    assert(table_positive(t));
    match table_lookup(t, d) {
        Some(sym) => {
            let s = seq![(sym, d)];
            assert(s.drop_first() =~= Seq::<(Seq<char>, u32)>::empty());
            assert(tokens_ticks_sum(Seq::<(Seq<char>, u32)>::empty()) == 0);
            assert(tokens_ticks_sum(s) == d);
        },
        None => {
            lemma_ties_at_sum(t, d as int);
            // The remainder of the greedy decomposition is zero: the twelve
            // longest entries are multiples of the grid unit and leave a
            // grid-aligned remainder below 48, which the dotted 64th (36
            // ticks) cannot touch and the plain 64th (24 ticks) clears.
            let pre = t.subrange(0, 12);
            let suf = t.subrange(12, 14);
            assert(t =~= pre + suf);
            assert(table_positive(pre));
            assert forall|j: int| 0 <= j < pre.len() implies (#[trigger] pre[j]).0 % 24 == 0 by {
                assert(pre[j] == t[j]);
                if j == 0 {
                    assert(t[0].0 % 24 == 0);
                } else if j == 1 {
                    assert(t[1].0 % 24 == 0);
                } else if j == 2 {
                    assert(t[2].0 % 24 == 0);
                } else if j == 3 {
                    assert(t[3].0 % 24 == 0);
                } else if j == 4 {
                    assert(t[4].0 % 24 == 0);
                } else if j == 5 {
                    assert(t[5].0 % 24 == 0);
                } else if j == 6 {
                    assert(t[6].0 % 24 == 0);
                } else if j == 7 {
                    assert(t[7].0 % 24 == 0);
                } else if j == 8 {
                    assert(t[8].0 % 24 == 0);
                } else if j == 9 {
                    assert(t[9].0 % 24 == 0);
                } else if j == 10 {
                    assert(t[10].0 % 24 == 0);
                } else {
                    assert(j == 11);
                    assert(t[11].0 % 24 == 0);
                }
            }
            lemma_rem_concat(pre, suf, d as int);
            lemma_rem_mult24(pre, d as int);
            lemma_rem_below_last(pre, d as int);
            let r12 = spec_ties_rem(pre, d as int);
            assert(pre.last() == t[11]);
            assert(r12 < 48 && r12 >= 0 && r12 % 24 == 0);
            assert(r12 == 0 || r12 == 24);
            // the dotted 64th entry leaves the remainder unchanged
            assert(suf[0].0 == 36);
            vstd::arithmetic::div_mod::lemma_basic_div(r12, 36);
            assert(r12 / 36 == 0);
            let suf2 = suf.drop_first();
            assert(spec_ties_rem(suf, r12) == spec_ties_rem(suf2, r12 - (r12 / 36) * 36));
            assert(r12 - (r12 / 36) * 36 == r12);
            // the plain 64th entry clears it
            assert(suf2[0].0 == 24);
            let c24 = r12 / 24;
            vstd::arithmetic::div_mod::lemma_fundamental_div_mod(r12, 24);
            assert(r12 - c24 * 24 == r12 % 24) by (nonlinear_arith)
                requires
                    r12 == 24 * c24 + r12 % 24,
            ;
            assert(suf2.drop_first() =~= Seq::<(u32, Seq<char>)>::empty());
            assert(spec_ties_rem(Seq::<(u32, Seq<char>)>::empty(), r12 - c24 * 24) == r12 - c24
                * 24);
            assert(spec_ties_rem(suf2, r12) == r12 % 24);
            assert(spec_ties_rem(t, d as int) == 0);
            let body = spec_ties_at(t, d as int, None);
            assert(tokens_ticks_sum(body) == d);
            assert(body.len() > 0);
            assert(spec_tie_combination(t, d as int, None) == body);
        },
    }
}

} // verus!
