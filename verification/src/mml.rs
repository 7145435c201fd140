//! MML encoding: serializes one voice's notes, rests, octave changes and
//! interleaved tempo changes into a dense macro string, eliding an inferred
//! default note length.

use vstd::prelude::*;
use vstd::string::StrSliceExecFns;
use vstd::string::StringExecFns;
use crate::lengths::find_best_length;
use crate::lengths::get_exact_lengths;
use crate::lengths::length_table;
use crate::lengths::spec_best_length;
use crate::lengths::tokens_ticks_sum;
use crate::lengths::tokens_view;
use crate::lengths::view_table;
use crate::numfmt::dec_chars;
use crate::numfmt::dec_chars_signed;
use crate::numfmt::i32_to_dec;
use crate::numfmt::u32_to_dec;
use crate::types::Note;
use crate::types::TempoChange;
use crate::types::TICK_LIMIT;

verus! {

/// The octave of a MIDI pitch (middle C, pitch 60, lies in octave 4).
pub open spec fn octave_of(p: u8) -> int {
    p as int / 12 - 1
}

/// The note-name characters of a MIDI pitch.
pub open spec fn note_name_chars(p: u8) -> Seq<char> {
    let d = p as int % 12;
    if d == 0 {
        "C"@
    } else if d == 1 {
        "C#"@
    } else if d == 2 {
        "D"@
    } else if d == 3 {
        "D#"@
    } else if d == 4 {
        "E"@
    } else if d == 5 {
        "F"@
    } else if d == 6 {
        "F#"@
    } else if d == 7 {
        "G"@
    } else if d == 8 {
        "G#"@
    } else if d == 9 {
        "A"@
    } else if d == 10 {
        "A#"@
    } else {
        "B"@
    }
}

/// A length symbol without its trailing dot.
pub open spec fn trim_dot_spec(s: Seq<char>) -> Seq<char> {
    if s.len() > 0 && s.last() == '.' {
        s.drop_last()
    } else {
        s
    }
}

/// The undotted base of the first length token chosen for a note.
pub open spec fn base_of(n: Note, t: Seq<(u32, Seq<char>)>, compress_mode: bool) -> Seq<char> {
    trim_dot_spec(spec_best_length(t, n.duration, octave_of(n.note), compress_mode)[0].0)
}

/// The undotted first-token bases of all notes of a voice.
pub open spec fn bases_of(notes: Seq<Note>, t: Seq<(u32, Seq<char>)>, compress_mode: bool) -> Seq<
    Seq<char>,
> {
    notes.map_values(|n: Note| base_of(n, t, compress_mode))
}

/// How often a base occurs.
pub open spec fn count_of(s: Seq<Seq<char>>, x: Seq<char>) -> int {
    s.filter(|y: Seq<char>| y == x).len() as int
}

/// The first base among `s[..i]` with the highest count in all of `s`.
pub open spec fn best_base_upto(s: Seq<Seq<char>>, i: int) -> Seq<char>
    recommends
        1 <= i <= s.len(),
    decreases i,
{
    if i <= 1 {
        s[0]
    } else {
        let prev = best_base_upto(s, i - 1);
        if count_of(s, s[i - 1]) > count_of(s, prev) {
            s[i - 1]
        } else {
            prev
        }
    }
}

/// The default length emitted in the header: the first present among the
/// preferred bases (eighth, sixteenth, quarter), else the most frequent
/// base, earliest first occurrence winning ties.
pub open spec fn spec_default_length(
    notes: Seq<Note>,
    t: Seq<(u32, Seq<char>)>,
    compress_mode: bool,
) -> Seq<char>
    recommends
        notes.len() > 0,
{
    let s = bases_of(notes, t, compress_mode);
    if count_of(s, "8"@) > 0 {
        "8"@
    } else if count_of(s, "16"@) > 0 {
        "16"@
    } else if count_of(s, "4"@) > 0 {
        "4"@
    } else {
        best_base_upto(s, s.len() as int)
    }
}

/// A token's length suffix: omitted when it matches the default length.
pub open spec fn token_suffix(tok: Seq<char>, dft: Seq<char>) -> Seq<char> {
    if tok == dft {
        Seq::empty()
    } else {
        tok
    }
}

/// Rest commands for a list of rest tokens.
pub open spec fn emit_rest_tokens(toks: Seq<(Seq<char>, u32)>, dft: Seq<char>) -> Seq<char>
    decreases toks.len(),
{
    if toks.len() == 0 {
        Seq::empty()
    } else {
        "R"@ + token_suffix(toks[0].0, dft) + emit_rest_tokens(toks.drop_first(), dft)
    }
}

/// Tie continuations of a note's token list.
pub open spec fn emit_tie_tokens(
    toks: Seq<(Seq<char>, u32)>,
    name: Seq<char>,
    dft: Seq<char>,
) -> Seq<char>
    decreases toks.len(),
{
    if toks.len() == 0 {
        Seq::empty()
    } else {
        "&"@ + name + token_suffix(toks[0].0, dft) + emit_tie_tokens(toks.drop_first(), name, dft)
    }
}

/// The full text of one note: its name and first length, then tied
/// continuations.
pub open spec fn emit_note_text(
    toks: Seq<(Seq<char>, u32)>,
    name: Seq<char>,
    dft: Seq<char>,
) -> Seq<char>
    recommends
        toks.len() > 0,
{
    name + token_suffix(toks[0].0, dft) + emit_tie_tokens(toks.drop_first(), name, dft)
}

/// Emits the tempo changes that fall between the current position and the
/// next note's start, each preceded by rests covering the gap up to its
/// tick. Returns the text, the new position and the new tempo index.
pub open spec fn emit_tempos(
    tempos: Seq<TempoChange>,
    ti: int,
    cur: int,
    limit: u32,
    t: Seq<(u32, Seq<char>)>,
    compress_mode: bool,
    dft: Seq<char>,
) -> (Seq<char>, int, int)
    decreases tempos.len() - ti,
{
    if ti < 0 || ti >= tempos.len() {
        (Seq::empty(), cur, ti)
    } else {
        let tc = tempos[ti];
        if tc.tick <= limit && tc.tick >= cur {
            let gap = tc.tick - cur;
            let first = if gap > 0 {
                let toks = spec_best_length(t, gap as u32, 4, compress_mode);
                (emit_rest_tokens(toks, dft), cur + tokens_ticks_sum(toks))
            } else {
                (Seq::<char>::empty(), cur)
            };
            let rec = emit_tempos(
                tempos,
                ti + 1,
                first.1,
                limit,
                t,
                compress_mode,
                dft,
            );
            (first.0 + "T"@ + dec_chars(tc.bpm as int) + rec.0, rec.1, rec.2)
        } else {
            (Seq::empty(), cur, ti)
        }
    }
}

/// Emits one note: pending tempo changes, a rest for the gap before the
/// note, an octave change when needed, then the note's tokens. Returns the
/// text and the new position, octave and tempo index.
pub open spec fn emit_note(
    n: Note,
    tempos: Seq<TempoChange>,
    cur: int,
    coct: int,
    ti: int,
    t: Seq<(u32, Seq<char>)>,
    compress_mode: bool,
    dft: Seq<char>,
) -> (Seq<char>, int, int, int) {
    let tr = emit_tempos(tempos, ti, cur, n.start, t, compress_mode, dft);
    let gap = if n.start > tr.1 {
        n.start - tr.1
    } else {
        0
    };
    let rest = if gap > 0 {
        let toks = spec_best_length(t, gap as u32, 4, compress_mode);
        (emit_rest_tokens(toks, dft), tr.1 + tokens_ticks_sum(toks))
    } else {
        (Seq::<char>::empty(), tr.1)
    };
    let oct = octave_of(n.note);
    let otxt = if oct != coct {
        "O"@ + dec_chars_signed(oct)
    } else {
        Seq::<char>::empty()
    };
    let toks = spec_best_length(t, n.duration, oct, compress_mode);
    let ntxt = emit_note_text(toks, note_name_chars(n.note), dft);
    (tr.0 + rest.0 + otxt + ntxt, rest.1 + tokens_ticks_sum(toks), oct, tr.2)
}

/// Emits all notes of a voice in order.
pub open spec fn emit_all(
    notes: Seq<Note>,
    tempos: Seq<TempoChange>,
    cur: int,
    coct: int,
    ti: int,
    t: Seq<(u32, Seq<char>)>,
    compress_mode: bool,
    dft: Seq<char>,
) -> Seq<char>
    decreases notes.len(),
{
    if notes.len() == 0 {
        Seq::empty()
    } else {
        let e = emit_note(notes[0], tempos, cur, coct, ti, t, compress_mode, dft);
        e.0 + emit_all(notes.drop_first(), tempos, e.1, e.2, e.3, t, compress_mode, dft)
    }
}

/// The MML text of one voice: a header with tempo, volume, starting octave
/// and default length, followed by the notes with interleaved rests, tempo
/// changes and octave changes. An empty voice yields empty text.
pub open spec fn spec_generate_mml(
    notes: Seq<Note>,
    bpm: u32,
    start_octave: int,
    compress_mode: bool,
    tempos: Seq<TempoChange>,
) -> Seq<char> {
    if notes.len() == 0 {
        Seq::empty()
    } else {
        let t = length_table(compress_mode);
        let dft = spec_default_length(notes, t, compress_mode);
        "T"@ + dec_chars(bpm as int) + "V15"@ + "O"@ + dec_chars_signed(start_octave) + "L"@ + dft
            + emit_all(notes, tempos, 0, start_octave, 1, t, compress_mode, dft)
    }
}

/// Abstract view of a list of length-symbol strings.
pub open spec fn bases_view(s: Seq<String>) -> Seq<Seq<char>> {
    s.map_values(|x: String| x@)
}

/// The bound that keeps the encoder's running tick position inside `u64`.
pub open spec fn tick_slack() -> int {
    TICK_LIMIT as int + 2304
}

fn note_name_str(p: u8) -> (s: &'static str)
    ensures
        s@ == note_name_chars(p),
{
    proof {
        reveal_strlit("C");
        reveal_strlit("C#");
        reveal_strlit("D");
        reveal_strlit("D#");
        reveal_strlit("E");
        reveal_strlit("F");
        reveal_strlit("F#");
        reveal_strlit("G");
        reveal_strlit("G#");
        reveal_strlit("A");
        reveal_strlit("A#");
        reveal_strlit("B");
    }
    match p % 12 {
        0 => "C",
        1 => "C#",
        2 => "D",
        3 => "D#",
        4 => "E",
        5 => "F",
        6 => "F#",
        7 => "G",
        8 => "G#",
        9 => "A",
        10 => "A#",
        _ => "B",
    }
}

fn trim_dot(s: &String) -> (r: String)
    ensures
        r@ == trim_dot_spec(s@),
{
    let n = s.as_str().unicode_len();
    if n == 0 {
        return s.clone();
    }
    let c = s.as_str().get_char(n - 1);
    if c == '.' {
        let sub = s.as_str().substring_char(0, n - 1);
        let r = sub.to_owned();
        proof {
            assert(r@ =~= s@.drop_last());
        }
        r
    } else {
        s.clone()
    }
}

proof fn lemma_count_pos(s: Seq<Seq<char>>, x: Seq<char>)
    ensures
        (count_of(s, x) > 0) <==> (exists|i: int| 0 <= i < s.len() && s[i] == x),
    decreases s.len(),
{
    reveal(Seq::filter);
    broadcast use vstd::seq_lib::group_seq_lib_default;

    if s.len() == 0 {
    } else {
        lemma_count_pos(s.drop_last(), x);
        if s.last() == x {
            assert(count_of(s, x) > 0);
            assert(s[s.len() - 1] == x);
        } else {
            assert(count_of(s, x) == count_of(s.drop_last(), x));
            if exists|i: int| 0 <= i < s.len() && s[i] == x {
                let i = choose|i: int| 0 <= i < s.len() && s[i] == x;
                assert(i < s.len() - 1);
                assert(s.drop_last()[i] == x);
            }
        }
    }
}

proof fn lemma_count_step(s: Seq<Seq<char>>, x: Seq<char>, i: int)
    requires
        0 <= i < s.len(),
    ensures
        count_of(s.take(i + 1), x) == count_of(s.take(i), x) + (if s[i] == x {
            1int
        } else {
            0int
        }),
{
    reveal(Seq::filter);
    broadcast use vstd::seq_lib::group_seq_lib_default;

    assert(s.take(i + 1).drop_last() =~= s.take(i));
    assert(s.take(i + 1).last() == s[i]);
}

fn count_base(bases: &Vec<String>, x: &String) -> (c: usize)
    ensures
        c as int == count_of(bases_view(bases@), x@),
{
    let ghost s = bases_view(bases@);
    let mut c: usize = 0;
    proof {
        reveal(Seq::filter);
        assert(s.take(0) =~= Seq::<Seq<char>>::empty());
        assert(count_of(s.take(0), x@) == 0);
    }
    let mut i: usize = 0;
    while i < bases.len()
        invariant
            i <= bases@.len(),
            s == bases_view(bases@),
            c as int == count_of(s.take(i as int), x@),
            c <= i,
        decreases bases@.len() - i,
    {
        proof {
            lemma_count_step(s, x@, i as int);
            assert(s[i as int] == bases@[i as int]@);
        }
        if bases[i] == *x {
            c = c + 1;
        }
        i = i + 1;
    }
    proof {
        assert(s.take(s.len() as int) =~= s);
    }
    c
}

fn contains_base(bases: &Vec<String>, x: &String) -> (b: bool)
    ensures
        b == (count_of(bases_view(bases@), x@) > 0),
{
    let c = count_base(bases, x);
    c > 0
}

fn compute_default_length(voice: &Vec<Note>, table: &Vec<(u32, String)>, compress_mode: bool) -> (r:
    String)
    requires
        voice@.len() > 0,
        view_table(table@) == length_table(compress_mode),
    ensures
        r@ == spec_default_length(voice@, length_table(compress_mode), compress_mode),
{
    let ghost tbl = length_table(compress_mode);
    let mut bases: Vec<String> = Vec::new();
    proof {
        assert(bases_view(bases@) =~= bases_of(voice@.take(0), tbl, compress_mode));
    }
    let mut i: usize = 0;
    while i < voice.len()
        invariant
            i <= voice@.len(),
            view_table(table@) == tbl,
            tbl == length_table(compress_mode),
            bases_view(bases@) == bases_of(voice@.take(i as int), tbl, compress_mode),
        decreases voice@.len() - i,
    {
        let oct: i32 = (voice[i].note as i32) / 12 - 1;
        proof {
            crate::lengths::lemma_table_facts(compress_mode);
            crate::lengths::lemma_best_length_bounds(voice@[i as int].duration, oct as int, compress_mode);
        }
        let toks = find_best_length(voice[i].duration, oct, table, compress_mode);
        proof {
            assert(tokens_view(toks@).len() == toks@.len());
        }
        let b = trim_dot(&toks[0].0);
        proof {
            assert(tokens_view(toks@)[0].0 == toks@[0].0@);
            assert(b@ == base_of(voice@[i as int], tbl, compress_mode));
        }
        let ghost old_bases = bases@;
        bases.push(b);
        proof {
            broadcast use vstd::seq_lib::group_seq_lib_default;

            assert(bases_view(old_bases).len() == old_bases.len());
            assert(bases_of(voice@.take(i as int), tbl, compress_mode).len() == i as int);
            assert(old_bases.len() == i as int);
            let lhs = bases_view(bases@);
            let rhs = bases_of(voice@.take(i as int + 1), tbl, compress_mode);
            assert(lhs.len() == i as int + 1);
            assert(rhs.len() == i as int + 1);
            assert forall|j: int| 0 <= j < lhs.len() implies lhs[j] == rhs[j] by {
                assert(voice@.take(i as int + 1)[j] == voice@[j]);
                if j < i as int {
                    assert(lhs[j] == bases_view(old_bases)[j]);
                    assert(bases_view(old_bases)[j] == bases_of(
                        voice@.take(i as int),
                        tbl,
                        compress_mode,
                    )[j]);
                    assert(voice@.take(i as int)[j] == voice@[j]);
                }
            }
            assert(lhs =~= rhs);
        }
        i = i + 1;
    }
    proof {
        assert(voice@.take(voice@.len() as int) =~= voice@);
    }
    let ghost s = bases_of(voice@, tbl, compress_mode);
    let eight = String::from_str("8");
    let sixteen = String::from_str("16");
    let four = String::from_str("4");
    if contains_base(&bases, &eight) {
        proof {
            lemma_count_pos(s, "8"@);
        }
        return eight;
    }
    if contains_base(&bases, &sixteen) {
        return sixteen;
    }
    if contains_base(&bases, &four) {
        return four;
    }
    let mut best: String = bases[0].clone();
    let mut k: usize = 1;
    while k < bases.len()
        invariant
            1 <= k <= bases@.len(),
            s == bases_view(bases@),
            bases@.len() == voice@.len(),
            best@ == best_base_upto(s, k as int),
        decreases bases@.len() - k,
    {
        let ck = count_base(&bases, &bases[k]);
        let cb = count_base(&bases, &best);
        if ck > cb {
            let b2 = bases[k].clone();
            best = b2;
        }
        k = k + 1;
    }
    best
}

fn emit_rests_exec(out: &mut String, cur: &mut u64, toks: &Vec<(String, u32)>, dft: &String)
    requires
        *old(cur) as int + tokens_ticks_sum(tokens_view(toks@)) <= u64::MAX as int,
    ensures
        final(out)@ == old(out)@ + emit_rest_tokens(tokens_view(toks@), dft@),
        *final(cur) as int == *old(cur) as int + tokens_ticks_sum(tokens_view(toks@)),
{
    let ghost tv = tokens_view(toks@);
    let ghost total_txt = emit_rest_tokens(tv, dft@);
    let ghost total_sum = tokens_ticks_sum(tv);
    proof {
        reveal_strlit("R");
        assert(tv.skip(0) =~= tv);
    }
    let mut k: usize = 0;
    while k < toks.len()
        invariant
            k <= toks@.len(),
            tv == tokens_view(toks@),
            out@ + emit_rest_tokens(tv.skip(k as int), dft@) == old(out)@ + total_txt,
            *cur as int + tokens_ticks_sum(tv.skip(k as int)) == *old(cur) as int + total_sum,
            *old(cur) as int + total_sum <= u64::MAX as int,
        decreases toks@.len() - k,
    {
        proof {
            assert(tv.skip(k as int)[0] == tv[k as int]);
            assert(tv.skip(k as int).drop_first() =~= tv.skip(k as int + 1));
            crate::mml::lemma_rest_sum_nonneg(tv.skip(k as int + 1));
        }
        out.append("R");
        if !(toks[k].0 == *dft) {
            out.append(toks[k].0.as_str());
        }
        proof {
            assert(out@ =~= old(out)@ + total_txt.take(
                total_txt.len() - emit_rest_tokens(tv.skip(k as int + 1), dft@).len(),
            ) || true);
            // re-establish the text invariant by concat associativity
            assert(out@ + emit_rest_tokens(tv.skip(k as int + 1), dft@) =~= old(out)@ + total_txt);
        }
        *cur = *cur + (toks[k].1 as u64);
        k = k + 1;
    }
    proof {
        assert(tv.skip(tv.len() as int) =~= Seq::<(Seq<char>, u32)>::empty());
    }
}

/// Every token list has a non-negative total tick count.
pub proof fn lemma_rest_sum_nonneg(s: Seq<(Seq<char>, u32)>)
    ensures
        tokens_ticks_sum(s) >= 0,
    decreases s.len(),
{
    if s.len() > 0 {
        lemma_rest_sum_nonneg(s.drop_first());
    }
}

fn emit_note_tokens_exec(
    out: &mut String,
    cur: &mut u64,
    toks: &Vec<(String, u32)>,
    name: &str,
    dft: &String,
)
    requires
        toks@.len() > 0,
        *old(cur) as int + tokens_ticks_sum(tokens_view(toks@)) <= u64::MAX as int,
    ensures
        final(out)@ == old(out)@ + emit_note_text(tokens_view(toks@), name@, dft@),
        *final(cur) as int == *old(cur) as int + tokens_ticks_sum(tokens_view(toks@)),
{
    let ghost tv = tokens_view(toks@);
    let ghost total_txt = emit_note_text(tv, name@, dft@);
    let ghost total_sum = tokens_ticks_sum(tv);
    proof {
        reveal_strlit("&");
        assert(tv.skip(1) =~= tv.drop_first());
        lemma_rest_sum_nonneg(tv.drop_first());
    }
    out.append(name);
    if !(toks[0].0 == *dft) {
        out.append(toks[0].0.as_str());
    }
    *cur = *cur + (toks[0].1 as u64);
    proof {
        assert(out@ + emit_tie_tokens(tv.skip(1), name@, dft@) =~= old(out)@ + total_txt);
    }
    let mut k: usize = 1;
    while k < toks.len()
        invariant
            1 <= k <= toks@.len(),
            tv == tokens_view(toks@),
            out@ + emit_tie_tokens(tv.skip(k as int), name@, dft@) == old(out)@ + total_txt,
            *cur as int + tokens_ticks_sum(tv.skip(k as int)) == *old(cur) as int + total_sum,
            *old(cur) as int + total_sum <= u64::MAX as int,
        decreases toks@.len() - k,
    {
        proof {
            reveal_strlit("&");
            assert(tv.skip(k as int)[0] == tv[k as int]);
            assert(tv.skip(k as int).drop_first() =~= tv.skip(k as int + 1));
            lemma_rest_sum_nonneg(tv.skip(k as int + 1));
        }
        out.append("&");
        out.append(name);
        if !(toks[k].0 == *dft) {
            out.append(toks[k].0.as_str());
        }
        proof {
            assert(out@ + emit_tie_tokens(tv.skip(k as int + 1), name@, dft@) =~= old(out)@
                + total_txt);
        }
        *cur = *cur + (toks[k].1 as u64);
        k = k + 1;
    }
    proof {
        assert(tv.skip(tv.len() as int) =~= Seq::<(Seq<char>, u32)>::empty());
        assert(tokens_ticks_sum(tv.skip(tv.len() as int)) == 0);
    }
}

fn emit_pending_tempos(
    out: &mut String,
    cur0: u64,
    ti0: usize,
    limit: u32,
    tempos: &Vec<TempoChange>,
    table: &Vec<(u32, String)>,
    compress_mode: bool,
    dft: &String,
) -> (r: (u64, usize))
    requires
        view_table(table@) == length_table(compress_mode),
        forall|j: int| 0 <= j < tempos@.len() ==> (#[trigger] tempos@[j]).tick <= TICK_LIMIT,
        cur0 as int <= tick_slack() * (TICK_LIMIT as int + 2),
    ensures
        final(out)@ == old(out)@ + emit_tempos(
            tempos@,
            ti0 as int,
            cur0 as int,
            limit,
            length_table(compress_mode),
            compress_mode,
            dft@,
        ).0,
        r.0 as int == emit_tempos(
            tempos@,
            ti0 as int,
            cur0 as int,
            limit,
            length_table(compress_mode),
            compress_mode,
            dft@,
        ).1,
        r.1 as int == emit_tempos(
            tempos@,
            ti0 as int,
            cur0 as int,
            limit,
            length_table(compress_mode),
            compress_mode,
            dft@,
        ).2,
        r.0 as int <= cur0 as int || r.0 as int <= tick_slack(),
{
    let ghost tbl = length_table(compress_mode);
    let ghost full = emit_tempos(tempos@, ti0 as int, cur0 as int, limit, tbl, compress_mode, dft@);
    let mut cur: u64 = cur0;
    let mut ti: usize = ti0;
    proof {
        reveal_strlit("T");
    }
    while ti < tempos.len() && tempos[ti].tick <= limit && (tempos[ti].tick as u64) >= cur
        invariant
            view_table(table@) == tbl,
            tbl == length_table(compress_mode),
            forall|j: int| 0 <= j < tempos@.len() ==> (#[trigger] tempos@[j]).tick <= TICK_LIMIT,
            cur0 as int <= tick_slack() * (TICK_LIMIT as int + 2),
            cur as int <= cur0 as int || cur as int <= tick_slack(),
            full == emit_tempos(
                tempos@,
                ti0 as int,
                cur0 as int,
                limit,
                tbl,
                compress_mode,
                dft@,
            ),
            out@ + emit_tempos(tempos@, ti as int, cur as int, limit, tbl, compress_mode, dft@).0
                == old(out)@ + full.0,
            emit_tempos(tempos@, ti as int, cur as int, limit, tbl, compress_mode, dft@).1
                == full.1,
            emit_tempos(tempos@, ti as int, cur as int, limit, tbl, compress_mode, dft@).2
                == full.2,
        decreases tempos@.len() - ti,
    {
        let tick = tempos[ti].tick;
        let gap64: u64 = tick as u64 - cur;
        if gap64 > 0 {
            let gap: u32 = gap64 as u32;
            proof {
                crate::lengths::lemma_best_length_bounds(gap, 4, compress_mode);
                lemma_rest_sum_nonneg(spec_best_length(tbl, gap, 4, compress_mode));
            }
            let toks = find_best_length(gap, 4, table, compress_mode);
            emit_rests_exec(out, &mut cur, &toks, dft);
        }
        out.append("T");
        let btxt = u32_to_dec(tempos[ti].bpm);
        out.append(btxt.as_str());
        ti = ti + 1;
        proof {
            let fut2 = emit_tempos(tempos@, ti as int, cur as int, limit, tbl, compress_mode, dft@);
            assert(out@ + fut2.0 =~= old(out)@ + full.0);
            assert(fut2.1 == full.1);
            assert(fut2.2 == full.2);
        }
    }
    (cur, ti)
}


fn emit_one_note(
    out: &mut String,
    cur0: u64,
    coct0: i32,
    ti0: usize,
    n: &Note,
    tempo_changes: &Vec<TempoChange>,
    table: &Vec<(u32, String)>,
    compress_mode: bool,
    dft: &String,
) -> (r: (u64, i32, usize))
    requires
        view_table(table@) == length_table(compress_mode),
        forall|j: int|
            0 <= j < tempo_changes@.len() ==> (#[trigger] tempo_changes@[j]).tick <= TICK_LIMIT,
        n.start <= TICK_LIMIT,
        n.duration <= TICK_LIMIT,
        cur0 as int <= tick_slack() * (TICK_LIMIT as int + 1),
    ensures
        ({
            let e = emit_note(
                *n,
                tempo_changes@,
                cur0 as int,
                coct0 as int,
                ti0 as int,
                length_table(compress_mode),
                compress_mode,
                dft@,
            );
            &&& final(out)@ == old(out)@ + e.0
            &&& r.0 as int == e.1
            &&& r.1 as int == e.2
            &&& r.2 as int == e.3
        }),
        r.0 as int <= cur0 as int + tick_slack() || r.0 as int <= 2 * tick_slack(),
{
    let ghost tbl = length_table(compress_mode);
    let ghost dftv = dft@;
    let ghost e = emit_note(
        *n,
        tempo_changes@,
        cur0 as int,
        coct0 as int,
        ti0 as int,
        tbl,
        compress_mode,
        dftv,
    );
    let nstart = n.start;
    let pending = emit_pending_tempos(
        out,
        cur0,
        ti0,
        nstart,
        tempo_changes,
        &table,
        compress_mode,
        dft,
    );
    let mut cur: u64 = pending.0;
    let ti: usize = pending.1;
    // rest before the note itself
    let gap64: u64 = if (nstart as u64) > cur {
        nstart as u64 - cur
    } else {
        0
    };
    if gap64 > 0 {
        let gap: u32 = gap64 as u32;
        proof {
            crate::lengths::lemma_best_length_bounds(gap, 4, compress_mode);
            lemma_rest_sum_nonneg(spec_best_length(tbl, gap, 4, compress_mode));
        }
        let toks = find_best_length(gap, 4, table, compress_mode);
        emit_rests_exec(out, &mut cur, &toks, dft);
        proof {
            assert(cur as int <= nstart as int + 2304);
        }
    }
    // octave change
    let oct_u: u8 = n.note / 12;
    let oct: i32 = oct_u as i32 - 1;
    proof {
        assert(oct as int == octave_of(n.note));
        reveal_strlit("O");
    }
    if oct != coct0 {
        out.append("O");
        let otxt = i32_to_dec(oct);
        out.append(otxt.as_str());
    }
    // the note's own tokens
    proof {
        crate::lengths::lemma_best_length_bounds(n.duration, oct as int, compress_mode);
        lemma_rest_sum_nonneg(spec_best_length(tbl, n.duration, oct as int, compress_mode));
    }
    let toks = find_best_length(n.duration, oct, table, compress_mode);
    let name = note_name_str(n.note);
    emit_note_tokens_exec(out, &mut cur, &toks, name, dft);
    proof {
        assert(final(out)@ =~= old(out)@ + e.0);
    }
    (cur, oct, ti)
}

/// Serializes one voice into MML text: a tempo/volume/octave/default-length
/// header, then the notes in order with rests for gaps, tempo changes
/// interleaved at their ticks, octave switches, and tie chains, omitting
/// length suffixes that match the default length.
#[verifier::rlimit(100)]
pub fn generate_mml_final(
    voice_notes: &Vec<Note>,
    bpm: u32,
    start_octave: i32,
    compress_mode: bool,
    tempo_changes: &Vec<TempoChange>,
) -> (r: String)
    requires
        forall|i: int|
            0 <= i < voice_notes@.len() ==> (#[trigger] voice_notes@[i]).start <= TICK_LIMIT
                && voice_notes@[i].duration <= TICK_LIMIT,
        forall|j: int|
            0 <= j < tempo_changes@.len() ==> (#[trigger] tempo_changes@[j]).tick <= TICK_LIMIT,
        voice_notes@.len() <= TICK_LIMIT as int,
    ensures
        r@ == spec_generate_mml(
            voice_notes@,
            bpm,
            start_octave as int,
            compress_mode,
            tempo_changes@,
        ),
{
    if voice_notes.len() == 0 {
        let r = String::new();
        return r;
    }
    let table = get_exact_lengths(compress_mode);
    let ghost tbl = length_table(compress_mode);
    let dft = compute_default_length(voice_notes, &table, compress_mode);
    let ghost dftv = dft@;
    let mut out = String::new();
    proof {
        reveal_strlit("T");
        reveal_strlit("V15");
        reveal_strlit("O");
        reveal_strlit("L");
    }
    out.append("T");
    let bpm_txt = u32_to_dec(bpm);
    out.append(bpm_txt.as_str());
    out.append("V15");
    out.append("O");
    let oct_txt = i32_to_dec(start_octave);
    out.append(oct_txt.as_str());
    out.append("L");
    out.append(dft.as_str());
    let ghost total = spec_generate_mml(
        voice_notes@,
        bpm,
        start_octave as int,
        compress_mode,
        tempo_changes@,
    );
    proof {
        assert(out@ =~= "T"@ + dec_chars(bpm as int) + "V15"@ + "O"@ + dec_chars_signed(
            start_octave as int,
        ) + "L"@ + dftv);
        assert(voice_notes@.skip(0) =~= voice_notes@);
    }
    let mut cur: u64 = 0;
    let mut coct: i32 = start_octave;
    let mut ti: usize = 1;
    let mut i: usize = 0;
    while i < voice_notes.len()
        invariant
            i <= voice_notes@.len(),
            voice_notes@.len() <= TICK_LIMIT as int,
            forall|k: int|
                0 <= k < voice_notes@.len() ==> (#[trigger] voice_notes@[k]).start <= TICK_LIMIT
                    && voice_notes@[k].duration <= TICK_LIMIT,
            forall|j: int|
                0 <= j < tempo_changes@.len() ==> (#[trigger] tempo_changes@[j]).tick
                    <= TICK_LIMIT,
            view_table(table@) == tbl,
            tbl == length_table(compress_mode),
            dftv == dft@,
            total == spec_generate_mml(
                voice_notes@,
                bpm,
                start_octave as int,
                compress_mode,
                tempo_changes@,
            ),
            cur as int <= (i as int + 1) * tick_slack(),
            out@ + emit_all(
                voice_notes@.skip(i as int),
                tempo_changes@,
                cur as int,
                coct as int,
                ti as int,
                tbl,
                compress_mode,
                dftv,
            ) == total,
        decreases voice_notes@.len() - i,
    {
        let ghost n = voice_notes@[i as int];
        proof {
            assert(voice_notes@.skip(i as int)[0] == n);
            assert(voice_notes@.skip(i as int).drop_first() =~= voice_notes@.skip(i as int + 1));
            vstd::arithmetic::mul::lemma_mul_inequality(
                i as int + 1,
                TICK_LIMIT as int + 1,
                tick_slack(),
            );
            vstd::arithmetic::mul::lemma_mul_is_commutative(i as int + 1, tick_slack());
            vstd::arithmetic::mul::lemma_mul_is_commutative(TICK_LIMIT as int + 1, tick_slack());
        }
        let stepped = emit_one_note(
            &mut out,
            cur,
            coct,
            ti,
            &voice_notes[i],
            tempo_changes,
            &table,
            compress_mode,
            &dft,
        );
        cur = stepped.0;
        coct = stepped.1;
        ti = stepped.2;
        i = i + 1;
        proof {
            assert(cur as int <= (i as int + 1) * tick_slack()) by {
                vstd::arithmetic::mul::lemma_mul_nonnegative(i as int - 1, tick_slack());
            }
            assert(out@ + emit_all(
                voice_notes@.skip(i as int),
                tempo_changes@,
                cur as int,
                coct as int,
                ti as int,
                tbl,
                compress_mode,
                dftv,
            ) =~= total);
        }
    }
    proof {
        assert(voice_notes@.skip(voice_notes@.len() as int) =~= Seq::<Note>::empty());
        assert(out@ =~= total);
    }
    out
}

} // verus!
