//! Budget search and conversion results: finds the largest grid-aligned
//! truncation tick at which every voice's MML text stays within the
//! character budget, and assembles the per-voice results.

use vstd::prelude::*;
use vstd::string::StrSliceExecFns;
use vstd::string::StringExecFns;
use crate::mml::generate_mml_final;
use crate::mml::octave_of;
use crate::mml::spec_generate_mml;
use crate::numfmt::dec_chars;
use crate::numfmt::u64_to_dec;
use crate::types::lemma_filter_elems;
use crate::types::Note;
use crate::types::TempoChange;
use crate::types::TICK_LIMIT;
use crate::voicing::allocate_voices_smart;
use crate::voicing::alloc_note_ok;
use crate::voicing::lemma_allocate_preserves;
use crate::voicing::spec_allocate;
use crate::voicing::vnotes_ok;
use crate::voicing::voices_view;

verus! {

/// One encoded voice of a conversion result.
pub struct VoiceResult {
    /// Display name of the voice.
    pub name: String,
    /// The voice's MML text.
    pub content: String,
    /// Number of characters in `content`.
    pub char_count: usize,
    /// Number of notes that survived truncation.
    pub note_count: usize,
    /// The truncation tick the conversion settled on.
    pub duration_ticks: u32,
}

/// The mathematical content of a `VoiceResult`.
pub struct VoiceResultModel {
    pub name: Seq<char>,
    pub content: Seq<char>,
    pub note_count: int,
    pub duration_ticks: u32,
}

/// An executable result list matches its model pointwise.
pub open spec fn results_match(rs: Seq<VoiceResult>, ms: Seq<VoiceResultModel>) -> bool {
    &&& rs.len() == ms.len()
    &&& forall|k: int|
        0 <= k < rs.len() ==> {
            &&& (#[trigger] rs[k]).name@ == ms[k].name
            &&& rs[k].content@ == ms[k].content
            &&& rs[k].char_count == ms[k].content.len()
            &&& rs[k].note_count == ms[k].note_count
            &&& rs[k].duration_ticks == ms[k].duration_ticks
        }
}

/// The notes of a voice that start before tick `t`.
pub open spec fn crop_voice(v: Seq<Note>, t: int) -> Seq<Note> {
    v.filter(|n: Note| (n.start as int) < t)
}

/// The voices that still hold at least one note.
pub open spec fn keep_nonempty(vs: Seq<Seq<Note>>) -> Seq<Seq<Note>>
    decreases vs.len(),
{
    if vs.len() == 0 {
        vs
    } else if vs[0].len() > 0 {
        seq![vs[0]] + keep_nonempty(vs.drop_first())
    } else {
        keep_nonempty(vs.drop_first())
    }
}

/// The starting octave for a non-empty voice: the first note's octave,
/// clamped to octaves 2 through 6.
pub open spec fn start_octave_of(v: Seq<Note>) -> int
    recommends
        v.len() > 0,
{
    let o = octave_of(v[0].note);
    if o < 2 {
        2
    } else if o > 6 {
        6
    } else {
        o
    }
}

/// The MML text of a non-empty voice at its own starting octave.
pub open spec fn encode_voice(
    v: Seq<Note>,
    bpm: u32,
    compress_mode: bool,
    tempos: Seq<TempoChange>,
) -> Seq<char> {
    spec_generate_mml(v, bpm, start_octave_of(v), compress_mode, tempos)
}

/// The largest end tick of any note of a voice.
pub open spec fn voice_max_end(v: Seq<Note>) -> u32
    decreases v.len(),
{
    if v.len() == 0 {
        0
    } else {
        let m = voice_max_end(v.drop_last());
        if v.last().end > m {
            v.last().end
        } else {
            m
        }
    }
}

/// The largest end tick of any note of any voice.
pub open spec fn voices_max_end(vs: Seq<Seq<Note>>) -> u32
    decreases vs.len(),
{
    if vs.len() == 0 {
        0
    } else {
        let m = voices_max_end(vs.drop_last());
        if voice_max_end(vs.last()) > m {
            voice_max_end(vs.last())
        } else {
            m
        }
    }
}

/// Whether every voice, cropped to `t`, encodes within the budget (empty
/// crops are exempt).
pub open spec fn all_cropped_fit(
    vs: Seq<Seq<Note>>,
    t: int,
    bpm: u32,
    compress_mode: bool,
    tempos: Seq<TempoChange>,
    limit: int,
) -> bool {
    forall|k: int|
        0 <= k < vs.len() ==> {
            crop_voice(#[trigger] vs[k], t).len() > 0 ==> encode_voice(
                crop_voice(vs[k], t),
                bpm,
                compress_mode,
                tempos,
            ).len() <= limit
        }
}

/// Whether every voice encodes within the budget untruncated.
pub open spec fn all_full_fit(
    vs: Seq<Seq<Note>>,
    bpm: u32,
    compress_mode: bool,
    tempos: Seq<TempoChange>,
    limit: int,
) -> bool {
    forall|k: int|
        0 <= k < vs.len() ==> encode_voice(#[trigger] vs[k], bpm, compress_mode, tempos).len()
            <= limit
}

/// Binary search for the largest grid-aligned truncation tick at which all
/// voices fit the budget.
pub open spec fn spec_bsearch(
    vs: Seq<Seq<Note>>,
    bpm: u32,
    compress_mode: bool,
    tempos: Seq<TempoChange>,
    limit: int,
    left: int,
    right: int,
    best: int,
) -> int
    decreases (if right + 24 >= left {
        right + 24 - left
    } else {
        0
    }),
{
    if left > right {
        best
    } else {
        let mid = (left + right) / 2 / 24 * 24;
        if mid == 0 {
            best
        } else if all_cropped_fit(vs, mid, bpm, compress_mode, tempos, limit) {
            spec_bsearch(vs, bpm, compress_mode, tempos, limit, mid + 24, right, mid)
        } else {
            spec_bsearch(vs, bpm, compress_mode, tempos, limit, left, mid - 24, best)
        }
    }
}

/// The truncation tick the conversion settles on: the overall maximum end
/// tick when everything already fits, else the binary search's answer.
pub open spec fn spec_best_tick(
    vs: Seq<Seq<Note>>,
    bpm: u32,
    compress_mode: bool,
    tempos: Seq<TempoChange>,
    limit: int,
) -> int {
    if all_full_fit(vs, bpm, compress_mode, tempos, limit) {
        voices_max_end(vs) as int
    } else {
        spec_bsearch(vs, bpm, compress_mode, tempos, limit, 0, voices_max_end(vs) as int, 0)
    }
}

/// The display name of the voice at an index: voice 0 is the melody, the
/// others are numbered harmonies.
pub open spec fn spec_voice_name(idx: int) -> Seq<char> {
    if idx == 0 {
        "melody"@
    } else {
        "harmony-"@ + dec_chars(idx)
    }
}

/// The result models of the voices from index `idx` on, cropped at `t`;
/// voices whose crop is empty are skipped but keep their place in the
/// numbering.
pub open spec fn spec_results(
    vs: Seq<Seq<Note>>,
    idx: int,
    t: int,
    bpm: u32,
    compress_mode: bool,
    tempos: Seq<TempoChange>,
) -> Seq<VoiceResultModel>
    decreases vs.len(),
{
    if vs.len() == 0 {
        Seq::empty()
    } else {
        let c = crop_voice(vs[0], t);
        let rest = spec_results(vs.drop_first(), idx + 1, t, bpm, compress_mode, tempos);
        if c.len() == 0 {
            rest
        } else {
            seq![
                VoiceResultModel {
                    name: spec_voice_name(idx),
                    content: encode_voice(c, bpm, compress_mode, tempos),
                    note_count: c.len() as int,
                    duration_ticks: t as u32,
                },
            ] + rest
        }
    }
}

pub(crate) proof fn lemma_bsearch_valid(
    vs: Seq<Seq<Note>>,
    bpm: u32,
    compress_mode: bool,
    tempos: Seq<TempoChange>,
    limit: int,
    left: int,
    right: int,
    best: int,
)
    requires
        best == 0 || all_cropped_fit(vs, best, bpm, compress_mode, tempos, limit),
    ensures
        spec_bsearch(vs, bpm, compress_mode, tempos, limit, left, right, best) == 0
            || all_cropped_fit(
            vs,
            spec_bsearch(vs, bpm, compress_mode, tempos, limit, left, right, best),
            bpm,
            compress_mode,
            tempos,
            limit,
        ),
    decreases (if right + 24 >= left {
        right + 24 - left
    } else {
        0
    }),
{
    if left > right {
    } else {
        let mid = (left + right) / 2 / 24 * 24;
        if mid == 0 {
        } else if all_cropped_fit(vs, mid, bpm, compress_mode, tempos, limit) {
            lemma_bsearch_valid(vs, bpm, compress_mode, tempos, limit, mid + 24, right, mid);
        } else {
            lemma_bsearch_valid(vs, bpm, compress_mode, tempos, limit, left, mid - 24, best);
        }
    }
}

pub(crate) proof fn lemma_bsearch_lt(
    vs: Seq<Seq<Note>>,
    bpm: u32,
    compress_mode: bool,
    tempos: Seq<TempoChange>,
    limit: int,
    left: int,
    right: int,
    best: int,
    bound: int,
)
    requires
        0 <= left,
        best < bound,
        right <= bound,
        !all_cropped_fit(vs, bound, bpm, compress_mode, tempos, limit),
    ensures
        spec_bsearch(vs, bpm, compress_mode, tempos, limit, left, right, best) < bound,
    decreases (if right + 24 >= left {
        right + 24 - left
    } else {
        0
    }),
{
    if left > right {
    } else {
        let mid = (left + right) / 2 / 24 * 24;
        assert(mid <= (left + right) / 2) by (nonlinear_arith)
            requires
                mid == (left + right) / 2 / 24 * 24,
        ;
        assert(mid <= right);
        if mid == 0 {
        } else if all_cropped_fit(vs, mid, bpm, compress_mode, tempos, limit) {
            assert(mid != bound);
            lemma_bsearch_lt(vs, bpm, compress_mode, tempos, limit, mid + 24, right, mid, bound);
        } else {
            lemma_bsearch_lt(vs, bpm, compress_mode, tempos, limit, left, mid - 24, best, bound);
        }
    }
}

pub(crate) proof fn lemma_voice_max_end_ge(v: Seq<Note>, k: int)
    requires
        0 <= k < v.len(),
    ensures
        v[k].end <= voice_max_end(v),
    decreases v.len(),
{
    if k < v.len() - 1 {
        lemma_voice_max_end_ge(v.drop_last(), k);
    }
}

pub(crate) proof fn lemma_voices_max_end_ge(vs: Seq<Seq<Note>>, k: int)
    requires
        0 <= k < vs.len(),
    ensures
        voice_max_end(vs[k]) <= voices_max_end(vs),
    decreases vs.len(),
{
    if k < vs.len() - 1 {
        lemma_voices_max_end_ge(vs.drop_last(), k);
    }
}

pub(crate) proof fn lemma_crop_all(v: Seq<Note>, t: int)
    requires
        forall|k: int| 0 <= k < v.len() ==> (#[trigger] v[k]).start < t,
    ensures
        crop_voice(v, t) == v,
    decreases v.len(),
{
    reveal(Seq::filter);
    if v.len() > 0 {
        lemma_crop_all(v.drop_last(), t);
        assert(crop_voice(v, t) =~= v);
    } else {
        assert(crop_voice(v, t) =~= v);
    }
}

pub(crate) proof fn lemma_crop_none(v: Seq<Note>, t: int)
    requires
        t <= 0,
    ensures
        crop_voice(v, t).len() == 0,
    decreases v.len(),
{
    reveal(Seq::filter);
    if v.len() > 0 {
        lemma_crop_none(v.drop_last(), t);
    }
}

pub(crate) proof fn lemma_keep_nonempty_elems(vs: Seq<Seq<Note>>, k: int)
    requires
        0 <= k < keep_nonempty(vs).len(),
    ensures
        exists|w: int| 0 <= w < vs.len() && vs[w] == keep_nonempty(vs)[k],
        keep_nonempty(vs)[k].len() > 0,
    decreases vs.len(),
{
    if vs.len() > 0 {
        if vs[0].len() > 0 {
            if k == 0 {
                assert(vs[0] == keep_nonempty(vs)[0]);
            } else {
                lemma_keep_nonempty_elems(vs.drop_first(), k - 1);
                let w = choose|w: int|
                    0 <= w < vs.drop_first().len() && vs.drop_first()[w] == keep_nonempty(
                        vs.drop_first(),
                    )[k - 1];
                assert(vs[w + 1] == keep_nonempty(vs)[k]);
            }
        } else {
            lemma_keep_nonempty_elems(vs.drop_first(), k);
            let w = choose|w: int|
                0 <= w < vs.drop_first().len() && vs.drop_first()[w] == keep_nonempty(
                    vs.drop_first(),
                )[k];
            assert(vs[w + 1] == keep_nonempty(vs)[k]);
        }
    }
}

/// The truncation tick the search settles on keeps every voice within the
/// budget: at `spec_best_tick`, each voice whose crop is non-empty encodes
/// to at most `limit` characters.
pub proof fn lemma_best_tick_fits(
    vs: Seq<Seq<Note>>,
    bpm: u32,
    compress_mode: bool,
    tempos: Seq<TempoChange>,
    limit: int,
)
    requires
        forall|k: int, j: int|
            0 <= k < vs.len() && 0 <= j < vs[k].len() ==> (#[trigger] vs[k][j]).start
                < vs[k][j].end,
    ensures
        all_cropped_fit(
            vs,
            spec_best_tick(vs, bpm, compress_mode, tempos, limit),
            bpm,
            compress_mode,
            tempos,
            limit,
        ),
{
    let tbest = spec_best_tick(vs, bpm, compress_mode, tempos, limit);
    if all_full_fit(vs, bpm, compress_mode, tempos, limit) {
        assert forall|k: int| 0 <= k < vs.len() implies (crop_voice(#[trigger] vs[k], tbest).len()
            > 0 ==> encode_voice(crop_voice(vs[k], tbest), bpm, compress_mode, tempos).len()
            <= limit) by {
            assert forall|j: int| 0 <= j < vs[k].len() implies (#[trigger] vs[k][j]).start
                < tbest by {
                lemma_voice_max_end_ge(vs[k], j);
                lemma_voices_max_end_ge(vs, k);
            }
            lemma_crop_all(vs[k], tbest);
        }
    } else {
        lemma_bsearch_valid(
            vs,
            bpm,
            compress_mode,
            tempos,
            limit,
            0,
            voices_max_end(vs) as int,
            0,
        );
        if tbest == 0 {
            assert forall|k: int| 0 <= k < vs.len() implies crop_voice(
                #[trigger] vs[k],
                0,
            ).len() == 0 by {
                lemma_crop_none(vs[k], 0);
            }
        }
    }
}

/// Re-running the result assembly on the same inputs gives the same texts:
/// two result lists that match the same models agree pointwise.
pub proof fn lemma_results_deterministic(
    r1: Seq<VoiceResult>,
    r2: Seq<VoiceResult>,
    ms: Seq<VoiceResultModel>,
)
    requires
        results_match(r1, ms),
        results_match(r2, ms),
    ensures
        r1.len() == r2.len(),
        forall|k: int|
            0 <= k < r1.len() ==> (#[trigger] r1[k]).name@ == r2[k].name@ && r1[k].content@
                == r2[k].content@ && r1[k].char_count == r2[k].char_count && r1[k].note_count
                == r2[k].note_count && r1[k].duration_ticks == r2[k].duration_ticks,
{
}

/// Voices whose every note the encoder can take: well-formed notes and a
/// bounded note count per voice.
pub open spec fn voices_encodable(vs: Seq<Seq<Note>>) -> bool {
    &&& vnotes_ok(vs)
    &&& forall|v: int| 0 <= v < vs.len() ==> (#[trigger] vs[v]).len() <= TICK_LIMIT as int
}

pub(crate) fn drop_empty_voices(all: Vec<Vec<Note>>) -> (r: Vec<Vec<Note>>)
    ensures
        voices_view(r@) == keep_nonempty(voices_view(all@)),
{
    let ghost target = keep_nonempty(voices_view(all@));
    let mut src = all;
    let mut kept: Vec<Vec<Note>> = Vec::new();
    proof {
        assert(voices_view(kept@) + keep_nonempty(voices_view(src@)) =~= target);
    }
    while src.len() > 0
        invariant
            voices_view(kept@) + keep_nonempty(voices_view(src@)) == target,
        decreases src@.len(),
    {
        let ghost old_src = src@;
        let ghost old_kept = kept@;
        let v = src.remove(0);
        proof {
            assert(src@ =~= old_src.drop_first());
            assert(voices_view(old_src)[0] == v@);
            assert(voices_view(src@) =~= voices_view(old_src).drop_first());
        }
        if v.len() > 0 {
            kept.push(v);
            proof {
                assert(voices_view(kept@) =~= voices_view(old_kept).push(
                    voices_view(old_src)[0],
                ));
                assert(voices_view(kept@) + keep_nonempty(voices_view(src@)) =~= target);
            }
        } else {
            proof {
                assert(voices_view(kept@) + keep_nonempty(voices_view(src@)) =~= target);
            }
        }
    }
    proof {
        assert(keep_nonempty(voices_view(src@)) =~= Seq::<Seq<Note>>::empty());
        assert(voices_view(kept@) =~= target);
    }
    kept
}

pub(crate) fn compute_max_end(voices: &Vec<Vec<Note>>) -> (m: u32)
    ensures
        m == voices_max_end(voices_view(voices@)),
{
    let ghost vv = voices_view(voices@);
    let mut m: u32 = 0;
    proof {
        assert(vv.take(0) =~= Seq::<Seq<Note>>::empty());
    }
    let mut k: usize = 0;
    while k < voices.len()
        invariant
            k <= voices@.len(),
            vv == voices_view(voices@),
            m == voices_max_end(vv.take(k as int)),
        decreases voices@.len() - k,
    {
        let ghost v = vv[k as int];
        proof {
            assert(v == voices@[k as int]@);
            assert(v.take(0) =~= Seq::<Note>::empty());
        }
        let mut inner: u32 = 0;
        let mut j: usize = 0;
        while j < voices[k].len()
            invariant
                k < voices@.len(),
                j <= v.len(),
                vv == voices_view(voices@),
                v == vv[k as int],
                v == voices@[k as int]@,
                inner == voice_max_end(v.take(j as int)),
            decreases v.len() - j,
        {
            proof {
                assert(v.take(j as int + 1).drop_last() =~= v.take(j as int));
                assert(v.take(j as int + 1).last() == v[j as int]);
            }
            if voices[k][j].end > inner {
                inner = voices[k][j].end;
            }
            j = j + 1;
        }
        proof {
            assert(v.take(v.len() as int) =~= v);
            assert(vv.take(k as int + 1).drop_last() =~= vv.take(k as int));
            assert(vv.take(k as int + 1).last() == vv[k as int]);
        }
        if inner > m {
            m = inner;
        }
        k = k + 1;
    }
    proof {
        assert(vv.take(vv.len() as int) =~= vv);
    }
    m
}

pub(crate) fn start_octave_exec(voice: &Vec<Note>) -> (o: i32)
    requires
        voice@.len() > 0,
    ensures
        o as int == start_octave_of(voice@),
{
    let first = voice[0].note;
    let oct_u: u8 = first / 12;
    let o: i32 = oct_u as i32 - 1;
    if o < 2 {
        2
    } else if o > 6 {
        6
    } else {
        o
    }
}

pub(crate) fn crop_voice_exec(voice: &Vec<Note>, t: u32) -> (r: Vec<Note>)
    ensures
        r@ == crop_voice(voice@, t as int),
{
    let ghost v = voice@;
    let mut out: Vec<Note> = Vec::new();
    proof {
        reveal(Seq::filter);
        assert(v.take(0) =~= Seq::<Note>::empty());
        assert(out@ =~= crop_voice(v.take(0), t as int));
    }
    let mut j: usize = 0;
    while j < voice.len()
        invariant
            j <= v.len(),
            v == voice@,
            out@ == crop_voice(v.take(j as int), t as int),
        decreases v.len() - j,
    {
        proof {
            reveal(Seq::filter);
            assert(v.take(j as int + 1).drop_last() =~= v.take(j as int));
            assert(v.take(j as int + 1).last() == v[j as int]);
        }
        if voice[j].start < t {
            let x = voice[j].clone();
            out.push(x);
        }
        j = j + 1;
    }
    proof {
        assert(v.take(v.len() as int) =~= v);
    }
    out
}

pub(crate) fn voice_name_exec(idx: usize) -> (r: String)
    ensures
        r@ == spec_voice_name(idx as int),
{
    if idx == 0 {
        String::from_str("melody")
    } else {
        let mut s = String::from_str("harmony-");
        let d = u64_to_dec(idx as u64);
        s.append(d.as_str());
        proof {
            assert(s@ =~= "harmony-"@ + dec_chars(idx as int));
        }
        s
    }
}

pub(crate) proof fn lemma_crop_encodable(vs: Seq<Seq<Note>>, k: int, t: int)
    requires
        voices_encodable(vs),
        0 <= k < vs.len(),
    ensures
        crop_voice(vs[k], t).len() <= vs[k].len(),
        forall|j: int|
            0 <= j < crop_voice(vs[k], t).len() ==> alloc_note_ok(
                #[trigger] crop_voice(vs[k], t)[j],
            ),
{
    let c = crop_voice(vs[k], t);
    let pred = |n: Note| (n.start as int) < t;
    vs[k].lemma_filter_len(pred);
    assert forall|j: int| 0 <= j < c.len() implies alloc_note_ok(#[trigger] c[j]) by {
        lemma_filter_elems(vs[k], pred, j);
        let w = choose|w: int| 0 <= w < vs[k].len() && vs[k][w] == c[j];
    }
}

pub(crate) fn fits_at(
    voices: &Vec<Vec<Note>>,
    t: u32,
    bpm: u32,
    compress_mode: bool,
    tempo_changes: &Vec<TempoChange>,
    char_limit: usize,
) -> (b: bool)
    requires
        voices_encodable(voices_view(voices@)),
        forall|j: int|
            0 <= j < tempo_changes@.len() ==> (#[trigger] tempo_changes@[j]).tick <= TICK_LIMIT,
    ensures
        b == all_cropped_fit(
            voices_view(voices@),
            t as int,
            bpm,
            compress_mode,
            tempo_changes@,
            char_limit as int,
        ),
{
    let ghost vv = voices_view(voices@);
    let mut k: usize = 0;
    while k < voices.len()
        invariant
            k <= voices@.len(),
            vv == voices_view(voices@),
            voices_encodable(vv),
            forall|j: int|
                0 <= j < tempo_changes@.len() ==> (#[trigger] tempo_changes@[j]).tick
                    <= TICK_LIMIT,
            forall|i: int|
                0 <= i < k ==> (crop_voice(#[trigger] vv[i], t as int).len() > 0 ==> encode_voice(
                    crop_voice(vv[i], t as int),
                    bpm,
                    compress_mode,
                    tempo_changes@,
                ).len() <= char_limit as int),
        decreases voices@.len() - k,
    {
        proof {
            assert(vv[k as int] == voices@[k as int]@);
            lemma_crop_encodable(vv, k as int, t as int);
        }
        let cropped = crop_voice_exec(&voices[k], t);
        if cropped.len() > 0 {
            let so = start_octave_exec(&cropped);
            let mml = generate_mml_final(&cropped, bpm, so, compress_mode, tempo_changes);
            let len = mml.as_str().unicode_len();
            if len > char_limit {
                return false;
            }
        }
        k = k + 1;
    }
    true
}

pub(crate) fn full_fit(
    voices: &Vec<Vec<Note>>,
    bpm: u32,
    compress_mode: bool,
    tempo_changes: &Vec<TempoChange>,
    char_limit: usize,
) -> (b: bool)
    requires
        voices_encodable(voices_view(voices@)),
        forall|j: int|
            0 <= j < tempo_changes@.len() ==> (#[trigger] tempo_changes@[j]).tick <= TICK_LIMIT,
    ensures
        b == all_full_fit(
            voices_view(voices@),
            bpm,
            compress_mode,
            tempo_changes@,
            char_limit as int,
        ),
{
    let ghost vv = voices_view(voices@);
    let mut k: usize = 0;
    while k < voices.len()
        invariant
            k <= voices@.len(),
            vv == voices_view(voices@),
            voices_encodable(vv),
            forall|j: int|
                0 <= j < tempo_changes@.len() ==> (#[trigger] tempo_changes@[j]).tick
                    <= TICK_LIMIT,
            forall|i: int|
                0 <= i < k ==> encode_voice(
                    #[trigger] vv[i],
                    bpm,
                    compress_mode,
                    tempo_changes@,
                ).len() <= char_limit as int,
        decreases voices@.len() - k,
    {
        proof {
            assert(vv[k as int] == voices@[k as int]@);
        }
        if voices[k].len() == 0 {
            // an empty voice encodes to empty text
            proof {
                assert(encode_voice(vv[k as int], bpm, compress_mode, tempo_changes@).len() == 0);
            }
        } else {
            let so = start_octave_exec(&voices[k]);
            let mml = generate_mml_final(&voices[k], bpm, so, compress_mode, tempo_changes);
            let len = mml.as_str().unicode_len();
            if len > char_limit {
                return false;
            }
        }
        k = k + 1;
    }
    true
}

pub(crate) fn search_best_tick(
    voices: &Vec<Vec<Note>>,
    max_end: u32,
    bpm: u32,
    compress_mode: bool,
    tempo_changes: &Vec<TempoChange>,
    char_limit: usize,
) -> (best: u32)
    requires
        voices_encodable(voices_view(voices@)),
        forall|j: int|
            0 <= j < tempo_changes@.len() ==> (#[trigger] tempo_changes@[j]).tick <= TICK_LIMIT,
        max_end <= TICK_LIMIT,
    ensures
        best as int == spec_bsearch(
            voices_view(voices@),
            bpm,
            compress_mode,
            tempo_changes@,
            char_limit as int,
            0,
            max_end as int,
            0,
        ),
        best <= max_end,
{
    let ghost vv = voices_view(voices@);
    let ghost target = spec_bsearch(
        vv,
        bpm,
        compress_mode,
        tempo_changes@,
        char_limit as int,
        0,
        max_end as int,
        0,
    );
    let mut left: u32 = 0;
    let mut right: u32 = max_end;
    let mut best: u32 = 0;
    loop
        invariant_except_break
            vv == voices_view(voices@),
            voices_encodable(vv),
            forall|j: int|
                0 <= j < tempo_changes@.len() ==> (#[trigger] tempo_changes@[j]).tick
                    <= TICK_LIMIT,
            left % 24 == 0,
            right <= max_end,
            best <= max_end,
            max_end <= TICK_LIMIT,
            left <= max_end + 24,
            spec_bsearch(
                vv,
                bpm,
                compress_mode,
                tempo_changes@,
                char_limit as int,
                left as int,
                right as int,
                best as int,
            ) == target,
        ensures
            best as int == target,
            best <= max_end,
        decreases right as int + 24 - left as int,
    {
        if left > right {
            break;
        }
        let mid: u32 = ((left + right) / 2 / 24) * 24;
        proof {
            let l = left as int;
            let r = right as int;
            let h = (l + r) / 2;
            assert(l <= h <= r) by (nonlinear_arith)
                requires
                    l <= r,
                    0 <= l,
                    h == (l + r) / 2,
            ;
            assert(h / 24 * 24 <= h && h - 23 <= h / 24 * 24 && (h / 24 * 24) % 24 == 0)
                by (nonlinear_arith)
                requires
                    h >= 0,
            ;
            assert(l / 24 * 24 == l) by (nonlinear_arith)
                requires
                    l % 24 == 0,
                    l >= 0,
            ;
            assert(l / 24 <= h / 24) by (nonlinear_arith)
                requires
                    0 <= l <= h,
            ;
            assert(l / 24 * 24 <= h / 24 * 24) by (nonlinear_arith)
                requires
                    l / 24 <= h / 24,
            ;
            assert(l <= mid as int && mid as int <= r);
        }
        if mid == 0 {
            break;
        }
        let ok = fits_at(voices, mid, bpm, compress_mode, tempo_changes, char_limit);
        if ok {
            best = mid;
            left = mid + 24;
        } else {
            right = mid - 24;
        }
    }
    best
}

/// Converts a note list to per-voice MML results under a character budget:
/// allocates voices, finds the largest grid-aligned truncation tick whose
/// cropped encodings all fit, and encodes every surviving voice at that
/// tick. Every returned voice's character count is within the budget, and
/// when the untruncated encodings did not all fit, the truncation tick lies
/// strictly before the end of the piece.
#[verifier::rlimit(100)]
pub fn convert_by_pitch(
    notes: Vec<Note>,
    bpm: u32,
    char_limit: usize,
    compress_mode: bool,
    tempo_changes: &Vec<TempoChange>,
) -> (r: Vec<VoiceResult>)
    requires
        forall|k: int| 0 <= k < notes@.len() ==> alloc_note_ok(#[trigger] notes@[k]),
        notes@.len() <= TICK_LIMIT as int,
        forall|j: int|
            0 <= j < tempo_changes@.len() ==> (#[trigger] tempo_changes@[j]).tick <= TICK_LIMIT,
    ensures
        results_match(
            r@,
            spec_results(
                keep_nonempty(spec_allocate(notes@)),
                0,
                spec_best_tick(
                    keep_nonempty(spec_allocate(notes@)),
                    bpm,
                    compress_mode,
                    tempo_changes@,
                    char_limit as int,
                ),
                bpm,
                compress_mode,
                tempo_changes@,
            ),
        ),
        forall|k: int| 0 <= k < r@.len() ==> (#[trigger] r@[k]).char_count <= char_limit,
        !all_full_fit(
            keep_nonempty(spec_allocate(notes@)),
            bpm,
            compress_mode,
            tempo_changes@,
            char_limit as int,
        ) ==> spec_best_tick(
            keep_nonempty(spec_allocate(notes@)),
            bpm,
            compress_mode,
            tempo_changes@,
            char_limit as int,
        ) < voices_max_end(keep_nonempty(spec_allocate(notes@))) as int,
{
    let ghost notes0 = notes@;
    proof {
        lemma_allocate_preserves(notes0);
    }
    let all = allocate_voices_smart(notes);
    let voices = drop_empty_voices(all);
    let ghost vv = keep_nonempty(spec_allocate(notes0));
    proof {
        assert(voices_view(voices@) == vv);
        assert forall|v: int| 0 <= v < vv.len() implies (#[trigger] vv[v]).len() <= TICK_LIMIT
            as int && (forall|k: int| 0 <= k < vv[v].len() ==> alloc_note_ok(#[trigger] vv[v][k]))
            by {
            lemma_keep_nonempty_elems(spec_allocate(notes0), v);
            let w = choose|w: int|
                0 <= w < spec_allocate(notes0).len() && spec_allocate(notes0)[w] == vv[v];
        }
        assert(voices_encodable(vv));
    }
    let max_end = compute_max_end(&voices);
    // every note's ticks are bounded, so the piece's end is too
    proof {
        if voices@.len() == 0 {
            assert(voices_max_end(vv) == 0);
        }
        assert forall|k: int, j: int|
            0 <= k < vv.len() && 0 <= j < vv[k].len() implies (#[trigger] vv[k][j]).end
            <= voices_max_end(vv) by {
            lemma_voice_max_end_ge(vv[k], j);
            lemma_voices_max_end_ge(vv, k);
        }
        lemma_voices_max_end_bounded(vv);
    }
    let full_ok = full_fit(&voices, bpm, compress_mode, tempo_changes, char_limit);
    let best: u32 = if full_ok {
        max_end
    } else {
        search_best_tick(&voices, max_end, bpm, compress_mode, tempo_changes, char_limit)
    };
    let ghost tbest = spec_best_tick(vv, bpm, compress_mode, tempo_changes@, char_limit as int);
    proof {
        assert(best as int == tbest);
        // whatever branch was taken, every non-empty crop at `best` fits
        if full_ok {
            assert forall|k: int| 0 <= k < vv.len() implies (crop_voice(
                #[trigger] vv[k],
                tbest,
            ).len() > 0 ==> encode_voice(
                crop_voice(vv[k], tbest),
                bpm,
                compress_mode,
                tempo_changes@,
            ).len() <= char_limit as int) by {
                assert forall|j: int| 0 <= j < vv[k].len() implies (#[trigger] vv[k][j]).start
                    < tbest by {
                    lemma_voice_max_end_ge(vv[k], j);
                    lemma_voices_max_end_ge(vv, k);
                }
                lemma_crop_all(vv[k], tbest);
            }
            assert(all_cropped_fit(vv, tbest, bpm, compress_mode, tempo_changes@,
                char_limit as int));
        } else {
            lemma_bsearch_valid(
                vv,
                bpm,
                compress_mode,
                tempo_changes@,
                char_limit as int,
                0,
                max_end as int,
                0,
            );
            if tbest == 0 {
                assert forall|k: int| 0 <= k < vv.len() implies crop_voice(
                    #[trigger] vv[k],
                    0,
                ).len() == 0 by {
                    lemma_crop_none(vv[k], 0);
                }
                assert(all_cropped_fit(vv, tbest, bpm, compress_mode, tempo_changes@,
                    char_limit as int));
            }
            // strictness: the full piece never validates, so the search
            // stays below the maximum end tick
            let m = voices_max_end(vv) as int;
            let w = choose|w: int|
                0 <= w < vv.len() && encode_voice(vv[w], bpm, compress_mode, tempo_changes@).len()
                    > char_limit as int;
            assert forall|j: int| 0 <= j < vv[w].len() implies (#[trigger] vv[w][j]).start
                < m by {
                lemma_voice_max_end_ge(vv[w], j);
                lemma_voices_max_end_ge(vv, w);
            }
            lemma_crop_all(vv[w], m);
            assert(vv[w].len() > 0) by {
                lemma_keep_nonempty_elems(spec_allocate(notes0), w);
            }
            assert(crop_voice(vv[w], m).len() > 0);
            assert(!all_cropped_fit(vv, m, bpm, compress_mode, tempo_changes@,
                char_limit as int));
            if m > 0 {
                lemma_bsearch_lt(
                    vv,
                    bpm,
                    compress_mode,
                    tempo_changes@,
                    char_limit as int,
                    0,
                    max_end as int,
                    0,
                    m,
                );
            } else {
                assert(vv[w].len() > 0);
                assert(vv[w][0].end <= voices_max_end(vv)) by {
                    lemma_voice_max_end_ge(vv[w], 0);
                    lemma_voices_max_end_ge(vv, w);
                }
                assert(false);
            }
        }
    }
    // final crop and assembly
    let mut results: Vec<VoiceResult> = Vec::new();
    let ghost mut done: Seq<VoiceResultModel> = Seq::empty();
    let ghost all_models = spec_results(vv, 0, tbest, bpm, compress_mode, tempo_changes@);
    proof {
        assert(vv.skip(0) =~= vv);
        assert(done + spec_results(vv.skip(0), 0, tbest, bpm, compress_mode, tempo_changes@)
            =~= all_models);
    }
    let mut k: usize = 0;
    while k < voices.len()
        invariant
            k <= voices@.len(),
            vv == voices_view(voices@),
            voices_encodable(vv),
            forall|j: int|
                0 <= j < tempo_changes@.len() ==> (#[trigger] tempo_changes@[j]).tick
                    <= TICK_LIMIT,
            best as int == tbest,
            all_cropped_fit(vv, tbest, bpm, compress_mode, tempo_changes@, char_limit as int),
            all_models == spec_results(vv, 0, tbest, bpm, compress_mode, tempo_changes@),
            results_match(results@, done),
            done + spec_results(
                vv.skip(k as int),
                k as int,
                tbest,
                bpm,
                compress_mode,
                tempo_changes@,
            ) == all_models,
            forall|i: int| 0 <= i < results@.len() ==> (#[trigger] results@[i]).char_count
                <= char_limit,
        decreases voices@.len() - k,
    {
        proof {
            assert(vv[k as int] == voices@[k as int]@);
            assert(vv.skip(k as int)[0] == vv[k as int]);
            assert(vv.skip(k as int).drop_first() =~= vv.skip(k as int + 1));
            lemma_crop_encodable(vv, k as int, tbest);
        }
        let cropped = crop_voice_exec(&voices[k], best);
        if cropped.len() > 0 {
            let so = start_octave_exec(&cropped);
            let mml = generate_mml_final(&cropped, bpm, so, compress_mode, tempo_changes);
            let char_count = mml.as_str().unicode_len();
            let name = voice_name_exec(k);
            let note_count = cropped.len();
            let ghost model = VoiceResultModel {
                name: spec_voice_name(k as int),
                content: encode_voice(crop_voice(vv[k as int], tbest), bpm, compress_mode,
                    tempo_changes@),
                note_count: crop_voice(vv[k as int], tbest).len() as int,
                duration_ticks: tbest as u32,
            };
            results.push(
                VoiceResult { name, content: mml, char_count, note_count, duration_ticks: best },
            );
            proof {
                done = done + seq![model];
                assert(done + spec_results(
                    vv.skip(k as int + 1),
                    k as int + 1,
                    tbest,
                    bpm,
                    compress_mode,
                    tempo_changes@,
                ) =~= all_models);
            }
        }
        k = k + 1;
    }
    proof {
        assert(vv.skip(vv.len() as int) =~= Seq::<Seq<Note>>::empty());
        assert(done =~= all_models);
    }
    results
}

pub(crate) proof fn lemma_voices_max_end_bounded(vs: Seq<Seq<Note>>)
    requires
        vnotes_ok(vs),
    ensures
        voices_max_end(vs) <= TICK_LIMIT,
    decreases vs.len(),
{
    if vs.len() > 0 {
        assert forall|v: int, k: int|
            0 <= v < vs.drop_last().len() && 0 <= k < vs.drop_last()[v].len() implies
            alloc_note_ok(#[trigger] vs.drop_last()[v][k]) by {
            assert(vs.drop_last()[v] == vs[v]);
        }
        lemma_voices_max_end_bounded(vs.drop_last());
        lemma_voice_max_end_bounded(vs.last(), vs.len() - 1, vs);
    }
}

proof fn lemma_voice_max_end_bounded(v: Seq<Note>, at: int, vs: Seq<Seq<Note>>)
    requires
        vnotes_ok(vs),
        0 <= at < vs.len(),
        v == vs[at],
    ensures
        voice_max_end(v) <= TICK_LIMIT,
{
    if voice_max_end(v) > TICK_LIMIT {
        lemma_voice_max_end_in(v);
        if v.len() > 0 && voice_max_end(v) > 0 {
            let j = choose|j: int| 0 <= j < v.len() && v[j].end == voice_max_end(v);
            assert(alloc_note_ok(vs[at][j]));
            assert(false);
        }
    }
}

proof fn lemma_voice_max_end_in(v: Seq<Note>)
    ensures
        voice_max_end(v) == 0 || exists|j: int| 0 <= j < v.len() && v[j].end == voice_max_end(v),
    decreases v.len(),
{
    if v.len() > 0 {
        lemma_voice_max_end_in(v.drop_last());
        if v.last().end > voice_max_end(v.drop_last()) {
            assert(v[v.len() - 1].end == voice_max_end(v));
        } else if voice_max_end(v.drop_last()) != 0 {
            let j = choose|j: int|
                0 <= j < v.drop_last().len() && v.drop_last()[j].end == voice_max_end(
                    v.drop_last(),
                );
            assert(v[j].end == voice_max_end(v));
        }
    }
}

} // verus!
