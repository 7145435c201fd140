//! Instrument-grouped conversion: notes are grouped by instrument label,
//! each group is allocated to voices independently, and all voices share
//! one budget search.

use vstd::prelude::*;
use vstd::string::StrSliceExecFns;
use vstd::string::StringExecFns;
use vstd::utf8::encode_utf8;
use crate::mml::generate_mml_final;
use crate::pipeline::all_cropped_fit;
use crate::pipeline::all_full_fit;
use crate::pipeline::crop_voice;
use crate::pipeline::encode_voice;
use crate::pipeline::keep_nonempty;
use crate::pipeline::results_match;
use crate::pipeline::spec_best_tick;
use crate::pipeline::spec_voice_name;
use crate::pipeline::voices_max_end;
use crate::pipeline::voices_encodable;
use crate::pipeline::VoiceResult;
use crate::pipeline::VoiceResultModel;
use crate::types::lemma_filter_elems;
use crate::types::Note;
use crate::types::TempoChange;
use crate::types::TICK_LIMIT;
use crate::voicing::allocate_voices_smart;
use crate::voicing::alloc_note_ok;
use crate::voicing::lemma_allocate_preserves;
use crate::voicing::spec_allocate;
use crate::voicing::voices_view;

verus! {

/// Byte-wise lexicographic order on UTF-8 encodings, the order labels are
/// listed in.
pub open spec fn bytes_lt(x: Seq<u8>, y: Seq<u8>) -> bool
    decreases x.len(),
{
    if y.len() == 0 {
        false
    } else if x.len() == 0 {
        true
    } else if x[0] < y[0] {
        true
    } else if x[0] > y[0] {
        false
    } else {
        bytes_lt(x.drop_first(), y.drop_first())
    }
}

/// Order on labels: their UTF-8 encodings compared byte-wise.
pub open spec fn label_lt(a: Seq<char>, b: Seq<char>) -> bool {
    bytes_lt(encode_utf8(a), encode_utf8(b))
}

/// Adds a label unless it is already listed.
pub open spec fn add_label(acc: Seq<Seq<char>>, l: Seq<char>) -> Seq<Seq<char>> {
    if acc.contains(l) {
        acc
    } else {
        acc.push(l)
    }
}

/// The distinct labels among the first `k` notes, in first-occurrence
/// order.
pub open spec fn labels_upto(notes: Seq<Note>, k: int) -> Seq<Seq<char>>
    decreases k,
{
    if k <= 0 {
        Seq::empty()
    } else {
        add_label(labels_upto(notes, k - 1), notes[k - 1].instrument@)
    }
}

/// Inserts a label into a sorted list, after labels it does not strictly
/// precede.
pub open spec fn insert_label(s: Seq<Seq<char>>, x: Seq<char>) -> Seq<Seq<char>>
    decreases s.len(),
{
    if s.len() == 0 {
        seq![x]
    } else if label_lt(x, s[0]) {
        seq![x] + s
    } else {
        seq![s[0]] + insert_label(s.drop_first(), x)
    }
}

/// Stable sort of labels.
pub open spec fn sort_labels(s: Seq<Seq<char>>) -> Seq<Seq<char>>
    decreases s.len(),
{
    if s.len() == 0 {
        s
    } else {
        insert_label(sort_labels(s.drop_last()), s.last())
    }
}

/// The instrument labels a conversion works through, sorted.
pub open spec fn spec_labels(notes: Seq<Note>) -> Seq<Seq<char>> {
    sort_labels(labels_upto(notes, notes.len() as int))
}

/// The notes tagged with one label, in input order.
pub open spec fn group_for(notes: Seq<Note>, label: Seq<char>) -> Seq<Note> {
    notes.filter(|n: Note| n.instrument@ == label)
}

/// The non-empty voices of one label's allocation.
pub open spec fn voices_for(notes: Seq<Note>, label: Seq<char>) -> Seq<Seq<Note>> {
    keep_nonempty(spec_allocate(group_for(notes, label)))
}

/// All voices of an instrument-grouped conversion, in label order.
pub open spec fn all_inst_voices(notes: Seq<Note>, ls: Seq<Seq<char>>) -> Seq<Seq<Note>>
    decreases ls.len(),
{
    if ls.len() == 0 {
        Seq::empty()
    } else {
        voices_for(notes, ls[0]) + all_inst_voices(notes, ls.drop_first())
    }
}

/// The labels of those voices, one per voice.
pub open spec fn all_inst_labels(notes: Seq<Note>, ls: Seq<Seq<char>>) -> Seq<Seq<char>>
    decreases ls.len(),
{
    if ls.len() == 0 {
        Seq::empty()
    } else {
        Seq::new(voices_for(notes, ls[0]).len(), |j: int| ls[0]) + all_inst_labels(
            notes,
            ls.drop_first(),
        )
    }
}

/// The display name of an instrument-grouped voice.
pub open spec fn spec_inst_name(idx: int, label: Seq<char>) -> Seq<char> {
    spec_voice_name(idx) + " ("@ + label + ")"@
}

/// The result models of instrument-grouped voices from index `idx` on.
pub open spec fn spec_inst_results(
    vs: Seq<Seq<Note>>,
    ls: Seq<Seq<char>>,
    idx: int,
    t: int,
    bpm: u32,
    compress_mode: bool,
    tempos: Seq<TempoChange>,
) -> Seq<VoiceResultModel>
    decreases vs.len(),
{
    if vs.len() == 0 || ls.len() == 0 {
        Seq::empty()
    } else {
        let c = crop_voice(vs[0], t);
        let rest = spec_inst_results(
            vs.drop_first(),
            ls.drop_first(),
            idx + 1,
            t,
            bpm,
            compress_mode,
            tempos,
        );
        if c.len() == 0 {
            rest
        } else {
            seq![
                VoiceResultModel {
                    name: spec_inst_name(idx, ls[0]),
                    content: encode_voice(c, bpm, compress_mode, tempos),
                    note_count: c.len() as int,
                    duration_ticks: t as u32,
                },
            ] + rest
        }
    }
}

fn bytes_lt_exec(a: &String, b: &String) -> (r: bool)
    ensures
        r == label_lt(a@, b@),
{
    let av = a.as_str().as_bytes_vec();
    let bv = b.as_str().as_bytes_vec();
    let ghost x = encode_utf8(a@);
    let ghost y = encode_utf8(b@);
    proof {
        assert(x.skip(0) =~= x);
        assert(y.skip(0) =~= y);
    }
    let mut i: usize = 0;
    while i < av.len() && i < bv.len() && av[i] == bv[i]
        invariant
            i <= av@.len(),
            i <= bv@.len(),
            av@ == x,
            bv@ == y,
            bytes_lt(x, y) == bytes_lt(x.skip(i as int), y.skip(i as int)),
        decreases av@.len() - i,
    {
        proof {
            assert(x.skip(i as int)[0] == x[i as int]);
            assert(y.skip(i as int)[0] == y[i as int]);
            assert(x.skip(i as int).drop_first() =~= x.skip(i as int + 1));
            assert(y.skip(i as int).drop_first() =~= y.skip(i as int + 1));
        }
        i = i + 1;
    }
    proof {
        if i < av@.len() && i < bv@.len() {
            assert(x.skip(i as int)[0] == x[i as int]);
            assert(y.skip(i as int)[0] == y[i as int]);
        }
    }
    if i >= bv.len() {
        false
    } else if i >= av.len() {
        true
    } else {
        av[i] < bv[i]
    }
}

/// Abstract view of a label list.
pub open spec fn labels_view(s: Seq<String>) -> Seq<Seq<char>> {
    s.map_values(|x: String| x@)
}

fn contains_label(acc: &Vec<String>, x: &String) -> (b: bool)
    ensures
        b == labels_view(acc@).contains(x@),
{
    let mut j: usize = 0;
    while j < acc.len()
        invariant
            j <= acc@.len(),
            forall|m: int| 0 <= m < j ==> labels_view(acc@)[m] != x@,
        decreases acc@.len() - j,
    {
        if acc[j] == *x {
            proof {
                assert(labels_view(acc@)[j as int] == x@);
            }
            return true;
        }
        j = j + 1;
    }
    false
}

fn collect_labels(notes: &Vec<Note>) -> (r: Vec<String>)
    ensures
        labels_view(r@) == labels_upto(notes@, notes@.len() as int),
{
    let mut acc: Vec<String> = Vec::new();
    proof {
        assert(labels_view(acc@) =~= labels_upto(notes@, 0));
    }
    let mut k: usize = 0;
    while k < notes.len()
        invariant
            k <= notes@.len(),
            labels_view(acc@) == labels_upto(notes@, k as int),
        decreases notes@.len() - k,
    {
        let l = notes[k].instrument.clone();
        let already = contains_label(&acc, &l);
        if !already {
            let ghost old_acc = acc@;
            acc.push(l);
            proof {
                assert(labels_view(acc@) =~= labels_view(old_acc).push(
                    notes@[k as int].instrument@,
                ));
            }
        }
        k = k + 1;
    }
    acc
}

proof fn lemma_insert_label_at(s: Seq<Seq<char>>, x: Seq<char>, j: int)
    requires
        0 <= j <= s.len(),
        forall|m: int| 0 <= m < j ==> !label_lt(x, #[trigger] s[m]),
        j < s.len() ==> label_lt(x, s[j]),
    ensures
        insert_label(s, x) == s.insert(j, x),
    decreases j,
{
    if j == 0 {
        if s.len() == 0 {
            assert(insert_label(s, x) =~= s.insert(0, x));
        } else {
            assert(seq![x] + s =~= s.insert(0, x));
        }
    } else {
        assert(!label_lt(x, s[0]));
        lemma_insert_label_at(s.drop_first(), x, j - 1);
        assert(seq![s[0]] + s.drop_first().insert(j - 1, x) =~= s.insert(j, x));
    }
}

fn sort_labels_exec(labels: Vec<String>) -> (r: Vec<String>)
    ensures
        labels_view(r@) == sort_labels(labels_view(labels@)),
{
    let ghost lv = labels_view(labels@);
    let mut out: Vec<String> = Vec::new();
    proof {
        assert(lv.take(0) =~= Seq::<Seq<char>>::empty());
        assert(labels_view(out@) =~= sort_labels(lv.take(0)));
    }
    let mut k: usize = 0;
    while k < labels.len()
        invariant
            k <= labels@.len(),
            lv == labels_view(labels@),
            labels_view(out@) == sort_labels(lv.take(k as int)),
        decreases labels@.len() - k,
    {
        let x = labels[k].clone();
        let mut j: usize = 0;
        while j < out.len() && !bytes_lt_exec(&x, &out[j])
            invariant
                j <= out@.len(),
                x@ == lv[k as int],
                labels_view(out@) == sort_labels(lv.take(k as int)),
                forall|m: int| 0 <= m < j ==> !label_lt(x@, #[trigger] labels_view(out@)[m]),
            decreases out@.len() - j,
        {
            j = j + 1;
        }
        proof {
            lemma_insert_label_at(labels_view(out@), x@, j as int);
        }
        let ghost old_out = out@;
        out.insert(j, x);
        proof {
            assert(labels_view(out@) =~= labels_view(old_out).insert(j as int, lv[k as int]));
            assert(lv.take(k as int + 1).drop_last() =~= lv.take(k as int));
            assert(lv.take(k as int + 1).last() == lv[k as int]);
        }
        k = k + 1;
    }
    proof {
        assert(lv.take(lv.len() as int) =~= lv);
    }
    out
}

fn filter_group(notes: &Vec<Note>, label: &String) -> (r: Vec<Note>)
    ensures
        r@ == group_for(notes@, label@),
{
    let ghost nv = notes@;
    let mut out: Vec<Note> = Vec::new();
    proof {
        reveal(Seq::filter);
        assert(nv.take(0) =~= Seq::<Note>::empty());
        assert(out@ =~= group_for(nv.take(0), label@));
    }
    let mut j: usize = 0;
    while j < notes.len()
        invariant
            j <= nv.len(),
            nv == notes@,
            out@ == group_for(nv.take(j as int), label@),
        decreases nv.len() - j,
    {
        proof {
            reveal(Seq::filter);
            assert(nv.take(j as int + 1).drop_last() =~= nv.take(j as int));
            assert(nv.take(j as int + 1).last() == nv[j as int]);
        }
        if notes[j].instrument == *label {
            let x = notes[j].clone();
            out.push(x);
        }
        j = j + 1;
    }
    proof {
        assert(nv.take(nv.len() as int) =~= nv);
    }
    out
}

fn inst_name_exec(idx: usize, label: &String) -> (r: String)
    ensures
        r@ == spec_inst_name(idx as int, label@),
{
    proof {
        reveal_strlit(" (");
        reveal_strlit(")");
    }
    let mut s = crate::pipeline::voice_name_exec(idx);
    s.append(" (");
    s.append(label.as_str());
    s.append(")");
    proof {
        assert(s@ =~= spec_inst_name(idx as int, label@));
    }
    s
}

/// Converts notes grouped by instrument label: each label's notes are
/// allocated to voices independently (labels in byte order), all voices
/// share one budget search, and each voice is named after its index and
/// instrument. Every returned voice's character count is within the
/// budget, and when the untruncated encodings did not all fit, the
/// truncation tick lies strictly before the end of the piece.
#[verifier::rlimit(100)]
pub fn convert_by_instrument(
    notes: Vec<Note>,
    bpm: u32,
    char_limit: usize,
    compress_mode: bool,
    tempo_changes: &Vec<TempoChange>,
) -> (r: Vec<VoiceResult>)
    requires
        forall|k: int| 0 <= k < notes@.len() ==> alloc_note_ok(#[trigger] notes@[k]),
        notes@.len() <= TICK_LIMIT as int,
        forall|j: int|
            0 <= j < tempo_changes@.len() ==> (#[trigger] tempo_changes@[j]).tick <= TICK_LIMIT,
    ensures
        ({
            let ls = spec_labels(notes@);
            let vv = all_inst_voices(notes@, ls);
            let lbls = all_inst_labels(notes@, ls);
            let tbest = spec_best_tick(vv, bpm, compress_mode, tempo_changes@, char_limit as int);
            &&& results_match(
                r@,
                spec_inst_results(vv, lbls, 0, tbest, bpm, compress_mode, tempo_changes@),
            )
            &&& (!all_full_fit(vv, bpm, compress_mode, tempo_changes@, char_limit as int)
                ==> tbest < voices_max_end(vv) as int)
        }),
        forall|k: int| 0 <= k < r@.len() ==> (#[trigger] r@[k]).char_count <= char_limit,
{
    let ghost nv = notes@;
    let raw_labels = collect_labels(&notes);
    let sorted_labels = sort_labels_exec(raw_labels);
    let ghost ls = spec_labels(nv);
    proof {
        assert(labels_view(sorted_labels@) == ls);
    }
    // allocate each label's notes and collect the non-empty voices
    let mut voices: Vec<Vec<Note>> = Vec::new();
    let mut vlabels: Vec<String> = Vec::new();
    proof {
        assert(ls.skip(0) =~= ls);
        assert(voices_view(voices@) + all_inst_voices(nv, ls.skip(0)) =~= all_inst_voices(nv, ls));
        assert(labels_view(vlabels@) + all_inst_labels(nv, ls.skip(0)) =~= all_inst_labels(
            nv,
            ls,
        ));
    }
    let mut li: usize = 0;
    while li < sorted_labels.len()
        invariant
            li <= sorted_labels@.len(),
            nv == notes@,
            ls == labels_view(sorted_labels@),
            forall|k: int| 0 <= k < nv.len() ==> alloc_note_ok(#[trigger] nv[k]),
            nv.len() <= TICK_LIMIT as int,
            voices@.len() == vlabels@.len(),
            voices_view(voices@) + all_inst_voices(nv, ls.skip(li as int)) == all_inst_voices(
                nv,
                ls,
            ),
            labels_view(vlabels@) + all_inst_labels(nv, ls.skip(li as int)) == all_inst_labels(
                nv,
                ls,
            ),
            voices_encodable(voices_view(voices@)),
            forall|v: int| 0 <= v < voices@.len() ==> (#[trigger] voices@[v]@).len() > 0,
        decreases sorted_labels@.len() - li,
    {
        proof {
            assert(ls.skip(li as int)[0] == ls[li as int]);
            assert(ls.skip(li as int).drop_first() =~= ls.skip(li as int + 1));
            assert(ls[li as int] == sorted_labels@[li as int]@);
        }
        let group = filter_group(&notes, &sorted_labels[li]);
        proof {
            let g = group_for(nv, ls[li as int]);
            nv.lemma_filter_len(|n: Note| n.instrument@ == ls[li as int]);
            assert forall|k: int| 0 <= k < g.len() implies alloc_note_ok(#[trigger] g[k]) by {
                lemma_filter_elems(nv, |n: Note| n.instrument@ == ls[li as int], k);
                let w = choose|w: int| 0 <= w < nv.len() && nv[w] == g[k];
            }
            lemma_allocate_preserves(g);
        }
        let allocated = allocate_voices_smart(group);
        let mut kept = crate::pipeline::drop_empty_voices(allocated);
        let ghost kv = voices_for(nv, ls[li as int]);
        proof {
            assert(voices_view(kept@) == kv);
            assert forall|v: int| 0 <= v < kv.len() implies (#[trigger] kv[v]).len() > 0 && (
            kv[v]).len() <= TICK_LIMIT as int && (forall|k: int|
                0 <= k < kv[v].len() ==> alloc_note_ok(#[trigger] kv[v][k])) by {
                crate::pipeline::lemma_keep_nonempty_elems(
                    spec_allocate(group_for(nv, ls[li as int])),
                    v,
                );
                let w = choose|w: int|
                    0 <= w < spec_allocate(group_for(nv, ls[li as int])).len() && spec_allocate(
                        group_for(nv, ls[li as int]),
                    )[w] == kv[v];
            }
        }
        let ghost pre_v = voices_view(voices@);
        let ghost pre_l = labels_view(vlabels@);
        proof {
            assert(kv.take(0) =~= Seq::<Seq<Note>>::empty());
            assert(voices_view(voices@) =~= pre_v + kv.take(0));
            assert(labels_view(vlabels@) =~= pre_l + Seq::new(0, |j: int| ls[li as int]));
        }
        while kept.len() > 0
            invariant
                kept@.len() <= kv.len(),
                voices@.len() == vlabels@.len(),
                voices_view(kept@) == kv.skip(kv.len() - kept@.len()),
                voices_view(voices@) == pre_v + kv.take(kv.len() - kept@.len()),
                labels_view(vlabels@) == pre_l + Seq::new(
                    (kv.len() - kept@.len()) as nat,
                    |j: int| ls[li as int],
                ),
                li < sorted_labels@.len(),
                ls == labels_view(sorted_labels@),
                ls[li as int] == sorted_labels@[li as int]@,
                forall|v: int|
                    0 <= v < kv.len() ==> (#[trigger] kv[v]).len() > 0 && (kv[v]).len()
                        <= TICK_LIMIT as int && (forall|k: int|
                        0 <= k < kv[v].len() ==> alloc_note_ok(#[trigger] kv[v][k])),
                voices_encodable(voices_view(voices@)),
                forall|v: int| 0 <= v < voices@.len() ==> (#[trigger] voices@[v]@).len() > 0,
            decreases kept@.len(),
        {
            let ghost done = kv.len() - kept@.len();
            let ghost old_kept = kept@;
            let ghost old_voices = voices@;
            let ghost old_vlabels = vlabels@;
            let v = kept.remove(0);
            proof {
                assert(kept@ =~= old_kept.drop_first());
                assert(voices_view(old_kept)[0] == v@);
                assert(v@ == kv[done]);
                assert(voices_view(kept@) =~= voices_view(old_kept).drop_first());
                assert(voices_view(kept@) =~= kv.skip(kv.len() - kept@.len()));
            }
            voices.push(v);
            let lab = sorted_labels[li].clone();
            vlabels.push(lab);
            proof {
                assert(voices_view(voices@) =~= voices_view(old_voices).push(kv[done]));
                assert(kv.take(done + 1) =~= kv.take(done).push(kv[done]));
                assert(voices_view(voices@) =~= pre_v + kv.take(kv.len() - kept@.len()));
                assert(labels_view(vlabels@) =~= labels_view(old_vlabels).push(ls[li as int]));
                assert(labels_view(vlabels@) =~= pre_l + Seq::new(
                    (kv.len() - kept@.len()) as nat,
                    |j: int| ls[li as int],
                ));
                assert forall|w: int|
                    0 <= w < voices@.len() implies (#[trigger] voices@[w]@).len() > 0 by {
                    if w < old_voices.len() {
                        assert(voices@[w] == old_voices[w]);
                    } else {
                        assert(voices@[w]@ == kv[done]);
                    }
                }
                assert forall|w: int, k: int|
                    0 <= w < voices_view(voices@).len() && 0 <= k < voices_view(voices@)[w].len()
                    implies alloc_note_ok(#[trigger] voices_view(voices@)[w][k]) by {
                    if w < old_voices.len() {
                        assert(voices_view(voices@)[w] == voices_view(old_voices)[w]);
                    } else {
                        assert(voices_view(voices@)[w] == kv[done]);
                    }
                }
                assert forall|w: int|
                    0 <= w < voices_view(voices@).len() implies (#[trigger] voices_view(
                    voices@,
                )[w]).len() <= TICK_LIMIT as int by {
                    if w < old_voices.len() {
                        assert(voices_view(voices@)[w] == voices_view(old_voices)[w]);
                    } else {
                        assert(voices_view(voices@)[w] == kv[done]);
                    }
                }
            }
        }
        proof {
            assert(kv.take(kv.len() as int) =~= kv);
            assert(voices_view(voices@) =~= pre_v + kv);
            assert(voices_view(voices@) + all_inst_voices(nv, ls.skip(li as int + 1))
                =~= all_inst_voices(nv, ls));
            assert(labels_view(vlabels@) =~= pre_l + Seq::new(
                kv.len(),
                |j: int| ls[li as int],
            ));
            assert(labels_view(vlabels@) + all_inst_labels(nv, ls.skip(li as int + 1))
                =~= all_inst_labels(nv, ls));
        }
        li = li + 1;
    }
    let ghost vv = all_inst_voices(nv, ls);
    let ghost lbls = all_inst_labels(nv, ls);
    proof {
        assert(all_inst_voices(nv, ls.skip(ls.len() as int)) =~= Seq::<Seq<Note>>::empty());
        assert(all_inst_labels(nv, ls.skip(ls.len() as int)) =~= Seq::<Seq<char>>::empty());
        assert(voices_view(voices@) =~= vv);
        assert(labels_view(vlabels@) =~= lbls);
    }
    // shared budget search across all voices
    let max_end = crate::pipeline::compute_max_end(&voices);
    proof {
        crate::pipeline::lemma_voices_max_end_bounded(vv);
    }
    let full_ok = crate::pipeline::full_fit(&voices, bpm, compress_mode, tempo_changes,
        char_limit);
    let best: u32 = if full_ok {
        max_end
    } else {
        crate::pipeline::search_best_tick(&voices, max_end, bpm, compress_mode, tempo_changes,
            char_limit)
    };
    let ghost tbest = spec_best_tick(vv, bpm, compress_mode, tempo_changes@, char_limit as int);
    proof {
        assert(best as int == tbest);
        if full_ok {
            assert forall|k: int| 0 <= k < vv.len() implies (crop_voice(
                #[trigger] vv[k],
                tbest,
            ).len() > 0 ==> encode_voice(
                crop_voice(vv[k], tbest),
                bpm,
                compress_mode,
                tempo_changes@,
            ).len() <= char_limit as int) by {
                assert forall|j: int| 0 <= j < vv[k].len() implies (#[trigger] vv[k][j]).start
                    < tbest by {
                    crate::pipeline::lemma_voice_max_end_ge(vv[k], j);
                    crate::pipeline::lemma_voices_max_end_ge(vv, k);
                }
                crate::pipeline::lemma_crop_all(vv[k], tbest);
            }
            assert(all_cropped_fit(vv, tbest, bpm, compress_mode, tempo_changes@,
                char_limit as int));
        } else {
            crate::pipeline::lemma_bsearch_valid(
                vv,
                bpm,
                compress_mode,
                tempo_changes@,
                char_limit as int,
                0,
                max_end as int,
                0,
            );
            if tbest == 0 {
                assert forall|k: int| 0 <= k < vv.len() implies crop_voice(
                    #[trigger] vv[k],
                    0,
                ).len() == 0 by {
                    crate::pipeline::lemma_crop_none(vv[k], 0);
                }
                assert(all_cropped_fit(vv, tbest, bpm, compress_mode, tempo_changes@,
                    char_limit as int));
            }
            let m = voices_max_end(vv) as int;
            let w = choose|w: int|
                0 <= w < vv.len() && encode_voice(vv[w], bpm, compress_mode, tempo_changes@).len()
                    > char_limit as int;
            assert forall|j: int| 0 <= j < vv[w].len() implies (#[trigger] vv[w][j]).start
                < m by {
                crate::pipeline::lemma_voice_max_end_ge(vv[w], j);
                crate::pipeline::lemma_voices_max_end_ge(vv, w);
            }
            crate::pipeline::lemma_crop_all(vv[w], m);
            assert(vv[w].len() > 0) by {
                assert(vv[w] == voices_view(voices@)[w]);
                assert(voices@[w]@.len() > 0);
            }
            assert(crop_voice(vv[w], m).len() > 0);
            assert(!all_cropped_fit(vv, m, bpm, compress_mode, tempo_changes@,
                char_limit as int));
            if m > 0 {
                crate::pipeline::lemma_bsearch_lt(
                    vv,
                    bpm,
                    compress_mode,
                    tempo_changes@,
                    char_limit as int,
                    0,
                    max_end as int,
                    0,
                    m,
                );
            } else {
                assert(vv[w][0].end <= voices_max_end(vv)) by {
                    crate::pipeline::lemma_voice_max_end_ge(vv[w], 0);
                    crate::pipeline::lemma_voices_max_end_ge(vv, w);
                }
                assert(false);
            }
        }
    }
    // final crop and assembly
    let mut results: Vec<VoiceResult> = Vec::new();
    let ghost mut done: Seq<VoiceResultModel> = Seq::empty();
    let ghost all_models = spec_inst_results(vv, lbls, 0, tbest, bpm, compress_mode,
        tempo_changes@);
    proof {
        assert(vv.skip(0) =~= vv);
        assert(lbls.skip(0) =~= lbls);
        assert(done + spec_inst_results(
            vv.skip(0),
            lbls.skip(0),
            0,
            tbest,
            bpm,
            compress_mode,
            tempo_changes@,
        ) =~= all_models);
    }
    let mut k: usize = 0;
    while k < voices.len()
        invariant
            k <= voices@.len(),
            voices@.len() == vlabels@.len(),
            vv == voices_view(voices@),
            lbls == labels_view(vlabels@),
            vv.len() == lbls.len(),
            voices_encodable(vv),
            forall|j: int|
                0 <= j < tempo_changes@.len() ==> (#[trigger] tempo_changes@[j]).tick
                    <= TICK_LIMIT,
            best as int == tbest,
            all_cropped_fit(vv, tbest, bpm, compress_mode, tempo_changes@, char_limit as int),
            all_models == spec_inst_results(vv, lbls, 0, tbest, bpm, compress_mode,
                tempo_changes@),
            results_match(results@, done),
            done + spec_inst_results(
                vv.skip(k as int),
                lbls.skip(k as int),
                k as int,
                tbest,
                bpm,
                compress_mode,
                tempo_changes@,
            ) == all_models,
            forall|i: int|
                0 <= i < results@.len() ==> (#[trigger] results@[i]).char_count <= char_limit,
        decreases voices@.len() - k,
    {
        proof {
            assert(vv[k as int] == voices@[k as int]@);
            assert(lbls[k as int] == vlabels@[k as int]@);
            assert(vv.skip(k as int)[0] == vv[k as int]);
            assert(lbls.skip(k as int)[0] == lbls[k as int]);
            assert(vv.skip(k as int).drop_first() =~= vv.skip(k as int + 1));
            assert(lbls.skip(k as int).drop_first() =~= lbls.skip(k as int + 1));
            crate::pipeline::lemma_crop_encodable(vv, k as int, tbest);
        }
        let cropped = crate::pipeline::crop_voice_exec(&voices[k], best);
        if cropped.len() > 0 {
            let so = crate::pipeline::start_octave_exec(&cropped);
            let mml = generate_mml_final(&cropped, bpm, so, compress_mode, tempo_changes);
            let char_count = mml.as_str().unicode_len();
            let name = inst_name_exec(k, &vlabels[k]);
            let note_count = cropped.len();
            let ghost model = VoiceResultModel {
                name: spec_inst_name(k as int, lbls[k as int]),
                content: encode_voice(crop_voice(vv[k as int], tbest), bpm, compress_mode,
                    tempo_changes@),
                note_count: crop_voice(vv[k as int], tbest).len() as int,
                duration_ticks: tbest as u32,
            };
            results.push(
                VoiceResult { name, content: mml, char_count, note_count, duration_ticks: best },
            );
            proof {
                done = done + seq![model];
                assert(done + spec_inst_results(
                    vv.skip(k as int + 1),
                    lbls.skip(k as int + 1),
                    k as int + 1,
                    tbest,
                    bpm,
                    compress_mode,
                    tempo_changes@,
                ) =~= all_models);
            }
        }
        k = k + 1;
    }
    proof {
        assert(vv.skip(vv.len() as int) =~= Seq::<Seq<Note>>::empty());
        assert(done =~= all_models);
    }
    results
}

} // verus!
