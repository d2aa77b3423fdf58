//! The segmentation engine: turns input text into an ordered sequence of
//! output tokens, each either the pronunciation of a dictionary key or a
//! single literal character.
//!
//! The engine works in two phases. The discovery phase scans the whole input
//! with the matcher once and collects the distinct `(key, pronunciation)`
//! pairs that occur anywhere in it, ranked by key length descending. The
//! reconstruction phase walks the input left to right; at each position it
//! emits the pronunciation of the first ranked candidate whose key matches
//! there, or the literal character when none does.

use vstd::prelude::*;
use vstd::string::StrSliceExecFns;
use vstd::string::StringExecFns;
use crate::matcher::{
    builds_ok,
    dedup_last_wins_spec,
    has_key,
    hit_pairs_spec,
    keys_of,
    occurs_in,
    view_pairs,
    CompiledMatcher,
};
use crate::text::{chars_vec, string_from_range};
use crate::text::string_eq;

verus! {

/// Stable insertion of `x` into `t`: `x` goes after every entry whose key is
/// at least as long as its own.
pub open spec fn insert_desc(
    t: Seq<(Seq<char>, Seq<char>)>,
    x: (Seq<char>, Seq<char>),
) -> Seq<(Seq<char>, Seq<char>)>
    decreases t.len(),
{
    if t.len() == 0 {
        seq![x]
    } else if t[0].0.len() >= x.0.len() {
        seq![t[0]] + insert_desc(t.drop_first(), x)
    } else {
        seq![x] + t
    }
}

/// Stable sort by key length descending: entries with equal key length keep
/// their relative order.
pub open spec fn sort_by_len_spec(s: Seq<(Seq<char>, Seq<char>)>) -> Seq<(Seq<char>, Seq<char>)>
    decreases s.len(),
{
    if s.len() == 0 {
        Seq::empty()
    } else {
        insert_desc(sort_by_len_spec(s.drop_last()), s.last())
    }
}

/// Deduplication by key that keeps the first occurrence of each key.
pub open spec fn dedup_first_spec(s: Seq<(Seq<char>, Seq<char>)>) -> Seq<(Seq<char>, Seq<char>)>
    decreases s.len(),
{
    if s.len() == 0 {
        Seq::empty()
    } else {
        let r = dedup_first_spec(s.drop_last());
        if has_key(r, s.last().0) {
            r
        } else {
            r.push(s.last())
        }
    }
}

/// The ranked candidate set of the discovery phase: the matcher's hits on
/// `input`, deduplicated by key, sorted by key length descending.
pub open spec fn rank_spec(
    dict: Seq<(Seq<char>, Seq<char>)>,
    input: Seq<char>,
) -> Seq<(Seq<char>, Seq<char>)> {
    sort_by_len_spec(dedup_first_spec(hit_pairs_spec(dict, input)))
}

/// Candidate `c` matches `input` exactly at position `i`.
pub open spec fn matches_at(c: (Seq<char>, Seq<char>), input: Seq<char>, i: int) -> bool {
    &&& 1 <= c.0.len()
    &&& 0 <= i
    &&& i + c.0.len() <= input.len()
    &&& input.subrange(i, i + c.0.len()) == c.0
}

/// The first candidate at or after rank `j` that matches `input` at `i`.
pub open spec fn first_match_from(
    cands: Seq<(Seq<char>, Seq<char>)>,
    input: Seq<char>,
    i: int,
    j: int,
) -> Option<(Seq<char>, Seq<char>)>
    decreases cands.len() - j,
{
    if j < 0 || j >= cands.len() {
        None
    } else if matches_at(cands[j], input, i) {
        Some(cands[j])
    } else {
        first_match_from(cands, input, i, j + 1)
    }
}

proof fn lemma_first_match_from(
    cands: Seq<(Seq<char>, Seq<char>)>,
    input: Seq<char>,
    i: int,
    j: int,
)
    ensures
        first_match_from(cands, input, i, j) matches Some(c) ==> matches_at(c, input, i),
    decreases cands.len() - j,
{
    if j < 0 || j >= cands.len() {
    } else if matches_at(cands[j], input, i) {
    } else {
        lemma_first_match_from(cands, input, i, j + 1);
    }
}

/// The reconstruction phase from position `i` on: each element pairs the
/// consumed characters with the emitted token.
pub open spec fn reconstruct(
    cands: Seq<(Seq<char>, Seq<char>)>,
    input: Seq<char>,
    i: int,
) -> Seq<(Seq<char>, Seq<char>)>
    decreases input.len() - i,
    via reconstruct_decreases
{
    if i < 0 || i >= input.len() {
        Seq::empty()
    } else {
        match first_match_from(cands, input, i, 0) {
            Some(c) => seq![(c.0, c.1)] + reconstruct(cands, input, i + c.0.len()),
            None => seq![(seq![input[i]], seq![input[i]])] + reconstruct(cands, input, i + 1),
        }
    }
}

#[via_fn]
proof fn reconstruct_decreases(cands: Seq<(Seq<char>, Seq<char>)>, input: Seq<char>, i: int) {
    lemma_first_match_from(cands, input, i, 0);
}

/// The emitted tokens of a reconstruction.
pub open spec fn emitted_tokens(segs: Seq<(Seq<char>, Seq<char>)>) -> Seq<Seq<char>> {
    segs.map_values(|p: (Seq<char>, Seq<char>)| p.1)
}

/// The number of input characters a reconstruction consumes.
pub open spec fn consumed_total(segs: Seq<(Seq<char>, Seq<char>)>) -> int
    decreases segs.len(),
{
    if segs.len() == 0 {
        0
    } else {
        segs[0].0.len() + consumed_total(segs.drop_first())
    }
}

/// The consumed characters of a reconstruction, in order.
pub open spec fn consumed_chars(segs: Seq<(Seq<char>, Seq<char>)>) -> Seq<char>
    decreases segs.len(),
{
    if segs.len() == 0 {
        Seq::empty()
    } else {
        segs[0].0 + consumed_chars(segs.drop_first())
    }
}

/// The full output of the engine on `input` for the record list `dict`.
pub open spec fn segment_spec(dict: Seq<(Seq<char>, Seq<char>)>, input: Seq<char>) -> Seq<
    Seq<char>,
> {
    emitted_tokens(reconstruct(rank_spec(dict, input), input, 0))
}

/// One literal token per input character.
pub open spec fn lit_tokens(input: Seq<char>) -> Seq<Seq<char>> {
    Seq::new(input.len(), |k: int| seq![input[k]])
}

/// Total coverage: from any position, the reconstruction consumes exactly
/// the rest of the input, character for character — so the engine never
/// drops or duplicates a character, whatever the candidate set is.
pub proof fn lemma_reconstruct_covers(
    cands: Seq<(Seq<char>, Seq<char>)>,
    input: Seq<char>,
    i: int,
)
    requires
        0 <= i <= input.len(),
    ensures
        consumed_total(reconstruct(cands, input, i)) == input.len() - i,
        consumed_chars(reconstruct(cands, input, i)) == input.subrange(i, input.len() as int),
    decreases input.len() - i,
{
    let segs = reconstruct(cands, input, i);
    if i >= input.len() {
        assert(input.subrange(i, input.len() as int) =~= Seq::<char>::empty());
    } else {
        match first_match_from(cands, input, i, 0) {
            Some(c) => {
                lemma_first_match_from(cands, input, i, 0);
                let rest = reconstruct(cands, input, i + c.0.len());
                lemma_reconstruct_covers(cands, input, i + c.0.len());
                assert(segs.drop_first() =~= rest);
                assert(segs[0] == (c.0, c.1));
                assert(consumed_chars(segs) =~= input.subrange(i, input.len() as int));
            },
            None => {
                let rest = reconstruct(cands, input, i + 1);
                lemma_reconstruct_covers(cands, input, i + 1);
                assert(segs.drop_first() =~= rest);
                assert(segs[0] == (seq![input[i]], seq![input[i]]));
                assert(consumed_chars(segs) =~= input.subrange(i, input.len() as int));
            },
        }
    }
}

/// Total coverage of the engine: the consumed character count of the
/// segmentation equals the input's character count, for every record list
/// and every input; an empty input yields an empty token sequence.
pub proof fn lemma_segment_total_coverage(dict: Seq<(Seq<char>, Seq<char>)>, input: Seq<char>)
    ensures
        consumed_total(reconstruct(rank_spec(dict, input), input, 0)) == input.len(),
        consumed_chars(reconstruct(rank_spec(dict, input), input, 0)) == input,
        input.len() == 0 ==> segment_spec(dict, input) == Seq::<Seq<char>>::empty(),
{
    lemma_reconstruct_covers(rank_spec(dict, input), input, 0);
    assert(input.subrange(0, input.len() as int) =~= input);
}

/// With no candidates at all, the reconstruction is one literal token per
/// remaining character.
proof fn lemma_reconstruct_no_cands(cands: Seq<(Seq<char>, Seq<char>)>, input: Seq<char>, i: int)
    requires
        cands.len() == 0,
        0 <= i <= input.len(),
    ensures
        emitted_tokens(reconstruct(cands, input, i)) == Seq::new(
            (input.len() - i) as nat,
            |k: int| seq![input[i + k]],
        ),
    decreases input.len() - i,
{
    if i >= input.len() {
        assert(emitted_tokens(reconstruct(cands, input, i)) =~= Seq::new(
            (input.len() - i) as nat,
            |k: int| seq![input[i + k]],
        ));
    } else {
        assert(first_match_from(cands, input, i, 0) is None);
        lemma_reconstruct_no_cands(cands, input, i + 1);
        let segs = reconstruct(cands, input, i);
        let rest = reconstruct(cands, input, i + 1);
        assert(segs == seq![(seq![input[i]], seq![input[i]])] + rest);
        let e = emitted_tokens(segs);
        let rest_e = emitted_tokens(rest);
        let tgt = Seq::new((input.len() - i) as nat, |k: int| seq![input[i + k]]);
        assert(rest_e.len() == input.len() - (i + 1));
        assert(e.len() == 1 + rest_e.len());
        assert forall|k: int| 0 <= k < e.len() implies e[k] == tgt[k] by {
            if k == 0 {
                assert(segs[0] == (seq![input[i]], seq![input[i]]));
            } else {
                assert(segs[k] == rest[k - 1]);
                assert(e[k] == segs[k].1);
                assert(rest_e[k - 1] == rest[k - 1].1);
                assert(rest_e[k - 1] == seq![input[i + 1 + (k - 1)]]);
                assert(input[i + 1 + (k - 1)] == input[i + k]);
            }
        }
        assert(e =~= tgt);
    }
}

/// Places `x` at position `j` of `t` when everything before `j` is at least
/// as long as `x` and the entry at `j` (if any) is shorter.
proof fn lemma_insert_desc_at(
    t: Seq<(Seq<char>, Seq<char>)>,
    x: (Seq<char>, Seq<char>),
    j: int,
)
    requires
        0 <= j <= t.len(),
        forall|m: int| 0 <= m < j ==> (#[trigger] t[m]).0.len() >= x.0.len(),
        j < t.len() ==> t[j].0.len() < x.0.len(),
    ensures
        insert_desc(t, x) == t.subrange(0, j) + seq![x] + t.subrange(j, t.len() as int),
    decreases j,
{
    if j == 0 {
        if t.len() == 0 {
            assert(insert_desc(t, x) =~= t.subrange(0, 0) + seq![x] + t.subrange(
                0,
                t.len() as int,
            ));
        } else {
            assert(insert_desc(t, x) =~= t.subrange(0, 0) + seq![x] + t.subrange(
                0,
                t.len() as int,
            ));
        }
    } else {
        let tf = t.drop_first();
        assert forall|m: int| 0 <= m < j - 1 implies (#[trigger] tf[m]).0.len() >= x.0.len() by {
            assert(t[m + 1].0.len() >= x.0.len());
        }
        lemma_insert_desc_at(tf, x, j - 1);
        assert(insert_desc(t, x) == seq![t[0]] + insert_desc(tf, x));
        assert(seq![t[0]] + (tf.subrange(0, j - 1) + seq![x] + tf.subrange(j - 1, tf.len() as int))
            =~= t.subrange(0, j) + seq![x] + t.subrange(j, t.len() as int));
    }
}

/// Sorts entries by key character length, descending; entries with equal
/// length keep their relative order.
pub fn sort_by_key_length_desc(entries: Vec<(String, String)>) -> (r: Vec<(String, String)>)
    ensures
        view_pairs(r@) == sort_by_len_spec(view_pairs(entries@)),
{
    let mut out: Vec<(String, String)> = Vec::new();
    let mut i: usize = 0;
    while i < entries.len()
        invariant
            i <= entries@.len(),
            view_pairs(out@) == sort_by_len_spec(view_pairs(entries@.subrange(0, i as int))),
        decreases entries@.len() - i,
    {
        let ghost pre = view_pairs(out@);
        let ghost x = (entries@[i as int].0@, entries@[i as int].1@);
        let xlen: usize = entries[i].0.as_str().unicode_len();
        let mut j: usize = 0;
        let mut stop: bool = false;
        while j < out.len() && !stop
            invariant
                i < entries@.len(),
                x == (entries@[i as int].0@, entries@[i as int].1@),
                xlen == x.0.len(),
                pre == view_pairs(out@),
                j <= out@.len(),
                forall|m: int| 0 <= m < j ==> (#[trigger] pre[m]).0.len() >= x.0.len(),
                stop ==> j < out@.len() && pre[j as int].0.len() < x.0.len(),
            decreases out@.len() - j + (if stop { 0int } else { 1int }),
        {
            proof {
                assert(pre[j as int] == (out@[j as int].0@, out@[j as int].1@));
            }
            let l: usize = out[j].0.as_str().unicode_len();
            if l >= xlen {
                j += 1;
            } else {
                stop = true;
            }
        }
        out.insert(j, (entries[i].0.clone(), entries[i].1.clone()));
        proof {
            lemma_insert_desc_at(pre, x, j as int);
            assert(view_pairs(out@) =~= pre.subrange(0, j as int) + seq![x] + pre.subrange(
                j as int,
                pre.len() as int,
            ));
            let next = view_pairs(entries@.subrange(0, i + 1));
            assert(next.drop_last() =~= view_pairs(entries@.subrange(0, i as int)));
            assert(next.last() == x);
            assert(view_pairs(out@) == sort_by_len_spec(next));
        }
        i += 1;
    }
    proof {
        assert(entries@.subrange(0, entries@.len() as int) =~= entries@);
    }
    out
}

/// Keeps the first entry of each key, dropping later duplicates.
fn dedup_first(entries: &Vec<(String, String)>) -> (r: Vec<(String, String)>)
    ensures
        view_pairs(r@) == dedup_first_spec(view_pairs(entries@)),
{
    let mut out: Vec<(String, String)> = Vec::new();
    let mut i: usize = 0;
    while i < entries.len()
        invariant
            i <= entries@.len(),
            view_pairs(out@) == dedup_first_spec(view_pairs(entries@.subrange(0, i as int))),
        decreases entries@.len() - i,
    {
        let ghost pre = view_pairs(out@);
        let ghost rec = (entries@[i as int].0@, entries@[i as int].1@);
        let mut j: usize = 0;
        let mut found: bool = false;
        while j < out.len() && !found
            invariant
                i < entries@.len(),
                rec == (entries@[i as int].0@, entries@[i as int].1@),
                j <= out@.len(),
                pre == view_pairs(out@),
                forall|m: int| 0 <= m < j ==> (#[trigger] pre[m]).0 != rec.0,
                found ==> j < out@.len() && pre[j as int].0 == rec.0,
            decreases out@.len() - j + (if found { 0int } else { 1int }),
        {
            proof {
                assert(pre[j as int] == (out@[j as int].0@, out@[j as int].1@));
            }
            if string_eq(&out[j].0, &entries[i].0) {
                found = true;
            } else {
                j += 1;
            }
        }
        if !found {
            out.push((entries[i].0.clone(), entries[i].1.clone()));
            proof {
                assert(!has_key(pre, rec.0));
                assert(view_pairs(out@) =~= pre.push(rec));
            }
        } else {
            proof {
                assert(has_key(pre, rec.0));
            }
        }
        proof {
            let next = view_pairs(entries@.subrange(0, i + 1));
            assert(next.drop_last() =~= view_pairs(entries@.subrange(0, i as int)));
            assert(next.last() == rec);
            assert(view_pairs(out@) == dedup_first_spec(next));
        }
        i += 1;
    }
    proof {
        assert(entries@.subrange(0, entries@.len() as int) =~= entries@);
    }
    out
}

/// One literal token per character of `input`.
fn literal_passthrough(input: &str) -> (r: Vec<String>)
    ensures
        r@.map_values(|t: String| t@) == lit_tokens(input@),
{
    let input_chars = chars_vec(input);
    let n: usize = input_chars.len();
    let mut out: Vec<String> = Vec::new();
    let mut i: usize = 0;
    while i < n
        invariant
            i <= n,
            n == input@.len(),
            input_chars@ == input@,
            out@.len() == i,
            forall|m: int| 0 <= m < i ==> (#[trigger] out@[m])@ == seq![input@[m]],
        decreases n - i,
    {
        let tok = string_from_range(&input_chars, i, i + 1);
        proof {
            assert(input@.subrange(i as int, i + 1) =~= seq![input@[i as int]]);
        }
        out.push(tok);
        i += 1;
    }
    proof {
        assert(out@.map_values(|t: String| t@) =~= lit_tokens(input@));
    }
    out
}

/// Segments `input` with the given matcher into pronunciation and literal
/// tokens, never failing: every character yields an output token's worth of
/// progress, the literal character itself in the worst case.
pub fn segment(m: &CompiledMatcher, input: &str) -> (r: Vec<String>)
    ensures
        r@.map_values(|t: String| t@) == segment_spec(m@, input@),
        (forall|k: int| 0 <= k < m@.len() ==> !occurs_in((#[trigger] m@[k]).0, input@))
            ==> r@.map_values(|t: String| t@) == lit_tokens(input@),
{
    let hits = m.find_hit_pairs(input);
    let deduped = dedup_first(&hits);
    let cands = sort_by_key_length_desc(deduped);
    let ghost cv = view_pairs(cands@);
    let mut ck: Vec<(Vec<char>, String)> = Vec::new();
    let mut t: usize = 0;
    while t < cands.len()
        invariant
            t <= cands@.len(),
            cv == view_pairs(cands@),
            ck@.len() == t,
            forall|m1: int| 0 <= m1 < t ==> ((#[trigger] ck@[m1]).0@, ck@[m1].1@) == cv[m1],
        decreases cands@.len() - t,
    {
        proof {
            assert(cv[t as int] == (cands@[t as int].0@, cands@[t as int].1@));
        }
        ck.push((chars_vec(cands[t].0.as_str()), cands[t].1.clone()));
        t += 1;
    }
    let input_chars = chars_vec(input);
    let n: usize = input_chars.len();
    let mut out: Vec<String> = Vec::new();
    let mut i: usize = 0;
    while i < n
        invariant
            i <= n,
            n == input@.len(),
            input_chars@ == input@,
            cv == view_pairs(cands@),
            ck@.len() == cv.len(),
            forall|m1: int| 0 <= m1 < ck@.len() ==> ((#[trigger] ck@[m1]).0@, ck@[m1].1@) == cv[m1],
            emitted_tokens(reconstruct(cv, input@, 0)) == out@.map_values(|s: String| s@)
                + emitted_tokens(reconstruct(cv, input@, i as int)),
        decreases n - i,
    {
        let ghost pre_out = out@.map_values(|s: String| s@);
        let mut j: usize = 0;
        let mut chosen: bool = false;
        while j < ck.len() && !chosen
            invariant
                i < n,
                n == input@.len(),
                input_chars@ == input@,
                ck@.len() == cv.len(),
                forall|m1: int|
                    0 <= m1 < ck@.len() ==> ((#[trigger] ck@[m1]).0@, ck@[m1].1@) == cv[m1],
                j <= cv.len(),
                first_match_from(cv, input@, i as int, 0) == first_match_from(
                    cv,
                    input@,
                    i as int,
                    j as int,
                ),
                chosen ==> j < cv.len() && matches_at(cv[j as int], input@, i as int),
            decreases cv.len() - j + (if chosen { 0int } else { 1int }),
        {
            let klen: usize = ck[j].0.len();
            proof {
                assert((ck@[j as int].0@, ck@[j as int].1@) == cv[j as int]);
            }
            if klen >= 1 && klen <= n - i {
                let mut s: usize = 0;
                let mut eq: bool = true;
                while s < klen && eq
                    invariant
                        i < n,
                        n == input@.len(),
                        input_chars@ == input@,
                        j < ck@.len(),
                        klen == ck@[j as int].0@.len(),
                        ck@[j as int].0@ == cv[j as int].0,
                        klen <= n - i,
                        s <= klen,
                        eq ==> forall|m2: int|
                            0 <= m2 < s ==> input@[i + m2] == (#[trigger] cv[j as int].0[m2]),
                        !eq ==> !matches_at(cv[j as int], input@, i as int),
                    decreases klen - s + (if eq { 1int } else { 0int }),
                {
                    let a: char = input_chars[i + s];
                    let b: char = ck[j].0[s];
                    if a == b {
                        s += 1;
                    } else {
                        proof {
                            let key = cv[j as int].0;
                            if matches_at(cv[j as int], input@, i as int) {
                                assert(input@.subrange(i as int, i + key.len())[s as int] == input@[i
                                    + s]);
                            }
                        }
                        eq = false;
                    }
                }
                if eq {
                    proof {
                        let key = cv[j as int].0;
                        assert(input@.subrange(i as int, i + key.len()) =~= key);
                        assert(matches_at(cv[j as int], input@, i as int));
                    }
                    chosen = true;
                } else {
                    j += 1;
                }
            } else {
                proof {
                    assert(!matches_at(cv[j as int], input@, i as int));
                }
                j += 1;
            }
        }
        if chosen {
            let klen: usize = ck[j].0.len();
            proof {
                assert(first_match_from(cv, input@, i as int, j as int) == Some(cv[j as int]));
                assert((ck@[j as int].0@, ck@[j as int].1@) == cv[j as int]);
            }
            out.push(ck[j].1.clone());
            proof {
                let c = cv[j as int];
                let segs = reconstruct(cv, input@, i as int);
                assert(segs == seq![(c.0, c.1)] + reconstruct(cv, input@, i + c.0.len()));
                assert(emitted_tokens(segs) =~= seq![c.1] + emitted_tokens(
                    reconstruct(cv, input@, i + c.0.len()),
                ));
                assert(out@.map_values(|s2: String| s2@) =~= pre_out.push(c.1));
                assert(out@.map_values(|s2: String| s2@) + emitted_tokens(
                    reconstruct(cv, input@, i + c.0.len()),
                ) =~= pre_out + emitted_tokens(reconstruct(cv, input@, i as int)));
            }
            i += klen;
        } else {
            proof {
                assert(first_match_from(cv, input@, i as int, 0) == None::<(Seq<char>, Seq<char>)>);
            }
            let tok = string_from_range(&input_chars, i, i + 1);
            proof {
                assert(input@.subrange(i as int, i + 1) =~= seq![input@[i as int]]);
            }
            out.push(tok);
            proof {
                let segs = reconstruct(cv, input@, i as int);
                assert(segs == seq![(seq![input@[i as int]], seq![input@[i as int]])] + reconstruct(
                    cv,
                    input@,
                    i + 1,
                ));
                assert(emitted_tokens(segs) =~= seq![seq![input@[i as int]]] + emitted_tokens(
                    reconstruct(cv, input@, i + 1),
                ));
                assert(out@.map_values(|s2: String| s2@) =~= pre_out.push(seq![input@[i as int]]));
                assert(out@.map_values(|s2: String| s2@) + emitted_tokens(
                    reconstruct(cv, input@, i + 1),
                ) =~= pre_out + emitted_tokens(reconstruct(cv, input@, i as int)));
            }
            i += 1;
        }
    }
    proof {
        assert(emitted_tokens(reconstruct(cv, input@, n as int)) =~= Seq::<Seq<char>>::empty());
        assert(out@.map_values(|s: String| s@) =~= emitted_tokens(reconstruct(cv, input@, 0)));
        if forall|k: int| 0 <= k < m@.len() ==> !occurs_in((#[trigger] m@[k]).0, input@) {
            if hits@.len() > 0 {
                assert(occurs_in(hits@[0].0@, input@));
                assert(has_key(m@, hits@[0].0@));
                let k = choose|k: int| 0 <= k < m@.len() && m@[k].0 == hits@[0].0@;
                assert(!occurs_in(m@[k].0, input@));
            }
            assert(view_pairs(hits@) =~= Seq::<(Seq<char>, Seq<char>)>::empty());
            assert(view_pairs(deduped@) =~= Seq::<(Seq<char>, Seq<char>)>::empty());
            assert(cv =~= Seq::<(Seq<char>, Seq<char>)>::empty());
            lemma_reconstruct_no_cands(cv, input@, 0);
            assert(out@.map_values(|s: String| s@) =~= lit_tokens(input@));
        }
    }
    out
}

/// The demonstration dictionary of the word-matching entry point.
pub open spec fn demo_records_view() -> Seq<(Seq<char>, Seq<char>)> {
    seq![
        ("中国"@, "zhong guo1"@),
        ("中国人"@, "zhong guo ren2"@),
        ("中国人民"@, "zhong guo ren min3"@),
    ]
}

fn demo_records() -> (r: Vec<(String, String)>)
    ensures
        view_pairs(r@) == demo_records_view(),
        r@.len() == 3,
{
    let mut v: Vec<(String, String)> = Vec::new();
    v.push((String::from_str("中国"), String::from_str("zhong guo1")));
    v.push((String::from_str("中国人"), String::from_str("zhong guo ren2")));
    v.push((String::from_str("中国人民"), String::from_str("zhong guo ren min3")));
    proof {
        assert(view_pairs(v@) =~= demo_records_view());
    }
    v
}

/// Matches `word` against the demonstration dictionary and returns the
/// distinct `(key, pronunciation)` pairs found anywhere in it, sorted by key
/// length descending. Yields nothing in the (unreachable for this fixed
/// dictionary) case that the automaton cannot be built.
pub fn match_word_pinyin(word: &str) -> (r: Vec<(String, String)>)
    ensures
        ({
            let dict = dedup_last_wins_spec(demo_records_view());
            &&& (builds_ok(keys_of(dict)) ==> view_pairs(r@) == rank_spec(dict, word@))
            &&& (!builds_ok(keys_of(dict)) ==> r@ == Seq::<(String, String)>::empty())
        }),
{
    let records = demo_records();
    match CompiledMatcher::build(&records) {
        Ok(m) => {
            let hits = m.find_hit_pairs(word);
            let deduped = dedup_first(&hits);
            sort_by_key_length_desc(deduped)
        },
        Err(_) => Vec::new(),
    }
}

/// Converts `input` into its pronunciation tokens with the demonstration
/// dictionary: the segmentation engine applied to the matcher over the three
/// demonstration words. Falls back to one literal token per character in the
/// (unreachable for this fixed dictionary) case that the automaton cannot be
/// built.
pub fn convert(input: &str) -> (r: Vec<String>)
    ensures
        ({
            let dict = dedup_last_wins_spec(demo_records_view());
            &&& (builds_ok(keys_of(dict)) ==> r@.map_values(|t: String| t@) == segment_spec(
                dict,
                input@,
            ))
            &&& (!builds_ok(keys_of(dict)) ==> r@.map_values(|t: String| t@) == lit_tokens(input@))
        }),
{
    let records = demo_records();
    match CompiledMatcher::build(&records) {
        Ok(m) => segment(&m, input),
        Err(_) => literal_passthrough(input),
    }
}

} // verus!
