//! The compiled matcher: a multi-pattern automaton over the record keys,
//! built once from a finalized record list and immutable afterwards.
//!
//! Records are deduplicated before construction with last-write-wins
//! semantics: when two records share a key, the later pronunciation is the
//! one the matcher associates with that key.

use vstd::prelude::*;
use crate::text::string_eq;

verus! {

/// A dictionary record as the specifications see it: the key's characters
/// and the pronunciation's characters.
pub open spec fn view_pairs(s: Seq<(String, String)>) -> Seq<(Seq<char>, Seq<char>)> {
    s.map_values(|p: (String, String)| (p.0@, p.1@))
}

/// The keys of a record list, in order.
pub open spec fn keys_of(dict: Seq<(Seq<char>, Seq<char>)>) -> Seq<Seq<char>> {
    dict.map_values(|r: (Seq<char>, Seq<char>)| r.0)
}

/// The key-to-pronunciation map of a record list; a later record with the
/// same key overwrites an earlier one.
pub open spec fn record_map(rs: Seq<(Seq<char>, Seq<char>)>) -> Map<Seq<char>, Seq<char>>
    decreases rs.len(),
{
    if rs.len() == 0 {
        Map::empty()
    } else {
        record_map(rs.drop_last()).insert(rs.last().0, rs.last().1)
    }
}

/// Whether some record of `rs` has key `k`.
pub open spec fn has_key(rs: Seq<(Seq<char>, Seq<char>)>, k: Seq<char>) -> bool {
    exists|i: int| 0 <= i < rs.len() && rs[i].0 == k
}

/// The first index of a record with key `k`.
pub open spec fn key_index(rs: Seq<(Seq<char>, Seq<char>)>, k: Seq<char>) -> int
    decreases rs.len(),
{
    if rs.len() == 0 {
        0
    } else if rs[0].0 == k {
        0
    } else {
        1 + key_index(rs.drop_first(), k)
    }
}

/// No two records share a key.
pub open spec fn distinct_keys(rs: Seq<(Seq<char>, Seq<char>)>) -> bool {
    forall|i: int, j: int| 0 <= i < j < rs.len() ==> rs[i].0 != rs[j].0
}

/// One step of last-write-wins deduplication: a record with a fresh key is
/// appended, one with a known key overwrites the pronunciation in place.
pub open spec fn upsert(
    acc: Seq<(Seq<char>, Seq<char>)>,
    rec: (Seq<char>, Seq<char>),
) -> Seq<(Seq<char>, Seq<char>)> {
    if has_key(acc, rec.0) {
        acc.update(key_index(acc, rec.0), rec)
    } else {
        acc.push(rec)
    }
}

/// Last-write-wins deduplication of a record list: keys keep the position of
/// their first occurrence and the pronunciation of their last.
pub open spec fn dedup_last_wins_spec(
    rs: Seq<(Seq<char>, Seq<char>)>,
) -> Seq<(Seq<char>, Seq<char>)>
    decreases rs.len(),
{
    if rs.len() == 0 {
        Seq::empty()
    } else {
        upsert(dedup_last_wins_spec(rs.drop_last()), rs.last())
    }
}

/// The map that assigns each key its index in `keys`; with distinct keys,
/// `contains_pair(k, v)` holds exactly when `keys[v] == k`.
pub open spec fn index_map(keys: Seq<Seq<char>>) -> Map<Seq<char>, nat>
    decreases keys.len(),
{
    if keys.len() == 0 {
        Map::empty()
    } else {
        index_map(keys.drop_last()).insert(keys.last(), (keys.len() - 1) as nat)
    }
}

/// `p` occurs somewhere in `text` as a contiguous run of characters.
pub open spec fn occurs_in(p: Seq<char>, text: Seq<char>) -> bool {
    exists|s: int| 0 <= s && s + p.len() <= text.len() && #[trigger] text.subrange(s, s + p.len())
        == p
}

proof fn lemma_key_index(rs: Seq<(Seq<char>, Seq<char>)>, k: Seq<char>)
    requires
        has_key(rs, k),
    ensures
        0 <= key_index(rs, k) < rs.len(),
        rs[key_index(rs, k)].0 == k,
        forall|m: int| 0 <= m < key_index(rs, k) ==> rs[m].0 != k,
    decreases rs.len(),
{
    if rs.len() == 0 {
    } else if rs[0].0 == k {
    } else {
        let i = choose|i: int| 0 <= i < rs.len() && rs[i].0 == k;
        assert(rs.drop_first()[i - 1].0 == k);
        lemma_key_index(rs.drop_first(), k);
        assert forall|m: int| 0 <= m < key_index(rs, k) implies rs[m].0 != k by {
            if m > 0 {
                assert(rs.drop_first()[m - 1].0 != k);
            }
        }
    }
}

proof fn lemma_map_insert_commute(
    m: Map<Seq<char>, Seq<char>>,
    k1: Seq<char>,
    v1: Seq<char>,
    k2: Seq<char>,
    v2: Seq<char>,
)
    requires
        k1 != k2,
    ensures
        m.insert(k1, v1).insert(k2, v2) == m.insert(k2, v2).insert(k1, v1),
{
    assert(m.insert(k1, v1).insert(k2, v2) =~= m.insert(k2, v2).insert(k1, v1));
}

/// Overwriting the record at the first index of a key acts on the record map
/// as inserting the new pronunciation for that key.
proof fn lemma_record_map_update(s: Seq<(Seq<char>, Seq<char>)>, j: int, rec: (Seq<char>, Seq<char>))
    requires
        0 <= j < s.len(),
        s[j].0 == rec.0,
        distinct_keys(s),
    ensures
        record_map(s.update(j, rec)) == record_map(s).insert(rec.0, rec.1),
    decreases s.len(),
{
    let su = s.update(j, rec);
    if j == s.len() - 1 {
        assert(su.drop_last() =~= s.drop_last());
        assert(su.last() == rec);
        assert(record_map(s).insert(rec.0, rec.1) =~= record_map(s.drop_last()).insert(
            rec.0,
            rec.1,
        ));
    } else {
        assert(su.drop_last() =~= s.drop_last().update(j, rec));
        assert(su.last() == s.last());
        lemma_record_map_update(s.drop_last(), j, rec);
        lemma_map_insert_commute(
            record_map(s.drop_last()),
            rec.0,
            rec.1,
            s.last().0,
            s.last().1,
        );
    }
}

/// Deduplication keeps the record map intact, makes the keys distinct, and
/// never grows the list.
pub proof fn lemma_dedup_last_wins(rs: Seq<(Seq<char>, Seq<char>)>)
    ensures
        record_map(dedup_last_wins_spec(rs)) == record_map(rs),
        distinct_keys(dedup_last_wins_spec(rs)),
        dedup_last_wins_spec(rs).len() <= rs.len(),
    decreases rs.len(),
{
    if rs.len() == 0 {
    } else {
        let acc = dedup_last_wins_spec(rs.drop_last());
        let rec = rs.last();
        lemma_dedup_last_wins(rs.drop_last());
        if has_key(acc, rec.0) {
            lemma_key_index(acc, rec.0);
            lemma_record_map_update(acc, key_index(acc, rec.0), rec);
            let res = acc.update(key_index(acc, rec.0), rec);
            assert forall|i: int, j: int| 0 <= i < j < res.len() implies res[i].0 != res[j].0 by {
                assert(acc[i].0 != acc[j].0);
            }
        } else {
            assert(dedup_last_wins_spec(rs) == acc.push(rec));
            assert(acc.push(rec).drop_last() =~= acc);
            assert forall|i: int, j: int|
                0 <= i < j < acc.push(rec).len() implies acc.push(rec)[i].0 != acc.push(
                rec,
            )[j].0 by {
                if j == acc.len() {
                    assert(!(exists|m: int| 0 <= m < acc.len() && acc[m].0 == rec.0));
                    assert(acc[i].0 != rec.0);
                }
            }
        }
    }
}

/// Duplicate-key overwrite: the pronunciation a record map associates with
/// a key is the one of the last record holding that key, so a later record
/// overwrites an earlier one with the same key. Together with `build`'s
/// contract, the matcher built from records with duplicate keys answers
/// with the later pronunciation.
pub proof fn lemma_duplicate_key_overwrite(rs: Seq<(Seq<char>, Seq<char>)>, i: int)
    requires
        0 <= i < rs.len(),
        forall|j: int| i < j < rs.len() ==> rs[j].0 != rs[i].0,
    ensures
        record_map(rs).contains_pair(rs[i].0, rs[i].1),
    decreases rs.len(),
{
    if i == rs.len() - 1 {
    } else {
        lemma_duplicate_key_overwrite(rs.drop_last(), i);
        assert(rs.last().0 != rs[i].0);
    }
}

/// With distinct keys, the index map holds exactly the pairs `(keys[v], v)`.
proof fn lemma_index_map(keys: Seq<Seq<char>>)
    requires
        forall|i: int, j: int| 0 <= i < j < keys.len() ==> keys[i] != keys[j],
    ensures
        forall|k: Seq<char>, v: nat|
            index_map(keys).contains_pair(k, v) <==> (v < keys.len() && keys[v as int] == k),
    decreases keys.len(),
{
    if keys.len() == 0 {
    } else {
        lemma_index_map(keys.drop_last());
        assert forall|k: Seq<char>, v: nat|
            index_map(keys).contains_pair(k, v) implies (v < keys.len() && keys[v as int]
            == k) by {
            if k != keys.last() {
                assert(index_map(keys.drop_last()).contains_pair(k, v));
            }
        }
        assert forall|k: Seq<char>, v: nat|
            v < keys.len() && keys[v as int] == k implies index_map(keys).contains_pair(k, v) by {
            assert(index_map(keys) == index_map(keys.drop_last()).insert(
                keys.last(),
                (keys.len() - 1) as nat,
            ));
            if v < keys.len() - 1 {
                assert(keys.drop_last()[v as int] == k);
                assert(index_map(keys.drop_last()).contains_pair(k, v));
                assert(k != keys.last());
            } else {
                assert(k == keys.last());
            }
        }
    }
}

#[verifier::external_type_specification]
#[verifier::external_body]
#[verifier::reject_recursive_types(V)]
pub struct ExCharwiseAutomaton<V>(daachorse::CharwiseDoubleArrayAhoCorasick<V>);

#[verifier::external_type_specification]
#[verifier::external_body]
pub struct ExDaachorseError(daachorse::errors::DaachorseError);

/// The pattern-to-value table an automaton was built with.
pub uninterp spec fn aut_map(a: daachorse::CharwiseDoubleArrayAhoCorasick<u32>) -> Map<
    Seq<char>,
    nat,
>;

/// The automaton was built with the leftmost-longest match kind.
pub uninterp spec fn aut_leftmost_longest(a: daachorse::CharwiseDoubleArrayAhoCorasick<u32>) -> bool;

/// Whether automaton construction succeeds over this pattern list; the
/// construction is deterministic, so success is a function of the patterns.
pub uninterp spec fn builds_ok(patterns: Seq<Seq<char>>) -> bool;

/// The values of the leftmost-longest matches reported when scanning
/// `input` against the given pattern-to-value table, in scan order.
pub uninterp spec fn leftmost_hits(patterns: Map<Seq<char>, nat>, input: Seq<char>) -> Seq<nat>;

/// `v` is the value of some pattern of `m` that occurs in `input`.
pub open spec fn hit_value_ok(m: Map<Seq<char>, nat>, v: nat, input: Seq<char>) -> bool {
    exists|p: Seq<char>| #[trigger] m.contains_pair(p, v) && occurs_in(p, input)
}

/// Relies on daachorse's `CharwiseDoubleArrayAhoCorasickBuilder`:
/// `build_with_values` registers pattern `i` with value `i`, so for pairwise
/// distinct patterns the built automaton's pattern-to-value table is the
/// index map of the pattern list; the `LeftmostLongest` match kind makes
/// `leftmost_find_iter` report leftmost-longest matches. Construction is
/// deterministic in the pattern list; it fails when an internal scale limit
/// of the automaton is exceeded. Duplicate patterns are accepted by this
/// daachorse version but would make the table ambiguous (the scan reports
/// the first-registered value), so the contract admits only distinct ones.
#[verifier::external_body]
fn build_automaton(patterns: &Vec<String>) -> (r: Result<
    daachorse::CharwiseDoubleArrayAhoCorasick<u32>,
    daachorse::errors::DaachorseError,
>)
    requires
        patterns@.len() <= 0xFFFF_FFFF,
        forall|i: int, j: int|
            0 <= i < j < patterns@.len() ==> (#[trigger] patterns@[i])@ != (
            #[trigger] patterns@[j])@,
    ensures
        r is Ok <==> builds_ok(patterns@.map_values(|p: String| p@)),
        (r matches Ok(a) ==> aut_map(a) == index_map(patterns@.map_values(|p: String| p@))
            && aut_leftmost_longest(a)),
{
    let patvals = patterns.iter().enumerate().map(|(i, p)| (p.as_str(), i as u32));
    daachorse::CharwiseDoubleArrayAhoCorasickBuilder::new()
        .match_kind(daachorse::MatchKind::LeftmostLongest)
        .build_with_values(patvals)
}

/// Relies on daachorse's `leftmost_find_iter`: under the leftmost-longest
/// match kind it reports a sequence of matches determined by the automaton's
/// pattern-to-value table and the haystack alone, and every reported value
/// is the value registered for a pattern that occurs in the haystack.
#[verifier::external_body]
pub(crate) fn scan_values(
    a: &daachorse::CharwiseDoubleArrayAhoCorasick<u32>,
    input: &str,
) -> (r: Vec<u32>)
    requires
        aut_leftmost_longest(*a),
    ensures
        r@.map_values(|v: u32| v as nat) == leftmost_hits(aut_map(*a), input@),
        forall|k: int|
            0 <= k < r@.len() ==> #[trigger] hit_value_ok(aut_map(*a), r@[k] as nat, input@),
{
    a.leftmost_find_iter(input).map(|m| m.value()).collect()
}

/// The discovery phase's raw hits of `dict` on `input`: each value the scan
/// reports, replaced by its record.
pub open spec fn hit_pairs_spec(dict: Seq<(Seq<char>, Seq<char>)>, input: Seq<char>) -> Seq<
    (Seq<char>, Seq<char>),
> {
    leftmost_hits(index_map(keys_of(dict)), input).map_values(|v: nat| dict[v as int])
}

/// Why building a matcher failed.
#[derive(Clone, Copy, Debug, PartialEq, Eq, Structural)]
pub enum BuildError {
    /// No records were supplied.
    EmptyRecords,
    /// The automaton could not be constructed over the record keys.
    Construction,
}

/// An immutable multi-pattern matcher over a finalized record list. Its view
/// is the deduplicated record list; `model()` is the key-to-pronunciation
/// map it matches with.
pub struct CompiledMatcher {
    automaton: daachorse::CharwiseDoubleArrayAhoCorasick<u32>,
    keys: Vec<String>,
    prons: Vec<String>,
}

impl View for CompiledMatcher {
    type V = Seq<(Seq<char>, Seq<char>)>;

    closed spec fn view(&self) -> Seq<(Seq<char>, Seq<char>)> {
        Seq::new(self.keys@.len() as nat, |i: int| (self.keys@[i]@, self.prons@[i]@))
    }
}

impl CompiledMatcher {
    #[verifier::type_invariant]
    spec fn wf(self) -> bool {
        &&& self.keys@.len() == self.prons@.len()
        &&& self.keys@.len() <= 0xFFFF_FFFF
        &&& distinct_keys(self@)
        &&& aut_map(self.automaton) == index_map(keys_of(self@))
        &&& aut_leftmost_longest(self.automaton)
    }

    /// The key-to-pronunciation map this matcher looks up.
    pub open spec fn model(self) -> Map<Seq<char>, Seq<char>> {
        record_map(self@)
    }

    /// Builds a matcher over the characters of the record keys.
    ///
    /// Records are first deduplicated: a later record with the same key
    /// overwrites the earlier pronunciation, so the model of the result is
    /// exactly `record_map` of the input. Building fails on an empty record
    /// list, and when the automaton cannot be constructed over the keys.
    pub fn build(records: &Vec<(String, String)>) -> (r: Result<CompiledMatcher, BuildError>)
        requires
            records@.len() <= 0xFFFF_FFFF,
        ensures
            records@.len() == 0 <==> r == Err::<CompiledMatcher, BuildError>(
                BuildError::EmptyRecords,
            ),
            records@.len() > 0 ==> {
                let dict = dedup_last_wins_spec(view_pairs(records@));
                &&& (builds_ok(keys_of(dict)) <==> r is Ok)
                &&& (r matches Ok(m) ==> m@ == dict && m.model() == record_map(
                    view_pairs(records@),
                ))
                &&& (r matches Err(e) ==> e == BuildError::Construction)
            },
    {
        if records.len() == 0 {
            return Err(BuildError::EmptyRecords);
        }
        let deduped = dedup_last_wins(records);
        let ghost dict = dedup_last_wins_spec(view_pairs(records@));
        let mut patterns: Vec<String> = Vec::new();
        let mut prons: Vec<String> = Vec::new();
        let mut i: usize = 0;
        while i < deduped.len()
            invariant
                i <= deduped@.len(),
                view_pairs(deduped@) == dict,
                patterns@.len() == i,
                prons@.len() == i,
                forall|m: int| 0 <= m < i ==> patterns@[m]@ == dict[m].0,
                forall|m: int| 0 <= m < i ==> prons@[m]@ == dict[m].1,
            decreases deduped@.len() - i,
        {
            patterns.push(deduped[i].0.clone());
            prons.push(deduped[i].1.clone());
            i += 1;
        }
        proof {
            lemma_dedup_last_wins(view_pairs(records@));
            assert(patterns@.map_values(|p: String| p@) =~= keys_of(dict));
            assert forall|x: int, y: int|
                0 <= x < y < patterns@.len() implies (#[trigger] patterns@[x])@ != (
            #[trigger] patterns@[y])@ by {
                assert(dict[x].0 != dict[y].0);
            }
        }
        match build_automaton(&patterns) {
            Ok(a) => {
                proof {
                    let mview = Seq::new(
                        patterns@.len() as nat,
                        |k: int| (patterns@[k]@, prons@[k]@),
                    );
                    assert(mview =~= dict);
                    assert(keys_of(mview) =~= patterns@.map_values(|p: String| p@));
                    assert forall|x: int, y: int|
                        0 <= x < y < mview.len() implies mview[x].0 != mview[y].0 by {
                        assert(dict[x].0 != dict[y].0);
                    }
                }
                let m = CompiledMatcher { automaton: a, keys: patterns, prons };
                proof {
                    assert(m@ =~= dict);
                }
                Ok(m)
            },
            Err(_) => Err(BuildError::Construction),
        }
    }
}

impl CompiledMatcher {
    /// Scans the whole input once and returns, for each match the scan
    /// reports, the matched key and the pronunciation the matcher associates
    /// with it; every returned key occurs in the input.
    pub fn find_hit_pairs(&self, input: &str) -> (r: Vec<(String, String)>)
        ensures
            view_pairs(r@) == hit_pairs_spec(self@, input@),
            forall|m: int| 0 <= m < r@.len() ==> occurs_in((#[trigger] r@[m]).0@, input@),
            forall|m: int| 0 <= m < r@.len() ==> has_key(self@, (#[trigger] r@[m]).0@),
    {
        proof {
            use_type_invariant(&*self);
            lemma_index_map(keys_of(self@));
        }
        let ghost hits = leftmost_hits(index_map(keys_of(self@)), input@);
        let vals = scan_values(&self.automaton, input);
        let mut out: Vec<(String, String)> = Vec::new();
        let mut k: usize = 0;
        while k < vals.len()
            invariant
                self.wf(),
                forall|k2: Seq<char>, v2: nat|
                    index_map(keys_of(self@)).contains_pair(k2, v2) <==> (v2 < keys_of(
                        self@,
                    ).len() && keys_of(self@)[v2 as int] == k2),
                hits == leftmost_hits(index_map(keys_of(self@)), input@),
                vals@.map_values(|v: u32| v as nat) == hits,
                forall|m: int|
                    0 <= m < vals@.len() ==> #[trigger] hit_value_ok(
                        index_map(keys_of(self@)),
                        vals@[m] as nat,
                        input@,
                    ),
                k <= vals@.len(),
                view_pairs(out@) == hits.subrange(0, k as int).map_values(
                    |v: nat| self@[v as int],
                ),
                forall|m: int| 0 <= m < out@.len() ==> occurs_in((#[trigger] out@[m]).0@, input@),
                forall|m: int| 0 <= m < out@.len() ==> has_key(self@, (#[trigger] out@[m]).0@),
            decreases vals@.len() - k,
        {
            proof {
                assert(hit_value_ok(index_map(keys_of(self@)), vals@[k as int] as nat, input@));
                let p = choose|p: Seq<char>|
                    #[trigger] index_map(keys_of(self@)).contains_pair(
                        p,
                        vals@[k as int] as nat,
                    ) && occurs_in(p, input@);
                assert(keys_of(self@)[vals@[k as int] as int] == p);
                assert(self@[vals@[k as int] as int].0 == p);
            }
            let v: usize = vals[k] as usize;
            let ghost old_out = out@;
            out.push((self.keys[v].clone(), self.prons[v].clone()));
            proof {
                assert(self@[v as int] == (self.keys@[v as int]@, self.prons@[v as int]@));
                assert(view_pairs(old_out).len() == old_out.len());
                assert(old_out.len() == k as int);
                assert(out@ == old_out.push((self.keys@[v as int], self.prons@[v as int])));
                let vp = view_pairs(out@);
                assert(vp.len() == k + 1);
                let tgt = hits.subrange(0, k + 1).map_values(|v2: nat| self@[v2 as int]);
                assert forall|m: int| 0 <= m < k + 1 implies vp[m] == tgt[m] by {
                    assert(vp[m] == (out@[m].0@, out@[m].1@));
                    if m < k {
                        assert(out@[m] == old_out[m]);
                        assert(view_pairs(old_out)[m] == (old_out[m].0@, old_out[m].1@));
                        assert(hits.subrange(0, k as int)[m] == hits[m]);
                    } else {
                        assert(out@[m] == (self.keys@[v as int], self.prons@[v as int]));
                        assert(hits[m] == vals@[m] as nat);
                    }
                }
                assert(vp =~= tgt);
                assert(out@[k as int].0@ == self@[v as int].0);
                assert(has_key(self@, out@[k as int].0@));
            }
            k += 1;
        }
        proof {
            assert(hits.subrange(0, vals@.len() as int) =~= hits);
        }
        out
    }
}

/// Last-write-wins deduplication of a record list.
fn dedup_last_wins(records: &Vec<(String, String)>) -> (r: Vec<(String, String)>)
    ensures
        view_pairs(r@) == dedup_last_wins_spec(view_pairs(records@)),
        r@.len() <= records@.len(),
{
    let mut out: Vec<(String, String)> = Vec::new();
    let mut i: usize = 0;
    while i < records.len()
        invariant
            i <= records@.len(),
            view_pairs(out@) == dedup_last_wins_spec(view_pairs(records@.subrange(0, i as int))),
            out@.len() <= i,
        decreases records@.len() - i,
    {
        let ghost pre = view_pairs(out@);
        let ghost rec = (records@[i as int].0@, records@[i as int].1@);
        let mut j: usize = 0;
        let mut found: bool = false;
        while j < out.len() && !found
            invariant
                i < records@.len(),
                rec == (records@[i as int].0@, records@[i as int].1@),
                j <= out@.len(),
                pre == view_pairs(out@),
                forall|m: int| 0 <= m < j ==> pre[m].0 != rec.0,
                found ==> j < out@.len() && pre[j as int].0 == rec.0,
            decreases out@.len() - j + (if found { 0int } else { 1int }),
        {
            proof {
                assert(pre[j as int] == (out@[j as int].0@, out@[j as int].1@));
            }
            if string_eq(&out[j].0, &records[i].0) {
                found = true;
            } else {
                j += 1;
            }
        }
        if found {
            proof {
                assert(has_key(pre, rec.0));
                lemma_key_index(pre, rec.0);
                if key_index(pre, rec.0) < j {
                    assert(pre[key_index(pre, rec.0)].0 != rec.0);
                }
                if key_index(pre, rec.0) > j {
                    assert(pre[j as int].0 != rec.0);
                }
                assert(key_index(pre, rec.0) == j as int);
            }
            let _ = out.remove(j);
            out.insert(j, (records[i].0.clone(), records[i].1.clone()));
            proof {
                assert(view_pairs(out@) =~= pre.update(j as int, rec));
                assert(view_pairs(out@) == upsert(pre, rec));
            }
        } else {
            out.push((records[i].0.clone(), records[i].1.clone()));
            proof {
                assert(!has_key(pre, rec.0));
                assert(view_pairs(out@) =~= pre.push(rec));
                assert(view_pairs(out@) == upsert(pre, rec));
            }
        }
        proof {
            let next = view_pairs(records@.subrange(0, i + 1));
            assert(next.drop_last() =~= view_pairs(records@.subrange(0, i as int)));
            assert(next.last() == rec);
            assert(view_pairs(out@) == dedup_last_wins_spec(next));
        }
        i += 1;
    }
    proof {
        assert(records@.subrange(0, records@.len() as int) =~= records@);
    }
    out
}

} // verus!
