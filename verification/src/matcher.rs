//! Matching: for each banned name, the number of extracted strings that
//! contain it as a contiguous substring, optionally after ASCII case
//! folding of both sides. Names with no occurrence are dropped; the rest
//! are sorted by descending occurrence count, ties keeping the banned
//! list's sorted name order (a stable sort).

use vstd::prelude::*;

use crate::chars::fold_seq;
use crate::extract::views_of;
use crate::strutil::{chars_of, contains_chars, contains_sub, fold_string};

verus! {

/// One banned name that was found, with how many extracted strings contain
/// it.
pub struct MatchRecord {
    /// The banned name, in its original case.
    pub function: String,
    /// The number of extracted strings containing the name; at least 1.
    pub occurrences: usize,
}

impl View for MatchRecord {
    type V = (Seq<char>, int);

    open spec fn view(&self) -> (Seq<char>, int) {
        (self.function@, self.occurrences as int)
    }
}

/// Whether one extracted string matches one banned name: substring
/// containment, after ASCII case folding of both sides when matching
/// case-insensitively.
pub open spec fn hit(s: Seq<char>, name: Seq<char>, ignore_case: bool) -> bool {
    if ignore_case {
        contains_sub(fold_seq(s), fold_seq(name))
    } else {
        contains_sub(s, name)
    }
}

/// How many of the extracted strings match the name: one per containing
/// string, however often the name occurs inside it.
pub open spec fn count_hits(strs: Seq<Seq<char>>, name: Seq<char>, ignore_case: bool) -> int
    decreases strs.len(),
{
    if strs.len() == 0 {
        0
    } else {
        count_hits(strs.drop_last(), name, ignore_case) + if hit(strs.last(), name, ignore_case) {
            1int
        } else {
            0int
        }
    }
}

/// The match records before sorting: each banned name, in list order,
/// paired with its occurrence count, keeping only names with at least one
/// occurrence.
pub open spec fn hit_records(
    names: Seq<Seq<char>>,
    strs: Seq<Seq<char>>,
    ignore_case: bool,
) -> Seq<(Seq<char>, int)>
    decreases names.len(),
{
    if names.len() == 0 {
        Seq::empty()
    } else {
        hit_records(names.drop_last(), strs, ignore_case) + if count_hits(
            strs,
            names.last(),
            ignore_case,
        ) > 0 {
            seq![(names.last(), count_hits(strs, names.last(), ignore_case))]
        } else {
            Seq::empty()
        }
    }
}

/// Stable insertion into a sequence sorted by descending count: the new
/// record goes after every record with an equal or greater count.
pub open spec fn insert_desc(
    s: Seq<(Seq<char>, int)>,
    x: (Seq<char>, int),
) -> Seq<(Seq<char>, int)>
    decreases s.len(),
{
    if s.len() > 0 && s.first().1 >= x.1 {
        seq![s.first()] + insert_desc(s.drop_first(), x)
    } else {
        seq![x] + s
    }
}

/// Stable sort by descending count: records are inserted in their given
/// order, so records with equal counts keep that order.
pub open spec fn sort_desc(s: Seq<(Seq<char>, int)>) -> Seq<(Seq<char>, int)>
    decreases s.len(),
{
    if s.len() == 0 {
        Seq::empty()
    } else {
        insert_desc(sort_desc(s.drop_last()), s.last())
    }
}

/// The final match list for the given extracted strings and banned names.
pub open spec fn match_list(
    names: Seq<Seq<char>>,
    strs: Seq<Seq<char>>,
    ignore_case: bool,
) -> Seq<(Seq<char>, int)> {
    sort_desc(hit_records(names, strs, ignore_case))
}

proof fn lemma_insert_desc_at(s: Seq<(Seq<char>, int)>, x: (Seq<char>, int), j: int)
    requires
        0 <= j <= s.len(),
        forall|k: int| 0 <= k < j ==> (#[trigger] s[k]).1 >= x.1,
        j == s.len() || s[j].1 < x.1,
    ensures
        insert_desc(s, x) == s.subrange(0, j) + seq![x] + s.subrange(j, s.len() as int),
    decreases j,
{
    if j == 0 {
        assert(s.subrange(0, 0) =~= Seq::empty());
        assert(s.subrange(0, s.len() as int) =~= s);
        assert(seq![x] + s =~= s.subrange(0, 0) + seq![x] + s.subrange(0, s.len() as int));
    } else {
        lemma_insert_desc_at(s.drop_first(), x, j - 1);
        assert(s.drop_first().subrange(0, j - 1) =~= s.subrange(1, j));
        assert(s.drop_first().subrange(j - 1, s.drop_first().len() as int) =~= s.subrange(
            j,
            s.len() as int,
        ));
        assert(seq![s.first()] + (s.subrange(1, j) + seq![x] + s.subrange(j, s.len() as int))
            =~= s.subrange(0, j) + seq![x] + s.subrange(j, s.len() as int));
    }
}

/// The views of a vector of match records.
pub open spec fn record_views(v: Seq<MatchRecord>) -> Seq<(Seq<char>, int)> {
    v.map_values(|m: MatchRecord| m@)
}

/// Builds the match list: for each banned name (in list order) the number
/// of extracted strings containing it — case-insensitively if requested —
/// keeping the names with at least one occurrence, sorted by descending
/// count, ties in list order.
pub fn compute_matches(strings: &Vec<String>, banned: &Vec<String>, ignore_case: bool) -> (out: Vec<
    MatchRecord,
>)
    ensures
        record_views(out@) == match_list(views_of(banned@), views_of(strings@), ignore_case),
{
    let ghost strviews = views_of(strings@);
    // The extracted strings as character vectors, case-folded up front when
    // matching case-insensitively.
    let mut svecs: Vec<Vec<char>> = Vec::new();
    let mut si: usize = 0;
    while si < strings.len()
        invariant
            si <= strings@.len(),
            strviews == views_of(strings@),
            svecs@.len() == si as int,
            forall|k: int|
                0 <= k < si ==> (#[trigger] svecs@[k])@ == if ignore_case {
                    fold_seq(strviews[k])
                } else {
                    strviews[k]
                },
        decreases strings@.len() - si,
    {
        let cv = chars_of(strings[si].as_str());
        if ignore_case {
            let folded = fold_string(&cv);
            svecs.push(folded);
        } else {
            svecs.push(cv);
        }
        si += 1;
    }
    // Count, per banned name in list order.
    let ghost nameviews = views_of(banned@);
    let mut hits: Vec<MatchRecord> = Vec::new();
    let mut bi: usize = 0;
    while bi < banned.len()
        invariant
            bi <= banned@.len(),
            strviews == views_of(strings@),
            nameviews == views_of(banned@),
            svecs@.len() == strings@.len(),
            forall|k: int|
                0 <= k < svecs@.len() ==> (#[trigger] svecs@[k])@ == if ignore_case {
                    fold_seq(strviews[k])
                } else {
                    strviews[k]
                },
            record_views(hits@) == hit_records(nameviews.take(bi as int), strviews, ignore_case),
        decreases banned@.len() - bi,
    {
        let namec = chars_of(banned[bi].as_str());
        let needle = if ignore_case {
            fold_string(&namec)
        } else {
            namec
        };
        let mut cnt: usize = 0;
        let mut sj: usize = 0;
        while sj < svecs.len()
            invariant
                sj <= svecs@.len(),
                strviews == views_of(strings@),
                svecs@.len() == strviews.len(),
                forall|k: int|
                    0 <= k < svecs@.len() ==> (#[trigger] svecs@[k])@ == if ignore_case {
                        fold_seq(strviews[k])
                    } else {
                        strviews[k]
                    },
                needle@ == if ignore_case {
                    fold_seq(nameviews[bi as int])
                } else {
                    nameviews[bi as int]
                },
                bi < nameviews.len(),
                cnt <= sj,
                cnt == count_hits(strviews.take(sj as int), nameviews[bi as int], ignore_case),
            decreases svecs@.len() - sj,
        {
            let found = contains_chars(&svecs[sj], &needle);
            proof {
                assert(strviews.take(sj + 1 as int).drop_last() =~= strviews.take(sj as int));
                assert(strviews.take(sj + 1 as int).last() == strviews[sj as int]);
            }
            if found {
                cnt += 1;
            }
            sj += 1;
        }
        proof {
            assert(strviews.take(strviews.len() as int) =~= strviews);
            assert(nameviews.take(bi + 1 as int).drop_last() =~= nameviews.take(bi as int));
            assert(nameviews.take(bi + 1 as int).last() == nameviews[bi as int]);
        }
        if cnt > 0 {
            let rec = MatchRecord { function: banned[bi].clone(), occurrences: cnt };
            proof {
                assert(record_views(hits@.push(rec)) =~= record_views(hits@).push(rec@));
                assert(record_views(hits@).push(rec@) =~= hit_records(
                    nameviews.take(bi as int),
                    strviews,
                    ignore_case,
                ) + seq![(nameviews[bi as int], cnt as int)]);
            }
            hits.push(rec);
        } else {
            proof {
                assert(record_views(hits@) =~= hit_records(
                    nameviews.take(bi as int),
                    strviews,
                    ignore_case,
                ) + Seq::<(Seq<char>, int)>::empty());
            }
        }
        bi += 1;
    }
    proof {
        assert(nameviews.take(nameviews.len() as int) =~= nameviews);
    }
    // Stable insertion sort by descending occurrence count.
    let ghost allhits = record_views(hits@);
    let mut out: Vec<MatchRecord> = Vec::new();
    while hits.len() > 0
        invariant
            hits@.len() <= allhits.len(),
            record_views(hits@) == allhits.skip(allhits.len() - hits@.len()),
            record_views(out@) == sort_desc(allhits.take(allhits.len() - hits@.len())),
        decreases hits@.len(),
    {
        let ghost k = allhits.len() - hits@.len();
        let ghost oldhits = hits@;
        let h = hits.remove(0);
        proof {
            oldhits.remove_ensures(0);
            assert(record_views(oldhits)[0] == oldhits[0]@);
            assert(allhits.skip(k)[0] == allhits[k]);
            assert(h@ == allhits[k]);
            assert forall|t: int| 0 <= t < hits@.len() implies #[trigger] record_views(hits@)[t]
                == allhits.skip(k + 1)[t] by {
                assert(hits@[t] == oldhits[t + 1]);
                assert(record_views(oldhits)[t + 1] == oldhits[t + 1]@);
                assert(allhits.skip(k)[t + 1] == allhits[k + 1 + t]);
                assert(allhits.skip(k + 1)[t] == allhits[k + 1 + t]);
            }
            assert(record_views(hits@) =~= allhits.skip(k + 1));
        }
        let mut j: usize = 0;
        while j < out.len() && out[j].occurrences >= h.occurrences
            invariant
                j <= out@.len(),
                forall|t: int| 0 <= t < j ==> (#[trigger] record_views(out@)[t]).1 >= h@.1,
            decreases out@.len() - j,
        {
            j += 1;
        }
        proof {
            lemma_insert_desc_at(record_views(out@), h@, j as int);
        }
        let ghost oldout = out@;
        out.insert(j, h);
        proof {
            oldout.insert_ensures(j as int, h);
            assert(record_views(out@) =~= record_views(oldout).subrange(0, j as int) + seq![h@]
                + record_views(oldout).subrange(j as int, oldout.len() as int));
            assert(allhits.take(k + 1).drop_last() =~= allhits.take(k));
            assert(allhits.take(k + 1).last() == allhits[k]);
        }
    }
    proof {
        assert(allhits.take(allhits.len() as int) =~= allhits);
    }
    out
}

/// Sorted by descending occurrence count.
pub open spec fn sorted_desc(s: Seq<(Seq<char>, int)>) -> bool {
    forall|i: int, j: int| 0 <= i < j < s.len() ==> (#[trigger] s[i]).1 >= (#[trigger] s[j]).1
}

proof fn lemma_insert_desc_sorted(s: Seq<(Seq<char>, int)>, x: (Seq<char>, int))
    requires
        sorted_desc(s),
    ensures
        insert_desc(s, x).len() == s.len() + 1,
        sorted_desc(insert_desc(s, x)),
        forall|idx: int|
            0 <= idx < insert_desc(s, x).len() ==> (#[trigger] insert_desc(s, x)[idx] == x
                || s.contains(insert_desc(s, x)[idx])),
    decreases s.len(),
{
    let r = insert_desc(s, x);
    if s.len() > 0 && s.first().1 >= x.1 {
        let t = s.drop_first();
        assert(forall|k: int| 0 <= k < t.len() ==> #[trigger] t[k] == s[k + 1]);
        lemma_insert_desc_sorted(t, x);
        let it = insert_desc(t, x);
        assert(forall|k: int| 0 <= k < it.len() ==> #[trigger] r[k + 1] == it[k]);
        assert forall|idx: int| 0 <= idx < r.len() implies (#[trigger] r[idx] == x || s.contains(
            r[idx],
        )) by {
            if idx == 0 {
                assert(s[0] == r[0]);
            } else {
                assert(r[idx] == it[idx - 1]);
                if it[idx - 1] != x {
                    let k = choose|k: int| 0 <= k < t.len() && t[k] == it[idx - 1];
                    assert(s[k + 1] == r[idx]);
                }
            }
        }
        assert forall|i: int, j: int| 0 <= i < j < r.len() implies (#[trigger] r[i]).1
            >= (#[trigger] r[j]).1 by {
            if i == 0 {
                assert(r[j] == it[j - 1]);
                if it[j - 1] != x {
                    let k = choose|k: int| 0 <= k < t.len() && t[k] == it[j - 1];
                    assert(s.first().1 >= s[k + 1].1);
                }
            } else {
                assert(r[i] == it[i - 1]);
                assert(r[j] == it[j - 1]);
            }
        }
    } else {
        assert(forall|k: int| 0 <= k < s.len() ==> #[trigger] r[k + 1] == s[k]);
        assert forall|i: int, j: int| 0 <= i < j < r.len() implies (#[trigger] r[i]).1
            >= (#[trigger] r[j]).1 by {
            if i == 0 {
                if s.len() > 0 {
                    assert(r[j] == s[j - 1]);
                    assert(s[0].1 >= s[j - 1].1);
                }
            } else {
                assert(r[i] == s[i - 1]);
                assert(r[j] == s[j - 1]);
            }
        }
        assert forall|idx: int| 0 <= idx < r.len() implies (#[trigger] r[idx] == x || s.contains(
            r[idx],
        )) by {
            if idx > 0 {
                assert(r[idx] == s[idx - 1]);
            }
        }
    }
}

/// The stable sort keeps every record and orders the list by descending
/// occurrence count.
pub proof fn lemma_sort_desc_sorted(s: Seq<(Seq<char>, int)>)
    ensures
        sort_desc(s).len() == s.len(),
        sorted_desc(sort_desc(s)),
    decreases s.len(),
{
    if s.len() > 0 {
        lemma_sort_desc_sorted(s.drop_last());
        lemma_insert_desc_sorted(sort_desc(s.drop_last()), s.last());
    }
}

/// The match list is sorted by descending occurrence count, whatever the
/// banned names, the extracted strings and the case mode.
pub proof fn lemma_match_list_sorted(names: Seq<Seq<char>>, strs: Seq<Seq<char>>, ignore_case: bool)
    ensures
        sorted_desc(match_list(names, strs, ignore_case)),
{
    lemma_sort_desc_sorted(hit_records(names, strs, ignore_case));
}

/// Occurrence counting is per extracted string: however often a name occurs
/// inside one string, that string contributes at most one, so the count
/// never exceeds the number of extracted strings.
pub proof fn lemma_count_per_string(strs: Seq<Seq<char>>, name: Seq<char>, ignore_case: bool)
    ensures
        0 <= count_hits(strs, name, ignore_case) <= strs.len(),
    decreases strs.len(),
{
    if strs.len() > 0 {
        lemma_count_per_string(strs.drop_last(), name, ignore_case);
    }
}

proof fn lemma_hit_records_positive(names: Seq<Seq<char>>, strs: Seq<Seq<char>>, ignore_case: bool)
    ensures
        forall|i: int|
            0 <= i < hit_records(names, strs, ignore_case).len() ==> (#[trigger] hit_records(
                names,
                strs,
                ignore_case,
            )[i]).1 >= 1,
    decreases names.len(),
{
    if names.len() > 0 {
        lemma_hit_records_positive(names.drop_last(), strs, ignore_case);
        let prev = hit_records(names.drop_last(), strs, ignore_case);
        let cur = hit_records(names, strs, ignore_case);
        assert forall|i: int| 0 <= i < cur.len() implies (#[trigger] cur[i]).1 >= 1 by {
            if i < prev.len() {
                assert(cur[i] == prev[i]);
            } else {
                assert(cur[i].1 == count_hits(strs, names.last(), ignore_case));
            }
        }
    }
}

proof fn lemma_insert_desc_elems(s: Seq<(Seq<char>, int)>, x: (Seq<char>, int))
    ensures
        insert_desc(s, x).len() == s.len() + 1,
        forall|idx: int|
            0 <= idx < insert_desc(s, x).len() ==> (#[trigger] insert_desc(s, x)[idx] == x
                || s.contains(insert_desc(s, x)[idx])),
    decreases s.len(),
{
    let r = insert_desc(s, x);
    if s.len() > 0 && s.first().1 >= x.1 {
        let t = s.drop_first();
        lemma_insert_desc_elems(t, x);
        assert forall|idx: int| 0 <= idx < r.len() implies (#[trigger] r[idx] == x || s.contains(
            r[idx],
        )) by {
            if idx == 0 {
                assert(s[0] == r[0]);
            } else {
                assert(r[idx] == insert_desc(t, x)[idx - 1]);
                if insert_desc(t, x)[idx - 1] != x {
                    let k = choose|k: int| 0 <= k < t.len() && t[k] == insert_desc(t, x)[idx - 1];
                    assert(s[k + 1] == r[idx]);
                }
            }
        }
    } else {
        assert forall|idx: int| 0 <= idx < r.len() implies (#[trigger] r[idx] == x || s.contains(
            r[idx],
        )) by {
            if idx > 0 {
                assert(r[idx] == s[idx - 1]);
            }
        }
    }
}

proof fn lemma_sort_desc_elems(s: Seq<(Seq<char>, int)>)
    ensures
        forall|idx: int|
            0 <= idx < sort_desc(s).len() ==> s.contains(#[trigger] sort_desc(s)[idx]),
    decreases s.len(),
{
    if s.len() > 0 {
        let t = s.drop_last();
        lemma_sort_desc_elems(t);
        lemma_insert_desc_elems(sort_desc(t), s.last());
        assert forall|idx: int| 0 <= idx < sort_desc(s).len() implies s.contains(
            #[trigger] sort_desc(s)[idx],
        ) by {
            let e = sort_desc(s)[idx];
            if e == s.last() {
                assert(s[s.len() - 1] == e);
            } else {
                assert(sort_desc(t).contains(e));
                let k = choose|k: int| 0 <= k < sort_desc(t).len() && sort_desc(t)[k] == e;
                assert(t.contains(e));
                let q = choose|q: int| 0 <= q < t.len() && t[q] == e;
                assert(s[q] == e);
            }
        }
    }
}

/// Every record of the final match list has an occurrence count of at least
/// 1: a banned name with no occurrence is dropped, never reported as zero.
pub proof fn lemma_match_list_positive(
    names: Seq<Seq<char>>,
    strs: Seq<Seq<char>>,
    ignore_case: bool,
)
    ensures
        forall|i: int|
            0 <= i < match_list(names, strs, ignore_case).len() ==> (#[trigger] match_list(
                names,
                strs,
                ignore_case,
            )[i]).1 >= 1,
{
    let h = hit_records(names, strs, ignore_case);
    lemma_hit_records_positive(names, strs, ignore_case);
    lemma_sort_desc_elems(h);
    assert forall|i: int| 0 <= i < match_list(names, strs, ignore_case).len() implies (
    #[trigger] match_list(names, strs, ignore_case)[i]).1 >= 1 by {
        assert(h.contains(sort_desc(h)[i]));
        let k = choose|k: int| 0 <= k < h.len() && h[k] == sort_desc(h)[i];
    }
}

/// ASCII case folding preserves substring containment: a case-sensitive
/// match is also a case-insensitive match (the converse need not hold).
pub proof fn lemma_case_fold_widens(s: Seq<char>, name: Seq<char>)
    ensures
        hit(s, name, false) ==> hit(s, name, true),
{
    if hit(s, name, false) {
        let k = choose|k: int|
            0 <= k && k + name.len() <= s.len() && #[trigger] s.subrange(k, k + name.len()) == name;
        assert(fold_seq(s).subrange(k, k + fold_seq(name).len()) =~= fold_seq(
            s.subrange(k, k + name.len()),
        ));
        assert(fold_seq(s).subrange(k, k + fold_seq(name).len()) == fold_seq(name));
    }
}

} // verus!
