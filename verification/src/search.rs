use vstd::prelude::*;

use crate::entry::EntryView;
use crate::entry::IndexEntry;
use crate::entry::views_of;
use crate::text::chars_vec;
use crate::text::eq_chars;
use crate::text::has_sub;
use crate::text::has_substring;
use crate::text::lemma_filter_subset;
use crate::text::lemma_filter_take_step;
use crate::text::lower_of;
use crate::text::prepend_char;
use crate::text::starts_with_chars;
use crate::text::to_lower;

verus! {

/// Whether the lowercased query occurs right after a `-` or a `_` in the
/// lowercased name: the word-boundary relevance signal.
pub open spec fn word_boundary(lname: Seq<char>, lq: Seq<char>) -> bool {
    has_substring(lname, seq!['-'] + lq) || has_substring(lname, seq!['_'] + lq)
}

/// The textual-relevance tier of a lowercased name against a lowercased
/// query: exact match, then prefix, then word boundary, then nothing.
/// Exactly one tier applies; they are checked in this priority order.
pub open spec fn tier_bonus(lname: Seq<char>, lq: Seq<char>) -> int {
    if lname == lq {
        1000
    } else if lq.is_prefix_of(lname) {
        500
    } else if word_boundary(lname, lq) {
        300
    } else {
        0
    }
}

/// Shorter names score higher: 50 minus the name length, floored at zero.
pub open spec fn length_bonus(name: Seq<char>) -> int {
    if name.len() >= 50 {
        0
    } else {
        50 - name.len()
    }
}

/// The hardcoded path segment that marks project files.
pub open spec fn projects_path() -> Seq<char> {
    seq!['/', 'p', 'r', 'o', 'j', 'e', 'c', 't', 's', '/']
}

/// The relevance score of an entry against an already-lowercased query:
/// the textual tier, plus 200 for a directory, plus the length bonus,
/// plus 100 for a path through the projects segment.
pub open spec fn score_of(e: EntryView, lq: Seq<char>) -> int {
    tier_bonus(lower_of(e.name), lq) + (if e.is_directory {
        200int
    } else {
        0int
    }) + length_bonus(e.name) + (if has_substring(e.path, projects_path()) {
        100int
    } else {
        0int
    })
}

/// Whether an entry matches: its lowercased name contains the lowercased
/// query as a substring.
pub open spec fn entry_matches(e: EntryView, lq: Seq<char>) -> bool {
    has_substring(lower_of(e.name), lq)
}

/// Non-increasing scores along a sequence of entries.
pub open spec fn sorted_desc(s: Seq<EntryView>, lq: Seq<char>) -> bool {
    forall|i: int, j: int| 0 <= i < j < s.len() ==> score_of(s[i], lq) >= score_of(s[j], lq)
}

/// The first `k` elements, or all of them if there are fewer.
pub open spec fn top_k(s: Seq<EntryView>, k: int) -> Seq<EntryView> {
    if s.len() <= k {
        s
    } else {
        s.take(k)
    }
}

/// What a search returns: the first 100 of some ordering of all matching
/// entries that is sorted by descending score.
pub open spec fn search_results(idx: Seq<EntryView>, lq: Seq<char>, out: Seq<EntryView>) -> bool {
    exists|full: Seq<EntryView>|
        {
            &&& full.to_multiset() == idx.filter(|e: EntryView| entry_matches(e, lq)).to_multiset()
            &&& sorted_desc(full, lq)
            &&& out == top_k(full, 100)
        }
}

/// The projects segment as an executable needle.
fn projects_needle() -> (r: Vec<char>)
    ensures
        r@ == projects_path(),
{
    let mut v: Vec<char> = Vec::new();
    v.push('/');
    v.push('p');
    v.push('r');
    v.push('o');
    v.push('j');
    v.push('e');
    v.push('c');
    v.push('t');
    v.push('s');
    v.push('/');
    proof {
        assert(v@ =~= projects_path());
    }
    v
}

/// Decides whether one entry matches the lowercased query and, if it does,
/// computes exactly its score.
fn score_entry(e: &IndexEntry, lqv: &Vec<char>, dq: &Vec<char>, uq: &Vec<char>, proj: &Vec<char>) -> (r:
    Option<i32>)
    requires
        dq@ == seq!['-'] + lqv@,
        uq@ == seq!['_'] + lqv@,
        proj@ == projects_path(),
    ensures
        (match r {
            Some(s) => entry_matches(e@, lqv@) && s as int == score_of(e@, lqv@),
            None => !entry_matches(e@, lqv@),
        }),
{
    let ln = to_lower(e.name.as_str());
    let lname = chars_vec(ln.as_str());
    if !has_sub(&lname, lqv) {
        return None;
    }
    let mut s: i32 = 0;
    if eq_chars(&lname, lqv) {
        s = 1000;
    } else if starts_with_chars(&lname, lqv) {
        s = 500;
    } else if has_sub(&lname, dq) || has_sub(&lname, uq) {
        s = 300;
    }
    proof {
        assert(s as int == tier_bonus(lower_of(e@.name), lqv@));
    }
    if e.is_directory {
        s = s + 200;
    }
    let nlen = e.name.as_str().unicode_len();
    if nlen < 50 {
        s = s + 50 - (nlen as i32);
    }
    let pv = chars_vec(e.path.as_str());
    if has_sub(&pv, proj) {
        s = s + 100;
    }
    Some(s)
}

/// The entry of each ranked pair, as its model.
pub open spec fn ranked_views(s: Seq<(i32, IndexEntry)>) -> Seq<EntryView> {
    s.map_values(|p: (i32, IndexEntry)| p.1@)
}

/// Each pair carries the exact score of a matching entry, and the pairs
/// are sorted by descending score.
pub open spec fn ranked_ok(s: Seq<(i32, IndexEntry)>, lq: Seq<char>) -> bool {
    &&& forall|i: int|
        0 <= i < s.len() ==> (#[trigger] s[i]).0 as int == score_of(s[i].1@, lq) && entry_matches(
            s[i].1@,
            lq,
        )
    &&& forall|i: int, j: int| 0 <= i < j < s.len() ==> (#[trigger] s[i]).0 >= (#[trigger] s[j]).0
}

/// Puts one pair into a score-sorted vector, keeping it sorted.
fn insert_ranked(ranked: &mut Vec<(i32, IndexEntry)>, item: (i32, IndexEntry))
    requires
        forall|i: int, j: int|
            0 <= i < j < old(ranked)@.len() ==> (#[trigger] old(ranked)@[i]).0
                >= (#[trigger] old(ranked)@[j]).0,
    ensures
        exists|k: int|
            0 <= k <= old(ranked)@.len() && final(ranked)@ == old(ranked)@.insert(k, item),
        forall|i: int, j: int|
            0 <= i < j < final(ranked)@.len() ==> (#[trigger] final(ranked)@[i]).0
                >= (#[trigger] final(ranked)@[j]).0,
{
    let ghost s = ranked@;
    let mut k: usize = 0;
    while k < ranked.len() && ranked[k].0 >= item.0
        invariant
            ranked@ == s,
            k <= s.len(),
            forall|j: int| 0 <= j < k ==> (#[trigger] s[j]).0 >= item.0,
        decreases s.len() - k,
    {
        k = k + 1;
    }
    ranked.insert(k, item);
    proof {
        let t = ranked@;
        assert(t == s.insert(k as int, item));
        assert forall|i: int| 0 <= i < t.len() implies t[i] == (if i < k {
            s[i]
        } else if i == k {
            item
        } else {
            s[i - 1]
        }) by {
            assert(t == s.subrange(0, k as int).push(item) + s.subrange(k as int, s.len() as int));
        }
        assert forall|i: int, j: int| 0 <= i < j < t.len() implies (#[trigger] t[i]).0
            >= (#[trigger] t[j]).0 by {
            if k < s.len() {
                assert(s[k as int].0 < item.0);
            }
        }
    }
}

/// Ranked substring search: the entries whose lowercased name contains the
/// lowercased query, ordered by descending score, cut off after 100.
/// An empty query matches nothing.
pub fn search_entries(entries: &Vec<IndexEntry>, query: &str) -> (res: Vec<IndexEntry>)
    ensures
        res@.len() <= 100,
        query@.len() == 0 ==> res@.len() == 0,
        query@.len() > 0 ==> search_results(views_of(entries@), lower_of(query@), views_of(res@)),
{
    broadcast use vstd::seq_lib::group_to_multiset_ensures;

    if query.unicode_len() == 0 {
        let res: Vec<IndexEntry> = Vec::new();
        return res;
    }
    let lq = to_lower(query);
    let lqv = chars_vec(lq.as_str());
    let dq = prepend_char('-', &lqv);
    let uq = prepend_char('_', &lqv);
    let proj = projects_needle();
    let ghost vall = views_of(entries@);
    let ghost pred = |e: EntryView| entry_matches(e, lqv@);
    let mut ranked: Vec<(i32, IndexEntry)> = Vec::new();
    let mut i: usize = 0;
    proof {
        assert(vall.take(0).filter(pred) =~= Seq::<EntryView>::empty()) by {
            reveal(Seq::filter);
            assert(vall.take(0) =~= Seq::<EntryView>::empty());
        }
        assert(ranked_views(ranked@) =~= Seq::<EntryView>::empty());
    }
    while i < entries.len()
        invariant
            i <= entries@.len(),
            vall == views_of(entries@),
            vall.len() == entries@.len(),
            pred == (|e: EntryView| entry_matches(e, lqv@)),
            lqv@ == lower_of(query@),
            dq@ == seq!['-'] + lqv@,
            uq@ == seq!['_'] + lqv@,
            proj@ == projects_path(),
            ranked_ok(ranked@, lqv@),
            ranked_views(ranked@).to_multiset() == vall.take(i as int).filter(pred).to_multiset(),
        decreases entries@.len() - i,
    {
        let ghost before = ranked@;
        let e = &entries[i];
        proof {
            assert(vall[i as int] == e@);
            lemma_filter_take_step(vall, i as int, pred);
        }
        match score_entry(e, &lqv, &dq, &uq, &proj) {
            Some(s) => {
                let item = (s, e.clone());
                insert_ranked(&mut ranked, item);
                proof {
                    assert(item.1@ == e@);
                    let k = choose|k: int|
                        0 <= k <= before.len() && ranked@ == before.insert(k, item);
                    assert(ranked_views(ranked@) =~= ranked_views(before).insert(k, item.1@)) by {
                        assert(ranked@ == before.subrange(0, k).push(item) + before.subrange(
                            k,
                            before.len() as int,
                        ));
                        assert(ranked_views(before).insert(k, item.1@) == ranked_views(
                            before,
                        ).subrange(0, k).push(item.1@) + ranked_views(before).subrange(
                            k,
                            before.len() as int,
                        ));
                    }
                    vstd::seq_lib::to_multiset_insert(ranked_views(before), k, item.1@);
                    assert(ranked_views(ranked@).to_multiset() == ranked_views(
                        before,
                    ).to_multiset().insert(e@));
                    assert(vall.take(i + 1).filter(pred) == vall.take(i as int).filter(pred).push(
                        e@,
                    ));
                    vstd::seq_lib::to_multiset_build(vall.take(i as int).filter(pred), e@);
                    assert(vall.take(i as int).filter(pred).push(e@).to_multiset() == vall.take(
                        i as int,
                    ).filter(pred).to_multiset().insert(e@));
                    assert(vall.take(i + 1).filter(pred).to_multiset() == vall.take(
                        i as int,
                    ).filter(pred).to_multiset().insert(e@));
                    assert(ranked_ok(ranked@, lqv@)) by {
                        assert forall|m: int| 0 <= m < ranked@.len() implies (#[trigger] ranked@[m]).0
                            as int == score_of(ranked@[m].1@, lqv@) && entry_matches(
                            ranked@[m].1@,
                            lqv@,
                        ) by {
                            assert(ranked@ == before.subrange(0, k).push(item) + before.subrange(
                                k,
                                before.len() as int,
                            ));
                            if m < k {
                                assert(ranked@[m] == before[m]);
                            } else if m == k {
                                assert(ranked@[m] == item);
                            } else {
                                assert(ranked@[m] == before[m - 1]);
                            }
                        }
                    }
                }
            },
            None => {
                proof {
                    assert(vall.take(i + 1).filter(pred) == vall.take(i as int).filter(pred));
                }
            },
        }
        i = i + 1;
    }
    let limit = if ranked.len() < 100 {
        ranked.len()
    } else {
        100
    };
    let ghost full = ranked_views(ranked@);
    let mut res: Vec<IndexEntry> = Vec::new();
    let mut j: usize = 0;
    proof {
        assert(views_of(res@) =~= full.take(0));
    }
    while j < limit
        invariant
            j <= limit,
            limit <= ranked@.len(),
            limit == (if ranked@.len() < 100 {
                ranked@.len() as int
            } else {
                100int
            }),
            full == ranked_views(ranked@),
            views_of(res@) == full.take(j as int),
        decreases limit - j,
    {
        let ghost oldres = res@;
        let pair = &ranked[j];
        let ent = pair.1.clone();
        proof {
            assert(ent@ == ranked@[j as int].1@);
            assert(full[j as int] == ent@);
        }
        res.push(ent);
        proof {
            assert(full.len() == ranked@.len());
            assert(views_of(oldres).len() == oldres.len());
            assert(full.take(j as int).len() == j as int);
            assert(oldres.len() == j as int);
            assert forall|m: int| 0 <= m < res@.len() implies views_of(res@)[m] == full.take(
                j as int + 1,
            )[m] by {
                if m < j {
                    assert(res@[m] == oldres[m]);
                    assert(views_of(oldres)[m] == full.take(j as int)[m]);
                } else {
                    assert(res@[m] == ent);
                    assert(res@[m]@ == full[j as int]);
                }
            }
            assert(views_of(res@).len() == full.take(j as int + 1).len());
            assert(views_of(res@) =~= full.take(j as int + 1));
        }
        j = j + 1;
    }
    proof {
        assert(vall.take(entries@.len() as int) =~= vall);
        assert(full.to_multiset() == vall.filter(pred).to_multiset());
        assert(sorted_desc(full, lqv@)) by {
            assert forall|a: int, b: int| 0 <= a < b < full.len() implies score_of(full[a], lqv@)
                >= score_of(full[b], lqv@) by {
                assert(ranked@[a].0 >= ranked@[b].0);
                assert(ranked@[a].0 as int == score_of(ranked@[a].1@, lqv@));
                assert(ranked@[b].0 as int == score_of(ranked@[b].1@, lqv@));
            }
        }
        assert(views_of(res@) == top_k(full, 100));
        assert(res@.len() <= 100);
        assert(search_results(vall, lower_of(query@), views_of(res@)));
    }
    res
}

/// When no more than 100 entries match, a search returns every matching
/// entry: nothing is cut off below the cap.
pub proof fn lemma_search_below_cap_is_complete(idx: Seq<EntryView>, lq: Seq<char>, out: Seq<
    EntryView,
>)
    requires
        search_results(idx, lq, out),
        idx.filter(|e: EntryView| entry_matches(e, lq)).len() <= 100,
    ensures
        out.to_multiset() == idx.filter(|e: EntryView| entry_matches(e, lq)).to_multiset(),
{
    broadcast use vstd::seq_lib::group_to_multiset_ensures;

    let pred = |e: EntryView| entry_matches(e, lq);
    let full = choose|full: Seq<EntryView>|
        {
            &&& full.to_multiset() == idx.filter(pred).to_multiset()
            &&& sorted_desc(full, lq)
            &&& out == top_k(full, 100)
        };
    assert(full.len() == full.to_multiset().len());
    assert(idx.filter(pred).len() == idx.filter(pred).to_multiset().len());
    assert(full.len() <= 100);
    assert(out == full);
}

/// Every returned entry matched the query and stands in the index, the
/// returned order is by non-increasing score, and there are at most 100.
pub proof fn lemma_search_results_membership(idx: Seq<EntryView>, lq: Seq<char>, out: Seq<
    EntryView,
>)
    requires
        search_results(idx, lq, out),
    ensures
        out.len() <= 100,
        forall|i: int| 0 <= i < out.len() ==> entry_matches(#[trigger] out[i], lq),
        forall|i: int| 0 <= i < out.len() ==> idx.contains(#[trigger] out[i]),
        forall|i: int, j: int| 0 <= i < j < out.len() ==> score_of(out[i], lq) >= score_of(
            out[j],
            lq,
        ),
{
    broadcast use vstd::seq_lib::group_to_multiset_ensures;

    let pred = |e: EntryView| entry_matches(e, lq);
    let full = choose|full: Seq<EntryView>|
        {
            &&& full.to_multiset() == idx.filter(pred).to_multiset()
            &&& sorted_desc(full, lq)
            &&& out == top_k(full, 100)
        };
    lemma_filter_subset(idx, pred);
    assert forall|i: int| 0 <= i < out.len() implies entry_matches(#[trigger] out[i], lq)
        && idx.contains(out[i]) by {
        assert(out[i] == full[i]);
        assert(full.contains(full[i]));
        assert(full.to_multiset().count(full[i]) > 0);
        assert(idx.filter(pred).contains(full[i]));
        let m = choose|m: int| 0 <= m < idx.filter(pred).len() && idx.filter(pred)[m] == full[i];
        assert(pred(idx.filter(pred)[m])) by {
            broadcast use vstd::seq_lib::group_filter_ensures;

        }
        assert(idx.contains(idx.filter(pred)[m]));
    }
}

/// The tiers really are ranked: with the directory bonus, the name length
/// and the projects bonus held equal, an entry in a strictly better
/// textual tier scores strictly higher.
pub proof fn lemma_tier_order(a: EntryView, b: EntryView, lq: Seq<char>)
    requires
        a.is_directory == b.is_directory,
        a.name.len() == b.name.len(),
        has_substring(a.path, projects_path()) == has_substring(b.path, projects_path()),
        tier_bonus(lower_of(a.name), lq) > tier_bonus(lower_of(b.name), lq),
    ensures
        score_of(a, lq) > score_of(b, lq),
{
}

/// The four textual tiers, characterised: exactly one applies, in the
/// priority order exact, prefix, word boundary, plain substring.
pub proof fn lemma_tier_values(lname: Seq<char>, lq: Seq<char>)
    ensures
        lname == lq ==> tier_bonus(lname, lq) == 1000,
        lname != lq && lq.is_prefix_of(lname) ==> tier_bonus(lname, lq) == 500,
        lname != lq && !lq.is_prefix_of(lname) && word_boundary(lname, lq) ==> tier_bonus(
            lname,
            lq,
        ) == 300,
        lname != lq && !lq.is_prefix_of(lname) && !word_boundary(lname, lq) ==> tier_bonus(
            lname,
            lq,
        ) == 0,
{
}

} // verus!
