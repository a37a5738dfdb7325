//! Ranking of peak candidates.
//!
//! The ranking of a sequence of candidates puts the tallest first. Among
//! candidates of one height the one that came first in the sequence keeps
//! its place before the others, so the ranking is the stable descending
//! sort by height.

use vstd::prelude::*;

verus! {

/// A peak as the ranking sees it: how high it is and in which bin it sits.
#[derive(Debug, Clone, Copy, PartialEq, Eq, Structural)]
pub struct Candidate {
    pub height: i64,
    pub bin: usize,
}

/// The index of the tallest candidate of `s`, the first of them if several
/// are equally tall.
pub open spec fn tallest(s: Seq<Candidate>) -> int
    decreases s.len(),
{
    if s.len() <= 1 {
        0
    } else {
        let t = tallest(s.drop_last());
        if s.last().height > s[t].height {
            s.len() - 1
        } else {
            t
        }
    }
}

/// The ranking of `s`: its tallest candidate, then the ranking of the
/// others.
pub open spec fn ranking(s: Seq<Candidate>) -> Seq<Candidate>
    decreases s.len(),
    via ranking_decreases
{
    if s.len() == 0 {
        Seq::empty()
    } else {
        seq![s[tallest(s)]] + ranking(s.remove(tallest(s)))
    }
}

#[via_fn]
proof fn ranking_decreases(s: Seq<Candidate>) {
    if s.len() > 0 {
        lemma_tallest(s);
    }
}

/// The candidates of `s` that sit in a bin below `limit`, in their order.
pub open spec fn eligible(s: Seq<Candidate>, limit: usize) -> Seq<Candidate> {
    s.filter(below(limit))
}

/// The test for a bin below `limit`.
pub open spec fn below(limit: usize) -> spec_fn(Candidate) -> bool {
    |c: Candidate| c.bin < limit
}

/// The test for height `h`.
pub open spec fn at_height(h: i64) -> spec_fn(Candidate) -> bool {
    |c: Candidate| c.height == h
}

/// Whether heights never rise along `r`.
pub open spec fn descending(r: Seq<Candidate>) -> bool {
    forall|i: int, j: int|
        0 <= i <= j < r.len() ==> (#[trigger] r[i]).height >= (#[trigger] r[j]).height
}

/// The first rank of `r` held by a candidate lower than `h`; the length of
/// `r` if there is none.
pub open spec fn slot(r: Seq<Candidate>, h: i64) -> int
    decreases r.len(),
{
    if r.len() == 0 || r[0].height < h {
        0
    } else {
        1 + slot(r.drop_first(), h)
    }
}

/// `tallest` names a candidate that none exceeds and none before it
/// equals.
pub proof fn lemma_tallest(s: Seq<Candidate>)
    requires
        s.len() > 0,
    ensures
        0 <= tallest(s) < s.len(),
        forall|j: int| 0 <= j < s.len() ==> (#[trigger] s[j]).height <= s[tallest(s)].height,
        forall|j: int| 0 <= j < tallest(s) ==> (#[trigger] s[j]).height < s[tallest(s)].height,
    decreases s.len(),
{
    if s.len() > 1 {
        let front = s.drop_last();
        lemma_tallest(front);
        assert forall|j: int| 0 <= j < s.len() implies (#[trigger] s[j]).height <= s[tallest(
            s,
        )].height by {
            if j < front.len() {
                assert(front[j] == s[j]);
            }
        }
        assert forall|j: int| 0 <= j < tallest(s) implies (#[trigger] s[j]).height < s[tallest(
            s,
        )].height by {
            if j < front.len() {
                assert(front[j] == s[j]);
            }
        }
    }
}

/// A slot is a rank of `r` or its length; the ranks before it hold
/// candidates of height `h` or more, and the slot itself, if it is a rank,
/// a lower one.
pub proof fn lemma_slot(r: Seq<Candidate>, h: i64)
    ensures
        0 <= slot(r, h) <= r.len(),
        forall|j: int| 0 <= j < slot(r, h) ==> (#[trigger] r[j]).height >= h,
        slot(r, h) < r.len() ==> r[slot(r, h)].height < h,
    decreases r.len(),
{
    if !(r.len() == 0 || r[0].height < h) {
        let rest = r.drop_first();
        lemma_slot(rest, h);
        assert forall|j: int| 0 <= j < slot(r, h) implies (#[trigger] r[j]).height >= h by {
            if j > 0 {
                assert(rest[j - 1] == r[j]);
            }
        }
        if slot(r, h) < r.len() {
            assert(rest[slot(rest, h)] == r[slot(r, h)]);
        }
    }
}

/// The rank `k` is the slot for `h` when every rank before it holds a
/// candidate of height `h` or more and `k` itself does not.
pub proof fn lemma_slot_found(r: Seq<Candidate>, h: i64, k: int)
    requires
        0 <= k <= r.len(),
        forall|j: int| 0 <= j < k ==> (#[trigger] r[j]).height >= h,
        k < r.len() ==> r[k].height < h,
    ensures
        slot(r, h) == k,
    decreases k,
{
    if k > 0 {
        let rest = r.drop_first();
        assert forall|j: int| 0 <= j < k - 1 implies (#[trigger] rest[j]).height >= h by {
            assert(rest[j] == r[j + 1]);
        }
        if k < r.len() {
            assert(rest[k - 1] == r[k]);
        }
        lemma_slot_found(rest, h, k - 1);
    }
}

/// The ranking has the candidates of `s` and no others.
pub proof fn lemma_ranking_members(s: Seq<Candidate>)
    ensures
        ranking(s).len() == s.len(),
        forall|k: int| 0 <= k < s.len() ==> s.contains(#[trigger] ranking(s)[k]),
    decreases s.len(),
{
    if s.len() > 0 {
        lemma_tallest(s);
        let t = tallest(s);
        let rest = s.remove(t);
        lemma_ranking_members(rest);
        assert forall|k: int| 0 <= k < s.len() implies s.contains(#[trigger] ranking(s)[k]) by {
            if k == 0 {
                assert(ranking(s)[0] == s[t]);
            } else {
                let x = ranking(rest)[k - 1];
                assert(ranking(s)[k] == x);
                assert(rest.contains(x));
                let j = choose|j: int| 0 <= j < rest.len() && rest[j] == x;
                if j < t {
                    assert(s[j] == x);
                } else {
                    assert(s[j + 1] == x);
                }
            }
        }
    }
}

/// The ranking leaves no candidate of `s` out.
pub proof fn lemma_ranking_has_all(s: Seq<Candidate>)
    ensures
        forall|j: int| 0 <= j < s.len() ==> ranking(s).contains(#[trigger] s[j]),
    decreases s.len(),
{
    if s.len() > 0 {
        lemma_tallest(s);
        let t = tallest(s);
        let rest = s.remove(t);
        lemma_ranking_has_all(rest);
        lemma_ranking_members(rest);
        let r = ranking(s);
        assert forall|j: int| 0 <= j < s.len() implies r.contains(#[trigger] s[j]) by {
            if j == t {
                assert(r[0] == s[t]);
            } else {
                let i = if j < t {
                    j
                } else {
                    j - 1
                };
                assert(rest[i] == s[j]);
                assert(ranking(rest).contains(rest[i]));
                let k = choose|k: int| 0 <= k < ranking(rest).len() && ranking(rest)[k] == s[j];
                assert(r[k + 1] == s[j]);
            }
        }
    }
}

/// Where no candidate occurs twice in `s`, none occurs twice in its
/// ranking.
pub proof fn lemma_ranking_no_duplicates(s: Seq<Candidate>)
    requires
        s.no_duplicates(),
    ensures
        ranking(s).no_duplicates(),
    decreases s.len(),
{
    if s.len() > 0 {
        lemma_tallest(s);
        let t = tallest(s);
        let rest = s.remove(t);
        assert forall|i: int, j: int| 0 <= i < rest.len() && 0 <= j < rest.len() && i
            != j implies rest[i] != rest[j] by {
            let a = if i < t {
                i
            } else {
                i + 1
            };
            let b = if j < t {
                j
            } else {
                j + 1
            };
            assert(rest[i] == s[a] && rest[j] == s[b]);
        }
        lemma_ranking_no_duplicates(rest);
        lemma_ranking_members(rest);
        let r = ranking(s);
        let q = ranking(rest);
        assert forall|i: int| 0 <= i < q.len() implies #[trigger] q[i] != s[t] by {
            assert(rest.contains(q[i]));
            let k = choose|k: int| 0 <= k < rest.len() && rest[k] == q[i];
            let a = if k < t {
                k
            } else {
                k + 1
            };
            assert(rest[k] == s[a]);
        }
        assert forall|i: int, j: int| 0 <= i < r.len() && 0 <= j < r.len() && i != j implies r[i]
            != r[j] by {
            if i > 0 {
                assert(r[i] == q[i - 1]);
            }
            if j > 0 {
                assert(r[j] == q[j - 1]);
            }
        }
    }
}

/// Where no candidate occurs twice in `s`, none occurs twice among the
/// eligible ones.
pub proof fn lemma_eligible_no_duplicates(s: Seq<Candidate>, limit: usize)
    requires
        s.no_duplicates(),
    ensures
        eligible(s, limit).no_duplicates(),
    decreases s.len(),
{
    let p = below(limit);
    if s.len() == 0 {
        s.lemma_filter_len(p);
    } else {
        let front = s.drop_last();
        let c = s.last();
        assert(s =~= front.push(c));
        lemma_eligible_no_duplicates(front, limit);
        front.lemma_filter_push(c, p);
        if p(c) {
            let kept = front.filter(p);
            if kept.contains(c) {
                front.lemma_filter_contains_rev(p, c);
                let k = choose|k: int| 0 <= k < front.len() && front[k] == c;
                assert(s[k] == c);
                assert(false);
            }
            assert forall|i: int, j: int|
                0 <= i < kept.push(c).len() && 0 <= j < kept.push(c).len() && i
                    != j implies kept.push(c)[i] != kept.push(c)[j] by {
                if i < kept.len() && j < kept.len() {
                } else if i < kept.len() {
                    assert(kept.contains(kept[i]));
                } else {
                    assert(kept.contains(kept[j]));
                }
            }
        }
    }
}

/// Heights never rise along a ranking.
pub proof fn lemma_ranking_descending(s: Seq<Candidate>)
    ensures
        descending(ranking(s)),
    decreases s.len(),
{
    if s.len() > 0 {
        lemma_tallest(s);
        let t = tallest(s);
        let rest = s.remove(t);
        lemma_ranking_descending(rest);
        lemma_ranking_members(rest);
        let r = ranking(s);
        assert forall|i: int, j: int| 0 <= i <= j < r.len() implies (#[trigger] r[i]).height
            >= (#[trigger] r[j]).height by {
            if j > 0 {
                let x = ranking(rest)[j - 1];
                assert(r[j] == x);
                if i == 0 {
                    assert(rest.contains(x));
                    let k = choose|k: int| 0 <= k < rest.len() && rest[k] == x;
                    if k < t {
                        assert(s[k] == x);
                    } else {
                        assert(s[k + 1] == x);
                    }
                } else {
                    assert(r[i] == ranking(rest)[i - 1]);
                }
            }
        }
    }
}

/// Ranking one candidate more puts it into its slot among the others:
/// behind every candidate at least as tall and before every lower one.
pub proof fn lemma_ranking_push(s: Seq<Candidate>, c: Candidate)
    ensures
        ranking(s.push(c)) == ranking(s).insert(slot(ranking(s), c.height), c),
    decreases s.len(),
{
    let sc = s.push(c);
    assert(sc.drop_last() =~= s);
    if s.len() == 0 {
        assert(sc.remove(0) =~= Seq::<Candidate>::empty());
        assert(ranking(sc.remove(0)) =~= Seq::<Candidate>::empty());
        assert(ranking(sc) =~= seq![c]);
        assert(ranking(s).insert(0, c) =~= seq![c]);
    } else {
        lemma_tallest(s);
        let t = tallest(s);
        let r = ranking(s);
        if c.height > s[t].height {
            assert(tallest(sc) == s.len());
            assert(sc.remove(s.len() as int) =~= s);
            assert(r[0] == s[t]);
            assert(slot(r, c.height) == 0);
            assert(r.insert(0, c) =~= seq![c] + r);
        } else {
            assert(tallest(sc) == t);
            let rest = s.remove(t);
            assert(sc.remove(t) =~= rest.push(c));
            lemma_ranking_push(rest, c);
            let q = ranking(rest);
            lemma_slot(q, c.height);
            lemma_ranking_members(rest);
            assert(r =~= seq![s[t]] + q);
            assert(r.drop_first() =~= q);
            assert(slot(r, c.height) == 1 + slot(q, c.height));
            assert(r.insert(1 + slot(q, c.height), c) =~= seq![s[t]] + q.insert(
                slot(q, c.height),
                c,
            ));
        }
    }
}

/// A ranking keeps the candidates of each height, and keeps them in the
/// order in which they came: ties are broken by the order of detection.
pub proof fn lemma_ranking_stable(s: Seq<Candidate>, h: i64)
    ensures
        ranking(s).filter(at_height(h)) == s.filter(at_height(h)),
    decreases s.len(),
{
    let p = at_height(h);
    if s.len() == 0 {
        assert(ranking(s) =~= s);
    } else {
        let front = s.drop_last();
        let c = s.last();
        assert(s =~= front.push(c));
        lemma_ranking_stable(front, h);
        lemma_ranking_push(front, c);
        lemma_ranking_descending(front);
        lemma_ranking_members(front);
        front.lemma_filter_push(c, p);
        let r = ranking(front);
        let k = slot(r, c.height);
        lemma_slot(r, c.height);
        let head = r.subrange(0, k);
        let tail = r.subrange(k, r.len() as int);
        assert(r =~= head + tail);
        assert(r.insert(k, c) =~= head.push(c) + tail);
        Seq::filter_distributes_over_add(head, tail, p);
        Seq::filter_distributes_over_add(head.push(c), tail, p);
        head.lemma_filter_push(c, p);
        if c.height == h {
            assert(tail.all(|x: Candidate| !p(x))) by {
                assert forall|i: int| 0 <= i < tail.len() implies !p(#[trigger] tail[i]) by {
                    assert(tail[i] == r[k + i]);
                    assert(r[k].height >= r[k + i].height);
                }
            }
            tail.lemma_all_neg_filter_empty(p);
            assert(tail.filter(p) =~= Seq::<Candidate>::empty());
            assert(head.filter(p) + tail.filter(p) =~= head.filter(p));
            assert(head.filter(p).push(c) + tail.filter(p) =~= head.filter(p).push(c));
        }
    }
}

/// Ranks the candidates that sit in a bin below `limit`, tallest first,
/// equally tall ones in the order in which they are given.
pub fn rank_candidates(cands: &Vec<Candidate>, limit: usize) -> (ranked: Vec<Candidate>)
    ensures
        ranked@ == ranking(eligible(cands@, limit)),
        descending(ranked@),
        forall|k: int|
            0 <= k < ranked.len() ==> cands@.contains(#[trigger] ranked[k]) && ranked[k].bin
                < limit,
        forall|j: int|
            0 <= j < cands.len() && (#[trigger] cands[j]).bin < limit ==> ranked@.contains(
                cands[j],
            ),
        cands@.no_duplicates() ==> ranked@.no_duplicates(),
{
    let mut ranked: Vec<Candidate> = Vec::new();
    let mut i: usize = 0;
    proof {
        assert(cands@.take(0) =~= Seq::<Candidate>::empty());
        reveal(Seq::filter);
        assert(eligible(cands@.take(0), limit) =~= Seq::<Candidate>::empty());
    }
    while i < cands.len()
        invariant
            i <= cands.len(),
            ranked@ == ranking(eligible(cands@.take(i as int), limit)),
        decreases cands.len() - i,
    {
        let c: Candidate = cands[i];
        proof {
            cands@.lemma_take_succ_push(i as int);
            cands@.take(i as int).lemma_filter_push(c, below(limit));
        }
        if c.bin < limit {
            let ghost kept = eligible(cands@.take(i as int), limit);
            let mut k: usize = ranked.len();
            proof {
                lemma_ranking_descending(kept);
            }
            while k > 0 && ranked[k - 1].height < c.height
                invariant
                    k <= ranked.len(),
                    forall|j: int| k <= j < ranked.len() ==> (#[trigger] ranked[j]).height < c.height,
                decreases k,
            {
                k -= 1;
            }
            proof {
                assert forall|j: int| 0 <= j < k implies (#[trigger] ranked[j]).height >= c.height by {
                    assert(ranked[j].height >= ranked[k - 1].height);
                }
                lemma_slot_found(ranked@, c.height, k as int);
                lemma_ranking_push(kept, c);
            }
            ranked.insert(k, c);
        }
        i += 1;
    }
    proof {
        let kept = eligible(cands@, limit);
        assert(cands@.take(cands.len() as int) =~= cands@);
        lemma_ranking_descending(kept);
        lemma_ranking_members(kept);
        assert forall|k: int| 0 <= k < ranked.len() implies cands@.contains(#[trigger] ranked[k])
            && ranked[k].bin < limit by {
            let x = ranked[k];
            assert(kept.contains(x));
            let j = choose|j: int| 0 <= j < kept.len() && kept[j] == x;
            cands@.lemma_filter_pred(below(limit), j);
            cands@.lemma_filter_contains_rev(below(limit), x);
        }
        lemma_ranking_has_all(kept);
        assert forall|j: int| 0 <= j < cands.len() && (#[trigger] cands[j]).bin
            < limit implies ranked@.contains(cands[j]) by {
            cands@.lemma_filter_contains(below(limit), j);
            let i = choose|i: int| 0 <= i < kept.len() && kept[i] == cands[j];
            assert(ranking(kept).contains(kept[i]));
        }
        if cands@.no_duplicates() {
            lemma_eligible_no_duplicates(cands@, limit);
            lemma_ranking_no_duplicates(kept);
        }
    }
    ranked
}

} // verus!
