use vstd::prelude::*;
use vstd::seq_lib::seq_to_set_is_finite;
use crate::hard::{a2_threshold, threshold_links};
use crate::score::{Score, SoftMatrix};
use crate::merge::{AlgnMergeAction, Alignment, Link, contains_link, is_optional_merge, links, merge_batches, merged};

verus! {

/// The number of links of `a` that `g` does not hold.
pub open spec fn count_missing(a: Seq<Link>, g: Seq<Link>) -> nat
    decreases a.len(),
{
    if a.len() == 0 {
        0
    } else {
        count_missing(a.drop_last(), g) + if links(g).contains(a.last()) { 0nat } else { 1nat }
    }
}

/// The alignment error of a candidate link set against a gold link set: the links proposed but
/// not in gold, plus the gold links missed.
pub open spec fn link_error(a: Set<Link>, g: Set<Link>) -> nat {
    a.difference(g).len() + g.difference(a).len()
}

/// For a list without repeats, counting its missing links counts the set difference.
proof fn lemma_count_missing(a: Seq<Link>, g: Seq<Link>)
    requires
        a.no_duplicates(),
    ensures
        count_missing(a, g) == links(a).difference(links(g)).len(),
    decreases a.len(),
{
    if a.len() == 0 {
        assert(links(a).difference(links(g)) =~= Set::<Link>::empty());
    } else {
        let p = a.drop_last();
        let x = a.last();
        assert(p.no_duplicates()) by {
            assert forall|i: int, j: int| 0 <= i < p.len() && 0 <= j < p.len() && i != j implies p[i] != p[j] by {
                assert(p[i] == a[i] && p[j] == a[j]);
            }
        }
        lemma_count_missing(p, g);
        assert(a == p.push(x));
        p.lemma_push_to_set_commute(x);
        assert(!links(p).contains(x)) by {
            if p.contains(x) {
                let k = choose|k: int| 0 <= k < p.len() && p[k] == x;
                assert(a[k] == a[a.len() - 1]);
            }
        }
        seq_to_set_is_finite(p);
        seq_to_set_is_finite(g);
        if links(g).contains(x) {
            assert(links(a).difference(links(g)) =~= links(p).difference(links(g)));
        } else {
            assert(links(a).difference(links(g)) =~= links(p).difference(links(g)).insert(x));
        }
    }
}

/// Counts the links of `a` that `g` does not hold.
fn missing_links(a: &Alignment, g: &Alignment) -> (n: usize)
    ensures
        n == count_missing(a@, g@),
{
    let mut n: usize = 0;
    let mut i: usize = 0;
    while i < a.len()
        invariant
            i <= a@.len(),
            n <= i,
            n == count_missing(a@.take(i as int), g@),
        decreases a@.len() - i,
    {
        assert(a@.take(i + 1).drop_last() == a@.take(i as int));
        if !contains_link(g, a[i]) {
            n = n + 1;
        }
        i = i + 1;
    }
    assert(a@.take(a@.len() as int) == a@);
    n
}

/// The alignment error of one sentence pair's candidate against its gold alignment, saturated
/// at the largest `u64`.
pub fn sentence_error(a: &Alignment, g: &Alignment) -> (e: u64)
    requires
        a@.no_duplicates(),
        g@.no_duplicates(),
    ensures
        e == min_u64(link_error(links(a@), links(g@)) as int),
{
    let x = missing_links(a, g);
    let y = missing_links(g, a);
    proof {
        lemma_count_missing(a@, g@);
        lemma_count_missing(g@, a@);
    }
    saturating_sum(x as u64, y as u64)
}

/// `x`, or the largest `u64` when `x` is larger.
pub open spec fn min_u64(x: int) -> int {
    if x > u64::MAX { u64::MAX as int } else { x }
}

/// The sum of two counts, saturated at the largest `u64`.
fn saturating_sum(x: u64, y: u64) -> (r: u64)
    ensures
        r == min_u64(x + y),
{
    if x > u64::MAX - y { u64::MAX } else { x + y }
}

/// The link sets of a batch of alignments.
pub open spec fn batch_links(b: Seq<Alignment>) -> Seq<Set<Link>> {
    Seq::new(b.len(), |i: int| links(b[i]@))
}

/// Every alignment of the batch lists its links without repeats.
pub open spec fn batch_unique(b: Seq<Alignment>) -> bool {
    forall|i: int| 0 <= i < b.len() ==> (#[trigger] b[i])@.no_duplicates()
}

/// The alignment error of a batch against gold: the sum of the sentence errors.
pub open spec fn batch_error(b: Seq<Set<Link>>, g: Seq<Set<Link>>) -> nat
    decreases b.len(),
{
    if b.len() == 0 {
        0
    } else {
        batch_error(b.drop_last(), g) + link_error(b.last(), g[b.len() - 1])
    }
}

/// The alignment error of a batch against the gold alignments of its first sentence pairs,
/// saturated at the largest `u64`. Pairs beyond the gold ones are not scored.
pub fn alignment_error(a: &Vec<Alignment>, gold: &Vec<Alignment>) -> (e: u64)
    requires
        gold@.len() <= a@.len(),
        batch_unique(a@),
        batch_unique(gold@),
    ensures
        e == min_u64(batch_error(batch_links(a@).take(gold@.len() as int), batch_links(gold@)) as int),
{
    let mut e: u64 = 0;
    let mut i: usize = 0;
    while i < gold.len()
        invariant
            i <= gold@.len(),
            gold@.len() <= a@.len(),
            batch_unique(a@),
            batch_unique(gold@),
            e == min_u64(batch_error(batch_links(a@).take(i as int), batch_links(gold@)) as int),
        decreases gold@.len() - i,
    {
        assert(a@[i as int]@.no_duplicates());
        assert(gold@[i as int]@.no_duplicates());
        let x = sentence_error(&a[i], &gold[i]);
        assert(batch_links(a@).take(i + 1).drop_last() =~= batch_links(a@).take(i as int));
        e = saturating_sum(e, x);
        i = i + 1;
    }
    e
}

/// A copy of an alignment batch.
fn copy_batch(b: &Vec<Alignment>) -> (r: Vec<Alignment>)
    ensures
        r@.len() == b@.len(),
        forall|i: int| 0 <= i < b@.len() ==> (#[trigger] r@[i])@ == b@[i]@,
{
    let mut r: Vec<Alignment> = Vec::new();
    let mut i: usize = 0;
    while i < b.len()
        invariant
            i <= b@.len(),
            r@.len() == i,
            forall|k: int| 0 <= k < i ==> (#[trigger] r@[k])@ == b@[k]@,
        decreases b@.len() - i,
    {
        let a = &b[i];
        let mut c: Alignment = Vec::new();
        let mut j: usize = 0;
        while j < a.len()
            invariant
                j <= a@.len(),
                c@ == a@.take(j as int),
            decreases a@.len() - j,
        {
            c.push(a[j]);
            j = j + 1;
            assert(c@ =~= a@.take(j as int));
        }
        assert(a@.take(a@.len() as int) =~= a@);
        r.push(c);
        i = i + 1;
    }
    r
}

/// One stage of the search: the candidate batches over the corpus, one for each point of the
/// stage's parameter grid in grid order, and how a candidate is merged into the running
/// alignment.
pub struct Stage {
    pub candidates: Vec<Vec<Alignment>>,
    pub action: AlgnMergeAction,
}

/// A stage as link sets: the candidate batches and the merge action.
pub open spec fn stage_view(s: Stage) -> (Seq<Seq<Set<Link>>>, AlgnMergeAction) {
    (Seq::new(s.candidates@.len(), |p: int| batch_links(s.candidates@[p]@)), s.action)
}

/// The stages as link sets.
pub open spec fn stages_view(stages: Seq<Stage>) -> Seq<(Seq<Seq<Set<Link>>>, AlgnMergeAction)> {
    Seq::new(stages.len(), |k: int| stage_view(stages[k]))
}

/// Merges candidate `c` into the running alignment `prev`; with none yet, `c` is adopted.
pub open spec fn merge_sets(prev: Option<Seq<Set<Link>>>, c: Seq<Set<Link>>, action: AlgnMergeAction) -> Seq<Set<Link>> {
    match prev {
        None => c,
        Some(p) => Seq::new(c.len(), |i: int| merged(p[i], c[i], action)),
    }
}

/// The saturated error of merging candidate `c` into `prev`, scored on the gold sentence pairs.
pub open spec fn candidate_error(
    prev: Option<Seq<Set<Link>>>,
    c: Seq<Set<Link>>,
    action: AlgnMergeAction,
    gold: Seq<Set<Link>>,
) -> int {
    min_u64(batch_error(merge_sets(prev, c, action).take(gold.len() as int), gold) as int)
}

/// Among the first `n` candidates, the index of the first one whose merge has the lowest error.
pub open spec fn first_best(
    prev: Option<Seq<Set<Link>>>,
    cands: Seq<Seq<Set<Link>>>,
    action: AlgnMergeAction,
    gold: Seq<Set<Link>>,
    n: nat,
) -> nat
    decreases n,
{
    if n <= 1 {
        0
    } else {
        let b = first_best(prev, cands, action, gold, (n - 1) as nat);
        if candidate_error(prev, cands[n - 1], action, gold) < candidate_error(prev, cands[b as int], action, gold) {
            (n - 1) as nat
        } else {
            b
        }
    }
}

/// The greedy stage-by-stage search: each stage merges its best candidate into the running
/// alignment. Gives the final running alignment (none without stages) and the index chosen
/// at each stage.
pub open spec fn search(
    stages: Seq<(Seq<Seq<Set<Link>>>, AlgnMergeAction)>,
    gold: Seq<Set<Link>>,
) -> (Option<Seq<Set<Link>>>, Seq<nat>)
    decreases stages.len(),
{
    if stages.len() == 0 {
        (None, seq![])
    } else {
        let (prev, chosen) = search(stages.drop_last(), gold);
        let st = stages.last();
        let b = first_best(prev, st.0, st.1, gold, st.0.len());
        (Some(merge_sets(prev, st.0[b as int], st.1)), chosen.push(b))
    }
}

/// The search chooses one index per stage.
proof fn lemma_search_len(stages: Seq<(Seq<Seq<Set<Link>>>, AlgnMergeAction)>, gold: Seq<Set<Link>>)
    ensures
        search(stages, gold).1.len() == stages.len(),
    decreases stages.len(),
{
    if stages.len() > 0 {
        lemma_search_len(stages.drop_last(), gold);
    }
}

/// A stage whose grid is a list of thresholds: the candidate of each grid point is the
/// fixed-threshold rule at that threshold over `alignment_probs`.
pub fn threshold_stage(alignment_probs: &[SoftMatrix], thresholds: &Vec<Score>, action: AlgnMergeAction) -> (st: Stage)
    ensures
        st.action == action,
        st.candidates@.len() == thresholds@.len(),
        forall|p: int|
            0 <= p < thresholds@.len() ==> (#[trigger] st.candidates@[p])@.len() == alignment_probs@.len()
                && batch_unique(st.candidates@[p]@)
                && forall|i: int|
                0 <= i < alignment_probs@.len() ==> links(st.candidates@[p]@[i]@) == threshold_links(
                    alignment_probs@[i]@,
                    thresholds@[p],
                ),
{
    let mut candidates: Vec<Vec<Alignment>> = Vec::new();
    let mut p: usize = 0;
    while p < thresholds.len()
        invariant
            p <= thresholds@.len(),
            candidates@.len() == p,
            forall|q: int|
                0 <= q < p ==> (#[trigger] candidates@[q])@.len() == alignment_probs@.len()
                    && batch_unique(candidates@[q]@)
                    && forall|i: int|
                    0 <= i < alignment_probs@.len() ==> links(candidates@[q]@[i]@) == threshold_links(
                        alignment_probs@[i]@,
                        thresholds@[q],
                    ),
        decreases thresholds@.len() - p,
    {
        let c = a2_threshold(alignment_probs, thresholds[p]);
        candidates.push(c);
        p = p + 1;
    }
    Stage { candidates, action }
}

/// The link sets of a running alignment, if there is one.
pub open spec fn opt_links(o: Option<Vec<Alignment>>) -> Option<Seq<Set<Link>>> {
    match o {
        None => None,
        Some(b) => Some(batch_links(b@)),
    }
}

/// The number of sentence pairs that the first candidate of the first stage covers.
pub open spec fn corpus_len(stages: Seq<Stage>) -> int {
    if stages.len() > 0 && stages[0].candidates@.len() > 0 {
        stages[0].candidates@[0]@.len() as int
    } else {
        0
    }
}

/// The stages are fit for a search against `gold`: each has at least one candidate, every
/// candidate covers the same corpus, whose first sentence pairs the gold alignments cover, and
/// no alignment repeats a link.
pub open spec fn stages_fit(stages: Seq<Stage>, gold: Seq<Alignment>) -> bool {
    &&& batch_unique(gold)
    &&& stages.len() > 0 ==> gold.len() <= corpus_len(stages)
    &&& forall|k: int| 0 <= k < stages.len() ==> (#[trigger] stages[k]).candidates@.len() > 0
    &&& forall|k: int, p: int|
        0 <= k < stages.len() && 0 <= p < stages[k].candidates@.len() ==> (#[trigger] stages[k].candidates@[p])@.len()
            == corpus_len(stages) && batch_unique(stages[k].candidates@[p]@)
}

/// Merges candidate `c` into the running alignment `prev`, adopting a copy of `c` when there
/// is none yet.
fn merge_candidate(prev: &Option<Vec<Alignment>>, c: &Vec<Alignment>, action: AlgnMergeAction) -> (r: Vec<Alignment>)
    requires
        prev matches Some(p) ==> p@.len() == c@.len() && batch_unique(p@),
        batch_unique(c@),
    ensures
        r@.len() == c@.len(),
        batch_unique(r@),
        batch_links(r@) == merge_sets(opt_links(*prev), batch_links(c@), action),
{
    match prev {
        None => {
            let r = copy_batch(c);
            assert(batch_links(r@) =~= batch_links(c@));
            r
        },
        Some(p) => {
            let r = merge_batches(p, c, action);
            assert(batch_links(r@) =~= merge_sets(opt_links(*prev), batch_links(c@), action));
            r
        },
    }
}

/// The greedy grid search. Stage by stage, every candidate of the stage (one for each grid point)
/// is merged into the running alignment and scored against `gold` on the sentence pairs that
/// `gold` covers; the merge with the lowest error, the earliest on ties, becomes the running
/// alignment, over the whole corpus. Returns the final alignment (none without stages), the
/// index of the grid point chosen at each stage, and the final error (zero without stages).
pub fn gridsearch(stages: &Vec<Stage>, gold: &Vec<Alignment>) -> (res: (Option<Vec<Alignment>>, Vec<usize>, u64))
    requires
        stages_fit(stages@, gold@),
    ensures
        opt_links(res.0) == search(stages_view(stages@), batch_links(gold@)).0,
        res.1@.len() == stages@.len(),
        forall|k: int| 0 <= k < stages@.len() ==> res.1@[k] as nat == #[trigger] search(stages_view(stages@), batch_links(gold@)).1[k],
        res.2 == match res.0 {
            None => 0,
            Some(b) => min_u64(batch_error(batch_links(b@).take(gold@.len() as int), batch_links(gold@)) as int),
        },
{
    let ghost views = stages_view(stages@);
    let ghost g = batch_links(gold@);
    let mut best: Option<Vec<Alignment>> = None;
    let mut chosen: Vec<usize> = Vec::new();
    let mut error: u64 = 0;
    let mut k: usize = 0;
    while k < stages.len()
        invariant
            k <= stages@.len(),
            stages_fit(stages@, gold@),
            views == stages_view(stages@),
            g == batch_links(gold@),
            opt_links(best) == search(views.take(k as int), g).0,
            chosen@.len() == k,
            forall|j: int| 0 <= j < k ==> chosen@[j] as nat == #[trigger] search(views.take(k as int), g).1[j],
            best matches Some(b) ==> b@.len() == corpus_len(stages@) && batch_unique(b@),
            error == match best {
                None => 0,
                Some(b) => min_u64(batch_error(batch_links(b@).take(g.len() as int), g) as int),
            },
        decreases stages@.len() - k,
    {
        let stage = &stages[k];
        let ghost prev = opt_links(best);
        let ghost cands = views[k as int].0;
        assert(views.take(k + 1).drop_last() =~= views.take(k as int));
        assert(views.take(k + 1).last() == views[k as int]);
        assert(stage.candidates@.len() > 0);
        assert(cands =~= Seq::new(stage.candidates@.len(), |p: int| batch_links(stage.candidates@[p]@)));
        assert(stage.candidates@[0]@.len() == corpus_len(stages@) && batch_unique(stage.candidates@[0]@));
        assert(gold@.len() <= corpus_len(stages@));
        let mut top = merge_candidate(&best, &stage.candidates[0], stage.action);
        let mut top_error = alignment_error(&top, gold);
        let mut top_index: usize = 0;
        let mut p: usize = 1;
        while p < stage.candidates.len()
            invariant
                1 <= p <= stage.candidates@.len(),
                *stage == stages@[k as int],
                k < stages@.len(),
                stages_fit(stages@, gold@),
                prev == opt_links(best),
                cands == Seq::new(stage.candidates@.len(), |p: int| batch_links(stage.candidates@[p]@)),
                g == batch_links(gold@),
                best matches Some(b) ==> b@.len() == corpus_len(stages@) && batch_unique(b@),
                gold@.len() <= corpus_len(stages@),
                top_index == first_best(prev, cands, stage.action, g, p as nat),
                top_index < p,
                batch_links(top@) == merge_sets(prev, cands[top_index as int], stage.action),
                top@.len() == corpus_len(stages@),
                batch_unique(top@),
                top_error == min_u64(batch_error(batch_links(top@).take(g.len() as int), g) as int),
            decreases stage.candidates@.len() - p,
        {
            assert(stage.candidates@[p as int]@.len() == corpus_len(stages@) && batch_unique(stage.candidates@[p as int]@));
            let cand = merge_candidate(&best, &stage.candidates[p], stage.action);
            let cand_error = alignment_error(&cand, gold);
            if cand_error < top_error {
                top = cand;
                top_error = cand_error;
                top_index = p;
            }
            p = p + 1;
        }
        best = Some(top);
        error = top_error;
        chosen.push(top_index);
        proof {
            let s0 = search(views.take(k as int), g);
            let s1 = search(views.take(k + 1), g);
            assert(s1.1 == s0.1.push(top_index as nat));
            lemma_search_len(views.take(k as int), g);
            assert forall|j: int| 0 <= j < k + 1 implies chosen@[j] as nat == #[trigger] s1.1[j] by {
                if j < k {
                    assert(s0.1[j] == s1.1[j]);
                }
            }
        }
        k = k + 1;
    }
    assert(views.take(stages@.len() as int) =~= views);
    (best, chosen, error)
}

/// With a single grid point at each of two stages, the search chooses those points and its
/// result is the plain composition: the first candidate adopted, then the second merged into
/// it, each as `merge_algn` does.
pub proof fn single_point_search_is_composition(
    stages: Seq<Stage>,
    gold: Seq<Alignment>,
    first: Vec<Alignment>,
    second: Vec<Alignment>,
)
    requires
        stages.len() == 2,
        stages[0].candidates@.len() == 1,
        stages[1].candidates@.len() == 1,
        stages[0].candidates@[0]@.len() == stages[1].candidates@[0]@.len(),
        is_optional_merge(first@, None, stages[0].candidates@[0]@, stages[0].action),
        is_optional_merge(second@, Some(first), stages[1].candidates@[0]@, stages[1].action),
    ensures
        search(stages_view(stages), batch_links(gold)) == (
            Some(batch_links(second@)),
            seq![0nat, 0nat],
        ),
{
    let views = stages_view(stages);
    let g = batch_links(gold);
    let c1 = stages[0].candidates@[0]@;
    let c2 = stages[1].candidates@[0]@;
    assert(views.drop_last().drop_last() =~= Seq::<(Seq<Seq<Set<Link>>>, AlgnMergeAction)>::empty());
    assert(views.drop_last().last().0[0] == batch_links(c1));
    assert(views.last().0[0] == batch_links(c2));
    assert(batch_links(first@) =~= batch_links(c1));
    assert(search(views.drop_last().drop_last(), g) == (None::<Seq<Set<Link>>>, Seq::<nat>::empty()));
    assert(views.drop_last().last().0.len() == 1);
    assert(first@ == c1);
    let s1 = search(views.drop_last(), g);
    assert(s1.0 == Some(batch_links(first@)));
    assert(merge_sets(s1.0, batch_links(c2), stages[1].action) =~= batch_links(second@));
    assert(search(views, g).1 =~= seq![0nat, 0nat]);
}

} // verus!
