use vstd::prelude::*;

verus! {

/// An alignment link: (source position, target position).
pub type Link = (usize, usize);

/// The hard alignment of one sentence pair: a list of links without repeats.
pub type Alignment = Vec<Link>;

/// How two alignment sets are combined.
#[allow(non_camel_case_types)]
#[derive(Clone, Copy, Debug, PartialEq, Eq, Structural)]
pub enum AlgnMergeAction {
    /// Keep the links present in both sets.
    INTERSECT,
    /// Keep the links present in either set.
    JOIN,
}

/// The set of links of an alignment.
pub open spec fn links(a: Seq<Link>) -> Set<Link> {
    a.to_set()
}

/// The merge of two link sets under `action`.
pub open spec fn merged(a: Set<Link>, b: Set<Link>, action: AlgnMergeAction) -> Set<Link> {
    match action {
        AlgnMergeAction::INTERSECT => a.intersect(b),
        AlgnMergeAction::JOIN => a.union(b),
    }
}

/// `r` is the element-wise merge of two equally long alignment batches.
pub open spec fn is_batch_merge(r: Seq<Alignment>, a: Seq<Alignment>, b: Seq<Alignment>, action: AlgnMergeAction) -> bool {
    &&& r.len() == b.len()
    &&& forall|i: int|
        0 <= i < r.len() ==> links((#[trigger] r[i])@) == merged(links(a[i]@), links(b[i]@), action)
        && (a[i]@.no_duplicates() && b[i]@.no_duplicates() ==> r[i]@.no_duplicates())
}

/// The result of merging `b` into a running alignment that may not exist yet: with none, `b`
/// is adopted as it is.
pub open spec fn is_optional_merge(r: Seq<Alignment>, a: Option<Vec<Alignment>>, b: Seq<Alignment>, action: AlgnMergeAction) -> bool {
    match a {
        None => r == b,
        Some(a) => is_batch_merge(r, a@, b, action),
    }
}

/// Whether `l` is one of the links of `a`.
pub fn contains_link(a: &Alignment, l: Link) -> (r: bool)
    ensures
        r == links(a@).contains(l),
{
    let mut i: usize = 0;
    while i < a.len()
        invariant
            i <= a@.len(),
            forall|k: int| 0 <= k < i ==> a@[k] != l,
        decreases a@.len() - i,
    {
        if a[i].0 == l.0 && a[i].1 == l.1 {
            assert(a@.contains(l));
            return true;
        }
        i = i + 1;
    }
    false
}

/// Merges the links of two alignments of one sentence pair: the links of `a`, in their order,
/// that `action` keeps, followed for a join by the links of `b` missing from `a`.
pub fn merge_links(a: &Alignment, b: &Alignment, action: AlgnMergeAction) -> (r: Alignment)
    ensures
        links(r@) == merged(links(a@), links(b@), action),
        a@.no_duplicates() && b@.no_duplicates() ==> r@.no_duplicates(),
{
    let mut r: Alignment = Vec::new();
    let mut i: usize = 0;
    while i < a.len()
        invariant
            i <= a@.len(),
            forall|l: Link| #[trigger] r@.contains(l) <==> (exists|k: int| 0 <= k < i && a@[k] == l)
                && (action == AlgnMergeAction::JOIN || b@.contains(l)),
            a@.no_duplicates() ==> r@.no_duplicates(),
        decreases a@.len() - i,
    {
        let l = a[i];
        let ghost r0 = r@;
        let keep = match action {
            AlgnMergeAction::INTERSECT => contains_link(b, l),
            AlgnMergeAction::JOIN => true,
        };
        if keep {
            proof {
                if a@.no_duplicates() {
                    assert(!r@.contains(l)) by {
                        if r@.contains(l) {
                            let k = choose|k: int| 0 <= k < i && a@[k] == l;
                            assert(a@[k] == a@[i as int]);
                        }
                    }
                }
            }
            r.push(l);
        }
        assert forall|x: Link| #[trigger] r@.contains(x) <==> (exists|k: int| 0 <= k < i + 1 && a@[k] == x)
            && (action == AlgnMergeAction::JOIN || b@.contains(x)) by {
            if x == l {
                assert(a@[i as int] == x);
            }
            if keep {
                assert(r@ == r0.push(l));
                if r0.contains(x) {
                    let k = choose|k: int| 0 <= k < r0.len() && r0[k] == x;
                    assert(r@[k] == x);
                }
                if x == l {
                    assert(r@[r0.len() as int] == x);
                }
                if r@.contains(x) && x != l {
                    let k = choose|k: int| 0 <= k < r@.len() && r@[k] == x;
                    assert(r0[k] == x);
                }
            }
            if exists|k: int| 0 <= k < i + 1 && a@[k] == x {
                let k = choose|k: int| 0 <= k < i + 1 && a@[k] == x;
                if k < i {
                    assert(exists|k: int| 0 <= k < i && a@[k] == x);
                }
            }
        }
        i = i + 1;
    }
    assert(forall|l: Link| r@.contains(l) <==> a@.contains(l) && (action == AlgnMergeAction::JOIN || b@.contains(l)));
    if action == AlgnMergeAction::JOIN {
        let mut j: usize = 0;
        while j < b.len()
            invariant
                j <= b@.len(),
                action == AlgnMergeAction::JOIN,
                forall|l: Link| #[trigger] r@.contains(l) <==> a@.contains(l)
                    || (exists|k: int| 0 <= k < j && b@[k] == l),
                a@.no_duplicates() && b@.no_duplicates() ==> r@.no_duplicates(),
            decreases b@.len() - j,
        {
            let l = b[j];
            let ghost r0 = r@;
            let fresh = !contains_link(a, l);
            if fresh {
                proof {
                    if a@.no_duplicates() && b@.no_duplicates() {
                        assert(!r@.contains(l)) by {
                            if r@.contains(l) {
                                let k = choose|k: int| 0 <= k < j && b@[k] == l;
                                assert(b@[k] == b@[j as int]);
                            }
                        }
                    }
                }
                r.push(l);
            }
            assert forall|x: Link| #[trigger] r@.contains(x) <==> a@.contains(x)
                || (exists|k: int| 0 <= k < j + 1 && b@[k] == x) by {
                if x == l {
                    assert(b@[j as int] == x);
                }
                if fresh {
                    assert(r@ == r0.push(l));
                    if r0.contains(x) {
                        let k = choose|k: int| 0 <= k < r0.len() && r0[k] == x;
                        assert(r@[k] == x);
                    }
                    if x == l {
                        assert(r@[r0.len() as int] == x);
                    }
                    if r@.contains(x) && x != l {
                        let k = choose|k: int| 0 <= k < r@.len() && r@[k] == x;
                        assert(r0[k] == x);
                    }
                }
                if exists|k: int| 0 <= k < j + 1 && b@[k] == x {
                    let k = choose|k: int| 0 <= k < j + 1 && b@[k] == x;
                    if k < j {
                        assert(exists|k: int| 0 <= k < j && b@[k] == x);
                    }
                }
            }
            j = j + 1;
        }
    }
    assert(links(r@) =~= merged(links(a@), links(b@), action));
    r
}

/// Merges two equally long alignment batches pair by pair under `action`.
pub fn merge_batches(a: &Vec<Alignment>, b: &Vec<Alignment>, action: AlgnMergeAction) -> (r: Vec<Alignment>)
    requires
        a@.len() == b@.len(),
    ensures
        is_batch_merge(r@, a@, b@, action),
{
    let mut r: Vec<Alignment> = Vec::new();
    let mut i: usize = 0;
    while i < b.len()
        invariant
            i <= b@.len(),
            a@.len() == b@.len(),
            r@.len() == i,
            forall|k: int|
                0 <= k < i ==> links((#[trigger] r@[k])@) == merged(links(a@[k]@), links(b@[k]@), action)
                && (a@[k]@.no_duplicates() && b@[k]@.no_duplicates() ==> r@[k]@.no_duplicates()),
        decreases b@.len() - i,
    {
        r.push(merge_links(&a[i], &b[i], action));
        i = i + 1;
    }
    r
}

/// Merges two alignment batches pair by pair under `action`; with no running alignment `a`,
/// the result is `b`.
pub fn merge_algn(a: Option<Vec<Alignment>>, b: Vec<Alignment>, action: AlgnMergeAction) -> (r: Vec<Alignment>)
    requires
        a matches Some(a) ==> a@.len() == b@.len(),
    ensures
        is_optional_merge(r@, a, b@, action),
{
    match a {
        None => b,
        Some(a) => merge_batches(&a, &b, action),
    }
}

/// Intersects two alignment batches pair by pair; with no running alignment `a`, the result is `b`.
pub fn intersect_algn(a: Option<Vec<Alignment>>, b: Vec<Alignment>) -> (r: Vec<Alignment>)
    requires
        a matches Some(a) ==> a@.len() == b@.len(),
    ensures
        is_optional_merge(r@, a, b@, AlgnMergeAction::INTERSECT),
{
    merge_algn(a, b, AlgnMergeAction::INTERSECT)
}

/// Joins two alignment batches pair by pair; with no running alignment `a`, the result is `b`.
pub fn join_algn(a: Option<Vec<Alignment>>, b: Vec<Alignment>) -> (r: Vec<Alignment>)
    requires
        a matches Some(a) ==> a@.len() == b@.len(),
    ensures
        is_optional_merge(r@, a, b@, AlgnMergeAction::JOIN),
{
    merge_algn(a, b, AlgnMergeAction::JOIN)
}

/// Merging a link set with itself, by intersection or by join, gives the same set back.
pub proof fn merge_idempotent(a: Set<Link>, action: AlgnMergeAction)
    ensures
        merged(a, a, action) == a,
{
    assert(merged(a, a, action) =~= a);
}

/// Both merges are commutative.
pub proof fn merge_commutative(a: Set<Link>, b: Set<Link>, action: AlgnMergeAction)
    ensures
        merged(a, b, action) == merged(b, a, action),
{
    assert(merged(a, b, action) =~= merged(b, a, action));
}

/// An intersection lies within each operand; a join contains each operand.
pub proof fn merge_bounds(a: Set<Link>, b: Set<Link>)
    ensures
        merged(a, b, AlgnMergeAction::INTERSECT).subset_of(a),
        merged(a, b, AlgnMergeAction::INTERSECT).subset_of(b),
        a.subset_of(merged(a, b, AlgnMergeAction::JOIN)),
        b.subset_of(merged(a, b, AlgnMergeAction::JOIN)),
{
}

} // verus!
