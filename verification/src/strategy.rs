//! The optimization-strategy capability and the mathematical description of
//! the partition-and-fuse driver: selection, equivalence-class grouping with
//! first-occurrence key order, and per-class fusion.

use vstd::prelude::*;

use crate::filters::{FilterModel, NetworkFilter};
use crate::sequences::{lemma_where_push, seq_where};

verus! {

/// A pluggable unit of fusion policy: an eligibility predicate, an
/// equivalence-class key, and a merge of a non-empty class into one filter.
pub trait Optimization: Sized {
    /// Eligibility of a filter for this strategy.
    spec fn spec_select(&self, f: FilterModel) -> bool;

    /// Equivalence-class key of an eligible filter.
    spec fn spec_key(&self, f: FilterModel) -> u64;

    /// The filter that fusing a non-empty class produces.
    spec fn spec_fuse(&self, g: Seq<FilterModel>) -> FilterModel
        recommends
            g.len() >= 1,
    ;

    /// Decide whether a filter is eligible for this strategy.
    fn select(&self, filter: &NetworkFilter) -> (r: bool)
        ensures
            r == self.spec_select(filter.deep_view()),
    ;

    /// Compute the equivalence-class key of a filter.
    fn group_by_criteria(&self, filter: &NetworkFilter) -> (k: u64)
        ensures
            k == self.spec_key(filter.deep_view()),
    ;

    /// Merge a non-empty group of mutually compatible filters into one
    /// replacement filter. Calling this on an empty group is a contract
    /// violation.
    fn fusion(&self, filters: &Vec<NetworkFilter>) -> (r: NetworkFilter)
        requires
            filters@.len() >= 1,
        ensures
            r.deep_view() == self.spec_fuse(filters.deep_view()),
    ;
}

/// The eligibility predicate of a strategy, as a value.
pub open spec fn sel_pred<T: Optimization>(opt: &T) -> spec_fn(FilterModel) -> bool {
    |f: FilterModel| opt.spec_select(f)
}

/// The complement of the eligibility predicate, as a value.
pub open spec fn unsel_pred<T: Optimization>(opt: &T) -> spec_fn(FilterModel) -> bool {
    |f: FilterModel| !opt.spec_select(f)
}

/// The predicate selecting one equivalence class, as a value.
pub open spec fn key_pred<T: Optimization>(opt: &T, k: u64) -> spec_fn(FilterModel) -> bool {
    |f: FilterModel| opt.spec_key(f) == k
}

/// Eligibility conjoined with one class key, as a value.
pub open spec fn sel_key_pred<T: Optimization>(opt: &T, k: u64) -> spec_fn(FilterModel) -> bool {
    |f: FilterModel| opt.spec_select(f) && opt.spec_key(f) == k
}

/// The eligible filters of `s`, in order.
pub open spec fn eligible_of<T: Optimization>(opt: &T, s: Seq<FilterModel>) -> Seq<FilterModel> {
    seq_where(s, sel_pred(opt))
}

/// The ineligible filters of `s`, in order.
pub open spec fn ineligible_of<T: Optimization>(opt: &T, s: Seq<FilterModel>) -> Seq<
    FilterModel,
> {
    seq_where(s, unsel_pred(opt))
}

/// The members of the equivalence class with key `k`, in order.
pub open spec fn class_of<T: Optimization>(opt: &T, s: Seq<FilterModel>, k: u64) -> Seq<
    FilterModel,
> {
    seq_where(s, key_pred(opt, k))
}

/// The distinct class keys of `s`, in first-occurrence order.
pub open spec fn keys_of<T: Optimization>(opt: &T, s: Seq<FilterModel>) -> Seq<u64>
    decreases s.len(),
{
    if s.len() == 0 {
        Seq::empty()
    } else {
        let prev = keys_of(opt, s.drop_last());
        if prev.contains(opt.spec_key(s.last())) {
            prev
        } else {
            prev.push(opt.spec_key(s.last()))
        }
    }
}

/// No key occurs twice.
pub open spec fn no_dup_keys(ks: Seq<u64>) -> bool {
    forall|i: int, j: int| 0 <= i < j < ks.len() ==> ks[i] != ks[j]
}

/// The fused replacements: one per class of two or more members, in key
/// order.
pub open spec fn fused_of<T: Optimization>(
    opt: &T,
    elig: Seq<FilterModel>,
    ks: Seq<u64>,
) -> Seq<FilterModel>
    decreases ks.len(),
{
    if ks.len() == 0 {
        Seq::empty()
    } else {
        let prev = fused_of(opt, elig, ks.drop_last());
        if class_of(opt, elig, ks.last()).len() >= 2 {
            prev.push(opt.spec_fuse(class_of(opt, elig, ks.last())))
        } else {
            prev
        }
    }
}

/// The lone members of singleton classes, in key order.
pub open spec fn singles_of<T: Optimization>(
    opt: &T,
    elig: Seq<FilterModel>,
    ks: Seq<u64>,
) -> Seq<FilterModel>
    decreases ks.len(),
{
    if ks.len() == 0 {
        Seq::empty()
    } else {
        let prev = singles_of(opt, elig, ks.drop_last());
        if class_of(opt, elig, ks.last()).len() == 1 {
            prev.push(class_of(opt, elig, ks.last())[0])
        } else {
            prev
        }
    }
}

/// Total size of the listed classes.
pub open spec fn sum_classes<T: Optimization>(
    opt: &T,
    elig: Seq<FilterModel>,
    ks: Seq<u64>,
) -> int
    decreases ks.len(),
{
    if ks.len() == 0 {
        0
    } else {
        sum_classes(opt, elig, ks.drop_last()) + class_of(opt, elig, ks.last()).len()
    }
}

/// What one strategy pass produces: the fused replacements, and the
/// passthrough filters (the ineligible ones followed by the lone members of
/// singleton classes).
pub open spec fn spec_apply<T: Optimization>(opt: &T, s: Seq<FilterModel>) -> (Seq<FilterModel>,
    Seq<FilterModel>) {
    let elig = eligible_of(opt, s);
    let ks = keys_of(opt, elig);
    (fused_of(opt, elig, ks), ineligible_of(opt, s) + singles_of(opt, elig, ks))
}

/// Appending one filter leaves the key list unchanged when its key is known,
/// and appends the key otherwise.
pub proof fn lemma_keys_push<T: Optimization>(opt: &T, s: Seq<FilterModel>, x: FilterModel)
    ensures
        keys_of(opt, s.push(x)) == if keys_of(opt, s).contains(opt.spec_key(x)) {
            keys_of(opt, s)
        } else {
            keys_of(opt, s).push(opt.spec_key(x))
        },
{
    assert(s.push(x).drop_last() =~= s);
    assert(s.push(x).last() == x);
}

/// The key list never repeats a key.
pub proof fn lemma_keys_distinct<T: Optimization>(opt: &T, s: Seq<FilterModel>)
    ensures
        no_dup_keys(keys_of(opt, s)),
    decreases s.len(),
{
    if s.len() > 0 {
        lemma_keys_distinct(opt, s.drop_last());
        let prev = keys_of(opt, s.drop_last());
        let k = opt.spec_key(s.last());
        if !prev.contains(k) {
            assert forall|i: int, j: int|
                0 <= i < j < prev.push(k).len() implies prev.push(k)[i] != prev.push(k)[j] by {
                if j == prev.len() {
                    assert(prev[i] == prev.push(k)[i]);
                    assert(!prev.contains(k));
                }
            }
        }
    }
}

/// A key is listed exactly when its class is non-empty.
pub proof fn lemma_keys_iff<T: Optimization>(opt: &T, s: Seq<FilterModel>, k: u64)
    ensures
        keys_of(opt, s).contains(k) <==> class_of(opt, s, k).len() > 0,
    decreases s.len(),
{
    if s.len() > 0 {
        lemma_keys_iff(opt, s.drop_last(), k);
        assert(s.drop_last().push(s.last()) =~= s);
        lemma_where_push(s.drop_last(), s.last(), key_pred(opt, k));
        let prev = keys_of(opt, s.drop_last());
        let kl = opt.spec_key(s.last());
        if kl == k {
            if prev.contains(k) {
                assert(keys_of(opt, s) == prev);
            } else {
                assert(keys_of(opt, s) == prev.push(kl));
                assert(keys_of(opt, s)[prev.len() as int] == k);
            }
        } else {
            if prev.contains(kl) {
                assert(keys_of(opt, s) == prev);
            } else {
                assert(keys_of(opt, s) == prev.push(kl));
                if prev.contains(k) {
                    let w = choose|i: int| 0 <= i < prev.len() && prev[i] == k;
                    assert(keys_of(opt, s)[w] == k);
                }
                if keys_of(opt, s).contains(k) {
                    let w = choose|i: int|
                        0 <= i < keys_of(opt, s).len() && keys_of(opt, s)[i] == k;
                    assert(w < prev.len());
                    assert(prev[w] == k);
                }
            }
        }
    }
}

/// Appending one filter grows the total class size by one when its key is
/// listed, and not at all otherwise.
pub proof fn lemma_sum_classes_extend<T: Optimization>(
    opt: &T,
    elig: Seq<FilterModel>,
    x: FilterModel,
    ks: Seq<u64>,
)
    requires
        no_dup_keys(ks),
    ensures
        sum_classes(opt, elig.push(x), ks) == sum_classes(opt, elig, ks) + if ks.contains(
            opt.spec_key(x),
        ) {
            1int
        } else {
            0int
        },
    decreases ks.len(),
{
    if ks.len() > 0 {
        let kl = ks.last();
        let kx = opt.spec_key(x);
        assert(no_dup_keys(ks.drop_last())) by {
            assert forall|i: int, j: int|
                0 <= i < j < ks.drop_last().len() implies ks.drop_last()[i] != ks.drop_last()[j] by {
                assert(ks[i] == ks.drop_last()[i]);
                assert(ks[j] == ks.drop_last()[j]);
            }
        }
        lemma_sum_classes_extend(opt, elig, x, ks.drop_last());
        lemma_where_push(elig, x, key_pred(opt, kl));
        if kx == kl {
            assert(!ks.drop_last().contains(kx)) by {
                if ks.drop_last().contains(kx) {
                    let w = choose|i: int|
                        0 <= i < ks.drop_last().len() && ks.drop_last()[i] == kx;
                    assert(ks[w] == kx);
                    assert(ks[ks.len() - 1] == kl);
                }
            }
            assert(ks.contains(kx)) by {
                assert(ks[ks.len() - 1] == kx);
            }
        } else {
            assert(ks.contains(kx) <==> ks.drop_last().contains(kx)) by {
                if ks.contains(kx) {
                    let w = choose|i: int| 0 <= i < ks.len() && ks[i] == kx;
                    assert(w < ks.len() - 1);
                    assert(ks.drop_last()[w] == kx);
                }
                if ks.drop_last().contains(kx) {
                    let w = choose|i: int|
                        0 <= i < ks.drop_last().len() && ks.drop_last()[i] == kx;
                    assert(ks[w] == kx);
                }
            }
        }
    }
}

/// The classes listed by `keys_of` partition the eligible filters: their
/// sizes add up to the whole.
pub proof fn lemma_partition_classes<T: Optimization>(opt: &T, elig: Seq<FilterModel>)
    ensures
        sum_classes(opt, elig, keys_of(opt, elig)) == elig.len(),
    decreases elig.len(),
{
    if elig.len() > 0 {
        let e = elig.drop_last();
        let x = elig.last();
        let kx = opt.spec_key(x);
        lemma_partition_classes(opt, e);
        lemma_keys_distinct(opt, e);
        assert(e.push(x) =~= elig);
        lemma_keys_push(opt, e, x);
        if keys_of(opt, e).contains(kx) {
            lemma_sum_classes_extend(opt, e, x, keys_of(opt, e));
        } else {
            lemma_sum_classes_extend(opt, e, x, keys_of(opt, e));
            let ks = keys_of(opt, e).push(kx);
            assert(ks.drop_last() =~= keys_of(opt, e));
            lemma_keys_iff(opt, e, kx);
            lemma_where_push(e, x, key_pred(opt, kx));
            assert(class_of(opt, e, kx).len() == 0);
            assert(class_of(opt, elig, kx) == class_of(opt, e, kx).push(x));
        }
    }
}

/// Fusing produces at most one output per class member, and strictly fewer
/// outputs than members as soon as one class has two or more members.
pub proof fn lemma_outputs_le<T: Optimization>(opt: &T, elig: Seq<FilterModel>, ks: Seq<u64>)
    requires
        forall|i: int| 0 <= i < ks.len() ==> class_of(opt, elig, ks[i]).len() >= 1,
    ensures
        fused_of(opt, elig, ks).len() + singles_of(opt, elig, ks).len() <= sum_classes(
            opt,
            elig,
            ks,
        ),
        (exists|i: int| 0 <= i < ks.len() && class_of(opt, elig, ks[i]).len() >= 2)
            ==> fused_of(opt, elig, ks).len() + singles_of(opt, elig, ks).len() < sum_classes(
            opt,
            elig,
            ks,
        ),
    decreases ks.len(),
{
    if ks.len() > 0 {
        assert(forall|i: int|
            0 <= i < ks.drop_last().len() ==> ks.drop_last()[i] == ks[i]);
        lemma_outputs_le(opt, elig, ks.drop_last());
        let c = class_of(opt, elig, ks.last());
        assert(c.len() >= 1) by {
            assert(ks[ks.len() - 1] == ks.last());
        }
        if exists|i: int| 0 <= i < ks.len() && class_of(opt, elig, ks[i]).len() >= 2 {
            let w = choose|i: int| 0 <= i < ks.len() && class_of(opt, elig, ks[i]).len() >= 2;
            if w < ks.len() - 1 {
                assert(ks.drop_last()[w] == ks[w]);
                assert(exists|i: int|
                    0 <= i < ks.drop_last().len() && class_of(opt, elig, ks.drop_last()[i]).len()
                        >= 2);
            } else {
                assert(c.len() >= 2);
            }
        }
    }
}

} // verus!
