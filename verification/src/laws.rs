//! The properties the optimizer guarantees, stated and proved over the
//! mathematical description of the pass: count reduction, passthrough of
//! ineligible and lone filters, and preservation of the matched set.

use vstd::prelude::*;

use crate::filters::{
    mask_has, wf_filter, FilterModel, PartModel, MASK_IS_COMPLETE_REGEX, MASK_IS_REGEX,
};
use crate::optimizer::{
    flat_patterns, fused_mask, has_fusable_class, some_complete, some_empty, spec_fuse_model,
    spec_group_key, spec_optimize, spec_selected, strings_of, SimplePatternGroup,
};
use crate::sequences::{
    lemma_where_compose, lemma_where_mem, lemma_where_partition_len, lemma_where_pred,
    lemma_where_two, lemma_where_two_rev,
};
use crate::strategy::{
    class_of, eligible_of, fused_of, ineligible_of, key_pred, keys_of, lemma_keys_distinct,
    lemma_keys_iff, lemma_outputs_le, lemma_partition_classes, no_dup_keys, sel_key_pred,
    sel_pred, singles_of, sum_classes, unsel_pred, Optimization,
};

verus! {

/// A lone member of a singleton class stands in the singles list.
proof fn lemma_singles_mem<T: Optimization>(opt: &T, elig: Seq<FilterModel>, ks: Seq<u64>, ki: int)
    requires
        0 <= ki < ks.len(),
        class_of(opt, elig, ks[ki]).len() == 1,
    ensures
        singles_of(opt, elig, ks).contains(class_of(opt, elig, ks[ki])[0]),
    decreases ks.len(),
{
    let prev = singles_of(opt, elig, ks.drop_last());
    if ki == ks.len() - 1 {
        assert(ks.last() == ks[ki]);
        assert(singles_of(opt, elig, ks)[prev.len() as int] == class_of(opt, elig, ks[ki])[0]);
    } else {
        assert(ks.drop_last()[ki] == ks[ki]);
        lemma_singles_mem(opt, elig, ks.drop_last(), ki);
        let w = choose|w: int|
            0 <= w < prev.len() && prev[w] == class_of(opt, elig, ks.drop_last()[ki])[0];
        assert(singles_of(opt, elig, ks)[w] == class_of(opt, elig, ks[ki])[0]);
    }
}

/// Optimizing never grows the collection, and strictly shrinks it as soon as
/// one equivalence class of eligible filters has two or more members.
pub proof fn lemma_count_reduction(s: Seq<FilterModel>)
    ensures
        spec_optimize(s).len() <= s.len(),
        has_fusable_class(s) ==> spec_optimize(s).len() < s.len(),
{
    let opt = &(SimplePatternGroup {  });
    let elig = eligible_of(opt, s);
    let inelig = ineligible_of(opt, s);
    let ks = keys_of(opt, elig);
    assert(forall|f: FilterModel| #[trigger] unsel_pred(opt)(f) == !sel_pred(opt)(f));
    lemma_where_partition_len(s, sel_pred(opt), unsel_pred(opt));
    lemma_partition_classes(opt, elig);
    lemma_keys_distinct(opt, elig);
    assert forall|i: int| 0 <= i < ks.len() implies class_of(opt, elig, ks[i]).len() >= 1 by {
        lemma_keys_iff(opt, elig, ks[i]);
        assert(ks.contains(ks[i]));
    }
    lemma_outputs_le(opt, elig, ks);
    assert(spec_optimize(s).len() == fused_of(opt, elig, ks).len() + inelig.len() + singles_of(
        opt,
        elig,
        ks,
    ).len());
    if has_fusable_class(s) {
        let (i, j) = choose|i: int, j: int|
            0 <= i < j < s.len() && spec_selected(s[i]) && spec_selected(s[j]) && spec_group_key(
                s[i],
            ) == spec_group_key(s[j]);
        let k = spec_group_key(s[i]);
        assert(forall|a: FilterModel| #[trigger]
            sel_key_pred(opt, k)(a) == (sel_pred(opt)(a) && key_pred(opt, k)(a)));
        lemma_where_two(s, sel_key_pred(opt, k), i, j);
        lemma_where_compose(s, sel_pred(opt), key_pred(opt, k), sel_key_pred(opt, k));
        assert(class_of(opt, elig, k).len() >= 2);
        lemma_keys_iff(opt, elig, k);
        let ki = choose|ki: int| 0 <= ki < ks.len() && ks[ki] == k;
        assert(exists|ki: int| 0 <= ki < ks.len() && class_of(opt, elig, ks[ki]).len() >= 2);
    }
}

/// Any filter with domain restrictions, fuzziness, hostname anchoring,
/// redirect or CSP semantics, or a bug tag is present unchanged, by value, in
/// the optimizer's output.
pub proof fn lemma_ineligible_passthrough(s: Seq<FilterModel>, i: int)
    requires
        0 <= i < s.len(),
        !spec_selected(s[i]),
    ensures
        spec_optimize(s).contains(s[i]),
{
    let opt = &(SimplePatternGroup {  });
    let elig = eligible_of(opt, s);
    let inelig = ineligible_of(opt, s);
    let ks = keys_of(opt, elig);
    assert(unsel_pred(opt)(s[i]));
    lemma_where_mem(s, unsel_pred(opt), i);
    let w = choose|w: int| 0 <= w < inelig.len() && inelig[w] == s[i];
    assert(spec_optimize(s)[fused_of(opt, elig, ks).len() + w] == s[i]);
}

/// A filter whose equivalence class has exactly one eligible member appears
/// unchanged in the output: a lone filter is never fused.
pub proof fn lemma_singleton_passthrough(s: Seq<FilterModel>, i: int)
    requires
        0 <= i < s.len(),
        spec_selected(s[i]),
        class_of(
            &(SimplePatternGroup {  }),
            eligible_of(&(SimplePatternGroup {  }), s),
            spec_group_key(s[i]),
        ).len() == 1,
    ensures
        spec_optimize(s).contains(s[i]),
{
    let opt = &(SimplePatternGroup {  });
    let elig = eligible_of(opt, s);
    let inelig = ineligible_of(opt, s);
    let ks = keys_of(opt, elig);
    let k = spec_group_key(s[i]);
    assert(sel_pred(opt)(s[i]));
    lemma_where_mem(s, sel_pred(opt), i);
    let e = choose|e: int| 0 <= e < elig.len() && elig[e] == s[i];
    assert(key_pred(opt, k)(elig[e]));
    lemma_where_mem(elig, key_pred(opt, k), e);
    let c = class_of(opt, elig, k);
    let cw = choose|cw: int| 0 <= cw < c.len() && c[cw] == s[i];
    assert(c[0] == s[i]);
    lemma_keys_iff(opt, elig, k);
    assert(c.len() > 0);
    let ki = choose|ki: int| 0 <= ki < ks.len() && ks[ki] == k;
    lemma_singles_mem(opt, elig, ks, ki);
    let singles = singles_of(opt, elig, ks);
    let w = choose|w: int| 0 <= w < singles.len() && singles[w] == c[0];
    assert(spec_optimize(s)[fused_of(opt, elig, ks).len() + inelig.len() + w] == s[i]);
}

/// The non-pattern context a filter matches against: its flags with the
/// regex-style bit cleared (that bit selects the evaluation engine, not the
/// matched set), and its domain restrictions and bug tag.
pub struct MatchContext {
    pub mask: u32,
    pub opt_domains: Option<Seq<u64>>,
    pub opt_not_domains: Option<Seq<u64>>,
    pub bug: Option<u32>,
}

/// The non-pattern context of a filter.
pub open spec fn ctx_of(f: FilterModel) -> MatchContext {
    MatchContext {
        mask: f.mask & !MASK_IS_REGEX,
        opt_domains: f.opt_domains,
        opt_not_domains: f.opt_not_domains,
        bug: f.bug,
    }
}

/// Whether some string of the list matches, under an arbitrary single-string
/// matcher `pm` standing for the pattern engine evaluated on one fixed
/// request.
pub open spec fn any_string_matches(pm: spec_fn(Seq<char>) -> bool, ss: Seq<Seq<char>>) -> bool {
    exists|i: int| 0 <= i < ss.len() && pm(#[trigger] ss[i])
}

/// Whether a pattern matches a request: the absent pattern matches anything,
/// and a multi-pattern matches iff some alternative does.
pub open spec fn part_matches(pm: spec_fn(Seq<char>) -> bool, p: PartModel) -> bool {
    match p {
        PartModel::Empty => true,
        PartModel::Simple(s) => pm(s),
        PartModel::AnyOf(ss) => any_string_matches(pm, ss),
    }
}

/// Whether a filter matches a request, the request being represented by an
/// arbitrary context predicate `ctx` and single-string matcher `pm`.
pub open spec fn spec_matches(
    ctx: spec_fn(MatchContext) -> bool,
    pm: spec_fn(Seq<char>) -> bool,
    f: FilterModel,
) -> bool {
    ctx(ctx_of(f)) && part_matches(pm, f.part)
}

/// Whether some filter of the collection matches the request.
pub open spec fn any_match(
    ctx: spec_fn(MatchContext) -> bool,
    pm: spec_fn(Seq<char>) -> bool,
    s: Seq<FilterModel>,
) -> bool {
    exists|i: int| 0 <= i < s.len() && spec_matches(ctx, pm, s[i])
}

/// Equal grouping keys force equal flag bitsets.
proof fn lemma_key_same_mask(f1: FilterModel, f2: FilterModel)
    requires
        spec_group_key(f1) == spec_group_key(f2),
    ensures
        f1.mask == f2.mask,
{
    let c1: int = if mask_has(f1.mask, MASK_IS_COMPLETE_REGEX) {
        1
    } else {
        0
    };
    let c2: int = if mask_has(f2.mask, MASK_IS_COMPLETE_REGEX) {
        1
    } else {
        0
    };
    assert((f1.mask as int) * 2 + c1 == (f2.mask as int) * 2 + c2);
}

/// In a group of uniform masks, some member is a complete regex exactly when
/// the shared mask says so.
proof fn lemma_some_complete_uniform(g: Seq<FilterModel>, m0: u32)
    requires
        g.len() >= 1,
        forall|i: int| 0 <= i < g.len() ==> #[trigger] g[i].mask == m0,
    ensures
        some_complete(g) == mask_has(m0, MASK_IS_COMPLETE_REGEX),
    decreases g.len(),
{
    if g.len() == 1 {
        assert(g.drop_last().len() == 0);
        assert(!some_complete(g.drop_last()));
        assert(g.last() == g[0]);
        assert(g[0].mask == m0);
    } else {
        assert forall|i: int|
            0 <= i < g.drop_last().len() implies #[trigger] g.drop_last()[i].mask == m0 by {
            assert(g.drop_last()[i] == g[i]);
        }
        lemma_some_complete_uniform(g.drop_last(), m0);
        assert(g.last() == g[g.len() - 1]);
        assert(g.last().mask == m0);
    }
}

/// Some member has the absent pattern exactly when a position with it exists.
proof fn lemma_some_empty_exists(g: Seq<FilterModel>)
    ensures
        some_empty(g) == exists|i: int| 0 <= i < g.len() && (#[trigger] g[i].part) is Empty,
    decreases g.len(),
{
    if g.len() > 0 {
        lemma_some_empty_exists(g.drop_last());
        if some_empty(g.drop_last()) {
            let w = choose|i: int|
                0 <= i < g.drop_last().len() && (#[trigger] g.drop_last()[i].part) is Empty;
            assert(g[w].part is Empty);
        }
        if g.last().part is Empty {
            assert(g[g.len() - 1].part is Empty);
        }
        if (exists|i: int| 0 <= i < g.len() && (#[trigger] g[i].part) is Empty) && !(g.last().part
            is Empty) {
            let w = choose|i: int| 0 <= i < g.len() && (#[trigger] g[i].part) is Empty;
            assert(w < g.len() - 1);
            assert(g.drop_last()[w].part is Empty);
        }
    }
}

/// A non-empty group without the absent pattern contributes at least one
/// string to the flattened union.
proof fn lemma_flat_len(g: Seq<FilterModel>)
    requires
        g.len() >= 1,
        forall|i: int| 0 <= i < g.len() ==> wf_filter(#[trigger] g[i]),
        forall|i: int| 0 <= i < g.len() ==> !((#[trigger] g[i].part) is Empty),
    ensures
        flat_patterns(g).len() >= 1,
    decreases g.len(),
{
    if g.len() == 1 {
        assert(wf_filter(g[0]));
        assert(!(g[0].part is Empty));
    } else {
        assert(forall|i: int| 0 <= i < g.drop_last().len() ==> #[trigger] g.drop_last()[i] == g[i]);
        lemma_flat_len(g.drop_last());
    }
}

/// Some string of a concatenation matches exactly when one of either half
/// has a matching string.
proof fn lemma_any_string_concat(
    pm: spec_fn(Seq<char>) -> bool,
    a: Seq<Seq<char>>,
    b: Seq<Seq<char>>,
)
    ensures
        any_string_matches(pm, a + b) == (any_string_matches(pm, a) || any_string_matches(pm, b)),
{
    if any_string_matches(pm, a + b) {
        let j = choose|j: int| 0 <= j < (a + b).len() && pm(#[trigger] (a + b)[j]);
        if j < a.len() {
            assert((a + b)[j] == a[j]);
            assert(pm(a[j]));
        } else {
            assert((a + b)[j] == b[j - a.len()]);
            assert(pm(b[j - a.len()]));
        }
    }
    if any_string_matches(pm, a) {
        let j = choose|j: int| 0 <= j < a.len() && pm(#[trigger] a[j]);
        assert((a + b)[j] == a[j]);
        assert(pm((a + b)[j]));
    }
    if any_string_matches(pm, b) {
        let j = choose|j: int| 0 <= j < b.len() && pm(#[trigger] b[j]);
        assert((a + b)[a.len() + j] == b[j]);
        assert(pm((a + b)[a.len() + j]));
    }
}

/// For a group without the absent pattern, some flattened string matches
/// exactly when some member's pattern matches.
proof fn lemma_flat_matches(pm: spec_fn(Seq<char>) -> bool, g: Seq<FilterModel>)
    requires
        forall|i: int| 0 <= i < g.len() ==> !((#[trigger] g[i].part) is Empty),
    ensures
        any_string_matches(pm, flat_patterns(g)) == (exists|i: int|
            0 <= i < g.len() && part_matches(pm, #[trigger] g[i].part)),
    decreases g.len(),
{
    if g.len() == 0 {
        if any_string_matches(pm, flat_patterns(g)) {
            let j = choose|j: int|
                0 <= j < flat_patterns(g).len() && pm(#[trigger] flat_patterns(g)[j]);
        }
    } else {
        assert(forall|i: int| 0 <= i < g.drop_last().len() ==> #[trigger] g.drop_last()[i] == g[i]);
        lemma_flat_matches(pm, g.drop_last());
        let a = flat_patterns(g.drop_last());
        let b = strings_of(g.last().part);
        assert(flat_patterns(g) == a + b);
        lemma_any_string_concat(pm, a, b);
        assert(g.last() == g[g.len() - 1]);
        assert(part_matches(pm, g.last().part) == any_string_matches(pm, b)) by {
            match g.last().part {
                PartModel::Empty => {
                    assert(!(g[g.len() - 1].part is Empty));
                },
                PartModel::Simple(s) => {
                    assert(b == seq![s]);
                    if pm(s) {
                        assert(b[0] == s);
                        assert(pm(b[0]));
                    }
                    if any_string_matches(pm, b) {
                        let j = choose|j: int| 0 <= j < b.len() && pm(#[trigger] b[j]);
                        assert(j == 0);
                        assert(b[0] == s);
                    }
                },
                PartModel::AnyOf(ss) => {
                    assert(b == ss);
                },
            }
        }
        if any_string_matches(pm, flat_patterns(g)) {
            if any_string_matches(pm, a) {
                let w = choose|i: int|
                    0 <= i < g.drop_last().len() && part_matches(
                        pm,
                        #[trigger] g.drop_last()[i].part,
                    );
                assert(part_matches(pm, g[w].part));
            } else {
                assert(part_matches(pm, g[g.len() - 1].part));
            }
        }
        if exists|i: int| 0 <= i < g.len() && part_matches(pm, #[trigger] g[i].part) {
            let i = choose|i: int| 0 <= i < g.len() && part_matches(pm, #[trigger] g[i].part);
            if i < g.len() - 1 {
                assert(part_matches(pm, g.drop_last()[i].part));
                assert(any_string_matches(pm, a));
            } else {
                assert(any_string_matches(pm, b));
            }
        }
    }
}

/// Soundness of the merge: for every request, the fused filter matches
/// exactly when some member of the group matches. The request is arbitrary,
/// represented by its context predicate and single-string matcher.
pub proof fn lemma_fusion_sound(
    ctx: spec_fn(MatchContext) -> bool,
    pm: spec_fn(Seq<char>) -> bool,
    g: Seq<FilterModel>,
)
    requires
        g.len() >= 1,
        forall|i: int| 0 <= i < g.len() ==> wf_filter(#[trigger] g[i]),
        forall|i: int| 0 <= i < g.len() ==> spec_selected(#[trigger] g[i]),
        forall|i: int|
            0 <= i < g.len() ==> spec_group_key(#[trigger] g[i]) == spec_group_key(g[0]),
    ensures
        spec_matches(ctx, pm, spec_fuse_model(g)) == exists|i: int|
            0 <= i < g.len() && spec_matches(ctx, pm, #[trigger] g[i]),
{
    let fm = spec_fuse_model(g);
    let m0 = g[0].mask;
    assert forall|i: int| 0 <= i < g.len() implies #[trigger] g[i].mask == m0 by {
        lemma_key_same_mask(g[i], g[0]);
    }
    lemma_some_complete_uniform(g, m0);
    let c0 = mask_has(m0, MASK_IS_COMPLETE_REGEX);
    assert(fused_mask(g) == m0 | MASK_IS_REGEX) by {
        let m = m0;
        let c = c0;
        assert((if c {
            (m | 0x1u32) | 0x2u32
        } else {
            (m | 0x1u32) & !0x2u32
        }) == m | 0x1u32) by (bit_vector)
            requires
                c == (m & 0x2u32 == 0x2u32),
        ;
    }
    assert((m0 | 0x1u32) & !0x1u32 == m0 & !0x1u32) by (bit_vector);
    assert(ctx_of(fm) == ctx_of(g[0]));
    assert forall|i: int| 0 <= i < g.len() implies ctx_of(#[trigger] g[i]) == ctx_of(g[0]) by {
        assert(spec_selected(g[i]));
        assert(spec_selected(g[0]));
    }
    if some_empty(g) {
        lemma_some_empty_exists(g);
        let w = choose|i: int| 0 <= i < g.len() && (#[trigger] g[i].part) is Empty;
        assert(fm.part is Empty);
        if ctx(ctx_of(g[0])) {
            assert(spec_matches(ctx, pm, g[w]));
            assert(spec_matches(ctx, pm, fm));
        } else {
            assert(!spec_matches(ctx, pm, fm));
            assert(forall|i: int| 0 <= i < g.len() ==> !spec_matches(ctx, pm, #[trigger] g[i]));
        }
    } else {
        lemma_some_empty_exists(g);
        assert(forall|i: int| 0 <= i < g.len() ==> !((#[trigger] g[i].part) is Empty));
        lemma_flat_len(g);
        let fp = flat_patterns(g);
        lemma_flat_matches(pm, g);
        assert(part_matches(pm, fm.part) == any_string_matches(pm, fp)) by {
            if fp.len() == 1 {
                assert(fm.part == PartModel::Simple(fp[0]));
                if pm(fp[0]) {
                    assert(any_string_matches(pm, fp));
                }
                if any_string_matches(pm, fp) {
                    let j = choose|j: int| 0 <= j < fp.len() && pm(#[trigger] fp[j]);
                    assert(j == 0);
                }
            } else {
                assert(fm.part == PartModel::AnyOf(fp));
            }
        }
        if spec_matches(ctx, pm, fm) {
            let w = choose|i: int| 0 <= i < g.len() && part_matches(pm, #[trigger] g[i].part);
            assert(spec_matches(ctx, pm, g[w]));
        }
        if exists|i: int| 0 <= i < g.len() && spec_matches(ctx, pm, #[trigger] g[i]) {
            let w = choose|i: int| 0 <= i < g.len() && spec_matches(ctx, pm, #[trigger] g[i]);
            assert(ctx(ctx_of(fm)));
            assert(part_matches(pm, g[w].part));
            assert(exists|i: int| 0 <= i < g.len() && part_matches(pm, #[trigger] g[i].part));
            assert(spec_matches(ctx, pm, fm));
        }
    }
}

/// Some filter of a concatenation matches exactly when one of either half
/// matches.
proof fn lemma_any_concat(
    ctx: spec_fn(MatchContext) -> bool,
    pm: spec_fn(Seq<char>) -> bool,
    a: Seq<FilterModel>,
    b: Seq<FilterModel>,
)
    ensures
        any_match(ctx, pm, a + b) == (any_match(ctx, pm, a) || any_match(ctx, pm, b)),
{
    if any_match(ctx, pm, a + b) {
        let w = choose|w: int| 0 <= w < (a + b).len() && spec_matches(ctx, pm, (a + b)[w]);
        if w < a.len() {
            assert((a + b)[w] == a[w]);
        } else {
            assert((a + b)[w] == b[w - a.len()]);
        }
    }
    if any_match(ctx, pm, a) {
        let w = choose|w: int| 0 <= w < a.len() && spec_matches(ctx, pm, a[w]);
        assert((a + b)[w] == a[w]);
        assert(spec_matches(ctx, pm, (a + b)[w]));
    }
    if any_match(ctx, pm, b) {
        let w = choose|w: int| 0 <= w < b.len() && spec_matches(ctx, pm, b[w]);
        assert((a + b)[a.len() + w] == b[w]);
        assert(spec_matches(ctx, pm, (a + b)[a.len() + w]));
    }
}

/// Appending one filter to a collection adds exactly its own matches.
proof fn lemma_any_push(
    ctx: spec_fn(MatchContext) -> bool,
    pm: spec_fn(Seq<char>) -> bool,
    a: Seq<FilterModel>,
    x: FilterModel,
)
    ensures
        any_match(ctx, pm, a.push(x)) == (any_match(ctx, pm, a) || spec_matches(ctx, pm, x)),
{
    if any_match(ctx, pm, a.push(x)) {
        let w = choose|w: int| 0 <= w < a.push(x).len() && spec_matches(ctx, pm, a.push(x)[w]);
        if w < a.len() {
            assert(a.push(x)[w] == a[w]);
            assert(spec_matches(ctx, pm, a[w]));
        } else {
            assert(a.push(x)[w] == x);
        }
    }
    if any_match(ctx, pm, a) {
        let w = choose|w: int| 0 <= w < a.len() && spec_matches(ctx, pm, a[w]);
        assert(a.push(x)[w] == a[w]);
        assert(spec_matches(ctx, pm, a.push(x)[w]));
    }
    assert(a.push(x)[a.len() as int] == x);
}

/// Some fused replacement matches exactly when some class of two or more
/// members has a matching member.
proof fn lemma_fused_any(
    ctx: spec_fn(MatchContext) -> bool,
    pm: spec_fn(Seq<char>) -> bool,
    opt: &SimplePatternGroup,
    elig: Seq<FilterModel>,
    ks: Seq<u64>,
)
    requires
        forall|i: int| 0 <= i < elig.len() ==> wf_filter(#[trigger] elig[i]),
        forall|i: int| 0 <= i < elig.len() ==> spec_selected(#[trigger] elig[i]),
    ensures
        any_match(ctx, pm, fused_of(opt, elig, ks)) == exists|ki: int|
            0 <= ki < ks.len() && class_of(opt, elig, #[trigger] ks[ki]).len() >= 2 && any_match(
                ctx,
                pm,
                class_of(opt, elig, ks[ki]),
            ),
    decreases ks.len(),
{
    if ks.len() > 0 {
        assert(forall|i: int| 0 <= i < ks.drop_last().len() ==> #[trigger] ks.drop_last()[i] == ks[i]);
        lemma_fused_any(ctx, pm, opt, elig, ks.drop_last());
        let prev = fused_of(opt, elig, ks.drop_last());
        let c = class_of(opt, elig, ks.last());
        assert(ks[ks.len() - 1] == ks.last());
        if c.len() >= 2 {
            assert forall|i: int|
                0 <= i < c.len() implies wf_filter(#[trigger] c[i]) && spec_selected(c[i])
                && spec_group_key(c[i]) == spec_group_key(c[0]) by {
                lemma_where_pred(elig, key_pred(opt, ks.last()), i);
                lemma_where_pred(elig, key_pred(opt, ks.last()), 0);
                let w = choose|w: int| 0 <= w < elig.len() && elig[w] == c[i];
            }
            lemma_fusion_sound(ctx, pm, c);
            assert(spec_matches(ctx, pm, opt.spec_fuse(c)) == any_match(ctx, pm, c));
            lemma_any_push(ctx, pm, prev, opt.spec_fuse(c));
            if exists|ki: int|
                0 <= ki < ks.len() && class_of(opt, elig, #[trigger] ks[ki]).len() >= 2
                    && any_match(ctx, pm, class_of(opt, elig, ks[ki])) {
                let ki = choose|ki: int|
                    0 <= ki < ks.len() && class_of(opt, elig, #[trigger] ks[ki]).len() >= 2
                        && any_match(ctx, pm, class_of(opt, elig, ks[ki]));
                if ki < ks.len() - 1 {
                    assert(ks.drop_last()[ki] == ks[ki]);
                    assert(any_match(ctx, pm, prev));
                }
            }
            if any_match(ctx, pm, prev) {
                let ki = choose|ki: int|
                    0 <= ki < ks.drop_last().len() && class_of(
                        opt,
                        elig,
                        #[trigger] ks.drop_last()[ki],
                    ).len() >= 2 && any_match(ctx, pm, class_of(opt, elig, ks.drop_last()[ki]));
                assert(ks[ki] == ks.drop_last()[ki]);
            }
        } else {
            assert(fused_of(opt, elig, ks) == prev);
            if exists|ki: int|
                0 <= ki < ks.len() && class_of(opt, elig, #[trigger] ks[ki]).len() >= 2
                    && any_match(ctx, pm, class_of(opt, elig, ks[ki])) {
                let ki = choose|ki: int|
                    0 <= ki < ks.len() && class_of(opt, elig, #[trigger] ks[ki]).len() >= 2
                        && any_match(ctx, pm, class_of(opt, elig, ks[ki]));
                assert(ki < ks.len() - 1);
                assert(ks.drop_last()[ki] == ks[ki]);
            }
            if any_match(ctx, pm, prev) {
                let ki = choose|ki: int|
                    0 <= ki < ks.drop_last().len() && class_of(
                        opt,
                        elig,
                        #[trigger] ks.drop_last()[ki],
                    ).len() >= 2 && any_match(ctx, pm, class_of(opt, elig, ks.drop_last()[ki]));
                assert(ks[ki] == ks.drop_last()[ki]);
            }
        }
    }
}

/// Some lone passthrough matches exactly when some singleton class has a
/// matching member.
proof fn lemma_singles_any(
    ctx: spec_fn(MatchContext) -> bool,
    pm: spec_fn(Seq<char>) -> bool,
    opt: &SimplePatternGroup,
    elig: Seq<FilterModel>,
    ks: Seq<u64>,
)
    ensures
        any_match(ctx, pm, singles_of(opt, elig, ks)) == exists|ki: int|
            0 <= ki < ks.len() && class_of(opt, elig, #[trigger] ks[ki]).len() == 1 && any_match(
                ctx,
                pm,
                class_of(opt, elig, ks[ki]),
            ),
    decreases ks.len(),
{
    if ks.len() > 0 {
        assert(forall|i: int| 0 <= i < ks.drop_last().len() ==> #[trigger] ks.drop_last()[i] == ks[i]);
        lemma_singles_any(ctx, pm, opt, elig, ks.drop_last());
        let prev = singles_of(opt, elig, ks.drop_last());
        let c = class_of(opt, elig, ks.last());
        assert(ks[ks.len() - 1] == ks.last());
        if c.len() == 1 {
            lemma_any_push(ctx, pm, prev, c[0]);
            assert(any_match(ctx, pm, c) == spec_matches(ctx, pm, c[0])) by {
                if any_match(ctx, pm, c) {
                    let w = choose|w: int| 0 <= w < c.len() && spec_matches(ctx, pm, c[w]);
                    assert(w == 0);
                }
            }
            if exists|ki: int|
                0 <= ki < ks.len() && class_of(opt, elig, #[trigger] ks[ki]).len() == 1
                    && any_match(ctx, pm, class_of(opt, elig, ks[ki])) {
                let ki = choose|ki: int|
                    0 <= ki < ks.len() && class_of(opt, elig, #[trigger] ks[ki]).len() == 1
                        && any_match(ctx, pm, class_of(opt, elig, ks[ki]));
                if ki < ks.len() - 1 {
                    assert(ks.drop_last()[ki] == ks[ki]);
                    assert(any_match(ctx, pm, prev));
                }
            }
            if any_match(ctx, pm, prev) {
                let ki = choose|ki: int|
                    0 <= ki < ks.drop_last().len() && class_of(
                        opt,
                        elig,
                        #[trigger] ks.drop_last()[ki],
                    ).len() == 1 && any_match(ctx, pm, class_of(opt, elig, ks.drop_last()[ki]));
                assert(ks[ki] == ks.drop_last()[ki]);
            }
        } else {
            assert(singles_of(opt, elig, ks) == prev);
            if exists|ki: int|
                0 <= ki < ks.len() && class_of(opt, elig, #[trigger] ks[ki]).len() == 1
                    && any_match(ctx, pm, class_of(opt, elig, ks[ki])) {
                let ki = choose|ki: int|
                    0 <= ki < ks.len() && class_of(opt, elig, #[trigger] ks[ki]).len() == 1
                        && any_match(ctx, pm, class_of(opt, elig, ks[ki]));
                assert(ki < ks.len() - 1);
                assert(ks.drop_last()[ki] == ks[ki]);
            }
            if any_match(ctx, pm, prev) {
                let ki = choose|ki: int|
                    0 <= ki < ks.drop_last().len() && class_of(
                        opt,
                        elig,
                        #[trigger] ks.drop_last()[ki],
                    ).len() == 1 && any_match(ctx, pm, class_of(opt, elig, ks.drop_last()[ki]));
                assert(ks[ki] == ks.drop_last()[ki]);
            }
        }
    }
}

/// Soundness of the whole pass: for every request, some filter of the output
/// matches exactly when some filter of the input does — the matched set is
/// preserved. The request is arbitrary, represented by its context predicate
/// `ctx` and its single-string pattern matcher `pm`.
pub proof fn lemma_optimize_sound(
    ctx: spec_fn(MatchContext) -> bool,
    pm: spec_fn(Seq<char>) -> bool,
    s: Seq<FilterModel>,
)
    requires
        forall|i: int| 0 <= i < s.len() ==> wf_filter(#[trigger] s[i]),
    ensures
        any_match(ctx, pm, spec_optimize(s)) == any_match(ctx, pm, s),
{
    let opt = &(SimplePatternGroup {  });
    let elig = eligible_of(opt, s);
    let inelig = ineligible_of(opt, s);
    let ks = keys_of(opt, elig);
    assert forall|i: int|
        0 <= i < elig.len() implies wf_filter(#[trigger] elig[i]) && spec_selected(elig[i]) by {
        lemma_where_pred(s, sel_pred(opt), i);
        let w = choose|w: int| 0 <= w < s.len() && s[w] == elig[i];
    }
    lemma_fused_any(ctx, pm, opt, elig, ks);
    lemma_singles_any(ctx, pm, opt, elig, ks);
    lemma_any_concat(ctx, pm, fused_of(opt, elig, ks), inelig + singles_of(opt, elig, ks));
    lemma_any_concat(ctx, pm, inelig, singles_of(opt, elig, ks));
    assert(any_match(ctx, pm, s) == (any_match(ctx, pm, elig) || any_match(ctx, pm, inelig))) by {
        if any_match(ctx, pm, s) {
            let i = choose|i: int| 0 <= i < s.len() && spec_matches(ctx, pm, s[i]);
            if sel_pred(opt)(s[i]) {
                lemma_where_mem(s, sel_pred(opt), i);
                let w = choose|w: int| 0 <= w < elig.len() && elig[w] == s[i];
                assert(spec_matches(ctx, pm, elig[w]));
            } else {
                assert(unsel_pred(opt)(s[i]));
                lemma_where_mem(s, unsel_pred(opt), i);
                let w = choose|w: int| 0 <= w < inelig.len() && inelig[w] == s[i];
                assert(spec_matches(ctx, pm, inelig[w]));
            }
        }
        if any_match(ctx, pm, elig) {
            let w = choose|w: int| 0 <= w < elig.len() && spec_matches(ctx, pm, elig[w]);
            lemma_where_pred(s, sel_pred(opt), w);
            let i = choose|i: int| 0 <= i < s.len() && s[i] == elig[w];
            assert(spec_matches(ctx, pm, s[i]));
        }
        if any_match(ctx, pm, inelig) {
            let w = choose|w: int| 0 <= w < inelig.len() && spec_matches(ctx, pm, inelig[w]);
            lemma_where_pred(s, unsel_pred(opt), w);
            let i = choose|i: int| 0 <= i < s.len() && s[i] == inelig[w];
            assert(spec_matches(ctx, pm, s[i]));
        }
    }
    assert(any_match(ctx, pm, elig) == exists|ki: int|
        0 <= ki < ks.len() && any_match(ctx, pm, class_of(opt, elig, #[trigger] ks[ki]))) by {
        if any_match(ctx, pm, elig) {
            let e = choose|e: int| 0 <= e < elig.len() && spec_matches(ctx, pm, elig[e]);
            let k = opt.spec_key(elig[e]);
            assert(key_pred(opt, k)(elig[e]));
            lemma_where_mem(elig, key_pred(opt, k), e);
            let cw = choose|cw: int|
                0 <= cw < class_of(opt, elig, k).len() && class_of(opt, elig, k)[cw] == elig[e];
            lemma_keys_iff(opt, elig, k);
            let ki = choose|ki: int| 0 <= ki < ks.len() && ks[ki] == k;
            assert(spec_matches(ctx, pm, class_of(opt, elig, ks[ki])[cw]));
            assert(any_match(ctx, pm, class_of(opt, elig, ks[ki])));
        }
        if exists|ki: int|
            0 <= ki < ks.len() && any_match(ctx, pm, class_of(opt, elig, #[trigger] ks[ki])) {
            let ki = choose|ki: int|
                0 <= ki < ks.len() && any_match(ctx, pm, class_of(opt, elig, #[trigger] ks[ki]));
            let c = class_of(opt, elig, ks[ki]);
            let cw = choose|cw: int| 0 <= cw < c.len() && spec_matches(ctx, pm, c[cw]);
            lemma_where_pred(elig, key_pred(opt, ks[ki]), cw);
            let e = choose|e: int| 0 <= e < elig.len() && elig[e] == c[cw];
            assert(spec_matches(ctx, pm, elig[e]));
        }
    }
    assert forall|ki: int| 0 <= ki < ks.len() implies class_of(
        opt,
        elig,
        #[trigger] ks[ki],
    ).len() >= 1 by {
        lemma_keys_iff(opt, elig, ks[ki]);
        assert(ks.contains(ks[ki]));
    }
    if exists|ki: int|
        0 <= ki < ks.len() && any_match(ctx, pm, class_of(opt, elig, #[trigger] ks[ki])) {
        let ki = choose|ki: int|
            0 <= ki < ks.len() && any_match(ctx, pm, class_of(opt, elig, #[trigger] ks[ki]));
        if class_of(opt, elig, ks[ki]).len() >= 2 {
            assert(any_match(ctx, pm, fused_of(opt, elig, ks)));
        } else {
            assert(class_of(opt, elig, ks[ki]).len() == 1);
            assert(any_match(ctx, pm, singles_of(opt, elig, ks)));
        }
    }
}

/// Fusing a class whose members are already regex-marked preserves both the
/// class key and eligibility: the flag normalisation changes nothing.
proof fn lemma_fused_key(c: Seq<FilterModel>, k: u64)
    requires
        c.len() >= 1,
        forall|i: int| 0 <= i < c.len() ==> spec_selected(#[trigger] c[i]),
        forall|i: int| 0 <= i < c.len() ==> spec_group_key(#[trigger] c[i]) == k,
        forall|i: int| 0 <= i < c.len() ==> mask_has(#[trigger] c[i].mask, MASK_IS_REGEX),
    ensures
        spec_group_key(spec_fuse_model(c)) == k,
        spec_selected(spec_fuse_model(c)),
{
    let m0 = c[0].mask;
    assert forall|i: int| 0 <= i < c.len() implies #[trigger] c[i].mask == m0 by {
        lemma_key_same_mask(c[i], c[0]);
    }
    lemma_some_complete_uniform(c, m0);
    let c0 = mask_has(m0, MASK_IS_COMPLETE_REGEX);
    assert(fused_mask(c) == m0 | MASK_IS_REGEX) by {
        let m = m0;
        let cc = c0;
        assert((if cc {
            (m | 0x1u32) | 0x2u32
        } else {
            (m | 0x1u32) & !0x2u32
        }) == m | 0x1u32) by (bit_vector)
            requires
                cc == (m & 0x2u32 == 0x2u32),
        ;
    }
    let m = m0;
    assert(m | 0x1u32 == m) by (bit_vector)
        requires
            m & 0x1u32 == 0x1u32,
    ;
    assert(fused_mask(c) == m0);
}

/// All classes being singletons, fusing produces nothing and every class
/// member passes through: one output per key.
proof fn lemma_all_singletons<T: Optimization>(opt: &T, elig: Seq<FilterModel>, ks: Seq<u64>)
    requires
        forall|ki: int| 0 <= ki < ks.len() ==> class_of(opt, elig, #[trigger] ks[ki]).len() == 1,
    ensures
        fused_of(opt, elig, ks).len() == 0,
        singles_of(opt, elig, ks).len() == ks.len(),
        sum_classes(opt, elig, ks) == ks.len(),
    decreases ks.len(),
{
    if ks.len() > 0 {
        assert(forall|i: int| 0 <= i < ks.drop_last().len() ==> #[trigger] ks.drop_last()[i] == ks[i]);
        lemma_all_singletons(opt, elig, ks.drop_last());
        assert(ks[ks.len() - 1] == ks.last());
    }
}

/// Without a fusable class, the pass changes nothing in count.
proof fn lemma_no_fusable_len(s: Seq<FilterModel>)
    requires
        !has_fusable_class(s),
    ensures
        spec_optimize(s).len() == s.len(),
{
    let opt = &(SimplePatternGroup {  });
    let elig = eligible_of(opt, s);
    let inelig = ineligible_of(opt, s);
    let ks = keys_of(opt, elig);
    assert forall|ki: int| 0 <= ki < ks.len() implies class_of(
        opt,
        elig,
        #[trigger] ks[ki],
    ).len() == 1 by {
        lemma_keys_iff(opt, elig, ks[ki]);
        assert(ks.contains(ks[ki]));
        let k = ks[ki];
        if class_of(opt, elig, k).len() >= 2 {
            assert(forall|a: FilterModel| #[trigger]
                sel_key_pred(opt, k)(a) == (sel_pred(opt)(a) && key_pred(opt, k)(a)));
            lemma_where_compose(s, sel_pred(opt), key_pred(opt, k), sel_key_pred(opt, k));
            lemma_where_two_rev(s, sel_key_pred(opt, k));
            let (i, j) = choose|i: int, j: int|
                0 <= i < j < s.len() && sel_key_pred(opt, k)(#[trigger] s[i]) && sel_key_pred(
                    opt,
                    k,
                )(#[trigger] s[j]);
            assert(spec_selected(s[i]) && spec_selected(s[j]) && spec_group_key(s[i])
                == spec_group_key(s[j]));
            assert(has_fusable_class(s));
        }
    }
    lemma_all_singletons(opt, elig, ks);
    lemma_partition_classes(opt, elig);
    assert(forall|f: FilterModel| #[trigger] unsel_pred(opt)(f) == !sel_pred(opt)(f));
    lemma_where_partition_len(s, sel_pred(opt), unsel_pred(opt));
    assert(spec_optimize(s).len() == fused_of(opt, elig, ks).len() + inelig.len() + singles_of(
        opt,
        elig,
        ks,
    ).len());
}

/// Each fused output and each lone passthrough keeps the key of the class it
/// came from, and — the members being regex-marked already — those keys are
/// pairwise distinct across the outputs.
proof fn lemma_output_keys(opt: &SimplePatternGroup, elig: Seq<FilterModel>, ks: Seq<u64>)
    requires
        no_dup_keys(ks),
        forall|i: int| 0 <= i < elig.len() ==> spec_selected(#[trigger] elig[i]),
        forall|i: int| 0 <= i < elig.len() ==> mask_has(#[trigger] elig[i].mask, MASK_IS_REGEX),
    ensures
        forall|a: int|
            0 <= a < fused_of(opt, elig, ks).len() ==> ks.contains(
                spec_group_key(#[trigger] fused_of(opt, elig, ks)[a]),
            ) && class_of(opt, elig, spec_group_key(fused_of(opt, elig, ks)[a])).len() >= 2,
        forall|a: int|
            0 <= a < singles_of(opt, elig, ks).len() ==> ks.contains(
                spec_group_key(#[trigger] singles_of(opt, elig, ks)[a]),
            ) && class_of(opt, elig, spec_group_key(singles_of(opt, elig, ks)[a])).len() == 1,
        forall|a: int, b: int|
            0 <= a < b < fused_of(opt, elig, ks).len() ==> spec_group_key(
                #[trigger] fused_of(opt, elig, ks)[a],
            ) != spec_group_key(#[trigger] fused_of(opt, elig, ks)[b]),
        forall|a: int, b: int|
            0 <= a < b < singles_of(opt, elig, ks).len() ==> spec_group_key(
                #[trigger] singles_of(opt, elig, ks)[a],
            ) != spec_group_key(#[trigger] singles_of(opt, elig, ks)[b]),
    decreases ks.len(),
{
    if ks.len() > 0 {
        let dl = ks.drop_last();
        assert(forall|i: int| 0 <= i < dl.len() ==> #[trigger] dl[i] == ks[i]);
        assert(no_dup_keys(dl)) by {
            assert forall|i: int, j: int| 0 <= i < j < dl.len() implies dl[i] != dl[j] by {
                assert(dl[i] == ks[i]);
                assert(dl[j] == ks[j]);
            }
        }
        lemma_output_keys(opt, elig, dl);
        let k = ks.last();
        let c = class_of(opt, elig, k);
        assert(ks[ks.len() - 1] == k);
        assert(ks.contains(k));
        assert forall|x: u64| dl.contains(x) implies ks.contains(x) && x != k by {
            let w = choose|w: int| 0 <= w < dl.len() && dl[w] == x;
            assert(ks[w] == x);
        }
        if c.len() >= 2 {
            assert forall|i: int|
                0 <= i < c.len() implies spec_selected(#[trigger] c[i]) && spec_group_key(c[i])
                == k && mask_has(c[i].mask, MASK_IS_REGEX) by {
                lemma_where_pred(elig, key_pred(opt, k), i);
                let w = choose|w: int| 0 <= w < elig.len() && elig[w] == c[i];
            }
            lemma_fused_key(c, k);
            assert(fused_of(opt, elig, ks) == fused_of(opt, elig, dl).push(opt.spec_fuse(c)));
            assert(singles_of(opt, elig, ks) == singles_of(opt, elig, dl));
            assert(spec_group_key(opt.spec_fuse(c)) == k);
            assert forall|a: int| 0 <= a < fused_of(opt, elig, ks).len() implies ks.contains(
                spec_group_key(#[trigger] fused_of(opt, elig, ks)[a]),
            ) && class_of(opt, elig, spec_group_key(fused_of(opt, elig, ks)[a])).len() >= 2 by {
                if a < fused_of(opt, elig, dl).len() {
                    assert(fused_of(opt, elig, ks)[a] == fused_of(opt, elig, dl)[a]);
                } else {
                    assert(fused_of(opt, elig, ks)[a] == opt.spec_fuse(c));
                    assert(class_of(opt, elig, k) == c);
                }
            }
            assert forall|a: int| 0 <= a < singles_of(opt, elig, ks).len() implies ks.contains(
                spec_group_key(#[trigger] singles_of(opt, elig, ks)[a]),
            ) && class_of(opt, elig, spec_group_key(singles_of(opt, elig, ks)[a])).len() == 1 by {
                assert(singles_of(opt, elig, ks)[a] == singles_of(opt, elig, dl)[a]);
            }
            assert forall|a: int, b: int|
                0 <= a < b < fused_of(opt, elig, ks).len() implies spec_group_key(
                #[trigger] fused_of(opt, elig, ks)[a],
            ) != spec_group_key(#[trigger] fused_of(opt, elig, ks)[b]) by {
                if b < fused_of(opt, elig, dl).len() {
                    assert(fused_of(opt, elig, ks)[a] == fused_of(opt, elig, dl)[a]);
                    assert(fused_of(opt, elig, ks)[b] == fused_of(opt, elig, dl)[b]);
                } else {
                    assert(fused_of(opt, elig, ks)[a] == fused_of(opt, elig, dl)[a]);
                    assert(fused_of(opt, elig, ks)[b] == opt.spec_fuse(c));
                    assert(dl.contains(spec_group_key(fused_of(opt, elig, dl)[a])));
                }
            }
            assert forall|a: int, b: int|
                0 <= a < b < singles_of(opt, elig, ks).len() implies spec_group_key(
                #[trigger] singles_of(opt, elig, ks)[a],
            ) != spec_group_key(#[trigger] singles_of(opt, elig, ks)[b]) by {
                assert(singles_of(opt, elig, ks)[a] == singles_of(opt, elig, dl)[a]);
                assert(singles_of(opt, elig, ks)[b] == singles_of(opt, elig, dl)[b]);
            }
        } else if c.len() == 1 {
            assert(fused_of(opt, elig, ks) == fused_of(opt, elig, dl));
            assert(singles_of(opt, elig, ks) == singles_of(opt, elig, dl).push(c[0]));
            assert(spec_group_key(c[0]) == k) by {
                lemma_where_pred(elig, key_pred(opt, k), 0);
            }
            assert forall|a: int| 0 <= a < singles_of(opt, elig, ks).len() implies ks.contains(
                spec_group_key(#[trigger] singles_of(opt, elig, ks)[a]),
            ) && class_of(opt, elig, spec_group_key(singles_of(opt, elig, ks)[a])).len() == 1 by {
                if a < singles_of(opt, elig, dl).len() {
                    assert(singles_of(opt, elig, ks)[a] == singles_of(opt, elig, dl)[a]);
                } else {
                    assert(singles_of(opt, elig, ks)[a] == c[0]);
                    assert(class_of(opt, elig, k) == c);
                }
            }
            assert forall|a: int| 0 <= a < fused_of(opt, elig, ks).len() implies ks.contains(
                spec_group_key(#[trigger] fused_of(opt, elig, ks)[a]),
            ) && class_of(opt, elig, spec_group_key(fused_of(opt, elig, ks)[a])).len() >= 2 by {
                assert(fused_of(opt, elig, ks)[a] == fused_of(opt, elig, dl)[a]);
            }
            assert forall|a: int, b: int|
                0 <= a < b < singles_of(opt, elig, ks).len() implies spec_group_key(
                #[trigger] singles_of(opt, elig, ks)[a],
            ) != spec_group_key(#[trigger] singles_of(opt, elig, ks)[b]) by {
                if b < singles_of(opt, elig, dl).len() {
                    assert(singles_of(opt, elig, ks)[a] == singles_of(opt, elig, dl)[a]);
                    assert(singles_of(opt, elig, ks)[b] == singles_of(opt, elig, dl)[b]);
                } else {
                    assert(singles_of(opt, elig, ks)[a] == singles_of(opt, elig, dl)[a]);
                    assert(singles_of(opt, elig, ks)[b] == c[0]);
                    assert(dl.contains(spec_group_key(singles_of(opt, elig, dl)[a])));
                }
            }
            assert forall|a: int, b: int|
                0 <= a < b < fused_of(opt, elig, ks).len() implies spec_group_key(
                #[trigger] fused_of(opt, elig, ks)[a],
            ) != spec_group_key(#[trigger] fused_of(opt, elig, ks)[b]) by {
                assert(fused_of(opt, elig, ks)[a] == fused_of(opt, elig, dl)[a]);
                assert(fused_of(opt, elig, ks)[b] == fused_of(opt, elig, dl)[b]);
            }
        } else {
            assert(fused_of(opt, elig, ks) == fused_of(opt, elig, dl));
            assert(singles_of(opt, elig, ks) == singles_of(opt, elig, dl));
            assert forall|a: int| 0 <= a < fused_of(opt, elig, ks).len() implies ks.contains(
                spec_group_key(#[trigger] fused_of(opt, elig, ks)[a]),
            ) && class_of(opt, elig, spec_group_key(fused_of(opt, elig, ks)[a])).len() >= 2 by {
                assert(fused_of(opt, elig, ks)[a] == fused_of(opt, elig, dl)[a]);
            }
            assert forall|a: int| 0 <= a < singles_of(opt, elig, ks).len() implies ks.contains(
                spec_group_key(#[trigger] singles_of(opt, elig, ks)[a]),
            ) && class_of(opt, elig, spec_group_key(singles_of(opt, elig, ks)[a])).len() == 1 by {
                assert(singles_of(opt, elig, ks)[a] == singles_of(opt, elig, dl)[a]);
            }
            assert forall|a: int, b: int|
                0 <= a < b < fused_of(opt, elig, ks).len() implies spec_group_key(
                #[trigger] fused_of(opt, elig, ks)[a],
            ) != spec_group_key(#[trigger] fused_of(opt, elig, ks)[b]) by {
                assert(fused_of(opt, elig, ks)[a] == fused_of(opt, elig, dl)[a]);
                assert(fused_of(opt, elig, ks)[b] == fused_of(opt, elig, dl)[b]);
            }
            assert forall|a: int, b: int|
                0 <= a < b < singles_of(opt, elig, ks).len() implies spec_group_key(
                #[trigger] singles_of(opt, elig, ks)[a],
            ) != spec_group_key(#[trigger] singles_of(opt, elig, ks)[b]) by {
                assert(singles_of(opt, elig, ks)[a] == singles_of(opt, elig, dl)[a]);
                assert(singles_of(opt, elig, ks)[b] == singles_of(opt, elig, dl)[b]);
            }
        }
    }
}

/// Idempotence of the pass for collections whose eligible filters already
/// carry the regex-style flag: re-running the optimizer on its own output
/// produces no further reduction, because the fused filters keep their
/// classes' pairwise-distinct keys. (Without that premise, two classes whose
/// keys differ only in the regex-style flag can collapse into one after the
/// flag is normalised, and a second run fuses them further.)
pub proof fn lemma_idempotent_for_regex_inputs(s: Seq<FilterModel>)
    requires
        forall|i: int|
            0 <= i < s.len() ==> (spec_selected(#[trigger] s[i]) ==> mask_has(
                s[i].mask,
                MASK_IS_REGEX,
            )),
    ensures
        spec_optimize(spec_optimize(s)).len() == spec_optimize(s).len(),
{
    let opt = &(SimplePatternGroup {  });
    let elig = eligible_of(opt, s);
    let inelig = ineligible_of(opt, s);
    let ks = keys_of(opt, elig);
    let fused = fused_of(opt, elig, ks);
    let singles = singles_of(opt, elig, ks);
    let out = spec_optimize(s);
    assert(out == fused + (inelig + singles));
    assert forall|i: int|
        0 <= i < elig.len() implies spec_selected(#[trigger] elig[i]) && mask_has(
        elig[i].mask,
        MASK_IS_REGEX,
    ) by {
        lemma_where_pred(s, sel_pred(opt), i);
        let w = choose|w: int| 0 <= w < s.len() && s[w] == elig[i];
    }
    lemma_keys_distinct(opt, elig);
    lemma_output_keys(opt, elig, ks);
    assert(!has_fusable_class(out)) by {
        if has_fusable_class(out) {
            let (i, j) = choose|i: int, j: int|
                0 <= i < j < out.len() && spec_selected(#[trigger] out[i]) && spec_selected(
                    #[trigger] out[j],
                ) && spec_group_key(out[i]) == spec_group_key(out[j]);
            let fl = fused.len() as int;
            let il = inelig.len() as int;
            let sl = singles.len() as int;
            assert(out.len() == fl + il + sl);
            assert(forall|x: int| 0 <= x < fl ==> #[trigger] out[x] == fused[x]);
            assert(forall|x: int|
                fl <= x < fl + il ==> #[trigger] out[x] == (inelig + singles)[x - fl]);
            assert(forall|x: int| fl <= x < fl + il ==> #[trigger] out[x] == inelig[x - fl]);
            assert(forall|x: int|
                fl + il <= x < fl + il + sl ==> #[trigger] out[x] == singles[x - fl - il]);
            // an ineligible passthrough cannot be one of the two
            if fl <= i < fl + il {
                lemma_where_pred(s, unsel_pred(opt), i - fl);
                assert(!spec_selected(out[i]));
            }
            if fl <= j < fl + il {
                lemma_where_pred(s, unsel_pred(opt), j - fl);
                assert(!spec_selected(out[j]));
            }
            assert(i < fl || fl + il <= i);
            assert(j < fl || fl + il <= j);
            if i < fl && j < fl {
                assert(spec_group_key(fused[i]) != spec_group_key(fused[j]));
            } else if i < fl && fl + il <= j {
                let a = i;
                let b = j - fl - il;
                assert(class_of(opt, elig, spec_group_key(fused[a])).len() >= 2);
                assert(class_of(opt, elig, spec_group_key(singles[b])).len() == 1);
                assert(spec_group_key(fused[a]) == spec_group_key(singles[b]));
            } else {
                let a = i - fl - il;
                let b = j - fl - il;
                assert(spec_group_key(singles[a]) != spec_group_key(singles[b]));
            }
        }
    }
    lemma_no_fusable_len(out);
}

} // verus!
