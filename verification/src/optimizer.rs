//! The fusion pass itself: the partition-and-fuse driver and the concrete
//! simple-pattern-group strategy, which merges filters whose non-pattern
//! semantics coincide into one multi-alternative regex-style filter.

use vstd::prelude::*;
use vstd::string::StringExecFns;

use crate::filters::{
    mask_has, mask_set, FilterModel, FilterPart, NetworkFilter, NetworkFilterMask, PartModel,
    MASK_IS_COMPLETE_REGEX, MASK_IS_CSP, MASK_IS_FUZZY, MASK_IS_HOSTNAME_ANCHOR, MASK_IS_REDIRECT,
    MASK_IS_REGEX,
};
use crate::sequences::lemma_where_push;
use crate::strategy::{
    class_of, eligible_of, fused_of, ineligible_of, key_pred, keys_of, lemma_keys_distinct,
    lemma_keys_iff, lemma_keys_push, sel_pred, singles_of, spec_apply, unsel_pred, Optimization,
};

verus! {

/// Eligibility for the simple-pattern-group strategy: the filter's matching
/// behaviour must be fully characterised by its pattern together with the
/// regex / complete-regex flags — no fuzziness, no domain restrictions, no
/// hostname anchoring, no redirect or CSP semantics, no bug tag.
pub open spec fn spec_selected(f: FilterModel) -> bool {
    &&& !mask_has(f.mask, MASK_IS_FUZZY)
    &&& f.opt_domains is None
    &&& f.opt_not_domains is None
    &&& !mask_has(f.mask, MASK_IS_HOSTNAME_ANCHOR)
    &&& !mask_has(f.mask, MASK_IS_REDIRECT)
    &&& !mask_has(f.mask, MASK_IS_CSP)
    &&& f.bug is None
}

/// The equivalence-class key: the full flag bitset together with the
/// complete-regex classification. Two filters share a key iff every flag bit
/// and the complete-regex classification agree.
pub open spec fn spec_group_key(f: FilterModel) -> u64 {
    ((f.mask as int) * 2 + if mask_has(f.mask, MASK_IS_COMPLETE_REGEX) {
        1int
    } else {
        0int
    }) as u64
}

/// Whether some member of the group has the absent ("matches anything")
/// pattern.
pub open spec fn some_empty(g: Seq<FilterModel>) -> bool
    decreases g.len(),
{
    if g.len() == 0 {
        false
    } else {
        some_empty(g.drop_last()) || g.last().part is Empty
    }
}

/// Whether some member of the group is a complete regex.
pub open spec fn some_complete(g: Seq<FilterModel>) -> bool
    decreases g.len(),
{
    if g.len() == 0 {
        false
    } else {
        some_complete(g.drop_last()) || mask_has(g.last().mask, MASK_IS_COMPLETE_REGEX)
    }
}

/// The pattern strings a single filter contributes to the flattened union.
pub open spec fn strings_of(p: PartModel) -> Seq<Seq<char>> {
    match p {
        PartModel::Empty => Seq::empty(),
        PartModel::Simple(s) => seq![s],
        PartModel::AnyOf(ss) => ss,
    }
}

/// Every member's pattern strings, flattened in group order.
pub open spec fn flat_patterns(g: Seq<FilterModel>) -> Seq<Seq<char>>
    decreases g.len(),
{
    if g.len() == 0 {
        Seq::empty()
    } else {
        flat_patterns(g.drop_last()) + strings_of(g.last().part)
    }
}

/// The source lines present in the group, in group order; members without one
/// contribute nothing.
pub open spec fn present_lines(g: Seq<FilterModel>) -> Seq<Seq<char>>
    decreases g.len(),
{
    if g.len() == 0 {
        Seq::empty()
    } else {
        present_lines(g.drop_last()) + match g.last().raw_line {
            Some(l) => seq![l],
            None => Seq::empty(),
        }
    }
}

/// The separator token used when joining source-line provenance.
pub open spec fn sep_seq() -> Seq<char> {
    (" <+> ")@
}

/// The given lines joined with the separator token.
pub open spec fn join_lines(ls: Seq<Seq<char>>) -> Seq<char>
    decreases ls.len(),
{
    if ls.len() == 0 {
        Seq::empty()
    } else if ls.len() == 1 {
        ls[0]
    } else {
        join_lines(ls.drop_last()) + sep_seq() + ls.last()
    }
}

/// The fused pattern: absent if any member matches anything; otherwise the
/// flattened union, collapsed to the absent or single variant when it holds
/// zero or one string.
pub open spec fn fused_part(g: Seq<FilterModel>) -> PartModel {
    if some_empty(g) {
        PartModel::Empty
    } else {
        let fp = flat_patterns(g);
        if fp.len() == 0 {
            PartModel::Empty
        } else if fp.len() == 1 {
            PartModel::Simple(fp[0])
        } else {
            PartModel::AnyOf(fp)
        }
    }
}

/// The fused flag bitset: the representative's flags with the regex-style bit
/// set, and the complete-regex bit set iff some member was a complete regex.
pub open spec fn fused_mask(g: Seq<FilterModel>) -> u32
    recommends
        g.len() >= 1,
{
    mask_set(mask_set(g[0].mask, MASK_IS_REGEX, true), MASK_IS_COMPLETE_REGEX, some_complete(g))
}

/// The filter that fusing the group produces: the representative's fields
/// with the pattern union, the normalised regex flags, and — when the
/// representative carried a source line — the joined provenance.
pub open spec fn spec_fuse_model(g: Seq<FilterModel>) -> FilterModel
    recommends
        g.len() >= 1,
{
    FilterModel {
        mask: fused_mask(g),
        part: fused_part(g),
        opt_domains: g[0].opt_domains,
        opt_not_domains: g[0].opt_not_domains,
        bug: g[0].bug,
        raw_line: if g[0].raw_line is Some {
            Some(join_lines(present_lines(g)))
        } else {
            None
        },
    }
}

/// The strategy that groups simple patterns into a single filter.
pub struct SimplePatternGroup {}

impl Optimization for SimplePatternGroup {
    open spec fn spec_select(&self, f: FilterModel) -> bool {
        spec_selected(f)
    }

    open spec fn spec_key(&self, f: FilterModel) -> u64 {
        spec_group_key(f)
    }

    open spec fn spec_fuse(&self, g: Seq<FilterModel>) -> FilterModel {
        spec_fuse_model(g)
    }

    fn select(&self, filter: &NetworkFilter) -> bool {
        !filter.is_fuzzy() && filter.opt_domains.is_none() && filter.opt_not_domains.is_none()
            && !filter.is_hostname_anchor() && !filter.is_redirect() && !filter.is_csp()
            && !filter.has_bug()
    }

    fn group_by_criteria(&self, filter: &NetworkFilter) -> u64 {
        let c = filter.is_complete_regex();
        (filter.mask.bits as u64) * 2 + if c {
            1
        } else {
            0
        }
    }

    fn fusion(&self, filters: &Vec<NetworkFilter>) -> NetworkFilter {
        let ghost gv = filters.deep_view();
        let n = filters.len();

        // if any filter is absent (meaning it matches anything), the entire
        // combination matches anything
        let mut any_empty = false;
        let mut i: usize = 0;
        while i < n
            invariant
                0 <= i <= n,
                n == gv.len(),
                gv == filters.deep_view(),
                any_empty == some_empty(gv.take(i as int)),
            decreases n - i,
        {
            let e = match &filters[i].filter {
                FilterPart::Empty => true,
                _ => false,
            };
            any_empty = any_empty || e;
            proof {
                assert(gv.take(i + 1).drop_last() =~= gv.take(i as int));
                assert(gv.take(i + 1).last() == gv[i as int]);
            }
            i = i + 1;
        }
        proof {
            assert(gv.take(n as int) =~= gv);
        }

        // flatten every member's pattern strings, in group order
        let mut flat: Vec<String> = Vec::new();
        i = 0;
        while i < n
            invariant
                0 <= i <= n,
                n == gv.len(),
                gv == filters.deep_view(),
                flat.deep_view() == flat_patterns(gv.take(i as int)),
            decreases n - i,
        {
            match &filters[i].filter {
                FilterPart::Empty => {},
                FilterPart::Simple(s) => {
                    flat.push(s.clone());
                    proof {
                        assert(flat.deep_view() =~= flat_patterns(gv.take(i as int)) + seq![s@]);
                    }
                },
                FilterPart::AnyOf(ss) => {
                    let m = ss.len();
                    let mut j: usize = 0;
                    while j < m
                        invariant
                            0 <= j <= m,
                            0 <= i < n,
                            n == gv.len(),
                            gv == filters.deep_view(),
                            m == ss@.len(),
                            gv[i as int].part == PartModel::AnyOf(ss.deep_view()),
                            flat.deep_view() == flat_patterns(gv.take(i as int))
                                + ss.deep_view().take(j as int),
                        decreases m - j,
                    {
                        let item = ss[j].clone();
                        proof {
                            assert(item@ == ss.deep_view()[j as int]);
                        }
                        let ghost before = flat.deep_view();
                        flat.push(item);
                        proof {
                            assert(flat.deep_view() =~= before.push(item@));
                            assert(ss.deep_view().take(j + 1) =~= ss.deep_view().take(
                                j as int,
                            ).push(ss.deep_view()[j as int]));
                            assert(flat.deep_view() =~= flat_patterns(gv.take(i as int))
                                + ss.deep_view().take(j + 1));
                        }
                        j = j + 1;
                    }
                    proof {
                        assert(ss.deep_view().take(m as int) =~= ss.deep_view());
                    }
                },
            }
            proof {
                assert(gv.take(i + 1).drop_last() =~= gv.take(i as int));
                assert(gv.take(i + 1).last() == gv[i as int]);
                match gv[i as int].part {
                    PartModel::Empty => {
                        assert(flat.deep_view() =~= flat_patterns(gv.take(i as int))
                            + strings_of(gv[i as int].part));
                    },
                    PartModel::Simple(_) => {},
                    PartModel::AnyOf(_) => {},
                }
            }
            i = i + 1;
        }

        // is any member already a complete regex?
        let mut any_complete = false;
        i = 0;
        while i < n
            invariant
                0 <= i <= n,
                n == gv.len(),
                gv == filters.deep_view(),
                any_complete == some_complete(gv.take(i as int)),
            decreases n - i,
        {
            let c = filters[i].is_complete_regex();
            any_complete = any_complete || c;
            proof {
                assert(gv.take(i + 1).drop_last() =~= gv.take(i as int));
                assert(gv.take(i + 1).last() == gv[i as int]);
            }
            i = i + 1;
        }

        // joined provenance of every member carrying a source line
        let mut joined = String::new();
        let mut have_line = false;
        i = 0;
        while i < n
            invariant
                0 <= i <= n,
                n == gv.len(),
                gv == filters.deep_view(),
                have_line == (present_lines(gv.take(i as int)).len() > 0),
                joined@ == join_lines(present_lines(gv.take(i as int))),
            decreases n - i,
        {
            let ghost pl = present_lines(gv.take(i as int));
            match &filters[i].raw_line {
                Some(l) => {
                    if have_line {
                        joined.append(" <+> ");
                    }
                    joined.append(l.as_str());
                    have_line = true;
                    proof {
                        assert(gv.take(i + 1).drop_last() =~= gv.take(i as int));
                        assert(gv.take(i + 1).last() == gv[i as int]);
                        let pl2 = present_lines(gv.take(i + 1));
                        assert(pl2 =~= pl + seq![l@]);
                        if pl.len() == 0 {
                            assert(pl2 =~= seq![l@]);
                            assert(join_lines(pl2) == l@);
                            assert(joined@ =~= l@);
                        } else {
                            assert(pl2.len() >= 2);
                            assert(pl2.drop_last() =~= pl);
                            assert(pl2.last() == l@);
                            assert(join_lines(pl2) == join_lines(pl) + sep_seq() + l@);
                        }
                    }
                },
                None => {
                    proof {
                        assert(gv.take(i + 1).drop_last() =~= gv.take(i as int));
                        assert(gv.take(i + 1).last() == gv[i as int]);
                        assert(present_lines(gv.take(i + 1)) =~= pl);
                    }
                },
            }
            i = i + 1;
        }

        // assemble the fused filter from the representative
        let mut mask = filters[0].mask;
        mask.set(MASK_IS_REGEX, true);
        mask.set(MASK_IS_COMPLETE_REGEX, any_complete);

        let part = if any_empty {
            FilterPart::Empty
        } else if flat.len() == 0 {
            FilterPart::Empty
        } else if flat.len() == 1 {
            let s = flat.pop().unwrap();
            proof {
                assert(s@ == flat_patterns(gv)[0]);
            }
            FilterPart::Simple(s)
        } else {
            FilterPart::AnyOf(flat)
        };

        let raw_line = if filters[0].raw_line.is_some() {
            Some(joined)
        } else {
            None
        };

        let r = NetworkFilter {
            mask,
            filter: part,
            opt_domains: clone_domains(&filters[0].opt_domains),
            opt_not_domains: clone_domains(&filters[0].opt_not_domains),
            bug: filters[0].bug,
            raw_line,
        };
        proof {
            assert(gv[0] == filters@[0].deep_view());
            assert(r.deep_view() =~= spec_fuse_model(gv));
        }
        r
    }
}

/// Copy of an optional domain-restriction list.
fn clone_domains(v: &Option<Vec<u64>>) -> (r: Option<Vec<u64>>)
    ensures
        r.deep_view() == v.deep_view(),
{
    match v {
        None => None,
        Some(d) => {
            let n = d.len();
            let mut out: Vec<u64> = Vec::new();
            let mut i: usize = 0;
            while i < n
                invariant
                    0 <= i <= n,
                    n == d@.len(),
                    out@ == d@.take(i as int),
                decreases n - i,
            {
                out.push(d[i]);
                proof {
                    assert(d@.take(i + 1).drop_last() =~= d@.take(i as int));
                    assert(out@ =~= d@.take(i + 1));
                }
                i = i + 1;
            }
            proof {
                assert(d@.take(n as int) =~= d@);
                assert(out.deep_view() =~= d.deep_view());
            }
            Some(out)
        },
    }
}

/// The input vector with its elements in reverse order, so that popping from
/// the result yields the original front-to-back order.
fn reverse_vec<T>(input: Vec<T>) -> (r: Vec<T>)
    ensures
        r@.len() == input@.len(),
        forall|i: int| 0 <= i < r@.len() ==> r@[i] == input@[input@.len() - 1 - i],
{
    let mut v = input;
    let ghost orig = v@;
    proof {
        assert(orig.take(orig.len() as int) =~= orig);
    }
    let mut r: Vec<T> = Vec::new();
    while v.len() > 0
        invariant
            v@ == orig.take(v@.len() as int),
            r@.len() + v@.len() == orig.len(),
            forall|i: int| 0 <= i < r@.len() ==> r@[i] == orig[orig.len() - 1 - i],
        decreases v@.len(),
    {
        let ghost len = v@.len() as int;
        let x = v.pop().unwrap();
        proof {
            assert(orig.take(len).drop_last() =~= orig.take(len - 1));
            assert(x == orig[len - 1]);
        }
        r.push(x);
    }
    r
}

/// One equivalence class under construction: its key and its members in
/// encounter order.
pub struct FilterGroup {
    pub key: u64,
    pub members: Vec<NetworkFilter>,
}

/// The keys of the groups, in order.
pub open spec fn groups_keys(gs: Seq<FilterGroup>) -> Seq<u64> {
    gs.map_values(|g: FilterGroup| g.key)
}

/// Append `v` to the group keyed `k`, creating the group at the end when no
/// group has that key yet.
fn insert_dup(map: &mut Vec<FilterGroup>, k: u64, v: NetworkFilter)
    ensures
        groups_keys(old(map)@).contains(k) ==> exists|idx: int|
            #![all_triggers]
            0 <= idx < old(map)@.len()
                && old(map)@[idx].key == k
                && final(map)@ == old(map)@.update(idx, final(map)@[idx])
                && final(map)@[idx].key == k
                && final(map)@[idx].members@ == old(map)@[idx].members@.push(v),
        !groups_keys(old(map)@).contains(k) ==> final(map)@.len() == old(map)@.len() + 1
            && (forall|j: int| 0 <= j < old(map)@.len() ==> final(map)@[j] == old(map)@[j])
            && final(map)@[old(map)@.len() as int].key == k
            && final(map)@[old(map)@.len() as int].members@ == seq![v],
{
    let n = map.len();
    let mut i: usize = 0;
    while i < n
        invariant
            0 <= i <= n,
            n == map@.len(),
            map@ == old(map)@,
            forall|j: int| 0 <= j < i ==> map@[j].key != k,
        decreases n - i,
    {
        if map[i].key == k {
            let mut g = map.remove(i);
            g.members.push(v);
            let ghost gg = g;
            map.insert(i, g);
            proof {
                assert(groups_keys(old(map)@)[i as int] == k);
                assert(final(map)@ =~= old(map)@.update(i as int, gg));
            }
            return ;
        }
        i = i + 1;
    }
    proof {
        if groups_keys(map@).contains(k) {
            let w = choose|j: int| 0 <= j < map@.len() && groups_keys(map@)[j] == k;
            assert(map@[w].key == k);
        }
    }
    map.push(FilterGroup { key: k, members: vec![v] });
    proof {
        assert(final(map)@[old(map)@.len() as int].members@ =~= seq![v]);
    }
}

/// Partition the owned collection into the strategy's eligible and ineligible
/// filters, group the eligible ones by their class key with encounter order
/// preserved, fuse every class of two or more members, and return the fused
/// filters beside the passthrough filters.
pub fn apply_optimisation<T: Optimization>(optimization: &T, filters: Vec<NetworkFilter>) -> (r: (
    Vec<NetworkFilter>,
    Vec<NetworkFilter>,
))
    ensures
        r.0.deep_view() == spec_apply(optimization, filters.deep_view()).0,
        r.1.deep_view() == spec_apply(optimization, filters.deep_view()).1,
{
    let ghost fv = filters.deep_view();

    // selection pass
    let n = filters.len();
    let mut stack = reverse_vec(filters);
    let mut positive: Vec<NetworkFilter> = Vec::with_capacity(n);
    let mut negative: Vec<NetworkFilter> = Vec::with_capacity(n);
    proof {
        assert(fv.take(0) =~= Seq::<FilterModel>::empty());
    }
    while stack.len() > 0
        invariant
            stack@.len() <= fv.len(),
            forall|i: int|
                0 <= i < stack@.len() ==> stack@[i].deep_view() == fv[fv.len() - 1 - i],
            positive.deep_view() == eligible_of(
                optimization,
                fv.take(fv.len() - stack@.len()),
            ),
            negative.deep_view() == ineligible_of(
                optimization,
                fv.take(fv.len() - stack@.len()),
            ),
        decreases stack@.len(),
    {
        let ghost done = fv.len() - stack@.len();
        let f = stack.pop().unwrap();
        proof {
            assert(f.deep_view() == fv[done as int]);
            assert(fv.take(done + 1).drop_last() =~= fv.take(done as int));
            assert(fv.take(done + 1).last() == fv[done as int]);
            lemma_where_push(fv.take(done as int), fv[done as int], sel_pred(optimization));
            lemma_where_push(fv.take(done as int), fv[done as int], unsel_pred(optimization));
        }
        if optimization.select(&f) {
            positive.push(f);
            proof {
                assert(positive.deep_view() =~= eligible_of(optimization, fv.take(done + 1)));
                assert(negative.deep_view() =~= ineligible_of(optimization, fv.take(done + 1)));
            }
        } else {
            negative.push(f);
            proof {
                assert(positive.deep_view() =~= eligible_of(optimization, fv.take(done + 1)));
                assert(negative.deep_view() =~= ineligible_of(optimization, fv.take(done + 1)));
            }
        }
    }
    proof {
        assert(fv.take(fv.len() as int) =~= fv);
    }

    // grouping pass: build the key-ordered classes, encounter order kept
    let ghost elig = positive.deep_view();
    let m = positive.len();
    let mut pstack = reverse_vec(positive);
    let mut to_fuse: Vec<FilterGroup> = Vec::with_capacity(m);
    proof {
        assert(elig.take(0) =~= Seq::<FilterModel>::empty());
        assert(groups_keys(to_fuse@) =~= keys_of(optimization, elig.take(0)));
    }
    while pstack.len() > 0
        invariant
            pstack@.len() <= elig.len(),
            forall|i: int|
                0 <= i < pstack@.len() ==> pstack@[i].deep_view() == elig[elig.len() - 1 - i],
            groups_keys(to_fuse@) == keys_of(optimization, elig.take(elig.len() - pstack@.len())),
            forall|j: int|
                0 <= j < to_fuse@.len() ==> to_fuse@[j].members.deep_view() == class_of(
                    optimization,
                    elig.take(elig.len() - pstack@.len()),
                    to_fuse@[j].key,
                ),
        decreases pstack@.len(),
    {
        let ghost done = elig.len() - pstack@.len();
        let ghost ep = elig.take(done as int);
        let f = pstack.pop().unwrap();
        let k = optimization.group_by_criteria(&f);
        proof {
            assert(f.deep_view() == elig[done as int]);
            assert(ep.push(elig[done as int]) =~= elig.take(done + 1));
            lemma_keys_push(optimization, ep, elig[done as int]);
            lemma_keys_distinct(optimization, ep);
            lemma_keys_iff(optimization, ep, k);
        }
        let ghost old_groups = to_fuse@;
        insert_dup(&mut to_fuse, k, f);
        proof {
            let x = elig[done as int];
            if groups_keys(old_groups).contains(k) {
                let idx = choose|idx: int|
                    #![all_triggers]
                    0 <= idx < old_groups.len() && old_groups[idx].key == k && to_fuse@
                        == old_groups.update(idx, to_fuse@[idx]) && to_fuse@[idx].key == k
                        && to_fuse@[idx].members@ == old_groups[idx].members@.push(f);
                assert(groups_keys(to_fuse@) =~= groups_keys(old_groups));
                assert(to_fuse@[idx].members.deep_view() =~= old_groups[idx].members.deep_view()
                    + seq![x]);
                assert forall|j: int| 0 <= j < to_fuse@.len() implies to_fuse@[j].members.deep_view()
                    == class_of(optimization, elig.take(done + 1), to_fuse@[j].key) by {
                    lemma_where_push(ep, x, key_pred(optimization, to_fuse@[j].key));
                    if j != idx {
                        assert(to_fuse@[j] == old_groups[j]);
                        assert(groups_keys(old_groups)[j] == old_groups[j].key);
                        assert(groups_keys(old_groups)[idx] == k);
                        assert(old_groups[j].key != k);
                    } else {
                        assert(class_of(optimization, elig.take(done + 1), k) == class_of(
                            optimization,
                            ep,
                            k,
                        ).push(x));
                    }
                }
            } else {
                assert(groups_keys(to_fuse@) =~= groups_keys(old_groups).push(k));
                assert(to_fuse@[old_groups.len() as int].members.deep_view() =~= seq![x]);
                assert forall|j: int| 0 <= j < to_fuse@.len() implies to_fuse@[j].members.deep_view()
                    == class_of(optimization, elig.take(done + 1), to_fuse@[j].key) by {
                    lemma_where_push(ep, x, key_pred(optimization, to_fuse@[j].key));
                    if j < old_groups.len() {
                        assert(to_fuse@[j] == old_groups[j]);
                        assert(groups_keys(old_groups)[j] == old_groups[j].key);
                        assert(old_groups[j].key != k);
                    } else {
                        assert(to_fuse@[j].key == k);
                        assert(class_of(optimization, ep, k).len() == 0);
                        assert(class_of(optimization, ep, k) =~= Seq::<FilterModel>::empty());
                        assert(class_of(optimization, elig.take(done + 1), k) =~= seq![x]);
                    }
                }
            }
        }
    }
    proof {
        assert(elig.take(elig.len() as int) =~= elig);
    }

    // fusion pass: one replacement per class of two or more members; a lone
    // member is never fused and passes through unchanged
    let ghost ks = keys_of(optimization, elig);
    let ghost groups_snap = to_fuse@;
    proof {
        assert(ks.len() == groups_snap.len()) by {
            assert(groups_keys(groups_snap).len() == groups_snap.len());
        }
        assert(ks.take(0) =~= Seq::<u64>::empty());
    }
    let g = to_fuse.len();
    let mut gstack = reverse_vec(to_fuse);
    let mut fused: Vec<NetworkFilter> = Vec::with_capacity(g);
    proof {
        assert(negative.deep_view() + Seq::<FilterModel>::empty() =~= negative.deep_view());
    }
    let ghost passthrough0 = negative.deep_view();
    while gstack.len() > 0
        invariant
            gstack@.len() <= groups_snap.len(),
            ks == keys_of(optimization, elig),
            ks.len() == groups_snap.len(),
            forall|i: int|
                0 <= i < gstack@.len() ==> gstack@[i] == groups_snap[groups_snap.len() - 1 - i],
            groups_keys(groups_snap) == ks,
            forall|j: int|
                0 <= j < groups_snap.len() ==> groups_snap[j].members.deep_view() == class_of(
                    optimization,
                    elig,
                    groups_snap[j].key,
                ),
            fused.deep_view() == fused_of(
                optimization,
                elig,
                ks.take(groups_snap.len() - gstack@.len()),
            ),
            negative.deep_view() == passthrough0 + singles_of(
                optimization,
                elig,
                ks.take(groups_snap.len() - gstack@.len()),
            ),
        decreases gstack@.len(),
    {
        let ghost done = groups_snap.len() - gstack@.len();
        let mut group = gstack.pop().unwrap();
        proof {
            assert(group == groups_snap[done as int]);
            assert(groups_keys(groups_snap)[done as int] == group.key);
            assert(group.key == ks[done as int]);
            assert(group.members.deep_view() == class_of(optimization, elig, ks[done as int]));
            assert(group.members@.len() == group.members.deep_view().len());
            assert(ks.take(done + 1).drop_last() =~= ks.take(done as int));
            assert(ks.take(done + 1).last() == ks[done as int]);
        }
        if group.members.len() > 1 {
            let nf = optimization.fusion(&group.members);
            fused.push(nf);
            proof {
                assert(fused.deep_view() =~= fused_of(optimization, elig, ks.take(done as int)).push(
                    optimization.spec_fuse(class_of(optimization, elig, ks[done as int])),
                ));
                assert(fused.deep_view() == fused_of(optimization, elig, ks.take(done + 1)));
                assert(negative.deep_view() == passthrough0 + singles_of(
                    optimization,
                    elig,
                    ks.take(done + 1),
                ));
            }
        } else {
            proof {
                assert(ks.contains(ks[done as int]));
                lemma_keys_iff(optimization, elig, ks[done as int]);
            }
            let ghost c = class_of(optimization, elig, ks[done as int]);
            proof {
                assert(c.len() == 1);
                assert(group.members@.len() == 1);
            }
            let ghost mem = group.members@;
            let f = group.members.pop().unwrap();
            proof {
                assert(f == mem[0]);
                assert(f.deep_view() == c[0]);
            }
            let ghost neg_before = negative.deep_view();
            negative.push(f);
            proof {
                assert(singles_of(optimization, elig, ks.take(done + 1)) == singles_of(
                    optimization,
                    elig,
                    ks.take(done as int),
                ).push(c[0]));
                assert(negative.deep_view() =~= neg_before.push(c[0]));
                assert(neg_before.push(c[0]) =~= passthrough0 + singles_of(
                    optimization,
                    elig,
                    ks.take(done as int),
                ).push(c[0]));
                assert(fused.deep_view() == fused_of(optimization, elig, ks.take(done + 1)));
            }
        }
    }
    proof {
        assert(ks.take(ks.len() as int) =~= ks);
    }

    (fused, negative)
}

/// What the whole pass produces, mathematically: for each equivalence class
/// of two or more eligible filters one fused replacement, followed by every
/// ineligible filter and every lone class member, unchanged.
pub open spec fn spec_optimize(s: Seq<FilterModel>) -> Seq<FilterModel> {
    spec_apply(&(SimplePatternGroup {  }), s).0 + spec_apply(&(SimplePatternGroup {  }), s).1
}

/// Whether some equivalence class of eligible filters has two or more
/// members, so that fusing actually reduces the filter count.
pub open spec fn has_fusable_class(s: Seq<FilterModel>) -> bool {
    exists|i: int, j: int|
        0 <= i < j < s.len() && spec_selected(s[i]) && spec_selected(s[j]) && spec_group_key(s[i])
            == spec_group_key(s[j])
}

/// Fuse a collection of filters by applying the optimization strategies in
/// order. The result holds the fused replacements first, then every filter
/// that was ineligible or had no fusion partner, unchanged.
pub fn optimize(filters: Vec<NetworkFilter>) -> (r: Vec<NetworkFilter>)
    ensures
        r.deep_view() == spec_optimize(filters.deep_view()),
        r@.len() <= filters@.len(),
        has_fusable_class(filters.deep_view()) ==> r@.len() < filters@.len(),
{
    let ghost fv = filters.deep_view();
    let simple_pattern_group = SimplePatternGroup {};
    let (mut fused, mut unfused) = apply_optimisation(&simple_pattern_group, filters);
    let ghost fused0 = fused.deep_view();
    fused.append(&mut unfused);
    proof {
        assert(fused.deep_view() =~= fused0 + spec_apply(&(SimplePatternGroup {  }), fv).1);
        crate::laws::lemma_count_reduction(fv);
        assert(fused@.len() == fused.deep_view().len());
        assert(fv.len() == filters@.len());
    }
    fused
}

} // verus!
