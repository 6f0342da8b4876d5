use filter_optimizer::filters::{
    FilterPart, NetworkFilter, NetworkFilterMask, MASK_IS_COMPLETE_REGEX, MASK_IS_CSP,
    MASK_IS_FUZZY, MASK_IS_HOSTNAME_ANCHOR, MASK_IS_REDIRECT, MASK_IS_REGEX,
};
use filter_optimizer::optimizer::{apply_optimisation, optimize, SimplePatternGroup};
use filter_optimizer::strategy::Optimization;

fn simple_filter(pattern: &str) -> NetworkFilter {
    NetworkFilter {
        mask: NetworkFilterMask { bits: 0 },
        filter: FilterPart::Simple(String::from(pattern)),
        opt_domains: None,
        opt_not_domains: None,
        bug: None,
        raw_line: Some(String::from(pattern)),
    }
}

#[test]
fn combines_simple_regex_patterns() {
    let rules = vec![
        String::from("/static/ad-"),
        String::from("/static/ad."),
        String::from("/static/ad/*"),
        String::from("/static/ads/*"),
        String::from("/static/adv/*"),
    ];

    let filters: Vec<NetworkFilter> = rules.iter().map(|r| simple_filter(r)).collect();

    let optimization = SimplePatternGroup {};

    filters
        .iter()
        .for_each(|f| assert!(optimization.select(f), "Expected rule to be selected"));

    let fused = optimization.fusion(&filters);

    assert!(fused.is_regex(), "Expected rule to be regex");
    assert_eq!(
        fused.to_string(),
        "/static/ad- <+> /static/ad. <+> /static/ad/* <+> /static/ads/* <+> /static/adv/*"
    );
    match &fused.filter {
        FilterPart::AnyOf(patterns) => {
            assert_eq!(
                patterns.clone(),
                vec![
                    String::from("/static/ad-"),
                    String::from("/static/ad."),
                    String::from("/static/ad/*"),
                    String::from("/static/ads/*"),
                    String::from("/static/adv/*"),
                ]
            );
        }
        _ => panic!("expected the fused pattern to hold every alternative"),
    }
}

#[test]
fn separates_pattern_by_grouping() {
    let mut filters = vec![
        simple_filter("/analytics-v1."),
        simple_filter("/v1/pixel?"),
        simple_filter("/api/v1/stat?"),
    ];
    let mut restricted = simple_filter("/analytics/v1/*");
    restricted.opt_not_domains = Some(vec![0x1234_5678_9abc_def0]);
    restricted.raw_line = Some(String::from("/analytics/v1/*$domain=~my.leadpages.net"));
    filters.push(restricted);
    filters.push(simple_filter("/v1/ads/*"));

    let optimization = SimplePatternGroup {};

    let (fused, skipped) = apply_optimisation(&optimization, filters);

    assert_eq!(fused.len(), 1);
    let filter = fused.get(0).unwrap();
    assert_eq!(
        filter.to_string(),
        "/analytics-v1. <+> /v1/pixel? <+> /api/v1/stat? <+> /v1/ads/*"
    );

    assert_eq!(skipped.len(), 1);
    let filter = skipped.get(0).unwrap();
    assert_eq!(filter.to_string(), "/analytics/v1/*$domain=~my.leadpages.net");
    assert!(filter.opt_not_domains.is_some());
}

#[test]
fn fusing_with_match_anything_member_gives_match_anything() {
    let mut filters = vec![simple_filter("/ads/banner-"), simple_filter("/ads/pixel.")];
    let mut anything = simple_filter("ignored");
    anything.filter = FilterPart::Empty;
    filters.push(anything);

    let optimization = SimplePatternGroup {};
    let fused = optimization.fusion(&filters);

    assert!(matches!(fused.filter, FilterPart::Empty));
    assert!(fused.is_regex());
}

#[test]
fn lone_filter_is_returned_unchanged() {
    let filters = vec![simple_filter("/only/one.")];
    let optimization = SimplePatternGroup {};
    let (fused, skipped) = apply_optimisation(&optimization, filters);

    assert_eq!(fused.len(), 0);
    assert_eq!(skipped.len(), 1);
    assert_eq!(skipped[0].to_string(), "/only/one.");
    assert!(matches!(&skipped[0].filter, FilterPart::Simple(s) if s == "/only/one."));
    assert!(!skipped[0].is_regex());
}

#[test]
fn optimize_reduces_count_when_a_class_is_fusable() {
    let mut ineligible = simple_filter("/tracker/");
    ineligible.bug = Some(42);
    let filters = vec![
        simple_filter("/banner/a."),
        simple_filter("/banner/b."),
        ineligible,
    ];

    let out = optimize(filters);
    assert_eq!(out.len(), 2);
}

#[test]
fn optimize_keeps_count_without_fusable_class() {
    let mut complete = simple_filter("^https?://ads[.]");
    complete.mask.set(MASK_IS_REGEX, true);
    complete.mask.set(MASK_IS_COMPLETE_REGEX, true);
    let filters = vec![simple_filter("/plain/a."), complete];

    let out = optimize(filters);
    assert_eq!(out.len(), 2);
}

#[test]
fn ineligible_filters_pass_through_unchanged() {
    let mut fuzzy = simple_filter("/f/");
    fuzzy.mask.set(MASK_IS_FUZZY, true);
    let mut anchor = simple_filter("/h/");
    anchor.mask.set(MASK_IS_HOSTNAME_ANCHOR, true);
    let mut redirect = simple_filter("/r/");
    redirect.mask.set(MASK_IS_REDIRECT, true);
    let mut csp = simple_filter("/c/");
    csp.mask.set(MASK_IS_CSP, true);
    let mut domains = simple_filter("/d/");
    domains.opt_domains = Some(vec![7]);
    let mut bug = simple_filter("/b/");
    bug.bug = Some(1);

    let filters = vec![fuzzy, anchor, redirect, csp, domains, bug];
    let out = optimize(filters);

    assert_eq!(out.len(), 6);
    let lines: Vec<String> = out.iter().map(|f| f.to_string()).collect();
    for expected in ["/f/", "/h/", "/r/", "/c/", "/d/", "/b/"] {
        assert!(lines.iter().any(|l| l == expected));
    }
    for f in &out {
        assert!(!f.is_regex());
        assert!(matches!(&f.filter, FilterPart::Simple(_)));
    }
}

#[test]
fn multi_pattern_members_flatten_in_order() {
    let mut multi = simple_filter("multi");
    multi.filter = FilterPart::AnyOf(vec![String::from("/a."), String::from("/b.")]);
    let filters = vec![multi, simple_filter("/c.")];

    let optimization = SimplePatternGroup {};
    let fused = optimization.fusion(&filters);

    match &fused.filter {
        FilterPart::AnyOf(patterns) => {
            assert_eq!(
                patterns.clone(),
                vec![String::from("/a."), String::from("/b."), String::from("/c.")]
            );
        }
        _ => panic!("expected a multi-pattern result"),
    }
}

#[test]
fn complete_regex_flag_follows_the_members() {
    let optimization = SimplePatternGroup {};

    let plain = vec![simple_filter("/x."), simple_filter("/y.")];
    let fused_plain = optimization.fusion(&plain);
    assert!(fused_plain.is_regex());
    assert!(!fused_plain.is_complete_regex());

    let mut one_complete = simple_filter("/x.");
    one_complete.mask.set(MASK_IS_REGEX, true);
    one_complete.mask.set(MASK_IS_COMPLETE_REGEX, true);
    let mut other = simple_filter("/y.");
    other.mask.set(MASK_IS_REGEX, true);
    other.mask.set(MASK_IS_COMPLETE_REGEX, true);
    let fused_complete = optimization.fusion(&vec![one_complete, other]);
    assert!(fused_complete.is_regex());
    assert!(fused_complete.is_complete_regex());
}

#[test]
fn provenance_skips_members_without_a_source_line() {
    let mut silent = simple_filter("/quiet.");
    silent.raw_line = None;
    let filters = vec![simple_filter("/loud."), silent, simple_filter("/last.")];

    let optimization = SimplePatternGroup {};
    let fused = optimization.fusion(&filters);

    assert_eq!(fused.to_string(), "/loud. <+> /last.");
}

#[test]
fn provenance_absent_when_representative_has_none() {
    let mut silent = simple_filter("/first.");
    silent.raw_line = None;
    let filters = vec![silent, simple_filter("/second.")];

    let optimization = SimplePatternGroup {};
    let fused = optimization.fusion(&filters);

    assert!(fused.raw_line.is_none());
    assert_eq!(fused.to_string(), "");
}

#[test]
fn optimize_on_empty_input_is_empty() {
    let out = optimize(Vec::new());
    assert!(out.is_empty());
}

#[test]
fn fused_filters_come_before_passthrough_filters() {
    let mut tagged = simple_filter("/keep/");
    tagged.bug = Some(9);
    let filters = vec![
        simple_filter("/m1."),
        tagged,
        simple_filter("/m2."),
        simple_filter("/solo."),
    ];
    // the three plain filters share one equivalence class and fuse; the
    // bug-tagged one passes through after the fused result
    let out = optimize(filters);

    assert_eq!(out.len(), 2);
    assert!(out[0].is_regex());
    assert_eq!(out[0].to_string(), "/m1. <+> /m2. <+> /solo.");
    assert_eq!(out[1].to_string(), "/keep/");
}

#[test]
fn rerunning_on_regex_marked_input_gives_no_further_reduction() {
    let mut a = simple_filter("/sponsor/a.");
    a.mask.set(MASK_IS_REGEX, true);
    let mut b = simple_filter("/sponsor/b.");
    b.mask.set(MASK_IS_REGEX, true);
    let mut lone = simple_filter("^ads[.]");
    lone.mask.set(MASK_IS_REGEX, true);
    lone.mask.set(MASK_IS_COMPLETE_REGEX, true);

    let once = optimize(vec![a, b, lone]);
    assert_eq!(once.len(), 2);
    let twice = optimize(once);
    assert_eq!(twice.len(), 2);
}
