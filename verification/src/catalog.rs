//! The validated catalog and the selections and explanations computed from it.

use vstd::prelude::*;

use crate::application::{Application, ApplicationView, name_views, platform_names, opt_view};
use crate::collection::{
    Collection, CollectionView, RegionRelation, collection_matches, collection_name,
};
use crate::outside::{case_fold, case_folded, lowercased, to_lowercase};
use crate::platform::{Platform, PlatformSelection, ProcessName, selection_platforms};
use crate::region::{
    Region, RegionSetView, insert_region, lemma_sorted_lists_equal, mentioned, region_views,
    strictly_sorted,
};
use crate::text::{
    chars_less, chars_of, lemma_lex_asymmetric, lemma_lex_irreflexive, lemma_lex_total,
    lemma_lex_transitive, lex_less, is_strict_order, lemma_lex_order, lemma_sorted_exists,
    lex_order, no_repeats, sorted_arrangement,
};

verus! {

broadcast use vstd::seq_lib::lemma_seq_contains_after_push;

/// Validated aggregate of all source files.
#[derive(Debug, Clone)]
pub struct Catalog {
    pub(crate) applications: Vec<Application>,
}

/// The views of a sequence of applications.
pub open spec fn app_views(s: Seq<Application>) -> Seq<ApplicationView> {
    s.map_values(|a: Application| a@)
}

impl View for Catalog {
    type V = Seq<ApplicationView>;

    closed spec fn view(&self) -> Seq<ApplicationView> {
        app_views(self.applications@)
    }
}

/// Whether some application names `region` explicitly.
pub open spec fn catalog_mentions(apps: Seq<ApplicationView>, region: Seq<char>) -> bool {
    exists|i: int| 0 <= i < apps.len() && #[trigger] mentioned(apps[i].regions).contains(region)
}

/// `q` lists, in strictly increasing order, every region some application names.
pub open spec fn is_catalog_region_list(apps: Seq<ApplicationView>, q: Seq<Seq<char>>) -> bool {
    &&& strictly_sorted(q)
    &&& forall|x: Seq<char>| q.contains(x) <==> catalog_mentions(apps, x)
}

/// Every region some application names, in strictly increasing order.
pub open spec fn catalog_regions(apps: Seq<ApplicationView>) -> Seq<Seq<char>> {
    choose|q: Seq<Seq<char>>| is_catalog_region_list(apps, q)
}

/// The three regional collections of each region of `q`, in order.
pub open spec fn regional_collections(q: Seq<Seq<char>>) -> Seq<CollectionView>
    decreases q.len(),
{
    if q.len() == 0 {
        Seq::empty()
    } else {
        regional_collections(q.drop_last()) + seq![
            CollectionView::Regional { region: q.last(), relation: RegionRelation::Only },
            CollectionView::Regional { region: q.last(), relation: RegionRelation::Contains },
            CollectionView::Regional { region: q.last(), relation: RegionRelation::Excludes },
        ]
    }
}

/// Every collection the catalog generates: `any`, then three per mentioned region.
pub open spec fn catalog_collections(apps: Seq<ApplicationView>) -> Seq<CollectionView> {
    seq![CollectionView::Any] + regional_collections(catalog_regions(apps))
}

/// The views of a sequence of collections.
pub open spec fn collection_views(s: Seq<Collection>) -> Seq<CollectionView> {
    s.map_values(|c: Collection| c@)
}

/// A witness list is the catalog's region list.
pub proof fn lemma_catalog_regions(apps: Seq<ApplicationView>, q: Seq<Seq<char>>)
    requires
        is_catalog_region_list(apps, q),
    ensures
        catalog_regions(apps) == q,
{
    let c = catalog_regions(apps);
    assert(is_catalog_region_list(apps, c));
    lemma_sorted_lists_equal(c, q);
}

/// Every region the applications name, application by application.
spec fn named_regions(apps: Seq<ApplicationView>) -> Seq<Seq<char>>
    decreases apps.len(),
{
    if apps.len() == 0 {
        Seq::empty()
    } else {
        named_regions(apps.drop_last()) + mentioned(apps.last().regions)
    }
}

proof fn lemma_named_regions(apps: Seq<ApplicationView>)
    ensures
        forall|x: Seq<char>| #[trigger] named_regions(apps).contains(x) <==> catalog_mentions(apps, x),
    decreases apps.len(),
{
    if apps.len() > 0 {
        let p = apps.drop_last();
        lemma_named_regions(p);
        let m = mentioned(apps.last().regions);
        let n = named_regions(p);
        assert forall|x: Seq<char>| #[trigger] named_regions(apps).contains(x) <==> catalog_mentions(apps, x) by {
            let all = named_regions(apps);
            assert(all == n + m);
            if all.contains(x) {
                let k = choose|k: int| 0 <= k < all.len() && all[k] == x;
                if k < n.len() {
                    assert(n[k] == x);
                    assert(n.contains(x));
                    let i = choose|i: int| 0 <= i < p.len() && #[trigger] mentioned(p[i].regions).contains(x);
                    assert(apps[i] == p[i]);
                } else {
                    assert(m[k - n.len()] == x);
                    assert(m.contains(x));
                    assert(apps[apps.len() - 1] == apps.last());
                }
            }
            if catalog_mentions(apps, x) {
                let i = choose|i: int| 0 <= i < apps.len() && #[trigger] mentioned(apps[i].regions).contains(x);
                if i < p.len() {
                    assert(p[i] == apps[i]);
                    assert(n.contains(x));
                    let k = choose|k: int| 0 <= k < n.len() && n[k] == x;
                    assert(all[k] == x);
                } else {
                    assert(m.contains(x));
                    let k = choose|k: int| 0 <= k < m.len() && m[k] == x;
                    assert(all[n.len() + k] == x);
                }
            }
        }
    }
}

/// Every catalog has its region list.
pub proof fn lemma_catalog_regions_exist(apps: Seq<ApplicationView>)
    ensures
        is_catalog_region_list(apps, catalog_regions(apps)),
{
    lemma_lex_order();
    lemma_sorted_exists(named_regions(apps), lex_order());
    lemma_named_regions(apps);
    let q = choose|r: Seq<Seq<char>>| #[trigger] sorted_arrangement(r, named_regions(apps), lex_order());
    assert(strictly_sorted(q)) by {
        assert forall|i: int, j: int| 0 <= i < j < q.len() implies lex_less(#[trigger] q[i], #[trigger] q[j]) by {
            assert(lex_order()(q[i], q[j]));
        }
    }
    assert(is_catalog_region_list(apps, q));
}

proof fn lemma_regional_collections(q: Seq<Seq<char>>, c: CollectionView)
    ensures
        regional_collections(q).contains(c) <==> (c matches CollectionView::Regional { region, .. }
            && q.contains(region)),
    decreases q.len(),
{
    if q.len() > 0 {
        let p = q.drop_last();
        let x = q.last();
        lemma_regional_collections(p, c);
        let three = seq![
            CollectionView::Regional { region: x, relation: RegionRelation::Only },
            CollectionView::Regional { region: x, relation: RegionRelation::Contains },
            CollectionView::Regional { region: x, relation: RegionRelation::Excludes },
        ];
        let all = regional_collections(q);
        assert(all == regional_collections(p) + three);
        assert forall|y: Seq<char>| q.contains(y) <==> (p.contains(y) || y == x) by {
            if q.contains(y) {
                let k = choose|k: int| 0 <= k < q.len() && q[k] == y;
                if k < p.len() {
                    assert(p[k] == y);
                }
            }
            if p.contains(y) {
                let k = choose|k: int| 0 <= k < p.len() && p[k] == y;
                assert(q[k] == y);
            }
            if y == x {
                assert(q[q.len() - 1] == y);
            }
        }
        let n = regional_collections(p).len() as int;
        if all.contains(c) {
            let k = choose|k: int| 0 <= k < all.len() && all[k] == c;
            if k < n {
                assert(regional_collections(p)[k] == c);
            } else {
                assert(three[k - n] == c);
            }
        }
        if regional_collections(p).contains(c) {
            let k = choose|k: int| 0 <= k < n && regional_collections(p)[k] == c;
            assert(all[k] == c);
        }
        if let CollectionView::Regional { region, relation } = c {
            if region == x {
                match relation {
                    RegionRelation::Only => assert(all[n] == c),
                    RegionRelation::Contains => assert(all[n + 1] == c),
                    RegionRelation::Excludes => assert(all[n + 2] == c),
                }
            }
        }
    }
}

/// A collection is available, and `select` answers it, exactly when it is one of the
/// catalog's collections, the output matrix that a complete build writes: `any`, and every
/// relation of every region that some application mentions. Availability depends on the
/// region alone, never on the relation, nor on whether any application falls in the
/// collection.
pub proof fn law_available_collections(
    apps: Seq<ApplicationView>,
    c: CollectionView,
    region: Seq<char>,
    r1: RegionRelation,
    r2: RegionRelation,
)
    ensures
        collection_available(apps, c) <==> catalog_collections(apps).contains(c),
        collection_available(apps, CollectionView::Regional { region, relation: r1 })
            == collection_available(apps, CollectionView::Regional { region, relation: r2 }),
        collection_available(apps, CollectionView::Regional { region, relation: r1 }) <==> exists|
            i: int,
        | 0 <= i < apps.len() && #[trigger] mentioned(apps[i].regions).contains(region),
{
    lemma_catalog_regions_exist(apps);
    let q = catalog_regions(apps);
    lemma_regional_collections(q, c);
    let all = catalog_collections(apps);
    let tail = regional_collections(q);
    assert(all == seq![CollectionView::Any] + tail);
    if all.contains(c) {
        let k = choose|k: int| 0 <= k < all.len() && all[k] == c;
        if k > 0 {
            assert(tail[k - 1] == c);
            assert(tail.contains(c));
        }
    }
    if tail.contains(c) {
        let k = choose|k: int| 0 <= k < tail.len() && tail[k] == c;
        assert(all[k + 1] == c);
    }
    if c == CollectionView::Any {
        assert(all[0] == c);
    }
}

impl Catalog {
    /// A catalog of already validated applications.impl Catalog {
    /// A catalog of already validated applications.
    pub(crate) fn from_applications(applications: Vec<Application>) -> (r: Catalog)
        ensures
            r@ == app_views(applications@),
    {
        Catalog { applications }
    }

    /// The applications, in ID order.
    pub fn applications(&self) -> (r: &[Application])
        ensures
            app_views(r@) == self@,
    {
        self.applications.as_slice()
    }

    /// Number of source applications.
    pub fn application_count(&self) -> (r: usize)
        ensures
            r == self@.len(),
    {
        self.applications.len()
    }

    fn region_list(&self) -> (r: Vec<Region>)
        ensures
            is_catalog_region_list(self@, region_views(r@)),
    {
        let ghost apps = self@;
        let mut regions: Vec<Region> = Vec::new();
        let mut i: usize = 0;
        while i < self.applications.len()
            invariant
                apps == self@,
                i <= self.applications.len(),
                strictly_sorted(region_views(regions@)),
                forall|x: Seq<char>|
                    region_views(regions@).contains(x) <==> catalog_mentions(
                        apps.take(i as int),
                        x,
                    ),
            decreases self.applications.len() - i,
        {
            let application = &self.applications[i];
            assert(apps[i as int] == application@);
            let mentioned_here = application.regions().mentioned_regions();
            let ghost here = region_views(mentioned_here@);
            let mut k: usize = 0;
            while k < mentioned_here.len()
                invariant
                    apps == self@,
                    i < self.applications.len(),
                    here == region_views(mentioned_here@),
                    here == mentioned(apps[i as int].regions),
                    k <= mentioned_here.len(),
                    strictly_sorted(region_views(regions@)),
                    forall|x: Seq<char>|
                        region_views(regions@).contains(x) <==> (catalog_mentions(
                            apps.take(i as int),
                            x,
                        ) || here.take(k as int).contains(x)),
                decreases mentioned_here.len() - k,
            {
                let item = mentioned_here[k].clone();
                insert_region(&mut regions, item);
                assert(here.take(k + 1) =~= here.take(k as int).push(here[k as int]));
                k = k + 1;
            }
            proof {
                assert(here.take(k as int) =~= here);
                assert forall|x: Seq<char>|
                    region_views(regions@).contains(x) <==> catalog_mentions(
                        apps.take(i + 1),
                        x,
                    ) by {
                    if catalog_mentions(apps.take(i as int), x) {
                        let j = choose|j: int|
                            0 <= j < apps.take(i as int).len() && #[trigger] mentioned(
                                apps.take(i as int)[j].regions,
                            ).contains(x);
                        assert(apps.take(i + 1)[j] == apps.take(i as int)[j]);
                        assert(mentioned(apps.take(i + 1)[j].regions).contains(x));
                    }
                    if here.contains(x) {
                        assert(apps.take(i + 1)[i as int] == apps[i as int]);
                        assert(mentioned(apps.take(i + 1)[i as int].regions).contains(x));
                    }
                    if catalog_mentions(apps.take(i + 1), x) {
                        let j = choose|j: int|
                            0 <= j < apps.take(i + 1).len() && #[trigger] mentioned(
                                apps.take(i + 1)[j].regions,
                            ).contains(x);
                        if j < i {
                            assert(apps.take(i + 1)[j] == apps.take(i as int)[j]);
                            assert(mentioned(apps.take(i as int)[j].regions).contains(x));
                        } else {
                            assert(apps.take(i + 1)[j] == apps[i as int]);
                        }
                    }
                }
            }
            i = i + 1;
        }
        assert(apps.take(self.applications.len() as int) =~= apps);
        regions
    }

    /// All available generated collections in stable order.
    pub fn collections(&self) -> (r: Vec<Collection>)
        ensures
            collection_views(r@) == catalog_collections(self@),
    {
        let regions = self.region_list();
        let ghost q = region_views(regions@);
        proof {
            lemma_catalog_regions(self@, q);
        }
        let mut collections: Vec<Collection> = Vec::new();
        collections.push(Collection::Any);
        let mut i: usize = 0;
        while i < regions.len()
            invariant
                q == region_views(regions@),
                i <= regions.len(),
                collection_views(collections@) =~= seq![CollectionView::Any]
                    + regional_collections(q.take(i as int)),
            decreases regions.len() - i,
        {
            let ghost before = collection_views(collections@);
            collections.push(Collection::Regional {
                region: regions[i].clone(),
                relation: RegionRelation::Only,
            });
            collections.push(Collection::Regional {
                region: regions[i].clone(),
                relation: RegionRelation::Contains,
            });
            collections.push(Collection::Regional {
                region: regions[i].clone(),
                relation: RegionRelation::Excludes,
            });
            proof {
                assert(q.take(i + 1).drop_last() =~= q.take(i as int));
                assert(q.take(i + 1).last() == regions@[i as int]@);
                assert(collection_views(collections@) =~= before + seq![
                    CollectionView::Regional { region: q[i as int], relation: RegionRelation::Only },
                    CollectionView::Regional {
                        region: q[i as int],
                        relation: RegionRelation::Contains,
                    },
                    CollectionView::Regional {
                        region: q[i as int],
                        relation: RegionRelation::Excludes,
                    },
                ]);
            }
            i = i + 1;
        }
        assert(q.take(regions.len() as int) =~= q);
        collections
    }
}

/// The names an application records on the given platforms, platform by platform.
pub open spec fn names_on(a: ApplicationView, platforms: Seq<Platform>) -> Seq<Seq<char>>
    decreases platforms.len(),
{
    if platforms.len() == 0 {
        Seq::empty()
    } else {
        names_on(a, platforms.drop_last()) + platform_names(a.processes, platforms.last())
    }
}

/// The names, in catalog order, of every application in collection `c` on the platforms
/// of `sel`.
pub open spec fn candidates(apps: Seq<ApplicationView>, sel: PlatformSelection, c: CollectionView) -> Seq<
    Seq<char>,
>
    decreases apps.len(),
{
    if apps.len() == 0 {
        Seq::empty()
    } else {
        candidates(apps.drop_last(), sel, c) + if collection_matches(c, apps.last().regions) {
            names_on(apps.last(), selection_platforms(sel))
        } else {
            Seq::empty()
        }
    }
}

/// The case foldings of a sequence of names.
pub open spec fn foldings(s: Seq<Seq<char>>) -> Seq<Seq<char>> {
    s.map_values(|x: Seq<char>| case_folded(x))
}

/// `s` without every name whose case folding equals that of an earlier kept name.
pub open spec fn dedup_folded(s: Seq<Seq<char>>) -> Seq<Seq<char>>
    decreases s.len(),
{
    if s.len() == 0 {
        Seq::empty()
    } else {
        let d = dedup_folded(s.drop_last());
        if foldings(d).contains(case_folded(s.last())) {
            d
        } else {
            d.push(s.last())
        }
    }
}

/// The output order of names: by lowercase form, then by the names themselves.
pub open spec fn name_precedes(a: Seq<char>, b: Seq<char>) -> bool {
    lex_less(lowercased(a), lowercased(b)) || (lowercased(a) == lowercased(b) && lex_less(a, b))
}

/// `r` is `d` put in output order.
pub open spec fn is_sorted_permutation(r: Seq<Seq<char>>, d: Seq<Seq<char>>) -> bool {
    &&& r.len() == d.len()
    &&& forall|x: Seq<char>| r.contains(x) <==> d.contains(x)
    &&& forall|i: int, j: int| 0 <= i < j < r.len() ==> name_precedes(#[trigger] r[i], #[trigger] r[j])
}

/// `r` is what selecting collection `c` on `sel` yields: the candidates without case-folded
/// repeats, in output order.
pub open spec fn is_selection(
    apps: Seq<ApplicationView>,
    sel: PlatformSelection,
    c: CollectionView,
    r: Seq<Seq<char>>,
) -> bool {
    is_sorted_permutation(r, dedup_folded(candidates(apps, sel, c)))
}

/// The names that selecting collection `c` on `sel` yields.
pub open spec fn selection(apps: Seq<ApplicationView>, sel: PlatformSelection, c: CollectionView) -> Seq<
    Seq<char>,
> {
    choose|r: Seq<Seq<char>>| is_selection(apps, sel, c, r)
}

/// The output order of names as a function value.
pub open spec fn name_order() -> spec_fn(Seq<char>, Seq<char>) -> bool {
    |a: Seq<char>, b: Seq<char>| name_precedes(a, b)
}

/// Every collection of every catalog has its selection.
pub proof fn lemma_selection_exists(apps: Seq<ApplicationView>, sel: PlatformSelection, c: CollectionView)
    ensures
        is_selection(apps, sel, c, selection(apps, sel, c)),
{
    assert(is_strict_order(name_order())) by {
        assert forall|a: Seq<char>| !(#[trigger] name_order()(a, a)) by {
            lemma_name_order(a, a, a);
        }
        assert forall|a: Seq<char>, b: Seq<char>, x: Seq<char>|
            #[trigger] name_order()(a, b) && #[trigger] name_order()(b, x) implies name_order()(a, x) by {
            lemma_name_order(a, b, x);
        }
        assert forall|a: Seq<char>, b: Seq<char>| a != b implies #[trigger] name_order()(a, b)
            || #[trigger] name_order()(b, a) by {
            lemma_name_order(a, b, a);
        }
    }
    let d = dedup_folded(candidates(apps, sel, c));
    lemma_dedup_distinct(candidates(apps, sel, c));
    assert(no_repeats(d)) by {
        assert forall|i: int, j: int| 0 <= i < j < d.len() implies #[trigger] d[i] != #[trigger] d[j] by {
            assert(case_folded(d[i]) != case_folded(d[j]));
        }
    }
    lemma_sorted_exists(d, name_order());
    let r = choose|r: Seq<Seq<char>>| #[trigger] sorted_arrangement(r, d, name_order());
    assert forall|i: int, j: int| 0 <= i < j < r.len() implies name_precedes(#[trigger] r[i], #[trigger] r[j]) by {
        assert(name_order()(r[i], r[j]));
    }
    assert(is_selection(apps, sel, c, r));
}

/// Two sequences in strict output order with the same members are equal.
proof fn lemma_name_sorted_equal(a: Seq<Seq<char>>, b: Seq<Seq<char>>)
    requires
        forall|i: int, j: int| 0 <= i < j < a.len() ==> name_precedes(#[trigger] a[i], #[trigger] a[j]),
        forall|i: int, j: int| 0 <= i < j < b.len() ==> name_precedes(#[trigger] b[i], #[trigger] b[j]),
        forall|x: Seq<char>| a.contains(x) <==> b.contains(x),
    ensures
        a == b,
    decreases a.len() + b.len(),
{
    if a.len() == 0 {
        if b.len() > 0 {
            assert(b.contains(b[0]));
        }
        assert(a =~= b);
    } else if b.len() == 0 {
        assert(a.contains(a[0]));
    } else {
        assert(a.contains(a[0]));
        assert(b.contains(b[0]));
        let i = choose|i: int| 0 <= i < b.len() && b[i] == a[0];
        let j = choose|j: int| 0 <= j < a.len() && a[j] == b[0];
        lemma_name_order(a[0], b[0], a[0]);
        if i > 0 {
            assert(name_precedes(b[0], b[i]));
            if j > 0 {
                assert(name_precedes(a[0], a[j]));
            }
        }
        assert(a[0] == b[0]);
        let a1 = a.drop_first();
        let b1 = b.drop_first();
        assert forall|x: Seq<char>| a1.contains(x) <==> b1.contains(x) by {
            lemma_name_order(x, x, x);
            if a1.contains(x) {
                let k = choose|k: int| 0 <= k < a1.len() && a1[k] == x;
                assert(name_precedes(a[0], a[k + 1]));
                assert(b.contains(x));
                let m = choose|m: int| 0 <= m < b.len() && b[m] == x;
                assert(m != 0);
                assert(b1[m - 1] == x);
            }
            if b1.contains(x) {
                let k = choose|k: int| 0 <= k < b1.len() && b1[k] == x;
                assert(name_precedes(b[0], b[k + 1]));
                assert(a.contains(x));
                let m = choose|m: int| 0 <= m < a.len() && a[m] == x;
                assert(m != 0);
                assert(a1[m - 1] == x);
            }
        }
        assert forall|p: int, q: int| 0 <= p < q < a1.len() implies name_precedes(
            #[trigger] a1[p],
            #[trigger] a1[q],
        ) by {
            assert(name_precedes(a[p + 1], a[q + 1]));
        }
        assert forall|p: int, q: int| 0 <= p < q < b1.len() implies name_precedes(
            #[trigger] b1[p],
            #[trigger] b1[q],
        ) by {
            assert(name_precedes(b[p + 1], b[q + 1]));
        }
        lemma_name_sorted_equal(a1, b1);
        assert(a =~= seq![a[0]] + a1);
        assert(b =~= seq![b[0]] + b1);
    }
}

/// A selection is determined by the catalog, the platform selection and the collection: any
/// two results that meet `is_selection` are the same sequence, so repeated selections (and
/// the artifacts built from them) are reproducible.
pub proof fn law_selection_unique(
    apps: Seq<ApplicationView>,
    sel: PlatformSelection,
    c: CollectionView,
    r1: Seq<Seq<char>>,
    r2: Seq<Seq<char>>,
)
    requires
        is_selection(apps, sel, c, r1),
        is_selection(apps, sel, c, r2),
    ensures
        r1 == r2,
{
    lemma_name_sorted_equal(r1, r2);
}

/// A result that meets `is_selection` is `selection`.
pub proof fn lemma_is_selection(
    apps: Seq<ApplicationView>,
    sel: PlatformSelection,
    c: CollectionView,
    r: Seq<Seq<char>>,
)
    requires
        is_selection(apps, sel, c, r),
    ensures
        selection(apps, sel, c) == r,
{
    law_selection_unique(apps, sel, c, selection(apps, sel, c), r);
}

/// No two names of a selection fold to the same string.
pub proof fn law_selection_caseless_distinct(
    apps: Seq<ApplicationView>,
    sel: PlatformSelection,
    c: CollectionView,
    r: Seq<Seq<char>>,
)
    requires
        is_selection(apps, sel, c, r),
    ensures
        forall|i: int, j: int|
            0 <= i < j < r.len() ==> case_folded(#[trigger] r[i]) != case_folded(#[trigger] r[j]),
{
    let d = dedup_folded(candidates(apps, sel, c));
    lemma_dedup_distinct(candidates(apps, sel, c));
    assert forall|i: int, j: int| 0 <= i < j < r.len() implies case_folded(#[trigger] r[i])
        != case_folded(#[trigger] r[j]) by {
        lemma_name_order(r[i], r[j], r[i]);
        assert(name_precedes(r[i], r[j]));
        assert(r.contains(r[i]) && r.contains(r[j]));
        assert(d.contains(r[i]) && d.contains(r[j]));
        let a = choose|a: int| 0 <= a < d.len() && d[a] == r[i];
        let b = choose|b: int| 0 <= b < d.len() && d[b] == r[j];
        assert(a != b);
        if a < b {
            assert(case_folded(d[a]) != case_folded(d[b]));
        } else {
            assert(case_folded(d[b]) != case_folded(d[a]));
        }
    }
}

/// Whether a collection is part of the catalog's output matrix.
pub open spec fn collection_available(apps: Seq<ApplicationView>, c: CollectionView) -> bool {
    match c {
        CollectionView::Any => true,
        CollectionView::Regional { region, .. } => catalog_mentions(apps, region),
    }
}

proof fn lemma_name_order(a: Seq<char>, b: Seq<char>, c: Seq<char>)
    ensures
        !name_precedes(a, a),
        name_precedes(a, b) ==> !name_precedes(b, a),
        name_precedes(a, b) && name_precedes(b, c) ==> name_precedes(a, c),
        a != b ==> name_precedes(a, b) || name_precedes(b, a),
{
    lemma_lex_irreflexive(a);
    lemma_lex_irreflexive(lowercased(a));
    lemma_lex_asymmetric(a, b);
    lemma_lex_asymmetric(lowercased(a), lowercased(b));
    lemma_lex_transitive(a, b, c);
    lemma_lex_transitive(lowercased(a), lowercased(b), lowercased(c));
    lemma_lex_total(a, b);
    lemma_lex_total(lowercased(a), lowercased(b));
    if lowercased(a) == lowercased(b) {
        lemma_lex_irreflexive(lowercased(a));
    }
    if lex_less(lowercased(a), lowercased(b)) && lowercased(b) == lowercased(c) {
    }
}

/// The kept names of `dedup_folded` have pairwise different foldings.
pub proof fn lemma_dedup_distinct(s: Seq<Seq<char>>)
    ensures
        forall|i: int, j: int|
            0 <= i < j < dedup_folded(s).len() ==> case_folded(#[trigger] dedup_folded(s)[i])
                != case_folded(#[trigger] dedup_folded(s)[j]),
    decreases s.len(),
{
    if s.len() > 0 {
        let d = dedup_folded(s.drop_last());
        lemma_dedup_distinct(s.drop_last());
        if !foldings(d).contains(case_folded(s.last())) {
            let e = d.push(s.last());
            assert forall|i: int, j: int| 0 <= i < j < e.len() implies case_folded(#[trigger] e[i])
                != case_folded(#[trigger] e[j]) by {
                if j == d.len() {
                    assert(foldings(d)[i] == case_folded(d[i]));
                } else {
                    assert(e[i] == d[i] && e[j] == d[j]);
                }
            }
        }
    }
}

/// Add `name` to the kept names unless a kept name folds to the same string.
fn keep_unless_folded_repeat(
    kept: &mut Vec<ProcessName>,
    folded: &mut Vec<String>,
    name: &ProcessName,
    Ghost(seen): Ghost<Seq<Seq<char>>>,
)
    requires
        name_views(old(kept)@) == dedup_folded(seen),
        string_views(old(folded)@) == foldings(dedup_folded(seen)),
    ensures
        name_views(final(kept)@) == dedup_folded(seen.push(name@)),
        string_views(final(folded)@) == foldings(dedup_folded(seen.push(name@))),
{
    let key = case_fold(name.as_str());
    let ghost d = dedup_folded(seen);
    assert(seen.push(name@).drop_last() =~= seen);
    let mut i: usize = 0;
    while i < folded.len()
        invariant
            i <= folded.len(),
            d == dedup_folded(seen),
            string_views(folded@) == foldings(d),
            name_views(kept@) == d,
            key@ == case_folded(name@),
            forall|j: int| 0 <= j < i ==> folded@[j]@ != key@,
        decreases folded.len() - i,
    {
        if folded[i] == key {
            assert(foldings(d)[i as int] == key@);
            assert(foldings(d).contains(case_folded(name@)));
            assert(seen.push(name@).last() == name@);
            assert(seen.push(name@).drop_last() =~= seen);
            assert(dedup_folded(seen.push(name@)) == d);
            return;
        }
        i = i + 1;
    }
    assert forall|j: int| 0 <= j < foldings(d).len() implies foldings(d)[j] != key@ by {
        assert(foldings(d)[j] == folded@[j]@);
    }
    assert(!foldings(d).contains(case_folded(name@)));
    assert(seen.push(name@).last() == name@);
    assert(dedup_folded(seen.push(name@)) == d.push(name@));
    let ghost before = string_views(folded@);
    kept.push(name.clone());
    folded.push(key);
    assert(name_views(kept@) =~= d.push(name@));
    assert(string_views(folded@) =~= before.push(case_folded(name@)));
    assert(foldings(d.push(name@)) =~= foldings(d).push(case_folded(name@)));
}

/// The views of a sequence of strings.
pub open spec fn string_views(s: Seq<String>) -> Seq<Seq<char>> {
    s.map_values(|x: String| x@)
}

fn lowered_before(ka: &String, a: &ProcessName, kb: &String, b: &ProcessName) -> (r: bool)
    requires
        ka@ == lowercased(a@),
        kb@ == lowercased(b@),
    ensures
        r == name_precedes(a@, b@),
{
    let x = chars_of(ka.as_str());
    let y = chars_of(kb.as_str());
    if chars_less(&x, &y) {
        true
    } else if *ka == *kb {
        let p = chars_of(a.as_str());
        let q = chars_of(b.as_str());
        chars_less(&p, &q)
    } else {
        false
    }
}

/// Put pairwise different names into output order.
fn sort_names(names: Vec<ProcessName>) -> (r: Vec<ProcessName>)
    requires
        forall|i: int, j: int|
            0 <= i < j < names.len() ==> (#[trigger] names@[i])@ != (#[trigger] names@[j])@,
    ensures
        is_sorted_permutation(name_views(r@), name_views(names@)),
{
    let ghost all = name_views(names@);
    let mut sorted: Vec<ProcessName> = Vec::new();
    let mut keys: Vec<String> = Vec::new();
    let mut k: usize = 0;
    while k < names.len()
        invariant
            all == name_views(names@),
            forall|i: int, j: int| 0 <= i < j < names.len() ==> (#[trigger] names@[i])@ != (#[trigger] names@[j])@,
            k <= names.len(),
            keys.len() == sorted.len(),
            forall|j: int| 0 <= j < keys.len() ==> (#[trigger] keys@[j])@ == lowercased(sorted@[j]@),
            is_sorted_permutation(name_views(sorted@), all.take(k as int)),
        decreases names.len() - k,
    {
        let item = names[k].clone();
        let key = to_lowercase(item.as_str());
        let ghost sv = name_views(sorted@);
        let ghost x = item@;
        let mut i: usize = 0;
        while i < sorted.len() && lowered_before(&keys[i], &sorted[i], &key, &item)
            invariant
                i <= sorted.len(),
                keys.len() == sorted.len(),
                forall|j: int| 0 <= j < keys.len() ==> (#[trigger] keys@[j])@ == lowercased(sorted@[j]@),
                key@ == lowercased(item@),
                sv == name_views(sorted@),
                x == item@,
                forall|j: int| 0 <= j < i ==> name_precedes(#[trigger] sv[j], x),
            decreases sorted.len() - i,
        {
            assert(sv[i as int] == sorted@[i as int]@);
            i = i + 1;
        }
        proof {
            assert(!all.take(k as int).contains(x)) by {
                if all.take(k as int).contains(x) {
                    let m = choose|m: int| 0 <= m < k && all.take(k as int)[m] == x;
                    assert(names@[m]@ == names@[k as int]@);
                }
            }
            assert(!sv.contains(x));
            if i < sorted.len() {
                assert(sv[i as int] != x) by {
                    assert(sv.contains(sv[i as int]));
                }
                lemma_name_order(sv[i as int], x, x);
            }
            assert forall|j: int| i <= j < sv.len() implies name_precedes(x, #[trigger] sv[j]) by {
                if j > i {
                    lemma_name_order(x, sv[i as int], sv[j]);
                }
            }
        }
        sorted.insert(i, item);
        keys.insert(i, key);
        proof {
            let nv = name_views(sorted@);
            assert(nv =~= sv.insert(i as int, x));
            assert(all.take(k + 1) =~= all.take(k as int).push(x));
            assert forall|a: int, b: int| 0 <= a < b < nv.len() implies name_precedes(
                #[trigger] nv[a],
                #[trigger] nv[b],
            ) by {
                if b < i {
                    assert(nv[a] == sv[a] && nv[b] == sv[b]);
                } else if b == i {
                    assert(nv[a] == sv[a]);
                } else if a < i {
                    assert(nv[a] == sv[a] && nv[b] == sv[b - 1]);
                    lemma_name_order(nv[a], x, nv[b]);
                } else if a == i {
                    assert(nv[b] == sv[b - 1]);
                } else {
                    assert(nv[a] == sv[a - 1] && nv[b] == sv[b - 1]);
                }
            }
            assert forall|y: Seq<char>| nv.contains(y) <==> all.take(k + 1).contains(y) by {
                if nv.contains(y) {
                    let m = choose|m: int| 0 <= m < nv.len() && nv[m] == y;
                    if m < i {
                        assert(sv[m] == y);
                    } else if m > i {
                        assert(sv[m - 1] == y);
                    }
                }
                if sv.contains(y) {
                    let m = choose|m: int| 0 <= m < sv.len() && sv[m] == y;
                    if m < i {
                        assert(nv[m] == y);
                    } else {
                        assert(nv[m + 1] == y);
                    }
                }
                if y == x {
                    assert(nv[i as int] == y);
                }
            }
            assert forall|j: int| 0 <= j < keys.len() implies (#[trigger] keys@[j])@ == lowercased(
                sorted@[j]@,
            ) by {
                if j < i {
                } else if j > i {
                    assert(keys@[j] == old_key_at(keys@, j));
                }
            }
        }
        k = k + 1;
    }
    assert(all.take(names.len() as int) =~= all);
    sorted
}

spec fn old_key_at(keys: Seq<String>, j: int) -> String {
    keys[j]
}

impl Catalog {
    /// Select, case-insensitively deduplicate, and sort the exact process names of one
    /// collection, whether or not the collection is part of the output matrix.
    pub fn select_available(&self, platform: PlatformSelection, collection: &Collection) -> (r: Vec<
        ProcessName,
    >)
        ensures
            is_selection(self@, platform, collection@, name_views(r@)),
            name_views(r@) == selection(self@, platform, collection@),
    {
        let ghost apps = self@;
        let ghost c = collection@;
        let platforms = platform.platforms();
        let mut kept: Vec<ProcessName> = Vec::new();
        let mut folded: Vec<String> = Vec::new();
        let ghost mut seen: Seq<Seq<char>> = Seq::empty();
        assert(name_views(kept@) =~= dedup_folded(seen));
        assert(string_views(folded@) =~= foldings(dedup_folded(seen)));
        let mut i: usize = 0;
        while i < self.applications.len()
            invariant
                apps == self@,
                c == collection@,
                platforms@ == selection_platforms(platform),
                i <= self.applications.len(),
                seen == candidates(apps.take(i as int), platform, c),
                name_views(kept@) == dedup_folded(seen),
                string_views(folded@) == foldings(dedup_folded(seen)),
            decreases self.applications.len() - i,
        {
            let application = &self.applications[i];
            let ghost a = application@;
            assert(apps[i as int] == a);
            assert(apps.take(i + 1).drop_last() =~= apps.take(i as int));
            if collection.matches(application.regions()) {
                let mut k: usize = 0;
                let ghost base = seen;
                assert(names_on(a, platforms@.take(0)) =~= Seq::<Seq<char>>::empty());
                assert(seen =~= base + names_on(a, platforms@.take(0)));
                while k < platforms.len()
                    invariant
                        platforms@ == selection_platforms(platform),
                        a == application@,
                        k <= platforms.len(),
                        seen == base + names_on(a, platforms@.take(k as int)),
                        name_views(kept@) == dedup_folded(seen),
                        string_views(folded@) == foldings(dedup_folded(seen)),
                    decreases platforms.len() - k,
                {
                    let names = application.processes(platforms[k]);
                    let ghost here = name_views(names@);
                    let ghost start = seen;
                    let mut m: usize = 0;
                    assert(seen =~= start + here.take(0));
                    while m < names.len()
                        invariant
                            here == name_views(names@),
                            m <= names.len(),
                            seen == start + here.take(m as int),
                            name_views(kept@) == dedup_folded(seen),
                            string_views(folded@) == foldings(dedup_folded(seen)),
                        decreases names.len() - m,
                    {
                        keep_unless_folded_repeat(&mut kept, &mut folded, &names[m], Ghost(seen));
                        proof {
                            assert(here[m as int] == names@[m as int]@);
                            assert(start + here.take(m + 1) =~= (start + here.take(m as int)).push(
                                here[m as int],
                            ));
                            seen = seen.push(here[m as int]);
                        }
                        m = m + 1;
                    }
                    proof {
                        assert(here.take(m as int) =~= here);
                        assert(platforms@.take(k + 1).drop_last() =~= platforms@.take(k as int));
                        assert(platforms@.take(k + 1).last() == platforms@[k as int]);
                        assert(base + names_on(a, platforms@.take(k + 1)) =~= (base + names_on(
                            a,
                            platforms@.take(k as int),
                        )) + here);
                    }
                    k = k + 1;
                }
                proof {
                    assert(platforms@.take(k as int) =~= platforms@);
                }
            }
            i = i + 1;
        }
        assert(apps.take(self.applications.len() as int) =~= apps);
        proof {
            let d = dedup_folded(seen);
            lemma_dedup_distinct(seen);
            assert forall|x: int, y: int| 0 <= x < y < kept.len() implies (#[trigger] kept@[x])@
                != (#[trigger] kept@[y])@ by {
                assert(d[x] == kept@[x]@ && d[y] == kept@[y]@);
            }
        }
        let r = sort_names(kept);
        proof {
            lemma_is_selection(apps, platform, c, name_views(r@));
        }
        r
    }

    /// Select, case-insensitively deduplicate, and sort exact process names; `None` when the
    /// collection is not part of this catalog's output matrix.
    pub fn select(&self, platform: PlatformSelection, collection: &Collection) -> (r: Option<
        Vec<ProcessName>,
    >)
        ensures
            r is Some <==> collection_available(self@, collection@),
            r is Some <==> catalog_collections(self@).contains(collection@),
            r matches Some(names) ==> is_selection(self@, platform, collection@, name_views(names@)),
            r matches Some(names) ==> name_views(names@) == selection(self@, platform, collection@),
    {
        let available = match collection {
            Collection::Any => true,
            Collection::Regional { region, .. } => self.mentions(region),
        };
        proof {
            law_available_collections(self@, collection@, Seq::empty(), RegionRelation::Only, RegionRelation::Only);
        }
        if available {
            Some(self.select_available(platform, collection))
        } else {
            None
        }
    }

    /// Whether some application names `region` explicitly.
    pub fn mentions(&self, region: &Region) -> (r: bool)
        ensures
            r == catalog_mentions(self@, region@),
    {
        let ghost apps = self@;
        let mut i: usize = 0;
        while i < self.applications.len()
            invariant
                apps == self@,
                i <= self.applications.len(),
                forall|j: int| 0 <= j < i ==> !(#[trigger] mentioned(apps[j].regions)).contains(region@),
            decreases self.applications.len() - i,
        {
            assert(apps[i as int] == self.applications@[i as int]@);
            if self.applications[i].regions().mentions(region) {
                return true;
            }
            i = i + 1;
        }
        false
    }
}

/// One matching record returned by an explain query.
#[derive(Debug, Clone)]
pub struct Explanation {
    /// Application ID.
    pub application: String,
    /// Optional display name.
    pub display_name: Option<String>,
    /// Organizational source category.
    pub category: String,
    /// Concrete platform where the match was found.
    pub platform: Platform,
    /// Case-preserving source process name.
    pub process: String,
    /// Validated egress-region availability.
    pub regions: crate::region::RegionSet,
    /// All generated collection IDs containing this rule.
    pub collections: Vec<String>,
}

/// The plain content of an [`Explanation`].
pub struct ExplanationView {
    pub application: Seq<char>,
    pub display_name: Option<Seq<char>>,
    pub category: Seq<char>,
    pub platform: Platform,
    pub process: Seq<char>,
    pub regions: RegionSetView,
    pub collections: Seq<Seq<char>>,
}

impl View for Explanation {
    type V = ExplanationView;

    open spec fn view(&self) -> ExplanationView {
        ExplanationView {
            application: self.application@,
            display_name: opt_view(self.display_name),
            category: self.category@,
            platform: self.platform,
            process: self.process@,
            regions: self.regions@,
            collections: string_views(self.collections@),
        }
    }
}

/// The views of a sequence of explanations.
pub open spec fn explanation_views(s: Seq<Explanation>) -> Seq<ExplanationView> {
    s.map_values(|e: Explanation| e@)
}

/// The names of the collections of `cs` that a region set belongs to, in order.
pub open spec fn matching_names(cs: Seq<CollectionView>, s: RegionSetView) -> Seq<Seq<char>>
    decreases cs.len(),
{
    if cs.len() == 0 {
        Seq::empty()
    } else {
        matching_names(cs.drop_last(), s) + if collection_matches(cs.last(), s) {
            seq![collection_name(cs.last())]
        } else {
            Seq::empty()
        }
    }
}

/// The record explaining that `name` of application `a` on `platform` matched.
pub open spec fn explanation_of(
    a: ApplicationView,
    platform: Platform,
    name: Seq<char>,
    collections: Seq<Seq<char>>,
) -> ExplanationView {
    ExplanationView {
        application: a.id,
        display_name: a.display_name,
        category: a.category,
        platform,
        process: name,
        regions: a.regions,
        collections,
    }
}

/// The records for the names of `names` that fold like `query`.
pub open spec fn explain_names(
    a: ApplicationView,
    platform: Platform,
    names: Seq<Seq<char>>,
    query: Seq<char>,
    collections: Seq<Seq<char>>,
) -> Seq<ExplanationView>
    decreases names.len(),
{
    if names.len() == 0 {
        Seq::empty()
    } else {
        explain_names(a, platform, names.drop_last(), query, collections) + if case_folded(
            names.last(),
        ) == case_folded(query) {
            seq![explanation_of(a, platform, names.last(), collections)]
        } else {
            Seq::empty()
        }
    }
}

/// The records for one application over the given platforms.
pub open spec fn explain_application(
    a: ApplicationView,
    platforms: Seq<Platform>,
    query: Seq<char>,
    collections: Seq<Seq<char>>,
) -> Seq<ExplanationView>
    decreases platforms.len(),
{
    if platforms.len() == 0 {
        Seq::empty()
    } else {
        explain_application(a, platforms.drop_last(), query, collections) + explain_names(
            a,
            platforms.last(),
            platform_names(a.processes, platforms.last()),
            query,
            collections,
        )
    }
}

/// Every record an explain query over `apps` yields, the collections being those of `all`.
pub open spec fn explain_all(
    apps: Seq<ApplicationView>,
    all: Seq<ApplicationView>,
    sel: PlatformSelection,
    query: Seq<char>,
) -> Seq<ExplanationView>
    decreases apps.len(),
{
    if apps.len() == 0 {
        Seq::empty()
    } else {
        explain_all(apps.drop_last(), all, sel, query) + explain_application(
            apps.last(),
            selection_platforms(sel),
            query,
            matching_names(catalog_collections(all), apps.last().regions),
        )
    }
}

impl Catalog {
    /// Explain every case-insensitive source match for a process query.
    pub fn explain(&self, platform: PlatformSelection, process: &str) -> (r: Vec<Explanation>)
        ensures
            explanation_views(r@) == explain_all(self@, self@, platform, process@),
    {
        let ghost apps = self@;
        let query = case_fold(process);
        let available = self.collections();
        let platforms = platform.platforms();
        let mut explanations: Vec<Explanation> = Vec::new();
        let mut i: usize = 0;
        while i < self.applications.len()
            invariant
                apps == self@,
                query@ == case_folded(process@),
                collection_views(available@) == catalog_collections(apps),
                platforms@ == selection_platforms(platform),
                i <= self.applications.len(),
                explanation_views(explanations@) == explain_all(
                    apps.take(i as int),
                    apps,
                    platform,
                    process@,
                ),
            decreases self.applications.len() - i,
        {
            let application = &self.applications[i];
            let ghost a = application@;
            assert(apps[i as int] == a);
            let collections = matching_collection_names(&available, application.regions());
            let ghost base = explanation_views(explanations@);
            assert(explain_application(a, platforms@.take(0), process@, string_views(collections@))
                =~= Seq::<ExplanationView>::empty());
            assert(base =~= base + explain_application(
                a,
                platforms@.take(0),
                process@,
                string_views(collections@),
            ));
            let mut k: usize = 0;
            while k < platforms.len()
                invariant
                    a == application@,
                    query@ == case_folded(process@),
                    platforms@ == selection_platforms(platform),
                    k <= platforms.len(),
                    explanation_views(explanations@) == base + explain_application(
                        a,
                        platforms@.take(k as int),
                        process@,
                        string_views(collections@),
                    ),
                decreases platforms.len() - k,
            {
                let concrete = platforms[k];
                let names = application.processes(concrete);
                let ghost here = name_views(names@);
                let ghost start = explanation_views(explanations@);
                let mut m: usize = 0;
                assert(start =~= start + explain_names(
                    a,
                    concrete,
                    here.take(0),
                    process@,
                    string_views(collections@),
                ));
                while m < names.len()
                    invariant
                        a == application@,
                        query@ == case_folded(process@),
                        here == name_views(names@),
                        m <= names.len(),
                        explanation_views(explanations@) == start + explain_names(
                            a,
                            concrete,
                            here.take(m as int),
                            process@,
                            string_views(collections@),
                        ),
                    decreases names.len() - m,
                {
                    let candidate = &names[m];
                    let ghost before = explanation_views(explanations@);
                    assert(here.take(m + 1).drop_last() =~= here.take(m as int));
                    assert(here.take(m + 1).last() == candidate@);
                    let key = case_fold(candidate.as_str());
                    if key == query {
                        let display_name = match application.display_name() {
                            Some(name) => Some(name.to_owned()),
                            None => None,
                        };
                        let record = Explanation {
                            application: application.id().to_text(),
                            display_name,
                            category: application.category().to_owned(),
                            platform: concrete,
                            process: candidate.as_str().to_owned(),
                            regions: application.regions().clone(),
                            collections: clone_strings(&collections),
                        };
                        explanations.push(record);
                        assert(explanation_views(explanations@) =~= before.push(
                            explanation_of(a, concrete, candidate@, string_views(collections@)),
                        ));
                    }
                    m = m + 1;
                }
                proof {
                    assert(here.take(m as int) =~= here);
                    assert(platforms@.take(k + 1).drop_last() =~= platforms@.take(k as int));
                    assert(platforms@.take(k + 1).last() == concrete);
                }
                k = k + 1;
            }
            proof {
                assert(platforms@.take(k as int) =~= platforms@);
                assert(apps.take(i + 1).drop_last() =~= apps.take(i as int));
            }
            i = i + 1;
        }
        assert(apps.take(self.applications.len() as int) =~= apps);
        explanations
    }
}

fn clone_strings(v: &Vec<String>) -> (r: Vec<String>)
    ensures
        string_views(r@) == string_views(v@),
{
    let mut r: Vec<String> = Vec::new();
    let mut i: usize = 0;
    while i < v.len()
        invariant
            i <= v.len(),
            string_views(r@) =~= string_views(v@).take(i as int),
        decreases v.len() - i,
    {
        let item = v[i].clone();
        assert(string_views(v@).take(i + 1) =~= string_views(v@).take(i as int).push(item@));
        r.push(item);
        i = i + 1;
    }
    assert(string_views(v@).take(v.len() as int) =~= string_views(v@));
    r
}

fn matching_collection_names(cs: &Vec<Collection>, regions: &crate::region::RegionSet) -> (r: Vec<
    String,
>)
    ensures
        string_views(r@) == matching_names(collection_views(cs@), regions@),
{
    let ghost all = collection_views(cs@);
    let mut r: Vec<String> = Vec::new();
    let mut i: usize = 0;
    while i < cs.len()
        invariant
            all == collection_views(cs@),
            i <= cs.len(),
            string_views(r@) == matching_names(all.take(i as int), regions@),
        decreases cs.len() - i,
    {
        assert(all.take(i + 1).drop_last() =~= all.take(i as int));
        assert(all.take(i + 1).last() == cs@[i as int]@);
        let ghost before = string_views(r@);
        if cs[i].matches(regions) {
            r.push(cs[i].name());
            assert(string_views(r@) =~= before + seq![collection_name(cs@[i as int]@)]);
        } else {
            assert(before =~= before + Seq::<Seq<char>>::empty());
        }
        i = i + 1;
    }
    assert(all.take(cs.len() as int) =~= all);
    r
}

} // verus!
