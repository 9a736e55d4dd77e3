//! Generated views over application region sets.

use vstd::prelude::*;

use crate::region::{
    is_canonical_region, set_contains, set_excludes, set_is_only, unrecognized_region_message,
    Region, RegionSet, RegionSetView,
};
use crate::text::{chars_of, same_text};

verus! {

/// How a concrete region is related to an application's complete region set.
#[derive(Debug, Clone, Copy, PartialEq, Eq, Structural, PartialOrd, Ord, Hash)]
pub enum RegionRelation {
    /// The application has exactly this one region.
    Only,
    /// The application contains this region, possibly alongside others.
    Contains,
    /// The application has concrete regions and does not contain this region.
    Excludes,
}

/// All regional relations in stable output order.
pub open spec fn all_relations() -> Seq<RegionRelation> {
    seq![RegionRelation::Only, RegionRelation::Contains, RegionRelation::Excludes]
}

/// The identifier prefix of a relation.
pub open spec fn relation_slug(r: RegionRelation) -> Seq<char> {
    match r {
        RegionRelation::Only => "only"@,
        RegionRelation::Contains => "contain"@,
        RegionRelation::Excludes => "not-contain"@,
    }
}

/// Whether a region set stands in `relation` to `region`.
pub open spec fn relation_holds(relation: RegionRelation, s: RegionSetView, region: Seq<char>) -> bool {
    match relation {
        RegionRelation::Only => set_is_only(s, region),
        RegionRelation::Contains => set_contains(s, region),
        RegionRelation::Excludes => set_excludes(s, region),
    }
}

impl RegionRelation {
    /// All regional relations in stable output order.
    pub const ALL: [RegionRelation; 3] = [
        RegionRelation::Only,
        RegionRelation::Contains,
        RegionRelation::Excludes,
    ];

    /// All regional relations in stable output order.
    pub fn all() -> (r: Vec<RegionRelation>)
        ensures
            r@ == all_relations(),
    {
        let r = vec![RegionRelation::Only, RegionRelation::Contains, RegionRelation::Excludes];
        assert(r@ =~= all_relations());
        r
    }

    /// The identifier prefix of this relation.
    pub fn slug(self) -> (r: &'static str)
        ensures
            r@ == relation_slug(self),
    {
        match self {
            RegionRelation::Only => "only",
            RegionRelation::Contains => "contain",
            RegionRelation::Excludes => "not-contain",
        }
    }

    /// Whether `regions` stands in this relation to `region`.
    pub fn holds(self, regions: &RegionSet, region: &Region) -> (r: bool)
        ensures
            r == relation_holds(self, regions@, region@),
    {
        match self {
            RegionRelation::Only => regions.is_only(region),
            RegionRelation::Contains => regions.contains(region),
            RegionRelation::Excludes => regions.excludes(region),
        }
    }
}

/// A generated view over application region sets.
#[derive(Debug, PartialEq, Eq, PartialOrd, Ord, Hash)]
pub enum Collection {
    /// Applications whose region set is unrestricted.
    Any,
    /// One relation applied uniformly to any concrete region.
    Regional {
        /// Region used by the predicate.
        region: Region,
        /// Relationship required between the application region set and `region`.
        relation: RegionRelation,
    },
}

/// The plain content of a [`Collection`].
pub enum CollectionView {
    /// Applications whose region set is unrestricted.
    Any,
    /// One relation applied to one region.
    Regional { region: Seq<char>, relation: RegionRelation },
}

impl View for Collection {
    type V = CollectionView;

    open spec fn view(&self) -> CollectionView {
        match self {
            Collection::Any => CollectionView::Any,
            Collection::Regional { region, relation } => CollectionView::Regional {
                region: region@,
                relation: *relation,
            },
        }
    }
}

impl Clone for Collection {
    fn clone(&self) -> (r: Collection)
        ensures
            r@ == self@,
    {
        match self {
            Collection::Any => Collection::Any,
            Collection::Regional { region, relation } => Collection::Regional {
                region: region.clone(),
                relation: *relation,
            },
        }
    }
}

/// The stable artifact and CLI identifier of a collection.
pub open spec fn collection_name(c: CollectionView) -> Seq<char> {
    match c {
        CollectionView::Any => "any"@,
        CollectionView::Regional { region, relation } => relation_slug(relation) + "-"@ + region,
    }
}

/// Whether an application region set belongs to a collection.
pub open spec fn collection_matches(c: CollectionView, s: RegionSetView) -> bool {
    match c {
        CollectionView::Any => s == RegionSetView::Any,
        CollectionView::Regional { region, relation } => relation_holds(relation, s, region),
    }
}

/// A regional collection for the identifier `rest`, if it is canonical.
pub open spec fn regional_parse(rest: Seq<char>, relation: RegionRelation) -> Result<
    CollectionView,
    Seq<char>,
> {
    if is_canonical_region(rest) {
        Ok(CollectionView::Regional { region: rest, relation })
    } else {
        Err(unrecognized_region_message(rest))
    }
}

/// What parsing a collection identifier yields.
pub open spec fn collection_parse(s: Seq<char>) -> Result<CollectionView, Seq<char>> {
    if s == "any"@ {
        Ok(CollectionView::Any)
    } else if "only-"@.is_prefix_of(s) {
        regional_parse(s.skip("only-"@.len() as int), RegionRelation::Only)
    } else if "contain-"@.is_prefix_of(s) {
        regional_parse(s.skip("contain-"@.len() as int), RegionRelation::Contains)
    } else if "not-contain-"@.is_prefix_of(s) {
        regional_parse(s.skip("not-contain-"@.len() as int), RegionRelation::Excludes)
    } else {
        Err("expected any, only-<region>, contain-<region>, or not-contain-<region>"@)
    }
}

/// The result of parsing, compared by view.
pub open spec fn parse_result_view(r: Result<Collection, String>) -> Result<
    CollectionView,
    Seq<char>,
> {
    match r {
        Ok(c) => Ok(c@),
        Err(e) => Err(e@),
    }
}

fn prefix_of(p: &Vec<char>, v: &Vec<char>) -> (r: bool)
    ensures
        r == p@.is_prefix_of(v@),
{
    if p.len() > v.len() {
        return false;
    }
    let mut i: usize = 0;
    while i < p.len()
        invariant
            i <= p.len(),
            p.len() <= v.len(),
            forall|j: int| 0 <= j < i ==> p@[j] == v@[j],
        decreases p.len() - i,
    {
        if p[i] != v[i] {
            return false;
        }
        i = i + 1;
    }
    assert(p@ =~= v@.subrange(0, p@.len() as int));
    true
}

impl Collection {
    /// Construct the exact-single-region collection for `region`.
    pub fn only(region: Region) -> (r: Collection)
        ensures
            r@ == (CollectionView::Regional { region: region@, relation: RegionRelation::Only }),
    {
        Collection::Regional { region, relation: RegionRelation::Only }
    }

    /// Construct the collection containing `region`.
    pub fn containing(region: Region) -> (r: Collection)
        ensures
            r@ == (CollectionView::Regional { region: region@, relation: RegionRelation::Contains }),
    {
        Collection::Regional { region, relation: RegionRelation::Contains }
    }

    /// Construct the concrete-region collection excluding `region`.
    pub fn excluding(region: Region) -> (r: Collection)
        ensures
            r@ == (CollectionView::Regional { region: region@, relation: RegionRelation::Excludes }),
    {
        Collection::Regional { region, relation: RegionRelation::Excludes }
    }

    /// Stable artifact and CLI identifier.
    pub fn name(&self) -> (r: String)
        ensures
            r@ == collection_name(self@),
    {
        match self {
            Collection::Any => "any".to_owned(),
            Collection::Regional { region, relation } => {
                let mut r = relation.slug().to_owned();
                r.append("-");
                r.append(region.as_str());
                r
            },
        }
    }

    /// Whether an application region set belongs to this collection.
    pub fn matches(&self, regions: &RegionSet) -> (r: bool)
        ensures
            r == collection_matches(self@, regions@),
    {
        match self {
            Collection::Any => regions.is_any(),
            Collection::Regional { region, relation } => relation.holds(regions, region),
        }
    }

    fn parse_regional(value: &str, skip: usize, relation: RegionRelation) -> (r: Result<
        Collection,
        String,
    >)
        requires
            skip <= value@.len(),
        ensures
            parse_result_view(r) == regional_parse(value@.skip(skip as int), relation),
    {
        let n = chars_of(value).len();
        let rest = value.substring_char(skip, n);
        assert(rest@ =~= value@.skip(skip as int));
        match Region::parse(rest) {
            Ok(region) => Ok(Collection::Regional { region, relation }),
            Err(e) => Err(e),
        }
    }

    /// Parse a collection identifier: `any`, `only-<region>`, `contain-<region>`, or
    /// `not-contain-<region>`.
    pub fn parse(value: &str) -> (r: Result<Collection, String>)
        ensures
            parse_result_view(r) == collection_parse(value@),
    {
        if same_text(value, "any") {
            return Ok(Collection::Any);
        }
        let v = chars_of(value);
        let only = chars_of("only-");
        if prefix_of(&only, &v) {
            return Collection::parse_regional(value, only.len(), RegionRelation::Only);
        }
        let contain = chars_of("contain-");
        if prefix_of(&contain, &v) {
            return Collection::parse_regional(value, contain.len(), RegionRelation::Contains);
        }
        let not_contain = chars_of("not-contain-");
        if prefix_of(&not_contain, &v) {
            return Collection::parse_regional(value, not_contain.len(), RegionRelation::Excludes);
        }
        Err("expected any, only-<region>, contain-<region>, or not-contain-<region>".to_owned())
    }
}

impl core::str::FromStr for Collection {
    type Err = String;

    fn from_str(value: &str) -> (r: Result<Collection, String>)
        ensures
            parse_result_view(r) == collection_parse(value@),
    {
        Collection::parse(value)
    }
}

/// Law: the name of every collection parses back to that same collection.
pub proof fn law_collection_name_parses_back(c: CollectionView)
    requires
        c matches CollectionView::Regional { region, .. } ==> is_canonical_region(region),
    ensures
        collection_parse(collection_name(c)) == Ok::<CollectionView, Seq<char>>(c),
{
    reveal_strlit("any");
    reveal_strlit("only-");
    reveal_strlit("contain-");
    reveal_strlit("not-contain-");
    reveal_strlit("only");
    reveal_strlit("contain");
    reveal_strlit("not-contain");
    reveal_strlit("-");
    match c {
        CollectionView::Any => {},
        CollectionView::Regional { region, relation } => {
            let s = collection_name(c);
            match relation {
                RegionRelation::Only => {
                    assert(s =~= "only-"@ + region);
                    assert(s.len() > 3);
                    assert(s.skip(5) =~= region);
                },
                RegionRelation::Contains => {
                    assert(s =~= "contain-"@ + region);
                    assert(s.len() > 3);
                    assert(s[0] != "only-"@[0]);
                    assert(s.skip(8) =~= region);
                },
                RegionRelation::Excludes => {
                    assert(s =~= "not-contain-"@ + region);
                    assert(s.len() > 3);
                    assert(s[0] != "only-"@[0]);
                    assert(s[0] != "contain-"@[0]);
                    assert(s.skip(12) =~= region);
                },
            }
        },
    }
}

/// Law: an unrestricted region set is in no regional collection; a restricted one contains or
/// excludes each region, never both; and a set that is only `region` contains it.
pub proof fn law_region_relations_partition(s: RegionSetView, region: Seq<char>)
    ensures
        s == RegionSetView::Any ==> !set_contains(s, region) && !set_excludes(s, region)
            && !set_is_only(s, region),
        s != RegionSetView::Any ==> (set_contains(s, region) != set_excludes(s, region)),
        set_is_only(s, region) ==> set_contains(s, region),
{
    if set_is_only(s, region) {
        if let RegionSetView::Only(q) = s {
            assert(q[0] == region);
        }
    }
}

/// Law: every region set belongs to exactly one of `any`, `contain-<region>`, and
/// `not-contain-<region>`, for any region.
pub proof fn law_collections_partition(s: RegionSetView, region: Seq<char>)
    ensures
        collection_matches(CollectionView::Any, s) || collection_matches(
            CollectionView::Regional { region, relation: RegionRelation::Contains },
            s,
        ) || collection_matches(
            CollectionView::Regional { region, relation: RegionRelation::Excludes },
            s,
        ),
        !(collection_matches(CollectionView::Any, s) && collection_matches(
            CollectionView::Regional { region, relation: RegionRelation::Contains },
            s,
        )),
        !(collection_matches(CollectionView::Any, s) && collection_matches(
            CollectionView::Regional { region, relation: RegionRelation::Excludes },
            s,
        )),
        !(collection_matches(
            CollectionView::Regional { region, relation: RegionRelation::Contains },
            s,
        ) && collection_matches(
            CollectionView::Regional { region, relation: RegionRelation::Excludes },
            s,
        )),
        collection_matches(CollectionView::Regional { region, relation: RegionRelation::Only }, s)
            ==> collection_matches(
            CollectionView::Regional { region, relation: RegionRelation::Contains },
            s,
        ),
{
    law_region_relations_partition(s, region);
}

} // verus!
