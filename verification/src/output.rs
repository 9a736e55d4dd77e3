//! Rule-provider artifacts and the manifest that describes a complete build.

use vstd::prelude::*;
use vstd::utf8::encode_utf8;

use crate::application::{name_views, ApplicationView, SCHEMA_VERSION};
use crate::catalog::{
    Catalog, candidates, catalog_collections, catalog_mentions, catalog_regions, collection_views,
    is_catalog_region_list, is_selection, lemma_catalog_regions, lemma_catalog_regions_exist,
    lemma_is_selection, lemma_selection_exists, names_on, selection,
};
use crate::collection::{collection_name, CollectionView};
use crate::outside::{push_char, sha256_digest, sha256_of};
use crate::platform::{Platform, PlatformSelection, ProcessName, all_selections, selection_name};

verus! {

/// The provider text of `names`: one `PROCESS-NAME,<name>` line for each, in order.
pub open spec fn mihomo_text(names: Seq<Seq<char>>) -> Seq<char>
    decreases names.len(),
{
    if names.len() == 0 {
        Seq::empty()
    } else {
        mihomo_text(names.drop_last()) + "PROCESS-NAME,"@ + names.last() + "\n"@
    }
}

/// Render exact process names as a Mihomo classical rule provider.
pub fn render_mihomo(names: &[ProcessName]) -> (r: String)
    ensures
        r@ == mihomo_text(name_views(names@)),
{
    let ghost v = name_views(names@);
    let mut content = String::new();
    assert(v.take(0) =~= Seq::<Seq<char>>::empty());
    let mut i: usize = 0;
    while i < names.len()
        invariant
            v == name_views(names@),
            i <= names.len(),
            content@ == mihomo_text(v.take(i as int)),
        decreases names.len() - i,
    {
        assert(v.take(i + 1).drop_last() =~= v.take(i as int));
        assert(v.take(i + 1).last() == names@[i as int]@);
        content.append("PROCESS-NAME,");
        content.append(names[i].as_str());
        content.append("\n");
        i = i + 1;
    }
    assert(v.take(names.len() as int) =~= v);
    content
}

/// The lowercase hexadecimal digit of `n`, for `n` below 16.
pub open spec fn hex_digit(n: int) -> char {
    if n < 10 {
        (48 + n) as char
    } else {
        (87 + n) as char
    }
}

/// Lowercase hexadecimal text of `bytes`, two digits per byte, high half first.
pub open spec fn hex_text(bytes: Seq<u8>) -> Seq<char>
    decreases bytes.len(),
{
    if bytes.len() == 0 {
        Seq::empty()
    } else {
        hex_text(bytes.drop_last()) + seq![
            hex_digit(bytes.last() as int / 16),
            hex_digit(bytes.last() as int % 16),
        ]
    }
}

fn hex_digit_char(n: u8) -> (r: char)
    requires
        n < 16,
    ensures
        r == hex_digit(n as int),
{
    if n < 10 {
        (48 + n) as char
    } else {
        (87 + n) as char
    }
}

/// Lowercase hexadecimal SHA-256 digest of `bytes`.
pub fn sha256_hex(bytes: &[u8]) -> (r: String)
    ensures
        r@ == hex_text(sha256_of(bytes@)),
{
    let digest = sha256_digest(bytes);
    let ghost d = digest@;
    let mut encoded = String::new();
    assert(d.take(0) =~= Seq::<u8>::empty());
    let mut i: usize = 0;
    while i < digest.len()
        invariant
            d == digest@,
            i <= digest.len(),
            encoded@ == hex_text(d.take(i as int)),
        decreases digest.len() - i,
    {
        let byte = digest[i];
        assert(d.take(i + 1).drop_last() =~= d.take(i as int));
        assert(d.take(i + 1).last() == byte);
        let ghost before = encoded@;
        push_char(&mut encoded, hex_digit_char(byte / 16));
        push_char(&mut encoded, hex_digit_char(byte % 16));
        assert(encoded@ =~= before + seq![hex_digit(byte as int / 16), hex_digit(byte as int % 16)]);
        i = i + 1;
    }
    assert(d.take(digest.len() as int) =~= d);
    encoded
}

/// One artifact entry of the build manifest.
#[derive(Debug, Clone, PartialEq, Eq)]
pub struct ArtifactManifest {
    /// Slash-separated path relative to the output directory.
    pub path: String,
    /// Concrete platform or `all`.
    pub platform: String,
    /// Derived collection identifier.
    pub collection: String,
    /// Number of exact process rules.
    pub entries: usize,
    /// Lowercase SHA-256 digest of the artifact bytes.
    pub sha256: String,
}

/// The plain content of an [`ArtifactManifest`].
pub struct ArtifactView {
    pub path: Seq<char>,
    pub platform: Seq<char>,
    pub collection: Seq<char>,
    pub entries: nat,
    pub sha256: Seq<char>,
}

impl View for ArtifactManifest {
    type V = ArtifactView;

    open spec fn view(&self) -> ArtifactView {
        ArtifactView {
            path: self.path@,
            platform: self.platform@,
            collection: self.collection@,
            entries: self.entries as nat,
            sha256: self.sha256@,
        }
    }
}

/// The views of a sequence of artifact records.
pub open spec fn artifact_views(s: Seq<ArtifactManifest>) -> Seq<ArtifactView> {
    s.map_values(|a: ArtifactManifest| a@)
}

/// Reproducible description of a complete output tree.
#[derive(Debug, Clone, PartialEq, Eq)]
pub struct BuildManifest {
    /// Generator package name.
    pub generator: String,
    /// Generator package version.
    pub generator_version: String,
    /// Input schema version.
    pub schema_version: u32,
    /// License applying to code, sources, and generated output.
    pub license: String,
    /// Source revision the generator was built from, or `unknown`.
    pub source_commit: String,
    /// Number of validated source applications.
    pub applications: usize,
    /// Every emitted provider file in stable order.
    pub artifacts: Vec<ArtifactManifest>,
}

/// The plain content of a [`BuildManifest`].
pub struct BuildManifestView {
    pub generator: Seq<char>,
    pub generator_version: Seq<char>,
    pub schema_version: u32,
    pub license: Seq<char>,
    pub source_commit: Seq<char>,
    pub applications: nat,
    pub artifacts: Seq<ArtifactView>,
}

impl View for BuildManifest {
    type V = BuildManifestView;

    open spec fn view(&self) -> BuildManifestView {
        BuildManifestView {
            generator: self.generator@,
            generator_version: self.generator_version@,
            schema_version: self.schema_version,
            license: self.license@,
            source_commit: self.source_commit@,
            applications: self.applications as nat,
            artifacts: artifact_views(self.artifacts@),
        }
    }
}

/// One provider file of a build: its path relative to the output directory and its text.
pub struct PlannedFile {
    pub path: String,
    pub content: String,
}

/// The views of a sequence of planned files: path and text.
pub open spec fn planned_file_views(s: Seq<PlannedFile>) -> Seq<(Seq<char>, Seq<char>)> {
    s.map_values(|f: PlannedFile| (f.path@, f.content@))
}

/// Every provider file of a build, and the manifest that describes them.
pub struct BuildPlan {
    pub files: Vec<PlannedFile>,
    pub manifest: BuildManifest,
}

/// Path of the provider of collection `c` on `sel`, relative to the output directory.
pub open spec fn artifact_path(sel: PlatformSelection, c: CollectionView) -> Seq<char> {
    "mihomo/"@ + selection_name(sel) + "/"@ + collection_name(c) + ".list"@
}

/// Text of the provider of collection `c` on `sel`.
pub open spec fn artifact_text(apps: Seq<ApplicationView>, sel: PlatformSelection, c: CollectionView) -> Seq<
    char,
> {
    mihomo_text(selection(apps, sel, c))
}

/// Manifest record of the provider of collection `c` on `sel`.
pub open spec fn artifact_entry(apps: Seq<ApplicationView>, sel: PlatformSelection, c: CollectionView) -> ArtifactView {
    ArtifactView {
        path: artifact_path(sel, c),
        platform: selection_name(sel),
        collection: collection_name(c),
        entries: selection(apps, sel, c).len(),
        sha256: hex_text(sha256_of(encode_utf8(artifact_text(apps, sel, c)))),
    }
}

/// Files of the providers of collections `cs` on `sel`, in order.
pub open spec fn selection_files(
    apps: Seq<ApplicationView>,
    sel: PlatformSelection,
    cs: Seq<CollectionView>,
) -> Seq<(Seq<char>, Seq<char>)> {
    cs.map_values(|c: CollectionView| (artifact_path(sel, c), artifact_text(apps, sel, c)))
}

/// Manifest records of the providers of collections `cs` on `sel`, in order.
pub open spec fn selection_entries(
    apps: Seq<ApplicationView>,
    sel: PlatformSelection,
    cs: Seq<CollectionView>,
) -> Seq<ArtifactView> {
    cs.map_values(|c: CollectionView| artifact_entry(apps, sel, c))
}

/// Files of every catalog collection on each of `sels`, selection by selection.
pub open spec fn build_files(apps: Seq<ApplicationView>, sels: Seq<PlatformSelection>) -> Seq<
    (Seq<char>, Seq<char>),
>
    decreases sels.len(),
{
    if sels.len() == 0 {
        Seq::empty()
    } else {
        build_files(apps, sels.drop_last()) + selection_files(
            apps,
            sels.last(),
            catalog_collections(apps),
        )
    }
}

/// Manifest records of every catalog collection on each of `sels`, selection by selection.
pub open spec fn build_entries(apps: Seq<ApplicationView>, sels: Seq<PlatformSelection>) -> Seq<
    ArtifactView,
>
    decreases sels.len(),
{
    if sels.len() == 0 {
        Seq::empty()
    } else {
        build_entries(apps, sels.drop_last()) + selection_entries(
            apps,
            sels.last(),
            catalog_collections(apps),
        )
    }
}

/// The manifest of a build of `apps`.
pub open spec fn build_manifest(
    apps: Seq<ApplicationView>,
    generator: Seq<char>,
    generator_version: Seq<char>,
    source_commit: Seq<char>,
) -> BuildManifestView {
    BuildManifestView {
        generator,
        generator_version,
        schema_version: SCHEMA_VERSION,
        license: "GPL-3.0-or-later"@,
        source_commit,
        applications: apps.len(),
        artifacts: build_entries(apps, all_selections()),
    }
}

/// The provider file and manifest record of one collection on one platform selection.
fn plan_artifact(catalog: &Catalog, platform: PlatformSelection, collection: &crate::collection::Collection) -> (r: (
    PlannedFile,
    ArtifactManifest,
))
    ensures
        (r.0.path@, r.0.content@) == (
            artifact_path(platform, collection@),
            artifact_text(catalog@, platform, collection@),
        ),
        r.1@ == artifact_entry(catalog@, platform, collection@),
{
    let names = catalog.select_available(platform, collection);
    let rendered = render_mihomo(names.as_slice());
    let collection_name = collection.name();
    let mut path = "mihomo/".to_owned();
    path.append(platform.as_str());
    path.append("/");
    path.append(collection_name.as_str());
    path.append(".list");
    let sha256 = sha256_hex(rendered.as_str().as_bytes());
    let entry = ArtifactManifest {
        path: path.clone(),
        platform: platform.as_str().to_owned(),
        collection: collection_name,
        entries: names.len(),
        sha256,
    };
    assert(name_views(names@).len() == names@.len());
    (PlannedFile { path, content: rendered }, entry)
}

/// Every provider file of a complete build, for each platform selection and each catalog
/// collection in stable order, together with the manifest that describes them.
pub fn plan_build(
    catalog: &Catalog,
    generator: &str,
    generator_version: &str,
    source_commit: &str,
) -> (r: BuildPlan)
    ensures
        planned_file_views(r.files@) == build_files(catalog@, all_selections()),
        r.manifest@ == build_manifest(catalog@, generator@, generator_version@, source_commit@),
{
    let ghost apps = catalog@;
    let collections = catalog.collections();
    let ghost cs = collection_views(collections@);
    let selections = PlatformSelection::all();
    let ghost sels = selections@;
    let mut files: Vec<PlannedFile> = Vec::new();
    let mut artifacts: Vec<ArtifactManifest> = Vec::new();
    assert(sels.take(0) =~= Seq::<PlatformSelection>::empty());
    assert(planned_file_views(files@) =~= build_files(apps, sels.take(0)));
    assert(artifact_views(artifacts@) =~= build_entries(apps, sels.take(0)));
    let mut p: usize = 0;
    while p < selections.len()
        invariant
            apps == catalog@,
            cs == collection_views(collections@),
            cs == catalog_collections(apps),
            sels == selections@,
            p <= selections.len(),
            planned_file_views(files@) == build_files(apps, sels.take(p as int)),
            artifact_views(artifacts@) == build_entries(apps, sels.take(p as int)),
        decreases selections.len() - p,
    {
        let platform = selections[p];
        let ghost files0 = planned_file_views(files@);
        let ghost entries0 = artifact_views(artifacts@);
        assert(cs.take(0) =~= Seq::<CollectionView>::empty());
        assert(files0 =~= files0 + selection_files(apps, platform, cs.take(0)));
        assert(entries0 =~= entries0 + selection_entries(apps, platform, cs.take(0)));
        let mut c: usize = 0;
        while c < collections.len()
            invariant
                apps == catalog@,
                cs == collection_views(collections@),
                c <= collections.len(),
                planned_file_views(files@) == files0 + selection_files(apps, platform, cs.take(c as int)),
                artifact_views(artifacts@) == entries0 + selection_entries(apps, platform, cs.take(c as int)),
            decreases collections.len() - c,
        {
            let (file, entry) = plan_artifact(catalog, platform, &collections[c]);
            assert(cs[c as int] == collections@[c as int]@);
            assert(cs.take(c + 1) =~= cs.take(c as int).push(cs[c as int]));
            let ghost fv = planned_file_views(files@);
            let ghost ev = artifact_views(artifacts@);
            files.push(file);
            artifacts.push(entry);
            assert(planned_file_views(files@) =~= fv.push(
                (artifact_path(platform, cs[c as int]), artifact_text(apps, platform, cs[c as int])),
            ));
            assert(artifact_views(artifacts@) =~= ev.push(artifact_entry(apps, platform, cs[c as int])));
            assert(selection_files(apps, platform, cs.take(c + 1)) =~= selection_files(
                apps,
                platform,
                cs.take(c as int),
            ).push((artifact_path(platform, cs[c as int]), artifact_text(apps, platform, cs[c as int]))));
            assert(selection_entries(apps, platform, cs.take(c + 1)) =~= selection_entries(
                apps,
                platform,
                cs.take(c as int),
            ).push(artifact_entry(apps, platform, cs[c as int])));
            c = c + 1;
        }
        assert(cs.take(collections.len() as int) =~= cs);
        assert(sels.take(p + 1).drop_last() =~= sels.take(p as int));
        assert(sels.take(p + 1).last() == platform);
        p = p + 1;
    }
    assert(sels.take(selections.len() as int) =~= sels);
    let manifest = BuildManifest {
        generator: generator.to_owned(),
        generator_version: generator_version.to_owned(),
        schema_version: SCHEMA_VERSION,
        license: "GPL-3.0-or-later".to_owned(),
        source_commit: source_commit.to_owned(),
        applications: catalog.application_count(),
        artifacts,
    };
    BuildPlan { files, manifest }
}

/// Two application lists that agree, application by application, on region sets and process
/// names; IDs, display names, categories and source files may differ.
pub open spec fn same_rules(a: Seq<ApplicationView>, b: Seq<ApplicationView>) -> bool {
    &&& a.len() == b.len()
    &&& forall|i: int|
        0 <= i < a.len() ==> (#[trigger] a[i]).regions == b[i].regions && a[i].processes
            == b[i].processes
}

proof fn lemma_names_on_same(a: ApplicationView, b: ApplicationView, platforms: Seq<Platform>)
    requires
        a.processes == b.processes,
    ensures
        names_on(a, platforms) == names_on(b, platforms),
    decreases platforms.len(),
{
    if platforms.len() > 0 {
        lemma_names_on_same(a, b, platforms.drop_last());
    }
}

proof fn lemma_candidates_same(
    a: Seq<ApplicationView>,
    b: Seq<ApplicationView>,
    sel: PlatformSelection,
    c: CollectionView,
)
    requires
        same_rules(a, b),
    ensures
        candidates(a, sel, c) == candidates(b, sel, c),
    decreases a.len(),
{
    if a.len() > 0 {
        let n = a.len() - 1;
        assert(a[n].regions == b[n].regions && a[n].processes == b[n].processes);
        assert(same_rules(a.drop_last(), b.drop_last())) by {
            assert forall|i: int| 0 <= i < a.drop_last().len() implies (#[trigger] a.drop_last()[i]).regions
                == b.drop_last()[i].regions && a.drop_last()[i].processes == b.drop_last()[i].processes by {
                assert(a.drop_last()[i] == a[i] && b.drop_last()[i] == b[i]);
            }
        }
        lemma_candidates_same(a.drop_last(), b.drop_last(), sel, c);
        lemma_names_on_same(a.last(), b.last(), crate::platform::selection_platforms(sel));
    }
}

proof fn lemma_selection_same(
    a: Seq<ApplicationView>,
    b: Seq<ApplicationView>,
    sel: PlatformSelection,
    c: CollectionView,
)
    requires
        same_rules(a, b),
    ensures
        selection(a, sel, c) == selection(b, sel, c),
{
    lemma_candidates_same(a, b, sel, c);
    lemma_selection_exists(a, sel, c);
    assert(is_selection(b, sel, c, selection(a, sel, c)));
    lemma_is_selection(b, sel, c, selection(a, sel, c));
}

proof fn lemma_collections_same(a: Seq<ApplicationView>, b: Seq<ApplicationView>)
    requires
        same_rules(a, b),
    ensures
        catalog_collections(a) == catalog_collections(b),
{
    assert forall|x: Seq<char>| catalog_mentions(a, x) <==> catalog_mentions(b, x) by {
        if catalog_mentions(a, x) {
            let i = choose|i: int| 0 <= i < a.len() && #[trigger] crate::region::mentioned(a[i].regions).contains(x);
            assert(a[i].regions == b[i].regions);
            assert(crate::region::mentioned(b[i].regions).contains(x));
        }
        if catalog_mentions(b, x) {
            let i = choose|i: int| 0 <= i < b.len() && #[trigger] crate::region::mentioned(b[i].regions).contains(x);
            assert(a[i].regions == b[i].regions);
            assert(crate::region::mentioned(a[i].regions).contains(x));
        }
    }
    lemma_catalog_regions_exist(a);
    assert(is_catalog_region_list(b, catalog_regions(a)));
    lemma_catalog_regions(b, catalog_regions(a));
}

proof fn lemma_build_same(a: Seq<ApplicationView>, b: Seq<ApplicationView>, sels: Seq<PlatformSelection>)
    requires
        same_rules(a, b),
    ensures
        build_files(a, sels) == build_files(b, sels),
        build_entries(a, sels) == build_entries(b, sels),
    decreases sels.len(),
{
    if sels.len() > 0 {
        lemma_build_same(a, b, sels.drop_last());
        lemma_collections_same(a, b);
        let sel = sels.last();
        let cs = catalog_collections(a);
        assert forall|c: CollectionView| selection(a, sel, c) == selection(b, sel, c) by {
            lemma_selection_same(a, b, sel, c);
        }
        assert(selection_files(a, sel, cs) =~= selection_files(b, sel, cs));
        assert(selection_entries(a, sel, cs) =~= selection_entries(b, sel, cs));
    }
}

/// Application IDs, display names, categories and source files do not affect the output:
/// two catalogs whose applications agree, in order, on region sets and process names build
/// the same files and the same manifest.
pub proof fn law_output_ignores_categories(
    a: Seq<ApplicationView>,
    b: Seq<ApplicationView>,
    generator: Seq<char>,
    generator_version: Seq<char>,
    source_commit: Seq<char>,
)
    requires
        same_rules(a, b),
    ensures
        build_files(a, all_selections()) == build_files(b, all_selections()),
        build_manifest(a, generator, generator_version, source_commit) == build_manifest(
            b,
            generator,
            generator_version,
            source_commit,
        ),
{
    lemma_build_same(a, b, all_selections());
}

} // verus!
