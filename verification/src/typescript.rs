//! How typescript changes module resolution: the extensions it tries, the
//! `types` condition and fields of packages, the `@types/` packages, and the
//! `baseUrl` and `paths` of `tsconfig.json` files.
use vstd::prelude::*;
use crate::assoc::{keyed, map_of, set_by_name, lemma_map_of_dom};
use crate::text::{texts, push_char};
use crate::vc::{AssetContextVc, FileSystemPathVc, RequestVc};

verus! {

/// Whether a condition of an exports field holds.
#[derive(Clone, Copy, Debug, PartialEq, Eq, Structural)]
pub enum ConditionValue {
    IsSet,
    Unset,
    Unknown,
}

/// Where the entry of a package is looked for.
#[derive(Clone, Debug)]
pub enum ResolveIntoPackage {
    /// The `exports` field named `field`, under the given conditions.
    ExportsField { field: String, conditions: Vec<(String, ConditionValue)>, unspecified_conditions: ConditionValue },
    /// A field that names the main file, such as `main`.
    MainField(String),
    /// A file name tried where nothing else applies, such as `index`.
    Default(String),
}

/// Where the entry of a package is looked for, as a mathematical value.
pub enum ResolveIntoPackageView {
    ExportsField { field: Seq<char>, conditions: Map<Seq<char>, ConditionValue>, unspecified_conditions: ConditionValue },
    MainField(Seq<char>),
    Default(Seq<char>),
}

impl View for ResolveIntoPackage {
    type V = ResolveIntoPackageView;

    open spec fn view(&self) -> ResolveIntoPackageView {
        match self {
            ResolveIntoPackage::ExportsField { field, conditions, unspecified_conditions } => ResolveIntoPackageView::ExportsField {
                field: field@,
                conditions: map_of(keyed(conditions@)),
                unspecified_conditions: *unspecified_conditions,
            },
            ResolveIntoPackage::MainField(f) => ResolveIntoPackageView::MainField(f@),
            ResolveIntoPackage::Default(f) => ResolveIntoPackageView::Default(f@),
        }
    }
}

/// Where modules are looked for.
#[derive(Clone, Debug)]
pub enum ResolveModules {
    /// In the named directories, such as `node_modules`, of `root` and its
    /// parents.
    Nested(FileSystemPathVc, Vec<String>),
    /// Directly in a directory.
    Path(FileSystemPathVc),
}

/// Where modules are looked for, as a mathematical value.
pub enum ResolveModulesView {
    Nested(FileSystemPathVc, Seq<Seq<char>>),
    Path(FileSystemPathVc),
}

impl View for ResolveModules {
    type V = ResolveModulesView;

    open spec fn view(&self) -> ResolveModulesView {
        match self {
            ResolveModules::Nested(p, names) => ResolveModulesView::Nested(*p, texts(names@)),
            ResolveModules::Path(p) => ResolveModulesView::Path(*p),
        }
    }
}

/// What a request is mapped to: alternative requests, resolved from a
/// context directory.
#[derive(Clone, Debug)]
pub struct ImportMapping {
    pub aliases: Vec<String>,
    pub context: Option<FileSystemPathVc>,
}

/// An import mapping as a mathematical value.
pub struct ImportMappingView {
    pub aliases: Seq<Seq<char>>,
    pub context: Option<FileSystemPathVc>,
}

impl View for ImportMapping {
    type V = ImportMappingView;

    open spec fn view(&self) -> ImportMappingView {
        ImportMappingView { aliases: texts(self.aliases@), context: self.context }
    }
}

/// The mappings of a list keyed by request text, as mathematical values.
pub open spec fn mappings_view(s: Seq<(String, ImportMapping)>) -> Map<Seq<char>, ImportMappingView> {
    map_of(keyed(s)).map_values(|m: ImportMapping| m@)
}

/// Requests that are mapped before resolution, by the request text.
#[derive(Clone, Debug)]
pub struct ImportMap {
    pub direct: Vec<(String, ImportMapping)>,
}

impl View for ImportMap {
    type V = Map<Seq<char>, ImportMappingView>;

    open spec fn view(&self) -> Map<Seq<char>, ImportMappingView> {
        mappings_view(self.direct@)
    }
}

impl Default for ImportMap {
    fn default() -> (r: Self)
        ensures
            r@ == Map::<Seq<char>, ImportMappingView>::empty(),
    {
        let r = ImportMap { direct: Vec::new() };
        assert(keyed(r.direct@) =~= Seq::empty());
        assert(mappings_view(r.direct@) =~= Map::empty());
        r
    }
}

/// The options of module resolution that typescript changes.
#[derive(Clone, Debug)]
pub struct ResolveOptions {
    /// The extensions tried on a request without one, in order.
    pub extensions: Vec<String>,
    /// Where modules are looked for, in order.
    pub modules: Vec<ResolveModules>,
    /// Where the entry of a package is looked for, in order.
    pub into_package: Vec<ResolveIntoPackage>,
    /// The requests mapped before resolution.
    pub import_map: Option<ImportMap>,
    /// Whether a package's types are resolved.
    pub resolve_typescript_types: bool,
}

/// Resolve options as mathematical values.
pub struct ResolveOptionsView {
    pub extensions: Seq<Seq<char>>,
    pub modules: Seq<ResolveModulesView>,
    pub into_package: Seq<ResolveIntoPackageView>,
    pub import_map: Option<Map<Seq<char>, ImportMappingView>>,
    pub resolve_typescript_types: bool,
}

impl View for ResolveOptions {
    type V = ResolveOptionsView;

    open spec fn view(&self) -> ResolveOptionsView {
        ResolveOptionsView {
            extensions: texts(self.extensions@),
            modules: self.modules@.map_values(|m: ResolveModules| m@),
            into_package: self.into_package@.map_values(|p: ResolveIntoPackage| p@),
            import_map: match self.import_map {
                Some(m) => Some(m@),
                None => None,
            },
            resolve_typescript_types: self.resolve_typescript_types,
        }
    }
}

/// Typescript sources: `.ts` is tried first, `.d.ts` last, and types are
/// resolved.
pub fn apply_typescript_options(resolve_options: ResolveOptions) -> (r: ResolveOptions)
    ensures
        r@ == (ResolveOptionsView {
            extensions: seq![".ts"@] + resolve_options@.extensions + seq![".d.ts"@],
            resolve_typescript_types: true,
            ..resolve_options@
        }),
{
    let mut resolve_options = resolve_options;
    let ghost before = resolve_options@;
    resolve_options.extensions.insert(0, String::from_str(".ts"));
    resolve_options.extensions.push(String::from_str(".d.ts"));
    resolve_options.resolve_typescript_types = true;
    assert(resolve_options@.extensions =~= seq![".ts"@] + before.extensions + seq![".d.ts"@]);
    resolve_options
}

/// An exports field gets the `types` condition set; other ways into a
/// package are dropped.
pub open spec fn types_into_package(p: ResolveIntoPackageView) -> Option<ResolveIntoPackageView> {
    match p {
        ResolveIntoPackageView::ExportsField { field, conditions, unspecified_conditions } => Some(
            ResolveIntoPackageView::ExportsField {
                field,
                conditions: conditions.insert("types"@, ConditionValue::IsSet),
                unspecified_conditions,
            },
        ),
        _ => None,
    }
}

/// The ways into a package that remain for types, in order.
pub open spec fn types_into_packages(ps: Seq<ResolveIntoPackageView>) -> Seq<ResolveIntoPackageView>
    decreases ps.len(),
{
    if ps.len() == 0 {
        Seq::empty()
    } else {
        let rest = types_into_packages(ps.drop_last());
        match types_into_package(ps.last()) {
            Some(p) => rest.push(p),
            None => rest,
        }
    }
}

/// Resolution of type declarations: only `.ts`, `.tsx` and `.d.ts` are
/// tried; exports fields are read under the `types` condition, other ways
/// into a package give way to the `types` field and an `index` file.
pub fn apply_typescript_types_options(resolve_options: ResolveOptions) -> (r: ResolveOptions)
    ensures
        r@ == (ResolveOptionsView {
            extensions: seq![".ts"@, ".tsx"@, ".d.ts"@],
            into_package: types_into_packages(resolve_options@.into_package) + seq![
                ResolveIntoPackageView::MainField("types"@),
                ResolveIntoPackageView::Default("index"@),
            ],
            ..resolve_options@
        }),
{
    let mut resolve_options = resolve_options;
    let ghost before = resolve_options@;
    let mut extensions: Vec<String> = Vec::new();
    extensions.push(String::from_str(".ts"));
    extensions.push(String::from_str(".tsx"));
    extensions.push(String::from_str(".d.ts"));
    resolve_options.extensions = extensions;
    let mut old_into: Vec<ResolveIntoPackage> = Vec::new();
    std::mem::swap(&mut old_into, &mut resolve_options.into_package);
    let ghost orig = old_into@;
    let ghost orig_view = orig.map_values(|p: ResolveIntoPackage| p@);
    assert(orig_view == before.into_package);
    let mut into_package: Vec<ResolveIntoPackage> = Vec::new();
    let ghost mut i: int = 0;
    while old_into.len() > 0
        invariant
            0 <= i <= orig.len(),
            old_into@ == orig.skip(i),
            orig_view == orig.map_values(|p: ResolveIntoPackage| p@),
            into_package@.map_values(|p: ResolveIntoPackage| p@) == types_into_packages(orig_view.take(i)),
        decreases old_into@.len(),
    {
        assert(orig.skip(i)[0] == orig[i]);
        let ghost prev = into_package@.map_values(|p: ResolveIntoPackage| p@);
        assert(orig_view.take(i + 1).drop_last() =~= orig_view.take(i));
        assert(orig_view.take(i + 1).last() == orig[i]@);
        let into = old_into.remove(0);
        assert(old_into@ =~= orig.skip(i + 1));
        match into {
            ResolveIntoPackage::ExportsField { field, conditions, unspecified_conditions } => {
                let mut conditions = conditions;
                set_by_name(&mut conditions, String::from_str("types"), ConditionValue::IsSet);
                into_package.push(ResolveIntoPackage::ExportsField { field, conditions, unspecified_conditions });
                assert(into_package@.map_values(|p: ResolveIntoPackage| p@) =~= types_into_packages(orig_view.take(i + 1)));
            },
            _ => {
                assert(into_package@.map_values(|p: ResolveIntoPackage| p@) =~= types_into_packages(orig_view.take(i + 1)));
            },
        }
        proof {
            i = i + 1;
        }
    }
    assert(orig.skip(i).len() == 0);
    assert(orig_view.take(i) =~= orig_view);
    let ghost mid = into_package@.map_values(|p: ResolveIntoPackage| p@);
    into_package.push(ResolveIntoPackage::MainField(String::from_str("types")));
    into_package.push(ResolveIntoPackage::Default(String::from_str("index")));
    resolve_options.into_package = into_package;
    assert(resolve_options@.into_package =~= mid + seq![
        ResolveIntoPackageView::MainField("types"@),
        ResolveIntoPackageView::Default("index"@),
    ]);
    assert(resolve_options@.extensions =~= seq![".ts"@, ".tsx"@, ".d.ts"@]);
    resolve_options
}

/// What resolution reads of one `tsconfig.json`: the directory it lies in,
/// `compilerOptions.baseUrl` where it is a string, that directory joined
/// with the base url where the join gives a path, and the entries of
/// `compilerOptions.paths` where it is an object, each member of an entry's
/// list kept where it is a string.
#[derive(Clone, Debug)]
pub struct TsConfig {
    pub dir: FileSystemPathVc,
    pub base_url: Option<String>,
    pub base_url_dir: Option<FileSystemPathVc>,
    pub paths: Option<Vec<(String, Vec<Option<String>>)>>,
}

/// The strings among `members`, in order.
pub open spec fn present_strings(members: Seq<Option<String>>) -> Seq<Seq<char>>
    decreases members.len(),
{
    if members.len() == 0 {
        Seq::empty()
    } else {
        let rest = present_strings(members.drop_last());
        match members.last() {
            Some(s) => rest.push(s@),
            None => rest,
        }
    }
}

/// The directory that the `paths` of a config are resolved from: the base
/// url's directory where there is one, else the config's directory.
pub open spec fn paths_context(c: TsConfig) -> FileSystemPathVc {
    if c.base_url is Some && c.base_url_dir is Some {
        c.base_url_dir->0
    } else {
        c.dir
    }
}

/// `m` with the entries `es` of a config's `paths` set, a later entry over
/// an earlier one.
pub open spec fn add_paths(
    m: Map<Seq<char>, ImportMappingView>,
    es: Seq<(String, Vec<Option<String>>)>,
    context: FileSystemPathVc,
) -> Map<Seq<char>, ImportMappingView>
    decreases es.len(),
{
    if es.len() == 0 {
        m
    } else {
        add_paths(m, es.drop_last(), context).insert(
            es.last().0@,
            ImportMappingView { aliases: present_strings(es.last().1@), context: Some(context) },
        )
    }
}

/// The mappings of the `paths` of a chain of configs: a config's entries
/// win over those of the configs it extends.
pub open spec fn paths_map(cs: Seq<TsConfig>) -> Map<Seq<char>, ImportMappingView>
    decreases cs.len(),
{
    if cs.len() == 0 {
        Map::empty()
    } else {
        let rest = paths_map(cs.skip(1));
        match cs[0].paths {
            Some(es) => add_paths(rest, es@, paths_context(cs[0])),
            None => rest,
        }
    }
}

/// The base url of a chain of configs: that of the first config that has
/// one, given as the joined directory where the join gave one.
pub open spec fn first_base_url(cs: Seq<TsConfig>) -> Option<Option<FileSystemPathVc>>
    decreases cs.len(),
{
    if cs.len() == 0 {
        None
    } else if cs[0].base_url is Some {
        Some(cs[0].base_url_dir)
    } else {
        first_base_url(cs.skip(1))
    }
}

/// The options after reading a chain of configs: unchanged for an empty
/// chain; else the base url's directory is looked in first for modules,
/// and where the configs have `paths`, these mappings are added to the
/// import map over its own.
pub open spec fn tsconfig_options(o: ResolveOptionsView, cs: Seq<TsConfig>) -> ResolveOptionsView {
    if cs.len() == 0 {
        o
    } else {
        let modules = match first_base_url(cs) {
            Some(Some(d)) => seq![ResolveModulesView::Path(d)] + o.modules,
            _ => o.modules,
        };
        let pm = paths_map(cs);
        let import_map = if pm.dom() =~= Set::empty() {
            o.import_map
        } else {
            Some(
                match o.import_map {
                    Some(m) => m,
                    None => Map::empty(),
                }.union_prefer_right(pm),
            )
        };
        ResolveOptionsView { modules, import_map, ..o }
    }
}

/// The config that decides the base url is the first of the chain that has
/// one: the file given comes before the files it extends, so its base url
/// wins over theirs.
pub proof fn lemma_first_base_url_decides(cs: Seq<TsConfig>, i: int)
    requires
        0 <= i < cs.len(),
        cs[i].base_url is Some,
        forall|j: int| 0 <= j < i ==> (#[trigger] cs[j]).base_url is None,
    ensures
        first_base_url(cs) == Some(cs[i].base_url_dir),
    decreases i,
{
    if i > 0 {
        assert(cs[0].base_url is None);
        let rest = cs.skip(1);
        assert forall|j: int| 0 <= j < i - 1 implies (#[trigger] rest[j]).base_url is None by {
            assert(rest[j] == cs[j + 1]);
        }
        assert(rest[i - 1] == cs[i]);
        lemma_first_base_url_decides(rest, i - 1);
    }
}

/// Applying a chain of configs puts the directory of the base url of the
/// first config that has one first among the modules, before the modules
/// the options had: where the config given first has a base url joined to
/// `d`, `d` comes first whatever the configs it extends hold.
pub proof fn lemma_tsconfig_base_url_first(o: ResolveOptionsView, cs: Seq<TsConfig>, i: int, d: FileSystemPathVc)
    requires
        0 <= i < cs.len(),
        cs[i].base_url is Some,
        cs[i].base_url_dir == Some(d),
        forall|j: int| 0 <= j < i ==> (#[trigger] cs[j]).base_url is None,
    ensures
        tsconfig_options(o, cs).modules == seq![ResolveModulesView::Path(d)] + o.modules,
        tsconfig_options(o, cs).modules[0] == ResolveModulesView::Path(d),
{
    lemma_first_base_url_decides(cs, i);
}

/// Where no config of the chain has a base url, the modules stay as they
/// were.
pub proof fn lemma_tsconfig_no_base_url(o: ResolveOptionsView, cs: Seq<TsConfig>)
    requires
        forall|j: int| 0 <= j < cs.len() ==> (#[trigger] cs[j]).base_url is None,
    ensures
        tsconfig_options(o, cs).modules == o.modules,
    decreases cs.len(),
{
    if cs.len() > 0 {
        lemma_no_base_url(cs);
    }
}

proof fn lemma_no_base_url(cs: Seq<TsConfig>)
    requires
        forall|j: int| 0 <= j < cs.len() ==> (#[trigger] cs[j]).base_url is None,
    ensures
        first_base_url(cs) is None,
    decreases cs.len(),
{
    if cs.len() > 0 {
        let rest = cs.skip(1);
        assert forall|j: int| 0 <= j < rest.len() implies (#[trigger] rest[j]).base_url is None by {
            assert(rest[j] == cs[j + 1]);
        }
        lemma_no_base_url(rest);
    }
}

fn string_members(members: &Vec<Option<String>>) -> (r: Vec<String>)
    ensures
        texts(r@) == present_strings(members@),
{
    let mut r: Vec<String> = Vec::new();
    let n = members.len();
    for i in 0..n
        invariant
            n == members@.len(),
            texts(r@) == present_strings(members@.take(i as int)),
    {
        let ghost prev = r@;
        assert(members@.take(i + 1).drop_last() =~= members@.take(i as int));
        assert(members@.take(i + 1).last() == members@[i as int]);
        match &members[i] {
            Some(s) => {
                r.push(s.clone());
                assert(texts(r@) =~= texts(prev).push(s@));
            },
            None => {},
        }
    }
    assert(members@.take(n as int) =~= members@);
    r
}

/// Adds the entries of one config's `paths` to `all_paths`.
fn add_config_paths(all_paths: &mut Vec<(String, ImportMapping)>, es: &Vec<(String, Vec<Option<String>>)>, context: FileSystemPathVc)
    ensures
        mappings_view(final(all_paths)@) == add_paths(mappings_view(old(all_paths)@), es@, context),
{
    let n = es.len();
    for i in 0..n
        invariant
            n == es@.len(),
            mappings_view(all_paths@) == add_paths(mappings_view(old(all_paths)@), es@.take(i as int), context),
    {
        let ghost before = all_paths@;
        let aliases = string_members(&es[i].1);
        let mapping = ImportMapping { aliases, context: Some(context) };
        let ghost mv = mapping@;
        let key = es[i].0.clone();
        set_by_name(all_paths, key, mapping);
        proof {
            let t = es@.take(i + 1);
            assert(t.drop_last() =~= es@.take(i as int));
            assert(t.last() == es@[i as int]);
            assert(mappings_view(all_paths@) =~= mappings_view(before).insert(es@[i as int].0@, mv));
        }
    }
    assert(es@.take(n as int) =~= es@);
}

/// Applies a chain of `tsconfig.json` files, the file given first and each
/// file it extends after it, to resolve options.
pub fn apply_tsconfig(resolve_options: ResolveOptions, configs: &Vec<TsConfig>) -> (r: ResolveOptions)
    ensures
        r@ == tsconfig_options(resolve_options@, configs@),
{
    let n = configs.len();
    if n == 0 {
        return resolve_options;
    }
    let mut resolve_options = resolve_options;
    let ghost o = resolve_options@;
    let mut i: usize = 0;
    assert(configs@.skip(0) =~= configs@);
    while i < n && configs[i].base_url.is_none()
        invariant
            n == configs@.len(),
            i <= n,
            first_base_url(configs@) == first_base_url(configs@.skip(i as int)),
        decreases n - i,
    {
        assert(configs@.skip(i as int).skip(1) =~= configs@.skip(i + 1));
        i = i + 1;
    }
    if i < n {
        match configs[i].base_url_dir {
            Some(d) => {
                resolve_options.modules.insert(0, ResolveModules::Path(d));
            },
            None => {},
        }
    } else {
        assert(configs@.skip(n as int).len() == 0);
    }
    assert(resolve_options@.modules =~= (match first_base_url(configs@) {
        Some(Some(d)) => seq![ResolveModulesView::Path(d)] + o.modules,
        _ => o.modules,
    }));
    let mut all_paths: Vec<(String, ImportMapping)> = Vec::new();
    assert(mappings_view(all_paths@) =~= Map::empty()) by {
        assert(keyed(all_paths@) =~= Seq::empty());
    }
    let mut j: usize = n;
    assert(configs@.skip(n as int) =~= Seq::empty());
    while j > 0
        invariant
            n == configs@.len(),
            j <= n,
            mappings_view(all_paths@) == paths_map(configs@.skip(j as int)),
        decreases j,
    {
        j = j - 1;
        let c = &configs[j];
        assert(configs@.skip(j as int).skip(1) =~= configs@.skip(j + 1));
        assert(configs@.skip(j as int)[0] == configs@[j as int]);
        match &c.paths {
            Some(es) => {
                let context = match (&c.base_url, c.base_url_dir) {
                    (Some(_), Some(d)) => d,
                    _ => c.dir,
                };
                add_config_paths(&mut all_paths, es, context);
            },
            None => {},
        }
    }
    assert(configs@.skip(0) =~= configs@);
    proof {
        lemma_map_of_dom(keyed(all_paths@));
    }
    if all_paths.len() > 0 {
        proof {
            assert(keyed(all_paths@)[0].0 == all_paths@[0].0@);
            assert(mappings_view(all_paths@).dom().contains(all_paths@[0].0@));
            assert(!(paths_map(configs@).dom() =~= Set::empty()));
        }
        let mut import_map = match resolve_options.import_map {
            Some(m) => m,
            None => ImportMap::default(),
        };
        let ghost base = import_map@;
        let ghost pm = mappings_view(all_paths@);
        let ghost ap = all_paths@;
        let m = all_paths.len();
        let mut rest = all_paths;
        let mut k: usize = 0;
        while rest.len() > 0
            invariant
                ap.len() == m,
                k <= m,
                rest@ == ap.skip(k as int),
                import_map@ == base.union_prefer_right(mappings_view(ap.take(k as int))),
            decreases rest@.len(),
        {
            assert(ap.skip(k as int)[0] == ap[k as int]);
            let (key, value) = rest.remove(0);
            assert(rest@ =~= ap.skip(k + 1));
            let ghost before = import_map@;
            let ghost kv = key@;
            let ghost vv = value@;
            assert(kv == ap[k as int].0@ && vv == ap[k as int].1@);
            set_by_name(&mut import_map.direct, key, value);
            assert(import_map@ =~= before.insert(kv, vv));
            proof {
                let t = ap.take(k + 1);
                assert(t.drop_last() =~= ap.take(k as int));
                assert(keyed(t).drop_last() =~= keyed(ap.take(k as int)));
                assert(keyed(t).last() == (ap[k as int].0@, ap[k as int].1));
                assert(mappings_view(t) =~= mappings_view(ap.take(k as int)).insert(ap[k as int].0@, ap[k as int].1@));
                assert(import_map@ =~= base.union_prefer_right(mappings_view(t)));
            }
            k = k + 1;
        }
        assert(ap.skip(k as int).len() == 0);
        assert(ap.take(k as int) =~= ap);
        resolve_options.import_map = Some(import_map);
    } else {
        proof {
            assert(keyed(all_paths@) =~= Seq::empty());
            assert(paths_map(configs@).dom() =~= Set::empty());
        }
    }
    assert(resolve_options@ == tsconfig_options(o, configs@));
    resolve_options
}

/// A request, as far as type resolution reads it.
#[derive(Clone, Debug)]
pub enum Request {
    /// A request into a package: the package's name and the path inside it.
    Module { module: String, path: String },
    /// Any other request.
    Other(RequestVc),
}

/// A request as a mathematical value.
pub enum RequestView {
    Module { module: Seq<char>, path: Seq<char> },
    Other(RequestVc),
}

impl View for Request {
    type V = RequestView;

    open spec fn view(&self) -> RequestView {
        match self {
            Request::Module { module, path } => RequestView::Module { module: module@, path: path@ },
            Request::Other(r) => RequestView::Other(*r),
        }
    }
}

/// `s` with every `/` written as `__`.
pub open spec fn replace_slashes(s: Seq<char>) -> Seq<char>
    decreases s.len(),
{
    if s.len() == 0 {
        Seq::empty()
    } else if s.last() == '/' {
        replace_slashes(s.drop_last()) + "__"@
    } else {
        replace_slashes(s.drop_last()).push(s.last())
    }
}

/// The package that holds the types of package `m`: `@types/m`, where a
/// scoped name `@scope/name` becomes `@types/scope__name`.
pub open spec fn types_package(m: Seq<char>) -> Seq<char> {
    "@types/"@ + if m.len() > 0 && m[0] == '@' {
        replace_slashes(m.skip(1))
    } else {
        m
    }
}

/// The request for the types of a package request, with the same path.
pub open spec fn types_request_spec(r: RequestView) -> Option<RequestView> {
    match r {
        RequestView::Module { module, path } => Some(RequestView::Module { module: types_package(module), path }),
        RequestView::Other(_) => None,
    }
}

/// The name of the types package of package `m`.
pub fn types_package_name(m: &str) -> (r: String)
    ensures
        r@ == types_package(m@),
{
    let mut out = String::from_str("@types/");
    let n = m.unicode_len();
    if n > 0 && m.get_char(0) == '@' {
        let mut i: usize = 1;
        while i < n
            invariant
                n == m@.len(),
                1 <= i <= n,
                out@ == "@types/"@ + replace_slashes(m@.skip(1).take(i - 1)),
            decreases n - i,
        {
            let c = m.get_char(i);
            let ghost prev = m@.skip(1).take(i - 1);
            let ghost next = m@.skip(1).take(i as int);
            assert(next.drop_last() =~= prev);
            assert(next.last() == c);
            if c == '/' {
                out.append("__");
            } else {
                push_char(&mut out, c);
            }
            assert(out@ =~= "@types/"@ + replace_slashes(next));
            i = i + 1;
        }
        assert(m@.skip(1).take(n - 1) =~= m@.skip(1));
        out
    } else {
        out.append(m);
        out
    }
}

/// The request for the types of `request`, where it is a package request.
pub fn types_request(request: &Request) -> (r: Option<Request>)
    ensures
        match r {
            Some(t) => types_request_spec(request@) == Some(t@),
            None => types_request_spec(request@) is None,
        },
{
    match request {
        Request::Module { module, path } => Some(Request::Module { module: types_package_name(module.as_str()), path: path.clone() }),
        Request::Other(_) => None,
    }
}

/// How a request for types is resolved: `first` is resolved; where that
/// resolves to nothing and there is a `fallback`, the fallback's result is
/// taken instead.
#[derive(Clone, Debug)]
pub struct TypeResolvePlan {
    pub first: Request,
    pub fallback: Option<Request>,
}

/// The plan for a request for types: the request itself, and for a package
/// request its `@types/` package as the fallback.
pub fn type_resolve_plan(request: &Request) -> (r: TypeResolvePlan)
    ensures
        r.first@ == request@,
        match r.fallback {
            Some(t) => types_request_spec(request@) == Some(t@),
            None => types_request_spec(request@) is None,
        },
{
    let first = match request {
        Request::Module { module, path } => Request::Module { module: module.clone(), path: path.clone() },
        Request::Other(r) => Request::Other(*r),
    };
    TypeResolvePlan { first, fallback: types_request(request) }
}

/// After the first request of a plan was resolved: where that found
/// nothing and the plan has a fallback, the fallback is the request to
/// resolve next, whose result is taken instead; otherwise (none) the first
/// result stands.
pub fn type_resolve_next(plan: &TypeResolvePlan, first_unresolveable: bool) -> (r: Option<Request>)
    ensures
        match r {
            Some(t) => first_unresolveable && (plan.fallback matches Some(f) && t@ == f@),
            None => !first_unresolveable || plan.fallback is None,
        },
{
    if !first_unresolveable {
        return None;
    }
    match &plan.fallback {
        Some(Request::Module { module, path }) => Some(Request::Module { module: module.clone(), path: path.clone() }),
        Some(Request::Other(r)) => Some(Request::Other(*r)),
        None => None,
    }
}

/// A reference to the type declarations that a request stands for.
#[derive(Clone, Copy, Debug, PartialEq, Eq)]
pub struct TypescriptTypesAssetReference {
    pub context: AssetContextVc,
    pub request: RequestVc,
}

impl TypescriptTypesAssetReference {
    /// How the reference resolves, given the request that it holds: by the
    /// plan for types of that request.
    pub fn resolve_plan(&self, request: &Request) -> (r: TypeResolvePlan)
        ensures
            r.first@ == request@,
            match r.fallback {
                Some(t) => types_request_spec(request@) == Some(t@),
                None => types_request_spec(request@) is None,
            },
    {
        type_resolve_plan(request)
    }
}

/// The reference as the task that creates it gives it back.
#[derive(Clone, Copy, Debug)]
pub struct TypescriptTypesAssetReferenceVc {
    reference: TypescriptTypesAssetReference,
}

impl TypescriptTypesAssetReferenceVc {
    /// The reference this handle holds.
    pub closed spec fn reference_spec(self) -> TypescriptTypesAssetReference {
        self.reference
    }

    /// A reference to the types of `request`, resolved in `context`.
    pub fn new(context: AssetContextVc, request: RequestVc) -> (r: Self)
        ensures
            r.reference_spec() == (TypescriptTypesAssetReference { context, request }),
    {
        TypescriptTypesAssetReferenceVc { reference: TypescriptTypesAssetReference { context, request } }
    }

    /// The reference this handle holds.
    pub fn get(&self) -> (r: &TypescriptTypesAssetReference)
        ensures
            *r == self.reference_spec(),
    {
        &self.reference
    }
}

} // verus!

verus! {

proof fn lemma_types_into_packages_append(a: Seq<ResolveIntoPackageView>, b: Seq<ResolveIntoPackageView>)
    ensures
        types_into_packages(a + b) == types_into_packages(a) + types_into_packages(b),
    decreases b.len(),
{
    if b.len() == 0 {
        assert(a + b =~= a);
        assert(types_into_packages(a) + types_into_packages(b) =~= types_into_packages(a));
    } else {
        lemma_types_into_packages_append(a, b.drop_last());
        assert((a + b).drop_last() =~= a + b.drop_last());
        assert((a + b).last() == b.last());
        match types_into_package(b.last()) {
            Some(p) => {
                assert(types_into_packages(a) + types_into_packages(b) =~= (types_into_packages(a)
                    + types_into_packages(b.drop_last())).push(p));
            },
            None => {},
        }
    }
}

proof fn lemma_types_into_packages_twice(ps: Seq<ResolveIntoPackageView>)
    ensures
        types_into_packages(types_into_packages(ps)) == types_into_packages(ps),
    decreases ps.len(),
{
    if ps.len() > 0 {
        let rest = types_into_packages(ps.drop_last());
        lemma_types_into_packages_twice(ps.drop_last());
        match types_into_package(ps.last()) {
            Some(p) => {
                match p {
                    ResolveIntoPackageView::ExportsField { field, conditions, unspecified_conditions } => {
                        assert(conditions.insert("types"@, ConditionValue::IsSet) =~= conditions);
                    },
                    _ => {},
                }
                assert(rest.push(p).drop_last() =~= rest);
                assert(types_into_package(p) == Some(p));
            },
            None => {},
        }
    }
}

/// Setting up resolution for type declarations twice is the same as doing it
/// once.
pub proof fn lemma_types_options_idempotent(o: ResolveOptionsView, o1: ResolveOptionsView, o2: ResolveOptionsView)
    requires
        o1 == (ResolveOptionsView {
            extensions: seq![".ts"@, ".tsx"@, ".d.ts"@],
            into_package: types_into_packages(o.into_package) + seq![
                ResolveIntoPackageView::MainField("types"@),
                ResolveIntoPackageView::Default("index"@),
            ],
            ..o
        }),
        o2 == (ResolveOptionsView {
            extensions: seq![".ts"@, ".tsx"@, ".d.ts"@],
            into_package: types_into_packages(o1.into_package) + seq![
                ResolveIntoPackageView::MainField("types"@),
                ResolveIntoPackageView::Default("index"@),
            ],
            ..o1
        }),
    ensures
        o2 == o1,
{
    let tail = seq![
        ResolveIntoPackageView::MainField("types"@),
        ResolveIntoPackageView::Default("index"@),
    ];
    lemma_types_into_packages_append(types_into_packages(o.into_package), tail);
    lemma_types_into_packages_twice(o.into_package);
    assert(tail.drop_last().drop_last() =~= Seq::<ResolveIntoPackageView>::empty());
    assert(tail.drop_last() =~= seq![ResolveIntoPackageView::MainField("types"@)]);
    assert(types_into_packages(tail.drop_last().drop_last()) =~= Seq::<ResolveIntoPackageView>::empty());
    assert(types_into_packages(tail.drop_last()) =~= Seq::<ResolveIntoPackageView>::empty());
    assert(types_into_packages(tail) =~= Seq::<ResolveIntoPackageView>::empty());
    assert(o2.into_package =~= o1.into_package);
}

/// A config chain with neither a base url nor paths gives no mappings and
/// no base url.
proof fn lemma_plain_configs(cs: Seq<TsConfig>)
    requires
        forall|i: int| 0 <= i < cs.len() ==> (#[trigger] cs[i]).base_url is None && cs[i].paths is None,
    ensures
        first_base_url(cs) is None,
        paths_map(cs) == Map::<Seq<char>, ImportMappingView>::empty(),
    decreases cs.len(),
{
    if cs.len() > 0 {
        assert(cs[0].base_url is None && cs[0].paths is None);
        assert forall|i: int| 0 <= i < cs.skip(1).len() implies (#[trigger] cs.skip(1)[i]).base_url is None
            && cs.skip(1)[i].paths is None by {
            assert(cs.skip(1)[i] == cs[i + 1]);
        }
        lemma_plain_configs(cs.skip(1));
    }
}

/// Config files that set neither `baseUrl` nor `paths` leave the resolve
/// options as they are.
pub proof fn lemma_plain_tsconfig_changes_nothing(o: ResolveOptionsView, cs: Seq<TsConfig>)
    requires
        forall|i: int| 0 <= i < cs.len() ==> (#[trigger] cs[i]).base_url is None && cs[i].paths is None,
    ensures
        tsconfig_options(o, cs) == o,
{
    if cs.len() > 0 {
        lemma_plain_configs(cs);
        assert(paths_map(cs).dom() =~= Set::empty());
    }
}

} // verus!

verus! {

/// What reading a `tsconfig.json` file gave.
#[derive(Clone, Debug)]
pub enum TsConfigContent {
    /// The file is not valid JSON.
    Unparseable,
    /// There is no such file.
    NotFound,
    /// The file's JSON, as far as the chain reads it: the `extends` field
    /// where it is a string.
    Content { extends: Option<String> },
}

/// Why reading a chain of config files stopped early.
#[derive(Clone, Copy, Debug, PartialEq, Eq, Structural)]
pub enum TsConfigError {
    /// A file of the chain is not valid JSON.
    InvalidJson,
    /// A file of the chain does not exist.
    NotFound,
    /// The `extends` of a file does not resolve to exactly one file.
    ExtendsUnresolved,
}

/// What the reading of a chain of config files does after reading one file.
#[derive(Clone, Debug)]
pub enum TsConfigStep {
    /// The chain ends here; where reading failed, the file is not part of
    /// the chain and the error is reported.
    Stop { error: Option<TsConfigError> },
    /// The file is part of the chain, and the request it extends is to be
    /// resolved next.
    Extends(String),
}

/// The step after a file read as `content`: a file that could not be read
/// ends the chain with its error, a file without `extends` ends it, else the
/// extended request comes next.
pub fn tsconfig_step(content: &TsConfigContent) -> (r: TsConfigStep)
    ensures
        match content {
            TsConfigContent::Unparseable => r matches TsConfigStep::Stop { error: Some(TsConfigError::InvalidJson) },
            TsConfigContent::NotFound => r matches TsConfigStep::Stop { error: Some(TsConfigError::NotFound) },
            TsConfigContent::Content { extends: None } => r matches TsConfigStep::Stop { error: None },
            TsConfigContent::Content { extends: Some(e) } => r matches TsConfigStep::Extends(x) && x@ == e@,
        },
{
    match content {
        TsConfigContent::Unparseable => TsConfigStep::Stop { error: Some(TsConfigError::InvalidJson) },
        TsConfigContent::NotFound => TsConfigStep::Stop { error: Some(TsConfigError::NotFound) },
        TsConfigContent::Content { extends: None } => TsConfigStep::Stop { error: None },
        TsConfigContent::Content { extends: Some(e) } => TsConfigStep::Extends(e.clone()),
    }
}

/// The step after resolving the request a file extends: the chain goes on
/// with the one file it resolved to, else it ends with an error.
pub fn tsconfig_extends_step(resolved_single: bool) -> (r: Option<TsConfigError>)
    ensures
        r == if resolved_single {
            None
        } else {
            Some(TsConfigError::ExtendsUnresolved)
        },
{
    if resolved_single {
        None
    } else {
        Some(TsConfigError::ExtendsUnresolved)
    }
}

/// The report of an error, given the text of the file's path.
pub open spec fn tsconfig_error_text(error: TsConfigError, path: Seq<char>) -> Seq<char> {
    match error {
        TsConfigError::InvalidJson => "ERR "@ + path + " is invalid JSON"@,
        TsConfigError::NotFound => "ERR "@ + path + " not found"@,
        TsConfigError::ExtendsUnresolved => "ERR extends in "@ + path + " doesn't resolve correctly"@,
    }
}

/// The line that reports `error` for the file at `path`.
pub fn tsconfig_error_message(error: TsConfigError, path: &str) -> (r: String)
    ensures
        r@ == tsconfig_error_text(error, path@),
{
    match error {
        TsConfigError::InvalidJson => String::from_str("ERR ").concat(path).concat(" is invalid JSON"),
        TsConfigError::NotFound => String::from_str("ERR ").concat(path).concat(" not found"),
        TsConfigError::ExtendsUnresolved => String::from_str("ERR extends in ").concat(path).concat(
            " doesn't resolve correctly",
        ),
    }
}

} // verus!

verus! {

proof fn lemma_add_paths_key(
    m: Map<Seq<char>, ImportMappingView>,
    es: Seq<(String, Vec<Option<String>>)>,
    context: FileSystemPathVc,
    k: Seq<char>,
)
    requires
        exists|i: int| 0 <= i < es.len() && es[i].0@ == k,
    ensures
        add_paths(m, es, context).dom().contains(k),
        add_paths(m, es, context)[k].context == Some(context),
    decreases es.len(),
{
    if es.last().0@ != k {
        let i = choose|i: int| 0 <= i < es.len() && es[i].0@ == k;
        assert(i < es.len() - 1);
        assert(es.drop_last()[i].0@ == k);
        lemma_add_paths_key(m, es.drop_last(), context, k);
    }
}

/// The `paths` of a config win over those of the configs it extends: a key
/// that the first config of a chain maps is resolved from that config's
/// directory.
pub proof fn lemma_first_config_paths_win(cs: Seq<TsConfig>, k: Seq<char>)
    requires
        cs.len() > 0,
        cs[0].paths matches Some(es) && exists|i: int| 0 <= i < es@.len() && es@[i].0@ == k,
    ensures
        paths_map(cs).dom().contains(k),
        paths_map(cs)[k].context == Some(paths_context(cs[0])),
{
    let es = cs[0].paths->0;
    lemma_add_paths_key(paths_map(cs.skip(1)), es@, paths_context(cs[0]), k);
}

} // verus!
