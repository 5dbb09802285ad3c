//! The registered protocols.
use vstd::prelude::*;

use crate::bytes::ParseError;
use crate::identity::{self, CondenseSpec, Identity, StreamIdentity};
use crate::layer::{
    self, Confidence, Context, LayerPlugin, ParseCtx, Parsed, ParsedLayer, RouteId, RouteView,
};
use crate::text::str_eq;
use crate::value::ProtocolName;

verus! {

/// What the aggregator needs to know of a protocol.
#[verifier::ext_equal]
pub struct Rules {
    pub identity: Option<Identity>,
    pub condense: Option<CondenseSpec>,
}

/// A registered protocol: its name, the routes that lead to it, its rules, how it
/// reads a header, and how it is recognised without a route: whether it can be, how
/// sure it is of some bytes, and the protocols that it is expected to follow.
#[verifier::ext_equal]
pub struct Registration {
    pub name: Seq<char>,
    pub claims: Seq<RouteView>,
    pub rules: Rules,
    pub parse: spec_fn(Seq<u8>, Context) -> Result<Parsed, ParseError>,
    pub has_probe: bool,
    pub probe: spec_fn(Seq<u8>, Context) -> Option<u8>,
    pub predecessors: Seq<Seq<char>>,
}

/// The contents of some routes.
pub open spec fn routes_view(s: Seq<RouteId>) -> Seq<RouteView> {
    Seq::new(s.len(), |i: int| s[i]@)
}

/// The contents of some names.
pub open spec fn names_view(s: Seq<ProtocolName>) -> Seq<Seq<char>> {
    Seq::new(s.len(), |i: int| s[i]@)
}

/// What a plugin registers.
pub open spec fn registration<P: LayerPlugin + ?Sized>(p: &P) -> Registration {
    Registration {
        name: p.spec_name(),
        claims: routes_view(p.spec_claims()),
        rules: Rules { identity: p.spec_identity(), condense: p.spec_condense() },
        parse: |bytes: Seq<u8>, ctx: Context| p.spec_parse(bytes, ctx),
        has_probe: p.spec_has_probe(),
        probe: |bytes: Seq<u8>, ctx: Context| p.spec_probe(bytes, ctx),
        predecessors: names_view(p.spec_predecessors()),
    }
}

/// The first registration of a name from `i` on.
pub open spec fn named(list: Seq<Registration>, name: Seq<char>, i: int) -> Option<Rules>
    decreases list.len() - i,
{
    if i < 0 || i >= list.len() {
        None
    } else if list[i].name == name {
        Some(list[i].rules)
    } else {
        named(list, name, i + 1)
    }
}

/// Why a set of protocols cannot be registered together.
#[derive(Clone, Copy, PartialEq, Eq, Debug)]
pub enum BuildError {
    /// Two protocols have one name.
    DuplicateName(ProtocolName),
    /// A route leads to two places.
    DuplicateClaim(RouteId),
}

/// Whether a name is among the first `n` registrations.
pub open spec fn name_taken(list: Seq<Registration>, n: int, name: Seq<char>) -> bool {
    exists|i: int| 0 <= i < n && (#[trigger] list[i]).name == name
}

/// Whether `r` is the first registration of its name.
pub open spec fn is_first(list: Seq<Registration>, r: Registration) -> bool {
    exists|i: int|
        0 <= i < list.len() && #[trigger] list[i] == r && !name_taken(list, i, r.name)
}

/// Whether a route is among the claims of the first `n` registrations.
pub open spec fn claim_taken(list: Seq<Registration>, n: int, route: RouteView) -> bool {
    exists|i: int| 0 <= i < n && (#[trigger] list[i]).claims.contains(route)
}

/// Whether no name occurs twice, and no claim.
pub open spec fn collision_free(list: Seq<Registration>) -> bool {
    &&& forall|i: int| 0 <= i < list.len() ==> !name_taken(list, i, (#[trigger] list[i]).name)
    &&& forall|i: int, k: int|
        0 <= i < list.len() && 0 <= k < list[i].claims.len() ==> !claim_taken(
            list,
            i,
            #[trigger] list[i].claims[k],
        ) && !list[i].claims.take(k).contains(list[i].claims[k])
}

/// A plugin on its way behind a trait object: it answers as the plugin does.
struct Shim<P> {
    plugin: P,
}

impl<P: LayerPlugin> LayerPlugin for Shim<P> {
    closed spec fn spec_parse(&self, bytes: Seq<u8>, ctx: Context) -> Result<Parsed, ParseError> {
        self.plugin.spec_parse(bytes, ctx)
    }

    closed spec fn spec_name(&self) -> Seq<char> {
        self.plugin.spec_name()
    }

    closed spec fn spec_claims(&self) -> Seq<RouteId> {
        self.plugin.spec_claims()
    }

    closed spec fn spec_identity(&self) -> Option<Identity> {
        self.plugin.spec_identity()
    }

    closed spec fn spec_condense(&self) -> Option<CondenseSpec> {
        self.plugin.spec_condense()
    }

    closed spec fn spec_has_probe(&self) -> bool {
        self.plugin.spec_has_probe()
    }

    closed spec fn spec_probe(&self, bytes: Seq<u8>, ctx: Context) -> Option<u8> {
        self.plugin.spec_probe(bytes, ctx)
    }

    closed spec fn spec_predecessors(&self) -> Seq<ProtocolName> {
        self.plugin.spec_predecessors()
    }

    fn name(&self) -> (r: ProtocolName) {
        self.plugin.name()
    }

    fn parse(&self, bytes: &[u8], ctx: &ParseCtx) -> (r: Result<ParsedLayer, ParseError>) {
        self.plugin.parse(bytes, ctx)
    }

    fn claims(&self) -> (r: &'static [RouteId]) {
        self.plugin.claims()
    }

    fn stream_identity(&self) -> (r: Option<StreamIdentity>) {
        self.plugin.stream_identity()
    }

    fn condense(&self) -> (r: Option<CondenseSpec>) {
        self.plugin.condense()
    }

    fn has_probe(&self) -> (r: bool) {
        self.plugin.has_probe()
    }

    fn probe(&self, bytes: &[u8], ctx: &ParseCtx) -> (r: Option<Confidence>) {
        self.plugin.probe(bytes, ctx)
    }

    fn expected_predecessors(&self) -> (r: &'static [ProtocolName]) {
        self.plugin.expected_predecessors()
    }
}

/// One registered protocol.
pub struct Registered {
    plugin: Box<dyn LayerPlugin>,
}

impl Registered {
    fn new<P: LayerPlugin + 'static>(p: P) -> (r: Registered)
        ensures
            r.view() == registration(&p),
    {
        let r = Registered { plugin: Box::new(Shim { plugin: p }) };
        assert(r.view() =~= registration(&p));
        r
    }

    /// What is registered.
    pub closed spec fn view(&self) -> Registration {
        registration(&*self.plugin)
    }

    pub fn name(&self) -> (r: ProtocolName)
        ensures
            r@ == self.view().name,
    {
        self.plugin.name()
    }

    pub fn claims(&self) -> (r: &'static [RouteId])
        ensures
            routes_view(r@) == self.view().claims,
    {
        self.plugin.claims()
    }

    pub fn stream_identity(&self) -> (r: Option<StreamIdentity>)
        ensures
            identity::identity_view(r) == self.view().rules.identity,
    {
        self.plugin.stream_identity()
    }

    pub fn condense(&self) -> (r: Option<CondenseSpec>)
        ensures
            r == self.view().rules.condense,
    {
        self.plugin.condense()
    }

    pub fn has_probe(&self) -> (r: bool)
        ensures
            r == self.view().has_probe,
    {
        self.plugin.has_probe()
    }

    /// How sure the protocol is that `bytes` are its own, if at all.
    pub fn probe(&self, bytes: &[u8], ctx: &ParseCtx) -> (r: Option<Confidence>)
        ensures
            layer::score_of(r) == (self.view().probe)(bytes@, ctx@),
    {
        self.plugin.probe(bytes, ctx)
    }

    pub fn expected_predecessors(&self) -> (r: &'static [ProtocolName])
        ensures
            names_view(r@) == self.view().predecessors,
    {
        self.plugin.expected_predecessors()
    }

    /// The plugin itself: it has the name, the claims and the rules that are
    /// registered, and parses and probes as the protocol that was registered does.
    pub fn plugin(&self) -> (r: &Box<dyn LayerPlugin>)
        ensures
            registration(&**r) == self.view(),
    {
        &self.plugin
    }
}

spec fn registrations(plugins: Seq<Registered>) -> Seq<Registration> {
    Seq::new(plugins.len(), |i: int| plugins[i].view())
}

/// The registered protocols, in the order of registration.
pub struct Engine {
    plugins: Vec<Registered>,
}

/// Collects the protocols of an [`Engine`].
pub struct EngineBuilder {
    plugins: Vec<Registered>,
}

impl Engine {
    /// What is registered.
    pub closed spec fn view(&self) -> Seq<Registration> {
        registrations(self.plugins@)
    }

    pub fn builder() -> (r: EngineBuilder)
        ensures
            r.view() == Seq::<Registration>::empty(),
    {
        let r = EngineBuilder { plugins: Vec::new() };
        assert(r.view() =~= Seq::empty());
        r
    }

    /// The protocol of a name.
    pub fn plugin_by_name(&self, name: &str) -> (r: Option<&Registered>)
        ensures
            match r {
                Some(p) => p.view().name == name@ && named(self.view(), name@, 0) == Some(
                    p.view().rules,
                ) && is_first(self.view(), p.view()),
                None => named(self.view(), name@, 0) is None,
            },
    {
        let n: usize = self.plugins.len();
        let mut i: usize = 0;
        while i < n
            invariant
                n == self.plugins@.len(),
                i <= n,
                named(self.view(), name@, 0) == named(self.view(), name@, i as int),
                !name_taken(self.view(), i as int, name@),
            decreases n - i,
        {
            assert(self.view()[i as int] == self.plugins@[i as int].view());
            if str_eq(self.plugins[i].name(), name) {
                return Some(&self.plugins[i]);
            }
            i = i + 1;
        }
        None
    }
}

impl EngineBuilder {
    /// What has been collected.
    pub closed spec fn view(&self) -> Seq<Registration> {
        registrations(self.plugins@)
    }

    /// Adds a protocol.
    pub fn plugin<P: LayerPlugin + 'static>(self, p: P) -> (r: EngineBuilder)
        ensures
            r.view() == self.view().push(registration(&p)),
    {
        let entry = Registered::new(p);
        let mut plugins = self.plugins;
        plugins.push(entry);
        let r = EngineBuilder { plugins };
        assert(r.view() =~= self.view().push(registration(&p)));
        r
    }

    /// Whether a name is among the first `n` protocols.
    fn has_name(&self, n: usize, name: &str) -> (r: bool)
        requires
            n <= self.view().len(),
        ensures
            r == name_taken(self.view(), n as int, name@),
    {
        let mut i: usize = 0;
        while i < n
            invariant
                i <= n <= self.plugins@.len(),
                forall|j: int| 0 <= j < i ==> (#[trigger] self.view()[j]).name != name@,
            decreases n - i,
        {
            assert(self.view()[i as int] == self.plugins@[i as int].view());
            if str_eq(self.plugins[i].name(), name) {
                return true;
            }
            i = i + 1;
        }
        false
    }

    /// Whether a route is among the claims of the first `n` protocols.
    fn has_claim(&self, n: usize, route: &RouteId) -> (r: bool)
        requires
            n <= self.view().len(),
        ensures
            r == claim_taken(self.view(), n as int, route@),
    {
        let mut i: usize = 0;
        while i < n
            invariant
                i <= n <= self.plugins@.len(),
                forall|j: int| 0 <= j < i ==> !(#[trigger] self.view()[j]).claims.contains(route@),
            decreases n - i,
        {
            assert(self.view()[i as int] == self.plugins@[i as int].view());
            let claims = self.plugins[i].claims();
            if listed(claims, claims.len(), route) {
                assert(routes_view(claims@).take(claims@.len() as int) =~= routes_view(claims@));
                return true;
            }
            assert(routes_view(claims@).take(claims@.len() as int) =~= routes_view(claims@));
            i = i + 1;
        }
        false
    }

    /// Registers what was collected, unless two of them collide.
    pub fn build(self) -> (r: Result<Engine, BuildError>)
        ensures
            match r {
                Ok(e) => collision_free(self.view()) && e.view() == self.view(),
                Err(e) => !collision_free(self.view()) && is_collision(self.view(), e),
            },
    {
        let n: usize = self.plugins.len();
        let mut i: usize = 0;
        while i < n
            invariant
                n == self.plugins@.len(),
                n == self.view().len(),
                i <= n,
                forall|j: int|
                    0 <= j < i ==> !name_taken(self.view(), j, (#[trigger] self.view()[j]).name),
                forall|j: int, k: int|
                    0 <= j < i && 0 <= k < self.view()[j].claims.len() ==> !claim_taken(
                        self.view(),
                        j,
                        #[trigger] self.view()[j].claims[k],
                    ) && !self.view()[j].claims.take(k).contains(self.view()[j].claims[k]),
            decreases n - i,
        {
            let entry = &self.plugins[i];
            assert(self.view()[i as int] == entry.view());
            if self.has_name(i, entry.name()) {
                assert(name_taken(self.view(), i as int, self.view()[i as int].name));
                return Err(BuildError::DuplicateName(entry.name()));
            }
            let claims = entry.claims();
            let m: usize = claims.len();
            let mut k: usize = 0;
            while k < m
                invariant
                    i < n == self.plugins@.len(),
                    n == self.view().len(),
                    m == claims@.len(),
                    k <= m,
                    self.view()[i as int].claims == routes_view(claims@),
                    forall|c: int|
                        0 <= c < k ==> !claim_taken(
                            self.view(),
                            i as int,
                            #[trigger] self.view()[i as int].claims[c],
                        ) && !self.view()[i as int].claims.take(c).contains(
                            self.view()[i as int].claims[c],
                        ),
                decreases m - k,
            {
                let route = claims[k];
                assert(self.view()[i as int].claims[k as int] == route@);
                if self.has_claim(i, &route) || listed(claims, k, &route) {
                    return Err(BuildError::DuplicateClaim(route));
                }
                k = k + 1;
            }
            i = i + 1;
        }
        let ghost list = self.view();
        let e = Engine { plugins: self.plugins };
        assert(e.view() == list);
        Ok(e)
    }
}

/// Whether an error names something that occurs twice.
pub open spec fn is_collision(list: Seq<Registration>, e: BuildError) -> bool {
    match e {
        BuildError::DuplicateName(name) => exists|i: int|
            0 <= i < list.len() && (#[trigger] list[i]).name == name@ && name_taken(list, i, name@),
        BuildError::DuplicateClaim(route) => exists|i: int, k: int|
            0 <= i < list.len() && 0 <= k < list[i].claims.len() && #[trigger] list[i].claims[k]
                == route@ && (claim_taken(list, i, route@) || list[i].claims.take(k).contains(
                route@,
            )),
    }
}

/// Whether a route is among the first `n` of some routes.
fn listed(routes: &[RouteId], n: usize, route: &RouteId) -> (r: bool)
    requires
        n <= routes@.len(),
    ensures
        r == routes_view(routes@).take(n as int).contains(route@),
{
    let ghost head = routes_view(routes@).take(n as int);
    let mut i: usize = 0;
    while i < n
        invariant
            i <= n <= routes@.len(),
            head == routes_view(routes@).take(n as int),
            forall|j: int| 0 <= j < i ==> head[j] != route@,
        decreases n - i,
    {
        assert(head[i as int] == routes@[i as int]@);
        if routes[i].same(route) {
            return true;
        }
        i = i + 1;
    }
    false
}

/// Protocols go together exactly if they have different names, and no route is claimed
/// twice, be it by two of them or by one.
pub proof fn routes_lead_one_way(list: Seq<Registration>)
    ensures
        collision_free(list) <==> {
            &&& forall|i: int, j: int|
                0 <= i < j < list.len() ==> (#[trigger] list[i]).name != (#[trigger] list[j]).name
            &&& forall|i: int, j: int, r: RouteView|
                0 <= i < j < list.len() && #[trigger] list[i].claims.contains(r)
                    ==> !#[trigger] list[j].claims.contains(r)
            &&& forall|i: int| 0 <= i < list.len() ==> (#[trigger] list[i]).claims.no_duplicates()
        },
{
    if collision_free(list) {
        assert forall|i: int, j: int| 0 <= i < j < list.len() implies (#[trigger] list[i]).name
            != (#[trigger] list[j]).name by {
            assert(!name_taken(list, j, list[j].name));
        }
        assert forall|i: int, j: int, r: RouteView|
            0 <= i < j < list.len() && #[trigger] list[i].claims.contains(r) implies
            !#[trigger] list[j].claims.contains(r) by {
            if list[j].claims.contains(r) {
                let k = list[j].claims.index_of(r);
                assert(list[j].claims[k] == r);
                assert(!claim_taken(list, j, list[j].claims[k]));
            }
        }
        assert forall|i: int| 0 <= i < list.len() implies (
        #[trigger] list[i]).claims.no_duplicates() by {
            let c = list[i].claims;
            assert forall|m: int, k: int| 0 <= m < c.len() && 0 <= k < c.len() && m != k implies
                c[m] != c[k] by {
                let (lo, hi) = if m < k {
                    (m, k)
                } else {
                    (k, m)
                };
                assert(!list[i].claims.take(hi).contains(list[i].claims[hi]));
                assert(c.take(hi)[lo] == c[lo]);
            }
        }
    } else if forall|i: int, j: int|
        0 <= i < j < list.len() ==> (#[trigger] list[i]).name != (#[trigger] list[j]).name {
        assert forall|i: int| 0 <= i < list.len() implies !name_taken(
            list,
            i,
            (#[trigger] list[i]).name,
        ) by {}
        let (i, k) = choose|i: int, k: int|
            0 <= i < list.len() && 0 <= k < list[i].claims.len() && !(!claim_taken(
                list,
                i,
                #[trigger] list[i].claims[k],
            ) && !list[i].claims.take(k).contains(list[i].claims[k]));
        let r = list[i].claims[k];
        if claim_taken(list, i, r) {
            let j = choose|j: int| 0 <= j < i && (#[trigger] list[j]).claims.contains(r);
            assert(list[j].claims.contains(r) && list[i].claims.contains(r));
        } else {
            let c = list[i].claims;
            let m = c.take(k).index_of(r);
            assert(c.take(k)[m] == r && c.take(k)[m] == c[m]);
            assert(!list[i].claims.no_duplicates());
        }
    }
}

/// A protocol's rules are found by its name, and none by a name that nobody has.
pub proof fn rules_are_found_by_name(list: Seq<Registration>, name: Seq<char>, i: int)
    requires
        collision_free(list),
        0 <= i < list.len(),
    ensures
        named(list, list[i].name, 0) == Some(list[i].rules),
        (forall|j: int| 0 <= j < list.len() ==> (#[trigger] list[j]).name != name) ==> named(
            list,
            name,
            0,
        ) is None,
{
    routes_lead_one_way(list);
    lemma_named(list, i, 0);
    if forall|j: int| 0 <= j < list.len() ==> (#[trigger] list[j]).name != name {
        lemma_unnamed(list, name, 0);
    }
}

proof fn lemma_named(list: Seq<Registration>, i: int, j: int)
    requires
        0 <= j <= i < list.len(),
        forall|k: int| 0 <= k < i ==> (#[trigger] list[k]).name != list[i].name,
    ensures
        named(list, list[i].name, j) == Some(list[i].rules),
    decreases i - j,
{
    if j < i {
        assert(list[j].name != list[i].name);
        lemma_named(list, i, j + 1);
    }
}

proof fn lemma_unnamed(list: Seq<Registration>, name: Seq<char>, j: int)
    requires
        0 <= j <= list.len(),
        forall|k: int| 0 <= k < list.len() ==> (#[trigger] list[k]).name != name,
    ensures
        named(list, name, j) is None,
    decreases list.len() - j,
{
    if j < list.len() {
        assert(list[j].name != name);
        lemma_unnamed(list, name, j + 1);
    }
}

} // verus!
