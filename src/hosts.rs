//! The host name and IP address database.
//!
//! A lookup walks the rules that the configuration gives for the hosts
//! database. Each service rule asks the caller to consult that source; the
//! status it reports decides, together with an optional action rule right
//! after the service, whether the lookup returns, goes on, or merges the
//! answer into what it has gathered so far.
use vstd::prelude::*;
use crate::nsswitch::{
    Action, Conf, Database, DatabaseView, Rule, RuleView, Service, Status, rules_view,
};

verus! {

//------------ IpAddr --------------------------------------------------------

/// An IPv4 or IPv6 address, as its numeric value.
#[derive(Clone, Copy, Debug, Eq, Hash, PartialEq, Structural)]
pub enum IpAddr {
    V4(u32),
    V6(u128),
}

//------------ HostEnt -------------------------------------------------------

/// What a `HostEnt` holds.
pub struct HostEntView {
    pub name: Seq<char>,
    pub aliases: Seq<Seq<char>>,
    pub addrs: Seq<IpAddr>,
}

/// The strings seen through their views.
pub open spec fn names_view(v: Seq<String>) -> Seq<Seq<char>> {
    v.map_values(|s: String| s@)
}

/// The result of a host lookup.
#[derive(Clone, Debug)]
pub struct HostEnt {
    name: String,
    aliases: Vec<String>,
    addrs: Vec<IpAddr>,
}

impl View for HostEnt {
    type V = HostEntView;

    closed spec fn view(&self) -> HostEntView {
        HostEntView { name: self.name@, aliases: names_view(self.aliases@), addrs: self.addrs@ }
    }
}

/// The view of an optional entry.
pub open spec fn opt_view(e: Option<HostEnt>) -> Option<HostEntView> {
    match e {
        Some(e) => Some(e@),
        None => None,
    }
}

/// A resolved entry: it has a canonical name and at least one address.
pub open spec fn resolved(e: HostEntView) -> bool {
    e.name.len() > 0 && e.addrs.len() > 0
}

/// No entry, or a resolved one.
pub open spec fn opt_resolved(e: Option<HostEntView>) -> bool {
    e is Some ==> resolved(e->Some_0)
}

impl HostEnt {
    /// Whether the entry has a canonical name and at least one address.
    pub fn is_resolved(&self) -> (r: bool)
        ensures
            r == resolved(self@),
    {
        !self.name.as_str().is_empty() && self.addrs.len() > 0
    }

    /// An entry with the given canonical name, aliases and addresses.
    pub fn new(name: String, aliases: Vec<String>, addrs: Vec<IpAddr>) -> (r: HostEnt)
        ensures
            r@ == (HostEntView { name: name@, aliases: names_view(aliases@), addrs: addrs@ }),
    {
        HostEnt { name, aliases, addrs }
    }

    /// The canonical name of the host.
    pub fn name(&self) -> (r: &str)
        ensures
            r@ == self@.name,
    {
        self.name.as_str()
    }

    /// The aliases of the host.
    pub fn aliases(&self) -> (r: &[String])
        ensures
            names_view(r@) == self@.aliases,
    {
        self.aliases.as_slice()
    }

    /// The addresses of the host.
    pub fn addrs(&self) -> (r: &[IpAddr])
        ensures
            r@ == self@.addrs,
    {
        self.addrs.as_slice()
    }
}

//------------ Merging -------------------------------------------------------

/// `a` followed by those items of `b` that are new, each once, in order.
pub open spec fn append_new<A>(a: Seq<A>, b: Seq<A>) -> Seq<A>
    decreases b.len(),
{
    if b.len() == 0 {
        a
    } else {
        let r = append_new(a, b.drop_last());
        if r.contains(b.last()) {
            r
        } else {
            r.push(b.last())
        }
    }
}

proof fn lemma_contains_push<A>(s: Seq<A>, x: A, y: A)
    ensures
        s.push(x).contains(y) <==> (s.contains(y) || y == x),
{
    if s.push(x).contains(y) {
        let k = choose|k: int| 0 <= k < s.push(x).len() && s.push(x)[k] == y;
        if k < s.len() {
            assert(s[k] == y);
        }
    }
    if s.contains(y) {
        let k = choose|k: int| 0 <= k < s.len() && s[k] == y;
        assert(s.push(x)[k] == y);
    }
    if y == x {
        assert(s.push(x)[s.len() as int] == y);
    }
}

/// Joining without repeats keeps the first sequence as it is, in front,
/// adds no repeat, and holds exactly the items of both.
pub proof fn lemma_append_new<A>(a: Seq<A>, b: Seq<A>)
    requires
        a.no_duplicates(),
    ensures
        append_new(a, b).no_duplicates(),
        append_new(a, b).len() >= a.len(),
        append_new(a, b).take(a.len() as int) == a,
        forall|y: A| #[trigger] append_new(a, b).contains(y) <==> (a.contains(y) || b.contains(y)),
    decreases b.len(),
{
    if b.len() == 0 {
        assert(a.take(a.len() as int) =~= a);
    } else {
        let rest = b.drop_last();
        let x = b.last();
        lemma_append_new(a, rest);
        let r0 = append_new(a, rest);
        assert(b =~= rest.push(x));
        assert forall|y: A| b.contains(y) <==> (rest.contains(y) || y == x) by {
            lemma_contains_push(rest, x, y);
        }
        if !r0.contains(x) {
            let r = r0.push(x);
            assert(r.take(a.len() as int) =~= r0.take(a.len() as int));
            assert forall|i: int, j: int| 0 <= i < j < r.len() implies r[i] != r[j] by {
                if j == r0.len() {
                    assert(r0[i] == r[i]);
                }
            }
            assert forall|y: A| r.contains(y) <==> (r0.contains(y) || y == x) by {
                lemma_contains_push(r0, x, y);
            }
        }
    }
}

/// An answer merged into what was gathered: the canonical name of the first
/// entry stays, aliases and addresses are joined in the order they were
/// found, without repeats.
pub open spec fn merged(acc: Option<HostEntView>, e: HostEntView) -> HostEntView {
    match acc {
        None => HostEntView {
            name: e.name,
            aliases: append_new(Seq::empty(), e.aliases),
            addrs: append_new(Seq::empty(), e.addrs),
        },
        Some(a) => HostEntView {
            name: a.name,
            aliases: append_new(a.aliases, e.aliases),
            addrs: append_new(a.addrs, e.addrs),
        },
    }
}

fn has_addr(v: &Vec<IpAddr>, x: IpAddr) -> (r: bool)
    ensures
        r == v@.contains(x),
{
    let mut i: usize = 0;
    while i < v.len()
        invariant
            i <= v@.len(),
            forall|j: int| 0 <= j < i ==> v@[j] != x,
        decreases v@.len() - i,
    {
        if v[i] == x {
            return true;
        }
        i = i + 1;
    }
    false
}

fn has_name(v: &Vec<String>, x: &String) -> (r: bool)
    ensures
        r == names_view(v@).contains(x@),
{
    let mut i: usize = 0;
    while i < v.len()
        invariant
            i <= v@.len(),
            forall|j: int| 0 <= j < i ==> v@[j]@ != x@,
        decreases v@.len() - i,
    {
        if v[i].eq(x) {
            assert(names_view(v@)[i as int] == x@);
            return true;
        }
        i = i + 1;
    }
    assert(!names_view(v@).contains(x@)) by {
        if names_view(v@).contains(x@) {
            let k = choose|k: int| 0 <= k < names_view(v@).len() && names_view(v@)[k] == x@;
            assert(v@[k]@ == x@);
        }
    }
    false
}

fn extend_addrs(acc: &mut Vec<IpAddr>, b: &Vec<IpAddr>)
    ensures
        final(acc)@ == append_new(old(acc)@, b@),
{
    let mut i: usize = 0;
    assert(b@.take(0) =~= Seq::<IpAddr>::empty());
    while i < b.len()
        invariant
            i <= b@.len(),
            acc@ == append_new(old(acc)@, b@.take(i as int)),
        decreases b@.len() - i,
    {
        assert(b@.take(i + 1).drop_last() =~= b@.take(i as int));
        if !has_addr(acc, b[i]) {
            acc.push(b[i]);
        }
        i = i + 1;
    }
    assert(b@.take(b@.len() as int) =~= b@);
}

fn extend_names(acc: &mut Vec<String>, b: &Vec<String>)
    ensures
        names_view(final(acc)@) == append_new(names_view(old(acc)@), names_view(b@)),
{
    let mut i: usize = 0;
    assert(names_view(b@).take(0) =~= Seq::<Seq<char>>::empty());
    while i < b.len()
        invariant
            i <= b@.len(),
            names_view(acc@) == append_new(names_view(old(acc)@), names_view(b@).take(i as int)),
        decreases b@.len() - i,
    {
        assert(names_view(b@).take(i + 1).drop_last() =~= names_view(b@).take(i as int));
        assert(names_view(b@).take(i + 1).last() == b@[i as int]@);
        if !has_name(acc, &b[i]) {
            let ghost before = acc@;
            acc.push(b[i].clone());
            assert(names_view(acc@) =~= names_view(before).push(b@[i as int]@));
        }
        i = i + 1;
    }
    assert(names_view(b@).take(b@.len() as int) =~= names_view(b@));
}

/// Merging joins the addresses, and the aliases, of what was gathered and
/// of the new entry: what was gathered stays in front in its order, nothing
/// repeats, and every address or alias of either is there. The canonical
/// name is that of the entry gathered first.
pub proof fn lemma_merge_joins(acc: Option<HostEntView>, e: HostEntView)
    requires
        acc is Some ==> acc->Some_0.addrs.no_duplicates() && acc->Some_0.aliases.no_duplicates(),
    ensures
        ({
            let m = merged(acc, e);
            let (name, aliases, addrs) = match acc {
                Some(a) => (a.name, a.aliases, a.addrs),
                None => (e.name, Seq::empty(), Seq::empty()),
            };
            &&& m.name == name
            &&& m.addrs.no_duplicates()
            &&& m.aliases.no_duplicates()
            &&& m.addrs.take(addrs.len() as int) == addrs
            &&& m.aliases.take(aliases.len() as int) == aliases
            &&& forall|x: IpAddr| #[trigger] m.addrs.contains(x) <==> (addrs.contains(x) || e.addrs.contains(x))
            &&& forall|x: Seq<char>| #[trigger] m.aliases.contains(x) <==> (aliases.contains(x) || e.aliases.contains(x))
        }),
{
    match acc {
        Some(a) => {
            lemma_append_new(a.addrs, e.addrs);
            lemma_append_new(a.aliases, e.aliases);
        },
        None => {
            lemma_append_new(Seq::<IpAddr>::empty(), e.addrs);
            lemma_append_new(Seq::<Seq<char>>::empty(), e.aliases);
        },
    }
}

proof fn lemma_append_new_len<A>(a: Seq<A>, b: Seq<A>)
    ensures
        append_new(a, b).len() >= a.len(),
        b.len() > 0 ==> append_new(a, b).len() > 0,
    decreases b.len(),
{
    if b.len() > 0 {
        lemma_append_new_len(a, b.drop_last());
        let r = append_new(a, b.drop_last());
        if r.contains(b.last()) {
            let k = choose|k: int| 0 <= k < r.len() && r[k] == b.last();
        }
    }
}

/// Merging a resolved entry into no entry or a resolved one gives a
/// resolved entry.
pub proof fn lemma_merged_resolved(acc: Option<HostEntView>, e: HostEntView)
    requires
        opt_resolved(acc),
        resolved(e),
    ensures
        resolved(merged(acc, e)),
{
    match acc {
        Some(a) => lemma_append_new_len(a.addrs, e.addrs),
        None => lemma_append_new_len(Seq::<IpAddr>::empty(), e.addrs),
    }
}

/// Merges an answer into what was gathered so far.
pub fn merge(acc: Option<HostEnt>, e: HostEnt) -> (r: HostEnt)
    ensures
        r@ == merged(opt_view(acc), e@),
{
    let (name, mut aliases, mut addrs) = match acc {
        Some(a) => (a.name, a.aliases, a.addrs),
        None => {
            let v: Vec<String> = Vec::new();
            let w: Vec<IpAddr> = Vec::new();
            assert(names_view(v@) =~= Seq::<Seq<char>>::empty());
            (e.name.clone(), v, w)
        },
    };
    extend_names(&mut aliases, &e.aliases);
    extend_addrs(&mut addrs, &e.addrs);
    HostEnt { name, aliases, addrs }
}


//------------ Rule evaluation -----------------------------------------------

/// The action taken after a status when no action rule says otherwise.
pub open spec fn default_action(st: Status) -> Action {
    match st {
        Status::Success => Action::Return,
        _ => Action::Continue,
    }
}

/// The rule right after the service at `i` is an action rule for `st`.
pub open spec fn overrides(rules: Seq<RuleView>, i: int, st: Status) -> bool {
    &&& i + 1 < rules.len()
    &&& rules[i + 1] is Action
    &&& rules[i + 1]->Action_0 == st
}

/// The action taken after the service at `i` reported `st`.
pub open spec fn action_for(rules: Seq<RuleView>, i: int, st: Status) -> Action {
    if overrides(rules, i, st) {
        rules[i + 1]->Action_1
    } else {
        default_action(st)
    }
}

/// The place of the first service rule at `i` or after, or the number of
/// rules where there is none.
pub open spec fn next_service(rules: Seq<RuleView>, i: int) -> int
    decreases rules.len() - i,
{
    if i >= rules.len() {
        rules.len() as int
    } else if rules[i] is Service {
        i
    } else {
        next_service(rules, i + 1)
    }
}

proof fn lemma_next_service(rules: Seq<RuleView>, i: int)
    requires
        0 <= i <= rules.len(),
    ensures
        i <= next_service(rules, i) <= rules.len(),
        next_service(rules, i) < rules.len() ==> rules[next_service(rules, i)] is Service,
    decreases rules.len() - i,
{
    if i < rules.len() && !(rules[i] is Service) {
        lemma_next_service(rules, i + 1);
    }
}

//------------ Request -------------------------------------------------------

/// What a lookup asks for.
#[derive(Clone, Debug)]
pub enum Request {
    /// The host with this name.
    ByName(String),
    /// The host with this address.
    ByAddr(IpAddr),
}

/// What a `Request` holds.
pub enum RequestView {
    ByName(Seq<char>),
    ByAddr(IpAddr),
}

impl View for Request {
    type V = RequestView;

    open spec fn view(&self) -> RequestView {
        match self {
            Request::ByName(n) => RequestView::ByName(n@),
            Request::ByAddr(a) => RequestView::ByAddr(*a),
        }
    }
}

//------------ Orchestrator --------------------------------------------------

/// What a lookup that waits for a source holds.
pub struct OrchestratorView {
    pub request: RequestView,
    pub rules: Seq<RuleView>,
    pub index: int,
    pub acc: Option<HostEntView>,
}

/// The lookup waits on the service rule at its index, and what it gathered
/// so far, if anything, is a resolved entry.
pub open spec fn waiting(v: OrchestratorView) -> bool {
    &&& 0 <= v.index < v.rules.len()
    &&& v.rules[v.index] is Service
    &&& opt_resolved(v.acc)
}

/// A lookup that waits for the answer of one source.
///
/// The value is consumed by `resume`, so a finished lookup cannot be
/// driven again; dropping it abandons the lookup.
pub struct Orchestrator {
    request: Request,
    rules: Vec<Rule>,
    index: usize,
    acc: Option<HostEnt>,
}

impl View for Orchestrator {
    type V = OrchestratorView;

    closed spec fn view(&self) -> OrchestratorView {
        OrchestratorView {
            request: self.request@,
            rules: rules_view(self.rules@),
            index: self.index as int,
            acc: opt_view(self.acc),
        }
    }
}

/// Where a lookup stands after a step.
pub enum Progress {
    /// The lookup waits for the answer of the source its service names.
    Consult(Orchestrator),
    /// The lookup is done: the entry found, or `None`.
    Resolved(Option<HostEnt>),
}

/// What a `Progress` holds.
pub enum ProgressView {
    Consult(OrchestratorView),
    Resolved(Option<HostEntView>),
}

impl View for Progress {
    type V = ProgressView;

    open spec fn view(&self) -> ProgressView {
        match self {
            Progress::Consult(o) => ProgressView::Consult(o@),
            Progress::Resolved(e) => ProgressView::Resolved(opt_view(*e)),
        }
    }
}

/// The lookup goes on at the service rule `j`, or is done with what it
/// gathered when no service is left.
pub open spec fn settle(
    req: RequestView,
    rules: Seq<RuleView>,
    j: int,
    acc: Option<HostEntView>,
) -> ProgressView {
    if j >= rules.len() {
        ProgressView::Resolved(acc)
    } else {
        ProgressView::Consult(OrchestratorView { request: req, rules, index: j, acc })
    }
}

/// The entry for a name that is an address literal: the name itself, no
/// aliases, the address alone.
pub open spec fn literal_entry(name: Seq<char>, a: IpAddr) -> HostEntView {
    HostEntView { name, aliases: Seq::empty(), addrs: seq![a] }
}

/// How a lookup begins: a (non-empty) name that is an address literal resolves at once
/// to its own entry; otherwise the rules for the hosts database are walked
/// from the first service, and no rules means no entry. Action rules with
/// no service before them change nothing.
pub open spec fn start(
    req: RequestView,
    literal: Option<IpAddr>,
    conf: Map<DatabaseView, Seq<RuleView>>,
) -> ProgressView {
    if req is ByName && req->ByName_0.len() > 0 && literal is Some {
        ProgressView::Resolved(Some(literal_entry(req->ByName_0, literal->Some_0)))
    } else if conf.contains_key(DatabaseView::Hosts) {
        let rules = conf[DatabaseView::Hosts];
        settle(req, rules, next_service(rules, 0), None)
    } else {
        ProgressView::Resolved(None)
    }
}

/// One step of a lookup: the service it waited on reported `st` and maybe
/// an entry `e`. `Return` ends the lookup: with `e` merged into what was
/// gathered, with `e` alone if nothing was gathered, or with what was
/// gathered if there is no `e`. `Continue` drops `e`; `Merge` adds `e` to
/// what was gathered. The latter two go on at the next service rule.
///
/// A `Return` that follows a `Merge` thus keeps the merged answers, as
/// glibc does with `[SUCCESS=merge]`: two sources that both succeed under
/// `files [SUCCESS=merge] dns` give the addresses of both, the first
/// source's name, and the aliases of both. An entry gathered earlier is
/// never dropped by a later `Return`.
pub open spec fn step(v: OrchestratorView, st: Status, e: Option<HostEntView>) -> ProgressView {
    let skip = if overrides(v.rules, v.index, st) {
        v.index + 2
    } else {
        v.index + 1
    };
    match action_for(v.rules, v.index, st) {
        Action::Return => ProgressView::Resolved(
            match e {
                Some(x) => if v.acc is Some {
                    Some(merged(v.acc, x))
                } else {
                    Some(x)
                },
                None => v.acc,
            },
        ),
        Action::Continue => settle(v.request, v.rules, next_service(v.rules, skip), v.acc),
        Action::Merge => settle(
            v.request,
            v.rules,
            next_service(v.rules, skip),
            match e {
                Some(x) => Some(merged(v.acc, x)),
                None => v.acc,
            },
        ),
    }
}

/// A name that is an address literal resolves at once, whatever the
/// configuration says: its entry is the name itself with the parsed address
/// as the sole address and no aliases, and no source is consulted.
pub proof fn lemma_literal_resolves_at_once(
    name: Seq<char>,
    a: IpAddr,
    conf: Map<DatabaseView, Seq<RuleView>>,
)
    requires
        name.len() > 0,
    ensures
        start(RequestView::ByName(name), Some(a), conf) == ProgressView::Resolved(
            Some(HostEntView { name, aliases: Seq::empty(), addrs: seq![a] }),
        ),
{
}

/// A lookup that consults a source waits on a service rule, and a lookup
/// that is done found a resolved entry or none.
pub open spec fn progress_wf(p: ProgressView) -> bool {
    match p {
        ProgressView::Consult(v) => waiting(v),
        ProgressView::Resolved(e) => opt_resolved(e),
    }
}

fn copy_service(s: &Service) -> (r: Service)
    ensures
        r@ == s@,
{
    match s {
        Service::Compat => Service::Compat,
        Service::Dns => Service::Dns,
        Service::Files => Service::Files,
        Service::Other(n) => Service::Other(n.clone()),
    }
}

fn copy_rules(rs: &[Rule]) -> (r: Vec<Rule>)
    ensures
        rules_view(r@) == rules_view(rs@),
{
    let mut r: Vec<Rule> = Vec::new();
    let mut i: usize = 0;
    while i < rs.len()
        invariant
            i <= rs@.len(),
            r@.len() == i,
            forall|j: int| 0 <= j < i ==> r@[j]@ == rs@[j]@,
        decreases rs@.len() - i,
    {
        let rule = match &rs[i] {
            Rule::Service(s) => Rule::Service(copy_service(s)),
            Rule::Action(st, a) => Rule::Action(*st, *a),
        };
        r.push(rule);
        i = i + 1;
    }
    assert(rules_view(r@) =~= rules_view(rs@));
    r
}

fn is_action(r: &Rule) -> (b: bool)
    ensures
        b == (r@ is Action),
{
    match r {
        Rule::Action(_, _) => true,
        Rule::Service(_) => false,
    }
}

fn find_service(rules: &Vec<Rule>, i: usize) -> (r: usize)
    requires
        i <= rules@.len(),
    ensures
        r as int == next_service(rules_view(rules@), i as int),
{
    let ghost rv = rules_view(rules@);
    let mut j: usize = i;
    while j < rules.len() && is_action(&rules[j])
        invariant
            i <= j <= rules@.len(),
            rv == rules_view(rules@),
            next_service(rv, j as int) == next_service(rv, i as int),
        decreases rules@.len() - j,
    {
        assert(!(rv[j as int] is Service));
        j = j + 1;
    }
    j
}

impl Orchestrator {
    fn settle_at(request: Request, rules: Vec<Rule>, j: usize, acc: Option<HostEnt>) -> (r: Progress)
        requires
            j <= rules@.len(),
            j < rules@.len() ==> rules_view(rules@)[j as int] is Service,
            opt_resolved(opt_view(acc)),
        ensures
            r@ == settle(request@, rules_view(rules@), j as int, opt_view(acc)),
            progress_wf(r@),
    {
        if j >= rules.len() {
            Progress::Resolved(acc)
        } else {
            Progress::Consult(Orchestrator { request, rules, index: j, acc })
        }
    }

    /// Begins a lookup. `literal` is the address that the requested name
    /// spells out, where it is an address literal.
    pub fn begin(conf: &Conf, request: Request, literal: Option<IpAddr>) -> (r: Progress)
        ensures
            r@ == start(request@, literal, conf@),
            progress_wf(r@),
    {
        if let Request::ByName(n) = &request {
            if let (Some(a), false) = (literal, n.as_str().is_empty()) {
                let ent = HostEnt { name: n.clone(), aliases: Vec::new(), addrs: vec![a] };
                assert(names_view(ent.aliases@) =~= Seq::<Seq<char>>::empty());
                assert(ent.addrs@ =~= seq![a]);
                return Progress::Resolved(Some(ent));
            }
        }
        match conf.database(&Database::Hosts) {
            None => Progress::Resolved(None),
            Some(rs) => {
                let rules = copy_rules(rs);
                let j = find_service(&rules, 0);
                proof {
                    lemma_next_service(rules_view(rules@), 0);
                }
                Orchestrator::settle_at(request, rules, j, None)
            },
        }
    }

    /// What the lookup asks for.
    pub fn request(&self) -> (r: &Request)
        ensures
            r@ == self@.request,
    {
        &self.request
    }

    /// The source to consult now.
    pub fn service(&self) -> (r: &Service)
        requires
            waiting(self@),
        ensures
            RuleView::Service(r@) == self@.rules[self@.index],
    {
        match &self.rules[self.index] {
            Rule::Service(s) => s,
            Rule::Action(_, _) => vstd::pervasive::unreached(),
        }
    }

    /// Takes the answer of the source: its status and the entry it found,
    /// if any.
    pub fn resume(self, status: Status, entry: Option<HostEnt>) -> (r: Progress)
        requires
            waiting(self@),
            opt_resolved(opt_view(entry)),
        ensures
            r@ == step(self@, status, opt_view(entry)),
            progress_wf(r@),
    {
        let ghost v = self@;
        let i = self.index;
        let n = self.rules.len();
        let (action, skip) = if i + 1 < n {
            match &self.rules[i + 1] {
                Rule::Action(st, a) if *st == status => (*a, i + 2),
                _ => (Orchestrator::default_for(status), i + 1),
            }
        } else {
            (Orchestrator::default_for(status), i + 1)
        };
        assert(action == action_for(v.rules, v.index, status));
        match action {
            Action::Return => {
                let out = match entry {
                    Some(e) => match self.acc {
                        Some(a) => {
                            proof {
                                lemma_merged_resolved(v.acc, e@);
                            }
                            Some(merge(Some(a), e))
                        },
                        None => Some(e),
                    },
                    None => self.acc,
                };
                Progress::Resolved(out)
            },
            Action::Continue => {
                let j = find_service(&self.rules, skip);
                proof {
                    lemma_next_service(v.rules, skip as int);
                }
                Orchestrator::settle_at(self.request, self.rules, j, self.acc)
            },
            Action::Merge => {
                let j = find_service(&self.rules, skip);
                proof {
                    lemma_next_service(v.rules, skip as int);
                }
                let acc = match entry {
                    Some(e) => {
                        proof {
                            lemma_merged_resolved(v.acc, e@);
                        }
                        Some(merge(self.acc, e))
                    },
                    None => self.acc,
                };
                Orchestrator::settle_at(self.request, self.rules, j, acc)
            },
        }
    }

    fn default_for(st: Status) -> (r: Action)
        ensures
            r == default_action(st),
    {
        match st {
            Status::Success => Action::Return,
            _ => Action::Continue,
        }
    }
}

} // verus!
