//! The name service switch configuration and its parser.
//!
//! Parsing follows the `nsswitch.conf` file used by glibc 2.
use vstd::prelude::*;
use crate::text::{chars_of, is_space, is_space_exec, lower, lower_char, lower_chars, string_of};
use vstd::slice::slice_subrange;

verus! {

//------------ Models --------------------------------------------------------

/// What a `Database` value stands for.
pub enum DatabaseView {
    Hosts,
    Networks,
    Protocols,
    Services,
    Other(Seq<char>),
}

/// What a `Service` value stands for.
pub enum ServiceView {
    Compat,
    Dns,
    Files,
    Other(Seq<char>),
}

/// What a `Rule` value stands for.
pub enum RuleView {
    Service(ServiceView),
    Action(Status, Action),
}

//------------ Database ------------------------------------------------------

/// A database referenced in the name service configuration.
#[derive(Clone, Debug, Eq, Hash, PartialEq)]
pub enum Database {
    /// The hosts database.
    Hosts,
    /// The networks database.
    Networks,
    /// The protocols database.
    Protocols,
    /// The services database.
    Services,
    /// Some other database not supported by this crate.
    Other(String),
}

impl View for Database {
    type V = DatabaseView;

    open spec fn view(&self) -> DatabaseView {
        match self {
            Database::Hosts => DatabaseView::Hosts,
            Database::Networks => DatabaseView::Networks,
            Database::Protocols => DatabaseView::Protocols,
            Database::Services => DatabaseView::Services,
            Database::Other(s) => DatabaseView::Other(s@),
        }
    }
}

/// The database that a (lower case) name in the configuration denotes.
pub open spec fn database_of(s: Seq<char>) -> DatabaseView {
    if s == "hosts"@ {
        DatabaseView::Hosts
    } else if s == "networks"@ {
        DatabaseView::Networks
    } else if s == "protocols"@ {
        DatabaseView::Protocols
    } else if s == "services"@ {
        DatabaseView::Services
    } else {
        DatabaseView::Other(s)
    }
}

/// Whether the characters spell out the word.
fn is_word(s: &[char], w: &str) -> (r: bool)
    ensures
        r == (s@ == w@),
{
    let wc = chars_of(w);
    if s.len() != wc.len() {
        return false;
    }
    let mut i: usize = 0;
    while i < s.len()
        invariant
            i <= s@.len(),
            s@.len() == wc@.len(),
            wc@ == w@,
            forall|j: int| 0 <= j < i ==> s@[j] == wc@[j],
        decreases s@.len() - i,
    {
        if s[i] != wc[i] {
            return false;
        }
        i = i + 1;
    }
    assert(s@ =~= wc@);
    true
}

/// The name of a database in the configuration.
pub open spec fn database_name(d: DatabaseView) -> Seq<char> {
    match d {
        DatabaseView::Hosts => "hosts"@,
        DatabaseView::Networks => "networks"@,
        DatabaseView::Protocols => "protocols"@,
        DatabaseView::Services => "services"@,
        DatabaseView::Other(s) => s,
    }
}

/// Reading the name of a database gives the database back, unless it is
/// another database whose name is taken by a known one.
pub proof fn lemma_database_name_round_trip(d: DatabaseView)
    requires
        d is Other ==> database_of(d->Other_0) == d,
    ensures
        database_of(database_name(d)) == d,
{
    reveal_strlit("hosts");
    assert("hosts"@.len() == 5 && "hosts"@[0] == 'h');
    reveal_strlit("networks");
    assert("networks"@.len() == 8 && "networks"@[0] == 'n');
    reveal_strlit("protocols");
    assert("protocols"@.len() == 9 && "protocols"@[0] == 'p');
    reveal_strlit("services");
    assert("services"@.len() == 8 && "services"@[0] == 's');
}

impl Database {
    /// The name of the database.
    pub fn name(&self) -> (r: String)
        ensures
            r@ == database_name(self@),
    {
        match self {
            Database::Hosts => "hosts".to_owned(),
            Database::Networks => "networks".to_owned(),
            Database::Protocols => "protocols".to_owned(),
            Database::Services => "services".to_owned(),
            Database::Other(s) => s.clone(),
        }
    }

    /// The database named by the characters.
    pub fn from_chars(s: &[char]) -> (r: Database)
        ensures
            r@ == database_of(s@),
    {
        if is_word(s, "hosts") {
            Database::Hosts
        } else if is_word(s, "networks") {
            Database::Networks
        } else if is_word(s, "protocols") {
            Database::Protocols
        } else if is_word(s, "services") {
            Database::Services
        } else {
            Database::Other(string_of(s))
        }
    }

    /// Whether both values denote the same database.
    pub fn same(&self, other: &Database) -> (r: bool)
        ensures
            r == (self@ == other@),
    {
        match (self, other) {
            (Database::Hosts, Database::Hosts) => true,
            (Database::Networks, Database::Networks) => true,
            (Database::Protocols, Database::Protocols) => true,
            (Database::Services, Database::Services) => true,
            (Database::Other(a), Database::Other(b)) => a.eq(b),
            _ => false,
        }
    }
}

//------------ Status --------------------------------------------------------

/// The status value of the name service configuration.
#[derive(Clone, Copy, Debug, Eq, PartialEq, Structural)]
pub enum Status {
    /// `"success"`: no error occurred and the requested entry is returned.
    Success,
    /// `"notfound"`: the lookup succeeded but no entry was found.
    NotFound,
    /// `"unavail"`: the service is permanently unavailable.
    Unavail,
    /// `"tryagain"`: the service is temporarily unavailable.
    TryAgain,
}

/// The status that a (lower case) keyword names, if any.
pub open spec fn status_of(s: Seq<char>) -> Option<Status> {
    if s == "success"@ {
        Some(Status::Success)
    } else if s == "notfound"@ {
        Some(Status::NotFound)
    } else if s == "unavail"@ {
        Some(Status::Unavail)
    } else if s == "tryagain"@ {
        Some(Status::TryAgain)
    } else {
        None
    }
}

/// The keyword of a status.
pub open spec fn status_name(st: Status) -> Seq<char> {
    match st {
        Status::Success => "success"@,
        Status::NotFound => "notfound"@,
        Status::Unavail => "unavail"@,
        Status::TryAgain => "tryagain"@,
    }
}

/// Reading the keyword of a status gives the status back.
pub proof fn lemma_status_name_round_trip(st: Status)
    ensures
        status_of(status_name(st)) == Some(st),
{
    reveal_strlit("success");
    assert("success"@.len() == 7 && "success"@[0] == 's');
    reveal_strlit("notfound");
    assert("notfound"@.len() == 8 && "notfound"@[0] == 'n');
    reveal_strlit("unavail");
    assert("unavail"@.len() == 7 && "unavail"@[0] == 'u');
    reveal_strlit("tryagain");
    assert("tryagain"@.len() == 8 && "tryagain"@[0] == 't');
}

impl Status {
    /// The keyword of the status.
    pub fn name(&self) -> (r: &'static str)
        ensures
            r@ == status_name(*self),
    {
        match self {
            Status::Success => "success",
            Status::NotFound => "notfound",
            Status::Unavail => "unavail",
            Status::TryAgain => "tryagain",
        }
    }

    /// The status named by the characters, if any.
    pub fn from_chars(s: &[char]) -> (r: Option<Status>)
        ensures
            r == status_of(s@),
    {
        if is_word(s, "success") {
            Some(Status::Success)
        } else if is_word(s, "notfound") {
            Some(Status::NotFound)
        } else if is_word(s, "unavail") {
            Some(Status::Unavail)
        } else if is_word(s, "tryagain") {
            Some(Status::TryAgain)
        } else {
            None
        }
    }
}

//------------ Action --------------------------------------------------------

/// An action value in the name service configuration.
#[derive(Clone, Copy, Debug, Eq, PartialEq, Structural)]
pub enum Action {
    /// `"return"`: return a result now.
    Return,
    /// `"continue"`: continue with the next lookup.
    Continue,
    /// `"merge"`: merge the result from previous lookups with any
    /// successful consecutive lookup.
    Merge,
}

/// The action that a (lower case) keyword names, if any.
pub open spec fn action_of(s: Seq<char>) -> Option<Action> {
    if s == "return"@ {
        Some(Action::Return)
    } else if s == "continue"@ {
        Some(Action::Continue)
    } else if s == "merge"@ {
        Some(Action::Merge)
    } else {
        None
    }
}

/// The keyword of an action.
pub open spec fn action_name(a: Action) -> Seq<char> {
    match a {
        Action::Return => "return"@,
        Action::Continue => "continue"@,
        Action::Merge => "merge"@,
    }
}

/// Reading the keyword of an action gives the action back.
pub proof fn lemma_action_name_round_trip(a: Action)
    ensures
        action_of(action_name(a)) == Some(a),
{
    reveal_strlit("return");
    assert("return"@.len() == 6 && "return"@[0] == 'r');
    reveal_strlit("continue");
    assert("continue"@.len() == 8 && "continue"@[0] == 'c');
    reveal_strlit("merge");
    assert("merge"@.len() == 5 && "merge"@[0] == 'm');
}

impl Action {
    /// The keyword of the action.
    pub fn name(&self) -> (r: &'static str)
        ensures
            r@ == action_name(*self),
    {
        match self {
            Action::Return => "return",
            Action::Continue => "continue",
            Action::Merge => "merge",
        }
    }

    /// The action named by the characters, if any.
    pub fn from_chars(s: &[char]) -> (r: Option<Action>)
        ensures
            r == action_of(s@),
    {
        if is_word(s, "return") {
            Some(Action::Return)
        } else if is_word(s, "continue") {
            Some(Action::Continue)
        } else if is_word(s, "merge") {
            Some(Action::Merge)
        } else {
            None
        }
    }
}

//------------ Service -------------------------------------------------------

/// A service value in the name service configuration.
///
/// Services that are not processed internally are kept as `Other`. Not all
/// service values are valid for all databases.
#[derive(Clone, Debug, Eq, PartialEq)]
pub enum Service {
    /// `"compat"`: like `Files`, with additional information in the files.
    Compat,
    /// `"dns"`: the DNS service, allowed for `Database::Hosts`.
    Dns,
    /// `"files"`: the files service.
    Files,
    /// Any other service.
    Other(String),
}

impl View for Service {
    type V = ServiceView;

    open spec fn view(&self) -> ServiceView {
        match self {
            Service::Compat => ServiceView::Compat,
            Service::Dns => ServiceView::Dns,
            Service::Files => ServiceView::Files,
            Service::Other(s) => ServiceView::Other(s@),
        }
    }
}

/// The service that a (lower case) name denotes.
pub open spec fn service_of(s: Seq<char>) -> ServiceView {
    if s == "compat"@ {
        ServiceView::Compat
    } else if s == "dns"@ {
        ServiceView::Dns
    } else if s == "files"@ {
        ServiceView::Files
    } else {
        ServiceView::Other(s)
    }
}

/// The name of a service in the configuration.
pub open spec fn service_name(sv: ServiceView) -> Seq<char> {
    match sv {
        ServiceView::Compat => "compat"@,
        ServiceView::Dns => "dns"@,
        ServiceView::Files => "files"@,
        ServiceView::Other(s) => s,
    }
}

/// Reading the name of a service gives the service back, unless it is
/// another service whose name is taken by a known one.
pub proof fn lemma_service_name_round_trip(sv: ServiceView)
    requires
        sv is Other ==> service_of(sv->Other_0) == sv,
    ensures
        service_of(service_name(sv)) == sv,
{
    reveal_strlit("compat");
    assert("compat"@.len() == 6 && "compat"@[0] == 'c');
    reveal_strlit("dns");
    assert("dns"@.len() == 3 && "dns"@[0] == 'd');
    reveal_strlit("files");
    assert("files"@.len() == 5 && "files"@[0] == 'f');
}

impl Service {
    /// The name of the service.
    pub fn name(&self) -> (r: String)
        ensures
            r@ == service_name(self@),
    {
        match self {
            Service::Compat => "compat".to_owned(),
            Service::Dns => "dns".to_owned(),
            Service::Files => "files".to_owned(),
            Service::Other(s) => s.clone(),
        }
    }

    /// The service named by the characters.
    pub fn from_chars(s: &[char]) -> (r: Service)
        ensures
            r@ == service_of(s@),
    {
        if is_word(s, "compat") {
            Service::Compat
        } else if is_word(s, "dns") {
            Service::Dns
        } else if is_word(s, "files") {
            Service::Files
        } else {
            Service::Other(string_of(s))
        }
    }
}


//------------ Rule ----------------------------------------------------------

/// A lookup rule for a single database.
#[derive(Clone, Debug, Eq, PartialEq)]
pub enum Rule {
    /// Consult this service.
    Service(Service),
    /// Override the default action of the service just before this rule
    /// when it reported this status.
    Action(Status, Action),
}

impl View for Rule {
    type V = RuleView;

    open spec fn view(&self) -> RuleView {
        match self {
            Rule::Service(s) => RuleView::Service(s@),
            Rule::Action(st, a) => RuleView::Action(*st, *a),
        }
    }
}

/// The rules seen through their views.
pub open spec fn rules_view(rs: Seq<Rule>) -> Seq<RuleView> {
    rs.map_values(|r: Rule| r@)
}

/// The text with all leading `c` removed.
pub open spec fn trim_start(s: Seq<char>, c: char) -> Seq<char>
    decreases s.len(),
{
    if s.len() > 0 && s[0] == c {
        trim_start(s.drop_first(), c)
    } else {
        s
    }
}

/// The text with all trailing `c` removed.
pub open spec fn trim_end(s: Seq<char>, c: char) -> Seq<char>
    decreases s.len(),
{
    if s.len() > 0 && s.last() == c {
        trim_end(s.drop_last(), c)
    } else {
        s
    }
}

/// `k` is the place of the first `c` in `s`, or the length of `s` where
/// there is none.
pub open spec fn first_at(s: Seq<char>, c: char, k: int) -> bool {
    &&& 0 <= k <= s.len()
    &&& k < s.len() ==> s[k] == c
    &&& forall|j: int| 0 <= j < k ==> s[j] != c
}

/// The place of the first `c` in `s`, or the length of `s`.
pub open spec fn find(s: Seq<char>, c: char) -> int {
    choose|k: int| first_at(s, c, k)
}

proof fn lemma_find(s: Seq<char>, c: char, k: int)
    requires
        first_at(s, c, k),
    ensures
        find(s, c) == k,
{
    let f = find(s, c);
    assert(first_at(s, c, f));
    if f < k {
        assert(s[f] != c);
    } else if k < f {
        assert(s[k] != c);
    }
}

/// The rule that a (lower case) word of the configuration denotes, if any:
/// `[status=action]` or a service name.
pub open spec fn rule_of(w: Seq<char>) -> Option<RuleView> {
    if w.len() > 0 && w[0] == '[' {
        if w.last() != ']' {
            None
        } else {
            let inner = trim_end(trim_start(w, '['), ']');
            let k = find(inner, '=');
            if k == inner.len() {
                None
            } else {
                match (status_of(inner.take(k)), action_of(inner.skip(k + 1))) {
                    (Some(st), Some(a)) => Some(RuleView::Action(st, a)),
                    _ => None,
                }
            }
        }
    } else {
        Some(RuleView::Service(service_of(w)))
    }
}

/// Where the leading `c` of `s` end.
fn skip_leading(s: &[char], c: char) -> (r: usize)
    ensures
        r <= s@.len(),
        s@.skip(r as int) == trim_start(s@, c),
{
    let mut i: usize = 0;
    assert(s@.skip(0) =~= s@);
    while i < s.len() && s[i] == c
        invariant
            i <= s@.len(),
            trim_start(s@.skip(i as int), c) == trim_start(s@, c),
        decreases s@.len() - i,
    {
        assert(s@.skip(i as int).drop_first() =~= s@.skip(i + 1));
        i = i + 1;
    }
    assert(trim_start(s@.skip(i as int), c) == s@.skip(i as int));
    i
}

/// Where the text ends once the trailing `c` are gone.
fn skip_trailing(s: &[char], c: char) -> (r: usize)
    ensures
        r <= s@.len(),
        s@.take(r as int) == trim_end(s@, c),
{
    let mut i: usize = s.len();
    assert(s@.take(s@.len() as int) =~= s@);
    while i > 0 && s[i - 1] == c
        invariant
            i <= s@.len(),
            trim_end(s@.take(i as int), c) == trim_end(s@, c),
        decreases i,
    {
        assert(s@.take(i as int).drop_last() =~= s@.take(i - 1));
        i = i - 1;
    }
    i
}

/// The place of the first `c` in `s`, or the length of `s`.
pub(crate) fn find_char(s: &[char], c: char) -> (r: usize)
    ensures
        r <= s@.len(),
        r as int == find(s@, c),
{
    let mut i: usize = 0;
    while i < s.len() && s[i] != c
        invariant
            i <= s@.len(),
            forall|j: int| 0 <= j < i ==> s@[j] != c,
        decreases s@.len() - i,
    {
        i = i + 1;
    }
    proof {
        lemma_find(s@, c, i as int);
    }
    i
}

impl Rule {
    /// The rule that a (lower case) word denotes, or `None` where the word is
    /// a bracket that is not a known `[status=action]` pair.
    pub fn from_chars(w: &[char]) -> (r: Option<Rule>)
        ensures
            match r {
                Some(rule) => rule_of(w@) == Some(rule@),
                None => rule_of(w@) is None,
            },
    {
        if w.len() > 0 && w[0] == '[' {
            if w[w.len() - 1] != ']' {
                return None;
            }
            let a = skip_leading(w, '[');
            let front = slice_subrange(w, a, w.len());
            assert(front@ =~= w@.skip(a as int));
            let b = skip_trailing(front, ']');
            let inner = slice_subrange(front, 0, b);
            assert(inner@ =~= front@.take(b as int));
            let k = find_char(inner, '=');
            if k == inner.len() {
                return None;
            }
            let st = Status::from_chars(slice_subrange(inner, 0, k));
            let ac = Action::from_chars(slice_subrange(inner, k + 1, inner.len()));
            assert(inner@.subrange(0, k as int) =~= inner@.take(k as int));
            assert(inner@.subrange(k + 1, inner@.len() as int) =~= inner@.skip(k + 1));
            match (st, ac) {
                (Some(st), Some(ac)) => Some(Rule::Action(st, ac)),
                _ => None,
            }
        } else {
            Some(Rule::Service(Service::from_chars(w)))
        }
    }
}


//------------ Lines ---------------------------------------------------------

/// The word being read ends: it joins the list unless it is empty.
pub open spec fn close_word(cur: Seq<char>, acc: Seq<Seq<char>>) -> Seq<Seq<char>> {
    if cur.len() > 0 {
        acc.push(cur)
    } else {
        acc
    }
}

/// Splitting `s` from `i` on, with the word `cur` begun and the words `acc`
/// found before it.
pub open spec fn split_from(s: Seq<char>, i: int, cur: Seq<char>, acc: Seq<Seq<char>>) -> Seq<
    Seq<char>,
>
    decreases s.len() - i,
{
    if i >= s.len() {
        close_word(cur, acc)
    } else if is_space(s[i]) {
        split_from(s, i + 1, Seq::empty(), close_word(cur, acc))
    } else {
        split_from(s, i + 1, cur.push(s[i]), acc)
    }
}

/// The non-empty runs of non-space characters of `s`, in order.
pub open spec fn words(s: Seq<char>) -> Seq<Seq<char>> {
    split_from(s, 0, Seq::empty(), Seq::empty())
}

/// The vectors seen through their views.
pub open spec fn views(v: Seq<Vec<char>>) -> Seq<Seq<char>> {
    v.map_values(|w: Vec<char>| w@)
}

/// The words of `s`.
pub(crate) fn words_of(s: &[char]) -> (r: Vec<Vec<char>>)
    ensures
        views(r@) == words(s@),
{
    let mut r: Vec<Vec<char>> = Vec::new();
    let mut cur: Vec<char> = Vec::new();
    let mut i: usize = 0;
    assert(views(r@) =~= Seq::<Seq<char>>::empty());
    while i < s.len()
        invariant
            i <= s@.len(),
            split_from(s@, i as int, cur@, views(r@)) == words(s@),
        decreases s@.len() - i,
    {
        if is_space_exec(s[i]) {
            if cur.len() > 0 {
                let ghost before = r@;
                r.push(cur);
                assert(views(r@) =~= views(before).push(cur@));
                cur = Vec::new();
            } else {
                cur = Vec::new();
            }
            assert(cur@ =~= Seq::<char>::empty());
        } else {
            cur.push(s[i]);
        }
        i = i + 1;
    }
    if cur.len() > 0 {
        let ghost before = r@;
        r.push(cur);
        assert(views(r@) =~= views(before).push(cur@));
    }
    r
}

/// What one line of the configuration holds.
pub enum LineView {
    /// Nothing but white space and a comment.
    Blank,
    /// The rules for a database.
    Entry(DatabaseView, Seq<RuleView>),
    /// Text that breaks the grammar.
    Malformed,
}

/// What a (lower case) line of the configuration holds: the text before
/// the first `#`, split into words, is either empty, or a database name
/// ending in `:` followed by rules.
pub open spec fn line_of(l: Seq<char>) -> LineView {
    let ws = words(l.take(find(l, '#')));
    if ws.len() == 0 {
        LineView::Blank
    } else if !(ws[0].len() > 0 && ws[0].last() == ':') {
        LineView::Malformed
    } else if exists|i: int| 1 <= i < ws.len() && rule_of(ws[i]) is None {
        LineView::Malformed
    } else {
        LineView::Entry(
            database_of(trim_end(ws[0], ':')),
            Seq::new((ws.len() - 1) as nat, |i: int| rule_of(ws[i + 1])->Some_0),
        )
    }
}

/// Splitting `t` into lines from `i` on, with the line `cur` begun and the
/// lines `acc` before it.
pub open spec fn lines_from(t: Seq<char>, i: int, cur: Seq<char>, acc: Seq<Seq<char>>) -> Seq<
    Seq<char>,
>
    decreases t.len() - i,
{
    if i >= t.len() {
        acc.push(cur)
    } else if t[i] == '\n' {
        lines_from(t, i + 1, Seq::empty(), acc.push(cur))
    } else {
        lines_from(t, i + 1, cur.push(t[i]), acc)
    }
}

/// The lines of `t`: the text between line feeds.
pub open spec fn lines(t: Seq<char>) -> Seq<Seq<char>> {
    lines_from(t, 0, Seq::empty(), Seq::empty())
}

proof fn lemma_lines_keep(t: Seq<char>, i: int, cur: Seq<char>, acc: Seq<Seq<char>>)
    ensures
        lines_from(t, i, cur, acc).len() > acc.len(),
        lines_from(t, i, cur, acc).take(acc.len() as int) == acc,
    decreases t.len() - i,
{
    let all = lines_from(t, i, cur, acc);
    if i >= t.len() {
        assert(all.take(acc.len() as int) =~= acc);
    } else if t[i] == '\n' {
        let acc2 = acc.push(cur);
        lemma_lines_keep(t, i + 1, Seq::empty(), acc2);
        assert(all.take(acc.len() as int) =~= all.take(acc2.len() as int).take(acc.len() as int));
        assert(acc2.take(acc.len() as int) =~= acc);
    } else {
        lemma_lines_keep(t, i + 1, cur.push(t[i]), acc);
    }
}

/// Reading the lines in order: each definition enters the map, and the
/// first malformed line ends the parse.
pub open spec fn parse_lines(ls: Seq<Seq<char>>) -> Result<Map<DatabaseView, Seq<RuleView>>, Seq<char>>
    decreases ls.len(),
{
    if ls.len() == 0 {
        Ok(Map::empty())
    } else {
        match parse_lines(ls.drop_last()) {
            Err(e) => Err(e),
            Ok(m) => match line_of(ls.last()) {
                LineView::Blank => Ok(m),
                LineView::Entry(d, rs) => Ok(m.insert(d, rs)),
                LineView::Malformed => Err(ls.last()),
            },
        }
    }
}

/// What a configuration text holds: its lines in lower case, read in order.
/// An error carries the (lower case) line that breaks the grammar.
pub open spec fn parse_text(t: Seq<char>) -> Result<Map<DatabaseView, Seq<RuleView>>, Seq<char>> {
    parse_lines(lines(lower(t)))
}

proof fn lemma_parse_err_prefix(ls: Seq<Seq<char>>, n: int)
    requires
        0 <= n <= ls.len(),
        parse_lines(ls.take(n)) is Err,
    ensures
        parse_lines(ls) == parse_lines(ls.take(n)),
    decreases ls.len(),
{
    if ls.len() == n {
        assert(ls.take(n) =~= ls);
    } else {
        assert(ls.drop_last().take(n) =~= ls.take(n));
        lemma_parse_err_prefix(ls.drop_last(), n);
    }
}

/// Parsing ignores case: a text and its lower case form give the same
/// configuration, or the same error.
pub proof fn lemma_parse_ignores_case(t: Seq<char>)
    ensures
        parse_text(lower(t)) == parse_text(t),
{
    assert(lower(lower(t)) =~= lower(t));
}

/// A blank or comment-only line changes nothing, wherever it stands among
/// the lines of a configuration.
pub proof fn lemma_blank_line_ignored(before: Seq<Seq<char>>, l: Seq<char>, after: Seq<Seq<char>>)
    requires
        line_of(l) is Blank,
    ensures
        parse_lines(before + seq![l] + after) == parse_lines(before + after),
    decreases after.len(),
{
    if after.len() == 0 {
        assert((before + seq![l] + after).drop_last() =~= before);
        assert(before + after =~= before);
    } else {
        lemma_blank_line_ignored(before, l, after.drop_last());
        assert((before + seq![l] + after).drop_last() =~= before + seq![l] + after.drop_last());
        assert((before + after).drop_last() =~= before + after.drop_last());
    }
}

proof fn lemma_first_from(s: Seq<char>, c: char, i: int)
    requires
        0 <= i <= s.len(),
        forall|j: int| 0 <= j < i ==> s[j] != c,
    ensures
        first_at(s, c, find(s, c)),
    decreases s.len() - i,
{
    if i == s.len() || s[i] == c {
        assert(first_at(s, c, i));
    } else {
        lemma_first_from(s, c, i + 1);
    }
}

proof fn lemma_split_spaces(s: Seq<char>, i: int)
    requires
        0 <= i <= s.len(),
        forall|k: int| i <= k < s.len() ==> is_space(#[trigger] s[k]),
    ensures
        split_from(s, i, Seq::empty(), Seq::empty()) == Seq::<Seq<char>>::empty(),
    decreases s.len() - i,
{
    if i < s.len() {
        lemma_split_spaces(s, i + 1);
    }
}

/// A line holding nothing but white space before its first `#` (a blank
/// line, or a comment line) is blank, in any case.
pub proof fn lemma_blank_or_comment_line(l: Seq<char>)
    requires
        forall|k: int| 0 <= k < find(l, '#') ==> is_space(#[trigger] l[k]),
    ensures
        line_of(lower(l)) is Blank,
{
    let f = find(l, '#');
    lemma_first_from(l, '#', 0);
    let ll = lower(l);
    assert forall|k: int| 0 <= k < f implies ll[k] == l[k] && ll[k] != '#' by {
        assert(is_space(l[k]));
        assert(lower_char(l[k]) == l[k]);
    }
    if f < l.len() {
        assert(ll[f] == '#');
    }
    assert(first_at(ll, '#', f));
    lemma_find(ll, '#', f);
    let body = ll.take(f);
    assert forall|k: int| 0 <= k < body.len() implies is_space(#[trigger] body[k]) by {
        assert(body[k] == l[k]);
    }
    lemma_split_spaces(body, 0);
}

proof fn lemma_lines_acc(y: Seq<char>, j: int, cur: Seq<char>, acc: Seq<Seq<char>>)
    requires
        0 <= j,
    ensures
        lines_from(y, j, cur, acc) == acc + lines_from(y, j, cur, Seq::empty()),
    decreases y.len() - j,
{
    if j >= y.len() {
        assert(acc.push(cur) =~= acc + Seq::<Seq<char>>::empty().push(cur));
    } else if y[j] == '\n' {
        let e = Seq::<Seq<char>>::empty();
        lemma_lines_acc(y, j + 1, Seq::empty(), acc.push(cur));
        lemma_lines_acc(y, j + 1, Seq::empty(), e.push(cur));
        lemma_lines_acc(y, j + 1, Seq::empty(), acc);
        let rest = lines_from(y, j + 1, Seq::empty(), e);
        assert(acc.push(cur) + rest =~= acc + (e.push(cur) + rest));
    } else {
        lemma_lines_acc(y, j + 1, cur.push(y[j]), acc);
    }
}

proof fn lemma_lines_shift(p: Seq<char>, y: Seq<char>, j: int, cur: Seq<char>, acc: Seq<Seq<char>>)
    requires
        0 <= j <= y.len(),
    ensures
        lines_from(p + y, p.len() + j, cur, acc) == lines_from(y, j, cur, acc),
    decreases y.len() - j,
{
    if j < y.len() {
        assert((p + y)[p.len() + j] == y[j]);
        if y[j] == '\n' {
            lemma_lines_shift(p, y, j + 1, Seq::empty(), acc.push(cur));
        } else {
            lemma_lines_shift(p, y, j + 1, cur.push(y[j]), acc);
        }
    }
}

proof fn lemma_lines_concat(x: Seq<char>, y: Seq<char>, i: int, cur: Seq<char>, acc: Seq<Seq<char>>)
    requires
        0 <= i <= x.len(),
    ensures
        lines_from(x + seq!['\n'] + y, i, cur, acc) == lines_from(x, i, cur, acc) + lines(y),
    decreases x.len() - i,
{
    let p = x + seq!['\n'];
    let z = p + y;
    if i == x.len() {
        assert(z[i] == '\n');
        lemma_lines_shift(p, y, 0, Seq::empty(), acc.push(cur));
        lemma_lines_acc(y, 0, Seq::empty(), acc.push(cur));
    } else {
        assert(z[i] == x[i]);
        if x[i] == '\n' {
            lemma_lines_concat(x, y, i + 1, Seq::empty(), acc.push(cur));
        } else {
            lemma_lines_concat(x, y, i + 1, cur.push(x[i]), acc);
        }
    }
}

proof fn lemma_lines_single(l: Seq<char>, i: int, cur: Seq<char>)
    requires
        0 <= i <= l.len(),
        forall|k: int| 0 <= k < l.len() ==> l[k] != '\n',
    ensures
        lines_from(l, i, cur, Seq::empty()) == seq![cur + l.skip(i)],
    decreases l.len() - i,
{
    if i < l.len() {
        lemma_lines_single(l, i + 1, cur.push(l[i]));
        assert(cur.push(l[i]) + l.skip(i + 1) =~= cur + l.skip(i));
    } else {
        assert(cur + l.skip(i) =~= cur);
    }
}

/// A comment added at the end of a line changes nothing.
pub proof fn lemma_comment_suffix_ignored(l: Seq<char>, x: Seq<char>)
    requires
        forall|k: int| 0 <= k < l.len() ==> l[k] != '#',
    ensures
        line_of(lower(l + seq!['#'] + x)) == line_of(lower(l)),
{
    let a = lower(l);
    let b = lower(l + seq!['#'] + x);
    assert(b =~= a + seq!['#'] + lower(x));
    assert forall|k: int| 0 <= k < a.len() implies a[k] != '#' by {
        assert(l[k] != '#');
    }
    assert(first_at(a, '#', a.len() as int));
    lemma_find(a, '#', a.len() as int);
    assert(first_at(b, '#', a.len() as int));
    lemma_find(b, '#', a.len() as int);
    assert(b.take(a.len() as int) =~= a);
    assert(a.take(a.len() as int) =~= a);
}

/// A blank or comment line put between two lines of a configuration text
/// changes nothing: the text gives the same configuration, or the same
/// error.
pub proof fn lemma_blank_text_line(t1: Seq<char>, l: Seq<char>, t2: Seq<char>)
    requires
        forall|k: int| 0 <= k < l.len() ==> l[k] != '\n',
        forall|k: int| 0 <= k < find(l, '#') ==> is_space(#[trigger] l[k]),
    ensures
        parse_text(t1 + seq!['\n'] + l + seq!['\n'] + t2) == parse_text(t1 + seq!['\n'] + t2),
{
    let nl = seq!['\n'];
    let a = lower(t1);
    let b = lower(l);
    let c = lower(t2);
    assert(lower(nl) =~= nl);
    assert(lower(t1 + nl + l + nl + t2) =~= a + nl + (b + nl + c));
    assert(lower(t1 + nl + t2) =~= a + nl + c);
    assert forall|k: int| 0 <= k < b.len() implies b[k] != '\n' by {
        assert(l[k] != '\n');
    }
    lemma_lines_concat(a, b + nl + c, 0, Seq::empty(), Seq::empty());
    lemma_lines_concat(b, c, 0, Seq::empty(), Seq::empty());
    lemma_lines_concat(a, c, 0, Seq::empty(), Seq::empty());
    lemma_lines_single(b, 0, Seq::empty());
    assert(Seq::<char>::empty() + b.skip(0) =~= b);
    lemma_blank_or_comment_line(l);
    lemma_blank_line_ignored(lines(a), b, lines(c));
    assert(lines(a) + (seq![b] + lines(c)) =~= lines(a) + seq![b] + lines(c));
}

impl PartialEq for Conf {
    fn eq(&self, other: &Conf) -> (r: bool) {
        let r = self.covered_by(other) && other.covered_by(self);
        proof {
            if r {
                assert(self@ =~= other@);
            }
        }
        r
    }
}

impl vstd::std_specs::cmp::PartialEqSpecImpl for Conf {
    open spec fn obeys_eq_spec() -> bool {
        true
    }

    open spec fn eq_spec(&self, other: &Conf) -> bool {
        self@ == other@
    }
}

impl Eq for Conf {
}

//------------ Error ---------------------------------------------------------

/// An error that happened while parsing a configuration.
#[derive(Clone, Debug, Eq, PartialEq)]
pub enum Error {
    /// The line (in lower case) breaks the grammar.
    ParseError(String),
}

impl Error {
    /// A short description of the error.
    pub fn description(&self) -> (r: &'static str)
        ensures
            r@ == "error parsing configuration"@,
    {
        match self {
            Error::ParseError(_) => "error parsing configuration",
        }
    }
}

//------------ Conf ----------------------------------------------------------

/// The databases of a list of definitions, a later one for the same
/// database replacing an earlier one.
pub open spec fn entries_map(s: Seq<(Database, Vec<Rule>)>) -> Map<DatabaseView, Seq<RuleView>>
    decreases s.len(),
{
    if s.len() == 0 {
        Map::empty()
    } else {
        entries_map(s.drop_last()).insert(s.last().0@, rules_view(s.last().1@))
    }
}

proof fn lemma_entries_tail(s: Seq<(Database, Vec<Rule>)>, i: int, k: DatabaseView)
    requires
        0 <= i <= s.len(),
        forall|j: int| i <= j < s.len() ==> s[j].0@ != k,
    ensures
        entries_map(s).contains_key(k) == entries_map(s.take(i)).contains_key(k),
        entries_map(s).contains_key(k) ==> entries_map(s)[k] == entries_map(s.take(i))[k],
    decreases s.len(),
{
    if s.len() > i {
        lemma_entries_tail(s.drop_last(), i, k);
        assert(s.drop_last().take(i) =~= s.take(i));
    } else {
        assert(s.take(i) =~= s);
    }
}

proof fn lemma_entries_remove(s: Seq<(Database, Vec<Rule>)>, j: int)
    requires
        0 <= j < s.len(),
    ensures
        forall|k: DatabaseView| k != s[j].0@ ==> {
            &&& #[trigger] entries_map(s.remove(j)).contains_key(k) == entries_map(s).contains_key(k)
            &&& entries_map(s).contains_key(k) ==> entries_map(s.remove(j))[k] == entries_map(s)[k]
        },
    decreases s.len(),
{
    if j == s.len() - 1 {
        assert(s.remove(j) =~= s.drop_last());
    } else {
        let r = s.remove(j);
        let d = s.drop_last();
        lemma_entries_remove(d, j);
        assert(r.drop_last() =~= d.remove(j));
        assert(r.last() == s.last());
        assert(d[j] == s[j]);
        assert forall|k: DatabaseView| k != s[j].0@ implies {
            &&& #[trigger] entries_map(s.remove(j)).contains_key(k) == entries_map(s).contains_key(k)
            &&& entries_map(s).contains_key(k) ==> entries_map(s.remove(j))[k] == entries_map(s)[k]
        } by {
            assert(entries_map(r) == entries_map(d.remove(j)).insert(s.last().0@, rules_view(s.last().1@)));
            assert(entries_map(s) == entries_map(d).insert(s.last().0@, rules_view(s.last().1@)));
            assert(entries_map(d.remove(j)).contains_key(k) == entries_map(d).contains_key(k));
        }
    }
}

proof fn lemma_entries_replace(s: Seq<(Database, Vec<Rule>)>, j: int, v: Seq<RuleView>)
    requires
        0 <= j < s.len(),
    ensures
        entries_map(s.remove(j)).insert(s[j].0@, v) == entries_map(s).insert(s[j].0@, v),
{
    lemma_entries_remove(s, j);
    assert(entries_map(s.remove(j)).insert(s[j].0@, v) =~= entries_map(s).insert(s[j].0@, v));
}

proof fn lemma_entries_keys(s: Seq<(Database, Vec<Rule>)>, k: DatabaseView)
    requires
        entries_map(s).contains_key(k),
    ensures
        exists|i: int| 0 <= i < s.len() && s[i].0@ == k,
    decreases s.len(),
{
    if s.last().0@ == k {
        assert(s[s.len() - 1].0@ == k);
    } else {
        lemma_entries_keys(s.drop_last(), k);
        let i = choose|i: int| 0 <= i < s.drop_last().len() && s.drop_last()[i].0@ == k;
        assert(s[i].0@ == k);
    }
}

proof fn lemma_entry_key_in(s: Seq<(Database, Vec<Rule>)>, i: int)
    requires
        0 <= i < s.len(),
    ensures
        entries_map(s).contains_key(s[i].0@),
    decreases s.len(),
{
    if i < s.len() - 1 {
        lemma_entry_key_in(s.drop_last(), i);
        assert(s.drop_last()[i] == s[i]);
    }
}

fn same_service(a: &Service, b: &Service) -> (r: bool)
    ensures
        r == (a@ == b@),
{
    match (a, b) {
        (Service::Compat, Service::Compat) => true,
        (Service::Dns, Service::Dns) => true,
        (Service::Files, Service::Files) => true,
        (Service::Other(x), Service::Other(y)) => x.eq(y),
        _ => false,
    }
}

fn same_rules(a: &[Rule], b: &[Rule]) -> (r: bool)
    ensures
        r == (rules_view(a@) == rules_view(b@)),
{
    if a.len() != b.len() {
        assert(rules_view(a@).len() != rules_view(b@).len());
        return false;
    }
    let mut i: usize = 0;
    while i < a.len()
        invariant
            i <= a@.len(),
            a@.len() == b@.len(),
            forall|j: int| 0 <= j < i ==> a@[j]@ == b@[j]@,
        decreases a@.len() - i,
    {
        let same = match (&a[i], &b[i]) {
            (Rule::Service(x), Rule::Service(y)) => same_service(x, y),
            (Rule::Action(s1, a1), Rule::Action(s2, a2)) => *s1 == *s2 && *a1 == *a2,
            _ => false,
        };
        if !same {
            assert(rules_view(a@)[i as int] != rules_view(b@)[i as int]);
            return false;
        }
        i = i + 1;
    }
    assert(rules_view(a@) =~= rules_view(b@));
    true
}

/// The name service switch configuration.
///
/// Each database appears once: a later definition takes the place of the
/// earlier one.
#[derive(Clone, Debug)]
pub struct Conf {
    entries: Vec<(Database, Vec<Rule>)>,
}

impl View for Conf {
    type V = Map<DatabaseView, Seq<RuleView>>;

    closed spec fn view(&self) -> Map<DatabaseView, Seq<RuleView>> {
        entries_map(self.entries@)
    }
}

impl Conf {
    /// Whether every database of `self` has the same rules in `other`.
    fn covered_by(&self, other: &Conf) -> (r: bool)
        ensures
            r == forall|k: DatabaseView| #[trigger] self@.contains_key(k) ==> other@.contains_key(k)
                && other@[k] == self@[k],
    {
        let mut i: usize = 0;
        while i < self.entries.len()
            invariant
                i <= self.entries@.len(),
                forall|j: int| 0 <= j < i ==> {
                    let k = #[trigger] self.entries@[j].0@;
                    self@.contains_key(k) && other@.contains_key(k) && other@[k] == self@[k]
                },
            decreases self.entries@.len() - i,
        {
            let db = &self.entries[i].0;
            let ok = match (self.database(db), other.database(db)) {
                (Some(a), Some(b)) => same_rules(a, b),
                _ => false,
            };
            if !ok {
                proof {
                    lemma_entry_key_in(self.entries@, i as int);
                    let k = self.entries@[i as int].0@;
                    assert(self@.contains_key(k));
                    assert(!(other@.contains_key(k) && other@[k] == self@[k]));
                }
                return false;
            }
            proof {
                lemma_entry_key_in(self.entries@, i as int);
            }
            i = i + 1;
        }
        assert forall|k: DatabaseView| #[trigger] self@.contains_key(k) implies other@.contains_key(k)
            && other@[k] == self@[k] by {
            lemma_entries_keys(self.entries@, k);
            let j = choose|j: int| 0 <= j < self.entries@.len() && self.entries@[j].0@ == k;
            assert(self.entries@[j].0@ == k);
        }
        true
    }

    /// A configuration without any database.
    pub fn new() -> (r: Self)
        ensures
            r@ == Map::<DatabaseView, Seq<RuleView>>::empty(),
    {
        Conf { entries: Vec::new() }
    }

    /// The rules for the database, if the configuration has any.
    pub fn database(&self, db: &Database) -> (r: Option<&[Rule]>)
        ensures
            match r {
                Some(rs) => self@.contains_key(db@) && rules_view(rs@) == self@[db@],
                None => !self@.contains_key(db@),
            },
    {
        let mut i: usize = self.entries.len();
        while i > 0
            invariant
                i <= self.entries@.len(),
                forall|j: int| i <= j < self.entries@.len() ==> self.entries@[j].0@ != db@,
            decreases i,
        {
            if self.entries[i - 1].0.same(db) {
                proof {
                    lemma_entries_tail(self.entries@, i as int, db@);
                    assert(self.entries@.take(i as int).drop_last() =~= self.entries@.take(
                        i - 1,
                    ));
                }
                return Some(self.entries[i - 1].1.as_slice());
            }
            i = i - 1;
        }
        proof {
            lemma_entries_tail(self.entries@, 0, db@);
        }
        None
    }

    /// Where the definition of the database stands, if there is one.
    fn position(&self, db: &Database) -> (r: Option<usize>)
        ensures
            r matches Some(j) ==> j < self.entries@.len() && self.entries@[j as int].0@ == db@,
    {
        let mut i: usize = self.entries.len();
        while i > 0
            invariant
                i <= self.entries@.len(),
            decreases i,
        {
            if self.entries[i - 1].0.same(db) {
                return Some(i - 1);
            }
            i = i - 1;
        }
        None
    }

    /// Parses a configuration text.
    pub fn parse(text: &str) -> (r: Result<Conf, Error>)
        ensures
            match parse_text(text@) {
                Ok(m) => r matches Ok(c) && c@ == m,
                Err(l) => r matches Err(Error::ParseError(e)) && e@ == l,
            },
    {
        let low = lower_chars(text);
        let ghost t = low@;
        let mut conf = Conf::new();
        let mut cur: Vec<char> = Vec::new();
        let ghost mut done: Seq<Seq<char>> = Seq::empty();
        let mut i: usize = 0;
        while i < low.len()
            invariant
                t == low@,
                t == lower(text@),
                i <= t.len(),
                lines_from(t, i as int, cur@, done) == lines(t),
                parse_lines(done) == Ok::<Map<DatabaseView, Seq<RuleView>>, Seq<char>>(conf@),
            decreases t.len() - i,
        {
            if low[i] == '\n' {
                let res = conf.parse_lower_line(cur.as_slice());
                proof {
                    let d2 = done.push(cur@);
                    assert(d2.drop_last() =~= done);
                    lemma_lines_keep(t, i + 1, Seq::empty(), d2);
                    if res is Err {
                        lemma_parse_err_prefix(lines(t), d2.len() as int);
                    }
                    done = d2;
                }
                if let Err(e) = res {
                    return Err(e);
                }
                cur = Vec::new();
            } else {
                cur.push(low[i]);
            }
            i = i + 1;
        }
        let res = conf.parse_lower_line(cur.as_slice());
        proof {
            let d2 = done.push(cur@);
            assert(d2.drop_last() =~= done);
        }
        match res {
            Ok(()) => Ok(conf),
            Err(e) => Err(e),
        }
    }

    /// Takes in one line of the configuration: after it is put in lower case,
    /// a definition replaces the database's rules, a blank or comment line
    /// changes nothing, and a malformed line is an error.
    pub fn parse_line(&mut self, line: &str) -> (r: Result<(), Error>)
        ensures
            match line_of(lower(line@)) {
                LineView::Blank => r is Ok && final(self)@ == old(self)@,
                LineView::Entry(d, rs) => r is Ok && final(self)@ == old(self)@.insert(d, rs),
                LineView::Malformed => r matches Err(Error::ParseError(t)) && t@ == lower(line@)
                    && final(self)@ == old(self)@,
            },
    {
        let low = lower_chars(line);
        self.parse_lower_line(low.as_slice())
    }

    /// Takes in one line of the configuration, already in lower case.
    fn parse_lower_line(&mut self, l: &[char]) -> (r: Result<(), Error>)
        ensures
            match line_of(l@) {
                LineView::Blank => r is Ok && final(self)@ == old(self)@,
                LineView::Entry(d, rs) => r is Ok && final(self)@ == old(self)@.insert(d, rs),
                LineView::Malformed => r matches Err(Error::ParseError(t)) && t@ == l@
                    && final(self)@ == old(self)@,
            },
    {
        let cut = find_char(l, '#');
        let body = slice_subrange(l, 0, cut);
        assert(body@ =~= l@.take(cut as int));
        let ws = words_of(body);
        let ghost wv = views(ws@);
        assert(wv.len() == ws@.len());
        if ws.len() == 0 {
            return Ok(());
        }
        assert(wv[0] == ws@[0]@);
        let first = ws[0].as_slice();
        if !(first.len() > 0 && first[first.len() - 1] == ':') {
            return Err(Error::ParseError(string_of(l)));
        }
        assert(first@ == wv[0]);
        let e = skip_trailing(first, ':');
        let db = Database::from_chars(slice_subrange(first, 0, e));
        assert(first@.subrange(0, e as int) =~= first@.take(e as int));
        let mut rules: Vec<Rule> = Vec::new();
        let mut i: usize = 1;
        while i < ws.len()
            invariant
                1 <= i <= ws@.len(),
                wv == views(ws@),
                wv == words(l@.take(find(l@, '#'))),
                wv.len() == ws@.len(),
                wv[0].len() > 0 && wv[0].last() == ':',
                rules@.len() == i - 1,
                forall|j: int| 1 <= j < i ==> rule_of(#[trigger] wv[j]) is Some,
                forall|j: int| 0 <= j < i - 1 ==> Some(#[trigger] rules@[j]@) == rule_of(wv[j + 1]),
            decreases ws@.len() - i,
        {
            assert(wv[i as int] == ws@[i as int]@);
            match Rule::from_chars(ws[i].as_slice()) {
                Some(rule) => rules.push(rule),
                None => {
                    assert(rule_of(wv[i as int]) is None);
                    assert(1 <= i < wv.len());
                    assert(wv[0].len() > 0 && wv[0].last() == ':');
                    return Err(Error::ParseError(string_of(l)));
                },
            }
            i = i + 1;
        }
        let ghost rs = Seq::new((wv.len() - 1) as nat, |j: int| rule_of(wv[j + 1])->Some_0);
        assert(rules_view(rules@) =~= rs);
        let ghost before = self.entries@;
        if let Some(j) = self.position(&db) {
            let _ = self.entries.remove(j);
            proof {
                lemma_entries_replace(before, j as int, rules_view(rules@));
            }
        }
        let ghost mid = self.entries@;
        self.entries.push((db, rules));
        assert(self.entries@.drop_last() =~= mid);
        assert(entries_map(self.entries@) == entries_map(before).insert(db@, rules_view(rules@)));
        assert(!(exists|j: int| 1 <= j < wv.len() && rule_of(wv[j]) is None));
        Ok(())
    }
}

} // verus!
