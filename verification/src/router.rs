//! Nested routes with parameters, wildcards, index routes, guards and lazily
//! loaded children.
use vstd::prelude::*;
use vstd::string::StringExecFns;
use crate::error::{concat, concat_s};
use crate::strutil::{chars_of, push_char, str_eq, string_of, string_of_range, sub_chars};

verus! {

// ---------------------------------------------------------------------------
// Errors, parameters and the context guards see
// ---------------------------------------------------------------------------

/// Why a path could not be resolved.
#[derive(Debug, Clone, PartialEq, Eq)]
pub enum RouterError {
    NotFound(String),
    Forbidden { path: String, reason: String },
    RedirectLoop(String),
    LazyLoad { route: String, message: String },
}

/// A map from names to values that keeps the order of first insertion.
#[derive(Debug)]
pub struct ParamMap {
    entries: Vec<(String, String)>,
}

/// The value a map of pairs with distinct keys gives `k`.
pub open spec fn pm_get(s: Seq<(Seq<char>, Seq<char>)>, k: Seq<char>) -> Option<Seq<char>>
    decreases s.len(),
{
    if s.len() == 0 {
        None
    } else if s.last().0 == k {
        Some(s.last().1)
    } else {
        pm_get(s.drop_last(), k)
    }
}

/// The index of the entry for `k`, or -1.
pub open spec fn pm_index(s: Seq<(Seq<char>, Seq<char>)>, k: Seq<char>, i: int) -> int
    decreases s.len() - i,
{
    if i < 0 || i >= s.len() {
        -1
    } else if s[i].0 == k {
        i
    } else {
        pm_index(s, k, i + 1)
    }
}

/// Inserting: the value of an existing key is replaced in place, a new key
/// is appended.
pub open spec fn pm_insert(s: Seq<(Seq<char>, Seq<char>)>, k: Seq<char>, v: Seq<char>) -> Seq<(Seq<char>, Seq<char>)> {
    let i = pm_index(s, k, 0);
    if i < 0 {
        s.push((k, v))
    } else {
        s.update(i, (k, v))
    }
}

/// No key occurs twice.
pub open spec fn pm_distinct(s: Seq<(Seq<char>, Seq<char>)>) -> bool {
    forall|i: int, j: int| 0 <= i < j < s.len() ==> s[i].0 != s[j].0
}

impl View for ParamMap {
    type V = Seq<(Seq<char>, Seq<char>)>;

    closed spec fn view(&self) -> Seq<(Seq<char>, Seq<char>)> {
        self.entries@.map_values(|p: (String, String)| (p.0@, p.1@))
    }
}

impl ParamMap {
    /// No name has two entries.
    #[verifier::type_invariant]
    spec fn keys_distinct(self) -> bool {
        pm_distinct(self.entries@.map_values(|p: (String, String)| (p.0@, p.1@)))
    }

    /// An empty map.
    pub fn new() -> (r: ParamMap)
        ensures
            r@ == Seq::<(Seq<char>, Seq<char>)>::empty(),
            pm_distinct(r@),
    {
        let e: Vec<(String, String)> = Vec::new();
        assert(e@.map_values(|p: (String, String)| (p.0@, p.1@)) =~= Seq::<(Seq<char>, Seq<char>)>::empty());
        ParamMap { entries: e }
    }

    /// Sets `k` to `v`.
    pub fn insert(&mut self, k: String, v: String)
        ensures
            final(self)@ == pm_insert(old(self)@, k@, v@),
            pm_distinct(final(self)@),
    {
        proof {
            use_type_invariant(&*self);
        }
        let ghost m = self@;
        let mut i: usize = 0;
        while i < self.entries.len()
            invariant
                m == self@,
                m == old(self)@,
                pm_distinct(m),
                i <= self.entries@.len(),
                pm_index(m, k@, 0) == pm_index(m, k@, i as int),
                forall|j: int| 0 <= j < i ==> (#[trigger] m[j]).0 != k@,
            decreases self.entries@.len() - i,
        {
            if str_eq(self.entries[i].0.as_str(), k.as_str()) {
                assert(pm_index(m, k@, i as int) == i);
                let mut entries: Vec<(String, String)> = Vec::new();
                std::mem::swap(&mut entries, &mut self.entries);
                entries.set(i, (k, v));
                let ghost m2 = entries@.map_values(|p: (String, String)| (p.0@, p.1@));
                assert(m2 =~= pm_insert(m, k@, v@));
                assert forall|a: int, b: int| 0 <= a < b < m2.len() implies m2[a].0 != m2[b].0 by {
                    assert(m2[a].0 == m[a].0);
                    assert(m2[b].0 == m[b].0);
                }
                *self = ParamMap { entries };
                return;
            }
            i = i + 1;
        }
        let mut entries: Vec<(String, String)> = Vec::new();
        std::mem::swap(&mut entries, &mut self.entries);
        entries.push((k, v));
        let ghost m2 = entries@.map_values(|p: (String, String)| (p.0@, p.1@));
        assert(m2 =~= pm_insert(m, k@, v@));
        assert forall|a: int, b: int| 0 <= a < b < m2.len() implies m2[a].0 != m2[b].0 by {
            if b < m.len() {
                assert(m2[a].0 == m[a].0);
                assert(m2[b].0 == m[b].0);
            } else {
                assert(m2[a].0 == m[a].0);
                assert(m[a].0 != k@);
            }
        }
        *self = ParamMap { entries };
    }

    /// The value of `k`: that of its entry.
    pub fn get(&self, k: &str) -> (r: Option<&String>)
        ensures
            match pm_get(self@, k@) {
                Some(v) => r matches Some(x) && x@ == v,
                None => r is None,
            },
    {
        let mut i = self.entries.len();
        assert(self@.take(i as int) =~= self@);
        while i > 0
            invariant
                i <= self.entries@.len(),
                pm_get(self@, k@) == pm_get(self@.take(i as int), k@),
            decreases i,
        {
            assert(self@.take(i as int).drop_last() =~= self@.take(i - 1));
            if str_eq(self.entries[i - 1].0.as_str(), k) {
                return Some(&self.entries[i - 1].1);
            }
            i = i - 1;
        }
        None
    }

    /// Whether `k` has a value.
    pub fn contains_key(&self, k: &str) -> (r: bool)
        ensures
            r == pm_get(self@, k@) is Some,
    {
        self.get(k).is_some()
    }

    /// The number of entries.
    pub fn len(&self) -> (r: usize)
        ensures
            r == self@.len(),
    {
        self.entries.len()
    }

    fn copy(&self) -> (r: ParamMap)
        ensures
            r@ == self@,
    {
        let mut e: Vec<(String, String)> = Vec::new();
        for i in 0..self.entries.len()
            invariant
                e@.len() == i,
                forall|j: int| 0 <= j < i ==> (#[trigger] e@[j]).0@ == self.entries@[j].0@ && e@[j].1@
                    == self.entries@[j].1@,
        {
            e.push((self.entries[i].0.clone(), self.entries[i].1.clone()));
        }
        proof {
            use_type_invariant(self);
        }
        let ghost m = e@.map_values(|p: (String, String)| (p.0@, p.1@));
        assert(m =~= self@);
        let r = ParamMap { entries: e };
        r
    }
}

/// What a guard sees of a navigation.
#[derive(Debug)]
pub struct RouteContext {
    pub path: String,
    pub params: ParamMap,
    pub query: ParamMap,
    pub principal: Option<String>,
}

impl RouteContext {
    /// What the guards of a navigation to `path` are handed: the path as
    /// asked for, the route parameters and the query, and no principal.
    pub fn for_navigation(path: &str, params: ParamMap, query: ParamMap) -> (r: RouteContext)
        ensures
            r.path@ == path@,
            r.params@ == params@,
            r.query@ == query@,
            r.principal is None,
    {
        RouteContext { path: path.to_owned(), params, query, principal: None }
    }
}

/// A guard's decision.
#[derive(Debug, Clone, PartialEq, Eq)]
pub enum GuardResult {
    Allow,
    Redirect(String),
    Deny(String),
}

/// A check that runs before a route is entered. Implemented by users of the
/// router; nothing is assumed of what it decides.
pub trait RouteGuard {
    fn check(&self, ctx: &RouteContext) -> GuardResult;
}

/// Produces the children of a lazy route, once. Implemented by users of the
/// router; nothing is assumed of what it returns.
pub trait RouteLoader: Sized {
    fn load(&mut self) -> Result<Vec<Route<Self>>, String>;
}

/// The loader of a router without lazy routes: it produces no children.
#[derive(Debug)]
pub struct NoLazy;

impl RouteLoader for NoLazy {
    fn load(&mut self) -> (r: Result<Vec<Route<NoLazy>>, String>)
        ensures
            r matches Ok(v) && v@.len() == 0,
    {
        Ok(Vec::new())
    }
}

// ---------------------------------------------------------------------------
// Percent decoding and queries
// ---------------------------------------------------------------------------

pub open spec fn hex_val(c: char) -> int {
    if '0' <= c && c <= '9' {
        c as int - '0' as int
    } else if 'a' <= c && c <= 'f' {
        c as int - 'a' as int + 10
    } else if 'A' <= c && c <= 'F' {
        c as int - 'A' as int + 10
    } else {
        -1
    }
}

/// What `u8::from_str_radix(h, 16)` gives for a text of at most two
/// characters: an optional `+` then at least one hexadecimal digit.
pub open spec fn parse_hex(h: Seq<char>) -> Option<u8> {
    if h.len() == 1 && hex_val(h[0]) >= 0 {
        Some(hex_val(h[0]) as u8)
    } else if h.len() == 2 && h[0] == '+' && hex_val(h[1]) >= 0 {
        Some(hex_val(h[1]) as u8)
    } else if h.len() == 2 && hex_val(h[0]) >= 0 && hex_val(h[1]) >= 0 {
        Some((hex_val(h[0]) * 16 + hex_val(h[1])) as u8)
    } else {
        None
    }
}

/// Percent-decoding: `%` and the (at most two) characters after it become
/// the byte they spell in hexadecimal, taken as a character, or stay as
/// they are; `+` becomes a space.
pub open spec fn url_decode_s(s: Seq<char>) -> Seq<char>
    decreases s.len(),
{
    if s.len() == 0 {
        Seq::empty()
    } else if s[0] == '%' {
        let h = s.subrange(1, if s.len() < 3 {
            s.len() as int
        } else {
            3
        });
        match parse_hex(h) {
            Some(b) => seq![b as char] + url_decode_s(s.skip(1 + h.len() as int)),
            None => seq!['%'] + h + url_decode_s(s.skip(1 + h.len() as int)),
        }
    } else if s[0] == '+' {
        seq![' '] + url_decode_s(s.skip(1))
    } else {
        seq![s[0]] + url_decode_s(s.skip(1))
    }
}

/// `c` is a hexadecimal digit of value `v`: `0`-`9` for 0 to 9, and `a`-`f`
/// or `A`-`F` for 10 to 15.
pub open spec fn is_hex_digit_of(c: char, v: int) -> bool {
    ||| 0 <= v < 10 && c as int == 48 + v
    ||| 10 <= v < 16 && c as int == 97 + (v - 10)
    ||| 10 <= v < 16 && c as int == 65 + (v - 10)
}

/// `%` and two hexadecimal digits decode to the one character whose code
/// is the number they spell, the high digit first (`%20` is a space, `%41`
/// is `A`), and decoding goes on after them.
pub proof fn law_percent_escape_decodes(d0: char, d1: char, v0: int, v1: int, rest: Seq<char>)
    requires
        is_hex_digit_of(d0, v0),
        is_hex_digit_of(d1, v1),
    ensures
        url_decode_s(seq!['%', d0, d1] + rest).len() == 1 + url_decode_s(rest).len(),
        url_decode_s(seq!['%', d0, d1] + rest)[0] as int == 16 * v0 + v1,
        url_decode_s(seq!['%', d0, d1] + rest).skip(1) == url_decode_s(rest),
{
    let s = seq!['%', d0, d1] + rest;
    let h = s.subrange(1, 3);
    assert(h =~= seq![d0, d1]);
    assert(hex_val(d0) == v0);
    assert(hex_val(d1) == v1);
    assert(d0 != '+');
    assert(parse_hex(h) == Some((v0 * 16 + v1) as u8));
    assert(s.skip(3) =~= rest);
    let b = (v0 * 16 + v1) as u8;
    assert(b as int == 16 * v0 + v1);
    assert(url_decode_s(s) == seq![b as char] + url_decode_s(rest));
    assert((seq![b as char] + url_decode_s(rest)).skip(1) =~= url_decode_s(rest));
}

fn hex_val_exec(c: char) -> (r: i32)
    ensures
        r == hex_val(c),
{
    if '0' <= c && c <= '9' {
        (c as u32 - '0' as u32) as i32
    } else if 'a' <= c && c <= 'f' {
        (c as u32 - 'a' as u32 + 10) as i32
    } else if 'A' <= c && c <= 'F' {
        (c as u32 - 'A' as u32 + 10) as i32
    } else {
        -1
    }
}

fn url_decode(s: &str) -> (r: String)
    ensures
        r@ == url_decode_s(s@),
{
    let cs = chars_of(s);
    let mut out = String::new();
    let mut i: usize = 0;
    assert(cs@.skip(0) =~= cs@);
    while i < cs.len()
        invariant
            cs@ == s@,
            i <= cs@.len(),
            out@ + url_decode_s(cs@.skip(i as int)) == url_decode_s(s@),
        decreases cs@.len() - i,
    {
        let ghost rest = cs@.skip(i as int);
        let c = cs[i];
        if c == '%' {
            let end = if cs.len() - i < 3 {
                cs.len()
            } else {
                i + 3
            };
            let h = string_of_range(&cs, i + 1, end);
            assert(h@ =~= rest.subrange(1, if rest.len() < 3 {
                rest.len() as int
            } else {
                3
            }));
            let hn = end - (i + 1);
            let mut parsed: Option<u8> = None;
            if hn == 1 {
                let d = hex_val_exec(cs[i + 1]);
                if d >= 0 {
                    parsed = Some(d as u8);
                }
            } else if hn == 2 {
                let d0 = hex_val_exec(cs[i + 1]);
                let d1 = hex_val_exec(cs[i + 2]);
                if cs[i + 1] == '+' && d1 >= 0 {
                    parsed = Some(d1 as u8);
                } else if d0 >= 0 && d1 >= 0 {
                    parsed = Some((d0 * 16 + d1) as u8);
                }
            }
            assert(parsed == parse_hex(h@));
            match parsed {
                Some(b) => {
                    push_char(&mut out, b as char);
                },
                None => {
                    push_char(&mut out, '%');
                    out.append(h.as_str());
                },
            }
            assert(cs@.skip(end as int) =~= rest.skip(1 + h@.len() as int));
            i = end;
        } else if c == '+' {
            push_char(&mut out, ' ');
            assert(cs@.skip(i + 1) =~= rest.skip(1));
            i = i + 1;
        } else {
            push_char(&mut out, c);
            assert(cs@.skip(i + 1) =~= rest.skip(1));
            i = i + 1;
        }
        assert(out@ + url_decode_s(cs@.skip(i as int)) =~= url_decode_s(s@));
    }
    assert(cs@.skip(i as int) =~= Seq::<char>::empty());
    out
}

// ---------------------------------------------------------------------------
// Routes
// ---------------------------------------------------------------------------

/// A guard attached to a route.
pub struct Guard {
    check: Box<dyn RouteGuard>,
}

fn boxed_guard<G: RouteGuard + 'static>(g: G) -> Guard {
    Guard { check: Box::new(g) }
}

/// Children that are produced on first use.
pub struct LazyRoute<L> {
    cell: Option<Vec<Route<L>>>,
    factory: Option<L>,
}

/// A route: a path segment (`""` or `"/"` for an index route, `:name` for a
/// parameter, `*` for the rest of the path), the view it shows, its guards
/// and its children.
pub struct Route<L> {
    pub segment: String,
    pub name: String,
    pub view: String,
    pub guards: Vec<Guard>,
    pub children: Vec<Route<L>>,
    pub lazy: Option<LazyRoute<L>>,
}

/// Model of a lazy route's state.
pub enum LazyModel {
    Absent,
    Pending,
    Loaded(Seq<RouteModel>),
    Consumed,
}

/// Model of a route; guards are counted.
pub struct RouteModel {
    pub segment: Seq<char>,
    pub name: Seq<char>,
    pub view: Seq<char>,
    pub guards: nat,
    pub children: Seq<RouteModel>,
    pub lazy: LazyModel,
}

pub closed spec fn route_model<L>(r: Route<L>) -> RouteModel
    decreases r,
{
    RouteModel {
        segment: r.segment@,
        name: r.name@,
        view: r.view@,
        guards: r.guards@.len(),
        children: routes_model(r.children@),
        lazy: match r.lazy {
            None => LazyModel::Absent,
            Some(lz) => lazy_model(lz),
        },
    }
}

pub closed spec fn lazy_model<L>(lz: LazyRoute<L>) -> LazyModel
    decreases lz,
{
    match lz.cell {
        Some(v) => LazyModel::Loaded(routes_model(v@)),
        None => if lz.factory is Some {
            LazyModel::Pending
        } else {
            LazyModel::Consumed
        },
    }
}

pub closed spec fn routes_model<L>(s: Seq<Route<L>>) -> Seq<RouteModel>
    decreases s,
{
    if s.len() == 0 {
        Seq::empty()
    } else {
        routes_model(s.drop_last()).push(route_model(s.last()))
    }
}

pub broadcast proof fn lemma_routes_model_len<L>(s: Seq<Route<L>>)
    ensures
        #[trigger] routes_model(s).len() == s.len(),
    decreases s.len(),
{
    if s.len() > 0 {
        lemma_routes_model_len(s.drop_last());
    }
}

pub broadcast proof fn lemma_routes_model_index<L>(s: Seq<Route<L>>, i: int)
    requires
        0 <= i < s.len(),
    ensures
        #[trigger] routes_model(s)[i] == route_model(s[i]),
    decreases s.len(),
{
    lemma_routes_model_len(s.drop_last());
    if i < s.len() - 1 {
        lemma_routes_model_index(s.drop_last(), i);
    }
}

impl<L> View for Route<L> {
    type V = RouteModel;

    open spec fn view(&self) -> RouteModel {
        route_model(*self)
    }
}

impl<L> View for LazyRoute<L> {
    type V = LazyModel;

    open spec fn view(&self) -> LazyModel {
        lazy_model(*self)
    }
}

impl<L> LazyRoute<L> {
    /// Children that `factory` produces when the route is first entered.
    pub fn new(factory: L) -> (r: LazyRoute<L>)
        ensures
            r@ == LazyModel::Pending,
    {
        LazyRoute { cell: None, factory: Some(factory) }
    }

    /// Whether the children have been produced.
    pub fn is_loaded(&self) -> (r: bool)
        ensures
            r == self@ is Loaded,
    {
        self.cell.is_some()
    }
}

impl<L> Clone for LazyRoute<L> {
    /// A copy that is not loaded and has no loader: loading it gives the
    /// consumed error.
    fn clone(&self) -> (r: Self)
        ensures
            r@ == LazyModel::Consumed,
    {
        LazyRoute { cell: None, factory: None }
    }
}

/// What one load does to a lazy route in state `b`, leaving it in `a` and
/// returning `got` (the routes, or `None` for an error): a loaded route gives
/// its routes again and a used-up one fails, both unchanged; a pending one
/// runs its loader once and keeps what it produced, or is used up.
pub open spec fn load_step(b: LazyModel, a: LazyModel, got: Option<Seq<RouteModel>>) -> bool {
    match b {
        LazyModel::Loaded(v) => a == b && got == Some(v),
        LazyModel::Consumed => a == b && got is None,
        LazyModel::Pending => match got {
            Some(v) => a == LazyModel::Loaded(v),
            None => a == LazyModel::Consumed,
        },
        LazyModel::Absent => false,
    }
}

/// The loader runs at most once: over any run of loads, only a load from
/// the pending state runs it, and no load leaves a route pending; once a
/// load has given routes, every later load gives the same routes, and once
/// one has failed, every later one fails.
pub proof fn law_load_once(states: Seq<LazyModel>, got: Seq<Option<Seq<RouteModel>>>)
    requires
        states.len() == got.len() + 1,
        forall|i: int| 0 <= i < got.len() ==> load_step(#[trigger] states[i], states[i + 1], got[i]),
    ensures
        forall|i: int| 0 < i < states.len() ==> !(#[trigger] states[i] is Pending),
        forall|i: int, j: int| 0 <= i < j < got.len() && #[trigger] got[i] is Some ==> #[trigger] got[j] == got[i],
        forall|i: int, j: int| 0 <= i < j < got.len() && #[trigger] got[i] is None ==> #[trigger] got[j] is None,
{
    assert forall|i: int| 0 < i < states.len() implies !(#[trigger] states[i] is Pending) by {
        assert(load_step(states[i - 1], states[i], got[i - 1]));
    }
    assert forall|i: int, j: int| 0 <= i < j < got.len() && #[trigger] got[i] is Some implies #[trigger] got[j]
        == got[i] by {
        assert(load_step(states[i], states[i + 1], got[i]));
        assert(states[i + 1] == LazyModel::Loaded(got[i]->0));
        lemma_loaded_stays(states, got, i + 1, j);
        assert(load_step(states[j], states[j + 1], got[j]));
    }
    assert forall|i: int, j: int| 0 <= i < j < got.len() && #[trigger] got[i] is None implies #[trigger] got[j]
        is None by {
        assert(load_step(states[i], states[i + 1], got[i]));
        lemma_consumed_stays(states, got, i + 1, j);
        assert(load_step(states[j], states[j + 1], got[j]));
    }
}

proof fn lemma_loaded_stays(states: Seq<LazyModel>, got: Seq<Option<Seq<RouteModel>>>, i: int, k: int)
    requires
        states.len() == got.len() + 1,
        0 < i <= k < states.len(),
        states[i] is Loaded,
        forall|t: int| 0 <= t < got.len() ==> load_step(#[trigger] states[t], states[t + 1], got[t]),
    ensures
        states[k] == states[i],
    decreases k - i,
{
    if k > i {
        lemma_loaded_stays(states, got, i, k - 1);
        assert(load_step(states[k - 1], states[k], got[k - 1]));
    }
}

proof fn lemma_consumed_stays(states: Seq<LazyModel>, got: Seq<Option<Seq<RouteModel>>>, i: int, k: int)
    requires
        states.len() == got.len() + 1,
        0 < i <= k < states.len(),
        states[i] is Consumed,
        forall|t: int| 0 <= t < got.len() ==> load_step(#[trigger] states[t], states[t + 1], got[t]),
    ensures
        states[k] is Consumed,
    decreases k - i,
{
    if k > i {
        lemma_consumed_stays(states, got, i, k - 1);
        assert(load_step(states[k - 1], states[k], got[k - 1]));
    }
}

impl<L: RouteLoader> LazyRoute<L> {
    /// The children, produced by the factory the first time. The factory is
    /// used up by that call, whatever it returns: after a failure every
    /// later load fails too.
    pub fn load(&mut self) -> (r: Result<&Vec<Route<L>>, RouterError>)
        ensures
            load_step(
                old(self)@,
                final(self)@,
                match r {
                    Ok(x) => Some(routes_model(x@)),
                    Err(_) => None,
                },
            ),
            match old(self)@ {
                LazyModel::Loaded(v) => r matches Ok(x) && routes_model(x@) == v && final(self)@ == old(self)@,
                LazyModel::Consumed => r matches Err(e) && consumed_error(e) && final(self)@ == old(self)@,
                _ => match r {
                    Ok(x) => final(self)@ == LazyModel::Loaded(routes_model(x@)),
                    Err(e) => final(self)@ == LazyModel::Consumed && e is LazyLoad && (e->LazyLoad_route)@
                        == "<lazy>"@,
                },
            },
    {
        if self.cell.is_none() {
            let f = self.factory.take();
            match f {
                None => {
                    return Err(consumed_err());
                },
                Some(mut f) => {
                    match lazy_outcome(f.load()) {
                        Ok(routes) => {
                            self.cell = Some(routes);
                        },
                        Err(e) => {
                            return Err(e);
                        },
                    }
                },
            }
        }
        match &self.cell {
            Some(v) => Ok(v),
            None => Err(consumed_err()),
        }
    }
}

/// What a load makes of its loader's answer: the routes it produced, or a
/// `LazyLoad` error for the route `<lazy>` that carries the loader's message.
pub fn lazy_outcome<L>(answer: Result<Vec<Route<L>>, String>) -> (r: Result<Vec<Route<L>>, RouterError>)
    ensures
        match answer {
            Ok(v) => r matches Ok(x) && x@ == v@,
            Err(m) => r matches Err(RouterError::LazyLoad { route, message }) && route@ == "<lazy>"@ && message@
                == m@,
        },
{
    match answer {
        Ok(routes) => Ok(routes),
        Err(message) => Err(RouterError::LazyLoad { route: "<lazy>".to_owned(), message }),
    }
}

pub open spec fn consumed_error(e: RouterError) -> bool {
    e matches RouterError::LazyLoad { route, message } && route@ == "<lazy>"@ && message@
        == "factory already consumed (route cloned after load?)"@
}

fn consumed_err() -> (e: RouterError)
    ensures
        consumed_error(e),
{
    RouterError::LazyLoad {
        route: "<lazy>".to_owned(),
        message: "factory already consumed (route cloned after load?)".to_owned(),
    }
}

impl<L> Route<L> {
    /// A route with no guards and no children, named `SEGMENT->VIEW`.
    pub fn new(segment: &str, view: &str) -> (r: Route<L>)
        ensures
            r@ == (RouteModel {
                segment: segment@,
                name: segment@ + "->"@ + view@,
                view: view@,
                guards: 0,
                children: Seq::empty(),
                lazy: LazyModel::Absent,
            }),
    {
        let mut name = segment.to_owned();
        name.append("->");
        name.append(view);
        let r = Route {
            segment: segment.to_owned(),
            name,
            view: view.to_owned(),
            guards: Vec::new(),
            children: Vec::new(),
            lazy: None,
        };
        assert(routes_model(r.children@) =~= Seq::<RouteModel>::empty());
        r
    }

    /// Adds a guard, checked after those already there.
    pub fn guard<G: RouteGuard + 'static>(self, g: G) -> (r: Route<L>)
        ensures
            r@ == (RouteModel { guards: self@.guards + 1, ..self@ }),
    {
        let mut s = self;
        let b = boxed_guard(g);
        let mut gs = s.guards;
        let ghost g0 = gs@;
        gs.push(b);
        assert(gs@ == g0.push(b));
        s.guards = gs;
        s
    }

    /// Adds a child after those already there.
    pub fn child(self, c: Route<L>) -> (r: Route<L>)
        ensures
            r@ == (RouteModel { children: self@.children.push(c@), ..self@ }),
    {
        let mut s = self;
        let ghost before = s.children@;
        s.children.push(c);
        assert(s.children@.drop_last() =~= before);
        s
    }

    /// Gives the route children that are produced on first use.
    pub fn lazy_children(self, loader: LazyRoute<L>) -> (r: Route<L>)
        ensures
            r@ == (RouteModel { lazy: loader@, ..self@ }),
    {
        let mut s = self;
        s.lazy = Some(loader);
        s
    }
}

// ---------------------------------------------------------------------------
// Splitting paths
// ---------------------------------------------------------------------------

/// The first index of `c` in `s` at or after `i`.
pub open spec fn find_char(s: Seq<char>, c: char, i: int) -> Option<int>
    decreases s.len() - i,
{
    if i < 0 || i >= s.len() {
        None
    } else if s[i] == c {
        Some(i)
    } else {
        find_char(s, c, i + 1)
    }
}

/// `s` split at every `c`, empty pieces included (`str::split`).
pub open spec fn split_s(s: Seq<char>, c: char) -> Seq<Seq<char>>
    decreases s.len(),
{
    match find_char(s, c, 0) {
        None => seq![s],
        Some(i) => {
            proof {
                lemma_find_char_range(s, c, 0);
            }
            seq![s.take(i)] + split_s(s.skip(i + 1), c)
        },
    }
}

pub proof fn lemma_find_char_range(s: Seq<char>, c: char, i: int)
    requires
        0 <= i,
    ensures
        find_char(s, c, i) matches Some(j) ==> i <= j < s.len() && s[j] == c,
        find_char(s, c, i) is None ==> forall|j: int| i <= j < s.len() ==> s[j] != c,
    decreases s.len() - i,
{
    if 0 <= i < s.len() && s[i] != c {
        lemma_find_char_range(s, c, i + 1);
    }
}

/// The non-empty pieces of a list.
pub open spec fn non_empty(s: Seq<Seq<char>>) -> Seq<Seq<char>>
    decreases s.len(),
{
    if s.len() == 0 {
        Seq::empty()
    } else if s.last().len() > 0 {
        non_empty(s.drop_last()).push(s.last())
    } else {
        non_empty(s.drop_last())
    }
}

/// The non-empty pieces of a path between `/`.
pub open spec fn segments_s(p: Seq<char>) -> Seq<Seq<char>> {
    non_empty(split_s(p, '/'))
}

/// The path before `?`, or all of it.
pub open spec fn path_part_s(path: Seq<char>) -> Seq<char> {
    match find_char(path, '?', 0) {
        Some(i) => path.take(i),
        None => path,
    }
}

/// Adds the `key=value` pairs of `pieces[..i]` to `m`, in order; a piece
/// without `=` maps to the empty value, empty pieces are skipped, and keys
/// and values are percent-decoded.
pub open spec fn query_fold(pieces: Seq<Seq<char>>, i: int, m: Seq<(Seq<char>, Seq<char>)>) -> Seq<(Seq<char>, Seq<char>)>
    decreases i,
{
    if i <= 0 || i > pieces.len() {
        m
    } else {
        let before = query_fold(pieces, i - 1, m);
        let pc = pieces[i - 1];
        if pc.len() == 0 {
            before
        } else {
            match find_char(pc, '=', 0) {
                Some(e) => pm_insert(before, url_decode_s(pc.take(e)), url_decode_s(pc.skip(e + 1))),
                None => pm_insert(before, url_decode_s(pc), Seq::empty()),
            }
        }
    }
}

/// The query parameters of a path: those after the first `?`.
pub open spec fn query_s(path: Seq<char>) -> Seq<(Seq<char>, Seq<char>)> {
    match find_char(path, '?', 0) {
        Some(i) => {
            let pieces = split_s(path.skip(i + 1), '&');
            query_fold(pieces, pieces.len() as int, Seq::empty())
        },
        None => Seq::empty(),
    }
}

fn find_char_exec(s: &Vec<char>, c: char, i: usize) -> (r: Option<usize>)
    requires
        i <= s@.len(),
    ensures
        match find_char(s@, c, i as int) {
            Some(j) => r == Some(j as usize),
            None => r is None,
        },
{
    let mut j = i;
    while j < s.len()
        invariant
            i <= j <= s@.len(),
            find_char(s@, c, i as int) == find_char(s@, c, j as int),
        decreases s@.len() - j,
    {
        if s[j] == c {
            return Some(j);
        }
        j = j + 1;
    }
    None
}

fn split_exec(s: &Vec<char>, c: char) -> (r: Vec<String>)
    ensures
        r@.len() == split_s(s@, c).len(),
        forall|k: int| 0 <= k < r@.len() ==> (#[trigger] r@[k])@ == split_s(s@, c)[k],
{
    let mut out: Vec<String> = Vec::new();
    let mut start: usize = 0;
    let sl = s.len();
    assert(s@.skip(0) =~= s@);
    loop
        invariant
            sl == s@.len(),
            start <= s@.len(),
            split_s(s@, c) == out@.map_values(|x: String| x@) + split_s(s@.skip(start as int), c),
        decreases s@.len() - start,
    {
        let ghost rest = s@.skip(start as int);
        match find_char_exec(s, c, start) {
            None => {
                proof {
                    lemma_find_char_range(s@, c, start as int);
                    lemma_find_char_range(rest, c, 0);
                    assert(find_char(rest, c, 0) is None) by {
                        if find_char(rest, c, 0) is Some {
                            let j = find_char(rest, c, 0)->0;
                            assert(s@[start + j] == rest[j]);
                        }
                    }
                }
                let piece = string_of_range(s, start, s.len());
                assert(piece@ =~= rest);
                out.push(piece);
                proof {
                    assert(out@.map_values(|x: String| x@) =~= old_map(out@.drop_last()).push(rest));
                }
                assert(split_s(s@, c) =~= out@.map_values(|x: String| x@));
                return out;
            },
            Some(j) => {
                proof {
                    lemma_find_char_range(s@, c, start as int);
                    lemma_find_char_shift(s@, c, start as int);
                    lemma_find_char_range(rest, c, 0);
                    assert(find_char(s@, c, start as int) is Some);
                    assert(find_char(s@, c, start as int)->0 == j);
                }
                let piece = string_of_range(s, start, j);
                assert(piece@ =~= rest.take(j - start));
                out.push(piece);
                assert(rest.skip(j - start + 1) =~= s@.skip(j + 1));
                proof {
                    assert(out@.map_values(|x: String| x@) =~= old_map(out@.drop_last()).push(rest.take(j - start)));
                }
                assert(split_s(s@, c) =~= out@.map_values(|x: String| x@) + split_s(s@.skip(j + 1), c));
                start = j + 1;
            },
        }
    }
}

spec fn old_map(s: Seq<String>) -> Seq<Seq<char>> {
    s.map_values(|x: String| x@)
}

proof fn lemma_find_char_shift(s: Seq<char>, c: char, i: int)
    requires
        0 <= i <= s.len(),
    ensures
        match find_char(s, c, i) {
            Some(j) => find_char(s.skip(i), c, 0) == Some(j - i),
            None => find_char(s.skip(i), c, 0) is None,
        },
    decreases s.len() - i,
{
    lemma_find_char_shift_from(s, c, i, i);
}

proof fn lemma_find_char_shift_from(s: Seq<char>, c: char, i: int, k: int)
    requires
        0 <= i <= k <= s.len(),
    ensures
        match find_char(s, c, k) {
            Some(j) => find_char(s.skip(i), c, k - i) == Some(j - i),
            None => find_char(s.skip(i), c, k - i) is None,
        },
    decreases s.len() - k,
{
    if k < s.len() && s[k] != c {
        lemma_find_char_shift_from(s, c, i, k + 1);
    }
}

pub open spec fn strs(v: Seq<String>) -> Seq<Seq<char>> {
    v.map_values(|x: String| x@)
}

fn segments(path_part: &Vec<char>) -> (r: Vec<String>)
    ensures
        strs(r@) == segments_s(path_part@),
{
    let pieces = split_exec(path_part, '/');
    let ghost ps = split_s(path_part@, '/');
    let mut out: Vec<String> = Vec::new();
    for i in 0..pieces.len()
        invariant
            pieces@.len() == ps.len(),
            forall|k: int| 0 <= k < pieces@.len() ==> (#[trigger] pieces@[k])@ == ps[k],
            strs(out@) == non_empty(ps.take(i as int)),
    {
        assert(ps.take(i + 1).drop_last() =~= ps.take(i as int));
        if !pieces[i].as_str().is_empty() {
            out.push(pieces[i].clone());
            assert(strs(out@) =~= non_empty(ps.take(i + 1)));
        } else {
            assert(strs(out@) =~= non_empty(ps.take(i + 1)));
        }
    }
    assert(ps.take(ps.len() as int) =~= ps);
    out
}

fn split_query(path: &str) -> (r: (String, ParamMap))
    ensures
        r.0@ == path_part_s(path@),
        r.1@ == query_s(path@),
{
    let cs = chars_of(path);
    match find_char_exec(&cs, '?', 0) {
        None => {
            let q = ParamMap::new();
            (path.to_owned(), q)
        },
        Some(i) => {
            proof {
                lemma_find_char_range(cs@, '?', 0);
            }
            let p = string_of_range(&cs, 0, i);
            assert(p@ =~= path@.take(i as int));
            let cl = cs.len();
            let qs = sub_chars(&cs, i + 1, cl);
            assert(qs@ =~= path@.skip(i + 1));
            let pieces = split_exec(&qs, '&');
            let ghost ps = split_s(qs@, '&');
            let mut q = ParamMap::new();
            for k in 0..pieces.len()
                invariant
                    pieces@.len() == ps.len(),
                    forall|m: int| 0 <= m < pieces@.len() ==> (#[trigger] pieces@[m])@ == ps[m],
                    q@ == query_fold(ps, k as int, Seq::empty()),
            {
                let pc = &pieces[k];
                if !pc.as_str().is_empty() {
                    let pcs = chars_of(pc.as_str());
                    match find_char_exec(&pcs, '=', 0) {
                        Some(e) => {
                            proof {
                                lemma_find_char_range(pcs@, '=', 0);
                            }
                            let key = string_of_range(&pcs, 0, e);
                            let pl = pcs.len();
                            let val = string_of_range(&pcs, e + 1, pl);
                            assert(key@ =~= ps[k as int].take(e as int));
                            assert(val@ =~= ps[k as int].skip(e + 1));
                            q.insert(url_decode(key.as_str()), url_decode(val.as_str()));
                        },
                        None => {
                            q.insert(url_decode(pc.as_str()), String::new());
                        },
                    }
                }
            }
            (p, q)
        },
    }
}

// ---------------------------------------------------------------------------
// Matching
// ---------------------------------------------------------------------------

/// Where a route is: for each level, whether it is among the loaded
/// children of a lazy route (rather than the plain children), and its index.
pub type RouteAddr = Vec<(bool, usize)>;

/// A guard to run: the route it belongs to, its index there, and the
/// route's name.
pub struct GuardRef {
    addr: RouteAddr,
    index: usize,
    name: String,
}

pub struct GuardRefModel {
    pub addr: Seq<(bool, usize)>,
    pub index: nat,
    pub name: Seq<char>,
}

impl View for GuardRef {
    type V = GuardRefModel;

    closed spec fn view(&self) -> GuardRefModel {
        GuardRefModel { addr: self.addr@, index: self.index as nat, name: self.name@ }
    }
}

pub open spec fn chain_model(c: Seq<GuardRef>) -> Seq<GuardRefModel> {
    c.map_values(|g: GuardRef| g@)
}

/// The guards of a route, in order.
pub open spec fn guard_refs(addr: Seq<(bool, usize)>, n: nat, name: Seq<char>) -> Seq<GuardRefModel> {
    Seq::new(n, |i: int| GuardRefModel { addr: addr, index: i as nat, name: name })
}

/// What matching a path against a list of routes gives.
pub enum MatchModel {
    Hit { view: Seq<char>, params: Seq<(Seq<char>, Seq<char>)>, chain: Seq<GuardRefModel> },
    NotFound,
    /// The lazy route at this address has to be loaded first.
    NeedLoad(Seq<(bool, usize)>),
    /// A lazy route whose factory was used up without producing children.
    Consumed,
}

/// How many segments a route's pattern takes at `pos`.
pub open spec fn advance_s(pattern: Seq<char>, segs: Seq<Seq<char>>, pos: int) -> Option<int> {
    if pattern.len() == 0 || pattern == "/"@ {
        Some(0)
    } else if pattern == "*"@ {
        Some(segs.len() - pos)
    } else if pattern[0] == ':' {
        if pattern.len() == 1 || pos >= segs.len() {
            None
        } else {
            Some(1)
        }
    } else if pos < segs.len() && segs[pos] == pattern {
        Some(1)
    } else {
        None
    }
}

/// `segs` joined with `/`.
pub open spec fn join_s(segs: Seq<Seq<char>>) -> Seq<char>
    decreases segs.len(),
{
    if segs.len() == 0 {
        Seq::empty()
    } else if segs.len() == 1 {
        segs[0]
    } else {
        join_s(segs.drop_last()) + "/"@ + segs.last()
    }
}

/// The parameters after a route with this pattern matched at `pos`.
pub open spec fn captured_s(pattern: Seq<char>, segs: Seq<Seq<char>>, pos: int, params: Seq<(Seq<char>, Seq<char>)>) -> Seq<(Seq<char>, Seq<char>)> {
    if pattern == "*"@ {
        pm_insert(params, "wildcard"@, join_s(segs.skip(pos)))
    } else if pattern.len() > 1 && pattern[0] == ':' && 0 <= pos < segs.len() {
        pm_insert(params, pattern.skip(1), url_decode_s(segs[pos]))
    } else {
        params
    }
}

/// What a lazy route that has not produced children yet stops matching with.
pub open spec fn lazy_gate(r: RouteModel, addr: Seq<(bool, usize)>) -> Option<MatchModel> {
    match r.lazy {
        LazyModel::Pending => Some(MatchModel::NeedLoad(addr)),
        LazyModel::Consumed => Some(MatchModel::Consumed),
        _ => None,
    }
}

pub open spec fn is_index(r: RouteModel) -> bool {
    r.segment.len() == 0 || r.segment == "/"@
}

/// The first index route in `s` at or after `i`.
pub open spec fn first_index(s: Seq<RouteModel>, i: int) -> Option<int>
    decreases s.len() - i,
{
    if i < 0 || i >= s.len() {
        None
    } else if is_index(s[i]) {
        Some(i)
    } else {
        first_index(s, i + 1)
    }
}

pub open spec fn loaded_of(r: RouteModel) -> Seq<RouteModel> {
    match r.lazy {
        LazyModel::Loaded(v) => v,
        _ => Seq::empty(),
    }
}

/// Matching the routes `list[i..]` (found at `base` plus `(lazy, index)`).
pub open spec fn match_list_s(
    list: Seq<RouteModel>,
    lazy: bool,
    base: Seq<(bool, usize)>,
    i: int,
    segs: Seq<Seq<char>>,
    pos: int,
    params: Seq<(Seq<char>, Seq<char>)>,
    chain: Seq<GuardRefModel>,
) -> MatchModel
    decreases list, list.len() - i,
{
    if i < 0 || i >= list.len() {
        MatchModel::NotFound
    } else {
        match match_route_s(list[i], base.push((lazy, i as usize)), segs, pos, params, chain) {
            MatchModel::NotFound => match_list_s(list, lazy, base, i + 1, segs, pos, params, chain),
            m => m,
        }
    }
}

/// Matching the children of `r`: the plain ones, then the loaded ones.
pub open spec fn match_kids_s(
    r: RouteModel,
    addr: Seq<(bool, usize)>,
    segs: Seq<Seq<char>>,
    pos: int,
    params: Seq<(Seq<char>, Seq<char>)>,
    chain: Seq<GuardRefModel>,
) -> MatchModel
    decreases r, 0int,
{
    match match_list_s(r.children, false, addr, 0, segs, pos, params, chain) {
        MatchModel::NotFound => match r.lazy {
            LazyModel::Loaded(v) => match_list_s(v, true, addr, 0, segs, pos, params, chain),
            _ => MatchModel::NotFound,
        },
        m => m,
    }
}

/// Matching one route. Its pattern takes some segments, its parameter is
/// captured and its guards join the chain. When the path ends there, an
/// index child (the first route with segment `""` or `"/"`) is entered if
/// there is one; otherwise the children are matched against the rest.
pub open spec fn match_route_s(
    r: RouteModel,
    addr: Seq<(bool, usize)>,
    segs: Seq<Seq<char>>,
    pos: int,
    params: Seq<(Seq<char>, Seq<char>)>,
    chain: Seq<GuardRefModel>,
) -> MatchModel
    decreases r, 1int,
{
    match advance_s(r.segment, segs, pos) {
        None => MatchModel::NotFound,
        Some(adv) => {
            let params1 = captured_s(r.segment, segs, pos, params);
            let chain1 = chain + guard_refs(addr, r.guards, r.name);
            match lazy_gate(r, addr) {
                Some(m) => m,
                None => {
                    let next = pos + adv;
                    if next == segs.len() {
                        let (lz, j) = match first_index(r.children, 0) {
                            Some(j) => (false, j),
                            None => (true, match first_index(loaded_of(r), 0) {
                                Some(j) => j,
                                None => -1,
                            }),
                        };
                        if j < 0 {
                            MatchModel::Hit { view: r.view, params: params1, chain: chain1 }
                        } else {
                            let idx = if lz {
                                loaded_of(r)[j]
                            } else {
                                r.children[j]
                            };
                            let iaddr = addr.push((lz, j as usize));
                            let chain2 = chain1 + guard_refs(iaddr, idx.guards, idx.name);
                            match lazy_gate(idx, iaddr) {
                                Some(m) => m,
                                None => if idx.children.len() == 0 && loaded_of(idx).len() == 0 {
                                    MatchModel::Hit { view: idx.view, params: params1, chain: chain2 }
                                } else {
                                    proof {
                                        lemma_first_index_range(r.children, 0);
                                        lemma_first_index_range(loaded_of(r), 0);
                                        if lz {
                                            assert(decreases_to!(r => r.lazy));
                                        }
                                    }
                                    match match_kids_s(idx, iaddr, segs, next, params1, chain2) {
                                        MatchModel::NotFound => MatchModel::Hit {
                                            view: r.view,
                                            params: params1,
                                            chain: chain1,
                                        },
                                        m => m,
                                    }
                                },
                            }
                        }
                    } else {
                        match_kids_s(r, addr, segs, next, params1, chain1)
                    }
                },
            }
        },
    }
}

pub proof fn lemma_first_index_range(s: Seq<RouteModel>, i: int)
    requires
        0 <= i,
    ensures
        first_index(s, i) matches Some(j) ==> i <= j < s.len() && is_index(s[j]),
    decreases s.len() - i,
{
    if i < s.len() && !is_index(s[i]) {
        lemma_first_index_range(s, i + 1);
    }
}

enum MatchStep {
    Hit { view: String, params: ParamMap, chain: Vec<GuardRef> },
    NotFound,
    NeedLoad(RouteAddr),
    Consumed,
}

impl View for MatchStep {
    type V = MatchModel;

    closed spec fn view(&self) -> MatchModel {
        match self {
            MatchStep::Hit { view, params, chain } => MatchModel::Hit {
                view: view@,
                params: params@,
                chain: chain_model(chain@),
            },
            MatchStep::NotFound => MatchModel::NotFound,
            MatchStep::NeedLoad(a) => MatchModel::NeedLoad(a@),
            MatchStep::Consumed => MatchModel::Consumed,
        }
    }
}

fn copy_addr(a: &RouteAddr) -> (r: RouteAddr)
    ensures
        r@ == a@,
{
    let mut r: RouteAddr = Vec::new();
    for i in 0..a.len()
        invariant
            r@ == a@.take(i as int),
    {
        r.push(a[i]);
        assert(r@ =~= a@.take(i + 1));
    }
    assert(a@.take(a@.len() as int) =~= a@);
    r
}

fn child_addr(a: &RouteAddr, lazy: bool, i: usize) -> (r: RouteAddr)
    ensures
        r@ == a@.push((lazy, i)),
{
    let mut r = copy_addr(a);
    r.push((lazy, i));
    r
}

fn copy_chain(c: &Vec<GuardRef>) -> (r: Vec<GuardRef>)
    ensures
        chain_model(r@) == chain_model(c@),
{
    let mut r: Vec<GuardRef> = Vec::new();
    for i in 0..c.len()
        invariant
            chain_model(r@) == chain_model(c@.take(i as int)),
    {
        let g = GuardRef { addr: copy_addr(&c[i].addr), index: c[i].index, name: c[i].name.clone() };
        assert(g@ == c@[i as int]@);
        let ghost before = r@;
        r.push(g);
        assert(r@ == before.push(g));
        assert(chain_model(r@) =~= chain_model(before).push(g@));
        assert(c@.take(i + 1) =~= c@.take(i as int).push(c@[i as int]));
        assert(chain_model(c@.take(i + 1)) =~= chain_model(c@.take(i as int)).push(c@[i as int]@));
    }
    assert(c@.take(c@.len() as int) =~= c@);
    r
}

fn push_guard_refs(chain: &mut Vec<GuardRef>, addr: &RouteAddr, n: usize, name: &String)
    ensures
        chain_model(final(chain)@) == chain_model(old(chain)@) + guard_refs(addr@, n as nat, name@),
{
    let ghost start = chain_model(chain@);
    for i in 0..n
        invariant
            chain_model(chain@) == start + guard_refs(addr@, i as nat, name@),
    {
        let g = GuardRef { addr: copy_addr(addr), index: i, name: name.clone() };
        let ghost before = chain@;
        chain.push(g);
        assert(chain_model(chain@) =~= chain_model(before).push(g@));
        assert(chain_model(chain@) =~= start + guard_refs(addr@, (i + 1) as nat, name@));
    }
}

fn is_index_route<L>(r: &Route<L>) -> (b: bool)
    ensures
        b == is_index(r@),
{
    r.segment.as_str().is_empty() || str_eq(r.segment.as_str(), "/")
}

fn advance(pattern: &String, segs: &Vec<String>, pos: usize) -> (r: Option<usize>)
    requires
        pos <= segs@.len(),
    ensures
        match advance_s(pattern@, strs(segs@), pos as int) {
            Some(a) => r == Some(a as usize) && pos + a <= segs@.len(),
            None => r is None,
        },
{
    if pattern.as_str().is_empty() || str_eq(pattern.as_str(), "/") {
        return Some(0);
    }
    if str_eq(pattern.as_str(), "*") {
        return Some(segs.len() - pos);
    }
    let pc = chars_of(pattern.as_str());
    if pc[0] == ':' {
        if pc.len() == 1 || pos >= segs.len() {
            return None;
        }
        return Some(1);
    }
    if pos < segs.len() && str_eq(segs[pos].as_str(), pattern.as_str()) {
        Some(1)
    } else {
        None
    }
}

fn join_segs(segs: &Vec<String>, from: usize) -> (r: String)
    requires
        from <= segs@.len(),
    ensures
        r@ == join_s(strs(segs@).skip(from as int)),
{
    let mut out = String::new();
    let mut i = from;
    let ghost ss = strs(segs@);
    assert(ss.skip(from as int).take(0) =~= Seq::<Seq<char>>::empty());
    while i < segs.len()
        invariant
            from <= i <= segs@.len(),
            ss == strs(segs@),
            out@ == join_s(ss.skip(from as int).take(i - from)),
        decreases segs@.len() - i,
    {
        if i > from {
            out.append("/");
        }
        out.append(segs[i].as_str());
        assert(ss.skip(from as int).take(i + 1 - from).drop_last() =~= ss.skip(from as int).take(i - from));
        i = i + 1;
        assert(out@ =~= join_s(ss.skip(from as int).take(i - from)));
    }
    assert(ss.skip(from as int).take(i - from) =~= ss.skip(from as int));
    out
}

fn captured(pattern: &String, segs: &Vec<String>, pos: usize, params: &ParamMap) -> (r: ParamMap)
    requires
        pos <= segs@.len(),
    ensures
        r@ == captured_s(pattern@, strs(segs@), pos as int, params@),
{
    let mut p = params.copy();
    if str_eq(pattern.as_str(), "*") {
        p.insert("wildcard".to_owned(), join_segs(segs, pos));
        return p;
    }
    let pc = chars_of(pattern.as_str());
    if pc.len() > 1 && pc[0] == ':' && pos < segs.len() {
        let name = string_of_range(&pc, 1, pc.len());
        assert(name@ =~= pattern@.skip(1));
        p.insert(name, url_decode(segs[pos].as_str()));
    }
    p
}

fn lazy_gate_exec<L>(r: &Route<L>, addr: &RouteAddr) -> (m: Option<MatchStep>)
    ensures
        match lazy_gate(r@, addr@) {
            Some(x) => m matches Some(y) && y@ == x,
            None => m is None,
        },
{
    match &r.lazy {
        None => None,
        Some(lz) => match &lz.cell {
            Some(_) => None,
            None => if lz.factory.is_some() {
                Some(MatchStep::NeedLoad(copy_addr(addr)))
            } else {
                Some(MatchStep::Consumed)
            },
        },
    }
}

fn first_index_exec<L>(s: &Vec<Route<L>>) -> (r: Option<usize>)
    ensures
        match r {
            Some(k) => first_index(routes_model(s@), 0) == Some(k as int) && k < s@.len(),
            None => first_index(routes_model(s@), 0) is None,
        },
{
    let ghost m = routes_model(s@);
    proof {
        lemma_routes_model_len(s@);
    }
    let mut i: usize = 0;
    while i < s.len()
        invariant
            m == routes_model(s@),
            m.len() == s@.len(),
            i <= s@.len(),
            first_index(m, 0) == first_index(m, i as int),
        decreases s@.len() - i,
    {
        proof {
            lemma_routes_model_index(s@, i as int);
        }
        if is_index_route(&s[i]) {
            return Some(i);
        }
        i = i + 1;
    }
    None
}

fn match_list<L>(
    list: &Vec<Route<L>>,
    lazy: bool,
    base: &RouteAddr,
    segs: &Vec<String>,
    pos: usize,
    params: &ParamMap,
    chain: &Vec<GuardRef>,
) -> (m: MatchStep)
    requires
        pos <= segs@.len(),
    ensures
        m@ == match_list_s(routes_model(list@), lazy, base@, 0, strs(segs@), pos as int, params@, chain_model(chain@)),
    decreases list, 2int,
{
    let ghost lm = routes_model(list@);
    proof {
        lemma_routes_model_len(list@);
    }
    for i in 0..list.len()
        invariant
            pos <= segs@.len(),
            lm == routes_model(list@),
            lm.len() == list@.len(),
            match_list_s(lm, lazy, base@, 0, strs(segs@), pos as int, params@, chain_model(chain@))
                == match_list_s(lm, lazy, base@, i as int, strs(segs@), pos as int, params@, chain_model(chain@)),
    {
        proof {
            lemma_routes_model_index(list@, i as int);
        }
        let addr = child_addr(base, lazy, i);
        let m = match_route(&list[i], &addr, segs, pos, params, chain);
        match m {
            MatchStep::NotFound => {},
            _ => {
                return m;
            },
        }
    }
    MatchStep::NotFound
}

fn match_kids<L>(
    r: &Route<L>,
    addr: &RouteAddr,
    segs: &Vec<String>,
    pos: usize,
    params: &ParamMap,
    chain: &Vec<GuardRef>,
) -> (m: MatchStep)
    requires
        pos <= segs@.len(),
    ensures
        m@ == match_kids_s(r@, addr@, strs(segs@), pos as int, params@, chain_model(chain@)),
    decreases r, 0int,
{
    let m = match_list(&r.children, false, addr, segs, pos, params, chain);
    match m {
        MatchStep::NotFound => {},
        _ => {
            return m;
        },
    }
    match &r.lazy {
        Some(lz) => match &lz.cell {
            Some(v) => match_list(v, true, addr, segs, pos, params, chain),
            None => MatchStep::NotFound,
        },
        None => MatchStep::NotFound,
    }
}

fn match_route<L>(
    r: &Route<L>,
    addr: &RouteAddr,
    segs: &Vec<String>,
    pos: usize,
    params: &ParamMap,
    chain: &Vec<GuardRef>,
) -> (m: MatchStep)
    requires
        pos <= segs@.len(),
    ensures
        m@ == match_route_s(r@, addr@, strs(segs@), pos as int, params@, chain_model(chain@)),
    decreases r, 1int,
{
    let sl = segs.len();
    let adv = match advance(&r.segment, segs, pos) {
        None => {
            return MatchStep::NotFound;
        },
        Some(a) => a,
    };
    let params1 = captured(&r.segment, segs, pos, params);
    let mut chain1 = copy_chain(chain);
    push_guard_refs(&mut chain1, addr, r.guards.len(), &r.name);
    match lazy_gate_exec(r, addr) {
        Some(m) => {
            return m;
        },
        None => {},
    }
    let next = pos + adv;
    if next < segs.len() {
        return match_kids(r, addr, segs, next, &params1, &chain1);
    }
    let ghost rm = r@;
    let (lz, j): (bool, usize) = match first_index_exec(&r.children) {
        Some(j) => (false, j),
        None => match &r.lazy {
            Some(lzr) => match &lzr.cell {
                Some(v) => match first_index_exec(v) {
                    Some(j) => (true, j),
                    None => {
                        return MatchStep::Hit { view: r.view.clone(), params: params1, chain: chain1 };
                    },
                },
                None => {
                    return MatchStep::Hit { view: r.view.clone(), params: params1, chain: chain1 };
                },
            },
            None => {
                return MatchStep::Hit { view: r.view.clone(), params: params1, chain: chain1 };
            },
        },
    };
    proof {
        lemma_first_index_range(rm.children, 0);
        lemma_first_index_range(loaded_of(rm), 0);
        lemma_routes_model_len(r.children@);
        if !lz {
            lemma_routes_model_index(r.children@, j as int);
        } else if r.lazy is Some && r.lazy->0.cell is Some {
            let v = r.lazy->0.cell->0;
            lemma_routes_model_len(v@);
            lemma_routes_model_index(v@, j as int);
        }
    }
    let idx: &Route<L> = if lz {
        match &r.lazy {
            Some(lzr) => match &lzr.cell {
                Some(v) => &v[j],
                None => {
                    return MatchStep::NotFound;
                },
            },
            None => {
                return MatchStep::NotFound;
            },
        }
    } else {
        &r.children[j]
    };
    assert(rm.children == routes_model(r.children@));
    assert(!lz ==> first_index(rm.children, 0) == Some(j as int));
    assert(lz ==> first_index(rm.children, 0) is None && first_index(loaded_of(rm), 0) == Some(j as int));
    assert(idx@ == (if lz {
        loaded_of(rm)[j as int]
    } else {
        rm.children[j as int]
    }));
    let iaddr = child_addr(addr, lz, j);
    let mut chain2 = copy_chain(&chain1);
    push_guard_refs(&mut chain2, &iaddr, idx.guards.len(), &idx.name);
    match lazy_gate_exec(idx, &iaddr) {
        Some(m) => {
            return m;
        },
        None => {},
    }
    proof {
        lemma_routes_model_len(idx.children@);
        if idx.lazy is Some && idx.lazy->0.cell is Some {
            lemma_routes_model_len(idx.lazy->0.cell->0@);
        }
    }
    let idx_has_loaded = match &idx.lazy {
        Some(l2) => match &l2.cell {
            Some(v2) => v2.len() > 0,
            None => false,
        },
        None => false,
    };
    if idx.children.len() == 0 && !idx_has_loaded {
        return MatchStep::Hit { view: idx.view.clone(), params: params1, chain: chain2 };
    }
    let sub = match_kids(idx, &iaddr, segs, next, &params1, &chain2);
    match sub {
        MatchStep::NotFound => MatchStep::Hit { view: r.view.clone(), params: params1, chain: chain1 },
        _ => sub,
    }
}

// ---------------------------------------------------------------------------
// Loading lazy routes
// ---------------------------------------------------------------------------

/// The routes `new` are the routes `old` in which the lazy children that
/// `addr`, from its entry `k` on, reaches were loaded: every other route is
/// unchanged; a pending loader at the end of the address has produced
/// children (`ok`) or has failed and is used up; loaded children stay, a
/// used-up loader fails again; an address that reaches no lazy route
/// changes nothing and succeeds.
pub open spec fn loaded_at(
    old: Seq<RouteModel>,
    new: Seq<RouteModel>,
    addr: Seq<(bool, usize)>,
    k: int,
    ok: bool,
) -> bool
    decreases addr.len() - k,
{
    if k < 0 || k >= addr.len() || addr[k].1 >= old.len() {
        new == old && ok
    } else {
        let i = addr[k].1 as int;
        let r = old[i];
        let s = new[i];
        &&& new.len() == old.len()
        &&& forall|j: int| 0 <= j < old.len() && j != i ==> new[j] == old[j]
        &&& s.segment == r.segment && s.name == r.name && s.view == r.view && s.guards == r.guards
        &&& if k + 1 == addr.len() {
            s.children == r.children && match r.lazy {
                LazyModel::Pending => if ok {
                    s.lazy is Loaded
                } else {
                    s.lazy is Consumed
                },
                LazyModel::Consumed => s.lazy == r.lazy && !ok,
                _ => s.lazy == r.lazy && ok,
            }
        } else if addr[k + 1].0 {
            s.children == r.children && match r.lazy {
                LazyModel::Loaded(v) => s.lazy matches LazyModel::Loaded(w) && loaded_at(v, w, addr, k + 1, ok),
                _ => s.lazy == r.lazy && ok,
            }
        } else {
            s.lazy == r.lazy && loaded_at(r.children, s.children, addr, k + 1, ok)
        }
    }
}

fn load_at<L: RouteLoader>(list: &mut Vec<Route<L>>, addr: &RouteAddr, k: usize) -> (r: Result<(), RouterError>)
    requires
        k < addr@.len(),
    ensures
        loaded_at(routes_model(old(list)@), routes_model(final(list)@), addr@, k as int, r is Ok),
        r matches Err(e) ==> e is LazyLoad,
    decreases addr@.len() - k,
{
    proof {
        lemma_routes_model_len(list@);
    }
    let ghost l0 = list@;
    let al = addr.len();
    let i = addr[k].1;
    if i >= list.len() {
        return Ok(());
    }
    let mut route = list.remove(i);
    let ghost r0 = route;
    proof {
        lemma_routes_model_index(l0, i as int);
    }
    let res = if k + 1 == addr.len() {
        match &mut route.lazy {
            Some(lz) => match lz.load() {
                Ok(_) => Ok(()),
                Err(e) => Err(e),
            },
            None => Ok(()),
        }
    } else if addr[k + 1].0 {
        match &mut route.lazy {
            Some(lz) => match &mut lz.cell {
                Some(v) => load_at(v, addr, k + 1),
                None => Ok(()),
            },
            None => Ok(()),
        }
    } else {
        load_at(&mut route.children, addr, k + 1)
    };
    let ghost r1 = route;
    list.insert(i, route);
    proof {
        let lm = routes_model(l0);
        let fm = routes_model(list@);
        lemma_routes_model_len(list@);
        assert(list@ =~= l0.remove(i as int).insert(i as int, r1));
        assert forall|j: int| 0 <= j < lm.len() && j != i implies fm[j] == lm[j] by {
            lemma_routes_model_index(l0, j);
            lemma_routes_model_index(list@, j);
        }
        lemma_routes_model_index(list@, i as int);
        assert(fm[i as int] == route_model(r1));
        assert(lm[i as int] == route_model(r0));
    }
    res
}

// ---------------------------------------------------------------------------
// Resolving
// ---------------------------------------------------------------------------

/// A resolved navigation: the view, the names of the routes whose guards
/// ran (once per guard), and the parameters.
#[derive(Debug)]
pub struct Resolved {
    pub view: String,
    pub chain: Vec<String>,
    pub params: ParamMap,
    pub query: ParamMap,
}

/// One step of a resolution: the navigation ends at a view, or a guard sends
/// it to another path.
#[derive(Debug)]
pub enum ResolveStep {
    Hit(Resolved),
    Redirect(String),
}

/// The index of the first of the `n` guard answers, from `i` on, that is not
/// `Allow` (a missing answer allows), or `n` when they all allow.
pub open spec fn first_objection(answers: Seq<GuardResult>, n: int, i: int) -> int
    decreases n - i,
{
    if i < 0 || i >= n {
        n
    } else if i < answers.len() && !(answers[i] is Allow) {
        i
    } else {
        first_objection(answers, n, i + 1)
    }
}

/// `r` is how the answers of a hit's `chain` of guards end the step to
/// `path`: the first answer that is not `Allow` decides (a redirect to its
/// target, or `Forbidden` for `path` with its reason); when all allow, the
/// hit itself.
pub open spec fn settled_s(
    r: Result<ResolveStep, RouterError>,
    view: Seq<char>,
    params: Seq<(Seq<char>, Seq<char>)>,
    chain: Seq<GuardRefModel>,
    answers: Seq<GuardResult>,
    path: Seq<char>,
) -> bool {
    let k = first_objection(answers, chain.len() as int, 0);
    if k < chain.len() {
        match answers[k] {
            GuardResult::Redirect(to) => r matches Ok(ResolveStep::Redirect(t)) && t@ == to@,
            GuardResult::Deny(reason) => r matches Err(RouterError::Forbidden { path: p, reason: why }) && p@
                == path && why@ == reason@,
            GuardResult::Allow => false,
        }
    } else {
        r matches Ok(ResolveStep::Hit(res)) && res.view@ == view && strs(res.chain@) == chain_names(chain)
            && res.params@ == params && res.query@ == query_s(path)
    }
}

proof fn lemma_settled_outcome(
    r: Result<ResolveStep, RouterError>,
    view: Seq<char>,
    params: Seq<(Seq<char>, Seq<char>)>,
    chain: Seq<GuardRefModel>,
    answers: Seq<GuardResult>,
    path: Seq<char>,
)
    requires
        settled_s(r, view, params, chain, answers, path),
    ensures
        outcome_ok(r, MatchModel::Hit { view, params, chain }, path),
{
    if chain.len() == 0 {
        assert(first_objection(answers, 0, 0) == 0);
        if let Ok(ResolveStep::Hit(res)) = r {
            assert(strs(res.chain@).len() == res.chain@.len());
            assert(chain_names(chain).len() == 0);
        }
    }
}

/// How a step ends, as its guards' answers decide it.
pub enum StepModel {
    Hit,
    Redirect(Seq<char>),
    Deny(Seq<char>),
}

/// What the answers for a chain of `n` guards decide, read as
/// `resolve_with` reads them: the first that is not `Allow`, or the hit.
pub open spec fn verdict_s(answers: Seq<GuardResult>, n: int) -> StepModel {
    let k = first_objection(answers, n, 0);
    if k < n && k < answers.len() {
        match answers[k] {
            GuardResult::Redirect(to) => StepModel::Redirect(to@),
            GuardResult::Deny(reason) => StepModel::Deny(reason@),
            GuardResult::Allow => StepModel::Hit,
        }
    } else {
        StepModel::Hit
    }
}

/// What the guards' `answers` decide for `q`, matched with `routes`, or
/// `None` where `q` is not matched.
pub open spec fn hop_verdict(routes: Seq<RouteModel>, q: Seq<char>, answers: Seq<GuardResult>) -> Option<StepModel> {
    match match_path(routes, q) {
        MatchModel::Hit { chain, .. } => Some(verdict_s(answers, chain.len() as int)),
        _ => None,
    }
}

/// A navigation's hops: each is the routes it was matched with, its path and
/// its guards' answers; the first is at `path`, and each but the last
/// redirects to the next one's path.
pub open spec fn hops_from(path: Seq<char>, hops: Seq<(Seq<RouteModel>, Seq<char>, Seq<GuardResult>)>) -> bool {
    &&& hops.len() >= 1
    &&& hops[0].1 == path
    &&& forall|i: int|
        0 <= i < hops.len() - 1 ==> hop_verdict(#[trigger] hops[i].0, hops[i].1, hops[i].2) == Some(
            StepModel::Redirect(hops[i + 1].1),
        )
}

proof fn lemma_first_objection(answers: Seq<GuardResult>, n: int, i: int)
    requires
        0 <= i,
    ensures
        first_objection(answers, n, i) < n ==> first_objection(answers, n, i) < answers.len()
            && !(answers[first_objection(answers, n, i)] is Allow),
    decreases n - i,
{
    if i < n && !(i < answers.len() && !(answers[i] is Allow)) {
        lemma_first_objection(answers, n, i + 1);
    }
}

proof fn lemma_settled_verdict(
    r: Result<ResolveStep, RouterError>,
    view: Seq<char>,
    params: Seq<(Seq<char>, Seq<char>)>,
    chain: Seq<GuardRefModel>,
    answers: Seq<GuardResult>,
    path: Seq<char>,
)
    requires
        settled_s(r, view, params, chain, answers, path),
    ensures
        r matches Ok(ResolveStep::Redirect(t)) ==> verdict_s(answers, chain.len() as int) == StepModel::Redirect(t@),
        r matches Err(RouterError::Forbidden { path: p, reason }) ==> verdict_s(answers, chain.len() as int)
            == StepModel::Deny(reason@) && p@ == path,
        r matches Ok(ResolveStep::Hit(_)) ==> verdict_s(answers, chain.len() as int) == StepModel::Hit,
{
    lemma_first_objection(answers, chain.len() as int, 0);
}

fn settle(hit: Resolved, answers: &Vec<GuardResult>, n: usize, path: &str) -> (r: Result<ResolveStep, RouterError>)
    ensures
        ({
            let k = first_objection(answers@, n as int, 0);
            if k < n {
                match answers@[k] {
                    GuardResult::Redirect(to) => r matches Ok(ResolveStep::Redirect(t)) && t@ == to@,
                    GuardResult::Deny(reason) => r matches Err(RouterError::Forbidden { path: p, reason: why })
                        && p@ == path@ && why@ == reason@,
                    GuardResult::Allow => false,
                }
            } else {
                r == Ok::<ResolveStep, RouterError>(ResolveStep::Hit(hit))
            }
        }),
{
    let mut i: usize = 0;
    while i < n
        invariant
            i <= n,
            first_objection(answers@, n as int, 0) == first_objection(answers@, n as int, i as int),
        decreases n - i,
    {
        if i < answers.len() {
            match &answers[i] {
                GuardResult::Allow => {},
                GuardResult::Redirect(to) => {
                    return Ok(ResolveStep::Redirect(to.clone()));
                },
                GuardResult::Deny(why) => {
                    return Err(RouterError::Forbidden { path: path.to_owned(), reason: why.clone() });
                },
            }
        }
        i = i + 1;
    }
    Ok(ResolveStep::Hit(hit))
}

/// The routes of an application.
pub struct Router<L> {
    routes: Vec<Route<L>>,
}

impl<L> View for Router<L> {
    type V = Seq<RouteModel>;

    closed spec fn view(&self) -> Seq<RouteModel> {
        routes_model(self.routes@)
    }
}

/// Matching a path against the top-level routes.
pub open spec fn match_path(routes: Seq<RouteModel>, path: Seq<char>) -> MatchModel {
    match_list_s(routes, false, Seq::empty(), 0, segments_s(path_part_s(path)), 0, Seq::empty(), Seq::empty())
}

/// The error for a path no route matched.
pub open spec fn not_found_s(path: Seq<char>) -> Seq<char> {
    "/"@ + join_s(segments_s(path_part_s(path)))
}

pub open spec fn chain_names(c: Seq<GuardRefModel>) -> Seq<Seq<char>> {
    c.map_values(|g: GuardRefModel| g.name)
}

/// The route that `addr`, from its entry `k` on, reaches in `list`: each
/// entry picks a route by index, among the children of the route before or,
/// where the entry is marked, among its loaded lazy children.
pub open spec fn route_at_s(list: Seq<RouteModel>, addr: Seq<(bool, usize)>, k: int) -> Option<RouteModel>
    decreases addr.len() - k,
{
    if k < 0 || k >= addr.len() || addr[k].1 >= list.len() {
        None
    } else {
        let r = list[addr[k].1 as int];
        if k + 1 == addr.len() {
            Some(r)
        } else if addr[k + 1].0 {
            match r.lazy {
                LazyModel::Loaded(v) => route_at_s(v, addr, k + 1),
                _ => None,
            }
        } else {
            route_at_s(r.children, addr, k + 1)
        }
    }
}

fn route_at<'a, L>(list: &'a Vec<Route<L>>, addr: &RouteAddr, k: usize) -> (r: Option<&'a Route<L>>)
    ensures
        match r {
            Some(x) => route_at_s(routes_model(list@), addr@, k as int) == Some(x@),
            None => route_at_s(routes_model(list@), addr@, k as int) is None,
        },
    decreases addr@.len() - k,
{
    proof {
        lemma_routes_model_len(list@);
    }
    if k >= addr.len() {
        return None;
    }
    let i = addr[k].1;
    if i >= list.len() {
        return None;
    }
    let route = &list[i];
    proof {
        lemma_routes_model_index(list@, i as int);
    }
    if k + 1 == addr.len() {
        return Some(route);
    }
    if addr[k + 1].0 {
        match &route.lazy {
            Some(lz) => match &lz.cell {
                Some(v) => route_at(v, addr, k + 1),
                None => None,
            },
            None => None,
        }
    } else {
        route_at(&route.children, addr, k + 1)
    }
}

fn chain_name_list(chain: &Vec<GuardRef>) -> (r: Vec<String>)
    ensures
        strs(r@) == chain_names(chain_model(chain@)),
{
    let mut r: Vec<String> = Vec::new();
    for i in 0..chain.len()
        invariant
            strs(r@) == chain_names(chain_model(chain@.take(i as int))),
    {
        let ghost before = r@;
        let nm = chain[i].name.clone();
        r.push(nm);
        assert(strs(r@) =~= strs(before).push(nm@));
        assert(chain@.take(i + 1) =~= chain@.take(i as int).push(chain@[i as int]));
        assert(chain_model(chain@.take(i + 1)) =~= chain_model(chain@.take(i as int)).push(chain@[i as int]@));
        assert(strs(r@) =~= chain_names(chain_model(chain@.take(i + 1))));
    }
    assert(chain@.take(chain@.len() as int) =~= chain@);
    r
}

impl<L> Router<L> {
    /// A router without routes.
    pub fn new() -> (r: Router<L>)
        ensures
            r@ == Seq::<RouteModel>::empty(),
    {
        let r = Router { routes: Vec::new() };
        assert(routes_model(r.routes@) =~= Seq::<RouteModel>::empty());
        r
    }

    /// Adds a top-level route after those already there.
    pub fn route(self, r: Route<L>) -> (out: Router<L>)
        ensures
            out@ == self@.push(r@),
    {
        let mut s = self;
        let ghost before = s.routes@;
        s.routes.push(r);
        assert(s.routes@.drop_last() =~= before);
        s
    }
}

impl<L: RouteLoader> Router<L> {
    fn resolve_once(&mut self, path: &str) -> (res: (Result<ResolveStep, RouterError>, Ghost<Seq<GuardResult>>))
        ensures
            !(match_path(old(self)@, path@) is NeedLoad) ==> final(self)@ == old(self)@
                && outcome_ok(res.0, match_path(old(self)@, path@), path@),
            !(res.0 matches Err(e) && e is LazyLoad) ==> outcome_ok(res.0, match_path(final(self)@, path@), path@),
            match_path(old(self)@, path@) is Consumed ==> (res.0 matches Err(e) && consumed_error(e)),
            res.0 matches Ok(ResolveStep::Redirect(t)) ==> hop_verdict(final(self)@, path@, res.1@) == Some(
                StepModel::Redirect(t@),
            ),
            res.0 matches Err(RouterError::Forbidden { path: p, reason }) ==> hop_verdict(
                final(self)@,
                path@,
                res.1@,
            ) == Some(StepModel::Deny(reason@)) && p@ == path@,
            res.0 matches Ok(ResolveStep::Hit(_)) ==> hop_verdict(final(self)@, path@, res.1@) == Some(
                StepModel::Hit,
            ),
    {
        let (path_part, query) = split_query(path);
        let pcs = chars_of(path_part.as_str());
        let segs = segments(&pcs);
        let base: RouteAddr = Vec::new();
        let params0 = ParamMap::new();
        let chain0: Vec<GuardRef> = Vec::new();
        assert(base@ =~= Seq::<(bool, usize)>::empty());
        assert(chain_model(chain0@) =~= Seq::<GuardRefModel>::empty());
        let mut budget: usize = usize::MAX;
        loop
            invariant
                strs(segs@) == segments_s(path_part_s(path@)),
                query@ == query_s(path@),
                base@ == Seq::<(bool, usize)>::empty(),
                params0@ == Seq::<(Seq<char>, Seq<char>)>::empty(),
                chain_model(chain0@) == Seq::<GuardRefModel>::empty(),
                !(match_path(old(self)@, path@) is NeedLoad) ==> self@ == old(self)@,
            decreases budget,
        {
            let m = match_list(&self.routes, false, &base, &segs, 0, &params0, &chain0);
            match m {
                MatchStep::NeedLoad(addr) => {
                    if budget == 0 || addr.len() == 0 {
                        return (
                            Err(RouterError::LazyLoad {
                                route: "<lazy>".to_owned(),
                                message: "too many lazy routes loaded".to_owned(),
                            }),
                            Ghost(Seq::empty()),
                        );
                    }
                    budget = budget - 1;
                    match load_at(&mut self.routes, &addr, 0) {
                        Ok(_) => {},
                        Err(e) => {
                            return (
                                Err(RouterError::LazyLoad { route: "<lazy>".to_owned(), message: lazy_message(e) }),
                                Ghost(Seq::empty()),
                            );
                        },
                    }
                },
                MatchStep::Consumed => {
                    return (Err(consumed_err()), Ghost(Seq::empty()));
                },
                MatchStep::NotFound => {
                    let mut msg = "/".to_owned();
                    let joined = join_segs(&segs, 0);
                    assert(strs(segs@).skip(0) =~= strs(segs@));
                    msg.append(joined.as_str());
                    return (Err(RouterError::NotFound(msg)), Ghost(Seq::empty()));
                },
                MatchStep::Hit { view, params, chain } => {
                    let ctx = RouteContext::for_navigation(path, params, query);
                    let mut answers: Vec<GuardResult> = Vec::new();
                    let mut i: usize = 0;
                    let mut stop = false;
                    while i < chain.len() && !stop
                        invariant
                            i <= chain@.len(),
                            match_path(self@, path@) == (MatchModel::Hit {
                                view: view@,
                                params: ctx.params@,
                                chain: chain_model(chain@),
                            }),
                            !(match_path(old(self)@, path@) is NeedLoad) ==> self@ == old(self)@,
                        decreases chain@.len() - i,
                    {
                        let g = &chain[i];
                        let answer = match route_at(&self.routes, &g.addr, 0) {
                            Some(route) => {
                                if g.index < route.guards.len() {
                                    route.guards[g.index].check.check(&ctx)
                                } else {
                                    GuardResult::Allow
                                }
                            },
                            None => GuardResult::Allow,
                        };
                        stop = match &answer {
                            GuardResult::Allow => false,
                            _ => true,
                        };
                        answers.push(answer);
                        i = i + 1;
                    }
                    let r = self.resolve_with(path, &answers);
                    proof {
                        lemma_settled_outcome(r, view@, ctx.params@, chain_model(chain@), answers@, path@);
                        lemma_settled_verdict(r, view@, ctx.params@, chain_model(chain@), answers@, path@);
                    }
                    return (r, Ghost(answers@));
                },
            }
        }
    }

    /// One step of resolving `path` without loading anything, taking
    /// `answers[i]` as what the `i`-th guard of the matched chain said (a
    /// missing answer allows, extra ones are not read): the first answer that
    /// is not `Allow` ends the step with a redirect to its target or with
    /// `Forbidden` for `path` and its reason; when all allow, the hit. A path
    /// that needs a lazy route loaded gives a `LazyLoad` error.
    pub fn resolve_with(&self, path: &str, answers: &Vec<GuardResult>) -> (r: Result<ResolveStep, RouterError>)
        ensures
            match match_path(self@, path@) {
                MatchModel::NotFound => r matches Err(e) && e is NotFound && (e->NotFound_0)@ == not_found_s(path@),
                MatchModel::Hit { view, params, chain } => settled_s(r, view, params, chain, answers@, path@),
                MatchModel::NeedLoad(_) => r matches Err(e) && e is LazyLoad,
                MatchModel::Consumed => r matches Err(e) && consumed_error(e),
            },
    {
        let (path_part, query) = split_query(path);
        let pcs = chars_of(path_part.as_str());
        let segs = segments(&pcs);
        let base: RouteAddr = Vec::new();
        let params0 = ParamMap::new();
        let chain0: Vec<GuardRef> = Vec::new();
        assert(base@ =~= Seq::<(bool, usize)>::empty());
        assert(chain_model(chain0@) =~= Seq::<GuardRefModel>::empty());
        let m = match_list(&self.routes, false, &base, &segs, 0, &params0, &chain0);
        match m {
            MatchStep::NeedLoad(_) => Err(RouterError::LazyLoad {
                route: "<lazy>".to_owned(),
                message: "lazy route not loaded".to_owned(),
            }),
            MatchStep::Consumed => Err(consumed_err()),
            MatchStep::NotFound => {
                let mut msg = "/".to_owned();
                let joined = join_segs(&segs, 0);
                assert(strs(segs@).skip(0) =~= strs(segs@));
                msg.append(joined.as_str());
                Err(RouterError::NotFound(msg))
            },
            MatchStep::Hit { view, params, chain } => {
                let names = chain_name_list(&chain);
                let ghost cm = chain_model(chain@);
                assert(cm.len() == chain@.len());
                let res = Resolved { view, chain: names, params, query };
                settle(res, answers, chain.len(), path)
            },
        }
    }

    /// Resolves `path`: matches it against the routes, loading lazy
    /// children on the way, then runs the guards of the matched routes in
    /// order, each handed `RouteContext::for_navigation` of the path, its
    /// parameters and query. A redirect starts over at its target; up to 8
    /// redirects are followed, and a ninth gives `RedirectLoop`. The outcome
    /// is stated over the hops taken: each hop's guard answers, read as
    /// `resolve_with` reads them, redirect to the next hop, and the last one
    /// settles, is denied, or is not found.
    pub fn resolve(&mut self, path: &str) -> (r: Result<Resolved, RouterError>)
        ensures
            match match_path(old(self)@, path@) {
                MatchModel::NotFound => r matches Err(e) && e is NotFound && (e->NotFound_0)@ == not_found_s(path@)
                    && final(self)@ == old(self)@,
                MatchModel::Hit { view, params, chain } => chain.len() == 0 ==> (r matches Ok(res) && res.view@
                    == view && res.chain@.len() == 0 && res.params@ == params && res.query@ == query_s(path@)
                    && final(self)@ == old(self)@),
                _ => true,
            },
            match_path(old(self)@, path@) is Consumed ==> (r matches Err(e) && consumed_error(e) && final(self)@
                == old(self)@),
            match r {
                Err(RouterError::RedirectLoop(p)) => p@ == path@ && exists|
                    hops: Seq<(Seq<RouteModel>, Seq<char>, Seq<GuardResult>)>,
                |
                    #[trigger] hops_from(path@, hops) && hops.len() == 9 && hop_verdict(
                        hops.last().0,
                        hops.last().1,
                        hops.last().2,
                    ) matches Some(StepModel::Redirect(_)),
                Ok(res) => exists|hops: Seq<(Seq<RouteModel>, Seq<char>, Seq<GuardResult>)>|
                    #[trigger] hops_from(path@, hops) && hops.len() <= 9 && hops.last().0 == final(self)@
                        && hop_verdict(final(self)@, hops.last().1, hops.last().2) == Some(StepModel::Hit) && (match_path(
                        final(self)@,
                        hops.last().1,
                    ) matches MatchModel::Hit { view, params, chain } && view == res.view@ && params == res.params@
                        && chain_names(chain) == strs(res.chain@) && res.query@ == query_s(hops.last().1)),
                Err(RouterError::NotFound(m)) => exists|hops: Seq<(Seq<RouteModel>, Seq<char>, Seq<GuardResult>)>|
                    #[trigger] hops_from(path@, hops) && hops.len() <= 9 && match_path(hops.last().0, hops.last().1)
                        is NotFound && m@ == not_found_s(hops.last().1),
                Err(RouterError::Forbidden { path: p, reason }) => exists|
                    hops: Seq<(Seq<RouteModel>, Seq<char>, Seq<GuardResult>)>,
                |
                    #[trigger] hops_from(path@, hops) && hops.len() <= 9 && p@ == hops.last().1 && hop_verdict(
                        hops.last().0,
                        hops.last().1,
                        hops.last().2,
                    ) == Some(StepModel::Deny(reason@)),
                _ => true,
            },
    {
        let mut current = path.to_owned();
        let mut n: usize = 0;
        let ghost mut hops: Seq<(Seq<RouteModel>, Seq<char>, Seq<GuardResult>)> = Seq::empty();
        while n < 9
            invariant
                n <= 9,
                hops.len() == n,
                n == 0 ==> current@ == path@ && self@ == old(self)@,
                n > 0 ==> !(match_path(old(self)@, path@) is NotFound),
                n > 0 ==> !(match_path(old(self)@, path@) is Consumed),
                n > 0 ==> !(match_path(old(self)@, path@) matches MatchModel::Hit { chain, .. } && chain.len() == 0),
                n > 0 ==> hops_from(path@, hops) && hop_verdict(hops.last().0, hops.last().1, hops.last().2) == Some(
                    StepModel::Redirect(current@),
                ),
            decreases 9 - n,
        {
            let (step, Ghost(ans)) = self.resolve_once(current.as_str());
            let ghost hops2 = hops.push((self@, current@, ans));
            proof {
                assert(hops2[n as int] == (self@, current@, ans));
                if n > 0 {
                    assert forall|i: int| 0 <= i < hops2.len() - 1 implies hop_verdict(
                        #[trigger] hops2[i].0,
                        hops2[i].1,
                        hops2[i].2,
                    ) == Some(StepModel::Redirect(hops2[i + 1].1)) by {
                        if i < n - 1 {
                            assert(hops2[i] == hops[i]);
                            assert(hops2[i + 1] == hops[i + 1]);
                        } else {
                            assert(hops2[i] == hops.last());
                        }
                    }
                }
                assert(hops_from(path@, hops2));
            }
            match step {
                Ok(ResolveStep::Hit(res)) => {
                    assert(match_path(self@, current@) matches MatchModel::Hit { .. });
                    assert(hops2.last() == (self@, current@, ans));
                    return Ok(res);
                },
                Ok(ResolveStep::Redirect(to)) => {
                    proof {
                        hops = hops2;
                    }
                    current = to;
                },
                Err(e) => {
                    assert(hops2.last() == (self@, current@, ans));
                    return Err(e);
                },
            }
            n = n + 1;
        }
        Err(RouterError::RedirectLoop(path.to_owned()))
    }
}

/// What a guard's answer does to the navigation to `path`: `None` lets it
/// go on to the next guard, a redirect restarts resolution at its target,
/// and a denial ends it with `Forbidden`.
pub fn guard_verdict(answer: GuardResult, path: &str) -> (r: Option<Result<String, RouterError>>)
    ensures
        match answer {
            GuardResult::Allow => r is None,
            GuardResult::Redirect(to) => r matches Some(Ok(t)) && t@ == to@,
            GuardResult::Deny(reason) => r matches Some(Err(RouterError::Forbidden { path: p, reason: why }))
                && p@ == path@ && why@ == reason@,
        },
{
    match answer {
        GuardResult::Allow => None,
        GuardResult::Redirect(to) => Some(Ok(to)),
        GuardResult::Deny(reason) => Some(Err(RouterError::Forbidden { path: path.to_owned(), reason })),
    }
}

spec fn outcome_ok(r: Result<ResolveStep, RouterError>, m: MatchModel, path: Seq<char>) -> bool {
    match m {
        MatchModel::NotFound => r matches Err(e) && e is NotFound && (e->NotFound_0)@ == not_found_s(path),
        MatchModel::Hit { view, params, chain } => {
            &&& chain.len() == 0 ==> (r matches Ok(ResolveStep::Hit(res)) && res.view@ == view
                && res.chain@.len() == 0 && res.params@ == params && res.query@ == query_s(path))
            &&& r matches Ok(ResolveStep::Hit(res)) ==> (res.view@ == view && strs(res.chain@)
                == chain_names(chain) && res.params@ == params && res.query@ == query_s(path))
            &&& r matches Err(e) ==> (e is Forbidden && (e->Forbidden_path)@ == path)
        },
        _ => r matches Err(e) && e is LazyLoad,
    }
}

/// The text an error carries: the message of a failed load, the path of a
/// path not found or of a redirect loop, the reason of a denial.
pub open spec fn error_detail(e: RouterError) -> Seq<char> {
    match e {
        RouterError::LazyLoad { route: _, message } => message@,
        RouterError::NotFound(m) => m@,
        RouterError::Forbidden { path: _, reason } => reason@,
        RouterError::RedirectLoop(m) => m@,
    }
}

fn lazy_message(e: RouterError) -> (m: String)
    ensures
        m@ == error_detail(e),
{
    match e {
        RouterError::LazyLoad { route: _, message } => message,
        RouterError::NotFound(m) => m,
        RouterError::Forbidden { path: _, reason } => reason,
        RouterError::RedirectLoop(m) => m,
    }
}

pub open spec fn router_error_text(e: RouterError) -> Seq<char> {
    match e {
        RouterError::NotFound(p) => "no route matched for path `"@ + p@ + "`"@,
        RouterError::Forbidden { path, reason } => "navigation to `"@ + path@ + "` denied: "@ + reason@,
        RouterError::RedirectLoop(p) => "redirect loop resolving `"@ + p@ + "`"@,
        RouterError::LazyLoad { route, message } => "failed to load lazy route `"@ + route@ + "`: "@ + message@,
    }
}

impl RouterError {
    /// The error as text.
    pub fn message(&self) -> (r: String)
        ensures
            r@ == router_error_text(*self),
    {
        let r = match self {
            RouterError::NotFound(p) => concat(&["no route matched for path `", p.as_str(), "`"]),
            RouterError::Forbidden { path, reason } => concat(&["navigation to `", path.as_str(), "` denied: ", reason.as_str()]),
            RouterError::RedirectLoop(p) => concat(&["redirect loop resolving `", p.as_str(), "`"]),
            RouterError::LazyLoad { route, message } => concat(&["failed to load lazy route `", route.as_str(), "`: ", message.as_str()]),
        };
        proof {
            reveal_with_fuel(concat_s, 5);
        }
        assert(r@ =~= router_error_text(*self));
        r
    }
}

} // verus!
